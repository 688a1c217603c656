use mdseek::index::SearchIndex;
use mdseek::parser::parse_markdown;
use mdseek::tokenizer::SimpleTokenizer;
use mdseek::types::{DocumentId, Field};

#[test]
fn builds_postings_for_title_and_body() {
    let doc = parse_markdown(
        DocumentId(0),
        "rust.md",
        "# Ownership\nOwnership and borrowing are Rust features.",
    );
    let index = SearchIndex::build(vec![doc], SimpleTokenizer::default());

    assert!(index.postings("ownership").unwrap().len() >= 2);
    assert!(index.postings("borrowing").is_some());
}

#[test]
fn postings_record_fields_and_positions() {
    let doc = parse_markdown(DocumentId(3), "rust.md", "# Ownership\nOwnership rules ownership.");
    let index = SearchIndex::build(vec![doc], SimpleTokenizer::default());
    let postings = index.postings("ownership").unwrap();
    let title = postings.iter().find(|p| p.field == Field::Title).unwrap();
    assert_eq!(title.doc_id, DocumentId(3));
    assert_eq!(title.frequency(), 1);
    let body = postings.iter().find(|p| p.field == Field::Body).unwrap();
    assert_eq!(body.frequency(), 3);
    assert!(index.postings("missing").is_none());
}

#[test]
fn counts_document_length_and_documents() {
    let docs = vec![
        parse_markdown(DocumentId(0), "a.md", "alpha beta"),
        parse_markdown(DocumentId(1), "b.md", "gamma"),
    ];
    let index = SearchIndex::build(docs, SimpleTokenizer::default());
    assert_eq!(index.len(), 2);
    assert!(!index.is_empty());
    // a, md, alpha, beta
    assert_eq!(index.document_length(DocumentId(0)), 4);
    assert_eq!(index.document_length(DocumentId(7)), 0);
    assert_eq!(index.document(DocumentId(1)).unwrap().path, "b.md");
    assert!(index.document(DocumentId(9)).is_none());
    assert_eq!(index.tokenize_query("Alpha, GAMMA"), vec!["alpha", "gamma"]);
}

#[test]
fn try_build_indexes_ordinary_documents() {
    let docs = vec![parse_markdown(DocumentId(0), "a.md", "# Alpha\nbeta")];
    let index = SearchIndex::try_build(docs, SimpleTokenizer::default()).unwrap();
    assert_eq!(index.len(), 1);
    assert!(index.postings("alpha").is_some());
    assert_eq!(index.documents()[0].path, "a.md");
}
