use mdseek::index::SearchIndex;
use mdseek::parser::parse_markdown;
use mdseek::search::{search_candidates, SearchCandidate, SearchOptions};
use mdseek::tokenizer::SimpleTokenizer;
use mdseek::types::{DocumentId, Field};

#[test]
fn empty_query_returns_no_results() {
    let index = SearchIndex::build(Vec::new(), SimpleTokenizer::default());

    assert!(search_candidates(&index, "   ").is_empty());
}

#[test]
fn finds_candidates_with_hits_terms_and_snippets() {
    let docs = vec![
        parse_markdown(DocumentId(0), "a.md", "# Ownership\nRust ownership rules."),
        parse_markdown(DocumentId(1), "b.md", "# Other\nOwnership appears once."),
        parse_markdown(DocumentId(2), "c.md", "# Unrelated\nNothing here."),
    ];
    let index = SearchIndex::build(docs, SimpleTokenizer::default());
    let mut candidates = search_candidates(&index, "ownership ownership rules");
    candidates.sort_by_key(|c| c.doc_id.0);
    assert_eq!(candidates.len(), 2);
    let a = &candidates[0];
    assert_eq!(a.path, "a.md");
    assert_eq!(a.title, "Ownership");
    assert_eq!(a.matched_terms, vec!["ownership".to_string(), "rules".to_string()]);
    assert_eq!(a.snippet.as_deref(), Some("L1: # Ownership"));
    // ownership: title, heading and body postings; rules: body.
    assert_eq!(a.hits.len(), 4);
    assert_eq!(a.hits[0].field, Field::Title);
    assert_eq!(a.hits[0].document_frequency, 2);
    let b = &candidates[1];
    assert_eq!(b.matched_terms, vec!["ownership".to_string()]);
    assert_eq!(b.snippet.as_deref(), Some("L2: Ownership appears once."));
    assert_eq!(b.hits.len(), 1);
    assert_eq!(b.hits[0].frequency, 1);
    // other, other, b, md, other, ownership, appears, once
    assert_eq!(b.hits[0].document_length, 8);
    assert_eq!(SearchOptions::default().limit, 10);
}

/// The TF-IDF score of a candidate from its hits, as the program ranks results.
fn score(index: &SearchIndex, candidate: &SearchCandidate) -> f32 {
    let count = index.len() as f32;
    candidate
        .hits
        .iter()
        .map(|hit| {
            let idf = ((count + 1.0) / (hit.document_frequency as f32 + 1.0)).ln() + 1.0;
            let weight = match hit.field {
                Field::Title => 4.0,
                Field::Heading => 2.5,
                Field::Tag => 2.0,
                Field::Path => 1.5,
                Field::Body => 1.0,
            };
            hit.frequency as f32 / (hit.document_length as f32).sqrt() * idf * weight
        })
        .sum()
}

#[test]
fn returns_ranked_results_with_snippets() {
    let docs = vec![
        parse_markdown(DocumentId(0), "a.md", "# Ownership\nRust ownership rules."),
        parse_markdown(DocumentId(1), "b.md", "# Other\nOwnership appears once."),
    ];
    let index = SearchIndex::build(docs, SimpleTokenizer::default());

    let mut results = search_candidates(&index, "ownership");
    results.sort_by(|a, b| score(&index, b).partial_cmp(&score(&index, a)).unwrap());
    results.truncate(SearchOptions { limit: 5 }.limit);

    assert_eq!(results.len(), 2);
    assert_eq!(results[0].path, "a.md");
    assert!(results[0].snippet.as_ref().unwrap().contains("Ownership"));
}
