use mdseek::analyzer::analyze_documents;
use mdseek::index::SearchIndex;
use mdseek::report::{render_report, ReportFormat};
use mdseek::scanner::load_documents;
use mdseek::search::search_candidates;
use mdseek::storage::{cache_text, parse_cache};
use mdseek::tokenizer::SimpleTokenizer;

#[test]
fn searches_analyzes_and_caches_notes_read_from_texts() {
    let files = vec![
        (
            "root/rust.md".to_string(),
            "# Rust Ownership\nOwnership controls borrowing.\nSee [[search]].\n#rust".to_string(),
        ),
        (
            "root/search.md".to_string(),
            "# Search\nInverted index and ranking.\n[Broken](missing.md)\n#rust #search".to_string(),
        ),
    ];
    let documents = load_documents(&files);
    let index = SearchIndex::build(documents.clone(), SimpleTokenizer::default());
    let results = search_candidates(&index, "ownership borrowing");

    assert_eq!(documents.len(), 2);
    assert_eq!(results.len(), 1);
    assert!(results[0].title.contains("Rust"));

    let report = analyze_documents(&documents);
    assert_eq!(report.total_documents, 2);
    assert_eq!(report.total_links, 2);
    assert_eq!(report.broken_links.len(), 1);
    assert_eq!(report.tags[0].tag, "rust");
    assert!(render_report(&report, index.terms().len(), ReportFormat::Markdown).contains("mdseek Knowledge Report"));

    let cached = parse_cache(&cache_text(&documents)).unwrap();
    assert_eq!(cached.len(), 2);
    assert_eq!(cached, documents);
}
