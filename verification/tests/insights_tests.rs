use mdseek::analyzer::analyze_documents;
use mdseek::insights::{diagnose_knowledge_base, f32_score, suggest_links, Severity, SuggestionOptions};
use mdseek::parser::parse_markdown;
use mdseek::types::DocumentId;

#[test]
fn suggests_missing_links_from_title_mentions_and_tags() {
    let docs = vec![
        parse_markdown(
            DocumentId(0),
            "notes/ownership.md",
            "# Ownership\nBorrowing works with ownership in Rust.\n#rust",
        ),
        parse_markdown(
            DocumentId(1),
            "notes/borrowing.md",
            "# Borrowing\nReferences avoid moving values.\n#rust",
        ),
    ];

    let suggestions = suggest_links(
        &docs,
        SuggestionOptions {
            limit: 5,
            min_score: 4,
        },
    );

    assert!(suggestions
        .iter()
        .any(|item| item.source.ends_with("ownership.md") && item.target.ends_with("borrowing.md")));
}

#[test]
fn skips_existing_internal_links() {
    let docs = vec![
        parse_markdown(
            DocumentId(0),
            "notes/ownership.md",
            "# Ownership\nSee [[borrowing]].\n#rust",
        ),
        parse_markdown(DocumentId(1), "notes/borrowing.md", "# Borrowing\n#rust"),
    ];

    let suggestions = suggest_links(&docs, SuggestionOptions::default());

    assert!(!suggestions
        .iter()
        .any(|item| item.source.ends_with("ownership.md") && item.target.ends_with("borrowing.md")));
}

#[test]
fn diagnoses_broken_links_orphans_and_missing_links() {
    let docs = vec![
        parse_markdown(
            DocumentId(0),
            "notes/a.md",
            "# A\nSee [missing](missing.md).\n#rust",
        ),
        parse_markdown(DocumentId(1), "notes/b.md", "# B\nA topic.\n#rust"),
    ];
    let report = analyze_documents(&docs);
    let suggestions = suggest_links(&docs, SuggestionOptions::default());

    let health = diagnose_knowledge_base(&report, &suggestions);

    assert!(health.score < 100);
    assert!(health
        .issues
        .iter()
        .any(|issue| issue.severity == Severity::Critical));
}

#[test]
fn scores_and_explains_a_suggestion() {
    let docs = vec![
        parse_markdown(
            DocumentId(0),
            "notes/ownership.md",
            "# Ownership\nBorrowing works with ownership in Rust.\n#rust",
        ),
        parse_markdown(
            DocumentId(1),
            "notes/borrowing.md",
            "# Borrowing\nReferences avoid moving values.\n#rust",
        ),
    ];
    let suggestions = suggest_links(&docs, SuggestionOptions { limit: 5, min_score: 1 });
    let first = &suggestions[0];
    assert_eq!(first.source, "notes/ownership.md");
    assert_eq!(first.target, "notes/borrowing.md");
    // 4 for the shared tag, 3 for the title term in the body, 6 for the title phrase.
    assert_eq!(first.score, 13);
    assert_eq!(
        first.reasons,
        vec![
            "shared tags: rust".to_string(),
            "source mentions target title terms: borrowing".to_string(),
            "source contains the target title phrase".to_string(),
        ]
    );
    // 4 for the shared tag, 2 for its own title term in the other body.
    assert_eq!(suggestions[1].score, 6);
    assert_eq!(
        suggestions[1].reasons,
        vec!["shared tags: rust".to_string(), "target mentions source title terms: borrowing".to_string()]
    );
}

#[test]
fn limits_to_at_least_one_suggestion() {
    let docs = vec![
        parse_markdown(DocumentId(0), "a.md", "# A\n#t"),
        parse_markdown(DocumentId(1), "b.md", "# B\n#t"),
    ];
    let suggestions = suggest_links(&docs, SuggestionOptions { limit: 0, min_score: 1 });
    assert_eq!(suggestions.len(), 1);
    assert_eq!(suggestions[0].source, "a.md");
    let none = suggest_links(&docs, SuggestionOptions { limit: 5, min_score: 100 });
    assert!(none.is_empty());
}

#[test]
fn healthy_base_scores_full_marks() {
    let docs = vec![
        parse_markdown(DocumentId(0), "a.md", "# A\n[[b]]\n#x"),
        parse_markdown(DocumentId(1), "b.md", "# B\n[[a]]\n#y"),
    ];
    let report = analyze_documents(&docs);
    let health = diagnose_knowledge_base(&report, &[]);
    assert_eq!(health.score, 100);
    assert!(health.issues.is_empty());
}

#[test]
fn issues_come_by_severity_then_title() {
    let docs = vec![
        parse_markdown(DocumentId(0), "a.md", "# A\n[x](x.md)"),
        parse_markdown(DocumentId(1), "b.md", "# B"),
    ];
    let report = analyze_documents(&docs);
    let health = diagnose_knowledge_base(&report, &[]);
    let titles: Vec<&str> = health.issues.iter().map(|i| i.title.as_str()).collect();
    assert_eq!(titles, vec!["Broken internal links", "Orphan documents", "No tags found"]);
    assert_eq!(health.issues[0].detail, "1 internal links point to missing notes.");
    assert_eq!(health.issues[1].detail, "2 notes have no incoming internal links.");
    // 100 - 8 - 10 - 10
    assert_eq!(health.score, 72);

    let unlinked = vec![
        parse_markdown(DocumentId(0), "a.md", "# A"),
        parse_markdown(DocumentId(1), "b.md", "# B"),
    ];
    let report = analyze_documents(&unlinked);
    let health = diagnose_knowledge_base(&report, &[]);
    let titles: Vec<&str> = health.issues.iter().map(|i| i.title.as_str()).collect();
    assert_eq!(titles, vec!["No internal link graph", "Orphan documents", "No tags found"]);
    assert_eq!(health.issues[0].severity, Severity::Warning);
    // 100 - 20 - 10 - 10
    assert_eq!(health.score, 60);
}

#[test]
fn scores_are_kept_at_f32_precision() {
    assert_eq!(f32_score(12), 12);
    assert_eq!(f32_score(16_777_216), 16_777_216);
    assert_eq!(f32_score(16_777_217), 16_777_216);
    assert_eq!(f32_score(16_777_218), 16_777_218);
    assert_eq!(f32_score(16_777_219), 16_777_220);
    assert_eq!(f32_score(33_554_434), 33_554_432);
    assert_eq!(f32_score(33_554_435), 33_554_436);
    for n in [0u128, 7, 16_777_215, 16_777_217, 16_777_219, 33_554_435, 123_456_789, 4_294_967_295] {
        assert_eq!(f32_score(n), (n as f32) as u128);
    }
}
