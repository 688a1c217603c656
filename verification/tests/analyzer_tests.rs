use mdseek::analyzer::analyze_documents;
use mdseek::parser::parse_markdown;
use mdseek::types::DocumentId;

#[test]
fn detects_backlinks_broken_links_and_tags() {
    let docs = vec![
        parse_markdown(
            DocumentId(0),
            "notes/a.md",
            "# A\nSee [[b]] and [missing](missing.md).\n#rust",
        ),
        parse_markdown(DocumentId(1), "notes/b.md", "# B\n#rust #search"),
    ];

    let report = analyze_documents(&docs);

    assert_eq!(report.total_documents, 2);
    assert_eq!(report.total_links, 2);
    assert_eq!(report.broken_links.len(), 1);
    assert_eq!(report.backlinks_for("notes/b.md")[0].source, "notes/a.md");
    assert_eq!(report.tags[0].tag, "rust");
}

#[test]
fn total_links_split_into_broken_and_resolved() {
    let docs = vec![
        parse_markdown(
            DocumentId(0),
            "notes/a.md",
            "# A\nSee [[b]] and [missing](missing.md) and [[a]].\n[web](https://example.com)",
        ),
        parse_markdown(DocumentId(1), "notes/b.md", "# B\n[[./a.md]]"),
    ];
    let report = analyze_documents(&docs);
    let resolved: usize = report.backlinks.iter().map(|(_, v)| v.len()).sum();
    assert_eq!(report.total_links, 4);
    assert_eq!(report.broken_links.len() + resolved, report.total_links);
    assert_eq!(report.broken_links[0].target, "missing.md");
    assert_eq!(report.broken_links[0].line, 2);
}

#[test]
fn backlinks_for_normalizes_the_path() {
    let docs = vec![
        parse_markdown(DocumentId(0), "notes/a.md", "# A\nSee [[b]]."),
        parse_markdown(DocumentId(1), "notes/b.md", "# B"),
    ];
    let report = analyze_documents(&docs);
    assert_eq!(report.backlinks_for("./notes/x/../b.md").len(), 1);
    assert_eq!(report.backlinks_for("notes/a.md").len(), 0);
}

#[test]
fn orphans_are_documents_without_inbound_links() {
    let docs = vec![
        parse_markdown(DocumentId(0), "a.md", "# A\n[[b]]"),
        parse_markdown(DocumentId(1), "b.md", "# B"),
        parse_markdown(DocumentId(2), "c.md", "# C"),
    ];
    let report = analyze_documents(&docs);
    assert_eq!(report.orphan_documents, vec!["a.md".to_string(), "c.md".to_string()]);
}

#[test]
fn tags_are_counted_and_ranked() {
    let docs = vec![
        parse_markdown(DocumentId(0), "a.md", "#zeta #alpha"),
        parse_markdown(DocumentId(1), "b.md", "#alpha #beta"),
    ];
    let report = analyze_documents(&docs);
    assert_eq!(report.tags.len(), 3);
    assert_eq!(report.tags[0].tag, "alpha");
    assert_eq!(report.tags[0].count, 2);
    assert_eq!(report.tags[1].tag, "beta");
    assert_eq!(report.tags[2].tag, "zeta");
}

#[test]
fn mermaid_lists_each_edge_once() {
    let docs = vec![
        parse_markdown(DocumentId(0), "notes/a.md", "# A\n[[b]] and [[b]]"),
        parse_markdown(DocumentId(1), "notes/b.md", "# B"),
    ];
    let report = analyze_documents(&docs);
    let graph = report.to_mermaid();
    assert!(graph.starts_with("graph TD"));
    assert_eq!(graph.matches("-->").count(), 1);
}
