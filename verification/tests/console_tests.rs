use mdseek::analyzer::analyze_documents;
use mdseek::console::{backlinks_text, doctor_text, indexed_text, links_text, stats_text, suggestions_text, written_text};
use mdseek::insights::{diagnose_knowledge_base, suggest_links, SuggestionOptions};
use mdseek::parser::parse_markdown;
use mdseek::report::ReportFormat;
use mdseek::types::DocumentId;

fn sample() -> Vec<mdseek::types::Document> {
    vec![
        parse_markdown(DocumentId(0), "notes/a.md", "# A\nSee [[b]] and [x](x.md).\n#rust"),
        parse_markdown(DocumentId(1), "notes/b.md", "# B\n#rust #web"),
    ]
}

#[test]
fn prints_stats_and_links() {
    let report = analyze_documents(&sample());
    assert_eq!(
        stats_text(&report, 9),
        "Documents: 2\nInternal links: 2\nIndexed terms: 9\nBroken links: 1\nOrphan documents: 1\nTop tags:\n  #rust 2\n  #web 1\n"
    );
    assert_eq!(
        links_text(&report),
        "Broken links: 1\n  notes/a.md:2 -> x.md\nOrphan documents: 1\n  notes/a.md\n"
    );
}

#[test]
fn prints_backlinks_or_their_absence() {
    let report = analyze_documents(&sample());
    assert_eq!(
        backlinks_text("notes/b.md", &report.backlinks_for("notes/b.md")),
        "Backlinks for notes/b.md:\n  notes/a.md:2 [[b]]\n"
    );
    assert_eq!(backlinks_text("notes/a.md", &report.backlinks_for("notes/a.md")), "No backlinks for notes/a.md\n");
}

#[test]
fn prints_suggestions_and_health() {
    let docs = vec![
        parse_markdown(DocumentId(0), "a.md", "# A\n#t"),
        parse_markdown(DocumentId(1), "b.md", "# B\n#t"),
    ];
    let suggestions = suggest_links(&docs, SuggestionOptions { limit: 1, min_score: 1 });
    assert_eq!(suggestions_text(&suggestions), "Suggested missing links:\n1. a.md -> b.md (4.0)\n   - shared tags: t\n");
    assert_eq!(suggestions_text(&[]), "No high-confidence missing links found.\n");
    let report = analyze_documents(&docs);
    let health = diagnose_knowledge_base(&report, &suggestions);
    let text = doctor_text(&health);
    assert!(text.starts_with("Knowledge health score: 68/100\n[warning] No internal link graph\n"));
    assert!(text.ends_with("[info] Potential missing links\n  1 high-confidence note relationships are not linked yet.\n  action: Review `mdseek suggest-links` suggestions and add useful wiki links.\n"));
    assert_eq!(indexed_text(3, "notes/.mdseek-cache"), "Indexed 3 Markdown files into notes/.mdseek-cache\n");
    assert_eq!(written_text(ReportFormat::Html, "r.html"), "Wrote html report to r.html\n");
}
