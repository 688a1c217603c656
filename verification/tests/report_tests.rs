use mdseek::analyzer::analyze_documents;
use mdseek::insights::{diagnose_knowledge_base, suggest_links, SuggestionOptions};
use mdseek::parser::parse_markdown;
use mdseek::report::{escape_html, render_report, render_report_with_extras, ReportExtras, ReportFormat};
use mdseek::types::DocumentId;

#[test]
fn renders_markdown_report_with_summary_and_graph() {
    let docs = vec![
        parse_markdown(DocumentId(0), "notes/a.md", "# A\nSee [[b]].\n#rust"),
        parse_markdown(DocumentId(1), "notes/b.md", "# B"),
    ];
    let report = analyze_documents(&docs);

    let rendered = render_report(&report, 12, ReportFormat::Markdown);

    assert!(rendered.contains("# mdseek Knowledge Report"));
    assert!(rendered.contains("| Documents | 2 |"));
    assert!(rendered.contains("```mermaid"));
    assert!(rendered.contains("notes/b.md"));
}

#[test]
fn renders_html_report_and_escapes_content() {
    let docs = vec![parse_markdown(
        DocumentId(0),
        "notes/a.md",
        "# A\n[bad](<missing>.md)",
    )];
    let report = analyze_documents(&docs);

    let rendered = render_report(&report, 3, ReportFormat::Html);

    assert!(rendered.contains("<!doctype html>"));
    assert!(rendered.contains("Indexed terms"));
    assert!(rendered.contains("&lt;missing&gt;.md"));
}

#[test]
fn parses_report_format_aliases() {
    assert_eq!(ReportFormat::parse("md"), Some(ReportFormat::Markdown));
    assert_eq!(ReportFormat::parse("html"), Some(ReportFormat::Html));
    assert_eq!(ReportFormat::parse("pdf"), None);
}

#[test]
fn enriched_report_contains_health_and_suggestions() {
    let docs = vec![
        parse_markdown(DocumentId(0), "notes/a.md", "# A\nB topic.\n#demo"),
        parse_markdown(DocumentId(1), "notes/b.md", "# B\nA topic.\n#demo"),
    ];
    let report = analyze_documents(&docs);
    let suggestions = suggest_links(&docs, SuggestionOptions::default());
    let health = diagnose_knowledge_base(&report, &suggestions);

    let rendered = render_report_with_extras(
        &report,
        5,
        ReportFormat::Markdown,
        ReportExtras {
            health: Some(&health),
            suggestions: &suggestions,
        },
    );

    assert!(rendered.contains("Knowledge Health"));
    assert!(rendered.contains("Suggested Missing Links"));
}

#[test]
fn format_names_ignore_case_and_extensions_parse_back() {
    assert_eq!(ReportFormat::parse("MarkDown"), Some(ReportFormat::Markdown));
    assert_eq!(ReportFormat::parse("HTM"), Some(ReportFormat::Html));
    assert_eq!(ReportFormat::parse(""), None);
    for f in [ReportFormat::Markdown, ReportFormat::Html] {
        assert_eq!(ReportFormat::parse(f.default_extension()), Some(f));
    }
    assert_eq!(ReportFormat::Markdown.default_extension(), "md");
    assert_eq!(ReportFormat::Html.default_extension(), "html");
}

#[test]
fn escapes_every_markup_character() {
    assert_eq!(escape_html("a<b>&\"c'"), "a&lt;b&gt;&amp;&quot;c&#39;");
    let escaped = escape_html("<<'\">>");
    assert!(!escaped.contains('<') && !escaped.contains('>') && !escaped.contains('"') && !escaped.contains('\''));
}

#[test]
fn markdown_report_lists_sections_and_scores() {
    let docs = vec![
        parse_markdown(DocumentId(0), "notes/a.md", "# A\nSee [[b]] and [x](x.md).\n#rust"),
        parse_markdown(DocumentId(1), "notes/b.md", "# B\n#rust"),
    ];
    let report = analyze_documents(&docs);
    let rendered = render_report(&report, 7, ReportFormat::Markdown);
    assert!(rendered.contains("| Indexed terms | 7 |"));
    assert!(rendered.contains("- `#rust`: 2"));
    assert!(rendered.contains("- `notes/a.md` line 2 -> `x.md`"));
    assert!(rendered.contains("- `notes/a.md`\n"));
    assert!(rendered.contains("- `notes/b.md`: 1"));
    assert!(rendered.contains("No high-confidence missing links found."));
    assert!(rendered.ends_with("```\n"));
}

#[test]
fn html_page_opens_closes_and_lists_metrics_and_broken_links() {
    let docs = vec![parse_markdown(DocumentId(0), "notes/a.md", "# A\n[[gone]]")];
    let report = analyze_documents(&docs);

    let rendered = render_report(&report, 7, ReportFormat::Html);

    assert!(rendered.starts_with("<!doctype html>\n"));
    assert!(rendered.ends_with("</html>\n"));
    assert!(rendered.contains("<div><dt>Documents</dt><dd>1</dd></div>"));
    assert!(rendered.contains("<div><dt>Indexed terms</dt><dd>7</dd></div>"));
    assert!(rendered.contains("<div><dt>Broken links</dt><dd>1</dd></div>"));
    assert!(rendered.contains("<li><code>notes/a.md</code> line 2 -&gt; <code>gone</code></li>"));
}
