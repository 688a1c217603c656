use mdseek::parser::parse_markdown;
use mdseek::types::{DocumentId, LinkKind};

#[test]
fn parses_headings_links_and_tags() {
    let doc = parse_markdown(
        DocumentId(0),
        "notes/rust.md",
        "# Rust Notes\nSee [[Ownership|owning]] and [Borrowing](borrow.md).\n#rust #systems",
    );

    assert_eq!(doc.title.as_deref(), Some("Rust Notes"));
    assert_eq!(doc.headings.len(), 1);
    assert_eq!(doc.links.len(), 2);
    assert_eq!(doc.links[0].kind, LinkKind::Wiki);
    assert_eq!(doc.links[1].kind, LinkKind::Markdown);
    assert_eq!(doc.tags, vec!["rust", "systems"]);
}

#[test]
fn ignores_markdown_inside_code_fences() {
    let doc = parse_markdown(
        DocumentId(0),
        "notes/code.md",
        "```rust\n# Not A Heading\n[[not-a-link]]\n```\n# Real Heading",
    );

    assert_eq!(doc.headings.len(), 1);
    assert_eq!(doc.links.len(), 0);
    assert_eq!(doc.title.as_deref(), Some("Real Heading"));
}

#[test]
fn wiki_link_target_and_text_are_trimmed() {
    let doc = parse_markdown(DocumentId(3), "a.md", "x [[ Target | shown ]] y");

    assert_eq!(doc.links.len(), 1);
    assert_eq!(doc.links[0].target, "Target");
    assert_eq!(doc.links[0].text.as_deref(), Some("shown"));
    assert_eq!(doc.links[0].raw, "[[ Target | shown ]]");
    assert_eq!(doc.links[0].line, 1);
}

#[test]
fn images_and_external_links() {
    let doc = parse_markdown(
        DocumentId(0),
        "a.md",
        "![img](pic.png) [site](https://example.com) [mail]( mailto:x@y ) [](empty.md) [x]()",
    );

    assert_eq!(doc.links.len(), 3);
    assert_eq!(doc.links[0].kind, LinkKind::External);
    assert_eq!(doc.links[1].kind, LinkKind::External);
    assert_eq!(doc.links[1].target, "mailto:x@y");
    assert_eq!(doc.links[2].kind, LinkKind::Markdown);
    assert_eq!(doc.links[2].text, None);
}

#[test]
fn headings_need_space_and_at_most_six_markers() {
    let doc = parse_markdown(
        DocumentId(0),
        "a.md",
        "##NoSpace\n####### seven\n## Two ##\n# One",
    );

    assert_eq!(doc.headings.len(), 2);
    assert_eq!(doc.headings[0].text, "Two");
    assert_eq!(doc.headings[0].level, 2);
    assert_eq!(doc.headings[0].line, 3);
    assert_eq!(doc.title.as_deref(), Some("One"));
}

#[test]
fn tags_are_lowercased_sorted_and_unique() {
    let doc = parse_markdown(DocumentId(0), "a.md", "#Zeta #alpha #zeta a#b/c");

    assert_eq!(doc.tags, vec!["alpha", "b/c", "zeta"]);
}

#[test]
fn lines_follow_str_lines() {
    let doc = parse_markdown(DocumentId(0), "a.md", "a\r\nb\n\nc\n");

    assert_eq!(doc.lines, vec!["a", "b", "", "c"]);
    assert_eq!(doc.body, "a\r\nb\n\nc\n");
}

#[test]
fn display_title_falls_back_to_file_stem() {
    let doc = parse_markdown(DocumentId(0), "notes/my.note.md", "no heading");
    assert_eq!(doc.display_title(), "my.note");

    let titled = parse_markdown(DocumentId(0), "notes/x.md", "## Sub");
    assert_eq!(titled.display_title(), "Sub");
}
