use mdseek::scanner::{is_markdown_file, load_documents, should_skip_dir, sort_paths};

#[test]
fn recognizes_notes_and_skipped_directories() {
    assert!(is_markdown_file("notes/a.md"));
    assert!(is_markdown_file("notes/b.MARKDOWN"));
    assert!(is_markdown_file("c.mdown"));
    assert!(!is_markdown_file("ignore.txt"));
    assert!(!is_markdown_file(".md"));
    assert!(should_skip_dir("root/.git"));
    assert!(should_skip_dir("root/target"));
    assert!(should_skip_dir("node_modules"));
    assert!(!should_skip_dir("root/notes"));
    assert!(!should_skip_dir("/"));
}

#[test]
fn loads_documents_numbered_in_order() {
    let files: Vec<(String, String)> = (0..6)
        .map(|i| (format!("note-{i}.md"), format!("# Note {i}")))
        .collect();
    let documents = load_documents(&files);
    assert_eq!(documents.len(), 6);
    for (index, document) in documents.iter().enumerate() {
        assert_eq!(document.id.0, index);
        assert_eq!(document.title.as_deref(), Some(format!("Note {index}").as_str()));
    }
}

#[test]
fn sorts_paths_by_components() {
    let sorted = sort_paths(vec!["b/a.md".to_string(), "a.md".to_string(), "a/z.md".to_string()]);
    // `a` is a shorter first component than `a.md`.
    assert_eq!(sorted, vec!["a/z.md".to_string(), "a.md".to_string(), "b/a.md".to_string()]);
}
