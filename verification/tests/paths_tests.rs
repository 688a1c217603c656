use mdseek::paths::{normalize_path_str, path_equiv_exec, path_lt_exec};

#[test]
fn normalizes_paths_once_and_for_all() {
    let cases = ["./notes/x/../b.md", "/a/./b//c/..", "../../a", "a/..", "/..", "", "notes/"];
    let expected = ["notes/b.md", "/a/b", "a", "", "/", "", "notes"];
    for (case, want) in cases.iter().zip(expected.iter()) {
        let once = normalize_path_str(case);
        assert_eq!(once, *want);
        assert_eq!(normalize_path_str(&once), once);
    }
}

#[test]
fn compares_paths_by_components() {
    assert!(path_equiv_exec("a//b/", "a/b"));
    assert!(path_equiv_exec("a/./b", "a/b"));
    // A leading `.` is a component of its own.
    assert!(!path_equiv_exec("./a", "a"));
    assert!(!path_equiv_exec("a/../b", "b"));
    assert!(path_lt_exec("a/z.md", "a.md"));
    assert!(path_lt_exec("a.md", "b/a.md"));
    assert!(!path_lt_exec("b", "a"));
}

#[test]
fn normalized_paths_have_no_dot_components() {
    let n = mdseek::paths::normalize_path_str("./notes/../a/./b/../../c/d.md");
    assert_eq!(n, "c/d.md");
    assert!(n.split('/').all(|p| !p.is_empty() && p != "." && p != ".."));
}
