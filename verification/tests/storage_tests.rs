use mdseek::error::MdSeekError;
use mdseek::parser::parse_markdown;
use mdseek::storage::{cache_text, escape, parse_cache, unescape};
use mdseek::types::DocumentId;

#[test]
fn cache_text_reads_back_to_the_same_documents() {
    let docs = vec![
        parse_markdown(DocumentId(0), "notes/a.md", "# A\nBody with\ttab and slash \\."),
        parse_markdown(DocumentId(4), "notes/b\\c.md", "line\r\nnext\n"),
    ];
    let text = cache_text(&docs);
    assert!(text.starts_with("MDSEEK_CACHE_V1\nDOC\t0\tnotes/a.md\t"));
    let loaded = parse_cache(&text).unwrap();
    assert_eq!(loaded, docs);
}

#[test]
fn escape_round_trips_and_rejects_bad_sequences() {
    let raw = "a\\b\tc\nd\re";
    assert_eq!(escape(raw), "a\\\\b\\tc\\nd\\re");
    assert_eq!(unescape(&escape(raw)).unwrap(), raw);
    match unescape("abc\\") {
        Err(MdSeekError::Storage(m)) => assert_eq!(m, "invalid trailing escape sequence"),
        _ => panic!("expected a storage error"),
    }
    match unescape("a\\qb") {
        Err(MdSeekError::Storage(m)) => assert_eq!(m, "invalid escape sequence: \\q"),
        _ => panic!("expected a storage error"),
    }
}

#[test]
fn reports_bad_caches() {
    let message = |text: &str| match parse_cache(text) {
        Err(e) => e.to_string(),
        Ok(_) => "ok".to_string(),
    };
    assert_eq!(message(""), "storage error: cache file is empty");
    assert_eq!(message("OTHER\n"), "storage error: unsupported cache format: OTHER");
    assert_eq!(message("MDSEEK_CACHE_V1\n\nDOC\t1\tp"), "storage error: invalid cache record at line 3");
    assert_eq!(message("MDSEEK_CACHE_V1\nDOC\tx\tp\tb"), "storage error: invalid document id at line 2");
    assert_eq!(message("MDSEEK_CACHE_V1\n  \n"), "ok");
}

#[test]
fn escapes_are_read_from_the_start() {
    assert_eq!(unescape("\\\\q").unwrap(), "\\q");
    match unescape("\\\\\\q") {
        Err(MdSeekError::Storage(m)) => assert_eq!(m, "invalid escape sequence: \\q"),
        _ => panic!("expected a storage error"),
    }
    assert!(!escape("a\tb\nc\rd").contains('\t'));
    assert!(!escape("a\tb\nc\rd").contains('\n'));
    assert!(!escape("a\tb\nc\rd").contains('\r'));
}
