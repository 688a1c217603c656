use mdseek::error::MdSeekError;

#[test]
fn messages_name_the_kind_of_error() {
    let io = MdSeekError::io("notes/a.md", std::io::Error::new(std::io::ErrorKind::Other, "gone"));
    assert_eq!(io.to_string(), "notes/a.md: gone");
    match io {
        MdSeekError::Io { path, .. } => assert_eq!(path.as_deref(), Some("notes/a.md")),
        _ => panic!("expected an I/O error"),
    }
    let plain = MdSeekError::Io { path: None, source: std::io::Error::new(std::io::ErrorKind::Other, "lost") };
    assert_eq!(plain.to_string(), "lost");
    assert_eq!(MdSeekError::InvalidArgs("bad".to_string()).to_string(), "bad");
    assert_eq!(MdSeekError::Parse("odd".to_string()).to_string(), "parse error: odd");
    assert_eq!(MdSeekError::Storage("full".to_string()).to_string(), "storage error: full");
}
