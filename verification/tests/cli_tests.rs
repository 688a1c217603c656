use mdseek::cli::{parse_args, Command};
use mdseek::error::MdSeekError;
use mdseek::report::ReportFormat;

fn cwd() -> Result<String, MdSeekError> {
    Ok("/work".to_string())
}

#[test]
fn parses_search_command() {
    let command = parse_args(
        vec![
            "mdseek".to_string(),
            "search".to_string(),
            "ownership".to_string(),
            "--root".to_string(),
            "notes".to_string(),
            "--limit".to_string(),
            "3".to_string(),
        ],
        cwd(),
    )
    .unwrap();

    assert_eq!(
        command,
        Command::Search {
            query: "ownership".to_string(),
            root: "notes".to_string(),
            cache: None,
            limit: 3,
            case_sensitive: false,
        }
    );
}

#[test]
fn parses_search_options_in_any_order() {
    let command = parse_args(
        vec![
            "mdseek".to_string(),
            "search".to_string(),
            "ownership".to_string(),
            "--limit".to_string(),
            "3".to_string(),
            "--case-sensitive".to_string(),
            "--root".to_string(),
            "notes".to_string(),
        ],
        cwd(),
    )
    .unwrap();

    assert_eq!(
        command,
        Command::Search {
            query: "ownership".to_string(),
            root: "notes".to_string(),
            cache: None,
            limit: 3,
            case_sensitive: true,
        }
    );
}

#[test]
fn rejects_unknown_command() {
    let err = parse_args(vec!["mdseek".to_string(), "wat".to_string()], cwd()).unwrap_err();

    assert!(err.to_string().contains("unknown command"));
}

#[test]
fn parses_report_command() {
    let command = parse_args(
        vec![
            "mdseek".to_string(),
            "report".to_string(),
            "--format".to_string(),
            "html".to_string(),
            "--output".to_string(),
            "report.html".to_string(),
            "--root".to_string(),
            "notes".to_string(),
        ],
        cwd(),
    )
    .unwrap();

    assert_eq!(
        command,
        Command::Report {
            root: "notes".to_string(),
            cache: None,
            format: ReportFormat::Html,
            output: Some("report.html".to_string()),
        }
    );
}

#[test]
fn parses_suggest_links_command() {
    let command = parse_args(
        vec![
            "mdseek".to_string(),
            "suggest-links".to_string(),
            "--root".to_string(),
            "notes".to_string(),
            "--limit".to_string(),
            "7".to_string(),
            "--min-score".to_string(),
            "6".to_string(),
        ],
        cwd(),
    )
    .unwrap();

    assert_eq!(
        command,
        Command::SuggestLinks {
            root: "notes".to_string(),
            cache: None,
            limit: 7,
            min_score: 6,
        }
    );
}

#[test]
fn parses_doctor_command() {
    let command = parse_args(
        vec![
            "mdseek".to_string(),
            "doctor".to_string(),
            "--root".to_string(),
            "notes".to_string(),
        ],
        cwd(),
    )
    .unwrap();

    assert_eq!(
        command,
        Command::Doctor {
            root: "notes".to_string(),
            cache: None,
        }
    );
}

fn args(items: &[&str]) -> Vec<String> {
    items.iter().map(|s| s.to_string()).collect()
}

#[test]
fn defaults_root_cache_and_help() {
    assert_eq!(parse_args(args(&["mdseek"]), cwd()).unwrap(), Command::Help);
    assert_eq!(parse_args(args(&["mdseek", "--help"]), cwd()).unwrap(), Command::Help);
    assert_eq!(
        parse_args(args(&["mdseek", "stats"]), cwd()).unwrap(),
        Command::Stats { root: "/work".to_string(), cache: None }
    );
    assert_eq!(
        parse_args(args(&["mdseek", "index", "notes"]), cwd()).unwrap(),
        Command::Index { root: "notes".to_string(), cache: "notes/.mdseek-cache".to_string() }
    );
    assert_eq!(
        parse_args(args(&["mdseek", "index", "notes/"]), cwd()).unwrap(),
        Command::Index { root: "notes/".to_string(), cache: "notes/.mdseek-cache".to_string() }
    );
    assert_eq!(
        parse_args(args(&["mdseek", "suggest-links", "--min-score", "0"]), cwd()).unwrap(),
        Command::SuggestLinks { root: "/work".to_string(), cache: None, limit: 12, min_score: 1 }
    );
}

#[test]
fn reports_each_invalid_argument() {
    let message = |items: &[&str]| parse_args(args(items), cwd()).unwrap_err().to_string();
    assert_eq!(message(&["mdseek", "search"]), "missing query");
    assert_eq!(message(&["mdseek", "search", "--limit", "3"]), "missing query");
    assert_eq!(message(&["mdseek", "stats", "--root"]), "missing value for --root");
    assert_eq!(message(&["mdseek", "search", "q", "--limit", "x"]), "--limit must be a positive number");
    assert_eq!(message(&["mdseek", "links", "extra"]), "unexpected argument 'extra'");
    assert_eq!(
        message(&["mdseek", "report", "--format", "pdf"]),
        "--format must be markdown, md, html, or htm"
    );
    assert_eq!(message(&["mdseek", "wat"]), "unknown command 'wat'. Run `mdseek help`.");
}

#[test]
fn working_directory_error_surfaces_where_it_is_needed() {
    let failing = || Err(MdSeekError::Io { path: None, source: std::io::Error::new(std::io::ErrorKind::Other, "gone") });
    let err = parse_args(args(&["mdseek", "stats", "--root", "notes"]), failing()).unwrap_err();
    assert!(matches!(err, MdSeekError::Io { .. }));
    let ok = parse_args(args(&["mdseek", "index", "notes"]), failing()).unwrap();
    assert!(matches!(ok, Command::Index { .. }));
    let first = parse_args(args(&["mdseek", "search"]), failing()).unwrap_err();
    assert!(matches!(first, MdSeekError::InvalidArgs(_)));
}
