use mdseek::tokenizer::{SimpleTokenizer, Tokenizer};

#[test]
fn tokenizes_ascii_and_cjk_text() {
    let tokenizer = SimpleTokenizer::default();
    let tokens = tokenizer.tokenize("Rust 所有权, borrow-checker!");

    assert_eq!(tokens, vec!["rust", "所有权", "borrow-checker"]);
}

#[test]
fn honors_case_sensitive_mode() {
    let tokenizer = SimpleTokenizer::new(true);

    assert_eq!(tokenizer.tokenize("Rust rust"), vec!["Rust", "rust"]);
}

#[test]
fn min_len_drops_short_terms() {
    let tokenizer = SimpleTokenizer::default().with_min_len(2);

    assert_eq!(tokenizer.tokenize("a bc d_e"), vec!["bc", "d_e"]);
}

#[test]
fn min_len_zero_counts_as_one() {
    let tokenizer = SimpleTokenizer::default().with_min_len(0);

    assert_eq!(tokenizer.tokenize("x,,y"), vec!["x", "y"]);
}

#[test]
fn drops_terms_below_the_minimum_length() {
    let tokenizer = SimpleTokenizer::default().with_min_len(3);
    assert_eq!(tokenizer.tokenize("a bb ccc dddd"), vec!["ccc", "dddd"]);
    let at_least_one = SimpleTokenizer::new(true).with_min_len(0);
    assert_eq!(at_least_one.tokenize("x Y_z"), vec!["x", "Y_z"]);
}

#[test]
fn tokens_are_maximal_word_runs() {
    let tokenizer = SimpleTokenizer::new(true);
    let tokens = tokenizer.tokenize("  a--b c_d!e\u{3000}Ünï  ");

    assert_eq!(tokens, vec!["a--b", "c_d", "e", "Ünï"]);
}
