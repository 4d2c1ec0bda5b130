use tfidf_index::tokenizer::{tokenize, Lexer};

fn chars(s: &str) -> Vec<char> {
    s.chars().collect()
}

fn toks(s: &str) -> Vec<String> {
    let cs = chars(s);
    tokenize(&cs)
}

#[test]
fn tokenize_numeric_run() {
    assert_eq!(toks("1.0"), vec!["1.0".to_string()]);
}

#[test]
fn tokenize_word_uppercased() {
    assert_eq!(toks("glClear"), vec!["GLCLEAR".to_string()]);
}

#[test]
fn tokenize_numeric_swallows_adjacent_punctuation() {
    assert_eq!(toks("3,4."), vec!["3,4.".to_string()]);
}

#[test]
fn tokenize_words_and_symbols() {
    assert_eq!(
        toks("a+b = c"),
        vec![
            "A".to_string(),
            "+".to_string(),
            "B".to_string(),
            "=".to_string(),
            "C".to_string()
        ]
    );
}

#[test]
fn tokenize_skips_whitespace() {
    assert_eq!(
        toks("  foo   bar\tbaz\nqux\r"),
        vec![
            "FOO".to_string(),
            "BAR".to_string(),
            "BAZ".to_string(),
            "QUX".to_string()
        ]
    );
}

#[test]
fn tokenize_empty_inputs() {
    assert_eq!(toks(""), Vec::<String>::new());
    assert_eq!(toks("   \t\n  "), Vec::<String>::new());
}

#[test]
fn tokenize_non_ascii_letters_uppercased() {
    // Word tokens are upper-cased per Unicode, not only in ASCII.
    assert_eq!(toks("héllo"), vec!["HÉLLO".to_string()]);
    assert_eq!(toks("é"), vec!["É".to_string()]);
}

#[test]
fn tokenize_uppercase_may_lengthen_token() {
    // One character can uppercase to several.
    assert_eq!(toks("straße"), vec!["STRASSE".to_string()]);
}

#[test]
fn tokenize_numeric_needs_decimal_digits() {
    // Only a decimal digit starts a numeric run; other Unicode numerics do
    // not, and a Roman numeral is neither a digit nor alphabetic, so it
    // stands alone as a symbol token.
    assert_eq!(toks("3Ⅻ"), vec!["3".to_string(), "Ⅻ".to_string()]);
}

#[test]
fn tokenize_never_yields_empty_tokens() {
    for s in ["", " ", "a", "1.0 x+y", "  mixed 42 !! teXt  ", "\"quoted\""] {
        for t in toks(s) {
            assert!(!t.is_empty());
        }
    }
}

#[test]
fn tokenize_consumes_left_to_right() {
    // The tokens of "ab 12 +" appear in input order and cover every
    // non-whitespace character exactly once.
    let ts = toks("ab 12 +");
    assert_eq!(
        ts,
        vec!["AB".to_string(), "12".to_string(), "+".to_string()]
    );
    let consumed: usize = ts.iter().map(|t| t.chars().count()).sum();
    let non_ws = "ab 12 +".chars().filter(|c| !c.is_ascii_whitespace()).count();
    assert_eq!(consumed, non_ws);
}

#[test]
fn lexer_next_token_steps() {
    let cs = chars("word 7: x");
    let mut lx = Lexer::new(&cs);
    assert_eq!(lx.next_token(), Some("WORD".to_string()));
    assert_eq!(lx.next_token(), Some("7:".to_string()));
    assert_eq!(lx.next_token(), Some("X".to_string()));
    assert_eq!(lx.next_token(), None);
    assert_eq!(lx.next_token(), None);
}
