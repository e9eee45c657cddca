use wezterm_core::tokenizer::{argv_split, TokenizeError};

fn split(s: &str) -> Vec<String> {
    argv_split(s, true).expect("split succeeded")
}

#[test]
fn empty_input() {
    assert_eq!(split(""), Vec::<String>::new());
}

#[test]
fn only_whitespace() {
    assert_eq!(split("   \t  "), Vec::<String>::new());
}

#[test]
fn simple_tokens() {
    assert_eq!(split("foo bar baz"), vec!["foo", "bar", "baz"]);
}

#[test]
fn tab_separator() {
    assert_eq!(split("foo\tbar"), vec!["foo", "bar"]);
}

#[test]
fn leading_whitespace_skipped() {
    assert_eq!(split("   foo bar"), vec!["foo", "bar"]);
}

#[test]
fn double_quoted_preserves_space() {
    assert_eq!(split(r#""foo bar" baz"#), vec!["foo bar", "baz"]);
}

#[test]
fn single_quoted_preserves_space() {
    assert_eq!(split(r#"'foo bar' baz"#), vec!["foo bar", "baz"]);
}

#[test]
fn mixed_quote_styles() {
    // Each token uses a different quote style; both are stripped.
    assert_eq!(split(r#"'"' "'""#), vec![r#"""#, r#"'"#]);
}

#[test]
fn quote_concatenation_forms_single_token() {
    // `a'b c'd` → `ab cd`: the single-quoted section is glued to
    // the unquoted neighbours, matching shell-style concat.
    assert_eq!(split(r#"a'b c'd"#), vec!["ab cd"]);
}

#[test]
fn empty_quotes_produce_empty_token() {
    assert_eq!(split(r#""""#), vec![""]);
}

#[test]
fn backslash_space_outside_quotes() {
    assert_eq!(split(r"foo\ bar baz"), vec!["foo bar", "baz"]);
}

#[test]
fn backslash_space_inside_quotes_stays_literal() {
    // Inside quotes, `\space` is NOT a recognised escape, so the
    // backslash is kept literal and the space is taken as a
    // normal quoted character.
    assert_eq!(split(r#""foo\ bar""#), vec![r"foo\ bar"]);
}

#[test]
fn backslash_backslash_consumed() {
    assert_eq!(split(r"foo\\bar"), vec![r"foo\bar"]);
}

#[test]
fn backslash_double_quote_inside_double_quote() {
    assert_eq!(split(r#""a\"b""#), vec![r#"a"b"#]);
}

#[test]
fn backslash_single_quote_inside_single_quote() {
    assert_eq!(split(r"'a\'b'"), vec!["a'b"]);
}

#[test]
fn unrecognised_escape_keeps_backslash() {
    assert_eq!(split(r"foo\xbar"), vec![r"foo\xbar"]);
}

#[test]
fn trailing_backslash_kept_literal() {
    assert_eq!(split(r"foo\"), vec![r"foo\"]);
}

#[test]
fn comment_terminates_with_flag() {
    assert_eq!(
        argv_split("foo bar # baz qux", true).unwrap(),
        vec!["foo", "bar"]
    );
}

#[test]
fn comment_not_terminator_without_flag() {
    assert_eq!(
        argv_split("foo bar # baz", false).unwrap(),
        vec!["foo", "bar", "#", "baz"]
    );
}

#[test]
fn comment_inside_quotes_is_literal() {
    assert_eq!(
        argv_split(r#""foo # bar" baz"#, true).unwrap(),
        vec!["foo # bar", "baz"]
    );
}

#[test]
fn unbalanced_double_quote_errors() {
    assert_eq!(
        argv_split(r#""unclosed"#, true),
        Err(TokenizeError::UnbalancedQuote)
    );
}

#[test]
fn unbalanced_single_quote_errors() {
    assert_eq!(
        argv_split(r"'unclosed", true),
        Err(TokenizeError::UnbalancedQuote)
    );
}

#[test]
fn realistic_identity_file_quoted_space() {
    // Matches the ssh -G ground truth for:
    //   IdentityFile "/home/me/.ssh/path with space/id_rsa"
    assert_eq!(
        split(r#""/home/me/.ssh/path with space/id_rsa""#),
        vec!["/home/me/.ssh/path with space/id_rsa"]
    );
}

#[test]
fn realistic_identity_file_escaped_space() {
    // Matches the ssh -G ground truth for:
    //   IdentityFile /home/me/.ssh/path\ with\ space/id_rsa
    assert_eq!(
        split(r"/home/me/.ssh/path\ with\ space/id_rsa"),
        vec!["/home/me/.ssh/path with space/id_rsa"]
    );
}

#[test]
fn realistic_identity_file_two_tokens_one_line() {
    // `IdentityFile /a /b` tokenises to two tokens; the caller
    // (the config parser) is responsible for rejecting extra
    // arguments for directives that only accept one.
    assert_eq!(
        split("/home/me/.ssh/first /home/me/.ssh/second"),
        vec!["/home/me/.ssh/first", "/home/me/.ssh/second"]
    );
}

#[test]
fn utf8_content_preserved() {
    // Non-ASCII bytes outside of quoting punctuation pass through
    // transparently and round-trip as valid UTF-8 `String`s.
    assert_eq!(split("föö bär"), vec!["föö", "bär"]);
    assert_eq!(split(r#""日本 語""#), vec!["日本 語"]);
}

#[test]
fn leading_separators_change_nothing() {
    for s in ["a 'b c' d\\ e", "\"x\" # y", "plain"] {
        let padded = format!(" \t  {s}");
        assert_eq!(argv_split(&padded, true), argv_split(s, true));
        assert_eq!(argv_split(&padded, false), argv_split(s, false));
    }
}

#[test]
fn values_without_quotes_always_split() {
    for s in ["a\\", "\\\\ \\x", "# only", "tab\there"] {
        assert!(argv_split(s, true).is_ok());
        assert!(argv_split(s, false).is_ok());
    }
}

#[test]
fn plain_words_split_like_split_whitespace() {
    let s = "  alpha beta\tgamma  delta ";
    let expect: Vec<String> = s.split_whitespace().map(|w| w.to_string()).collect();
    assert_eq!(argv_split(s, true).unwrap(), expect);
}

#[test]
fn unbalanced_quote_message() {
    assert_eq!(TokenizeError::UnbalancedQuote.message(), "unbalanced quotes in value");
}

#[test]
fn double_quoted_tokens_round_trip() {
    let toks: Vec<String> = vec!["a b".into(), "".into(), "it's".into(), "#x".into(), "\tt".into()];
    let q = toks.iter().map(|t| format!("\"{}\"", t)).collect::<Vec<_>>().join(" ");
    assert_eq!(argv_split(&q, true), Ok(toks.clone()));
    assert_eq!(argv_split(&q, false), Ok(toks));
}

#[test]
fn plain_text_splits_on_space_and_tab_only() {
    let s = " a\nb\t\tc  d\u{a0}e ";
    let expect: Vec<String> = s
        .split(|c: char| c == ' ' || c == '\t')
        .filter(|t| !t.is_empty())
        .map(String::from)
        .collect();
    assert_eq!(expect, vec!["a\nb", "c", "d\u{a0}e"]);
    assert_eq!(argv_split(s, true).unwrap(), expect);
    assert_eq!(argv_split(s, false).unwrap(), expect);
}
