#![allow(unused_imports)]
use wenv::parser::builders::{count_braces_outside_quotes, count_parens_outside_quotes, extract_comment, strip_quotes};

#[test]
fn mod_test_count_braces_simple() {
    let (open, close) = count_braces_outside_quotes("function test() {");
    assert_eq!(open, 1);
    assert_eq!(close, 0);
}

#[test]
fn test_count_braces_in_double_quotes() {
    let (open, close) = count_braces_outside_quotes(r#"echo "{ not counted }""#);
    assert_eq!(open, 0);
    assert_eq!(close, 0);
}

#[test]
fn test_count_braces_in_single_quotes() {
    let (open, close) = count_braces_outside_quotes("echo '{ also ignored }'");
    assert_eq!(open, 0);
    assert_eq!(close, 0);
}

#[test]
fn mod_test_count_braces_mixed() {
    let (open, close) = count_braces_outside_quotes(r#"{ echo "}" }"#);
    assert_eq!(open, 1);
    assert_eq!(close, 1);
}

#[test]
fn test_extract_comment_basic() {
    let (code, comment) = extract_comment("alias ll='ls -la' # list files", '#');
    assert_eq!(code, "alias ll='ls -la'");
    assert_eq!(comment, Some("list files".to_string()));
}

#[test]
fn test_extract_comment_in_single_quotes() {
    let (code, comment) = extract_comment("alias x='echo # not a comment'", '#');
    assert_eq!(code, "alias x='echo # not a comment'");
    assert_eq!(comment, None);
}

#[test]
fn test_extract_comment_in_double_quotes() {
    let (code, comment) = extract_comment("echo \"# not a comment\"", '#');
    assert_eq!(code, "echo \"# not a comment\"");
    assert_eq!(comment, None);
}

#[test]
fn test_extract_comment_none() {
    let (code, comment) = extract_comment("echo hello", '#');
    assert_eq!(code, "echo hello");
    assert_eq!(comment, None);
}

#[test]
fn mod_test_strip_quotes_single() {
    assert_eq!(strip_quotes("'hello'"), "hello");
}

#[test]
fn mod_test_strip_quotes_double() {
    assert_eq!(strip_quotes("\"hello\""), "hello");
}

#[test]
fn mod_test_strip_quotes_none() {
    assert_eq!(strip_quotes("hello"), "hello");
}

#[test]
fn test_strip_quotes_mismatched() {
    assert_eq!(strip_quotes("'hello\""), "'hello\"");
}

#[test]
fn test_strip_quotes_with_whitespace() {
    assert_eq!(strip_quotes("  'hello'  "), "hello");
}

#[test]
fn strip_quotes_keeps_a_lone_quote() {
    assert_eq!(strip_quotes("'"), "'");
    assert_eq!(strip_quotes("  \"  "), "\"");
    assert_eq!(strip_quotes("''"), "");
}
