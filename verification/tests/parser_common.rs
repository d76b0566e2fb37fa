#![allow(unused_imports)]
use wenv::parser::builders::{count_braces_outside_quotes, extract_comment, strip_quotes};

#[test]
fn common_test_strip_quotes_single() {
    assert_eq!(strip_quotes("'hello'"), "hello");
}

#[test]
fn common_test_strip_quotes_double() {
    assert_eq!(strip_quotes("\"hello\""), "hello");
}

#[test]
fn common_test_strip_quotes_none() {
    assert_eq!(strip_quotes("hello"), "hello");
}

#[test]
fn test_extract_comment() {
    let (code, comment) = extract_comment("alias ll='ls -la' # list files", '#');
    assert_eq!(code, "alias ll='ls -la'");
    assert_eq!(comment, Some("list files".to_string()));
}

#[test]
fn test_extract_comment_in_quotes() {
    let (code, comment) = extract_comment("alias test='echo # not a comment'", '#');
    assert_eq!(code, "alias test='echo # not a comment'");
    assert_eq!(comment, None);
}

#[test]
fn common_test_count_braces_simple() {
    let (open, close) = count_braces_outside_quotes("function test() {");
    assert_eq!(open, 1);
    assert_eq!(close, 0);
}

#[test]
fn test_count_braces_in_string() {
    // Braces inside quotes should be ignored
    let (open, close) = count_braces_outside_quotes(r#"echo "Unmatched brace: {""#);
    assert_eq!(open, 0);
    assert_eq!(close, 0);
}

#[test]
fn common_test_count_braces_mixed() {
    let (open, close) = count_braces_outside_quotes(r#"if test { echo "}" }"#);
    assert_eq!(open, 1);
    assert_eq!(close, 1);
}

#[test]
fn test_count_braces_single_quotes() {
    let (open, close) = count_braces_outside_quotes("echo '{' }");
    assert_eq!(open, 0);
    assert_eq!(close, 1);
}
