#![allow(unused_imports)]
use wenv::model::entry::{Entry, EntryType, ParseResult, ParseWarning};
use wenv::model::shell::ShellType;
use wenv::parser::builders::quoted::QuotedValueBuilder;

#[test]
fn test_count_single_quotes_basic() {
    assert_eq!(
        QuotedValueBuilder::count_single_quotes("alias x='hello'"),
        2
    );
    assert_eq!(QuotedValueBuilder::count_single_quotes("alias x='hello"), 1);
    assert_eq!(QuotedValueBuilder::count_single_quotes("echo hello"), 0);
}

#[test]
fn test_count_single_quotes_with_double() {
    // Single quotes inside double quotes should still be counted
    // because we're looking for single-quote boundaries
    assert_eq!(
        QuotedValueBuilder::count_single_quotes(r#"alias x='say "hi"'"#),
        2
    );
}

#[test]
fn test_has_unclosed_quote() {
    assert!(QuotedValueBuilder::has_unclosed_single_quote(
        "alias x='hello"
    ));
    assert!(!QuotedValueBuilder::has_unclosed_single_quote(
        "alias x='hello'"
    ));
    assert!(QuotedValueBuilder::has_unclosed_single_quote(
        "alias x='it'\\''s"
    ));
}

#[test]
fn test_multiline_alias() {
    let mut builder = QuotedValueBuilder::new("complex".into(), 5, "alias complex='echo line1");
    assert!(!builder.is_complete());

    builder.add_line("echo line2");
    assert!(!builder.is_complete());

    builder.add_line("echo line3'");
    assert!(builder.is_complete());

    let entry = builder.build(EntryType::Alias);
    assert_eq!(entry.name, "complex");
    assert_eq!(entry.line_number, Some(5));
    assert_eq!(entry.end_line, Some(7));
    assert!(entry.value.contains("line1"));
    assert!(entry.value.contains("line2"));
    assert!(entry.value.contains("line3"));
}

#[test]
fn test_single_line_complete() {
    let builder = QuotedValueBuilder::new("simple".into(), 10, "alias simple='value'");
    assert!(builder.is_complete());

    let entry = builder.build(EntryType::Alias);
    assert_eq!(entry.line_number, Some(10));
    assert_eq!(entry.end_line, Some(10));
}

#[test]
fn test_extract_value() {
    let builder = QuotedValueBuilder::new("test".into(), 1, "alias test='hello world'");
    assert_eq!(builder.extract_value(), "hello world");
}

#[test]
fn test_extract_value_multiline() {
    let mut builder = QuotedValueBuilder::new("multi".into(), 1, "alias multi='line1");
    builder.add_line("line2");
    builder.add_line("line3'");

    let value = builder.extract_value();
    assert!(value.contains("line1"));
    assert!(value.contains("line2"));
    assert!(value.contains("line3"));
}
