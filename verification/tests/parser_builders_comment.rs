#![allow(unused_imports)]
use wenv::model::entry::{Entry, EntryType, ParseResult, ParseWarning};
use wenv::model::shell::ShellType;
use wenv::parser::builders::comment::CommentBlockBuilder;

#[test]
fn test_is_comment_line() {
    assert!(CommentBlockBuilder::is_comment_line("# comment"));
    assert!(CommentBlockBuilder::is_comment_line("  # indented comment"));
    assert!(CommentBlockBuilder::is_comment_line("#"));
    assert!(!CommentBlockBuilder::is_comment_line("alias x='y'"));
    assert!(!CommentBlockBuilder::is_comment_line(
        "alias x='y' # inline"
    ));
    assert!(!CommentBlockBuilder::is_comment_line(""));
}

#[test]
fn test_is_standalone_comment() {
    assert!(CommentBlockBuilder::is_standalone_comment("# comment"));
    assert!(CommentBlockBuilder::is_standalone_comment("  # indented"));
    assert!(!CommentBlockBuilder::is_standalone_comment(
        "alias x='y' # inline"
    ));
    assert!(!CommentBlockBuilder::is_standalone_comment(""));
}

#[test]
fn test_single_line_comment() {
    let builder = CommentBlockBuilder::new(5, "# This is a comment");
    let entry = builder.build();

    assert_eq!(entry.name, "#L5");
    // Changed: value now includes # prefix
    assert_eq!(entry.value, "# This is a comment");
    assert_eq!(entry.line_number, Some(5));
    assert_eq!(entry.end_line, Some(5));
    assert_eq!(entry.entry_type, EntryType::Comment);
}

#[test]
fn test_multi_line_comment() {
    let mut builder = CommentBlockBuilder::new(10, "# Header comment");
    builder.add_line("# Second line");
    builder.add_line("# Third line");
    let entry = builder.build();

    assert_eq!(entry.name, "#L10-L12");
    assert_eq!(entry.line_number, Some(10));
    assert_eq!(entry.end_line, Some(12));
    // Changed: value now includes # prefix
    assert!(entry.value.contains("# Header comment"));
    assert!(entry.value.contains("# Second line"));
    assert!(entry.value.contains("# Third line"));
}

#[test]
fn test_extract_text() {
    let mut builder = CommentBlockBuilder::new(1, "# Line 1");
    builder.add_line("#Line 2");
    builder.add_line("#  Line 3");

    let text = builder.extract_text();
    assert_eq!(text, "Line 1\nLine 2\nLine 3");
}

#[test]
fn test_raw_line_preserved() {
    let mut builder = CommentBlockBuilder::new(1, "  # Indented");
    builder.add_line("# Normal");
    let entry = builder.build();

    assert!(&entry.value.contains("  # Indented"));
    assert!(&entry.value.contains("# Normal"));
}
