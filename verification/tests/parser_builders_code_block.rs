#![allow(unused_imports)]
use wenv::model::entry::{Entry, EntryType, ParseResult, ParseWarning};
use wenv::model::shell::ShellType;
use wenv::parser::builders::code_block::{create_blank_line_entry, CodeBlockBuilder};

#[test]
fn test_code_block_single_line() {
    let mut builder = CodeBlockBuilder::new(10);
    builder.add_line("echo hello");
    let entry = builder.build();

    assert_eq!(entry.name, "L10");
    assert_eq!(entry.line_number, Some(10));
    assert_eq!(entry.end_line, Some(10));
}

#[test]
fn test_code_block_multi_line() {
    let mut builder = CodeBlockBuilder::new(5);
    builder.add_line("if [ -f file ]; then");
    builder.add_line("    echo exists");
    builder.add_line("fi");
    let entry = builder.build();

    assert_eq!(entry.name, "L5-L7");
    assert_eq!(entry.line_number, Some(5));
    assert_eq!(entry.end_line, Some(7));
    assert_eq!(entry.entry_type, EntryType::Code);
}

#[test]
fn test_blank_line_entry_single() {
    let entry = create_blank_line_entry(15, 15);
    assert_eq!(entry.name, "L15");
    assert_eq!(entry.line_number, Some(15));
    assert_eq!(entry.end_line, Some(15));
}

#[test]
fn test_blank_line_entry_range() {
    let entry = create_blank_line_entry(20, 25);
    assert_eq!(entry.name, "L20-L25");
    assert_eq!(entry.line_number, Some(20));
    assert_eq!(entry.end_line, Some(25));
}
