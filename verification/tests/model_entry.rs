#![allow(unused_imports)]
use wenv::model::entry::{Entry, EntryType, ParseResult, ParseWarning};
use wenv::model::shell::ShellType;

#[test]
fn test_entry_type_display() {
    assert_eq!(EntryType::Alias.as_str(), "alias");
    assert_eq!(EntryType::Function.as_str(), "func");
    assert_eq!(EntryType::EnvVar.as_str(), "env");
    assert_eq!(EntryType::Source.as_str(), "source");
}

#[test]
fn test_entry_type_from_str() {
    assert_eq!("alias".parse::<EntryType>().unwrap(), EntryType::Alias);
    assert_eq!("func".parse::<EntryType>().unwrap(), EntryType::Function);
    assert_eq!(
        "function".parse::<EntryType>().unwrap(),
        EntryType::Function
    );
    assert_eq!("env".parse::<EntryType>().unwrap(), EntryType::EnvVar);
    assert_eq!("source".parse::<EntryType>().unwrap(), EntryType::Source);
}

#[test]
fn test_entry_creation() {
    let entry = Entry::new(EntryType::Alias, "ll".into(), "ls -la".into()).with_line_number(10);

    assert_eq!(entry.name, "ll");
    assert_eq!(entry.value, "ls -la");
    assert_eq!(entry.line_number, Some(10));
}

#[test]
fn test_entry_is_blank() {
    let blank = Entry::new(EntryType::Code, "L1".into(), String::new()).with_line_number(1);
    assert!(blank.is_blank());

    let non_blank = Entry::new(EntryType::Code, "L1".into(), "echo hi".into());
    assert!(!non_blank.is_blank());

    let comment = Entry::new(EntryType::Comment, "#L1".into(), "header".into());
    assert!(!comment.is_blank());
}

#[test]
fn test_entry_merge_trailing_comment_absorbs_blank() {
    let mut comment =
        Entry::new(EntryType::Comment, "#L1".into(), "# Header".into()).with_line_number(1);

    let blank = Entry::new(EntryType::Code, "L2".into(), String::new()).with_line_number(2);

    comment.merge_trailing(blank);

    assert_eq!(comment.entry_type, EntryType::Comment);
    assert_eq!(comment.line_number, Some(1));
    assert_eq!(comment.end_line, Some(2));
    assert_eq!(comment.name, "#L1-L2"); // Comment keeps #L prefix
                                        // value contains complete content
    assert_eq!(comment.value, "# Header\n");
}

#[test]
fn test_entry_merge_trailing_comment_plus_code() {
    let mut comment =
        Entry::new(EntryType::Comment, "#L1".into(), "# Note".into()).with_line_number(1);

    let code =
        Entry::new(EntryType::Code, "L2".into(), "echo hello".into()).with_line_number(2);

    comment.merge_trailing(code);

    assert_eq!(comment.entry_type, EntryType::Code);
    assert_eq!(comment.line_number, Some(1));
    assert_eq!(comment.end_line, Some(2));
    // value contains complete content (comment + code)
    assert_eq!(comment.value, "# Note\necho hello");
    // name preserves Comment's first line identifier but loses #L prefix when upgraded to Code
    assert_eq!(comment.name, "L1-L2");
}

#[test]
fn test_entry_merge_trailing_value() {
    let mut entry =
        Entry::new(EntryType::Code, "L1".into(), "line1".into()).with_line_number(1);

    let other = Entry::new(EntryType::Code, "L2".into(), "line2".into()).with_line_number(2);

    entry.merge_trailing(other);

    assert_eq!(entry.value, "line1\nline2");
}

#[test]
fn merge_trailing_keeps_structured_names() {
    let mut a = Entry::new(EntryType::Alias, "p".into(), "alias p='pwd'".into()).with_line_number(1);
    a.merge_trailing(Entry::new(EntryType::Code, "L2".into(), String::new()).with_line_number(2));
    assert_eq!(a.entry_type, EntryType::Alias);
    assert_eq!(a.name, "p");
    assert_eq!(a.line_number, Some(1));
    assert_eq!(a.end_line, Some(2));
    assert_eq!(a.value, "alias p='pwd'\n");
}
