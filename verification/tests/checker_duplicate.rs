#![allow(unused_imports)]
use wenv::model::entry::{Entry, EntryType, ParseResult, ParseWarning};
use wenv::model::shell::ShellType;
use wenv::checker::duplicate::DuplicateChecker;
use wenv::checker::Checker;

#[test]
fn test_no_duplicates() {
    let entries = vec![
        Entry::new(EntryType::Alias, "ll".into(), "ls -la".into()),
        Entry::new(EntryType::Alias, "gs".into(), "git status".into()),
    ];

    let checker = DuplicateChecker;
    let result = checker.check(&entries);

    assert!(result.is_ok());
}

#[test]
fn test_duplicate_alias() {
    let entries = vec![
        Entry::new(EntryType::Alias, "ll".into(), "ls -la".into()).with_line_number(1),
        Entry::new(EntryType::Alias, "ll".into(), "ls -l".into()).with_line_number(5),
    ];

    let checker = DuplicateChecker;
    let result = checker.check(&entries);

    assert!(!result.is_ok());
    assert_eq!(result.issues.len(), 1);
    assert!(result.issues[0].message.contains("Duplicate"));
}

#[test]
fn test_same_name_different_type() {
    // Same name but different type should not be a duplicate
    let entries = vec![
        Entry::new(EntryType::Alias, "ll".into(), "ls -la".into()),
        Entry::new(EntryType::Function, "ll".into(), "echo hello".into()),
    ];

    let checker = DuplicateChecker;
    let result = checker.check(&entries);

    assert!(result.is_ok());
}
