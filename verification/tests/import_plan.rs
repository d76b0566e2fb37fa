use wenv::formatter::get_formatter;
use wenv::import::{
    decide, has_conflict, needs_answer, ConflictChoice, ConflictStrategy, ImportAction, ImportTally,
};
use wenv::model::entry::{Entry, EntryType};
use wenv::model::shell::ShellType;

fn alias(name: &str, value: &str) -> Entry {
    Entry::new(EntryType::Alias, name.to_string(), value.to_string())
}

#[test]
fn conflict_needs_same_type_and_name() {
    let current = vec![alias("ll", "alias ll='ls -l'"), Entry::new(EntryType::EnvVar, "gs".into(), "export gs=1".into())];
    assert!(has_conflict(&current, &alias("ll", "alias ll='ls -la'")));
    assert!(!has_conflict(&current, &alias("gs", "alias gs='git status'")));
    assert!(!has_conflict(&current, &alias("la", "alias la='ls -a'")));
    assert!(!has_conflict(&Vec::new(), &alias("ll", "x")));
}

#[test]
fn decisions_follow_the_strategy() {
    for s in [ConflictStrategy::Skip, ConflictStrategy::Overwrite, ConflictStrategy::Ask] {
        assert_eq!(decide(false, s, false, None), ImportAction::Append);
        assert!(!needs_answer(false, s, false));
    }
    assert_eq!(decide(true, ConflictStrategy::Skip, false, None), ImportAction::Skip);
    assert_eq!(decide(true, ConflictStrategy::Overwrite, true, None), ImportAction::Overwrite);
    assert!(needs_answer(true, ConflictStrategy::Ask, false));
    assert!(!needs_answer(true, ConflictStrategy::Ask, true));
    assert_eq!(decide(true, ConflictStrategy::Ask, true, None), ImportAction::Skip);
    assert_eq!(decide(true, ConflictStrategy::Ask, false, Some(ConflictChoice::Overwrite)), ImportAction::Overwrite);
    assert_eq!(decide(true, ConflictStrategy::Ask, false, Some(ConflictChoice::Rename)), ImportAction::Skip);
    assert_eq!(decide(true, ConflictStrategy::Ask, false, Some(ConflictChoice::Skip)), ImportAction::Skip);
}

#[test]
fn tally_appends_and_counts() {
    let f = get_formatter(ShellType::Bash);
    let mut t = ImportTally::new("alias a='b'".to_string());
    t.apply(&f, &alias("ll", "alias ll='ls -l'"), ImportAction::Append);
    assert_eq!(t.content, "alias a='b'\nalias ll='ls -l'\n");
    t.apply(&f, &alias("a", "alias a='c'"), ImportAction::Overwrite);
    assert_eq!(t.content, "alias a='b'\nalias ll='ls -l'\nalias a='c'\n");
    t.apply(&f, &alias("x", "alias x='y'"), ImportAction::Skip);
    assert_eq!(t.content, "alias a='b'\nalias ll='ls -l'\nalias a='c'\n");
    assert_eq!((t.imported, t.skipped, t.overwritten), (2, 1, 1));
    let mut e = ImportTally::new(String::new());
    e.apply(&f, &alias("a", "alias a='b'"), ImportAction::Append);
    assert_eq!(e.content, "alias a='b'\n");
}
