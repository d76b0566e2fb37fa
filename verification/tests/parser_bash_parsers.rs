#![allow(unused_imports)]
use wenv::model::entry::{Entry, EntryType, ParseResult, ParseWarning};
use wenv::model::shell::ShellType;
use wenv::parser::bash::parsers::{detect_function_start, try_parse_alias, try_parse_env, try_parse_source};
use wenv::parser::ParseEvent;
use wenv::parser::pending::BoundaryType;

#[test]
fn test_try_parse_alias_single() {
    match try_parse_alias("alias ll='ls -la'", 1) {
        ParseEvent::Complete(entry) => {
            assert_eq!(entry.name, "ll");
            assert_eq!(entry.value, "alias ll=\'ls -la\'");
        }
        _ => panic!("Expected Complete"),
    }
}

#[test]
fn test_try_parse_alias_double() {
    match try_parse_alias(r#"alias gs="git status""#, 1) {
        ParseEvent::Complete(entry) => {
            assert_eq!(entry.name, "gs");
            assert_eq!(entry.value, r#"alias gs="git status""#);
        }
        _ => panic!("Expected Complete"),
    }
}

#[test]
fn test_try_parse_alias_multiline_start() {
    match try_parse_alias("alias complex='echo line1", 5) {
        ParseEvent::Started {
            entry_type,
            name,
            boundary,
            ..
        } => {
            assert_eq!(entry_type, EntryType::Alias);
            assert_eq!(name, "complex");
            assert!(matches!(
                boundary,
                BoundaryType::QuoteCounting { quote_count: 1 }
            ));
        }
        _ => panic!("Expected Started"),
    }
}

#[test]
fn test_try_parse_alias_multiline_precedence() {
    // This tests that multi-line detection takes precedence over noquote matching
    // Before the fix, `alias test1='123` would be incorrectly matched by ALIAS_NOQUOTE_RE
    // as a complete alias with value `'123`
    match try_parse_alias("alias test1='123", 1) {
        ParseEvent::Started { name, .. } => {
            assert_eq!(name, "test1");
        }
        other => panic!("Expected Started, got {:?}", other),
    }
}

#[test]
fn test_try_parse_alias_not_alias() {
    match try_parse_alias("export VAR=value", 1) {
        ParseEvent::NoMatch => {}
        _ => panic!("Expected None"),
    }
}

#[test]
fn test_try_parse_env_single() {
    match try_parse_env("export EDITOR=nvim", 1) {
        ParseEvent::Complete(entry) => {
            assert_eq!(entry.name, "EDITOR");
            assert_eq!(entry.value, "export EDITOR=nvim");
        }
        _ => panic!("Expected Complete"),
    }
}

#[test]
fn test_try_parse_env_quoted() {
    match try_parse_env(r#"export PATH="$HOME/bin:$PATH""#, 1) {
        ParseEvent::Complete(entry) => {
            assert_eq!(entry.name, "PATH");
            assert_eq!(entry.value, r#"export PATH="$HOME/bin:$PATH""#);
        }
        _ => panic!("Expected Complete"),
    }
}

#[test]
fn test_try_parse_env_multiline_start() {
    match try_parse_env("export LONG='first line", 10) {
        ParseEvent::Started {
            entry_type, name, ..
        } => {
            assert_eq!(entry_type, EntryType::EnvVar);
            assert_eq!(name, "LONG");
        }
        _ => panic!("Expected Started"),
    }
}

#[test]
fn parsers_test_try_parse_source() {
    match try_parse_source("source ~/.bashrc", 5) {
        ParseEvent::Complete(entry) => {
            assert_eq!(entry.entry_type, EntryType::Source);
            assert_eq!(entry.name, ".bashrc");
            assert_eq!(entry.value, "source ~/.bashrc");
        }
        _ => panic!("Expected Complete"),
    }
}

#[test]
fn test_try_parse_source_dot() {
    match try_parse_source(". ~/.profile", 10) {
        ParseEvent::Complete(entry) => {
            assert_eq!(entry.value, ". ~/.profile");
        }
        _ => panic!("Expected Complete"),
    }
}

#[test]
fn parsers_test_detect_function_start() {
    assert_eq!(
        detect_function_start("greet() {"),
        Some(("greet".to_string(), false))
    );
    assert_eq!(
        detect_function_start("function hello() {"),
        Some(("hello".to_string(), false))
    );
    assert_eq!(
        detect_function_start("function test {"),
        Some(("test".to_string(), false))
    );
    assert_eq!(detect_function_start("() {"), Some((String::new(), true)));
    assert_eq!(detect_function_start("echo hello"), None);
}

#[test]
fn source_entry_is_named_by_the_file_stem() {
    let names = [
        ("source ~/lib/utils.sh", "utils"),
        (". \"/etc/profile.d/a.b.sh\"", "a.b"),
        ("source plain", "plain"),
        ("source ./dir/.hidden.conf # note", ".hidden"),
    ];
    for (line, stem) in names {
        match try_parse_source(line, 1) {
            ParseEvent::Complete(entry) => assert_eq!(entry.name, stem),
            _ => panic!("Expected Complete for {}", line),
        }
    }
}
