#![allow(unused_imports)]
use wenv::model::entry::{Entry, EntryType, ParseResult, ParseWarning};
use wenv::model::shell::ShellType;
use wenv::parser::pwsh::parsers::{detect_function_start, is_heredoc_end, try_parse_alias, try_parse_env, try_parse_source};
use wenv::parser::ParseEvent;
use wenv::parser::pending::BoundaryType;

#[test]
fn test_try_parse_alias_simple() {
    match try_parse_alias("Set-Alias ll Get-ChildItem", 1) {
        ParseEvent::Complete(entry) => {
            assert_eq!(entry.name, "ll");
            assert_eq!(entry.value, "Set-Alias ll Get-ChildItem");
        }
        _ => panic!("Expected Complete"),
    }
}

#[test]
fn test_try_parse_alias_with_params() {
    match try_parse_alias("Set-Alias -Name gs -Value git", 5) {
        ParseEvent::Complete(entry) => {
            assert_eq!(entry.name, "gs");
            assert_eq!(entry.value, "Set-Alias -Name gs -Value git");
            assert_eq!(entry.line_number, Some(5));
        }
        _ => panic!("Expected Complete"),
    }
}

#[test]
fn test_try_parse_env() {
    match try_parse_env(r#"$env:EDITOR = "code""#, 10) {
        ParseEvent::Complete(entry) => {
            assert_eq!(entry.name, "EDITOR");
            assert_eq!(entry.value, "$env:EDITOR = \"code\"");
        }
        _ => panic!("Expected Complete"),
    }
}

#[test]
fn test_try_parse_env_heredoc_start() {
    match try_parse_env(r#"$env:LONG = @""#, 5) {
        ParseEvent::Started {
            entry_type, name, ..
        } => {
            assert_eq!(entry_type, EntryType::EnvVar);
            assert_eq!(name, "LONG");
        }
        _ => panic!("Expected Started"),
    }
}

#[test]
fn pwsh_parsers_test_try_parse_source() {
    match try_parse_source(r#". .\aliases.ps1"#, 15) {
        ParseEvent::Complete(entry) => {
            assert_eq!(entry.entry_type, EntryType::Source);
            assert_eq!(entry.name, ".\\aliases");
        }
        _ => panic!("Expected Complete"),
    }
}

#[test]
fn pwsh_parsers_test_detect_function_start() {
    assert_eq!(
        detect_function_start("function Get-Greeting {"),
        Some("Get-Greeting".into())
    );
    assert_eq!(
        detect_function_start("function Test-Func($x) {"),
        Some("Test-Func".into())
    );
    assert_eq!(detect_function_start("Write-Host 'hello'"), None);
}

#[test]
fn test_is_heredoc_end() {
    assert!(is_heredoc_end(r#""@"#));
    assert!(!is_heredoc_end(r#"  "@"#)); // Trimmed before calling
    assert!(!is_heredoc_end("other line"));
}
