#![allow(unused_imports)]
use wenv::model::entry::{Entry, EntryType, ParseResult, ParseWarning};
use wenv::model::shell::ShellType;
use wenv::formatter::pwsh::PowerShellFormatter;
use wenv::formatter::Formatter;
use wenv::model::config::Config;

#[test]
fn pwsh_test_format_alias() {
    let formatter = PowerShellFormatter::new();
    let entry = Entry::new(
        EntryType::Alias,
        "ll".into(),
        "Set-Alias ll 'Get-ChildItem'".into(),
    );
    assert_eq!(
        formatter.format_entry(&entry),
        "Set-Alias ll 'Get-ChildItem'"
    );
}

#[test]
fn test_format_env() {
    let formatter = PowerShellFormatter::new();
    let entry = Entry::new(
        EntryType::EnvVar,
        "EDITOR".into(),
        "$env:EDITOR = \"code\"".into(),
    );
    assert_eq!(formatter.format_entry(&entry), "$env:EDITOR = \"code\"");
}

#[test]
fn test_format_env_multiline() {
    let formatter = PowerShellFormatter::new();
    // Entry with complete syntax (Raw Value Architecture)
    let value = r#"$env:PATH = @"
C:\Program Files\bin
D:\tools
E:\bin
"@"#;
    let entry = Entry::new(EntryType::EnvVar, "PATH".into(), value.into());
    // Formatter returns value directly
    assert_eq!(formatter.format_entry(&entry), value);
}

#[test]
fn pwsh_test_format_source() {
    let formatter = PowerShellFormatter::new();
    // Entry with complete syntax (Raw Value Architecture)
    let entry = Entry::new(EntryType::Source, "L10".into(), ". .\\aliases.ps1".into());
    assert_eq!(formatter.format_entry(&entry), ". .\\aliases.ps1");
}

#[test]
fn pwsh_test_format_source_with_name() {
    let formatter = PowerShellFormatter::new();
    // Entry with complete syntax (Raw Value Architecture)
    let entry = Entry::new(
        EntryType::Source,
        "aliases".into(),
        ". .\\aliases.ps1".into(),
    );
    assert_eq!(formatter.format_entry(&entry), ". .\\aliases.ps1");
}
