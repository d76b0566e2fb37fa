#![allow(unused_imports)]
use wenv::model::entry::{Entry, EntryType, ParseResult, ParseWarning};
use wenv::model::shell::ShellType;
use wenv::parser::pwsh::PowerShellParser;
use wenv::parser::Parser;

#[test]
fn pwsh_test_parse_source() {
    let parser = PowerShellParser::new();
    let content = r#". .\aliases.ps1"#;
    let result = parser.parse(content);

    let sources: Vec<_> = result
        .entries
        .iter()
        .filter(|e| e.entry_type == EntryType::Source)
        .collect();

    assert_eq!(sources.len(), 1);
}

#[test]
fn pwsh_test_parse_function() {
    let parser = PowerShellParser::new();
    let content = r#"
function Get-Greeting {
param($Name)
Write-Host "Hello, $Name"
}
"#;
    let result = parser.parse(content);

    let funcs: Vec<_> = result
        .entries
        .iter()
        .filter(|e| e.entry_type == EntryType::Function)
        .collect();

    assert_eq!(funcs.len(), 1);
    assert_eq!(funcs[0].name, "Get-Greeting");
}

#[test]
fn pwsh_test_empty_lines_captured() {
    let parser = PowerShellParser::new();
    let content = "Set-Alias a Get-ChildItem\n\nSet-Alias b Get-Location";
    let result = parser.parse(content);

    // Should have: alias, empty line, alias
    assert_eq!(result.entries.len(), 3);
    assert_eq!(result.entries[0].entry_type, EntryType::Alias);
    assert_eq!(result.entries[1].entry_type, EntryType::Code);
    assert_eq!(result.entries[1].value, "");
    assert_eq!(result.entries[2].entry_type, EntryType::Alias);
}

#[test]
fn test_unparseable_lines_captured_as_code() {
    let parser = PowerShellParser::new();
    let content =
        "Set-Alias a Get-ChildItem\nWrite-Host 'Hello World'\nSet-Alias b Get-Location";
    let result = parser.parse(content);

    // Should have: alias, code (Write-Host), alias
    assert_eq!(result.entries.len(), 3);
    assert_eq!(result.entries[0].entry_type, EntryType::Alias);
    assert_eq!(result.entries[1].entry_type, EntryType::Code);
    assert!(result.entries[1].value.contains("Write-Host"));
    assert_eq!(result.entries[2].entry_type, EntryType::Alias);
}

#[test]
fn test_if_statement_captured_as_code() {
    let parser = PowerShellParser::new();
    let content = r#"
Set-Alias before Get-ChildItem

if ($true) {
$env:TEST = "value"
}

Set-Alias after Get-Location"#;
    let result = parser.parse(content);

    let aliases: Vec<_> = result
        .entries
        .iter()
        .filter(|e| e.entry_type == EntryType::Alias)
        .collect();
    let code_blocks: Vec<_> = result
        .entries
        .iter()
        .filter(|e| e.entry_type == EntryType::Code && e.value.contains("if"))
        .collect();

    assert_eq!(aliases.len(), 2);
    assert_eq!(aliases[0].name, "before");
    assert_eq!(aliases[1].name, "after");
    assert_eq!(code_blocks.len(), 1);
    assert!(code_blocks[0].value.contains("$env:TEST"));
}

#[test]
fn test_foreach_captured_as_code() {
    let parser = PowerShellParser::new();
    let content = r#"
Set-Alias start Get-ChildItem

foreach ($item in @(1,2,3)) {
Write-Host $item
}

Set-Alias end Get-Location"#;
    let result = parser.parse(content);

    let aliases: Vec<_> = result
        .entries
        .iter()
        .filter(|e| e.entry_type == EntryType::Alias)
        .collect();

    assert_eq!(aliases.len(), 2);
    assert_eq!(aliases[0].name, "start");
    assert_eq!(aliases[1].name, "end");
}

#[test]
fn test_mixed_content() {
    let parser = PowerShellParser::new();
    let content = r#"
# Git aliases
Set-Alias gs git

# Editor
$env:EDITOR = "code"

# Load custom aliases
. .\custom_aliases.ps1

# Greeting function
function Get-Greeting {
Write-Host "Hello"
}"#;
    let result = parser.parse(content);

    let main_entries: Vec<_> = result
        .entries
        .iter()
        .filter(|e| {
            matches!(
                e.entry_type,
                EntryType::Alias | EntryType::EnvVar | EntryType::Source | EntryType::Function
            )
        })
        .collect();

    assert_eq!(main_entries.len(), 4);
}

#[test]
fn pwsh_test_code_block_line_range() {
    let parser = PowerShellParser::new();
    let content = "if ($true) {\n    Write-Host 'hi'\n}";
    let result = parser.parse(content);

    let code_blocks: Vec<_> = result
        .entries
        .iter()
        .filter(|e| e.entry_type == EntryType::Code && e.value.contains("if"))
        .collect();

    assert_eq!(code_blocks.len(), 1);
    assert_eq!(code_blocks[0].line_number, Some(1));
    assert_eq!(code_blocks[0].end_line, Some(3));
    assert_eq!(code_blocks[0].name, "L1-L3");
}
