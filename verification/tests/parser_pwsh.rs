#![allow(unused_imports)]
use wenv::model::entry::{Entry, EntryType, ParseResult, ParseWarning};
use wenv::model::shell::ShellType;
use wenv::parser::pwsh::PowerShellParser;
use wenv::parser::Parser;

#[test]
fn mod_test_parse_alias() {
    let parser = PowerShellParser::new();
    let content = "Set-Alias ll Get-ChildItem";
    let result = parser.parse(content);

    let aliases: Vec<_> = result
        .entries
        .iter()
        .filter(|e| e.entry_type == EntryType::Alias)
        .collect();

    assert_eq!(aliases.len(), 1);
    assert_eq!(aliases[0].name, "ll");
    assert_eq!(aliases[0].value, "Set-Alias ll Get-ChildItem");
}

#[test]
fn mod_test_parse_env() {
    let parser = PowerShellParser::new();
    let content = r#"$env:EDITOR = "code""#;
    let result = parser.parse(content);

    let envs: Vec<_> = result
        .entries
        .iter()
        .filter(|e| e.entry_type == EntryType::EnvVar)
        .collect();

    assert_eq!(envs.len(), 1);
    assert_eq!(envs[0].name, "EDITOR");
    assert_eq!(envs[0].value, r#"$env:EDITOR = "code""#);
}

#[test]
fn pwsh_mod_test_parse_function_with_end_line() {
    let parser = PowerShellParser::new();
    let content = "function Get-Greeting {\n    Write-Host 'Hello'\n}";
    let result = parser.parse(content);

    let funcs: Vec<_> = result
        .entries
        .iter()
        .filter(|e| e.entry_type == EntryType::Function)
        .collect();

    assert_eq!(funcs.len(), 1);
    assert_eq!(funcs[0].name, "Get-Greeting");
    assert_eq!(funcs[0].line_number, Some(1));
    assert_eq!(funcs[0].end_line, Some(3));
}

#[test]
fn test_adjacent_comments_merged() {
    let parser = PowerShellParser::new();
    let content = "# Comment 1\n# Comment 2\n# Comment 3\nSet-Alias test Get-ChildItem";
    let result = parser.parse(content);

    let comments: Vec<_> = result
        .entries
        .iter()
        .filter(|e| e.entry_type == EntryType::Comment)
        .collect();

    assert_eq!(comments.len(), 1);
    assert_eq!(comments[0].name, "#L1-L3");
    assert_eq!(comments[0].line_number, Some(1));
    assert_eq!(comments[0].end_line, Some(3));
}

#[test]
fn pwsh_mod_test_control_structure_captured_as_code() {
    let parser = PowerShellParser::new();
    let content = "if ($true) {\n    Write-Host 'yes'\n}";
    let result = parser.parse(content);

    let code_blocks: Vec<_> = result
        .entries
        .iter()
        .filter(|e| e.entry_type == EntryType::Code && e.value.contains("if"))
        .collect();

    assert_eq!(code_blocks.len(), 1);
    assert_eq!(code_blocks[0].line_number, Some(1));
    assert_eq!(code_blocks[0].end_line, Some(3));
}

#[test]
fn test_blank_lines_grouped() {
    let parser = PowerShellParser::new();
    let content = "Set-Alias a Get-ChildItem\n\n\nSet-Alias b Get-Location";
    let result = parser.parse(content);

    let blanks: Vec<_> = result
        .entries
        .iter()
        .filter(|e| e.entry_type == EntryType::Code && e.value.is_empty())
        .collect();

    assert_eq!(blanks.len(), 0);
}

#[test]
fn test_env_heredoc_simple() {
    let parser = PowerShellParser::new();
    let content = r#"$env:PATH = @"
C:\Program Files\bin
D:\tools
"@"#;
    let result = parser.parse(content);

    let envs: Vec<_> = result
        .entries
        .iter()
        .filter(|e| e.entry_type == EntryType::EnvVar)
        .collect();

    assert_eq!(envs.len(), 1);
    assert_eq!(envs[0].name, "PATH");
    assert_eq!(
        envs[0].value,
        r#"$env:PATH = @"
C:\Program Files\bin
D:\tools
"@"#
    );
    assert_eq!(envs[0].line_number, Some(1));
    assert_eq!(envs[0].end_line, Some(4));
}

#[test]
fn test_env_heredoc_with_spaces() {
    let parser = PowerShellParser::new();
    let content = r#"$env:CONFIG = @"
  line with leading spaces
indented line
"@"#;
    let result = parser.parse(content);

    let envs: Vec<_> = result
        .entries
        .iter()
        .filter(|e| e.entry_type == EntryType::EnvVar)
        .collect();

    assert_eq!(envs.len(), 1);
    assert_eq!(envs[0].name, "CONFIG");
    assert_eq!(
        envs[0].value,
        r#"$env:CONFIG = @"
  line with leading spaces
indented line
"@"#
    );
}

#[test]
fn test_env_heredoc_single_line_backward_compat() {
    let parser = PowerShellParser::new();
    let content = r#"$env:EDITOR = "code""#;
    let result = parser.parse(content);

    let envs: Vec<_> = result
        .entries
        .iter()
        .filter(|e| e.entry_type == EntryType::EnvVar)
        .collect();

    assert_eq!(envs.len(), 1);
    assert_eq!(envs[0].name, "EDITOR");
    assert_eq!(envs[0].value, r#"$env:EDITOR = "code""#);
    assert_eq!(envs[0].line_number, Some(1));
    assert!(envs[0].end_line.is_none());
}

#[test]
fn test_env_heredoc_mixed_with_single_line() {
    let parser = PowerShellParser::new();
    let content = r#"$env:EDITOR = "code"
$env:PATH = @"
C:\bin
D:\tools
"@
$env:SHELL = "pwsh""#;
    let result = parser.parse(content);

    let envs: Vec<_> = result
        .entries
        .iter()
        .filter(|e| e.entry_type == EntryType::EnvVar)
        .collect();

    assert_eq!(envs.len(), 3);
    assert_eq!(envs[0].name, "EDITOR");
    assert_eq!(envs[0].value, r#"$env:EDITOR = "code""#);
    assert_eq!(envs[1].name, "PATH");
    assert_eq!(
        envs[1].value,
        r#"$env:PATH = @"
C:\bin
D:\tools
"@"#
    );
    assert_eq!(envs[2].name, "SHELL");
    assert_eq!(envs[2].value, r#"$env:SHELL = "pwsh""#);
}

#[test]
fn test_env_heredoc_empty_lines() {
    let parser = PowerShellParser::new();
    let content = r#"$env:DATA = @"
line1

line3
"@"#;
    let result = parser.parse(content);

    let envs: Vec<_> = result
        .entries
        .iter()
        .filter(|e| e.entry_type == EntryType::EnvVar)
        .collect();

    assert_eq!(envs.len(), 1);
    assert_eq!(envs[0].name, "DATA");
    assert_eq!(
        envs[0].value,
        r#"$env:DATA = @"
line1

line3
"@"#
    );
}

#[test]
fn test_env_heredoc_with_special_chars() {
    let parser = PowerShellParser::new();
    let content = r#"$env:NOTES = @"
Line with "quotes"
Line with $variable
Line with 'single quotes'
"@"#;
    let result = parser.parse(content);

    let envs: Vec<_> = result
        .entries
        .iter()
        .filter(|e| e.entry_type == EntryType::EnvVar)
        .collect();

    assert_eq!(envs.len(), 1);
    assert_eq!(envs[0].name, "NOTES");
    assert!(envs[0].value.contains("\"quotes\""));
    assert!(envs[0].value.contains("$variable"));
}

#[test]
fn test_env_heredoc_unclosed_warning() {
    let parser = PowerShellParser::new();
    let content = r#"$env:PATH = @"
C:\bin
D:\tools"#;
    let result = parser.parse(content);

    assert!(result.warnings.iter().any(|w| w
        .message
        .contains("Unclosed environment variable Here-String")));
}

#[test]
fn test_env_heredoc_not_inside_function() {
    let parser = PowerShellParser::new();
    let content = r#"function Test {
$env:PATH = @"
C:\bin
"@
}"#;
    let result = parser.parse(content);

    let envs: Vec<_> = result
        .entries
        .iter()
        .filter(|e| e.entry_type == EntryType::EnvVar)
        .collect();

    assert_eq!(
        envs.len(),
        0,
        "Here-String inside function should not be parsed as EnvVar"
    );

    let funcs: Vec<_> = result
        .entries
        .iter()
        .filter(|e| e.entry_type == EntryType::Function)
        .collect();

    assert_eq!(funcs.len(), 1);
    assert!(funcs[0].value.contains("$env:PATH"));
}

#[test]
fn test_env_heredoc_not_inside_control_structure() {
    let parser = PowerShellParser::new();
    let content = r#"if ($true) {
$env:PATH = @"
C:\bin
"@
}"#;
    let result = parser.parse(content);

    let envs: Vec<_> = result
        .entries
        .iter()
        .filter(|e| e.entry_type == EntryType::EnvVar)
        .collect();

    assert_eq!(
        envs.len(),
        0,
        "Here-String inside control structure should not be parsed as EnvVar"
    );

    let code_blocks: Vec<_> = result
        .entries
        .iter()
        .filter(|e| e.entry_type == EntryType::Code)
        .collect();

    // Check value (contains complete content)
    assert!(code_blocks.iter().any(|c| c.value.contains("$env:PATH")));
}

// === Tests for Comment/Code merging logic ===

#[test]
fn pwsh_mod_test_comment_absorbs_blank() {
    let parser = PowerShellParser::new();
    let content = "# Header\n";
    let result = parser.parse(content);

    let comments: Vec<_> = result
        .entries
        .iter()
        .filter(|e| e.entry_type == EntryType::Comment)
        .collect();

    assert_eq!(comments.len(), 1);
    assert_eq!(comments[0].line_number, Some(1));
    assert_eq!(comments[0].end_line, Some(1));
}

#[test]
fn pwsh_mod_test_comment_plus_code_becomes_code() {
    let parser = PowerShellParser::new();
    let content = "# Note\nWrite-Host 'hello'";
    let result = parser.parse(content);

    // Should be merged into a single Code entry
    assert_eq!(result.entries.len(), 1);

    let code = &result.entries[0];
    assert_eq!(code.entry_type, EntryType::Code);
    assert_eq!(code.line_number, Some(1));
    assert_eq!(code.end_line, Some(2));
    // value contains complete content (comment + code)
    assert_eq!(code.value, "# Note\nWrite-Host 'hello'");
}

#[test]
fn pwsh_mod_test_comment_blank_code_all_merge() {
    let parser = PowerShellParser::new();
    let content = "# Header\n\nWrite-Host 'hi'";
    let result = parser.parse(content);

    // Should be merged into a single Code entry
    assert_eq!(result.entries.len(), 1);

    let code = &result.entries[0];
    assert_eq!(code.entry_type, EntryType::Code);
    assert_eq!(code.line_number, Some(1));
    assert_eq!(code.end_line, Some(3));
    // value contains complete content (comment + blank + code)
    assert_eq!(code.value, "# Header\n\nWrite-Host 'hi'");
}

#[test]
fn pwsh_mod_test_blank_does_not_absorb_code() {
    let parser = PowerShellParser::new();
    let content = "\nWrite-Host 'hi'";
    let result = parser.parse(content);

    assert_eq!(result.entries.len(), 2);

    let blank = &result.entries[0];
    assert_eq!(blank.entry_type, EntryType::Code);
    assert_eq!(blank.is_blank(), true);
    assert_eq!(blank.line_number, Some(1));

    let code = &result.entries[1];
    assert_eq!(code.entry_type, EntryType::Code);
    assert_eq!(code.value, "Write-Host 'hi'");
    assert_eq!(code.line_number, Some(2));
}

#[test]
fn pwsh_mod_test_nonblank_code_absorbs_trailing_blanks() {
    let parser = PowerShellParser::new();
    let content = "Write-Host 'hi'\n\n\n";
    let result = parser.parse(content);

    // Non-blank code absorbs trailing blank lines
    assert_eq!(result.entries.len(), 1);

    let code = &result.entries[0];
    assert_eq!(code.entry_type, EntryType::Code);
    assert_eq!(code.value, "Write-Host 'hi'\n\n");
    assert_eq!(code.line_number, Some(1));
    assert_eq!(code.end_line, Some(3));
}

#[test]
fn pwsh_mod_test_nonblank_code_blank_then_another_code() {
    let parser = PowerShellParser::new();
    let content = "Write-Host 'first'\n\nWrite-Host 'second'";
    let result = parser.parse(content);

    // When second code comes, first code (with absorbed blank) is flushed
    assert_eq!(result.entries.len(), 2);

    let first = &result.entries[0];
    assert_eq!(first.entry_type, EntryType::Code);
    assert_eq!(first.value, "Write-Host 'first'\n");
    assert_eq!(first.line_number, Some(1));
    assert_eq!(first.end_line, Some(2)); // Absorbed one blank line

    let second = &result.entries[1];
    assert_eq!(second.entry_type, EntryType::Code);
    assert_eq!(second.value, "Write-Host 'second'");
    assert_eq!(second.line_number, Some(3));
}

#[test]
fn test_comment_then_alias_not_merged() {
    let parser = PowerShellParser::new();
    let content = "# Section header\nSet-Alias ll Get-ChildItem";
    let result = parser.parse(content);

    assert_eq!(result.entries.len(), 2);

    let comment = &result.entries[0];
    assert_eq!(comment.entry_type, EntryType::Comment);
    assert_eq!(comment.line_number, Some(1));

    let alias = &result.entries[1];
    assert_eq!(alias.entry_type, EntryType::Alias);
    assert_eq!(alias.name, "ll");
}

#[test]
fn test_comment_blank_alias_scenario() {
    let parser = PowerShellParser::new();
    let content = "# Section header\n# with description\n\nSet-Alias ll Get-ChildItem";
    let result = parser.parse(content);

    assert_eq!(result.entries.len(), 2);

    let comment = &result.entries[0];
    assert_eq!(comment.entry_type, EntryType::Comment);
    assert_eq!(comment.line_number, Some(1));
    assert_eq!(comment.end_line, Some(3)); // Absorbed blank line

    let alias = &result.entries[1];
    assert_eq!(alias.entry_type, EntryType::Alias);
    assert_eq!(alias.line_number, Some(4));
}

#[test]
fn test_control_structure_absorbs_trailing_blanks() {
    let parser = PowerShellParser::new();
    let content = "if ($true) {\n    Write-Host 'yes'\n}\n\n";
    let result = parser.parse(content);

    let code_blocks: Vec<_> = result
        .entries
        .iter()
        .filter(|e| e.entry_type == EntryType::Code)
        .collect();

    assert_eq!(code_blocks.len(), 1);
    assert_eq!(code_blocks[0].line_number, Some(1));
    assert_eq!(code_blocks[0].end_line, Some(4)); // Absorbed trailing blank
}

#[test]
fn test_comment_merges_into_control_structure() {
    let parser = PowerShellParser::new();
    let content = "# This is a conditional\nif ($true) {\n    Write-Host 'yes'\n}";
    let result = parser.parse(content);

    let code_blocks: Vec<_> = result
        .entries
        .iter()
        .filter(|e| e.entry_type == EntryType::Code)
        .collect();

    assert_eq!(code_blocks.len(), 1);
    assert_eq!(code_blocks[0].line_number, Some(1)); // Starts from comment
    assert_eq!(code_blocks[0].end_line, Some(4));
    // value should contain comment + control structure
    assert!(code_blocks[0].value.contains("# This is a conditional"));
    assert!(code_blocks[0].value.contains("if ($true)"));
}

#[test]
fn pwsh_lone_quote_value_parses() {
    let parser = PowerShellParser::new();
    let result = parser.parse("$env:X = '");
    assert!(result.warnings.is_empty());
    assert_eq!(result.entries.len(), 1);
    assert_eq!(result.entries[0].entry_type, EntryType::EnvVar);
    assert_eq!(result.entries[0].name, "X");
}

#[test]
fn pwsh_warning_only_for_a_block_left_open() {
    let parser = PowerShellParser::new();
    for closed in ["function F {\n  1\n}", "$env:A = @\"\nx\n\"@", "if ($x) {\n 1\n}"] {
        let r = parser.parse(closed);
        assert!(r.warnings.is_empty(), "{}", closed);
    }
    let r = parser.parse("function F {\n  1");
    assert_eq!(r.warnings.len(), 1);
    assert_eq!(r.warnings[0].message, "Unclosed function definition at end of file");
}
