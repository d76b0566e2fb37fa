#![allow(unused_imports)]
use wenv::model::entry::{Entry, EntryType, ParseResult, ParseWarning};
use wenv::model::shell::ShellType;
use wenv::parser::bash::BashParser;
use wenv::parser::Parser;

#[test]
fn mod_test_parse_alias_single_quote() {
    let parser = BashParser::new();
    let content = "alias ll='ls -la'";
    let result = parser.parse(content);

    assert_eq!(result.entries.len(), 1);
    assert_eq!(result.entries[0].entry_type, EntryType::Alias);
    assert_eq!(result.entries[0].name, "ll");
    assert_eq!(result.entries[0].value, "alias ll='ls -la'");
}

#[test]
fn mod_test_parse_alias_double_quote() {
    let parser = BashParser::new();
    let content = r#"alias gs="git status""#;
    let result = parser.parse(content);

    assert_eq!(result.entries.len(), 1);
    assert_eq!(result.entries[0].name, "gs");
    assert_eq!(result.entries[0].value, r#"alias gs="git status""#);
}

#[test]
fn test_parse_multiline_alias() {
    let parser = BashParser::new();
    let content = "alias complex='echo line1\necho line2\necho line3'";
    let result = parser.parse(content);

    let aliases: Vec<_> = result
        .entries
        .iter()
        .filter(|e| e.entry_type == EntryType::Alias)
        .collect();

    assert_eq!(aliases.len(), 1);
    assert_eq!(aliases[0].name, "complex");
    assert_eq!(aliases[0].line_number, Some(1));
    assert_eq!(aliases[0].end_line, Some(3));
    // Value should contain complete syntax, not just quoted content
    assert_eq!(
        aliases[0].value,
        "alias complex='echo line1\necho line2\necho line3'"
    );
}

#[test]
fn test_parse_multiline_export() {
    let parser = BashParser::new();
    let content = "export LONG='value1\nvalue2\nvalue3'";
    let result = parser.parse(content);

    let exports: Vec<_> = result
        .entries
        .iter()
        .filter(|e| e.entry_type == EntryType::EnvVar)
        .collect();

    assert_eq!(exports.len(), 1);
    assert_eq!(exports[0].name, "LONG");
    assert_eq!(exports[0].line_number, Some(1));
    assert_eq!(exports[0].end_line, Some(3));
    // Value should contain complete syntax
    assert_eq!(exports[0].value, "export LONG='value1\nvalue2\nvalue3'");
}

#[test]
fn mod_test_parse_export() {
    let parser = BashParser::new();
    let content = "export EDITOR=nvim";
    let result = parser.parse(content);

    assert_eq!(result.entries.len(), 1);
    assert_eq!(result.entries[0].entry_type, EntryType::EnvVar);
    assert_eq!(result.entries[0].name, "EDITOR");
    assert_eq!(result.entries[0].value, "export EDITOR=nvim");
}

#[test]
fn mod_test_parse_source() {
    let parser = BashParser::new();
    let content = "source ~/.aliases";
    let result = parser.parse(content);

    assert_eq!(result.entries.len(), 1);
    assert_eq!(result.entries[0].entry_type, EntryType::Source);
    assert_eq!(result.entries[0].name, ".aliases");
    assert_eq!(result.entries[0].value, "source ~/.aliases");
}

#[test]
fn mod_test_parse_function_with_end_line() {
    let parser = BashParser::new();
    let content = "greet() {\n    echo hello\n    echo world\n}";
    let result = parser.parse(content);

    let funcs: Vec<_> = result
        .entries
        .iter()
        .filter(|e| e.entry_type == EntryType::Function)
        .collect();

    assert_eq!(funcs.len(), 1);
    assert_eq!(funcs[0].name, "greet");
    assert_eq!(funcs[0].line_number, Some(1));
    assert_eq!(funcs[0].end_line, Some(4));
}

#[test]
fn test_adjacent_comments_merged_with_alias() {
    // NEW BEHAVIOR: Multiple comments don't merge with alias
    // Comments followed by alias should NOT merge (comment_count > 1)
    let parser = BashParser::new();
    let content = "# Header comment\n# Second line\n# Third line\nalias test='value'";
    let result = parser.parse(content);

    // Should have 2 entries: Comment block + Alias (not merged)
    assert_eq!(result.entries.len(), 2);

    let comment = &result.entries[0];
    assert_eq!(comment.entry_type, EntryType::Comment);
    assert_eq!(comment.line_number, Some(1)); // Starts from first comment
    assert_eq!(comment.end_line, Some(3)); // Ends at third comment line

    let alias = &result.entries[1];
    assert_eq!(alias.entry_type, EntryType::Alias);
    assert_eq!(alias.name, "test");
    assert_eq!(alias.line_number, Some(4)); // Starts on its own line
    assert!(!alias.value.contains("# Header comment")); // NOT merged
}

#[test]
fn test_comments_separated_by_blank() {
    // With new merging logic: Comment + blank + Comment → first Comment absorbs blank
    // Then when second Comment comes, since pending is still Comment (absorbed blank),
    // the second Comment merges into it
    let parser = BashParser::new();
    let content = "# First block\n\n# Second block";
    let result = parser.parse(content);

    let comments: Vec<_> = result
        .entries
        .iter()
        .filter(|e| e.entry_type == EntryType::Comment)
        .collect();

    // All merged into one Comment spanning L1-L3
    assert_eq!(comments.len(), 1);
    assert_eq!(comments[0].line_number, Some(1));
    assert_eq!(comments[0].end_line, Some(3));
}

#[test]
fn test_comments_separated_by_code() {
    // First comment merges with alias, second comment is standalone
    let parser = BashParser::new();
    let content = "# First block\nalias a='a'\n# Second block";
    let result = parser.parse(content);

    // Should have 2 entries: Alias (with merged comment) + Comment
    assert_eq!(result.entries.len(), 2);

    let alias = &result.entries[0];
    assert_eq!(alias.entry_type, EntryType::Alias);
    assert_eq!(alias.name, "a");
    assert!(alias.value.contains("# First block"));

    let comment = &result.entries[1];
    assert_eq!(comment.entry_type, EntryType::Comment);
    assert!(comment.value.contains("# Second block"));
}

#[test]
fn mod_test_control_structure_captured_as_code() {
    let parser = BashParser::new();
    let content = "if [ -f file ]; then\n    echo exists\nfi";
    let result = parser.parse(content);

    let code_blocks: Vec<_> = result
        .entries
        .iter()
        .filter(|e| e.entry_type == EntryType::Code && e.value.contains("if"))
        .collect();

    assert_eq!(code_blocks.len(), 1);
    assert_eq!(code_blocks[0].line_number, Some(1));
    assert_eq!(code_blocks[0].end_line, Some(3));
    assert_eq!(code_blocks[0].name, "L1-L3");
}

#[test]
fn test_empty_lines_grouped() {
    let parser = BashParser::new();
    let content = "alias a='a'\n\n\nalias b='b'";
    let result = parser.parse(content);

    let blanks: Vec<_> = result
        .entries
        .iter()
        .filter(|e| e.entry_type == EntryType::Code && e.value.is_empty())
        .collect();

    assert_eq!(blanks.len(), 0);
}

#[test]
fn test_special_alias_names() {
    let parser = BashParser::new();
    let content = "alias ..='cd ..'\nalias ~='cd ~'";
    let result = parser.parse(content);

    let aliases: Vec<_> = result
        .entries
        .iter()
        .filter(|e| e.entry_type == EntryType::Alias)
        .collect();

    assert_eq!(aliases.len(), 2);
    assert_eq!(aliases[0].name, "..");
    assert_eq!(aliases[1].name, "~");
}

// === New tests for Comment/Code merging logic ===

#[test]
fn mod_test_comment_absorbs_blank() {
    // # Header
    // (blank at EOF - no actual blank line character)
    // → 1 entry: Comment L1 with end_line=L1
    let parser = BashParser::new();
    let content = "# Header\n";
    let result = parser.parse(content);

    let comments: Vec<_> = result
        .entries
        .iter()
        .filter(|e| e.entry_type == EntryType::Comment)
        .collect();

    assert_eq!(comments.len(), 1);
    assert_eq!(comments[0].line_number, Some(1));
    // Single line comment has end_line = line_number
    assert_eq!(comments[0].end_line, Some(1));
}

#[test]
fn mod_test_comment_plus_code_becomes_code() {
    // # Note
    // echo hello
    // → 1 entry: Code L1-L2, raw_line contains both lines
    let parser = BashParser::new();
    let content = "# Note\necho hello";
    let result = parser.parse(content);

    // Should be merged into a single Code entry
    assert_eq!(result.entries.len(), 1);

    let code = &result.entries[0];
    assert_eq!(code.entry_type, EntryType::Code);
    assert_eq!(code.line_number, Some(1));
    assert_eq!(code.end_line, Some(2));
    // raw_line contains complete content (comment + code)
    assert_eq!(code.value, ("# Note\necho hello".to_string()));
    // comment field is no longer set - raw_line has complete content
}

#[test]
fn mod_test_comment_blank_code_all_merge() {
    // # Header
    // (blank)
    // echo hi
    // → 1 entry: Code L1-L3
    let parser = BashParser::new();
    let content = "# Header\n\necho hi";
    let result = parser.parse(content);

    // Should be merged into a single Code entry
    assert_eq!(result.entries.len(), 1);

    let code = &result.entries[0];
    assert_eq!(code.entry_type, EntryType::Code);
    assert_eq!(code.line_number, Some(1));
    assert_eq!(code.end_line, Some(3));
    // raw_line contains complete content (comment + blank + code)
    assert_eq!(code.value, ("# Header\n\necho hi".to_string()));
    // comment field is no longer set - raw_line has complete content
}

#[test]
fn mod_test_blank_does_not_absorb_code() {
    // (blank)
    // echo hi
    // → 2 entries: Code L1 (空), Code L2
    let parser = BashParser::new();
    let content = "\necho hi";
    let result = parser.parse(content);

    assert_eq!(result.entries.len(), 2);

    let blank = &result.entries[0];
    assert_eq!(blank.entry_type, EntryType::Code);
    assert_eq!(blank.is_blank(), true);
    assert_eq!(blank.line_number, Some(1));

    let code = &result.entries[1];
    assert_eq!(code.entry_type, EntryType::Code);
    assert_eq!(code.value, "echo hi");
    assert_eq!(code.line_number, Some(2));
}

#[test]
fn test_multiple_blanks_merge() {
    // (blank)
    // (blank)
    // (blank)
    // → 1 entry: Code L1-L3 (empty)
    let parser = BashParser::new();
    let content = "\n\n\n";
    let result = parser.parse(content);

    let blanks: Vec<_> = result.entries.iter().filter(|e| e.is_blank()).collect();

    assert_eq!(blanks.len(), 1);
    assert_eq!(blanks[0].line_number, Some(1));
    assert_eq!(blanks[0].end_line, Some(3));
}

#[test]
fn test_comment_then_alias_merged() {
    // # Section header
    // alias ll='ls -la'
    // → Merged into single Alias entry starting at L1
    let parser = BashParser::new();
    let content = "# Section header\nalias ll='ls -la'";
    let result = parser.parse(content);

    assert_eq!(result.entries.len(), 1);

    let alias = &result.entries[0];
    assert_eq!(alias.entry_type, EntryType::Alias);
    assert_eq!(alias.name, "ll");
    assert_eq!(alias.line_number, Some(1)); // Starts from comment line
    assert_eq!(alias.end_line, Some(2)); // Ends at alias line
                                         // Value should contain both comment and alias
    assert!(alias.value.contains("# Section header"));
    assert!(alias.value.contains("alias ll='ls -la'"));
}

#[test]
fn test_comment_blank_alias_merged() {
    // NEW BEHAVIOR: Multiple comments don't merge down
    // # Section header
    // # with description
    // (blank)
    // alias ll='ls -la'
    // Expected: Comment block (L1-L3) + Alias (L4)
    let parser = BashParser::new();
    let content = "# Section header\n# with description\n\nalias ll='ls -la'";
    let result = parser.parse(content);

    assert_eq!(result.entries.len(), 2);

    let comment = &result.entries[0];
    assert_eq!(comment.entry_type, EntryType::Comment);
    assert_eq!(comment.line_number, Some(1));
    assert_eq!(comment.end_line, Some(3)); // Absorbs blank line

    let alias = &result.entries[1];
    assert_eq!(alias.entry_type, EntryType::Alias);
    assert_eq!(alias.line_number, Some(4)); // Starts on its own line
    assert!(!alias.value.contains("# Section header")); // NOT merged
}

#[test]
fn mod_test_nonblank_code_absorbs_trailing_blanks() {
    // echo hi
    // (blank)
    // (blank)
    // → 1 entry: Code L1-L3
    let parser = BashParser::new();
    let content = "echo hi\n\n\n";
    let result = parser.parse(content);

    // Non-blank code absorbs trailing blank lines
    assert_eq!(result.entries.len(), 1);

    let code = &result.entries[0];
    assert_eq!(code.entry_type, EntryType::Code);
    assert_eq!(code.value, "echo hi\n\n");
    assert_eq!(code.line_number, Some(1));
    assert_eq!(code.end_line, Some(3));
}

#[test]
fn mod_test_nonblank_code_blank_then_another_code() {
    // echo first
    // (blank)
    // echo second
    // → 2 entries: Code L1-L2, Code L3
    let parser = BashParser::new();
    let content = "echo first\n\necho second";
    let result = parser.parse(content);

    // When second code comes, first code (with absorbed blank) is flushed
    assert_eq!(result.entries.len(), 2);

    let first = &result.entries[0];
    assert_eq!(first.entry_type, EntryType::Code);
    assert_eq!(first.value, "echo first\n");
    assert_eq!(first.line_number, Some(1));
    assert_eq!(first.end_line, Some(2)); // Absorbed one blank line

    let second = &result.entries[1];
    assert_eq!(second.entry_type, EntryType::Code);
    assert_eq!(second.value, "echo second");
    assert_eq!(second.line_number, Some(3));
}

#[test]
fn test_trailing_blank_lines_preserved_in_raw_line() {
    // Test that trailing blank lines are preserved in raw_line
    // "#\n\n" should be 3 lines (comment, blank, blank), not 2
    let parser = BashParser::new();

    // Case 1: Comment with trailing blank lines (no file terminator)
    let content = "# comment\n\n";
    let result = parser.parse(content);

    assert_eq!(result.entries.len(), 1);
    let entry = &result.entries[0];
    assert_eq!(entry.entry_type, EntryType::Comment);
    assert_eq!(entry.line_number, Some(1));
    assert_eq!(entry.end_line, Some(2)); // Comment absorbs the blank line
                                         // value should contain "# comment\n" (2 lines: comment + blank)
    assert_eq!(entry.value, "# comment\n");
}

#[test]
fn test_multiple_trailing_blanks_preserved() {
    // "# comment\n\n\n" (with file terminator) should be 3 lines
    let parser = BashParser::new();

    // Multiple trailing blank lines
    let content = "# comment\n\n\n";
    let result = parser.parse(content);

    assert_eq!(result.entries.len(), 1);
    let entry = &result.entries[0];
    assert_eq!(entry.entry_type, EntryType::Comment);
    assert_eq!(entry.line_number, Some(1));
    assert_eq!(entry.end_line, Some(3)); // Comment absorbs 2 blank lines
                                         // value should contain all 3 lines
    assert_eq!(entry.value, "# comment\n\n");
}

#[test]
fn test_trailing_blank_not_confused_with_file_terminator() {
    // Important: "# comment\n" is 1 line with file terminator
    // "# comment\n\n" is 2 lines: comment + blank (with file terminator)
    let parser = BashParser::new();

    // Single line with proper file terminator
    let content1 = "# comment\n";
    let result1 = parser.parse(content1);
    assert_eq!(result1.entries.len(), 1);
    assert_eq!(result1.entries[0].end_line, Some(1)); // Just 1 line

    // Comment + blank line (with file terminator)
    let content2 = "# comment\n\n";
    let result2 = parser.parse(content2);
    assert_eq!(result2.entries.len(), 1);
    assert_eq!(result2.entries[0].end_line, Some(2)); // 2 lines: comment + blank
}

// === Tests for new merge logic ===

#[test]
fn mod_test_alias_with_options() {
    let parser = BashParser::new();
    let content = "alias -g ll='ls -la'";
    let result = parser.parse(content);

    assert_eq!(result.entries.len(), 1);
    let alias = &result.entries[0];
    assert_eq!(alias.entry_type, EntryType::Alias);
    assert_eq!(alias.name, "ll");
    assert_eq!(alias.value, "alias -g ll='ls -la'");
}

#[test]
fn test_multiple_comments_dont_merge_down() {
    // Rule 2 & 4: Multiple comments form independent blocks
    let parser = BashParser::new();
    let content = "# comment 1\n# comment 2\n\nalias a='b'";
    let result = parser.parse(content);

    // Should have 2 entries: Comment block + Alias (not merged)
    assert_eq!(result.entries.len(), 2);
    assert_eq!(result.entries[0].entry_type, EntryType::Comment);
    assert_eq!(result.entries[0].line_number, Some(1));
    assert_eq!(result.entries[0].end_line, Some(3)); // Comment absorbs blank line
    assert_eq!(result.entries[1].entry_type, EntryType::Alias);
    assert_eq!(result.entries[1].line_number, Some(4)); // Alias starts on line 4
    assert!(!result.entries[1].value.contains("comment")); // Not merged
}

#[test]
fn test_blank_lines_merge_up_not_down() {
    // Rule 1: Blank lines only merge upward
    let parser = BashParser::new();
    let content = "\n\nalias a='b'\n\nalias c='d'";
    let result = parser.parse(content);

    // Should have 3 entries:
    // 1. Code (blank lines)
    // 2. Alias a (absorbs trailing blank)
    // 3. Alias c
    assert_eq!(result.entries.len(), 3);

    // First entry: leading blank lines
    assert_eq!(result.entries[0].entry_type, EntryType::Code);
    assert_eq!(result.entries[0].line_number, Some(1));
    assert_eq!(result.entries[0].end_line, Some(2));

    // Second entry: alias a with trailing blank absorbed
    assert_eq!(result.entries[1].entry_type, EntryType::Alias);
    assert_eq!(result.entries[1].line_number, Some(3));
    assert_eq!(result.entries[1].end_line, Some(4)); // Absorbs blank line 4

    // Third entry: alias c
    assert_eq!(result.entries[2].entry_type, EntryType::Alias);
    assert_eq!(result.entries[2].line_number, Some(5));
}

#[test]
fn test_single_comment_merges_down() {
    // Rule 3: Single comment merges downward to structured entry
    let parser = BashParser::new();
    let content = "# single comment\nalias a='b'";
    let result = parser.parse(content);

    // Should have 1 entry: Alias with merged comment
    assert_eq!(result.entries.len(), 1);
    assert_eq!(result.entries[0].entry_type, EntryType::Alias);
    assert_eq!(result.entries[0].line_number, Some(1)); // Starts from comment
    assert_eq!(result.entries[0].end_line, Some(2));
    assert!(result.entries[0].value.contains("# single comment"));
    assert!(result.entries[0].value.contains("alias a='b'"));
}

#[test]
fn test_single_vs_multiple_comment_distinction() {
    // Rule 4: Distinguish between single and multiple comments
    let parser = BashParser::new();
    let content = "# comment 1\n# comment 2\n\nalias a='b'\n\n# single\n\nalias c='d'\n";
    let result = parser.parse(content);

    // Should have 3 entries:
    // 1. Multiple comments (not merged with alias a)
    // 2. Alias a (absorbs trailing blank)
    // 3. Alias c (merges with single comment, absorbs trailing blank)
    assert_eq!(result.entries.len(), 3);

    // Multiple comments block
    assert_eq!(result.entries[0].entry_type, EntryType::Comment);
    assert_eq!(result.entries[0].line_number, Some(1));

    // Alias a (not merged with comments above)
    assert_eq!(result.entries[1].entry_type, EntryType::Alias);
    assert_eq!(result.entries[1].line_number, Some(4));
    assert!(!result.entries[1].value.contains("comment 1"));

    // Alias c (merged with single comment)
    assert_eq!(result.entries[2].entry_type, EntryType::Alias);
    assert_eq!(result.entries[2].line_number, Some(6)); // Starts from single comment
    assert!(result.entries[2].value.contains("# single"));
}

#[test]
fn test_alias_with_trailing_blanks() {
    // Test that alias correctly absorbs trailing blank lines
    let parser = BashParser::new();
    let content = "alias foo='bar'\n\n\nexport BAR=baz\n";
    let result = parser.parse(content);

    // Alias should absorb L2-L3 trailing blanks
    assert_eq!(result.entries[0].entry_type, EntryType::Alias);
    assert_eq!(result.entries[0].name, "foo");
    assert_eq!(result.entries[0].line_number, Some(1));
    assert_eq!(result.entries[0].end_line, Some(3));
    assert_eq!(result.entries[0].value, "alias foo='bar'\n\n");

    // Export starts at L4
    assert_eq!(result.entries[1].entry_type, EntryType::EnvVar);
    assert_eq!(result.entries[1].name, "BAR");
    assert_eq!(result.entries[1].line_number, Some(4));
    assert_eq!(result.entries[1].value, "export BAR=baz");
}

#[test]
fn test_env_with_trailing_blanks() {
    // Test that export correctly absorbs trailing blank lines
    let parser = BashParser::new();
    let content = "export FOO=bar\n\n\nalias TEST='value'\n";
    let result = parser.parse(content);

    // Export should absorb L2-L3 trailing blanks
    assert_eq!(result.entries[0].entry_type, EntryType::EnvVar);
    assert_eq!(result.entries[0].name, "FOO");
    assert_eq!(result.entries[0].line_number, Some(1));
    assert_eq!(result.entries[0].end_line, Some(3));
    assert_eq!(result.entries[0].value, "export FOO=bar\n\n");

    // Alias starts at L4
    assert_eq!(result.entries[1].entry_type, EntryType::Alias);
    assert_eq!(result.entries[1].line_number, Some(4));
}

#[test]
fn test_source_with_trailing_blanks() {
    // Test that source correctly absorbs trailing blank lines
    let parser = BashParser::new();
    let content = "source ~/.profile\n\n\nalias TEST='value'\n";
    let result = parser.parse(content);

    // Source should absorb L2-L3 trailing blanks
    assert_eq!(result.entries[0].entry_type, EntryType::Source);
    assert_eq!(result.entries[0].name, ".profile");
    assert_eq!(result.entries[0].line_number, Some(1));
    assert_eq!(result.entries[0].end_line, Some(3));
    assert_eq!(result.entries[0].value, "source ~/.profile\n\n");

    // Alias starts at L4
    assert_eq!(result.entries[1].entry_type, EntryType::Alias);
    assert_eq!(result.entries[1].line_number, Some(4));
}

#[test]
fn test_multiline_alias_with_trailing_blanks() {
    // Test that multi-line alias correctly absorbs trailing blank lines
    let parser = BashParser::new();
    let content = "alias complex='line1\nline2\nline3'\n\n\nalias next='value'\n";
    let result = parser.parse(content);

    // Multi-line alias should absorb L4-L5 trailing blanks
    assert_eq!(result.entries[0].entry_type, EntryType::Alias);
    assert_eq!(result.entries[0].name, "complex");
    assert_eq!(result.entries[0].line_number, Some(1));
    assert_eq!(result.entries[0].end_line, Some(5));
    assert_eq!(
        result.entries[0].value,
        "alias complex='line1\nline2\nline3'\n\n"
    );

    // Next alias starts at L6
    assert_eq!(result.entries[1].entry_type, EntryType::Alias);
    assert_eq!(result.entries[1].line_number, Some(6));
}

#[test]
fn bash_lone_quote_values_parse() {
    let parser = BashParser::new();
    assert!(parser.can_parse("export X=\"\nsource '"));
    let result = parser.parse("export X=\"\nsource '");
    assert!(result.warnings.is_empty());
    assert_eq!(result.entries.len(), 2);
    assert_eq!(result.entries[0].entry_type, EntryType::EnvVar);
    assert_eq!(result.entries[0].name, "X");
    assert_eq!(result.entries[1].entry_type, EntryType::Source);
    assert_eq!(result.entries[1].name, "'");
}

#[test]
fn bash_warning_only_for_a_block_left_open() {
    let parser = BashParser::new();
    for closed in ["f() {\n  echo\n}", "if true; then\n  x\nfi", "arr=(\n a\n)", "alias a='x\ny'", "# c\n\nalias a='b'"] {
        let r = parser.parse(closed);
        assert!(r.warnings.is_empty(), "{}", closed);
    }
    let r = parser.parse("arr=(\n a");
    assert_eq!(r.warnings.len(), 1);
    assert_eq!(r.warnings[0].message, "Unclosed block at end of file");
    assert_eq!(r.warnings[0].line_number, 1);
    let r = parser.parse("x=1\nexport P='a\nb");
    assert_eq!(r.warnings.len(), 1);
    assert_eq!(r.warnings[0].message, "Unclosed multi-line export at end of file");
    assert_eq!(r.warnings[0].line_number, 2);
}
