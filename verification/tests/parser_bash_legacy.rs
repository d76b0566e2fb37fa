#![allow(unused_imports)]
use wenv::model::entry::{Entry, EntryType, ParseResult, ParseWarning};
use wenv::model::shell::ShellType;
use wenv::parser::bash::BashParser;
use wenv::parser::Parser;

#[test]
fn test_parse_source_dot() {
    let parser = BashParser::new();
    let content = ". ~/.profile";
    let result = parser.parse(content);

    assert_eq!(result.entries.len(), 1);
    assert_eq!(result.entries[0].entry_type, EntryType::Source);
}

#[test]
fn bash_test_parse_function() {
    let parser = BashParser::new();
    let content = r#"
function greet() {
echo "Hello, $1"
}"#;
    let result = parser.parse(content);

    // Filter to get only function entries
    let funcs: Vec<_> = result
        .entries
        .iter()
        .filter(|e| e.entry_type == EntryType::Function)
        .collect();

    assert_eq!(funcs.len(), 1);
    assert_eq!(funcs[0].name, "greet");
}

#[test]
fn test_parse_mixed_content() {
    let parser = BashParser::new();
    let content = r#"
# Git aliases
alias gs='git status'
alias gd='git diff'

# Editor
export EDITOR=nvim

# Load custom aliases
source ~/.custom_aliases

# Greeting function
greet() {
echo "Hello"
}"#;
    let result = parser.parse(content);

    // Filter to get only the "main" entries (alias, env, source, function)
    let main_entries: Vec<_> = result
        .entries
        .iter()
        .filter(|e| {
            matches!(
                e.entry_type,
                EntryType::Alias | EntryType::EnvVar | EntryType::Source | EntryType::Function
            )
        })
        .collect();

    assert_eq!(main_entries.len(), 5);
}

#[test]
fn test_nested_control_structures_captured_as_single_block() {
    let parser = BashParser::new();
    let content = r#"
alias top='top-level'

if [ -n "$VAR" ]; then
export INSIDE_IF=value
if [ -f "$FILE" ]; then
    source $FILE
fi
fi

alias bottom='bottom-level'"#;
    let result = parser.parse(content);

    // Should have the nested if blocks as a single Code entry
    let aliases: Vec<_> = result
        .entries
        .iter()
        .filter(|e| e.entry_type == EntryType::Alias)
        .collect();
    let code_blocks: Vec<_> = result
        .entries
        .iter()
        .filter(|e| e.entry_type == EntryType::Code && e.value.contains("if ["))
        .collect();

    assert_eq!(aliases.len(), 2);
    assert_eq!(aliases[0].name, "top");
    assert_eq!(aliases[1].name, "bottom");
    // The entire nested if block should be one Code entry
    assert_eq!(code_blocks.len(), 1);
    assert!(code_blocks[0].value.contains("INSIDE_IF"));
    assert!(code_blocks[0].value.contains("source $FILE"));
}

#[test]
fn test_for_loop_captured_as_code() {
    let parser = BashParser::new();
    let content = r#"
alias before='before-loop'

for dir in ~/bin ~/.local/bin; do
export PATH="$dir:$PATH"
done

alias after='after-loop'"#;
    let result = parser.parse(content);

    let aliases: Vec<_> = result
        .entries
        .iter()
        .filter(|e| e.entry_type == EntryType::Alias)
        .collect();
    let code_blocks: Vec<_> = result
        .entries
        .iter()
        .filter(|e| e.entry_type == EntryType::Code && e.value.contains("for dir"))
        .collect();

    assert_eq!(aliases.len(), 2);
    assert_eq!(aliases[0].name, "before");
    assert_eq!(aliases[1].name, "after");
    assert_eq!(code_blocks.len(), 1);
}

#[test]
fn test_while_loop_captured_as_code() {
    let parser = BashParser::new();
    let content = r#"
alias start='start'

while read line; do
export LINE="$line"
done < file.txt

alias end='end'"#;
    let result = parser.parse(content);

    let aliases: Vec<_> = result
        .entries
        .iter()
        .filter(|e| e.entry_type == EntryType::Alias)
        .collect();

    assert_eq!(aliases.len(), 2);
    assert_eq!(aliases[0].name, "start");
    assert_eq!(aliases[1].name, "end");
}

#[test]
fn test_case_statement_captured_as_code() {
    let parser = BashParser::new();
    let content = r#"
alias before='before'

case "$TERM" in
xterm*)
    export TERM_TYPE=xterm
    ;;
*)
    export TERM_TYPE=other
    ;;
esac

alias after='after'"#;
    let result = parser.parse(content);

    let aliases: Vec<_> = result
        .entries
        .iter()
        .filter(|e| e.entry_type == EntryType::Alias)
        .collect();
    let code_blocks: Vec<_> = result
        .entries
        .iter()
        .filter(|e| e.entry_type == EntryType::Code && e.value.contains("case"))
        .collect();

    assert_eq!(aliases.len(), 2);
    assert_eq!(aliases[0].name, "before");
    assert_eq!(aliases[1].name, "after");
    assert_eq!(code_blocks.len(), 1);
    assert!(code_blocks[0].value.contains("esac"));
}

#[test]
fn bash_test_code_block_line_range() {
    let parser = BashParser::new();
    let content = "if true; then\n    echo hi\nfi";
    let result = parser.parse(content);

    let code_blocks: Vec<_> = result
        .entries
        .iter()
        .filter(|e| e.entry_type == EntryType::Code && e.value.contains("if"))
        .collect();

    assert_eq!(code_blocks.len(), 1);
    assert_eq!(code_blocks[0].line_number, Some(1));
    assert_eq!(code_blocks[0].end_line, Some(3));
    assert_eq!(code_blocks[0].name, "L1-L3");
}
