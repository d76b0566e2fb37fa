#![allow(unused_imports)]
use wenv::model::entry::{Entry, EntryType, ParseResult, ParseWarning};
use wenv::model::shell::ShellType;
use wenv::parser::builders::function::FunctionBuilder;

#[test]
fn test_function_builder_empty() {
    let builder = FunctionBuilder::new("empty".into(), 1);
    let entry = builder.build(EntryType::Function);

    assert_eq!(entry.line_number, Some(1));
    // Empty builder: start_line + 0.saturating_sub(1) = start_line + 0 = 1
    // But with no lines, end_line equals start_line
    assert_eq!(entry.end_line, Some(1));
    assert_eq!(entry.value, "");
}

#[test]
fn test_function_builder_single_line() {
    let mut builder = FunctionBuilder::new("test".into(), 5);
    builder.add_line("test() { echo hello; }");
    let entry = builder.build(EntryType::Function);

    assert_eq!(entry.name, "test");
    assert_eq!(entry.line_number, Some(5));
    assert_eq!(entry.end_line, Some(5));
    // value should be the body only
    assert_eq!(entry.value, "echo hello;");
}

#[test]
fn test_function_builder_multi_line() {
    let mut builder = FunctionBuilder::new("greet".into(), 10);
    builder.add_line("greet() {");
    builder.add_line("    echo \"Hello\"");
    builder.add_line("    echo \"World\"");
    builder.add_line("}");
    let entry = builder.build(EntryType::Function);

    assert_eq!(entry.name, "greet");
    assert_eq!(entry.line_number, Some(10));
    assert_eq!(entry.end_line, Some(13));
    // value should be the body only (middle lines)
    assert!(entry.value.contains("echo \"Hello\""));
    assert!(entry.value.contains("echo \"World\""));
    assert!(!entry.value.contains("greet() {")); // Should NOT contain opening
    assert!(!entry.value.contains("}")); // Should NOT contain closing as separate line
}
