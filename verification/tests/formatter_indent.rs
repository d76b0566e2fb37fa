#![allow(unused_imports)]
use wenv::formatter::indent::{detect_indent_style, format_body_preserve_relative};

#[test]
fn test_detect_indent_style_4_spaces() {
    let content = r#"
function test() {
echo "hello"
if true; then
    echo "nested"
fi
}
"#;
    let style = detect_indent_style(content);
    assert_eq!(style, "    ");
}

#[test]
fn test_detect_indent_style_2_spaces() {
    let content = r#"
function test() {
  echo "hello"
  if true; then
echo "nested"
  fi
}
"#;
    let style = detect_indent_style(content);
    assert_eq!(style, "  ");
}

#[test]
fn test_detect_indent_style_tabs() {
    let content =
        "function test() {\n\techo \"hello\"\n\tif true; then\n\t\techo \"nested\"\n\tfi\n}";
    let style = detect_indent_style(content);
    assert_eq!(style, "\t");
}

#[test]
fn test_format_body_preserve_relative() {
    let body = "  echo \"start\"\n  if true; then\n    echo \"nested\"\n  fi";
    let formatted = format_body_preserve_relative(body, "    ");
    assert!(formatted.contains("    echo \"start\""));
    assert!(formatted.contains("      echo \"nested\""));
}

#[test]
fn test_format_body_empty() {
    let body = "";
    let formatted = format_body_preserve_relative(body, "    ");
    assert_eq!(formatted, "");
}
