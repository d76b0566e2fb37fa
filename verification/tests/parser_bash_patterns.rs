use wenv::parser::bash::patterns::{
    alias_double_captures, alias_multiline_start_captures, alias_noquote_captures,
    alias_single_captures, export_multiline_start_captures, export_re_captures,
    func_keyword_captures, func_start_captures, source_re_captures,
};

#[test]
fn test_alias_single_re() {
    let caps = alias_single_captures("alias ll='ls -la'").unwrap();
    assert_eq!(caps.0, "ll");
    assert_eq!(caps.1, "ls -la");
}

#[test]
fn test_alias_double_re() {
    let caps = alias_double_captures(r#"alias gs="git status""#).unwrap();
    assert_eq!(caps.0, "gs");
    assert_eq!(caps.1, "git status");
}

#[test]
fn test_alias_special_names() {
    assert!(alias_single_captures("alias ..='cd ..'").is_some());
    assert!(alias_single_captures("alias ~='cd ~'").is_some());
    assert!(alias_single_captures("alias ...='cd ../..'").is_some());
}

#[test]
fn test_alias_multiline_start() {
    let caps = alias_multiline_start_captures("alias complex='echo").unwrap();
    assert_eq!(caps, "complex");
}

#[test]
fn patterns_test_alias_with_options() {
    // Test -g option
    let caps = alias_single_captures("alias -g ll='ls -la'").unwrap();
    assert_eq!(caps.0, "ll");
    assert_eq!(caps.1, "ls -la");

    // Test -a option with double quotes
    let caps = alias_double_captures(r#"alias -a gs="git status""#).unwrap();
    assert_eq!(caps.0, "gs");
    assert_eq!(caps.1, "git status");

    // Test no-quote with option
    let caps = alias_noquote_captures("alias -p ls=exa").unwrap();
    assert_eq!(caps.0, "ls");
    assert_eq!(caps.1, "exa");

    // Test multiline start with option
    let caps = alias_multiline_start_captures("alias -g complex='echo").unwrap();
    assert_eq!(caps, "complex");
}

#[test]
fn test_export_re() {
    let caps = export_re_captures("export EDITOR=nvim").unwrap();
    assert_eq!(caps.0, "EDITOR");
    assert_eq!(caps.1, "nvim");
}

#[test]
fn test_export_multiline_start() {
    let caps = export_multiline_start_captures("export LONG='first line").unwrap();
    assert_eq!(caps, "LONG");
}

#[test]
fn patterns_test_source_re() {
    let caps = source_re_captures("source ~/.bashrc").unwrap();
    assert_eq!(caps, "~/.bashrc");

    let caps = source_re_captures(". ~/.profile").unwrap();
    assert_eq!(caps, "~/.profile");
}

#[test]
fn patterns_test_func_start_re() {
    let caps = func_start_captures("greet() {").unwrap();
    assert_eq!(caps, "greet");

    let caps = func_start_captures("function hello() {").unwrap();
    assert_eq!(caps, "hello");
}

#[test]
fn test_func_keyword_re() {
    let caps = func_keyword_captures("function test {").unwrap();
    assert_eq!(caps, "test");
}
