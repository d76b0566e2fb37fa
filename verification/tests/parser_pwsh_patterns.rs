use wenv::parser::pwsh::patterns::{
    alias_re_captures, alias_simple_captures, env_re_captures, func_start_captures,
    source_re_captures,
};

#[test]
fn test_alias_simple_re() {
    let caps = alias_simple_captures("Set-Alias ll Get-ChildItem").unwrap();
    assert_eq!(caps.0, "ll");
    assert_eq!(caps.1, "Get-ChildItem");
}

#[test]
fn test_alias_re_with_params() {
    let caps = alias_re_captures("Set-Alias -Name gs -Value git").unwrap();
    assert_eq!(caps.0, "gs");
    assert_eq!(caps.1, "git");
}

#[test]
fn test_env_re() {
    let caps = env_re_captures(r#"$env:EDITOR = "code""#).unwrap();
    assert_eq!(caps.0, "EDITOR");
    assert_eq!(caps.1, r#""code""#);
}

#[test]
fn pwsh_patterns_test_source_re() {
    let caps = source_re_captures(r#". .\aliases.ps1"#).unwrap();
    assert_eq!(caps, r#".\aliases.ps1"#);
}

#[test]
fn pwsh_patterns_test_func_start_re() {
    let caps = func_start_captures("function Get-Greeting {").unwrap();
    assert_eq!(caps, "Get-Greeting");
}

#[test]
fn test_func_with_params() {
    let caps = func_start_captures("function Test-Func($param) {").unwrap();
    assert_eq!(caps, "Test-Func");
}
