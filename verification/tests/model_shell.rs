#![allow(unused_imports)]
use wenv::model::entry::{Entry, EntryType, ParseResult, ParseWarning};
use wenv::model::shell::ShellType;

#[test]
fn test_shell_type_name() {
    assert_eq!(ShellType::Bash.name(), "bash");
    assert_eq!(ShellType::PowerShell.name(), "pwsh");
}

#[test]
fn test_shell_type_from_str() {
    assert_eq!("bash".parse::<ShellType>().unwrap(), ShellType::Bash);
    assert_eq!("pwsh".parse::<ShellType>().unwrap(), ShellType::PowerShell);
    assert_eq!(
        "powershell".parse::<ShellType>().unwrap(),
        ShellType::PowerShell
    );
}

#[test]
fn test_default_config_path() {
    let (base, parts) = ShellType::Bash.default_config_location(None, None, false);
    let bash_path = parts
        .iter()
        .fold(std::path::PathBuf::from(base), |p, c| p.join(c));
    assert!(bash_path.to_string_lossy().contains(".bashrc"));
}
