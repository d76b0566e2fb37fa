use wenv::config::ensure_shell_files;
use wenv::config::path_resolver::{replace_vars, var_names};
use wenv::model::config::Config;

fn pairs(v: &[(&str, &str)]) -> Vec<(String, String)> {
    v.iter().map(|(a, b)| (a.to_string(), b.to_string())).collect()
}

#[test]
fn unix_placeholder_names_in_order() {
    assert_eq!(var_names("$HOME/a/$XDG_X/$HOME", false), vec!["HOME", "XDG_X", "HOME"]);
    assert_eq!(var_names("a$1b$_c", false), vec!["_c"]);
    assert!(var_names("%HOME%", false).is_empty());
}

#[test]
fn windows_placeholder_names_in_order() {
    assert_eq!(var_names("%APPDATA%\\x%%Y%", true), vec!["APPDATA", "Y"]);
    assert!(var_names("%OPEN\\x", true).is_empty());
    assert!(var_names("$HOME", true).is_empty());
}

#[test]
fn unix_placeholders_are_replaced() {
    let v = pairs(&[("HOME", "/h")]);
    assert_eq!(replace_vars("$HOME/x/$HOME", &v, false), "/h/x//h");
    assert_eq!(replace_vars("$NOPE/x", &v, false), "$NOPE/x");
    // every occurrence of `$HOME` is replaced, also inside a longer name
    assert_eq!(replace_vars("$HOMEDIR/$HOME", &v, false), "/hDIR//h");
}

#[test]
fn windows_placeholders_are_replaced() {
    let v = pairs(&[("A", "c:"), ("B", "d"), ("A", "ignored")]);
    assert_eq!(replace_vars("%A%\\%B%\\%C%", &v, true), "c:\\d\\%C%");
    assert_eq!(replace_vars("$A", &v, true), "$A");
}

#[test]
fn unix_then_windows_expansion() {
    let unix = replace_vars("$ROOT/%SUB%", &pairs(&[("ROOT", "%BASE%")]), false);
    assert_eq!(unix, "%BASE%/%SUB%");
    assert_eq!(var_names(&unix, true), vec!["BASE", "SUB"]);
    let done = replace_vars(&unix, &pairs(&[("BASE", "b"), ("SUB", "s")]), true);
    assert_eq!(done, "b/s");
}

#[test]
fn adding_a_default_list_keeps_one_list_per_shell() {
    let mut c = Config::default();
    assert!(ensure_shell_files(&mut c, "bash"));
    assert!(ensure_shell_files(&mut c, "powershell"));
    assert!(!ensure_shell_files(&mut c, "bash"));
    let keys: Vec<&str> = c.files.iter().map(|(k, _)| k.as_str()).collect();
    assert_eq!(keys, vec!["bash", "powershell"]);
}
