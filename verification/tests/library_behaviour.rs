use std::collections::HashSet;
use std::path::PathBuf;

use wenv::checker::duplicate::DuplicateChecker;
use wenv::checker::{check_all, CheckIssue, CheckResult, Checker, Severity};
use wenv::config::ensure_shell_files;
use wenv::config::path_resolver::{
    build_display, build_display_with, derive_file_display_in_group, expand_tilde, file_display_in_group_with, expand_tilde_with, flatten_resolved,
    classify_expanded, has_unresolved_vars, tilde_collapse, tilde_collapse_with, PatternKind, ResolvedPattern,
};
use wenv::config::templates::{default_paths, default_snippets};
use wenv::formatter::indent::{detect_indent_style, format_body_preserve_relative};
use wenv::formatter::{find_attached_comments, get_formatter, Formatter};
use wenv::model::config::{Config, FilesConfig, Snippet, Snippets};
use wenv::model::entry::{find_entry, Entry, EntryType};
use wenv::model::profile::{DirGroup, ListItem, ProfileFile, ShellProfile, TreeNode};
use wenv::model::shell::ShellType;
use wenv::parser::bash::parsers::try_parse_env;
use wenv::parser::bash::BashParser;
use wenv::parser::pwsh::PowerShellParser;
use wenv::parser::{get_parser, ParseEvent, Parser};

fn values_joined(entries: &[Entry]) -> String {
    entries.iter().map(|e| e.value.clone()).collect::<Vec<_>>().join("\n")
}

// --- The parse covers the file, and formatting gives it back ----------------

#[test]
fn bash_parse_then_format_restores_file() {
    let content = "# Git aliases\nalias gs='git status'\n\nexport EDITOR=nvim\nif true; then\n    echo hi\nfi\n\ngreet() {\n    echo \"Hello\"\n}\nsource ~/.bash_aliases\nplugins=(\n  git\n)\n";
    let parser = BashParser::new();
    let result = parser.parse(content);
    assert!(result.warnings.is_empty());
    let formatter = get_formatter(ShellType::Bash);
    let text = formatter.format(&result.entries, &Config::default());
    assert_eq!(text, &content[..content.len() - 1]);
}

#[test]
fn pwsh_parse_then_format_restores_file() {
    let content = "# profile\nSet-Alias ll Get-ChildItem\n$env:EDITOR = \"code\"\n$env:LONG = @\"\na\nb\n\"@\nfunction Get-Greeting {\n    Write-Host 'Hello'\n}\nif ($true) {\n    Write-Host 'yes'\n}\n. .\\aliases.ps1";
    let parser = PowerShellParser::new();
    let result = parser.parse(content);
    assert!(result.warnings.is_empty());
    let formatter = get_formatter(ShellType::PowerShell);
    assert_eq!(formatter.format(&result.entries, &Config::default()), content);
}

#[test]
fn parse_entries_follow_one_another() {
    let content = "alias a='1'\n\n# note\necho x\nexport B=2\n";
    let result = BashParser::new().parse(content);
    let mut next = 1;
    for e in &result.entries {
        assert_eq!(e.line_number, Some(next));
        let end = e.end_line.unwrap_or(next);
        assert_eq!(end - next + 1, e.value.split('\n').count());
        next = end + 1;
    }
    assert_eq!(next, 6);
}

#[test]
fn structured_lines_are_kept_trimmed() {
    let content = "  alias ll='ls -la'  \n\tfoo\t";
    let result = BashParser::new().parse(content);
    assert_eq!(values_joined(&result.entries), "alias ll='ls -la'\n\tfoo\t");
}

// --- Structured lines give structured entries -------------------------------

fn kinds(entries: &[Entry]) -> Vec<(EntryType, String)> {
    entries.iter().map(|e| (e.entry_type, e.name.clone())).collect()
}

#[test]
fn bash_structured_lines_give_named_entries() {
    let content = "# c\nalias ll='ls -l'\nif true; then\n  alias x='y'\nfi\nexport A=1\nsource ~/.x.sh\ng() { echo; }";
    let r = BashParser::new().parse(content);
    assert_eq!(
        kinds(&r.entries),
        vec![
            (EntryType::Alias, "ll".to_string()),
            (EntryType::Code, "L3-L5".to_string()),
            (EntryType::EnvVar, "A".to_string()),
            (EntryType::Source, ".x".to_string()),
            (EntryType::Function, "g".to_string()),
        ]
    );
    // The alias inside the control structure stays in its code block,
    // whose first line opens the block.
    assert_eq!(r.entries[1].line_number, Some(3));
    assert_eq!(r.entries[1].end_line, Some(5));
}

#[test]
fn pwsh_structured_lines_give_named_entries() {
    let content = "Set-Alias ll Get-ChildItem\nforeach ($i in $x) {\n  Set-Alias y z\n}\n$env:A = 1\nfunction Get-It {\n  1\n}";
    let r = PowerShellParser::new().parse(content);
    assert_eq!(
        kinds(&r.entries),
        vec![
            (EntryType::Alias, "ll".to_string()),
            (EntryType::Code, "L2-L4".to_string()),
            (EntryType::EnvVar, "A".to_string()),
            (EntryType::Function, "Get-It".to_string()),
        ]
    );
}

// --- Blocks left open at the end of the file --------------------------------

#[test]
fn bash_unclosed_function_warns_at_its_first_line() {
    let result = BashParser::new().parse("alias a='b'\ngreet() {\n    echo hi");
    assert_eq!(result.warnings.len(), 1);
    assert_eq!(result.warnings[0].line_number, 2);
    assert_eq!(result.warnings[0].message, "Unclosed function definition at end of file");
    assert_eq!(result.warnings[0].raw_line, "");
    assert_eq!(result.entries.len(), 1);
    assert_eq!(result.entries[0].end_line, Some(1));
}

#[test]
fn bash_unclosed_alias_export_and_block_warnings() {
    let r = BashParser::new().parse("alias x='one\ntwo");
    assert_eq!(r.warnings[0].message, "Unclosed multi-line alias at end of file");
    let r = BashParser::new().parse("export X='one\ntwo");
    assert_eq!(r.warnings[0].message, "Unclosed multi-line export at end of file");
    let r = BashParser::new().parse("if true; then\n  echo");
    assert_eq!(r.warnings[0].message, "Unclosed block at end of file");
    assert!(r.entries.is_empty());
}

#[test]
fn pwsh_unclosed_warnings() {
    let r = PowerShellParser::new().parse("function F {\n  x");
    assert_eq!(r.warnings[0].message, "Unclosed function definition at end of file");
    let r = PowerShellParser::new().parse("$env:X = @\"\nabc");
    assert_eq!(r.warnings[0].message, "Unclosed environment variable Here-String at end of file");
    let r = PowerShellParser::new().parse("foreach ($i in $x) {\n  x");
    assert_eq!(r.warnings[0].message, "Unclosed block at end of file");
}

// --- Names given to entries -------------------------------------------------

#[test]
fn bash_anonymous_function_names() {
    let r = BashParser::new().parse("() { echo one; }\n() {\n  echo two\n}");
    assert_eq!(r.entries[0].name, "(fL1)");
    assert_eq!(r.entries[1].name, "(fL2-L4)");
}

#[test]
fn bash_comment_and_code_names() {
    let r = BashParser::new().parse("# a\n# b\n\nalias x='y'\n\n\n");
    assert_eq!(r.entries[0].name, "#L1-L3");
    assert_eq!(r.entries[1].name, "x");
    let r = BashParser::new().parse("\n\nalias x='y'");
    assert_eq!(r.entries[0].name, "L1-L2");
    let r = BashParser::new().parse("\nalias x='y'");
    assert_eq!(r.entries[0].name, "L1-L1");
}

#[test]
fn pwsh_structured_entries_take_no_comment() {
    let r = PowerShellParser::new().parse("# c\nSet-Alias ll Get-ChildItem\n\n");
    assert_eq!(r.entries.len(), 3);
    assert_eq!(r.entries[0].name, "#L1");
    assert_eq!(r.entries[2].name, "L3");
}

// --- Parsers and formatters by shell ----------------------------------------

#[test]
fn factories_follow_the_shell() {
    assert_eq!(get_parser(ShellType::Bash).shell_type(), ShellType::Bash);
    assert_eq!(get_parser(ShellType::PowerShell).shell_type(), ShellType::PowerShell);
    assert_eq!(get_formatter(ShellType::PowerShell).shell_type(), ShellType::PowerShell);
    let e = Entry::new(EntryType::Alias, "a".into(), "alias a='b'".into());
    assert_eq!(get_formatter(ShellType::Bash).format_entry(&e), "alias a='b'");
}

#[test]
fn can_parse_takes_lone_quote_values() {
    let p = get_parser(ShellType::Bash);
    assert!(p.can_parse("export X=1\nsource ~/.x"));
    assert!(p.can_parse("export X=\""));
    assert!(p.can_parse("source '"));
    let q = get_parser(ShellType::PowerShell);
    assert!(q.can_parse("$env:X = 1"));
    assert!(q.can_parse("$env:X = \""));
}

#[test]
fn word_class_is_unicode() {
    match try_parse_env("export ÉDITEUR=nvim", 1) {
        ParseEvent::Complete(e) => assert_eq!(e.name, "ÉDITEUR"),
        _ => panic!("expected an export"),
    }
    assert!(matches!(try_parse_env("export -X=1", 1), ParseEvent::NoMatch));
}

// --- Names of types and shells ----------------------------------------------

#[test]
fn names_parse_ignoring_case() {
    assert_eq!(EntryType::parse_name("ALIAS"), Ok(EntryType::Alias));
    assert_eq!(EntryType::parse_name("EnvVar"), Ok(EntryType::EnvVar));
    assert_eq!(EntryType::parse_name("Comment"), Ok(EntryType::Comment));
    assert_eq!(EntryType::parse_name("foo"), Err("Unknown entry type: foo".to_string()));
    assert_eq!(ShellType::parse_name("PowerShell"), Ok(ShellType::PowerShell));
    assert_eq!(ShellType::parse_name("fish"), Err("Unknown shell type: fish".to_string()));
    assert_eq!(EntryType::Code.as_str(), "code");
    assert_eq!(EntryType::Comment.as_str(), "comment");
}

#[test]
fn shell_detection_from_environment() {
    assert_eq!(ShellType::detect_from(Some("/bin/bash"), false, false, false, true), Some(ShellType::Bash));
    assert_eq!(ShellType::detect_from(Some("/usr/bin/pwsh"), false, false, false, true), Some(ShellType::PowerShell));
    assert_eq!(ShellType::detect_from(Some("/bin/zsh"), true, false, false, true), Some(ShellType::PowerShell));
    assert_eq!(ShellType::detect_from(None, false, false, false, true), Some(ShellType::Bash));
    assert_eq!(ShellType::detect_from(None, false, true, true, false), Some(ShellType::PowerShell));
    assert_eq!(ShellType::detect_from(None, false, true, false, false), None);
    assert_eq!(ShellType::detect_from(None, false, false, false, false), None);
}

#[test]
fn find_entry_gives_the_first_match() {
    let es = vec![
        Entry::new(EntryType::Alias, "ll".into(), "1".into()),
        Entry::new(EntryType::Function, "ll".into(), "2".into()),
        Entry::new(EntryType::Function, "ll".into(), "3".into()),
    ];
    assert_eq!(find_entry(&es, EntryType::Function, "ll").unwrap().value, "2");
    assert!(find_entry(&es, EntryType::EnvVar, "ll").is_none());
}

// --- Checks -----------------------------------------------------------------

#[test]
fn duplicate_message_lists_every_line() {
    let es = vec![
        Entry::new(EntryType::Alias, "ll".into(), "a".into()).with_line_number(1),
        Entry::new(EntryType::EnvVar, "X".into(), "b".into()).with_line_number(2),
        Entry::new(EntryType::Alias, "ll".into(), "c".into()).with_line_number(5),
        Entry::new(EntryType::EnvVar, "X".into(), "d".into()),
        Entry::new(EntryType::Alias, "ll".into(), "e".into()).with_line_number(9),
    ];
    let r = DuplicateChecker.check(&es);
    assert_eq!(r.issues.len(), 2);
    assert_eq!(r.issues[0].message, "Duplicate alias 'll' defined on lines: 1, 5, 9");
    assert_eq!(r.issues[0].line_number, Some(1));
    assert_eq!(r.issues[0].entry_name.as_deref(), Some("ll"));
    assert_eq!(r.issues[1].message, "Duplicate env 'X' defined on lines: 2");
    assert!(r.has_warnings());
    assert!(!r.has_errors());
    let all = check_all(&es);
    assert_eq!(all.issues.len(), 2);
}

#[test]
fn check_result_severities() {
    let mut r = CheckResult::new();
    assert!(r.is_ok());
    r.add_issue(CheckIssue::error("bad").with_line(3).with_entry("x"));
    assert!(r.has_errors());
    assert!(!r.has_warnings());
    assert_eq!(r.issues[0].severity, Severity::Error);
    assert_eq!(r.issues[0].line_number, Some(3));
    assert_eq!(r.issues[0].entry_name.as_deref(), Some("x"));
    assert_eq!(CheckIssue::warning("w").severity, Severity::Warning);
}

// --- Formatting helpers -----------------------------------------------------

#[test]
fn attached_comments_follow_line_order() {
    let es = vec![
        Entry::new(EntryType::Alias, "b".into(), "alias b=2".into()).with_line_number(5),
        Entry::new(EntryType::Comment, "#L4".into(), "# for b".into()).with_line_number(4).with_end_line(4),
        Entry::new(EntryType::Comment, "#L1".into(), "# for a".into()).with_line_number(1).with_end_line(1),
        Entry::new(EntryType::Alias, "a".into(), "alias a=1".into()).with_line_number(2),
        Entry::new(EntryType::Comment, "#L3".into(), "# loose".into()).with_line_number(3).with_end_line(3),
    ];
    let m = find_attached_comments(&es);
    assert_eq!(m.len(), 2);
    assert_eq!(m[&2][0].value, "# for a");
    assert_eq!(m[&5][0].value, "# for b");
}

#[test]
fn indentation_units() {
    assert_eq!(detect_indent_style("a\n      b\n   c\n"), "    ");
    assert_eq!(detect_indent_style("a\n      b\n    c\n"), "  ");
    assert_eq!(detect_indent_style("a\n b\n"), "    ");
    assert_eq!(detect_indent_style("a\n          b\n"), "    ");
    assert_eq!(detect_indent_style("x\n\ty\n  z\n  w\n"), "  ");
    assert_eq!(detect_indent_style("x\n\ty\n\tz\n  w\n"), "\t");
    assert_eq!(detect_indent_style(""), "    ");
    assert_eq!(
        format_body_preserve_relative("    a\n\n      b\r\n", "\t"),
        "\ta\n\n\t  b"
    );
}

// --- Profiles ---------------------------------------------------------------

fn entries(values: &[&str]) -> Vec<Entry> {
    values
        .iter()
        .map(|v| Entry::new(EntryType::Code, "?".into(), v.to_string()))
        .collect()
}

#[test]
fn recalculated_line_numbers_match_the_written_file() {
    let mut f = ProfileFile::new_with_entries(
        PathBuf::from("/tmp/x"),
        vec![
            Entry::new(EntryType::Comment, "c".into(), "# a\n# b".into()),
            Entry::new(EntryType::Alias, "ll".into(), "alias ll=ls".into()),
            Entry::new(EntryType::Code, "k".into(), "if x\nthen\nfi".into()),
        ],
        true,
    );
    assert_eq!(f.display_label, "/tmp/x");
    f.recalculate_line_numbers();
    assert_eq!(f.entries[0].line_number, Some(1));
    assert_eq!(f.entries[0].end_line, Some(2));
    assert_eq!(f.entries[0].name, "#L1-L2");
    assert_eq!(f.entries[1].line_number, Some(3));
    assert_eq!(f.entries[1].end_line, Some(3));
    assert_eq!(f.entries[1].name, "ll");
    assert_eq!(f.entries[2].name, "L4-L6");
    assert_eq!(f.entry_count(), 3);
}

#[test]
fn visible_lists_follow_the_tree() {
    let files = vec![
        ProfileFile::new_with_entries(PathBuf::from("/a"), entries(&["x", "y"]), true),
        ProfileFile::new_with_entries(PathBuf::from("/b"), entries(&["z"]), false),
        ProfileFile::new_with_entries(PathBuf::from("/c"), entries(&["w"]), true),
    ];
    let mut p = ShellProfile::from_files(ShellType::Bash, files);
    p.tree = vec![
        TreeNode::File(0),
        TreeNode::Dir(DirGroup {
            source_pattern: "~/d/*".into(),
            display_label: "~/d".into(),
            file_indices: vec![1, 2],
            expanded: true,
        }),
        TreeNode::Dir(DirGroup {
            source_pattern: "~/e".into(),
            display_label: "~/e".into(),
            file_indices: vec![],
            expanded: true,
        }),
    ];
    assert_eq!(
        p.build_visible_list(),
        vec![
            ListItem::FileHeader(0),
            ListItem::Entry(0, 0),
            ListItem::Entry(0, 1),
            ListItem::DirHeader(1),
            ListItem::FileHeader(1),
            ListItem::FileHeader(2),
            ListItem::Entry(2, 0),
            ListItem::DirHeader(2),
        ]
    );
    let mut matched = HashSet::new();
    matched.insert(2usize);
    assert_eq!(
        p.build_visible_list_filtered(&matched),
        vec![ListItem::DirHeader(1), ListItem::FileHeader(2), ListItem::Entry(2, 0)]
    );
    assert_eq!(p.total_entries(), 4);
    assert!(!p.any_dirty());
    p.files[1].dirty = true;
    assert!(p.any_dirty());
    assert_eq!(p.dirty_files().len(), 1);
    p.toggle_all(false);
    assert!(p.files.iter().all(|f| !f.expanded));
    assert_eq!(p.build_visible_list()[1], ListItem::DirHeader(1));
}

// --- Configuration ----------------------------------------------------------

#[test]
fn default_file_lists_and_snippets() {
    assert_eq!(default_paths("powershell"), Some(vec!["$PROFILE".to_string()]));
    assert_eq!(default_paths("bash").unwrap().len(), 5);
    assert_eq!(default_paths("zsh").unwrap()[6], "~/.zsh_aliases");
    assert_eq!(default_paths("fish"), None);
    let s = default_snippets("zsh");
    assert_eq!(s.len(), 5);
    assert_eq!(s[3].template.as_deref(), Some("name() {\n  \n}"));
    assert_eq!(default_snippets("powershell")[3].name, "env-var");
    assert!(default_snippets("fish").is_empty());
}

#[test]
fn shell_files_are_added_once() {
    let mut c = Config::default();
    assert!(ensure_shell_files(&mut c, "bash"));
    assert_eq!(c.files.len(), 1);
    assert_eq!(c.files[0].0, "bash");
    assert_eq!(c.files[0].1.paths[3], "~/.bashrc");
    assert!(!ensure_shell_files(&mut c, "bash"));
    assert!(!ensure_shell_files(&mut c, "fish"));
    c.files.push(("zsh".into(), FilesConfig { paths: vec![] }));
    assert!(!ensure_shell_files(&mut c, "zsh"));
    assert_eq!(c.files.len(), 2);
}

#[test]
fn snippets_of_a_shell() {
    let s = Snippets {
        snippets: vec![(
            "bash".into(),
            vec![Snippet { name: "n".into(), description: "d".into(), template: None }],
        )],
    };
    assert_eq!(s.for_shell("bash")[0].name, "n");
    assert!(s.for_shell("zsh").is_empty());
}

// --- Path patterns ----------------------------------------------------------

#[test]
fn path_placeholders_and_labels() {
    assert!(has_unresolved_vars("$HOME/x"));
    assert!(has_unresolved_vars("a/%APPDATA%/b"));
    assert!(!has_unresolved_vars("a/%APP DATA%/b"));
    assert!(!has_unresolved_vars("cost $5"));
    assert!(!has_unresolved_vars("100%"));
    assert_eq!(tilde_collapse_with("/home/u/.bashrc", Some("/home/u")), "~/.bashrc");
    assert_eq!(tilde_collapse_with("/etc/profile", Some("/home/u")), "/etc/profile");
    assert_eq!(expand_tilde_with("~/.bashrc", Some("/home/u")), "/home/u/.bashrc");
    assert_eq!(expand_tilde_with("~", Some("/home/u")), "/home/u");
    assert_eq!(expand_tilde_with("~x", Some("/home/u")), "~x");
    assert_eq!(
        build_display_with("$HOME/.bashrc", "/home/u/.bashrc", Some("/home/u")),
        "~/.bashrc ($HOME/.bashrc)"
    );
    assert_eq!(
        file_display_in_group_with("/home/u/d/a.sh", "$HOME/d/*.sh", Some("/home/u"), "a.sh"),
        "~/d/a.sh ($HOME/d/a.sh)"
    );
    assert_eq!(
        file_display_in_group_with("/home/u/d/a.sh", "~/d/*.sh", Some("/home/u"), "a.sh"),
        "~/d/a.sh"
    );
}

#[test]
fn home_expansion_round_trips() {
    for p in ["~", "~/.bashrc", "~/a/b"] {
        let e = expand_tilde_with(p, Some("/home/u"));
        assert_eq!(tilde_collapse_with(&e, Some("/home/u")), p);
    }
    for p in ["/home/u", "/home/u/.bashrc"] {
        let c = tilde_collapse_with(p, Some("/home/u"));
        assert_eq!(expand_tilde_with(&c, Some("/home/u")), p);
    }
    // A path that only shares the home directory's text as a prefix.
    assert_eq!(tilde_collapse_with("/home/user2", Some("/home/u")), "~ser2");
    assert_eq!(expand_tilde_with("~ser2", Some("/home/u")), "~ser2");
}

#[test]
fn home_directory_labels() {
    assert_eq!(expand_tilde("/etc/profile"), "/etc/profile");
    assert_eq!(expand_tilde("~x"), "~x");
    assert_eq!(
        derive_file_display_in_group(&PathBuf::from("/etc/profile.d/a.sh"), "/etc/profile.d/*.sh"),
        "/etc/profile.d/a.sh"
    );
    let unlabelled = ProfileFile::new(PathBuf::from("/etc/profile"), true, String::new());
    let labelled = ProfileFile::new(PathBuf::from("/etc/profile"), true, "main".into());
    assert_eq!(labelled.display_name(), "main");
    if let Some(home) = dirs::home_dir() {
        let h = home.to_string_lossy().to_string();
        if h != "/" && !h.is_empty() {
            assert_eq!(expand_tilde("~/.bashrc"), format!("{}/.bashrc", h));
            assert_eq!(tilde_collapse(&format!("{}/.bashrc", h)), "~/.bashrc");
            assert_eq!(build_display("$HOME/.bashrc", &format!("{}/.bashrc", h)), "~/.bashrc ($HOME/.bashrc)");
            assert_eq!(unlabelled.display_name(), "/etc/profile");
            let under_home = ProfileFile::new(home.join("x.sh"), true, String::new());
            assert_eq!(under_home.display_name(), "~/x.sh");
            assert_eq!(
                derive_file_display_in_group(&home.join("d").join("a.sh"), "$HOME/d/*.sh"),
                "~/d/a.sh ($HOME/d/a.sh)"
            );
        }
    }
}

#[test]
fn expanded_patterns_by_kind() {
    assert_eq!(classify_expanded("   "), PatternKind::Empty);
    assert_eq!(classify_expanded(""), PatternKind::Empty);
    assert_eq!(classify_expanded("$HOME/x"), PatternKind::Unresolved);
    assert_eq!(classify_expanded("%APPDATA%/*.ps1"), PatternKind::Unresolved);
    assert_eq!(classify_expanded("/etc/profile.d/*.sh"), PatternKind::Glob);
    assert_eq!(classify_expanded("/etc/a?"), PatternKind::Glob);
    assert_eq!(classify_expanded("/etc/profile"), PatternKind::Path);
}

#[test]
fn shell_configuration_file_locations() {
    let (b, p) = ShellType::Bash.config_location_from(Some("/h"), Some("/p.ps1"), None, None, None, false);
    assert_eq!((b.as_str(), p), ("/h", vec![".bashrc"]));
    let (b, p) = ShellType::Bash.config_location_from(None, None, None, None, None, false);
    assert_eq!((b.as_str(), p), ("~", vec![".bashrc"]));
    let ps = ShellType::PowerShell;
    let (b, p) = ps.config_location_from(Some("/h"), Some("/p.ps1"), Some("/q.ps1"), None, None, false);
    assert_eq!((b.as_str(), p.len()), ("/p.ps1", 0));
    let (b, p) = ps.config_location_from(Some("/h"), None, Some("/q.ps1"), None, None, false);
    assert_eq!((b.as_str(), p.len()), ("/q.ps1", 0));
    let (b, p) = ps.config_location_from(Some("/h"), None, None, Some("/c"), Some("/d"), true);
    assert_eq!((b.as_str(), p), ("/d", vec!["PowerShell", "Microsoft.PowerShell_profile.ps1"]));
    let (b, p) = ps.config_location_from(Some("/h"), None, None, Some("/c"), None, true);
    assert_eq!(b, "/h");
    assert_eq!(p.len(), 2);
    let (b, p) = ps.config_location_from(Some("/h"), None, None, Some("/c"), Some("/d"), false);
    assert_eq!((b.as_str(), p), ("/c", vec!["powershell", "Microsoft.PowerShell_profile.ps1"]));
    let (b, p) = ps.config_location_from(Some("/h"), None, None, None, None, false);
    assert_eq!((b.as_str(), p), ("/h", vec![".config", "powershell", "Microsoft.PowerShell_profile.ps1"]));
    let (b, p) = ps.default_config_location(Some("/p.ps1"), None, false);
    assert_eq!((b.as_str(), p.len()), ("/p.ps1", 0));
}

#[test]
fn configuration_keys() {
    assert_eq!(ShellType::Bash.config_key(), "bash");
    assert_eq!(ShellType::PowerShell.config_key(), "powershell");
    assert!(default_paths(ShellType::PowerShell.config_key()).is_some());
}

#[test]
fn profile_from_resolved_patterns() {
    let rs = vec![
        ResolvedPattern::File {
            original: "/etc/profile".into(),
            display: "/etc/profile".into(),
            path: PathBuf::from("/etc/profile"),
            exists: true,
        },
        ResolvedPattern::Dir {
            original: "/etc/profile.d/*.sh".into(),
            display: "/etc/profile.d/*.sh".into(),
            files: vec![
                (PathBuf::from("/etc/profile.d/a.sh"), true),
                (PathBuf::from("/etc/profile.d/b.sh"), false),
            ],
        },
        ResolvedPattern::Dir { original: "/empty".into(), display: "/empty".into(), files: vec![] },
        ResolvedPattern::File {
            original: "/x".into(),
            display: "x label".into(),
            path: PathBuf::from("/x"),
            exists: false,
        },
    ];
    let p = ShellProfile::from_resolved(ShellType::Bash, rs);
    assert_eq!(p.shell_type, ShellType::Bash);
    assert_eq!(p.files.len(), 4);
    assert_eq!(p.tree.len(), 4);
    assert!(matches!(p.tree[0], TreeNode::File(0)));
    match &p.tree[1] {
        TreeNode::Dir(g) => {
            assert_eq!(g.file_indices, vec![1, 2]);
            assert_eq!(g.source_pattern, "/etc/profile.d/*.sh");
            assert_eq!(g.display_label, "/etc/profile.d/*.sh");
            assert!(!g.expanded);
        }
        TreeNode::File(_) => panic!("expected a group"),
    }
    match &p.tree[2] {
        TreeNode::Dir(g) => assert!(g.file_indices.is_empty()),
        TreeNode::File(_) => panic!("expected a group"),
    }
    assert!(matches!(p.tree[3], TreeNode::File(3)));
    assert_eq!(p.files[1].path, PathBuf::from("/etc/profile.d/a.sh"));
    assert_eq!(p.files[1].display_label, "/etc/profile.d/a.sh");
    assert!(!p.files[2].exists);
    assert_eq!(p.files[3].display_label, "x label");
    assert!(p.files.iter().all(|f| f.entries.is_empty() && f.content.is_empty() && !f.expanded));
}

#[test]
fn loaded_content_is_parsed() {
    let mut f = ProfileFile::new(PathBuf::from("/x"), true, "x".into());
    let parser = get_parser(ShellType::Bash);
    f.load_content(&parser, "alias ll='ls -l'\nexport A=1".to_string());
    assert_eq!(f.entries.len(), 2);
    assert_eq!(f.entries[0].name, "ll");
    assert_eq!(f.entries[1].name, "A");
    assert_eq!(f.content, "alias ll='ls -l'\nexport A=1");
    assert_eq!(f.display_label, "x");
}

#[test]
fn resolved_patterns_flatten_in_order() {
    let rs = vec![
        ResolvedPattern::File {
            original: "a".into(),
            display: "A".into(),
            path: PathBuf::from("/a"),
            exists: true,
        },
        ResolvedPattern::Dir {
            original: "d".into(),
            display: "D".into(),
            files: vec![(PathBuf::from("/d/1"), true), (PathBuf::from("/d/2"), false)],
        },
    ];
    assert_eq!(rs[1].label(), "D");
    let flat = flatten_resolved(rs);
    assert_eq!(
        flat,
        vec![
            (PathBuf::from("/a"), true),
            (PathBuf::from("/d/1"), true),
            (PathBuf::from("/d/2"), false)
        ]
    );
}

#[test]
fn bash_each_structured_line_begins_an_entry() {
    let r = BashParser::new().parse("alias a='x'\nalias b='y'");
    assert!(r.warnings.is_empty());
    assert_eq!(r.entries.len(), 2);
    assert_eq!(r.entries[0].entry_type, EntryType::Alias);
    assert_eq!(r.entries[0].name, "a");
    assert_eq!(r.entries[0].line_number, Some(1));
    assert_eq!(r.entries[0].end_line, Some(1));
    assert_eq!(r.entries[1].entry_type, EntryType::Alias);
    assert_eq!(r.entries[1].name, "b");
    assert_eq!(r.entries[1].line_number, Some(2));
}

#[test]
fn bash_blank_lines_join_the_entry_above() {
    let r = BashParser::new().parse("alias a='x'\n\n\nalias b='y'");
    assert_eq!(r.entries.len(), 2);
    assert_eq!(r.entries[0].line_number, Some(1));
    assert_eq!(r.entries[0].end_line, Some(3));
    assert_eq!(r.entries[0].value, "alias a='x'\n\n");
    assert_eq!(r.entries[1].line_number, Some(4));
}

#[test]
fn bash_comment_block_before_code_stays_apart() {
    let r = BashParser::new().parse("# one\n# two\necho hi");
    assert_eq!(r.entries.len(), 2);
    assert_eq!(r.entries[0].entry_type, EntryType::Comment);
    assert_eq!(r.entries[0].end_line, Some(2));
    assert_eq!(r.entries[1].entry_type, EntryType::Code);
    assert_eq!(r.entries[1].line_number, Some(3));
}

#[test]
fn pwsh_each_structured_line_begins_an_entry() {
    let r = PowerShellParser::new().parse("Set-Alias a b\nSet-Alias c d");
    assert_eq!(r.entries.len(), 2);
    assert_eq!(r.entries[0].name, "a");
    assert_eq!(r.entries[0].line_number, Some(1));
    assert_eq!(r.entries[1].name, "c");
    assert_eq!(r.entries[1].line_number, Some(2));
}

#[test]
fn pwsh_comments_join_code_after_them() {
    let r = PowerShellParser::new().parse("# note\n# more\nWrite-Host hi");
    assert_eq!(r.entries.len(), 1);
    assert_eq!(r.entries[0].entry_type, EntryType::Code);
    assert_eq!(r.entries[0].line_number, Some(1));
    assert_eq!(r.entries[0].end_line, Some(3));
}

#[test]
fn one_duplicate_issue_per_shared_key() {
    let es = vec![
        Entry::new(EntryType::Alias, "a".into(), "1".into()).with_line_number(1),
        Entry::new(EntryType::Function, "a".into(), "2".into()).with_line_number(2),
        Entry::new(EntryType::Alias, "b".into(), "3".into()).with_line_number(3),
        Entry::new(EntryType::Alias, "a".into(), "4".into()).with_line_number(4),
        Entry::new(EntryType::Alias, "b".into(), "5".into()).with_line_number(5),
        Entry::new(EntryType::Alias, "a".into(), "6".into()).with_line_number(6),
    ];
    let r = check_all(&es);
    assert_eq!(r.issues.len(), 2);
    assert_eq!(r.issues[0].entry_name.as_deref(), Some("a"));
    assert_eq!(r.issues[0].line_number, Some(1));
    assert_eq!(r.issues[1].entry_name.as_deref(), Some("b"));
    assert_eq!(r.issues[1].line_number, Some(3));
    assert!(!r.has_errors());
    let distinct = vec![
        Entry::new(EntryType::Alias, "a".into(), "1".into()).with_line_number(1),
        Entry::new(EntryType::Function, "a".into(), "2".into()).with_line_number(2),
    ];
    assert!(check_all(&distinct).is_ok());
}

#[test]
fn filtered_list_is_the_full_list_filtered() {
    let files = vec![
        ProfileFile::new_with_entries(PathBuf::from("/a"), entries(&["x"]), true),
        ProfileFile::new_with_entries(PathBuf::from("/b"), entries(&["z"]), true),
    ];
    let mut p = ShellProfile::from_files(ShellType::Bash, files);
    p.tree = vec![
        TreeNode::Dir(DirGroup {
            source_pattern: "~/d/*".into(),
            display_label: "~/d".into(),
            file_indices: vec![0, 1],
            expanded: true,
        }),
        TreeNode::Dir(DirGroup {
            source_pattern: "~/e".into(),
            display_label: "~/e".into(),
            file_indices: vec![],
            expanded: true,
        }),
    ];
    let full = p.build_visible_list();
    let mut every = HashSet::new();
    every.insert(0usize);
    every.insert(1usize);
    let kept: Vec<ListItem> = full.iter().copied().filter(|it| *it != ListItem::DirHeader(1)).collect();
    assert_eq!(p.build_visible_list_filtered(&every), kept);
    let mut one = HashSet::new();
    one.insert(1usize);
    assert_eq!(
        p.build_visible_list_filtered(&one),
        vec![ListItem::DirHeader(0), ListItem::FileHeader(1), ListItem::Entry(1, 0)]
    );
}
