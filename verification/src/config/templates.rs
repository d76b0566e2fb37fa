//! Built-in file lists and snippets of each shell.
use vstd::prelude::*;

use crate::model::config::Snippet;
use crate::text::{str_chars, string_from_str};

verus! {

/// The default configuration files of a shell key.
pub open spec fn default_path_list(shell_key: Seq<char>) -> Option<Seq<Seq<char>>> {
    if shell_key == "bash"@ {
        Some(
            seq![
                "/etc/profile"@,
                "/etc/profile.d/*.sh"@,
                "~/.profile"@,
                "~/.bashrc"@,
                "~/.bash_aliases"@,
            ],
        )
    } else if shell_key == "zsh"@ {
        Some(
            seq![
                "/etc/zshenv"@,
                "/etc/zprofile"@,
                "/etc/zshrc"@,
                "~/.zshenv"@,
                "~/.zprofile"@,
                "~/.zshrc"@,
                "~/.zsh_aliases"@,
            ],
        )
    } else if shell_key == "powershell"@ {
        Some(seq!["$PROFILE"@])
    } else {
        None
    }
}

/// A snippet's name, description and template as texts.
pub open spec fn snippet_text(s: Snippet) -> (Seq<char>, Seq<char>, Option<Seq<char>>) {
    (
        s.name@,
        s.description@,
        match s.template {
            Some(t) => Some(t@),
            None => None,
        },
    )
}

/// Default snippets for POSIX shells (bash, zsh).
pub open spec fn posix_snippets() -> Seq<(Seq<char>, Seq<char>, Option<Seq<char>>)> {
    seq![
        ("blank"@, "Empty editor"@, None),
        ("alias"@, "alias NAME='VALUE'"@, Some("alias NAME='VALUE'"@)),
        ("export"@, "export VAR='VALUE'"@, Some("export VAR='VALUE'"@)),
        ("function"@, "name() { ... }"@, Some("name() {\n  \n}"@)),
        ("source"@, "source FILE"@, Some("source "@)),
    ]
}

/// Default snippets for PowerShell.
pub open spec fn pwsh_snippets() -> Seq<(Seq<char>, Seq<char>, Option<Seq<char>>)> {
    seq![
        ("blank"@, "Empty editor"@, None),
        ("alias"@, "Set-Alias NAME VALUE"@, Some("Set-Alias Name Value"@)),
        ("function"@, "function Name { ... }"@, Some("function Name {\n  \n}"@)),
        ("env-var"@, "$env:VAR = 'VALUE'"@, Some("$env:VAR = 'VALUE'"@)),
        ("source"@, ". FILE"@, Some(". "@)),
    ]
}

/// The default snippets of a shell key.
pub open spec fn default_snippet_list(shell_key: Seq<char>) -> Seq<
    (Seq<char>, Seq<char>, Option<Seq<char>>),
> {
    if shell_key == "bash"@ || shell_key == "zsh"@ {
        posix_snippets()
    } else if shell_key == "powershell"@ {
        pwsh_snippets()
    } else {
        Seq::empty()
    }
}

fn strings(v: Vec<&str>) -> (r: Vec<String>)
    ensures
        r@.len() == v@.len(),
        forall|i: int| 0 <= i < v@.len() ==> (#[trigger] r@[i])@ == v@[i]@,
{
    let mut r: Vec<String> = Vec::new();
    let mut i: usize = 0;
    while i < v.len()
        invariant
            i <= v@.len(),
            r@.len() == i,
            forall|k: int| 0 <= k < i ==> (#[trigger] r@[k])@ == v@[k]@,
        decreases v@.len() - i,
    {
        r.push(string_from_str(v[i]));
        i = i + 1;
    }
    r
}

fn key_is(key: &str, lit: &str) -> (r: bool)
    ensures
        r == (key@ == lit@),
{
    let k = str_chars(key);
    crate::model::entry::chars_eq_str(k.as_slice(), lit)
}

/// The default configuration files of a shell key (`bash`, `zsh`, `powershell`).
pub fn default_paths(shell_key: &str) -> (r: Option<Vec<String>>)
    ensures
        match default_path_list(shell_key@) {
            Some(ps) => r matches Some(v) && v@.len() == ps.len() && forall|i: int|
                0 <= i < ps.len() ==> (#[trigger] v@[i])@ == ps[i],
            None => r.is_none(),
        },
{
    if key_is(shell_key, "bash") {
        let v = strings(
            vec![
                "/etc/profile",
                "/etc/profile.d/*.sh",
                "~/.profile",
                "~/.bashrc",
                "~/.bash_aliases",
            ],
        );
        Some(v)
    } else if key_is(shell_key, "zsh") {
        Some(
            strings(
                vec![
                    "/etc/zshenv",
                    "/etc/zprofile",
                    "/etc/zshrc",
                    "~/.zshenv",
                    "~/.zprofile",
                    "~/.zshrc",
                    "~/.zsh_aliases",
                ],
            ),
        )
    } else if key_is(shell_key, "powershell") {
        Some(strings(vec!["$PROFILE"]))
    } else {
        None
    }
}

fn snippet(name: &str, description: &str, template: Option<&str>) -> (r: Snippet)
    ensures
        snippet_text(r) == (name@, description@, match template {
            Some(t) => Some(t@),
            None => None,
        }),
{
    Snippet {
        name: string_from_str(name),
        description: string_from_str(description),
        template: match template {
            Some(t) => Some(string_from_str(t)),
            None => None,
        },
    }
}

/// Default snippets for POSIX shells (bash, zsh).
fn default_posix_snippets() -> (r: Vec<Snippet>)
    ensures
        r@.map_values(|s: Snippet| snippet_text(s)) == posix_snippets(),
{
    let mut v: Vec<Snippet> = Vec::new();
    v.push(snippet("blank", "Empty editor", None));
    v.push(snippet("alias", "alias NAME='VALUE'", Some("alias NAME='VALUE'")));
    v.push(snippet("export", "export VAR='VALUE'", Some("export VAR='VALUE'")));
    v.push(snippet("function", "name() { ... }", Some("name() {\n  \n}")));
    v.push(snippet("source", "source FILE", Some("source ")));
    assert(v@.map_values(|s: Snippet| snippet_text(s)) =~= posix_snippets());
    v
}

/// Default snippets for PowerShell.
fn default_pwsh_snippets() -> (r: Vec<Snippet>)
    ensures
        r@.map_values(|s: Snippet| snippet_text(s)) == pwsh_snippets(),
{
    let mut v: Vec<Snippet> = Vec::new();
    v.push(snippet("blank", "Empty editor", None));
    v.push(snippet("alias", "Set-Alias NAME VALUE", Some("Set-Alias Name Value")));
    v.push(snippet("function", "function Name { ... }", Some("function Name {\n  \n}")));
    v.push(snippet("env-var", "$env:VAR = 'VALUE'", Some("$env:VAR = 'VALUE'")));
    v.push(snippet("source", ". FILE", Some(". ")));
    assert(v@.map_values(|s: Snippet| snippet_text(s)) =~= pwsh_snippets());
    v
}

/// The default snippets of a shell key.
pub fn default_snippets(shell_key: &str) -> (r: Vec<Snippet>)
    ensures
        r@.map_values(|s: Snippet| snippet_text(s)) == default_snippet_list(shell_key@),
{
    if key_is(shell_key, "bash") || key_is(shell_key, "zsh") {
        default_posix_snippets()
    } else if key_is(shell_key, "powershell") {
        default_pwsh_snippets()
    } else {
        let v: Vec<Snippet> = Vec::new();
        assert(v@.map_values(|s: Snippet| snippet_text(s)) =~= Seq::empty());
        v
    }
}

} // verus!
