//! Application configuration: UI options, the files of each shell, and
//! the snippets offered for new entries. Keyed tables are lists of
//! `(key, value)` pairs whose keys are distinct.
use vstd::prelude::*;

use crate::text::string_from_str;

verus! {

/// A snippet template shown in the "new entry" picker.
#[derive(Debug, Clone)]
pub struct Snippet {
    pub name: String,
    pub description: String,
    pub template: Option<String>,
}

/// UI configuration options.
#[derive(Debug, Clone)]
pub struct UiConfig {
    pub language: String,
}

/// The configured file paths (or patterns) of one shell.
#[derive(Debug, Clone)]
pub struct FilesConfig {
    pub paths: Vec<String>,
}

/// Main configuration: UI options and the file list of each shell.
#[derive(Debug, Clone)]
pub struct Config {
    /// Where the configuration was read from.
    pub source_path: String,
    pub ui: UiConfig,
    /// File lists keyed by shell key (`bash`, `zsh`, `powershell`).
    pub files: Vec<(String, FilesConfig)>,
}

/// Snippet templates for the "new entry" picker, keyed by shell key.
#[derive(Debug, Clone)]
pub struct Snippets {
    pub snippets: Vec<(String, Vec<Snippet>)>,
}

/// No key occurs twice in a keyed table.
pub open spec fn keys_distinct<V>(t: Seq<(String, V)>) -> bool {
    forall|i: int, j: int| 0 <= i < j < t.len() ==> (#[trigger] t[i]).0@ != (#[trigger] t[j]).0@
}

impl Config {
    /// A well-formed configuration holds one file list per shell key.
    pub open spec fn wf(&self) -> bool {
        keys_distinct(self.files@)
    }
}

/// The position of `key` in a keyed table, if any.
pub open spec fn key_index<V>(t: Seq<(String, V)>, key: Seq<char>) -> Option<int> {
    if exists|i: int| 0 <= i < t.len() && t[i].0@ == key {
        Some(choose|i: int| 0 <= i < t.len() && t[i].0@ == key)
    } else {
        None
    }
}

/// Position of `key` in a keyed table.
pub fn find_key<V>(t: &Vec<(String, V)>, key: &str) -> (r: Option<usize>)
    ensures
        match r {
            Some(i) => i < t@.len() && t@[i as int].0@ == key@ && forall|j: int|
                0 <= j < i ==> t@[j].0@ != key@,
            None => forall|j: int| 0 <= j < t@.len() ==> t@[j].0@ != key@,
        },
{
    let k = crate::text::str_chars(key);
    let mut i: usize = 0;
    while i < t.len()
        invariant
            i <= t@.len(),
            k@ == key@,
            forall|j: int| 0 <= j < i ==> t@[j].0@ != key@,
        decreases t@.len() - i,
    {
        let c = crate::text::str_chars(t[i].0.as_str());
        if crate::model::entry::chars_eq(c.as_slice(), k.as_slice()) {
            return Some(i);
        }
        i = i + 1;
    }
    None
}

/// Two snippets hold the same texts.
pub open spec fn same_snippet(a: Snippet, b: Snippet) -> bool {
    &&& a.name@ == b.name@
    &&& a.description@ == b.description@
    &&& match (a.template, b.template) {
        (Some(x), Some(y)) => x@ == y@,
        (None, None) => true,
        _ => false,
    }
}

/// A copy of a snippet.
pub fn copy_snippet(s: &Snippet) -> (r: Snippet)
    ensures
        same_snippet(r, *s),
{
    Snippet {
        name: string_from_str(s.name.as_str()),
        description: string_from_str(s.description.as_str()),
        template: match &s.template {
            Some(t) => Some(string_from_str(t.as_str())),
            None => None,
        },
    }
}

/// A copy of a list of snippets.
pub fn copy_snippets(v: &Vec<Snippet>) -> (r: Vec<Snippet>)
    ensures
        r@.len() == v@.len(),
        forall|k: int| 0 <= k < v@.len() ==> same_snippet(#[trigger] r@[k], v@[k]),
{
    let mut r: Vec<Snippet> = Vec::new();
    let mut i: usize = 0;
    while i < v.len()
        invariant
            i <= v@.len(),
            r@.len() == i,
            forall|k: int| 0 <= k < i ==> same_snippet(#[trigger] r@[k], v@[k]),
        decreases v@.len() - i,
    {
        r.push(copy_snippet(&v[i]));
        i = i + 1;
    }
    r
}

impl Default for UiConfig {
    fn default() -> (r: Self)
        ensures
            r.language@ == "en"@,
    {
        UiConfig { language: string_from_str("en") }
    }
}

impl Default for Config {
    fn default() -> (r: Self)
        ensures
            r.source_path@.len() == 0,
            r.ui.language@ == "en"@,
            r.files@.len() == 0,
            r.wf(),
    {
        Config { source_path: String::new(), ui: UiConfig::default(), files: Vec::new() }
    }
}

impl Default for Snippets {
    fn default() -> (r: Self)
        ensures
            r.snippets@.len() == 0,
    {
        Snippets { snippets: Vec::new() }
    }
}

impl Snippets {
    /// Snippets configured for the given shell, or an empty list.
    pub fn for_shell(&self, shell_key: &str) -> (r: Vec<Snippet>)
        ensures
            match key_index(self.snippets@, shell_key@) {
                Some(_) => exists|i: int|
                    0 <= i < self.snippets@.len() && self.snippets@[i].0@ == shell_key@ && (forall|
                        j: int,
                    | 0 <= j < i ==> self.snippets@[j].0@ != shell_key@) && r@.len()
                        == self.snippets@[i].1@.len() && forall|k: int|
                        0 <= k < r@.len() ==> same_snippet(#[trigger] r@[k], self.snippets@[i].1@[k]),
                None => r@.len() == 0,
            },
    {
        match find_key(&self.snippets, shell_key) {
            Some(i) => {
                let r = copy_snippets(&self.snippets[i].1);
                assert(key_index(self.snippets@, shell_key@).is_some());
                r
            },
            None => {
                assert(key_index(self.snippets@, shell_key@).is_none());
                Vec::new()
            },
        }
    }
}

} // verus!
