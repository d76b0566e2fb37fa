//! Display and expansion rules for configured path patterns; the file
//! system and the environment are consulted by the caller.
use vstd::prelude::*;

use std::path::PathBuf;

use crate::model::profile::{path_file_name_text, path_text};
use crate::text::{
    push_chars, push_str, rfind_char, rfind_char_exec, slice_range, starts_with,
    starts_with_chars, str_chars, string_from_chars, string_from_str, string_push,
};

verus! {

/// `[A-Za-z_]`
pub open spec fn var_start(c: char) -> bool {
    ('A' <= c && c <= 'Z') || ('a' <= c && c <= 'z') || c == '_'
}

/// `[A-Za-z0-9_]`
pub open spec fn var_char(c: char) -> bool {
    var_start(c) || ('0' <= c && c <= '9')
}

/// End of the run of `[A-Za-z0-9_]` starting at `i`.
pub open spec fn var_run_end(s: Seq<char>, i: int) -> int
    decreases s.len() - i,
{
    if 0 <= i < s.len() && var_char(s[i]) {
        var_run_end(s, i + 1)
    } else {
        i
    }
}

/// `\$[A-Za-z_][A-Za-z0-9_]*` matches at `i`.
pub open spec fn unix_var_at(s: Seq<char>, i: int) -> bool {
    0 <= i && i + 1 < s.len() && s[i] == '$' && var_start(s[i + 1])
}

/// `%[A-Za-z_][A-Za-z0-9_]*%` matches at `i`.
pub open spec fn win_var_at(s: Seq<char>, i: int) -> bool {
    let e = var_run_end(s, i + 2);
    0 <= i && i + 1 < s.len() && s[i] == '%' && var_start(s[i + 1]) && e < s.len() && s[e] == '%'
}

/// A `$VAR` or `%VAR%` placeholder starts at `i`.
pub open spec fn var_at(s: Seq<char>, i: int) -> bool {
    unix_var_at(s, i) || win_var_at(s, i)
}

/// The text holds a `$VAR` or `%VAR%` placeholder.
pub open spec fn has_vars(s: Seq<char>) -> bool {
    exists|i: int| 0 <= i < s.len() && #[trigger] var_at(s, i)
}

fn is_var_start(c: char) -> (r: bool)
    ensures
        r == var_start(c),
{
    ('A' <= c && c <= 'Z') || ('a' <= c && c <= 'z') || c == '_'
}

fn var_run_end_exec(s: &[char], i: usize) -> (r: usize)
    requires
        i <= s@.len(),
    ensures
        r == var_run_end(s@, i as int),
        i <= r <= s@.len(),
{
    let mut j = i;
    while j < s.len() && (is_var_start(s[j]) || ('0' <= s[j] && s[j] <= '9'))
        invariant
            i <= j <= s@.len(),
            var_run_end(s@, i as int) == var_run_end(s@, j as int),
        decreases s@.len() - j,
    {
        j = j + 1;
    }
    j
}

/// The end of a run of name characters lies at or after its start, and
/// within the text when the start does.
pub proof fn lemma_var_run_end_bounds(s: Seq<char>, i: int)
    ensures
        i <= var_run_end(s, i),
        i <= s.len() ==> var_run_end(s, i) <= s.len(),
    decreases s.len() - i,
{
    if 0 <= i < s.len() && var_char(s[i]) {
        lemma_var_run_end_bounds(s, i + 1);
    }
}

/// The names of the placeholders found by a left-to-right scan from `i`:
/// `$NAME` in the Unix form, `%NAME%` in the Windows form. A match is
/// skipped over whole, so matches do not overlap.
pub open spec fn placeholder_names_from(s: Seq<char>, i: int, windows: bool) -> Seq<Seq<char>>
    decreases s.len() - i,
{
    if i < 0 || i >= s.len() {
        Seq::empty()
    } else if !windows && unix_var_at(s, i) {
        let e = var_run_end(s, i + 1);
        proof {
            lemma_var_run_end_bounds(s, i + 1);
        }
        seq![s.subrange(i + 1, e)] + placeholder_names_from(s, e, windows)
    } else if windows && win_var_at(s, i) {
        let e = var_run_end(s, i + 2);
        proof {
            lemma_var_run_end_bounds(s, i + 2);
        }
        seq![s.subrange(i + 1, e)] + placeholder_names_from(s, e + 1, windows)
    } else {
        placeholder_names_from(s, i + 1, windows)
    }
}

/// The names of the placeholders of `s`, in order of appearance.
pub open spec fn placeholder_names(s: Seq<char>, windows: bool) -> Seq<Seq<char>> {
    placeholder_names_from(s, 0, windows)
}

/// The placeholder text for a name: `$NAME` or `%NAME%`.
pub open spec fn placeholder(name: Seq<char>, windows: bool) -> Seq<char> {
    if windows {
        seq!['%'] + name + seq!['%']
    } else {
        seq!['$'] + name
    }
}

/// `s` with every occurrence of `from` replaced by `to`, scanning left to
/// right over non-overlapping occurrences (an empty `from` leaves `s`).
pub open spec fn replace_all(s: Seq<char>, from: Seq<char>, to: Seq<char>) -> Seq<char>
    decreases s.len(),
{
    if from.len() == 0 || s.len() < from.len() {
        s
    } else if s.take(from.len() as int) == from {
        to + replace_all(s.skip(from.len() as int), from, to)
    } else {
        seq![s[0]] + replace_all(s.skip(1), from, to)
    }
}

/// The value given for `name`: that of its first pair.
pub open spec fn lookup(values: Seq<(Seq<char>, Seq<char>)>, name: Seq<char>) -> Option<Seq<char>>
    decreases values.len(),
{
    if values.len() == 0 {
        None
    } else if values[0].0 == name {
        Some(values[0].1)
    } else {
        lookup(values.skip(1), name)
    }
}

/// The pairs of strings as pairs of texts.
pub open spec fn pairs_view(values: Seq<(String, String)>) -> Seq<(Seq<char>, Seq<char>)> {
    values.map_values(|p: (String, String)| (p.0@, p.1@))
}

/// `s` after handling each name in turn: where the name has a value, every
/// occurrence of its placeholder in the text so far is replaced by it.
pub open spec fn substitute(
    s: Seq<char>,
    names: Seq<Seq<char>>,
    values: Seq<(Seq<char>, Seq<char>)>,
    windows: bool,
) -> Seq<char>
    decreases names.len(),
{
    if names.len() == 0 {
        s
    } else {
        let prev = substitute(s, names.drop_last(), values, windows);
        match lookup(values, names.last()) {
            Some(v) => replace_all(prev, placeholder(names.last(), windows), v),
            None => prev,
        }
    }
}

/// `path` with its placeholders of one form replaced, in order of
/// appearance, by the values given for their names.
pub open spec fn replaced(path: Seq<char>, values: Seq<(Seq<char>, Seq<char>)>, windows: bool) -> Seq<char> {
    substitute(path, placeholder_names(path, windows), values, windows)
}

/// The names of the `$NAME` placeholders of a path (or, with `windows_form`,
/// of its `%NAME%` placeholders), in order of appearance.
pub fn var_names(path: &str, windows_form: bool) -> (r: Vec<String>)
    ensures
        crate::parser::builders::comment::views(r@) == placeholder_names(path@, windows_form),
{
    let s = str_chars(path);
    let n = s.len();
    let mut out: Vec<String> = Vec::new();
    let mut i: usize = 0;
    while i < n
        invariant
            i <= n,
            n == s@.len(),
            s@ == path@,
            crate::parser::builders::comment::views(out@) + placeholder_names_from(
                s@,
                i as int,
                windows_form,
            ) == placeholder_names(path@, windows_form),
        decreases n - i,
    {
        let ghost before = crate::parser::builders::comment::views(out@);
        if !windows_form && i + 1 < n && s[i] == '$' && is_var_start(s[i + 1]) {
            let e = var_run_end_exec(s.as_slice(), i + 1);
            assert(unix_var_at(s@, i as int));
            out.push(string_from_chars(slice_range(s.as_slice(), i + 1, e).as_slice()));
            assert(crate::parser::builders::comment::views(out@) =~= before.push(
                s@.subrange(i + 1, e as int),
            ));
            assert(before.push(s@.subrange(i + 1, e as int)) + placeholder_names_from(
                s@,
                e as int,
                windows_form,
            ) =~= before + (seq![s@.subrange(i + 1, e as int)] + placeholder_names_from(
                s@,
                e as int,
                windows_form,
            )));
            i = e;
        } else if windows_form && i + 1 < n && s[i] == '%' && is_var_start(s[i + 1]) && {
            let e = var_run_end_exec(s.as_slice(), i + 2);
            e < n && s[e] == '%'
        } {
            let e = var_run_end_exec(s.as_slice(), i + 2);
            assert(win_var_at(s@, i as int));
            out.push(string_from_chars(slice_range(s.as_slice(), i + 1, e).as_slice()));
            assert(crate::parser::builders::comment::views(out@) =~= before.push(
                s@.subrange(i + 1, e as int),
            ));
            assert(before.push(s@.subrange(i + 1, e as int)) + placeholder_names_from(
                s@,
                e + 1,
                windows_form,
            ) =~= before + (seq![s@.subrange(i + 1, e as int)] + placeholder_names_from(
                s@,
                e + 1,
                windows_form,
            )));
            i = e + 1;
        } else {
            proof {
                if windows_form && win_var_at(s@, i as int) {
                    assert(var_run_end(s@, i + 2) == var_run_end(s@, i + 2));
                }
            }
            i = i + 1;
        }
    }
    assert(crate::parser::builders::comment::views(out@) + placeholder_names_from(
        s@,
        i as int,
        windows_form,
    ) =~= crate::parser::builders::comment::views(out@));
    out
}

/// `s` with every occurrence of `from` replaced by `to`, as `str::replace`.
fn replace_all_exec(s: &[char], from: &[char], to: &[char]) -> (r: String)
    ensures
        r@ == replace_all(s@, from@, to@),
{
    let n = s.len();
    let f = from.len();
    let mut out = String::new();
    if f == 0 {
        push_chars(&mut out, s);
        assert(out@ =~= s@);
        return out;
    }
    let mut i: usize = 0;
    assert(s@.skip(0) =~= s@);
    assert(out@ + replace_all(s@, from@, to@) =~= replace_all(s@, from@, to@));
    while i < n
        invariant
            i <= n,
            n == s@.len(),
            f == from@.len(),
            f > 0,
            out@ + replace_all(s@.skip(i as int), from@, to@) == replace_all(s@, from@, to@),
        decreases n - i,
    {
        let ghost t = s@.skip(i as int);
        let ghost before = out@;
        if f <= n - i && crate::text::occurs_at_chars(s, from, i) {
            assert(t.take(f as int) =~= s@.subrange(i as int, i + f));
            assert(t.skip(f as int) =~= s@.skip(i + f));
            push_chars(&mut out, to);
            assert(out@ + replace_all(s@.skip(i + f), from@, to@) =~= before + (to@ + replace_all(
                t.skip(f as int),
                from@,
                to@,
            )));
            i = i + f;
        } else {
            proof {
                assert(t.skip(1) =~= s@.skip(i + 1));
                if t.len() >= f {
                    assert(t.take(f as int) =~= s@.subrange(i as int, i + f));
                    assert(replace_all(t, from@, to@) == seq![t[0]] + replace_all(t.skip(1), from@, to@));
                } else {
                    assert(replace_all(t, from@, to@) == t);
                    assert(replace_all(t.skip(1), from@, to@) == t.skip(1));
                    assert(t =~= seq![t[0]] + t.skip(1));
                }
            }
            string_push(&mut out, s[i]);
            assert(out@ + replace_all(s@.skip(i + 1), from@, to@) =~= before + (seq![t[0]]
                + replace_all(t.skip(1), from@, to@)));
            i = i + 1;
        }
    }
    assert(s@.skip(n as int) =~= Seq::<char>::empty());
    assert(out@ + replace_all(s@.skip(n as int), from@, to@) =~= out@);
    out
}

/// The value given for `name`, if any: that of its first pair.
fn lookup_exec(values: &Vec<(String, String)>, name: &[char]) -> (r: Option<Vec<char>>)
    ensures
        match lookup(pairs_view(values@), name@) {
            Some(v) => r matches Some(x) && x@ == v,
            None => r.is_none(),
        },
{
    let ghost pv = pairs_view(values@);
    let mut i: usize = 0;
    assert(pv.skip(0) =~= pv);
    while i < values.len()
        invariant
            i <= values@.len(),
            pv == pairs_view(values@),
            lookup(pv.skip(i as int), name@) == lookup(pv, name@),
        decreases values@.len() - i,
    {
        let ghost t = pv.skip(i as int);
        assert(t[0] == (values@[i as int].0@, values@[i as int].1@));
        assert(t.skip(1) =~= pv.skip(i + 1));
        let k = str_chars(values[i].0.as_str());
        if crate::model::entry::chars_eq(k.as_slice(), name) {
            return Some(str_chars(values[i].1.as_str()));
        }
        i = i + 1;
    }
    None
}

/// A path with its `$NAME` placeholders (or, with `windows_form`, its
/// `%NAME%` placeholders) replaced: for each placeholder name in order of
/// appearance that has a value, every occurrence of its placeholder in the
/// text so far is replaced by the value (the first pair for a name gives
/// it). Names without a value stay as they are.
pub fn replace_vars(path: &str, values: &Vec<(String, String)>, windows_form: bool) -> (r: String)
    ensures
        r@ == replaced(path@, pairs_view(values@), windows_form),
{
    let names = var_names(path, windows_form);
    let ghost nv = crate::parser::builders::comment::views(names@);
    let mut result = str_chars(path);
    let mut k: usize = 0;
    while k < names.len()
        invariant
            k <= names@.len(),
            nv == crate::parser::builders::comment::views(names@),
            nv == placeholder_names(path@, windows_form),
            result@ == substitute(path@, nv.take(k as int), pairs_view(values@), windows_form),
        decreases names@.len() - k,
    {
        let name = str_chars(names[k].as_str());
        assert(nv.take(k + 1).drop_last() =~= nv.take(k as int));
        assert(nv.take(k + 1).last() == name@);
        match lookup_exec(values, name.as_slice()) {
            Some(v) => {
                let mut ph: Vec<char> = Vec::new();
                if windows_form {
                    ph.push('%');
                    let mut j: usize = 0;
                    while j < name.len()
                        invariant
                            j <= name@.len(),
                            ph@ == seq!['%'] + name@.take(j as int),
                        decreases name@.len() - j,
                    {
                        ph.push(name[j]);
                        assert(seq!['%'] + name@.take(j + 1) =~= (seq!['%'] + name@.take(j as int)).push(name@[j as int]));
                        j = j + 1;
                    }
                    ph.push('%');
                    assert(name@.take(name@.len() as int) =~= name@);
                    assert(ph@ =~= placeholder(name@, true));
                } else {
                    ph.push('$');
                    let mut j: usize = 0;
                    while j < name.len()
                        invariant
                            j <= name@.len(),
                            ph@ == seq!['$'] + name@.take(j as int),
                        decreases name@.len() - j,
                    {
                        ph.push(name[j]);
                        assert(seq!['$'] + name@.take(j + 1) =~= (seq!['$'] + name@.take(j as int)).push(name@[j as int]));
                        j = j + 1;
                    }
                    assert(name@.take(name@.len() as int) =~= name@);
                    assert(ph@ =~= placeholder(name@, false));
                }
                let replaced_text = replace_all_exec(result.as_slice(), ph.as_slice(), v.as_slice());
                result = str_chars(replaced_text.as_str());
            },
            None => {},
        }
        k = k + 1;
    }
    assert(nv.take(nv.len() as int) =~= nv);
    string_from_chars(result.as_slice())
}

/// Whether a path still holds an unresolved `$VAR` or `%VAR%` placeholder.
pub fn has_unresolved_vars(path: &str) -> (r: bool)
    ensures
        r == has_vars(path@),
{
    let s = str_chars(path);
    let n = s.len();
    let mut i: usize = 0;
    while i < n
        invariant
            i <= n,
            n == s@.len(),
            s@ == path@,
            forall|k: int| 0 <= k < i ==> !#[trigger] var_at(s@, k),
        decreases n - i,
    {
        if i + 1 < n && is_var_start(s[i + 1]) {
            if s[i] == '$' {
                assert(var_at(path@, i as int));
                return true;
            }
            if s[i] == '%' {
                let e = var_run_end_exec(s.as_slice(), i + 2);
                if e < n && s[e] == '%' {
                    assert(var_run_end(s@, i + 2) == e);
                    assert(s@[e as int] == '%');
                    assert(var_at(path@, i as int));
                    return true;
                }
                assert(!win_var_at(s@, i as int));
            }
        }
        assert(!var_at(s@, i as int));
        i = i + 1;
    }
    false
}

/// A path under the home directory written with `~`.
pub open spec fn collapse_home(expanded: Seq<char>, home: Option<Seq<char>>) -> Seq<char> {
    match home {
        Some(h) => if starts_with(expanded, h) {
            seq!['~'] + expanded.skip(h.len() as int)
        } else {
            expanded
        },
        None => expanded,
    }
}

/// Writes a path under the home directory `home` with `~`.
pub fn tilde_collapse_with(expanded: &str, home: Option<&str>) -> (r: String)
    ensures
        r@ == collapse_home(
            expanded@,
            match home {
                Some(h) => Some(h@),
                None => None,
            },
        ),
{
    let e = str_chars(expanded);
    match home {
        Some(h) => {
            let hv = str_chars(h);
            if starts_with_chars(e.as_slice(), hv.as_slice()) {
                let mut r = String::new();
                string_push(&mut r, '~');
                let rest = slice_range(e.as_slice(), hv.len(), e.len());
                push_chars(&mut r, rest.as_slice());
                assert(r@ =~= seq!['~'] + e@.skip(hv@.len() as int));
                r
            } else {
                string_from_str(expanded)
            }
        },
        None => string_from_str(expanded),
    }
}

/// A leading `~` expanded to the home directory `home`.
pub open spec fn expand_home(path: Seq<char>, home: Option<Seq<char>>) -> Seq<char> {
    match home {
        Some(h) => if starts_with(path, "~/"@) || path == "~"@ {
            h + path.skip(1)
        } else {
            path
        },
        None => path,
    }
}

/// Expands a leading `~` (as `~` or `~/...`) to the home directory `home`.
pub fn expand_tilde_with(path: &str, home: Option<&str>) -> (r: String)
    ensures
        r@ == expand_home(
            path@,
            match home {
                Some(h) => Some(h@),
                None => None,
            },
        ),
{
    let p = str_chars(path);
    match home {
        Some(h) => {
            let tilde = crate::text::starts_with_str(p.as_slice(), "~/") || crate::text::eq_str(
                p.as_slice(),
                "~",
            );
            if tilde {
                proof {
                    reveal_strlit("~/");
                    reveal_strlit("~");
                }
                let mut r = string_from_str(h);
                let rest = slice_range(p.as_slice(), 1, p.len());
                push_chars(&mut r, rest.as_slice());
                assert(rest@ =~= p@.skip(1));
                r
            } else {
                string_from_str(path)
            }
        },
        None => string_from_str(path),
    }
}

/// Collapsing the home directory undoes its expansion: a path written with
/// a leading `~` (as `~` or `~/...`), expanded with a home directory and
/// collapsed with the same one, is the path written at first.
pub proof fn law_collapse_undoes_expand(path: Seq<char>, home: Seq<char>)
    requires
        starts_with(path, "~/"@) || path == "~"@,
    ensures
        collapse_home(expand_home(path, Some(home)), Some(home)) == path,
{
    reveal_strlit("~/");
    reveal_strlit("~");
    let e = home + path.skip(1);
    assert(e.subrange(0, home.len() as int) =~= home);
    assert(e.skip(home.len() as int) =~= path.skip(1));
    if starts_with(path, "~/"@) {
        assert(path.subrange(0, 2)[0] == path[0]);
    }
    assert(path[0] == '~');
    assert(seq!['~'] + path.skip(1) =~= path);
}

/// Expanding `~` undoes collapsing the home directory, for a path under the
/// home directory whose rest is empty or starts with `/`.
pub proof fn law_expand_undoes_collapse(path: Seq<char>, home: Seq<char>)
    requires
        starts_with(path, home),
        path.len() == home.len() || path[home.len() as int] == '/',
    ensures
        expand_home(collapse_home(path, Some(home)), Some(home)) == path,
{
    reveal_strlit("~/");
    reveal_strlit("~");
    let c = seq!['~'] + path.skip(home.len() as int);
    assert(c.skip(1) =~= path.skip(home.len() as int));
    if path.len() == home.len() {
        assert(c =~= "~"@);
    } else {
        assert(c.subrange(0, 2) =~= "~/"@);
    }
    assert(home + path.skip(home.len() as int) =~= path);
}

/// The label of a configured path: the collapsed path, followed by the
/// pattern in parentheses when the pattern holds a variable.
pub open spec fn display_label(original: Seq<char>, expanded: Seq<char>, home: Option<Seq<char>>) -> Seq<char> {
    if has_vars(original) {
        collapse_home(expanded, home) + " ("@ + original + ")"@
    } else {
        collapse_home(expanded, home)
    }
}

/// The label of a configured path (see `display_label`).
pub fn build_display_with(original: &str, expanded: &str, home: Option<&str>) -> (r: String)
    ensures
        r@ == display_label(
            original@,
            expanded@,
            match home {
                Some(h) => Some(h@),
                None => None,
            },
        ),
{
    let mut r = tilde_collapse_with(expanded, home);
    if has_unresolved_vars(original) {
        push_str(&mut r, " (");
        push_str(&mut r, original);
        push_str(&mut r, ")");
    }
    r
}

/// The label of a file found through a pattern: the collapsed path, and,
/// when the pattern holds a variable, the pattern's directory part (before
/// its last `/`) joined with the file's name, in parentheses.
pub open spec fn group_file_label(
    path: Seq<char>,
    original: Seq<char>,
    home: Option<Seq<char>>,
    basename: Seq<char>,
) -> Seq<char> {
    let tilde = collapse_home(path, home);
    if !has_vars(original) {
        tilde
    } else {
        let prefix = match rfind_char(original, '/') {
            Some(i) => original.take(i),
            None => original,
        };
        let var_form = if prefix.len() > 0 && prefix.last() == '/' {
            prefix + basename
        } else {
            prefix + "/"@ + basename
        };
        tilde + " ("@ + var_form + ")"@
    }
}

/// The label of a file found through a pattern (see `group_file_label`),
/// for a given home directory and file name.
pub fn file_display_in_group_with(
    path: &str,
    original: &str,
    home: Option<&str>,
    basename: &str,
) -> (r: String)
    ensures
        r@ == group_file_label(
            path@,
            original@,
            match home {
                Some(h) => Some(h@),
                None => None,
            },
            basename@,
        ),
{
    let tilde = tilde_collapse_with(path, home);
    if !has_unresolved_vars(original) {
        return tilde;
    }
    let o = str_chars(original);
    let prefix = match rfind_char_exec(o.as_slice(), '/') {
        Some(i) => slice_range(o.as_slice(), 0, i),
        None => slice_range(o.as_slice(), 0, o.len()),
    };
    proof {
        assert(o@.subrange(0, o@.len() as int) =~= o@);
    }
    let mut var_form = string_from_chars(prefix.as_slice());
    if !(prefix.len() > 0 && prefix[prefix.len() - 1] == '/') {
        push_str(&mut var_form, "/");
    }
    push_str(&mut var_form, basename);
    let mut r = tilde;
    push_str(&mut r, " (");
    push_str(&mut r, var_form.as_str());
    push_str(&mut r, ")");
    r
}

/// `dirs::home_dir`, as text (`Path::to_string_lossy`). The directory comes
/// from the environment (`$HOME`) or the user database, so nothing is stated
/// of it here.
#[verifier::external_body]
pub(crate) fn home_dir_text() -> Option<String> {
    match dirs::home_dir() {
        Some(h) => Some(h.to_string_lossy().to_string()),
        None => None,
    }
}

/// `dirs::config_dir`, as text (`Path::to_string_lossy`): the user's
/// configuration directory, which the platform and the environment
/// (`$XDG_CONFIG_HOME`, `$HOME`) decide; nothing is stated of it here.
#[verifier::external_body]
pub(crate) fn config_dir_text() -> Option<String> {
    match dirs::config_dir() {
        Some(d) => Some(d.to_string_lossy().to_string()),
        None => None,
    }
}

/// `dirs::document_dir`, as text (`Path::to_string_lossy`): the user's
/// documents directory, which the platform and the environment decide;
/// nothing is stated of it here.
#[verifier::external_body]
pub(crate) fn document_dir_text() -> Option<String> {
    match dirs::document_dir() {
        Some(d) => Some(d.to_string_lossy().to_string()),
        None => None,
    }
}

/// The view of an optional string.
pub open spec fn opt_text(o: Option<String>) -> Option<Seq<char>> {
    match o {
        Some(s) => Some(s@),
        None => None,
    }
}

/// Expands a leading `~` (as `~` or `~/...`) to the user's home directory,
/// when it is known; other paths come back unchanged.
pub fn expand_tilde(path: &str) -> (r: String)
    ensures
        exists|home: Option<Seq<char>>| r@ == expand_home(path@, home),
        !(starts_with(path@, "~/"@) || path@ == "~"@) ==> r@ == path@,
{
    let home = home_dir_text();
    let r = match &home {
        Some(h) => expand_tilde_with(path, Some(h.as_str())),
        None => expand_tilde_with(path, None),
    };
    assert(r@ == expand_home(path@, opt_text(home)));
    r
}

/// Writes a path under the user's home directory with `~`, when the home
/// directory is known.
pub fn tilde_collapse(expanded: &str) -> (r: String)
    ensures
        exists|home: Option<Seq<char>>| r@ == collapse_home(expanded@, home),
{
    let home = home_dir_text();
    let r = match &home {
        Some(h) => tilde_collapse_with(expanded, Some(h.as_str())),
        None => tilde_collapse_with(expanded, None),
    };
    assert(r@ == collapse_home(expanded@, opt_text(home)));
    r
}

/// The label of a configured path under the user's home directory (see
/// `display_label`).
pub fn build_display(original: &str, expanded: &str) -> (r: String)
    ensures
        exists|home: Option<Seq<char>>| r@ == display_label(original@, expanded@, home),
{
    let home = home_dir_text();
    let r = match &home {
        Some(h) => build_display_with(original, expanded, Some(h.as_str())),
        None => build_display_with(original, expanded, None),
    };
    assert(r@ == display_label(original@, expanded@, opt_text(home)));
    r
}

/// The label of a file found through the pattern `original` (see
/// `group_file_label`), with the path's text, the user's home directory and
/// the path's file name as the platform gives them.
pub fn derive_file_display_in_group(path: &PathBuf, original: &str) -> (r: String)
    ensures
        exists|text: Seq<char>, home: Option<Seq<char>>, name: Seq<char>|
            r@ == group_file_label(text, original@, home, name),
{
    let text = path_text(path);
    let home = home_dir_text();
    let name = match path_file_name_text(path) {
        Some(n) => n,
        None => String::new(),
    };
    let r = match &home {
        Some(h) => file_display_in_group_with(text.as_str(), original, Some(h.as_str()), name.as_str()),
        None => file_display_in_group_with(text.as_str(), original, None, name.as_str()),
    };
    assert(r@ == group_file_label(text@, original@, opt_text(home), name@));
    r
}

/// What an expanded pattern asks of the file system.
#[derive(Debug, Clone, Copy, PartialEq, Eq, Structural)]
pub enum PatternKind {
    /// Nothing but white space is left: the pattern is skipped.
    Empty,
    /// A `$VAR` or `%VAR%` is left unexpanded: the pattern is skipped.
    Unresolved,
    /// A `*` or `?` makes it a glob, whose matches form a group.
    Glob,
    /// A plain path: a group when it names a directory, else a file.
    Path,
}

/// The kind of an expanded pattern, the tests taken in this order.
pub open spec fn pattern_kind(expanded: Seq<char>) -> PatternKind {
    if crate::text::trim(expanded).len() == 0 {
        PatternKind::Empty
    } else if has_vars(expanded) {
        PatternKind::Unresolved
    } else if expanded.contains('*') || expanded.contains('?') {
        PatternKind::Glob
    } else {
        PatternKind::Path
    }
}

/// The kind of an expanded pattern (see `pattern_kind`).
pub fn classify_expanded(expanded: &str) -> (r: PatternKind)
    ensures
        r == pattern_kind(expanded@),
{
    let e = str_chars(expanded);
    let t = crate::text::trim_chars(e.as_slice());
    if t.len() == 0 {
        PatternKind::Empty
    } else if has_unresolved_vars(expanded) {
        PatternKind::Unresolved
    } else if crate::text::has_char(e.as_slice(), '*') || crate::text::has_char(e.as_slice(), '?') {
        PatternKind::Glob
    } else {
        PatternKind::Path
    }
}

/// A configured pattern resolved to files; the pattern string is kept for
/// labels and for removal.
pub enum ResolvedPattern {
    File { original: String, display: String, path: PathBuf, exists: bool },
    Dir {
        original: String,
        display: String,
        /// Alphabetised, text files only.
        files: Vec<(PathBuf, bool)>,
    },
}

impl ResolvedPattern {
    /// The pattern's label (its `Display` text).
    pub fn label(&self) -> (r: String)
        ensures
            r@ == match self {
                ResolvedPattern::File { display, .. } => display@,
                ResolvedPattern::Dir { display, .. } => display@,
            },
    {
        match self {
            ResolvedPattern::File { display, .. } => string_from_str(display.as_str()),
            ResolvedPattern::Dir { display, .. } => string_from_str(display.as_str()),
        }
    }
}

/// The files of resolved patterns.
pub open spec fn resolved_files(r: Seq<ResolvedPattern>) -> Seq<(PathBuf, bool)>
    decreases r.len(),
{
    if r.len() == 0 {
        Seq::empty()
    } else {
        resolved_files(r.drop_last()) + match r.last() {
            ResolvedPattern::File { path, exists, .. } => seq![(path, exists)],
            ResolvedPattern::Dir { files, .. } => files@,
        }
    }
}

/// The files of resolved patterns, in order, with whether each exists.
pub fn flatten_resolved(resolved: Vec<ResolvedPattern>) -> (r: Vec<(PathBuf, bool)>)
    ensures
        r@ == resolved_files(resolved@),
{
    let ghost all = resolved@;
    let mut rest = resolved;
    let mut rev: Vec<ResolvedPattern> = Vec::new();
    while rest.len() > 0
        invariant
            all == rest@ + rev@.reverse(),
        decreases rest@.len(),
    {
        let ghost rest_before = rest@;
        let p = rest.pop().unwrap();
        let ghost before = rev@;
        rev.push(p);
        assert(rev@.reverse() =~= seq![p] + before.reverse());
        assert(rest_before =~= rest@.push(p));
        assert(all =~= rest@ + rev@.reverse());
    }
    assert(all =~= rev@.reverse());
    let mut out: Vec<(PathBuf, bool)> = Vec::new();
    let ghost done: Seq<ResolvedPattern> = Seq::empty();
    while rev.len() > 0
        invariant
            all == done + rev@.reverse(),
            out@ == resolved_files(done),
        decreases rev@.len(),
    {
        let ghost rev_before = rev@;
        let p = rev.pop().unwrap();
        proof {
            assert(rev_before =~= rev@.push(p));
            assert(rev_before.reverse() =~= seq![p] + rev@.reverse());
            let d2 = done.push(p);
            assert(d2.drop_last() =~= done);
            assert(all =~= d2 + rev@.reverse());
            done = d2;
        }
        match p {
            ResolvedPattern::File { path, exists, .. } => {
                out.push((path, exists));
            },
            ResolvedPattern::Dir { mut files, .. } => {
                out.append(&mut files);
            },
        }
    }
    assert(done =~= all);
    out
}

} // verus!
