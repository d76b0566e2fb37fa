//! The line grammars of PowerShell profiles.
//!
//! Each grammar is the language of one regular expression (named in its doc
//! comment); the spec functions give where its capture groups lie.
use vstd::prelude::*;

use crate::parser::scan::{
    char_at_is, char_at_is_exec, lemma_run_end_bounds, lit_at, lit_at_exec, newline_from,
    newline_from_exec, regex_word, run_end, scan_run, word_char, CharClass,
};
use crate::text::{ends_with, ends_with_chars, slice_range, str_chars, string_from_chars};

verus! {

/// `.+$` matches `s[j..]`: at least one character and no line break.
pub open spec fn dot_end(s: Seq<char>, j: int) -> bool {
    0 <= j < s.len() && !newline_from(s, j)
}

/// `\s+(.+)$` from `a`; gives the start of the captured rest. The
/// whitespace run gives back one character when nothing follows it.
pub open spec fn spaced_rest(s: Seq<char>, a: int) -> Option<int> {
    let w = run_end(s, a, CharClass::Space);
    let m = if w < s.len() {
        w
    } else {
        w - 1
    };
    if w > a && m > a && dot_end(s, m) {
        Some(m)
    } else {
        None
    }
}

/// `Set-Alias` or `New-Alias` at the start.
pub open spec fn alias_keyword(s: Seq<char>) -> bool {
    lit_at(s, 0, "Set-Alias"@) || lit_at(s, 0, "New-Alias"@)
}

/// `ALIAS_SIMPLE_RE`: `^(?:Set-Alias|New-Alias)\s+(\w+)\s+(\w[\w-]*)$`;
/// gives the name's range and the start of the target (which runs to the end).
pub open spec fn alias_simple(s: Seq<char>) -> Option<(int, int, int)> {
    let w1 = run_end(s, 9, CharClass::Space);
    let n = run_end(s, w1, CharClass::Word);
    let w2 = run_end(s, n, CharClass::Space);
    if alias_keyword(s) && w1 > 9 && n > w1 && w2 > n && w2 < s.len() && regex_word(s[w2])
        && run_end(s, w2 + 1, CharClass::WordOrDash) == s.len() {
        Some((w1, n, w2))
    } else {
        None
    }
}

/// Start of the name in `ALIAS_RE`: after an optional `-Name\s+`.
pub open spec fn alias_name_start(s: Seq<char>, w1: int) -> int {
    let q = run_end(s, w1 + 5, CharClass::Space);
    if lit_at(s, w1, "-Name"@) && q > w1 + 5 {
        q
    } else {
        w1
    }
}

/// `ALIAS_RE`: `^(?:Set-Alias|New-Alias)\s+(-Name\s+)?(\w+)\s+(-Value\s+)?(.+)$`;
/// gives the name's range and the start of the value (which runs to the end).
pub open spec fn alias_re(s: Seq<char>) -> Option<(int, int, int)> {
    let w1 = run_end(s, 9, CharClass::Space);
    let p = alias_name_start(s, w1);
    let n = run_end(s, p, CharClass::Word);
    let w = run_end(s, n, CharClass::Space);
    if alias_keyword(s) && w1 > 9 && n > p {
        if w > n && lit_at(s, w, "-Value"@) && spaced_rest(s, w + 6).is_some() {
            Some((p, n, spaced_rest(s, w + 6)->0))
        } else {
            match spaced_rest(s, n) {
                Some(m) => Some((p, n, m)),
                None => None,
            }
        }
    } else {
        None
    }
}

/// `^\$env:(\w+)\s*=`; gives the end of the name and the position of `=`.
pub open spec fn env_head(s: Seq<char>) -> Option<(int, int)> {
    let n = run_end(s, 5, CharClass::Word);
    let w = run_end(s, n, CharClass::Space);
    if lit_at(s, 0, "$env:"@) && n > 5 && char_at_is(s, w, '=') {
        Some((n, w))
    } else {
        None
    }
}

/// `ENV_RE`: `^\$env:(\w+)\s*=\s*(.+)$`; gives the name's end and the value's start.
pub open spec fn env_re(s: Seq<char>) -> Option<(int, int)> {
    match env_head(s) {
        Some((n, w)) => {
            let v = run_end(s, w + 1, CharClass::Space);
            let m = if v < s.len() {
                v
            } else {
                v - 1
            };
            if m >= w + 1 && dot_end(s, m) {
                Some((n, m))
            } else {
                None
            }
        },
        None => None,
    }
}

/// `ENV_HEREDOC_START_RE`: `^\$env:(\w+)\s*=\s*@"$`; gives the name's end.
pub open spec fn env_heredoc_start(s: Seq<char>) -> Option<int> {
    match env_head(s) {
        Some((n, w)) => {
            let v = run_end(s, w + 1, CharClass::Space);
            if lit_at(s, v, "@\""@) && v + 2 == s.len() {
                Some(n)
            } else {
                None
            }
        },
        None => None,
    }
}

/// `SOURCE_RE`: `^\.\s+(.+\.ps1)$`; gives the start of the path (which runs
/// to the end).
pub open spec fn source_re(s: Seq<char>) -> Option<int> {
    let w = run_end(s, 1, CharClass::Space);
    let m = if w <= s.len() - 5 {
        w
    } else {
        s.len() - 5
    };
    if char_at_is(s, 0, '.') && w > 1 && m > 1 && ends_with(s, ".ps1"@) && !newline_from(s, m) {
        Some(m)
    } else {
        None
    }
}

/// `\s*(?:\([^)]*\))?\s*\{` at position `n`.
pub open spec fn params_then_brace(s: Seq<char>, n: int) -> bool {
    let a = run_end(s, n, CharClass::Space);
    let c = run_end(s, a + 1, CharClass::Not(')'));
    ||| char_at_is(s, a, '{')
    ||| char_at_is(s, a, '(') && c < s.len() && char_at_is(
        s,
        run_end(s, c + 1, CharClass::Space),
        '{',
    )
}

/// `FUNC_START_RE`: `^function\s+(\w[\w-]*)\s*(?:\([^)]*\))?\s*\{` (a
/// prefix of the line); gives the name's range.
pub open spec fn func_start(s: Seq<char>) -> Option<(int, int)> {
    let w = run_end(s, 8, CharClass::Space);
    let n = run_end(s, w + 1, CharClass::WordOrDash);
    if lit_at(s, 0, "function"@) && w > 8 && w < s.len() && regex_word(s[w]) && params_then_brace(
        s,
        n,
    ) {
        Some((w, n))
    } else {
        None
    }
}

// ---------------------------------------------------------------------------
// Matchers
// ---------------------------------------------------------------------------

fn spaced_rest_exec(s: &[char], a: usize) -> (r: Option<usize>)
    requires
        a <= s@.len(),
    ensures
        match r {
            Some(m) => spaced_rest(s@, a as int) == Some(m as int) && m < s@.len(),
            None => spaced_rest(s@, a as int).is_none(),
        },
{
    let _len = s.len();
    let w = scan_run(s, a, CharClass::Space);
    if w == a {
        return None;
    }
    let m = if w < s.len() {
        w
    } else {
        w - 1
    };
    if m > a && m < s.len() && !newline_from_exec(s, m) {
        Some(m)
    } else {
        None
    }
}

fn alias_keyword_exec(s: &[char]) -> (r: bool)
    ensures
        r == alias_keyword(s@),
{
    lit_at_exec(s, 0, "Set-Alias") || lit_at_exec(s, 0, "New-Alias")
}

/// Captures of `ALIAS_SIMPLE_RE`: the name's range and the target's start.
pub fn alias_simple_exec(s: &[char]) -> (r: Option<(usize, usize, usize)>)
    ensures
        match r {
            Some((a, b, c)) => alias_simple(s@) == Some((a as int, b as int, c as int)) && a <= b
                <= c <= s@.len(),
            None => alias_simple(s@).is_none(),
        },
{
    let _len = s.len();
    if !alias_keyword_exec(s) {
        return None;
    }
    proof {
        reveal_strlit("Set-Alias");
        reveal_strlit("New-Alias");
    }
    let w1 = scan_run(s, 9, CharClass::Space);
    if w1 == 9 {
        return None;
    }
    let n = scan_run(s, w1, CharClass::Word);
    if n == w1 {
        return None;
    }
    let w2 = scan_run(s, n, CharClass::Space);
    if w2 == n || w2 >= s.len() || !word_char(s[w2]) {
        return None;
    }
    let e = scan_run(s, w2 + 1, CharClass::WordOrDash);
    if e == s.len() {
        Some((w1, n, w2))
    } else {
        None
    }
}

/// Captures of `ALIAS_RE`: the name's range and the value's start.
pub fn alias_re_exec(s: &[char]) -> (r: Option<(usize, usize, usize)>)
    ensures
        match r {
            Some((a, b, c)) => alias_re(s@) == Some((a as int, b as int, c as int)) && a <= b
                <= c <= s@.len(),
            None => alias_re(s@).is_none(),
        },
{
    let _len = s.len();
    if !alias_keyword_exec(s) {
        return None;
    }
    proof {
        reveal_strlit("Set-Alias");
        reveal_strlit("New-Alias");
    }
    let w1 = scan_run(s, 9, CharClass::Space);
    if w1 == 9 {
        return None;
    }
    let has_name_flag = lit_at_exec(s, w1, "-Name");
    proof {
        reveal_strlit("-Name");
    }
    let p = if has_name_flag {
        let q = scan_run(s, w1 + 5, CharClass::Space);
        if q > w1 + 5 {
            q
        } else {
            w1
        }
    } else {
        w1
    };
    let n = scan_run(s, p, CharClass::Word);
    if n == p {
        return None;
    }
    let w = scan_run(s, n, CharClass::Space);
    if w > n && lit_at_exec(s, w, "-Value") {
        proof {
            reveal_strlit("-Value");
        }
        match spaced_rest_exec(s, w + 6) {
            Some(m2) => {
                return Some((p, n, m2));
            },
            None => {},
        }
    }
    proof {
        reveal_strlit("-Value");
    }
    match spaced_rest_exec(s, n) {
        Some(m) => Some((p, n, m)),
        None => None,
    }
}

fn env_head_exec(s: &[char]) -> (r: Option<(usize, usize)>)
    ensures
        match r {
            Some((n, w)) => env_head(s@) == Some((n as int, w as int)) && 5 < n <= w < s@.len(),
            None => env_head(s@).is_none(),
        },
{
    let _len = s.len();
    if !lit_at_exec(s, 0, "$env:") {
        return None;
    }
    proof {
        reveal_strlit("$env:");
    }
    let n = scan_run(s, 5, CharClass::Word);
    let w = scan_run(s, n, CharClass::Space);
    if n > 5 && char_at_is_exec(s, w, '=') {
        Some((n, w))
    } else {
        None
    }
}

/// Captures of `ENV_RE`: the name's end (it starts at 5) and the value's start.
pub fn env_re_exec(s: &[char]) -> (r: Option<(usize, usize)>)
    ensures
        match r {
            Some((n, m)) => env_re(s@) == Some((n as int, m as int)) && 5 < n <= m < s@.len(),
            None => env_re(s@).is_none(),
        },
{
    let _len = s.len();
    match env_head_exec(s) {
        Some((n, w)) => {
            let v = scan_run(s, w + 1, CharClass::Space);
            let m = if v < s.len() {
                v
            } else {
                v - 1
            };
            if m >= w + 1 && m < s.len() && !newline_from_exec(s, m) {
                Some((n, m))
            } else {
                None
            }
        },
        None => None,
    }
}

/// Capture of `ENV_HEREDOC_START_RE`: the name's end (it starts at 5).
pub fn env_heredoc_start_exec(s: &[char]) -> (r: Option<usize>)
    ensures
        match r {
            Some(n) => env_heredoc_start(s@) == Some(n as int) && 5 < n <= s@.len(),
            None => env_heredoc_start(s@).is_none(),
        },
{
    let _len = s.len();
    match env_head_exec(s) {
        Some((n, w)) => {
            let v = scan_run(s, w + 1, CharClass::Space);
            if lit_at_exec(s, v, "@\"") && v < s.len() && s.len() - v == 2 {
                Some(n)
            } else {
                None
            }
        },
        None => None,
    }
}

/// Capture of `SOURCE_RE`: the start of the path.
pub fn source_re_exec(s: &[char]) -> (r: Option<usize>)
    ensures
        match r {
            Some(m) => source_re(s@) == Some(m as int) && m <= s@.len(),
            None => source_re(s@).is_none(),
        },
{
    if !char_at_is_exec(s, 0, '.') {
        return None;
    }
    let w = scan_run(s, 1, CharClass::Space);
    if w == 1 || s.len() < 5 {
        return None;
    }
    let m = if w <= s.len() - 5 {
        w
    } else {
        s.len() - 5
    };
    let ext = str_chars(".ps1");
    if m > 1 && ends_with_chars(s, ext.as_slice()) && !newline_from_exec(s, m) {
        Some(m)
    } else {
        None
    }
}

fn params_then_brace_exec(s: &[char], n: usize) -> (r: bool)
    requires
        n <= s@.len(),
    ensures
        r == params_then_brace(s@, n as int),
{
    let _len = s.len();
    let a = scan_run(s, n, CharClass::Space);
    if char_at_is_exec(s, a, '{') {
        return true;
    }
    if !char_at_is_exec(s, a, '(') {
        return false;
    }
    let c = scan_run(s, a + 1, CharClass::Not(')'));
    if c >= s.len() {
        return false;
    }
    let b = scan_run(s, c + 1, CharClass::Space);
    char_at_is_exec(s, b, '{')
}

/// Capture of `FUNC_START_RE`: the name's range.
pub fn func_start_exec(s: &[char]) -> (r: Option<(usize, usize)>)
    ensures
        match r {
            Some((a, b)) => func_start(s@) == Some((a as int, b as int)) && a <= b <= s@.len(),
            None => func_start(s@).is_none(),
        },
{
    let _len = s.len();
    if !lit_at_exec(s, 0, "function") {
        return None;
    }
    proof {
        reveal_strlit("function");
    }
    let w = scan_run(s, 8, CharClass::Space);
    if w == 8 || w >= s.len() || !word_char(s[w]) {
        return None;
    }
    let n = scan_run(s, w + 1, CharClass::WordOrDash);
    if params_then_brace_exec(s, n) {
        Some((w, n))
    } else {
        None
    }
}

// ---------------------------------------------------------------------------
// Captures as strings
// ---------------------------------------------------------------------------

fn piece(s: &[char], a: usize, b: usize) -> (r: String)
    requires
        a <= b <= s@.len(),
    ensures
        r@ == s@.subrange(a as int, b as int),
{
    string_from_chars(slice_range(s, a, b).as_slice())
}

/// The name and the target captured by `ALIAS_SIMPLE_RE`.
pub fn alias_simple_captures(line: &str) -> (r: Option<(String, String)>)
    ensures
        match alias_simple(line@) {
            Some((a, b, c)) => r matches Some((n, v)) && n@ == line@.subrange(a, b) && v@
                == line@.subrange(c, line@.len() as int),
            None => r.is_none(),
        },
{
    let s = str_chars(line);
    match alias_simple_exec(s.as_slice()) {
        Some((a, b, c)) => Some((piece(s.as_slice(), a, b), piece(s.as_slice(), c, s.len()))),
        None => None,
    }
}

/// The name and the value captured by `ALIAS_RE`.
pub fn alias_re_captures(line: &str) -> (r: Option<(String, String)>)
    ensures
        match alias_re(line@) {
            Some((a, b, c)) => r matches Some((n, v)) && n@ == line@.subrange(a, b) && v@
                == line@.subrange(c, line@.len() as int),
            None => r.is_none(),
        },
{
    let s = str_chars(line);
    match alias_re_exec(s.as_slice()) {
        Some((a, b, c)) => Some((piece(s.as_slice(), a, b), piece(s.as_slice(), c, s.len()))),
        None => None,
    }
}

/// The name and the value captured by `ENV_RE`.
pub fn env_re_captures(line: &str) -> (r: Option<(String, String)>)
    ensures
        match env_re(line@) {
            Some((n, m)) => r matches Some((a, v)) && a@ == line@.subrange(5, n) && v@
                == line@.subrange(m, line@.len() as int),
            None => r.is_none(),
        },
{
    let s = str_chars(line);
    match env_re_exec(s.as_slice()) {
        Some((n, m)) => Some((piece(s.as_slice(), 5, n), piece(s.as_slice(), m, s.len()))),
        None => None,
    }
}

/// The path captured by `SOURCE_RE`.
pub fn source_re_captures(line: &str) -> (r: Option<String>)
    ensures
        match source_re(line@) {
            Some(m) => r matches Some(p) && p@ == line@.subrange(m, line@.len() as int),
            None => r.is_none(),
        },
{
    let s = str_chars(line);
    match source_re_exec(s.as_slice()) {
        Some(m) => Some(piece(s.as_slice(), m, s.len())),
        None => None,
    }
}

/// The function name captured by `FUNC_START_RE`.
pub fn func_start_captures(line: &str) -> (r: Option<String>)
    ensures
        match func_start(line@) {
            Some((a, b)) => r matches Some(n) && n@ == line@.subrange(a, b),
            None => r.is_none(),
        },
{
    let s = str_chars(line);
    match func_start_exec(s.as_slice()) {
        Some((a, b)) => Some(piece(s.as_slice(), a, b)),
        None => None,
    }
}

} // verus!
