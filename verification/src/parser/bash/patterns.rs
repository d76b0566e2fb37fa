//! The line grammars of Bash configuration files.
//!
//! Each grammar is the language of one regular expression (named in its doc
//! comment); the spec functions give where its capture groups lie.
use vstd::prelude::*;

use crate::parser::scan::{
    char_at_is, char_at_is_exec, comment_tail_ok, comment_tail_ok_exec, lemma_run_end_bounds,
    lit_at, lit_at_exec, newline_from, newline_from_exec, run_end, scan_run, CharClass,
};
use crate::text::{is_ws, rfind_char, rfind_char_exec, starts_with, str_chars, string_from_chars};

verus! {

/// Options and name of an alias after position `i`:
/// `(?:\s+-[a-zA-Z0-9]+)*\s+([^\s=]+)=`; gives the name's range and the `=`.
pub open spec fn alias_head_from(s: Seq<char>, i: int) -> Option<(int, int)>
    decreases s.len() - i,
{
    if i < 0 || i >= s.len() {
        None
    } else {
        let w = run_end(s, i, CharClass::Space);
        proof {
            lemma_run_end_bounds(s, i, CharClass::Space);
        }
        if w == i {
            None
        } else if w < s.len() && s[w] == '-' && run_end(s, w + 1, CharClass::AsciiAlnum) > w + 1
            && run_end(s, w + 1, CharClass::AsciiAlnum) < s.len() && is_ws(
            s[run_end(s, w + 1, CharClass::AsciiAlnum)],
        ) {
            alias_head_from(s, run_end(s, w + 1, CharClass::AsciiAlnum))
        } else {
            let e = run_end(s, w, CharClass::NameChar);
            if e > w && e < s.len() && s[e] == '=' {
                Some((w, e))
            } else {
                None
            }
        }
    }
}

/// `^alias(?:\s+-[a-zA-Z0-9]+)*\s+([^\s=]+)=`
pub open spec fn alias_head(s: Seq<char>) -> Option<(int, int)> {
    if starts_with(s, "alias"@) {
        alias_head_from(s, 5)
    } else {
        None
    }
}

/// `ALIAS_SINGLE_RE`: `^alias(?:\s+-[a-zA-Z0-9]+)*\s+([^\s=]+)='([^']*)'(?:\s*(?:#.*)?)?$`;
/// gives the ranges of the name and of the value.
pub open spec fn alias_single(s: Seq<char>) -> Option<(int, int, int, int)> {
    alias_quoted(s, '\'')
}

/// `ALIAS_DOUBLE_RE`: `^alias(?:\s+-[a-zA-Z0-9]+)*\s+([^\s=]+)="([^"]*)"(?:\s*(?:#.*)?)?$`.
pub open spec fn alias_double(s: Seq<char>) -> Option<(int, int, int, int)> {
    alias_quoted(s, '"')
}

pub open spec fn alias_quoted(s: Seq<char>, q: char) -> Option<(int, int, int, int)> {
    match alias_head(s) {
        Some((t, e)) => if char_at_is(s, e + 1, q) {
            let c = run_end(s, e + 2, CharClass::Not(q));
            if c < s.len() && comment_tail_ok(s, c + 1) {
                Some((t, e, e + 2, c))
            } else {
                None
            }
        } else {
            None
        },
        None => None,
    }
}

/// `ALIAS_NOQUOTE_RE`: `^alias(?:\s+-[a-zA-Z0-9]+)*\s+([^\s=]+)=(\S+)(?:\s*(?:#.*)?)?$`.
/// The value is the longest run of non-space characters after which the
/// tail matches; a shorter one can end only before a `#`.
pub open spec fn alias_noquote(s: Seq<char>) -> Option<(int, int, int, int)> {
    match alias_head(s) {
        Some((t, e)) => {
            let v = run_end(s, e + 1, CharClass::NotSpace);
            if v <= e + 1 {
                None
            } else if comment_tail_ok(s, v) {
                Some((t, e, e + 1, v))
            } else if !newline_from(s, v) && e + 2 <= v {
                match rfind_char(s.subrange(e + 2, v), '#') {
                    Some(k) => Some((t, e, e + 1, e + 2 + k)),
                    None => None,
                }
            } else {
                None
            }
        },
        None => None,
    }
}

/// `ALIAS_MULTILINE_START_RE`: `^alias(?:\s+-[a-zA-Z0-9]+)*\s+([^\s=]+)='`.
pub open spec fn alias_multiline_start(s: Seq<char>) -> Option<(int, int)> {
    match alias_head(s) {
        Some((t, e)) => if char_at_is(s, e + 1, '\'') {
            Some((t, e))
        } else {
            None
        },
        None => None,
    }
}

/// `^export\s+(\w+)=`; gives the name's range.
pub open spec fn export_head(s: Seq<char>) -> Option<(int, int)> {
    if starts_with(s, "export"@) {
        let w = run_end(s, 6, CharClass::Space);
        let n = run_end(s, w, CharClass::Word);
        if w > 6 && n > w && char_at_is(s, n, '=') {
            Some((w, n))
        } else {
            None
        }
    } else {
        None
    }
}

/// `EXPORT_RE`: `^export\s+(\w+)=(.*)$`; gives the name's range and the value's start.
pub open spec fn export_re(s: Seq<char>) -> Option<(int, int, int)> {
    match export_head(s) {
        Some((w, n)) => if !newline_from(s, n + 1) {
            Some((w, n, n + 1))
        } else {
            None
        },
        None => None,
    }
}

/// `EXPORT_MULTILINE_START_RE`: `^export\s+(\w+)='`.
pub open spec fn export_multiline_start(s: Seq<char>) -> Option<(int, int)> {
    match export_head(s) {
        Some((w, n)) => if char_at_is(s, n + 1, '\'') {
            Some((w, n))
        } else {
            None
        },
        None => None,
    }
}

/// `SOURCE_RE`: `^(?:source|\.)\s+(.+)$`; gives the start of the path (which
/// runs to the end). The whitespace run gives back one character when
/// nothing follows it.
pub open spec fn source_re(s: Seq<char>) -> Option<int> {
    let kw: int = if starts_with(s, "source"@) {
        6
    } else if starts_with(s, "."@) {
        1
    } else {
        0
    };
    if kw == 0 {
        None
    } else {
        let w = run_end(s, kw, CharClass::Space);
        let j = if w < s.len() {
            w
        } else {
            w - 1
        };
        if w > kw && j > kw && j < s.len() && !newline_from(s, j) {
            Some(j)
        } else {
            None
        }
    }
}

/// `\s*\(\s*\)` at position `n`.
pub open spec fn empty_parens_at(s: Seq<char>, n: int) -> bool {
    let p = run_end(s, n, CharClass::Space);
    char_at_is(s, p, '(') && char_at_is(s, run_end(s, p + 1, CharClass::Space), ')')
}

/// `FUNC_START_RE`: `^(?:function\s+)?(\w+)\s*\(\s*\)\s*\{?` (a prefix of the
/// line); gives the name's range.
pub open spec fn func_start(s: Seq<char>) -> Option<(int, int)> {
    let w = run_end(s, 8, CharClass::Space);
    let n = run_end(s, w, CharClass::Word);
    if starts_with(s, "function"@) && w > 8 && n > w && empty_parens_at(s, n) {
        Some((w, n))
    } else {
        let m = run_end(s, 0, CharClass::Word);
        if m > 0 && empty_parens_at(s, m) {
            Some((0, m))
        } else {
            None
        }
    }
}

/// `FUNC_KEYWORD_RE`: `^function\s+(\w+)\s*\{`; gives the name's range.
pub open spec fn func_keyword(s: Seq<char>) -> Option<(int, int)> {
    let w = run_end(s, 8, CharClass::Space);
    let n = run_end(s, w, CharClass::Word);
    if starts_with(s, "function"@) && w > 8 && n > w && char_at_is(
        s,
        run_end(s, n, CharClass::Space),
        '{',
    ) {
        Some((w, n))
    } else {
        None
    }
}

/// `ANON_FUNC_RE`: `^\(\s*\)\s*\{`.
pub open spec fn anon_func(s: Seq<char>) -> bool {
    let q = run_end(s, 1, CharClass::Space);
    char_at_is(s, 0, '(') && char_at_is(s, q, ')') && char_at_is(
        s,
        run_end(s, q + 1, CharClass::Space),
        '{',
    )
}

// ---------------------------------------------------------------------------
// Matchers
// ---------------------------------------------------------------------------

pub fn alias_head_exec(s: &[char]) -> (r: Option<(usize, usize)>)
    ensures
        match r {
            Some((t, e)) => alias_head(s@) == Some((t as int, e as int)) && t < e < s@.len(),
            None => alias_head(s@).is_none(),
        },
{
    if !lit_at_exec(s, 0, "alias") {
        assert(!starts_with(s@, "alias"@)) by {
            if starts_with(s@, "alias"@) {
                assert(lit_at(s@, 0, "alias"@));
            }
        }
        return None;
    }
    assert(starts_with(s@, "alias"@));
    assert(s@.len() >= 5) by {
        reveal_strlit("alias");
    }
    let mut i: usize = 5;
    loop
        invariant
            5 <= i <= s@.len(),
            alias_head(s@) == alias_head_from(s@, i as int),
        decreases s@.len() - i,
    {
        if i >= s.len() {
            return None;
        }
        let w = scan_run(s, i, CharClass::Space);
        if w == i {
            return None;
        }
        if w < s.len() && s[w] == '-' {
            let a = scan_run(s, w + 1, CharClass::AsciiAlnum);
            if a > w + 1 && a < s.len() && crate::text::is_whitespace(s[a]) {
                i = a;
                continue;
            }
        }
        let e = scan_run(s, w, CharClass::NameChar);
        if e > w && e < s.len() && s[e] == '=' {
            return Some((w, e));
        }
        return None;
    }
}

fn alias_quoted_exec(s: &[char], q: char) -> (r: Option<(usize, usize, usize, usize)>)
    ensures
        match r {
            Some((a, b, c, d)) => alias_quoted(s@, q) == Some((a as int, b as int, c as int, d as int))
                && a <= b <= s@.len() && c <= d <= s@.len(),
            None => alias_quoted(s@, q).is_none(),
        },
{
    let _len = s.len();
    match alias_head_exec(s) {
        Some((t, e)) => {
            proof {
                lemma_run_end_bounds(s@, 0, CharClass::Space);
            }
            if e + 1 < s.len() && s[e + 1] == q {
                let c = scan_run(s, e + 2, CharClass::Not(q));
                if c < s.len() && comment_tail_ok_exec(s, c + 1) {
                    return Some((t, e, e + 2, c));
                }
            }
            None
        },
        None => None,
    }
}

/// Captures of `ALIAS_SINGLE_RE`: name and value ranges.
pub fn alias_single_exec(s: &[char]) -> (r: Option<(usize, usize, usize, usize)>)
    ensures
        match r {
            Some((a, b, c, d)) => alias_single(s@) == Some((a as int, b as int, c as int, d as int))
                && a <= b <= s@.len() && c <= d <= s@.len(),
            None => alias_single(s@).is_none(),
        },
{
    alias_quoted_exec(s, '\'')
}

/// Captures of `ALIAS_DOUBLE_RE`: name and value ranges.
pub fn alias_double_exec(s: &[char]) -> (r: Option<(usize, usize, usize, usize)>)
    ensures
        match r {
            Some((a, b, c, d)) => alias_double(s@) == Some((a as int, b as int, c as int, d as int))
                && a <= b <= s@.len() && c <= d <= s@.len(),
            None => alias_double(s@).is_none(),
        },
{
    alias_quoted_exec(s, '"')
}

/// Captures of `ALIAS_NOQUOTE_RE`: name and value ranges.
pub fn alias_noquote_exec(s: &[char]) -> (r: Option<(usize, usize, usize, usize)>)
    ensures
        match r {
            Some((a, b, c, d)) => alias_noquote(s@) == Some(
                (a as int, b as int, c as int, d as int),
            ) && a <= b <= s@.len() && c <= d <= s@.len(),
            None => alias_noquote(s@).is_none(),
        },
{
    let _len = s.len();
    match alias_head_exec(s) {
        Some((t, e)) => {
            let v = scan_run(s, e + 1, CharClass::NotSpace);
            if v <= e + 1 {
                return None;
            }
            if comment_tail_ok_exec(s, v) {
                return Some((t, e, e + 1, v));
            }
            if !newline_from_exec(s, v) && e + 2 <= v {
                let mid = crate::text::slice_range(s, e + 2, v);
                match rfind_char_exec(mid.as_slice(), '#') {
                    Some(k) => {
                        return Some((t, e, e + 1, e + 2 + k));
                    },
                    None => {
                        return None;
                    },
                }
            }
            None
        },
        None => None,
    }
}

/// Capture of `ALIAS_MULTILINE_START_RE`: the name's range.
pub fn alias_multiline_start_exec(s: &[char]) -> (r: Option<(usize, usize)>)
    ensures
        match r {
            Some((a, b)) => alias_multiline_start(s@) == Some((a as int, b as int)) && a <= b
                <= s@.len(),
            None => alias_multiline_start(s@).is_none(),
        },
{
    let _len = s.len();
    match alias_head_exec(s) {
        Some((t, e)) => {
            if char_at_is_exec(s, e + 1, '\'') {
                Some((t, e))
            } else {
                None
            }
        },
        None => None,
    }
}

fn export_head_exec(s: &[char]) -> (r: Option<(usize, usize)>)
    ensures
        match r {
            Some((a, b)) => export_head(s@) == Some((a as int, b as int)) && a <= b < s@.len(),
            None => export_head(s@).is_none(),
        },
{
    if !lit_at_exec(s, 0, "export") {
        assert(!starts_with(s@, "export"@)) by {
            if starts_with(s@, "export"@) {
                assert(lit_at(s@, 0, "export"@));
            }
        }
        return None;
    }
    assert(starts_with(s@, "export"@));
    assert(s@.len() >= 6) by {
        reveal_strlit("export");
    }
    let w = scan_run(s, 6, CharClass::Space);
    let n = scan_run(s, w, CharClass::Word);
    if w > 6 && n > w && char_at_is_exec(s, n, '=') {
        Some((w, n))
    } else {
        None
    }
}

/// Captures of `EXPORT_RE`: the name's range and the value's start.
pub fn export_re_exec(s: &[char]) -> (r: Option<(usize, usize, usize)>)
    ensures
        match r {
            Some((a, b, c)) => export_re(s@) == Some((a as int, b as int, c as int)) && a <= b
                < c <= s@.len(),
            None => export_re(s@).is_none(),
        },
{
    let _len = s.len();
    match export_head_exec(s) {
        Some((w, n)) => {
            if !newline_from_exec(s, n + 1) {
                Some((w, n, n + 1))
            } else {
                None
            }
        },
        None => None,
    }
}

/// Capture of `EXPORT_MULTILINE_START_RE`: the name's range.
pub fn export_multiline_start_exec(s: &[char]) -> (r: Option<(usize, usize)>)
    ensures
        match r {
            Some((a, b)) => export_multiline_start(s@) == Some((a as int, b as int)) && a <= b
                <= s@.len(),
            None => export_multiline_start(s@).is_none(),
        },
{
    let _len = s.len();
    match export_head_exec(s) {
        Some((w, n)) => {
            if char_at_is_exec(s, n + 1, '\'') {
                Some((w, n))
            } else {
                None
            }
        },
        None => None,
    }
}

/// Capture of `SOURCE_RE`: the start of the path.
pub fn source_re_exec(s: &[char]) -> (r: Option<usize>)
    ensures
        match r {
            Some(j) => source_re(s@) == Some(j as int) && j <= s@.len(),
            None => source_re(s@).is_none(),
        },
{
    let kw: usize = if lit_at_exec(s, 0, "source") {
        6
    } else if lit_at_exec(s, 0, ".") {
        1
    } else {
        0
    };
    proof {
        reveal_strlit("source");
        reveal_strlit(".");
        assert(starts_with(s@, "source"@) == lit_at(s@, 0, "source"@));
        assert(starts_with(s@, "."@) == lit_at(s@, 0, "."@));
    }
    if kw == 0 {
        return None;
    }
    let w = scan_run(s, kw, CharClass::Space);
    if w == kw {
        return None;
    }
    let j = if w < s.len() {
        w
    } else {
        w - 1
    };
    if j > kw && j < s.len() && !newline_from_exec(s, j) {
        Some(j)
    } else {
        None
    }
}

fn empty_parens_at_exec(s: &[char], n: usize) -> (r: bool)
    requires
        n <= s@.len(),
    ensures
        r == empty_parens_at(s@, n as int),
{
    let _len = s.len();
    let p = scan_run(s, n, CharClass::Space);
    if !char_at_is_exec(s, p, '(') {
        return false;
    }
    let q = scan_run(s, p + 1, CharClass::Space);
    char_at_is_exec(s, q, ')')
}

/// Capture of `FUNC_START_RE`: the name's range.
pub fn func_start_exec(s: &[char]) -> (r: Option<(usize, usize)>)
    ensures
        match r {
            Some((a, b)) => func_start(s@) == Some((a as int, b as int)) && a <= b <= s@.len(),
            None => func_start(s@).is_none(),
        },
{
    let is_fn = lit_at_exec(s, 0, "function");
    proof {
        reveal_strlit("function");
        assert(starts_with(s@, "function"@) == lit_at(s@, 0, "function"@));
    }
    if is_fn {
        let w = scan_run(s, 8, CharClass::Space);
        let n = scan_run(s, w, CharClass::Word);
        if w > 8 && n > w && empty_parens_at_exec(s, n) {
            return Some((w, n));
        }
    }
    let m = scan_run(s, 0, CharClass::Word);
    if m > 0 && empty_parens_at_exec(s, m) {
        Some((0, m))
    } else {
        None
    }
}

/// Capture of `FUNC_KEYWORD_RE`: the name's range.
pub fn func_keyword_exec(s: &[char]) -> (r: Option<(usize, usize)>)
    ensures
        match r {
            Some((a, b)) => func_keyword(s@) == Some((a as int, b as int)) && a <= b <= s@.len(),
            None => func_keyword(s@).is_none(),
        },
{
    let is_fn = lit_at_exec(s, 0, "function");
    proof {
        reveal_strlit("function");
        assert(starts_with(s@, "function"@) == lit_at(s@, 0, "function"@));
    }
    if !is_fn {
        return None;
    }
    let w = scan_run(s, 8, CharClass::Space);
    let n = scan_run(s, w, CharClass::Word);
    if w > 8 && n > w {
        let p = scan_run(s, n, CharClass::Space);
        if char_at_is_exec(s, p, '{') {
            return Some((w, n));
        }
    }
    None
}

/// Whether the line matches `ANON_FUNC_RE`.
pub fn anon_func_exec(s: &[char]) -> (r: bool)
    ensures
        r == anon_func(s@),
{
    let _len = s.len();
    if !char_at_is_exec(s, 0, '(') {
        return false;
    }
    let q = scan_run(s, 1, CharClass::Space);
    if !char_at_is_exec(s, q, ')') {
        return false;
    }
    let b = scan_run(s, q + 1, CharClass::Space);
    char_at_is_exec(s, b, '{')
}

// ---------------------------------------------------------------------------
// Captures as strings
// ---------------------------------------------------------------------------

/// Name and value captured by `ALIAS_SINGLE_RE`.
pub fn alias_single_captures(line: &str) -> (r: Option<(String, String)>)
    ensures
        match alias_single(line@) {
            Some((a, b, c, d)) => r matches Some((n, v)) && n@ == line@.subrange(a, b) && v@
                == line@.subrange(c, d),
            None => r.is_none(),
        },
{
    let s = str_chars(line);
    match alias_single_exec(s.as_slice()) {
        Some((a, b, c, d)) => Some(
            (
                string_from_chars(crate::text::slice_range(s.as_slice(), a, b).as_slice()),
                string_from_chars(crate::text::slice_range(s.as_slice(), c, d).as_slice()),
            ),
        ),
        None => None,
    }
}

fn piece(s: &[char], a: usize, b: usize) -> (r: String)
    requires
        a <= b <= s@.len(),
    ensures
        r@ == s@.subrange(a as int, b as int),
{
    string_from_chars(crate::text::slice_range(s, a, b).as_slice())
}

/// Name and value captured by `ALIAS_DOUBLE_RE`.
pub fn alias_double_captures(line: &str) -> (r: Option<(String, String)>)
    ensures
        match alias_double(line@) {
            Some((a, b, c, d)) => r matches Some((n, v)) && n@ == line@.subrange(a, b) && v@
                == line@.subrange(c, d),
            None => r.is_none(),
        },
{
    let s = str_chars(line);
    match alias_double_exec(s.as_slice()) {
        Some((a, b, c, d)) => Some((piece(s.as_slice(), a, b), piece(s.as_slice(), c, d))),
        None => None,
    }
}

/// Name and value captured by `ALIAS_NOQUOTE_RE`.
pub fn alias_noquote_captures(line: &str) -> (r: Option<(String, String)>)
    ensures
        match alias_noquote(line@) {
            Some((a, b, c, d)) => r matches Some((n, v)) && n@ == line@.subrange(a, b) && v@
                == line@.subrange(c, d),
            None => r.is_none(),
        },
{
    let s = str_chars(line);
    match alias_noquote_exec(s.as_slice()) {
        Some((a, b, c, d)) => Some((piece(s.as_slice(), a, b), piece(s.as_slice(), c, d))),
        None => None,
    }
}

/// Name captured by `ALIAS_MULTILINE_START_RE`.
pub fn alias_multiline_start_captures(line: &str) -> (r: Option<String>)
    ensures
        match alias_multiline_start(line@) {
            Some((a, b)) => r matches Some(n) && n@ == line@.subrange(a, b),
            None => r.is_none(),
        },
{
    let s = str_chars(line);
    match alias_multiline_start_exec(s.as_slice()) {
        Some((a, b)) => Some(piece(s.as_slice(), a, b)),
        None => None,
    }
}

/// Name and value captured by `EXPORT_RE`.
pub fn export_re_captures(line: &str) -> (r: Option<(String, String)>)
    ensures
        match export_re(line@) {
            Some((a, b, c)) => r matches Some((n, v)) && n@ == line@.subrange(a, b) && v@
                == line@.subrange(c, line@.len() as int),
            None => r.is_none(),
        },
{
    let s = str_chars(line);
    match export_re_exec(s.as_slice()) {
        Some((a, b, c)) => Some((piece(s.as_slice(), a, b), piece(s.as_slice(), c, s.len()))),
        None => None,
    }
}

/// Name captured by `EXPORT_MULTILINE_START_RE`.
pub fn export_multiline_start_captures(line: &str) -> (r: Option<String>)
    ensures
        match export_multiline_start(line@) {
            Some((a, b)) => r matches Some(n) && n@ == line@.subrange(a, b),
            None => r.is_none(),
        },
{
    let s = str_chars(line);
    match export_multiline_start_exec(s.as_slice()) {
        Some((a, b)) => Some(piece(s.as_slice(), a, b)),
        None => None,
    }
}

/// Path captured by `SOURCE_RE`.
pub fn source_re_captures(line: &str) -> (r: Option<String>)
    ensures
        match source_re(line@) {
            Some(j) => r matches Some(p) && p@ == line@.subrange(j, line@.len() as int),
            None => r.is_none(),
        },
{
    let s = str_chars(line);
    match source_re_exec(s.as_slice()) {
        Some(j) => Some(piece(s.as_slice(), j, s.len())),
        None => None,
    }
}

/// Name captured by `FUNC_START_RE`.
pub fn func_start_captures(line: &str) -> (r: Option<String>)
    ensures
        match func_start(line@) {
            Some((a, b)) => r matches Some(n) && n@ == line@.subrange(a, b),
            None => r.is_none(),
        },
{
    let s = str_chars(line);
    match func_start_exec(s.as_slice()) {
        Some((a, b)) => Some(piece(s.as_slice(), a, b)),
        None => None,
    }
}

/// Name captured by `FUNC_KEYWORD_RE`.
pub fn func_keyword_captures(line: &str) -> (r: Option<String>)
    ensures
        match func_keyword(line@) {
            Some((a, b)) => r matches Some(n) && n@ == line@.subrange(a, b),
            None => r.is_none(),
        },
{
    let s = str_chars(line);
    match func_keyword_exec(s.as_slice()) {
        Some((a, b)) => Some(piece(s.as_slice(), a, b)),
        None => None,
    }
}

} // verus!
