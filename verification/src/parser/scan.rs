//! Character classes and runs used by the line grammars of the parsers.
use vstd::prelude::*;

use crate::text::{is_whitespace, is_ws};

verus! {

/// Membership of `c` in the `regex` crate's Unicode word class `\w`
/// (`\p{Alphabetic}`, `\p{M}`, `\d`, `\p{Pc}`, `\p{Join_Control}`).
pub uninterp spec fn regex_word(c: char) -> bool;

/// An ASCII letter, digit or `_`.
pub open spec fn ascii_word(c: char) -> bool {
    ('0' <= c <= '9') || ('a' <= c <= 'z') || ('A' <= c <= 'Z') || c == '_'
}

/// Whether `c` is in the class `\w` of the `regex` crate. Decided by the
/// `regex` crate itself; its Unicode tables are not written out here, only
/// what its documentation gives for ASCII: there `\w` is `[0-9A-Za-z_]`.
#[verifier::external_body]
pub(crate) fn word_char(c: char) -> (r: bool)
    ensures
        r == regex_word(c),
        (c as u32) < 128 ==> (r <==> ascii_word(c)),
{
    let mut buf = [0u8;4];
    let text: &str = c.encode_utf8(&mut buf);
    regex::Regex::new(r"\A\w\z").unwrap().is_match(text)
}

/// The character classes the line grammars use.
#[derive(Debug, Clone, Copy, PartialEq, Eq, Structural)]
pub enum CharClass {
    /// `\s`
    Space,
    /// `\S`
    NotSpace,
    /// `\w`
    Word,
    /// `[\w-]`
    WordOrDash,
    /// `[a-zA-Z0-9]`
    AsciiAlnum,
    /// `[^\s=]`
    NameChar,
    /// any character but the given one
    Not(char),
}

pub open spec fn is_ascii_alnum(c: char) -> bool {
    ('a' <= c && c <= 'z') || ('A' <= c && c <= 'Z') || ('0' <= c && c <= '9')
}

pub open spec fn in_class(c: char, k: CharClass) -> bool {
    match k {
        CharClass::Space => is_ws(c),
        CharClass::NotSpace => !is_ws(c),
        CharClass::Word => regex_word(c),
        CharClass::WordOrDash => regex_word(c) || c == '-',
        CharClass::AsciiAlnum => is_ascii_alnum(c),
        CharClass::NameChar => !is_ws(c) && c != '=',
        CharClass::Not(x) => c != x,
    }
}

pub fn char_in_class(c: char, k: CharClass) -> (r: bool)
    ensures
        r == in_class(c, k),
{
    match k {
        CharClass::Space => is_whitespace(c),
        CharClass::NotSpace => !is_whitespace(c),
        CharClass::Word => word_char(c),
        CharClass::WordOrDash => c == '-' || word_char(c),
        CharClass::AsciiAlnum => ('a' <= c && c <= 'z') || ('A' <= c && c <= 'Z') || ('0' <= c
            && c <= '9'),
        CharClass::NameChar => !is_whitespace(c) && c != '=',
        CharClass::Not(x) => c != x,
    }
}

/// End of the longest run of characters of class `k` starting at `i`.
pub open spec fn run_end(s: Seq<char>, i: int, k: CharClass) -> int
    decreases s.len() - i,
{
    if 0 <= i < s.len() && in_class(s[i], k) {
        run_end(s, i + 1, k)
    } else {
        i
    }
}

pub proof fn lemma_run_end_bounds(s: Seq<char>, i: int, k: CharClass)
    requires
        0 <= i <= s.len(),
    ensures
        i <= run_end(s, i, k) <= s.len(),
        forall|j: int| i <= j < run_end(s, i, k) ==> in_class(#[trigger] s[j], k),
        run_end(s, i, k) < s.len() ==> !in_class(s[run_end(s, i, k)], k),
    decreases s.len() - i,
{
    if i < s.len() && in_class(s[i], k) {
        lemma_run_end_bounds(s, i + 1, k);
    }
}

/// Scans the run of class `k` starting at `i`.
pub fn scan_run(s: &[char], i: usize, k: CharClass) -> (r: usize)
    requires
        i <= s@.len(),
    ensures
        r == run_end(s@, i as int, k),
        i <= r <= s@.len(),
{
    let mut j = i;
    while j < s.len() && char_in_class(s[j], k)
        invariant
            i <= j <= s@.len(),
            run_end(s@, i as int, k) == run_end(s@, j as int, k),
        decreases s@.len() - j,
    {
        j = j + 1;
    }
    j
}

/// `s[i] == c`, false when `i` is out of range.
pub open spec fn char_at_is(s: Seq<char>, i: int, c: char) -> bool {
    0 <= i < s.len() && s[i] == c
}

pub fn char_at_is_exec(s: &[char], i: usize, c: char) -> (r: bool)
    ensures
        r == char_at_is(s@, i as int, c),
{
    i < s.len() && s[i] == c
}

/// Whether `'\n'` occurs at or after position `i`.
pub open spec fn newline_from(s: Seq<char>, i: int) -> bool {
    exists|j: int| i <= j < s.len() && s[j] == '\n'
}

pub fn newline_from_exec(s: &[char], i: usize) -> (r: bool)
    ensures
        r == newline_from(s@, i as int),
{
    let mut j = i;
    while j < s.len()
        invariant
            i <= j,
            forall|k: int| i <= k < j && k < s@.len() ==> s@[k] != '\n',
        decreases s@.len() - j,
    {
        if s[j] == '\n' {
            return true;
        }
        j = j + 1;
    }
    false
}

/// The regex tail `(?:\s*(?:#.*)?)?$` matches `s[i..]`: only whitespace,
/// optionally followed by a `#` comment without a line break.
pub open spec fn comment_tail_ok(s: Seq<char>, i: int) -> bool {
    let u = run_end(s, i, CharClass::Space);
    u == s.len() || (s[u] == '#' && !newline_from(s, u))
}

pub fn comment_tail_ok_exec(s: &[char], i: usize) -> (r: bool)
    requires
        i <= s@.len(),
    ensures
        r == comment_tail_ok(s@, i as int),
{
    let u = scan_run(s, i, CharClass::Space);
    u == s.len() || (s[u] == '#' && !newline_from_exec(s, u))
}

/// Whether the literal `p` occurs at position `i` of `s`.
pub open spec fn lit_at(s: Seq<char>, i: int, p: Seq<char>) -> bool {
    0 <= i && i + p.len() <= s.len() && s.subrange(i, i + p.len()) == p
}

pub fn lit_at_exec(s: &[char], i: usize, p: &str) -> (r: bool)
    ensures
        r == lit_at(s@, i as int, p@),
{
    let pv = crate::text::str_chars(p);
    crate::text::occurs_at_chars(s, pv.as_slice(), i)
}

} // verus!

verus! {

/// The text after the last `c` in `p` (all of `p` when `c` does not occur).
pub open spec fn after_last(p: Seq<char>, c: char) -> Seq<char>
    decreases p.len(),
{
    if p.len() == 0 {
        p
    } else if p.last() == c {
        Seq::empty()
    } else {
        after_last(p.drop_last(), c).push(p.last())
    }
}

/// The text before the last `c` in `p` (empty when `c` does not occur).
pub open spec fn before_last(p: Seq<char>, c: char) -> Seq<char>
    decreases p.len(),
{
    if p.len() == 0 {
        p
    } else if p.last() == c {
        p.drop_last()
    } else {
        before_last(p.drop_last(), c)
    }
}

/// The stem of a file name: the whole name when it holds no `.`, or when
/// its only `.` is the first character; otherwise the part before the
/// final `.`.
pub open spec fn stem_of(f: Seq<char>) -> Seq<char> {
    if !f.contains('.') || (f[0] == '.' && !f.skip(1).contains('.')) {
        f
    } else {
        before_last(f, '.')
    }
}

/// A path whose last component is plainly the text after its last `/`:
/// not empty, not ending in `/`, with no backslash or `:` (which some platforms
/// read as separators or prefixes), not starting with `//`, and whose last
/// part is neither `.` nor `..`.
pub open spec fn plain_path(p: Seq<char>) -> bool {
    &&& p.len() > 0
    &&& p.last() != '/'
    &&& !p.contains('\\')
    &&& !p.contains(':')
    &&& !(p.len() >= 2 && p[0] == '/' && p[1] == '/')
    &&& after_last(p, '/') != "."@
    &&& after_last(p, '/') != ".."@
}

/// `Path::new(path).file_stem()` as a `String` (the stem of a `&str` path is
/// valid UTF-8). Stated: the stem is a part of `path`; and for a plain path,
/// whose last component is the text after its last `/`, it is that
/// component's stem as `Path::file_stem` documents it. On other paths the
/// platform's path syntax decides, and nothing more is stated.
#[verifier::external_body]
pub(crate) fn path_file_stem(path: &str) -> (r: Option<String>)
    ensures
        r matches Some(x) ==> crate::text::contains_seq(path@, x@),
        plain_path(path@) ==> r.is_some() && r.unwrap()@ == stem_of(after_last(path@, '/')),
{
    std::path::Path::new(path).file_stem().and_then(|s| s.to_str()).map(|s| s.to_string())
}

} // verus!
