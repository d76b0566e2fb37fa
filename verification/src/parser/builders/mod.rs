//! Builders for multi-line entries, and quote-aware helpers for single lines.
use vstd::prelude::*;

use crate::text::{str_chars, string_from_chars, trim, trim_chars, trim_end};

pub mod code_block;
pub mod comment;
pub mod function;
pub mod quoted;

pub use comment::CommentBlockBuilder;
pub use quoted::QuotedValueBuilder;

verus! {

/// Quote state `(in_single, in_double)` after one more character.
pub open spec fn quote_step(st: (bool, bool), c: char) -> (bool, bool) {
    if c == '\'' && !st.1 {
        (!st.0, st.1)
    } else if c == '"' && !st.0 {
        (st.0, !st.1)
    } else {
        st
    }
}

/// Quote state `(in_single, in_double)` after reading `s` from the start of a line.
pub open spec fn quote_state(s: Seq<char>) -> (bool, bool)
    decreases s.len(),
{
    if s.len() == 0 {
        (false, false)
    } else {
        quote_step(quote_state(s.drop_last()), s.last())
    }
}

/// Occurrences of `c` in `s` that stand outside single and double quotes.
pub open spec fn count_outside_quotes(s: Seq<char>, c: char) -> nat
    decreases s.len(),
{
    if s.len() == 0 {
        0
    } else {
        count_outside_quotes(s.drop_last(), c) + if s.last() == c && quote_state(s.drop_last())
            == (false, false) {
            1nat
        } else {
            0nat
        }
    }
}

pub proof fn lemma_count_outside_bound(s: Seq<char>, c: char)
    ensures
        count_outside_quotes(s, c) <= s.len(),
    decreases s.len(),
{
    if s.len() > 0 {
        lemma_count_outside_bound(s.drop_last(), c);
    }
}

/// Counts `open` and `close` characters outside quotes.
fn count_pair_outside_quotes(line: &[char], open: char, close: char) -> (r: (usize, usize))
    requires
        open != '\'' && open != '"' && close != '\'' && close != '"',
        open != close,
    ensures
        r.0 == count_outside_quotes(line@, open),
        r.1 == count_outside_quotes(line@, close),
{
    let mut in_single = false;
    let mut in_double = false;
    let mut open_count: usize = 0;
    let mut close_count: usize = 0;
    let mut i: usize = 0;
    while i < line.len()
        invariant
            i <= line@.len(),
            (in_single, in_double) == quote_state(line@.take(i as int)),
            open_count == count_outside_quotes(line@.take(i as int), open),
            close_count == count_outside_quotes(line@.take(i as int), close),
            open_count <= i,
            close_count <= i,
            open != '\'' && open != '"' && close != '\'' && close != '"',
            open != close,
        decreases line@.len() - i,
    {
        let c = line[i];
        assert(line@.take(i + 1).drop_last() =~= line@.take(i as int));
        assert(line@.take(i + 1).last() == c);
        if c == '\'' && !in_double {
            in_single = !in_single;
        } else if c == '"' && !in_single {
            in_double = !in_double;
        } else if c == open && !in_single && !in_double {
            open_count = open_count + 1;
        } else if c == close && !in_single && !in_double {
            close_count = close_count + 1;
        }
        i = i + 1;
    }
    assert(line@.take(i as int) =~= line@);
    (open_count, close_count)
}

/// Counts `{` and `}` outside single- and double-quoted strings.
pub fn count_braces_outside_quotes(line: &str) -> (r: (usize, usize))
    ensures
        r.0 == count_outside_quotes(line@, '{'),
        r.1 == count_outside_quotes(line@, '}'),
{
    let v = str_chars(line);
    count_pair_outside_quotes(v.as_slice(), '{', '}')
}

/// Counts `(` and `)` outside single- and double-quoted strings.
pub fn count_parens_outside_quotes(line: &str) -> (r: (usize, usize))
    ensures
        r.0 == count_outside_quotes(line@, '('),
        r.1 == count_outside_quotes(line@, ')'),
{
    let v = str_chars(line);
    count_pair_outside_quotes(v.as_slice(), '(', ')')
}

/// Position `i` holds the comment character outside quotes.
pub open spec fn comment_pos(s: Seq<char>, cc: char, i: int) -> bool {
    &&& 0 <= i < s.len()
    &&& s[i] == cc
    &&& cc != '\''
    &&& cc != '"'
    &&& quote_state(s.take(i)) == (false, false)
}

pub open spec fn is_first_comment(s: Seq<char>, cc: char, i: int) -> bool {
    comment_pos(s, cc, i) && forall|j: int| 0 <= j < i ==> !comment_pos(s, cc, j)
}

/// Position of the first comment character outside quotes, if any.
pub open spec fn first_comment(s: Seq<char>, cc: char) -> Option<int> {
    if exists|i: int| is_first_comment(s, cc, i) {
        Some(choose|i: int| is_first_comment(s, cc, i))
    } else {
        None
    }
}

/// The code part of a line: before the first comment (trailing whitespace
/// removed), or the whole line.
pub open spec fn code_part(s: Seq<char>, cc: char) -> Seq<char> {
    match first_comment(s, cc) {
        Some(i) => trim_end(s.take(i)),
        None => s,
    }
}

/// The comment text of a line, trimmed, if it has a comment.
pub open spec fn comment_part(s: Seq<char>, cc: char) -> Option<Seq<char>> {
    match first_comment(s, cc) {
        Some(i) => Some(trim(s.skip(i + 1))),
        None => None,
    }
}

pub proof fn lemma_first_comment_unique(s: Seq<char>, cc: char, i: int)
    requires
        is_first_comment(s, cc, i),
    ensures
        first_comment(s, cc) == Some(i),
{
    let k = choose|k: int| is_first_comment(s, cc, k);
    assert(is_first_comment(s, cc, k));
    if k < i {
        assert(!comment_pos(s, cc, k));
    } else if i < k {
        assert(!comment_pos(s, cc, i));
    }
}

/// Finds the first comment character outside quotes.
pub fn find_comment(s: &[char], cc: char) -> (r: Option<usize>)
    ensures
        match r {
            Some(i) => first_comment(s@, cc) == Some(i as int) && i < s@.len(),
            None => first_comment(s@, cc).is_none(),
        },
{
    let mut in_single = false;
    let mut in_double = false;
    let mut i: usize = 0;
    while i < s.len()
        invariant
            i <= s@.len(),
            (in_single, in_double) == quote_state(s@.take(i as int)),
            forall|j: int| 0 <= j < i ==> !comment_pos(s@, cc, j),
        decreases s@.len() - i,
    {
        let c = s[i];
        assert(s@.take(i + 1).drop_last() =~= s@.take(i as int));
        if c == '\'' && !in_double {
            in_single = !in_single;
        } else if c == '"' && !in_single {
            in_double = !in_double;
        } else if c == cc && !in_single && !in_double {
            assert(comment_pos(s@, cc, i as int));
            proof {
                lemma_first_comment_unique(s@, cc, i as int);
            }
            return Some(i);
        }
        assert(!comment_pos(s@, cc, i as int));
        i = i + 1;
    }
    assert forall|k: int| !is_first_comment(s@, cc, k) by {
        if is_first_comment(s@, cc, k) {
            assert(k < i);
        }
    }
    None
}

/// Splits an inline comment off a line, respecting quotes: the code before
/// the comment character (trailing whitespace removed) and the comment text
/// after it (trimmed), or the whole line and `None`.
pub fn extract_comment(line: &str, comment_char: char) -> (r: (String, Option<String>))
    ensures
        r.0@ == code_part(line@, comment_char),
        match r.1 {
            Some(c) => comment_part(line@, comment_char) == Some(c@),
            None => comment_part(line@, comment_char).is_none(),
        },
{
    let chars = str_chars(line);
    match find_comment(chars.as_slice(), comment_char) {
        Some(i) => {
            let n = chars.len();
            assert(i < n);
            let before = crate::text::slice_range(chars.as_slice(), 0, i);
            let after = crate::text::slice_range(chars.as_slice(), i + 1, n);
            let code = crate::text::trim_end_chars(before.as_slice());
            let comment = trim_chars(after.as_slice());
            assert(before@ =~= line@.take(i as int));
            assert(after@ =~= line@.skip(i + 1));
            (string_from_chars(code.as_slice()), Some(string_from_chars(comment.as_slice())))
        },
        None => (crate::text::string_from_str(line), None),
    }
}

/// `value` trimmed, with one pair of matching surrounding quotes removed.
/// A value shorter than two characters has no surrounding pair and is
/// returned trimmed, so a lone quote stays as it is.
pub open spec fn strip_quotes_spec(value: Seq<char>) -> Seq<char> {
    let t = trim(value);
    if t.len() >= 2 && ((t[0] == '\'' && t.last() == '\'') || (t[0] == '"' && t.last() == '"')) {
        t.subrange(1, t.len() - 1)
    } else {
        t
    }
}

fn strip_quotes_chars(value: &[char]) -> (r: Vec<char>)
    ensures
        r@ == strip_quotes_spec(value@),
{
    let t = trim_chars(value);
    let n = t.len();
    if n >= 2 && ((t[0] == '\'' && t[n - 1] == '\'') || (t[0] == '"' && t[n - 1] == '"')) {
        crate::text::slice_range(t.as_slice(), 1, n - 1)
    } else {
        t
    }
}

/// Removes one pair of matching surrounding quotes from the trimmed value.
pub fn strip_quotes(value: &str) -> (r: String)
    ensures
        r@ == strip_quotes_spec(value@),
{
    let v = str_chars(value);
    let s = strip_quotes_chars(v.as_slice());
    string_from_chars(s.as_slice())
}

} // verus!
