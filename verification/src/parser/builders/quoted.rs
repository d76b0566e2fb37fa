//! Multi-line values enclosed in single quotes (aliases and exports).
use vstd::prelude::*;

use crate::model::entry::{Entry, EntryType};
use crate::parser::builders::comment::views;
use crate::text::{
    find_chars, find_seq, join_lines, join_with, rfind_char, rfind_char_exec, str_chars,
    string_from_chars, string_from_str,
};

verus! {

/// Scanner state `(in_double, escaped)` after one more character: a
/// character after a backslash is skipped, `"` toggles double quoting.
pub open spec fn sq_step(st: (bool, bool), c: char) -> (bool, bool) {
    if st.1 {
        (st.0, false)
    } else if c == '\\' {
        (st.0, true)
    } else if c == '"' {
        (!st.0, false)
    } else {
        st
    }
}

pub open spec fn sq_state(s: Seq<char>) -> (bool, bool)
    decreases s.len(),
{
    if s.len() == 0 {
        (false, false)
    } else {
        sq_step(sq_state(s.drop_last()), s.last())
    }
}

/// Single quotes of `s` that are neither escaped nor inside double quotes.
pub open spec fn single_quote_count(s: Seq<char>) -> nat
    decreases s.len(),
{
    if s.len() == 0 {
        0
    } else {
        let st = sq_state(s.drop_last());
        single_quote_count(s.drop_last()) + if !st.1 && s.last() == '\'' && !st.0 {
            1nat
        } else {
            0nat
        }
    }
}

/// Total of the single-quote counts of the lines.
pub open spec fn total_single_quotes(lines: Seq<Seq<char>>) -> nat
    decreases lines.len(),
{
    if lines.len() == 0 {
        0
    } else {
        total_single_quotes(lines.drop_last()) + single_quote_count(lines.last())
    }
}

/// The value of accumulated quoted lines: the text after the first `='` up
/// to the last `'` (or to the end when that quote is not after it), or the
/// whole text when there is no `='`.
pub open spec fn quoted_value(full: Seq<char>) -> Seq<char> {
    match find_seq(full, seq!['=', '\'']) {
        Some(p) => {
            let start = p + 2;
            match rfind_char(full, '\'') {
                Some(e) => if e > start {
                    full.subrange(start, e)
                } else {
                    full.skip(start)
                },
                None => full.skip(start),
            }
        },
        None => full,
    }
}

/// Builder for multi-line quoted values (alias, env var).
#[derive(Debug)]
pub struct QuotedValueBuilder {
    /// Entry name (alias name or variable name)
    pub name: String,
    /// Line number where the entry starts (1-based)
    pub start_line: usize,
    /// Accumulated raw lines
    pub lines: Vec<String>,
}

fn count_single_quotes_chars(s: &[char]) -> (n: usize)
    ensures
        n == single_quote_count(s@),
{
    let mut count: usize = 0;
    let mut in_double = false;
    let mut escaped = false;
    let mut i: usize = 0;
    while i < s.len()
        invariant
            i <= s@.len(),
            (in_double, escaped) == sq_state(s@.take(i as int)),
            count == single_quote_count(s@.take(i as int)),
            count <= i,
        decreases s@.len() - i,
    {
        let c = s[i];
        assert(s@.take(i + 1).drop_last() =~= s@.take(i as int));
        if escaped {
            escaped = false;
        } else if c == '\\' {
            escaped = true;
        } else if c == '"' {
            in_double = !in_double;
        } else if c == '\'' && !in_double {
            count = count + 1;
        }
        i = i + 1;
    }
    assert(s@.take(i as int) =~= s@);
    count
}

impl QuotedValueBuilder {
    /// Counts the single quotes of a line that are not escaped and not
    /// inside double quotes.
    pub fn count_single_quotes(line: &str) -> (n: usize)
        ensures
            n == single_quote_count(line@),
    {
        let v = str_chars(line);
        count_single_quotes_chars(v.as_slice())
    }

    /// The line leaves a single quote open: its count is odd.
    pub fn has_unclosed_single_quote(line: &str) -> (r: bool)
        ensures
            r == (single_quote_count(line@) % 2 == 1),
    {
        Self::count_single_quotes(line) % 2 == 1
    }

    pub fn new(name: String, start_line: usize, first_line: &str) -> (r: Self)
        ensures
            r.name == name,
            r.start_line == start_line,
            views(r.lines@) == seq![first_line@],
    {
        let mut lines: Vec<String> = Vec::new();
        lines.push(string_from_str(first_line));
        assert(views(lines@) =~= seq![first_line@]);
        QuotedValueBuilder { name, start_line, lines }
    }

    pub fn add_line(&mut self, line: &str)
        ensures
            final(self).name == old(self).name,
            final(self).start_line == old(self).start_line,
            views(final(self).lines@) == views(old(self).lines@).push(line@),
    {
        self.lines.push(string_from_str(line));
        assert(views(self.lines@) =~= views(old(self).lines@).push(line@));
    }

    /// The quoted value is closed: the single quotes of all lines are even in number.
    pub fn is_complete(&self) -> (r: bool)
        requires
            total_single_quotes(views(self.lines@)) <= usize::MAX,
        ensures
            r == (total_single_quotes(views(self.lines@)) % 2 == 0),
    {
        let mut total: usize = 0;
        let mut i: usize = 0;
        while i < self.lines.len()
            invariant
                i <= self.lines@.len(),
                total == total_single_quotes(views(self.lines@).take(i as int)),
                total_single_quotes(views(self.lines@)) <= usize::MAX,
            decreases self.lines@.len() - i,
        {
            let n = Self::count_single_quotes(self.lines[i].as_str());
            proof {
                let vs = views(self.lines@);
                assert(vs.take(i + 1).drop_last() =~= vs.take(i as int));
                lemma_total_prefix(vs, i + 1);
            }
            total = total + n;
            i = i + 1;
        }
        assert(views(self.lines@).take(i as int) =~= views(self.lines@));
        total % 2 == 0
    }

    pub fn line_count(&self) -> (r: usize)
        ensures
            r == self.lines@.len(),
    {
        self.lines.len()
    }

    /// The value: see `quoted_value`.
    pub fn extract_value(&self) -> (r: String)
        ensures
            r@ == quoted_value(join_with(views(self.lines@), '\n')),
    {
        let full_s = join_lines(&self.lines);
        let full = str_chars(full_s.as_str());
        let pat: Vec<char> = vec!['=', '\''];
        assert(pat@ =~= seq!['=', '\'']);
        match find_chars(full.as_slice(), pat.as_slice()) {
            Some(p) => {
                let flen = full.len();
                assert(p + 2 <= flen);
                let start = p + 2;
                match rfind_char_exec(full.as_slice(), '\'') {
                    Some(end) => {
                        if end > start {
                            let v = crate::text::slice_range(full.as_slice(), start, end);
                            return string_from_chars(v.as_slice());
                        }
                    },
                    None => {},
                }
                let v = crate::text::slice_range(full.as_slice(), start, full.len());
                assert(v@ =~= full@.skip(start as int));
                string_from_chars(v.as_slice())
            },
            None => full_s,
        }
    }

    /// The entry: its value is `extract_value`, its range covers all lines.
    pub fn build(self, entry_type: EntryType) -> (r: Entry)
        requires
            self.start_line + self.lines@.len() <= usize::MAX + 1,
        ensures
            r.entry_type == entry_type,
            r.name == self.name,
            r.value@ == quoted_value(join_with(views(self.lines@), '\n')),
            r.line_number == Some(self.start_line),
            r.end_line == Some(
                (if self.lines@.len() == 0 {
                    self.start_line as int
                } else {
                    self.start_line + self.lines@.len() - 1
                }) as usize,
            ),
    {
        let n = self.lines.len();
        let end_line = self.start_line + if n >= 1 { n - 1 } else { 0 };
        let value = self.extract_value();
        Entry::new(entry_type, self.name, value).with_line_number(self.start_line).with_end_line(
            end_line,
        )
    }
}

pub proof fn lemma_total_prefix(vs: Seq<Seq<char>>, j: int)
    requires
        0 <= j <= vs.len(),
    ensures
        total_single_quotes(vs.take(j)) <= total_single_quotes(vs),
    decreases vs.len() - j,
{
    if j < vs.len() {
        lemma_total_prefix(vs, j + 1);
        assert(vs.take(j + 1).drop_last() =~= vs.take(j));
    } else {
        assert(vs.take(j) =~= vs);
    }
}

} // verus!
