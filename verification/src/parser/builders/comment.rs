//! Merging of adjacent comment lines into one Comment entry.
use vstd::prelude::*;

use crate::model::entry::{comment_name, make_range_name, Entry, EntryType};
use crate::text::{
    join_lines, join_with, starts_with, str_chars, string_from_chars, string_from_str, trim,
    trim_chars, trim_start, trim_start_chars,
};

verus! {

/// The views of a list of strings.
pub open spec fn views(v: Seq<String>) -> Seq<Seq<char>> {
    v.map_values(|s: String| s@)
}

/// The text of one comment line: trimmed, with a leading `#` and the
/// whitespace after it removed.
pub open spec fn comment_line_text(line: Seq<char>) -> Seq<char> {
    let t = trim(line);
    if t.len() > 0 && t[0] == '#' {
        trim_start(t.skip(1))
    } else {
        t
    }
}

/// Builder for accumulating adjacent comment lines.
#[derive(Debug)]
pub struct CommentBlockBuilder {
    /// Line number where the comment block starts (1-based)
    pub start_line: usize,
    /// Accumulated comment lines (including the `#` prefix)
    pub lines: Vec<String>,
}

impl CommentBlockBuilder {
    /// A line is a comment when it starts with `#` after trimming.
    pub fn is_comment_line(line: &str) -> (r: bool)
        ensures
            r == starts_with(trim(line@), seq!['#']),
    {
        let v = str_chars(line);
        let t = trim_chars(v.as_slice());
        let r = t.len() > 0 && t[0] == '#';
        assert(r == starts_with(trim(line@), seq!['#'])) by {
            if t@.len() > 0 {
                assert(t@.subrange(0, 1) =~= seq![t@[0]]);
                assert(seq![t@[0]][0] == t@[0]);
                assert(seq!['#'][0] == '#');
            }
        }
        r
    }

    /// A standalone comment: the first non-whitespace character is `#`.
    pub fn is_standalone_comment(line: &str) -> (r: bool)
        ensures
            r == (trim(line@).len() > 0 && trim(line@)[0] == '#'),
    {
        let v = str_chars(line);
        let t = trim_chars(v.as_slice());
        t.len() > 0 && t[0] == '#'
    }

    pub fn new(start_line: usize, first_line: &str) -> (r: Self)
        ensures
            r.start_line == start_line,
            views(r.lines@) == seq![first_line@],
    {
        let mut lines: Vec<String> = Vec::new();
        lines.push(string_from_str(first_line));
        assert(views(lines@) =~= seq![first_line@]);
        CommentBlockBuilder { start_line, lines }
    }

    pub fn add_line(&mut self, line: &str)
        ensures
            final(self).start_line == old(self).start_line,
            views(final(self).lines@) == views(old(self).lines@).push(line@),
    {
        self.lines.push(string_from_str(line));
        assert(views(self.lines@) =~= views(old(self).lines@).push(line@));
    }

    pub fn line_count(&self) -> (r: usize)
        ensures
            r == self.lines@.len(),
    {
        self.lines.len()
    }

    /// The comment text: each line without its `#` prefix, joined by newlines.
    pub fn extract_text(&self) -> (r: String)
        ensures
            r@ == join_with(views(self.lines@).map_values(|l: Seq<char>| comment_line_text(l)), '\n'),
    {
        let mut texts: Vec<String> = Vec::new();
        let mut i: usize = 0;
        while i < self.lines.len()
            invariant
                i <= self.lines@.len(),
                texts@.len() == i,
                forall|k: int| 0 <= k < i ==> (#[trigger] texts@[k])@ == comment_line_text(self.lines@[k]@),
            decreases self.lines@.len() - i,
        {
            let v = str_chars(self.lines[i].as_str());
            let t = trim_chars(v.as_slice());
            let text = if t.len() > 0 && t[0] == '#' {
                let rest = crate::text::slice_range(t.as_slice(), 1, t.len());
                assert(rest@ =~= t@.skip(1));
                trim_start_chars(rest.as_slice())
            } else {
                t
            };
            texts.push(string_from_chars(text.as_slice()));
            i = i + 1;
        }
        let r = join_lines(&texts);
        assert(views(texts@) =~= views(self.lines@).map_values(|l: Seq<char>| comment_line_text(l)));
        r
    }

    /// The Comment entry for the block, named `#L{start}` or `#L{start}-L{end}`,
    /// whose value is the raw lines joined by newlines.
    pub fn build(self) -> (r: Entry)
        requires
            self.start_line + self.lines@.len() <= usize::MAX + 1,
        ensures
            ({
                let end = if self.lines@.len() == 0 {
                    self.start_line as int
                } else {
                    self.start_line + self.lines@.len() - 1
                };
                &&& r.entry_type == EntryType::Comment
                &&& r.name@ == comment_name(self.start_line as nat, end as nat)
                &&& r.value@ == join_with(views(self.lines@), '\n')
                &&& r.line_number == Some(self.start_line)
                &&& r.end_line == Some(end as usize)
            }),
    {
        let n = self.lines.len();
        let end_line = self.start_line + if n >= 1 { n - 1 } else { 0 };
        let name = make_range_name("#L", self.start_line, end_line);
        let value = join_lines(&self.lines);
        Entry::new(EntryType::Comment, name, value).with_line_number(self.start_line).with_end_line(
            end_line,
        )
    }
}

} // verus!
