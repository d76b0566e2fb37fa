//! Accumulation of control-structure lines into one Code entry.
use vstd::prelude::*;

use crate::model::entry::{code_name, make_range_name, Entry, EntryType};
use crate::parser::builders::comment::views;
use crate::text::{join_lines, join_with, string_from_str};

verus! {

/// Builder for accumulating code block lines.
#[derive(Debug)]
pub struct CodeBlockBuilder {
    /// Line number where the block starts (1-based)
    pub start_line: usize,
    /// Accumulated lines of the block
    pub lines: Vec<String>,
}

impl CodeBlockBuilder {
    pub fn new(start_line: usize) -> (r: Self)
        ensures
            r.start_line == start_line,
            r.lines@.len() == 0,
    {
        CodeBlockBuilder { start_line, lines: Vec::new() }
    }

    pub fn add_line(&mut self, line: &str)
        ensures
            final(self).start_line == old(self).start_line,
            views(final(self).lines@) == views(old(self).lines@).push(line@),
    {
        self.lines.push(string_from_str(line));
        assert(views(self.lines@) =~= views(old(self).lines@).push(line@));
    }

    /// The Code entry for the block, named `L{start}` or `L{start}-L{end}`.
    pub fn build(self) -> (r: Entry)
        requires
            self.start_line + self.lines@.len() <= usize::MAX + 1,
        ensures
            ({
                let end = if self.lines@.len() == 0 {
                    self.start_line as int
                } else {
                    self.start_line + self.lines@.len() - 1
                };
                &&& r.entry_type == EntryType::Code
                &&& r.name@ == code_name(self.start_line as nat, end as nat)
                &&& r.value@ == join_with(views(self.lines@), '\n')
                &&& r.line_number == Some(self.start_line)
                &&& r.end_line == Some(end as usize)
            }),
    {
        let n = self.lines.len();
        let end_line = self.start_line + if n >= 1 { n - 1 } else { 0 };
        let name = make_range_name("L", self.start_line, end_line);
        let value = join_lines(&self.lines);
        Entry::new(EntryType::Code, name, value).with_line_number(self.start_line).with_end_line(
            end_line,
        )
    }
}

/// A Code entry standing for the blank lines `start..=end`.
pub fn create_blank_line_entry(start: usize, end: usize) -> (r: Entry)
    ensures
        r.entry_type == EntryType::Code,
        r.name@ == code_name(start as nat, end as nat),
        r.value@.len() == 0,
        r.line_number == Some(start),
        r.end_line == Some(end),
{
    let name = make_range_name("L", start, end);
    Entry::new(EntryType::Code, name, String::new()).with_line_number(start).with_end_line(end)
}

} // verus!
