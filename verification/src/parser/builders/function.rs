//! Accumulation of a function definition into one Function entry.
use vstd::prelude::*;

use crate::model::entry::{Entry, EntryType};
use crate::parser::builders::comment::views;
use crate::text::{
    find_chars, find_seq, join_lines, join_with, rfind_char, rfind_char_exec, str_chars,
    string_from_chars, string_from_str, trim, trim_chars,
};

verus! {

/// The body of a function definition given by its lines: nothing for no
/// lines; for one line, the trimmed text between its first `{` and its last
/// `}` (nothing if there is none); otherwise the lines between the first
/// and the last.
pub open spec fn function_body(lines: Seq<Seq<char>>) -> Seq<char> {
    if lines.len() == 0 {
        Seq::<char>::empty()
    } else if lines.len() == 1 {
        let line = lines[0];
        match (find_seq(line, seq!['{']), rfind_char(line, '}')) {
            (Some(s), Some(e)) => if e > s + 1 {
                trim(line.subrange(s + 1, e))
            } else {
                Seq::<char>::empty()
            },
            _ => Seq::<char>::empty(),
        }
    } else if lines.len() > 2 {
        join_with(lines.subrange(1, lines.len() - 1), '\n')
    } else {
        Seq::<char>::empty()
    }
}

/// Builder for accumulating multi-line function definitions.
#[derive(Debug)]
pub struct FunctionBuilder {
    pub name: String,
    pub start_line: usize,
    pub lines: Vec<String>,
}

impl FunctionBuilder {
    pub fn new(name: String, start_line: usize) -> (r: Self)
        ensures
            r.name == name,
            r.start_line == start_line,
            r.lines@.len() == 0,
    {
        FunctionBuilder { name, start_line, lines: Vec::new() }
    }

    pub fn add_line(&mut self, line: &str)
        ensures
            final(self).name == old(self).name,
            final(self).start_line == old(self).start_line,
            views(final(self).lines@) == views(old(self).lines@).push(line@),
    {
        self.lines.push(string_from_str(line));
        assert(views(self.lines@) =~= views(old(self).lines@).push(line@));
    }

    fn extract_body(&self) -> (r: String)
        ensures
            r@ == function_body(views(self.lines@)),
    {
        let n = self.lines.len();
        if n == 0 {
            return String::new();
        }
        if n == 1 {
            let line = str_chars(self.lines[0].as_str());
            let brace: Vec<char> = vec!['{'];
            assert(brace@ =~= seq!['{']);
            let open = find_chars(line.as_slice(), brace.as_slice());
            match open {
                Some(start) => {
                    match rfind_char_exec(line.as_slice(), '}') {
                        Some(end) => {
                            if end > start + 1 {
                                let inner = crate::text::slice_range(line.as_slice(), start + 1, end);
                                let t = trim_chars(inner.as_slice());
                                return string_from_chars(t.as_slice());
                            }
                        },
                        None => {},
                    }
                },
                None => {},
            }
            return String::new();
        }
        if n > 2 {
            let mut middle: Vec<String> = Vec::new();
            let mut i: usize = 1;
            while i < n - 1
                invariant
                    n == self.lines@.len(),
                    n > 2,
                    1 <= i <= n - 1,
                    views(middle@) == views(self.lines@).subrange(1, i as int),
                decreases n - 1 - i,
            {
                let ghost prev = middle@;
                middle.push(self.lines[i].clone());
                assert(middle@ == prev.push(self.lines@[i as int]));
                assert(views(middle@) =~= views(prev).push(self.lines@[i as int]@));
                assert(views(middle@) =~= views(self.lines@).subrange(1, i + 1));
                i = i + 1;
            }
            join_lines(&middle)
        } else {
            String::new()
        }
    }

    /// The entry for the function: the value is the body only (see
    /// `function_body`), the range runs from the start over all lines.
    pub fn build(self, entry_type: EntryType) -> (r: Entry)
        requires
            self.start_line + self.lines@.len() <= usize::MAX + 1,
        ensures
            r.entry_type == entry_type,
            r.name == self.name,
            r.value@ == function_body(views(self.lines@)),
            r.line_number == Some(self.start_line),
            r.end_line == Some(
                (if self.lines@.len() == 0 {
                    self.start_line as int
                } else {
                    self.start_line + self.lines@.len() - 1
                }) as usize,
            ),
    {
        let n = self.lines.len();
        let end_line = self.start_line + if n >= 1 { n - 1 } else { 0 };
        let body = self.extract_body();
        Entry::new(entry_type, self.name, body).with_line_number(self.start_line).with_end_line(
            end_line,
        )
    }
}

} // verus!
