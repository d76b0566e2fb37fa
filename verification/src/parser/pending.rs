//! The pending block: lines accumulated until an entry's boundary is reached.
use vstd::prelude::*;

use crate::model::entry::EntryType;
use crate::parser::builders::comment::views;
use crate::text::{join_lines, join_with, string_from_str};

verus! {

/// Determines when a pending block is complete.
#[derive(Debug, Clone, PartialEq, Eq, Structural)]
pub enum BoundaryType {
    /// Single-line entry, already complete.
    Complete,
    /// Brace balance `{ }`; complete when the count reaches 0.
    BraceCounting { brace_count: i32 },
    /// Parenthesis balance `( )`; complete when the count reaches 0.
    ParenthesisCounting { parenthesis_count: i32 },
    /// Single-quote parity; complete when the count is even.
    QuoteCounting { quote_count: usize },
    /// Control-structure depth; complete when the depth reaches 0.
    KeywordTracking { depth: usize },
    /// Adjacent lines of one kind; completed from outside.
    AdjacentMerging { merge_type: MergeType },
}

/// Kind of lines merged in `AdjacentMerging` mode.
#[derive(Debug, Clone, Copy, PartialEq, Eq, Structural)]
pub enum MergeType {
    /// Consecutive comment lines.
    Comment,
    /// Consecutive blank lines.
    BlankLines,
    /// Non-blank code lines that absorb trailing blanks.
    CodeWithBlanks,
}

/// `a - b` clamped to the range of `i32` (`i32::saturating_sub`).
pub open spec fn sat_sub_i32(a: int, b: int) -> int {
    if a - b < i32::MIN {
        i32::MIN as int
    } else if a - b > i32::MAX {
        i32::MAX as int
    } else {
        a - b
    }
}

/// `i32::saturating_sub`.
pub fn i32_saturating_sub(a: i32, b: i32) -> (r: i32)
    ensures
        r == sat_sub_i32(a as int, b as int),
{
    let d: i64 = a as i64 - b as i64;
    if d < i32::MIN as i64 {
        i32::MIN
    } else if d > i32::MAX as i64 {
        i32::MAX
    } else {
        d as i32
    }
}

/// `a - b` for naturals, at least 0 (`usize::saturating_sub`).
pub open spec fn sat_sub(a: int, b: int) -> int {
    if a - b < 0 { 0 } else { a - b }
}

/// Lines accumulated during parsing until the boundary condition holds.
#[derive(Debug)]
pub struct PendingBlock {
    /// Lines accumulated so far (original content, not trimmed).
    pub lines: Vec<String>,
    /// Starting line number (1-indexed).
    pub start_line: usize,
    /// Current ending line number (1-indexed).
    pub end_line: usize,
    /// Boundary detection strategy.
    pub boundary: BoundaryType,
    /// Hint for the entry type.
    pub entry_hint: Option<EntryType>,
    /// Name for the entry (function name, alias name, ...).
    pub name: Option<String>,
    /// Extracted value.
    pub value: Option<String>,
    /// Number of pure comment lines: a single comment merges down, several do not.
    pub comment_count: usize,
}

/// Whether a block with this boundary is complete.
pub open spec fn boundary_complete(b: BoundaryType) -> bool {
    match b {
        BoundaryType::Complete => true,
        BoundaryType::BraceCounting { brace_count } => brace_count == 0,
        BoundaryType::ParenthesisCounting { parenthesis_count } => parenthesis_count == 0,
        BoundaryType::QuoteCounting { quote_count } => quote_count % 2 == 0,
        BoundaryType::KeywordTracking { depth } => depth == 0,
        BoundaryType::AdjacentMerging { .. } => false,
    }
}

impl PendingBlock {
    /// The text of the block: its lines joined by newlines.
    pub open spec fn content(&self) -> Seq<char> {
        join_with(views(self.lines@), '\n')
    }

    pub fn new(start_line: usize, first_line: &str, boundary: BoundaryType) -> (r: Self)
        ensures
            views(r.lines@) == seq![first_line@],
            r.start_line == start_line,
            r.end_line == start_line,
            r.boundary == boundary,
            r.entry_hint.is_none(),
            r.name.is_none(),
            r.value.is_none(),
            r.comment_count == 0,
    {
        let mut lines: Vec<String> = Vec::new();
        lines.push(string_from_str(first_line));
        assert(views(lines@) =~= seq![first_line@]);
        PendingBlock {
            lines,
            start_line,
            end_line: start_line,
            boundary,
            entry_hint: None,
            name: None,
            value: None,
            comment_count: 0,
        }
    }

    /// A block for a function whose first line leaves `brace_count` braces open.
    pub fn function(name: String, start_line: usize, first_line: &str, brace_count: i32) -> (r:
        Self)
        ensures
            views(r.lines@) == seq![first_line@],
            r.start_line == start_line,
            r.end_line == start_line,
            r.boundary == (BoundaryType::BraceCounting { brace_count }),
            r.entry_hint == Some(EntryType::Function),
            r.name == Some(name),
            r.value.is_none(),
            r.comment_count == 0,
    {
        let mut block = Self::new(
            start_line,
            first_line,
            BoundaryType::BraceCounting { brace_count },
        );
        block.entry_hint = Some(EntryType::Function);
        block.name = Some(name);
        block
    }

    /// A block for a control structure of the given depth.
    pub fn control(start_line: usize, first_line: &str, depth: usize) -> (r: Self)
        ensures
            views(r.lines@) == seq![first_line@],
            r.start_line == start_line,
            r.end_line == start_line,
            r.boundary == (BoundaryType::KeywordTracking { depth }),
            r.entry_hint == Some(EntryType::Code),
            r.name.is_none(),
            r.value.is_none(),
            r.comment_count == 0,
    {
        let mut block = Self::new(start_line, first_line, BoundaryType::KeywordTracking { depth });
        block.entry_hint = Some(EntryType::Code);
        block
    }

    /// A block for a multi-line alias.
    pub fn multiline_alias(name: String, start_line: usize, first_line: &str, quote_count: usize)
        -> (r: Self)
        ensures
            views(r.lines@) == seq![first_line@],
            r.start_line == start_line,
            r.end_line == start_line,
            r.boundary == (BoundaryType::QuoteCounting { quote_count }),
            r.entry_hint == Some(EntryType::Alias),
            r.name == Some(name),
            r.value.is_none(),
            r.comment_count == 0,
    {
        let mut block = Self::new(
            start_line,
            first_line,
            BoundaryType::QuoteCounting { quote_count },
        );
        block.entry_hint = Some(EntryType::Alias);
        block.name = Some(name);
        block
    }

    /// A block for a multi-line environment variable.
    pub fn multiline_env(name: String, start_line: usize, first_line: &str, quote_count: usize)
        -> (r: Self)
        ensures
            views(r.lines@) == seq![first_line@],
            r.start_line == start_line,
            r.end_line == start_line,
            r.boundary == (BoundaryType::QuoteCounting { quote_count }),
            r.entry_hint == Some(EntryType::EnvVar),
            r.name == Some(name),
            r.value.is_none(),
            r.comment_count == 0,
    {
        let mut block = Self::new(
            start_line,
            first_line,
            BoundaryType::QuoteCounting { quote_count },
        );
        block.entry_hint = Some(EntryType::EnvVar);
        block.name = Some(name);
        block
    }

    /// A block for a comment line.
    pub fn comment(start_line: usize, first_line: &str) -> (r: Self)
        ensures
            views(r.lines@) == seq![first_line@],
            r.start_line == start_line,
            r.end_line == start_line,
            r.boundary == (BoundaryType::AdjacentMerging { merge_type: MergeType::Comment }),
            r.entry_hint == Some(EntryType::Comment),
            r.name.is_none(),
            r.value.is_none(),
            r.comment_count == 1,
    {
        let mut block = Self::new(
            start_line,
            first_line,
            BoundaryType::AdjacentMerging { merge_type: MergeType::Comment },
        );
        block.entry_hint = Some(EntryType::Comment);
        block.comment_count = 1;
        block
    }

    /// A block for blank lines.
    pub fn blank_lines(start_line: usize, first_line: &str) -> (r: Self)
        ensures
            views(r.lines@) == seq![first_line@],
            r.start_line == start_line,
            r.end_line == start_line,
            r.boundary == (BoundaryType::AdjacentMerging { merge_type: MergeType::BlankLines }),
            r.entry_hint == Some(EntryType::Code),
            r.name.is_none(),
            r.value.is_none(),
            r.comment_count == 0,
    {
        let mut block = Self::new(
            start_line,
            first_line,
            BoundaryType::AdjacentMerging { merge_type: MergeType::BlankLines },
        );
        block.entry_hint = Some(EntryType::Code);
        block.comment_count = 0;
        block
    }

    /// A block for non-blank code, which absorbs trailing blank lines.
    pub fn code(start_line: usize, first_line: &str) -> (r: Self)
        ensures
            views(r.lines@) == seq![first_line@],
            r.start_line == start_line,
            r.end_line == start_line,
            r.boundary == (BoundaryType::AdjacentMerging {
                merge_type: MergeType::CodeWithBlanks,
            }),
            r.entry_hint == Some(EntryType::Code),
            r.name.is_none(),
            r.value.is_none(),
            r.comment_count == 0,
    {
        let mut block = Self::new(
            start_line,
            first_line,
            BoundaryType::AdjacentMerging { merge_type: MergeType::CodeWithBlanks },
        );
        block.entry_hint = Some(EntryType::Code);
        block
    }

    /// Adds a line and moves the end of the block to it.
    pub fn add_line(&mut self, line: &str, line_number: usize)
        ensures
            views(final(self).lines@) == views(old(self).lines@).push(line@),
            final(self).end_line == line_number,
            final(self).start_line == old(self).start_line,
            final(self).boundary == old(self).boundary,
            final(self).entry_hint == old(self).entry_hint,
            final(self).name == old(self).name,
            final(self).value == old(self).value,
            final(self).comment_count == old(self).comment_count,
    {
        self.lines.push(string_from_str(line));
        assert(views(self.lines@) =~= views(old(self).lines@).push(line@));
        self.end_line = line_number;
    }

    /// Whether the boundary condition holds.
    pub fn is_complete(&self) -> (r: bool)
        ensures
            r == boundary_complete(self.boundary),
    {
        match &self.boundary {
            BoundaryType::Complete => true,
            BoundaryType::BraceCounting { brace_count } => *brace_count == 0,
            BoundaryType::ParenthesisCounting { parenthesis_count } => *parenthesis_count == 0,
            BoundaryType::QuoteCounting { quote_count } => quote_count % 2 == 0,
            BoundaryType::KeywordTracking { depth } => *depth == 0,
            BoundaryType::AdjacentMerging { .. } => false,
        }
    }

    /// Adds `open` and subtracts `close` (saturating) from a brace count.
    pub fn update_brace_count(&mut self, open: i32, close: i32)
        requires
            old(self).boundary matches BoundaryType::BraceCounting { brace_count } ==> i32::MIN
                <= brace_count + open <= i32::MAX,
        ensures
            final(self).boundary == (match old(self).boundary {
                BoundaryType::BraceCounting { brace_count } => BoundaryType::BraceCounting {
                    brace_count: sat_sub_i32(brace_count + open, close as int) as i32,
                },
                b => b,
            }),
            final(self).lines == old(self).lines,
            final(self).start_line == old(self).start_line,
            final(self).end_line == old(self).end_line,
            final(self).entry_hint == old(self).entry_hint,
            final(self).name == old(self).name,
            final(self).value == old(self).value,
            final(self).comment_count == old(self).comment_count,
    {
        match self.boundary {
            BoundaryType::BraceCounting { brace_count } => {
                let b = brace_count + open;
                self.boundary = BoundaryType::BraceCounting {
                    brace_count: i32_saturating_sub(b, close),
                };
            },
            _ => {},
        }
    }

    /// Adds `open` and subtracts `close` (saturating) from a parenthesis count.
    pub fn update_parenthesis_count(&mut self, open: i32, close: i32)
        requires
            old(self).boundary matches BoundaryType::ParenthesisCounting { parenthesis_count }
                ==> i32::MIN <= parenthesis_count + open <= i32::MAX,
        ensures
            final(self).boundary == (match old(self).boundary {
                BoundaryType::ParenthesisCounting {
                    parenthesis_count,
                } => BoundaryType::ParenthesisCounting {
                    parenthesis_count: sat_sub_i32(parenthesis_count + open, close as int) as i32,
                },
                b => b,
            }),
            final(self).lines == old(self).lines,
            final(self).start_line == old(self).start_line,
            final(self).end_line == old(self).end_line,
            final(self).entry_hint == old(self).entry_hint,
            final(self).name == old(self).name,
            final(self).value == old(self).value,
            final(self).comment_count == old(self).comment_count,
    {
        match self.boundary {
            BoundaryType::ParenthesisCounting { parenthesis_count } => {
                let p = parenthesis_count + open;
                self.boundary = BoundaryType::ParenthesisCounting {
                    parenthesis_count: i32_saturating_sub(p, close),
                };
            },
            _ => {},
        }
    }

    /// Adds to a single-quote count.
    pub fn add_quotes(&mut self, count: usize)
        requires
            old(self).boundary matches BoundaryType::QuoteCounting { quote_count } ==> quote_count
                + count <= usize::MAX,
        ensures
            final(self).boundary == (match old(self).boundary {
                BoundaryType::QuoteCounting { quote_count } => BoundaryType::QuoteCounting {
                    quote_count: (quote_count + count) as usize,
                },
                b => b,
            }),
            final(self).lines == old(self).lines,
            final(self).start_line == old(self).start_line,
            final(self).end_line == old(self).end_line,
            final(self).entry_hint == old(self).entry_hint,
            final(self).name == old(self).name,
            final(self).value == old(self).value,
            final(self).comment_count == old(self).comment_count,
    {
        match self.boundary {
            BoundaryType::QuoteCounting { quote_count } => {
                self.boundary = BoundaryType::QuoteCounting { quote_count: quote_count + count };
            },
            _ => {},
        }
    }

    /// Lowers a control depth by the closings (saturating) and raises it by the openings.
    pub fn update_keyword_depth(&mut self, start_count: usize, end_count: usize)
        requires
            old(self).boundary matches BoundaryType::KeywordTracking { depth } ==> sat_sub(
                depth as int,
                end_count as int,
            ) + start_count <= usize::MAX,
        ensures
            final(self).boundary == (match old(self).boundary {
                BoundaryType::KeywordTracking { depth } => BoundaryType::KeywordTracking {
                    depth: (sat_sub(depth as int, end_count as int) + start_count) as usize,
                },
                b => b,
            }),
            final(self).lines == old(self).lines,
            final(self).start_line == old(self).start_line,
            final(self).end_line == old(self).end_line,
            final(self).entry_hint == old(self).entry_hint,
            final(self).name == old(self).name,
            final(self).value == old(self).value,
            final(self).comment_count == old(self).comment_count,
    {
        match self.boundary {
            BoundaryType::KeywordTracking { depth } => {
                let d = depth.saturating_sub(end_count);
                self.boundary = BoundaryType::KeywordTracking { depth: d + start_count };
            },
            _ => {},
        }
    }

    /// The lines joined by newlines.
    pub fn raw_content(&self) -> (r: String)
        ensures
            r@ == self.content(),
    {
        join_lines(&self.lines)
    }

    /// The merge type of an `AdjacentMerging` block.
    pub fn merge_type(&self) -> (r: Option<MergeType>)
        ensures
            r == (match self.boundary {
                BoundaryType::AdjacentMerging { merge_type } => Some(merge_type),
                _ => None,
            }),
    {
        match &self.boundary {
            BoundaryType::AdjacentMerging { merge_type } => Some(*merge_type),
            _ => None,
        }
    }

    /// Turns the block into code (a comment followed by non-blank code).
    pub fn upgrade_to_code(&mut self)
        ensures
            final(self).entry_hint == Some(EntryType::Code),
            final(self).boundary == (match old(self).boundary {
                BoundaryType::AdjacentMerging { .. } => BoundaryType::AdjacentMerging {
                    merge_type: MergeType::CodeWithBlanks,
                },
                b => b,
            }),
            final(self).lines == old(self).lines,
            final(self).start_line == old(self).start_line,
            final(self).end_line == old(self).end_line,
            final(self).name == old(self).name,
            final(self).value == old(self).value,
            final(self).comment_count == old(self).comment_count,
    {
        self.entry_hint = Some(EntryType::Code);
        match self.boundary {
            BoundaryType::AdjacentMerging { .. } => {
                self.boundary = BoundaryType::AdjacentMerging {
                    merge_type: MergeType::CodeWithBlanks,
                };
            },
            _ => {},
        }
    }

    /// Any adjacent-merging block absorbs a following blank line.
    pub fn can_absorb_blank(&self) -> (r: bool)
        ensures
            r == (self.boundary is AdjacentMerging),
    {
        match &self.boundary {
            BoundaryType::AdjacentMerging { merge_type } => {
                match merge_type {
                    MergeType::Comment | MergeType::BlankLines | MergeType::CodeWithBlanks => true,
                }
            },
            _ => false,
        }
    }

    /// Only a comment block absorbs a following comment line.
    pub fn can_absorb_comment(&self) -> (r: bool)
        ensures
            r == (self.boundary == (BoundaryType::AdjacentMerging {
                merge_type: MergeType::Comment,
            })),
    {
        match &self.boundary {
            BoundaryType::AdjacentMerging { merge_type } => {
                match merge_type {
                    MergeType::Comment => true,
                    _ => false,
                }
            },
            _ => false,
        }
    }

    pub fn increment_comment_count(&mut self)
        requires
            old(self).comment_count < usize::MAX,
        ensures
            final(self).comment_count == old(self).comment_count + 1,
            final(self).lines == old(self).lines,
            final(self).start_line == old(self).start_line,
            final(self).end_line == old(self).end_line,
            final(self).boundary == old(self).boundary,
            final(self).entry_hint == old(self).entry_hint,
            final(self).name == old(self).name,
            final(self).value == old(self).value,
    {
        self.comment_count = self.comment_count + 1;
    }

    /// The block is an alias, export, source or function entry absorbing trailing blanks.
    pub fn is_structured_entry(&self) -> (r: bool)
        ensures
            r == is_structured(self.entry_hint),
    {
        match self.entry_hint {
            Some(EntryType::Alias) | Some(EntryType::EnvVar) | Some(EntryType::Source) | Some(
                EntryType::Function,
            ) => true,
            _ => false,
        }
    }
}

pub open spec fn is_structured(h: Option<EntryType>) -> bool {
    h == Some(EntryType::Alias) || h == Some(EntryType::EnvVar) || h == Some(EntryType::Source)
        || h == Some(EntryType::Function)
}

/// Whether a pending block takes a following blank line.
pub(crate) fn absorbs_blank(pending: &Option<PendingBlock>) -> (r: bool)
    ensures
        r == (pending matches Some(p) && p.boundary is AdjacentMerging),
{
    match pending {
        Some(p) => p.can_absorb_blank(),
        None => false,
    }
}

/// Whether a pending block takes a following comment line.
pub(crate) fn absorbs_comment(pending: &Option<PendingBlock>) -> (r: bool)
    ensures
        r == (pending matches Some(p) && p.boundary == (BoundaryType::AdjacentMerging {
            merge_type: MergeType::Comment,
        })),
{
    match pending {
        Some(p) => p.can_absorb_comment(),
        None => false,
    }
}

/// A vector holding one line.
pub(crate) fn one_line(s: String) -> (r: Vec<String>)
    ensures
        views(r@) == seq![s@],
        r@.len() == 1,
{
    let mut v: Vec<String> = Vec::new();
    v.push(s);
    assert(views(v@) =~= seq![s@]);
    v
}

} // verus!
