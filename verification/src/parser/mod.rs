//! Shell configuration file parsing.
use vstd::prelude::*;

use crate::model::entry::{Entry, EntryType, ParseResult};
use crate::model::shell::ShellType;
use crate::parser::bash::BashParser;
use crate::parser::pwsh::PowerShellParser;
use crate::parser::layout::{file_lines, parse_covers};
use crate::parser::pending::BoundaryType;

pub mod bash;
pub mod builders;
pub mod layout;
pub mod pending;
pub mod pwsh;
pub mod scan;

verus! {

/// What trying to parse one line gives.
#[derive(Debug)]
pub enum ParseEvent {
    /// A complete single-line entry.
    Complete(Entry),
    /// The first line of a multi-line entry.
    Started { entry_type: EntryType, name: String, boundary: BoundaryType, first_line: String },
    /// The line is not of this kind.
    NoMatch,
}

/// A parser of one shell's configuration files.
pub trait Parser {
    /// The contents this parser takes.
    spec fn accepts(&self, content: Seq<char>) -> bool;

    /// Parse configuration file content into entries: the entries hold the
    /// file's lines in order, each line as it stands or trimmed, and a block
    /// left open at the end of the file is reported by one warning.
    fn parse(&self, content: &str) -> (r: ParseResult)
        requires
            self.accepts(content@),
        ensures
            parse_covers(content@, r),
    ;

    /// Whether this parser takes the content.
    fn can_parse(&self, content: &str) -> (r: bool)
        ensures
            r == self.accepts(content@),
    ;

    /// The shell type this parser handles.
    fn shell_type(&self) -> ShellType;
}

/// The parser of either shell.
pub enum ShellParser {
    Bash(BashParser),
    PowerShell(PowerShellParser),
}

impl ShellParser {
    /// The shell this parser reads.
    pub open spec fn shell(&self) -> ShellType {
        match self {
            ShellParser::Bash(_) => ShellType::Bash,
            ShellParser::PowerShell(_) => ShellType::PowerShell,
        }
    }
}

impl Parser for ShellParser {
    open spec fn accepts(&self, content: Seq<char>) -> bool {
        match self {
            ShellParser::Bash(p) => p.accepts(content),
            ShellParser::PowerShell(p) => p.accepts(content),
        }
    }

    fn parse(&self, content: &str) -> (r: ParseResult)
        ensures
            shell_parse_ok(*self, content@, r),
    {
        match self {
            ShellParser::Bash(p) => p.parse(content),
            ShellParser::PowerShell(p) => p.parse(content),
        }
    }

    fn can_parse(&self, content: &str) -> (r: bool) {
        match self {
            ShellParser::Bash(p) => p.can_parse(content),
            ShellParser::PowerShell(p) => p.can_parse(content),
        }
    }

    fn shell_type(&self) -> (r: ShellType)
        ensures
            r == self.shell(),
    {
        match self {
            ShellParser::Bash(p) => p.shell_type(),
            ShellParser::PowerShell(p) => p.shell_type(),
        }
    }
}

/// `r` is what the parser `p` gives for `content`: the entries hold the
/// file's lines in order, each structured entry is named after one of its
/// lines and keeps the structured lines outside multi-line blocks, a warning
/// comes exactly when the file ends inside an open block, and it names the
/// kind of block that a line at or after its line begins. Entries begin
/// exactly at the lines where the shell's grouping rule says one begins
/// (`bash_breaks_at`, `pwsh_breaks_at`), and each entry's type is that of
/// what waits after its last line; for Bash, a comment entry before the
/// last holds two comment lines (a single one joins what follows).
pub open spec fn shell_parse_ok(p: ShellParser, content: Seq<char>, r: ParseResult) -> bool {
    let lines = file_lines(content);
    &&& parse_covers(content, r)
    &&& match p {
        ShellParser::Bash(_) => {
            &&& crate::parser::bash::all_named(r.entries@, lines)
            &&& crate::parser::bash::all_kept(r.entries@, lines)
            &&& (r.warnings@.len() == 1 <==> crate::parser::bash::bash_open_after(lines).is_some())
            &&& crate::parser::bash::all_start_well(r.entries@, lines)
            &&& forall|k: int|
                0 <= k < r.entries@.len() - 1 && (#[trigger] r.entries@[k]).entry_type == EntryType::Comment
                    ==> crate::parser::bash::two_comments(
                    r.entries@[k].line_number->0 - 1,
                    crate::parser::bash::entry_end(r.entries@[k]),
                    lines,
                )
            &&& r.warnings@.len() == 1 ==> exists|j: int|
                r.warnings@[0].line_number - 1 <= j < lines.len() && #[trigger] crate::parser::bash::bash_warned(
                    r.warnings@[0].message@,
                    crate::text::trim(lines[j]),
                )
        },
        ShellParser::PowerShell(_) => {
            &&& crate::parser::pwsh::pwsh_all_named(r.entries@, lines)
            &&& crate::parser::pwsh::pwsh_all_kept(r.entries@, lines)
            &&& (r.warnings@.len() == 1 <==> crate::parser::pwsh::pwsh_open_after(lines).is_some())
            &&& crate::parser::pwsh::pwsh_all_free(r.entries@, lines)
            &&& r.warnings@.len() == 1 ==> exists|j: int|
                r.warnings@[0].line_number - 1 <= j < lines.len() && #[trigger] crate::parser::pwsh::pwsh_warned(
                    r.warnings@[0].message@,
                    crate::text::trim(lines[j]),
                )
        },
    }
}

/// The parser for a shell type.
pub fn get_parser(shell_type: ShellType) -> (r: ShellParser)
    ensures
        r.shell() == shell_type,
{
    match shell_type {
        ShellType::Bash => ShellParser::Bash(BashParser::new()),
        ShellType::PowerShell => ShellParser::PowerShell(PowerShellParser::new()),
    }
}

} // verus!
