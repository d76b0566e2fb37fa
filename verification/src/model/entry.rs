//! Entries of a shell configuration file and the result of parsing one.
use vstd::prelude::*;

use crate::text::{
    dec, is_ws, lowercase, push_decimal, str_chars, string_from_str, string_push, to_lowercase,
    trim,
};

verus! {

/// Kind of a configuration entry.
#[derive(Debug, Clone, Copy, PartialEq, Eq, Hash, Structural)]
pub enum EntryType {
    Alias,
    Function,
    EnvVar,
    Source,
    /// Raw code lines or control structures
    Code,
    /// Pure comment lines
    Comment,
}

/// The label under which an entry type is displayed.
pub open spec fn entry_type_label(t: EntryType) -> Seq<char> {
    match t {
        EntryType::Alias => "alias"@,
        EntryType::Function => "func"@,
        EntryType::EnvVar => "env"@,
        EntryType::Source => "source"@,
        EntryType::Code => "code"@,
        EntryType::Comment => "comment"@,
    }
}

/// The entry type a (lower-cased) name denotes, if any.
pub open spec fn entry_type_named(s: Seq<char>) -> Option<EntryType> {
    if s == "alias"@ {
        Some(EntryType::Alias)
    } else if s == "func"@ || s == "function"@ {
        Some(EntryType::Function)
    } else if s == "env"@ || s == "envvar"@ {
        Some(EntryType::EnvVar)
    } else if s == "source"@ {
        Some(EntryType::Source)
    } else if s == "code"@ {
        Some(EntryType::Code)
    } else if s == "comment"@ {
        Some(EntryType::Comment)
    } else {
        None
    }
}

/// Equality of two character sequences.
pub fn chars_eq(a: &[char], b: &[char]) -> (r: bool)
    ensures
        r == (a@ == b@),
{
    if a.len() != b.len() {
        return false;
    }
    let mut i: usize = 0;
    while i < a.len()
        invariant
            a@.len() == b@.len(),
            i <= a@.len(),
            forall|k: int| 0 <= k < i ==> a@[k] == b@[k],
        decreases a@.len() - i,
    {
        if a[i] != b[i] {
            return false;
        }
        i = i + 1;
    }
    assert(a@ =~= b@);
    true
}

/// Whether the characters `a` spell the literal `lit`.
pub fn chars_eq_str(a: &[char], lit: &str) -> (r: bool)
    ensures
        r == (a@ == lit@),
{
    let b = str_chars(lit);
    chars_eq(a, b.as_slice())
}

impl EntryType {
    /// The label under which this entry type is displayed (its `Display` text).
    pub fn as_str(&self) -> (r: &'static str)
        ensures
            r@ == entry_type_label(*self),
    {
        match self {
            EntryType::Alias => "alias",
            EntryType::Function => "func",
            EntryType::EnvVar => "env",
            EntryType::Source => "source",
            EntryType::Code => "code",
            EntryType::Comment => "comment",
        }
    }

    /// Parses an entry type name, ignoring case.
    pub fn parse_name(s: &str) -> (r: Result<EntryType, String>)
        ensures
            match entry_type_named(lowercase(s@)) {
                Some(t) => r == Ok::<EntryType, String>(t),
                None => r matches Err(msg) && msg@ == "Unknown entry type: "@ + s@,
            },
    {
        let lower = to_lowercase(s);
        let l = str_chars(lower.as_str());
        if chars_eq_str(l.as_slice(), "alias") {
            Ok(EntryType::Alias)
        } else if chars_eq_str(l.as_slice(), "func") || chars_eq_str(l.as_slice(), "function") {
            Ok(EntryType::Function)
        } else if chars_eq_str(l.as_slice(), "env") || chars_eq_str(l.as_slice(), "envvar") {
            Ok(EntryType::EnvVar)
        } else if chars_eq_str(l.as_slice(), "source") {
            Ok(EntryType::Source)
        } else if chars_eq_str(l.as_slice(), "code") {
            Ok(EntryType::Code)
        } else if chars_eq_str(l.as_slice(), "comment") {
            Ok(EntryType::Comment)
        } else {
            let mut msg = string_from_str("Unknown entry type: ");
            crate::text::push_str(&mut msg, s);
            Err(msg)
        }
    }
}

impl std::str::FromStr for EntryType {
    type Err = String;

    fn from_str(s: &str) -> (r: Result<Self, Self::Err>)
        ensures
            match entry_type_named(lowercase(s@)) {
                Some(t) => r == Ok::<EntryType, String>(t),
                None => r matches Err(msg) && msg@ == "Unknown entry type: "@ + s@,
            },
    {
        EntryType::parse_name(s)
    }
}

/// A single configuration entry.
///
/// `value` holds the complete raw text of the entry (keywords, quotes, and any
/// comment or blank lines merged into it), so it can be written back as is.
/// `name` identifies the entry for display and search.
#[derive(Debug, Clone)]
pub struct Entry {
    pub entry_type: EntryType,
    pub name: String,
    pub value: String,
    pub line_number: Option<usize>,
    pub end_line: Option<usize>,
}

/// `prefix` followed by `start`, or by `start-L{end}` when the range spans lines.
pub open spec fn range_name(prefix: Seq<char>, start: nat, end: nat) -> Seq<char> {
    if start == end {
        prefix + dec(start)
    } else {
        prefix + dec(start) + "-L"@ + dec(end)
    }
}

/// Name of a range of lines: `L{start}` / `L{start}-L{end}`.
pub open spec fn code_name(start: nat, end: nat) -> Seq<char> {
    range_name("L"@, start, end)
}

/// Name of a range of comment lines: `#L{start}` / `#L{start}-L{end}`.
pub open spec fn comment_name(start: nat, end: nat) -> Seq<char> {
    range_name("#L"@, start, end)
}

/// Writes `prefix{start}` or `prefix{start}-L{end}`.
pub fn make_range_name(prefix: &str, start: usize, end: usize) -> (r: String)
    ensures
        r@ == range_name(prefix@, start as nat, end as nat),
{
    let mut s = string_from_str(prefix);
    push_decimal(&mut s, start);
    if start != end {
        string_push(&mut s, '-');
        string_push(&mut s, 'L');
        push_decimal(&mut s, end);
        proof {
            reveal_strlit("-L");
        }
        assert(s@ =~= prefix@ + dec(start as nat) + "-L"@ + dec(end as nat));
    }
    s
}

/// Always writes `prefix{start}-L{end}`.
pub fn make_span_name(prefix: &str, start: usize, end: usize) -> (r: String)
    ensures
        r@ == prefix@ + dec(start as nat) + "-L"@ + dec(end as nat),
{
    let mut s = string_from_str(prefix);
    push_decimal(&mut s, start);
    string_push(&mut s, '-');
    string_push(&mut s, 'L');
    push_decimal(&mut s, end);
    proof {
        reveal_strlit("-L");
    }
    assert(s@ =~= prefix@ + dec(start as nat) + "-L"@ + dec(end as nat));
    s
}

/// The type an entry has after merging a trailing entry of type `other`
/// whose value is `other_value`: a comment followed by non-empty code becomes code.
pub open spec fn merged_type(t: EntryType, other: EntryType, other_value: Seq<char>) -> EntryType {
    if t == EntryType::Comment && other == EntryType::Code && other_value.len() > 0 {
        EntryType::Code
    } else {
        t
    }
}

impl Entry {
    pub fn new(entry_type: EntryType, name: String, value: String) -> (r: Self)
        ensures
            r.entry_type == entry_type,
            r.name == name,
            r.value == value,
            r.line_number.is_none(),
            r.end_line.is_none(),
    {
        Entry { entry_type, name, value, line_number: None, end_line: None }
    }

    pub fn with_line_number(self, line_number: usize) -> (r: Self)
        ensures
            r == (Entry { line_number: Some(line_number), ..self }),
    {
        let mut s = self;
        s.line_number = Some(line_number);
        s
    }

    pub fn with_end_line(self, end_line: usize) -> (r: Self)
        ensures
            r == (Entry { end_line: Some(end_line), ..self }),
    {
        let mut s = self;
        s.end_line = Some(end_line);
        s
    }

    /// Merges `other`, which follows this entry, into it: the line range is
    /// extended to `other`'s end, the values are joined by a newline, a comment
    /// followed by non-empty code becomes code, and a comment or code entry
    /// whose range has both ends is renamed by the range (`#L..` for
    /// comments, `L..` for code); other entries keep their name.
    pub fn merge_trailing(&mut self, other: Entry)
        ensures
            final(self).end_line == (match other.end_line {
                Some(e) => Some(e),
                None => other.line_number,
            }),
            final(self).line_number == old(self).line_number,
            final(self).value@ == old(self).value@.push('\n') + other.value@,
            final(self).entry_type == merged_type(
                old(self).entry_type,
                other.entry_type,
                other.value@,
            ),
            (match (final(self).line_number, final(self).end_line) {
                (Some(s), Some(e)) => if final(self).entry_type == EntryType::Comment {
                    final(self).name@ == range_name("#L"@, s as nat, e as nat)
                } else if final(self).entry_type == EntryType::Code {
                    final(self).name@ == range_name("L"@, s as nat, e as nat)
                } else {
                    final(self).name == old(self).name
                },
                _ => final(self).name == old(self).name,
            }),
    {
        self.end_line = match other.end_line {
            Some(e) => Some(e),
            None => other.line_number,
        };
        string_push(&mut self.value, '\n');
        crate::text::push_str(&mut self.value, other.value.as_str());
        if self.entry_type == EntryType::Comment && other.entry_type == EntryType::Code
            && !other.value.as_str().is_empty() {
            self.entry_type = EntryType::Code;
        }
        proof {
            reveal_strlit("#L");
            reveal_strlit("L");
        }
        match (self.line_number, self.end_line) {
            (Some(start), Some(end)) => {
                if self.entry_type == EntryType::Comment {
                    self.name = make_range_name("#L", start, end);
                } else if self.entry_type == EntryType::Code {
                    self.name = make_range_name("L", start, end);
                }
            },
            _ => {},
        }
    }

    /// A blank line entry: code whose value is empty or whitespace only.
    pub fn is_blank(&self) -> (r: bool)
        ensures
            r == (self.entry_type == EntryType::Code && trim(self.value@).len() == 0),
    {
        if self.entry_type != EntryType::Code {
            return false;
        }
        let v = str_chars(self.value.as_str());
        let t = crate::text::trim_chars(v.as_slice());
        t.len() == 0
    }
}

/// The first entry of the given type and name.
pub fn find_entry<'a>(entries: &'a [Entry], entry_type: EntryType, name: &str) -> (r: Option<&'a Entry>)
    ensures
        match r {
            Some(e) => exists|i: int|
                0 <= i < entries@.len() && *e == entries@[i] && e.entry_type == entry_type
                    && e.name@ == name@ && forall|j: int|
                    0 <= j < i ==> !(entries@[j].entry_type == entry_type && entries@[j].name@
                        == name@),
            None => forall|j: int|
                0 <= j < entries@.len() ==> !(entries@[j].entry_type == entry_type
                    && #[trigger] entries@[j].name@ == name@),
        },
{
    let n = str_chars(name);
    let mut i: usize = 0;
    while i < entries.len()
        invariant
            i <= entries@.len(),
            n@ == name@,
            forall|j: int|
                0 <= j < i ==> !(entries@[j].entry_type == entry_type && #[trigger] entries@[j].name@
                    == name@),
        decreases entries@.len() - i,
    {
        let e = &entries[i];
        if e.entry_type == entry_type {
            let c = str_chars(e.name.as_str());
            if chars_eq(c.as_slice(), n.as_slice()) {
                return Some(e);
            }
        }
        i = i + 1;
    }
    None
}

/// Warning generated during parsing.
#[derive(Debug)]
pub struct ParseWarning {
    pub line_number: usize,
    pub message: String,
    pub raw_line: String,
}

impl ParseWarning {
    pub fn new(line_number: usize, message: &str, raw_line: &str) -> (r: Self)
        ensures
            r.line_number == line_number,
            r.message@ == message@,
            r.raw_line@ == raw_line@,
    {
        ParseWarning {
            line_number,
            message: string_from_str(message),
            raw_line: string_from_str(raw_line),
        }
    }
}

/// Parse result containing entries and warnings.
#[derive(Debug)]
pub struct ParseResult {
    pub entries: Vec<Entry>,
    pub warnings: Vec<ParseWarning>,
}

impl ParseResult {
    pub fn new() -> (r: Self)
        ensures
            r.entries@.len() == 0,
            r.warnings@.len() == 0,
    {
        ParseResult { entries: Vec::new(), warnings: Vec::new() }
    }

    pub fn add_entry(&mut self, entry: Entry)
        ensures
            final(self).entries@ == old(self).entries@.push(entry),
            final(self).warnings@ == old(self).warnings@,
    {
        self.entries.push(entry);
    }

    pub fn add_warning(&mut self, warning: ParseWarning)
        ensures
            final(self).warnings@ == old(self).warnings@.push(warning),
            final(self).entries@ == old(self).entries@,
    {
        self.warnings.push(warning);
    }
}

impl Default for ParseResult {
    fn default() -> (r: Self)
        ensures
            r.entries@.len() == 0,
            r.warnings@.len() == 0,
    {
        Self::new()
    }
}

} // verus!
