//! Parsing of single PowerShell lines into entries.
use vstd::prelude::*;

use crate::model::entry::{Entry, EntryType};
use crate::parser::bash::parsers::is_line_entry;
use crate::parser::builders::{code_part, extract_comment, strip_quotes, strip_quotes_spec};
use crate::parser::pending::BoundaryType;
use crate::parser::pwsh::patterns::{
    alias_re, alias_re_exec, alias_simple, alias_simple_exec, env_heredoc_start,
    env_heredoc_start_exec, env_re, env_re_exec, func_start, func_start_exec, source_re,
    source_re_exec,
};
use crate::parser::scan::{after_last, path_file_stem, plain_path, stem_of};
use crate::parser::ParseEvent;
use crate::text::{contains_seq, slice_range, str_chars, string_from_chars, string_from_str};

verus! {

/// The path of a source line, without comment and quotes.
pub open spec fn source_path(s: Seq<char>, m: int) -> Seq<char> {
    strip_quotes_spec(code_part(s.skip(m), '#'))
}

fn line_entry(t: EntryType, s: &[char], a: usize, b: usize, line: &str, line_num: usize) -> (r: ParseEvent)
    requires
        a <= b <= s@.len(),
    ensures
        is_line_entry(r, t, s@.subrange(a as int, b as int), line@, line_num),
{
    let name = string_from_chars(slice_range(s, a, b).as_slice());
    ParseEvent::Complete(Entry::new(t, name, string_from_str(line)).with_line_number(line_num))
}

/// Parses a line as an alias, `Set-Alias name target` or
/// `Set-Alias -Name name -Value value` (or `New-Alias`); the entry's value
/// is the whole line.
pub fn try_parse_alias(line: &str, line_num: usize) -> (r: ParseEvent)
    ensures
        match alias_simple(line@) {
            Some((a, b, _)) => is_line_entry(r, EntryType::Alias, line@.subrange(a, b), line@, line_num),
            None => match alias_re(line@) {
                Some((a, b, _)) => is_line_entry(r, EntryType::Alias, line@.subrange(a, b), line@, line_num),
                None => r matches ParseEvent::NoMatch,
            },
        },
{
    let s = str_chars(line);
    if let Some((a, b, _)) = alias_simple_exec(s.as_slice()) {
        return line_entry(EntryType::Alias, s.as_slice(), a, b, line, line_num);
    }
    if let Some((a, b, _)) = alias_re_exec(s.as_slice()) {
        return line_entry(EntryType::Alias, s.as_slice(), a, b, line, line_num);
    }
    ParseEvent::NoMatch
}

/// Parses a line as an environment variable: the start of a Here-String
/// (`$env:NAME = @"`) or a single-line `$env:NAME = value`; the entry's
/// value is the whole line.
pub fn try_parse_env(line: &str, line_num: usize) -> (r: ParseEvent)
    ensures
        match env_heredoc_start(line@) {
            Some(n) => r matches ParseEvent::Started { entry_type, name, boundary, first_line }
                && entry_type == EntryType::EnvVar && name@ == line@.subrange(5, n)
                && first_line@ == line@ && boundary == (BoundaryType::QuoteCounting {
                quote_count: 1,
            }),
            None => match env_re(line@) {
                Some((n, _)) => is_line_entry(r, EntryType::EnvVar, line@.subrange(5, n), line@, line_num),
                None => r matches ParseEvent::NoMatch,
            },
        },
{
    let s = str_chars(line);
    if let Some(n) = env_heredoc_start_exec(s.as_slice()) {
        let name = string_from_chars(slice_range(s.as_slice(), 5, n).as_slice());
        return ParseEvent::Started {
            entry_type: EntryType::EnvVar,
            name,
            boundary: BoundaryType::QuoteCounting { quote_count: 1 },
            first_line: string_from_str(line),
        };
    }
    if let Some((n, m)) = env_re_exec(s.as_slice()) {
        let value = string_from_chars(slice_range(s.as_slice(), m, s.len()).as_slice());
        assert(value@ =~= line@.skip(m as int));
        let (value_clean, _inline_comment) = extract_comment(value.as_str(), '#');
        let _value = strip_quotes(value_clean.as_str());
        return line_entry(EntryType::EnvVar, s.as_slice(), 5, n, line, line_num);
    }
    ParseEvent::NoMatch
}

/// Parses a line as a source statement, `. path.ps1`; the entry's name is
/// the file stem of the path (or the path), its value the whole line.
pub fn try_parse_source(line: &str, line_num: usize) -> (r: ParseEvent)
    ensures
        match source_re(line@) {
            Some(m) => r matches ParseEvent::Complete(en) && en.entry_type == EntryType::Source
                && contains_seq(source_path(line@, m), en.name@) && en.value@ == line@
                && en.line_number == Some(line_num) && en.end_line.is_none()
                && (plain_path(source_path(line@, m)) ==> en.name@ == stem_of(
                    after_last(source_path(line@, m), '/'),
                )),
            None => r matches ParseEvent::NoMatch,
        },
{
    let s = str_chars(line);
    if let Some(m) = source_re_exec(s.as_slice()) {
        let rest = string_from_chars(slice_range(s.as_slice(), m, s.len()).as_slice());
        assert(rest@ =~= line@.skip(m as int));
        let (path_clean, _inline_comment) = extract_comment(rest.as_str(), '#');
        let path = strip_quotes(path_clean.as_str());
        let name = match path_file_stem(path.as_str()) {
            Some(stem) => stem,
            None => {
                proof {
                    assert(path@.subrange(0, path@.len() as int) =~= path@);
                    assert(crate::text::occurs_at(path@, path@, 0));
                }
                path
            },
        };
        return ParseEvent::Complete(
            Entry::new(EntryType::Source, name, string_from_str(line)).with_line_number(line_num),
        );
    }
    ParseEvent::NoMatch
}

/// Detects a function definition start, `function Name {` or
/// `function Name($param) {`, and gives the name.
pub fn detect_function_start(line: &str) -> (r: Option<String>)
    ensures
        match func_start(line@) {
            Some((a, b)) => r matches Some(n) && n@ == line@.subrange(a, b),
            None => r.is_none(),
        },
{
    let s = str_chars(line);
    match func_start_exec(s.as_slice()) {
        Some((a, b)) => Some(string_from_chars(slice_range(s.as_slice(), a, b).as_slice())),
        None => None,
    }
}

/// A Here-String end marker: the line is exactly `"@`.
pub fn is_heredoc_end(line: &str) -> (r: bool)
    ensures
        r == (line@ == "\"@"@),
{
    let s = str_chars(line);
    crate::text::eq_str(s.as_slice(), "\"@")
}

} // verus!
