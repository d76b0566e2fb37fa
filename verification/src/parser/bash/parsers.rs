//! Parsing of single Bash lines into entries.
use vstd::prelude::*;

use crate::model::entry::{Entry, EntryType};
use crate::parser::bash::patterns::{
    alias_double, alias_double_exec, alias_multiline_start, alias_multiline_start_exec,
    alias_noquote, alias_noquote_exec, alias_single, alias_single_exec, anon_func, anon_func_exec,
    export_multiline_start, export_multiline_start_exec, export_re, export_re_exec, func_keyword,
    func_keyword_exec, func_start, func_start_exec, source_re, source_re_exec,
};
use crate::parser::builders::{code_part, extract_comment, strip_quotes, strip_quotes_spec};
use crate::parser::builders::quoted::{single_quote_count, QuotedValueBuilder};
use crate::parser::pending::BoundaryType;
use crate::parser::scan::{after_last, path_file_stem, plain_path, stem_of};
use crate::parser::ParseEvent;
use crate::text::{contains_seq, count_char, count_char_chars, slice_range, str_chars, string_from_chars, string_from_str};

verus! {

/// Name range of a complete alias line (single-quoted, double-quoted, or
/// unquoted when it does not start a multi-line alias).
pub open spec fn alias_complete(s: Seq<char>) -> Option<(int, int)> {
    match alias_single(s) {
        Some((a, b, _, _)) => Some((a, b)),
        None => match alias_double(s) {
            Some((a, b, _, _)) => Some((a, b)),
            None => if alias_started(s).is_some() {
                None
            } else {
                match alias_noquote(s) {
                    Some((a, b, _, _)) => Some((a, b)),
                    None => None,
                }
            },
        },
    }
}

/// Name range of a line that starts a multi-line single-quoted alias.
pub open spec fn alias_started(s: Seq<char>) -> Option<(int, int)> {
    if alias_single(s).is_none() && alias_double(s).is_none() && single_quote_count(s) % 2 == 1 {
        alias_multiline_start(s)
    } else {
        None
    }
}

/// Name range of a line that starts a multi-line single-quoted export.
pub open spec fn export_started(s: Seq<char>) -> Option<(int, int)> {
    if single_quote_count(s) % 2 == 1 {
        export_multiline_start(s)
    } else {
        None
    }
}

/// The path of a source line, without comment and quotes.
pub open spec fn source_path(s: Seq<char>, j: int) -> Seq<char> {
    strip_quotes_spec(code_part(s.skip(j), '#'))
}

/// A complete single-line entry of the given type, name and value at line `n`.
pub open spec fn is_line_entry(r: ParseEvent, t: EntryType, name: Seq<char>, value: Seq<char>, n: usize) -> bool {
    r matches ParseEvent::Complete(en) && en.entry_type == t && en.name@ == name && en.value@ == value
        && en.line_number == Some(n) && en.end_line.is_none()
}

/// The first line of a multi-line quoted entry of the given type and name.
pub open spec fn is_quoted_start(r: ParseEvent, t: EntryType, name: Seq<char>, line: Seq<char>) -> bool {
    r matches ParseEvent::Started { entry_type, name: nm, boundary, first_line } && entry_type == t
        && nm@ == name && first_line@ == line && boundary == (BoundaryType::QuoteCounting {
        quote_count: count_char(line, '\'') as usize,
    })
}

fn line_entry(t: EntryType, s: &[char], a: usize, b: usize, line: &str, line_num: usize) -> (r: ParseEvent)
    requires
        a <= b <= s@.len(),
    ensures
        is_line_entry(r, t, s@.subrange(a as int, b as int), line@, line_num),
{
    let name = string_from_chars(slice_range(s, a, b).as_slice());
    ParseEvent::Complete(Entry::new(t, name, string_from_str(line)).with_line_number(line_num))
}

fn quoted_start(t: EntryType, s: &[char], a: usize, b: usize, line: &str) -> (r: ParseEvent)
    requires
        a <= b <= s@.len(),
        s@ == line@,
    ensures
        is_quoted_start(r, t, s@.subrange(a as int, b as int), line@),
{
    let name = string_from_chars(slice_range(s, a, b).as_slice());
    let quote_count = count_char_chars(s, '\'');
    ParseEvent::Started {
        entry_type: t,
        name,
        boundary: BoundaryType::QuoteCounting { quote_count },
        first_line: string_from_str(line),
    }
}

/// Parses a line as an alias: a complete single- or double-quoted alias, the
/// start of a multi-line single-quoted alias, or a complete unquoted alias.
/// The entry's value is the whole line.
pub fn try_parse_alias(line: &str, line_num: usize) -> (r: ParseEvent)
    ensures
        match alias_complete(line@) {
            Some((a, b)) => is_line_entry(r, EntryType::Alias, line@.subrange(a, b), line@, line_num),
            None => match alias_started(line@) {
                Some((a, b)) => is_quoted_start(r, EntryType::Alias, line@.subrange(a, b), line@),
                None => r matches ParseEvent::NoMatch,
            },
        },
{
    let s = str_chars(line);
    if let Some((a, b, _, _)) = alias_single_exec(s.as_slice()) {
        return line_entry(EntryType::Alias, s.as_slice(), a, b, line, line_num);
    }
    if let Some((a, b, _, _)) = alias_double_exec(s.as_slice()) {
        return line_entry(EntryType::Alias, s.as_slice(), a, b, line, line_num);
    }
    if let Some((a, b)) = alias_multiline_start_exec(s.as_slice()) {
        if QuotedValueBuilder::has_unclosed_single_quote(line) {
            return quoted_start(EntryType::Alias, s.as_slice(), a, b, line);
        }
    }
    if let Some((a, b, _, _)) = alias_noquote_exec(s.as_slice()) {
        return line_entry(EntryType::Alias, s.as_slice(), a, b, line, line_num);
    }
    ParseEvent::NoMatch
}

/// Parses a line as an export: the start of a multi-line single-quoted
/// export, or a complete export. The entry's value is the whole line.
pub fn try_parse_env(line: &str, line_num: usize) -> (r: ParseEvent)
    ensures
        match export_started(line@) {
            Some((a, b)) => is_quoted_start(r, EntryType::EnvVar, line@.subrange(a, b), line@),
            None => match export_re(line@) {
                Some((a, b, _)) => is_line_entry(r, EntryType::EnvVar, line@.subrange(a, b), line@, line_num),
                None => r matches ParseEvent::NoMatch,
            },
        },
{
    let s = str_chars(line);
    if let Some((a, b)) = export_multiline_start_exec(s.as_slice()) {
        if QuotedValueBuilder::has_unclosed_single_quote(line) {
            return quoted_start(EntryType::EnvVar, s.as_slice(), a, b, line);
        }
    }
    if let Some((a, b, v)) = export_re_exec(s.as_slice()) {
        let value = string_from_chars(slice_range(s.as_slice(), v, s.len()).as_slice());
        assert(value@ =~= line@.skip(v as int));
        let (value_clean, _inline_comment) = extract_comment(value.as_str(), '#');
        let _value = strip_quotes(value_clean.as_str());
        return line_entry(EntryType::EnvVar, s.as_slice(), a, b, line, line_num);
    }
    ParseEvent::NoMatch
}

/// Parses a line as a source statement (`source file` or `. file`); the
/// entry's name is the file stem of the path (or the path), its value the line.
pub fn try_parse_source(line: &str, line_num: usize) -> (r: ParseEvent)
    ensures
        match source_re(line@) {
            Some(j) => r matches ParseEvent::Complete(en) && en.entry_type == EntryType::Source
                && contains_seq(source_path(line@, j), en.name@) && en.value@ == line@
                && en.line_number == Some(line_num) && en.end_line.is_none()
                && (plain_path(source_path(line@, j)) ==> en.name@ == stem_of(
                    after_last(source_path(line@, j), '/'),
                )),
            None => r matches ParseEvent::NoMatch,
        },
{
    let s = str_chars(line);
    if let Some(j) = source_re_exec(s.as_slice()) {
        let rest = string_from_chars(slice_range(s.as_slice(), j, s.len()).as_slice());
        assert(rest@ =~= line@.skip(j as int));
        let (path_clean, _inline_comment) = extract_comment(rest.as_str(), '#');
        let path = strip_quotes(path_clean.as_str());
        let name = match path_file_stem(path.as_str()) {
            Some(stem) => stem,
            None => {
                proof {
                    assert(path@.subrange(0, path@.len() as int) =~= path@);
                    assert(crate::text::occurs_at(path@, path@, 0));
                }
                path
            },
        };
        return ParseEvent::Complete(
            Entry::new(EntryType::Source, name, string_from_str(line)).with_line_number(line_num),
        );
    }
    ParseEvent::NoMatch
}

/// The name of the function a line starts, and whether it is anonymous.
pub open spec fn function_start(s: Seq<char>) -> Option<(Seq<char>, bool)> {
    match func_start(s) {
        Some((a, b)) => Some((s.subrange(a, b), false)),
        None => match func_keyword(s) {
            Some((a, b)) => Some((s.subrange(a, b), false)),
            None => if anon_func(s) {
                Some((Seq::<char>::empty(), true))
            } else {
                None
            },
        },
    }
}

/// Detects a function definition start: `name() {`, `function name() {`,
/// `function name {`, or the anonymous `() {` (empty name).
pub fn detect_function_start(line: &str) -> (r: Option<(String, bool)>)
    ensures
        match function_start(line@) {
            Some((n, anon)) => r matches Some((m, a)) && m@ == n && a == anon,
            None => r.is_none(),
        },
{
    let s = str_chars(line);
    if let Some((a, b)) = func_start_exec(s.as_slice()) {
        return Some((string_from_chars(slice_range(s.as_slice(), a, b).as_slice()), false));
    }
    if let Some((a, b)) = func_keyword_exec(s.as_slice()) {
        return Some((string_from_chars(slice_range(s.as_slice(), a, b).as_slice()), false));
    }
    if anon_func_exec(s.as_slice()) {
        return Some((String::new(), true));
    }
    None
}

} // verus!
