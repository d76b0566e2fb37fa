//! Writing entries back as configuration file text.
//!
//! An entry's value holds its complete raw text, so formatting writes the
//! values one after the other, a newline between two.
use vstd::prelude::*;

use std::collections::HashMap;

use crate::formatter::bash::BashFormatter;
use crate::formatter::pwsh::PowerShellFormatter;
use crate::model::config::Config;
use crate::model::entry::{Entry, EntryType};
use crate::model::shell::ShellType;
use crate::model::entry::ParseResult;
use crate::parser::layout::{
    covers_file, file_lines, lemma_tiles_text, parse_covers, piece_ok, pieces_of, values_text,
};
use crate::text::{join_with, lemma_join_split, split_on, trim};
use crate::text::{push_str, string_from_str, string_push};

pub mod bash;
pub mod indent;
pub mod pwsh;

verus! {

broadcast use vstd::std_specs::hash::group_hash_axioms;

/// A formatter of one shell's configuration files.
pub trait Formatter {
    /// Format entries into configuration file text.
    fn format(&self, entries: &[Entry], config: &Config) -> String;

    /// Format a single entry.
    fn format_entry(&self, entry: &Entry) -> String;

    /// The shell type this formatter handles.
    fn shell_type(&self) -> ShellType;
}

/// The values of the entries joined by newlines.
pub fn join_values(entries: &[Entry]) -> (r: String)
    ensures
        r@ == values_text(entries@),
{
    let ghost vs = entries@.map_values(|e: Entry| e.value@);
    let mut r = String::new();
    let mut i: usize = 0;
    while i < entries.len()
        invariant
            i <= entries@.len(),
            vs == entries@.map_values(|e: Entry| e.value@),
            r@ == crate::text::join_with(vs.take(i as int), '\n'),
        decreases entries@.len() - i,
    {
        if i > 0 {
            string_push(&mut r, '\n');
        }
        push_str(&mut r, entries[i].value.as_str());
        proof {
            assert(vs.take(i + 1).drop_last() =~= vs.take(i as int));
            assert(vs.take(i + 1).last() == entries@[i as int].value@);
            if i == 0 {
                assert(vs.take(1) =~= seq![entries@[0].value@]);
            }
        }
        i = i + 1;
    }
    assert(vs.take(i as int) =~= vs);
    r
}

/// The formatter of either shell.
pub enum ShellFormatter {
    Bash(BashFormatter),
    PowerShell(PowerShellFormatter),
}

impl ShellFormatter {
    /// The shell this formatter writes.
    pub open spec fn shell(&self) -> ShellType {
        match self {
            ShellFormatter::Bash(_) => ShellType::Bash,
            ShellFormatter::PowerShell(_) => ShellType::PowerShell,
        }
    }
}

impl Formatter for ShellFormatter {
    fn format(&self, entries: &[Entry], config: &Config) -> (r: String)
        ensures
            r@ == values_text(entries@),
    {
        match self {
            ShellFormatter::Bash(f) => f.format(entries, config),
            ShellFormatter::PowerShell(f) => f.format(entries, config),
        }
    }

    fn format_entry(&self, entry: &Entry) -> (r: String)
        ensures
            r@ == entry.value@,
    {
        match self {
            ShellFormatter::Bash(f) => f.format_entry(entry),
            ShellFormatter::PowerShell(f) => f.format_entry(entry),
        }
    }

    fn shell_type(&self) -> (r: ShellType)
        ensures
            r == self.shell(),
    {
        match self {
            ShellFormatter::Bash(f) => f.shell_type(),
            ShellFormatter::PowerShell(f) => f.shell_type(),
        }
    }
}

/// The formatter for a shell type.
pub fn get_formatter(shell_type: ShellType) -> (r: ShellFormatter)
    ensures
        r.shell() == shell_type,
{
    match shell_type {
        ShellType::Bash => ShellFormatter::Bash(BashFormatter::new()),
        ShellType::PowerShell => ShellFormatter::PowerShell(PowerShellFormatter::new()),
    }
}

// ---------------------------------------------------------------------------
// Parsing then formatting
// ---------------------------------------------------------------------------

/// Formatting the entries of a parse that left no warning gives back the
/// file's lines, each as it stood or trimmed, joined by newlines.
pub proof fn law_format_restores_lines(content: Seq<char>, r: ParseResult)
    requires
        parse_covers(content, r),
        r.warnings@.len() == 0,
    ensures
        exists|pieces: Seq<Seq<char>>|
            #[trigger] pieces_of(pieces, file_lines(content)) && values_text(r.entries@)
                == join_with(pieces, '\n'),
{
    let pieces = choose|pieces: Seq<Seq<char>>|
        #[trigger] pieces_of(pieces, file_lines(content)) && covers_file(r, pieces);
    lemma_tiles_text(r.entries@, pieces, pieces.len() as int);
    assert(pieces.take(pieces.len() as int) =~= pieces);
}

/// When no line of the file has leading or trailing whitespace, formatting
/// the entries of a parse that left no warning gives back the file's text,
/// less a final newline.
pub proof fn law_format_restores_file(content: Seq<char>, r: ParseResult)
    requires
        parse_covers(content, r),
        r.warnings@.len() == 0,
        forall|j: int|
            0 <= j < file_lines(content).len() ==> trim(#[trigger] file_lines(content)[j])
                == file_lines(content)[j],
    ensures
        values_text(r.entries@) == if content.len() > 0 && content.last() == '\n' {
            content.drop_last()
        } else {
            content
        },
{
    let lines = file_lines(content);
    let pieces = choose|pieces: Seq<Seq<char>>|
        #[trigger] pieces_of(pieces, file_lines(content)) && covers_file(r, pieces);
    lemma_tiles_text(r.entries@, pieces, pieces.len() as int);
    assert(pieces.take(pieces.len() as int) =~= pieces);
    assert(pieces =~= lines) by {
        assert forall|j: int| 0 <= j < lines.len() implies pieces[j] == lines[j] by {
            assert(piece_ok(pieces[j], lines[j]));
            assert(trim(lines[j]) == lines[j]);
        }
    }
    if content.len() > 0 && content.last() == '\n' {
        assert(content.drop_last().push('\n') =~= content);
        assert(split_on(content, '\n') == split_on(content.drop_last(), '\n').push(
            Seq::<char>::empty(),
        ));
        assert(split_on(content, '\n').drop_last() =~= split_on(content.drop_last(), '\n'));
        lemma_join_split(content.drop_last(), '\n');
    } else {
        lemma_join_split(content, '\n');
    }
}

// ---------------------------------------------------------------------------
// Comments attached to entries
// ---------------------------------------------------------------------------

/// The line an entry is sorted by: its line number, or 0.
pub open spec fn line_key(e: Entry) -> int {
    match e.line_number {
        Some(n) => n as int,
        None => 0,
    }
}

/// Number of entries of `s` whose line key is at most `k`.
pub open spec fn count_le(s: Seq<Entry>, k: int) -> nat
    decreases s.len(),
{
    if s.len() == 0 {
        0
    } else {
        count_le(s.drop_last(), k) + if line_key(s.last()) <= k {
            1nat
        } else {
            0nat
        }
    }
}

/// The entries sorted stably by line key: each entry goes after all
/// earlier ones whose key is not greater.
pub open spec fn sort_by_line(es: Seq<Entry>) -> Seq<Entry>
    decreases es.len(),
{
    if es.len() == 0 {
        es
    } else {
        let s = sort_by_line(es.drop_last());
        s.insert(count_le(s, line_key(es.last())) as int, es.last())
    }
}

pub proof fn lemma_sort_len(es: Seq<Entry>)
    ensures
        sort_by_line(es).len() == es.len(),
    decreases es.len(),
{
    if es.len() > 0 {
        lemma_sort_len(es.drop_last());
        lemma_count_le_bound(sort_by_line(es.drop_last()), line_key(es.last()));
    }
}

pub proof fn lemma_count_le_bound(s: Seq<Entry>, k: int)
    ensures
        count_le(s, k) <= s.len(),
    decreases s.len(),
{
    if s.len() > 0 {
        lemma_count_le_bound(s.drop_last(), k);
    }
}

/// The line of the entry that the comment at position `i` of `s` is
/// attached to: the next entry is neither a comment nor code and starts on
/// the line after the comment ends.
pub open spec fn attached_line(s: Seq<Entry>, i: int) -> Option<usize> {
    if 0 <= i && i + 1 < s.len() && s[i].entry_type == EntryType::Comment && s[i + 1].entry_type
        != EntryType::Comment && s[i + 1].entry_type != EntryType::Code && s[i].end_line is Some
        && s[i + 1].line_number is Some && s[i].end_line->0 + 1 == s[i + 1].line_number->0 {
        Some(s[i + 1].line_number->0)
    } else {
        None
    }
}

/// The comments among the first `m` entries of `s` attached to line `k`, in order.
pub open spec fn attached(s: Seq<Entry>, k: usize, m: int) -> Seq<Entry>
    decreases m,
{
    if m <= 0 {
        Seq::empty()
    } else {
        attached(s, k, m - 1) + if attached_line(s, m - 1) == Some(k) {
            seq![s[m - 1]]
        } else {
            Seq::empty()
        }
    }
}

/// Two entries hold the same data.
pub open spec fn same_entry(a: Entry, b: Entry) -> bool {
    &&& a.entry_type == b.entry_type
    &&& a.name@ == b.name@
    &&& a.value@ == b.value@
    &&& a.line_number == b.line_number
    &&& a.end_line == b.end_line
}

/// Two lists of entries hold the same data.
pub open spec fn same_entries(a: Seq<Entry>, b: Seq<Entry>) -> bool {
    a.len() == b.len() && forall|i: int| 0 <= i < a.len() ==> same_entry(#[trigger] a[i], b[i])
}

/// A copy of an entry.
pub fn copy_entry(e: &Entry) -> (r: Entry)
    ensures
        same_entry(r, *e),
{
    Entry {
        entry_type: e.entry_type,
        name: string_from_str(e.name.as_str()),
        value: string_from_str(e.value.as_str()),
        line_number: e.line_number,
        end_line: e.end_line,
    }
}

fn key_of(e: &Entry) -> (r: usize)
    ensures
        r == line_key(*e),
{
    match e.line_number {
        Some(n) => n,
        None => 0,
    }
}

/// The positions of the entries in stable line order.
fn sorted_positions(entries: &[Entry]) -> (r: Vec<usize>)
    ensures
        forall|t: int| 0 <= t < r@.len() ==> r@[t] < entries@.len(),
        r@.map_values(|j: usize| entries@[j as int]) == sort_by_line(entries@),
{
    let ghost es = entries@;
    let mut idx: Vec<usize> = Vec::new();
    let mut i: usize = 0;
    while i < entries.len()
        invariant
            i <= es.len(),
            es == entries@,
            forall|t: int| 0 <= t < idx@.len() ==> idx@[t] < i,
            idx@.map_values(|j: usize| es[j as int]) == sort_by_line(es.take(i as int)),
        decreases es.len() - i,
    {
        let ghost s = idx@.map_values(|j: usize| es[j as int]);
        let k = key_of(&entries[i]);
        let mut p: usize = 0;
        let mut j: usize = 0;
        while j < idx.len()
            invariant
                j <= idx@.len(),
                p <= j,
                forall|t: int| 0 <= t < idx@.len() ==> idx@[t] < i,
                i < es.len(),
                es == entries@,
                s == idx@.map_values(|j: usize| es[j as int]),
                p == count_le(s.take(j as int), k as int),
            decreases idx@.len() - j,
        {
            assert(s.take(j + 1).drop_last() =~= s.take(j as int));
            assert(s.take(j + 1).last() == es[idx@[j as int] as int]);
            if key_of(&entries[idx[j]]) <= k {
                p = p + 1;
            }
            j = j + 1;
        }
        assert(s.take(j as int) =~= s);
        let ghost old_idx = idx@;
        idx.insert(p, i);
        proof {
            assert(es.take(i + 1).drop_last() =~= es.take(i as int));
            assert(es.take(i + 1).last() == es[i as int]);
            assert(idx@.map_values(|j: usize| es[j as int]) =~= s.insert(p as int, es[i as int]));
        }
        i = i + 1;
    }
    assert(es.take(i as int) =~= es);
    idx
}

/// Find comments attached to entries (a comment immediately before an
/// alias, export, function or source, with the entries in line order);
/// maps each such entry's line number to its comments.
pub fn find_attached_comments(entries: &[Entry]) -> (r: HashMap<usize, Vec<Entry>>)
    ensures
        forall|k: usize|
            (#[trigger] r@.contains_key(k)) <==> attached(
                sort_by_line(entries@),
                k,
                entries@.len() as int,
            ).len() > 0,
        forall|k: usize|
            #[trigger] r@.contains_key(k) ==> same_entries(
                r@[k]@,
                attached(sort_by_line(entries@), k, entries@.len() as int),
            ),
{
    let ghost es = entries@;
    let pos = sorted_positions(entries);
    let ghost s = sort_by_line(es);
    proof {
        lemma_sort_len(es);
        assert(pos@.map_values(|j: usize| es[j as int]).len() == pos@.len());
    }
    let mut attached_comments: HashMap<usize, Vec<Entry>> = HashMap::new();
    let n = pos.len();
    let mut i: usize = 0;
    while i < n
        invariant
            n == pos@.len(),
            n == s.len(),
            s == sort_by_line(es),
            es == entries@,
            s == pos@.map_values(|j: usize| es[j as int]),
            forall|t: int| 0 <= t < pos@.len() ==> pos@[t] < es.len(),
            i <= n,
            forall|k: usize|
                (#[trigger] attached_comments@.contains_key(k)) <==> attached(s, k, i as int).len()
                    > 0,
            forall|k: usize|
                #[trigger] attached_comments@.contains_key(k) ==> same_entries(
                    attached_comments@[k]@,
                    attached(s, k, i as int),
                ),
        decreases n - i,
    {
        let entry = &entries[pos[i]];
        assert(*entry == s[i as int]);
        let mut hit: Option<usize> = None;
        if entry.entry_type == EntryType::Comment && i + 1 < n {
            let next_entry = &entries[pos[i + 1]];
            assert(*next_entry == s[i + 1]);
            if next_entry.entry_type != EntryType::Comment && next_entry.entry_type
                != EntryType::Code {
                match (entry.end_line, next_entry.line_number) {
                    (Some(comment_end), Some(next_line)) => {
                        if next_line > 0 && comment_end == next_line - 1 {
                            hit = Some(next_line);
                        }
                    },
                    _ => {},
                }
            }
        }
        assert(hit == attached_line(s, i as int));
        match hit {
            Some(k) => {
                let ghost before = attached_comments@;
                let mut v = match attached_comments.remove(&k) {
                    Some(v) => v,
                    None => Vec::new(),
                };
                v.push(copy_entry(entry));
                attached_comments.insert(k, v);
                proof {
                    assert forall|k2: usize| #[trigger]
                        attached_comments@.contains_key(k2) implies same_entries(
                        attached_comments@[k2]@,
                        attached(s, k2, i + 1),
                    ) by {
                        if k2 == k {
                            assert(attached(s, k2, i + 1) =~= attached(s, k2, i as int).push(
                                s[i as int],
                            ));
                        } else {
                            assert(attached(s, k2, i + 1) =~= attached(s, k2, i as int));
                        }
                    }
                    assert forall|k2: usize|
                        (#[trigger] attached_comments@.contains_key(k2)) <==> attached(
                            s,
                            k2,
                            i + 1,
                        ).len() > 0 by {
                        if k2 != k {
                            assert(attached(s, k2, i + 1) =~= attached(s, k2, i as int));
                        }
                    }
                }
            },
            None => {
                proof {
                    assert forall|k2: usize| true implies attached(s, k2, i + 1) =~= attached(
                        s,
                        k2,
                        i as int,
                    ) by {}
                }
            },
        }
        i = i + 1;
    }
    attached_comments
}

} // verus!
