//! PowerShell profile parser.
//!
//! The same state machine as for Bash, with PowerShell's grammars: functions
//! are counted by braces, `$env:` Here-Strings run to a `"@` line, control
//! structures by keywords; comments, blank lines and code are merged in a
//! pending block. Structured entries stand on their own: nothing merges
//! into them and they absorb no blank lines.
pub mod control;
pub mod parsers;
pub mod patterns;

use vstd::prelude::*;

use crate::parser::scan::{after_last, plain_path, stem_of};

use crate::model::entry::{code_name, comment_name, Entry, EntryType, ParseResult, ParseWarning};
use crate::model::shell::ShellType;
use crate::parser::bash::block_type;
use crate::parser::builders::comment::{views, CommentBlockBuilder};
use crate::parser::builders::{count_braces_outside_quotes, count_outside_quotes, lemma_count_outside_bound};
use crate::parser::layout::{
    block_covers, file_lines, lemma_block_add_line, lemma_block_stable, lemma_file_lines_size,
    lemma_flush_tiles, lemma_lines_size_prefix, lemma_lines_size_step, lemma_ready_stable,
    lemma_span_single, lemma_tiles_push, lemma_tiles_stable, lines_size, parse_covers, piece_ok,
    pieces_of, ready, split_file_lines, tiles,
};
use crate::parser::pending::{
    absorbs_blank, absorbs_comment, i32_saturating_sub, one_line, sat_sub, sat_sub_i32, BoundaryType,
    MergeType, PendingBlock,
};
use crate::parser::pending::is_structured;
use crate::parser::pwsh::control::{
    control_end_count, control_start_count, count_control_end, count_control_start,
};
use crate::parser::pwsh::parsers::{
    detect_function_start, is_heredoc_end, source_path, try_parse_alias, try_parse_env,
    try_parse_source,
};
use crate::parser::pwsh::patterns::{alias_re, alias_simple, env_heredoc_start, env_re, func_start, source_re};
use crate::parser::{ParseEvent, Parser};
use crate::text::{
    contains_seq, has_char, join_lines, join_with, lemma_trim_idempotent, lemma_trim_len, str_chars,
    string_from_chars, string_from_str, trim, trim_chars,
};
use crate::model::entry::make_range_name;

verus! {

/// PowerShell configuration file parser.
pub struct PowerShellParser;

/// The name of the entry built from a finished block.
pub open spec fn pwsh_block_name(b: PendingBlock) -> Seq<char> {
    let s = b.start_line as nat;
    let e = b.end_line as nat;
    match block_type(b) {
        EntryType::Function => match b.name {
            Some(n) => n@,
            None => "anonymous"@,
        },
        EntryType::EnvVar => match b.name {
            Some(n) => n@,
            None => "UNKNOWN"@,
        },
        EntryType::Comment => comment_name(s, e),
        EntryType::Code => code_name(s, e),
        _ => "unknown"@,
    }
}

/// `e` is the entry built from the finished block `b`.
pub open spec fn pwsh_built_from(e: Entry, b: PendingBlock) -> bool {
    &&& e.entry_type == block_type(b)
    &&& e.name@ == pwsh_block_name(b)
    &&& e.value@ == b.content()
    &&& e.line_number == Some(b.start_line)
    &&& e.end_line == Some(b.end_line)
}

// ---------------------------------------------------------------------------
// Names of structured entries, and structured lines kept as such
// ---------------------------------------------------------------------------

/// The (trimmed) line names a structured entry of type `t` called `name`: the
/// line's alias, `$env:` or function pattern gives the name, or the line's
/// source path contains it.
pub open spec fn pwsh_named_by(t: EntryType, name: Seq<char>, line: Seq<char>) -> bool {
    match t {
        EntryType::Alias => {
            ||| (alias_simple(line) matches Some((a, b, _)) && name == line.subrange(a, b))
            ||| (alias_re(line) matches Some((a, b, _)) && name == line.subrange(a, b))
        },
        EntryType::EnvVar => {
            ||| (env_heredoc_start(line) matches Some(n) && name == line.subrange(5, n))
            ||| (env_re(line) matches Some((n, _)) && name == line.subrange(5, n))
        },
        EntryType::Source => source_re(line) matches Some(m) && contains_seq(source_path(line, m), name) && (
        plain_path(source_path(line, m)) ==> name == stem_of(after_last(source_path(line, m), '/'))),
        EntryType::Function => func_start(line) matches Some((a, b)) && name == line.subrange(a, b),
        _ => true,
    }
}

/// A structured entry or block of type `t` called `name`, over the lines
/// `lo+1 ..= hi`, is named by one of those lines.
pub open spec fn pwsh_named_within(
    t: EntryType,
    name: Seq<char>,
    lo: int,
    hi: int,
    pieces: Seq<Seq<char>>,
) -> bool {
    is_structured(Some(t)) ==> exists|j: int|
        0 <= j < pieces.len() && lo <= j < hi && #[trigger] pwsh_named_by(t, name, trim(pieces[j]))
}

/// The last line of an entry.
pub open spec fn pwsh_entry_end(e: Entry) -> int {
    match e.end_line {
        Some(x) => x as int,
        None => e.line_number->0 as int,
    }
}

/// Comment and code entries are named by their lines: `#L{s}` or
/// `#L{s}-L{e}` for comments, `L{s}` or `L{s}-L{e}` for code.
pub open spec fn pwsh_span_named(e: Entry) -> bool {
    let s = e.line_number->0 as nat;
    let t = pwsh_entry_end(e) as nat;
    match e.entry_type {
        EntryType::Comment => e.name@ == comment_name(s, t),
        EntryType::Code => e.name@ == code_name(s, t),
        _ => true,
    }
}

/// Every entry is named by one of its lines, or, for comments and code, by
/// its line range.
pub open spec fn pwsh_all_named(es: Seq<Entry>, pieces: Seq<Seq<char>>) -> bool {
    forall|k: int|
        0 <= k < es.len() ==> pwsh_named_within(
            (#[trigger] es[k]).entry_type,
            es[k].name@,
            es[k].line_number->0 - 1,
            pwsh_entry_end(es[k]),
            pieces,
        ) && pwsh_span_named(es[k])
}

/// A source entry of a parse is named after the file it sources: one of its
/// lines is a `. path.ps1` line whose path contains the name, and
/// when that path is a plain one the name is the stem of its last component.
pub proof fn law_pwsh_source_named_by_stem(es: Seq<Entry>, lines: Seq<Seq<char>>)
    requires
        pwsh_all_named(es, lines),
    ensures
        forall|k: int|
            0 <= k < es.len() && (#[trigger] es[k]).entry_type == EntryType::Source ==> exists|j: int|
                0 <= j < lines.len() && es[k].line_number->0 - 1 <= j < pwsh_entry_end(es[k]) && (source_re(
                    #[trigger] trim(lines[j]),
                ) matches Some(m) && contains_seq(source_path(trim(lines[j]), m), es[k].name@) && (plain_path(
                    source_path(trim(lines[j]), m),
                ) ==> es[k].name@ == stem_of(after_last(source_path(trim(lines[j]), m), '/')))),
{
    assert forall|k: int| 0 <= k < es.len() && (#[trigger] es[k]).entry_type == EntryType::Source implies exists|j: int|
        0 <= j < lines.len() && es[k].line_number->0 - 1 <= j < pwsh_entry_end(es[k]) && (source_re(
            #[trigger] trim(lines[j]),
        ) matches Some(m) && contains_seq(source_path(trim(lines[j]), m), es[k].name@) && (plain_path(
            source_path(trim(lines[j]), m),
        ) ==> es[k].name@ == stem_of(after_last(source_path(trim(lines[j]), m), '/')))) by {
        let j = choose|j: int|
            0 <= j < lines.len() && es[k].line_number->0 - 1 <= j < pwsh_entry_end(es[k]) && #[trigger] pwsh_named_by(
                EntryType::Source,
                es[k].name@,
                trim(lines[j]),
            );
        assert(pwsh_named_by(EntryType::Source, es[k].name@, trim(lines[j])));
    }
}

/// A block, if any, is named by one of its lines, under the name of the
/// entry it makes.
pub open spec fn pwsh_opt_named(o: Option<PendingBlock>, pieces: Seq<Seq<char>>) -> bool {
    match o {
        Some(b) => pwsh_named_within(
            block_type(b),
            pwsh_block_name(b),
            b.start_line - 1,
            b.end_line as int,
            pieces,
        ),
        None => true,
    }
}

/// A (trimmed) line that, outside a multi-line block, gives a structured
/// entry: not blank, not a comment, opening no control structure, and
/// matching the alias, `$env:`, source or function patterns.
pub open spec fn pwsh_structured_line(t: Seq<char>) -> bool {
    &&& t.len() > 0
    &&& t[0] != '#'
    &&& control_start_count(t) == 0
    &&& {
        ||| alias_simple(t).is_some()
        ||| alias_re(t).is_some()
        ||| env_heredoc_start(t).is_some()
        ||| env_re(t).is_some()
        ||| source_re(t).is_some()
        ||| func_start(t).is_some()
    }
}

/// Over the lines `lo+1 ..= hi` of an entry or block of type `t`: the
/// entry is structured, or each structured line in it comes after a line of
/// it that opens a control structure.
pub open spec fn pwsh_lines_kept(t: EntryType, lo: int, hi: int, pieces: Seq<Seq<char>>) -> bool {
    is_structured(Some(t)) || forall|j: int|
        0 <= j < pieces.len() && lo <= j < hi && #[trigger] pwsh_structured_line(trim(pieces[j]))
            ==> exists|k: int| 0 <= k && lo <= k <= j && #[trigger] control_start_count(trim(pieces[k])) > 0
}

/// Every entry keeps its structured lines.
pub open spec fn pwsh_all_kept(es: Seq<Entry>, pieces: Seq<Seq<char>>) -> bool {
    forall|k: int|
        0 <= k < es.len() ==> pwsh_lines_kept(
            (#[trigger] es[k]).entry_type,
            es[k].line_number->0 - 1,
            pwsh_entry_end(es[k]),
            pieces,
        )
}

/// A block, if any, keeps its structured lines.
pub open spec fn pwsh_opt_kept(o: Option<PendingBlock>, pieces: Seq<Seq<char>>) -> bool {
    match o {
        Some(b) => pwsh_lines_kept(block_type(b), b.start_line - 1, b.end_line as int, pieces),
        None => true,
    }
}

/// A (trimmed) line that begins a multi-line block of type `t`: a function
/// definition, an `$env:` Here-String, or, for code, a control structure.
pub open spec fn pwsh_starts(t: EntryType, line: Seq<char>) -> bool {
    match t {
        EntryType::Function => func_start(line).is_some(),
        EntryType::EnvVar => env_heredoc_start(line).is_some(),
        _ => control_start_count(line) > 0,
    }
}

/// The end-of-file warning `m` names the kind of block that the (trimmed)
/// line begins.
pub open spec fn pwsh_warned(m: Seq<char>, line: Seq<char>) -> bool {
    ||| m == "Unclosed function definition at end of file"@ && pwsh_starts(EntryType::Function, line)
    ||| m == "Unclosed environment variable Here-String at end of file"@ && pwsh_starts(
        EntryType::EnvVar,
        line,
    )
    ||| m == "Unclosed block at end of file"@ && control_start_count(line) > 0
}

/// An active block, if any, is structured or has a line opening a control
/// structure, and has a line beginning a block of its type.
pub open spec fn pwsh_opt_opened(o: Option<PendingBlock>, pieces: Seq<Seq<char>>) -> bool {
    match o {
        Some(b) => {
            &&& is_structured(Some(block_type(b))) || exists|k: int|
                0 <= k < pieces.len() && b.start_line - 1 <= k < b.end_line && #[trigger] control_start_count(
                    trim(pieces[k]),
                ) > 0
            &&& exists|k: int|
                0 <= k < pieces.len() && b.start_line - 1 <= k < b.end_line && #[trigger] pwsh_starts(
                    block_type(b),
                    trim(pieces[k]),
                )
        },
        None => true,
    }
}

/// A name stays given by a line of a span that widens, over lines that grow.
proof fn lemma_pwsh_named_widen(
    t: EntryType,
    name: Seq<char>,
    lo: int,
    hi: int,
    lo2: int,
    hi2: int,
    pieces: Seq<Seq<char>>,
    pieces2: Seq<Seq<char>>,
)
    requires
        pwsh_named_within(t, name, lo, hi, pieces),
        lo2 <= lo,
        hi <= hi2,
        hi <= pieces.len() <= pieces2.len(),
        forall|k: int| 0 <= k < pieces.len() ==> #[trigger] pieces2[k] == pieces[k],
    ensures
        pwsh_named_within(t, name, lo2, hi2, pieces2),
{
    if is_structured(Some(t)) {
        let j = choose|j: int|
            0 <= j < pieces.len() && lo <= j < hi && #[trigger] pwsh_named_by(t, name, trim(pieces[j]));
        assert(pieces2[j] == pieces[j]);
    }
}

/// Kept lines over a span stay kept over lines that grow.
proof fn lemma_pwsh_kept_push(t: EntryType, lo: int, hi: int, pieces: Seq<Seq<char>>, x: Seq<char>)
    requires
        pwsh_lines_kept(t, lo, hi, pieces),
        hi <= pieces.len(),
    ensures
        pwsh_lines_kept(t, lo, hi, pieces.push(x)),
{
    let p2 = pieces.push(x);
    if !is_structured(Some(t)) {
        assert forall|j: int|
            0 <= j < p2.len() && lo <= j < hi && #[trigger] pwsh_structured_line(trim(p2[j])) implies exists|k: int|
                0 <= k && lo <= k <= j && #[trigger] control_start_count(trim(p2[k])) > 0 by {
            assert(p2[j] == pieces[j]);
            let k = choose|k: int| 0 <= k && lo <= k <= j && #[trigger] control_start_count(trim(pieces[k])) > 0;
            assert(p2[k] == pieces[k]);
        }
    }
}

/// A span that keeps its lines takes one more line at its end, when the new
/// type is structured, or the old type is not and the new line is not
/// structured or comes after an opening line.
proof fn lemma_pwsh_kept_grow(
    t_old: EntryType,
    t_new: EntryType,
    lo: int,
    pieces: Seq<Seq<char>>,
    x: Seq<char>,
)
    requires
        pwsh_lines_kept(t_old, lo, pieces.len() as int, pieces),
        is_structured(Some(t_new)) || (!is_structured(Some(t_old)) && (!pwsh_structured_line(trim(x))
            || exists|k: int|
            0 <= k && lo <= k <= pieces.len() && #[trigger] control_start_count(trim(pieces.push(x)[k])) > 0)),
    ensures
        pwsh_lines_kept(t_new, lo, pieces.len() + 1int, pieces.push(x)),
{
    let p2 = pieces.push(x);
    let i = pieces.len() as int;
    if !is_structured(Some(t_new)) {
        assert forall|j: int|
            0 <= j < p2.len() && lo <= j < i + 1 && #[trigger] pwsh_structured_line(trim(p2[j])) implies exists|k: int|
                0 <= k && lo <= k <= j && #[trigger] control_start_count(trim(p2[k])) > 0 by {
            if j < i {
                assert(p2[j] == pieces[j]);
                let k = choose|k: int| 0 <= k && lo <= k <= j && #[trigger] control_start_count(trim(pieces[k])) > 0;
                assert(p2[k] == pieces[k]);
            } else {
                assert(p2[j] == x);
            }
        }
    }
}

/// Named and kept entries that tile the first `k` lines stay so as lines
/// are added.
proof fn lemma_pwsh_entries_push(es: Seq<Entry>, pieces: Seq<Seq<char>>, x: Seq<char>, k: int)
    requires
        tiles(es, pieces, k),
        pwsh_all_named(es, pieces),
        pwsh_all_kept(es, pieces),
    ensures
        pwsh_all_named(es, pieces.push(x)),
        pwsh_all_kept(es, pieces.push(x)),
    decreases es.len(),
{
    if es.len() > 0 {
        let d = es.drop_last();
        let e = es.last();
        let lo = e.line_number.unwrap() - 1;
        assert forall|k2: int| 0 <= k2 < d.len() implies #[trigger] d[k2] == es[k2] by {}
        lemma_pwsh_entries_push(d, pieces, x, lo);
        lemma_pwsh_named_widen(e.entry_type, e.name@, lo, k, lo, k, pieces, pieces.push(x));
        lemma_pwsh_kept_push(e.entry_type, lo, k, pieces, x);
        assert forall|k2: int| 0 <= k2 < es.len() implies pwsh_named_within(
            (#[trigger] es[k2]).entry_type,
            es[k2].name@,
            es[k2].line_number->0 - 1,
            pwsh_entry_end(es[k2]),
            pieces.push(x),
        ) && pwsh_lines_kept(
            es[k2].entry_type,
            es[k2].line_number->0 - 1,
            pwsh_entry_end(es[k2]),
            pieces.push(x),
        ) by {
            if k2 < d.len() {
                assert(es[k2] == d[k2]);
            }
        }
    }
}

/// Entries and a pending block lying before line `i + 1` stay named and
/// kept when the line is added.
proof fn lemma_pwsh_state_push(
    entries: Seq<Entry>,
    pending: Option<PendingBlock>,
    pieces: Seq<Seq<char>>,
    x: Seq<char>,
    i: int,
)
    requires
        ready(entries, pending, pieces, i),
        pwsh_all_named(entries, pieces),
        pwsh_all_kept(entries, pieces),
        pwsh_opt_named(pending, pieces),
        pwsh_opt_kept(pending, pieces),
    ensures
        pwsh_all_named(entries, pieces.push(x)),
        pwsh_all_kept(entries, pieces.push(x)),
        pwsh_opt_named(pending, pieces.push(x)),
        pwsh_opt_kept(pending, pieces.push(x)),
{
    match pending {
        Some(p) => {
            lemma_pwsh_entries_push(entries, pieces, x, p.start_line - 1);
            lemma_pwsh_named_widen(
                block_type(p),
                pwsh_block_name(p),
                p.start_line - 1,
                i,
                p.start_line - 1,
                i,
                pieces,
                pieces.push(x),
            );
            lemma_pwsh_kept_push(block_type(p), p.start_line - 1, i, pieces, x);
        },
        None => {
            lemma_pwsh_entries_push(entries, pieces, x, i);
        },
    }
}

/// Adding a named and kept entry keeps every entry so.
proof fn lemma_pwsh_entries_add(es: Seq<Entry>, e: Entry, pieces: Seq<Seq<char>>)
    requires
        pwsh_all_named(es, pieces),
        pwsh_all_kept(es, pieces),
        pwsh_named_within(e.entry_type, e.name@, e.line_number->0 - 1, pwsh_entry_end(e), pieces),
        pwsh_lines_kept(e.entry_type, e.line_number->0 - 1, pwsh_entry_end(e), pieces),
        pwsh_span_named(e),
    ensures
        pwsh_all_named(es.push(e), pieces),
        pwsh_all_kept(es.push(e), pieces),
{
    assert forall|k: int| 0 <= k < es.push(e).len() implies pwsh_named_within(
        (#[trigger] es.push(e)[k]).entry_type,
        es.push(e)[k].name@,
        es.push(e)[k].line_number->0 - 1,
        pwsh_entry_end(es.push(e)[k]),
        pieces,
    ) && pwsh_span_named(es.push(e)[k]) && pwsh_lines_kept(
        es.push(e)[k].entry_type,
        es.push(e)[k].line_number->0 - 1,
        pwsh_entry_end(es.push(e)[k]),
        pieces,
    ) by {
        if k < es.len() {
            assert(es.push(e)[k] == es[k]);
        }
    }
}

/// Writing out a named and kept block keeps every entry so.
proof fn lemma_pwsh_flush(entries: Seq<Entry>, b: PendingBlock, e: Entry, pieces: Seq<Seq<char>>)
    requires
        pwsh_all_named(entries, pieces),
        pwsh_all_kept(entries, pieces),
        pwsh_opt_named(Some(b), pieces),
        pwsh_opt_kept(Some(b), pieces),
        pwsh_built_from(e, b),
    ensures
        pwsh_all_named(entries.push(e), pieces),
        pwsh_all_kept(entries.push(e), pieces),
{
    lemma_pwsh_entries_add(entries, e, pieces);
}

/// What holds over the kept pieces holds over the lines themselves.
proof fn lemma_pwsh_entries_lines(es: Seq<Entry>, pieces: Seq<Seq<char>>, lines: Seq<Seq<char>>)
    requires
        pieces_of(pieces, lines),
        pwsh_all_named(es, pieces),
        pwsh_all_kept(es, pieces),
    ensures
        pwsh_all_named(es, lines),
        pwsh_all_kept(es, lines),
{
    assert forall|j: int| 0 <= j < lines.len() implies #[trigger] trim(pieces[j]) == trim(lines[j]) by {
        assert(piece_ok(pieces[j], lines[j]));
        lemma_trim_idempotent(lines[j]);
    }
    assert forall|k: int| 0 <= k < es.len() implies pwsh_named_within(
        (#[trigger] es[k]).entry_type,
        es[k].name@,
        es[k].line_number->0 - 1,
        pwsh_entry_end(es[k]),
        lines,
    ) && pwsh_lines_kept(es[k].entry_type, es[k].line_number->0 - 1, pwsh_entry_end(es[k]), lines) by {
        let e = es[k];
        let lo = e.line_number->0 - 1;
        let hi = pwsh_entry_end(e);
        if is_structured(Some(e.entry_type)) {
            let j = choose|j: int|
                0 <= j < pieces.len() && lo <= j < hi && #[trigger] pwsh_named_by(
                    e.entry_type,
                    e.name@,
                    trim(pieces[j]),
                );
            assert(trim(pieces[j]) == trim(lines[j]));
        } else {
            assert forall|j: int|
                0 <= j < lines.len() && lo <= j < hi && #[trigger] pwsh_structured_line(trim(lines[j])) implies exists|k2: int|
                    0 <= k2 && lo <= k2 <= j && #[trigger] control_start_count(trim(lines[k2])) > 0 by {
                assert(trim(pieces[j]) == trim(lines[j]));
                let k2 = choose|k2: int| 0 <= k2 && lo <= k2 <= j && #[trigger] control_start_count(trim(pieces[k2])) > 0;
                assert(trim(pieces[k2]) == trim(lines[k2]));
            }
        }
    }
}

/// The lines of a Here-String between its first (start marker) and last
/// (end marker) lines; none when it has fewer than three lines.
pub open spec fn heredoc_inner(lines: Seq<String>) -> Seq<String> {
    if lines.len() >= 3 {
        lines.subrange(1, lines.len() - 1)
    } else {
        Seq::empty()
    }
}

/// The state of the parse after the lines kept by `pieces`; `bound` is their size.
pub open spec fn pwsh_scan_inv(
    entries: Seq<Entry>,
    active: Option<PendingBlock>,
    pending: Option<PendingBlock>,
    control_depth: usize,
    pieces: Seq<Seq<char>>,
    bound: int,
) -> bool {
    let i = pieces.len() as int;
    &&& i <= bound
    &&& pwsh_all_named(entries, pieces)
    &&& pwsh_all_kept(entries, pieces)
    &&& pwsh_opt_named(active, pieces)
    &&& pwsh_opt_named(pending, pieces)
    &&& pwsh_opt_kept(active, pieces)
    &&& pwsh_opt_kept(pending, pieces)
    &&& pwsh_opt_opened(active, pieces)
    &&& pwsh_all_free(entries, pieces)
    &&& pwsh_opt_free(active, pieces)
    &&& pwsh_opt_free(pending, pieces)
    &&& pwsh_pend_after(pieces) == pwsh_pend_kind(pending)
    &&& pending matches Some(p) ==> {
        &&& p.entry_hint == Some(EntryType::Comment) || p.entry_hint == Some(EntryType::Code)
        &&& p.boundary is AdjacentMerging
        &&& (p.entry_hint == Some(EntryType::Comment) <==> p.boundary == (BoundaryType::AdjacentMerging {
            merge_type: MergeType::Comment,
        }))
    }
    &&& match active {
        Some(a) => {
            &&& pending.is_none()
            &&& a.start_line >= 1
            &&& tiles(entries, pieces, a.start_line - 1)
            &&& block_covers(a, pieces, a.start_line - 1, i)
            &&& a.boundary matches BoundaryType::BraceCounting { brace_count } ==> brace_count
                <= bound
            &&& !(a.boundary is KeywordTracking) ==> control_depth == 0
            &&& a.boundary is KeywordTracking ==> a.entry_hint == Some(EntryType::Code)
            &&& !(a.boundary is KeywordTracking) ==> is_structured(a.entry_hint)
        },
        None => control_depth == 0 && ready(entries, pending, pieces, i),
    }
}

/// The block that a line outside any block opens, and how it is counted
/// towards its end: a control structure by keyword depth; an `$env:`
/// Here-String by its end marker; a function whose braces do not close on
/// its line by braces. Blank, comment, alias, single-line `$env:`, source
/// and other lines open none.
pub open spec fn pwsh_free_open(line: Seq<char>) -> Option<BoundaryType> {
    let t = trim(line);
    let braces = sat_sub_i32(
        count_outside_quotes(t, '{') as i32 as int,
        count_outside_quotes(t, '}') as i32 as int,
    );
    if control_start_count(t) > 0 {
        Some(BoundaryType::KeywordTracking { depth: control_start_count(t) as usize })
    } else if t.len() == 0 || t[0] == '#' {
        None
    } else if alias_simple(t).is_some() || alias_re(t).is_some() {
        None
    } else if env_heredoc_start(t).is_some() {
        Some(BoundaryType::QuoteCounting { quote_count: 1 })
    } else if env_re(t).is_some() || source_re(t).is_some() {
        None
    } else if func_start(t).is_some() {
        if braces == 0 && t.contains('}') {
            None
        } else {
            Some(BoundaryType::BraceCounting { brace_count: braces as i32 })
        }
    } else {
        None
    }
}

/// What a line inside a block does to it: the block goes on with its new
/// count, or ends (`None`) when its braces close, its Here-String end marker
/// `"@` comes, or its keyword depth comes back to zero.
pub open spec fn pwsh_block_next(b: BoundaryType, line: Seq<char>) -> Option<BoundaryType> {
    let t = trim(line);
    match b {
        BoundaryType::BraceCounting { brace_count } => {
            let c = sat_sub_i32(
                brace_count + count_outside_quotes(t, '{') as i32,
                count_outside_quotes(t, '}') as i32 as int,
            );
            if c == 0 {
                None
            } else {
                Some(BoundaryType::BraceCounting { brace_count: c as i32 })
            }
        },
        BoundaryType::QuoteCounting { quote_count } => if t == seq!['"', '@'] {
            None
        } else {
            Some(b)
        },
        BoundaryType::KeywordTracking { depth } => {
            let d = sat_sub(depth as int, control_end_count(t) as int) + control_start_count(t);
            let d2 = if d > usize::MAX {
                usize::MAX as int
            } else {
                d
            };
            if d2 == 0 {
                None
            } else {
                Some(BoundaryType::KeywordTracking { depth: d2 as usize })
            }
        },
        _ => Some(b),
    }
}

/// The block left open after the lines, with its count (see
/// `pwsh_free_open` and `pwsh_block_next`).
pub open spec fn pwsh_open_after(lines: Seq<Seq<char>>) -> Option<BoundaryType>
    decreases lines.len(),
{
    if lines.len() == 0 {
        None
    } else {
        match pwsh_open_after(lines.drop_last()) {
            None => pwsh_free_open(lines.last()),
            Some(b) => pwsh_block_next(b, lines.last()),
        }
    }
}

/// A span starting at line `s` (1-based) starts where the lines before it
/// leave no block open (see `pwsh_open_after`).
pub open spec fn pwsh_free_start(s: int, pieces: Seq<Seq<char>>) -> bool {
    1 <= s <= pieces.len() + 1 && pwsh_open_after(pieces.take(s - 1)).is_none()
}

/// What a PowerShell line outside any block is, in the order the parser
/// tries the kinds: a control structure's start, a blank line, a comment, an
/// alias, `$env:`, source or function line (see `pwsh_structured_line`), or
/// other code.
#[derive(Debug, Clone, Copy, PartialEq, Eq, Structural)]
pub enum PwshLine {
    Control,
    Blank,
    Comment,
    Structured,
    Code,
}

/// What the lines read so far leave waiting to be joined or written out:
/// nothing (at the start, after a structured entry, or inside a block), a
/// block of comment lines, or code (or blank lines).
#[derive(Debug, Clone, Copy, PartialEq, Eq, Structural)]
pub enum PwshPend {
    Nothing,
    Comment,
    Code,
}

/// The kind of a line outside any block.
pub open spec fn pwsh_line_kind(line: Seq<char>) -> PwshLine {
    let t = trim(line);
    if control_start_count(t) > 0 {
        PwshLine::Control
    } else if t.len() == 0 {
        PwshLine::Blank
    } else if t[0] == '#' {
        PwshLine::Comment
    } else if pwsh_structured_line(t) {
        PwshLine::Structured
    } else {
        PwshLine::Code
    }
}

/// A line of kind `k` outside any block, after what `p` left waiting, begins
/// a new entry: a control structure or a blank line joins whatever waits; a
/// comment joins waiting comments; code takes in waiting comments; an alias,
/// `$env:`, source or function line always begins an entry of its own.
pub open spec fn pwsh_free_break(p: PwshPend, k: PwshLine) -> bool {
    match k {
        PwshLine::Control => p == PwshPend::Nothing,
        PwshLine::Blank => p == PwshPend::Nothing,
        PwshLine::Comment => p != PwshPend::Comment,
        PwshLine::Structured => true,
        PwshLine::Code => p != PwshPend::Comment,
    }
}

/// What waits after a line of kind `k` outside any block, after `p`.
pub open spec fn pwsh_free_pend(p: PwshPend, k: PwshLine) -> PwshPend {
    match k {
        PwshLine::Blank => if p == PwshPend::Nothing {
            PwshPend::Code
        } else {
            p
        },
        PwshLine::Comment => PwshPend::Comment,
        PwshLine::Code => PwshPend::Code,
        _ => PwshPend::Nothing,
    }
}

/// What waits after the lines: a control structure that ends leaves code to
/// take trailing blank lines; a function or Here-String that ends leaves
/// nothing.
pub open spec fn pwsh_pend_after(lines: Seq<Seq<char>>) -> PwshPend
    decreases lines.len(),
{
    if lines.len() == 0 {
        PwshPend::Nothing
    } else {
        let prev = lines.drop_last();
        match pwsh_open_after(prev) {
            None => pwsh_free_pend(pwsh_pend_after(prev), pwsh_line_kind(lines.last())),
            Some(b) => if pwsh_open_after(lines).is_none() && b is KeywordTracking {
                PwshPend::Code
            } else {
                PwshPend::Nothing
            },
        }
    }
}

/// Line `j` (from 0) begins an entry, or the block left open at the end:
/// it lies outside any block and does not join what waits before it.
pub open spec fn pwsh_breaks_at(lines: Seq<Seq<char>>, j: int) -> bool {
    &&& pwsh_open_after(lines.take(j)).is_none()
    &&& pwsh_free_break(pwsh_pend_after(lines.take(j)), pwsh_line_kind(lines[j]))
}

/// What a pending block stands for.
pub open spec fn pwsh_pend_kind(o: Option<PendingBlock>) -> PwshPend {
    match o {
        None => PwshPend::Nothing,
        Some(p) => if p.entry_hint == Some(EntryType::Comment) {
            PwshPend::Comment
        } else {
            PwshPend::Code
        },
    }
}

/// An entry of type `t` stands for what waits after its last line: nothing
/// after a structured entry, comment lines, or code.
pub open spec fn pwsh_type_fits(t: EntryType, p: PwshPend) -> bool {
    match p {
        PwshPend::Nothing => is_structured(Some(t)),
        PwshPend::Comment => t == EntryType::Comment,
        PwshPend::Code => t == EntryType::Code,
    }
}

/// The lines `s ..= e` (from 1) form one entry: the first lies outside any
/// block and begins an entry (see `pwsh_breaks_at`), and none of the others
/// does.
pub open spec fn pwsh_span_well(s: int, e: int, pieces: Seq<Seq<char>>) -> bool {
    &&& pwsh_free_start(s, pieces)
    &&& s <= pieces.len()
    &&& pwsh_breaks_at(pieces, s - 1)
    &&& e <= pieces.len()
    &&& forall|j: int| s <= j < e ==> !#[trigger] pwsh_breaks_at(pieces, j)
}

/// The type of every entry is that of what waits after its last line (see
/// `pwsh_pend_after`).
#[verifier::opaque]
pub open spec fn pwsh_all_typed(es: Seq<Entry>, pieces: Seq<Seq<char>>) -> bool {
    forall|k: int|
        0 <= k < es.len() ==> pwsh_type_fits(
            (#[trigger] es[k]).entry_type,
            pwsh_pend_after(pieces.take(pwsh_entry_end(es[k]))),
        )
}

/// Every entry starts where an entry begins, no other line of it begins
/// one, and its type is that of what waits after its last line.
pub open spec fn pwsh_all_free(es: Seq<Entry>, pieces: Seq<Seq<char>>) -> bool {
    &&& forall|k: int|
        0 <= k < es.len() ==> pwsh_span_well(
            (#[trigger] es[k]).line_number->0 as int,
            pwsh_entry_end(es[k]),
            pieces,
        )
    &&& pwsh_all_typed(es, pieces)
}

/// A block, if any, starts where an entry begins and holds no other start.
pub open spec fn pwsh_opt_free(o: Option<PendingBlock>, pieces: Seq<Seq<char>>) -> bool {
    match o {
        Some(b) => pwsh_span_well(b.start_line as int, b.end_line as int, pieces),
        None => true,
    }
}

/// Whether a line begins an entry does not change as lines are added after it.
proof fn lemma_pwsh_breaks_stable(pieces: Seq<Seq<char>>, x: Seq<char>, j: int)
    requires
        0 <= j < pieces.len(),
    ensures
        pwsh_breaks_at(pieces.push(x), j) == pwsh_breaks_at(pieces, j),
{
    assert(pieces.push(x).take(j) =~= pieces.take(j));
    assert(pieces.push(x)[j] == pieces[j]);
}

/// A span stays well formed as lines are added after it.
proof fn lemma_pwsh_span_push(s: int, e: int, pieces: Seq<Seq<char>>, x: Seq<char>)
    requires
        pwsh_span_well(s, e, pieces),
    ensures
        pwsh_span_well(s, e, pieces.push(x)),
{
    assert(pieces.push(x).take(s - 1) =~= pieces.take(s - 1));
    lemma_pwsh_breaks_stable(pieces, x, s - 1);
    assert forall|j: int| s <= j < e implies !#[trigger] pwsh_breaks_at(pieces.push(x), j) by {
        lemma_pwsh_breaks_stable(pieces, x, j);
    }
}

/// A span takes one more line that begins no entry.
proof fn lemma_pwsh_span_grow(s: int, e: int, pieces: Seq<Seq<char>>)
    requires
        pwsh_span_well(s, e, pieces),
        e < pieces.len(),
        !pwsh_breaks_at(pieces, e),
    ensures
        pwsh_span_well(s, e + 1, pieces),
{
}

/// A line outside any block: whether it begins an entry, and what waits
/// after it, follow from what waited before it and its kind.
proof fn lemma_pwsh_free_step(pieces: Seq<Seq<char>>, x: Seq<char>, pend: Option<PendingBlock>)
    requires
        pwsh_open_after(pieces).is_none(),
        pwsh_pend_after(pieces) == pwsh_pend_kind(pend),
    ensures
        pwsh_breaks_at(pieces.push(x), pieces.len() as int) == pwsh_free_break(
            pwsh_pend_kind(pend),
            pwsh_line_kind(x),
        ),
        pwsh_pend_after(pieces.push(x)) == pwsh_free_pend(pwsh_pend_kind(pend), pwsh_line_kind(x)),
        pwsh_open_after(pieces.push(x)) == pwsh_free_open(x),
{
    assert(pieces.push(x).take(pieces.len() as int) =~= pieces);
    assert(pieces.push(x).drop_last() =~= pieces);
}

/// The kind of a line is that of its trimmed text.
proof fn lemma_pwsh_kind_trim(line: Seq<char>)
    ensures
        pwsh_line_kind(trim(line)) == pwsh_line_kind(line),
        pwsh_free_open(trim(line)) == pwsh_free_open(line),
{
    lemma_trim_idempotent(line);
}

/// An entry written out from a pending block, with a type that fits the
/// block, has the type of what waited after the block's last line.
proof fn lemma_pwsh_fits_flush(e: Entry, pb: PendingBlock, pieces: Seq<Seq<char>>, p2: Seq<Seq<char>>)
    requires
        pwsh_type_fits(e.entry_type, pwsh_pend_kind(Some(pb))),
        pwsh_entry_end(e) == pb.end_line,
        pwsh_pend_after(pieces) == pwsh_pend_kind(Some(pb)),
        pb.end_line == pieces.len(),
        pieces.len() <= p2.len(),
        forall|j: int| 0 <= j < pieces.len() ==> p2[j] == pieces[j],
    ensures
        pwsh_type_fits(e.entry_type, pwsh_pend_after(p2.take(pwsh_entry_end(e)))),
{
    assert(p2.take(pieces.len() as int) =~= pieces);
}

/// Spans stay well formed, and types stay fitting, as lines are added.
proof fn lemma_pwsh_free_push(es: Seq<Entry>, o: Option<PendingBlock>, pieces: Seq<Seq<char>>, x: Seq<char>)
    requires
        pwsh_all_free(es, pieces),
        pwsh_opt_free(o, pieces),
    ensures
        pwsh_all_free(es, pieces.push(x)),
        pwsh_opt_free(o, pieces.push(x)),
{
    assert forall|k: int| 0 <= k < es.len() implies pwsh_span_well(
        (#[trigger] es[k]).line_number->0 as int,
        pwsh_entry_end(es[k]),
        pieces.push(x),
    ) by {
        lemma_pwsh_span_push(es[k].line_number->0 as int, pwsh_entry_end(es[k]), pieces, x);
    }
    reveal(pwsh_all_typed);
    assert forall|k: int| 0 <= k < es.len() implies pwsh_type_fits(
        (#[trigger] es[k]).entry_type,
        pwsh_pend_after(pieces.push(x).take(pwsh_entry_end(es[k]))),
    ) by {
        assert(pwsh_span_well(es[k].line_number->0 as int, pwsh_entry_end(es[k]), pieces));
        assert(pieces.push(x).take(pwsh_entry_end(es[k])) =~= pieces.take(pwsh_entry_end(es[k])));
    }
    match o {
        Some(b) => {
            lemma_pwsh_span_push(b.start_line as int, b.end_line as int, pieces, x);
        },
        None => {},
    }
}

/// Adding a well formed entry of a fitting type keeps all entries so.
proof fn lemma_pwsh_free_add(es: Seq<Entry>, e: Entry, pieces: Seq<Seq<char>>)
    requires
        pwsh_all_free(es, pieces),
        pwsh_span_well(e.line_number->0 as int, pwsh_entry_end(e), pieces),
        pwsh_type_fits(e.entry_type, pwsh_pend_after(pieces.take(pwsh_entry_end(e)))),
    ensures
        pwsh_all_free(es.push(e), pieces),
{
    assert forall|k: int| 0 <= k < es.push(e).len() implies pwsh_span_well(
        (#[trigger] es.push(e)[k]).line_number->0 as int,
        pwsh_entry_end(es.push(e)[k]),
        pieces,
    ) by {
        if k < es.len() {
            assert(es.push(e)[k] == es[k]);
        }
    }
    reveal(pwsh_all_typed);
    assert forall|k: int| 0 <= k < es.push(e).len() implies pwsh_type_fits(
        (#[trigger] es.push(e)[k]).entry_type,
        pwsh_pend_after(pieces.take(pwsh_entry_end(es.push(e)[k]))),
    ) by {
        if k < es.len() {
            assert(es.push(e)[k] == es[k]);
        }
    }
}

/// What waits after the kept lines and after the file's lines agree line by
/// line, as one more line is kept.
proof fn lemma_pwsh_pend_prefixes_step(
    p0: Seq<Seq<char>>,
    all: Seq<Seq<char>>,
    idx: int,
    piece: Seq<char>,
    line: Seq<char>,
)
    requires
        p0.len() == idx,
        0 <= idx < all.len(),
        all[idx] == line,
        forall|m: int|
            0 <= m <= idx + 1 ==> #[trigger] pwsh_open_after(p0.push(piece).take(m)) == pwsh_open_after(
                all.take(m),
            ),
        forall|m: int| 0 <= m <= idx ==> #[trigger] pwsh_pend_after(p0.take(m)) == pwsh_pend_after(all.take(m)),
        trim(piece) == trim(line),
    ensures
        forall|m: int|
            0 <= m <= idx + 1 ==> #[trigger] pwsh_pend_after(p0.push(piece).take(m)) == pwsh_pend_after(
                all.take(m),
            ),
{
    let p1 = p0.push(piece);
    assert(p0.take(idx) =~= p0);
    assert(p1.take(idx + 1) =~= p1);
    assert(p1.take(idx) =~= p0);
    assert(p1.drop_last() =~= p0);
    assert(all.take(idx + 1).drop_last() =~= all.take(idx));
    assert(all.take(idx + 1).last() == line);
    assert(pwsh_open_after(p1.take(idx)) == pwsh_open_after(all.take(idx)));
    assert(pwsh_open_after(p1.take(idx + 1)) == pwsh_open_after(all.take(idx + 1)));
    lemma_pwsh_kind_trim(piece);
    lemma_pwsh_kind_trim(line);
    assert(pwsh_line_kind(piece) == pwsh_line_kind(line));
    assert(pwsh_pend_after(p0.take(idx)) == pwsh_pend_after(all.take(idx)));
    assert(pwsh_pend_after(p0) == pwsh_pend_after(all.take(idx)));
    assert(pwsh_open_after(p0) == pwsh_open_after(all.take(idx)));
    assert(pwsh_open_after(p1) == pwsh_open_after(all.take(idx + 1)));
    assert(p1.last() == piece);
    assert(pwsh_pend_after(p1) == pwsh_pend_after(all.take(idx + 1)));
    assert forall|m: int| 0 <= m <= idx + 1 implies #[trigger] pwsh_pend_after(p1.take(m)) == pwsh_pend_after(
        all.take(m),
    ) by {
        if m <= idx {
            assert(p1.take(m) =~= p0.take(m));
        }
    }
}

/// Well formed spans and fitting types over the kept lines are so over the
/// lines.
proof fn lemma_pwsh_free_lines(es: Seq<Entry>, pieces: Seq<Seq<char>>, lines: Seq<Seq<char>>)
    requires
        pieces_of(pieces, lines),
        forall|m: int| 0 <= m <= lines.len() ==> #[trigger] pwsh_open_after(pieces.take(m)) == pwsh_open_after(
            lines.take(m),
        ),
        forall|m: int| 0 <= m <= lines.len() ==> #[trigger] pwsh_pend_after(pieces.take(m)) == pwsh_pend_after(
            lines.take(m),
        ),
        pwsh_all_free(es, pieces),
    ensures
        pwsh_all_free(es, lines),
{
    assert forall|j: int| 0 <= j < lines.len() implies #[trigger] pwsh_breaks_at(pieces, j) == pwsh_breaks_at(lines, j) by {
        assert(piece_ok(pieces[j], lines[j]));
        lemma_pwsh_kind_trim(lines[j]);
        assert(pwsh_open_after(pieces.take(j)) == pwsh_open_after(lines.take(j)));
        assert(pwsh_pend_after(pieces.take(j)) == pwsh_pend_after(lines.take(j)));
        assert(pwsh_line_kind(pieces[j]) == pwsh_line_kind(lines[j]));
    }
    assert forall|k: int| 0 <= k < es.len() implies pwsh_span_well(
        (#[trigger] es[k]).line_number->0 as int,
        pwsh_entry_end(es[k]),
        lines,
    ) by {
        let st = es[k].line_number->0 as int;
        assert(pwsh_span_well(st, pwsh_entry_end(es[k]), pieces));
        assert(pwsh_open_after(pieces.take(st - 1)) == pwsh_open_after(lines.take(st - 1)));
        assert(pwsh_breaks_at(pieces, st - 1) == pwsh_breaks_at(lines, st - 1));
        assert forall|j: int| st <= j < pwsh_entry_end(es[k]) implies !#[trigger] pwsh_breaks_at(lines, j) by {
            assert(pwsh_breaks_at(pieces, j) == pwsh_breaks_at(lines, j));
        }
    }
    reveal(pwsh_all_typed);
    assert forall|k: int| 0 <= k < es.len() implies pwsh_type_fits(
        (#[trigger] es[k]).entry_type,
        pwsh_pend_after(lines.take(pwsh_entry_end(es[k]))),
    ) by {
        assert(pwsh_span_well(es[k].line_number->0 as int, pwsh_entry_end(es[k]), pieces));
        assert(pwsh_pend_after(pieces.take(pwsh_entry_end(es[k]))) == pwsh_pend_after(
            lines.take(pwsh_entry_end(es[k])),
        ));
    }
}

/// The blocks left open by the kept lines and by the file's lines agree
/// line by line, as one more line is kept.
proof fn lemma_pwsh_open_prefixes_step(
    p0: Seq<Seq<char>>,
    all: Seq<Seq<char>>,
    idx: int,
    piece: Seq<char>,
    line: Seq<char>,
)
    requires
        p0.len() == idx,
        0 <= idx < all.len(),
        all[idx] == line,
        forall|m: int| 0 <= m <= idx ==> #[trigger] pwsh_open_after(p0.take(m)) == pwsh_open_after(all.take(m)),
        trim(piece) == trim(line),
        pwsh_open_after(p0).is_some() ==> piece == line,
    ensures
        forall|m: int|
            0 <= m <= idx + 1 ==> #[trigger] pwsh_open_after(p0.push(piece).take(m)) == pwsh_open_after(
                all.take(m),
            ),
{
    let p1 = p0.push(piece);
    assert(p0.take(idx) =~= p0);
    assert(p1.take(idx + 1) =~= p1);
    assert(p1.drop_last() =~= p0);
    assert(all.take(idx + 1).drop_last() =~= all.take(idx));
    assert(all.take(idx + 1).last() == line);
    assert(pwsh_open_after(p0) == pwsh_open_after(all.take(idx)));
    assert(pwsh_free_open(piece) == pwsh_free_open(line));
    assert(pwsh_open_after(p1.take(idx + 1)) == pwsh_open_after(all.take(idx + 1)));
    assert forall|m: int| 0 <= m <= idx + 1 implies #[trigger] pwsh_open_after(p1.take(m)) == pwsh_open_after(
        all.take(m),
    ) by {
        if m <= idx {
            assert(p1.take(m) =~= p0.take(m));
        }
    }
}

/// Entries laid end to end over the first `k` lines, none holding a start
/// of an entry but at its first line, begin at every such start.
proof fn lemma_pwsh_breaks_begin_entries(es: Seq<Entry>, pieces: Seq<Seq<char>>, lines: Seq<Seq<char>>, k: int)
    requires
        tiles(es, pieces, k),
        forall|t: int|
            0 <= t < es.len() ==> pwsh_span_well(
                (#[trigger] es[t]).line_number->0 as int,
                pwsh_entry_end(es[t]),
                lines,
            ),
    ensures
        forall|j: int|
            0 <= j < k && #[trigger] pwsh_breaks_at(lines, j) ==> exists|t: int|
                0 <= t < es.len() && (#[trigger] es[t]).line_number == Some((j + 1) as usize),
    decreases es.len(),
{
    if es.len() > 0 {
        let e = es.last();
        let n = es.len() - 1;
        let lo = e.line_number.unwrap() - 1;
        assert(es[n] == e);
        assert(pwsh_entry_end(e) == k);
        assert forall|t: int| 0 <= t < es.drop_last().len() implies pwsh_span_well(
            (#[trigger] es.drop_last()[t]).line_number->0 as int,
            pwsh_entry_end(es.drop_last()[t]),
            lines,
        ) by {
            assert(es.drop_last()[t] == es[t]);
        }
        lemma_pwsh_breaks_begin_entries(es.drop_last(), pieces, lines, lo);
        assert forall|j: int| 0 <= j < k && #[trigger] pwsh_breaks_at(lines, j) implies exists|t: int|
            0 <= t < es.len() && (#[trigger] es[t]).line_number == Some((j + 1) as usize) by {
            if j < lo {
                let t = choose|t: int|
                    0 <= t < es.drop_last().len() && (#[trigger] es.drop_last()[t]).line_number == Some(
                        (j + 1) as usize,
                    );
                assert(es[t] == es.drop_last()[t]);
            } else {
                assert(pwsh_span_well(lo + 1, k, lines));
                if j > lo {
                    assert(!pwsh_breaks_at(lines, j));
                }
                assert(es[n].line_number == Some((j + 1) as usize));
            }
        }
    }
}

/// Where PowerShell entries begin is fixed: entries laid end to end over
/// the first `k` lines that satisfy `pwsh_all_free` (as a parse does) begin
/// at exactly the lines, among the first `k`, where `pwsh_breaks_at` holds.
pub proof fn law_pwsh_entries_begin_at_breaks(es: Seq<Entry>, pieces: Seq<Seq<char>>, lines: Seq<Seq<char>>, k: int)
    requires
        tiles(es, pieces, k),
        pwsh_all_free(es, lines),
    ensures
        forall|t: int| 0 <= t < es.len() ==> pwsh_breaks_at(lines, (#[trigger] es[t]).line_number->0 - 1),
        forall|j: int|
            0 <= j < k && #[trigger] pwsh_breaks_at(lines, j) ==> exists|t: int|
                0 <= t < es.len() && (#[trigger] es[t]).line_number == Some((j + 1) as usize),
{
    lemma_pwsh_breaks_begin_entries(es, pieces, lines, k);
    assert forall|t: int| 0 <= t < es.len() implies pwsh_breaks_at(lines, (#[trigger] es[t]).line_number->0 - 1) by {
        assert(pwsh_span_well(es[t].line_number->0 as int, pwsh_entry_end(es[t]), lines));
    }
}

/// The state of a scan and the block left open by the lines so far agree.
pub open spec fn pwsh_open_agrees(active: Option<PendingBlock>, lines: Seq<Seq<char>>) -> bool {
    match active {
        Some(a) => pwsh_open_after(lines) == Some(a.boundary),
        None => pwsh_open_after(lines).is_none(),
    }
}

/// Inputs the PowerShell parser handles: a size that its `i32` counters hold.
pub open spec fn pwsh_parsable(content: Seq<char>) -> bool {
    content.len() + 1 < i32::MAX
}

/// Whether a pending block is a comment block that code can join.
fn comment_pending(pending: &Option<PendingBlock>) -> (r: bool)
    ensures
        r == (pending matches Some(p) && p.entry_hint == Some(EntryType::Comment)),
{
    match pending {
        Some(p) => match p.entry_hint {
            Some(EntryType::Comment) => true,
            _ => false,
        },
        None => false,
    }
}

impl PowerShellParser {
    /// Create a new PowerShell parser instance.
    pub fn new() -> (r: Self) {
        PowerShellParser
    }

    /// Build an Entry from a completed PendingBlock: the value is the block's
    /// whole text; comments and code are named by their line range.
    fn build_entry_from_pending(&self, block: PendingBlock) -> (r: Entry)
        ensures
            pwsh_built_from(r, block),
    {
        let entry_type = match block.entry_hint {
            Some(t) => t,
            None => EntryType::Code,
        };
        let raw_content = block.raw_content();
        let start = block.start_line;
        let end = block.end_line;
        proof {
            reveal_strlit("L");
            reveal_strlit("#L");
        }
        let name = match entry_type {
            EntryType::Function => match block.name {
                Some(n) => n,
                None => string_from_str("anonymous"),
            },
            EntryType::EnvVar => match block.name {
                Some(n) => n,
                None => string_from_str("UNKNOWN"),
            },
            EntryType::Comment => make_range_name("#L", start, end),
            EntryType::Code => make_range_name("L", start, end),
            _ => string_from_str("unknown"),
        };
        Entry::new(entry_type, name, raw_content).with_line_number(start).with_end_line(end)
    }

    /// Flush the pending block, if any, into an entry.
    fn flush_pending_comment_code(&self, pending: &mut Option<PendingBlock>) -> (r: Option<Entry>)
        ensures
            final(pending).is_none(),
            match *old(pending) {
                Some(b) => r matches Some(e) && pwsh_built_from(e, b),
                None => r.is_none(),
            },
    {
        match pending.take() {
            Some(block) => Some(self.build_entry_from_pending(block)),
            None => None,
        }
    }

    /// The lines of a Here-String between its start and end markers, joined.
    fn heredoc_text(lines: &Vec<String>) -> (r: String)
        ensures
            r@ == join_with(views(heredoc_inner(lines@)), '\n'),
    {
        let n = lines.len();
        let mut inner: Vec<String> = Vec::new();
        let mut k: usize = 1;
        while k < n && k + 1 < n
            invariant
                n == lines@.len(),
                1 <= k,
                n >= 1 ==> k <= n,
                n >= 2 ==> k + 1 <= n,
                n <= 2 ==> k == 1,
                inner@ == (if n >= 1 {
                    lines@.subrange(1, k as int)
                } else {
                    Seq::<String>::empty()
                }),
            decreases n - k,
        {
            inner.push(lines[k].clone());
            k = k + 1;
            assert(inner@ =~= lines@.subrange(1, k as int));
        }
        assert(inner@ =~= heredoc_inner(lines@));
        let r = join_lines(&inner);
        assert(inner@.map_values(|p: String| p@) =~= views(heredoc_inner(lines@)));
        r
    }

    /// Writes out the pending block, then an entry for line `line_number`.
    fn settle_entry(
        &self,
        result: &mut ParseResult,
        pending: &mut Option<PendingBlock>,
        entry: Entry,
        line_number: usize,
        Ghost(pieces): Ghost<Seq<Seq<char>>>,
        Ghost(piece): Ghost<Seq<char>>,
    )
        requires
            ready(old(result).entries@, *old(pending), pieces, pieces.len() as int),
            line_number == pieces.len() + 1,
            entry.line_number == Some(line_number),
            entry.end_line.is_none() || entry.end_line == Some(line_number),
            entry.value@ == piece,
            pwsh_all_named(old(result).entries@, pieces),
            pwsh_all_kept(old(result).entries@, pieces),
            pwsh_opt_named(*old(pending), pieces),
            pwsh_opt_kept(*old(pending), pieces),
            is_structured(Some(entry.entry_type)),
            pwsh_named_within(
                entry.entry_type,
                entry.name@,
                pieces.len() as int,
                pieces.len() + 1int,
                pieces.push(piece),
            ),
            pwsh_all_free(old(result).entries@, pieces),
            pwsh_opt_free(*old(pending), pieces),
            pwsh_open_after(pieces).is_none(),
            pwsh_pend_after(pieces) == pwsh_pend_kind(*old(pending)),
            *old(pending) matches Some(p) ==> (p.entry_hint == Some(EntryType::Comment) || p.entry_hint
                == Some(EntryType::Code)),
            pwsh_line_kind(piece) == PwshLine::Structured,
        ensures
            pwsh_pend_after(pieces.push(piece)) == PwshPend::Nothing,
            pwsh_all_free(final(result).entries@, pieces.push(piece)),
            final(pending).is_none(),
            tiles(final(result).entries@, pieces.push(piece), line_number as int),
            final(result).warnings@ == old(result).warnings@,
            pwsh_all_named(final(result).entries@, pieces.push(piece)),
            pwsh_all_kept(final(result).entries@, pieces.push(piece)),
    {
        let ghost i = pieces.len() as int;
        let ghost p2 = pieces.push(piece);
        let ghost entries0 = result.entries@;
        let ghost op = *pending;
        proof {
            lemma_ready_stable(entries0, op, pieces, piece, i);
            lemma_span_single(p2, i);
            lemma_pwsh_state_push(entries0, op, pieces, piece, i);
            lemma_pwsh_free_push(entries0, op, pieces, piece);
            lemma_pwsh_free_step(pieces, piece, op);
            assert(p2.take(i) =~= pieces);
            assert(p2.take(i + 1) =~= p2);
        }
        match self.flush_pending_comment_code(pending) {
            Some(e) => {
                proof {
                    lemma_flush_tiles(entries0, op->0, e, p2, i);
                    lemma_pwsh_flush(entries0, op->0, e, p2);
                    lemma_pwsh_fits_flush(e, op->0, pieces, p2);
                    lemma_pwsh_free_add(entries0, e, p2);
                }
                result.add_entry(e);
            },
            None => {},
        }
        proof {
            lemma_tiles_push(result.entries@, entry, p2, i, i + 1);
            lemma_pwsh_entries_add(result.entries@, entry, p2);
            lemma_pwsh_free_add(result.entries@, entry, p2);
        }
        result.add_entry(entry);
    }

    /// One line inside an active multi-line block.
    #[verifier::rlimit(60)]
    fn step_active(
        &self,
        result: &mut ParseResult,
        active: &mut Option<PendingBlock>,
        pending: &mut Option<PendingBlock>,
        control_depth: &mut usize,
        line: &str,
        trimmed: &str,
        line_number: usize,
        Ghost(pieces): Ghost<Seq<Seq<char>>>,
        Ghost(bound): Ghost<int>,
    )
        requires
            old(active).is_some(),
            pwsh_scan_inv(
                old(result).entries@,
                *old(active),
                *old(pending),
                *old(control_depth),
                pieces,
                bound,
            ),
            trimmed@ == trim(line@),
            line_number == pieces.len() + 1,
            bound + line@.len() + 1 < i32::MAX,
            pwsh_open_after(pieces) == Some(old(active)->0.boundary),
        ensures
            match *final(active) {
                Some(a) => pwsh_block_next(old(active)->0.boundary, line@) == Some(a.boundary),
                None => pwsh_block_next(old(active)->0.boundary, line@).is_none(),
            },
            pwsh_scan_inv(
                final(result).entries@,
                *final(active),
                *final(pending),
                *final(control_depth),
                pieces.push(line@),
                bound + line@.len() + 1,
            ),
            final(result).warnings@ == old(result).warnings@,
    {
        let ghost i = pieces.len() as int;
        let ghost p2 = pieces.push(line@);
        let ghost entries0 = result.entries@;
        let mut block = active.take().unwrap();
        let ghost b0 = block;
        let ghost lo = block.start_line - 1;
        block.add_line(line, line_number);
        proof {
            lemma_trim_len(line@);
            lemma_block_stable(b0, pieces, line@, lo, i);
            lemma_block_add_line(b0, block, p2, lo, i);
            lemma_tiles_stable(entries0, pieces, line@, lo);
            lemma_pwsh_entries_push(entries0, pieces, line@, lo);
            lemma_pwsh_named_widen(block_type(b0), pwsh_block_name(b0), lo, i, lo, i + 1, pieces, p2);
            if !is_structured(Some(block_type(b0))) {
                let k = choose|k: int|
                    0 <= k < pieces.len() && b0.start_line - 1 <= k < b0.end_line
                        && #[trigger] control_start_count(trim(pieces[k])) > 0;
                assert(p2[k] == pieces[k]);
            }
            let k2 = choose|k: int|
                0 <= k < pieces.len() && b0.start_line - 1 <= k < b0.end_line && #[trigger] pwsh_starts(
                    block_type(b0),
                    trim(pieces[k]),
                );
            assert(p2[k2] == pieces[k2]);
            lemma_pwsh_kept_grow(block_type(b0), block_type(b0), lo, pieces, line@);
            lemma_pwsh_free_push(entries0, Some(b0), pieces, line@);
            assert(p2.take(i) =~= pieces);
            assert(p2.drop_last() =~= pieces);
            assert(p2.take(i + 1) =~= p2);
            assert(!pwsh_breaks_at(p2, i));
            lemma_pwsh_span_grow(b0.start_line as int, i, p2);
        }
        match block.boundary {
            BoundaryType::BraceCounting { brace_count } => {
                let (open, close) = count_braces_outside_quotes(trimmed);
                proof {
                    lemma_count_outside_bound(trimmed@, '{');
                    lemma_count_outside_bound(trimmed@, '}');
                }
                block.update_brace_count(open as i32, close as i32);
                if block.is_complete() {
                    let ghost bb = block;
                    let entry = self.build_entry_from_pending(block);
                    proof {
                        lemma_flush_tiles(entries0, bb, entry, p2, i + 1);
                        lemma_pwsh_flush(entries0, bb, entry, p2);
                        assert(p2.take(i + 1) =~= p2);
                        lemma_pwsh_free_add(entries0, entry, p2);
                    }
                    result.add_entry(entry);
                } else {
                    *active = Some(block);
                }
            },
            BoundaryType::QuoteCounting { quote_count: _ } => {
                proof {
                    reveal_strlit("\"@");
                    assert("\"@"@ =~= seq!['"', '@']);
                }
                if is_heredoc_end(trimmed) {
                    let mut completed = block;
                    let value = Self::heredoc_text(&completed.lines);
                    completed.value = Some(value);
                    let ghost bb = completed;
                    let entry = self.build_entry_from_pending(completed);
                    proof {
                        lemma_flush_tiles(entries0, bb, entry, p2, i + 1);
                        lemma_pwsh_flush(entries0, bb, entry, p2);
                        assert(p2.take(i + 1) =~= p2);
                        lemma_pwsh_free_add(entries0, entry, p2);
                    }
                    result.add_entry(entry);
                } else {
                    *active = Some(block);
                }
            },
            BoundaryType::KeywordTracking { depth } => {
                let end_count = count_control_end(trimmed);
                let start_count = count_control_start(trimmed);
                let new_depth = depth.saturating_sub(end_count).saturating_add(start_count);
                block.boundary = BoundaryType::KeywordTracking { depth: new_depth };
                if new_depth == 0 {
                    *control_depth = 0;
                    *pending = Some(
                        PendingBlock {
                            lines: block.lines,
                            start_line: block.start_line,
                            end_line: block.end_line,
                            boundary: BoundaryType::AdjacentMerging {
                                merge_type: MergeType::CodeWithBlanks,
                            },
                            entry_hint: Some(EntryType::Code),
                            name: None,
                            value: None,
                            comment_count: 0,
                        },
                    );
                } else {
                    *active = Some(block);
                }
            },
            _ => {
                *active = Some(block);
            },
        }
    }

    /// One line outside any multi-line block. Gives the line as the entries keep it.
    #[verifier::rlimit(80)]
    fn step_free(
        &self,
        result: &mut ParseResult,
        active: &mut Option<PendingBlock>,
        pending: &mut Option<PendingBlock>,
        control_depth: &mut usize,
        line: &str,
        trimmed: &str,
        line_number: usize,
        Ghost(pieces): Ghost<Seq<Seq<char>>>,
        Ghost(bound): Ghost<int>,
    ) -> (piece: Ghost<Seq<char>>)
        requires
            old(active).is_none(),
            pwsh_scan_inv(
                old(result).entries@,
                *old(active),
                *old(pending),
                *old(control_depth),
                pieces,
                bound,
            ),
            trimmed@ == trim(line@),
            line_number == pieces.len() + 1,
            bound + line@.len() + 1 < i32::MAX,
            pwsh_open_after(pieces).is_none(),
        ensures
            match *final(active) {
                Some(a) => pwsh_free_open(line@) == Some(a.boundary),
                None => pwsh_free_open(line@).is_none(),
            },
            piece_ok(piece@, line@),
            pwsh_scan_inv(
                final(result).entries@,
                *final(active),
                *final(pending),
                *final(control_depth),
                pieces.push(piece@),
                bound + line@.len() + 1,
            ),
            final(result).warnings@ == old(result).warnings@,
    {
        let ghost i = pieces.len() as int;
        let ghost p2 = pieces.push(line@);
        let ghost entries0 = result.entries@;
        let ghost p2t = pieces.push(trimmed@);
        proof {
            lemma_trim_len(line@);
            lemma_span_single(p2, i);
            lemma_ready_stable(entries0, *pending, pieces, line@, i);
            lemma_pwsh_state_push(entries0, *pending, pieces, line@, i);
            lemma_pwsh_state_push(entries0, *pending, pieces, trimmed@, i);
            lemma_trim_idempotent(line@);
            assert(p2t[i] == trimmed@);
            assert(p2[i] == line@);
            lemma_pwsh_free_push(entries0, *pending, pieces, line@);
            lemma_pwsh_free_push(entries0, *pending, pieces, trimmed@);
            assert(p2.take(i) =~= pieces);
            assert(p2t.take(i) =~= pieces);
            lemma_pwsh_free_step(pieces, line@, *pending);
            lemma_pwsh_free_step(pieces, trimmed@, *pending);
            lemma_pwsh_kind_trim(line@);
        }
        // Control structure start
        let prev_depth = *control_depth;
        let end_count = count_control_end(trimmed);
        let start_count = count_control_start(trimmed);
        *control_depth = control_depth.saturating_sub(end_count);
        *control_depth = *control_depth + start_count;
        if *control_depth > 0 || (prev_depth > 0 && *control_depth == 0) {
            if active.is_none() && prev_depth == 0 && *control_depth > 0 {
                let depth = *control_depth;
                proof {
                    assert(control_start_count(trim(p2[i])) > 0);
                    assert(pwsh_starts(EntryType::Code, trim(p2[i])));
                }
                match pending.take() {
                    Some(p) => {
                        if matches!(p.entry_hint, Some(EntryType::Comment) | Some(EntryType::Code)) {
                            let ghost pb = p;
                            let mut lines = p.lines;
                            lines.push(string_from_str(line));
                            proof {
                                assert(views(lines@) =~= views(pb.lines@).push(line@));
                                lemma_block_add_line(
                                    pb,
                                    PendingBlock { lines, end_line: line_number, ..pb },
                                    p2,
                                    pb.start_line - 1,
                                    i,
                                );
                                lemma_pwsh_kept_grow(block_type(pb), EntryType::Code, pb.start_line - 1, pieces, line@);
                                lemma_pwsh_span_grow(pb.start_line as int, i, p2);
                            }
                            *active = Some(
                                PendingBlock {
                                    lines,
                                    start_line: p.start_line,
                                    end_line: line_number,
                                    boundary: BoundaryType::KeywordTracking { depth },
                                    entry_hint: Some(EntryType::Code),
                                    name: None,
                                    value: None,
                                    comment_count: p.comment_count,
                                },
                            );
                        } else {
                            let ghost pb = p;
                            let e = self.build_entry_from_pending(p);
                            proof {
                                lemma_flush_tiles(entries0, pb, e, p2, i);
                                lemma_pwsh_flush(entries0, pb, e, p2);
                                lemma_pwsh_fits_flush(e, pb, pieces, p2);
                                lemma_pwsh_free_add(entries0, e, p2);
                            }
                            result.add_entry(e);
                            *active = Some(PendingBlock::control(line_number, line, depth));
                        }
                    },
                    None => {
                        *active = Some(PendingBlock::control(line_number, line, depth));
                    },
                }
            }
            return Ghost(line@);
        }
        let tchars = str_chars(trimmed);
        // Blank lines
        if tchars.len() == 0 {
            proof {
                assert(!pwsh_structured_line(trim(p2[i])));
            }
            let blank = PendingBlock::blank_lines(line_number, line);
            if absorbs_blank(pending) {
                let mut p = pending.take().unwrap();
                let ghost pb = p;
                p.add_line(line, line_number);
                proof {
                    lemma_block_add_line(pb, p, p2, pb.start_line - 1, i);
                    lemma_pwsh_span_grow(pb.start_line as int, i, p2);
                    lemma_pwsh_kept_grow(block_type(pb), block_type(p), pb.start_line - 1, pieces, line@);
                }
                *pending = Some(p);
            } else {
                let ghost op = *pending;
                match self.flush_pending_comment_code(pending) {
                    Some(entry) => {
                        proof {
                            lemma_flush_tiles(entries0, op->0, entry, p2, i);
                            lemma_pwsh_flush(entries0, op->0, entry, p2);
                            lemma_pwsh_fits_flush(entry, op->0, pieces, p2);
                            lemma_pwsh_free_add(entries0, entry, p2);
                        }
                        result.add_entry(entry);
                    },
                    None => {},
                }
                *pending = Some(blank);
            }
            return Ghost(line@);
        }
        // Comment lines
        if CommentBlockBuilder::is_standalone_comment(trimmed) {
            proof {
                assert(!pwsh_structured_line(trim(p2[i])));
            }
            if absorbs_comment(pending) {
                let mut p = pending.take().unwrap();
                let ghost pb = p;
                p.add_line(line, line_number);
                proof {
                    lemma_block_add_line(pb, p, p2, pb.start_line - 1, i);
                    lemma_pwsh_span_grow(pb.start_line as int, i, p2);
                    lemma_pwsh_kept_grow(block_type(pb), block_type(p), pb.start_line - 1, pieces, line@);
                }
                *pending = Some(p);
            } else {
                let ghost op = *pending;
                match self.flush_pending_comment_code(pending) {
                    Some(entry) => {
                        proof {
                            lemma_flush_tiles(entries0, op->0, entry, p2, i);
                            lemma_pwsh_flush(entries0, op->0, entry, p2);
                            lemma_pwsh_fits_flush(entry, op->0, pieces, p2);
                            lemma_pwsh_free_add(entries0, entry, p2);
                        }
                        result.add_entry(entry);
                    },
                    None => {},
                }
                *pending = Some(PendingBlock::comment(line_number, line));
            }
            return Ghost(line@);
        }
        // Alias
        match try_parse_alias(trimmed, line_number) {
            ParseEvent::Complete(entry) => {
                proof {
                    assert(pwsh_named_by(entry.entry_type, entry.name@, trim(p2t[i])));
                }
                self.settle_entry(
                    result,
                    pending,
                    entry,
                    line_number,
                    Ghost(pieces),
                    Ghost(trimmed@),
                );
                return Ghost(trimmed@);
            },
            _ => {},
        }
        // Environment variable
        match try_parse_env(trimmed, line_number) {
            ParseEvent::Complete(entry) => {
                proof {
                    assert(pwsh_named_by(entry.entry_type, entry.name@, trim(p2t[i])));
                }
                self.settle_entry(
                    result,
                    pending,
                    entry,
                    line_number,
                    Ghost(pieces),
                    Ghost(trimmed@),
                );
                return Ghost(trimmed@);
            },
            ParseEvent::Started { entry_type, name, boundary, first_line } => {
                let ghost op = *pending;
                proof {
                    lemma_ready_stable(entries0, op, pieces, trimmed@, i);
                    lemma_span_single(p2t, i);
                    assert(pwsh_named_by(entry_type, name@, trim(p2t[i])));
                    lemma_trim_idempotent(line@);
                    assert(pwsh_starts(entry_type, trim(p2t[i])));
                }
                match self.flush_pending_comment_code(pending) {
                    Some(e) => {
                        proof {
                            lemma_flush_tiles(entries0, op->0, e, p2t, i);
                            lemma_pwsh_flush(entries0, op->0, e, p2t);
                            lemma_pwsh_fits_flush(e, op->0, pieces, p2t);
                            lemma_pwsh_free_add(entries0, e, p2t);
                        }
                        result.add_entry(e);
                    },
                    None => {},
                }
                *active = Some(
                    PendingBlock {
                        lines: one_line(first_line),
                        start_line: line_number,
                        end_line: line_number,
                        boundary,
                        entry_hint: Some(entry_type),
                        name: Some(name),
                        value: None,
                        comment_count: 0,
                    },
                );
                return Ghost(trimmed@);
            },
            ParseEvent::NoMatch => {},
        }
        // Source
        match try_parse_source(trimmed, line_number) {
            ParseEvent::Complete(entry) => {
                proof {
                    assert(pwsh_named_by(entry.entry_type, entry.name@, trim(p2t[i])));
                }
                self.settle_entry(
                    result,
                    pending,
                    entry,
                    line_number,
                    Ghost(pieces),
                    Ghost(trimmed@),
                );
                return Ghost(trimmed@);
            },
            _ => {},
        }
        // Function
        match detect_function_start(trimmed) {
            Some(func_name) => {
                let ghost op = *pending;
                proof {
                    assert(pwsh_named_by(EntryType::Function, func_name@, trim(p2[i])));
                    assert(pwsh_starts(EntryType::Function, trim(p2[i])));
                }
                match self.flush_pending_comment_code(pending) {
                    Some(e) => {
                        proof {
                            lemma_flush_tiles(entries0, op->0, e, p2, i);
                            lemma_pwsh_flush(entries0, op->0, e, p2);
                            lemma_pwsh_fits_flush(e, op->0, pieces, p2);
                            lemma_pwsh_free_add(entries0, e, p2);
                        }
                        result.add_entry(e);
                    },
                    None => {},
                }
                let (open, close) = count_braces_outside_quotes(trimmed);
                proof {
                    lemma_count_outside_bound(trimmed@, '{');
                    lemma_count_outside_bound(trimmed@, '}');
                }
                let brace_count = i32_saturating_sub(open as i32, close as i32);
                let func_block = PendingBlock::function(
                    func_name.clone(),
                    line_number,
                    line,
                    brace_count,
                );
                if brace_count == 0 && has_char(tchars.as_slice(), '}') {
                    let ghost fb = func_block;
                    let entry = self.build_entry_from_pending(func_block);
                    proof {
                        lemma_flush_tiles(result.entries@, fb, entry, p2, i + 1);
                        lemma_pwsh_flush(result.entries@, fb, entry, p2);
                        assert(p2.take(i + 1) =~= p2);
                        lemma_pwsh_free_add(result.entries@, entry, p2);
                    }
                    result.add_entry(entry);
                } else {
                    *active = Some(func_block);
                }
                return Ghost(line@);
            },
            None => {},
        }
        // Anything else is code; a comment block before it joins it.
        proof {
            assert(!pwsh_structured_line(trim(p2[i])));
        }
        if comment_pending(pending) {
            let mut p = pending.take().unwrap();
            let ghost pb = p;
            p.add_line(line, line_number);
            p.upgrade_to_code();
            proof {
                lemma_block_add_line(pb, p, p2, pb.start_line - 1, i);
                lemma_pwsh_span_grow(pb.start_line as int, i, p2);
                lemma_pwsh_kept_grow(block_type(pb), block_type(p), pb.start_line - 1, pieces, line@);
            }
            *pending = Some(p);
        } else {
            let ghost op = *pending;
            match self.flush_pending_comment_code(pending) {
                Some(entry) => {
                    proof {
                        lemma_flush_tiles(entries0, op->0, entry, p2, i);
                        lemma_pwsh_flush(entries0, op->0, entry, p2);
                        lemma_pwsh_fits_flush(entry, op->0, pieces, p2);
                        lemma_pwsh_free_add(entries0, entry, p2);
                    }
                    result.add_entry(entry);
                },
                None => {},
            }
            *pending = Some(PendingBlock::code(line_number, line));
        }
        Ghost(line@)
    }
}

impl Parser for PowerShellParser {
    open spec fn accepts(&self, content: Seq<char>) -> bool {
        pwsh_parsable(content)
    }

    /// Parse the content of a PowerShell profile into entries.
    ///
    /// The entries hold every line in order; a block left open at the end of
    /// the file is reported by one warning at its first line.
    ///
    /// Every alias, `$env:`, source or function entry is named by one of its
    /// own lines (see `pwsh_named_by`), and every comment or code entry by
    /// its line range (see `pwsh_span_named`). A line that gives a structured
    /// entry outside a multi-line block (see `pwsh_structured_line`) stands
    /// in such an entry, or in code after a line of it that opens a control
    /// structure (see `pwsh_lines_kept`). A warning comes exactly when the file
    /// ends inside a block (see `pwsh_open_after`), and names the kind of block
    /// that a line at or after its line begins.
    ///
    /// Where entries begin is fixed by `pwsh_breaks_at`: every entry starts at
    /// a line where it holds and no other line of the entry is one, so (the
    /// entries being laid end to end) each such line begins an entry
    /// (`law_pwsh_entries_begin_at_breaks`). A
    /// multi-line block lies in one entry; blank lines join the entry above
    /// unless it is a structured one; comment lines stay together and join
    /// code after them, but never an alias, `$env:`, source or function line,
    /// which always begins an entry of its own. The type of each entry is that
    /// of what waits after its last line (`pwsh_all_typed`).
    #[verifier::rlimit(40)]
    fn parse(&self, content: &str) -> (r: ParseResult)
        ensures
            r.warnings@.len() == 1 <==> pwsh_open_after(file_lines(content@)).is_some(),
            pwsh_all_free(r.entries@, file_lines(content@)),
            r.warnings@.len() == 1 ==> exists|j: int|
                r.warnings@[0].line_number - 1 <= j < file_lines(content@).len() && #[trigger] pwsh_warned(
                    r.warnings@[0].message@,
                    trim(file_lines(content@)[j]),
                ),
            pwsh_all_named(r.entries@, file_lines(content@)),
            pwsh_all_kept(r.entries@, file_lines(content@)),
    {
        let mut result = ParseResult::new();
        let mut active_block: Option<PendingBlock> = None;
        let mut pending_entry: Option<PendingBlock> = None;
        let mut control_depth: usize = 0;
        let lines = split_file_lines(content);
        let ghost all = file_lines(content@);
        proof {
            lemma_file_lines_size(content@);
            assert(all.take(0) =~= Seq::<Seq<char>>::empty());
            reveal(pwsh_all_typed);
        }
        let ghost mut pieces: Seq<Seq<char>> = Seq::empty();
        let mut idx: usize = 0;
        while idx < lines.len()
            invariant
                views(lines@) == all,
                all == file_lines(content@),
                pwsh_parsable(content@),
                lines_size(all) <= content@.len() + 1,
                idx <= lines@.len(),
                pieces_of(pieces, all.take(idx as int)),
                pwsh_scan_inv(
                    result.entries@,
                    active_block,
                    pending_entry,
                    control_depth,
                    pieces,
                    lines_size(all.take(idx as int)) as int,
                ),
                result.warnings@.len() == 0,
                pwsh_open_agrees(active_block, all.take(idx as int)),
                forall|m: int|
                    0 <= m <= idx ==> #[trigger] pwsh_open_after(pieces.take(m)) == pwsh_open_after(
                        all.take(m),
                    ),
                forall|m: int|
                    0 <= m <= idx ==> #[trigger] pwsh_pend_after(pieces.take(m)) == pwsh_pend_after(
                        all.take(m),
                    ),
            decreases lines@.len() - idx,
        {
            let line = lines[idx].as_str();
            let line_number = idx + 1;
            let lchars = str_chars(line);
            let tchars = trim_chars(lchars.as_slice());
            let trimmed_s = string_from_chars(tchars.as_slice());
            let trimmed = trimmed_s.as_str();
            let ghost bound = lines_size(all.take(idx as int)) as int;
            proof {
                assert(line@ == all[idx as int]);
                lemma_lines_size_step(all, idx as int);
                lemma_lines_size_prefix(all, idx + 1);
                assert(all.take(idx + 1).drop_last() =~= all.take(idx as int));
                assert(all.take(idx + 1).last() == line@);
                assert(pieces.take(idx as int) =~= pieces);
            }
            let piece = if active_block.is_some() {
                self.step_active(
                    &mut result,
                    &mut active_block,
                    &mut pending_entry,
                    &mut control_depth,
                    line,
                    trimmed,
                    line_number,
                    Ghost(pieces),
                    Ghost(bound),
                );
                Ghost(line@)
            } else {
                self.step_free(
                    &mut result,
                    &mut active_block,
                    &mut pending_entry,
                    &mut control_depth,
                    line,
                    trimmed,
                    line_number,
                    Ghost(pieces),
                    Ghost(bound),
                )
            };
            proof {
                let p0 = pieces;
                pieces = pieces.push(piece@);
                lemma_trim_idempotent(line@);
                assert(p0.take(idx as int) =~= p0);
                lemma_pwsh_open_prefixes_step(p0, all, idx as int, piece@, line@);
                lemma_pwsh_pend_prefixes_step(p0, all, idx as int, piece@, line@);
                assert(all.take(idx + 1) =~= all.take(idx as int).push(line@));
                assert(pieces_of(pieces, all.take(idx + 1))) by {
                    assert forall|j: int| 0 <= j < idx + 1 implies piece_ok(
                        #[trigger] pieces[j],
                        all.take(idx + 1)[j],
                    ) by {
                        if j < idx {
                            assert(pieces[j] == p0[j]);
                        }
                    }
                }
            }
            idx = idx + 1;
        }
        proof {
            assert(all.take(idx as int) =~= all);
        }
        let ghost entries_before = result.entries@;
        let ghost op = pending_entry;
        match self.flush_pending_comment_code(&mut pending_entry) {
            Some(entry) => {
                proof {
                    lemma_flush_tiles(entries_before, op->0, entry, pieces, pieces.len() as int);
                    lemma_pwsh_flush(entries_before, op->0, entry, pieces);
                    lemma_pwsh_fits_flush(entry, op->0, pieces, pieces);
                    lemma_pwsh_free_add(entries_before, entry, pieces);
                }
                result.add_entry(entry);
            },
            None => {},
        }
        match active_block {
            Some(block) => {
                let msg = match block.entry_hint {
                    Some(EntryType::Function) => "Unclosed function definition at end of file",
                    Some(EntryType::EnvVar) => "Unclosed environment variable Here-String at end of file",
                    _ => "Unclosed block at end of file",
                };
                proof {
                    reveal_strlit("");
                    let k = choose|k: int|
                        0 <= k < pieces.len() && block.start_line - 1 <= k < block.end_line
                            && #[trigger] pwsh_starts(block_type(block), trim(pieces[k]));
                    assert(piece_ok(pieces[k], all[k]));
                    lemma_trim_idempotent(all[k]);
                    assert(trim(pieces[k]) == trim(all[k]));
                    assert(pwsh_warned(msg@, trim(all[k])));
                }
                result.add_warning(ParseWarning::new(block.start_line, msg, ""));
            },
            None => {},
        }
        assert(crate::parser::layout::covers_file(result, pieces));
        assert(pieces_of(pieces, file_lines(content@)));
        proof {
            lemma_pwsh_entries_lines(result.entries@, pieces, file_lines(content@));
            lemma_pwsh_free_lines(result.entries@, pieces, file_lines(content@));
        }
        result
    }

    fn can_parse(&self, content: &str) -> (r: bool) {
        let chars = str_chars(content);
        chars.len() < 0x7fff_fffe
    }

    /// The shell this parser reads.
    fn shell_type(&self) -> (r: ShellType)
        ensures
            r == ShellType::PowerShell,
    {
        ShellType::PowerShell
    }
}

impl Default for PowerShellParser {
    fn default() -> (r: Self) {
        PowerShellParser::new()
    }
}

} // verus!
