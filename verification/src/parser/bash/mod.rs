//! Bash configuration file parser (`.bashrc`, `.bash_profile` and the like).
//!
//! Every line goes through one state machine: a multi-line structure
//! (function, control structure, quoted alias or export, parenthesised list)
//! is accumulated in an *active* block until its boundary is reached, and
//! comment, blank and code lines are merged in a *pending* block. A single
//! comment line merges down into the structured entry that follows it; a
//! structured entry absorbs the blank lines after it.
pub mod control;
pub mod parsers;
pub mod patterns;

use vstd::prelude::*;

use crate::parser::scan::{after_last, plain_path, stem_of};

use crate::model::entry::{code_name, comment_name, Entry, EntryType, ParseResult, ParseWarning};
use crate::model::shell::ShellType;
use crate::parser::bash::control::{
    control_end_count, control_start_count, count_control_end, count_control_start, count_opening,
    lemma_control_start_bound, opens_control,
};
use crate::parser::bash::parsers::{
    alias_complete, alias_started, detect_function_start, export_started, function_start,
    source_path, try_parse_alias, try_parse_env, try_parse_source,
};
use crate::parser::bash::patterns::{export_re, source_re};
use crate::parser::builders::comment::{views, CommentBlockBuilder};
use crate::parser::builders::{
    count_braces_outside_quotes, count_outside_quotes, count_parens_outside_quotes,
    lemma_count_outside_bound,
};
use crate::parser::layout::{
    block_covers, file_lines, lemma_block_add_line, lemma_block_stable, lemma_file_lines_size,
    lemma_flush_tiles, lemma_lines_size_prefix, lemma_lines_size_step, lemma_ready_stable,
    lemma_span_extend, lemma_span_single, lemma_span_stable, lemma_tiles_stable, lines_size,
    piece_ok, pieces_of, ready, span_text, split_all_lines, split_file_lines, tiles,
};
use crate::parser::pending::{
    absorbs_blank, absorbs_comment, boundary_complete, i32_saturating_sub, is_structured, one_line,
    sat_sub, sat_sub_i32, BoundaryType, MergeType, PendingBlock,
};
use crate::parser::{ParseEvent, Parser};
use crate::parser::layout::{covers_file, parse_covers};
use crate::text::{
    contains_seq, count_char, count_char_chars, dec, has_char, join_with, lemma_count_char_bound,
    lemma_join_split, lemma_split_on_nonempty, lemma_trim_idempotent, lemma_trim_len, push_decimal, push_str,
    split_on, starts_with, starts_with_str, str_chars, string_from_chars, string_from_str,
    string_push, trim, trim_chars, trim_end, trim_start,
};
use crate::model::entry::make_range_name;
use crate::model::entry::make_span_name;

verus! {

/// Bash configuration file parser.
pub struct BashParser;

/// The entry type of a finished block (code when it has no hint).
pub open spec fn block_type(b: PendingBlock) -> EntryType {
    match b.entry_hint {
        Some(t) => t,
        None => EntryType::Code,
    }
}

/// The name a block carries, or `L{start}`.
pub open spec fn given_name(b: PendingBlock) -> Seq<char> {
    match b.name {
        Some(n) => n@,
        None => "L"@ + dec(b.start_line as nat),
    }
}

/// Name of an anonymous function spanning several lines: `(fL{start}-L{end})`.
pub open spec fn anon_span_name(s: nat, e: nat) -> Seq<char> {
    "(fL"@ + dec(s) + "-L"@ + dec(e) + ")"@
}

/// The name of the entry built from a finished block.
pub open spec fn block_entry_name(b: PendingBlock) -> Seq<char> {
    let s = b.start_line as nat;
    let e = b.end_line as nat;
    match block_type(b) {
        EntryType::Function => if starts_with(given_name(b), "(fL"@) && s != e {
            anon_span_name(s, e)
        } else {
            given_name(b)
        },
        EntryType::Comment => comment_name(s, e),
        EntryType::Code => code_name(s, e),
        _ => given_name(b),
    }
}

/// `e` is the entry built from the finished block `b`.
pub open spec fn built_from(e: Entry, b: PendingBlock) -> bool {
    &&& e.entry_type == block_type(b)
    &&& e.name@ == block_entry_name(b)
    &&& e.value@ == b.content()
    &&& e.line_number == Some(b.start_line)
    &&& e.end_line == Some(b.end_line)
}

/// `L{s}-L{e}` or `#L{s}-L{e}`, always with both ends.
pub open spec fn span_name(prefix: Seq<char>, s: nat, e: nat) -> Seq<char> {
    prefix + dec(s) + "-L"@ + dec(e)
}

/// What `merge_pending_with_structured` gives for a pending block and the
/// structured entry after it: the entry to write out first, if any, and the
/// structured entry, with a single comment merged in front of it.
pub open spec fn merge_ok(pending: Option<PendingBlock>, entry: Entry, r: (Option<Entry>, Entry)) -> bool {
    match pending {
        None => r.0.is_none() && r.1 == entry,
        Some(p) => if is_structured(p.entry_hint) {
            r.0 matches Some(e) && built_from(e, p) && r.1 == entry
        } else if p.comment_count == 0 {
            &&& r.0 matches Some(e) && e.entry_type == EntryType::Code && e.name@ == span_name(
                "L"@,
                p.start_line as nat,
                p.end_line as nat,
            ) && e.value@ == p.content() && e.line_number == Some(p.start_line) && e.end_line
                == Some(p.end_line)
            &&& r.1 == entry
        } else if p.comment_count == 1 {
            &&& r.0.is_none()
            &&& r.1.entry_type == entry.entry_type
            &&& r.1.name == entry.name
            &&& r.1.value@ == p.content().push('\n') + entry.value@
            &&& r.1.line_number == Some(p.start_line)
            &&& r.1.end_line == Some(
                match entry.end_line {
                    Some(x) => x,
                    None => match entry.line_number {
                        Some(n) => n,
                        None => p.start_line,
                    },
                },
            )
        } else {
            &&& r.0 matches Some(e) && e.entry_type == EntryType::Comment && e.name@ == span_name(
                "#L"@,
                p.start_line as nat,
                p.end_line as nat,
            ) && e.value@ == p.content() && e.line_number == Some(p.start_line) && e.end_line
                == Some(p.end_line)
            &&& r.1 == entry
        },
    }
}

// ---------------------------------------------------------------------------
// Names of structured entries
// ---------------------------------------------------------------------------

/// The (trimmed) line names a structured entry of type `t` called `name`: the
/// line's alias or export pattern gives the name, the line's source path
/// contains it (and is the stem of its last component when the path is a
/// plain one), or the line starts a function of that name (an anonymous
/// function's name is one given to it, `(fL...`).
pub open spec fn bash_named_by(t: EntryType, name: Seq<char>, line: Seq<char>) -> bool {
    match t {
        EntryType::Alias => {
            ||| (alias_complete(line) matches Some((a, b)) && name == line.subrange(a, b))
            ||| (alias_started(line) matches Some((a, b)) && name == line.subrange(a, b))
        },
        EntryType::EnvVar => {
            ||| (export_started(line) matches Some((a, b)) && name == line.subrange(a, b))
            ||| (export_started(line).is_none() && (export_re(line) matches Some((a, b, _))
                && name == line.subrange(a, b)))
        },
        EntryType::Source => source_re(line) matches Some(j) && contains_seq(source_path(line, j), name) && (
        plain_path(source_path(line, j)) ==> name == stem_of(after_last(source_path(line, j), '/'))),
        EntryType::Function => function_start(line) matches Some((n, anon)) && if anon {
            starts_with(name, "(fL"@)
        } else {
            name == n || (starts_with(n, "(fL"@) && starts_with(name, "(fL"@))
        },
        _ => true,
    }
}

/// A structured entry or block of type `t` called `name`, over the lines
/// `lo+1 ..= hi`, is named by one of those lines.
pub open spec fn named_within(t: EntryType, name: Seq<char>, lo: int, hi: int, pieces: Seq<Seq<char>>) -> bool {
    is_structured(Some(t)) ==> exists|j: int|
        0 <= j < pieces.len() && lo <= j < hi && #[trigger] bash_named_by(t, name, trim(pieces[j]))
}

/// The last line of an entry.
pub open spec fn entry_end(e: Entry) -> int {
    match e.end_line {
        Some(x) => x as int,
        None => e.line_number->0 as int,
    }
}

/// Every entry records its last line; comment and code entries are named
/// by their lines: `#L{s}` or `#L{s}-L{e}` for comments, `L{s}` or
/// `L{s}-L{e}` for code.
pub open spec fn span_named(e: Entry) -> bool {
    let s = e.line_number->0 as nat;
    let t = entry_end(e) as nat;
    &&& e.end_line is Some
    &&& match e.entry_type {
        EntryType::Comment => e.name@ == comment_name(s, t) || e.name@ == span_name("#L"@, s, t),
        EntryType::Code => e.name@ == code_name(s, t) || e.name@ == span_name("L"@, s, t),
        _ => true,
    }
}

/// A structured entry is named by one of its lines.
pub open spec fn line_named(e: Entry, pieces: Seq<Seq<char>>) -> bool {
    named_within(e.entry_type, e.name@, e.line_number->0 - 1, entry_end(e), pieces)
}

/// The entry is named by one of its lines, or, for comments and code, by
/// its line range.
pub open spec fn entry_named(e: Entry, pieces: Seq<Seq<char>>) -> bool {
    &&& line_named(e, pieces)
    &&& span_named(e)
}

/// The block is named by one of its lines.
pub open spec fn block_named(b: PendingBlock, pieces: Seq<Seq<char>>) -> bool {
    match b.entry_hint {
        Some(t) => named_within(t, given_name(b), b.start_line - 1, b.end_line as int, pieces),
        None => true,
    }
}

/// A block, if any, is named by one of its lines.
pub open spec fn opt_named(o: Option<PendingBlock>, pieces: Seq<Seq<char>>) -> bool {
    match o {
        Some(b) => block_named(b, pieces),
        None => true,
    }
}

/// Every entry is named by one of its lines.
pub open spec fn all_named(es: Seq<Entry>, pieces: Seq<Seq<char>>) -> bool {
    forall|k: int| 0 <= k < es.len() ==> entry_named(#[trigger] es[k], pieces)
}

/// A source entry of a parse is named after the file it sources: one of its
/// lines is a `source` or `.` line whose path contains the name, and when
/// that path is a plain one the name is the stem of its last component
/// (`.profile` for `. ~/.profile`, `env` for `source ~/env.sh`).
pub proof fn law_bash_source_named_by_stem(es: Seq<Entry>, lines: Seq<Seq<char>>)
    requires
        all_named(es, lines),
    ensures
        forall|k: int|
            0 <= k < es.len() && (#[trigger] es[k]).entry_type == EntryType::Source ==> exists|j: int|
                0 <= j < lines.len() && es[k].line_number->0 - 1 <= j < entry_end(es[k]) && (source_re(
                    #[trigger] trim(lines[j]),
                ) matches Some(m) && contains_seq(source_path(trim(lines[j]), m), es[k].name@) && (plain_path(
                    source_path(trim(lines[j]), m),
                ) ==> es[k].name@ == stem_of(after_last(source_path(trim(lines[j]), m), '/')))),
{
    assert forall|k: int| 0 <= k < es.len() && (#[trigger] es[k]).entry_type == EntryType::Source implies exists|j: int|
        0 <= j < lines.len() && es[k].line_number->0 - 1 <= j < entry_end(es[k]) && (source_re(
            #[trigger] trim(lines[j]),
        ) matches Some(m) && contains_seq(source_path(trim(lines[j]), m), es[k].name@) && (plain_path(
            source_path(trim(lines[j]), m),
        ) ==> es[k].name@ == stem_of(after_last(source_path(trim(lines[j]), m), '/')))) by {
        assert(entry_named(es[k], lines));
        let j = choose|j: int|
            0 <= j < lines.len() && es[k].line_number->0 - 1 <= j < entry_end(es[k]) && #[trigger] bash_named_by(
                EntryType::Source,
                es[k].name@,
                trim(lines[j]),
            );
        assert(bash_named_by(EntryType::Source, es[k].name@, trim(lines[j])));
    }
}

/// A name stays given by a line of a span that widens, over lines that grow.
proof fn lemma_named_widen(
    t: EntryType,
    name: Seq<char>,
    lo: int,
    hi: int,
    lo2: int,
    hi2: int,
    pieces: Seq<Seq<char>>,
    pieces2: Seq<Seq<char>>,
)
    requires
        named_within(t, name, lo, hi, pieces),
        lo2 <= lo,
        hi <= hi2,
        hi <= pieces.len() <= pieces2.len(),
        forall|k: int| 0 <= k < pieces.len() ==> #[trigger] pieces2[k] == pieces[k],
    ensures
        named_within(t, name, lo2, hi2, pieces2),
{
    if is_structured(Some(t)) {
        let j = choose|j: int|
            0 <= j < pieces.len() && lo <= j < hi && #[trigger] bash_named_by(t, name, trim(pieces[j]));
        assert(pieces2[j] == pieces[j]);
        assert(bash_named_by(t, name, trim(pieces2[j])));
    }
}

/// A named block stays named as lines are added after it.
proof fn lemma_block_named_push(b: PendingBlock, pieces: Seq<Seq<char>>, x: Seq<char>, lo: int, hi: int)
    requires
        block_covers(b, pieces, lo, hi),
        block_named(b, pieces),
    ensures
        block_named(b, pieces.push(x)),
{
    match b.entry_hint {
        Some(t) => {
            lemma_named_widen(t, given_name(b), lo, hi, lo, hi, pieces, pieces.push(x));
        },
        None => {},
    }
}

/// Named entries that tile the first `k` lines stay named as lines are added.
proof fn lemma_all_named_push(es: Seq<Entry>, pieces: Seq<Seq<char>>, x: Seq<char>, k: int)
    requires
        tiles(es, pieces, k),
        all_named(es, pieces),
    ensures
        all_named(es, pieces.push(x)),
    decreases es.len(),
{
    if es.len() > 0 {
        let d = es.drop_last();
        let e = es.last();
        let lo = e.line_number.unwrap() - 1;
        assert(all_named(d, pieces)) by {
            assert forall|k2: int| 0 <= k2 < d.len() implies entry_named(#[trigger] d[k2], pieces) by {
                assert(d[k2] == es[k2]);
            }
        }
        lemma_all_named_push(d, pieces, x, lo);
        assert(entry_named(es[es.len() - 1], pieces));
        lemma_named_widen(e.entry_type, e.name@, lo, k, lo, k, pieces, pieces.push(x));
        assert forall|k2: int| 0 <= k2 < es.len() implies entry_named(#[trigger] es[k2], pieces.push(x)) by {
            if k2 < d.len() {
                assert(es[k2] == d[k2]);
            }
        }
    }
}

/// Adding a named entry keeps every entry named.
proof fn lemma_all_named_add(es: Seq<Entry>, e: Entry, pieces: Seq<Seq<char>>)
    requires
        all_named(es, pieces),
        entry_named(e, pieces),
    ensures
        all_named(es.push(e), pieces),
{
    assert forall|k: int| 0 <= k < es.push(e).len() implies entry_named(#[trigger] es.push(e)[k], pieces) by {
        if k < es.len() {
            assert(es.push(e)[k] == es[k]);
        }
    }
}

/// The entry built from a named block is named.
proof fn lemma_built_named(e: Entry, b: PendingBlock, pieces: Seq<Seq<char>>)
    requires
        built_from(e, b),
        block_named(b, pieces),
    ensures
        entry_named(e, pieces),
{
    reveal_strlit("(fL");
    match b.entry_hint {
        Some(t) => {
            if is_structured(Some(t)) {
                let lo = b.start_line - 1;
                let hi = b.end_line as int;
                let j = choose|j: int|
                    0 <= j < pieces.len() && lo <= j < hi && #[trigger] bash_named_by(
                        t,
                        given_name(b),
                        trim(pieces[j]),
                    );
                let s = b.start_line as nat;
                let en = b.end_line as nat;
                if t == EntryType::Function && starts_with(given_name(b), "(fL"@) && s != en {
                    let an = anon_span_name(s, en);
                    assert(an.subrange(0, 3) =~= "(fL"@);
                }
                assert(bash_named_by(t, e.name@, trim(pieces[j])));
            }
        },
        None => {},
    }
}

/// A complete, named entry kept pending to absorb blank lines stays named.
proof fn lemma_trailing_named(entry: Entry, b: PendingBlock, pieces: Seq<Seq<char>>)
    requires
        line_named(entry, pieces),
        entry.line_number is Some,
        b.start_line == entry.line_number->0,
        b.end_line == entry_end(entry),
        b.entry_hint == Some(entry.entry_type),
        b.name == Some(entry.name),
    ensures
        block_named(b, pieces),
{
}

/// Entries and a pending block, named and lying before line `i + 1`, stay
/// named when the line is added.
proof fn lemma_state_named_push(
    entries: Seq<Entry>,
    pending: Option<PendingBlock>,
    pieces: Seq<Seq<char>>,
    x: Seq<char>,
    i: int,
)
    requires
        ready(entries, pending, pieces, i),
        all_named(entries, pieces),
        opt_named(pending, pieces),
    ensures
        all_named(entries, pieces.push(x)),
        opt_named(pending, pieces.push(x)),
{
    match pending {
        Some(p) => {
            lemma_all_named_push(entries, pieces, x, p.start_line - 1);
            lemma_block_named_push(p, pieces, x, p.start_line - 1, i);
        },
        None => {
            lemma_all_named_push(entries, pieces, x, i);
        },
    }
}

/// Writing out a named block keeps every entry named.
proof fn lemma_flush_named(entries: Seq<Entry>, b: PendingBlock, e: Entry, pieces: Seq<Seq<char>>)
    requires
        all_named(entries, pieces),
        block_named(b, pieces),
        built_from(e, b),
    ensures
        all_named(entries.push(e), pieces),
{
    lemma_built_named(e, b, pieces);
    lemma_all_named_add(entries, e, pieces);
}

/// A named block that takes the next line, keeping its kind and name (or
/// becoming plain code), stays named.
proof fn lemma_block_named_grow(pb: PendingBlock, p: PendingBlock, pieces: Seq<Seq<char>>, x: Seq<char>, i: int)
    requires
        block_named(pb, pieces),
        block_covers(pb, pieces, pb.start_line - 1, i),
        p.entry_hint == pb.entry_hint || p.entry_hint == Some(EntryType::Code),
        p.name == pb.name,
        p.start_line == pb.start_line,
        p.end_line == i + 1,
    ensures
        block_named(p, pieces.push(x)),
{
    if p.entry_hint == pb.entry_hint {
        match pb.entry_hint {
            Some(t) => lemma_named_widen(
                t,
                given_name(pb),
                pb.start_line - 1,
                i,
                pb.start_line - 1,
                i + 1,
                pieces,
                pieces.push(x),
            ),
            None => {},
        }
    }
}

/// Names given by the kept lines are given by the lines themselves.
proof fn lemma_all_named_lines(es: Seq<Entry>, pieces: Seq<Seq<char>>, lines: Seq<Seq<char>>)
    requires
        pieces_of(pieces, lines),
        all_named(es, pieces),
    ensures
        all_named(es, lines),
{
    assert forall|k: int| 0 <= k < es.len() implies entry_named(#[trigger] es[k], lines) by {
        let e = es[k];
        assert(entry_named(e, pieces));
        if is_structured(Some(e.entry_type)) {
            let lo = e.line_number->0 - 1;
            let hi = entry_end(e);
            let j = choose|j: int|
                0 <= j < pieces.len() && lo <= j < hi && #[trigger] bash_named_by(
                    e.entry_type,
                    e.name@,
                    trim(pieces[j]),
                );
            assert(piece_ok(pieces[j], lines[j]));
            lemma_trim_idempotent(lines[j]);
            assert(trim(pieces[j]) == trim(lines[j]));
            assert(bash_named_by(e.entry_type, e.name@, trim(lines[j])));
        }
    }
}

// ---------------------------------------------------------------------------
// Structured lines are kept as structured entries
// ---------------------------------------------------------------------------

/// A (trimmed) line that, outside a multi-line block, gives a structured
/// entry: not blank, not a comment, opening no control structure, and
/// matching the alias, export, source or function patterns.
pub open spec fn bash_structured_line(t: Seq<char>) -> bool {
    &&& t.len() > 0
    &&& t[0] != '#'
    &&& control_start_count(t) == 0
    &&& {
        ||| alias_complete(t).is_some()
        ||| alias_started(t).is_some()
        ||| export_started(t).is_some()
        ||| export_re(t).is_some()
        ||| source_re(t).is_some()
        ||| function_start(t).is_some()
    }
}

/// A (trimmed) line that opens a multi-line block of code: a control
/// structure, or a parenthesis left open.
pub open spec fn bash_opener(t: Seq<char>) -> bool {
    control_start_count(t) > 0 || count_outside_quotes(t, '(') > count_outside_quotes(t, ')')
}

/// Over the lines `lo+1 ..= hi` of an entry or block of type `t`: the
/// entry is structured, or each structured line in it comes after a line of
/// it that opens a block.
pub open spec fn lines_kept(t: EntryType, lo: int, hi: int, pieces: Seq<Seq<char>>) -> bool {
    is_structured(Some(t)) || forall|j: int|
        0 <= j < pieces.len() && lo <= j < hi && #[trigger] bash_structured_line(trim(pieces[j]))
            ==> exists|k: int| 0 <= k && lo <= k <= j && #[trigger] bash_opener(trim(pieces[k]))
}

/// The entry keeps its structured lines (see `lines_kept`).
pub open spec fn entry_kept(e: Entry, pieces: Seq<Seq<char>>) -> bool {
    lines_kept(e.entry_type, e.line_number->0 - 1, entry_end(e), pieces)
}

/// The block keeps its structured lines (see `lines_kept`).
pub open spec fn block_kept(b: PendingBlock, pieces: Seq<Seq<char>>) -> bool {
    lines_kept(block_type(b), b.start_line - 1, b.end_line as int, pieces)
}

/// A block, if any, keeps its structured lines.
pub open spec fn opt_kept(o: Option<PendingBlock>, pieces: Seq<Seq<char>>) -> bool {
    match o {
        Some(b) => block_kept(b, pieces),
        None => true,
    }
}

/// Every entry keeps its structured lines.
pub open spec fn all_kept(es: Seq<Entry>, pieces: Seq<Seq<char>>) -> bool {
    forall|k: int| 0 <= k < es.len() ==> entry_kept(#[trigger] es[k], pieces)
}

/// A (trimmed) line that begins a multi-line block of type `t`: a function
/// definition, an alias or export whose quote is left open, or, for code, a
/// line that opens a block.
pub open spec fn bash_starts(t: EntryType, line: Seq<char>) -> bool {
    match t {
        EntryType::Function => function_start(line).is_some(),
        EntryType::Alias => alias_started(line).is_some(),
        EntryType::EnvVar => export_started(line).is_some(),
        _ => bash_opener(line),
    }
}

/// The end-of-file warning `m` names the kind of block that the (trimmed)
/// line begins.
pub open spec fn bash_warned(m: Seq<char>, line: Seq<char>) -> bool {
    ||| m == "Unclosed function definition at end of file"@ && bash_starts(EntryType::Function, line)
    ||| m == "Unclosed multi-line alias at end of file"@ && bash_starts(EntryType::Alias, line)
    ||| m == "Unclosed multi-line export at end of file"@ && bash_starts(EntryType::EnvVar, line)
    ||| m == "Unclosed block at end of file"@ && bash_opener(line)
}

/// A block that is structured or has a line opening a block, and that has
/// a line beginning a block of its type.
pub open spec fn block_opened(b: PendingBlock, pieces: Seq<Seq<char>>) -> bool {
    &&& is_structured(Some(block_type(b))) || exists|k: int|
        0 <= k < pieces.len() && b.start_line - 1 <= k < b.end_line && #[trigger] bash_opener(
            trim(pieces[k]),
        )
    &&& exists|k: int|
        0 <= k < pieces.len() && b.start_line - 1 <= k < b.end_line && #[trigger] bash_starts(
            block_type(b),
            trim(pieces[k]),
        )
}

/// An active block, if any, is opened.
pub open spec fn opt_opened(o: Option<PendingBlock>, pieces: Seq<Seq<char>>) -> bool {
    match o {
        Some(b) => block_opened(b, pieces),
        None => true,
    }
}

/// Lines kept over a span stay kept as lines are added after it.
proof fn lemma_kept_push(t: EntryType, lo: int, hi: int, pieces: Seq<Seq<char>>, x: Seq<char>)
    requires
        lines_kept(t, lo, hi, pieces),
        hi <= pieces.len(),
    ensures
        lines_kept(t, lo, hi, pieces.push(x)),
{
    let p2 = pieces.push(x);
    if !is_structured(Some(t)) {
        assert forall|j: int|
            0 <= j < p2.len() && lo <= j < hi && #[trigger] bash_structured_line(trim(p2[j])) implies exists|k: int|
                0 <= k && lo <= k <= j && #[trigger] bash_opener(trim(p2[k])) by {
            assert(p2[j] == pieces[j]);
            let k = choose|k: int| 0 <= k && lo <= k <= j && #[trigger] bash_opener(trim(pieces[k]));
            assert(p2[k] == pieces[k]);
        }
    }
}

/// A span that keeps its lines takes one more line at its end, when the new
/// type is structured, or the old type is not and the new line is not
/// structured or comes after an opening line.
proof fn lemma_kept_grow(
    t_old: EntryType,
    t_new: EntryType,
    lo: int,
    pieces: Seq<Seq<char>>,
    x: Seq<char>,
)
    requires
        lines_kept(t_old, lo, pieces.len() as int, pieces),
        is_structured(Some(t_new)) || (!is_structured(Some(t_old)) && (!bash_structured_line(trim(x))
            || exists|k: int|
            0 <= k && lo <= k <= pieces.len() && #[trigger] bash_opener(trim(pieces.push(x)[k])))),
    ensures
        lines_kept(t_new, lo, pieces.len() + 1int, pieces.push(x)),
{
    let p2 = pieces.push(x);
    let i = pieces.len() as int;
    if !is_structured(Some(t_new)) {
        assert forall|j: int|
            0 <= j < p2.len() && lo <= j < i + 1 && #[trigger] bash_structured_line(trim(p2[j])) implies exists|k: int|
                0 <= k && lo <= k <= j && #[trigger] bash_opener(trim(p2[k])) by {
            if j < i {
                assert(p2[j] == pieces[j]);
                let k = choose|k: int| 0 <= k && lo <= k <= j && #[trigger] bash_opener(trim(pieces[k]));
                assert(p2[k] == pieces[k]);
            } else {
                assert(p2[j] == x);
            }
        }
    }
}

/// Kept lines up to line `i` stay kept with line `i + 1` when that line is
/// not structured or comes after an opening line.
proof fn lemma_kept_close(t: EntryType, lo: int, i: int, pieces: Seq<Seq<char>>)
    requires
        lines_kept(t, lo, i, pieces),
        0 <= i < pieces.len(),
        !bash_structured_line(trim(pieces[i])) || exists|k: int|
            0 <= k && lo <= k <= i && #[trigger] bash_opener(trim(pieces[k])),
    ensures
        lines_kept(t, lo, i + 1, pieces),
{
}

/// A block is opened by a line of it that opens a block, or stays opened as
/// lines are added.
proof fn lemma_opened_push(b: PendingBlock, b2: PendingBlock, pieces: Seq<Seq<char>>, x: Seq<char>)
    requires
        block_opened(b, pieces),
        b.end_line <= pieces.len(),
        b2.start_line == b.start_line,
        b2.end_line >= b.end_line,
        block_type(b2) == block_type(b),
    ensures
        block_opened(b2, pieces.push(x)),
{
    if !is_structured(Some(block_type(b))) {
        let k = choose|k: int|
            0 <= k < pieces.len() && b.start_line - 1 <= k < b.end_line && #[trigger] bash_opener(
                trim(pieces[k]),
            );
        assert(pieces.push(x)[k] == pieces[k]);
    }
    let k2 = choose|k: int|
        0 <= k < pieces.len() && b.start_line - 1 <= k < b.end_line && #[trigger] bash_starts(
            block_type(b),
            trim(pieces[k]),
        );
    assert(pieces.push(x)[k2] == pieces[k2]);
}

/// Kept entries that tile the first `k` lines stay kept as lines are added.
proof fn lemma_all_kept_push(es: Seq<Entry>, pieces: Seq<Seq<char>>, x: Seq<char>, k: int)
    requires
        tiles(es, pieces, k),
        all_kept(es, pieces),
    ensures
        all_kept(es, pieces.push(x)),
    decreases es.len(),
{
    if es.len() > 0 {
        let d = es.drop_last();
        let e = es.last();
        let lo = e.line_number.unwrap() - 1;
        assert(all_kept(d, pieces)) by {
            assert forall|k2: int| 0 <= k2 < d.len() implies entry_kept(#[trigger] d[k2], pieces) by {
                assert(d[k2] == es[k2]);
            }
        }
        lemma_all_kept_push(d, pieces, x, lo);
        assert(entry_kept(es[es.len() - 1], pieces));
        lemma_kept_push(e.entry_type, lo, k, pieces, x);
        assert forall|k2: int| 0 <= k2 < es.len() implies entry_kept(#[trigger] es[k2], pieces.push(x)) by {
            if k2 < d.len() {
                assert(es[k2] == d[k2]);
            }
        }
    }
}

/// Writing out a kept block keeps every entry kept.
proof fn lemma_flush_kept(entries: Seq<Entry>, b: PendingBlock, e: Entry, pieces: Seq<Seq<char>>)
    requires
        all_kept(entries, pieces),
        block_kept(b, pieces),
        built_from(e, b),
    ensures
        all_kept(entries.push(e), pieces),
{
    assert(entry_kept(e, pieces));
    assert forall|k: int| 0 <= k < entries.push(e).len() implies entry_kept(#[trigger] entries.push(e)[k], pieces) by {
        if k < entries.len() {
            assert(entries.push(e)[k] == entries[k]);
        }
    }
}

/// Adding a kept entry keeps every entry kept.
proof fn lemma_all_kept_add(es: Seq<Entry>, e: Entry, pieces: Seq<Seq<char>>)
    requires
        all_kept(es, pieces),
        entry_kept(e, pieces),
    ensures
        all_kept(es.push(e), pieces),
{
    assert forall|k: int| 0 <= k < es.push(e).len() implies entry_kept(#[trigger] es.push(e)[k], pieces) by {
        if k < es.len() {
            assert(es.push(e)[k] == es[k]);
        }
    }
}

/// Entries and a pending block lying before line `i + 1` stay kept when the
/// line is added.
proof fn lemma_state_kept_push(
    entries: Seq<Entry>,
    pending: Option<PendingBlock>,
    pieces: Seq<Seq<char>>,
    x: Seq<char>,
    i: int,
)
    requires
        ready(entries, pending, pieces, i),
        all_kept(entries, pieces),
        opt_kept(pending, pieces),
    ensures
        all_kept(entries, pieces.push(x)),
        opt_kept(pending, pieces.push(x)),
{
    match pending {
        Some(p) => {
            lemma_all_kept_push(entries, pieces, x, p.start_line - 1);
            lemma_kept_push(block_type(p), p.start_line - 1, i, pieces, x);
        },
        None => {
            lemma_all_kept_push(entries, pieces, x, i);
        },
    }
}

/// Kept lines over the kept pieces are kept over the lines themselves.
proof fn lemma_all_kept_lines(es: Seq<Entry>, pieces: Seq<Seq<char>>, lines: Seq<Seq<char>>)
    requires
        pieces_of(pieces, lines),
        all_kept(es, pieces),
    ensures
        all_kept(es, lines),
{
    assert forall|k: int| 0 <= k < es.len() implies entry_kept(#[trigger] es[k], lines) by {
        let e = es[k];
        assert(entry_kept(e, pieces));
        if !is_structured(Some(e.entry_type)) {
            let lo = e.line_number->0 - 1;
            let hi = entry_end(e);
            assert forall|j: int|
                0 <= j < lines.len() && lo <= j < hi && #[trigger] bash_structured_line(trim(lines[j])) implies exists|k2: int|
                    0 <= k2 && lo <= k2 <= j && #[trigger] bash_opener(trim(lines[k2])) by {
                assert(piece_ok(pieces[j], lines[j]));
                lemma_trim_idempotent(lines[j]);
                assert(trim(pieces[j]) == trim(lines[j]));
                let k2 = choose|k2: int| 0 <= k2 && lo <= k2 <= j && #[trigger] bash_opener(trim(pieces[k2]));
                assert(piece_ok(pieces[k2], lines[k2]));
                lemma_trim_idempotent(lines[k2]);
                assert(trim(pieces[k2]) == trim(lines[k2]));
            }
        }
    }
}

/// A counter of a block stays within `bound`.
pub open spec fn counts_within(b: BoundaryType, bound: int) -> bool {
    match b {
        BoundaryType::BraceCounting { brace_count } => brace_count <= bound,
        BoundaryType::ParenthesisCounting { parenthesis_count } => parenthesis_count <= bound,
        BoundaryType::QuoteCounting { quote_count } => quote_count <= bound,
        BoundaryType::KeywordTracking { depth } => depth <= bound,
        _ => true,
    }
}

/// A span starting at line `s` (1-based) starts at the file's first line
/// or at a line that is not blank, and where the lines before it leave no
/// block open (see `bash_open_after`).
pub open spec fn starts_well(s: int, pieces: Seq<Seq<char>>) -> bool {
    &&& s == 1 || (2 <= s <= pieces.len() && trim(pieces[s - 1]).len() > 0)
    &&& bash_open_after(pieces.take(s - 1)).is_none()
    &&& bash_breaks_at(pieces, s - 1)
}

/// The lines `s ..= e` (from 1) form one entry: the first begins an entry
/// (see `starts_well`) and none of the others does.
pub open spec fn span_well(s: int, e: int, pieces: Seq<Seq<char>>) -> bool {
    starts_well(s, pieces) && no_break_in(s, e, pieces)
}

/// An entry of type `t` stands for what waits after its last line: a
/// structured entry, comment lines, or code.
pub open spec fn type_fits(t: EntryType, p: PendKind) -> bool {
    match p {
        PendKind::Structured => is_structured(Some(t)),
        PendKind::LoneComment => t == EntryType::Comment,
        PendKind::Comments => t == EntryType::Comment,
        PendKind::Code => t == EntryType::Code,
        PendKind::CommentedCode => t == EntryType::Code,
        PendKind::Nothing => false,
    }
}

/// The type of every entry is that of what waits after its last line (see
/// `bash_pend_after`).
#[verifier::opaque]
pub open spec fn all_typed(es: Seq<Entry>, pieces: Seq<Seq<char>>) -> bool {
    forall|k: int|
        0 <= k < es.len() ==> type_fits(
            (#[trigger] es[k]).entry_type,
            bash_pend_after(pieces.take(entry_end(es[k]))),
        )
}

/// Every entry starts well, no line inside it begins an entry, and its type
/// is that of what waits after its last line (see `all_typed`).
pub open spec fn all_start_well(es: Seq<Entry>, pieces: Seq<Seq<char>>) -> bool {
    &&& forall|k: int|
        0 <= k < es.len() ==> span_well((#[trigger] es[k]).line_number->0 as int, entry_end(es[k]), pieces)
    &&& all_typed(es, pieces)
}

/// An entry written out from a pending block, with a type that fits the
/// block, has the type of what waited after the block's last line.
proof fn lemma_fits_flush(e: Entry, pb: PendingBlock, pieces: Seq<Seq<char>>, p2: Seq<Seq<char>>)
    requires
        type_fits(e.entry_type, pend_kind(Some(pb))),
        entry_end(e) == pb.end_line,
        bash_pend_after(pieces) == pend_kind(Some(pb)),
        pb.end_line == pieces.len(),
        pieces.len() <= p2.len(),
        forall|j: int| 0 <= j < pieces.len() ==> p2[j] == pieces[j],
    ensures
        type_fits(e.entry_type, bash_pend_after(p2.take(entry_end(e)))),
{
    assert(p2.take(pieces.len() as int) =~= pieces);
}

/// A block, if any, starts well, and no line inside it begins an entry.
pub open spec fn opt_start_well(o: Option<PendingBlock>, pieces: Seq<Seq<char>>) -> bool {
    match o {
        Some(b) => span_well(b.start_line as int, b.end_line as int, pieces),
        None => true,
    }
}

/// Starts stay unblank as lines are added.
proof fn lemma_starts_push(es: Seq<Entry>, o: Option<PendingBlock>, pieces: Seq<Seq<char>>, x: Seq<char>)
    requires
        all_start_well(es, pieces),
        opt_start_well(o, pieces),
    ensures
        all_start_well(es, pieces.push(x)),
        opt_start_well(o, pieces.push(x)),
{
    assert forall|k: int| 0 <= k < es.len() implies span_well(
        (#[trigger] es[k]).line_number->0 as int,
        entry_end(es[k]),
        pieces.push(x),
    ) by {
        let st = es[k].line_number->0 as int;
        if st >= 2 {
            assert(pieces.push(x)[st - 1] == pieces[st - 1]);
        }
        assert(pieces.push(x).take(st - 1) =~= pieces.take(st - 1));
        lemma_start_stable(st, pieces, x);
        lemma_no_break_push(st, entry_end(es[k]), pieces, x);
    }
    reveal(all_typed);
    assert forall|k: int| 0 <= k < es.len() implies type_fits(
        (#[trigger] es[k]).entry_type,
        bash_pend_after(pieces.push(x).take(entry_end(es[k]))),
    ) by {
        assert(span_well(es[k].line_number->0 as int, entry_end(es[k]), pieces));
        assert(pieces.push(x).take(entry_end(es[k])) =~= pieces.take(entry_end(es[k])));
    }
    match o {
        Some(b) => {
            if b.start_line >= 2 {
                assert(pieces.push(x)[b.start_line - 1] == pieces[b.start_line - 1]);
            }
            assert(pieces.push(x).take(b.start_line - 1) =~= pieces.take(b.start_line - 1));
            lemma_start_stable(b.start_line as int, pieces, x);
            lemma_no_break_push(b.start_line as int, b.end_line as int, pieces, x);
        },
        None => {},
    }
}

/// A start that begins an entry still does as lines are added after it.
proof fn lemma_start_stable(s: int, pieces: Seq<Seq<char>>, x: Seq<char>)
    requires
        starts_well(s, pieces),
    ensures
        bash_breaks_at(pieces.push(x), s - 1),
{
    if s >= 2 {
        lemma_breaks_stable(pieces, x, s - 1);
    } else {
        assert(pieces.push(x).take(0) =~= pieces.take(0));
    }
}

/// Adding an entry that starts unblank keeps all starts unblank.
proof fn lemma_starts_add(es: Seq<Entry>, e: Entry, pieces: Seq<Seq<char>>)
    requires
        all_start_well(es, pieces),
        span_well(e.line_number->0 as int, entry_end(e), pieces),
        type_fits(e.entry_type, bash_pend_after(pieces.take(entry_end(e)))),
    ensures
        all_start_well(es.push(e), pieces),
{
    assert forall|k: int| 0 <= k < es.push(e).len() implies span_well(
        (#[trigger] es.push(e)[k]).line_number->0 as int,
        entry_end(es.push(e)[k]),
        pieces,
    ) by {
        if k < es.len() {
            assert(es.push(e)[k] == es[k]);
        }
    }
    reveal(all_typed);
    assert forall|k: int| 0 <= k < es.push(e).len() implies type_fits(
        (#[trigger] es.push(e)[k]).entry_type,
        bash_pend_after(pieces.take(entry_end(es.push(e)[k]))),
    ) by {
        if k < es.len() {
            assert(es.push(e)[k] == es[k]);
        }
    }
}

/// Starts that are unblank over the kept lines are unblank over the lines.
proof fn lemma_starts_lines(es: Seq<Entry>, o: Option<PendingBlock>, pieces: Seq<Seq<char>>, lines: Seq<Seq<char>>)
    requires
        pieces_of(pieces, lines),
        forall|m: int| 0 <= m <= lines.len() ==> #[trigger] bash_open_after(pieces.take(m)) == bash_open_after(
            lines.take(m),
        ),
        forall|j: int| 0 <= j < lines.len() ==> #[trigger] bash_breaks_at(pieces, j) == bash_breaks_at(lines, j),
        forall|m: int| 0 <= m <= lines.len() ==> #[trigger] bash_pend_after(pieces.take(m)) == bash_pend_after(
            lines.take(m),
        ),
        all_start_well(es, pieces),
        opt_start_well(o, pieces),
    ensures
        all_start_well(es, lines),
        opt_start_well(o, lines),
{
    assert forall|k: int| 0 <= k < es.len() implies span_well(
        (#[trigger] es[k]).line_number->0 as int,
        entry_end(es[k]),
        lines,
    ) by {
        let st = es[k].line_number->0 as int;
        if st >= 2 {
            assert(piece_ok(pieces[st - 1], lines[st - 1]));
            lemma_trim_idempotent(lines[st - 1]);
        }
        assert(bash_open_after(pieces.take(st - 1)) == bash_open_after(lines.take(st - 1)));
        assert(bash_breaks_at(pieces, st - 1) == bash_breaks_at(lines, st - 1));
        assert forall|j: int| st <= j < entry_end(es[k]) implies !#[trigger] bash_breaks_at(lines, j) by {
            assert(bash_breaks_at(pieces, j) == bash_breaks_at(lines, j));
        }
    }
    match o {
        Some(b) => {
            let st = b.start_line as int;
            if st >= 2 {
                assert(piece_ok(pieces[st - 1], lines[st - 1]));
                lemma_trim_idempotent(lines[st - 1]);
            }
            assert(bash_open_after(pieces.take(st - 1)) == bash_open_after(lines.take(st - 1)));
            assert(bash_breaks_at(pieces, st - 1) == bash_breaks_at(lines, st - 1));
            assert forall|j: int| st <= j < b.end_line implies !#[trigger] bash_breaks_at(lines, j) by {
                assert(bash_breaks_at(pieces, j) == bash_breaks_at(lines, j));
            }
        },
        None => {},
    }
    reveal(all_typed);
    assert forall|k: int| 0 <= k < es.len() implies type_fits(
        (#[trigger] es[k]).entry_type,
        bash_pend_after(lines.take(entry_end(es[k]))),
    ) by {
        assert(span_well(es[k].line_number->0 as int, entry_end(es[k]), pieces));
        assert(bash_pend_after(pieces.take(entry_end(es[k]))) == bash_pend_after(lines.take(entry_end(es[k]))));
    }
}

/// Comment lines among the kept lines are comment lines of the file.
proof fn lemma_comments_lines(es: Seq<Entry>, pieces: Seq<Seq<char>>, lines: Seq<Seq<char>>)
    requires
        pieces_of(pieces, lines),
        comments_grouped(es, pieces),
    ensures
        comments_grouped(es, lines),
{
    assert forall|k: int|
        0 <= k < es.len() && (#[trigger] es[k]).entry_type == EntryType::Comment implies two_comments(
        es[k].line_number->0 - 1,
        entry_end(es[k]),
        lines,
    ) by {
        let (a, b) = choose|a: int, b: int|
            es[k].line_number->0 - 1 <= a < b < entry_end(es[k]) && #[trigger] comment_at(pieces, a)
                && #[trigger] comment_at(pieces, b);
        assert(piece_ok(pieces[a], lines[a]));
        assert(piece_ok(pieces[b], lines[b]));
        lemma_trim_idempotent(lines[a]);
        lemma_trim_idempotent(lines[b]);
        assert(comment_at(lines, a) && comment_at(lines, b));
    }
}

/// A line that opens a control structure is not blank.
proof fn lemma_blank_opens_nothing()
    ensures
        control_start_count(Seq::<char>::empty()) == 0,
{
    reveal_strlit("if ");
    reveal_strlit("if");
    reveal_strlit("while ");
    reveal_strlit("while");
    reveal_strlit("until ");
    reveal_strlit("until");
    reveal_strlit("for ");
    reveal_strlit("case ");
    reveal_strlit("select ");
    let e = Seq::<char>::empty();
    assert(split_on(e, ';') == seq![e]);
    assert(seq![e].drop_last() =~= Seq::<Seq<char>>::empty());
    assert(trim_start(e) == e);
    assert(trim_end(e) == e);
    assert(trim(e) == e);
    assert(!opens_control(e));
    assert(count_opening(seq![e]) == count_opening(Seq::<Seq<char>>::empty()) + 0nat);
}

/// The kept line at index `j` is a comment line.
pub open spec fn comment_at(pieces: Seq<Seq<char>>, j: int) -> bool {
    0 <= j < pieces.len() && trim(pieces[j]).len() > 0 && trim(pieces[j])[0] == '#'
}

/// The lines `lo+1 ..= hi` hold two comment lines.
pub open spec fn two_comments(lo: int, hi: int, pieces: Seq<Seq<char>>) -> bool {
    exists|a: int, b: int| lo <= a < b < hi && #[trigger] comment_at(pieces, a) && #[trigger] comment_at(pieces, b)
}

/// Every comment entry holds two comment lines or more: a single comment
/// line joins the entry after it.
pub open spec fn comments_grouped(es: Seq<Entry>, pieces: Seq<Seq<char>>) -> bool {
    forall|k: int|
        0 <= k < es.len() && (#[trigger] es[k]).entry_type == EntryType::Comment ==> two_comments(
            es[k].line_number->0 - 1,
            entry_end(es[k]),
            pieces,
        )
}

/// A pending comment block takes comment lines, starts at one, and holds
/// two when it counts two or more; a block of another kind counts at most
/// one and does not take comment lines.
pub open spec fn pending_comment_ok(o: Option<PendingBlock>, pieces: Seq<Seq<char>>) -> bool {
    match o {
        Some(p) => if p.entry_hint == Some(EntryType::Comment) {
            &&& p.boundary == (BoundaryType::AdjacentMerging { merge_type: MergeType::Comment })
            &&& p.comment_count >= 1
            &&& comment_at(pieces, p.start_line - 1)
            &&& p.comment_count >= 2 ==> two_comments(p.start_line - 1, p.end_line as int, pieces)
        } else {
            &&& p.comment_count <= 1
            &&& p.boundary != (BoundaryType::AdjacentMerging { merge_type: MergeType::Comment })
        },
        None => true,
    }
}

/// Comment facts stay true as lines are added after them.
proof fn lemma_comments_push(es: Seq<Entry>, o: Option<PendingBlock>, pieces: Seq<Seq<char>>, x: Seq<char>)
    requires
        comments_grouped(es, pieces),
        pending_comment_ok(o, pieces),
    ensures
        comments_grouped(es, pieces.push(x)),
        pending_comment_ok(o, pieces.push(x)),
{
    let p2 = pieces.push(x);
    assert forall|k: int|
        0 <= k < es.len() && (#[trigger] es[k]).entry_type == EntryType::Comment implies two_comments(
        es[k].line_number->0 - 1,
        entry_end(es[k]),
        p2,
    ) by {
        let (a, b) = choose|a: int, b: int|
            es[k].line_number->0 - 1 <= a < b < entry_end(es[k]) && #[trigger] comment_at(pieces, a)
                && #[trigger] comment_at(pieces, b);
        assert(p2[a] == pieces[a] && p2[b] == pieces[b]);
        assert(comment_at(p2, a) && comment_at(p2, b));
    }
    match o {
        Some(p) => {
            if p.entry_hint == Some(EntryType::Comment) {
                assert(p2[p.start_line - 1] == pieces[p.start_line - 1]);
                if p.comment_count >= 2 {
                    let (a, b) = choose|a: int, b: int|
                        p.start_line - 1 <= a < b < p.end_line && #[trigger] comment_at(pieces, a)
                            && #[trigger] comment_at(pieces, b);
                    assert(p2[a] == pieces[a] && p2[b] == pieces[b]);
                    assert(comment_at(p2, a) && comment_at(p2, b));
                }
            }
        },
        None => {},
    }
}

/// Two comment lines of a span lie in any span around it.
proof fn lemma_two_comments_widen(lo: int, hi: int, lo2: int, hi2: int, pieces: Seq<Seq<char>>)
    requires
        two_comments(lo, hi, pieces),
        lo2 <= lo,
        hi <= hi2,
    ensures
        two_comments(lo2, hi2, pieces),
{
    let (a, b) = choose|a: int, b: int|
        lo <= a < b < hi && #[trigger] comment_at(pieces, a) && #[trigger] comment_at(pieces, b);
    assert(comment_at(pieces, a) && comment_at(pieces, b));
}

/// A comment entry added with two comment lines keeps comments grouped, as
/// does an entry of another kind.
proof fn lemma_comments_add(es: Seq<Entry>, e: Entry, pieces: Seq<Seq<char>>)
    requires
        comments_grouped(es, pieces),
        e.entry_type == EntryType::Comment ==> two_comments(e.line_number->0 - 1, entry_end(e), pieces),
    ensures
        comments_grouped(es.push(e), pieces),
{
    assert forall|k: int|
        0 <= k < es.push(e).len() && (#[trigger] es.push(e)[k]).entry_type == EntryType::Comment implies two_comments(
        es.push(e)[k].line_number->0 - 1,
        entry_end(es.push(e)[k]),
        pieces,
    ) by {
        if k < es.len() {
            assert(es.push(e)[k] == es[k]);
        }
    }
}

/// The state of the parse after the lines kept by `pieces`; `bound` is their
/// size, which bounds every counter.
pub open spec fn scan_inv(
    entries: Seq<Entry>,
    active: Option<PendingBlock>,
    pending: Option<PendingBlock>,
    control_depth: usize,
    pieces: Seq<Seq<char>>,
    bound: int,
) -> bool {
    let i = pieces.len() as int;
    &&& i <= bound
    &&& all_named(entries, pieces)
    &&& opt_named(active, pieces)
    &&& opt_named(pending, pieces)
    &&& all_kept(entries, pieces)
    &&& opt_kept(active, pieces)
    &&& opt_kept(pending, pieces)
    &&& opt_opened(active, pieces)
    &&& all_start_well(entries, pieces)
    &&& opt_start_well(active, pieces)
    &&& opt_start_well(pending, pieces)
    &&& comments_grouped(entries, pieces)
    &&& pending_comment_ok(pending, pieces)
    &&& (i >= 1 && active.is_none()) ==> (pending matches Some(p) && p.boundary is AdjacentMerging)
    &&& bash_pend_after(pieces) == pend_kind(pending)
    &&& pending matches Some(p) ==> p.entry_hint.is_some()
    &&& match active {
        Some(a) => {
            &&& pending.is_none()
            &&& a.entry_hint != Some(EntryType::Comment)
            &&& a.start_line >= 1
            &&& tiles(entries, pieces, a.start_line - 1)
            &&& block_covers(a, pieces, a.start_line - 1, i)
            &&& counts_within(a.boundary, bound)
            &&& control_depth <= bound
            &&& !(a.boundary is KeywordTracking) ==> control_depth == 0
            &&& a.boundary is KeywordTracking ==> a.entry_hint == Some(EntryType::Code)
            &&& a.boundary is ParenthesisCounting ==> a.entry_hint == Some(EntryType::Code)
            &&& (a.boundary is QuoteCounting || a.boundary is BraceCounting) ==> is_structured(
                a.entry_hint,
            )
        },
        None => control_depth == 0 && ready(entries, pending, pieces, i),
    }
}

/// The block that a line outside any block opens, and how it is counted
/// towards its end: a control structure by keyword depth; an alias or
/// export whose single quote is left open by quotes; a function whose
/// braces do not close on its line by braces; a parenthesis left open by
/// parentheses. Blank, comment, complete alias, export and source lines,
/// and other code, open none.
pub open spec fn bash_free_open(line: Seq<char>) -> Option<BoundaryType> {
    let t = trim(line);
    let braces = sat_sub_i32(
        count_outside_quotes(t, '{') as i32 as int,
        count_outside_quotes(t, '}') as i32 as int,
    );
    if control_start_count(t) > 0 {
        Some(BoundaryType::KeywordTracking { depth: control_start_count(t) as usize })
    } else if t.len() == 0 || t[0] == '#' {
        None
    } else if alias_complete(t).is_some() {
        None
    } else if alias_started(t).is_some() || export_started(t).is_some() {
        Some(BoundaryType::QuoteCounting { quote_count: count_char(t, '\'') as usize })
    } else if export_re(t).is_some() || source_re(t).is_some() {
        None
    } else if function_start(t).is_some() {
        if braces == 0 && t.contains('}') {
            None
        } else {
            Some(BoundaryType::BraceCounting { brace_count: braces as i32 })
        }
    } else if count_outside_quotes(t, '(') > count_outside_quotes(t, ')') {
        Some(
            BoundaryType::ParenthesisCounting {
                parenthesis_count: (count_outside_quotes(t, '(') - count_outside_quotes(t, ')')) as i32,
            },
        )
    } else {
        None
    }
}

/// How a line inside a block moves its count towards the block's end.
pub open spec fn bash_block_step(b: BoundaryType, line: Seq<char>) -> BoundaryType {
    let t = trim(line);
    match b {
        BoundaryType::BraceCounting { brace_count } => BoundaryType::BraceCounting {
            brace_count: sat_sub_i32(
                brace_count + count_outside_quotes(t, '{') as i32,
                count_outside_quotes(t, '}') as i32 as int,
            ) as i32,
        },
        BoundaryType::QuoteCounting { quote_count } => BoundaryType::QuoteCounting {
            quote_count: (quote_count + count_char(line, '\'')) as usize,
        },
        BoundaryType::ParenthesisCounting { parenthesis_count } => BoundaryType::ParenthesisCounting {
            parenthesis_count: sat_sub_i32(
                parenthesis_count + count_outside_quotes(t, '(') as i32,
                count_outside_quotes(t, ')') as i32 as int,
            ) as i32,
        },
        BoundaryType::KeywordTracking { depth } => BoundaryType::KeywordTracking {
            depth: (sat_sub(depth as int, control_end_count(t) as int) + control_start_count(t)) as usize,
        },
        _ => b,
    }
}

/// The block left open after the lines, with its count: none at first; a
/// line outside a block may open one (`bash_free_open`); a line inside one
/// moves its count (`bash_block_step`), and the block ends when the count
/// says so.
pub open spec fn bash_open_after(lines: Seq<Seq<char>>) -> Option<BoundaryType>
    decreases lines.len(),
{
    if lines.len() == 0 {
        None
    } else {
        match bash_open_after(lines.drop_last()) {
            None => bash_free_open(lines.last()),
            Some(b) => {
                let b2 = bash_block_step(b, lines.last());
                if boundary_complete(b2) {
                    None
                } else {
                    Some(b2)
                }
            },
        }
    }
}

/// The block left open is never one that has already ended.
proof fn lemma_open_not_done(lines: Seq<Seq<char>>)
    ensures
        bash_open_after(lines) matches Some(b) ==> !(b is Complete),
    decreases lines.len(),
{
    if lines.len() > 0 {
        lemma_open_not_done(lines.drop_last());
    }
}

/// The blocks left open by the kept lines and by the file's lines agree
/// line by line, as one more line is kept.
proof fn lemma_open_prefixes_step(p0: Seq<Seq<char>>, all: Seq<Seq<char>>, idx: int, piece: Seq<char>, line: Seq<char>)
    requires
        p0.len() == idx,
        0 <= idx < all.len(),
        all[idx] == line,
        forall|m: int| 0 <= m <= idx ==> #[trigger] bash_open_after(p0.take(m)) == bash_open_after(all.take(m)),
        trim(piece) == trim(line),
        bash_open_after(p0).is_some() ==> piece == line,
    ensures
        forall|m: int|
            0 <= m <= idx + 1 ==> #[trigger] bash_open_after(p0.push(piece).take(m)) == bash_open_after(
                all.take(m),
            ),
{
    let p1 = p0.push(piece);
    assert(p0.take(idx) =~= p0);
    assert(p1.take(idx + 1) =~= p1);
    assert(p1.drop_last() =~= p0);
    assert(all.take(idx + 1).drop_last() =~= all.take(idx));
    assert(all.take(idx + 1).last() == line);
    assert(bash_open_after(p0) == bash_open_after(all.take(idx)));
    assert(bash_free_open(piece) == bash_free_open(line));
    assert(bash_open_after(p1.take(idx + 1)) == bash_open_after(all.take(idx + 1)));
    assert forall|m: int| 0 <= m <= idx + 1 implies #[trigger] bash_open_after(p1.take(m)) == bash_open_after(
        all.take(m),
    ) by {
        if m <= idx {
            assert(p1.take(m) =~= p0.take(m));
        }
    }
}

/// What a line outside any block is, in the order the parser tries the
/// kinds: a control structure's start, a blank line, a comment, the first
/// line of a multi-line alias, export or function, a parenthesis left open,
/// a complete alias, export, source or function, or other code.
#[derive(Debug, Clone, Copy, PartialEq, Eq, Structural)]
pub enum LineKind {
    Control,
    Blank,
    Comment,
    Opening,
    Paren,
    Complete,
    Code,
}

/// What the lines read so far leave waiting to be joined or written out:
/// nothing (at the start, or inside a block), a structured entry taking
/// trailing blank lines, a single comment line, a block of comment lines,
/// code (or blank lines), or code after a single comment line.
#[derive(Debug, Clone, Copy, PartialEq, Eq, Structural)]
pub enum PendKind {
    Nothing,
    Structured,
    LoneComment,
    Comments,
    Code,
    CommentedCode,
}

/// The kind of a line outside any block.
pub open spec fn bash_line_kind(line: Seq<char>) -> LineKind {
    let t = trim(line);
    if control_start_count(t) > 0 {
        LineKind::Control
    } else if t.len() == 0 {
        LineKind::Blank
    } else if t[0] == '#' {
        LineKind::Comment
    } else {
        match bash_free_open(line) {
            Some(BoundaryType::ParenthesisCounting { .. }) => LineKind::Paren,
            Some(_) => LineKind::Opening,
            None => if alias_complete(t).is_some() || export_re(t).is_some() || source_re(t).is_some()
                || function_start(t).is_some() {
                LineKind::Complete
            } else {
                LineKind::Code
            },
        }
    }
}

/// A single comment line, alone or before code, joins the entry after it.
pub open spec fn merges_down(p: PendKind) -> bool {
    p == PendKind::LoneComment || p == PendKind::CommentedCode
}

/// A line of kind `k` outside any block, after what `p` left waiting, begins
/// a new entry: a control structure joins waiting comments or code; a blank
/// line joins whatever waits; a comment joins waiting comments; a structured
/// line, or a parenthesis left open, takes in a single waiting comment (with
/// any code after it); code takes in a lone waiting comment.
pub open spec fn free_break(p: PendKind, k: LineKind) -> bool {
    match k {
        LineKind::Control => p == PendKind::Nothing || p == PendKind::Structured,
        LineKind::Blank => p == PendKind::Nothing,
        LineKind::Comment => !(p == PendKind::LoneComment || p == PendKind::Comments),
        LineKind::Code => p != PendKind::LoneComment,
        _ => !merges_down(p),
    }
}

/// What waits after a line of kind `k` outside any block, after `p`.
pub open spec fn free_pend(p: PendKind, k: LineKind) -> PendKind {
    match k {
        LineKind::Blank => if p == PendKind::Nothing {
            PendKind::Code
        } else {
            p
        },
        LineKind::Comment => if p == PendKind::LoneComment || p == PendKind::Comments {
            PendKind::Comments
        } else {
            PendKind::LoneComment
        },
        LineKind::Complete => PendKind::Structured,
        LineKind::Code => if p == PendKind::LoneComment {
            PendKind::CommentedCode
        } else {
            PendKind::Code
        },
        _ => PendKind::Nothing,
    }
}

/// What waits after the lines: a block that ends leaves a structured entry
/// (quotes or braces) or code (keywords or parentheses) to take trailing
/// blank lines.
pub open spec fn bash_pend_after(lines: Seq<Seq<char>>) -> PendKind
    decreases lines.len(),
{
    if lines.len() == 0 {
        PendKind::Nothing
    } else {
        let prev = lines.drop_last();
        match bash_open_after(prev) {
            None => free_pend(bash_pend_after(prev), bash_line_kind(lines.last())),
            Some(b) => if bash_open_after(lines).is_none() {
                match b {
                    BoundaryType::QuoteCounting { .. } => PendKind::Structured,
                    BoundaryType::BraceCounting { .. } => PendKind::Structured,
                    _ => PendKind::Code,
                }
            } else {
                PendKind::Nothing
            },
        }
    }
}

/// Line `j` (from 0) begins an entry, or the block left open at the end:
/// it lies outside any block and does not join what waits before it.
pub open spec fn bash_breaks_at(lines: Seq<Seq<char>>, j: int) -> bool {
    &&& bash_open_after(lines.take(j)).is_none()
    &&& free_break(bash_pend_after(lines.take(j)), bash_line_kind(lines[j]))
}

/// What a pending block stands for.
pub open spec fn pend_kind(o: Option<PendingBlock>) -> PendKind {
    match o {
        None => PendKind::Nothing,
        Some(p) => if is_structured(p.entry_hint) {
            PendKind::Structured
        } else if p.entry_hint == Some(EntryType::Comment) {
            if p.comment_count == 1 {
                PendKind::LoneComment
            } else {
                PendKind::Comments
            }
        } else if p.comment_count == 1 {
            PendKind::CommentedCode
        } else {
            PendKind::Code
        },
    }
}

/// No line `j` with `s <= j < e` (from 0) begins an entry; `e` is within the lines.
pub open spec fn no_break_in(s: int, e: int, pieces: Seq<Seq<char>>) -> bool {
    &&& 0 <= s
    &&& e <= pieces.len()
    &&& forall|j: int| s <= j < e ==> !#[trigger] bash_breaks_at(pieces, j)
}

/// Whether a line begins an entry does not change as lines are added after it.
proof fn lemma_breaks_stable(pieces: Seq<Seq<char>>, x: Seq<char>, j: int)
    requires
        0 <= j < pieces.len(),
    ensures
        bash_breaks_at(pieces.push(x), j) == bash_breaks_at(pieces, j),
{
    assert(pieces.push(x).take(j) =~= pieces.take(j));
    assert(pieces.push(x)[j] == pieces[j]);
}

/// A span with no break stays so as lines are added after it.
proof fn lemma_no_break_push(s: int, e: int, pieces: Seq<Seq<char>>, x: Seq<char>)
    requires
        no_break_in(s, e, pieces),
    ensures
        no_break_in(s, e, pieces.push(x)),
{
    assert forall|j: int| s <= j < e implies !#[trigger] bash_breaks_at(pieces.push(x), j) by {
        lemma_breaks_stable(pieces, x, j);
    }
}

/// A line outside any block: whether it begins an entry, and what waits
/// after it, follow from what waited before it and its kind.
proof fn lemma_free_step(pieces: Seq<Seq<char>>, x: Seq<char>, pend: Option<PendingBlock>)
    requires
        bash_open_after(pieces).is_none(),
        bash_pend_after(pieces) == pend_kind(pend),
    ensures
        bash_breaks_at(pieces.push(x), pieces.len() as int) == free_break(pend_kind(pend), bash_line_kind(x)),
        bash_pend_after(pieces.push(x)) == free_pend(pend_kind(pend), bash_line_kind(x)),
        bash_open_after(pieces.push(x)) == bash_free_open(x),
{
    assert(pieces.push(x).take(pieces.len() as int) =~= pieces);
    assert(pieces.push(x).drop_last() =~= pieces);
}

/// The kind of a line is that of its trimmed text.
proof fn lemma_kind_trim(line: Seq<char>)
    ensures
        bash_line_kind(trim(line)) == bash_line_kind(line),
        bash_free_open(trim(line)) == bash_free_open(line),
{
    lemma_trim_idempotent(line);
}

/// What waits after the kept lines and after the file's lines agree line by
/// line, as one more line is kept.
proof fn lemma_pend_prefixes_step(p0: Seq<Seq<char>>, all: Seq<Seq<char>>, idx: int, piece: Seq<char>, line: Seq<char>)
    requires
        p0.len() == idx,
        0 <= idx < all.len(),
        all[idx] == line,
        forall|m: int|
            0 <= m <= idx + 1 ==> #[trigger] bash_open_after(p0.push(piece).take(m)) == bash_open_after(
                all.take(m),
            ),
        forall|m: int| 0 <= m <= idx ==> #[trigger] bash_pend_after(p0.take(m)) == bash_pend_after(all.take(m)),
        trim(piece) == trim(line),
    ensures
        forall|m: int|
            0 <= m <= idx + 1 ==> #[trigger] bash_pend_after(p0.push(piece).take(m)) == bash_pend_after(
                all.take(m),
            ),
{
    let p1 = p0.push(piece);
    assert(p0.take(idx) =~= p0);
    assert(p1.take(idx + 1) =~= p1);
    assert(p1.take(idx) =~= p0);
    assert(p1.drop_last() =~= p0);
    assert(all.take(idx + 1).drop_last() =~= all.take(idx));
    assert(all.take(idx + 1).last() == line);
    assert(bash_open_after(p1.take(idx)) == bash_open_after(all.take(idx)));
    assert(bash_open_after(p1.take(idx + 1)) == bash_open_after(all.take(idx + 1)));
    lemma_kind_trim(piece);
    lemma_kind_trim(line);
    assert(bash_line_kind(piece) == bash_line_kind(line));
    assert(bash_pend_after(p0.take(idx)) == bash_pend_after(all.take(idx)));
    assert(bash_pend_after(p0) == bash_pend_after(all.take(idx)));
    assert(bash_open_after(p0) == bash_open_after(all.take(idx)));
    assert(bash_open_after(p1) == bash_open_after(all.take(idx + 1)));
    assert(p1.last() == piece);
    assert(bash_pend_after(p1) == bash_pend_after(all.take(idx + 1)));
    assert forall|m: int| 0 <= m <= idx + 1 implies #[trigger] bash_pend_after(p1.take(m)) == bash_pend_after(
        all.take(m),
    ) by {
        if m <= idx {
            assert(p1.take(m) =~= p0.take(m));
        }
    }
}

/// Kept lines that agree with the file's lines on every prefix begin entries
/// at the same lines.
proof fn lemma_breaks_lines(pieces: Seq<Seq<char>>, lines: Seq<Seq<char>>)
    requires
        pieces_of(pieces, lines),
        forall|m: int| 0 <= m <= pieces.len() ==> #[trigger] bash_open_after(pieces.take(m)) == bash_open_after(lines.take(m)),
        forall|m: int| 0 <= m <= pieces.len() ==> #[trigger] bash_pend_after(pieces.take(m)) == bash_pend_after(lines.take(m)),
    ensures
        forall|j: int| 0 <= j < lines.len() ==> #[trigger] bash_breaks_at(pieces, j) == bash_breaks_at(lines, j),
{
    assert forall|j: int| 0 <= j < lines.len() implies #[trigger] bash_breaks_at(pieces, j) == bash_breaks_at(lines, j) by {
        assert(piece_ok(pieces[j], lines[j]));
        lemma_kind_trim(lines[j]);
        assert(bash_open_after(pieces.take(j)) == bash_open_after(lines.take(j)));
        assert(bash_pend_after(pieces.take(j)) == bash_pend_after(lines.take(j)));
        assert(bash_line_kind(pieces[j]) == bash_line_kind(lines[j]));
    }
}

/// A span with no break takes one more line that begins no entry.
proof fn lemma_no_break_grow(s: int, e: int, pieces: Seq<Seq<char>>)
    requires
        no_break_in(s, e, pieces),
        e < pieces.len(),
        !bash_breaks_at(pieces, e),
    ensures
        no_break_in(s, e + 1, pieces),
{
}

/// Entries laid end to end over the first `k` lines, none holding a start
/// of an entry but at its first line, begin at every such start.
proof fn lemma_breaks_begin_entries(es: Seq<Entry>, pieces: Seq<Seq<char>>, lines: Seq<Seq<char>>, k: int)
    requires
        tiles(es, pieces, k),
        forall|t: int|
            0 <= t < es.len() ==> span_well((#[trigger] es[t]).line_number->0 as int, entry_end(es[t]), lines),
    ensures
        forall|j: int|
            0 <= j < k && #[trigger] bash_breaks_at(lines, j) ==> exists|t: int|
                0 <= t < es.len() && (#[trigger] es[t]).line_number == Some((j + 1) as usize),
    decreases es.len(),
{
    if es.len() > 0 {
        let e = es.last();
        let n = es.len() - 1;
        let lo = e.line_number.unwrap() - 1;
        assert(es[n] == e);
        assert(entry_end(e) == k);
        assert forall|t: int| 0 <= t < es.drop_last().len() implies span_well(
            (#[trigger] es.drop_last()[t]).line_number->0 as int,
            entry_end(es.drop_last()[t]),
            lines,
        ) by {
            assert(es.drop_last()[t] == es[t]);
        }
        lemma_breaks_begin_entries(es.drop_last(), pieces, lines, lo);
        assert forall|j: int| 0 <= j < k && #[trigger] bash_breaks_at(lines, j) implies exists|t: int|
            0 <= t < es.len() && (#[trigger] es[t]).line_number == Some((j + 1) as usize) by {
            if j < lo {
                let t = choose|t: int|
                    0 <= t < es.drop_last().len() && (#[trigger] es.drop_last()[t]).line_number == Some(
                        (j + 1) as usize,
                    );
                assert(es[t] == es.drop_last()[t]);
            } else {
                assert(span_well(lo + 1, k, lines));
                if j > lo {
                    assert(!bash_breaks_at(lines, j));
                }
                assert(es[n].line_number == Some((j + 1) as usize));
            }
        }
    }
}

/// Where Bash entries begin is fixed: entries laid end to end over the
/// first `k` lines that satisfy `all_start_well` (as a parse does) begin at
/// exactly the lines, among the first `k`, where `bash_breaks_at` holds.
pub proof fn law_bash_entries_begin_at_breaks(es: Seq<Entry>, pieces: Seq<Seq<char>>, lines: Seq<Seq<char>>, k: int)
    requires
        tiles(es, pieces, k),
        all_start_well(es, lines),
    ensures
        forall|t: int| 0 <= t < es.len() ==> bash_breaks_at(lines, (#[trigger] es[t]).line_number->0 - 1),
        forall|j: int|
            0 <= j < k && #[trigger] bash_breaks_at(lines, j) ==> exists|t: int|
                0 <= t < es.len() && (#[trigger] es[t]).line_number == Some((j + 1) as usize),
{
    lemma_breaks_begin_entries(es, pieces, lines, k);
    assert forall|t: int| 0 <= t < es.len() implies bash_breaks_at(lines, (#[trigger] es[t]).line_number->0 - 1) by {
        assert(span_well(es[t].line_number->0 as int, entry_end(es[t]), lines));
    }
}

/// The state of a scan and the block left open by the lines so far agree.
pub open spec fn open_agrees(active: Option<PendingBlock>, lines: Seq<Seq<char>>) -> bool {
    match active {
        Some(a) => bash_open_after(lines) == Some(a.boundary),
        None => bash_open_after(lines).is_none(),
    }
}

/// Inputs the Bash parser handles: a size that its `i32` counters hold.
pub open spec fn bash_parsable(content: Seq<char>) -> bool {
    content.len() + 1 < i32::MAX
}

/// Whether a pending block is a single comment line that code can join.
fn single_comment(pending: &Option<PendingBlock>) -> (r: bool)
    ensures
        r == (pending matches Some(p) && p.entry_hint == Some(EntryType::Comment)
            && p.comment_count == 1),
{
    match pending {
        Some(p) => match p.entry_hint {
            Some(EntryType::Comment) => p.comment_count == 1,
            _ => false,
        },
        None => false,
    }
}

impl BashParser {
    /// Create a new Bash parser instance.
    pub fn new() -> (r: Self) {
        BashParser
    }

    /// Convert an entry to a pending block that can absorb trailing blanks.
    fn entry_to_trailing_pending(entry: Entry) -> (r: PendingBlock)
        ensures
            r.content() == entry.value@,
            r.lines@.len() >= 1,
            r.start_line == (match entry.line_number {
                Some(n) => n,
                None => 1,
            }),
            r.end_line == (match entry.end_line {
                Some(e) => e,
                None => match entry.line_number {
                    Some(n) => n,
                    None => 1,
                },
            }),
            r.boundary == (BoundaryType::AdjacentMerging { merge_type: MergeType::CodeWithBlanks }),
            r.entry_hint == Some(entry.entry_type),
            r.name == Some(entry.name),
            r.value.is_none(),
            r.comment_count == 0,
    {
        let lines = split_all_lines(entry.value.as_str());
        proof {
            lemma_join_split(entry.value@, '\n');
            lemma_split_on_nonempty(entry.value@, '\n');
        }
        let start_line = match entry.line_number {
            Some(n) => n,
            None => 1,
        };
        let end_line = match entry.end_line {
            Some(e) => e,
            None => start_line,
        };
        PendingBlock {
            lines,
            start_line,
            end_line,
            boundary: BoundaryType::AdjacentMerging { merge_type: MergeType::CodeWithBlanks },
            entry_hint: Some(entry.entry_type),
            name: Some(entry.name),
            value: None,
            comment_count: 0,
        }
    }

    /// Merge a pending block (comments, code or blank lines) with the
    /// structured entry after it.
    ///
    /// - a structured entry still absorbing blanks is written out, unmerged;
    /// - blank lines only (no comment) are written out as code;
    /// - a single comment line merges down into the entry;
    /// - several comment lines are written out as a comment block.
    fn merge_pending_with_structured(
        pending: Option<PendingBlock>,
        entry: Entry,
        parser: &BashParser,
    ) -> (r: (Option<Entry>, Entry))
        ensures
            merge_ok(pending, entry, r),
    {
        match pending {
            Some(pending) => {
                if pending.is_structured_entry() {
                    let flushed = parser.build_entry_from_pending(pending);
                    return (Some(flushed), entry);
                }
                if pending.comment_count == 0 {
                    let e = Entry::new(
                        EntryType::Code,
                        make_span_name("L", pending.start_line, pending.end_line),
                        pending.raw_content(),
                    ).with_line_number(pending.start_line).with_end_line(pending.end_line);
                    (Some(e), entry)
                } else if pending.comment_count == 1 {
                    let mut merged_value = pending.raw_content();
                    string_push(&mut merged_value, '\n');
                    push_str(&mut merged_value, entry.value.as_str());
                    let end_line = match entry.end_line {
                        Some(x) => x,
                        None => match entry.line_number {
                            Some(n) => n,
                            None => pending.start_line,
                        },
                    };
                    (
                        None,
                        Entry::new(entry.entry_type, entry.name, merged_value).with_line_number(
                            pending.start_line,
                        ).with_end_line(end_line),
                    )
                } else {
                    let e = Entry::new(
                        EntryType::Comment,
                        make_span_name("#L", pending.start_line, pending.end_line),
                        pending.raw_content(),
                    ).with_line_number(pending.start_line).with_end_line(pending.end_line);
                    (Some(e), entry)
                }
            },
            None => (None, entry),
        }
    }

    /// Build an Entry from a completed PendingBlock: the value is the block's
    /// whole text; comments and code are named by their line range.
    fn build_entry_from_pending(&self, block: PendingBlock) -> (r: Entry)
        ensures
            built_from(r, block),
    {
        let entry_type = match block.entry_hint {
            Some(t) => t,
            None => EntryType::Code,
        };
        let raw_content = block.raw_content();
        let start = block.start_line;
        let end = block.end_line;
        proof {
            reveal_strlit("L");
            reveal_strlit("#L");
            reveal_strlit("(fL");
            reveal_strlit(")");
            reveal_strlit("-L");
        }
        let name = match entry_type {
            EntryType::Function => {
                let mut name = match block.name {
                    Some(n) => n,
                    None => make_range_name("L", start, start),
                };
                let nc = str_chars(name.as_str());
                if starts_with_str(nc.as_slice(), "(fL") && start != end {
                    name = make_span_name("(fL", start, end);
                    string_push(&mut name, ')');
                    assert(name@ =~= anon_span_name(start as nat, end as nat));
                }
                name
            },
            EntryType::Alias | EntryType::EnvVar | EntryType::Source => match block.name {
                Some(n) => n,
                None => make_range_name("L", start, start),
            },
            EntryType::Comment => make_range_name("#L", start, end),
            EntryType::Code => make_range_name("L", start, end),
        };
        Entry::new(entry_type, name, raw_content).with_line_number(start).with_end_line(end)
    }

    /// Flush the pending block, if any, into an entry.
    fn flush_pending_comment_code(&self, pending: &mut Option<PendingBlock>) -> (r: Option<Entry>)
        ensures
            final(pending).is_none(),
            match *old(pending) {
                Some(b) => r matches Some(e) && built_from(e, b),
                None => r.is_none(),
            },
    {
        match pending.take() {
            Some(block) => Some(self.build_entry_from_pending(block)),
            None => None,
        }
    }

    /// A structured entry found on line `line_number`: merged with the
    /// pending block before it, then kept pending to absorb trailing blanks.
    fn settle_structured(
        &self,
        result: &mut ParseResult,
        pending: &mut Option<PendingBlock>,
        entry: Entry,
        line_number: usize,
        Ghost(pieces): Ghost<Seq<Seq<char>>>,
        Ghost(piece): Ghost<Seq<char>>,
    )
        requires
            ready(old(result).entries@, *old(pending), pieces, pieces.len() as int),
            line_number == pieces.len() + 1,
            entry.line_number == Some(line_number),
            entry.end_line.is_none() || entry.end_line == Some(line_number),
            entry.value@ == piece,
            all_named(old(result).entries@, pieces),
            opt_named(*old(pending), pieces),
            line_named(entry, pieces.push(piece)),
            all_kept(old(result).entries@, pieces),
            opt_kept(*old(pending), pieces),
            is_structured(Some(entry.entry_type)),
            all_start_well(old(result).entries@, pieces),
            opt_start_well(*old(pending), pieces),
            bash_pend_after(pieces) == pend_kind(*old(pending)),
            *old(pending) matches Some(p) ==> p.entry_hint.is_some(),
            merges_down(pend_kind(*old(pending))) ==> !bash_breaks_at(pieces.push(piece), pieces.len() as int),
            !merges_down(pend_kind(*old(pending))) ==> starts_well(line_number as int, pieces.push(piece)),
            comments_grouped(old(result).entries@, pieces),
            pending_comment_ok(*old(pending), pieces),
        ensures
            pend_kind(*final(pending)) == PendKind::Structured,
            comments_grouped(final(result).entries@, pieces.push(piece)),
            pending_comment_ok(*final(pending), pieces.push(piece)),
            *final(pending) matches Some(p) && p.boundary is AdjacentMerging,
            all_start_well(final(result).entries@, pieces.push(piece)),
            opt_start_well(*final(pending), pieces.push(piece)),
            final(pending).is_some(),
            ready(final(result).entries@, *final(pending), pieces.push(piece), line_number as int),
            final(result).warnings@ == old(result).warnings@,
            all_named(final(result).entries@, pieces.push(piece)),
            opt_named(*final(pending), pieces.push(piece)),
            all_kept(final(result).entries@, pieces.push(piece)),
            opt_kept(*final(pending), pieces.push(piece)),
    {
        let ghost i = pieces.len() as int;
        let ghost p2 = pieces.push(piece);
        let ghost old_entries = result.entries@;
        let ghost old_pending = *pending;
        proof {
            lemma_starts_push(old_entries, old_pending, pieces, piece);
            lemma_comments_push(old_entries, old_pending, pieces, piece);
        }
        let (pending_entry_to_add, merged) = Self::merge_pending_with_structured(
            pending.take(),
            entry,
            self,
        );
        proof {
            lemma_span_single(p2, i);
            lemma_state_kept_push(old_entries, old_pending, pieces, piece, i);
            match old_pending {
                Some(p) => {
                    lemma_block_stable(p, pieces, piece, p.start_line - 1, i);
                    lemma_tiles_stable(old_entries, pieces, piece, p.start_line - 1);
                    lemma_all_named_push(old_entries, pieces, piece, p.start_line - 1);
                    lemma_block_named_push(p, pieces, piece, p.start_line - 1, i);
                    if !is_structured(p.entry_hint) && p.comment_count == 1 {
                        lemma_span_extend(p2, p.start_line - 1, i);
                        lemma_named_widen(
                            entry.entry_type,
                            entry.name@,
                            i,
                            i + 1,
                            p.start_line - 1,
                            i + 1,
                            p2,
                            p2,
                        );
                    }
                },
                None => {
                    lemma_tiles_stable(old_entries, pieces, piece, i);
                    lemma_all_named_push(old_entries, pieces, piece, i);
                },
            }
        }
        assert(line_named(merged, p2));
        match pending_entry_to_add {
            Some(e) => {
                proof {
                    let p = old_pending->0;
                    lemma_flush_tiles(old_entries, p, e, p2, i);
                    if is_structured(p.entry_hint) {
                        lemma_built_named(e, p, p2);
                    }
                    lemma_all_named_add(old_entries, e, p2);
                    assert(entry_kept(e, p2));
                    lemma_all_kept_add(old_entries, e, p2);
                    lemma_fits_flush(e, p, pieces, p2);
                    lemma_starts_add(old_entries, e, p2);
                    lemma_comments_add(old_entries, e, p2);
                }
                result.add_entry(e);
            },
            None => {},
        }
        let trailing = Self::entry_to_trailing_pending(merged);
        proof {
            lemma_trailing_named(merged, trailing, p2);
            match old_pending {
                Some(p) => {
                    if !is_structured(p.entry_hint) && p.comment_count == 1 {
                        assert(merges_down(pend_kind(old_pending)));
                        assert(span_well(p.start_line as int, p.end_line as int, p2));
                        assert forall|j: int| p.start_line <= j < i + 1 implies !#[trigger] bash_breaks_at(p2, j) by {
                            if j < i {
                                assert(no_break_in(p.start_line as int, p.end_line as int, p2));
                            }
                        }
                        assert(span_well(trailing.start_line as int, trailing.end_line as int, p2));
                    }
                },
                None => {},
            }
        }
        *pending = Some(trailing);
    }

    /// The first line of a multi-line block, with the pending block before
    /// it: a single comment is merged in front of the line; any other pending
    /// block is written out first. Gives the block's first text and start line.
    fn open_block(
        &self,
        result: &mut ParseResult,
        pending: &mut Option<PendingBlock>,
        first_line: String,
        line_number: usize,
        Ghost(pieces): Ghost<Seq<Seq<char>>>,
        Ghost(piece): Ghost<Seq<char>>,
    ) -> (r: (String, usize))
        requires
            ready(old(result).entries@, *old(pending), pieces, pieces.len() as int),
            line_number == pieces.len() + 1,
            first_line@ == piece,
            all_named(old(result).entries@, pieces),
            opt_named(*old(pending), pieces),
            all_kept(old(result).entries@, pieces),
            opt_kept(*old(pending), pieces),
            all_start_well(old(result).entries@, pieces),
            opt_start_well(*old(pending), pieces),
            bash_pend_after(pieces) == pend_kind(*old(pending)),
            *old(pending) matches Some(p) ==> p.entry_hint.is_some(),
            merges_down(pend_kind(*old(pending))) ==> !bash_breaks_at(pieces.push(piece), pieces.len() as int),
            !merges_down(pend_kind(*old(pending))) ==> starts_well(line_number as int, pieces.push(piece)),
            comments_grouped(old(result).entries@, pieces),
            pending_comment_ok(*old(pending), pieces),
        ensures
            final(pending).is_none(),
            final(result).warnings@ == old(result).warnings@,
            comments_grouped(final(result).entries@, pieces.push(piece)),
            all_start_well(final(result).entries@, pieces.push(piece)),
            span_well(r.1 as int, line_number as int, pieces.push(piece)),
            all_named(final(result).entries@, pieces.push(piece)),
            all_kept(final(result).entries@, pieces.push(piece)),
            lines_kept(EntryType::Code, r.1 - 1, pieces.len() as int, pieces.push(piece)),
            1 <= r.1 <= line_number,
            tiles(final(result).entries@, pieces.push(piece), r.1 - 1),
            r.0@ == span_text(pieces.push(piece), r.1 - 1, line_number as int),
    {
        let ghost i = pieces.len() as int;
        let ghost p2 = pieces.push(piece);
        let ghost old_entries = result.entries@;
        proof {
            lemma_span_single(p2, i);
            lemma_starts_push(old_entries, *old(pending), pieces, piece);
            lemma_comments_push(old_entries, *old(pending), pieces, piece);
        }
        match pending.take() {
            Some(p) => {
                proof {
                    lemma_block_stable(p, pieces, piece, p.start_line - 1, i);
                    lemma_tiles_stable(old_entries, pieces, piece, p.start_line - 1);
                    lemma_all_named_push(old_entries, pieces, piece, p.start_line - 1);
                    lemma_block_named_push(p, pieces, piece, p.start_line - 1, i);
                    lemma_state_kept_push(old_entries, *old(pending), pieces, piece, i);
                }
                if p.is_structured_entry() {
                    let ghost pb = p;
                    let e = self.build_entry_from_pending(p);
                    proof {
                        lemma_flush_tiles(old_entries, pb, e, p2, i);
                        lemma_built_named(e, pb, p2);
                        lemma_all_named_add(old_entries, e, p2);
                        lemma_flush_kept(old_entries, pb, e, p2);
                        lemma_fits_flush(e, pb, pieces, p2);
                        lemma_starts_add(old_entries, e, p2);
                        lemma_comments_add(old_entries, e, p2);
                    }
                    result.add_entry(e);
                    (first_line, line_number)
                } else if p.comment_count == 1 {
                    let mut merged = p.raw_content();
                    string_push(&mut merged, '\n');
                    push_str(&mut merged, first_line.as_str());
                    proof {
                        lemma_span_extend(p2, p.start_line - 1, i);
                        assert(merges_down(pend_kind(*old(pending))));
                        assert(span_well(p.start_line as int, p.end_line as int, p2));
                        assert forall|j: int| p.start_line <= j < i + 1 implies !#[trigger] bash_breaks_at(p2, j) by {
                            if j < i {
                                assert(no_break_in(p.start_line as int, p.end_line as int, p2));
                            }
                        }
                    }
                    (merged, p.start_line)
                } else {
                    let ghost pb = p;
                    let e = self.build_entry_from_pending(p);
                    proof {
                        lemma_flush_tiles(old_entries, pb, e, p2, i);
                        lemma_built_named(e, pb, p2);
                        lemma_all_named_add(old_entries, e, p2);
                        lemma_flush_kept(old_entries, pb, e, p2);
                        lemma_fits_flush(e, pb, pieces, p2);
                        lemma_starts_add(old_entries, e, p2);
                        lemma_comments_add(old_entries, e, p2);
                    }
                    result.add_entry(e);
                    (first_line, line_number)
                }
            },
            None => {
                proof {
                    lemma_tiles_stable(old_entries, pieces, piece, i);
                    lemma_all_named_push(old_entries, pieces, piece, i);
                    lemma_all_kept_push(old_entries, pieces, piece, i);
                }
                (first_line, line_number)
            },
        }
    }
    /// One line inside an active multi-line block: the line joins the block,
    /// the block's counter is updated, and a block that is complete becomes
    /// pending so that it absorbs the blank lines after it.
    fn step_active(
        &self,
        active: &mut Option<PendingBlock>,
        pending: &mut Option<PendingBlock>,
        control_depth: &mut usize,
        line: &str,
        trimmed: &str,
        line_number: usize,
        Ghost(entries): Ghost<Seq<Entry>>,
        Ghost(pieces): Ghost<Seq<Seq<char>>>,
        Ghost(bound): Ghost<int>,
    )
        requires
            old(active).is_some(),
            scan_inv(entries, *old(active), *old(pending), *old(control_depth), pieces, bound),
            trimmed@ == trim(line@),
            line_number == pieces.len() + 1,
            bound + line@.len() + 1 < i32::MAX,
            !(old(active)->0.boundary is Complete),
            bash_open_after(pieces) == Some(old(active)->0.boundary),
        ensures
            match *final(active) {
                Some(a) => a.boundary == bash_block_step(old(active)->0.boundary, line@)
                    && !boundary_complete(a.boundary),
                None => boundary_complete(bash_block_step(old(active)->0.boundary, line@)),
            },
            scan_inv(
                entries,
                *final(active),
                *final(pending),
                *final(control_depth),
                pieces.push(line@),
                bound + line@.len() + 1,
            ),
    {
        let ghost i = pieces.len() as int;
        let ghost p2 = pieces.push(line@);
        let ghost nb = bound + line@.len() + 1;
        let mut block = active.take().unwrap();
        let ghost b0 = block;
        let ghost lo = block.start_line - 1;
        block.add_line(line, line_number);
        proof {
            lemma_trim_len(line@);
            lemma_block_stable(b0, pieces, line@, lo, i);
            lemma_block_add_line(b0, block, p2, lo, i);
            lemma_tiles_stable(entries, pieces, line@, lo);
            lemma_all_named_push(entries, pieces, line@, lo);
            match b0.entry_hint {
                Some(t) => lemma_named_widen(t, given_name(b0), lo, i, lo, i + 1, pieces, p2),
                None => {},
            }
            assert(block_named(block, p2));
            lemma_all_kept_push(entries, pieces, line@, lo);
            if !is_structured(Some(block_type(b0))) {
                let k = choose|k: int|
                    0 <= k < pieces.len() && b0.start_line - 1 <= k < b0.end_line && #[trigger] bash_opener(
                        trim(pieces[k]),
                    );
                assert(p2[k] == pieces[k]);
            }
            lemma_kept_grow(block_type(b0), block_type(b0), lo, pieces, line@);
            assert(block_kept(block, p2));
            lemma_opened_push(b0, block, pieces, line@);
            lemma_comments_push(entries, *pending, pieces, line@);
            lemma_starts_push(entries, *pending, pieces, line@);
            lemma_starts_push(entries, Some(b0), pieces, line@);
            assert(p2.take(i) =~= pieces);
            assert(p2.drop_last() =~= pieces);
            assert(!bash_breaks_at(p2, i));
            lemma_no_break_grow(b0.start_line as int, i, p2);
        }
        match block.boundary {
            BoundaryType::BraceCounting { brace_count } => {
                let (open, close) = count_braces_outside_quotes(trimmed);
                proof {
                    lemma_count_outside_bound(trimmed@, '{');
                    lemma_count_outside_bound(trimmed@, '}');
                }
                block.update_brace_count(open as i32, close as i32);
                if block.is_complete() {
                    let ghost bb = block;
                    let entry = self.build_entry_from_pending(block);
                    let trailing = Self::entry_to_trailing_pending(entry);
                    proof {
                        lemma_built_named(entry, bb, p2);
                        lemma_trailing_named(entry, trailing, p2);
                        assert(block_kept(trailing, p2));
                    }
                    *pending = Some(trailing);
                } else {
                    *active = Some(block);
                }
            },
            BoundaryType::QuoteCounting { quote_count } => {
                let lv = str_chars(line);
                let n = count_char_chars(lv.as_slice(), '\'');
                proof {
                    lemma_count_char_bound(line@, '\'');
                }
                block.add_quotes(n);
                if block.is_complete() {
                    let ghost bb = block;
                    let entry = self.build_entry_from_pending(block);
                    let trailing = Self::entry_to_trailing_pending(entry);
                    proof {
                        lemma_built_named(entry, bb, p2);
                        lemma_trailing_named(entry, trailing, p2);
                        assert(block_kept(trailing, p2));
                    }
                    *pending = Some(trailing);
                } else {
                    *active = Some(block);
                }
            },
            BoundaryType::ParenthesisCounting { parenthesis_count } => {
                let (open, close) = count_parens_outside_quotes(trimmed);
                proof {
                    lemma_count_outside_bound(trimmed@, '(');
                    lemma_count_outside_bound(trimmed@, ')');
                }
                block.update_parenthesis_count(open as i32, close as i32);
                if block.is_complete() {
                    let ghost bb = block;
                    let entry = self.build_entry_from_pending(block);
                    let trailing = Self::entry_to_trailing_pending(entry);
                    proof {
                        lemma_built_named(entry, bb, p2);
                        lemma_trailing_named(entry, trailing, p2);
                        assert(block_kept(trailing, p2));
                    }
                    *pending = Some(trailing);
                } else {
                    *active = Some(block);
                }
            },
            BoundaryType::KeywordTracking { depth } => {
                let end_count = count_control_end(trimmed);
                let start_count = count_control_start(trimmed);
                proof {
                    lemma_control_start_bound(trimmed@);
                }
                block.update_keyword_depth(start_count, end_count);
                if block.is_complete() {
                    *control_depth = 0;
                    *pending = Some(
                        PendingBlock {
                            lines: block.lines,
                            start_line: block.start_line,
                            end_line: block.end_line,
                            boundary: BoundaryType::AdjacentMerging {
                                merge_type: MergeType::CodeWithBlanks,
                            },
                            entry_hint: Some(EntryType::Code),
                            name: None,
                            value: None,
                            comment_count: 0,
                        },
                    );
                } else {
                    *active = Some(block);
                }
            },
            _ => {
                *active = Some(block);
            },
        }
    }

    /// One line outside any multi-line block: a control structure, a blank
    /// line, a comment, an alias, an export, a source statement, a function,
    /// a parenthesised list, or plain code. Gives the line as the entries keep it.
    #[verifier::rlimit(90)]
    fn step_free(
        &self,
        result: &mut ParseResult,
        active: &mut Option<PendingBlock>,
        pending: &mut Option<PendingBlock>,
        control_depth: &mut usize,
        line: &str,
        trimmed: &str,
        line_number: usize,
        Ghost(pieces): Ghost<Seq<Seq<char>>>,
        Ghost(bound): Ghost<int>,
    ) -> (piece: Ghost<Seq<char>>)
        requires
            old(active).is_none(),
            scan_inv(
                old(result).entries@,
                *old(active),
                *old(pending),
                *old(control_depth),
                pieces,
                bound,
            ),
            trimmed@ == trim(line@),
            line_number == pieces.len() + 1,
            bound + line@.len() + 1 < i32::MAX,
            bash_open_after(pieces).is_none(),
        ensures
            match *final(active) {
                Some(a) => bash_free_open(line@) == Some(a.boundary),
                None => bash_free_open(line@).is_none(),
            },
            piece_ok(piece@, line@),
            scan_inv(
                final(result).entries@,
                *final(active),
                *final(pending),
                *final(control_depth),
                pieces.push(piece@),
                bound + line@.len() + 1,
            ),
            final(result).warnings@ == old(result).warnings@,
    {
        let ghost i = pieces.len() as int;
        let ghost p2 = pieces.push(line@);
        let ghost p2t = pieces.push(trimmed@);
        let ghost entries0 = result.entries@;
        proof {
            lemma_trim_len(line@);
            lemma_span_single(p2, i);
            lemma_ready_stable(entries0, *pending, pieces, line@, i);
            lemma_ready_stable(entries0, *pending, pieces, trimmed@, i);
            lemma_state_named_push(entries0, *pending, pieces, line@, i);
            lemma_state_named_push(entries0, *pending, pieces, trimmed@, i);
            lemma_state_kept_push(entries0, *pending, pieces, line@, i);
            lemma_state_kept_push(entries0, *pending, pieces, trimmed@, i);
            lemma_trim_idempotent(line@);
            assert(p2t[i] == trimmed@);
            assert(p2[i] == line@);
            lemma_starts_push(entries0, *pending, pieces, line@);
            lemma_starts_push(entries0, *pending, pieces, trimmed@);
            assert(p2.take(i) =~= pieces);
            assert(p2t.take(i) =~= pieces);
            lemma_comments_push(entries0, *pending, pieces, line@);
            lemma_comments_push(entries0, *pending, pieces, trimmed@);
            lemma_blank_opens_nothing();
            lemma_free_step(pieces, line@, *pending);
            lemma_kind_trim(line@);
        }
        // Control structure start
        let prev_depth = *control_depth;
        let end_count = count_control_end(trimmed);
        let start_count = count_control_start(trimmed);
        proof {
            lemma_control_start_bound(trimmed@);
        }
        *control_depth = control_depth.saturating_sub(end_count);
        *control_depth = *control_depth + start_count;
        if *control_depth > 0 || (prev_depth > 0 && *control_depth == 0) {
            if active.is_none() && prev_depth == 0 && *control_depth > 0 {
                let depth = *control_depth;
                proof {
                    assert(bash_opener(trim(p2[i])));
                    assert(bash_starts(EntryType::Code, trim(p2[i])));
                    assert(bash_line_kind(line@) == LineKind::Control);
                    if pending.is_some() {
                        let pp = pending->0;
                        if pp.entry_hint == Some(EntryType::Comment) || pp.entry_hint == Some(EntryType::Code) {
                            lemma_no_break_grow(pp.start_line as int, i, p2);
                        }
                    }
                }
                match pending.take() {
                    Some(p) => {
                        if matches!(p.entry_hint, Some(EntryType::Comment) | Some(EntryType::Code)) {
                            let ghost pb = p;
                            let mut lines = p.lines;
                            lines.push(string_from_str(line));
                            proof {
                                assert(views(lines@) =~= views(pb.lines@).push(line@));
                                lemma_block_add_line(
                                    pb,
                                    PendingBlock { lines, end_line: line_number, ..pb },
                                    p2,
                                    pb.start_line - 1,
                                    i,
                                );
                                lemma_kept_grow(block_type(pb), EntryType::Code, pb.start_line - 1, pieces, line@);
                            }
                            *active = Some(
                                PendingBlock {
                                    lines,
                                    start_line: p.start_line,
                                    end_line: line_number,
                                    boundary: BoundaryType::KeywordTracking { depth },
                                    entry_hint: Some(EntryType::Code),
                                    name: None,
                                    value: None,
                                    comment_count: p.comment_count,
                                },
                            );
                        } else {
                            let ghost pb = p;
                            let e = self.build_entry_from_pending(p);
                            proof {
                                lemma_flush_tiles(entries0, pb, e, p2, i);
                                lemma_flush_named(entries0, pb, e, p2);
                                lemma_flush_kept(entries0, pb, e, p2);
                                lemma_fits_flush(e, pb, pieces, p2);
                                lemma_starts_add(entries0, e, p2);
                                lemma_comments_add(entries0, e, p2);
                            }
                            result.add_entry(e);
                            *active = Some(PendingBlock::control(line_number, line, depth));
                        }
                    },
                    None => {
                        *active = Some(PendingBlock::control(line_number, line, depth));
                    },
                }
            }
            return Ghost(line@);
        }
        let tchars = str_chars(trimmed);
        // Blank lines
        if tchars.len() == 0 {
            proof {
                assert(!bash_structured_line(trim(p2[i])));
                assert(bash_line_kind(line@) == LineKind::Blank);
            }
            let blank = PendingBlock::blank_lines(line_number, line);
            if absorbs_blank(pending) {
                let mut p = pending.take().unwrap();
                let ghost pb = p;
                p.add_line(line, line_number);
                proof {
                    lemma_block_add_line(pb, p, p2, pb.start_line - 1, i);
                    lemma_block_named_grow(pb, p, pieces, line@, i);
                    lemma_kept_grow(block_type(pb), block_type(p), pb.start_line - 1, pieces, line@);
                    lemma_no_break_grow(pb.start_line as int, i, p2);
                    if pb.entry_hint == Some(EntryType::Comment) && pb.comment_count >= 2 {
                        lemma_two_comments_widen(pb.start_line - 1, pb.end_line as int, pb.start_line - 1, i + 1, p2);
                    }
                }
                *pending = Some(p);
            } else {
                let ghost op = *pending;
                match self.flush_pending_comment_code(pending) {
                    Some(entry) => {
                        proof {
                            let pb = op->0;
                            lemma_flush_tiles(entries0, pb, entry, p2, i);
                            lemma_flush_named(entries0, pb, entry, p2);
                            lemma_flush_kept(entries0, pb, entry, p2);
                            lemma_fits_flush(entry, pb, pieces, p2);
                            lemma_starts_add(entries0, entry, p2);
                            lemma_comments_add(entries0, entry, p2);
                        }
                        result.add_entry(entry);
                    },
                    None => {},
                }
                *pending = Some(blank);
            }
            return Ghost(line@);
        }
        // Comment lines
        if CommentBlockBuilder::is_standalone_comment(trimmed) {
            proof {
                assert(!bash_structured_line(trim(p2[i])));
                assert(bash_line_kind(line@) == LineKind::Comment);
            }
            if absorbs_comment(pending) {
                let mut p = pending.take().unwrap();
                let ghost pb = p;
                p.add_line(line, line_number);
                p.increment_comment_count();
                proof {
                    assert(comment_at(p2, i));
                    assert(comment_at(p2, pb.start_line - 1));
                    assert(pb.start_line - 1 < i);
                    lemma_no_break_grow(pb.start_line as int, i, p2);
                    lemma_block_add_line(pb, p, p2, pb.start_line - 1, i);
                    lemma_block_named_grow(pb, p, pieces, line@, i);
                    lemma_kept_grow(block_type(pb), block_type(p), pb.start_line - 1, pieces, line@);
                }
                *pending = Some(p);
            } else {
                let ghost op = *pending;
                match self.flush_pending_comment_code(pending) {
                    Some(entry) => {
                        proof {
                            let pb = op->0;
                            lemma_flush_tiles(entries0, pb, entry, p2, i);
                            lemma_flush_named(entries0, pb, entry, p2);
                            lemma_flush_kept(entries0, pb, entry, p2);
                            lemma_fits_flush(entry, pb, pieces, p2);
                            lemma_starts_add(entries0, entry, p2);
                            lemma_comments_add(entries0, entry, p2);
                        }
                        result.add_entry(entry);
                    },
                    None => {},
                }
                proof {
                    assert(comment_at(p2, i));
                }
                *pending = Some(PendingBlock::comment(line_number, line));
            }
            return Ghost(line@);
        }
        proof {
            assert(*control_depth == 0);
            assert(trimmed@ == tchars@);
        }
        self.step_line(
            result,
            active,
            pending,
            line,
            trimmed,
            &tchars,
            line_number,
            Ghost(pieces),
            Ghost(bound),
        )
    }

    /// One line outside any block that is neither blank, nor a comment, nor
    /// the start of a control structure: an alias, an export, a source
    /// statement, a function, a parenthesised list, or plain code. Gives the
    /// line as the entries keep it.
    #[verifier::rlimit(90)]
    fn step_line(
        &self,
        result: &mut ParseResult,
        active: &mut Option<PendingBlock>,
        pending: &mut Option<PendingBlock>,
        line: &str,
        trimmed: &str,
        tchars: &Vec<char>,
        line_number: usize,
        Ghost(pieces): Ghost<Seq<Seq<char>>>,
        Ghost(bound): Ghost<int>,
    ) -> (piece: Ghost<Seq<char>>)
        requires
            old(active).is_none(),
            scan_inv(old(result).entries@, *old(active), *old(pending), 0, pieces, bound),
            trimmed@ == trim(line@),
            tchars@ == trimmed@,
            trimmed@.len() > 0,
            trimmed@[0] != '#',
            control_start_count(trimmed@) == 0,
            line_number == pieces.len() + 1,
            bound + line@.len() + 1 < i32::MAX,
            bash_open_after(pieces).is_none(),
        ensures
            match *final(active) {
                Some(a) => bash_free_open(line@) == Some(a.boundary),
                None => bash_free_open(line@).is_none(),
            },
            piece_ok(piece@, line@),
            scan_inv(
                final(result).entries@,
                *final(active),
                *final(pending),
                0,
                pieces.push(piece@),
                bound + line@.len() + 1,
            ),
            final(result).warnings@ == old(result).warnings@,
    {
        let ghost i = pieces.len() as int;
        let ghost p2 = pieces.push(line@);
        let ghost p2t = pieces.push(trimmed@);
        let ghost entries0 = result.entries@;
        proof {
            lemma_trim_len(line@);
            lemma_span_single(p2, i);
            lemma_ready_stable(entries0, *pending, pieces, line@, i);
            lemma_ready_stable(entries0, *pending, pieces, trimmed@, i);
            lemma_state_named_push(entries0, *pending, pieces, line@, i);
            lemma_state_named_push(entries0, *pending, pieces, trimmed@, i);
            lemma_state_kept_push(entries0, *pending, pieces, line@, i);
            lemma_state_kept_push(entries0, *pending, pieces, trimmed@, i);
            lemma_trim_idempotent(line@);
            assert(p2t[i] == trimmed@);
            assert(p2[i] == line@);
            lemma_starts_push(entries0, *pending, pieces, line@);
            lemma_starts_push(entries0, *pending, pieces, trimmed@);
            assert(p2.take(i) =~= pieces);
            assert(p2t.take(i) =~= pieces);
            lemma_comments_push(entries0, *pending, pieces, line@);
            lemma_comments_push(entries0, *pending, pieces, trimmed@);
            lemma_blank_opens_nothing();
        }
        // Alias
        match try_parse_alias(trimmed, line_number) {
            ParseEvent::Complete(entry) => {
                proof {
                    assert(bash_named_by(entry.entry_type, entry.name@, trim(p2t[i])));
                }
                self.settle_structured(
                    result,
                    pending,
                    entry,
                    line_number,
                    Ghost(pieces),
                    Ghost(trimmed@),
                );
                return Ghost(trimmed@);
            },
            ParseEvent::Started { entry_type, name, boundary, first_line } => {
                proof {
                    lemma_count_char_bound(trimmed@, '\'');
                    assert(bash_named_by(entry_type, name@, trim(p2t[i])));
                    lemma_trim_idempotent(line@);
                    assert(bash_starts(entry_type, trim(p2t[i])));
                }
                let (merged_first_line, start_line) = self.open_block(
                    result,
                    pending,
                    first_line,
                    line_number,
                    Ghost(pieces),
                    Ghost(trimmed@),
                );
                *active = Some(
                    PendingBlock {
                        lines: one_line(merged_first_line),
                        start_line,
                        end_line: line_number,
                        boundary,
                        entry_hint: Some(entry_type),
                        name: Some(name),
                        value: None,
                        comment_count: 0,
                    },
                );
                return Ghost(trimmed@);
            },
            ParseEvent::NoMatch => {},
        }
        // Export
        match try_parse_env(trimmed, line_number) {
            ParseEvent::Complete(entry) => {
                proof {
                    assert(bash_named_by(entry.entry_type, entry.name@, trim(p2t[i])));
                }
                self.settle_structured(
                    result,
                    pending,
                    entry,
                    line_number,
                    Ghost(pieces),
                    Ghost(trimmed@),
                );
                return Ghost(trimmed@);
            },
            ParseEvent::Started { entry_type, name, boundary, first_line } => {
                proof {
                    lemma_count_char_bound(trimmed@, '\'');
                    assert(bash_named_by(entry_type, name@, trim(p2t[i])));
                    lemma_trim_idempotent(line@);
                    assert(bash_starts(entry_type, trim(p2t[i])));
                }
                let (merged_first_line, start_line) = self.open_block(
                    result,
                    pending,
                    first_line,
                    line_number,
                    Ghost(pieces),
                    Ghost(trimmed@),
                );
                *active = Some(
                    PendingBlock {
                        lines: one_line(merged_first_line),
                        start_line,
                        end_line: line_number,
                        boundary,
                        entry_hint: Some(entry_type),
                        name: Some(name),
                        value: None,
                        comment_count: 0,
                    },
                );
                return Ghost(trimmed@);
            },
            ParseEvent::NoMatch => {},
        }
        // Source
        match try_parse_source(trimmed, line_number) {
            ParseEvent::Complete(entry) => {
                proof {
                    assert(bash_named_by(entry.entry_type, entry.name@, trim(p2t[i])));
                }
                self.settle_structured(
                    result,
                    pending,
                    entry,
                    line_number,
                    Ghost(pieces),
                    Ghost(trimmed@),
                );
                return Ghost(trimmed@);
            },
            _ => {},
        }
        // Function
        match detect_function_start(trimmed) {
            Some((func_name, is_anonymous)) => {
                let (open, close) = count_braces_outside_quotes(trimmed);
                proof {
                    lemma_count_outside_bound(trimmed@, '{');
                    lemma_count_outside_bound(trimmed@, '}');
                }
                let brace_count = i32_saturating_sub(open as i32, close as i32);
                let is_single_line = brace_count == 0 && has_char(tchars.as_slice(), '}');
                let name = if is_anonymous {
                    let mut n = string_from_str("(fL");
                    push_decimal(&mut n, line_number);
                    string_push(&mut n, ')');
                    proof {
                        reveal_strlit("(fL");
                        assert(n@.subrange(0, 3) =~= "(fL"@);
                    }
                    n
                } else {
                    func_name
                };
                proof {
                    assert(bash_named_by(EntryType::Function, name@, trim(p2[i])));
                    assert(bash_starts(EntryType::Function, trim(p2[i])));
                }
                if is_single_line {
                    let entry = Entry::new(
                        EntryType::Function,
                        name,
                        string_from_str(line),
                    ).with_line_number(line_number).with_end_line(line_number);
                    self.settle_structured(
                        result,
                        pending,
                        entry,
                        line_number,
                        Ghost(pieces),
                        Ghost(line@),
                    );
                } else {
                    let (merged_first_line, start_line) = self.open_block(
                        result,
                        pending,
                        string_from_str(line),
                        line_number,
                        Ghost(pieces),
                        Ghost(line@),
                    );
                    *active = Some(
                        PendingBlock {
                            lines: one_line(merged_first_line),
                            start_line,
                            end_line: line_number,
                            boundary: BoundaryType::BraceCounting { brace_count },
                            entry_hint: Some(EntryType::Function),
                            name: Some(name),
                            value: None,
                            comment_count: 0,
                        },
                    );
                }
                return Ghost(line@);
            },
            None => {},
        }
        // Multi-line parenthesised structure, such as `plugins=(...)`
        let (open_paren, close_paren) = count_parens_outside_quotes(trimmed);
        proof {
            lemma_count_outside_bound(trimmed@, '(');
        }
        if open_paren > close_paren {
            proof {
                assert(bash_opener(trim(p2[i])));
                assert(bash_starts(EntryType::Code, trim(p2[i])));
            }
            let parenthesis_count = (open_paren - close_paren) as i32;
            let (merged_first_line, start_line) = self.open_block(
                result,
                pending,
                string_from_str(line),
                line_number,
                Ghost(pieces),
                Ghost(line@),
            );
            *active = Some(
                PendingBlock {
                    lines: one_line(merged_first_line),
                    start_line,
                    end_line: line_number,
                    boundary: BoundaryType::ParenthesisCounting { parenthesis_count },
                    entry_hint: Some(EntryType::Code),
                    name: None,
                    value: None,
                    comment_count: 0,
                },
            );
            proof {
                lemma_kept_close(EntryType::Code, start_line - 1, i, p2);
            }
            return Ghost(line@);
        }
        // Anything else is code; a single comment line before it joins it.
        proof {
            assert(!bash_structured_line(trim(p2[i])));
        }
        if single_comment(pending) {
            let mut p = pending.take().unwrap();
            let ghost pb = p;
            p.add_line(line, line_number);
            p.upgrade_to_code();
            proof {
                lemma_block_add_line(pb, p, p2, pb.start_line - 1, i);
                    lemma_block_named_grow(pb, p, pieces, line@, i);
                    lemma_kept_grow(block_type(pb), block_type(p), pb.start_line - 1, pieces, line@);
            }
            *pending = Some(p);
        } else {
            let ghost op = *pending;
            match self.flush_pending_comment_code(pending) {
                Some(entry) => {
                    proof {
                        let pb = op->0;
                        lemma_flush_tiles(entries0, pb, entry, p2, i);
                            lemma_flush_named(entries0, pb, entry, p2);
                            lemma_fits_flush(entry, pb, pieces, p2);
                            lemma_starts_add(entries0, entry, p2);
                            lemma_comments_add(entries0, entry, p2);
                    }
                    result.add_entry(entry);
                },
                None => {},
            }
            *pending = Some(PendingBlock::code(line_number, line));
        }
        Ghost(line@)
    }
}

impl Parser for BashParser {
    open spec fn accepts(&self, content: Seq<char>) -> bool {
        bash_parsable(content)
    }

    /// Parse the content of a Bash configuration file into entries.
    ///
    /// The file is split into lines (a final `'\n'` ends the last line).
    /// The entries hold every line in order; a block left open at the end of
    /// the file is reported by one warning at its first line.
    ///
    /// Every alias, export, source or function entry is named by one of its
    /// own lines (see `bash_named_by`), and every comment or code entry by
    /// its line range (see `span_named`). A line that gives a structured
    /// entry outside a multi-line block (see `bash_structured_line`) stands
    /// in such an entry, or in code after a line of it that opens a block
    /// (see `lines_kept`). Every entry records its last line. A warning comes
    /// exactly when the file ends inside a block (see `bash_open_after`), and
    /// names the kind of block that a line at or after its line begins.
    ///
    /// Where entries begin is fixed by `bash_breaks_at`: every entry starts
    /// at a line where it holds and no other line of the entry is one, so
    /// (the entries being laid end to end) each such line begins an entry
    /// (`law_bash_entries_begin_at_breaks`).
    /// A multi-line block lies in one entry; blank lines join the entry
    /// above; a single comment line joins the entry after it, while two or
    /// more comment lines stay an entry of their own; every alias, export,
    /// source or function line outside a block begins an entry. The type of
    /// each entry is that of what waits after its last line (`all_typed`):
    /// comment lines give a comment entry, code a code entry, and a
    /// structured line a structured entry.
    #[verifier::rlimit(40)]
    fn parse(&self, content: &str) -> (r: ParseResult)
        ensures
            r.warnings@.len() == 1 <==> bash_open_after(file_lines(content@)).is_some(),
            all_start_well(r.entries@, file_lines(content@)),
            forall|k: int|
                0 <= k < r.entries@.len() - 1 && (#[trigger] r.entries@[k]).entry_type == EntryType::Comment
                    ==> two_comments(r.entries@[k].line_number->0 - 1, entry_end(r.entries@[k]), file_lines(content@)),
            r.warnings@.len() == 1 ==> starts_well(r.warnings@[0].line_number as int, file_lines(content@)),
            r.warnings@.len() == 1 ==> exists|j: int|
                r.warnings@[0].line_number - 1 <= j < file_lines(content@).len() && #[trigger] bash_warned(
                    r.warnings@[0].message@,
                    trim(file_lines(content@)[j]),
                ),
            all_named(r.entries@, file_lines(content@)),
            all_kept(r.entries@, file_lines(content@)),
    {
        let mut result = ParseResult::new();
        let mut active_block: Option<PendingBlock> = None;
        let mut pending_entry: Option<PendingBlock> = None;
        let mut control_depth: usize = 0;
        let lines = split_file_lines(content);
        let ghost all = file_lines(content@);
        proof {
            lemma_file_lines_size(content@);
            assert(all.take(0) =~= Seq::<Seq<char>>::empty());
            reveal(all_typed);
        }
        let ghost mut pieces: Seq<Seq<char>> = Seq::empty();
        let mut idx: usize = 0;
        while idx < lines.len()
            invariant
                views(lines@) == all,
                all == file_lines(content@),
                bash_parsable(content@),
                lines_size(all) <= content@.len() + 1,
                idx <= lines@.len(),
                pieces_of(pieces, all.take(idx as int)),
                scan_inv(
                    result.entries@,
                    active_block,
                    pending_entry,
                    control_depth,
                    pieces,
                    lines_size(all.take(idx as int)) as int,
                ),
                result.warnings@.len() == 0,
                open_agrees(active_block, all.take(idx as int)),
                forall|m: int|
                    0 <= m <= idx ==> #[trigger] bash_open_after(pieces.take(m)) == bash_open_after(
                        all.take(m),
                    ),
                forall|m: int|
                    0 <= m <= idx ==> #[trigger] bash_pend_after(pieces.take(m)) == bash_pend_after(
                        all.take(m),
                    ),
            decreases lines@.len() - idx,
        {
            let line = lines[idx].as_str();
            let line_number = idx + 1;
            let lchars = str_chars(line);
            let tchars = trim_chars(lchars.as_slice());
            let trimmed_s = string_from_chars(tchars.as_slice());
            let trimmed = trimmed_s.as_str();
            let ghost bound = lines_size(all.take(idx as int)) as int;
            proof {
                assert(line@ == all[idx as int]);
                lemma_lines_size_step(all, idx as int);
                lemma_lines_size_prefix(all, idx + 1);
            }
            proof {
                lemma_open_not_done(all.take(idx as int));
                assert(all.take(idx + 1).drop_last() =~= all.take(idx as int));
                assert(all.take(idx + 1).last() == line@);
                assert(pieces.take(idx as int) =~= pieces);
            }
            let piece = if active_block.is_some() {
                self.step_active(
                    &mut active_block,
                    &mut pending_entry,
                    &mut control_depth,
                    line,
                    trimmed,
                    line_number,
                    Ghost(result.entries@),
                    Ghost(pieces),
                    Ghost(bound),
                );
                Ghost(line@)
            } else {
                self.step_free(
                    &mut result,
                    &mut active_block,
                    &mut pending_entry,
                    &mut control_depth,
                    line,
                    trimmed,
                    line_number,
                    Ghost(pieces),
                    Ghost(bound),
                )
            };
            proof {
                let p0 = pieces;
                pieces = pieces.push(piece@);
                lemma_trim_idempotent(line@);
                assert(p0.take(idx as int) =~= p0);
                lemma_open_prefixes_step(p0, all, idx as int, piece@, line@);
                lemma_pend_prefixes_step(p0, all, idx as int, piece@, line@);
                assert(all.take(idx + 1) =~= all.take(idx as int).push(line@));
                assert(pieces_of(pieces, all.take(idx + 1))) by {
                    assert forall|j: int| 0 <= j < idx + 1 implies piece_ok(
                        #[trigger] pieces[j],
                        all.take(idx + 1)[j],
                    ) by {
                        if j < idx {
                            assert(pieces[j] == p0[j]);
                        }
                    }
                }
            }
            idx = idx + 1;
        }
        proof {
            assert(all.take(idx as int) =~= all);
        }
        let ghost entries_before = result.entries@;
        let ghost op = pending_entry;
        match self.flush_pending_comment_code(&mut pending_entry) {
            Some(entry) => {
                proof {
                    let pb = op->0;
                    lemma_flush_tiles(entries_before, pb, entry, pieces, pieces.len() as int);
                    lemma_flush_named(entries_before, pb, entry, pieces);
                    lemma_flush_kept(entries_before, pb, entry, pieces);
                    lemma_fits_flush(entry, pb, pieces, pieces);
                    lemma_starts_add(entries_before, entry, pieces);
                }
                result.add_entry(entry);
            },
            None => {},
        }
        match active_block {
            Some(block) => {
                let msg = match block.entry_hint {
                    Some(EntryType::Function) => "Unclosed function definition at end of file",
                    Some(EntryType::Alias) => "Unclosed multi-line alias at end of file",
                    Some(EntryType::EnvVar) => "Unclosed multi-line export at end of file",
                    _ => "Unclosed block at end of file",
                };
                proof {
                    reveal_strlit("");
                    let k = choose|k: int|
                        0 <= k < pieces.len() && block.start_line - 1 <= k < block.end_line
                            && #[trigger] bash_starts(block_type(block), trim(pieces[k]));
                    assert(piece_ok(pieces[k], all[k]));
                    lemma_trim_idempotent(all[k]);
                    assert(trim(pieces[k]) == trim(all[k]));
                    assert(bash_warned(msg@, trim(all[k])));
                }
                result.add_warning(ParseWarning::new(block.start_line, msg, ""));
            },
            None => {},
        }
        assert(covers_file(result, pieces));
        assert(pieces_of(pieces, file_lines(content@)));
        proof {
            lemma_all_named_lines(result.entries@, pieces, file_lines(content@));
            lemma_all_kept_lines(result.entries@, pieces, file_lines(content@));
            lemma_breaks_lines(pieces, file_lines(content@));
            lemma_starts_lines(result.entries@, active_block, pieces, file_lines(content@));
            lemma_comments_lines(entries_before, pieces, file_lines(content@));
            assert forall|k: int|
                0 <= k < result.entries@.len() - 1 && (#[trigger] result.entries@[k]).entry_type
                    == EntryType::Comment implies two_comments(
                result.entries@[k].line_number->0 - 1,
                entry_end(result.entries@[k]),
                file_lines(content@),
            ) by {
                assert(k < entries_before.len());
                assert(result.entries@[k] == entries_before[k]);
            }
        }
        result
    }

    fn can_parse(&self, content: &str) -> (r: bool) {
        let chars = str_chars(content);
        chars.len() < 0x7fff_fffe
    }

    /// The shell this parser reads.
    fn shell_type(&self) -> (r: ShellType)
        ensures
            r == ShellType::Bash,
    {
        ShellType::Bash
    }
}

impl Default for BashParser {
    fn default() -> (r: Self) {
        BashParser::new()
    }
}

} // verus!
