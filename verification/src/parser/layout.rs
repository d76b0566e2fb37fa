//! How the entries of a parse lie over the lines of the file: the laws that
//! both parsers keep, and the pieces of their proofs.
use vstd::prelude::*;

use crate::model::entry::{Entry, ParseResult};
use crate::parser::builders::comment::views;
use crate::parser::pending::PendingBlock;
use crate::text::{
    join_with, lemma_join_push, lemma_split_on_nonempty, split_chars, split_on,
    str_chars, string_from_chars, trim,
};

verus! {

/// The lines of a file: the text split at `'\n'`, where a final `'\n'`
/// ends the last line instead of starting an empty one.
pub open spec fn file_lines(content: Seq<char>) -> Seq<Seq<char>> {
    let p = split_on(content, '\n');
    if content.len() > 0 && content.last() == '\n' {
        p.drop_last()
    } else {
        p
    }
}

/// A line as an entry keeps it: as it stands, or trimmed.
pub open spec fn piece_ok(piece: Seq<char>, line: Seq<char>) -> bool {
    piece == line || piece == trim(line)
}

/// `pieces` keeps `lines` line by line.
pub open spec fn pieces_of(pieces: Seq<Seq<char>>, lines: Seq<Seq<char>>) -> bool {
    &&& pieces.len() == lines.len()
    &&& forall|j: int| 0 <= j < lines.len() ==> piece_ok(#[trigger] pieces[j], lines[j])
}

/// The text of the lines `lo+1 ..= hi` (1-based) as kept by `pieces`.
pub open spec fn span_text(pieces: Seq<Seq<char>>, lo: int, hi: int) -> Seq<char> {
    join_with(pieces.subrange(lo, hi), '\n')
}

/// `e` covers exactly the lines `lo+1 ..= hi` and its value is their text.
pub open spec fn entry_covers(e: Entry, pieces: Seq<Seq<char>>, lo: int, hi: int) -> bool {
    &&& 0 <= lo < hi <= pieces.len()
    &&& e.line_number is Some
    &&& e.line_number.unwrap() == lo + 1
    &&& match e.end_line {
        Some(x) => x == hi,
        None => hi == lo + 1,
    }
    &&& e.value@ == span_text(pieces, lo, hi)
}

/// The entries cover the first `k` lines one after the other, in order,
/// each holding the text of its lines.
pub open spec fn tiles(es: Seq<Entry>, pieces: Seq<Seq<char>>, k: int) -> bool
    decreases es.len(),
{
    if es.len() == 0 {
        k == 0
    } else {
        let e = es.last();
        &&& e.line_number.is_some()
        &&& entry_covers(e, pieces, e.line_number.unwrap() - 1, k)
        &&& tiles(es.drop_last(), pieces, e.line_number.unwrap() - 1)
    }
}

/// A pending block holds the lines `lo+1 ..= hi`.
pub open spec fn block_covers(b: PendingBlock, pieces: Seq<Seq<char>>, lo: int, hi: int) -> bool {
    &&& 0 <= lo < hi <= pieces.len()
    &&& views(b.lines@).len() >= 1
    &&& b.start_line == lo + 1
    &&& b.end_line == hi
    &&& b.content() == span_text(pieces, lo, hi)
    &&& b.comment_count <= hi
}

/// Before line `i + 1`: the entries cover the lines up to the pending block,
/// which holds the rest; without a pending block they cover all `i` lines.
pub open spec fn ready(entries: Seq<Entry>, pending: Option<PendingBlock>, pieces: Seq<Seq<char>>, i: int) -> bool {
    match pending {
        Some(p) => p.start_line >= 1 && tiles(entries, pieces, p.start_line - 1) && block_covers(
            p,
            pieces,
            p.start_line - 1,
            i,
        ),
        None => tiles(entries, pieces, i),
    }
}

/// An entry that takes over a pending block's lines and text continues the tiling.
pub proof fn lemma_flush_tiles(entries: Seq<Entry>, p: PendingBlock, e: Entry, pieces: Seq<Seq<char>>, i: int)
    requires
        p.start_line >= 1,
        tiles(entries, pieces, p.start_line - 1),
        block_covers(p, pieces, p.start_line - 1, i),
        e.line_number == Some(p.start_line),
        e.end_line == Some(p.end_line),
        e.value@ == p.content(),
    ensures
        tiles(entries.push(e), pieces, i),
{
    lemma_tiles_push(entries, e, pieces, p.start_line - 1, i);
}

/// The entries as they stand, and a pending block, both stay valid when a line is added after them.
pub proof fn lemma_ready_stable(entries: Seq<Entry>, pending: Option<PendingBlock>, pieces: Seq<Seq<char>>, x: Seq<char>, i: int)
    requires
        ready(entries, pending, pieces, i),
        i <= pieces.len(),
    ensures
        ready(entries, pending, pieces.push(x), i),
{
    match pending {
        Some(p) => {
            lemma_tiles_stable(entries, pieces, x, p.start_line - 1);
            lemma_block_stable(p, pieces, x, p.start_line - 1, i);
        },
        None => {
            lemma_tiles_stable(entries, pieces, x, i);
        },
    }
}

/// The entries cover the lines kept by `pieces` one after the other; a block
/// left open at the end of the file leaves one warning at its first line and
/// the entries cover the lines before it.
pub open spec fn covers_file(r: ParseResult, pieces: Seq<Seq<char>>) -> bool {
    ||| r.warnings@.len() == 0 && tiles(r.entries@, pieces, pieces.len() as int)
    ||| {
        &&& r.warnings@.len() == 1
        &&& 1 <= r.warnings@[0].line_number <= pieces.len()
        &&& tiles(r.entries@, pieces, r.warnings@[0].line_number - 1)
        &&& r.warnings@[0].raw_line@.len() == 0
    }
}

/// `r` is a parse of `content`: its entries hold the file's lines, in order,
/// each line as it stands or trimmed.
pub open spec fn parse_covers(content: Seq<char>, r: ParseResult) -> bool {
    exists|pieces: Seq<Seq<char>>| #[trigger] pieces_of(pieces, file_lines(content)) && covers_file(r, pieces)
}

/// The lines written by a prefix of the entries are no more than those of all.
pub proof fn lemma_flat_prefix_len(es: Seq<Entry>, i: int)
    requires
        0 <= i <= es.len(),
    ensures
        crate::model::profile::flat_lines(es.take(i)).len() <= crate::model::profile::flat_lines(es).len(),
    decreases es.len() - i,
{
    if i < es.len() {
        lemma_flat_prefix_len(es, i + 1);
        crate::model::profile::lemma_flat_lines_step(es, i);
    } else {
        assert(es.take(i) =~= es);
    }
}

/// Size of lines counted with one separator each.
pub open spec fn lines_size(ls: Seq<Seq<char>>) -> nat
    decreases ls.len(),
{
    if ls.len() == 0 {
        0
    } else {
        lines_size(ls.drop_last()) + ls.last().len() + 1
    }
}

pub proof fn lemma_lines_size_split(c: Seq<char>, d: char)
    ensures
        lines_size(split_on(c, d)) == c.len() + 1,
    decreases c.len(),
{
    if c.len() > 0 {
        lemma_lines_size_split(c.drop_last(), d);
        lemma_split_on_nonempty(c.drop_last(), d);
        let p = split_on(c.drop_last(), d);
        assert(lines_size(p) == lines_size(p.drop_last()) + p.last().len() + 1);
        if c.last() != d {
            let q = p.update(p.len() - 1, p.last().push(c.last()));
            assert(split_on(c, d) == q);
            assert(q.drop_last() =~= p.drop_last());
            assert(q.last() == p.last().push(c.last()));
            assert(lines_size(q) == lines_size(q.drop_last()) + q.last().len() + 1);
        } else {
            let q = p.push(Seq::<char>::empty());
            assert(split_on(c, d) == q);
            assert(q.drop_last() =~= p);
            assert(lines_size(q) == lines_size(q.drop_last()) + q.last().len() + 1);
        }
    } else {
        let q = split_on(c, d);
        assert(q =~= seq![Seq::<char>::empty()]);
        assert(q.drop_last() =~= Seq::<Seq<char>>::empty());
        assert(lines_size(q) == lines_size(q.drop_last()) + q.last().len() + 1);
    }
}

pub proof fn lemma_lines_size_prefix(ls: Seq<Seq<char>>, i: int)
    requires
        0 <= i <= ls.len(),
    ensures
        lines_size(ls.take(i)) <= lines_size(ls),
    decreases ls.len() - i,
{
    if i < ls.len() {
        lemma_lines_size_prefix(ls, i + 1);
        assert(ls.take(i + 1).drop_last() =~= ls.take(i));
    } else {
        assert(ls.take(i) =~= ls);
    }
}

pub proof fn lemma_file_lines_size(c: Seq<char>)
    ensures
        lines_size(file_lines(c)) <= c.len() + 1,
        file_lines(c).len() <= c.len() + 1,
{
    lemma_lines_size_split(c, '\n');
    lemma_split_on_nonempty(c, '\n');
    crate::text::lemma_count_char_bound(c, '\n');
}

pub proof fn lemma_lines_size_step(ls: Seq<Seq<char>>, i: int)
    requires
        0 <= i < ls.len(),
    ensures
        lines_size(ls.take(i + 1)) == lines_size(ls.take(i)) + ls[i].len() + 1,
{
    assert(ls.take(i + 1).drop_last() =~= ls.take(i));
}

/// Text of one line more.
pub proof fn lemma_span_extend(pieces: Seq<Seq<char>>, lo: int, hi: int)
    requires
        0 <= lo < hi < pieces.len(),
    ensures
        span_text(pieces, lo, hi + 1) == span_text(pieces, lo, hi).push('\n') + pieces[hi],
{
    assert(pieces.subrange(lo, hi + 1) =~= pieces.subrange(lo, hi).push(pieces[hi]));
    lemma_join_push(pieces.subrange(lo, hi), pieces[hi], '\n');
}

pub proof fn lemma_span_single(pieces: Seq<Seq<char>>, lo: int)
    requires
        0 <= lo < pieces.len(),
    ensures
        span_text(pieces, lo, lo + 1) == pieces[lo],
{
    assert(pieces.subrange(lo, lo + 1) =~= seq![pieces[lo]]);
}

/// Spans do not depend on pieces after them.
pub proof fn lemma_span_stable(pieces: Seq<Seq<char>>, x: Seq<char>, lo: int, hi: int)
    requires
        0 <= lo <= hi <= pieces.len(),
    ensures
        span_text(pieces.push(x), lo, hi) == span_text(pieces, lo, hi),
{
    assert(pieces.push(x).subrange(lo, hi) =~= pieces.subrange(lo, hi));
}

/// A tiling stays one when more pieces are added after it.
pub proof fn lemma_tiles_stable(es: Seq<Entry>, pieces: Seq<Seq<char>>, x: Seq<char>, k: int)
    requires
        tiles(es, pieces, k),
        k <= pieces.len(),
    ensures
        tiles(es, pieces.push(x), k),
    decreases es.len(),
{
    if es.len() > 0 {
        let e = es.last();
        let lo = e.line_number.unwrap() - 1;
        lemma_span_stable(pieces, x, lo, k);
        lemma_tiles_stable(es.drop_last(), pieces, x, lo);
    }
}

pub proof fn lemma_tiles_push(es: Seq<Entry>, e: Entry, pieces: Seq<Seq<char>>, lo: int, hi: int)
    requires
        tiles(es, pieces, lo),
        entry_covers(e, pieces, lo, hi),
    ensures
        tiles(es.push(e), pieces, hi),
{
    let es2 = es.push(e);
    assert(es2.drop_last() =~= es);
    assert(es2.last() == e);
    assert(e.line_number.unwrap() - 1 == lo);
}

pub proof fn lemma_block_stable(b: PendingBlock, pieces: Seq<Seq<char>>, x: Seq<char>, lo: int, hi: int)
    requires
        block_covers(b, pieces, lo, hi),
    ensures
        block_covers(b, pieces.push(x), lo, hi),
{
    lemma_span_stable(pieces, x, lo, hi);
}

/// Adding the next line to a block covering up to it.
pub proof fn lemma_block_add_line(
    b: PendingBlock,
    b2: PendingBlock,
    pieces: Seq<Seq<char>>,
    lo: int,
    hi: int,
)
    requires
        block_covers(b, pieces, lo, hi),
        hi < pieces.len(),
        views(b2.lines@) == views(b.lines@).push(pieces[hi]),
        b2.start_line == b.start_line,
        b2.end_line == hi + 1,
        b2.comment_count <= hi + 1,
    ensures
        block_covers(b2, pieces, lo, hi + 1),
{
    lemma_join_push(views(b.lines@), pieces[hi], '\n');
    lemma_span_extend(pieces, lo, hi);
}

/// The joined values of a tiling are the text of the lines it covers.
pub open spec fn values_text(es: Seq<Entry>) -> Seq<char> {
    join_with(es.map_values(|e: Entry| e.value@), '\n')
}

pub proof fn lemma_join_concat(a: Seq<Seq<char>>, b: Seq<Seq<char>>)
    requires
        a.len() >= 1,
        b.len() >= 1,
    ensures
        join_with(a + b, '\n') == join_with(a, '\n').push('\n') + join_with(b, '\n'),
    decreases b.len(),
{
    if b.len() == 1 {
        assert((a + b) =~= a.push(b[0]));
        lemma_join_push(a, b[0], '\n');
    } else {
        let b0 = b.drop_last();
        lemma_join_concat(a, b0);
        assert((a + b) =~= (a + b0).push(b.last()));
        lemma_join_push(a + b0, b.last(), '\n');
        lemma_join_push(b0, b.last(), '\n');
        assert(b0.push(b.last()) =~= b);
    }
}

pub proof fn lemma_tiles_text(es: Seq<Entry>, pieces: Seq<Seq<char>>, k: int)
    requires
        tiles(es, pieces, k),
        k <= pieces.len(),
    ensures
        values_text(es) == join_with(pieces.take(k), '\n'),
    decreases es.len(),
{
    if es.len() == 0 {
        assert(pieces.take(0) =~= Seq::<Seq<char>>::empty());
        assert(es.map_values(|e: Entry| e.value@) =~= Seq::<Seq<char>>::empty());
    } else {
        let e = es.last();
        let lo = e.line_number.unwrap() - 1;
        lemma_tiles_text(es.drop_last(), pieces, lo);
        let vs = es.map_values(|e: Entry| e.value@);
        assert(es.drop_last().map_values(|e: Entry| e.value@) =~= vs.drop_last());
        if lo == 0 {
            assert(es.drop_last().len() == 0) by {
                let d = es.drop_last();
                if d.len() > 0 {
                    assert(tiles(d, pieces, 0));
                    let e2 = d.last();
                    assert(entry_covers(e2, pieces, e2.line_number.unwrap() - 1, 0));
                }
            }
            assert(vs =~= seq![e.value@]);
            assert(pieces.subrange(0, k) =~= pieces.take(k));
        } else {
            assert(tiles(es.drop_last(), pieces, lo));
            assert(es.drop_last().len() > 0);
            lemma_join_push(vs.drop_last(), vs.last(), '\n');
            assert(vs.drop_last().push(vs.last()) =~= vs);
            lemma_join_concat(pieces.take(lo), pieces.subrange(lo, k));
            assert(pieces.take(lo) + pieces.subrange(lo, k) =~= pieces.take(k));
        }
    }
}

/// Splits a text at every `'\n'` (`str::split('\n')`).
pub fn split_all_lines(content: &str) -> (r: Vec<String>)
    ensures
        views(r@) == split_on(content@, '\n'),
{
    let chars = str_chars(content);
    let parts = split_chars(chars.as_slice(), '\n');
    let mut out: Vec<String> = Vec::new();
    let mut i: usize = 0;
    while i < parts.len()
        invariant
            parts@.len() == split_on(content@, '\n').len(),
            forall|k: int| 0 <= k < parts@.len() ==> (#[trigger] parts@[k])@ == split_on(content@, '\n')[k],
            i <= parts@.len(),
            views(out@) == split_on(content@, '\n').take(i as int),
        decreases parts@.len() - i,
    {
        let ghost prev = out@;
        let line = string_from_chars(parts[i].as_slice());
        out.push(line);
        assert(out@ == prev.push(line));
        assert(views(out@) =~= views(prev).push(line@));
        assert(views(out@) =~= split_on(content@, '\n').take(i + 1));
        i = i + 1;
    }
    assert(split_on(content@, '\n').take(i as int) =~= split_on(content@, '\n'));
    out
}

/// Splits a text into its lines, as `file_lines` gives them.
pub fn split_file_lines(content: &str) -> (r: Vec<String>)
    ensures
        views(r@) == file_lines(content@),
{
    let chars = str_chars(content);
    let parts = split_chars(chars.as_slice(), '\n');
    proof {
        lemma_split_on_nonempty(content@, '\n');
    }
    let n = parts.len();
    let ends_nl = chars.len() > 0 && chars[chars.len() - 1] == '\n';
    let keep = if ends_nl {
        n - 1
    } else {
        n
    };
    let mut out: Vec<String> = Vec::new();
    let mut i: usize = 0;
    while i < keep
        invariant
            keep <= n,
            n == parts@.len(),
            parts@.len() == split_on(content@, '\n').len(),
            forall|k: int| 0 <= k < parts@.len() ==> (#[trigger] parts@[k])@ == split_on(content@, '\n')[k],
            i <= keep,
            views(out@) == split_on(content@, '\n').take(i as int),
        decreases keep - i,
    {
        let ghost prev = out@;
        let line = string_from_chars(parts[i].as_slice());
        out.push(line);
        assert(out@ == prev.push(line));
        assert(views(out@) =~= views(prev).push(line@));
        assert(views(out@) =~= split_on(content@, '\n').take(i + 1));
        i = i + 1;
    }
    assert(views(out@) =~= file_lines(content@));
    out
}

} // verus!
