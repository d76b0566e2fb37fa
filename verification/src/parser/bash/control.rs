//! Detection of Bash control-structure keywords (`if`/`fi`, loops, `case`/`esac`).
use vstd::prelude::*;

use crate::text::{
    eq_str, split_chars, split_on, starts_with, starts_with_str, str_chars, trim, trim_chars,
};

verus! {

/// A `;`-separated part (trimmed) that opens a control structure.
pub open spec fn opens_control(p: Seq<char>) -> bool {
    ||| starts_with(p, "if "@)
    ||| p == "if"@
    ||| starts_with(p, "while "@)
    ||| p == "while"@
    ||| starts_with(p, "until "@)
    ||| p == "until"@
    ||| starts_with(p, "for "@)
    ||| starts_with(p, "case "@)
    ||| starts_with(p, "select "@)
}

/// A `;`-separated part (trimmed) that closes a control structure.
pub open spec fn closes_control(p: Seq<char>) -> bool {
    ||| p == "fi"@
    ||| starts_with(p, "fi "@)
    ||| starts_with(p, "fi;"@)
    ||| p == "done"@
    ||| starts_with(p, "done "@)
    ||| starts_with(p, "done;"@)
    ||| p == "esac"@
    ||| starts_with(p, "esac "@)
    ||| starts_with(p, "esac;"@)
}

/// Number of parts whose trimmed text opens a control structure.
pub open spec fn count_opening(parts: Seq<Seq<char>>) -> nat
    decreases parts.len(),
{
    if parts.len() == 0 {
        0
    } else {
        count_opening(parts.drop_last()) + if opens_control(trim(parts.last())) {
            1nat
        } else {
            0nat
        }
    }
}

/// Number of parts whose trimmed text closes a control structure.
pub open spec fn count_closing(parts: Seq<Seq<char>>) -> nat
    decreases parts.len(),
{
    if parts.len() == 0 {
        0
    } else {
        count_closing(parts.drop_last()) + if closes_control(trim(parts.last())) {
            1nat
        } else {
            0nat
        }
    }
}

pub proof fn lemma_count_opening_bound(parts: Seq<Seq<char>>)
    ensures
        count_opening(parts) <= parts.len(),
    decreases parts.len(),
{
    if parts.len() > 0 {
        lemma_count_opening_bound(parts.drop_last());
    }
}

/// A line opens at most one control structure per character, plus one.
pub proof fn lemma_control_start_bound(line: Seq<char>)
    ensures
        control_start_count(line) <= line.len() + 1,
{
    lemma_count_opening_bound(split_on(line, ';'));
    crate::text::lemma_split_on_nonempty(line, ';');
    crate::text::lemma_count_char_bound(line, ';');
}

/// Number of control-structure openings on a line.
pub open spec fn control_start_count(line: Seq<char>) -> nat {
    count_opening(split_on(line, ';'))
}

/// Control-structure closings on a line: 1 when a `;`-part starts with a
/// closing keyword, else 0 (a keyword elsewhere, as in `echo done`, closes
/// nothing).
pub open spec fn control_end_count(line: Seq<char>) -> nat {
    if count_closing(split_on(line, ';')) > 0 {
        1
    } else {
        0
    }
}

fn opens_control_exec(p: &[char]) -> (r: bool)
    ensures
        r == opens_control(p@),
{
    starts_with_str(p, "if ") || eq_str(p, "if") || starts_with_str(p, "while ") || eq_str(
        p,
        "while",
    ) || starts_with_str(p, "until ") || eq_str(p, "until") || starts_with_str(p, "for ")
        || starts_with_str(p, "case ") || starts_with_str(p, "select ")
}

fn closes_control_exec(p: &[char]) -> (r: bool)
    ensures
        r == closes_control(p@),
{
    eq_str(p, "fi") || starts_with_str(p, "fi ") || starts_with_str(p, "fi;") || eq_str(p, "done")
        || starts_with_str(p, "done ") || starts_with_str(p, "done;") || eq_str(p, "esac")
        || starts_with_str(p, "esac ") || starts_with_str(p, "esac;")
}

/// Counts the `;`-parts of a line that open (`opening`) or close a control structure.
fn count_parts(line: &[char], opening: bool) -> (n: usize)
    ensures
        n == (if opening {
            count_opening(split_on(line@, ';'))
        } else {
            count_closing(split_on(line@, ';'))
        }),
{
    let parts = split_chars(line, ';');
    let ghost ps = split_on(line@, ';');
    let mut n: usize = 0;
    let mut i: usize = 0;
    while i < parts.len()
        invariant
            i <= parts@.len(),
            parts@.len() == ps.len(),
            forall|k: int| 0 <= k < parts@.len() ==> (#[trigger] parts@[k])@ == ps[k],
            n == (if opening {
                count_opening(ps.take(i as int))
            } else {
                count_closing(ps.take(i as int))
            }),
            n <= i,
        decreases parts@.len() - i,
    {
        let t = trim_chars(parts[i].as_slice());
        assert(ps.take(i + 1).drop_last() =~= ps.take(i as int));
        assert(ps.take(i + 1).last() == ps[i as int]);
        let hit = if opening {
            opens_control_exec(t.as_slice())
        } else {
            closes_control_exec(t.as_slice())
        };
        if hit {
            n = n + 1;
        }
        i = i + 1;
    }
    assert(ps.take(i as int) =~= ps);
    n
}

/// Counts control-structure openings (`if`, `while`, `until`, `for`,
/// `case`, `select`) among the `;`-separated parts of a line.
pub fn count_control_start(line: &str) -> (n: usize)
    ensures
        n == control_start_count(line@),
{
    let v = str_chars(line);
    count_parts(v.as_slice(), true)
}

/// 1 when a `;`-separated part of the line starts with a closing keyword
/// (`fi`, `done`, `esac`), else 0.
pub fn count_control_end(line: &str) -> (n: usize)
    ensures
        n == control_end_count(line@),
{
    let v = str_chars(line);
    let c = count_parts(v.as_slice(), false);
    if c > 0 {
        1
    } else {
        0
    }
}

} // verus!
