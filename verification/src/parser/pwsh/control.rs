//! Control structures of PowerShell (`if`, `foreach`, `while`, `for`,
//! `switch`, `try`), which end with `}` unless an `else`, `catch` or
//! `finally` continues them.
use vstd::prelude::*;

use crate::text::{
    contains_chars, contains_seq, count_char, count_char_chars, eq_str, lemma_count_char_bound,
    lowercase, split_chars, split_on, starts_with, starts_with_str, str_chars, string_from_chars,
    to_lowercase, trim, trim_chars,
};

verus! {

/// A (trimmed, lower-case) `;`-part that opens a control structure.
pub open spec fn opens_control(p: Seq<char>) -> bool {
    ||| starts_with(p, "if "@)
    ||| starts_with(p, "if("@)
    ||| p == "if"@
    ||| starts_with(p, "foreach "@)
    ||| starts_with(p, "foreach("@)
    ||| starts_with(p, "while "@)
    ||| starts_with(p, "while("@)
    ||| starts_with(p, "for "@)
    ||| starts_with(p, "for("@)
    ||| starts_with(p, "switch "@)
    ||| starts_with(p, "switch("@)
    ||| starts_with(p, "try "@)
    ||| p == "try"@
    ||| starts_with(p, "try{"@)
}

/// Number of parts whose trimmed text opens a control structure.
pub open spec fn count_opening(parts: Seq<Seq<char>>) -> nat
    decreases parts.len(),
{
    if parts.len() == 0 {
        0
    } else {
        count_opening(parts.drop_last()) + if opens_control(trim(parts.last())) {
            1nat
        } else {
            0nat
        }
    }
}

/// Control-structure openings on a line: the `;`-parts of its lower-case
/// form that start with an opening keyword.
pub open spec fn control_start_count(line: Seq<char>) -> nat {
    count_opening(split_on(lowercase(line), ';'))
}

/// Control-structure closings on a line: 1 for a lone `}`; for a line
/// ending with `}` that continues nothing (no `else`, `catch`, `finally`),
/// the closing braces in excess of the opening ones; else 0.
pub open spec fn control_end_count(line: Seq<char>) -> nat {
    let t = trim(line);
    let lower = lowercase(t);
    if t == "}"@ {
        1
    } else if t.len() > 0 && t.last() == '}' && !contains_seq(lower, "else"@) && !contains_seq(
        lower,
        "catch"@,
    ) && !contains_seq(lower, "finally"@) && count_char(t, '}') > count_char(t, '{') {
        (count_char(t, '}') - count_char(t, '{')) as nat
    } else {
        0
    }
}

fn opens_control_exec(p: &[char]) -> (r: bool)
    ensures
        r == opens_control(p@),
{
    starts_with_str(p, "if ") || starts_with_str(p, "if(") || eq_str(p, "if") || starts_with_str(
        p,
        "foreach ",
    ) || starts_with_str(p, "foreach(") || starts_with_str(p, "while ") || starts_with_str(
        p,
        "while(",
    ) || starts_with_str(p, "for ") || starts_with_str(p, "for(") || starts_with_str(p, "switch ")
        || starts_with_str(p, "switch(") || starts_with_str(p, "try ") || eq_str(p, "try")
        || starts_with_str(p, "try{")
}

/// Counts control-structure openings (`if`, `foreach`, `while`, `for`,
/// `switch`, `try`) among the `;`-separated parts of the lower-cased line.
pub fn count_control_start(line: &str) -> (n: usize)
    ensures
        n == control_start_count(line@),
{
    let lower = to_lowercase(line);
    let lv = str_chars(lower.as_str());
    let parts = split_chars(lv.as_slice(), ';');
    let ghost ps = split_on(lv@, ';');
    let mut n: usize = 0;
    let mut i: usize = 0;
    while i < parts.len()
        invariant
            i <= parts@.len(),
            parts@.len() == ps.len(),
            forall|k: int| 0 <= k < parts@.len() ==> (#[trigger] parts@[k])@ == ps[k],
            n == count_opening(ps.take(i as int)),
            n <= i,
        decreases parts@.len() - i,
    {
        let t = trim_chars(parts[i].as_slice());
        assert(ps.take(i + 1).drop_last() =~= ps.take(i as int));
        assert(ps.take(i + 1).last() == ps[i as int]);
        if opens_control_exec(t.as_slice()) {
            n = n + 1;
        }
        i = i + 1;
    }
    assert(ps.take(i as int) =~= ps);
    n
}

/// Counts control-structure closings on a line (see `control_end_count`).
pub fn count_control_end(line: &str) -> (n: usize)
    ensures
        n == control_end_count(line@),
        n <= line@.len(),
{
    let v = str_chars(line);
    let t = trim_chars(v.as_slice());
    proof {
        crate::text::lemma_trim_len(line@);
        lemma_count_char_bound(t@, '}');
        reveal_strlit("}");
    }
    if eq_str(t.as_slice(), "}") {
        return 1;
    }
    let ts = string_from_chars(t.as_slice());
    let lower = to_lowercase(ts.as_str());
    let lv = str_chars(lower.as_str());
    let else_w = str_chars("else");
    let catch_w = str_chars("catch");
    let finally_w = str_chars("finally");
    if t.len() > 0 && t[t.len() - 1] == '}' && !contains_chars(lv.as_slice(), else_w.as_slice())
        && !contains_chars(lv.as_slice(), catch_w.as_slice()) && !contains_chars(
        lv.as_slice(),
        finally_w.as_slice(),
    ) {
        let close_count = count_char_chars(t.as_slice(), '}');
        let open_count = count_char_chars(t.as_slice(), '{');
        if close_count > open_count {
            return close_count - open_count;
        }
    }
    0
}

} // verus!
