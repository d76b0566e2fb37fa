//! The duplicate-definition check.
use vstd::prelude::*;

use crate::checker::{CheckIssue, CheckResult, Checker, Severity};
use crate::model::entry::{entry_type_label, Entry};
use crate::text::{dec, push_decimal, push_str, str_chars, string_from_str};

verus! {

/// Two entries define the same thing: same type and name.
pub open spec fn same_key(a: Entry, b: Entry) -> bool {
    a.entry_type == b.entry_type && a.name@ == b.name@
}

/// Number of entries with the key of `e`.
pub open spec fn key_count(es: Seq<Entry>, e: Entry) -> nat
    decreases es.len(),
{
    if es.len() == 0 {
        0
    } else {
        key_count(es.drop_last(), e) + if same_key(es.last(), e) {
            1nat
        } else {
            0nat
        }
    }
}

/// `es[i]` is the first entry with its key.
pub open spec fn first_of_key(es: Seq<Entry>, i: int) -> bool {
    forall|j: int| 0 <= j < i ==> !same_key(#[trigger] es[j], es[i])
}

/// Indices below `k` of the first entries of keys defined more than once, in order.
pub open spec fn dup_firsts(es: Seq<Entry>, k: int) -> Seq<int>
    decreases k,
{
    if k <= 0 {
        Seq::empty()
    } else {
        dup_firsts(es, k - 1) + if first_of_key(es, k - 1) && key_count(es, es[k - 1]) > 1 {
            seq![k - 1]
        } else {
            Seq::empty()
        }
    }
}

/// The line numbers, in decimal and in order, of the entries with the key of `e`.
pub open spec fn dup_lines(es: Seq<Entry>, e: Entry) -> Seq<Seq<char>>
    decreases es.len(),
{
    if es.len() == 0 {
        Seq::empty()
    } else {
        let rest = dup_lines(es.drop_last(), e);
        let x = es.last();
        if same_key(x, e) && x.line_number is Some {
            rest.push(dec(x.line_number->0 as nat))
        } else {
            rest
        }
    }
}

/// Parts joined by `sep`.
pub open spec fn join_sep(parts: Seq<Seq<char>>, sep: Seq<char>) -> Seq<char>
    decreases parts.len(),
{
    if parts.len() == 0 {
        Seq::empty()
    } else if parts.len() == 1 {
        parts[0]
    } else {
        join_sep(parts.drop_last(), sep) + sep + parts.last()
    }
}

/// The message for the entries sharing the key of `e`.
pub open spec fn dup_message(es: Seq<Entry>, e: Entry) -> Seq<char> {
    "Duplicate "@ + entry_type_label(e.entry_type) + " '"@ + e.name@ + "' defined on lines: "@
        + join_sep(dup_lines(es, e), ", "@)
}

/// `iss` reports the entries sharing the key of `es[i]`, the first of them.
pub open spec fn issue_for(iss: CheckIssue, es: Seq<Entry>, i: int) -> bool {
    &&& iss.severity == Severity::Warning
    &&& iss.message@ == dup_message(es, es[i])
    &&& iss.line_number == es[i].line_number
    &&& iss.entry_name matches Some(n) && n@ == es[i].name@
}

/// Checks for duplicate definitions.
pub struct DuplicateChecker;

fn str_eq(a: &str, b: &str) -> (r: bool)
    ensures
        r == (a@ == b@),
{
    let x = str_chars(a);
    let y = str_chars(b);
    crate::model::entry::chars_eq(x.as_slice(), y.as_slice())
}

fn same_key_exec(a: &Entry, b: &Entry) -> (r: bool)
    ensures
        r == same_key(*a, *b),
{
    a.entry_type == b.entry_type && str_eq(a.name.as_str(), b.name.as_str())
}

fn is_first_of_key(es: &[Entry], i: usize) -> (r: bool)
    requires
        i < es@.len(),
    ensures
        r == first_of_key(es@, i as int),
{
    let mut j: usize = 0;
    while j < i
        invariant
            j <= i < es@.len(),
            forall|k: int| 0 <= k < j ==> !same_key(#[trigger] es@[k], es@[i as int]),
        decreases i - j,
    {
        if same_key_exec(&es[j], &es[i]) {
            return false;
        }
        j = j + 1;
    }
    true
}

fn count_key(es: &[Entry], e: &Entry) -> (n: usize)
    ensures
        n == key_count(es@, *e),
{
    let mut n: usize = 0;
    let mut j: usize = 0;
    while j < es.len()
        invariant
            j <= es@.len(),
            n == key_count(es@.take(j as int), *e),
            n <= j,
        decreases es@.len() - j,
    {
        assert(es@.take(j + 1).drop_last() =~= es@.take(j as int));
        if same_key_exec(&es[j], e) {
            n = n + 1;
        }
        j = j + 1;
    }
    assert(es@.take(j as int) =~= es@);
    n
}

/// The joined decimal line numbers of the entries with the key of `e`.
fn lines_text(es: &[Entry], e: &Entry) -> (r: String)
    ensures
        r@ == join_sep(dup_lines(es@, *e), ", "@),
{
    let mut out = String::new();
    let mut count: usize = 0;
    let mut j: usize = 0;
    while j < es.len()
        invariant
            j <= es@.len(),
            count == dup_lines(es@.take(j as int), *e).len(),
            count <= j,
            out@ == join_sep(dup_lines(es@.take(j as int), *e), ", "@),
        decreases es@.len() - j,
    {
        assert(es@.take(j + 1).drop_last() =~= es@.take(j as int));
        let x = &es[j];
        if same_key_exec(x, e) {
            match x.line_number {
                Some(l) => {
                    let ghost before = dup_lines(es@.take(j as int), *e);
                    if count > 0 {
                        push_str(&mut out, ", ");
                    }
                    let ghost mid = out@;
                    push_decimal(&mut out, l);
                    proof {
                        let after = before.push(dec(l as nat));
                        assert(after.drop_last() =~= before);
                        if count == 0 {
                            assert(mid =~= Seq::<char>::empty());
                            assert(out@ =~= after[0]);
                        }
                    }
                    count = count + 1;
                },
                None => {},
            }
        }
        j = j + 1;
    }
    assert(es@.take(j as int) =~= es@);
    out
}

impl Checker for DuplicateChecker {
    /// One warning for each type and name defined more than once, at its
    /// first definition, listing the lines of all of them; in the order of
    /// the first definitions.
    fn check(&self, entries: &[Entry]) -> (r: CheckResult)
        ensures
            r.issues@.len() == dup_firsts(entries@, entries@.len() as int).len(),
            forall|t: int|
                0 <= t < r.issues@.len() ==> issue_for(
                    #[trigger] r.issues@[t],
                    entries@,
                    dup_firsts(entries@, entries@.len() as int)[t],
                ),
    {
        let mut result = CheckResult::new();
        let mut i: usize = 0;
        while i < entries.len()
            invariant
                i <= entries@.len(),
                result.issues@.len() == dup_firsts(entries@, i as int).len(),
                forall|t: int|
                    0 <= t < result.issues@.len() ==> issue_for(
                        #[trigger] result.issues@[t],
                        entries@,
                        dup_firsts(entries@, i as int)[t],
                    ),
            decreases entries@.len() - i,
        {
            let ghost prev = dup_firsts(entries@, i as int);
            let e = &entries[i];
            if is_first_of_key(entries, i) && count_key(entries, e) > 1 {
                let mut msg = string_from_str("Duplicate ");
                push_str(&mut msg, e.entry_type.as_str());
                push_str(&mut msg, " '");
                push_str(&mut msg, e.name.as_str());
                push_str(&mut msg, "' defined on lines: ");
                let lines = lines_text(entries, e);
                push_str(&mut msg, lines.as_str());
                let issue = CheckIssue {
                    severity: Severity::Warning,
                    message: msg,
                    line_number: e.line_number,
                    entry_name: Some(string_from_str(e.name.as_str())),
                };
                result.add_issue(issue);
                assert(dup_firsts(entries@, i + 1) =~= prev.push(i as int));
            } else {
                assert(dup_firsts(entries@, i + 1) =~= prev);
            }
            i = i + 1;
        }
        result
    }
}


/// An entry with the key of `e` makes the key count at least one.
proof fn lemma_key_count_one(es: Seq<Entry>, e: Entry, i: int)
    requires
        0 <= i < es.len(),
        same_key(es[i], e),
    ensures
        key_count(es, e) >= 1,
    decreases es.len(),
{
    if i < es.len() - 1 {
        assert(es.drop_last()[i] == es[i]);
        lemma_key_count_one(es.drop_last(), e, i);
    }
}

/// Two entries with the key of `e` make the key count at least two.
proof fn lemma_key_count_two(es: Seq<Entry>, e: Entry, i: int, j: int)
    requires
        0 <= i < j < es.len(),
        same_key(es[i], e),
        same_key(es[j], e),
    ensures
        key_count(es, e) >= 2,
    decreases es.len(),
{
    assert(es.drop_last()[i] == es[i]);
    if j == es.len() - 1 {
        lemma_key_count_one(es.drop_last(), e, i);
    } else {
        assert(es.drop_last()[j] == es[j]);
        lemma_key_count_two(es.drop_last(), e, i, j);
    }
}

/// A key count of at least one has an entry with that key.
proof fn lemma_key_count_witness_one(es: Seq<Entry>, e: Entry)
    requires
        key_count(es, e) >= 1,
    ensures
        exists|i: int| 0 <= i < es.len() && same_key(#[trigger] es[i], e),
    decreases es.len(),
{
    let n = es.len() as int;
    if !same_key(es[n - 1], e) {
        lemma_key_count_witness_one(es.drop_last(), e);
        let i = choose|i: int| 0 <= i < n - 1 && same_key(#[trigger] es.drop_last()[i], e);
        assert(es[i] == es.drop_last()[i]);
    } else {
        assert(same_key(es[n - 1], e));
    }
}

/// A key count of at least two has two entries with that key.
proof fn lemma_key_count_witness_two(es: Seq<Entry>, e: Entry)
    requires
        key_count(es, e) >= 2,
    ensures
        exists|i: int, j: int| 0 <= i < j < es.len() && same_key(#[trigger] es[i], e) && same_key(#[trigger] es[j], e),
    decreases es.len(),
{
    let n = es.len() as int;
    if same_key(es[n - 1], e) {
        lemma_key_count_witness_one(es.drop_last(), e);
        let i = choose|i: int| 0 <= i < n - 1 && same_key(#[trigger] es.drop_last()[i], e);
        assert(es[i] == es.drop_last()[i]);
        assert(same_key(es[i], e) && same_key(es[n - 1], e));
    } else {
        lemma_key_count_witness_two(es.drop_last(), e);
        let (i, j) = choose|i: int, j: int|
            0 <= i < j < n - 1 && same_key(#[trigger] es.drop_last()[i], e) && same_key(#[trigger] es.drop_last()[j], e);
        assert(es[i] == es.drop_last()[i]);
        assert(es[j] == es.drop_last()[j]);
    }
}

/// Every entry has a first entry of its key at or before it.
proof fn lemma_first_of_key_exists(es: Seq<Entry>, i: int)
    requires
        0 <= i < es.len(),
    ensures
        exists|f: int| 0 <= f <= i && same_key(#[trigger] es[f], es[i]) && first_of_key(es, f),
    decreases i,
{
    if first_of_key(es, i) {
        assert(same_key(es[i], es[i]));
    } else {
        let j = choose|j: int| 0 <= j < i && same_key(#[trigger] es[j], es[i]);
        lemma_first_of_key_exists(es, j);
        let f = choose|f: int| 0 <= f <= j && same_key(#[trigger] es[f], es[j]) && first_of_key(es, f);
        assert(same_key(es[f], es[i]));
    }
}

/// What `dup_firsts` holds: in increasing order, exactly the indices below
/// `k` of first entries of keys that occur more than once.
proof fn lemma_dup_firsts_members(es: Seq<Entry>, k: int)
    requires
        0 <= k <= es.len(),
    ensures
        forall|t: int|
            0 <= t < dup_firsts(es, k).len() ==> {
                let x = #[trigger] dup_firsts(es, k)[t];
                &&& 0 <= x < k
                &&& first_of_key(es, x)
                &&& key_count(es, es[x]) > 1
            },
        forall|t1: int, t2: int|
            0 <= t1 < t2 < dup_firsts(es, k).len() ==> #[trigger] dup_firsts(es, k)[t1] < #[trigger] dup_firsts(
                es,
                k,
            )[t2],
        forall|x: int|
            0 <= x < k && first_of_key(es, x) && key_count(es, es[x]) > 1 ==> exists|t: int|
                0 <= t < dup_firsts(es, k).len() && #[trigger] dup_firsts(es, k)[t] == x,
    decreases k,
{
    if k > 0 {
        lemma_dup_firsts_members(es, k - 1);
        let d0 = dup_firsts(es, k - 1);
        let d = dup_firsts(es, k);
        if first_of_key(es, k - 1) && key_count(es, es[k - 1]) > 1 {
            assert(d =~= d0.push(k - 1));
            assert forall|x: int| 0 <= x < k && first_of_key(es, x) && key_count(es, es[x]) > 1 implies exists|t: int|
                0 <= t < d.len() && #[trigger] d[t] == x by {
                if x == k - 1 {
                    assert(d[d.len() - 1] == x);
                } else {
                    let t = choose|t: int| 0 <= t < d0.len() && #[trigger] d0[t] == x;
                    assert(d[t] == d0[t]);
                }
            }
        } else {
            assert(d =~= d0);
        }
    }
}

/// The duplicate check reports one issue for each key that two or more
/// entries share, at the first entry of that key, and no other: the
/// reported entries are first entries of keys shared by two entries, no two
/// of them share a key, every shared key is reported, and so nothing is
/// reported exactly when no two entries share a type and a name.
pub proof fn law_duplicate_issues(es: Seq<Entry>)
    ensures
        forall|t: int|
            0 <= t < dup_firsts(es, es.len() as int).len() ==> {
                let x = #[trigger] dup_firsts(es, es.len() as int)[t];
                &&& 0 <= x < es.len()
                &&& first_of_key(es, x)
                &&& exists|j: int| x < j < es.len() && same_key(#[trigger] es[j], es[x])
            },
        forall|t1: int, t2: int|
            0 <= t1 < t2 < dup_firsts(es, es.len() as int).len() ==> !same_key(
                es[#[trigger] dup_firsts(es, es.len() as int)[t1]],
                es[#[trigger] dup_firsts(es, es.len() as int)[t2]],
            ),
        forall|i: int, j: int|
            0 <= i < j < es.len() && same_key(#[trigger] es[i], #[trigger] es[j]) ==> exists|t: int|
                0 <= t < dup_firsts(es, es.len() as int).len() && same_key(
                    es[#[trigger] dup_firsts(es, es.len() as int)[t]],
                    es[i],
                ),
        dup_firsts(es, es.len() as int).len() == 0 <==> forall|i: int, j: int|
            0 <= i < j < es.len() ==> !same_key(#[trigger] es[i], #[trigger] es[j]),
{
    let n = es.len() as int;
    let d = dup_firsts(es, n);
    lemma_dup_firsts_members(es, n);
    assert forall|t: int| 0 <= t < d.len() implies {
        let x = #[trigger] d[t];
        &&& 0 <= x < es.len()
        &&& first_of_key(es, x)
        &&& exists|j: int| x < j < es.len() && same_key(#[trigger] es[j], es[x])
    } by {
        let x = d[t];
        lemma_key_count_witness_two(es, es[x]);
        let (i, j) = choose|i: int, j: int|
            0 <= i < j < es.len() && same_key(#[trigger] es[i], es[x]) && same_key(#[trigger] es[j], es[x]);
        if i < x {
            assert(!same_key(es[i], es[x]));
        }
        if j == x {
            assert(!same_key(es[i], es[x]));
        }
        assert(x < j && same_key(es[j], es[x]));
    }
    assert forall|t1: int, t2: int| 0 <= t1 < t2 < d.len() implies !same_key(
        es[#[trigger] d[t1]],
        es[#[trigger] d[t2]],
    ) by {
        assert(d[t1] < d[t2]);
        assert(first_of_key(es, d[t2]));
        assert(!same_key(es[d[t1]], es[d[t2]]));
    }
    assert forall|i: int, j: int| 0 <= i < j < es.len() && same_key(#[trigger] es[i], #[trigger] es[j]) implies exists|t: int|
        0 <= t < d.len() && same_key(es[#[trigger] d[t]], es[i]) by {
        lemma_first_of_key_exists(es, i);
        let f = choose|f: int| 0 <= f <= i && same_key(#[trigger] es[f], es[i]) && first_of_key(es, f);
        if f < i {
            lemma_key_count_two(es, es[f], f, i);
        } else {
            lemma_key_count_two(es, es[f], i, j);
        }
        let t = choose|t: int| 0 <= t < d.len() && #[trigger] d[t] == f;
        assert(same_key(es[d[t]], es[i]));
    }
    if d.len() > 0 {
        let x = d[0];
        let j = choose|j: int| x < j < es.len() && same_key(#[trigger] es[j], es[x]);
        assert(same_key(es[x], es[j]));
    }
}

} // verus!
