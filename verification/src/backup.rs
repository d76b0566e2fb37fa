//! Backups of configuration files: how a backup is named, what its name
//! tells, which backups a cleanup removes and when one runs. The caller
//! reads the clock and the backup directory.
use vstd::prelude::*;

use std::path::PathBuf;

use crate::text::{dec, push_decimal, push_str, str_chars, string_push};

verus! {

/// A backup of a configuration file.
#[derive(Debug)]
pub struct BackupEntry {
    pub id: String,
    pub path: PathBuf,
    pub timestamp: String,
    pub filename: String,
    pub size: u64,
}

/// `d` with leading zeros up to `w` characters, as `{:0w}` writes a number.
pub open spec fn zero_pad(d: Seq<char>, w: nat) -> Seq<char> {
    if d.len() >= w {
        d
    } else {
        Seq::new((w - d.len()) as nat, |i: int| '0') + d
    }
}

/// A year as `{:04}` writes it: four characters at least, the sign among them.
pub open spec fn year_text(y: int) -> Seq<char> {
    if y < 0 {
        seq!['-'] + zero_pad(dec((-y) as nat), 3)
    } else {
        zero_pad(dec(y as nat), 4)
    }
}

/// Two digits at least, as `{:02}` writes them.
pub open spec fn two(n: nat) -> Seq<char> {
    zero_pad(dec(n), 2)
}

/// The timestamp of a backup name: `YYYY-MM-DD_HHMMSS`.
pub open spec fn timestamp_text(year: int, month: nat, day: nat, hour: nat, minute: nat, second: nat) -> Seq<char> {
    year_text(year) + seq!['-'] + two(month) + seq!['-'] + two(day) + seq!['_'] + two(hour) + two(minute)
        + two(second)
}

/// Appends `n` with leading zeros up to `w` characters.
fn push_padded(s: &mut String, n: usize, w: usize)
    ensures
        final(s)@ == old(s)@ + zero_pad(dec(n as nat), w as nat),
{
    let mut d = String::new();
    push_decimal(&mut d, n);
    let dv = str_chars(d.as_str());
    let dl = dv.len();
    assert(d@ =~= dec(n as nat));
    let mut k: usize = dl;
    while k < w
        invariant
            dl <= k,
            k <= w || k == dl,
            s@ == old(s)@ + Seq::new((k - dl) as nat, |i: int| '0'),
        decreases w - k,
    {
        string_push(s, '0');
        assert(old(s)@ + Seq::new((k + 1 - dl) as nat, |i: int| '0') =~= (old(s)@ + Seq::new(
            (k - dl) as nat,
            |i: int| '0',
        )).push('0'));
        k = k + 1;
    }
    push_str(s, d.as_str());
    if dl >= w {
        assert(Seq::new((k - dl) as nat, |i: int| '0') =~= Seq::<char>::empty());
        assert(s@ =~= old(s)@ + zero_pad(dec(n as nat), w as nat));
    } else {
        assert(s@ =~= old(s)@ + zero_pad(dec(n as nat), w as nat));
    }
}

/// The timestamp of a backup taken at the given UTC date and time,
/// `YYYY-MM-DD_HHMMSS`.
pub fn backup_timestamp(year: i32, month: u8, day: u8, hour: u8, minute: u8, second: u8) -> (r: String)
    ensures
        r@ == timestamp_text(year as int, month as nat, day as nat, hour as nat, minute as nat, second as nat),
{
    let mut s = String::new();
    if year < 0 {
        string_push(&mut s, '-');
        let a: i64 = 0i64 - year as i64;
        push_padded(&mut s, a as usize, 3);
    } else {
        push_padded(&mut s, year as usize, 4);
    }
    let ghost y = s@;
    string_push(&mut s, '-');
    push_padded(&mut s, month as usize, 2);
    string_push(&mut s, '-');
    push_padded(&mut s, day as usize, 2);
    string_push(&mut s, '_');
    push_padded(&mut s, hour as usize, 2);
    push_padded(&mut s, minute as usize, 2);
    push_padded(&mut s, second as usize, 2);
    assert(y =~= year_text(year as int));
    assert(s@ =~= timestamp_text(
        year as int,
        month as nat,
        day as nat,
        hour as nat,
        minute as nat,
        second as nat,
    ));
    s
}

/// The name of a backup: the timestamp, `_`, the source file's name (or
/// `config` when it has none), and `.bak`.
pub open spec fn backup_name_text(timestamp: Seq<char>, source_name: Option<Seq<char>>) -> Seq<char> {
    let n = match source_name {
        Some(x) => x,
        None => seq!['c', 'o', 'n', 'f', 'i', 'g'],
    };
    timestamp + seq!['_'] + n + seq!['.', 'b', 'a', 'k']
}

/// The file name of a backup (see `backup_name_text`).
pub fn backup_file_name(timestamp: &str, source_name: Option<&str>) -> (r: String)
    ensures
        r@ == backup_name_text(
            timestamp@,
            match source_name {
                Some(x) => Some(x@),
                None => None,
            },
        ),
{
    let mut s = String::new();
    push_str(&mut s, timestamp);
    string_push(&mut s, '_');
    match source_name {
        Some(x) => push_str(&mut s, x),
        None => {
            string_push(&mut s, 'c');
            string_push(&mut s, 'o');
            string_push(&mut s, 'n');
            string_push(&mut s, 'f');
            string_push(&mut s, 'i');
            string_push(&mut s, 'g');
        },
    }
    string_push(&mut s, '.');
    string_push(&mut s, 'b');
    string_push(&mut s, 'a');
    string_push(&mut s, 'k');
    assert(s@ =~= backup_name_text(
        timestamp@,
        match source_name {
            Some(x) => Some(x@),
            None => None,
        },
    ));
    s
}

/// The first position at or after `i` that holds `c`, or the length.
pub open spec fn next_char(s: Seq<char>, c: char, i: int) -> int
    decreases s.len() - i,
{
    if i < 0 || i >= s.len() {
        s.len() as int
    } else if s[i] == c {
        i
    } else {
        next_char(s, c, i + 1)
    }
}

/// The timestamp a backup file name carries: its first two `_`-separated
/// parts, joined by `_` (the text before its second `_`).
pub open spec fn stamp_of(f: Seq<char>) -> Seq<char> {
    let a = next_char(f, '_', 0);
    if a >= f.len() {
        f
    } else {
        f.take(next_char(f, '_', a + 1))
    }
}

/// The id of a backup: its file name with every trailing `.bak` removed.
pub open spec fn id_of(f: Seq<char>) -> Seq<char>
    decreases f.len(),
{
    if f.len() >= 4 && f.skip(f.len() - 4) == seq!['.', 'b', 'a', 'k'] {
        id_of(f.take(f.len() - 4))
    } else {
        f
    }
}

fn next_char_exec(s: &[char], c: char, i: usize) -> (r: usize)
    requires
        i <= s@.len(),
    ensures
        r as int == next_char(s@, c, i as int),
        i <= r <= s@.len(),
{
    let mut k = i;
    while k < s.len() && s[k] != c
        invariant
            i <= k <= s@.len(),
            next_char(s@, c, i as int) == next_char(s@, c, k as int),
        decreases s@.len() - k,
    {
        k = k + 1;
    }
    k
}

/// The timestamp a backup file name carries (see `stamp_of`).
pub fn backup_stamp(filename: &str) -> (r: String)
    ensures
        r@ == stamp_of(filename@),
{
    let s = str_chars(filename);
    let a = next_char_exec(s.as_slice(), '_', 0);
    if a >= s.len() {
        return crate::text::string_from_chars(s.as_slice());
    }
    let b = next_char_exec(s.as_slice(), '_', a + 1);
    let t = crate::text::slice_range(s.as_slice(), 0, b);
    assert(t@ =~= filename@.take(b as int));
    crate::text::string_from_chars(t.as_slice())
}

/// The id of a backup (see `id_of`).
pub fn backup_id(filename: &str) -> (r: String)
    ensures
        r@ == id_of(filename@),
{
    let s = str_chars(filename);
    let mut n = s.len();
    let tail = str_chars(".bak");
    proof {
        reveal_strlit(".bak");
        assert(tail@ =~= seq!['.', 'b', 'a', 'k']);
        assert(s@.take(n as int) =~= s@);
    }
    while n >= 4 && crate::text::occurs_at_chars(s.as_slice(), tail.as_slice(), n - 4)
        invariant
            n <= s@.len(),
            tail@ == seq!['.', 'b', 'a', 'k'],
            id_of(s@.take(n as int)) == id_of(filename@),
            s@ == filename@,
        decreases n,
    {
        let ghost f = s@.take(n as int);
        assert(f.skip(f.len() - 4) =~= s@.subrange(n - 4, n as int));
        assert(f.take(f.len() - 4) =~= s@.take(n - 4));
        n = n - 4;
    }
    let ghost f = s@.take(n as int);
    proof {
        if n >= 4 {
            assert(f.skip(f.len() - 4) =~= s@.subrange(n - 4, n as int));
        }
    }
    let t = crate::text::slice_range(s.as_slice(), 0, n);
    assert(t@ =~= f);
    crate::text::string_from_chars(t.as_slice())
}

/// The first `c` at or after `i` is at `j` when none lies between.
proof fn lemma_next_char_at(s: Seq<char>, c: char, i: int, j: int)
    requires
        0 <= i <= j < s.len(),
        s[j] == c,
        forall|k: int| i <= k < j ==> s[k] != c,
    ensures
        next_char(s, c, i) == j,
    decreases j - i,
{
    if i < j {
        lemma_next_char_at(s, c, i + 1, j);
    }
}

/// Decimal digits hold no `_`.
proof fn lemma_dec_no_underscore(n: nat)
    ensures
        forall|k: int| 0 <= k < dec(n).len() ==> dec(n)[k] != '_',
    decreases n,
{
    if n >= 10 {
        lemma_dec_no_underscore(n / 10);
        assert forall|k: int| 0 <= k < dec(n).len() implies dec(n)[k] != '_' by {
            if k < dec(n / 10).len() {
                assert(dec(n)[k] == dec(n / 10)[k]);
            }
        }
    }
}

/// Padded decimal digits hold no `_`.
proof fn lemma_pad_no_underscore(n: nat, w: nat)
    ensures
        forall|k: int| 0 <= k < zero_pad(dec(n), w).len() ==> zero_pad(dec(n), w)[k] != '_',
{
    lemma_dec_no_underscore(n);
    let d = dec(n);
    if d.len() < w {
        let z = Seq::new((w - d.len()) as nat, |i: int| '0');
        assert forall|k: int| 0 <= k < zero_pad(d, w).len() implies zero_pad(d, w)[k] != '_' by {
            if k < z.len() {
                assert(zero_pad(d, w)[k] == z[k]);
            } else {
                assert(zero_pad(d, w)[k] == d[k - z.len()]);
            }
        }
    }
}

/// The timestamp read back from a backup's name is the one it was named
/// with: a timestamp holds one `_`, so the name's second `_` is the one
/// after it.
pub proof fn law_name_gives_back_timestamp(
    year: int,
    month: nat,
    day: nat,
    hour: nat,
    minute: nat,
    second: nat,
    source_name: Option<Seq<char>>,
)
    ensures
        stamp_of(backup_name_text(timestamp_text(year, month, day, hour, minute, second), source_name))
            == timestamp_text(year, month, day, hour, minute, second),
{
    let y = year_text(year);
    if year < 0 {
        lemma_pad_no_underscore((-year) as nat, 3);
        let p = zero_pad(dec((-year) as nat), 3);
        assert forall|k: int| 0 <= k < y.len() implies y[k] != '_' by {
            if k > 0 {
                assert(y[k] == p[k - 1]);
            }
        }
    } else {
        lemma_pad_no_underscore(year as nat, 4);
    }
    lemma_pad_no_underscore(month, 2);
    lemma_pad_no_underscore(day, 2);
    lemma_pad_no_underscore(hour, 2);
    lemma_pad_no_underscore(minute, 2);
    lemma_pad_no_underscore(second, 2);
    let a = y + seq!['-'] + two(month) + seq!['-'] + two(day);
    let b = two(hour) + two(minute) + two(second);
    let t = timestamp_text(year, month, day, hour, minute, second);
    assert(t =~= a + seq!['_'] + b);
    let name = backup_name_text(t, source_name);
    let n = match source_name {
        Some(x) => x,
        None => seq!['c', 'o', 'n', 'f', 'i', 'g'],
    };
    assert(name =~= t + seq!['_'] + n + seq!['.', 'b', 'a', 'k']);
    assert forall|k: int| 0 <= k < a.len() implies a[k] != '_' by {
        let y1 = y + seq!['-'];
        let y2 = y1 + two(month);
        let y3 = y2 + seq!['-'];
        if k < y.len() {
            assert(a[k] == y[k]);
        } else if k < y1.len() {
            assert(a[k] == '-');
        } else if k < y2.len() {
            assert(a[k] == two(month)[k - y1.len()]);
        } else if k < y3.len() {
            assert(a[k] == '-');
        } else {
            assert(a[k] == two(day)[k - y3.len()]);
        }
    }
    assert forall|k: int| 0 <= k < b.len() implies b[k] != '_' by {
        let b1 = two(hour);
        let b2 = b1 + two(minute);
        if k < b1.len() {
            assert(b[k] == b1[k]);
        } else if k < b2.len() {
            assert(b[k] == two(minute)[k - b1.len()]);
        } else {
            assert(b[k] == two(second)[k - b2.len()]);
        }
    }
    assert forall|k: int| 0 <= k < a.len() implies name[k] != '_' by {
        assert(name[k] == a[k]);
    }
    assert(name[a.len() as int] == '_');
    lemma_next_char_at(name, '_', 0, a.len() as int);
    assert forall|k: int| a.len() + 1 <= k < t.len() implies name[k] != '_' by {
        assert(name[k] == b[k - a.len() - 1]);
    }
    assert(name[t.len() as int] == '_');
    lemma_next_char_at(name, '_', a.len() + 1int, t.len() as int);
    assert(name.take(t.len() as int) =~= t);
}

/// How many backups a cleanup that keeps `keep` removes out of `count`
/// (the oldest ones, after the newest `keep`).
pub open spec fn removed_count(count: nat, keep: nat) -> nat {
    if count <= keep {
        0
    } else {
        (count - keep) as nat
    }
}

/// How many backups a cleanup that keeps `keep` of `count` removes.
pub fn cleanup_count(count: usize, keep: usize) -> (r: usize)
    ensures
        r == removed_count(count as nat, keep as nat),
        count <= keep ==> r == 0,
        count > keep ==> r + keep == count,
{
    if count <= keep {
        0
    } else {
        count - keep
    }
}

/// A cleanup keeps the newest `keep` backups and removes every other one:
/// nothing is removed when there are at most `keep`; otherwise exactly
/// `keep` stay, so the removed and the kept make up all `count`; and
/// keeping one more never removes more.
pub proof fn law_cleanup_keeps_newest(count: nat, keep: nat)
    ensures
        count <= keep ==> removed_count(count, keep) == 0,
        count > keep ==> removed_count(count, keep) + keep == count,
        removed_count(count, keep) <= count,
        removed_count(count, keep + 1) <= removed_count(count, keep),
        removed_count(count + 1, keep) <= removed_count(count, keep) + 1,
{
}

/// A cleanup runs after a backup when ten backups have been taken since the
/// last one, when none has run yet, or when the last ran an hour or more ago.
pub open spec fn cleanup_due(counter: u32, hours_since_last: Option<i64>) -> bool {
    counter >= 10 || match hours_since_last {
        None => true,
        Some(h) => h >= 1,
    }
}

/// Whether a cleanup runs after a backup, and the backup counter after it:
/// 0 when it runs, one more otherwise.
pub fn cleanup_after_backup(counter: u32, hours_since_last: Option<i64>) -> (r: (bool, u32))
    ensures
        r.0 == cleanup_due(counter, hours_since_last),
        r.1 == if r.0 {
            0
        } else {
            (counter + 1) as u32
        },
{
    let due = counter >= 10 || match hours_since_last {
        None => true,
        Some(h) => h >= 1,
    };
    if due {
        (true, 0)
    } else {
        (false, counter + 1)
    }
}

/// `a` comes before `b` in lexicographic character order (the order of
/// `String`'s `cmp`, as UTF-8 keeps the order of characters).
pub open spec fn lex_lt(a: Seq<char>, b: Seq<char>) -> bool
    decreases a.len(),
{
    if a.len() == 0 {
        b.len() > 0
    } else if b.len() == 0 {
        false
    } else if a[0] != b[0] {
        a[0] < b[0]
    } else {
        lex_lt(a.skip(1), b.skip(1))
    }
}

/// Lexicographic order is transitive.
pub proof fn lemma_lex_lt_trans(a: Seq<char>, b: Seq<char>, c: Seq<char>)
    requires
        lex_lt(a, b),
        lex_lt(b, c),
    ensures
        lex_lt(a, c),
    decreases a.len(),
{
    if a.len() > 0 && b.len() > 0 && c.len() > 0 && a[0] == b[0] && b[0] == c[0] {
        lemma_lex_lt_trans(a.skip(1), b.skip(1), c.skip(1));
    }
}

/// Of two different texts, one comes before the other.
pub proof fn lemma_lex_lt_total(a: Seq<char>, b: Seq<char>)
    ensures
        a == b || lex_lt(a, b) || lex_lt(b, a),
    decreases a.len(),
{
    if a.len() > 0 && b.len() > 0 && a[0] == b[0] {
        lemma_lex_lt_total(a.skip(1), b.skip(1));
        if a.skip(1) == b.skip(1) {
            assert(a =~= seq![a[0]] + a.skip(1));
            assert(b =~= seq![b[0]] + b.skip(1));
        }
    } else if a.len() == 0 && b.len() == 0 {
        assert(a =~= b);
    }
}

/// No text comes before itself.
pub proof fn lemma_lex_lt_irrefl(a: Seq<char>)
    ensures
        !lex_lt(a, a),
    decreases a.len(),
{
    if a.len() > 0 {
        lemma_lex_lt_irrefl(a.skip(1));
    }
}

/// Whether `a` comes before `b` (see `lex_lt`).
pub fn lex_less(a: &[char], b: &[char]) -> (r: bool)
    ensures
        r == lex_lt(a@, b@),
{
    let mut i: usize = 0;
    assert(a@.skip(0) =~= a@);
    assert(b@.skip(0) =~= b@);
    while i < a.len() && i < b.len() && a[i] == b[i]
        invariant
            i <= a@.len(),
            i <= b@.len(),
            lex_lt(a@, b@) == lex_lt(a@.skip(i as int), b@.skip(i as int)),
        decreases a@.len() - i,
    {
        assert(a@.skip(i as int).skip(1) =~= a@.skip(i + 1));
        assert(b@.skip(i as int).skip(1) =~= b@.skip(i + 1));
        i = i + 1;
    }
    if i == a.len() {
        i < b.len()
    } else if i == b.len() {
        false
    } else {
        a[i] < b[i]
    }
}

/// `order` lists the positions `0..n` once each.
pub open spec fn is_order(order: Seq<usize>, n: nat) -> bool {
    &&& order.len() == n
    &&& forall|i: int| 0 <= i < n ==> #[trigger] order[i] < n
    &&& forall|i: int, j: int| 0 <= i < j < n ==> order[i] != order[j]
}

/// Listing `stamps` in the order `order` puts the newest (greatest) first,
/// and keeps the given order among equal stamps.
pub open spec fn newest_first(order: Seq<usize>, stamps: Seq<Seq<char>>) -> bool {
    forall|i: int, j: int|
        #![trigger order[i], order[j]]
        0 <= i < j < order.len() ==> !lex_lt(stamps[order[i] as int], stamps[order[j] as int]) && (
        stamps[order[i] as int] == stamps[order[j] as int] ==> order[i] < order[j])
}

/// The positions of the backups, newest first by timestamp (a stable sort,
/// as `sort_by` with the timestamps compared in reverse).
pub fn newest_first_order(stamps: &Vec<String>) -> (r: Vec<usize>)
    ensures
        is_order(r@, stamps@.len()),
        newest_first(r@, crate::parser::builders::comment::views(stamps@)),
{
    let ghost sv = crate::parser::builders::comment::views(stamps@);
    let n = stamps.len();
    let mut chars: Vec<Vec<char>> = Vec::new();
    let mut k: usize = 0;
    while k < n
        invariant
            k <= n,
            n == stamps@.len(),
            sv == crate::parser::builders::comment::views(stamps@),
            chars@.len() == k,
            forall|q: int| 0 <= q < k ==> (#[trigger] chars@[q])@ == sv[q],
        decreases n - k,
    {
        chars.push(str_chars(stamps[k].as_str()));
        k = k + 1;
    }
    let mut order: Vec<usize> = Vec::new();
    let mut k: usize = 0;
    while k < n
        invariant
            k <= n,
            n == stamps@.len(),
            chars@.len() == n,
            forall|q: int| 0 <= q < n ==> (#[trigger] chars@[q])@ == sv[q],
            is_order(order@, k as nat),
            newest_first(order@, sv),
        decreases n - k,
    {
        // the first position whose stamp comes before stamp k
        let mut p: usize = 0;
        while p < order.len() && !lex_less(chars[order[p]].as_slice(), chars[k].as_slice())
            invariant
                p <= order@.len(),
                order@.len() == k,
                k < n,
                chars@.len() == n,
                forall|q: int| 0 <= q < n ==> (#[trigger] chars@[q])@ == sv[q],
                is_order(order@, k as nat),
                forall|q: int| 0 <= q < p ==> !lex_lt(#[trigger] sv[order@[q] as int], sv[k as int]),
            decreases order@.len() - p,
        {
            p = p + 1;
        }
        let ghost old_order = order@;
        proof {
            if p < old_order.len() {
                assert(lex_lt(sv[old_order[p as int] as int], sv[k as int]));
            }
        }
        order.insert(p, k);
        proof {
            let o = order@;
            assert(o =~= old_order.insert(p as int, k));
            assert forall|i: int| 0 <= i < k + 1 implies #[trigger] o[i] < k + 1 by {
                if i < p {
                    assert(o[i] == old_order[i]);
                } else if i > p {
                    assert(o[i] == old_order[i - 1]);
                }
            }
            assert forall|i: int, j: int| 0 <= i < j < k + 1 implies o[i] != o[j] by {
                if i < p && j < p {
                    assert(o[i] == old_order[i] && o[j] == old_order[j]);
                } else if i < p && j == p {
                    assert(o[i] == old_order[i]);
                } else if i < p {
                    assert(o[i] == old_order[i] && o[j] == old_order[j - 1]);
                } else if i == p {
                    assert(o[j] == old_order[j - 1]);
                } else {
                    assert(o[i] == old_order[i - 1] && o[j] == old_order[j - 1]);
                }
            }
            assert forall|i: int, j: int|
                #![trigger o[i], o[j]]
                0 <= i < j < o.len() implies !lex_lt(sv[o[i] as int], sv[o[j] as int]) && (sv[o[i] as int]
                == sv[o[j] as int] ==> o[i] < o[j]) by {
                if i < p && j < p {
                    assert(o[i] == old_order[i] && o[j] == old_order[j]);
                    assert(old_order[i] == old_order[i] && old_order[j] == old_order[j]);
                } else if i < p && j == p {
                    assert(o[i] == old_order[i]);
                    assert(!lex_lt(sv[old_order[i] as int], sv[k as int]));
                } else if i < p {
                    assert(o[i] == old_order[i] && o[j] == old_order[j - 1]);
                    assert(old_order[i] == old_order[i] && old_order[j - 1] == old_order[j - 1]);
                } else if i == p {
                    let m = old_order[j - 1];
                    assert(o[j] == m);
                    let sp = sv[old_order[p as int] as int];
                    assert(lex_lt(sp, sv[k as int]));
                    if j - 1 > p {
                        assert(!lex_lt(sp, sv[m as int]));
                        lemma_lex_lt_total(sp, sv[m as int]);
                        if sv[m as int] != sp {
                            lemma_lex_lt_trans(sv[m as int], sp, sv[k as int]);
                        }
                    }
                    assert(lex_lt(sv[m as int], sv[k as int]));
                    lemma_lex_lt_irrefl(sv[k as int]);
                    if lex_lt(sv[k as int], sv[m as int]) {
                        lemma_lex_lt_trans(sv[k as int], sv[m as int], sv[k as int]);
                    }
                } else {
                    assert(o[i] == old_order[i - 1] && o[j] == old_order[j - 1]);
                    assert(old_order[i - 1] == old_order[i - 1] && old_order[j - 1] == old_order[j - 1]);
                }
            }
        }
        k = k + 1;
    }
    order
}

/// A backup answers to `id` when its id is `id` or its file name holds `id`.
pub open spec fn answers_to(b: BackupEntry, id: Seq<char>) -> bool {
    b.id@ == id || crate::text::contains_seq(b.filename@, id)
}

/// The first backup that answers to `id`.
pub fn find_backup(backups: &Vec<BackupEntry>, id: &str) -> (r: Option<usize>)
    ensures
        match r {
            Some(i) => i < backups@.len() && answers_to(backups@[i as int], id@) && forall|k: int|
                0 <= k < i ==> !answers_to(#[trigger] backups@[k], id@),
            None => forall|k: int| 0 <= k < backups@.len() ==> !answers_to(#[trigger] backups@[k], id@),
        },
{
    let idc = str_chars(id);
    let mut i: usize = 0;
    while i < backups.len()
        invariant
            i <= backups@.len(),
            idc@ == id@,
            forall|k: int| 0 <= k < i ==> !answers_to(#[trigger] backups@[k], id@),
        decreases backups@.len() - i,
    {
        let bid = str_chars(backups[i].id.as_str());
        let fname = str_chars(backups[i].filename.as_str());
        if crate::model::entry::chars_eq(bid.as_slice(), idc.as_slice()) || crate::text::contains_chars(
            fname.as_slice(),
            idc.as_slice(),
        ) {
            return Some(i);
        }
        i = i + 1;
    }
    None
}

} // verus!
