//! Indentation detection and normalisation.
use vstd::prelude::*;

use crate::text::{
    join_with, leading_ws_len, push_chars, push_str, slice_range, split_chars, split_on,
    str_chars, string_push, trim, trim_chars, trim_start, lemma_split_on_nonempty,
};

verus! {

/// A line with one trailing `'\r'` removed.
pub open spec fn strip_cr(l: Seq<char>) -> Seq<char> {
    if l.len() > 0 && l.last() == '\r' {
        l.drop_last()
    } else {
        l
    }
}

/// The lines of a text as `str::lines` gives them: split at `'\n'`, a
/// `"\r\n"` ending counts as one, and a final line ending adds no empty line.
pub open spec fn std_lines(c: Seq<char>) -> Seq<Seq<char>> {
    let p = split_on(c, '\n');
    let head = p.drop_last().map_values(|l: Seq<char>| strip_cr(l));
    if p.last().len() > 0 {
        head.push(p.last())
    } else {
        head
    }
}

/// Bytes of a character in UTF-8.
pub open spec fn utf8_char_len(c: char) -> nat {
    if (c as u32) < 0x80 {
        1
    } else if (c as u32) < 0x800 {
        2
    } else if (c as u32) < 0x10000 {
        3
    } else {
        4
    }
}

/// Bytes of a text in UTF-8.
pub open spec fn utf8_len(s: Seq<char>) -> nat
    decreases s.len(),
{
    if s.len() == 0 {
        0
    } else {
        utf8_len(s.drop_last()) + utf8_char_len(s.last())
    }
}

/// Bytes of the leading whitespace of a line.
pub open spec fn indent_bytes(l: Seq<char>) -> nat {
    utf8_len(l.take(l.len() - trim_start(l).len()))
}

/// A line that is neither blank nor unindented.
pub open spec fn counted(l: Seq<char>) -> bool {
    trim(l).len() > 0 && indent_bytes(l) > 0
}

/// Number of indented lines starting with a tab.
pub open spec fn tab_count(ls: Seq<Seq<char>>) -> nat
    decreases ls.len(),
{
    if ls.len() == 0 {
        0
    } else {
        tab_count(ls.drop_last()) + if counted(ls.last()) && ls.last()[0] == '\t' {
            1nat
        } else {
            0nat
        }
    }
}

/// Number of indented lines starting with a space.
pub open spec fn space_count(ls: Seq<Seq<char>>) -> nat
    decreases ls.len(),
{
    if ls.len() == 0 {
        0
    } else {
        space_count(ls.drop_last()) + if counted(ls.last()) && ls.last()[0] == ' ' {
            1nat
        } else {
            0nat
        }
    }
}

/// Greatest common divisor (Euclid).
pub open spec fn gcd_spec(a: nat, b: nat) -> nat
    decreases b,
{
    if b == 0 {
        a
    } else {
        gcd_spec(b, a % b)
    }
}

/// Greatest common divisor of the indentations of the lines starting with a space.
pub open spec fn space_gcd(ls: Seq<Seq<char>>) -> nat
    decreases ls.len(),
{
    if ls.len() == 0 {
        0
    } else if counted(ls.last()) && ls.last()[0] == ' ' {
        gcd_spec(space_gcd(ls.drop_last()), indent_bytes(ls.last()))
    } else {
        space_gcd(ls.drop_last())
    }
}

/// The indentation unit in spaces: the common divisor of the space
/// indentations when it is 2, 4, 5, 6, 7 or 8; otherwise 4.
pub open spec fn indent_unit(ls: Seq<Seq<char>>) -> nat {
    let g = space_gcd(ls);
    if space_count(ls) == 0 || g == 1 || g == 3 || g > 8 {
        4
    } else {
        g
    }
}

/// `n` spaces.
pub open spec fn spaces(n: nat) -> Seq<char> {
    Seq::new(n, |_i: int| ' ')
}

/// The indentation style of a text: a tab when more than half as many lines
/// start with a tab as with spaces, else the space unit.
pub open spec fn indent_style(c: Seq<char>) -> Seq<char> {
    let ls = std_lines(c);
    if tab_count(ls) > space_count(ls) / 2 && tab_count(ls) > 0 {
        seq!['\t']
    } else {
        spaces(indent_unit(ls))
    }
}

/// The smallest indentation of the non-blank lines, if any.
pub open spec fn min_indent(ls: Seq<Seq<char>>) -> Option<nat>
    decreases ls.len(),
{
    if ls.len() == 0 {
        None
    } else {
        let rest = min_indent(ls.drop_last());
        let l = ls.last();
        if trim(l).len() == 0 {
            rest
        } else {
            match rest {
                Some(m) => if indent_bytes(l) < m {
                    Some(indent_bytes(l))
                } else {
                    Some(m)
                },
                None => Some(indent_bytes(l)),
            }
        }
    }
}

/// A body line re-indented: blank lines become empty; others get `base`
/// and the spaces of their indentation beyond `m`.
pub open spec fn body_line(l: Seq<char>, base: Seq<char>, m: nat) -> Seq<char> {
    if trim(l).len() == 0 {
        Seq::empty()
    } else {
        let rel: nat = if indent_bytes(l) >= m {
            (indent_bytes(l) - m) as nat
        } else {
            0
        };
        base + spaces(rel) + trim_start(l)
    }
}

/// A function body re-indented with `base`, keeping the relative indentation.
pub open spec fn body_text(body: Seq<char>, base: Seq<char>) -> Seq<char> {
    let ls = std_lines(body);
    let m = match min_indent(ls) {
        Some(m) => m,
        None => 0,
    };
    join_with(ls.map_values(|l: Seq<char>| body_line(l, base, m)), '\n')
}

/// The lines of a text, as `str::lines` gives them.
fn text_lines(content: &str) -> (r: Vec<Vec<char>>)
    ensures
        r@.len() == std_lines(content@).len(),
        forall|j: int| 0 <= j < r@.len() ==> (#[trigger] r@[j])@ == std_lines(content@)[j],
{
    let v = str_chars(content);
    let parts = split_chars(v.as_slice(), '\n');
    let ghost p = split_on(content@, '\n');
    proof {
        lemma_split_on_nonempty(content@, '\n');
    }
    let ghost head = p.drop_last().map_values(|l: Seq<char>| strip_cr(l));
    let mut out: Vec<Vec<char>> = Vec::new();
    let n = parts.len();
    let mut i: usize = 0;
    while i + 1 < n
        invariant
            n == parts@.len(),
            n == p.len(),
            n >= 1,
            p == split_on(content@, '\n'),
            head == p.drop_last().map_values(|l: Seq<char>| strip_cr(l)),
            forall|k: int| 0 <= k < n ==> (#[trigger] parts@[k])@ == p[k],
            i + 1 <= n,
            out@.len() == i,
            forall|k: int| 0 <= k < i ==> (#[trigger] out@[k])@ == head[k],
        decreases n - i,
    {
        let part = &parts[i];
        let l = part.len();
        let line = if l > 0 && part[l - 1] == '\r' {
            slice_range(part.as_slice(), 0, l - 1)
        } else {
            slice_range(part.as_slice(), 0, l)
        };
        proof {
            assert(part@.subrange(0, l as int) =~= part@);
            assert(part@.subrange(0, l - 1) =~= part@.drop_last());
        }
        out.push(line);
        i = i + 1;
    }
    let last = &parts[n - 1];
    if last.len() > 0 {
        out.push(slice_range(last.as_slice(), 0, last.len()));
        assert(last@.subrange(0, last@.len() as int) =~= last@);
    }
    out
}

/// Bytes of leading whitespace of a line, and whether the line is blank.
fn indent_of(l: &[char]) -> (r: (u128, bool))
    ensures
        r.0 == indent_bytes(l@),
        r.1 == (trim(l@).len() == 0),
{
    let _len = l.len();
    let k = leading_ws_len(l);
    let t = trim_chars(l);
    let mut bytes: u128 = 0;
    let mut j: usize = 0;
    while j < k
        invariant
            j <= k <= l@.len(),
            l@.len() <= usize::MAX,
            bytes == utf8_len(l@.take(j as int)),
            bytes <= 4 * j,
        decreases k - j,
    {
        let c = l[j];
        let cv = c as u32;
        let w: u128 = if cv < 0x80 {
            1
        } else if cv < 0x800 {
            2
        } else if cv < 0x10000 {
            3
        } else {
            4
        };
        assert(l@.take(j + 1).drop_last() =~= l@.take(j as int));
        bytes = bytes + w;
        j = j + 1;
    }
    (bytes, t.len() == 0)
}

/// Greatest common divisor of two numbers.
fn gcd(a: u128, b: u128) -> (r: u128)
    ensures
        r == gcd_spec(a as nat, b as nat),
    decreases b,
{
    if b == 0 {
        a
    } else {
        gcd(b, a % b)
    }
}

/// `x` is a multiple of `y`.
pub open spec fn divides(y: nat, x: nat) -> bool {
    y > 0 && x % y == 0
}

/// A multiple of a multiple of `x` is a multiple of `x`.
proof fn lemma_divides_trans(x: nat, y: nat, z: nat)
    requires
        divides(x, y),
        divides(y, z),
    ensures
        divides(x, z),
{
    vstd::arithmetic::div_mod::lemma_fundamental_div_mod(y as int, x as int);
    vstd::arithmetic::div_mod::lemma_fundamental_div_mod(z as int, y as int);
    let k = (y / x) as int;
    let m = (z / y) as int;
    assert(z as int == (k * m) * (x as int)) by (nonlinear_arith)
        requires
            y as int == x as int * k,
            z as int == y as int * m,
    ;
    vstd::arithmetic::div_mod::lemma_mod_multiples_basic(k * m, x as int);
}

/// The greatest common divisor of two numbers, not both zero, is not zero.
proof fn lemma_gcd_pos(a: nat, b: nat)
    requires
        a > 0 || b > 0,
    ensures
        gcd_spec(a, b) > 0,
    decreases b,
{
    if b > 0 {
        lemma_gcd_pos(b, a % b);
    }
}

/// The greatest common divisor divides both numbers.
proof fn lemma_gcd_divides(a: nat, b: nat)
    requires
        gcd_spec(a, b) > 0,
    ensures
        divides(gcd_spec(a, b), a),
        divides(gcd_spec(a, b), b),
    decreases b,
{
    let g = gcd_spec(a, b);
    if b == 0 {
        vstd::arithmetic::div_mod::lemma_mod_multiples_basic(1, a as int);
        vstd::arithmetic::div_mod::lemma_mod_multiples_basic(0, a as int);
    } else {
        let r = a % b;
        lemma_gcd_divides(b, r);
        vstd::arithmetic::div_mod::lemma_fundamental_div_mod(a as int, b as int);
        vstd::arithmetic::div_mod::lemma_fundamental_div_mod(b as int, g as int);
        vstd::arithmetic::div_mod::lemma_fundamental_div_mod(r as int, g as int);
        let q = (a / b) as int;
        let x = (b / g) as int;
        let y = (r / g) as int;
        assert(a as int == (x * q + y) * (g as int)) by (nonlinear_arith)
            requires
                a as int == b as int * q + r as int,
                b as int == g as int * x,
                r as int == g as int * y,
        ;
        vstd::arithmetic::div_mod::lemma_mod_multiples_basic(x * q + y, g as int);
    }
}

/// Every common divisor of two numbers divides their greatest common divisor.
proof fn lemma_gcd_greatest(a: nat, b: nat, d: nat)
    requires
        d > 0,
        a % d == 0,
        b % d == 0,
    ensures
        gcd_spec(a, b) % d == 0,
    decreases b,
{
    if b > 0 {
        let r = a % b;
        vstd::arithmetic::div_mod::lemma_fundamental_div_mod(a as int, b as int);
        vstd::arithmetic::div_mod::lemma_fundamental_div_mod(a as int, d as int);
        vstd::arithmetic::div_mod::lemma_fundamental_div_mod(b as int, d as int);
        let q = (a / b) as int;
        let s = (a / d) as int;
        let t = (b / d) as int;
        assert(r as int == (s - t * q) * (d as int)) by (nonlinear_arith)
            requires
                a as int == b as int * q + r as int,
                a as int == d as int * s,
                b as int == d as int * t,
        ;
        vstd::arithmetic::div_mod::lemma_mod_multiples_basic(s - t * q, d as int);
        lemma_gcd_greatest(b, r, d);
    }
}

/// A line indented by spaces (neither blank nor unindented).
pub open spec fn space_indented(l: Seq<char>) -> bool {
    counted(l) && l[0] == ' '
}

/// `space_gcd` is a common divisor of the space indentations.
proof fn lemma_space_gcd_divides(ls: Seq<Seq<char>>)
    ensures
        forall|j: int|
            0 <= j < ls.len() && space_indented(#[trigger] ls[j]) ==> divides(space_gcd(ls), indent_bytes(ls[j])),
    decreases ls.len(),
{
    if ls.len() > 0 {
        let prev = ls.drop_last();
        lemma_space_gcd_divides(prev);
        let l = ls.last();
        if space_indented(l) {
            lemma_gcd_pos(space_gcd(prev), indent_bytes(l));
            lemma_gcd_divides(space_gcd(prev), indent_bytes(l));
            assert forall|j: int| 0 <= j < ls.len() && space_indented(#[trigger] ls[j]) implies divides(
                space_gcd(ls),
                indent_bytes(ls[j]),
            ) by {
                if j < ls.len() - 1 {
                    assert(prev[j] == ls[j]);
                    lemma_divides_trans(space_gcd(ls), space_gcd(prev), indent_bytes(ls[j]));
                }
            }
        } else {
            assert forall|j: int| 0 <= j < ls.len() && space_indented(#[trigger] ls[j]) implies divides(
                space_gcd(ls),
                indent_bytes(ls[j]),
            ) by {
                assert(prev[j] == ls[j]);
            }
        }
    }
}

/// Every common divisor of the space indentations divides `space_gcd`.
proof fn lemma_space_gcd_greatest(ls: Seq<Seq<char>>, d: nat)
    requires
        d > 0,
        forall|j: int| 0 <= j < ls.len() && space_indented(#[trigger] ls[j]) ==> indent_bytes(ls[j]) % d == 0,
    ensures
        space_gcd(ls) % d == 0,
    decreases ls.len(),
{
    if ls.len() == 0 {
        vstd::arithmetic::div_mod::lemma_mod_multiples_basic(0, d as int);
    } else {
        let prev = ls.drop_last();
        assert forall|j: int| 0 <= j < prev.len() && space_indented(#[trigger] prev[j]) implies indent_bytes(prev[j])
            % d == 0 by {
            assert(prev[j] == ls[j]);
        }
        lemma_space_gcd_greatest(prev, d);
        if space_indented(ls.last()) {
            assert(space_indented(ls[ls.len() - 1]));
            lemma_gcd_greatest(space_gcd(prev), indent_bytes(ls.last()), d);
        }
    }
}

/// The detected indentation style. Tabs win when more lines start with a
/// tab than half of those that start with spaces. Otherwise the style is
/// `g` spaces, where `g` is the greatest common divisor of the space
/// indentations (a common divisor of them all, divisible by every other),
/// when `g` is 2 or from 4 to 8; it is 4 spaces when no line is indented by
/// spaces or `g` is 1, 3 or above 8.
pub proof fn law_indent_style(c: Seq<char>)
    ensures
        ({
            let ls = std_lines(c);
            let tabs = tab_count(ls);
            let sp = space_count(ls);
            let g = space_gcd(ls);
            &&& (tabs > sp / 2 && tabs > 0) ==> indent_style(c) == seq!['\t']
            &&& !(tabs > sp / 2 && tabs > 0) && sp == 0 ==> indent_style(c) == spaces(4)
            &&& !(tabs > sp / 2 && tabs > 0) && sp > 0 && (g == 2 || (4 <= g && g <= 8)) ==> indent_style(c)
                == spaces(g)
            &&& !(tabs > sp / 2 && tabs > 0) && sp > 0 && (g == 1 || g == 3 || g > 8) ==> indent_style(c)
                == spaces(4)
            &&& sp > 0 ==> g > 0
            &&& forall|j: int|
                0 <= j < ls.len() && space_indented(#[trigger] ls[j]) ==> indent_bytes(ls[j]) % g == 0
            &&& forall|d: nat|
                d > 0 && (forall|j: int|
                    0 <= j < ls.len() && space_indented(#[trigger] ls[j]) ==> indent_bytes(ls[j]) % d == 0)
                    ==> #[trigger] (g % d) == 0
        }),
{
    let ls = std_lines(c);
    lemma_space_gcd_divides(ls);
    lemma_space_count_pos(ls);
    assert forall|d: nat|
        d > 0 && (forall|j: int|
            0 <= j < ls.len() && space_indented(#[trigger] ls[j]) ==> indent_bytes(ls[j]) % d == 0) implies #[trigger] (
    space_gcd(ls) % d) == 0 by {
        lemma_space_gcd_greatest(ls, d);
    }
}

/// A line indented by a tab (neither blank nor unindented).
pub open spec fn tab_indented(l: Seq<char>) -> bool {
    counted(l) && l[0] == '\t'
}

/// The counts behind the detected style are the numbers of lines indented
/// by a tab and by spaces.
pub proof fn law_indent_counts(ls: Seq<Seq<char>>)
    ensures
        tab_count(ls) == ls.filter(|l: Seq<char>| tab_indented(l)).len(),
        space_count(ls) == ls.filter(|l: Seq<char>| space_indented(l)).len(),
        tab_count(ls) + space_count(ls) <= ls.len(),
    decreases ls.len(),
{
    reveal(Seq::filter);
    if ls.len() > 0 {
        law_indent_counts(ls.drop_last());
    }
}

/// Some line is indented by spaces exactly when some are counted, and then
/// their divisor is not zero.
proof fn lemma_space_count_pos(ls: Seq<Seq<char>>)
    ensures
        space_count(ls) > 0 ==> space_gcd(ls) > 0,
    decreases ls.len(),
{
    if ls.len() > 0 {
        let prev = ls.drop_last();
        lemma_space_count_pos(prev);
        if space_indented(ls.last()) {
            lemma_gcd_pos(space_gcd(prev), indent_bytes(ls.last()));
        }
    }
}

/// Detect the indentation style of a text: `"\t"` when tab-indented
/// lines outnumber half the space-indented ones, else the space unit
/// (see `indent_unit`).
pub fn detect_indent_style(content: &str) -> (r: String)
    ensures
        r@ == indent_style(content@),
{
    let lines = text_lines(content);
    let ghost ls = std_lines(content@);
    let mut tabs: usize = 0;
    let mut spaced: usize = 0;
    let mut g: u128 = 0;
    let mut i: usize = 0;
    while i < lines.len()
        invariant
            i <= lines@.len(),
            lines@.len() == ls.len(),
            ls == std_lines(content@),
            forall|j: int| 0 <= j < lines@.len() ==> (#[trigger] lines@[j])@ == ls[j],
            tabs == tab_count(ls.take(i as int)),
            spaced == space_count(ls.take(i as int)),
            g == space_gcd(ls.take(i as int)),
            tabs <= i,
            spaced <= i,
        decreases lines@.len() - i,
    {
        let line = &lines[i];
        assert(ls.take(i + 1).drop_last() =~= ls.take(i as int));
        assert(ls.take(i + 1).last() == ls[i as int]);
        let (indent_len, blank) = indent_of(line.as_slice());
        if !blank && indent_len > 0 {
            if line[0] == '\t' {
                tabs = tabs + 1;
            } else if line[0] == ' ' {
                spaced = spaced + 1;
                g = gcd(g, indent_len);
            }
        }
        i = i + 1;
    }
    assert(ls.take(i as int) =~= ls);
    if tabs > spaced / 2 && tabs > 0 {
        let mut t = String::new();
        string_push(&mut t, '\t');
        return t;
    }
    let unit: u128 = if spaced == 0 || g == 1 || g == 3 || g > 8 {
        4
    } else {
        g
    };
    let mut s = String::new();
    let mut k: u128 = 0;
    while k < unit
        invariant
            k <= unit,
            s@ == spaces(k as nat),
        decreases unit - k,
    {
        string_push(&mut s, ' ');
        assert(s@ =~= spaces((k + 1) as nat));
        k = k + 1;
    }
    s
}

/// Re-indent a function body with `base_indent`, keeping the relative
/// indentation of its lines (see `body_text`).
pub fn format_body_preserve_relative(body: &str, base_indent: &str) -> (r: String)
    ensures
        r@ == body_text(body@, base_indent@),
{
    let lines = text_lines(body);
    let ghost ls = std_lines(body@);
    let mut min: Option<u128> = None;
    let mut i: usize = 0;
    while i < lines.len()
        invariant
            i <= lines@.len(),
            lines@.len() == ls.len(),
            ls == std_lines(body@),
            forall|j: int| 0 <= j < lines@.len() ==> (#[trigger] lines@[j])@ == ls[j],
            match min {
                Some(m) => min_indent(ls.take(i as int)) == Some(m as nat),
                None => min_indent(ls.take(i as int)).is_none(),
            },
        decreases lines@.len() - i,
    {
        assert(ls.take(i + 1).drop_last() =~= ls.take(i as int));
        assert(ls.take(i + 1).last() == ls[i as int]);
        let (ind, blank) = indent_of(lines[i].as_slice());
        if !blank {
            min = match min {
                Some(m) => if ind < m {
                    Some(ind)
                } else {
                    Some(m)
                },
                None => Some(ind),
            };
        }
        i = i + 1;
    }
    assert(ls.take(i as int) =~= ls);
    let m: u128 = match min {
        Some(m) => m,
        None => 0,
    };
    let ghost parts = ls.map_values(|l: Seq<char>| body_line(l, base_indent@, m as nat));
    let mut r = String::new();
    let mut i: usize = 0;
    while i < lines.len()
        invariant
            i <= lines@.len(),
            lines@.len() == ls.len(),
            forall|j: int| 0 <= j < lines@.len() ==> (#[trigger] lines@[j])@ == ls[j],
            parts == ls.map_values(|l: Seq<char>| body_line(l, base_indent@, m as nat)),
            r@ == join_with(parts.take(i as int), '\n'),
        decreases lines@.len() - i,
    {
        if i > 0 {
            string_push(&mut r, '\n');
        }
        let ghost before = r@;
        let line = &lines[i];
        let (ind, blank) = indent_of(line.as_slice());
        if !blank {
            push_str(&mut r, base_indent);
            let rel: u128 = if ind >= m {
                ind - m
            } else {
                0
            };
            let mut k: u128 = 0;
            while k < rel
                invariant
                    k <= rel,
                    r@ == before + base_indent@ + spaces(k as nat),
                decreases rel - k,
            {
                string_push(&mut r, ' ');
                assert(r@ =~= before + base_indent@ + spaces((k + 1) as nat));
                k = k + 1;
            }
            let lead = leading_ws_len(line.as_slice());
            let rest = slice_range(line.as_slice(), lead, line.len());
            push_chars(&mut r, rest.as_slice());
            assert(rest@ =~= line@.skip(lead as int));
        }
        proof {
            assert(parts.take(i + 1).drop_last() =~= parts.take(i as int));
            assert(parts.take(i + 1).last() == parts[i as int]);
            if i == 0 {
                assert(parts.take(1) =~= seq![parts[0]]);
                assert(before =~= Seq::<char>::empty());
            }
            assert(r@ =~= join_with(parts.take(i + 1), '\n'));
        }
        i = i + 1;
    }
    assert(parts.take(i as int) =~= parts);
    r
}

} // verus!
