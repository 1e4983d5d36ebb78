//! The natural comparator: digit runs compare as numbers, with a
//! leading-zero tie-break and a high-codepoint inversion rule after a
//! numeric step.

use core::cmp::Ordering;
use vstd::prelude::*;

verus! {

/// An ASCII decimal digit.
pub open spec fn is_digit(c: char) -> bool {
    48 <= c as u32 <= 57
}

/// Length of the maximal leading digit run of `s`.
pub open spec fn run_len(s: Seq<char>) -> nat
    decreases s.len(),
{
    if s.len() == 0 || !is_digit(s[0]) {
        0
    } else {
        1 + run_len(s.drop_first())
    }
}

/// Number of leading `'0'` characters of `s`.
pub open spec fn zeros_len(s: Seq<char>) -> nat
    decreases s.len(),
{
    if s.len() == 0 || s[0] != '0' {
        0
    } else {
        1 + zeros_len(s.drop_first())
    }
}

/// Scalar-value comparison of two equally long sequences: the first
/// differing position decides.
pub open spec fn lex_cmp(x: Seq<char>, y: Seq<char>) -> Ordering
    recommends
        x.len() == y.len(),
    decreases x.len(),
{
    if x.len() == 0 || y.len() == 0 {
        Ordering::Equal
    } else if (x[0] as u32) < (y[0] as u32) {
        Ordering::Less
    } else if (x[0] as u32) > (y[0] as u32) {
        Ordering::Greater
    } else {
        lex_cmp(x.drop_first(), y.drop_first())
    }
}

/// Comparison of two digit runs as numbers. The runs are compared by
/// value (leading zeros stripped: a longer stripped run is larger, equal
/// lengths compare digit-wise), and runs of equal value by their number
/// of leading zeros: more leading zeros is greater.
pub open spec fn num_cmp(x: Seq<char>, y: Seq<char>) -> Ordering
    recommends
        x.len() == run_len(x) && x.len() > 0,
        y.len() == run_len(y) && y.len() > 0,
{
    let sx = x.skip(zeros_len(x) as int);
    let sy = y.skip(zeros_len(y) as int);
    if sx.len() < sy.len() {
        Ordering::Less
    } else if sx.len() > sy.len() {
        Ordering::Greater
    } else if lex_cmp(sx, sy) != Ordering::Equal {
        lex_cmp(sx, sy)
    } else if zeros_len(x) > zeros_len(y) {
        Ordering::Greater
    } else if zeros_len(x) < zeros_len(y) {
        Ordering::Less
    } else {
        Ordering::Equal
    }
}

/// Scalar comparison of two characters, inverted when the previous
/// comparison step was numeric and exactly one of the two characters
/// lies above code point 255. The inversion keeps numbered names of a
/// wide script adjacent to each other instead of being separated by the
/// code-point gap below 256.
pub open spec fn char_cmp(x: char, y: char, after_num: bool) -> Ordering {
    let flip = after_num && ((x as u32 > 255) != (y as u32 > 255));
    if (x as u32) < (y as u32) {
        if flip {
            Ordering::Greater
        } else {
            Ordering::Less
        }
    } else if (x as u32) > (y as u32) {
        if flip {
            Ordering::Less
        } else {
            Ordering::Greater
        }
    } else {
        Ordering::Equal
    }
}

/// One left-to-right scan over both sequences. When both sides stand on
/// a digit, their maximal digit runs are consumed and compared as
/// numbers; otherwise a single character from each side is compared by
/// scalar value, with the inversion rule applied after a numeric step.
/// A sequence that runs out first is less.
pub open spec fn natural_cmp_from(a: Seq<char>, b: Seq<char>, after_num: bool) -> Ordering
    decreases a.len() + b.len(),
    via natural_cmp_from_decreases
{
    if a.len() == 0 {
        if b.len() == 0 {
            Ordering::Equal
        } else {
            Ordering::Less
        }
    } else if b.len() == 0 {
        Ordering::Greater
    } else if is_digit(a[0]) && is_digit(b[0]) {
        let ra = run_len(a) as int;
        let rb = run_len(b) as int;
        let o = num_cmp(a.take(ra), b.take(rb));
        if o != Ordering::Equal {
            o
        } else {
            natural_cmp_from(a.skip(ra), b.skip(rb), true)
        }
    } else if a[0] == b[0] {
        natural_cmp_from(a.drop_first(), b.drop_first(), false)
    } else {
        char_cmp(a[0], b[0], after_num)
    }
}

/// The natural order on character sequences.
pub open spec fn natural_cmp(a: Seq<char>, b: Seq<char>) -> Ordering {
    natural_cmp_from(a, b, false)
}

#[via_fn]
proof fn natural_cmp_from_decreases(a: Seq<char>, b: Seq<char>, after_num: bool) {
    lemma_run_len_le(a);
    lemma_run_len_le(b);
}

pub proof fn lemma_run_len_le(s: Seq<char>)
    ensures
        run_len(s) <= s.len(),
    decreases s.len(),
{
    if s.len() != 0 && is_digit(s[0]) {
        lemma_run_len_le(s.drop_first());
    }
}

/// Two characters with the same scalar value are the same character.
pub(crate) proof fn lemma_char_cast_inj(x: char, y: char)
    requires
        x as u32 == y as u32,
    ensures
        x == y,
{
    vstd::utf8::char_u32_cast(x, x as u32);
    vstd::utf8::char_u32_cast(y, y as u32);
}

/// The leading digit run of `s` is exactly `s[..j]`.
proof fn lemma_run_len_is(s: Seq<char>, j: int)
    requires
        0 <= j <= s.len(),
        forall|k: int| 0 <= k < j ==> is_digit(s[k]),
        j == s.len() || !is_digit(s[j]),
    ensures
        run_len(s) == j,
    decreases j,
{
    if j == 0 {
    } else {
        assert(is_digit(s[0]));
        lemma_run_len_is(s.drop_first(), j - 1);
    }
}

/// The leading zeros of `s` are exactly `s[..j]`.
proof fn lemma_zeros_len_is(s: Seq<char>, j: int)
    requires
        0 <= j <= s.len(),
        forall|k: int| 0 <= k < j ==> s[k] == '0',
        j == s.len() || s[j] != '0',
    ensures
        zeros_len(s) == j,
    decreases j,
{
    if j == 0 {
    } else {
        assert(s[0] == '0');
        lemma_zeros_len_is(s.drop_first(), j - 1);
    }
}

/// Equal sequences compare as `Equal`.
pub(crate) proof fn lemma_lex_cmp_eq(x: Seq<char>, y: Seq<char>)
    requires
        x == y,
    ensures
        lex_cmp(x, y) == Ordering::Equal,
    decreases x.len(),
{
    if x.len() != 0 && y.len() != 0 {
        lemma_lex_cmp_eq(x.drop_first(), y.drop_first());
    }
}

/// The first differing position decides a same-length comparison.
proof fn lemma_lex_cmp_first_diff(x: Seq<char>, y: Seq<char>, d: int)
    requires
        x.len() == y.len(),
        0 <= d < x.len(),
        forall|k: int| 0 <= k < d ==> x[k] == y[k],
        x[d] != y[d],
    ensures
        lex_cmp(x, y) == (if (x[d] as u32) < (y[d] as u32) {
            Ordering::Less
        } else {
            Ordering::Greater
        }),
    decreases d,
{
    if d == 0 {
        if x[0] as u32 == y[0] as u32 {
            lemma_char_cast_inj(x[0], y[0]);
        }
    } else {
        assert(x[0] == y[0]);
        lemma_lex_cmp_first_diff(x.drop_first(), y.drop_first(), d - 1);
    }
}

pub(crate) proof fn lemma_zeros_len_le(s: Seq<char>)
    ensures
        zeros_len(s) <= s.len(),
    decreases s.len(),
{
    if s.len() != 0 && s[0] == '0' {
        lemma_zeros_len_le(s.drop_first());
    }
}

/// Every position below `zeros_len(s)` carries `'0'`.
pub(crate) proof fn lemma_zeros_prefix(s: Seq<char>)
    ensures
        forall|k: int| 0 <= k < zeros_len(s) ==> s[k] == '0',
    decreases s.len(),
{
    if s.len() != 0 && s[0] == '0' {
        lemma_zeros_len_le(s);
        lemma_zeros_prefix(s.drop_first());
        assert forall|k: int| 0 <= k < zeros_len(s) implies s[k] == '0' by {
            if k > 0 {
                assert(s.drop_first()[k - 1] == s[k]);
            }
        }
    }
}

/// Whether `c` is an ASCII decimal digit.
fn digit(c: char) -> (r: bool)
    ensures
        r == is_digit(c),
{
    let u = c as u32;
    48 <= u && u <= 57
}

/// First position at or after `from` that does not carry a digit.
fn scan_run(s: &str, from: usize, n: usize) -> (j: usize)
    requires
        n == s@.len(),
        from <= n,
    ensures
        from <= j <= n,
        run_len(s@.skip(from as int)) == j - from,
{
    let mut j = from;
    while j < n && digit(s.get_char(j))
        invariant
            from <= j <= n,
            n == s@.len(),
            forall|k: int| from <= k < j ==> is_digit(s@[k]),
        decreases n - j,
    {
        j = j + 1;
    }
    proof {
        let t = s@.skip(from as int);
        assert(forall|k: int| 0 <= k < j - from ==> is_digit(t[k]));
        assert(j - from == t.len() || !is_digit(t[j - from]));
        lemma_run_len_is(t, j - from);
    }
    j
}

/// First position in `[from, to)` that does not carry `'0'`.
fn scan_zeros(s: &str, from: usize, to: usize, n: usize) -> (j: usize)
    requires
        n == s@.len(),
        from <= to <= n,
    ensures
        from <= j <= to,
        zeros_len(s@.subrange(from as int, to as int)) == j - from,
{
    let mut j = from;
    while j < to && s.get_char(j) == '0'
        invariant
            from <= j <= to,
            to <= n == s@.len(),
            forall|k: int| from <= k < j ==> s@[k] == '0',
        decreases to - j,
    {
        j = j + 1;
    }
    proof {
        let t = s@.subrange(from as int, to as int);
        assert(forall|k: int| 0 <= k < j - from ==> t[k] == '0');
        assert(j - from == t.len() || t[j - from] != '0');
        lemma_zeros_len_is(t, j - from);
    }
    j
}

/// Scalar comparison of `a[sa..sa+m]` against `b[sb..sb+m]`.
fn lex_scan(a: &str, sa: usize, b: &str, sb: usize, m: usize) -> (r: Ordering)
    requires
        a@.len() <= usize::MAX,
        b@.len() <= usize::MAX,
        sa + m <= a@.len(),
        sb + m <= b@.len(),
    ensures
        r == lex_cmp(
            a@.subrange(sa as int, sa as int + m as int),
            b@.subrange(sb as int, sb as int + m as int),
        ),
{
    let ghost x = a@.subrange(sa as int, sa as int + m as int);
    let ghost y = b@.subrange(sb as int, sb as int + m as int);
    let mut k: usize = 0;
    while k < m
        invariant
            k <= m,
            a@.len() <= usize::MAX,
            b@.len() <= usize::MAX,
            sa + m <= a@.len(),
            sb + m <= b@.len(),
            x == a@.subrange(sa as int, sa as int + m as int),
            y == b@.subrange(sb as int, sb as int + m as int),
            forall|t: int| 0 <= t < k ==> x[t] == y[t],
        decreases m - k,
    {
        let ca = a.get_char(sa + k);
        let cb = b.get_char(sb + k);
        if ca as u32 != cb as u32 {
            proof {
                assert(x[k as int] == ca && y[k as int] == cb);
                lemma_lex_cmp_first_diff(x, y, k as int);
            }
            if (ca as u32) < (cb as u32) {
                return Ordering::Less;
            } else {
                return Ordering::Greater;
            }
        }
        proof {
            assert(x[k as int] == ca && y[k as int] == cb);
            lemma_char_cast_inj(ca, cb);
        }
        k = k + 1;
    }
    proof {
        assert(x =~= y);
        lemma_lex_cmp_eq(x, y);
    }
    Ordering::Equal
}

/// Compare two strings in the natural order: digit runs compare as
/// numbers, equal values are tied by leading zeros, and all other
/// characters compare by scalar value under the inversion rule.
pub fn compare_str(a: &str, b: &str) -> (r: Ordering)
    ensures
        r == natural_cmp(a@, b@),
{
    let n_a = a.unicode_len();
    let n_b = b.unicode_len();
    let mut ia: usize = 0;
    let mut ib: usize = 0;
    let mut after_num: bool = false;
    proof {
        assert(a@.skip(0) =~= a@);
        assert(b@.skip(0) =~= b@);
    }
    loop
        invariant
            ia <= n_a,
            ib <= n_b,
            n_a == a@.len(),
            n_b == b@.len(),
            natural_cmp(a@, b@) == natural_cmp_from(
                a@.skip(ia as int),
                b@.skip(ib as int),
                after_num,
            ),
        decreases n_a - ia + n_b - ib,
    {
        let ghost ta = a@.skip(ia as int);
        let ghost tb = b@.skip(ib as int);
        if ia == n_a {
            if ib == n_b {
                return Ordering::Equal;
            } else {
                return Ordering::Less;
            }
        }
        if ib == n_b {
            return Ordering::Greater;
        }
        let ca = a.get_char(ia);
        let cb = b.get_char(ib);
        proof {
            assert(ta[0] == ca && tb[0] == cb);
        }
        if digit(ca) && digit(cb) {
            let ra = scan_run(a, ia, n_a);
            let rb = scan_run(b, ib, n_b);
            proof {
                assert(run_len(ta) >= 1);
                assert(run_len(tb) >= 1);
            }
            let za = scan_zeros(a, ia, ra, n_a);
            let zb = scan_zeros(b, ib, rb, n_b);
            let ghost runa = ta.take(run_len(ta) as int);
            let ghost runb = tb.take(run_len(tb) as int);
            proof {
                assert(runa =~= a@.subrange(ia as int, ra as int));
                assert(runb =~= b@.subrange(ib as int, rb as int));
                assert(zeros_len(runa) == za - ia);
                assert(zeros_len(runb) == zb - ib);
                assert(runa.skip(zeros_len(runa) as int) =~= a@.subrange(za as int, ra as int));
                assert(runb.skip(zeros_len(runb) as int) =~= b@.subrange(zb as int, rb as int));
            }
            let ghost o = num_cmp(runa, runb);
            let ma = ra - za;
            let mb = rb - zb;
            if ma < mb {
                proof {
                    assert(o == Ordering::Less);
                }
                return Ordering::Less;
            }
            if ma > mb {
                proof {
                    assert(o == Ordering::Greater);
                }
                return Ordering::Greater;
            }
            let lx = lex_scan(a, za, b, zb, ma);
            proof {
                assert(a@.subrange(za as int, za as int + ma as int) =~= a@.subrange(
                    za as int,
                    ra as int,
                ));
                assert(b@.subrange(zb as int, zb as int + mb as int) =~= b@.subrange(
                    zb as int,
                    rb as int,
                ));
            }
            match lx {
                Ordering::Equal => {},
                _ => {
                    proof {
                        assert(o == lx);
                    }
                    return lx;
                },
            }
            let ka = za - ia;
            let kb = zb - ib;
            if ka > kb {
                proof {
                    assert(o == Ordering::Greater);
                }
                return Ordering::Greater;
            }
            if ka < kb {
                proof {
                    assert(o == Ordering::Less);
                }
                return Ordering::Less;
            }
            proof {
                assert(o == Ordering::Equal);
                assert(ta.skip(run_len(ta) as int) =~= a@.skip(ra as int));
                assert(tb.skip(run_len(tb) as int) =~= b@.skip(rb as int));
            }
            ia = ra;
            ib = rb;
            after_num = true;
        } else if ca as u32 == cb as u32 {
            proof {
                lemma_char_cast_inj(ca, cb);
                assert(ta.drop_first() =~= a@.skip(ia as int + 1));
                assert(tb.drop_first() =~= b@.skip(ib as int + 1));
            }
            ia = ia + 1;
            ib = ib + 1;
            after_num = false;
        } else {
            return char_cmp_exec(ca, cb, after_num);
        }
    }
}

/// Scalar comparison of two characters under the inversion rule.
fn char_cmp_exec(x: char, y: char, after_num: bool) -> (r: Ordering)
    ensures
        r == char_cmp(x, y, after_num),
{
    let ux = x as u32;
    let uy = y as u32;
    let flip = after_num && ((ux > 255) != (uy > 255));
    if ux < uy {
        if flip {
            Ordering::Greater
        } else {
            Ordering::Less
        }
    } else if ux > uy {
        if flip {
            Ordering::Less
        } else {
            Ordering::Greater
        }
    } else {
        Ordering::Equal
    }
}

} // verus!
