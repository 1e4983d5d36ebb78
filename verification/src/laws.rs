//! The natural order is a strict total order: reflexive, antisymmetric
//! and transitive. These laws also carry the sorting routines.

use core::cmp::Ordering;
use vstd::prelude::*;

use crate::compare::char_cmp;
use crate::compare::is_digit;
use crate::compare::lemma_char_cast_inj;
use crate::compare::lemma_lex_cmp_eq;
use crate::compare::lemma_run_len_le;
use crate::compare::lemma_zeros_len_le;
use crate::compare::lemma_zeros_prefix;
use crate::compare::lex_cmp;
use crate::compare::natural_cmp;
use crate::compare::natural_cmp_from;
use crate::compare::num_cmp;
use crate::compare::run_len;
use crate::compare::zeros_len;

verus! {

/// The opposite comparison result.
pub open spec fn mirror_ord(o: Ordering) -> Ordering {
    match o {
        Ordering::Less => Ordering::Greater,
        Ordering::Equal => Ordering::Equal,
        Ordering::Greater => Ordering::Less,
    }
}

/// The single scalar that orders characters under `char_cmp`: after a
/// numeric step every character above code point 255 sorts below every
/// character at or under it.
pub(crate) open spec fn char_key(c: char, after_num: bool) -> int {
    if after_num && c as u32 > 255 {
        c as u32 as int
    } else {
        c as u32 + 0x200000
    }
}

/// `char_cmp` is exactly the order of the character keys.
pub(crate) proof fn lemma_char_cmp_is_key(x: char, y: char, after_num: bool)
    ensures
        char_cmp(x, y, after_num) == Ordering::Less <==> char_key(x, after_num) < char_key(
            y,
            after_num,
        ),
        char_cmp(x, y, after_num) == Ordering::Equal <==> char_key(x, after_num) == char_key(
            y,
            after_num,
        ),
        char_cmp(x, y, after_num) == Ordering::Greater <==> char_key(x, after_num) > char_key(
            y,
            after_num,
        ),
        char_key(x, after_num) == char_key(y, after_num) <==> x == y,
{
    vstd::utf8::char_is_scalar(x);
    vstd::utf8::char_is_scalar(y);
    if x as u32 == y as u32 {
        lemma_char_cast_inj(x, y);
    }
}

/// Digit characters occupy one contiguous block of keys; every other
/// character keys outside of it.
pub(crate) proof fn lemma_digit_key_block(c: char, after_num: bool)
    ensures
        is_digit(c) ==> 0x200030 <= char_key(c, after_num) <= 0x200039,
        !is_digit(c) ==> char_key(c, after_num) < 0x200030 || char_key(c, after_num) > 0x200039,
{
    vstd::utf8::char_is_scalar(c);
}

/// Same-length sequences compare as `Equal` only when they are equal.
pub(crate) proof fn lemma_lex_cmp_eq_rev(x: Seq<char>, y: Seq<char>)
    requires
        x.len() == y.len(),
        lex_cmp(x, y) == Ordering::Equal,
    ensures
        x == y,
    decreases x.len(),
{
    if x.len() != 0 {
        lemma_char_cast_inj(x[0], y[0]);
        lemma_lex_cmp_eq_rev(x.drop_first(), y.drop_first());
        assert(x =~= y) by {
            assert(forall|k: int|
                0 < k < x.len() ==> x[k] == x.drop_first()[k - 1] && y[k] == y.drop_first()[k
                    - 1]);
        }
    } else {
        assert(x =~= y);
    }
}

pub(crate) proof fn lemma_lex_cmp_antisym(x: Seq<char>, y: Seq<char>)
    requires
        x.len() == y.len(),
    ensures
        lex_cmp(x, y) == mirror_ord(lex_cmp(y, x)),
    decreases x.len(),
{
    if x.len() != 0 {
        lemma_lex_cmp_antisym(x.drop_first(), y.drop_first());
    }
}

pub(crate) proof fn lemma_lex_cmp_trans(x: Seq<char>, y: Seq<char>, z: Seq<char>)
    requires
        x.len() == y.len(),
        y.len() == z.len(),
        lex_cmp(x, y) == Ordering::Less,
        lex_cmp(y, z) == Ordering::Less,
    ensures
        lex_cmp(x, z) == Ordering::Less,
    decreases x.len(),
{
    if x.len() != 0 {
        if (x[0] as u32) == (y[0] as u32) && (y[0] as u32) == (z[0] as u32) {
            lemma_lex_cmp_trans(x.drop_first(), y.drop_first(), z.drop_first());
        }
    }
}

/// Digit runs of equal numeric rank are the same run.
pub(crate) proof fn lemma_num_cmp_eq(x: Seq<char>, y: Seq<char>)
    requires
        num_cmp(x, y) == Ordering::Equal,
    ensures
        x == y,
{
    let zx = zeros_len(x) as int;
    let zy = zeros_len(y) as int;
    lemma_zeros_len_le(x);
    lemma_zeros_len_le(y);
    lemma_zeros_prefix(x);
    lemma_zeros_prefix(y);
    lemma_lex_cmp_eq_rev(x.skip(zx), y.skip(zy));
    assert(x =~= y) by {
        assert(forall|k: int| zx <= k < x.len() ==> x[k] == x.skip(zx)[k - zx]);
        assert(forall|k: int| zy <= k < y.len() ==> y[k] == y.skip(zy)[k - zy]);
    }
}

pub(crate) proof fn lemma_num_cmp_refl(x: Seq<char>)
    ensures
        num_cmp(x, x) == Ordering::Equal,
{
    lemma_lex_cmp_eq(x.skip(zeros_len(x) as int), x.skip(zeros_len(x) as int));
}

pub(crate) proof fn lemma_num_cmp_antisym(x: Seq<char>, y: Seq<char>)
    ensures
        num_cmp(x, y) == mirror_ord(num_cmp(y, x)),
{
    let sx = x.skip(zeros_len(x) as int);
    let sy = y.skip(zeros_len(y) as int);
    if sx.len() == sy.len() {
        lemma_lex_cmp_antisym(sx, sy);
    }
}

pub(crate) proof fn lemma_num_cmp_trans(x: Seq<char>, y: Seq<char>, z: Seq<char>)
    requires
        num_cmp(x, y) == Ordering::Less,
        num_cmp(y, z) == Ordering::Less,
    ensures
        num_cmp(x, z) == Ordering::Less,
{
    let sx = x.skip(zeros_len(x) as int);
    let sy = y.skip(zeros_len(y) as int);
    let sz = z.skip(zeros_len(z) as int);
    if sx.len() == sy.len() && sy.len() == sz.len() {
        if lex_cmp(sx, sy) == Ordering::Less && lex_cmp(sy, sz) == Ordering::Less {
            lemma_lex_cmp_trans(sx, sy, sz);
        } else if lex_cmp(sx, sy) == Ordering::Less {
            lemma_lex_cmp_eq_rev(sy, sz);
        } else if lex_cmp(sy, sz) == Ordering::Less {
            lemma_lex_cmp_eq_rev(sx, sy);
        } else {
            lemma_lex_cmp_eq_rev(sx, sy);
            lemma_lex_cmp_eq_rev(sy, sz);
        }
    }
}

/// Reflexivity: every sequence compares as `Equal` against itself.
pub proof fn lemma_natural_cmp_reflexive(a: Seq<char>)
    ensures
        natural_cmp(a, a) == Ordering::Equal,
{
    lemma_cmp_from_refl(a, false);
}

pub(crate) proof fn lemma_cmp_from_refl(a: Seq<char>, after_num: bool)
    ensures
        natural_cmp_from(a, a, after_num) == Ordering::Equal,
    decreases a.len(),
{
    if a.len() == 0 {
    } else if is_digit(a[0]) {
        let ra = run_len(a) as int;
        lemma_run_len_le(a);
        lemma_num_cmp_refl(a.take(ra));
        lemma_cmp_from_refl(a.skip(ra), true);
    } else {
        lemma_cmp_from_refl(a.drop_first(), false);
    }
}

/// Antisymmetry: comparing in the other direction mirrors the result.
pub proof fn lemma_natural_cmp_antisymmetric(a: Seq<char>, b: Seq<char>)
    ensures
        natural_cmp(a, b) == mirror_ord(natural_cmp(b, a)),
{
    lemma_cmp_from_antisym(a, b, false);
}

pub(crate) proof fn lemma_cmp_from_antisym(a: Seq<char>, b: Seq<char>, after_num: bool)
    ensures
        natural_cmp_from(a, b, after_num) == mirror_ord(natural_cmp_from(b, a, after_num)),
    decreases a.len() + b.len(),
{
    if a.len() == 0 || b.len() == 0 {
    } else if is_digit(a[0]) && is_digit(b[0]) {
        let ra = run_len(a) as int;
        let rb = run_len(b) as int;
        lemma_run_len_le(a);
        lemma_run_len_le(b);
        lemma_num_cmp_antisym(a.take(ra), b.take(rb));
        if num_cmp(a.take(ra), b.take(rb)) == Ordering::Equal {
            lemma_cmp_from_antisym(a.skip(ra), b.skip(rb), true);
        }
    } else if a[0] == b[0] {
        lemma_cmp_from_antisym(a.drop_first(), b.drop_first(), false);
    } else {
        lemma_char_cmp_is_key(a[0], b[0], after_num);
        lemma_char_cmp_is_key(b[0], a[0], after_num);
    }
}

/// Strictness: only a sequence and itself compare as `Equal`. Equal
/// numeric rank forces equal runs, so no two distinct sequences tie.
pub proof fn lemma_natural_cmp_equal_iff(a: Seq<char>, b: Seq<char>)
    ensures
        natural_cmp(a, b) == Ordering::Equal <==> a == b,
{
    lemma_cmp_from_equal_iff(a, b, false);
}

pub(crate) proof fn lemma_cmp_from_equal_iff(a: Seq<char>, b: Seq<char>, after_num: bool)
    ensures
        natural_cmp_from(a, b, after_num) == Ordering::Equal <==> a == b,
    decreases a.len() + b.len(),
{
    if a.len() == 0 || b.len() == 0 {
        if a.len() == 0 && b.len() == 0 {
            assert(a =~= b);
        }
    } else if is_digit(a[0]) && is_digit(b[0]) {
        let ra = run_len(a) as int;
        let rb = run_len(b) as int;
        lemma_run_len_le(a);
        lemma_run_len_le(b);
        if num_cmp(a.take(ra), b.take(rb)) == Ordering::Equal {
            lemma_num_cmp_eq(a.take(ra), b.take(rb));
            assert(ra == rb);
            lemma_cmp_from_equal_iff(a.skip(ra), b.skip(rb), true);
            if a.skip(ra) == b.skip(rb) {
                assert(a =~= b) by {
                    assert(forall|k: int| 0 <= k < ra ==> #[trigger] a[k] == a.take(ra)[k]);
                    assert(forall|k: int| 0 <= k < rb ==> #[trigger] b[k] == b.take(rb)[k]);
                    assert(forall|k: int|
                        ra <= k < a.len() ==> #[trigger] a[k] == a.skip(ra)[k - ra]);
                    assert(forall|k: int|
                        rb <= k < b.len() ==> #[trigger] b[k] == b.skip(rb)[k - rb]);
                }
            }
            if a == b {
                assert(a.skip(ra) =~= b.skip(rb));
            }
        } else {
            if a == b {
                lemma_num_cmp_refl(a.take(ra));
            }
        }
    } else if a[0] == b[0] {
        lemma_cmp_from_equal_iff(a.drop_first(), b.drop_first(), false);
        if a.drop_first() == b.drop_first() {
            assert(a =~= b) by {
                assert(forall|k: int| 0 < k < a.len() ==> #[trigger] a[k] == a.drop_first()[k - 1]);
                assert(forall|k: int| 0 < k < b.len() ==> #[trigger] b[k] == b.drop_first()[k - 1]);
            }
        }
        if a == b {
            assert(a.drop_first() =~= b.drop_first());
        }
    } else {
        lemma_char_cmp_is_key(a[0], b[0], after_num);
    }
}

/// Transitivity: whatever is not greater composes.
pub proof fn lemma_natural_cmp_transitive(a: Seq<char>, b: Seq<char>, c: Seq<char>)
    requires
        natural_cmp(a, b) != Ordering::Greater,
        natural_cmp(b, c) != Ordering::Greater,
    ensures
        natural_cmp(a, c) != Ordering::Greater,
{
    lemma_cmp_from_trans(a, b, c, false);
}

pub(crate) proof fn lemma_cmp_from_trans(a: Seq<char>, b: Seq<char>, c: Seq<char>, after_num: bool)
    requires
        natural_cmp_from(a, b, after_num) != Ordering::Greater,
        natural_cmp_from(b, c, after_num) != Ordering::Greater,
    ensures
        natural_cmp_from(a, c, after_num) != Ordering::Greater,
    decreases a.len() + b.len() + c.len(),
{
    if a.len() == 0 {
        // a is a prefix of everything: never greater
    } else if b.len() == 0 {
        assert(false);
    } else if c.len() == 0 {
        assert(false);
    } else {
        let a0 = a[0];
        let b0 = b[0];
        let c0 = c[0];
        lemma_char_cmp_is_key(a0, b0, after_num);
        lemma_char_cmp_is_key(b0, c0, after_num);
        lemma_char_cmp_is_key(a0, c0, after_num);
        lemma_digit_key_block(a0, after_num);
        lemma_digit_key_block(b0, after_num);
        lemma_digit_key_block(c0, after_num);
        if is_digit(a0) && is_digit(b0) && is_digit(c0) {
            let ra = run_len(a) as int;
            let rb = run_len(b) as int;
            let rc = run_len(c) as int;
            lemma_run_len_le(a);
            lemma_run_len_le(b);
            lemma_run_len_le(c);
            let runa = a.take(ra);
            let runb = b.take(rb);
            let runc = c.take(rc);
            let oab = num_cmp(runa, runb);
            let obc = num_cmp(runb, runc);
            if oab == Ordering::Equal && obc == Ordering::Equal {
                lemma_num_cmp_eq(runa, runb);
                lemma_num_cmp_eq(runb, runc);
                assert(ra == rb && rb == rc);
                lemma_num_cmp_refl(runa);
                lemma_cmp_from_trans(a.skip(ra), b.skip(rb), c.skip(rc), true);
            } else if oab == Ordering::Equal {
                lemma_num_cmp_eq(runa, runb);
                assert(num_cmp(runa, runc) == obc);
            } else if obc == Ordering::Equal {
                lemma_num_cmp_eq(runb, runc);
                assert(num_cmp(runa, runc) == oab);
            } else {
                lemma_num_cmp_trans(runa, runb, runc);
            }
        } else if is_digit(a0) && is_digit(b0) {
            // c0 is no digit; b against c is decided by one character, and
            // c0 keys on the same side of the whole digit block.
            assert(char_cmp(b0, c0, after_num) == Ordering::Less);
            assert(char_cmp(a0, c0, after_num) == Ordering::Less);
        } else if is_digit(b0) && is_digit(c0) {
            assert(char_cmp(a0, b0, after_num) == Ordering::Less);
            assert(char_cmp(a0, c0, after_num) == Ordering::Less);
        } else if is_digit(a0) && is_digit(c0) {
            // b0 would have to key strictly inside the digit block
            assert(char_cmp(a0, b0, after_num) == Ordering::Less);
            assert(char_cmp(b0, c0, after_num) == Ordering::Less);
            assert(false);
        } else {
            // at most one digit among the three heads: every pair is decided
            // by one character or by equal heads
            if a0 == b0 && b0 == c0 {
                lemma_cmp_from_trans(a.drop_first(), b.drop_first(), c.drop_first(), false);
            } else if a0 == b0 {
                assert(char_cmp(b0, c0, after_num) == Ordering::Less);
                assert(char_cmp(a0, c0, after_num) == Ordering::Less);
            } else if b0 == c0 {
                assert(char_cmp(a0, b0, after_num) == Ordering::Less);
                assert(char_cmp(a0, c0, after_num) == Ordering::Less);
            } else {
                assert(char_cmp(a0, b0, after_num) == Ordering::Less);
                assert(char_cmp(b0, c0, after_num) == Ordering::Less);
                assert(char_cmp(a0, c0, after_num) == Ordering::Less);
            }
        }
    }
}

} // verus!
