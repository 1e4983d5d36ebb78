//! Sorting key-item pairs: one verified insertion sort carries every
//! public sorting routine. Keys are compared through a total preorder
//! supplied by the key type.

use core::cmp::Ordering;
use vstd::prelude::*;

use crate::compare::compare_str;
use crate::compare::natural_cmp;
use crate::laws::lemma_natural_cmp_antisymmetric;
use crate::laws::lemma_natural_cmp_transitive;
use crate::sortspec::lemma_insert_pos_of_scan;
use crate::sortspec::pair_item;
use crate::sortspec::lemma_stable_sorted_all;
use crate::sortspec::lemma_stable_sorted_map;
use crate::sortspec::lemma_stable_sorted_map_multiset;
use crate::sortspec::lemma_stable_sorted_sorted;
use crate::sortspec::sorted_under;
use crate::sortspec::stable_insert_pos;
use crate::sortspec::stable_sorted;
use crate::sortspec::total_relation;
use crate::sortspec::transitive_relation;

verus! {

/// A sort key under a total preorder.
pub trait OrderedKey: Sized {
    /// The order: at most `other`, possibly tied.
    spec fn key_le(self, other: Self) -> bool;

    /// Any two keys relate in at least one direction.
    proof fn lemma_key_le_total(x: Self, y: Self)
        ensures
            x.key_le(y) || y.key_le(x),
    ;

    /// The order composes.
    proof fn lemma_key_le_trans(x: Self, y: Self, z: Self)
        requires
            x.key_le(y),
            y.key_le(z),
        ensures
            x.key_le(z),
    ;

    /// The executable decision of the order.
    fn key_le_exec(&self, other: &Self) -> (r: bool)
        ensures
            r == self.key_le(*other),
    ;
}

/// A string key, ordered by the natural comparison. `text_le(x, y)`
/// holds when `x` sorts no later than `y`.
pub open spec fn text_le(x: Seq<char>, y: Seq<char>) -> bool {
    natural_cmp(x, y) != Ordering::Greater
}

/// An owned string key.
pub struct TextKey {
    pub text: String,
}

impl OrderedKey for TextKey {
    open spec fn key_le(self, other: Self) -> bool {
        text_le(self.text@, other.text@)
    }

    proof fn lemma_key_le_total(x: Self, y: Self) {
        lemma_natural_cmp_antisymmetric(x.text@, y.text@);
    }

    proof fn lemma_key_le_trans(x: Self, y: Self, z: Self) {
        lemma_natural_cmp_transitive(x.text@, y.text@, z.text@);
    }

    fn key_le_exec(&self, other: &Self) -> (r: bool) {
        match compare_str(self.text.as_str(), other.text.as_str()) {
            Ordering::Greater => false,
            _ => true,
        }
    }
}

/// The order on key-item pairs: by key alone, turned around when `rev`
/// is set. Ties between equal keys are never decided here, which is what
/// lets a stable sort keep their original order.
pub open spec fn pair_le<K: OrderedKey, A>(rev: bool) -> spec_fn((K, A), (K, A)) -> bool {
    if rev {
        |p: (K, A), q: (K, A)| q.0.key_le(p.0)
    } else {
        |p: (K, A), q: (K, A)| p.0.key_le(q.0)
    }
}

/// The executable decision of `pair_le`.
fn pair_le_exec<K: OrderedKey, A>(p: &(K, A), q: &(K, A), rev: bool) -> (r: bool)
    ensures
        r == pair_le::<K, A>(rev)(*p, *q),
{
    if rev {
        q.0.key_le_exec(&p.0)
    } else {
        p.0.key_le_exec(&q.0)
    }
}

pub(crate) proof fn lemma_pair_le_preorder<K: OrderedKey, A>(rev: bool)
    ensures
        total_relation(pair_le::<K, A>(rev)),
        transitive_relation(pair_le::<K, A>(rev)),
{
    let leq = pair_le::<K, A>(rev);
    assert forall|x: (K, A), y: (K, A)| #[trigger] leq(x, y) || #[trigger] leq(y, x) by {
        K::lemma_key_le_total(x.0, y.0);
        K::lemma_key_le_total(y.0, x.0);
    }
    assert forall|x: (K, A), y: (K, A), z: (K, A)|
        #[trigger] leq(x, y) && #[trigger] leq(y, z) implies leq(x, z) by {
        if rev {
            K::lemma_key_le_trans(z.0, y.0, x.0);
        } else {
            K::lemma_key_le_trans(x.0, y.0, z.0);
        }
    }
}

/// Stable insertion sort of key-item pairs.
pub(crate) fn sort_pairs<K: OrderedKey, A>(v: &mut Vec<(K, A)>, rev: bool)
    ensures
        final(v)@ == stable_sorted(old(v)@, pair_le::<K, A>(rev)),
        sorted_under(final(v)@, pair_le::<K, A>(rev)),
{
    let ghost leq = pair_le::<K, A>(rev);
    proof {
        lemma_pair_le_preorder::<K, A>(rev);
        lemma_stable_sorted_sorted(old(v)@, leq);
    }
    let n = v.len();
    if n == 0 {
        return ;
    }
    proof {
        crate::sortspec::lemma_stable_sorted_singleton(old(v)@.take(1), leq);
    }
    let mut i: usize = 1;
    while i < n
        invariant
            1 <= i <= n,
            n == v@.len(),
            n == old(v)@.len(),
            leq == pair_le::<K, A>(rev),
            total_relation(leq),
            transitive_relation(leq),
            v@.skip(i as int) == old(v)@.skip(i as int),
            v@.take(i as int) == stable_sorted(old(v)@.take(i as int), leq),
            sorted_under(v@.take(i as int), leq),
        decreases n - i,
    {
        let ghost before = v@;
        proof {
            assert(before.skip(i as int)[0] == before[i as int]);
            assert(before[i as int] == old(v)@[i as int]);
        }
        let x = v.remove(i);
        let ghost s = v@.take(i as int);
        proof {
            assert(s =~= before.take(i as int));
        }
        let mut p: usize = 0;
        while p < i && pair_le_exec(&v[p], &x, rev)
            invariant
                0 <= p <= i,
                i < n == old(v)@.len(),
                v@.len() == n - 1,
                s == v@.take(i as int),
                leq == pair_le::<K, A>(rev),
                forall|k: int| 0 <= k < p ==> leq(s[k], x),
            decreases i - p,
        {
            proof {
                assert(s[p as int] == v@[p as int]);
            }
            p = p + 1;
        }
        proof {
            if p < i {
                assert(s[p as int] == v@[p as int]);
                assert(!leq(s[p as int], x));
            }
            lemma_insert_pos_of_scan(s, x, leq, p as int);
        }
        v.insert(p, x);
        proof {
            assert(old(v)@.take(i + 1).drop_last() =~= old(v)@.take(i as int));
            assert(old(v)@.take(i + 1).last() == old(v)@[i as int]);
            assert(x == old(v)@[i as int]);
            assert(v@.take(i + 1) =~= s.insert(p as int, x));
            assert(v@.take(i + 1) == stable_sorted(old(v)@.take(i + 1), leq));
            let removed = before.remove(i as int);
            assert forall|k: int| i + 1 <= k < n implies v@[k] == old(v)@[k] by {
                assert(v@ == removed.insert(p as int, x));
                assert(v@[k] == removed[k - 1]);
                assert(removed[k - 1] == before[k]);
                assert(before.skip(i as int)[k - i] == before[k]);
                assert(old(v)@.skip(i as int)[k - i] == old(v)@[k]);
            }
            assert(v@.skip(i + 1) =~= old(v)@.skip(i + 1));
            lemma_stable_sorted_sorted(old(v)@.take(i + 1), leq);
        }
        i = i + 1;
    }
    proof {
        assert(v@.take(n as int) =~= v@);
        assert(old(v)@.take(n as int) =~= old(v)@);
    }
}

/// `f` may be handed any value of its argument type.
pub open spec fn key_fn_total<A, F: Fn(&A) -> &str>(f: F) -> bool {
    forall|x: A| #[trigger] call_requires(f, (&x,))
}

/// All returns of `f` on one value read the same text: `f` extracts a
/// key that depends on the value alone.
pub open spec fn key_fn_deterministic<A, F: Fn(&A) -> &str>(f: F) -> bool {
    forall|x: A, r1: &str, r2: &str|
        #[trigger] call_ensures(f, (&x,), r1) && #[trigger] call_ensures(f, (&x,), r2) ==> r1@
            == r2@
}

/// `f` can return a string reading `k` when handed `x`.
pub open spec fn returns_key<A, F: Fn(&A) -> &str>(f: F, x: A, k: Seq<char>) -> bool {
    exists|r: &str| #[trigger] call_ensures(f, (&x,), r) && r@ == k
}

/// `f` returns something on `x`.
pub open spec fn has_key<A, F: Fn(&A) -> &str>(f: F, x: A) -> bool {
    exists|k: Seq<char>| returns_key(f, x, k)
}

/// The key that `f` extracts from `x`.
pub open spec fn key_seq<A, F: Fn(&A) -> &str>(f: F, x: A) -> Seq<char> {
    choose|k: Seq<char>| returns_key(f, x, k)
}

/// Each element beside the key that `f` extracts from it.
pub open spec fn keyed<A, F: Fn(&A) -> &str>(f: F, s: Seq<A>) -> Seq<(Seq<char>, A)> {
    Seq::new(s.len(), |i: int| (key_seq(f, s[i]), s[i]))
}

/// The natural order on key-item view pairs, by key alone, turned
/// around when `rev` is set.
pub open spec fn keyed_le<A>(rev: bool) -> spec_fn((Seq<char>, A), (Seq<char>, A)) -> bool {
    if rev {
        |p: (Seq<char>, A), q: (Seq<char>, A)| text_le(q.0, p.0)
    } else {
        |p: (Seq<char>, A), q: (Seq<char>, A)| text_le(p.0, q.0)
    }
}

/// Every two elements stand in the natural order of their keys,
/// backwards when `rev` is set.
pub open spec fn sorted_by_keys<A, F: Fn(&A) -> &str>(f: F, s: Seq<A>, rev: bool) -> bool {
    forall|i: int, j: int|
        #![trigger s[i], s[j]]
        0 <= i < j < s.len() ==> if rev {
            text_le(key_seq(f, s[j]), key_seq(f, s[i]))
        } else {
            text_le(key_seq(f, s[i]), key_seq(f, s[j]))
        }
}

/// Sort by the text key that `f` extracts, keeping elements with equal
/// keys in their original order.
fn sort_by_text_key<A, F: Fn(&A) -> &str>(slice: &mut Vec<A>, f: F, rev: bool)
    requires
        key_fn_total(f),
        key_fn_deterministic(f),
    ensures
        final(slice)@ == stable_sorted(keyed(f, old(slice)@), keyed_le::<A>(rev)).map_values(
            pair_item::<Seq<char>, A>(),
        ),
        final(slice)@.to_multiset() == old(slice)@.to_multiset(),
        forall|i: int| 0 <= i < final(slice)@.len() ==> has_key(f, #[trigger] final(slice)@[i]),
        sorted_by_keys(f, final(slice)@, rev),
{
    let ghost orig = old(slice)@;
    let n = slice.len();
    let mut rest: Vec<A> = Vec::new();
    core::mem::swap(slice, &mut rest);
    let mut pairs: Vec<(TextKey, A)> = Vec::new();
    proof {
        assert(orig.skip(0) =~= orig);
    }
    while rest.len() > 0
        invariant
            key_fn_total(f),
            key_fn_deterministic(f),
            n == orig.len(),
            slice@.len() == 0,
            pairs@.len() + rest@.len() == n,
            rest@ == orig.skip(pairs@.len() as int),
            forall|j: int| 0 <= j < pairs@.len() ==> #[trigger] pairs@[j].1 == orig[j],
            forall|j: int|
                0 <= j < pairs@.len() ==> (#[trigger] pairs@[j].0).text@ == key_seq(f, orig[j]),
            forall|j: int| 0 <= j < pairs@.len() ==> has_key(f, #[trigger] orig[j]),
        decreases rest@.len(),
    {
        let ghost m = pairs@.len() as int;
        proof {
            assert(rest@[0] == orig.skip(m)[0]);
            assert(orig.skip(m)[0] == orig[m]);
        }
        let x = rest.remove(0);
        let k = f(&x);
        let key = TextKey { text: k.to_owned() };
        proof {
            assert(returns_key(f, x, k@));
            assert(has_key(f, x));
            let k0 = key_seq(f, x);
            assert(returns_key(f, x, k0));
            let r0 = choose|r: &str| #[trigger] call_ensures(f, (&x,), r) && r@ == k0;
            assert(call_ensures(f, (&x,), r0) && r0@ == k0);
            assert(k0 == k@);
            assert(rest@ =~= orig.skip(m + 1));
        }
        pairs.push((key, x));
    }
    let ghost pairs0 = pairs@;
    proof {
        assert(pairs0.len() == n);
    }
    sort_pairs(&mut pairs, rev);
    let ghost sorted_pairs = pairs@;
    proof {
        crate::sortspec::lemma_stable_sorted_len(pairs0, pair_le::<TextKey, A>(rev));
        assert(sorted_pairs.skip(0) =~= sorted_pairs);
    }
    while pairs.len() > 0
        invariant
            slice@.len() + pairs@.len() == n,
            sorted_pairs.len() == n,
            pairs@ == sorted_pairs.skip(slice@.len() as int),
            forall|j: int| 0 <= j < slice@.len() ==> #[trigger] slice@[j] == sorted_pairs[j].1,
        decreases pairs@.len(),
    {
        let ghost m = slice@.len() as int;
        proof {
            assert(pairs@[0] == sorted_pairs.skip(m)[0]);
            assert(sorted_pairs.skip(m)[0] == sorted_pairs[m]);
        }
        let p = pairs.remove(0);
        slice.push(p.1);
        proof {
            assert(pairs@ =~= sorted_pairs.skip(m + 1));
        }
    }
    proof {
        let ghost leq = pair_le::<TextKey, A>(rev);
        let ghost vleq = keyed_le::<A>(rev);
        let ghost g = |p: (TextKey, A)| (p.0.text@, p.1);
        let ghost snd = |p: (TextKey, A)| p.1;
        assert(sorted_pairs == stable_sorted(pairs0, leq));
        // the exec pairs viewed as key-item view pairs are exactly `keyed`
        assert(pairs0.map_values(g) =~= keyed(f, orig));
        // sorting the exec pairs is sorting the view pairs
        assert(forall|x: (TextKey, A), y: (TextKey, A)| #[trigger] leq(x, y) == vleq(g(x), g(y)));
        lemma_stable_sorted_map(pairs0, g, leq, vleq);
        // the slice holds the items of the sorted pairs
        assert(slice@ =~= sorted_pairs.map_values(snd));
        assert(slice@ =~= stable_sorted(keyed(f, orig), vleq).map_values(pair_item::<Seq<char>, A>())) by {
            assert(forall|j: int|
                0 <= j < n ==> #[trigger] stable_sorted(pairs0, leq).map_values(g)[j].1
                    == stable_sorted(pairs0, leq).map_values(snd)[j]);
            crate::sortspec::lemma_stable_sorted_len(pairs0, leq);
        }
        // the items, as a multiset, are the original items
        lemma_stable_sorted_map_multiset(pairs0, snd, leq);
        assert(pairs0.map_values(snd) =~= orig);
        assert(slice@.to_multiset() == orig.to_multiset());
        // every key travels beside its item
        let ghost inv = |p: (TextKey, A)| has_key(f, p.1) && p.0.text@ == key_seq(f, p.1);
        lemma_stable_sorted_all(pairs0, leq, inv);
        assert forall|i: int| 0 <= i < slice@.len() implies has_key(
            f,
            #[trigger] slice@[i],
        ) by {
            assert(inv(sorted_pairs[i]));
        }
        assert(sorted_by_keys(f, slice@, rev)) by {
            assert(sorted_under(sorted_pairs, leq));
            assert forall|i: int, j: int|
                #![trigger slice@[i], slice@[j]]
                0 <= i < j < slice@.len() implies if rev {
                text_le(key_seq(f, slice@[j]), key_seq(f, slice@[i]))
            } else {
                text_le(key_seq(f, slice@[i]), key_seq(f, slice@[j]))
            } by {
                assert(inv(sorted_pairs[i]) && inv(sorted_pairs[j]));
                assert(leq(sorted_pairs[i], sorted_pairs[j]));
            }
        }
    }
}

/// The key of a string is the string itself.
fn str_key_identity<'b, 'a>(s: &'b &'a str) -> (r: &'b str)
    ensures
        r == *s,
{
    *s
}

/// Sort a `str` slice.
pub fn sort_str_slice(slice: &mut Vec<&str>)
    ensures
        final(slice)@.to_multiset() == old(slice)@.to_multiset(),
        forall|i: int, j: int|
            #![trigger final(slice)@[i], final(slice)@[j]]
            0 <= i < j < final(slice)@.len() ==> text_le(final(slice)@[i]@, final(slice)@[j]@),
{
    sort_by_text_key(slice, str_key_identity, false);
    proof {
        assert forall|i: int, j: int|
            #![trigger slice@[i], slice@[j]]
            0 <= i < j < slice@.len() implies text_le(slice@[i]@, slice@[j]@) by {
            lemma_key_seq_of_identity(str_key_identity, slice@[i]);
            lemma_key_seq_of_identity(str_key_identity, slice@[j]);
        }
    }
}

/// Reversely sort a `str` slice.
pub fn sort_str_slice_rev(slice: &mut Vec<&str>)
    ensures
        final(slice)@.to_multiset() == old(slice)@.to_multiset(),
        forall|i: int, j: int|
            #![trigger final(slice)@[i], final(slice)@[j]]
            0 <= i < j < final(slice)@.len() ==> text_le(final(slice)@[j]@, final(slice)@[i]@),
{
    sort_by_text_key(slice, str_key_identity, true);
    proof {
        assert forall|i: int, j: int|
            #![trigger slice@[i], slice@[j]]
            0 <= i < j < slice@.len() implies text_le(slice@[j]@, slice@[i]@) by {
            lemma_key_seq_of_identity(str_key_identity, slice@[i]);
            lemma_key_seq_of_identity(str_key_identity, slice@[j]);
        }
    }
}

/// A key function that hands its argument back reads the argument's own
/// characters as the key.
proof fn lemma_key_seq_of_identity<'a, F: for<'b> Fn(&'b &'a str) -> &'b str>(f: F, x: &'a str)
    requires
        has_key(f, x),
        forall|y: &'a str, r: &str| #[trigger] call_ensures(f, (&y,), r) ==> r == y,
    ensures
        key_seq(f, x) == x@,
{
    assert(returns_key(f, x, key_seq(f, x)));
    let r = choose|r: &str| #[trigger] call_ensures(f, (&x,), r) && r@ == key_seq(f, x);
    assert(call_ensures(f, (&x,), r) && r@ == key_seq(f, x));
    assert(r == x);
}

/// Sort a slice by a `str` key.
pub fn sort_slice_by_str_key<A, F: Fn(&A) -> &str>(slice: &mut Vec<A>, f: F)
    requires
        key_fn_total(f),
        key_fn_deterministic(f),
    ensures
        final(slice)@ == stable_sorted(keyed(f, old(slice)@), keyed_le::<A>(false)).map_values(
            pair_item::<Seq<char>, A>(),
        ),
        final(slice)@.to_multiset() == old(slice)@.to_multiset(),
        sorted_by_keys(f, final(slice)@, false),
{
    sort_by_text_key(slice, f, false)
}

/// Sort a slice by a `str` key, but may not preserve the order of equal
/// elements.
pub fn sort_slice_unstable_by_str_key<A, F: Fn(&A) -> &str>(slice: &mut Vec<A>, f: F)
    requires
        key_fn_total(f),
        key_fn_deterministic(f),
    ensures
        final(slice)@.to_multiset() == old(slice)@.to_multiset(),
        sorted_by_keys(f, final(slice)@, false),
{
    sort_by_text_key(slice, f, false)
}

/// Reversely sort a slice by a `str` key.
pub fn sort_slice_rev_by_str_key<A, F: Fn(&A) -> &str>(slice: &mut Vec<A>, f: F)
    requires
        key_fn_total(f),
        key_fn_deterministic(f),
    ensures
        final(slice)@ == stable_sorted(keyed(f, old(slice)@), keyed_le::<A>(true)).map_values(
            pair_item::<Seq<char>, A>(),
        ),
        final(slice)@.to_multiset() == old(slice)@.to_multiset(),
        sorted_by_keys(f, final(slice)@, true),
{
    sort_by_text_key(slice, f, true)
}

/// Reversely sort a slice by a `str` key, but may not preserve the
/// order of equal elements.
pub fn sort_slice_rev_unstable_by_str_key<A, F: Fn(&A) -> &str>(slice: &mut Vec<A>, f: F)
    requires
        key_fn_total(f),
        key_fn_deterministic(f),
    ensures
        final(slice)@.to_multiset() == old(slice)@.to_multiset(),
        sorted_by_keys(f, final(slice)@, true),
{
    sort_by_text_key(slice, f, true)
}

} // verus!
