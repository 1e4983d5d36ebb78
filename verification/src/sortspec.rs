//! A stable insertion sort at the specification level: the unique
//! result of sorting under a total preorder while keeping elements that
//! compare equal in their original relative order.

use vstd::prelude::*;
use vstd::seq_lib::lemma_multiset_commutative;

verus! {

/// `leq` relates every pair in at least one direction.
pub open spec fn total_relation<T>(leq: spec_fn(T, T) -> bool) -> bool {
    forall|x: T, y: T| #[trigger] leq(x, y) || #[trigger] leq(y, x)
}

/// `leq` composes.
pub open spec fn transitive_relation<T>(leq: spec_fn(T, T) -> bool) -> bool {
    forall|x: T, y: T, z: T| #[trigger] leq(x, y) && #[trigger] leq(y, z) ==> leq(x, z)
}

/// Every earlier element is `leq` every later one.
pub open spec fn sorted_under<T>(s: Seq<T>, leq: spec_fn(T, T) -> bool) -> bool {
    forall|i: int, j: int| 0 <= i < j < s.len() ==> leq(s[i], s[j])
}

/// The first position of `s` whose element is not `leq x`: the stable
/// place for `x`, behind everything that compares equal to it.
pub open spec fn stable_insert_pos<T>(s: Seq<T>, x: T, leq: spec_fn(T, T) -> bool) -> int
    decreases s.len(),
{
    if s.len() == 0 {
        0
    } else if leq(s[0], x) {
        1 + stable_insert_pos(s.drop_first(), x, leq)
    } else {
        0
    }
}

/// Insertion sort: each element in turn is placed behind the already
/// placed elements that are `leq` it.
pub open spec fn stable_sorted<T>(s: Seq<T>, leq: spec_fn(T, T) -> bool) -> Seq<T>
    decreases s.len(),
{
    if s.len() == 0 {
        s
    } else {
        let prev = stable_sorted(s.drop_last(), leq);
        prev.insert(stable_insert_pos(prev, s.last(), leq), s.last())
    }
}

pub proof fn lemma_insert_pos_bounds<T>(s: Seq<T>, x: T, leq: spec_fn(T, T) -> bool)
    ensures
        0 <= stable_insert_pos(s, x, leq) <= s.len(),
    decreases s.len(),
{
    if s.len() != 0 && leq(s[0], x) {
        lemma_insert_pos_bounds(s.drop_first(), x, leq);
    }
}

/// Everything before the insertion position is `leq x`, and the element
/// at the position, if any, is not.
pub proof fn lemma_insert_pos_spec<T>(s: Seq<T>, x: T, leq: spec_fn(T, T) -> bool)
    ensures
        forall|k: int| 0 <= k < stable_insert_pos(s, x, leq) ==> leq(s[k], x),
        stable_insert_pos(s, x, leq) < s.len() ==> !leq(s[stable_insert_pos(s, x, leq)], x),
    decreases s.len(),
{
    lemma_insert_pos_bounds(s, x, leq);
    if s.len() != 0 && leq(s[0], x) {
        lemma_insert_pos_bounds(s.drop_first(), x, leq);
        lemma_insert_pos_spec(s.drop_first(), x, leq);
        let p = stable_insert_pos(s, x, leq);
        assert forall|k: int| 0 <= k < p implies leq(s[k], x) by {
            if k > 0 {
                assert(s.drop_first()[k - 1] == s[k]);
            }
        }
        if p < s.len() {
            assert(!leq(s.drop_first()[p - 1], x));
            assert(s.drop_first()[p - 1] == s[p]);
        }
    }
}

/// A scan that passed every element `leq x` and stopped at the first
/// other one found the insertion position.
pub proof fn lemma_insert_pos_of_scan<T>(s: Seq<T>, x: T, leq: spec_fn(T, T) -> bool, p: int)
    requires
        0 <= p <= s.len(),
        forall|k: int| 0 <= k < p ==> leq(s[k], x),
        p < s.len() ==> !leq(s[p], x),
    ensures
        stable_insert_pos(s, x, leq) == p,
    decreases s.len(),
{
    if s.len() != 0 {
        if p == 0 {
        } else {
            assert(leq(s[0], x));
            lemma_insert_pos_of_scan(s.drop_first(), x, leq, p - 1);
        }
    }
}

pub proof fn lemma_stable_sorted_len<T>(s: Seq<T>, leq: spec_fn(T, T) -> bool)
    ensures
        stable_sorted(s, leq).len() == s.len(),
    decreases s.len(),
{
    if s.len() != 0 {
        lemma_stable_sorted_len(s.drop_last(), leq);
        let prev = stable_sorted(s.drop_last(), leq);
        lemma_insert_pos_bounds(prev, s.last(), leq);
    }
}

/// Sorting keeps exactly the elements of the input.
pub proof fn lemma_stable_sorted_multiset<T>(s: Seq<T>, leq: spec_fn(T, T) -> bool)
    ensures
        stable_sorted(s, leq).to_multiset() == s.to_multiset(),
    decreases s.len(),
{
    if s.len() != 0 {
        lemma_stable_sorted_multiset(s.drop_last(), leq);
        let prev = stable_sorted(s.drop_last(), leq);
        let x = s.last();
        let p = stable_insert_pos(prev, x, leq);
        lemma_insert_pos_bounds(prev, x, leq);
        lemma_seq_insert_multiset(prev, p, x);
        assert(s.drop_last().push(x) =~= s);
        s.drop_last().to_multiset_ensures();
    }
}

/// Inserting anywhere adds one occurrence to the multiset.
pub proof fn lemma_seq_insert_multiset<T>(s: Seq<T>, p: int, x: T)
    requires
        0 <= p <= s.len(),
    ensures
        s.insert(p, x).to_multiset() == s.to_multiset().insert(x),
{
    let left = s.take(p);
    let right = s.skip(p);
    assert(s.insert(p, x) =~= left.push(x) + right);
    assert(s =~= left + right);
    lemma_multiset_commutative(left.push(x), right);
    lemma_multiset_commutative(left, right);
    left.to_multiset_ensures();
    assert(left.push(x).to_multiset() =~= left.to_multiset().insert(x));
    assert(s.insert(p, x).to_multiset() =~= s.to_multiset().insert(x));
}

/// Under a total and transitive relation the result is sorted.
pub proof fn lemma_stable_sorted_sorted<T>(s: Seq<T>, leq: spec_fn(T, T) -> bool)
    requires
        total_relation(leq),
        transitive_relation(leq),
    ensures
        sorted_under(stable_sorted(s, leq), leq),
    decreases s.len(),
{
    if s.len() != 0 {
        lemma_stable_sorted_sorted(s.drop_last(), leq);
        let prev = stable_sorted(s.drop_last(), leq);
        let x = s.last();
        let p = stable_insert_pos(prev, x, leq);
        lemma_insert_pos_bounds(prev, x, leq);
        lemma_insert_pos_spec(prev, x, leq);
        let out = prev.insert(p, x);
        assert forall|i: int, j: int| 0 <= i < j < out.len() implies leq(out[i], out[j]) by {
            assert(forall|k: int| 0 <= k < p ==> out[k] == prev[k]);
            assert(forall|k: int| p < k < out.len() ==> out[k] == prev[k - 1]);
            assert(out[p] == x);
            if i < p && j == p {
            } else if i == p && j > p {
                // x goes before prev[j - 1]: the element at the position
                // is not leq x, so x is leq it, and it is leq what follows
                assert(!leq(prev[p], x));
                assert(leq(x, prev[p]));
                if j - 1 > p {
                    assert(leq(prev[p], prev[j - 1]));
                }
            } else if i < p && j > p {
                assert(leq(prev[i], prev[j - 1]));
            }
        }
    }
}

pub proof fn lemma_stable_sorted_singleton<T>(s: Seq<T>, leq: spec_fn(T, T) -> bool)
    requires
        s.len() == 1,
    ensures
        stable_sorted(s, leq) == s,
{
    assert(s.drop_last() =~= Seq::<T>::empty());
    let prev = stable_sorted(s.drop_last(), leq);
    assert(prev == s.drop_last());
    assert(stable_insert_pos(prev, s.last(), leq) == 0);
    assert(prev.insert(0, s.last()) =~= s);
}

/// Sorting something already sorted changes nothing.
pub proof fn lemma_stable_sorted_idempotent<T>(s: Seq<T>, leq: spec_fn(T, T) -> bool)
    requires
        sorted_under(s, leq),
    ensures
        stable_sorted(s, leq) == s,
    decreases s.len(),
{
    if s.len() != 0 {
        assert(sorted_under(s.drop_last(), leq)) by {
            assert(forall|k: int| 0 <= k < s.len() - 1 ==> s.drop_last()[k] == s[k]);
        }
        lemma_stable_sorted_idempotent(s.drop_last(), leq);
        let prev = s.drop_last();
        let x = s.last();
        lemma_insert_pos_of_scan(prev, x, leq, prev.len() as int);
        assert(prev.insert(prev.len() as int, x) =~= s);
    }
}

/// The item of a key-item pair.
pub open spec fn pair_item<K, A>() -> spec_fn((K, A)) -> A {
    |p: (K, A)| p.1
}

/// Sorting keeps any property that all elements had.
pub proof fn lemma_stable_sorted_all<T>(
    s: Seq<T>,
    leq: spec_fn(T, T) -> bool,
    inv: spec_fn(T) -> bool,
)
    requires
        forall|k: int| 0 <= k < s.len() ==> inv(s[k]),
    ensures
        forall|k: int|
            0 <= k < stable_sorted(s, leq).len() ==> inv(#[trigger] stable_sorted(s, leq)[k]),
    decreases s.len(),
{
    if s.len() != 0 {
        assert(forall|k: int| 0 <= k < s.len() - 1 ==> inv(#[trigger] s.drop_last()[k]));
        lemma_stable_sorted_all(s.drop_last(), leq, inv);
        let prev = stable_sorted(s.drop_last(), leq);
        let x = s.last();
        let p = stable_insert_pos(prev, x, leq);
        lemma_insert_pos_bounds(prev, x, leq);
        let out = prev.insert(p, x);
        assert forall|k: int| 0 <= k < out.len() implies inv(out[k]) by {
            if k < p {
                assert(out[k] == prev[k]);
            } else if k == p {
                assert(out[k] == x);
            } else {
                assert(out[k] == prev[k - 1]);
            }
        }
    }
}

/// The images of the sorted elements are, as a multiset, the images of
/// the original elements.
pub proof fn lemma_stable_sorted_map_multiset<T, U>(
    s: Seq<T>,
    g: spec_fn(T) -> U,
    leq: spec_fn(T, T) -> bool,
)
    ensures
        stable_sorted(s, leq).map_values(g).to_multiset() == s.map_values(g).to_multiset(),
    decreases s.len(),
{
    if s.len() == 0 {
    } else {
        lemma_stable_sorted_map_multiset(s.drop_last(), g, leq);
        let prev = stable_sorted(s.drop_last(), leq);
        let x = s.last();
        let p = stable_insert_pos(prev, x, leq);
        lemma_insert_pos_bounds(prev, x, leq);
        lemma_seq_insert_map(prev, p, x, g);
        lemma_stable_sorted_len(s.drop_last(), leq);
        lemma_seq_insert_multiset(prev.map_values(g), p, g(x));
        assert(s.map_values(g) =~= s.drop_last().map_values(g).push(g(x)));
        s.drop_last().map_values(g).to_multiset_ensures();
    }
}

/// Idempotence of sorting: sorting what a sort produced, under the same
/// relation, yields the identical sequence.
pub proof fn lemma_sort_idempotent<T>(s: Seq<T>, leq: spec_fn(T, T) -> bool)
    requires
        total_relation(leq),
        transitive_relation(leq),
    ensures
        stable_sorted(stable_sorted(s, leq), leq) == stable_sorted(s, leq),
{
    lemma_stable_sorted_sorted(s, leq);
    lemma_stable_sorted_idempotent(stable_sorted(s, leq), leq);
}

/// Sorting commutes with mapping the elements, when the relation on the
/// images agrees with the relation on the sources.
pub proof fn lemma_stable_sorted_map<T, U>(
    s: Seq<T>,
    g: spec_fn(T) -> U,
    leq_t: spec_fn(T, T) -> bool,
    leq_u: spec_fn(U, U) -> bool,
)
    requires
        forall|x: T, y: T| #[trigger] leq_t(x, y) == leq_u(g(x), g(y)),
    ensures
        stable_sorted(s, leq_t).map_values(g) == stable_sorted(s.map_values(g), leq_u),
    decreases s.len(),
{
    if s.len() == 0 {
        assert(s.map_values(g) =~= Seq::<U>::empty());
    } else {
        lemma_stable_sorted_map(s.drop_last(), g, leq_t, leq_u);
        let prev = stable_sorted(s.drop_last(), leq_t);
        let x = s.last();
        let p = stable_insert_pos(prev, x, leq_t);
        lemma_insert_pos_bounds(prev, x, leq_t);
        lemma_insert_pos_map(prev, x, g, leq_t, leq_u);
        assert(s.map_values(g).drop_last() =~= s.drop_last().map_values(g));
        assert(s.map_values(g).last() == g(x));
        lemma_seq_insert_map(prev, p, x, g);
    }
}

proof fn lemma_insert_pos_map<T, U>(
    s: Seq<T>,
    x: T,
    g: spec_fn(T) -> U,
    leq_t: spec_fn(T, T) -> bool,
    leq_u: spec_fn(U, U) -> bool,
)
    requires
        forall|x: T, y: T| #[trigger] leq_t(x, y) == leq_u(g(x), g(y)),
    ensures
        stable_insert_pos(s.map_values(g), g(x), leq_u) == stable_insert_pos(s, x, leq_t),
    decreases s.len(),
{
    if s.len() != 0 {
        assert(s.map_values(g)[0] == g(s[0]));
        if leq_t(s[0], x) {
            lemma_insert_pos_map(s.drop_first(), x, g, leq_t, leq_u);
            assert(s.map_values(g).drop_first() =~= s.drop_first().map_values(g));
        }
    }
}

proof fn lemma_seq_insert_map<T, U>(s: Seq<T>, p: int, x: T, g: spec_fn(T) -> U)
    requires
        0 <= p <= s.len(),
    ensures
        s.insert(p, x).map_values(g) == s.map_values(g).insert(p, g(x)),
{
    assert(s.insert(p, x).map_values(g) =~= s.map_values(g).insert(p, g(x)));
}

} // verus!
