//! Raw byte identifiers: names, such as filesystem paths, that may or
//! may not decode as text. Identifiers that all decode compare in the
//! natural order of their text; otherwise plain byte order takes over,
//! uniformly, so that one sort never mixes the two orders.

use core::cmp::Ordering;
use vstd::prelude::*;
use vstd::string::StringSliceAdditionalSpecFns;
use vstd::utf8::decode_utf8;
use vstd::utf8::encode_utf8_decode_utf8;
use vstd::utf8::encode_utf8_valid_utf8;
use vstd::utf8::valid_utf8;

use crate::compare::compare_str;
use crate::compare::natural_cmp;
use crate::keysort::keyed_le;
use crate::keysort::pair_le;
use crate::keysort::sort_pairs;
use crate::keysort::text_le;
use crate::keysort::OrderedKey;
use crate::keysort::TextKey;
use crate::laws::mirror_ord;
use crate::sortspec::lemma_stable_sorted_all;
use crate::sortspec::lemma_stable_sorted_len;
use crate::sortspec::lemma_stable_sorted_map;
use crate::sortspec::lemma_stable_sorted_map_multiset;
use crate::sortspec::pair_item;
use crate::sortspec::sorted_under;
use crate::sortspec::stable_sorted;

verus! {

/// Plain unsigned lexicographic order on byte strings: the first
/// differing byte decides, and a strict prefix is less.
pub open spec fn bytes_cmp(x: Seq<u8>, y: Seq<u8>) -> Ordering
    decreases x.len(),
{
    if x.len() == 0 && y.len() == 0 {
        Ordering::Equal
    } else if x.len() == 0 {
        Ordering::Less
    } else if y.len() == 0 {
        Ordering::Greater
    } else if x[0] < y[0] {
        Ordering::Less
    } else if x[0] > y[0] {
        Ordering::Greater
    } else {
        bytes_cmp(x.drop_first(), y.drop_first())
    }
}

/// `x` sorts no later than `y` in plain byte order.
pub open spec fn bytes_le(x: Seq<u8>, y: Seq<u8>) -> bool {
    bytes_cmp(x, y) != Ordering::Greater
}

/// Reflexivity of the byte order.
pub proof fn lemma_bytes_cmp_reflexive(a: Seq<u8>)
    ensures
        bytes_cmp(a, a) == Ordering::Equal,
    decreases a.len(),
{
    if a.len() != 0 {
        lemma_bytes_cmp_reflexive(a.drop_first());
    }
}

/// Antisymmetry of the byte order.
pub proof fn lemma_bytes_cmp_antisymmetric(a: Seq<u8>, b: Seq<u8>)
    ensures
        bytes_cmp(a, b) == mirror_ord(bytes_cmp(b, a)),
    decreases a.len() + b.len(),
{
    if a.len() != 0 && b.len() != 0 && a[0] == b[0] {
        lemma_bytes_cmp_antisymmetric(a.drop_first(), b.drop_first());
    }
}

/// Transitivity of the byte order.
pub proof fn lemma_bytes_cmp_transitive(a: Seq<u8>, b: Seq<u8>, c: Seq<u8>)
    requires
        bytes_cmp(a, b) != Ordering::Greater,
        bytes_cmp(b, c) != Ordering::Greater,
    ensures
        bytes_cmp(a, c) != Ordering::Greater,
    decreases a.len() + b.len() + c.len(),
{
    if a.len() != 0 && b.len() != 0 && c.len() != 0 {
        if a[0] == b[0] && b[0] == c[0] {
            lemma_bytes_cmp_transitive(a.drop_first(), b.drop_first(), c.drop_first());
        }
    }
}

/// A raw identifier: a byte string, such as a filesystem path or an OS
/// level name, that need not be valid text.
#[derive(Debug, PartialEq, Eq, Clone)]
pub struct RawPath {
    bytes: Vec<u8>,
}

impl View for RawPath {
    type V = Seq<u8>;

    closed spec fn view(&self) -> Seq<u8> {
        self.bytes@
    }
}

impl RawPath {
    /// An identifier made of the given bytes.
    pub fn new(bytes: Vec<u8>) -> (r: RawPath)
        ensures
            r@ == bytes@,
    {
        RawPath { bytes }
    }

    /// An identifier carrying the given text, encoded.
    pub fn from_text(s: &str) -> (r: RawPath)
        ensures
            valid_utf8(r@),
            decode_utf8(r@) == s@,
    {
        proof {
            encode_utf8_valid_utf8(s@);
            encode_utf8_decode_utf8(s@);
        }
        RawPath { bytes: s.as_bytes_vec() }
    }

    /// The bytes of the identifier.
    pub fn bytes(&self) -> (r: &Vec<u8>)
        ensures
            r@ == self@,
    {
        &self.bytes
    }
}

/// Relies on `core::str::from_utf8`: it succeeds exactly on UTF-8 input,
/// and the returned string views the same bytes.
#[verifier::external_body]
fn utf8_to_str(v: &[u8]) -> (r: Option<&str>)
    ensures
        r is Some <==> valid_utf8(v@),
        match r {
            Some(s) => s.spec_bytes() == v@,
            None => true,
        },
{
    core::str::from_utf8(v).ok()
}

/// Decode a byte string: the decoded characters are what the bytes
/// encode.
fn decode_text(v: &[u8]) -> (r: Option<&str>)
    ensures
        match r {
            Some(s) => valid_utf8(v@) && s@ == decode_utf8(v@),
            None => !valid_utf8(v@),
        },
{
    let r = utf8_to_str(v);
    proof {
        if r is Some {
            let s = r->0;
            vstd::utf8::encode_utf8_decode_utf8(s@);
        }
    }
    r
}

/// Plain byte comparison of two byte strings.
fn compare_bytes(a: &Vec<u8>, b: &Vec<u8>) -> (r: Ordering)
    ensures
        r == bytes_cmp(a@, b@),
{
    let n_a = a.len();
    let n_b = b.len();
    let mut i: usize = 0;
    proof {
        assert(a@.skip(0) =~= a@);
        assert(b@.skip(0) =~= b@);
    }
    loop
        invariant
            i <= n_a,
            i <= n_b,
            n_a == a@.len(),
            n_b == b@.len(),
            bytes_cmp(a@, b@) == bytes_cmp(a@.skip(i as int), b@.skip(i as int)),
        decreases n_a - i,
    {
        let ghost ta = a@.skip(i as int);
        let ghost tb = b@.skip(i as int);
        if i == n_a {
            if i == n_b {
                return Ordering::Equal;
            } else {
                return Ordering::Less;
            }
        }
        if i == n_b {
            return Ordering::Greater;
        }
        let xa = a[i];
        let xb = b[i];
        proof {
            assert(ta[0] == xa && tb[0] == xb);
        }
        if xa < xb {
            return Ordering::Less;
        }
        if xa > xb {
            return Ordering::Greater;
        }
        proof {
            assert(ta.drop_first() =~= a@.skip(i as int + 1));
            assert(tb.drop_first() =~= b@.skip(i as int + 1));
        }
        i = i + 1;
    }
}

/// Where both identifiers decode as text, the natural order of their
/// text; where either does not, plain byte order.
pub open spec fn raw_cmp(a: Seq<u8>, b: Seq<u8>) -> Ordering {
    if valid_utf8(a) && valid_utf8(b) {
        natural_cmp(decode_utf8(a), decode_utf8(b))
    } else {
        bytes_cmp(a, b)
    }
}

/// Compare two raw identifiers.
pub fn compare_path(a: &RawPath, b: &RawPath) -> (r: Ordering)
    ensures
        r == raw_cmp(a@, b@),
{
    match decode_text(a.bytes.as_slice()) {
        Some(sa) => match decode_text(b.bytes.as_slice()) {
            Some(sb) => compare_str(sa, sb),
            None => compare_bytes(&a.bytes, &b.bytes),
        },
        None => compare_bytes(&a.bytes, &b.bytes),
    }
}

/// A byte string key, in plain byte order.
struct ByteKey {
    bytes: Vec<u8>,
}

impl OrderedKey for ByteKey {
    closed spec fn key_le(self, other: Self) -> bool {
        bytes_le(self.bytes@, other.bytes@)
    }

    proof fn lemma_key_le_total(x: Self, y: Self) {
        lemma_bytes_cmp_antisymmetric(x.bytes@, y.bytes@);
    }

    proof fn lemma_key_le_trans(x: Self, y: Self, z: Self) {
        lemma_bytes_cmp_transitive(x.bytes@, y.bytes@, z.bytes@);
    }

    fn key_le_exec(&self, other: &Self) -> (r: bool) {
        match compare_bytes(&self.bytes, &other.bytes) {
            Ordering::Greater => false,
            _ => true,
        }
    }
}

/// `f` may be handed any value of its argument type.
pub open spec fn raw_key_fn_total<A, F: Fn(&A) -> &RawPath>(f: F) -> bool {
    forall|x: A| #[trigger] call_requires(f, (&x,))
}

/// All returns of `f` on one value carry the same bytes: `f` extracts a
/// key that depends on the value alone.
pub open spec fn raw_key_fn_deterministic<A, F: Fn(&A) -> &RawPath>(f: F) -> bool {
    forall|x: A, r1: &RawPath, r2: &RawPath|
        #[trigger] call_ensures(f, (&x,), r1) && #[trigger] call_ensures(f, (&x,), r2) ==> r1@
            == r2@
}

/// `f` can return an identifier carrying `k` when handed `x`.
pub open spec fn returns_raw_key<A, F: Fn(&A) -> &RawPath>(f: F, x: A, k: Seq<u8>) -> bool {
    exists|r: &RawPath| #[trigger] call_ensures(f, (&x,), r) && r@ == k
}

/// `f` returns something on `x`.
pub open spec fn has_raw_key<A, F: Fn(&A) -> &RawPath>(f: F, x: A) -> bool {
    exists|k: Seq<u8>| returns_raw_key(f, x, k)
}

/// The bytes of the key that `f` extracts from `x`.
pub open spec fn raw_key_seq<A, F: Fn(&A) -> &RawPath>(f: F, x: A) -> Seq<u8> {
    choose|k: Seq<u8>| returns_raw_key(f, x, k)
}

/// Every element's key decodes as text.
pub open spec fn all_keys_text<A, F: Fn(&A) -> &RawPath>(f: F, s: Seq<A>) -> bool {
    forall|i: int| 0 <= i < s.len() ==> valid_utf8(raw_key_seq(f, #[trigger] s[i]))
}

/// Each element beside its key, decoded.
pub open spec fn raw_keyed_text<A, F: Fn(&A) -> &RawPath>(f: F, s: Seq<A>) -> Seq<
    (Seq<char>, A),
> {
    Seq::new(s.len(), |i: int| (decode_utf8(raw_key_seq(f, s[i])), s[i]))
}

/// Each element beside the bytes of its key.
pub open spec fn raw_keyed_bytes<A, F: Fn(&A) -> &RawPath>(f: F, s: Seq<A>) -> Seq<(Seq<u8>, A)> {
    Seq::new(s.len(), |i: int| (raw_key_seq(f, s[i]), s[i]))
}

/// The plain byte order on key-item view pairs, by key alone, turned
/// around when `rev` is set.
pub open spec fn bytes_keyed_le<A>(rev: bool) -> spec_fn((Seq<u8>, A), (Seq<u8>, A)) -> bool {
    if rev {
        |p: (Seq<u8>, A), q: (Seq<u8>, A)| bytes_le(q.0, p.0)
    } else {
        |p: (Seq<u8>, A), q: (Seq<u8>, A)| bytes_le(p.0, q.0)
    }
}

/// The order that one sort call applies between two elements: the
/// natural order of the decoded keys where every key decodes, plain
/// byte order of the keys otherwise.
pub open spec fn raw_key_le<A, F: Fn(&A) -> &RawPath>(f: F, x: A, y: A, text: bool) -> bool {
    if text {
        text_le(decode_utf8(raw_key_seq(f, x)), decode_utf8(raw_key_seq(f, y)))
    } else {
        bytes_le(raw_key_seq(f, x), raw_key_seq(f, y))
    }
}

/// Every two elements stand in the order of their keys, backwards when
/// `rev` is set.
pub open spec fn sorted_by_raw_keys<A, F: Fn(&A) -> &RawPath>(
    f: F,
    s: Seq<A>,
    rev: bool,
    text: bool,
) -> bool {
    forall|i: int, j: int|
        #![trigger s[i], s[j]]
        0 <= i < j < s.len() ==> if rev {
            raw_key_le(f, s[j], s[i], text)
        } else {
            raw_key_le(f, s[i], s[j], text)
        }
}

/// What one exec call of `f` says about the key of `x`.
proof fn lemma_raw_key_seq_is<A, F: Fn(&A) -> &RawPath>(f: F, x: A, r: &RawPath)
    requires
        raw_key_fn_deterministic(f),
        call_ensures(f, (&x,), r),
    ensures
        has_raw_key(f, x),
        raw_key_seq(f, x) == r@,
{
    assert(returns_raw_key(f, x, r@));
    let k0 = raw_key_seq(f, x);
    assert(returns_raw_key(f, x, k0));
    let r0 = choose|rr: &RawPath| #[trigger] call_ensures(f, (&x,), rr) && rr@ == k0;
    assert(call_ensures(f, (&x,), r0) && r0@ == k0);
}

/// Sort by the raw key that `f` extracts: in the natural order of the
/// decoded keys when every key decodes as text, else in plain byte
/// order, uniformly. Elements with equal keys keep their order.
fn sort_by_raw_key<A, F: Fn(&A) -> &RawPath>(slice: &mut Vec<A>, f: F, rev: bool)
    requires
        raw_key_fn_total(f),
        raw_key_fn_deterministic(f),
    ensures
        final(slice)@.to_multiset() == old(slice)@.to_multiset(),
        forall|i: int| 0 <= i < old(slice)@.len() ==> has_raw_key(f, #[trigger] old(slice)@[i]),
        forall|i: int| 0 <= i < final(slice)@.len() ==> has_raw_key(f, #[trigger] final(slice)@[i]),
        all_keys_text(f, old(slice)@) ==> final(slice)@ == stable_sorted(
            raw_keyed_text(f, old(slice)@),
            keyed_le::<A>(rev),
        ).map_values(pair_item::<Seq<char>, A>()),
        all_keys_text(f, old(slice)@) ==> sorted_by_raw_keys(f, final(slice)@, rev, true),
        !all_keys_text(f, old(slice)@) ==> final(slice)@ == stable_sorted(
            raw_keyed_bytes(f, old(slice)@),
            bytes_keyed_le::<A>(rev),
        ).map_values(pair_item::<Seq<u8>, A>()),
        !all_keys_text(f, old(slice)@) ==> sorted_by_raw_keys(f, final(slice)@, rev, false),
{
    let ghost orig = old(slice)@;
    let n = slice.len();
    let mut all_text = true;
    let mut i: usize = 0;
    while i < n
        invariant
            raw_key_fn_total(f),
            raw_key_fn_deterministic(f),
            i <= n,
            n == slice@.len(),
            slice@ == orig,
            forall|k: int| 0 <= k < i ==> has_raw_key(f, #[trigger] orig[k]),
            all_text <==> (forall|k: int|
                0 <= k < i ==> valid_utf8(raw_key_seq(f, #[trigger] orig[k]))),
        decreases n - i,
    {
        let rp = f(&slice[i]);
        proof {
            lemma_raw_key_seq_is(f, orig[i as int], rp);
        }
        if decode_text(rp.bytes.as_slice()).is_none() {
            all_text = false;
        }
        i = i + 1;
    }
    if all_text {
        let mut rest: Vec<A> = Vec::new();
        core::mem::swap(slice, &mut rest);
        let mut pairs: Vec<(TextKey, A)> = Vec::new();
        proof {
            assert(orig.skip(0) =~= orig);
        }
        while rest.len() > 0
            invariant
                raw_key_fn_total(f),
                raw_key_fn_deterministic(f),
                all_keys_text(f, orig),
                n == orig.len(),
                slice@.len() == 0,
                pairs@.len() + rest@.len() == n,
                rest@ == orig.skip(pairs@.len() as int),
                forall|j: int| 0 <= j < pairs@.len() ==> #[trigger] pairs@[j].1 == orig[j],
                forall|j: int|
                    0 <= j < pairs@.len() ==> (#[trigger] pairs@[j].0).text@ == decode_utf8(
                        raw_key_seq(f, orig[j]),
                    ),
                forall|j: int| 0 <= j < pairs@.len() ==> has_raw_key(f, #[trigger] orig[j]),
            decreases rest@.len(),
        {
            let ghost m = pairs@.len() as int;
            proof {
                assert(rest@[0] == orig.skip(m)[0]);
                assert(orig.skip(m)[0] == orig[m]);
            }
            let x = rest.remove(0);
            let rp = f(&x);
            proof {
                lemma_raw_key_seq_is(f, orig[m], rp);
            }
            let s = match decode_text(rp.bytes.as_slice()) {
                Some(s) => s,
                None => {
                    proof {
                        assert(false);
                    }
                    ""
                },
            };
            let key = TextKey { text: s.to_owned() };
            proof {
                assert(rest@ =~= orig.skip(m + 1));
            }
            pairs.push((key, x));
        }
        let ghost pairs0 = pairs@;
        sort_pairs(&mut pairs, rev);
        let ghost sorted_pairs = pairs@;
        proof {
            lemma_stable_sorted_len(pairs0, pair_le::<TextKey, A>(rev));
            assert(sorted_pairs.skip(0) =~= sorted_pairs);
        }
        while pairs.len() > 0
            invariant
                slice@.len() + pairs@.len() == n,
                sorted_pairs.len() == n,
                pairs@ == sorted_pairs.skip(slice@.len() as int),
                forall|j: int| 0 <= j < slice@.len() ==> #[trigger] slice@[j] == sorted_pairs[j].1,
            decreases pairs@.len(),
        {
            let ghost m = slice@.len() as int;
            proof {
                assert(pairs@[0] == sorted_pairs.skip(m)[0]);
                assert(sorted_pairs.skip(m)[0] == sorted_pairs[m]);
            }
            let p = pairs.remove(0);
            slice.push(p.1);
            proof {
                assert(pairs@ =~= sorted_pairs.skip(m + 1));
            }
        }
        proof {
            let leq = pair_le::<TextKey, A>(rev);
            let vleq = keyed_le::<A>(rev);
            let g = |p: (TextKey, A)| (p.0.text@, p.1);
            let snd = |p: (TextKey, A)| p.1;
            assert(sorted_pairs == stable_sorted(pairs0, leq));
            assert(pairs0.map_values(g) =~= raw_keyed_text(f, orig));
            assert(forall|x: (TextKey, A), y: (TextKey, A)| #[trigger] leq(x, y) == vleq(
                g(x),
                g(y),
            ));
            lemma_stable_sorted_map(pairs0, g, leq, vleq);
            assert(slice@ =~= sorted_pairs.map_values(snd));
            assert(slice@ =~= stable_sorted(raw_keyed_text(f, orig), vleq).map_values(
                pair_item::<Seq<char>, A>(),
            )) by {
                assert(forall|j: int|
                    0 <= j < n ==> #[trigger] stable_sorted(pairs0, leq).map_values(g)[j].1
                        == stable_sorted(pairs0, leq).map_values(snd)[j]);
                lemma_stable_sorted_len(pairs0, leq);
            }
            lemma_stable_sorted_map_multiset(pairs0, snd, leq);
            assert(pairs0.map_values(snd) =~= orig);
            assert(slice@.to_multiset() == orig.to_multiset());
            let inv = |p: (TextKey, A)|
                has_raw_key(f, p.1) && p.0.text@ == decode_utf8(raw_key_seq(f, p.1));
            lemma_stable_sorted_all(pairs0, leq, inv);
            assert forall|i2: int| 0 <= i2 < slice@.len() implies has_raw_key(
                f,
                #[trigger] slice@[i2],
            ) by {
                assert(inv(sorted_pairs[i2]));
            }
            assert(sorted_by_raw_keys(f, slice@, rev, true)) by {
                assert(sorted_under(sorted_pairs, leq));
                assert forall|i2: int, j2: int|
                    #![trigger slice@[i2], slice@[j2]]
                    0 <= i2 < j2 < slice@.len() implies if rev {
                    raw_key_le(f, slice@[j2], slice@[i2], true)
                } else {
                    raw_key_le(f, slice@[i2], slice@[j2], true)
                } by {
                    assert(inv(sorted_pairs[i2]) && inv(sorted_pairs[j2]));
                    assert(leq(sorted_pairs[i2], sorted_pairs[j2]));
                }
            }
        }
    } else {
        let mut rest: Vec<A> = Vec::new();
        core::mem::swap(slice, &mut rest);
        let mut pairs: Vec<(ByteKey, A)> = Vec::new();
        proof {
            assert(orig.skip(0) =~= orig);
        }
        while rest.len() > 0
            invariant
                raw_key_fn_total(f),
                raw_key_fn_deterministic(f),
                n == orig.len(),
                slice@.len() == 0,
                pairs@.len() + rest@.len() == n,
                rest@ == orig.skip(pairs@.len() as int),
                forall|j: int| 0 <= j < pairs@.len() ==> #[trigger] pairs@[j].1 == orig[j],
                forall|j: int|
                    0 <= j < pairs@.len() ==> (#[trigger] pairs@[j].0).bytes@ == raw_key_seq(
                        f,
                        orig[j],
                    ),
                forall|j: int| 0 <= j < pairs@.len() ==> has_raw_key(f, #[trigger] orig[j]),
            decreases rest@.len(),
        {
            let ghost m = pairs@.len() as int;
            proof {
                assert(rest@[0] == orig.skip(m)[0]);
                assert(orig.skip(m)[0] == orig[m]);
            }
            let x = rest.remove(0);
            let rp = f(&x);
            proof {
                lemma_raw_key_seq_is(f, orig[m], rp);
            }
            let key = ByteKey { bytes: vstd::slice::slice_to_vec(rp.bytes.as_slice()) };
            proof {
                assert(rest@ =~= orig.skip(m + 1));
            }
            pairs.push((key, x));
        }
        let ghost pairs0 = pairs@;
        sort_pairs(&mut pairs, rev);
        let ghost sorted_pairs = pairs@;
        proof {
            lemma_stable_sorted_len(pairs0, pair_le::<ByteKey, A>(rev));
            assert(sorted_pairs.skip(0) =~= sorted_pairs);
        }
        while pairs.len() > 0
            invariant
                slice@.len() + pairs@.len() == n,
                sorted_pairs.len() == n,
                pairs@ == sorted_pairs.skip(slice@.len() as int),
                forall|j: int| 0 <= j < slice@.len() ==> #[trigger] slice@[j] == sorted_pairs[j].1,
            decreases pairs@.len(),
        {
            let ghost m = slice@.len() as int;
            proof {
                assert(pairs@[0] == sorted_pairs.skip(m)[0]);
                assert(sorted_pairs.skip(m)[0] == sorted_pairs[m]);
            }
            let p = pairs.remove(0);
            slice.push(p.1);
            proof {
                assert(pairs@ =~= sorted_pairs.skip(m + 1));
            }
        }
        proof {
            let leq = pair_le::<ByteKey, A>(rev);
            let vleq = bytes_keyed_le::<A>(rev);
            let g = |p: (ByteKey, A)| (p.0.bytes@, p.1);
            let snd = |p: (ByteKey, A)| p.1;
            assert(sorted_pairs == stable_sorted(pairs0, leq));
            assert(pairs0.map_values(g) =~= raw_keyed_bytes(f, orig));
            assert(forall|x: (ByteKey, A), y: (ByteKey, A)| #[trigger] leq(x, y) == vleq(
                g(x),
                g(y),
            ));
            lemma_stable_sorted_map(pairs0, g, leq, vleq);
            assert(slice@ =~= sorted_pairs.map_values(snd));
            assert(slice@ =~= stable_sorted(raw_keyed_bytes(f, orig), vleq).map_values(
                pair_item::<Seq<u8>, A>(),
            )) by {
                assert(forall|j: int|
                    0 <= j < n ==> #[trigger] stable_sorted(pairs0, leq).map_values(g)[j].1
                        == stable_sorted(pairs0, leq).map_values(snd)[j]);
                lemma_stable_sorted_len(pairs0, leq);
            }
            lemma_stable_sorted_map_multiset(pairs0, snd, leq);
            assert(pairs0.map_values(snd) =~= orig);
            assert(slice@.to_multiset() == orig.to_multiset());
            let inv = |p: (ByteKey, A)|
                has_raw_key(f, p.1) && p.0.bytes@ == raw_key_seq(f, p.1);
            lemma_stable_sorted_all(pairs0, leq, inv);
            assert forall|i2: int| 0 <= i2 < slice@.len() implies has_raw_key(
                f,
                #[trigger] slice@[i2],
            ) by {
                assert(inv(sorted_pairs[i2]));
            }
            assert(sorted_by_raw_keys(f, slice@, rev, false)) by {
                assert(sorted_under(sorted_pairs, leq));
                assert forall|i2: int, j2: int|
                    #![trigger slice@[i2], slice@[j2]]
                    0 <= i2 < j2 < slice@.len() implies if rev {
                    raw_key_le(f, slice@[j2], slice@[i2], false)
                } else {
                    raw_key_le(f, slice@[i2], slice@[j2], false)
                } by {
                    assert(inv(sorted_pairs[i2]) && inv(sorted_pairs[j2]));
                    assert(leq(sorted_pairs[i2], sorted_pairs[j2]));
                }
            }
        }
    }
}

/// Sort a slice by a raw identifier key.
pub fn sort_slice_by_path_key<A, F: Fn(&A) -> &RawPath>(slice: &mut Vec<A>, f: F)
    requires
        raw_key_fn_total(f),
        raw_key_fn_deterministic(f),
    ensures
        final(slice)@.to_multiset() == old(slice)@.to_multiset(),
        all_keys_text(f, old(slice)@) ==> final(slice)@ == stable_sorted(
            raw_keyed_text(f, old(slice)@),
            keyed_le::<A>(false),
        ).map_values(pair_item::<Seq<char>, A>()),
        all_keys_text(f, old(slice)@) ==> sorted_by_raw_keys(f, final(slice)@, false, true),
        !all_keys_text(f, old(slice)@) ==> final(slice)@ == stable_sorted(
            raw_keyed_bytes(f, old(slice)@),
            bytes_keyed_le::<A>(false),
        ).map_values(pair_item::<Seq<u8>, A>()),
        !all_keys_text(f, old(slice)@) ==> sorted_by_raw_keys(f, final(slice)@, false, false),
{
    sort_by_raw_key(slice, f, false)
}

/// Sort a slice by a raw identifier key, but may not preserve the order
/// of equal elements.
pub fn sort_slice_unstable_by_path_key<A, F: Fn(&A) -> &RawPath>(slice: &mut Vec<A>, f: F)
    requires
        raw_key_fn_total(f),
        raw_key_fn_deterministic(f),
    ensures
        final(slice)@.to_multiset() == old(slice)@.to_multiset(),
        all_keys_text(f, old(slice)@) ==> sorted_by_raw_keys(f, final(slice)@, false, true),
        !all_keys_text(f, old(slice)@) ==> sorted_by_raw_keys(f, final(slice)@, false, false),
{
    sort_by_raw_key(slice, f, false)
}

/// Reversely sort a slice by a raw identifier key.
pub fn sort_slice_rev_by_path_key<A, F: Fn(&A) -> &RawPath>(slice: &mut Vec<A>, f: F)
    requires
        raw_key_fn_total(f),
        raw_key_fn_deterministic(f),
    ensures
        final(slice)@.to_multiset() == old(slice)@.to_multiset(),
        all_keys_text(f, old(slice)@) ==> final(slice)@ == stable_sorted(
            raw_keyed_text(f, old(slice)@),
            keyed_le::<A>(true),
        ).map_values(pair_item::<Seq<char>, A>()),
        all_keys_text(f, old(slice)@) ==> sorted_by_raw_keys(f, final(slice)@, true, true),
        !all_keys_text(f, old(slice)@) ==> final(slice)@ == stable_sorted(
            raw_keyed_bytes(f, old(slice)@),
            bytes_keyed_le::<A>(true),
        ).map_values(pair_item::<Seq<u8>, A>()),
        !all_keys_text(f, old(slice)@) ==> sorted_by_raw_keys(f, final(slice)@, true, false),
{
    sort_by_raw_key(slice, f, true)
}

/// Reversely sort a slice by a raw identifier key, but may not preserve
/// the order of equal elements.
pub fn sort_slice_rev_unstable_by_path_key<A, F: Fn(&A) -> &RawPath>(slice: &mut Vec<A>, f: F)
    requires
        raw_key_fn_total(f),
        raw_key_fn_deterministic(f),
    ensures
        final(slice)@.to_multiset() == old(slice)@.to_multiset(),
        all_keys_text(f, old(slice)@) ==> sorted_by_raw_keys(f, final(slice)@, true, true),
        !all_keys_text(f, old(slice)@) ==> sorted_by_raw_keys(f, final(slice)@, true, false),
{
    sort_by_raw_key(slice, f, true)
}

/// The key of a raw identifier is the identifier itself.
fn path_key_identity<'b>(p: &'b RawPath) -> (r: &'b RawPath)
    ensures
        r == p,
{
    p
}

/// A key function that hands its argument back reads the argument's own
/// bytes as the key.
proof fn lemma_raw_key_seq_of_identity<F: Fn(&RawPath) -> &RawPath>(f: F, x: RawPath)
    requires
        has_raw_key(f, x),
        forall|y: RawPath, r: &RawPath| #[trigger] call_ensures(f, (&y,), r) ==> r@ == y@,
    ensures
        raw_key_seq(f, x) == x@,
{
    assert(returns_raw_key(f, x, raw_key_seq(f, x)));
    let r = choose|r: &RawPath| #[trigger] call_ensures(f, (&x,), r) && r@ == raw_key_seq(f, x);
    assert(call_ensures(f, (&x,), r) && r@ == raw_key_seq(f, x));
}

/// Sort a slice of raw identifiers: in the natural order of their text
/// when all of them decode, else in plain byte order, uniformly.
pub fn sort_path_slice(slice: &mut Vec<RawPath>)
    ensures
        final(slice)@.to_multiset() == old(slice)@.to_multiset(),
        (forall|k: int| 0 <= k < old(slice)@.len() ==> valid_utf8(#[trigger] old(slice)@[k]@))
            ==> forall|i: int, j: int|
            #![trigger final(slice)@[i], final(slice)@[j]]
            0 <= i < j < final(slice)@.len() ==> text_le(
                decode_utf8(final(slice)@[i]@),
                decode_utf8(final(slice)@[j]@),
            ),
        !(forall|k: int| 0 <= k < old(slice)@.len() ==> valid_utf8(#[trigger] old(slice)@[k]@))
            ==> forall|i: int, j: int|
            #![trigger final(slice)@[i], final(slice)@[j]]
            0 <= i < j < final(slice)@.len() ==> bytes_le(final(slice)@[i]@, final(slice)@[j]@),
{
    let ghost orig = old(slice)@;
    sort_by_raw_key(slice, path_key_identity, false);
    proof {
        lemma_path_slice_order(orig, slice@);
    }
}

/// Reversely sort a slice of raw identifiers.
pub fn sort_path_slice_rev(slice: &mut Vec<RawPath>)
    ensures
        final(slice)@.to_multiset() == old(slice)@.to_multiset(),
        (forall|k: int| 0 <= k < old(slice)@.len() ==> valid_utf8(#[trigger] old(slice)@[k]@))
            ==> forall|i: int, j: int|
            #![trigger final(slice)@[i], final(slice)@[j]]
            0 <= i < j < final(slice)@.len() ==> text_le(
                decode_utf8(final(slice)@[j]@),
                decode_utf8(final(slice)@[i]@),
            ),
        !(forall|k: int| 0 <= k < old(slice)@.len() ==> valid_utf8(#[trigger] old(slice)@[k]@))
            ==> forall|i: int, j: int|
            #![trigger final(slice)@[i], final(slice)@[j]]
            0 <= i < j < final(slice)@.len() ==> bytes_le(final(slice)@[j]@, final(slice)@[i]@),
{
    let ghost orig = old(slice)@;
    sort_by_raw_key(slice, path_key_identity, true);
    proof {
        lemma_path_slice_order(orig, slice@);
    }
}

/// Translate key facts of the identity key function into facts on the
/// identifiers themselves.
proof fn lemma_path_slice_order(orig: Seq<RawPath>, fin: Seq<RawPath>)
    requires
        forall|i: int| 0 <= i < orig.len() ==> has_raw_key(path_key_identity, #[trigger] orig[i]),
        forall|i: int| 0 <= i < fin.len() ==> has_raw_key(path_key_identity, #[trigger] fin[i]),
    ensures
        all_keys_text(path_key_identity, orig) <==> (forall|k: int|
            0 <= k < orig.len() ==> valid_utf8(#[trigger] orig[k]@)),
        forall|i: int|
            0 <= i < fin.len() ==> raw_key_seq(path_key_identity, #[trigger] fin[i]) == fin[i]@,
{
    assert forall|i: int| 0 <= i < orig.len() implies raw_key_seq(
        path_key_identity,
        #[trigger] orig[i],
    ) == orig[i]@ by {
        lemma_raw_key_seq_of_identity(path_key_identity, orig[i]);
    }
    assert forall|i: int| 0 <= i < fin.len() implies raw_key_seq(
        path_key_identity,
        #[trigger] fin[i],
    ) == fin[i]@ by {
        lemma_raw_key_seq_of_identity(path_key_identity, fin[i]);
    }
}

} // verus!
