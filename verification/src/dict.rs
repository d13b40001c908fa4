//! The ordered dictionary: an associative sequence of key/value pairs
//! that is kept in ascending byte-lexicographic key order at all times,
//! so that equality and re-encoding never depend on insertion order.

use vstd::prelude::*;
use crate::bytes::{lex_le, lex_le_bytes};
use crate::value::{model_pairs, SpecValue, Value};

verus! {

/// True when the keys of `pairs` are in ascending lexicographic order.
pub open spec fn sorted_pair_keys(pairs: Seq<(Seq<u8>, SpecValue)>) -> bool {
    forall|i: int, j: int|
        0 <= i < j < pairs.len() ==> lex_le(#[trigger] pairs[i].0, #[trigger] pairs[j].0)
}

/// Where a pair lands when added to a run of pairs: after every key
/// not above its own, so that equal keys keep their arrival order.
pub open spec fn spec_insert_pair(
    pairs: Seq<(Seq<u8>, SpecValue)>,
    p: (Seq<u8>, SpecValue),
) -> Seq<(Seq<u8>, SpecValue)>
    decreases pairs.len(),
{
    if pairs.len() == 0 {
        seq![p]
    } else if lex_le(pairs.last().0, p.0) {
        pairs.push(p)
    } else {
        spec_insert_pair(pairs.drop_last(), p).push(pairs.last())
    }
}

/// The pairs of a dictionary after a bulk load: each pair inserted in
/// turn at its ordered position.
pub open spec fn spec_sort_pairs(pairs: Seq<(Seq<u8>, SpecValue)>) -> Seq<(Seq<u8>, SpecValue)>
    decreases pairs.len(),
{
    if pairs.len() == 0 {
        pairs
    } else {
        spec_insert_pair(spec_sort_pairs(pairs.drop_last()), pairs.last())
    }
}

/// An associative container of byte-string keys and [`Value`]s whose
/// pairs are in ascending key order after every operation.
///
/// Duplicate keys are not rejected: a pair with a key already present
/// is kept, directly after the pairs that share its key.
#[derive(Debug, PartialEq, Eq)]
pub struct Dict {
    data: Vec<(Vec<u8>, Value)>,
}

impl Dict {
    /// The mathematical model: the key/value pairs, in order.
    pub closed spec fn model(self) -> Seq<(Seq<u8>, SpecValue)>
        decreases self,
    {
        model_pairs(self.data@)
    }

    #[verifier::type_invariant]
    spec fn inv(self) -> bool {
        sorted_pair_keys(self.model())
    }

    /// How many pairs the dictionary holds.
    pub fn len(&self) -> (n: usize)
        ensures
            n == self.model().len(),
    {
        proof {
            crate::value::lemma_model_pairs(self.data@);
        }
        self.data.len()
    }

    /// Constructs an empty dictionary.
    pub fn new() -> (d: Self)
        ensures
            d.model() == Seq::<(Seq<u8>, SpecValue)>::empty(),
    {
        let d = Dict { data: Vec::new() };
        proof {
            assert(d.model() =~= Seq::<(Seq<u8>, SpecValue)>::empty());
        }
        d
    }

    /// Constructs an empty dictionary with room for `capacity` pairs.
    pub fn with_capacity(capacity: usize) -> (d: Self)
        ensures
            d.model() == Seq::<(Seq<u8>, SpecValue)>::empty(),
    {
        let d = Dict { data: Vec::with_capacity(capacity) };
        proof {
            assert(d.model() =~= Seq::<(Seq<u8>, SpecValue)>::empty());
        }
        d
    }

    /// Adds a pair at its ordered position, after any pairs whose key
    /// is not above the new one.
    pub fn push(&mut self, key: Vec<u8>, value: Value)
        ensures
            final(self).model() == spec_insert_pair(old(self).model(), (key@, value.model())),
    {
        proof {
            use_type_invariant(&*self);
        }
        let mut data: Vec<(Vec<u8>, Value)> = Vec::new();
        core::mem::swap(&mut data, &mut self.data);
        let data = insert_pair_vec(data, key, value);
        proof {
            lemma_spec_insert_sorted(model_pairs(old(self).data@), (key@, value.model()));
        }
        self.data = data;
    }

    /// Restores ascending key order. Pairs are kept sorted on every
    /// mutation, so by content this is a no-op; it is retained so that
    /// callers may sort explicitly after a bulk load.
    pub fn ben_sort(&mut self)
        ensures
            final(self).model() == old(self).model(),
    {
    }

    /// Constructs a dictionary from pairs already in ascending key order.
    pub(crate) fn from_sorted(data: Vec<(Vec<u8>, Value)>) -> (d: Self)
        requires
            sorted_pair_keys(model_pairs(data@)),
        ensures
            d.model() == model_pairs(data@),
    {
        Dict { data }
    }

    /// The pair at position `i`, in ascending key order.
    pub fn pair_at(&self, i: usize) -> (p: &(Vec<u8>, Value))
        requires
            i < self.model().len(),
        ensures
            p.0@ == self.model()[i as int].0,
            p.1.model() == self.model()[i as int].1,
    {
        proof {
            crate::value::lemma_model_pairs(self.data@);
        }
        &self.data[i]
    }
}

/// Appends the encodings of the pairs of `d` from position `i` on:
/// each key as a byte-string frame, then its value.
pub(crate) fn encode_pairs_onto(d: &Dict, i: usize, out: &mut Vec<u8>)
    requires
        i <= d.model().len(),
    ensures
        final(out)@ == old(out)@ + crate::ser::spec_encode_pairs(d.model().skip(i as int)),
    decreases *d, d.model().len() - i,
{
    proof {
        crate::value::lemma_model_pairs(d.data@);
    }
    let ghost m = d.model();
    if i == d.data.len() {
        proof {
            assert(m.skip(i as int) =~= Seq::<(Seq<u8>, SpecValue)>::empty());
            assert(out@ =~= old(out)@ + crate::ser::spec_encode_pairs(m.skip(i as int)));
        }
    } else {
        crate::ser::append_bytes_frame(out, d.data[i].0.as_slice());
        crate::ser::encode_value(&d.data[i].1, out);
        encode_pairs_onto(d, i + 1, out);
        proof {
            assert(m.skip(i as int)[0] == m[i as int]);
            assert(m.skip(i as int).drop_first() =~= m.skip(i + 1 as int));
            assert(out@ =~= old(out)@ + crate::ser::spec_encode_pairs(m.skip(i as int)));
        }
    }
}

/// Adds a pair to a key-sorted vector at its ordered position.
fn insert_pair_vec(v: Vec<(Vec<u8>, Value)>, key: Vec<u8>, value: Value) -> (r: Vec<
    (Vec<u8>, Value),
>)
    ensures
        model_pairs(r@) == spec_insert_pair(model_pairs(v@), (key@, value.model())),
    decreases v@.len(),
{
    let ghost m = model_pairs(v@);
    let ghost p = (key@, value.model());
    proof {
        crate::value::lemma_model_pairs(v@);
    }
    let mut v = v;
    if v.len() == 0 {
        v.push((key, value));
        proof {
            crate::value::lemma_model_pairs(v@);
            assert(model_pairs(v@) =~= seq![p]);
        }
        v
    } else if lex_le_bytes(&v[v.len() - 1].0, &key) {
        proof {
            assert(m.last() == (v@.last().0@, v@.last().1.model()));
        }
        v.push((key, value));
        proof {
            crate::value::lemma_model_pairs(v@);
            assert(model_pairs(v@) =~= m.push(p));
        }
        v
    } else {
        let last = v.pop().unwrap();
        proof {
            crate::value::lemma_model_pairs(v@);
            assert(model_pairs(v@) =~= m.drop_last());
        }
        let mut r = insert_pair_vec(v, key, value);
        proof {
            crate::value::lemma_model_pairs(r@);
        }
        r.push(last);
        proof {
            crate::value::lemma_model_pairs(r@);
            assert(model_pairs(r@) =~= spec_insert_pair(m.drop_last(), p).push(m.last()));
        }
        r
    }
}

/// Sorts a vector of pairs into ascending key order, keeping pairs with
/// equal keys in their arrival order.
pub(crate) fn sort_pair_vec(v: Vec<(Vec<u8>, Value)>) -> (r: Vec<(Vec<u8>, Value)>)
    ensures
        model_pairs(r@) == spec_sort_pairs(model_pairs(v@)),
    decreases v@.len(),
{
    let ghost m = model_pairs(v@);
    proof {
        crate::value::lemma_model_pairs(v@);
    }
    let mut v = v;
    if v.len() == 0 {
        v
    } else {
        let last = v.pop().unwrap();
        proof {
            crate::value::lemma_model_pairs(v@);
            assert(model_pairs(v@) =~= m.drop_last());
        }
        let s = sort_pair_vec(v);
        insert_pair_vec(s, last.0, last.1)
    }
}

/// Sorting pairs that are already key-sorted is a no-op by content.
pub proof fn lemma_spec_sort_of_sorted(pairs: Seq<(Seq<u8>, SpecValue)>)
    requires
        sorted_pair_keys(pairs),
    ensures
        spec_sort_pairs(pairs) == pairs,
    decreases pairs.len(),
{
    if pairs.len() > 0 {
        let q = pairs.drop_last();
        assert(sorted_pair_keys(q));
        lemma_spec_sort_of_sorted(q);
        if q.len() == 0 {
            assert(spec_insert_pair(q, pairs.last()) =~= pairs);
        } else {
            assert(lex_le(q.last().0, pairs.last().0)) by {
                assert(q.last() == pairs[pairs.len() - 2]);
            }
            assert(spec_insert_pair(q, pairs.last()) =~= pairs);
        }
    } else {
        assert(spec_sort_pairs(pairs) =~= pairs);
    }
}

/// The bulk-load sort leaves the pairs key-sorted.
pub proof fn lemma_spec_sort_sorted(pairs: Seq<(Seq<u8>, SpecValue)>)
    ensures
        sorted_pair_keys(spec_sort_pairs(pairs)),
    decreases pairs.len(),
{
    if pairs.len() > 0 {
        lemma_spec_sort_sorted(pairs.drop_last());
        lemma_spec_insert_sorted(spec_sort_pairs(pairs.drop_last()), pairs.last());
    }
}

/// Inserting into a key-sorted run of pairs keeps it key-sorted.
pub proof fn lemma_spec_insert_sorted(pairs: Seq<(Seq<u8>, SpecValue)>, p: (Seq<u8>, SpecValue))
    requires
        sorted_pair_keys(pairs),
    ensures
        sorted_pair_keys(spec_insert_pair(pairs, p)),
    decreases pairs.len(),
{
    crate::bytes::lemma_lex_le_total(pairs.last().0, p.0);
    if pairs.len() == 0 {
    } else if lex_le(pairs.last().0, p.0) {
        let r = pairs.push(p);
        assert forall|i: int, j: int| 0 <= i < j < r.len() implies lex_le(
            #[trigger] r[i].0,
            #[trigger] r[j].0,
        ) by {
            if j < pairs.len() {
            } else {
                if i < pairs.len() - 1 {
                    crate::bytes::lemma_lex_le_transitive(r[i].0, pairs.last().0, p.0);
                }
            }
        }
    } else {
        let q = pairs.drop_last();
        assert(sorted_pair_keys(q));
        lemma_spec_insert_sorted(q, p);
        let s = spec_insert_pair(q, p);
        lemma_spec_insert_elems(q, p);
        let r = s.push(pairs.last());
        crate::bytes::lemma_lex_le_total(p.0, pairs.last().0);
        assert forall|i: int, j: int| 0 <= i < j < r.len() implies lex_le(
            #[trigger] r[i].0,
            #[trigger] r[j].0,
        ) by {
            if j == r.len() - 1 {
                // every key in s is a key of q or the new key, and both
                // stay at or below the key of the dropped last pair
                if s[i] == p {
                } else {
                    let k = choose|k: int| 0 <= k < q.len() && s[i] == q[k];
                    assert(q[k] == pairs[k]);
                }
            }
        }
    }
}

/// Every element of `spec_insert_pair(q, p)` is `p` or an element of `q`.
pub proof fn lemma_spec_insert_elems(q: Seq<(Seq<u8>, SpecValue)>, p: (Seq<u8>, SpecValue))
    ensures
        spec_insert_pair(q, p).len() == q.len() + 1,
        forall|i: int|
            0 <= i < q.len() + 1 ==> (#[trigger] spec_insert_pair(q, p)[i] == p || exists|k: int|
                0 <= k < q.len() && spec_insert_pair(q, p)[i] == q[k]),
    decreases q.len(),
{
    if q.len() == 0 {
    } else if lex_le(q.last().0, p.0) {
    } else {
        lemma_spec_insert_elems(q.drop_last(), p);
        let s = spec_insert_pair(q.drop_last(), p);
        let r = s.push(q.last());
        assert forall|i: int| 0 <= i < q.len() + 1 implies (#[trigger] r[i] == p || exists|k: int|
            0 <= k < q.len() && r[i] == q[k]) by {
            if i < s.len() {
                if s[i] == p {
                } else {
                    let k = choose|k: int| 0 <= k < q.len() - 1 && s[i] == q.drop_last()[k];
                    assert(q.drop_last()[k] == q[k]);
                }
            } else {
                assert(r[i] == q[q.len() - 1]);
            }
        }
    }
}

/// True when no two pairs share a key.
pub open spec fn keys_distinct(pairs: Seq<(Seq<u8>, SpecValue)>) -> bool {
    forall|i: int, j: int|
        0 <= i < j < pairs.len() ==> #[trigger] pairs[i].0 != #[trigger] pairs[j].0
}

/// Some pair of `pairs` carries the key `k`.
pub open spec fn has_key(pairs: Seq<(Seq<u8>, SpecValue)>, k: Seq<u8>) -> bool {
    exists|i: int| 0 <= i < pairs.len() && (#[trigger] pairs[i]).0 == k
}

/// An ordered insertion is an insertion: the result is the given
/// run with the new pair placed at one position.
pub proof fn lemma_spec_insert_is_insert(
    pairs: Seq<(Seq<u8>, SpecValue)>,
    p: (Seq<u8>, SpecValue),
)
    ensures
        exists|k: int|
            0 <= k <= pairs.len() && spec_insert_pair(pairs, p) == #[trigger] pairs.insert(k, p),
    decreases pairs.len(),
{
    if pairs.len() == 0 {
        assert(spec_insert_pair(pairs, p) =~= pairs.insert(0, p));
    } else if lex_le(pairs.last().0, p.0) {
        assert(spec_insert_pair(pairs, p) =~= pairs.insert(pairs.len() as int, p));
    } else {
        lemma_spec_insert_is_insert(pairs.drop_last(), p);
        let q = pairs.drop_last();
        let k = choose|k: int|
            0 <= k <= q.len() && spec_insert_pair(q, p) == #[trigger] q.insert(k, p);
        assert(spec_insert_pair(pairs, p) =~= pairs.insert(k, p)) by {
            assert(spec_insert_pair(pairs, p) == q.insert(k, p).push(pairs.last()));
            q.insert_ensures(k, p);
            pairs.insert_ensures(k, p);
        }
    }
}

/// An ordered insertion adds exactly the new pair to the contents.
pub proof fn lemma_spec_insert_multiset(pairs: Seq<(Seq<u8>, SpecValue)>, p: (Seq<u8>, SpecValue))
    ensures
        spec_insert_pair(pairs, p).to_multiset() == pairs.to_multiset().insert(p),
    decreases pairs.len(),
{
    broadcast use vstd::seq_lib::group_to_multiset_ensures;

    if pairs.len() == 0 {
        assert(seq![p] =~= Seq::<(Seq<u8>, SpecValue)>::empty().push(p));
        assert(spec_insert_pair(pairs, p).to_multiset() =~= pairs.to_multiset().insert(p));
    } else if lex_le(pairs.last().0, p.0) {
    } else {
        lemma_spec_insert_multiset(pairs.drop_last(), p);
        assert(pairs =~= pairs.drop_last().push(pairs.last()));
        assert(spec_insert_pair(pairs, p).to_multiset() =~= pairs.to_multiset().insert(p));
    }
}

/// The bulk-load sort neither adds nor loses a pair.
pub proof fn lemma_spec_sort_multiset(pairs: Seq<(Seq<u8>, SpecValue)>)
    ensures
        spec_sort_pairs(pairs).to_multiset() == pairs.to_multiset(),
    decreases pairs.len(),
{
    broadcast use vstd::seq_lib::group_to_multiset_ensures;

    if pairs.len() > 0 {
        lemma_spec_sort_multiset(pairs.drop_last());
        lemma_spec_insert_multiset(spec_sort_pairs(pairs.drop_last()), pairs.last());
        assert(pairs =~= pairs.drop_last().push(pairs.last()));
        assert(spec_sort_pairs(pairs).to_multiset() =~= pairs.to_multiset());
    }
}

/// Runs with the same contents carry the same keys.
proof fn lemma_has_key_multiset(
    q1: Seq<(Seq<u8>, SpecValue)>,
    q2: Seq<(Seq<u8>, SpecValue)>,
    k: Seq<u8>,
)
    requires
        q1.to_multiset() == q2.to_multiset(),
        has_key(q1, k),
    ensures
        has_key(q2, k),
{
    q1.to_multiset_ensures();
    q2.to_multiset_ensures();
    let i = choose|i: int| 0 <= i < q1.len() && (#[trigger] q1[i]).0 == k;
    assert(q1.contains(q1[i]));
    assert(q1.to_multiset().count(q1[i]) > 0);
    assert(q2.to_multiset().count(q1[i]) > 0);
    assert(q2.contains(q1[i]));
    let j = choose|j: int| 0 <= j < q2.len() && q2[j] == q1[i];
    assert(q2[j].0 == k);
}

/// Inserting a pair whose key is fresh keeps the keys distinct.
proof fn lemma_spec_insert_distinct(pairs: Seq<(Seq<u8>, SpecValue)>, p: (Seq<u8>, SpecValue))
    requires
        keys_distinct(pairs),
        !has_key(pairs, p.0),
    ensures
        keys_distinct(spec_insert_pair(pairs, p)),
{
    lemma_spec_insert_is_insert(pairs, p);
    let k = choose|k: int|
        0 <= k <= pairs.len() && spec_insert_pair(pairs, p) == #[trigger] pairs.insert(k, p);
    let r = pairs.insert(k, p);
    pairs.insert_ensures(k, p);
    assert forall|i: int, j: int| 0 <= i < j < r.len() implies #[trigger] r[i].0
        != #[trigger] r[j].0 by {
        if i != k && j != k {
            let i0: int = if i < k {
                i
            } else {
                i - 1
            };
            let j0: int = if j < k {
                j
            } else {
                j - 1
            };
            assert(r[i] == pairs[i0] && r[j] == pairs[j0]);
        } else if i == k {
            let j0: int = j - 1;
            assert(r[j] == pairs[j0]);
            assert(!has_key(pairs, p.0));
            assert(pairs[j0].0 != p.0);
        } else {
            assert(r[i] == pairs[i]);
            assert(pairs[i].0 != p.0);
        }
    }
}

/// The bulk-load sort keeps distinct keys distinct.
proof fn lemma_spec_sort_distinct(pairs: Seq<(Seq<u8>, SpecValue)>)
    requires
        keys_distinct(pairs),
    ensures
        keys_distinct(spec_sort_pairs(pairs)),
    decreases pairs.len(),
{
    if pairs.len() > 0 {
        let q = pairs.drop_last();
        let last = pairs.last();
        assert(keys_distinct(q));
        lemma_spec_sort_distinct(q);
        assert(!has_key(q, last.0)) by {
            if has_key(q, last.0) {
                let i = choose|i: int| 0 <= i < q.len() && (#[trigger] q[i]).0 == last.0;
                assert(pairs[i].0 == pairs[pairs.len() - 1].0);
            }
        }
        assert(!has_key(spec_sort_pairs(q), last.0)) by {
            if has_key(spec_sort_pairs(q), last.0) {
                lemma_spec_sort_multiset(q);
                lemma_has_key_multiset(spec_sort_pairs(q), q, last.0);
            }
        }
        lemma_spec_insert_distinct(spec_sort_pairs(q), last);
    }
}

/// Two key-sorted runs with distinct keys and the same contents are
/// the same run.
proof fn lemma_sorted_unique(a: Seq<(Seq<u8>, SpecValue)>, b: Seq<(Seq<u8>, SpecValue)>)
    requires
        sorted_pair_keys(a),
        sorted_pair_keys(b),
        keys_distinct(a),
        a.to_multiset() == b.to_multiset(),
    ensures
        a == b,
    decreases a.len(),
{
    a.to_multiset_ensures();
    b.to_multiset_ensures();
    if a.len() == 0 {
        assert(a.to_multiset().len() == 0);
        assert(b.to_multiset().len() == b.len());
        assert(b.len() == 0);
        assert(a =~= b);
    } else {
        assert(a.to_multiset().len() == a.len());
        assert(b.to_multiset().len() == b.len());
        assert(b.len() == a.len());
        let x = a.last();
        let y = b.last();
        assert(a.contains(x)) by {
            assert(a[a.len() - 1] == x);
        }
        assert(a.to_multiset().count(x) > 0);
        assert(b.to_multiset().count(x) > 0);
        assert(b.contains(x));
        let j = choose|j: int| 0 <= j < b.len() && b[j] == x;
        assert(b.contains(y)) by {
            assert(b[b.len() - 1] == y);
        }
        assert(b.to_multiset().count(y) > 0);
        assert(a.to_multiset().count(y) > 0);
        assert(a.contains(y));
        let i = choose|i: int| 0 <= i < a.len() && a[i] == y;
        if x != y {
            assert(j < b.len() - 1);
            assert(lex_le(b[j].0, b[b.len() - 1].0));
            assert(i < a.len() - 1);
            assert(lex_le(a[i].0, a[a.len() - 1].0));
            crate::bytes::lemma_lex_le_antisymmetric(x.0, y.0);
            assert(a[i].0 == a[a.len() - 1].0);
            assert(false);
        }
        assert(a.drop_last() =~= a.remove(a.len() - 1));
        assert(b.drop_last() =~= b.remove(b.len() - 1));
        assert(a.remove(a.len() - 1).to_multiset() =~= a.to_multiset().remove(x));
        assert(b.remove(b.len() - 1).to_multiset() =~= b.to_multiset().remove(x));
        assert(sorted_pair_keys(a.drop_last()));
        assert(sorted_pair_keys(b.drop_last()));
        assert(keys_distinct(a.drop_last()));
        lemma_sorted_unique(a.drop_last(), b.drop_last());
        assert(x == y);
        assert forall|idx: int| 0 <= idx < a.len() implies a[idx] == b[idx] by {
            if idx < a.len() - 1 {
                assert(a[idx] == a.drop_last()[idx]);
                assert(b[idx] == b.drop_last()[idx]);
            }
        }
        assert(a =~= b);
    }
}

/// **Canonical-dictionary law.** Two runs that hold the same pairs —
/// each key once — come to the same key-sorted run, whatever order the
/// pairs arrived in; so two dictionaries built from the same pairs in
/// different insertion orders are equal and encode to the same bytes.
/// `spec_sort_pairs` is exactly what a run of [`Dict::push`] calls
/// builds, pair by pair.
pub proof fn lemma_canonical_dict(p1: Seq<(Seq<u8>, SpecValue)>, p2: Seq<(Seq<u8>, SpecValue)>)
    requires
        keys_distinct(p1),
        keys_distinct(p2),
        p1.to_multiset() == p2.to_multiset(),
    ensures
        spec_sort_pairs(p1) == spec_sort_pairs(p2),
{
    lemma_spec_sort_sorted(p1);
    lemma_spec_sort_sorted(p2);
    lemma_spec_sort_distinct(p1);
    lemma_spec_sort_multiset(p1);
    lemma_spec_sort_multiset(p2);
    lemma_sorted_unique(spec_sort_pairs(p1), spec_sort_pairs(p2));
}

} // verus!
