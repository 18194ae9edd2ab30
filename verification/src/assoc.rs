//! Association sequences: the common backbone of the replicated types.
//!
//! Every map-shaped CRDT in this crate stores its per-key contributions
//! in a vector of `(key, value)` pairs with pairwise-distinct keys, and
//! is specified through the total lookup [`assoc_get`], which returns a
//! caller-supplied default for absent keys.  The lemmas here relate that
//! lookup to indexing, updating and pushing, and connect counts and sums
//! over the pairs to the sets and totals the public contracts speak of.

use vstd::prelude::*;

verus! {

/// No two pairs of `s` share a key.
pub open spec fn distinct_keys<K, V>(s: Seq<(K, V)>) -> bool {
    forall|i: int, j: int| 0 <= i < j < s.len() ==> s[i].0 != s[j].0
}

/// Some pair of `s` has key `k`.
pub open spec fn has_key<K, V>(s: Seq<(K, V)>, k: K) -> bool {
    exists|i: int| 0 <= i < s.len() && s[i].0 == k
}

/// The value stored for `k`, or `d` if no pair has key `k`.
/// The latest pair wins, which coincides with the unique pair when keys
/// are distinct.
pub open spec fn assoc_get<K, V>(s: Seq<(K, V)>, k: K, d: V) -> V
    decreases s.len(),
{
    if s.len() == 0 {
        d
    } else if s.last().0 == k {
        s.last().1
    } else {
        assoc_get(s.drop_last(), k, d)
    }
}

/// With distinct keys, the lookup returns the value of the pair at any
/// index whose key matches.
pub proof fn lemma_assoc_get_at<K, V>(s: Seq<(K, V)>, k: K, d: V, i: int)
    requires
        distinct_keys(s),
        0 <= i < s.len(),
        s[i].0 == k,
    ensures
        assoc_get(s, k, d) == s[i].1,
    decreases s.len(),
{
    if i == s.len() - 1 {
        assert(s.last() == s[i]);
    } else {
        assert(s.last().0 != k);
        assert(distinct_keys(s.drop_last()));
        assert(s.drop_last()[i] == s[i]);
        lemma_assoc_get_at(s.drop_last(), k, d, i);
    }
}

/// The lookup of an absent key returns the default.
pub proof fn lemma_assoc_get_absent<K, V>(s: Seq<(K, V)>, k: K, d: V)
    requires
        !has_key(s, k),
    ensures
        assoc_get(s, k, d) == d,
    decreases s.len(),
{
    if s.len() > 0 {
        assert(s.last() == s[s.len() - 1]);
        assert(s.last().0 != k);
        assert(forall|i: int| 0 <= i < s.len() - 1 ==> s.drop_last()[i] == s[i]);
        lemma_assoc_get_absent(s.drop_last(), k, d);
    }
}

/// Pushing a pair overrides its own key and leaves every other lookup
/// unchanged.
pub proof fn lemma_assoc_get_push<K, V>(s: Seq<(K, V)>, k: K, v: V, k2: K, d: V)
    ensures
        assoc_get(s.push((k, v)), k2, d) == if k2 == k {
            v
        } else {
            assoc_get(s, k2, d)
        },
{
    assert(s.push((k, v)).last() == (k, v));
    assert(s.push((k, v)).drop_last() =~= s);
}

/// Updating the value at index `i` (keeping its key) overrides that key
/// and leaves every other lookup unchanged.
pub proof fn lemma_assoc_get_update<K, V>(s: Seq<(K, V)>, i: int, v: V, k2: K, d: V)
    requires
        distinct_keys(s),
        0 <= i < s.len(),
    ensures
        assoc_get(s.update(i, (s[i].0, v)), k2, d) == if k2 == s[i].0 {
            v
        } else {
            assoc_get(s, k2, d)
        },
{
    let s2 = s.update(i, (s[i].0, v));
    assert(forall|j: int| 0 <= j < s.len() ==> s2[j].0 == s[j].0);
    assert(distinct_keys(s2));
    if k2 == s[i].0 {
        lemma_assoc_get_at(s2, k2, d, i);
    } else if has_key(s, k2) {
        let j = choose|j: int| 0 <= j < s.len() && s[j].0 == k2;
        lemma_assoc_get_at(s, k2, d, j);
        lemma_assoc_get_at(s2, k2, d, j);
    } else {
        assert(!has_key(s2, k2));
        lemma_assoc_get_absent(s, k2, d);
        lemma_assoc_get_absent(s2, k2, d);
    }
}

/// One step of a prefix walk: extending the prefix by the pair at index
/// `i` overrides that pair's key.
pub proof fn lemma_assoc_get_take_step<K, V>(s: Seq<(K, V)>, i: int, k: K, d: V)
    requires
        0 <= i < s.len(),
    ensures
        assoc_get(s.take(i + 1), k, d) == if s[i].0 == k {
            s[i].1
        } else {
            assoc_get(s.take(i), k, d)
        },
{
    assert(s.take(i + 1).last() == s[i]);
    assert(s.take(i + 1).drop_last() =~= s.take(i));
}

/// How many pairs hold a value satisfying `p`.
pub open spec fn count_matching<K, V>(s: Seq<(K, V)>, p: spec_fn(V) -> bool) -> int
    decreases s.len(),
{
    if s.len() == 0 {
        0
    } else {
        count_matching(s.drop_last(), p) + if p(s.last().1) {
            1int
        } else {
            0int
        }
    }
}

/// The keys of the pairs whose value satisfies `p`.
pub open spec fn matching_keys<K, V>(s: Seq<(K, V)>, p: spec_fn(V) -> bool) -> Set<K> {
    Set::new(|k: K| exists|i: int| 0 <= i < s.len() && s[i].0 == k && p(s[i].1))
}

/// One step of a prefix walk over the count.
pub proof fn lemma_count_matching_take_step<K, V>(s: Seq<(K, V)>, i: int, p: spec_fn(V) -> bool)
    requires
        0 <= i < s.len(),
    ensures
        count_matching(s.take(i + 1), p) == count_matching(s.take(i), p) + if p(s[i].1) {
            1int
        } else {
            0int
        },
{
    assert(s.take(i + 1).last() == s[i]);
    assert(s.take(i + 1).drop_last() =~= s.take(i));
}

/// With distinct keys, the count of matching pairs is the cardinality of
/// the set of matching keys.
pub proof fn lemma_count_matching_card<K, V>(s: Seq<(K, V)>, p: spec_fn(V) -> bool)
    requires
        distinct_keys(s),
    ensures
        matching_keys(s, p).finite(),
        matching_keys(s, p).len() == count_matching(s, p),
    decreases s.len(),
{
    if s.len() == 0 {
        assert(matching_keys(s, p) =~= Set::<K>::empty());
    } else {
        let s2 = s.drop_last();
        assert(distinct_keys(s2));
        lemma_count_matching_card(s2, p);
        assert(forall|i: int| 0 <= i < s2.len() ==> s2[i] == s[i]);
        assert(s.last() == s[s.len() - 1]);
        assert(!matching_keys(s2, p).contains(s.last().0));
        if p(s.last().1) {
            assert(matching_keys(s, p) =~= matching_keys(s2, p).insert(s.last().0));
        } else {
            assert(matching_keys(s, p) =~= matching_keys(s2, p));
        }
    }
}

/// With distinct keys and a default that does not match, a key matches
/// exactly when its looked-up value does.
pub proof fn lemma_matching_keys_get<K, V>(s: Seq<(K, V)>, p: spec_fn(V) -> bool, d: V, k: K)
    requires
        distinct_keys(s),
        !p(d),
    ensures
        matching_keys(s, p).contains(k) <==> p(assoc_get(s, k, d)),
{
    if has_key(s, k) {
        let i = choose|i: int| 0 <= i < s.len() && s[i].0 == k;
        lemma_assoc_get_at(s, k, d, i);
        assert(matching_keys(s, p).contains(k) <==> p(s[i].1));
    } else {
        lemma_assoc_get_absent(s, k, d);
        assert(!matching_keys(s, p).contains(k));
    }
}

/// The keys of the pairs whose value satisfies `p`, in storage order.
pub open spec fn matching_key_seq<K, V>(s: Seq<(K, V)>, p: spec_fn(V) -> bool) -> Seq<K>
    decreases s.len(),
{
    if s.len() == 0 {
        Seq::empty()
    } else if p(s.last().1) {
        matching_key_seq(s.drop_last(), p).push(s.last().0)
    } else {
        matching_key_seq(s.drop_last(), p)
    }
}

/// One step of a prefix walk over the matching keys.
pub proof fn lemma_matching_key_seq_take_step<K, V>(s: Seq<(K, V)>, i: int, p: spec_fn(V) -> bool)
    requires
        0 <= i < s.len(),
    ensures
        matching_key_seq(s.take(i + 1), p) == if p(s[i].1) {
            matching_key_seq(s.take(i), p).push(s[i].0)
        } else {
            matching_key_seq(s.take(i), p)
        },
{
    assert(s.take(i + 1).last() == s[i]);
    assert(s.take(i + 1).drop_last() =~= s.take(i));
}

/// With distinct keys, the matching-key sequence has no duplicates and
/// holds exactly the matching keys.
pub proof fn lemma_matching_key_seq_props<K, V>(s: Seq<(K, V)>, p: spec_fn(V) -> bool)
    requires
        distinct_keys(s),
    ensures
        matching_key_seq(s, p).no_duplicates(),
        forall|k: K| #[trigger]
            matching_key_seq(s, p).contains(k) <==> matching_keys(s, p).contains(k),
    decreases s.len(),
{
    if s.len() == 0 {
    } else {
        let s2 = s.drop_last();
        assert(forall|i: int| 0 <= i < s2.len() ==> s2[i] == s[i]);
        assert(s.last() == s[s.len() - 1]);
        assert(distinct_keys(s2));
        lemma_matching_key_seq_props(s2, p);
        let q2 = matching_key_seq(s2, p);
        assert(!matching_keys(s2, p).contains(s.last().0));
        if p(s.last().1) {
            let q = q2.push(s.last().0);
            assert(q.drop_last() =~= q2);
            assert(q.last() == s.last().0);
            assert forall|k: K| #[trigger] q.contains(k) implies matching_keys(s, p).contains(
                k,
            ) by {
                let idx = choose|idx: int| 0 <= idx < q.len() && q[idx] == k;
                if idx < q2.len() {
                    assert(q2[idx] == k);
                    assert(q2.contains(k));
                    assert(matching_keys(s2, p).contains(k));
                    let i2 = choose|i2: int| 0 <= i2 < s2.len() && s2[i2].0 == k && p(s2[i2].1);
                    assert(s[i2] == s2[i2]);
                } else {
                    assert(k == s.last().0);
                    assert(s[s.len() - 1].0 == k && p(s[s.len() - 1].1));
                }
            }
            assert forall|k: K| #[trigger] matching_keys(s, p).contains(k) implies q.contains(
                k,
            ) by {
                let i = choose|i: int| 0 <= i < s.len() && s[i].0 == k && p(s[i].1);
                if i < s.len() - 1 {
                    assert(s2[i] == s[i]);
                    assert(matching_keys(s2, p).contains(k));
                    assert(q2.contains(k));
                    let idx = choose|idx: int| 0 <= idx < q2.len() && q2[idx] == k;
                    assert(q[idx] == k);
                } else {
                    assert(q[q.len() - 1] == k);
                }
            }
            assert(!q2.contains(s.last().0));
        } else {
            assert forall|k: K| #[trigger] q2.contains(k) implies matching_keys(s, p).contains(
                k,
            ) by {
                assert(matching_keys(s2, p).contains(k));
                let i2 = choose|i2: int| 0 <= i2 < s2.len() && s2[i2].0 == k && p(s2[i2].1);
                assert(s[i2] == s2[i2]);
            }
            assert forall|k: K| #[trigger] matching_keys(s, p).contains(k) implies q2.contains(
                k,
            ) by {
                let i = choose|i: int| 0 <= i < s.len() && s[i].0 == k && p(s[i].1);
                assert(i < s.len() - 1);
                assert(s2[i] == s[i]);
                assert(matching_keys(s2, p).contains(k));
            }
        }
    }
}

/// The sum of `f` over the values of the pairs.
pub open spec fn sum_values<K, V>(s: Seq<(K, V)>, f: spec_fn(V) -> int) -> int
    decreases s.len(),
{
    if s.len() == 0 {
        0
    } else {
        sum_values(s.drop_last(), f) + f(s.last().1)
    }
}

/// One step of a prefix walk over the sum.
pub proof fn lemma_sum_values_take_step<K, V>(s: Seq<(K, V)>, i: int, f: spec_fn(V) -> int)
    requires
        0 <= i < s.len(),
    ensures
        sum_values(s.take(i + 1), f) == sum_values(s.take(i), f) + f(s[i].1),
{
    assert(s.take(i + 1).last() == s[i]);
    assert(s.take(i + 1).drop_last() =~= s.take(i));
}

/// When `f` is non-negative on every stored value, prefix sums are
/// bounded by the full sum.
pub proof fn lemma_sum_values_prefix_bound<K, V>(s: Seq<(K, V)>, i: int, f: spec_fn(V) -> int)
    requires
        0 <= i <= s.len(),
        forall|j: int| 0 <= j < s.len() ==> #[trigger] f(s[j].1) >= 0,
    ensures
        sum_values(s.take(i), f) <= sum_values(s, f),
        sum_values(s.take(i), f) >= 0,
    decreases s.len() - i,
{
    assert(forall|j: int| 0 <= j < i ==> s.take(i)[j] == s[j]);
    lemma_sum_values_nonneg(s.take(i), f);
    if i == s.len() {
        assert(s.take(i) =~= s);
    } else {
        lemma_sum_values_take_step(s, i, f);
        lemma_sum_values_prefix_bound(s, i + 1, f);
    }
}

/// A sum of non-negative terms is non-negative.
pub proof fn lemma_sum_values_nonneg<K, V>(s: Seq<(K, V)>, f: spec_fn(V) -> int)
    requires
        forall|j: int| 0 <= j < s.len() ==> #[trigger] f(s[j].1) >= 0,
    ensures
        sum_values(s, f) >= 0,
    decreases s.len(),
{
    if s.len() > 0 {
        assert(s.last() == s[s.len() - 1]);
        assert(forall|j: int| 0 <= j < s.len() - 1 ==> s.drop_last()[j] == s[j]);
        lemma_sum_values_nonneg(s.drop_last(), f);
    }
}

/// Updating the value at index `i` changes the sum by the difference of
/// the two terms.
pub proof fn lemma_sum_values_update<K, V>(s: Seq<(K, V)>, i: int, v: V, f: spec_fn(V) -> int)
    requires
        0 <= i < s.len(),
    ensures
        sum_values(s.update(i, (s[i].0, v)), f) == sum_values(s, f) - f(s[i].1) + f(v),
    decreases s.len(),
{
    let s2 = s.update(i, (s[i].0, v));
    if i == s.len() - 1 {
        assert(s2.last() == (s[i].0, v));
        assert(s2.drop_last() =~= s.drop_last());
    } else {
        assert(s2.last() == s.last());
        assert(s2.drop_last() =~= s.drop_last().update(i, (s[i].0, v)));
        lemma_sum_values_update(s.drop_last(), i, v, f);
    }
}

/// Pushing a pair adds its term to the sum.
pub proof fn lemma_sum_values_push<K, V>(s: Seq<(K, V)>, k: K, v: V, f: spec_fn(V) -> int)
    ensures
        sum_values(s.push((k, v)), f) == sum_values(s, f) + f(v),
{
    assert(s.push((k, v)).last() == (k, v));
    assert(s.push((k, v)).drop_last() =~= s);
}

} // verus!
