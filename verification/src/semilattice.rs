//! Pointwise joins of total maps, and the semilattice laws they obey.
//!
//! Each map-shaped CRDT views its state as a total map from keys to
//! per-key contributions and merges by joining contributions pointwise.
//! Given the corresponding laws for the per-key join, the lemmas here
//! lift them to whole views: commutativity, idempotence, associativity,
//! the join upper bound, the agreement of the order with the join, and
//! antisymmetry.  A final lemma shows that folding any reordering of a
//! sequence of joins from the same start produces the same view, which
//! is what makes operation delivery order irrelevant.

use vstd::prelude::*;
use vstd::seq_lib::*;

verus! {

/// The pointwise join of two total maps.
pub open spec fn map_join<K, V>(m1: Map<K, V>, m2: Map<K, V>, j: spec_fn(V, V) -> V) -> Map<
    K,
    V,
> {
    Map::total(|k: K| j(m1[k], m2[k]))
}

/// Pointwise dominance of total maps.
pub open spec fn map_le<K, V>(m1: Map<K, V>, m2: Map<K, V>, le: spec_fn(V, V) -> bool) -> bool {
    forall|k: K| #[trigger] le(m1[k], m2[k])
}

/// A map whose domain is every key.
pub open spec fn is_total<K, V>(m: Map<K, V>) -> bool {
    forall|k: K| m.dom().contains(k)
}

pub proof fn lemma_map_join_commutative<K, V>(m1: Map<K, V>, m2: Map<K, V>, j: spec_fn(V, V) -> V)
    requires
        forall|a: V, b: V| #[trigger] j(a, b) == j(b, a),
    ensures
        map_join(m1, m2, j) == map_join(m2, m1, j),
{
    assert(map_join(m1, m2, j) =~= map_join(m2, m1, j));
}

pub proof fn lemma_map_join_idempotent<K, V>(m: Map<K, V>, j: spec_fn(V, V) -> V)
    requires
        is_total(m),
        forall|a: V| #[trigger] j(a, a) == a,
    ensures
        map_join(m, m, j) == m,
{
    assert(map_join(m, m, j) =~= m);
}

pub proof fn lemma_map_join_associative<K, V>(
    m1: Map<K, V>,
    m2: Map<K, V>,
    m3: Map<K, V>,
    j: spec_fn(V, V) -> V,
)
    requires
        forall|a: V, b: V, c: V| #[trigger] j(j(a, b), c) == j(a, j(b, c)),
    ensures
        map_join(map_join(m1, m2, j), m3, j) == map_join(m1, map_join(m2, m3, j), j),
{
    assert(map_join(map_join(m1, m2, j), m3, j) =~= map_join(m1, map_join(m2, m3, j), j));
}

/// The join dominates both of its arguments.
pub proof fn lemma_map_join_upper_bound<K, V>(
    m1: Map<K, V>,
    m2: Map<K, V>,
    j: spec_fn(V, V) -> V,
    le: spec_fn(V, V) -> bool,
)
    requires
        forall|a: V, b: V| #[trigger] le(a, j(a, b)),
        forall|a: V, b: V| #[trigger] j(a, b) == j(b, a),
    ensures
        map_le(m1, map_join(m1, m2, j), le),
        map_le(m2, map_join(m1, m2, j), le),
{
    assert forall|k: K| #[trigger] le(m2[k], map_join(m1, m2, j)[k]) by {
        assert(j(m1[k], m2[k]) == j(m2[k], m1[k]));
        assert(le(m2[k], j(m2[k], m1[k])));
    }
}

/// The order agrees with the join: a view is below another exactly when
/// joining it in changes nothing.
pub proof fn lemma_map_le_iff_join<K, V>(
    m1: Map<K, V>,
    m2: Map<K, V>,
    j: spec_fn(V, V) -> V,
    le: spec_fn(V, V) -> bool,
)
    requires
        is_total(m2),
        forall|a: V, b: V| #[trigger] le(a, b) <==> j(a, b) == b,
    ensures
        map_le(m1, m2, le) <==> map_join(m1, m2, j) == m2,
{
    if map_le(m1, m2, le) {
        assert forall|k: K| #[trigger] map_join(m1, m2, j)[k] == m2[k] by {
            assert(le(m1[k], m2[k]));
            assert(j(m1[k], m2[k]) == m2[k]);
        }
        assert(map_join(m1, m2, j) =~= m2);
    }
    if map_join(m1, m2, j) == m2 {
        assert forall|k: K| #[trigger] le(m1[k], m2[k]) by {
            assert(map_join(m1, m2, j)[k] == j(m1[k], m2[k]));
        }
    }
}

pub proof fn lemma_map_le_refl<K, V>(m: Map<K, V>, le: spec_fn(V, V) -> bool)
    requires
        forall|a: V| #[trigger] le(a, a),
    ensures
        map_le(m, m, le),
{
}

pub proof fn lemma_map_le_antisymmetric<K, V>(
    m1: Map<K, V>,
    m2: Map<K, V>,
    le: spec_fn(V, V) -> bool,
)
    requires
        is_total(m1),
        is_total(m2),
        map_le(m1, m2, le),
        map_le(m2, m1, le),
        forall|a: V, b: V| le(a, b) && #[trigger] le(b, a) ==> a == b,
    ensures
        m1 == m2,
{
    assert(m1.dom() =~= m2.dom());
    assert forall|k: K| #[trigger] m1.dom().contains(k) implies m1[k] == m2[k] by {
        assert(le(m1[k], m2[k]));
        assert(le(m2[k], m1[k]));
    }
    assert(m1 =~= m2);
}

/// Folding state snapshots into a view by pointwise join gives the same
/// result for any reordering of the snapshots.
pub proof fn lemma_fold_join_permutation<K, V, A>(
    v: Map<K, V>,
    ops1: Seq<A>,
    ops2: Seq<A>,
    st: spec_fn(A) -> Map<K, V>,
    j: spec_fn(V, V) -> V,
)
    requires
        ops1.to_multiset() == ops2.to_multiset(),
        forall|a: V, b: V| #[trigger] j(a, b) == j(b, a),
        forall|a: V, b: V, c: V| #[trigger] j(j(a, b), c) == j(a, j(b, c)),
    ensures
        ops1.fold_left(v, |m: Map<K, V>, op: A| map_join(m, st(op), j)) == ops2.fold_left(
            v,
            |m: Map<K, V>, op: A| map_join(m, st(op), j),
        ),
{
    let f = |m: Map<K, V>, op: A| map_join(m, st(op), j);
    assert forall|x: A, y: A, m: Map<K, V>| #[trigger] f(f(m, x), y) == f(f(m, y), x) by {
        let lhs = f(f(m, x), y);
        let rhs = f(f(m, y), x);
        assert forall|k: K| #[trigger] lhs[k] == rhs[k] by {
            let a = m[k];
            let b = st(x)[k];
            let c = st(y)[k];
            assert(j(j(a, b), c) == j(a, j(b, c)));
            assert(j(b, c) == j(c, b));
            assert(j(j(a, c), b) == j(a, j(c, b)));
        }
        assert(lhs =~= rhs);
    }
    assert(commutative_foldl(f));
    lemma_fold_left_permutation(ops1, ops2, f, v);
}

} // verus!
