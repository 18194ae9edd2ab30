//! A grow-only counter.

use vstd::prelude::*;
use vstd::pervasive::VecAdditionalExecFns;
use crate::assoc::{
    assoc_get, distinct_keys, has_key, lemma_assoc_get_absent, lemma_assoc_get_at,
    lemma_assoc_get_push, lemma_assoc_get_take_step, lemma_assoc_get_update,
    lemma_sum_values_prefix_bound, lemma_sum_values_push, lemma_sum_values_take_step,
    lemma_sum_values_update, sum_values,
};
use crate::semilattice::{
    is_total, lemma_fold_join_permutation, lemma_map_join_associative, lemma_map_join_commutative,
    lemma_map_join_idempotent, lemma_map_join_upper_bound, lemma_map_le_antisymmetric,
    lemma_map_le_iff_join, lemma_map_le_refl, map_join, map_le,
};
use crate::{Crdt, ReplicaId};

verus! {

/// A grow-only counter.
///
/// Each replica issues increments under its own id and keeps one tally
/// per replica it has heard from; the counter's value is the sum of the
/// tallies.  Merging takes the pointwise maximum of the tallies, so a
/// replica's contribution is counted once however often states cross.
///
/// Letting one replica's accumulated increments exceed `u64::MAX` is
/// undefined behavior shared across all replicas; the bound is a global
/// property of the increments ever issued, not of any single call, and
/// merges do not check it.
#[derive(Debug)]
pub struct GCounter {
    replica_id: ReplicaId,
    counts: Vec<(ReplicaId, u64)>,
}

/// An increment operation over [`GCounter`] replicas.
///
/// Carries the issuing replica's id and that replica's resulting tally —
/// an absolute snapshot rather than a delta, so applying it twice, or
/// late, cannot double-count.
#[derive(Clone, Copy, Debug)]
pub struct GCounterOp {
    /// The replica that issued the increment.
    pub replica_id: ReplicaId,
    /// That replica's tally after the increment.
    pub count: u64,
}

/// The per-slot join: the larger tally.
pub open spec fn u64_join_fn() -> spec_fn(u64, u64) -> u64 {
    |a: u64, b: u64|
        if a >= b {
            a
        } else {
            b
        }
}

/// The per-slot order.
pub open spec fn u64_le_fn() -> spec_fn(u64, u64) -> bool {
    |a: u64, b: u64| a <= b
}

/// A tally slot as a summand.
pub open spec fn u64_sum_fn() -> spec_fn(u64) -> int {
    |v: u64| v as int
}

/// The tallies described by a slot sequence: zero for replicas that have
/// no slot.
pub open spec fn gcounter_slots(s: Seq<(ReplicaId, u64)>) -> Map<ReplicaId, u64> {
    Map::total(|r: ReplicaId| assoc_get(s, r, 0u64))
}

/// The view of a counter that has seen nothing.
pub open spec fn gcounter_zero() -> Map<ReplicaId, u64> {
    Map::total(|r: ReplicaId| 0u64)
}

/// The join of two counter views: the pointwise maximum of the tallies.
pub open spec fn gcounter_join(
    v1: Map<ReplicaId, u64>,
    v2: Map<ReplicaId, u64>,
) -> Map<ReplicaId, u64> {
    map_join(v1, v2, u64_join_fn())
}

/// The derived partial order: pointwise dominance of the tallies.
pub open spec fn gcounter_le(v1: Map<ReplicaId, u64>, v2: Map<ReplicaId, u64>) -> bool {
    map_le(v1, v2, u64_le_fn())
}

/// The state snapshot an increment operation carries: the issuing
/// replica's tally, and nothing else.
pub open spec fn gcounter_op_state(op: GCounterOp) -> Map<ReplicaId, u64> {
    Map::total(
        |r: ReplicaId|
            if r == op.replica_id {
                op.count
            } else {
                0u64
            },
    )
}

/// One application step: join the operation's snapshot into the view.
pub open spec fn gcounter_step_fn() -> spec_fn(Map<ReplicaId, u64>, GCounterOp) -> Map<
    ReplicaId,
    u64,
> {
    |m: Map<ReplicaId, u64>, op: GCounterOp| gcounter_join(m, gcounter_op_state(op))
}

/// The view after applying a sequence of operations in order.
pub open spec fn gcounter_apply_all(v: Map<ReplicaId, u64>, ops: Seq<GCounterOp>) -> Map<
    ReplicaId,
    u64,
> {
    ops.fold_left(v, gcounter_step_fn())
}

impl View for GCounter {
    type V = Map<ReplicaId, u64>;

    closed spec fn view(&self) -> Map<ReplicaId, u64> {
        gcounter_slots(self.counts@)
    }
}

/// Find the slot of a replica, if it has one.
fn find_slot(counts: &Vec<(ReplicaId, u64)>, r: ReplicaId) -> (res: Option<usize>)
    ensures
        match res {
            Some(i) => i < counts@.len() && counts@[i as int].0 == r,
            None => !has_key(counts@, r),
        },
{
    let mut i: usize = 0;
    while i < counts.len()
        invariant
            i <= counts@.len(),
            forall|j: int| 0 <= j < i ==> counts@[j].0 != r,
        decreases counts@.len() - i,
    {
        if counts[i].0 == r {
            return Some(i);
        }
        i = i + 1;
    }
    None
}

/// Read a replica's tally, with zero for replicas that have no slot.
fn get_slot(counts: &Vec<(ReplicaId, u64)>, r: ReplicaId) -> (c: u64)
    requires
        distinct_keys(counts@),
    ensures
        c == assoc_get(counts@, r, 0u64),
{
    match find_slot(counts, r) {
        Some(i) => {
            proof {
                lemma_assoc_get_at(counts@, r, 0u64, i as int);
            }
            counts[i].1
        },
        None => {
            proof {
                lemma_assoc_get_absent(counts@, r, 0u64);
            }
            0
        },
    }
}

/// Raise a replica's tally to at least `c`, leaving the other slots
/// unchanged.
fn join_slot(counts: &mut Vec<(ReplicaId, u64)>, r: ReplicaId, c: u64)
    requires
        distinct_keys(old(counts)@),
    ensures
        distinct_keys(final(counts)@),
        forall|k: ReplicaId| #[trigger]
            assoc_get(final(counts)@, k, 0u64) == if k == r {
                u64_join_fn()(assoc_get(old(counts)@, r, 0u64), c)
            } else {
                assoc_get(old(counts)@, k, 0u64)
            },
{
    let ghost s0 = counts@;
    match find_slot(counts, r) {
        Some(i) => {
            proof {
                lemma_assoc_get_at(s0, r, 0u64, i as int);
            }
            let cur = counts[i].1;
            let newv = if cur >= c {
                cur
            } else {
                c
            };
            counts.set(i, (r, newv));
            proof {
                assert(counts@ =~= s0.update(i as int, (s0[i as int].0, newv)));
                assert forall|k: ReplicaId| #[trigger]
                    assoc_get(counts@, k, 0u64) == if k == r {
                        u64_join_fn()(assoc_get(s0, r, 0u64), c)
                    } else {
                        assoc_get(s0, k, 0u64)
                    } by {
                    lemma_assoc_get_update(s0, i as int, newv, k, 0u64);
                }
                assert(forall|j: int| 0 <= j < counts@.len() ==> counts@[j].0 == s0[j].0);
            }
        },
        None => {
            proof {
                lemma_assoc_get_absent(s0, r, 0u64);
            }
            let newv = c;
            counts.push((r, newv));
            proof {
                assert forall|k: ReplicaId| #[trigger]
                    assoc_get(counts@, k, 0u64) == if k == r {
                        u64_join_fn()(assoc_get(s0, r, 0u64), c)
                    } else {
                        assoc_get(s0, k, 0u64)
                    } by {
                    lemma_assoc_get_push(s0, r, newv, k, 0u64);
                }
                assert forall|i: int, j: int|
                    0 <= i < j < counts@.len() implies counts@[i].0 != counts@[j].0 by {
                    if j == counts@.len() - 1 {
                        assert(counts@[i] == s0[i]);
                    }
                }
            }
        },
    }
}

/// Decide pointwise dominance of two slot sequences' tallies.
fn slots_le(a: &Vec<(ReplicaId, u64)>, b: &Vec<(ReplicaId, u64)>) -> (r: bool)
    requires
        distinct_keys(a@),
        distinct_keys(b@),
    ensures
        r == gcounter_le(gcounter_slots(a@), gcounter_slots(b@)),
{
    let mut i: usize = 0;
    while i < a.len()
        invariant
            i <= a@.len(),
            distinct_keys(a@),
            distinct_keys(b@),
            forall|j: int| 0 <= j < i ==> #[trigger] a@[j].1 <= assoc_get(b@, a@[j].0, 0u64),
        decreases a@.len() - i,
    {
        let (k, v) = a[i];
        let bv = get_slot(b, k);
        if v > bv {
            proof {
                lemma_assoc_get_at(a@, k, 0u64, i as int);
                assert(!u64_le_fn()(gcounter_slots(a@)[k], gcounter_slots(b@)[k]));
            }
            return false;
        }
        i = i + 1;
    }
    proof {
        assert forall|k: ReplicaId| #[trigger]
            u64_le_fn()(gcounter_slots(a@)[k], gcounter_slots(b@)[k]) by {
            if has_key(a@, k) {
                let j = choose|j: int| 0 <= j < a@.len() && a@[j].0 == k;
                lemma_assoc_get_at(a@, k, 0u64, j);
            } else {
                lemma_assoc_get_absent(a@, k, 0u64);
            }
        }
    }
    true
}

impl GCounter {
    #[verifier::type_invariant]
    spec fn type_inv(&self) -> bool {
        distinct_keys(self.counts@)
    }

    /// The id this replica issues increments under.
    pub closed spec fn spec_replica_id(&self) -> ReplicaId {
        self.replica_id
    }

    /// The sum of all tallies.
    pub closed spec fn total(&self) -> int {
        sum_values(self.counts@, u64_sum_fn())
    }

    /// Create a counter with the given replica id and no recorded
    /// increments.
    ///
    /// Replica ids **must** be unique among the replicas of one counter.
    pub fn new(replica_id: ReplicaId) -> (r: GCounter)
        ensures
            r@ == gcounter_zero(),
            r.spec_replica_id() == replica_id,
            r.total() == 0,
    {
        let r = GCounter { replica_id, counts: Vec::new() };
        proof {
            assert(r@ =~= gcounter_zero());
        }
        r
    }

    /// Get the replica id this counter issues increments under.
    pub fn replica_id(&self) -> (r: ReplicaId)
        ensures
            r == self.spec_replica_id(),
    {
        self.replica_id
    }

    /// Get the current count: the sum of every replica's tally.
    pub fn count(&self) -> (r: u64)
        requires
            self.total() <= u64::MAX,
        ensures
            r == self.total(),
    {
        proof {
            use_type_invariant(&*self);
        }
        let mut sum: u64 = 0;
        let mut i: usize = 0;
        proof {
            assert(self.counts@.take(0) =~= Seq::<(ReplicaId, u64)>::empty());
        }
        while i < self.counts.len()
            invariant
                i <= self.counts@.len(),
                self.total() <= u64::MAX,
                sum == sum_values(self.counts@.take(i as int), u64_sum_fn()),
            decreases self.counts@.len() - i,
        {
            proof {
                lemma_sum_values_take_step(self.counts@, i as int, u64_sum_fn());
                lemma_sum_values_prefix_bound(self.counts@, i + 1, u64_sum_fn());
            }
            sum = sum + self.counts[i].1;
            i = i + 1;
        }
        proof {
            assert(self.counts@.take(self.counts@.len() as int) =~= self.counts@);
        }
        sum
    }

    /// Increment the local replica's tally by `amount` and return the
    /// operation to broadcast.
    ///
    /// The caller keeps the local tally within `u64::MAX`; the shared
    /// overflow bound across replicas is not checked here.
    pub fn increment(&mut self, amount: u64) -> (op: GCounterOp)
        requires
            old(self)@[old(self).spec_replica_id()] + amount <= u64::MAX,
        ensures
            final(self)@ == old(self)@.insert(
                old(self).spec_replica_id(),
                (old(self)@[old(self).spec_replica_id()] + amount) as u64,
            ),
            final(self).spec_replica_id() == old(self).spec_replica_id(),
            final(self).total() == old(self).total() + amount,
            op.replica_id == old(self).spec_replica_id(),
            op.count == final(self)@[op.replica_id],
    {
        proof {
            use_type_invariant(&*self);
        }
        let rid = self.replica_id;
        let mut counts: Vec<(ReplicaId, u64)> = Vec::new();
        core::mem::swap(&mut counts, &mut self.counts);
        let ghost s0 = counts@;
        let newv: u64;
        match find_slot(&counts, rid) {
            Some(i) => {
                proof {
                    lemma_assoc_get_at(s0, rid, 0u64, i as int);
                }
                let cur = counts[i].1;
                newv = cur + amount;
                counts.set(i, (rid, newv));
                proof {
                    assert(counts@ =~= s0.update(i as int, (s0[i as int].0, newv)));
                    assert forall|k: ReplicaId| #[trigger]
                        assoc_get(counts@, k, 0u64) == gcounter_slots(s0).insert(rid, newv)[k] by {
                        lemma_assoc_get_update(s0, i as int, newv, k, 0u64);
                    }
                    lemma_sum_values_update(s0, i as int, newv, u64_sum_fn());
                    assert(forall|j: int| 0 <= j < counts@.len() ==> counts@[j].0 == s0[j].0);
                }
            },
            None => {
                proof {
                    lemma_assoc_get_absent(s0, rid, 0u64);
                }
                newv = amount;
                counts.push((rid, newv));
                proof {
                    assert forall|k: ReplicaId| #[trigger]
                        assoc_get(counts@, k, 0u64) == gcounter_slots(s0).insert(rid, newv)[k] by {
                        lemma_assoc_get_push(s0, rid, newv, k, 0u64);
                    }
                    lemma_sum_values_push(s0, rid, newv, u64_sum_fn());
                    assert forall|i: int, j: int|
                        0 <= i < j < counts@.len() implies counts@[i].0 != counts@[j].0 by {
                        if j == counts@.len() - 1 {
                            assert(counts@[i] == s0[i]);
                        }
                    }
                }
            },
        }
        proof {
            assert(gcounter_slots(counts@) =~= gcounter_slots(s0).insert(rid, newv));
        }
        self.counts = counts;
        GCounterOp { replica_id: rid, count: newv }
    }
}

impl Clone for GCounter {
    /// Clone this replica: same view, same identity, same total.
    fn clone(&self) -> (r: GCounter)
        ensures
            r@ == self@,
            r.spec_replica_id() == self.spec_replica_id(),
            r.total() == self.total(),
    {
        proof {
            use_type_invariant(&*self);
        }
        let mut counts: Vec<(ReplicaId, u64)> = Vec::new();
        let mut i: usize = 0;
        while i < self.counts.len()
            invariant
                i <= self.counts@.len(),
                counts@ == self.counts@.take(i as int),
            decreases self.counts@.len() - i,
        {
            counts.push(self.counts[i]);
            proof {
                assert(counts@ =~= self.counts@.take(i + 1));
            }
            i = i + 1;
        }
        proof {
            assert(self.counts@.take(self.counts@.len() as int) =~= self.counts@);
        }
        GCounter { replica_id: self.replica_id, counts }
    }
}

impl Crdt for GCounter {
    type Operation = GCounterOp;

    open spec fn merged(v1: Map<ReplicaId, u64>, v2: Map<ReplicaId, u64>) -> Map<ReplicaId, u64> {
        gcounter_join(v1, v2)
    }

    open spec fn op_state(op: &GCounterOp) -> Map<ReplicaId, u64> {
        gcounter_op_state(*op)
    }

    /// Merge a replica into this counter: every tally becomes the larger
    /// of the two replicas' tallies.
    fn merge(&mut self, other: GCounter) {
        proof {
            use_type_invariant(&*self);
            use_type_invariant(&other);
        }
        let ghost v0 = self@;
        let mut counts: Vec<(ReplicaId, u64)> = Vec::new();
        core::mem::swap(&mut counts, &mut self.counts);
        let ghost os = other.counts@;
        let mut j: usize = 0;
        proof {
            assert(os.take(0) =~= Seq::<(ReplicaId, u64)>::empty());
            assert(gcounter_slots(counts@) =~= gcounter_join(v0, gcounter_slots(os.take(0))));
        }
        while j < other.counts.len()
            invariant
                j <= os.len(),
                os == other.counts@,
                distinct_keys(counts@),
                distinct_keys(os),
                gcounter_slots(counts@) == gcounter_join(v0, gcounter_slots(os.take(j as int))),
            decreases os.len() - j,
        {
            let rid = other.counts[j].0;
            let c = other.counts[j].1;
            let ghost cpre = counts@;
            join_slot(&mut counts, rid, c);
            proof {
                assert(os[j as int] == (rid, c));
                assert(forall|jj: int| 0 <= jj < j ==> os.take(j as int)[jj] == os[jj]);
                assert(!has_key(os.take(j as int), rid));
                lemma_assoc_get_absent(os.take(j as int), rid, 0u64);
                assert forall|k: ReplicaId| #[trigger]
                    gcounter_slots(counts@)[k] == gcounter_join(
                        v0,
                        gcounter_slots(os.take(j + 1)),
                    )[k] by {
                    let tj = os.take(j as int);
                    let tj1 = os.take(j + 1);
                    lemma_assoc_get_take_step(os, j as int, k, 0u64);
                    assert(gcounter_join(v0, gcounter_slots(tj1))[k] == u64_join_fn()(
                        v0[k],
                        assoc_get(tj1, k, 0u64),
                    ));
                    assert(gcounter_slots(cpre)[k] == u64_join_fn()(
                        v0[k],
                        assoc_get(tj, k, 0u64),
                    ));
                    if k == rid {
                        assert(assoc_get(tj, k, 0u64) == 0u64);
                        assert(assoc_get(tj1, k, 0u64) == c);
                        assert(assoc_get(counts@, k, 0u64) == u64_join_fn()(
                            assoc_get(cpre, rid, 0u64),
                            c,
                        ));
                        assert(assoc_get(cpre, rid, 0u64) == gcounter_slots(cpre)[rid]);
                    } else {
                        assert(assoc_get(tj1, k, 0u64) == assoc_get(tj, k, 0u64));
                        assert(assoc_get(counts@, k, 0u64) == assoc_get(cpre, k, 0u64));
                    }
                }
                assert(gcounter_slots(counts@) =~= gcounter_join(
                    v0,
                    gcounter_slots(os.take(j + 1)),
                ));
            }
            j = j + 1;
        }
        proof {
            assert(os.take(os.len() as int) =~= os);
        }
        self.counts = counts;
    }

    /// Apply an increment operation: the issuing replica's tally becomes
    /// at least the snapshot the operation carries.  Applying the same
    /// operation again changes nothing.
    fn apply(&mut self, op: GCounterOp) {
        proof {
            use_type_invariant(&*self);
        }
        let ghost v0 = self@;
        let mut counts: Vec<(ReplicaId, u64)> = Vec::new();
        core::mem::swap(&mut counts, &mut self.counts);
        join_slot(&mut counts, op.replica_id, op.count);
        proof {
            assert(gcounter_slots(counts@) =~= gcounter_join(v0, gcounter_op_state(op)));
        }
        self.counts = counts;
    }
}

impl PartialEq for GCounter {
    /// Replicas are equal when they have recorded the same tally for
    /// every replica id; the local replica identity takes no part.
    fn eq(&self, other: &GCounter) -> (r: bool) {
        proof {
            use_type_invariant(&*self);
            use_type_invariant(&*other);
        }
        let le1 = slots_le(&self.counts, &other.counts);
        let le2 = slots_le(&other.counts, &self.counts);
        proof {
            lemma_gcounter_eq_iff_le_both(self@, other@);
        }
        le1 && le2
    }
}

impl Eq for GCounter {}

impl vstd::std_specs::cmp::PartialEqSpecImpl for GCounter {
    open spec fn obeys_eq_spec() -> bool {
        true
    }

    open spec fn eq_spec(&self, other: &GCounter) -> bool {
        self@ == other@
    }
}

impl PartialOrd for GCounter {
    /// The derived partial order: one replica is below another when the
    /// other has seen at least as large a tally for every replica id.
    /// `None` means the replicas have diverged — each has increments the
    /// other lacks — which is an expected outcome, not an error.
    fn partial_cmp(&self, other: &GCounter) -> (r: Option<core::cmp::Ordering>) {
        proof {
            use_type_invariant(&*self);
            use_type_invariant(&*other);
        }
        let le1 = slots_le(&self.counts, &other.counts);
        let le2 = slots_le(&other.counts, &self.counts);
        proof {
            lemma_gcounter_eq_iff_le_both(self@, other@);
        }
        if le1 && le2 {
            Some(core::cmp::Ordering::Equal)
        } else if le1 {
            Some(core::cmp::Ordering::Less)
        } else if le2 {
            Some(core::cmp::Ordering::Greater)
        } else {
            None
        }
    }
}

impl vstd::std_specs::cmp::PartialOrdSpecImpl for GCounter {
    open spec fn obeys_partial_cmp_spec() -> bool {
        true
    }

    open spec fn partial_cmp_spec(&self, other: &GCounter) -> Option<core::cmp::Ordering> {
        if self@ == other@ {
            Some(core::cmp::Ordering::Equal)
        } else if gcounter_le(self@, other@) {
            Some(core::cmp::Ordering::Less)
        } else if gcounter_le(other@, self@) {
            Some(core::cmp::Ordering::Greater)
        } else {
            None
        }
    }
}

/// Merging is commutative: merging `b` into `a` and merging `a` into
/// `b` produce the same view.
pub proof fn lemma_gcounter_merge_commutative(v1: Map<ReplicaId, u64>, v2: Map<ReplicaId, u64>)
    ensures
        gcounter_join(v1, v2) == gcounter_join(v2, v1),
{
    lemma_map_join_commutative(v1, v2, u64_join_fn());
}

/// Merging is idempotent: merging a replica with itself changes nothing.
pub proof fn lemma_gcounter_merge_idempotent(v: Map<ReplicaId, u64>)
    requires
        is_total(v),
    ensures
        gcounter_join(v, v) == v,
{
    lemma_map_join_idempotent(v, u64_join_fn());
}

/// Merging is associative.
pub proof fn lemma_gcounter_merge_associative(
    v1: Map<ReplicaId, u64>,
    v2: Map<ReplicaId, u64>,
    v3: Map<ReplicaId, u64>,
)
    ensures
        gcounter_join(gcounter_join(v1, v2), v3) == gcounter_join(v1, gcounter_join(v2, v3)),
{
    lemma_map_join_associative(v1, v2, v3, u64_join_fn());
}

/// The join law: a merge dominates both of its inputs, and one view is
/// below another exactly when merging it in changes nothing.
pub proof fn lemma_gcounter_join_law(v1: Map<ReplicaId, u64>, v2: Map<ReplicaId, u64>)
    requires
        is_total(v2),
    ensures
        gcounter_le(v1, gcounter_join(v1, v2)),
        gcounter_le(v2, gcounter_join(v1, v2)),
        gcounter_le(v1, v2) <==> gcounter_join(v1, v2) == v2,
{
    lemma_map_join_upper_bound(v1, v2, u64_join_fn(), u64_le_fn());
    lemma_map_le_iff_join(v1, v2, u64_join_fn(), u64_le_fn());
}

/// Ordering reflexivity and antisymmetry: two views are equal exactly
/// when each is below the other.
pub proof fn lemma_gcounter_eq_iff_le_both(v1: Map<ReplicaId, u64>, v2: Map<ReplicaId, u64>)
    requires
        is_total(v1),
        is_total(v2),
    ensures
        v1 == v2 <==> (gcounter_le(v1, v2) && gcounter_le(v2, v1)),
{
    if gcounter_le(v1, v2) && gcounter_le(v2, v1) {
        lemma_map_le_antisymmetric(v1, v2, u64_le_fn());
    }
    if v1 == v2 {
        lemma_map_le_refl(v1, u64_le_fn());
    }
}

/// Applying operations is order-independent: any two interleavings of
/// the same multiset of operations, applied to the same starting view,
/// end in the same view.
pub proof fn lemma_gcounter_apply_order_independent(
    v: Map<ReplicaId, u64>,
    ops1: Seq<GCounterOp>,
    ops2: Seq<GCounterOp>,
)
    requires
        ops1.to_multiset() == ops2.to_multiset(),
    ensures
        gcounter_apply_all(v, ops1) == gcounter_apply_all(v, ops2),
{
    let st = |op: GCounterOp| gcounter_op_state(op);
    let j = u64_join_fn();
    let f = gcounter_step_fn();
    let f2 = |m: Map<ReplicaId, u64>, op: GCounterOp| map_join(m, st(op), j);
    assert(f =~= f2);
    lemma_fold_join_permutation(v, ops1, ops2, st, j);
}

} // verus!
