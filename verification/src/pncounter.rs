//! An incrementable and decrementable counter.

use vstd::prelude::*;
use vstd::pervasive::VecAdditionalExecFns;
use crate::assoc::{
    assoc_get, distinct_keys, has_key, lemma_assoc_get_absent, lemma_assoc_get_at,
    lemma_assoc_get_push, lemma_assoc_get_take_step, lemma_assoc_get_update,
    lemma_sum_values_prefix_bound, lemma_sum_values_push, lemma_sum_values_take_step,
    lemma_sum_values_update, sum_values,
};
use crate::pn::{pn_join, pn_join_fn, pn_le, pn_le_fn, pn_n_sum_fn, pn_p_sum_fn, pn_zero, Pn};
use crate::semilattice::{
    is_total, lemma_fold_join_permutation, lemma_map_join_associative, lemma_map_join_commutative,
    lemma_map_join_idempotent, lemma_map_join_upper_bound, lemma_map_le_antisymmetric,
    lemma_map_le_iff_join, lemma_map_le_refl, map_join, map_le,
};
use crate::{Crdt, ReplicaId};

verus! {

/// An incrementable and decrementable counter.
///
/// The same shape as a grow-only counter, but each replica's slot is a
/// [`Pn`] accumulator, so increments can be negative: a decrement grows
/// the slot's negative side.  The counter's value is the sum of the
/// slots' signed counts.  Merging joins the slots pointwise, so no
/// increment or decrement is ever counted twice.
///
/// Letting one replica's accumulated increments exceed `i64::MAX`, or
/// its accumulated decrements exceed the magnitude of `i64::MIN`, is
/// undefined behavior shared across all replicas; decrements do not
/// offset increments for the purposes of these bounds.
#[derive(Debug)]
pub struct PnCounter {
    replica_id: ReplicaId,
    counts: Vec<(ReplicaId, Pn)>,
}

/// An increment operation over [`PnCounter`] replicas.
///
/// Carries the issuing replica's id and that replica's resulting
/// accumulator — an absolute snapshot rather than a delta, so applying
/// it twice, or late, cannot double-count.
#[derive(Clone, Copy, Debug, PartialEq, Eq, Hash, Structural)]
pub struct PnCounterOp {
    /// The replica that issued the increment.
    pub replica_id: ReplicaId,
    /// That replica's accumulator after the increment.
    pub pn: Pn,
}

/// The slots described by a slot sequence: a zeroed accumulator for
/// replicas that have no slot.
pub open spec fn pncounter_slots(s: Seq<(ReplicaId, Pn)>) -> Map<ReplicaId, Pn> {
    Map::total(|r: ReplicaId| assoc_get(s, r, pn_zero()))
}

/// The view of a counter that has seen nothing.
pub open spec fn pncounter_zero() -> Map<ReplicaId, Pn> {
    Map::total(|r: ReplicaId| pn_zero())
}

/// The join of two counter views: the pointwise join of the
/// accumulators.
pub open spec fn pncounter_join(v1: Map<ReplicaId, Pn>, v2: Map<ReplicaId, Pn>) -> Map<
    ReplicaId,
    Pn,
> {
    map_join(v1, v2, pn_join_fn())
}

/// The derived partial order: pointwise dominance of the accumulators.
pub open spec fn pncounter_le(v1: Map<ReplicaId, Pn>, v2: Map<ReplicaId, Pn>) -> bool {
    map_le(v1, v2, pn_le_fn())
}

/// The state snapshot an increment operation carries: the issuing
/// replica's accumulator, and nothing else.
pub open spec fn pncounter_op_state(op: PnCounterOp) -> Map<ReplicaId, Pn> {
    Map::total(
        |r: ReplicaId|
            if r == op.replica_id {
                op.pn
            } else {
                pn_zero()
            },
    )
}

/// One application step: join the operation's snapshot into the view.
pub open spec fn pncounter_step_fn() -> spec_fn(Map<ReplicaId, Pn>, PnCounterOp) -> Map<
    ReplicaId,
    Pn,
> {
    |m: Map<ReplicaId, Pn>, op: PnCounterOp| pncounter_join(m, pncounter_op_state(op))
}

/// The view after applying a sequence of operations in order.
pub open spec fn pncounter_apply_all(v: Map<ReplicaId, Pn>, ops: Seq<PnCounterOp>) -> Map<
    ReplicaId,
    Pn,
> {
    ops.fold_left(v, pncounter_step_fn())
}

impl View for PnCounter {
    type V = Map<ReplicaId, Pn>;

    closed spec fn view(&self) -> Map<ReplicaId, Pn> {
        pncounter_slots(self.counts@)
    }
}

/// Find the slot of a replica, if it has one.
fn find_slot(counts: &Vec<(ReplicaId, Pn)>, r: ReplicaId) -> (res: Option<usize>)
    ensures
        match res {
            Some(i) => i < counts@.len() && counts@[i as int].0 == r,
            None => !has_key(counts@, r),
        },
{
    let mut i: usize = 0;
    while i < counts.len()
        invariant
            i <= counts@.len(),
            forall|j: int| 0 <= j < i ==> counts@[j].0 != r,
        decreases counts@.len() - i,
    {
        if counts[i].0 == r {
            return Some(i);
        }
        i = i + 1;
    }
    None
}

/// Read a replica's slot, with a zeroed accumulator for replicas that
/// have no slot.
fn get_slot(counts: &Vec<(ReplicaId, Pn)>, r: ReplicaId) -> (c: Pn)
    requires
        distinct_keys(counts@),
    ensures
        c == assoc_get(counts@, r, pn_zero()),
{
    match find_slot(counts, r) {
        Some(i) => {
            proof {
                lemma_assoc_get_at(counts@, r, pn_zero(), i as int);
            }
            counts[i].1
        },
        None => {
            proof {
                lemma_assoc_get_absent(counts@, r, pn_zero());
            }
            Pn::new()
        },
    }
}

/// Join `c` into a replica's slot, leaving the other slots unchanged.
fn join_slot(counts: &mut Vec<(ReplicaId, Pn)>, r: ReplicaId, c: Pn)
    requires
        distinct_keys(old(counts)@),
    ensures
        distinct_keys(final(counts)@),
        forall|k: ReplicaId| #[trigger]
            assoc_get(final(counts)@, k, pn_zero()) == if k == r {
                pn_join(assoc_get(old(counts)@, r, pn_zero()), c)
            } else {
                assoc_get(old(counts)@, k, pn_zero())
            },
{
    let ghost s0 = counts@;
    match find_slot(counts, r) {
        Some(i) => {
            proof {
                lemma_assoc_get_at(s0, r, pn_zero(), i as int);
            }
            let mut cur = counts[i].1;
            cur.merge(c);
            counts.set(i, (r, cur));
            proof {
                assert(counts@ =~= s0.update(i as int, (s0[i as int].0, cur)));
                assert forall|k: ReplicaId| #[trigger]
                    assoc_get(counts@, k, pn_zero()) == if k == r {
                        pn_join(assoc_get(s0, r, pn_zero()), c)
                    } else {
                        assoc_get(s0, k, pn_zero())
                    } by {
                    lemma_assoc_get_update(s0, i as int, cur, k, pn_zero());
                }
                assert(forall|j: int| 0 <= j < counts@.len() ==> counts@[j].0 == s0[j].0);
            }
        },
        None => {
            proof {
                lemma_assoc_get_absent(s0, r, pn_zero());
            }
            let mut cur = Pn::new();
            cur.merge(c);
            counts.push((r, cur));
            proof {
                assert forall|k: ReplicaId| #[trigger]
                    assoc_get(counts@, k, pn_zero()) == if k == r {
                        pn_join(assoc_get(s0, r, pn_zero()), c)
                    } else {
                        assoc_get(s0, k, pn_zero())
                    } by {
                    lemma_assoc_get_push(s0, r, cur, k, pn_zero());
                }
                assert forall|i: int, j: int|
                    0 <= i < j < counts@.len() implies counts@[i].0 != counts@[j].0 by {
                    if j == counts@.len() - 1 {
                        assert(counts@[i] == s0[i]);
                    }
                }
            }
        },
    }
}

/// Decide pointwise dominance of two slot sequences' accumulators.
fn slots_le(a: &Vec<(ReplicaId, Pn)>, b: &Vec<(ReplicaId, Pn)>) -> (r: bool)
    requires
        distinct_keys(a@),
        distinct_keys(b@),
    ensures
        r == pncounter_le(pncounter_slots(a@), pncounter_slots(b@)),
{
    let mut i: usize = 0;
    while i < a.len()
        invariant
            i <= a@.len(),
            distinct_keys(a@),
            distinct_keys(b@),
            forall|j: int| 0 <= j < i ==> #[trigger] pn_le(
                a@[j].1,
                assoc_get(b@, a@[j].0, pn_zero()),
            ),
        decreases a@.len() - i,
    {
        let k = a[i].0;
        let v = a[i].1;
        let bv = get_slot(b, k);
        if v.p > bv.p || v.n > bv.n {
            proof {
                lemma_assoc_get_at(a@, k, pn_zero(), i as int);
                assert(!pn_le_fn()(pncounter_slots(a@)[k], pncounter_slots(b@)[k]));
            }
            return false;
        }
        i = i + 1;
    }
    proof {
        assert forall|k: ReplicaId| #[trigger]
            pn_le_fn()(pncounter_slots(a@)[k], pncounter_slots(b@)[k]) by {
            if has_key(a@, k) {
                let j = choose|j: int| 0 <= j < a@.len() && a@[j].0 == k;
                lemma_assoc_get_at(a@, k, pn_zero(), j);
            } else {
                lemma_assoc_get_absent(a@, k, pn_zero());
            }
        }
    }
    true
}

impl PnCounter {
    #[verifier::type_invariant]
    spec fn type_inv(&self) -> bool {
        distinct_keys(self.counts@)
    }

    /// The id this replica issues increments under.
    pub closed spec fn spec_replica_id(&self) -> ReplicaId {
        self.replica_id
    }

    /// The sum of the slots' positive counts.
    pub closed spec fn total_p(&self) -> int {
        sum_values(self.counts@, pn_p_sum_fn())
    }

    /// The sum of the slots' negative counts.
    pub closed spec fn total_n(&self) -> int {
        sum_values(self.counts@, pn_n_sum_fn())
    }

    /// The signed count: all increments minus all decrements.
    pub open spec fn total(&self) -> int {
        self.total_p() - self.total_n()
    }

    /// Create a counter with the given replica id and an initial count
    /// of zero.
    ///
    /// Replica ids **must** be unique among the replicas of one counter.
    pub fn new(replica_id: ReplicaId) -> (r: PnCounter)
        ensures
            r@ == pncounter_zero(),
            r.spec_replica_id() == replica_id,
            r.total_p() == 0,
            r.total_n() == 0,
    {
        let r = PnCounter { replica_id, counts: Vec::new() };
        proof {
            assert(r@ =~= pncounter_zero());
        }
        r
    }

    /// Get the replica id this counter issues increments under.
    pub fn replica_id(&self) -> (r: ReplicaId)
        ensures
            r == self.spec_replica_id(),
    {
        self.replica_id
    }

    /// Get the current count: every replica's increments minus its
    /// decrements.
    pub fn count(&self) -> (r: i64)
        requires
            self.total_p() <= i64::MAX as int,
            self.total_n() <= i64::MAX as int,
        ensures
            r == self.total(),
    {
        proof {
            use_type_invariant(&*self);
        }
        let mut sp: u64 = 0;
        let mut sn: u64 = 0;
        let mut i: usize = 0;
        proof {
            assert(self.counts@.take(0) =~= Seq::<(ReplicaId, Pn)>::empty());
        }
        while i < self.counts.len()
            invariant
                i <= self.counts@.len(),
                self.total_p() <= i64::MAX as int,
                self.total_n() <= i64::MAX as int,
                sp == sum_values(self.counts@.take(i as int), pn_p_sum_fn()),
                sn == sum_values(self.counts@.take(i as int), pn_n_sum_fn()),
            decreases self.counts@.len() - i,
        {
            proof {
                lemma_sum_values_take_step(self.counts@, i as int, pn_p_sum_fn());
                lemma_sum_values_take_step(self.counts@, i as int, pn_n_sum_fn());
                lemma_sum_values_prefix_bound(self.counts@, i + 1, pn_p_sum_fn());
                lemma_sum_values_prefix_bound(self.counts@, i + 1, pn_n_sum_fn());
            }
            sp = sp + self.counts[i].1.p;
            sn = sn + self.counts[i].1.n;
            i = i + 1;
        }
        proof {
            assert(self.counts@.take(self.counts@.len() as int) =~= self.counts@);
        }
        sp as i64 - sn as i64
    }

    /// Increment the counter by `amount`; a negative `amount` is a
    /// decrement.  Returns the operation to broadcast.
    ///
    /// The caller keeps the local slot within `u64::MAX` on the side it
    /// grows; the shared overflow bound across replicas is not checked
    /// here.
    pub fn increment(&mut self, amount: i64) -> (op: PnCounterOp)
        requires
            amount >= 0 ==> old(self)@[old(self).spec_replica_id()].p + amount <= u64::MAX,
            amount < 0 ==> old(self)@[old(self).spec_replica_id()].n - amount <= u64::MAX,
        ensures
            final(self).spec_replica_id() == old(self).spec_replica_id(),
            final(self)@ == old(self)@.insert(
                old(self).spec_replica_id(),
                final(self)@[old(self).spec_replica_id()],
            ),
            amount >= 0 ==> final(self)@[old(self).spec_replica_id()] == (Pn {
                p: (old(self)@[old(self).spec_replica_id()].p + amount) as u64,
                n: old(self)@[old(self).spec_replica_id()].n,
            }),
            amount < 0 ==> final(self)@[old(self).spec_replica_id()] == (Pn {
                p: old(self)@[old(self).spec_replica_id()].p,
                n: (old(self)@[old(self).spec_replica_id()].n - amount) as u64,
            }),
            amount >= 0 ==> final(self).total_p() == old(self).total_p() + amount,
            amount >= 0 ==> final(self).total_n() == old(self).total_n(),
            amount < 0 ==> final(self).total_p() == old(self).total_p(),
            amount < 0 ==> final(self).total_n() == old(self).total_n() - amount,
            op.replica_id == old(self).spec_replica_id(),
            op.pn == final(self)@[op.replica_id],
    {
        proof {
            use_type_invariant(&*self);
        }
        let rid = self.replica_id;
        let mut counts: Vec<(ReplicaId, Pn)> = Vec::new();
        core::mem::swap(&mut counts, &mut self.counts);
        let ghost s0 = counts@;
        let newv: Pn;
        match find_slot(&counts, rid) {
            Some(i) => {
                proof {
                    lemma_assoc_get_at(s0, rid, pn_zero(), i as int);
                }
                let mut cur = counts[i].1;
                cur.increment(amount);
                newv = cur;
                counts.set(i, (rid, newv));
                proof {
                    assert(counts@ =~= s0.update(i as int, (s0[i as int].0, newv)));
                    assert forall|k: ReplicaId| #[trigger]
                        assoc_get(counts@, k, pn_zero()) == pncounter_slots(s0).insert(
                            rid,
                            newv,
                        )[k] by {
                        lemma_assoc_get_update(s0, i as int, newv, k, pn_zero());
                    }
                    lemma_sum_values_update(s0, i as int, newv, pn_p_sum_fn());
                    lemma_sum_values_update(s0, i as int, newv, pn_n_sum_fn());
                    assert(forall|j: int| 0 <= j < counts@.len() ==> counts@[j].0 == s0[j].0);
                }
            },
            None => {
                proof {
                    lemma_assoc_get_absent(s0, rid, pn_zero());
                }
                let mut cur = Pn::new();
                cur.increment(amount);
                newv = cur;
                counts.push((rid, newv));
                proof {
                    assert forall|k: ReplicaId| #[trigger]
                        assoc_get(counts@, k, pn_zero()) == pncounter_slots(s0).insert(
                            rid,
                            newv,
                        )[k] by {
                        lemma_assoc_get_push(s0, rid, newv, k, pn_zero());
                    }
                    lemma_sum_values_push(s0, rid, newv, pn_p_sum_fn());
                    lemma_sum_values_push(s0, rid, newv, pn_n_sum_fn());
                    assert forall|i: int, j: int|
                        0 <= i < j < counts@.len() implies counts@[i].0 != counts@[j].0 by {
                        if j == counts@.len() - 1 {
                            assert(counts@[i] == s0[i]);
                        }
                    }
                }
            },
        }
        proof {
            assert(pncounter_slots(counts@) =~= pncounter_slots(s0).insert(rid, newv));
        }
        self.counts = counts;
        PnCounterOp { replica_id: rid, pn: newv }
    }
}

impl Clone for PnCounter {
    /// Clone this replica: same view, same identity, same totals.
    fn clone(&self) -> (r: PnCounter)
        ensures
            r@ == self@,
            r.spec_replica_id() == self.spec_replica_id(),
            r.total_p() == self.total_p(),
            r.total_n() == self.total_n(),
    {
        proof {
            use_type_invariant(&*self);
        }
        let mut counts: Vec<(ReplicaId, Pn)> = Vec::new();
        let mut i: usize = 0;
        while i < self.counts.len()
            invariant
                i <= self.counts@.len(),
                counts@ == self.counts@.take(i as int),
            decreases self.counts@.len() - i,
        {
            counts.push(self.counts[i]);
            proof {
                assert(counts@ =~= self.counts@.take(i + 1));
            }
            i = i + 1;
        }
        proof {
            assert(self.counts@.take(self.counts@.len() as int) =~= self.counts@);
        }
        PnCounter { replica_id: self.replica_id, counts }
    }
}

impl Crdt for PnCounter {
    type Operation = PnCounterOp;

    open spec fn merged(v1: Map<ReplicaId, Pn>, v2: Map<ReplicaId, Pn>) -> Map<ReplicaId, Pn> {
        pncounter_join(v1, v2)
    }

    open spec fn op_state(op: &PnCounterOp) -> Map<ReplicaId, Pn> {
        pncounter_op_state(*op)
    }

    /// Merge a replica into this counter: every slot becomes the join of
    /// the two replicas' slots.
    fn merge(&mut self, other: PnCounter) {
        proof {
            use_type_invariant(&*self);
            use_type_invariant(&other);
        }
        let ghost v0 = self@;
        let mut counts: Vec<(ReplicaId, Pn)> = Vec::new();
        core::mem::swap(&mut counts, &mut self.counts);
        let ghost os = other.counts@;
        let mut j: usize = 0;
        proof {
            assert(os.take(0) =~= Seq::<(ReplicaId, Pn)>::empty());
            assert(pncounter_slots(counts@) =~= pncounter_join(v0, pncounter_slots(os.take(0))));
        }
        while j < other.counts.len()
            invariant
                j <= os.len(),
                os == other.counts@,
                distinct_keys(counts@),
                distinct_keys(os),
                pncounter_slots(counts@) == pncounter_join(v0, pncounter_slots(os.take(j as int))),
            decreases os.len() - j,
        {
            let rid = other.counts[j].0;
            let c = other.counts[j].1;
            let ghost cpre = counts@;
            join_slot(&mut counts, rid, c);
            proof {
                assert(os[j as int] == (rid, c));
                assert(forall|jj: int| 0 <= jj < j ==> os.take(j as int)[jj] == os[jj]);
                assert(!has_key(os.take(j as int), rid));
                lemma_assoc_get_absent(os.take(j as int), rid, pn_zero());
                assert forall|k: ReplicaId| #[trigger]
                    pncounter_slots(counts@)[k] == pncounter_join(
                        v0,
                        pncounter_slots(os.take(j + 1)),
                    )[k] by {
                    let tj = os.take(j as int);
                    let tj1 = os.take(j + 1);
                    lemma_assoc_get_take_step(os, j as int, k, pn_zero());
                    assert(pncounter_join(v0, pncounter_slots(tj1))[k] == pn_join_fn()(
                        v0[k],
                        assoc_get(tj1, k, pn_zero()),
                    ));
                    assert(pncounter_slots(cpre)[k] == pn_join_fn()(
                        v0[k],
                        assoc_get(tj, k, pn_zero()),
                    ));
                    if k == rid {
                        assert(assoc_get(tj, k, pn_zero()) == pn_zero());
                        assert(assoc_get(tj1, k, pn_zero()) == c);
                        assert(assoc_get(counts@, k, pn_zero()) == pn_join(
                            assoc_get(cpre, rid, pn_zero()),
                            c,
                        ));
                        assert(assoc_get(cpre, rid, pn_zero()) == pncounter_slots(cpre)[rid]);
                    } else {
                        assert(assoc_get(tj1, k, pn_zero()) == assoc_get(tj, k, pn_zero()));
                        assert(assoc_get(counts@, k, pn_zero()) == assoc_get(cpre, k, pn_zero()));
                    }
                }
                assert(pncounter_slots(counts@) =~= pncounter_join(
                    v0,
                    pncounter_slots(os.take(j + 1)),
                ));
            }
            j = j + 1;
        }
        proof {
            assert(os.take(os.len() as int) =~= os);
        }
        self.counts = counts;
    }

    /// Apply an increment operation: the issuing replica's slot becomes
    /// the join of the stored slot and the snapshot the operation
    /// carries.  Applying the same operation again changes nothing.
    fn apply(&mut self, op: PnCounterOp) {
        proof {
            use_type_invariant(&*self);
        }
        let ghost v0 = self@;
        let mut counts: Vec<(ReplicaId, Pn)> = Vec::new();
        core::mem::swap(&mut counts, &mut self.counts);
        join_slot(&mut counts, op.replica_id, op.pn);
        proof {
            assert(pncounter_slots(counts@) =~= pncounter_join(v0, pncounter_op_state(op)));
        }
        self.counts = counts;
    }
}

impl PartialEq for PnCounter {
    /// Replicas are equal when they have recorded the same accumulator
    /// for every replica id; the local replica identity takes no part.
    fn eq(&self, other: &PnCounter) -> (r: bool) {
        proof {
            use_type_invariant(&*self);
            use_type_invariant(&*other);
        }
        let le1 = slots_le(&self.counts, &other.counts);
        let le2 = slots_le(&other.counts, &self.counts);
        proof {
            lemma_pncounter_eq_iff_le_both(self@, other@);
        }
        le1 && le2
    }
}

impl Eq for PnCounter {}

impl vstd::std_specs::cmp::PartialEqSpecImpl for PnCounter {
    open spec fn obeys_eq_spec() -> bool {
        true
    }

    open spec fn eq_spec(&self, other: &PnCounter) -> bool {
        self@ == other@
    }
}

impl PartialOrd for PnCounter {
    /// The derived partial order: one replica is below another when the
    /// other dominates every slot.  `None` means the replicas have
    /// diverged, which is an expected outcome, not an error.
    fn partial_cmp(&self, other: &PnCounter) -> (r: Option<core::cmp::Ordering>) {
        proof {
            use_type_invariant(&*self);
            use_type_invariant(&*other);
        }
        let le1 = slots_le(&self.counts, &other.counts);
        let le2 = slots_le(&other.counts, &self.counts);
        proof {
            lemma_pncounter_eq_iff_le_both(self@, other@);
        }
        if le1 && le2 {
            Some(core::cmp::Ordering::Equal)
        } else if le1 {
            Some(core::cmp::Ordering::Less)
        } else if le2 {
            Some(core::cmp::Ordering::Greater)
        } else {
            None
        }
    }
}

impl vstd::std_specs::cmp::PartialOrdSpecImpl for PnCounter {
    open spec fn obeys_partial_cmp_spec() -> bool {
        true
    }

    open spec fn partial_cmp_spec(&self, other: &PnCounter) -> Option<core::cmp::Ordering> {
        if self@ == other@ {
            Some(core::cmp::Ordering::Equal)
        } else if pncounter_le(self@, other@) {
            Some(core::cmp::Ordering::Less)
        } else if pncounter_le(other@, self@) {
            Some(core::cmp::Ordering::Greater)
        } else {
            None
        }
    }
}

/// Merging is commutative: merging `b` into `a` and merging `a` into
/// `b` produce the same view.
pub proof fn lemma_pncounter_merge_commutative(v1: Map<ReplicaId, Pn>, v2: Map<ReplicaId, Pn>)
    ensures
        pncounter_join(v1, v2) == pncounter_join(v2, v1),
{
    lemma_map_join_commutative(v1, v2, pn_join_fn());
}

/// Merging is idempotent: merging a replica with itself changes nothing.
pub proof fn lemma_pncounter_merge_idempotent(v: Map<ReplicaId, Pn>)
    requires
        is_total(v),
    ensures
        pncounter_join(v, v) == v,
{
    lemma_map_join_idempotent(v, pn_join_fn());
}

/// Merging is associative.
pub proof fn lemma_pncounter_merge_associative(
    v1: Map<ReplicaId, Pn>,
    v2: Map<ReplicaId, Pn>,
    v3: Map<ReplicaId, Pn>,
)
    ensures
        pncounter_join(pncounter_join(v1, v2), v3) == pncounter_join(v1, pncounter_join(v2, v3)),
{
    lemma_map_join_associative(v1, v2, v3, pn_join_fn());
}

/// The join law: a merge dominates both of its inputs, and one view is
/// below another exactly when merging it in changes nothing.
pub proof fn lemma_pncounter_join_law(v1: Map<ReplicaId, Pn>, v2: Map<ReplicaId, Pn>)
    requires
        is_total(v2),
    ensures
        pncounter_le(v1, pncounter_join(v1, v2)),
        pncounter_le(v2, pncounter_join(v1, v2)),
        pncounter_le(v1, v2) <==> pncounter_join(v1, v2) == v2,
{
    lemma_map_join_upper_bound(v1, v2, pn_join_fn(), pn_le_fn());
    lemma_map_le_iff_join(v1, v2, pn_join_fn(), pn_le_fn());
}

/// Ordering reflexivity and antisymmetry: two views are equal exactly
/// when each is below the other.
pub proof fn lemma_pncounter_eq_iff_le_both(v1: Map<ReplicaId, Pn>, v2: Map<ReplicaId, Pn>)
    requires
        is_total(v1),
        is_total(v2),
    ensures
        v1 == v2 <==> (pncounter_le(v1, v2) && pncounter_le(v2, v1)),
{
    if pncounter_le(v1, v2) && pncounter_le(v2, v1) {
        lemma_map_le_antisymmetric(v1, v2, pn_le_fn());
    }
    if v1 == v2 {
        lemma_map_le_refl(v1, pn_le_fn());
    }
}

/// Applying operations is order-independent: any two interleavings of
/// the same multiset of operations, applied to the same starting view,
/// end in the same view.
pub proof fn lemma_pncounter_apply_order_independent(
    v: Map<ReplicaId, Pn>,
    ops1: Seq<PnCounterOp>,
    ops2: Seq<PnCounterOp>,
)
    requires
        ops1.to_multiset() == ops2.to_multiset(),
    ensures
        pncounter_apply_all(v, ops1) == pncounter_apply_all(v, ops2),
{
    let st = |op: PnCounterOp| pncounter_op_state(op);
    let j = pn_join_fn();
    let f = pncounter_step_fn();
    let f2 = |m: Map<ReplicaId, Pn>, op: PnCounterOp| map_join(m, st(op), j);
    assert(f =~= f2);
    lemma_fold_join_permutation(v, ops1, ops2, st, j);
}

} // verus!
