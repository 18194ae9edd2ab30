//! A counting add/remove set.

use vstd::prelude::*;
use vstd::pervasive::VecAdditionalExecFns;
use crate::assoc::{
    assoc_get, count_matching, distinct_keys, has_key, lemma_assoc_get_absent, lemma_assoc_get_at,
    lemma_assoc_get_push, lemma_assoc_get_take_step, lemma_assoc_get_update,
    lemma_count_matching_card, lemma_count_matching_take_step, lemma_matching_key_seq_props,
    lemma_matching_key_seq_take_step, lemma_matching_keys_get, lemma_sum_values_prefix_bound,
    lemma_sum_values_take_step, matching_key_seq, matching_keys, sum_values,
};
use crate::pn::{pn_join, pn_le, pn_n_sum_fn, pn_p_sum_fn, pn_zero, Pn};
use crate::pncounter::{
    lemma_pncounter_eq_iff_le_both, lemma_pncounter_join_law, lemma_pncounter_merge_idempotent,
    pncounter_join, pncounter_le, pncounter_slots, pncounter_zero,
};
use crate::semilattice::{
    is_total, lemma_fold_join_permutation, lemma_map_join_associative, lemma_map_join_commutative,
    map_join, map_le,
};
use crate::{Crdt, Element, ReplicaId};

verus! {

/// A counting add/remove set.
///
/// Each element maps to one [`Pn`] accumulator per replica that has
/// touched it: an insert bumps the local replica's positive side, a
/// removal its negative side, and an element is a member exactly when
/// the accumulators sum to a positive count.  Keeping the per-replica
/// provenance (rather than one merged accumulator per element) is what
/// makes the state-based merge exact: merging joins each replica's
/// contribution pointwise and can never count it twice.
///
/// Set semantics are deliberately approximate: inserting twice takes two
/// removals to undo, and a removal of an absent element makes the next
/// insert invisible.
#[derive(Debug)]
pub struct PnSet<T> {
    replica_id: ReplicaId,
    elements: Vec<(T, Vec<(ReplicaId, Pn)>)>,
}

/// An insert or remove operation over [`PnSet`] replicas.
///
/// Carries the element, the issuing replica's id, and that replica's
/// resulting accumulator for the element — an absolute snapshot rather
/// than a delta, so applying it twice, or late, cannot double-count.
#[derive(Clone, Debug, PartialEq, Eq, Hash)]
pub struct PnSetOp<T> {
    /// The element touched.
    pub element: T,
    /// The replica that issued the operation.
    pub replica_id: ReplicaId,
    /// That replica's accumulator for the element, after the operation.
    pub pn: Pn,
}

/// The entry sequence with each element's row taken as a sequence.
pub open spec fn pnset_entries<T>(s: Seq<(T, Vec<(ReplicaId, Pn)>)>) -> Seq<
    (T, Seq<(ReplicaId, Pn)>),
> {
    s.map_values(|p: (T, Vec<(ReplicaId, Pn)>)| (p.0, p.1@))
}

/// The per-replica accumulators described by an entry sequence: all
/// zeroed for elements that have no entry.
pub open spec fn pnset_slots<T>(s: Seq<(T, Seq<(ReplicaId, Pn)>)>) -> Map<T, Map<ReplicaId, Pn>> {
    Map::total(|t: T| pncounter_slots(assoc_get(s, t, Seq::empty())))
}

/// The view of a set that has seen nothing.
pub open spec fn pnset_zero<T>() -> Map<T, Map<ReplicaId, Pn>> {
    Map::total(|t: T| pncounter_zero())
}

/// The per-element join as a function value, for pointwise map joins.
pub open spec fn pnset_val_join_fn() -> spec_fn(Map<ReplicaId, Pn>, Map<ReplicaId, Pn>) -> Map<
    ReplicaId,
    Pn,
> {
    |a: Map<ReplicaId, Pn>, b: Map<ReplicaId, Pn>| pncounter_join(a, b)
}

/// The per-element order as a function value, for pointwise map orders.
pub open spec fn pnset_val_le_fn() -> spec_fn(Map<ReplicaId, Pn>, Map<ReplicaId, Pn>) -> bool {
    |a: Map<ReplicaId, Pn>, b: Map<ReplicaId, Pn>| pncounter_le(a, b)
}

/// The join of two set views: the pointwise join of every element's
/// per-replica accumulators.
pub open spec fn pnset_join<T>(
    v1: Map<T, Map<ReplicaId, Pn>>,
    v2: Map<T, Map<ReplicaId, Pn>>,
) -> Map<T, Map<ReplicaId, Pn>> {
    map_join(v1, v2, pnset_val_join_fn())
}

/// The derived partial order: pointwise dominance of every element's
/// per-replica accumulators.
pub open spec fn pnset_le<T>(v1: Map<T, Map<ReplicaId, Pn>>, v2: Map<T, Map<ReplicaId, Pn>>) -> bool {
    map_le(v1, v2, pnset_val_le_fn())
}

/// A well-shaped view: total at both levels, as every replica's view is.
pub open spec fn pnset_view_wf<T>(v: Map<T, Map<ReplicaId, Pn>>) -> bool {
    is_total(v) && forall|t: T| is_total(#[trigger] v[t])
}

/// Whether a row's accumulators sum to a positive count.
pub open spec fn pnset_row_positive_fn() -> spec_fn(Seq<(ReplicaId, Pn)>) -> bool {
    |row: Seq<(ReplicaId, Pn)>|
        sum_values(row, pn_p_sum_fn()) > sum_values(row, pn_n_sum_fn())
}

/// The state snapshot an operation carries: the issuing replica's
/// accumulator for the one element, and nothing else.
pub open spec fn pnset_op_state<T>(op: PnSetOp<T>) -> Map<T, Map<ReplicaId, Pn>> {
    Map::total(
        |t: T|
            if t == op.element {
                Map::total(
                    |r: ReplicaId|
                        if r == op.replica_id {
                            op.pn
                        } else {
                            pn_zero()
                        },
                )
            } else {
                pncounter_zero()
            },
    )
}

/// One application step: join the operation's snapshot into the view.
pub open spec fn pnset_step_fn<T>() -> spec_fn(Map<T, Map<ReplicaId, Pn>>, PnSetOp<T>) -> Map<
    T,
    Map<ReplicaId, Pn>,
> {
    |m: Map<T, Map<ReplicaId, Pn>>, op: PnSetOp<T>| pnset_join(m, pnset_op_state(op))
}

/// The view after applying a sequence of operations in order.
pub open spec fn pnset_apply_all<T>(
    v: Map<T, Map<ReplicaId, Pn>>,
    ops: Seq<PnSetOp<T>>,
) -> Map<T, Map<ReplicaId, Pn>> {
    ops.fold_left(v, pnset_step_fn())
}

impl<T> View for PnSet<T> {
    type V = Map<T, Map<ReplicaId, Pn>>;

    closed spec fn view(&self) -> Map<T, Map<ReplicaId, Pn>> {
        pnset_slots(pnset_entries(self.elements@))
    }
}

/// Find the entry of an element, if it has one.
fn find_slot<T: Element>(elements: &Vec<(T, Vec<(ReplicaId, Pn)>)>, e: &T) -> (res: Option<usize>)
    ensures
        match res {
            Some(i) => i < elements@.len() && elements@[i as int].0 == *e,
            None => !has_key(elements@, *e),
        },
{
    let mut i: usize = 0;
    while i < elements.len()
        invariant
            i <= elements@.len(),
            forall|j: int| 0 <= j < i ==> elements@[j].0 != *e,
        decreases elements@.len() - i,
    {
        if elements[i].0.eq_elem(e) {
            return Some(i);
        }
        i = i + 1;
    }
    None
}

/// Copy a row of per-replica accumulators.
fn copy_row(src: &Vec<(ReplicaId, Pn)>) -> (r: Vec<(ReplicaId, Pn)>)
    ensures
        r@ == src@,
{
    let mut r: Vec<(ReplicaId, Pn)> = Vec::new();
    let mut i: usize = 0;
    while i < src.len()
        invariant
            i <= src@.len(),
            r@ == src@.take(i as int),
        decreases src@.len() - i,
    {
        r.push(src[i]);
        proof {
            assert(r@ =~= src@.take(i + 1));
        }
        i = i + 1;
    }
    proof {
        assert(src@.take(src@.len() as int) =~= src@);
    }
    r
}

/// Find a replica's slot in a row, if it has one.
fn row_find(row: &Vec<(ReplicaId, Pn)>, r: ReplicaId) -> (res: Option<usize>)
    ensures
        match res {
            Some(i) => i < row@.len() && row@[i as int].0 == r,
            None => !has_key(row@, r),
        },
{
    let mut i: usize = 0;
    while i < row.len()
        invariant
            i <= row@.len(),
            forall|j: int| 0 <= j < i ==> row@[j].0 != r,
        decreases row@.len() - i,
    {
        if row[i].0 == r {
            return Some(i);
        }
        i = i + 1;
    }
    None
}

/// Join `c` into a replica's slot of a row, leaving the other slots
/// unchanged.
fn row_join_slot(row: &mut Vec<(ReplicaId, Pn)>, r: ReplicaId, c: Pn)
    requires
        distinct_keys(old(row)@),
    ensures
        distinct_keys(final(row)@),
        forall|k: ReplicaId| #[trigger]
            assoc_get(final(row)@, k, pn_zero()) == if k == r {
                pn_join(assoc_get(old(row)@, r, pn_zero()), c)
            } else {
                assoc_get(old(row)@, k, pn_zero())
            },
{
    let ghost s0 = row@;
    match row_find(row, r) {
        Some(i) => {
            proof {
                lemma_assoc_get_at(s0, r, pn_zero(), i as int);
            }
            let mut cur = row[i].1;
            cur.merge(c);
            row.set(i, (r, cur));
            proof {
                assert(row@ =~= s0.update(i as int, (s0[i as int].0, cur)));
                assert forall|k: ReplicaId| #[trigger]
                    assoc_get(row@, k, pn_zero()) == if k == r {
                        pn_join(assoc_get(s0, r, pn_zero()), c)
                    } else {
                        assoc_get(s0, k, pn_zero())
                    } by {
                    lemma_assoc_get_update(s0, i as int, cur, k, pn_zero());
                }
                assert(forall|j: int| 0 <= j < row@.len() ==> row@[j].0 == s0[j].0);
            }
        },
        None => {
            proof {
                lemma_assoc_get_absent(s0, r, pn_zero());
            }
            let mut cur = Pn::new();
            cur.merge(c);
            row.push((r, cur));
            proof {
                assert forall|k: ReplicaId| #[trigger]
                    assoc_get(row@, k, pn_zero()) == if k == r {
                        pn_join(assoc_get(s0, r, pn_zero()), c)
                    } else {
                        assoc_get(s0, k, pn_zero())
                    } by {
                    lemma_assoc_get_push(s0, r, cur, k, pn_zero());
                }
                assert forall|i: int, j: int|
                    0 <= i < j < row@.len() implies row@[i].0 != row@[j].0 by {
                    if j == row@.len() - 1 {
                        assert(row@[i] == s0[i]);
                    }
                }
            }
        },
    }
}

/// Join a whole row into another, slot by slot.
fn row_join(row: &mut Vec<(ReplicaId, Pn)>, other: &Vec<(ReplicaId, Pn)>)
    requires
        distinct_keys(old(row)@),
        distinct_keys(other@),
    ensures
        distinct_keys(final(row)@),
        pncounter_slots(final(row)@) == pncounter_join(
            pncounter_slots(old(row)@),
            pncounter_slots(other@),
        ),
{
    let ghost v0 = pncounter_slots(row@);
    let ghost os = other@;
    let mut j: usize = 0;
    proof {
        assert(os.take(0) =~= Seq::<(ReplicaId, Pn)>::empty());
        assert(pncounter_slots(row@) =~= pncounter_join(v0, pncounter_slots(os.take(0))));
    }
    while j < other.len()
        invariant
            j <= os.len(),
            os == other@,
            distinct_keys(row@),
            distinct_keys(os),
            pncounter_slots(row@) == pncounter_join(v0, pncounter_slots(os.take(j as int))),
        decreases os.len() - j,
    {
        let rid = other[j].0;
        let c = other[j].1;
        let ghost cpre = row@;
        row_join_slot(row, rid, c);
        proof {
            assert(os[j as int] == (rid, c));
            assert(forall|jj: int| 0 <= jj < j ==> os.take(j as int)[jj] == os[jj]);
            assert(!has_key(os.take(j as int), rid));
            lemma_assoc_get_absent(os.take(j as int), rid, pn_zero());
            assert forall|k: ReplicaId| #[trigger]
                pncounter_slots(row@)[k] == pncounter_join(
                    v0,
                    pncounter_slots(os.take(j + 1)),
                )[k] by {
                let tj = os.take(j as int);
                let tj1 = os.take(j + 1);
                lemma_assoc_get_take_step(os, j as int, k, pn_zero());
                assert(pncounter_join(v0, pncounter_slots(tj1))[k] == crate::pn::pn_join_fn()(
                    v0[k],
                    assoc_get(tj1, k, pn_zero()),
                ));
                assert(pncounter_slots(cpre)[k] == crate::pn::pn_join_fn()(
                    v0[k],
                    assoc_get(tj, k, pn_zero()),
                ));
                if k == rid {
                    assert(assoc_get(tj, k, pn_zero()) == pn_zero());
                    assert(assoc_get(tj1, k, pn_zero()) == c);
                    assert(assoc_get(row@, k, pn_zero()) == pn_join(
                        assoc_get(cpre, rid, pn_zero()),
                        c,
                    ));
                    assert(assoc_get(cpre, rid, pn_zero()) == pncounter_slots(cpre)[rid]);
                } else {
                    assert(assoc_get(tj1, k, pn_zero()) == assoc_get(tj, k, pn_zero()));
                    assert(assoc_get(row@, k, pn_zero()) == assoc_get(cpre, k, pn_zero()));
                }
            }
            assert(pncounter_slots(row@) =~= pncounter_join(v0, pncounter_slots(os.take(j + 1))));
        }
        j = j + 1;
    }
    proof {
        assert(os.take(os.len() as int) =~= os);
    }
}

/// Whether a row's accumulators sum to a positive count.
fn row_positive(row: &Vec<(ReplicaId, Pn)>) -> (r: bool)
    requires
        sum_values(row@, pn_p_sum_fn()) <= u64::MAX,
        sum_values(row@, pn_n_sum_fn()) <= u64::MAX,
    ensures
        r == pnset_row_positive_fn()(row@),
{
    let mut sp: u64 = 0;
    let mut sn: u64 = 0;
    let mut i: usize = 0;
    proof {
        assert(row@.take(0) =~= Seq::<(ReplicaId, Pn)>::empty());
    }
    while i < row.len()
        invariant
            i <= row@.len(),
            sum_values(row@, pn_p_sum_fn()) <= u64::MAX,
            sum_values(row@, pn_n_sum_fn()) <= u64::MAX,
            sp == sum_values(row@.take(i as int), pn_p_sum_fn()),
            sn == sum_values(row@.take(i as int), pn_n_sum_fn()),
        decreases row@.len() - i,
    {
        proof {
            lemma_sum_values_take_step(row@, i as int, pn_p_sum_fn());
            lemma_sum_values_take_step(row@, i as int, pn_n_sum_fn());
            lemma_sum_values_prefix_bound(row@, i + 1, pn_p_sum_fn());
            lemma_sum_values_prefix_bound(row@, i + 1, pn_n_sum_fn());
        }
        sp = sp + row[i].1.p;
        sn = sn + row[i].1.n;
        i = i + 1;
    }
    proof {
        assert(row@.take(row@.len() as int) =~= row@);
    }
    sp > sn
}

impl<T> PnSet<T> {
    #[verifier::type_invariant]
    spec fn type_inv(&self) -> bool {
        distinct_keys(self.elements@) && forall|i: int|
            0 <= i < self.elements@.len() ==> distinct_keys(#[trigger] self.elements@[i].1@)
    }

    /// The id this replica issues operations under.
    pub closed spec fn spec_replica_id(&self) -> ReplicaId {
        self.replica_id
    }

    /// The sum of the positive counts recorded for `element`.
    pub closed spec fn element_p_total(&self, element: T) -> int {
        sum_values(
            assoc_get(pnset_entries(self.elements@), element, Seq::empty()),
            pn_p_sum_fn(),
        )
    }

    /// The sum of the negative counts recorded for `element`.
    pub closed spec fn element_n_total(&self, element: T) -> int {
        sum_values(
            assoc_get(pnset_entries(self.elements@), element, Seq::empty()),
            pn_n_sum_fn(),
        )
    }

    /// Whether `element` is a member: its accumulators sum to a
    /// positive count.
    pub open spec fn spec_contains(&self, element: T) -> bool {
        self.element_p_total(element) > self.element_n_total(element)
    }

    /// The members of the set.
    pub closed spec fn member_set(&self) -> Set<T> {
        matching_keys(pnset_entries(self.elements@), pnset_row_positive_fn())
    }

    /// Bounds under which the member test is computable: no element's
    /// summed counts exceed `u64::MAX`.
    pub closed spec fn sums_ok(&self) -> bool {
        forall|i: int|
            0 <= i < self.elements@.len() ==> {
                &&& sum_values(#[trigger] self.elements@[i].1@, pn_p_sum_fn()) <= u64::MAX
                &&& sum_values(self.elements@[i].1@, pn_n_sum_fn()) <= u64::MAX
            }
    }
}

impl<T: Element> PnSet<T> {
    /// Create a counting add/remove set with the given replica id.
    ///
    /// Replica ids **must** be unique among the replicas of one set.
    pub fn new(replica_id: ReplicaId) -> (r: PnSet<T>)
        ensures
            r@ == pnset_zero::<T>(),
            r.spec_replica_id() == replica_id,
            r.member_set() == Set::<T>::empty(),
            r.sums_ok(),
    {
        let r = PnSet { replica_id, elements: Vec::new() };
        proof {
            assert(pnset_entries(r.elements@) =~= Seq::<(T, Seq<(ReplicaId, Pn)>)>::empty());
            assert forall|t: T| #[trigger] r@[t] == pnset_zero::<T>()[t] by {
                assert(pncounter_slots(Seq::<(ReplicaId, Pn)>::empty()) =~= pncounter_zero());
            }
            assert(r@ =~= pnset_zero::<T>());
            assert(r.member_set() =~= Set::<T>::empty());
        }
        r
    }

    /// Get the replica id this set issues operations under.
    pub fn replica_id(&self) -> (r: ReplicaId)
        ensures
            r == self.spec_replica_id(),
    {
        self.replica_id
    }

    /// Bump the local replica's accumulator for `element` by `amount`.
    fn increment_element(&mut self, element: T, amount: i64) -> (op: PnSetOp<T>)
        requires
            amount >= 0 ==> old(self)@[element][old(self).spec_replica_id()].p + amount
                <= u64::MAX,
            amount < 0 ==> old(self)@[element][old(self).spec_replica_id()].n - amount
                <= u64::MAX,
        ensures
            final(self).spec_replica_id() == old(self).spec_replica_id(),
            final(self)@ == old(self)@.insert(
                element,
                old(self)@[element].insert(old(self).spec_replica_id(), op.pn),
            ),
            op.element == element,
            op.replica_id == old(self).spec_replica_id(),
            amount >= 0 ==> op.pn == (Pn {
                p: (old(self)@[element][old(self).spec_replica_id()].p + amount) as u64,
                n: old(self)@[element][old(self).spec_replica_id()].n,
            }),
            amount < 0 ==> op.pn == (Pn {
                p: old(self)@[element][old(self).spec_replica_id()].p,
                n: (old(self)@[element][old(self).spec_replica_id()].n - amount) as u64,
            }),
    {
        proof {
            use_type_invariant(&*self);
        }
        let rid = self.replica_id;
        let ghost v0 = self@;
        let ghost ge = element;
        let mut elements: Vec<(T, Vec<(ReplicaId, Pn)>)> = Vec::new();
        core::mem::swap(&mut elements, &mut self.elements);
        let ghost s0 = elements@;
        let ghost es0 = pnset_entries(s0);
        proof {
            assert(distinct_keys(es0));
        }
        let newpn: Pn;
        match find_slot(&elements, &element) {
            Some(i) => {
                proof {
                    assert(es0[i as int] == (s0[i as int].0, s0[i as int].1@));
                    lemma_assoc_get_at(es0, ge, Seq::empty(), i as int);
                    assert(v0[ge] == pncounter_slots(s0[i as int].1@));
                }
                let mut row = copy_row(&elements[i].1);
                let ghost row0 = row@;
                let mut cur: Pn;
                match row_find(&row, rid) {
                    Some(k) => {
                        proof {
                            lemma_assoc_get_at(row0, rid, pn_zero(), k as int);
                        }
                        cur = row[k].1;
                        cur.increment(amount);
                        newpn = cur;
                        row.set(k, (rid, newpn));
                        proof {
                            assert(row@ =~= row0.update(k as int, (row0[k as int].0, newpn)));
                            assert forall|r2: ReplicaId| #[trigger]
                                assoc_get(row@, r2, pn_zero()) == if r2 == rid {
                                    newpn
                                } else {
                                    assoc_get(row0, r2, pn_zero())
                                } by {
                                lemma_assoc_get_update(row0, k as int, newpn, r2, pn_zero());
                            }
                            assert(forall|j: int| 0 <= j < row@.len() ==> row@[j].0 == row0[j].0);
                        }
                    },
                    None => {
                        proof {
                            lemma_assoc_get_absent(row0, rid, pn_zero());
                        }
                        cur = Pn::new();
                        cur.increment(amount);
                        newpn = cur;
                        row.push((rid, newpn));
                        proof {
                            assert forall|r2: ReplicaId| #[trigger]
                                assoc_get(row@, r2, pn_zero()) == if r2 == rid {
                                    newpn
                                } else {
                                    assoc_get(row0, r2, pn_zero())
                                } by {
                                lemma_assoc_get_push(row0, rid, newpn, r2, pn_zero());
                            }
                            assert forall|a: int, b: int|
                                0 <= a < b < row@.len() implies row@[a].0 != row@[b].0 by {
                                if b == row@.len() - 1 {
                                    assert(row@[a] == row0[a]);
                                }
                            }
                        }
                    },
                }
                proof {
                    assert(pncounter_slots(row@) =~= v0[ge].insert(rid, newpn));
                }
                let op = PnSetOp { element: element.dup(), replica_id: rid, pn: newpn };
                let ghost rowseq = row@;
                elements.set(i, (element, row));
                proof {
                    assert(pnset_entries(elements@) =~= es0.update(i as int, (ge, rowseq)));
                    assert forall|t: T| #[trigger]
                        assoc_get(pnset_entries(elements@), t, Seq::empty()) == if t == ge {
                            rowseq
                        } else {
                            assoc_get(es0, t, Seq::empty())
                        } by {
                        lemma_assoc_get_update(es0, i as int, rowseq, t, Seq::empty());
                    }
                    assert(pnset_slots(pnset_entries(elements@)) =~= v0.insert(
                        ge,
                        v0[ge].insert(rid, newpn),
                    ));
                    assert(forall|j: int| 0 <= j < elements@.len() ==> elements@[j].0 == s0[j].0);
                }
                self.elements = elements;
                op
            },
            None => {
                proof {
                    assert(!has_key(es0, ge)) by {
                        if has_key(es0, ge) {
                            let j = choose|j: int| 0 <= j < es0.len() && es0[j].0 == ge;
                            assert(s0[j].0 == ge);
                        }
                    }
                    lemma_assoc_get_absent(es0, ge, Seq::empty());
                    assert(v0[ge] =~= pncounter_zero());
                }
                let mut cur = Pn::new();
                cur.increment(amount);
                newpn = cur;
                let mut row: Vec<(ReplicaId, Pn)> = Vec::new();
                row.push((rid, newpn));
                proof {
                    assert(row@ =~= Seq::<(ReplicaId, Pn)>::empty().push((rid, newpn)));
                    assert forall|r2: ReplicaId| #[trigger]
                        assoc_get(row@, r2, pn_zero()) == if r2 == rid {
                            newpn
                        } else {
                            pn_zero()
                        } by {
                        lemma_assoc_get_push(
                            Seq::<(ReplicaId, Pn)>::empty(),
                            rid,
                            newpn,
                            r2,
                            pn_zero(),
                        );
                    }
                    assert(pncounter_slots(row@) =~= v0[ge].insert(rid, newpn));
                }
                let op = PnSetOp { element: element.dup(), replica_id: rid, pn: newpn };
                let ghost rowseq = row@;
                elements.push((element, row));
                proof {
                    assert(pnset_entries(elements@) =~= es0.push((ge, rowseq)));
                    assert forall|t: T| #[trigger]
                        assoc_get(pnset_entries(elements@), t, Seq::empty()) == if t == ge {
                            rowseq
                        } else {
                            assoc_get(es0, t, Seq::empty())
                        } by {
                        lemma_assoc_get_push(es0, ge, rowseq, t, Seq::empty());
                    }
                    assert(pnset_slots(pnset_entries(elements@)) =~= v0.insert(
                        ge,
                        v0[ge].insert(rid, newpn),
                    ));
                    assert forall|a: int, b: int|
                        0 <= a < b < elements@.len() implies elements@[a].0 != elements@[b].0 by {
                        if b == elements@.len() - 1 {
                            assert(elements@[a] == s0[a]);
                        }
                    }
                }
                self.elements = elements;
                op
            },
        }
    }

    /// Insert `element`: bump the local replica's positive count for it
    /// by one and return the operation to broadcast.
    pub fn insert(&mut self, element: T) -> (op: PnSetOp<T>)
        requires
            old(self)@[element][old(self).spec_replica_id()].p < u64::MAX,
        ensures
            final(self).spec_replica_id() == old(self).spec_replica_id(),
            final(self)@ == old(self)@.insert(
                element,
                old(self)@[element].insert(old(self).spec_replica_id(), op.pn),
            ),
            op.element == element,
            op.replica_id == old(self).spec_replica_id(),
            op.pn == (Pn {
                p: (old(self)@[element][old(self).spec_replica_id()].p + 1) as u64,
                n: old(self)@[element][old(self).spec_replica_id()].n,
            }),
    {
        self.increment_element(element, 1)
    }

    /// Remove `element`: bump the local replica's negative count for it
    /// by one and return the operation to broadcast.  Only the local
    /// replica's own insertions are cancelled; another replica's
    /// contribution can keep the element a member.
    pub fn remove(&mut self, element: T) -> (op: PnSetOp<T>)
        requires
            old(self)@[element][old(self).spec_replica_id()].n < u64::MAX,
        ensures
            final(self).spec_replica_id() == old(self).spec_replica_id(),
            final(self)@ == old(self)@.insert(
                element,
                old(self)@[element].insert(old(self).spec_replica_id(), op.pn),
            ),
            op.element == element,
            op.replica_id == old(self).spec_replica_id(),
            op.pn == (Pn {
                p: old(self)@[element][old(self).spec_replica_id()].p,
                n: (old(self)@[element][old(self).spec_replica_id()].n + 1) as u64,
            }),
    {
        self.increment_element(element, -1)
    }

    /// Whether the set contains `value`: its accumulators sum to a
    /// positive count.
    pub fn contains(&self, value: &T) -> (r: bool)
        requires
            self.element_p_total(*value) <= u64::MAX,
            self.element_n_total(*value) <= u64::MAX,
        ensures
            r == self.spec_contains(*value),
    {
        proof {
            use_type_invariant(&*self);
            assert(distinct_keys(pnset_entries(self.elements@)));
        }
        match find_slot(&self.elements, value) {
            Some(i) => {
                proof {
                    assert(pnset_entries(self.elements@)[i as int] == (
                        self.elements@[i as int].0,
                        self.elements@[i as int].1@,
                    ));
                    lemma_assoc_get_at(pnset_entries(self.elements@), *value, Seq::empty(),
                        i as int);
                }
                row_positive(&self.elements[i].1)
            },
            None => {
                proof {
                    assert(!has_key(pnset_entries(self.elements@), *value)) by {
                        if has_key(pnset_entries(self.elements@), *value) {
                            let j = choose|j: int|
                                0 <= j < pnset_entries(self.elements@).len() && pnset_entries(
                                    self.elements@,
                                )[j].0 == *value;
                            assert(self.elements@[j].0 == *value);
                        }
                    }
                    lemma_assoc_get_absent(pnset_entries(self.elements@), *value, Seq::empty());
                }
                false
            },
        }
    }

    /// The number of members of the set.
    pub fn len(&self) -> (r: usize)
        requires
            self.sums_ok(),
        ensures
            self.member_set().finite(),
            r == self.member_set().len(),
            forall|t: T| #[trigger] self.member_set().contains(t) <==> self.spec_contains(t),
    {
        proof {
            use_type_invariant(&*self);
            assert(distinct_keys(pnset_entries(self.elements@)));
            lemma_count_matching_card(pnset_entries(self.elements@), pnset_row_positive_fn());
            assert forall|t: T| #[trigger]
                self.member_set().contains(t) <==> self.spec_contains(t) by {
                lemma_matching_keys_get(pnset_entries(self.elements@), pnset_row_positive_fn(),
                    Seq::empty(), t);
            }
        }
        let ghost es = pnset_entries(self.elements@);
        let mut n: usize = 0;
        let mut i: usize = 0;
        proof {
            assert(es.take(0) =~= Seq::<(T, Seq<(ReplicaId, Pn)>)>::empty());
        }
        while i < self.elements.len()
            invariant
                i <= self.elements@.len(),
                es == pnset_entries(self.elements@),
                self.sums_ok(),
                n == count_matching(es.take(i as int), pnset_row_positive_fn()),
                count_matching(es.take(i as int), pnset_row_positive_fn()) <= i,
            decreases self.elements@.len() - i,
        {
            proof {
                lemma_count_matching_take_step(es, i as int, pnset_row_positive_fn());
                assert(es[i as int].1 == self.elements@[i as int].1@);
            }
            if row_positive(&self.elements[i].1) {
                n = n + 1;
            }
            i = i + 1;
        }
        proof {
            assert(es.take(es.len() as int) =~= es);
        }
        n
    }

    /// Whether the set has no members.
    pub fn is_empty(&self) -> (r: bool)
        requires
            self.sums_ok(),
        ensures
            self.member_set().finite(),
            r <==> self.member_set().len() == 0,
    {
        self.len() == 0
    }

    /// Whether every member of this set is a member of `other`.
    pub fn is_subset(&self, other: &PnSet<T>) -> (r: bool)
        requires
            self.sums_ok(),
            other.sums_ok(),
        ensures
            r == forall|t: T| #[trigger]
                self.spec_contains(t) ==> other.spec_contains(t),
    {
        proof {
            use_type_invariant(&*self);
            use_type_invariant(&*other);
            assert(distinct_keys(pnset_entries(self.elements@)));
            lemma_pnset_totals_bounded(other);
        }
        let ghost es = pnset_entries(self.elements@);
        let mut i: usize = 0;
        while i < self.elements.len()
            invariant
                i <= self.elements@.len(),
                es == pnset_entries(self.elements@),
                distinct_keys(es),
                self.sums_ok(),
                other.sums_ok(),
                other.totals_bounded(),
                forall|j: int|
                    0 <= j < i && pnset_row_positive_fn()(#[trigger] es[j].1)
                        ==> other.spec_contains(es[j].0),
            decreases self.elements@.len() - i,
        {
            proof {
                assert(es[i as int].1 == self.elements@[i as int].1@);
            }
            if row_positive(&self.elements[i].1) {
                proof {
                    assert(other.element_p_total(self.elements@[i as int].0) <= u64::MAX);
                }
                if !other.contains(&self.elements[i].0) {
                    proof {
                        lemma_assoc_get_at(es, es[i as int].0, Seq::empty(), i as int);
                        assert(self.spec_contains(es[i as int].0));
                    }
                    return false;
                }
            }
            i = i + 1;
        }
        proof {
            assert forall|t: T| #[trigger]
                self.spec_contains(t) implies other.spec_contains(t) by {
                if has_key(es, t) {
                    let j = choose|j: int| 0 <= j < es.len() && es[j].0 == t;
                    lemma_assoc_get_at(es, t, Seq::empty(), j);
                } else {
                    lemma_assoc_get_absent(es, t, Seq::empty());
                }
            }
        }
        true
    }

    /// Whether this set and `other` have no member in common.
    pub fn is_disjoint(&self, other: &PnSet<T>) -> (r: bool)
        requires
            self.sums_ok(),
            other.sums_ok(),
        ensures
            r == forall|t: T| #[trigger]
                self.spec_contains(t) ==> !other.spec_contains(t),
    {
        proof {
            use_type_invariant(&*self);
            use_type_invariant(&*other);
            assert(distinct_keys(pnset_entries(self.elements@)));
            lemma_pnset_totals_bounded(other);
        }
        let ghost es = pnset_entries(self.elements@);
        let mut i: usize = 0;
        while i < self.elements.len()
            invariant
                i <= self.elements@.len(),
                es == pnset_entries(self.elements@),
                distinct_keys(es),
                self.sums_ok(),
                other.sums_ok(),
                other.totals_bounded(),
                forall|j: int|
                    0 <= j < i && pnset_row_positive_fn()(#[trigger] es[j].1)
                        ==> !other.spec_contains(es[j].0),
            decreases self.elements@.len() - i,
        {
            proof {
                assert(es[i as int].1 == self.elements@[i as int].1@);
            }
            if row_positive(&self.elements[i].1) {
                proof {
                    assert(other.element_p_total(self.elements@[i as int].0) <= u64::MAX);
                }
                if other.contains(&self.elements[i].0) {
                    proof {
                        lemma_assoc_get_at(es, es[i as int].0, Seq::empty(), i as int);
                        assert(self.spec_contains(es[i as int].0));
                    }
                    return false;
                }
            }
            i = i + 1;
        }
        proof {
            assert forall|t: T| #[trigger]
                self.spec_contains(t) implies !other.spec_contains(t) by {
                if has_key(es, t) {
                    let j = choose|j: int| 0 <= j < es.len() && es[j].0 == t;
                    lemma_assoc_get_at(es, t, Seq::empty(), j);
                } else {
                    lemma_assoc_get_absent(es, t, Seq::empty());
                }
            }
        }
        true
    }

    /// The members of the set, as a vector without duplicates.
    pub fn iter(&self) -> (r: Vec<T>)
        requires
            self.sums_ok(),
        ensures
            r@.no_duplicates(),
            forall|t: T| #[trigger] r@.contains(t) <==> self.spec_contains(t),
    {
        proof {
            use_type_invariant(&*self);
            assert(distinct_keys(pnset_entries(self.elements@)));
        }
        let ghost es = pnset_entries(self.elements@);
        let mut r: Vec<T> = Vec::new();
        let mut i: usize = 0;
        proof {
            assert(es.take(0) =~= Seq::<(T, Seq<(ReplicaId, Pn)>)>::empty());
            assert(r@ =~= matching_key_seq(es.take(0), pnset_row_positive_fn()));
        }
        while i < self.elements.len()
            invariant
                i <= self.elements@.len(),
                es == pnset_entries(self.elements@),
                distinct_keys(es),
                self.sums_ok(),
                r@ == matching_key_seq(es.take(i as int), pnset_row_positive_fn()),
            decreases self.elements@.len() - i,
        {
            proof {
                assert(es[i as int].1 == self.elements@[i as int].1@);
                lemma_matching_key_seq_take_step(es, i as int, pnset_row_positive_fn());
            }
            if row_positive(&self.elements[i].1) {
                r.push(self.elements[i].0.dup());
            }
            i = i + 1;
        }
        proof {
            assert(es.take(es.len() as int) =~= es);
            lemma_matching_key_seq_props(es, pnset_row_positive_fn());
            assert forall|t: T| #[trigger] r@.contains(t) <==> self.spec_contains(t) by {
                lemma_matching_keys_get(es, pnset_row_positive_fn(), Seq::empty(), t);
            }
        }
        r
    }
}

impl<T> PnSet<T> {
    /// Every element's summed counts are bounded: the per-element form
    /// of [`PnSet::sums_ok`], as [`PnSet::contains`] needs it.
    spec fn totals_bounded(&self) -> bool {
        forall|t: T|
            #![trigger self.element_p_total(t)]
            self.element_p_total(t) <= u64::MAX && self.element_n_total(t) <= u64::MAX
    }
}

/// A replica's view is total at both levels.
proof fn lemma_pnset_view_wf<T>(s: &PnSet<T>)
    ensures
        pnset_view_wf(s@),
{
    assert forall|t: T| is_total(#[trigger] s@[t]) by {
        assert(s@[t] == pncounter_slots(assoc_get(pnset_entries(s.elements@), t, Seq::empty())));
    }
}

/// The per-element bounds follow from the per-entry bounds.
proof fn lemma_pnset_totals_bounded<T>(s: &PnSet<T>)
    requires
        s.type_inv(),
        s.sums_ok(),
    ensures
        s.totals_bounded(),
{
    let es = pnset_entries(s.elements@);
    assert(distinct_keys(es));
    assert forall|t: T|
        #![trigger s.element_p_total(t)]
        s.element_p_total(t) <= u64::MAX && s.element_n_total(t) <= u64::MAX by {
        if has_key(es, t) {
            let j = choose|j: int| 0 <= j < es.len() && es[j].0 == t;
            lemma_assoc_get_at(es, t, Seq::empty(), j);
            assert(es[j].1 == s.elements@[j].1@);
        } else {
            lemma_assoc_get_absent(es, t, Seq::empty());
        }
    }
}

impl<T: Element> Clone for PnSet<T> {
    /// Clone this replica: same view, same identity.
    fn clone(&self) -> (r: PnSet<T>)
        ensures
            r@ == self@,
            r.spec_replica_id() == self.spec_replica_id(),
    {
        proof {
            use_type_invariant(&*self);
        }
        let mut elements: Vec<(T, Vec<(ReplicaId, Pn)>)> = Vec::new();
        let mut i: usize = 0;
        while i < self.elements.len()
            invariant
                i <= self.elements@.len(),
                pnset_entries(elements@) == pnset_entries(self.elements@.take(i as int)),
            decreases self.elements@.len() - i,
        {
            let ghost epre = elements@;
            proof {
                assert(pnset_entries(epre).len() == epre.len());
                assert(pnset_entries(self.elements@.take(i as int)).len() == i as int);
                assert(epre.len() == i as int);
            }
            let row = copy_row(&self.elements[i].1);
            elements.push((self.elements[i].0.dup(), row));
            proof {
                assert(elements@.drop_last() =~= epre);
                assert forall|idx: int|
                    0 <= idx < elements@.len() implies pnset_entries(elements@)[idx]
                    == pnset_entries(self.elements@.take(i + 1))[idx] by {
                    if idx < i {
                        assert(elements@[idx] == epre[idx]);
                        assert(pnset_entries(epre)[idx] == pnset_entries(
                            self.elements@.take(i as int),
                        )[idx]);
                        assert(self.elements@.take(i as int)[idx] == self.elements@.take(
                            i + 1,
                        )[idx]);
                    } else {
                        assert(idx == i as int);
                        assert(elements@[idx] == (elements@.last().0, elements@.last().1));
                        assert(elements@[idx].0 == self.elements@[i as int].0);
                        assert(elements@[idx].1@ == self.elements@[i as int].1@);
                    }
                }
                assert(pnset_entries(elements@) =~= pnset_entries(self.elements@.take(i + 1)));
            }
            i = i + 1;
        }
        proof {
            assert(self.elements@.take(self.elements@.len() as int) =~= self.elements@);
            assert(pnset_entries(elements@) == pnset_entries(self.elements@));
            assert(elements@.len() == self.elements@.len());
            assert forall|i: int, j: int|
                0 <= i < j < elements@.len() implies elements@[i].0 != elements@[j].0 by {
                assert(pnset_entries(elements@)[i].0 == pnset_entries(self.elements@)[i].0);
                assert(pnset_entries(elements@)[j].0 == pnset_entries(self.elements@)[j].0);
            }
            assert forall|i: int|
                0 <= i < elements@.len() implies distinct_keys(#[trigger] elements@[i].1@) by {
                assert(pnset_entries(elements@)[i].1 == pnset_entries(self.elements@)[i].1);
            }
        }
        let r = PnSet { replica_id: self.replica_id, elements };
        r
    }
}

impl<T: Element> Crdt for PnSet<T> {
    type Operation = PnSetOp<T>;

    open spec fn merged(
        v1: Map<T, Map<ReplicaId, Pn>>,
        v2: Map<T, Map<ReplicaId, Pn>>,
    ) -> Map<T, Map<ReplicaId, Pn>> {
        pnset_join(v1, v2)
    }

    open spec fn op_state(op: &PnSetOp<T>) -> Map<T, Map<ReplicaId, Pn>> {
        pnset_op_state(*op)
    }

    /// Merge a replica into this set: for every element, join each
    /// replica's accumulator pointwise.
    fn merge(&mut self, other: PnSet<T>) {
        proof {
            use_type_invariant(&*self);
            use_type_invariant(&other);
            lemma_pnset_view_wf(&*self);
        }
        let ghost v0 = self@;
        let mut elements: Vec<(T, Vec<(ReplicaId, Pn)>)> = Vec::new();
        core::mem::swap(&mut elements, &mut self.elements);
        let ghost os = pnset_entries(other.elements@);
        proof {
            assert(distinct_keys(os));
        }
        let mut j: usize = 0;
        proof {
            assert(os.take(0) =~= Seq::<(T, Seq<(ReplicaId, Pn)>)>::empty());
            assert forall|t: T| #[trigger]
                pnset_join(v0, pnset_slots(os.take(0)))[t] == v0[t] by {
                assert(assoc_get(os.take(0), t, Seq::<(ReplicaId, Pn)>::empty())
                    == Seq::<(ReplicaId, Pn)>::empty());
                assert(pncounter_join(v0[t], pncounter_slots(Seq::<(ReplicaId, Pn)>::empty()))
                    =~= v0[t]);
            }
            assert(pnset_slots(pnset_entries(elements@)) =~= pnset_join(
                v0,
                pnset_slots(os.take(0)),
            ));
        }
        while j < other.elements.len()
            invariant
                j <= os.len(),
                os == pnset_entries(other.elements@),
                other.type_inv(),
                distinct_keys(elements@),
                forall|jj: int|
                    0 <= jj < elements@.len() ==> distinct_keys(#[trigger] elements@[jj].1@),
                distinct_keys(os),
                pnset_slots(pnset_entries(elements@)) == pnset_join(
                    v0,
                    pnset_slots(os.take(j as int)),
                ),
            decreases os.len() - j,
        {
            let e = other.elements[j].0.dup();
            let ghost ge = e;
            let ghost orow = other.elements@[j as int].1@;
            let ghost cpre = pnset_entries(elements@);
            proof {
                assert(os[j as int] == (ge, orow));
                assert(distinct_keys(orow));
            }
            match find_slot(&elements, &e) {
                Some(i) => {
                    proof {
                        assert(pnset_entries(elements@)[i as int] == (
                            elements@[i as int].0,
                            elements@[i as int].1@,
                        ));
                        lemma_assoc_get_at(cpre, ge, Seq::empty(), i as int);
                    }
                    let mut row = copy_row(&elements[i].1);
                    row_join(&mut row, &other.elements[j].1);
                    let ghost rowseq = row@;
                    proof {
                        assert(pncounter_slots(rowseq) == pncounter_join(
                            pncounter_slots(assoc_get(cpre, ge, Seq::empty())),
                            pncounter_slots(orow),
                        ));
                    }
                    elements.set(i, (e, row));
                    proof {
                        assert(pnset_entries(elements@) =~= cpre.update(i as int, (ge, rowseq)));
                        assert forall|t: T| #[trigger]
                            assoc_get(pnset_entries(elements@), t, Seq::empty()) == if t == ge {
                                rowseq
                            } else {
                                assoc_get(cpre, t, Seq::empty())
                            } by {
                            lemma_assoc_get_update(cpre, i as int, rowseq, t, Seq::empty());
                        }
                        assert(forall|jj: int|
                            0 <= jj < elements@.len() ==> elements@[jj].0 == cpre[jj].0);
                        assert(pncounter_slots(assoc_get(pnset_entries(elements@), ge,
                            Seq::empty())) == pncounter_join(
                            pnset_slots(cpre)[ge],
                            pncounter_slots(orow),
                        ));
                    }
                },
                None => {
                    proof {
                        assert(!has_key(cpre, ge)) by {
                            if has_key(cpre, ge) {
                                let jj = choose|jj: int|
                                    0 <= jj < cpre.len() && cpre[jj].0 == ge;
                                assert(elements@[jj].0 == ge);
                            }
                        }
                        lemma_assoc_get_absent(cpre, ge, Seq::empty());
                    }
                    let mut row: Vec<(ReplicaId, Pn)> = Vec::new();
                    row_join(&mut row, &other.elements[j].1);
                    let ghost rowseq = row@;
                    proof {
                        assert(pncounter_slots(rowseq) == pncounter_join(
                            pncounter_slots(Seq::<(ReplicaId, Pn)>::empty()),
                            pncounter_slots(orow),
                        ));
                    }
                    elements.push((e, row));
                    proof {
                        assert(pnset_entries(elements@) =~= cpre.push((ge, rowseq)));
                        assert forall|t: T| #[trigger]
                            assoc_get(pnset_entries(elements@), t, Seq::empty()) == if t == ge {
                                rowseq
                            } else {
                                assoc_get(cpre, t, Seq::empty())
                            } by {
                            lemma_assoc_get_push(cpre, ge, rowseq, t, Seq::empty());
                        }
                        assert forall|a: int, b: int|
                            0 <= a < b < elements@.len() implies elements@[a].0 != elements@[b].0
                        by {
                            if b == elements@.len() - 1 {
                                assert(pnset_entries(elements@)[a].0 == cpre[a].0);
                            }
                        }
                        assert(pncounter_slots(assoc_get(pnset_entries(elements@), ge,
                            Seq::empty())) == pncounter_join(
                            pnset_slots(cpre)[ge],
                            pncounter_slots(orow),
                        ));
                    }
                },
            }
            proof {
                assert(forall|jj: int| 0 <= jj < j ==> os.take(j as int)[jj] == os[jj]);
                assert(!has_key(os.take(j as int), ge));
                lemma_assoc_get_absent(os.take(j as int), ge, Seq::empty());
                assert forall|t: T| #[trigger]
                    pnset_slots(pnset_entries(elements@))[t] == pnset_join(
                        v0,
                        pnset_slots(os.take(j + 1)),
                    )[t] by {
                    let tj = os.take(j as int);
                    let tj1 = os.take(j + 1);
                    lemma_assoc_get_take_step(os, j as int, t, Seq::empty());
                    assert(pnset_join(v0, pnset_slots(tj1))[t] == pnset_val_join_fn()(
                        v0[t],
                        pnset_slots(tj1)[t],
                    ));
                    assert(pnset_slots(cpre)[t] == pnset_val_join_fn()(
                        v0[t],
                        pnset_slots(tj)[t],
                    ));
                    if t == ge {
                        assert(assoc_get(tj, t, Seq::empty()) == Seq::<(ReplicaId, Pn)>::empty());
                        assert(pnset_slots(tj)[t] =~= pncounter_zero());
                        assert(assoc_get(tj1, t, Seq::empty()) == orow);
                        assert(pnset_slots(pnset_entries(elements@))[t] == pncounter_join(
                            pnset_slots(cpre)[t],
                            pncounter_slots(orow),
                        ));
                        assert(pncounter_join(
                            pncounter_join(v0[t], pncounter_zero()),
                            pncounter_slots(orow),
                        ) =~= pncounter_join(v0[t], pncounter_slots(orow)));
                    } else {
                        assert(assoc_get(tj1, t, Seq::empty()) == assoc_get(tj, t, Seq::empty()));
                        assert(assoc_get(pnset_entries(elements@), t, Seq::empty()) == assoc_get(
                            cpre,
                            t,
                            Seq::empty(),
                        ));
                    }
                }
                assert(pnset_slots(pnset_entries(elements@)) =~= pnset_join(
                    v0,
                    pnset_slots(os.take(j + 1)),
                ));
            }
            j = j + 1;
        }
        proof {
            assert(os.take(os.len() as int) =~= os);
        }
        self.elements = elements;
    }

    /// Apply an insert or remove operation: join the carried
    /// accumulator into the element's row.  Applying the same operation
    /// again changes nothing.
    fn apply(&mut self, op: PnSetOp<T>) {
        proof {
            use_type_invariant(&*self);
            lemma_pnset_view_wf(&*self);
        }
        let ghost v0 = self@;
        let ghost gop = op;
        let PnSetOp { element, replica_id, pn } = op;
        let ghost ge = element;
        let mut elements: Vec<(T, Vec<(ReplicaId, Pn)>)> = Vec::new();
        core::mem::swap(&mut elements, &mut self.elements);
        let ghost es0 = pnset_entries(elements@);
        proof {
            assert(distinct_keys(es0));
        }
        match find_slot(&elements, &element) {
            Some(i) => {
                proof {
                    assert(es0[i as int] == (elements@[i as int].0, elements@[i as int].1@));
                    lemma_assoc_get_at(es0, ge, Seq::empty(), i as int);
                }
                let mut row = copy_row(&elements[i].1);
                let ghost row0 = row@;
                row_join_slot(&mut row, replica_id, pn);
                let ghost rowseq = row@;
                elements.set(i, (element, row));
                proof {
                    assert(pnset_entries(elements@) =~= es0.update(i as int, (ge, rowseq)));
                    assert forall|t: T| #[trigger]
                        assoc_get(pnset_entries(elements@), t, Seq::empty()) == if t == ge {
                            rowseq
                        } else {
                            assoc_get(es0, t, Seq::empty())
                        } by {
                        lemma_assoc_get_update(es0, i as int, rowseq, t, Seq::empty());
                    }
                    assert(pncounter_slots(rowseq) =~= pncounter_join(
                        v0[ge],
                        pnset_op_state(gop)[ge],
                    ));
                    assert(forall|jj: int|
                        0 <= jj < elements@.len() ==> elements@[jj].0 == es0[jj].0);
                }
            },
            None => {
                proof {
                    assert(!has_key(es0, ge)) by {
                        if has_key(es0, ge) {
                            let jj = choose|jj: int| 0 <= jj < es0.len() && es0[jj].0 == ge;
                            assert(elements@[jj].0 == ge);
                        }
                    }
                    lemma_assoc_get_absent(es0, ge, Seq::empty());
                    assert(v0[ge] =~= pncounter_zero());
                }
                let mut row: Vec<(ReplicaId, Pn)> = Vec::new();
                row_join_slot(&mut row, replica_id, pn);
                let ghost rowseq = row@;
                elements.push((element, row));
                proof {
                    assert(pnset_entries(elements@) =~= es0.push((ge, rowseq)));
                    assert forall|t: T| #[trigger]
                        assoc_get(pnset_entries(elements@), t, Seq::empty()) == if t == ge {
                            rowseq
                        } else {
                            assoc_get(es0, t, Seq::empty())
                        } by {
                        lemma_assoc_get_push(es0, ge, rowseq, t, Seq::empty());
                    }
                    assert(pncounter_slots(rowseq) =~= pncounter_join(
                        v0[ge],
                        pnset_op_state(gop)[ge],
                    ));
                    assert forall|a: int, b: int|
                        0 <= a < b < elements@.len() implies elements@[a].0 != elements@[b].0 by {
                        if b == elements@.len() - 1 {
                            assert(pnset_entries(elements@)[a].0 == es0[a].0);
                        }
                    }
                }
            },
        }
        proof {
            assert forall|t: T| #[trigger]
                pnset_slots(pnset_entries(elements@))[t] == pnset_join(
                    v0,
                    pnset_op_state(gop),
                )[t] by {
                if t != ge {
                    assert(pnset_op_state(gop)[t] == pncounter_zero());
                    assert(pncounter_join(v0[t], pncounter_zero()) =~= v0[t]);
                }
            }
            assert(pnset_slots(pnset_entries(elements@)) =~= pnset_join(
                v0,
                pnset_op_state(gop),
            ));
        }
        self.elements = elements;
    }
}

/// Decide pointwise dominance of two rows' accumulators.
fn row_le(a: &Vec<(ReplicaId, Pn)>, b: &Vec<(ReplicaId, Pn)>) -> (r: bool)
    requires
        distinct_keys(a@),
        distinct_keys(b@),
    ensures
        r == pncounter_le(pncounter_slots(a@), pncounter_slots(b@)),
{
    let mut i: usize = 0;
    while i < a.len()
        invariant
            i <= a@.len(),
            distinct_keys(a@),
            distinct_keys(b@),
            forall|j: int| 0 <= j < i ==> #[trigger] pn_le(
                a@[j].1,
                assoc_get(b@, a@[j].0, pn_zero()),
            ),
        decreases a@.len() - i,
    {
        let rid = a[i].0;
        let apn = a[i].1;
        let bpn: Pn;
        match row_find(b, rid) {
            Some(bi) => {
                proof {
                    lemma_assoc_get_at(b@, rid, pn_zero(), bi as int);
                }
                bpn = b[bi].1;
            },
            None => {
                proof {
                    lemma_assoc_get_absent(b@, rid, pn_zero());
                }
                bpn = Pn::new();
            },
        }
        if apn.p > bpn.p || apn.n > bpn.n {
            proof {
                lemma_assoc_get_at(a@, rid, pn_zero(), i as int);
                assert(!crate::pn::pn_le_fn()(
                    pncounter_slots(a@)[rid],
                    pncounter_slots(b@)[rid],
                ));
            }
            return false;
        }
        i = i + 1;
    }
    proof {
        assert forall|k: ReplicaId| #[trigger]
            crate::pn::pn_le_fn()(pncounter_slots(a@)[k], pncounter_slots(b@)[k]) by {
            if has_key(a@, k) {
                let j = choose|j: int| 0 <= j < a@.len() && a@[j].0 == k;
                lemma_assoc_get_at(a@, k, pn_zero(), j);
            } else {
                lemma_assoc_get_absent(a@, k, pn_zero());
            }
        }
    }
    true
}

/// Decide pointwise dominance of two replicas' views.
fn slots_le<T: Element>(
    a: &Vec<(T, Vec<(ReplicaId, Pn)>)>,
    b: &Vec<(T, Vec<(ReplicaId, Pn)>)>,
) -> (r: bool)
    requires
        distinct_keys(a@),
        forall|i: int| 0 <= i < a@.len() ==> distinct_keys(#[trigger] a@[i].1@),
        distinct_keys(b@),
        forall|i: int| 0 <= i < b@.len() ==> distinct_keys(#[trigger] b@[i].1@),
    ensures
        r == pnset_le(pnset_slots(pnset_entries(a@)), pnset_slots(pnset_entries(b@))),
{
    let ghost ea = pnset_entries(a@);
    let ghost eb = pnset_entries(b@);
    proof {
        assert(distinct_keys(ea));
        assert(distinct_keys(eb));
    }
    let empty_row: Vec<(ReplicaId, Pn)> = Vec::new();
    let mut i: usize = 0;
    while i < a.len()
        invariant
            i <= a@.len(),
            ea == pnset_entries(a@),
            eb == pnset_entries(b@),
            distinct_keys(ea),
            distinct_keys(eb),
            forall|ii: int| 0 <= ii < a@.len() ==> distinct_keys(#[trigger] a@[ii].1@),
            forall|ii: int| 0 <= ii < b@.len() ==> distinct_keys(#[trigger] b@[ii].1@),
            empty_row@ == Seq::<(ReplicaId, Pn)>::empty(),
            forall|j: int| 0 <= j < i ==> #[trigger] pncounter_le(
                pncounter_slots(ea[j].1),
                pncounter_slots(assoc_get(eb, ea[j].0, Seq::empty())),
            ),
        decreases a@.len() - i,
    {
        proof {
            assert(ea[i as int] == (a@[i as int].0, a@[i as int].1@));
        }
        let le: bool;
        match find_slot(b, &a[i].0) {
            Some(bi) => {
                proof {
                    assert(eb[bi as int] == (b@[bi as int].0, b@[bi as int].1@));
                    lemma_assoc_get_at(eb, a@[i as int].0, Seq::empty(), bi as int);
                }
                le = row_le(&a[i].1, &b[bi].1);
            },
            None => {
                proof {
                    assert(!has_key(eb, a@[i as int].0)) by {
                        if has_key(eb, a@[i as int].0) {
                            let jj = choose|jj: int|
                                0 <= jj < eb.len() && eb[jj].0 == a@[i as int].0;
                            assert(b@[jj].0 == a@[i as int].0);
                        }
                    }
                    lemma_assoc_get_absent(eb, a@[i as int].0, Seq::empty());
                }
                le = row_le(&a[i].1, &empty_row);
            },
        }
        if !le {
            proof {
                lemma_assoc_get_at(ea, ea[i as int].0, Seq::empty(), i as int);
                assert(!pnset_val_le_fn()(
                    pnset_slots(ea)[ea[i as int].0],
                    pnset_slots(eb)[ea[i as int].0],
                ));
            }
            return false;
        }
        i = i + 1;
    }
    proof {
        assert forall|t: T| #[trigger]
            pnset_val_le_fn()(pnset_slots(ea)[t], pnset_slots(eb)[t]) by {
            if has_key(ea, t) {
                let j = choose|j: int| 0 <= j < ea.len() && ea[j].0 == t;
                lemma_assoc_get_at(ea, t, Seq::empty(), j);
            } else {
                lemma_assoc_get_absent(ea, t, Seq::empty());
                assert(pncounter_slots(Seq::<(ReplicaId, Pn)>::empty()) =~= pncounter_zero());
                assert forall|r2: ReplicaId| #[trigger]
                    pn_le(
                        pncounter_slots(Seq::<(ReplicaId, Pn)>::empty())[r2],
                        pnset_slots(eb)[t][r2],
                    ) by {}
            }
        }
    }
    true
}

impl<T: Element> PartialEq for PnSet<T> {
    /// Replicas are equal when they have recorded the same per-replica
    /// accumulators for every element; the local replica identity takes
    /// no part.
    fn eq(&self, other: &PnSet<T>) -> (r: bool) {
        proof {
            use_type_invariant(&*self);
            use_type_invariant(&*other);
        }
        let le1 = slots_le(&self.elements, &other.elements);
        let le2 = slots_le(&other.elements, &self.elements);
        proof {
            lemma_pnset_view_wf(self);
            lemma_pnset_view_wf(other);
            lemma_pnset_eq_iff_le_both(self@, other@);
        }
        le1 && le2
    }
}

impl<T: Element> Eq for PnSet<T> {}

impl<T: Element> vstd::std_specs::cmp::PartialEqSpecImpl for PnSet<T> {
    open spec fn obeys_eq_spec() -> bool {
        true
    }

    open spec fn eq_spec(&self, other: &PnSet<T>) -> bool {
        self@ == other@
    }
}

impl<T: Element> PartialOrd for PnSet<T> {
    /// The derived partial order: one replica is below another when the
    /// other dominates every element's per-replica accumulators.
    /// `None` means the replicas have diverged, which is an expected
    /// outcome, not an error.
    fn partial_cmp(&self, other: &PnSet<T>) -> (r: Option<core::cmp::Ordering>) {
        proof {
            use_type_invariant(&*self);
            use_type_invariant(&*other);
        }
        let le1 = slots_le(&self.elements, &other.elements);
        let le2 = slots_le(&other.elements, &self.elements);
        proof {
            lemma_pnset_view_wf(self);
            lemma_pnset_view_wf(other);
            lemma_pnset_eq_iff_le_both(self@, other@);
        }
        if le1 && le2 {
            Some(core::cmp::Ordering::Equal)
        } else if le1 {
            Some(core::cmp::Ordering::Less)
        } else if le2 {
            Some(core::cmp::Ordering::Greater)
        } else {
            None
        }
    }
}

impl<T: Element> vstd::std_specs::cmp::PartialOrdSpecImpl for PnSet<T> {
    open spec fn obeys_partial_cmp_spec() -> bool {
        true
    }

    open spec fn partial_cmp_spec(&self, other: &PnSet<T>) -> Option<core::cmp::Ordering> {
        if self@ == other@ {
            Some(core::cmp::Ordering::Equal)
        } else if pnset_le(self@, other@) {
            Some(core::cmp::Ordering::Less)
        } else if pnset_le(other@, self@) {
            Some(core::cmp::Ordering::Greater)
        } else {
            None
        }
    }
}

/// Merging is commutative: merging `b` into `a` and merging `a` into
/// `b` produce the same view.
pub proof fn lemma_pnset_merge_commutative<T>(
    v1: Map<T, Map<ReplicaId, Pn>>,
    v2: Map<T, Map<ReplicaId, Pn>>,
)
    ensures
        pnset_join(v1, v2) == pnset_join(v2, v1),
{
    assert forall|a: Map<ReplicaId, Pn>, b: Map<ReplicaId, Pn>| #[trigger]
        pnset_val_join_fn()(a, b) == pnset_val_join_fn()(b, a) by {
        assert(pncounter_join(a, b) =~= pncounter_join(b, a));
    }
    lemma_map_join_commutative(v1, v2, pnset_val_join_fn());
}

/// Merging is idempotent: merging a replica with itself changes nothing.
pub proof fn lemma_pnset_merge_idempotent<T>(v: Map<T, Map<ReplicaId, Pn>>)
    requires
        pnset_view_wf(v),
    ensures
        pnset_join(v, v) == v,
{
    assert forall|t: T| #[trigger] pnset_join(v, v)[t] == v[t] by {
        lemma_pncounter_merge_idempotent(v[t]);
    }
    assert(pnset_join(v, v) =~= v);
}

/// Merging is associative.
pub proof fn lemma_pnset_merge_associative<T>(
    v1: Map<T, Map<ReplicaId, Pn>>,
    v2: Map<T, Map<ReplicaId, Pn>>,
    v3: Map<T, Map<ReplicaId, Pn>>,
)
    ensures
        pnset_join(pnset_join(v1, v2), v3) == pnset_join(v1, pnset_join(v2, v3)),
{
    assert forall|a: Map<ReplicaId, Pn>, b: Map<ReplicaId, Pn>, c: Map<ReplicaId, Pn>| #[trigger]
        pnset_val_join_fn()(pnset_val_join_fn()(a, b), c) == pnset_val_join_fn()(
            a,
            pnset_val_join_fn()(b, c),
        ) by {
        assert(pncounter_join(pncounter_join(a, b), c) =~= pncounter_join(
            a,
            pncounter_join(b, c),
        ));
    }
    lemma_map_join_associative(v1, v2, v3, pnset_val_join_fn());
}

/// The join law: a merge dominates both of its inputs, and one view is
/// below another exactly when merging it in changes nothing.
pub proof fn lemma_pnset_join_law<T>(
    v1: Map<T, Map<ReplicaId, Pn>>,
    v2: Map<T, Map<ReplicaId, Pn>>,
)
    requires
        pnset_view_wf(v2),
    ensures
        pnset_le(v1, pnset_join(v1, v2)),
        pnset_le(v2, pnset_join(v1, v2)),
        pnset_le(v1, v2) <==> pnset_join(v1, v2) == v2,
{
    assert forall|t: T| #[trigger]
        pnset_val_le_fn()(v1[t], pnset_join(v1, v2)[t]) by {
        lemma_pncounter_join_law(v1[t], v2[t]);
        assert(pnset_join(v1, v2)[t] == pncounter_join(v1[t], v2[t]));
    }
    assert forall|t: T| #[trigger]
        pnset_val_le_fn()(v2[t], pnset_join(v1, v2)[t]) by {
        lemma_pncounter_join_law(v1[t], v2[t]);
        assert(pnset_join(v1, v2)[t] == pncounter_join(v1[t], v2[t]));
    }
    if pnset_le(v1, v2) {
        assert forall|t: T| #[trigger] pnset_join(v1, v2)[t] == v2[t] by {
            assert(pnset_val_le_fn()(v1[t], v2[t]));
            lemma_pncounter_join_law(v1[t], v2[t]);
        }
        assert(pnset_join(v1, v2) =~= v2);
    }
    if pnset_join(v1, v2) == v2 {
        assert forall|t: T| #[trigger] pnset_val_le_fn()(v1[t], v2[t]) by {
            lemma_pncounter_join_law(v1[t], v2[t]);
            assert(pnset_join(v1, v2)[t] == pncounter_join(v1[t], v2[t]));
        }
    }
}

/// Ordering reflexivity and antisymmetry: two views are equal exactly
/// when each is below the other.
pub proof fn lemma_pnset_eq_iff_le_both<T>(
    v1: Map<T, Map<ReplicaId, Pn>>,
    v2: Map<T, Map<ReplicaId, Pn>>,
)
    requires
        pnset_view_wf(v1),
        pnset_view_wf(v2),
    ensures
        v1 == v2 <==> (pnset_le(v1, v2) && pnset_le(v2, v1)),
{
    if pnset_le(v1, v2) && pnset_le(v2, v1) {
        assert forall|t: T| v1.dom().contains(t) implies #[trigger] v1[t] == v2[t] by {
            assert(pnset_val_le_fn()(v1[t], v2[t]));
            assert(pnset_val_le_fn()(v2[t], v1[t]));
            lemma_pncounter_eq_iff_le_both(v1[t], v2[t]);
        }
        assert(v1 =~= v2);
    }
    if v1 == v2 {
        assert forall|t: T| #[trigger] pnset_val_le_fn()(v1[t], v2[t]) by {
            lemma_pncounter_eq_iff_le_both(v1[t], v2[t]);
        }
    }
}

/// Applying operations is order-independent: any two interleavings of
/// the same multiset of operations, applied to the same starting view,
/// end in the same view.
pub proof fn lemma_pnset_apply_order_independent<T>(
    v: Map<T, Map<ReplicaId, Pn>>,
    ops1: Seq<PnSetOp<T>>,
    ops2: Seq<PnSetOp<T>>,
)
    requires
        ops1.to_multiset() == ops2.to_multiset(),
    ensures
        pnset_apply_all(v, ops1) == pnset_apply_all(v, ops2),
{
    let st = |op: PnSetOp<T>| pnset_op_state(op);
    let j = pnset_val_join_fn();
    let f = pnset_step_fn::<T>();
    let f2 = |m: Map<T, Map<ReplicaId, Pn>>, op: PnSetOp<T>| map_join(m, st(op), j);
    assert forall|a: Map<ReplicaId, Pn>, b: Map<ReplicaId, Pn>| #[trigger] j(a, b) == j(b, a) by {
        assert(pncounter_join(a, b) =~= pncounter_join(b, a));
    }
    assert forall|a: Map<ReplicaId, Pn>, b: Map<ReplicaId, Pn>, c: Map<ReplicaId, Pn>| #[trigger]
        j(j(a, b), c) == j(a, j(b, c)) by {
        assert(pncounter_join(pncounter_join(a, b), c) =~= pncounter_join(
            a,
            pncounter_join(b, c),
        ));
    }
    assert(f =~= f2);
    lemma_fold_join_permutation(v, ops1, ops2, st, j);
}

} // verus!
