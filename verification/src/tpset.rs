//! A two-phase set.

use vstd::prelude::*;
use vstd::pervasive::VecAdditionalExecFns;
use crate::assoc::{
    assoc_get, count_matching, distinct_keys, has_key, lemma_assoc_get_absent, lemma_assoc_get_at,
    lemma_assoc_get_push, lemma_assoc_get_take_step, lemma_assoc_get_update,
    lemma_count_matching_card, lemma_count_matching_take_step, lemma_matching_keys_get,
    matching_keys,
};
use crate::semilattice::{
    is_total, lemma_fold_join_permutation, lemma_map_join_associative, lemma_map_join_commutative,
    lemma_map_join_idempotent, lemma_map_join_upper_bound, lemma_map_le_antisymmetric,
    lemma_map_le_iff_join, lemma_map_le_refl, map_join, map_le,
};
use crate::{Crdt, Element};

verus! {

/// What a two-phase set has observed of one element.
///
/// The three states form a chain — `Unseen < Present < Removed` — and a
/// merge takes the later state: once an element is removed it can never
/// come back, not even through merges that carry the older insert.
#[derive(Clone, Copy, Debug, PartialEq, Eq, Hash, Structural)]
pub enum TpStatus {
    /// The element has never been seen.
    Unseen,
    /// The element has been inserted and not removed.
    Present,
    /// The element has been removed, permanently.
    Removed,
}

/// A two-phase set.
///
/// Elements can be inserted once and removed once.  An insert succeeds
/// only for an element the set has never seen; a removal is permanent.
/// Prefer it when the application never needs to re-insert a removed
/// element.
#[derive(Debug)]
pub struct TpSet<T> {
    elements: Vec<(T, TpStatus)>,
}

/// An insert or remove operation over [`TpSet`] replicas.
#[derive(Clone, Debug, PartialEq, Eq, Hash)]
pub enum TpSetOp<T> {
    /// Insert the element.
    Insert(T),
    /// Remove the element, permanently.
    Remove(T),
}

/// The position of a status in the chain `Unseen < Present < Removed`.
pub open spec fn tp_rank(a: TpStatus) -> int {
    match a {
        TpStatus::Unseen => 0,
        TpStatus::Present => 1,
        TpStatus::Removed => 2,
    }
}

/// The join of two statuses: the later one in the chain.
pub open spec fn tp_join(a: TpStatus, b: TpStatus) -> TpStatus {
    if tp_rank(a) >= tp_rank(b) {
        a
    } else {
        b
    }
}

/// The chain order on statuses.
pub open spec fn tp_le(a: TpStatus, b: TpStatus) -> bool {
    tp_rank(a) <= tp_rank(b)
}

/// The join as a function value, for pointwise map joins.
pub open spec fn tp_join_fn() -> spec_fn(TpStatus, TpStatus) -> TpStatus {
    |a: TpStatus, b: TpStatus| tp_join(a, b)
}

/// The order as a function value, for pointwise map orders.
pub open spec fn tp_le_fn() -> spec_fn(TpStatus, TpStatus) -> bool {
    |a: TpStatus, b: TpStatus| tp_le(a, b)
}

/// Whether a status means membership.
pub open spec fn tp_present_fn() -> spec_fn(TpStatus) -> bool {
    |a: TpStatus| a is Present
}

/// The statuses described by an entry sequence: `Unseen` for elements
/// that have no entry.
pub open spec fn tpset_slots<T>(s: Seq<(T, TpStatus)>) -> Map<T, TpStatus> {
    Map::total(|t: T| assoc_get(s, t, TpStatus::Unseen))
}

/// The view of a set that has seen nothing.
pub open spec fn tpset_zero<T>() -> Map<T, TpStatus> {
    Map::total(|t: T| TpStatus::Unseen)
}

/// The join of two set views: the pointwise later status.
pub open spec fn tpset_join<T>(v1: Map<T, TpStatus>, v2: Map<T, TpStatus>) -> Map<T, TpStatus> {
    map_join(v1, v2, tp_join_fn())
}

/// The derived partial order: pointwise chain dominance.  One replica
/// is below another when the other has observed at least every event —
/// insert or removal — that it has observed.
pub open spec fn tpset_le<T>(v1: Map<T, TpStatus>, v2: Map<T, TpStatus>) -> bool {
    map_le(v1, v2, tp_le_fn())
}

/// The members of a view: the elements inserted and not removed.
pub open spec fn tpset_members<T>(v: Map<T, TpStatus>) -> Set<T> {
    Set::new(|t: T| v[t] is Present)
}

/// The state snapshot an operation carries: what the issuing replica
/// observed of the one element.
pub open spec fn tpset_op_state<T>(op: TpSetOp<T>) -> Map<T, TpStatus> {
    match op {
        TpSetOp::Insert(e) => Map::total(
            |t: T|
                if t == e {
                    TpStatus::Present
                } else {
                    TpStatus::Unseen
                },
        ),
        TpSetOp::Remove(e) => Map::total(
            |t: T|
                if t == e {
                    TpStatus::Removed
                } else {
                    TpStatus::Unseen
                },
        ),
    }
}

/// One application step: join the operation's snapshot into the view.
pub open spec fn tpset_step_fn<T>() -> spec_fn(Map<T, TpStatus>, TpSetOp<T>) -> Map<T, TpStatus> {
    |m: Map<T, TpStatus>, op: TpSetOp<T>| tpset_join(m, tpset_op_state(op))
}

/// The view after applying a sequence of operations in order.
pub open spec fn tpset_apply_all<T>(v: Map<T, TpStatus>, ops: Seq<TpSetOp<T>>) -> Map<
    T,
    TpStatus,
> {
    ops.fold_left(v, tpset_step_fn())
}

impl<T> View for TpSet<T> {
    type V = Map<T, TpStatus>;

    closed spec fn view(&self) -> Map<T, TpStatus> {
        tpset_slots(self.elements@)
    }
}

/// Find the entry of an element, if it has one.
fn find_slot<T: Element>(elements: &Vec<(T, TpStatus)>, e: &T) -> (res: Option<usize>)
    ensures
        match res {
            Some(i) => i < elements@.len() && elements@[i as int].0 == *e,
            None => !has_key(elements@, *e),
        },
{
    let mut i: usize = 0;
    while i < elements.len()
        invariant
            i <= elements@.len(),
            forall|j: int| 0 <= j < i ==> elements@[j].0 != *e,
        decreases elements@.len() - i,
    {
        if elements[i].0.eq_elem(e) {
            return Some(i);
        }
        i = i + 1;
    }
    None
}

/// Read an element's status, `Unseen` for elements that have no entry.
fn get_slot<T: Element>(elements: &Vec<(T, TpStatus)>, e: &T) -> (st: TpStatus)
    requires
        distinct_keys(elements@),
    ensures
        st == assoc_get(elements@, *e, TpStatus::Unseen),
{
    match find_slot(elements, e) {
        Some(i) => {
            proof {
                lemma_assoc_get_at(elements@, *e, TpStatus::Unseen, i as int);
            }
            elements[i].1
        },
        None => {
            proof {
                lemma_assoc_get_absent(elements@, *e, TpStatus::Unseen);
            }
            TpStatus::Unseen
        },
    }
}

/// The later of two statuses, executably.
fn tp_join_exec(a: TpStatus, b: TpStatus) -> (r: TpStatus)
    ensures
        r == tp_join(a, b),
{
    match (a, b) {
        (TpStatus::Removed, _) => TpStatus::Removed,
        (_, TpStatus::Removed) => TpStatus::Removed,
        (TpStatus::Present, _) => TpStatus::Present,
        (_, TpStatus::Present) => TpStatus::Present,
        _ => TpStatus::Unseen,
    }
}

/// Join `st` into an element's entry, leaving the other entries
/// unchanged.
fn join_slot<T: Element>(elements: &mut Vec<(T, TpStatus)>, e: T, st: TpStatus)
    requires
        distinct_keys(old(elements)@),
        forall|j: int| 0 <= j < old(elements)@.len() ==> !(#[trigger] old(elements)@[j].1 is
        Unseen),
        !(st is Unseen),
    ensures
        distinct_keys(final(elements)@),
        forall|j: int|
            0 <= j < final(elements)@.len() ==> !(#[trigger] final(elements)@[j].1 is Unseen),
        forall|k: T| #[trigger]
            assoc_get(final(elements)@, k, TpStatus::Unseen) == if k == e {
                tp_join(assoc_get(old(elements)@, e, TpStatus::Unseen), st)
            } else {
                assoc_get(old(elements)@, k, TpStatus::Unseen)
            },
{
    let ghost s0 = elements@;
    match find_slot(elements, &e) {
        Some(i) => {
            proof {
                lemma_assoc_get_at(s0, e, TpStatus::Unseen, i as int);
            }
            let cur = elements[i].1;
            let newv = tp_join_exec(cur, st);
            elements.set(i, (e, newv));
            proof {
                assert(elements@ =~= s0.update(i as int, (s0[i as int].0, newv)));
                assert forall|k: T| #[trigger]
                    assoc_get(elements@, k, TpStatus::Unseen) == if k == e {
                        tp_join(assoc_get(s0, e, TpStatus::Unseen), st)
                    } else {
                        assoc_get(s0, k, TpStatus::Unseen)
                    } by {
                    lemma_assoc_get_update(s0, i as int, newv, k, TpStatus::Unseen);
                }
                assert(forall|j: int| 0 <= j < elements@.len() ==> elements@[j].0 == s0[j].0);
            }
        },
        None => {
            proof {
                lemma_assoc_get_absent(s0, e, TpStatus::Unseen);
            }
            elements.push((e, st));
            proof {
                assert forall|k: T| #[trigger]
                    assoc_get(elements@, k, TpStatus::Unseen) == if k == e {
                        tp_join(assoc_get(s0, e, TpStatus::Unseen), st)
                    } else {
                        assoc_get(s0, k, TpStatus::Unseen)
                    } by {
                    lemma_assoc_get_push(s0, e, st, k, TpStatus::Unseen);
                }
                assert forall|i: int, j: int|
                    0 <= i < j < elements@.len() implies elements@[i].0 != elements@[j].0 by {
                    if j == elements@.len() - 1 {
                        assert(elements@[i] == s0[i]);
                    }
                }
            }
        },
    }
}

/// Decide pointwise chain dominance of two entry sequences' statuses.
fn slots_le<T: Element>(a: &Vec<(T, TpStatus)>, b: &Vec<(T, TpStatus)>) -> (r: bool)
    requires
        distinct_keys(a@),
        distinct_keys(b@),
    ensures
        r == tpset_le(tpset_slots(a@), tpset_slots(b@)),
{
    let mut i: usize = 0;
    while i < a.len()
        invariant
            i <= a@.len(),
            distinct_keys(a@),
            distinct_keys(b@),
            forall|j: int| 0 <= j < i ==> #[trigger] tp_le(
                a@[j].1,
                assoc_get(b@, a@[j].0, TpStatus::Unseen),
            ),
        decreases a@.len() - i,
    {
        let k = &a[i].0;
        let v = a[i].1;
        let bv = get_slot(b, k);
        let le = match (v, bv) {
            (TpStatus::Unseen, _) => true,
            (TpStatus::Present, TpStatus::Unseen) => false,
            (TpStatus::Present, _) => true,
            (TpStatus::Removed, TpStatus::Removed) => true,
            (TpStatus::Removed, _) => false,
        };
        if !le {
            proof {
                lemma_assoc_get_at(a@, a@[i as int].0, TpStatus::Unseen, i as int);
                assert(!tp_le_fn()(
                    tpset_slots(a@)[a@[i as int].0],
                    tpset_slots(b@)[a@[i as int].0],
                ));
            }
            return false;
        }
        i = i + 1;
    }
    proof {
        assert forall|k: T| #[trigger] tp_le_fn()(tpset_slots(a@)[k], tpset_slots(b@)[k]) by {
            if has_key(a@, k) {
                let j = choose|j: int| 0 <= j < a@.len() && a@[j].0 == k;
                lemma_assoc_get_at(a@, k, TpStatus::Unseen, j);
            } else {
                lemma_assoc_get_absent(a@, k, TpStatus::Unseen);
            }
        }
    }
    true
}

impl<T> TpSet<T> {
    #[verifier::type_invariant]
    spec fn type_inv(&self) -> bool {
        distinct_keys(self.elements@) && forall|j: int|
            0 <= j < self.elements@.len() ==> !(#[trigger] self.elements@[j].1 is Unseen)
    }
}

impl<T: Element> TpSet<T> {
    /// Create an empty two-phase set.
    pub fn new() -> (r: TpSet<T>)
        ensures
            r@ == tpset_zero::<T>(),
    {
        let r = TpSet { elements: Vec::new() };
        proof {
            assert(r@ =~= tpset_zero::<T>());
        }
        r
    }

    /// Insert an element.  The insert succeeds — and returns the
    /// operation to broadcast — exactly when the set has never seen the
    /// element; once seen, present or removed, later inserts are
    /// no-ops.
    pub fn insert(&mut self, element: T) -> (r: Option<TpSetOp<T>>)
        ensures
            r is Some <==> old(self)@[element] is Unseen,
            final(self)@ == old(self)@.insert(
                element,
                tp_join(old(self)@[element], TpStatus::Present),
            ),
            r matches Some(op) ==> op == TpSetOp::Insert(element),
    {
        proof {
            use_type_invariant(&*self);
        }
        let ghost v0 = self@;
        let mut elements: Vec<(T, TpStatus)> = Vec::new();
        core::mem::swap(&mut elements, &mut self.elements);
        let res: Option<TpSetOp<T>>;
        match find_slot(&elements, &element) {
            Some(i) => {
                proof {
                    lemma_assoc_get_at(elements@, element, TpStatus::Unseen, i as int);
                    assert(v0.insert(element, tp_join(v0[element], TpStatus::Present)) =~= v0);
                }
                res = None;
            },
            None => {
                let ghost s0 = elements@;
                proof {
                    lemma_assoc_get_absent(s0, element, TpStatus::Unseen);
                }
                let op = TpSetOp::Insert(element.dup());
                let ghost ge = element;
                elements.push((element, TpStatus::Present));
                proof {
                    assert forall|k: T| #[trigger]
                        assoc_get(elements@, k, TpStatus::Unseen) == v0.insert(
                            ge,
                            tp_join(v0[ge], TpStatus::Present),
                        )[k] by {
                        lemma_assoc_get_push(s0, ge, TpStatus::Present, k, TpStatus::Unseen);
                    }
                    assert(tpset_slots(elements@) =~= v0.insert(
                        ge,
                        tp_join(v0[ge], TpStatus::Present),
                    ));
                    assert forall|i: int, j: int|
                        0 <= i < j < elements@.len() implies elements@[i].0 != elements@[j].0 by {
                        if j == elements@.len() - 1 {
                            assert(elements@[i] == s0[i]);
                        }
                    }
                }
                res = Some(op);
            },
        }
        self.elements = elements;
        res
    }

    /// Remove an element.  The removal succeeds — and returns the
    /// operation to broadcast — unless the element is already removed:
    /// removing an element the set has never seen records the removal
    /// immediately, and removing it again is a no-op.  A removal is
    /// permanent.
    pub fn remove(&mut self, element: T) -> (r: Option<TpSetOp<T>>)
        ensures
            r is Some <==> !(old(self)@[element] is Removed),
            final(self)@ == old(self)@.insert(element, TpStatus::Removed),
            r matches Some(op) ==> op == TpSetOp::Remove(element),
    {
        proof {
            use_type_invariant(&*self);
        }
        let ghost v0 = self@;
        let mut elements: Vec<(T, TpStatus)> = Vec::new();
        core::mem::swap(&mut elements, &mut self.elements);
        let ghost s0 = elements@;
        let res: Option<TpSetOp<T>>;
        let already_removed: bool;
        match find_slot(&elements, &element) {
            Some(i) => {
                proof {
                    lemma_assoc_get_at(s0, element, TpStatus::Unseen, i as int);
                }
                already_removed = match elements[i].1 {
                    TpStatus::Removed => true,
                    _ => false,
                };
                elements.set(i, (element.dup(), TpStatus::Removed));
                proof {
                    assert(elements@ =~= s0.update(i as int, (s0[i as int].0, TpStatus::Removed)));
                    assert forall|k: T| #[trigger]
                        assoc_get(elements@, k, TpStatus::Unseen) == v0.insert(
                            element,
                            TpStatus::Removed,
                        )[k] by {
                        lemma_assoc_get_update(s0, i as int, TpStatus::Removed, k,
                            TpStatus::Unseen);
                    }
                    assert(forall|j: int| 0 <= j < elements@.len() ==> elements@[j].0 == s0[j].0);
                }
            },
            None => {
                proof {
                    lemma_assoc_get_absent(s0, element, TpStatus::Unseen);
                }
                already_removed = false;
                elements.push((element.dup(), TpStatus::Removed));
                proof {
                    assert(elements@.last().0 == element);
                    assert forall|k: T| #[trigger]
                        assoc_get(elements@, k, TpStatus::Unseen) == v0.insert(
                            element,
                            TpStatus::Removed,
                        )[k] by {
                        lemma_assoc_get_push(s0, element, TpStatus::Removed, k, TpStatus::Unseen);
                    }
                    assert forall|i: int, j: int|
                        0 <= i < j < elements@.len() implies elements@[i].0 != elements@[j].0 by {
                        if j == elements@.len() - 1 {
                            assert(elements@[i] == s0[i]);
                        }
                    }
                }
            },
        }
        proof {
            assert(tpset_slots(elements@) =~= v0.insert(element, TpStatus::Removed));
        }
        self.elements = elements;
        if already_removed {
            res = None;
        } else {
            res = Some(TpSetOp::Remove(element));
        }
        res
    }

    /// The number of elements in the set: inserted and not removed.
    pub fn len(&self) -> (r: usize)
        ensures
            tpset_members(self@).finite(),
            r == tpset_members(self@).len(),
    {
        proof {
            use_type_invariant(&*self);
        }
        let mut n: usize = 0;
        let mut i: usize = 0;
        proof {
            assert(self.elements@.take(0) =~= Seq::<(T, TpStatus)>::empty());
            lemma_count_matching_card(self.elements@, tp_present_fn());
        }
        while i < self.elements.len()
            invariant
                i <= self.elements@.len(),
                distinct_keys(self.elements@),
                n == count_matching(self.elements@.take(i as int), tp_present_fn()),
                count_matching(self.elements@.take(i as int), tp_present_fn()) <= i,
            decreases self.elements@.len() - i,
        {
            proof {
                lemma_count_matching_take_step(self.elements@, i as int, tp_present_fn());
            }
            let present = match self.elements[i].1 {
                TpStatus::Present => true,
                _ => false,
            };
            if present {
                n = n + 1;
            }
            i = i + 1;
        }
        proof {
            assert(self.elements@.take(self.elements@.len() as int) =~= self.elements@);
            lemma_count_matching_card(self.elements@, tp_present_fn());
            assert forall|t: T| #[trigger]
                tpset_members(self@).contains(t)
                    == matching_keys(self.elements@, tp_present_fn()).contains(t) by {
                lemma_matching_keys_get(self.elements@, tp_present_fn(), TpStatus::Unseen, t);
            }
            assert(tpset_members(self@) =~= matching_keys(self.elements@, tp_present_fn()));
        }
        n
    }

    /// Whether the set contains `value`: inserted and not removed.
    pub fn contains(&self, value: &T) -> (r: bool)
        ensures
            r == (self@[*value] is Present),
    {
        proof {
            use_type_invariant(&*self);
        }
        match get_slot(&self.elements, value) {
            TpStatus::Present => true,
            _ => false,
        }
    }

    /// Whether the set contains no elements.
    pub fn is_empty(&self) -> (r: bool)
        ensures
            tpset_members(self@).finite(),
            r <==> tpset_members(self@).len() == 0,
    {
        self.len() == 0
    }

    /// Whether every member of this set is a member of `other`.
    pub fn is_subset(&self, other: &TpSet<T>) -> (r: bool)
        ensures
            r == tpset_members(self@).subset_of(tpset_members(other@)),
    {
        proof {
            use_type_invariant(&*self);
            use_type_invariant(&*other);
        }
        let mut i: usize = 0;
        while i < self.elements.len()
            invariant
                i <= self.elements@.len(),
                distinct_keys(self.elements@),
                distinct_keys(other.elements@),
                forall|j: int|
                    0 <= j < i && (#[trigger] self.elements@[j].1) is Present ==> assoc_get(
                        other.elements@,
                        self.elements@[j].0,
                        TpStatus::Unseen,
                    ) is Present,
            decreases self.elements@.len() - i,
    {
            let present = match self.elements[i].1 {
                TpStatus::Present => true,
                _ => false,
            };
            if present {
                let st = get_slot(&other.elements, &self.elements[i].0);
                let other_present = match st {
                    TpStatus::Present => true,
                    _ => false,
                };
                if !other_present {
                    proof {
                        lemma_assoc_get_at(self.elements@, self.elements@[i as int].0,
                            TpStatus::Unseen, i as int);
                        assert(tpset_members(self@).contains(self.elements@[i as int].0));
                    }
                    return false;
                }
            }
            i = i + 1;
        }
        proof {
            assert forall|t: T| #[trigger]
                tpset_members(self@).contains(t) implies tpset_members(other@).contains(t) by {
                if has_key(self.elements@, t) {
                    let j = choose|j: int|
                        0 <= j < self.elements@.len() && self.elements@[j].0 == t;
                    lemma_assoc_get_at(self.elements@, t, TpStatus::Unseen, j);
                } else {
                    lemma_assoc_get_absent(self.elements@, t, TpStatus::Unseen);
                }
            }
        }
        true
    }

    /// Whether this set and `other` have no member in common.
    pub fn is_disjoint(&self, other: &TpSet<T>) -> (r: bool)
        ensures
            r == tpset_members(self@).disjoint(tpset_members(other@)),
    {
        proof {
            use_type_invariant(&*self);
            use_type_invariant(&*other);
        }
        let mut i: usize = 0;
        while i < self.elements.len()
            invariant
                i <= self.elements@.len(),
                distinct_keys(self.elements@),
                distinct_keys(other.elements@),
                forall|j: int|
                    0 <= j < i && (#[trigger] self.elements@[j].1) is Present ==> !(assoc_get(
                        other.elements@,
                        self.elements@[j].0,
                        TpStatus::Unseen,
                    ) is Present),
            decreases self.elements@.len() - i,
        {
            let present = match self.elements[i].1 {
                TpStatus::Present => true,
                _ => false,
            };
            if present {
                let st = get_slot(&other.elements, &self.elements[i].0);
                let other_present = match st {
                    TpStatus::Present => true,
                    _ => false,
                };
                if other_present {
                    proof {
                        lemma_assoc_get_at(self.elements@, self.elements@[i as int].0,
                            TpStatus::Unseen, i as int);
                        assert(tpset_members(self@).contains(self.elements@[i as int].0));
                        assert(tpset_members(other@).contains(self.elements@[i as int].0));
                    }
                    return false;
                }
            }
            i = i + 1;
        }
        proof {
            assert forall|t: T| #[trigger]
                tpset_members(self@).contains(t) implies !tpset_members(other@).contains(t) by {
                if has_key(self.elements@, t) {
                    let j = choose|j: int|
                        0 <= j < self.elements@.len() && self.elements@[j].0 == t;
                    lemma_assoc_get_at(self.elements@, t, TpStatus::Unseen, j);
                } else {
                    lemma_assoc_get_absent(self.elements@, t, TpStatus::Unseen);
                }
            }
        }
        true
    }
}

impl<T: Element> Clone for TpSet<T> {
    /// Clone this replica: same view.
    fn clone(&self) -> (r: TpSet<T>)
        ensures
            r@ == self@,
    {
        proof {
            use_type_invariant(&*self);
        }
        let mut elements: Vec<(T, TpStatus)> = Vec::new();
        let mut i: usize = 0;
        while i < self.elements.len()
            invariant
                i <= self.elements@.len(),
                elements@ == self.elements@.take(i as int),
            decreases self.elements@.len() - i,
        {
            elements.push((self.elements[i].0.dup(), self.elements[i].1));
            proof {
                assert(elements@ =~= self.elements@.take(i + 1));
            }
            i = i + 1;
        }
        proof {
            assert(self.elements@.take(self.elements@.len() as int) =~= self.elements@);
        }
        TpSet { elements }
    }
}

impl<T: Element> Crdt for TpSet<T> {
    type Operation = TpSetOp<T>;

    open spec fn merged(v1: Map<T, TpStatus>, v2: Map<T, TpStatus>) -> Map<T, TpStatus> {
        tpset_join(v1, v2)
    }

    open spec fn op_state(op: &TpSetOp<T>) -> Map<T, TpStatus> {
        tpset_op_state(*op)
    }

    /// Merge a replica into this set: every element's status becomes
    /// the later of the two replicas' statuses, so a removal anywhere
    /// wins over an insert everywhere.
    fn merge(&mut self, other: TpSet<T>) {
        proof {
            use_type_invariant(&*self);
            use_type_invariant(&other);
        }
        let ghost v0 = self@;
        let mut elements: Vec<(T, TpStatus)> = Vec::new();
        core::mem::swap(&mut elements, &mut self.elements);
        let ghost os = other.elements@;
        let mut j: usize = 0;
        proof {
            assert(os.take(0) =~= Seq::<(T, TpStatus)>::empty());
            assert(tpset_slots(elements@) =~= tpset_join(v0, tpset_slots(os.take(0))));
        }
        while j < other.elements.len()
            invariant
                j <= os.len(),
                os == other.elements@,
                distinct_keys(elements@),
                forall|jj: int|
                    0 <= jj < elements@.len() ==> !(#[trigger] elements@[jj].1 is Unseen),
                distinct_keys(os),
                forall|jj: int| 0 <= jj < os.len() ==> !(#[trigger] os[jj].1 is Unseen),
                tpset_slots(elements@) == tpset_join(v0, tpset_slots(os.take(j as int))),
            decreases os.len() - j,
        {
            let e = other.elements[j].0.dup();
            let st = other.elements[j].1;
            let ghost cpre = elements@;
            join_slot(&mut elements, e, st);
            proof {
                assert(os[j as int].0 == e && os[j as int].1 == st);
                assert(forall|jj: int| 0 <= jj < j ==> os.take(j as int)[jj] == os[jj]);
                assert(!has_key(os.take(j as int), e));
                lemma_assoc_get_absent(os.take(j as int), e, TpStatus::Unseen);
                assert forall|k: T| #[trigger]
                    tpset_slots(elements@)[k] == tpset_join(v0, tpset_slots(os.take(j + 1)))[k] by {
                    let tj = os.take(j as int);
                    let tj1 = os.take(j + 1);
                    lemma_assoc_get_take_step(os, j as int, k, TpStatus::Unseen);
                    assert(tpset_join(v0, tpset_slots(tj1))[k] == tp_join_fn()(
                        v0[k],
                        assoc_get(tj1, k, TpStatus::Unseen),
                    ));
                    assert(tpset_slots(cpre)[k] == tp_join_fn()(
                        v0[k],
                        assoc_get(tj, k, TpStatus::Unseen),
                    ));
                    if k == e {
                        assert(assoc_get(tj, k, TpStatus::Unseen) == TpStatus::Unseen);
                        assert(assoc_get(tj1, k, TpStatus::Unseen) == st);
                        assert(assoc_get(elements@, k, TpStatus::Unseen) == tp_join(
                            assoc_get(cpre, e, TpStatus::Unseen),
                            st,
                        ));
                        assert(assoc_get(cpre, e, TpStatus::Unseen) == tpset_slots(cpre)[e]);
                    } else {
                        assert(assoc_get(tj1, k, TpStatus::Unseen) == assoc_get(tj, k,
                            TpStatus::Unseen));
                        assert(assoc_get(elements@, k, TpStatus::Unseen) == assoc_get(cpre, k,
                            TpStatus::Unseen));
                    }
                }
                assert(tpset_slots(elements@) =~= tpset_join(v0, tpset_slots(os.take(j + 1))));
            }
            j = j + 1;
        }
        proof {
            assert(os.take(os.len() as int) =~= os);
        }
        self.elements = elements;
    }

    /// Apply an insert or remove operation: join the one element's
    /// status.  Applying the same operation again changes nothing.
    fn apply(&mut self, op: TpSetOp<T>) {
        proof {
            use_type_invariant(&*self);
        }
        let ghost v0 = self@;
        let ghost gop = op;
        let mut elements: Vec<(T, TpStatus)> = Vec::new();
        core::mem::swap(&mut elements, &mut self.elements);
        match op {
            TpSetOp::Insert(element) => {
                join_slot(&mut elements, element, TpStatus::Present);
                proof {
                    assert(tpset_slots(elements@) =~= tpset_join(v0, tpset_op_state(gop)));
                }
            },
            TpSetOp::Remove(element) => {
                join_slot(&mut elements, element, TpStatus::Removed);
                proof {
                    assert(tpset_slots(elements@) =~= tpset_join(v0, tpset_op_state(gop)));
                }
            },
        }
        self.elements = elements;
    }
}

impl<T: Element> PartialEq for TpSet<T> {
    /// Replicas are equal when they have observed the same status for
    /// every element.
    fn eq(&self, other: &TpSet<T>) -> (r: bool) {
        proof {
            use_type_invariant(&*self);
            use_type_invariant(&*other);
        }
        let le1 = slots_le(&self.elements, &other.elements);
        let le2 = slots_le(&other.elements, &self.elements);
        proof {
            lemma_tpset_eq_iff_le_both(self@, other@);
        }
        le1 && le2
    }
}

impl<T: Element> Eq for TpSet<T> {}

impl<T: Element> vstd::std_specs::cmp::PartialEqSpecImpl for TpSet<T> {
    open spec fn obeys_eq_spec() -> bool {
        true
    }

    open spec fn eq_spec(&self, other: &TpSet<T>) -> bool {
        self@ == other@
    }
}

impl<T: Element> PartialOrd for TpSet<T> {
    /// The derived partial order: one replica is below another when the
    /// other has observed at least every insert and removal it has
    /// observed.  `None` means the replicas have diverged, which is an
    /// expected outcome, not an error.
    fn partial_cmp(&self, other: &TpSet<T>) -> (r: Option<core::cmp::Ordering>) {
        proof {
            use_type_invariant(&*self);
            use_type_invariant(&*other);
        }
        let le1 = slots_le(&self.elements, &other.elements);
        let le2 = slots_le(&other.elements, &self.elements);
        proof {
            lemma_tpset_eq_iff_le_both(self@, other@);
        }
        if le1 && le2 {
            Some(core::cmp::Ordering::Equal)
        } else if le1 {
            Some(core::cmp::Ordering::Less)
        } else if le2 {
            Some(core::cmp::Ordering::Greater)
        } else {
            None
        }
    }
}

impl<T: Element> vstd::std_specs::cmp::PartialOrdSpecImpl for TpSet<T> {
    open spec fn obeys_partial_cmp_spec() -> bool {
        true
    }

    open spec fn partial_cmp_spec(&self, other: &TpSet<T>) -> Option<core::cmp::Ordering> {
        if self@ == other@ {
            Some(core::cmp::Ordering::Equal)
        } else if tpset_le(self@, other@) {
            Some(core::cmp::Ordering::Less)
        } else if tpset_le(other@, self@) {
            Some(core::cmp::Ordering::Greater)
        } else {
            None
        }
    }
}

/// Merging is commutative: merging `b` into `a` and merging `a` into
/// `b` produce the same view.
pub proof fn lemma_tpset_merge_commutative<T>(v1: Map<T, TpStatus>, v2: Map<T, TpStatus>)
    ensures
        tpset_join(v1, v2) == tpset_join(v2, v1),
{
    lemma_map_join_commutative(v1, v2, tp_join_fn());
}

/// Merging is idempotent: merging a replica with itself changes nothing.
pub proof fn lemma_tpset_merge_idempotent<T>(v: Map<T, TpStatus>)
    requires
        is_total(v),
    ensures
        tpset_join(v, v) == v,
{
    lemma_map_join_idempotent(v, tp_join_fn());
}

/// Merging is associative.
pub proof fn lemma_tpset_merge_associative<T>(
    v1: Map<T, TpStatus>,
    v2: Map<T, TpStatus>,
    v3: Map<T, TpStatus>,
)
    ensures
        tpset_join(tpset_join(v1, v2), v3) == tpset_join(v1, tpset_join(v2, v3)),
{
    lemma_map_join_associative(v1, v2, v3, tp_join_fn());
}

/// The join law: a merge dominates both of its inputs, and one view is
/// below another exactly when merging it in changes nothing.
pub proof fn lemma_tpset_join_law<T>(v1: Map<T, TpStatus>, v2: Map<T, TpStatus>)
    requires
        is_total(v2),
    ensures
        tpset_le(v1, tpset_join(v1, v2)),
        tpset_le(v2, tpset_join(v1, v2)),
        tpset_le(v1, v2) <==> tpset_join(v1, v2) == v2,
{
    lemma_map_join_upper_bound(v1, v2, tp_join_fn(), tp_le_fn());
    lemma_map_le_iff_join(v1, v2, tp_join_fn(), tp_le_fn());
}

/// Ordering reflexivity and antisymmetry: two views are equal exactly
/// when each is below the other.
pub proof fn lemma_tpset_eq_iff_le_both<T>(v1: Map<T, TpStatus>, v2: Map<T, TpStatus>)
    requires
        is_total(v1),
        is_total(v2),
    ensures
        v1 == v2 <==> (tpset_le(v1, v2) && tpset_le(v2, v1)),
{
    if tpset_le(v1, v2) && tpset_le(v2, v1) {
        lemma_map_le_antisymmetric(v1, v2, tp_le_fn());
    }
    if v1 == v2 {
        lemma_map_le_refl(v1, tp_le_fn());
    }
}

/// Applying operations is order-independent: any two interleavings of
/// the same multiset of operations, applied to the same starting view,
/// end in the same view.
pub proof fn lemma_tpset_apply_order_independent<T>(
    v: Map<T, TpStatus>,
    ops1: Seq<TpSetOp<T>>,
    ops2: Seq<TpSetOp<T>>,
)
    requires
        ops1.to_multiset() == ops2.to_multiset(),
    ensures
        tpset_apply_all(v, ops1) == tpset_apply_all(v, ops2),
{
    let st = |op: TpSetOp<T>| tpset_op_state(op);
    let j = tp_join_fn();
    let f = tpset_step_fn::<T>();
    let f2 = |m: Map<T, TpStatus>, op: TpSetOp<T>| map_join(m, st(op), j);
    assert(f =~= f2);
    lemma_fold_join_permutation(v, ops1, ops2, st, j);
}

} // verus!
