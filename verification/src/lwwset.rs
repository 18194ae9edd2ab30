//! A last-writer-wins set.

use vstd::prelude::*;
use vstd::pervasive::VecAdditionalExecFns;
use crate::assoc::{
    assoc_get, count_matching, distinct_keys, has_key, lemma_assoc_get_absent, lemma_assoc_get_at,
    lemma_assoc_get_push, lemma_assoc_get_take_step, lemma_assoc_get_update,
    lemma_count_matching_card, lemma_count_matching_take_step, lemma_matching_keys_get,
    matching_keys,
};
use crate::semilattice::{
    is_total, lemma_fold_join_permutation, lemma_map_join_associative, lemma_map_join_commutative,
    lemma_map_join_idempotent, lemma_map_join_upper_bound, lemma_map_le_antisymmetric,
    lemma_map_le_iff_join, lemma_map_le_refl, map_join, map_le,
};
use crate::{Crdt, Element};

verus! {

/// A last-writer-wins set.
///
/// Each element carries the transaction id of its last accepted write.
/// An insert is accepted when its id is at least the stored one; a
/// removal only when its id is strictly larger.  On an exact tie an
/// insert therefore beats a removal — a deliberate add-biased
/// resolution, carried through merges as well.
#[derive(Debug)]
pub struct LwwSet<T> {
    elements: Vec<(T, (bool, u64))>,
}

/// An insert or remove operation over [`LwwSet`] replicas.  Each carries
/// the element and the transaction id of the write.
#[derive(Clone, Debug, PartialEq, Eq, Hash)]
pub enum LwwSetOp<T> {
    /// Insert the element as of the transaction id.
    Insert(T, u64),
    /// Remove the element as of the transaction id.
    Remove(T, u64),
}

/// The join of two writes to one element: the write with the larger
/// transaction id; on a tie, presence wins.
pub open spec fn lww_join(a: (bool, u64), b: (bool, u64)) -> (bool, u64) {
    if b.1 > a.1 {
        b
    } else if b.1 == a.1 && b.0 {
        b
    } else {
        a
    }
}

/// The order on writes to one element: by transaction id, with removal
/// below presence on a tie.
pub open spec fn lww_le(a: (bool, u64), b: (bool, u64)) -> bool {
    a.1 < b.1 || (a.1 == b.1 && (a.0 ==> b.0))
}

/// The join as a function value, for pointwise map joins.
pub open spec fn lww_join_fn() -> spec_fn((bool, u64), (bool, u64)) -> (bool, u64) {
    |a: (bool, u64), b: (bool, u64)| lww_join(a, b)
}

/// The order as a function value, for pointwise map orders.
pub open spec fn lww_le_fn() -> spec_fn((bool, u64), (bool, u64)) -> bool {
    |a: (bool, u64), b: (bool, u64)| lww_le(a, b)
}

/// Whether a write means membership.
pub open spec fn lww_present_fn() -> spec_fn((bool, u64)) -> bool {
    |a: (bool, u64)| a.0
}

/// The write never seen: absent, as of transaction id zero.
pub open spec fn lww_bottom() -> (bool, u64) {
    (false, 0u64)
}

/// The writes described by an entry sequence: [`lww_bottom`] for
/// elements that have no entry.
pub open spec fn lwwset_slots<T>(s: Seq<(T, (bool, u64))>) -> Map<T, (bool, u64)> {
    Map::total(|t: T| assoc_get(s, t, lww_bottom()))
}

/// The view of a set that has seen nothing.
pub open spec fn lwwset_zero<T>() -> Map<T, (bool, u64)> {
    Map::total(|t: T| lww_bottom())
}

/// The join of two set views: the pointwise later write.
pub open spec fn lwwset_join<T>(v1: Map<T, (bool, u64)>, v2: Map<T, (bool, u64)>) -> Map<
    T,
    (bool, u64),
> {
    map_join(v1, v2, lww_join_fn())
}

/// The derived partial order: pointwise dominance of the writes.
pub open spec fn lwwset_le<T>(v1: Map<T, (bool, u64)>, v2: Map<T, (bool, u64)>) -> bool {
    map_le(v1, v2, lww_le_fn())
}

/// The members of a view: the elements whose last write was an insert.
pub open spec fn lwwset_members<T>(v: Map<T, (bool, u64)>) -> Set<T> {
    Set::new(|t: T| v[t].0)
}

/// The state snapshot an operation carries: the one write.
pub open spec fn lwwset_op_state<T>(op: LwwSetOp<T>) -> Map<T, (bool, u64)> {
    match op {
        LwwSetOp::Insert(e, tid) => Map::total(
            |t: T|
                if t == e {
                    (true, tid)
                } else {
                    lww_bottom()
                },
        ),
        LwwSetOp::Remove(e, tid) => Map::total(
            |t: T|
                if t == e {
                    (false, tid)
                } else {
                    lww_bottom()
                },
        ),
    }
}

/// One application step: join the operation's snapshot into the view.
pub open spec fn lwwset_step_fn<T>() -> spec_fn(Map<T, (bool, u64)>, LwwSetOp<T>) -> Map<
    T,
    (bool, u64),
> {
    |m: Map<T, (bool, u64)>, op: LwwSetOp<T>| lwwset_join(m, lwwset_op_state(op))
}

/// The view after applying a sequence of operations in order.
pub open spec fn lwwset_apply_all<T>(v: Map<T, (bool, u64)>, ops: Seq<LwwSetOp<T>>) -> Map<
    T,
    (bool, u64),
> {
    ops.fold_left(v, lwwset_step_fn())
}

impl<T> View for LwwSet<T> {
    type V = Map<T, (bool, u64)>;

    closed spec fn view(&self) -> Map<T, (bool, u64)> {
        lwwset_slots(self.elements@)
    }
}

/// Find the entry of an element, if it has one.
fn find_slot<T: Element>(elements: &Vec<(T, (bool, u64))>, e: &T) -> (res: Option<usize>)
    ensures
        match res {
            Some(i) => i < elements@.len() && elements@[i as int].0 == *e,
            None => !has_key(elements@, *e),
        },
{
    let mut i: usize = 0;
    while i < elements.len()
        invariant
            i <= elements@.len(),
            forall|j: int| 0 <= j < i ==> elements@[j].0 != *e,
        decreases elements@.len() - i,
    {
        if elements[i].0.eq_elem(e) {
            return Some(i);
        }
        i = i + 1;
    }
    None
}

/// Read an element's last write, [`lww_bottom`] for elements that have
/// no entry.
fn get_slot<T: Element>(elements: &Vec<(T, (bool, u64))>, e: &T) -> (w: (bool, u64))
    requires
        distinct_keys(elements@),
    ensures
        w == assoc_get(elements@, *e, lww_bottom()),
{
    match find_slot(elements, e) {
        Some(i) => {
            proof {
                lemma_assoc_get_at(elements@, *e, lww_bottom(), i as int);
            }
            elements[i].1
        },
        None => {
            proof {
                lemma_assoc_get_absent(elements@, *e, lww_bottom());
            }
            (false, 0)
        },
    }
}

/// Join `w` into an element's entry, leaving the other entries
/// unchanged.
fn join_slot<T: Element>(elements: &mut Vec<(T, (bool, u64))>, e: T, w: (bool, u64))
    requires
        distinct_keys(old(elements)@),
    ensures
        distinct_keys(final(elements)@),
        forall|k: T| #[trigger]
            assoc_get(final(elements)@, k, lww_bottom()) == if k == e {
                lww_join(assoc_get(old(elements)@, e, lww_bottom()), w)
            } else {
                assoc_get(old(elements)@, k, lww_bottom())
            },
{
    let ghost s0 = elements@;
    match find_slot(elements, &e) {
        Some(i) => {
            proof {
                lemma_assoc_get_at(s0, e, lww_bottom(), i as int);
            }
            let cur = elements[i].1;
            let newv = if w.1 > cur.1 {
                w
            } else if w.1 == cur.1 && w.0 {
                w
            } else {
                cur
            };
            elements.set(i, (e, newv));
            proof {
                assert(elements@ =~= s0.update(i as int, (s0[i as int].0, newv)));
                assert forall|k: T| #[trigger]
                    assoc_get(elements@, k, lww_bottom()) == if k == e {
                        lww_join(assoc_get(s0, e, lww_bottom()), w)
                    } else {
                        assoc_get(s0, k, lww_bottom())
                    } by {
                    lemma_assoc_get_update(s0, i as int, newv, k, lww_bottom());
                }
                assert(forall|j: int| 0 <= j < elements@.len() ==> elements@[j].0 == s0[j].0);
            }
        },
        None => {
            proof {
                lemma_assoc_get_absent(s0, e, lww_bottom());
            }
            let newv = if w.1 > 0 {
                w
            } else if w.0 {
                w
            } else {
                (false, 0)
            };
            let ghost ge = e;
            elements.push((e, newv));
            proof {
                assert(newv == lww_join(lww_bottom(), w));
                assert forall|k: T| #[trigger]
                    assoc_get(elements@, k, lww_bottom()) == if k == ge {
                        lww_join(assoc_get(s0, ge, lww_bottom()), w)
                    } else {
                        assoc_get(s0, k, lww_bottom())
                    } by {
                    lemma_assoc_get_push(s0, ge, newv, k, lww_bottom());
                }
                assert forall|i: int, j: int|
                    0 <= i < j < elements@.len() implies elements@[i].0 != elements@[j].0 by {
                    if j == elements@.len() - 1 {
                        assert(elements@[i] == s0[i]);
                    }
                }
            }
        },
    }
}

/// Decide pointwise dominance of two entry sequences' writes.
fn slots_le<T: Element>(a: &Vec<(T, (bool, u64))>, b: &Vec<(T, (bool, u64))>) -> (r: bool)
    requires
        distinct_keys(a@),
        distinct_keys(b@),
    ensures
        r == lwwset_le(lwwset_slots(a@), lwwset_slots(b@)),
{
    let mut i: usize = 0;
    while i < a.len()
        invariant
            i <= a@.len(),
            distinct_keys(a@),
            distinct_keys(b@),
            forall|j: int| 0 <= j < i ==> #[trigger] lww_le(
                a@[j].1,
                assoc_get(b@, a@[j].0, lww_bottom()),
            ),
        decreases a@.len() - i,
    {
        let v = a[i].1;
        let bv = get_slot(b, &a[i].0);
        let le = v.1 < bv.1 || (v.1 == bv.1 && (!v.0 || bv.0));
        if !le {
            proof {
                lemma_assoc_get_at(a@, a@[i as int].0, lww_bottom(), i as int);
                assert(!lww_le_fn()(
                    lwwset_slots(a@)[a@[i as int].0],
                    lwwset_slots(b@)[a@[i as int].0],
                ));
            }
            return false;
        }
        i = i + 1;
    }
    proof {
        assert forall|k: T| #[trigger] lww_le_fn()(lwwset_slots(a@)[k], lwwset_slots(b@)[k]) by {
            if has_key(a@, k) {
                let j = choose|j: int| 0 <= j < a@.len() && a@[j].0 == k;
                lemma_assoc_get_at(a@, k, lww_bottom(), j);
            } else {
                lemma_assoc_get_absent(a@, k, lww_bottom());
            }
        }
    }
    true
}

impl<T> LwwSet<T> {
    #[verifier::type_invariant]
    spec fn type_inv(&self) -> bool {
        distinct_keys(self.elements@)
    }

    /// Whether the set has an entry for `element`: some insert or
    /// removal of it has been observed, locally or through a merge.
    pub closed spec fn seen(&self, element: T) -> bool {
        has_key(self.elements@, element)
    }
}

impl<T: Element> LwwSet<T> {
    /// Create an empty last-writer-wins set.
    pub fn new() -> (r: LwwSet<T>)
        ensures
            r@ == lwwset_zero::<T>(),
            forall|t: T| !(#[trigger] r.seen(t)),
    {
        let r = LwwSet { elements: Vec::new() };
        proof {
            assert(r@ =~= lwwset_zero::<T>());
        }
        r
    }

    /// Insert an element as of `transaction_id`.  The insert is
    /// accepted — and returns the operation to broadcast — exactly when
    /// `transaction_id` is at least the element's stored id; an exact
    /// tie goes to the insert.
    pub fn insert(&mut self, element: T, transaction_id: u64) -> (r: Option<LwwSetOp<T>>)
        ensures
            r is Some <==> transaction_id >= old(self)@[element].1,
            final(self)@ == old(self)@.insert(
                element,
                lww_join(old(self)@[element], (true, transaction_id)),
            ),
            r matches Some(op) ==> op == LwwSetOp::Insert(element, transaction_id),
    {
        proof {
            use_type_invariant(&*self);
        }
        let ghost v0 = self@;
        let ghost ge = element;
        let mut elements: Vec<(T, (bool, u64))> = Vec::new();
        core::mem::swap(&mut elements, &mut self.elements);
        let ghost s0 = elements@;
        let res: Option<LwwSetOp<T>>;
        match find_slot(&elements, &element) {
            Some(i) => {
                proof {
                    lemma_assoc_get_at(s0, element, lww_bottom(), i as int);
                }
                let cur = elements[i].1;
                if transaction_id >= cur.1 {
                    elements.set(i, (element.dup(), (true, transaction_id)));
                    proof {
                        assert(elements@ =~= s0.update(
                            i as int,
                            (s0[i as int].0, (true, transaction_id)),
                        ));
                        assert forall|k: T| #[trigger]
                            assoc_get(elements@, k, lww_bottom()) == v0.insert(
                                ge,
                                lww_join(v0[ge], (true, transaction_id)),
                            )[k] by {
                            lemma_assoc_get_update(s0, i as int, (true, transaction_id), k,
                                lww_bottom());
                        }
                        assert(forall|j: int|
                            0 <= j < elements@.len() ==> elements@[j].0 == s0[j].0);
                    }
                    res = Some(LwwSetOp::Insert(element, transaction_id));
                } else {
                    proof {
                        assert(v0.insert(ge, lww_join(v0[ge], (true, transaction_id))) =~= v0);
                    }
                    res = None;
                }
            },
            None => {
                proof {
                    lemma_assoc_get_absent(s0, element, lww_bottom());
                }
                let op = LwwSetOp::Insert(element.dup(), transaction_id);
                elements.push((element, (true, transaction_id)));
                proof {
                    assert forall|k: T| #[trigger]
                        assoc_get(elements@, k, lww_bottom()) == v0.insert(
                            ge,
                            lww_join(v0[ge], (true, transaction_id)),
                        )[k] by {
                        lemma_assoc_get_push(s0, ge, (true, transaction_id), k, lww_bottom());
                    }
                    assert forall|i: int, j: int|
                        0 <= i < j < elements@.len() implies elements@[i].0 != elements@[j].0 by {
                        if j == elements@.len() - 1 {
                            assert(elements@[i] == s0[i]);
                        }
                    }
                }
                res = Some(op);
            },
        }
        proof {
            assert(lwwset_slots(elements@) =~= v0.insert(
                ge,
                lww_join(v0[ge], (true, transaction_id)),
            ));
        }
        self.elements = elements;
        res
    }

    /// Remove an element as of `transaction_id`.  The removal is
    /// accepted — and returns the operation to broadcast — when
    /// `transaction_id` is strictly larger than the element's stored id
    /// (an exact tie keeps an insert), or when the element has never
    /// been seen, which records the removal immediately.
    pub fn remove(&mut self, element: T, transaction_id: u64) -> (r: Option<LwwSetOp<T>>)
        ensures
            r is Some <==> (transaction_id > old(self)@[element].1 || !old(self).seen(element)),
            final(self)@ == old(self)@.insert(
                element,
                lww_join(old(self)@[element], (false, transaction_id)),
            ),
            r matches Some(op) ==> op == LwwSetOp::Remove(element, transaction_id),
    {
        proof {
            use_type_invariant(&*self);
        }
        let ghost v0 = self@;
        let ghost ge = element;
        let mut elements: Vec<(T, (bool, u64))> = Vec::new();
        core::mem::swap(&mut elements, &mut self.elements);
        let ghost s0 = elements@;
        let res: Option<LwwSetOp<T>>;
        match find_slot(&elements, &element) {
            Some(i) => {
                proof {
                    lemma_assoc_get_at(s0, element, lww_bottom(), i as int);
                }
                let cur = elements[i].1;
                if transaction_id > cur.1 {
                    elements.set(i, (element.dup(), (false, transaction_id)));
                    proof {
                        assert(elements@ =~= s0.update(
                            i as int,
                            (s0[i as int].0, (false, transaction_id)),
                        ));
                        assert forall|k: T| #[trigger]
                            assoc_get(elements@, k, lww_bottom()) == v0.insert(
                                ge,
                                lww_join(v0[ge], (false, transaction_id)),
                            )[k] by {
                            lemma_assoc_get_update(s0, i as int, (false, transaction_id), k,
                                lww_bottom());
                        }
                        assert(forall|j: int|
                            0 <= j < elements@.len() ==> elements@[j].0 == s0[j].0);
                    }
                    res = Some(LwwSetOp::Remove(element, transaction_id));
                } else {
                    proof {
                        assert(v0.insert(ge, lww_join(v0[ge], (false, transaction_id))) =~= v0);
                    }
                    res = None;
                }
            },
            None => {
                proof {
                    lemma_assoc_get_absent(s0, element, lww_bottom());
                }
                let op = LwwSetOp::Remove(element.dup(), transaction_id);
                elements.push((element, (false, transaction_id)));
                proof {
                    assert forall|k: T| #[trigger]
                        assoc_get(elements@, k, lww_bottom()) == v0.insert(
                            ge,
                            lww_join(v0[ge], (false, transaction_id)),
                        )[k] by {
                        lemma_assoc_get_push(s0, ge, (false, transaction_id), k, lww_bottom());
                    }
                    assert forall|i: int, j: int|
                        0 <= i < j < elements@.len() implies elements@[i].0 != elements@[j].0 by {
                        if j == elements@.len() - 1 {
                            assert(elements@[i] == s0[i]);
                        }
                    }
                }
                res = Some(op);
            },
        }
        proof {
            assert(lwwset_slots(elements@) =~= v0.insert(
                ge,
                lww_join(v0[ge], (false, transaction_id)),
            ));
        }
        self.elements = elements;
        res
    }

    /// The number of elements in the set: those whose last write was an
    /// insert.
    pub fn len(&self) -> (r: usize)
        ensures
            lwwset_members(self@).finite(),
            r == lwwset_members(self@).len(),
    {
        proof {
            use_type_invariant(&*self);
        }
        let mut n: usize = 0;
        let mut i: usize = 0;
        proof {
            assert(self.elements@.take(0) =~= Seq::<(T, (bool, u64))>::empty());
            lemma_count_matching_card(self.elements@, lww_present_fn());
        }
        while i < self.elements.len()
            invariant
                i <= self.elements@.len(),
                distinct_keys(self.elements@),
                n == count_matching(self.elements@.take(i as int), lww_present_fn()),
                count_matching(self.elements@.take(i as int), lww_present_fn()) <= i,
            decreases self.elements@.len() - i,
        {
            proof {
                lemma_count_matching_take_step(self.elements@, i as int, lww_present_fn());
            }
            if self.elements[i].1.0 {
                n = n + 1;
            }
            i = i + 1;
        }
        proof {
            assert(self.elements@.take(self.elements@.len() as int) =~= self.elements@);
            lemma_count_matching_card(self.elements@, lww_present_fn());
            assert forall|t: T| #[trigger]
                lwwset_members(self@).contains(t)
                    == matching_keys(self.elements@, lww_present_fn()).contains(t) by {
                lemma_matching_keys_get(self.elements@, lww_present_fn(), lww_bottom(), t);
            }
            assert(lwwset_members(self@) =~= matching_keys(self.elements@, lww_present_fn()));
        }
        n
    }

    /// Whether the set contains `value`: its last write was an insert.
    pub fn contains(&self, value: &T) -> (r: bool)
        ensures
            r == self@[*value].0,
    {
        proof {
            use_type_invariant(&*self);
        }
        get_slot(&self.elements, value).0
    }

    /// Whether the set contains no elements.
    pub fn is_empty(&self) -> (r: bool)
        ensures
            lwwset_members(self@).finite(),
            r <==> lwwset_members(self@).len() == 0,
    {
        self.len() == 0
    }

    /// Whether every member of this set is a member of `other`.
    pub fn is_subset(&self, other: &LwwSet<T>) -> (r: bool)
        ensures
            r == lwwset_members(self@).subset_of(lwwset_members(other@)),
    {
        proof {
            use_type_invariant(&*self);
            use_type_invariant(&*other);
        }
        let mut i: usize = 0;
        while i < self.elements.len()
            invariant
                i <= self.elements@.len(),
                distinct_keys(self.elements@),
                distinct_keys(other.elements@),
                forall|j: int|
                    0 <= j < i && (#[trigger] self.elements@[j].1).0 ==> assoc_get(
                        other.elements@,
                        self.elements@[j].0,
                        lww_bottom(),
                    ).0,
            decreases self.elements@.len() - i,
        {
            if self.elements[i].1.0 {
                let w = get_slot(&other.elements, &self.elements[i].0);
                if !w.0 {
                    proof {
                        lemma_assoc_get_at(self.elements@, self.elements@[i as int].0,
                            lww_bottom(), i as int);
                        assert(lwwset_members(self@).contains(self.elements@[i as int].0));
                    }
                    return false;
                }
            }
            i = i + 1;
        }
        proof {
            assert forall|t: T| #[trigger]
                lwwset_members(self@).contains(t) implies lwwset_members(other@).contains(t) by {
                if has_key(self.elements@, t) {
                    let j = choose|j: int|
                        0 <= j < self.elements@.len() && self.elements@[j].0 == t;
                    lemma_assoc_get_at(self.elements@, t, lww_bottom(), j);
                } else {
                    lemma_assoc_get_absent(self.elements@, t, lww_bottom());
                }
            }
        }
        true
    }

    /// Whether this set and `other` have no member in common.
    pub fn is_disjoint(&self, other: &LwwSet<T>) -> (r: bool)
        ensures
            r == lwwset_members(self@).disjoint(lwwset_members(other@)),
    {
        proof {
            use_type_invariant(&*self);
            use_type_invariant(&*other);
        }
        let mut i: usize = 0;
        while i < self.elements.len()
            invariant
                i <= self.elements@.len(),
                distinct_keys(self.elements@),
                distinct_keys(other.elements@),
                forall|j: int|
                    0 <= j < i && (#[trigger] self.elements@[j].1).0 ==> !assoc_get(
                        other.elements@,
                        self.elements@[j].0,
                        lww_bottom(),
                    ).0,
            decreases self.elements@.len() - i,
        {
            if self.elements[i].1.0 {
                let w = get_slot(&other.elements, &self.elements[i].0);
                if w.0 {
                    proof {
                        lemma_assoc_get_at(self.elements@, self.elements@[i as int].0,
                            lww_bottom(), i as int);
                        assert(lwwset_members(self@).contains(self.elements@[i as int].0));
                        assert(lwwset_members(other@).contains(self.elements@[i as int].0));
                    }
                    return false;
                }
            }
            i = i + 1;
        }
        proof {
            assert forall|t: T| #[trigger]
                lwwset_members(self@).contains(t) implies !lwwset_members(other@).contains(t) by {
                if has_key(self.elements@, t) {
                    let j = choose|j: int|
                        0 <= j < self.elements@.len() && self.elements@[j].0 == t;
                    lemma_assoc_get_at(self.elements@, t, lww_bottom(), j);
                } else {
                    lemma_assoc_get_absent(self.elements@, t, lww_bottom());
                }
            }
        }
        true
    }
}

impl<T: Element> Clone for LwwSet<T> {
    /// Clone this replica: same view.
    fn clone(&self) -> (r: LwwSet<T>)
        ensures
            r@ == self@,
    {
        proof {
            use_type_invariant(&*self);
        }
        let mut elements: Vec<(T, (bool, u64))> = Vec::new();
        let mut i: usize = 0;
        while i < self.elements.len()
            invariant
                i <= self.elements@.len(),
                elements@ == self.elements@.take(i as int),
            decreases self.elements@.len() - i,
        {
            elements.push((self.elements[i].0.dup(), self.elements[i].1));
            proof {
                assert(elements@ =~= self.elements@.take(i + 1));
            }
            i = i + 1;
        }
        proof {
            assert(self.elements@.take(self.elements@.len() as int) =~= self.elements@);
        }
        LwwSet { elements }
    }
}

impl<T: Element> Crdt for LwwSet<T> {
    type Operation = LwwSetOp<T>;

    open spec fn merged(v1: Map<T, (bool, u64)>, v2: Map<T, (bool, u64)>) -> Map<T, (bool, u64)> {
        lwwset_join(v1, v2)
    }

    open spec fn op_state(op: &LwwSetOp<T>) -> Map<T, (bool, u64)> {
        lwwset_op_state(*op)
    }

    /// Merge a replica into this set: every element keeps the write
    /// with the larger transaction id, presence winning an exact tie.
    fn merge(&mut self, other: LwwSet<T>) {
        proof {
            use_type_invariant(&*self);
            use_type_invariant(&other);
        }
        let ghost v0 = self@;
        let mut elements: Vec<(T, (bool, u64))> = Vec::new();
        core::mem::swap(&mut elements, &mut self.elements);
        let ghost os = other.elements@;
        let mut j: usize = 0;
        proof {
            assert(os.take(0) =~= Seq::<(T, (bool, u64))>::empty());
            assert(lwwset_slots(elements@) =~= lwwset_join(v0, lwwset_slots(os.take(0))));
        }
        while j < other.elements.len()
            invariant
                j <= os.len(),
                os == other.elements@,
                distinct_keys(elements@),
                distinct_keys(os),
                lwwset_slots(elements@) == lwwset_join(v0, lwwset_slots(os.take(j as int))),
            decreases os.len() - j,
        {
            let e = other.elements[j].0.dup();
            let w = other.elements[j].1;
            let ghost cpre = elements@;
            join_slot(&mut elements, e, w);
            proof {
                assert(os[j as int].0 == e && os[j as int].1 == w);
                assert(forall|jj: int| 0 <= jj < j ==> os.take(j as int)[jj] == os[jj]);
                assert(!has_key(os.take(j as int), e));
                lemma_assoc_get_absent(os.take(j as int), e, lww_bottom());
                assert forall|k: T| #[trigger]
                    lwwset_slots(elements@)[k] == lwwset_join(
                        v0,
                        lwwset_slots(os.take(j + 1)),
                    )[k] by {
                    let tj = os.take(j as int);
                    let tj1 = os.take(j + 1);
                    lemma_assoc_get_take_step(os, j as int, k, lww_bottom());
                    assert(lwwset_join(v0, lwwset_slots(tj1))[k] == lww_join_fn()(
                        v0[k],
                        assoc_get(tj1, k, lww_bottom()),
                    ));
                    assert(lwwset_slots(cpre)[k] == lww_join_fn()(
                        v0[k],
                        assoc_get(tj, k, lww_bottom()),
                    ));
                    if k == e {
                        assert(assoc_get(tj, k, lww_bottom()) == lww_bottom());
                        assert(assoc_get(tj1, k, lww_bottom()) == w);
                        assert(assoc_get(elements@, k, lww_bottom()) == lww_join(
                            assoc_get(cpre, e, lww_bottom()),
                            w,
                        ));
                        assert(assoc_get(cpre, e, lww_bottom()) == lwwset_slots(cpre)[e]);
                    } else {
                        assert(assoc_get(tj1, k, lww_bottom()) == assoc_get(tj, k, lww_bottom()));
                        assert(assoc_get(elements@, k, lww_bottom()) == assoc_get(cpre, k,
                            lww_bottom()));
                    }
                }
                assert(lwwset_slots(elements@) =~= lwwset_join(v0, lwwset_slots(os.take(j + 1))));
            }
            j = j + 1;
        }
        proof {
            assert(os.take(os.len() as int) =~= os);
        }
        self.elements = elements;
    }

    /// Apply an insert or remove operation: join the one element's
    /// write.  Applying the same operation again changes nothing.
    fn apply(&mut self, op: LwwSetOp<T>) {
        proof {
            use_type_invariant(&*self);
        }
        let ghost v0 = self@;
        let ghost gop = op;
        let mut elements: Vec<(T, (bool, u64))> = Vec::new();
        core::mem::swap(&mut elements, &mut self.elements);
        match op {
            LwwSetOp::Insert(element, transaction_id) => {
                join_slot(&mut elements, element, (true, transaction_id));
                proof {
                    assert(lwwset_slots(elements@) =~= lwwset_join(v0, lwwset_op_state(gop)));
                }
            },
            LwwSetOp::Remove(element, transaction_id) => {
                join_slot(&mut elements, element, (false, transaction_id));
                proof {
                    assert(lwwset_slots(elements@) =~= lwwset_join(v0, lwwset_op_state(gop)));
                }
            },
        }
        self.elements = elements;
    }
}

impl<T: Element> PartialEq for LwwSet<T> {
    /// Replicas are equal when they have recorded the same last write
    /// for every element.
    fn eq(&self, other: &LwwSet<T>) -> (r: bool) {
        proof {
            use_type_invariant(&*self);
            use_type_invariant(&*other);
        }
        let le1 = slots_le(&self.elements, &other.elements);
        let le2 = slots_le(&other.elements, &self.elements);
        proof {
            lemma_lwwset_eq_iff_le_both(self@, other@);
        }
        le1 && le2
    }
}

impl<T: Element> Eq for LwwSet<T> {}

impl<T: Element> vstd::std_specs::cmp::PartialEqSpecImpl for LwwSet<T> {
    open spec fn obeys_eq_spec() -> bool {
        true
    }

    open spec fn eq_spec(&self, other: &LwwSet<T>) -> bool {
        self@ == other@
    }
}

impl<T: Element> PartialOrd for LwwSet<T> {
    /// The derived partial order: one replica is below another when the
    /// other's write dominates for every element.  `None` means the
    /// replicas have diverged, which is an expected outcome, not an
    /// error.
    fn partial_cmp(&self, other: &LwwSet<T>) -> (r: Option<core::cmp::Ordering>) {
        proof {
            use_type_invariant(&*self);
            use_type_invariant(&*other);
        }
        let le1 = slots_le(&self.elements, &other.elements);
        let le2 = slots_le(&other.elements, &self.elements);
        proof {
            lemma_lwwset_eq_iff_le_both(self@, other@);
        }
        if le1 && le2 {
            Some(core::cmp::Ordering::Equal)
        } else if le1 {
            Some(core::cmp::Ordering::Less)
        } else if le2 {
            Some(core::cmp::Ordering::Greater)
        } else {
            None
        }
    }
}

impl<T: Element> vstd::std_specs::cmp::PartialOrdSpecImpl for LwwSet<T> {
    open spec fn obeys_partial_cmp_spec() -> bool {
        true
    }

    open spec fn partial_cmp_spec(&self, other: &LwwSet<T>) -> Option<core::cmp::Ordering> {
        if self@ == other@ {
            Some(core::cmp::Ordering::Equal)
        } else if lwwset_le(self@, other@) {
            Some(core::cmp::Ordering::Less)
        } else if lwwset_le(other@, self@) {
            Some(core::cmp::Ordering::Greater)
        } else {
            None
        }
    }
}

/// Merging is commutative: merging `b` into `a` and merging `a` into
/// `b` produce the same view.
pub proof fn lemma_lwwset_merge_commutative<T>(v1: Map<T, (bool, u64)>, v2: Map<T, (bool, u64)>)
    ensures
        lwwset_join(v1, v2) == lwwset_join(v2, v1),
{
    lemma_map_join_commutative(v1, v2, lww_join_fn());
}

/// Merging is idempotent: merging a replica with itself changes nothing.
pub proof fn lemma_lwwset_merge_idempotent<T>(v: Map<T, (bool, u64)>)
    requires
        is_total(v),
    ensures
        lwwset_join(v, v) == v,
{
    lemma_map_join_idempotent(v, lww_join_fn());
}

/// Merging is associative.
pub proof fn lemma_lwwset_merge_associative<T>(
    v1: Map<T, (bool, u64)>,
    v2: Map<T, (bool, u64)>,
    v3: Map<T, (bool, u64)>,
)
    ensures
        lwwset_join(lwwset_join(v1, v2), v3) == lwwset_join(v1, lwwset_join(v2, v3)),
{
    lemma_map_join_associative(v1, v2, v3, lww_join_fn());
}

/// The join law: a merge dominates both of its inputs, and one view is
/// below another exactly when merging it in changes nothing.
pub proof fn lemma_lwwset_join_law<T>(v1: Map<T, (bool, u64)>, v2: Map<T, (bool, u64)>)
    requires
        is_total(v2),
    ensures
        lwwset_le(v1, lwwset_join(v1, v2)),
        lwwset_le(v2, lwwset_join(v1, v2)),
        lwwset_le(v1, v2) <==> lwwset_join(v1, v2) == v2,
{
    lemma_map_join_upper_bound(v1, v2, lww_join_fn(), lww_le_fn());
    lemma_map_le_iff_join(v1, v2, lww_join_fn(), lww_le_fn());
}

/// Ordering reflexivity and antisymmetry: two views are equal exactly
/// when each is below the other.
pub proof fn lemma_lwwset_eq_iff_le_both<T>(v1: Map<T, (bool, u64)>, v2: Map<T, (bool, u64)>)
    requires
        is_total(v1),
        is_total(v2),
    ensures
        v1 == v2 <==> (lwwset_le(v1, v2) && lwwset_le(v2, v1)),
{
    if lwwset_le(v1, v2) && lwwset_le(v2, v1) {
        lemma_map_le_antisymmetric(v1, v2, lww_le_fn());
    }
    if v1 == v2 {
        lemma_map_le_refl(v1, lww_le_fn());
    }
}

/// Applying operations is order-independent: any two interleavings of
/// the same multiset of operations, applied to the same starting view,
/// end in the same view.
pub proof fn lemma_lwwset_apply_order_independent<T>(
    v: Map<T, (bool, u64)>,
    ops1: Seq<LwwSetOp<T>>,
    ops2: Seq<LwwSetOp<T>>,
)
    requires
        ops1.to_multiset() == ops2.to_multiset(),
    ensures
        lwwset_apply_all(v, ops1) == lwwset_apply_all(v, ops2),
{
    let st = |op: LwwSetOp<T>| lwwset_op_state(op);
    let j = lww_join_fn();
    let f = lwwset_step_fn::<T>();
    let f2 = |m: Map<T, (bool, u64)>, op: LwwSetOp<T>| map_join(m, st(op), j);
    assert(f =~= f2);
    lemma_fold_join_permutation(v, ops1, ops2, st, j);
}

} // verus!
