//! A grow-only set.

use vstd::prelude::*;
use vstd::seq_lib::commutative_foldl;
use vstd::seq_lib::lemma_fold_left_permutation;
use vstd::seq_lib::seq_to_set_is_finite;
use crate::{Crdt, Element};

verus! {

/// A grow-only set.
///
/// Elements can only ever be added, so no concurrent add and remove can
/// conflict: merging is plain set union.  Prefer it to the other set
/// types whenever removal is not needed.
#[derive(Debug)]
pub struct GSet<T> {
    elements: Vec<T>,
}

/// An insert operation over [`GSet`] replicas.
#[derive(Clone, Debug, PartialEq, Eq, Hash)]
pub struct GSetInsert<T> {
    /// The inserted element.
    pub element: T,
}

/// The state snapshot an insert operation carries: the one element.
pub open spec fn gset_op_state<T>(op: GSetInsert<T>) -> Set<T> {
    Set::empty().insert(op.element)
}

/// One application step: join the operation's snapshot into the view.
pub open spec fn gset_step_fn<T>() -> spec_fn(Set<T>, GSetInsert<T>) -> Set<T> {
    |s: Set<T>, op: GSetInsert<T>| s.union(gset_op_state(op))
}

/// The view after applying a sequence of operations in order.
pub open spec fn gset_apply_all<T>(s: Set<T>, ops: Seq<GSetInsert<T>>) -> Set<T> {
    ops.fold_left(s, gset_step_fn())
}

impl<T> View for GSet<T> {
    type V = Set<T>;

    closed spec fn view(&self) -> Set<T> {
        self.elements@.to_set()
    }
}

/// Whether the vector holds an element equal to `e`.
fn vec_contains<T: Element>(v: &Vec<T>, e: &T) -> (r: bool)
    ensures
        r == v@.contains(*e),
{
    let mut i: usize = 0;
    while i < v.len()
        invariant
            i <= v@.len(),
            forall|j: int| 0 <= j < i ==> v@[j] != *e,
        decreases v@.len() - i,
    {
        if v[i].eq_elem(e) {
            return true;
        }
        i = i + 1;
    }
    false
}

impl<T> GSet<T> {
    #[verifier::type_invariant]
    spec fn type_inv(&self) -> bool {
        self.elements@.no_duplicates()
    }
}

impl<T: Element> GSet<T> {
    /// Create an empty grow-only set.
    pub fn new() -> (r: GSet<T>)
        ensures
            r@ == Set::<T>::empty(),
    {
        let r = GSet { elements: Vec::new() };
        proof {
            assert(r@ =~= Set::<T>::empty());
        }
        r
    }

    /// Insert an element.  Returns the operation to broadcast if the
    /// element was new; `None` — nothing to broadcast — if it was
    /// already present.
    pub fn insert(&mut self, element: T) -> (r: Option<GSetInsert<T>>)
        ensures
            final(self)@ == old(self)@.insert(element),
            r is Some <==> !old(self)@.contains(element),
            r matches Some(op) ==> op.element == element,
    {
        proof {
            use_type_invariant(&*self);
        }
        if vec_contains(&self.elements, &element) {
            proof {
                assert(self@.insert(element) =~= self@);
            }
            None
        } else {
            let ghost s0 = self.elements@;
            let op = GSetInsert { element: element.dup() };
            let mut elements: Vec<T> = Vec::new();
            core::mem::swap(&mut elements, &mut self.elements);
            elements.push(element);
            proof {
                assert(elements@.drop_last() =~= s0);
                assert(elements@.to_set() =~= s0.to_set().insert(elements@.last()));
            }
            self.elements = elements;
            Some(op)
        }
    }

    /// The number of elements in the set.
    pub fn len(&self) -> (r: usize)
        ensures
            self@.finite(),
            r == self@.len(),
    {
        proof {
            use_type_invariant(&*self);
            seq_to_set_is_finite(self.elements@);
            self.elements@.unique_seq_to_set();
        }
        self.elements.len()
    }

    /// Whether the set contains `value`.
    pub fn contains(&self, value: &T) -> (r: bool)
        ensures
            r == self@.contains(*value),
    {
        vec_contains(&self.elements, value)
    }

    /// Whether the set is empty.
    pub fn is_empty(&self) -> (r: bool)
        ensures
            r <==> self@ == Set::<T>::empty(),
    {
        proof {
            if self.elements@.len() == 0 {
                assert(self@ =~= Set::<T>::empty());
            } else {
                assert(self@.contains(self.elements@[0]));
            }
        }
        self.elements.is_empty()
    }

    /// Whether every element of this set is in `other`.
    pub fn is_subset(&self, other: &GSet<T>) -> (r: bool)
        ensures
            r == self@.subset_of(other@),
    {
        let mut i: usize = 0;
        while i < self.elements.len()
            invariant
                i <= self.elements@.len(),
                forall|j: int| 0 <= j < i ==> other@.contains(#[trigger] self.elements@[j]),
            decreases self.elements@.len() - i,
        {
            if !vec_contains(&other.elements, &self.elements[i]) {
                proof {
                    assert(self@.contains(self.elements@[i as int]));
                }
                return false;
            }
            i = i + 1;
        }
        proof {
            assert forall|e: T| self@.contains(e) implies other@.contains(e) by {
                let j = choose|j: int| 0 <= j < self.elements@.len() && self.elements@[j] == e;
                assert(other@.contains(self.elements@[j]));
            }
        }
        true
    }

    /// Whether this set and `other` have no element in common.
    pub fn is_disjoint(&self, other: &GSet<T>) -> (r: bool)
        ensures
            r == self@.disjoint(other@),
    {
        let mut i: usize = 0;
        while i < self.elements.len()
            invariant
                i <= self.elements@.len(),
                forall|j: int| 0 <= j < i ==> !other@.contains(#[trigger] self.elements@[j]),
            decreases self.elements@.len() - i,
        {
            if vec_contains(&other.elements, &self.elements[i]) {
                proof {
                    assert(self@.contains(self.elements@[i as int]));
                }
                return false;
            }
            i = i + 1;
        }
        proof {
            assert forall|e: T| self@.contains(e) implies !other@.contains(e) by {
                let j = choose|j: int| 0 <= j < self.elements@.len() && self.elements@[j] == e;
                assert(!other@.contains(self.elements@[j]));
            }
        }
        true
    }
}

impl<T: Element> Clone for GSet<T> {
    /// Clone this replica: same view.
    fn clone(&self) -> (r: GSet<T>)
        ensures
            r@ == self@,
    {
        proof {
            use_type_invariant(&*self);
        }
        let mut elements: Vec<T> = Vec::new();
        let mut i: usize = 0;
        while i < self.elements.len()
            invariant
                i <= self.elements@.len(),
                elements@ == self.elements@.take(i as int),
            decreases self.elements@.len() - i,
        {
            elements.push(self.elements[i].dup());
            proof {
                assert(elements@ =~= self.elements@.take(i + 1));
            }
            i = i + 1;
        }
        proof {
            assert(self.elements@.take(self.elements@.len() as int) =~= self.elements@);
        }
        GSet { elements }
    }
}

impl<T: Element> Crdt for GSet<T> {
    type Operation = GSetInsert<T>;

    open spec fn merged(v1: Set<T>, v2: Set<T>) -> Set<T> {
        v1.union(v2)
    }

    open spec fn op_state(op: &GSetInsert<T>) -> Set<T> {
        gset_op_state(*op)
    }

    /// Merge a replica into this set: set union.
    fn merge(&mut self, other: GSet<T>) {
        proof {
            use_type_invariant(&*self);
            use_type_invariant(&other);
        }
        let ghost v0 = self@;
        let ghost os = other.elements@;
        let mut j: usize = 0;
        proof {
            assert(os.take(0).to_set() =~= Set::<T>::empty());
            assert(self@ =~= v0.union(os.take(0).to_set()));
        }
        while j < other.elements.len()
            invariant
                j <= os.len(),
                os == other.elements@,
                self@ == v0.union(os.take(j as int).to_set()),
            decreases os.len() - j,
        {
            let e = other.elements[j].dup();
            let _ = self.insert(e);
            proof {
                let tj = os.take(j as int);
                let tj1 = os.take(j + 1);
                assert forall|x: T| #[trigger]
                    tj1.to_set().contains(x) implies tj.to_set().insert(os[j as int]).contains(
                    x,
                ) by {
                    let idx = choose|idx: int| 0 <= idx < tj1.len() && tj1[idx] == x;
                    if idx < j {
                        assert(tj[idx] == x);
                    }
                }
                assert forall|x: T| #[trigger]
                    tj.to_set().insert(os[j as int]).contains(x) implies tj1.to_set().contains(
                    x,
                ) by {
                    if x == os[j as int] {
                        assert(tj1[j as int] == x);
                    } else {
                        let idx = choose|idx: int| 0 <= idx < tj.len() && tj[idx] == x;
                        assert(tj1[idx] == x);
                    }
                }
                assert(tj1.to_set() =~= tj.to_set().insert(os[j as int]));
                assert(self@ =~= v0.union(tj1.to_set()));
            }
            j = j + 1;
        }
        proof {
            assert(os.take(os.len() as int) =~= os);
        }
    }

    /// Apply an insert operation.  Applying the same operation again
    /// changes nothing.
    fn apply(&mut self, op: GSetInsert<T>) {
        let GSetInsert { element } = op;
        let ghost v0 = self@;
        let _ = self.insert(element);
        proof {
            assert(self@ =~= Self::merged(v0, gset_op_state(GSetInsert { element })));
        }
    }
}

impl<T: Element> PartialEq for GSet<T> {
    /// Replicas are equal when they hold the same elements.
    fn eq(&self, other: &GSet<T>) -> (r: bool) {
        let le1 = self.is_subset(other);
        let le2 = other.is_subset(self);
        proof {
            if le1 && le2 {
                assert(self@ =~= other@);
            }
        }
        le1 && le2
    }
}

impl<T: Element> Eq for GSet<T> {}

impl<T: Element> vstd::std_specs::cmp::PartialEqSpecImpl for GSet<T> {
    open spec fn obeys_eq_spec() -> bool {
        true
    }

    open spec fn eq_spec(&self, other: &GSet<T>) -> bool {
        self@ == other@
    }
}

impl<T: Element> PartialOrd for GSet<T> {
    /// The derived partial order: set inclusion.  `None` means the
    /// replicas have diverged — each holds elements the other lacks —
    /// which is an expected outcome, not an error.
    fn partial_cmp(&self, other: &GSet<T>) -> (r: Option<core::cmp::Ordering>) {
        let le1 = self.is_subset(other);
        let le2 = other.is_subset(self);
        proof {
            if le1 && le2 {
                assert(self@ =~= other@);
            }
        }
        if le1 && le2 {
            Some(core::cmp::Ordering::Equal)
        } else if le1 {
            Some(core::cmp::Ordering::Less)
        } else if le2 {
            Some(core::cmp::Ordering::Greater)
        } else {
            None
        }
    }
}

impl<T: Element> vstd::std_specs::cmp::PartialOrdSpecImpl for GSet<T> {
    open spec fn obeys_partial_cmp_spec() -> bool {
        true
    }

    open spec fn partial_cmp_spec(&self, other: &GSet<T>) -> Option<core::cmp::Ordering> {
        if self@ == other@ {
            Some(core::cmp::Ordering::Equal)
        } else if self@.subset_of(other@) {
            Some(core::cmp::Ordering::Less)
        } else if other@.subset_of(self@) {
            Some(core::cmp::Ordering::Greater)
        } else {
            None
        }
    }
}

/// Merging is commutative: union does not depend on the order of its
/// arguments.
pub proof fn lemma_gset_merge_commutative<T>(v1: Set<T>, v2: Set<T>)
    ensures
        v1.union(v2) == v2.union(v1),
{
    assert(v1.union(v2) =~= v2.union(v1));
}

/// Merging is idempotent: merging a replica with itself changes nothing.
pub proof fn lemma_gset_merge_idempotent<T>(v: Set<T>)
    ensures
        v.union(v) == v,
{
    assert(v.union(v) =~= v);
}

/// Merging is associative.
pub proof fn lemma_gset_merge_associative<T>(v1: Set<T>, v2: Set<T>, v3: Set<T>)
    ensures
        v1.union(v2).union(v3) == v1.union(v2.union(v3)),
{
    assert(v1.union(v2).union(v3) =~= v1.union(v2.union(v3)));
}

/// The join law: a merge contains both of its inputs, and one view is
/// below another exactly when merging it in changes nothing.
pub proof fn lemma_gset_join_law<T>(v1: Set<T>, v2: Set<T>)
    ensures
        v1.subset_of(v1.union(v2)),
        v2.subset_of(v1.union(v2)),
        v1.subset_of(v2) <==> v1.union(v2) == v2,
{
    if v1.subset_of(v2) {
        assert(v1.union(v2) =~= v2);
    }
}

/// Ordering reflexivity and antisymmetry: two views are equal exactly
/// when each includes the other.
pub proof fn lemma_gset_eq_iff_le_both<T>(v1: Set<T>, v2: Set<T>)
    ensures
        v1 == v2 <==> (v1.subset_of(v2) && v2.subset_of(v1)),
{
    if v1.subset_of(v2) && v2.subset_of(v1) {
        assert(v1 =~= v2);
    }
}

/// Applying operations is order-independent: any two interleavings of
/// the same multiset of operations, applied to the same starting view,
/// end in the same view.
pub proof fn lemma_gset_apply_order_independent<T>(
    v: Set<T>,
    ops1: Seq<GSetInsert<T>>,
    ops2: Seq<GSetInsert<T>>,
)
    requires
        ops1.to_multiset() == ops2.to_multiset(),
    ensures
        gset_apply_all(v, ops1) == gset_apply_all(v, ops2),
{
    let f = gset_step_fn::<T>();
    assert forall|x: GSetInsert<T>, y: GSetInsert<T>, s: Set<T>| #[trigger]
        f(f(s, x), y) == f(f(s, y), x) by {
        assert(f(f(s, x), y) =~= f(f(s, y), x));
    }
    assert(commutative_foldl(f));
    lemma_fold_left_permutation(ops1, ops2, f, v);
}

} // verus!
