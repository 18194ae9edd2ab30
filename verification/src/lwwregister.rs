//! A last-writer-wins register.

use vstd::prelude::*;
use vstd::seq_lib::commutative_foldl;
use vstd::seq_lib::lemma_fold_left_permutation;
use crate::{Crdt, Dup, TransactionId};

verus! {

/// A last-writer-wins register: a single value slot whose conflicting
/// writes are resolved by transaction id, the largest id winning.  On an
/// exact tie the incoming write wins.
///
/// State-based and operation-based replication coincide for this type:
/// the operation a write returns is a snapshot of the whole register,
/// and applying it is a merge.
///
/// Equality and ordering compare transaction ids only.  Two registers
/// holding different values under the same transaction id compare equal;
/// this is a deliberate weakening, kept because callers are required to
/// issue unique transaction ids across replicas.
#[derive(Debug)]
pub struct LwwRegister<T> {
    value: T,
    transaction_id: TransactionId,
}

/// The join of two register views: the write with the larger
/// transaction id; on a tie, the second.
pub open spec fn lwwregister_join<T>(v1: (T, u64), v2: (T, u64)) -> (T, u64) {
    if v1.1 <= v2.1 {
        v2
    } else {
        v1
    }
}

/// The derived order: by transaction id.  It is total.
pub open spec fn lwwregister_le<T>(v1: (T, u64), v2: (T, u64)) -> bool {
    v1.1 <= v2.1
}

/// Register equality: same transaction id.  The value is deliberately
/// ignored; see the type documentation.
pub open spec fn lwwregister_eqv<T>(v1: (T, u64), v2: (T, u64)) -> bool {
    v1.1 == v2.1
}

/// One application step: join the operation's snapshot into the view.
pub open spec fn lwwregister_step_fn<T>() -> spec_fn((T, u64), LwwRegister<T>) -> (T, u64) {
    |v: (T, u64), op: LwwRegister<T>| lwwregister_join(v, op@)
}

/// The view after applying a sequence of operations in order.
pub open spec fn lwwregister_apply_all<T>(v: (T, u64), ops: Seq<LwwRegister<T>>) -> (T, u64) {
    ops.fold_left(v, lwwregister_step_fn())
}

/// One application step, projected to the transaction id: the larger of
/// the two ids.
pub open spec fn lwwregister_tid_step_fn<T>() -> spec_fn(u64, LwwRegister<T>) -> u64 {
    |t: u64, op: LwwRegister<T>|
        if t >= op@.1 {
            t
        } else {
            op@.1
        }
}

impl<T> View for LwwRegister<T> {
    type V = (T, u64);

    closed spec fn view(&self) -> (T, u64) {
        (self.value, self.transaction_id.spec_id())
    }
}

impl<T: Dup> LwwRegister<T> {
    /// Create a register holding `value` as of `transaction_id`.
    pub fn new(value: T, transaction_id: TransactionId) -> (r: LwwRegister<T>)
        ensures
            r@ == (value, transaction_id.spec_id()),
    {
        LwwRegister { value, transaction_id }
    }

    /// Get the current value.
    pub fn get(&self) -> (r: &T)
        ensures
            *r == self@.0,
    {
        &self.value
    }

    /// Get the transaction id of the current value.
    pub fn transaction_id(&self) -> (r: TransactionId)
        ensures
            r.spec_id() == self@.1,
    {
        self.transaction_id
    }

    /// Write `value` under `transaction_id`.  The write succeeds — and
    /// returns the snapshot to broadcast — exactly when `transaction_id`
    /// is at least the stored one; otherwise the register is unchanged
    /// and there is nothing to broadcast.
    pub fn set(&mut self, value: T, transaction_id: TransactionId) -> (r: Option<LwwRegister<T>>)
        ensures
            r is Some <==> old(self)@.1 <= transaction_id.spec_id(),
            old(self)@.1 <= transaction_id.spec_id() ==> final(self)@ == (
                value,
                transaction_id.spec_id(),
            ),
            old(self)@.1 > transaction_id.spec_id() ==> final(self)@ == old(self)@,
            r matches Some(op) ==> op@ == final(self)@,
    {
        if self.transaction_id.0 <= transaction_id.0 {
            self.value = value;
            self.transaction_id = transaction_id;
            Some(LwwRegister { value: self.value.dup(), transaction_id: self.transaction_id })
        } else {
            None
        }
    }
}

impl<T: Dup> Clone for LwwRegister<T> {
    /// Clone this replica: same value, same transaction id.
    fn clone(&self) -> (r: LwwRegister<T>)
        ensures
            r@ == self@,
    {
        LwwRegister { value: self.value.dup(), transaction_id: self.transaction_id }
    }
}

impl<T: Dup> Crdt for LwwRegister<T> {
    type Operation = LwwRegister<T>;

    open spec fn merged(v1: (T, u64), v2: (T, u64)) -> (T, u64) {
        lwwregister_join(v1, v2)
    }

    open spec fn op_state(op: &LwwRegister<T>) -> (T, u64) {
        (*op)@
    }

    /// Merge a replica into this register: keep the write with the
    /// larger transaction id, the incoming one on a tie.
    fn merge(&mut self, other: LwwRegister<T>) {
        if self.transaction_id.0 <= other.transaction_id.0 {
            self.value = other.value;
            self.transaction_id = other.transaction_id;
        }
    }

    /// Apply a write operation: the same rule as a merge, since the
    /// operation is a snapshot of the writing replica.  Applying the
    /// same operation again changes nothing.
    fn apply(&mut self, op: LwwRegister<T>) {
        self.merge(op);
    }
}

impl<T> PartialEq for LwwRegister<T> {
    /// Registers are equal when they hold the same transaction id; the
    /// value is deliberately ignored.
    fn eq(&self, other: &LwwRegister<T>) -> (r: bool) {
        self.transaction_id.0 == other.transaction_id.0
    }
}

impl<T> Eq for LwwRegister<T> {}

impl<T> vstd::std_specs::cmp::PartialEqSpecImpl for LwwRegister<T> {
    open spec fn obeys_eq_spec() -> bool {
        true
    }

    open spec fn eq_spec(&self, other: &LwwRegister<T>) -> bool {
        lwwregister_eqv(self@, other@)
    }
}

impl<T> PartialOrd for LwwRegister<T> {
    /// The derived order: by transaction id.  It is total: two registers
    /// always compare.
    fn partial_cmp(&self, other: &LwwRegister<T>) -> (r: Option<core::cmp::Ordering>) {
        if self.transaction_id.0 == other.transaction_id.0 {
            Some(core::cmp::Ordering::Equal)
        } else if self.transaction_id.0 < other.transaction_id.0 {
            Some(core::cmp::Ordering::Less)
        } else {
            Some(core::cmp::Ordering::Greater)
        }
    }
}

impl<T> vstd::std_specs::cmp::PartialOrdSpecImpl for LwwRegister<T> {
    open spec fn obeys_partial_cmp_spec() -> bool {
        true
    }

    open spec fn partial_cmp_spec(&self, other: &LwwRegister<T>) -> Option<core::cmp::Ordering> {
        if self@.1 == other@.1 {
            Some(core::cmp::Ordering::Equal)
        } else if self@.1 < other@.1 {
            Some(core::cmp::Ordering::Less)
        } else {
            Some(core::cmp::Ordering::Greater)
        }
    }
}

/// Merging is commutative up to register equality: merging either way
/// yields the same transaction id, and the same register whenever the
/// ids differ.  On an exact tie of ids with different values the two
/// orders keep different values, which register equality deliberately
/// ignores.
pub proof fn lemma_lwwregister_merge_commutative<T>(v1: (T, u64), v2: (T, u64))
    ensures
        lwwregister_eqv(lwwregister_join(v1, v2), lwwregister_join(v2, v1)),
        v1.1 != v2.1 ==> lwwregister_join(v1, v2) == lwwregister_join(v2, v1),
{
}

/// Merging is idempotent: merging a replica with itself changes nothing.
pub proof fn lemma_lwwregister_merge_idempotent<T>(v: (T, u64))
    ensures
        lwwregister_join(v, v) == v,
{
}

/// Merging is associative.
pub proof fn lemma_lwwregister_merge_associative<T>(v1: (T, u64), v2: (T, u64), v3: (T, u64))
    ensures
        lwwregister_join(lwwregister_join(v1, v2), v3) == lwwregister_join(
            v1,
            lwwregister_join(v2, v3),
        ),
{
}

/// The join law: a merge dominates both of its inputs, and one view is
/// below another exactly when merging it in changes nothing.
pub proof fn lemma_lwwregister_join_law<T>(v1: (T, u64), v2: (T, u64))
    ensures
        lwwregister_le(v1, lwwregister_join(v1, v2)),
        lwwregister_le(v2, lwwregister_join(v1, v2)),
        lwwregister_le(v1, v2) <==> lwwregister_join(v1, v2) == v2,
{
}

/// Ordering reflexivity and antisymmetry: two registers are equal
/// exactly when each is below the other.
pub proof fn lemma_lwwregister_eq_iff_le_both<T>(v1: (T, u64), v2: (T, u64))
    ensures
        lwwregister_eqv(v1, v2) <==> (lwwregister_le(v1, v2) && lwwregister_le(v2, v1)),
{
}

/// The transaction id after applying a sequence of operations is the
/// largest id seen: the starting one or any operation's.
proof fn lemma_lwwregister_apply_all_tid<T>(v: (T, u64), ops: Seq<LwwRegister<T>>)
    ensures
        lwwregister_apply_all(v, ops).1 == ops.fold_left(v.1, lwwregister_tid_step_fn()),
    decreases ops.len(),
{
    if ops.len() > 0 {
        lemma_lwwregister_apply_all_tid(v, ops.drop_last());
        assert(lwwregister_apply_all(v, ops) == lwwregister_step_fn()(
            lwwregister_apply_all(v, ops.drop_last()),
            ops.last(),
        ));
    }
}

/// Applying operations is order-independent: any two interleavings of
/// the same multiset of operations, applied to the same starting view,
/// end in registers that compare equal.  (On ties of transaction ids the
/// surviving value may differ; register equality ignores it.)
pub proof fn lemma_lwwregister_apply_order_independent<T>(
    v: (T, u64),
    ops1: Seq<LwwRegister<T>>,
    ops2: Seq<LwwRegister<T>>,
)
    requires
        ops1.to_multiset() == ops2.to_multiset(),
    ensures
        lwwregister_eqv(lwwregister_apply_all(v, ops1), lwwregister_apply_all(v, ops2)),
{
    let f = lwwregister_tid_step_fn::<T>();
    lemma_lwwregister_apply_all_tid(v, ops1);
    lemma_lwwregister_apply_all_tid(v, ops2);
    assert(commutative_foldl(f));
    lemma_fold_left_permutation(ops1, ops2, f, v.1);
}

} // verus!
