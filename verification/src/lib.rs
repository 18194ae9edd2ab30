//! A library of Conflict-free Replicated Data Types.
//!
//! A CRDT is a data structure whose replicas can be mutated independently
//! and later reconciled into a single, deterministic state.  Each type
//! here supports state-based replication (`merge`, which folds a whole
//! replica in) and operation-based replication (`apply`, which folds a
//! single operation in).  Operations carry absolute snapshots rather than
//! deltas, so applying an operation twice, or applying operations out of
//! order, leaves the same state as a single in-order application.
//!
//! Every replica is modelled by a mathematical view: a total map from
//! keys to per-key contributions (or a set, or a value/timestamp pair).
//! The merge of two replicas is the pointwise join of their views, and
//! the derived partial order is pointwise dominance.  The semilattice
//! laws — commutativity, associativity, idempotence, and the agreement
//! of `merge` with the partial order — are stated and proved alongside
//! each type.

use vstd::prelude::*;

pub mod assoc;
pub mod semilattice;
pub mod pn;
pub mod gcounter;
pub mod pncounter;
pub mod lwwregister;
pub mod gset;
pub mod tpset;
pub mod lwwset;
pub mod pnset;

pub use crate::pn::Pn;
pub use crate::gcounter::GCounter;
pub use crate::gcounter::GCounterOp;
pub use crate::pncounter::PnCounter;
pub use crate::pncounter::PnCounterOp;
pub use crate::lwwregister::LwwRegister;
pub use crate::gset::GSet;
pub use crate::gset::GSetInsert;
pub use crate::tpset::TpSet;
pub use crate::tpset::TpSetOp;
pub use crate::tpset::TpStatus;
pub use crate::lwwset::LwwSet;
pub use crate::lwwset::LwwSetOp;
pub use crate::pnset::PnSet;
pub use crate::pnset::PnSetOp;

verus! {

/// The identity of one replica of a CRDT.
///
/// Replica ids **must** be unique among the live replicas of one logical
/// CRDT instance.  Uniqueness is an external invariant supplied by the
/// caller (for example from per-replica configuration or a coordination
/// service); nothing in this library checks it, and violating it silently
/// corrupts the convergence guarantees.
#[derive(Clone, Copy, Debug, PartialEq, Eq, Hash, Structural)]
pub struct ReplicaId(pub u64);

impl ReplicaId {
    /// The numeric value of this replica id.
    pub open spec fn spec_id(self) -> u64 {
        self.0
    }

    /// Get the numeric value of this replica id.
    pub fn id(self) -> (r: u64)
        ensures
            r == self.spec_id(),
    {
        self.0
    }
}

impl From<u64> for ReplicaId {
    fn from(id: u64) -> (r: ReplicaId) {
        ReplicaId(id)
    }
}

impl vstd::std_specs::convert::FromSpecImpl<u64> for ReplicaId {
    open spec fn obeys_from_spec() -> bool {
        true
    }

    open spec fn from_spec(id: u64) -> ReplicaId {
        ReplicaId(id)
    }
}

/// The timestamp of one write to a last-writer-wins CRDT.
///
/// Transaction ids supplied to a single replica **must** be monotonically
/// non-decreasing across its writes, and **should** be unique across
/// replicas; ties between replicas are resolved by the deliberate
/// tie-breaking rules of each type.  As with [`ReplicaId`], these are
/// documented preconditions, not runtime-checked errors.
#[derive(Clone, Copy, Debug, PartialEq, Eq, Hash, PartialOrd, Ord, Structural)]
pub struct TransactionId(pub u64);

impl TransactionId {
    /// The numeric value of this transaction id.
    pub open spec fn spec_id(self) -> u64 {
        self.0
    }

    /// Get the numeric value of this transaction id.
    pub fn id(self) -> (r: u64)
        ensures
            r == self.spec_id(),
    {
        self.0
    }
}

impl From<u64> for TransactionId {
    fn from(id: u64) -> (r: TransactionId) {
        TransactionId(id)
    }
}

impl vstd::std_specs::convert::FromSpecImpl<u64> for TransactionId {
    open spec fn obeys_from_spec() -> bool {
        true
    }

    open spec fn from_spec(id: u64) -> TransactionId {
        TransactionId(id)
    }
}

/// A value that can be duplicated exactly.
///
/// Mutators return operations that carry snapshots of the values they
/// touch, so a stored value must sometimes exist both in the replica and
/// in the returned operation.  `dup` is a clone whose result is known to
/// equal its input.
pub trait Dup: Sized + Clone {
    /// Produce an exact copy of this value.
    fn dup(&self) -> (r: Self)
        ensures
            r == *self,
    ;
}

/// An element of a replicated set: duplicable, with a decidable equality
/// that agrees with mathematical equality.
pub trait Element: Dup {
    /// Decide whether two elements are equal.
    fn eq_elem(&self, other: &Self) -> (r: bool)
        ensures
            r <==> *self == *other,
    ;
}

/// A Conflict-free Replicated Data Type.
///
/// Updates are shared between replicas in two ways.  State-based
/// replication sends a whole replica, which the receiver folds in with
/// [`merge`](Crdt::merge).  Operation-based replication sends the
/// operation a mutator returned, which the receiver folds in with
/// [`apply`](Crdt::apply).  Operations carry absolute snapshots of the
/// state they touched, so `apply` is itself a merge of a (partial) state
/// and inherits its idempotence and order-independence; at-least-once,
/// unordered delivery is enough.
///
/// The contract is stated over views.  Merging produces exactly the join
/// [`merged`](Crdt::merged) of the two views — the least state that has
/// seen everything both replicas have seen — and applying an operation
/// produces the join with the snapshot [`op_state`](Crdt::op_state) the
/// operation carries.  Equality and the derived partial order of each
/// type compare views only: the local replica identity never takes part.
pub trait Crdt: View + Clone + Eq + PartialOrd + Sized {
    /// The operation type a mutator returns and `apply` consumes.
    type Operation;

    /// The join of two replica views.
    spec fn merged(v1: Self::V, v2: Self::V) -> Self::V;

    /// The state snapshot an operation carries.
    spec fn op_state(op: &Self::Operation) -> Self::V;

    /// Merge a replica into this one (state-based replication).
    fn merge(&mut self, other: Self)
        ensures
            final(self)@ == Self::merged(old(self)@, other@),
    ;

    /// Apply an operation to this replica (operation-based replication).
    fn apply(&mut self, op: Self::Operation)
        ensures
            final(self)@ == Self::merged(old(self)@, Self::op_state(&op)),
    ;
}

impl Dup for u8 {
    fn dup(&self) -> (r: u8)
        ensures
            r == *self,
    {
        *self
    }
}

impl Element for u8 {
    fn eq_elem(&self, other: &u8) -> (r: bool)
        ensures
            r <==> *self == *other,
    {
        *self == *other
    }
}

impl Dup for u16 {
    fn dup(&self) -> (r: u16)
        ensures
            r == *self,
    {
        *self
    }
}

impl Element for u16 {
    fn eq_elem(&self, other: &u16) -> (r: bool)
        ensures
            r <==> *self == *other,
    {
        *self == *other
    }
}

impl Dup for u32 {
    fn dup(&self) -> (r: u32)
        ensures
            r == *self,
    {
        *self
    }
}

impl Element for u32 {
    fn eq_elem(&self, other: &u32) -> (r: bool)
        ensures
            r <==> *self == *other,
    {
        *self == *other
    }
}

impl Dup for u64 {
    fn dup(&self) -> (r: u64)
        ensures
            r == *self,
    {
        *self
    }
}

impl Element for u64 {
    fn eq_elem(&self, other: &u64) -> (r: bool)
        ensures
            r <==> *self == *other,
    {
        *self == *other
    }
}

impl Dup for usize {
    fn dup(&self) -> (r: usize)
        ensures
            r == *self,
    {
        *self
    }
}

impl Element for usize {
    fn eq_elem(&self, other: &usize) -> (r: bool)
        ensures
            r <==> *self == *other,
    {
        *self == *other
    }
}

impl Dup for i32 {
    fn dup(&self) -> (r: i32)
        ensures
            r == *self,
    {
        *self
    }
}

impl Element for i32 {
    fn eq_elem(&self, other: &i32) -> (r: bool)
        ensures
            r <==> *self == *other,
    {
        *self == *other
    }
}

impl Dup for i64 {
    fn dup(&self) -> (r: i64)
        ensures
            r == *self,
    {
        *self
    }
}

impl Element for i64 {
    fn eq_elem(&self, other: &i64) -> (r: bool)
        ensures
            r <==> *self == *other,
    {
        *self == *other
    }
}

impl Dup for bool {
    fn dup(&self) -> (r: bool)
        ensures
            r == *self,
    {
        *self
    }
}

impl Element for bool {
    fn eq_elem(&self, other: &bool) -> (r: bool)
        ensures
            r <==> *self == *other,
    {
        *self == *other
    }
}

impl Dup for char {
    fn dup(&self) -> (r: char)
        ensures
            r == *self,
    {
        *self
    }
}

impl Element for char {
    fn eq_elem(&self, other: &char) -> (r: bool)
        ensures
            r <==> *self == *other,
    {
        *self == *other
    }
}

impl Dup for ReplicaId {
    fn dup(&self) -> (r: ReplicaId)
        ensures
            r == *self,
    {
        *self
    }
}

impl Element for ReplicaId {
    fn eq_elem(&self, other: &ReplicaId) -> (r: bool)
        ensures
            r <==> *self == *other,
    {
        self.0 == other.0
    }
}

impl Dup for String {
    fn dup(&self) -> (r: String)
        ensures
            r == *self,
    {
        self.clone()
    }
}

} // verus!
