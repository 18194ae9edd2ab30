//! The signed monotone accumulator behind the counting CRDTs.

use vstd::prelude::*;

verus! {

/// A pair of monotone counters.
///
/// `p` accumulates increments and `n` accumulates decrements; each field
/// only ever grows, and merging takes the pointwise maximum, so a merge
/// never loses an increment or a decrement either replica has seen.  The
/// signed count is `p - n`.
#[derive(Clone, Copy, Debug, PartialEq, Eq, Hash, Structural)]
pub struct Pn {
    /// The positive count.
    pub p: u64,
    /// The negative count.
    pub n: u64,
}

/// The join of two accumulators: the pointwise maximum of both fields.
pub open spec fn pn_join(a: Pn, b: Pn) -> Pn {
    Pn {
        p: if a.p >= b.p {
            a.p
        } else {
            b.p
        },
        n: if a.n >= b.n {
            a.n
        } else {
            b.n
        },
    }
}

/// Pointwise dominance of accumulators.
pub open spec fn pn_le(a: Pn, b: Pn) -> bool {
    a.p <= b.p && a.n <= b.n
}

/// The accumulator that has seen nothing.
pub open spec fn pn_zero() -> Pn {
    Pn { p: 0, n: 0 }
}

/// The join as a function value, for pointwise map joins.
pub open spec fn pn_join_fn() -> spec_fn(Pn, Pn) -> Pn {
    |a: Pn, b: Pn| pn_join(a, b)
}

/// The order as a function value, for pointwise map orders.
pub open spec fn pn_le_fn() -> spec_fn(Pn, Pn) -> bool {
    |a: Pn, b: Pn| pn_le(a, b)
}

/// The positive count as a summand.
pub open spec fn pn_p_sum_fn() -> spec_fn(Pn) -> int {
    |v: Pn| v.p as int
}

/// The negative count as a summand.
pub open spec fn pn_n_sum_fn() -> spec_fn(Pn) -> int {
    |v: Pn| v.n as int
}

impl Pn {
    /// The signed count: increments minus decrements.
    pub open spec fn spec_count(self) -> int {
        self.p - self.n
    }

    /// Create a zeroed accumulator.
    pub fn new() -> (r: Pn)
        ensures
            r == (Pn { p: 0, n: 0 }),
    {
        Pn { p: 0, n: 0 }
    }

    /// Get the current signed count.
    pub fn count(&self) -> (r: i64)
        requires
            self.p <= i64::MAX as u64,
            self.n <= i64::MAX as u64,
        ensures
            r == self.spec_count(),
    {
        self.p as i64 - self.n as i64
    }

    /// Add `amount` to the positive count if it is non-negative, else
    /// add its magnitude to the negative count.
    ///
    /// Exceeding `u64::MAX` in either field is ruled out by the caller;
    /// the accumulated bound is shared across replicas and is not
    /// checked during merges.
    pub fn increment(&mut self, amount: i64)
        requires
            amount >= 0 ==> old(self).p + amount <= u64::MAX,
            amount < 0 ==> old(self).n - amount <= u64::MAX,
        ensures
            amount >= 0 ==> *final(self) == (Pn {
                p: (old(self).p + amount) as u64,
                n: old(self).n,
            }),
            amount < 0 ==> *final(self) == (Pn {
                p: old(self).p,
                n: (old(self).n - amount) as u64,
            }),
    {
        if amount >= 0 {
            self.p = self.p + amount as u64;
        } else {
            let magnitude: u64 = if amount == i64::MIN {
                9223372036854775808u64
            } else {
                (-amount) as u64
            };
            self.n = self.n + magnitude;
        }
    }

    /// Merge another accumulator in: the pointwise maximum of both
    /// fields.
    pub fn merge(&mut self, other: Pn)
        ensures
            *final(self) == pn_join(*old(self), other),
    {
        if other.p > self.p {
            self.p = other.p;
        }
        if other.n > self.n {
            self.n = other.n;
        }
    }
}

pub proof fn lemma_pn_join_commutative(a: Pn, b: Pn)
    ensures
        pn_join(a, b) == pn_join(b, a),
{
}

pub proof fn lemma_pn_join_idempotent(a: Pn)
    ensures
        pn_join(a, a) == a,
{
}

pub proof fn lemma_pn_join_associative(a: Pn, b: Pn, c: Pn)
    ensures
        pn_join(pn_join(a, b), c) == pn_join(a, pn_join(b, c)),
{
}

pub proof fn lemma_pn_le_join(a: Pn, b: Pn)
    ensures
        pn_le(a, pn_join(a, b)),
        pn_le(b, pn_join(a, b)),
        pn_le(a, b) <==> pn_join(a, b) == b,
{
}

pub proof fn lemma_pn_le_antisymmetric(a: Pn, b: Pn)
    requires
        pn_le(a, b),
        pn_le(b, a),
    ensures
        a == b,
{
}

} // verus!
