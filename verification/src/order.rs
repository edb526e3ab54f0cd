//! Total ordering for priorities and clock ticks.
//!
//! Both the priority type and the clock's tick type must be totally ordered.
//! `Ranked` states that order through a mathematical position, `rank`: the
//! executable comparison must answer exactly as the ranks compare. Every law
//! of a total order (transitivity, antisymmetry, totality) then comes for
//! free from the integers.

use vstd::prelude::*;

verus! {

/// A totally ordered value: `rank` gives its position in the order, and the
/// executable comparison `lt` must agree with the ranks.
///
/// Two values with equal rank are the same priority level; the queue never
/// stores two entries whose priorities share a rank.
pub trait Ranked: Sized {
    /// The mathematical position of this value in its total order.
    ///
    /// Implementations inside verified code override this. The default
    /// leaves the position unspecified, so that an ordering written outside
    /// the verifier's reach only has to provide the executable comparison;
    /// everything proved against `rank` then holds of such an
    /// implementation exactly as far as its `lt` answers as some ranking
    /// would.
    open spec fn rank(&self) -> int {
        arbitrary()
    }

    /// Strict comparison, `self < other` in the total order.
    fn lt(&self, other: &Self) -> (r: bool)
        ensures
            r == (self.rank() < other.rank()),
    ;
}

impl Ranked for u8 {
    open spec fn rank(&self) -> int {
        *self as int
    }

    fn lt(&self, other: &Self) -> (r: bool) {
        *self < *other
    }
}

impl Ranked for u32 {
    open spec fn rank(&self) -> int {
        *self as int
    }

    fn lt(&self, other: &Self) -> (r: bool) {
        *self < *other
    }
}

impl Ranked for u64 {
    open spec fn rank(&self) -> int {
        *self as int
    }

    fn lt(&self, other: &Self) -> (r: bool) {
        *self < *other
    }
}

} // verus!
