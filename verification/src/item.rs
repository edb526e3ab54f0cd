//! A single priority-tagged, time-bounded entry.

use vstd::prelude::*;
use crate::clock::Timer;
use crate::order::Ranked;

verus! {

/// One entry of the queue: a payload, its priority, and the validity window
/// `[start_time, expiry_time]` against the owning queue's clock.
#[derive(Debug)]
pub struct TopqItem<D, P, T> where P: Ranked, T: Timer {
    /// The caller-owned payload.
    pub item: D,
    /// The priority this entry is stored under.
    pub prio: P,
    /// The clock tick at insertion.
    pub start_time: T::Time,
    /// The tick at which the entry stops being valid: `start_time`
    /// wrap-added with the validity duration the caller supplied.
    pub expiry_time: T::Time,
}

impl<D, P, T> TopqItem<D, P, T> where P: Ranked, T: Timer {
    /// Whether this entry is valid at the instant whose rank is `t`.
    ///
    /// When the window did not wrap (`start_time < expiry_time`), the entry
    /// is valid on the closed interval from start to expiry. Otherwise the
    /// expiry tick rolled over past the maximum representable tick, and the
    /// entry is valid from `start_time` onward or up to `expiry_time` after
    /// the wrap. A window with `start_time == expiry_time` falls in the
    /// wrapped branch.
    pub open spec fn valid_spec(&self, t: int) -> bool {
        if self.start_time.rank() < self.expiry_time.rank() {
            self.start_time.rank() <= t <= self.expiry_time.rank()
        } else {
            t >= self.start_time.rank() || t <= self.expiry_time.rank()
        }
    }

    /// Whether this entry is valid at instant `time`.
    pub fn valid_at_time(&self, time: &T::Time) -> (r: bool)
        ensures
            r == self.valid_spec(time.rank()),
    {
        if self.start_time.lt(&self.expiry_time) {
            // Not a rollover case
            !time.lt(&self.start_time) && !self.expiry_time.lt(time)
        } else {
            // Rollover case
            !time.lt(&self.start_time) || !self.expiry_time.lt(time)
        }
    }

    /// In a window that did not wrap, validity is inclusive at both
    /// endpoints: the entry is valid at `start_time` and at `expiry_time`.
    pub proof fn lemma_endpoints_inclusive(&self)
        requires
            self.start_time.rank() < self.expiry_time.rank(),
        ensures
            self.valid_spec(self.start_time.rank()),
            self.valid_spec(self.expiry_time.rank()),
    {
    }
}

} // verus!
