//! The clock capability the queue is driven by.

use vstd::prelude::*;
use crate::order::Ranked;

verus! {

/// A (possibly rolling) timer of arbitrary precision.
///
/// The queue samples `now` whenever it needs the current instant and never
/// reads real time itself. Nothing is promised of the sampled value beyond
/// its type: the tick counter is hardware-driven and may wrap, so every
/// queue operation states what holds for whatever instant was sampled.
pub trait Timer {
    /// The totally ordered type that represents a time or an offset.
    type Time: Ranked;

    /// The number of ticks per second, for callers that translate real
    /// durations into tick offsets; the queue itself never reads it.
    const TICKS_PER_SECOND: u32;

    /// The current time.
    fn now(&self) -> Self::Time;

    /// A timestamp plus an offset. When the tick counter rolls over
    /// periodically, the addition must wrap accordingly; the result is
    /// whatever the implementation's wrap semantics give, so nothing is
    /// promised of it here.
    fn wrapping_add(time: &Self::Time, offset: &Self::Time) -> Self::Time;
}

} // verus!
