//! A fixed-capacity, allocation-conscious associative priority queue whose
//! entries carry a validity window measured against a monotonically
//! increasing, possibly wrapping, caller-supplied clock.
//!
//! The queue keeps up to `N` `(data, priority)` pairs in strictly descending
//! priority order. Inserting at an occupied priority replaces the entry;
//! inserting a new priority into a full queue evicts the lowest-priority
//! entry, or is a no-op when the newcomer ranks below everything stored.
//! `prune` compacts out entries whose validity window has elapsed, and the
//! peek operations return the highest-priority entry still valid at an
//! instant.

pub mod clock;
pub mod item;
pub mod order;
pub mod queue;

pub use clock::Timer;
pub use item::TopqItem;
pub use order::Ranked;
pub use queue::Topq;
