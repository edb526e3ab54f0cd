//! The timeout priority queue itself.

use vstd::prelude::*;
use crate::clock::Timer;
use crate::item::TopqItem;
use crate::order::Ranked;

verus! {

/// The occupied region is sorted strictly descending by priority rank; in
/// particular no two entries share a priority.
pub open spec fn sorted_desc<D, P, T>(s: Seq<TopqItem<D, P, T>>) -> bool where
    P: Ranked,
    T: Timer,
{
    forall|i: int, j: int|
        0 <= i < j < s.len() ==> #[trigger] s[j].prio.rank() < #[trigger] s[i].prio.rank()
}

/// The slot a priority of rank `r` belongs in: the index of the first stored
/// entry that does not rank above `r`, or the length when every entry does.
pub open spec fn insert_pos<D, P, T>(s: Seq<TopqItem<D, P, T>>, r: int) -> int where
    P: Ranked,
    T: Timer,
    decreases s.len(),
{
    if s.len() == 0 {
        0
    } else if s[0].prio.rank() > r {
        1 + insert_pos(s.drop_first(), r)
    } else {
        0
    }
}

/// What inserting `it` into the occupied region `s` of a queue of capacity
/// `cap` leaves behind: a rank match replaces in place; a new rank is
/// spliced in at its slot, evicting the tail entry when the region is full;
/// a new rank below everything in a full region is a no-op.
pub open spec fn spec_insert<D, P, T>(
    s: Seq<TopqItem<D, P, T>>,
    it: TopqItem<D, P, T>,
    cap: int,
) -> Seq<TopqItem<D, P, T>> where P: Ranked, T: Timer {
    let i = insert_pos(s, it.prio.rank());
    if i < s.len() && s[i].prio.rank() == it.prio.rank() {
        s.update(i, it)
    } else if i == s.len() {
        if s.len() < cap {
            s.push(it)
        } else {
            s
        }
    } else if s.len() < cap {
        s.insert(i, it)
    } else {
        s.drop_last().insert(i, it)
    }
}

/// The first entry of `s` valid at the instant of rank `t`, scanning in
/// stored (descending-priority) order.
pub open spec fn spec_peek<D, P, T>(s: Seq<TopqItem<D, P, T>>, t: int) -> Option<
    TopqItem<D, P, T>,
> where P: Ranked, T: Timer
    decreases s.len(),
{
    if s.len() == 0 {
        None
    } else if s[0].valid_spec(t) {
        Some(s[0])
    } else {
        spec_peek(s.drop_first(), t)
    }
}

/// The occupied region with every entry invalid at the instant of rank `t`
/// removed; survivors keep their relative order.
pub open spec fn pruned_at<D, P, T>(s: Seq<TopqItem<D, P, T>>, t: int) -> Seq<
    TopqItem<D, P, T>,
> where P: Ranked, T: Timer {
    s.filter(|it: TopqItem<D, P, T>| it.valid_spec(t))
}

/// What a fresh entry built from `item`, `prio` and the sampled window
/// `[start, exp]` leaves behind when inserted into `s`.
pub open spec fn spec_insert_new<D, P, T>(
    s: Seq<TopqItem<D, P, T>>,
    item: D,
    prio: P,
    start: T::Time,
    exp: T::Time,
    cap: int,
) -> Seq<TopqItem<D, P, T>> where P: Ranked, T: Timer {
    spec_insert(s, TopqItem { item, prio, start_time: start, expiry_time: exp }, cap)
}

/// `insert_pos` is the first index whose entry does not rank above `r`, and
/// it never runs past the end.
pub proof fn lemma_insert_pos_props<D, P, T>(s: Seq<TopqItem<D, P, T>>, r: int) where
    P: Ranked,
    T: Timer,

    ensures
        0 <= insert_pos(s, r) <= s.len(),
        forall|k: int| 0 <= k < insert_pos(s, r) ==> #[trigger] s[k].prio.rank() > r,
        insert_pos(s, r) < s.len() ==> s[insert_pos(s, r)].prio.rank() <= r,
    decreases s.len(),
{
    if s.len() == 0 {
    } else if s[0].prio.rank() > r {
        let rest = s.drop_first();
        lemma_insert_pos_props(rest, r);
        let i = insert_pos(s, r);
        assert forall|k: int| 0 <= k < i implies #[trigger] s[k].prio.rank() > r by {
            if k > 0 {
                assert(rest[k - 1] == s[k]);
            }
        }
        if i < s.len() {
            assert(rest[i - 1] == s[i]);
        }
    }
}

/// Any index with the same characterisation — everything before it ranks
/// above `r`, and it is the end or an entry not ranking above `r` — is
/// exactly `insert_pos`.
proof fn lemma_pos_is_insert_pos<D, P, T>(s: Seq<TopqItem<D, P, T>>, r: int, i: int) where
    P: Ranked,
    T: Timer,

    requires
        0 <= i <= s.len(),
        forall|k: int| 0 <= k < i ==> #[trigger] s[k].prio.rank() > r,
        i < s.len() ==> s[i].prio.rank() <= r,
    ensures
        i == insert_pos(s, r),
{
    lemma_insert_pos_props(s, r);
    let p = insert_pos(s, r);
    if p < i {
        assert(s[p].prio.rank() > r);
        assert(s[p].prio.rank() <= r);
    } else if i < p {
        assert(s[i].prio.rank() > r);
        assert(s[i].prio.rank() <= r);
    }
}

/// Replacing an entry by one of the same rank keeps the region sorted.
proof fn lemma_sorted_update<D, P, T>(s: Seq<TopqItem<D, P, T>>, i: int, it: TopqItem<D, P, T>) where
    P: Ranked,
    T: Timer,

    requires
        sorted_desc(s),
        0 <= i < s.len(),
        s[i].prio.rank() == it.prio.rank(),
    ensures
        sorted_desc(s.update(i, it)),
{
    let s2 = s.update(i, it);
    assert forall|a: int, b: int|
        0 <= a < b < s2.len() implies #[trigger] s2[b].prio.rank() < #[trigger] s2[a].prio.rank() by {
        assert(s[b].prio.rank() < s[a].prio.rank());
    }
}

/// Splicing an entry in where everything before ranks above it and
/// everything at or after ranks below it keeps the region sorted.
proof fn lemma_sorted_splice<D, P, T>(s: Seq<TopqItem<D, P, T>>, i: int, it: TopqItem<D, P, T>) where
    P: Ranked,
    T: Timer,

    requires
        sorted_desc(s),
        0 <= i <= s.len(),
        forall|k: int| 0 <= k < i ==> #[trigger] s[k].prio.rank() > it.prio.rank(),
        forall|k: int| i <= k < s.len() ==> #[trigger] s[k].prio.rank() < it.prio.rank(),
    ensures
        sorted_desc(s.insert(i, it)),
{
    s.insert_ensures(i, it);
    let s2 = s.insert(i, it);
    assert forall|a: int, b: int|
        0 <= a < b < s2.len() implies #[trigger] s2[b].prio.rank() < #[trigger] s2[a].prio.rank() by {
        if a < i {
            assert(s2[a] == s[a]);
        } else if a == i {
            assert(s2[a] == it);
        } else {
            assert(s2[a] == s[a - 1]);
        }
        if b < i {
            assert(s2[b] == s[b]);
        } else if b == i {
            assert(s2[b] == it);
        } else {
            assert(s2[b] == s[b - 1]);
        }
    }
}

/// Removing an entry keeps the region sorted.
proof fn lemma_sorted_remove<D, P, T>(s: Seq<TopqItem<D, P, T>>, i: int) where
    P: Ranked,
    T: Timer,

    requires
        sorted_desc(s),
        0 <= i < s.len(),
    ensures
        sorted_desc(s.remove(i)),
{
    s.remove_ensures(i);
    let s2 = s.remove(i);
    assert forall|a: int, b: int|
        0 <= a < b < s2.len() implies #[trigger] s2[b].prio.rank() < #[trigger] s2[a].prio.rank() by {
        if a < i {
            assert(s2[a] == s[a]);
        } else {
            assert(s2[a] == s[a + 1]);
        }
        if b < i {
            assert(s2[b] == s[b]);
        } else {
            assert(s2[b] == s[b + 1]);
        }
    }
}

/// A prefix of a sorted region is sorted.
proof fn lemma_sorted_drop_last<D, P, T>(s: Seq<TopqItem<D, P, T>>) where P: Ranked, T: Timer
    requires
        sorted_desc(s),
        s.len() >= 1,
    ensures
        sorted_desc(s.drop_last()),
{
    let s2 = s.drop_last();
    assert forall|a: int, b: int|
        0 <= a < b < s2.len() implies #[trigger] s2[b].prio.rank() < #[trigger] s2[a].prio.rank() by {
        assert(s2[a] == s[a]);
        assert(s2[b] == s[b]);
    }
}

/// Filtering a region that grew by one entry keeps the filtered prefix and
/// appends the entry exactly when it passes the predicate.
proof fn lemma_filter_push<A>(s: Seq<A>, x: A, pred: spec_fn(A) -> bool)
    ensures
        s.push(x).filter(pred) == if pred(x) {
            s.filter(pred).push(x)
        } else {
            s.filter(pred)
        },
{
    reveal(Seq::filter);
    assert(s.push(x).drop_last() =~= s);
    assert(s.push(x).last() == x);
}

/// If everything before index `i` is invalid at the instant of rank `t`,
/// then the peek result is the entry at `i` when `i` is in range and valid,
/// and nothing when `i` is the end of the region.
proof fn lemma_peek_at_first<D, P, T>(s: Seq<TopqItem<D, P, T>>, t: int, i: int) where
    P: Ranked,
    T: Timer,

    requires
        0 <= i <= s.len(),
        forall|k: int| 0 <= k < i ==> !(#[trigger] s[k].valid_spec(t)),
        i < s.len() ==> s[i].valid_spec(t),
    ensures
        i < s.len() ==> spec_peek(s, t) == Some(s[i]),
        i == s.len() ==> spec_peek(s, t) is None,
    decreases s.len(),
{
    if s.len() == 0 {
    } else if i == 0 {
    } else {
        let rest = s.drop_first();
        assert(!s[0].valid_spec(t));
        assert forall|k: int| 0 <= k < i - 1 implies !(#[trigger] rest[k].valid_spec(t)) by {
            assert(rest[k] == s[k + 1]);
        }
        if i < s.len() {
            assert(rest[i - 1] == s[i]);
        }
        lemma_peek_at_first(rest, t, i - 1);
    }
}

/// In a sorted region the first valid entry is the highest-priority valid
/// entry: what peek returns is valid and outranks every other entry valid
/// at the same instant, and peek returns nothing only when no entry is
/// valid.
pub proof fn lemma_peek_is_highest<D, P, T>(s: Seq<TopqItem<D, P, T>>, t: int) where
    P: Ranked,
    T: Timer,

    requires
        sorted_desc(s),
    ensures
        spec_peek(s, t) matches Some(it) ==> it.valid_spec(t) && (forall|k: int|
            0 <= k < s.len() && #[trigger] s[k].valid_spec(t) ==> s[k].prio.rank()
                <= it.prio.rank()),
        spec_peek(s, t) is None ==> forall|k: int|
            0 <= k < s.len() ==> !(#[trigger] s[k].valid_spec(t)),
    decreases s.len(),
{
    if s.len() == 0 {
    } else if s[0].valid_spec(t) {
    } else {
        let rest = s.drop_first();
        assert forall|a: int, b: int|
            0 <= a < b < rest.len() implies #[trigger] rest[b].prio.rank()
            < #[trigger] rest[a].prio.rank() by {
            assert(rest[a] == s[a + 1]);
            assert(rest[b] == s[b + 1]);
        }
        lemma_peek_is_highest(rest, t);
        match spec_peek(s, t) {
            Some(it) => {
                assert forall|k: int|
                    0 <= k < s.len() && #[trigger] s[k].valid_spec(t) implies s[k].prio.rank()
                    <= it.prio.rank() by {
                    assert(k > 0);
                    assert(rest[k - 1] == s[k]);
                }
            },
            None => {
                assert forall|k: int| 0 <= k < s.len() implies !(#[trigger] s[k].valid_spec(
                    t,
                )) by {
                    if k > 0 {
                        assert(rest[k - 1] == s[k]);
                    }
                }
            },
        }
    }
}

/// `pruned_at` keeps an entry appended to the region exactly when the entry
/// is valid at the instant.
proof fn lemma_pruned_at_push<D, P, T>(s: Seq<TopqItem<D, P, T>>, x: TopqItem<D, P, T>, t: int) where
    P: Ranked,
    T: Timer,

    ensures
        pruned_at(s.push(x), t) == if x.valid_spec(t) {
            pruned_at(s, t).push(x)
        } else {
            pruned_at(s, t)
        },
{
    lemma_filter_push(s, x, |it: TopqItem<D, P, T>| it.valid_spec(t));
}

/// The slot `prio` belongs in: the index of the first occupied entry that
/// does not rank above it, or the occupied length when every entry does.
fn find_slot<D, P, T>(q: &Vec<TopqItem<D, P, T>>, prio: &P) -> (idx: usize) where
    P: Ranked,
    T: Timer,

    ensures
        0 <= idx <= q@.len(),
        forall|k: int| 0 <= k < idx ==> #[trigger] q@[k].prio.rank() > prio.rank(),
        idx < q@.len() ==> q@[idx as int].prio.rank() <= prio.rank(),
        idx as int == insert_pos(q@, prio.rank()),
{
    let mut idx: usize = 0;
    while idx < q.len()
        invariant
            0 <= idx <= q@.len(),
            forall|k: int| 0 <= k < idx ==> #[trigger] q@[k].prio.rank() > prio.rank(),
        decreases q@.len() - idx,
    {
        if !prio.lt(&q[idx].prio) {
            proof {
                lemma_pos_is_insert_pos(q@, prio.rank(), idx as int);
            }
            return idx;
        }
        idx += 1;
    }
    proof {
        lemma_pos_is_insert_pos(q@, prio.rank(), idx as int);
    }
    idx
}

/// A strictly descending region has no duplicate priorities: entries at
/// distinct slots have distinct ranks.
pub proof fn lemma_sorted_no_duplicates<D, P, T>(s: Seq<TopqItem<D, P, T>>) where
    P: Ranked,
    T: Timer,

    requires
        sorted_desc(s),
    ensures
        forall|i: int, j: int|
            0 <= i < s.len() && 0 <= j < s.len() && i != j ==> #[trigger] s[i].prio.rank()
                != #[trigger] s[j].prio.rank(),
{
}

/// Inserting preserves the queue invariant: the region stays sorted
/// strictly descending by priority and never outgrows the capacity. With
/// [`Topq::new`] giving an empty region, every sequence of inserts keeps
/// the invariant.
pub proof fn lemma_insert_preserves_invariant<D, P, T>(
    s: Seq<TopqItem<D, P, T>>,
    it: TopqItem<D, P, T>,
    cap: int,
) where P: Ranked, T: Timer
    requires
        sorted_desc(s),
        s.len() <= cap,
    ensures
        sorted_desc(spec_insert(s, it, cap)),
        spec_insert(s, it, cap).len() <= cap,
{
    let r = it.prio.rank();
    let i = insert_pos(s, r);
    lemma_insert_pos_props(s, r);
    if i < s.len() && s[i].prio.rank() == r {
        lemma_sorted_update(s, i, it);
    } else if i == s.len() {
        if s.len() < cap {
            assert(s.push(it) =~= s.insert(s.len() as int, it));
            lemma_sorted_splice(s, s.len() as int, it);
        }
    } else {
        assert(s[i].prio.rank() < r);
        if s.len() < cap {
            assert forall|k: int| i <= k < s.len() implies #[trigger] s[k].prio.rank() < r by {
                assert(s[k].prio.rank() <= s[i].prio.rank());
            }
            lemma_sorted_splice(s, i, it);
        } else {
            lemma_sorted_drop_last(s);
            let s1 = s.drop_last();
            assert forall|k: int| 0 <= k < i implies #[trigger] s1[k].prio.rank() > r by {
                assert(s1[k] == s[k]);
            }
            assert forall|k: int| i <= k < s1.len() implies #[trigger] s1[k].prio.rank() < r by {
                assert(s1[k] == s[k]);
                assert(s[k].prio.rank() <= s[i].prio.rank());
            }
            lemma_sorted_splice(s1, i, it);
        }
    }
}

/// Inserting at an already-stored priority replaces that entry's data and
/// timing in place: the region keeps its length, and no other slot moves.
pub proof fn lemma_insert_replaces<D, P, T>(
    s: Seq<TopqItem<D, P, T>>,
    it: TopqItem<D, P, T>,
    cap: int,
    i: int,
) where P: Ranked, T: Timer
    requires
        sorted_desc(s),
        0 <= i < s.len(),
        s[i].prio.rank() == it.prio.rank(),
    ensures
        spec_insert(s, it, cap) == s.update(i, it),
        spec_insert(s, it, cap).len() == s.len(),
{
    let r = it.prio.rank();
    assert forall|k: int| 0 <= k < i implies #[trigger] s[k].prio.rank() > r by {
        assert(s[i].prio.rank() < s[k].prio.rank());
    }
    lemma_pos_is_insert_pos(s, r, i);
}

/// Inserting a priority ranking above everything stored into a full queue
/// evicts exactly the previous lowest-priority (tail) entry: the newcomer
/// takes the front and every other entry survives in order.
pub proof fn lemma_insert_evicts_lowest<D, P, T>(
    s: Seq<TopqItem<D, P, T>>,
    it: TopqItem<D, P, T>,
    cap: int,
) where P: Ranked, T: Timer
    requires
        sorted_desc(s),
        s.len() == cap,
        cap >= 1,
        it.prio.rank() > s[0].prio.rank(),
    ensures
        spec_insert(s, it, cap) == seq![it] + s.drop_last(),
{
    lemma_pos_is_insert_pos(s, it.prio.rank(), 0);
    assert(s.drop_last().insert(0, it) =~= seq![it] + s.drop_last());
}

/// Inserting a priority ranking below everything stored into a full queue
/// leaves the queue unchanged: the candidate is discarded.
pub proof fn lemma_insert_full_lowest_noop<D, P, T>(
    s: Seq<TopqItem<D, P, T>>,
    it: TopqItem<D, P, T>,
    cap: int,
) where P: Ranked, T: Timer
    requires
        sorted_desc(s),
        s.len() == cap,
        cap >= 1,
        it.prio.rank() < s[s.len() - 1].prio.rank(),
    ensures
        spec_insert(s, it, cap) == s,
{
    let r = it.prio.rank();
    assert forall|k: int| 0 <= k < s.len() implies #[trigger] s[k].prio.rank() > r by {
        if k < s.len() - 1 {
            assert(s[s.len() - 1].prio.rank() < s[k].prio.rank());
        }
    }
    lemma_pos_is_insert_pos(s, r, s.len() as int);
}

/// A "Timeout Priority Queue".
///
/// Generic over four parameters:
///
/// * `D`: the data type held by the priority queue
/// * `P`: the priority type, totally ordered through [`Ranked`]
/// * `T`: the timer type, a [`Timer`]
/// * `N`: the number of priority levels that can be kept at once
///
/// The queue can handle timers that roll over periodically, but [`Topq::prune`]
/// must then be called at least twice per rollover period, or entries whose
/// expiry tick wrapped past their start tick may be judged valid indefinitely.
pub struct Topq<D, P, T, const N: usize> where P: Ranked, T: Timer {
    queue: Vec<TopqItem<D, P, T>>,
    timer: T,
}

impl<D, P, T, const N: usize> View for Topq<D, P, T, N> where P: Ranked, T: Timer {
    type V = Seq<TopqItem<D, P, T>>;

    closed spec fn view(&self) -> Seq<TopqItem<D, P, T>> {
        self.queue@
    }
}

impl<D, P, T, const N: usize> Topq<D, P, T, N> where P: Ranked, T: Timer {
    /// The queue invariant: at most `N` occupied slots, kept in strictly
    /// descending priority order with no duplicate priorities.
    pub open spec fn wf(&self) -> bool {
        &&& self@.len() <= N
        &&& sorted_desc(self@)
    }

    /// Create an empty queue driven by the given timer.
    pub fn new(timer: T) -> (q: Self)
        ensures
            q.wf(),
            q@ == Seq::<TopqItem<D, P, T>>::empty(),
    {
        let q = Topq { queue: Vec::new(), timer };
        proof {
            assert(q@ =~= Seq::<TopqItem<D, P, T>>::empty());
        }
        q
    }

    /// The current time, read from the queue's own timer.
    pub fn now(&self) -> T::Time {
        self.timer.now()
    }

    /// How many slots are occupied.
    pub fn len(&self) -> (n: usize)
        ensures
            n == self@.len(),
    {
        self.queue.len()
    }

    /// Insert a datapoint into the priority queue.
    ///
    /// If the queue already contains an item with the same priority, the old
    /// data and timeout are replaced. If the queue does not contain an item
    /// at this priority, it is inserted if there is room or it is a higher
    /// priority than an existing item; a full queue evicts its
    /// lowest-priority entry to make room, and discards the newcomer when it
    /// ranks below everything stored.
    ///
    /// The validity window starts at whatever instant the timer hands back
    /// and ends at that instant wrap-added with `valid_for`.
    pub fn insert(&mut self, item: D, prio: P, valid_for: T::Time)
        requires
            old(self).wf(),
        ensures
            final(self).wf(),
            exists|start: T::Time, exp: T::Time|
                final(self)@ == #[trigger] spec_insert_new(
                    old(self)@,
                    item,
                    prio,
                    start,
                    exp,
                    N as int,
                ),
    {
        let start = self.timer.now();
        let exp = T::wrapping_add(&start, &valid_for);
        let new_item = TopqItem { item, prio, start_time: start, expiry_time: exp };
        let ghost snap = new_item;
        self.insert_item(new_item);
        proof {
            assert(self@ == spec_insert_new(
                old(self)@,
                item,
                prio,
                snap.start_time,
                snap.expiry_time,
                N as int,
            ));
        }
    }

    /// Insert an already-built entry at its priority's slot.
    ///
    /// This is the deterministic core of [`Topq::insert`]: the entry's
    /// validity window is taken as given rather than sampled from the timer.
    pub fn insert_item(&mut self, new_item: TopqItem<D, P, T>)
        requires
            old(self).wf(),
        ensures
            final(self).wf(),
            final(self)@ == spec_insert(old(self)@, new_item, N as int),
    {
        let ghost s0 = self.queue@;
        let ghost r = new_item.prio.rank();
        let idx = find_slot(&self.queue, &new_item.prio);
        if idx < self.queue.len() && !self.queue[idx].prio.lt(&new_item.prio) {
            // Exact priority match: the old entry gives up its slot.
            let _replaced = self.queue.remove(idx);
            self.queue.insert(idx, new_item);
            proof {
                assert(self.queue@ =~= s0.update(idx as int, new_item));
                lemma_sorted_update(s0, idx as int, new_item);
            }
        } else if idx == self.queue.len() {
            if self.queue.len() < N {
                // Past the occupied region but within capacity: append.
                self.queue.push(new_item);
                proof {
                    assert(s0.push(new_item) =~= s0.insert(s0.len() as int, new_item));
                    lemma_sorted_splice(s0, s0.len() as int, new_item);
                }
            }
            // Otherwise the queue is full and the newcomer ranks below
            // everything stored: nothing to do, the entry is discarded.
        } else {
            if self.queue.len() == N {
                // Full: the lowest-priority entry is about to be bumped.
                let _evicted = self.queue.pop();
                proof {
                    assert(self.queue@ =~= s0.drop_last());
                    lemma_sorted_drop_last(s0);
                }
            }
            let ghost s1 = self.queue@;
            self.queue.insert(idx, new_item);
            proof {
                assert forall|k: int| idx <= k < s1.len() implies #[trigger] s1[k].prio.rank()
                    < new_item.prio.rank() by {
                    assert(s1[k] == s0[k]);
                    assert(s0[k].prio.rank() <= s0[idx as int].prio.rank());
                }
                lemma_sorted_splice(s1, idx as int, new_item);
            }
        }
    }

    /// Remove any expired items from the priority queue.
    ///
    /// Samples the timer once and drops every entry not valid at that
    /// instant, compacting the survivors without disturbing their order.
    /// When the timer rolls over, call this at least twice per rollover
    /// period; see the type-level documentation.
    pub fn prune(&mut self)
        requires
            old(self).wf(),
        ensures
            final(self).wf(),
            exists|t: T::Time| final(self)@ == #[trigger] pruned_at(old(self)@, t.rank()),
    {
        let now = self.timer.now();
        self.prune_at(&now);
        proof {
            assert(self@ == pruned_at(old(self)@, now.rank()));
        }
    }

    /// Remove every entry that is not valid at instant `at`.
    ///
    /// This is the deterministic core of [`Topq::prune`]: the instant is
    /// taken as given rather than sampled from the timer. Exactly the
    /// entries invalid at `at` are dropped, and the survivors keep their
    /// relative order.
    pub fn prune_at(&mut self, at: &T::Time)
        requires
            old(self).wf(),
        ensures
            final(self).wf(),
            final(self)@ == pruned_at(old(self)@, at.rank()),
    {
        let ghost s0 = self.queue@;
        let ghost mut taken: int = 0;
        let mut idx: usize = 0;
        proof {
            assert(s0.subrange(0, 0) =~= Seq::<TopqItem<D, P, T>>::empty());
            assert(pruned_at(s0.subrange(0, 0), at.rank()) =~= Seq::<TopqItem<D, P, T>>::empty());
            assert(self.queue@ =~= pruned_at(s0.subrange(0, 0), at.rank()) + s0.subrange(
                0,
                s0.len() as int,
            ));
        }
        while idx < self.queue.len()
            invariant
                0 <= taken <= s0.len(),
                idx as int == pruned_at(s0.subrange(0, taken), at.rank()).len(),
                self.queue@ == pruned_at(s0.subrange(0, taken), at.rank()) + s0.subrange(
                    taken,
                    s0.len() as int,
                ),
                sorted_desc(self.queue@),
                self.queue@.len() <= N,
            decreases self.queue@.len() - idx,
        {
            let ghost qpre = self.queue@;
            proof {
                assert(qpre[idx as int] == s0.subrange(taken, s0.len() as int)[0]);
                assert(qpre[idx as int] == s0[taken]);
                assert(s0.subrange(0, taken + 1) =~= s0.subrange(0, taken).push(s0[taken]));
                lemma_pruned_at_push(s0.subrange(0, taken), s0[taken], at.rank());
            }
            if self.queue[idx].valid_at_time(at) {
                // Still valid: the entry stays where the compacted run put it.
                idx += 1;
                proof {
                    taken = taken + 1;
                    assert(self.queue@ =~= pruned_at(s0.subrange(0, taken), at.rank())
                        + s0.subrange(taken, s0.len() as int));
                }
            } else {
                // Expired: drop it and close the gap.
                let _expired = self.queue.remove(idx);
                proof {
                    lemma_sorted_remove(qpre, idx as int);
                    taken = taken + 1;
                    assert(self.queue@ =~= pruned_at(s0.subrange(0, taken), at.rank())
                        + s0.subrange(taken, s0.len() as int));
                }
            }
        }
        proof {
            assert(s0.subrange(0, taken) =~= s0);
            assert(self.queue@ =~= pruned_at(s0, at.rank()));
        }
    }

    /// Obtain the highest-priority currently valid data, if any.
    ///
    /// This is typically used when only the current value is needed, and
    /// not the remaining validity time or the priority it is stored under.
    pub fn get_data(&self) -> (r: Option<&D>)
        ensures
            r matches Some(d) ==> exists|t: T::Time|
                (#[trigger] spec_peek(self@, t.rank())) matches Some(it) && it.item == *d,
            r is None ==> exists|t: T::Time| (#[trigger] spec_peek(self@, t.rank())) is None,
    {
        match self.get_item() {
            Some(it) => Some(&it.item),
            None => None,
        }
    }

    /// Obtain the highest-priority currently valid entry, if any.
    ///
    /// This is typically used when the current value is needed together
    /// with the remaining validity time or the priority it is stored under.
    /// The queue is not mutated: expired entries are only ever removed by
    /// [`Topq::prune`].
    pub fn get_item(&self) -> (r: Option<&TopqItem<D, P, T>>)
        ensures
            r matches Some(it) ==> exists|t: T::Time|
                #[trigger] spec_peek(self@, t.rank()) == Some(*it),
            r is None ==> exists|t: T::Time| (#[trigger] spec_peek(self@, t.rank())) is None,
    {
        let now = self.timer.now();
        let r = self.get_item_at(&now);
        proof {
            if r is None {
                assert(spec_peek(self@, now.rank()) is None);
            }
        }
        r
    }

    /// Obtain the entry that would be the highest-priority valid one at
    /// instant `at`, if any.
    ///
    /// This is the deterministic core of [`Topq::get_item`]: the instant is
    /// taken as given rather than sampled from the timer. The occupied
    /// region is scanned in stored (descending-priority) order and the
    /// first entry valid at `at` is returned.
    pub fn get_item_at(&self, at: &T::Time) -> (r: Option<&TopqItem<D, P, T>>)
        ensures
            r matches Some(it) ==> spec_peek(self@, at.rank()) == Some(*it),
            r is None ==> spec_peek(self@, at.rank()) is None,
    {
        let mut idx: usize = 0;
        while idx < self.queue.len()
            invariant
                0 <= idx <= self@.len(),
                forall|k: int| 0 <= k < idx ==> !(#[trigger] self@[k].valid_spec(at.rank())),
            decreases self@.len() - idx,
        {
            if self.queue[idx].valid_at_time(at) {
                proof {
                    lemma_peek_at_first(self@, at.rank(), idx as int);
                }
                return Some(&self.queue[idx]);
            }
            idx += 1;
        }
        proof {
            lemma_peek_at_first(self@, at.rank(), idx as int);
        }
        None
    }

    /// The occupied entry at `idx`, counting from the highest priority.
    pub fn item_at(&self, idx: usize) -> (r: &TopqItem<D, P, T>)
        requires
            idx < self@.len(),
        ensures
            *r == self@[idx as int],
    {
        &self.queue[idx]
    }
}

} // verus!
