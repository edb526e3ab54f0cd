use std::cell::Cell;
use std::rc::Rc;

use topq::{Timer, Topq};

/// A timer whose current tick is set by hand through a shared cell.
#[derive(Debug)]
struct StepTimer(Rc<Cell<u32>>);

impl Timer for StepTimer {
    type Time = u32;

    const TICKS_PER_SECOND: u32 = 1;

    fn now(&self) -> u32 {
        self.0.get()
    }

    fn wrapping_add(a: &u32, b: &u32) -> u32 {
        a.wrapping_add(*b)
    }
}

#[test]
fn empty_queue_has_nothing() {
    let tick = Rc::new(Cell::new(0u32));
    let q: Topq<u32, u8, StepTimer, 4> = Topq::new(StepTimer(Rc::clone(&tick)));
    assert_eq!(q.len(), 0);
    assert_eq!(q.get_item().map(|it| &it.item), None);
    assert_eq!(q.get_data(), None);
}

#[test]
fn occupied_region_sorted_descending() {
    let tick = Rc::new(Cell::new(0u32));
    let mut q: Topq<u32, u8, StepTimer, 4> = Topq::new(StepTimer(Rc::clone(&tick)));

    q.insert(10, 3, 30);
    q.insert(13, 6, 30);
    q.insert(12, 5, 30);
    q.insert(11, 4, 30);

    assert_eq!(q.len(), 4);
    assert_eq!(q.item_at(0).prio, 6);
    assert_eq!(q.item_at(1).prio, 5);
    assert_eq!(q.item_at(2).prio, 4);
    assert_eq!(q.item_at(3).prio, 3);
    for i in 0..3 {
        assert!(q.item_at(i).prio > q.item_at(i + 1).prio);
    }
}

#[test]
fn replace_keeps_size_and_updates_window() {
    let tick = Rc::new(Cell::new(0u32));
    let mut q: Topq<u32, u8, StepTimer, 4> = Topq::new(StepTimer(Rc::clone(&tick)));

    q.insert(10, 5, 20);
    assert_eq!(q.len(), 1);
    assert_eq!(q.item_at(0).start_time, 0);
    assert_eq!(q.item_at(0).expiry_time, 20);

    tick.set(5);
    q.insert(42, 5, 30);
    assert_eq!(q.len(), 1);
    assert_eq!(q.item_at(0).item, 42);
    assert_eq!(q.item_at(0).prio, 5);
    assert_eq!(q.item_at(0).start_time, 5);
    assert_eq!(q.item_at(0).expiry_time, 35);
    assert_eq!(q.get_data(), Some(&42));
}

#[test]
fn full_queue_evicts_lowest_for_new_highest() {
    let tick = Rc::new(Cell::new(0u32));
    let mut q: Topq<u32, u8, StepTimer, 2> = Topq::new(StepTimer(Rc::clone(&tick)));

    q.insert(1, 1, 30);
    q.insert(2, 2, 30);
    assert_eq!(q.len(), 2);

    q.insert(3, 3, 30);
    assert_eq!(q.len(), 2);
    assert_eq!(q.item_at(0).prio, 3);
    assert_eq!(q.item_at(0).item, 3);
    assert_eq!(q.item_at(1).prio, 2);
    assert_eq!(q.item_at(1).item, 2);
}

#[test]
fn full_queue_ignores_priority_below_minimum() {
    let tick = Rc::new(Cell::new(0u32));
    let mut q: Topq<u32, u8, StepTimer, 2> = Topq::new(StepTimer(Rc::clone(&tick)));

    q.insert(20, 2, 30);
    q.insert(30, 3, 30);
    assert_eq!(q.len(), 2);

    tick.set(7);
    q.insert(10, 1, 30);
    assert_eq!(q.len(), 2);
    assert_eq!(q.item_at(0).prio, 3);
    assert_eq!(q.item_at(0).item, 30);
    assert_eq!(q.item_at(0).start_time, 0);
    assert_eq!(q.item_at(1).prio, 2);
    assert_eq!(q.item_at(1).item, 20);
    assert_eq!(q.item_at(1).start_time, 0);
}

#[test]
fn validity_window_inclusive_at_both_endpoints() {
    let tick = Rc::new(Cell::new(10u32));
    let mut q: Topq<u32, u8, StepTimer, 4> = Topq::new(StepTimer(Rc::clone(&tick)));

    q.insert(7, 1, 20);
    let entry = q.get_item().unwrap();
    assert_eq!(entry.start_time, 10);
    assert_eq!(entry.expiry_time, 30);
    assert!(entry.valid_at_time(&10));
    assert!(entry.valid_at_time(&30));
    assert!(entry.valid_at_time(&20));
    assert!(!entry.valid_at_time(&9));
    assert!(!entry.valid_at_time(&31));
}

#[test]
fn wrapped_window_validity_bounds() {
    let tick = Rc::new(Cell::new(0xFFFF_FFF0u32));
    let mut q: Topq<u32, u8, StepTimer, 4> = Topq::new(StepTimer(Rc::clone(&tick)));

    q.insert(9, 1, 32);
    let entry = q.get_item().unwrap();
    assert_eq!(entry.start_time, 0xFFFF_FFF0);
    assert_eq!(entry.expiry_time, 0x0000_0010);
    assert!(entry.valid_at_time(&0xFFFF_FFF0));
    assert!(entry.valid_at_time(&0xFFFF_FFFF));
    assert!(entry.valid_at_time(&0x0000_0000));
    assert!(entry.valid_at_time(&0x0000_0010));
    assert!(!entry.valid_at_time(&0x0000_0011));
    assert!(!entry.valid_at_time(&0x7FFF_FFFF));
    assert!(!entry.valid_at_time(&0xFFFF_FFEF));
}

#[test]
fn zero_length_window_is_wrapped_case() {
    let tick = Rc::new(Cell::new(5u32));
    let mut q: Topq<u32, u8, StepTimer, 4> = Topq::new(StepTimer(Rc::clone(&tick)));

    q.insert(1, 1, 0);
    let entry = q.get_item().unwrap();
    assert_eq!(entry.start_time, 5);
    assert_eq!(entry.expiry_time, 5);
    // start == expiry falls in the wrapped branch of the validity rule:
    // every tick is at or after the start, or at or before the expiry.
    assert!(entry.valid_at_time(&5));
    assert!(entry.valid_at_time(&0));
    assert!(entry.valid_at_time(&100));
    assert!(entry.valid_at_time(&0xFFFF_FFFF));
}

#[test]
fn prune_removes_exactly_expired_and_keeps_order() {
    let tick = Rc::new(Cell::new(0u32));
    let mut q: Topq<u32, u8, StepTimer, 4> = Topq::new(StepTimer(Rc::clone(&tick)));

    q.insert(10, 3, 30);
    q.insert(11, 4, 10);
    q.insert(12, 5, 20);
    q.insert(13, 6, 10);
    assert_eq!(q.len(), 4);

    tick.set(11);
    q.prune();
    assert_eq!(q.len(), 2);
    assert_eq!(q.item_at(0).prio, 5);
    assert_eq!(q.item_at(0).item, 12);
    assert_eq!(q.item_at(1).prio, 3);
    assert_eq!(q.item_at(1).item, 10);

    tick.set(21);
    q.prune();
    assert_eq!(q.len(), 1);
    assert_eq!(q.item_at(0).prio, 3);

    tick.set(31);
    q.prune();
    assert_eq!(q.len(), 0);
    assert_eq!(q.get_data(), None);

    // Pruning an empty queue is a no-op.
    q.prune();
    assert_eq!(q.len(), 0);
}

#[test]
fn peek_does_not_remove_expired_entries() {
    let tick = Rc::new(Cell::new(0u32));
    let mut q: Topq<u32, u8, StepTimer, 4> = Topq::new(StepTimer(Rc::clone(&tick)));

    q.insert(13, 6, 10);
    q.insert(10, 3, 30);
    tick.set(15);
    assert_eq!(q.get_data(), Some(&10));
    // The expired priority-6 entry is still stored: only prune removes it.
    assert_eq!(q.len(), 2);
    assert_eq!(q.item_at(0).prio, 6);
    q.prune();
    assert_eq!(q.len(), 1);
    assert_eq!(q.item_at(0).prio, 3);
}
