use std::cell::Cell;
use std::rc::Rc;

use topq::{Ranked, Timer, Topq};

/// A timer whose current tick is set by hand through a shared cell.
#[derive(Debug)]
struct FakeTimer(Rc<Cell<u32>>);

impl Timer for FakeTimer {
    type Time = u32;

    const TICKS_PER_SECOND: u32 = 1;

    fn now(&self) -> u32 {
        self.0.get()
    }

    fn wrapping_add(a: &u32, b: &u32) -> u32 {
        a.wrapping_add(*b)
    }
}

#[derive(Debug, PartialOrd, Ord, Eq, PartialEq)]
enum PrioEnum {
    Low,
    Medium,
    High,
}

impl Ranked for PrioEnum {
    fn lt(&self, other: &Self) -> bool {
        self < other
    }
}

#[test]
fn enum_prio() {
    let tick = Rc::new(Cell::new(0u32));
    let timer = FakeTimer(Rc::clone(&tick));
    let mut q: Topq<u32, PrioEnum, FakeTimer, 4> = Topq::new(timer);

    q.insert(10, PrioEnum::Low, 30);
    assert_eq!(q.get_data(), Some(&10));

    q.insert(11, PrioEnum::Medium, 25);
    assert_eq!(q.get_data(), Some(&11));

    q.insert(12, PrioEnum::High, 20);
    assert_eq!(q.get_data(), Some(&12));

    tick.set(20);
    assert_eq!(q.get_data(), Some(&12));

    tick.set(21);
    assert_eq!(q.get_data(), Some(&11));

    tick.set(26);
    assert_eq!(q.get_data(), Some(&10));

    tick.set(31);
    assert_eq!(q.get_data(), None);
}

#[test]
fn expiry() {
    let tick = Rc::new(Cell::new(0u32));
    let timer = FakeTimer(Rc::clone(&tick));
    let mut q: Topq<u32, u8, FakeTimer, 4> = Topq::new(timer);

    q.insert(10, 3, 30);
    assert_eq!(q.get_data(), Some(&10));

    q.insert(11, 4, 25);
    assert_eq!(q.get_data(), Some(&11));

    q.insert(12, 5, 20);
    assert_eq!(q.get_data(), Some(&12));

    q.insert(13, 6, 15);
    assert_eq!(q.get_data(), Some(&13));

    tick.set(15);
    assert_eq!(q.get_data(), Some(&13));

    tick.set(16);
    assert_eq!(q.get_data(), Some(&12));

    tick.set(21);
    assert_eq!(q.get_data(), Some(&11));

    tick.set(26);
    assert_eq!(q.get_data(), Some(&10));

    tick.set(31);
    assert_eq!(q.get_data(), None);
}

#[test]
fn out_of_order() {
    let tick = Rc::new(Cell::new(0u32));
    let timer = FakeTimer(Rc::clone(&tick));
    let mut q: Topq<u32, u8, FakeTimer, 4> = Topq::new(timer);

    q.insert(10, 3, 30);
    assert_eq!(q.get_data(), Some(&10));

    q.insert(13, 6, 15);
    assert_eq!(q.get_data(), Some(&13));

    q.insert(12, 5, 20);
    assert_eq!(q.get_data(), Some(&13));

    q.insert(11, 4, 25);
    assert_eq!(q.get_data(), Some(&13));

    for i in 0..q.len() {
        println!("{:?}", q.item_at(i));
    }

    tick.set(15);
    assert_eq!(q.get_data(), Some(&13));

    tick.set(16);
    assert_eq!(q.get_data(), Some(&12));

    q.prune();

    for i in 0..q.len() {
        println!("{:?}", q.item_at(i));
    }

    tick.set(21);
    assert_eq!(q.get_data(), Some(&11));

    tick.set(26);
    assert_eq!(q.get_data(), Some(&10));

    tick.set(31);
    assert_eq!(q.get_data(), None);

    q.prune();

    for i in 0..q.len() {
        println!("{:?}", q.item_at(i));
    }
}

#[test]
fn rollover() {
    let tick = Rc::new(Cell::new(0u32));
    let timer = FakeTimer(Rc::clone(&tick));
    let mut q: Topq<u32, u8, FakeTimer, 4> = Topq::new(timer);

    tick.set(0xFFFF_FFF0);
    q.insert(10, 3, 32);
    assert_eq!(q.get_data(), Some(&10));

    tick.set(0xFFFF_FFF8);
    assert_eq!(q.get_data(), Some(&10));

    tick.set(0xFFFF_FFFF);
    assert_eq!(q.get_data(), Some(&10));

    tick.set(0x0000_0000);
    assert_eq!(q.get_data(), Some(&10));

    tick.set(0x0000_0010);
    assert_eq!(q.get_data(), Some(&10));

    tick.set(0x0000_0011);
    assert_eq!(q.get_data(), None);
}
