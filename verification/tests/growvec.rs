use uos::heap::Allocator;
use uos::heap::OutOfMemory;
use uos::lock::Mutex;
use uos::vec::GrowVec;

fn arena() -> Mutex<Allocator> {
    Mutex::new(Allocator::new(0x10000))
}

#[test]
fn pushes_keep_order_and_length() {
    let mut ga = arena();
    let mut v: GrowVec<u64> = GrowVec::new();
    for i in 0..100u64 {
        v.push(&mut ga, i * 7).unwrap();
    }
    assert_eq!(v.len(), 100);
    for i in 0..100usize {
        assert_eq!(*v.get(i), (i as u64) * 7);
    }
}

#[test]
fn pop_returns_what_was_pushed() {
    let mut ga = arena();
    let mut v: GrowVec<u32> = GrowVec::new();
    v.push(&mut ga, 11).unwrap();
    v.push(&mut ga, 22).unwrap();
    assert_eq!(v.pop(), Some(22));
    assert_eq!(v.pop(), Some(11));
    assert_eq!(v.pop(), None);
}

#[test]
fn capacity_starts_at_two_and_doubles() {
    let mut ga = arena();
    let mut v: GrowVec<u8> = GrowVec::new();
    assert_eq!(v.cap(), 0);
    v.push(&mut ga, 1).unwrap();
    assert_eq!(v.cap(), 2);
    v.push(&mut ga, 2).unwrap();
    v.push(&mut ga, 3).unwrap();
    assert_eq!(v.cap(), 4);
    v.push(&mut ga, 4).unwrap();
    v.push(&mut ga, 5).unwrap();
    assert_eq!(v.cap(), 8);
}

#[test]
fn pop_never_shrinks_capacity() {
    let mut ga = arena();
    let mut v: GrowVec<u8> = GrowVec::new();
    for b in 0..5u8 {
        v.push(&mut ga, b).unwrap();
    }
    let cap = v.cap();
    while v.pop().is_some() {}
    assert_eq!(v.cap(), cap);
    assert_eq!(v.len(), 0);
}

#[test]
fn with_cap_reserves_room() {
    let mut ga = arena();
    let mut v: GrowVec<u64> = GrowVec::with_cap(&mut ga, 16).unwrap();
    assert_eq!(v.cap(), 16);
    assert_eq!(v.len(), 0);
    for i in 0..16u64 {
        v.push(&mut ga, i).unwrap();
    }
    // no growth was needed
    assert_eq!(v.cap(), 16);
}

#[test]
fn with_cap_zero_allocates_nothing() {
    let mut ga = arena();
    let v: GrowVec<u64> = GrowVec::with_cap(&mut ga, 0).unwrap();
    assert_eq!(v.cap(), 0);
}

#[test]
fn swap_exchanges_positions() {
    let mut ga = arena();
    let mut v: GrowVec<u32> = GrowVec::new();
    for x in [10, 20, 30, 40] {
        v.push(&mut ga, x).unwrap();
    }
    v.swap(0, 3);
    assert_eq!(*v.get(0), 40);
    assert_eq!(*v.get(3), 10);
    assert_eq!(*v.get(1), 20);
    assert_eq!(*v.get(2), 30);
}

#[test]
fn swap_out_of_range_changes_nothing() {
    let mut ga = arena();
    let mut v: GrowVec<u32> = GrowVec::new();
    v.push(&mut ga, 1).unwrap();
    v.push(&mut ga, 2).unwrap();
    v.swap(0, 5);
    assert_eq!(*v.get(0), 1);
    assert_eq!(*v.get(1), 2);
}

#[test]
fn swap_remove_is_by_last_element() {
    let mut ga = arena();
    let mut v: GrowVec<u32> = GrowVec::new();
    for x in [10, 20, 30, 40] {
        v.push(&mut ga, x).unwrap();
    }
    // the removed slot is filled by the last element; order is not kept,
    // but every other element stays reachable
    assert_eq!(v.swap_remove(1), Some(20));
    assert_eq!(v.len(), 3);
    assert_eq!(*v.get(0), 10);
    assert_eq!(*v.get(1), 40);
    assert_eq!(*v.get(2), 30);
}

#[test]
fn swap_remove_out_of_range_is_none() {
    let mut ga = arena();
    let mut v: GrowVec<u32> = GrowVec::new();
    v.push(&mut ga, 1).unwrap();
    assert_eq!(v.swap_remove(3), None);
    assert_eq!(v.len(), 1);
}

#[test]
fn pop_front_hands_out_the_head() {
    let mut ga = arena();
    let mut v: GrowVec<u32> = GrowVec::new();
    for x in [10, 20, 30] {
        v.push(&mut ga, x).unwrap();
    }
    assert_eq!(v.pop_front(), Some(10));
    assert_eq!(v.pop_front(), Some(20));
    assert_eq!(v.pop_front(), Some(30));
    assert_eq!(v.pop_front(), None);
}

#[test]
fn clear_forgets_elements_but_keeps_room() {
    let mut ga = arena();
    let mut v: GrowVec<u8> = GrowVec::new();
    v.push(&mut ga, 9).unwrap();
    v.push(&mut ga, 8).unwrap();
    let cap = v.cap();
    v.clear();
    assert_eq!(v.len(), 0);
    assert_eq!(v.cap(), cap);
}

#[test]
fn growth_failure_is_reported_and_harmless() {
    // 2 units: the sentinel plus one unit of payload — too small for any
    // buffer of two u64 slots
    let mut ga = Mutex::new(Allocator::new(16));
    let mut v: GrowVec<u64> = GrowVec::new();
    assert_eq!(v.push(&mut ga, 5), Err(OutOfMemory));
    assert_eq!(v.len(), 0);
    assert_eq!(v.cap(), 0);
}

#[test]
fn with_cap_failure_is_none() {
    let mut ga = Mutex::new(Allocator::new(16));
    let v: Option<GrowVec<u64>> = GrowVec::with_cap(&mut ga, 100);
    assert!(v.is_none());
}

#[test]
fn free_returns_the_backing_block() {
    let mut ga = arena();
    let mut v: GrowVec<u64> = GrowVec::with_cap(&mut ga, 8191 - 9).unwrap();
    v.push(&mut ga, 1).unwrap();
    // the region is nearly exhausted: a second buffer of the same size
    // cannot be served...
    let w: Option<GrowVec<u64>> = GrowVec::with_cap(&mut ga, 8191 - 9);
    assert!(w.is_none());
    // ...until the first one is torn down
    v.free(&mut ga);
    let w: Option<GrowVec<u64>> = GrowVec::with_cap(&mut ga, 8191 - 9);
    assert!(w.is_some());
}
