use uos::heap::Allocator;
use uos::heap;
use uos::lock::Mutex;

// The region is 0x10000 bytes = 8192 block-units of 8 bytes; one unit is
// the sentinel's header, so 8191 units of payload are usable at most.

#[test]
fn first_allocation_succeeds() {
    let mut a = Allocator::new(0x10000);
    let p = a.allocate(64);
    assert!(p.is_some());
}

#[test]
fn allocations_do_not_overlap() {
    let mut a = Allocator::new(0x10000);
    // payload of 8 units each, header one more
    let p1 = a.allocate(64).unwrap();
    let p2 = a.allocate(64).unwrap();
    let p3 = a.allocate(64).unwrap();
    // each block is carved from the tail of the free block, so the
    // regions march downward, nine units apart, and never overlap
    assert_eq!(p1, 8184);
    assert_eq!(p2, 8175);
    assert_eq!(p3, 8166);
    assert!(p2 + 8 <= p1 - 1);
    assert!(p3 + 8 <= p2 - 1);
}

#[test]
fn freed_block_is_reused_for_same_size() {
    let mut a = Allocator::new(0x10000);
    let p1 = a.allocate(64).unwrap();
    let _p2 = a.allocate(64).unwrap();
    a.dealloc(p1);
    // the freed block is an exact fit for the same request and may be
    // handed out again
    let p3 = a.allocate(64).unwrap();
    assert_eq!(p3, p1);
}

#[test]
fn adjacent_freed_blocks_coalesce() {
    let mut a = Allocator::new(0x10000);
    let p1 = a.allocate(64).unwrap();
    let p2 = a.allocate(64).unwrap();
    let _p3 = a.allocate(64).unwrap();
    // p2's region ends exactly at p1's header: freeing p2 then p1 merges
    // them into one free block of 8 + 1 + 8 = 17 units
    a.dealloc(p2);
    a.dealloc(p1);
    // an allocation of the combined size succeeds only if they merged
    let p4 = a.allocate(17 * 8);
    assert_eq!(p4, Some(p2));
}

#[test]
fn exhaustion_returns_none() {
    // 4 units: the sentinel's header plus 3 units of payload
    let mut a = Allocator::new(32);
    // 2 units split off (payload + header), leaving the sentinel empty
    let p = a.allocate(16);
    assert_eq!(p, Some(2));
    assert_eq!(a.allocate(8), None);
}

#[test]
fn oversized_request_fails_cleanly() {
    let mut a = Allocator::new(32);
    assert_eq!(a.allocate(1 << 20), None);
    // and the allocator still works afterwards
    assert!(a.allocate(8).is_some());
}

#[test]
fn zero_sized_region_serves_nothing() {
    let mut a = Allocator::new(0);
    assert_eq!(a.allocate(1), None);
}

#[test]
fn dealloc_in_any_order_keeps_working() {
    let mut a = Allocator::new(0x10000);
    let p1 = a.allocate(24).unwrap();
    let p2 = a.allocate(40).unwrap();
    let p3 = a.allocate(8).unwrap();
    a.dealloc(p2);
    a.dealloc(p1);
    a.dealloc(p3);
    // each free merged into the block just below it, leaving two
    // adjacent free blocks: merging happens pairwise per call, so the
    // pair itself stays unmerged and the whole payload cannot be served
    // in one piece...
    assert_eq!(a.allocate(8190 * 8), None);
    // ...but a request fitting the larger piece still succeeds
    assert!(a.allocate(8180 * 8).is_some());
}

#[test]
fn locked_interface_allocates_and_frees() {
    let mut ga = Mutex::new(Allocator::new(0x10000));
    let p = heap::allocate(&mut ga, 128).unwrap();
    heap::dealloc(&mut ga, p);
    let q = heap::allocate(&mut ga, 128).unwrap();
    assert_eq!(p, q);
}
