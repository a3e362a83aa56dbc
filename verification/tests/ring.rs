use uos::ring::RingBuf;

#[test]
fn empty_pop_is_none() {
    let mut r = RingBuf::new();
    assert_eq!(r.pop_front(), None);
}

#[test]
fn push_then_pop_returns_the_byte() {
    let mut r = RingBuf::new();
    r.push_back(0xAB);
    assert_eq!(r.pop_front(), Some(0xAB));
    assert_eq!(r.pop_front(), None);
}

#[test]
fn fifteen_bytes_come_back_in_order() {
    let mut r = RingBuf::new();
    for b in 1..=15u8 {
        r.push_back(b);
    }
    for b in 1..=15u8 {
        assert_eq!(r.pop_front(), Some(b));
    }
    assert_eq!(r.pop_front(), None);
}

#[test]
fn order_is_kept_across_wraparound() {
    let mut r = RingBuf::new();
    // advance both positions past the middle of the buffer
    for b in 0..10u8 {
        r.push_back(b);
        assert_eq!(r.pop_front(), Some(b));
    }
    // these ten bytes wrap around the end of the storage
    for b in 100..110u8 {
        r.push_back(b);
    }
    for b in 100..110u8 {
        assert_eq!(r.pop_front(), Some(b));
    }
}

#[test]
fn sixteenth_byte_overruns_the_reader() {
    // no occupancy check: the sixteenth unread byte moves the write
    // position onto the read position, and every unread byte is lost —
    // the buffer reads back as empty (kept lossy behaviour)
    let mut r = RingBuf::new();
    for b in 1..=16u8 {
        r.push_back(b);
    }
    assert_eq!(r.pop_front(), None);
}

#[test]
fn seventeenth_byte_lands_in_slot_zero() {
    // one byte past the overrun: the seventeenth push overwrites slot 0
    // and is the only byte the reader ever sees
    let mut r = RingBuf::new();
    for b in 1..=17u8 {
        r.push_back(b);
    }
    assert_eq!(r.pop_front(), Some(17));
    assert_eq!(r.pop_front(), None);
}
