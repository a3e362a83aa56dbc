use uos::lock::Mutex;

#[test]
fn fresh_lock_is_acquirable() {
    let mut m = Mutex::new(42u32);
    assert!(m.try_acquire());
}

#[test]
fn second_acquisition_attempt_fails() {
    // two live guards at once are impossible: while the lock is held,
    // a test-and-set attempt grants nothing
    let mut m = Mutex::new(0u32);
    assert!(m.try_acquire());
    assert!(!m.try_acquire());
    assert!(!m.try_acquire());
}

#[test]
fn release_makes_the_lock_acquirable_again() {
    let mut m = Mutex::new(0u32);
    assert!(m.try_acquire());
    m.unlock();
    assert!(m.try_acquire());
}

#[test]
fn guarded_value_reachable_while_held() {
    let mut m = Mutex::new(7u32);
    let _g = m.lock();
    assert_eq!(*m.borrow_guarded(), 7);
    m.unlock();
}

#[test]
fn replace_swaps_the_guarded_value() {
    let mut m = Mutex::new(String::from("before"));
    let _g = m.lock();
    let old = m.replace_guarded(String::from("after"));
    assert_eq!(old, "before");
    assert_eq!(*m.borrow_guarded(), "after");
    m.unlock();
    let _g2 = m.lock();
    assert_eq!(*m.borrow_guarded(), "after");
    m.unlock();
}

#[test]
fn interleaved_holders_alternate() {
    // an interleaved schedule of two contenders: each wins only while
    // the other has released
    let mut m = Mutex::new(0u32);
    assert!(m.try_acquire()); // task a wins
    assert!(!m.try_acquire()); // task b loses and would suspend
    m.unlock(); // task a's guard scope ends
    assert!(m.try_acquire()); // task b retries and wins
    assert!(!m.try_acquire()); // task a loses in turn
    m.unlock();
}
