//! Exclusive-access guard over a shared value.
//!
//! On the target machine the flag is an atomic boolean: `lock` loops on
//! an atomic test-and-set and cooperatively suspends the calling task
//! after each failed attempt, so contention resolves once the holder
//! releases. Under the single-core cooperative model verified here the
//! flag is a plain field, one test-and-set attempt is
//! [`Mutex::try_acquire`], and [`Mutex::lock`] requires the lock to be
//! free: a task that calls `lock` while already holding the same lock
//! never returns (a deadlock; no detection is performed), so that input
//! is excluded.
//!
//! Interleaved acquire/release histories are modeled by [`LockEvent`]
//! sequences; [`lemma_at_most_one_guard`] shows that no history ever has
//! two live guards at once.

use vstd::prelude::*;

verus! {

/// A lock flag and the value it guards.
pub struct Mutex<T> {
    guarded: T,
    locked: bool,
}

/// Witness that a [`Mutex::lock`] call succeeded. The guarded value is
/// reached through the mutex while it is locked; release is explicit via
/// [`Mutex::unlock`], which in the kernel proper runs when the guard's
/// scope ends.
pub struct MutexGuard {
    held: bool,
}

impl<T> Mutex<T> {
    /// The value the mutex guards.
    pub closed spec fn guarded_val(self) -> T {
        self.guarded
    }

    /// Whether the lock is currently held.
    pub closed spec fn is_locked(self) -> bool {
        self.locked
    }

    pub fn new(obj: T) -> (m: Mutex<T>)
        ensures
            m.guarded_val() == obj,
            !m.is_locked(),
    {
        Mutex { guarded: obj, locked: false }
    }

    /// One atomic test-and-set attempt: succeeds exactly when the lock was
    /// free, and leaves the lock held either way.
    pub fn try_acquire(&mut self) -> (acquired: bool)
        ensures
            acquired == !old(self).is_locked(),
            final(self).is_locked(),
            final(self).guarded_val() == old(self).guarded_val(),
    {
        let was_locked = self.locked;
        self.locked = true;
        !was_locked
    }

    /// Acquires the lock. On contention the kernel suspends the calling
    /// task between attempts and retries until the holder releases; a
    /// caller that already holds the lock never returns, so a held lock is
    /// excluded here and the first attempt always succeeds.
    pub fn lock(&mut self) -> (g: MutexGuard)
        requires
            !old(self).is_locked(),
        ensures
            final(self).is_locked(),
            final(self).guarded_val() == old(self).guarded_val(),
            g.is_held(),
    {
        let acquired = self.try_acquire();
        MutexGuard { held: acquired }
    }

    /// Releases the lock unconditionally.
    pub fn unlock(&mut self)
        ensures
            !final(self).is_locked(),
            final(self).guarded_val() == old(self).guarded_val(),
    {
        self.locked = false;
    }

    /// Reads the guarded value; only a holder of the lock may look.
    pub fn borrow_guarded(&self) -> (r: &T)
        requires
            self.is_locked(),
        ensures
            *r == self.guarded_val(),
    {
        &self.guarded
    }

    /// Swaps the guarded value for another; only a holder of the lock may
    /// do so. This is how a holder mutates the value: take it out, work on
    /// it, put it back.
    pub fn replace_guarded(&mut self, v: T) -> (r: T)
        requires
            old(self).is_locked(),
        ensures
            r == old(self).guarded_val(),
            final(self).guarded_val() == v,
            final(self).is_locked(),
    {
        let mut taken = v;
        core::mem::swap(&mut taken, &mut self.guarded);
        taken
    }
}

impl MutexGuard {
    /// Whether this guard witnesses a successful acquisition.
    pub closed spec fn is_held(self) -> bool {
        self.held
    }
}

/// Two mutexes with the same guarded value and the same flag are the
/// same mutex value.
pub proof fn lemma_mutex_parts_equal<T>(a: Mutex<T>, b: Mutex<T>)
    requires
        a.guarded_val() == b.guarded_val(),
        a.is_locked() == b.is_locked(),
    ensures
        a == b,
{
}

/// One event in an interleaved history of lock operations: an acquisition
/// attempt (one test-and-set, as [`Mutex::try_acquire`] performs), or the
/// end of a live guard's scope (which runs [`Mutex::unlock`]).
pub enum LockEvent {
    Acquire,
    Release,
}

/// The lock flag after a history of events, starting from a free lock.
/// An acquisition attempt leaves the flag set whether or not it granted a
/// guard; a release clears it.
pub open spec fn locked_after(evs: Seq<LockEvent>) -> bool
    decreases evs.len(),
{
    if evs.len() == 0 {
        false
    } else {
        match evs.last() {
            LockEvent::Acquire => true,
            LockEvent::Release => false,
        }
    }
}

/// How many guards are live after a history of events: an attempt grants a
/// guard exactly when the lock was free, and a release ends a live guard's
/// scope.
pub open spec fn live_guards_after(evs: Seq<LockEvent>) -> int
    decreases evs.len(),
{
    if evs.len() == 0 {
        0
    } else {
        let before = live_guards_after(evs.drop_last());
        match evs.last() {
            LockEvent::Acquire => if !locked_after(evs.drop_last()) {
                before + 1
            } else {
                before
            },
            LockEvent::Release => if locked_after(evs.drop_last()) {
                before - 1
            } else {
                before
            },
        }
    }
}

/// No interleaved sequence of acquisition attempts and guard releases ever
/// has two guards live at once: the count of live guards is 1 while the
/// lock is held and 0 while it is free.
pub proof fn lemma_at_most_one_guard(evs: Seq<LockEvent>)
    ensures
        live_guards_after(evs) == if locked_after(evs) {
            1int
        } else {
            0int
        },
    decreases evs.len(),
{
    if evs.len() > 0 {
        lemma_at_most_one_guard(evs.drop_last());
    }
}

/// An acquisition attempt made while the lock is held grants no guard: a
/// task that tries to take a lock it already holds gains nothing and
/// retries forever.
pub proof fn lemma_reacquire_grants_nothing(evs: Seq<LockEvent>)
    requires
        locked_after(evs),
    ensures
        live_guards_after(evs.push(LockEvent::Acquire)) == live_guards_after(evs),
{
    assert(evs.push(LockEvent::Acquire).drop_last() =~= evs);
}

} // verus!
