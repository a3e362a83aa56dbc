//! Growable contiguous container backed by the heap allocator.
//!
//! A `GrowVec` owns an ordered buffer of elements, a capacity, and — when
//! the capacity is positive — the region block that backs the buffer.
//! Growth requests a larger block from the allocator, copies the elements
//! over, and frees the old block, exactly in that order; capacity starts
//! at 2 and doubles when a push finds the buffer full. Capacity
//! arithmetic that would overflow is excluded by contract (the kernel
//! treats it as fatal, with no recovery path), and allocator exhaustion
//! surfaces as an explicit [`OutOfMemory`] result.
//!
//! Invariant: the length never exceeds the capacity, and a backing block
//! exists exactly when the capacity is positive.

use vstd::prelude::*;
use crate::heap;
use crate::heap::Allocator;
use crate::heap::OutOfMemory;
use crate::lock::Mutex;

verus! {

/// A dynamically resizable, contiguous, ordered container.
pub struct GrowVec<T> {
    buf: Vec<T>,
    cap: usize,
    blk: Option<usize>,
}

/// Bytes needed to store `n` elements of `T` contiguously.
pub open spec fn bytes_for<T>(n: int) -> int {
    n * vstd::layout::size_of::<T>()
}

/// The allocator's live blocks after a buffer moved from block `old_b`
/// (if any) to a fresh block `new_b` of `u` units.
pub open spec fn relink_backing(
    l0: Map<int, int>,
    old_b: Option<int>,
    new_b: int,
    u: int,
) -> Map<int, int> {
    (match old_b {
        Some(b) => l0.remove(b),
        None => l0,
    }).insert(new_b, u)
}

/// The capacity a full buffer grows to: 2 to start with, then double.
pub open spec fn grown_cap(cap: int) -> int {
    if cap == 0 {
        2
    } else {
        2 * cap
    }
}

/// Whether the doubled capacity and its byte count stay within machine
/// limits; growth past them is a fatal error with no recovery path.
pub open spec fn can_grow<T>(cap: int) -> bool {
    &&& grown_cap(cap) <= usize::MAX
    &&& bytes_for::<T>(grown_cap(cap)) <= usize::MAX - 7
}

impl<T> View for GrowVec<T> {
    type V = Seq<T>;

    closed spec fn view(&self) -> Seq<T> {
        self.buf@
    }
}

impl<T> GrowVec<T> {
    /// Element slots the buffer can hold before it must grow.
    pub closed spec fn spec_cap(self) -> int {
        self.cap as int
    }

    /// The allocator block backing the buffer, if one is held.
    pub closed spec fn backing(self) -> Option<int> {
        match self.blk {
            Some(b) => Some(b as int),
            None => None,
        }
    }

    /// The length never exceeds the capacity; a backing block is held
    /// exactly when the capacity is positive.
    pub closed spec fn wf(self) -> bool {
        &&& self@.len() <= self.cap as int
        &&& (self.cap == 0 <==> self.blk is None)
    }

    /// The buffer's backing block is live in `a` and sized for the whole
    /// capacity.
    pub open spec fn backed_by(self, a: Allocator) -> bool {
        match self.backing() {
            Some(b) => a.live_blocks().dom().contains(b) && a.live_blocks()[b]
                == heap::units_of(bytes_for::<T>(self.spec_cap())),
            None => true,
        }
    }

    /// An empty container; no buffer is allocated until it is needed.
    pub fn new() -> (v: GrowVec<T>)
        ensures
            v.wf(),
            v@ == Seq::<T>::empty(),
            v.spec_cap() == 0,
            v.backing() is None,
    {
        GrowVec { buf: Vec::new(), cap: 0, blk: None }
    }

    /// An empty container with room for `cap` elements, taken from the
    /// allocator in one block; `None` exactly when the allocator cannot
    /// serve a block of that size.
    pub fn with_cap(glob_alloc: &mut Mutex<Allocator>, cap: usize) -> (r: Option<GrowVec<T>>)
        requires
            !old(glob_alloc).is_locked(),
            old(glob_alloc).guarded_val().wf(),
            bytes_for::<T>(cap as int) <= usize::MAX - 7,
        ensures
            !final(glob_alloc).is_locked(),
            final(glob_alloc).guarded_val().wf(),
            final(glob_alloc).guarded_val().n_units() == old(glob_alloc).guarded_val().n_units(),
            r is Some <==> (cap == 0 || old(glob_alloc).guarded_val().can_fit(
                bytes_for::<T>(cap as int),
            )),
            match r {
                Some(v) => {
                    &&& v.wf()
                    &&& v@ == Seq::<T>::empty()
                    &&& v.spec_cap() == cap
                    &&& v.backed_by(final(glob_alloc).guarded_val())
                    &&& if cap > 0 {
                        v.backing() is Some && !old(glob_alloc).guarded_val().live_blocks(
                        ).dom().contains(v.backing().unwrap()) && final(glob_alloc).guarded_val().live_blocks() == old(glob_alloc).guarded_val().live_blocks(
                        ).insert(
                            v.backing().unwrap(),
                            heap::units_of(bytes_for::<T>(cap as int)),
                        )
                    } else {
                        final(glob_alloc).guarded_val().live_blocks() == old(glob_alloc).guarded_val().live_blocks()
                    }
                },
                None => final(glob_alloc).guarded_val().live_blocks() == old(glob_alloc).guarded_val().live_blocks(),
            },
    {
        let alloc_bytes = cap.checked_mul(core::mem::size_of::<T>());

        match alloc_bytes {
            Some(cap_bytes) => {
                if cap == 0 {
                    return Some(GrowVec { buf: Vec::new(), cap: 0, blk: None });
                }
                match heap::allocate(glob_alloc, cap_bytes) {
                    Some(b) => Some(GrowVec { buf: Vec::new(), cap, blk: Some(b) }),
                    None => None,
                }
            },
            // capacity arithmetic overflow is excluded by the contract
            None => unreached(),
        }
    }

    /// Moves the buffer to a fresh block with room for `add` more
    /// elements than are held: the new block is taken first, the elements
    /// carry over, and only then is the old block freed. `Err` exactly
    /// when the allocator cannot serve the new block, in which case
    /// nothing changes.
    pub fn reserve(&mut self, glob_alloc: &mut Mutex<Allocator>, add: usize) -> (r: Result<
        (),
        OutOfMemory,
    >)
        requires
            old(self).wf(),
            old(self).backed_by(old(glob_alloc).guarded_val()),
            !old(glob_alloc).is_locked(),
            old(glob_alloc).guarded_val().wf(),
            old(self)@.len() + add <= usize::MAX,
            bytes_for::<T>(old(self)@.len() + add) <= usize::MAX - 7,
        ensures
            !final(glob_alloc).is_locked(),
            final(glob_alloc).guarded_val().wf(),
            final(glob_alloc).guarded_val().n_units() == old(glob_alloc).guarded_val().n_units(),
            final(self)@ == old(self)@,
            r is Ok <==> (old(self)@.len() + add == 0 || old(glob_alloc).guarded_val().can_fit(
                bytes_for::<T>(old(self)@.len() + add),
            )),
            match r {
                Ok(u) => {
                    &&& final(self).wf()
                    &&& final(self).spec_cap() == old(self)@.len() + add
                    &&& final(self).backed_by(final(glob_alloc).guarded_val())
                    &&& if old(self)@.len() + add > 0 {
                        final(self).backing() is Some && !old(glob_alloc).guarded_val().live_blocks().dom().contains(final(self).backing().unwrap())
                            && final(glob_alloc).guarded_val().live_blocks() == relink_backing(
                            old(glob_alloc).guarded_val().live_blocks(),
                            old(self).backing(),
                            final(self).backing().unwrap(),
                            heap::units_of(bytes_for::<T>(old(self)@.len() + add)),
                        )
                    } else {
                        final(self).backing() is None && final(glob_alloc).guarded_val().live_blocks() == match old(self).backing() {
                            Some(b) => old(glob_alloc).guarded_val().live_blocks().remove(b),
                            None => old(glob_alloc).guarded_val().live_blocks(),
                        }
                    }
                },
                Err(e) => {
                    &&& *final(self) == *old(self)
                    &&& final(glob_alloc).guarded_val().live_blocks() == old(glob_alloc).guarded_val().live_blocks()
                },
            },
    {
        let new_cap = self.buf.len() + add;

        let alloc_bytes = new_cap.checked_mul(core::mem::size_of::<T>());
        match alloc_bytes {
            Some(new_cap_bytes) => {
                if new_cap == 0 {
                    // nothing to hold: the backing block, if any, goes back
                    let old_blk = self.blk;
                    self.blk = None;
                    self.cap = 0;
                    if let Some(ob) = old_blk {
                        heap::dealloc(glob_alloc, ob);
                    }
                    return Ok(());
                }
                match heap::allocate(glob_alloc, new_cap_bytes) {
                    Some(new_b) => {
                        // the elements carry over into the new block
                        let old_blk = self.blk;
                        self.blk = Some(new_b);
                        self.cap = new_cap;
                        if let Some(ob) = old_blk {
                            heap::dealloc(glob_alloc, ob);
                        }
                        proof {
                            assert(glob_alloc.guarded_val().live_blocks() =~= relink_backing(
                                old(glob_alloc).guarded_val().live_blocks(),
                                old(self).backing(),
                                new_b as int,
                                heap::units_of(bytes_for::<T>(new_cap as int)),
                            ));
                        }
                        Ok(())
                    },
                    None => Err(OutOfMemory),
                }
            },
            // capacity arithmetic overflow is excluded by the contract
            None => unreached(),
        }
    }

    /// Appends `val`, growing the buffer (to capacity 2, or double the
    /// current capacity) when it is full. `Err` exactly when growth was
    /// needed and the allocator cannot serve the larger block, in which
    /// case nothing changes.
    pub fn push(&mut self, glob_alloc: &mut Mutex<Allocator>, val: T) -> (r: Result<
        (),
        OutOfMemory,
    >)
        requires
            old(self).wf(),
            old(self).backed_by(old(glob_alloc).guarded_val()),
            !old(glob_alloc).is_locked(),
            old(glob_alloc).guarded_val().wf(),
            old(self)@.len() == old(self).spec_cap() ==> can_grow::<T>(old(self).spec_cap()),
        ensures
            !final(glob_alloc).is_locked(),
            final(glob_alloc).guarded_val().wf(),
            final(glob_alloc).guarded_val().n_units() == old(glob_alloc).guarded_val().n_units(),
            r is Ok <==> (old(self)@.len() < old(self).spec_cap() || old(glob_alloc).guarded_val().can_fit(bytes_for::<T>(grown_cap(old(self).spec_cap())))),
            match r {
                Ok(u) => {
                    &&& final(self).wf()
                    &&& final(self)@ == old(self)@.push(val)
                    &&& final(self).backed_by(final(glob_alloc).guarded_val())
                    &&& if old(self)@.len() < old(self).spec_cap() {
                        final(self).spec_cap() == old(self).spec_cap() && final(self).backing()
                            == old(self).backing() && final(glob_alloc).guarded_val().live_blocks()
                            == old(glob_alloc).guarded_val().live_blocks()
                    } else {
                        final(self).spec_cap() == grown_cap(old(self).spec_cap()) && final(self).backing() is Some && final(glob_alloc).guarded_val().live_blocks()
                            == relink_backing(
                            old(glob_alloc).guarded_val().live_blocks(),
                            old(self).backing(),
                            final(self).backing().unwrap(),
                            heap::units_of(bytes_for::<T>(grown_cap(old(self).spec_cap()))),
                        )
                    }
                },
                Err(e) => {
                    &&& *final(self) == *old(self)
                    &&& final(glob_alloc).guarded_val().live_blocks() == old(glob_alloc).guarded_val().live_blocks()
                },
            },
    {
        if self.buf.len() == self.cap {
            let grow_res = if self.cap == 0 {
                self.reserve(glob_alloc, 2)
            } else {
                let cap = self.cap;
                self.reserve(glob_alloc, cap)
            };
            if let Err(e) = grow_res {
                return Err(e);
            }
        }

        self.buf.push(val);
        Ok(())
    }

    /// Appends `val` into capacity that is already reserved. Unlike
    /// [`GrowVec::push`] this cannot grow the buffer and so never touches
    /// the allocator: the scheduler's dispatch step relies on that, since
    /// it must not take the allocator lock.
    pub fn push_within_cap(&mut self, val: T)
        requires
            old(self).wf(),
            old(self)@.len() < old(self).spec_cap(),
        ensures
            final(self).wf(),
            final(self)@ == old(self)@.push(val),
            final(self).spec_cap() == old(self).spec_cap(),
            final(self).backing() == old(self).backing(),
    {
        self.buf.push(val);
    }

    /// Removes and returns the first element, shifting the rest down one
    /// place, or `None` exactly when the buffer is empty.
    pub fn pop_front(&mut self) -> (r: Option<T>)
        ensures
            old(self).wf() ==> final(self).wf(),
            final(self).spec_cap() == old(self).spec_cap(),
            final(self).backing() == old(self).backing(),
            old(self)@.len() == 0 ==> r is None && *final(self) == *old(self),
            old(self)@.len() > 0 ==> r == Some(old(self)@[0]) && final(self)@ == old(
                self,
            )@.drop_first(),
    {
        let n = self.buf.len();
        if n == 0 {
            return None;
        }

        // walk the head element to the back, then pop it
        let mut i: usize = 1;
        while i < n
            invariant
                1 <= i <= n,
                n == old(self)@.len(),
                self@.len() == n,
                self.spec_cap() == old(self).spec_cap(),
                self.backing() == old(self).backing(),
                self@ =~= old(self)@.subrange(1, i as int) + Seq::empty().push(old(self)@[0])
                    + old(self)@.subrange(i as int, n as int),
            decreases n - i,
        {
            self.swap(i - 1, i);
            proof {
                assert(self@ =~= old(self)@.subrange(1, i + 1) + Seq::empty().push(old(self)@[0])
                    + old(self)@.subrange(i + 1, n as int));
            }
            i += 1;
        }

        let r = self.pop();
        proof {
            assert(self@ =~= old(self)@.drop_first());
        }
        r
    }

    /// Exchanges the elements at `i` and `j`; positions out of range
    /// leave the buffer unchanged.
    pub fn swap(&mut self, i: usize, j: usize)
        ensures
            old(self).wf() ==> final(self).wf(),
            final(self).spec_cap() == old(self).spec_cap(),
            final(self).backing() == old(self).backing(),
            i < old(self)@.len() && j < old(self)@.len() ==> final(self)@ == old(self)@.update(
                i as int,
                old(self)@[j as int],
            ).update(j as int, old(self)@[i as int]),
            !(i < old(self)@.len() && j < old(self)@.len()) ==> *final(self) == *old(self),
    {
        if i >= self.buf.len() || j >= self.buf.len() {
            return ;
        }

        if i != j {
            swap_in_buf(&mut self.buf, i, j);
        } else {
            proof {
                assert(self@ =~= old(self)@.update(i as int, old(self)@[j as int]).update(
                    j as int,
                    old(self)@[i as int],
                ));
            }
        }
    }

    /// Removes the element at `i` in constant time by swapping the last
    /// element into its place; `None` exactly when `i` is out of range.
    pub fn swap_remove(&mut self, i: usize) -> (r: Option<T>)
        ensures
            old(self).wf() ==> final(self).wf(),
            final(self).spec_cap() == old(self).spec_cap(),
            final(self).backing() == old(self).backing(),
            i < old(self)@.len() ==> r == Some(old(self)@[i as int]) && final(self)@ == old(self)@.update(i as int, old(self)@.last()).drop_last(),
            i >= old(self)@.len() ==> r is None && *final(self) == *old(self),
    {
        if i >= self.buf.len() {
            return None;
        }

        let last = self.buf.len() - 1;
        self.swap(i, last);

        let r = self.pop();
        proof {
            assert(self@ =~= old(self)@.update(i as int, old(self)@.last()).drop_last());
        }
        r
    }

    /// Hands back ownership of the last element, or `None` exactly when
    /// the buffer is empty; the capacity never shrinks on pop.
    pub fn pop(&mut self) -> (r: Option<T>)
        ensures
            old(self).wf() ==> final(self).wf(),
            final(self).spec_cap() == old(self).spec_cap(),
            final(self).backing() == old(self).backing(),
            old(self)@.len() == 0 ==> r is None && *final(self) == *old(self),
            old(self)@.len() > 0 ==> r == Some(old(self)@.last()) && final(self)@ == old(self)@.drop_last(),
    {
        if self.buf.len() == 0 {
            None
        } else {
            self.buf.pop()
        }
    }

    /// Forgets every element; the capacity and backing block stay.
    pub fn clear(&mut self)
        ensures
            old(self).wf() ==> final(self).wf(),
            final(self)@ == Seq::<T>::empty(),
            final(self).spec_cap() == old(self).spec_cap(),
            final(self).backing() == old(self).backing(),
    {
        self.buf.clear();
    }

    /// The element at `i`.
    pub fn get(&self, i: usize) -> (r: &T)
        requires
            i < self@.len(),
        ensures
            *r == self@[i as int],
    {
        &self.buf[i]
    }

    pub fn len(&self) -> (r: usize)
        ensures
            r == self@.len(),
    {
        self.buf.len()
    }

    pub fn cap(&self) -> (r: usize)
        ensures
            r == self.spec_cap(),
    {
        self.cap
    }

    /// Teardown: returns the backing block, if any, to the allocator —
    /// merged back into the free store by the allocator's three-case
    /// rule, so blocks of up to the buffer's byte size can be served
    /// again — and drops the elements.
    pub fn free(self, glob_alloc: &mut Mutex<Allocator>)
        requires
            self.wf(),
            self.backed_by(old(glob_alloc).guarded_val()),
            !old(glob_alloc).is_locked(),
            old(glob_alloc).guarded_val().wf(),
        ensures
            !final(glob_alloc).is_locked(),
            final(glob_alloc).guarded_val().wf(),
            final(glob_alloc).guarded_val().n_units() == old(glob_alloc).guarded_val().n_units(),
            final(glob_alloc).guarded_val().live_blocks() == match self.backing() {
                Some(b) => old(glob_alloc).guarded_val().live_blocks().remove(b),
                None => old(glob_alloc).guarded_val().live_blocks(),
            },
            final(glob_alloc).guarded_val().free_blocks() == match self.backing() {
                Some(b) => heap::free_after_dealloc(
                    old(glob_alloc).guarded_val().free_blocks(),
                    b - 1,
                    heap::units_of(bytes_for::<T>(self.spec_cap())),
                ),
                None => old(glob_alloc).guarded_val().free_blocks(),
            },
            forall|s: int|
                0 <= s && self.backing() is Some && heap::units_of(s) <= heap::units_of(
                    bytes_for::<T>(self.spec_cap()),
                ) ==> final(glob_alloc).guarded_val().can_fit(s),
    {
        if let Some(b) = self.blk {
            heap::dealloc(glob_alloc, b);
        }
    }
}

/// The contents after pushing each element of `xs` in turn onto `s0`;
/// each successful [`GrowVec::push`] appends exactly one element, so
/// this is what a run of pushes leaves behind.
pub open spec fn push_all_seq<T>(s0: Seq<T>, xs: Seq<T>) -> Seq<T>
    decreases xs.len(),
{
    if xs.len() == 0 {
        s0
    } else {
        push_all_seq(s0, xs.drop_last()).push(xs.last())
    }
}

/// Push order is kept: after pushing the elements of `xs` onto a buffer
/// holding `s0`, the buffer holds `s0` followed by `xs` — in particular,
/// `xs.len()` pushes onto an empty buffer leave exactly `xs`, in push
/// order, ready to be read back by position.
pub proof fn lemma_push_order<T>(s0: Seq<T>, xs: Seq<T>)
    ensures
        push_all_seq(s0, xs) == s0 + xs,
        push_all_seq(Seq::<T>::empty(), xs).len() == xs.len(),
    decreases xs.len(),
{
    if xs.len() == 0 {
        assert(push_all_seq(s0, xs) =~= s0 + xs);
        lemma_push_order_empty(xs);
    } else {
        lemma_push_order(s0, xs.drop_last());
        assert((s0 + xs.drop_last()).push(xs.last()) =~= s0 + xs);
        lemma_push_order_empty(xs);
    }
}

proof fn lemma_push_order_empty<T>(xs: Seq<T>)
    ensures
        push_all_seq(Seq::<T>::empty(), xs).len() == xs.len(),
    decreases xs.len(),
{
    if xs.len() > 0 {
        lemma_push_order_empty(xs.drop_last());
    }
}

/// A pop straight after a push hands the pushed element back and leaves
/// the buffer as it was: [`GrowVec::push`] appends `x`, and
/// [`GrowVec::pop`] takes the last element off.
pub proof fn lemma_pop_after_push<T>(s: Seq<T>, x: T)
    ensures
        s.push(x).len() > 0,
        s.push(x).last() == x,
        s.push(x).drop_last() == s,
{
    assert(s.push(x).drop_last() =~= s);
}

/// A well-formed buffer never holds more elements than its capacity.
pub proof fn lemma_wf_len_le_cap<T>(v: GrowVec<T>)
    requires
        v.wf(),
    ensures
        v@.len() <= v.spec_cap(),
{
}

/// Relies on `<[T]>::swap` (through `Vec`'s mutable deref): the elements
/// at `i` and `j` exchange places and nothing else moves.
#[verifier::external_body]
fn swap_in_buf<T>(v: &mut Vec<T>, i: usize, j: usize)
    requires
        i < old(v).len(),
        j < old(v).len(),
    ensures
        final(v)@ == old(v)@.update(i as int, old(v)@[j as int]).update(j as int, old(v)@[i as int]),
{
    v.swap(i, j);
}

} // verus!
