//! Fixed-capacity byte ring buffer with independent read and write
//! positions, each advanced modulo the buffer size.
//!
//! On the target hardware the two positions are atomic counters shared
//! between an interrupt handler (the writer) and a reading task; under
//! the single-core cooperative model verified here they are plain
//! fields. `push_back` performs no occupancy check against the read
//! position: a writer that gets a full buffer's worth of bytes ahead of
//! the reader silently overruns it. That lossy behaviour is part of the
//! design, and the contracts state it exactly: a byte pushed into a buffer holding fewer
//! than `RING_BUF_SIZE - 1` unread bytes is appended; a byte pushed into a
//! buffer holding exactly `RING_BUF_SIZE - 1` makes the write position
//! catch up with the read position, so every unread byte is lost.

use vstd::prelude::*;

verus! {

/// Number of byte slots in the buffer. Since the buffer is empty exactly
/// when the two positions coincide, at most `RING_BUF_SIZE - 1` unread
/// bytes are ever recoverable.
pub const RING_BUF_SIZE: usize = 16;

/// Fixed-capacity single-writer/single-reader byte queue.
pub struct RingBuf {
    buf: [u8; 16],
    rpos: usize,
    wpos: usize,
}

impl RingBuf {
    /// Both positions stay inside the buffer.
    pub closed spec fn wf(self) -> bool {
        self.rpos < 16 && self.wpos < 16
    }

    /// The unread bytes, oldest first: the slots from the read position up
    /// to (exclusive) the write position, wrapping around the end.
    pub closed spec fn contents(self) -> Seq<u8> {
        if self.rpos <= self.wpos {
            self.buf@.subrange(self.rpos as int, self.wpos as int)
        } else {
            self.buf@.subrange(self.rpos as int, 16) + self.buf@.subrange(0, self.wpos as int)
        }
    }

    pub fn new() -> (r: RingBuf)
        ensures
            r.wf(),
            r.contents() == Seq::<u8>::empty(),
    {
        let r = RingBuf { buf: [0; 16], rpos: 0, wpos: 0 };
        proof {
            assert(r.contents() =~= Seq::<u8>::empty());
        }
        r
    }

    /// Writes `b` into the slot at the write position, then advances the
    /// write position. No occupancy check is made: pushing into a buffer
    /// already holding `RING_BUF_SIZE - 1` unread bytes moves the write
    /// position onto the read position, which reads back as empty.
    pub fn push_back(&mut self, b: u8)
        requires
            old(self).wf(),
        ensures
            final(self).wf(),
            final(self).contents() == spec_push(old(self).contents(), b),
    {
        self.write_buf(b);
        self.wpos = Self::inc(self.wpos);
        proof {
            lemma_push_shape(*old(self), *self, b);
        }
    }

    // reducing mutable borrow scope of the underlying storage
    fn write_buf(&mut self, b: u8)
        requires
            old(self).wf(),
        ensures
            final(self).wf(),
            final(self).buf@ == old(self).buf@.update(old(self).wpos as int, b),
            final(self).rpos == old(self).rpos,
            final(self).wpos == old(self).wpos,
    {
        let wpos = self.wpos;
        self.buf[wpos] = b;
    }

    /// Returns the oldest unread byte and advances the read position, or
    /// `None` exactly when the two positions coincide (no unread bytes).
    pub fn pop_front(&mut self) -> (r: Option<u8>)
        requires
            old(self).wf(),
        ensures
            final(self).wf(),
            old(self).contents().len() == 0 ==> r is None && *final(self) == *old(self),
            old(self).contents().len() > 0 ==> r == Some(old(self).contents()[0])
                && final(self).contents() == old(self).contents().drop_first(),
    {
        let rpos = self.rpos;

        if rpos == self.wpos {
            None
        } else {
            let rv = Some(self.read_buf(rpos));
            self.rpos = Self::inc(self.rpos);
            proof {
                lemma_pop_shape(*old(self), *self);
            }
            rv
        }
    }

    fn read_buf(&self, pos: usize) -> (r: u8)
        requires
            pos < 16,
        ensures
            r == self.buf@[pos as int],
    {
        self.buf[pos]
    }

    /// One wrapping increment of a position counter.
    fn inc(pos: usize) -> (r: usize)
        requires
            pos < 16,
        ensures
            r == (pos + 1) % 16,
    {
        if ((pos + 1) % RING_BUF_SIZE) == 0 {
            // wrapping buffer position around
            0
        } else {
            pos + 1
        }
    }
}

/// What one push does to the unread bytes: appended while fewer than
/// `RING_BUF_SIZE - 1` are held, everything lost at the overrun point.
pub open spec fn spec_push(s: Seq<u8>, b: u8) -> Seq<u8> {
    if s.len() < 15 {
        s.push(b)
    } else {
        Seq::<u8>::empty()
    }
}

/// The unread bytes after pushing each byte of `bs` in turn.
pub open spec fn spec_push_all(s: Seq<u8>, bs: Seq<u8>) -> Seq<u8>
    decreases bs.len(),
{
    if bs.len() == 0 {
        s
    } else {
        spec_push(spec_push_all(s, bs.drop_last()), bs.last())
    }
}

/// The bytes `k` pops hand out, oldest first.
pub open spec fn spec_pop_all(s: Seq<u8>, k: nat) -> Seq<u8>
    decreases k,
{
    if k == 0 || s.len() == 0 {
        Seq::empty()
    } else {
        Seq::empty().push(s[0]) + spec_pop_all(s.drop_first(), (k - 1) as nat)
    }
}

/// First-in, first-out: pushing up to `RING_BUF_SIZE - 1` bytes into an
/// empty buffer stores exactly those bytes, and popping as many times
/// returns them in push order. (Pushing a sixteenth byte before any pop
/// would instead wrap the write position onto the read position and
/// lose every unread byte: see [`spec_push`].)
pub proof fn lemma_ring_fifo(bs: Seq<u8>)
    requires
        bs.len() <= 15,
    ensures
        spec_push_all(Seq::empty(), bs) == bs,
        spec_pop_all(bs, bs.len()) == bs,
{
    lemma_pushes_fit(bs);
    lemma_pops_in_order(bs, bs.len());
}

proof fn lemma_pushes_fit(bs: Seq<u8>)
    requires
        bs.len() <= 15,
    ensures
        spec_push_all(Seq::empty(), bs) == bs,
    decreases bs.len(),
{
    if bs.len() > 0 {
        lemma_pushes_fit(bs.drop_last());
        assert(bs.drop_last().push(bs.last()) =~= bs);
    } else {
        assert(spec_push_all(Seq::empty(), bs) =~= bs);
    }
}

proof fn lemma_pops_in_order(s: Seq<u8>, k: nat)
    requires
        k == s.len(),
    ensures
        spec_pop_all(s, k) == s,
    decreases k,
{
    if k > 0 {
        lemma_pops_in_order(s.drop_first(), (k - 1) as nat);
        assert(Seq::empty().push(s[0]) + s.drop_first() =~= s);
    } else {
        assert(spec_pop_all(s, k) =~= s);
    }
}

proof fn lemma_push_shape(pre: RingBuf, post: RingBuf, b: u8)
    requires
        pre.wf(),
        post.wf(),
        post.buf@ == pre.buf@.update(pre.wpos as int, b),
        post.rpos == pre.rpos,
        post.wpos == (pre.wpos + 1) % 16,
    ensures
        post.contents() == spec_push(pre.contents(), b),
{
    if pre.contents().len() < 15 {
        assert(post.contents() =~= pre.contents().push(b));
    } else {
        assert(post.contents() =~= Seq::<u8>::empty());
    }
}

proof fn lemma_pop_shape(pre: RingBuf, post: RingBuf)
    requires
        pre.wf(),
        post.wf(),
        pre.rpos != pre.wpos,
        post.buf@ == pre.buf@,
        post.wpos == pre.wpos,
        post.rpos == (pre.rpos + 1) % 16,
    ensures
        pre.contents().len() > 0,
        post.contents() == pre.contents().drop_first(),
{
    assert(post.contents() =~= pre.contents().drop_first());
}

} // verus!
