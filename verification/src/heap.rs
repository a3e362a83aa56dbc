//! Heap allocator over a fixed region.
//!
//! The region is measured in block-units of [`HDR_BYTES`] bytes, the size
//! of one block record. Free space is kept as a circular singly-linked
//! free list in ascending address order, rooted at the sentinel record in
//! unit 0; a solitary block links to itself. Rather than raw block
//! headers laid out inside the region itself, the free list is an
//! index-based arena — one record per block-unit, with next fields
//! holding unit indices and every index bounds-checked — which carries
//! the same O(1) splice and merge steps without pointer arithmetic.
//!
//! `allocate` carves the whole region into one giant free block on first
//! use, then searches the list just past the sentinel: an exact fit is
//! unlinked whole, a larger block is split from its tail, and a full lap
//! without a fit is an out-of-memory failure, reported as `None` rather
//! than a null sentinel. The sentinel record itself is split like any
//! other block but never unlinked and never handed out. `dealloc` walks
//! the list in ascending address order to the freed block's place and
//! merges it into a physically adjacent neighbour — the preceding one, or
//! else the following one — or links it in as a standalone node.

use vstd::prelude::*;
use crate::lock::Mutex;

verus! {

/// Allocator exhaustion: no free block can serve the request.
#[derive(Clone, Copy, Debug, PartialEq, Eq)]
pub struct OutOfMemory;

/// Bytes in one block-unit: the size of one block record.
pub const HDR_BYTES: usize = 8;

/// One block record of the arena: the free-list link and the payload size
/// in block-units of the block whose header sits at this unit.
#[derive(Clone, Copy)]
struct Hdr {
    next: usize,
    size: usize,
}

/// Manages a fixed region of `mem_size` bytes, carved on first use into
/// one giant free block headed by the sentinel record at unit 0.
pub struct Allocator {
    mem_size: usize,
    blocks: Vec<Hdr>,
    carved: bool,
    free_list: Ghost<Seq<int>>,
    live: Ghost<Map<int, int>>,
}

/// Bytes rounded up to whole block-units.
pub open spec fn units_of(size: int) -> int {
    (size + 7) / 8
}

/// The first free-store position at or past `j` (past the sentinel when
/// called with 1) whose block holds at least `sz` payload units; the
/// store's length when none does.
pub open spec fn find_fit(fv: Seq<(int, int)>, sz: int, j: int) -> int
    recommends
        0 <= j,
    decreases fv.len() - j,
{
    if j < 0 || j >= fv.len() {
        fv.len() as int
    } else if fv[j].1 >= sz {
        j
    } else {
        find_fit(fv, sz, j + 1)
    }
}

/// What one successful allocation of `sz` units does to the free store:
/// the first block past the sentinel that fits is unlinked whole on an
/// exact match, or shrunk by `sz + 1` units (payload plus the carved
/// header) otherwise; when no block past the sentinel fits, the
/// sentinel's own block is the one shrunk.
pub open spec fn free_after_alloc(fv: Seq<(int, int)>, sz: int) -> Seq<(int, int)> {
    let k = find_fit(fv, sz, 1);
    if k < fv.len() {
        if fv[k].1 == sz {
            fv.remove(k)
        } else {
            fv.update(k, (fv[k].0, fv[k].1 - sz - 1))
        }
    } else {
        fv.update(0, (fv[0].0, fv[0].1 - sz - 1))
    }
}

/// The payload unit a successful allocation of `sz` units returns: the
/// matched block's payload, or the tail carved from the split block.
pub open spec fn alloc_result(fv: Seq<(int, int)>, sz: int) -> int {
    let k = find_fit(fv, sz, 1);
    if k < fv.len() {
        if fv[k].1 == sz {
            fv[k].0 + 1
        } else {
            fv[k].0 + fv[k].1 - sz + 1
        }
    } else {
        fv[0].0 + fv[0].1 - sz + 1
    }
}

/// The free-store position of the last block whose header lies below
/// `d`; the sentinel, at unit 0, is below any freed block's header.
pub open spec fn pred_pos(fv: Seq<(int, int)>, d: int) -> int
    decreases fv.len(),
{
    if fv.len() <= 1 {
        0
    } else if fv.last().0 < d {
        fv.len() - 1
    } else {
        pred_pos(fv.drop_last(), d)
    }
}

/// What freeing a block with header unit `d` and `sd` payload units
/// does to the free store — the three-case rule: the freed block merges
/// into the immediately preceding physically-adjacent free block; or it
/// absorbs the immediately following physically-adjacent free block and
/// takes its place; or it links in as a standalone node between the
/// two.
pub open spec fn free_after_dealloc(fv: Seq<(int, int)>, d: int, sd: int) -> Seq<(int, int)> {
    let k = pred_pos(fv, d);
    if fv[k].0 + fv[k].1 + 1 == d {
        fv.update(k, (fv[k].0, fv[k].1 + sd + 1))
    } else if k + 1 < fv.len() && d + sd + 1 == fv[k + 1].0 {
        fv.update(k + 1, (d, sd + fv[k + 1].1 + 1))
    } else {
        fv.insert(k + 1, (d, sd))
    }
}

impl Allocator {
    /// Block-units in the managed region.
    pub closed spec fn n_units(self) -> int {
        self.mem_size as int / 8
    }

    /// The blocks currently handed out and not yet freed: payload start
    /// unit, mapped to payload size in units. The unit just below each
    /// payload holds the block's header.
    pub closed spec fn live_blocks(self) -> Map<int, int> {
        self.live@
    }

    spec fn hdr_size(self, i: int) -> int {
        self.blocks@[i].size as int
    }

    spec fn hdr_next(self, i: int) -> int {
        self.blocks@[i].next as int
    }

    /// Upper bound of the free region at list position `i`: the next
    /// block's header, or the end of the region for the last block.
    spec fn free_end(self, i: int) -> int {
        if i + 1 < self.free_list@.len() {
            self.free_list@[i + 1]
        } else {
            self.n_units()
        }
    }

    /// The free-list link leaving list position `i`: the next block, or
    /// back to the sentinel for the last one.
    spec fn succ(self, i: int) -> int {
        if i + 1 < self.free_list@.len() {
            self.free_list@[i + 1]
        } else {
            0
        }
    }

    /// The free block at list position `i` lies inside the region, ends
    /// before its successor begins, and links to it.
    spec fn free_wf_at(self, i: int) -> bool {
        let f = self.free_list@[i];
        &&& 0 <= f
        &&& f + 1 + self.hdr_size(f) <= self.free_end(i)
        &&& self.hdr_next(f) == self.succ(i)
    }

    /// The live block with payload at `p` lies inside the region, above
    /// the sentinel, and its header records its size.
    spec fn live_wf_at(self, p: int) -> bool {
        &&& 2 <= p
        &&& 0 <= self.live@[p]
        &&& p + self.live@[p] <= self.n_units()
        &&& self.hdr_size(p - 1) == self.live@[p]
    }

    /// The free list is a circular, address-ordered chain rooted at the
    /// sentinel in unit 0; free blocks and live blocks tile the region
    /// without overlap, headers included.
    spec fn wf_carved(self) -> bool {
        let fl = self.free_list@;
        &&& self.n_units() >= 1
        &&& fl.len() >= 1
        &&& fl[0] == 0
        &&& (forall|i: int| 0 <= i < fl.len() ==> #[trigger] self.free_wf_at(i))
        &&& (forall|p: int| #[trigger] self.live@.dom().contains(p) ==> self.live_wf_at(p))
        &&& (forall|p: int, q: int|
            self.live@.dom().contains(p) && self.live@.dom().contains(q) && p != q
                ==> p + self.live@[p] <= q - 1 || q + self.live@[q] <= p - 1)
        &&& (forall|p: int, i: int|
            #![trigger self.live@.dom().contains(p), self.free_list@[i]]
            self.live@.dom().contains(p) && 0 <= i < fl.len()
                ==> p + self.live@[p] <= fl[i]
                    || fl[i] + 1 + self.hdr_size(fl[i]) <= p - 1)
    }

    pub closed spec fn wf(self) -> bool {
        &&& self.blocks@.len() == self.n_units()
        &&& if self.carved {
            self.wf_carved()
        } else {
            self.live@ == Map::<int, int>::empty() && self.free_list@ == Seq::<int>::empty()
        }
    }

    /// The free store: each free block as its header unit and payload
    /// size in block-units, in ascending address order, the sentinel's
    /// own block first. Until the first allocation carves the region it
    /// already reads as the one giant block that carving will set up.
    pub closed spec fn free_blocks(self) -> Seq<(int, int)> {
        if !self.carved {
            if self.n_units() >= 1 {
                seq![(0int, self.n_units() - 1)]
            } else {
                Seq::empty()
            }
        } else {
            Seq::new(
                self.free_list@.len(),
                |i: int| (self.free_list@[i], self.hdr_size(self.free_list@[i])),
            )
        }
    }

    /// Whether the free-list search can serve a request of `size` bytes
    /// in the current state: some block past the sentinel is at least as
    /// large as the rounded request, or the sentinel's own block is
    /// strictly larger (it is only ever split, never unlinked).
    pub open spec fn can_fit(self, size: int) -> bool {
        let sz = units_of(size);
        let fv = self.free_blocks();
        (exists|j: int| 1 <= j < fv.len() && (#[trigger] fv[j]).1 >= sz) || (fv.len() >= 1
            && fv[0].1 > sz)
    }

    pub fn new(mem_size: usize) -> (a: Allocator)
        ensures
            a.wf(),
            a.n_units() == mem_size as int / 8,
            a.live_blocks() == Map::<int, int>::empty(),
            a.n_units() >= 1 ==> a.free_blocks() == seq![(0int, a.n_units() - 1)],
            a.n_units() == 0 ==> a.free_blocks() == Seq::<(int, int)>::empty(),
            forall|s: int| 0 <= s ==> (#[trigger] a.can_fit(s) <==> units_of(s) < a.n_units() - 1),
    {
        let n = mem_size / HDR_BYTES;
        let a = Allocator {
            mem_size,
            blocks: vec![Hdr { next: 0, size: 0 }; n],
            carved: false,
            free_list: Ghost(Seq::empty()),
            live: Ghost(Map::empty()),
        };
        proof {
            assert forall|s: int| 0 <= s && units_of(s) < a.n_units() - 1 implies #[trigger] a.can_fit(
                s,
            ) by {
                assert(a.free_blocks()[0].1 == a.n_units() - 1);
            }
        }
        a
    }

    /// Carves the whole region into one free block: the sentinel record
    /// at unit 0 owns every remaining unit as payload and links to
    /// itself.
    fn carve(&mut self)
        requires
            old(self).wf(),
            !old(self).carved,
            old(self).n_units() >= 1,
        ensures
            final(self).wf(),
            final(self).carved,
            final(self).n_units() == old(self).n_units(),
            final(self).live@ == old(self).live@,
            final(self).free_list@ == seq![0int],
            final(self).hdr_size(0) == final(self).n_units() - 1,
    {
        let total_units = self.mem_size / HDR_BYTES;

        // the solitary head block is also the tail block: it points to itself
        self.blocks[0] = Hdr { next: 0, size: total_units - 1 };
        self.carved = true;
        self.free_list = Ghost(Seq::empty().push(0int));
        proof {
            assert forall|i: int| 0 <= i < self.free_list@.len() implies #[trigger] self.free_wf_at(
                i,
            ) by {
                assert(self.free_list@[0] == 0);
            }
        }
    }

    /// Serves `size` bytes, rounded up to whole block-units: returns the
    /// payload's start unit, or `None` exactly when no free block fits.
    /// The returned block is fresh — it overlaps no block that was live
    /// before the call, headers included (see
    /// [`lemma_live_blocks_disjoint`]).
    pub fn allocate(&mut self, size: usize) -> (r: Option<usize>)
        requires
            old(self).wf(),
            size <= usize::MAX - 7,
        ensures
            final(self).wf(),
            final(self).n_units() == old(self).n_units(),
            r is Some <==> old(self).can_fit(size as int),
            match r {
                Some(p) => {
                    &&& 2 <= p
                    &&& p + units_of(size as int) <= final(self).n_units()
                    &&& !old(self).live_blocks().dom().contains(p as int)
                    &&& final(self).live_blocks() == old(self).live_blocks().insert(
                        p as int,
                        units_of(size as int),
                    )
                    &&& p == alloc_result(old(self).free_blocks(), units_of(size as int))
                    &&& final(self).free_blocks() == free_after_alloc(
                        old(self).free_blocks(),
                        units_of(size as int),
                    )
                },
                None => final(self).live_blocks() == old(self).live_blocks() && final(self).free_blocks() == old(self).free_blocks(),
            },
    {
        if self.blocks.len() == 0 {
            return None;
        }
        if !self.carved {
            self.carve();
            proof {
                // carving changes nothing the free store view shows
                assert(self.free_blocks() =~= old(self).free_blocks());
            }
        }
        self.allocate_carved(size)
    }

    #[verifier::rlimit(50)]
    fn allocate_carved(&mut self, size: usize) -> (r: Option<usize>)
        requires
            old(self).wf(),
            old(self).carved,
            size <= usize::MAX - 7,
        ensures
            final(self).wf(),
            final(self).carved,
            final(self).n_units() == old(self).n_units(),
            r is Some <==> old(self).can_fit(size as int),
            match r {
                Some(p) => {
                    &&& 2 <= p
                    &&& p + units_of(size as int) <= final(self).n_units()
                    &&& !old(self).live@.dom().contains(p as int)
                    &&& final(self).live@ == old(self).live@.insert(
                        p as int,
                        units_of(size as int),
                    )
                    &&& p == alloc_result(old(self).free_blocks(), units_of(size as int))
                    &&& final(self).free_blocks() == free_after_alloc(
                        old(self).free_blocks(),
                        units_of(size as int),
                    )
                },
                None => final(self).live@ == old(self).live@ && final(self).free_blocks() == old(self).free_blocks(),
            },
    {
        let ghost self0 = *self;
        let ghost fl = self.free_list@;
        let size_blocks = (size + (HDR_BYTES - 1)) / HDR_BYTES;
        let ghost sz = size_blocks as int;

        // free list search, starting just past the sentinel head
        let mut prev: usize = 0;
        let mut curr: usize = self.blocks[0].next;
        let ghost mut k: int = 1;

        proof {
            assert(self.free_wf_at(0));
        }
        loop
            invariant
                *self == self0,
                self.wf(),
                self.carved,
                fl == self.free_list@,
                sz == units_of(size as int),
                size_blocks as int == sz,
                1 <= k <= fl.len(),
                prev == fl[k - 1],
                (prev as int) < self.blocks@.len(),
                k < fl.len() ==> curr == fl[k] && curr != 0,
                k == fl.len() ==> curr == 0,
                forall|j: int| 1 <= j < k ==> self.hdr_size(#[trigger] fl[j]) < sz,
            ensures
                *self == self0,
                1 <= k <= fl.len(),
                prev == fl[k - 1],
                k < fl.len() ==> curr == fl[k] && curr != 0,
                k == fl.len() ==> curr == 0,
                forall|j: int| 1 <= j < k ==> self.hdr_size(#[trigger] fl[j]) < sz,
                curr != 0 ==> self.hdr_size(curr as int) >= sz,
                (curr as int) < self.blocks@.len(),
                (prev as int) < self.blocks@.len(),
            decreases fl.len() - k,
        {
            proof {
                assert(self.free_wf_at(k - 1));
                lemma_fl_in_region(*self, k - 1);
                if k < fl.len() {
                    assert(self.free_wf_at(k));
                    lemma_fl_in_region(*self, k);
                }
            }
            if curr != 0 && self.blocks[curr].size == size_blocks {
                // exact fit found
                break;
            }
            if self.blocks[curr].size > size_blocks {
                // a larger block: it will be split
                break;
            }
            if curr == 0 {
                // the search wrapped around to the sentinel: no block fits
                break;
            }

            // advancing further
            proof {
                assert(self.hdr_size(fl[k]) <= sz && self.hdr_size(fl[k]) != sz);
            }
            prev = curr;
            curr = self.blocks[curr].next;
            proof {
                k = k + 1;
            }
        }

        let ghost kc: int = if curr == 0 { 0 } else { k };
        let ghost fv0 = self0.free_blocks();
        proof {
            if curr != 0 {
                assert(self.free_wf_at(k));
                lemma_fl_in_region(*self, k);
            } else {
                assert(self.free_wf_at(0));
                lemma_fl_in_region(*self, 0);
            }
            assert(self.free_wf_at(k - 1));
            lemma_fl_in_region(*self, k - 1);

            // the scan's outcome names the first-fit position of the view
            assert(fv0.len() == fl.len());
            assert forall|i: int| 1 <= i < k implies (#[trigger] fv0[i]).1 < sz by {
                assert(fv0[i] == (fl[i], self0.hdr_size(fl[i])));
            }
            if curr != 0 {
                assert(fv0[k] == (fl[k], self0.hdr_size(fl[k])));
                lemma_find_fit_from_scan(fv0, sz, 1, k);
            } else {
                lemma_find_fit_from_scan(fv0, sz, 1, fl.len() as int);
            }
            assert(fv0[0] == (fl[0], self0.hdr_size(0)));
        }

        if curr != 0 && self.blocks[curr].size == size_blocks {
            // exact size match: unlink the whole block
            let next_of_curr = self.blocks[curr].next;
            let prev_size = self.blocks[prev].size;
            self.blocks[prev] = Hdr { next: next_of_curr, size: prev_size };
            let p = curr + 1;
            self.free_list = Ghost(
                fl.subrange(0, k) + fl.subrange(k + 1, fl.len() as int),
            );
            self.live = Ghost(self0.live@.insert(p as int, sz));
            proof {
                lemma_exact_unlink_wf(self0, *self, k, sz, p as int);
                assert(self0.free_blocks()[k] == (fl[k], self0.hdr_size(fl[k])));
                assert(self0.can_fit(size as int));
                assert(find_fit(fv0, sz, 1) == k);
                assert(p == alloc_result(fv0, sz));
                assert(self.free_blocks() == free_after_alloc(fv0, sz));
            }
            Some(p)
        } else if self.blocks[curr].size > size_blocks {
            // larger block: shrink it and carve the allocation from its tail
            let curr_next = self.blocks[curr].next;
            let old_size = self.blocks[curr].size;
            let new_size = old_size - (size_blocks + 1);
            self.blocks[curr] = Hdr { next: curr_next, size: new_size };

            // the allocated block's header sits just past the shrunk payload
            let ab = curr + new_size + 1;
            self.blocks[ab] = Hdr { next: 0, size: size_blocks };
            let p = ab + 1;
            self.live = Ghost(self0.live@.insert(p as int, sz));
            proof {
                lemma_split_wf(self0, *self, kc, sz, p as int);
                if curr != 0 {
                    assert(self0.free_blocks()[k] == (fl[k], self0.hdr_size(fl[k])));
                    assert(self0.free_blocks()[k].1 >= sz);
                    assert(find_fit(fv0, sz, 1) == k && fv0[k].1 != sz);
                } else {
                    assert(self0.free_blocks()[0] == (fl[0], self0.hdr_size(0)));
                    assert(self0.free_blocks()[0].1 > sz);
                    assert(find_fit(fv0, sz, 1) == fv0.len());
                }
                assert(self0.can_fit(size as int));
                assert(p == alloc_result(fv0, sz));
                assert(self.free_blocks() == free_after_alloc(fv0, sz));
            }
            Some(p)
        } else {
            // the traversal wrapped around without a fitting block
            proof {
                assert(curr == 0 && k == fl.len());
                assert(!(self0.hdr_size(0) > sz));
                let fv = self0.free_blocks();
                assert forall|j: int| 1 <= j < fv.len() implies !((#[trigger] fv[j]).1
                    >= sz) by {
                    assert(fv[j] == (fl[j], self0.hdr_size(fl[j])));
                }
                assert(fv[0] == (fl[0], self0.hdr_size(0)));
                assert(!self0.can_fit(size as int));
            }
            None
        }
    }

    /// Returns the block with payload `p` to the free list. The list is
    /// walked in ascending address order to the freed block's place;
    /// then the block is merged into the immediately preceding
    /// physically-adjacent free block, or the following adjacent free
    /// block is merged into it and relinked, or it is linked in as a new
    /// standalone node between its neighbours.
    #[verifier::rlimit(50)]
    pub fn dealloc(&mut self, p: usize)
        requires
            old(self).wf(),
            old(self).live_blocks().dom().contains(p as int),
        ensures
            final(self).wf(),
            final(self).n_units() == old(self).n_units(),
            final(self).live_blocks() == old(self).live_blocks().remove(p as int),
            final(self).free_blocks() == free_after_dealloc(
                old(self).free_blocks(),
                p - 1,
                old(self).live_blocks()[p as int],
            ),
            forall|s: int|
                0 <= s && units_of(s) <= old(self).live_blocks()[p as int] ==> final(self).can_fit(s),
    {
        let ghost self0 = *self;
        let ghost fl = self.free_list@;
        let ghost sd = self.live@[p as int];
        proof {
            assert(self.carved);
            assert(self.live_wf_at(p as int));
        }

        // the block's header immediately precedes its payload
        let dealloc_blk = p - 1;

        // free list search in ascending address order
        let mut prev: usize = 0;
        let mut curr: usize = self.blocks[0].next;
        let ghost mut k: int = 0;

        proof {
            assert(self.free_wf_at(0));
            lemma_fl_in_region(*self, 0);
            lemma_live_header_apart(self0, p as int, 0);
            if fl.len() > 1 {
                assert(self.free_wf_at(1));
                lemma_fl_in_region(*self, 1);
            }
        }
        while prev < curr
            invariant_except_break
                *self == self0,
                self.wf(),
                self.carved,
                fl == self.free_list@,
                sd == self.live@[p as int],
                self.live@.dom().contains(p as int),
                dealloc_blk == p - 1,
                p >= 2,
                0 <= k < fl.len(),
                prev == fl[k],
                (prev as int) < self.blocks@.len(),
                k + 1 < fl.len() ==> curr == fl[k + 1] && curr != 0,
                k + 1 == fl.len() ==> curr == 0,
                (curr as int) < self.blocks@.len(),
                (prev as int) < dealloc_blk,
                k + 1 < fl.len() ==> (prev as int) < fl[k + 1],
            ensures
                *self == self0,
                0 <= k < fl.len(),
                prev == fl[k],
                (prev as int) < self.blocks@.len(),
                k + 1 < fl.len() ==> curr == fl[k + 1] && curr != 0,
                k + 1 == fl.len() ==> curr == 0,
                (curr as int) < self.blocks@.len(),
                (prev as int) < dealloc_blk,
                curr != 0 ==> (dealloc_blk as int) < curr,
            decreases fl.len() - k,
        {
            // found the freed block's position in the free list
            if prev < dealloc_blk && curr > dealloc_blk {
                break;
            }

            // advancing further
            proof {
                assert(self.free_wf_at(k + 1));
                lemma_fl_in_region(*self, k + 1);
                lemma_live_header_apart(self0, p as int, k + 1);
                if k + 2 < fl.len() {
                    assert(self.free_wf_at(k + 2));
                    lemma_fl_in_region(*self, k + 2);
                }
            }
            prev = curr;
            curr = self.blocks[curr].next;
            proof {
                k = k + 1;
            }
        }
        let ghost fv0 = self0.free_blocks();
        let ghost d = p as int - 1;
        proof {
            if curr == 0 {
                assert(k + 1 == fl.len());
            }
            assert(self.free_wf_at(k));
            lemma_fl_in_region(*self, k);
            lemma_live_region_between(self0, p as int, k);

            // the walk's stopping place names the freed block's
            // predecessor position in the view
            assert(fv0.len() == fl.len());
            assert forall|i: int, j: int|
                0 <= i < j < fv0.len() implies (#[trigger] fv0[i]).0 < (#[trigger] fv0[j]).0 by {
                lemma_fl_ascending(self0, i, j);
                assert(fv0[i] == (fl[i], self0.hdr_size(fl[i])));
                assert(fv0[j] == (fl[j], self0.hdr_size(fl[j])));
            }
            assert(fv0[k] == (fl[k], self0.hdr_size(fl[k])));
            if k + 1 < fl.len() {
                assert(fv0[k + 1] == (fl[k + 1], self0.hdr_size(fl[k + 1])));
            }
            lemma_pred_pos_from_walk(fv0, d, k);
        }

        let prev_size = self.blocks[prev].size;
        let dealloc_size = self.blocks[dealloc_blk].size;

        if prev + prev_size + 1 == dealloc_blk {
            // merge into the immediately preceding physically-adjacent block
            let prev_next = self.blocks[prev].next;
            self.blocks[prev] = Hdr { next: prev_next, size: prev_size + dealloc_size + 1 };
            self.live = Ghost(self0.live@.remove(p as int));
            proof {
                lemma_dealloc_merge_prev_wf(self0, *self, k, p as int);
                assert(self.free_blocks() == free_after_dealloc(fv0, d, sd));
                assert forall|s: int|
                    0 <= s && units_of(s) <= sd implies self.can_fit(s) by {
                    assert(self.free_blocks()[k].1 == self0.hdr_size(fl[k]) + sd + 1);
                    if k == 0 {
                        assert(self.free_blocks()[0].1 > units_of(s));
                    } else {
                        assert(1 <= k < self.free_blocks().len() && self.free_blocks()[k].1
                            >= units_of(s));
                    }
                }
            }
        } else if dealloc_blk + dealloc_size + 1 == curr {
            // merge the following physically-adjacent block into the freed
            // block, and relink
            proof {
                assert(self.free_wf_at(k + 1));
                lemma_fl_in_region(*self, k + 1);
            }
            let curr_next = self.blocks[curr].next;
            let curr_size = self.blocks[curr].size;
            self.blocks[dealloc_blk] = Hdr {
                next: curr_next,
                size: dealloc_size + curr_size + 1,
            };
            self.blocks[prev] = Hdr { next: dealloc_blk, size: prev_size };
            self.free_list = Ghost(fl.update(k + 1, dealloc_blk as int));
            self.live = Ghost(self0.live@.remove(p as int));
            proof {
                lemma_dealloc_merge_next_wf(self0, *self, k, p as int);
                assert(self.free_blocks() == free_after_dealloc(fv0, d, sd));
                assert forall|s: int|
                    0 <= s && units_of(s) <= sd implies self.can_fit(s) by {
                    assert(1 <= k + 1 < self.free_blocks().len() && self.free_blocks()[k + 1].1
                        >= units_of(s));
                }
            }
        } else {
            // link the freed block in as a standalone node between its
            // neighbours
            self.blocks[prev] = Hdr { next: dealloc_blk, size: prev_size };
            self.blocks[dealloc_blk] = Hdr { next: curr, size: dealloc_size };
            self.free_list = Ghost(
                fl.subrange(0, k + 1) + Seq::empty().push(dealloc_blk as int) + fl.subrange(
                    k + 1,
                    fl.len() as int,
                ),
            );
            self.live = Ghost(self0.live@.remove(p as int));
            proof {
                lemma_dealloc_standalone_wf(self0, *self, k, p as int);
                assert(self.free_blocks() == free_after_dealloc(fv0, d, sd)) by {
                    assert(fl.subrange(0, k + 1) + Seq::empty().push(dealloc_blk as int)
                        + fl.subrange(k + 1, fl.len() as int) == fl.insert(
                        k + 1,
                        dealloc_blk as int,
                    )) by {
                        assert(fl.subrange(0, k + 1) + Seq::empty().push(dealloc_blk as int)
                            + fl.subrange(k + 1, fl.len() as int) =~= fl.insert(
                            k + 1,
                            dealloc_blk as int,
                        ));
                    }
                }
                assert forall|s: int|
                    0 <= s && units_of(s) <= sd implies self.can_fit(s) by {
                    assert(self.free_blocks() == fv0.insert(k + 1, (d, sd)));
                    assert(self.free_blocks()[k + 1] == (d, sd));
                    assert(1 <= k + 1 < self.free_blocks().len() && self.free_blocks()[k + 1].1
                        >= units_of(s));
                }
            }
        }
    }
}

/// In a well-formed carved allocator the free list ascends: an earlier
/// block's whole region, header included, lies below a later block's
/// header.
proof fn lemma_fl_ascending(a: Allocator, i: int, j: int)
    requires
        a.wf(),
        a.carved,
        0 <= i < j < a.free_list@.len(),
    ensures
        a.free_list@[i] + 1 + a.hdr_size(a.free_list@[i]) <= a.free_list@[j],
    decreases j - i,
{
    assert(a.free_wf_at(i));
    if i + 1 < j {
        lemma_fl_ascending(a, i + 1, j);
    }
}

/// Every free block ends inside the region.
proof fn lemma_fl_in_region(a: Allocator, i: int)
    requires
        a.wf(),
        a.carved,
        0 <= i < a.free_list@.len(),
    ensures
        a.free_list@[i] + 1 + a.hdr_size(a.free_list@[i]) <= a.n_units(),
    decreases a.free_list@.len() - i,
{
    assert(a.free_wf_at(i));
    if i + 1 < a.free_list@.len() {
        lemma_fl_in_region(a, i + 1);
        assert(a.free_wf_at(i + 1));
    }
}

/// A live block keeps clear of every free block: the free block at list
/// position `i` ends at or below the live header, or starts at or above
/// the live payload's end.
proof fn lemma_live_header_apart(a: Allocator, p: int, i: int)
    requires
        a.wf(),
        a.carved,
        a.live@.dom().contains(p),
        0 <= i < a.free_list@.len(),
    ensures
        a.free_list@[i] + 1 + a.hdr_size(a.free_list@[i]) <= p - 1 || p + a.live@[p]
            <= a.free_list@[i],
{
}

/// A live block found to lie between list positions `k` and `k + 1` fits
/// strictly between those blocks' regions.
proof fn lemma_live_region_between(a: Allocator, p: int, k: int)
    requires
        a.wf(),
        a.carved,
        a.live@.dom().contains(p),
        0 <= k < a.free_list@.len(),
        a.free_list@[k] < p - 1,
        k + 1 < a.free_list@.len() ==> p - 1 < a.free_list@[k + 1],
    ensures
        a.free_list@[k] + 1 + a.hdr_size(a.free_list@[k]) <= p - 1,
        k + 1 < a.free_list@.len() ==> p + a.live@[p] <= a.free_list@[k + 1],
        p + a.live@[p] <= a.n_units(),
{
    assert(a.live_wf_at(p));
    lemma_live_header_apart(a, p, k);
    if k + 1 < a.free_list@.len() {
        lemma_live_header_apart(a, p, k + 1);
    }
}

/// Re-establishes well-formedness after freeing a block whose header
/// immediately follows the free block at list position `k`: that block
/// absorbed the freed one.
proof fn lemma_dealloc_merge_prev_wf(pre: Allocator, post: Allocator, k: int, p: int)
    requires
        pre.wf(),
        pre.carved,
        post.carved,
        post.mem_size == pre.mem_size,
        pre.live@.dom().contains(p),
        0 <= k < pre.free_list@.len(),
        pre.free_list@[k] + 1 + pre.hdr_size(pre.free_list@[k]) == p - 1,
        k + 1 < pre.free_list@.len() ==> p - 1 < pre.free_list@[k + 1],
        post.free_list@ == pre.free_list@,
        post.live@ == pre.live@.remove(p),
        post.blocks@.len() == pre.blocks@.len(),
        post.hdr_size(pre.free_list@[k]) == pre.hdr_size(pre.free_list@[k]) + pre.live@[p] + 1,
        post.hdr_next(pre.free_list@[k]) == pre.hdr_next(pre.free_list@[k]),
        forall|x: int|
            0 <= x < pre.blocks@.len() && x != pre.free_list@[k] ==> #[trigger] post.hdr_size(x)
                == pre.hdr_size(x) && post.hdr_next(x) == pre.hdr_next(x),
    ensures
        post.wf(),
        post.free_blocks() == pre.free_blocks().update(
            k,
            (pre.free_list@[k], pre.hdr_size(pre.free_list@[k]) + pre.live@[p] + 1),
        ),
{
    let fl = pre.free_list@;
    let prv = fl[k];
    let sp = pre.hdr_size(prv);
    let sd = pre.live@[p];
    let d = p - 1;

    assert(pre.live_wf_at(p));
    assert(pre.free_wf_at(k));
    lemma_live_region_between(pre, p, k);

    assert forall|i: int| 0 <= i < fl.len() implies #[trigger] post.free_wf_at(i) by {
        assert(pre.free_wf_at(i));
        lemma_fl_in_region(pre, i);
        if i != k {
            if i < k {
                lemma_fl_ascending(pre, i, k);
            } else {
                lemma_fl_ascending(pre, k, i);
            }
            assert(fl[i] != prv);
            assert(post.hdr_size(fl[i]) == pre.hdr_size(fl[i]));
            assert(post.hdr_next(fl[i]) == pre.hdr_next(fl[i]));
        } else {
            assert(prv + 1 + post.hdr_size(prv) == p + sd);
        }
    }

    assert forall|q: int| #[trigger] post.live@.dom().contains(q) implies post.live_wf_at(q) by {
        assert(pre.live@.dom().contains(q) && q != p);
        assert(pre.live_wf_at(q));
        assert(q - 1 != prv) by {
            assert(q + pre.live@[q] <= prv || prv + 1 + sp <= q - 1);
        }
    }

    assert forall|q: int, w: int|
        post.live@.dom().contains(q) && post.live@.dom().contains(w) && q != w implies q
        + post.live@[q] <= w - 1 || w + post.live@[w] <= q - 1 by {
        assert(pre.live@.dom().contains(q) && pre.live@.dom().contains(w));
    }

    assert forall|q: int, i: int|
        post.live@.dom().contains(q) && 0 <= i < fl.len() implies q + post.live@[q]
        <= fl[i] || fl[i] + 1 + post.hdr_size(fl[i]) <= q - 1 by {
        assert(pre.live@.dom().contains(q) && q != p);
        assert(pre.free_wf_at(i));
        lemma_fl_in_region(pre, i);
        assert(q + pre.live@[q] <= fl[i] || fl[i] + 1 + pre.hdr_size(fl[i]) <= q - 1);
        if i == k {
            // the merged block also covers the freed region, which the
            // live block q kept clear of
            assert(q + pre.live@[q] <= p - 1 || p + sd <= q - 1);
            if prv + 1 + sp <= q - 1 {
                assert(q + pre.live@[q] > prv);
                assert(p + sd <= q - 1) by {
                    if q + pre.live@[q] <= p - 1 {
                        assert(q - 1 >= prv + 1 + sp == p - 1);
                        assert(q + pre.live@[q] <= q - 1);
                    }
                }
            }
        } else {
            if i < k {
                lemma_fl_ascending(pre, i, k);
            } else {
                lemma_fl_ascending(pre, k, i);
            }
            assert(fl[i] != prv);
            assert(post.hdr_size(fl[i]) == pre.hdr_size(fl[i]));
        }
    }

    // only the absorbing block's entry grows in the free store view
    let fv = pre.free_blocks();
    let fv2 = post.free_blocks();
    assert forall|i: int| 0 <= i < fv2.len() implies fv2[i] == fv.update(
        k,
        (prv, sp + sd + 1),
    )[i] by {
        assert(pre.free_wf_at(i));
        lemma_fl_in_region(pre, i);
        assert(fv[i] == (fl[i], pre.hdr_size(fl[i])));
        assert(fv2[i] == (fl[i], post.hdr_size(fl[i])));
        if i != k {
            if i < k {
                lemma_fl_ascending(pre, i, k);
            } else {
                lemma_fl_ascending(pre, k, i);
            }
            assert(fl[i] != prv);
            assert(post.hdr_size(fl[i]) == pre.hdr_size(fl[i]));
        }
    }
    assert(fv2 =~= fv.update(k, (prv, sp + sd + 1)));
}

/// Re-establishes well-formedness after freeing a block whose payload
/// ends exactly at the header of the free block at list position
/// `k + 1`: the freed block absorbed that one and took its place in the
/// list.
proof fn lemma_dealloc_merge_next_wf(pre: Allocator, post: Allocator, k: int, p: int)
    requires
        pre.wf(),
        pre.carved,
        post.carved,
        post.mem_size == pre.mem_size,
        pre.live@.dom().contains(p),
        0 <= k < pre.free_list@.len(),
        pre.free_list@[k] < p - 1,
        k + 1 < pre.free_list@.len(),
        p - 1 < pre.free_list@[k + 1],
        p + pre.live@[p] == pre.free_list@[k + 1],
        post.free_list@ == pre.free_list@.update(k + 1, p - 1),
        post.live@ == pre.live@.remove(p),
        post.blocks@.len() == pre.blocks@.len(),
        post.hdr_size(p - 1) == pre.live@[p] + pre.hdr_size(pre.free_list@[k + 1]) + 1,
        post.hdr_next(p - 1) == pre.hdr_next(pre.free_list@[k + 1]),
        post.hdr_size(pre.free_list@[k]) == pre.hdr_size(pre.free_list@[k]),
        post.hdr_next(pre.free_list@[k]) == p - 1,
        forall|x: int|
            0 <= x < pre.blocks@.len() && x != pre.free_list@[k] && x != p - 1
                ==> #[trigger] post.hdr_size(x) == pre.hdr_size(x) && post.hdr_next(x)
                == pre.hdr_next(x),
    ensures
        post.wf(),
        post.free_blocks() == pre.free_blocks().update(
            k + 1,
            (p - 1, pre.live@[p] + pre.hdr_size(pre.free_list@[k + 1]) + 1),
        ),
{
    let fl = pre.free_list@;
    let fl2 = post.free_list@;
    let prv = fl[k];
    let c = fl[k + 1];
    let sp = pre.hdr_size(prv);
    let sc = pre.hdr_size(c);
    let sd = pre.live@[p];
    let d = p - 1;

    assert(pre.live_wf_at(p));
    assert(pre.free_wf_at(k));
    assert(pre.free_wf_at(k + 1));
    lemma_live_region_between(pre, p, k);
    assert(fl2.len() == fl.len());
    assert(fl2[0] == 0) by {
        assert(k + 1 >= 1);
    }

    assert forall|i: int| 0 <= i < fl2.len() implies #[trigger] post.free_wf_at(i) by {
        assert(pre.free_wf_at(i));
        lemma_fl_in_region(pre, i);
        if i < k {
            lemma_fl_ascending(pre, i, k);
            assert(fl2[i] == fl[i] && fl[i] != prv && fl[i] != d);
            assert(post.hdr_size(fl[i]) == pre.hdr_size(fl[i]));
            assert(post.hdr_next(fl[i]) == pre.hdr_next(fl[i]));
            assert(fl2[i + 1] == fl[i + 1]);
        } else if i == k {
            assert(fl2[i] == prv);
            assert(fl2[i + 1] == d);
            assert(prv + 1 + sp <= d);
        } else if i == k + 1 {
            assert(fl2[i] == d);
            assert(d + 1 + post.hdr_size(d) == c + 1 + sc);
            if i + 1 < fl2.len() {
                assert(fl2[i + 1] == fl[i + 1]);
            }
        } else {
            lemma_fl_ascending(pre, k + 1, i);
            assert(fl2[i] == fl[i] && fl[i] != prv && fl[i] > c > d);
            assert(post.hdr_size(fl[i]) == pre.hdr_size(fl[i]));
            assert(post.hdr_next(fl[i]) == pre.hdr_next(fl[i]));
            if i + 1 < fl2.len() {
                assert(fl2[i + 1] == fl[i + 1]);
            }
        }
    }

    assert forall|q: int| #[trigger] post.live@.dom().contains(q) implies post.live_wf_at(q) by {
        assert(pre.live@.dom().contains(q) && q != p);
        assert(pre.live_wf_at(q));
        assert(q - 1 != prv) by {
            assert(q + pre.live@[q] <= prv || prv + 1 + sp <= q - 1);
        }
        assert(q - 1 != d);
    }

    assert forall|q: int, w: int|
        post.live@.dom().contains(q) && post.live@.dom().contains(w) && q != w implies q
        + post.live@[q] <= w - 1 || w + post.live@[w] <= q - 1 by {
        assert(pre.live@.dom().contains(q) && pre.live@.dom().contains(w));
    }

    assert forall|q: int, i: int|
        post.live@.dom().contains(q) && 0 <= i < fl2.len() implies q + post.live@[q]
        <= fl2[i] || fl2[i] + 1 + post.hdr_size(fl2[i]) <= q - 1 by {
        assert(pre.live@.dom().contains(q) && q != p);
        assert(pre.free_wf_at(i));
        lemma_fl_in_region(pre, i);
        assert(q + pre.live@[q] <= fl[i] || fl[i] + 1 + pre.hdr_size(fl[i]) <= q - 1);
        if i == k + 1 {
            // the merged block covers the freed region and the old block:
            // q kept clear of both
            assert(fl2[i] == d);
            assert(q + pre.live@[q] <= p - 1 || p + sd <= q - 1);
            if q + pre.live@[q] <= p - 1 {
            } else {
                assert(p + sd <= q - 1);
                assert(q - 1 >= c);
                assert(c + 1 + sc <= q - 1) by {
                    if q + pre.live@[q] <= c {
                        assert(q + pre.live@[q] <= q - 1);
                    }
                }
                assert(fl2[i] + 1 + post.hdr_size(d) == c + 1 + sc);
            }
        } else if i == k {
            assert(fl2[i] == prv);
            assert(post.hdr_size(prv) == sp);
        } else {
            if i < k {
                lemma_fl_ascending(pre, i, k);
            } else {
                lemma_fl_ascending(pre, k + 1, i);
                assert(fl[i] > c > d);
            }
            assert(fl2[i] == fl[i] && fl[i] != prv && fl[i] != d);
            assert(post.hdr_size(fl[i]) == pre.hdr_size(fl[i]));
        }
    }

    // the freed block's entry replaces the absorbed one in the view
    let fv = pre.free_blocks();
    let fv2 = post.free_blocks();
    assert forall|i: int| 0 <= i < fv2.len() implies fv2[i] == fv.update(
        k + 1,
        (d, sd + sc + 1),
    )[i] by {
        assert(pre.free_wf_at(i));
        lemma_fl_in_region(pre, i);
        assert(fv[i] == (fl[i], pre.hdr_size(fl[i])));
        if i == k + 1 {
            assert(fl2[i] == d);
            assert(fv2[i] == (d, post.hdr_size(d)));
        } else {
            assert(fl2[i] == fl[i]);
            if i < k {
                lemma_fl_ascending(pre, i, k);
            } else if i > k + 1 {
                lemma_fl_ascending(pre, k + 1, i);
                assert(fl[i] > c > d);
            }
            assert(fl[i] != d || i == k);
            if i == k {
                assert(fl[i] == prv && prv < d);
            }
            assert(fl[i] != prv || post.hdr_size(fl[i]) == pre.hdr_size(fl[i]));
            assert(post.hdr_size(fl[i]) == pre.hdr_size(fl[i]));
            assert(fv2[i] == (fl[i], post.hdr_size(fl[i])));
        }
    }
    assert(fv2 =~= fv.update(k + 1, (d, sd + sc + 1)));
}

/// Re-establishes well-formedness after freeing a block adjacent to no
/// free neighbour: it was linked in as a standalone node between list
/// positions `k` and `k + 1`.
proof fn lemma_dealloc_standalone_wf(pre: Allocator, post: Allocator, k: int, p: int)
    requires
        pre.wf(),
        pre.carved,
        post.carved,
        post.mem_size == pre.mem_size,
        pre.live@.dom().contains(p),
        0 <= k < pre.free_list@.len(),
        pre.free_list@[k] < p - 1,
        k + 1 < pre.free_list@.len() ==> p - 1 < pre.free_list@[k + 1],
        post.free_list@ == pre.free_list@.subrange(0, k + 1) + Seq::empty().push(p - 1)
            + pre.free_list@.subrange(k + 1, pre.free_list@.len() as int),
        post.live@ == pre.live@.remove(p),
        post.blocks@.len() == pre.blocks@.len(),
        post.hdr_size(p - 1) == pre.live@[p],
        post.hdr_next(p - 1) == if k + 1 < pre.free_list@.len() {
            pre.free_list@[k + 1]
        } else {
            0
        },
        post.hdr_size(pre.free_list@[k]) == pre.hdr_size(pre.free_list@[k]),
        post.hdr_next(pre.free_list@[k]) == p - 1,
        forall|x: int|
            0 <= x < pre.blocks@.len() && x != pre.free_list@[k] && x != p - 1
                ==> #[trigger] post.hdr_size(x) == pre.hdr_size(x) && post.hdr_next(x)
                == pre.hdr_next(x),
    ensures
        post.wf(),
        post.free_blocks() == pre.free_blocks().insert(k + 1, (p - 1, pre.live@[p])),
{
    let fl = pre.free_list@;
    let fl2 = post.free_list@;
    let prv = fl[k];
    let sp = pre.hdr_size(prv);
    let sd = pre.live@[p];
    let d = p - 1;

    assert(pre.live_wf_at(p));
    assert(pre.free_wf_at(k));
    lemma_live_region_between(pre, p, k);
    assert(fl2.len() == fl.len() + 1);
    assert(fl2[0] == 0) by {
        assert(fl2[0] == fl[0]);
    }

    assert forall|i: int| 0 <= i < fl2.len() implies #[trigger] post.free_wf_at(i) by {
        if i < k {
            assert(fl2[i] == fl[i] && fl2[i + 1] == fl[i + 1]);
            assert(pre.free_wf_at(i));
            lemma_fl_in_region(pre, i);
            lemma_fl_ascending(pre, i, k);
            assert(fl[i] != prv && fl[i] + 1 + pre.hdr_size(fl[i]) <= prv);
            assert(post.hdr_size(fl[i]) == pre.hdr_size(fl[i]));
            assert(post.hdr_next(fl[i]) == pre.hdr_next(fl[i]));
        } else if i == k {
            assert(fl2[i] == prv && fl2[i + 1] == d);
            assert(prv + 1 + sp <= d);
        } else if i == k + 1 {
            assert(fl2[i] == d);
            if i + 1 < fl2.len() {
                assert(fl2[i + 1] == fl[k + 1]);
                assert(d + 1 + sd <= fl[k + 1]);
            } else {
                assert(d + 1 + sd <= post.n_units());
            }
        } else {
            assert(fl2[i] == fl[i - 1]);
            assert(pre.free_wf_at(i - 1));
            lemma_fl_in_region(pre, i - 1);
            lemma_fl_ascending(pre, k, i - 1);
            if k + 1 < i - 1 {
                lemma_fl_ascending(pre, k + 1, i - 1);
            }
            assert(fl[i - 1] > prv);
            assert(fl[i - 1] >= fl[k + 1] > d);
            assert(fl[i - 1] != prv && fl[i - 1] != d);
            assert(post.hdr_size(fl[i - 1]) == pre.hdr_size(fl[i - 1]));
            assert(post.hdr_next(fl[i - 1]) == pre.hdr_next(fl[i - 1]));
            if i + 1 < fl2.len() {
                assert(fl2[i + 1] == fl[i]);
            }
        }
    }

    assert forall|q: int| #[trigger] post.live@.dom().contains(q) implies post.live_wf_at(q) by {
        assert(pre.live@.dom().contains(q) && q != p);
        assert(pre.live_wf_at(q));
        assert(q - 1 != prv) by {
            assert(q + pre.live@[q] <= prv || prv + 1 + sp <= q - 1);
        }
        assert(q - 1 != d);
    }

    assert forall|q: int, w: int|
        post.live@.dom().contains(q) && post.live@.dom().contains(w) && q != w implies q
        + post.live@[q] <= w - 1 || w + post.live@[w] <= q - 1 by {
        assert(pre.live@.dom().contains(q) && pre.live@.dom().contains(w));
    }

    assert forall|q: int, i: int|
        post.live@.dom().contains(q) && 0 <= i < fl2.len() implies q + post.live@[q]
        <= fl2[i] || fl2[i] + 1 + post.hdr_size(fl2[i]) <= q - 1 by {
        assert(pre.live@.dom().contains(q) && q != p);
        if i == k + 1 {
            // the new node is exactly the freed region, which q kept
            // clear of
            assert(fl2[i] == d);
            assert(q + pre.live@[q] <= p - 1 || p + sd <= q - 1);
        } else {
            let iold: int = if i <= k { i } else { i - 1 };
            assert(fl2[i] == fl[iold]);
            assert(pre.free_wf_at(iold));
            lemma_fl_in_region(pre, iold);
            assert(q + pre.live@[q] <= fl[iold] || fl[iold] + 1 + pre.hdr_size(fl[iold]) <= q
                - 1);
            if iold == k {
                assert(post.hdr_size(prv) == sp);
            } else {
                if iold < k {
                    lemma_fl_ascending(pre, iold, k);
                } else {
                    lemma_fl_ascending(pre, k, iold);
                    assert(fl[iold] > prv);
                    if k + 1 < iold {
                        lemma_fl_ascending(pre, k + 1, iold);
                    }
                    assert(fl[iold] >= fl[k + 1] > d);
                }
                assert(fl[iold] != prv && fl[iold] != d);
                assert(post.hdr_size(fl[iold]) == pre.hdr_size(fl[iold]));
            }
        }
    }

    // the freed block's entry joins the view between its neighbours
    let fv = pre.free_blocks();
    let fv2 = post.free_blocks();
    assert forall|i: int| 0 <= i < fv2.len() implies fv2[i] == fv.insert(
        k + 1,
        (d, sd),
    )[i] by {
        if i == k + 1 {
            assert(fl2[i] == d);
            assert(fv2[i] == (d, post.hdr_size(d)));
            assert(fv.insert(k + 1, (d, sd))[i] == (d, sd));
        } else {
            let iold: int = if i <= k {
                i
            } else {
                i - 1
            };
            assert(fl2[i] == fl[iold]);
            assert(pre.free_wf_at(iold));
            lemma_fl_in_region(pre, iold);
            assert(fv[iold] == (fl[iold], pre.hdr_size(fl[iold])));
            assert(fv.insert(k + 1, (d, sd))[i] == fv[iold]);
            if iold != k {
                if iold < k {
                    lemma_fl_ascending(pre, iold, k);
                } else {
                    lemma_fl_ascending(pre, k, iold);
                    if k + 1 < iold {
                        lemma_fl_ascending(pre, k + 1, iold);
                    }
                    assert(fl[iold] >= fl[k + 1] > d);
                }
                assert(fl[iold] != prv && fl[iold] != d);
            }
            assert(post.hdr_size(fl[iold]) == pre.hdr_size(fl[iold]));
            assert(fv2[i] == (fl[iold], post.hdr_size(fl[iold])));
        }
    }
    assert(fv2 =~= fv.insert(k + 1, (d, sd)));
}

/// Re-establishes well-formedness after an exact-fit unlink: the matched
/// block at list position `k` left the free list whole and became the
/// live block with payload `p`.
proof fn lemma_exact_unlink_wf(pre: Allocator, post: Allocator, k: int, sz: int, p: int)
    requires
        pre.wf(),
        pre.carved,
        post.carved,
        post.mem_size == pre.mem_size,
        1 <= k < pre.free_list@.len(),
        pre.free_list@[k] != 0,
        pre.hdr_size(pre.free_list@[k]) == sz,
        p == pre.free_list@[k] + 1,
        post.blocks@ == pre.blocks@.update(
            pre.free_list@[k - 1],
            Hdr {
                next: pre.blocks@[pre.free_list@[k]].next,
                size: pre.blocks@[pre.free_list@[k - 1]].size,
            },
        ),
        post.free_list@ == pre.free_list@.subrange(0, k) + pre.free_list@.subrange(
            k + 1,
            pre.free_list@.len() as int,
        ),
        post.live@ == pre.live@.insert(p, sz),
    ensures
        post.wf(),
        !pre.live@.dom().contains(p),
        2 <= p,
        p + sz <= pre.n_units(),
        post.free_blocks() == pre.free_blocks().remove(k),
{
    let fl = pre.free_list@;
    let fl2 = post.free_list@;
    let c = fl[k];
    let prv = fl[k - 1];

    assert(pre.free_wf_at(k));
    assert(pre.free_wf_at(k - 1));
    lemma_fl_ascending(pre, 0, k);
    lemma_fl_in_region(pre, k);

    // the freed-for-use region was free, so it is apart from all live blocks
    assert forall|q: int| #[trigger] pre.live@.dom().contains(q) implies q + pre.live@[q] <= c
        || c + 1 + sz <= q - 1 by {
        assert(pre.live_wf_at(q));
    }
    assert(!pre.live@.dom().contains(p)) by {
        if pre.live@.dom().contains(p) {
            assert(pre.live_wf_at(p));
        }
    }

    // headers other than the predecessor's are untouched
    assert forall|x: int| 0 <= x < pre.n_units() && x != prv implies post.hdr_size(x)
        == pre.hdr_size(x) && post.hdr_next(x) == pre.hdr_next(x) by {}
    assert(post.hdr_size(prv) == pre.hdr_size(prv));
    assert(post.hdr_next(prv) == pre.hdr_next(c));

    assert(fl2.len() == fl.len() - 1);
    assert(fl2[0] == 0);
    assert forall|i: int| 0 <= i < fl2.len() implies #[trigger] post.free_wf_at(i) by {
        if i < k - 1 {
            assert(fl2[i] == fl[i]);
            assert(fl2[i + 1] == fl[i + 1]);
            assert(pre.free_wf_at(i));
            lemma_fl_in_region(pre, i);
            lemma_fl_ascending(pre, i, k - 1);
            assert(fl[i] != prv);
            assert(post.hdr_size(fl[i]) == pre.hdr_size(fl[i]));
            assert(post.hdr_next(fl[i]) == pre.hdr_next(fl[i]));
            assert(i + 1 < fl2.len());
            assert(post.free_end(i) == fl[i + 1] && pre.free_end(i) == fl[i + 1]);
            assert(post.succ(i) == fl[i + 1] && pre.succ(i) == fl[i + 1]);
        } else if i == k - 1 {
            assert(fl2[i] == fl[k - 1]);
            assert(pre.free_wf_at(k - 1));
            assert(pre.free_wf_at(k));
            if i + 1 < fl2.len() {
                assert(fl2[i + 1] == fl[k + 1]);
                lemma_fl_ascending(pre, k, k + 1);
                assert(prv + 1 + pre.hdr_size(prv) <= fl[k]);
                assert(fl[k] < fl[k + 1]);
                assert(post.free_end(i) == fl[k + 1]);
                assert(post.succ(i) == fl[k + 1]);
                assert(pre.hdr_next(c) == pre.succ(k));
                assert(pre.succ(k) == fl[k + 1]);
            } else {
                assert(k == fl.len() - 1);
                lemma_fl_in_region(pre, k);
                assert(prv + 1 + pre.hdr_size(prv) <= fl[k]);
                assert(fl[k] <= pre.n_units());
                assert(post.free_end(i) == post.n_units());
                assert(post.succ(i) == 0);
                assert(pre.hdr_next(c) == pre.succ(k));
                assert(pre.succ(k) == 0);
            }
        } else {
            assert(fl2[i] == fl[i + 1]);
            assert(pre.free_wf_at(i + 1));
            lemma_fl_in_region(pre, i + 1);
            lemma_fl_ascending(pre, k - 1, i + 1);
            assert(fl[i + 1] != prv);
            assert(post.hdr_size(fl[i + 1]) == pre.hdr_size(fl[i + 1]));
            assert(post.hdr_next(fl[i + 1]) == pre.hdr_next(fl[i + 1]));
            if i + 1 < fl2.len() {
                assert(fl2[i + 1] == fl[i + 2]);
                assert(post.free_end(i) == fl[i + 2] && pre.free_end(i + 1) == fl[i + 2]);
                assert(post.succ(i) == fl[i + 2] && pre.succ(i + 1) == fl[i + 2]);
            } else {
                assert(i + 1 == fl.len() - 1);
                assert(post.free_end(i) == post.n_units());
                assert(pre.free_end(i + 1) == pre.n_units());
                assert(post.succ(i) == 0 && pre.succ(i + 1) == 0);
            }
        }
    }

    assert forall|q: int| #[trigger] post.live@.dom().contains(q) implies post.live_wf_at(q) by {
        if q == p {
            assert(c + 1 + sz <= pre.free_end(k));
            if k + 1 < fl.len() {
                lemma_fl_in_region(pre, k + 1);
            }
            assert(c >= prv + 1);
            assert(prv >= 0);
            assert(post.hdr_size(p - 1) == pre.hdr_size(c)) by {
                assert(c != prv) by {
                    lemma_fl_ascending(pre, k - 1, k);
                }
            }
        } else {
            assert(pre.live@.dom().contains(q));
            assert(pre.live_wf_at(q));
            // q's header is not the predecessor's record, which was relinked
            assert(q - 1 != prv) by {
                assert(pre.free_wf_at(k - 1));
            }
        }
    }

    assert forall|q: int, w: int|
        post.live@.dom().contains(q) && post.live@.dom().contains(w) && q != w implies q
        + post.live@[q] <= w - 1 || w + post.live@[w] <= q - 1 by {
        if q != p && w != p {
            assert(pre.live@.dom().contains(q));
            assert(pre.live@.dom().contains(w));
        } else if q == p {
            assert(pre.live@.dom().contains(w));
            assert(w + pre.live@[w] <= c || c + 1 + sz <= w - 1);
        } else {
            assert(pre.live@.dom().contains(q));
            assert(q + pre.live@[q] <= c || c + 1 + sz <= q - 1);
        }
    }

    assert forall|q: int, i: int|
        post.live@.dom().contains(q) && 0 <= i < fl2.len() implies q + post.live@[q]
        <= fl2[i] || fl2[i] + 1 + post.hdr_size(fl2[i]) <= q - 1 by {
        let f = fl2[i];
        let iold: int = if i < k { i } else { i + 1 };
        assert(fl[iold] == f);
        assert(pre.free_wf_at(iold));
        lemma_fl_in_region(pre, iold);
        if iold < k - 1 {
            lemma_fl_ascending(pre, iold, k - 1);
        } else if iold > k - 1 {
            lemma_fl_ascending(pre, k - 1, iold);
        }
        assert(post.hdr_size(f) == pre.hdr_size(f));
        if q == p {
            if iold < k {
                lemma_fl_ascending(pre, iold, k);
            } else {
                lemma_fl_ascending(pre, k, iold);
            }
        } else {
            assert(pre.live@.dom().contains(q));
            assert(q + pre.live@[q] <= fl[iold] || fl[iold] + 1 + pre.hdr_size(fl[iold]) <= q
                - 1);
        }
    }

    // no record's size changed, so the free store view loses exactly the
    // unlinked block's entry
    let fv = pre.free_blocks();
    let fv2 = post.free_blocks();
    assert forall|x: int| 0 <= x < pre.n_units() implies post.hdr_size(x) == pre.hdr_size(
        x,
    ) by {}
    assert forall|i: int| 0 <= i < fv2.len() implies fv2[i] == fv.remove(k)[i] by {
        let iold: int = if i < k {
            i
        } else {
            i + 1
        };
        assert(fl2[i] == fl[iold]);
        assert(pre.free_wf_at(iold));
        lemma_fl_in_region(pre, iold);
        assert(fv[iold] == (fl[iold], pre.hdr_size(fl[iold])));
        assert(fv.remove(k)[i] == fv[iold]);
        assert(fv2[i] == (fl2[i], post.hdr_size(fl2[i])));
    }
    assert(fv2 =~= fv.remove(k));
}

/// Re-establishes well-formedness after a split: the free block at list
/// position `kc` was shrunk and the allocation, with payload `p`, carved
/// from its tail.
proof fn lemma_split_wf(pre: Allocator, post: Allocator, kc: int, sz: int, p: int)
    requires
        pre.wf(),
        pre.carved,
        post.carved,
        post.mem_size == pre.mem_size,
        0 <= kc < pre.free_list@.len(),
        pre.hdr_size(pre.free_list@[kc]) > sz,
        sz >= 0,
        p == pre.free_list@[kc] + (pre.hdr_size(pre.free_list@[kc]) - sz - 1) + 2,
        post.blocks@ == pre.blocks@.update(
            pre.free_list@[kc],
            Hdr {
                next: pre.blocks@[pre.free_list@[kc]].next,
                size: (pre.hdr_size(pre.free_list@[kc]) - sz - 1) as usize,
            },
        ).update(p - 1, Hdr { next: 0, size: sz as usize }),
        post.free_list@ == pre.free_list@,
        post.live@ == pre.live@.insert(p, sz),
    ensures
        post.wf(),
        !pre.live@.dom().contains(p),
        2 <= p,
        p + sz <= pre.n_units(),
        post.free_blocks() == pre.free_blocks().update(
            kc,
            (pre.free_list@[kc], pre.hdr_size(pre.free_list@[kc]) - sz - 1),
        ),
{
    let fl = pre.free_list@;
    let c = fl[kc];
    let ns = pre.hdr_size(c) - sz - 1;
    let ab = p - 1;

    assert(pre.free_wf_at(kc));
    lemma_fl_in_region(pre, kc);
    assert(c + 1 + pre.hdr_size(c) <= pre.n_units());
    assert(ab == c + ns + 1);
    assert(ab + 1 + sz == c + 1 + pre.hdr_size(c));
    assert(c + 1 <= ab);

    // the old region of the split block is apart from all live blocks
    assert forall|q: int| #[trigger] pre.live@.dom().contains(q) implies q + pre.live@[q] <= c
        || c + 1 + pre.hdr_size(c) <= q - 1 by {
        assert(pre.live_wf_at(q));
    }
    assert(!pre.live@.dom().contains(p)) by {
        if pre.live@.dom().contains(p) {
            assert(pre.live_wf_at(p));
        }
    }

    // headers outside the split block's record and the carved header keep
    // their values
    assert forall|x: int| 0 <= x < pre.n_units() && x != c && x != ab implies post.hdr_size(x)
        == pre.hdr_size(x) && post.hdr_next(x) == pre.hdr_next(x) by {}
    assert(post.hdr_size(c) == ns && post.hdr_next(c) == pre.hdr_next(c));
    assert(post.hdr_size(ab) == sz);

    // no other free block's header lies inside the split block's region
    assert forall|i: int| 0 <= i < fl.len() && i != kc implies fl[i] != c && fl[i] != ab by {
        if i < kc {
            lemma_fl_ascending(pre, i, kc);
        } else {
            lemma_fl_ascending(pre, kc, i);
        }
    }

    assert forall|i: int| 0 <= i < fl.len() implies #[trigger] post.free_wf_at(i) by {
        assert(pre.free_wf_at(i));
        lemma_fl_in_region(pre, i);
        if i != kc {
            assert(fl[i] != c && fl[i] != ab);
            assert(post.hdr_size(fl[i]) == pre.hdr_size(fl[i]));
            assert(post.hdr_next(fl[i]) == pre.hdr_next(fl[i]));
        } else {
            assert(c + 1 + ns <= c + 1 + pre.hdr_size(c));
        }
    }

    assert forall|q: int| #[trigger] post.live@.dom().contains(q) implies post.live_wf_at(q) by {
        if q == p {
            assert(2 <= p);
        } else {
            assert(pre.live@.dom().contains(q));
            assert(pre.live_wf_at(q));
            assert(q - 1 != c);
            assert(q - 1 != ab) by {
                assert(q + pre.live@[q] <= c || c + 1 + pre.hdr_size(c) <= q - 1);
            }
        }
    }

    assert forall|q: int, w: int|
        post.live@.dom().contains(q) && post.live@.dom().contains(w) && q != w implies q
        + post.live@[q] <= w - 1 || w + post.live@[w] <= q - 1 by {
        if q != p && w != p {
            assert(pre.live@.dom().contains(q));
            assert(pre.live@.dom().contains(w));
        } else if q == p {
            assert(pre.live@.dom().contains(w));
            assert(w + pre.live@[w] <= c || c + 1 + pre.hdr_size(c) <= w - 1);
        } else {
            assert(pre.live@.dom().contains(q));
            assert(q + pre.live@[q] <= c || c + 1 + pre.hdr_size(c) <= q - 1);
        }
    }

    assert forall|q: int, i: int|
        post.live@.dom().contains(q) && 0 <= i < fl.len() implies q + post.live@[q]
        <= fl[i] || fl[i] + 1 + post.hdr_size(fl[i]) <= q - 1 by {
        assert(pre.free_wf_at(i));
        lemma_fl_in_region(pre, i);
        if i != kc {
            assert(fl[i] != c && fl[i] != ab);
            assert(post.hdr_size(fl[i]) == pre.hdr_size(fl[i]));
        }
        if q == p {
            if i == kc {
                assert(c + 1 + ns == ab);
            } else if i < kc {
                lemma_fl_ascending(pre, i, kc);
            } else {
                lemma_fl_ascending(pre, kc, i);
            }
        } else {
            assert(pre.live@.dom().contains(q));
            assert(q + pre.live@[q] <= fl[i] || fl[i] + 1 + pre.hdr_size(fl[i]) <= q - 1);
            if i == kc {
                assert(c + 1 + ns <= c + 1 + pre.hdr_size(c));
            }
        }
    }

    // only the split block's entry shrinks in the free store view: the
    // carved header lies inside its old region, not at any listed block
    let fv = pre.free_blocks();
    let fv2 = post.free_blocks();
    assert forall|i: int| 0 <= i < fv2.len() implies fv2[i] == fv.update(
        kc,
        (c, ns),
    )[i] by {
        assert(pre.free_wf_at(i));
        lemma_fl_in_region(pre, i);
        assert(fv[i] == (fl[i], pre.hdr_size(fl[i])));
        assert(fv2[i] == (fl[i], post.hdr_size(fl[i])));
        if i != kc {
            assert(fl[i] != c && fl[i] != ab);
            assert(post.hdr_size(fl[i]) == pre.hdr_size(fl[i]));
        } else {
            assert(post.hdr_size(c) == ns);
        }
    }
    assert(fv2 =~= fv.update(kc, (c, ns)));
}

/// The linear scan of the free store and `find_fit` agree: when every
/// block in positions `j..k` is too small, the scan's outcome at `k` is
/// `find_fit`'s.
proof fn lemma_find_fit_from_scan(fv: Seq<(int, int)>, sz: int, j: int, k: int)
    requires
        1 <= j <= k <= fv.len(),
        forall|i: int| j <= i < k ==> (#[trigger] fv[i]).1 < sz,
        k < fv.len() ==> fv[k].1 >= sz,
    ensures
        find_fit(fv, sz, j) == if k < fv.len() {
            k
        } else {
            fv.len() as int
        },
    decreases k - j,
{
    if j < k {
        lemma_find_fit_from_scan(fv, sz, j + 1, k);
    }
}

/// The address-ordered walk and `pred_pos` agree: when the addresses
/// ascend and `d` falls between positions `k` and `k + 1`, `pred_pos`
/// names `k`.
proof fn lemma_pred_pos_from_walk(fv: Seq<(int, int)>, d: int, k: int)
    requires
        forall|i: int, j: int|
            0 <= i < j < fv.len() ==> (#[trigger] fv[i]).0 < (#[trigger] fv[j]).0,
        0 <= k < fv.len(),
        fv[k].0 < d,
        k + 1 < fv.len() ==> d < fv[k + 1].0,
    ensures
        pred_pos(fv, d) == k,
    decreases fv.len(),
{
    if fv.len() <= 1 {
    } else if k == fv.len() - 1 {
    } else {
        assert(fv.last().0 > d) by {
            if k + 1 < fv.len() - 1 {
                assert(fv[k + 1].0 < fv[fv.len() - 1].0);
            }
        }
        assert forall|i: int, j: int|
            0 <= i < j < fv.drop_last().len() implies (#[trigger] fv.drop_last()[i]).0 < (
        #[trigger] fv.drop_last()[j]).0 by {
            assert(fv.drop_last()[i] == fv[i] && fv.drop_last()[j] == fv[j]);
        }
        lemma_pred_pos_from_walk(fv.drop_last(), d, k);
    }
}

/// Serves an allocation through the process-wide allocator lock: only
/// one allocation or free may proceed at a time system-wide, so the
/// caller must not already hold the lock.
pub fn allocate(glob_alloc: &mut Mutex<Allocator>, size: usize) -> (r: Option<usize>)
    requires
        !old(glob_alloc).is_locked(),
        old(glob_alloc).guarded_val().wf(),
        size <= usize::MAX - 7,
    ensures
        !final(glob_alloc).is_locked(),
        final(glob_alloc).guarded_val().wf(),
        final(glob_alloc).guarded_val().n_units() == old(glob_alloc).guarded_val().n_units(),
        r is Some <==> old(glob_alloc).guarded_val().can_fit(size as int),
        match r {
            Some(p) => {
                &&& 2 <= p
                &&& p + units_of(size as int) <= final(glob_alloc).guarded_val().n_units()
                &&& !old(glob_alloc).guarded_val().live_blocks().dom().contains(p as int)
                &&& final(glob_alloc).guarded_val().live_blocks() == old(glob_alloc).guarded_val().live_blocks().insert(p as int, units_of(size as int))
                &&& p == alloc_result(
                    old(glob_alloc).guarded_val().free_blocks(),
                    units_of(size as int),
                )
                &&& final(glob_alloc).guarded_val().free_blocks() == free_after_alloc(
                    old(glob_alloc).guarded_val().free_blocks(),
                    units_of(size as int),
                )
            },
            None => final(glob_alloc).guarded_val().live_blocks() == old(glob_alloc).guarded_val().live_blocks() && final(glob_alloc).guarded_val().free_blocks() == old(glob_alloc).guarded_val().free_blocks(),
        },
{
    let _guard = glob_alloc.lock();
    let mut a = glob_alloc.replace_guarded(Allocator::new(0));
    let r = a.allocate(size);
    let _ = glob_alloc.replace_guarded(a);
    glob_alloc.unlock();
    r
}

/// Returns a block through the process-wide allocator lock; the caller
/// must not already hold the lock.
pub fn dealloc(glob_alloc: &mut Mutex<Allocator>, p: usize)
    requires
        !old(glob_alloc).is_locked(),
        old(glob_alloc).guarded_val().wf(),
        old(glob_alloc).guarded_val().live_blocks().dom().contains(p as int),
    ensures
        !final(glob_alloc).is_locked(),
        final(glob_alloc).guarded_val().wf(),
        final(glob_alloc).guarded_val().n_units() == old(glob_alloc).guarded_val().n_units(),
        final(glob_alloc).guarded_val().live_blocks() == old(glob_alloc).guarded_val().live_blocks().remove(p as int),
        final(glob_alloc).guarded_val().free_blocks() == free_after_dealloc(
            old(glob_alloc).guarded_val().free_blocks(),
            p - 1,
            old(glob_alloc).guarded_val().live_blocks()[p as int],
        ),
        forall|s: int|
            0 <= s && units_of(s) <= old(glob_alloc).guarded_val().live_blocks()[p as int]
                ==> final(glob_alloc).guarded_val().can_fit(s),
{
    let _guard = glob_alloc.lock();
    let mut a = glob_alloc.replace_guarded(Allocator::new(0));
    a.dealloc(p);
    let _ = glob_alloc.replace_guarded(a);
    glob_alloc.unlock();
}

/// Distinct blocks handed out by the allocator and still live never
/// overlap; even their header units are disjoint.
pub proof fn lemma_live_blocks_disjoint(a: Allocator, p: int, q: int)
    requires
        a.wf(),
        a.live_blocks().dom().contains(p),
        a.live_blocks().dom().contains(q),
        p != q,
    ensures
        p + a.live_blocks()[p] <= q - 1 || q + a.live_blocks()[q] <= p - 1,
{
}

} // verus!
