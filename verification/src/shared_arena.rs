//! The shared arena.
//!
//! In a concurrent setting this is the flavour whose every word is atomic:
//! allocators race on the page bitfields, droppers feed a pending-free list,
//! and rare batch work (page creation, shrinking) is serialised by a
//! single-writer token.  Verified here is the engine those races are built
//! around, in its sequential shape, where the token degenerates: the page
//! store, the full/free/pending list discipline, the bitfield protocol with
//! its reserved arena bit, the handle counters, and the shrink protocol
//! with its deferred-drop buffer.

use vstd::prelude::*;

verus! {

use crate::arena_arc::ArenaArc;
use crate::arena_box::ArenaBox;
use crate::arena_rc::ArenaRc;
use crate::bits::count_free;
use crate::bits::free_user;
use crate::bits::nth_bit;
use crate::bits_sum::sum_free;
use crate::bits_sum::sum_where;
use crate::block::PageKind;
use crate::block::PageTaggedPtr;
use crate::common::BLOCK_PER_PAGE;
use crate::common::DEALLOC_BITFIELD;
use crate::common::FRESH_BITFIELD;
use crate::common::MASK_ARENA_BIT;
use crate::common::MAX_PAGES;
use crate::common::MAX_PAGE_BATCH;
use crate::page::shared_arena::PageSharedArena;

/// How many pending-to-free moves the allocation path waits before the
/// pages parked by a shrink are really deallocated.
const DELAY_DROP_SHRINK: u16 = 10;

/// An arena whose handles may be shared.
///
/// The arena owns a page store and threads the pages into three lists of
/// page numbers: the full list (every page it references), the free list
/// (pages believed to have a free block), and the pending-free list (pages
/// the drop side re-suggests after the free list was seen empty).  Pages
/// removed by a shrink are parked in a deferred-drop buffer and either
/// reused by a later allocation or deallocated once the delay counter runs
/// out.
///
/// Handles ([`ArenaBox`], [`ArenaArc`], [`ArenaRc`]) are tagged
/// back-pointers into the store; they are read, cloned and given back
/// through the arena value that issued them.  The arena can be released
/// while handles are still outstanding: each page then survives until its
/// last block is dropped.
#[derive(Debug)]
pub struct SharedArena<T: Sized> {
    pages: Vec<PageSharedArena<T>>,
    free_list: Vec<usize>,
    pending_free_list: Vec<usize>,
    full_list: Vec<usize>,
    npages: usize,
    to_free: Option<Vec<usize>>,
    to_free_delay: u16,
    released: bool,
}

impl<T> SharedArena<T> {
    /// The bitfield of every page in the store.
    pub closed spec fn bfs(&self) -> Seq<u64> {
        self.pages@.map(|i: int, p: PageSharedArena<T>| p.bf())
    }

    /// Page numbers of the full list.
    pub closed spec fn spec_full(&self) -> Seq<usize> {
        self.full_list@
    }

    /// Page numbers of the free list.
    pub closed spec fn spec_free(&self) -> Seq<usize> {
        self.free_list@
    }

    /// Page numbers of the pending-free list.
    pub closed spec fn spec_pending(&self) -> Seq<usize> {
        self.pending_free_list@
    }

    /// Number of pages the arena references.
    pub closed spec fn spec_npages(&self) -> int {
        self.npages as int
    }

    /// Number of pages in the store, dead ones included.
    pub closed spec fn store_len(&self) -> int {
        self.pages.len() as int
    }

    /// Whether the arena has been released (its owner dropped it).
    pub closed spec fn is_released(&self) -> bool {
        self.released
    }

    /// Whether a shrink has parked pages that are not yet deallocated.
    pub closed spec fn has_deferred(&self) -> bool {
        self.to_free is Some
    }

    /// Reference count of block `j` of page `i`.
    pub closed spec fn block_counter(&self, i: int, j: int) -> int {
        self.pages@[i].blocks[j].counter as int
    }

    /// Tagged back-pointer of block `j` of page `i`.
    pub closed spec fn block_tag(&self, i: int, j: int) -> PageTaggedPtr {
        self.pages@[i].blocks[j].page
    }

    /// Number of blocks of page `i` that handles reference.
    pub closed spec fn page_handles_held(&self, i: int) -> int {
        self.pages@[i].handles_held(BLOCK_PER_PAGE as int)
    }

    /// Whether page `i` is parked in the deferred-drop buffer.
    pub closed spec fn in_to_free(&self, i: usize) -> bool {
        match self.to_free {
            Some(v) => v@.contains(i),
            None => false,
        }
    }

    /// A list of page numbers is sound: no duplicates, every entry a live
    /// page of the store.
    pub closed spec fn list_ok(&self, l: Seq<usize>) -> bool {
        &&& l.no_duplicates()
        &&& forall|k: int|
            0 <= k < l.len() ==> (#[trigger] l[k]) < self.pages.len()
                && self.pages@[l[k] as int].live
    }

    /// Every live page is strict: its block bits match its counters and
    /// stored values exactly.
    spec fn all_strict(&self) -> bool {
        forall|i: int|
            0 <= i < self.pages@.len() && self.pages@[i].live ==> (#[trigger] self.pages@[
                i
            ]).strict()
    }

    /// The first `n` pages' block arrays agree with `other`'s.
    spec fn same_blocks_below(&self, other: &Self, n: int) -> bool {
        forall|i: int|
            0 <= i < n ==> (#[trigger] self.pages@[i]).blocks == other.pages@[i].blocks
    }

    /// The arena invariant.
    ///
    /// It carries the page-level discipline (every live page strict: block
    /// bits match counters and stored values; every back-pointer names its
    /// page, slot and kind), the list discipline (free and pending are
    /// disjoint sublists of full, which the page count equals, and the
    /// `in_free_list` flags mirror membership), the arena-bit discipline (a
    /// live page's arena bit is set exactly while the arena references it),
    /// and the accounting facts the statistics rest on (pending pages have
    /// a free block; drained pages have none; parked pages are empty).
    pub closed spec fn wf(&self) -> bool {
        &&& self.wf_core()
        &&& self.all_strict()
    }

    /// The invariant with one slot in flight: everything in [`Self::wf`]
    /// holds but for slot `j` of live page `i`, whose bit is clear while
    /// its block is still empty.
    pub closed spec fn wf_open_slot(&self, i: int, j: int) -> bool {
        &&& self.wf_core()
        &&& 0 <= i < self.pages@.len()
        &&& self.pages@[i].live
        &&& self.pages@[i].strict_except(j)
        &&& forall|i2: int|
            0 <= i2 < self.pages@.len() && self.pages@[i2].live && i2 != i ==> (
            #[trigger] self.pages@[i2]).strict()
    }

    /// All of the invariant except the per-block strictness of live pages.
    spec fn wf_core(&self) -> bool {
        self.wf_orphans(Seq::<usize>::empty())
    }

    /// The core invariant, relaxed to tolerate a batch of orphan pages:
    /// live pages with the arena bit set that no list mentions yet, as they
    /// stand between being made (or taken back from the deferred-drop
    /// buffer) and being threaded into the lists.
    spec fn wf_orphans(&self, orphans: Seq<usize>) -> bool {
        let pages = self.pages@;
        &&& pages.len() <= MAX_PAGES
        &&& forall|i: int|
            0 <= i < pages.len() ==> (#[trigger] pages[i]).blocks.len() == BLOCK_PER_PAGE
                && pages[i].tags_ok(i)
        &&& self.list_ok(self.full_list@)
        &&& self.list_ok(self.free_list@)
        &&& self.list_ok(self.pending_free_list@)
        &&& forall|i: usize|
            self.free_list@.contains(i) ==> self.full_list@.contains(i)
                && !self.pending_free_list@.contains(i)
        &&& forall|i: usize| self.pending_free_list@.contains(i) ==> self.full_list@.contains(i)
        &&& self.npages == self.full_list@.len()
        &&& match self.to_free {
            Some(v) => {
                &&& !self.released
                &&& v@.len() >= 1
                &&& v@.no_duplicates()
                &&& forall|k: int|
                    0 <= k < v@.len() ==> (#[trigger] v@[k]) < pages.len()
                        && pages[v@[k] as int].live && pages[v@[k] as int].bf() == FRESH_BITFIELD
                        && !self.full_list@.contains(v@[k])
            },
            None => true,
        }
        &&& self.released ==> self.free_list@.len() == 0 && self.pending_free_list@.len() == 0
            && self.full_list@.len() == 0 && self.to_free is None
        &&& forall|i: usize| self.full_list@.contains(i) ==> !self.in_to_free(i)
        &&& forall|i: int|
            0 <= i < pages.len() && (#[trigger] pages[i]).live ==> (nth_bit(pages[i].bf(), 63)
                <==> (self.full_list@.contains(i as usize) || self.in_to_free(i as usize)
                || orphans.contains(i as usize)))
        &&& !self.released ==> forall|i: int|
            0 <= i < pages.len() && (#[trigger] pages[i]).live ==> (self.full_list@.contains(
                i as usize,
            ) || self.in_to_free(i as usize) || orphans.contains(i as usize))
        &&& forall|i: usize|
            self.full_list@.contains(i) ==> (self.pages@[i as int].in_free_list == (
            self.free_list@.contains(i) || self.pending_free_list@.contains(i)))
        &&& forall|i: usize|
            self.pending_free_list@.contains(i) ==> free_user(self.pages@[i as int].bf()) >= 1
        &&& forall|i: usize|
            self.full_list@.contains(i) && !self.free_list@.contains(i)
                && !self.pending_free_list@.contains(i) ==> free_user(self.pages@[i as int].bf())
                == 0
        &&& self.to_free_delay <= DELAY_DROP_SHRINK
    }

    /// Free blocks as the statistics report them: summed over the free and
    /// pending-free lists.
    pub closed spec fn spec_stats_free(&self) -> int {
        sum_free(self.bfs(), self.free_list@) + sum_free(self.bfs(), self.pending_free_list@)
    }

    /// Used blocks as the statistics report them.
    pub closed spec fn spec_stats_used(&self) -> int {
        self.npages * BLOCK_PER_PAGE - self.spec_stats_free()
    }

    /// Whether a tag names a live block location of this arena's own kind.
    pub closed spec fn tag_in_range(&self, tag: PageTaggedPtr) -> bool {
        &&& tag.spec_kind_bits() == PageKind::SharedArena.code()
        &&& tag.spec_page_ptr() < self.pages.len()
        &&& tag.spec_index_block() < BLOCK_PER_PAGE
        &&& self.pages@[tag.spec_page_ptr() as int].live
    }

    /// The reference count of the block a tag names.
    pub closed spec fn counter_of(&self, tag: PageTaggedPtr) -> int {
        self.pages@[tag.spec_page_ptr() as int].blocks@[tag.spec_index_block() as int].counter
            as int
    }

    /// The value stored in the block a tag names.
    pub closed spec fn stored_at(&self, tag: PageTaggedPtr) -> Option<T> {
        self.pages@[tag.spec_page_ptr() as int].blocks@[tag.spec_index_block() as int].value
    }

    /// An owning handle is valid for this arena: it points at a live block
    /// of the arena, holding a value, with a count of exactly one.
    pub closed spec fn box_valid(&self, h: &ArenaBox<T>) -> bool {
        &&& self.tag_in_range(h.spec_tag())
        &&& self.counter_of(h.spec_tag()) == 1
        &&& self.stored_at(h.spec_tag()) is Some
    }

    /// A shared handle is valid for this arena: it points at a live block
    /// of the arena, holding a value, with a positive count.
    pub closed spec fn arc_valid(&self, h: &ArenaArc<T>) -> bool {
        &&& self.tag_in_range(h.spec_tag())
        &&& self.counter_of(h.spec_tag()) >= 1
        &&& self.stored_at(h.spec_tag()) is Some
    }

    /// A single-thread shared handle is valid for this arena.
    pub closed spec fn rc_valid(&self, h: &ArenaRc<T>) -> bool {
        &&& self.tag_in_range(h.spec_tag())
        &&& self.counter_of(h.spec_tag()) >= 1
        &&& self.stored_at(h.spec_tag()) is Some
    }

    /// Whether page `i` of the store is still allocated.
    pub closed spec fn page_live(&self, i: int) -> bool {
        0 <= i < self.pages@.len() && self.pages@[i].live
    }

    /// Every handle that was valid for `other` is still valid here, with
    /// the same count and the same stored value.
    pub closed spec fn preserves_handles_of(&self, other: &Self) -> bool {
        forall|t: PageTaggedPtr|
            other.tag_in_range(t) && #[trigger] other.counter_of(t) >= 1 ==> self.tag_in_range(t)
                && self.counter_of(t) == other.counter_of(t) && self.stored_at(t)
                == other.stored_at(t)
    }

    /// Every handle that was valid for `other`, other than the one carrying
    /// tag `t0`, is still valid here with the same count and value.
    pub closed spec fn preserves_other_handles(&self, other: &Self, t0: PageTaggedPtr) -> bool {
        forall|t: PageTaggedPtr|
            other.tag_in_range(t) && #[trigger] other.counter_of(t) >= 1 && t != t0
                ==> self.tag_in_range(t) && self.counter_of(t) == other.counter_of(t)
                && self.stored_at(t) == other.stored_at(t)
    }

    /// How many pages an allocation adds when it finds every listed slot
    /// taken: the pages parked by a shrink are reinserted, as many as the
    /// doubling strategy would grow by; otherwise a fresh batch of that
    /// size is made, capped at [`MAX_PAGE_BATCH`].
    pub closed spec fn growth_amount(&self) -> int {
        let base = if self.npages < 1 {
            1int
        } else {
            self.npages as int
        };
        match self.to_free {
            Some(v) => if v@.len() <= base {
                v@.len() as int
            } else {
                base
            },
            None => if base <= MAX_PAGE_BATCH {
                base
            } else {
                MAX_PAGE_BATCH as int
            },
        }
    }

    /// The free list ends in a page with at least one free block.
    spec fn free_head_has_space(&self) -> bool {
        &&& self.free_list@.len() >= 1
        &&& free_user(self.bfs()[self.free_list@.last() as int]) >= 1
    }

    /// Constructs a new `SharedArena` able to hold at least `cap` values.
    ///
    /// The arena allocates by pages of [`BLOCK_PER_PAGE`] values, so the
    /// page count is `cap` divided by the page size, rounded up (at least
    /// one page), and every slot starts free.
    pub fn with_capacity(cap: usize) -> (r: SharedArena<T>)
        requires
            cap <= BLOCK_PER_PAGE * MAX_PAGES,
        ensures
            r.wf(),
            !r.is_released(),
            !r.has_deferred(),
            r.spec_npages() == crate::common::pages_for_capacity(cap as int),
            r.spec_stats_used() == 0,
            r.spec_stats_free() == r.spec_npages() * BLOCK_PER_PAGE,
            r.spec_full().len() == r.spec_npages(),
            r.spec_free().len() == r.spec_npages(),
            r.spec_pending().len() == 0,
            r.store_len() == r.spec_npages(),
            forall|x: usize| r.spec_full().contains(x) == ((x as int) < r.spec_npages()),
            forall|x: usize| r.spec_free().contains(x) == ((x as int) < r.spec_npages()),
            forall|i: int| 0 <= i < r.store_len() ==> r.page_live(i),
            forall|i: int, j: int|
                0 <= i < r.store_len() && 0 <= j < BLOCK_PER_PAGE ==> r.block_counter(i, j) == 0,
    {
        let cap1: usize = if cap < 1 {
            1
        } else {
            cap
        };
        proof {
            assert((cap1 - 1) / 63 + 1 <= MAX_PAGES && (cap1 - 1) / 63 + 1 >= 1) by (nonlinear_arith)
                requires
                    1 <= cap1 <= 63 * 0x0100_0000usize,
            ;
        }
        let npages = ((cap1 - 1) / BLOCK_PER_PAGE) + 1;
        let mut pages: Vec<PageSharedArena<T>> = Vec::new();
        let (_first, _last) = PageSharedArena::make_list(npages, &mut pages);
        let mut free_list: Vec<usize> = Vec::new();
        let mut full_list: Vec<usize> = Vec::new();
        let ghost bfs = pages@.map(|i: int, p: PageSharedArena<T>| p.bf());
        let mut i: usize = 0;
        while i < npages
            invariant
                i <= npages,
                pages.len() == npages,
                bfs == pages@.map(|k: int, p: PageSharedArena<T>| p.bf()),
                forall|k: int| 0 <= k < npages ==> (#[trigger] pages@[k]).is_fresh(k),
                free_list@.len() == i,
                full_list@.len() == i,
                forall|k: int| 0 <= k < i ==> (#[trigger] free_list@[k]) == k,
                forall|k: int| 0 <= k < i ==> (#[trigger] full_list@[k]) == k,
                sum_free(bfs, free_list@) == 63 * i,
            decreases npages - i,
        {
            proof {
                crate::bits_sum::lemma_sum_free_push(bfs, free_list@, i);
                assert(bfs[i as int] == pages@[i as int].bf());
                crate::bits::lemma_special_bitfields(FRESH_BITFIELD);
                crate::bits::lemma_count_extremes(FRESH_BITFIELD, 63);
                assert(free_user(FRESH_BITFIELD) == 63);
            }
            free_list.push(i);
            full_list.push(i);
            i += 1;
        }
        let r = SharedArena {
            pages,
            free_list,
            pending_free_list: Vec::new(),
            full_list,
            npages,
            to_free: None,
            to_free_delay: DELAY_DROP_SHRINK,
            released: false,
        };
        proof {
            assert(r.free_list@.no_duplicates());
            assert(r.full_list@.no_duplicates());
            assert forall|x: usize| r.free_list@.contains(x) implies r.full_list@.contains(x) by {
                let k = choose|k: int| 0 <= k < r.free_list@.len() && r.free_list@[k] == x;
                assert(r.full_list@[k] == x);
            }
            assert forall|x: usize| r.full_list@.contains(x) implies x < npages
                && r.free_list@.contains(x) by {
                let k = choose|k: int| 0 <= k < r.full_list@.len() && r.full_list@[k] == x;
                assert(r.free_list@[k] == x);
            }
            assert forall|i0: int|
                0 <= i0 < r.pages@.len() && r.pages@[i0].live implies nth_bit(
                r.pages@[i0].bf(),
                63,
            ) && r.full_list@.contains(i0 as usize) by {
                assert(r.pages@[i0].is_fresh(i0));
                assert(r.full_list@[i0] == i0 as usize);
                crate::bits::lemma_special_bitfields(r.pages@[i0].bf());
            }
            assert(r.wf());
            assert(r.spec_stats_free() == 63 * npages);
            assert forall|x: usize| r.spec_full().contains(x) == ((x as int) < r.spec_npages())
                && r.spec_free().contains(x) == ((x as int) < r.spec_npages()) by {
                if r.full_list@.contains(x) {
                    let k = choose|k: int| 0 <= k < r.full_list@.len() && r.full_list@[k] == x;
                }
                if r.free_list@.contains(x) {
                    let k = choose|k: int| 0 <= k < r.free_list@.len() && r.free_list@[k] == x;
                }
                if (x as int) < npages {
                    assert(r.full_list@[x as int] == x);
                    assert(r.free_list@[x as int] == x);
                }
            }
            assert forall|i0: int, j0: int|
                0 <= i0 < r.store_len() && 0 <= j0 < BLOCK_PER_PAGE implies r.block_counter(
                i0,
                j0,
            ) == 0 by {
                assert(r.pages@[i0].is_fresh(i0));
                crate::bits::lemma_special_bitfields(r.pages@[i0].bf());
                assert(nth_bit(r.pages@[i0].bf(), j0 as u64));
                assert(r.pages@[i0].blocks[j0].is_free_state());
            }
        }
        r
    }

    /// Constructs a new `SharedArena` holding one page of
    /// [`BLOCK_PER_PAGE`] free slots.
    pub fn new() -> (r: SharedArena<T>)
        ensures
            r.wf(),
            !r.is_released(),
            !r.has_deferred(),
            r.spec_npages() == 1,
            r.spec_stats_used() == 0,
            r.spec_stats_free() == BLOCK_PER_PAGE as int,
            r.spec_full().len() == 1,
            r.spec_free().len() == 1,
            r.spec_pending().len() == 0,
            r.store_len() == 1,
            forall|x: usize| r.spec_full().contains(x) == (x == 0),
            forall|x: usize| r.spec_free().contains(x) == (x == 0),
            forall|i: int| 0 <= i < r.store_len() ==> r.page_live(i),
            forall|i: int, j: int|
                0 <= i < r.store_len() && 0 <= j < BLOCK_PER_PAGE ==> r.block_counter(i, j) == 0,
    {
        Self::with_capacity(BLOCK_PER_PAGE)
    }

    /// Lengths of the full, free and pending-free lists, in that order.
    pub fn size_lists(&self) -> (r: (usize, usize, usize))
        ensures
            r.0 == self.spec_full().len(),
            r.1 == self.spec_free().len(),
            r.2 == self.spec_pending().len(),
    {
        (self.full_list.len(), self.free_list.len(), self.pending_free_list.len())
    }

    /// Returns `(used, free)`: how many blocks handles currently occupy,
    /// and how many more the arena's pages could hold, counted over the
    /// free and pending-free lists.  Their sum is the page count times the
    /// page size.
    pub fn stats(&self) -> (r: (usize, usize))
        requires
            self.wf(),
            !self.is_released(),
        ensures
            r.0 == self.spec_stats_used(),
            r.1 == self.spec_stats_free(),
            r.0 + r.1 == self.spec_npages() * BLOCK_PER_PAGE,
    {
        proof {
            crate::bits_sum::lemma_nodup_len_bound(self.free_list@, self.pages.len() as int);
            crate::bits_sum::lemma_nodup_len_bound(
                self.pending_free_list@,
                self.pages.len() as int,
            );
            crate::bits_sum::lemma_nodup_len_bound(self.full_list@, self.pages.len() as int);
        }
        let mut free: usize = 0;
        let ghost bfs = self.bfs();
        let mut k: usize = 0;
        while k < self.free_list.len()
            invariant
                self.wf(),
                bfs == self.bfs(),
                k <= self.free_list@.len(),
                self.free_list@.len() <= MAX_PAGES,
                free == sum_free(bfs, self.free_list@.take(k as int)),
                free <= 63 * k,
            decreases self.free_list@.len() - k,
        {
            let i = self.free_list[k];
            let c = count_free(self.pages[i].bitfield.0);
            proof {
                assert(self.free_list@.take(k + 1).drop_last() =~= self.free_list@.take(k as int));
                assert(self.free_list@.take(k + 1).last() == self.free_list@[k as int]);
                assert(bfs[i as int] == self.pages@[i as int].bf());
                crate::bits::lemma_count_set_bounds(self.pages@[i as int].bf(), 63);
            }
            free = free + c as usize;
            k += 1;
        }
        proof {
            assert(self.free_list@.take(self.free_list@.len() as int) =~= self.free_list@);
        }
        let mut pending_free: usize = 0;
        let mut k2: usize = 0;
        while k2 < self.pending_free_list.len()
            invariant
                self.wf(),
                bfs == self.bfs(),
                k2 <= self.pending_free_list@.len(),
                self.pending_free_list@.len() <= MAX_PAGES,
                pending_free == sum_free(bfs, self.pending_free_list@.take(k2 as int)),
                pending_free <= 63 * k2,
            decreases self.pending_free_list@.len() - k2,
        {
            let i = self.pending_free_list[k2];
            let c = count_free(self.pages[i].bitfield.0);
            proof {
                assert(self.pending_free_list@.take(k2 + 1).drop_last()
                    =~= self.pending_free_list@.take(k2 as int));
                assert(self.pending_free_list@.take(k2 + 1).last() == self.pending_free_list@[
                    k2 as int
                ]);
                assert(bfs[i as int] == self.pages@[i as int].bf());
                crate::bits::lemma_count_set_bounds(self.pages@[i as int].bf(), 63);
            }
            pending_free = pending_free + c as usize;
            k2 += 1;
        }
        proof {
            assert(self.pending_free_list@.take(self.pending_free_list@.len() as int)
                =~= self.pending_free_list@);
            self.lemma_stats_free_le_total();
            assert(self.npages == self.full_list@.len());
        }
        let total_free = free + pending_free;
        let used = self.npages * BLOCK_PER_PAGE - total_free;
        (used, total_free)
    }

    /// The free blocks the statistics count never exceed the arena's whole
    /// capacity: the free and pending lists are disjoint sublists of the
    /// full list, and every other full-list page is drained.
    proof fn lemma_stats_free_le_total(&self)
        requires
            self.wf(),
        ensures
            0 <= self.spec_stats_free() <= self.spec_npages() * BLOCK_PER_PAGE,
    {
        let bfs = self.bfs();
        let n = bfs.len() as int;
        let pfree = |i: int| self.free_list@.contains(i as usize);
        let ppend = |i: int| self.pending_free_list@.contains(i as usize);
        let pfull = |i: int| self.full_list@.contains(i as usize);
        let peither = |i: int| self.free_list@.contains(i as usize)
            || self.pending_free_list@.contains(i as usize);
        let pdrained = |i: int| self.full_list@.contains(i as usize) && !(
        self.free_list@.contains(i as usize) || self.pending_free_list@.contains(i as usize));
        crate::bits_sum::lemma_sum_list_eq_where(bfs, self.free_list@);
        crate::bits_sum::lemma_sum_list_eq_where(bfs, self.pending_free_list@);
        crate::bits_sum::lemma_sum_list_eq_where(bfs, self.full_list@);
        crate::bits_sum::lemma_sum_where_split(bfs, peither, pfree, ppend, n);
        crate::bits_sum::lemma_sum_where_split(bfs, pfull, peither, pdrained, n);
        crate::bits_sum::lemma_sum_where_zero(bfs, pdrained, n);
        crate::bits_sum::lemma_sum_free_bounds(bfs, self.full_list@);
        crate::bits_sum::lemma_sum_free_bounds(bfs, self.free_list@);
        crate::bits_sum::lemma_sum_free_bounds(bfs, self.pending_free_list@);
    }

    /// Splice a batch of orphan pages into the full list and the (empty)
    /// free list, head-inserting the batch chain, and account for them.
    fn put_pages_in_lists(&mut self, batch: Vec<usize>)
        requires
            old(self).wf_orphans(batch@),
            old(self).all_strict(),
            !old(self).is_released(),
            batch@.len() >= 1,
            batch@.no_duplicates(),
            forall|k: int|
                0 <= k < batch@.len() ==> (#[trigger] batch@[k]) < old(self).pages@.len() && old(
                    self,
                ).pages@[batch@[k] as int].live && old(self).pages@[batch@[k] as int].bf()
                    == FRESH_BITFIELD && old(self).pages@[batch@[k] as int].in_free_list && !old(
                    self,
                ).full_list@.contains(batch@[k]) && !old(self).in_to_free(batch@[k]),
            old(self).spec_free().len() == 0,
            old(self).spec_pending().len() == 0,
        ensures
            final(self).wf(),
            !final(self).is_released(),
            final(self).pages == old(self).pages,
            final(self).spec_npages() == old(self).spec_npages() + batch@.len(),
            final(self).spec_pending() == old(self).spec_pending(),
            final(self).spec_free() == batch@,
            final(self).spec_full() == old(self).spec_full() + batch@,
            final(self).has_deferred() == old(self).has_deferred(),
            final(self).spec_stats_free() == 63 * batch@.len(),
            final(self).preserves_handles_of(old(self)),
            final(self).free_head_has_space(),
            final(self).store_len() == old(self).store_len(),
    {
        proof {
            crate::bits_sum::lemma_nodup_len_bound(self.full_list@, self.pages.len() as int);
            crate::bits_sum::lemma_nodup_len_bound(batch@, self.pages.len() as int);
            crate::bits::lemma_special_bitfields(FRESH_BITFIELD);
            crate::bits::lemma_count_extremes(FRESH_BITFIELD, 63);
        }
        let ghost bfs = self.bfs();
        let n = batch.len();
        let mut k: usize = 0;
        while k < n
            invariant
                k <= n,
                n == batch@.len(),
                bfs == self.bfs(),
                self.pages == old(self).pages,
                self.free_list@ == batch@.take(k as int),
                self.full_list@ == old(self).full_list@ + batch@.take(k as int),
                self.pending_free_list == old(self).pending_free_list,
                self.npages == old(self).npages,
                self.to_free == old(self).to_free,
                self.to_free_delay == old(self).to_free_delay,
                self.released == old(self).released,
                sum_free(bfs, self.free_list@) == 63 * k,
                forall|m: int|
                    0 <= m < batch@.len() ==> (#[trigger] batch@[m]) < self.pages@.len()
                        && free_user(bfs[batch@[m] as int]) == 63,
            decreases n - k,
        {
            let i = batch[k];
            proof {
                crate::bits_sum::lemma_sum_free_push(bfs, self.free_list@, i);
                assert(batch@.take(k + 1) =~= batch@.take(k as int).push(batch@[k as int]));
                assert(old(self).full_list@ + batch@.take(k + 1) =~= (old(self).full_list@
                    + batch@.take(k as int)).push(batch@[k as int]));
            }
            self.free_list.push(i);
            self.full_list.push(i);
            k += 1;
        }
        proof {
            assert(batch@.take(n as int) =~= batch@);
        }
        self.npages = self.npages + n;
        proof {
            let s = *self;
            let o = *old(self);
            assert(s.free_list@ == batch@);
            assert(s.full_list@ == o.full_list@ + batch@);
            assert(s.full_list@.no_duplicates()) by {
                assert(forall|m: int|
                    0 <= m < o.full_list@.len() ==> s.full_list@[m] == o.full_list@[m]);
                assert(forall|m: int|
                    o.full_list@.len() <= m < s.full_list@.len() ==> s.full_list@[m] == batch@[m
                        - o.full_list@.len()]);
                assert forall|m1: int, m2: int|
                    0 <= m1 < m2 < s.full_list@.len() implies s.full_list@[m1] != s.full_list@[m2]
                by {
                    if m1 < o.full_list@.len() && m2 >= o.full_list@.len() {
                        assert(batch@.contains(batch@[m2 - o.full_list@.len()]));
                        if s.full_list@[m1] == s.full_list@[m2] {
                            assert(o.full_list@.contains(batch@[m2 - o.full_list@.len()]));
                        }
                    }
                }
            }
            assert forall|x: usize| s.full_list@.contains(x) implies (o.full_list@.contains(x)
                || batch@.contains(x)) by {
                let m = choose|m: int| 0 <= m < s.full_list@.len() && s.full_list@[m] == x;
                if m < o.full_list@.len() {
                } else {
                    assert(batch@[m - o.full_list@.len()] == x);
                }
            }
            assert forall|x: usize| (o.full_list@.contains(x) || batch@.contains(x)) implies
                s.full_list@.contains(x) by {
                if o.full_list@.contains(x) {
                    let m = choose|m: int| 0 <= m < o.full_list@.len() && o.full_list@[m] == x;
                    assert(s.full_list@[m] == x);
                } else {
                    let m = choose|m: int| 0 <= m < batch@.len() && batch@[m] == x;
                    assert(s.full_list@[m + o.full_list@.len()] == x);
                }
            }
            assert forall|x: usize| o.full_list@.contains(x) implies !batch@.contains(x) by {
                if batch@.contains(x) {
                    let m = choose|m: int| 0 <= m < batch@.len() && batch@[m] == x;
                }
            }
            assert(s.list_ok(s.full_list@)) by {
                assert forall|m: int| 0 <= m < s.full_list@.len() implies (#[trigger] s.full_list@[
                    m
                ]) < s.pages.len() && s.pages@[s.full_list@[m] as int].live by {
                    if m >= o.full_list@.len() {
                        assert(s.full_list@[m] == batch@[m - o.full_list@.len()]);
                        assert(batch@.contains(batch@[m - o.full_list@.len()]));
                    }
                }
            }
            assert(s.list_ok(s.free_list@)) by {
                assert forall|m: int| 0 <= m < s.free_list@.len() implies (#[trigger] s.free_list@[
                    m
                ]) < s.pages.len() && s.pages@[s.free_list@[m] as int].live by {
                    assert(batch@.contains(batch@[m]));
                }
            }
            assert forall|x: usize| s.free_list@.contains(x) implies s.full_list@.contains(x)
                && !s.pending_free_list@.contains(x) by {
                assert(batch@.contains(x));
            }
            assert forall|x: usize| s.pending_free_list@.contains(x) implies
                s.full_list@.contains(x) by {}
            match s.to_free {
                Some(v) => {
                    assert forall|k: int| 0 <= k < v@.len() implies !s.full_list@.contains(
                        #[trigger] v@[k],
                    ) by {
                        assert(!o.full_list@.contains(v@[k]));
                        if batch@.contains(v@[k]) {
                            let m = choose|m: int| 0 <= m < batch@.len() && batch@[m] == v@[k];
                            assert(!o.in_to_free(batch@[m]));
                        }
                    }
                    assert forall|x: usize| s.full_list@.contains(x) implies !s.in_to_free(x) by {
                        if s.in_to_free(x) {
                            let k = choose|k: int| 0 <= k < v@.len() && v@[k] == x;
                        }
                    }
                },
                None => {},
            }
            assert forall|i: int|
                0 <= i < s.pages@.len() && (#[trigger] s.pages@[i]).live implies (nth_bit(
                s.pages@[i].bf(),
                63,
            ) <==> (s.full_list@.contains(i as usize) || s.in_to_free(i as usize))) by {
                assert(nth_bit(s.pages@[i].bf(), 63) <==> (o.full_list@.contains(i as usize)
                    || o.in_to_free(i as usize) || batch@.contains(i as usize)));
            }
            assert forall|i: int|
                0 <= i < s.pages@.len() && (#[trigger] s.pages@[i]).live implies (
            s.full_list@.contains(i as usize) || s.in_to_free(i as usize)) by {
                assert(o.full_list@.contains(i as usize) || o.in_to_free(i as usize)
                    || batch@.contains(i as usize));
            }
            assert forall|x: usize| s.full_list@.contains(x) implies (s.pages@[
                x as int
            ].in_free_list == (s.free_list@.contains(x) || s.pending_free_list@.contains(x))) by {
                if batch@.contains(x) {
                } else {
                    assert(o.full_list@.contains(x));
                    assert(o.pages@[x as int].in_free_list == (o.free_list@.contains(x)
                        || o.pending_free_list@.contains(x)));
                    assert(o.free_list@.len() == 0 && o.pending_free_list@.len() == 0);
                    assert(!s.free_list@.contains(x));
                }
            }
            assert forall|x: usize|
                s.full_list@.contains(x) && !s.free_list@.contains(x)
                    && !s.pending_free_list@.contains(x) implies free_user(s.pages@[
                x as int
            ].bf()) == 0 by {
                assert(o.full_list@.contains(x));
            }
            assert(s.wf());
            assert(s.spec_stats_free() == 63 * batch@.len());
            assert(s.free_head_has_space()) by {
                assert(s.free_list@.last() == batch@[batch@.len() - 1]);
            }
        }
    }

    /// Grow the arena: make a batch of fresh pages (as many as it already
    /// has, at least one and at most [`MAX_PAGE_BATCH`]) and thread them
    /// into the lists.
    fn alloc_new_page(&mut self)
        requires
            old(self).wf(),
            !old(self).is_released(),
            old(self).spec_free().len() == 0,
            old(self).spec_pending().len() == 0,
            !old(self).has_deferred(),
            old(self).store_len() + 900_000 <= MAX_PAGES,
        ensures
            final(self).wf(),
            !final(self).is_released(),
            !final(self).has_deferred(),
            final(self).preserves_handles_of(old(self)),
            final(self).spec_npages() == old(self).spec_npages() + old(self).growth_amount(),
            final(self).spec_pending() == old(self).spec_pending(),
            final(self).spec_stats_free() == old(self).growth_amount() * 63,
            final(self).free_head_has_space(),
            final(self).store_len() == old(self).store_len() + old(self).growth_amount(),
            final(self).same_blocks_below(old(self), old(self).store_len()),
    {
        proof {
            crate::bits_sum::lemma_nodup_len_bound(self.full_list@, self.pages.len() as int);
        }
        let base: usize = if self.npages < 1 {
            1
        } else {
            self.npages
        };
        let to_allocate: usize = if base > MAX_PAGE_BATCH {
            MAX_PAGE_BATCH
        } else {
            base
        };
        let first_new = self.pages.len();
        let ghost old_arena = *old(self);
        let (_first, _last) = PageSharedArena::make_list(to_allocate, &mut self.pages);
        let mut batch: Vec<usize> = Vec::new();
        let mut idx = first_new;
        while idx < first_new + to_allocate
            invariant
                first_new + to_allocate <= MAX_PAGES,
                first_new <= idx <= first_new + to_allocate,
                self.pages@.len() == first_new + to_allocate,
                batch@.len() == idx - first_new,
                forall|m: int| 0 <= m < batch@.len() ==> (#[trigger] batch@[m]) == first_new + m,
            decreases first_new + to_allocate - idx,
        {
            batch.push(idx);
            idx += 1;
        }
        proof {
            let s = *self;
            assert(batch@.no_duplicates());
            assert forall|x: usize| batch@.contains(x) implies first_new <= x by {
                let m = choose|m: int| 0 <= m < batch@.len() && batch@[m] == x;
            }
            assert forall|i: int|
                0 <= i < old_arena.pages@.len() implies s.pages@[i] == old_arena.pages@[i] by {}
            assert forall|i: int|
                first_new <= i < s.pages@.len() implies (#[trigger] s.pages@[i]).is_fresh(i) by {}
            assert(s.wf_orphans(batch@)) by {
                assert forall|i: int|
                    0 <= i < s.pages@.len() && (#[trigger] s.pages@[i]).live implies (nth_bit(
                    s.pages@[i].bf(),
                    63,
                ) <==> (s.full_list@.contains(i as usize) || s.in_to_free(i as usize)
                    || batch@.contains(i as usize))) by {
                    if i >= first_new {
                        assert(s.pages@[i].is_fresh(i));
                        crate::bits::lemma_special_bitfields(s.pages@[i].bf());
                        assert(batch@[i - first_new] == i as usize);
                        assert(batch@.contains(i as usize));
                    } else {
                        assert(s.pages@[i] == old_arena.pages@[i]);
                        if batch@.contains(i as usize) {
                            let m = choose|m: int|
                                0 <= m < batch@.len() && batch@[m] == i as usize;
                        }
                    }
                }
                assert forall|i: int|
                    0 <= i < s.pages@.len() && (#[trigger] s.pages@[i]).live implies (
                s.full_list@.contains(i as usize) || s.in_to_free(i as usize) || batch@.contains(
                    i as usize,
                )) by {
                    if i < first_new {
                        assert(s.pages@[i] == old_arena.pages@[i]);
                    } else {
                        assert(batch@[i - first_new] == i as usize);
                    }
                }
            }
            assert forall|k: int| 0 <= k < batch@.len() implies (#[trigger] batch@[k])
                < s.pages@.len() && s.pages@[batch@[k] as int].live && s.pages@[batch@[
                k
            ] as int].bf() == FRESH_BITFIELD && s.pages@[batch@[k] as int].in_free_list
                && !s.full_list@.contains(batch@[k]) && !s.in_to_free(batch@[k]) by {
                let i = batch@[k] as int;
                assert(i == first_new + k);
                assert(s.pages@[i].is_fresh(i));
                if s.full_list@.contains(batch@[k]) {
                    let m = choose|m: int|
                        0 <= m < s.full_list@.len() && s.full_list@[m] == batch@[k];
                }
            }
        }
        let ghost mid = *self;
        self.put_pages_in_lists(batch);
        proof {
            assert(to_allocate == old(self).growth_amount());
            assert(self.spec_npages() == old(self).spec_npages() + old(self).growth_amount());
            assert forall|t: PageTaggedPtr|
                old(self).tag_in_range(t) && #[trigger] old(self).counter_of(t) >= 1 implies
                self.tag_in_range(t) && self.counter_of(t) == old(self).counter_of(t)
                    && self.stored_at(t) == old(self).stored_at(t) by {
                assert(mid.pages@[t.spec_page_ptr() as int] == old(self).pages@[t.spec_page_ptr()
                    as int]);
                assert(mid.tag_in_range(t) && mid.counter_of(t) == old(self).counter_of(t)
                    && mid.stored_at(t) == old(self).stored_at(t));
            }
        }
    }

    /// Take the pages a shrink parked in the deferred-drop buffer back into
    /// service: reinsert as many as the growth strategy asks for, keep the
    /// rest parked, and reset the drop delay accordingly.
    fn take_pages_to_be_freed(&mut self)
        requires
            old(self).wf(),
            !old(self).is_released(),
            old(self).spec_free().len() == 0,
            old(self).spec_pending().len() == 0,
            old(self).has_deferred(),
        ensures
            final(self).wf(),
            !final(self).is_released(),
            final(self).preserves_handles_of(old(self)),
            final(self).spec_npages() == old(self).spec_npages() + old(self).growth_amount(),
            final(self).spec_pending() == old(self).spec_pending(),
            final(self).spec_stats_free() == old(self).growth_amount() * 63,
            final(self).free_head_has_space(),
            final(self).store_len() == old(self).store_len(),
            final(self).same_blocks_below(old(self), old(self).store_len()),
    {
        let ghost o = *old(self);
        let v: Vec<usize> = match self.to_free.take() {
            Some(v) => v,
            None => vstd::pervasive::unreached(),
        };
        let base: usize = if self.npages < 1 {
            1
        } else {
            self.npages
        };
        let truncate_at: usize = if v.len() > base {
            v.len() - base
        } else {
            0
        };
        let mut batch: Vec<usize> = Vec::new();
        let mut k: usize = v.len();
        while k > truncate_at
            invariant
                truncate_at <= k <= v@.len(),
                batch@.len() == v@.len() - k,
                forall|m: int|
                    0 <= m < batch@.len() ==> (#[trigger] batch@[m]) == v@[v@.len() - 1 - m],
            decreases k - truncate_at,
        {
            k -= 1;
            batch.push(v[k]);
        }
        proof {
            assert(v@ == match o.to_free {
                Some(w) => w@,
                None => Seq::<usize>::empty(),
            });
            assert(batch@.no_duplicates()) by {
                assert forall|m1: int, m2: int|
                    0 <= m1 < m2 < batch@.len() implies batch@[m1] != batch@[m2] by {
                    assert(batch@[m1] == v@[v@.len() - 1 - m1]);
                    assert(batch@[m2] == v@[v@.len() - 1 - m2]);
                }
            }
            assert forall|m: int| 0 <= m < batch@.len() implies batch@.contains(
                #[trigger] batch@[m],
            ) by {}
        }
        let mut m2: usize = 0;
        while m2 < batch.len()
            invariant
                m2 <= batch@.len(),
                forall|m: int|
                    0 <= m < batch@.len() ==> (#[trigger] batch@[m]) < self.pages@.len(),
                self.pages@.len() == o.pages@.len(),
                self.free_list == o.free_list,
                self.pending_free_list == o.pending_free_list,
                self.full_list == o.full_list,
                self.npages == o.npages,
                self.to_free is None,
                self.to_free_delay == o.to_free_delay,
                self.released == o.released,
                forall|i: int|
                    0 <= i < self.pages@.len() ==> (#[trigger] self.pages@[i]).bf()
                        == o.pages@[i].bf() && self.pages@[i].blocks == o.pages@[i].blocks
                        && self.pages@[i].live == o.pages@[i].live,
                forall|i: int|
                    0 <= i < self.pages@.len() ==> (#[trigger] self.pages@[i]).in_free_list == (
                    o.pages@[i].in_free_list || batch@.take(m2 as int).contains(i as usize)),
            decreases batch@.len() - m2,
        {
            let i = batch[m2];
            let ghost prev = self.pages@;
            self.pages[i].in_free_list = true;
            proof {
                assert(self.pages@.len() == self.pages.len());
                assert forall|i2: int|
                    0 <= i2 < self.pages@.len() implies (#[trigger] self.pages@[i2]).in_free_list
                        == (o.pages@[i2].in_free_list || batch@.take(m2 + 1).contains(
                        i2 as usize,
                    )) by {
                    crate::bits_sum::lemma_take_push_contains(batch@, m2 as int, i2 as usize);
                    if i2 != i as int {
                        assert(self.pages@[i2] == prev[i2]);
                    } else {
                        assert(self.pages@[i2].in_free_list);
                        assert(batch@[m2 as int] == i2 as usize);
                    }
                }
            }
            m2 += 1;
        }
        if truncate_at > 0 {
            let mut v2 = v;
            v2.truncate(truncate_at);
            self.to_free = Some(v2);
            self.to_free_delay = 0;
        } else {
            self.to_free_delay = DELAY_DROP_SHRINK;
        }
        proof {
            let s = *self;
            let vseq = v@;
            assert(batch@.len() == vseq.len() - truncate_at);
            assert forall|x: usize| batch@.contains(x) implies vseq.contains(x) && !vseq.take(
                truncate_at as int,
            ).contains(x) by {
                let m = choose|m: int| 0 <= m < batch@.len() && batch@[m] == x;
                assert(vseq[vseq.len() - 1 - m] == x);
                if vseq.take(truncate_at as int).contains(x) {
                    let q = choose|q: int| 0 <= q < truncate_at && vseq[q] == x;
                    assert(vseq[q] == vseq[vseq.len() - 1 - m]);
                }
            }
            assert forall|x: usize| s.in_to_free(x) implies vseq.contains(x) && !batch@.contains(
                x,
            ) by {
                match s.to_free {
                    Some(v2) => {
                        assert(v2@ == vseq.take(truncate_at as int));
                        let q = choose|q: int| 0 <= q < v2@.len() && v2@[q] == x;
                        assert(vseq[q] == x);
                        if batch@.contains(x) {
                            let m = choose|m: int| 0 <= m < batch@.len() && batch@[m] == x;
                            assert(vseq[vseq.len() - 1 - m] == x);
                        }
                    },
                    None => {},
                }
            }
            assert forall|k2: int| 0 <= k2 < vseq.len() implies (#[trigger] vseq[k2])
                < s.pages@.len() && s.pages@[vseq[k2] as int].live && s.pages@[vseq[
                k2
            ] as int].bf() == FRESH_BITFIELD && !s.full_list@.contains(vseq[k2]) by {
                assert(o.in_to_free(vseq[k2]));
            }
            assert(s.wf_orphans(batch@)) by {
                assert forall|i: int|
                    0 <= i < s.pages@.len() && (#[trigger] s.pages@[i]).live implies (nth_bit(
                    s.pages@[i].bf(),
                    63,
                ) <==> (s.full_list@.contains(i as usize) || s.in_to_free(i as usize)
                    || batch@.contains(i as usize))) by {
                    assert(s.pages@[i].bf() == o.pages@[i].bf());
                    if o.in_to_free(i as usize) {
                        let q = choose|q: int| 0 <= q < vseq.len() && vseq[q] == i as usize;
                        if !vseq.take(truncate_at as int).contains(i as usize) {
                            assert(q >= truncate_at) by {
                                if q < truncate_at {
                                    assert(vseq.take(truncate_at as int)[q] == i as usize);
                                }
                            }
                            assert(batch@[vseq.len() - 1 - q] == i as usize);
                        } else {
                            let q2 = choose|q2: int|
                                0 <= q2 < truncate_at && (#[trigger] vseq.take(
                                    truncate_at as int,
                                )[q2]) == i as usize;
                            match s.to_free {
                                Some(v2) => { assert(v2@[q2] == i as usize) },
                                None => {},
                            }
                        }
                    }
                    if s.in_to_free(i as usize) || batch@.contains(i as usize) {
                        assert(vseq.contains(i as usize));
                        assert(o.in_to_free(i as usize));
                    }
                }
                assert forall|i: int|
                    0 <= i < s.pages@.len() && (#[trigger] s.pages@[i]).live implies (
                s.full_list@.contains(i as usize) || s.in_to_free(i as usize) || batch@.contains(
                    i as usize,
                )) by {
                    if o.in_to_free(i as usize) {
                        let q = choose|q: int| 0 <= q < vseq.len() && vseq[q] == i as usize;
                        if !vseq.take(truncate_at as int).contains(i as usize) {
                            assert(q >= truncate_at) by {
                                if q < truncate_at {
                                    assert(vseq.take(truncate_at as int)[q] == i as usize);
                                }
                            }
                            assert(batch@[vseq.len() - 1 - q] == i as usize);
                        } else {
                            let q2 = choose|q2: int|
                                0 <= q2 < truncate_at && (#[trigger] vseq.take(
                                    truncate_at as int,
                                )[q2]) == i as usize;
                            match s.to_free {
                                Some(v2) => { assert(v2@[q2] == i as usize) },
                                None => {},
                            }
                        }
                    }
                }
                match s.to_free {
                    Some(v2) => {
                        assert(v2@.no_duplicates()) by {
                            assert(forall|q: int|
                                0 <= q < v2@.len() ==> v2@[q] == vseq[q]);
                        }
                    },
                    None => {},
                }
            }
            assert(s.all_strict());
            assert(batch@.len() >= 1) by {
                assert(vseq.len() >= 1);
            }
            assert forall|k2: int| 0 <= k2 < batch@.len() implies (#[trigger] batch@[k2])
                < s.pages@.len() && s.pages@[batch@[k2] as int].live && s.pages@[batch@[
                k2
            ] as int].bf() == FRESH_BITFIELD && s.pages@[batch@[k2] as int].in_free_list
                && !s.full_list@.contains(batch@[k2]) && !s.in_to_free(batch@[k2]) by {
                assert(batch@.contains(batch@[k2]));
                assert(batch@.take(batch@.len() as int) =~= batch@);
            }
        }
        let ghost mid = *self;
        self.put_pages_in_lists(batch);
        proof {
            assert(self.spec_npages() == old(self).spec_npages() + old(self).growth_amount());
            assert forall|t: PageTaggedPtr|
                old(self).tag_in_range(t) && #[trigger] old(self).counter_of(t) >= 1 implies
                self.tag_in_range(t) && self.counter_of(t) == old(self).counter_of(t)
                    && self.stored_at(t) == old(self).stored_at(t) by {
                assert(mid.pages@[t.spec_page_ptr() as int].blocks == old(self).pages@[
                    t.spec_page_ptr() as int
                ].blocks);
                assert(mid.tag_in_range(t) && mid.counter_of(t) == old(self).counter_of(t)
                    && mid.stored_at(t) == old(self).stored_at(t));
            }
        }
    }

    /// Step the deferred-drop delay; when it runs out, deallocate the pages
    /// a shrink parked.  Pages in the buffer are empty, so no handle is
    /// disturbed and no statistic moves.
    fn maybe_free_pages(&mut self)
        requires
            old(self).wf(),
            !old(self).is_released(),
        ensures
            final(self).wf(),
            !final(self).is_released(),
            final(self).preserves_handles_of(old(self)),
            final(self).spec_npages() == old(self).spec_npages(),
            final(self).spec_free() == old(self).spec_free(),
            final(self).spec_pending() == old(self).spec_pending(),
            final(self).spec_full() == old(self).spec_full(),
            final(self).bfs() == old(self).bfs(),
            final(self).spec_stats_free() == old(self).spec_stats_free(),
            final(self).store_len() == old(self).store_len(),
            final(self).has_deferred() ==> old(self).has_deferred(),
            final(self).same_blocks_below(old(self), old(self).store_len()),
    {
        let ghost o = *old(self);
        if self.to_free_delay < DELAY_DROP_SHRINK {
            let od = self.to_free_delay;
            self.to_free_delay = od + 1;
            if od == DELAY_DROP_SHRINK - 1 {
                match self.to_free.take() {
                    Some(v) => {
                        let mut k: usize = 0;
                        while k < v.len()
                            invariant
                                k <= v@.len(),
                                v@.no_duplicates(),
                                forall|m: int|
                                    0 <= m < v@.len() ==> (#[trigger] v@[m]) < self.pages@.len()
                                        && o.pages@[v@[m] as int].bf() == FRESH_BITFIELD
                                        && o.pages@[v@[m] as int].live && !o.full_list@.contains(
                                        v@[m],
                                    ),
                                self.pages@.len() == o.pages@.len(),
                                self.free_list == o.free_list,
                                self.pending_free_list == o.pending_free_list,
                                self.full_list == o.full_list,
                                self.npages == o.npages,
                                self.to_free is None,
                                self.to_free_delay == DELAY_DROP_SHRINK,
                                self.released == o.released,
                                forall|i: int|
                                    0 <= i < self.pages@.len() ==> (#[trigger] self.pages@[
                                        i
                                    ]).bf() == o.pages@[i].bf() && self.pages@[i].blocks
                                        == o.pages@[i].blocks && self.pages@[i].in_free_list
                                        == o.pages@[i].in_free_list,
                                forall|i: int|
                                    0 <= i < self.pages@.len() ==> (#[trigger] self.pages@[
                                        i
                                    ]).live == (o.pages@[i].live && !v@.take(k as int).contains(
                                        i as usize,
                                    )),
                            decreases v@.len() - k,
                        {
                            let i = v[k];
                            let ghost prev = self.pages@;
                            self.pages[i].live = false;
                            proof {
                                assert(self.pages@.len() == self.pages.len());
                                assert forall|i2: int|
                                    0 <= i2 < self.pages@.len() implies (#[trigger] self.pages@[
                                        i2
                                    ]).live == (o.pages@[i2].live && !v@.take(k + 1).contains(
                                        i2 as usize,
                                    )) by {
                                    crate::bits_sum::lemma_take_push_contains(v@, k as int, i2 as usize);
                                    if i2 != i as int {
                                        assert(self.pages@[i2] == prev[i2]);
                                    } else {
                                        assert(!self.pages@[i2].live);
                                        assert(v@[k as int] == i2 as usize);
                                    }
                                }
                            }
                            k += 1;
                        }
                        proof {
                            let s = *self;
                            assert(v@.take(v@.len() as int) =~= v@);
                            assert(s.bfs() =~= o.bfs());
                            assert forall|i: int|
                                0 <= i < s.pages@.len() && (#[trigger] s.pages@[i]).live implies
                                s.pages@[i] == o.pages@[i] by {}
                            assert(s.wf()) by {
                                assert forall|i: int|
                                    0 <= i < s.pages@.len() && (#[trigger] s.pages@[i]).live
                                    implies (nth_bit(s.pages@[i].bf(), 63) <==> (
                                s.full_list@.contains(i as usize) || s.in_to_free(i as usize)))
                                by {
                                    if o.in_to_free(i as usize) {
                                        assert(v@.contains(i as usize));
                                    }
                                }
                            }
                            assert forall|t: PageTaggedPtr|
                                o.tag_in_range(t) && #[trigger] o.counter_of(t) >= 1 implies
                                s.tag_in_range(t) && s.counter_of(t) == o.counter_of(t)
                                    && s.stored_at(t) == o.stored_at(t) by {
                                let i = t.spec_page_ptr() as int;
                                if v@.contains(i as usize) {
                                    assert(o.pages@[i].strict());
                                    crate::bits::lemma_special_bitfields(o.pages@[i].bf());
                                    assert(nth_bit(o.pages@[i].bf(), t.spec_index_block() as u64));
                                    assert(o.pages@[i].blocks[t.spec_index_block() as int].is_free_state());
                                }
                            }
                            assert(s.spec_stats_free() == o.spec_stats_free());
                        }
                    },
                    None => {},
                }
            }
        }
    }

    /// Find a free block and acquire it.
    ///
    /// The fast path pops stale pages off the free list until one yields a
    /// block.  When the list runs dry, it is refilled: from the
    /// pending-free list if the drop side filled it, else from the pages a
    /// shrink parked, else by making a fresh batch; the head of the
    /// refilled list then yields a block.  Returns the page number and the
    /// block index acquired; the slot's bit is cleared, its block not yet
    /// filled in.
    fn find_place(&mut self) -> (r: (usize, usize))
        requires
            old(self).wf(),
            !old(self).is_released(),
            old(self).store_len() + 900_000 <= MAX_PAGES,
        ensures
            final(self).wf_open_slot(r.0 as int, r.1 as int),
            !final(self).is_released(),
            final(self).preserves_handles_of(old(self)),
            final(self).store_len() >= old(self).store_len(),
            final(self).store_len() <= old(self).store_len() + old(self).growth_amount(),
            old(self).spec_stats_free() >= 1 ==> final(self).store_len() == old(self).store_len(),
            old(self).spec_stats_free() == 0 && !old(self).has_deferred() ==> final(self).store_len() == old(self).store_len() + old(self).growth_amount(),
            final(self).has_deferred() ==> old(self).has_deferred(),
            old(self).spec_stats_free() >= 1 ==> final(self).spec_npages() == old(
                self,
            ).spec_npages() && final(self).spec_stats_free() == old(self).spec_stats_free() - 1,
            old(self).spec_stats_free() == 0 ==> final(self).spec_npages() == old(
                self,
            ).spec_npages() + old(self).growth_amount() && final(self).spec_stats_free() == old(
                self,
            ).growth_amount() * 63 - 1,
            r.0 < old(self).pages@.len() ==> old(self).pages@[r.0 as int].blocks@[
                r.1 as int
            ].counter == 0,
    {
        while self.free_list.len() > 0
            invariant
                self.wf(),
                !self.is_released(),
                self.store_len() + 900_000 <= MAX_PAGES,
                self.store_len() == old(self).store_len(),
                self.spec_npages() == old(self).spec_npages(),
                self.spec_stats_free() == old(self).spec_stats_free(),
                self.spec_pending() == old(self).spec_pending(),
                self.to_free == old(self).to_free,
                self.to_free_delay == old(self).to_free_delay,
                self.growth_amount() == old(self).growth_amount(),
                self.pages@.len() == old(self).pages@.len(),
                self.same_blocks_below(old(self), old(self).store_len()),
                forall|i2: int|
                    0 <= i2 < self.pages@.len() ==> (#[trigger] self.pages@[i2]).blocks == old(
                        self,
                    ).pages@[i2].blocks && self.pages@[i2].live == old(self).pages@[i2].live,
            decreases self.free_list@.len(),
        {
            let flen = self.free_list.len();
            let i = self.free_list[flen - 1];
            let ghost s0 = *self;
            proof {
                assert(s0.free_list@.contains(i)) by {
                    assert(s0.free_list@[flen - 1] == i);
                }
                assert(self.pages@.len() == self.pages.len());
            }
            let res = self.pages[i].acquire_free_block();
            match res {
                Some(j) => {
                    proof {
                        let s = *self;
                        assert(s.pages@ == s0.pages@.update(i as int, s.pages@[i as int]));
                        assert(s.bfs() =~= s0.bfs().update(
                            i as int,
                            s.pages@[i as int].bf(),
                        ));
                        crate::bits_sum::lemma_sum_free_update_present(
                            s0.bfs(),
                            s0.free_list@,
                            i as int,
                            s.pages@[i as int].bf(),
                        );
                        crate::bits_sum::lemma_sum_free_update_absent(
                            s0.bfs(),
                            s0.pending_free_list@,
                            i as int,
                            s.pages@[i as int].bf(),
                        );
                        assert(s.spec_stats_free() == s0.spec_stats_free() - 1);
                        assert(s0.pages@[i as int].strict());
                        assert(s.pages@[i as int].strict_except(j as int)) by {
                            assert(s.pages@[i as int].wf());
                            assert forall|j2: u64|
                                j2 < BLOCK_PER_PAGE && j2 != j && !nth_bit(
                                    s.pages@[i as int].bf(),
                                    j2,
                                ) implies (#[trigger] s.pages@[i as int].blocks[
                                j2 as int
                            ]).is_used_state() by {
                                assert(nth_bit(s.pages@[i as int].bf(), j2) == nth_bit(
                                    s0.pages@[i as int].bf(),
                                    j2,
                                ));
                            }
                        }
                        assert(s.wf_open_slot(i as int, j as int)) by {
                            assert forall|i2: int|
                                0 <= i2 < s.pages@.len() && s.pages@[i2].live && i2 != i as int
                                implies (#[trigger] s.pages@[i2]).strict() by {
                                assert(s.pages@[i2] == s0.pages@[i2]);
                            }
                            assert forall|x: usize|
                                s.pending_free_list@.contains(x) implies free_user(s.pages@[
                                x as int
                            ].bf()) >= 1 by {
                                assert(x != i);
                                assert(s.pages@[x as int] == s0.pages@[x as int]);
                            }
                            assert forall|x: usize|
                                s.full_list@.contains(x) && !s.free_list@.contains(x)
                                    && !s.pending_free_list@.contains(x) implies free_user(
                                s.pages@[x as int].bf()) == 0 by {
                                assert(x != i);
                                assert(s.pages@[x as int] == s0.pages@[x as int]);
                            }
                            match s.to_free {
                                Some(v) => {
                                    assert forall|k: int|
                                        0 <= k < v@.len() implies (#[trigger] v@[k])
                                            < s.pages@.len() && s.pages@[v@[k] as int].live
                                            && s.pages@[v@[k] as int].bf() == FRESH_BITFIELD
                                            && !s.full_list@.contains(v@[k]) by {
                                        assert(v@[k] != i);
                                        assert(s.pages@[v@[k] as int] == s0.pages@[v@[
                                            k
                                        ] as int]);
                                    }
                                },
                                None => {},
                            }
                            assert forall|i2: int|
                                0 <= i2 < s.pages@.len() && (#[trigger] s.pages@[i2]).live
                                implies (nth_bit(s.pages@[i2].bf(), 63) <==> (
                            s.full_list@.contains(i2 as usize) || s.in_to_free(i2 as usize)))
                            by {
                                if i2 != i as int {
                                    assert(s.pages@[i2] == s0.pages@[i2]);
                                }
                            }
                        }
                        assert(free_user(s0.pages@[i as int].bf()) >= 1) by {
                            crate::bits::lemma_count_extremes(s0.pages@[i as int].bf(), 63);
                            crate::bits::lemma_count_set_bounds(s0.pages@[i as int].bf(), 63);
                            assert(nth_bit(s0.pages@[i as int].bf(), j as u64));
                        }
                        crate::bits_sum::lemma_sum_free_member_lower(
                            s0.bfs(),
                            s0.free_list@,
                            i,
                        );
                        crate::bits_sum::lemma_sum_free_bounds(s0.bfs(), s0.pending_free_list@);
                        assert(old(self).spec_stats_free() >= 1);
                        assert(s.preserves_handles_of(old(self)));
                        assert(s.pages@[i as int].blocks == old(self).pages@[i as int].blocks);
                        assert(old(self).pages@[i as int].blocks@[j as int].counter == 0) by {
                            assert(s.pages@[i as int].blocks@[j as int].counter == 0);
                        }
                    }
                    return (i, j);
                },
                None => {
                    let _ = self.free_list.pop();
                    self.pages[i].in_free_list = false;
                    proof {
                        let s = *self;
                        assert(s.free_list@ == s0.free_list@.drop_last());
                        assert(s.pages@ == s0.pages@.update(i as int, s.pages@[i as int]));
                        assert(s.bfs() =~= s0.bfs());
                        assert(!s.free_list@.contains(i)) by {
                            if s.free_list@.contains(i) {
                                let q = choose|q: int|
                                    0 <= q < s.free_list@.len() && s.free_list@[q] == i;
                                assert(s0.free_list@[q] == s0.free_list@[flen - 1]);
                            }
                        }
                        assert forall|x: usize|
                            s.free_list@.contains(x) implies s0.free_list@.contains(x) && x != i
                        by {
                            let q = choose|q: int|
                                0 <= q < s.free_list@.len() && s.free_list@[q] == x;
                            assert(s0.free_list@[q] == x);
                        }
                        assert(s.wf()) by {
                            assert forall|i2: int|
                                0 <= i2 < s.pages@.len() && (#[trigger] s.pages@[i2]).live
                                implies s.pages@[i2].strict() by {
                                if i2 != i as int {
                                    assert(s.pages@[i2] == s0.pages@[i2]);
                                } else {
                                    assert(s.pages@[i2].bf() == s0.pages@[i2].bf());
                                    assert(s.pages@[i2].blocks == s0.pages@[i2].blocks);
                                }
                            }
                            assert forall|x: usize|
                                s.full_list@.contains(x) implies (s.pages@[x as int].in_free_list
                                    == (s.free_list@.contains(x) || s.pending_free_list@.contains(
                                    x,
                                ))) by {
                                if x != i {
                                    assert(s.pages@[x as int] == s0.pages@[x as int]);
                                    if s0.free_list@.contains(x) {
                                        let q = choose|q: int|
                                            0 <= q < s0.free_list@.len() && s0.free_list@[q] == x;
                                        assert(q != flen - 1);
                                        assert(s.free_list@[q] == x);
                                    }
                                } else {
                                    assert(!s.pages@[i as int].in_free_list);
                                }
                            }
                            assert forall|x: usize|
                                s.full_list@.contains(x) && !s.free_list@.contains(x)
                                    && !s.pending_free_list@.contains(x) implies free_user(
                                s.pages@[x as int].bf()) == 0 by {
                                if x == i {
                                    assert(free_user(s0.pages@[i as int].bf()) == 0);
                                } else {
                                    if s0.free_list@.contains(x) {
                                        let q = choose|q: int|
                                            0 <= q < s0.free_list@.len() && s0.free_list@[q] == x;
                                        assert(q != flen - 1);
                                        assert(s.free_list@[q] == x);
                                    }
                                }
                            }
                        }
                        assert(s.spec_stats_free() == s0.spec_stats_free()) by {
                            assert(free_user(s0.bfs()[i as int]) == 0);
                            assert(sum_free(s.bfs(), s.free_list@) == sum_free(
                                s0.bfs(),
                                s0.free_list@,
                            ) - free_user(s0.bfs()[s0.free_list@.last() as int]));
                        }
                    }
                },
            }
        }
        let ghost s1 = *self;
        proof {
            assert(sum_free(s1.bfs(), s1.free_list@) == 0);
        }
        if self.pending_free_list.len() > 0 {
            proof {
                let head = s1.pending_free_list@.last();
                assert(s1.pending_free_list@.contains(head)) by {
                    assert(s1.pending_free_list@[s1.pending_free_list@.len() - 1] == head);
                }
                crate::bits_sum::lemma_sum_free_member_lower(
                    s1.bfs(),
                    s1.pending_free_list@,
                    head,
                );
                assert(old(self).spec_stats_free() >= 1);
            }
            core::mem::swap(&mut self.free_list, &mut self.pending_free_list);
            proof {
                let s = *self;
                assert(s.preserves_handles_of(&s1)) by {
                    assert forall|t: PageTaggedPtr|
                        s1.tag_in_range(t) && #[trigger] s1.counter_of(t) >= 1 implies
                        s.tag_in_range(t) && s.counter_of(t) == s1.counter_of(t) && s.stored_at(
                        t,
                    ) == s1.stored_at(t) by {}
                }
                assert(s.free_list@ == s1.pending_free_list@);
                assert(s.pending_free_list@.len() == 0);
                assert(s.wf()) by {
                    assert forall|x: usize|
                        s.full_list@.contains(x) implies (s.pages@[x as int].in_free_list == (
                        s.free_list@.contains(x) || s.pending_free_list@.contains(x))) by {}
                }
                assert(s.free_head_has_space()) by {
                    assert(s1.pending_free_list@.contains(s.free_list@.last())) by {
                        assert(s1.pending_free_list@[s.free_list@.len() - 1]
                            == s.free_list@.last());
                    }
                }
                assert(s.spec_stats_free() == old(self).spec_stats_free());
            }
            let ghost sw = *self;
            self.maybe_free_pages();
            proof {
                assert(self.preserves_handles_of(&s1)) by {
                    assert forall|t: PageTaggedPtr|
                        s1.tag_in_range(t) && #[trigger] s1.counter_of(t) >= 1 implies
                        self.tag_in_range(t) && self.counter_of(t) == s1.counter_of(t)
                            && self.stored_at(t) == s1.stored_at(t) by {
                        assert(sw.tag_in_range(t) && sw.counter_of(t) == s1.counter_of(t)
                            && sw.stored_at(t) == s1.stored_at(t));
                    }
                }
            }
        } else if self.to_free.is_some() {
            proof {
                assert(old(self).spec_stats_free() == 0);
            }
            self.take_pages_to_be_freed();
            proof {
                assert(self.preserves_handles_of(&s1));
            }
        } else {
            proof {
                assert(old(self).spec_stats_free() == 0);
            }
            self.alloc_new_page();
            proof {
                assert(self.preserves_handles_of(&s1));
            }
        }
        proof {
            assert(self.same_blocks_below(old(self), old(self).store_len())) by {
                assert(self.same_blocks_below(&s1, s1.store_len()));
                assert(s1.same_blocks_below(old(self), old(self).store_len()));
                assert forall|i2: int|
                    0 <= i2 < old(self).store_len() implies (#[trigger] self.pages@[i2]).blocks
                        == old(self).pages@[i2].blocks by {
                    assert(self.pages@[i2].blocks == s1.pages@[i2].blocks);
                }
            }
        }
        let ghost s2 = *self;
        proof {
            assert(s2.free_list@.len() >= 1);
            assert(free_user(s2.bfs()[s2.free_list@.last() as int]) >= 1);
        }
        let flen = self.free_list.len();
        let i = self.free_list[flen - 1];
        proof {
            assert(s2.free_list@.contains(i)) by {
                assert(s2.free_list@[flen - 1] == i);
            }
            assert(self.pages@.len() == self.pages.len());
        }
        let res = self.pages[i].acquire_free_block();
        match res {
            Some(j) => {
                proof {
                    let s = *self;
                    assert(s.pages@ == s2.pages@.update(i as int, s.pages@[i as int]));
                    assert(s.bfs() =~= s2.bfs().update(i as int, s.pages@[i as int].bf()));
                    crate::bits_sum::lemma_sum_free_update_present(
                        s2.bfs(),
                        s2.free_list@,
                        i as int,
                        s.pages@[i as int].bf(),
                    );
                    crate::bits_sum::lemma_sum_free_update_absent(
                        s2.bfs(),
                        s2.pending_free_list@,
                        i as int,
                        s.pages@[i as int].bf(),
                    );
                    assert(s.spec_stats_free() == s2.spec_stats_free() - 1);
                    assert(s2.pages@[i as int].strict());
                    assert(s.pages@[i as int].strict_except(j as int)) by {
                        assert(s.pages@[i as int].wf());
                        assert forall|j2: u64|
                            j2 < BLOCK_PER_PAGE && j2 != j && !nth_bit(
                                s.pages@[i as int].bf(),
                                j2,
                            ) implies (#[trigger] s.pages@[i as int].blocks[
                            j2 as int
                        ]).is_used_state() by {
                            assert(nth_bit(s.pages@[i as int].bf(), j2) == nth_bit(
                                s2.pages@[i as int].bf(),
                                j2,
                            ));
                        }
                    }
                    assert(s.wf_open_slot(i as int, j as int)) by {
                        assert forall|i2: int|
                            0 <= i2 < s.pages@.len() && s.pages@[i2].live && i2 != i as int
                            implies (#[trigger] s.pages@[i2]).strict() by {
                            assert(s.pages@[i2] == s2.pages@[i2]);
                        }
                        assert forall|x: usize|
                            s.pending_free_list@.contains(x) implies free_user(s.pages@[
                            x as int
                        ].bf()) >= 1 by {
                            assert(x != i);
                            assert(s.pages@[x as int] == s2.pages@[x as int]);
                        }
                        assert forall|x: usize|
                            s.full_list@.contains(x) && !s.free_list@.contains(x)
                                && !s.pending_free_list@.contains(x) implies free_user(s.pages@[
                            x as int
                        ].bf()) == 0 by {
                            assert(x != i);
                            assert(s.pages@[x as int] == s2.pages@[x as int]);
                        }
                        match s.to_free {
                            Some(v) => {
                                assert forall|k: int|
                                    0 <= k < v@.len() implies (#[trigger] v@[k]) < s.pages@.len()
                                        && s.pages@[v@[k] as int].live && s.pages@[v@[
                                        k
                                    ] as int].bf() == FRESH_BITFIELD && !s.full_list@.contains(
                                        v@[k],
                                    ) by {
                                    assert(v@[k] != i);
                                    assert(s.pages@[v@[k] as int] == s2.pages@[v@[k] as int]);
                                }
                            },
                            None => {},
                        }
                        assert forall|i2: int|
                            0 <= i2 < s.pages@.len() && (#[trigger] s.pages@[i2]).live implies (
                        nth_bit(s.pages@[i2].bf(), 63) <==> (s.full_list@.contains(i2 as usize)
                            || s.in_to_free(i2 as usize))) by {
                            if i2 != i as int {
                                assert(s.pages@[i2] == s2.pages@[i2]);
                            }
                        }
                    }
                    assert(s.preserves_handles_of(old(self))) by {
                        assert forall|t: PageTaggedPtr|
                            old(self).tag_in_range(t) && #[trigger] old(self).counter_of(t) >= 1
                            implies s.tag_in_range(t) && s.counter_of(t) == old(self).counter_of(
                            t,
                        ) && s.stored_at(t) == old(self).stored_at(t) by {
                            assert(s1.tag_in_range(t) && s1.counter_of(t) == old(
                                self,
                            ).counter_of(t) && s1.stored_at(t) == old(self).stored_at(t));
                            assert(s2.tag_in_range(t) && s2.counter_of(t) == s1.counter_of(t)
                                && s2.stored_at(t) == s1.stored_at(t));
                            assert(s.pages@[t.spec_page_ptr() as int].blocks == s2.pages@[
                                t.spec_page_ptr() as int
                            ].blocks);
                            assert(s.pages@[t.spec_page_ptr() as int].live == s2.pages@[
                                t.spec_page_ptr() as int
                            ].live);
                        }
                    }
                    if (i as int) < old(self).pages@.len() {
                        assert(s.pages@[i as int].blocks == old(self).pages@[i as int].blocks)
                            by {
                            assert(s2.same_blocks_below(old(self), old(self).store_len()));
                            assert(s2.pages@[i as int].blocks == old(self).pages@[
                                i as int
                            ].blocks);
                            assert(s.pages@[i as int].blocks == s2.pages@[i as int].blocks);
                        }
                        assert(old(self).pages@[i as int].blocks@[j as int].counter == 0) by {
                            assert(s.pages@[i as int].blocks@[j as int].counter == 0);
                        }
                    }
                }
                (i, j)
            },
            None => {
                proof {
                    assert(false);
                }
                vstd::pervasive::unreached()
            },
        }
    }

    /// Acquire a block and fill it in: write the value, set the count to
    /// one, and hand back the block's tagged back-pointer.
    fn alloc_block(&mut self, value: T) -> (tag: PageTaggedPtr)
        requires
            old(self).wf(),
            !old(self).is_released(),
            old(self).store_len() + 900_000 <= MAX_PAGES,
        ensures
            final(self).wf(),
            !final(self).is_released(),
            final(self).tag_in_range(tag),
            final(self).counter_of(tag) == 1,
            final(self).stored_at(tag) == Some(value),
            final(self).preserves_handles_of(old(self)),
            final(self).spec_stats_used() == old(self).spec_stats_used() + 1,
            forall|t: PageTaggedPtr|
                t.spec_page_ptr() < old(self).store_len() && #[trigger] old(self).counter_of(t)
                    >= 1 ==> t
                    != tag,
            tag.spec_page_ptr() < final(self).store_len(),
            final(self).store_len() <= old(self).store_len() + old(self).growth_amount(),
            old(self).spec_stats_free() >= 1 ==> final(self).store_len() == old(self).store_len(),
            old(self).spec_stats_free() == 0 && !old(self).has_deferred() ==> final(self).store_len() == old(self).store_len() + old(self).growth_amount(),
            final(self).has_deferred() ==> old(self).has_deferred(),
            old(self).spec_stats_free() >= 1 ==> final(self).spec_npages() == old(
                self,
            ).spec_npages() && final(self).spec_stats_free() == old(self).spec_stats_free() - 1,
            old(self).spec_stats_free() == 0 ==> final(self).spec_npages() == old(
                self,
            ).spec_npages() + old(self).growth_amount() && final(self).spec_stats_free() == old(
                self,
            ).growth_amount() * 63 - 1,
            old(self).spec_stats_free() == 0 ==> old(self).growth_amount() >= 1,
    {
        proof {
            old(self).lemma_stats_free_le_total();
        }
        let (i, j) = self.find_place();
        let ghost mid = *self;
        let tag = self.pages[i].blocks[j].page;
        self.pages[i].blocks[j].counter = 1;
        self.pages[i].blocks[j].value = Some(value);
        proof {
            let s = *self;
            assert(s.pages@.len() == mid.pages@.len());
            assert(s.pages@[i as int].blocks@ == mid.pages@[i as int].blocks@.update(
                j as int,
                s.pages@[i as int].blocks@[j as int],
            ));
            assert(s.pages@[i as int].blocks@[j as int].counter == 1);
            assert(s.pages@[i as int].blocks@[j as int].value == Some(value));
            assert(s.pages@[i as int].blocks@[j as int].page == mid.pages@[i as int].blocks@[
                j as int
            ].page);
            assert(s.bfs() =~= mid.bfs());
            assert(s.pages@[i as int].strict()) by {
                assert(mid.pages@[i as int].strict_except(j as int));
                assert forall|j2: u64|
                    j2 < BLOCK_PER_PAGE && nth_bit(s.pages@[i as int].bf(), j2) implies (
                #[trigger] s.pages@[i as int].blocks[j2 as int]).is_free_state() by {
                    assert(j2 != j);
                    assert(s.pages@[i as int].blocks[j2 as int] == mid.pages@[i as int].blocks[
                        j2 as int
                    ]);
                }
                assert forall|j2: u64|
                    j2 < BLOCK_PER_PAGE && !nth_bit(s.pages@[i as int].bf(), j2) implies (
                #[trigger] s.pages@[i as int].blocks[j2 as int]).is_used_state() by {
                    if j2 != j {
                        assert(s.pages@[i as int].blocks[j2 as int] == mid.pages@[
                            i as int
                        ].blocks[j2 as int]);
                    }
                }
            }
            assert(s.wf()) by {
                assert forall|i2: int|
                    0 <= i2 < s.pages@.len() && (#[trigger] s.pages@[i2]).live implies
                    s.pages@[i2].strict() by {
                    if i2 != i as int {
                        assert(s.pages@[i2] == mid.pages@[i2]);
                    }
                }
                assert forall|i2: int| 0 <= i2 < s.pages@.len() implies (#[trigger] s.pages@[
                    i2
                ]).blocks.len() == BLOCK_PER_PAGE && s.pages@[i2].tags_ok(i2) by {
                    if i2 != i as int {
                        assert(s.pages@[i2] == mid.pages@[i2]);
                    } else {
                        assert forall|j2: int| 0 <= j2 < BLOCK_PER_PAGE implies {
                            let t = (#[trigger] s.pages@[i2].blocks[j2]).page;
                            &&& t.spec_page_ptr() == i2 as u64
                            &&& t.spec_index_block() == j2 as u64
                            &&& t.spec_kind_bits() == PageKind::SharedArena.code()
                        } by {
                            if j2 != j as int {
                                assert(s.pages@[i2].blocks[j2] == mid.pages@[i2].blocks[j2]);
                            }
                        }
                    }
                }
            }
            assert(tag.spec_page_ptr() == i as u64 && tag.spec_index_block() == j as u64
                && tag.spec_kind_bits() == PageKind::SharedArena.code());
            assert(s.tag_in_range(tag));
            assert(s.counter_of(tag) == 1);
            assert(s.stored_at(tag) == Some(value));
            assert(s.spec_stats_free() == mid.spec_stats_free());
            assert(s.spec_npages() == mid.spec_npages());
            assert(s.preserves_handles_of(old(self))) by {
                assert forall|t: PageTaggedPtr|
                    old(self).tag_in_range(t) && #[trigger] old(self).counter_of(t) >= 1 implies
                    s.tag_in_range(t) && s.counter_of(t) == old(self).counter_of(t)
                        && s.stored_at(t) == old(self).stored_at(t) by {
                    assert(mid.tag_in_range(t) && mid.counter_of(t) == old(self).counter_of(t)
                        && mid.stored_at(t) == old(self).stored_at(t));
                    if t.spec_page_ptr() == i as u64 && t.spec_index_block() == j as u64 {
                        assert(mid.counter_of(t) == 0);
                    } else {
                        assert(s.pages@[t.spec_page_ptr() as int].blocks@[t.spec_index_block()
                            as int] == mid.pages@[t.spec_page_ptr() as int].blocks@[
                            t.spec_index_block() as int
                        ]);
                    }
                }
            }
            if old(self).spec_stats_free() == 0 {
                assert(old(self).growth_amount() >= 1);
            }
            assert forall|t: PageTaggedPtr|
                t.spec_page_ptr() < old(self).store_len() && #[trigger] old(self).counter_of(t)
                    >= 1 implies t != tag by {
                if t == tag {
                    assert(t.spec_page_ptr() == i as u64);
                    assert((i as int) < old(self).pages@.len());
                    assert(old(self).pages@[i as int].blocks@[j as int].counter == 0);
                    assert(old(self).counter_of(t) == 0);
                }
            }
        }
        tag
    }

    /// Writes a value in the arena, and returns an [`ArenaBox`] pointing
    /// to it.  When a listed page has a free block the arena does not grow;
    /// when none has, a batch of pages is added first.
    pub fn alloc_box(&mut self, value: T) -> (r: ArenaBox<T>)
        requires
            old(self).wf(),
            !old(self).is_released(),
            old(self).store_len() + 900_000 <= MAX_PAGES,
        ensures
            final(self).wf(),
            !final(self).is_released(),
            final(self).box_valid(&r),
            final(self).counter_of(r.spec_tag()) == 1,
            final(self).stored_at(r.spec_tag()) == Some(value),
            final(self).preserves_handles_of(old(self)),
            final(self).spec_stats_used() == old(self).spec_stats_used() + 1,
            forall|t: PageTaggedPtr|
                t.spec_page_ptr() < old(self).store_len() && #[trigger] old(self).counter_of(t)
                    >= 1 ==> t
                    != r.spec_tag(),
            r.spec_tag().spec_page_ptr() < final(self).store_len(),
            final(self).store_len() <= old(self).store_len() + old(self).growth_amount(),
            old(self).spec_stats_free() >= 1 ==> final(self).store_len() == old(self).store_len(),
            old(self).spec_stats_free() == 0 && !old(self).has_deferred() ==> final(self).store_len() == old(self).store_len() + old(self).growth_amount(),
            final(self).has_deferred() ==> old(self).has_deferred(),
            old(self).spec_stats_free() >= 1 ==> final(self).spec_npages() == old(
                self,
            ).spec_npages() && final(self).spec_stats_free() == old(self).spec_stats_free() - 1,
            old(self).spec_stats_free() == 0 ==> final(self).spec_npages() == old(
                self,
            ).spec_npages() + old(self).growth_amount() && final(self).spec_stats_free() == old(
                self,
            ).growth_amount() * 63 - 1 && old(self).growth_amount() >= 1,
    {
        let tag = self.alloc_block(value);
        ArenaBox::from_tag(tag)
    }

    /// Like [`Self::alloc_box`], but the value is produced by the given
    /// initializer once a place for it has been found.
    pub fn alloc_with<F: FnOnce() -> T>(&mut self, initializer: F) -> (r: ArenaBox<T>)
        requires
            old(self).wf(),
            !old(self).is_released(),
            old(self).store_len() + 900_000 <= MAX_PAGES,
            call_requires(initializer, ()),
        ensures
            final(self).wf(),
            !final(self).is_released(),
            final(self).box_valid(&r),
            exists|v: T|
                #[trigger] call_ensures(initializer, (), v) && final(self).stored_at(r.spec_tag())
                    == Some(v),
            final(self).preserves_handles_of(old(self)),
            final(self).spec_stats_used() == old(self).spec_stats_used() + 1,
            forall|t: PageTaggedPtr|
                t.spec_page_ptr() < old(self).store_len() && #[trigger] old(self).counter_of(t)
                    >= 1 ==> t
                    != r.spec_tag(),
            r.spec_tag().spec_page_ptr() < final(self).store_len(),
            final(self).store_len() <= old(self).store_len() + old(self).growth_amount(),
            old(self).spec_stats_free() >= 1 ==> final(self).store_len() == old(self).store_len(),
            old(self).spec_stats_free() == 0 && !old(self).has_deferred() ==> final(self).store_len() == old(self).store_len() + old(self).growth_amount(),
            final(self).has_deferred() ==> old(self).has_deferred(),
    {
        let value = initializer();
        let tag = self.alloc_block(value);
        ArenaBox::from_tag(tag)
    }

    /// Writes a value in the arena, and returns an [`ArenaArc`] pointing
    /// to it.
    pub fn alloc_arc(&mut self, value: T) -> (r: ArenaArc<T>)
        requires
            old(self).wf(),
            !old(self).is_released(),
            old(self).store_len() + 900_000 <= MAX_PAGES,
        ensures
            final(self).wf(),
            !final(self).is_released(),
            final(self).arc_valid(&r),
            final(self).counter_of(r.spec_tag()) == 1,
            final(self).stored_at(r.spec_tag()) == Some(value),
            final(self).preserves_handles_of(old(self)),
            final(self).spec_stats_used() == old(self).spec_stats_used() + 1,
            forall|t: PageTaggedPtr|
                t.spec_page_ptr() < old(self).store_len() && #[trigger] old(self).counter_of(t)
                    >= 1 ==> t
                    != r.spec_tag(),
            r.spec_tag().spec_page_ptr() < final(self).store_len(),
            final(self).store_len() <= old(self).store_len() + old(self).growth_amount(),
            old(self).spec_stats_free() >= 1 ==> final(self).store_len() == old(self).store_len(),
            old(self).spec_stats_free() == 0 && !old(self).has_deferred() ==> final(self).store_len() == old(self).store_len() + old(self).growth_amount(),
            final(self).has_deferred() ==> old(self).has_deferred(),
            old(self).spec_stats_free() >= 1 ==> final(self).spec_npages() == old(
                self,
            ).spec_npages() && final(self).spec_stats_free() == old(self).spec_stats_free() - 1,
            old(self).spec_stats_free() == 0 ==> final(self).spec_npages() == old(
                self,
            ).spec_npages() + old(self).growth_amount() && final(self).spec_stats_free() == old(
                self,
            ).growth_amount() * 63 - 1,
    {
        let tag = self.alloc_block(value);
        ArenaArc::from_tag(tag)
    }

    /// Like [`Self::alloc_arc`], but the value is produced by the given
    /// initializer once a place for it has been found.
    pub fn alloc_arc_with<F: FnOnce() -> T>(&mut self, initializer: F) -> (r: ArenaArc<T>)
        requires
            old(self).wf(),
            !old(self).is_released(),
            old(self).store_len() + 900_000 <= MAX_PAGES,
            call_requires(initializer, ()),
        ensures
            final(self).wf(),
            !final(self).is_released(),
            final(self).arc_valid(&r),
            exists|v: T|
                #[trigger] call_ensures(initializer, (), v) && final(self).stored_at(r.spec_tag())
                    == Some(v),
            final(self).preserves_handles_of(old(self)),
            final(self).spec_stats_used() == old(self).spec_stats_used() + 1,
            forall|t: PageTaggedPtr|
                t.spec_page_ptr() < old(self).store_len() && #[trigger] old(self).counter_of(t)
                    >= 1 ==> t
                    != r.spec_tag(),
            r.spec_tag().spec_page_ptr() < final(self).store_len(),
            final(self).store_len() <= old(self).store_len() + old(self).growth_amount(),
            old(self).spec_stats_free() >= 1 ==> final(self).store_len() == old(self).store_len(),
            old(self).spec_stats_free() == 0 && !old(self).has_deferred() ==> final(self).store_len() == old(self).store_len() + old(self).growth_amount(),
            final(self).has_deferred() ==> old(self).has_deferred(),
    {
        let value = initializer();
        let tag = self.alloc_block(value);
        ArenaArc::from_tag(tag)
    }

    /// Writes a value in the arena, and returns an [`ArenaRc`] pointing
    /// to it.
    pub fn alloc_rc(&mut self, value: T) -> (r: ArenaRc<T>)
        requires
            old(self).wf(),
            !old(self).is_released(),
            old(self).store_len() + 900_000 <= MAX_PAGES,
        ensures
            final(self).wf(),
            !final(self).is_released(),
            final(self).rc_valid(&r),
            final(self).counter_of(r.spec_tag()) == 1,
            final(self).stored_at(r.spec_tag()) == Some(value),
            final(self).preserves_handles_of(old(self)),
            final(self).spec_stats_used() == old(self).spec_stats_used() + 1,
            forall|t: PageTaggedPtr|
                t.spec_page_ptr() < old(self).store_len() && #[trigger] old(self).counter_of(t)
                    >= 1 ==> t
                    != r.spec_tag(),
            r.spec_tag().spec_page_ptr() < final(self).store_len(),
            final(self).store_len() <= old(self).store_len() + old(self).growth_amount(),
            old(self).spec_stats_free() >= 1 ==> final(self).store_len() == old(self).store_len(),
            old(self).spec_stats_free() == 0 && !old(self).has_deferred() ==> final(self).store_len() == old(self).store_len() + old(self).growth_amount(),
            final(self).has_deferred() ==> old(self).has_deferred(),
            old(self).spec_stats_free() >= 1 ==> final(self).spec_npages() == old(
                self,
            ).spec_npages() && final(self).spec_stats_free() == old(self).spec_stats_free() - 1,
            old(self).spec_stats_free() == 0 ==> final(self).spec_npages() == old(
                self,
            ).spec_npages() + old(self).growth_amount() && final(self).spec_stats_free() == old(
                self,
            ).growth_amount() * 63 - 1,
    {
        let tag = self.alloc_block(value);
        ArenaRc::from_tag(tag)
    }

    /// Like [`Self::alloc_rc`], but the value is produced by the given
    /// initializer once a place for it has been found.
    pub fn alloc_rc_with<F: FnOnce() -> T>(&mut self, initializer: F) -> (r: ArenaRc<T>)
        requires
            old(self).wf(),
            !old(self).is_released(),
            old(self).store_len() + 900_000 <= MAX_PAGES,
            call_requires(initializer, ()),
        ensures
            final(self).wf(),
            !final(self).is_released(),
            final(self).rc_valid(&r),
            exists|v: T|
                #[trigger] call_ensures(initializer, (), v) && final(self).stored_at(r.spec_tag())
                    == Some(v),
            final(self).preserves_handles_of(old(self)),
            final(self).spec_stats_used() == old(self).spec_stats_used() + 1,
            forall|t: PageTaggedPtr|
                t.spec_page_ptr() < old(self).store_len() && #[trigger] old(self).counter_of(t)
                    >= 1 ==> t
                    != r.spec_tag(),
            r.spec_tag().spec_page_ptr() < final(self).store_len(),
            final(self).store_len() <= old(self).store_len() + old(self).growth_amount(),
            old(self).spec_stats_free() >= 1 ==> final(self).store_len() == old(self).store_len(),
            old(self).spec_stats_free() == 0 && !old(self).has_deferred() ==> final(self).store_len() == old(self).store_len() + old(self).growth_amount(),
            final(self).has_deferred() ==> old(self).has_deferred(),
    {
        let value = initializer();
        let tag = self.alloc_block(value);
        ArenaRc::from_tag(tag)
    }

    /// The block location a tag of this arena names.
    fn locate(&self, tag: PageTaggedPtr) -> (r: (usize, usize))
        requires
            self.wf(),
            self.tag_in_range(tag),
        ensures
            r.0 == tag.spec_page_ptr(),
            r.1 == tag.spec_index_block(),
            r.0 < self.pages@.len(),
            r.1 < BLOCK_PER_PAGE,
            self.pages@[r.0 as int].live,
    {
        let iw = tag.page_ptr();
        proof {
            assert(self.pages@.len() == self.pages.len());
            assert(iw < self.pages.len() as u64);
        }
        let i = iw as usize;
        let j = tag.index_block();
        (i, j)
    }

    /// Read through an owning handle.
    pub fn get_box<'a>(&'a self, h: &ArenaBox<T>) -> (r: &'a T)
        requires
            self.wf(),
            self.box_valid(h),
        ensures
            self.stored_at(h.spec_tag()) == Some(*r),
    {
        let (i, j) = self.locate(h.tag);
        match &self.pages[i].blocks[j].value {
            Some(v) => v,
            None => vstd::pervasive::unreached(),
        }
    }

    /// Read through a shared handle.
    pub fn get_arc<'a>(&'a self, h: &ArenaArc<T>) -> (r: &'a T)
        requires
            self.wf(),
            self.arc_valid(h),
        ensures
            self.stored_at(h.spec_tag()) == Some(*r),
    {
        let (i, j) = self.locate(h.tag);
        match &self.pages[i].blocks[j].value {
            Some(v) => v,
            None => vstd::pervasive::unreached(),
        }
    }

    /// Read through a single-thread shared handle.
    pub fn get_rc<'a>(&'a self, h: &ArenaRc<T>) -> (r: &'a T)
        requires
            self.wf(),
            self.rc_valid(h),
        ensures
            self.stored_at(h.spec_tag()) == Some(*r),
    {
        let (i, j) = self.locate(h.tag);
        match &self.pages[i].blocks[j].value {
            Some(v) => v,
            None => vstd::pervasive::unreached(),
        }
    }

    /// Clone a shared handle: raise its block's count by one.
    pub fn clone_arc(&mut self, h: &ArenaArc<T>) -> (r: ArenaArc<T>)
        requires
            old(self).wf(),
            old(self).arc_valid(h),
            old(self).counter_of(h.spec_tag()) < usize::MAX / 2,
        ensures
            final(self).wf(),
            final(self).is_released() == old(self).is_released(),
            final(self).has_deferred() == old(self).has_deferred(),
            r.spec_tag() == h.spec_tag(),
            final(self).arc_valid(h),
            final(self).arc_valid(&r),
            final(self).counter_of(h.spec_tag()) == old(self).counter_of(h.spec_tag()) + 1,
            final(self).stored_at(h.spec_tag()) == old(self).stored_at(h.spec_tag()),
            final(self).preserves_other_handles(old(self), h.spec_tag()),
            final(self).spec_stats_free() == old(self).spec_stats_free(),
            final(self).spec_stats_used() == old(self).spec_stats_used(),
            final(self).spec_npages() == old(self).spec_npages(),
            final(self).spec_full() == old(self).spec_full(),
            final(self).spec_free() == old(self).spec_free(),
            final(self).spec_pending() == old(self).spec_pending(),
    {
        let (i, j) = self.locate(h.tag);
        let c = self.pages[i].blocks[j].counter;
        self.pages[i].blocks[j].counter = c + 1;
        proof {
            self.lemma_counter_write_ok(*old(self), i, j, h.spec_tag());
        }
        ArenaArc::from_tag(h.tag)
    }

    /// Clone a single-thread shared handle: raise its block's count by one.
    pub fn clone_rc(&mut self, h: &ArenaRc<T>) -> (r: ArenaRc<T>)
        requires
            old(self).wf(),
            old(self).rc_valid(h),
            old(self).counter_of(h.spec_tag()) < usize::MAX / 2,
        ensures
            final(self).wf(),
            final(self).is_released() == old(self).is_released(),
            final(self).has_deferred() == old(self).has_deferred(),
            r.spec_tag() == h.spec_tag(),
            final(self).rc_valid(h),
            final(self).rc_valid(&r),
            final(self).counter_of(h.spec_tag()) == old(self).counter_of(h.spec_tag()) + 1,
            final(self).stored_at(h.spec_tag()) == old(self).stored_at(h.spec_tag()),
            final(self).preserves_other_handles(old(self), h.spec_tag()),
            final(self).spec_stats_free() == old(self).spec_stats_free(),
            final(self).spec_stats_used() == old(self).spec_stats_used(),
            final(self).spec_npages() == old(self).spec_npages(),
            final(self).spec_full() == old(self).spec_full(),
            final(self).spec_free() == old(self).spec_free(),
            final(self).spec_pending() == old(self).spec_pending(),
    {
        let (i, j) = self.locate(h.tag);
        let c = self.pages[i].blocks[j].counter;
        self.pages[i].blocks[j].counter = c + 1;
        proof {
            self.lemma_counter_write_ok(*old(self), i, j, h.spec_tag());
        }
        ArenaRc::from_tag(h.tag)
    }

    /// After raising the counter of one used block, the invariant and all
    /// accounting stand as before, and every other handle is untouched.
    proof fn lemma_counter_write_ok(&self, o: Self, i: usize, j: usize, t0: PageTaggedPtr)
        requires
            o.wf(),
            i < o.pages@.len(),
            j < BLOCK_PER_PAGE,
            o.pages@[i as int].live,
            o.pages@[i as int].blocks@[j as int].counter >= 1,
            t0.spec_page_ptr() == i,
            t0.spec_index_block() == j,
            t0.spec_kind_bits() == PageKind::SharedArena.code(),
            self.pages@.len() == o.pages@.len(),
            forall|i2: int|
                0 <= i2 < o.pages@.len() && i2 != i ==> self.pages@[i2] == o.pages@[i2],
            self.pages@[i as int].bf() == o.pages@[i as int].bf(),
            self.pages@[i as int].live == o.pages@[i as int].live,
            self.pages@[i as int].in_free_list == o.pages@[i as int].in_free_list,
            self.pages@[i as int].blocks@.len() == o.pages@[i as int].blocks@.len(),
            forall|j2: int|
                0 <= j2 < o.pages@[i as int].blocks@.len() && j2 != j ==> self.pages@[
                    i as int
                ].blocks@[j2] == o.pages@[i as int].blocks@[j2],
            self.pages@[i as int].blocks@[j as int].counter >= 1,
            self.pages@[i as int].blocks@[j as int].value == o.pages@[i as int].blocks@[
                j as int
            ].value,
            self.pages@[i as int].blocks@[j as int].page == o.pages@[i as int].blocks@[
                j as int
            ].page,
            self.free_list == o.free_list,
            self.pending_free_list == o.pending_free_list,
            self.full_list == o.full_list,
            self.npages == o.npages,
            self.to_free == o.to_free,
            self.to_free_delay == o.to_free_delay,
            self.released == o.released,
        ensures
            self.wf(),
            self.bfs() == o.bfs(),
            self.spec_stats_free() == o.spec_stats_free(),
            self.preserves_other_handles(&o, t0),
    {
        assert(self.bfs() =~= o.bfs());
        assert(self.wf()) by {
            assert forall|i2: int|
                0 <= i2 < self.pages@.len() && (#[trigger] self.pages@[i2]).live implies
                self.pages@[i2].strict() by {
                if i2 != i as int {
                    assert(self.pages@[i2] == o.pages@[i2]);
                } else {
                    assert(o.pages@[i2].strict());
                    assert forall|j2: u64|
                        j2 < BLOCK_PER_PAGE && nth_bit(self.pages@[i2].bf(), j2) implies (
                    #[trigger] self.pages@[i2].blocks[j2 as int]).is_free_state() by {
                        if j2 != j {
                            assert(self.pages@[i2].blocks[j2 as int] == o.pages@[i2].blocks[
                                j2 as int
                            ]);
                        } else {
                            assert(o.pages@[i2].blocks[j as int].is_free_state());
                        }
                    }
                    assert forall|j2: u64|
                        j2 < BLOCK_PER_PAGE && !nth_bit(self.pages@[i2].bf(), j2) implies (
                    #[trigger] self.pages@[i2].blocks[j2 as int]).is_used_state() by {
                        if j2 != j {
                            assert(self.pages@[i2].blocks[j2 as int] == o.pages@[i2].blocks[
                                j2 as int
                            ]);
                        }
                    }
                }
            }
            assert forall|i2: int| 0 <= i2 < self.pages@.len() implies (#[trigger] self.pages@[
                i2
            ]).blocks.len() == BLOCK_PER_PAGE && self.pages@[i2].tags_ok(i2) by {
                if i2 != i as int {
                    assert(self.pages@[i2] == o.pages@[i2]);
                } else {
                    assert forall|j2: int| 0 <= j2 < BLOCK_PER_PAGE implies {
                        let t = (#[trigger] self.pages@[i2].blocks[j2]).page;
                        &&& t.spec_page_ptr() == i2 as u64
                        &&& t.spec_index_block() == j2 as u64
                        &&& t.spec_kind_bits() == PageKind::SharedArena.code()
                    } by {
                        if j2 != j as int {
                            assert(self.pages@[i2].blocks[j2] == o.pages@[i2].blocks[j2]);
                        }
                    }
                }
            }
        }
        assert forall|t: PageTaggedPtr|
            o.tag_in_range(t) && #[trigger] o.counter_of(t) >= 1 && t != t0 implies
            self.tag_in_range(t) && self.counter_of(t) == o.counter_of(t) && self.stored_at(t)
                == o.stored_at(t) by {
            if t.spec_page_ptr() == i && t.spec_index_block() == j {
                assert(t.spec_kind_bits() == PageKind::SharedArena.code());
                assert(o.pages@[i as int].tags_ok(i as int));
                assert(o.pages@[i as int].blocks[j as int].page.spec_kind_bits()
                    == PageKind::SharedArena.code());
                crate::block::lemma_tag_injective(t, t0);
            } else {
                assert(self.pages@[t.spec_page_ptr() as int].blocks@[t.spec_index_block()
                    as int] == o.pages@[t.spec_page_ptr() as int].blocks@[t.spec_index_block()
                    as int]);
            }
        }
    }

    /// The drop engine: set the freed block's bit, deallocate the page if
    /// nothing references it any more, and otherwise re-suggest the page on
    /// the pending-free list unless it is already on a list.
    ///
    /// The slot must already stand open: count zero, nothing stored.
    fn drop_block(&mut self, i: usize, j: usize)
        requires
            old(self).wf_open_slot(i as int, j as int),
        ensures
            final(self).wf(),
            final(self).is_released() == old(self).is_released(),
            final(self).has_deferred() == old(self).has_deferred(),
            final(self).store_len() == old(self).store_len(),
            final(self).spec_npages() == old(self).spec_npages(),
            final(self).spec_full() == old(self).spec_full(),
            final(self).spec_free() == old(self).spec_free(),
            final(self).has_deferred() == old(self).has_deferred(),
            forall|i2: int|
                0 <= i2 < old(self).store_len() ==> (#[trigger] final(self).pages@[i2]).blocks
                    == old(self).pages@[i2].blocks,
            forall|i2: int|
                0 <= i2 < old(self).store_len() && i2 != i ==> (final(self).page_live(i2) == old(
                    self,
                ).page_live(i2)),
            !old(self).is_released() ==> {
                &&& final(self).page_live(i as int)
                &&& final(self).spec_stats_free() == old(self).spec_stats_free() + 1
                &&& final(self).spec_pending() == (if old(self).spec_free().contains(i) || old(
                    self,
                ).spec_pending().contains(i) {
                    old(self).spec_pending()
                } else {
                    old(self).spec_pending().push(i)
                })
            },
            old(self).is_released() ==> (final(self).page_live(i as int) <==> free_user(
                old(self).bfs()[i as int],
            ) < 62),
    {
        let ghost o = *old(self);
        proof {
            assert(o.pages@[i as int].strict_except(j as int));
            assert(self.pages@.len() == self.pages.len());
            if !o.released {
                assert(o.full_list@.contains(i)) by {
                    assert(o.pages@[i as int].live);
                    if o.in_to_free(i) {
                        match o.to_free {
                            Some(v) => {
                                assert(v@.contains(i));
                                let q = choose|q: int| 0 <= q < v@.len() && v@[q] == i;
                                assert(o.pages@[i as int].bf() == FRESH_BITFIELD);
                                crate::bits::lemma_special_bitfields(o.pages@[i as int].bf());
                                assert(nth_bit(o.pages@[i as int].bf(), j as u64));
                            },
                            None => {},
                        }
                    }
                }
                assert(nth_bit(o.pages@[i as int].bf(), 63));
            } else {
                assert(o.full_list@.len() == 0);
                assert(!o.full_list@.contains(i)) by {
                    if o.full_list@.contains(i) {
                        let q = choose|q: int|
                            0 <= q < o.full_list@.len() && o.full_list@[q] == i;
                    }
                }
                assert(!nth_bit(o.pages@[i as int].bf(), 63));
            }
        }
        let bit: u64 = 1u64 << (j as u64);
        let bf = self.pages[i].bitfield.0;
        let new_bf = bf | bit;
        self.pages[i].bitfield.0 = new_bf;
        proof {
            let s = *self;
            crate::bits::lemma_count_or(bf, j as u64, 63);
            assert(free_user(new_bf) == free_user(bf) + 1);
            assert forall|k: u64| k < 64 implies nth_bit(new_bf, k) == (k == j || nth_bit(
                bf,
                k,
            )) by {
                crate::bits::lemma_nth_bit_or_mask(bf, j as u64, k);
            }
            assert(s.bfs() =~= o.bfs().update(i as int, new_bf));
            assert(s.pages@[i as int].strict()) by {
                assert forall|j2: u64|
                    j2 < BLOCK_PER_PAGE && nth_bit(new_bf, j2) implies (#[trigger] s.pages@[
                    i as int
                ].blocks[j2 as int]).is_free_state() by {
                    if j2 != j {
                        assert(nth_bit(bf, j2));
                    }
                }
            }
            crate::bits::lemma_count_set_bounds(bf, 63);
        }
        if new_bf == DEALLOC_BITFIELD {
            self.pages[i].live = false;
            proof {
                let s = *self;
                crate::bits::lemma_special_bitfields(new_bf);
                assert(free_user(new_bf) == 63) by {
                    crate::bits::lemma_count_extremes(new_bf, 63);
                }
                assert(o.is_released()) by {
                    if !o.released {
                        assert(nth_bit(new_bf, 63));
                    }
                }
                assert(s.bfs() =~= o.bfs().update(i as int, new_bf));
                assert(s.wf()) by {
                    assert forall|i2: int|
                        0 <= i2 < s.pages@.len() && (#[trigger] s.pages@[i2]).live implies
                        s.pages@[i2].strict() && (nth_bit(s.pages@[i2].bf(), 63) <==> (
                    s.full_list@.contains(i2 as usize) || s.in_to_free(i2 as usize))) by {
                        assert(s.pages@[i2] == o.pages@[i2]);
                    }
                    assert forall|i2: int| 0 <= i2 < s.pages@.len() implies (
                    #[trigger] s.pages@[i2]).blocks.len() == BLOCK_PER_PAGE && s.pages@[
                        i2
                    ].tags_ok(i2) by {
                        if i2 != i as int {
                            assert(s.pages@[i2] == o.pages@[i2]);
                        }
                    }
                }
            }
            return;
        }
        proof {
            crate::bits::lemma_count_set_bounds(new_bf, 63);
            assert(free_user(bf) <= 62);
            assert(free_user(old(self).bfs()[i as int]) != 62 || !old(self).is_released()) by {
                if old(self).is_released() && free_user(bf) == 62 {
                    crate::bits::lemma_count_extremes(new_bf, 63);
                    assert(free_user(new_bf) == 63);
                    crate::bits::lemma_special_bitfields(new_bf);
                    assert(!nth_bit(new_bf, 63)) by {
                        assert(nth_bit(new_bf, 63) == nth_bit(bf, 63));
                    }
                }
            }
        }
        if !self.pages[i].in_free_list {
            self.pages[i].in_free_list = true;
            if !self.released {
                self.pending_free_list.push(i);
                proof {
                    let s = *self;
                    assert(!o.pages@[i as int].in_free_list);
                    assert(!o.free_list@.contains(i) && !o.pending_free_list@.contains(i));
                    assert(free_user(bf) == 0);
                    assert(s.pending_free_list@ == o.pending_free_list@.push(i));
                    assert(s.bfs() =~= o.bfs().update(i as int, new_bf));
                    assert(s.wf()) by {
                        assert forall|i2: int|
                            0 <= i2 < s.pages@.len() && (#[trigger] s.pages@[i2]).live implies
                            s.pages@[i2].strict() by {
                            if i2 != i as int {
                                assert(s.pages@[i2] == o.pages@[i2]);
                            }
                        }
                        assert forall|i2: int| 0 <= i2 < s.pages@.len() implies (
                        #[trigger] s.pages@[i2]).blocks.len() == BLOCK_PER_PAGE && s.pages@[
                            i2
                        ].tags_ok(i2) by {
                            if i2 != i as int {
                                assert(s.pages@[i2] == o.pages@[i2]);
                            }
                        }
                        assert(s.pending_free_list@.no_duplicates()) by {
                            assert(forall|q: int|
                                0 <= q < o.pending_free_list@.len()
                                    ==> s.pending_free_list@[q] == o.pending_free_list@[q]);
                            assert(s.pending_free_list@[o.pending_free_list@.len() as int] == i);
                        }
                        assert forall|x: usize|
                            s.pending_free_list@.contains(x) implies s.full_list@.contains(x)
                                && free_user(s.pages@[x as int].bf()) >= 1 by {
                            crate::bits_sum::lemma_take_push_contains(
                                s.pending_free_list@,
                                o.pending_free_list@.len() as int,
                                x,
                            );
                            assert(s.pending_free_list@.take(o.pending_free_list@.len() as int)
                                =~= o.pending_free_list@);
                            assert(s.pending_free_list@.take(o.pending_free_list@.len() as int + 1)
                                =~= s.pending_free_list@);
                            if o.pending_free_list@.contains(x) {
                                assert(x != i);
                                assert(s.pages@[x as int] == o.pages@[x as int]);
                            } else {
                                assert(x == i);
                                assert(nth_bit(new_bf, j as u64));
                                crate::bits::lemma_count_extremes(new_bf, 63);
                                crate::bits::lemma_count_set_bounds(new_bf, 63);
                            }
                        }
                        assert forall|x: usize|
                            s.free_list@.contains(x) implies s.full_list@.contains(x)
                                && !s.pending_free_list@.contains(x) by {
                            crate::bits_sum::lemma_take_push_contains(
                                s.pending_free_list@,
                                o.pending_free_list@.len() as int,
                                x,
                            );
                            assert(s.pending_free_list@.take(o.pending_free_list@.len() as int)
                                =~= o.pending_free_list@);
                            assert(s.pending_free_list@.take(o.pending_free_list@.len() as int + 1)
                                =~= s.pending_free_list@);
                        }
                        assert forall|x: usize|
                            s.full_list@.contains(x) implies (s.pages@[x as int].in_free_list
                                == (s.free_list@.contains(x) || s.pending_free_list@.contains(
                                x,
                            ))) && (!s.free_list@.contains(x) && !s.pending_free_list@.contains(
                                x,
                            ) ==> free_user(s.pages@[x as int].bf()) == 0) by {
                            crate::bits_sum::lemma_take_push_contains(
                                s.pending_free_list@,
                                o.pending_free_list@.len() as int,
                                x,
                            );
                            assert(s.pending_free_list@.take(o.pending_free_list@.len() as int)
                                =~= o.pending_free_list@);
                            assert(s.pending_free_list@.take(o.pending_free_list@.len() as int + 1)
                                =~= s.pending_free_list@);
                            if x != i {
                                assert(s.pages@[x as int] == o.pages@[x as int]);
                            } else {
                                assert(s.pages@[x as int].in_free_list);
                                assert(s.pending_free_list@.contains(i)) by {
                                    assert(s.pending_free_list@[o.pending_free_list@.len()
                                        as int] == i);
                                }
                            }
                        }
                        match s.to_free {
                            Some(v) => {
                                assert forall|q: int| 0 <= q < v@.len() implies (
                                #[trigger] v@[q]) < s.pages@.len() && s.pages@[v@[
                                    q
                                ] as int].live && s.pages@[v@[q] as int].bf() == FRESH_BITFIELD
                                    && !s.full_list@.contains(v@[q]) by {
                                    assert(v@[q] != i);
                                    assert(s.pages@[v@[q] as int] == o.pages@[v@[q] as int]);
                                }
                            },
                            None => {},
                        }
                        assert forall|i2: int|
                            0 <= i2 < s.pages@.len() && (#[trigger] s.pages@[i2]).live implies (
                        nth_bit(s.pages@[i2].bf(), 63) <==> (s.full_list@.contains(i2 as usize)
                            || s.in_to_free(i2 as usize))) by {
                            if i2 != i as int {
                                assert(s.pages@[i2] == o.pages@[i2]);
                            } else {
                                assert(nth_bit(new_bf, 63) == nth_bit(bf, 63));
                            }
                        }
                    }
                    crate::bits_sum::lemma_sum_free_update_absent(
                        o.bfs(),
                        o.free_list@,
                        i as int,
                        new_bf,
                    );
                    crate::bits_sum::lemma_sum_free_update_absent(
                        o.bfs(),
                        o.pending_free_list@,
                        i as int,
                        new_bf,
                    );
                    crate::bits_sum::lemma_sum_free_push(
                        s.bfs(),
                        o.pending_free_list@,
                        i,
                    );
                    assert(s.spec_stats_free() == o.spec_stats_free() + 1);
                }
            } else {
                proof {
                    let s = *self;
                    assert(s.bfs() =~= o.bfs().update(i as int, new_bf));
                    assert(s.wf()) by {
                        assert forall|i2: int|
                            0 <= i2 < s.pages@.len() && (#[trigger] s.pages@[i2]).live implies
                            s.pages@[i2].strict() && (nth_bit(s.pages@[i2].bf(), 63) <==> (
                        s.full_list@.contains(i2 as usize) || s.in_to_free(i2 as usize))) by {
                            if i2 != i as int {
                                assert(s.pages@[i2] == o.pages@[i2]);
                            } else {
                                assert(nth_bit(new_bf, 63) == nth_bit(bf, 63));
                            }
                        }
                        assert forall|i2: int| 0 <= i2 < s.pages@.len() implies (
                        #[trigger] s.pages@[i2]).blocks.len() == BLOCK_PER_PAGE && s.pages@[
                            i2
                        ].tags_ok(i2) by {
                            if i2 != i as int {
                                assert(s.pages@[i2] == o.pages@[i2]);
                            }
                        }
                    }
                }
            }
        } else {
            proof {
                let s = *self;
                assert(s.bfs() =~= o.bfs().update(i as int, new_bf));
                assert(s.wf()) by {
                    assert forall|i2: int|
                        0 <= i2 < s.pages@.len() && (#[trigger] s.pages@[i2]).live implies
                        s.pages@[i2].strict() && (nth_bit(s.pages@[i2].bf(), 63) <==> (
                    s.full_list@.contains(i2 as usize) || s.in_to_free(i2 as usize))) by {
                        if i2 != i as int {
                            assert(s.pages@[i2] == o.pages@[i2]);
                        } else {
                            assert(nth_bit(new_bf, 63) == nth_bit(bf, 63));
                        }
                    }
                    assert forall|i2: int| 0 <= i2 < s.pages@.len() implies (
                    #[trigger] s.pages@[i2]).blocks.len() == BLOCK_PER_PAGE && s.pages@[
                        i2
                    ].tags_ok(i2) by {
                        if i2 != i as int {
                            assert(s.pages@[i2] == o.pages@[i2]);
                        }
                    }
                    assert forall|x: usize|
                        s.pending_free_list@.contains(x) implies free_user(s.pages@[
                        x as int
                    ].bf()) >= 1 by {
                        if x == i {
                            assert(nth_bit(new_bf, j as u64));
                            crate::bits::lemma_count_extremes(new_bf, 63);
                            crate::bits::lemma_count_set_bounds(new_bf, 63);
                        } else {
                            assert(s.pages@[x as int] == o.pages@[x as int]);
                        }
                    }
                    assert forall|x: usize|
                        s.full_list@.contains(x) && !s.free_list@.contains(x)
                            && !s.pending_free_list@.contains(x) implies free_user(s.pages@[
                        x as int
                    ].bf()) == 0 by {
                        assert(x != i) by {
                            if !o.released {
                                assert(o.pages@[i as int].in_free_list);
                            }
                        }
                        assert(s.pages@[x as int] == o.pages@[x as int]);
                    }
                }
                if !o.released {
                    assert(o.free_list@.contains(i) || o.pending_free_list@.contains(i));
                    if o.free_list@.contains(i) {
                        crate::bits_sum::lemma_sum_free_update_present(
                            o.bfs(),
                            o.free_list@,
                            i as int,
                            new_bf,
                        );
                        crate::bits_sum::lemma_sum_free_update_absent(
                            o.bfs(),
                            o.pending_free_list@,
                            i as int,
                            new_bf,
                        );
                    } else {
                        crate::bits_sum::lemma_sum_free_update_absent(
                            o.bfs(),
                            o.free_list@,
                            i as int,
                            new_bf,
                        );
                        crate::bits_sum::lemma_sum_free_update_present(
                            o.bfs(),
                            o.pending_free_list@,
                            i as int,
                            new_bf,
                        );
                    }
                    assert(self.spec_stats_free() == o.spec_stats_free() + 1);
                }
            }
        }
    }

    /// Give an owning handle back: run the value's drop, free the block.
    pub fn drop_box(&mut self, h: ArenaBox<T>)
        requires
            old(self).wf(),
            old(self).box_valid(&h),
        ensures
            final(self).wf(),
            final(self).is_released() == old(self).is_released(),
            final(self).has_deferred() == old(self).has_deferred(),
            final(self).counter_of(h.spec_tag()) == 0,
            final(self).stored_at(h.spec_tag()) is None,
            final(self).preserves_other_handles(old(self), h.spec_tag()),
            final(self).spec_npages() == old(self).spec_npages(),
            final(self).spec_full() == old(self).spec_full(),
            final(self).spec_free() == old(self).spec_free(),
            !old(self).is_released() ==> final(self).spec_stats_free() == old(
                self,
            ).spec_stats_free() + 1 && final(self).spec_stats_used() == old(
                self,
            ).spec_stats_used() - 1,
            !old(self).is_released() ==> final(self).spec_pending() == (if old(
                self,
            ).spec_free().contains(h.spec_tag().spec_page_ptr() as usize) || old(
                self,
            ).spec_pending().contains(h.spec_tag().spec_page_ptr() as usize) {
                old(self).spec_pending()
            } else {
                old(self).spec_pending().push(h.spec_tag().spec_page_ptr() as usize)
            }),
            old(self).is_released() ==> (final(self).page_live(
                h.spec_tag().spec_page_ptr() as int,
            ) <==> free_user(old(self).bfs()[h.spec_tag().spec_page_ptr() as int]) < 62),
    {
        let (i, j) = self.locate(h.tag);
        self.free_slot(i, j, Ghost(h.spec_tag()));
    }

    /// Take the value back out of an owning handle, freeing the block
    /// without running the value's drop.
    pub fn into_inner(&mut self, b: ArenaBox<T>) -> (r: T)
        requires
            old(self).wf(),
            old(self).box_valid(&b),
        ensures
            old(self).stored_at(b.spec_tag()) == Some(r),
            final(self).wf(),
            final(self).is_released() == old(self).is_released(),
            final(self).has_deferred() == old(self).has_deferred(),
            final(self).counter_of(b.spec_tag()) == 0,
            final(self).stored_at(b.spec_tag()) is None,
            final(self).preserves_other_handles(old(self), b.spec_tag()),
            final(self).spec_npages() == old(self).spec_npages(),
            !old(self).is_released() ==> final(self).spec_stats_free() == old(
                self,
            ).spec_stats_free() + 1 && final(self).spec_stats_used() == old(
                self,
            ).spec_stats_used() - 1,
    {
        let (i, j) = self.locate(b.tag);
        let r = self.free_slot(i, j, Ghost(b.spec_tag()));
        match r {
            Some(v) => v,
            None => vstd::pervasive::unreached(),
        }
    }

    /// Give a shared handle back: lower the count, and free the block when
    /// this was the last handle.
    pub fn drop_arc(&mut self, h: ArenaArc<T>)
        requires
            old(self).wf(),
            old(self).arc_valid(&h),
        ensures
            final(self).wf(),
            final(self).is_released() == old(self).is_released(),
            final(self).has_deferred() == old(self).has_deferred(),
            final(self).counter_of(h.spec_tag()) == old(self).counter_of(h.spec_tag()) - 1,
            final(self).preserves_other_handles(old(self), h.spec_tag()),
            final(self).spec_npages() == old(self).spec_npages(),
            old(self).counter_of(h.spec_tag()) > 1 ==> final(self).arc_valid(&h) && final(self).stored_at(h.spec_tag()) == old(self).stored_at(h.spec_tag()) && final(self).spec_stats_free() == old(self).spec_stats_free() && final(self).spec_stats_used()
                == old(self).spec_stats_used() && final(self).spec_pending() == old(
                self,
            ).spec_pending() && final(self).spec_free() == old(self).spec_free() && final(self).spec_full() == old(self).spec_full(),
            old(self).counter_of(h.spec_tag()) == 1 ==> final(self).stored_at(h.spec_tag())
                is None,
            old(self).counter_of(h.spec_tag()) == 1 && !old(self).is_released() ==> final(self).spec_stats_free() == old(self).spec_stats_free() + 1 && final(self).spec_stats_used() == old(self).spec_stats_used() - 1,
            old(self).counter_of(h.spec_tag()) == 1 && old(self).is_released() ==> (final(self).page_live(h.spec_tag().spec_page_ptr() as int) <==> free_user(
                old(self).bfs()[h.spec_tag().spec_page_ptr() as int],
            ) < 62),
    {
        let (i, j) = self.locate(h.tag);
        let c = self.pages[i].blocks[j].counter;
        if c == 1 {
            let _ = self.free_slot(i, j, Ghost(h.spec_tag()));
        } else {
            self.pages[i].blocks[j].counter = c - 1;
            proof {
                self.lemma_counter_write_ok(*old(self), i, j, h.spec_tag());
            }
        }
    }

    /// Give a single-thread shared handle back: lower the count, and free
    /// the block when this was the last handle.
    pub fn drop_rc(&mut self, h: ArenaRc<T>)
        requires
            old(self).wf(),
            old(self).rc_valid(&h),
        ensures
            final(self).wf(),
            final(self).is_released() == old(self).is_released(),
            final(self).has_deferred() == old(self).has_deferred(),
            final(self).counter_of(h.spec_tag()) == old(self).counter_of(h.spec_tag()) - 1,
            final(self).preserves_other_handles(old(self), h.spec_tag()),
            final(self).spec_npages() == old(self).spec_npages(),
            old(self).counter_of(h.spec_tag()) > 1 ==> final(self).rc_valid(&h) && final(self).stored_at(h.spec_tag()) == old(self).stored_at(h.spec_tag()) && final(self).spec_stats_free() == old(self).spec_stats_free() && final(self).spec_stats_used()
                == old(self).spec_stats_used() && final(self).spec_pending() == old(
                self,
            ).spec_pending() && final(self).spec_free() == old(self).spec_free() && final(self).spec_full() == old(self).spec_full(),
            old(self).counter_of(h.spec_tag()) == 1 ==> final(self).stored_at(h.spec_tag())
                is None,
            old(self).counter_of(h.spec_tag()) == 1 && !old(self).is_released() ==> final(self).spec_stats_free() == old(self).spec_stats_free() + 1 && final(self).spec_stats_used() == old(self).spec_stats_used() - 1,
    {
        let (i, j) = self.locate(h.tag);
        let c = self.pages[i].blocks[j].counter;
        if c == 1 {
            let _ = self.free_slot(i, j, Ghost(h.spec_tag()));
        } else {
            self.pages[i].blocks[j].counter = c - 1;
            proof {
                self.lemma_counter_write_ok(*old(self), i, j, h.spec_tag());
            }
        }
    }

    /// Empty a block whose last handle is being given back: take the value
    /// out, zero the count, and run the drop engine on the slot.
    fn free_slot(&mut self, i: usize, j: usize, t0: Ghost<PageTaggedPtr>) -> (r: Option<T>)
        requires
            old(self).wf(),
            i < old(self).pages@.len(),
            j < BLOCK_PER_PAGE,
            old(self).pages@[i as int].live,
            old(self).pages@[i as int].blocks@[j as int].counter == 1,
            old(self).pages@[i as int].blocks@[j as int].value is Some,
            t0@.spec_page_ptr() == i,
            t0@.spec_index_block() == j,
            t0@.spec_kind_bits() == PageKind::SharedArena.code(),
        ensures
            r == old(self).pages@[i as int].blocks@[j as int].value,
            final(self).wf(),
            final(self).is_released() == old(self).is_released(),
            final(self).has_deferred() == old(self).has_deferred(),
            final(self).counter_of(t0@) == 0,
            final(self).stored_at(t0@) is None,
            final(self).preserves_other_handles(old(self), t0@),
            final(self).spec_npages() == old(self).spec_npages(),
            final(self).spec_full() == old(self).spec_full(),
            final(self).spec_free() == old(self).spec_free(),
            !old(self).is_released() ==> final(self).spec_stats_free() == old(
                self,
            ).spec_stats_free() + 1 && final(self).spec_stats_used() == old(
                self,
            ).spec_stats_used() - 1,
            !old(self).is_released() ==> final(self).spec_pending() == (if old(
                self,
            ).spec_free().contains(i) || old(self).spec_pending().contains(i) {
                old(self).spec_pending()
            } else {
                old(self).spec_pending().push(i)
            }),
            old(self).is_released() ==> (final(self).page_live(i as int) <==> free_user(
                old(self).bfs()[i as int],
            ) < 62),
    {
        let ghost o = *old(self);
        self.pages[i].blocks[j].counter = 0;
        let r = self.pages[i].blocks[j].value.take();
        let ghost mid = *self;
        proof {
            assert(o.pages@[i as int].strict());
            assert(!nth_bit(o.pages@[i as int].bf(), j as u64)) by {
                if nth_bit(o.pages@[i as int].bf(), j as u64) {
                    assert(o.pages@[i as int].blocks[j as int].is_free_state());
                }
            }
            assert(mid.bfs() =~= o.bfs());
            assert(mid.wf_open_slot(i as int, j as int)) by {
                assert forall|i2: int|
                    0 <= i2 < mid.pages@.len() && mid.pages@[i2].live && i2 != i as int implies (
                #[trigger] mid.pages@[i2]).strict() by {
                    assert(mid.pages@[i2] == o.pages@[i2]);
                }
                assert(mid.pages@[i as int].strict_except(j as int)) by {
                    assert forall|j2: u64|
                        j2 < BLOCK_PER_PAGE && nth_bit(mid.pages@[i as int].bf(), j2) implies (
                    #[trigger] mid.pages@[i as int].blocks[j2 as int]).is_free_state() by {
                        assert(j2 != j);
                        assert(mid.pages@[i as int].blocks[j2 as int] == o.pages@[
                            i as int
                        ].blocks[j2 as int]);
                    }
                    assert forall|j2: u64|
                        j2 < BLOCK_PER_PAGE && j2 != j && !nth_bit(
                            mid.pages@[i as int].bf(),
                            j2,
                        ) implies (#[trigger] mid.pages@[i as int].blocks[
                        j2 as int
                    ]).is_used_state() by {
                        assert(mid.pages@[i as int].blocks[j2 as int] == o.pages@[
                            i as int
                        ].blocks[j2 as int]);
                    }
                }
                assert forall|i2: int| 0 <= i2 < mid.pages@.len() implies (
                #[trigger] mid.pages@[i2]).blocks.len() == BLOCK_PER_PAGE && mid.pages@[
                    i2
                ].tags_ok(i2) by {
                    if i2 != i as int {
                        assert(mid.pages@[i2] == o.pages@[i2]);
                    } else {
                        assert forall|j2: int| 0 <= j2 < BLOCK_PER_PAGE implies {
                            let t = (#[trigger] mid.pages@[i2].blocks[j2]).page;
                            &&& t.spec_page_ptr() == i2 as u64
                            &&& t.spec_index_block() == j2 as u64
                            &&& t.spec_kind_bits() == PageKind::SharedArena.code()
                        } by {
                            if j2 != j as int {
                                assert(mid.pages@[i2].blocks[j2] == o.pages@[i2].blocks[j2]);
                            }
                        }
                    }
                }
            }
        }
        self.drop_block(i, j);
        proof {
            let s = *self;
            assert(s.pages@[i as int].blocks == mid.pages@[i as int].blocks);
            assert(s.counter_of(t0@) == mid.counter_of(t0@));
            assert(s.stored_at(t0@) == mid.stored_at(t0@));
            if !o.is_released() {
                assert(s.spec_stats_used() == o.spec_stats_used() - 1) by {
                    assert(s.spec_npages() == o.spec_npages());
                }
            }
            assert forall|t: PageTaggedPtr|
                o.tag_in_range(t) && #[trigger] o.counter_of(t) >= 1 && t != t0@ implies
                s.tag_in_range(t) && s.counter_of(t) == o.counter_of(t) && s.stored_at(t)
                    == o.stored_at(t) by {
                if t.spec_page_ptr() == i && t.spec_index_block() == j {
                    assert(o.pages@[i as int].tags_ok(i as int));
                    crate::block::lemma_tag_injective(t, t0@);
                } else {
                    assert(mid.pages@[t.spec_page_ptr() as int].blocks@[t.spec_index_block()
                        as int] == o.pages@[t.spec_page_ptr() as int].blocks@[
                        t.spec_index_block() as int
                    ]);
                    assert(t.spec_page_ptr() < mid.store_len());
                    assert(s.pages@[t.spec_page_ptr() as int].blocks == mid.pages@[
                        t.spec_page_ptr() as int
                    ].blocks);
                    assert(s.counter_of(t) == mid.counter_of(t) && s.stored_at(t)
                        == mid.stored_at(t));
                    assert(s.page_live(t.spec_page_ptr() as int) == mid.page_live(
                        t.spec_page_ptr() as int,
                    )) by {
                        if t.spec_page_ptr() == i {
                            assert(mid.counter_of(t) >= 1);
                            if o.is_released() && free_user(o.bfs()[i as int]) >= 62 {
                                assert(o.pages@[i as int].strict());
                                crate::bits::lemma_count_or(
                                    o.pages@[i as int].bf(),
                                    j as u64,
                                    63,
                                );
                                crate::bits::lemma_count_set_bounds(
                                    o.pages@[i as int].bf() | (1u64 << (j as u64)),
                                    63,
                                );
                                assert(free_user(o.bfs()[i as int]) == 62);
                                lemma_sole_open_slot(o.pages@[i as int], j as int);
                                assert(nth_bit(
                                    o.pages@[i as int].bf(),
                                    t.spec_index_block() as u64,
                                ));
                                assert(o.pages@[i as int].blocks[t.spec_index_block()
                                    as int].is_free_state());
                            }
                        }
                    }
                }
            }
        }
        r
    }
}

impl<T> SharedArena<T> {
    /// Release the arena: what dropping the arena value does in a setting
    /// where pages outlive it.  The arena bit of every page it references
    /// is cleared and its lists are emptied; a page with no used block is
    /// deallocated at once, and one still holding values survives until its
    /// last handle is given back.
    pub fn release(&mut self)
        requires
            old(self).wf(),
            !old(self).is_released(),
        ensures
            final(self).wf(),
            final(self).is_released(),
            final(self).preserves_handles_of(old(self)),
            final(self).store_len() == old(self).store_len(),
            final(self).spec_npages() == 0,
            forall|i: int|
                0 <= i < old(self).store_len() ==> (final(self).page_live(i) <==> (old(
                    self,
                ).page_live(i) && free_user(old(self).bfs()[i]) < 63)),
    {
        let ghost o = *old(self);
        proof {
            assert(self.pages@.len() == self.pages.len());
        }
        match self.to_free.take() {
            Some(v) => {
                let mut k: usize = 0;
                while k < v.len()
                    invariant
                        k <= v@.len(),
                        v@.no_duplicates(),
                        forall|m: int|
                            0 <= m < v@.len() ==> (#[trigger] v@[m]) < self.pages@.len()
                                && o.pages@[v@[m] as int].bf() == FRESH_BITFIELD
                                && o.pages@[v@[m] as int].live && !o.full_list@.contains(v@[m]),
                        self.pages@.len() == o.pages@.len(),
                        self.free_list == o.free_list,
                        self.pending_free_list == o.pending_free_list,
                        self.full_list == o.full_list,
                        self.npages == o.npages,
                        self.to_free is None,
                        self.to_free_delay == o.to_free_delay,
                        self.released == o.released,
                        forall|i: int|
                            0 <= i < self.pages@.len() ==> (#[trigger] self.pages@[i]).bf()
                                == o.pages@[i].bf() && self.pages@[i].blocks == o.pages@[i].blocks
                                && self.pages@[i].in_free_list == o.pages@[i].in_free_list,
                        forall|i: int|
                            0 <= i < self.pages@.len() ==> (#[trigger] self.pages@[i]).live == (
                            o.pages@[i].live && !v@.take(k as int).contains(i as usize)),
                    decreases v@.len() - k,
                {
                    let i = v[k];
                    let ghost prev = self.pages@;
                    self.pages[i].live = false;
                    proof {
                        assert(self.pages@.len() == self.pages.len());
                        assert forall|i2: int|
                            0 <= i2 < self.pages@.len() implies (#[trigger] self.pages@[
                                i2
                            ]).live == (o.pages@[i2].live && !v@.take(k + 1).contains(
                                i2 as usize,
                            )) by {
                            crate::bits_sum::lemma_take_push_contains(v@, k as int, i2 as usize);
                            if i2 != i as int {
                                assert(self.pages@[i2] == prev[i2]);
                            } else {
                                assert(!self.pages@[i2].live);
                                assert(v@[k as int] == i2 as usize);
                            }
                        }
                    }
                    k += 1;
                }
                proof {
                    assert(v@.take(v@.len() as int) =~= v@);
                }
            },
            None => {},
        }
        let ghost m0 = *self;
        let mut k: usize = 0;
        while k < self.full_list.len()
            invariant
                k <= self.full_list@.len(),
                o.wf(),
                m0.full_list == o.full_list,
                m0.pages@.len() == o.pages@.len(),
                forall|i: int|
                    0 <= i < o.pages@.len() ==> (#[trigger] m0.pages@[i]).bf() == o.pages@[
                        i
                    ].bf() && m0.pages@[i].blocks == o.pages@[i].blocks,
                forall|i: int|
                    0 <= i < o.pages@.len() ==> ((#[trigger] m0.pages@[i]).live ==> o.pages@[
                        i
                    ].live),
                forall|i: int|
                    0 <= i < o.pages@.len() && o.full_list@.contains(i as usize) ==> (
                    #[trigger] m0.pages@[i]).live,
                self.pages@.len() == o.pages@.len(),
                self.free_list == m0.free_list,
                self.pending_free_list == m0.pending_free_list,
                self.full_list == m0.full_list,
                self.npages == m0.npages,
                self.to_free is None,
                self.to_free_delay == m0.to_free_delay,
                self.released == m0.released,
                forall|i: int|
                    0 <= i < self.pages@.len() && !o.full_list@.take(k as int).contains(
                        i as usize,
                    ) ==> (#[trigger] self.pages@[i]) == m0.pages@[i],
                forall|q: int|
                    0 <= q < k ==> {
                        let i = (#[trigger] o.full_list@[q]) as int;
                        &&& self.pages@[i].blocks == m0.pages@[i].blocks
                        &&& self.pages@[i].bf() == (m0.pages@[i].bf()
                            & 0x7fff_ffff_ffff_ffffu64)
                        &&& (self.pages@[i].live <==> free_user(m0.pages@[i].bf()) < 63)
                    },
            decreases self.full_list@.len() - k,
        {
            let i = self.full_list[k];
            proof {
                assert(o.full_list@[k as int] == i);
                assert(o.full_list@.contains(i)) by {
                    assert(o.full_list@[k as int] == i);
                }
                assert(!o.full_list@.take(k as int).contains(i)) by {
                    if o.full_list@.take(k as int).contains(i) {
                        let q = choose|q: int|
                            0 <= q < k && (#[trigger] o.full_list@.take(k as int)[q]) == i;
                        assert(o.full_list@[q] == o.full_list@[k as int]);
                    }
                }
                assert(i < self.pages@.len());
                assert(self.pages@[i as int] == m0.pages@[i as int]);
            }
            let bf = self.pages[i].bitfield.0;
            let new_bf = bf & !MASK_ARENA_BIT;
            self.pages[i].bitfield.0 = new_bf;
            let dead = new_bf == DEALLOC_BITFIELD;
            if dead {
                self.pages[i].live = false;
            }
            proof {
                let ghost prev = m0.pages@[i as int];
                assert(bf & !0x8000_0000_0000_0000u64 == (bf & 0x7fff_ffff_ffff_ffffu64))
                    by (bit_vector);
                assert(new_bf == (prev.bf() & 0x7fff_ffff_ffff_ffffu64));
                assert(!0x8000_0000_0000_0000u64 == 0x7fff_ffff_ffff_ffffu64) by (bit_vector);
                crate::bits::lemma_special_bitfields(new_bf);
                crate::bits::lemma_count_extremes(new_bf, 63);
                assert forall|j: u64| j < 63 implies nth_bit(new_bf, j) == nth_bit(
                    prev.bf(),
                    j,
                ) by {
                    crate::bits::lemma_clear_arena_bit(prev.bf(), j);
                }
                crate::bits::lemma_clear_arena_bit(prev.bf(), 0);
                crate::bits::lemma_count_congruence(new_bf, prev.bf(), 63);
                crate::bits::lemma_count_extremes(prev.bf(), 63);
                crate::bits::lemma_count_set_bounds(prev.bf(), 63);
                assert((self.pages@[i as int].live <==> free_user(m0.pages@[i as int].bf())
                    < 63)) by {
                    if dead {
                        assert(free_user(new_bf) == 63);
                    } else {
                        if free_user(prev.bf()) == 63 {
                            assert(nth_bit(prev.bf(), 63)) by {
                                assert(o.pages@[i as int].live);
                            }
                            assert(new_bf == 0x7fff_ffff_ffff_ffffu64);
                        }
                    }
                }
                assert forall|i2: int|
                    0 <= i2 < self.pages@.len() && !o.full_list@.take(k + 1).contains(
                        i2 as usize,
                    ) implies (#[trigger] self.pages@[i2]) == m0.pages@[i2] by {
                    crate::bits_sum::lemma_take_push_contains(
                        o.full_list@,
                        k as int,
                        i2 as usize,
                    );
                    assert(i2 != i as int);
                }
                assert forall|q: int|
                    0 <= q < k + 1 implies {
                        let i2 = (#[trigger] o.full_list@[q]) as int;
                        &&& self.pages@[i2].blocks == m0.pages@[i2].blocks
                        &&& self.pages@[i2].bf() == (m0.pages@[i2].bf()
                            & 0x7fff_ffff_ffff_ffffu64)
                        &&& (self.pages@[i2].live <==> free_user(m0.pages@[i2].bf()) < 63)
                    } by {
                    if q < k {
                        assert(o.full_list@[q] != i) by {
                            if o.full_list@[q] == i {
                                assert(o.full_list@[q] == o.full_list@[k as int]);
                            }
                        }
                    }
                }
            }
            k += 1;
        }
        self.free_list = Vec::new();
        self.pending_free_list = Vec::new();
        self.full_list = Vec::new();
        self.npages = 0;
        self.released = true;
        proof {
            let s = *self;
            assert(!0x8000_0000_0000_0000u64 == 0x7fff_ffff_ffff_ffffu64) by (bit_vector);
            assert forall|i: int| 0 <= i < o.store_len() implies (s.page_live(i) <==> (
            o.page_live(i) && free_user(o.bfs()[i]) < 63)) by {
                if o.pages@[i].live {
                    if o.full_list@.contains(i as usize) {
                        let q = choose|q: int|
                            0 <= q < o.full_list@.len() && o.full_list@[q] == i as usize;
                        assert(s.pages@[i].live <==> free_user(m0.pages@[i].bf()) < 63);
                    } else {
                        assert(o.in_to_free(i as usize));
                        assert(o.pages@[i].bf() == FRESH_BITFIELD);
                        crate::bits::lemma_special_bitfields(o.pages@[i].bf());
                        crate::bits::lemma_count_extremes(o.pages@[i].bf(), 63);
                        assert(!m0.pages@[i].live) by {
                            match o.to_free {
                                Some(v) => {
                                    assert(v@.contains(i as usize));
                                },
                                None => {},
                            }
                        }
                        assert(!s.pages@[i].live) by {
                            assert(!o.full_list@.take(o.full_list@.len() as int).contains(
                                i as usize,
                            )) by {
                                assert(o.full_list@.take(o.full_list@.len() as int)
                                    =~= o.full_list@);
                            }
                        }
                    }
                } else {
                    assert(!m0.pages@[i].live);
                    assert(!s.pages@[i].live) by {
                        if o.full_list@.contains(i as usize) {
                            assert(o.pages@[i].live);
                        }
                        assert(!o.full_list@.take(o.full_list@.len() as int).contains(
                            i as usize,
                        )) by {
                            assert(o.full_list@.take(o.full_list@.len() as int)
                                =~= o.full_list@);
                        }
                    }
                }
            }
            assert(s.wf()) by {
                assert forall|i: int|
                    0 <= i < s.pages@.len() && (#[trigger] s.pages@[i]).live implies
                    s.pages@[i].strict() && !nth_bit(s.pages@[i].bf(), 63) by {
                    assert(o.pages@[i].live);
                    assert(o.pages@[i].strict());
                    if o.full_list@.contains(i as usize) {
                        let q = choose|q: int|
                            0 <= q < o.full_list@.len() && o.full_list@[q] == i as usize;
                        assert(s.pages@[i].bf() == (m0.pages@[i].bf()
                            & 0x7fff_ffff_ffff_ffffu64));
                        assert(s.pages@[i].blocks == o.pages@[i].blocks);
                        assert forall|j: u64| j < 63 implies nth_bit(s.pages@[i].bf(), j)
                            == nth_bit(o.pages@[i].bf(), j) by {
                            crate::bits::lemma_clear_arena_bit(o.pages@[i].bf(), j);
                        }
                        assert(!nth_bit(s.pages@[i].bf(), 63)) by {
                            crate::bits::lemma_clear_arena_bit(o.pages@[i].bf(), 0);
                        }
                    } else {
                        assert(o.in_to_free(i as usize));
                        match o.to_free {
                            Some(v) => {
                                assert(v@.contains(i as usize));
                                assert(!m0.pages@[i].live);
                                assert(!s.pages@[i].live) by {
                                    assert(!o.full_list@.take(
                                        o.full_list@.len() as int,
                                    ).contains(i as usize)) by {
                                        assert(o.full_list@.take(o.full_list@.len() as int)
                                            =~= o.full_list@);
                                    }
                                }
                            },
                            None => {},
                        }
                    }
                }
                assert forall|i: int| 0 <= i < s.pages@.len() implies (#[trigger] s.pages@[
                    i
                ]).blocks.len() == BLOCK_PER_PAGE && s.pages@[i].tags_ok(i) by {
                    assert(s.pages@[i].blocks == o.pages@[i].blocks || s.pages@[i].blocks
                        == m0.pages@[i].blocks) by {
                        if o.full_list@.contains(i as usize) {
                            let q = choose|q: int|
                                0 <= q < o.full_list@.len() && o.full_list@[q] == i as usize;
                        } else {
                            assert(!o.full_list@.take(o.full_list@.len() as int).contains(
                                i as usize,
                            )) by {
                                assert(o.full_list@.take(o.full_list@.len() as int)
                                    =~= o.full_list@);
                            }
                        }
                    }
                }
            }
            assert forall|t: PageTaggedPtr|
                o.tag_in_range(t) && #[trigger] o.counter_of(t) >= 1 implies s.tag_in_range(t)
                    && s.counter_of(t) == o.counter_of(t) && s.stored_at(t) == o.stored_at(
                    t,
                ) by {
                let i = t.spec_page_ptr() as int;
                assert(s.pages@[i].blocks == o.pages@[i].blocks || s.pages@[i].blocks
                    == m0.pages@[i].blocks) by {
                    if o.full_list@.contains(i as usize) {
                        let q = choose|q: int|
                            0 <= q < o.full_list@.len() && o.full_list@[q] == i as usize;
                    } else {
                        assert(!o.full_list@.take(o.full_list@.len() as int).contains(
                            i as usize,
                        )) by {
                            assert(o.full_list@.take(o.full_list@.len() as int)
                                =~= o.full_list@);
                        }
                    }
                }
                assert(s.page_live(i)) by {
                    assert(o.pages@[i].strict());
                    if free_user(o.bfs()[i]) == 63 {
                        crate::bits::lemma_count_extremes(o.pages@[i].bf(), 63);
                        assert(nth_bit(o.pages@[i].bf(), t.spec_index_block() as u64));
                        assert(o.pages@[i].blocks[t.spec_index_block() as int].is_free_state());
                    }
                    crate::bits::lemma_count_set_bounds(o.pages@[i].bf(), 63);
                }
            }
        }
    }
}

/// Whether a list of page numbers mentions `x`.
fn vec_contains(v: &Vec<usize>, x: usize) -> (r: bool)
    ensures
        r == v@.contains(x),
{
    let mut k: usize = 0;
    while k < v.len()
        invariant
            k <= v@.len(),
            forall|q: int| 0 <= q < k ==> (#[trigger] v@[q]) != x,
        decreases v@.len() - k,
    {
        if v[k] == x {
            return true;
        }
        k += 1;
    }
    false
}

impl<T> SharedArena<T> {
    /// Pages the next shrink would reclaim: the free-list pages on which
    /// every block is free.
    pub closed spec fn shrink_candidates(&self) -> int {
        crate::bits_sum::count_fresh(self.bfs(), self.free_list@)
    }

    /// Shrinks the arena: every free-list page with no used block is
    /// removed from the lists and parked in the deferred-drop buffer, to be
    /// reused or deallocated later.  Returns whether any page was removed;
    /// when none was, the arena is left exactly as it stood.
    pub fn shrink_to_fit(&mut self) -> (r: bool)
        requires
            old(self).wf(),
            !old(self).is_released(),
        ensures
            final(self).wf(),
            !final(self).is_released(),
            final(self).preserves_handles_of(old(self)),
            final(self).store_len() == old(self).store_len(),
            final(self).bfs() == old(self).bfs(),
            final(self).spec_pending() == old(self).spec_pending(),
            forall|x: usize|
                final(self).spec_free().contains(x) == (old(self).spec_free().contains(x)
                    && old(self).bfs()[x as int] != FRESH_BITFIELD),
            final(self).spec_npages() == old(self).spec_npages() - old(self).shrink_candidates(),
            r == (old(self).shrink_candidates() > 0),
            final(self).spec_stats_used() == old(self).spec_stats_used(),
            final(self).spec_stats_free() == old(self).spec_stats_free() - 63 * old(
                self,
            ).shrink_candidates(),
            old(self).shrink_candidates() == 0 ==> final(self).spec_free() == old(self).spec_free()
                && final(self).spec_full() == old(self).spec_full() && final(self).has_deferred()
                == old(self).has_deferred(),
            final(self).shrink_candidates() == 0,
            old(self).shrink_candidates() > 0 ==> final(self).has_deferred(),
            forall|i: int|
                0 <= i < old(self).store_len() ==> final(self).page_live(i) == old(
                    self,
                ).page_live(i),
    {
        let ghost o = *old(self);
        proof {
            assert(self.pages@.len() == self.pages.len());
        }
        let mut detached: Vec<usize> = Vec::new();
        core::mem::swap(&mut detached, &mut self.free_list);
        let ghost bfs = self.bfs();
        let mut keep: Vec<usize> = Vec::new();
        let mut to_drop_asc: Vec<usize> = Vec::new();
        let mut k: usize = 0;
        while k < detached.len()
            invariant
                k <= detached@.len(),
                detached@ == o.free_list@,
                o.wf(),
                *self == (SharedArena { free_list: self.free_list, ..o }),
                self.free_list@.len() == 0,
                bfs == self.bfs(),
                bfs == o.bfs(),
                self.pages@.len() <= usize::MAX,
                keep@.no_duplicates(),
                to_drop_asc@.no_duplicates(),
                forall|q: int|
                    0 <= q < keep@.len() ==> detached@.take(k as int).contains(
                        #[trigger] keep@[q],
                    ) && bfs[keep@[q] as int] != FRESH_BITFIELD,
                forall|q: int|
                    0 <= q < to_drop_asc@.len() ==> detached@.take(k as int).contains(
                        #[trigger] to_drop_asc@[q],
                    ) && bfs[to_drop_asc@[q] as int] == FRESH_BITFIELD,
                forall|q: int|
                    0 <= q < k ==> (if bfs[(#[trigger] detached@[q]) as int] == FRESH_BITFIELD {
                        to_drop_asc@.contains(detached@[q])
                    } else {
                        keep@.contains(detached@[q])
                    }),
                keep@.len() + to_drop_asc@.len() == k,
                crate::bits_sum::count_fresh(bfs, detached@.take(k as int)) == to_drop_asc@.len(),
                sum_free(bfs, keep@) == sum_free(bfs, detached@.take(k as int)) - 63
                    * to_drop_asc@.len(),
                to_drop_asc@.len() == 0 ==> keep@ == detached@.take(k as int),
            decreases detached@.len() - k,
        {
            let i = detached[k];
            proof {
                assert(detached@.contains(i)) by {
                    assert(detached@[k as int] == i);
                }
                assert(!detached@.take(k as int).contains(i)) by {
                    if detached@.take(k as int).contains(i) {
                        let q = choose|q: int|
                            0 <= q < k && (#[trigger] detached@.take(k as int)[q]) == i;
                        assert(detached@[q] == detached@[k as int]);
                    }
                }
                assert(detached@.take(k + 1).drop_last() =~= detached@.take(k as int));
                assert(detached@.take(k + 1).last() == detached@[k as int]);
                assert(i < self.pages@.len()) by {
                    assert(o.list_ok(o.free_list@));
                    let q = choose|q: int| 0 <= q < detached@.len() && detached@[q] == i;
                }
                assert(bfs[i as int] == self.pages@[i as int].bitfield.0);
                assert(!keep@.contains(i)) by {
                    if keep@.contains(i) {
                        let q = choose|q: int| 0 <= q < keep@.len() && keep@[q] == i;
                        assert(detached@.take(k as int).contains(keep@[q]));
                    }
                }
                assert(!to_drop_asc@.contains(i)) by {
                    if to_drop_asc@.contains(i) {
                        let q = choose|q: int|
                            0 <= q < to_drop_asc@.len() && to_drop_asc@[q] == i;
                        assert(detached@.take(k as int).contains(to_drop_asc@[q]));
                    }
                }
            }
            let ghost keep0 = keep@;
            let ghost drop0 = to_drop_asc@;
            if self.pages[i].bitfield.0 == FRESH_BITFIELD {
                to_drop_asc.push(i);
                proof {
                    crate::bits::lemma_special_bitfields(FRESH_BITFIELD);
                    crate::bits::lemma_count_extremes(FRESH_BITFIELD, 63);
                    assert(free_user(bfs[i as int]) == 63);
                    assert(to_drop_asc@.no_duplicates()) by {
                        assert(forall|q: int|
                            0 <= q < drop0.len() ==> to_drop_asc@[q] == drop0[q]);
                    }
                    assert forall|q: int| 0 <= q < to_drop_asc@.len() implies detached@.take(
                        k + 1,
                    ).contains(#[trigger] to_drop_asc@[q]) && bfs[to_drop_asc@[q] as int]
                        == FRESH_BITFIELD by {
                        if q < drop0.len() {
                            assert(to_drop_asc@[q] == drop0[q]);
                            let m = choose|m: int|
                                0 <= m < k && (#[trigger] detached@.take(k as int)[m]) == drop0[
                                    q
                                ];
                            assert(detached@.take(k + 1)[m] == drop0[q]);
                        } else {
                            assert(to_drop_asc@[q] == i);
                            assert(detached@.take(k + 1)[k as int] == i);
                        }
                    }
                    assert forall|q: int| 0 <= q < keep@.len() implies detached@.take(
                        k + 1,
                    ).contains(#[trigger] keep@[q]) && bfs[keep@[q] as int] != FRESH_BITFIELD by {
                        let m = choose|m: int|
                            0 <= m < k && (#[trigger] detached@.take(k as int)[m]) == keep@[q];
                        assert(detached@.take(k + 1)[m] == keep@[q]);
                    }
                    assert forall|q: int|
                        0 <= q < k + 1 implies (if bfs[(#[trigger] detached@[q]) as int]
                            == FRESH_BITFIELD {
                            to_drop_asc@.contains(detached@[q])
                        } else {
                            keep@.contains(detached@[q])
                        }) by {
                        if q < k {
                            if bfs[detached@[q] as int] == FRESH_BITFIELD {
                                assert(drop0.contains(detached@[q]));
                                let m = choose|m: int|
                                    0 <= m < drop0.len() && drop0[m] == detached@[q];
                                assert(to_drop_asc@[m] == detached@[q]);
                            }
                        } else {
                            assert(to_drop_asc@[drop0.len() as int] == i);
                        }
                    }
                }
            } else {
                keep.push(i);
                proof {
                    crate::bits_sum::lemma_sum_free_push(bfs, keep0, i);
                    assert(keep@.no_duplicates()) by {
                        assert(forall|q: int| 0 <= q < keep0.len() ==> keep@[q] == keep0[q]);
                    }
                    assert forall|q: int| 0 <= q < keep@.len() implies detached@.take(
                        k + 1,
                    ).contains(#[trigger] keep@[q]) && bfs[keep@[q] as int] != FRESH_BITFIELD by {
                        if q < keep0.len() {
                            assert(keep@[q] == keep0[q]);
                            let m = choose|m: int|
                                0 <= m < k && (#[trigger] detached@.take(k as int)[m]) == keep0[
                                    q
                                ];
                            assert(detached@.take(k + 1)[m] == keep0[q]);
                        } else {
                            assert(keep@[q] == i);
                            assert(detached@.take(k + 1)[k as int] == i);
                        }
                    }
                    assert forall|q: int| 0 <= q < to_drop_asc@.len() implies detached@.take(
                        k + 1,
                    ).contains(#[trigger] to_drop_asc@[q]) && bfs[to_drop_asc@[q] as int]
                        == FRESH_BITFIELD by {
                        let m = choose|m: int|
                            0 <= m < k && (#[trigger] detached@.take(k as int)[m]) == to_drop_asc@[
                                q
                            ];
                        assert(detached@.take(k + 1)[m] == to_drop_asc@[q]);
                    }
                    assert forall|q: int|
                        0 <= q < k + 1 implies (if bfs[(#[trigger] detached@[q]) as int]
                            == FRESH_BITFIELD {
                            to_drop_asc@.contains(detached@[q])
                        } else {
                            keep@.contains(detached@[q])
                        }) by {
                        if q < k {
                            if bfs[detached@[q] as int] != FRESH_BITFIELD {
                                assert(keep0.contains(detached@[q]));
                                let m = choose|m: int|
                                    0 <= m < keep0.len() && keep0[m] == detached@[q];
                                assert(keep@[m] == detached@[q]);
                            }
                        } else {
                            assert(keep@[keep0.len() as int] == i);
                        }
                    }
                }
            }
            k += 1;
        }
        proof {
            assert(detached@.take(detached@.len() as int) =~= detached@);
            assert forall|x: usize|
                keep@.contains(x) == (detached@.contains(x) && bfs[x as int]
                    != FRESH_BITFIELD) by {
                if keep@.contains(x) {
                    let q = choose|q: int| 0 <= q < keep@.len() && keep@[q] == x;
                    assert(detached@.take(detached@.len() as int).contains(keep@[q]));
                }
                if detached@.contains(x) && bfs[x as int] != FRESH_BITFIELD {
                    let q = choose|q: int| 0 <= q < detached@.len() && detached@[q] == x;
                    assert(keep@.contains(detached@[q]));
                }
            }
            assert forall|x: usize|
                to_drop_asc@.contains(x) == (detached@.contains(x) && bfs[x as int]
                    == FRESH_BITFIELD) by {
                if to_drop_asc@.contains(x) {
                    let q = choose|q: int|
                        0 <= q < to_drop_asc@.len() && to_drop_asc@[q] == x;
                    assert(detached@.take(detached@.len() as int).contains(to_drop_asc@[q]));
                }
                if detached@.contains(x) && bfs[x as int] == FRESH_BITFIELD {
                    let q = choose|q: int| 0 <= q < detached@.len() && detached@[q] == x;
                    assert(to_drop_asc@.contains(detached@[q]));
                }
            }
        }
        let ghost keep_set = keep@;
        let mut to_drop: Vec<usize> = Vec::new();
        let mut k2: usize = to_drop_asc.len();
        while k2 > 0
            invariant
                k2 <= to_drop_asc@.len(),
                to_drop@.len() == to_drop_asc@.len() - k2,
                forall|m: int|
                    0 <= m < to_drop@.len() ==> (#[trigger] to_drop@[m]) == to_drop_asc@[
                        to_drop_asc@.len() - 1 - m
                    ],
            decreases k2,
        {
            k2 -= 1;
            to_drop.push(to_drop_asc[k2]);
        }
        proof {
            assert(to_drop@.no_duplicates()) by {
                assert forall|m1: int, m2: int|
                    0 <= m1 < m2 < to_drop@.len() implies to_drop@[m1] != to_drop@[m2] by {
                    assert(to_drop@[m1] == to_drop_asc@[to_drop_asc@.len() - 1 - m1]);
                    assert(to_drop@[m2] == to_drop_asc@[to_drop_asc@.len() - 1 - m2]);
                }
            }
            assert forall|x: usize| to_drop@.contains(x) == to_drop_asc@.contains(x) by {
                if to_drop@.contains(x) {
                    let q = choose|q: int| 0 <= q < to_drop@.len() && to_drop@[q] == x;
                    assert(to_drop_asc@[to_drop_asc@.len() - 1 - q] == x);
                    assert(to_drop_asc@.contains(x));
                }
                if to_drop_asc@.contains(x) {
                    let q = choose|q: int|
                        0 <= q < to_drop_asc@.len() && to_drop_asc@[q] == x;
                    assert(to_drop@[to_drop_asc@.len() - 1 - q] == x);
                    assert(to_drop@.contains(x));
                }
            }
        }
        let ghost dropset = to_drop@;
        let mut new_full: Vec<usize> = Vec::new();
        let mut k3: usize = 0;
        while k3 < self.full_list.len()
            invariant
                k3 <= self.full_list@.len(),
                self.full_list@ == o.full_list@,
                o.wf(),
                dropset == to_drop@,
                new_full@.no_duplicates(),
                forall|q: int|
                    0 <= q < new_full@.len() ==> self.full_list@.take(k3 as int).contains(
                        #[trigger] new_full@[q],
                    ) && !dropset.contains(new_full@[q]),
                forall|q: int|
                    0 <= q < k3 ==> (!dropset.contains(#[trigger] self.full_list@[q])
                        ==> new_full@.contains(self.full_list@[q])),
                dropset.len() == 0 ==> new_full@ == self.full_list@.take(k3 as int),
            decreases self.full_list@.len() - k3,
        {
            let x = self.full_list[k3];
            proof {
                assert(!self.full_list@.take(k3 as int).contains(x)) by {
                    if self.full_list@.take(k3 as int).contains(x) {
                        let q = choose|q: int|
                            0 <= q < k3 && (#[trigger] self.full_list@.take(k3 as int)[q]) == x;
                        assert(self.full_list@[q] == self.full_list@[k3 as int]);
                    }
                }
                assert(!new_full@.contains(x)) by {
                    if new_full@.contains(x) {
                        let q = choose|q: int|
                            0 <= q < new_full@.len() && new_full@[q] == x;
                        assert(self.full_list@.take(k3 as int).contains(new_full@[q]));
                    }
                }
                assert(self.full_list@.take(k3 + 1).drop_last() =~= self.full_list@.take(
                    k3 as int,
                ));
                assert(self.full_list@.take(k3 + 1).last() == self.full_list@[k3 as int]);
            }
            let ghost nf0 = new_full@;
            if !vec_contains(&to_drop, x) {
                new_full.push(x);
                proof {
                    assert(new_full@.no_duplicates()) by {
                        assert(forall|q: int| 0 <= q < nf0.len() ==> new_full@[q] == nf0[q]);
                    }
                    assert forall|q: int| 0 <= q < new_full@.len() implies self.full_list@.take(
                        k3 + 1,
                    ).contains(#[trigger] new_full@[q]) && !dropset.contains(new_full@[q]) by {
                        if q < nf0.len() {
                            assert(new_full@[q] == nf0[q]);
                            let m = choose|m: int|
                                0 <= m < k3 && (#[trigger] self.full_list@.take(k3 as int)[m])
                                    == nf0[q];
                            assert(self.full_list@.take(k3 + 1)[m] == nf0[q]);
                        } else {
                            assert(new_full@[q] == x);
                            assert(self.full_list@.take(k3 + 1)[k3 as int] == x);
                        }
                    }
                    assert forall|q: int|
                        0 <= q < k3 + 1 implies (!dropset.contains(
                            #[trigger] self.full_list@[q],
                        ) ==> new_full@.contains(self.full_list@[q])) by {
                        if q < k3 {
                            if !dropset.contains(self.full_list@[q]) {
                                assert(nf0.contains(self.full_list@[q]));
                                let m = choose|m: int|
                                    0 <= m < nf0.len() && nf0[m] == self.full_list@[q];
                                assert(new_full@[m] == self.full_list@[q]);
                            }
                        } else {
                            assert(new_full@[nf0.len() as int] == x);
                        }
                    }
                }
            } else {
                proof {
                    assert forall|q: int| 0 <= q < new_full@.len() implies self.full_list@.take(
                        k3 + 1,
                    ).contains(#[trigger] new_full@[q]) && !dropset.contains(new_full@[q]) by {
                        let m = choose|m: int|
                            0 <= m < k3 && (#[trigger] self.full_list@.take(k3 as int)[m])
                                == new_full@[q];
                        assert(self.full_list@.take(k3 + 1)[m] == new_full@[q]);
                    }
                    assert forall|q: int|
                        0 <= q < k3 + 1 implies (!dropset.contains(
                            #[trigger] self.full_list@[q],
                        ) ==> new_full@.contains(self.full_list@[q])) by {
                        if q == k3 {
                            assert(dropset.contains(self.full_list@[q]));
                        }
                    }
                }
            }
            k3 += 1;
        }
        proof {
            assert(self.full_list@.take(self.full_list@.len() as int) =~= self.full_list@);
            assert forall|x: usize|
                new_full@.contains(x) == (o.full_list@.contains(x) && !dropset.contains(x)) by {
                if new_full@.contains(x) {
                    let q = choose|q: int| 0 <= q < new_full@.len() && new_full@[q] == x;
                    assert(self.full_list@.take(self.full_list@.len() as int).contains(
                        new_full@[q],
                    ));
                }
                if o.full_list@.contains(x) && !dropset.contains(x) {
                    let q = choose|q: int|
                        0 <= q < self.full_list@.len() && self.full_list@[q] == x;
                    assert(new_full@.contains(self.full_list@[q]));
                }
            }
        }
        let ghost cand = to_drop@.len() as int;        let ghost cand = to_drop@.len() as int;
        proof {
            assert(self.pages@.len() == self.pages.len());
            let n = self.pages@.len() as int;
            assert forall|x: usize| dropset.contains(x) implies o.free_list@.contains(x)
                && o.full_list@.contains(x) && x < n by {}
            crate::bits_sum::lemma_count_list_eq_where(o.full_list@, n);
            crate::bits_sum::lemma_count_list_eq_where(new_full@, n);
            crate::bits_sum::lemma_count_list_eq_where(dropset, n);
            crate::bits_sum::lemma_count_where_split(
                |i: int| o.full_list@.contains(i as usize),
                |i: int| new_full@.contains(i as usize),
                |i: int| dropset.contains(i as usize),
                n,
            );
            assert(new_full@.len() == o.full_list@.len() - cand);
            crate::bits_sum::lemma_count_list_eq_where(o.free_list@, n);
            crate::bits_sum::lemma_count_list_eq_where(keep@, n);
            crate::bits_sum::lemma_count_where_split(
                |i: int| o.free_list@.contains(i as usize),
                |i: int| keep@.contains(i as usize),
                |i: int| dropset.contains(i as usize),
                n,
            );
            assert(keep@.len() == o.free_list@.len() - cand);
        }
        self.full_list = new_full;
        let nfreed = to_drop.len();
        if nfreed > 0 {
            self.to_free_delay = 0;
            match self.to_free.take() {
                Some(mut tf) => {
                    let ghost old_tf = tf@;
                    tf.append(&mut to_drop);
                    proof {
                        assert(tf@ == old_tf + dropset);
                        assert(tf@.no_duplicates()) by {
                            assert forall|m1: int, m2: int|
                                0 <= m1 < m2 < tf@.len() implies tf@[m1] != tf@[m2] by {
                                if m1 < old_tf.len() && m2 >= old_tf.len() {
                                    assert(tf@[m1] == old_tf[m1]);
                                    assert(tf@[m2] == dropset[m2 - old_tf.len()]);
                                    assert(old_tf.contains(old_tf[m1]));
                                    assert(dropset.contains(dropset[m2 - old_tf.len()]));
                                    assert(o.full_list@.contains(
                                        dropset[m2 - old_tf.len()],
                                    ));
                                }
                            }
                        }
                        assert forall|x: usize| tf@.contains(x) == (old_tf.contains(x)
                            || dropset.contains(x)) by {
                            if tf@.contains(x) {
                                let q = choose|q: int| 0 <= q < tf@.len() && tf@[q] == x;
                                if q < old_tf.len() {
                                    assert(old_tf[q] == x);
                                } else {
                                    assert(dropset[q - old_tf.len()] == x);
                                }
                            }
                            if old_tf.contains(x) {
                                let q = choose|q: int|
                                    0 <= q < old_tf.len() && old_tf[q] == x;
                                assert(tf@[q] == x);
                            }
                            if dropset.contains(x) {
                                let q = choose|q: int|
                                    0 <= q < dropset.len() && dropset[q] == x;
                                assert(tf@[old_tf.len() + q] == x);
                            }
                        }
                    }
                    self.to_free = Some(tf);
                },
                None => {
                    self.to_free = Some(to_drop);
                },
            }
        }
        self.free_list = keep;
        proof {
            crate::bits_sum::lemma_nodup_len_bound(self.full_list@, self.pages.len() as int);
        }
        self.npages = self.npages - nfreed;
        proof {
            let s = *self;
            assert(s.bfs() =~= bfs);
            assert forall|x: usize| s.in_to_free(x) implies (o.in_to_free(x) || dropset.contains(
                x,
            )) by {}
            assert forall|x: usize| (o.in_to_free(x) || dropset.contains(x)) implies
                s.in_to_free(x) by {}
            assert(s.wf()) by {
                assert(s.list_ok(s.full_list@)) by {
                    assert forall|q: int| 0 <= q < s.full_list@.len() implies (
                    #[trigger] s.full_list@[q]) < s.pages.len() && s.pages@[s.full_list@[
                        q
                    ] as int].live by {
                        assert(s.full_list@.contains(s.full_list@[q]));
                        assert(o.full_list@.contains(s.full_list@[q]));
                    }
                }
                assert(s.list_ok(s.free_list@)) by {
                    assert forall|q: int| 0 <= q < s.free_list@.len() implies (
                    #[trigger] s.free_list@[q]) < s.pages.len() && s.pages@[s.free_list@[
                        q
                    ] as int].live by {
                        assert(s.free_list@.contains(s.free_list@[q]));
                        assert(o.free_list@.contains(s.free_list@[q]));
                    }
                }
                assert forall|x: usize| s.free_list@.contains(x) implies s.full_list@.contains(
                    x,
                ) && !s.pending_free_list@.contains(x) by {
                    assert(o.free_list@.contains(x));
                }
                assert forall|x: usize| s.pending_free_list@.contains(x) implies
                    s.full_list@.contains(x) by {
                    assert(o.full_list@.contains(x));
                    assert(!dropset.contains(x));
                }
                match s.to_free {
                    Some(v) => {
                        assert forall|q: int| 0 <= q < v@.len() implies (#[trigger] v@[q])
                            < s.pages@.len() && s.pages@[v@[q] as int].live && s.pages@[v@[
                            q
                        ] as int].bf() == FRESH_BITFIELD && !s.full_list@.contains(v@[q]) by {
                            assert(v@.contains(v@[q]));
                            assert(o.in_to_free(v@[q]) || dropset.contains(v@[q]));
                        }
                    },
                    None => {},
                }
                assert forall|x: usize| s.full_list@.contains(x) implies !s.in_to_free(x) by {
                    assert(o.full_list@.contains(x) && !dropset.contains(x));
                    if o.in_to_free(x) {
                        assert(!o.full_list@.contains(x));
                    }
                }
                assert forall|i2: int|
                    0 <= i2 < s.pages@.len() && (#[trigger] s.pages@[i2]).live implies (nth_bit(
                    s.pages@[i2].bf(),
                    63,
                ) <==> (s.full_list@.contains(i2 as usize) || s.in_to_free(i2 as usize))) && (
                s.full_list@.contains(i2 as usize) || s.in_to_free(i2 as usize)) by {
                    assert(nth_bit(o.pages@[i2].bf(), 63) <==> (o.full_list@.contains(
                        i2 as usize,
                    ) || o.in_to_free(i2 as usize)));
                    assert(o.full_list@.contains(i2 as usize) || o.in_to_free(i2 as usize));
                    if o.full_list@.contains(i2 as usize) {
                        if dropset.contains(i2 as usize) {
                            assert(s.in_to_free(i2 as usize));
                        } else {
                            assert(s.full_list@.contains(i2 as usize));
                        }
                    }
                }
                assert forall|x: usize| s.full_list@.contains(x) implies (s.pages@[
                    x as int
                ].in_free_list == (s.free_list@.contains(x) || s.pending_free_list@.contains(x)))
                    && (!s.free_list@.contains(x) && !s.pending_free_list@.contains(x)
                    ==> free_user(s.pages@[x as int].bf()) == 0) by {
                    assert(o.full_list@.contains(x) && !dropset.contains(x));
                    assert(o.pages@[x as int].in_free_list == (o.free_list@.contains(x)
                        || o.pending_free_list@.contains(x)));
                    assert(s.free_list@.contains(x) == o.free_list@.contains(x));
                }
            }
            assert(s.spec_stats_free() == o.spec_stats_free() - 63 * cand);
            assert(s.spec_npages() == o.spec_npages() - cand);
            assert(cand == o.shrink_candidates());
            assert(cand > 0 ==> self.to_free is Some);
            assert forall|i: int|
                0 <= i < o.store_len() implies s.page_live(i) == o.page_live(i) by {}
            if cand == 0 {
                assert(keep@ == o.free_list@);
                assert(new_full@ == o.full_list@);
            }
            assert(s.shrink_candidates() == 0) by {
                lemma_count_fresh_none(s.bfs(), s.free_list@);
            }
        }
        nfreed > 0
    }
}

/// A list of pages none of which is entirely free counts no shrink
/// candidates.
proof fn lemma_count_fresh_none(bfs: Seq<u64>, l: Seq<usize>)
    requires
        forall|k: int| 0 <= k < l.len() ==> bfs[(#[trigger] l[k]) as int] != FRESH_BITFIELD,
    ensures
        crate::bits_sum::count_fresh(bfs, l) == 0,
    decreases l.len(),
{
    if l.len() > 0 {
        let tail = l.drop_last();
        assert(forall|k: int| 0 <= k < tail.len() ==> tail[k] == l[k]);
        assert(l.last() == l[l.len() - 1]);
        lemma_count_fresh_none(bfs, tail);
    }
}

impl<T> SharedArena<T> {
    /// For every live page, the bitfield has exactly as many cleared block
    /// bits as the page has blocks referenced by handles.
    pub proof fn law_bitfield_tracks_handles(&self, i: int)
        requires
            self.wf(),
            self.page_live(i),
        ensures
            self.page_handles_held(i) == BLOCK_PER_PAGE - free_user(self.bfs()[i]),
    {
        self.pages@[i].lemma_bitfield_counts_handles(BLOCK_PER_PAGE as int);
    }

    /// Every block reachable from a live handle has a count of at least
    /// one, and holds a value.
    pub proof fn law_live_handle_counted(&self, h: &ArenaArc<T>)
        requires
            self.wf(),
            self.arc_valid(h),
        ensures
            self.counter_of(h.spec_tag()) >= 1,
            self.stored_at(h.spec_tag()) is Some,
    {
    }

    /// Every block whose count is zero has its bit set in its page's
    /// bitfield: a block no handle references is marked free.
    pub proof fn law_zero_count_means_free(&self, i: int, j: int)
        requires
            self.wf(),
            self.page_live(i),
            0 <= j < BLOCK_PER_PAGE,
            self.block_counter(i, j) == 0,
        ensures
            nth_bit(self.bfs()[i], j as u64),
    {
        assert(self.pages@[i].strict());
        if !nth_bit(self.pages@[i].bf(), j as u64) {
            assert(self.pages@[i].blocks[j].is_used_state());
        }
    }

    /// The page count always equals the length of the full list.
    pub proof fn law_page_count_matches_full_list(&self)
        requires
            self.wf(),
        ensures
            self.spec_npages() == self.spec_full().len(),
    {
    }

    /// The free list and the pending-free list are disjoint sublists of the
    /// full list.
    pub proof fn law_lists_are_sublists(&self)
        requires
            self.wf(),
        ensures
            forall|x: usize|
                self.spec_free().contains(x) ==> self.spec_full().contains(x)
                    && !self.spec_pending().contains(x),
            forall|x: usize| self.spec_pending().contains(x) ==> self.spec_full().contains(x),
    {
    }

    /// The tagged back-pointer of every block of every page names exactly
    /// that page, that block's index, and this arena flavour's kind.
    pub proof fn law_back_pointers_exact(&self, i: int, j: int)
        requires
            self.wf(),
            0 <= i < self.store_len(),
            0 <= j < BLOCK_PER_PAGE,
        ensures
            self.block_tag(i, j).spec_page_ptr() == i as u64,
            self.block_tag(i, j).spec_index_block() == j as u64,
            self.block_tag(i, j).spec_kind_bits() == PageKind::SharedArena.code(),
    {
    }

    /// An allocation followed at once by the drop of the handle it produced
    /// leaves the statistics exactly as they were, provided a free block
    /// was listed (a grown arena keeps its new pages after the drop).
    /// `one` is the arena after the allocation, `two` after the drop, each
    /// related to its predecessor as the contracts of `alloc_box` and
    /// `drop_box` state.
    pub proof fn law_alloc_then_drop_restores_stats(&self, one: &Self, two: &Self)
        requires
            self.wf(),
            !self.is_released(),
            self.spec_stats_free() >= 1,
            one.spec_npages() == self.spec_npages(),
            one.spec_stats_free() == self.spec_stats_free() - 1,
            one.spec_stats_used() == self.spec_stats_used() + 1,
            !one.is_released(),
            two.spec_npages() == one.spec_npages(),
            two.spec_stats_free() == one.spec_stats_free() + 1,
            two.spec_stats_used() == one.spec_stats_used() - 1,
        ensures
            two.spec_stats_used() == self.spec_stats_used(),
            two.spec_stats_free() == self.spec_stats_free(),
            two.spec_npages() == self.spec_npages(),
    {
    }

    /// Shrinking is idempotent while nothing allocates or drops in between:
    /// the first shrink leaves no candidate page, so a second, related to
    /// the first's outcome as the contract of `shrink_to_fit` states,
    /// reports that it did no work and changes nothing.
    pub proof fn law_shrink_idempotent(&self, r2: bool, two: &Self)
        requires
            self.shrink_candidates() == 0,
            r2 == (self.shrink_candidates() > 0),
            two.spec_free() == self.spec_free(),
            two.spec_full() == self.spec_full(),
            two.spec_pending() == self.spec_pending(),
            two.spec_npages() == self.spec_npages() - self.shrink_candidates(),
        ensures
            !r2,
            two.spec_free() == self.spec_free(),
            two.spec_full() == self.spec_full(),
            two.spec_npages() == self.spec_npages(),
    {
    }

    /// On an arena with no outstanding handle, whose pages all stand on the
    /// free list, a shrink reclaims every page: the statistics afterwards
    /// are zero used and zero free.
    pub proof fn law_shrink_empties_idle_arena(&self)
        requires
            self.wf(),
            !self.is_released(),
            self.spec_stats_used() == 0,
            self.spec_pending().len() == 0,
            forall|x: usize| self.spec_full().contains(x) ==> self.spec_free().contains(x),
        ensures
            self.shrink_candidates() == self.spec_npages(),
            self.spec_npages() - self.shrink_candidates() == 0,
            self.spec_stats_free() - 63 * self.shrink_candidates() == 0,
    {
        let bfs = self.bfs();
        let free = self.free_list@;
        let full = self.full_list@;
        assert(self.pages@.len() == self.pages.len());
        let n = self.pages@.len() as int;
        crate::bits_sum::lemma_count_list_eq_where(free, n);
        crate::bits_sum::lemma_count_list_eq_where(full, n);
        assert forall|i: int| 0 <= i < n implies #[trigger] free.contains(i as usize)
            == full.contains(i as usize) by {
            if full.contains(i as usize) {
                assert(self.spec_full().contains(i as usize));
                assert(self.spec_free().contains(i as usize));
            }
        }
        crate::bits_sum::lemma_count_where_congruence(
            |i: int| free.contains(i as usize),
            |i: int| full.contains(i as usize),
            n,
        );
        assert(free.len() == full.len());
        assert(sum_free(bfs, self.pending_free_list@) == 0);
        assert(sum_free(bfs, free) == 63 * self.spec_npages());
        assert(sum_free(bfs, free) == 63 * free.len());
        crate::bits_sum::lemma_sum_free_saturated(bfs, free);
        assert forall|k: int| 0 <= k < free.len() implies bfs[(#[trigger] free[k]) as int]
            == FRESH_BITFIELD by {
            let x = free[k];
            assert(free.contains(x));
            assert(self.pages@[x as int].live);
            assert(nth_bit(bfs[x as int], 63));
            crate::bits::lemma_count_extremes(bfs[x as int], 63);
            crate::bits::lemma_special_bitfields(bfs[x as int]);
        }
        lemma_count_fresh_all(bfs, free);
    }
}

impl<T> SharedArena<T> {
    /// Chaining lemma: an operation that preserves every handle keeps an
    /// owning handle valid, with its stored value.
    pub proof fn law_box_still_valid(&self, o: &Self, h: &ArenaBox<T>)
        requires
            self.preserves_handles_of(o),
            o.box_valid(h),
        ensures
            self.box_valid(h),
            self.stored_at(h.spec_tag()) == o.stored_at(h.spec_tag()),
    {
        assert(o.counter_of(h.spec_tag()) >= 1);
    }

    /// Chaining lemma: an operation that preserves every handle but the
    /// one it consumed keeps any other owning handle valid.
    pub proof fn law_other_box_still_valid(&self, o: &Self, t0: PageTaggedPtr, h: &ArenaBox<T>)
        requires
            self.preserves_other_handles(o, t0),
            o.box_valid(h),
            h.spec_tag() != t0,
        ensures
            self.box_valid(h),
            self.stored_at(h.spec_tag()) == o.stored_at(h.spec_tag()),
    {
        assert(o.counter_of(h.spec_tag()) >= 1);
    }

    /// Chaining lemma: an operation that preserves every handle keeps a
    /// shared handle valid, with its stored value and count.
    pub proof fn law_arc_still_valid(&self, o: &Self, h: &ArenaArc<T>)
        requires
            self.preserves_handles_of(o),
            o.arc_valid(h),
        ensures
            self.arc_valid(h),
            self.stored_at(h.spec_tag()) == o.stored_at(h.spec_tag()),
            self.counter_of(h.spec_tag()) == o.counter_of(h.spec_tag()),
    {
        assert(o.counter_of(h.spec_tag()) >= 1);
    }

    /// Chaining lemma: an operation that preserves every handle but the
    /// one it consumed keeps any other shared handle valid.
    pub proof fn law_other_arc_still_valid(&self, o: &Self, t0: PageTaggedPtr, h: &ArenaArc<T>)
        requires
            self.preserves_other_handles(o, t0),
            o.arc_valid(h),
            h.spec_tag() != t0,
        ensures
            self.arc_valid(h),
            self.stored_at(h.spec_tag()) == o.stored_at(h.spec_tag()),
            self.counter_of(h.spec_tag()) == o.counter_of(h.spec_tag()),
    {
        assert(o.counter_of(h.spec_tag()) >= 1);
    }

    /// Chaining lemma: an operation that preserves every handle keeps a
    /// single-thread shared handle valid, with its stored value and count.
    pub proof fn law_rc_still_valid(&self, o: &Self, h: &ArenaRc<T>)
        requires
            self.preserves_handles_of(o),
            o.rc_valid(h),
        ensures
            self.rc_valid(h),
            self.stored_at(h.spec_tag()) == o.stored_at(h.spec_tag()),
            self.counter_of(h.spec_tag()) == o.counter_of(h.spec_tag()),
    {
        assert(o.counter_of(h.spec_tag()) >= 1);
    }

    /// Chaining lemma: an operation that preserves every handle but the
    /// one it consumed keeps any other single-thread shared handle valid.
    pub proof fn law_other_rc_still_valid(&self, o: &Self, t0: PageTaggedPtr, h: &ArenaRc<T>)
        requires
            self.preserves_other_handles(o, t0),
            o.rc_valid(h),
            h.spec_tag() != t0,
        ensures
            self.rc_valid(h),
            self.stored_at(h.spec_tag()) == o.stored_at(h.spec_tag()),
            self.counter_of(h.spec_tag()) == o.counter_of(h.spec_tag()),
    {
        assert(o.counter_of(h.spec_tag()) >= 1);
    }

    /// The growth strategy, stated publicly: a fresh batch doubles the
    /// page count (capped at [`MAX_PAGE_BATCH`]) when no pages are parked,
    /// and in every case the batch is at least one page and at most as
    /// many as are already referenced (at least one).
    pub proof fn law_growth_is_doubling(&self)
        requires
            self.wf(),
        ensures
            !self.has_deferred() ==> self.growth_amount() == (if self.spec_npages() < 1 {
                1int
            } else if self.spec_npages() <= MAX_PAGE_BATCH {
                self.spec_npages()
            } else {
                MAX_PAGE_BATCH as int
            }),
            1 <= self.growth_amount() <= (if self.spec_npages() < 1 {
                1int
            } else {
                self.spec_npages()
            }),
    {
    }

    /// What the statistics count, over the page bitfields and lists.
    pub proof fn law_stats_def(&self)
        ensures
            self.spec_stats_free() == sum_free(self.bfs(), self.spec_free()) + sum_free(
                self.bfs(),
                self.spec_pending(),
            ),
            self.spec_stats_used() == self.spec_npages() * BLOCK_PER_PAGE
                - self.spec_stats_free(),
    {
    }

    /// What a shrink reclaims, over the page bitfields and the free list:
    /// the listed pages whose bitfield shows every block free under a set
    /// arena bit.
    pub proof fn law_shrink_candidates_def(&self)
        ensures
            self.shrink_candidates() == crate::bits_sum::count_fresh(
                self.bfs(),
                self.spec_free(),
            ),
    {
    }
}

/// A list of pages each of which is entirely free counts every entry as a
/// shrink candidate.
proof fn lemma_count_fresh_all(bfs: Seq<u64>, l: Seq<usize>)
    requires
        forall|k: int| 0 <= k < l.len() ==> bfs[(#[trigger] l[k]) as int] == FRESH_BITFIELD,
    ensures
        crate::bits_sum::count_fresh(bfs, l) == l.len(),
    decreases l.len(),
{
    if l.len() > 0 {
        let tail = l.drop_last();
        assert(forall|k: int| 0 <= k < tail.len() ==> tail[k] == l[k]);
        assert(l.last() == l[l.len() - 1]);
        lemma_count_fresh_all(bfs, tail);
    }
}

/// A page whose bitfield records sixty-two free blocks and whose slot `j1`
/// has a clear bit keeps every other block free: `j1` is its sole used
/// slot.
proof fn lemma_sole_open_slot<T>(p: PageSharedArena<T>, j1: int)
    requires
        0 <= j1 < BLOCK_PER_PAGE,
        !nth_bit(p.bf(), j1 as u64),
        free_user(p.bf()) == 62,
    ensures
        forall|j2: u64| j2 < BLOCK_PER_PAGE && j2 != j1 ==> nth_bit(p.bf(), j2),
{
    let b1 = p.bf() | (1u64 << (j1 as u64));
    crate::bits::lemma_count_or(p.bf(), j1 as u64, 63);
    assert(free_user(b1) == 63);
    crate::bits::lemma_count_extremes(b1, 63);
    assert forall|j2: u64| j2 < BLOCK_PER_PAGE && j2 != j1 implies nth_bit(p.bf(), j2) by {
        assert(nth_bit(b1, j2));
        crate::bits::lemma_nth_bit_or_mask(p.bf(), j1 as u64, j2);
    }
}

impl<T> Default for SharedArena<T> {
    /// An empty arena, as [`SharedArena::new`] builds it.
    fn default() -> (r: Self)
        ensures
            r.wf(),
            !r.is_released(),
            !r.has_deferred(),
            r.spec_npages() == 1,
            r.store_len() == 1,
            r.spec_stats_used() == 0,
            r.spec_stats_free() == BLOCK_PER_PAGE as int,
    {
        SharedArena::new()
    }
}

} // verus!
