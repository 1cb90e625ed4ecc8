//! Pages of the pool.

use vstd::prelude::*;

verus! {

use crate::bits::free_user;
use crate::bits::lemma_count_clear;
use crate::bits::lemma_nth_bit_clear_mask;
use crate::bits::lemma_trailing_zeros_free;
use crate::bits::nth_bit;
use crate::block::Block;
use crate::block::PageKind;
use crate::block::PageTaggedPtr;
use crate::common::BLOCK_PER_PAGE;
use crate::common::FRESH_BITFIELD;
use crate::common::MAX_PAGES;

/// A page of the pool: storage for [`BLOCK_PER_PAGE`] blocks and one
/// bitfield word.  Bit `i` of the bitfield is 1 exactly when block `i` is
/// free; the top bit is the inverted arena bit (1 = the arena still
/// references this page).  The inversion keeps the arena bit out of the way
/// of the trailing-zeros search for a free slot.
///
/// Pages live in a page store (a vector owned by the arena value) and are
/// referred to by their index in it; the lists that thread pages together
/// are kept by the arena as lists of indices.
#[derive(Debug)]
pub struct PagePool<T> {
    /// Free/used bits for every block, plus the arena bit on top.
    pub bitfield: u64,
    /// The blocks; always exactly [`BLOCK_PER_PAGE`] of them.
    pub blocks: Vec<Block<T>>,
    /// Whether the page currently stands in the pool's free list, so the
    /// drop side does not insert it twice.
    pub in_free_list: bool,
    /// Whether the page's storage is still allocated.  It is reclaimed by
    /// the later of the arena's release and the last block's drop.
    pub live: bool,
}

impl<T> PagePool<T> {
    /// The bitfield word.
    pub open spec fn bf(&self) -> u64 {
        self.bitfield
    }

    /// Every block's tagged back-pointer names this page's number `i`, its
    /// own slot, and the pool kind.
    pub open spec fn tags_ok(&self, i: int) -> bool {
        forall|j: int|
            0 <= j < BLOCK_PER_PAGE ==> {
                let t = (#[trigger] self.blocks[j]).page;
                &&& t.spec_page_ptr() == i as u64
                &&& t.spec_index_block() == j as u64
                &&& t.spec_kind_bits() == PageKind::Pool.code()
            }
    }

    /// Shape of a page on its own: the block array is full-sized and every
    /// block whose bit is set is free.  (A block whose bit is clear may
    /// still be empty: it is then acquired but not yet filled in.)
    pub open spec fn wf(&self) -> bool {
        &&& self.blocks.len() == BLOCK_PER_PAGE
        &&& forall|j: u64|
            j < BLOCK_PER_PAGE && nth_bit(self.bf(), j) ==> (#[trigger] self.blocks[
                j as int
            ]).is_free_state()
    }

    /// Shape of a page at rest in an arena: additionally, every block whose
    /// bit is clear is used, so the bitfield counts handles exactly.
    pub open spec fn strict(&self) -> bool {
        &&& self.wf()
        &&& forall|j: u64|
            j < BLOCK_PER_PAGE && !nth_bit(self.bf(), j) ==> (#[trigger] self.blocks[
                j as int
            ]).is_used_state()
    }

    /// Shape of a page one of whose slots is in flight: every other block
    /// obeys the strict discipline, while slot `j` has its bit clear with
    /// nothing stored yet.  A slot looks like this between being acquired
    /// and being filled, and between being emptied and having its bit set.
    pub open spec fn strict_except(&self, j: int) -> bool {
        &&& self.wf()
        &&& 0 <= j < BLOCK_PER_PAGE
        &&& forall|j2: u64|
            j2 < BLOCK_PER_PAGE && j2 != j && !nth_bit(self.bf(), j2) ==> (#[trigger] self.blocks[
                j2 as int
            ]).is_used_state()
        &&& !nth_bit(self.bf(), j as u64)
        &&& self.blocks[j].counter == 0
        &&& self.blocks[j].value is None
    }

    /// A page as `make_list` hands it out: alive, all blocks free, the
    /// arena bit set, already meant for the free list.
    pub open spec fn is_fresh(&self, i: int) -> bool {
        &&& self.strict()
        &&& self.tags_ok(i)
        &&& self.bf() == FRESH_BITFIELD
        &&& self.in_free_list
        &&& self.live
    }

    /// Number of used blocks this page's bitfield records.
    pub open spec fn used_count(&self) -> int {
        BLOCK_PER_PAGE - free_user(self.bf())
    }

    /// Number of blocks among the first `n` that a handle references.
    pub open spec fn handles_held(&self, n: int) -> int
        decreases n,
    {
        if n <= 0 {
            0
        } else {
            self.handles_held(n - 1) + if self.blocks[n - 1].counter >= 1 {
                1int
            } else {
                0int
            }
        }
    }

    /// On a strict page the bitfield is exact: the number of cleared block
    /// bits equals the number of blocks that handles reference.
    pub proof fn lemma_bitfield_counts_handles(&self, n: int)
        requires
            self.strict(),
            0 <= n <= BLOCK_PER_PAGE,
        ensures
            self.handles_held(n) == n - crate::bits::count_set(self.bf(), n),
        decreases n,
    {
        if n > 0 {
            self.lemma_bitfield_counts_handles(n - 1);
            if nth_bit(self.bf(), (n - 1) as u64) {
                assert(self.blocks[n - 1].is_free_state());
            } else {
                assert(self.blocks[n - 1].is_used_state());
            }
        }
    }

    /// Build one fresh page, to stand at index `i` of the page store.
    fn new_page(i: usize) -> (r: PagePool<T>)
        requires
            i < MAX_PAGES,
        ensures
            r.is_fresh(i as int),
    {
        let mut blocks: Vec<Block<T>> = Vec::new();
        let mut j: usize = 0;
        while j < BLOCK_PER_PAGE
            invariant
                j <= BLOCK_PER_PAGE,
                blocks.len() == j,
                i < MAX_PAGES,
                forall|k: int|
                    0 <= k < j ==> {
                        let t = (#[trigger] blocks[k]).page;
                        &&& t.spec_page_ptr() == i as u64
                        &&& t.spec_index_block() == k as u64
                        &&& t.spec_kind_bits() == PageKind::Pool.code()
                    },
                forall|k: int| 0 <= k < j ==> (#[trigger] blocks[k]).is_free_state(),
            decreases BLOCK_PER_PAGE - j,
        {
            proof {
                let p = i as u64;
                assert(p < 0x0100_0000 ==> p >> 55 == 0) by (bit_vector);
            }
            let tag = PageTaggedPtr::new(i as u64, j, PageKind::Pool);
            blocks.push(Block { value: None, counter: 0, page: tag });
            j += 1;
        }
        let page = PagePool {
            bitfield: FRESH_BITFIELD,
            blocks,
            in_free_list: true,
            live: true,
        };
        proof {
            crate::bits::lemma_special_bitfields(FRESH_BITFIELD);
        }
        page
    }

    /// Append a batch of `npages` fresh pages to the page store and return
    /// the page numbers of the head and the tail of the new chain.  The head
    /// is the page created last, as the chain is threaded through the pages
    /// in creation order.
    pub fn make_list(npages: usize, pages: &mut Vec<PagePool<T>>) -> (r: (usize, usize))
        requires
            1 <= npages,
            old(pages).len() + npages <= MAX_PAGES,
        ensures
            final(pages).len() == old(pages).len() + npages,
            forall|i: int| 0 <= i < old(pages).len() ==> final(pages)@[i] == old(pages)@[i],
            forall|i: int|
                old(pages).len() <= i < final(pages).len() ==> (#[trigger] final(
                    pages)@[i]).is_fresh(i),
            r.0 == final(pages).len() - 1,
            r.1 == old(pages).len(),
    {
        let first_new = pages.len();
        let mut n: usize = 0;
        while n < npages
            invariant
                n <= npages,
                pages.len() == first_new + n,
                first_new == old(pages).len(),
                first_new + npages <= MAX_PAGES,
                forall|i: int| 0 <= i < first_new ==> pages@[i] == old(pages)@[i],
                forall|i: int|
                    first_new <= i < pages.len() ==> (#[trigger] pages@[i]).is_fresh(i),
            decreases npages - n,
        {
            let i = pages.len();
            let page = Self::new_page(i);
            pages.push(page);
            n += 1;
        }
        (pages.len() - 1, first_new)
    }

    /// Find a free block and mark it used: the lowest set bit of the
    /// bitfield below the arena bit, whose bit is cleared.  Returns the
    /// block's index, or nothing exactly when no block is free.
    pub fn acquire_free_block(&mut self) -> (r: Option<usize>)
        requires
            old(self).wf(),
            nth_bit(old(self).bf(), 63),
        ensures
            final(self).blocks == old(self).blocks,
            final(self).in_free_list == old(self).in_free_list,
            final(self).live == old(self).live,
            final(self).wf(),
            match r {
                Some(j) => {
                    &&& j < BLOCK_PER_PAGE
                    &&& nth_bit(old(self).bf(), j as u64)
                    &&& forall|k: u64| k < j ==> !nth_bit(old(self).bf(), k)
                    &&& final(self).bf() == old(self).bf() & !(1u64 << (j as u64))
                    &&& forall|k: u64|
                        k < 64 && k != j ==> nth_bit(final(self).bf(), k) == nth_bit(
                            old(self).bf(),
                            k,
                        )
                    &&& !nth_bit(final(self).bf(), j as u64)
                    &&& free_user(final(self).bf()) == free_user(old(self).bf()) - 1
                    &&& nth_bit(final(self).bf(), 63)
                },
                None => {
                    &&& *final(self) == *old(self)
                    &&& free_user(old(self).bf()) == 0
                },
            },
    {
        let bf = self.bitfield;
        let index_free = bf.trailing_zeros() as usize;
        proof {
            lemma_trailing_zeros_free(bf);
        }
        if index_free == BLOCK_PER_PAGE {
            return None;
        }
        let bit: u64 = 1u64 << (index_free as u64);
        self.bitfield = bf & !bit;
        proof {
            let i = index_free as u64;
            lemma_count_clear(bf, i, 63);
            assert forall|k: u64| k < 64 implies nth_bit(bf & !(1u64 << i), k) == (k != i
                && nth_bit(bf, k)) by {
                lemma_nth_bit_clear_mask(bf, i, k);
            }
        }
        Some(index_free)
    }
}

} // verus!
