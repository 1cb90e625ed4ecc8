//! Pages of the single-owner arena.

use vstd::prelude::*;

verus! {

use crate::bits::free_user;
use crate::bits::lemma_count_clear;
use crate::bits::lemma_nth_bit_clear_mask;
use crate::bits::lemma_trailing_zeros_free;
use crate::bits::nth_bit;
use crate::block::Block;
use crate::block::PageKind;
use crate::block::PageTaggedPtr;
use crate::cache_line::CacheAligned;
use crate::common::BLOCK_PER_PAGE;
use crate::common::FRESH_BITFIELD;
use crate::common::MAX_PAGES;

/// A page of the single-owner arena: storage for [`BLOCK_PER_PAGE`]
/// blocks and two bitfield words.  The owner's word is read and written by
/// the allocation side alone; handles dropped elsewhere set their freed
/// bits in the auxiliary returned word, which the owner merges back in
/// only when its own word shows no free block.  A bit is 1 in their union
/// exactly when the block is free, and the top bit of the owner's word is
/// the inverted arena bit.  The top bit of the returned word records the
/// opposite event: it is set once the arena has dropped the page.
///
/// The page's logical bitfield [`Self::bf`] folds the two words together
/// so that it reads exactly like the single word of the other flavours.
///
/// Pages live in a page store (a vector owned by the arena value) and are
/// referred to by their index in it.
#[derive(Debug)]
pub struct PageArena<T> {
    /// The owner-side word: free/used bits, plus the arena bit on top.
    pub bitfield: CacheAligned<u64>,
    /// The word that dropping handles write their freed bits into; its top
    /// bit is set once the arena has dropped the page.
    pub bitfield_atomic: CacheAligned<u64>,
    /// The blocks; always exactly [`BLOCK_PER_PAGE`] of them.
    pub blocks: Vec<Block<T>>,
    /// Whether the page currently stands in the arena's free list or
    /// pending-free list, so the drop side does not insert it twice.
    pub in_free_list: bool,
    /// Whether the page's storage is still allocated.  It is reclaimed by
    /// the later of the arena's release and the last block's drop.
    pub live: bool,
}

impl<T> PageArena<T> {
    /// The two words as the drop side sees them, merged.
    pub open spec fn raw_merged(&self) -> u64 {
        self.bitfield.0 | self.bitfield_atomic.0
    }

    /// The page's logical bitfield: the merged words, with the top bit
    /// cleared once the returned word records that the arena dropped the
    /// page.  In this view the page reads exactly like a page of the other
    /// flavours.
    pub open spec fn bf(&self) -> u64 {
        if nth_bit(self.bitfield_atomic.0, 63) {
            self.raw_merged() & 0x7fff_ffff_ffff_ffffu64
        } else {
            self.raw_merged()
        }
    }

    /// The two-word discipline: the owner's arena bit stays set, and once
    /// the returned word records the arena's drop it has absorbed the
    /// owner's word entirely.
    pub open spec fn words_ok(&self) -> bool {
        &&& nth_bit(self.bitfield.0, 63)
        &&& !nth_bit(self.bitfield_atomic.0, 63) ==> self.bitfield.0 & self.bitfield_atomic.0
            == 0
        &&& nth_bit(self.bitfield_atomic.0, 63) ==> self.raw_merged() == self.bitfield_atomic.0
    }

    /// The merged words, as the shrink and statistics walks read them.
    pub fn merged(&self) -> (r: u64)
        ensures
            r == self.raw_merged(),
    {
        self.bitfield.0 | self.bitfield_atomic.0
    }

    /// Every block's tagged back-pointer names this page's number `i`, its
    /// own slot, and the single-owner kind.
    pub open spec fn tags_ok(&self, i: int) -> bool {
        forall|j: int|
            0 <= j < BLOCK_PER_PAGE ==> {
                let t = (#[trigger] self.blocks[j]).page;
                &&& t.spec_page_ptr() == i as u64
                &&& t.spec_index_block() == j as u64
                &&& t.spec_kind_bits() == PageKind::Arena.code()
            }
    }

    /// Shape of a page on its own: the block array is full-sized and every
    /// block whose bit is set is free.  (A block whose bit is clear may
    /// still be empty: it is then acquired but not yet filled in.)
    pub open spec fn wf(&self) -> bool {
        &&& self.blocks.len() == BLOCK_PER_PAGE
        &&& self.words_ok()
        &&& forall|j: u64|
            j < BLOCK_PER_PAGE && nth_bit(self.bf(), j) ==> (#[trigger] self.blocks[
                j as int
            ]).is_free_state()
    }

    /// Shape of a page at rest in an arena: additionally, every block whose
    /// bit is clear is used, so the bitfield counts handles exactly.
    pub open spec fn strict(&self) -> bool {
        &&& self.wf()
        &&& forall|j: u64|
            j < BLOCK_PER_PAGE && !nth_bit(self.bf(), j) ==> (#[trigger] self.blocks[
                j as int
            ]).is_used_state()
    }

    /// Shape of a page one of whose slots is in flight: every other block
    /// obeys the strict discipline, while slot `j` has its bit clear with
    /// nothing stored yet.  A slot looks like this between being acquired
    /// and being filled, and between being emptied and having its bit set.
    pub open spec fn strict_except(&self, j: int) -> bool {
        &&& self.wf()
        &&& 0 <= j < BLOCK_PER_PAGE
        &&& forall|j2: u64|
            j2 < BLOCK_PER_PAGE && j2 != j && !nth_bit(self.bf(), j2) ==> (#[trigger] self.blocks[
                j2 as int
            ]).is_used_state()
        &&& !nth_bit(self.bf(), j as u64)
        &&& self.blocks[j].counter == 0
        &&& self.blocks[j].value is None
    }

    /// A page as `make_list` hands it out: alive, all blocks free, the
    /// arena bit set, already meant for the free list.
    pub open spec fn is_fresh(&self, i: int) -> bool {
        &&& self.strict()
        &&& self.tags_ok(i)
        &&& self.bf() == FRESH_BITFIELD
        &&& self.bitfield.0 == FRESH_BITFIELD
        &&& self.bitfield_atomic.0 == 0
        &&& self.in_free_list
        &&& self.live
    }

    /// Number of used blocks this page's bitfield records.
    pub open spec fn used_count(&self) -> int {
        BLOCK_PER_PAGE - free_user(self.bf())
    }

    /// Number of blocks among the first `n` that a handle references.
    pub open spec fn handles_held(&self, n: int) -> int
        decreases n,
    {
        if n <= 0 {
            0
        } else {
            self.handles_held(n - 1) + if self.blocks[n - 1].counter >= 1 {
                1int
            } else {
                0int
            }
        }
    }

    /// On a strict page the bitfield is exact: the number of cleared block
    /// bits equals the number of blocks that handles reference.
    pub proof fn lemma_bitfield_counts_handles(&self, n: int)
        requires
            self.strict(),
            0 <= n <= BLOCK_PER_PAGE,
        ensures
            self.handles_held(n) == n - crate::bits::count_set(self.bf(), n),
        decreases n,
    {
        if n > 0 {
            self.lemma_bitfield_counts_handles(n - 1);
            if nth_bit(self.bf(), (n - 1) as u64) {
                assert(self.blocks[n - 1].is_free_state());
            } else {
                assert(self.blocks[n - 1].is_used_state());
            }
        }
    }

    /// Build one fresh page, to stand at index `i` of the page store.
    fn new_page(i: usize) -> (r: PageArena<T>)
        requires
            i < MAX_PAGES,
        ensures
            r.is_fresh(i as int),
    {
        let mut blocks: Vec<Block<T>> = Vec::new();
        let mut j: usize = 0;
        while j < BLOCK_PER_PAGE
            invariant
                j <= BLOCK_PER_PAGE,
                blocks.len() == j,
                i < MAX_PAGES,
                forall|k: int|
                    0 <= k < j ==> {
                        let t = (#[trigger] blocks[k]).page;
                        &&& t.spec_page_ptr() == i as u64
                        &&& t.spec_index_block() == k as u64
                        &&& t.spec_kind_bits() == PageKind::Arena.code()
                    },
                forall|k: int| 0 <= k < j ==> (#[trigger] blocks[k]).is_free_state(),
            decreases BLOCK_PER_PAGE - j,
        {
            proof {
                let p = i as u64;
                assert(p < 0x0100_0000 ==> p >> 55 == 0) by (bit_vector);
            }
            let tag = PageTaggedPtr::new(i as u64, j, PageKind::Arena);
            blocks.push(Block { value: None, counter: 0, page: tag });
            j += 1;
        }
        let page = PageArena {
            bitfield: CacheAligned::new(FRESH_BITFIELD),
            bitfield_atomic: CacheAligned::new(0),
            blocks,
            in_free_list: true,
            live: true,
        };
        proof {
            crate::bits::lemma_special_bitfields(FRESH_BITFIELD);
            assert(FRESH_BITFIELD | 0u64 == FRESH_BITFIELD) by (bit_vector);
            assert(!nth_bit(0u64, 63)) by (bit_vector);
            assert(FRESH_BITFIELD & 0u64 == 0u64) by (bit_vector);
        }
        page
    }

    /// Append a batch of `npages` fresh pages to the page store and return
    /// the page numbers of the head and the tail of the new chain.  The head
    /// is the page created last, as the chain is threaded through the pages
    /// in creation order.
    pub fn make_list(npages: usize, pages: &mut Vec<PageArena<T>>) -> (r: (usize, usize))
        requires
            1 <= npages,
            old(pages).len() + npages <= MAX_PAGES,
        ensures
            final(pages).len() == old(pages).len() + npages,
            forall|i: int| 0 <= i < old(pages).len() ==> final(pages)@[i] == old(pages)@[i],
            forall|i: int|
                old(pages).len() <= i < final(pages).len() ==> (#[trigger] final(
                    pages)@[i]).is_fresh(i),
            r.0 == final(pages).len() - 1,
            r.1 == old(pages).len(),
    {
        let first_new = pages.len();
        let mut n: usize = 0;
        while n < npages
            invariant
                n <= npages,
                pages.len() == first_new + n,
                first_new == old(pages).len(),
                first_new + npages <= MAX_PAGES,
                forall|i: int| 0 <= i < first_new ==> pages@[i] == old(pages)@[i],
                forall|i: int|
                    first_new <= i < pages.len() ==> (#[trigger] pages@[i]).is_fresh(i),
            decreases npages - n,
        {
            let i = pages.len();
            let page = Self::new_page(i);
            pages.push(page);
            n += 1;
        }
        (pages.len() - 1, first_new)
    }

    /// Find a free block and mark it used.  The owner's word is searched
    /// first; when it shows nothing free, the returned word is merged back
    /// in and searched once more.  Returns the block's index, or nothing
    /// exactly when no block is free.
    pub fn acquire_free_block(&mut self) -> (r: Option<usize>)
        requires
            old(self).wf(),
            nth_bit(old(self).bf(), 63),
        ensures
            final(self).blocks == old(self).blocks,
            final(self).in_free_list == old(self).in_free_list,
            final(self).live == old(self).live,
            final(self).wf(),
            match r {
                Some(j) => {
                    &&& j < BLOCK_PER_PAGE
                    &&& nth_bit(old(self).bf(), j as u64)
                    &&& final(self).bf() == old(self).bf() & !(1u64 << (j as u64))
                    &&& forall|k: u64|
                        k < 64 && k != j ==> nth_bit(final(self).bf(), k) == nth_bit(
                            old(self).bf(),
                            k,
                        )
                    &&& !nth_bit(final(self).bf(), j as u64)
                    &&& free_user(final(self).bf()) == free_user(old(self).bf()) - 1
                    &&& nth_bit(final(self).bf(), 63)
                    &&& free_user(old(self).bitfield.0) > 0 ==> nth_bit(
                        old(self).bitfield.0,
                        j as u64,
                    ) && (forall|k: u64| k < j ==> !nth_bit(old(self).bitfield.0, k))
                    &&& free_user(old(self).bitfield.0) == 0 ==> (forall|k: u64|
                        k < j ==> !nth_bit(old(self).raw_merged(), k))
                    &&& final(self).bitfield_atomic.0 == (if free_user(old(self).bitfield.0)
                        > 0 {
                        old(self).bitfield_atomic.0
                    } else {
                        0u64
                    })
                },
                None => {
                    &&& *final(self) == *old(self)
                    &&& free_user(old(self).bf()) == 0
                },
            },
    {
        proof {
            assert(!nth_bit(old(self).bitfield_atomic.0, 63)) by {
                if nth_bit(self.bitfield_atomic.0, 63) {
                    let b = self.raw_merged();
                    assert(!nth_bit(b & 0x7fff_ffff_ffff_ffffu64, 63)) by {
                        crate::bits::lemma_clear_arena_bit(b, 0);
                        assert(b & !0x8000_0000_0000_0000u64 == b & 0x7fff_ffff_ffff_ffffu64)
                            by (bit_vector);
                    }
                }
            }
        }
        let owner = self.bitfield.0;
        let aux = self.bitfield_atomic.0;
        let ghost m0 = *old(self);
        proof {
            lemma_trailing_zeros_free(owner);
            assert(owner & aux == 0);
            assert(self.bf() == (owner | aux));
        }
        let tz1 = owner.trailing_zeros() as usize;
        if tz1 == BLOCK_PER_PAGE {
            if aux == 0 {
                proof {
                    assert(owner | 0u64 == owner) by (bit_vector);
                    assert(free_user(owner) == 0);
                }
                return None;
            }
            let merged = owner | aux;
            self.bitfield.0 = merged;
            self.bitfield_atomic.0 = 0;
            proof {
                assert(merged | 0u64 == merged && merged & 0u64 == 0u64 && !((0u64 >> 63u64)
                    & 1u64 == 1u64)) by (bit_vector);
                assert(self.bf() == m0.bf());
                assert(nth_bit(merged, 63)) by {
                    crate::bits::lemma_nth_bit_merge(owner, aux, 63);
                }
            }
            let tz2 = merged.trailing_zeros() as usize;
            proof {
                lemma_trailing_zeros_free(merged);
                assert(tz2 < BLOCK_PER_PAGE) by {
                    vstd::std_specs::bits::axiom_u64_trailing_zeros(aux);
                    let ta = vstd::std_specs::bits::u64_trailing_zeros(aux) as u64;
                    assert(ta < 64);
                    assert(ta != 63) by {
                        if ta == 63 {
                            assert(nth_bit(aux, 63));
                        }
                    }
                    assert(nth_bit(aux, ta));
                    crate::bits::lemma_nth_bit_merge(owner, aux, ta);
                    assert(nth_bit(merged, ta));
                    crate::bits::lemma_count_extremes(merged, 63);
                    assert(free_user(merged) != 0);
                }
            }
            let bit: u64 = 1u64 << (tz2 as u64);
            self.bitfield.0 = merged & !bit;
            proof {
                let i = tz2 as u64;
                lemma_count_clear(merged, i, 63);
                assert forall|k: u64| k < 64 implies nth_bit(merged & !(1u64 << i), k) == (k != i
                    && nth_bit(merged, k)) by {
                    lemma_nth_bit_clear_mask(merged, i, k);
                }
                assert((merged & !(1u64 << i)) | 0u64 == (merged & !(1u64 << i)) && (merged & !(
                1u64 << i)) & 0u64 == 0u64) by (bit_vector);
                assert(self.bf() == m0.bf() & !(1u64 << i)) by {
                    assert(merged == m0.bf());
                }
            }
            return Some(tz2);
        }
        let bit: u64 = 1u64 << (tz1 as u64);
        self.bitfield.0 = owner & !bit;
        proof {
            let i = tz1 as u64;
            crate::bits::lemma_count_set_bounds(owner, 63);
            assert(free_user(owner) != 0);
            assert(nth_bit(owner, i));
            assert(nth_bit(m0.bf(), i)) by {
                crate::bits::lemma_nth_bit_merge(owner, aux, i);
            }
            assert(owner & aux == 0 && (owner >> i) & 1u64 == 1u64 && i < 63 ==> ((owner & !(
            1u64 << i)) | aux) == ((owner | aux) & !(1u64 << i)) && ((owner & !(1u64 << i))
                & aux) == 0) by (bit_vector);
            assert(self.bf() == m0.bf() & !(1u64 << i));
            lemma_count_clear(m0.bf(), i, 63);
            assert forall|k: u64| k < 64 implies nth_bit(m0.bf() & !(1u64 << i), k) == (k != i
                && nth_bit(m0.bf(), k)) by {
                lemma_nth_bit_clear_mask(m0.bf(), i, k);
            }
            assert(nth_bit(self.bitfield.0, 63)) by {
                lemma_nth_bit_clear_mask(owner, i, 63);
            }
        }
        Some(tz1)
    }
}

} // verus!
