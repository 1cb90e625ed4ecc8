//! Constants shared by every page flavour.

use vstd::prelude::*;

verus! {

/// Width in bits of a page's bitfield word.
pub const BITFIELD_WIDTH: usize = 64;

/// Number of blocks per page: every bit of the bitfield word but the top one
/// marks a block.
pub const BLOCK_PER_PAGE: usize = 63;

/// Mask of the arena bit, the top bit of a page's bitfield.  It is held
/// inverted (1 = the arena still references the page) so that a
/// trailing-zeros count never reports it as a free slot.
pub const MASK_ARENA_BIT: u64 = 0x8000_0000_0000_0000;

/// A bitfield in which the arena bit is set and every block is free.
pub const FRESH_BITFIELD: u64 = 0xffff_ffff_ffff_ffff;

/// A bitfield in which every block is free and the arena bit is clear: the
/// state in which a page's storage is reclaimed.
pub const DEALLOC_BITFIELD: u64 = 0x7fff_ffff_ffff_ffff;

/// Largest page count requested in one batch, bounding virtual-memory spikes
/// of the doubling growth strategy.
pub const MAX_PAGE_BATCH: usize = 900_000;

/// Bound on how many pages one store may ever hold.  Real memory runs out
/// far earlier; the bound keeps every block count and page number within the
/// machine word.
pub const MAX_PAGES: usize = 0x0100_0000;

/// Pages needed to hold `cap` values: `cap / 63` rounded up, and at least
/// one page.
pub open spec fn pages_for_capacity(cap: int) -> int {
    (if cap < 1 {
        0int
    } else {
        cap - 1
    }) / 63 + 1
}

} // verus!
