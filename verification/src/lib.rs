//! Fixed-size object pools (slab allocators) for programs that allocate and
//! free many values of one type.
//!
//! Three pool flavours are provided, differing only in their intended
//! concurrency model and in the smart-pointer kinds they hand out:
//!
//! - [`SharedArena`]: an arena meant to be shared, yielding [`ArenaBox`],
//!   [`ArenaArc`] and [`ArenaRc`] handles;
//! - [`Arena`]: a single-owner arena whose handles may travel elsewhere;
//! - [`Pool`]: a pool confined to one owner, yielding [`PoolBox`] and
//!   [`ArenaRc`] handles.
//!
//! All three allocate by pages of [`BLOCK_PER_PAGE`] blocks.  Each page keeps
//! one machine word as a bitfield: bit `i` is 1 exactly when slot `i` is
//! free, and the top bit (the *arena bit*, held inverted: 1 = alive) records
//! whether the arena still references the page.  Finding a free slot is a
//! single trailing-zeros count, which the reserved top bit can never satisfy.
//!
//! Pages live in a page store owned by the arena value, so that blocks stay
//! valid while handles are outstanding, even after the arena itself has been
//! released: a page is deallocated by the *later* of "the arena clears the
//! arena bit" and "the last block sets its free bit".  Handles are tagged
//! back-pointers (page, slot index, and page kind packed into one word), and
//! every operation on a handle is performed against the arena that issued it.

mod arena;
mod arena_arc;
mod arena_box;
mod arena_rc;
mod bits;
mod bits_sum;
mod block;
mod cache_line;
mod common;
mod page;
mod pool;
mod shared_arena;

pub use crate::arena::Arena;
pub use crate::arena_arc::ArenaArc;
pub use crate::arena_box::ArenaBox;
pub use crate::arena_rc::ArenaRc;
pub use crate::block::Block;
pub use crate::block::PageKind;
pub use crate::block::PageTaggedPtr;
pub use crate::cache_line::CacheAligned;
pub use crate::common::BITFIELD_WIDTH;
pub use crate::common::BLOCK_PER_PAGE;
pub use crate::common::MASK_ARENA_BIT;
pub use crate::page::arena::PageArena;
pub use crate::page::pool::PagePool;
pub use crate::page::shared_arena::PageSharedArena;
pub use crate::pool::Pool;
pub use crate::pool::PoolBox;
pub use crate::shared_arena::SharedArena;
