//! The page flavours, one per arena flavour.

pub mod arena;
pub mod pool;
pub mod shared_arena;
