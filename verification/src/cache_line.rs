//! A wrapper marking data meant to live on a cache line of its own, so that
//! heavily written words (a page's bitfield) do not share a line with their
//! neighbours.  The wrapper carries no behaviour of its own.

use vstd::prelude::*;

verus! {

/// Marks a value as intended for its own cache line.
#[derive(Copy, Clone, Debug)]
pub struct CacheAligned<T: Sized>(pub T);

impl<T> CacheAligned<T> {
    /// Wrap a value.
    pub fn new(v: T) -> (r: CacheAligned<T>)
        ensures
            r.0 == v,
    {
        CacheAligned(v)
    }
}

} // verus!
