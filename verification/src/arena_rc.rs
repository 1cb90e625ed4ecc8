//! The single-thread shared handle.

use vstd::prelude::*;

verus! {

use core::marker::PhantomData;

use crate::block::PageTaggedPtr;

/// A reference-counted pointer to a `T` stored in an arena, for use on one
/// thread only: in a concurrent setting its count needs no atomics.  It is
/// cloned through `clone_rc` and given back through `drop_rc` of the arena
/// that issued it; the drop that reaches zero frees the block.
#[derive(Debug)]
pub struct ArenaRc<T> {
    pub tag: PageTaggedPtr,
    pub _marker: PhantomData<T>,
}

impl<T> ArenaRc<T> {
    /// The tagged back-pointer this handle carries.
    pub open spec fn spec_tag(&self) -> PageTaggedPtr {
        self.tag
    }

    pub(crate) fn from_tag(tag: PageTaggedPtr) -> (r: ArenaRc<T>)
        ensures
            r.spec_tag() == tag,
    {
        ArenaRc { tag, _marker: PhantomData }
    }
}

} // verus!
