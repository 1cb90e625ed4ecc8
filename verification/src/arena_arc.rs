//! The thread-safe shared handle.

use vstd::prelude::*;

verus! {

use core::marker::PhantomData;

use crate::block::PageTaggedPtr;

/// A reference-counted pointer to a `T` stored in an arena.
///
/// Cloning an `ArenaArc` (through `clone_arc` of the issuing arena) raises
/// its block's reference count; giving one back through `drop_arc` lowers
/// it, and the drop that reaches zero frees the block.  In a concurrent
/// setting this is the handle whose count is kept atomically.
#[derive(Debug)]
pub struct ArenaArc<T> {
    pub tag: PageTaggedPtr,
    pub _marker: PhantomData<T>,
}

impl<T> ArenaArc<T> {
    /// The tagged back-pointer this handle carries.
    pub open spec fn spec_tag(&self) -> PageTaggedPtr {
        self.tag
    }

    pub(crate) fn from_tag(tag: PageTaggedPtr) -> (r: ArenaArc<T>)
        ensures
            r.spec_tag() == tag,
    {
        ArenaArc { tag, _marker: PhantomData }
    }
}

} // verus!
