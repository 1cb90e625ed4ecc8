//! The owning handle.

use vstd::prelude::*;

verus! {

use core::marker::PhantomData;

use crate::block::PageTaggedPtr;

/// An owning pointer to a `T` stored in an arena.
///
/// An `ArenaBox` is unique: it cannot be cloned, and while it exists its
/// block's reference count is exactly one.  It is produced by the
/// `alloc_box` and `alloc_with` operations of [`crate::SharedArena`] and
/// [`crate::Arena`], read through `get_box`, and given back through
/// `drop_box` or `into_inner` of the arena that issued it, which frees the
/// block.
#[derive(Debug)]
pub struct ArenaBox<T> {
    pub tag: PageTaggedPtr,
    pub _marker: PhantomData<T>,
}

impl<T> ArenaBox<T> {
    /// The tagged back-pointer this handle carries.
    pub open spec fn spec_tag(&self) -> PageTaggedPtr {
        self.tag
    }

    pub(crate) fn from_tag(tag: PageTaggedPtr) -> (r: ArenaBox<T>)
        ensures
            r.spec_tag() == tag,
    {
        ArenaBox { tag, _marker: PhantomData }
    }
}

} // verus!
