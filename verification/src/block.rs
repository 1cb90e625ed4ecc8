//! Blocks and the tagged back-pointer that ties a block to its page.

use vstd::prelude::*;

verus! {

/// Which arena flavour owns a page.  The kind is packed into the top two
/// bits of a block's tagged back-pointer, and an arena only accepts handles
/// whose kind is its own.
#[derive(Copy, Clone, Debug, PartialEq, Eq, Structural)]
pub enum PageKind {
    SharedArena,
    Arena,
    Pool,
}

impl PageKind {
    /// The code this kind packs into a tag.
    pub open spec fn code(self) -> u64 {
        match self {
            PageKind::SharedArena => 0,
            PageKind::Arena => 1,
            PageKind::Pool => 2,
        }
    }

    /// Numeric code of this kind, as packed into a tag.
    pub fn as_usize(self) -> (r: usize)
        ensures
            r == self.code(),
    {
        match self {
            PageKind::SharedArena => 0,
            PageKind::Arena => 1,
            PageKind::Pool => 2,
        }
    }

    /// The kind a code stands for.
    pub fn from_usize(code: usize) -> (r: PageKind)
        requires
            code < 3,
        ensures
            r.code() == code,
    {
        if code == 0 {
            PageKind::SharedArena
        } else if code == 1 {
            PageKind::Arena
        } else {
            PageKind::Pool
        }
    }
}

/// A tagged back-pointer: one word holding a page number in its low 56 bits
/// (sign-extended on read, so that word-sized page identifiers round-trip),
/// the block's index within the page in the next 6 bits, and the page kind
/// in the top 2 bits.
#[derive(Copy, Clone, Debug)]
pub struct PageTaggedPtr {
    pub data: u64,
}

/// Whether the top 9 bits of a word agree, so that packing it into the low
/// 56 bits of a tag and sign-extending on the way out recovers it exactly.
pub open spec fn canonical_ptr(p: u64) -> bool {
    p >> 55 == 0 || p >> 55 == 0x1ff
}

impl PageTaggedPtr {
    /// The block index this tag carries.
    pub open spec fn spec_index_block(self) -> u64 {
        (self.data >> 56) & 0x3f
    }

    /// The kind code this tag carries.
    pub open spec fn spec_kind_bits(self) -> u64 {
        self.data >> 62
    }

    /// The page word this tag carries: its low 56 bits, sign-extended.
    pub open spec fn spec_page_ptr(self) -> u64 {
        if self.data & 0x0080_0000_0000_0000u64 != 0 {
            (self.data & 0x00ff_ffff_ffff_ffffu64) | 0xff00_0000_0000_0000u64
        } else {
            self.data & 0x00ff_ffff_ffff_ffffu64
        }
    }

    /// Pack a block index and a page kind into an 8-bit tag.
    pub fn make_tag(index: usize, kind: PageKind) -> (r: u64)
        requires
            index < 64,
        ensures
            r == (kind.code() << 6) | (index as u64),
            r < 256,
            r & 0x3f == index,
            r >> 6 == kind.code(),
    {
        let kind_num: u64 = kind.as_usize() as u64;
        let tag: u64 = (kind_num << 6) | (index as u64);
        proof {
            let i = index as u64;
            let k = kind.code();
            assert(k < 4 && i < 64 ==> ((k << 6) | i) < 256 && ((k << 6) | i) & 0x3f == i && ((k
                << 6) | i) >> 6 == k) by (bit_vector);
        }
        tag
    }

    /// Pack a page word, a block index and a page kind into one tag word.
    pub fn new(page_ptr: u64, index: usize, kind: PageKind) -> (r: PageTaggedPtr)
        requires
            index < 64,
        ensures
            r.spec_index_block() == index,
            r.spec_kind_bits() == kind.code(),
            canonical_ptr(page_ptr) ==> r.spec_page_ptr() == page_ptr,
    {
        let tag = Self::make_tag(index, kind);
        let data: u64 = (page_ptr & !(0xffu64 << 56)) | (tag << 56);
        proof {
            let p = page_ptr;
            let t = tag;
            assert(t < 256 ==> ((p & !(0xffu64 << 56)) | (t << 56)) >> 56 == t) by (bit_vector);
            assert(t < 256 ==> (((p & !(0xffu64 << 56)) | (t << 56)) >> 56) & 0x3f == t & 0x3f)
                by (bit_vector);
            assert(t < 256 ==> ((p & !(0xffu64 << 56)) | (t << 56)) >> 62 == t >> 6)
                by (bit_vector);
            assert(p >> 55 == 0 ==> ((p & !(0xffu64 << 56)) | (t << 56))
                & 0x0080_0000_0000_0000u64 == 0 && ((p & !(0xffu64 << 56)) | (t << 56))
                & 0x00ff_ffff_ffff_ffffu64 == p) by (bit_vector);
            assert(p >> 55 == 0x1ff ==> ((p & !(0xffu64 << 56)) | (t << 56))
                & 0x0080_0000_0000_0000u64 != 0 && (((p & !(0xffu64 << 56)) | (t << 56))
                & 0x00ff_ffff_ffff_ffffu64) | 0xff00_0000_0000_0000u64 == p) by (bit_vector);
        }
        PageTaggedPtr { data }
    }

    /// The page word packed into this tag.
    pub fn page_ptr(self) -> (r: u64)
        ensures
            r == self.spec_page_ptr(),
    {
        let low = self.data & 0x00ff_ffff_ffff_ffffu64;
        if self.data & 0x0080_0000_0000_0000u64 != 0 {
            low | 0xff00_0000_0000_0000u64
        } else {
            low
        }
    }

    /// The page kind packed into this tag.  The two kind bits only ever hold
    /// the code of a real kind; a tag with the remaining code is corrupt.
    pub fn page_kind(self) -> (r: PageKind)
        requires
            self.spec_kind_bits() < 3,
        ensures
            r.code() == self.spec_kind_bits(),
    {
        let bits = self.data >> 62;
        proof {
            let d = self.data;
            assert(d >> 62 < 4) by (bit_vector);
        }
        PageKind::from_usize(bits as usize)
    }

    /// The block index packed into this tag.
    pub fn index_block(self) -> (r: usize)
        ensures
            r == self.spec_index_block(),
            r < 64,
    {
        proof {
            let d = self.data;
            assert((d >> 56) & 0x3f < 64) by (bit_vector);
        }
        ((self.data >> 56) & 0x3f) as usize
    }
}

/// Two tags that agree on page word, block index and kind are the same
/// word: the three components cover all 64 bits.
pub proof fn lemma_tag_injective(t1: PageTaggedPtr, t2: PageTaggedPtr)
    requires
        t1.spec_page_ptr() == t2.spec_page_ptr(),
        t1.spec_index_block() == t2.spec_index_block(),
        t1.spec_kind_bits() == t2.spec_kind_bits(),
    ensures
        t1 == t2,
{
    let a = t1.data;
    let b = t2.data;
    assert((if a & 0x0080_0000_0000_0000u64 != 0 {
        (a & 0x00ff_ffff_ffff_ffffu64) | 0xff00_0000_0000_0000u64
    } else {
        a & 0x00ff_ffff_ffff_ffffu64
    }) == (if b & 0x0080_0000_0000_0000u64 != 0 {
        (b & 0x00ff_ffff_ffff_ffffu64) | 0xff00_0000_0000_0000u64
    } else {
        b & 0x00ff_ffff_ffff_ffffu64
    }) && (a >> 56) & 0x3f == (b >> 56) & 0x3f && a >> 62 == b >> 62 ==> a == b)
        by (bit_vector);
}

/// Storage for one value, with its reference count and the tagged
/// back-pointer to the page and slot that hold it.  The back-pointer is set
/// when the page is built and never changes afterwards.
#[derive(Debug)]
pub struct Block<T> {
    /// The stored value; `None` while the block is free.
    pub value: Option<T>,
    /// Number of handles that reference this block.
    pub counter: usize,
    /// Tagged back-pointer: owning page, index within it, page kind.
    pub page: PageTaggedPtr,
}

impl<T> Block<T> {
    /// A free block: nothing stored, no handle outstanding.
    pub open spec fn is_free_state(&self) -> bool {
        self.counter == 0 && self.value is None
    }

    /// A used block: a value stored, at least one handle outstanding.
    pub open spec fn is_used_state(&self) -> bool {
        self.counter >= 1 && self.value is Some
    }
}

} // verus!
