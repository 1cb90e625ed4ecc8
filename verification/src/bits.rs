//! Bit-level reasoning about page bitfields.
//!
//! A page's bitfield is one `u64`: bit `j` (for `j < 63`) is 1 exactly when
//! block `j` is free, and bit 63 is the inverted arena bit.  This module
//! defines the spec-level view of single bits and of the number of free
//! blocks, and proves the handful of facts the page and arena proofs need.

use vstd::prelude::*;

verus! {

use vstd::std_specs::bits::u64_trailing_zeros;

/// Bit `j` of `b`, as a boolean.
pub open spec fn nth_bit(b: u64, j: u64) -> bool {
    (b >> j) & 1u64 == 1u64
}

/// Number of set bits of `b` among positions `0 .. n`.
pub open spec fn count_set(b: u64, n: int) -> int
    decreases n,
{
    if n <= 0 {
        0
    } else {
        count_set(b, n - 1) + if nth_bit(b, (n - 1) as u64) {
            1int
        } else {
            0int
        }
    }
}

/// Number of free blocks a bitfield records: its set bits below the arena bit.
pub open spec fn free_user(b: u64) -> int {
    count_set(b, 63)
}

pub proof fn lemma_count_set_bounds(b: u64, n: int)
    requires
        0 <= n,
    ensures
        0 <= count_set(b, n) <= n,
    decreases n,
{
    if n > 0 {
        lemma_count_set_bounds(b, n - 1);
    }
}

pub proof fn lemma_nth_bit_or_mask(b: u64, i: u64, j: u64)
    by (bit_vector)
    requires
        i < 64,
        j < 64,
    ensures
        nth_bit(b | (1u64 << i), j) == (i == j || nth_bit(b, j)),
{
}

pub proof fn lemma_nth_bit_clear_mask(b: u64, i: u64, j: u64)
    by (bit_vector)
    requires
        i < 64,
        j < 64,
    ensures
        nth_bit(b & !(1u64 << i), j) == (i != j && nth_bit(b, j)),
{
}

pub proof fn lemma_count_or(b: u64, i: u64, n: int)
    requires
        i < 64,
        0 <= n <= 64,
    ensures
        count_set(b | (1u64 << i), n) == count_set(b, n) + if i < n && !nth_bit(b, i) {
            1int
        } else {
            0int
        },
    decreases n,
{
    if n > 0 {
        lemma_count_or(b, i, n - 1);
        lemma_nth_bit_or_mask(b, i, (n - 1) as u64);
    }
}

pub proof fn lemma_count_clear(b: u64, i: u64, n: int)
    requires
        i < 64,
        0 <= n <= 64,
    ensures
        count_set(b & !(1u64 << i), n) == count_set(b, n) - if i < n && nth_bit(b, i) {
            1int
        } else {
            0int
        },
    decreases n,
{
    if n > 0 {
        lemma_count_clear(b, i, n - 1);
        lemma_nth_bit_clear_mask(b, i, (n - 1) as u64);
    }
}

/// A bitfield has no set bit below `n` exactly when its count there is zero,
/// and all of them set exactly when the count is `n`.
pub proof fn lemma_count_extremes(b: u64, n: int)
    requires
        0 <= n <= 64,
    ensures
        (count_set(b, n) == 0) == (forall|j: u64| j < n ==> !nth_bit(b, j)),
        (count_set(b, n) == n) == (forall|j: u64| j < n ==> nth_bit(b, j)),
    decreases n,
{
    if n > 0 {
        lemma_count_extremes(b, n - 1);
        lemma_count_set_bounds(b, n - 1);
        if count_set(b, n) == 0 {
            assert(forall|j: u64| j < n - 1 ==> !nth_bit(b, j));
            assert(!nth_bit(b, (n - 1) as u64));
        }
        if count_set(b, n) == n {
            assert(forall|j: u64| j < n - 1 ==> nth_bit(b, j));
            assert(nth_bit(b, (n - 1) as u64));
        }
    }
}

/// Two bitfields agreeing on every bit below `n` have the same count there.
pub proof fn lemma_count_congruence(b1: u64, b2: u64, n: int)
    requires
        0 <= n <= 64,
        forall|j: u64| j < n ==> nth_bit(b1, j) == nth_bit(b2, j),
    ensures
        count_set(b1, n) == count_set(b2, n),
    decreases n,
{
    if n > 0 {
        lemma_count_congruence(b1, b2, n - 1);
    }
}

pub proof fn lemma_bit63_nonzero(b: u64)
    by (bit_vector)
    requires
        nth_bit(b, 63),
    ensures
        b != 0,
{
}

/// What a trailing-zeros count means for a bitfield whose arena bit is set:
/// it is the lowest free block, or 63 when no block is free.
pub proof fn lemma_trailing_zeros_free(b: u64)
    requires
        nth_bit(b, 63),
    ensures
        u64_trailing_zeros(b) <= 63,
        u64_trailing_zeros(b) == 63 <==> free_user(b) == 0,
        u64_trailing_zeros(b) < 63 ==> nth_bit(b, u64_trailing_zeros(b) as u64),
        forall|j: u64| j < u64_trailing_zeros(b) ==> !nth_bit(b, j),
{
    vstd::std_specs::bits::axiom_u64_trailing_zeros(b);
    lemma_bit63_nonzero(b);
    let tz = u64_trailing_zeros(b);
    assert(forall|j: u64| j < tz ==> !nth_bit(b, j));
    lemma_count_extremes(b, 63);
    if tz == 63 {
        assert(free_user(b) == 0);
    } else {
        assert(nth_bit(b, tz as u64));
        if free_user(b) == 0 {
            assert(!nth_bit(b, tz as u64));
        }
    }
}

/// A word all of whose bits are set is the all-ones word.
pub proof fn lemma_all_set(b: u64)
    requires
        forall|j: u64| j < 64 ==> nth_bit(b, j),
    ensures
        b == 0xffff_ffff_ffff_ffffu64,
{
    vstd::std_specs::bits::axiom_u64_trailing_ones(b);
    let t = vstd::std_specs::bits::u64_trailing_ones(b);
    if t < 64 {
        assert((b >> (t as u64)) & 1u64 == 0u64);
        assert(nth_bit(b, t as u64));
        assert(false);
    }
}

/// The two distinguished bitfield values, characterised bit by bit.
pub proof fn lemma_special_bitfields(b: u64)
    ensures
        (b == 0xffff_ffff_ffff_ffffu64) == ((forall|j: u64| j < 63 ==> nth_bit(b, j)) && nth_bit(
            b,
            63,
        )),
        (b == 0x7fff_ffff_ffff_ffffu64) == ((forall|j: u64| j < 63 ==> nth_bit(b, j)) && !nth_bit(
            b,
            63,
        )),
{
    if b == 0xffff_ffff_ffff_ffffu64 {
        assert forall|j: u64| j < 64 implies nth_bit(b, j) by {
            assert(j < 64 ==> (0xffff_ffff_ffff_ffffu64 >> j) & 1u64 == 1u64) by (bit_vector);
        }
    }
    if b == 0x7fff_ffff_ffff_ffffu64 {
        assert forall|j: u64| j < 63 implies nth_bit(b, j) by {
            assert(j < 63 ==> (0x7fff_ffff_ffff_ffffu64 >> j) & 1u64 == 1u64) by (bit_vector);
        }
        assert(!nth_bit(b, 63)) by {
            assert((0x7fff_ffff_ffff_ffffu64 >> 63) & 1u64 == 0u64) by (bit_vector);
        }
    }
    if forall|j: u64| j < 63 ==> nth_bit(b, j) {
        if nth_bit(b, 63) {
            assert forall|j: u64| j < 64 implies nth_bit(b, j) by {
                if j < 63 {
                    assert(nth_bit(b, j));
                }
            }
            lemma_all_set(b);
        } else {
            let m = b | 0x8000_0000_0000_0000u64;
            assert forall|j: u64| j < 64 implies nth_bit(m, j) by {
                lemma_nth_bit_merge(b, 0x8000_0000_0000_0000u64, j);
                if j < 63 {
                    assert(nth_bit(b, j));
                } else {
                    assert(nth_bit(0x8000_0000_0000_0000u64, 63u64)) by (bit_vector);
                }
            }
            lemma_all_set(m);
            assert(b | 0x8000_0000_0000_0000u64 == 0xffff_ffff_ffff_ffffu64 && !((b >> 63u64)
                & 1u64 == 1u64) ==> b == 0x7fff_ffff_ffff_ffffu64) by (bit_vector);
        }
    }
}

/// Clearing the arena bit leaves every block bit alone.
pub proof fn lemma_clear_arena_bit(b: u64, j: u64)
    by (bit_vector)
    requires
        j < 63,
    ensures
        nth_bit(b & !0x8000_0000_0000_0000u64, j) == nth_bit(b, j),
        !nth_bit(b & !0x8000_0000_0000_0000u64, 63),
{
}

/// Merging two bitfields by `|`, bit by bit.
pub proof fn lemma_nth_bit_merge(b1: u64, b2: u64, j: u64)
    by (bit_vector)
    requires
        j < 64,
    ensures
        nth_bit(b1 | b2, j) == (nth_bit(b1, j) || nth_bit(b2, j)),
{
}

/// How a page of the single-owner arena reads after the drop side sets a
/// freed bit in the returned word.  `ownr` is the owner's word, `auxv` the
/// returned word, and the folded view clears the top bit once the returned
/// word's own top bit records the arena's drop.  Setting bit `j` in the
/// returned word sets it in the folded view, keeps the two-word discipline,
/// and fills the returned word completely exactly when the folded view
/// reaches the state in which the page is reclaimed.
pub proof fn lemma_returned_word_update(ownr: u64, auxv: u64, j: u64)
    by (bit_vector)
    requires
        j < 63,
        (ownr >> 63u64) & 1u64 == 1u64,
        ((auxv >> 63u64) & 1u64 != 1u64) ==> ownr & auxv == 0,
        ((auxv >> 63u64) & 1u64 == 1u64) ==> (ownr | auxv) == auxv,
        ((ownr | auxv) >> j) & 1u64 == 0u64,
    ensures
        (if ((auxv | (1u64 << j)) >> 63u64) & 1u64 == 1u64 {
            (ownr | (auxv | (1u64 << j))) & 0x7fff_ffff_ffff_ffffu64
        } else {
            ownr | (auxv | (1u64 << j))
        }) == (if (auxv >> 63u64) & 1u64 == 1u64 {
            (ownr | auxv) & 0x7fff_ffff_ffff_ffffu64
        } else {
            ownr | auxv
        }) | (1u64 << j),
        ((auxv >> 63u64) & 1u64 != 1u64) ==> ownr & (auxv | (1u64 << j)) == 0,
        ((auxv >> 63u64) & 1u64 == 1u64) ==> (ownr | (auxv | (1u64 << j))) == (auxv | (1u64
            << j)),
        (((auxv | (1u64 << j)) >> 63u64) & 1u64) == ((auxv >> 63u64) & 1u64),
        ((auxv | (1u64 << j)) == 0xffff_ffff_ffff_ffffu64) == ((if ((auxv | (1u64 << j))
            >> 63u64) & 1u64 == 1u64 {
            (ownr | (auxv | (1u64 << j))) & 0x7fff_ffff_ffff_ffffu64
        } else {
            ownr | (auxv | (1u64 << j))
        }) == 0x7fff_ffff_ffff_ffffu64),
{
}

/// How a page of the single-owner arena reads after its release: the
/// owner's word is absorbed into the returned word, whose top bit then
/// records the drop, so the folded view loses its top bit; the returned
/// word is full exactly when the folded view reaches the reclaimed state.
pub proof fn lemma_release_word_update(ownr: u64, auxv: u64)
    by (bit_vector)
    requires
        (ownr >> 63u64) & 1u64 == 1u64,
        ((auxv >> 63u64) & 1u64 != 1u64) ==> ownr & auxv == 0,
        ((auxv >> 63u64) & 1u64 == 1u64) ==> (ownr | auxv) == auxv,
    ensures
        ((ownr | auxv) >> 63u64) & 1u64 == 1u64,
        (ownr | (ownr | auxv)) == (ownr | auxv),
        (if ((ownr | auxv) >> 63u64) & 1u64 == 1u64 {
            (ownr | (ownr | auxv)) & 0x7fff_ffff_ffff_ffffu64
        } else {
            ownr | (ownr | auxv)
        }) == (if (auxv >> 63u64) & 1u64 == 1u64 {
            (ownr | auxv) & 0x7fff_ffff_ffff_ffffu64
        } else {
            ownr | auxv
        }) & !0x8000_0000_0000_0000u64,
        ((ownr | auxv) == 0xffff_ffff_ffff_ffffu64) == ((if (auxv >> 63u64) & 1u64 == 1u64 {
            (ownr | auxv) & 0x7fff_ffff_ffff_ffffu64
        } else {
            ownr | auxv
        }) & !0x8000_0000_0000_0000u64 == 0x7fff_ffff_ffff_ffffu64),
{
}

/// A page of the single-owner arena whose folded view keeps its top bit
/// has an untouched returned word, so the folded view is just the union of
/// the two words.
pub proof fn lemma_folded_is_raw(ownr: u64, auxv: u64)
    by (bit_vector)
    requires
        ((if (auxv >> 63u64) & 1u64 == 1u64 {
            (ownr | auxv) & 0x7fff_ffff_ffff_ffffu64
        } else {
            ownr | auxv
        }) >> 63u64) & 1u64 == 1u64,
    ensures
        (auxv >> 63u64) & 1u64 != 1u64,
        (if (auxv >> 63u64) & 1u64 == 1u64 {
            (ownr | auxv) & 0x7fff_ffff_ffff_ffffu64
        } else {
            ownr | auxv
        }) == (ownr | auxv),
{
}

/// Count the free blocks a bitfield records: its set bits below the top one.
pub fn count_free(bf: u64) -> (r: u64)
    ensures
        r == free_user(bf),
{
    let mut r: u64 = 0;
    let mut j: u64 = 0;
    while j < 63
        invariant
            j <= 63,
            r == count_set(bf, j as int),
            r <= j,
        decreases 63 - j,
    {
        if (bf >> j) & 1u64 == 1u64 {
            r += 1;
        }
        j += 1;
    }
    r
}

} // verus!
