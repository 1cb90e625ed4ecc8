//! Sums of free-block counts over the index lists the arenas keep.
//!
//! An arena threads its pages into lists of page numbers.  The statistics
//! and the allocation proofs need the total number of free blocks over such
//! a list; this module defines that sum over the sequence of bitfields and
//! proves how it reacts to the operations the arenas perform: changing one
//! page's bitfield, pushing a page, appending fresh pages.

use vstd::prelude::*;

verus! {

use crate::bits::free_user;
use crate::bits::lemma_count_set_bounds;

/// Total number of free blocks over the pages listed in `l`, where `bfs`
/// holds every page's bitfield.
pub open spec fn sum_free(bfs: Seq<u64>, l: Seq<usize>) -> int
    decreases l.len(),
{
    if l.len() == 0 {
        0
    } else {
        sum_free(bfs, l.drop_last()) + free_user(bfs[l.last() as int])
    }
}

/// Every page number in `l` is an index into `bfs`.
pub open spec fn list_in_range(bfs: Seq<u64>, l: Seq<usize>) -> bool {
    forall|k: int| 0 <= k < l.len() ==> (#[trigger] l[k]) < bfs.len()
}

pub proof fn lemma_sum_free_bounds(bfs: Seq<u64>, l: Seq<usize>)
    ensures
        0 <= sum_free(bfs, l) <= 63 * l.len(),
    decreases l.len(),
{
    if l.len() > 0 {
        lemma_sum_free_bounds(bfs, l.drop_last());
        lemma_count_set_bounds(bfs[l.last() as int], 63);
    }
}

/// Changing the bitfield of a page that a list does not mention leaves the
/// list's sum alone.
pub proof fn lemma_sum_free_update_absent(bfs: Seq<u64>, l: Seq<usize>, i: int, x: u64)
    requires
        0 <= i < bfs.len(),
        bfs.len() <= usize::MAX,
        list_in_range(bfs, l),
        !l.contains(i as usize),
    ensures
        sum_free(bfs.update(i, x), l) == sum_free(bfs, l),
    decreases l.len(),
{
    if l.len() > 0 {
        assert(l.last() == l[l.len() - 1]);
        assert(forall|k: int| 0 <= k < l.drop_last().len() ==> l.drop_last()[k] == l[k]);
        lemma_sum_free_update_absent(bfs, l.drop_last(), i, x);
    }
}

/// Changing the bitfield of a page that a duplicate-free list mentions moves
/// the list's sum by exactly that page's change.
pub proof fn lemma_sum_free_update_present(bfs: Seq<u64>, l: Seq<usize>, i: int, x: u64)
    requires
        0 <= i < bfs.len(),
        bfs.len() <= usize::MAX,
        list_in_range(bfs, l),
        l.no_duplicates(),
        l.contains(i as usize),
    ensures
        sum_free(bfs.update(i, x), l) == sum_free(bfs, l) - free_user(bfs[i]) + free_user(x),
    decreases l.len(),
{
    let tail = l.drop_last();
    assert(forall|k: int| 0 <= k < tail.len() ==> tail[k] == l[k]);
    if l.last() == i as usize {
        assert(!tail.contains(i as usize)) by {
            if tail.contains(i as usize) {
                let k = choose|k: int| 0 <= k < tail.len() && tail[k] == i as usize;
                assert(l[k] == l[l.len() - 1]);
            }
        }
        lemma_sum_free_update_absent(bfs, tail, i, x);
    } else {
        assert(tail.contains(i as usize)) by {
            let k = choose|k: int| 0 <= k < l.len() && l[k] == i as usize;
            assert(0 <= k < tail.len() && tail[k] == i as usize);
        }
        assert(tail.no_duplicates());
        lemma_sum_free_update_present(bfs, tail, i, x);
    }
}

pub proof fn lemma_sum_free_push(bfs: Seq<u64>, l: Seq<usize>, i: usize)
    ensures
        sum_free(bfs, l.push(i)) == sum_free(bfs, l) + free_user(bfs[i as int]),
{
    assert(l.push(i).drop_last() =~= l);
}

/// Total free blocks over the page numbers below `n` that satisfy `p`.
/// This indexed form of the sum lets membership arguments be made page by
/// page instead of by permuting lists.
pub open spec fn sum_where(bfs: Seq<u64>, p: spec_fn(int) -> bool, n: int) -> int
    decreases n,
{
    if n <= 0 {
        0
    } else {
        sum_where(bfs, p, n - 1) + if p(n - 1) {
            free_user(bfs[n - 1])
        } else {
            0int
        }
    }
}

pub proof fn lemma_sum_where_congruence(bfs: Seq<u64>, p: spec_fn(int) -> bool, q: spec_fn(
    int,
) -> bool, n: int)
    requires
        forall|i: int| 0 <= i < n ==> #[trigger] p(i) == q(i),
    ensures
        sum_where(bfs, p, n) == sum_where(bfs, q, n),
    decreases n,
{
    if n > 0 {
        lemma_sum_where_congruence(bfs, p, q, n - 1);
    }
}

pub proof fn lemma_sum_where_one_diff(bfs: Seq<u64>, p: spec_fn(int) -> bool, q: spec_fn(
    int,
) -> bool, i0: int, n: int)
    requires
        0 <= i0 < n,
        p(i0),
        !q(i0),
        forall|i: int| 0 <= i < n && i != i0 ==> #[trigger] p(i) == q(i),
    ensures
        sum_where(bfs, p, n) == sum_where(bfs, q, n) + free_user(bfs[i0]),
    decreases n,
{
    if i0 == n - 1 {
        lemma_sum_where_congruence(bfs, p, q, n - 1);
    } else {
        lemma_sum_where_one_diff(bfs, p, q, i0, n - 1);
    }
}

pub proof fn lemma_sum_where_split(bfs: Seq<u64>, p: spec_fn(int) -> bool, q: spec_fn(
    int,
) -> bool, r: spec_fn(int) -> bool, n: int)
    requires
        forall|i: int| 0 <= i < n ==> #[trigger] p(i) == (q(i) || r(i)),
        forall|i: int| 0 <= i < n ==> !(#[trigger] q(i) && r(i)),
    ensures
        sum_where(bfs, p, n) == sum_where(bfs, q, n) + sum_where(bfs, r, n),
    decreases n,
{
    if n > 0 {
        lemma_sum_where_split(bfs, p, q, r, n - 1);
    }
}

pub proof fn lemma_sum_where_zero(bfs: Seq<u64>, p: spec_fn(int) -> bool, n: int)
    requires
        forall|i: int| 0 <= i < n && #[trigger] p(i) ==> free_user(bfs[i]) == 0,
    ensures
        sum_where(bfs, p, n) == 0,
    decreases n,
{
    if n > 0 {
        lemma_sum_where_zero(bfs, p, n - 1);
    }
}

/// A duplicate-free list sums to the same total as the membership predicate
/// it induces.
pub proof fn lemma_sum_list_eq_where(bfs: Seq<u64>, l: Seq<usize>)
    requires
        l.no_duplicates(),
        list_in_range(bfs, l),
        bfs.len() <= usize::MAX,
    ensures
        sum_free(bfs, l) == sum_where(bfs, |i: int| l.contains(i as usize), bfs.len() as int),
    decreases l.len(),
{
    let n = bfs.len() as int;
    if l.len() == 0 {
        lemma_sum_where_zero_pred(bfs, |i: int| l.contains(i as usize), n);
    } else {
        let tail = l.drop_last();
        let x = l.last();
        assert(forall|k: int| 0 <= k < tail.len() ==> tail[k] == l[k]);
        assert(tail.no_duplicates());
        assert(!tail.contains(x)) by {
            if tail.contains(x) {
                let k = choose|k: int| 0 <= k < tail.len() && tail[k] == x;
                assert(l[k] == l[l.len() - 1]);
            }
        }
        lemma_sum_list_eq_where(bfs, tail);
        let pl = |i: int| l.contains(i as usize);
        let pt = |i: int| tail.contains(i as usize);
        assert(pl(x as int)) by {
            assert(l[l.len() - 1] == x);
        }
        assert forall|i: int| 0 <= i < n && i != x as int implies #[trigger] pl(i) == pt(i) by {
            if pl(i) {
                let k = choose|k: int| 0 <= k < l.len() && l[k] == i as usize;
                assert(k < l.len() - 1);
                assert(tail[k] == i as usize);
            }
            if pt(i) {
                let k = choose|k: int| 0 <= k < tail.len() && tail[k] == i as usize;
                assert(l[k] == i as usize);
            }
        }
        lemma_sum_where_one_diff(bfs, pl, pt, x as int, n);
    }
}

/// A predicate that nothing satisfies sums to zero.
pub proof fn lemma_sum_where_zero_pred(bfs: Seq<u64>, p: spec_fn(int) -> bool, n: int)
    requires
        forall|i: int| 0 <= i < n ==> !#[trigger] p(i),
    ensures
        sum_where(bfs, p, n) == 0,
    decreases n,
{
    if n > 0 {
        lemma_sum_where_zero_pred(bfs, p, n - 1);
    }
}

/// A list's sum is at least the contribution of any one member.
pub proof fn lemma_sum_free_member_lower(bfs: Seq<u64>, l: Seq<usize>, i: usize)
    requires
        l.contains(i),
    ensures
        sum_free(bfs, l) >= free_user(bfs[i as int]),
    decreases l.len(),
{
    lemma_count_set_bounds(bfs[l.last() as int], 63);
    crate::bits::lemma_count_set_bounds(bfs[i as int], 63);
    let tail = l.drop_last();
    assert(forall|k: int| 0 <= k < tail.len() ==> tail[k] == l[k]);
    if l.last() == i {
        lemma_sum_free_bounds(bfs, tail);
    } else {
        let k = choose|k: int| 0 <= k < l.len() && l[k] == i;
        assert(tail[k] == i);
        lemma_sum_free_member_lower(bfs, tail, i);
    }
}

/// Number of pages listed in `l` whose bitfield shows every block free and
/// the arena bit set: the pages a shrink may reclaim.
pub open spec fn count_fresh(bfs: Seq<u64>, l: Seq<usize>) -> int
    decreases l.len(),
{
    if l.len() == 0 {
        0
    } else {
        count_fresh(bfs, l.drop_last()) + if bfs[l.last() as int]
            == crate::common::FRESH_BITFIELD {
            1int
        } else {
            0int
        }
    }
}

/// Number of page numbers below `n` that satisfy `p`.
pub open spec fn count_where(p: spec_fn(int) -> bool, n: int) -> int
    decreases n,
{
    if n <= 0 {
        0
    } else {
        count_where(p, n - 1) + if p(n - 1) {
            1int
        } else {
            0int
        }
    }
}

pub proof fn lemma_count_where_split(p: spec_fn(int) -> bool, q: spec_fn(int) -> bool, r: spec_fn(
    int,
) -> bool, n: int)
    requires
        forall|i: int| 0 <= i < n ==> #[trigger] p(i) == (q(i) || r(i)),
        forall|i: int| 0 <= i < n ==> !(#[trigger] q(i) && r(i)),
    ensures
        count_where(p, n) == count_where(q, n) + count_where(r, n),
    decreases n,
{
    if n > 0 {
        lemma_count_where_split(p, q, r, n - 1);
    }
}

pub proof fn lemma_count_where_congruence(p: spec_fn(int) -> bool, q: spec_fn(int) -> bool, n: int)
    requires
        forall|i: int| 0 <= i < n ==> #[trigger] p(i) == q(i),
    ensures
        count_where(p, n) == count_where(q, n),
    decreases n,
{
    if n > 0 {
        lemma_count_where_congruence(p, q, n - 1);
    }
}

pub proof fn lemma_count_where_one_diff(p: spec_fn(int) -> bool, q: spec_fn(int) -> bool, i0: int, n: int)
    requires
        0 <= i0 < n,
        p(i0),
        !q(i0),
        forall|i: int| 0 <= i < n && i != i0 ==> #[trigger] p(i) == q(i),
    ensures
        count_where(p, n) == count_where(q, n) + 1,
    decreases n,
{
    if i0 == n - 1 {
        lemma_count_where_congruence(p, q, n - 1);
    } else {
        lemma_count_where_one_diff(p, q, i0, n - 1);
    }
}

pub proof fn lemma_count_where_zero(p: spec_fn(int) -> bool, n: int)
    requires
        forall|i: int| 0 <= i < n ==> !#[trigger] p(i),
    ensures
        count_where(p, n) == 0,
    decreases n,
{
    if n > 0 {
        lemma_count_where_zero(p, n - 1);
    }
}

/// A duplicate-free list is as long as its membership predicate counts.
pub proof fn lemma_count_list_eq_where(l: Seq<usize>, n: int)
    requires
        l.no_duplicates(),
        forall|k: int| 0 <= k < l.len() ==> (#[trigger] l[k]) < n,
        0 <= n <= usize::MAX,
    ensures
        l.len() == count_where(|i: int| l.contains(i as usize), n),
    decreases l.len(),
{
    if l.len() == 0 {
        lemma_count_where_zero(|i: int| l.contains(i as usize), n);
    } else {
        let tail = l.drop_last();
        let x = l.last();
        assert(forall|k: int| 0 <= k < tail.len() ==> tail[k] == l[k]);
        assert(tail.no_duplicates());
        assert(!tail.contains(x)) by {
            if tail.contains(x) {
                let k = choose|k: int| 0 <= k < tail.len() && tail[k] == x;
                assert(l[k] == l[l.len() - 1]);
            }
        }
        lemma_count_list_eq_where(tail, n);
        let pl = |i: int| l.contains(i as usize);
        let pt = |i: int| tail.contains(i as usize);
        assert(pl(x as int)) by {
            assert(l[l.len() - 1] == x);
        }
        assert forall|i: int| 0 <= i < n && i != x as int implies #[trigger] pl(i) == pt(i) by {
            if pl(i) {
                let k = choose|k: int| 0 <= k < l.len() && l[k] == i as usize;
                assert(k < l.len() - 1);
                assert(tail[k] == i as usize);
            }
            if pt(i) {
                let k = choose|k: int| 0 <= k < tail.len() && tail[k] == i as usize;
                assert(l[k] == i as usize);
            }
        }
        lemma_count_where_one_diff(pl, pt, x as int, n);
    }
}

/// A list whose free-block sum reaches its greatest possible value has
/// every listed page entirely free.
pub proof fn lemma_sum_free_saturated(bfs: Seq<u64>, l: Seq<usize>)
    requires
        sum_free(bfs, l) == 63 * l.len(),
    ensures
        forall|k: int| 0 <= k < l.len() ==> free_user(bfs[(#[trigger] l[k]) as int]) == 63,
    decreases l.len(),
{
    if l.len() > 0 {
        let tail = l.drop_last();
        assert(forall|k: int| 0 <= k < tail.len() ==> tail[k] == l[k]);
        assert(l.last() == l[l.len() - 1]);
        lemma_sum_free_bounds(bfs, tail);
        lemma_count_set_bounds(bfs[l.last() as int], 63);
        lemma_sum_free_saturated(bfs, tail);
    }
}

/// What pushing an element adds to a list's membership.
pub proof fn lemma_push_contains(l: Seq<usize>, e: usize, x: usize)
    ensures
        l.push(e).contains(x) == (l.contains(x) || x == e),
{
    if l.contains(x) {
        let q = choose|q: int| 0 <= q < l.len() && l[q] == x;
        assert(l.push(e)[q] == x);
    }
    if x == e {
        assert(l.push(e)[l.len() as int] == x);
    }
    if l.push(e).contains(x) {
        let q = choose|q: int| 0 <= q < l.push(e).len() && l.push(e)[q] == x;
        if q < l.len() {
            assert(l[q] == x);
        }
    }
}

/// What one more step of a prefix adds to its membership.
pub proof fn lemma_take_push_contains(l: Seq<usize>, k: int, x: usize)
    requires
        0 <= k < l.len(),
    ensures
        l.take(k + 1).contains(x) == (l.take(k).contains(x) || l[k] == x),
{
    if l.take(k).contains(x) {
        let q = choose|q: int| 0 <= q < k && (#[trigger] l.take(k)[q]) == x;
        assert(l.take(k + 1)[q] == x);
    }
    if l[k] == x {
        assert(l.take(k + 1)[k] == x);
    }
    if l.take(k + 1).contains(x) {
        let q = choose|q: int| 0 <= q < k + 1 && (#[trigger] l.take(k + 1)[q]) == x;
        if q < k {
            assert(l.take(k)[q] == x);
        }
    }
}

/// A duplicate-free list of page numbers below `n` has at most `n` entries.
pub proof fn lemma_nodup_len_bound(l: Seq<usize>, n: int)
    requires
        l.no_duplicates(),
        0 <= n,
        forall|k: int| 0 <= k < l.len() ==> (#[trigger] l[k]) < n,
    ensures
        l.len() <= n,
{
    let f = |x: usize| x as int;
    let li = l.map_values(f);
    assert(vstd::relations::injective(f));
    l.lemma_no_duplicates_injective(f);
    li.unique_seq_to_set();
    assert(li.to_set().subset_of(vstd::set_lib::set_int_range(0, n))) by {
        assert forall|x: int| li.to_set().contains(x) implies vstd::set_lib::set_int_range(
            0,
            n,
        ).contains(x) by {
            assert(li.contains(x));
            let k = choose|k: int| 0 <= k < li.len() && li[k] == x;
            assert(l[k] < n);
        }
    }
    vstd::set_lib::lemma_int_range(0, n);
    vstd::set_lib::lemma_len_subset(li.to_set(), vstd::set_lib::set_int_range(0, n));
}

} // verus!
