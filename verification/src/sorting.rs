//! Sorting algorithms.
//!
//! Every routine sorts a vector of machine integers in place: it leaves the
//! elements in ascending order and keeps the multiset of elements unchanged.

use vstd::prelude::*;

pub mod bubble_sort;
pub mod heapsort;
pub mod insertion_sort;
pub mod mergesort;
pub mod quicksort;
pub mod selection_sort;
pub mod shellsort;

pub use bubble_sort::{bubble_sort, bubble_sort_optimized};
pub use heapsort::heapsort;
pub use insertion_sort::{binary_insertion_sort, insertion_sort};
pub use mergesort::{mergesort, mergesort_bottom_up, mergesort_recursive};
pub use quicksort::{
    quicksort, quicksort_3way, quicksort_hoare, quicksort_lomuto, quicksort_manual_tco,
    quicksort_optimized,
};
pub use selection_sort::selection_sort;
pub use shellsort::shellsort;

verus! {

/// The elements of `s` are in ascending order.
pub open spec fn sorted(s: Seq<i32>) -> bool {
    forall|i: int, j: int| 0 <= i <= j < s.len() ==> s[i] <= s[j]
}

/// Exchanges two elements of a vector.
pub fn swap_at(arr: &mut Vec<i32>, i: usize, j: usize)
    requires
        i < old(arr)@.len(),
        j < old(arr)@.len(),
    ensures
        final(arr)@ == old(arr)@.update(i as int, old(arr)@[j as int]).update(
            j as int,
            old(arr)@[i as int],
        ),
        final(arr)@.to_multiset() == old(arr)@.to_multiset(),
        final(arr)@.len() == old(arr)@.len(),
{
    let x = arr[i];
    let y = arr[j];
    arr[i] = y;
    arr[j] = x;
    proof {
        lemma_swap_multiset(old(arr)@, i as int, j as int);
    }
}

/// Exchanging two elements leaves the multiset of elements unchanged.
pub proof fn lemma_swap_multiset(s: Seq<i32>, i: int, j: int)
    requires
        0 <= i < s.len(),
        0 <= j < s.len(),
    ensures
        s.update(i, s[j]).update(j, s[i]).to_multiset() == s.to_multiset(),
{
    broadcast use vstd::seq_lib::group_to_multiset_ensures;

    if i == j {
        assert(s.update(i, s[j]).update(j, s[i]) =~= s);
    } else {
        let s1 = s.update(i, s[j]);
        let s2 = s1.update(j, s[i]);
        assert(s1.to_multiset() == s.to_multiset().insert(s[j]).remove(s[i]));
        assert(s1[j] == s[j]);
        assert(s2.to_multiset() == s1.to_multiset().insert(s[i]).remove(s[j]));
        assert(s2.to_multiset() =~= s.to_multiset()) by {
            assert forall|x: i32| #[trigger]
                s2.to_multiset().count(x) == s.to_multiset().count(x) by {
                assert(s.to_multiset().count(s[i]) > 0);
                assert(s.to_multiset().insert(s[j]).count(s[i]) > 0);
            }
        }
    }
}

/// If two sequences hold the same multiset and every element of the first is
/// below a bound, so is every element of the second.
pub proof fn lemma_multiset_all_lt(s1: Seq<i32>, s2: Seq<i32>, c: i32)
    requires
        s1.to_multiset() == s2.to_multiset(),
        forall|k: int| 0 <= k < s1.len() ==> s1[k] < c,
    ensures
        forall|k: int| 0 <= k < s2.len() ==> s2[k] < c,
{
    broadcast use vstd::seq_lib::group_to_multiset_ensures;

    assert forall|k: int| 0 <= k < s2.len() implies s2[k] < c by {
        assert(s2.to_multiset().count(s2[k]) > 0);
        assert(s1.contains(s2[k]));
        let m = choose|m: int| 0 <= m < s1.len() && s1[m] == s2[k];
        assert(s1[m] < c);
    }
}

/// If two sequences hold the same multiset and every element of the first is
/// at or above a bound, so is every element of the second.
pub proof fn lemma_multiset_all_ge(s1: Seq<i32>, s2: Seq<i32>, c: i32)
    requires
        s1.to_multiset() == s2.to_multiset(),
        forall|k: int| 0 <= k < s1.len() ==> s1[k] >= c,
    ensures
        forall|k: int| 0 <= k < s2.len() ==> s2[k] >= c,
{
    broadcast use vstd::seq_lib::group_to_multiset_ensures;

    assert forall|k: int| 0 <= k < s2.len() implies s2[k] >= c by {
        assert(s2.to_multiset().count(s2[k]) > 0);
        assert(s1.contains(s2[k]));
        let m = choose|m: int| 0 <= m < s1.len() && s1[m] == s2[k];
        assert(s1[m] >= c);
    }
}

/// The elements of positions `[lo, hi)` are in ascending order.
pub open spec fn sorted_between(s: Seq<i32>, lo: int, hi: int) -> bool {
    forall|a: int, b: int| lo <= a <= b < hi ==> s[a] <= s[b]
}

/// The two sequences agree everywhere outside `[lo, hi)`.
pub open spec fn same_outside(s1: Seq<i32>, s2: Seq<i32>, lo: int, hi: int) -> bool {
    s1.len() == s2.len() && forall|k: int|
        0 <= k < s1.len() && !(lo <= k < hi) ==> s1[k] == s2[k]
}

/// Two equal-multiset sequences that agree outside a window also hold equal
/// multisets inside the window.
pub proof fn lemma_multiset_outside_eq(s1: Seq<i32>, s2: Seq<i32>, lo: int, hi: int)
    requires
        s1.len() == s2.len(),
        0 <= lo <= hi <= s1.len(),
        s1.to_multiset() == s2.to_multiset(),
        same_outside(s1, s2, lo, hi),
    ensures
        s1.subrange(lo, hi).to_multiset() == s2.subrange(lo, hi).to_multiset(),
{
    broadcast use vstd::seq_lib::group_to_multiset_ensures;

    let pre1 = s1.subrange(0, lo);
    let mid1 = s1.subrange(lo, hi);
    let suf1 = s1.subrange(hi, s1.len() as int);
    let pre2 = s2.subrange(0, lo);
    let mid2 = s2.subrange(lo, hi);
    let suf2 = s2.subrange(hi, s2.len() as int);
    assert(pre1 =~= pre2);
    assert(suf1 =~= suf2);
    assert(s1 =~= (pre1 + mid1) + suf1);
    assert(s2 =~= (pre2 + mid2) + suf2);
    vstd::seq_lib::lemma_multiset_commutative(pre1 + mid1, suf1);
    vstd::seq_lib::lemma_multiset_commutative(pre1, mid1);
    vstd::seq_lib::lemma_multiset_commutative(pre2 + mid2, suf2);
    vstd::seq_lib::lemma_multiset_commutative(pre2, mid2);
    assert forall|x: i32| #[trigger]
        mid1.to_multiset().count(x) == mid2.to_multiset().count(x) by {
        assert(s1.to_multiset().count(x) == pre1.to_multiset().count(x) + mid1.to_multiset().count(
            x,
        ) + suf1.to_multiset().count(x));
        assert(s2.to_multiset().count(x) == pre2.to_multiset().count(x) + mid2.to_multiset().count(
            x,
        ) + suf2.to_multiset().count(x));
    }
    assert(mid1.to_multiset() =~= mid2.to_multiset());
}

/// If two sequences hold the same multiset and every element of the first is
/// at or below a bound, so is every element of the second.
pub proof fn lemma_multiset_all_le(s1: Seq<i32>, s2: Seq<i32>, c: i32)
    requires
        s1.to_multiset() == s2.to_multiset(),
        forall|k: int| 0 <= k < s1.len() ==> s1[k] <= c,
    ensures
        forall|k: int| 0 <= k < s2.len() ==> s2[k] <= c,
{
    broadcast use vstd::seq_lib::group_to_multiset_ensures;

    assert forall|k: int| 0 <= k < s2.len() implies s2[k] <= c by {
        assert(s2.to_multiset().count(s2[k]) > 0);
        assert(s1.contains(s2[k]));
        let m = choose|m: int| 0 <= m < s1.len() && s1[m] == s2[k];
        assert(s1[m] <= c);
    }
}

/// Sequences holding the same multiset have the same length.
pub proof fn lemma_multiset_len(s1: Seq<i32>, s2: Seq<i32>)
    requires
        s1.to_multiset() == s2.to_multiset(),
    ensures
        s1.len() == s2.len(),
{
    broadcast use vstd::seq_lib::group_to_multiset_ensures;

    assert(s1.to_multiset().len() == s1.len());
    assert(s2.to_multiset().len() == s2.len());
}

} // verus!
