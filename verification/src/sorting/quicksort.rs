//! Quicksort with the Lomuto partition scheme.

use crate::sorting::{
    lemma_multiset_all_ge, lemma_multiset_all_lt, lemma_multiset_len, lemma_multiset_outside_eq,
    same_outside, sorted, sorted_between, swap_at,
};
use vstd::prelude::*;

verus! {

/// Lomuto partition: the last element of the window becomes the pivot and is
/// swapped to the boundary between the smaller and not-smaller elements.
/// Returns the pivot's final index.
fn partition(arr: &mut Vec<i32>, lo: isize, hi: isize) -> (p: isize)
    requires
        0 <= lo <= hi < old(arr)@.len(),
    ensures
        lo <= p <= hi,
        final(arr)@.len() == old(arr)@.len(),
        final(arr)@.to_multiset() == old(arr)@.to_multiset(),
        same_outside(old(arr)@, final(arr)@, lo as int, hi + 1),
        forall|k: int| lo <= k < p ==> final(arr)@[k] < final(arr)@[p as int],
        forall|k: int| p < k <= hi ==> final(arr)@[k] >= final(arr)@[p as int],
    {
        let pivot = arr[hi as usize];
        let mut i = lo;
        let mut j = lo;
        while j < hi
            invariant
                0 <= lo,
                lo <= i <= j <= hi < arr@.len(),
                arr@.len() == old(arr)@.len(),
                arr@.to_multiset() == old(arr)@.to_multiset(),
                same_outside(old(arr)@, arr@, lo as int, hi + 1),
                arr@[hi as int] == pivot,
                forall|k: int| lo <= k < i ==> arr@[k] < pivot,
                forall|k: int| i <= k < j ==> arr@[k] >= pivot,
            decreases hi - j,
        {
            if arr[j as usize] < pivot {
                swap_at(arr, i as usize, j as usize);
                i += 1;
            }
            j += 1;
        }
        swap_at(arr, i as usize, hi as usize);
        i
    }

/// Once both sides of a pivot are sorted permutations of what the partition
/// left there, the whole window is sorted.
proof fn lemma_combine(sp: Seq<i32>, sf: Seq<i32>, lo: int, p: int, hi: int)
    requires
        sp.len() == sf.len(),
        0 <= lo <= p <= hi < sp.len(),
        sf[p] == sp[p],
        forall|k: int| lo <= k < p ==> sp[k] < sp[p],
        forall|k: int| p < k <= hi ==> sp[k] >= sp[p],
        sp.subrange(lo, p).to_multiset() == sf.subrange(lo, p).to_multiset(),
        sp.subrange(p + 1, hi + 1).to_multiset() == sf.subrange(p + 1, hi + 1).to_multiset(),
        sorted_between(sf, lo, p),
        sorted_between(sf, p + 1, hi + 1),
    ensures
        sorted_between(sf, lo, hi + 1),
{
    let piv = sp[p];
    assert(forall|m: int|
        0 <= m < p - lo ==> #[trigger] sp.subrange(lo, p)[m] == sp[lo + m] && sp.subrange(lo, p)[m]
            < piv);
    lemma_multiset_all_lt(sp.subrange(lo, p), sf.subrange(lo, p), piv);
    assert(forall|m: int|
        0 <= m < hi - p ==> #[trigger] sp.subrange(p + 1, hi + 1)[m] == sp[p + 1 + m]
            && sp.subrange(p + 1, hi + 1)[m] >= piv);
    lemma_multiset_all_ge(sp.subrange(p + 1, hi + 1), sf.subrange(p + 1, hi + 1), piv);
    assert(forall|k: int| lo <= k < p ==> #[trigger] sf[k] == sf.subrange(lo, p)[k - lo]);
    assert(forall|k: int|
        p < k <= hi ==> #[trigger] sf[k] == sf.subrange(p + 1, hi + 1)[k - (p + 1)]);
    assert forall|a: int, b: int| lo <= a <= b < hi + 1 implies sf[a] <= sf[b] by {
        if a < p && b == p {
            assert(sf[a] < piv);
        } else if a < p && b > p {
            assert(sf[a] < piv && sf[b] >= piv);
        } else if a == p && b > p {
            assert(sf[b] >= piv);
        }
    }
}

/// Sorts the window `[lo, hi]` of the vector, touching nothing outside it.
fn quicksort_helper(arr: &mut Vec<i32>, lo: isize, hi: isize)
    requires
        0 <= lo,
        -1 <= hi < old(arr)@.len(),
        old(arr)@.len() <= isize::MAX,
    ensures
        final(arr)@.len() == old(arr)@.len(),
        final(arr)@.to_multiset() == old(arr)@.to_multiset(),
        same_outside(old(arr)@, final(arr)@, lo as int, hi + 1),
        sorted_between(final(arr)@, lo as int, hi + 1),
    decreases hi + 1 - lo,
{
    if lo <= hi {
        let ghost s0 = arr@;
        let p = partition(arr, lo, hi);
        let ghost s1 = arr@;
        quicksort_helper(arr, lo, p - 1);
        let ghost s2 = arr@;
        quicksort_helper(arr, p + 1, hi);
        let ghost s3 = arr@;
        proof {
            lemma_multiset_outside_eq(s1, s2, lo as int, p as int);
            assert(s2.subrange(p + 1, hi + 1) =~= s1.subrange(p + 1, hi + 1));
            assert(s3.subrange(lo as int, p as int) =~= s2.subrange(lo as int, p as int));
            lemma_multiset_outside_eq(s2, s3, p + 1, hi + 1);
            assert(s3[p as int] == s1[p as int]);
            assert(sorted_between(s3, lo as int, p as int));
            lemma_combine(s1, s3, lo as int, p as int, hi as int);
        }
    }
}

/// Quicksort with the Lomuto partition scheme.
pub fn quicksort(arr: &mut Vec<i32>)
    requires
        old(arr)@.len() <= isize::MAX,
    ensures
        sorted(final(arr)@),
        final(arr)@.to_multiset() == old(arr)@.to_multiset(),
{
    let hi = arr.len() as isize - 1;
    quicksort_helper(arr, 0, hi);
}

/// Quicksort that recurses into the smaller side first, bounding the
/// recursion depth.
pub fn quicksort_optimized(arr: &mut Vec<i32>)
    requires
        old(arr)@.len() <= isize::MAX,
    ensures
        sorted(final(arr)@),
        final(arr)@.to_multiset() == old(arr)@.to_multiset(),
{
    let hi = arr.len() as isize - 1;
    quicksort_helper_optimized(arr, 0, hi);
}

/// Like [`quicksort_helper`], but recursing into the smaller side first.
fn quicksort_helper_optimized(arr: &mut Vec<i32>, lo: isize, hi: isize)
    requires
        0 <= lo,
        -1 <= hi < old(arr)@.len(),
        old(arr)@.len() <= isize::MAX,
    ensures
        final(arr)@.len() == old(arr)@.len(),
        final(arr)@.to_multiset() == old(arr)@.to_multiset(),
        same_outside(old(arr)@, final(arr)@, lo as int, hi + 1),
        sorted_between(final(arr)@, lo as int, hi + 1),
    decreases hi + 1 - lo,
{
    if lo <= hi {
        let p = partition(arr, lo, hi);
        let ghost s1 = arr@;
        if p - lo < hi - p {
            quicksort_helper_optimized(arr, lo, p - 1);
            let ghost s2 = arr@;
            quicksort_helper_optimized(arr, p + 1, hi);
            let ghost s3 = arr@;
            proof {
                lemma_multiset_outside_eq(s1, s2, lo as int, p as int);
                assert(s2.subrange(p + 1, hi + 1) =~= s1.subrange(p + 1, hi + 1));
                assert(s3.subrange(lo as int, p as int) =~= s2.subrange(lo as int, p as int));
                lemma_multiset_outside_eq(s2, s3, p + 1, hi + 1);
                assert(s3[p as int] == s1[p as int]);
                lemma_combine(s1, s3, lo as int, p as int, hi as int);
            }
        } else {
            quicksort_helper_optimized(arr, p + 1, hi);
            let ghost s2 = arr@;
            quicksort_helper_optimized(arr, lo, p - 1);
            let ghost s3 = arr@;
            proof {
                lemma_multiset_outside_eq(s1, s2, p + 1, hi + 1);
                assert(s2.subrange(lo as int, p as int) =~= s1.subrange(lo as int, p as int));
                assert(s3.subrange(p + 1, hi + 1) =~= s2.subrange(p + 1, hi + 1));
                lemma_multiset_outside_eq(s2, s3, lo as int, p as int);
                assert(s3[p as int] == s1[p as int]);
                lemma_combine(s1, s3, lo as int, p as int, hi as int);
            }
        }
    }
}

/// The positions left of `cut` are in their final place: each sorts no later
/// than everything after it, within the window `[lo, hi]`.
pub open spec fn left_done(s: Seq<i32>, lo: int, cut: int, hi: int) -> bool {
    forall|a: int, b: int| lo <= a < cut && a < b <= hi ==> s[a] <= s[b]
}

/// The positions right of `cut` are in their final place: each sorts no
/// earlier than everything before it, within the window `[lo, hi]`.
pub open spec fn right_done(s: Seq<i32>, lo: int, cut: int, hi: int) -> bool {
    forall|a: int, b: int| cut < b <= hi && lo <= a < b ==> s[a] <= s[b]
}

/// A settled left part stays settled when a window at or right of the cut is
/// permuted.
proof fn lemma_left_done_stable(s1: Seq<i32>, s2: Seq<i32>, lo: int, cut: int, hi: int, wlo: int, whi: int)
    requires
        s1.len() == s2.len(),
        0 <= lo,
        hi < s1.len(),
        lo <= cut,
        cut <= wlo <= whi <= hi + 1,
        s1.to_multiset() == s2.to_multiset(),
        same_outside(s1, s2, wlo, whi),
        left_done(s1, lo, cut, hi),
    ensures
        left_done(s2, lo, cut, hi),
{
    if wlo < whi {
        lemma_multiset_outside_eq(s1, s2, wlo, whi);
    }
    assert forall|a: int, b: int| lo <= a < cut && a < b <= hi implies s2[a] <= s2[b] by {
        assert(s2[a] == s1[a]);
        if wlo <= b < whi {
            assert(forall|m: int|
                0 <= m < whi - wlo ==> (#[trigger] s1.subrange(wlo, whi)[m]) == s1[wlo + m]
                    && s1[wlo + m] >= s1[a]);
            lemma_multiset_all_ge(s1.subrange(wlo, whi), s2.subrange(wlo, whi), s1[a]);
            assert(s2.subrange(wlo, whi)[b - wlo] == s2[b]);
        } else {
            assert(s2[b] == s1[b]);
        }
    }
}

/// A settled right part stays settled when a window at or left of the cut is
/// permuted.
proof fn lemma_right_done_stable(s1: Seq<i32>, s2: Seq<i32>, lo: int, cut: int, hi: int, wlo: int, whi: int)
    requires
        s1.len() == s2.len(),
        0 <= lo,
        hi < s1.len(),
        lo <= wlo <= whi <= cut + 1,
        cut <= hi,
        s1.to_multiset() == s2.to_multiset(),
        same_outside(s1, s2, wlo, whi),
        right_done(s1, lo, cut, hi),
    ensures
        right_done(s2, lo, cut, hi),
{
    if wlo < whi {
        lemma_multiset_outside_eq(s1, s2, wlo, whi);
    }
    assert forall|a: int, b: int| cut < b <= hi && lo <= a < b implies s2[a] <= s2[b] by {
        assert(s2[b] == s1[b]);
        if wlo <= a < whi {
            assert(forall|m: int|
                0 <= m < whi - wlo ==> (#[trigger] s1.subrange(wlo, whi)[m]) == s1[wlo + m]
                    && s1[wlo + m] <= s1[b]);
            crate::sorting::lemma_multiset_all_le(
                s1.subrange(wlo, whi),
                s2.subrange(wlo, whi),
                s1[b],
            );
            assert(s2.subrange(wlo, whi)[a - wlo] == s2[a]);
        } else {
            assert(s2[a] == s1[a]);
        }
    }
}

/// Quicksort that sorts the smaller side by recursion and keeps narrowing
/// the window for the larger side in a loop, bounding the stack depth by
/// hand.
pub fn quicksort_manual_tco(arr: &mut Vec<i32>)
    requires
        old(arr)@.len() <= isize::MAX,
    ensures
        sorted(final(arr)@),
        final(arr)@.to_multiset() == old(arr)@.to_multiset(),
{
    let hi = arr.len() as isize - 1;
    quicksort_helper_manual_tco(arr, 0, hi);
}

/// Sorts the window `[lo, hi]`: partitions, recurses into the smaller side,
/// and continues with the larger side in place.
fn quicksort_helper_manual_tco(arr: &mut Vec<i32>, lo: isize, hi: isize)
    requires
        0 <= lo,
        lo <= hi + 1,
        -1 <= hi < old(arr)@.len(),
        old(arr)@.len() <= isize::MAX,
    ensures
        final(arr)@.len() == old(arr)@.len(),
        final(arr)@.to_multiset() == old(arr)@.to_multiset(),
        same_outside(old(arr)@, final(arr)@, lo as int, hi + 1),
        sorted_between(final(arr)@, lo as int, hi + 1),
    decreases hi + 1 - lo,
{
    let mut lo_c = lo;
    let mut hi_c = hi;
    while lo_c < hi_c
        invariant
            arr@.len() == old(arr)@.len(),
            old(arr)@.len() <= isize::MAX,
            0 <= lo,
            -1 <= hi < old(arr)@.len(),
            lo <= lo_c,
            0 <= lo_c,
            hi_c <= hi,
            -1 <= hi_c,
            lo_c <= hi_c + 1,
            arr@.to_multiset() == old(arr)@.to_multiset(),
            same_outside(old(arr)@, arr@, lo as int, hi + 1),
            left_done(arr@, lo as int, lo_c as int, hi as int),
            right_done(arr@, lo as int, hi_c as int, hi as int),
        decreases hi_c - lo_c,
    {
        let ghost s0 = arr@;
        let p = partition(arr, lo_c, hi_c);
        let ghost s1 = arr@;
        proof {
            lemma_left_done_stable(
                s0,
                s1,
                lo as int,
                lo_c as int,
                hi as int,
                lo_c as int,
                hi_c + 1,
            );
            lemma_right_done_stable(
                s0,
                s1,
                lo as int,
                hi_c as int,
                hi as int,
                lo_c as int,
                hi_c + 1,
            );
        }
        if p - lo_c < hi_c - p {
            quicksort_helper_manual_tco(arr, lo_c, p - 1);
            let ghost s2 = arr@;
            proof {
                lemma_left_done_stable(
                    s1,
                    s2,
                    lo as int,
                    lo_c as int,
                    hi as int,
                    lo_c as int,
                    p as int,
                );
                lemma_right_done_stable(
                    s1,
                    s2,
                    lo as int,
                    hi_c as int,
                    hi as int,
                    lo_c as int,
                    p as int,
                );
                // the values below the pivot remain below it
                if lo_c < p {
                    lemma_multiset_outside_eq(s1, s2, lo_c as int, p as int);
                    assert(forall|m: int|
                        0 <= m < p - lo_c ==> (#[trigger] s1.subrange(lo_c as int, p as int)[m])
                            == s1[lo_c + m] && s1[lo_c + m] < s1[p as int]);
                    lemma_multiset_all_lt(
                        s1.subrange(lo_c as int, p as int),
                        s2.subrange(lo_c as int, p as int),
                        s1[p as int],
                    );
                }
                assert forall|a: int, b: int|
                    lo <= a < p + 1 && a < b <= hi implies s2[a] <= s2[b] by {
                    if a < lo_c {
                        assert(left_done(s2, lo as int, lo_c as int, hi as int));
                    } else if a < p {
                        assert(s2.subrange(lo_c as int, p as int)[a - lo_c] == s2[a]);
                        assert(s2[a] < s1[p as int]);
                        if b < p {
                            assert(sorted_between(s2, lo_c as int, p as int));
                        } else if b == p {
                            assert(s2[b] == s1[p as int]);
                        } else if b <= hi_c {
                            assert(s2[b] == s1[b]);
                            assert(s1[b] >= s1[p as int]);
                        } else {
                            assert(right_done(s2, lo as int, hi_c as int, hi as int));
                        }
                    } else {
                        assert(s2[a] == s1[p as int]);
                        if b <= hi_c {
                            assert(s2[b] == s1[b]);
                            assert(s1[b] >= s1[p as int]);
                        } else {
                            assert(right_done(s2, lo as int, hi_c as int, hi as int));
                        }
                    }
                }
            }
            lo_c = p + 1;
        } else {
            quicksort_helper_manual_tco(arr, p + 1, hi_c);
            let ghost s2 = arr@;
            proof {
                lemma_left_done_stable(
                    s1,
                    s2,
                    lo as int,
                    lo_c as int,
                    hi as int,
                    p + 1,
                    hi_c + 1,
                );
                lemma_right_done_stable(
                    s1,
                    s2,
                    lo as int,
                    hi_c as int,
                    hi as int,
                    p + 1,
                    hi_c + 1,
                );
                // the values above the pivot remain at or above it
                if p < hi_c {
                    lemma_multiset_outside_eq(s1, s2, p + 1, hi_c + 1);
                    assert(forall|m: int|
                        0 <= m < hi_c - p ==> (#[trigger] s1.subrange(p + 1, hi_c + 1)[m]) == s1[p
                            + 1 + m] && s1[p + 1 + m] >= s1[p as int]);
                    lemma_multiset_all_ge(
                        s1.subrange(p + 1, hi_c + 1),
                        s2.subrange(p + 1, hi_c + 1),
                        s1[p as int],
                    );
                }
                assert forall|a: int, b: int|
                    p - 1 < b <= hi && lo <= a < b implies s2[a] <= s2[b] by {
                    if b > hi_c {
                        assert(right_done(s2, lo as int, hi_c as int, hi as int));
                    } else if b > p {
                        assert(s2.subrange(p + 1, hi_c + 1)[b - (p + 1)] == s2[b]);
                        assert(s2[b] >= s1[p as int]);
                        if a > p {
                            assert(sorted_between(s2, p + 1, hi_c + 1));
                        } else if a == p {
                            assert(s2[a] == s1[p as int]);
                        } else if a >= lo_c {
                            assert(s2[a] == s1[a]);
                            assert(s1[a] < s1[p as int]);
                        } else {
                            assert(left_done(s2, lo as int, lo_c as int, hi as int));
                            assert(s2[a] <= s2[b]);
                        }
                    } else {
                        assert(s2[b] == s1[p as int]);
                        if a >= lo_c {
                            assert(s2[a] == s1[a]);
                            assert(s1[a] < s1[p as int]);
                        } else {
                            assert(left_done(s2, lo as int, lo_c as int, hi as int));
                        }
                    }
                }
            }
            hi_c = p - 1;
        }
    }
    proof {
        assert forall|a: int, b: int| lo <= a <= b < hi + 1 implies arr@[a] <= arr@[b] by {
            if a < b {
                if a < lo_c {
                    assert(left_done(arr@, lo as int, lo_c as int, hi as int));
                } else if b > hi_c {
                    assert(right_done(arr@, lo as int, hi_c as int, hi as int));
                } else {
                    assert(false);
                }
            }
        }
    }
}

/// Three-way partition: splits the window into elements below, equal to, and
/// above the pivot, and returns the bounds of the equal run.
fn partition_3way(arr: &mut Vec<i32>, lo: isize, hi: isize) -> (r: (isize, isize))
    requires
        0 <= lo <= hi < old(arr)@.len(),
        old(arr)@.len() <= isize::MAX,
    ensures
        lo <= r.0 <= r.1 <= hi,
        final(arr)@.len() == old(arr)@.len(),
        final(arr)@.to_multiset() == old(arr)@.to_multiset(),
        same_outside(old(arr)@, final(arr)@, lo as int, hi + 1),
        forall|m: int| lo <= m < r.0 ==> (#[trigger] final(arr)@[m]) < final(arr)@[r.0 as int],
        forall|m: int| r.0 <= m <= r.1 ==> (#[trigger] final(arr)@[m]) == final(arr)@[r.0 as int],
        forall|m: int| r.1 < m <= hi ==> (#[trigger] final(arr)@[m]) > final(arr)@[r.0 as int],
{
    let pivot = arr[hi as usize];
    let mut i = lo;
    let mut j = lo;
    let mut k = hi;

    while j <= k
        invariant
            0 <= lo <= i <= j,
            j <= k + 1,
            k <= hi < arr@.len(),
            arr@.len() == old(arr)@.len(),
            arr@.len() <= isize::MAX,
            arr@.to_multiset() == old(arr)@.to_multiset(),
            same_outside(old(arr)@, arr@, lo as int, hi + 1),
            forall|m: int| lo <= m < i ==> arr@[m] < pivot,
            forall|m: int| i <= m < j ==> arr@[m] == pivot,
            forall|m: int| k < m <= hi ==> arr@[m] > pivot,
            exists|m: int| i <= m <= k && arr@[m] == pivot,
        decreases k + 1 - j,
    {
        let ghost pre = arr@;
        if arr[j as usize] < pivot {
            swap_at(arr, i as usize, j as usize);
            proof {
                let m0 = choose|m: int| i <= m <= k && pre[m] == pivot;
                if m0 == i {
                    assert(i < j);
                    assert(arr@[j as int] == pivot);
                    assert(i + 1 <= j <= k && arr@[j as int] == pivot);
                } else {
                    assert(arr@[m0] == pivot);
                    assert(i + 1 <= m0 <= k && arr@[m0] == pivot);
                }
            }
            i += 1;
            j += 1;
        } else if arr[j as usize] > pivot {
            swap_at(arr, k as usize, j as usize);
            proof {
                let m0 = choose|m: int| i <= m <= k && pre[m] == pivot;
                assert(m0 != j);
                if m0 == k {
                    assert(arr@[j as int] == pivot);
                    assert(j < k);
                    assert(i <= j <= k - 1 && arr@[j as int] == pivot);
                } else {
                    assert(arr@[m0] == pivot);
                    assert(i <= m0 <= k - 1 && arr@[m0] == pivot);
                }
            }
            k -= 1;
        } else {
            j += 1;
        }
    }
    proof {
        let m0 = choose|m: int| i <= m <= k && arr@[m] == pivot;
        assert(arr@[i as int] == pivot);
    }
    (i, k)
}

/// Once the sides of an equal run are sorted permutations of what the
/// partition left there, the whole window is sorted.
proof fn lemma_combine_3way(sp: Seq<i32>, sf: Seq<i32>, lo: int, i: int, k: int, hi: int)
    requires
        sp.len() == sf.len(),
        0 <= lo <= i <= k <= hi < sp.len(),
        forall|m: int| i <= m <= k ==> sf[m] == sp[i] && sp[m] == sp[i],
        forall|m: int| lo <= m < i ==> sp[m] < sp[i],
        forall|m: int| k < m <= hi ==> sp[m] > sp[i],
        sp.subrange(lo, i).to_multiset() == sf.subrange(lo, i).to_multiset(),
        sp.subrange(k + 1, hi + 1).to_multiset() == sf.subrange(k + 1, hi + 1).to_multiset(),
        sorted_between(sf, lo, i),
        sorted_between(sf, k + 1, hi + 1),
    ensures
        sorted_between(sf, lo, hi + 1),
{
    let piv = sp[i];
    assert(forall|m: int|
        0 <= m < i - lo ==> #[trigger] sp.subrange(lo, i)[m] == sp[lo + m] && sp.subrange(lo, i)[m]
            < piv);
    lemma_multiset_all_lt(sp.subrange(lo, i), sf.subrange(lo, i), piv);
    assert(forall|m: int|
        0 <= m < hi - k ==> #[trigger] sp.subrange(k + 1, hi + 1)[m] == sp[k + 1 + m]
            && sp.subrange(k + 1, hi + 1)[m] > piv);
    assert forall|m: int| 0 <= m < hi - k implies (#[trigger] sp.subrange(k + 1, hi + 1)[m])
        >= piv by {
        assert(sp.subrange(k + 1, hi + 1)[m] > piv);
    }
    lemma_multiset_all_ge(sp.subrange(k + 1, hi + 1), sf.subrange(k + 1, hi + 1), piv);
    assert(forall|m: int| lo <= m < i ==> #[trigger] sf[m] == sf.subrange(lo, i)[m - lo]);
    assert(forall|m: int|
        k < m <= hi ==> #[trigger] sf[m] == sf.subrange(k + 1, hi + 1)[m - (k + 1)]);
    assert forall|a: int, b: int| lo <= a <= b < hi + 1 implies sf[a] <= sf[b] by {
        if a < i && i <= b {
            assert(sf[a] < piv);
            assert(sf[b] >= piv);
        } else if i <= a && a <= k && b > k {
            assert(sf[a] == piv);
            assert(sf[b] >= piv);
        }
    }
}

/// Quicksort with the three-way partition scheme, skipping the whole run of
/// elements equal to each pivot.
pub fn quicksort_3way(arr: &mut Vec<i32>)
    requires
        old(arr)@.len() <= isize::MAX,
    ensures
        sorted(final(arr)@),
        final(arr)@.to_multiset() == old(arr)@.to_multiset(),
{
    let hi = arr.len() as isize - 1;
    quicksort_helper_3way(arr, 0, hi);
}

/// Sorts the window `[lo, hi]` by three-way partitioning.
fn quicksort_helper_3way(arr: &mut Vec<i32>, lo: isize, hi: isize)
    requires
        0 <= lo,
        -1 <= hi < old(arr)@.len(),
        old(arr)@.len() <= isize::MAX,
    ensures
        final(arr)@.len() == old(arr)@.len(),
        final(arr)@.to_multiset() == old(arr)@.to_multiset(),
        same_outside(old(arr)@, final(arr)@, lo as int, hi + 1),
        sorted_between(final(arr)@, lo as int, hi + 1),
    decreases hi + 1 - lo,
{
    if lo <= hi {
        let (smaller, larger) = partition_3way(arr, lo, hi);
        let ghost s1 = arr@;
        quicksort_helper_3way(arr, lo, smaller - 1);
        let ghost s2 = arr@;
        quicksort_helper_3way(arr, larger + 1, hi);
        let ghost s3 = arr@;
        proof {
            lemma_multiset_outside_eq(s1, s2, lo as int, smaller as int);
            assert(s2.subrange(larger + 1, hi + 1) =~= s1.subrange(larger + 1, hi + 1));
            assert(s3.subrange(lo as int, smaller as int) =~= s2.subrange(
                lo as int,
                smaller as int,
            ));
            lemma_multiset_outside_eq(s2, s3, larger + 1, hi + 1);
            assert(forall|m: int|
                smaller <= m <= larger ==> #[trigger] s3[m] == s1[m] && s1[m] == s1[smaller as
                    int]);
            lemma_combine_3way(s1, s3, lo as int, smaller as int, larger as int, hi as int);
        }
    }
}

/// The window `[lo, hi]` splits at `p`: everything through `p` is at most
/// `piv`, and everything after is at least `piv`.
pub open spec fn split_at(s: Seq<i32>, lo: int, p: int, hi: int, piv: i32) -> bool {
    &&& forall|m: int| lo <= m <= p ==> (#[trigger] s[m]) <= piv
    &&& forall|m: int| p < m <= hi ==> (#[trigger] s[m]) >= piv
}

/// Hoare partition: two indices scan towards each other, exchanging
/// misplaced elements; everything at or left of the returned index sorts no
/// later than everything right of it. The returned index is strictly below
/// `hi`, and need not hold the pivot.
fn partition_hoare(arr: &mut Vec<i32>, lo: usize, hi: usize) -> (p: usize)
    requires
        lo < hi < old(arr)@.len(),
    ensures
        lo <= p < hi,
        final(arr)@.len() == old(arr)@.len(),
        final(arr)@.to_multiset() == old(arr)@.to_multiset(),
        same_outside(old(arr)@, final(arr)@, lo as int, hi + 1),
        exists|piv: i32| #[trigger] split_at(final(arr)@, lo as int, p as int, hi as int, piv),
{
    let pivot = arr[lo];
    let mut i = lo;
    let mut j = hi;

    loop
        invariant
            lo < hi < arr@.len(),
            arr@.len() == old(arr)@.len(),
            lo <= i,
            i <= j + 1,
            i <= hi,
            lo <= j <= hi,
            arr@.to_multiset() == old(arr)@.to_multiset(),
            same_outside(old(arr)@, arr@, lo as int, hi + 1),
            forall|m: int| lo <= m < i ==> (#[trigger] arr@[m]) <= pivot,
            forall|m: int| j < m <= hi ==> (#[trigger] arr@[m]) >= pivot,
            exists|m: int| i <= m <= hi && (#[trigger] arr@[m]) >= pivot,
            exists|m: int| lo <= m <= j && (#[trigger] arr@[m]) <= pivot,
            i == lo ==> arr@[lo as int] == pivot,
            i > lo ==> j < hi,
        ensures
            lo <= j < hi,
            forall|m: int| lo <= m <= j ==> (#[trigger] arr@[m]) <= pivot,
            forall|m: int| j < m <= hi ==> (#[trigger] arr@[m]) >= pivot,
            arr@.len() == old(arr)@.len(),
            arr@.to_multiset() == old(arr)@.to_multiset(),
            same_outside(old(arr)@, arr@, lo as int, hi + 1),
        decreases j + 2 - i,
    {
        let ghost i_top = i;
        let ghost j_top = j;
        let ghost m_right = choose|m: int| i <= m <= hi && arr@[m] >= pivot;
        // Find an element >= pivot from the left.
        while arr[i] < pivot
            invariant
                lo <= i <= m_right <= hi < arr@.len(),
                i_top <= i,
                arr@[m_right] >= pivot,
                i_top == lo && arr@[lo as int] == pivot ==> i == lo,
                forall|m: int| lo <= m < i ==> (#[trigger] arr@[m]) <= pivot,
            decreases m_right - i,
        {
            i += 1;
        }
        let ghost m_left = choose|m: int| lo <= m <= j && arr@[m] <= pivot;
        // Find an element <= pivot from the right.
        while arr[j] > pivot
            invariant
                lo <= m_left <= j <= hi < arr@.len(),
                j <= j_top,
                arr@[m_left] <= pivot,
                forall|m: int| j < m <= hi ==> (#[trigger] arr@[m]) >= pivot,
            decreases j - m_left,
        {
            j -= 1;
        }
        if i >= j {
            proof {
                if i == lo {
                    assert(j <= lo < hi);
                } else {
                    if i_top == lo {
                        assert(i == lo);
                        assert(false);
                    }
                    assert(j <= j_top < hi);
                }
                assert forall|m: int| lo <= m <= j implies (#[trigger] arr@[m]) <= pivot by {
                    if m < i {
                    } else {
                        assert(m == j && m == i);
                    }
                }
            }
            proof {
                assert(split_at(arr@, lo as int, j as int, hi as int, pivot));
            }
            return j;
        }
        // Two elements are misplaced: exchange them and step inwards.
        let ghost pre = arr@;
        swap_at(arr, i, j);
        proof {
            assert(arr@[i as int] == pre[j as int] && pre[j as int] <= pivot);
            assert(arr@[j as int] == pre[i as int] && pre[i as int] >= pivot);
            assert(i + 1 <= j && arr@[j as int] >= pivot);
            assert(lo <= i && arr@[i as int] <= pivot);
        }
        i += 1;
        j -= 1;
    }
}

/// Quicksort with the Hoare partition scheme.
pub fn quicksort_hoare(arr: &mut Vec<i32>)
    ensures
        sorted(final(arr)@),
        final(arr)@.to_multiset() == old(arr)@.to_multiset(),
{
    if arr.is_empty() {
        return ;
    }
    let hi = arr.len() - 1;
    quicksort_helper_hoare(arr, 0, hi);
}

/// Sorts the window `[lo, hi]` by Hoare partitioning; the pivot lands
/// somewhere in the first part, so both recursive windows shrink.
fn quicksort_helper_hoare(arr: &mut Vec<i32>, lo: usize, hi: usize)
    requires
        lo <= hi < old(arr)@.len(),
    ensures
        final(arr)@.len() == old(arr)@.len(),
        final(arr)@.to_multiset() == old(arr)@.to_multiset(),
        same_outside(old(arr)@, final(arr)@, lo as int, hi + 1),
        sorted_between(final(arr)@, lo as int, hi + 1),
    decreases hi - lo,
{
    if lo < hi {
        let p = partition_hoare(arr, lo, hi);
        let ghost s1 = arr@;
        let ghost piv = choose|piv: i32|
            split_at(s1, lo as int, p as int, hi as int, piv);
        quicksort_helper_hoare(arr, lo, p);
        let ghost s2 = arr@;
        quicksort_helper_hoare(arr, p + 1, hi);
        let ghost s3 = arr@;
        proof {
            lemma_multiset_outside_eq(s1, s2, lo as int, p + 1);
            assert(s2.subrange(p + 1, hi + 1) =~= s1.subrange(p + 1, hi + 1));
            assert(s3.subrange(lo as int, p + 1) =~= s2.subrange(lo as int, p + 1));
            lemma_multiset_outside_eq(s2, s3, p + 1, hi + 1);
            assert(forall|m: int|
                0 <= m < p + 1 - lo ==> (#[trigger] s1.subrange(lo as int, p + 1)[m]) == s1[lo + m]
                    && s1[lo + m] <= piv);
            crate::sorting::lemma_multiset_all_le(
                s1.subrange(lo as int, p + 1),
                s3.subrange(lo as int, p + 1),
                piv,
            );
            assert(forall|m: int|
                0 <= m < hi - p ==> (#[trigger] s1.subrange(p + 1, hi + 1)[m]) == s1[p + 1 + m]
                    && s1[p + 1 + m] >= piv);
            lemma_multiset_all_ge(s1.subrange(p + 1, hi + 1), s3.subrange(p + 1, hi + 1), piv);
            assert(forall|m: int|
                lo <= m <= p ==> (#[trigger] s3[m]) == s3.subrange(lo as int, p + 1)[m - lo]);
            assert(forall|m: int|
                p < m <= hi ==> (#[trigger] s3[m]) == s3.subrange(p + 1, hi + 1)[m - (p + 1)]);
            assert forall|a: int, b: int| lo <= a <= b < hi + 1 implies s3[a] <= s3[b] by {
                if a <= p && b > p {
                    assert(s3[a] <= piv);
                    assert(s3[b] >= piv);
                } else if b <= p {
                    assert(sorted_between(s3, lo as int, p + 1));
                } else {
                    assert(sorted_between(s3, p + 1, hi + 1));
                }
            }
        }
    }
}

/// Quicksort with the Lomuto partition scheme, as a standalone entry point.
pub fn quicksort_lomuto(arr: &mut Vec<i32>)
    requires
        old(arr)@.len() <= isize::MAX,
    ensures
        sorted(final(arr)@),
        final(arr)@.to_multiset() == old(arr)@.to_multiset(),
{
    let hi = arr.len() as isize - 1;
    quicksort_helper(arr, 0, hi);
}

} // verus!
