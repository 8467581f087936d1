//! Bubble sort.

use crate::sorting::{lemma_multiset_len, sorted, swap_at};
use vstd::prelude::*;

verus! {

/// Number of elements of `s` strictly greater than `x`.
spec fn count_gt(s: Seq<i32>, x: i32) -> nat
    decreases s.len(),
{
    if s.len() == 0 {
        0
    } else {
        count_gt(s.drop_last(), x) + if s.last() > x {
            1nat
        } else {
            0nat
        }
    }
}

/// Number of out-of-order pairs in `s`. Each pass of bubble sort that swaps
/// at least once strictly shrinks this measure, which bounds the number of
/// passes.
spec fn inversions(s: Seq<i32>) -> nat
    decreases s.len(),
{
    if s.len() == 0 {
        0
    } else {
        inversions(s.drop_last()) + count_gt(s.drop_last(), s.last())
    }
}

/// How replacing one element changes the count of elements above `x`.
proof fn lemma_count_gt_update(s: Seq<i32>, i: int, a: i32, x: i32)
    requires
        0 <= i < s.len(),
    ensures
        count_gt(s.update(i, a), x) + (if s[i] > x {
            1nat
        } else {
            0nat
        }) == count_gt(s, x) + (if a > x {
            1nat
        } else {
            0nat
        }),
    decreases s.len(),
{
    if i == s.len() - 1 {
        assert(s.update(i, a).drop_last() =~= s.drop_last());
        assert(s.update(i, a).last() == a);
    } else {
        lemma_count_gt_update(s.drop_last(), i, a, x);
        assert(s.update(i, a).drop_last() =~= s.drop_last().update(i, a));
        assert(s.update(i, a).last() == s.last());
    }
}

/// An adjacent exchange of an out-of-order pair removes exactly one
/// inversion.
proof fn lemma_adjacent_swap_inversions(s: Seq<i32>, i: int)
    requires
        1 <= i < s.len(),
        s[i - 1] > s[i],
    ensures
        inversions(s.update(i - 1, s[i]).update(i, s[i - 1])) + 1 == inversions(s),
    decreases s.len(),
{
    let t = s.update(i - 1, s[i]).update(i, s[i - 1]);
    if i == s.len() - 1 {
        let p = s.drop_last();
        assert(p.last() == s[i - 1]);
        assert(t.drop_last() =~= p.update(i - 1, s[i]));
        assert(t.last() == s[i - 1]);
        assert(p.update(i - 1, s[i]).drop_last() =~= p.drop_last());
        assert(p.update(i - 1, s[i]).last() == s[i]);
        assert(inversions(t) == inversions(t.drop_last()) + count_gt(t.drop_last(), t.last()));
        assert(inversions(p.update(i - 1, s[i])) == inversions(p.drop_last()) + count_gt(
            p.drop_last(),
            s[i],
        ));
        assert(inversions(t) == inversions(p.drop_last()) + count_gt(p.drop_last(), s[i])
            + count_gt(p.update(i - 1, s[i]), s[i - 1]));
        assert(count_gt(p.update(i - 1, s[i]), s[i - 1]) == count_gt(p.drop_last(), s[i - 1]));
        assert(inversions(s) == inversions(p) + count_gt(p, s[i]));
        assert(inversions(p) == inversions(p.drop_last()) + count_gt(p.drop_last(), s[i - 1]));
        assert(count_gt(p, s[i]) == count_gt(p.drop_last(), s[i]) + 1);
        assert(inversions(s) == inversions(p.drop_last()) + count_gt(p.drop_last(), s[i - 1])
            + count_gt(p.drop_last(), s[i]) + 1);
    } else {
        lemma_adjacent_swap_inversions(s.drop_last(), i);
        assert(t.drop_last() =~= s.drop_last().update(i - 1, s[i]).update(i, s[i - 1]));
        assert(t.last() == s.last());
        lemma_count_gt_update(s.drop_last(), i - 1, s[i], s.last());
        lemma_count_gt_update(s.drop_last().update(i - 1, s[i]), i, s[i - 1], s.last());
        assert(s.drop_last().update(i - 1, s[i])[i] == s[i]);
        assert(count_gt(t.drop_last(), t.last()) == count_gt(s.drop_last(), s.last()));
    }
}

/// Bubble sort: sweeps adjacent pairs, swapping the out-of-order ones, until
/// a whole pass makes no swap.
pub fn bubble_sort(arr: &mut Vec<i32>)
    ensures
        sorted(final(arr)@),
        final(arr)@.to_multiset() == old(arr)@.to_multiset(),
{
    let ghost n = arr@.len();
    let mut swapped = true;
    while swapped
        invariant
            arr@.len() == n,
            arr@.to_multiset() == old(arr)@.to_multiset(),
            !swapped ==> sorted(arr@),
        decreases inversions(arr@) + (if swapped {
            1nat
        } else {
            0nat
        }),
    {
        swapped = false;
        let len = arr.len();
        let ghost start = arr@;
        let mut i: usize = 1;
        while i < len
            invariant
                len == arr@.len(),
                1 <= i,
                len > 0 ==> i <= len,
                len == 0 ==> i == 1,
                arr@.to_multiset() == old(arr)@.to_multiset(),
                swapped ==> inversions(arr@) < inversions(start),
                !swapped ==> arr@ == start,
                !swapped ==> sorted(arr@.take(if i <= len {
                    i as int
                } else {
                    len as int
                })),
                forall|k: int| 0 <= k < i && k < len ==> (#[trigger] arr@[k]) <= arr@[i - 1],
            decreases len - i,
        {
            if arr[i - 1] > arr[i] {
                proof {
                    lemma_adjacent_swap_inversions(arr@, i as int);
                }
                swap_at(arr, i - 1, i);
                swapped = true;
            }
            i += 1;
        }
        proof {
            if len > 0 {
                assert(arr@.take(len as int) =~= arr@);
            }
        }
    }
    proof {
        lemma_multiset_len(arr@, old(arr)@);
    }
}

/// Bubble sort that remembers the last swap position: everything at or after
/// it is already in final order, so the next pass stops there.
pub fn bubble_sort_optimized(arr: &mut Vec<i32>)
    ensures
        sorted(final(arr)@),
        final(arr)@.to_multiset() == old(arr)@.to_multiset(),
{
    let ghost n = arr@.len();
    let mut new_len: usize;
    let mut len = arr.len();
    loop
        invariant
            arr@.len() == n,
            len <= n,
            arr@.to_multiset() == old(arr)@.to_multiset(),
            forall|k2: int, k: int| 0 <= k2 < k < n && k >= len ==> arr@[k2] <= arr@[k],
        ensures
            arr@.to_multiset() == old(arr)@.to_multiset(),
            sorted(arr@),
        decreases len,
    {
        new_len = 0;
        let mut i: usize = 1;
        while i < len
            invariant
                arr@.len() == n,
                len <= n,
                1 <= i,
                len > 0 ==> i <= len,
                len == 0 ==> i == 1,
                new_len < i,
                arr@.to_multiset() == old(arr)@.to_multiset(),
                forall|k2: int, k: int| 0 <= k2 < k < n && k >= len ==> arr@[k2] <= arr@[k],
                forall|k: int| 0 <= k < i && k < len ==> (#[trigger] arr@[k]) <= arr@[i - 1],
                forall|k2: int, k: int| new_len <= k < i && k < len && 0 <= k2 < k ==> arr@[k2]
                    <= arr@[k],
            decreases len - i,
        {
            if arr[i - 1] > arr[i] {
                swap_at(arr, i - 1, i);
                new_len = i;
            }
            i += 1;
        }
        if new_len == 0 {
            proof {
                assert forall|a: int, b: int| 0 <= a <= b < n implies arr@[a] <= arr@[b] by {
                    if a < b {
                        if b < len {
                        } else {
                        }
                    }
                }
            }
            break ;
        }
        len = new_len;
    }
    proof {
        lemma_multiset_len(arr@, old(arr)@);
    }
}

} // verus!
