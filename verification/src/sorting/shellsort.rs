//! Shellsort.

use crate::sorting::{lemma_multiset_len, sorted, swap_at};
use vstd::prelude::*;

verus! {

/// Shellsort with Marcin Ciura's gap sequence. Every pass permutes the
/// elements; the final pass has gap 1 and is a full insertion sort, which is
/// what makes the result sorted.
pub fn shellsort(arr: &mut Vec<i32>)
    ensures
        sorted(final(arr)@),
        final(arr)@.to_multiset() == old(arr)@.to_multiset(),
{
    let len = arr.len();
    let gaps: Vec<usize> = vec![701, 301, 132, 57, 23, 10, 4, 1];
    let ngaps = gaps.len();
    let mut gi: usize = 0;
    while gi < ngaps
        invariant
            len == arr@.len(),
            ngaps == gaps@.len(),
            gaps@[ngaps - 1] == 1,
            forall|g: int| 0 <= g < ngaps ==> gaps@[g] >= 1,
            gi <= ngaps,
            arr@.to_multiset() == old(arr)@.to_multiset(),
            gi == ngaps ==> sorted(arr@),
        decreases ngaps - gi,
    {
        let gap = gaps[gi];
        let mut i: usize = gap;
        while i < len
            invariant
                len == arr@.len(),
                1 <= gap <= i,
                len > 0 ==> i <= len || i == gap,
                arr@.to_multiset() == old(arr)@.to_multiset(),
                gap == 1 && i <= len ==> sorted(arr@.take(i as int)),
            decreases len - i,
        {
            proof {
                if gap == 1 {
                    assert forall|a: int, b: int| 0 <= a <= b < i implies arr@[a] <= arr@[b] by {
                        assert(arr@.take(i as int)[a] == arr@[a]);
                        assert(arr@.take(i as int)[b] == arr@[b]);
                    }
                }
            }
            let mut j = i;
            while j >= gap && arr[j - gap] > arr[j]
                invariant
                    len == arr@.len(),
                    1 <= gap,
                    j <= i < len,
                    arr@.to_multiset() == old(arr)@.to_multiset(),
                    gap == 1 ==> forall|a: int, b: int|
                        0 <= a <= b <= i && a != j && b != j ==> arr@[a] <= arr@[b],
                    gap == 1 ==> forall|b: int| j < b <= i ==> arr@[j as int] <= arr@[b],
                decreases j,
            {
                swap_at(arr, j - gap, j);
                j -= gap;
            }
            proof {
                if gap == 1 {
                    assert forall|a: int, b: int| 0 <= a <= b <= i implies arr@[a] <= arr@[b] by {
                        if b == j && a < j {
                            assert(arr@[j as int - 1] <= arr@[j as int]);
                            if a < j - 1 {
                                assert(arr@[a] <= arr@[j as int - 1]);
                            }
                        }
                    }
                    assert(sorted(arr@.take(i + 1)));
                }
            }
            i += 1;
        }
        proof {
            if gap == 1 && len > 0 {
                assert(arr@.take(len as int) =~= arr@);
            }
            if gap == 1 && len == 0 {
                assert(sorted(arr@));
            }
        }
        gi += 1;
    }
    proof {
        lemma_multiset_len(arr@, old(arr)@);
    }
}

} // verus!
