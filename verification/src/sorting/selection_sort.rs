//! Selection sort.

use crate::sorting::{lemma_multiset_len, sorted, swap_at};
use vstd::prelude::*;

verus! {

/// Selection sort: repeatedly swaps the smallest remaining element to the
/// front of the unsorted suffix.
pub fn selection_sort(arr: &mut Vec<i32>)
    ensures
        sorted(final(arr)@),
        final(arr)@.to_multiset() == old(arr)@.to_multiset(),
{
    let len = arr.len();
    let mut i: usize = 0;
    while i < len
        invariant
            len == arr@.len(),
            i <= len,
            arr@.to_multiset() == old(arr)@.to_multiset(),
            sorted(arr@.take(i as int)),
            forall|a: int, b: int| 0 <= a < i <= b < len ==> arr@[a] <= arr@[b],
        decreases len - i,
    {
        let mut temp = i;
        let mut j = i + 1;
        while j < len
            invariant
                len == arr@.len(),
                i <= temp < len,
                i < j <= len,
                forall|k: int| i <= k < j ==> arr@[temp as int] <= arr@[k],
            decreases len - j,
        {
            if arr[temp] > arr[j] {
                temp = j;
            }
            j += 1;
        }
        let ghost pre = arr@;
        proof {
            assert forall|a: int, b: int| 0 <= a <= b < i implies pre[a] <= pre[b] by {
                assert(pre.take(i as int)[a] == pre[a]);
                assert(pre.take(i as int)[b] == pre[b]);
            }
        }
        swap_at(arr, i, temp);
        proof {
            assert forall|a: int, b: int| 0 <= a <= b <= i implies (#[trigger] arr@.take(i + 1)[a])
                <= (#[trigger] arr@.take(i + 1)[b]) by {
                assert(arr@.take(i + 1)[a] == arr@[a]);
                assert(arr@.take(i + 1)[b] == arr@[b]);
            }
            assert(sorted(arr@.take(i + 1)));
            assert forall|a: int, b: int| 0 <= a < i + 1 <= b < len implies arr@[a] <= arr@[b] by {
                assert(pre[temp as int] <= pre[b]);
                if a < i {
                    assert(pre[a] <= pre[b]);
                    assert(pre[a] <= pre[i as int]);
                }
            }
        }
        i += 1;
    }
    proof {
        assert(arr@.take(len as int) =~= arr@);
        lemma_multiset_len(arr@, old(arr)@);
    }
}

} // verus!
