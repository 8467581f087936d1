//! Exponential search.

use crate::searching::binary_search::binary_search;
use crate::sorting::sorted;
use vstd::prelude::*;

verus! {

/// Exponential search: doubles an upper bound until it passes the target,
/// then binary-searches the bracketed window. The result is the position of a
/// matching element, or the insertion point that keeps the slice sorted.
pub fn exponential_search(arr: &[i32], target: &i32) -> (r: Result<usize, usize>)
    requires
        sorted(arr@),
        arr@.len() <= usize::MAX / 2,
    ensures
        match r {
            Ok(pos) => pos < arr@.len() && arr@[pos as int] == *target,
            Err(pos) => pos <= arr@.len() && (forall|k: int| 0 <= k < pos ==> arr@[k] < *target)
                && (forall|k: int| pos <= k < arr@.len() ==> arr@[k] > *target),
        },
{
    let size = arr.len();
    if size == 0 {
        return Err(0);
    }
    let mut hi: usize = 1;
    while hi < size && arr[hi] < *target
        invariant
            sorted(arr@),
            size == arr@.len(),
            size <= usize::MAX / 2,
            1 <= hi < 2 * size,
            forall|k: int| 0 <= k <= hi / 2 && k < size && hi > 1 ==> arr@[k] < *target,
        decreases 2 * size - hi,
    {
        hi = hi * 2;
    }
    let lo = hi / 2;
    let upper = if size < hi + 1 {
        size
    } else {
        hi + 1
    };
    let window = &arr[lo..upper];
    proof {
        assert(window@ =~= arr@.subrange(lo as int, upper as int));
        assert forall|a: int, b: int| 0 <= a <= b < window@.len() implies window@[a] <= window@[b]
            by {
            assert(window@[a] == arr@[lo + a]);
            assert(window@[b] == arr@[lo + b]);
        }
    }
    let res = binary_search(window, target);
    match res {
        Ok(idx) => {
            proof {
                assert(arr@[lo + idx] == window@[idx as int]);
            }
            Ok(lo + idx)
        },
        Err(idx) => {
            proof {
                assert forall|k: int| 0 <= k < lo + idx implies arr@[k] < *target by {
                    if k >= lo {
                        assert(window@[k - lo] == arr@[k]);
                    } else {
                        assert(arr@[lo as int] < *target);
                    }
                }
                assert forall|k: int| lo + idx <= k < arr@.len() implies arr@[k] > *target by {
                    if k < upper {
                        assert(window@[k - lo] == arr@[k]);
                    } else {
                        assert(upper == hi + 1);
                        assert(arr@[hi as int] >= *target);
                        assert(hi as int >= lo + idx);
                        if arr@[hi as int] == *target {
                            assert(window@[hi - lo] == arr@[hi as int]);
                            assert(false);
                        }
                    }
                }
            }
            Err(lo + idx)
        },
    }
}

} // verus!
