//! Binary search.

use crate::sorting::sorted;
use vstd::prelude::*;

verus! {

/// Binary search over a sorted slice. Returns the position of a matching
/// element (not necessarily the leftmost), or the insertion point that would
/// keep the slice sorted.
pub fn binary_search(arr: &[i32], target: &i32) -> (r: Result<usize, usize>)
    requires
        sorted(arr@),
    ensures
        match r {
            Ok(pos) => pos < arr@.len() && arr@[pos as int] == *target,
            Err(pos) => pos <= arr@.len() && (forall|k: int| 0 <= k < pos ==> arr@[k] < *target)
                && (forall|k: int| pos <= k < arr@.len() ==> arr@[k] > *target),
        },
{
    let mut size = arr.len();
    if size == 0 {
        return Err(0);
    }
    let mut base: usize = 0;
    while size > 1
        invariant
            sorted(arr@),
            1 <= size,
            base + size <= arr@.len(),
            arr@.len() <= usize::MAX,
            base > 0 ==> arr@[base as int] <= *target,
            forall|k: int| 0 <= k < base ==> arr@[k] <= *target,
            forall|k: int| base + size <= k < arr@.len() ==> arr@[k] > *target,
        decreases size,
    {
        let half = size / 2;
        let mid = base + half;
        if arr[mid] <= *target {
            base = mid;
        }
        size -= half;
    }
    if arr[base] == *target {
        Ok(base)
    } else if arr[base] < *target {
        Err(base + 1)
    } else {
        Err(base)
    }
}

} // verus!
