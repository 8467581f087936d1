//! Linear search.

use vstd::prelude::*;

verus! {

/// Linear search: the index of the first element equal to `target`, or `None`
/// when no element matches.
pub fn linear_search(arr: &[i32], target: &i32) -> (r: Option<usize>)
    ensures
        match r {
            Some(i) => i < arr@.len() && arr@[i as int] == *target && (forall|k: int|
                0 <= k < i ==> arr@[k] != *target),
            None => forall|k: int| 0 <= k < arr@.len() ==> arr@[k] != *target,
        },
{
    let len = arr.len();
    let mut index: usize = 0;
    while index < len
        invariant
            len == arr@.len(),
            index <= len,
            forall|k: int| 0 <= k < index ==> arr@[k] != *target,
        decreases len - index,
    {
        if arr[index] == *target {
            return Some(index);
        }
        index += 1;
    }
    None
}

} // verus!
