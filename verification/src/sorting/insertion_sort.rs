//! Insertion sort.

use crate::sorting::{lemma_multiset_len, sorted, swap_at};
use vstd::prelude::*;

verus! {

/// Insertion sort: grows a sorted prefix by sinking each next element into
/// place with adjacent exchanges.
pub fn insertion_sort(arr: &mut Vec<i32>)
    ensures
        sorted(final(arr)@),
        final(arr)@.to_multiset() == old(arr)@.to_multiset(),
{
    let len = arr.len();
    let mut i: usize = 1;
    while i < len
        invariant
            len == arr@.len(),
            1 <= i,
            len > 0 ==> i <= len,
            arr@.to_multiset() == old(arr)@.to_multiset(),
            sorted(arr@.take(if i <= len {
                i as int
            } else {
                len as int
            })),
        decreases len - i,
    {
        let mut j: usize = i;
        proof {
            assert forall|a: int, b: int| 0 <= a <= b < i implies arr@[a] <= arr@[b] by {
                assert(arr@.take(i as int)[a] == arr@[a]);
                assert(arr@.take(i as int)[b] == arr@[b]);
            }
        }
        while j > 0 && arr[j - 1] > arr[j]
            invariant
                len == arr@.len(),
                j <= i < len,
                arr@.to_multiset() == old(arr)@.to_multiset(),
                forall|a: int, b: int|
                    0 <= a <= b <= i && a != j && b != j ==> arr@[a] <= arr@[b],
                forall|b: int| j < b <= i ==> arr@[j as int] <= arr@[b],
            decreases j,
        {
            swap_at(arr, j - 1, j);
            j -= 1;
        }
        proof {
            assert forall|a: int, b: int| 0 <= a <= b <= i implies arr@[a] <= arr@[b] by {
                if b == j && a < j {
                    assert(arr@[j as int - 1] <= arr@[j as int]);
                    if a < j - 1 {
                        assert(arr@[a] <= arr@[j as int - 1]);
                    }
                }
            }
            assert(sorted(arr@.take(i + 1)));
        }
        i += 1;
    }
    proof {
        if len > 0 {
            assert(arr@.take(len as int) =~= arr@);
        }
        lemma_multiset_len(arr@, old(arr)@);
    }
}

/// Locates where `val` belongs in the sorted prefix `arr[0..upto]`: the index
/// of a matching element, or the insertion point that keeps the prefix sorted.
fn prefix_search(arr: &Vec<i32>, upto: usize, val: i32) -> (r: Result<usize, usize>)
    requires
        upto <= arr@.len(),
        sorted(arr@.take(upto as int)),
    ensures
        match r {
            Ok(pos) => pos < upto && arr@[pos as int] == val,
            Err(pos) => pos <= upto && (forall|k: int| 0 <= k < pos ==> arr@[k] < val) && (forall|
                k: int,
            |
                pos <= k < upto ==> arr@[k] > val),
        },
{
    let mut size = upto;
    if size == 0 {
        return Err(0);
    }
    let mut base: usize = 0;
    while size > 1
        invariant
            1 <= size,
            base + size <= upto,
            upto <= arr@.len(),
            sorted(arr@.take(upto as int)),
            base > 0 ==> arr@[base as int] <= val,
            forall|k: int| 0 <= k < base ==> arr@[k] <= val,
            forall|k: int| base + size <= k < upto ==> arr@[k] > val,
        decreases size,
    {
        let half = size / 2;
        let mid = base + half;
        if arr[mid] <= val {
            proof {
                assert forall|k: int| 0 <= k < mid implies arr@[k] <= val by {
                    assert(arr@.take(upto as int)[k] == arr@[k]);
                    assert(arr@.take(upto as int)[mid as int] == arr@[mid as int]);
                }
            }
            base = mid;
        } else {
            proof {
                assert forall|k: int| mid <= k < upto implies arr@[k] > val by {
                    assert(arr@.take(upto as int)[k] == arr@[k]);
                    assert(arr@.take(upto as int)[mid as int] == arr@[mid as int]);
                }
            }
        }
        size -= half;
    }
    proof {
        assert forall|k: int| 0 <= k < base implies arr@[k] <= arr@[base as int] by {
            assert(arr@.take(upto as int)[k] == arr@[k]);
            assert(arr@.take(upto as int)[base as int] == arr@[base as int]);
        }
    }
    if arr[base] == val {
        Ok(base)
    } else if arr[base] < val {
        Err(base + 1)
    } else {
        Err(base)
    }
}

/// Binary insertion sort: finds each element's place in the sorted prefix by
/// binary search, then shifts it down with adjacent exchanges.
pub fn binary_insertion_sort(arr: &mut Vec<i32>)
    ensures
        sorted(final(arr)@),
        final(arr)@.to_multiset() == old(arr)@.to_multiset(),
{
    let len = arr.len();
    let mut i: usize = 1;
    while i < len
        invariant
            len == arr@.len(),
            1 <= i,
            len > 0 ==> i <= len,
            arr@.to_multiset() == old(arr)@.to_multiset(),
            sorted(arr@.take(if i <= len {
                i as int
            } else {
                len as int
            })),
        decreases len - i,
    {
        let val = arr[i];
        let mut j: usize = i;
        let pos = match prefix_search(arr, i, val) {
            Ok(pos) => pos,
            Err(pos) => pos,
        };
        proof {
            assert forall|a: int, b: int| 0 <= a <= b < i implies arr@[a] <= arr@[b] by {
                assert(arr@.take(i as int)[a] == arr@[a]);
                assert(arr@.take(i as int)[b] == arr@[b]);
            }
        }
        while j > pos
            invariant
                len == arr@.len(),
                pos <= j <= i < len,
                arr@[j as int] == val,
                arr@.to_multiset() == old(arr)@.to_multiset(),
                forall|a: int, b: int|
                    0 <= a <= b <= i && a != j && b != j ==> arr@[a] <= arr@[b],
                forall|b: int| j < b <= i ==> arr@[j as int] <= arr@[b],
                forall|k: int| 0 <= k < pos ==> arr@[k] <= val,
                forall|k: int| pos <= k <= i && k != j ==> arr@[k] >= val,
            decreases j,
        {
            swap_at(arr, j - 1, j);
            j -= 1;
        }
        proof {
            assert forall|a: int, b: int| 0 <= a <= b <= i implies arr@[a] <= arr@[b] by {
                if b == j && a < j {
                    assert(arr@[a] <= val);
                }
                if a == j && b > j {
                    assert(arr@[b] >= val);
                }
            }
            assert(sorted(arr@.take(i + 1)));
        }
        i += 1;
    }
    proof {
        if len > 0 {
            assert(arr@.take(len as int) =~= arr@);
        }
        lemma_multiset_len(arr@, old(arr)@);
    }
}

} // verus!
