//! Heapsort.

use crate::sorting::{lemma_multiset_len, same_outside, sorted, sorted_between, swap_at};
use vstd::prelude::*;

verus! {

/// Max-heap shape on positions `[0, end]`: every element is at most its
/// parent.
pub open spec fn heap_upto(s: Seq<i32>, end: int) -> bool {
    forall|c: int| 1 <= c <= end ==> (#[trigger] s[c]) <= s[(c - 1) / 2]
}

/// In a max-heap the root bounds every element.
proof fn lemma_heap_root_max(s: Seq<i32>, end: int, m: int)
    requires
        0 <= end < s.len(),
        heap_upto(s, end),
        0 <= m <= end,
    ensures
        s[m] <= s[0],
    decreases m,
{
    if m > 0 {
        assert(s[m] <= s[(m - 1) / 2]);
        lemma_heap_root_max(s, end, (m - 1) / 2);
    }
}

/// Sinks the element at `start` into the heap below it: afterwards every
/// pair with its parent at or below `start` is ordered. Positions outside
/// `[start, end]` stay put, and every element of `[0, end]` stays bounded by
/// every element after `end`.
fn sift_down(arr: &mut Vec<i32>, start: usize, end: usize)
    requires
        start <= end < old(arr)@.len(),
        old(arr)@.len() <= usize::MAX / 2,
        forall|c: int|
            1 <= c <= end && (c - 1) / 2 >= start && (c - 1) / 2 != start
                ==> (#[trigger] old(arr)@[c]) <= old(arr)@[(c - 1) / 2],
        forall|a: int, b: int|
            #![trigger old(arr)@[a], old(arr)@[b]]
            0 <= a <= end && end < b < old(arr)@.len() ==> old(arr)@[a] <= old(arr)@[b],
    ensures
        final(arr)@.len() == old(arr)@.len(),
        final(arr)@.to_multiset() == old(arr)@.to_multiset(),
        same_outside(old(arr)@, final(arr)@, start as int, end + 1),
        forall|c: int|
            1 <= c <= end && (c - 1) / 2 >= start
                ==> (#[trigger] final(arr)@[c]) <= final(arr)@[(c - 1) / 2],
        forall|a: int, b: int|
            #![trigger final(arr)@[a], final(arr)@[b]]
            0 <= a <= end && end < b < old(arr)@.len() ==> final(arr)@[a] <= final(arr)@[b],
{
    let mut root = start;
    loop
        invariant
            start <= root <= end < arr@.len(),
            arr@.len() == old(arr)@.len(),
            arr@.len() <= usize::MAX / 2,
            arr@.to_multiset() == old(arr)@.to_multiset(),
            same_outside(old(arr)@, arr@, start as int, end + 1),
            forall|c: int|
                1 <= c <= end && (c - 1) / 2 >= start && (c - 1) / 2 != root ==> (
                #[trigger] arr@[c]) <= arr@[(c - 1) / 2],
            root > start ==> forall|c: int|
                1 <= c <= end && (c - 1) / 2 == root ==> (#[trigger] arr@[c]) <= arr@[(root - 1)
                    / 2],
            forall|a: int, b: int|
                #![trigger arr@[a], arr@[b]]
                0 <= a <= end && end < b < arr@.len() ==> arr@[a] <= arr@[b],
        ensures
            forall|c: int|
                1 <= c <= end && (c - 1) / 2 >= start ==> (#[trigger] arr@[c]) <= arr@[(c - 1)
                    / 2],
            arr@.len() == old(arr)@.len(),
            arr@.to_multiset() == old(arr)@.to_multiset(),
            same_outside(old(arr)@, arr@, start as int, end + 1),
            forall|a: int, b: int|
                #![trigger arr@[a], arr@[b]]
                0 <= a <= end && end < b < arr@.len() ==> arr@[a] <= arr@[b],
        decreases end - root,
    {
        let mut child = root * 2 + 1;
        if child > end {
            proof {
                assert forall|c: int|
                    1 <= c <= end && (c - 1) / 2 >= start implies (#[trigger] arr@[c]) <= arr@[(c
                    - 1) / 2] by {
                    if (c - 1) / 2 == root {
                        assert(c >= 2 * root + 1);
                        assert(false);
                    }
                }
            }
            break ;
        }
        if child + 1 <= end && arr[child] < arr[child + 1] {
            child += 1;
        }
        if arr[root] < arr[child] {
            let ghost pre = arr@;
            swap_at(arr, root, child);
            proof {
                assert((child - 1) / 2 == root as int);
                assert forall|c: int|
                    1 <= c <= end && (c - 1) / 2 >= start && (c - 1) / 2 != child implies (
                #[trigger] arr@[c]) <= arr@[(c - 1) / 2] by {
                    if c == child {
                        assert(arr@[c] == pre[root as int]);
                        assert(arr@[(c - 1) / 2] == pre[child as int]);
                    } else if (c - 1) / 2 == root {
                        // the sibling is bounded by the larger child
                        assert(pre[c] <= pre[child as int]);
                        assert(arr@[c] == pre[c]);
                        assert(arr@[(c - 1) / 2] == pre[child as int]);
                    } else if c == root {
                        // the former root position now holds the larger child,
                        // still bounded by the untouched parent above `start`
                        assert(root > start);
                        assert(arr@[c] == pre[child as int]);
                        assert(pre[child as int] <= pre[(root - 1) / 2]);
                        assert(arr@[(c - 1) / 2] == pre[(root - 1) / 2]);
                    } else {
                        assert(arr@[c] == pre[c]);
                        assert(arr@[(c - 1) / 2] == pre[(c - 1) / 2]);
                    }
                }
                assert forall|c: int|
                    1 <= c <= end && (c - 1) / 2 == child implies (#[trigger] arr@[c]) <= arr@[(
                child - 1) / 2] by {
                    assert(arr@[c] == pre[c]);
                    assert(pre[c] <= pre[child as int]);
                    assert(arr@[(child - 1) / 2] == arr@[root as int]);
                    assert(arr@[root as int] == pre[child as int]);
                }
            }
            root = child;
        } else {
            proof {
                assert forall|c: int|
                    1 <= c <= end && (c - 1) / 2 >= start implies (#[trigger] arr@[c]) <= arr@[(c
                    - 1) / 2] by {
                    if (c - 1) / 2 == root {
                        assert(c == 2 * root + 1 || c == 2 * root + 2);
                        assert(arr@[c] <= arr@[child as int]);
                        assert(arr@[child as int] <= arr@[root as int]);
                    }
                }
            }
            break ;
        }
    }
}

/// One extraction step: after swapping the heap's root behind position `e`,
/// the suffix from `e` is sorted and dominates the prefix, and the heap pairs
/// away from the root still hold.
proof fn lemma_extract_step(pre: Seq<i32>, cur: Seq<i32>, e: int, len: int)
    requires
        0 <= e < len,
        len == pre.len() == cur.len(),
        heap_upto(pre, e),
        cur == pre.update(e, pre[0]).update(0, pre[e]),
        sorted_between(pre, e + 1, len),
        forall|a: int, b: int|
            #![trigger pre[a], pre[b]]
            0 <= a < e + 1 && e + 1 <= b < len ==> pre[a] <= pre[b],
    ensures
        forall|a: int, b: int|
            #![trigger cur[a], cur[b]]
            0 <= a < e && e <= b < len ==> cur[a] <= cur[b],
        sorted_between(cur, e, len),
        forall|c: int|
            1 <= c <= e - 1 && (c - 1) / 2 != 0 ==> (#[trigger] cur[c]) <= cur[(c - 1) / 2],
{
    assert forall|m: int| 0 <= m <= e implies (#[trigger] pre[m]) <= pre[0] by {
        lemma_heap_root_max(pre, e, m);
    }
    assert forall|a: int, b: int|
        #![trigger cur[a], cur[b]]
        0 <= a < e && e <= b < len implies cur[a] <= cur[b] by {
        if b == e {
            assert(cur[b] == pre[0]);
            if a == 0 {
                assert(cur[a] == pre[e]);
            } else {
                assert(cur[a] == pre[a]);
            }
        } else {
            assert(cur[b] == pre[b]);
            assert(pre[0] <= pre[b]);
            if a == 0 {
                assert(cur[a] == pre[e]);
                assert(pre[e] <= pre[0]);
            } else {
                assert(cur[a] == pre[a]);
            }
        }
    }
    assert forall|a: int, b: int| e <= a <= b < len implies cur[a] <= cur[b] by {
        if a == b {
        } else if a == e {
            assert(cur[a] == pre[0]);
            assert(cur[b] == pre[b]);
        } else {
            assert(cur[a] == pre[a]);
            assert(cur[b] == pre[b]);
        }
    }
    assert forall|c: int|
        1 <= c <= e - 1 && (c - 1) / 2 != 0 implies (#[trigger] cur[c]) <= cur[(c - 1) / 2] by {
        assert(cur[c] == pre[c]);
        assert(cur[(c - 1) / 2] == pre[(c - 1) / 2]);
    }
}

/// Heapsort: builds a max-heap, then repeatedly swaps the root — the largest
/// remaining element — behind the shrinking heap.
pub fn heapsort(arr: &mut Vec<i32>)
    requires
        old(arr)@.len() <= usize::MAX / 2,
    ensures
        sorted(final(arr)@),
        final(arr)@.to_multiset() == old(arr)@.to_multiset(),
{
    let len = arr.len();
    // heapify
    let mut start = len;
    while start > 0
        invariant
            len == arr@.len(),
            arr@.len() <= usize::MAX / 2,
            start <= len,
            arr@.to_multiset() == old(arr)@.to_multiset(),
            len > 0 ==> forall|c: int|
                1 <= c < len && (c - 1) / 2 >= start ==> (#[trigger] arr@[c]) <= arr@[(c - 1) / 2],
        decreases start,
    {
        start -= 1;
        sift_down(arr, start, len - 1);
    }

    // extraction
    let mut e = len;
    while e > 1
        invariant
            len == arr@.len(),
            arr@.len() <= usize::MAX / 2,
            e <= len,
            len > 0 ==> 1 <= e,
            len == 0 ==> e == 0,
            arr@.to_multiset() == old(arr)@.to_multiset(),
            len > 0 ==> heap_upto(arr@, e - 1),
            sorted_between(arr@, e as int, len as int),
            forall|a: int, b: int|
                #![trigger arr@[a], arr@[b]]
                0 <= a < e && e <= b < len ==> arr@[a] <= arr@[b],
        decreases e,
    {
        e -= 1;
        let ghost pre = arr@;
        swap_at(arr, e, 0);
        proof {
            lemma_extract_step(pre, arr@, e as int, len as int);
        }
        sift_down(arr, 0, e - 1);
    }
    proof {
        if len > 0 {
            assert forall|a: int, b: int|
                #![trigger arr@[a], arr@[b]]
                0 <= a <= b < len implies arr@[a] <= arr@[b] by {
                if a < e && b >= e {
                } else if a >= e {
                    assert(sorted_between(arr@, e as int, len as int));
                } else {
                    assert(heap_upto(arr@, e - 1));
                    assert(a == 0 && b == 0);
                }
            }
        }
        lemma_multiset_len(arr@, old(arr)@);
    }
}

} // verus!
