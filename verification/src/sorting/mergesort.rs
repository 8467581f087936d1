//! Mergesort.

use crate::sorting::{lemma_multiset_len, sorted, sorted_between};
use vstd::prelude::*;

verus! {

/// Merges two sorted vectors into one sorted vector holding both multisets,
/// preferring the left side on ties.
fn merge(left: &Vec<i32>, right: &Vec<i32>) -> (r: Vec<i32>)
    requires
        sorted(left@),
        sorted(right@),
    ensures
        sorted(r@),
        r@.to_multiset() == left@.to_multiset().add(right@.to_multiset()),
{
    broadcast use vstd::seq_lib::group_to_multiset_ensures;
    broadcast use vstd::multiset::group_multiset_axioms;

    let mut out: Vec<i32> = Vec::new();
    let mut i: usize = 0;
    let mut j: usize = 0;
    proof {
        assert(left@.take(0) =~= Seq::<i32>::empty());
        assert(right@.take(0) =~= Seq::<i32>::empty());
        assert(out@.to_multiset() =~= left@.take(0).to_multiset().add(
            right@.take(0).to_multiset(),
        ));
    }
    while i < left.len() || j < right.len()
        invariant
            i <= left@.len(),
            j <= right@.len(),
            sorted(left@),
            sorted(right@),
            sorted(out@),
            out@.to_multiset() == left@.take(i as int).to_multiset().add(
                right@.take(j as int).to_multiset(),
            ),
            out@.len() > 0 && i < left@.len() ==> out@.last() <= left@[i as int],
            out@.len() > 0 && j < right@.len() ==> out@.last() <= right@[j as int],
        decreases left@.len() - i + right@.len() - j,
    {
        let take_right = if i == left.len() {
            true
        } else if j == right.len() {
            false
        } else {
            left[i] > right[j]
        };
        let ghost prev = out@;
        if take_right {
            out.push(right[j]);
            proof {
                assert(right@.take(j + 1) =~= right@.take(j as int).push(right@[j as int]));
                assert(out@ == prev.push(right@[j as int]));
                prev.to_multiset_ensures();
                right@.take(j as int).to_multiset_ensures();
                assert(out@.to_multiset() =~= prev.to_multiset().insert(right@[j as int]));
                assert(right@.take(j + 1).to_multiset() =~= right@.take(j as int).to_multiset().insert(
                    right@[j as int],
                ));
                assert(out@.to_multiset() =~= left@.take(i as int).to_multiset().add(
                    right@.take(j + 1).to_multiset(),
                ));
                assert forall|a: int, b: int| 0 <= a <= b < out@.len() implies out@[a] <= out@[b]
                    by {
                    if b == out@.len() - 1 && a < b {
                        assert(prev[a] <= prev.last());
                    }
                }
            }
            j += 1;
        } else {
            out.push(left[i]);
            proof {
                assert(left@.take(i + 1) =~= left@.take(i as int).push(left@[i as int]));
                assert(out@ == prev.push(left@[i as int]));
                prev.to_multiset_ensures();
                left@.take(i as int).to_multiset_ensures();
                assert(out@.to_multiset() =~= prev.to_multiset().insert(left@[i as int]));
                assert(left@.take(i + 1).to_multiset() =~= left@.take(i as int).to_multiset().insert(
                    left@[i as int],
                ));
                assert(out@.to_multiset() =~= left@.take(i + 1).to_multiset().add(
                    right@.take(j as int).to_multiset(),
                ));
                assert forall|a: int, b: int| 0 <= a <= b < out@.len() implies out@[a] <= out@[b]
                    by {
                    if b == out@.len() - 1 && a < b {
                        assert(prev[a] <= prev.last());
                    }
                }
            }
            i += 1;
        }
    }
    proof {
        assert(left@.take(i as int) =~= left@);
        assert(right@.take(j as int) =~= right@);
    }
    out
}

/// Mergesort, top-down: splits the vector in half, sorts both halves
/// recursively, and merges them.
pub fn mergesort(arr: &mut Vec<i32>)
    ensures
        sorted(final(arr)@),
        final(arr)@.to_multiset() == old(arr)@.to_multiset(),
    decreases old(arr)@.len(),
{
    let mid = arr.len() / 2;
    if mid == 0 {
        return ;
    }
    let mut right = arr.split_off(mid);
    proof {
        assert(old(arr)@ =~= arr@ + right@);
        vstd::seq_lib::lemma_multiset_commutative(arr@, right@);
    }
    mergesort(arr);
    mergesort(&mut right);
    let merged = merge(arr, &right);
    *arr = merged;
    proof {
        lemma_multiset_len(arr@, old(arr)@);
    }
}

/// The smaller of two integers.
pub open spec fn min2(a: int, b: int) -> int {
    if a < b {
        a
    } else {
        b
    }
}

/// Every aligned block of `w` consecutive elements is sorted (the last block
/// may be shorter).
pub open spec fn blocks_sorted(s: Seq<i32>, w: int) -> bool {
    forall|b: int|
        0 <= b < s.len() && b % w == 0 ==> #[trigger] sorted_between(
            s,
            b,
            min2(b + w, s.len() as int),
        )
}

/// Two aligned block starts are at least one block apart.
proof fn lemma_block_gap(s: int, i: int, m: int)
    requires
        m > 0,
        0 <= s < i,
        s % m == 0,
        i % m == 0,
    ensures
        s + m <= i,
{
    vstd::arithmetic::div_mod::lemma_fundamental_div_mod(s, m);
    vstd::arithmetic::div_mod::lemma_fundamental_div_mod(i, m);
    let a = s / m;
    let b = i / m;
    assert(a < b) by (nonlinear_arith)
        requires
            m > 0,
            s == m * a,
            i == m * b,
            s < i,
    ;
    assert(m * (a + 1) <= m * b) by (nonlinear_arith)
        requires
            m > 0,
            a + 1 <= b,
    ;
    assert(s + m == m * (a + 1)) by (nonlinear_arith)
        requires
            s == m * a,
    ;
}

/// A start aligned to a doubled block is aligned to the single block too.
proof fn lemma_block_align(i: int, w: int)
    requires
        w > 0,
        0 <= i,
        i % (2 * w) == 0,
    ensures
        i % w == 0,
        (i + w) % w == 0,
        (i + 2 * w) % (2 * w) == 0,
{
    vstd::arithmetic::div_mod::lemma_fundamental_div_mod(i, 2 * w);
    let k = i / (2 * w);
    assert(i == w * (2 * k)) by (nonlinear_arith)
        requires
            i == (2 * w) * k,
    ;
    vstd::arithmetic::div_mod::lemma_mod_multiples_basic(2 * k, w);
    vstd::arithmetic::div_mod::lemma_mod_multiples_basic(2 * k + 1, w);
    assert(i + w == w * (2 * k + 1)) by (nonlinear_arith)
        requires
            i == w * (2 * k),
    ;
    vstd::arithmetic::div_mod::lemma_mod_multiples_basic(k + 1, 2 * w);
    assert(i + 2 * w == (2 * w) * (k + 1)) by (nonlinear_arith)
        requires
            i == (2 * w) * k,
    ;
}

/// Patching a window with a permutation of itself keeps the whole multiset.
proof fn lemma_multiset_patch(s1: Seq<i32>, s2: Seq<i32>, lo: int, hi: int)
    requires
        s1.len() == s2.len(),
        0 <= lo <= hi <= s1.len(),
        crate::sorting::same_outside(s1, s2, lo, hi),
        s1.subrange(lo, hi).to_multiset() == s2.subrange(lo, hi).to_multiset(),
    ensures
        s1.to_multiset() == s2.to_multiset(),
{
    broadcast use vstd::seq_lib::group_to_multiset_ensures;

    let pre1 = s1.subrange(0, lo);
    let mid1 = s1.subrange(lo, hi);
    let suf1 = s1.subrange(hi, s1.len() as int);
    let pre2 = s2.subrange(0, lo);
    let mid2 = s2.subrange(lo, hi);
    let suf2 = s2.subrange(hi, s2.len() as int);
    assert(pre1 =~= pre2);
    assert(suf1 =~= suf2);
    assert(s1 =~= (pre1 + mid1) + suf1);
    assert(s2 =~= (pre2 + mid2) + suf2);
    vstd::seq_lib::lemma_multiset_commutative(pre1 + mid1, suf1);
    vstd::seq_lib::lemma_multiset_commutative(pre1, mid1);
    vstd::seq_lib::lemma_multiset_commutative(pre2 + mid2, suf2);
    vstd::seq_lib::lemma_multiset_commutative(pre2, mid2);
    assert(s1.to_multiset() =~= s2.to_multiset()) by {
        assert forall|x: i32| #[trigger]
            s1.to_multiset().count(x) == s2.to_multiset().count(x) by {
            assert(s1.to_multiset().count(x) == pre1.to_multiset().count(x)
                + mid1.to_multiset().count(x) + suf1.to_multiset().count(x));
            assert(s2.to_multiset().count(x) == pre2.to_multiset().count(x)
                + mid2.to_multiset().count(x) + suf2.to_multiset().count(x));
        }
    }
}

/// Mergesort, bottom-up: merges adjacent sorted runs of doubling width until
/// one run covers the whole vector.
pub fn mergesort_bottom_up(arr: &mut Vec<i32>)
    requires
        old(arr)@.len() <= usize::MAX / 4,
    ensures
        sorted(final(arr)@),
        final(arr)@.to_multiset() == old(arr)@.to_multiset(),
{
    broadcast use vstd::seq_lib::group_to_multiset_ensures;

    let len = arr.len();
    let mut width: usize = 1;
    while width < len
        invariant
            len == arr@.len(),
            len <= usize::MAX / 4,
            1 <= width,
            arr@.to_multiset() == old(arr)@.to_multiset(),
            blocks_sorted(arr@, width as int),
        decreases 2 * len - width,
    {
        let mut i: usize = 0;
        while i < len
            invariant
                len == arr@.len(),
                len <= usize::MAX / 4,
                1 <= width < len,
                i <= len + 2 * width,
                (i as int) % (2 * width as int) == 0,
                arr@.to_multiset() == old(arr)@.to_multiset(),
                forall|b: int|
                    0 <= b < i && b < len && b % (2 * width as int) == 0
                        ==> #[trigger] sorted_between(arr@, b, min2(b + 2 * width, len as int)),
                forall|b: int|
                    i <= b < len && b % (width as int) == 0 ==> #[trigger] sorted_between(
                        arr@,
                        b,
                        min2(b + width, len as int),
                    ),
            decreases len + 2 * width - i,
        {
            let ghost pre = arr@;
            let mid = if i + width < len {
                i + width
            } else {
                len
            };
            let upper = if i + 2 * width < len {
                i + 2 * width
            } else {
                len
            };
            proof {
                lemma_block_align(i as int, width as int);
            }
            let left = vstd::slice::slice_to_vec(&arr.as_slice()[i..mid]);
            let right = vstd::slice::slice_to_vec(&arr.as_slice()[mid..upper]);
            proof {
                assert(left@ =~= arr@.subrange(i as int, mid as int));
                assert(right@ =~= arr@.subrange(mid as int, upper as int));
                assert forall|a2: int, b2: int| 0 <= a2 <= b2 < left@.len() implies left@[a2]
                    <= left@[b2] by {
                    assert(sorted_between(arr@, i as int, min2(i + width, len as int)));
                    assert(left@[a2] == arr@[i + a2]);
                    assert(left@[b2] == arr@[i + b2]);
                }
                assert forall|a2: int, b2: int| 0 <= a2 <= b2 < right@.len() implies right@[a2]
                    <= right@[b2] by {
                    if mid < upper {
                        assert(sorted_between(arr@, mid as int, min2(mid + width, len as int)));
                        assert(right@[a2] == arr@[mid + a2]);
                        assert(right@[b2] == arr@[mid + b2]);
                    }
                }
            }
            let merged = merge(&left, &right);
            proof {
                vstd::seq_lib::lemma_multiset_commutative(left@, right@);
                assert(left@ + right@ =~= pre.subrange(i as int, upper as int));
                crate::sorting::lemma_multiset_len(merged@, left@ + right@);
            }
            let mlen = merged.len();
            let mut k: usize = 0;
            while k < mlen
                invariant
                    len == arr@.len(),
                    i < len,
                    i + mlen == upper <= len,
                    mlen == merged@.len(),
                    k <= mlen,
                    forall|t: int| 0 <= t < i + k && i <= t ==> arr@[t] == merged@[t - i],
                    forall|t: int| 0 <= t < len && !(i <= t < i + k) ==> arr@[t] == pre[t],
                decreases mlen - k,
            {
                arr[i + k] = merged[k];
                k += 1;
            }
            proof {
                // the window now holds the merged run; everything else is as
                // before
                assert(arr@.subrange(i as int, upper as int) =~= merged@);
                lemma_multiset_patch(pre, arr@, i as int, upper as int);
                // the prefix gains one sorted block of doubled width
                assert forall|b: int|
                    0 <= b < i + 2 * width && b < len && b % (2 * width as int)
                        == 0 implies #[trigger] sorted_between(
                    arr@,
                    b,
                    min2(b + 2 * width, len as int),
                ) by {
                    if b < i {
                        lemma_block_gap(b, i as int, 2 * width as int);
                        assert(b + 2 * (width as int) <= i);
                        assert(sorted_between(pre, b, min2(b + 2 * width, len as int)));
                        assert forall|a2: int, b2: int|
                            b <= a2 <= b2 < min2(b + 2 * width, len as int) implies arr@[a2]
                            <= arr@[b2] by {
                            assert(0 <= a2 < i && 0 <= b2 < i);
                            assert(arr@[a2] == pre[a2]);
                            assert(arr@[b2] == pre[b2]);
                        }
                    } else {
                        if b > i {
                            lemma_block_gap(i as int, b, 2 * width as int);
                            assert(false);
                        }
                        assert(b == i);
                        assert forall|a2: int, b2: int|
                            i <= a2 <= b2 < upper implies arr@[a2] <= arr@[b2] by {
                            assert(arr@[a2] == merged@[a2 - i]);
                            assert(arr@[b2] == merged@[b2 - i]);
                        }
                    }
                }
                // the untouched single-width blocks beyond the window survive
                assert forall|b: int|
                    i + 2 * width <= b < len && b % (width as int)
                        == 0 implies #[trigger] sorted_between(
                    arr@,
                    b,
                    min2(b + width, len as int),
                ) by {
                    assert(sorted_between(pre, b, min2(b + width, len as int)));
                    assert forall|a2: int, b2: int|
                        b <= a2 <= b2 < min2(b + width, len as int) implies arr@[a2] <= arr@[b2] by {
                        assert(arr@[a2] == pre[a2]);
                        assert(arr@[b2] == pre[b2]);
                    }
                }
            }
            i += 2 * width;
        }
        proof {
            assert forall|b: int|
                0 <= b < len && b % (2 * width as int) == 0 implies #[trigger] sorted_between(
                arr@,
                b,
                min2(b + 2 * width, len as int),
            ) by {
                assert(b < i);
            }
        }
        width *= 2;
    }
    proof {
        if len > 0 {
            assert(0int % (width as int) == 0) by (nonlinear_arith)
                requires
                    width >= 1,
            ;
            assert(sorted_between(arr@, 0, min2(0 + width, len as int)));
            assert(min2(0 + width, len as int) == len);
        }
        crate::sorting::lemma_multiset_len(arr@, old(arr)@);
    }
}

/// Recursive mergesort: the same top-down scheme as [`mergesort`].
pub fn mergesort_recursive(arr: &mut Vec<i32>)
    ensures
        sorted(final(arr)@),
        final(arr)@.to_multiset() == old(arr)@.to_multiset(),
    decreases old(arr)@.len(),
{
    let n = arr.len();
    let mid = n / 2;
    if mid == 0 {
        return ;
    }
    let mut right = arr.split_off(mid);
    proof {
        assert(old(arr)@ =~= arr@ + right@);
        vstd::seq_lib::lemma_multiset_commutative(arr@, right@);
    }
    mergesort_recursive(arr);
    mergesort_recursive(&mut right);
    let merged = merge(arr, &right);
    *arr = merged;
    proof {
        lemma_multiset_len(arr@, old(arr)@);
    }
}

} // verus!
