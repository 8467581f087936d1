//! Interpolation search.

use vstd::prelude::*;

verus! {

/// The elements of `s` are in strictly ascending order.
pub open spec fn strictly_sorted(s: Seq<i32>) -> bool {
    forall|i: int, j: int| 0 <= i < j < s.len() ==> s[i] < s[j]
}

/// Interpolation search over a strictly ascending slice: probes the position
/// a linear interpolation of the key suggests, and narrows the window around
/// it. Returns the position of the matching element, or the insertion point
/// that would keep the slice sorted.
pub fn interpolation_search(arr: &[i32], target: &i32) -> (r: Result<usize, usize>)
    requires
        strictly_sorted(arr@),
    ensures
        match r {
            Ok(pos) => pos < arr@.len() && arr@[pos as int] == *target,
            Err(pos) => pos <= arr@.len() && (forall|k: int| 0 <= k < pos ==> arr@[k] < *target)
                && (forall|k: int| pos <= k < arr@.len() ==> arr@[k] > *target),
        },
{
    if arr.is_empty() {
        return Err(0);
    }
    let mut hi = arr.len() - 1;
    let mut lo: usize = 0;
    let mut interpolant: usize = 0;

    loop
        invariant
            strictly_sorted(arr@),
            arr@.len() > 0,
            lo < arr@.len(),
            hi < arr@.len(),
            interpolant < arr@.len(),
            forall|k: int| 0 <= k < lo ==> arr@[k] < *target,
            forall|k: int| hi < k < arr@.len() ==> arr@[k] > *target,
            hi <= lo ==> (*target != arr@[lo as int] || interpolant == lo),
        ensures
            lo < arr@.len(),
            hi < arr@.len(),
            interpolant < arr@.len(),
            forall|k: int| 0 <= k < lo ==> arr@[k] < *target,
            forall|k: int| hi < k < arr@.len() ==> arr@[k] > *target,
            hi <= lo ==> (*target != arr@[lo as int] || interpolant == lo),
            arr@[interpolant as int] == *target || hi <= lo || *target < arr@[lo as int] || *target
                > arr@[hi as int],
        decreases hi + 1 - lo,
    {
        let lo_val = arr[lo];
        let hi_val = arr[hi];

        if hi <= lo || *target < lo_val || *target > hi_val {
            break ;
        }
        // here lo < hi, so the strictly ascending keys give lo_val < hi_val
        proof {
            assert(arr@[lo as int] < arr@[hi as int]);
        }
        proof {
            let a = *target as int - lo_val as int;
            let b = hi as int - lo as int;
            vstd::arithmetic::mul::lemma_mul_nonnegative(a, b);
            vstd::arithmetic::mul::lemma_mul_upper_bound(
                a,
                0x1_0000_0000,
                b,
                0xffff_ffff_ffff_ffff,
            );
        }
        let num = (*target as i128 - lo_val as i128) * ((hi - lo) as i128);
        let den = hi_val as i128 - lo_val as i128;
        let offset = num / den;
        proof {
            assert(0 <= offset <= hi - lo) by (nonlinear_arith)
                requires
                    num == (*target - lo_val) as i128 * ((hi - lo) as i128),
                    den == (hi_val - lo_val) as i128,
                    offset == num / den,
                    lo_val <= *target <= hi_val,
                    lo < hi,
                    lo_val < hi_val,
            ;
            assert(*target == hi_val ==> offset == hi - lo) by (nonlinear_arith)
                requires
                    num == (*target - lo_val) as i128 * ((hi - lo) as i128),
                    den == (hi_val - lo_val) as i128,
                    offset == num / den,
                    lo < hi,
                    lo_val < hi_val,
            ;
            assert(*target == lo_val ==> offset == 0) by (nonlinear_arith)
                requires
                    num == (*target - lo_val) as i128 * ((hi - lo) as i128),
                    den == (hi_val - lo_val) as i128,
                    offset == num / den,
                    lo < hi,
                    lo_val < hi_val,
                    lo_val <= *target,
            ;
        }
        interpolant = lo + (offset as usize);

        let mid_val = arr[interpolant];

        if mid_val > *target {
            proof {
                // the probe sits strictly above lo, else its key could not
                // exceed a target that is at least the key at lo
                assert(interpolant > lo);
            }
            hi = interpolant - 1;
            proof {
                if hi <= lo {
                    assert(interpolant == lo + 1);
                    if *target == arr@[lo as int] {
                        assert(offset >= 1);
                        assert(false);
                    }
                }
            }
        } else if mid_val < *target {
            proof {
                // the probe sits strictly below hi, else its key could not
                // fall short of a target that is at most the key at hi
                assert(interpolant < hi);
            }
            lo = interpolant + 1;
            proof {
                if hi <= lo {
                    assert(interpolant + 1 == hi);
                    if *target == arr@[hi as int] {
                        assert(offset == hi - 1 - lo + 1);
                        assert(false);
                    }
                }
            }
        } else {
            break ;
        }
    }

    if *target > arr[hi] {
        proof {
            assert forall|k: int| 0 <= k < hi + 1 implies arr@[k] < *target by {
                if k < hi {
                    assert(arr@[k] < arr@[hi as int]);
                }
            }
        }
        Err(hi + 1)
    } else if *target < arr[lo] {
        proof {
            assert forall|k: int| lo <= k < arr@.len() implies arr@[k] > *target by {
                if k > lo {
                    assert(arr@[lo as int] < arr@[k]);
                }
            }
        }
        Err(lo)
    } else {
        proof {
            if !(arr@[interpolant as int] == *target) {
                assert(hi <= lo);
                if hi < lo {
                    assert(arr@[hi as int] < arr@[lo as int]);
                    assert(false);
                }
                assert(hi == lo);
                assert(*target == arr@[lo as int]);
                assert(interpolant == lo);
                assert(false);
            }
        }
        Ok(interpolant)
    }
}

} // verus!
