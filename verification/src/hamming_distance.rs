//! Hamming distance for machine words and for strings.

use vstd::prelude::*;
use vstd::std_specs::iter::IteratorSpec;

verus! {

broadcast use vstd::string::next_postcondition, vstd::string::axiom_spec_iter;

/// Number of set bits in `x`.
pub open spec fn popcount(x: u64) -> nat
    decreases x,
{
    if x == 0 {
        0
    } else {
        ((x % 2) + popcount(x / 2)) as nat
    }
}

/// Collects the characters of a string.
pub(crate) fn chars_vec(s: &str) -> (r: Vec<char>)
    ensures
        r@ == s@,
{
    let mut out: Vec<char> = Vec::new();
    let mut it = s.chars();
    loop
        invariant
            it.obeys_prophetic_iter_laws(),
            it.decrease() is Some,
            out@ + it.remaining() == s@,
        ensures
            it.remaining().len() == 0,
            out@ + it.remaining() == s@,
        decreases it.decrease()->0,
    {
        match it.next() {
            Some(c) => {
                out.push(c);
                proof {
                    assert(out@ + it.remaining() =~= s@);
                }
            },
            None => {
                break ;
            },
        }
    }
    proof {
        assert(out@ =~= s@);
    }
    out
}

/// Hamming distance of two unsigned integers: the number of bit positions at
/// which they differ.
pub fn hamming_distance(source: u64, target: u64) -> (r: u32)
    ensures
        r == popcount(source ^ target),
{
    let mut count: u64 = 0;
    let mut xor = source ^ target;
    proof {
        assert(xor < vstd::arithmetic::power2::pow2(64)) by {
            vstd::arithmetic::power2::lemma2_to64();
            vstd::arithmetic::power2::lemma2_to64_rest();
        }
        lemma_popcount_bound(xor, 64);
    }
    while xor != 0
        invariant
            count + popcount(xor) == popcount(source ^ target),
            popcount(source ^ target) <= 64,
        decreases xor,
    {
        proof {
            assert((xor & 1) == xor % 2) by (bit_vector);
            assert((xor >> 1u64) == xor / 2) by (bit_vector);
        }
        count += xor & 1;
        xor >>= 1u64;
    }
    count as u32
}

/// The number of set bits of a value below `pow2(w)` is at most `w`.
proof fn lemma_popcount_bound(x: u64, w: nat)
    requires
        x < vstd::arithmetic::power2::pow2(w),
    ensures
        popcount(x) <= w,
    decreases w,
{
    vstd::arithmetic::power2::lemma_pow2_pos(w);
    if x > 0 {
        assert(w > 0) by {
            if w == 0 {
                vstd::arithmetic::power2::lemma2_to64();
            }
        }
        assert(vstd::arithmetic::power2::pow2(w) == 2 * vstd::arithmetic::power2::pow2(
            (w - 1) as nat,
        )) by {
            vstd::arithmetic::power2::lemma_pow2_unfold(w);
        }
        lemma_popcount_bound(x / 2, (w - 1) as nat);
    }
}

/// Number of positions at which two equal-length character sequences differ.
pub open spec fn char_mismatches(s: Seq<char>, t: Seq<char>) -> nat
    decreases s.len(),
{
    if s.len() == 0 || t.len() == 0 {
        0
    } else {
        char_mismatches(s.drop_last(), t.drop_last()) + if s.last() == t.last() {
            0nat
        } else {
            1nat
        }
    }
}

/// Hamming distance of two equal-length strings: the number of positions at
/// which their characters differ.
pub fn hamming_distance_str(source: &str, target: &str) -> (r: usize)
    requires
        source@.len() == target@.len(),
    ensures
        r == char_mismatches(source@, target@),
{
    let s = chars_vec(source);
    let t = chars_vec(target);
    let mut count: usize = 0;
    let len = s.len();
    let mut i: usize = 0;
    proof {
        lemma_char_mismatches_bound(source@, target@);
    }
    while i < len
        invariant
            len == s@.len() == t@.len(),
            s@ == source@,
            t@ == target@,
            i <= len,
            count == char_mismatches(source@.take(i as int), target@.take(i as int)),
            count <= i,
        decreases len - i,
    {
        if s[i] != t[i] {
            count += 1;
        }
        proof {
            assert(source@.take(i + 1).drop_last() =~= source@.take(i as int));
            assert(target@.take(i + 1).drop_last() =~= target@.take(i as int));
            assert(source@.take(i + 1).last() == source@[i as int]);
            assert(target@.take(i + 1).last() == target@[i as int]);
        }
        i += 1;
    }
    proof {
        assert(source@.take(len as int) =~= source@);
        assert(target@.take(len as int) =~= target@);
    }
    count
}

/// The mismatch count never exceeds the length.
proof fn lemma_char_mismatches_bound(s: Seq<char>, t: Seq<char>)
    ensures
        char_mismatches(s, t) <= s.len(),
    decreases s.len(),
{
    if s.len() > 0 && t.len() > 0 {
        lemma_char_mismatches_bound(s.drop_last(), t.drop_last());
    }
}

} // verus!
