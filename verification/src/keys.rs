//! Key traits shared by the ordered and hashed containers.
//!
//! `TotalOrder` equips a key type with a specification-level total order and an
//! executable three-way comparison. Two keys may be *equivalent* (ordered both
//! ways) without being equal at the specification level — strings compared by
//! their character views are an example — so the containers treat equivalence,
//! not equality, as "same key". `HashKey` plays the same role for the hashed
//! containers: an equivalence relation together with a hash that respects it.

use vstd::prelude::*;
use vstd::utf8::encode_utf8;

verus! {

/// Result of a three-way comparison between two keys.
#[derive(Clone, Copy, PartialEq, Eq, Structural, Debug)]
pub enum KeyOrdering {
    Less,
    Equal,
    Greater,
}

/// A total order on a key type: a spec-level relation `le` that is total and
/// transitive, together with an executable comparison that decides it.
pub trait TotalOrder: Sized {
    /// The ordering relation: `self` sorts no later than `other`.
    spec fn le(&self, other: &Self) -> bool;

    /// Any two keys are ordered one way or the other.
    proof fn le_total(a: &Self, b: &Self)
        ensures
            a.le(b) || b.le(a),
    ;

    /// The order is transitive.
    proof fn le_transitive(a: &Self, b: &Self, c: &Self)
        requires
            a.le(b),
            b.le(c),
        ensures
            a.le(c),
    ;

    /// Executable three-way comparison deciding `le` in both directions.
    fn compare(&self, other: &Self) -> (r: KeyOrdering)
        ensures
            r == KeyOrdering::Less ==> self.le(other) && !other.le(self),
            r == KeyOrdering::Equal ==> self.le(other) && other.le(self),
            r == KeyOrdering::Greater ==> !self.le(other) && other.le(self),
    ;
}

/// Two keys are equivalent when each sorts no later than the other.
pub open spec fn key_equiv<K: TotalOrder>(a: &K, b: &K) -> bool {
    a.le(b) && b.le(a)
}

/// Strict order: `a` sorts before `b` and they are not equivalent.
pub open spec fn key_lt<K: TotalOrder>(a: &K, b: &K) -> bool {
    a.le(b) && !b.le(a)
}

/// The strict order is transitive.
pub proof fn lemma_key_lt_transitive<K: TotalOrder>(a: &K, b: &K, c: &K)
    requires
        key_lt(a, b),
        key_lt(b, c),
    ensures
        key_lt(a, c),
{
    K::le_transitive(a, b, c);
    if c.le(a) {
        K::le_transitive(b, c, a);
    }
}

/// Replacing the right-hand key by an equivalent one keeps the strict order.
pub proof fn lemma_key_lt_equiv_right<K: TotalOrder>(a: &K, b: &K, c: &K)
    requires
        key_lt(a, b),
        key_equiv(b, c),
    ensures
        key_lt(a, c),
{
    K::le_transitive(a, b, c);
    if c.le(a) {
        K::le_transitive(b, c, a);
    }
}

/// Replacing the left-hand key by an equivalent one keeps the strict order.
pub proof fn lemma_key_lt_equiv_left<K: TotalOrder>(a: &K, b: &K, c: &K)
    requires
        key_lt(a, b),
        key_equiv(a, c),
    ensures
        key_lt(c, b),
{
    K::le_transitive(c, a, b);
    if b.le(c) {
        K::le_transitive(b, c, a);
    }
}

impl TotalOrder for i32 {
    open spec fn le(&self, other: &Self) -> bool {
        *self <= *other
    }

    proof fn le_total(a: &Self, b: &Self) {
    }

    proof fn le_transitive(a: &Self, b: &Self, c: &Self) {
    }

    fn compare(&self, other: &Self) -> (r: KeyOrdering) {
        if *self < *other {
            KeyOrdering::Less
        } else if *self == *other {
            KeyOrdering::Equal
        } else {
            KeyOrdering::Greater
        }
    }
}

impl TotalOrder for u64 {
    open spec fn le(&self, other: &Self) -> bool {
        *self <= *other
    }

    proof fn le_total(a: &Self, b: &Self) {
    }

    proof fn le_transitive(a: &Self, b: &Self, c: &Self) {
    }

    fn compare(&self, other: &Self) -> (r: KeyOrdering) {
        if *self < *other {
            KeyOrdering::Less
        } else if *self == *other {
            KeyOrdering::Equal
        } else {
            KeyOrdering::Greater
        }
    }
}

impl TotalOrder for usize {
    open spec fn le(&self, other: &Self) -> bool {
        *self <= *other
    }

    proof fn le_total(a: &Self, b: &Self) {
    }

    proof fn le_transitive(a: &Self, b: &Self, c: &Self) {
    }

    fn compare(&self, other: &Self) -> (r: KeyOrdering) {
        if *self < *other {
            KeyOrdering::Less
        } else if *self == *other {
            KeyOrdering::Equal
        } else {
            KeyOrdering::Greater
        }
    }
}

/// Lexicographic order on byte strings: the empty string sorts first, and
/// otherwise the first differing byte decides.
pub open spec fn bytes_le(a: Seq<u8>, b: Seq<u8>) -> bool
    decreases a.len(),
{
    if a.len() == 0 {
        true
    } else if b.len() == 0 {
        false
    } else if a[0] < b[0] {
        true
    } else if a[0] > b[0] {
        false
    } else {
        bytes_le(a.skip(1), b.skip(1))
    }
}

/// Dropping a common prefix does not change how two byte strings compare.
pub proof fn lemma_bytes_le_skip(a: Seq<u8>, b: Seq<u8>, i: int)
    requires
        0 <= i <= a.len(),
        i <= b.len(),
        forall|j: int| 0 <= j < i ==> a[j] == b[j],
    ensures
        bytes_le(a, b) == bytes_le(a.skip(i), b.skip(i)),
    decreases i,
{
    if i > 0 {
        assert(a[0] == b[0]);
        assert(forall|j: int| 0 <= j < i - 1 ==> a.skip(1)[j] == b.skip(1)[j]) by {
            assert(forall|j: int|
                0 <= j < i - 1 ==> a.skip(1)[j] == a[j + 1] && b.skip(1)[j] == b[j + 1]);
        }
        lemma_bytes_le_skip(a.skip(1), b.skip(1), i - 1);
        assert(a.skip(1).skip(i - 1) =~= a.skip(i));
        assert(b.skip(1).skip(i - 1) =~= b.skip(i));
    } else {
        assert(a.skip(0) =~= a);
        assert(b.skip(0) =~= b);
    }
}

/// The lexicographic order is total.
pub proof fn lemma_bytes_le_total(a: Seq<u8>, b: Seq<u8>)
    ensures
        bytes_le(a, b) || bytes_le(b, a),
    decreases a.len(),
{
    if a.len() > 0 && b.len() > 0 && a[0] == b[0] {
        lemma_bytes_le_total(a.skip(1), b.skip(1));
    }
}

/// The lexicographic order is transitive.
pub proof fn lemma_bytes_le_transitive(a: Seq<u8>, b: Seq<u8>, c: Seq<u8>)
    requires
        bytes_le(a, b),
        bytes_le(b, c),
    ensures
        bytes_le(a, c),
    decreases a.len(),
{
    if a.len() > 0 && b.len() > 0 && c.len() > 0 && a[0] == b[0] && b[0] == c[0] {
        lemma_bytes_le_transitive(a.skip(1), b.skip(1), c.skip(1));
    }
}

/// Executable lexicographic comparison of two byte slices, deciding `bytes_le`.
pub fn bytes_compare(a: &[u8], b: &[u8]) -> (r: KeyOrdering)
    ensures
        r == KeyOrdering::Less ==> bytes_le(a@, b@) && !bytes_le(b@, a@),
        r == KeyOrdering::Equal ==> a@ == b@,
        r == KeyOrdering::Greater ==> !bytes_le(a@, b@) && bytes_le(b@, a@),
{
    let len_a = a.len();
    let len_b = b.len();
    let mut i: usize = 0;
    while i < len_a && i < len_b
        invariant
            i <= len_a,
            i <= len_b,
            len_a == a@.len(),
            len_b == b@.len(),
            forall|j: int| 0 <= j < i ==> a@[j] == b@[j],
        decreases len_a - i,
    {
        let x = a[i];
        let y = b[i];
        if x < y {
            proof {
                lemma_bytes_le_skip(a@, b@, i as int);
                lemma_bytes_le_skip(b@, a@, i as int);
            }
            return KeyOrdering::Less;
        }
        if x > y {
            proof {
                lemma_bytes_le_skip(a@, b@, i as int);
                lemma_bytes_le_skip(b@, a@, i as int);
            }
            return KeyOrdering::Greater;
        }
        i += 1;
    }
    proof {
        lemma_bytes_le_skip(a@, b@, i as int);
        lemma_bytes_le_skip(b@, a@, i as int);
    }
    if len_a == len_b {
        proof {
            assert(a@ =~= b@);
        }
        KeyOrdering::Equal
    } else if len_a < len_b {
        KeyOrdering::Less
    } else {
        KeyOrdering::Greater
    }
}

/// A hashable key: an equivalence relation together with a 64-bit hash that
/// respects it. The hashed containers treat `keq`-related keys as the same
/// key.
pub trait HashKey: Sized {
    /// Key equivalence.
    spec fn keq(&self, other: &Self) -> bool;

    /// The key's hash value.
    spec fn hash_spec(&self) -> u64;

    proof fn keq_reflexive(a: &Self)
        ensures
            a.keq(a),
    ;

    proof fn keq_symmetric(a: &Self, b: &Self)
        ensures
            a.keq(b) == b.keq(a),
    ;

    proof fn keq_transitive(a: &Self, b: &Self, c: &Self)
        requires
            a.keq(b),
            b.keq(c),
        ensures
            a.keq(c),
    ;

    /// Equivalent keys hash alike.
    proof fn hash_respects_keq(a: &Self, b: &Self)
        requires
            a.keq(b),
        ensures
            a.hash_spec() == b.hash_spec(),
    ;

    /// Computes the hash.
    fn hash_key(&self) -> (h: u64)
        ensures
            h == self.hash_spec(),
    ;

    /// Decides the equivalence.
    fn key_eq(&self, other: &Self) -> (r: bool)
        ensures
            r == self.keq(other),
    ;
}

/// The 64-bit FNV-1a hash of a byte string.
pub open spec fn fnv1a(bytes: Seq<u8>) -> u64
    decreases bytes.len(),
{
    if bytes.len() == 0 {
        0xcbf29ce484222325u64
    } else {
        (fnv1a(bytes.drop_last()) ^ (bytes.last() as u64)).wrapping_mul(0x100000001b3u64)
    }
}

/// Computes the 64-bit FNV-1a hash of a byte slice.
pub fn fnv1a_hash(bytes: &[u8]) -> (h: u64)
    ensures
        h == fnv1a(bytes@),
{
    let mut h: u64 = 0xcbf29ce484222325;
    let len = bytes.len();
    let mut i: usize = 0;
    while i < len
        invariant
            len == bytes@.len(),
            i <= len,
            h == fnv1a(bytes@.take(i as int)),
        decreases len - i,
    {
        h = (h ^ (bytes[i] as u64)).wrapping_mul(0x100000001b3);
        proof {
            assert(bytes@.take(i + 1).drop_last() =~= bytes@.take(i as int));
            assert(bytes@.take(i + 1).last() == bytes@[i as int]);
        }
        i += 1;
    }
    proof {
        assert(bytes@.take(len as int) =~= bytes@);
    }
    h
}

impl HashKey for i32 {
    open spec fn keq(&self, other: &Self) -> bool {
        *self == *other
    }

    open spec fn hash_spec(&self) -> u64 {
        (*self as i64) as u64
    }

    proof fn keq_reflexive(a: &Self) {
    }

    proof fn keq_symmetric(a: &Self, b: &Self) {
    }

    proof fn keq_transitive(a: &Self, b: &Self, c: &Self) {
    }

    proof fn hash_respects_keq(a: &Self, b: &Self) {
    }

    fn hash_key(&self) -> (h: u64) {
        #[verifier::truncate]
        ((*self as i64) as u64)
    }

    fn key_eq(&self, other: &Self) -> (r: bool) {
        *self == *other
    }
}

impl HashKey for u64 {
    open spec fn keq(&self, other: &Self) -> bool {
        *self == *other
    }

    open spec fn hash_spec(&self) -> u64 {
        *self
    }

    proof fn keq_reflexive(a: &Self) {
    }

    proof fn keq_symmetric(a: &Self, b: &Self) {
    }

    proof fn keq_transitive(a: &Self, b: &Self, c: &Self) {
    }

    proof fn hash_respects_keq(a: &Self, b: &Self) {
    }

    fn hash_key(&self) -> (h: u64) {
        *self
    }

    fn key_eq(&self, other: &Self) -> (r: bool) {
        *self == *other
    }
}

impl HashKey for String {
    open spec fn keq(&self, other: &Self) -> bool {
        encode_utf8(self@) == encode_utf8(other@)
    }

    open spec fn hash_spec(&self) -> u64 {
        fnv1a(encode_utf8(self@))
    }

    proof fn keq_reflexive(a: &Self) {
    }

    proof fn keq_symmetric(a: &Self, b: &Self) {
    }

    proof fn keq_transitive(a: &Self, b: &Self, c: &Self) {
    }

    proof fn hash_respects_keq(a: &Self, b: &Self) {
    }

    fn hash_key(&self) -> (h: u64) {
        fnv1a_hash(self.as_str().as_bytes())
    }

    fn key_eq(&self, other: &Self) -> (r: bool) {
        let r = crate::keys::bytes_compare(self.as_str().as_bytes(), other.as_str().as_bytes());
        proof {
            if encode_utf8(self@) == encode_utf8(other@) {
                lemma_bytes_le_total(encode_utf8(self@), encode_utf8(other@));
            }
            if r == KeyOrdering::Less || r == KeyOrdering::Greater {
                if encode_utf8(self@) == encode_utf8(other@) {
                    assert(false);
                }
            }
        }
        match r {
            KeyOrdering::Equal => true,
            _ => false,
        }
    }
}

impl<'a> HashKey for &'a str {
    open spec fn keq(&self, other: &Self) -> bool {
        encode_utf8(self@) == encode_utf8(other@)
    }

    open spec fn hash_spec(&self) -> u64 {
        fnv1a(encode_utf8(self@))
    }

    proof fn keq_reflexive(a: &Self) {
    }

    proof fn keq_symmetric(a: &Self, b: &Self) {
    }

    proof fn keq_transitive(a: &Self, b: &Self, c: &Self) {
    }

    proof fn hash_respects_keq(a: &Self, b: &Self) {
    }

    fn hash_key(&self) -> (h: u64) {
        fnv1a_hash(self.as_bytes())
    }

    fn key_eq(&self, other: &Self) -> (r: bool) {
        let r = crate::keys::bytes_compare(self.as_bytes(), other.as_bytes());
        proof {
            if encode_utf8(self@) == encode_utf8(other@) {
                lemma_bytes_le_total(encode_utf8(self@), encode_utf8(other@));
            }
            if r == KeyOrdering::Less || r == KeyOrdering::Greater {
                if encode_utf8(self@) == encode_utf8(other@) {
                    assert(false);
                }
            }
        }
        match r {
            KeyOrdering::Equal => true,
            _ => false,
        }
    }
}

impl TotalOrder for String {
    open spec fn le(&self, other: &Self) -> bool {
        bytes_le(encode_utf8(self@), encode_utf8(other@))
    }

    proof fn le_total(a: &Self, b: &Self) {
        lemma_bytes_le_total(encode_utf8(a@), encode_utf8(b@));
    }

    proof fn le_transitive(a: &Self, b: &Self, c: &Self) {
        lemma_bytes_le_transitive(encode_utf8(a@), encode_utf8(b@), encode_utf8(c@));
    }

    fn compare(&self, other: &Self) -> (r: KeyOrdering) {
        let r = bytes_compare(self.as_str().as_bytes(), other.as_str().as_bytes());
        proof {
            if r == KeyOrdering::Equal {
                lemma_bytes_le_total(encode_utf8(self@), encode_utf8(self@));
            }
        }
        r
    }
}

impl<'a> TotalOrder for &'a str {
    open spec fn le(&self, other: &Self) -> bool {
        bytes_le(encode_utf8(self@), encode_utf8(other@))
    }

    proof fn le_total(a: &Self, b: &Self) {
        lemma_bytes_le_total(encode_utf8(a@), encode_utf8(b@));
    }

    proof fn le_transitive(a: &Self, b: &Self, c: &Self) {
        lemma_bytes_le_transitive(encode_utf8(a@), encode_utf8(b@), encode_utf8(c@));
    }

    fn compare(&self, other: &Self) -> (r: KeyOrdering) {
        let r = bytes_compare(self.as_bytes(), other.as_bytes());
        proof {
            if r == KeyOrdering::Equal {
                lemma_bytes_le_total(encode_utf8(self@), encode_utf8(self@));
            }
        }
        r
    }
}

} // verus!
