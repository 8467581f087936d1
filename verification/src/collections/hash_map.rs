//! A hash map with separate chaining, backed by a vector of bucket vectors.

use crate::keys::HashKey;
use vstd::prelude::*;

verus! {

/// A hash map storing each entry in the bucket its key hashes to. Two keys
/// are treated as the same key when they are `keq`-equivalent.
pub struct HashMap<K, V> {
    buckets: Vec<Vec<(K, V)>>,
    len: usize,
}

/// Total number of entries across all buckets.
pub open spec fn buckets_total<K, V>(bs: Seq<Vec<(K, V)>>) -> nat
    decreases bs.len(),
{
    if bs.len() == 0 {
        0
    } else {
        buckets_total(bs.drop_last()) + bs.last()@.len()
    }
}

/// Whether `(bi, ei)` names an entry of the bucket sequence.
pub open spec fn seq_valid<K, V>(bs: Seq<Vec<(K, V)>>, bi: int, ei: int) -> bool {
    0 <= bi < bs.len() && 0 <= ei < bs[bi]@.len()
}

/// The entry at bucket `bi`, position `ei`.
pub open spec fn seq_entry<K, V>(bs: Seq<Vec<(K, V)>>, bi: int, ei: int) -> (K, V) {
    bs[bi]@[ei]
}

/// Whether some entry's key is equivalent to `k`.
pub open spec fn seq_has_key<K: HashKey, V>(bs: Seq<Vec<(K, V)>>, k: &K) -> bool {
    exists|bi: int, ei: int| seq_valid(bs, bi, ei) && seq_entry(bs, bi, ei).0.keq(k)
}

/// The value stored under a key equivalent to `k`, if any.
pub open spec fn seq_get<K: HashKey, V>(bs: Seq<Vec<(K, V)>>, k: &K) -> Option<V> {
    if seq_has_key(bs, k) {
        let (bi, ei) = choose|bi: int, ei: int|
            seq_valid(bs, bi, ei) && seq_entry(bs, bi, ei).0.keq(k);
        Some(seq_entry(bs, bi, ei).1)
    } else {
        None
    }
}

/// No two entries anywhere hold equivalent keys.
pub open spec fn seq_distinct<K: HashKey, V>(bs: Seq<Vec<(K, V)>>) -> bool {
    forall|b1: int, e1: int, b2: int, e2: int|
        seq_valid(bs, b1, e1) && seq_valid(bs, b2, e2) && (b1 != b2 || e1 != e2) ==> !(
        #[trigger] seq_entry(bs, b1, e1)).0.keq(&(#[trigger] seq_entry(bs, b2, e2)).0)
}

/// Where a surviving bucket entry sat before a removal that moved the last
/// entry of the bucket into position `ei`.
pub open spec fn origin_of(b: int, e: int, bi: int, ei: int, olast: int) -> int {
    if b == bi && e == ei {
        olast
    } else {
        e
    }
}

/// The entry of `src` at `(b, e)` also appears somewhere in `dst`.
pub open spec fn traces_to<K, V>(
    src: Seq<Vec<(K, V)>>,
    dst: Seq<Vec<(K, V)>>,
    b: int,
    e: int,
) -> bool {
    exists|b2: int, e2: int|
        seq_valid(dst, b2, e2) && #[trigger] seq_entry(dst, b2, e2) == seq_entry(src, b, e)
}

/// Changing one bucket changes the total by the difference in bucket length.
proof fn lemma_buckets_total_update<K, V>(bs: Seq<Vec<(K, V)>>, i: int, b: Vec<(K, V)>)
    requires
        0 <= i < bs.len(),
    ensures
        buckets_total(bs.update(i, b)) + bs[i]@.len() == buckets_total(bs) + b@.len(),
    decreases bs.len(),
{
    if i == bs.len() - 1 {
        assert(bs.update(i, b).drop_last() =~= bs.drop_last());
        assert(bs.update(i, b).last() == b);
    } else {
        lemma_buckets_total_update(bs.drop_last(), i, b);
        assert(bs.update(i, b).drop_last() =~= bs.drop_last().update(i, b));
        assert(bs.update(i, b).last() == bs.last());
    }
}

/// A sequence of empty buckets holds no entries.
proof fn lemma_empty_buckets_total<K, V>(bs: Seq<Vec<(K, V)>>)
    requires
        forall|bi: int| 0 <= bi < bs.len() ==> (#[trigger] bs[bi])@.len() == 0,
    ensures
        buckets_total(bs) == 0,
    decreases bs.len(),
{
    if bs.len() > 0 {
        lemma_empty_buckets_total(bs.drop_last());
    }
}

/// In a distinct bucket sequence, two positions holding keys equivalent to
/// the same key coincide, and `seq_get` names the value at any of them.
proof fn lemma_seq_get_at<K: HashKey, V>(bs: Seq<Vec<(K, V)>>, k: &K, bi: int, ei: int)
    requires
        seq_distinct(bs),
        seq_valid(bs, bi, ei),
        seq_entry(bs, bi, ei).0.keq(k),
    ensures
        seq_has_key(bs, k),
        seq_get(bs, k) == Some(seq_entry(bs, bi, ei).1),
{
    assert(seq_has_key(bs, k));
    let (b2, e2) = choose|b2: int, e2: int|
        seq_valid(bs, b2, e2) && seq_entry(bs, b2, e2).0.keq(k);
    if b2 != bi || e2 != ei {
        let k1 = seq_entry(bs, bi, ei).0;
        let k2 = seq_entry(bs, b2, e2).0;
        K::keq_symmetric(&k2, k);
        K::keq_transitive(&k1, k, &k2);
        assert(false);
    }
}

impl<K: HashKey, V> HashMap<K, V> {
    /// The bucket a hash value selects among `nb` buckets.
    pub open spec fn spec_slot(h: u64, nb: int) -> int {
        h as int % nb
    }

    /// Whether the map holds an entry whose key is equivalent to `k`.
    pub closed spec fn spec_has_key(&self, k: &K) -> bool {
        seq_has_key(self.buckets@, k)
    }

    /// The value stored under a key equivalent to `k`, if any.
    pub closed spec fn spec_get(&self, k: &K) -> Option<V> {
        seq_get(self.buckets@, k)
    }

    /// The number of entries.
    pub closed spec fn spec_len(&self) -> nat {
        self.len as nat
    }

    /// The number of buckets.
    pub closed spec fn spec_buckets(&self) -> nat {
        self.buckets@.len()
    }

    /// Every entry sits in the bucket its key hashes to, among `nb` buckets.
    pub open spec fn placed<KK: HashKey, VV>(bs: Seq<Vec<(KK, VV)>>, nb: int) -> bool {
        forall|bi: int, ei: int|
            seq_valid(bs, bi, ei) ==> Self::spec_slot(
                (#[trigger] seq_entry(bs, bi, ei)).0.hash_spec(),
                nb,
            ) == bi
    }

    /// Structural well-formedness: the length counter matches the stored
    /// entries, every entry sits in the bucket its key hashes to, and no two
    /// entries of a bucket hold equivalent keys.
    pub closed spec fn wf(&self) -> bool {
        &&& self.len == buckets_total(self.buckets@)
        &&& HashMap::<K, V>::placed(self.buckets@, self.buckets@.len() as int)
        &&& forall|bi: int, e1: int, e2: int|
            seq_valid(self.buckets@, bi, e1) && seq_valid(self.buckets@, bi, e2) && e1 != e2 ==> !(
            #[trigger] seq_entry(self.buckets@, bi, e1)).0.keq(
                &(#[trigger] seq_entry(self.buckets@, bi, e2)).0,
            )
    }

    /// Entries of a well-formed map hold pairwise inequivalent keys.
    proof fn lemma_wf_distinct(&self)
        requires
            self.wf(),
        ensures
            seq_distinct(self.buckets@),
    {
        assert forall|b1: int, e1: int, b2: int, e2: int|
            seq_valid(self.buckets@, b1, e1) && seq_valid(self.buckets@, b2, e2) && (b1 != b2 || e1
                != e2) implies !(#[trigger] seq_entry(self.buckets@, b1, e1)).0.keq(
            &(#[trigger] seq_entry(self.buckets@, b2, e2)).0,
        ) by {
            let k1 = seq_entry(self.buckets@, b1, e1).0;
            let k2 = seq_entry(self.buckets@, b2, e2).0;
            if k1.keq(&k2) {
                K::hash_respects_keq(&k1, &k2);
                assert(b1 == b2);
                assert(false);
            }
        }
    }

    /// Creates an empty map with no buckets; the first insertion allocates.
    pub fn new() -> (r: Self)
        ensures
            r.wf(),
            r.spec_len() == 0,
            r.spec_buckets() == 0,
            forall|k: K| !r.spec_has_key(&k),
    {
        Self { buckets: Vec::new(), len: 0 }
    }

    /// Creates a map with the given number of buckets.
    pub fn with_capacity(cap: usize) -> (r: Self)
        ensures
            r.wf(),
            r.spec_len() == 0,
            r.spec_buckets() == cap,
            forall|k: K| !r.spec_has_key(&k),
    {
        let mut buckets: Vec<Vec<(K, V)>> = Vec::with_capacity(cap);
        let mut i: usize = 0;
        while i < cap
            invariant
                i <= cap,
                buckets@.len() == i,
                forall|bi: int| 0 <= bi < i ==> (#[trigger] buckets@[bi])@.len() == 0,
            decreases cap - i,
        {
            buckets.push(Vec::new());
            i += 1;
        }
        let r = Self { buckets, len: 0 };
        proof {
            lemma_empty_buckets_total(r.buckets@);
        }
        r
    }

    /// The bucket index for a key, among the current buckets.
    fn slot(&self, key: &K) -> (r: usize)
        requires
            self.spec_buckets() > 0,
        ensures
            r == Self::spec_slot(key.hash_spec(), self.spec_buckets() as int),
            r < self.spec_buckets(),
    {
        let h = key.hash_key();
        let nb = self.buckets.len();
        (h % (nb as u64)) as usize
    }

    /// Gets a reference to the value under the given key.
    pub fn get(&self, key: &K) -> (r: Option<&V>)
        requires
            self.wf(),
        ensures
            match r {
                Some(v) => self.spec_has_key(key) && Some(*v) == self.spec_get(key),
                None => !self.spec_has_key(key),
            },
    {
        if self.buckets.len() == 0 {
            return None;
        }
        let bi = self.slot(key);
        let bucket = &self.buckets[bi];
        let blen = bucket.len();
        let mut ei: usize = 0;
        while ei < blen
            invariant
                self.wf(),
                self.spec_buckets() > 0,
                bi < self.spec_buckets(),
                bi == Self::spec_slot(key.hash_spec(), self.spec_buckets() as int),
                bucket == &self.buckets@[bi as int],
                blen == bucket@.len(),
                ei <= blen,
                forall|e: int|
                    0 <= e < ei ==> !(#[trigger] seq_entry(self.buckets@, bi as int, e)).0.keq(key),
            decreases blen - ei,
        {
            if bucket[ei].0.key_eq(key) {
                proof {
                    self.lemma_wf_distinct();
                    lemma_seq_get_at(self.buckets@, key, bi as int, ei as int);
                }
                return Some(&bucket[ei].1);
            }
            ei += 1;
        }
        proof {
            if self.spec_has_key(key) {
                let (b2, e2) = choose|b2: int, e2: int|
                    seq_valid(self.buckets@, b2, e2) && seq_entry(self.buckets@, b2, e2).0.keq(key);
                K::hash_respects_keq(&seq_entry(self.buckets@, b2, e2).0, key);
                assert(b2 == bi as int);
                assert(false);
            }
        }
        None
    }

    /// Gets a mutable reference to the value under the given key. Writing
    /// through it changes that entry's value and nothing else.
    pub fn get_mut(&mut self, key: &K) -> (r: Option<&mut V>)
        requires
            old(self).wf(),
        ensures
            old(self).spec_has_key(key) ==> r.is_some(),
            old(self).spec_has_key(key) ==> Some(*r.unwrap()) == old(self).spec_get(key),
            old(self).spec_has_key(key) ==> final(self).wf(),
            old(self).spec_has_key(key) ==> final(self).spec_len() == old(self).spec_len(),
            old(self).spec_has_key(key) ==> final(self).spec_buckets() == old(self).spec_buckets(),
            old(self).spec_has_key(key) ==> final(self).spec_has_key(key),
            old(self).spec_has_key(key) ==> final(self).spec_get(key) == Some(*final(r.unwrap())),
            forall|k2: K|
                old(self).spec_has_key(key) && !k2.keq(key) ==> final(self).spec_has_key(&k2)
                    == old(self).spec_has_key(&k2) && final(self).spec_get(&k2) == old(
                    self,
                ).spec_get(&k2),
            !old(self).spec_has_key(key) ==> r.is_none() && *final(self) == *old(self),
    {
        if self.buckets.len() == 0 {
            return None;
        }
        let bi = self.slot(key);
        let blen = self.buckets[bi].len();
        let mut ei: usize = 0;
        while ei < blen
            invariant
                self.wf(),
                *self == *old(self),
                self.spec_buckets() > 0,
                bi < self.spec_buckets(),
                bi == Self::spec_slot(key.hash_spec(), self.spec_buckets() as int),
                blen == self.buckets@[bi as int]@.len(),
                ei <= blen,
                forall|e: int|
                    0 <= e < ei ==> !(#[trigger] seq_entry(self.buckets@, bi as int, e)).0.keq(key),
            decreases blen - ei,
        {
            let hit = self.buckets[bi][ei].0.key_eq(key);
            if hit {
                let ghost s0 = *self;
                proof {
                    self.lemma_wf_distinct();
                    lemma_seq_get_at(self.buckets@, key, bi as int, ei as int);
                    assert forall|s1: Self|
                        #![trigger s1.wf()]
                        #![trigger s1.spec_get(key)]
                        ({
                            &&& s1.len == s0.len
                            &&& s1.buckets@.len() == s0.buckets@.len()
                            &&& s1.buckets@ == s0.buckets@.update(
                                bi as int,
                                s1.buckets@[bi as int],
                            )
                            &&& s1.buckets@[bi as int]@ == s0.buckets@[bi as int]@.update(
                                ei as int,
                                s1.buckets@[bi as int]@[ei as int],
                            )
                            &&& s1.buckets@[bi as int]@[ei as int].0 == s0.buckets@[bi as
                                int]@[ei as int].0
                        }) implies #[trigger] s1.wf() && s1.spec_len() == s0.spec_len()
                        && s1.spec_buckets() == s0.spec_buckets() && s1.spec_get(key) == Some(
                        s1.buckets@[bi as int]@[ei as int].1,
                    ) && s1.spec_has_key(key) && (forall|k2: K|
                        !k2.keq(key) ==> s1.spec_has_key(&k2) == s0.spec_has_key(&k2)
                            && s1.spec_get(&k2) == s0.spec_get(&k2)) by {
                        Self::lemma_value_update(s0, s1, key, bi as int, ei as int);
                    }
                }
                let bucket = &mut self.buckets[bi];
                let pair = &mut bucket[ei];
                return Some(&mut pair.1);
            }
            ei += 1;
        }
        proof {
            if self.spec_has_key(key) {
                let (b2, e2) = choose|b2: int, e2: int|
                    seq_valid(self.buckets@, b2, e2) && seq_entry(self.buckets@, b2, e2).0.keq(key);
                K::hash_respects_keq(&seq_entry(self.buckets@, b2, e2).0, key);
                assert(b2 == bi as int);
                assert(false);
            }
        }
        None
    }

    /// Replacing the value at the position holding `key` preserves
    /// well-formedness and leaves every other key alone.
    proof fn lemma_value_update(s0: Self, s1: Self, key: &K, bi: int, ei: int)
        requires
            s0.wf(),
            seq_valid(s0.buckets@, bi, ei),
            seq_entry(s0.buckets@, bi, ei).0.keq(key),
            s1.len == s0.len,
            s1.buckets@.len() == s0.buckets@.len(),
            s1.buckets@ == s0.buckets@.update(bi, s1.buckets@[bi]),
            s1.buckets@[bi]@ == s0.buckets@[bi]@.update(ei, s1.buckets@[bi]@[ei]),
            s1.buckets@[bi]@[ei].0 == s0.buckets@[bi]@[ei].0,
        ensures
            s1.wf(),
            s1.spec_len() == s0.spec_len(),
            s1.spec_buckets() == s0.spec_buckets(),
            s1.spec_get(key) == Some(s1.buckets@[bi]@[ei].1),
            s1.spec_has_key(key),
            forall|k2: K|
                !k2.keq(key) ==> s1.spec_has_key(&k2) == s0.spec_has_key(&k2) && s1.spec_get(&k2)
                    == s0.spec_get(&k2),
    {
        assert(forall|b: int, e: int|
            seq_valid(s1.buckets@, b, e) == seq_valid(s0.buckets@, b, e));
        assert(forall|b: int, e: int|
            seq_valid(s1.buckets@, b, e) ==> (#[trigger] seq_entry(s1.buckets@, b, e)).0
                == seq_entry(s0.buckets@, b, e).0);
        assert(forall|b: int, e: int|
            seq_valid(s1.buckets@, b, e) && (b != bi || e != ei) ==> (#[trigger] seq_entry(
                s1.buckets@,
                b,
                e,
            )) == seq_entry(s0.buckets@, b, e));
        assert(s1.len == buckets_total(s1.buckets@)) by {
            lemma_buckets_total_update(s0.buckets@, bi, s1.buckets@[bi]);
            assert(s1.buckets@[bi]@.len() == s0.buckets@[bi]@.len());
        }
        s0.lemma_wf_distinct();
        s1.lemma_wf_distinct();
        lemma_seq_get_at(s1.buckets@, key, bi, ei);
        assert forall|k2: K|
            !k2.keq(key) implies s1.spec_has_key(&k2) == s0.spec_has_key(&k2) && s1.spec_get(&k2)
            == s0.spec_get(&k2) by {
            if s0.spec_has_key(&k2) {
                let (b2, e2) = choose|b2: int, e2: int|
                    seq_valid(s0.buckets@, b2, e2) && seq_entry(s0.buckets@, b2, e2).0.keq(&k2);
                if b2 == bi && e2 == ei {
                    let k0 = seq_entry(s0.buckets@, bi, ei).0;
                    K::keq_symmetric(&k0, &k2);
                    K::keq_symmetric(&k0, key);
                    K::keq_transitive(&k2, &k0, key);
                    assert(false);
                }
                assert(seq_entry(s1.buckets@, b2, e2).0.keq(&k2));
                lemma_seq_get_at(s1.buckets@, &k2, b2, e2);
                lemma_seq_get_at(s0.buckets@, &k2, b2, e2);
            } else {
                if s1.spec_has_key(&k2) {
                    let (b2, e2) = choose|b2: int, e2: int|
                        seq_valid(s1.buckets@, b2, e2) && seq_entry(s1.buckets@, b2, e2).0.keq(&k2);
                    assert(seq_entry(s0.buckets@, b2, e2).0.keq(&k2));
                    assert(false);
                }
            }
        }
    }

    /// A changed bucket whose entries map one-for-one onto the old entries
    /// (with at most the value under `key` replaced) preserves the quotient
    /// for every other key.
    proof fn lemma_others_unchanged(s0: Self, s1: Self, key: &K)
        requires
            seq_distinct(s0.buckets@),
            seq_distinct(s1.buckets@),
            // every old entry under another key is still present
            forall|b: int, e: int|
                seq_valid(s0.buckets@, b, e) && !(#[trigger] seq_entry(s0.buckets@, b, e)).0.keq(
                    key,
                ) ==> exists|b2: int, e2: int|
                    seq_valid(s1.buckets@, b2, e2) && #[trigger] seq_entry(s1.buckets@, b2, e2)
                        == seq_entry(s0.buckets@, b, e),
            // every new entry under another key was already present
            forall|b: int, e: int|
                seq_valid(s1.buckets@, b, e) && !(#[trigger] seq_entry(s1.buckets@, b, e)).0.keq(
                    key,
                ) ==> exists|b2: int, e2: int|
                    seq_valid(s0.buckets@, b2, e2) && #[trigger] seq_entry(s0.buckets@, b2, e2)
                        == seq_entry(s1.buckets@, b, e),
        ensures
            forall|k2: K|
                !k2.keq(key) ==> s1.spec_has_key(&k2) == s0.spec_has_key(&k2) && s1.spec_get(&k2)
                    == s0.spec_get(&k2),
    {
        assert forall|k2: K| !k2.keq(key) implies s1.spec_has_key(&k2) == s0.spec_has_key(&k2)
            && s1.spec_get(&k2) == s0.spec_get(&k2) by {
            if s0.spec_has_key(&k2) {
                let (b, e) = choose|b: int, e: int|
                    seq_valid(s0.buckets@, b, e) && seq_entry(s0.buckets@, b, e).0.keq(&k2);
                assert(!seq_entry(s0.buckets@, b, e).0.keq(key)) by {
                    if seq_entry(s0.buckets@, b, e).0.keq(key) {
                        let k0 = seq_entry(s0.buckets@, b, e).0;
                        K::keq_symmetric(&k0, &k2);
                        K::keq_transitive(&k2, &k0, key);
                    }
                }
                let (b2, e2) = choose|b2: int, e2: int|
                    seq_valid(s1.buckets@, b2, e2) && seq_entry(s1.buckets@, b2, e2) == seq_entry(
                        s0.buckets@,
                        b,
                        e,
                    );
                lemma_seq_get_at(s0.buckets@, &k2, b, e);
                lemma_seq_get_at(s1.buckets@, &k2, b2, e2);
            } else {
                if s1.spec_has_key(&k2) {
                    let (b, e) = choose|b: int, e: int|
                        seq_valid(s1.buckets@, b, e) && seq_entry(s1.buckets@, b, e).0.keq(&k2);
                    assert(!seq_entry(s1.buckets@, b, e).0.keq(key)) by {
                        if seq_entry(s1.buckets@, b, e).0.keq(key) {
                            let k0 = seq_entry(s1.buckets@, b, e).0;
                            K::keq_symmetric(&k0, &k2);
                            K::keq_transitive(&k2, &k0, key);
                        }
                    }
                    let (b2, e2) = choose|b2: int, e2: int|
                        seq_valid(s0.buckets@, b2, e2) && seq_entry(s0.buckets@, b2, e2)
                            == seq_entry(s1.buckets@, b, e);
                    assert(seq_entry(s0.buckets@, b2, e2).0.keq(&k2));
                    assert(false);
                }
            }
        }
    }

    /// Inserts a key/value pair. If a key equivalent to `key` is present, its
    /// value is replaced (the stored key stays) and the previous value is
    /// returned; otherwise the pair is added to its bucket.
    pub fn insert(&mut self, key: K, value: V) -> (r: Option<V>)
        requires
            old(self).wf(),
            old(self).spec_len() < usize::MAX,
        ensures
            final(self).wf(),
            final(self).spec_buckets() > 0,
            r == old(self).spec_get(&key),
            final(self).spec_has_key(&key),
            final(self).spec_get(&key) == Some(value),
            old(self).spec_has_key(&key) ==> final(self).spec_len() == old(self).spec_len(),
            !old(self).spec_has_key(&key) ==> final(self).spec_len() == old(self).spec_len() + 1,
            forall|k2: K|
                !k2.keq(&key) ==> final(self).spec_has_key(&k2) == old(self).spec_has_key(&k2)
                    && final(self).spec_get(&k2) == old(self).spec_get(&k2),
    {
        self.try_resize();
        let ghost s1 = *self;
        let bi = self.slot(&key);
        let blen = self.buckets[bi].len();
        let mut ei: usize = 0;
        while ei < blen
            invariant
                self.wf(),
                *self == s1,
                self.spec_buckets() > 0,
                bi < self.spec_buckets(),
                bi == Self::spec_slot(key.hash_spec(), self.spec_buckets() as int),
                blen == self.buckets@[bi as int]@.len(),
                ei <= blen,
                s1.spec_len() == old(self).spec_len(),
                s1.spec_len() < usize::MAX,
                forall|k2: K| #[trigger] old(self).spec_has_key(&k2) == s1.spec_has_key(&k2),
                forall|k2: K| #[trigger] old(self).spec_get(&k2) == s1.spec_get(&k2),
                forall|e: int|
                    0 <= e < ei ==> !(#[trigger] seq_entry(self.buckets@, bi as int, e)).0.keq(
                        &key,
                    ),
            decreases blen - ei,
        {
            let hit = self.buckets[bi][ei].0.key_eq(&key);
            if hit {
                proof {
                    self.lemma_wf_distinct();
                    lemma_seq_get_at(self.buckets@, &key, bi as int, ei as int);
                }
                let bucket = &mut self.buckets[bi];
                let (old_key, old_value) = bucket.remove(ei);
                bucket.push((old_key, value));
                proof {
                    Self::lemma_bucket_replace(s1, *self, &key, bi as int, ei as int, value);
                }
                return Some(old_value);
            }
            ei += 1;
        }
        proof {
            if self.spec_has_key(&key) {
                let (b2, e2) = choose|b2: int, e2: int|
                    seq_valid(self.buckets@, b2, e2) && seq_entry(self.buckets@, b2, e2).0.keq(
                        &key,
                    );
                K::hash_respects_keq(&seq_entry(self.buckets@, b2, e2).0, &key);
                assert(b2 == bi as int);
                assert(false);
            }
        }
        let bucket = &mut self.buckets[bi];
        bucket.push((key, value));
        self.len = self.len + 1;
        proof {
            K::keq_reflexive(&key);
            Self::lemma_bucket_append(s1, *self, &key, bi as int, value);
        }
        None
    }

    /// Replacing the value of the entry at `(bi, ei)` — by removing the pair
    /// and pushing it back with the new value — preserves well-formedness and
    /// the rest of the map.
    proof fn lemma_bucket_replace(s0: Self, s1: Self, key: &K, bi: int, ei: int, value: V)
        requires
            s0.wf(),
            seq_valid(s0.buckets@, bi, ei),
            seq_entry(s0.buckets@, bi, ei).0.keq(key),
            bi == Self::spec_slot(key.hash_spec(), s0.buckets@.len() as int),
            s1.len == s0.len,
            s1.buckets@ == s0.buckets@.update(bi, s1.buckets@[bi]),
            s1.buckets@[bi]@ == s0.buckets@[bi]@.remove(ei).push(
                (seq_entry(s0.buckets@, bi, ei).0, value),
            ),
        ensures
            s1.wf(),
            s1.spec_buckets() == s0.spec_buckets(),
            s1.spec_len() == s0.spec_len(),
            s1.spec_has_key(key),
            s1.spec_get(key) == Some(value),
            forall|k2: K|
                !k2.keq(key) ==> s1.spec_has_key(&k2) == s0.spec_has_key(&k2) && s1.spec_get(&k2)
                    == s0.spec_get(&k2),
    {
        let ob = s0.buckets@[bi]@;
        let nb = s1.buckets@[bi]@;
        let last = nb.len() - 1;
        ob.remove_ensures(ei);
        assert(nb.len() == ob.len());
        // where each new entry of the bucket came from
        assert(forall|e: int| 0 <= e < ei ==> #[trigger] nb[e] == ob[e]);
        assert(forall|e: int| ei <= e < last ==> #[trigger] nb[e] == ob[e + 1]);
        assert(nb[last] == (seq_entry(s0.buckets@, bi, ei).0, value));
        assert(forall|b: int, e: int|
            seq_valid(s1.buckets@, b, e) && b != bi ==> #[trigger] seq_entry(s1.buckets@, b, e)
                == seq_entry(s0.buckets@, b, e));
        assert(s1.len == buckets_total(s1.buckets@)) by {
            lemma_buckets_total_update(s0.buckets@, bi, s1.buckets@[bi]);
        }
        assert forall|b: int, e: int| seq_valid(s1.buckets@, b, e) implies Self::spec_slot(
            (#[trigger] seq_entry(s1.buckets@, b, e)).0.hash_spec(),
            s1.buckets@.len() as int,
        ) == b by {
            if b == bi {
                if e < ei {
                    assert(seq_entry(s1.buckets@, b, e).0 == seq_entry(s0.buckets@, b, e).0);
                    assert(Self::spec_slot(
                        seq_entry(s0.buckets@, b, e).0.hash_spec(),
                        s0.buckets@.len() as int,
                    ) == b);
                } else if e < last {
                    assert(seq_entry(s1.buckets@, b, e).0 == seq_entry(s0.buckets@, b, e + 1).0);
                    assert(Self::spec_slot(
                        seq_entry(s0.buckets@, b, e + 1).0.hash_spec(),
                        s0.buckets@.len() as int,
                    ) == b);
                } else {
                    assert(seq_entry(s1.buckets@, b, e).0 == seq_entry(s0.buckets@, bi, ei).0);
                    assert(Self::spec_slot(
                        seq_entry(s0.buckets@, bi, ei).0.hash_spec(),
                        s0.buckets@.len() as int,
                    ) == bi);
                }
            } else {
                assert(seq_entry(s1.buckets@, b, e) == seq_entry(s0.buckets@, b, e));
                assert(Self::spec_slot(
                    seq_entry(s0.buckets@, b, e).0.hash_spec(),
                    s0.buckets@.len() as int,
                ) == b);
            }
        }
        assert forall|b: int, e1: int, e2: int|
            seq_valid(s1.buckets@, b, e1) && seq_valid(s1.buckets@, b, e2) && e1 != e2 implies !(
        #[trigger] seq_entry(s1.buckets@, b, e1)).0.keq(
            &(#[trigger] seq_entry(s1.buckets@, b, e2)).0,
        ) by {
            let o1: int = if b != bi {
                e1
            } else if e1 < ei {
                e1
            } else if e1 < last {
                e1 + 1
            } else {
                ei
            };
            let o2: int = if b != bi {
                e2
            } else if e2 < ei {
                e2
            } else if e2 < last {
                e2 + 1
            } else {
                ei
            };
            assert(seq_entry(s1.buckets@, b, e1).0 == seq_entry(s0.buckets@, b, o1).0);
            assert(seq_entry(s1.buckets@, b, e2).0 == seq_entry(s0.buckets@, b, o2).0);
            assert(o1 != o2);
            assert(seq_valid(s0.buckets@, b, o1) && seq_valid(s0.buckets@, b, o2));
            assert(!seq_entry(s0.buckets@, b, o1).0.keq(&seq_entry(s0.buckets@, b, o2).0));
        }
        s0.lemma_wf_distinct();
        s1.lemma_wf_distinct();
        lemma_seq_get_at(s1.buckets@, key, bi, last);
        assert forall|b: int, e: int|
            seq_valid(s0.buckets@, b, e) && !(#[trigger] seq_entry(s0.buckets@, b, e)).0.keq(
                key,
            ) implies exists|b2: int, e2: int|
            seq_valid(s1.buckets@, b2, e2) && #[trigger] seq_entry(s1.buckets@, b2, e2)
                == seq_entry(s0.buckets@, b, e) by {
            if b != bi {
                assert(seq_entry(s1.buckets@, b, e) == seq_entry(s0.buckets@, b, e));
            } else {
                assert(e != ei);
                if e < ei {
                    assert(seq_entry(s1.buckets@, b, e) == seq_entry(s0.buckets@, b, e));
                } else {
                    assert(seq_entry(s1.buckets@, b, e - 1) == seq_entry(s0.buckets@, b, e));
                }
            }
        }
        assert forall|b: int, e: int|
            seq_valid(s1.buckets@, b, e) && !(#[trigger] seq_entry(s1.buckets@, b, e)).0.keq(
                key,
            ) implies exists|b2: int, e2: int|
            seq_valid(s0.buckets@, b2, e2) && #[trigger] seq_entry(s0.buckets@, b2, e2)
                == seq_entry(s1.buckets@, b, e) by {
            if b != bi {
                assert(seq_entry(s0.buckets@, b, e) == seq_entry(s1.buckets@, b, e));
            } else {
                assert(e != last);
                if e < ei {
                    assert(seq_entry(s0.buckets@, b, e) == seq_entry(s1.buckets@, b, e));
                } else {
                    assert(seq_entry(s0.buckets@, b, e + 1) == seq_entry(s1.buckets@, b, e));
                }
            }
        }
        Self::lemma_others_unchanged(s0, s1, key);
    }

    /// Appending a pair under a fresh key to its bucket preserves
    /// well-formedness, adds that key, and leaves the rest of the map alone.
    proof fn lemma_bucket_append(s0: Self, s1: Self, key: &K, bi: int, value: V)
        requires
            s0.wf(),
            0 <= bi < s0.buckets@.len(),
            !s0.spec_has_key(key),
            bi == Self::spec_slot(key.hash_spec(), s0.buckets@.len() as int),
            s1.len == s0.len + 1,
            s1.buckets@ == s0.buckets@.update(bi, s1.buckets@[bi]),
            s1.buckets@[bi]@ == s0.buckets@[bi]@.push((*key, value)),
            key.keq(key),
        ensures
            s1.wf(),
            s1.spec_buckets() == s0.spec_buckets(),
            s1.spec_len() == s0.spec_len() + 1,
            s1.spec_has_key(key),
            s1.spec_get(key) == Some(value),
            forall|k2: K|
                !k2.keq(key) ==> s1.spec_has_key(&k2) == s0.spec_has_key(&k2) && s1.spec_get(&k2)
                    == s0.spec_get(&k2),
    {
        let ob = s0.buckets@[bi]@;
        let nb = s1.buckets@[bi]@;
        let last = nb.len() - 1;
        assert(forall|e: int| 0 <= e < last ==> #[trigger] nb[e] == ob[e]);
        assert(nb[last] == (*key, value));
        assert(forall|b: int, e: int|
            seq_valid(s1.buckets@, b, e) && b != bi ==> #[trigger] seq_entry(s1.buckets@, b, e)
                == seq_entry(s0.buckets@, b, e));
        assert(s1.len == buckets_total(s1.buckets@)) by {
            lemma_buckets_total_update(s0.buckets@, bi, s1.buckets@[bi]);
        }
        assert forall|b: int, e: int| seq_valid(s1.buckets@, b, e) implies Self::spec_slot(
            (#[trigger] seq_entry(s1.buckets@, b, e)).0.hash_spec(),
            s1.buckets@.len() as int,
        ) == b by {
            if b == bi && e < last {
                assert(seq_entry(s1.buckets@, b, e) == seq_entry(s0.buckets@, b, e));
                assert(Self::spec_slot(
                    seq_entry(s0.buckets@, b, e).0.hash_spec(),
                    s0.buckets@.len() as int,
                ) == b);
            } else if b == bi {
                assert(seq_entry(s1.buckets@, b, e).0 == *key);
            } else {
                assert(seq_entry(s1.buckets@, b, e) == seq_entry(s0.buckets@, b, e));
                assert(Self::spec_slot(
                    seq_entry(s0.buckets@, b, e).0.hash_spec(),
                    s0.buckets@.len() as int,
                ) == b);
            }
        }
        assert forall|b: int, e1: int, e2: int|
            seq_valid(s1.buckets@, b, e1) && seq_valid(s1.buckets@, b, e2) && e1 != e2 implies !(
        #[trigger] seq_entry(s1.buckets@, b, e1)).0.keq(
            &(#[trigger] seq_entry(s1.buckets@, b, e2)).0,
        ) by {
            if b == bi {
                if e1 == last && e2 < last {
                    assert(seq_entry(s1.buckets@, b, e2) == seq_entry(s0.buckets@, b, e2));
                    if key.keq(&seq_entry(s0.buckets@, b, e2).0) {
                        K::keq_symmetric(key, &seq_entry(s0.buckets@, b, e2).0);
                        assert(seq_valid(s0.buckets@, b, e2));
                        assert(seq_has_key(s0.buckets@, key));
                        assert(false);
                    }
                } else if e2 == last && e1 < last {
                    assert(seq_entry(s1.buckets@, b, e1) == seq_entry(s0.buckets@, b, e1));
                    if seq_entry(s0.buckets@, b, e1).0.keq(key) {
                        assert(seq_valid(s0.buckets@, b, e1));
                        assert(seq_has_key(s0.buckets@, key));
                        assert(false);
                    }
                } else {
                    assert(seq_entry(s1.buckets@, b, e1) == seq_entry(s0.buckets@, b, e1));
                    assert(seq_entry(s1.buckets@, b, e2) == seq_entry(s0.buckets@, b, e2));
                    assert(!seq_entry(s0.buckets@, b, e1).0.keq(&seq_entry(s0.buckets@, b, e2).0));
                }
            } else {
                assert(seq_entry(s1.buckets@, b, e1) == seq_entry(s0.buckets@, b, e1));
                assert(seq_entry(s1.buckets@, b, e2) == seq_entry(s0.buckets@, b, e2));
                assert(!seq_entry(s0.buckets@, b, e1).0.keq(&seq_entry(s0.buckets@, b, e2).0));
            }
        }
        s0.lemma_wf_distinct();
        s1.lemma_wf_distinct();
        lemma_seq_get_at(s1.buckets@, key, bi, last);
        assert forall|b: int, e: int|
            seq_valid(s0.buckets@, b, e) && !(#[trigger] seq_entry(s0.buckets@, b, e)).0.keq(
                key,
            ) implies exists|b2: int, e2: int|
            seq_valid(s1.buckets@, b2, e2) && #[trigger] seq_entry(s1.buckets@, b2, e2)
                == seq_entry(s0.buckets@, b, e) by {
            assert(seq_entry(s1.buckets@, b, e) == seq_entry(s0.buckets@, b, e));
        }
        assert forall|b: int, e: int|
            seq_valid(s1.buckets@, b, e) && !(#[trigger] seq_entry(s1.buckets@, b, e)).0.keq(
                key,
            ) implies exists|b2: int, e2: int|
            seq_valid(s0.buckets@, b2, e2) && #[trigger] seq_entry(s0.buckets@, b2, e2)
                == seq_entry(s1.buckets@, b, e) by {
            if b == bi && e == last {
                assert(seq_entry(s1.buckets@, b, e).0 == *key);
                assert(false);
            }
            assert(seq_entry(s0.buckets@, b, e) == seq_entry(s1.buckets@, b, e));
        }
        Self::lemma_others_unchanged(s0, s1, key);
    }

    /// Grows the bucket table when the load factor passes three quarters,
    /// rehashing every entry into the doubled table; allocates the first
    /// bucket of an empty table.
    fn try_resize(&mut self)
        requires
            old(self).wf(),
        ensures
            final(self).wf(),
            final(self).spec_buckets() > 0,
            final(self).spec_len() == old(self).spec_len(),
            forall|k2: K|
                final(self).spec_has_key(&k2) == old(self).spec_has_key(&k2)
                    && final(self).spec_get(&k2) == old(self).spec_get(&k2),
    {
        let cap = self.buckets.len();
        if cap == 0 {
            self.buckets.push(Vec::new());
            proof {
                assert(buckets_total(self.buckets@) == 0) by {
                    lemma_empty_buckets_total(self.buckets@);
                }
                assert forall|k2: K|
                    final(self).spec_has_key(&k2) == old(self).spec_has_key(&k2)
                        && final(self).spec_get(&k2) == old(self).spec_get(&k2) by {
                    assert(!old(self).spec_has_key(&k2));
                    assert(!self.spec_has_key(&k2));
                }
            }
            return ;
        }
        if (self.len as u128) * 4 > (cap as u128) * 3 {
            if cap > usize::MAX / 2 {
                return ;
            }
            let new_cap = cap * 2;
            let mut fresh: Vec<Vec<(K, V)>> = Vec::with_capacity(new_cap);
            let mut i: usize = 0;
            while i < new_cap
                invariant
                    i <= new_cap,
                    fresh@.len() == i,
                    forall|b: int| 0 <= b < i ==> (#[trigger] fresh@[b])@.len() == 0,
                decreases new_cap - i,
            {
                fresh.push(Vec::new());
                i += 1;
            }
            proof {
                lemma_empty_buckets_total(fresh@);
            }
            let ghost s0 = *self;
            proof {
                s0.lemma_wf_distinct();
            }
            let mut bi: usize = 0;
            while bi < cap
                invariant
                    s0.wf(),
                    seq_distinct(s0.buckets@),
                    cap == s0.buckets@.len(),
                    new_cap == 2 * cap,
                    bi <= cap,
                    self.len == s0.len,
                    self.buckets@.len() == cap,
                    fresh@.len() == new_cap,
                    forall|b: int| 0 <= b < bi ==> (#[trigger] self.buckets@[b])@.len() == 0,
                    forall|b: int|
                        bi <= b < cap ==> (#[trigger] self.buckets@[b]) == s0.buckets@[b],
                    Self::placed(fresh@, new_cap as int),
                    seq_distinct(fresh@),
                    forall|b1: int, e1: int, b2: int, e2: int|
                        seq_valid(fresh@, b1, e1) && seq_valid(self.buckets@, b2, e2) ==> !(
                        #[trigger] seq_entry(fresh@, b1, e1)).0.keq(
                            &(#[trigger] seq_entry(self.buckets@, b2, e2)).0,
                        ),
                    buckets_total(fresh@) + buckets_total(self.buckets@) == s0.len,
                    forall|b: int, e: int|
                        seq_valid(fresh@, b, e) ==> #[trigger] traces_to(
                            fresh@,
                            s0.buckets@,
                            b,
                            e,
                        ),
                    forall|b: int, e: int|
                        seq_valid(s0.buckets@, b, e) && b < bi ==> #[trigger] traces_to(
                            s0.buckets@,
                            fresh@,
                            b,
                            e,
                        ),
                decreases cap - bi,
            {
                proof {
                    assert(self.buckets@[bi as int]@ =~= s0.buckets@[bi as int]@.take(
                        self.buckets@[bi as int]@.len() as int,
                    ));
                }
                while self.buckets[bi].len() > 0
                    invariant
                        s0.wf(),
                        seq_distinct(s0.buckets@),
                        cap == s0.buckets@.len(),
                        new_cap == 2 * cap,
                        bi < cap,
                        self.len == s0.len,
                        self.buckets@.len() == cap,
                        fresh@.len() == new_cap,
                        forall|b: int| 0 <= b < bi ==> (#[trigger] self.buckets@[b])@.len() == 0,
                        forall|b: int|
                            bi < b < cap ==> (#[trigger] self.buckets@[b]) == s0.buckets@[b],
                        self.buckets@[bi as int]@.len() <= s0.buckets@[bi as int]@.len(),
                        self.buckets@[bi as int]@ == s0.buckets@[bi as int]@.take(
                            self.buckets@[bi as int]@.len() as int,
                        ),
                        Self::placed(fresh@, new_cap as int),
                        seq_distinct(fresh@),
                        forall|b1: int, e1: int, b2: int, e2: int|
                            seq_valid(fresh@, b1, e1) && seq_valid(self.buckets@, b2, e2) ==> !(
                            #[trigger] seq_entry(fresh@, b1, e1)).0.keq(
                                &(#[trigger] seq_entry(self.buckets@, b2, e2)).0,
                            ),
                        buckets_total(fresh@) + buckets_total(self.buckets@) == s0.len,
                        forall|b: int, e: int|
                            seq_valid(fresh@, b, e) ==> #[trigger] traces_to(
                                fresh@,
                                s0.buckets@,
                                b,
                                e,
                            ),
                        forall|b: int, e: int|
                            seq_valid(s0.buckets@, b, e) && b < bi ==> #[trigger] traces_to(
                                s0.buckets@,
                                fresh@,
                                b,
                                e,
                            ),
                        forall|b: int, e: int|
                            seq_valid(s0.buckets@, b, e) && b == bi && e
                                >= self.buckets@[bi as int]@.len() ==> #[trigger] traces_to(
                                s0.buckets@,
                                fresh@,
                                b,
                                e,
                            ),
                    decreases self.buckets@[bi as int]@.len(),
                {
                    let ghost pre_self = *self;
                    let ghost pre_fresh = fresh@;
                    let ghost moved_e = pre_self.buckets@[bi as int]@.len() - 1;
                    let pair = self.buckets[bi].pop().unwrap();
                    proof {
                        assert(self.buckets@ == pre_self.buckets@.update(
                            bi as int,
                            self.buckets@[bi as int],
                        ));
                        assert(self.buckets@[bi as int]@ == pre_self.buckets@[bi as
                            int]@.drop_last());
                        assert(pre_self.buckets@[bi as int]@[moved_e] == s0.buckets@[bi as
                            int]@[moved_e]);
                        assert(seq_entry(s0.buckets@, bi as int, moved_e) == pair);
                        assert(seq_valid(s0.buckets@, bi as int, moved_e));
                        assert(self.buckets@[bi as int]@ =~= s0.buckets@[bi as int]@.take(
                            self.buckets@[bi as int]@.len() as int,
                        ));
                        assert(forall|b: int|
                            0 <= b < cap && b != bi ==> (#[trigger] self.buckets@[b])
                                == pre_self.buckets@[b]);
                        lemma_buckets_total_update(
                            pre_self.buckets@,
                            bi as int,
                            self.buckets@[bi as int],
                        );
                    }
                    let h = pair.0.hash_key();
                    let idx = (h % (new_cap as u64)) as usize;
                    fresh[idx].push(pair);
                    proof {
                        assert(fresh@ == pre_fresh.update(idx as int, fresh@[idx as int]));
                        assert(fresh@[idx as int]@ == pre_fresh[idx as int]@.push(pair));
                        assert(forall|b: int|
                            0 <= b < new_cap && b != idx ==> (#[trigger] fresh@[b])
                                == pre_fresh[b]);
                        lemma_buckets_total_update(pre_fresh, idx as int, fresh@[idx as int]);
                        let last = fresh@[idx as int]@.len() - 1;
                        assert(seq_entry(fresh@, idx as int, last) == pair);
                        assert(forall|b: int, e: int|
                            seq_valid(pre_fresh, b, e) ==> seq_valid(fresh@, b, e)
                                && #[trigger] seq_entry(fresh@, b, e) == seq_entry(pre_fresh, b, e));
                        assert(forall|b: int, e: int|
                            seq_valid(pre_self.buckets@, b, e) && (b != bi || e < moved_e)
                                ==> seq_valid(self.buckets@, b, e) && #[trigger] seq_entry(
                                self.buckets@,
                                b,
                                e,
                            ) == seq_entry(pre_self.buckets@, b, e));
                        // the moved entry lands in its new bucket
                        assert forall|b: int, e: int| seq_valid(fresh@, b, e) implies Self::spec_slot(
                            (#[trigger] seq_entry(fresh@, b, e)).0.hash_spec(),
                            new_cap as int,
                        ) == b by {
                            if b == idx && e == last {
                            } else {
                                assert(seq_valid(pre_fresh, b, e));
                                assert(seq_entry(fresh@, b, e) == seq_entry(pre_fresh, b, e));
                            }
                        }
                        // the moved entry is inequivalent to everything left behind
                        assert forall|b1: int, e1: int, b2: int, e2: int|
                            seq_valid(fresh@, b1, e1) && seq_valid(self.buckets@, b2, e2) implies !(
                        #[trigger] seq_entry(fresh@, b1, e1)).0.keq(
                            &(#[trigger] seq_entry(self.buckets@, b2, e2)).0,
                        ) by {
                            assert(seq_valid(pre_self.buckets@, b2, e2));
                            assert(seq_entry(self.buckets@, b2, e2) == seq_entry(
                                pre_self.buckets@,
                                b2,
                                e2,
                            ));
                            assert(seq_entry(self.buckets@, b2, e2) == seq_entry(
                                s0.buckets@,
                                b2,
                                e2,
                            ));
                            if b1 == idx && e1 == last {
                                assert(seq_valid(s0.buckets@, b2, e2));
                                assert(b2 != bi || e2 != moved_e);
                                assert(!seq_entry(s0.buckets@, bi as int, moved_e).0.keq(
                                    &seq_entry(s0.buckets@, b2, e2).0,
                                ));
                            } else {
                                assert(seq_valid(pre_fresh, b1, e1));
                                assert(seq_entry(fresh@, b1, e1) == seq_entry(pre_fresh, b1, e1));
                            }
                        }
                        // the new table stays free of duplicate keys
                        assert forall|b1: int, e1: int, b2: int, e2: int|
                            seq_valid(fresh@, b1, e1) && seq_valid(fresh@, b2, e2) && (b1 != b2
                                || e1 != e2) implies !(#[trigger] seq_entry(fresh@, b1, e1)).0.keq(
                            &(#[trigger] seq_entry(fresh@, b2, e2)).0,
                        ) by {
                            if b1 == idx && e1 == last {
                                assert(seq_valid(pre_fresh, b2, e2));
                                assert(seq_valid(pre_self.buckets@, bi as int, moved_e));
                                assert(!seq_entry(pre_fresh, b2, e2).0.keq(
                                    &seq_entry(pre_self.buckets@, bi as int, moved_e).0,
                                ));
                                let ka = seq_entry(fresh@, b1, e1).0;
                                let kb = seq_entry(fresh@, b2, e2).0;
                                if ka.keq(&kb) {
                                    K::keq_symmetric(&ka, &kb);
                                    assert(false);
                                }
                            } else if b2 == idx && e2 == last {
                                assert(seq_valid(pre_fresh, b1, e1));
                                assert(seq_valid(pre_self.buckets@, bi as int, moved_e));
                                assert(!seq_entry(pre_fresh, b1, e1).0.keq(
                                    &seq_entry(pre_self.buckets@, bi as int, moved_e).0,
                                ));
                            } else {
                                assert(seq_valid(pre_fresh, b1, e1));
                                assert(seq_valid(pre_fresh, b2, e2));
                                assert(seq_entry(fresh@, b1, e1) == seq_entry(pre_fresh, b1, e1));
                                assert(seq_entry(fresh@, b2, e2) == seq_entry(pre_fresh, b2, e2));
                            }
                        }
                        // every entry of the new table traces to the original
                        assert forall|b: int, e: int| seq_valid(fresh@, b, e) implies #[trigger] traces_to(
                            fresh@,
                            s0.buckets@,
                            b,
                            e,
                        ) by {
                            if b == idx && e == last {
                                assert(seq_valid(s0.buckets@, bi as int, moved_e));
                                assert(seq_entry(s0.buckets@, bi as int, moved_e) == seq_entry(
                                    fresh@,
                                    b,
                                    e,
                                ));
                            } else {
                                assert(seq_valid(pre_fresh, b, e));
                                assert(traces_to(pre_fresh, s0.buckets@, b, e));
                                let (b2, e2) = choose|b2: int, e2: int|
                                    seq_valid(s0.buckets@, b2, e2) && #[trigger] seq_entry(
                                        s0.buckets@,
                                        b2,
                                        e2,
                                    ) == seq_entry(pre_fresh, b, e);
                                assert(seq_entry(s0.buckets@, b2, e2) == seq_entry(fresh@, b, e));
                            }
                        }
                        // every original entry already handled traces to the new table
                        assert forall|b: int, e: int|
                            seq_valid(s0.buckets@, b, e) && (b < bi || (b == bi && e
                                >= self.buckets@[bi as int]@.len())) implies #[trigger] traces_to(
                            s0.buckets@,
                            fresh@,
                            b,
                            e,
                        ) by {
                            if b == bi && e == moved_e {
                                assert(seq_valid(fresh@, idx as int, last));
                                assert(seq_entry(fresh@, idx as int, last) == seq_entry(
                                    s0.buckets@,
                                    b,
                                    e,
                                ));
                            } else {
                                assert(traces_to(s0.buckets@, pre_fresh, b, e));
                                let (b2, e2) = choose|b2: int, e2: int|
                                    seq_valid(pre_fresh, b2, e2) && #[trigger] seq_entry(
                                        pre_fresh,
                                        b2,
                                        e2,
                                    ) == seq_entry(s0.buckets@, b, e);
                                assert(seq_valid(fresh@, b2, e2));
                                assert(seq_entry(fresh@, b2, e2) == seq_entry(s0.buckets@, b, e));
                            }
                        }
                    }
                }
                proof {
                    assert(self.buckets@[bi as int]@.len() == 0);
                    assert forall|b: int, e: int|
                        seq_valid(s0.buckets@, b, e) && b < bi + 1 implies #[trigger] traces_to(
                        s0.buckets@,
                        fresh@,
                        b,
                        e,
                    ) by {
                        if b == bi {
                            assert(e >= self.buckets@[bi as int]@.len());
                        }
                    }
                }
                bi += 1;
            }
            let ghost drained = self.buckets@;
            self.buckets = fresh;
            proof {
                assert(self.len == buckets_total(self.buckets@)) by {
                    lemma_empty_buckets_total(drained);
                }
                s0.lemma_wf_distinct();
                assert forall|k2: K|
                    self.spec_has_key(&k2) == s0.spec_has_key(&k2) && self.spec_get(&k2)
                        == s0.spec_get(&k2) by {
                    if s0.spec_has_key(&k2) {
                        let (b, e) = choose|b: int, e: int|
                            seq_valid(s0.buckets@, b, e) && seq_entry(s0.buckets@, b, e).0.keq(&k2);
                        assert(traces_to(s0.buckets@, self.buckets@, b, e));
                        let (b2, e2) = choose|b2: int, e2: int|
                            seq_valid(self.buckets@, b2, e2) && #[trigger] seq_entry(
                                self.buckets@,
                                b2,
                                e2,
                            ) == seq_entry(s0.buckets@, b, e);
                        lemma_seq_get_at(s0.buckets@, &k2, b, e);
                        lemma_seq_get_at(self.buckets@, &k2, b2, e2);
                    } else {
                        if self.spec_has_key(&k2) {
                            let (b, e) = choose|b: int, e: int|
                                seq_valid(self.buckets@, b, e) && seq_entry(
                                    self.buckets@,
                                    b,
                                    e,
                                ).0.keq(&k2);
                            assert(traces_to(self.buckets@, s0.buckets@, b, e));
                            let (b2, e2) = choose|b2: int, e2: int|
                                seq_valid(s0.buckets@, b2, e2) && #[trigger] seq_entry(
                                    s0.buckets@,
                                    b2,
                                    e2,
                                ) == seq_entry(self.buckets@, b, e);
                            assert(seq_entry(s0.buckets@, b2, e2).0.keq(&k2));
                            assert(false);
                        }
                    }
                }
                assert forall|k2: K|
                    final(self).spec_has_key(&k2) == old(self).spec_has_key(&k2)
                        && final(self).spec_get(&k2) == old(self).spec_get(&k2) by {
                    assert(old(self).spec_has_key(&k2) == s0.spec_has_key(&k2));
                    assert(old(self).spec_get(&k2) == s0.spec_get(&k2));
                }
            }
        }
    }

    /// The total is at least the size of any one bucket.
    proof fn lemma_total_lower(bs: Seq<Vec<(K, V)>>, i: int)
        requires
            0 <= i < bs.len(),
        ensures
            buckets_total(bs) >= bs[i]@.len(),
        decreases bs.len(),
    {
        if i < bs.len() - 1 {
            Self::lemma_total_lower(bs.drop_last(), i);
        }
    }

    /// Removes the entry under a key equivalent to `key`, if any, and returns
    /// its value. The last entry of the bucket takes the freed position.
    pub fn remove(&mut self, key: &K) -> (r: Option<V>)
        requires
            old(self).wf(),
        ensures
            final(self).wf(),
            final(self).spec_buckets() == old(self).spec_buckets(),
            r == old(self).spec_get(key),
            !final(self).spec_has_key(key),
            old(self).spec_has_key(key) ==> final(self).spec_len() == old(self).spec_len() - 1,
            !old(self).spec_has_key(key) ==> *final(self) == *old(self),
            forall|k2: K|
                !k2.keq(key) ==> final(self).spec_has_key(&k2) == old(self).spec_has_key(&k2)
                    && final(self).spec_get(&k2) == old(self).spec_get(&k2),
    {
        if self.buckets.len() == 0 {
            proof {
                assert(!self.spec_has_key(key));
            }
            return None;
        }
        let bi = self.slot(key);
        let blen = self.buckets[bi].len();
        let mut ei: usize = 0;
        while ei < blen
            invariant
                self.wf(),
                *self == *old(self),
                self.spec_buckets() > 0,
                bi < self.spec_buckets(),
                bi == Self::spec_slot(key.hash_spec(), self.spec_buckets() as int),
                blen == self.buckets@[bi as int]@.len(),
                ei <= blen,
                forall|e: int|
                    0 <= e < ei ==> !(#[trigger] seq_entry(self.buckets@, bi as int, e)).0.keq(key),
            decreases blen - ei,
        {
            let hit = self.buckets[bi][ei].0.key_eq(key);
            if hit {
                let ghost s0 = *self;
                proof {
                    self.lemma_wf_distinct();
                    lemma_seq_get_at(self.buckets@, key, bi as int, ei as int);
                    Self::lemma_total_lower(self.buckets@, bi as int);
                }
                let pair = self.buckets[bi].swap_remove(ei);
                self.len = self.len - 1;
                proof {
                    Self::lemma_bucket_remove(s0, *self, key, bi as int, ei as int);
                }
                return Some(pair.1);
            }
            ei += 1;
        }
        proof {
            if self.spec_has_key(key) {
                let (b2, e2) = choose|b2: int, e2: int|
                    seq_valid(self.buckets@, b2, e2) && seq_entry(self.buckets@, b2, e2).0.keq(key);
                K::hash_respects_keq(&seq_entry(self.buckets@, b2, e2).0, key);
                assert(b2 == bi as int);
                assert(false);
            }
        }
        None
    }

    /// Removing the entry at `(bi, ei)` — moving the bucket's last entry into
    /// its place — drops exactly that key and keeps the rest of the map.
    proof fn lemma_bucket_remove(s0: Self, s1: Self, key: &K, bi: int, ei: int)
        requires
            s0.wf(),
            seq_valid(s0.buckets@, bi, ei),
            seq_entry(s0.buckets@, bi, ei).0.keq(key),
            bi == Self::spec_slot(key.hash_spec(), s0.buckets@.len() as int),
            s1.len == s0.len - 1,
            s1.buckets@ == s0.buckets@.update(bi, s1.buckets@[bi]),
            s1.buckets@[bi]@ == s0.buckets@[bi]@.update(ei, s0.buckets@[bi]@.last()).drop_last(),
        ensures
            s1.wf(),
            s1.spec_buckets() == s0.spec_buckets(),
            s1.spec_len() == s0.spec_len() - 1,
            !s1.spec_has_key(key),
            forall|k2: K|
                !k2.keq(key) ==> s1.spec_has_key(&k2) == s0.spec_has_key(&k2) && s1.spec_get(&k2)
                    == s0.spec_get(&k2),
    {
        let ob = s0.buckets@[bi]@;
        let nb = s1.buckets@[bi]@;
        let olast = ob.len() - 1;
        assert(nb.len() == ob.len() - 1);
        assert(forall|e: int| 0 <= e < nb.len() && e != ei ==> #[trigger] nb[e] == ob[e]);
        assert(ei < nb.len() ==> nb[ei] == ob[olast]);
        assert(forall|b: int, e: int|
            seq_valid(s1.buckets@, b, e) && b != bi ==> #[trigger] seq_entry(s1.buckets@, b, e)
                == seq_entry(s0.buckets@, b, e));
        assert(s1.len == buckets_total(s1.buckets@)) by {
            lemma_buckets_total_update(s0.buckets@, bi, s1.buckets@[bi]);
        }
        s0.lemma_wf_distinct();
        // each surviving bucket entry is an original entry at another position
        assert forall|b: int, e: int| seq_valid(s1.buckets@, b, e) implies (seq_valid(
            s0.buckets@,
            b,
            origin_of(b, e, bi, ei, olast),
        ) && #[trigger] seq_entry(s1.buckets@, b, e) == seq_entry(
            s0.buckets@,
            b,
            origin_of(b, e, bi, ei, olast),
        ) && origin_of(b, e, bi, ei, olast) != ei) || b != bi by {
            if b == bi {
                if e == ei && ei < nb.len() {
                    assert(seq_entry(s1.buckets@, b, e) == seq_entry(s0.buckets@, b, olast));
                } else {
                    assert(seq_entry(s1.buckets@, b, e) == seq_entry(s0.buckets@, b, e));
                }
            }
        }
        assert forall|b: int, e: int| seq_valid(s1.buckets@, b, e) implies Self::spec_slot(
            (#[trigger] seq_entry(s1.buckets@, b, e)).0.hash_spec(),
            s1.buckets@.len() as int,
        ) == b by {
            if b == bi {
                let o = origin_of(b, e, bi, ei, olast);
                assert(seq_entry(s1.buckets@, b, e) == seq_entry(s0.buckets@, b, o));
                assert(Self::spec_slot(
                    seq_entry(s0.buckets@, b, o).0.hash_spec(),
                    s0.buckets@.len() as int,
                ) == b);
            } else {
                assert(seq_entry(s1.buckets@, b, e) == seq_entry(s0.buckets@, b, e));
                assert(Self::spec_slot(
                    seq_entry(s0.buckets@, b, e).0.hash_spec(),
                    s0.buckets@.len() as int,
                ) == b);
            }
        }
        assert forall|b: int, e1: int, e2: int|
            seq_valid(s1.buckets@, b, e1) && seq_valid(s1.buckets@, b, e2) && e1 != e2 implies !(
        #[trigger] seq_entry(s1.buckets@, b, e1)).0.keq(
            &(#[trigger] seq_entry(s1.buckets@, b, e2)).0,
        ) by {
            let o1: int = if b == bi {
                origin_of(b, e1, bi, ei, olast)
            } else {
                e1
            };
            let o2: int = if b == bi {
                origin_of(b, e2, bi, ei, olast)
            } else {
                e2
            };
            assert(seq_entry(s1.buckets@, b, e1) == seq_entry(s0.buckets@, b, o1));
            assert(seq_entry(s1.buckets@, b, e2) == seq_entry(s0.buckets@, b, o2));
            assert(o1 != o2);
            assert(seq_valid(s0.buckets@, b, o1) && seq_valid(s0.buckets@, b, o2));
            assert(!seq_entry(s0.buckets@, b, o1).0.keq(&seq_entry(s0.buckets@, b, o2).0));
        }
        s1.lemma_wf_distinct();
        assert(!s1.spec_has_key(key)) by {
            if s1.spec_has_key(key) {
                let (b, e) = choose|b: int, e: int|
                    seq_valid(s1.buckets@, b, e) && seq_entry(s1.buckets@, b, e).0.keq(key);
                let o: int = if b == bi {
                    origin_of(b, e, bi, ei, olast)
                } else {
                    e
                };
                assert(seq_entry(s1.buckets@, b, e) == seq_entry(s0.buckets@, b, o));
                assert((b, o) != (bi, ei));
                let ka = seq_entry(s0.buckets@, b, o).0;
                let kb = seq_entry(s0.buckets@, bi, ei).0;
                K::keq_symmetric(&kb, key);
                K::keq_transitive(&ka, key, &kb);
                assert(false);
            }
        }
        assert forall|b: int, e: int|
            seq_valid(s0.buckets@, b, e) && !(#[trigger] seq_entry(s0.buckets@, b, e)).0.keq(
                key,
            ) implies exists|b2: int, e2: int|
            seq_valid(s1.buckets@, b2, e2) && #[trigger] seq_entry(s1.buckets@, b2, e2)
                == seq_entry(s0.buckets@, b, e) by {
            if b != bi {
                assert(seq_entry(s1.buckets@, b, e) == seq_entry(s0.buckets@, b, e));
            } else {
                assert(e != ei);
                if e == olast {
                    assert(ei < nb.len());
                    assert(seq_entry(s1.buckets@, b, ei) == seq_entry(s0.buckets@, b, e));
                } else {
                    assert(seq_entry(s1.buckets@, b, e) == seq_entry(s0.buckets@, b, e));
                }
            }
        }
        assert forall|b: int, e: int|
            seq_valid(s1.buckets@, b, e) && !(#[trigger] seq_entry(s1.buckets@, b, e)).0.keq(
                key,
            ) implies exists|b2: int, e2: int|
            seq_valid(s0.buckets@, b2, e2) && #[trigger] seq_entry(s0.buckets@, b2, e2)
                == seq_entry(s1.buckets@, b, e) by {
            let o: int = if b == bi {
                origin_of(b, e, bi, ei, olast)
            } else {
                e
            };
            assert(seq_entry(s0.buckets@, b, o) == seq_entry(s1.buckets@, b, e));
        }
        Self::lemma_others_unchanged(s0, s1, key);
    }

    /// Removes all entries but keeps the allocated buckets.
    pub fn clear(&mut self)
        requires
            old(self).wf(),
        ensures
            final(self).wf(),
            final(self).spec_len() == 0,
            final(self).spec_buckets() == old(self).spec_buckets(),
            forall|k2: K| !final(self).spec_has_key(&k2),
    {
        let nb = self.buckets.len();
        let mut bi: usize = 0;
        while bi < nb
            invariant
                nb == self.buckets@.len(),
                bi <= nb,
                forall|b: int| 0 <= b < bi ==> (#[trigger] self.buckets@[b])@.len() == 0,
            decreases nb - bi,
        {
            self.buckets[bi] = Vec::new();
            bi += 1;
        }
        self.len = 0;
        proof {
            lemma_empty_buckets_total(self.buckets@);
        }
    }

    /// Collects references to the stored keys, one per entry, in bucket
    /// order: every stored key appears exactly once.
    pub(crate) fn keys_list(&self) -> (r: Vec<&K>)
        requires
            self.wf(),
        ensures
            r@.len() == self.spec_len(),
            forall|i: int| 0 <= i < r@.len() ==> self.spec_has_key(#[trigger] r@[i]),
            forall|i: int, j: int| 0 <= i < j < r@.len() ==> !r@[i].keq(r@[j]),
            forall|k2: K|
                self.spec_has_key(&k2) ==> exists|i: int| 0 <= i < r@.len() && (#[trigger] r@[i]).keq(&k2),
    {
        proof {
            self.lemma_wf_distinct();
        }
        let nb = self.buckets.len();
        let mut out: Vec<&K> = Vec::new();
        let ghost mut poss: Seq<(int, int)> = Seq::empty();
        let mut bi: usize = 0;
        proof {
            assert(self.buckets@.take(0) =~= Seq::<Vec<(K, V)>>::empty());
        }
        while bi < nb
            invariant
                self.wf(),
                seq_distinct(self.buckets@),
                nb == self.buckets@.len(),
                bi <= nb,
                poss.len() == out@.len(),
                out@.len() == buckets_total(self.buckets@.take(bi as int)),
                forall|i: int|
                    0 <= i < poss.len() ==> seq_valid(
                        self.buckets@,
                        (#[trigger] poss[i]).0,
                        poss[i].1,
                    ) && poss[i].0 < bi && *out@[i] == seq_entry(
                        self.buckets@,
                        poss[i].0,
                        poss[i].1,
                    ).0,
                forall|i: int, j: int|
                    0 <= i < j < poss.len() ==> (#[trigger] poss[i]).0 < (#[trigger] poss[j]).0 || (
                    poss[i].0 == poss[j].0 && poss[i].1 < poss[j].1),
                forall|b: int, e: int|
                    seq_valid(self.buckets@, b, e) && b < bi ==> exists|i: int|
                        0 <= i < poss.len() && (#[trigger] poss[i]) == (b, e),
            decreases nb - bi,
        {
            let blen = self.buckets[bi].len();
            let mut ei: usize = 0;
            while ei < blen
                invariant
                    self.wf(),
                    seq_distinct(self.buckets@),
                    nb == self.buckets@.len(),
                    bi < nb,
                    blen == self.buckets@[bi as int]@.len(),
                    ei <= blen,
                    poss.len() == out@.len(),
                    out@.len() == buckets_total(self.buckets@.take(bi as int)) + ei,
                    forall|i: int|
                        0 <= i < poss.len() ==> seq_valid(
                            self.buckets@,
                            (#[trigger] poss[i]).0,
                            poss[i].1,
                        ) && (poss[i].0 < bi || (poss[i].0 == bi && poss[i].1 < ei)) && *out@[i]
                            == seq_entry(self.buckets@, poss[i].0, poss[i].1).0,
                    forall|i: int, j: int|
                        0 <= i < j < poss.len() ==> (#[trigger] poss[i]).0 < (#[trigger] poss[j]).0
                            || (poss[i].0 == poss[j].0 && poss[i].1 < poss[j].1),
                    forall|b: int, e: int|
                        seq_valid(self.buckets@, b, e) && (b < bi || (b == bi && e < ei)) ==> exists|
                            i: int,
                        |
                            0 <= i < poss.len() && (#[trigger] poss[i]) == (b, e),
                decreases blen - ei,
            {
                let bucket = &self.buckets[bi];
                out.push(&bucket[ei].0);
                proof {
                    let prev_poss = poss;
                    poss = poss.push((bi as int, ei as int));
                    assert forall|b: int, e: int|
                        seq_valid(self.buckets@, b, e) && (b < bi || (b == bi && e < ei
                            + 1)) implies exists|i: int|
                        0 <= i < poss.len() && (#[trigger] poss[i]) == (b, e) by {
                        if b == bi as int && e == ei as int {
                            assert(poss[poss.len() - 1] == (b, e));
                        } else {
                            let i = choose|i: int|
                                0 <= i < prev_poss.len() && (#[trigger] prev_poss[i]) == (b, e);
                            assert(poss[i] == (b, e));
                        }
                    }
                }
                ei += 1;
            }
            proof {
                assert(self.buckets@.take(bi + 1).drop_last() =~= self.buckets@.take(bi as int));
                assert(self.buckets@.take(bi + 1).last() == self.buckets@[bi as int]);
            }
            bi += 1;
        }
        proof {
            assert(self.buckets@.take(nb as int) =~= self.buckets@);
            assert forall|i: int, j: int| 0 <= i < j < out@.len() implies !out@[i].keq(out@[j]) by {
                let (b1, e1) = poss[i];
                let (b2, e2) = poss[j];
                assert((b1 != b2 || e1 != e2));
                assert(!seq_entry(self.buckets@, b1, e1).0.keq(&seq_entry(self.buckets@, b2, e2).0));
            }
            assert forall|i: int| 0 <= i < out@.len() implies self.spec_has_key(
                #[trigger] out@[i],
            ) by {
                let (b1, e1) = poss[i];
                K::keq_reflexive(&seq_entry(self.buckets@, b1, e1).0);
                assert(seq_entry(self.buckets@, b1, e1).0.keq(out@[i]));
            }
            assert forall|k2: K| self.spec_has_key(&k2) implies exists|i: int|
                0 <= i < out@.len() && (#[trigger] out@[i]).keq(&k2) by {
                let (b, e) = choose|b: int, e: int|
                    seq_valid(self.buckets@, b, e) && seq_entry(self.buckets@, b, e).0.keq(&k2);
                let i = choose|i: int| 0 <= i < poss.len() && (#[trigger] poss[i]) == (b, e);
                assert(*out@[i] == seq_entry(self.buckets@, b, e).0);
                assert(out@[i].keq(&k2));
            }
        }
        out
    }

    /// A key is present exactly when a lookup yields a value.
    pub proof fn lemma_get_has(&self, k: &K)
        ensures
            self.spec_has_key(k) == self.spec_get(k).is_some(),
    {
    }

    /// Membership only depends on the key's equivalence class.
    pub proof fn lemma_has_key_equiv(&self, a: &K, b: &K)
        requires
            a.keq(b),
        ensures
            self.spec_has_key(a) == self.spec_has_key(b),
    {
        if self.spec_has_key(a) {
            let (bi, ei) = choose|bi: int, ei: int|
                seq_valid(self.buckets@, bi, ei) && seq_entry(self.buckets@, bi, ei).0.keq(a);
            K::keq_transitive(&seq_entry(self.buckets@, bi, ei).0, a, b);
            assert(seq_valid(self.buckets@, bi, ei) && seq_entry(self.buckets@, bi, ei).0.keq(b));
        }
        if self.spec_has_key(b) {
            let (bi, ei) = choose|bi: int, ei: int|
                seq_valid(self.buckets@, bi, ei) && seq_entry(self.buckets@, bi, ei).0.keq(b);
            K::keq_symmetric(a, b);
            K::keq_transitive(&seq_entry(self.buckets@, bi, ei).0, b, a);
            assert(seq_valid(self.buckets@, bi, ei) && seq_entry(self.buckets@, bi, ei).0.keq(a));
        }
    }

    /// Checks whether the container is empty.
    pub fn is_empty(&self) -> (r: bool)
        ensures
            r == (self.spec_len() == 0),
    {
        self.len == 0
    }

    /// The number of key/value pairs in the container.
    pub fn len(&self) -> (r: usize)
        ensures
            r == self.spec_len(),
    {
        self.len
    }

    /// The number of underlying buckets.
    pub fn bucket_count(&self) -> (r: usize)
        ensures
            r == self.spec_buckets(),
    {
        self.buckets.len()
    }
}

} // verus!
