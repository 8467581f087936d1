//! A Bloom filter: a space-efficient probabilistic set that answers
//! membership tests with no false negatives and a tunable false-positive
//! rate.

use std::collections::hash_map::{DefaultHasher, RandomState};
use std::hash::{BuildHasher, Hash};
use std::hash::Hasher;
use vstd::prelude::*;
use vstd::std_specs::hash::DefaultHasherAdditionalSpecFns;

verus! {

/// Relies on std's `RandomState::new` and `BuildHasher::build_hasher`: two
/// freshly seeded hashers. Nothing is promised of their state, which each
/// process seeds anew.
#[verifier::external_body]
fn seeded_hashers() -> (DefaultHasher, DefaultHasher) {
    (RandomState::new().build_hasher(), RandomState::new().build_hasher())
}

/// Relies on std's `Clone` for `DefaultHasher`: the copy has absorbed the
/// same input as the original.
#[verifier::external_body]
fn clone_hasher(h: &DefaultHasher) -> (r: DefaultHasher)
    ensures
        r@ == h@,
{
    h.clone()
}

/// Relies on std's `Hash::hash`: absorbs the value into the hasher. What a
/// foreign `Hash` implementation writes is not specified here.
#[verifier::external_body]
fn feed_hasher<T: Hash + ?Sized>(elem: &T, state: &mut DefaultHasher) {
    elem.hash(state)
}

/// A probabilistic membership filter over a bit array, probing
/// `hash_fn_count` positions per element. The two stored hashers simulate
/// that many hash functions by linear combination.
pub struct BloomFilter<T: ?Sized> {
    bits: Vec<bool>,
    hash_fn_count: usize,
    hashers: (DefaultHasher, DefaultHasher),
    _phantom: core::marker::PhantomData<T>,
}

/// The bit position that probe number `i` of the pair `(h1, h2)` selects
/// among `m` bits.
pub open spec fn probe_at(h1: u64, h2: u64, i: u64, m: int) -> int {
    h1.wrapping_add(i.wrapping_mul(h2)) as int % m
}

/// Whether every probe of the pair `(h1, h2)` finds its bit set.
pub open spec fn all_probes_set(bits: Seq<bool>, h1: u64, h2: u64, k: nat) -> bool {
    forall|i: u64| i < k ==> bits[probe_at(h1, h2, i, bits.len() as int)] == true
}

/// Whether some probe of the pair `(h1, h2)` selects bit `j` among `m` bits.
pub open spec fn probed(j: int, h1: u64, h2: u64, k: nat, m: int) -> bool {
    exists|i: u64| i < k && j == probe_at(h1, h2, i, m)
}

/// The bits after an insertion: the bits before, with exactly the probed
/// positions of the pair `(h1, h2)` set.
pub open spec fn sets_exactly(pre: Seq<bool>, post: Seq<bool>, h1: u64, h2: u64, k: nat) -> bool {
    &&& post.len() == pre.len()
    &&& forall|j: int|
        0 <= j < post.len() ==> post[j] == (pre[j] || probed(j, h1, h2, k, pre.len() as int))
}

/// No false negatives: a probe made after an insertion that set the bits of
/// the same hash pair finds every one of its bits set, whatever else has
/// been inserted in between.
pub proof fn lemma_no_false_negative(pre: Seq<bool>, post: Seq<bool>, h1: u64, h2: u64, k: nat)
    requires
        pre.len() > 0 || k == 0,
        sets_exactly(pre, post, h1, h2, k),
    ensures
        all_probes_set(post, h1, h2, k),
{
    assert forall|i: u64| i < k implies post[probe_at(h1, h2, i, post.len() as int)] == true by {
        let j = probe_at(h1, h2, i, pre.len() as int);
        assert(0 <= j < pre.len());
        assert(probed(j, h1, h2, k, pre.len() as int));
    }
}

impl<T: ?Sized> BloomFilter<T> {
    /// The bit array.
    pub closed spec fn spec_bits(&self) -> Seq<bool> {
        self.bits@
    }

    /// The number of probes per element.
    pub closed spec fn spec_k(&self) -> nat {
        self.hash_fn_count as nat
    }

    /// A filter that probes at all must have bits to probe.
    pub closed spec fn wf(&self) -> bool {
        self.hash_fn_count > 0 ==> self.bits@.len() > 0
    }

    /// Creates an empty Bloom filter with the given bit count and probe
    /// count. The optimal sizes for a wanted capacity and error rate come
    /// from the standard closed-form formulas, evaluated by the caller.
    pub fn new(bits_count: usize, hash_fn_count: usize) -> (r: Self)
        requires
            hash_fn_count > 0 ==> bits_count > 0,
        ensures
            r.wf(),
            r.spec_k() == hash_fn_count,
            r.spec_bits().len() == bits_count,
            forall|j: int| 0 <= j < bits_count ==> r.spec_bits()[j] == false,
    {
        let mut bits: Vec<bool> = Vec::new();
        let mut i: usize = 0;
        while i < bits_count
            invariant
                i <= bits_count,
                bits@.len() == i,
                forall|j: int| 0 <= j < i ==> bits@[j] == false,
            decreases bits_count - i,
        {
            bits.push(false);
            i += 1;
        }
        Self {
            bits,
            hash_fn_count,
            hashers: seeded_hashers(),
            _phantom: core::marker::PhantomData,
        }
    }

    /// Derives the element's probe pair from the two stored hashers. The
    /// result depends on the hashers' per-process seed, so nothing relates
    /// two calls at the specification level.
    fn make_hash(&self, elem: &T) -> (u64, u64) where T: Hash {
        let mut hasher1 = clone_hasher(&self.hashers.0);
        let mut hasher2 = clone_hasher(&self.hashers.1);
        feed_hasher(elem, &mut hasher1);
        feed_hasher(elem, &mut hasher2);
        (hasher1.finish(), hasher2.finish())
    }

    /// The bit position probe `fn_i` of the pair selects.
    fn get_index(&self, hashes: (u64, u64), fn_i: u64) -> (r: usize)
        requires
            self.spec_bits().len() > 0,
        ensures
            r == probe_at(hashes.0, hashes.1, fn_i, self.spec_bits().len() as int),
            r < self.spec_bits().len(),
    {
        let (h1, h2) = hashes;
        (h1.wrapping_add(fn_i.wrapping_mul(h2)) % (self.bits.len() as u64)) as usize
    }

    /// Inserts an element: sets the bit of every probe of the element's hash
    /// pair. No bit is ever cleared, so membership reports can only grow.
    pub fn insert(&mut self, elem: &T) where T: Hash
        requires
            old(self).wf(),
        ensures
            final(self).wf(),
            final(self).spec_k() == old(self).spec_k(),
            final(self).spec_bits().len() == old(self).spec_bits().len(),
            forall|j: int|
                0 <= j < old(self).spec_bits().len() && old(self).spec_bits()[j] == true
                    ==> final(self).spec_bits()[j] == true,
            exists|h1: u64, h2: u64| #[trigger] sets_exactly(
                old(self).spec_bits(),
                final(self).spec_bits(),
                h1,
                h2,
                old(self).spec_k(),
            ),
    {
        let hashes = self.make_hash(elem);
        let ghost pre = self.bits@;
        let k = self.hash_fn_count;
        let mut fn_i: u64 = 0;
        while fn_i < k as u64
            invariant
                self.wf(),
                self.hash_fn_count == k,
                k > 0 ==> self.bits@.len() > 0,
                self.bits@.len() == pre.len(),
                fn_i <= k as u64,
                forall|j: int|
                    0 <= j < self.bits@.len() ==> self.bits@[j] == (pre[j] || probed(
                        j,
                        hashes.0,
                        hashes.1,
                        fn_i as nat,
                        pre.len() as int,
                    )),
            decreases k as u64 - fn_i,
        {
            let index = self.get_index(hashes, fn_i);
            let ghost mid = self.bits@;
            self.bits[index] = true;
            proof {
                assert forall|j: int| 0 <= j < self.bits@.len() implies self.bits@[j] == (pre[j]
                    || probed(j, hashes.0, hashes.1, (fn_i + 1) as nat, pre.len() as int)) by {
                    if j == index {
                        assert(fn_i < fn_i + 1 && j == probe_at(
                            hashes.0,
                            hashes.1,
                            fn_i,
                            pre.len() as int,
                        ));
                        assert(probed(j, hashes.0, hashes.1, (fn_i + 1) as nat, pre.len() as int));
                        assert(self.bits@[j]);
                    } else {
                        assert(self.bits@[j] == mid[j]);
                        if self.bits@[j] {
                            if !pre[j] {
                                let i0 = choose|i0: u64|
                                    i0 < fn_i as nat && j == probe_at(
                                        hashes.0,
                                        hashes.1,
                                        i0,
                                        pre.len() as int,
                                    );
                                assert(i0 < (fn_i + 1) as nat && j == probe_at(
                                    hashes.0,
                                    hashes.1,
                                    i0,
                                    pre.len() as int,
                                ));
                            }
                        } else {
                            assert(!pre[j]);
                            if probed(j, hashes.0, hashes.1, (fn_i + 1) as nat, pre.len() as int) {
                                let iw = choose|iw: u64|
                                    iw < (fn_i + 1) as nat && j == probe_at(
                                        hashes.0,
                                        hashes.1,
                                        iw,
                                        pre.len() as int,
                                    );
                                if iw < fn_i {
                                    assert(probed(
                                        j,
                                        hashes.0,
                                        hashes.1,
                                        fn_i as nat,
                                        pre.len() as int,
                                    ));
                                    assert(mid[j]);
                                    assert(false);
                                } else {
                                    assert(iw == fn_i);
                                    assert(j == index);
                                    assert(false);
                                }
                            }
                        }
                    }
                }
            }
            fn_i = fn_i + 1;
        }
        proof {
            assert(fn_i as nat == k as nat);
            assert(sets_exactly(pre, self.bits@, hashes.0, hashes.1, k as nat));
            assert(sets_exactly(
                old(self).spec_bits(),
                self.bits@,
                hashes.0,
                hashes.1,
                old(self).spec_k(),
            ));
        }
    }

    /// Tests membership: whether every probe of the element's hash pair
    /// finds its bit set. An element whose bits were all set by an insertion
    /// is always reported present; an element never inserted may still be
    /// reported present when other insertions happen to cover its bits.
    pub fn contains(&self, elem: &T) -> (r: bool) where T: Hash
        requires
            self.wf(),
        ensures
            exists|h1: u64, h2: u64|
                r == #[trigger] all_probes_set(self.spec_bits(), h1, h2, self.spec_k()),
    {
        let hashes = self.make_hash(elem);
        let k = self.hash_fn_count;
        let mut fn_i: u64 = 0;
        let mut all_set = true;
        while fn_i < k as u64
            invariant
                self.wf(),
                self.hash_fn_count == k,
                k > 0 ==> self.bits@.len() > 0,
                fn_i <= k as u64,
                all_set == (forall|i: u64|
                    i < fn_i ==> self.bits@[probe_at(
                        hashes.0,
                        hashes.1,
                        i,
                        self.bits@.len() as int,
                    )] == true),
            decreases k as u64 - fn_i,
        {
            let index = self.get_index(hashes, fn_i);
            if !self.bits[index] {
                all_set = false;
            }
            proof {
                if !all_set {
                    if (forall|i: u64|
                        i < fn_i + 1 ==> self.bits@[probe_at(
                            hashes.0,
                            hashes.1,
                            i,
                            self.bits@.len() as int,
                        )] == true) {
                        assert(self.bits@[probe_at(
                            hashes.0,
                            hashes.1,
                            fn_i,
                            self.bits@.len() as int,
                        )] == true);
                        assert(false);
                    }
                }
            }
            fn_i = fn_i + 1;
        }
        proof {
            assert(all_set == all_probes_set(self.spec_bits(), hashes.0, hashes.1, self.spec_k()));
        }
        all_set
    }
}

} // verus!
