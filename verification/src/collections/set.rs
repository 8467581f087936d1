//! A hash set built on the chained hash map.

use crate::collections::hash_map::HashMap;
use crate::keys::HashKey;
use vstd::prelude::*;

verus! {

/// A set of values, stored as the keys of a [`HashMap`] with unit values.
/// Two values are treated as the same element when they are `keq`-equivalent.
pub struct HashSet<T> {
    hash_map: HashMap<T, ()>,
}

impl<T: HashKey> HashSet<T> {
    /// Whether the set holds an element equivalent to `v`.
    pub closed spec fn spec_has(&self, v: &T) -> bool {
        self.hash_map.spec_has_key(v)
    }

    /// The number of elements.
    pub closed spec fn spec_len(&self) -> nat {
        self.hash_map.spec_len()
    }

    /// Structural well-formedness of the underlying map.
    pub closed spec fn wf(&self) -> bool {
        self.hash_map.wf()
    }

    /// Creates an empty set.
    pub fn new() -> (r: Self)
        ensures
            r.wf(),
            r.spec_len() == 0,
            forall|v: T| !r.spec_has(&v),
    {
        Self { hash_map: HashMap::new() }
    }

    /// The number of distinct elements.
    pub fn len(&self) -> (r: usize)
        ensures
            r == self.spec_len(),
    {
        self.hash_map.len()
    }

    /// Whether there is no element in the set.
    pub fn is_empty(&self) -> (r: bool)
        ensures
            r == (self.spec_len() == 0),
    {
        self.hash_map.is_empty()
    }

    /// Inserts an element. Returns `true` when no equivalent element was
    /// present, and `false` — leaving the set unchanged in content — when one
    /// was.
    pub fn insert(&mut self, value: T) -> (r: bool)
        requires
            old(self).wf(),
            old(self).spec_len() < usize::MAX,
        ensures
            final(self).wf(),
            r == !old(self).spec_has(&value),
            final(self).spec_has(&value),
            old(self).spec_has(&value) ==> final(self).spec_len() == old(self).spec_len(),
            !old(self).spec_has(&value) ==> final(self).spec_len() == old(self).spec_len() + 1,
            forall|v: T|
                !v.keq(&value) ==> final(self).spec_has(&v) == old(self).spec_has(&v),
    {
        let ghost s0 = *self;
        let r = self.hash_map.insert(value, ());
        proof {
            s0.hash_map.lemma_get_has(&value);
        }
        r.is_none()
    }

    /// Whether an element equivalent to `value` is present.
    pub fn contains(&self, value: &T) -> (r: bool)
        requires
            self.wf(),
        ensures
            r == self.spec_has(value),
    {
        self.hash_map.get(value).is_some()
    }

    /// Removes the element equivalent to `value`, if any. Returns whether one
    /// was present.
    pub fn remove(&mut self, value: &T) -> (r: bool)
        requires
            old(self).wf(),
        ensures
            final(self).wf(),
            r == old(self).spec_has(value),
            !final(self).spec_has(value),
            old(self).spec_has(value) ==> final(self).spec_len() == old(self).spec_len() - 1,
            !old(self).spec_has(value) ==> final(self).spec_len() == old(self).spec_len(),
            forall|v: T|
                !v.keq(value) ==> final(self).spec_has(&v) == old(self).spec_has(&v),
    {
        let ghost s0 = *self;
        let r = self.hash_map.remove(value);
        proof {
            s0.hash_map.lemma_get_has(value);
        }
        r.is_some()
    }

    /// Collects references to the elements, one per equivalence class, in
    /// arbitrary order.
    pub fn iter(&self) -> (r: Vec<&T>)
        requires
            self.wf(),
        ensures
            r@.len() == self.spec_len(),
            forall|i: int| 0 <= i < r@.len() ==> self.spec_has(#[trigger] r@[i]),
            forall|i: int, j: int| 0 <= i < j < r@.len() ==> !r@[i].keq(r@[j]),
            forall|v: T|
                self.spec_has(&v) ==> exists|i: int|
                    0 <= i < r@.len() && (#[trigger] r@[i]).keq(&v),
    {
        self.hash_map.keys_list()
    }

    /// Collects the elements present in `self` but not in `other`.
    pub fn difference<'a>(&'a self, other: &'a HashSet<T>) -> (r: Vec<&'a T>)
        requires
            self.wf(),
            other.wf(),
        ensures
            forall|i: int|
                0 <= i < r@.len() ==> self.spec_has(#[trigger] r@[i]) && !other.spec_has(r@[i]),
            forall|i: int, j: int| 0 <= i < j < r@.len() ==> !r@[i].keq(r@[j]),
            forall|v: T|
                self.spec_has(&v) && !other.spec_has(&v) ==> exists|i: int|
                    0 <= i < r@.len() && (#[trigger] r@[i]).keq(&v),
    {
        let keys = self.iter();
        let mut out: Vec<&T> = Vec::new();
        let klen = keys.len();
        let mut i: usize = 0;
        while i < klen
            invariant
                self.wf(),
                other.wf(),
                klen == keys@.len(),
                i <= klen,
                forall|j: int| 0 <= j < klen ==> self.spec_has(#[trigger] keys@[j]),
                forall|j: int, j2: int| 0 <= j < j2 < klen ==> !keys@[j].keq(keys@[j2]),
                forall|j: int|
                    0 <= j < out@.len() ==> self.spec_has(#[trigger] out@[j]) && !other.spec_has(
                        out@[j],
                    ),
                forall|j: int|
                    0 <= j < out@.len() ==> exists|j0: int|
                        0 <= j0 < i && (#[trigger] out@[j]) == keys@[j0],
                forall|j: int, j2: int| 0 <= j < j2 < out@.len() ==> !out@[j].keq(out@[j2]),
                forall|j: int|
                    0 <= j < i && !other.spec_has(#[trigger] keys@[j]) ==> exists|j2: int|
                        0 <= j2 < out@.len() && out@[j2] == keys@[j],
            decreases klen - i,
        {
            let keep = !other.contains(keys[i]);
            if keep {
                proof {
                    assert forall|j: int| 0 <= j < out@.len() implies !out@[j].keq(
                        keys@[i as int],
                    ) by {
                        let j0 = choose|j0: int| 0 <= j0 < i && (#[trigger] out@[j]) == keys@[j0];
                        assert(!keys@[j0].keq(keys@[i as int]));
                    }
                }
                let ghost prev_out = out@;
                out.push(keys[i]);
                proof {
                    assert forall|j: int|
                        0 <= j < i + 1 && !other.spec_has(#[trigger] keys@[j]) implies exists|
                        j2: int,
                    |
                        0 <= j2 < out@.len() && out@[j2] == keys@[j] by {
                        if j == i as int {
                            assert(out@[out@.len() - 1] == keys@[j]);
                        } else {
                            let j2 = choose|j2: int|
                                0 <= j2 < prev_out.len() && prev_out[j2] == keys@[j];
                            assert(out@[j2] == keys@[j]);
                        }
                    }
                }
            }
            i += 1;
        }
        proof {
            assert forall|v: T|
                self.spec_has(&v) && !other.spec_has(&v) implies exists|j2: int|
                0 <= j2 < out@.len() && (#[trigger] out@[j2]).keq(&v) by {
                let j = choose|j: int| 0 <= j < keys@.len() && (#[trigger] keys@[j]).keq(&v);
                other.hash_map.lemma_has_key_equiv(keys@[j], &v);
                assert(!other.spec_has(keys@[j]));
                let j2 = choose|j2: int| 0 <= j2 < out@.len() && out@[j2] == keys@[j];
                assert(out@[j2].keq(&v));
            }
        }
        out
    }

    /// Collects the elements of `self` together with those of `other`, one
    /// per equivalence class.
    pub fn union<'a>(&'a self, other: &'a HashSet<T>) -> (r: Vec<&'a T>)
        requires
            self.wf(),
            other.wf(),
        ensures
            forall|i: int|
                0 <= i < r@.len() ==> self.spec_has(#[trigger] r@[i]) || other.spec_has(r@[i]),
            forall|i: int, j: int| 0 <= i < j < r@.len() ==> !r@[i].keq(r@[j]),
            forall|v: T|
                self.spec_has(&v) || other.spec_has(&v) ==> exists|i: int|
                    0 <= i < r@.len() && (#[trigger] r@[i]).keq(&v),
    {
        let mut out = self.iter();
        let mut rest = other.difference(self);
        let ghost own = out@;
        let ghost extra = rest@;
        out.append(&mut rest);
        proof {
            assert(out@ == own + extra);
            assert forall|i: int, j: int| 0 <= i < j < out@.len() implies !out@[i].keq(out@[j]) by {
                if i < own.len() && j >= own.len() {
                    if out@[i].keq(out@[j]) {
                        self.hash_map.lemma_has_key_equiv(own[i], extra[j - own.len()]);
                        assert(self.spec_has(extra[j - own.len()]));
                    }
                }
            }
            assert forall|v: T|
                self.spec_has(&v) || other.spec_has(&v) implies exists|i: int|
                0 <= i < out@.len() && (#[trigger] out@[i]).keq(&v) by {
                if self.spec_has(&v) {
                    let i = choose|i: int| 0 <= i < own.len() && (#[trigger] own[i]).keq(&v);
                    assert(out@[i].keq(&v));
                } else {
                    let i = choose|i: int| 0 <= i < extra.len() && (#[trigger] extra[i]).keq(&v);
                    assert(out@[own.len() + i].keq(&v));
                }
            }
        }
        out
    }

    /// Collects the elements that are in exactly one of the two sets.
    #[verifier::rlimit(50)]
    pub fn symmetric_difference<'a>(&'a self, other: &'a HashSet<T>) -> (r: Vec<&'a T>)
        requires
            self.wf(),
            other.wf(),
        ensures
            forall|i: int|
                0 <= i < r@.len() ==> self.spec_has(#[trigger] r@[i]) != other.spec_has(r@[i]),
            forall|i: int, j: int| 0 <= i < j < r@.len() ==> !r@[i].keq(r@[j]),
            forall|v: T|
                (self.spec_has(&v) != other.spec_has(&v)) ==> exists|i: int|
                    0 <= i < r@.len() && (#[trigger] r@[i]).keq(&v),
    {
        let mut out = self.difference(other);
        let mut rest = other.difference(self);
        let ghost own = out@;
        let ghost extra = rest@;
        out.append(&mut rest);
        proof {
            assert(out@ == own + extra);
            assert forall|i: int, j: int| 0 <= i < j < out@.len() implies !out@[i].keq(out@[j]) by {
                if i < own.len() && j >= own.len() {
                    if out@[i].keq(out@[j]) {
                        self.hash_map.lemma_has_key_equiv(own[i], extra[j - own.len()]);
                        assert(self.spec_has(extra[j - own.len()]));
                    }
                }
            }
            assert forall|v: T|
                (self.spec_has(&v) != other.spec_has(&v)) implies exists|i: int|
                0 <= i < out@.len() && (#[trigger] out@[i]).keq(&v) by {
                if self.spec_has(&v) {
                    let i = choose|i: int| 0 <= i < own.len() && (#[trigger] own[i]).keq(&v);
                    assert(out@[i].keq(&v));
                } else {
                    let i = choose|i: int| 0 <= i < extra.len() && (#[trigger] extra[i]).keq(&v);
                    assert(out@[own.len() + i].keq(&v));
                }
            }
        }
        out
    }

    /// Collects the elements present in both sets.
    pub fn intersection<'a>(&'a self, other: &'a HashSet<T>) -> (r: Vec<&'a T>)
        requires
            self.wf(),
            other.wf(),
        ensures
            forall|i: int|
                0 <= i < r@.len() ==> self.spec_has(#[trigger] r@[i]) && other.spec_has(r@[i]),
            forall|i: int, j: int| 0 <= i < j < r@.len() ==> !r@[i].keq(r@[j]),
            forall|v: T|
                self.spec_has(&v) && other.spec_has(&v) ==> exists|i: int|
                    0 <= i < r@.len() && (#[trigger] r@[i]).keq(&v),
    {
        let keys = self.iter();
        let mut out: Vec<&T> = Vec::new();
        let klen = keys.len();
        let mut i: usize = 0;
        while i < klen
            invariant
                self.wf(),
                other.wf(),
                klen == keys@.len(),
                i <= klen,
                forall|j: int| 0 <= j < klen ==> self.spec_has(#[trigger] keys@[j]),
                forall|j: int, j2: int| 0 <= j < j2 < klen ==> !keys@[j].keq(keys@[j2]),
                forall|j: int|
                    0 <= j < out@.len() ==> self.spec_has(#[trigger] out@[j]) && other.spec_has(
                        out@[j],
                    ),
                forall|j: int|
                    0 <= j < out@.len() ==> exists|j0: int|
                        0 <= j0 < i && (#[trigger] out@[j]) == keys@[j0],
                forall|j: int, j2: int| 0 <= j < j2 < out@.len() ==> !out@[j].keq(out@[j2]),
                forall|j: int|
                    0 <= j < i && other.spec_has(#[trigger] keys@[j]) ==> exists|j2: int|
                        0 <= j2 < out@.len() && out@[j2] == keys@[j],
            decreases klen - i,
        {
            let keep = other.contains(keys[i]);
            if keep {
                proof {
                    assert forall|j: int| 0 <= j < out@.len() implies !out@[j].keq(
                        keys@[i as int],
                    ) by {
                        let j0 = choose|j0: int| 0 <= j0 < i && (#[trigger] out@[j]) == keys@[j0];
                        assert(!keys@[j0].keq(keys@[i as int]));
                    }
                }
                let ghost prev_out = out@;
                out.push(keys[i]);
                proof {
                    assert forall|j: int|
                        0 <= j < i + 1 && other.spec_has(#[trigger] keys@[j]) implies exists|
                        j2: int,
                    |
                        0 <= j2 < out@.len() && out@[j2] == keys@[j] by {
                        if j == i as int {
                            assert(out@[out@.len() - 1] == keys@[j]);
                        } else {
                            let j2 = choose|j2: int|
                                0 <= j2 < prev_out.len() && prev_out[j2] == keys@[j];
                            assert(out@[j2] == keys@[j]);
                        }
                    }
                }
            }
            i += 1;
        }
        proof {
            assert forall|v: T|
                self.spec_has(&v) && other.spec_has(&v) implies exists|j2: int|
                0 <= j2 < out@.len() && (#[trigger] out@[j2]).keq(&v) by {
                let j = choose|j: int| 0 <= j < keys@.len() && (#[trigger] keys@[j]).keq(&v);
                other.hash_map.lemma_has_key_equiv(keys@[j], &v);
                assert(other.spec_has(keys@[j]));
                let j2 = choose|j2: int| 0 <= j2 < out@.len() && out@[j2] == keys@[j];
                assert(out@[j2].keq(&v));
            }
        }
        out
    }

    /// Whether the two sets have no element in common.
    pub fn is_disjoint(&self, other: &HashSet<T>) -> (r: bool)
        requires
            self.wf(),
            other.wf(),
        ensures
            r == forall|v: T| !(self.spec_has(&v) && other.spec_has(&v)),
    {
        let common = self.intersection(other);
        let r = common.len() == 0;
        proof {
            if r {
                assert forall|v: T| !(self.spec_has(&v) && other.spec_has(&v)) by {
                    if self.spec_has(&v) && other.spec_has(&v) {
                        let i = choose|i: int|
                            0 <= i < common@.len() && (#[trigger] common@[i]).keq(&v);
                        assert(false);
                    }
                }
            } else {
                let w = common@[0];
                assert(self.spec_has(w) && other.spec_has(w));
            }
        }
        r
    }

    /// Whether every element of `self` is also in `other`.
    #[verifier::rlimit(50)]
    pub fn is_subset(&self, other: &HashSet<T>) -> (r: bool)
        requires
            self.wf(),
            other.wf(),
        ensures
            r == forall|v: T| self.spec_has(&v) ==> other.spec_has(&v),
    {
        let keys = self.iter();
        let klen = keys.len();
        let mut i: usize = 0;
        while i < klen
            invariant
                self.wf(),
                other.wf(),
                klen == keys@.len(),
                i <= klen,
                forall|j: int| 0 <= j < klen ==> self.spec_has(#[trigger] keys@[j]),
                forall|j: int| 0 <= j < i ==> other.spec_has(#[trigger] keys@[j]),
            decreases klen - i,
        {
            if !other.contains(keys[i]) {
                proof {
                    assert(self.spec_has(keys@[i as int]) && !other.spec_has(keys@[i as int]));
                }
                return false;
            }
            i += 1;
        }
        proof {
            assert forall|v: T| self.spec_has(&v) implies other.spec_has(&v) by {
                let j = choose|j: int| 0 <= j < keys@.len() && (#[trigger] keys@[j]).keq(&v);
                other.hash_map.lemma_has_key_equiv(keys@[j], &v);
            }
        }
        true
    }

    /// Whether every element of `other` is also in `self`.
    pub fn is_superset(&self, other: &HashSet<T>) -> (r: bool)
        requires
            self.wf(),
            other.wf(),
        ensures
            r == forall|v: T| other.spec_has(&v) ==> self.spec_has(&v),
    {
        other.is_subset(self)
    }

    /// Whether the two sets hold the same elements: equal sizes and mutual
    /// containment of every element.
    pub fn set_eq(&self, other: &HashSet<T>) -> (r: bool)
        requires
            self.wf(),
            other.wf(),
        ensures
            r ==> forall|v: T| self.spec_has(&v) ==> other.spec_has(&v),
            r ==> self.spec_len() == other.spec_len(),
            !r ==> self.spec_len() != other.spec_len() || exists|v: T|
                self.spec_has(&v) && !other.spec_has(&v),
    {
        if self.len() != other.len() {
            return false;
        }
        self.is_subset(other)
    }
}

} // verus!
