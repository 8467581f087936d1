//! A double-ended queue.
//!
//! The customary shape for this container is a manually managed ring buffer.
//! Here the elements live in one growable buffer with the front at index
//! zero: a ring carries uninitialized slots and index wrap-around, which
//! verified code avoids.

use vstd::prelude::*;

verus! {

/// A queue that grows and shrinks at both ends.
pub struct Deque<T> {
    elems: Vec<T>,
}

impl<T> View for Deque<T> {
    type V = Seq<T>;

    closed spec fn view(&self) -> Seq<T> {
        self.elems@
    }
}

impl<T> Deque<T> {
    /// Constructs a new, empty deque.
    pub fn new() -> (r: Self)
        ensures
            r@ =~= Seq::<T>::empty(),
    {
        Self { elems: Vec::new() }
    }

    /// Prepends the given element to the front.
    pub fn push_front(&mut self, elem: T)
        ensures
            final(self)@ == seq![elem] + old(self)@,
    {
        self.elems.insert(0, elem);
        proof {
            assert(final(self)@ =~= seq![elem] + old(self)@);
        }
    }

    /// Appends the given element to the back.
    pub fn push_back(&mut self, elem: T)
        ensures
            final(self)@ == old(self)@.push(elem),
    {
        self.elems.push(elem);
    }

    /// Removes and returns the front element, or `None` when empty.
    pub fn pop_front(&mut self) -> (r: Option<T>)
        ensures
            match r {
                Some(v) => old(self)@.len() > 0 && v == old(self)@[0] && final(self)@ == old(
                    self,
                )@.drop_first(),
                None => old(self)@.len() == 0 && final(self)@ == old(self)@,
            },
    {
        if self.elems.len() == 0 {
            return None;
        }
        let v = self.elems.remove(0);
        proof {
            assert(final(self)@ =~= old(self)@.drop_first());
        }
        Some(v)
    }

    /// Removes and returns the back element, or `None` when empty.
    pub fn pop_back(&mut self) -> (r: Option<T>)
        ensures
            match r {
                Some(v) => old(self)@.len() > 0 && v == old(self)@.last() && final(self)@ == old(
                    self,
                )@.drop_last(),
                None => old(self)@.len() == 0 && final(self)@ == old(self)@,
            },
    {
        self.elems.pop()
    }

    /// A reference to the front element, if any.
    pub fn front(&self) -> (r: Option<&T>)
        ensures
            match r {
                Some(v) => self@.len() > 0 && *v == self@[0],
                None => self@.len() == 0,
            },
    {
        self.elems.first()
    }

    /// A reference to the back element, if any.
    pub fn back(&self) -> (r: Option<&T>)
        ensures
            match r {
                Some(v) => self@.len() > 0 && *v == self@.last(),
                None => self@.len() == 0,
            },
    {
        self.elems.last()
    }

    /// Whether the deque holds no element.
    pub fn is_empty(&self) -> (r: bool)
        ensures
            r == (self@.len() == 0),
    {
        self.elems.len() == 0
    }

    /// The number of elements.
    pub fn len(&self) -> (r: usize)
        ensures
            r == self@.len(),
    {
        self.elems.len()
    }

    /// An iterator that yields a reference to each element, front to back.
    pub fn iter(&self) -> (it: Iter<T>)
        ensures
            it.remaining() == self@,
    {
        let it = Iter { deque: self, at: 0 };
        proof {
            assert(it.remaining() =~= self@);
        }
        it
    }

    /// A consuming iterator over the elements, front to back.
    pub fn into_iter(self) -> (it: IntoIter<T>)
        ensures
            it.remaining() == self@,
    {
        IntoIter { deque: self }
    }
}

/// A borrowing iterator over a deque.
pub struct Iter<'a, T> {
    deque: &'a Deque<T>,
    at: usize,
}

impl<'a, T> Iter<'a, T> {
    /// The elements still to be yielded, in order.
    pub closed spec fn remaining(&self) -> Seq<T> {
        if self.at <= self.deque@.len() {
            self.deque@.skip(self.at as int)
        } else {
            Seq::empty()
        }
    }

    /// Yields a reference to the next element, front first.
    pub fn next(&mut self) -> (r: Option<&'a T>)
        ensures
            match r {
                Some(v) => old(self).remaining().len() > 0 && *v == old(self).remaining()[0]
                    && final(self).remaining() == old(self).remaining().drop_first(),
                None => old(self).remaining().len() == 0 && final(self).remaining() == old(
                    self,
                ).remaining(),
            },
    {
        if self.at < self.deque.elems.len() {
            let v = &self.deque.elems[self.at];
            self.at = self.at + 1;
            proof {
                assert(final(self).remaining() =~= old(self).remaining().drop_first());
            }
            Some(v)
        } else {
            None
        }
    }
}

/// An owning iterator over a deque.
pub struct IntoIter<T> {
    deque: Deque<T>,
}

impl<T> IntoIter<T> {
    /// The elements still to be yielded, front first.
    pub closed spec fn remaining(&self) -> Seq<T> {
        self.deque@
    }

    /// Moves the next element out of the front.
    pub fn next(&mut self) -> (r: Option<T>)
        ensures
            match r {
                Some(v) => old(self).remaining().len() > 0 && v == old(self).remaining()[0]
                    && final(self).remaining() == old(self).remaining().drop_first(),
                None => old(self).remaining().len() == 0 && final(self).remaining() == old(
                    self,
                ).remaining(),
            },
    {
        self.deque.pop_front()
    }
}

} // verus!
