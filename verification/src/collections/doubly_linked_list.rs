//! A list with access to both ends and positional insertion and removal.
//!
//! The customary shape for this container is a doubly-linked node graph. Here
//! the elements live in one growable buffer and positions take the place of
//! node pointers: a two-way chain of nodes needs shared mutable aliasing,
//! which verified code avoids.

use vstd::prelude::*;

verus! {

/// A sequence container with both ends accessible, indexable by position.
pub struct DoublyLinkedList<T> {
    elems: Vec<T>,
}

impl<T> View for DoublyLinkedList<T> {
    type V = Seq<T>;

    closed spec fn view(&self) -> Seq<T> {
        self.elems@
    }
}

impl<T> DoublyLinkedList<T> {
    /// Constructs a new, empty list.
    pub fn new() -> (r: Self)
        ensures
            r@ =~= Seq::<T>::empty(),
    {
        Self { elems: Vec::new() }
    }

    /// Prepends the given element to the beginning of the list.
    pub fn push_front(&mut self, elem: T)
        ensures
            final(self)@ == seq![elem] + old(self)@,
    {
        self.elems.insert(0, elem);
        proof {
            assert(final(self)@ =~= seq![elem] + old(self)@);
        }
    }

    /// Appends the given element to the end of the list.
    pub fn push_back(&mut self, elem: T)
        ensures
            final(self)@ == old(self)@.push(elem),
    {
        self.elems.push(elem);
    }

    /// Removes and returns the first element, or `None` on an empty list.
    pub fn pop_front(&mut self) -> (r: Option<T>)
        ensures
            match r {
                Some(v) => old(self)@.len() > 0 && v == old(self)@[0] && final(self)@ == old(
                    self,
                )@.drop_first(),
                None => old(self)@.len() == 0 && final(self)@ == old(self)@,
            },
    {
        if self.elems.len() == 0 {
            return None;
        }
        let v = self.elems.remove(0);
        proof {
            assert(final(self)@ =~= old(self)@.drop_first());
        }
        Some(v)
    }

    /// Removes and returns the last element, or `None` on an empty list.
    pub fn pop_back(&mut self) -> (r: Option<T>)
        ensures
            match r {
                Some(v) => old(self)@.len() > 0 && v == old(self)@.last() && final(self)@ == old(
                    self,
                )@.drop_last(),
                None => old(self)@.len() == 0 && final(self)@ == old(self)@,
            },
    {
        self.elems.pop()
    }

    /// Inserts an element at position `pos`, shifting the elements after it
    /// towards the back. When the position is out of bounds, returns the size
    /// of the list as the error. The position one past the last element is
    /// out of bounds too: insertion happens in front of an existing element.
    pub fn insert(&mut self, pos: usize, elem: T) -> (r: Result<(), usize>)
        ensures
            match r {
                Ok(()) => pos < old(self)@.len() && final(self)@ == old(self)@.insert(
                    pos as int,
                    elem,
                ),
                Err(e) => pos >= old(self)@.len() && e == old(self)@.len() && final(self)@ == old(
                    self,
                )@,
            },
    {
        let len = self.elems.len();
        if pos >= len {
            return Err(len);
        }
        self.elems.insert(pos, elem);
        Ok(())
    }

    /// Removes and returns the element at position `pos`, if any.
    pub fn remove(&mut self, pos: usize) -> (r: Option<T>)
        ensures
            match r {
                Some(v) => pos < old(self)@.len() && v == old(self)@[pos as int] && final(self)@
                    == old(self)@.remove(pos as int),
                None => pos >= old(self)@.len() && final(self)@ == old(self)@,
            },
    {
        if pos >= self.elems.len() {
            return None;
        }
        Some(self.elems.remove(pos))
    }

    /// Removes all elements from the list.
    pub fn clear(&mut self)
        ensures
            final(self)@ =~= Seq::<T>::empty(),
    {
        *self = Self::new();
    }

    /// Whether the list holds no element.
    pub fn is_empty(&self) -> (r: bool)
        ensures
            r == (self@.len() == 0),
    {
        self.elems.len() == 0
    }

    /// The number of elements in the list.
    pub fn len(&self) -> (r: usize)
        ensures
            r == self@.len(),
    {
        self.elems.len()
    }

    /// An iterator that yields a reference to each element in order.
    pub fn iter(&self) -> (it: Iter<T>)
        ensures
            it.remaining() == self@,
    {
        let it = Iter { list: self, at: 0 };
        proof {
            assert(it.remaining() =~= self@);
        }
        it
    }

    /// A consuming iterator over the elements, usable from both ends.
    pub fn into_iter(self) -> (it: IntoIter<T>)
        ensures
            it.remaining() == self@,
    {
        IntoIter { list: self }
    }
}

/// A borrowing iterator over the list.
pub struct Iter<'a, T> {
    list: &'a DoublyLinkedList<T>,
    at: usize,
}

impl<'a, T> Iter<'a, T> {
    /// The elements still to be yielded, in order.
    pub closed spec fn remaining(&self) -> Seq<T> {
        if self.at <= self.list@.len() {
            self.list@.skip(self.at as int)
        } else {
            Seq::empty()
        }
    }

    /// Yields a reference to the next element, front first.
    pub fn next(&mut self) -> (r: Option<&'a T>)
        ensures
            match r {
                Some(v) => old(self).remaining().len() > 0 && *v == old(self).remaining()[0]
                    && final(self).remaining() == old(self).remaining().drop_first(),
                None => old(self).remaining().len() == 0 && final(self).remaining() == old(
                    self,
                ).remaining(),
            },
    {
        if self.at < self.list.elems.len() {
            let v = &self.list.elems[self.at];
            self.at = self.at + 1;
            proof {
                assert(final(self).remaining() =~= old(self).remaining().drop_first());
            }
            Some(v)
        } else {
            None
        }
    }
}

/// An owning iterator over the list, usable from both ends.
pub struct IntoIter<T> {
    list: DoublyLinkedList<T>,
}

impl<T> IntoIter<T> {
    /// The elements still to be yielded, front first.
    pub closed spec fn remaining(&self) -> Seq<T> {
        self.list@
    }

    /// Moves the next element out of the front.
    pub fn next(&mut self) -> (r: Option<T>)
        ensures
            match r {
                Some(v) => old(self).remaining().len() > 0 && v == old(self).remaining()[0]
                    && final(self).remaining() == old(self).remaining().drop_first(),
                None => old(self).remaining().len() == 0 && final(self).remaining() == old(
                    self,
                ).remaining(),
            },
    {
        self.list.pop_front()
    }

    /// Moves the next element out of the back.
    pub fn next_back(&mut self) -> (r: Option<T>)
        ensures
            match r {
                Some(v) => old(self).remaining().len() > 0 && v == old(self).remaining().last()
                    && final(self).remaining() == old(self).remaining().drop_last(),
                None => old(self).remaining().len() == 0 && final(self).remaining() == old(
                    self,
                ).remaining(),
            },
    {
        self.list.pop_back()
    }
}

} // verus!
