//! A stack with a fixed capacity, backed by a vector.

use vstd::prelude::*;

verus! {

/// A last-in/first-out container holding at most `maxsize` items.
pub struct Stack<T> {
    maxsize: usize,
    items: Vec<T>,
}

impl<T> View for Stack<T> {
    type V = Seq<T>;

    closed spec fn view(&self) -> Seq<T> {
        self.items@
    }
}

impl<T> Stack<T> {
    /// The capacity the stack was created with.
    pub closed spec fn capacity(&self) -> nat {
        self.maxsize as nat
    }

    /// Initializes a stack of the given capacity.
    pub fn with_capacity(maxsize: usize) -> (r: Self)
        ensures
            r@ =~= Seq::<T>::empty(),
            r.capacity() == maxsize,
    {
        Self { maxsize, items: Vec::with_capacity(maxsize) }
    }

    /// Removes and returns the most recently pushed item, or `None` when the
    /// stack is empty.
    pub fn pop(&mut self) -> (r: Option<T>)
        ensures
            final(self).capacity() == old(self).capacity(),
            match r {
                Some(v) => old(self)@.len() > 0 && v == old(self)@.last() && final(self)@ == old(
                    self,
                )@.drop_last(),
                None => old(self)@.len() == 0 && final(self)@ == old(self)@,
            },
    {
        self.items.pop()
    }

    /// Pushes an item. Returns `true` if there was room, and `false` — leaving
    /// the stack unchanged — when the capacity is already reached.
    pub fn push(&mut self, item: T) -> (r: bool)
        ensures
            final(self).capacity() == old(self).capacity(),
            old(self)@.len() == old(self).capacity() ==> r == false && final(self)@ == old(self)@,
            old(self)@.len() != old(self).capacity() ==> r == true && final(self)@ == old(
                self,
            )@.push(item),
    {
        if self.items.len() == self.maxsize {
            return false;
        }
        self.items.push(item);
        return true;
    }

    /// The number of items currently on the stack.
    pub fn size(&self) -> (r: usize)
        ensures
            r == self@.len(),
    {
        self.items.len()
    }

    /// A reference to the most recently pushed item, if any.
    pub fn peek(&self) -> (r: Option<&T>)
        ensures
            match r {
                Some(v) => self@.len() > 0 && *v == self@.last(),
                None => self@.len() == 0,
            },
    {
        self.items.last()
    }
}

} // verus!
