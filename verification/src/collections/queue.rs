//! A first-in/first-out queue backed by a vector.

use vstd::prelude::*;

verus! {

/// A queue that enqueues at the back of a vector and dequeues from its front.
pub struct Queue<T> {
    items: Vec<T>,
}

impl<T> View for Queue<T> {
    type V = Seq<T>;

    closed spec fn view(&self) -> Seq<T> {
        self.items@
    }
}

impl<T> Queue<T> {
    /// Initializes an empty queue.
    pub fn new() -> (r: Self)
        ensures
            r@ =~= Seq::<T>::empty(),
    {
        Self { items: Vec::new() }
    }

    /// Adds an element at the back of the queue.
    pub fn enqueue(&mut self, item: T)
        ensures
            final(self)@ == old(self)@.push(item),
    {
        self.items.push(item);
    }

    /// Removes and returns the least recently added element, or `None` when
    /// the queue is empty.
    pub fn dequeue(&mut self) -> (r: Option<T>)
        ensures
            match r {
                Some(v) => old(self)@.len() > 0 && v == old(self)@[0] && final(self)@ == old(
                    self,
                )@.drop_first(),
                None => old(self)@.len() == 0 && final(self)@ == old(self)@,
            },
    {
        match self.items.is_empty() {
            false => {
                let v = self.items.remove(0);
                proof {
                    assert(self.items@ =~= old(self)@.drop_first());
                }
                Some(v)
            },
            true => None,
        }
    }

    /// A reference to the least recently added element, if any.
    pub fn peek(&self) -> (r: Option<&T>)
        ensures
            match r {
                Some(v) => self@.len() > 0 && *v == self@[0],
                None => self@.len() == 0,
            },
    {
        self.items.first()
    }

    /// The number of elements in the queue.
    pub fn size(&self) -> (r: usize)
        ensures
            r == self@.len(),
    {
        self.items.len()
    }
}

} // verus!
