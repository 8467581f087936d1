//! A singly-linked list with owned nodes.

use vstd::prelude::*;

verus! {

/// Internal node representation.
struct Node<T> {
    elem: T,
    next: Option<Box<Node<T>>>,
}

/// A singly-linked list of owned nodes; every operation starts from the head.
pub struct SinglyLinkedList<T> {
    head: Option<Box<Node<T>>>,
}

/// The elements reachable from a link, front first.
spec fn link_view<T>(l: Option<Box<Node<T>>>) -> Seq<T>
    decreases l,
{
    match l {
        None => Seq::empty(),
        Some(n) => seq![n.elem] + link_view(n.next),
    }
}

impl<T> View for SinglyLinkedList<T> {
    type V = Seq<T>;

    closed spec fn view(&self) -> Seq<T> {
        link_view(self.head)
    }
}

/// Inserts `elem` right after the element `pos` positions down the link, or
/// reports the length of the chain when it is too short to have one there.
fn insert_after_link<T>(link: &mut Option<Box<Node<T>>>, pos: usize, elem: T) -> (r: Result<
    (),
    usize,
>)
    requires
        link_view(*old(link)).len() < usize::MAX,
    ensures
        match r {
            Ok(()) => pos < link_view(*old(link)).len() && link_view(*final(link)) == link_view(
                *old(link),
            ).insert(pos + 1, elem),
            Err(e) => pos >= link_view(*old(link)).len() && e == link_view(*old(link)).len()
                && link_view(*final(link)) == link_view(*old(link)),
        },
    decreases pos,
{
    let r: Result<(), usize> = match link {
        None => Err(0),
        Some(node) => {
            if pos == 0 {
                let new_node = Box::new(Node { elem, next: node.next.take() });
                node.next = Some(new_node);
                Ok(())
            } else {
                match insert_after_link(&mut node.next, pos - 1, elem) {
                    Ok(()) => Ok(()),
                    Err(e) => Err(e + 1),
                }
            }
        },
    };
    proof {
        if r is Ok {
            let ob = (*old(link))->0;
            let nb = (*link)->0;
            assert(nb.elem == ob.elem);
            if pos == 0 {
                assert(*link is Some);
                assert(*old(link) is Some);
                assert(nb.next is Some);
                assert(nb.next->0.elem == elem);
                assert(nb.next->0.next == ob.next);
                assert(link_view(*link) == seq![nb.elem] + link_view(nb.next));
                assert(link_view(nb.next) == seq![elem] + link_view(nb.next->0.next));
                assert(link_view(*old(link)) == seq![ob.elem] + link_view(ob.next));
                assert(link_view(*link) =~= seq![ob.elem, elem] + link_view(ob.next));
            }
            assert(link_view(*link) =~= link_view(*old(link)).insert(pos + 1, elem));
        } else {
            assert(link_view(*link) =~= link_view(*old(link)));
        }
    }
    r
}

/// Removes and returns the element `pos` positions down the link, if any.
fn remove_link<T>(link: &mut Option<Box<Node<T>>>, pos: usize) -> (r: Option<T>)
    ensures
        match r {
            Some(v) => pos < link_view(*old(link)).len() && v == link_view(*old(link))[pos as int]
                && link_view(*final(link)) == link_view(*old(link)).remove(pos as int),
            None => pos >= link_view(*old(link)).len() && link_view(*final(link)) == link_view(
                *old(link),
            ),
        },
    decreases pos,
{
    let r: Option<T> = match link.take() {
        None => None,
        Some(mut node) => {
            if pos == 0 {
                *link = node.next;
                Some(node.elem)
            } else {
                let inner = remove_link(&mut node.next, pos - 1);
                *link = Some(node);
                inner
            }
        },
    };
    proof {
        if r is Some {
            assert(link_view(*link) =~= link_view(*old(link)).remove(pos as int));
        }
    }
    r
}

/// The number of elements reachable from a link.
fn len_link<T>(link: &Option<Box<Node<T>>>) -> (r: usize)
    requires
        link_view(*link).len() <= usize::MAX,
    ensures
        r == link_view(*link).len(),
    decreases *link,
{
    match link {
        None => 0,
        Some(node) => 1 + len_link(&node.next),
    }
}

impl<T> SinglyLinkedList<T> {
    /// Constructs a new, empty list.
    pub fn new() -> (r: Self)
        ensures
            r@ =~= Seq::<T>::empty(),
    {
        Self { head: None }
    }

    /// Prepends the given element to the beginning of the list.
    pub fn push_front(&mut self, elem: T)
        ensures
            final(self)@ == seq![elem] + old(self)@,
    {
        let next = self.head.take();
        self.head = Some(Box::new(Node { elem, next }));
    }

    /// Removes and returns the first element, or `None` on an empty list.
    pub fn pop_front(&mut self) -> (r: Option<T>)
        ensures
            match r {
                Some(v) => old(self)@.len() > 0 && v == old(self)@[0] && final(self)@ == old(
                    self,
                )@.drop_first(),
                None => old(self)@.len() == 0 && final(self)@ == old(self)@,
            },
    {
        let head = self.head.take();
        match head {
            Some(node) => {
                self.head = node.next;
                proof {
                    assert(final(self)@ =~= old(self)@.drop_first());
                }
                Some(node.elem)
            },
            None => None,
        }
    }

    /// Inserts an element after position `pos`. When the position is out of
    /// bounds, returns the size of the list as the error.
    pub fn insert_after(&mut self, pos: usize, elem: T) -> (r: Result<(), usize>)
        requires
            old(self)@.len() < usize::MAX,
        ensures
            match r {
                Ok(()) => pos < old(self)@.len() && final(self)@ == old(self)@.insert(
                    pos + 1,
                    elem,
                ),
                Err(e) => pos >= old(self)@.len() && e == old(self)@.len() && final(self)@ == old(
                    self,
                )@,
            },
    {
        insert_after_link(&mut self.head, pos, elem)
    }

    /// Removes and returns the element at position `pos`, if any.
    pub fn remove(&mut self, pos: usize) -> (r: Option<T>)
        ensures
            match r {
                Some(v) => pos < old(self)@.len() && v == old(self)@[pos as int] && final(self)@
                    == old(self)@.remove(pos as int),
                None => pos >= old(self)@.len() && final(self)@ == old(self)@,
            },
    {
        remove_link(&mut self.head, pos)
    }

    /// Removes and returns the element at position `pos`, if any: removal by
    /// position under its other customary name.
    pub fn erase(&mut self, pos: usize) -> (r: Option<T>)
        ensures
            match r {
                Some(v) => pos < old(self)@.len() && v == old(self)@[pos as int] && final(self)@
                    == old(self)@.remove(pos as int),
                None => pos >= old(self)@.len() && final(self)@ == old(self)@,
            },
    {
        remove_link(&mut self.head, pos)
    }

    /// Removes every element.
    pub fn clear(&mut self)
        ensures
            final(self)@ =~= Seq::<T>::empty(),
    {
        *self = Self::new();
    }

    /// Whether the list holds no element.
    pub fn is_empty(&self) -> (r: bool)
        ensures
            r == (self@.len() == 0),
    {
        self.head.is_none()
    }

    /// The number of elements, counted by walking the chain.
    pub fn len(&self) -> (r: usize)
        requires
            self@.len() <= usize::MAX,
        ensures
            r == self@.len(),
    {
        len_link(&self.head)
    }

    /// Reverses the order of the elements in place.
    pub fn reverse(&mut self)
        ensures
            final(self)@ == old(self)@.reverse(),
    {
        let ghost whole = self@;
        let mut prev: Option<Box<Node<T>>> = None;
        let mut curr = self.head.take();
        while curr.is_some()
            invariant
                link_view(prev).reverse() + link_view(curr) =~= whole,
            decreases link_view(curr).len(),
        {
            let mut node = curr.unwrap();
            let ghost pv = link_view(prev);
            let ghost cv = link_view(curr);
            let next = node.next;
            node.next = prev.take();
            prev = Some(node);
            curr = next;
            proof {
                assert(link_view(prev) =~= seq![cv[0]] + pv);
                assert(link_view(prev).reverse() =~= pv.reverse() + seq![cv[0]]);
                assert(link_view(prev).reverse() + link_view(curr) =~= whole);
            }
        }
        self.head = prev;
        proof {
            assert(link_view(curr) =~= Seq::<T>::empty());
            assert(final(self)@ =~= whole.reverse());
        }
    }

    /// An iterator that yields a reference to each element in order.
    pub fn iter(&self) -> (it: Iter<T>)
        ensures
            it.remaining() == self@,
    {
        Iter {
            next: match &self.head {
                Some(b) => Some(&**b),
                None => None,
            },
        }
    }

    /// A consuming iterator that moves each element out of the list in order.
    pub fn into_iter(self) -> (it: IntoIter<T>)
        ensures
            it.remaining() == self@,
    {
        IntoIter { list: self }
    }
}

/// A borrowing iterator over a singly-linked list.
pub struct Iter<'a, T> {
    next: Option<&'a Node<T>>,
}

impl<'a, T> Iter<'a, T> {
    /// The elements still to be yielded, in order.
    pub closed spec fn remaining(&self) -> Seq<T> {
        match self.next {
            None => Seq::empty(),
            Some(n) => seq![n.elem] + link_view(n.next),
        }
    }

    /// Yields a reference to the next element, front first.
    pub fn next(&mut self) -> (r: Option<&'a T>)
        ensures
            match r {
                Some(v) => old(self).remaining().len() > 0 && *v == old(self).remaining()[0]
                    && final(self).remaining() == old(self).remaining().drop_first(),
                None => old(self).remaining().len() == 0 && final(self).remaining() == old(
                    self,
                ).remaining(),
            },
    {
        match self.next {
            Some(node) => {
                self.next = match &node.next {
                    Some(b) => Some(&**b),
                    None => None,
                };
                proof {
                    assert(final(self).remaining() =~= old(self).remaining().drop_first());
                }
                Some(&node.elem)
            },
            None => None,
        }
    }
}

/// An owning iterator over a singly-linked list.
pub struct IntoIter<T> {
    list: SinglyLinkedList<T>,
}

impl<T> IntoIter<T> {
    /// The elements still to be yielded, in order.
    pub closed spec fn remaining(&self) -> Seq<T> {
        self.list@
    }

    /// Moves the next element out of the list, front first.
    pub fn next(&mut self) -> (r: Option<T>)
        ensures
            match r {
                Some(v) => old(self).remaining().len() > 0 && v == old(self).remaining()[0]
                    && final(self).remaining() == old(self).remaining().drop_first(),
                None => old(self).remaining().len() == 0 && final(self).remaining() == old(
                    self,
                ).remaining(),
            },
    {
        self.list.pop_front()
    }
}

} // verus!
