use rust_algorithm_club::collections::{deque, doubly_linked_list, singly_linked_list};
use rust_algorithm_club::collections::{Deque, DoublyLinkedList, SinglyLinkedList};
use std::cell::Cell;
use std::rc::Rc;

fn drain_singly(l: SinglyLinkedList<i32>) -> Vec<i32> {
    let mut out = Vec::new();
    let mut it = l.into_iter();
    while let Some(v) = it.next() {
        out.push(v);
    }
    out
}

fn drain_doubly(l: DoublyLinkedList<i32>) -> Vec<i32> {
    let mut out = Vec::new();
    let mut it = l.into_iter();
    while let Some(v) = it.next() {
        out.push(v);
    }
    out
}

#[test]
fn singly_basics() {
    let mut l = SinglyLinkedList::<i32>::new();
    assert_eq!(l.len(), 0);
    assert_eq!(l.pop_front(), None);
    assert_eq!(l.len(), 0);
    assert!(l.is_empty());
}

#[test]
fn singly_push_pop() {
    let mut l = SinglyLinkedList::<i32>::new();
    l.push_front(1);
    l.push_front(2);
    l.push_front(3);

    // Check length and emptiness.
    assert_eq!(l.len(), 3);
    assert!(!l.is_empty());

    // Check removal.
    assert_eq!(l.pop_front(), Some(3));

    // Push more element to check popping correctly.
    l.push_front(4);
    l.push_front(5);
    assert_eq!(l.len(), 4);
    assert_eq!(l.pop_front(), Some(5));
    assert_eq!(l.pop_front(), Some(4));

    // Pop all elements to check exhaustion.
    assert_eq!(l.pop_front(), Some(2));
    assert_eq!(l.pop_front(), Some(1));
    assert_eq!(l.pop_front(), None);
    assert_eq!(l.len(), 0);

    // Check clear works.
    l.push_front(6);
    l.push_front(7);
    l.clear();
    assert!(l.is_empty());
}

#[test]
fn singly_reverse() {
    let mut l = SinglyLinkedList::<i32>::new();
    // 0 elements without crash;
    l.reverse();
    assert_eq!(drain_singly(l), Vec::<i32>::new());

    let mut l = SinglyLinkedList::<i32>::new();
    l.push_front(1);
    l.reverse();
    assert_eq!(drain_singly(l), vec![1]);

    let mut l = SinglyLinkedList::<i32>::new();
    l.push_front(1);
    l.push_front(2);
    l.reverse();
    assert_eq!(drain_singly(l), vec![1, 2]);

    let mut l = SinglyLinkedList::<i32>::new();
    l.push_front(1);
    l.push_front(2);
    l.push_front(3);
    l.reverse();
    assert_eq!(drain_singly(l), vec![1, 2, 3]);
}

#[test]
fn mod_reverse() {
    let mut l = SinglyLinkedList::<i32>::new();
    l.reverse();
    assert_eq!(drain_singly(l), Vec::<i32>::new());

    let mut l = SinglyLinkedList::<i32>::new();
    l.push_front(1);
    l.push_front(2);
    l.push_front(3);
    l.reverse();
    assert_eq!(drain_singly(l), vec![1, 2, 3]);
}

#[test]
fn singly_insert() {
    let mut l = SinglyLinkedList::<i32>::new();
    l.push_front(1);
    l.push_front(2);
    l.push_front(3);

    // Out of bound! Return the size of the list.
    assert_eq!(l.insert_after(3, 10).unwrap_err(), 3);

    // Insertion succeeded.
    assert!(l.insert_after(0, 10).is_ok());
    let mut it = l.iter();
    assert_eq!(it.next(), Some(&3));
    assert_eq!(it.next(), Some(&10));
    assert_eq!(it.next(), Some(&2));
    assert_eq!(it.next(), Some(&1));
    assert_eq!(it.next(), None);

    // Insertion succeeded again.
    assert!(l.insert_after(3, 11).is_ok());
    assert_eq!(drain_singly(l), vec![3, 10, 2, 1, 11]);
}

#[test]
fn erase() {
    let mut l = SinglyLinkedList::<i32>::new();
    l.push_front(1);
    l.push_front(2);
    l.push_front(3);
    assert!(l.erase(5).is_none());
    assert_eq!(l.erase(1), Some(2));

    // Check remain list is in correct form.
    let mut it = l.iter();
    assert_eq!(it.next(), Some(&3));
    assert_eq!(it.next(), Some(&1));
    assert_eq!(it.next(), None);

    // Erase all elements
    assert_eq!(l.erase(1), Some(1));
    assert_eq!(l.erase(0), Some(3));
}

#[test]
fn mod_push_pop() {
    // the singly-linked list pushes and pops at the front
    let mut l = SinglyLinkedList::<i32>::new();
    l.push_front(1);
    l.push_front(2);
    l.push_front(3);
    assert_eq!(l.len(), 3);
    assert!(!l.is_empty());
    assert_eq!(l.pop_front(), Some(3));
    l.push_front(4);
    l.push_front(5);
    assert_eq!(l.len(), 4);
    assert_eq!(l.pop_front(), Some(5));
    assert_eq!(l.pop_front(), Some(4));
    assert_eq!(l.pop_front(), Some(2));
    assert_eq!(l.pop_front(), Some(1));
    assert_eq!(l.pop_front(), None);
    assert_eq!(l.len(), 0);
    l.push_front(6);
    l.push_front(7);
    l.clear();
    assert!(l.is_empty());

    // the deque pushes and pops at both ends
    let mut d = Deque::new();
    assert_eq!(d.len(), 0);
    assert_eq!(d.front(), None);
    assert_eq!(d.back(), None);

    d.push_back(1);
    d.push_back(2);
    // [1, 2]
    assert_eq!(d.len(), 2);
    assert_eq!(d.front(), Some(&1));
    assert_eq!(d.back(), Some(&2));

    d.push_front(3);
    d.push_front(4);
    // [4, 3, 1, 2]
    assert_eq!(d.len(), 4);
    assert_eq!(d.front(), Some(&4));
    assert_eq!(d.back(), Some(&2));

    assert_eq!(d.pop_front(), Some(4));
    assert_eq!(d.pop_front(), Some(3));
    assert_eq!(d.pop_front(), Some(1));
    assert_eq!(d.pop_front(), Some(2));
    assert_eq!(d.pop_front(), None);
    assert_eq!(d.len(), 0);
    assert_eq!(d.front(), None);
    assert_eq!(d.back(), None);

    d.push_front(5);
    d.push_front(6);
    // [6, 5]
    assert_eq!(d.len(), 2);
    assert_eq!(d.front(), Some(&6));
    assert_eq!(d.back(), Some(&5));

    assert_eq!(d.pop_back(), Some(5));
    assert_eq!(d.pop_back(), Some(6));
    assert_eq!(d.pop_back(), None);
    assert_eq!(d.len(), 0);
    assert_eq!(d.front(), None);
    assert_eq!(d.back(), None);
}

#[test]
fn mod_iter() {
    let mut d = Deque::new();
    d.push_back(1);
    d.push_back(2);
    d.push_front(3);
    d.push_front(4);
    d.push_front(5);
    d.push_front(6);
    // [6, 5, 4, 3, 1, 2]

    let mut iter = d.iter();
    assert_eq!(iter.next(), Some(&6));
    assert_eq!(iter.next(), Some(&5));
    assert_eq!(iter.next(), Some(&4));
    assert_eq!(iter.next(), Some(&3));
    assert_eq!(iter.next(), Some(&1));
    assert_eq!(iter.next(), Some(&2));
    assert_eq!(iter.next(), None);

    let mut l = SinglyLinkedList::<i32>::new();
    l.push_front(1);
    l.push_front(2);
    l.push_front(3);

    let mut it = l.iter();
    assert_eq!(it.next(), Some(&3));
    assert_eq!(it.next(), Some(&2));
    assert_eq!(it.next(), Some(&1));
}

#[test]
fn mod_into_iter() {
    let mut d = Deque::new();
    d.push_back(1);
    d.push_back(2);
    d.push_front(3);
    d.push_front(4);
    // [4, 3, 1, 2]

    let mut collected = Vec::new();
    let mut it = d.into_iter();
    while let Some(v) = it.next() {
        collected.push(v);
    }
    assert_eq!(&[4, 3, 1, 2], &collected[..]);

    let mut d = Deque::new();
    d.push_back(1);
    d.push_back(2);
    d.push_front(3);
    d.push_front(4);
    // [4, 3, 1, 2]
    let mut l = vec![];
    let mut it = d.iter();
    while let Some(v) = it.next() {
        l.push(v);
    }
    assert_eq!(&[&4, &3, &1, &2], &l[..]);

    // the consuming iterator of the two-ended list works from both ends
    let mut dl = DoublyLinkedList::<i32>::new();
    dl.push_back(1);
    dl.push_back(2);
    dl.push_back(3);
    assert_eq!(vec![1, 2, 3], drain_doubly(dl));

    let mut dl = DoublyLinkedList::<i32>::new();
    dl.push_back(1);
    dl.push_back(2);
    dl.push_back(3);
    let mut iter = dl.into_iter();
    assert_eq!(iter.next_back(), Some(3));
    assert_eq!(iter.next(), Some(1));
    assert_eq!(iter.next(), Some(2));
    assert_eq!(iter.next_back(), None);
    assert_eq!(iter.next(), None);

    // the singly-linked list drains front to back
    let mut sl = SinglyLinkedList::<i32>::new();
    sl.push_front(1);
    sl.push_front(2);
    sl.push_front(3);
    assert_eq!(vec![3, 2, 1], drain_singly(sl));
}

#[test]
fn mod_complex_data() {
    let mut d = Deque::new();
    assert_eq!(d.len(), 0);
    d.push_front(vec![]);
    d.push_back(vec![Box::new(())]);
    d.push_back(vec![Box::new(()), Box::new(())]);
    d.push_front(vec![Box::new(()), Box::new(()), Box::new(())]);
    let mut it = d.iter();
    assert_eq!(it.next().unwrap().len(), 3);
    assert_eq!(it.next().unwrap().len(), 0);
    assert_eq!(it.next().unwrap().len(), 1);
    assert_eq!(it.next().unwrap().len(), 2);
}

struct CountsDrops(Rc<Cell<u32>>);

impl Drop for CountsDrops {
    fn drop(&mut self) {
        self.0.set(self.0.get() + 1);
    }
}

#[test]
fn mod_drop() {
    let drops = Rc::new(Cell::new(0u32));
    let s = || CountsDrops(drops.clone());
    let mut d = Deque::new();
    d.push_back(s());
    d.push_back(s());
    d.push_back(s());
    d.push_front(s());
    d.push_front(s());
    core::mem::drop(d);
    assert_eq!(drops.get(), 5);
}

#[test]
fn mod_zero_sized() {
    let mut d = Deque::new();
    d.push_back(());
    d.push_front(());
    d.push_front(());
    d.push_back(());
    assert_eq!(d.len(), 4);
    assert_eq!(d.pop_back(), Some(()));
    assert_eq!(d.pop_back(), Some(()));
    assert_eq!(d.len(), 2);
    assert_eq!(d.front(), Some(&()));
    assert_eq!(d.back(), Some(&()));
    let mut collected = Vec::new();
    let mut it = d.into_iter();
    while let Some(v) = it.next() {
        collected.push(v);
    }
    assert_eq!(collected, vec![(), ()]);
}

#[test]
fn drop_counts_stay_exact() {
    // every stored sentinel is destroyed exactly once, list-wide teardown
    // included
    let drops = Rc::new(Cell::new(0u32));
    let s = || CountsDrops(drops.clone());

    let mut sl = SinglyLinkedList::new();
    for _ in 0..4 {
        sl.push_front(s());
    }
    let popped = sl.pop_front();
    core::mem::drop(popped);
    assert_eq!(drops.get(), 1);
    core::mem::drop(sl);
    assert_eq!(drops.get(), 4);

    let mut dl = DoublyLinkedList::new();
    for _ in 0..3 {
        dl.push_back(s());
    }
    core::mem::drop(dl);
    assert_eq!(drops.get(), 7);
}

#[test]
fn doubly_iter_in_order() {
    let mut dl = DoublyLinkedList::<i32>::new();
    dl.push_back(7);
    dl.push_front(5);
    dl.push_back(9);
    // [5, 7, 9]
    let mut it = dl.iter();
    assert_eq!(it.next(), Some(&5));
    assert_eq!(it.next(), Some(&7));
    assert_eq!(it.next(), Some(&9));
    assert_eq!(it.next(), None);
    assert_eq!(dl.len(), 3);

    let mut used = doubly_linked_list::DoublyLinkedList::<i32>::new();
    used.push_back(1);
    assert_eq!(used.pop_back(), Some(1));

    let mut q = deque::Deque::<i32>::new();
    q.push_back(1);
    assert_eq!(q.pop_front(), Some(1));

    let mut s = singly_linked_list::SinglyLinkedList::<i32>::new();
    s.push_front(2);
    assert_eq!(s.pop_front(), Some(2));
}
