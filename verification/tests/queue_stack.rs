use rust_algorithm_club::collections::{Queue, Stack};

#[test]
fn new() {
    let queue = Queue::<()>::new();
    assert_eq!(0, queue.size());
}

#[test]
fn enqueue() {
    let mut queue = Queue::new();
    queue.enqueue(32);
    assert_eq!(Some(&32), queue.peek());
    assert_eq!(1, queue.size());
}

#[test]
fn dequeue() {
    let mut queue = Queue::new();
    queue.enqueue(32);
    assert_eq!(Some(32), queue.dequeue());
    assert_eq!(None, queue.dequeue());
}

#[test]
fn integration() {
    let mut queue = Queue::new();
    queue.enqueue(1);
    queue.enqueue(2);
    queue.enqueue(3);
    assert_eq!(3, queue.size());
    assert_eq!(Some(1), queue.dequeue());
    assert_eq!(Some(&2), queue.peek());
    assert_eq!(Some(2), queue.dequeue());
    assert_eq!(Some(3), queue.dequeue());
    assert_eq!(0, queue.size());
}

#[test]
fn test_new() {
    let queue = Queue::<i32>::new();
    assert_eq!(0, queue.size());
}

#[test]
fn test_enqueue() {
    let mut queue = Queue::<i32>::new();
    queue.enqueue(32i32);
    assert_eq!(Some(&32i32), queue.peek());
    assert_eq!(1, queue.size());
}

#[test]
fn test_dequeue() {
    let mut queue = Queue::<i32>::new();
    queue.enqueue(32i32);
    assert_eq!(Some(32i32), queue.dequeue());
    assert_eq!(None, queue.dequeue());
}

#[test]
fn test_size() {
    let mut queue = Queue::<i32>::new();
    queue.enqueue(-20i32);
    assert_eq!(1, queue.size());
    assert_eq!(Some(&-20i32), queue.peek());
}

#[test]
fn test_integration() {
    let mut queue = Queue::<i32>::new();
    queue.enqueue(1);
    queue.enqueue(2);
    queue.enqueue(3);
    assert_eq!(3, queue.size());
    assert_eq!(Some(1i32), queue.dequeue());
    assert_eq!(Some(&2i32), queue.peek());
    assert_eq!(Some(2i32), queue.dequeue());
    assert_eq!(Some(3i32), queue.dequeue());
    assert_eq!(0, queue.size());
}

#[test]
fn mod_new_with_capacity() {
    let mut stack: Stack<u32> = Stack::with_capacity(10);
    for i in 0..10 {
        assert_eq!(true, stack.push(i));
    }
    assert_eq!(false, stack.push(10));
    assert_eq!(10, stack.size());
}

#[test]
fn mod_pop() {
    let mut stack = Stack::with_capacity(1);
    stack.push(1);
    assert_eq!(Some(1), stack.pop());
    assert_eq!(None, stack.pop());
}

#[test]
fn mod_push() {
    let mut stack = Stack::with_capacity(1);
    stack.push(32);
    assert_eq!(Some(&32), stack.peek());
    assert_eq!(1, stack.size());
}

#[test]
fn mod_push_maxsize() {
    let mut stack = Stack::with_capacity(1);
    assert_eq!(true, stack.push(1));
    assert_eq!(Some(&1), stack.peek());
    assert_eq!(false, stack.push(2));
}

#[test]
fn mod_size() {
    let mut stack = Stack::with_capacity(1);
    assert_eq!(0, stack.size());
    stack.push(1);
    assert_eq!(1, stack.size());

    let mut queue = Queue::new();
    queue.enqueue(32);
    assert_eq!(Some(&32), queue.peek());
    assert_eq!(1, queue.size());
}
