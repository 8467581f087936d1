use rust_algorithm_club::collections::{
    BloomFilter, DoublyLinkedList, HashMap, HashSet, SinglyLinkedList, SkipList,
};

fn optimal_bits_count(capacity: usize, err_rate: f64) -> usize {
    let ln_2_2 = std::f64::consts::LN_2.powf(2f64);
    (-1f64 * capacity as f64 * err_rate.ln() / ln_2_2).ceil() as usize
}

fn optimal_hashers_count(err_rate: f64) -> usize {
    (-1f64 * err_rate.log2()).ceil() as usize
}

fn filter_for<T: ?Sized>(capacity: usize, err_rate: f64) -> BloomFilter<T> {
    BloomFilter::new(
        optimal_bits_count(capacity, err_rate),
        optimal_hashers_count(err_rate),
    )
}

type StrMap<'a> = HashMap<&'a str, &'a str>;

#[test]
fn mod_basics() {
    let m = StrMap::new();
    assert_eq!(m.len(), 0);
    assert!(m.is_empty());

    let mut l = SinglyLinkedList::<i32>::new();
    assert_eq!(l.len(), 0);
    assert_eq!(l.pop_front(), None);
    assert_eq!(l.len(), 0);
    assert!(l.is_empty());
}

#[test]
fn mod_insert() {
    let mut m = StrMap::new();

    let ret = m.insert("cat", "cute");
    assert_eq!(ret, None);
    assert_eq!(m.len(), 1);

    m.insert("dog", "loyal");
    assert_eq!(m.len(), 2);

    // Inserting the same key must replace and return previous entry.
    let ret = m.insert("cat", "fat");
    assert_eq!(m.len(), 2);
    assert_eq!(ret, Some("cute"));

    m.insert("rat", "lovely");
    assert_eq!(m.len(), 3);

    // a set accepts each element once
    let mut s = HashSet::new();
    let ok = s.insert("cat");
    assert!(ok);
    assert_eq!(s.len(), 1);

    let ok = s.insert("dog");
    assert!(ok);
    assert_eq!(s.len(), 2);

    // dog already exist!
    let ok = s.insert("dog");
    assert_eq!(ok, false, "Attempting to insert present value returns false");
    assert_eq!(s.len(), 2, "Certain value can only be inserted to set once");

    // an ordered list replaces the entry under an equal key
    let mut list = SkipList::new();
    let test_case = [("c", 4i32), ("e", 5i32), ("a", 3), ("a", 8)];
    for &(k, v) in test_case.iter() {
        list.insert(k.to_owned(), v);
    }
    let mut res: Vec<(String, i32)> = Vec::new();
    let mut it = list.into_iter();
    while let Some(pair) = it.next() {
        res.push(pair);
    }
    assert_eq!(
        vec![("a".to_owned(), 8), ("c".to_owned(), 4), ("e".to_owned(), 5)],
        res
    );

    // positional insertion on the singly-linked list
    let mut l = SinglyLinkedList::<i32>::new();
    l.push_front(1);
    l.push_front(2);
    l.push_front(3);
    assert_eq!(l.insert_after(3, 10).unwrap_err(), 3);
    assert!(l.insert_after(0, 10).is_ok());
    assert!(l.insert_after(3, 11).is_ok());
    let mut got = Vec::new();
    let mut it = l.into_iter();
    while let Some(v) = it.next() {
        got.push(v);
    }
    assert_eq!(got, vec![3, 10, 2, 1, 11]);

    // positional insertion on the two-ended list
    let mut l = DoublyLinkedList::<i32>::new();
    l.push_front(1);
    assert_eq!(l.insert(1, 2), Err(1), "insert at [1] on an 1-element list");
    assert!(l.insert(0, 2).is_ok(), "insert at [0] on an 1-element list");

    let mut l = DoublyLinkedList::<i32>::new();
    l.push_front(1);
    l.push_front(2);
    l.push_front(3);
    l.push_front(4);
    assert_eq!(l.insert(4, 10), Err(4), "insertion position out of bound");
    assert!(l.insert(3, 10).is_ok(), "insert at the last position");
    assert!(l.insert(0, 20).is_ok(), "insert at the first position");

    // inserted elements are always reported present by the Bloom filter
    let mut bf = filter_for(100, 0.01);
    for i in 0..20 {
        bf.insert(&i);
    }
    for i in 0..20 {
        assert!(bf.contains(&i));
    }
}

#[test]
fn mod_remove() {
    let mut m = StrMap::new();

    m.insert("cat", "cute");
    m.insert("dog", "loyal");
    m.insert("rat", "lovely");

    // Test remove
    m.remove(&"cat");
    assert_eq!(m.len(), 2);

    // No effect
    m.remove(&"cat");
    assert_eq!(m.len(), 2);

    m.remove(&"dog");
    assert_eq!(m.len(), 1);

    // No effect
    m.remove(&"mice");
    assert_eq!(m.len(), 1);

    m.remove(&"rat");
    assert_eq!(m.len(), 0);

    // Use String as key
    let mut m = HashMap::new();
    m.insert("cat".to_string(), "cute");
    m.insert("dog".to_string(), "loyal");
    m.insert("rat".to_string(), "lovely");

    m.remove(&"cat".to_string());
    assert_eq!(m.len(), 2);

    m.remove(&"dog".to_string());
    assert_eq!(m.len(), 1);

    // a set removes at most one element per call
    let mut s1: HashSet<&str> = HashSet::new();
    s1.insert("cat");
    assert!(s1.contains(&"cat"), "'cat' exists before remove()");
    let ok = s1.remove(&"cat");
    assert_eq!(ok, true, "Successful removal returns true");
    assert!(!s1.contains(&"cat"), "'cat' is gone after remove()");

    let ok = s1.remove(&"elephant");
    assert_eq!(ok, false, "Trying to remove non-existing value returns false");

    let mut s2: HashSet<String> = HashSet::new();
    s2.insert("cat".to_string());
    s2.insert("dog".to_string());
    assert!(s2.remove(&"cat".to_string()), "Can remove with String");
    assert!(!s2.contains(&"cat".to_string()), "Successfully removed value");
    assert!(s2.remove(&"dog".to_string()));
    assert!(!s2.contains(&"dog".to_string()));

    // positional removal on the singly-linked list
    let mut l = SinglyLinkedList::<i32>::new();
    l.push_front(1);
    l.push_front(2);
    l.push_front(3);
    assert!(l.remove(5).is_none());
    assert_eq!(l.remove(1), Some(2));
    assert_eq!(l.remove(1), Some(1));
    assert_eq!(l.remove(0), Some(3));

    // positional removal on the two-ended list
    let mut l = DoublyLinkedList::<i32>::new();
    l.push_front(1);
    assert_eq!(l.remove(0), Some(1));
    assert!(l.remove(0).is_none());

    let mut l = DoublyLinkedList::<i32>::new();
    l.push_front(1);
    l.push_front(2);
    l.push_front(3);
    l.push_front(4);
    assert!(l.remove(4).is_none());
    assert_eq!(l.remove(3), Some(1));
    assert_eq!(l.remove(0), Some(4));
    assert_eq!(l.remove(0), Some(3));
    assert_eq!(l.remove(0), Some(2));
}

#[test]
fn mod_contains() {
    let mut s1: HashSet<&str> = HashSet::new();
    s1.insert("cat");
    assert_eq!(s1.contains(&"cat"), true, "contains() returns true for present value");
    assert_eq!(s1.contains(&"dog"), false, "contains() returns false for absent value");

    let mut s2: HashSet<String> = HashSet::new();
    s2.insert("cat".to_string());
    assert_eq!(s2.contains(&"cat".to_string()), true, "Can query with String");

    let mut bf = filter_for(100, 0.1);
    assert!(!bf.contains("1"));
    bf.insert("1");
    assert!(bf.contains("1"));
}

#[test]
fn mod_get() {
    let mut m = StrMap::new();

    m.insert("cat", "cute");
    m.insert("dog", "loyal");

    assert_eq!(m.get(&"cat"), Some(&"cute"));
    assert_eq!(m.get(&"dog"), Some(&"loyal"));
    assert_eq!(m.get(&"rat"), None);

    // Use String as key (HashMap<String, &str>)
    let mut m = HashMap::new();
    m.insert("cat".to_string(), "cute");
    m.insert("dog".to_string(), "loyal");

    assert_eq!(m.get(&"cat".to_string()), Some(&"cute"));
    assert_eq!(m.get(&"dog".to_string()), Some(&"loyal"));
}

#[test]
fn mod_get_mut() {
    let mut m = StrMap::new();
    m.insert("cat", "cute");
    m.insert("dog", "loyal");

    assert_eq!(m.get_mut(&"cat"), Some(&mut "cute"));
    assert_eq!(m.get_mut(&"dog"), Some(&mut "loyal"));
    assert_eq!(m.get_mut(&"rat"), None);

    // Use String as key
    let mut m = HashMap::new();
    m.insert("cat".to_string(), "cute");
    m.insert("dog".to_string(), "loyal");

    assert_eq!(m.get_mut(&"cat".to_string()), Some(&mut "cute"));
    assert_eq!(m.get_mut(&"dog".to_string()), Some(&mut "loyal"));
}

#[test]
fn mod_resize() {
    let mut m = StrMap::new();
    assert_eq!(m.bucket_count(), 0);

    m.insert("cat", "cute");
    assert_eq!(m.len(), 1);
    assert_eq!(m.bucket_count(), 1);

    m.insert("dog", "loyal");
    assert_eq!(m.len(), 2);
    assert_eq!(m.bucket_count(), 2);

    m.insert("rat", "lovely");
    assert_eq!(m.len(), 3);
    assert_eq!(m.bucket_count(), 4);

    m.insert("dragon", "omnipotent");
    assert_eq!(m.len(), 4);
    assert_eq!(m.bucket_count(), 4);

    m.insert("human", "lazy");
    assert_eq!(m.len(), 5);
    assert_eq!(m.bucket_count(), 8);
}

#[test]
fn mod_clear() {
    let mut m = StrMap::new();
    m.insert("cat", "cute");
    m.insert("dog", "loyal");

    m.clear();
    assert!(m.is_empty());
    assert_eq!(m.len(), 0);
    assert_eq!(m.bucket_count(), 2); // Preserve previous allocation.
}
