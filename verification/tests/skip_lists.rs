use rand::RngCore;
use rust_algorithm_club::collections::SkipList;
use std::cell::Cell;
use std::collections::BTreeMap;
use std::rc::Rc;
use std::time::Instant;

struct CountsDrops(Rc<Cell<u32>>);

impl Drop for CountsDrops {
    fn drop(&mut self) {
        self.0.set(self.0.get() + 1);
    }
}

#[test]
fn values_dropped_exactly_once() {
    // every stored sentinel is destroyed exactly once, whether it leaves by
    // minimum removal or by list-wide teardown
    let drops = Rc::new(Cell::new(0u32));
    let s = || CountsDrops(drops.clone());
    let mut list = SkipList::new();
    for k in 0..50i32 {
        list.insert(k, s());
    }
    assert_eq!(drops.get(), 0);
    let first = list.pop_first();
    core::mem::drop(first);
    assert_eq!(drops.get(), 1);
    for k in 0..10i32 {
        // replacement drops the value it displaces
        list.insert(k + 1, s());
    }
    assert_eq!(drops.get(), 11);
    core::mem::drop(list);
    assert_eq!(drops.get(), 60);
}

#[test]
fn machine_sized_keys() {
    let mut list: SkipList<usize, &str> = SkipList::new();
    list.insert(2, "two");
    list.insert(1, "one");
    assert_eq!(list.get(&1), Some(&"one"));
    assert_eq!(list.pop_first().map(|e| e.into_tuple()), Some((1, "one")));
}

fn create_testee() -> SkipList<String, i32> {
    let mut list = SkipList::new();
    let test_case = [("c", 4i32), ("e", 5i32), ("a", 3), ("a", 8)];
    for &(k, v) in test_case.iter() {
        list.insert(k.to_owned(), v);
    }
    list
}

#[test]
fn insert_get() {
    let mut list = create_testee();
    assert_eq!(list.get(&"c".to_owned()), Some(&4));
    assert_eq!(list.get(&"e".to_owned()), Some(&5));
    assert_eq!(list.get(&"x".to_owned()), None);
    list.insert("x".to_owned(), 100);
    assert_eq!(list.get(&"x".to_owned()), Some(&100));
}

#[test]
fn pop_and_into_iter() {
    let mut list = SkipList::new();
    let test_case = [("c", 4), ("e", 5), ("a", 3), ("a", 8)];
    for &(k, v) in test_case.iter() {
        list.insert(k, v);
    }
    assert_eq!(list.len(), 3);
    assert_eq!(list.pop_first().map(|x| x.into_tuple()), Some(("a", 8)));
    assert_eq!(list.pop_first().map(|x| x.into_tuple()), Some(("c", 4)));
    assert_eq!(list.pop_first().map(|x| x.into_tuple()), Some(("e", 5)));
    assert_eq!(list.pop_first().map(|x| x.into_tuple()), None);
    assert_eq!(list.pop_first().map(|x| x.into_tuple()), None);
    assert_eq!(list.len(), 0);
    for &(k, v) in test_case.iter() {
        list.insert(k, v);
    }
    assert_eq!(list.len(), 3);
    let mut drained: Vec<(&str, i32)> = Vec::new();
    let mut it = list.into_iter();
    while let Some(pair) = it.next() {
        drained.push(pair);
    }
    assert_eq!(drained, vec![("a", 8), ("c", 4), ("e", 5)]);
}

#[test]
fn test_fn_keys_values() {
    let list = create_testee();
    assert_eq!(
        vec![&"a".to_owned(), &"c".to_owned(), &"e".to_owned()],
        list.keys()
    );
    assert_eq!(vec![&8, &4, &5], list.values());
}

#[test]
fn test_get_mut() {
    let mut list = create_testee();
    let ele = list.get_mut(&"a".to_owned()).unwrap();
    *ele = 114514;
    assert_eq!(*list.get_mut(&"a".to_owned()).unwrap(), 114514);
}

#[test]
fn test_range() {
    let mut list = SkipList::new();
    for k in [1i32, 3, 5, 7, 9] {
        list.insert(k, k * 10);
    }
    let window = list.range(3, 8);
    let got: Vec<(i32, i32)> = window.iter().map(|&(k, v)| (*k, *v)).collect();
    assert_eq!(got, vec![(3, 30), (5, 50), (7, 70)]);

    let empty = list.range(4, 4);
    assert!(empty.is_empty());
}

#[test]
fn keys_in_order_after_random_inserts() {
    let mut rng = rand::thread_rng();
    let mut pending: Vec<i32> = (1..=1000).collect();
    // shuffle by swapping each slot with a random one
    for i in 0..pending.len() {
        let j = (rng.next_u32() as usize) % pending.len();
        pending.swap(i, j);
    }
    let mut list = SkipList::new();
    for k in pending {
        list.insert(k, ());
    }
    assert_eq!(list.len(), 1000);
    let keys: Vec<i32> = list.keys().into_iter().map(|k| *k).collect();
    let expect: Vec<i32> = (1..=1000).collect();
    assert_eq!(keys, expect);
}

#[test]
fn great_many_inserts_gets() {
    let mut list = SkipList::new();
    let mut btree_map = BTreeMap::new();
    let mut rng = rand::thread_rng();
    let mut b_map_cost = Vec::new();
    let mut skip_list_cost = Vec::new();
    for _ in 0..70000 {
        let (k, v) = (rng.next_u64(), rng.next_u64());
        let t = Instant::now();
        list.insert(k, v);
        skip_list_cost.push(t.elapsed().as_nanos());
        let t = Instant::now();
        btree_map.insert(k, v);
        b_map_cost.push(t.elapsed().as_nanos());
    }
    let expected: Vec<(u64, u64)> = btree_map.iter().map(|(&k, &v)| (k, v)).collect();
    let mut got: Vec<(u64, u64)> = Vec::new();
    let mut it = list.iter();
    while let Some((k, v)) = it.next() {
        got.push((*k, *v));
    }
    assert_eq!(expected, got);
    assert_eq!(btree_map.len(), list.len());
    let skip_list_mean_cost = skip_list_cost.iter().sum::<u128>() / skip_list_cost.len() as u128;
    let btree_map_mean_cost = b_map_cost.iter().sum::<u128>() / b_map_cost.len() as u128;
    println!(
        "cost per insert: {} ns against {} ns for the standard ordered map",
        skip_list_mean_cost, btree_map_mean_cost
    );
    assert!(
        skip_list_mean_cost * 2 > btree_map_mean_cost,
        "insertion is far slower than expected: {} ns against {} ns",
        skip_list_mean_cost,
        btree_map_mean_cost
    );
}
