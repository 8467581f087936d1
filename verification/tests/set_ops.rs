use rust_algorithm_club::collections::HashSet;

fn set_of(xs: &[&'static str]) -> HashSet<&'static str> {
    let mut s = HashSet::new();
    for x in xs {
        s.insert(*x);
    }
    s
}

fn collect_set(v: Vec<&&'static str>) -> HashSet<&'static str> {
    let mut s = HashSet::new();
    for x in v {
        s.insert(*x);
    }
    s
}

#[test]
fn mod_basic() {
    let s: HashSet<String> = HashSet::new();
    assert_eq!(s.len(), 0);
    assert!(s.is_empty());
}

#[test]
fn mod_from_iter() {
    let s1 = set_of(&["cat", "dog", "rat"]);
    assert!(s1.contains(&"cat"));
    assert!(s1.contains(&"dog"));
    assert!(s1.contains(&"rat"));
    assert_eq!(s1.len(), 3);
}

#[test]
fn mod_eq() {
    let set = set_of(&["cat", "dog", "rat"]);

    let identical = set_of(&["cat", "dog", "rat"]);
    assert!(set.set_eq(&identical), "sets of identical elements are equal");

    let reordered = set_of(&["rat", "cat", "dog"]);
    assert!(set.set_eq(&reordered), "order of elements doesn't matter");

    let different = set_of(&["cat", "dog", "elephant"]);
    assert!(!set.set_eq(&different));

    let superset = set_of(&["cat", "dog", "rat", "elephant"]);
    assert!(!set.set_eq(&superset));

    let subset = set_of(&["cat"]);
    assert!(!set.set_eq(&subset));
}

#[test]
fn mod_union() {
    let s1 = set_of(&["cat", "dog"]);
    let s2 = set_of(&["cat", "rat"]);
    let union = collect_set(s1.union(&s2));

    let expect = set_of(&["cat", "dog", "rat"]);

    assert!(union.set_eq(&expect));
}

#[test]
fn mod_difference() {
    let s1 = set_of(&["cat", "dog"]);
    let s2 = set_of(&["cat", "rat"]);
    let difference = collect_set(s1.difference(&s2));

    let expect = set_of(&["dog"]);

    assert!(difference.set_eq(&expect));
}

#[test]
fn mod_symmetric_difference() {
    let s1 = set_of(&["cat", "dog"]);
    let s2 = set_of(&["cat", "rat"]);
    let symmetric_difference = collect_set(s1.symmetric_difference(&s2));

    let expect = set_of(&["dog", "rat"]);

    assert!(symmetric_difference.set_eq(&expect));
}

#[test]
fn mod_intersection() {
    let s1 = set_of(&["cat", "dog"]);
    let s2 = set_of(&["cat", "rat"]);
    let intersection = collect_set(s1.intersection(&s2));

    let expect = set_of(&["cat"]);

    assert!(intersection.set_eq(&expect));
}

#[test]
fn is_disjoint() {
    let s1: HashSet<&str> = set_of(&[]);
    let s2: HashSet<&str> = set_of(&[]);
    assert!(s1.is_disjoint(&s2), "two empty sets are disjoint");

    let s1: HashSet<&str> = set_of(&[]);
    let s2 = set_of(&["cat"]);
    assert!(s1.is_disjoint(&s2), "the empty set is disjoint from any set");
    assert!(s2.is_disjoint(&s1), "the empty set is disjoint from any set");

    let s1 = set_of(&["rat"]);
    let s2 = set_of(&["cat"]);
    assert!(s1.is_disjoint(&s2));

    let s1 = set_of(&["cat"]);
    let s2 = set_of(&["cat"]);
    assert_eq!(s1.is_disjoint(&s2), false);
    assert_eq!(s2.is_disjoint(&s1), false);
}

#[test]
fn is_subset() {
    let s1: HashSet<&str> = set_of(&[]);
    let s2: HashSet<&str> = set_of(&[]);
    assert!(s1.is_subset(&s2), "the empty set includes itself");
    assert!(s2.is_subset(&s1), "the empty set includes itself");

    let s1: HashSet<&str> = set_of(&[]);
    let s2 = set_of(&["cat"]);
    assert!(s1.is_subset(&s2), "the empty set is part of any set");

    let s1 = set_of(&["cat"]);
    let s2: HashSet<&str> = set_of(&[]);
    assert_eq!(s1.is_subset(&s2), false, "no nonempty set fits in the empty set");

    let s1 = set_of(&["cat"]);
    let s2 = set_of(&["cat"]);
    assert!(s1.is_subset(&s2));

    let s1 = set_of(&["cat"]);
    let s2 = set_of(&["cat", "rat"]);
    assert!(s1.is_subset(&s2));

    let s1 = set_of(&["cat", "rat"]);
    let s2 = set_of(&["cat"]);
    assert_eq!(s1.is_subset(&s2), false);
}

#[test]
fn is_superset() {
    let s1: HashSet<&str> = set_of(&[]);
    let s2: HashSet<&str> = set_of(&[]);
    assert!(s1.is_superset(&s2), "the empty set covers itself");
    assert!(s2.is_superset(&s1), "the empty set covers itself");

    let s1: HashSet<&str> = set_of(&[]);
    let s2 = set_of(&["cat"]);
    assert_eq!(s1.is_superset(&s2), false, "the empty set covers no nonempty set");

    let s1 = set_of(&["cat"]);
    let s2: HashSet<&str> = set_of(&[]);
    assert_eq!(s1.is_superset(&s2), true, "any set covers the empty set");

    let s1 = set_of(&["cat"]);
    let s2 = set_of(&["cat"]);
    assert!(s1.is_superset(&s2));

    let s1 = set_of(&["cat"]);
    let s2 = set_of(&["cat", "rat"]);
    assert_eq!(s1.is_superset(&s2), false);

    let s1 = set_of(&["cat", "rat"]);
    let s2 = set_of(&["cat"]);
    assert!(s1.is_superset(&s2));
}
