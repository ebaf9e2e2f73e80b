use pds::hash_multimap::HashMultiMap;
use pds::hash_set::HashSet;

/// What is left of an iteration.
fn drain<T>(mut next: impl FnMut() -> Option<T>) -> Vec<T> {
    let mut items = Vec::new();
    while let Some(item) = next() {
        items.push(item);
    }
    items
}

#[test]
fn hash_multimap_new_is_empty() {
    let mm: HashMultiMap<&str, i32> = HashMultiMap::new();
    assert!(mm.is_empty());
    assert_eq!(mm.len(), 0);
    assert_eq!(mm.keys_len(), 0);
}

#[test]
fn hash_multimap_insert_and_get() {
    let mut mm = HashMultiMap::new();
    mm.insert("a", 1);
    mm.insert("a", 2);
    mm.insert("b", 3);

    let a_vals = mm.get(&"a");
    assert_eq!(a_vals.len(), 2);
    assert!(a_vals.contains(&1));
    assert!(a_vals.contains(&2));

    let b_vals = mm.get(&"b");
    assert_eq!(b_vals.len(), 1);
    assert!(b_vals.contains(&3));

    assert_eq!(mm.len(), 3);
    assert_eq!(mm.keys_len(), 2);
}

#[test]
fn insert_duplicate_value() {
    let mut mm = HashMultiMap::new();
    assert!(mm.insert("a", 1));
    assert!(!mm.insert("a", 1));
    assert_eq!(mm.len(), 1);
    assert_eq!(mm.key_count(&"a"), 1);
}

#[test]
fn remove_single_value() {
    let mut mm = HashMultiMap::new();
    mm.insert("a", 1);
    mm.insert("a", 2);
    assert!(mm.remove(&"a", &1));
    assert_eq!(mm.key_count(&"a"), 1);
    assert!(!mm.contains(&"a", &1));
    assert!(mm.contains(&"a", &2));
    assert_eq!(mm.len(), 1);
}

#[test]
fn remove_last_value_removes_key() {
    let mut mm = HashMultiMap::new();
    mm.insert("a", 1);
    mm.remove(&"a", &1);
    assert!(!mm.contains_key(&"a"));
    assert!(mm.is_empty());
}

#[test]
fn hash_multimap_remove_absent() {
    let mut mm: HashMultiMap<&str, i32> = HashMultiMap::new();
    assert!(!mm.remove(&"a", &1));
}

#[test]
fn hash_multimap_remove_all() {
    let mut mm = HashMultiMap::new();
    mm.insert("a", 1);
    mm.insert("a", 2);
    mm.insert("b", 3);

    let removed = mm.remove_all(&"a");
    assert_eq!(removed.len(), 2);
    assert!(!mm.contains_key(&"a"));
    assert_eq!(mm.len(), 1);
}

#[test]
fn remove_all_absent() {
    let mut mm: HashMultiMap<&str, i32> = HashMultiMap::new();
    let removed = mm.remove_all(&"a");
    assert!(removed.is_empty());
}

#[test]
fn hash_multimap_contains() {
    let mut mm = HashMultiMap::new();
    mm.insert("a", 1);
    assert!(mm.contains(&"a", &1));
    assert!(!mm.contains(&"a", &2));
    assert!(!mm.contains(&"b", &1));
}

#[test]
fn hash_multimap_contains_key() {
    let mut mm = HashMultiMap::new();
    assert!(!mm.contains_key(&"a"));
    mm.insert("a", 1);
    assert!(mm.contains_key(&"a"));
}

#[test]
fn key_count() {
    let mut mm = HashMultiMap::new();
    assert_eq!(mm.key_count(&"a"), 0);
    mm.insert("a", 1);
    mm.insert("a", 2);
    assert_eq!(mm.key_count(&"a"), 2);
}

#[test]
fn get_absent_key() {
    let mm: HashMultiMap<&str, i32> = HashMultiMap::new();
    assert!(mm.get(&"a").is_empty());
}

#[test]
fn hash_multimap_from_iterator() {
    let mm: HashMultiMap<&str, i32> = HashMultiMap::from_vec(vec![("a", 1), ("a", 2), ("b", 3)]);
    assert_eq!(mm.len(), 3);
    assert_eq!(mm.keys_len(), 2);
    assert_eq!(mm.key_count(&"a"), 2);
}

#[test]
fn hash_multimap_clone_shares_structure() {
    let mut mm = HashMultiMap::new();
    mm.insert("a", 1);
    mm.insert("a", 2);
    let mm2 = mm.clone();
    assert!(mm.test_eq(&mm2));
}

#[test]
fn hash_multimap_equality() {
    let mut a = HashMultiMap::new();
    a.insert("x", 1);
    a.insert("x", 2);

    let mut b = HashMultiMap::new();
    b.insert("x", 2);
    b.insert("x", 1);

    assert!(a.test_eq(&b));
}

#[test]
fn hash_multimap_inequality() {
    let mut a = HashMultiMap::new();
    a.insert("x", 1);

    let mut b = HashMultiMap::new();
    b.insert("x", 2);

    assert!(!a.test_eq(&b));
}

#[test]
fn hash_multimap_into_iter_owned() {
    let mut mm = HashMultiMap::new();
    mm.insert(1, "a");
    mm.insert(1, "b");
    mm.insert(2, "c");

    let mut pairs: Vec<_> = { let mut it = mm.into_iter(); drain(move || it.next()) };
    pairs.sort();
    assert_eq!(pairs, vec![(1, "a"), (1, "b"), (2, "c")]);
}

#[test]
fn hash_multimap_into_iter_ref() {
    let mut mm = HashMultiMap::new();
    mm.insert(1, "a");
    mm.insert(2, "b");

    let mut pairs: Vec<_> = { let mut it = mm.iter(); drain(move || it.next()) };
    pairs.sort_by_key(|(&k, _)| k);
    assert_eq!(pairs, vec![(&1, &"a"), (&2, &"b")]);
}

#[test]
fn hash_multimap_for_loop() {
    let mut mm = HashMultiMap::new();
    mm.insert("x", 1);
    mm.insert("x", 2);
    mm.insert("y", 3);

    let mut sum = 0;
    for (_, &v) in { let mut it = mm.iter(); drain(move || it.next()) } {
        sum += v;
    }
    assert_eq!(sum, 6);
}

#[test]
fn iter_all_pairs() {
    let mut mm = HashMultiMap::new();
    mm.insert(1, "a");
    mm.insert(1, "b");
    mm.insert(2, "c");

    let mut pairs: Vec<_> = { let mut it = mm.iter(); drain(move || it.next()) }.into_iter().map(|(&k, &v)| (k, v)).collect();
    pairs.sort();
    assert_eq!(pairs, vec![(1, "a"), (1, "b"), (2, "c")]);
}

#[test]
fn hash_multimap_default_is_empty() {
    let mm: HashMultiMap<i32, i32> = HashMultiMap::default();
    assert!(mm.is_empty());
}

#[test]
fn hash_multimap_union_method() {
    let mut a = HashMultiMap::new();
    a.insert(1, "x");
    let mut b = HashMultiMap::new();
    b.insert(1, "y");
    b.insert(2, "z");
    let c = a.union(b);
    assert_eq!(c.key_count(&1), 2); // both values for key 1
    assert_eq!(c.key_count(&2), 1);
}

#[test]
fn hash_multimap_difference() {
    let mut a = HashMultiMap::new();
    a.insert(1, "x");
    a.insert(2, "y");
    let mut b = HashMultiMap::new();
    b.insert(2, "z");
    let c = a.difference(&b);
    assert!(c.contains_key(&1));
    assert!(!c.contains_key(&2));
}

#[test]
fn hash_multimap_intersection_method() {
    let mut a = HashMultiMap::new();
    a.insert(1, "x");
    a.insert(2, "y");
    let mut b = HashMultiMap::new();
    b.insert(2, "z");
    b.insert(3, "w");
    let c = a.intersection(&b);
    assert!(!c.contains_key(&1));
    assert!(c.contains_key(&2));
    assert!(c.contains(&2, &"y")); // self's value is kept
}

#[test]
fn hash_multimap_symmetric_difference_method() {
    let mut a = HashMultiMap::new();
    a.insert(1, "x");
    a.insert(2, "y");
    a.insert(3, "z");
    let mut b = HashMultiMap::new();
    b.insert(2, "w");
    b.insert(4, "v");
    let c = a.symmetric_difference(&b);
    // 1 and 3 are only in a, 4 is only in b, 2 is in both (excluded).
    assert!(c.contains_key(&1));
    assert!(!c.contains_key(&2));
    assert!(c.contains_key(&3));
    assert!(c.contains_key(&4));
    assert_eq!(c.keys_len(), 3);
}

#[test]
fn hash_multimap_symmetric_difference_disjoint() {
    let mut a = HashMultiMap::new();
    a.insert(1, "a");
    let mut b = HashMultiMap::new();
    b.insert(2, "b");
    let c = a.symmetric_difference(&b);
    assert_eq!(c.keys_len(), 2);
    assert!(c.contains_key(&1) && c.contains_key(&2));
}

#[test]
fn hash_multimap_extend_adds_pairs() {
    let mut mm: HashMultiMap<i32, i32> = HashMultiMap::new();
    mm.extend(vec![(1, 10), (1, 11), (2, 20)]);
    assert_eq!(mm.len(), 3);
    assert_eq!(mm.key_count(&1), 2);
}

#[test]
fn hash_multimap_from_vec() {
    let mm: HashMultiMap<i32, i32> = HashMultiMap::from_vec(vec![(1, 10), (1, 11), (2, 20)]);
    assert_eq!(mm.len(), 3);
}

#[test]
fn hash_multimap_from_array() {
    let mm: HashMultiMap<i32, i32> = HashMultiMap::from_vec(vec![(1, 10), (2, 20)]);
    assert_eq!(mm.len(), 2);
}

#[test]
fn hash_multimap_from_slice() {
    let mm: HashMultiMap<i32, i32> = HashMultiMap::from_vec([(1, 10), (2, 20)].to_vec());
    assert_eq!(mm.len(), 2);
}

#[test]
fn hash_multimap_from_vec_ref() {
    let v = vec![(1i32, 10i32), (2, 20)];
    let mm: HashMultiMap<i32, i32> = HashMultiMap::from_vec(v.clone());
    assert_eq!(mm.len(), 2);
}

#[test]
fn index_returns_set() {
    let mut mm = HashMultiMap::new();
    mm.insert(1i32, 10i32);
    mm.insert(1, 11);
    let set = mm.index(&1);
    assert_eq!(set.len(), 2);
    assert!(set.contains(&10));
}
