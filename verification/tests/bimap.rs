use pds::bimap::BiMap;

/// What is left of an iteration.
fn drain<T>(mut next: impl FnMut() -> Option<T>) -> Vec<T> {
    let mut items = Vec::new();
    while let Some(item) = next() {
        items.push(item);
    }
    items
}

#[test]
fn bimap_new_is_empty() {
    let bm: BiMap<&str, i32> = BiMap::new();
    assert!(bm.is_empty());
    assert_eq!(bm.len(), 0);
}

#[test]
fn insert_and_lookup() {
    let mut bm = BiMap::new();
    bm.insert("alice", 1);
    bm.insert("bob", 2);

    assert_eq!(bm.get_by_key(&"alice"), Some(&1));
    assert_eq!(bm.get_by_key(&"bob"), Some(&2));
    assert_eq!(bm.get_by_value(&1), Some(&"alice"));
    assert_eq!(bm.get_by_value(&2), Some(&"bob"));
    assert_eq!(bm.len(), 2);
}

#[test]
fn insert_overwrites_key() {
    let mut bm = BiMap::new();
    bm.insert("alice", 1);
    bm.insert("alice", 2);

    assert_eq!(bm.get_by_key(&"alice"), Some(&2));
    assert_eq!(bm.get_by_value(&1), None); // old value gone
    assert_eq!(bm.get_by_value(&2), Some(&"alice"));
    assert_eq!(bm.len(), 1);
}

#[test]
fn insert_overwrites_value() {
    let mut bm = BiMap::new();
    bm.insert("alice", 1);
    bm.insert("bob", 1);

    assert_eq!(bm.get_by_key(&"alice"), None); // old key gone
    assert_eq!(bm.get_by_key(&"bob"), Some(&1));
    assert_eq!(bm.get_by_value(&1), Some(&"bob"));
    assert_eq!(bm.len(), 1);
}

#[test]
fn insert_overwrites_both() {
    let mut bm = BiMap::new();
    bm.insert("alice", 1);
    bm.insert("bob", 2);
    // This displaces both alice→1 and bob→2
    bm.insert("alice", 2);

    assert_eq!(bm.get_by_key(&"alice"), Some(&2));
    assert_eq!(bm.get_by_key(&"bob"), None);
    assert_eq!(bm.get_by_value(&1), None);
    assert_eq!(bm.get_by_value(&2), Some(&"alice"));
    assert_eq!(bm.len(), 1);
}

#[test]
fn bimap_contains() {
    let mut bm = BiMap::new();
    bm.insert("alice", 1);
    assert!(bm.contains_key(&"alice"));
    assert!(!bm.contains_key(&"bob"));
    assert!(bm.contains_value(&1));
    assert!(!bm.contains_value(&2));
}

#[test]
fn remove_by_key() {
    let mut bm = BiMap::new();
    bm.insert("alice", 1);
    assert_eq!(bm.remove_by_key(&"alice"), Some(1));
    assert!(bm.is_empty());
    assert_eq!(bm.get_by_value(&1), None);
}

#[test]
fn remove_by_value() {
    let mut bm = BiMap::new();
    bm.insert("alice", 1);
    assert_eq!(bm.remove_by_value(&1), Some("alice"));
    assert!(bm.is_empty());
    assert_eq!(bm.get_by_key(&"alice"), None);
}

#[test]
fn bimap_remove_absent() {
    let mut bm: BiMap<&str, i32> = BiMap::new();
    assert_eq!(bm.remove_by_key(&"alice"), None);
    assert_eq!(bm.remove_by_value(&1), None);
}

#[test]
fn bimap_from_iterator() {
    let bm: BiMap<&str, i32> = BiMap::from_vec(vec![("a", 1), ("b", 2), ("c", 3)]);
    assert_eq!(bm.len(), 3);
    assert_eq!(bm.get_by_key(&"b"), Some(&2));
    assert_eq!(bm.get_by_value(&3), Some(&"c"));
}

#[test]
fn bimap_from_array() {
    let bm: BiMap<&str, i32> = BiMap::from_vec(vec![("a", 1), ("b", 2)]);
    assert_eq!(bm.len(), 2);
}

#[test]
fn bimap_clone_shares_structure() {
    let mut bm = BiMap::new();
    bm.insert("a", 1);
    let bm2 = bm.clone();
    assert!(bm.test_eq(&bm2));
}

#[test]
fn bimap_equality() {
    let mut a = BiMap::new();
    a.insert("x", 1);
    a.insert("y", 2);

    let mut b = BiMap::new();
    b.insert("y", 2);
    b.insert("x", 1);

    assert!(a.test_eq(&b));
}

#[test]
fn bimap_inequality() {
    let mut a = BiMap::new();
    a.insert("x", 1);

    let mut b = BiMap::new();
    b.insert("x", 2);

    assert!(!a.test_eq(&b));
}

#[test]
fn bimap_into_iter_owned() {
    let mut bm = BiMap::new();
    bm.insert(1, "a");
    bm.insert(2, "b");

    let mut pairs: Vec<_> = { let mut it = bm.into_iter(); drain(move || it.next()) };
    pairs.sort();
    assert_eq!(pairs, vec![(1, "a"), (2, "b")]);
}

#[test]
fn bimap_into_iter_ref() {
    let mut bm = BiMap::new();
    bm.insert(1, "a");
    bm.insert(2, "b");

    let mut pairs: Vec<_> = { let mut it = bm.iter(); drain(move || it.next()) };
    pairs.sort_by_key(|(&k, _)| k);
    assert_eq!(pairs, vec![(&1, &"a"), (&2, &"b")]);
}

#[test]
fn bimap_for_loop() {
    let mut bm = BiMap::new();
    bm.insert("x", 1);
    bm.insert("y", 2);

    let mut sum = 0;
    for (_, &v) in { let mut it = bm.iter(); drain(move || it.next()) } {
        sum += v;
    }
    assert_eq!(sum, 3);
}

#[test]
fn bimap_extend_trait() {
    let mut bm = BiMap::new();
    bm.insert("a", 1);
    bm.extend(vec![("b", 2), ("c", 3)]);
    assert_eq!(bm.len(), 3);
}

#[test]
fn bimap_default_is_empty() {
    let bm: BiMap<String, i32> = Default::default();
    assert!(bm.is_empty());
}

#[test]
fn add_trait() {
    let mut a = BiMap::new();
    a.insert("a", 1);
    let mut b = BiMap::new();
    b.insert("b", 2);
    let c = a + b;
    assert_eq!(c.len(), 2);
}
