use pds::insertion_order_map::InsertionOrderMap;

/// What is left of an iteration.
fn drain<T>(mut next: impl FnMut() -> Option<T>) -> Vec<T> {
    let mut items = Vec::new();
    while let Some(item) = next() {
        items.push(item);
    }
    items
}

#[test]
fn insertion_order_map_new_is_empty() {
    let map: InsertionOrderMap<&str, i32> = InsertionOrderMap::new();
    assert!(map.is_empty());
    assert_eq!(map.len(), 0);
}

#[test]
fn insertion_order_map_insert_and_get() {
    let mut map = InsertionOrderMap::new();
    map.insert("a", 1);
    map.insert("b", 2);
    assert_eq!(map.get(&"a"), Some(&1));
    assert_eq!(map.get(&"b"), Some(&2));
    assert_eq!(map.get(&"c"), None);
    assert_eq!(map.len(), 2);
}

#[test]
fn insertion_order_map_insertion_order_preserved() {
    let mut map = InsertionOrderMap::new();
    map.insert("c", 3);
    map.insert("a", 1);
    map.insert("b", 2);

    let keys: Vec<_> = { let mut it = map.keys(); drain(move || it.next()) };
    assert_eq!(keys, vec![&"c", &"a", &"b"]);

    let values: Vec<_> = { let mut it = map.values(); drain(move || it.next()) };
    assert_eq!(values, vec![&3, &1, &2]);
}

#[test]
fn update_preserves_position() {
    let mut map = InsertionOrderMap::new();
    map.insert("a", 1);
    map.insert("b", 2);
    map.insert("c", 3);

    // Update "b" — should keep its position
    let old = map.insert("b", 20);
    assert_eq!(old, Some(2));

    let pairs: Vec<_> = { let mut it = map.iter(); drain(move || it.next()) }.into_iter().map(|(&k, &v)| (k, v)).collect();
    assert_eq!(pairs, vec![("a", 1), ("b", 20), ("c", 3)]);
}

#[test]
fn insertion_order_map_remove() {
    let mut map = InsertionOrderMap::new();
    map.insert("a", 1);
    map.insert("b", 2);
    map.insert("c", 3);

    let removed = map.remove(&"b");
    assert_eq!(removed, Some(2));
    assert!(!map.contains_key(&"b"));
    assert_eq!(map.len(), 2);

    let keys: Vec<_> = { let mut it = map.keys(); drain(move || it.next()) };
    assert_eq!(keys, vec![&"a", &"c"]);
}

#[test]
fn insertion_order_map_remove_absent() {
    let mut map: InsertionOrderMap<&str, i32> = InsertionOrderMap::new();
    assert_eq!(map.remove(&"x"), None);
}

#[test]
fn insertion_order_map_contains_key() {
    let mut map = InsertionOrderMap::new();
    assert!(!map.contains_key(&"a"));
    map.insert("a", 1);
    assert!(map.contains_key(&"a"));
}

#[test]
fn insertion_order_map_from_iterator() {
    let map: InsertionOrderMap<&str, i32> = InsertionOrderMap::from_vec(vec![("c", 3), ("a", 1), ("b", 2)]);
    let keys: Vec<_> = { let mut it = map.keys(); drain(move || it.next()) };
    assert_eq!(keys, vec![&"c", &"a", &"b"]);
}

#[test]
fn insertion_order_map_clone_shares_structure() {
    let mut map = InsertionOrderMap::new();
    map.insert("a", 1);
    map.insert("b", 2);
    let map2 = map.clone();
    assert!(map.test_eq(&map2));
}

#[test]
fn insertion_order_map_equality_order_matters() {
    let mut a = InsertionOrderMap::new();
    a.insert("x", 1);
    a.insert("y", 2);

    let mut b = InsertionOrderMap::new();
    b.insert("y", 2);
    b.insert("x", 1);

    // Different insertion order → not equal
    assert!(!a.test_eq(&b));
}

#[test]
fn insertion_order_map_equality_same_order() {
    let mut a = InsertionOrderMap::new();
    a.insert("x", 1);
    a.insert("y", 2);

    let mut b = InsertionOrderMap::new();
    b.insert("x", 1);
    b.insert("y", 2);

    assert!(a.test_eq(&b));
}

#[test]
fn insertion_order_map_into_iter_owned() {
    let mut map = InsertionOrderMap::new();
    map.insert("c", 3);
    map.insert("a", 1);
    map.insert("b", 2);

    let pairs: Vec<_> = { let mut it = map.into_iter(); drain(move || it.next()) };
    assert_eq!(pairs, vec![("c", 3), ("a", 1), ("b", 2)]);
}

#[test]
fn insertion_order_map_into_iter_ref() {
    let mut map = InsertionOrderMap::new();
    map.insert("a", 1);
    map.insert("b", 2);

    let pairs: Vec<_> = { let mut it = map.iter(); drain(move || it.next()) };
    assert_eq!(pairs, vec![(&"a", &1), (&"b", &2)]);
}

#[test]
fn insertion_order_map_for_loop() {
    let mut map = InsertionOrderMap::new();
    map.insert("x", 10);
    map.insert("y", 20);

    let mut sum = 0;
    for (_, &v) in { let mut it = map.iter(); drain(move || it.next()) } {
        sum += v;
    }
    assert_eq!(sum, 30);
}

#[test]
fn into_iter_preserves_insertion_order() {
    let mut map = InsertionOrderMap::new();
    map.insert(3, "c");
    map.insert(1, "a");
    map.insert(2, "b");

    let keys: Vec<_> = { let mut it = map.into_iter(); drain(move || it.next()) }.into_iter().map(|(k, _)| k).collect();
    assert_eq!(keys, vec![3, 1, 2]);
}

#[test]
fn insertion_order_map_remove_then_reinsert_changes_order() {
    let mut map = InsertionOrderMap::new();
    map.insert("a", 1);
    map.insert("b", 2);
    map.insert("c", 3);
    map.remove(&"a");
    map.insert("a", 10);

    let keys: Vec<_> = { let mut it = map.keys(); drain(move || it.next()) };
    assert_eq!(keys, vec![&"b", &"c", &"a"]);
}

#[test]
fn insertion_order_map_default_is_empty() {
    let m: InsertionOrderMap<i32, i32> = InsertionOrderMap::default();
    assert!(m.is_empty());
}

#[test]
fn insertion_order_map_union_method() {
    let mut a = InsertionOrderMap::new();
    a.insert("x", 1i32);
    a.insert("y", 2);
    let mut b = InsertionOrderMap::new();
    b.insert("y", 99); // conflict: b wins
    b.insert("z", 3);
    let c = a.union(b);
    assert_eq!(c.get(&"x"), Some(&1));
    assert_eq!(c.get(&"y"), Some(&99));
    assert_eq!(c.get(&"z"), Some(&3));
}

#[test]
fn insertion_order_map_difference() {
    let mut a = InsertionOrderMap::new();
    a.insert("x", 1i32);
    a.insert("y", 2);
    a.insert("z", 3);
    let mut b = InsertionOrderMap::new();
    b.insert("y", 99);
    let c = a.difference(&b);
    assert_eq!(c.len(), 2);
    assert!(c.contains_key(&"x"));
    assert!(!c.contains_key(&"y"));
    assert!(c.contains_key(&"z"));
}

#[test]
fn insertion_order_map_intersection_method() {
    let mut a = InsertionOrderMap::new();
    a.insert("x", 1i32);
    a.insert("y", 2);
    let mut b = InsertionOrderMap::new();
    b.insert("y", 99);
    b.insert("z", 3);
    let c = a.intersection(&b);
    assert_eq!(c.len(), 1);
    assert!(c.contains_key(&"y"));
    assert_eq!(c.get(&"y"), Some(&2)); // self's value is kept
    assert!(!c.contains_key(&"x"));
}

#[test]
fn insertion_order_map_symmetric_difference_method() {
    let mut a = InsertionOrderMap::new();
    a.insert("x", 1i32);
    a.insert("y", 2);
    a.insert("z", 3);
    let mut b = InsertionOrderMap::new();
    b.insert("y", 99); // shared — excluded
    b.insert("w", 4); // only in b
    let c = a.symmetric_difference(&b);
    assert_eq!(c.len(), 3); // x, z (from a), w (from b)
    assert!(c.contains_key(&"x"));
    assert!(!c.contains_key(&"y"));
    assert!(c.contains_key(&"z"));
    assert!(c.contains_key(&"w"));
}

#[test]
fn insertion_order_map_symmetric_difference_disjoint() {
    let mut a = InsertionOrderMap::new();
    a.insert(1i32, "a");
    let mut b = InsertionOrderMap::new();
    b.insert(2i32, "b");
    let c = a.symmetric_difference(&b);
    assert_eq!(c.len(), 2);
}

#[test]
fn insertion_order_map_extend_adds_pairs() {
    let mut m: InsertionOrderMap<i32, i32> = InsertionOrderMap::new();
    m.extend(vec![(1, 10), (2, 20)]);
    assert_eq!(m.len(), 2);
    assert_eq!(m.get(&1), Some(&10));
}

#[test]
fn insertion_order_map_from_vec() {
    let m: InsertionOrderMap<i32, i32> = InsertionOrderMap::from_vec(vec![(1, 10), (2, 20)]);
    assert_eq!(m.len(), 2);
}

#[test]
fn insertion_order_map_from_array() {
    let m: InsertionOrderMap<i32, i32> = InsertionOrderMap::from_vec(vec![(1i32, 10i32), (2, 20)]);
    assert_eq!(m.len(), 2);
}

#[test]
fn insertion_order_map_from_slice() {
    let m: InsertionOrderMap<i32, i32> = InsertionOrderMap::from_vec([(1i32, 10i32)].to_vec());
    assert_eq!(m.len(), 1);
}

#[test]
fn insertion_order_map_from_vec_ref() {
    let v = vec![(1i32, 10i32), (2, 20)];
    let m: InsertionOrderMap<i32, i32> = InsertionOrderMap::from_vec(v.clone());
    assert_eq!(m.len(), 2);
}

#[test]
fn index_and_index_mut() {
    let mut m = InsertionOrderMap::new();
    m.insert("a", 1i32);
    assert_eq!(*m.index(&"a"), 1);
    *m.index_mut(&"a") = 99;
    assert_eq!(m.get(&"a"), Some(&99));
}

#[test]
fn get_mut_updates_value() {
    let mut m = InsertionOrderMap::new();
    m.insert("a", 1i32);
    *m.get_mut(&"a").unwrap() = 42;
    assert_eq!(m.get(&"a"), Some(&42));
    assert_eq!(m.get_mut(&"z"), None);
}

#[test]
fn front_and_back_empty() {
    let m: InsertionOrderMap<&str, i32> = InsertionOrderMap::new();
    assert_eq!(m.front(), None);
    assert_eq!(m.back(), None);
}

#[test]
fn front_and_back_single() {
    let mut m = InsertionOrderMap::new();
    m.insert("only", 1i32);
    assert_eq!(m.front(), Some((&"only", &1)));
    assert_eq!(m.back(), Some((&"only", &1)));
}

#[test]
fn front_and_back_multiple() {
    let mut m = InsertionOrderMap::new();
    m.insert("a", 1i32);
    m.insert("b", 2i32);
    m.insert("c", 3i32);
    assert_eq!(m.front(), Some((&"a", &1)));
    assert_eq!(m.back(), Some((&"c", &3)));
}

#[test]
fn pop_front_fifo_order() {
    let mut m = InsertionOrderMap::new();
    m.insert("a", 1i32);
    m.insert("b", 2i32);
    m.insert("c", 3i32);
    assert_eq!(m.pop_front(), Some(("a", 1)));
    assert_eq!(m.pop_front(), Some(("b", 2)));
    assert_eq!(m.pop_front(), Some(("c", 3)));
    assert_eq!(m.pop_front(), None);
    assert!(m.is_empty());
}

#[test]
fn pop_back_lifo_order() {
    let mut m = InsertionOrderMap::new();
    m.insert("a", 1i32);
    m.insert("b", 2i32);
    m.insert("c", 3i32);
    assert_eq!(m.pop_back(), Some(("c", 3)));
    assert_eq!(m.pop_back(), Some(("b", 2)));
    assert_eq!(m.pop_back(), Some(("a", 1)));
    assert_eq!(m.pop_back(), None);
}

#[test]
fn pop_front_removes_from_lookup() {
    // After pop_front, the key must no longer be findable via get().
    let mut m = InsertionOrderMap::new();
    m.insert("x", 42i32);
    m.insert("y", 99i32);
    m.pop_front();
    assert_eq!(m.get(&"x"), None);
    assert!(m.contains_key(&"y"));
    assert_eq!(m.len(), 1);
}

#[test]
fn pop_front_unique_queue_dedup() {
    // Simulate a deduplicating FIFO work queue.
    let mut queue = InsertionOrderMap::<&str, ()>::new();
    queue.insert("task-a", ());
    queue.insert("task-b", ());
    queue.insert("task-a", ()); // duplicate — no-op
    queue.insert("task-c", ());
    assert_eq!(queue.len(), 3);
    assert_eq!(queue.pop_front().map(|(k, _)| k), Some("task-a"));
    assert_eq!(queue.pop_front().map(|(k, _)| k), Some("task-b"));
    assert_eq!(queue.pop_front().map(|(k, _)| k), Some("task-c"));
    assert_eq!(queue.pop_front(), None);
}
