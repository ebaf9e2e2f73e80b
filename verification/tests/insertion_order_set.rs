use pds::insertion_order_set::InsertionOrderSet;

/// What is left of an iteration.
fn drain<T>(mut next: impl FnMut() -> Option<T>) -> Vec<T> {
    let mut items = Vec::new();
    while let Some(item) = next() {
        items.push(item);
    }
    items
}

#[test]
fn insertion_order_set_new_is_empty() {
    let set: InsertionOrderSet<i32> = InsertionOrderSet::new();
    assert!(set.is_empty());
    assert_eq!(set.len(), 0);
}

#[test]
fn insert_and_contains() {
    let mut set = InsertionOrderSet::new();
    assert!(set.insert(1));
    assert!(set.insert(2));
    // Duplicate — not inserted.
    assert!(!set.insert(1));
    assert!(set.contains(&1));
    assert!(set.contains(&2));
    assert!(!set.contains(&3));
    assert_eq!(set.len(), 2);
}

#[test]
fn insertion_order_set_insertion_order_preserved() {
    let mut set = InsertionOrderSet::new();
    set.insert("c");
    set.insert("a");
    set.insert("b");

    let elems: Vec<_> = { let mut it = set.iter(); drain(move || it.next()) };
    assert_eq!(elems, vec![&"c", &"a", &"b"]);
}

#[test]
fn insert_duplicate_preserves_order() {
    let mut set = InsertionOrderSet::new();
    set.insert("a");
    set.insert("b");
    set.insert("c");
    // Reinserting "a" must not change its position.
    assert!(!set.insert("a"));
    let elems: Vec<_> = { let mut it = set.iter(); drain(move || it.next()) };
    assert_eq!(elems, vec![&"a", &"b", &"c"]);
}

#[test]
fn insertion_order_set_remove() {
    let mut set = InsertionOrderSet::new();
    set.insert("a");
    set.insert("b");
    set.insert("c");

    assert!(set.remove(&"b"));
    assert!(!set.contains(&"b"));
    assert_eq!(set.len(), 2);

    let elems: Vec<_> = { let mut it = set.iter(); drain(move || it.next()) };
    assert_eq!(elems, vec![&"a", &"c"]);
}

#[test]
fn insertion_order_set_remove_absent() {
    let mut set: InsertionOrderSet<i32> = InsertionOrderSet::new();
    assert!(!set.remove(&42));
}

#[test]
fn insertion_order_set_remove_then_reinsert_changes_order() {
    let mut set = InsertionOrderSet::new();
    set.insert("a");
    set.insert("b");
    set.insert("c");
    set.remove(&"a");
    set.insert("a");

    let elems: Vec<_> = { let mut it = set.iter(); drain(move || it.next()) };
    assert_eq!(elems, vec![&"b", &"c", &"a"]);
}

#[test]
fn insertion_order_set_clone_shares_structure() {
    let mut set = InsertionOrderSet::new();
    set.insert(1);
    set.insert(2);
    let set2 = set.clone();
    assert!(set.test_eq(&set2));
}

#[test]
fn insertion_order_set_equality_order_matters() {
    let mut a = InsertionOrderSet::new();
    a.insert(1);
    a.insert(2);

    let mut b = InsertionOrderSet::new();
    b.insert(2);
    b.insert(1);

    // Different insertion order → not equal.
    assert!(!a.test_eq(&b));
}

#[test]
fn insertion_order_set_equality_same_order() {
    let mut a = InsertionOrderSet::new();
    a.insert(1);
    a.insert(2);

    let mut b = InsertionOrderSet::new();
    b.insert(1);
    b.insert(2);

    assert!(a.test_eq(&b));
}

#[test]
fn insertion_order_set_into_iter_owned() {
    let mut set = InsertionOrderSet::new();
    set.insert("c");
    set.insert("a");
    set.insert("b");

    let elems: Vec<_> = { let mut it = set.into_iter(); drain(move || it.next()) };
    assert_eq!(elems, vec!["c", "a", "b"]);
}

#[test]
fn insertion_order_set_into_iter_ref() {
    let mut set = InsertionOrderSet::new();
    set.insert(1);
    set.insert(2);

    let elems: Vec<_> = { let mut it = set.iter(); drain(move || it.next()) };
    assert_eq!(elems, vec![&1, &2]);
}

#[test]
fn insertion_order_set_for_loop() {
    let mut set = InsertionOrderSet::new();
    set.insert(10);
    set.insert(20);

    let mut sum = 0;
    for &v in { let mut it = set.iter(); drain(move || it.next()) } {
        sum += v;
    }
    assert_eq!(sum, 30);
}

#[test]
fn insertion_order_set_default_is_empty() {
    let set: InsertionOrderSet<i32> = InsertionOrderSet::default();
    assert!(set.is_empty());
}

#[test]
fn insertion_order_set_from_iterator() {
    let set: InsertionOrderSet<i32> = InsertionOrderSet::from_vec(vec![3, 1, 2, 1]);
    // Duplicate 1 is dropped; order of first appearances is preserved.
    let elems: Vec<_> = { let mut it = set.iter(); drain(move || it.next()) }.into_iter().copied().collect();
    assert_eq!(elems, vec![3, 1, 2]);
}

#[test]
fn insertion_order_set_union_method() {
    let mut a = InsertionOrderSet::new();
    a.insert(1i32);
    a.insert(2);
    let mut b = InsertionOrderSet::new();
    b.insert(2);
    b.insert(3); // 2 already in a — position kept from a
    let c = a.union(b);
    assert!(c.contains(&1));
    assert!(c.contains(&2));
    assert!(c.contains(&3));
    assert_eq!(c.len(), 3);
    // 1 and 2 come from a in insertion order; 3 appended from b.
    let elems: Vec<_> = { let mut it = c.iter(); drain(move || it.next()) }.into_iter().copied().collect();
    assert_eq!(elems, vec![1, 2, 3]);
}

#[test]
fn difference_method() {
    let mut a = InsertionOrderSet::new();
    a.insert(1i32);
    a.insert(2);
    a.insert(3);
    let mut b = InsertionOrderSet::new();
    b.insert(2);
    let c = a.difference(&b);
    assert_eq!(c.len(), 2);
    assert!(c.contains(&1));
    assert!(!c.contains(&2));
    assert!(c.contains(&3));
    let elems: Vec<_> = { let mut it = c.iter(); drain(move || it.next()) }.into_iter().copied().collect();
    assert_eq!(elems, vec![1, 3]);
}

#[test]
fn insertion_order_set_intersection_method() {
    let mut a = InsertionOrderSet::new();
    a.insert(1i32);
    a.insert(2);
    a.insert(3);
    let mut b = InsertionOrderSet::new();
    b.insert(2);
    b.insert(3);
    b.insert(4);
    let c = a.intersection(&b);
    assert_eq!(c.len(), 2);
    assert!(c.contains(&2));
    assert!(c.contains(&3));
    assert!(!c.contains(&1));
    assert!(!c.contains(&4));
    // Insertion order from a preserved.
    let elems: Vec<_> = { let mut it = c.iter(); drain(move || it.next()) }.into_iter().copied().collect();
    assert_eq!(elems, vec![2, 3]);
}

#[test]
fn insertion_order_set_symmetric_difference_method() {
    let mut a = InsertionOrderSet::new();
    a.insert(1i32);
    a.insert(2);
    a.insert(3);
    let mut b = InsertionOrderSet::new();
    b.insert(2);
    b.insert(4);
    let c = a.symmetric_difference(b);
    // 1 and 3 are in a only; 4 is in b only; 2 is in both (removed).
    assert_eq!(c.len(), 3);
    assert!(c.contains(&1));
    assert!(!c.contains(&2));
    assert!(c.contains(&3));
    assert!(c.contains(&4));
}

#[test]
fn insertion_order_set_extend_adds_elements() {
    let mut set: InsertionOrderSet<i32> = InsertionOrderSet::new();
    set.extend(vec![1, 2, 3, 2]); // duplicate 2 is ignored
    assert_eq!(set.len(), 3);
    assert!(set.contains(&1));
    assert!(set.contains(&3));
}

#[test]
fn insertion_order_set_from_vec() {
    let s: InsertionOrderSet<i32> = InsertionOrderSet::from_vec(vec![3, 1, 2]);
    assert_eq!(s.len(), 3);
    let elems: Vec<_> = { let mut it = s.iter(); drain(move || it.next()) }.into_iter().copied().collect();
    assert_eq!(elems, vec![3, 1, 2]);
}

#[test]
fn insertion_order_set_from_array() {
    let s: InsertionOrderSet<i32> = InsertionOrderSet::from_vec(vec![3i32, 1, 2]);
    assert_eq!(s.len(), 3);
}

#[test]
fn insertion_order_set_from_slice() {
    let s: InsertionOrderSet<i32> = InsertionOrderSet::from_vec([3i32, 1, 2].to_vec());
    assert_eq!(s.len(), 3);
}

#[test]
fn insertion_order_set_from_vec_ref() {
    let v = vec![1i32, 2, 3];
    let s: InsertionOrderSet<i32> = InsertionOrderSet::from_vec(v.clone());
    assert_eq!(s.len(), 3);
}

#[test]
fn front_back_empty() {
    let s: InsertionOrderSet<i32> = InsertionOrderSet::new();
    assert_eq!(s.front(), None);
    assert_eq!(s.back(), None);
}

#[test]
fn front_back_order() {
    let mut s = InsertionOrderSet::new();
    s.insert(10i32);
    s.insert(20i32);
    s.insert(30i32);
    assert_eq!(s.front(), Some(&10));
    assert_eq!(s.back(), Some(&30));
}

#[test]
fn pop_front_fifo() {
    let mut s = InsertionOrderSet::new();
    s.insert("a");
    s.insert("b");
    s.insert("c");
    assert_eq!(s.pop_front(), Some("a"));
    assert_eq!(s.pop_front(), Some("b"));
    assert_eq!(s.pop_front(), Some("c"));
    assert_eq!(s.pop_front(), None);
}

#[test]
fn pop_back_lifo() {
    let mut s = InsertionOrderSet::new();
    s.insert("a");
    s.insert("b");
    s.insert("c");
    assert_eq!(s.pop_back(), Some("c"));
    assert_eq!(s.pop_back(), Some("b"));
    assert_eq!(s.pop_back(), Some("a"));
    assert_eq!(s.pop_back(), None);
}

#[test]
fn dedup_queue_simulation() {
    // Classic BFS / work-queue pattern: enqueue only if not already pending.
    let mut queue: InsertionOrderSet<&str> = InsertionOrderSet::new();
    queue.insert("node-1");
    queue.insert("node-2");
    queue.insert("node-1"); // already queued — ignored
    queue.insert("node-3");
    assert_eq!(queue.len(), 3);
    let drained: Vec<_> = core::iter::from_fn(|| queue.pop_front()).collect();
    assert_eq!(drained, vec!["node-1", "node-2", "node-3"]);
}

#[test]
fn macro_empty() {
    let s: InsertionOrderSet<&str> = InsertionOrderSet::from_vec(vec![]);
    assert!(s.is_empty());
}

#[test]
fn macro_with_elements() {
    let s = InsertionOrderSet::from_vec(vec!["c", "a", "b"]);
    assert_eq!(s.len(), 3);
    assert!(s.contains(&"a"));
    // Elements must iterate in insertion order.
    let elems: Vec<_> = { let mut it = s.iter(); drain(move || it.next()) };
    assert_eq!(elems, vec![&"c", &"a", &"b"]);
}

#[test]
fn macro_trailing_comma() {
    let s = InsertionOrderSet::from_vec(vec!["x", "y", "z"]);
    assert_eq!(s.len(), 3);
}
