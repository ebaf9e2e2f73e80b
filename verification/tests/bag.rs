use pds::bag::Bag;

/// What is left of an iteration.
fn drain<T>(mut next: impl FnMut() -> Option<T>) -> Vec<T> {
    let mut items = Vec::new();
    while let Some(item) = next() {
        items.push(item);
    }
    items
}

#[test]
fn new_bag_is_empty() {
    let bag: Bag<i32> = Bag::new();
    assert!(bag.is_empty());
    assert_eq!(bag.len(), 0);
    assert_eq!(bag.total_count(), 0);
}

#[test]
fn insert_and_count() {
    let mut bag = Bag::new();
    bag.insert("a");
    bag.insert("a");
    bag.insert("b");
    assert_eq!(bag.count(&"a"), 2);
    assert_eq!(bag.count(&"b"), 1);
    assert_eq!(bag.count(&"c"), 0);
    assert_eq!(bag.len(), 2);
    assert_eq!(bag.total_count(), 3);
}

#[test]
fn insert_many() {
    let mut bag = Bag::new();
    bag.insert_many("a", 5);
    assert_eq!(bag.count(&"a"), 5);
    assert_eq!(bag.total_count(), 5);
    bag.insert_many("a", 3);
    assert_eq!(bag.count(&"a"), 8);
    assert_eq!(bag.total_count(), 8);
}

#[test]
fn insert_many_zero() {
    let mut bag = Bag::new();
    bag.insert_many("a", 0);
    assert!(bag.is_empty());
    assert_eq!(bag.total_count(), 0);
}

#[test]
fn remove_single() {
    let mut bag = Bag::new();
    bag.insert("a");
    bag.insert("a");
    let prev = bag.remove(&"a");
    assert_eq!(prev, 2);
    assert_eq!(bag.count(&"a"), 1);
    assert_eq!(bag.total_count(), 1);
}

#[test]
fn remove_last_occurrence() {
    let mut bag = Bag::new();
    bag.insert("a");
    bag.remove(&"a");
    assert!(!bag.contains(&"a"));
    assert!(bag.is_empty());
}

#[test]
fn bag_remove_absent() {
    let mut bag: Bag<&str> = Bag::new();
    let prev = bag.remove(&"x");
    assert_eq!(prev, 0);
    assert!(bag.is_empty());
}

#[test]
fn bag_remove_all() {
    let mut bag = Bag::new();
    bag.insert_many("a", 5);
    bag.insert("b");
    let prev = bag.remove_all(&"a");
    assert_eq!(prev, 5);
    assert!(!bag.contains(&"a"));
    assert_eq!(bag.total_count(), 1);
}

#[test]
fn bag_contains() {
    let mut bag = Bag::new();
    assert!(!bag.contains(&1));
    bag.insert(1);
    assert!(bag.contains(&1));
}

#[test]
fn sum_bags() {
    let mut a = Bag::new();
    a.insert_many("x", 2);
    a.insert("y");

    let mut b = Bag::new();
    b.insert_many("x", 3);
    b.insert("z");

    let c = a.sum(&b);
    assert_eq!(c.count(&"x"), 5);
    assert_eq!(c.count(&"y"), 1);
    assert_eq!(c.count(&"z"), 1);
    assert_eq!(c.total_count(), 7);
}

#[test]
fn intersection_bags() {
    let mut a = Bag::new();
    a.insert_many("x", 3);
    a.insert_many("y", 1);

    let mut b = Bag::new();
    b.insert_many("x", 2);
    b.insert_many("z", 5);

    let c = a.intersection(&b);
    assert_eq!(c.count(&"x"), 2);
    assert_eq!(c.count(&"y"), 0);
    assert_eq!(c.count(&"z"), 0);
    assert_eq!(c.total_count(), 2);
}

#[test]
fn difference_bags() {
    let mut a = Bag::new();
    a.insert_many("x", 5);
    a.insert_many("y", 2);

    let mut b = Bag::new();
    b.insert_many("x", 3);
    b.insert_many("y", 10);

    let c = a.difference(&b);
    assert_eq!(c.count(&"x"), 2);
    assert_eq!(c.count(&"y"), 0);
    assert_eq!(c.total_count(), 2);
}

#[test]
fn bag_from_iterator() {
    let bag: Bag<i32> = Bag::from_vec(vec![1, 2, 2, 3, 3, 3]);
    assert_eq!(bag.count(&1), 1);
    assert_eq!(bag.count(&2), 2);
    assert_eq!(bag.count(&3), 3);
    assert_eq!(bag.total_count(), 6);
    assert_eq!(bag.len(), 3);
}

#[test]
fn bag_clone_shares_structure() {
    let mut bag = Bag::new();
    bag.insert_many("a", 10);
    let bag2 = bag.clone();
    assert!(bag.test_eq(&bag2));
}

#[test]
fn bag_equality() {
    let mut a = Bag::new();
    a.insert(1);
    a.insert(2);
    a.insert(2);

    let mut b = Bag::new();
    b.insert(2);
    b.insert(1);
    b.insert(2);

    assert!(a.test_eq(&b));
}

#[test]
fn bag_into_iter_owned() {
    let mut bag = Bag::new();
    bag.insert("a");
    bag.insert("a");
    bag.insert("b");

    let mut items: Vec<_> = { let mut it = bag.into_iter(); drain(move || it.next()) };
    items.sort_by_key(|(k, _)| *k);
    assert_eq!(items, vec![("a", 2), ("b", 1)]);
}

#[test]
fn bag_for_loop() {
    let mut bag = Bag::new();
    bag.insert(1);
    bag.insert(2);
    bag.insert(2);

    let mut total = 0;
    for (_, count) in { let mut it = bag.iter(); drain(move || it.next()) } {
        total += count;
    }
    assert_eq!(total, 3);
}

#[test]
fn inequality_different_counts() {
    let mut a = Bag::new();
    a.insert(1);
    a.insert(1);

    let mut b = Bag::new();
    b.insert(1);

    assert!(!a.test_eq(&b));
}

#[test]
fn bag_default_is_empty() {
    let b: Bag<i32> = Bag::default();
    assert!(b.is_empty());
}

#[test]
fn add_union_owned() {
    let mut a = Bag::new();
    a.insert(1i32); a.insert(2);
    let mut b = Bag::new();
    b.insert(2i32); b.insert(3);
    let c = a + b;
    assert_eq!(c.count(&1), 1);
    assert_eq!(c.count(&2), 2); // appears in both
    assert_eq!(c.count(&3), 1);
}

#[test]
fn add_union_ref() {
    let mut a = Bag::new();
    a.insert(1i32);
    let mut b = Bag::new();
    b.insert(2i32);
    let c = &a + &b;
    assert_eq!(c.len(), 2);
}

#[test]
fn bag_extend_adds_elements() {
    let mut b: Bag<i32> = Bag::new();
    b.extend(vec![1, 1, 2]);
    assert_eq!(b.count(&1), 2);
    assert_eq!(b.count(&2), 1);
}

#[test]
fn bag_from_vec() {
    let b: Bag<i32> = Bag::from_vec(vec![1, 1, 2]);
    assert_eq!(b.count(&1), 2);
}

#[test]
fn bag_from_array() {
    let b: Bag<i32> = Bag::from_vec(vec![1i32, 2, 2]);
    assert_eq!(b.count(&2), 2);
}

#[test]
fn bag_from_slice() {
    let b: Bag<i32> = Bag::from_vec([1i32, 2].to_vec());
    assert_eq!(b.len(), 2);
}

#[test]
fn bag_from_vec_ref() {
    let v = vec![1i32, 1, 2];
    let b: Bag<i32> = Bag::from_vec(v.clone());
    assert_eq!(b.count(&1), 2);
    assert_eq!(b.count(&2), 1);
}

#[test]
fn bag_into_iter_ref() {
    let mut bag = Bag::new();
    bag.insert("a");
    bag.insert("b");

    let mut it = bag.iter();
    let mut items: Vec<(&&str, usize)> = drain(|| it.next().map(|(k, n)| (k, *n)));
    items.sort_by_key(|(k, _)| *k);
    assert_eq!(items, vec![(&"a", 1), (&"b", 1)]);
}

#[test]
fn sum_via_iterator() {
    let bags: Vec<Bag<i32>> = vec![
        {let mut b = Bag::new(); b.insert(1); b.insert(1); b},
        {let mut b = Bag::new(); b.insert(2); b},
    ];
    let total: Bag<i32> = bags.into_iter().fold(Bag::new(), |a, b| a + b);
    assert_eq!(total.count(&1), 2);
    assert_eq!(total.count(&2), 1);
}
