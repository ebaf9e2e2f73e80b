use pds::hash_set::{GenericHashSet, HashSet};
use pds::hash_set_diff::DiffItem;
use pds::identity_hasher::IdentityBuildHasher;
use pds::random_state::RandomState;

/// What is left of an iteration.
fn drain<T>(mut next: impl FnMut() -> Option<T>) -> Vec<T> {
    let mut items = Vec::new();
    while let Some(item) = next() {
        items.push(item);
    }
    items
}

#[test]
fn set_macro_allows_trailing_comma() {
    let set1 = HashSet::from_vec(vec!["foo", "bar"]);
    let set2 = HashSet::from_vec(vec!["foo", "bar"]);
    assert!(set1.test_eq(&set2));
}

#[test]
fn set_partial_eq_ptr_eq_fast_path() {
    let set: HashSet<i32> = HashSet::from_vec((0..100).collect());
    let set2 = set.clone();
    assert!(set.test_eq(&set2));

    let mut set3 = set.clone();
    set3.insert(999);
    assert!(!set.test_eq(&set3));

    let empty: HashSet<i32> = HashSet::new();
    let empty2: HashSet<i32> = HashSet::new();
    assert!(empty.test_eq(&empty2));

    assert!(set.test_eq(&set));
}

#[test]
fn partial_eq_merkle_negative_check() {
    let mut a: HashSet<i32> = HashSet::from_vec((0..1000).collect());
    let b = a.clone();
    assert!(a.test_eq(&b));

    a.insert(9999);
    assert!(!a.test_eq(&b));

    a.remove(&0);
    assert_eq!(a.len(), b.len()); // same length
    assert!(!a.test_eq(&b));
}

#[test]
fn diff_identical_sets() {
    let set: HashSet<i32> = HashSet::from_vec((0..50).collect());
    let set2 = set.clone();
    assert_eq!({ let mut it = set.diff(&set2); drain(move || it.next()) }.len(), 0);
}

#[test]
fn set_diff_ptr_eq_fast_path() {
    let set: HashSet<i32> = HashSet::from_vec((0..50).collect());
    let set2 = set.clone();
    assert!(set.ptr_eq(&set2));
    assert_eq!({ let mut it = set.diff(&set2); drain(move || it.next()) }.len(), 0);
}

#[test]
fn set_diff_additions() {
    let set1: HashSet<i32> = HashSet::new();
    let set2: HashSet<i32> = HashSet::from_vec((0..3).collect());
    let diffs: Vec<_> = { let mut it = set1.diff(&set2); drain(move || it.next()) };
    assert_eq!(diffs.len(), 3);
    assert!({ let mut it = diffs.iter(); drain(move || it.next()) }.into_iter().all(|d| matches!(d, DiffItem::Add(_))));
}

#[test]
fn set_diff_removals() {
    let set1: HashSet<i32> = HashSet::from_vec((0..3).collect());
    let set2: HashSet<i32> = HashSet::new();
    let diffs: Vec<_> = { let mut it = set1.diff(&set2); drain(move || it.next()) };
    assert_eq!(diffs.len(), 3);
    assert!({ let mut it = diffs.iter(); drain(move || it.next()) }.into_iter().all(|d| matches!(d, DiffItem::Remove(_))));
}

#[test]
fn set_diff_mixed() {
    let set1: HashSet<i32> = HashSet::from_vec((0..5).collect());
    let mut set2 = set1.clone();
    set2.remove(&0);
    set2.insert(10);
    let diffs: Vec<_> = { let mut it = set1.diff(&set2); drain(move || it.next()) };
    assert_eq!(diffs.len(), 2);
    let mut adds = 0;
    let mut removes = 0;
    for d in &diffs {
        match d {
            DiffItem::Add(_) => adds += 1,
            DiffItem::Remove(_) => removes += 1,
        }
    }
    assert_eq!(adds, 1);
    assert_eq!(removes, 1);
}

#[test]
fn diff_empty_sets() {
    let set1: HashSet<i32> = HashSet::new();
    let set2: HashSet<i32> = HashSet::new();
    assert_eq!({ let mut it = set1.diff(&set2); drain(move || it.next()) }.len(), 0);
}

#[test]
fn set_diff_is_fused() {
    let mut set1: HashSet<i32> = HashSet::new();
    set1.insert(1);
    let set2: HashSet<i32> = HashSet::new();
    let mut iter = set1.diff(&set2);
    assert!(iter.next().is_some());
    assert!(iter.next().is_none());
    assert!(iter.next().is_none());
}

#[test]
fn diff_root_merkle_fast_path_equal_sets() {
    let mut set = HashSet::new();
    for i in 0..500 {
        set.insert(i);
    }
    let other = set.clone();
    assert_eq!({ let mut it = set.diff(&other); drain(move || it.next()) }.len(), 0);
}

#[test]
fn diff_root_merkle_fast_path_after_insert_remove() {
    let mut set1 = HashSet::new();
    for i in 0..200 {
        set1.insert(i);
    }
    let set2 = {
        let mut s = set1.clone();
        s.insert(9999);
        s.remove(&9999);
        s
    };
    assert_eq!({ let mut it = set1.diff(&set2); drain(move || it.next()) }.len(), 0);
}

#[test]
fn diff_merkle_subtree_pruning_correctness() {
    let mut set1 = HashSet::new();
    for i in 0..1000 {
        set1.insert(i);
    }
    let mut set2 = set1.clone();
    set2.remove(&42);
    set2.insert(9999);

    let diffs: Vec<_> = { let mut it = set1.diff(&set2); drain(move || it.next()) };
    assert_eq!(diffs.len(), 2);
}

#[test]
fn set_apply_diff_roundtrip() {
    let base = HashSet::from_vec(vec![1, 2, 3]);
    let modified = HashSet::from_vec(vec![2, 3, 4]);
    let diff: Vec<_> = { let mut it = base.diff(&modified); drain(move || it.next()) };
    let patched = base.apply_diff(diff);
    assert!(patched.test_eq(&modified));
}

#[test]
fn set_apply_diff_empty_diff() {
    let set = HashSet::from_vec(vec![1, 2, 3]);
    let patched = set.apply_diff(vec![]);
    assert!(patched.test_eq(&set));
}

#[test]
fn set_apply_diff_from_empty() {
    let base: HashSet<i32> = HashSet::new();
    let modified = HashSet::from_vec(vec![1, 2, 3]);
    let diff: Vec<_> = { let mut it = base.diff(&modified); drain(move || it.next()) };
    let patched = base.apply_diff(diff);
    assert!(patched.test_eq(&modified));
}

#[test]
fn set_apply_diff_to_empty() {
    let base = HashSet::from_vec(vec![1, 2, 3]);
    let modified: HashSet<i32> = HashSet::new();
    let diff: Vec<_> = { let mut it = base.diff(&modified); drain(move || it.next()) };
    let patched = base.apply_diff(diff);
    assert!(patched.test_eq(&modified));
}

#[test]
fn set_partition_basic() {
    let set = HashSet::from_vec(vec![1, 2, 3, 4, 5]);
    let (evens, odds) = set.partition(|v| v % 2 == 0);
    assert!(evens.test_eq(&HashSet::from_vec(vec![2, 4])));
    assert!(odds.test_eq(&HashSet::from_vec(vec![1, 3, 5])));
}

#[test]
fn set_disjoint_basic() {
    let a = HashSet::from_vec(vec![1, 2, 3]);
    let b = HashSet::from_vec(vec![4, 5, 6]);
    let c = HashSet::from_vec(vec![3, 4, 5]);
    assert!(a.disjoint(&b));
    assert!(!a.disjoint(&c));
}

#[test]
fn set_disjoint_empty() {
    let a = HashSet::from_vec(vec![1, 2]);
    let b: HashSet<i32> = HashSet::new();
    assert!(a.disjoint(&b));
    assert!(b.disjoint(&a));
}

#[test]
fn restrict_basic() {
    let set = HashSet::from_vec(vec![1, 2, 3, 4, 5]);
    let keep = HashSet::from_vec(vec![2, 4, 6]);
    assert!(set.restrict(&keep).test_eq(&HashSet::from_vec(vec![2, 4])));
}

#[test]
fn new_unit_is_empty_len() {
    let empty: HashSet<i32> = HashSet::new();
    assert!(empty.is_empty());
    assert_eq!(empty.len(), 0);

    let single = HashSet::unit(42);
    assert!(!single.is_empty());
    assert_eq!(single.len(), 1);
    assert!(single.contains(&42));
}

#[test]
fn clear() {
    let mut set = HashSet::from_vec(vec![1, 2, 3]);
    set.clear();
    assert!(set.is_empty());
    assert_eq!(set.len(), 0);
}

#[test]
fn hasher_and_new_from() {
    let set: HashSet<i32> = HashSet::new();
    let _h = set.hasher(); // just verify it's accessible
    let set2: HashSet<String> = set.new_from();
    assert!(set2.is_empty());
}

#[test]
fn is_subset_is_proper_subset() {
    let a = HashSet::from_vec(vec![1, 2, 3]);
    let b = HashSet::from_vec(vec![1, 2, 3, 4, 5]);
    let c = HashSet::from_vec(vec![1, 2, 3]);
    assert!(a.is_subset(&b));
    assert!(a.is_subset(&c));
    assert!(a.is_proper_subset(&b));
    assert!(!a.is_proper_subset(&c));
    assert!(!b.is_subset(&a));
}

#[test]
fn union_basic() {
    let a = HashSet::from_vec(vec![1, 2, 3]);
    let b = HashSet::from_vec(vec![3, 4, 5]);
    let u = a.union(b);
    assert_eq!(u.len(), 5);
    for i in 1..=5 {
        assert!(u.contains(&i));
    }
}

#[test]
fn unions_multiple() {
    let sets = vec![HashSet::from_vec(vec![1, 2]), HashSet::from_vec(vec![2, 3]), HashSet::from_vec(vec![3, 4])];
    let u = HashSet::unions(sets);
    assert_eq!(u.len(), 4);

    let empty: Vec<HashSet<i32>> = vec![];
    assert!(HashSet::unions(empty).is_empty());
}

#[test]
fn symmetric_difference_basic() {
    let a = HashSet::from_vec(vec![1, 2, 3]);
    let b = HashSet::from_vec(vec![2, 3, 4]);
    let sd = a.symmetric_difference(b);
    assert_eq!(sd.len(), 2);
    assert!(sd.contains(&1));
    assert!(sd.contains(&4));
}

#[test]
fn relative_complement_basic() {
    let a = HashSet::from_vec(vec![1, 2, 3, 4, 5]);
    let b = HashSet::from_vec(vec![2, 4]);
    let rc = a.relative_complement(b);
    assert_eq!(rc.len(), 3);
    assert!(rc.contains(&1));
    assert!(rc.contains(&3));
    assert!(rc.contains(&5));
}

#[test]
fn intersection_basic() {
    let a = HashSet::from_vec(vec![1, 2, 3, 4]);
    let b = HashSet::from_vec(vec![2, 4, 6]);
    let i = a.intersection(b);
    assert_eq!(i.len(), 2);
    assert!(i.contains(&2));
    assert!(i.contains(&4));
}

#[test]
fn update_persistent() {
    let set = HashSet::from_vec(vec![1, 2, 3]);
    let updated = set.update(4);
    assert_eq!(updated.len(), 4);
    assert!(updated.contains(&4));
    assert_eq!(set.len(), 3); // original unchanged
}

#[test]
fn without_persistent() {
    let set = HashSet::from_vec(vec![1, 2, 3]);
    let smaller = set.without(&2);
    assert_eq!(smaller.len(), 2);
    assert!(!smaller.contains(&2));
    assert_eq!(set.len(), 3);
}

#[test]
fn insert_remove_returns() {
    let mut set = HashSet::from_vec(vec![1, 2, 3]);
    assert_eq!(set.insert(4), None);
    assert_eq!(set.insert(2), Some(2));
    assert_eq!(set.remove(&3), Some(3));
    assert_eq!(set.remove(&99), None);
}

#[test]
fn retain_basic() {
    let mut set = HashSet::from_vec(vec![1, 2, 3, 4, 5]);
    set.retain(|v| v % 2 != 0);
    assert_eq!(set.len(), 3);
    assert!(set.contains(&1));
    assert!(set.contains(&3));
    assert!(set.contains(&5));
}

#[test]
fn add_mul_operators() {
    let a = HashSet::from_vec(vec![1, 2]);
    let b = HashSet::from_vec(vec![2, 3]);
    let union: HashSet<i32> = a + b;
    assert_eq!(union.len(), 3);

    let a = HashSet::from_vec(vec![1, 2, 3]);
    let b = HashSet::from_vec(vec![2, 3, 4]);
    let inter: HashSet<i32> = a * b;
    assert_eq!(inter.len(), 2);
}

#[test]
fn sum_trait() {
    let sets = vec![HashSet::from_vec(vec![1, 2]), HashSet::from_vec(vec![2, 3]), HashSet::from_vec(vec![3, 4])];
    let union: HashSet<i32> = HashSet::unions(sets);
    assert_eq!(union.len(), 4);
}

#[test]
fn from_conversions() {
    let set: HashSet<i32> = HashSet::from_vec(vec![3, 1, 2, 1]);
    assert_eq!(set.len(), 3);

    let std_set: std::collections::HashSet<i32> = [1, 2, 3].into_iter().collect();
    let set: HashSet<i32> = HashSet::from_vec(std_set.into_iter().collect());
    assert_eq!(set.len(), 3);
}

#[test]
fn set_extend_trait() {
    let mut set = HashSet::from_vec(vec![1, 2]);
    set.extend(vec![3, 4, 5]);
    assert_eq!(set.len(), 5);
}

#[test]
fn into_iterator() {
    let set = HashSet::from_vec(vec![1, 2, 3]);
    let mut items: Vec<i32> = { let mut it = set.into_iter(); drain(move || it.next()) };
    items.sort();
    assert_eq!(items, vec![1, 2, 3]);
}

#[test]
fn iter_fused_and_exact_size() {
    let set = HashSet::from_vec(vec![1, 2, 3, 4, 5]);
    let mut it = set.iter();
    assert_eq!(it.len(), 5);
    it.next();
    assert_eq!(it.len(), 4);
    while it.next().is_some() {}
    assert_eq!(it.len(), 0);
    assert_eq!(it.next(), None);
    assert_eq!(it.next(), None);
}

#[test]
fn large_set_operations() {
    let n = 500;
    let a: HashSet<i32> = HashSet::from_vec((0..n).collect());
    let b: HashSet<i32> = HashSet::from_vec((n / 2..n + n / 2).collect());

    let u = a.clone().union(b.clone());
    assert_eq!(u.len() as i32, n + n / 2);

    let i = a.clone().intersection(b.clone());
    assert_eq!(i.len() as i32, n / 2);

    let rc = a.clone().relative_complement(b.clone());
    assert_eq!(rc.len() as i32, n / 2);

    let sd = a.symmetric_difference(b);
    assert_eq!(sd.len() as i32, n);
}

#[test]
fn insert_failing() {
    let mut set: GenericHashSet<i16, IdentityBuildHasher> = Default::default();
    set.insert(14658);
    assert_eq!(1, set.len());
    set.insert(-19198);
    assert_eq!(2, set.len());
}

#[test]
fn match_strings_with_string_slices() {
    let mut set: HashSet<String> = HashSet::from_vec(vec!["foo".to_string(), "bar".to_string()]);
    set = set.without(&"bar".to_string());
    assert!(!set.contains(&"bar".to_string()));
    set.remove(&"foo".to_string());
    assert!(!set.contains(&"foo".to_string()));
}

#[test]
fn issue_60_drain_iterator_memory_corruption() {
    for i in 0..1000u64 {
        let mut lhs = vec![0, 1, 2];
        lhs.sort_unstable();

        let hasher = RandomState::with_keys(i, i);
        let mut iset: GenericHashSet<i32, RandomState> = GenericHashSet::with_hasher(hasher);
        for &i in &lhs {
            iset.insert(i);
        }

        let mut it = iset.clone().into_iter();
        let mut rhs: Vec<i32> = drain(|| it.next());
        rhs.sort_unstable();
        assert_eq!(lhs, rhs);
    }
}
