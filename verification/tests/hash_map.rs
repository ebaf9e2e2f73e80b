use pds::diff::DiffItem;
use pds::entry::Entry;
use pds::hash_key::{HashKey, HashState, View};
use pds::hash_map::{GenericHashMap, HashMap};
use pds::hash_set::HashSet;
use pds::identity_hasher::IdentityBuildHasher;
use pds::random_state::RandomState;

type FixedMap<K, V> = GenericHashMap<K, V, IdentityBuildHasher>;

/// Keys that differ by a multiple of `1 << SHIFT` share a slot of the root.
const SHIFT: usize = 5;

/// A hasher state that keeps five bits of a key.
#[derive(Default)]
struct Narrow;

impl HashState for Narrow {
    fn share_state(&self) -> Self {
        Narrow
    }

    fn same_state(&self, _other: &Self) -> bool {
        true
    }
}

impl HashKey<Narrow> for i32 {
    fn hash_in(key: i32, _state: Narrow) -> u64 {
        (key as u64) & 31
    }

    fn hash_with(&self, _state: &Narrow) -> u64 {
        (*self as u64) & 31
    }

    fn same_key(&self, other: &Self) -> bool {
        self == other
    }
}

type NarrowMap<K, V> = GenericHashMap<K, V, Narrow>;

/// What is left of an iteration.
fn drain<T>(mut next: impl FnMut() -> Option<T>) -> Vec<T> {
    let mut items = Vec::new();
    while let Some(item) = next() {
        items.push(item);
    }
    items
}

/// Numbers that look random.
fn numbers(count: usize, seed: u64) -> Vec<i16> {
    let mut state = seed;
    let mut list = Vec::new();
    for _ in 0..count {
        state = state.wrapping_mul(6364136223846793005).wrapping_add(1442695040888963407);
        list.push((state >> 33) as i16);
    }
    list
}

/// A standard map of entries that look random.
fn model(count: usize, seed: u64) -> std::collections::HashMap<i16, i16> {
    numbers(count, seed).into_iter().zip(numbers(count, seed + 1)).collect()
}

#[test]
fn map_macro_allows_trailing_comma() {
    let map1: HashMap<&str, i32> = HashMap::from_vec(vec![("x", 1), ("y", 2)]);
    let map2: HashMap<&str, i32> = HashMap::from_vec(vec![("x", 1), ("y", 2)]);
    assert!(map1.test_eq(&map2));
}

#[test]
fn refpool_crash() {
    let _map = HashMap::<u128, usize>::new();
}

#[test]
fn map_large_map() {
    let mut map = HashMap::<_, _>::new();
    let size = 32769;
    for i in 0..size {
        map.insert(i, i);
    }
    assert_eq!(size, map.len());
    for i in 0..size {
        assert_eq!(Some(&i), map.get(&i));
    }
}

#[test]
fn map_partial_eq_ptr_eq_fast_path() {
    let mut map = HashMap::new();
    for i in 0..100 {
        map.insert(i, i * 2);
    }
    let map2 = map.clone();
    assert!(map.test_eq(&map2));

    let mut map3 = map.clone();
    map3.insert(50, 999);
    assert!(!map.test_eq(&map3));

    let empty: HashMap<i32, i32> = HashMap::new();
    let empty2: HashMap<i32, i32> = HashMap::new();
    assert!(empty.test_eq(&empty2));

    assert!(map.test_eq(&map));
}

#[test]
fn merkle_hash_basic() {
    let mut m1 = HashMap::new();
    for i in 0..100 {
        m1.insert(i, i * 2);
    }
    let m2 = m1.clone();

    let r1 = &m1;
    let r2 = &m2;
    assert_eq!(r1.merkle_hash(), r2.merkle_hash());

    let mut m3 = m1.clone();
    m3.insert(999, 0);
    let r3 = &m3;
    assert_ne!(r1.merkle_hash(), r3.merkle_hash());

    let mut m4 = m1.clone();
    m4.remove(&50);
    let r4 = &m4;
    assert_ne!(r1.merkle_hash(), r4.merkle_hash());

    let mut m5 = m1.clone();
    m5.insert(50, 9999);
    let r5 = &m5;
    assert_eq!(r1.merkle_hash(), r5.merkle_hash());
}

#[test]
fn merkle_hash_insert_remove_roundtrip() {
    let mut m = HashMap::new();
    for i in 0..50 {
        m.insert(i, i);
    }
    let original_merkle = m.merkle_hash();

    m.insert(9999, 0);
    assert_ne!(m.merkle_hash(), original_merkle);
    m.remove(&9999);
    assert_eq!(m.merkle_hash(), original_merkle);
}

#[test]
fn merkle_hash_empty_map() {
    let m: HashMap<i32, i32> = HashMap::new();
    assert_eq!(m.merkle_hash(), 0);
}

#[test]
fn merkle_hash_equality_negative_check() {
    let mut m1 = HashMap::new();
    for i in 0..1000 {
        m1.insert(i, i);
    }
    let mut m2 = m1.clone();
    m2.remove(&500);
    m2.insert(99999, 0);

    assert_eq!(m1.len(), m2.len());
    assert_ne!(
        m1.merkle_hash(),
        m2.merkle_hash()
    );
    assert!(!m1.test_eq(&m2));
}

#[test]
fn diff_identical_maps() {
    let mut map = HashMap::new();
    for i in 0..50 {
        map.insert(i, i * 2);
    }
    let map2 = map.clone();
    assert_eq!({ let mut it = map.diff(&map2); drain(move || it.next()) }.len(), 0);
}

#[test]
fn map_diff_ptr_eq_fast_path() {
    let mut map = HashMap::new();
    for i in 0..50 {
        map.insert(i, i * 2);
    }
    let map2 = map.clone();
    assert!(map.ptr_eq(&map2));
    assert_eq!({ let mut it = map.diff(&map2); drain(move || it.next()) }.len(), 0);
}

#[test]
fn map_diff_additions() {
    let map1: HashMap<i32, i32> = HashMap::new();
    let mut map2 = HashMap::new();
    map2.insert(1, 10);
    map2.insert(2, 20);
    let diffs: Vec<_> = { let mut it = map1.diff(&map2); drain(move || it.next()) };
    assert_eq!(diffs.len(), 2);
    assert!({ let mut it = diffs.iter(); drain(move || it.next()) }.into_iter().all(|d| matches!(d, DiffItem::Add(_, _))));
}

#[test]
fn map_diff_removals() {
    let mut map1 = HashMap::new();
    map1.insert(1, 10);
    map1.insert(2, 20);
    let map2: HashMap<i32, i32> = HashMap::new();
    let diffs: Vec<_> = { let mut it = map1.diff(&map2); drain(move || it.next()) };
    assert_eq!(diffs.len(), 2);
    assert!({ let mut it = diffs.iter(); drain(move || it.next()) }.into_iter().all(|d| matches!(d, DiffItem::Remove(_, _))));
}

#[test]
fn diff_updates() {
    let mut map1 = HashMap::new();
    map1.insert(1, 10);
    map1.insert(2, 20);
    let mut map2 = map1.clone();
    map2.insert(1, 99);
    let diffs: Vec<_> = { let mut it = map1.diff(&map2); drain(move || it.next()) };
    assert_eq!(diffs.len(), 1);
    match &diffs[0] {
        DiffItem::Update { old, new } => {
            assert_eq!(*old.0, 1);
            assert_eq!(*old.1, 10);
            assert_eq!(*new.0, 1);
            assert_eq!(*new.1, 99);
        }
        _ => panic!("expected Update"),
    }
}

#[test]
fn map_diff_mixed() {
    let mut map1 = HashMap::new();
    for i in 0..5 {
        map1.insert(i, i * 10);
    }
    let mut map2 = map1.clone();
    map2.remove(&0); // Remove
    map2.insert(2, 999); // Update
    map2.insert(10, 100); // Add
    let diffs: Vec<_> = { let mut it = map1.diff(&map2); drain(move || it.next()) };
    assert_eq!(diffs.len(), 3);
    let mut adds = 0;
    let mut updates = 0;
    let mut removes = 0;
    for d in &diffs {
        match d {
            DiffItem::Add(_, _) => adds += 1,
            DiffItem::Update { .. } => updates += 1,
            DiffItem::Remove(_, _) => removes += 1,
        }
    }
    assert_eq!(adds, 1);
    assert_eq!(updates, 1);
    assert_eq!(removes, 1);
}

#[test]
fn diff_empty_maps() {
    let map1: HashMap<i32, i32> = HashMap::new();
    let map2: HashMap<i32, i32> = HashMap::new();
    assert_eq!({ let mut it = map1.diff(&map2); drain(move || it.next()) }.len(), 0);
}

#[test]
fn map_diff_is_fused() {
    let mut map1 = HashMap::new();
    map1.insert(1, 10);
    let map2: HashMap<i32, i32> = HashMap::new();
    let mut iter = map1.diff(&map2);
    assert!(iter.next().is_some());
    assert!(iter.next().is_none());
    assert!(iter.next().is_none());
}

#[test]
fn map_apply_diff_roundtrip() {
    let base = HashMap::from_vec(vec![(1, "a"), (2, "b"), (3, "c")]);
    let modified = HashMap::from_vec(vec![(1, "a"), (2, "B"), (4, "d")]);
    let diff: Vec<_> = { let mut it = base.diff(&modified); drain(move || it.next()) };
    let patched = base.apply_diff(diff);
    assert!(patched.test_eq(&modified));
}

#[test]
fn map_apply_diff_empty_diff() {
    let map = HashMap::from_vec(vec![(1, "a"), (2, "b")]);
    let patched = map.apply_diff(vec![]);
    assert!(patched.test_eq(&map));
}

#[test]
fn map_apply_diff_from_empty() {
    let base: HashMap<i32, &str> = HashMap::new();
    let modified = HashMap::from_vec(vec![(1, "a"), (2, "b")]);
    let diff: Vec<_> = { let mut it = base.diff(&modified); drain(move || it.next()) };
    let patched = base.apply_diff(diff);
    assert!(patched.test_eq(&modified));
}

#[test]
fn map_apply_diff_to_empty() {
    let base = HashMap::from_vec(vec![(1, "a"), (2, "b")]);
    let modified: HashMap<i32, &str> = HashMap::new();
    let diff: Vec<_> = { let mut it = base.diff(&modified); drain(move || it.next()) };
    let patched = base.apply_diff(diff);
    assert!(patched.test_eq(&modified));
}

#[test]
fn diff_shared_structure_subtree_skipping() {
    let mut base = HashMap::new();
    for i in 0..10_000 {
        base.insert(i, i * 2);
    }
    let mut modified = base.clone();
    modified.insert(42, 999); // Update
    modified.remove(&100); // Remove
    modified.insert(99_999, 1); // Add

    let diffs: Vec<_> = { let mut it = base.diff(&modified); drain(move || it.next()) };
    assert_eq!(diffs.len(), 3);

    let patched = base.apply_diff(diffs);
    assert!(patched.test_eq(&modified));
}

#[test]
fn diff_shared_structure_exact_size() {
    let mut base = HashMap::new();
    for i in 0..100 {
        base.insert(i, i);
    }
    let mut modified = base.clone();
    modified.insert(50, 999);
    modified.remove(&0);

    let iter = base.diff(&modified);
    assert_eq!(iter.len(), 2);
}

#[test]
fn diff_kv_merkle_fast_path_equal_maps() {
    let mut base = HashMap::new();
    for i in 0..500 {
        base.insert(i, i * 2);
    }
    assert!(base.kv_merkle_valid());
    let other = base.clone();
    assert!(other.kv_merkle_valid());
    assert_eq!({ let mut it = base.diff(&other); drain(move || it.next()) }.len(), 0);
}

#[test]
fn diff_kv_merkle_fast_path_after_roundtrip() {
    let mut map1 = HashMap::new();
    for i in 0..200 {
        map1.insert(i, i);
    }
    let map2 = {
        let mut m = map1.clone();
        m.insert(9999, 9999);
        m.remove(&9999);
        m
    };
    assert!(map1.kv_merkle_valid());
    assert!(map2.kv_merkle_valid());
    assert_eq!({ let mut it = map1.diff(&map2); drain(move || it.next()) }.len(), 0);
}

#[test]
fn diff_kv_merkle_invalidated_still_correct() {
    let mut map1 = HashMap::new();
    for i in 0..100 {
        map1.insert(i, i);
    }
    let mut map2 = map1.clone();
    if let Some(v) = map2.get_mut(&0) {
        *v = 999;
    }
    assert!(!map2.kv_merkle_valid());
    let diffs: Vec<_> = { let mut it = map1.diff(&map2); drain(move || it.next()) };
    assert_eq!(diffs.len(), 1);
}

#[test]
fn apply_diff_preserves_original() {
    let base = HashMap::from_vec(vec![(1, "a"), (2, "b")]);
    let modified = HashMap::from_vec(vec![(1, "a"), (2, "B"), (3, "c")]);
    let diff: Vec<_> = { let mut it = base.diff(&modified); drain(move || it.next()) };
    let _patched = base.apply_diff(diff);
    assert!(base.test_eq(&HashMap::from_vec(vec![(1, "a"), (2, "b")])));
}

#[test]
fn map_values_basic() {
    let map = HashMap::from_vec(vec![(1, 10), (2, 20), (3, 30)]);
    let doubled = map.map_values(|v| v * 2);
    assert!(doubled.test_eq(&HashMap::from_vec(vec![(1, 20), (2, 40), (3, 60)])));
}

#[test]
fn map_values_type_change() {
    let map = HashMap::from_vec(vec![(1, 10), (2, 20)]);
    let strings: HashMap<i32, String> = map.map_values(|v| format!("{v}"));
    assert_eq!(strings.get(&1), Some(&"10".to_string()));
    assert_eq!(strings.get(&2), Some(&"20".to_string()));
}

#[test]
fn map_values_empty() {
    let map: HashMap<i32, i32> = HashMap::new();
    let result = map.map_values(|v| v * 2);
    assert!(result.is_empty());
}

#[test]
fn map_values_with_key_basic() {
    let map = HashMap::from_vec(vec![(1, 10), (2, 20), (3, 30)]);
    let sums = map.map_values_with_key(|k, v| k + v);
    assert!(sums.test_eq(&HashMap::from_vec(vec![(1, 11), (2, 22), (3, 33)])));
}

#[test]
fn try_map_values_err() {
    let map = HashMap::from_vec(vec![(1, "10"), (2, "bad"), (3, "30")]);
    let result: Result<HashMap<i32, i32>, _> = map.try_map_values(|_, v| v.parse::<i32>());
    assert!(result.is_err());
}

#[test]
fn map_partition_basic() {
    let map = HashMap::from_vec(vec![(1, "one"), (2, "two"), (3, "three"), (4, "four")]);
    let (evens, odds) = map.partition(|k, _| k % 2 == 0);
    assert!(evens.test_eq(&HashMap::from_vec(vec![(2, "two"), (4, "four")])));
    assert!(odds.test_eq(&HashMap::from_vec(vec![(1, "one"), (3, "three")])));
}

#[test]
fn map_disjoint_basic() {
    let a = HashMap::from_vec(vec![(1, "a"), (2, "b")]);
    let b = HashMap::from_vec(vec![(3, "c"), (4, "d")]);
    let c = HashMap::from_vec(vec![(2, "x"), (5, "e")]);
    assert!(a.disjoint(&b));
    assert!(!a.disjoint(&c));
}

#[test]
fn map_disjoint_empty() {
    let a = HashMap::from_vec(vec![(1, "a")]);
    let b: HashMap<i32, &str> = HashMap::new();
    assert!(a.disjoint(&b));
    assert!(b.disjoint(&a));
}

#[test]
fn map_keys_basic() {
    let map = HashMap::from_vec(vec![(1, "a"), (2, "b"), (3, "c")]);
    let negated = map.map_keys(|k| -k);
    assert_eq!(negated.len(), 3);
    assert_eq!(negated.get(&-1), Some(&"a"));
    assert_eq!(negated.get(&-2), Some(&"b"));
    assert_eq!(negated.get(&-3), Some(&"c"));
}

#[test]
fn restrict_keys_basic() {
    let map = HashMap::from_vec(vec![(1, "a"), (2, "b"), (3, "c"), (4, "d")]);
    let keys = HashSet::from_vec(vec![2, 4]);
    let restricted = map.restrict_keys(&keys);
    assert!(restricted.test_eq(&HashMap::from_vec(vec![(2, "b"), (4, "d")])));
}

#[test]
fn without_keys_basic() {
    let map = HashMap::from_vec(vec![(1, "a"), (2, "b"), (3, "c"), (4, "d")]);
    let keys = HashSet::from_vec(vec![2, 4]);
    let reduced = map.without_keys(&keys);
    assert!(reduced.test_eq(&HashMap::from_vec(vec![(1, "a"), (3, "c")])));
}

#[test]
fn merge_with_all_partitions() {
    let left = HashMap::from_vec(vec![(1, "a"), (2, "b"), (3, "c")]);
    let right = HashMap::from_vec(vec![(2, 10), (3, 20), (4, 30)]);
    let merged: HashMap<i32, String> = left.merge_with(
        &right,
        |_k, v| Some(v.to_string()),
        |_k, l, r| Some(format!("{l}:{r}")),
        |_k, v| Some(v.to_string()),
    );
    assert_eq!(merged.len(), 4);
    assert_eq!(merged.index(&1), "a");
    assert_eq!(merged.index(&2), "b:10");
    assert_eq!(merged.index(&3), "c:20");
    assert_eq!(merged.index(&4), "30");
}

#[test]
fn merge_with_as_intersection() {
    let left = HashMap::from_vec(vec![(1, 10), (2, 20), (3, 30)]);
    let right = HashMap::from_vec(vec![(2, 200), (3, 300), (4, 400)]);
    let merged: HashMap<i32, i32> = left.merge_with(
        &right,
        |_, _| None,
        |_, l, r| Some(l + r),
        |_, _| None,
    );
    assert!(merged.test_eq(&HashMap::from_vec(vec![(2, 220), (3, 330)])));
}

#[test]
fn merge_with_as_difference() {
    let left = HashMap::from_vec(vec![(1, "a"), (2, "b"), (3, "c")]);
    let right = HashMap::from_vec(vec![(2, 0), (3, 0)]);
    let merged: HashMap<i32, String> = left.merge_with(
        &right,
        |_, v| Some(v.to_string()),
        |_, _, _| None,
        |_, _| None,
    );
    assert!(merged.test_eq(&HashMap::from_vec(vec![(1, "a".to_string())])));
}

#[test]
fn merge_with_empty_left() {
    let left: HashMap<i32, i32> = HashMap::new();
    let right = HashMap::from_vec(vec![(1, 10), (2, 20)]);
    let merged: HashMap<i32, i32> = left.merge_with(
        &right,
        |_, v| Some(*v),
        |_, l, r| Some(l + r),
        |_, v| Some(*v),
    );
    assert!(merged.test_eq(&HashMap::from_vec(vec![(1, 10), (2, 20)])));
}

#[test]
fn merge_with_empty_right() {
    let left = HashMap::from_vec(vec![(1, 10), (2, 20)]);
    let right: HashMap<i32, i32> = HashMap::new();
    let merged: HashMap<i32, i32> = left.merge_with(
        &right,
        |_, v| Some(*v),
        |_, l, r| Some(l + r),
        |_, v| Some(*v),
    );
    assert!(merged.test_eq(&HashMap::from_vec(vec![(1, 10), (2, 20)])));
}

#[test]
fn merge_with_both_empty() {
    let left: HashMap<i32, i32> = HashMap::new();
    let right: HashMap<i32, i32> = HashMap::new();
    let merged: HashMap<i32, i32> = left.merge_with(
        &right,
        |_, v| Some(*v),
        |_, l, r| Some(l + r),
        |_, v| Some(*v),
    );
    assert!(merged.is_empty());
}

#[test]
fn partition_map_basic() {
    let map = HashMap::from_vec(vec![(1, 10), (2, 20), (3, 30)]);
    let (small, big): (HashMap<i32, String>, HashMap<i32, String>) =
        map.partition_map(|_k, v| {
            if *v <= 15 {
                Ok(format!("small:{v}"))
            } else {
                Err(format!("big:{v}"))
            }
        });
    assert_eq!(small.len(), 1);
    assert_eq!(small.index(&1), "small:10");
    assert_eq!(big.len(), 2);
}

#[test]
fn partition_map_all_left() {
    let map = HashMap::from_vec(vec![(1, 1), (2, 2)]);
    let (left, right): (HashMap<i32, i32>, HashMap<i32, i32>) =
        map.partition_map(|_, v| Ok(*v));
    assert!(left.test_eq(&map));
    assert!(right.is_empty());
}

#[test]
fn difference_with_basic() {
    let a = HashMap::from_vec(vec![(1, 10), (2, 20), (3, 30)]);
    let b = HashMap::from_vec(vec![(2, 5), (3, 50), (4, 40)]);
    let result = a.difference_with(&b, |_k, v_self, v_other| {
        if v_self > v_other {
            Some(*v_self - *v_other)
        } else {
            None
        }
    });
    assert_eq!(result.len(), 2);
    assert_eq!(*result.index(&1), 10);
    assert_eq!(*result.index(&2), 15);
}

#[test]
fn difference_with_no_overlap() {
    let a = HashMap::from_vec(vec![(1, 10), (2, 20)]);
    let b = HashMap::from_vec(vec![(3, 30), (4, 40)]);
    let result = a.difference_with(&b, |_, _, _| None);
    assert!(result.test_eq(&a));
}

#[test]
fn map_accum_basic() {
    let map = HashMap::from_vec(vec![(1, 10), (2, 20)]);
    let (total, doubled): (i32, HashMap<i32, i32>) =
        map.map_accum(0, |acc, _k, v| (acc + v, v * 2));
    assert_eq!(total, 30);
    assert_eq!(*doubled.index(&1), 20);
    assert_eq!(*doubled.index(&2), 40);
}

#[test]
fn map_accum_empty() {
    let map: HashMap<i32, i32> = HashMap::new();
    let (acc, result) = map.map_accum(42, |a, _, v| (a + v, *v));
    assert_eq!(acc, 42);
    assert!(result.is_empty());
}

#[test]
fn upgrade_small_to_large_simd() {
    let mut map = FixedMap::default();
    let step = 1 << SHIFT;
    for i in 0..20 {
        map.insert(i * step, i);
    }
    assert_eq!(map.len(), 20);
    for i in 0..20 {
        assert_eq!(map.get(&(i * step)), Some(&i));
    }
}

#[test]
fn upgrade_large_to_hamt_node() {
    let mut map = FixedMap::default();
    let step = 1 << SHIFT;
    for i in 0..40 {
        map.insert(i * step, i);
    }
    assert_eq!(map.len(), 40);
    for i in 0..40 {
        assert_eq!(map.get(&(i * step)), Some(&i));
    }
}

#[test]
fn demote_small_simd_to_value() {
    let mut map = FixedMap::default();
    let step = 1 << SHIFT;
    map.insert(0, 100);
    map.insert(step, 200);
    assert_eq!(map.len(), 2);

    map.remove(&0);
    assert_eq!(map.len(), 1);
    assert_eq!(map.get(&step), Some(&200));
    assert_eq!(map.get(&0), None);

    map.insert(step * 2, 300);
    assert_eq!(map.len(), 2);
    assert_eq!(map.get(&step), Some(&200));
    assert_eq!(map.get(&(step * 2)), Some(&300));
}

#[test]
fn demote_large_simd_to_value() {
    let mut map = FixedMap::default();
    let step = 1 << SHIFT;
    let count = 20;
    for i in 0..count {
        map.insert(i * step, i);
    }
    assert_eq!(map.len(), count);

    for i in 0..(count - 1) {
        map.remove(&(i * step));
    }
    assert_eq!(map.len(), 1);
    assert_eq!(map.get(&((count - 1) * step)), Some(&(count - 1)));

    map.insert(0, 999);
    assert_eq!(map.len(), 2);
    assert_eq!(map.get(&0), Some(&999));
}

#[test]
fn demote_hamt_node_to_value() {
    let mut map = FixedMap::default();
    let step = 1 << SHIFT;
    let count = 40;
    for i in 0..count {
        map.insert(i * step, i);
    }

    for i in 1..count {
        map.remove(&(i * step));
    }
    assert_eq!(map.len(), 1);
    assert_eq!(map.get(&0), Some(&0));

    for i in 1..count {
        map.insert(i * step, i * 10);
    }
    assert_eq!(map.len(), count);
    for i in 0..count {
        let expected = if i == 0 { 0 } else { i * 10 };
        assert_eq!(map.get(&(i * step)), Some(&expected));
    }
}

#[test]
fn demote_hamt_node_single_non_value_child() {
    let mut map = FixedMap::default();
    let step = 1 << SHIFT;

    map.insert(0, 100);
    map.insert(step, 200);
    map.insert(1, 300);
    assert_eq!(map.len(), 3);

    map.remove(&1);
    assert_eq!(map.len(), 2);
    assert_eq!(map.get(&0), Some(&100));
    assert_eq!(map.get(&step), Some(&200));
    assert_eq!(map.get(&1), None);

    map.insert(1, 400);
    assert_eq!(map.len(), 3);
    assert_eq!(map.get(&0), Some(&100));
    assert_eq!(map.get(&step), Some(&200));
    assert_eq!(map.get(&1), Some(&400));
}

#[test]
fn collision_node_creation_and_demotion() {
    let mut map = NarrowMap::default();
    map.insert(0i32, 100);
    map.insert(32i32, 200);
    assert_eq!(map.len(), 2);
    assert_eq!(map.get(&0), Some(&100));
    assert_eq!(map.get(&32), Some(&200));

    map.remove(&0);
    assert_eq!(map.len(), 1);
    assert_eq!(map.get(&32), Some(&200));
    assert_eq!(map.get(&0), None);

    map.insert(64i32, 300);
    assert_eq!(map.len(), 2);
    assert_eq!(map.get(&32), Some(&200));
    assert_eq!(map.get(&64), Some(&300));
}

#[test]
fn collision_node_multiple_entries() {
    let mut map = NarrowMap::default();
    let keys: Vec<i32> = (0..5).map(|i| i * 32).collect();
    for (i, &k) in { let mut it = keys.iter(); drain(move || it.next()) }.into_iter().enumerate() {
        map.insert(k, i as i32);
    }
    assert_eq!(map.len(), 5);

    for (removed, &k) in { let mut it = keys.iter(); drain(move || it.next()) }.into_iter().enumerate() {
        map.remove(&k);
        assert_eq!(map.len(), 5 - removed - 1);
        assert_eq!(map.get(&k), None);
        for &remaining in &keys[(removed + 1)..] {
            assert!(map.get(&remaining).is_some());
        }
    }
    assert!(map.is_empty());
}

#[test]
fn delete_reinsert_all_node_types() {
    let mut map = FixedMap::default();
    let n = 200;
    for i in 0..n {
        map.insert(i, i * 3);
    }
    let original = map.clone();

    for i in 0..n {
        map.remove(&i);
    }
    assert!(map.is_empty());

    for i in 0..n {
        map.insert(i, i * 3);
    }
    assert!(map.test_eq(&original));
}

#[test]
fn delete_reinsert_reverse_order() {
    let mut map = FixedMap::default();
    let n = 200;
    for i in 0..n {
        map.insert(i, i * 3);
    }
    let original = map.clone();

    for i in (0..n).rev() {
        map.remove(&i);
    }
    assert!(map.is_empty());

    for i in 0..n {
        map.insert(i, i * 3);
    }
    assert!(map.test_eq(&original));
}

#[test]
fn persistent_remove_preserves_original() {
    let step = 1 << SHIFT;
    let map: FixedMap<i32, i32> = FixedMap::from_vec((0..20).map(|i| (i * step, i)).collect());
    let map2 = map.without(&0);
    assert_eq!(map.len(), 20);
    assert_eq!(map2.len(), 19);
    assert_eq!(map.get(&0), Some(&0));
    assert_eq!(map2.get(&0), None);
}

#[test]
fn merkle_hash_consistency_across_demotions() {
    let mut map1 = FixedMap::default();
    let step = 1 << SHIFT;
    for i in 0..40 {
        map1.insert(i * step, i);
    }
    for i in 10..40 {
        map1.remove(&(i * step));
    }

    let map2: FixedMap<i32, i32> = FixedMap::from_vec((0..10).map(|i| (i * step, i)).collect());

    assert!(map1.test_eq(&map2));
}

#[test]
fn kv_merkle_empty_map() {
    let map: FixedMap<i32, i32> = FixedMap::default();
    assert!(map.kv_merkle_valid());
    assert_eq!(map.kv_merkle_hash(), Some(0));
}

#[test]
fn kv_merkle_identical_maps_match() {
    let mut a: FixedMap<i32, i32> = FixedMap::default();
    let mut b: FixedMap<i32, i32> = FixedMap::default();
    for i in 0..100 {
        a.insert(i, i * 10);
        b.insert(i, i * 10);
    }
    assert!(a.kv_merkle_valid());
    assert!(b.kv_merkle_valid());
    assert_eq!(a.kv_merkle_hash(), b.kv_merkle_hash());
    assert!(a.test_eq(&b));
}

#[test]
fn kv_merkle_different_values_differ() {
    let mut a: FixedMap<i32, i32> = FixedMap::default();
    let mut b: FixedMap<i32, i32> = FixedMap::default();
    for i in 0..100 {
        a.insert(i, i * 10);
        b.insert(i, i * 10);
    }
    b.insert(50, 999);
    assert!(a.kv_merkle_valid());
    assert!(b.kv_merkle_valid());
    assert_ne!(a.kv_merkle_hash(), b.kv_merkle_hash());
    assert!(!a.test_eq(&b));
}

#[test]
fn kv_merkle_order_independent() {
    let mut forward: FixedMap<i32, i32> = FixedMap::default();
    let mut reverse: FixedMap<i32, i32> = FixedMap::default();
    for i in 0..50 {
        forward.insert(i, i * 3);
    }
    for i in (0..50).rev() {
        reverse.insert(i, i * 3);
    }
    assert!(forward.kv_merkle_valid());
    assert!(reverse.kv_merkle_valid());
    assert_eq!(forward.kv_merkle_hash(), reverse.kv_merkle_hash());
    assert!(forward.test_eq(&reverse));
}

#[test]
fn kv_merkle_insert_remove_roundtrip() {
    let mut map: FixedMap<i32, i32> = FixedMap::default();
    for i in 0..20 {
        map.insert(i, i);
    }
    let original_hash = map.kv_merkle_hash();

    map.insert(999, 999);
    assert_ne!(map.kv_merkle_hash(), original_hash);
    map.remove(&999);
    assert_eq!(map.kv_merkle_hash(), original_hash);
}

#[test]
fn kv_merkle_update_maintains() {
    let mut map: FixedMap<i32, i32> = FixedMap::default();
    for i in 0..20 {
        map.insert(i, i);
    }
    let map2 = map.update(5, 500);
    assert!(map.kv_merkle_valid());
    assert!(map2.kv_merkle_valid());
    assert_ne!(map.kv_merkle_hash(), map2.kv_merkle_hash());

    let map3 = map2.update(5, 5);
    assert_eq!(map.kv_merkle_hash(), map3.kv_merkle_hash());
}

#[test]
fn kv_merkle_clone_preserves() {
    let mut map: FixedMap<i32, i32> = FixedMap::default();
    for i in 0..50 {
        map.insert(i, i * 7);
    }
    let cloned = map.clone();
    assert!(cloned.kv_merkle_valid());
    assert_eq!(map.kv_merkle_hash(), cloned.kv_merkle_hash());
}

#[test]
fn kv_merkle_from_iterator() {
    let map: FixedMap<i32, i32> = FixedMap::from_vec((0..30).map(|i| (i, i * 2)).collect());
    assert!(map.kv_merkle_valid());

    let mut manual: FixedMap<i32, i32> = FixedMap::default();
    for i in 0..30 {
        manual.insert(i, i * 2);
    }
    assert_eq!(map.kv_merkle_hash(), manual.kv_merkle_hash());
}

#[test]
fn kv_merkle_get_mut_invalidates() {
    let mut map: FixedMap<i32, i32> = FixedMap::default();
    for i in 0..10 {
        map.insert(i, i);
    }
    assert!(map.kv_merkle_valid());

    if let Some(v) = map.get_mut(&5) {
        *v = 999;
    }
    assert!(!map.kv_merkle_valid());

    map.recompute_kv_merkle();
    assert!(map.kv_merkle_valid());

    let mut fresh: FixedMap<i32, i32> = FixedMap::default();
    for i in 0..10 {
        if i == 5 {
            fresh.insert(i, 999);
        } else {
            fresh.insert(i, i);
        }
    }
    assert_eq!(map.kv_merkle_hash(), fresh.kv_merkle_hash());
}

#[test]
fn kv_merkle_iter_mut_invalidates() {
    let mut map = HashMap::new();
    for i in 0..10 {
        map.insert(i, i);
    }
    assert!(map.kv_merkle_valid());
    { let _ = map.iter_mut(); }
    assert!(!map.kv_merkle_valid());
}

#[test]
fn kv_merkle_retain_invalidates() {
    let mut map = HashMap::new();
    for i in 0..10 {
        map.insert(i, i);
    }
    assert!(map.kv_merkle_valid());
    map.retain(|k, _| *k < 5);
    assert!(!map.kv_merkle_valid());
}

#[test]
fn kv_merkle_entry_api_invalidates() {
    let mut map = HashMap::new();
    map.insert(1, 10);
    assert!(map.kv_merkle_valid());

    map.entry(2).or_insert(20);
    assert!(!map.kv_merkle_valid());

    map.recompute_kv_merkle();
    assert!(map.kv_merkle_valid());
    if let Entry::Occupied(mut occ) = map.entry(1) {
        let _v = occ.get_mut();
    }
    assert!(!map.kv_merkle_valid());
}

#[test]
fn kv_merkle_clear_resets() {
    let mut map = HashMap::new();
    for i in 0..10 {
        map.insert(i, i);
    }
    assert_ne!(map.kv_merkle_hash(), Some(0));
    map.clear();
    assert!(map.kv_merkle_valid());
    assert_eq!(map.kv_merkle_hash(), Some(0));
}

#[test]
fn kv_merkle_replace_value_incremental() {
    let mut map: FixedMap<i32, i32> = FixedMap::default();
    for i in 0..20 {
        map.insert(i, i);
    }
    map.insert(10, 999); // replace value for key 10
    assert!(map.kv_merkle_valid());

    let mut fresh: FixedMap<i32, i32> = FixedMap::default();
    for i in 0..20 {
        if i == 10 {
            fresh.insert(i, 999);
        } else {
            fresh.insert(i, i);
        }
    }
    assert_eq!(map.kv_merkle_hash(), fresh.kv_merkle_hash());
}

#[test]
fn kv_merkle_set_operations_invalidate() {
    let a: HashMap<i32, i32> = HashMap::from_vec((0..10).map(|i| (i, i)).collect());
    let b: HashMap<i32, i32> = HashMap::from_vec((5..15).map(|i| (i, i * 2)).collect());

    let union = a.clone().union(b.clone());
    assert!(!union.kv_merkle_valid());

    let mut union_recomputed = union.clone();
    union_recomputed.recompute_kv_merkle();
    assert!(union_recomputed.kv_merkle_valid());
}

#[test]
fn kv_merkle_without_maintains() {
    let mut map: FixedMap<i32, i32> = FixedMap::default();
    for i in 0..20 {
        map.insert(i, i * 5);
    }
    let without5 = map.without(&5);
    assert!(without5.kv_merkle_valid());

    let mut fresh: FixedMap<i32, i32> = FixedMap::default();
    for i in 0..20 {
        if i != 5 {
            fresh.insert(i, i * 5);
        }
    }
    assert_eq!(without5.kv_merkle_hash(), fresh.kv_merkle_hash());
}

#[test]
fn kv_merkle_extract_with_key_maintains() {
    let map: FixedMap<i32, i32> = FixedMap::from_vec((0..10).map(|i| (i, i * 3)).collect());
    let result = map.extract_with_key(&5);
    let (k, v, remaining) = result.unwrap();
    assert_eq!(k, 5);
    assert_eq!(v, 15);
    assert!(remaining.kv_merkle_valid());

    let expected: FixedMap<i32, i32> = FixedMap::from_vec((0..10)
        .filter(|&i| i != 5)
        .map(|i| (i, i * 3))
        .collect());
    assert_eq!(remaining.kv_merkle_hash(), expected.kv_merkle_hash());
}

#[test]
fn safe_mutation() {
    let v1: HashMap<usize, usize> = HashMap::from_vec((0..131_072).map(|i| (i, i)).collect());
    let mut v2 = v1.clone();
    v2.insert(131_000, 23);
    assert_eq!(Some(&23), v2.get(&131_000));
    assert_eq!(Some(&131_000), v1.get(&131_000));
}

#[test]
fn index_operator() {
    let mut map: HashMap<usize, usize> = HashMap::from_vec(vec![(1, 2), (3, 4), (5, 6)]);
    assert_eq!(4, *map.index(&3));
    *map.index_mut(&3) = 8;
    let target_map: HashMap<usize, usize> = HashMap::from_vec(vec![(1, 2), (3, 8), (5, 6)]);
    assert!(target_map.test_eq(&map));
}

#[test]
fn remove_failing() {
    let pairs: [(i16, i16); 2] = [(1469, 0), (-67, 0)];
    let mut m: std::collections::HashMap<i16, i16> = std::collections::HashMap::new();
    for (k, v) in &pairs {
        m.insert(*k, *v);
    }
    let mut map: FixedMap<i16, i16> = GenericHashMap::with_hasher(IdentityBuildHasher);
    for (k, v) in &m {
        map = map.update(*k, *v);
    }
    for k in m.keys() {
        let l = map.len();
        assert_eq!(m.get(k).cloned(), map.get(k).cloned());
        map = map.without(k);
        assert_eq!(None, map.get(k));
        assert_eq!(l - 1, map.len());
    }
}

#[test]
fn match_string_keys_with_string_slices() {
    let mut map: HashMap<String, i32> = HashMap::from_vec(vec![
        ("foo".to_string(), 1),
        ("bar".to_string(), 2),
        ("baz".to_string(), 3),
    ]);
    assert_eq!(Some(&1), map.get(&"foo".to_string()));
    map = map.without(&"foo".to_string());
    assert_eq!(Some(3), map.remove(&"baz".to_string()));
    *map.index_mut(&"bar".to_string()) = 8;
    assert_eq!(8, *map.index(&"bar".to_string()));
}

#[test]
fn remove_top_level_collisions() {
    let pairs: Vec<i16> = vec![9, 2569, 27145];
    let mut map: FixedMap<i16, i16> = Default::default();
    for k in pairs.clone() {
        map.insert(k, k);
    }
    assert_eq!(pairs.len(), map.len());
    let mut it = map.keys();
    let keys: Vec<i16> = drain(|| it.next().cloned());
    for k in keys {
        let l = map.len();
        assert_eq!(Some(&k), map.get(&k));
        map.remove(&k);
        assert_eq!(None, map.get(&k));
        assert_eq!(l - 1, map.len());
    }
}

#[test]
fn entry_api() {
    let mut map: HashMap<&str, i32> = HashMap::from_vec(vec![("bar", 5)]);
    map.entry("foo").and_modify(|v| *v += 5).or_insert(1);
    assert_eq!(1, *map.index(&"foo"));
    map.entry("foo").and_modify(|v| *v += 5).or_insert(1);
    assert_eq!(6, *map.index(&"foo"));
    map.entry("bar").and_modify(|v| *v += 5).or_insert(1);
    assert_eq!(10, *map.index(&"bar"));
    assert_eq!(
        10,
        match map.entry("bar") {
            Entry::Occupied(entry) => entry.remove(),
            _ => panic!(),
        }
    );
    assert!(!map.contains_key(&"bar"));
}

#[test]
fn update_and_length() {
    let m = model(1000, 1);
    let mut map: FixedMap<i16, i16> = Default::default();
    for (index, (k, v)) in m.iter().enumerate() {
        map = map.update(*k, *v);
        assert_eq!(Some(v), map.get(k));
        assert_eq!(index + 1, map.len());
    }
}

#[test]
fn from_iterator() {
    let m = model(1000, 2);
    let map: HashMap<i16, i16> = HashMap::from_vec(m.iter().map(|(k, v)| (*k, *v)).collect());
    assert_eq!(m.len(), map.len());
}

#[test]
fn iterate_over() {
    let m = model(1000, 3);
    let map: HashMap<i16, i16> = HashMap::from_vec(m.iter().map(|(k, v)| (*k, *v)).collect());
    let mut it = map.iter();
    assert_eq!(m.len(), drain(|| it.next()).len());
}

#[test]
fn equality() {
    let m = model(1000, 4);
    let map1: HashMap<i16, i16> = HashMap::from_vec(m.iter().map(|(k, v)| (*k, *v)).collect());
    let map2: HashMap<i16, i16> = HashMap::from_vec(m.iter().map(|(k, v)| (*k, *v)).collect());
    assert!(map1.test_eq(&map2));
}

#[test]
fn lookup() {
    let m = model(1000, 5);
    let map: HashMap<i16, i16> = HashMap::from_vec(m.iter().map(|(k, v)| (*k, *v)).collect());
    for (k, v) in &m {
        assert_eq!(Some(*v), map.get(k).cloned());
    }
}

#[test]
fn without() {
    let m = model(100, 6);
    let mut map: FixedMap<i16, i16> = GenericHashMap::with_hasher(IdentityBuildHasher);
    for (k, v) in &m {
        map = map.update(*k, *v);
    }
    for k in m.keys() {
        let l = map.len();
        assert_eq!(m.get(k).cloned(), map.get(k).cloned());
        map = map.without(k);
        assert_eq!(None, map.get(k));
        assert_eq!(l - 1, map.len());
    }
}

#[test]
fn insert() {
    let m = model(1000, 7);
    let mut mut_map: FixedMap<i16, i16> = Default::default();
    let mut map: FixedMap<i16, i16> = Default::default();
    for (count, (k, v)) in m.iter().enumerate() {
        map = map.update(*k, *v);
        mut_map.insert(*k, *v);
        assert_eq!(count + 1, map.len());
        assert_eq!(count + 1, mut_map.len());
    }
    for (k, v) in &m {
        assert_eq!(Some(v), map.get(k));
        assert_eq!(Some(v), mut_map.get(k));
    }
    assert!(map.test_eq(&mut_map));
}

#[test]
fn remove() {
    let m = model(100, 8);
    let mut map: FixedMap<i16, i16> = GenericHashMap::with_hasher(IdentityBuildHasher);
    for (k, v) in &m {
        map.insert(*k, *v);
    }
    for k in m.keys() {
        let l = map.len();
        assert_eq!(m.get(k).cloned(), map.get(k).cloned());
        map.remove(k);
        assert_eq!(None, map.get(k));
        assert_eq!(l - 1, map.len());
    }
}

#[test]
fn delete_and_reinsert() {
    let input = model(1000, 9);
    let index = *input.keys().nth(500).unwrap();
    let map1: HashMap<i16, i16> = HashMap::from_vec(input.clone().into_iter().collect());
    let (val, map2) = map1.extract(&index).unwrap();
    let map3 = map2.update(index, val);
    let mut it = map2.keys();
    for key in drain(|| it.next()) {
        assert!(*key != index);
    }
    assert_eq!(map1.len(), map2.len() + 1);
    assert!(map1.test_eq(&map3));
}

#[test]
fn union() {
    let m1 = model(100, 10);
    let m2 = model(100, 12);
    let map1: HashMap<i16, i16> = HashMap::from_vec(m1.iter().map(|(k, v)| (*k, *v)).collect());
    let map2: HashMap<i16, i16> = HashMap::from_vec(m2.iter().map(|(k, v)| (*k, *v)).collect());
    let union_map = map1.union(map2);
    for k in m1.keys() {
        assert!(union_map.contains_key(k));
    }
    for k in m2.keys() {
        assert!(union_map.contains_key(k));
    }
    let mut it = union_map.iter();
    for (k, v) in drain(|| it.next()) {
        assert_eq!(v, m1.get(k).or_else(|| m2.get(k)).unwrap());
    }
}

#[test]
fn kv_merkle_proptest_insert_order() {
    let list: Vec<(i32, i32)> = numbers(200, 14)
        .into_iter()
        .zip(numbers(200, 15))
        .map(|(k, v)| ((k as i32).rem_euclid(1000), (v as i32).rem_euclid(1000)))
        .collect();
    let mut forward: FixedMap<i32, i32> = FixedMap::default();
    for &(k, v) in &list {
        forward.insert(k, v);
    }
    let mut reverse: FixedMap<i32, i32> = FixedMap::default();
    for &(k, v) in list.iter().rev() {
        reverse.insert(k, v);
    }
    forward.recompute_kv_merkle();
    reverse.recompute_kv_merkle();
    if forward.test_eq(&reverse) {
        assert_eq!(forward.kv_merkle_hash(), reverse.kv_merkle_hash());
    }
}

#[test]
fn try_map_values_ok() {
    let map = HashMap::from_vec(vec![(1, "10"), (2, "20"), (3, "30")]);
    let parsed: Result<HashMap<i32, i32>, _> = map.try_map_values(|_, v| v.parse::<i32>());
    assert!(parsed.unwrap().test_eq(&HashMap::from_vec(vec![(1, 10), (2, 20), (3, 30)])));
}

struct PanicOnClone;

impl Clone for PanicOnClone {
    fn clone(&self) -> Self {
        panic!("PanicOnClone::clone called")
    }
}

impl View for PanicOnClone {
    type V = ();

    fn view(&self) {}
}

impl HashKey<RandomState> for PanicOnClone {
    fn hash_in(_key: (), _state: RandomState) -> u64 {
        0
    }

    fn hash_with(&self, _state: &RandomState) -> u64 {
        0
    }

    fn same_key(&self, _other: &Self) -> bool {
        true
    }
}

#[test]
fn into_iter_no_clone() {
    let mut map = HashMap::new();
    for i in 0..10_000 {
        map.insert(i, PanicOnClone);
    }
    let mut walk = map.into_iter();
    let all: Vec<(i32, PanicOnClone)> = std::iter::from_fn(|| walk.next()).collect();
    assert_eq!(all.len(), 10_000);
}

#[test]
fn iter_mut_no_clone() {
    let mut map = HashMap::new();
    for i in 0..10_000 {
        map.insert(i, PanicOnClone);
    }
    let mut walk = map.iter_mut();
    let all: Vec<(&i32, &mut PanicOnClone)> = std::iter::from_fn(|| walk.next()).collect();
    assert_eq!(all.len(), 10_000);
}

#[test]
fn iter_no_clone() {
    let mut map = HashMap::new();
    for i in 0..10_000 {
        map.insert(i, PanicOnClone);
    }
    let mut walk = map.iter();
    let all: Vec<(&i32, &PanicOnClone)> = std::iter::from_fn(|| walk.next()).collect();
    assert_eq!(all.len(), 10_000);
}
