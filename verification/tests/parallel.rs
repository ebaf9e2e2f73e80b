use pds::hash_map::HashMap;
use pds::hash_set::HashSet;

/// What is left of an iteration.
fn drain<T>(mut next: impl FnMut() -> Option<T>) -> Vec<T> {
    let mut items = Vec::new();
    while let Some(item) = next() {
        items.push(item);
    }
    items
}

#[test]
fn hashmap_par_union() {
    let map1: HashMap<i32, i32> = HashMap::from_vec((0..5_000).map(|i| (i, i)).collect());
    let map2: HashMap<i32, i32> = HashMap::from_vec((2_500..7_500).map(|i| (i, i * 10)).collect());
    let seq = map1.clone().union(map2.clone());
    let par = map1.par_union(map2);
    assert!(par.test_eq(&seq));
}

#[test]
fn hashmap_par_intersection() {
    let map1: HashMap<i32, i32> = HashMap::from_vec((0..5_000).map(|i| (i, i)).collect());
    let map2: HashMap<i32, i32> = HashMap::from_vec((2_500..7_500).map(|i| (i, i * 10)).collect());
    let seq = map1.clone().intersection(map2.clone());
    let par = map1.par_intersection(map2);
    assert!(par.test_eq(&seq));
}

#[test]
fn hashmap_par_difference() {
    let map1: HashMap<i32, i32> = HashMap::from_vec((0..5_000).map(|i| (i, i)).collect());
    let map2: HashMap<i32, i32> = HashMap::from_vec((2_500..7_500).map(|i| (i, i * 10)).collect());
    let seq = map1.clone().difference(map2.clone());
    let par = map1.par_difference(map2);
    assert!(par.test_eq(&seq));
}

#[test]
fn hashmap_par_symmetric_difference() {
    let map1: HashMap<i32, i32> = HashMap::from_vec((0..5_000).map(|i| (i, i)).collect());
    let map2: HashMap<i32, i32> = HashMap::from_vec((2_500..7_500).map(|i| (i, i * 10)).collect());
    let seq = map1.clone().symmetric_difference(map2.clone());
    let par = map1.par_symmetric_difference(map2);
    assert!(par.test_eq(&seq));
}

#[test]
fn hashset_par_union() {
    let set1: HashSet<i32> = HashSet::from_vec((0..5_000).collect());
    let set2: HashSet<i32> = HashSet::from_vec((2_500..7_500).collect());
    let seq = set1.clone().union(set2.clone());
    let par = set1.par_union(set2);
    assert!(par.test_eq(&seq));
}

#[test]
fn hashset_par_intersection() {
    let set1: HashSet<i32> = HashSet::from_vec((0..5_000).collect());
    let set2: HashSet<i32> = HashSet::from_vec((2_500..7_500).collect());
    let seq = set1.clone().intersection(set2.clone());
    let par = set1.par_intersection(set2);
    assert!(par.test_eq(&seq));
}

#[test]
fn hashset_par_difference() {
    let set1: HashSet<i32> = HashSet::from_vec((0..5_000).collect());
    let set2: HashSet<i32> = HashSet::from_vec((2_500..7_500).collect());
    let seq = set1.clone().relative_complement(set2.clone());
    let par = set1.par_difference(set2);
    assert!(par.test_eq(&seq));
}

#[test]
fn hashset_par_symmetric_difference() {
    let set1: HashSet<i32> = HashSet::from_vec((0..5_000).collect());
    let set2: HashSet<i32> = HashSet::from_vec((2_500..7_500).collect());
    let seq = set1.clone().symmetric_difference(set2.clone());
    let par = set1.par_symmetric_difference(set2);
    assert!(par.test_eq(&seq));
}

#[test]
fn hashmap_par_union_empty() {
    let map1: HashMap<i32, i32> = HashMap::from_vec((0..1_000).map(|i| (i, i)).collect());
    let map2: HashMap<i32, i32> = HashMap::new();
    assert!(map1.clone().par_union(map2.clone()).test_eq(&map1.clone().union(map2.clone())));
    assert!(map2.clone().par_union(map1.clone()).test_eq(&map2.union(map1)));
}

#[test]
fn hashset_par_intersection_disjoint() {
    let set1: HashSet<i32> = HashSet::from_vec((0..1_000).collect());
    let set2: HashSet<i32> = HashSet::from_vec((1_000..2_000).collect());
    assert!(set1.par_intersection(set2).is_empty());
}

#[test]
fn hashmap_par_union_ptr_eq_fast_path() {
    let map: HashMap<i32, i32> = HashMap::from_vec((0..1_000).map(|i| (i, i)).collect());
    let same = map.clone();
    assert!(map.ptr_eq(&same));
    let result = map.par_union(same.clone());
    assert_eq!(result.len(), 1_000);
}

#[test]
fn hashmap_par_difference_ptr_eq_fast_path() {
    let map: HashMap<i32, i32> = HashMap::from_vec((0..1_000).map(|i| (i, i)).collect());
    let same = map.clone();
    assert!(map.ptr_eq(&same));
    assert!(map.par_difference(same).is_empty());
}

#[test]
fn hashmap_par_symmetric_difference_ptr_eq_fast_path() {
    let map: HashMap<i32, i32> = HashMap::from_vec((0..1_000).map(|i| (i, i)).collect());
    let same = map.clone();
    assert!(map.ptr_eq(&same));
    assert!(map.par_symmetric_difference(same).is_empty());
}

#[test]
fn hashset_par_difference_ptr_eq_fast_path() {
    let set: HashSet<i32> = HashSet::from_vec((0..1_000).collect());
    let same = set.clone();
    assert!(set.ptr_eq(&same));
    assert!(set.par_difference(same).is_empty());
}

#[test]
fn hashmap_par_filter_keeps_matching() {
    let map: HashMap<i32, i32> = HashMap::from_vec((0..100).map(|i| (i, i * 2)).collect());
    let evens = map.par_filter(|k, _| k % 2 == 0);
    assert_eq!(evens.len(), 50);
    assert!({ let mut it = evens.keys(); drain(move || it.next()) }.into_iter().all(|k| k % 2 == 0));
}

#[test]
fn hashmap_par_filter_empty_input() {
    let map: HashMap<i32, i32> = HashMap::new();
    assert!(map.par_filter(|_, _| true).is_empty());
}

#[test]
fn hashmap_par_filter_none_match() {
    let map: HashMap<i32, i32> = HashMap::from_vec((0..50).map(|i| (i, i)).collect());
    assert!(map.par_filter(|_, _| false).is_empty());
}

#[test]
fn hashmap_par_filter_all_match() {
    let map: HashMap<i32, i32> = HashMap::from_vec((0..50).map(|i| (i, i)).collect());
    let result = map.par_filter(|_, _| true);
    assert!(result.test_eq(&map));
}

#[test]
fn hashmap_par_map_values_doubles() {
    let map: HashMap<i32, i32> = HashMap::from_vec((0..100).map(|i| (i, i)).collect());
    let doubled = map.par_map_values(|v| v * 2);
    for i in 0..100 {
        assert_eq!(doubled.get(&i), Some(&(i * 2)));
    }
}

#[test]
fn hashmap_par_map_values_empty() {
    let map: HashMap<i32, i32> = HashMap::new();
    assert!(map.par_map_values(|v| v * 2).is_empty());
}

#[test]
fn hashmap_par_map_values_type_change() {
    let map: HashMap<i32, i32> = HashMap::from_vec((0..50).map(|i| (i, i)).collect());
    let stringified: HashMap<i32, String> = map.par_map_values(|v| v.to_string());
    assert_eq!(stringified.get(&0), Some(&"0".to_string()));
    assert_eq!(stringified.get(&42), Some(&"42".to_string()));
}

#[test]
fn hashmap_par_map_values_with_key() {
    let map: HashMap<i32, i32> = HashMap::from_vec((0..100).map(|i| (i, i)).collect());
    let result = map.par_map_values_with_key(|k, v| k + v);
    for i in 0..100_i32 {
        assert_eq!(result.get(&i), Some(&(i + i)));
    }
}

#[test]
fn hashmap_par_map_values_with_key_empty() {
    let map: HashMap<i32, i32> = HashMap::new();
    assert!(map.par_map_values_with_key(|k, v| k + v).is_empty());
}

#[test]
fn hashset_par_filter_keeps_matching() {
    let set: HashSet<i32> = HashSet::from_vec((0..100).collect());
    let evens = set.par_filter(|x| x % 2 == 0);
    assert_eq!(evens.len(), 50);
    assert!({ let mut it = evens.iter(); drain(move || it.next()) }.into_iter().all(|x| x % 2 == 0));
}

#[test]
fn hashset_par_filter_empty_input() {
    let set: HashSet<i32> = HashSet::new();
    assert!(set.par_filter(|_| true).is_empty());
}

#[test]
fn hashset_par_filter_none_match() {
    let set: HashSet<i32> = HashSet::from_vec((0..50).collect());
    assert!(set.par_filter(|_| false).is_empty());
}

#[test]
fn hashset_par_filter_all_match() {
    let set: HashSet<i32> = HashSet::from_vec((0..50).collect());
    let result = set.par_filter(|_| true);
    assert!(result.test_eq(&set));
}

#[test]
fn hashmap_par_map_values_matches_seq() {
    let map: HashMap<i32, i32> = HashMap::from_vec((0..5_000).map(|i| (i, i)).collect());
    let seq = map.map_values(|v| v * 3 + 1);
    let par = map.par_map_values(|v| v * 3 + 1);
    assert!(par.test_eq(&seq));
}

#[test]
fn hashmap_par_map_values_type_change_matches_seq() {
    let map: HashMap<i32, i32> = HashMap::from_vec((0..5_000).map(|i| (i, i)).collect());
    let seq: HashMap<i32, String> = map.map_values(|v| v.to_string());
    let par: HashMap<i32, String> = map.par_map_values(|v| v.to_string());
    assert!(par.test_eq(&seq));
}

#[test]
fn hashmap_par_map_values_with_key_matches_seq() {
    let map: HashMap<i32, i32> = HashMap::from_vec((0..5_000).map(|i| (i, i * 2)).collect());
    let seq = map.map_values_with_key(|k, v| k + v);
    let par = map.par_map_values_with_key(|k, v| k + v);
    assert!(par.test_eq(&seq));
}

#[test]
fn hashmap_par_map_values_empty_tree_native() {
    let map: HashMap<i32, i32> = HashMap::new();
    let par: HashMap<i32, String> = map.par_map_values(|v| v.to_string());
    assert!(par.is_empty());
}

#[test]
fn hashmap_par_map_values_preserves_size() {
    let n = 10_000;
    let map: HashMap<i32, i32> = HashMap::from_vec((0..n).map(|i| (i, i)).collect());
    let par = map.par_map_values(|v| v + 1);
    assert_eq!(par.len(), n as usize);
    for i in 0..n {
        assert_eq!(par.get(&i), Some(&(i + 1)));
    }
}
