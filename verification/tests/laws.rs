use pds::bag::Bag;
use pds::hash_key::HashKey;
use pds::hash_map::{GenericHashMap, HashMap};
use pds::hash_set::HashSet;
use pds::identity_hasher::IdentityBuildHasher;
use pds::insertion_order_map::InsertionOrderMap;
use pds::intern::InternPool;
use pds::random_state::RandomState;
use std::hash::Hasher;

type FixedMap<K, V> = GenericHashMap<K, V, IdentityBuildHasher>;

fn entries<K: HashKey<S> + Copy, V: Copy, S>(map: &GenericHashMap<K, V, S>) -> Vec<(K, V)> {
    let mut walk = map.iter();
    std::iter::from_fn(|| walk.next()).map(|(k, v)| (*k, *v)).collect()
}

#[test]
fn maps_of_the_same_keys_are_built_alike() {
    let mut a: FixedMap<u64, u64> = GenericHashMap::default();
    let mut b: FixedMap<u64, u64> = GenericHashMap::default();
    for i in 0..300 {
        a.insert(i * 37, i);
    }
    for i in (0..600).rev() {
        b.insert(i * 37, i);
    }
    for i in 300..600 {
        b.remove(&(i * 37));
    }
    assert_eq!(entries(&a), entries(&b));
    let shape = |map: &FixedMap<u64, u64>| -> Vec<(usize, usize, usize)> {
        map.level_stats()
            .iter()
            .map(|level| (level.node_count, level.value_count, level.child_node_count))
            .collect()
    };
    assert_eq!(shape(&a), shape(&b));
    assert_eq!(a.merkle_hash(), b.merkle_hash());
    assert_eq!(a.kv_merkle_hash(), b.kv_merkle_hash());
}

#[test]
fn equal_maps_share_their_nodes_after_interning() {
    let mut a: FixedMap<u64, u64> = GenericHashMap::default();
    let mut b: FixedMap<u64, u64> = GenericHashMap::default();
    for i in 0..100 {
        a.insert(i * 37, i);
        b.insert((99 - i) * 37, 99 - i);
    }
    let mut pool = InternPool::new();
    a.intern(&mut pool);
    let held = pool.len();
    b.intern_and_seal(&mut pool);
    assert_eq!(pool.len(), held);
    assert!(a.ptr_eq(&b));
    assert!(b.kv_merkle_valid());
}

#[test]
fn levels_tell_of_every_entry() {
    let mut map: FixedMap<u64, u64> = GenericHashMap::default();
    assert!(map.level_stats().is_empty());
    for i in 0..500 {
        map.insert(i * 101, i);
    }
    let levels = map.level_stats();
    let told: usize = levels.iter().map(|level| level.value_count + level.collision_entry_sum).sum();
    assert_eq!(told, 500);
    assert_eq!(levels[0].node_count, 1);
    assert_eq!(levels[0].child_node_count, levels[1].node_count);
}

#[test]
fn parts_of_maps() {
    let a: HashMap<i32, i32> = HashMap::from_vec((0..10).map(|i| (i, i)).collect());
    let b: HashMap<i32, i32> = HashMap::from_vec((5..15).map(|i| (i, -i)).collect());
    let c: HashMap<i32, i32> = HashMap::from_vec((8..20).map(|i| (i, 100 + i)).collect());
    let common = a.clone().intersection(b.clone());
    let rest = a.clone().difference(b.clone());
    assert!(common.union(rest).test_eq(&a));
    let one = a.clone().symmetric_difference(b.clone());
    let two = b.clone().symmetric_difference(a.clone());
    assert!(one.test_eq(&two));
    let left = a.clone().union(b.clone()).union(c.clone());
    let right = a.union(b.union(c));
    assert!(left.test_eq(&right));
}

#[test]
fn equality_of_maps() {
    let a: HashMap<i32, i32> = HashMap::from_vec(vec![(1, 10), (2, 20)]);
    let b: HashMap<i32, i32> = HashMap::from_vec(vec![(2, 20), (1, 10)]);
    let c: HashMap<i32, i32> = HashMap::from_vec(vec![(2, 20), (1, 11)]);
    assert!(a.test_eq(&a) && a.test_eq(&b) && b.test_eq(&a));
    assert!(!a.test_eq(&c) && !c.test_eq(&a));
    assert!(a.test_eq_with(&b, false) && !a.test_eq_with(&c, false));
}

#[test]
fn differences_make_the_new_map() {
    let a: HashMap<i32, i32> = HashMap::from_vec((0..50).map(|i| (i, i)).collect());
    let b: HashMap<i32, i32> = HashMap::from_vec((25..75).map(|i| (i, i * (i % 3))).collect());
    let changes = a.diff(&b).collect();
    assert!(a.apply_diff(changes).test_eq(&b));
    assert_eq!(a.diff(&a.clone()).len(), 0);
    assert_ne!(a.diff_with(&b, false).len(), 0);
}

#[test]
fn differences_make_the_new_set() {
    let a: HashSet<i32> = HashSet::from_vec((0..50).collect());
    let b: HashSet<i32> = HashSet::from_vec((25..75).collect());
    let changes = a.diff(&b).collect();
    assert_eq!(changes.len(), 50);
    assert!(a.apply_diff(changes).test_eq(&b));
}

#[test]
fn parts_of_bags() {
    let a: Bag<i32> = Bag::from_vec(vec![1, 1, 1, 2, 3, 3]);
    let b: Bag<i32> = Bag::from_vec(vec![1, 3, 3, 3, 4]);
    assert!(a.intersection(&b).sum(&a.difference(&b)).test_eq(&a));
    assert!(a.sum(&b).test_eq(&b.sum(&a)));
    assert_eq!(a.sum(&b).total_count(), a.total_count() + b.total_count());
    assert!(a.sum(&b).difference(&b).test_eq(&a));
}

#[test]
fn order_of_arrival() {
    let mut map: InsertionOrderMap<&str, i32> = InsertionOrderMap::new();
    map.insert("a", 1);
    map.insert("b", 2);
    map.insert("a", 3);
    assert_eq!(map.front(), Some((&"a", &3)));
    map.remove(&"a");
    map.insert("a", 4);
    assert_eq!(map.front(), Some((&"b", &2)));
    assert_eq!(map.back(), Some((&"a", &4)));
}

#[test]
#[allow(deprecated)]
fn hashes_are_those_of_siphash() {
    let state = RandomState::with_keys(3, 5);
    for text in ["", "a", "persistent"] {
        let mut sip = std::hash::SipHasher::new_with_keys(3, 5);
        sip.write(text.as_bytes());
        sip.write_u8(0xff);
        assert_eq!(text.hash_with(&state), sip.finish());
    }
    let other = RandomState::with_keys(3, 6);
    assert_ne!("a".hash_with(&state), "a".hash_with(&other));
}
