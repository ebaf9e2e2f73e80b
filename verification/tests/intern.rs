use pds::hash_key::{HashKey, HashState};
use pds::hash_map::{GenericHashMap, HashMap};
use pds::hash_set::HashSet;
use pds::identity_hasher::IdentityBuildHasher;
use pds::intern::{HashSetInternPool, InternPool};

/// A hasher state that keeps five bits of a key.
#[derive(Default)]
struct Narrow;

impl HashState for Narrow {
    fn share_state(&self) -> Self {
        Narrow
    }

    fn same_state(&self, _other: &Self) -> bool {
        true
    }
}

impl HashKey<Narrow> for i32 {
    fn hash_in(key: i32, _state: Narrow) -> u64 {
        (key as u64) & 31
    }

    fn hash_with(&self, _state: &Narrow) -> u64 {
        (*self as u64) & 31
    }

    fn same_key(&self, other: &Self) -> bool {
        self == other
    }
}

type DetMap<K, V> = GenericHashMap<K, V, IdentityBuildHasher>;

type NarrowMap<K, V> = GenericHashMap<K, V, Narrow>;

#[test]
fn intern_cloned_identical_maps() {
    let mut pool = InternPool::new();
    let base: HashMap<i32, i32> = HashMap::from_vec((0..100).map(|i| (i, i * 2)).collect());
    let mut map1 = base.clone();
    let mut map2 = base.clone();

    map1.insert(999, 999);
    map2.insert(999, 999);

    map1.intern(&mut pool);
    map2.intern(&mut pool);

    assert!(pool.len() > 0);
    assert!(pool.stats().hits > 0, "expected hits from shared subtrees");
}

#[test]
fn intern_diverged_maps() {
    let mut pool = InternPool::new();
    let base: HashMap<i32, i32> = HashMap::from_vec((0..100).map(|i| (i, i)).collect());
    let mut map1 = base.clone();
    let mut map2 = base.clone();

    map1.insert(999, 1);
    map2.insert(999, 2);

    map1.intern(&mut pool);
    map2.intern(&mut pool);

    assert!(pool.len() > 0);
    assert!(pool.stats().hits > 0, "expected hits from shared subtrees");
}

#[test]
fn purge_evicts_unreferenced() {
    let mut pool = InternPool::new();
    {
        let mut map: HashMap<i32, i32> = HashMap::from_vec((0..50).map(|i| (i, i)).collect());
        map.intern(&mut pool);
        assert!(pool.len() > 0);
    }
    pool.purge();
    assert_eq!(pool.len(), 0);
    assert!(pool.stats().evictions > 0);
}

#[test]
fn purge_retains_referenced() {
    let mut pool = InternPool::new();
    let mut map: HashMap<i32, i32> = HashMap::from_vec((0..50).map(|i| (i, i)).collect());
    map.intern(&mut pool);
    let before = pool.len();
    pool.purge();
    assert_eq!(pool.len(), before);
    drop(map);
}

#[test]
fn intern_cloned_maps_share_nodes() {
    let mut pool = InternPool::new();
    let map1: HashMap<i32, i32> = HashMap::from_vec((0..200).map(|i| (i, i)).collect());
    let mut map2 = map1.clone();
    map2.insert(999, 999);

    let mut map1 = map1;
    map1.intern(&mut pool);
    map2.intern(&mut pool);

    assert!(pool.stats().hits > 0, "expected shared subtree hits");
}

#[test]
fn mutation_after_intern_works() {
    let mut pool = InternPool::new();
    let mut map: HashMap<i32, i32> = HashMap::from_vec((0..100).map(|i| (i, i)).collect());
    map.intern(&mut pool);

    map.insert(999, 999);
    assert_eq!(map.get(&999), Some(&999));
    assert_eq!(map.len(), 101);
}

#[test]
fn empty_pool() {
    let pool: InternPool<i32, i32> = InternPool::new();
    assert_eq!(pool.len(), 0);
    assert!(pool.is_empty());
}

#[test]
fn intern_empty_map() {
    let mut pool = InternPool::new();
    let mut map: HashMap<i32, i32> = HashMap::new();
    map.intern(&mut pool);
    assert_eq!(pool.len(), 0); // empty map has no root node
}

#[test]
fn hashset_intern() {
    let mut pool = HashSetInternPool::new();
    let base: HashSet<i32> = HashSet::from_vec((0..100).collect());
    let mut set1 = base.clone();
    let mut set2 = base.clone();

    set1.insert(999);
    set2.insert(999);

    set1.intern(&mut pool);
    set2.intern(&mut pool);

    assert!(pool.len() > 0);
    assert!(pool.stats().hits > 0, "expected shared subtree hits");
}

#[test]
fn independently_built_identical_maps_deduplicate() {
    let mut pool = InternPool::new();

    let mut map1: DetMap<i32, i32> = DetMap::from_vec((0..200).map(|i| (i, i * 3)).collect());
    let mut map2: DetMap<i32, i32> = DetMap::from_vec((0..200).map(|i| (i, i * 3)).collect());

    assert!(map1.test_eq(&map2));
    assert!(!map1.ptr_eq(&map2));

    map1.intern(&mut pool);
    map2.intern(&mut pool);

    assert!(
        map1.ptr_eq(&map2),
        "independently built identical maps should share root after interning"
    );
    assert!(pool.stats().hits > 0);
}

#[test]
fn cow_correctness_after_interning() {
    let mut pool = InternPool::new();
    let base: HashMap<i32, i32> = HashMap::from_vec((0..100).map(|i| (i, i)).collect());
    let mut map1 = base.clone();
    let mut map2 = base.clone();

    map1.intern(&mut pool);
    map2.intern(&mut pool);

    map1.insert(50, 9999);
    map1.remove(&0);

    assert_eq!(map2.get(&50), Some(&50));
    assert_eq!(map2.get(&0), Some(&0));
    assert_eq!(map2.len(), 100);

    assert_eq!(map1.get(&50), Some(&9999));
    assert_eq!(map1.get(&0), None);
    assert_eq!(map1.len(), 99);
}

#[test]
fn re_intern_after_mutation() {
    let mut pool = InternPool::new();
    let mut map: HashMap<i32, i32> = HashMap::from_vec((0..200).map(|i| (i, i)).collect());
    map.intern(&mut pool);

    let misses_before = pool.stats().misses;
    let hits_before = pool.stats().hits;

    map.insert(42, 9999);
    map.intern(&mut pool);

    assert!(
        pool.stats().hits > hits_before,
        "unchanged subtrees should hit on re-intern"
    );
    assert!(
        pool.stats().misses > misses_before,
        "mutated path should produce new misses"
    );
}

#[test]
fn purge_cascading_eviction() {
    let mut pool = InternPool::new();

    {
        let mut map: HashMap<i32, i32> = HashMap::from_vec((0..1000).map(|i| (i, i)).collect());
        map.intern(&mut pool);
    }
    let before = pool.len();
    assert!(before > 0);

    pool.purge();

    assert_eq!(
        pool.len(),
        0,
        "cascading purge should evict all {} nodes",
        before
    );
    assert_eq!(pool.stats().evictions as usize, before);
}

#[test]
fn collision_node_interning() {
    let mut pool = InternPool::new();

    let mut map1: NarrowMap<i32, i32> = NarrowMap::default();
    map1.insert(0, 100);
    map1.insert(32, 200);
    map1.insert(64, 300);

    let mut map2 = map1.clone();

    map2.insert(1, 999);

    map1.intern(&mut pool);
    map2.intern(&mut pool);

    assert!(pool.len() > 0);
    assert!(
        pool.stats().hits > 0,
        "collision node should be deduplicated"
    );
}

#[test]
fn stats_accuracy() {
    let mut pool = InternPool::new();
    assert_eq!(pool.stats().hits, 0);
    assert_eq!(pool.stats().misses, 0);
    assert_eq!(pool.stats().evictions, 0);

    let mut map1: HashMap<i32, i32> = HashMap::from_vec((0..50).map(|i| (i, i)).collect());
    map1.intern(&mut pool);

    let first_misses = pool.stats().misses;
    assert!(first_misses > 0);
    assert_eq!(pool.stats().hits, 0, "first intern should have zero hits");
    assert_eq!(pool.len() as u64, first_misses);

    let mut map2 = map1.clone();
    map2.intern(&mut pool);

    assert_eq!(
        pool.stats().hits,
        first_misses,
        "cloned map should hit every node exactly once"
    );
    assert_eq!(pool.len() as u64, first_misses);

    drop(map1);
    drop(map2);
    pool.purge();
    assert_eq!(pool.stats().evictions, first_misses);
    assert_eq!(pool.len(), 0);
}

#[test]
fn intern_idempotent() {
    let mut pool = InternPool::new();
    let mut map: HashMap<i32, i32> = HashMap::from_vec((0..100).map(|i| (i, i)).collect());

    map.intern(&mut pool);
    let after_first = pool.stats().misses;

    map.intern(&mut pool);
    assert_eq!(
        pool.stats().hits, after_first,
        "re-interning same map should hit every node"
    );
    assert_eq!(pool.stats().misses, after_first);
}

#[test]
fn many_overlapping_maps() {
    let mut pool = InternPool::new();
    let base: HashMap<i32, i32> = HashMap::from_vec((0..500).map(|i| (i, i)).collect());

    let mut maps: Vec<HashMap<i32, i32>> = Vec::new();
    for i in 0..20 {
        let mut m = base.clone();
        m.insert(1000 + i, i);
        maps.push(m);
    }

    for m in &mut maps {
        m.intern(&mut pool);
    }

    assert!(
        pool.stats().hits > pool.stats().misses * 5,
        "20 overlapping maps: hits={} should vastly exceed misses={}",
        pool.stats().hits,
        pool.stats().misses
    );
}

#[test]
fn default_pool() {
    let pool: InternPool<i32, i32> = InternPool::default();
    assert!(pool.is_empty());
}

#[test]
fn eviction_follows_the_numbers_of_pointers() {
    let mut pool = InternPool::new();
    let mut map: DetMap<u64, u64> = GenericHashMap::from_vec((0..200).map(|i| (i, i)).collect());
    map.intern(&mut pool);
    let all = pool.len();
    assert!(all > 1);

    // All are held elsewhere: none goes.
    let mut pointers = pool.pointer_counts();
    assert_eq!(pointers.iter().map(|list| list.len()).sum::<usize>(), all);
    assert!(pointers.iter().flatten().all(|n| *n > 1));
    assert_eq!(pool.evict(&pointers), 0);
    assert_eq!(pool.len(), all);

    // One is not: it goes, and nothing else.
    pointers = pool.pointer_counts();
    pointers[0][0] = 1;
    assert_eq!(pool.evict(&pointers), 1);
    assert_eq!(pool.len(), all - 1);
    assert_eq!(pool.stats().evictions, 0);

    // None is: all go.
    pointers = pool.pointer_counts();
    for list in pointers.iter_mut() {
        for n in list.iter_mut() {
            *n = 1;
        }
    }
    assert_eq!(pool.evict(&pointers), (all - 1) as u64);
    assert_eq!(pool.len(), 0);
    assert!(pool.pointer_counts().is_empty());
}

#[test]
fn common_subtrees_are_held_once() {
    // Maps that differ in one key share all nodes but those on the way to it,
    // also those that come behind it in the walk.
    let base: DetMap<u64, u64> = GenericHashMap::from_vec((0..2000).map(|i| (i, i)).collect());
    for changed in [0, 999, 1999] {
        let mut pool = InternPool::new();
        let mut first = base.clone();
        first.intern(&mut pool);
        let held = pool.len();
        // Built anew, so that no node is shared beforehand.
        let mut second: DetMap<u64, u64> =
            GenericHashMap::from_vec((0..2000).map(|i| (i, if i == changed { 7777 } else { i })).collect());
        second.intern(&mut pool);
        let added = pool.len() - held;
        assert!(added >= 1 && added <= 13, "{} nodes were added", added);
        assert_eq!(pool.stats().misses, pool.len() as u64);
        assert_eq!(pool.stats().hits as usize, held - added);
    }
}
