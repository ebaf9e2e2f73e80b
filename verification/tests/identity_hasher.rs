use pds::hash_key::HashKey;
use pds::hash_map::GenericHashMap;
use pds::hash_set::GenericHashSet;
use pds::identity_hasher::{IdentityBuildHasher, IdentityHasher};

fn hash_value<T: HashKey<IdentityBuildHasher>>(bh: &IdentityBuildHasher, val: T) -> u64 {
    bh.hash_one(val)
}

#[test]
fn u64_is_identity() {
    let bh = IdentityBuildHasher;
    assert_eq!(hash_value(&bh, 0u64), 0);
    assert_eq!(hash_value(&bh, 1u64), 1);
    assert_eq!(hash_value(&bh, u64::MAX), u64::MAX);
    assert_eq!(hash_value(&bh, 0xdeadbeef_cafebabe_u64), 0xdeadbeef_cafebabe_u64);
}

#[test]
fn u32_is_identity() {
    let bh = IdentityBuildHasher;
    assert_eq!(hash_value(&bh, 0u32), 0);
    assert_eq!(hash_value(&bh, 42u32), 42);
    assert_eq!(hash_value(&bh, u32::MAX), u32::MAX as u64);
}

#[test]
fn usize_is_identity() {
    let bh = IdentityBuildHasher;
    assert_eq!(hash_value(&bh, 99usize), 99);
}

#[test]
fn u128_xor_folds() {
    let bh = IdentityBuildHasher;
    let val: u128 = 0x0102030405060708_090a0b0c0d0e0f10;
    let expected = (val as u64) ^ ((val >> 64) as u64);
    assert_eq!(hash_value(&bh, val), expected);
}

#[test]
fn write_u64_direct() {
    let mut h = IdentityHasher::default();
    h.write_u64(12345);
    assert_eq!(h.finish(), 12345);
}

#[test]
fn write_overrides_previous_state() {
    let mut h = IdentityHasher::default();
    h.write_u64(999);
    h.write_u64(42);
    assert_eq!(h.finish(), 42);
}

#[test]
fn identity_hasher_in_hashmap() {
    let mut map: GenericHashMap<u64, &str, IdentityBuildHasher> =
        GenericHashMap::with_hasher(IdentityBuildHasher);
    map.insert(1_u64, "one");
    map.insert(2_u64, "two");
    map.insert(u64::MAX, "max");

    assert_eq!(map.get(&1_u64), Some(&"one"));
    assert_eq!(map.get(&2_u64), Some(&"two"));
    assert_eq!(map.get(&u64::MAX), Some(&"max"));
    assert_eq!(map.len(), 3);
}

#[test]
fn identity_hasher_in_hashset() {
    let mut set: GenericHashSet<u64, IdentityBuildHasher> =
        GenericHashSet::with_hasher(IdentityBuildHasher);
    set.insert(100_u64);
    set.insert(200_u64);
    set.insert(300_u64);

    assert!(set.contains(&100_u64));
    assert!(set.contains(&200_u64));
    assert!(!set.contains(&999_u64));
    assert_eq!(set.len(), 3);
}

#[test]
fn large_map_with_identity_hasher() {
    let mut map: GenericHashMap<u64, u64, IdentityBuildHasher> =
        GenericHashMap::with_hasher(IdentityBuildHasher);
    for i in 0u64..1000 {
        let key = i.wrapping_mul(0x9e3779b97f4a7c15);
        map.insert(key, i);
    }
    assert_eq!(map.len(), 1000);
    for i in 0u64..1000 {
        let key = i.wrapping_mul(0x9e3779b97f4a7c15);
        assert_eq!(map.get(&key), Some(&i));
    }
}
