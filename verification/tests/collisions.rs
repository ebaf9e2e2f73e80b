use pds::hash_key::{HashKey, HashState};
use pds::hash_map::GenericHashMap;

/// A hasher state under which all keys have one of four hashes.
struct Weak;

impl HashState for Weak {
    fn share_state(&self) -> Self {
        Weak
    }

    fn same_state(&self, _other: &Self) -> bool {
        true
    }
}

impl HashKey<Weak> for u64 {
    fn hash_in(key: u64, _state: Weak) -> u64 {
        key % 4
    }

    fn hash_with(&self, _state: &Weak) -> u64 {
        *self % 4
    }

    fn same_key(&self, other: &Self) -> bool {
        self == other
    }
}

#[test]
fn keys_with_one_hash_are_kept_apart() {
    let mut map: GenericHashMap<u64, u64, Weak> = GenericHashMap::with_hasher(Weak);
    for i in 0u64..40 {
        assert_eq!(None, map.insert(i, i * 2));
    }
    assert_eq!(40, map.len());
    for i in 0u64..40 {
        assert_eq!(Some(&(i * 2)), map.get(&i));
    }
    assert_eq!(Some(2), map.insert(1, 7));
    for i in 0u64..40 {
        assert!(map.remove(&i).is_some());
        assert_eq!(None, map.get(&i));
    }
    assert!(map.is_empty());
}
