use pds::bag::Bag;
use pds::bimap::BiMap;
use pds::hash_map::{GenericHashMap, HashMap};
use pds::hash_multimap::HashMultiMap;
use pds::hash_set::HashSet;
use pds::identity_hasher::IdentityBuildHasher;
use pds::insertion_order_map::InsertionOrderMap;
use pds::insertion_order_set::InsertionOrderSet;
use pds::random_state::Encode;
use std::hash::{Hash, Hasher};

#[test]
fn hash_of_known_bytes() {
    // The FNV-1a hash of a size and a sum of the hashes of the entries.
    let set: HashSet<&str> = HashSet::from_vec(vec!["a"]);
    assert_eq!(set.content_hash(), 0x1a8262aaeabf0c84);
    let map: HashMap<&str, &str> = HashMap::from_vec(vec![("foo", "bar")]);
    assert_eq!(map.content_hash(), 0x18eb9807b467c56f);
    let empty: HashMap<i32, i32> = HashMap::new();
    assert_eq!(empty.content_hash(), 0x88201fb960ff6465);
    assert_eq!(empty.hash_input(), vec![0; 16]);
    let bag: Bag<&str> = Bag::from_vec(vec!["a", "b", "a"]);
    assert_eq!(bag.content_hash(), 0xf1f1880a392f2ab5);
    let pairs: BiMap<u32, &str> = BiMap::from_vec(vec![(7, "x")]);
    assert_eq!(pairs.content_hash(), 0xe73d7efd6c707d4e);
    let rows: HashMultiMap<u32, u8> = HashMultiMap::from_vec(vec![(7, 1), (7, 2)]);
    assert_eq!(rows.content_hash(), 0xf420b9bc758edc37);
    // That of the entries in their order.
    let order: InsertionOrderSet<&str> = InsertionOrderSet::from_vec(vec!["foo", "bar"]);
    assert_eq!(order.hash_input(), b"foo\xffbar\xff".to_vec());
    assert_eq!(order.content_hash(), 0x3fff2c2d7595e046);
    let line: InsertionOrderMap<&str, u16> = InsertionOrderMap::from_vec(vec![("k", 300)]);
    assert_eq!(line.content_hash(), 0x36a7e3d5059b20a8);
}

#[test]
fn neighbours_do_not_run_together() {
    let a: InsertionOrderSet<&str> = InsertionOrderSet::from_vec(vec!["ab", "c"]);
    let b: InsertionOrderSet<&str> = InsertionOrderSet::from_vec(vec!["a", "bc"]);
    assert_ne!(a.content_hash(), b.content_hash());
    let a: HashMap<&str, &str> = HashMap::from_vec(vec![("ab", "c")]);
    let b: HashMap<&str, &str> = HashMap::from_vec(vec![("a", "bc")]);
    assert_ne!(a.content_hash(), b.content_hash());
}

/// A hasher that keeps what it is handed.
struct Collector(Vec<u8>);

impl Hasher for Collector {
    fn write(&mut self, bytes: &[u8]) {
        self.0.extend_from_slice(bytes);
    }

    fn finish(&self) -> u64 {
        0
    }
}

fn fed<T: Hash>(value: &T) -> Vec<u8> {
    let mut collector = Collector(Vec::new());
    value.hash(&mut collector);
    collector.0
}

#[test]
fn encodings_are_what_a_hasher_is_fed() {
    assert_eq!(0xabu8.encode(), fed(&0xabu8));
    assert_eq!(0x1234u16.encode(), fed(&0x1234u16));
    assert_eq!(0x12345678u32.encode(), fed(&0x12345678u32));
    assert_eq!(0x123456789abcdef0u64.encode(), fed(&0x123456789abcdef0u64));
    assert_eq!(77usize.encode(), fed(&77usize));
    assert_eq!((-2i8).encode(), fed(&-2i8));
    assert_eq!((-300i16).encode(), fed(&-300i16));
    assert_eq!((-300i32).encode(), fed(&-300i32));
    assert_eq!((-300i64).encode(), fed(&-300i64));
    assert_eq!((-300isize).encode(), fed(&-300isize));
    let wide = 0x0123456789abcdef_fedcba9876543210u128;
    assert_eq!(wide.encode(), fed(&wide));
    assert_eq!((-5i128).encode(), fed(&-5i128));
    assert_eq!(true.encode(), fed(&true));
    assert_eq!('\u{1f600}'.encode(), fed(&'\u{1f600}'));
    assert_eq!(().encode(), fed(&()));
    assert_eq!("text".encode(), fed(&"text"));
    assert_eq!(String::from("text").encode(), fed(&String::from("text")));
    assert_eq!((1u8, "a").encode(), fed(&(1u8, "a")));
    assert_eq!((1u8, "a", 2u16).encode(), fed(&(1u8, "a", 2u16)));
    assert_eq!((1u8, 2u8, 3u8, 4u8).encode(), fed(&(1u8, 2u8, 3u8, 4u8)));
    assert_eq!((1u8, 2u8, 3u8, 4u8, 'x').encode(), fed(&(1u8, 2u8, 3u8, 4u8, 'x')));
    assert_eq!((1u8, 2u8, 3u8, 4u8, 'x', ()).encode(), fed(&(1u8, 2u8, 3u8, 4u8, 'x', ())));
    assert_eq!(Some(9u32).encode(), fed(&Some(9u32)));
    assert_eq!(None::<u32>.encode(), fed(&None::<u32>));
    assert_eq!(vec![1u16, 2, 3].encode(), fed(&vec![1u16, 2, 3]));
    assert_eq!([Some(1u8), None].encode(), fed(&[Some(1u8), None]));
}

#[test]
fn composite_keys() {
    let mut map: HashMap<(Option<u8>, Vec<u32>, [char; 2]), i32> = HashMap::new();
    map.insert((Some(1), vec![1, 2], ['a', 'b']), 1);
    map.insert((None, vec![1, 2], ['a', 'b']), 2);
    map.insert((Some(1), vec![1], ['a', 'b']), 3);
    map.insert((Some(1), vec![1, 2], ['a', 'c']), 4);
    assert_eq!(map.len(), 4);
    assert_eq!(map.get(&(Some(1), vec![1, 2], ['a', 'b'])), Some(&1));
    assert_eq!(map.get(&(Some(1), vec![2, 1], ['a', 'b'])), None);
}

#[test]
fn map_hash_order_independent() {
    let mut a = HashMap::new();
    a.insert(1, 10); a.insert(2, 20); a.insert(3, 30);
    let mut b = HashMap::new();
    b.insert(3, 30); b.insert(1, 10); b.insert(2, 20); // different insertion order
    assert_eq!(a.content_hash(), b.content_hash());
    let mut c: GenericHashMap<i32, i32, IdentityBuildHasher> = GenericHashMap::default();
    c.insert(2, 20); c.insert(1, 10); c.insert(3, 30); // another hasher
    assert_eq!(a.content_hash(), c.content_hash());
    b.insert(3, 31);
    assert_ne!(a.content_hash(), b.content_hash());
}

#[test]
fn set_hash_order_independent() {
    let mut a = HashSet::new();
    a.insert(1); a.insert(2); a.insert(3);
    let mut b = HashSet::new();
    b.insert(3); b.insert(1); b.insert(2); // different insertion order
    assert_eq!(a.content_hash(), b.content_hash());
}

#[test]
fn bag_hash_order_independent() {
    let mut a = Bag::new();
    a.insert(1); a.insert(2);
    let mut b = Bag::new();
    b.insert(2); b.insert(1); // different insertion order
    assert_eq!(a.content_hash(), b.content_hash());
    b.insert(1);
    assert_ne!(a.content_hash(), b.content_hash());
}

#[test]
fn bimap_hash_by_content() {
    let a: BiMap<i32, &str> = BiMap::from_vec(vec![(1, "a"), (2, "b")]);
    let b: BiMap<i32, &str> = BiMap::from_vec(vec![(2, "b"), (1, "a")]);
    assert_eq!(a.content_hash(), b.content_hash());
}

#[test]
fn hash_multimap_hash_same_for_equal_maps() {
    let a: HashMultiMap<i32, i32> = HashMultiMap::from_vec(vec![(1, 10), (1, 11), (2, 20)]);
    let b: HashMultiMap<i32, i32> = HashMultiMap::from_vec(vec![(2, 20), (1, 11), (1, 10)]);
    assert_eq!(a.content_hash(), b.content_hash());
}

#[test]
fn insertion_order_map_hash_same_for_equal_maps() {
    let a: InsertionOrderMap<i32, i32> = InsertionOrderMap::from_vec(vec![(1, 10), (2, 20)]);
    let b: InsertionOrderMap<i32, i32> = InsertionOrderMap::from_vec(vec![(1, 10), (2, 20)]);
    let c: InsertionOrderMap<i32, i32> = InsertionOrderMap::from_vec(vec![(2, 20), (1, 10)]);
    assert_eq!(a.content_hash(), b.content_hash());
    assert_ne!(a.content_hash(), c.content_hash());
}

#[test]
fn hash_same_for_equal_sets() {
    let a: InsertionOrderSet<i32> = InsertionOrderSet::from_vec(vec![1, 2, 3]);
    let b: InsertionOrderSet<i32> = InsertionOrderSet::from_vec(vec![1, 2, 3]);
    let c: InsertionOrderSet<i32> = InsertionOrderSet::from_vec(vec![3, 2, 1]);
    assert_eq!(a.content_hash(), b.content_hash());
    assert_ne!(a.content_hash(), c.content_hash());
}
