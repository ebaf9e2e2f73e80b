use pds::bag::Bag;
use pds::bimap::BiMap;
use pds::diff::DiffItem;
use pds::entry::Entry;
use pds::hash_key::{HashKey, View};
use pds::hash_map::HashMap;
use pds::hash_multimap::HashMultiMap;
use pds::hash_set::HashSet;
use pds::insertion_order_map::InsertionOrderMap;
use pds::insertion_order_set::InsertionOrderSet;
use pds::intern::keep_shared;
use pds::merkle_wrapper::MerkleWrapper;
use pds::random_state::RandomState;
use pds::shared::same_place;
use std::sync::Arc;

fn map_of(list: &[(i32, i32)]) -> HashMap<i32, i32> {
    HashMap::from_vec(list.to_vec())
}

#[test]
fn entries_that_are_there() {
    let mut map = map_of(&[(1, 10), (2, 20)]);
    match map.entry(1) {
        Entry::Occupied(mut entry) => {
            assert_eq!(entry.key(), &1);
            assert_eq!(entry.get(), &10);
            *entry.get_mut() = 11;
            assert_eq!(entry.insert(12), 11);
            *entry.into_mut() = 13;
        }
        Entry::Vacant(_) => panic!(),
    }
    assert_eq!(map.get(&1), Some(&13));
    match map.entry(2) {
        Entry::Occupied(entry) => assert_eq!(entry.remove_entry(), (2, 20)),
        Entry::Vacant(_) => panic!(),
    }
    assert_eq!(map.len(), 1);
    assert_eq!(*map.entry(1).or_insert(0), 13);
    assert_eq!(*map.entry(1).or_default(), 13);
}

#[test]
fn entries_that_are_not_there() {
    let mut map = map_of(&[(1, 10)]);
    match map.entry(5) {
        Entry::Vacant(entry) => {
            assert_eq!(entry.key(), &5);
            assert_eq!(entry.into_key(), 5);
        }
        Entry::Occupied(_) => panic!(),
    }
    assert!(!map.contains_key(&5));
    match map.entry(5) {
        Entry::Vacant(entry) => assert_eq!(*entry.insert(50), 50),
        Entry::Occupied(_) => panic!(),
    }
    assert_eq!(*map.entry(6).or_insert_with(|| 60), 60);
    assert_eq!(*map.entry(7).or_default(), 0);
    assert_eq!(map.entry(8).key(), &8);
    assert_eq!(map.len(), 4);
}

#[test]
fn updates_by_functions() {
    let map = map_of(&[(1, 10)]);
    assert_eq!(map.update_with(1, 5, |old, new| old + new).get(&1), Some(&15));
    assert_eq!(map.update_with(2, 5, |old, new| old + new).get(&2), Some(&5));
    assert_eq!(map.update_with_key(1, 5, |k, old, new| k * 100 + old + new).get(&1), Some(&115));
    let (old, changed) = map.update_lookup_with_key(1, 5, |k, old, new| k + old + new);
    assert_eq!((old, changed.get(&1)), (Some(10), Some(&16)));
    let (none, changed) = map.update_lookup_with_key(3, 5, |k, old, new| k + old + new);
    assert_eq!((none, changed.get(&3)), (None, Some(&5)));
    assert_eq!(map.alter(|v| v.map(|n| n + 1), 1).get(&1), Some(&11));
    assert_eq!(map.alter(|_| None, 1).len(), 0);
    assert_eq!(map.alter(|v| Some(v.unwrap_or(7)), 9).get(&9), Some(&7));
    assert_eq!(map.get(&1), Some(&10));
}

#[test]
fn submaps() {
    let small = map_of(&[(1, 1), (2, 2)]);
    let large = map_of(&[(1, 1), (2, 2), (3, 3)]);
    let other = map_of(&[(1, 1), (2, 20)]);
    assert!(small.is_submap(&large));
    assert!(small.is_proper_submap(&large));
    assert!(!small.is_proper_submap(&small));
    assert!(!large.is_submap(&small));
    assert!(!other.is_submap(&large));
    assert!(large.is_submap_by(&map_of(&[(1, 5), (2, 5), (3, 5)]), |a, b| a < b));
    assert!(small.is_proper_submap_by(&map_of(&[(1, 5), (2, 5), (3, 5)]), |a, b| a < b));
}

#[test]
fn unions_by_functions() {
    let list = || vec![map_of(&[(1, 1), (2, 2)]), map_of(&[(2, 20), (3, 30)]), map_of(&[(2, 200)])];
    let sum = HashMap::unions_with(list(), |a, b| a + b);
    assert!(sum.test_eq(&map_of(&[(1, 1), (2, 222), (3, 30)])));
    let keyed = HashMap::unions_with_key(list(), |k, a, b| k + a + b);
    assert!(keyed.test_eq(&map_of(&[(1, 1), (2, 226), (3, 30)])));
    assert!(HashMap::unions(list()).test_eq(&map_of(&[(1, 1), (2, 2), (3, 30)])));
    let a = map_of(&[(1, 1), (2, 2)]);
    let b = map_of(&[(2, 20), (3, 30)]);
    let joined = a.clone().union_with(b.clone(), |x, y| x * y);
    assert!(joined.test_eq(&map_of(&[(1, 1), (2, 40), (3, 30)])));
    let kept = a.clone().symmetric_difference_with(b.clone(), |x, y| Some(x + y));
    assert!(kept.test_eq(&map_of(&[(1, 1), (2, 22), (3, 30)])));
    let dropped = a.clone().symmetric_difference_with(b.clone(), |_, _| None);
    assert!(dropped.test_eq(&map_of(&[(1, 1), (3, 30)])));
    let common = a.intersection_with(b, |x, y| y - x);
    assert!(common.test_eq(&map_of(&[(2, 18)])));
}

#[test]
fn keys_and_values_for_mutation() {
    let mut map = map_of(&[(1, 10)]);
    let shared = map.clone();
    if let Some((key, value)) = map.get_key_value_mut(&1) {
        assert_eq!(key, &1);
        *value += 1;
    }
    assert_eq!(map.get_key_value(&1), Some((&1, &11)));
    assert_eq!(shared.get(&1), Some(&10));
    assert!(map.get_key_value_mut(&2).is_none());
    assert_eq!(map.remove_with_key(&1), Some((1, 11)));
    assert_eq!(map.remove_with_key(&1), None);
}

#[test]
fn mutable_walk_leaves_clones_alone() {
    let mut map: HashMap<i32, i32> = HashMap::from_vec((0..500).map(|i| (i, i)).collect());
    let shared = map.clone();
    let mut walk = map.iter_mut();
    assert_eq!(walk.len(), 500);
    while let Some((key, value)) = walk.next() {
        *value = *key + 1000;
    }
    for i in 0..500 {
        assert_eq!(map.get(&i), Some(&(i + 1000)));
        assert_eq!(shared.get(&i), Some(&i));
    }
}

#[test]
fn evictions_by_count() {
    assert_eq!(keep_shared(vec!['a', 'b', 'c'], &vec![2, 1, 5]), vec!['a', 'c']);
    assert_eq!(keep_shared(Vec::<char>::new(), &vec![]), vec![]);
}

#[test]
fn rows_of_a_multimap() {
    let map: HashMultiMap<i32, i32> = HashMultiMap::from_vec(vec![(1, 10), (1, 11), (2, 20)]);
    assert_eq!(map.index(&1).len(), 2);
    assert_eq!(map.get(&3).len(), 0);
    assert_eq!((map.len(), map.keys_len(), map.key_count(&1)), (3, 2, 2));
}

#[test]
fn ends_of_an_ordered_map() {
    let mut map: InsertionOrderMap<i32, i32> = InsertionOrderMap::from_vec(vec![(3, 1), (1, 2), (2, 3)]);
    assert_eq!(map.pop_front(), Some((3, 1)));
    assert_eq!(map.pop_back(), Some((2, 3)));
    assert_eq!(map.pop_back(), Some((1, 2)));
    assert_eq!(map.pop_back(), None);
}

#[test]
fn wrapped_maps_come_out_again() {
    let map = map_of(&[(1, 10)]);
    let wrapper: MerkleWrapper<HashMap<i32, i32>, i32, i32> = MerkleWrapper::new(map.clone());
    assert!(wrapper.inner().test_eq(&map));
    assert!(wrapper.into_inner().ptr_eq(&map));
}

#[test]
fn parts_of_a_set() {
    let set: HashSet<i32> = HashSet::from_vec(vec![1, 2, 3, 4]);
    let (even, odd) = set.partition(|n| n % 2 == 0);
    assert!(even.test_eq(&HashSet::from_vec(vec![2, 4])));
    assert!(odd.test_eq(&HashSet::from_vec(vec![1, 3])));
    assert!(even.test_eq_with(&HashSet::from_vec(vec![4, 2]), false));
    assert_eq!(set.diff_with(&even, false).len(), 2);
}

#[test]
fn collections_without_a_root_stand_in_one_place() {
    let map: HashMap<i32, i32> = HashMap::new();
    let mut full = map_of(&[(1, 10)]);
    assert!(map.ptr_eq(&HashMap::new()));
    assert!(!map.ptr_eq(&full));
    assert!(!full.ptr_eq(&map));
    assert!(full.ptr_eq(&full.clone()));
    assert!(!full.ptr_eq(&map_of(&[(1, 10)])));
    full.clear();
    assert!(full.ptr_eq(&map));

    let set: HashSet<i32> = HashSet::new();
    let mut more = HashSet::new();
    more.insert(1);
    assert!(set.ptr_eq(&HashSet::new()));
    assert!(!set.ptr_eq(&more));

    let rows: HashMultiMap<i32, i32> = HashMultiMap::new();
    let mut more = HashMultiMap::new();
    more.insert(1, 2);
    assert!(rows.ptr_eq(&HashMultiMap::new()));
    assert!(!rows.ptr_eq(&more));

    let list: InsertionOrderMap<i32, i32> = InsertionOrderMap::new();
    let mut more = InsertionOrderMap::new();
    more.insert(1, 2);
    assert!(list.ptr_eq(&InsertionOrderMap::new()));
    assert!(!list.ptr_eq(&more));
    assert!(more.ptr_eq(&more.clone()));

    let line: InsertionOrderSet<i32> = InsertionOrderSet::new();
    let mut more = InsertionOrderSet::new();
    more.insert(1);
    assert!(line.ptr_eq(&InsertionOrderSet::new()));
    assert!(!line.ptr_eq(&more));
}

#[test]
fn places_are_compared_by_what_stands_in_them() {
    let taken = Some(Arc::new(1));
    let empty: Option<Arc<i32>> = None;
    assert!(same_place(&empty, &empty, false));
    assert!(!same_place(&empty, &taken, true));
    assert!(!same_place(&taken, &empty, true));
    assert!(same_place(&taken, &taken, true));
    assert!(!same_place(&taken, &taken, false));
}

/// A key that is known by its name; its mark tells keys of one name apart.
#[derive(Clone, Debug, PartialEq)]
struct Tagged {
    name: u32,
    mark: char,
}

fn tagged(name: u32, mark: char) -> Tagged {
    Tagged { name, mark }
}

impl View for Tagged {
    type V = u32;

    fn view(&self) -> u32 {
        self.name
    }
}

impl HashKey<RandomState> for Tagged {
    fn hash_in(key: u32, _state: RandomState) -> u64 {
        key as u64
    }

    fn hash_with(&self, _state: &RandomState) -> u64 {
        self.name as u64
    }

    fn same_key(&self, other: &Self) -> bool {
        self.name == other.name
    }
}

#[test]
fn the_held_key_comes_out_and_the_new_one_is_stored() {
    let mut map: HashMap<Tagged, i32> = HashMap::new();
    map.insert(tagged(1, 'a'), 10);
    assert_eq!(map.get_key_value(&tagged(1, 'q')), Some((&tagged(1, 'a'), &10)));
    assert_eq!(map.insert(tagged(1, 'b'), 20), Some(10));
    match map.get_key_value_mut(&tagged(1, 'q')) {
        Some((key, value)) => {
            assert_eq!(key, &tagged(1, 'b'));
            *value = 30;
        }
        None => panic!("the key is there"),
    }
    assert_eq!(map.remove_with_key(&tagged(1, 'q')), Some((tagged(1, 'b'), 30)));
    assert_eq!(map.remove_with_key(&tagged(1, 'q')), None);
    map.insert(tagged(2, 'a'), 1);
    match map.entry(tagged(2, 'q')) {
        Entry::Occupied(place) => assert_eq!(place.remove_entry(), (tagged(2, 'a'), 1)),
        Entry::Vacant(_) => panic!("the key is there"),
    }

    let mut set: HashSet<Tagged> = HashSet::new();
    assert_eq!(set.insert(tagged(1, 'a')), None);
    assert_eq!(set.insert(tagged(1, 'b')), Some(tagged(1, 'a')));
    assert_eq!(set.remove(&tagged(1, 'q')), Some(tagged(1, 'b')));

    let mut list: InsertionOrderMap<Tagged, i32> = InsertionOrderMap::new();
    list.insert(tagged(1, 'a'), 10);
    list.insert(tagged(2, 'a'), 20);
    list.insert(tagged(1, 'b'), 11);
    assert_eq!(list.pop_front(), Some((tagged(1, 'b'), 11)));
    assert_eq!(list.pop_back(), Some((tagged(2, 'a'), 20)));

    let mut line: InsertionOrderSet<Tagged> = InsertionOrderSet::new();
    line.insert(tagged(1, 'a'));
    assert!(!line.insert(tagged(1, 'b')));
    assert_eq!(line.pop_back(), Some(tagged(1, 'b')));

    let mut pairs: BiMap<Tagged, Tagged> = BiMap::new();
    assert_eq!(pairs.insert(tagged(1, 'a'), tagged(5, 'a')), None);
    assert_eq!(
        pairs.insert(tagged(1, 'b'), tagged(5, 'b')),
        Some((Some(tagged(5, 'a')), Some(tagged(1, 'a'))))
    );
    assert_eq!(pairs.remove_by_value(&tagged(5, 'q')), Some(tagged(1, 'b')));
}

#[test]
fn a_removal_gives_a_set_a_root() {
    let fresh: HashSet<i32> = HashSet::new();
    let mut set: HashSet<i32> = HashSet::new();
    assert_eq!(set.remove(&1), None);
    assert!(set.is_empty());
    assert!(!set.ptr_eq(&fresh));
    assert!(!fresh.without(&1).ptr_eq(&fresh));
    let empty: HashSet<i32> = HashSet::new();
    assert!(empty.relative_complement(fresh.clone()).ptr_eq(&fresh));
    let empty: HashSet<i32> = HashSet::new();
    let one: HashSet<i32> = HashSet::from_vec(vec![1]);
    assert!(!empty.relative_complement(one).ptr_eq(&fresh));

    let mut map: HashMap<i32, i32> = HashMap::new();
    assert_eq!(map.remove(&1), None);
    assert!(map.ptr_eq(&HashMap::new()));
}

#[test]
fn a_union_keeps_the_keys_of_the_larger_map() {
    let mut small: HashMap<Tagged, i32> = HashMap::new();
    small.insert(tagged(1, 's'), 1);
    let mut large: HashMap<Tagged, i32> = HashMap::new();
    large.insert(tagged(1, 'l'), 2);
    large.insert(tagged(2, 'l'), 3);
    let both = small.clone().union(large.clone());
    assert_eq!(both.get_key_value(&tagged(1, 'q')), Some((&tagged(1, 'l'), &1)));
    let both = large.union(small);
    assert_eq!(both.get_key_value(&tagged(1, 'q')), Some((&tagged(1, 'l'), &2)));
}

#[test]
fn operators_on_references() {
    let a: HashSet<i32> = HashSet::from_vec(vec![1, 2, 3]);
    let b: HashSet<i32> = HashSet::from_vec(vec![3, 4]);
    assert!((&a + &b).test_eq(&HashSet::from_vec(vec![1, 2, 3, 4])));
    assert!((&a * &b).test_eq(&HashSet::from_vec(vec![3])));
    let p: BiMap<i32, &str> = BiMap::from_vec(vec![(1, "a"), (2, "b")]);
    let q: BiMap<i32, &str> = BiMap::from_vec(vec![(3, "a")]);
    let both = &p + &q;
    assert_eq!(both.len(), 2);
    assert_eq!(both.get_by_value(&"a"), Some(&3));
    assert_eq!(both.get_by_key(&1), None);
    assert_eq!(p.len(), 2);
}

#[test]
fn keys_of_intersections() {
    let mut large: HashMap<Tagged, i32> = HashMap::new();
    for i in 0..5 {
        large.insert(tagged(i, 'l'), 1);
    }
    let mut small: HashMap<Tagged, i32> = HashMap::new();
    small.insert(tagged(1, 's'), 2);
    small.insert(tagged(9, 's'), 2);
    // The values are those of the first map, the keys those of the second one, or
    // of the smaller one.
    let met = large.clone().intersection(small.clone());
    assert_eq!(met.get_key_value(&tagged(1, 'q')), Some((&tagged(1, 's'), &1)));
    let met = large.clone().par_intersection(small.clone());
    assert_eq!(met.get_key_value(&tagged(1, 'q')), Some((&tagged(1, 's'), &1)));
    let met = small.clone().intersection(large.clone());
    assert_eq!(met.get_key_value(&tagged(1, 'q')), Some((&tagged(1, 'l'), &2)));
    let met = small.par_intersection(large);
    assert_eq!(met.get_key_value(&tagged(1, 'q')), Some((&tagged(1, 's'), &2)));
}

#[test]
fn keys_of_rows() {
    let mut rows: HashMultiMap<Tagged, Tagged> = HashMultiMap::new();
    assert!(rows.insert(tagged(1, 'a'), tagged(7, 'a')));
    assert!(!rows.insert(tagged(1, 'b'), tagged(7, 'b')));
    let mut keys = rows.keys();
    assert_eq!(keys.next(), Some(&tagged(1, 'a')));
    let values = rows.get(&tagged(1, 'q'));
    assert_eq!(values.iter().next(), Some(&tagged(7, 'b')));
}

#[test]
fn the_first_error_stops_a_mapping() {
    let map = map_of(&(0..50).map(|i| (i, i)).collect::<Vec<_>>());
    let mut order = Vec::new();
    let mut walk = map.iter();
    while let Some((k, _)) = walk.next() {
        order.push(*k);
    }
    let first = order.iter().find(|k| **k % 7 == 3).copied();
    let made = map.try_map_values(|k, v| if *k % 7 == 3 { Err(*k) } else { Ok(*v + 1) });
    assert_eq!(made.err(), first);
    let made = map.try_map_values(|_, v| if *v < 0 { Err(()) } else { Ok(*v + 1) });
    assert_eq!(made.ok().and_then(|m| m.get(&9).copied()), Some(10));
}

#[test]
fn values_that_are_not_equal_to_themselves() {
    let a: HashMap<i32, Odd> = HashMap::from_vec(vec![(1, Odd), (2, Odd)]);
    let b: HashMap<i32, Odd> = HashMap::from_vec(vec![(2, Odd), (3, Odd)]);
    let (mut added, mut updated, mut removed) = (0, 0, 0);
    for item in a.diff(&b).collect() {
        match item {
            DiffItem::Add(k, _) => {
                assert_eq!(*k, 3);
                added += 1;
            }
            DiffItem::Update { old, new } => {
                assert_eq!((old.0, new.0), (&2, &2));
                updated += 1;
            }
            DiffItem::Remove(k, _) => {
                assert_eq!(*k, 1);
                removed += 1;
            }
        }
    }
    assert_eq!((added, updated, removed), (1, 1, 1));
    assert!(!a.is_submap(&b));
    assert!(!a.test_eq(&b));
}

/// A value that is equal to none, not even to itself.
#[derive(Clone)]
struct Odd;

impl PartialEq for Odd {
    fn eq(&self, _other: &Self) -> bool {
        false
    }
}

impl View for Odd {
    type V = ();

    fn view(&self) {}
}

impl HashKey<RandomState> for Odd {
    fn hash_in(_key: (), _state: RandomState) -> u64 {
        0
    }

    fn hash_with(&self, _state: &RandomState) -> u64 {
        0
    }

    fn same_key(&self, _other: &Self) -> bool {
        true
    }
}

#[test]
fn equality_given_the_lineage() {
    let a: Bag<i32> = Bag::from_vec(vec![1, 1, 2]);
    let b: Bag<i32> = Bag::from_vec(vec![2, 1, 1]);
    let c: Bag<i32> = Bag::from_vec(vec![2, 2, 1]);
    assert!(a.test_eq_with(&b, false) && a.test_eq(&b));
    assert!(!a.test_eq_with(&c, false) && !a.test_eq(&c));
    let mut d = a.clone();
    d.insert(2);
    d.remove(&1);
    assert!(!a.test_eq_with(&d, true) && !a.test_eq(&d));
    d.insert(1);
    d.remove(&2);
    assert!(a.test_eq_with(&d, true) && a.test_eq(&d));

    let p: BiMap<i32, i32> = BiMap::from_vec(vec![(1, 10), (2, 20)]);
    let mut q = p.clone();
    q.insert(1, 20);
    q.insert(2, 10);
    assert!(!p.test_eq_with(&q, true) && !p.test_eq(&q));
    q.insert(2, 20);
    q.insert(1, 10);
    assert!(p.test_eq_with(&q, true) && p.test_eq(&q));

    let rows: HashMultiMap<i32, i32> = HashMultiMap::from_vec(vec![(1, 10), (1, 11), (2, 20)]);
    let mut more = rows.clone();
    more.remove(&1, &11);
    more.insert(1, 12);
    assert!(!rows.test_eq_with(&more, &vec![true, true]) && !rows.test_eq(&more));
    more.remove(&1, &12);
    more.insert(1, 11);
    assert!(rows.test_eq_with(&more, &vec![true, true]) && rows.test_eq(&more));
    more.remove_all(&2);
    more.insert(1, 20);
    assert!(!rows.test_eq(&more));
}
