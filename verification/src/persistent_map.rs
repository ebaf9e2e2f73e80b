//! What persistent maps have in common.
use crate::hash_key::{HashKey, HashState};
use crate::hash_map::GenericHashMap;
use crate::node::{distinct, Pair};
use crate::trie::{has_room, pairs_map};
use vstd::prelude::*;

verus! {

/// A map whose operations leave it as it is and return a new one.
pub trait PersistentMap<K: View, V: Clone>: Sized {
    /// What the map holds.
    spec fn contents(&self) -> Map<K::V, V>;

    /// Whether the map is well formed.
    spec fn valid(&self) -> bool;

    /// A clone of the value of a key, where the key is there.
    fn get_cloned(&self, key: &K) -> (value: Option<V>)
        requires
            self.valid(),
        ensures
            match value {
                Some(v) => self.contents().contains_key(key@) && cloned(
                    self.contents()[key@],
                    v,
                ),
                None => !self.contents().contains_key(key@),
            },
    ;

    /// A map with a value set for a key.
    fn insert(&self, key: K, value: V) -> (map: Self)
        requires
            self.valid(),
            has_room(self.contents(), key@),
        ensures
            map.valid(),
            map.contents() == self.contents().insert(key@, value),
    ;

    /// A map without a key, and the value that the key had.
    fn remove(&self, key: &K) -> (result: (Self, Option<V>))
        requires
            self.valid(),
        ensures
            result.0.valid(),
            result.0.contents() == self.contents().remove(key@),
            match result.1 {
                Some(v) => self.contents().contains_key(key@) && cloned(
                    self.contents()[key@],
                    v,
                ),
                None => !self.contents().contains_key(key@),
            },
    ;

    /// Number of keys.
    fn len(&self) -> (n: usize)
        requires
            self.valid(),
        ensures
            n == self.contents().len(),
    ;

    /// Tests whether the map holds nothing.
    fn is_empty(&self) -> (empty: bool)
        requires
            self.valid(),
        ensures
            empty == (self.contents().len() == 0),
    {
        self.len() == 0
    }

    /// Tests whether a key is there.
    fn contains_key(&self, key: &K) -> (found: bool)
        requires
            self.valid(),
        ensures
            found == self.contents().contains_key(key@),
    ;

    /// Another map that holds the same.
    fn share_map(&self) -> (map: Self)
        requires
            self.valid(),
        ensures
            map.valid(),
            map.contents() == self.contents(),
    ;

    /// The entries, in some order.
    fn walk(&self) -> (pairs: Vec<Pair<K, V>>)
        requires
            self.valid(),
        ensures
            distinct(pairs@),
            pairs_map(pairs@) == self.contents(),
            pairs@.len() == self.contents().len(),
    ;
}

impl<K, V, S> PersistentMap<K, V> for GenericHashMap<K, V, S> where
    K: HashKey<S>,
    V: HashKey<S> + Clone,
    S: HashState,
 {
    open spec fn contents(&self) -> Map<K::V, V> {
        self@
    }

    open spec fn valid(&self) -> bool {
        self.wf()
    }

    fn get_cloned(&self, key: &K) -> (value: Option<V>) {
        match self.get(key) {
            Some(value) => Some(value.clone()),
            None => None,
        }
    }

    fn insert(&self, key: K, value: V) -> (map: Self) {
        let mut map = self.clone();
        GenericHashMap::insert(&mut map, key, value);
        map
    }

    fn remove(&self, key: &K) -> (result: (Self, Option<V>)) {
        let mut map = self.clone();
        let removed = GenericHashMap::remove(&mut map, key);
        (map, removed)
    }

    fn len(&self) -> (n: usize) {
        GenericHashMap::len(self)
    }

    fn contains_key(&self, key: &K) -> (found: bool) {
        GenericHashMap::contains_key(self, key)
    }

    fn share_map(&self) -> (map: Self) {
        self.clone()
    }

    fn walk(&self) -> (pairs: Vec<Pair<K, V>>) {
        self.pairs()
    }
}

} // verus!
