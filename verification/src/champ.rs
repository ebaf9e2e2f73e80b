//! A compressed hash-array mapped prefix-tree map.
use crate::entries::lists;
use crate::hash_key::{HashKey, HashState};
use crate::hash_map_query::{lawful_eq, same_entries};
use crate::hash_map_update::list_map;
use crate::iter::Iter;
use crate::node::{distinct, Pair};
use crate::random_state::RandomState;
use crate::trie::{has_room, lemma_seen, pairs_map, Trie};
use std::sync::Arc;
use vstd::prelude::*;
use vstd::std_specs::cmp::PartialEqSpec;

verus! {

/// A map with structural sharing: a persistent operation copies the path from
/// the root to the entry and shares the rest.
pub struct ChampMap<K, V> {
    trie: Trie<K, V>,
    hasher: RandomState,
}

impl<K: View, V> View for ChampMap<K, V> {
    type V = Map<K::V, V>;

    closed spec fn view(&self) -> Map<K::V, V> {
        self.trie@
    }
}

impl<K, V> ChampMap<K, V> {
    /// The entries, in the order in which they are walked.
    pub closed spec fn entries(self) -> Seq<Pair<K, V>> {
        self.trie.entries()
    }

    /// Whether the trie is well formed.
    pub closed spec fn wf(self) -> bool where K: HashKey<RandomState> {
        self.trie.wf(self.hasher)
    }

    /// What holds of every well-formed map.
    pub proof fn lemma_map(self) where K: HashKey<RandomState>
        requires
            self.wf(),
        ensures
            self@.dom().finite(),
            self@.len() <= usize::MAX,
            self.entries().len() == self@.len(),
            lists(self.entries(), self@),
            self@ == pairs_map(self.entries()),
    {
        self.trie.lemma_trie(self.hasher);
    }

    /// An empty map.
    pub fn new() -> (map: Self) where K: HashKey<RandomState>
        ensures
            map.wf(),
            map@ == Map::<K::V, V>::empty(),
    {
        let map = ChampMap { trie: Trie::new(), hasher: RandomState::new() };
        proof {
            map.trie.lemma_new(map.hasher);
        }
        map
    }

    /// Number of entries.
    pub fn len(&self) -> (n: usize) where K: HashKey<RandomState>
        requires
            self.wf(),
        ensures
            n == self@.len(),
    {
        proof {
            self.lemma_map();
            self.trie.lemma_trie(self.hasher);
        }
        self.trie.size
    }

    /// Whether the map has no entries.
    pub fn is_empty(&self) -> (empty: bool) where K: HashKey<RandomState>
        requires
            self.wf(),
        ensures
            empty == (self@ == Map::<K::V, V>::empty()),
    {
        proof {
            self.lemma_map();
            if self@.len() == 0 {
                assert(self@ =~= Map::<K::V, V>::empty());
            }
        }
        self.len() == 0
    }

    /// Looks the value of a key up.
    pub fn get(&self, key: &K) -> (value: Option<&V>) where K: HashKey<RandomState>
        requires
            self.wf(),
        ensures
            match value {
                Some(v) => self@.contains_key(key@) && self@[key@] == *v,
                None => !self@.contains_key(key@),
            },
    {
        match self.trie.get(&self.hasher, key) {
            Some(pair) => Some(&*pair.1),
            None => None,
        }
    }

    /// This map with an entry inserted.
    pub fn insert_persistent(&self, key: K, value: V) -> (map: Self) where K: HashKey<RandomState>
        requires
            self.wf(),
            has_room(self@, key@),
        ensures
            map.wf(),
            map@ == self@.insert(key@, value),
    {
        let hash: u64 = key.hash_with(&self.hasher);
        let (trie, _) = self.trie.insert(&self.hasher, hash, Arc::new(key), Arc::new(value));
        ChampMap { trie, hasher: self.hasher.share_state() }
    }

    /// Inserts an entry in place. Nodes that other maps share are copied.
    pub fn insert_mut(&mut self, key: K, value: V) where K: HashKey<RandomState>
        requires
            old(self).wf(),
            has_room(old(self)@, key@),
        ensures
            final(self).wf(),
            final(self)@ == old(self)@.insert(key@, value),
    {
        let hash: u64 = key.hash_with(&self.hasher);
        self.trie.insert_mut(&self.hasher, hash, Arc::new(key), Arc::new(value));
    }

    /// This map without a key.
    pub fn remove_persistent(&self, key: &K) -> (map: Self) where K: HashKey<RandomState>
        requires
            self.wf(),
        ensures
            map.wf(),
            map@ == self@.remove(key@),
    {
        let hash: u64 = key.hash_with(&self.hasher);
        match self.trie.remove(&self.hasher, hash, key) {
            Some(trie) => ChampMap { trie, hasher: self.hasher.share_state() },
            None => {
                proof {
                    assert(self@ =~= self@.remove(key@));
                }
                self.clone()
            },
        }
    }

    /// Removes a key in place. Returns whether it was there.
    pub fn remove_mut(&mut self, key: &K) -> (removed: bool) where K: HashKey<RandomState>
        requires
            old(self).wf(),
        ensures
            final(self).wf(),
            final(self)@ == old(self)@.remove(key@),
            removed == old(self)@.contains_key(key@),
    {
        let hash: u64 = key.hash_with(&self.hasher);
        match self.trie.remove(&self.hasher, hash, key) {
            Some(trie) => {
                self.trie = trie;
                true
            },
            None => {
                proof {
                    assert(self@ =~= self@.remove(key@));
                }
                false
            },
        }
    }

    /// An iterator over the entries.
    pub fn iter<'a>(&'a self) -> (iter: Iter<'a, K, V>) where K: HashKey<RandomState>
        requires
            self.wf(),
        ensures
            iter.wf(),
            iter@ == self.entries(),
    {
        proof {
            self.trie.lemma_trie(self.hasher);
        }
        self.trie.iter()
    }

    /// Another name of [`insert_persistent`][Self::insert_persistent].
    pub fn update(&self, key: K, value: V) -> (map: Self) where K: HashKey<RandomState>
        requires
            self.wf(),
            has_room(self@, key@),
        ensures
            map.wf(),
            map@ == self@.insert(key@, value),
    {
        self.insert_persistent(key, value)
    }

    /// Another name of [`insert_mut`][Self::insert_mut].
    pub fn insert_mut_hashed(&mut self, key: K, value: V) where K: HashKey<RandomState>
        requires
            old(self).wf(),
            has_room(old(self)@, key@),
        ensures
            final(self).wf(),
            final(self)@ == old(self)@.insert(key@, value),
    {
        self.insert_mut(key, value);
    }

    /// Tests two maps for equality: one root, or the same entries.
    pub fn test_eq(&self, other: &Self) -> (equal: bool) where
        K: HashKey<RandomState>,
        V: PartialEq,

        requires
            self.wf(),
            other.wf(),
        ensures
            lawful_eq::<V>() ==> equal == same_entries(self@, other@),
            equal ==> self@.dom() == other@.dom(),
            V::obeys_eq_spec() && same_entries(self@, other@) ==> equal,
            V::obeys_eq_spec() && equal ==> same_entries(self@, other@) || self@ == other@,
    {
        proof {
            self.lemma_map();
            other.lemma_map();
            self.trie.lemma_view();
            other.trie.lemma_view();
        }
        if self.trie.same_root(&other.trie) {
            return true;
        }
        if self.len() != other.len() {
            return false;
        }
        let pairs = self.iter().collect_pairs();
        let mut i: usize = 0;
        proof {
            lemma_seen(pairs@, 0);
        }
        while i < pairs.len()
            invariant
                i <= pairs.len(),
                distinct(pairs@),
                other.wf(),
                self@ == pairs_map(pairs@),
                forall|key: K::V| #[trigger]
                    pairs_map(pairs@.take(i as int)).contains_key(key) ==> other@.contains_key(key),
                V::obeys_eq_spec() ==> forall|key: K::V| #[trigger]
                    pairs_map(pairs@.take(i as int)).contains_key(key) ==> self@[key].eq_spec(
                        &other@[key],
                    ),
            decreases pairs.len() - i,
        {
            let pair = &pairs[i];
            proof {
                lemma_seen(pairs@, i as int);
                lemma_seen(pairs@, i + 1);
                assert(self@.contains_key((*pair.0)@));
            }
            match other.get(&*pair.0) {
                Some(value) => {
                    if *pair.1 != *value {
                        return false;
                    }
                },
                None => {
                    return false;
                },
            }
            i += 1;
        }
        proof {
            lemma_seen(pairs@, pairs@.len() as int);
            assert(self@.dom().subset_of(other@.dom()));
            vstd::set_lib::lemma_subset_equality(self@.dom(), other@.dom());
        }
        true
    }

    /// The map of a list of entries; of the values of a key, the last stays.
    pub fn from_vec(list: Vec<(K, V)>) -> (map: Self) where K: HashKey<RandomState>
        ensures
            map.wf(),
            map@ == list_map(Map::empty(), list@),
    {
        let ghost all = list@;
        let mut map = Self::new();
        proof {
            assert(list@.len() == list.len());
            assert(all.take(0) =~= Seq::<(K, V)>::empty());
        }
        for entry in iter: list.into_iter()
            invariant
                iter.seq() == all,
                all.len() <= usize::MAX,
                map.wf(),
                map@.dom().finite(),
                map@.len() <= iter.index(),
                map@ == list_map(Map::empty(), all.take(iter.index() as int)),
        {
            let ghost i = iter.index();
            proof {
                assert(entry == all[i as int]);
                assert(all.take(i + 1).drop_last() =~= all.take(i as int));
                assert(all.take(i + 1).last() == entry);
            }
            map.insert_mut(entry.0, entry.1);
        }
        proof {
            assert(all.take(all.len() as int) =~= all);
        }
        map
    }
}

impl<K, V> Clone for ChampMap<K, V> {
    /// Another map with the same root: no entry is copied.
    fn clone(&self) -> (copy: Self)
        ensures
            copy == *self,
    {
        ChampMap { trie: self.trie.share_trie(), hasher: self.hasher.share_state() }
    }
}

impl<K: HashKey<RandomState>, V> Default for ChampMap<K, V> {
    fn default() -> (map: Self)
        ensures
            map.wf(),
            map@ == Map::<K::V, V>::empty(),
    {
        Self::new()
    }
}

} // verus!
