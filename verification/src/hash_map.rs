//! An unordered map backed by a trie, with O(1) clones.
use crate::entries::lists;
use crate::fingerprint::{key_sum, key_weight, kv_sum, wrap_add, wrap_sub};
use crate::fingerprint::{lemma_kv_insert, lemma_kv_remove, lemma_sum_insert, lemma_sum_remove};
use crate::hash_key::{is_default, HashKey, HashState};
use crate::hash_width::{fmix64, fmix64_spec};
use crate::iter::Iter;
use crate::node::{distinct, ChampNode, Pair};
use crate::random_state::RandomState;
use crate::shared::{inside, own_mut, same_allocation, share, take};
use crate::trie::{has_room, pairs_map, stored_keys, Trie};
use std::sync::Arc;
use vstd::prelude::*;

verus! {

/// An unordered map.
///
/// Keys are known by their views: the map is modelled as a map from views of
/// keys to values. The map keeps two fingerprints, each a sum that does not
/// depend on the order of the entries: one of the keys, always up to date, and
/// one of the keys and the values, which mutation in place invalidates. Maps
/// that were cloned from one another have one lineage, a token that tells
/// whether their fingerprints may be compared.
pub struct GenericHashMap<K, V, S> {
    trie: Trie<K, V>,
    hasher: S,
    lineage: Arc<()>,
    key_merkle: u64,
    kv_merkle_hash: u64,
    kv_merkle_valid: bool,
}

/// A map with the default hasher state.
pub type HashMap<K, V> = GenericHashMap<K, V, RandomState>;

impl<K: View, V, S> View for GenericHashMap<K, V, S> {
    type V = Map<K::V, V>;

    closed spec fn view(&self) -> Map<K::V, V> {
        self.trie@
    }
}

impl<K, V, S> GenericHashMap<K, V, S> {
    /// The entries, in the order in which they are walked.
    pub closed spec fn entries(self) -> Seq<Pair<K, V>> {
        self.trie.entries()
    }

    /// The keys themselves that the map holds, by their views.
    pub open spec fn held_keys(self) -> Map<K::V, K> where K: View {
        stored_keys(self.entries())
    }

    /// The hasher state.
    pub closed spec fn state(self) -> S {
        self.hasher
    }

    /// The fingerprint of the keys and values, where it is valid.
    pub closed spec fn kv_merkle(self) -> Option<u64> {
        if self.kv_merkle_valid {
            Some(self.kv_merkle_hash)
        } else {
            None
        }
    }

    /// The fingerprint of the keys.
    pub closed spec fn keys_merkle(self) -> u64 {
        self.key_merkle
    }

    /// The root of the trie, where there is one.
    pub closed spec fn top(self) -> Option<Arc<ChampNode<K, V>>> {
        self.trie.root
    }

    /// Whether the trie is well formed and the fingerprint of the keys is right.
    pub closed spec fn wf(self) -> bool where K: HashKey<S> {
        &&& self.trie.wf(self.hasher)
        &&& self.key_merkle == key_sum::<S, K>(self.trie@.dom(), self.hasher)
    }

    /// Whether the fingerprint of keys and values is right where it is valid.
    pub open spec fn sealed(self) -> bool where K: HashKey<S>, V: HashKey<S> {
        self.kv_merkle() matches Some(hash) ==> hash == kv_sum::<S, K, V>(self@, self.state())
    }

    /// What holds of every well-formed map.
    pub proof fn lemma_map(self) where K: HashKey<S>
        requires
            self.wf(),
        ensures
            self@.dom().finite(),
            lists(self.entries(), self@),
            self@ == pairs_map(self.entries()),
            self.held_keys().dom() == self@.dom(),
            self.entries().len() == self@.len(),
            self@.len() <= usize::MAX,
            self.keys_merkle() == key_sum::<S, K>(self@.dom(), self.state()),
    {
        self.trie.lemma_trie(self.hasher);
    }

    /// What holds of the root of every well-formed map.
    pub proof fn lemma_top(self) where K: HashKey<S>
        requires
            self.wf(),
        ensures
            match self.top() {
                Some(node) => node.wf(self.state(), Seq::empty()) && self.entries()
                    == node.entries(),
                None => self@ == Map::<K::V, V>::empty(),
            },
    {
        self.trie.lemma_trie(self.hasher);
        self.trie.lemma_rooted(self.hasher);
    }

    /// An empty map with a default hasher state.
    pub fn new() -> (map: Self) where K: HashKey<S>, S: Default
        ensures
            map.wf(),
            map@ == Map::<K::V, V>::empty(),
            map.top() is None,
            map.kv_merkle() == Some(0u64),
            map.held_keys() == Map::<K::V, K>::empty(),
            is_default(map.state()),
    {
        Self::with_hasher(S::default())
    }

    /// An empty map with a given hasher state.
    pub fn with_hasher(hasher: S) -> (map: Self) where K: HashKey<S>
        ensures
            map.wf(),
            map@ == Map::<K::V, V>::empty(),
            map.top() is None,
            map.held_keys() == Map::<K::V, K>::empty(),
            map.state() == hasher,
            map.kv_merkle() == Some(0u64),
    {
        let map = GenericHashMap {
            trie: Trie::new(),
            hasher,
            lineage: Arc::new(()),
            key_merkle: 0,
            kv_merkle_hash: 0,
            kv_merkle_valid: true,
        };
        proof {
            map.trie.lemma_new(hasher);
            assert(map@.dom() =~= Set::empty());
            assert(map.held_keys() =~= Map::<K::V, K>::empty());
        }
        map
    }

    /// An empty map, of any keys and values, with the hasher state of this one.
    pub fn new_from<K1, V1>(&self) -> (map: GenericHashMap<K1, V1, S>) where
        K1: HashKey<S>,
        S: HashState,

        ensures
            map.wf(),
            map@ == Map::<K1::V, V1>::empty(),
            map.top() is None,
            map.held_keys() == Map::<K1::V, K1>::empty(),
            map.state() == self.state(),
            map.kv_merkle() == Some(0u64),
    {
        let mut map = GenericHashMap::with_hasher(self.hasher.share_state());
        map.lineage = share(&self.lineage);
        map
    }

    /// The hasher state.
    pub fn hasher(&self) -> (state: &S)
        ensures
            *state == self.state(),
    {
        &self.hasher
    }

    /// Number of entries.
    pub fn len(&self) -> (n: usize) where K: HashKey<S>
        requires
            self.wf(),
        ensures
            n == self@.len(),
    {
        proof {
            self.trie.lemma_trie(self.hasher);
        }
        self.trie.size
    }

    /// Whether the map has no entries.
    pub fn is_empty(&self) -> (empty: bool) where K: HashKey<S>
        requires
            self.wf(),
        ensures
            empty == (self@ == Map::<K::V, V>::empty()),
            empty == (self@.len() == 0),
    {
        proof {
            self.lemma_map();
            if self@.len() == 0 {
                assert(self@ =~= Map::<K::V, V>::empty());
            }
        }
        self.len() == 0
    }

    /// Whether both maps have one root in memory, or no root. Maps that do hold
    /// the same entries; maps that do not may hold them too. Of two roots nothing
    /// says whether they are one allocation.
    pub fn ptr_eq(&self, other: &Self) -> (same: bool) where K: View
        ensures
            same ==> self@ == other@ && self.entries() == other.entries(),
            same ==> self.top() == other.top(),
            self.top() is None && other.top() is None ==> same,
            self.top() is None != other.top() is None ==> !same,
    {
        proof {
            self.trie.lemma_view();
            other.trie.lemma_view();
        }
        self.trie.same_root(&other.trie)
    }

    /// Whether both maps were cloned from one map, or made from one another by
    /// [`new_from`][Self::new_from].
    pub(crate) fn same_lineage<K2, V2>(&self, other: &GenericHashMap<K2, V2, S>) -> (same: bool) {
        same_allocation(&self.lineage, &other.lineage)
    }

    /// Whether the fingerprint of keys and values is valid.
    pub fn kv_merkle_valid(&self) -> (valid: bool)
        ensures
            valid == (self.kv_merkle() is Some),
    {
        self.kv_merkle_valid
    }

    /// The fingerprint of keys and values, where it is valid.
    pub fn kv_merkle_hash(&self) -> (hash: Option<u64>)
        ensures
            hash == self.kv_merkle(),
    {
        if self.kv_merkle_valid {
            Some(self.kv_merkle_hash)
        } else {
            None
        }
    }

    /// The fingerprint of the keys.
    pub fn merkle_hash(&self) -> (hash: u64)
        ensures
            hash == self.keys_merkle(),
    {
        self.key_merkle
    }

    /// Discards all entries.
    pub fn clear(&mut self) where K: HashKey<S>
        ensures
            final(self).wf(),
            final(self)@ == Map::<K::V, V>::empty(),
            final(self).top() is None,
            final(self).state() == old(self).state(),
            final(self).kv_merkle() == Some(0u64),
    {
        self.trie = Trie::new();
        self.key_merkle = 0;
        self.kv_merkle_hash = 0;
        self.kv_merkle_valid = true;
        proof {
            self.trie.lemma_new(self.hasher);
            assert(self@.dom() =~= Set::empty());
        }
    }

    /// An iterator over the entries. The order is that of the trie, the same
    /// each time for one map.
    pub fn iter<'a>(&'a self) -> (iter: Iter<'a, K, V>) where K: HashKey<S>
        requires
            self.wf(),
        ensures
            iter.wf(),
            iter@ == self.entries(),
    {
        proof {
            self.trie.lemma_trie(self.hasher);
        }
        self.trie.iter()
    }

    /// The entries, as shared pairs.
    pub(crate) fn pairs(&self) -> (pairs: Vec<Pair<K, V>>) where K: HashKey<S>
        requires
            self.wf(),
        ensures
            pairs@ == self.entries(),
            distinct(pairs@),
            self@ == pairs_map(pairs@),
            pairs@.len() == self@.len(),
    {
        proof {
            self.lemma_map();
        }
        self.iter().collect_pairs()
    }

    /// Whether the map has a root: an empty map may have none.
    pub(crate) fn has_root(&self) -> (present: bool) where K: HashKey<S>
        requires
            self.wf(),
        ensures
            present == (self.top() is Some),
            !present ==> self@ == Map::<K::V, V>::empty(),
    {
        proof {
            self.trie.lemma_trie(self.hasher);
        }
        self.trie.root.is_some()
    }

    /// The root, where the map has one.
    pub(crate) fn root(&self) -> (root: Option<&ChampNode<K, V>>) where K: HashKey<S>
        requires
            self.wf(),
        ensures
            match root {
                Some(node) => node.wf(self.state(), Seq::empty()) && self.entries()
                    == node.entries(),
                None => self@ == Map::<K::V, V>::empty(),
            },
    {
        proof {
            self.trie.lemma_trie(self.hasher);
            self.trie.lemma_rooted(self.hasher);
        }
        match &self.trie.root {
            Some(node) => Some(&**node),
            None => None,
        }
    }

    /// Gives a map without a root one that holds nothing.
    pub(crate) fn plant(&mut self) where K: HashKey<S>
        requires
            old(self).wf(),
        ensures
            final(self).wf(),
            final(self).top() is Some,
            final(self)@ == old(self)@,
            final(self).entries() == old(self).entries(),
            final(self).state() == old(self).state(),
            final(self).keys_merkle() == old(self).keys_merkle(),
            final(self).kv_merkle() == old(self).kv_merkle(),
            old(self).top() is Some ==> *final(self) == *old(self),
    {
        self.trie.plant(&self.hasher);
    }

    /// Marks the fingerprint of keys and values as invalid.
    pub(crate) fn invalidate_kv(&mut self) where K: HashKey<S>
        requires
            old(self).wf(),
        ensures
            final(self).wf(),
            final(self)@ == old(self)@,
            final(self).entries() == old(self).entries(),
            final(self).top() == old(self).top(),
            final(self).state() == old(self).state(),
            final(self).kv_merkle() is None,
    {
        self.kv_merkle_valid = false;
    }

    /// The trie for mutation of its values, and the hasher state. The fingerprint
    /// of keys and values becomes invalid.
    pub(crate) fn lend_trie<'a>(&'a mut self) -> (parts: (&'a mut Trie<K, V>, &'a S)) where
        K: HashKey<S>,

        requires
            old(self).wf(),
        ensures
            parts.0.wf(*parts.1),
            *parts.1 == old(self).state(),
            parts.0.entries() == old(self).entries(),
            final(self).entries() == final(parts.0).entries(),
            final(self).state() == old(self).state(),
            final(self).kv_merkle() is None,
            final(parts.0).wf(*parts.1) && pairs_map(final(parts.0).entries()).dom() == pairs_map(
                old(self).entries(),
            ).dom() ==> final(self).wf(),
    {
        let ghost before = *self;
        let ghost after = *final(self);
        proof {
            self.trie.lemma_view();
            after.trie.lemma_view();
        }
        self.kv_merkle_valid = false;
        (&mut self.trie, &self.hasher)
    }

    /// A pointer to the root, where there is one.
    pub(crate) fn shared_root(&self) -> (root: Option<Arc<ChampNode<K, V>>>) where K: HashKey<S>
        requires
            self.wf(),
        ensures
            root == self.top(),
            match root {
                Some(node) => node.wf(self.state(), Seq::empty()) && self.entries()
                    == node.entries(),
                None => self@ == Map::<K::V, V>::empty(),
            },
    {
        proof {
            self.trie.lemma_trie(self.hasher);
            self.trie.lemma_rooted(self.hasher);
        }
        match &self.trie.root {
            Some(node) => Some(share(node)),
            None => None,
        }
    }

    /// Puts another root of the same keys in place. The fingerprints stay.
    pub(crate) fn set_root(&mut self, node: Arc<ChampNode<K, V>>) where K: HashKey<S>
        requires
            old(self).wf(),
            node.wf(old(self).state(), Seq::empty()),
            node.entries().len() == old(self).entries().len(),
            pairs_map(node.entries()).dom() == old(self)@.dom(),
        ensures
            final(self).wf(),
            final(self).top() == Some(node),
            final(self).entries() == node.entries(),
            final(self)@ == pairs_map(node.entries()),
            final(self).state() == old(self).state(),
            final(self).kv_merkle() == old(self).kv_merkle(),
            final(self).keys_merkle() == old(self).keys_merkle(),
    {
        let trie = Trie { root: Some(node), size: self.trie.size };
        proof {
            self.trie.lemma_trie(self.hasher);
            trie.lemma_make(self.hasher);
            trie.lemma_view();
        }
        self.trie = trie;
    }

    /// A map of the same keys with another root and a lineage of its own.
    pub(crate) fn with_root<W>(&self, node: ChampNode<K, W>) -> (map: GenericHashMap<K, W, S>) where
        K: HashKey<S>,
        S: HashState,

        requires
            self.wf(),
            node.wf(self.state(), Seq::empty()),
            node.entries().len() == self.entries().len(),
            pairs_map(node.entries()).dom() == self@.dom(),
        ensures
            map.wf(),
            map.entries() == node.entries(),
            map.state() == self.state(),
            map.kv_merkle() is None,
    {
        let trie = Trie { root: Some(Arc::new(node)), size: self.trie.size };
        proof {
            self.trie.lemma_trie(self.hasher);
            trie.lemma_make(self.hasher);
            trie.lemma_view();
        }
        GenericHashMap {
            trie,
            hasher: self.hasher.share_state(),
            lineage: Arc::new(()),
            key_merkle: self.key_merkle,
            kv_merkle_hash: 0,
            kv_merkle_valid: false,
        }
    }

    /// Sets the fingerprint of keys and values.
    pub(crate) fn set_kv_merkle(&mut self, hash: u64) where K: HashKey<S>
        requires
            old(self).wf(),
        ensures
            final(self).wf(),
            final(self)@ == old(self)@,
            final(self).entries() == old(self).entries(),
            final(self).state() == old(self).state(),
            final(self).top() == old(self).top(),
            final(self).keys_merkle() == old(self).keys_merkle(),
            final(self).kv_merkle() == Some(hash),
    {
        self.kv_merkle_hash = hash;
        self.kv_merkle_valid = true;
    }

    /// Looks the value of a key up.
    pub fn get(&self, key: &K) -> (value: Option<&V>) where K: HashKey<S>
        requires
            self.wf(),
        ensures
            match value {
                Some(v) => self@.contains_key(key@) && self@[key@] == *v,
                None => !self@.contains_key(key@),
            },
    {
        match self.trie.get(&self.hasher, key) {
            Some(pair) => Some(&*pair.1),
            None => None,
        }
    }

    /// Looks the shared entry of a key up.
    pub(crate) fn get_pair(&self, key: &K) -> (found: Option<&Pair<K, V>>) where K: HashKey<S>
        requires
            self.wf(),
        ensures
            match found {
                Some(pair) => {
                    &&& (*pair.0)@ == key@
                    &&& self@.contains_key(key@)
                    &&& self@[key@] == *pair.1
                    &&& self.held_keys()[key@] == *pair.0
                },
                None => !self@.contains_key(key@),
            },
    {
        self.trie.get(&self.hasher, key)
    }

    /// Looks a key and its value up.
    pub fn get_key_value(&self, key: &K) -> (entry: Option<(&K, &V)>) where K: HashKey<S>
        requires
            self.wf(),
        ensures
            match entry {
                Some((k, v)) => {
                    &&& k@ == key@
                    &&& *k == self.held_keys()[key@]
                    &&& self@.contains_key(key@)
                    &&& self@[key@] == *v
                },
                None => !self@.contains_key(key@),
            },
    {
        match self.trie.get(&self.hasher, key) {
            Some(pair) => Some((&*pair.0, &*pair.1)),
            None => None,
        }
    }

    /// Whether the map holds a key.
    pub fn contains_key(&self, key: &K) -> (found: bool) where K: HashKey<S>
        requires
            self.wf(),
        ensures
            found == self@.contains_key(key@),
    {
        self.get(key).is_some()
    }

    /// The value of a key that the map holds.
    pub fn index(&self, key: &K) -> (value: &V) where K: HashKey<S>
        requires
            self.wf(),
            self@.contains_key(key@),
        ensures
            *value == self@[key@],
    {
        self.get(key).unwrap()
    }

    /// Inserts a shared entry and invalidates the fingerprint of keys and
    /// values.
    pub(crate) fn insert_pair(&mut self, key: Arc<K>, value: Arc<V>) -> (replaced: Option<
        Arc<V>,
    >) where K: HashKey<S>
        requires
            old(self).wf(),
            has_room(old(self)@, (*key)@),
        ensures
            final(self).wf(),
            final(self)@ == old(self)@.insert((*key)@, *value),
            final(self).held_keys() == old(self).held_keys().insert((*key)@, *key),
            final(self).top() is Some,
            final(self).state() == old(self).state(),
            final(self).kv_merkle() is None,
            match replaced {
                Some(v) => old(self)@.contains_key((*key)@) && old(self)@[(*key)@] == *v,
                None => !old(self)@.contains_key((*key)@),
            },
    {
        let ghost before = *self;
        let ghost name = (*key)@;
        proof {
            self.lemma_map();
        }
        let hash: u64 = key.hash_with(&self.hasher);
        let replaced = self.trie.insert_mut(&self.hasher, hash, key, value);
        if replaced.is_none() {
            self.key_merkle = self.key_merkle.wrapping_add(fmix64(hash));
        }
        self.kv_merkle_valid = false;
        proof {
            lemma_keys_after_insert(before, *self, name);
        }
        replaced
    }

    /// Inserts a shared entry and keeps the fingerprint of keys and values up to
    /// date.
    pub(crate) fn put_pair(&mut self, key: Arc<K>, value: Arc<V>) -> (replaced: Option<
        Arc<V>,
    >) where K: HashKey<S>, V: HashKey<S>
        requires
            old(self).wf(),
            has_room(old(self)@, (*key)@),
        ensures
            final(self).wf(),
            final(self)@ == old(self)@.insert((*key)@, *value),
            final(self).held_keys() == old(self).held_keys().insert((*key)@, *key),
            final(self).top() is Some,
            final(self).state() == old(self).state(),
            final(self).kv_merkle() is Some == old(self).kv_merkle() is Some,
            old(self).sealed() ==> final(self).sealed(),
            match replaced {
                Some(v) => old(self)@.contains_key((*key)@) && old(self)@[(*key)@] == *v,
                None => !old(self)@.contains_key((*key)@),
            },
    {
        let ghost before = *self;
        let ghost name = (*key)@;
        let ghost held = inside(value);
        proof {
            self.lemma_map();
        }
        let hash: u64 = key.hash_with(&self.hasher);
        let value_hash: u64 = value.hash_with(&self.hasher);
        let replaced = self.trie.insert_mut(&self.hasher, hash, key, value);
        match &replaced {
            Some(old_v) => {
                if self.kv_merkle_valid {
                    let old_value_hash: u64 = old_v.hash_with(&self.hasher);
                    self.kv_merkle_hash =
                    self.kv_merkle_hash.wrapping_sub(
                        fmix64(hash.wrapping_add(old_value_hash)),
                    ).wrapping_add(fmix64(hash.wrapping_add(value_hash)));
                }
            },
            None => {
                self.key_merkle = self.key_merkle.wrapping_add(fmix64(hash));
                if self.kv_merkle_valid {
                    self.kv_merkle_hash =
                    self.kv_merkle_hash.wrapping_add(fmix64(hash.wrapping_add(value_hash)));
                }
            },
        }
        proof {
            lemma_keys_after_insert(before, *self, name);
            lemma_kv_insert::<S, K, V>(before@, before.hasher, name, held);
        }
        replaced
    }

    /// Inserts an entry and returns the value that it replaces.
    pub fn insert(&mut self, k: K, v: V) -> (replaced: Option<V>) where
        K: HashKey<S>,
        V: HashKey<S> + Clone,

        requires
            old(self).wf(),
            has_room(old(self)@, k@),
        ensures
            final(self).wf(),
            final(self)@ == old(self)@.insert(k@, v),
            final(self).held_keys() == old(self).held_keys().insert(k@, k),
            final(self).top() is Some,
            final(self).state() == old(self).state(),
            final(self).kv_merkle() is Some == old(self).kv_merkle() is Some,
            old(self).sealed() ==> final(self).sealed(),
            match replaced {
                Some(old_v) => old(self)@.contains_key(k@) && cloned(old(self)@[k@], old_v),
                None => !old(self)@.contains_key(k@),
            },
    {
        match self.put_pair(Arc::new(k), Arc::new(v)) {
            Some(old_v) => Some(take(old_v)),
            None => None,
        }
    }

    /// Removes the shared entry of a key and keeps the fingerprint of keys and
    /// values up to date.
    pub(crate) fn remove_pair(&mut self, k: &K) -> (removed: Option<Pair<K, V>>) where
        K: HashKey<S>,
        V: HashKey<S>,

        requires
            old(self).wf(),
        ensures
            final(self).wf(),
            final(self)@ == old(self)@.remove(k@),
            final(self).held_keys() == old(self).held_keys().remove(k@),
            final(self).state() == old(self).state(),
            final(self).kv_merkle() is Some == old(self).kv_merkle() is Some,
            old(self).sealed() ==> final(self).sealed(),
            match removed {
                Some(pair) => {
                    &&& old(self)@.contains_key(k@)
                    &&& (*pair.0)@ == k@
                    &&& *pair.0 == old(self).held_keys()[k@]
                    &&& final(self).top() is Some
                    &&& *pair.1 == old(self)@[k@]
                },
                None => !old(self)@.contains_key(k@) && *final(self) == *old(self),
            },
    {
        let ghost before = *self;
        proof {
            self.lemma_map();
        }
        let hash: u64 = k.hash_with(&self.hasher);
        let Some(found) = self.trie.get(&self.hasher, k) else {
            assert(self@ =~= self@.remove(k@));
            assert(self.held_keys() =~= self.held_keys().remove(k@));
            return None;
        };
        let pair = (share(&found.0), share(&found.1));
        let Some(trie) = self.trie.remove(&self.hasher, hash, k) else {
            return None;
        };
        self.trie = trie;
        self.key_merkle = self.key_merkle.wrapping_sub(fmix64(hash));
        if self.kv_merkle_valid {
            let value_hash: u64 = pair.1.hash_with(&self.hasher);
            self.kv_merkle_hash =
            self.kv_merkle_hash.wrapping_sub(fmix64(hash.wrapping_add(value_hash)));
        }
        proof {
            lemma_keys_after_remove(before, *self, k@);
            lemma_kv_remove::<S, K, V>(before@, before.hasher, k@);
        }
        Some(pair)
    }

    /// Removes the shared entry of a key; where there is one, the fingerprint of
    /// keys and values becomes invalid.
    pub(crate) fn remove_pair_invalidate(&mut self, k: &K) -> (removed: Option<Pair<K, V>>) where
        K: HashKey<S>,

        requires
            old(self).wf(),
        ensures
            final(self).wf(),
            final(self)@ == old(self)@.remove(k@),
            final(self).held_keys() == old(self).held_keys().remove(k@),
            final(self).state() == old(self).state(),
            match removed {
                Some(pair) => {
                    &&& old(self)@.contains_key(k@)
                    &&& (*pair.0)@ == k@
                    &&& *pair.0 == old(self).held_keys()[k@]
                    &&& final(self).top() is Some
                    &&& *pair.1 == old(self)@[k@]
                    &&& final(self).kv_merkle() is None
                },
                None => !old(self)@.contains_key(k@) && *final(self) == *old(self),
            },
    {
        let ghost before = *self;
        proof {
            self.lemma_map();
        }
        let hash: u64 = k.hash_with(&self.hasher);
        let Some(found) = self.trie.get(&self.hasher, k) else {
            assert(self@ =~= self@.remove(k@));
            assert(self.held_keys() =~= self.held_keys().remove(k@));
            return None;
        };
        let pair = (share(&found.0), share(&found.1));
        let Some(trie) = self.trie.remove(&self.hasher, hash, k) else {
            return None;
        };
        self.trie = trie;
        self.key_merkle = self.key_merkle.wrapping_sub(fmix64(hash));
        self.kv_merkle_valid = false;
        proof {
            lemma_keys_after_remove(before, *self, k@);
        }
        Some(pair)
    }

    /// Removes a key and returns its value.
    pub fn remove(&mut self, k: &K) -> (removed: Option<V>) where
        K: HashKey<S>,
        V: HashKey<S> + Clone,

        requires
            old(self).wf(),
        ensures
            final(self).wf(),
            final(self)@ == old(self)@.remove(k@),
            final(self).held_keys() == old(self).held_keys().remove(k@),
            final(self).state() == old(self).state(),
            final(self).kv_merkle() is Some == old(self).kv_merkle() is Some,
            old(self).sealed() ==> final(self).sealed(),
            match removed {
                Some(v) => old(self)@.contains_key(k@) && cloned(old(self)@[k@], v),
                None => !old(self)@.contains_key(k@) && *final(self) == *old(self),
            },
    {
        match self.remove_pair(k) {
            Some(pair) => Some(take(pair.1)),
            None => None,
        }
    }

    /// Removes a key and returns it with its value.
    pub fn remove_with_key(&mut self, k: &K) -> (removed: Option<(K, V)>) where
        K: HashKey<S> + Clone,
        V: HashKey<S> + Clone,

        requires
            old(self).wf(),
        ensures
            final(self).wf(),
            final(self)@ == old(self)@.remove(k@),
            final(self).held_keys() == old(self).held_keys().remove(k@),
            final(self).state() == old(self).state(),
            final(self).kv_merkle() is Some == old(self).kv_merkle() is Some,
            old(self).sealed() ==> final(self).sealed(),
            match removed {
                Some((key, v)) => {
                    &&& old(self)@.contains_key(k@)
                    &&& cloned(old(self)@[k@], v)
                    &&& cloned(old(self).held_keys()[k@], key)
                },
                None => !old(self)@.contains_key(k@) && *final(self) == *old(self),
            },
    {
        match self.remove_pair(k) {
            Some(pair) => Some((take(pair.0), take(pair.1))),
            None => None,
        }
    }
}

impl<K, V, S> GenericHashMap<K, V, S> {
    /// Looks the value of a key up for mutation in place, which invalidates the
    /// fingerprint of keys and values. A value that other maps share is cloned
    /// first.
    pub fn get_mut<'a>(&'a mut self, key: &K) -> (value: Option<&'a mut V>) where
        K: HashKey<S>,
        V: Clone,

        requires
            old(self).wf(),
        ensures
            final(self).wf(),
            final(self).held_keys() == old(self).held_keys(),
            final(self).state() == old(self).state(),
            final(self).kv_merkle() is None,
            match value {
                Some(v) => {
                    &&& old(self)@.contains_key(key@)
                    &&& cloned(old(self)@[key@], *v)
                    &&& final(self)@ == old(self)@.insert(key@, *final(v))
                },
                None => !old(self)@.contains_key(key@) && final(self)@ == old(self)@,
            },
    {
        match self.get_key_value_mut(key) {
            Some((_, value)) => Some(value),
            None => None,
        }
    }

    /// The value of a key that is there, for mutation in place.
    pub fn index_mut<'a>(&'a mut self, key: &K) -> (value: &'a mut V) where K: HashKey<S>, V: Clone
        requires
            old(self).wf(),
            old(self)@.contains_key(key@),
        ensures
            final(self).wf(),
            final(self).held_keys() == old(self).held_keys(),
            final(self).state() == old(self).state(),
            final(self).kv_merkle() is None,
            cloned(old(self)@[key@], *value),
            final(self)@ == old(self)@.insert(key@, *final(value)),
    {
        self.get_mut(key).unwrap()
    }

    /// Looks a key and its value up, the value for mutation in place.
    pub fn get_key_value_mut<'a>(&'a mut self, key: &K) -> (entry: Option<
        (&'a K, &'a mut V),
    >) where K: HashKey<S>, V: Clone
        requires
            old(self).wf(),
        ensures
            final(self).wf(),
            final(self).held_keys() == old(self).held_keys(),
            final(self).state() == old(self).state(),
            final(self).kv_merkle() is None,
            match entry {
                Some((k, v)) => {
                    &&& k@ == key@
                    &&& *k == old(self).held_keys()[key@]
                    &&& old(self)@.contains_key(key@)
                    &&& cloned(old(self)@[key@], *v)
                    &&& final(self)@ == old(self)@.insert(key@, *final(v))
                },
                None => !old(self)@.contains_key(key@) && final(self)@ == old(self)@,
            },
    {
        let ghost before = *self;
        let ghost after = *final(self);
        self.kv_merkle_valid = false;
        let hash: u64 = key.hash_with(&self.hasher);
        let found = self.trie.get_mut(&self.hasher, hash, key);
        proof {
            if before@.contains_key(key@) {
                assert(after@.dom() =~= before@.dom());
            }
        }
        match found {
            Some((held, value)) => Some((&**held, own_mut(value))),
            None => None,
        }
    }
}

/// The fingerprint of the keys after an insertion.
proof fn lemma_keys_after_insert<K: HashKey<S>, V, S>(
    before: GenericHashMap<K, V, S>,
    after: GenericHashMap<K, V, S>,
    key: K::V,
)
    requires
        before.wf(),
        after.hasher == before.hasher,
        after.trie@.dom() == before.trie@.dom().insert(key),
        after.key_merkle == if before.trie@.contains_key(key) {
            before.key_merkle
        } else {
            wrap_add(before.key_merkle, fmix64_spec(K::hash_in(key, before.hasher)))
        },
    ensures
        after.key_merkle == key_sum::<S, K>(after.trie@.dom(), after.hasher),
{
    before.lemma_map();
    if before.trie@.contains_key(key) {
        assert(after.trie@.dom() =~= before.trie@.dom());
    } else {
        lemma_sum_insert(before.trie@.dom(), key_weight::<S, K>(before.hasher), key);
    }
}

/// The fingerprint of the keys after a removal.
proof fn lemma_keys_after_remove<K: HashKey<S>, V, S>(
    before: GenericHashMap<K, V, S>,
    after: GenericHashMap<K, V, S>,
    key: K::V,
)
    requires
        before.wf(),
        before.trie@.contains_key(key),
        after.hasher == before.hasher,
        after.trie@ == before.trie@.remove(key),
        after.key_merkle == wrap_sub(
            before.key_merkle,
            fmix64_spec(K::hash_in(key, before.hasher)),
        ),
    ensures
        after.key_merkle == key_sum::<S, K>(after.trie@.dom(), after.hasher),
{
    before.lemma_map();
    lemma_sum_remove(before.trie@.dom(), key_weight::<S, K>(before.hasher), key);
    assert(after.trie@.dom() =~= before.trie@.dom().remove(key));
}

impl<K, V, S: HashState> Clone for GenericHashMap<K, V, S> {
    /// Another map with the same root: no entry is copied.
    fn clone(&self) -> (copy: Self)
        ensures
            copy == *self,
    {
        GenericHashMap {
            trie: self.trie.share_trie(),
            hasher: self.hasher.share_state(),
            lineage: share(&self.lineage),
            key_merkle: self.key_merkle,
            kv_merkle_hash: self.kv_merkle_hash,
            kv_merkle_valid: self.kv_merkle_valid,
        }
    }
}

impl<K: HashKey<S>, V, S: Default> Default for GenericHashMap<K, V, S> {
    fn default() -> (map: Self)
        ensures
            map.wf(),
            map@ == Map::<K::V, V>::empty(),
            map.top() is None,
            map.kv_merkle() == Some(0u64),
            is_default(map.state()),
    {
        Self::new()
    }
}

} // verus!
