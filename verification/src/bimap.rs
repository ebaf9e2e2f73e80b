//! A persistent bidirectional map.
use crate::fingerprint::kv_sum;
use crate::hash_key::{HashKey, HashState};
use crate::hash_map::GenericHashMap;
use crate::iter::Iter;
use crate::map_iters::{ConsumingIter, Keys, Values};
use crate::map_iters::{keys_of, values_of};
use crate::node::{distinct, Pair};
use crate::random_state::RandomState;
use crate::shared::{inside, share, take};
use crate::trie::{lemma_seen, pairs_map};
use std::sync::Arc;
use vstd::prelude::*;

verus! {

/// A map with a pair added and everything gone that stood in its way: the pairs
/// of the key, and those of the value.
pub open spec fn repaired<M, N>(map: Map<M, N>, key: M, value: N) -> Map<M, N> {
    Map::new(
        |k: M| map.contains_key(k) && map[k] != value,
        |k: M| map[k],
    ).insert(key, value)
}

/// A map with pairs added one after the other.
pub open spec fn repaired_all<M, N>(map: Map<M, N>, pairs: Seq<(M, N)>) -> Map<M, N>
    decreases pairs.len(),
{
    if pairs.len() == 0 {
        map
    } else {
        repaired(repaired_all(map, pairs.drop_last()), pairs.last().0, pairs.last().1)
    }
}

/// The names of a list of pairs: their views.
pub open spec fn pair_names<K: View, V: View>(list: Seq<(K, V)>) -> Seq<(K::V, V::V)> {
    list.map_values(|pair: (K, V)| (pair.0@, pair.1@))
}

/// Whether two bijections of one size and one hasher state have the same
/// fingerprints. Those that differ do so by a chance of one in 2^64.
pub open spec fn same_pair_fingerprints<K: View, V: View, S>(
    a: GenericBiMap<K, V, S>,
    b: GenericBiMap<K, V, S>,
) -> bool {
    &&& a@.len() == b@.len()
    &&& a.state() == b.state()
    &&& a.keys_merkle() == b.keys_merkle()
    &&& a.kv_merkle() is Some
    &&& a.kv_merkle() == b.kv_merkle()
}

/// Whether each value has one key.
pub open spec fn one_to_one<M, N>(map: Map<M, N>) -> bool {
    forall|a: M, b: M| #[trigger]
        map.contains_key(a) && #[trigger] map.contains_key(b) && map[a] == map[b] ==> a == b
}

/// A one-to-one mapping between keys and values, backed by two maps, one in each
/// direction.
pub struct GenericBiMap<K, V, S> {
    forward: GenericHashMap<K, V, S>,
    backward: GenericHashMap<V, K, S>,
}

/// A bidirectional map with the default hasher state.
pub type BiMap<K, V> = GenericBiMap<K, V, RandomState>;

impl<K: View, V: View, S> View for GenericBiMap<K, V, S> {
    type V = Map<K::V, V::V>;

    closed spec fn view(&self) -> Map<K::V, V::V> {
        self.forward@.map_values(|v: V| v@)
    }
}

/// Whether two maps are each other's inverse.
spec fn inverse<K: View, V: View>(forward: Map<K::V, V>, backward: Map<V::V, K>) -> bool {
    &&& forall|k: K::V| #[trigger]
        forward.contains_key(k) ==> backward.contains_key(forward[k]@)
            && backward[forward[k]@]@ == k
    &&& forall|v: V::V| #[trigger]
        backward.contains_key(v) ==> forward.contains_key(backward[v]@)
            && forward[backward[v]@]@ == v
    &&& forward.len() == backward.len()
}

/// One side of a bijection with a pair put in: what stood under the name, and
/// what had the view of the new item, is gone.
pub open spec fn rehung<M, W: View>(held: Map<M, W>, name: M, item: W) -> Map<M, W> {
    Map::new(
        |other: M| other == name || (held.contains_key(other) && held[other]@ != item@),
        |other: M|
            if other == name {
                item
            } else {
                held[other]
            },
    )
}

/// The values themselves, by the views of their keys, when a list of pairs is put
/// in one by one.
pub open spec fn rehung_values<K: View, V: View>(held: Map<K::V, V>, list: Seq<(K, V)>) -> Map<
    K::V,
    V,
>
    decreases list.len(),
{
    if list.len() == 0 {
        held
    } else {
        rehung(rehung_values(held, list.drop_last()), list.last().0@, list.last().1)
    }
}

/// The keys themselves, by the views of their values, when a list of pairs is put
/// in one by one.
pub open spec fn rehung_keys<K: View, V: View>(held: Map<V::V, K>, list: Seq<(K, V)>) -> Map<
    V::V,
    K,
>
    decreases list.len(),
{
    if list.len() == 0 {
        held
    } else {
        rehung(rehung_keys(held, list.drop_last()), list.last().1@, list.last().0)
    }
}

/// The pairs of a list of shared pairs.
pub open spec fn plain_pairs<K, V>(pairs: Seq<Pair<K, V>>) -> Seq<(K, V)> {
    pairs.map_values(|pair: Pair<K, V>| (*pair.0, *pair.1))
}

impl<K, V, S> GenericBiMap<K, V, S> {
    /// The pairs, in the order in which they are walked.
    pub closed spec fn entries(self) -> Seq<Pair<K, V>> {
        self.forward.entries()
    }

    /// The values themselves, by the views of their keys.
    pub closed spec fn held_values(self) -> Map<K::V, V> where K: View {
        self.forward@
    }

    /// The keys themselves, by the views of their values.
    pub closed spec fn held_keys(self) -> Map<V::V, K> where V: View {
        self.backward@
    }

    /// The hasher state of the map from keys to values.
    pub closed spec fn state(self) -> S {
        self.forward.state()
    }

    /// The fingerprint of the keys.
    pub closed spec fn keys_merkle(self) -> u64 {
        self.forward.keys_merkle()
    }

    /// The fingerprint of the pairs, where it is valid.
    pub closed spec fn kv_merkle(self) -> Option<u64> {
        self.forward.kv_merkle()
    }

    /// Whether the fingerprint of the pairs is valid and right.
    pub open spec fn sealed(self) -> bool where K: HashKey<S>, V: HashKey<S> {
        self.kv_merkle() == Some(kv_sum::<S, K, V>(self.held_values(), self.state()))
    }

    /// Whether both maps are well formed, each is the inverse of the other, and the
    /// fingerprint of the pairs is right.
    pub closed spec fn wf(self) -> bool where K: HashKey<S>, V: HashKey<S> {
        &&& self.forward.wf()
        &&& self.backward.wf()
        &&& inverse(self.forward@, self.backward@)
        &&& self.forward.kv_merkle() is Some
        &&& self.forward.sealed()
    }

    /// The mapping is one to one: each key has one value, and each value has one
    /// key.
    pub proof fn law_bijection(self) where K: HashKey<S>, V: HashKey<S>
        requires
            self.wf(),
        ensures
            one_to_one(self@),
            self.sealed(),
            self@.dom().finite(),
            self@.len() <= usize::MAX,
            self.entries().len() == self@.len(),
            self@ == pairs_map(self.entries()).map_values(|v: V| v@),
            self.held_values() == pairs_map(self.entries()),
            forall|key: K::V| #[trigger]
                self@.contains_key(key) ==> self.held_keys().contains_key(self@[key])
                    && self.held_keys()[self@[key]]@ == key,
            forall|value: V::V| #[trigger]
                self.held_keys().contains_key(value) ==> self@.contains_key(
                    self.held_keys()[value]@,
                ) && self@[self.held_keys()[value]@] == value,
    {
        self.forward.lemma_map();
        assert(self@.dom() =~= self.forward@.dom());
        assert forall|a: K::V, b: K::V| #[trigger]
            self@.contains_key(a) && #[trigger] self@.contains_key(b) && self@[a]
                == self@[b] implies a == b by {
            assert(self.forward@.contains_key(a) && self.forward@.contains_key(b));
        }
    }

    /// The entries have distinct keys.
    pub(crate) proof fn lemma_entries(self) where K: HashKey<S>, V: HashKey<S>
        requires
            self.wf(),
        ensures
            distinct(self.entries()),
    {
        self.forward.lemma_map();
    }

    /// An empty map with default hasher states.
    pub fn new() -> (map: Self) where K: HashKey<S>, V: HashKey<S>, S: Default
        ensures
            map.wf(),
            map@ == Map::<K::V, V::V>::empty(),
            map.held_values() == Map::<K::V, V>::empty(),
            map.held_keys() == Map::<V::V, K>::empty(),
    {
        let map = GenericBiMap { forward: GenericHashMap::new(), backward: GenericHashMap::new() };
        proof {
            assert(map@ =~= Map::<K::V, V::V>::empty());
        }
        map
    }

    /// Whether the map has no pairs.
    pub fn is_empty(&self) -> (empty: bool) where K: HashKey<S>, V: HashKey<S>
        requires
            self.wf(),
        ensures
            empty == (self@ == Map::<K::V, V::V>::empty()),
    {
        proof {
            if self.forward@ == Map::<K::V, V>::empty() {
                assert(self@ =~= Map::<K::V, V::V>::empty());
            } else if self@ == Map::<K::V, V::V>::empty() {
                assert forall|k: K::V| !self.forward@.contains_key(k) by {
                    assert(!self@.contains_key(k));
                }
                assert(self.forward@ =~= Map::<K::V, V>::empty());
            }
        }
        self.forward.is_empty()
    }

    /// Number of pairs.
    pub fn len(&self) -> (n: usize) where K: HashKey<S>, V: HashKey<S>
        requires
            self.wf(),
        ensures
            n == self@.len(),
    {
        proof {
            assert(self@.dom() =~= self.forward@.dom());
        }
        self.forward.len()
    }

    /// Inserts a shared pair and returns the pairs that it displaces: the value
    /// that the key had, and the key that the value had.
    fn insert_shared(&mut self, key: Arc<K>, value: Arc<V>) -> (displaced: (
        Option<Arc<V>>,
        Option<Arc<K>>,
    )) where K: HashKey<S>, V: HashKey<S>
        requires
            old(self).wf(),
            old(self)@.len() < usize::MAX || old(self)@.contains_key((*key)@)
                || old(self)@.contains_value((*value)@),
        ensures
            final(self).wf(),
            final(self)@ == repaired(old(self)@, (*key)@, (*value)@),
            match displaced.0 {
                Some(v) => {
                    &&& old(self)@.contains_key((*key)@)
                    &&& (*v)@ == old(self)@[(*key)@]
                    &&& *v == old(self).held_values()[(*key)@]
                },
                None => !old(self)@.contains_key((*key)@),
            },
            match displaced.1 {
                Some(k) => {
                    &&& old(self)@.contains_key((*k)@)
                    &&& old(self)@[(*k)@] == (*value)@
                    &&& *k == old(self).held_keys()[(*value)@]
                },
                None => !old(self)@.contains_value((*value)@),
            },
            final(self).held_values() == rehung(old(self).held_values(), (*key)@, *value),
            final(self).held_keys() == rehung(old(self).held_keys(), (*value)@, *key),
    {
        let ghost k = (*key)@;
        let ghost v = (*value)@;
        let ghost there = self.forward@;
        let ghost back = self.backward@;
        proof {
            self.forward.lemma_map();
            self.backward.lemma_map();
            assert(self@.dom() =~= there.dom());
            if self@.contains_value(v) {
                let x = choose|x: K::V| self@.contains_key(x) && self@[x] == v;
                assert(there.contains_key(x));
                assert(back.contains_key(v));
            }
            if back.contains_key(v) {
                assert(self@.contains_key(back[v]@) && self@[back[v]@] == v);
            }
        }
        let old_value = self.forward.remove_pair(&*key);
        let old_key = self.backward.remove_pair(&*value);
        let ghost there1 = self.forward@;
        let ghost back1 = self.backward@;
        proof {
            self.forward.lemma_map();
            self.backward.lemma_map();
        }
        match &old_value {
            Some(pair) => {
                self.backward.remove_pair(&*pair.1);
            },
            None => {},
        }
        match &old_key {
            Some(pair) => {
                self.forward.remove_pair(&*pair.1);
            },
            None => {},
        }
        let ghost there2 = self.forward@;
        let ghost back2 = self.backward@;
        proof {
            self.forward.lemma_map();
            self.backward.lemma_map();
            if there.contains_key(k) {
                assert(back.contains_key(there[k]@));
            }
            if back.contains_key(v) {
                assert(there.contains_key(back[v]@));
            }
            assert(there2 =~= if back.contains_key(v) {
                there.remove(k).remove(back[v]@)
            } else {
                there.remove(k)
            });
            assert(back2 =~= if there.contains_key(k) {
                back.remove(v).remove(there[k]@)
            } else {
                back.remove(v)
            });
            assert(inverse(there2, back2));
            assert(!there2.contains_key(k));
            assert(!back2.contains_key(v));
        }
        let ghost new_key = inside(key);
        let ghost new_value = inside(value);
        self.forward.put_pair(share(&key), share(&value));
        self.backward.put_pair(value, key);
        proof {
            assert(self.held_values() =~= rehung(there, k, new_value));
            assert forall|x: V::V| back2.contains_key(x) == (back.contains_key(x) && x != v
                && back[x]@ != k) by {
                if back.contains_key(x) {
                    assert(there.contains_key(back[x]@));
                }
            }
            assert(self.held_keys() =~= rehung(back, v, new_key));
            assert(inverse(self.forward@, self.backward@));
            assert forall|x: K::V| there2.contains_key(x) == (there.contains_key(x) && x != k
                && there[x]@ != v) by {
                if there.contains_key(x) {
                    assert(back.contains_key(there[x]@));
                }
            }
            assert(self@ =~= repaired(old(self)@, k, v));
        }
        let displaced_value = match old_value {
            Some(pair) => Some(pair.1),
            None => None,
        };
        let displaced_key = match old_key {
            Some(pair) => Some(pair.1),
            None => None,
        };
        (displaced_value, displaced_key)
    }

    /// Inserts a pair. Any pair of the key and any pair of the value is gone
    /// then; where there was one, the value that the key had and the key that
    /// the value had are returned.
    pub fn insert(&mut self, key: K, value: V) -> (displaced: Option<(Option<V>, Option<K>)>) where
        K: HashKey<S> + Clone,
        V: HashKey<S> + Clone,

        requires
            old(self).wf(),
            old(self)@.len() < usize::MAX || old(self)@.contains_key(key@)
                || old(self)@.contains_value(value@),
        ensures
            final(self).wf(),
            final(self)@ == repaired(old(self)@, key@, value@),
            final(self).held_values() == rehung(old(self).held_values(), key@, value),
            final(self).held_keys() == rehung(old(self).held_keys(), value@, key),
            (displaced is None) == (!old(self)@.contains_key(key@) && !old(self)@.contains_value(
                value@,
            )),
            displaced matches Some((old_value, old_key)) ==> {
                &&& match old_value {
                    Some(v) => old(self)@.contains_key(key@) && cloned(
                        old(self).held_values()[key@],
                        v,
                    ),
                    None => !old(self)@.contains_key(key@),
                }
                &&& match old_key {
                    Some(k) => old(self)@.contains_value(value@) && cloned(
                        old(self).held_keys()[value@],
                        k,
                    ),
                    None => !old(self)@.contains_value(value@),
                }
            },
    {
        let ghost before = self@;
        let ghost v = value@;
        let (old_value, old_key) = self.insert_shared(Arc::new(key), Arc::new(value));
        let gone = old_value.is_some() || old_key.is_some();
        let old_value = match old_value {
            Some(held) => Some(take(held)),
            None => None,
        };
        let old_key = match old_key {
            Some(held) => {
                proof {
                    assert(before.contains_key(inside(held)@) && before[inside(held)@] == v);
                    assert(before.contains_value(v));
                }
                Some(take(held))
            },
            None => None,
        };
        if gone {
            Some((old_value, old_key))
        } else {
            None
        }
    }

    /// The value of a key.
    pub fn get_by_key(&self, key: &K) -> (value: Option<&V>) where K: HashKey<S>, V: HashKey<S>
        requires
            self.wf(),
        ensures
            match value {
                Some(v) => self@.contains_key(key@) && v@ == self@[key@],
                None => !self@.contains_key(key@),
            },
    {
        self.forward.get(key)
    }

    /// The key of a value.
    pub fn get_by_value(&self, value: &V) -> (key: Option<&K>) where K: HashKey<S>, V: HashKey<S>
        requires
            self.wf(),
        ensures
            match key {
                Some(k) => self@.contains_key(k@) && self@[k@] == value@,
                None => !self@.contains_value(value@),
            },
    {
        proof {
            self.lemma_values(value@);
        }
        self.backward.get(value)
    }

    /// The values are the keys of the map back.
    proof fn lemma_values(self, value: V::V) where K: HashKey<S>, V: HashKey<S>
        requires
            self.wf(),
        ensures
            self@.contains_value(value) == self.backward@.contains_key(value),
    {
        if self@.contains_value(value) {
            let x = choose|x: K::V| self@.contains_key(x) && self@[x] == value;
            assert(self.forward@.contains_key(x));
        }
        if self.backward@.contains_key(value) {
            let x = self.backward@[value]@;
            assert(self@.contains_key(x) && self@[x] == value);
        }
    }

    /// Whether the map holds a key.
    pub fn contains_key(&self, key: &K) -> (found: bool) where K: HashKey<S>, V: HashKey<S>
        requires
            self.wf(),
        ensures
            found == self@.contains_key(key@),
    {
        self.forward.contains_key(key)
    }

    /// Whether the map holds a value.
    pub fn contains_value(&self, value: &V) -> (found: bool) where K: HashKey<S>, V: HashKey<S>
        requires
            self.wf(),
        ensures
            found == self@.contains_value(value@),
    {
        proof {
            self.lemma_values(value@);
        }
        self.backward.contains_key(value)
    }

    /// Removes the pair of a key and returns its value.
    pub fn remove_by_key(&mut self, key: &K) -> (removed: Option<V>) where
        K: HashKey<S>,
        V: HashKey<S> + Clone,

        requires
            old(self).wf(),
        ensures
            final(self).wf(),
            final(self)@ == old(self)@.remove(key@),
            match removed {
                Some(v) => old(self)@.contains_key(key@) && cloned(
                    old(self).held_values()[key@],
                    v,
                ),
                None => !old(self)@.contains_key(key@),
            },
            final(self).held_values() == old(self).held_values().remove(key@),
            final(self).held_keys().submap_of(old(self).held_keys()),
    {
        let ghost there = self.forward@;
        let ghost back = self.backward@;
        proof {
            self.forward.lemma_map();
            self.backward.lemma_map();
        }
        match self.forward.remove_pair(key) {
            Some(pair) => {
                proof {
                    assert(there.contains_key(key@));
                    assert(back.contains_key(there[key@]@));
                }
                self.backward.remove_pair(&*pair.1);
                proof {
                    assert(inverse(self.forward@, self.backward@));
                    assert(self@ =~= old(self)@.remove(key@));
                }
                Some(take(pair.1))
            },
            None => {
                proof {
                    assert(self@ =~= old(self)@.remove(key@));
                }
                None
            },
        }
    }

    /// Removes the pair of a value and returns its key.
    pub fn remove_by_value(&mut self, value: &V) -> (removed: Option<K>) where
        K: HashKey<S> + Clone,
        V: HashKey<S>,

        requires
            old(self).wf(),
        ensures
            final(self).wf(),
            match removed {
                Some(k) => {
                    let held = old(self).held_keys()[value@];
                    &&& old(self)@.contains_key(held@)
                    &&& old(self)@[held@] == value@
                    &&& final(self)@ == old(self)@.remove(held@)
                    &&& cloned(held, k)
                },
                None => !old(self)@.contains_value(value@) && final(self)@ == old(self)@,
            },
            final(self).held_keys() == old(self).held_keys().remove(value@),
            final(self).held_values().submap_of(old(self).held_values()),
    {
        let ghost there = self.forward@;
        let ghost back = self.backward@;
        proof {
            self.forward.lemma_map();
            self.backward.lemma_map();
            self.lemma_values(value@);
        }
        match self.backward.remove_pair(value) {
            Some(pair) => {
                proof {
                    assert(back.contains_key(value@));
                    assert(there.contains_key(back[value@]@));
                }
                self.forward.remove_pair(&*pair.1);
                let ghost name = inside(pair.1)@;
                proof {
                    assert(inverse(self.forward@, self.backward@));
                    assert(self@ =~= old(self)@.remove(name));
                    assert(old(self)@.contains_key(name));
                }
                Some(take(pair.1))
            },
            None => None,
        }
    }

    /// An iterator over the pairs.
    pub fn iter<'a>(&'a self) -> (iter: Iter<'a, K, V>) where K: HashKey<S>, V: HashKey<S>
        requires
            self.wf(),
        ensures
            iter.wf(),
            iter@ == self.entries(),
    {
        self.forward.iter()
    }

    /// An iterator over the keys, in the order of the pairs.
    pub fn keys<'a>(&'a self) -> (keys: Keys<'a, K, V>) where K: HashKey<S>, V: HashKey<S>
        requires
            self.wf(),
        ensures
            keys.wf(),
            keys@ == keys_of(self.entries()),
    {
        self.forward.keys()
    }

    /// An iterator over the values, in the order of the pairs.
    pub fn values<'a>(&'a self) -> (values: Values<'a, K, V>) where K: HashKey<S>, V: HashKey<S>
        requires
            self.wf(),
        ensures
            values.wf(),
            values@ == values_of(self.entries()),
    {
        self.forward.values()
    }

    /// An iterator that hands the pairs out, in their order.
    pub fn into_iter(self) -> (iter: ConsumingIter<K, V>) where K: HashKey<S>, V: HashKey<S>
        requires
            self.wf(),
        ensures
            iter@ == self.entries(),
    {
        self.forward.into_iter()
    }

    /// Tests two maps for equality. Maps of one lineage with the same fingerprints
    /// are taken to be equal; other maps are compared pair by pair.
    pub fn test_eq(&self, other: &Self) -> (equal: bool) where
        K: HashKey<S>,
        V: HashKey<S>,
        S: HashState,

        requires
            self.wf(),
            other.wf(),
        ensures
            self@ == other@ ==> equal,
            equal ==> self@ == other@ || same_pair_fingerprints(*self, *other),
    {
        let same_lineage = self.forward.same_lineage(&other.forward);
        self.test_eq_with(other, same_lineage)
    }

    /// Tests two maps for equality, given whether they have one lineage.
    pub fn test_eq_with(&self, other: &Self, same_lineage: bool) -> (equal: bool) where
        K: HashKey<S>,
        V: HashKey<S>,
        S: HashState,

        requires
            self.wf(),
            other.wf(),
        ensures
            equal == (self@ == other@ || (same_lineage && same_pair_fingerprints(*self, *other))),
    {
        proof {
            self.forward.lemma_map();
            other.forward.lemma_map();
            assert(self@.dom() =~= self.forward@.dom());
            assert(other@.dom() =~= other.forward@.dom());
        }
        if self.len() != other.len() {
            return false;
        }
        if self.forward.ptr_eq(&other.forward) {
            return true;
        }
        if same_lineage && self.forward.has_root() && other.forward.has_root()
            && self.forward.hasher().same_state(other.forward.hasher()) {
            if self.forward.merkle_hash() != other.forward.merkle_hash() {
                return false;
            }
            match (self.forward.kv_merkle_hash(), other.forward.kv_merkle_hash()) {
                (Some(a), Some(b)) => {
                    if a == b {
                        return true;
                    }
                },
                _ => {},
            }
        }
        proof {
            if self@.len() == 0 {
                assert(self@ =~= Map::<K::V, V::V>::empty());
                assert(other@ =~= Map::<K::V, V::V>::empty());
            }
        }
        self.same_pairs(other)
    }

    /// Compares two maps of one size pair by pair.
    fn same_pairs(&self, other: &Self) -> (same: bool) where K: HashKey<S>, V: HashKey<S>
        requires
            self.wf(),
            other.wf(),
            self@.len() == other@.len(),
        ensures
            same == (self@ == other@),
    {
        let pairs = self.forward.pairs();
        let mut i: usize = 0;
        proof {
            self.law_bijection();
            other.law_bijection();
            lemma_seen(pairs@, 0);
        }
        while i < pairs.len()
            invariant
                i <= pairs.len(),
                distinct(pairs@),
                other.wf(),
                self.forward@ == pairs_map(pairs@),
                forall|k: K::V| #[trigger]
                    pairs_map(pairs@.take(i as int)).contains_key(k) ==> other@.contains_key(k)
                        && other@[k] == self@[k],
            decreases pairs.len() - i,
        {
            let pair = &pairs[i];
            proof {
                lemma_seen(pairs@, i as int);
                lemma_seen(pairs@, i + 1);
                assert(self@.contains_key((*pair.0)@) && self@[(*pair.0)@] == (*pair.1)@);
            }
            match other.get_by_key(&*pair.0) {
                Some(value) => {
                    if !value.same_key(&*pair.1) {
                        return false;
                    }
                },
                None => {
                    return false;
                },
            }
            i += 1;
        }
        proof {
            lemma_seen(pairs@, pairs@.len() as int);
            assert(self@.dom() =~= self.forward@.dom());
            assert(self@.dom().subset_of(other@.dom()));
            vstd::set_lib::lemma_subset_equality(self@.dom(), other@.dom());
            assert(self@ =~= other@);
        }
        true
    }

    /// Inserts every pair of a list, one after the other.
    pub fn extend(&mut self, list: Vec<(K, V)>) where K: HashKey<S>, V: HashKey<S>
        requires
            old(self).wf(),
            old(self)@.len() + list@.len() <= usize::MAX,
        ensures
            final(self).wf(),
            final(self)@ == repaired_all(old(self)@, pair_names(list@)),
            final(self).held_values() == rehung_values(old(self).held_values(), list@),
            final(self).held_keys() == rehung_keys(old(self).held_keys(), list@),
    {
        let ghost all = list@;
        let ghost named = pair_names(all);
        proof {
            self.law_bijection();
            assert(named.take(0) =~= Seq::<(K::V, V::V)>::empty());
            assert(all.take(0) =~= Seq::<(K, V)>::empty());
        }
        for pair in iter: list.into_iter()
            invariant
                iter.seq() == all,
                named == pair_names(all),
                self.wf(),
                old(self)@.len() + all.len() <= usize::MAX,
                self@.len() <= old(self)@.len() + iter.index(),
                self@ == repaired_all(old(self)@, named.take(iter.index() as int)),
                self.held_values() == rehung_values(
                    old(self).held_values(),
                    all.take(iter.index() as int),
                ),
                self.held_keys() == rehung_keys(
                    old(self).held_keys(),
                    all.take(iter.index() as int),
                ),
        {
            let ghost i = iter.index();
            let ghost before = self@;
            let ghost k = pair.0@;
            let ghost v = pair.1@;
            proof {
                assert(pair == all[i as int]);
                self.law_bijection();
            }
            self.insert_shared(Arc::new(pair.0), Arc::new(pair.1));
            proof {
                assert(named.take(i + 1).drop_last() =~= named.take(i as int));
                assert(all.take(i + 1).drop_last() =~= all.take(i as int));
                assert(named.take(i + 1).last() == (k, v));
                assert(self@.dom().subset_of(before.dom().insert(k)));
                vstd::set_lib::lemma_len_subset(self@.dom(), before.dom().insert(k));
            }
        }
        proof {
            assert(named.take(named.len() as int) =~= named);
            assert(all.take(all.len() as int) =~= all);
        }
    }

    /// Inserts every pair of another map, in the order of its walk.
    pub(crate) fn absorb(&mut self, other: &Self) where K: HashKey<S>, V: HashKey<S>
        requires
            old(self).wf(),
            other.wf(),
            old(self)@.len() + other@.len() <= usize::MAX,
        ensures
            final(self).wf(),
            final(self)@ == repaired_all(old(self)@, pair_names(plain_pairs(other.entries()))),
            final(self).held_values() == rehung_values(
                old(self).held_values(),
                plain_pairs(other.entries()),
            ),
            final(self).held_keys() == rehung_keys(
                old(self).held_keys(),
                plain_pairs(other.entries()),
            ),
    {
        let pairs = other.forward.pairs();
        let ghost all = plain_pairs(other.entries());
        let ghost named = pair_names(all);
        let mut i: usize = 0;
        proof {
            self.law_bijection();
            other.law_bijection();
            assert(named.take(0) =~= Seq::<(K::V, V::V)>::empty());
            assert(all.take(0) =~= Seq::<(K, V)>::empty());
        }
        while i < pairs.len()
            invariant
                i <= pairs@.len(),
                pairs@ == other.entries(),
                all == plain_pairs(pairs@),
                named == pair_names(all),
                self.wf(),
                old(self)@.len() + pairs@.len() <= usize::MAX,
                self@.len() <= old(self)@.len() + i,
                self@ == repaired_all(old(self)@, named.take(i as int)),
                self.held_values() == rehung_values(old(self).held_values(), all.take(i as int)),
                self.held_keys() == rehung_keys(old(self).held_keys(), all.take(i as int)),
            decreases pairs@.len() - i,
        {
            let ghost before = self@;
            let ghost k = (*pairs@[i as int].0)@;
            proof {
                self.law_bijection();
                assert(named.take(i + 1).drop_last() =~= named.take(i as int));
                assert(all.take(i + 1).drop_last() =~= all.take(i as int));
            }
            self.insert_shared(share(&pairs[i].0), share(&pairs[i].1));
            proof {
                self.law_bijection();
                assert(self@.dom().subset_of(before.dom().insert(k)));
                vstd::set_lib::lemma_len_subset(self@.dom(), before.dom().insert(k));
            }
            i += 1;
        }
        proof {
            assert(named.take(named.len() as int) =~= named);
            assert(all.take(all.len() as int) =~= all);
        }
    }

    /// The map of a list of pairs, inserted one after the other.
    pub fn from_vec(list: Vec<(K, V)>) -> (map: Self) where
        K: HashKey<S>,
        V: HashKey<S>,
        S: Default,

        ensures
            map.wf(),
            map@ == repaired_all(Map::empty(), pair_names(list@)),
            map.held_values() == rehung_values(Map::empty(), list@),
            map.held_keys() == rehung_keys(Map::empty(), list@),
    {
        let mut map = Self::new();
        proof {
            assert(list@.len() == list.len());
        }
        map.extend(list);
        map
    }
}

impl<K, V, S: HashState> Clone for GenericBiMap<K, V, S> {
    /// Another map with the same roots: no pair is copied.
    fn clone(&self) -> (copy: Self)
        ensures
            copy == *self,
    {
        GenericBiMap { forward: self.forward.clone(), backward: self.backward.clone() }
    }
}

impl<K: HashKey<S>, V: HashKey<S>, S: Default> Default for GenericBiMap<K, V, S> {
    fn default() -> (map: Self)
        ensures
            map.wf(),
            map@ == Map::<K::V, V::V>::empty(),
    {
        Self::new()
    }
}

} // verus!
