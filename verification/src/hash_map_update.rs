//! New hash maps with single keys changed, and hash maps out of lists.
use crate::fingerprint::{entry_weight, map_weight, sum};
use crate::fingerprint::lemma_sum_insert;
use crate::hash_key::{is_default, HashKey, HashState};
use crate::hash_map::GenericHashMap;
use crate::hash_map_make::{accepts_both, accepts_entries, weighs};
use crate::hash_map_ops::{fresh, kept_keys, makes};
use crate::hash_map_ops::lemma_union_len;
use crate::hash_width::fmix64;
use crate::node::distinct;
use crate::random_state::RandomState;
use crate::shared::{inside, share, take};
use crate::trie::{has_room, pairs_map, stored_keys};
use crate::trie::{lemma_seen, lemma_stored, lemma_submap_len};
use std::sync::Arc;
use vstd::prelude::*;

verus! {

/// The map that a list of entries makes when they are inserted one by one, the
/// last value of each key.
pub open spec fn list_map<K: View, V>(map: Map<K::V, V>, list: Seq<(K, V)>) -> Map<K::V, V>
    decreases list.len(),
{
    if list.len() == 0 {
        map
    } else {
        list_map(map, list.drop_last()).insert(list.last().0@, list.last().1)
    }
}

/// The keys themselves that are stored when a list of entries is inserted one by
/// one: of equal keys the last.
pub open spec fn list_keys<K: View, V>(keys: Map<K::V, K>, list: Seq<(K, V)>) -> Map<K::V, K>
    decreases list.len(),
{
    if list.len() == 0 {
        keys
    } else {
        list_keys(keys, list.drop_last()).insert(list.last().0@, list.last().0)
    }
}

/// The keys of all maps of a list, by their views.
pub open spec fn all_keys<K: View, V, S>(maps: Seq<GenericHashMap<K, V, S>>) -> Set<K::V>
    decreases maps.len(),
{
    if maps.len() == 0 {
        Set::empty()
    } else {
        all_keys(maps.drop_last()).union(maps.last()@.dom())
    }
}

/// The hasher state of the union of a list of maps that are joined one after the
/// other to an empty one: at each step that of the larger map stays.
pub open spec fn unions_state<K: View, V, S>(maps: Seq<GenericHashMap<K, V, S>>, start: S) -> S
    decreases maps.len(),
{
    if maps.len() == 0 {
        start
    } else if all_keys(maps.drop_last()).len() >= maps.last()@.len() {
        unions_state(maps.drop_last(), start)
    } else {
        maps.last().state()
    }
}

/// The keys themselves of the union of a list of maps, where at each step `join`
/// tells those of the union of two.
pub open spec fn unions_keys<K: View, V, S>(
    join: spec_fn(Map<K::V, K>, Map<K::V, K>) -> Map<K::V, K>,
    maps: Seq<GenericHashMap<K, V, S>>,
) -> Map<K::V, K>
    decreases maps.len(),
{
    if maps.len() == 0 {
        Map::empty()
    } else {
        join(unions_keys(join, maps.drop_last()), maps.last().held_keys())
    }
}

/// The map of a list that the union of the list is, where it is one of them as it
/// is: the first one that holds something, where those behind it add nothing.
pub open spec fn unions_kept<K: View, V, S>(maps: Seq<GenericHashMap<K, V, S>>) -> Option<
    GenericHashMap<K, V, S>,
>
    decreases maps.len(),
{
    if maps.len() == 0 {
        None
    } else {
        let keys = all_keys(maps.drop_last());
        if maps.last()@.dom().subset_of(keys) {
            unions_kept(maps.drop_last())
        } else if keys == Set::<K::V>::empty() {
            Some(maps.last())
        } else {
            None
        }
    }
}

/// The map of a list that holds something, where it is the only one.
pub open spec fn unions_sole<K: View, V, S>(maps: Seq<GenericHashMap<K, V, S>>) -> Option<
    GenericHashMap<K, V, S>,
>
    decreases maps.len(),
{
    if maps.len() == 0 {
        None
    } else if maps.last()@.len() == 0 {
        unions_sole(maps.drop_last())
    } else if all_keys(maps.drop_last()) == Set::<K::V>::empty() {
        Some(maps.last())
    } else {
        None
    }
}

/// The union of a list of maps, in which the first value of each key stays.
pub open spec fn union_map<M, V>(maps: Seq<Map<M, V>>) -> Map<M, V>
    decreases maps.len(),
{
    if maps.len() == 0 {
        Map::empty()
    } else {
        maps.last().union_prefer_right(union_map(maps.drop_last()))
    }
}

/// The sum of the sizes of a list of maps.
pub open spec fn sizes<K: View, V, S>(maps: Seq<GenericHashMap<K, V, S>>) -> nat
    decreases maps.len(),
{
    if maps.len() == 0 {
        0
    } else {
        sizes(maps.drop_last()) + maps.last()@.len()
    }
}

impl<K, V> GenericHashMap<K, V, RandomState> {
    /// A map of one entry.
    pub fn unit(k: K, v: V) -> (map: Self) where
        K: HashKey<RandomState>,
        V: HashKey<RandomState> + Clone,

        ensures
            map.wf(),
            map.sealed(),
            map@ == Map::<K::V, V>::empty().insert(k@, v),
    {
        let map: Self = GenericHashMap::new();
        map.update(k, v)
    }
}

impl<K, V, S> GenericHashMap<K, V, S> {
    /// A map in which a key has a value.
    pub fn update(&self, k: K, v: V) -> (map: Self) where
        K: HashKey<S>,
        V: HashKey<S> + Clone,
        S: HashState,

        requires
            self.wf(),
            has_room(self@, k@),
        ensures
            map.wf(),
            map@ == self@.insert(k@, v),
            map.held_keys() == self.held_keys().insert(k@, k),
            map.state() == self.state(),
            map.kv_merkle() is Some == self.kv_merkle() is Some,
            self.sealed() ==> map.sealed(),
    {
        let mut out = self.clone();
        out.insert(k, v);
        out
    }

    /// The value of a key, and a map without the key.
    pub fn extract(&self, k: &K) -> (out: Option<(V, Self)>) where
        K: HashKey<S>,
        V: HashKey<S> + Clone,
        S: HashState,

        requires
            self.wf(),
        ensures
            match out {
                Some((v, map)) => {
                    &&& self@.contains_key(k@)
                    &&& cloned(self@[k@], v)
                    &&& map.wf()
                    &&& map@ == self@.remove(k@)
                    &&& map.held_keys() == self.held_keys().remove(k@)
                    &&& map.state() == self.state()
                    &&& map.kv_merkle() is Some == self.kv_merkle() is Some
                    &&& self.sealed() ==> map.sealed()
                },
                None => !self@.contains_key(k@),
            },
    {
        let mut out = self.clone();
        match out.remove(k) {
            Some(v) => Some((v, out)),
            None => None,
        }
    }

    /// The key and the value of a key, and a map without the key.
    pub fn extract_with_key(&self, k: &K) -> (out: Option<(K, V, Self)>) where
        K: HashKey<S> + Clone,
        V: HashKey<S> + Clone,
        S: HashState,

        requires
            self.wf(),
        ensures
            match out {
                Some((key, v, map)) => {
                    &&& self@.contains_key(k@)
                    &&& cloned(self.held_keys()[k@], key)
                    &&& cloned(self@[k@], v)
                    &&& map.wf()
                    &&& map@ == self@.remove(k@)
                    &&& map.held_keys() == self.held_keys().remove(k@)
                    &&& map.state() == self.state()
                    &&& map.kv_merkle() is Some == self.kv_merkle() is Some
                    &&& self.sealed() ==> map.sealed()
                },
                None => !self@.contains_key(k@),
            },
    {
        let mut out = self.clone();
        match out.remove_with_key(k) {
            Some((key, v)) => Some((key, v, out)),
            None => None,
        }
    }

    /// A map without a key.
    pub fn without(&self, k: &K) -> (map: Self) where
        K: HashKey<S>,
        V: HashKey<S> + Clone,
        S: HashState,

        requires
            self.wf(),
        ensures
            map.wf(),
            map@ == self@.remove(k@),
            map.held_keys() == self.held_keys().remove(k@),
            map.state() == self.state(),
            map.kv_merkle() is Some == self.kv_merkle() is Some,
            self.sealed() ==> map.sealed(),
    {
        match self.extract(k) {
            None => {
                proof {
                    self.lemma_map();
                    assert(self@ =~= self@.remove(k@));
                    assert(self.held_keys() =~= self.held_keys().remove(k@));
                }
                self.clone()
            },
            Some((_, map)) => map,
        }
    }

    /// A map in which a key has a value; where it had one already, a function
    /// makes the value out of the old one and the new one.
    pub fn update_with<F: FnOnce(V, V) -> V>(&self, k: K, v: V, f: F) -> (map: Self) where
        K: HashKey<S>,
        V: HashKey<S> + Clone,
        S: HashState,

        requires
            self.wf(),
            has_room(self@, k@),
            self@.contains_key(k@) ==> forall|old_v: V|
                cloned(self@[k@], old_v) ==> #[trigger] f.requires((old_v, v)),
        ensures
            map.wf(),
            map.state() == self.state(),
            map.held_keys() == self.held_keys().insert(k@, k),
            map.kv_merkle() is Some == self.kv_merkle() is Some,
            self.sealed() ==> map.sealed(),
            if self@.contains_key(k@) {
                exists|old_v: V, new_v: V|
                    {
                        &&& cloned(self@[k@], old_v)
                        &&& #[trigger] f.ensures((old_v, v), new_v)
                        &&& map@ == self@.insert(k@, new_v)
                    }
            } else {
                map@ == self@.insert(k@, v)
            },
    {
        proof {
            self.lemma_map();
        }
        match self.extract(&k) {
            None => self.update(k, v),
            Some((old_v, rest)) => {
                let new_v = f(old_v, v);
                let map = rest.update(k, new_v);
                proof {
                    assert(map@ =~= self@.insert(k@, new_v));
                    assert(map.held_keys() =~= self.held_keys().insert(k@, k));
                }
                map
            },
        }
    }

    /// A map in which a key has a value; where it had one already, a function
    /// makes the value out of the key, the old value and the new one.
    pub fn update_with_key<F: FnOnce(&K, V, V) -> V>(&self, k: K, v: V, f: F) -> (map: Self) where
        K: HashKey<S>,
        V: HashKey<S> + Clone,
        S: HashState,

        requires
            self.wf(),
            has_room(self@, k@),
            self@.contains_key(k@) ==> forall|old_v: V|
                cloned(self@[k@], old_v) ==> #[trigger] f.requires((&k, old_v, v)),
        ensures
            map.wf(),
            map.state() == self.state(),
            map.held_keys() == self.held_keys().insert(k@, k),
            map.kv_merkle() is Some == self.kv_merkle() is Some,
            self.sealed() ==> map.sealed(),
            if self@.contains_key(k@) {
                exists|old_v: V, new_v: V|
                    {
                        &&& cloned(self@[k@], old_v)
                        &&& #[trigger] f.ensures((&k, old_v, v), new_v)
                        &&& map@ == self@.insert(k@, new_v)
                    }
            } else {
                map@ == self@.insert(k@, v)
            },
    {
        proof {
            self.lemma_map();
        }
        match self.extract(&k) {
            None => self.update(k, v),
            Some((old_v, rest)) => {
                let new_v = f(&k, old_v, v);
                let map = rest.update(k, new_v);
                proof {
                    assert(map@ =~= self@.insert(k@, new_v));
                    assert(map.held_keys() =~= self.held_keys().insert(k@, k));
                }
                map
            },
        }
    }

    /// A map in which a key has a value; where it had one already, a function
    /// makes the value out of the key, the old value and the new one, and the
    /// old value is returned too.
    pub fn update_lookup_with_key<F: FnOnce(&K, &V, V) -> V>(&self, k: K, v: V, f: F) -> (out: (
        Option<V>,
        Self,
    )) where K: HashKey<S>, V: HashKey<S> + Clone, S: HashState
        requires
            self.wf(),
            has_room(self@, k@),
            self@.contains_key(k@) ==> forall|old_v: V|
                cloned(self@[k@], old_v) ==> #[trigger] f.requires((&k, &old_v, v)),
        ensures
            out.1.wf(),
            out.1.state() == self.state(),
            out.1.held_keys() == self.held_keys().insert(k@, k),
            out.1.kv_merkle() is Some == self.kv_merkle() is Some,
            self.sealed() ==> out.1.sealed(),
            match out.0 {
                Some(old_v) => {
                    &&& self@.contains_key(k@)
                    &&& cloned(self@[k@], old_v)
                    &&& exists|new_v: V| #[trigger]
                        f.ensures((&k, &old_v, v), new_v) && out.1@ == self@.insert(k@, new_v)
                },
                None => !self@.contains_key(k@) && out.1@ == self@.insert(k@, v),
            },
    {
        proof {
            self.lemma_map();
        }
        match self.extract(&k) {
            None => (None, self.update(k, v)),
            Some((old_v, rest)) => {
                let new_v = f(&k, &old_v, v);
                let map = rest.update(k, new_v);
                proof {
                    assert(map@ =~= self@.insert(k@, new_v));
                    assert(map.held_keys() =~= self.held_keys().insert(k@, k));
                }
                (Some(old_v), map)
            },
        }
    }

    /// A map in which a function has decided on a key: it is given the value, or
    /// nothing where there is none, and returns the new value, or nothing to
    /// remove the key.
    pub fn alter<F: FnOnce(Option<V>) -> Option<V>>(&self, f: F, k: K) -> (map: Self) where
        K: HashKey<S>,
        V: HashKey<S> + Clone,
        S: HashState,

        requires
            self.wf(),
            has_room(self@, k@),
            if self@.contains_key(k@) {
                forall|held: V| cloned(self@[k@], held) ==> #[trigger] f.requires((Some(held),))
            } else {
                f.requires((None,))
            },
        ensures
            map.wf(),
            map.state() == self.state(),
            self.sealed() ==> map.sealed(),
            exists|given: Option<V>, decided: Option<V>|
                {
                    &&& #[trigger] f.ensures((given,), decided)
                    &&& given is Some == self@.contains_key(k@)
                    &&& given is Some ==> cloned(self@[k@], given->0)
                    &&& map@ == match decided {
                        Some(v) => self@.insert(k@, v),
                        None => self@.remove(k@),
                    }
                    &&& map.held_keys() == match decided {
                        Some(_) => self.held_keys().insert(k@, k),
                        None => self.held_keys().remove(k@),
                    }
                },
    {
        proof {
            self.lemma_map();
        }
        match self.extract(&k) {
            None => {
                let decided = f(None);
                match decided {
                    None => {
                        proof {
                            assert(self@ =~= self@.remove(k@));
                            assert(self.held_keys() =~= self.held_keys().remove(k@));
                        }
                        self.clone()
                    },
                    Some(v) => self.update(k, v),
                }
            },
            Some((held, rest)) => {
                let decided = f(Some(held));
                match decided {
                    None => rest,
                    Some(v) => {
                        let map = rest.update(k, v);
                        proof {
                            assert(map@ =~= self@.insert(k@, v));
                            assert(map.held_keys() =~= self.held_keys().insert(k@, k));
                        }
                        map
                    },
                }
            },
        }
    }

    /// A map out of a list of entries; of entries with one key, the last stays.
    pub fn from_vec(list: Vec<(K, V)>) -> (map: Self) where
        K: HashKey<S>,
        V: HashKey<S> + Clone,
        S: Default,

        ensures
            map.wf(),
            map.sealed(),
            map.kv_merkle() is Some,
            map@ == list_map(Map::empty(), list@),
            map.held_keys() == list_keys(Map::empty(), list@),
            is_default(map.state()),
    {
        let mut map = Self::new();
        assert(list.len() <= usize::MAX);
        map.extend(list);
        map
    }

    /// Inserts a list of entries, one after the other.
    pub fn extend(&mut self, list: Vec<(K, V)>) where K: HashKey<S>, V: HashKey<S> + Clone
        requires
            old(self).wf(),
            old(self)@.len() + list@.len() <= usize::MAX,
        ensures
            final(self).wf(),
            final(self)@ == list_map(old(self)@, list@),
            final(self).held_keys() == list_keys(old(self).held_keys(), list@),
            final(self).state() == old(self).state(),
            final(self).kv_merkle() is Some == old(self).kv_merkle() is Some,
            old(self).sealed() ==> final(self).sealed(),
    {
        let ghost before = *self;
        let ghost all = list@;
        proof {
            self.lemma_map();
            assert(all.take(0) =~= Seq::<(K, V)>::empty());
        }
        for entry in iter: list.into_iter()
            invariant
                iter.seq() == all,
                before@.len() + all.len() <= usize::MAX,
                self.wf(),
                self@ == list_map(before@, all.take(iter.index())),
                self.held_keys() == list_keys(before.held_keys(), all.take(iter.index())),
                self@.dom().finite(),
                self@.len() <= before@.len() + iter.index(),
                self.state() == before.state(),
                self.kv_merkle() is Some == before.kv_merkle() is Some,
                before.sealed() ==> self.sealed(),
        {
            let ghost i = iter.index();
            proof {
                assert(entry == all[i]);
                assert(all.take(i + 1).drop_last() =~= all.take(i));
                assert(all.take(i + 1).last() == entry);
            }
            self.insert(entry.0, entry.1);
        }
        proof {
            assert(all.take(all.len() as int) =~= all);
        }
    }

    /// Brings the fingerprint of keys and values up to date.
    pub fn recompute_kv_merkle(&mut self) where K: HashKey<S>, V: HashKey<S>
        requires
            old(self).wf(),
        ensures
            final(self).wf(),
            final(self)@ == old(self)@,
            final(self).entries() == old(self).entries(),
            final(self).state() == old(self).state(),
            final(self).top() == old(self).top(),
            final(self).keys_merkle() == old(self).keys_merkle(),
            final(self).kv_merkle() is Some,
            final(self).sealed(),
    {
        let pairs = self.pairs();
        let ghost weight = map_weight::<S, K, V>(self@, self.state());
        let mut merkle: u64 = 0;
        let mut i: usize = 0;
        proof {
            lemma_seen(pairs@, 0);
            assert(pairs_map(pairs@.take(0)).dom() =~= Set::empty());
        }
        while i < pairs.len()
            invariant
                i <= pairs.len(),
                distinct(pairs@),
                self.wf(),
                self@ == pairs_map(pairs@),
                weight == map_weight::<S, K, V>(self@, self.state()),
                merkle == sum(pairs_map(pairs@.take(i as int)).dom(), weight),
            decreases pairs.len() - i,
        {
            let pair = &pairs[i];
            let ghost key = (*pair.0)@;
            let ghost seen = pairs_map(pairs@.take(i as int)).dom();
            proof {
                lemma_seen(pairs@, i as int);
                lemma_sum_insert(seen, weight, key);
                assert(weight(key) == entry_weight::<S, K, V>(key, self@[key], self.state()));
            }
            let key_hash: u64 = pair.0.hash_with(self.hasher());
            let value_hash: u64 = pair.1.hash_with(self.hasher());
            merkle = merkle.wrapping_add(fmix64(key_hash.wrapping_add(value_hash)));
            i += 1;
            proof {
                assert(pairs_map(pairs@.take(i as int)).dom() =~= seen.insert(key));
            }
        }
        proof {
            lemma_seen(pairs@, pairs@.len() as int);
        }
        self.set_kv_merkle(merkle);
    }

    /// The union of a list of maps; of the values of a key, the first stays.
    pub fn unions(maps: Vec<Self>) -> (map: Self) where K: HashKey<S>, S: Default
        requires
            forall|i: int| 0 <= i < maps@.len() ==> (#[trigger] maps@[i]).wf(),
            sizes(maps@) <= usize::MAX,
        ensures
            map.wf(),
            map@ == union_map(maps@.map_values(|m: Self| m@)),
            map.held_keys() == unions_keys(
                |a: Map<K::V, K>, b: Map<K::V, K>| kept_keys(a, b),
                maps@,
            ),
            exists|start: S| #[trigger]
                is_default(start) && map.state() == unions_state(maps@, start),
            match unions_kept(maps@) {
                Some(kept) => map == kept,
                None => if all_keys(maps@) == Set::<K::V>::empty() {
                    fresh(map)
                } else {
                    map.kv_merkle() is None && map.top() is Some
                },
            },
    {
        let ghost all = maps@;
        let ghost views = all.map_values(|m: Self| m@);
        let ghost join = |a: Map<K::V, K>, b: Map<K::V, K>| kept_keys(a, b);
        let mut map = Self::new();
        let ghost start = map.state();
        proof {
            assert(map@.dom() =~= Set::empty());
            assert(views.take(0) =~= Seq::<Map<K::V, V>>::empty());
            assert(all.take(0) =~= Seq::<Self>::empty());
        }
        for next in iter: maps.into_iter()
            invariant
                iter.seq() == all,
                forall|j: int| 0 <= j < all.len() ==> (#[trigger] all[j]).wf(),
                views == all.map_values(|m: Self| m@),
                sizes(all) <= usize::MAX,
                map.wf(),
                map@ == union_map(views.take(iter.index())),
                map@.dom() == all_keys(all.take(iter.index())),
                join == (|a: Map<K::V, K>, b: Map<K::V, K>| kept_keys(a, b)),
                map.held_keys() == unions_keys(join, all.take(iter.index())),
                map.state() == unions_state(all.take(iter.index()), start),
                match unions_kept(all.take(iter.index())) {
                    Some(kept) => map == kept && map@.len() > 0,
                    None => if all_keys(all.take(iter.index())) == Set::<K::V>::empty() {
                        fresh(map)
                    } else {
                        map.kv_merkle() is None && map.top() is Some
                    },
                },
                map@.dom().finite(),
                map@.len() <= sizes(all.take(iter.index())),
        {
            let ghost i = iter.index();
            proof {
                assert(next == all[i]);
                next.lemma_map();
                assert(all.take(i + 1).drop_last() =~= all.take(i));
                lemma_sizes(all, i + 1);
                assert(views.take(i + 1).drop_last() =~= views.take(i));
                assert(views.take(i + 1).last() == next@);
                lemma_union_len(map@, next@);
            }
            let ghost before = map;
            map = map.union(next);
            proof {
                assert(all.take(i + 1).last() == next);
                assert(map@.dom() =~= before@.dom().union(next@.dom()));
                lemma_empty_dom(before@);
                lemma_empty_dom(next@);
                lemma_empty_dom(map@);
                if next@.dom().subset_of(before@.dom()) {
                    vstd::set_lib::lemma_len_subset(next@.dom(), before@.dom());
                }
                if map@.dom() == Set::<K::V>::empty() {
                    assert forall|key: K::V| !next@.dom().contains(key) by {
                        assert(!map@.dom().contains(key));
                    }
                    assert(next@.dom().subset_of(before@.dom()));
                }
            }
        }
        proof {
            assert(views.take(views.len() as int) =~= views);
            assert(all.take(all.len() as int) =~= all);
            assert(is_default(start));
        }
        map
    }

    /// Merges two maps: one function decides on keys of this map only, one on
    /// keys of both maps, and one on keys of the other map only.
    pub fn merge_with<
        V2,
        V3,
        FL: Fn(&K, &V) -> Option<V3>,
        FB: Fn(&K, &V, &V2) -> Option<V3>,
        FR: Fn(&K, &V2) -> Option<V3>,
    >(&self, other: &GenericHashMap<K, V2, S>, left_only: FL, both: FB, right_only: FR) -> (map:
        GenericHashMap<K, V3, S>) where K: HashKey<S>, S: Default
        requires
            self.wf(),
            other.wf(),
            self@.len() + other@.len() <= usize::MAX,
            accepts_entries(left_only, self@),
            accepts_both(both, self@, other@),
            accepts_entries(right_only, other@),
        ensures
            map.wf(),
            fresh(map),
            is_default(map.state()),
            map.held_keys().submap_of(other.held_keys().union_prefer_right(self.held_keys())),
            map@.dom().subset_of(self@.dom().union(other@.dom())),
            forall|key: K::V| #[trigger]
                self@.contains_key(key) ==> if other@.contains_key(key) {
                    weighs(both, key, self@[key], other@[key], map@.get(key))
                } else {
                    makes(left_only, key, self@[key], map@.get(key))
                },
            forall|key: K::V| #[trigger]
                other@.contains_key(key) && !self@.contains_key(key) ==> makes(
                    right_only,
                    key,
                    other@[key],
                    map@.get(key),
                ),
    {
        let mut result = GenericHashMap::<K, V3, S>::new();
        let pairs = self.pairs();
        let mut i: usize = 0;
        proof {
            self.lemma_map();
            other.lemma_map();
            lemma_seen(pairs@, 0);
        }
        while i < pairs.len()
            invariant
                i <= pairs.len(),
                distinct(pairs@),
                self@ == pairs_map(pairs@),
                pairs@.len() <= usize::MAX,
                other.wf(),
                accepts_entries(left_only, self@),
                accepts_both(both, self@, other@),
                result.wf(),
                fresh(result),
                is_default(result.state()),
                self.held_keys() == stored_keys(pairs@),
                result.held_keys().submap_of(self.held_keys()),
                result@.dom().subset_of(pairs_map(pairs@.take(i as int)).dom()),
                forall|key: K::V| #[trigger]
                    pairs_map(pairs@.take(i as int)).contains_key(key) ==> if other@.contains_key(
                        key,
                    ) {
                        weighs(both, key, self@[key], other@[key], result@.get(key))
                    } else {
                        makes(left_only, key, self@[key], result@.get(key))
                    },
            decreases pairs.len() - i,
        {
            let pair = &pairs[i];
            let ghost key = (*pair.0)@;
            let ghost seen = pairs_map(pairs@.take(i as int));
            let ghost before = result@;
            proof {
                lemma_seen(pairs@, i as int);
                lemma_stored(pairs@, i as int);
                assert(self.held_keys().contains_pair(key, inside(pair.0)));
                lemma_submap_len(result@, seen);
                assert(inside(pair.0)@ == key);
            }
            let decided = match other.get(&*pair.0) {
                Some(v2) => {
                    let decided = both(&*pair.0, &*pair.1, v2);
                    proof {
                        assert(weighs(both, key, self@[key], other@[key], decided));
                    }
                    decided
                },
                None => {
                    let decided = left_only(&*pair.0, &*pair.1);
                    proof {
                        assert(makes(left_only, key, self@[key], decided));
                    }
                    decided
                },
            };
            let ghost wanted = decided;
            match decided {
                Some(value) => {
                    result.insert_pair(share(&pair.0), Arc::new(value));
                },
                None => {},
            }
            i += 1;
            proof {
                assert(result@.get(key) == wanted);
                assert forall|k: K::V| #[trigger] seen.contains_key(k) implies result@.get(k)
                    == before.get(k) by {}
            }
        }
        proof {
            lemma_seen(pairs@, pairs@.len() as int);
        }
        let ghost halfway = result@;
        let theirs = other.pairs();
        let mut j: usize = 0;
        proof {
            lemma_seen(theirs@, 0);
            lemma_submap_len(result@, self@);
        }
        while j < theirs.len()
            invariant
                j <= theirs.len(),
                distinct(theirs@),
                self.wf(),
                self@.dom().finite(),
                other@ == pairs_map(theirs@),
                self@.len() + theirs@.len() <= usize::MAX,
                accepts_entries(right_only, other@),
                result.wf(),
                fresh(result),
                is_default(result.state()),
                self.held_keys().dom() == self@.dom(),
                other.held_keys() == stored_keys(theirs@),
                result.held_keys().submap_of(
                    other.held_keys().union_prefer_right(self.held_keys()),
                ),
                result@.dom().subset_of(
                    self@.dom().union(pairs_map(theirs@.take(j as int)).dom()),
                ),
                forall|key: K::V| #[trigger]
                    self@.contains_key(key) ==> result@.get(key) == halfway.get(key),
                forall|key: K::V| #[trigger]
                    pairs_map(theirs@.take(j as int)).contains_key(key) && !self@.contains_key(key)
                        ==> makes(right_only, key, other@[key], result@.get(key)),
            decreases theirs.len() - j,
        {
            let pair = &theirs[j];
            let ghost key = (*pair.0)@;
            let ghost seen = pairs_map(theirs@.take(j as int));
            let ghost before = result@;
            proof {
                lemma_seen(theirs@, j as int);
                lemma_stored(theirs@, j as int);
                assert(other.held_keys().contains_pair(key, inside(pair.0)));
                vstd::set_lib::lemma_len_union(self@.dom(), seen.dom());
                vstd::set_lib::lemma_len_subset(result@.dom(), self@.dom().union(seen.dom()));
                assert(inside(pair.0)@ == key);
            }
            if !self.contains_key(&*pair.0) {
                let decided = right_only(&*pair.0, &*pair.1);
                proof {
                    assert(makes(right_only, key, other@[key], decided));
                    assert(!before.contains_key(key));
                }
                let ghost wanted = decided;
                match decided {
                    Some(value) => {
                        result.insert_pair(share(&pair.0), Arc::new(value));
                    },
                    None => {},
                }
                proof {
                    assert(result@.get(key) == wanted);
                }
            }
            j += 1;
            proof {
                assert forall|k: K::V| #[trigger] seen.contains_key(k) implies result@.get(k)
                    == before.get(k) by {}
                assert forall|k: K::V| #[trigger] self@.contains_key(k) implies result@.get(k)
                    == before.get(k) by {}
            }
        }
        proof {
            lemma_seen(theirs@, theirs@.len() as int);
        }
        result
    }
}

/// A map without keys has no entries.
pub(crate) proof fn lemma_empty_dom<M, V>(map: Map<M, V>)
    requires
        map.dom().finite(),
    ensures
        (map.len() == 0) == (map.dom() == Set::<M>::empty()),
        (map.len() == 0) == (map == Map::<M, V>::empty()),
{
    if map.len() == 0 {
        assert(map.dom() =~= Set::<M>::empty());
        assert(map =~= Map::<M, V>::empty());
    }
}

/// A prefix of a list of maps has no more entries than the list.
pub(crate) proof fn lemma_sizes<K: View, V, S>(maps: Seq<GenericHashMap<K, V, S>>, upto: int)
    requires
        0 <= upto <= maps.len(),
    ensures
        sizes(maps.take(upto)) <= sizes(maps),
    decreases maps.len() - upto,
{
    if upto == maps.len() {
        assert(maps.take(upto) =~= maps);
    } else {
        lemma_sizes(maps, upto + 1);
        assert(maps.take(upto + 1).drop_last() =~= maps.take(upto));
    }
}

} // verus!
