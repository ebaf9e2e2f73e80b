//! Entries of a hash map, for reading and writing in place.
use crate::hash_key::HashKey;
use crate::hash_map::GenericHashMap;
use crate::shared::{share, take};
use crate::trie::has_room;
use std::sync::Arc;
use vstd::prelude::*;

verus! {

/// The place of a key in a map, which holds the key or does not.
pub enum Entry<'a, K, V, S> {
    /// The map holds the key.
    Occupied(OccupiedEntry<'a, K, V, S>),
    /// The map does not hold the key.
    Vacant(VacantEntry<'a, K, V, S>),
}

/// The place of a key that the map holds.
pub struct OccupiedEntry<'a, K, V, S> {
    /// The map.
    pub map: &'a mut GenericHashMap<K, V, S>,
    /// The key.
    pub key: K,
}

/// The place of a key that the map does not hold.
pub struct VacantEntry<'a, K, V, S> {
    /// The map.
    pub map: &'a mut GenericHashMap<K, V, S>,
    /// The key.
    pub key: K,
}

impl<K, V, S> GenericHashMap<K, V, S> {
    /// The place of a key.
    pub fn entry<'a>(&'a mut self, key: K) -> (entry: Entry<'a, K, V, S>) where K: HashKey<S>
        requires
            old(self).wf(),
        ensures
            match entry {
                Entry::Occupied(place) => {
                    &&& old(self)@.contains_key(key@)
                    &&& place.key == key
                    &&& *place.map == *old(self)
                    &&& *final(place.map) == *final(self)
                },
                Entry::Vacant(place) => {
                    &&& !old(self)@.contains_key(key@)
                    &&& place.key == key
                    &&& *place.map == *old(self)
                    &&& *final(place.map) == *final(self)
                },
            },
    {
        if self.contains_key(&key) {
            Entry::Occupied(OccupiedEntry { map: self, key })
        } else {
            Entry::Vacant(VacantEntry { map: self, key })
        }
    }
}

impl<'a, K, V, S> OccupiedEntry<'a, K, V, S> {
    /// The key.
    pub fn key(&self) -> (key: &K)
        ensures
            *key == self.key,
    {
        &self.key
    }

    /// The value.
    pub fn get(&self) -> (value: &V) where K: HashKey<S>
        requires
            self.map.wf(),
            self.map@.contains_key(self.key@),
        ensures
            *value == old(self.map)@[self.key@],
    {
        self.map.get(&self.key).unwrap()
    }

    /// The value, for mutation in place.
    pub fn get_mut(&mut self) -> (value: &mut V) where K: HashKey<S>, V: Clone
        requires
            old(self).map.wf(),
            old(self).map@.contains_key(old(self).key@),
        ensures
            final(self).key == old(self).key,
            cloned(old(self).map@[old(self).key@], *value),
            final(self).map.wf(),
            final(self).map@ == old(self).map@.insert(old(self).key@, *final(value)),
            final(self).map.held_keys() == old(self).map.held_keys(),
            final(self).map.state() == old(self).map.state(),
            final(self).map.kv_merkle() is None,
            *final(final(self).map) == *final(old(self).map),
    {
        self.map.get_mut(&self.key).unwrap()
    }

    /// The value, for mutation in place as long as the map is borrowed.
    pub fn into_mut(self) -> (value: &'a mut V) where K: HashKey<S>, V: Clone
        requires
            self.map.wf(),
            self.map@.contains_key(self.key@),
        ensures
            cloned(old(self.map)@[self.key@], *value),
            final(self.map).wf(),
            final(self.map)@ == old(self.map)@.insert(self.key@, *final(value)),
            final(self.map).held_keys() == old(self.map).held_keys(),
            final(self.map).state() == old(self.map).state(),
            final(self.map).kv_merkle() is None,
    {
        self.map.get_mut(&self.key).unwrap()
    }

    /// Replaces the value and returns the old one.
    pub fn insert(&mut self, value: V) -> (replaced: V) where K: HashKey<S>, V: Clone
        requires
            old(self).map.wf(),
            old(self).map@.contains_key(old(self).key@),
        ensures
            final(self).key == old(self).key,
            cloned(old(self).map@[old(self).key@], replaced),
            final(self).map.wf(),
            final(self).map@ == old(self).map@.insert(old(self).key@, value),
            final(self).map.held_keys() == old(self).map.held_keys(),
            final(self).map.state() == old(self).map.state(),
            final(self).map.kv_merkle() is None,
            *final(final(self).map) == *final(old(self).map),
    {
        let mut other = value;
        std::mem::swap(self.get_mut(), &mut other);
        other
    }

    /// Removes the entry and returns the key and the value that the map held.
    pub fn remove_entry(self) -> (entry: (K, V)) where K: HashKey<S> + Clone, V: Clone
        requires
            self.map.wf(),
            self.map@.contains_key(self.key@),
        ensures
            cloned(old(self.map).held_keys()[self.key@], entry.0),
            cloned(old(self.map)@[self.key@], entry.1),
            final(self.map).wf(),
            final(self.map)@ == old(self.map)@.remove(self.key@),
            final(self.map).held_keys() == old(self.map).held_keys().remove(self.key@),
            final(self.map).state() == old(self.map).state(),
            final(self.map).kv_merkle() is None,
    {
        let pair = self.map.remove_pair_invalidate(&self.key).unwrap();
        (take(pair.0), take(pair.1))
    }

    /// Removes the entry and returns the value that the map held.
    pub fn remove(self) -> (value: V) where K: HashKey<S>, V: Clone
        requires
            self.map.wf(),
            self.map@.contains_key(self.key@),
        ensures
            cloned(old(self.map)@[self.key@], value),
            final(self.map).wf(),
            final(self.map)@ == old(self.map)@.remove(self.key@),
            final(self.map).held_keys() == old(self.map).held_keys().remove(self.key@),
            final(self.map).state() == old(self.map).state(),
            final(self.map).kv_merkle() is None,
    {
        take(self.map.remove_pair_invalidate(&self.key).unwrap().1)
    }
}

impl<'a, K, V, S> VacantEntry<'a, K, V, S> {
    /// The key.
    pub fn key(&self) -> (key: &K)
        ensures
            *key == self.key,
    {
        &self.key
    }

    /// The key, which leaves the map as it is.
    pub fn into_key(self) -> (key: K)
        ensures
            key == self.key,
            *final(self.map) == *old(self.map),
    {
        self.key
    }

    /// Inserts a value and returns it for mutation in place.
    pub fn insert(self, value: V) -> (place: &'a mut V) where K: HashKey<S>, V: Clone
        requires
            self.map.wf(),
            has_room(self.map@, self.key@),
        ensures
            cloned(value, *place),
            final(self.map).wf(),
            final(self.map)@ == old(self.map)@.insert(self.key@, *final(place)),
            final(self.map).held_keys() == old(self.map).held_keys().insert(self.key@, self.key),
            final(self.map).state() == old(self.map).state(),
            final(self.map).kv_merkle() is None,
    {
        let ghost before = self.map@;
        let ghost name = self.key@;
        let key = Arc::new(self.key);
        let map = self.map;
        map.insert_pair(share(&key), Arc::new(value));
        let place = map.get_mut(&*key).unwrap();
        proof {
            assert(before.insert(name, value).insert(name, *final(place)) =~= before.insert(
                name,
                *final(place),
            ));
        }
        place
    }
}

impl<'a, K, V, S> Entry<'a, K, V, S> {
    /// Whether the place is what it says: the map is well formed, and holds the
    /// key or does not.
    pub open spec fn wf(self) -> bool where K: HashKey<S> {
        match self {
            Entry::Occupied(place) => place.map.wf() && place.map@.contains_key(place.key@),
            Entry::Vacant(place) => place.map.wf() && !place.map@.contains_key(place.key@),
        }
    }

    /// The key.
    pub fn key(&self) -> (key: &K)
        ensures
            match *self {
                Entry::Occupied(place) => *key == place.key,
                Entry::Vacant(place) => *key == place.key,
            },
    {
        match self {
            Entry::Occupied(place) => place.key(),
            Entry::Vacant(place) => place.key(),
        }
    }

    /// Inserts a value where there is none, and returns the value for mutation
    /// in place.
    pub fn or_insert(self, default: V) -> (place: &'a mut V) where K: HashKey<S>, V: Clone
        requires
            self.wf(),
            self matches Entry::Vacant(vacant) ==> has_room(vacant.map@, vacant.key@),
        ensures
            match self {
                Entry::Occupied(occupied) => {
                    &&& cloned(occupied.map@[occupied.key@], *place)
                    &&& final(occupied.map).wf()
                    &&& final(occupied.map)@ == occupied.map@.insert(
                        occupied.key@,
                        *final(place),
                    )
                    &&& final(occupied.map).held_keys() == occupied.map.held_keys()
                    &&& final(occupied.map).state() == occupied.map.state()
                    &&& final(occupied.map).kv_merkle() is None
                },
                Entry::Vacant(vacant) => {
                    &&& cloned(default, *place)
                    &&& final(vacant.map).wf()
                    &&& final(vacant.map)@ == vacant.map@.insert(vacant.key@, *final(place))
                    &&& final(vacant.map).held_keys() == vacant.map.held_keys().insert(
                        vacant.key@,
                        vacant.key,
                    )
                    &&& final(vacant.map).state() == vacant.map.state()
                    &&& final(vacant.map).kv_merkle() is None
                },
            },
    {
        match self {
            Entry::Occupied(occupied) => occupied.into_mut(),
            Entry::Vacant(vacant) => vacant.insert(default),
        }
    }

    /// Inserts the result of a function where there is no value, and returns the
    /// value for mutation in place. The function is called only then.
    pub fn or_insert_with<F: FnOnce() -> V>(self, default: F) -> (place: &'a mut V) where
        K: HashKey<S>,
        V: Clone,

        requires
            self.wf(),
            self matches Entry::Vacant(vacant) ==> has_room(vacant.map@, vacant.key@)
                && default.requires(()),
        ensures
            match self {
                Entry::Occupied(occupied) => {
                    &&& cloned(occupied.map@[occupied.key@], *place)
                    &&& final(occupied.map).wf()
                    &&& final(occupied.map)@ == occupied.map@.insert(
                        occupied.key@,
                        *final(place),
                    )
                    &&& final(occupied.map).held_keys() == occupied.map.held_keys()
                    &&& final(occupied.map).state() == occupied.map.state()
                    &&& final(occupied.map).kv_merkle() is None
                },
                Entry::Vacant(vacant) => {
                    &&& exists|made: V| #[trigger] default.ensures((), made) && cloned(made, *place)
                    &&& final(vacant.map).wf()
                    &&& final(vacant.map)@ == vacant.map@.insert(vacant.key@, *final(place))
                    &&& final(vacant.map).held_keys() == vacant.map.held_keys().insert(
                        vacant.key@,
                        vacant.key,
                    )
                    &&& final(vacant.map).state() == vacant.map.state()
                    &&& final(vacant.map).kv_merkle() is None
                },
            },
    {
        match self {
            Entry::Occupied(occupied) => occupied.into_mut(),
            Entry::Vacant(vacant) => {
                let made = default();
                vacant.insert(made)
            },
        }
    }

    /// Inserts the default value where there is none, and returns the value for
    /// mutation in place.
    pub fn or_default(self) -> (place: &'a mut V) where K: HashKey<S>, V: Clone + Default
        requires
            self.wf(),
            self matches Entry::Vacant(vacant) ==> has_room(vacant.map@, vacant.key@),
        ensures
            match self {
                Entry::Occupied(occupied) => {
                    &&& cloned(occupied.map@[occupied.key@], *place)
                    &&& final(occupied.map).wf()
                    &&& final(occupied.map)@ == occupied.map@.insert(
                        occupied.key@,
                        *final(place),
                    )
                    &&& final(occupied.map).held_keys() == occupied.map.held_keys()
                    &&& final(occupied.map).state() == occupied.map.state()
                    &&& final(occupied.map).kv_merkle() is None
                },
                Entry::Vacant(vacant) => {
                    &&& exists|made: V| #[trigger]
                        V::default.ensures((), made) && cloned(made, *place)
                    &&& final(vacant.map).wf()
                    &&& final(vacant.map)@ == vacant.map@.insert(vacant.key@, *final(place))
                    &&& final(vacant.map).held_keys() == vacant.map.held_keys().insert(
                        vacant.key@,
                        vacant.key,
                    )
                    &&& final(vacant.map).state() == vacant.map.state()
                    &&& final(vacant.map).kv_merkle() is None
                },
            },
    {
        match self {
            Entry::Occupied(occupied) => occupied.into_mut(),
            Entry::Vacant(vacant) => {
                let made = V::default();
                vacant.insert(made)
            },
        }
    }

    /// Applies a function to the value where there is one.
    pub fn and_modify<F: FnOnce(&mut V)>(self, f: F) -> (entry: Self) where
        K: HashKey<S>,
        V: Clone,

        requires
            self.wf(),
            self matches Entry::Occupied(occupied) ==> forall|v: &mut V|
                cloned(occupied.map@[occupied.key@], *v) ==> #[trigger] f.requires((v,)),
        ensures
            entry.wf(),
            match (self, entry) {
                (Entry::Occupied(before), Entry::Occupied(after)) => {
                    &&& after.key == before.key
                    &&& after.map.state() == before.map.state()
                    &&& after.map.kv_merkle() is None
                    &&& *final(after.map) == *final(before.map)
                    &&& exists|v: &mut V|
                        {
                            &&& cloned(before.map@[before.key@], *v)
                            &&& #[trigger] f.ensures((v,), ())
                            &&& after.map@ == before.map@.insert(before.key@, *final(v))
                        }
                },
                (Entry::Vacant(before), Entry::Vacant(after)) => after == before,
                _ => false,
            },
    {
        match self {
            Entry::Occupied(occupied) => {
                let mut occupied = occupied;
                let value = occupied.get_mut();
                let ghost given = value;
                f(value);
                proof {
                    assert(exists|v: &mut V| #[trigger]
                        f.ensures((v,), ()) && *v == *given && *final(v) == *final(given));
                }
                Entry::Occupied(occupied)
            },
            Entry::Vacant(vacant) => Entry::Vacant(vacant),
        }
    }
}

} // verus!
