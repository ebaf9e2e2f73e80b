//! A persistent map from keys to sets of values.
use crate::bimap::pair_names;
use crate::fingerprint::key_sum;
use crate::hash_key::{HashKey, HashState};
use crate::hash_map::GenericHashMap;
use crate::hash_set::GenericHashSet;
use crate::hash_set_ops::same_set_fingerprints;
use crate::iter as map_iter;
use crate::map_iters::Keys;
use crate::map_iters::keys_of;
use crate::node::{distinct, lemma_find, lemma_found, ChampNode, Pair};
use crate::random_state::RandomState;
use crate::shared::{inside, share};
use crate::trie::{lemma_seen, lemma_seen_keys, lemma_stored, lemma_submap_insert};
use crate::trie::{pairs_map, stored_keys};
use std::sync::Arc;
use vstd::prelude::*;

verus! {

/// The pairs of keys and values that a map of sets holds.
pub open spec fn relation<M, V: View, S>(map: Map<M, GenericHashSet<V, S>>) -> Set<(M, V::V)> {
    Set::new(|pair: (M, V::V)| map.contains_key(pair.0) && map[pair.0]@.contains(pair.1))
}

/// Whether a relation holds a pair of a key.
pub open spec fn relates<M, N>(pairs: Set<(M, N)>, key: M) -> bool {
    exists|value: N| pairs.contains((key, value))
}

/// The values of a key.
pub open spec fn image<M, N>(pairs: Set<(M, N)>, key: M) -> Set<N> {
    Set::new(|value: N| pairs.contains((key, value)))
}

/// The pairs of one key.
pub open spec fn row<M, N>(key: M, values: Set<N>) -> Set<(M, N)> {
    values.map(|value: N| (key, value))
}

/// The keys of a relation.
pub open spec fn related<M, N>(pairs: Set<(M, N)>) -> Set<M> {
    Set::new(|key: M| relates(pairs, key))
}

/// The pairs whose keys are, or are not, those of another relation.
pub open spec fn selected<M, N>(
    pairs: Set<(M, N)>,
    other: Set<(M, N)>,
    wanted: bool,
) -> Set<(M, N)> {
    Set::new(|pair: (M, N)| pairs.contains(pair) && relates(other, pair.0) == wanted)
}

/// Whether a map holds well-formed sets that are not empty.
pub open spec fn full_sets<M, S, V: HashKey<S>>(map: Map<M, GenericHashSet<V, S>>) -> bool {
    forall|key: M| #[trigger]
        map.contains_key(key) ==> map[key].wf() && map[key]@ != Set::<V::V>::empty()
}

/// A row has as many pairs as values.
proof fn lemma_row<M, N>(key: M, values: Set<N>)
    requires
        values.finite(),
    ensures
        row(key, values).finite(),
        row(key, values).len() == values.len(),
        forall|pair: (M, N)| #[trigger]
            row(key, values).contains(pair) <==> pair.0 == key && values.contains(pair.1),
    decreases values.len(),
{
    assert forall|pair: (M, N)| #[trigger] row(key, values).contains(pair) <==> pair.0 == key
        && values.contains(pair.1) by {
        if pair.0 == key && values.contains(pair.1) {
            let f = |value: N| (key, value);
            assert(f(pair.1) == pair);
        }
    }
    if values.len() == 0 {
        assert(values =~= Set::<N>::empty());
        assert(row(key, values) =~= Set::<(M, N)>::empty());
    } else {
        let v = values.choose();
        lemma_row(key, values.remove(v));
        assert(row(key, values) =~= row(key, values.remove(v)).insert((key, v)));
    }
}

/// The relation of a map of sets before and after a key is gone.
proof fn lemma_drop_row<M, V: View, S>(map: Map<M, GenericHashSet<V, S>>, key: M)
    requires
        relation(map).finite(),
        map.contains_key(key),
        map[key]@.finite(),
    ensures
        relation(map.remove(key)) == relation(map).difference(row(key, map[key]@)),
        relation(map.remove(key)).finite(),
        relation(map).len() == relation(map.remove(key)).len() + map[key]@.len(),
{
    let all = relation(map);
    let part = row(key, map[key]@);
    lemma_row(key, map[key]@);
    assert(relation(map.remove(key)) =~= all.difference(part));
    assert(all =~= all.difference(part).union(part));
    vstd::set_lib::lemma_set_disjoint_lens(all.difference(part), part);
}

/// The relation of a map of sets after a value was added to a key.
proof fn lemma_add_pair<M, V: View, S>(
    before: Map<M, GenericHashSet<V, S>>,
    after: Map<M, GenericHashSet<V, S>>,
    key: M,
    value: V::V,
)
    requires
        after.dom() == before.dom().insert(key),
        forall|k: M| #[trigger]
            after.contains_key(k) ==> k != key ==> after[k]@ == before[k]@,
        after[key]@ == if before.contains_key(key) {
            before[key]@.insert(value)
        } else {
            set![value]
        },
    ensures
        relation(after) == relation(before).insert((key, value)),
{
    assert forall|pair: (M, V::V)| relation(after).contains(pair) == relation(before).insert(
        (key, value),
    ).contains(pair) by {
        if pair.0 != key && after.contains_key(pair.0) {
            assert(after[pair.0]@ == before[pair.0]@);
        }
    }
    assert(relation(after) =~= relation(before).insert((key, value)));
}

/// One row more is selected, or passed over.
proof fn lemma_select<M, V: View, S>(
    before: Map<M, GenericHashSet<V, S>>,
    seen: Map<M, GenericHashSet<V, S>>,
    all: Map<M, GenericHashSet<V, S>>,
    other: Set<(M, V::V)>,
    key: M,
    wanted: bool,
)
    requires
        before.submap_of(seen),
        seen.submap_of(all),
        !seen.contains_key(key),
        all.contains_key(key),
        all[key]@.finite(),
        relation(all).finite(),
        relation(before) == selected(relation(seen), other, wanted),
    ensures
        before.submap_of(seen.insert(key, all[key])),
        before.insert(key, all[key]).submap_of(seen.insert(key, all[key])),
        relation(before.insert(key, all[key])).finite(),
        relation(before.insert(key, all[key])).len() == relation(before).len() + all[key]@.len(),
        relation(before.insert(key, all[key])).len() <= relation(all).len(),
        relation(if relates(other, key) == wanted {
            before.insert(key, all[key])
        } else {
            before
        }) == selected(relation(seen.insert(key, all[key])), other, wanted),
{
    let set = all[key];
    let after = before.insert(key, set);
    assert(relation(after).subset_of(relation(all))) by {
        assert forall|pair: (M, V::V)| relation(after).contains(pair) implies relation(
            all,
        ).contains(pair) by {
            if pair.0 != key {
                assert(before.contains_key(pair.0));
                assert(seen.contains_key(pair.0));
                assert(all.contains_key(pair.0));
            }
        }
    }
    vstd::set_lib::lemma_len_subset(relation(after), relation(all));
    assert(after.remove(key) =~= before);
    lemma_drop_row(after, key);
    assert(relation(if relates(other, key) == wanted {
        after
    } else {
        before
    }) =~= selected(relation(seen.insert(key, set)), other, wanted)) by {
        assert forall|pair: (M, V::V)| relation(after).contains(pair) == (relation(before).contains(
            pair,
        ) || (pair.0 == key && set@.contains(pair.1))) by {}
        assert forall|pair: (M, V::V)|
            relation(before).contains(pair) == (relation(seen).contains(pair) && relates(
                other,
                pair.0,
            ) == wanted) by {}
    }
}

/// A persistent map from each key to a set of values.
///
/// It is modelled as the set of its pairs of keys and values. No key has an
/// empty set.
pub struct GenericHashMultiMap<K, V, S> {
    map: GenericHashMap<K, GenericHashSet<V, S>, S>,
    total: usize,
}

/// The values themselves of a map of sets, by the views of key and value.
pub open spec fn row_values<M, V: View, S>(
    map: Map<M, GenericHashSet<V, S>>,
) -> Map<(M, V::V), V> {
    Map::new(
        |pair: (M, V::V)| map.contains_key(pair.0) && map[pair.0]@.contains(pair.1),
        |pair: (M, V::V)| map[pair.0].held()[pair.1],
    )
}

/// Whether a row matches what a multimap has for its key: the sets are equal or,
/// where they have one lineage, have the same fingerprint.
pub open spec fn row_matches<K: View, V: View, S>(
    row: Pair<K, GenericHashSet<V, S>>,
    other: GenericHashMultiMap<K, V, S>,
    same_lineage: bool,
) -> bool {
    ||| row.1@ == image(other@, (*row.0)@)
    ||| same_lineage && same_set_fingerprints(*row.1, other.row_set((*row.0)@))
}

/// Whether two multimaps have one size and the same keys, and their rows match.
pub open spec fn same_rows<K: View, V: View, S>(
    a: GenericHashMultiMap<K, V, S>,
    b: GenericHashMultiMap<K, V, S>,
    lineages: Seq<bool>,
) -> bool {
    &&& a@.len() == b@.len()
    &&& related(a@) == related(b@)
    &&& forall|i: int|
        0 <= i < a.rows().len() ==> row_matches(#[trigger] a.rows()[i], b, lineages[i])
}

/// The values themselves of one key.
pub open spec fn key_values<M, N, V>(key: M, held: Map<N, V>) -> Map<(M, N), V> {
    Map::new(
        |pair: (M, N)| pair.0 == key && held.contains_key(pair.1),
        |pair: (M, N)| held[pair.1],
    )
}

/// The keys themselves that are stored when a list of pairs is inserted one by
/// one: of equal keys the first.
pub open spec fn first_keys<K: View, V>(keys: Map<K::V, K>, list: Seq<(K, V)>) -> Map<K::V, K>
    decreases list.len(),
{
    if list.len() == 0 {
        keys
    } else {
        let front = first_keys(keys, list.drop_last());
        if front.contains_key(list.last().0@) {
            front
        } else {
            front.insert(list.last().0@, list.last().0)
        }
    }
}

/// The values themselves that are stored when a list of pairs is inserted one by
/// one: of equal pairs the last.
pub open spec fn last_values<K: View, V: View>(
    values: Map<(K::V, V::V), V>,
    list: Seq<(K, V)>,
) -> Map<(K::V, V::V), V>
    decreases list.len(),
{
    if list.len() == 0 {
        values
    } else {
        last_values(values, list.drop_last()).insert(
            (list.last().0@, list.last().1@),
            list.last().1,
        )
    }
}

/// A multimap with the default hasher state.
pub type HashMultiMap<K, V> = GenericHashMultiMap<K, V, RandomState>;

impl<K: View, V: View, S> View for GenericHashMultiMap<K, V, S> {
    type V = Set<(K::V, V::V)>;

    closed spec fn view(&self) -> Set<(K::V, V::V)> {
        relation(self.map@)
    }
}

impl<K, V, S> GenericHashMultiMap<K, V, S> {
    /// The keys with their sets, in the order in which they are walked.
    pub closed spec fn rows(self) -> Seq<Pair<K, GenericHashSet<V, S>>> {
        self.map.entries()
    }

    /// The keys themselves, by their views.
    pub closed spec fn held_keys(self) -> Map<K::V, K> where K: View {
        self.map.held_keys()
    }

    /// The values themselves, by the views of key and value.
    pub closed spec fn held_values(self) -> Map<(K::V, V::V), V> where K: View, V: View {
        row_values(self.map@)
    }

    /// The set of a key that the multimap holds.
    pub closed spec fn row_set(self, key: K::V) -> GenericHashSet<V, S> where K: View {
        self.map@[key]
    }

    /// The root of the trie, where there is one.
    pub closed spec fn top(self) -> Option<Arc<ChampNode<K, GenericHashSet<V, S>>>> {
        self.map.top()
    }

    /// Whether the map and its sets are well formed, no set is empty, and the
    /// total is right.
    pub closed spec fn wf(self) -> bool where K: HashKey<S>, V: HashKey<S> {
        &&& self.map.wf()
        &&& full_sets(self.map@)
        &&& relation(self.map@).finite()
        &&& self.total == relation(self.map@).len()
    }

    /// What holds of every well-formed multimap.
    pub proof fn lemma_multimap(self) where K: HashKey<S>, V: HashKey<S>
        requires
            self.wf(),
        ensures
            self@.finite(),
            self@.len() <= usize::MAX,
            distinct(self.rows()),
            full_sets(pairs_map(self.rows())),
            self@ == relation(pairs_map(self.rows())),
            self.held_keys() == stored_keys(self.rows()),
            self.held_values() == row_values(pairs_map(self.rows())),
            self.held_keys().dom() == related(self@),
            self.held_values().dom() == self@,
    {
        self.map.lemma_map();
        self.lemma_keys();
        assert(self.held_values().dom() =~= self@);
    }

    /// The keys of the map are those that have a value.
    proof fn lemma_keys(self) where K: HashKey<S>, V: HashKey<S>
        requires
            self.wf(),
        ensures
            forall|key: K::V| #[trigger] self.map@.contains_key(key) == relates(self@, key),
            self.map@.dom() == related(self@),
            forall|key: K::V| #[trigger]
                self.map@.contains_key(key) ==> self.map@[key]@ == image(self@, key),
    {
        assert forall|key: K::V| #[trigger] self.map@.contains_key(key) == relates(self@, key) by {
            if self.map@.contains_key(key) {
                let set = self.map@[key]@;
                if forall|v: V::V| !set.contains(v) {
                    assert(set =~= Set::<V::V>::empty());
                }
                let v = choose|v: V::V| set.contains(v);
                assert(self@.contains((key, v)));
            }
        }
        assert(self.map@.dom() =~= related(self@));
        assert forall|key: K::V| #[trigger] self.map@.contains_key(key) implies self.map@[key]@
            == image(self@, key) by {
            assert(self.map@[key]@ =~= image(self@, key));
        }
    }

    /// Multimaps that test as equal have as many pairs and the same keys, and for
    /// each key the same values, or sets of one size whose fingerprints are the
    /// same. Multimaps with the same pairs test as equal.
    pub proof fn law_test_eq(
        &self,
        other: &Self,
        equal: bool,
        key: K::V,
        mine: Set<V::V>,
        theirs: Set<V::V>,
    ) where K: HashKey<S>, V: HashKey<S>, S: HashState
        requires
            self.wf(),
            other.wf(),
            forall|v: V::V| #[trigger] mine.contains(v) == self@.contains((key, v)),
            forall|v: V::V| #[trigger] theirs.contains(v) == other@.contains((key, v)),
            call_ensures(GenericHashMultiMap::<K, V, S>::test_eq, (self, other), equal),
        ensures
            (forall|k: K::V, v: V::V| #[trigger]
                self@.contains((k, v)) == other@.contains((k, v))) ==> equal,
            equal ==> self@.len() == other@.len(),
            equal ==> (mine == Set::<V::V>::empty()) == (theirs == Set::<V::V>::empty()),
            equal ==> mine == theirs || (mine.len() == theirs.len() && exists|state: S| #[trigger]
                key_sum::<S, V>(mine, state) == key_sum::<S, V>(theirs, state)),
    {
        self.lemma_multimap();
        other.lemma_multimap();
        self.lemma_keys();
        other.lemma_keys();
        self.map.lemma_map();
        if forall|k: K::V, v: V::V| #[trigger]
            self@.contains((k, v)) == other@.contains((k, v)) {
            assert(self@ =~= other@) by {
                assert forall|pair: (K::V, V::V)| self@.contains(pair) == other@.contains(pair) by {
                    assert(self@.contains((pair.0, pair.1)) == other@.contains((pair.0, pair.1)));
                }
            }
        }
        if equal {
            assert(relates(self@, key) == related(self@).contains(key));
            assert(relates(other@, key) == related(other@).contains(key));
            assert(image(self@, key) =~= mine);
            assert(image(other@, key) =~= theirs);
            if relates(self@, key) {
                let v = choose|v: V::V| self@.contains((key, v));
                assert(mine.contains(v));
                let w = choose|w: V::V| other@.contains((key, w));
                assert(theirs.contains(w));
                let rows = self.rows();
                let i = lemma_found(rows, key);
                lemma_find(rows, i);
                let set = *rows[i].1;
                assert(row_matches(rows[i], *other, true));
                assert(self.map@.contains_key(key) && self.map@[key] == set);
                assert(other.map@.contains_key(key));
                if mine != theirs {
                    set.lemma_set();
                    other.map@[key].lemma_set();
                    assert(key_sum::<S, V>(mine, set.state()) == key_sum::<S, V>(
                        theirs,
                        set.state(),
                    ));
                }
            } else {
                assert forall|v: V::V| !mine.contains(v) && !theirs.contains(v) by {
                    if self@.contains((key, v)) {
                        assert(relates(self@, key));
                    }
                    if other@.contains((key, v)) {
                        assert(relates(other@, key));
                    }
                }
                assert(mine =~= Set::<V::V>::empty());
                assert(theirs =~= Set::<V::V>::empty());
            }
        }
    }

    /// An empty multimap with a default hasher state.
    pub fn new() -> (map: Self) where K: HashKey<S>, V: HashKey<S>, S: Default
        ensures
            map.wf(),
            map@ == Set::<(K::V, V::V)>::empty(),
            map.top() is None,
            map.held_keys() == Map::<K::V, K>::empty(),
            map.held_values() == Map::<(K::V, V::V), V>::empty(),
    {
        let map = GenericHashMultiMap { map: GenericHashMap::new(), total: 0 };
        proof {
            assert(map.held_values() =~= Map::<(K::V, V::V), V>::empty());
            assert(map@ =~= Set::<(K::V, V::V)>::empty());
        }
        map
    }

    /// Whether the multimap has no pairs.
    pub fn is_empty(&self) -> (empty: bool) where K: HashKey<S>, V: HashKey<S>
        requires
            self.wf(),
        ensures
            empty == (self@ == Set::<(K::V, V::V)>::empty()),
    {
        proof {
            self.lemma_keys();
            if self@ == Set::<(K::V, V::V)>::empty() {
                assert forall|key: K::V| !self.map@.contains_key(key) by {
                    assert(!relates(self@, key));
                }
                assert(self.map@ =~= Map::empty());
            }
            if self.map@ == Map::<K::V, GenericHashSet<V, S>>::empty() {
                assert(self@ =~= Set::<(K::V, V::V)>::empty());
            }
        }
        self.map.is_empty()
    }

    /// Number of keys.
    pub fn keys_len(&self) -> (n: usize) where K: HashKey<S>, V: HashKey<S>
        requires
            self.wf(),
        ensures
            n == related(self@).len(),
    {
        proof {
            self.lemma_keys();
        }
        self.map.len()
    }

    /// Number of pairs of a key and a value.
    pub fn len(&self) -> (n: usize) where K: HashKey<S>, V: HashKey<S>
        requires
            self.wf(),
        ensures
            n == self@.len(),
    {
        self.total
    }

    /// Whether both multimaps have one root in memory, or no root. Those that do
    /// hold the same pairs; those that do not may hold them too. Of two roots
    /// nothing says whether they are one allocation.
    pub fn ptr_eq(&self, other: &Self) -> (same: bool) where K: View, V: View
        ensures
            same ==> self@ == other@ && self.rows() == other.rows(),
            same ==> self.top() == other.top(),
            self.top() is None && other.top() is None ==> same,
            self.top() is None != other.top() is None ==> !same,
    {
        self.map.ptr_eq(&other.map)
    }

    /// Adds a shared value to a shared key.
    fn insert_shared(&mut self, key: Arc<K>, value: Arc<V>) -> (inserted: bool) where
        K: HashKey<S>,
        V: HashKey<S>,
        S: HashState + Default,

        requires
            old(self).wf(),
            old(self)@.len() < usize::MAX,
        ensures
            final(self).wf(),
            final(self)@ == old(self)@.insert(((*key)@, (*value)@)),
            final(self).held_keys() == if relates(old(self)@, (*key)@) {
                old(self).held_keys()
            } else {
                old(self).held_keys().insert((*key)@, *key)
            },
            final(self).held_values() == old(self).held_values().insert(
                ((*key)@, (*value)@),
                *value,
            ),
            inserted == !old(self)@.contains(((*key)@, (*value)@)),
    {
        let ghost k = (*key)@;
        let ghost v = (*value)@;
        let ghost before = self.map@;
        let ghost held = value;
        proof {
            self.map.lemma_map();
            self.lemma_room();
            self.lemma_keys();
            assert(before.contains_key(k) == relates(self@, k));
        }
        let present = self.map.contains_key(&*key);
        let inserted;
        if present {
            proof {
                before[k].lemma_set();
                lemma_row_fits(before, k);
            }
            match self.map.get_mut(&*key) {
                Some(set) => {
                    inserted = !set.insert_shared(value);
                },
                None => {
                    inserted = false;
                },
            }
        } else {
            let mut set: GenericHashSet<V, S> = GenericHashSet::new();
            inserted = !set.insert_shared(value);
            proof {
                assert(set@ =~= set![v]);
            }
            self.map.insert_pair(key, Arc::new(set));
        }
        proof {
            assert(self.map@[k].held()[v] == *held);
            assert(self.held_values() =~= old(self).held_values().insert((k, v), inside(held)));
            lemma_add_pair(before, self.map@, k, v);
            assert forall|key: K::V| #[trigger] self.map@.contains_key(key) implies self.map@[key]@
                != Set::<V::V>::empty() by {
                if key == k {
                    assert(self.map@[key]@.contains(v));
                }
            }
        }
        if inserted {
            self.total += 1;
        }
        inserted
    }

    /// The map has room for what the multimap has room for.
    proof fn lemma_room(self) where K: HashKey<S>, V: HashKey<S>
        requires
            self.wf(),
            self@.len() < usize::MAX,
        ensures
            self.map@.len() < usize::MAX,
    {
        self.map.lemma_map();
        lemma_rows_total(self.map@);
    }

    /// Adds a value to a key. Returns whether it was new there.
    pub fn insert(&mut self, key: K, value: V) -> (inserted: bool) where
        K: HashKey<S>,
        V: HashKey<S>,
        S: HashState + Default,

        requires
            old(self).wf(),
            old(self)@.len() < usize::MAX,
        ensures
            final(self).wf(),
            final(self)@ == old(self)@.insert((key@, value@)),
            final(self).held_keys() == if relates(old(self)@, key@) {
                old(self).held_keys()
            } else {
                old(self).held_keys().insert(key@, key)
            },
            final(self).held_values() == old(self).held_values().insert((key@, value@), value),
            inserted == !old(self)@.contains((key@, value@)),
    {
        self.insert_shared(Arc::new(key), Arc::new(value))
    }

    /// Removes a value from a key, and the key with its last value. Returns
    /// whether it was there.
    pub fn remove(&mut self, key: &K, value: &V) -> (removed: bool) where
        K: HashKey<S>,
        V: HashKey<S>,
        S: HashState,

        requires
            old(self).wf(),
        ensures
            final(self).wf(),
            final(self)@ == old(self)@.remove((key@, value@)),
            final(self).held_keys() == if relates(final(self)@, key@) {
                old(self).held_keys()
            } else {
                old(self).held_keys().remove(key@)
            },
            final(self).held_values() == old(self).held_values().remove((key@, value@)),
            removed == old(self)@.contains((key@, value@)),
    {
        let ghost before = self.map@;
        let ghost all = self@;
        let ghost pair = (key@, value@);
        let ghost first = *self;
        proof {
            self.map.lemma_map();
            self.lemma_keys();
            if before.contains_key(key@) {
                before[key@].lemma_set();
            }
        }
        let removed;
        let emptied;
        match self.map.get_mut(key) {
            Some(set) => {
                removed = set.discard(value);
                emptied = set.is_empty();
            },
            None => {
                proof {
                    assert(self@ =~= all.remove(pair));
                    assert(self.map@ == before);
                    assert(!relates(self@, key@));
                    assert(self.held_keys() =~= first.held_keys().remove(key@));
                    assert(self.held_values() =~= first.held_values().remove(pair));
                }
                return false;
            },
        }
        let ghost middle = self.map@;
        proof {
            assert(middle.dom() =~= before.dom());
            assert(middle[key@]@ == before[key@]@.remove(value@));
            assert(relation(middle) =~= all.remove(pair));
            assert(middle[key@].held() == before[key@].held().remove(value@));
            assert(row_values(middle) =~= first.held_values().remove(pair));
        }
        if removed {
            self.total -= 1;
            if emptied {
                self.map.remove_pair_invalidate(key);
                proof {
                    assert(relation(self.map@) =~= relation(middle));
                    assert(row_values(self.map@) =~= row_values(middle));
                    assert(!relates(self@, key@));
                }
            } else {
                proof {
                    let v = middle[key@]@.choose();
                    assert(middle[key@]@.contains(v)) by {
                        if forall|w: V::V| !middle[key@]@.contains(w) {
                            assert(middle[key@]@ =~= Set::<V::V>::empty());
                        }
                    }
                    assert(self@.contains((key@, v)));
                }
            }
        } else {
            proof {
                assert(middle[key@]@ =~= before[key@]@);
                assert(self@ =~= all);
                assert(before.contains_key(key@) == relates(all, key@));
            }
        }
        removed
    }

    /// Removes a key and returns its values.
    pub fn remove_all(&mut self, key: &K) -> (values: GenericHashSet<V, S>) where
        K: HashKey<S>,
        V: HashKey<S>,
        S: HashState + Default,

        requires
            old(self).wf(),
        ensures
            final(self).wf(),
            final(self)@ == old(self)@.difference(row(key@, image(old(self)@, key@))),
            values.wf(),
            values@ == image(old(self)@, key@),
            final(self).held_keys() == old(self).held_keys().remove(key@),
            final(self).held_values().submap_of(old(self).held_values()),
            forall|v: V::V| #[trigger]
                values@.contains(v) ==> values.held()[v] == old(self).held_values()[(key@, v)],
    {
        let ghost before = self.map@;
        proof {
            self.lemma_keys();
            if before.contains_key(key@) {
                before[key@].lemma_set();
                lemma_drop_row(before, key@);
            } else {
                assert(!relates(self@, key@));
                assert(image(self@, key@) =~= Set::<V::V>::empty());
                lemma_row(key@, Set::<V::V>::empty());
                assert(self@ =~= self@.difference(row(key@, image(self@, key@))));
            }
        }
        match self.map.remove_pair_invalidate(key) {
            Some(pair) => {
                let set = (*pair.1).clone();
                self.total -= set.len();
                set
            },
            None => GenericHashSet::new(),
        }
    }

    /// The values of a key: an empty set where there are none.
    pub fn get(&self, key: &K) -> (values: GenericHashSet<V, S>) where
        K: HashKey<S>,
        V: HashKey<S>,
        S: HashState + Default,

        requires
            self.wf(),
        ensures
            values.wf(),
            values@ == image(self@, key@),
            forall|v: V::V| #[trigger]
                values@.contains(v) ==> values.held()[v] == self.held_values()[(key@, v)],
    {
        proof {
            self.lemma_keys();
            if !self.map@.contains_key(key@) {
                assert(!relates(self@, key@));
                assert(image(self@, key@) =~= Set::<V::V>::empty());
            }
        }
        match self.map.get(key) {
            Some(set) => set.clone(),
            None => GenericHashSet::new(),
        }
    }

    /// The values of a key that the multimap holds.
    pub fn index(&self, key: &K) -> (values: &GenericHashSet<V, S>) where
        K: HashKey<S>,
        V: HashKey<S>,

        requires
            self.wf(),
            relates(self@, key@),
        ensures
            values.wf(),
            values@ == image(self@, key@),
            forall|v: V::V| #[trigger]
                values@.contains(v) ==> values.held()[v] == self.held_values()[(key@, v)],
    {
        proof {
            self.lemma_keys();
        }
        self.map.index(key)
    }

    /// Whether a key has a value.
    pub fn contains(&self, key: &K, value: &V) -> (found: bool) where K: HashKey<S>, V: HashKey<S>
        requires
            self.wf(),
        ensures
            found == self@.contains((key@, value@)),
    {
        match self.map.get(key) {
            Some(set) => set.contains(value),
            None => false,
        }
    }

    /// Whether the multimap holds a key.
    pub fn contains_key(&self, key: &K) -> (found: bool) where K: HashKey<S>, V: HashKey<S>
        requires
            self.wf(),
        ensures
            found == relates(self@, key@),
    {
        proof {
            self.lemma_keys();
        }
        self.map.contains_key(key)
    }

    /// Number of values of a key.
    pub fn key_count(&self, key: &K) -> (n: usize) where K: HashKey<S>, V: HashKey<S>
        requires
            self.wf(),
        ensures
            n == image(self@, key@).len(),
    {
        proof {
            self.lemma_keys();
            if !self.map@.contains_key(key@) {
                assert(!relates(self@, key@));
                assert(image(self@, key@) =~= Set::<V::V>::empty());
            }
        }
        match self.map.get(key) {
            Some(set) => set.len(),
            None => 0,
        }
    }

    /// An iterator over the keys with their sets.
    pub fn iter_sets<'a>(&'a self) -> (iter: map_iter::Iter<'a, K, GenericHashSet<V, S>>) where
        K: HashKey<S>,
        V: HashKey<S>,

        requires
            self.wf(),
        ensures
            iter.wf(),
            iter@ == self.rows(),
    {
        self.map.iter()
    }

    /// An iterator over the keys.
    pub fn keys<'a>(&'a self) -> (keys: Keys<'a, K, GenericHashSet<V, S>>) where
        K: HashKey<S>,
        V: HashKey<S>,

        requires
            self.wf(),
        ensures
            keys.wf(),
            keys@ == keys_of(self.rows()),
    {
        self.map.keys()
    }

    /// The rows, as shared pairs.
    pub(crate) fn row_pairs(&self) -> (pairs: Vec<Pair<K, GenericHashSet<V, S>>>) where
        K: HashKey<S>,
        V: HashKey<S>,

        requires
            self.wf(),
        ensures
            pairs@ == self.rows(),
            distinct(pairs@),
            self@ == relation(pairs_map(pairs@)),
            full_sets(pairs_map(pairs@)),
    {
        self.map.pairs()
    }

    /// Adds the pairs of every row of another multimap.
    fn pour(&mut self, other: &Self) where
        K: HashKey<S>,
        V: HashKey<S>,
        S: HashState + Default,

        requires
            old(self).wf(),
            other.wf(),
            old(self)@.len() + other@.len() <= usize::MAX,
        ensures
            final(self).wf(),
            final(self)@ == old(self)@.union(other@),
            final(self).held_keys() == other.held_keys().union_prefer_right(
                old(self).held_keys(),
            ),
            final(self).held_values() == old(self).held_values().union_prefer_right(
                other.held_values(),
            ),
    {
        let rows = other.row_pairs();
        let ghost start = self@;
        let ghost keys = self.held_keys();
        let ghost held = self.held_values();
        let mut i: usize = 0;
        proof {
            self.lemma_multimap();
            other.lemma_multimap();
            lemma_seen(rows@, 0);
            assert(self@ =~= start.union(relation(pairs_map(rows@.take(0)))));
            lemma_seen_keys(rows@, 0);
            assert(keys =~= stored_keys(rows@.take(0)).union_prefer_right(keys));
            assert(held =~= held.union_prefer_right(row_values(pairs_map(rows@.take(0)))));
        }
        while i < rows.len()
            invariant
                i <= rows.len(),
                distinct(rows@),
                full_sets(pairs_map(rows@)),
                other@ == relation(pairs_map(rows@)),
                other@.finite(),
                start.finite(),
                start.len() + other@.len() <= usize::MAX,
                self.wf(),
                self@ == start.union(relation(pairs_map(rows@.take(i as int)))),
                keys == old(self).held_keys(),
                held == old(self).held_values(),
                keys.dom() == related(start),
                self.held_keys() == stored_keys(rows@.take(i as int)).union_prefer_right(keys),
                self.held_values() == held.union_prefer_right(
                    row_values(pairs_map(rows@.take(i as int))),
                ),
            decreases rows.len() - i,
        {
            let pair = &rows[i];
            let ghost k = (*pair.0)@;
            let ghost seen = pairs_map(rows@.take(i as int));
            proof {
                lemma_seen(rows@, i as int);
                lemma_seen(rows@, i + 1);
            }
            let values = pair.1.pairs();
            let mut j: usize = 0;
            proof {
                lemma_front(rows@, i as int);
                lemma_seen(values@, 0);
                inside(pair.1).lemma_set();
                assert(self@ =~= start.union(relation(seen)).union(
                    row(k, pairs_map(values@.take(0)).dom()),
                )) by {
                    lemma_row(k, Set::<V::V>::empty());
                }
                lemma_seen_keys(values@, 0);
                assert(self.held_values() =~= held.union_prefer_right(
                    row_values(seen),
                ).union_prefer_right(key_values(k, stored_keys(values@.take(0)))));
            }
            while j < values.len()
                invariant
                    j <= values.len(),
                    i < rows@.len(),
                    distinct(values@),
                    distinct(rows@),
                    *pair == rows@[i as int],
                    k == (*pair.0)@,
                    seen == pairs_map(rows@.take(i as int)),
                    other@ == relation(pairs_map(rows@)),
                    pairs_map(rows@).contains_key(k),
                    pairs_map(rows@)[k] == *pair.1,
                    pair.1@ == pairs_map(values@).dom(),
                    other@.finite(),
                    start.finite(),
                    start.len() + other@.len() <= usize::MAX,
                    seen.submap_of(pairs_map(rows@)),
                    !seen.contains_key(k),
                    self.wf(),
                    self@ == start.union(relation(seen)).union(
                        row(k, pairs_map(values@.take(j as int)).dom()),
                    ),
                    self.held_keys() == stored_keys(
                        rows@.take(
                            if j == 0 {
                                i as int
                            } else {
                                i + 1
                            },
                        ),
                    ).union_prefer_right(keys),
                    self.held_values() == held.union_prefer_right(
                        row_values(seen),
                    ).union_prefer_right(key_values(k, stored_keys(values@.take(j as int)))),
                decreases values.len() - j,
            {
                let ghost v = (*values@[j as int].0)@;
                let ghost front = pairs_map(values@.take(j as int)).dom();
                proof {
                    lemma_seen(values@, j as int);
                    lemma_seen(values@, j + 1);
                    lemma_row(k, front);
                    lemma_row(k, front.insert(v));
                    assert(row(k, front.insert(v)) =~= row(k, front).insert((k, v)));
                    let added = relation(seen).union(row(k, front));
                    assert(other@.contains((k, v)));
                    assert(!added.contains((k, v)));
                    lemma_front(values@, j as int);
                    assert forall|p: (K::V, V::V)| added.contains(p) implies #[trigger] other@
                        .remove((k, v)).contains(p) by {
                        if relation(seen).contains(p) {
                            assert(seen.dom().contains(p.0));
                            assert(pairs_map(rows@).dom().contains(p.0));
                        } else {
                            assert(front.contains(p.1));
                            assert(pairs_map(values@).dom().contains(p.1));
                        }
                    }
                    assert(added.subset_of(other@.remove((k, v))));
                    vstd::set_lib::lemma_len_subset(added, other@.remove((k, v)));
                    assert(self@ =~= start.union(added));
                    vstd::set_lib::lemma_len_union(start, added);
                    lemma_seen_keys(rows@, i as int);
                    lemma_seen_keys(values@, j as int);
                    self.lemma_multimap();
                }
                let ghost earlier = *self;
                self.insert_shared(share(&pair.0), share(&values[j].0));
                j += 1;
                proof {
                    assert(earlier.held_keys().contains_key(k) == relates(earlier@, k));
                    assert(self.held_keys() =~= stored_keys(rows@.take(i + 1)).union_prefer_right(
                        keys,
                    ));
                    assert(self.held_values() =~= held.union_prefer_right(
                        row_values(seen),
                    ).union_prefer_right(key_values(k, stored_keys(values@.take(j as int)))));
                    assert(self@ =~= start.union(relation(seen)).union(
                        row(k, pairs_map(values@.take(j as int)).dom()),
                    ));
                }
            }
            proof {
                lemma_seen(values@, values@.len() as int);
                inside(pair.1).lemma_set();
                lemma_row(k, pair.1@);
                assert(relation(seen.insert(k, *pair.1)) =~= relation(seen).union(
                    row(k, pair.1@),
                ));
                lemma_seen_keys(values@, values@.len() as int);
                assert(values@.len() > 0) by {
                    if values@.len() == 0 {
                        assert(pair.1@ =~= Set::<V::V>::empty());
                    }
                }
                assert(row_values(seen.insert(k, *pair.1)) =~= row_values(
                    seen,
                ).union_prefer_right(key_values(k, pair.1.held())));
                assert(self.held_values() =~= held.union_prefer_right(
                    row_values(seen.insert(k, *pair.1)),
                ));
            }
            i += 1;
            proof {
                assert(self@ =~= start.union(relation(pairs_map(rows@.take(i as int)))));
            }
        }
        proof {
            lemma_seen(rows@, rows@.len() as int);
            lemma_seen_keys(rows@, rows@.len() as int);
        }
    }

    /// The pairs of both multimaps.
    pub fn union(self, other: Self) -> (map: Self) where
        K: HashKey<S>,
        V: HashKey<S>,
        S: HashState + Default,

        requires
            self.wf(),
            other.wf(),
            self@.len() + other@.len() <= usize::MAX,
        ensures
            map.wf(),
            map@ == self@.union(other@),
            map.held_keys() == other.held_keys().union_prefer_right(self.held_keys()),
            map.held_values() == self.held_values().union_prefer_right(other.held_values()),
    {
        let mut map = self;
        map.pour(&other);
        map
    }

    /// Adds a row of a new key.
    fn add_row(&mut self, key: Arc<K>, values: Arc<GenericHashSet<V, S>>) where
        K: HashKey<S>,
        V: HashKey<S>,

        requires
            old(self).wf(),
            values.wf(),
            values@ != Set::<V::V>::empty(),
            !old(self).map@.contains_key((*key)@),
            old(self).map@.len() < usize::MAX,
            old(self)@.len() + values@.len() <= usize::MAX,
            relation(old(self).map@.insert((*key)@, *values)).finite(),
            relation(old(self).map@.insert((*key)@, *values)).len() == old(self)@.len()
                + values@.len(),
        ensures
            final(self).wf(),
            final(self).map@ == old(self).map@.insert((*key)@, *values),
            final(self).held_keys() == old(self).held_keys().insert((*key)@, *key),
    {
        let n: usize = values.len();
        self.map.insert_pair(key, values);
        self.total += n;
    }

    /// The rows whose keys the other multimap holds, or does not hold.
    fn select(&self, other: &Self, wanted: bool) -> (map: Self) where
        K: HashKey<S>,
        V: HashKey<S>,
        S: Default,

        requires
            self.wf(),
            other.wf(),
        ensures
            map.wf(),
            map@ == selected(self@, other@, wanted),
            map.held_keys().submap_of(self.held_keys()),
            map.held_values().submap_of(self.held_values()),
    {
        let mut map = Self::new();
        let rows = self.row_pairs();
        let mut i: usize = 0;
        proof {
            self.lemma_multimap();
            lemma_seen(rows@, 0);
            map.lemma_keys();
            assert forall|key: K::V| !map.map@.contains_key(key) by {
                assert(!relates(map@, key));
            }
            assert(map@ =~= selected(relation(pairs_map(rows@.take(0))), other@, wanted));
        }
        while i < rows.len()
            invariant
                i <= rows.len(),
                distinct(rows@),
                full_sets(pairs_map(rows@)),
                other.wf(),
                self@ == relation(pairs_map(rows@)),
                self@.finite(),
                self@.len() <= usize::MAX,
                map.wf(),
                map.map@.submap_of(pairs_map(rows@.take(i as int))),
                self.held_keys() == stored_keys(rows@),
                self.held_values() == row_values(pairs_map(rows@)),
                map.held_keys().submap_of(self.held_keys()),
                relation(map.map@) == selected(
                    relation(pairs_map(rows@.take(i as int))),
                    other@,
                    wanted,
                ),
            decreases rows.len() - i,
        {
            let pair = &rows[i];
            let ghost k = (*pair.0)@;
            let ghost seen = pairs_map(rows@.take(i as int));
            let ghost before = map.map@;
            proof {
                lemma_seen(rows@, i as int);
                lemma_front(rows@, i as int);
                map.map.lemma_map();
                vstd::set_lib::lemma_len_subset(before.dom(), seen.dom());
                inside(pair.1).lemma_set();
                lemma_select(before, seen, pairs_map(rows@), other@, k, wanted);
            }
            if other.contains_key(&*pair.0) == wanted {
                proof {
                    lemma_stored(rows@, i as int);
                    lemma_submap_insert(map.held_keys(), self.held_keys(), k, inside(pair.0));
                }
                map.add_row(share(&pair.0), share(&pair.1));
            }
            i += 1;
        }
        proof {
            lemma_seen(rows@, rows@.len() as int);
            let whole = pairs_map(rows@);
            assert forall|pair: (K::V, V::V)| #[trigger]
                map.held_values().dom().contains(pair) implies self.held_values().dom().contains(
                pair,
            ) && map.held_values()[pair] == self.held_values()[pair] by {
                assert(map.map@.dom().contains(pair.0));
                assert(whole.dom().contains(pair.0));
                assert(whole[pair.0] == map.map@[pair.0]);
            }
        }
        map
    }

    /// The pairs whose keys the other multimap does not hold.
    pub fn difference(self, other: &Self) -> (map: Self) where
        K: HashKey<S>,
        V: HashKey<S>,
        S: Default,

        requires
            self.wf(),
            other.wf(),
        ensures
            map.wf(),
            map@ == selected(self@, other@, false),
            map.held_keys().submap_of(self.held_keys()),
            map.held_values().submap_of(self.held_values()),
    {
        self.select(other, false)
    }

    /// The pairs whose keys the other multimap holds.
    pub fn intersection(self, other: &Self) -> (map: Self) where
        K: HashKey<S>,
        V: HashKey<S>,
        S: Default,

        requires
            self.wf(),
            other.wf(),
        ensures
            map.wf(),
            map@ == selected(self@, other@, true),
            map.held_keys().submap_of(self.held_keys()),
            map.held_values().submap_of(self.held_values()),
    {
        self.select(other, true)
    }

    /// The pairs whose keys only one of both multimaps holds.
    pub fn symmetric_difference(self, other: &Self) -> (map: Self) where
        K: HashKey<S>,
        V: HashKey<S>,
        S: HashState + Default,

        requires
            self.wf(),
            other.wf(),
            self@.len() + other@.len() <= usize::MAX,
        ensures
            map.wf(),
            map@ == selected(self@, other@, false).union(selected(other@, self@, false)),
            map.held_keys().submap_of(other.held_keys().union_prefer_right(self.held_keys())),
            map.held_values().submap_of(
                self.held_values().union_prefer_right(other.held_values()),
            ),
    {
        let ours = self.select(other, false);
        let theirs = other.select(&self, false);
        proof {
            self.lemma_multimap();
            other.lemma_multimap();
            vstd::set_lib::lemma_len_subset(ours@, self@);
            vstd::set_lib::lemma_len_subset(theirs@, other@);
            ours.lemma_multimap();
            theirs.lemma_multimap();
        }
        let map = ours.union(theirs);
        proof {
            map.lemma_multimap();
            let keys = other.held_keys().union_prefer_right(self.held_keys());
            let values = self.held_values().union_prefer_right(other.held_values());
            assert forall|key: K::V| #[trigger] map.held_keys().dom().contains(key) implies keys
                .dom().contains(key) && map.held_keys()[key] == keys[key] by {
                if ours.held_keys().dom().contains(key) {
                    assert(self.held_keys().dom().contains(key));
                } else {
                    assert(theirs.held_keys().dom().contains(key));
                    assert(other.held_keys().dom().contains(key));
                    assert(relates(theirs@, key));
                    assert(!relates(self@, key));
                }
            }
            assert forall|pair: (K::V, V::V)| #[trigger]
                map.held_values().dom().contains(pair) implies values.dom().contains(pair)
                && map.held_values()[pair] == values[pair] by {
                if theirs.held_values().dom().contains(pair) {
                    assert(other.held_values().dom().contains(pair));
                } else {
                    assert(ours.held_values().dom().contains(pair));
                    assert(self.held_values().dom().contains(pair));
                    assert(ours@.contains(pair));
                    assert(!other@.contains(pair)) by {
                        if other@.contains(pair) {
                            assert(relates(other@, pair.0));
                        }
                    }
                }
            }
        }
        map
    }

    /// For each row, whether its set has one lineage with that of the other multimap
    /// for the key. Which have is not stated.
    fn row_lineages(&self, other: &Self) -> (lineages: Vec<bool>) where
        K: HashKey<S>,
        V: HashKey<S>,

        requires
            self.wf(),
            other.wf(),
        ensures
            lineages@.len() == self.rows().len(),
    {
        let rows = self.row_pairs();
        let mut lineages: Vec<bool> = Vec::new();
        let mut i: usize = 0;
        while i < rows.len()
            invariant
                i <= rows@.len(),
                rows@ == self.rows(),
                other.wf(),
                lineages@.len() == i,
            decreases rows@.len() - i,
        {
            let one = match other.map.get(&*rows[i].0) {
                Some(set) => rows[i].1.same_lineage(set),
                None => false,
            };
            lineages.push(one);
            i += 1;
        }
        lineages
    }

    /// Tests two multimaps for equality: the same keys with equal sets. Sets of one
    /// lineage with the same fingerprint are taken to be equal.
    pub fn test_eq(&self, other: &Self) -> (equal: bool) where
        K: HashKey<S>,
        V: HashKey<S>,
        S: HashState,

        requires
            self.wf(),
            other.wf(),
        ensures
            self@ == other@ ==> equal,
            equal ==> same_rows(*self, *other, Seq::new(self.rows().len(), |i: int| true)),
    {
        let lineages = self.row_lineages(other);
        let equal = self.test_eq_with(other, &lineages);
        proof {
            if self@ == other@ {
                self.lemma_same_rows(*other, lineages@);
            }
        }
        equal
    }

    /// Multimaps of the same pairs have the same rows.
    proof fn lemma_same_rows(self, other: Self, lineages: Seq<bool>) where
        K: HashKey<S>,
        V: HashKey<S>,

        requires
            self.wf(),
            other.wf(),
            self@ == other@,
        ensures
            same_rows(self, other, lineages),
    {
        self.lemma_keys();
        self.map.lemma_map();
        assert forall|i: int| 0 <= i < self.rows().len() implies row_matches(
            #[trigger] self.rows()[i],
            other,
            lineages[i],
        ) by {
            lemma_seen(self.rows(), i);
            assert(self.map@.contains_key((*self.rows()[i].0)@));
        }
    }

    /// Tests two multimaps for equality, given for each row whether its set has one
    /// lineage with that of the other multimap for the key.
    pub fn test_eq_with(&self, other: &Self, lineages: &Vec<bool>) -> (equal: bool) where
        K: HashKey<S>,
        V: HashKey<S>,
        S: HashState,

        requires
            self.wf(),
            other.wf(),
            lineages@.len() == self.rows().len(),
        ensures
            equal == same_rows(*self, *other, lineages@),
    {
        proof {
            self.lemma_multimap();
            other.lemma_multimap();
            self.lemma_keys();
            other.lemma_keys();
            self.map.lemma_map();
            other.map.lemma_map();
        }
        if self.total != other.total || self.map.len() != other.map.len() {
            return false;
        }
        if self.map.ptr_eq(&other.map) {
            proof {
                self.lemma_same_rows(*other, lineages@);
            }
            return true;
        }
        let rows = self.row_pairs();
        let mut i: usize = 0;
        proof {
            lemma_seen(rows@, 0);
        }
        while i < rows.len()
            invariant
                i <= rows.len(),
                distinct(rows@),
                rows@ == self.rows(),
                lineages@.len() == rows@.len(),
                full_sets(pairs_map(rows@)),
                self.map@ == pairs_map(rows@),
                other.wf(),
                self.map@.dom() == related(self@),
                other.map@.dom() == related(other@),
                forall|key: K::V| #[trigger]
                    other.map@.contains_key(key) ==> other.map@[key]@ == image(other@, key),
                pairs_map(rows@.take(i as int)).dom().subset_of(other.map@.dom()),
                forall|j: int|
                    0 <= j < i ==> row_matches(#[trigger] self.rows()[j], *other, lineages@[j]),
            decreases rows.len() - i,
        {
            let pair = &rows[i];
            let ghost k = (*pair.0)@;
            proof {
                lemma_seen(rows@, i as int);
                lemma_seen(rows@, i + 1);
                assert(self.map@.contains_key(k));
                assert(pairs_map(rows@)[k] == *pair.1);
            }
            match other.map.get(&*pair.0) {
                Some(set) => {
                    let same = pair.1.test_eq_with(set, lineages[i]);
                    proof {
                        assert(other.map@.contains_key(k));
                        assert(same == row_matches(self.rows()[i as int], *other, lineages@[i as int]));
                    }
                    if !same {
                        return false;
                    }
                },
                None => {
                    proof {
                        assert(self.map@.dom().contains(k));
                        assert(!other.map@.dom().contains(k));
                    }
                    return false;
                },
            }
            i += 1;
        }
        proof {
            lemma_seen(rows@, rows@.len() as int);
            vstd::set_lib::lemma_subset_equality(self.map@.dom(), other.map@.dom());
        }
        true
    }

    /// Inserts every pair of a list.
    pub fn extend(&mut self, list: Vec<(K, V)>) where
        K: HashKey<S>,
        V: HashKey<S>,
        S: HashState + Default,

        requires
            old(self).wf(),
            old(self)@.len() + list@.len() <= usize::MAX,
        ensures
            final(self).wf(),
            final(self)@ == old(self)@.union(pair_names(list@).to_set()),
            final(self).held_keys() == first_keys(old(self).held_keys(), list@),
            final(self).held_values() == last_values(old(self).held_values(), list@),
    {
        let ghost all = list@;
        let ghost named = pair_names(all);
        proof {
            self.lemma_multimap();
            assert(self@ =~= old(self)@.union(named.take(0).to_set()));
            assert(all.take(0) =~= Seq::<(K, V)>::empty());
        }
        for pair in iter: list.into_iter()
            invariant
                iter.seq() == all,
                named == pair_names(all),
                self.wf(),
                self@.finite(),
                old(self)@.len() + all.len() <= usize::MAX,
                self@.len() <= old(self)@.len() + iter.index(),
                self@ == old(self)@.union(named.take(iter.index() as int).to_set()),
                self.held_keys() == first_keys(
                    old(self).held_keys(),
                    all.take(iter.index() as int),
                ),
                self.held_values() == last_values(
                    old(self).held_values(),
                    all.take(iter.index() as int),
                ),
        {
            let ghost i = iter.index();
            let ghost name = (pair.0@, pair.1@);
            proof {
                assert(pair == all[i as int]);
                self.lemma_multimap();
                assert(self.held_keys().dom().contains(pair.0@) == relates(self@, pair.0@));
                assert(all.take(i + 1).drop_last() =~= all.take(i as int));
            }
            self.insert(pair.0, pair.1);
            proof {
                let front = named.take(i as int);
                assert(named.take(i + 1) =~= front.push(name));
                front.lemma_push_to_set_commute(name);
                assert(self@ =~= old(self)@.union(named.take(i + 1).to_set()));
            }
        }
        proof {
            assert(named.take(named.len() as int) =~= named);
            assert(all.take(all.len() as int) =~= all);
        }
    }

    /// The multimap of a list of pairs.
    pub fn from_vec(list: Vec<(K, V)>) -> (map: Self) where
        K: HashKey<S>,
        V: HashKey<S>,
        S: HashState + Default,

        ensures
            map.wf(),
            map@ == pair_names(list@).to_set(),
            map.held_keys() == first_keys(Map::empty(), list@),
            map.held_values() == last_values(Map::empty(), list@),
    {
        let ghost all = list@;
        let mut map = Self::new();
        proof {
            assert(list@.len() == list.len());
        }
        map.extend(list);
        proof {
            assert(map@ =~= pair_names(all).to_set());
        }
        map
    }
}

/// What the front of a list of entries holds, the whole list holds.
proof fn lemma_front<K: View, V>(pairs: Seq<Pair<K, V>>, i: int)
    requires
        distinct(pairs),
        0 <= i <= pairs.len(),
    ensures
        pairs_map(pairs.take(i)).submap_of(pairs_map(pairs)),
    decreases pairs.len() - i,
{
    lemma_seen(pairs, i);
    if i < pairs.len() {
        lemma_seen(pairs, i + 1);
        lemma_front(pairs, i + 1);
        let part = pairs_map(pairs.take(i));
        let longer = pairs_map(pairs.take(i + 1));
        assert(part.submap_of(longer));
        assert forall|key: K::V| #[trigger] part.contains_key(key) implies pairs_map(
            pairs,
        ).contains_key(key) && pairs_map(pairs)[key] == part[key] by {
            assert(longer.contains_key(key) && longer[key] == part[key]);
        }
    }
}

/// A map of sets that are not empty has no more keys than pairs.
proof fn lemma_rows_total<M, S, V: HashKey<S>>(map: Map<M, GenericHashSet<V, S>>)
    requires
        map.dom().finite(),
        full_sets(map),
        relation(map).finite(),
    ensures
        map.len() <= relation(map).len(),
    decreases map.len(),
{
    if map.len() > 0 {
        let key = map.dom().choose();
        assert(map.contains_key(key));
        map[key].lemma_set();
        lemma_drop_row(map, key);
        if map[key]@.len() == 0 {
            assert(map[key]@ =~= Set::<V::V>::empty());
        }
        lemma_rows_total(map.remove(key));
    }
}

/// The set of one key is no larger than the relation.
proof fn lemma_row_fits<M, S, V: HashKey<S>>(map: Map<M, GenericHashSet<V, S>>, key: M)
    requires
        full_sets(map),
        relation(map).finite(),
        map.contains_key(key),
    ensures
        map[key]@.len() <= relation(map).len(),
{
    map[key].lemma_set();
    lemma_drop_row(map, key);
}

impl<K, V, S: HashState> Clone for GenericHashMultiMap<K, V, S> {
    /// Another multimap with the same root: no pair is copied.
    fn clone(&self) -> (copy: Self)
        ensures
            copy == *self,
    {
        GenericHashMultiMap { map: self.map.clone(), total: self.total }
    }
}

impl<K: HashKey<S>, V: HashKey<S>, S: Default> Default for GenericHashMultiMap<K, V, S> {
    fn default() -> (map: Self)
        ensures
            map.wf(),
            map@ == Set::<(K::V, V::V)>::empty(),
            map.top() is None,
    {
        Self::new()
    }
}

} // verus!
