//! Hash maps made from the entries of hash maps.
use crate::hash_key::{is_default, HashKey};
use crate::hash_map::GenericHashMap;
use crate::hash_map_ops::{fresh, makes, says};
use crate::node::{distinct, Pair};
use crate::shared::{inside, share};
use crate::trie::{lemma_seen, lemma_stored, lemma_submap_len};
use crate::trie::{lemma_submap_insert, pairs_map, stored_keys};
use std::sync::Arc;
use vstd::prelude::*;

verus! {

/// Whether a function that carries an accumulator along a list of entries may
/// have carried it to `acc` when `i` entries are done.
pub open spec fn reaches<K, V, St, V2, F: Fn(St, &K, &V) -> (St, V2)>(
    f: F,
    init: St,
    pairs: Seq<Pair<K, V>>,
    i: nat,
    acc: St,
) -> bool
    decreases i,
{
    if i == 0 {
        acc == init
    } else {
        exists|before: St, out: V2|
            reaches(f, init, pairs, (i - 1) as nat, before) && #[trigger] f.ensures(
                (before, &*pairs[i - 1].0, &*pairs[i - 1].1),
                (acc, out),
            )
    }
}

/// One entry more is done.
proof fn lemma_reaches<K, V, St, V2, F: Fn(St, &K, &V) -> (St, V2)>(
    f: F,
    init: St,
    pairs: Seq<Pair<K, V>>,
    i: nat,
    before: St,
    acc: St,
    out: V2,
)
    requires
        reaches(f, init, pairs, i, before),
        f.ensures((before, &*pairs[i as int].0, &*pairs[i as int].1), (acc, out)),
    ensures
        reaches(f, init, pairs, i + 1, acc),
{
    let n = i + 1;
    assert(pairs[n - 1] == pairs[i as int]);
    assert((n - 1) as nat == i);
    assert(f.ensures((before, &*pairs[n - 1].0, &*pairs[n - 1].1), (acc, out)));
}

/// Whether a function accepts every entry of a map.
pub open spec fn accepts_entries<K: View, V, W, F: Fn(&K, &V) -> W>(f: F, map: Map<K::V, V>) -> bool {
    forall|k: K| map.contains_key(#[trigger] k@) ==> f.requires((&k, &map[k@]))
}

/// Whether a function may fail with an error at an entry of a list, and succeed
/// at every entry before it.
pub open spec fn fails_first<K, V, V2, E, F: Fn(&K, &V) -> Result<V2, E>>(
    f: F,
    pairs: Seq<Pair<K, V>>,
    i: int,
    e: E,
) -> bool {
    &&& f.ensures((&*pairs[i].0, &*pairs[i].1), Err(e))
    &&& forall|j: int| 0 <= j < i ==> succeeds(f, #[trigger] pairs[j])
}

/// Whether an error may be the first one of a function along a list of entries.
pub open spec fn first_error<K, V, V2, E, F: Fn(&K, &V) -> Result<V2, E>>(
    f: F,
    pairs: Seq<Pair<K, V>>,
    e: E,
) -> bool {
    exists|i: int| 0 <= i < pairs.len() && #[trigger] fails_first(f, pairs, i, e)
}

/// Whether a function may succeed at an entry.
pub open spec fn succeeds<K, V, V2, E, F: Fn(&K, &V) -> Result<V2, E>>(f: F, pair: Pair<K, V>) -> bool {
    exists|value: V2| #[trigger] f.ensures((&*pair.0, &*pair.1), Ok(value))
}

/// Whether a function may make `out` of a key and the two values of it.
pub open spec fn weighs<K: View, A, B, W, F: Fn(&K, &A, &B) -> W>(
    f: F,
    key: K::V,
    left: A,
    right: B,
    out: W,
) -> bool {
    exists|k: K| #[trigger] k@ == key && f.ensures((&k, &left, &right), out)
}

/// Whether a function accepts every key of two maps with its two values.
pub open spec fn accepts_both<K: View, A, B, W, F: Fn(&K, &A, &B) -> W>(
    f: F,
    left: Map<K::V, A>,
    right: Map<K::V, B>,
) -> bool {
    forall|k: K|
        left.contains_key(#[trigger] k@) && right.contains_key(k@) ==> f.requires(
            (&k, &left[k@], &right[k@]),
        )
}

impl<K, V, S> GenericHashMap<K, V, S> {
    /// Splits a map in two: the entries that a function says `true` of, and the
    /// others.
    pub fn partition<F: Fn(&K, &V) -> bool>(&self, f: F) -> (parts: (Self, Self)) where
        K: HashKey<S>,
        S: Default,

        requires
            self.wf(),
            accepts_entries(f, self@),
        ensures
            parts.0.wf(),
            parts.1.wf(),
            fresh(parts.0),
            fresh(parts.1),
            is_default(parts.0.state()),
            is_default(parts.1.state()),
            parts.0.held_keys().submap_of(self.held_keys()),
            parts.1.held_keys().submap_of(self.held_keys()),
            parts.0@.submap_of(self@),
            parts.1@ == self@.remove_keys(parts.0@.dom()),
            forall|key: K::V| #[trigger]
                self@.contains_key(key) ==> says(f, key, self@[key], parts.0@.contains_key(key)),
    {
        let mut left = Self::new();
        let mut right = Self::new();
        let pairs = self.pairs();
        let mut i: usize = 0;
        proof {
            self.lemma_map();
            lemma_seen(pairs@, 0);
            assert(right@ =~= pairs_map(pairs@.take(0)).remove_keys(left@.dom()));
        }
        while i < pairs.len()
            invariant
                i <= pairs.len(),
                distinct(pairs@),
                self@ == pairs_map(pairs@),
                pairs@.len() <= usize::MAX,
                accepts_entries(f, self@),
                left.wf(),
                right.wf(),
                fresh(left),
                fresh(right),
                is_default(left.state()),
                is_default(right.state()),
                self.held_keys() == stored_keys(pairs@),
                left.held_keys().submap_of(self.held_keys()),
                right.held_keys().submap_of(self.held_keys()),
                left@.submap_of(pairs_map(pairs@.take(i as int))),
                right@ == pairs_map(pairs@.take(i as int)).remove_keys(left@.dom()),
                forall|key: K::V| #[trigger]
                    pairs_map(pairs@.take(i as int)).contains_key(key) ==> says(
                        f,
                        key,
                        self@[key],
                        left@.contains_key(key),
                    ),
            decreases pairs.len() - i,
        {
            let pair = &pairs[i];
            let ghost key = (*pair.0)@;
            let ghost seen = pairs_map(pairs@.take(i as int));
            proof {
                lemma_seen(pairs@, i as int);
                lemma_stored(pairs@, i as int);
                assert(self.held_keys().contains_pair(key, inside(pair.0)));
                lemma_submap_len(left@, seen);
                lemma_submap_len(right@, seen);
                assert(inside(pair.0)@ == key);
            }
            let verdict = f(&*pair.0, &*pair.1);
            proof {
                assert(says(f, key, self@[key], verdict));
            }
            if verdict {
                left.insert_pair(share(&pair.0), share(&pair.1));
                assert(left@.contains_key(key));
            } else {
                right.insert_pair(share(&pair.0), share(&pair.1));
                assert(right@.contains_key(key));
            }
            i += 1;
            proof {
                assert(right@ =~= pairs_map(pairs@.take(i as int)).remove_keys(left@.dom()));
            }
        }
        proof {
            lemma_seen(pairs@, pairs@.len() as int);
        }
        (left, right)
    }

    /// Splits a map in two and transforms the values: a function puts an entry
    /// to the left with `Ok`, to the right with `Err`.
    pub fn partition_map<V1, V2, F: Fn(&K, &V) -> Result<V1, V2>>(&self, f: F) -> (parts: (
        GenericHashMap<K, V1, S>,
        GenericHashMap<K, V2, S>,
    )) where K: HashKey<S>, S: Default
        requires
            self.wf(),
            accepts_entries(f, self@),
        ensures
            parts.0.wf(),
            parts.1.wf(),
            fresh(parts.0),
            fresh(parts.1),
            is_default(parts.0.state()),
            is_default(parts.1.state()),
            parts.0.held_keys().submap_of(self.held_keys()),
            parts.1.held_keys().submap_of(self.held_keys()),
            parts.0@.dom().union(parts.1@.dom()) == self@.dom(),
            parts.0@.dom().disjoint(parts.1@.dom()),
            forall|key: K::V| #[trigger]
                parts.0@.contains_key(key) ==> makes(f, key, self@[key], Ok(parts.0@[key])),
            forall|key: K::V| #[trigger]
                parts.1@.contains_key(key) ==> makes(f, key, self@[key], Err(parts.1@[key])),
    {
        let mut left = GenericHashMap::<K, V1, S>::new();
        let mut right = GenericHashMap::<K, V2, S>::new();
        let pairs = self.pairs();
        let mut i: usize = 0;
        proof {
            self.lemma_map();
            lemma_seen(pairs@, 0);
            assert(left@.dom().union(right@.dom()) =~= pairs_map(pairs@.take(0)).dom());
        }
        while i < pairs.len()
            invariant
                i <= pairs.len(),
                distinct(pairs@),
                self@ == pairs_map(pairs@),
                pairs@.len() <= usize::MAX,
                accepts_entries(f, self@),
                left.wf(),
                right.wf(),
                fresh(left),
                fresh(right),
                is_default(left.state()),
                is_default(right.state()),
                self.held_keys() == stored_keys(pairs@),
                left.held_keys().submap_of(self.held_keys()),
                right.held_keys().submap_of(self.held_keys()),
                left@.dom().union(right@.dom()) == pairs_map(pairs@.take(i as int)).dom(),
                left@.dom().disjoint(right@.dom()),
                forall|key: K::V| #[trigger]
                    left@.contains_key(key) ==> makes(f, key, self@[key], Ok(left@[key])),
                forall|key: K::V| #[trigger]
                    right@.contains_key(key) ==> makes(f, key, self@[key], Err(right@[key])),
            decreases pairs.len() - i,
        {
            let pair = &pairs[i];
            let ghost key = (*pair.0)@;
            let ghost seen = pairs_map(pairs@.take(i as int));
            proof {
                lemma_seen(pairs@, i as int);
                lemma_stored(pairs@, i as int);
                assert(self.held_keys().contains_pair(key, inside(pair.0)));
                lemma_submap_len(left@, seen);
                lemma_submap_len(right@, seen);
                assert(inside(pair.0)@ == key);
                assert(!left@.contains_key(key) && !right@.contains_key(key));
            }
            let made = f(&*pair.0, &*pair.1);
            proof {
                assert(makes(f, key, self@[key], made));
            }
            match made {
                Ok(v1) => {
                    left.insert_pair(share(&pair.0), Arc::new(v1));
                    assert(left@.contains_key(key));
                },
                Err(v2) => {
                    right.insert_pair(share(&pair.0), Arc::new(v2));
                    assert(right@.contains_key(key));
                },
            }
            i += 1;
            proof {
                assert(left@.dom().union(right@.dom()) =~= pairs_map(pairs@.take(i as int)).dom());
            }
        }
        proof {
            lemma_seen(pairs@, pairs@.len() as int);
        }
        (left, right)
    }

    /// The entries of this map; for keys that the other map has too, a function
    /// decides whether the entry remains and with which value.
    pub fn difference_with<F: Fn(&K, &V, &V) -> Option<V>>(&self, other: &Self, f: F) -> (map:
        Self) where K: HashKey<S>, S: Default
        requires
            self.wf(),
            other.wf(),
            accepts_both(f, self@, other@),
        ensures
            map.wf(),
            fresh(map),
            is_default(map.state()),
            map.held_keys().submap_of(self.held_keys()),
            map@.dom().subset_of(self@.dom()),
            forall|key: K::V| #[trigger]
                self@.contains_key(key) ==> if other@.contains_key(key) {
                    weighs(f, key, self@[key], other@[key], map@.get(key))
                } else {
                    map@.get(key) == Some(self@[key])
                },
    {
        let mut result = Self::new();
        let pairs = self.pairs();
        let mut i: usize = 0;
        proof {
            self.lemma_map();
            lemma_seen(pairs@, 0);
        }
        while i < pairs.len()
            invariant
                i <= pairs.len(),
                distinct(pairs@),
                self@ == pairs_map(pairs@),
                pairs@.len() <= usize::MAX,
                other.wf(),
                accepts_both(f, self@, other@),
                result.wf(),
                fresh(result),
                is_default(result.state()),
                self.held_keys() == stored_keys(pairs@),
                result.held_keys().submap_of(self.held_keys()),
                result@.dom().subset_of(pairs_map(pairs@.take(i as int)).dom()),
                forall|key: K::V| #[trigger]
                    pairs_map(pairs@.take(i as int)).contains_key(key) ==> if other@.contains_key(
                        key,
                    ) {
                        weighs(f, key, self@[key], other@[key], result@.get(key))
                    } else {
                        result@.get(key) == Some(self@[key])
                    },
            decreases pairs.len() - i,
        {
            let pair = &pairs[i];
            let ghost key = (*pair.0)@;
            let ghost seen = pairs_map(pairs@.take(i as int));
            let ghost before = result@;
            proof {
                lemma_seen(pairs@, i as int);
                lemma_stored(pairs@, i as int);
                assert(self.held_keys().contains_pair(key, inside(pair.0)));
                lemma_submap_len(result@, seen);
                assert(inside(pair.0)@ == key);
            }
            match other.get(&*pair.0) {
                Some(v2) => {
                    let decided = f(&*pair.0, &*pair.1, v2);
                    proof {
                        assert(weighs(f, key, self@[key], other@[key], decided));
                    }
                    let ghost first = result.held_keys();
                    match decided {
                        Some(value) => {
                            result.insert_pair(share(&pair.0), Arc::new(value));
                            assert(result@.contains_key(key));
                        },
                        None => {},
                    }
                    proof {
                        assert(result@.get(key) == decided);
                        assert(result.held_keys() == first || result.held_keys() == first.insert(
                            key,
                            inside(pair.0),
                        ));
                        lemma_submap_insert(first, self.held_keys(), key, inside(pair.0));
                    }
                },
                None => {
                    let ghost first = result.held_keys();
                    result.insert_pair(share(&pair.0), share(&pair.1));
                    assert(result@.contains_key(key));
                    proof {
                        lemma_submap_insert(first, self.held_keys(), key, inside(pair.0));
                    }
                },
            }
            i += 1;
            proof {
                assert forall|k: K::V| #[trigger] seen.contains_key(k) implies result@.get(k)
                    == before.get(k) by {}
            }
        }
        proof {
            lemma_seen(pairs@, pairs@.len() as int);
        }
        result
    }

    /// A map with the same keys and the values that a function makes of the
    /// values.
    pub fn map_values<V2, F: Fn(&V) -> V2>(&self, f: F) -> (map: GenericHashMap<K, V2, S>) where
        K: HashKey<S>,
        S: Default,

        requires
            self.wf(),
            forall|key: K::V| #[trigger]
                self@.contains_key(key) ==> f.requires((&self@[key],)),
        ensures
            map.wf(),
            fresh(map),
            is_default(map.state()),
            map.held_keys().submap_of(self.held_keys()),
            map@.dom() == self@.dom(),
            forall|key: K::V| #[trigger]
                map@.contains_key(key) ==> f.ensures((&self@[key],), map@[key]),
    {
        let mut result = GenericHashMap::<K, V2, S>::new();
        let pairs = self.pairs();
        let mut i: usize = 0;
        proof {
            self.lemma_map();
            lemma_seen(pairs@, 0);
            assert(result@.dom() =~= pairs_map(pairs@.take(0)).dom());
        }
        while i < pairs.len()
            invariant
                i <= pairs.len(),
                distinct(pairs@),
                self@ == pairs_map(pairs@),
                pairs@.len() <= usize::MAX,
                forall|key: K::V| #[trigger]
                    self@.contains_key(key) ==> f.requires((&self@[key],)),
                result.wf(),
                fresh(result),
                is_default(result.state()),
                self.held_keys() == stored_keys(pairs@),
                result.held_keys().submap_of(self.held_keys()),
                result@.dom() == pairs_map(pairs@.take(i as int)).dom(),
                forall|key: K::V| #[trigger]
                    result@.contains_key(key) ==> f.ensures((&self@[key],), result@[key]),
            decreases pairs.len() - i,
        {
            let pair = &pairs[i];
            let ghost key = (*pair.0)@;
            proof {
                lemma_seen(pairs@, i as int);
                lemma_stored(pairs@, i as int);
                assert(self.held_keys().contains_pair(key, inside(pair.0)));
                assert(self@.contains_key(key));
            }
            let value = f(&*pair.1);
            result.insert_pair(share(&pair.0), Arc::new(value));
            assert(result@.contains_key(key));
            i += 1;
            proof {
                assert(result@.dom() =~= pairs_map(pairs@.take(i as int)).dom());
            }
        }
        proof {
            lemma_seen(pairs@, pairs@.len() as int);
        }
        result
    }

    /// A map with the same keys and the values that a function makes of the
    /// entries, or the first error of the function, in the order of the entries,
    /// in which case no map is made.
    pub fn try_map_values<V2, E, F: Fn(&K, &V) -> Result<V2, E>>(&self, f: F) -> (made: Result<
        GenericHashMap<K, V2, S>,
        E,
    >) where K: HashKey<S>, S: Default
        requires
            self.wf(),
            accepts_entries(f, self@),
        ensures
            match made {
                Ok(map) => {
                    &&& map.wf()
                    &&& fresh(map)
                    &&& is_default(map.state())
                    &&& map.held_keys().submap_of(self.held_keys())
                    &&& map@.dom() == self@.dom()
                    &&& forall|key: K::V| #[trigger]
                        map@.contains_key(key) ==> makes(f, key, self@[key], Ok(map@[key]))
                },
                Err(e) => first_error::<K, V, V2, E, F>(f, self.entries(), e),
            },
    {
        let mut result = GenericHashMap::<K, V2, S>::new();
        let pairs = self.pairs();
        let mut i: usize = 0;
        proof {
            self.lemma_map();
            lemma_seen(pairs@, 0);
            assert(result@.dom() =~= pairs_map(pairs@.take(0)).dom());
        }
        while i < pairs.len()
            invariant
                i <= pairs.len(),
                distinct(pairs@),
                self@ == pairs_map(pairs@),
                pairs@.len() <= usize::MAX,
                accepts_entries(f, self@),
                result.wf(),
                fresh(result),
                is_default(result.state()),
                self.held_keys() == stored_keys(pairs@),
                result.held_keys().submap_of(self.held_keys()),
                result@.dom() == pairs_map(pairs@.take(i as int)).dom(),
                forall|key: K::V| #[trigger]
                    result@.contains_key(key) ==> makes(f, key, self@[key], Ok(result@[key])),
                pairs@ == self.entries(),
                forall|j: int| 0 <= j < i ==> succeeds(f, #[trigger] pairs@[j]),
            decreases pairs.len() - i,
        {
            let pair = &pairs[i];
            let ghost key = (*pair.0)@;
            proof {
                lemma_seen(pairs@, i as int);
                lemma_stored(pairs@, i as int);
                assert(self.held_keys().contains_pair(key, inside(pair.0)));
                assert(self@.contains_key(key));
                assert(inside(pair.0)@ == key);
            }
            let made = f(&*pair.0, &*pair.1);
            proof {
                assert(makes(f, key, self@[key], made));
                assert(f.ensures((&*pairs@[i as int].0, &*pairs@[i as int].1), made));
            }
            match made {
                Ok(value) => {
                    proof {
                        assert(succeeds(f, pairs@[i as int]));
                    }
                    result.insert_pair(share(&pair.0), Arc::new(value));
                    assert(result@.contains_key(key));
                },
                Err(e) => {
                    proof {
                        assert(fails_first(f, self.entries(), i as int, e));
                    }
                    return Err(e);
                },
            }
            i += 1;
            proof {
                assert(result@.dom() =~= pairs_map(pairs@.take(i as int)).dom());
            }
        }
        proof {
            lemma_seen(pairs@, pairs@.len() as int);
        }
        Ok(result)
    }

    /// A map with the same keys and the values that a function makes of the
    /// entries.
    pub fn map_values_with_key<V2, F: Fn(&K, &V) -> V2>(&self, f: F) -> (map: GenericHashMap<
        K,
        V2,
        S,
    >) where K: HashKey<S>, S: Default
        requires
            self.wf(),
            accepts_entries(f, self@),
        ensures
            map.wf(),
            fresh(map),
            is_default(map.state()),
            map.held_keys().submap_of(self.held_keys()),
            map@.dom() == self@.dom(),
            forall|key: K::V| #[trigger]
                map@.contains_key(key) ==> makes(f, key, self@[key], map@[key]),
    {
        let mut result = GenericHashMap::<K, V2, S>::new();
        let pairs = self.pairs();
        let mut i: usize = 0;
        proof {
            self.lemma_map();
            lemma_seen(pairs@, 0);
            assert(result@.dom() =~= pairs_map(pairs@.take(0)).dom());
        }
        while i < pairs.len()
            invariant
                i <= pairs.len(),
                distinct(pairs@),
                self@ == pairs_map(pairs@),
                pairs@.len() <= usize::MAX,
                accepts_entries(f, self@),
                result.wf(),
                fresh(result),
                is_default(result.state()),
                self.held_keys() == stored_keys(pairs@),
                result.held_keys().submap_of(self.held_keys()),
                result@.dom() == pairs_map(pairs@.take(i as int)).dom(),
                forall|key: K::V| #[trigger]
                    result@.contains_key(key) ==> makes(f, key, self@[key], result@[key]),
            decreases pairs.len() - i,
        {
            let pair = &pairs[i];
            let ghost key = (*pair.0)@;
            proof {
                lemma_seen(pairs@, i as int);
                lemma_stored(pairs@, i as int);
                assert(self.held_keys().contains_pair(key, inside(pair.0)));
                assert(self@.contains_key(key));
                assert(inside(pair.0)@ == key);
            }
            let value = f(&*pair.0, &*pair.1);
            proof {
                assert(makes(f, key, self@[key], value));
            }
            result.insert_pair(share(&pair.0), Arc::new(value));
            assert(result@.contains_key(key));
            i += 1;
            proof {
                assert(result@.dom() =~= pairs_map(pairs@.take(i as int)).dom());
            }
        }
        proof {
            lemma_seen(pairs@, pairs@.len() as int);
        }
        result
    }

    /// A map with the same keys and the values that a function makes of an
    /// accumulator and the entries, in the order of the entries; with the last
    /// accumulator.
    pub fn map_accum<St, V2, F: Fn(St, &K, &V) -> (St, V2)>(&self, init: St, f: F) -> (result: (
        St,
        GenericHashMap<K, V2, S>,
    )) where K: HashKey<S>, S: Default
        requires
            self.wf(),
            forall|i: nat, acc: St|
                i < self.entries().len() && #[trigger] reaches(f, init, self.entries(), i, acc)
                    ==> f.requires(
                    (acc, &*self.entries()[i as int].0, &*self.entries()[i as int].1),
                ),
        ensures
            result.1.wf(),
            fresh(result.1),
            is_default(result.1.state()),
            result.1.held_keys().submap_of(self.held_keys()),
            result.1@.dom() == self@.dom(),
            exists|accs: Seq<St>|
                {
                    &&& accs.len() == self.entries().len() + 1
                    &&& accs[0] == init
                    &&& accs[self.entries().len() as int] == result.0
                    &&& forall|i: int|
                        0 <= i < self.entries().len() ==> {
                            let pair = #[trigger] self.entries()[i];
                            f.ensures(
                                (accs[i], &*pair.0, &*pair.1),
                                (accs[i + 1], result.1@[(*pair.0)@]),
                            )
                        }
                },
    {
        let mut result = GenericHashMap::<K, V2, S>::new();
        let pairs = self.pairs();
        let mut acc = init;
        let ghost mut accs = seq![init];
        let mut i: usize = 0;
        proof {
            self.lemma_map();
            lemma_seen(pairs@, 0);
            assert(result@.dom() =~= pairs_map(pairs@.take(0)).dom());
        }
        while i < pairs.len()
            invariant
                i <= pairs.len(),
                distinct(pairs@),
                self@ == pairs_map(pairs@),
                pairs@.len() <= usize::MAX,
                forall|j: nat, acc: St|
                    j < pairs@.len() && #[trigger] reaches(f, init, pairs@, j, acc)
                        ==> f.requires((acc, &*pairs@[j as int].0, &*pairs@[j as int].1)),
                reaches(f, init, pairs@, i as nat, acc),
                result.wf(),
                fresh(result),
                is_default(result.state()),
                self.held_keys() == stored_keys(pairs@),
                result.held_keys().submap_of(self.held_keys()),
                result@.dom() == pairs_map(pairs@.take(i as int)).dom(),
                accs.len() == i + 1,
                accs[0] == init,
                accs[i as int] == acc,
                forall|j: int|
                    0 <= j < i ==> {
                        let pair = #[trigger] pairs@[j];
                        &&& pairs_map(pairs@.take(i as int)).contains_key((*pair.0)@)
                        &&& f.ensures(
                            (accs[j], &*pair.0, &*pair.1),
                            (accs[j + 1], result@[(*pair.0)@]),
                        )
                    },
            decreases pairs.len() - i,
        {
            let pair = &pairs[i];
            let ghost key = (*pair.0)@;
            let ghost seen = pairs_map(pairs@.take(i as int));
            proof {
                lemma_seen(pairs@, i as int);
                lemma_stored(pairs@, i as int);
                assert(self.held_keys().contains_pair(key, inside(pair.0)));
                assert(self@.contains_key(key));
                assert(inside(pair.0)@ == key);
            }
            let ghost before = acc;
            let (next, value) = f(acc, &*pair.0, &*pair.1);
            proof {
                assert(f.ensures((before, &*pairs@[i as int].0, &*pairs@[i as int].1), (next, value)));
                lemma_reaches(f, init, pairs@, i as nat, before, next, value);
            }
            acc = next;
            result.insert_pair(share(&pair.0), Arc::new(value));
            assert(result@.contains_key(key));
            proof {
                accs = accs.push(next);
                assert forall|j: int| 0 <= j < i + 1 implies {
                    let p = #[trigger] pairs@[j];
                    &&& pairs_map(pairs@.take(i + 1)).contains_key((*p.0)@)
                    &&& f.ensures((accs[j], &*p.0, &*p.1), (accs[j + 1], result@[(*p.0)@]))
                } by {
                    if j < i {
                        assert(seen.contains_key((*pairs@[j].0)@));
                    }
                }
            }
            i += 1;
            proof {
                assert(result@.dom() =~= pairs_map(pairs@.take(i as int)).dom());
            }
        }
        proof {
            lemma_seen(pairs@, pairs@.len() as int);
        }
        (acc, result)
    }

    /// A map with the same values under the keys that a function makes of the
    /// keys. Where it makes one key of several, the value of the last of them,
    /// in the order of the entries, stays.
    pub fn map_keys<K2, F: Fn(&K) -> K2>(&self, f: F) -> (map: GenericHashMap<K2, V, S>) where
        K: HashKey<S>,
        K2: HashKey<S>,
        S: Default,

        requires
            self.wf(),
            forall|k: K| self@.contains_key(#[trigger] k@) ==> f.requires((&k,)),
        ensures
            map.wf(),
            fresh(map),
            is_default(map.state()),
            exists|names: Seq<K2>|
                {
                    &&& names.len() == self.entries().len()
                    &&& forall|i: int|
                        0 <= i < names.len() ==> f.ensures(
                            (&*self.entries()[i].0,),
                            #[trigger] names[i],
                        )
                    &&& renamed(self.entries(), names, map@, map.held_keys())
                },
    {
        let mut result = GenericHashMap::<K2, V, S>::new();
        let pairs = self.pairs();
        let ghost mut names: Seq<K2> = Seq::empty();
        let mut i: usize = 0;
        proof {
            self.lemma_map();
        }
        while i < pairs.len()
            invariant
                i <= pairs.len(),
                distinct(pairs@),
                self@ == pairs_map(pairs@),
                pairs@.len() <= usize::MAX,
                forall|k: K| self@.contains_key(#[trigger] k@) ==> f.requires((&k,)),
                result.wf(),
                fresh(result),
                is_default(result.state()),
                names.len() == i,
                forall|j: int| 0 <= j < i ==> f.ensures((&*pairs@[j].0,), #[trigger] names[j]),
                renamed(pairs@.take(i as int), names, result@, result.held_keys()),
                result@.dom().finite(),
                result@.len() <= i,
            decreases pairs.len() - i,
        {
            let pair = &pairs[i];
            proof {
                lemma_seen(pairs@, i as int);
                assert(inside(pair.0)@ == (*pair.0)@);
            }
            let name = f(&*pair.0);
            let ghost before = result@;
            let ghost old_names = names;
            proof {
                names = names.push(name);
            }
            result.insert_pair(Arc::new(name), share(&pair.1));
            assert(result@.contains_key(names.last()@));
            i += 1;
            proof {
                let front = pairs@.take(i as int);
                assert(front.take(i - 1) =~= pairs@.take(i - 1));
                assert forall|key: K2::V| #[trigger]
                    result@.contains_key(key) implies exists|j: int|
                    0 <= j < names.len() && (#[trigger] names[j])@ == key by {
                    if key == name@ {
                        assert(names[i - 1]@ == key);
                    } else {
                        assert(before.contains_key(key));
                        let j = choose|j: int|
                            0 <= j < old_names.len() && (#[trigger] old_names[j])@ == key;
                        assert(names[j] == old_names[j]);
                    }
                }
                assert forall|j: int| 0 <= j < names.len() implies {
                    &&& result@.contains_key((#[trigger] names[j])@)
                    &&& (forall|l: int|
                        j < l < names.len() ==> (#[trigger] names[l])@ != names[j]@)
                        ==> result@[names[j]@] == *front[j].1 && result.held_keys()[names[j]@]
                        == names[j]
                } by {
                    if j < i - 1 {
                        assert(names[j] == old_names[j]);
                        assert(front[j] == pairs@.take(i - 1)[j]);
                        if names[j]@ == name@ {
                            assert(names[i - 1]@ == names[j]@);
                        } else if forall|l: int|
                            j < l < names.len() ==> (#[trigger] names[l])@ != names[j]@ {
                            assert forall|l: int| j < l < old_names.len() implies (
                            #[trigger] old_names[l])@ != old_names[j]@ by {
                                assert(names[l] == old_names[l]);
                            }
                        }
                    }
                }
            }
        }
        proof {
            assert(pairs@.take(pairs@.len() as int) =~= pairs@);
        }
        result
    }
}

/// Whether a map holds the values of a list of entries under new names, the
/// last value of each name, and of equal names the last one.
pub open spec fn renamed<K, K2: View, V>(
    pairs: Seq<Pair<K, V>>,
    names: Seq<K2>,
    map: Map<K2::V, V>,
    keys: Map<K2::V, K2>,
) -> bool {
    &&& forall|key: K2::V| #[trigger]
        map.contains_key(key) ==> exists|i: int|
            0 <= i < names.len() && (#[trigger] names[i])@ == key
    &&& forall|i: int|
        0 <= i < names.len() ==> {
            &&& map.contains_key((#[trigger] names[i])@)
            &&& (forall|j: int| i < j < names.len() ==> (#[trigger] names[j])@ != names[i]@)
                ==> map[names[i]@] == *pairs[i].1 && keys[names[i]@] == names[i]
        }
}

} // verus!
