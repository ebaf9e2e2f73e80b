//! Set operations on hash maps, and maps made from maps.
use crate::hash_key::{HashKey, HashState};
use crate::hash_map::GenericHashMap;
use crate::node::distinct;
use crate::shared::{inside, share, take};
use crate::trie::{lemma_seen_keys, lemma_stored, pairs_map, stored_keys};
use crate::trie::{lemma_seen, lemma_submap_len};
use std::sync::Arc;
use vstd::prelude::*;

verus! {

/// The keys of a union in which those of the larger map stay.
pub open spec fn kept_keys<M, K>(a: Map<M, K>, b: Map<M, K>) -> Map<M, K> {
    if a.len() >= b.len() {
        b.union_prefer_right(a)
    } else {
        a.union_prefer_right(b)
    }
}

/// The keys of a union in which those of the smaller map replace those of the
/// larger one.
pub open spec fn replaced_keys<M, K>(a: Map<M, K>, b: Map<M, K>) -> Map<M, K> {
    if a.len() >= b.len() {
        a.union_prefer_right(b)
    } else {
        b.union_prefer_right(a)
    }
}

/// What the union of two maps is: for keys in both, the value of the first one stays.
/// Where the second one adds nothing to a first one that is no smaller, it is the
/// first one as it is.
pub open spec fn united<K: View, V, S>(
    a: GenericHashMap<K, V, S>,
    b: GenericHashMap<K, V, S>,
    map: GenericHashMap<K, V, S>,
) -> bool {
    &&& map@ == b@.union_prefer_right(a@)
    &&& map.held_keys() == kept_keys(a.held_keys(), b.held_keys())
    &&& map.state() == if a@.len() >= b@.len() {
        a.state()
    } else {
        b.state()
    }
    &&& if a@.len() >= b@.len() && b@.dom().subset_of(a@.dom()) {
        map == a
    } else if a@.len() == 0 {
        map == b
    } else {
        map.kv_merkle() is None && map.top() is Some
    }
}

/// Whether a function may say `verdict` of an entry.
pub open spec fn says<K: View, V, F: Fn(&K, &V) -> bool>(
    f: F,
    key: K::V,
    value: V,
    verdict: bool,
) -> bool {
    exists|k: K| #[trigger] k@ == key && f.ensures((&k, &value), verdict)
}

/// Whether a function may make `out` of an entry.
pub open spec fn makes<K: View, V, W, F: Fn(&K, &V) -> W>(f: F, key: K::V, value: V, out: W) -> bool {
    exists|k: K| #[trigger] k@ == key && f.ensures((&k, &value), out)
}

/// Whether a function may make `out` of a key and the two values of it, each
/// given as the value itself or a clone.
pub open spec fn joins<K: View, A: Clone, B: Clone, W, F: Fn(&K, A, B) -> W>(
    f: F,
    key: K::V,
    left: A,
    right: B,
    out: W,
) -> bool {
    exists|k: K, a: A, b: B|
        k@ == key && cloned(left, a) && cloned(right, b) && #[trigger] f.ensures((&k, a, b), out)
}

/// Whether a function accepts a key and two values of it, each given as the
/// value itself or a clone.
pub open spec fn accepts<K: View, A: Clone, B: Clone, W, F: Fn(&K, A, B) -> W>(
    f: F,
    key: K::V,
    left: A,
    right: B,
) -> bool {
    forall|k: K, a: A, b: B|
        k@ == key && cloned(left, a) && cloned(right, b) ==> #[trigger] f.requires((&k, a, b))
}

/// Whether a function of two values accepts the values of every key of two
/// maps, each given as the value itself or a clone.
pub open spec fn accepts_common<M, A: Clone, B: Clone, W, F: Fn(A, B) -> W>(
    f: F,
    left: Map<M, A>,
    right: Map<M, B>,
) -> bool {
    forall|key: M, a: A, b: B|
        #![trigger left.contains_key(key), f.requires((a, b))]
        left.contains_key(key) && right.contains_key(key) && cloned(left[key], a) && cloned(
            right[key],
            b,
        ) ==> f.requires((a, b))
}

/// Whether a function of two values accepts them.
pub open spec fn accepts_two<A, B, W, F: Fn(A, B) -> W>(f: &F, a: A, b: B) -> bool {
    (*f).requires((a, b))
}

/// Whether a function of two values may make `out` of them.
pub open spec fn makes_of_two<A, B, W, F: Fn(A, B) -> W>(f: &F, a: A, b: B, out: W) -> bool {
    (*f).ensures((a, b), out)
}

/// Whether a function of a key and two values accepts them.
pub open spec fn accepts_three<K, A, B, W, F: Fn(&K, A, B) -> W>(f: &F, k: &K, a: A, b: B) -> bool {
    (*f).requires((k, a, b))
}

/// Whether a function of a key and two values may make `out` of them.
pub open spec fn makes_of_three<K, A, B, W, F: Fn(&K, A, B) -> W>(
    f: &F,
    k: &K,
    a: A,
    b: B,
    out: W,
) -> bool {
    (*f).ensures((k, a, b), out)
}

impl<K, V, S> GenericHashMap<K, V, S> {
    /// Keeps the entries that a function says `true` of.
    pub fn retain<F: Fn(&K, &V) -> bool>(&mut self, f: F) where K: HashKey<S>
        requires
            old(self).wf(),
            forall|k: K| old(self)@.contains_key(#[trigger] k@) ==> f.requires(
                (&k, &old(self)@[k@]),
            ),
        ensures
            final(self).wf(),
            final(self).state() == old(self).state(),
            match old(self).top() {
                Some(_) => final(self).kv_merkle() is None && final(self).top() is Some,
                None => *final(self) == *old(self),
            },
            final(self)@.submap_of(old(self)@),
            final(self).held_keys().submap_of(old(self).held_keys()),
            forall|key: K::V| #[trigger]
                old(self)@.contains_key(key) ==> says(
                    f,
                    key,
                    old(self)@[key],
                    final(self)@.contains_key(key),
                ),
    {
        if !self.has_root() {
            return;
        }
        let ghost before = *self;
        let pairs = self.pairs();
        self.invalidate_kv();
        let mut i: usize = 0;
        proof {
            lemma_seen(pairs@, 0);
        }
        while i < pairs.len()
            invariant
                i <= pairs.len(),
                distinct(pairs@),
                before@ == pairs_map(pairs@),
                self.wf(),
                self.state() == before.state(),
                self.kv_merkle() is None,
                self.top() is Some,
                self@.submap_of(before@),
                self.held_keys().submap_of(before.held_keys()),
                forall|k: K| before@.contains_key(#[trigger] k@) ==> f.requires(
                    (&k, &before@[k@]),
                ),
                forall|key: K::V| #[trigger]
                    pairs_map(pairs@.take(i as int)).contains_key(key) ==> says(
                        f,
                        key,
                        before@[key],
                        self@.contains_key(key),
                    ),
                forall|key: K::V| #[trigger]
                    before@.contains_key(key) && !pairs_map(pairs@.take(i as int)).contains_key(
                        key,
                    ) ==> self@.contains_key(key),
            decreases pairs.len() - i,
        {
            let pair = &pairs[i];
            proof {
                lemma_seen(pairs@, i as int);
                lemma_seen(pairs@, i + 1);
            }
            let ghost key = (*pair.0)@;
            let keep = f(&*pair.0, &*pair.1);
            proof {
                assert(inside(pair.0)@ == key);
                assert(says(f, key, before@[key], keep));
            }
            if !keep {
                self.remove_pair_invalidate(&*pair.0);
            }
            i += 1;
        }
        proof {
            lemma_seen(pairs@, pairs@.len() as int);
        }
    }

    /// The union of two maps; for keys in both, the value of this one stays. The
    /// smaller map is poured into the larger one, whose hasher state stays.
    pub fn union(self, other: Self) -> (map: Self) where K: HashKey<S>
        requires
            self.wf(),
            other.wf(),
            self@.len() + other@.len() <= usize::MAX,
        ensures
            map.wf(),
            united(self, other, map),
    {
        proof {
            self.lemma_map();
            other.lemma_map();
        }
        if self.len() >= other.len() {
            self.with_missing(&other)
        } else {
            let map = other.with_values(&self);
            proof {
                if self@.len() > 0 && other@.dom().subset_of(self@.dom()) {
                    vstd::set_lib::lemma_len_subset(other@.dom(), self@.dom());
                }
            }
            map
        }
    }

    /// This map, with the entries of another one whose keys it has not.
    fn with_missing(self, other: &Self) -> (map: Self) where K: HashKey<S>
        requires
            self.wf(),
            other.wf(),
            self@.len() + other@.len() <= usize::MAX,
        ensures
            map.wf(),
            map@ == other@.union_prefer_right(self@),
            map.held_keys() == other.held_keys().union_prefer_right(self.held_keys()),
            map.state() == self.state(),
            if other@.dom().subset_of(self@.dom()) {
                map == self
            } else {
                map.kv_merkle() is None && map.top() is Some
            },
    {
        let mut map = self;
        let pairs = other.pairs();
        let mut i: usize = 0;
        proof {
            self.lemma_map();
            other.lemma_map();
            lemma_seen(pairs@, 0);
            assert(map@ =~= pairs_map(pairs@.take(0)).union_prefer_right(self@));
            lemma_seen_keys(pairs@, 0);
            assert(map.held_keys() =~= stored_keys(pairs@.take(0)).union_prefer_right(
                self.held_keys(),
            ));
        }
        while i < pairs.len()
            invariant
                i <= pairs.len(),
                distinct(pairs@),
                map.wf(),
                map.state() == self.state(),
                map.held_keys() == stored_keys(pairs@.take(i as int)).union_prefer_right(
                    self.held_keys(),
                ),
                self.held_keys().dom() == self@.dom(),
                self.wf(),
                self@.dom().finite(),
                self@.len() + pairs@.len() <= usize::MAX,
                map@ == pairs_map(pairs@.take(i as int)).union_prefer_right(self@),
                if pairs_map(pairs@.take(i as int)).dom().subset_of(self@.dom()) {
                    map == self
                } else {
                    map.kv_merkle() is None && map.top() is Some
                },
            decreases pairs.len() - i,
        {
            let pair = &pairs[i];
            let ghost key = (*pair.0)@;
            proof {
                lemma_seen(pairs@, i as int);
                lemma_seen_keys(pairs@, i as int);
                lemma_union_len(self@, pairs_map(pairs@.take(i as int)));
                let seen = pairs_map(pairs@.take(i as int)).dom();
                assert(seen.insert(key).subset_of(self@.dom()) == (seen.subset_of(self@.dom())
                    && self@.contains_key(key)));
            }
            if !map.contains_key(&*pair.0) {
                map.insert_pair(share(&pair.0), share(&pair.1));
            }
            i += 1;
            proof {
                assert(map@ =~= pairs_map(pairs@.take(i as int)).union_prefer_right(self@));
                assert(map.held_keys() =~= stored_keys(
                    pairs@.take(i as int),
                ).union_prefer_right(self.held_keys()));
            }
        }
        proof {
            lemma_seen(pairs@, pairs@.len() as int);
            lemma_seen_keys(pairs@, pairs@.len() as int);
        }
        map
    }

    /// This map, with the entries of another one put in; keys of both stay as they
    /// are here.
    fn with_values(self, other: &Self) -> (map: Self) where K: HashKey<S>
        requires
            self.wf(),
            other.wf(),
            self@.len() + other@.len() <= usize::MAX,
        ensures
            map.wf(),
            map@ == self@.union_prefer_right(other@),
            map.held_keys() == other.held_keys().union_prefer_right(self.held_keys()),
            map.state() == self.state(),
            if other@.len() == 0 {
                map == self
            } else {
                map.kv_merkle() is None && map.top() is Some
            },
    {
        let mut map = self;
        let pairs = other.pairs();
        let mut i: usize = 0;
        proof {
            self.lemma_map();
            other.lemma_map();
            lemma_seen(pairs@, 0);
            assert(map@ =~= self@.union_prefer_right(pairs_map(pairs@.take(0))));
            lemma_seen_keys(pairs@, 0);
            assert(map.held_keys() =~= stored_keys(pairs@.take(0)).union_prefer_right(
                self.held_keys(),
            ));
        }
        while i < pairs.len()
            invariant
                i <= pairs.len(),
                distinct(pairs@),
                map.wf(),
                map.state() == self.state(),
                map.held_keys() == stored_keys(pairs@.take(i as int)).union_prefer_right(
                    self.held_keys(),
                ),
                self.held_keys().dom() == self@.dom(),
                self.wf(),
                self@.dom().finite(),
                self@.len() + pairs@.len() <= usize::MAX,
                map@ == self@.union_prefer_right(pairs_map(pairs@.take(i as int))),
                if i == 0 {
                    map == self
                } else {
                    map.kv_merkle() is None && map.top() is Some
                },
            decreases pairs.len() - i,
        {
            let pair = &pairs[i];
            let ghost key = (*pair.0)@;
            proof {
                lemma_seen(pairs@, i as int);
                lemma_seen_keys(pairs@, i as int);
                lemma_union_len(pairs_map(pairs@.take(i as int)), self@);
            }
            let held = match map.get_pair(&*pair.0) {
                Some(found) => share(&found.0),
                None => share(&pair.0),
            };
            map.insert_pair(held, share(&pair.1));
            i += 1;
            proof {
                assert(map@ =~= self@.union_prefer_right(pairs_map(pairs@.take(i as int))));
                assert(map.held_keys() =~= stored_keys(
                    pairs@.take(i as int),
                ).union_prefer_right(self.held_keys()));
            }
        }
        proof {
            lemma_seen(pairs@, pairs@.len() as int);
            lemma_seen_keys(pairs@, pairs@.len() as int);
        }
        map
    }

    /// The entries whose keys are not in the other map.
    pub fn difference(self, other: Self) -> (map: Self) where K: HashKey<S>
        requires
            self.wf(),
            other.wf(),
        ensures
            map.wf(),
            map@ == self@.remove_keys(other@.dom()),
            map.held_keys().submap_of(self.held_keys()),
            map.state() == self.state(),
            map.top() is None == self.top() is None,
            if self@.dom().disjoint(other@.dom()) {
                map == self
            } else {
                map.kv_merkle() is None
            },
    {
        let mut map = self;
        let pairs = other.pairs();
        let mut i: usize = 0;
        proof {
            lemma_seen(pairs@, 0);
            assert(map@ =~= self@.remove_keys(pairs_map(pairs@.take(0)).dom()));
        }
        while i < pairs.len()
            invariant
                i <= pairs.len(),
                distinct(pairs@),
                map.wf(),
                map.state() == self.state(),
                map@ == self@.remove_keys(pairs_map(pairs@.take(i as int)).dom()),
                map.held_keys().submap_of(self.held_keys()),
                map.top() is None == self.top() is None,
                if self@.dom().disjoint(pairs_map(pairs@.take(i as int)).dom()) {
                    map == self
                } else {
                    map.kv_merkle() is None
                },
            decreases pairs.len() - i,
        {
            let pair = &pairs[i];
            proof {
                lemma_seen(pairs@, i as int);
                let seen = pairs_map(pairs@.take(i as int)).dom();
                let key = (*pair.0)@;
                map.lemma_top();
                assert(self@.dom().disjoint(seen.insert(key)) == (self@.dom().disjoint(seen)
                    && !self@.contains_key(key)));
            }
            map.remove_pair_invalidate(&*pair.0);
            i += 1;
            proof {
                assert(map@ =~= self@.remove_keys(pairs_map(pairs@.take(i as int)).dom()));
            }
        }
        proof {
            lemma_seen(pairs@, pairs@.len() as int);
        }
        map
    }
}

/// The size of the union of two maps is at most the sum of the sizes.
pub(crate) proof fn lemma_union_len<M, V>(a: Map<M, V>, b: Map<M, V>)
    requires
        a.dom().finite(),
        b.dom().finite(),
    ensures
        b.union_prefer_right(a).dom().finite(),
        b.union_prefer_right(a).len() <= a.len() + b.len(),
{
    assert(b.union_prefer_right(a).dom() =~= b.dom().union(a.dom()));
    vstd::set_lib::lemma_len_union(b.dom(), a.dom());
}

/// Whether a map may have been made anew: just when it is empty it has a valid
/// fingerprint and no root.
pub open spec fn fresh<K: View, V, S>(map: GenericHashMap<K, V, S>) -> bool {
    &&& map.kv_merkle() == if map@ == Map::<K::V, V>::empty() {
        Some(0u64)
    } else {
        None
    }
    &&& map.top() is None == (map@ == Map::<K::V, V>::empty())
}

/// Whether a function that joins two values may join them to what a map holds
/// for each key of two maps, which otherwise hold what the map holds.
pub open spec fn joined<K: View, V: Clone, F: Fn(&K, V, V) -> V>(
    f: F,
    left: Map<K::V, V>,
    right: Map<K::V, V>,
    map: Map<K::V, V>,
) -> bool {
    &&& map.dom() == left.dom().union(right.dom())
    &&& forall|key: K::V| #[trigger]
        map.contains_key(key) ==> if !right.contains_key(key) {
            map[key] == left[key]
        } else if !left.contains_key(key) {
            map[key] == right[key]
        } else {
            joins(f, key, left[key], right[key], map[key])
        }
}

impl<K, V, S> GenericHashMap<K, V, S> {
    fn union_with_key_inner<F: Fn(&K, V, V) -> V>(self, other: Self, f: F) -> (map: Self) where
        K: HashKey<S>,
        V: Clone,

        requires
            self.wf(),
            other.wf(),
            self@.len() + other@.len() <= usize::MAX,
            forall|key: K::V| #[trigger]
                self@.contains_key(key) && other@.contains_key(key) ==> accepts(
                    f,
                    key,
                    self@[key],
                    other@[key],
                ),
        ensures
            map.wf(),
            joined(f, self@, other@, map@),
            map.held_keys() == self.held_keys().union_prefer_right(other.held_keys()),
            map.state() == self.state(),
            if other@.len() == 0 {
                map == self
            } else {
                map.kv_merkle() is None && map.top() is Some
            },
    {
        let mut map = self;
        let pairs = other.pairs();
        let mut i: usize = 0;
        proof {
            self.lemma_map();
            other.lemma_map();
            lemma_seen(pairs@, 0);
            lemma_seen_keys(pairs@, 0);
            assert(map.held_keys() =~= self.held_keys().union_prefer_right(
                stored_keys(pairs@.take(0)),
            ));
            assert(map@.dom() =~= self@.dom().union(pairs_map(pairs@.take(0)).dom()));
        }
        while i < pairs.len()
            invariant
                i <= pairs.len(),
                distinct(pairs@),
                other@ == pairs_map(pairs@),
                self@.dom().finite(),
                self@.len() + pairs@.len() <= usize::MAX,
                forall|key: K::V| #[trigger]
                    self@.contains_key(key) && other@.contains_key(key) ==> accepts(
                        f,
                        key,
                        self@[key],
                        other@[key],
                    ),
                map.wf(),
                map.state() == self.state(),
                if i == 0 {
                    map == self
                } else {
                    map.kv_merkle() is None && map.top() is Some
                },
                map.held_keys() == self.held_keys().union_prefer_right(
                    stored_keys(pairs@.take(i as int)),
                ),
                joined(f, self@, pairs_map(pairs@.take(i as int)), map@),
            decreases pairs.len() - i,
        {
            let pair = &pairs[i];
            let ghost key = (*pair.0)@;
            let ghost seen = pairs_map(pairs@.take(i as int));
            let ghost before = map@;
            proof {
                lemma_seen(pairs@, i as int);
                lemma_seen_keys(pairs@, i as int);
                assert(other@.contains_key(key) && other@[key] == *pair.1);
                vstd::set_lib::lemma_len_union(self@.dom(), seen.dom());
                assert(!seen.contains_key(key));
                assert(before.contains_key(key) == self@.contains_key(key));
            }
            match map.remove_pair_invalidate(&*pair.0) {
                None => {
                    map.insert_pair(share(&pair.0), share(&pair.1));
                },
                Some(held) => {
                    let left = take(held.1);
                    let right = take(share(&pair.1));
                    proof {
                        assert(accepts(f, key, self@[key], other@[key]));
                        assert(inside(pair.0)@ == key);
                    }
                    let value = f(&*pair.0, left, right);
                    proof {
                        assert(f.ensures((&inside(pair.0), left, right), value));
                        assert(joins(f, key, self@[key], other@[key], value));
                        lemma_submap_len(map@, before);
                    }
                    map.insert_pair(share(&pair.0), Arc::new(value));
                },
            }
            i += 1;
            proof {
                assert(map@.dom() =~= self@.dom().union(pairs_map(pairs@.take(i as int)).dom()));
                assert(map.held_keys() =~= self.held_keys().union_prefer_right(
                    stored_keys(pairs@.take(i as int)),
                ));
                assert forall|k: K::V| #[trigger] map@.contains_key(k) implies if !pairs_map(
                    pairs@.take(i as int),
                ).contains_key(k) {
                    map@[k] == self@[k]
                } else if !self@.contains_key(k) {
                    map@[k] == pairs_map(pairs@.take(i as int))[k]
                } else {
                    joins(f, k, self@[k], pairs_map(pairs@.take(i as int))[k], map@[k])
                } by {
                    if k != key {
                        assert(before.contains_key(k));
                    }
                }
            }
        }
        proof {
            lemma_seen(pairs@, pairs@.len() as int);
            lemma_seen_keys(pairs@, pairs@.len() as int);
        }
        map
    }

    /// The union of two maps; for keys in both, a function makes the value out
    /// of the key, the value of this map and that of the other.
    pub fn union_with_key<F: Fn(&K, V, V) -> V>(self, other: Self, f: F) -> (map: Self) where
        K: HashKey<S>,
        V: Clone,

        requires
            self.wf(),
            other.wf(),
            self@.len() + other@.len() <= usize::MAX,
            forall|key: K::V| #[trigger]
                self@.contains_key(key) && other@.contains_key(key) ==> accepts(
                    f,
                    key,
                    self@[key],
                    other@[key],
                ),
        ensures
            map.wf(),
            joined(f, self@, other@, map@),
            map.held_keys() == replaced_keys(self.held_keys(), other.held_keys()),
            map.state() == if self@.len() >= other@.len() {
                self.state()
            } else {
                other.state()
            },
            if other@.len() == 0 {
                map == self
            } else if self@.len() == 0 {
                map == other
            } else {
                map.kv_merkle() is None && map.top() is Some
            },
    {
        proof {
            self.lemma_map();
            other.lemma_map();
        }
        if self.len() >= other.len() {
            self.union_with_key_inner(other, f)
        } else {
            let flipped = |key: &K, theirs: V, ours: V| -> (value: V)
                requires
                    accepts_three(&f, key, ours, theirs),
                ensures
                    makes_of_three(&f, key, ours, theirs, value),
                { f(key, ours, theirs) };
            proof {
                assert forall|key: K::V| #[trigger]
                    other@.contains_key(key) && self@.contains_key(key) implies accepts(
                    flipped,
                    key,
                    other@[key],
                    self@[key],
                ) by {
                    assert(accepts(f, key, self@[key], other@[key]));
                }
            }
            let map = other.union_with_key_inner(self, flipped);
            proof {
                assert(map@.dom() =~= self@.dom().union(other@.dom()));
                assert forall|key: K::V| #[trigger] map@.contains_key(key) implies if !other@
                    .contains_key(key) {
                    map@[key] == self@[key]
                } else if !self@.contains_key(key) {
                    map@[key] == other@[key]
                } else {
                    joins(f, key, self@[key], other@[key], map@[key])
                } by {
                    if self@.contains_key(key) && other@.contains_key(key) {
                        let (k, a, b) = choose|k: K, a: V, b: V|
                            k@ == key && cloned(other@[key], a) && cloned(self@[key], b)
                                && #[trigger] flipped.ensures((&k, a, b), map@[key]);
                        assert(f.ensures((&k, b, a), map@[key]));
                    }
                }
            }
            map
        }
    }

    /// The union of two maps; for keys in both, a function makes the value out
    /// of the value of this map and that of the other.
    pub fn union_with<F: Fn(V, V) -> V>(self, other: Self, f: F) -> (map: Self) where
        K: HashKey<S>,
        V: Clone,

        requires
            self.wf(),
            other.wf(),
            self@.len() + other@.len() <= usize::MAX,
            accepts_common(f, self@, other@),
        ensures
            map.wf(),
            map@.dom() == self@.dom().union(other@.dom()),
            map.held_keys() == replaced_keys(self.held_keys(), other.held_keys()),
            map.state() == if self@.len() >= other@.len() {
                self.state()
            } else {
                other.state()
            },
            if other@.len() == 0 {
                map == self
            } else if self@.len() == 0 {
                map == other
            } else {
                map.kv_merkle() is None && map.top() is Some
            },
            forall|key: K::V| #[trigger]
                map@.contains_key(key) ==> if !other@.contains_key(key) {
                    map@[key] == self@[key]
                } else if !self@.contains_key(key) {
                    map@[key] == other@[key]
                } else {
                    exists|a: V, b: V|
                        cloned(self@[key], a) && cloned(other@[key], b) && #[trigger] f.ensures(
                            (a, b),
                            map@[key],
                        )
                },
    {
        let keyed = |key: &K, ours: V, theirs: V| -> (value: V)
            requires
                accepts_two(&f, ours, theirs),
            ensures
                makes_of_two(&f, ours, theirs, value),
            { f(ours, theirs) };
        let map = self.union_with_key(other, keyed);
        proof {
            assert forall|key: K::V| #[trigger] map@.contains_key(key) && self@.contains_key(key)
                && other@.contains_key(key) implies exists|a: V, b: V|
                cloned(self@[key], a) && cloned(other@[key], b) && #[trigger] f.ensures(
                    (a, b),
                    map@[key],
                ) by {
                let (k, a, b) = choose|k: K, a: V, b: V|
                    k@ == key && cloned(self@[key], a) && cloned(other@[key], b)
                        && #[trigger] keyed.ensures((&k, a, b), map@[key]);
                assert(f.ensures((a, b), map@[key]));
            }
        }
        map
    }

    /// The entries of keys in exactly one of two maps; for keys in both, a
    /// function decides whether an entry remains and with which value.
    pub fn symmetric_difference_with_key<F: Fn(&K, V, V) -> Option<V>>(
        self,
        other: Self,
        f: F,
    ) -> (map: Self) where K: HashKey<S>, V: Clone, S: HashState
        requires
            self.wf(),
            other.wf(),
            self@.len() + other@.len() <= usize::MAX,
            forall|key: K::V| #[trigger]
                self@.contains_key(key) && other@.contains_key(key) ==> accepts(
                    f,
                    key,
                    self@[key],
                    other@[key],
                ),
        ensures
            map.wf(),
            map.state() == self.state(),
            if other@.len() == 0 && self@.len() > 0 {
                map == self
            } else {
                fresh(map)
            },
            map.held_keys().submap_of(
                self.held_keys().union_prefer_right(other.held_keys()),
            ),
            map@.dom().subset_of(self@.dom().union(other@.dom())),
            forall|key: K::V| #[trigger]
                self@.contains_key(key) && !other@.contains_key(key) ==> map@.contains_key(key)
                    && map@[key] == self@[key],
            forall|key: K::V| #[trigger]
                other@.contains_key(key) && !self@.contains_key(key) ==> map@.contains_key(key)
                    && map@[key] == other@[key],
            forall|key: K::V| #[trigger]
                self@.contains_key(key) && other@.contains_key(key) ==> joins(
                    f,
                    key,
                    self@[key],
                    other@[key],
                    map@.get(key),
                ),
    {
        let mut out = self.new_from::<K, V>();
        let mut rest = self;
        let pairs = other.pairs();
        let mut i: usize = 0;
        proof {
            self.lemma_map();
            other.lemma_map();
            lemma_seen(pairs@, 0);
            assert(rest@ =~= self@.remove_keys(pairs_map(pairs@.take(0)).dom()));
        }
        while i < pairs.len()
            invariant
                i <= pairs.len(),
                distinct(pairs@),
                other@ == pairs_map(pairs@),
                self@.dom().finite(),
                pairs@.len() <= usize::MAX,
                forall|key: K::V| #[trigger]
                    self@.contains_key(key) && other@.contains_key(key) ==> accepts(
                        f,
                        key,
                        self@[key],
                        other@[key],
                    ),
                rest.wf(),
                rest.state() == self.state(),
                rest@ == self@.remove_keys(pairs_map(pairs@.take(i as int)).dom()),
                rest.held_keys().submap_of(self.held_keys()),
                if self@.dom().disjoint(pairs_map(pairs@.take(i as int)).dom()) {
                    rest == self
                } else {
                    rest.kv_merkle() is None
                },
                out.wf(),
                out.state() == self.state(),
                fresh(out),
                other.held_keys() == stored_keys(pairs@),
                out.held_keys().submap_of(other.held_keys()),
                out@.dom().subset_of(pairs_map(pairs@.take(i as int)).dom()),
                forall|key: K::V| #[trigger]
                    pairs_map(pairs@.take(i as int)).contains_key(key) ==> if self@.contains_key(
                        key,
                    ) {
                        joins(f, key, self@[key], other@[key], out@.get(key))
                    } else {
                        out@.contains_key(key) && out@[key] == other@[key]
                    },
            decreases pairs.len() - i,
        {
            let pair = &pairs[i];
            let ghost key = (*pair.0)@;
            let ghost seen = pairs_map(pairs@.take(i as int));
            let ghost before = out@;
            proof {
                lemma_seen(pairs@, i as int);
                lemma_stored(pairs@, i as int);
                assert(other.held_keys().contains_pair(key, inside(pair.0)));
                assert(self@.dom().disjoint(seen.dom().insert(key)) == (self@.dom().disjoint(
                    seen.dom(),
                ) && !self@.contains_key(key)));
                lemma_submap_len(out@, seen);
            }
            match rest.remove_pair_invalidate(&*pair.0) {
                None => {
                    let ghost first = out.held_keys();
                    out.insert_pair(share(&pair.0), share(&pair.1));
                    proof {
                        assert(out.held_keys() == first.insert(key, inside(pair.0)));
                        assert(out.held_keys().submap_of(other.held_keys()));
                    }
                },
                Some(held) => {
                    let left = take(held.1);
                    let right = take(share(&pair.1));
                    proof {
                        assert(accepts(f, key, self@[key], other@[key]));
                        assert(inside(pair.0)@ == key);
                    }
                    let decided = f(&*pair.0, left, right);
                    proof {
                        assert(f.ensures((&inside(pair.0), left, right), decided));
                        assert(joins(f, key, self@[key], other@[key], decided));
                    }
                    match decided {
                        Some(value) => {
                            out.insert_pair(share(&pair.0), Arc::new(value));
                        },
                        None => {},
                    }
                    proof {
                        assert(out@.get(key) == decided);
                        assert(out.held_keys().submap_of(other.held_keys()));
                    }
                },
            }
            i += 1;
            proof {
                assert(rest@ =~= self@.remove_keys(pairs_map(pairs@.take(i as int)).dom()));
                assert forall|k: K::V| #[trigger] seen.contains_key(k) implies out@.get(k)
                    == before.get(k) by {}
            }
        }
        proof {
            lemma_seen(pairs@, pairs@.len() as int);
            lemma_submap_len(out@, other@);
            lemma_submap_len(rest@, self@);
            out.lemma_map();
            rest.lemma_map();
            assert forall|k: K::V| #[trigger] out@.contains_key(k) implies !rest@.contains_key(
                k,
            ) by {}
        }
        let map = out.union(rest);
        proof {
            assert forall|k: K::V| #[trigger] map.held_keys().contains_key(k) implies
                self.held_keys().union_prefer_right(other.held_keys()).contains_pair(
                k,
                map.held_keys()[k],
            ) by {
                if out.held_keys().contains_key(k) {
                    assert(other.held_keys().contains_key(k));
                    assert(!rest@.contains_key(k));
                } else {
                    assert(rest@.contains_key(k));
                    assert(self.held_keys().contains_key(k));
                    assert(!other@.contains_key(k));
                }
            }
            lemma_parted(self, other, out, rest, map);
            assert forall|k: K::V| #[trigger] other@.contains_key(k) implies map@.get(k) == out@.get(
                k,
            ) by {}
        }
        map
    }

    /// The entries of keys in exactly one of two maps; for keys in both, a
    /// function decides whether an entry remains and with which value.
    pub fn symmetric_difference_with<F: Fn(V, V) -> Option<V>>(self, other: Self, f: F) -> (map:
        Self) where K: HashKey<S>, V: Clone, S: HashState
        requires
            self.wf(),
            other.wf(),
            self@.len() + other@.len() <= usize::MAX,
            accepts_common(f, self@, other@),
        ensures
            map.wf(),
            map.state() == self.state(),
            if other@.len() == 0 && self@.len() > 0 {
                map == self
            } else {
                fresh(map)
            },
            map.held_keys().submap_of(
                self.held_keys().union_prefer_right(other.held_keys()),
            ),
            map@.dom().subset_of(self@.dom().union(other@.dom())),
            forall|key: K::V| #[trigger]
                self@.contains_key(key) && !other@.contains_key(key) ==> map@.contains_key(key)
                    && map@[key] == self@[key],
            forall|key: K::V| #[trigger]
                other@.contains_key(key) && !self@.contains_key(key) ==> map@.contains_key(key)
                    && map@[key] == other@[key],
            forall|key: K::V| #[trigger]
                self@.contains_key(key) && other@.contains_key(key) ==> exists|a: V, b: V|
                    cloned(self@[key], a) && cloned(other@[key], b) && #[trigger] f.ensures(
                        (a, b),
                        map@.get(key),
                    ),
    {
        let keyed = |key: &K, ours: V, theirs: V| -> (value: Option<V>)
            requires
                accepts_two(&f, ours, theirs),
            ensures
                makes_of_two(&f, ours, theirs, value),
            { f(ours, theirs) };
        let map = self.symmetric_difference_with_key(other, keyed);
        proof {
            assert forall|key: K::V| #[trigger]
                self@.contains_key(key) && other@.contains_key(key) implies exists|a: V, b: V|
                cloned(self@[key], a) && cloned(other@[key], b) && #[trigger] f.ensures(
                    (a, b),
                    map@.get(key),
                ) by {
                assert(joins(keyed, key, self@[key], other@[key], map@.get(key)));
                let (k, a, b) = choose|k: K, a: V, b: V|
                    k@ == key && cloned(self@[key], a) && cloned(other@[key], b)
                        && #[trigger] keyed.ensures((&k, a, b), map@.get(key));
                assert(f.ensures((a, b), map@.get(key)));
            }
        }
        map
    }

    /// The entries of keys in exactly one of two maps.
    pub fn symmetric_difference(self, other: Self) -> (map: Self) where
        K: HashKey<S>,
        V: Clone,
        S: HashState,

        requires
            self.wf(),
            other.wf(),
            self@.len() + other@.len() <= usize::MAX,
        ensures
            map.wf(),
            map.state() == self.state(),
            if other@.len() == 0 && self@.len() > 0 {
                map == self
            } else {
                fresh(map)
            },
            map.held_keys().submap_of(
                self.held_keys().union_prefer_right(other.held_keys()),
            ),
            map@ == self@.remove_keys(other@.dom()).union_prefer_right(
                other@.remove_keys(self@.dom()),
            ),
    {
        let drop_both = |key: &K, ours: V, theirs: V| -> (value: Option<V>)
            ensures
                value is None,
            { None };
        let map = self.symmetric_difference_with_key(other, drop_both);
        proof {
            let wanted = self@.remove_keys(other@.dom()).union_prefer_right(
                other@.remove_keys(self@.dom()),
            );
            assert forall|key: K::V|
                self@.contains_key(key) && other@.contains_key(key) implies !#[trigger] map@
                .contains_key(key) by {
                assert(joins(drop_both, key, self@[key], other@[key], map@.get(key)));
            }
            assert(map@ =~= wanted);
        }
        map
    }

    /// The entries of keys in both maps; a function makes the value out of the
    /// key, the value of this map and that of the other.
    pub fn intersection_with_key<B: Clone, C, F: Fn(&K, V, B) -> C>(
        self,
        other: GenericHashMap<K, B, S>,
        f: F,
    ) -> (map: GenericHashMap<K, C, S>) where K: HashKey<S>, V: Clone, S: HashState
        requires
            self.wf(),
            other.wf(),
            forall|key: K::V| #[trigger]
                self@.contains_key(key) && other@.contains_key(key) ==> accepts(
                    f,
                    key,
                    self@[key],
                    other@[key],
                ),
        ensures
            map.wf(),
            map.state() == self.state(),
            fresh(map),
            map.held_keys().submap_of(other.held_keys()),
            map@.dom() == self@.dom().intersect(other@.dom()),
            forall|key: K::V| #[trigger]
                map@.contains_key(key) ==> joins(f, key, self@[key], other@[key], map@[key]),
    {
        let mut out = self.new_from::<K, C>();
        let mut rest = self;
        let pairs = other.pairs();
        let mut i: usize = 0;
        proof {
            self.lemma_map();
            other.lemma_map();
            lemma_seen(pairs@, 0);
            assert(rest@ =~= self@.remove_keys(pairs_map(pairs@.take(0)).dom()));
            assert(out@.dom() =~= self@.dom().intersect(pairs_map(pairs@.take(0)).dom()));
        }
        while i < pairs.len()
            invariant
                i <= pairs.len(),
                distinct(pairs@),
                other@ == pairs_map(pairs@),
                self@.dom().finite(),
                self@.len() <= usize::MAX,
                forall|key: K::V| #[trigger]
                    self@.contains_key(key) && other@.contains_key(key) ==> accepts(
                        f,
                        key,
                        self@[key],
                        other@[key],
                    ),
                rest.wf(),
                rest.state() == self.state(),
                rest@ == self@.remove_keys(pairs_map(pairs@.take(i as int)).dom()),
                out.wf(),
                out.state() == self.state(),
                fresh(out),
                other.held_keys() == stored_keys(pairs@),
                out.held_keys().submap_of(other.held_keys()),
                out@.dom() == self@.dom().intersect(pairs_map(pairs@.take(i as int)).dom()),
                forall|key: K::V| #[trigger]
                    out@.contains_key(key) ==> joins(f, key, self@[key], other@[key], out@[key]),
            decreases pairs.len() - i,
        {
            let pair = &pairs[i];
            let ghost key = (*pair.0)@;
            let ghost seen = pairs_map(pairs@.take(i as int));
            proof {
                lemma_seen(pairs@, i as int);
                lemma_stored(pairs@, i as int);
            }
            match rest.remove_pair_invalidate(&*pair.0) {
                None => {},
                Some(held) => {
                    let left = take(held.1);
                    let right = take(share(&pair.1));
                    proof {
                        assert(accepts(f, key, self@[key], other@[key]));
                        assert(inside(pair.0)@ == key);
                        assert(!out@.contains_key(key));
                        lemma_submap_len(out@.insert(key, arbitrary()), self@);
                    }
                    let value = f(&*pair.0, left, right);
                    proof {
                        assert(f.ensures((&inside(pair.0), left, right), value));
                        assert(joins(f, key, self@[key], other@[key], value));
                    }
                    out.insert_pair(share(&pair.0), Arc::new(value));
                },
            }
            i += 1;
            proof {
                assert(rest@ =~= self@.remove_keys(pairs_map(pairs@.take(i as int)).dom()));
                assert(out@.dom() =~= self@.dom().intersect(
                    pairs_map(pairs@.take(i as int)).dom(),
                ));
            }
        }
        proof {
            lemma_seen(pairs@, pairs@.len() as int);
        }
        out
    }

    /// The entries of keys in both maps; a function makes the value out of the
    /// value of this map and that of the other.
    pub fn intersection_with<B: Clone, C, F: Fn(V, B) -> C>(
        self,
        other: GenericHashMap<K, B, S>,
        f: F,
    ) -> (map: GenericHashMap<K, C, S>) where K: HashKey<S>, V: Clone, S: HashState
        requires
            self.wf(),
            other.wf(),
            accepts_common(f, self@, other@),
        ensures
            map.wf(),
            map.state() == self.state(),
            fresh(map),
            map.held_keys().submap_of(other.held_keys()),
            map@.dom() == self@.dom().intersect(other@.dom()),
            forall|key: K::V| #[trigger]
                map@.contains_key(key) ==> exists|a: V, b: B|
                    cloned(self@[key], a) && cloned(other@[key], b) && #[trigger] f.ensures(
                        (a, b),
                        map@[key],
                    ),
    {
        let keyed = |key: &K, ours: V, theirs: B| -> (value: C)
            requires
                accepts_two(&f, ours, theirs),
            ensures
                makes_of_two(&f, ours, theirs, value),
            { f(ours, theirs) };
        let map = self.intersection_with_key(other, keyed);
        proof {
            assert forall|key: K::V| #[trigger] map@.contains_key(key) implies exists|a: V, b: B|
                cloned(self@[key], a) && cloned(other@[key], b) && #[trigger] f.ensures(
                    (a, b),
                    map@[key],
                ) by {
                let (k, a, b) = choose|k: K, a: V, b: B|
                    k@ == key && cloned(self@[key], a) && cloned(other@[key], b)
                        && #[trigger] keyed.ensures((&k, a, b), map@[key]);
                assert(f.ensures((a, b), map@[key]));
            }
        }
        map
    }

    /// The entries of keys in both maps, with the values of this one.
    pub fn intersection(self, other: Self) -> (map: Self) where K: HashKey<S>, S: HashState
        requires
            self.wf(),
            other.wf(),
        ensures
            map.wf(),
            map.state() == self.state(),
            fresh(map),
            map.held_keys().submap_of(other.held_keys()),
            map@ == self@.restrict(other@.dom()),
    {
        let mut out = self.new_from::<K, V>();
        let pairs = other.pairs();
        let mut i: usize = 0;
        proof {
            self.lemma_map();
            lemma_seen(pairs@, 0);
            assert(out@ =~= self@.restrict(pairs_map(pairs@.take(0)).dom()));
        }
        while i < pairs.len()
            invariant
                i <= pairs.len(),
                distinct(pairs@),
                self.wf(),
                self@.dom().finite(),
                self@.len() <= usize::MAX,
                out.wf(),
                out.state() == self.state(),
                fresh(out),
                other.held_keys() == stored_keys(pairs@),
                out.held_keys().submap_of(other.held_keys()),
                out@ == self@.restrict(pairs_map(pairs@.take(i as int)).dom()),
            decreases pairs.len() - i,
        {
            let pair = &pairs[i];
            let ghost key = (*pair.0)@;
            proof {
                lemma_seen(pairs@, i as int);
                lemma_stored(pairs@, i as int);
            }
            match self.get_pair(&*pair.0) {
                None => {},
                Some(held) => {
                    proof {
                        assert(!out@.contains_key(key));
                        lemma_submap_len(out@, self@);
                        lemma_submap_len(out@.insert(key, arbitrary()), self@);
                    }
                    out.insert_pair(share(&pair.0), share(&held.1));
                },
            }
            i += 1;
            proof {
                assert(out@ =~= self@.restrict(pairs_map(pairs@.take(i as int)).dom()));
            }
        }
        proof {
            lemma_seen(pairs@, pairs@.len() as int);
        }
        out
    }
}

/// What the entries of keys in one of two maps only are, out of what only the second
/// one gave and what was left of the first one.
proof fn lemma_parted<S, K: HashKey<S>, V>(
    ours: GenericHashMap<K, V, S>,
    theirs: GenericHashMap<K, V, S>,
    out: GenericHashMap<K, V, S>,
    rest: GenericHashMap<K, V, S>,
    map: GenericHashMap<K, V, S>,
)
    requires
        ours.wf(),
        theirs.wf(),
        out.wf(),
        rest.wf(),
        map.wf(),
        fresh(out),
        rest@ == ours@.remove_keys(theirs@.dom()),
        if ours@.dom().disjoint(theirs@.dom()) {
            rest == ours
        } else {
            rest.kv_merkle() is None
        },
        out@.dom().subset_of(theirs@.dom()),
        forall|key: K::V| #[trigger]
            theirs@.contains_key(key) && !ours@.contains_key(key) ==> out@.contains_key(key),
        united(out, rest, map),
    ensures
        if theirs@.len() == 0 && ours@.len() > 0 {
            map == ours
        } else {
            fresh(map)
        },
{
    ours.lemma_map();
    theirs.lemma_map();
    out.lemma_map();
    rest.lemma_map();
    map.lemma_map();
    map.lemma_top();
    lemma_nothing_held(ours);
    lemma_nothing_held(theirs);
    lemma_nothing_held(out);
    lemma_nothing_held(rest);
    lemma_nothing_held(map);
    if theirs@.len() == 0 {
        assert(out@.dom() =~= Set::empty());
        assert(ours@.dom().disjoint(theirs@.dom()));
        assert(rest == ours);
        if ours@.len() == 0 {
            assert(rest@.dom().subset_of(out@.dom()));
        }
    } else {
        if rest@.len() == 0 {
            assert(rest@.dom().subset_of(out@.dom()));
        } else if out@.len() == 0 {
            let key = theirs@.dom().choose();
            assert(theirs@.contains_key(key));
            assert(ours@.contains_key(key));
        } else {
            let key = rest@.dom().choose();
            assert(rest@.contains_key(key) && !out@.contains_key(key));
            assert(map@.contains_key(key));
        }
    }
}

/// A map of no entries is empty.
proof fn lemma_nothing_held<S, K: HashKey<S>, V>(map: GenericHashMap<K, V, S>)
    requires
        map.wf(),
    ensures
        (map@.len() == 0) == (map@ == Map::<K::V, V>::empty()),
{
    map.lemma_map();
    if map@.len() == 0 {
        assert(map@ =~= Map::<K::V, V>::empty());
    }
}

} // verus!
