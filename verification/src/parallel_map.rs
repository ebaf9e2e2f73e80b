//! Operations on hash maps that run on several threads.
use crate::diff::same_kv_merkle;
use crate::hash_key::{is_default, HashKey, HashState};
use crate::hash_map::GenericHashMap;
use crate::hash_map_make::accepts_entries;
use crate::hash_map_ops::says;
use crate::node::lemma_find;
use crate::parallel::{accepts_list, anew, keeps, lemma_united};
use crate::shared::{inside, share};
use crate::trie::{lemma_stored, lemma_submap_insert, lemma_submap_len, pairs_map, stored_keys};
use vstd::prelude::*;

verus! {

/// Whether a map that is only borrowed is well formed.
pub open spec fn usable_map<S, K: HashKey<S>, V>(map: &GenericHashMap<K, V, S>) -> bool {
    map.wf()
}

/// Whether a borrowed map holds a key.
pub open spec fn holds<K: View, V, S>(map: &GenericHashMap<K, V, S>, key: K::V) -> bool {
    map@.contains_key(key)
}

/// The entries whose keys are, or are not, in a set.
pub open spec fn picked<M, V>(map: Map<M, V>, keys: Set<M>, wanted: bool) -> Map<M, V> {
    Map::new(|key: M| map.contains_key(key) && keys.contains(key) == wanted, |key: M| map[key])
}

/// What the parallel union of two maps is, given whether they are taken to be
/// equal. Where the second one adds nothing, it is the first one as it is.
pub open spec fn par_united<K: View, V, S: Default>(
    a: GenericHashMap<K, V, S>,
    b: GenericHashMap<K, V, S>,
    taken_equal: bool,
    map: GenericHashMap<K, V, S>,
) -> bool {
    if taken_equal || b@.dom().subset_of(a@.dom()) {
        map == a
    } else if a@.len() == 0 {
        map == b
    } else {
        &&& map@ == b@.union_prefer_right(a@)
        &&& map.held_keys() == b.held_keys().union_prefer_right(a.held_keys())
        &&& map.kv_merkle() is None
        &&& if a@.len() >= picked(b@, a@.dom(), false).len() {
            map.state() == a.state()
        } else {
            is_default(map.state())
        }
    }
}

/// What the parallel intersection of two maps is, given whether they are taken to
/// be equal. Maps with one root, which hold the same, give the first one as it is.
/// The keys come from the smaller map.
pub open spec fn par_met<K: View, V, S: Default>(
    a: GenericHashMap<K, V, S>,
    b: GenericHashMap<K, V, S>,
    taken_equal: bool,
    map: GenericHashMap<K, V, S>,
) -> bool {
    if taken_equal && a@.len() > 0 {
        map == a
    } else {
        &&& map@ == picked(a@, b@.dom(), true)
        &&& {
            ||| map == a && a@ == b@ && a.top() == b.top()
            ||| {
                &&& anew(map)
                &&& map.held_keys().submap_of(
                    if a@.len() <= b@.len() {
                        a.held_keys()
                    } else {
                        b.held_keys()
                    },
                )
            }
        }
    }
}

/// What the parallel difference of two maps is, given whether they are taken to
/// be equal.
pub open spec fn par_left<K: View, V, S: Default>(
    a: GenericHashMap<K, V, S>,
    b: GenericHashMap<K, V, S>,
    taken_equal: bool,
    map: GenericHashMap<K, V, S>,
) -> bool {
    if a@.len() == 0 || b@.len() == 0 {
        map == a
    } else {
        &&& map@ == if taken_equal {
            Map::<K::V, V>::empty()
        } else {
            picked(a@, b@.dom(), false)
        }
        &&& map.held_keys().submap_of(a.held_keys())
        &&& anew(map)
    }
}

/// What the parallel symmetric difference of two maps is, given whether they are
/// taken to be equal.
pub open spec fn par_parted<K: View, V, S: Default>(
    a: GenericHashMap<K, V, S>,
    b: GenericHashMap<K, V, S>,
    taken_equal: bool,
    map: GenericHashMap<K, V, S>,
) -> bool {
    if a@.len() == 0 {
        map == b
    } else if b@.len() == 0 {
        map == a
    } else {
        &&& map@ == if taken_equal {
            Map::<K::V, V>::empty()
        } else {
            picked(a@, b@.dom(), false).union_prefer_right(picked(b@, a@.dom(), false))
        }
        &&& map.held_keys().submap_of(a.held_keys().union_prefer_right(b.held_keys()))
        &&& anew(map)
    }
}

impl<K, V, S> GenericHashMap<K, V, S> {
    /// The entries whose keys the other map holds, or does not hold.
    pub(crate) fn par_pick(&self, other: &Self, wanted: bool) -> (map: Self) where
        K: HashKey<S> + Send + Sync,
        V: Send + Sync,
        S: Default + Send + Sync,

        requires
            self.wf(),
            other.wf(),
        ensures
            map.wf(),
            map@ == picked(self@, other@.dom(), wanted),
            map@.dom().finite(),
            map@.len() <= self@.len(),
            anew(map),
            map.held_keys().submap_of(self.held_keys()),
    {
        let pairs = self.pairs();
        let keep = |k: &K, v: &V| -> (keep: bool)
            requires
                usable_map(other),
            ensures
                (holds(other, k@) == wanted) == keep,
            { other.contains_key(k) == wanted };
        let map = Self::par_keep(pairs.as_slice(), &keep);
        proof {
            self.lemma_map();
            map.lemma_map();
            assert forall|key: K::V| #[trigger] self@.contains_key(key) implies map@.contains_key(
                key,
            ) == (other@.contains_key(key) == wanted) by {
                assert(says(keep, key, self@[key], map@.contains_key(key)));
            }
            assert(map@.submap_of(self@));
            assert forall|key: K::V| map@.contains_key(key) == picked(
                self@,
                other@.dom(),
                wanted,
            ).contains_key(key) by {
                if map@.contains_key(key) {
                    assert(self@.contains_key(key));
                }
            }
            assert(map@ =~= picked(self@, other@.dom(), wanted));
            lemma_submap_len(map@, self@);
        }
        map
    }

    /// Whether two maps of one lineage may be taken to be equal by their
    /// fingerprints.
    fn same_prints(&self, other: &Self, same_lineage: bool) -> (same: bool) where
        K: HashKey<S>,
        S: HashState,

        requires
            self.wf(),
            other.wf(),
        ensures
            same == (same_lineage && same_kv_merkle(*self, *other)),
    {
        if !same_lineage || self.len() != other.len() || !self.hasher().same_state(other.hasher()) {
            return false;
        }
        match (self.kv_merkle_hash(), other.kv_merkle_hash()) {
            (Some(a), Some(b)) => a == b,
            _ => false,
        }
    }

    /// The union of two maps; for keys in both, the value of this one stays. Maps
    /// of one lineage with the same fingerprint are taken to be equal.
    pub fn par_union(self, other: Self) -> (map: Self) where
        K: HashKey<S> + Send + Sync,
        V: Send + Sync,
        S: HashState + Default + Send + Sync,

        requires
            self.wf(),
            other.wf(),
            self@.len() + other@.len() <= usize::MAX,
        ensures
            map.wf(),
            map@ == other@.union_prefer_right(self@) || (same_kv_merkle(self, other) && map@
                == self@),
            par_united(self, other, false, map) || (same_kv_merkle(self, other) && par_united(
                self,
                other,
                true,
                map,
            )),
    {
        let same_lineage = self.same_lineage(&other);
        self.par_union_with(other, same_lineage)
    }

    /// The union of two maps, given whether they have one lineage.
    pub fn par_union_with(self, other: Self, same_lineage: bool) -> (map: Self) where
        K: HashKey<S> + Send + Sync,
        V: Send + Sync,
        S: HashState + Default + Send + Sync,

        requires
            self.wf(),
            other.wf(),
            self@.len() + other@.len() <= usize::MAX,
        ensures
            map.wf(),
            map@ == if same_lineage && same_kv_merkle(self, other) {
                self@
            } else {
                other@.union_prefer_right(self@)
            },
            par_united(self, other, same_lineage && same_kv_merkle(self, other), map),
    {
        proof {
            self.lemma_map();
            other.lemma_map();
        }
        if other.is_empty() || self.ptr_eq(&other) {
            proof {
                assert(other@.union_prefer_right(self@) =~= self@);
            }
            return self;
        }
        if self.is_empty() {
            proof {
                assert(other@.union_prefer_right(self@) =~= other@);
                if self@.len() == other@.len() {
                    assert(other@ =~= self@);
                }
            }
            return other;
        }
        if self.same_prints(&other, same_lineage) {
            return self;
        }
        let only_in_other = other.par_pick(&self, false);
        let map = self.union(only_in_other);
        proof {
            let only = picked(other@, self@.dom(), false);
            assert(map@ =~= other@.union_prefer_right(self@));
            only_in_other.lemma_map();
            map.lemma_map();
            if other@.dom().subset_of(self@.dom()) {
                assert(only.dom() =~= Set::empty());
            } else {
                let key = choose|key: K::V|
                    #![trigger other@.contains_key(key)]
                    other@.contains_key(key) && !self@.contains_key(key);
                assert(only.contains_key(key));
                assert(map@.contains_key(key));
                assert(only_in_other@ != Map::<K::V, V>::empty());
                assert forall|k: K::V| self@.contains_key(k) implies !only.contains_key(k) by {}
                if map.kv_merkle() is Some {
                    assert(map@ == self@ || map@ == only_in_other@);
                }
                assert(map.held_keys() =~= other.held_keys().union_prefer_right(
                    self.held_keys(),
                ));
            }
        }
        map
    }

    /// The entries of keys in both maps, with the values of this one. Maps of
    /// one lineage with the same fingerprint are taken to be equal.
    pub fn par_intersection(self, other: Self) -> (map: Self) where
        K: HashKey<S> + Send + Sync,
        V: Send + Sync,
        S: HashState + Default + Send + Sync,

        requires
            self.wf(),
            other.wf(),
        ensures
            map.wf(),
            map@ == picked(self@, other@.dom(), true) || (same_kv_merkle(self, other) && map@
                == self@),
            par_met(self, other, false, map) || (same_kv_merkle(self, other) && par_met(
                self,
                other,
                true,
                map,
            )),
    {
        let same_lineage = self.same_lineage(&other);
        self.par_intersection_with(other, same_lineage)
    }

    /// The entries of keys in both maps, given whether they have one lineage. The
    /// smaller map is walked.
    pub fn par_intersection_with(self, other: Self, same_lineage: bool) -> (map: Self) where
        K: HashKey<S> + Send + Sync,
        V: Send + Sync,
        S: HashState + Default + Send + Sync,

        requires
            self.wf(),
            other.wf(),
        ensures
            map.wf(),
            map@ == if same_lineage && same_kv_merkle(self, other) {
                self@
            } else {
                picked(self@, other@.dom(), true)
            },
            par_met(self, other, same_lineage && same_kv_merkle(self, other), map),
    {
        proof {
            self.lemma_map();
            other.lemma_map();
        }
        if self.is_empty() || other.is_empty() {
            let map = Self::new();
            proof {
                assert(map@ =~= picked(self@, other@.dom(), true));
                assert(map.held_keys() =~= Map::<K::V, K>::empty());
                if self@.len() == other@.len() {
                    assert(self@ =~= Map::<K::V, V>::empty());
                }
            }
            return map;
        }
        if self.ptr_eq(&other) {
            proof {
                assert(picked(self@, other@.dom(), true) =~= self@);
            }
            return self;
        }
        if self.same_prints(&other, same_lineage) {
            return self;
        }
        self.par_common(&other)
    }

    /// The entries of keys in both maps, with the values of this one and the keys
    /// of the smaller one, which is walked.
    fn par_common(&self, other: &Self) -> (map: Self) where
        K: HashKey<S> + Send + Sync,
        V: Send + Sync,
        S: Default + Send + Sync,

        requires
            self.wf(),
            other.wf(),
        ensures
            map.wf(),
            map@ == picked(self@, other@.dom(), true),
            anew(map),
            map.held_keys().submap_of(
                if self@.len() <= other@.len() {
                    self.held_keys()
                } else {
                    other.held_keys()
                },
            ),
    {
        if self.len() <= other.len() {
            self.par_pick(other, true)
        } else {
            let theirs = other.par_pick(self, true);
            let ghost kept = theirs.held_keys();
            let map = self.take_values(theirs);
            proof {
                assert(map@ =~= picked(self@, other@.dom(), true));
                assert forall|key: K::V| #[trigger] map.held_keys().contains_key(key) implies
                    other.held_keys().contains_pair(key, map.held_keys()[key]) by {
                    assert(map.held_keys().dom().contains(key));
                    assert(kept.dom().contains(key));
                    assert(kept[key] == map.held_keys()[key]);
                    assert(other.held_keys().contains_key(key) && other.held_keys()[key]
                        == kept[key]);
                }
            }
            map
        }
    }

    /// A map of the keys of another map, with the values of this map.
    fn take_values(&self, keys: Self) -> (map: Self) where K: HashKey<S>, S: Default
        requires
            self.wf(),
            keys.wf(),
            keys@.dom().subset_of(self@.dom()),
        ensures
            map.wf(),
            map@ == self@.restrict(keys@.dom()),
            map.held_keys().submap_of(keys.held_keys()),
            anew(map),
    {
        let pairs = keys.pairs();
        let mut map = Self::new();
        let mut i: usize = 0;
        proof {
            keys.lemma_map();
            crate::trie::lemma_seen(pairs@, 0);
            assert(map@ =~= self@.restrict(pairs_map(pairs@.take(0)).dom()));
        }
        while i < pairs.len()
            invariant
                i <= pairs@.len(),
                pairs@.len() <= usize::MAX,
                crate::node::distinct(pairs@),
                self.wf(),
                keys@ == pairs_map(pairs@),
                keys@.dom().subset_of(self@.dom()),
                map.wf(),
                map@ == self@.restrict(pairs_map(pairs@.take(i as int)).dom()),
                keys.held_keys() == stored_keys(pairs@),
                map.held_keys().submap_of(keys.held_keys()),
                anew(map),
            decreases pairs@.len() - i,
        {
            let ghost key = (*pairs@[i as int].0)@;
            let ghost seen = pairs_map(pairs@.take(i as int));
            proof {
                crate::trie::lemma_seen(pairs@, i as int);
                assert(keys@.contains_key(key));
                lemma_submap_len(map@, seen);
                lemma_stored(pairs@, i as int);
                lemma_submap_insert(
                    map.held_keys(),
                    keys.held_keys(),
                    key,
                    inside(pairs@[i as int].0),
                );
            }
            match self.get_pair(&*pairs[i].0) {
                Some(pair) => {
                    map.insert_pair(share(&pairs[i].0), share(&pair.1));
                    assert(map@.contains_key(key));
                },
                None => {
                    proof {
                        assert(self@.dom().contains(key));
                    }
                },
            }
            i += 1;
            proof {
                assert(map@ =~= self@.restrict(pairs_map(pairs@.take(i as int)).dom()));
            }
        }
        proof {
            crate::trie::lemma_seen(pairs@, pairs@.len() as int);
        }
        map
    }

    /// The entries whose keys are not in the other map. Maps of one lineage with
    /// the same fingerprint are taken to be equal.
    pub fn par_difference(self, other: Self) -> (map: Self) where
        K: HashKey<S> + Send + Sync,
        V: Send + Sync,
        S: HashState + Default + Send + Sync,

        requires
            self.wf(),
            other.wf(),
        ensures
            map.wf(),
            map@ == picked(self@, other@.dom(), false) || (same_kv_merkle(self, other) && map@
                == Map::<K::V, V>::empty()),
            par_left(self, other, false, map) || (same_kv_merkle(self, other) && par_left(
                self,
                other,
                true,
                map,
            )),
    {
        let same_lineage = self.same_lineage(&other);
        self.par_difference_with(other, same_lineage)
    }

    /// The entries whose keys are not in the other map, given whether the maps
    /// have one lineage.
    pub fn par_difference_with(self, other: Self, same_lineage: bool) -> (map: Self) where
        K: HashKey<S> + Send + Sync,
        V: Send + Sync,
        S: HashState + Default + Send + Sync,

        requires
            self.wf(),
            other.wf(),
        ensures
            map.wf(),
            map@ == if same_lineage && same_kv_merkle(self, other) {
                Map::<K::V, V>::empty()
            } else {
                picked(self@, other@.dom(), false)
            },
            par_left(self, other, same_lineage && same_kv_merkle(self, other), map),
    {
        proof {
            self.lemma_map();
            other.lemma_map();
        }
        if self.is_empty() || other.is_empty() {
            proof {
                assert(picked(self@, other@.dom(), false) =~= self@);
                if self@.len() == other@.len() {
                    assert(self@ =~= Map::<K::V, V>::empty());
                }
            }
            return self;
        }
        if self.ptr_eq(&other) {
            let map = Self::new();
            proof {
                assert(picked(self@, other@.dom(), false) =~= map@);
            }
            return map;
        }
        if self.same_prints(&other, same_lineage) {
            return Self::new();
        }
        self.par_pick(&other, false)
    }

    /// The entries of keys in exactly one of two maps; both halves are found at
    /// the same time. Maps of one lineage with the same fingerprint are taken to
    /// be equal.
    pub fn par_symmetric_difference(self, other: Self) -> (map: Self) where
        K: HashKey<S> + Send + Sync,
        V: Send + Sync,
        S: HashState + Default + Send + Sync,

        requires
            self.wf(),
            other.wf(),
            self@.len() + other@.len() <= usize::MAX,
        ensures
            map.wf(),
            map@ == picked(self@, other@.dom(), false).union_prefer_right(
                picked(other@, self@.dom(), false),
            ) || (same_kv_merkle(self, other) && map@ == Map::<K::V, V>::empty()),
            par_parted(self, other, false, map) || (same_kv_merkle(self, other) && par_parted(
                self,
                other,
                true,
                map,
            )),
    {
        let same_lineage = self.same_lineage(&other);
        self.par_symmetric_difference_with(other, same_lineage)
    }

    /// The entries of keys in exactly one of two maps, given whether the maps
    /// have one lineage.
    pub fn par_symmetric_difference_with(self, other: Self, same_lineage: bool) -> (map:
        Self) where
        K: HashKey<S> + Send + Sync,
        V: Send + Sync,
        S: HashState + Default + Send + Sync,

        requires
            self.wf(),
            other.wf(),
            self@.len() + other@.len() <= usize::MAX,
        ensures
            map.wf(),
            map@ == if same_lineage && same_kv_merkle(self, other) {
                Map::<K::V, V>::empty()
            } else {
                picked(self@, other@.dom(), false).union_prefer_right(
                    picked(other@, self@.dom(), false),
                )
            },
            par_parted(self, other, same_lineage && same_kv_merkle(self, other), map),
    {
        let ghost wanted = picked(self@, other@.dom(), false).union_prefer_right(
            picked(other@, self@.dom(), false),
        );
        proof {
            self.lemma_map();
            other.lemma_map();
        }
        if self.is_empty() {
            proof {
                assert(wanted =~= other@);
                if self@.len() == other@.len() {
                    assert(other@ =~= Map::<K::V, V>::empty());
                }
            }
            return other;
        }
        if other.is_empty() {
            proof {
                assert(wanted =~= self@);
                if self@.len() == other@.len() {
                    assert(self@ =~= Map::<K::V, V>::empty());
                }
            }
            return self;
        }
        if self.ptr_eq(&other) {
            let map = Self::new();
            proof {
                assert(wanted =~= map@);
            }
            return map;
        }
        if self.same_prints(&other, same_lineage) {
            return Self::new();
        }
        let (left, right) = Self::par_both_picks(&self, &other);
        let map = left.union(right);
        proof {
            assert(map@ =~= wanted);
            left.lemma_map();
            right.lemma_map();
            lemma_united(left, right, map);
            let both = self.held_keys().union_prefer_right(other.held_keys());
            assert forall|key: K::V| #[trigger] map.held_keys().contains_key(key) implies
                both.contains_pair(key, map.held_keys()[key]) by {
                if left.held_keys().contains_key(key) {
                    assert(left@.contains_key(key));
                    assert(!other@.contains_key(key));
                    assert(!right@.contains_key(key));
                } else {
                    assert(right.held_keys().contains_key(key));
                }
            }
        }
        map
    }

    /// What only one map holds, and what only the other holds.
    fn par_both_picks(ours: &Self, theirs: &Self) -> (parts: (Self, Self)) where
        K: HashKey<S> + Send + Sync,
        V: Send + Sync,
        S: Default + Send + Sync,

        requires
            ours.wf(),
            theirs.wf(),
        ensures
            parts.0.wf(),
            parts.0@ == picked(ours@, theirs@.dom(), false),
            parts.0@.len() <= ours@.len(),
            anew(parts.0),
            parts.0.held_keys().submap_of(ours.held_keys()),
            parts.1.wf(),
            parts.1@ == picked(theirs@, ours@.dom(), false),
            parts.1@.len() <= theirs@.len(),
            anew(parts.1),
            parts.1.held_keys().submap_of(theirs.held_keys()),
    {
        let left = || -> (part: Self)
            requires
                usable_map(ours),
                usable_map(theirs),
            ensures
                part.wf(),
                part@ == picked(ours@, theirs@.dom(), false),
                part@.len() <= ours@.len(),
                anew(part),
                part.held_keys().submap_of(ours.held_keys()),
            { ours.par_pick(theirs, false) };
        let right = || -> (part: Self)
            requires
                usable_map(ours),
                usable_map(theirs),
            ensures
                part.wf(),
                part@ == picked(theirs@, ours@.dom(), false),
                part@.len() <= theirs@.len(),
                anew(part),
                part.held_keys().submap_of(theirs.held_keys()),
            { theirs.par_pick(ours, false) };
        crate::parallel::both(left, right)
    }

    /// The entries that a function says `true` of.
    pub fn par_filter<F: Fn(&K, &V) -> bool + Sync + Send>(&self, f: F) -> (map: Self) where
        K: HashKey<S> + Send + Sync,
        V: Send + Sync,
        S: Default + Send + Sync,

        requires
            self.wf(),
            accepts_entries(f, self@),
        ensures
            map.wf(),
            keeps(&f, self@, map@),
            anew(map),
            map.held_keys().submap_of(self.held_keys()),
    {
        let pairs = self.pairs();
        proof {
            assert forall|i: int| 0 <= i < pairs@.len() implies f.requires(
                (&*(#[trigger] pairs@[i]).0, &*pairs@[i].1),
            ) by {
                lemma_find(pairs@, i);
                assert(self@.contains_key(inside(pairs@[i].0)@));
            }
            assert(accepts_list(&f, pairs@));
        }
        Self::par_keep(pairs.as_slice(), &f)
    }
}

} // verus!
