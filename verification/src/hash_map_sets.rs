//! Hash maps restricted by sets of keys, and unions of many hash maps.
use crate::hash_key::{is_default, HashKey, HashState};
use crate::hash_map::GenericHashMap;
use crate::hash_map_ops::{accepts, accepts_common, accepts_three, accepts_two, joined};
use crate::hash_map_ops::{fresh, joins, makes_of_three};
use crate::hash_map_ops::{makes_of_two, replaced_keys, says};
use crate::hash_map_update::{all_keys, sizes, unions_keys, unions_sole, unions_state};
use crate::hash_map_update::{lemma_empty_dom, lemma_sizes};
use crate::hash_set::GenericHashSet;
use crate::hash_set_ops::usable;
use crate::node::distinct;
use crate::trie::{lemma_seen, pairs_map};
use vstd::prelude::*;

verus! {

/// Whether a list of maps, joined one after the other to an empty map, may make
/// `out`, where `step` tells what a map and the next one may make.
pub open spec fn folds<M, V>(
    step: spec_fn(Map<M, V>, Map<M, V>, Map<M, V>) -> bool,
    maps: Seq<Map<M, V>>,
    out: Map<M, V>,
) -> bool
    decreases maps.len(),
{
    if maps.len() == 0 {
        out == Map::<M, V>::empty()
    } else {
        exists|before: Map<M, V>|
            folds(step, maps.drop_last(), before) && #[trigger] step(before, maps.last(), out)
    }
}

/// What a map and the next one may make, where a function of the key and two
/// values joins the values of a key.
pub open spec fn keyed_step<K: View, V: Clone, F: Fn(&K, V, V) -> V>(
    f: F,
) -> spec_fn(Map<K::V, V>, Map<K::V, V>, Map<K::V, V>) -> bool {
    |a: Map<K::V, V>, b: Map<K::V, V>, c: Map<K::V, V>| joined(f, a, b, c)
}

/// What a map and the next one may make, where a function of two values joins
/// the values of a key.
pub open spec fn value_step<M, V: Clone, F: Fn(V, V) -> V>(
    f: F,
) -> spec_fn(Map<M, V>, Map<M, V>, Map<M, V>) -> bool {
    |a: Map<M, V>, b: Map<M, V>, c: Map<M, V>| joined_by_values(f, a, b, c)
}

/// Whether a function of the key and two values accepts all that joining a list
/// of maps may hand to it.
pub open spec fn accepts_keyed<K: View, V: Clone, F: Fn(&K, V, V) -> V>(
    f: F,
    maps: Seq<Map<K::V, V>>,
) -> bool {
    forall|i: int, before: Map<K::V, V>|
        0 <= i < maps.len() && #[trigger] folds(keyed_step(f), maps.take(i), before) ==> forall|
            key: K::V,
        | #[trigger]
            before.contains_key(key) && maps[i].contains_key(key) ==> accepts(
                f,
                key,
                before[key],
                maps[i][key],
            )
}

/// Whether a function of two values accepts all that joining a list of maps may
/// hand to it.
pub open spec fn accepts_values<M, V: Clone, F: Fn(V, V) -> V>(f: F, maps: Seq<Map<M, V>>) -> bool {
    forall|i: int, before: Map<M, V>|
        0 <= i < maps.len() && #[trigger] folds(value_step(f), maps.take(i), before)
            ==> accepts_common(f, before, maps[i])
}

/// One map more is joined.
proof fn lemma_fold_step<M, V>(
    step: spec_fn(Map<M, V>, Map<M, V>, Map<M, V>) -> bool,
    maps: Seq<Map<M, V>>,
    before: Map<M, V>,
    next: Map<M, V>,
    out: Map<M, V>,
)
    requires
        folds(step, maps, before),
        step(before, next, out),
    ensures
        folds(step, maps.push(next), out),
{
    assert(maps.push(next).drop_last() =~= maps);
    assert(step(before, maps.push(next).last(), out));
}

/// Whether a function of two values may join two maps to `map`.
pub open spec fn joined_by_values<M, V: Clone, F: Fn(V, V) -> V>(
    f: F,
    left: Map<M, V>,
    right: Map<M, V>,
    map: Map<M, V>,
) -> bool {
    &&& map.dom() == left.dom().union(right.dom())
    &&& forall|key: M| #[trigger]
        map.contains_key(key) ==> if !right.contains_key(key) {
            map[key] == left[key]
        } else if !left.contains_key(key) {
            map[key] == right[key]
        } else {
            exists|a: V, b: V|
                cloned(left[key], a) && cloned(right[key], b) && #[trigger] f.ensures(
                    (a, b),
                    map[key],
                )
        }
}

impl<K, V, S> GenericHashMap<K, V, S> {
    /// The entries whose keys are in a set.
    pub fn restrict_keys(&self, keys: &GenericHashSet<K, S>) -> (map: Self) where
        K: HashKey<S>,
        S: HashState,

        requires
            self.wf(),
            keys.wf(),
        ensures
            map.wf(),
            map@ == self@.restrict(keys@),
            map.held_keys().submap_of(self.held_keys()),
            map.state() == self.state(),
            match self.top() {
                Some(_) => map.kv_merkle() is None && map.top() is Some,
                None => map == *self,
            },
    {
        let mut map = self.clone();
        let held = |k: &K, v: &V| -> (keep: bool)
            requires
                usable(keys),
            ensures
                keys@.contains(k@) == keep,
            { keys.contains(k) };
        map.retain(held);
        proof {
            assert forall|key: K::V| self@.contains_key(key) implies map@.contains_key(key)
                == keys@.contains(key) by {
                assert(says(held, key, self@[key], map@.contains_key(key)));
            }
            assert(map@ =~= self@.restrict(keys@));
        }
        map
    }

    /// The entries whose keys are not in a set.
    pub fn without_keys(&self, keys: &GenericHashSet<K, S>) -> (map: Self) where
        K: HashKey<S>,
        S: HashState,

        requires
            self.wf(),
            keys.wf(),
        ensures
            map.wf(),
            map@ == self@.remove_keys(keys@),
            map.held_keys().submap_of(self.held_keys()),
            map.state() == self.state(),
            map.top() is None == self.top() is None,
            if self@.dom().disjoint(keys@) {
                map == *self
            } else {
                map.kv_merkle() is None
            },
    {
        let mut map = self.clone();
        let pairs = keys.pairs();
        let mut i: usize = 0;
        proof {
            lemma_seen(pairs@, 0);
            assert(map@ =~= self@.remove_keys(pairs_map(pairs@.take(0)).dom()));
        }
        while i < pairs.len()
            invariant
                i <= pairs.len(),
                distinct(pairs@),
                map.wf(),
                map.state() == self.state(),
                map@ == self@.remove_keys(pairs_map(pairs@.take(i as int)).dom()),
                map.held_keys().submap_of(self.held_keys()),
                map.top() is None == self.top() is None,
                if self@.dom().disjoint(pairs_map(pairs@.take(i as int)).dom()) {
                    map == *self
                } else {
                    map.kv_merkle() is None
                },
            decreases pairs.len() - i,
        {
            proof {
                lemma_seen(pairs@, i as int);
                let seen = pairs_map(pairs@.take(i as int)).dom();
                let key = (*pairs@[i as int].0)@;
                map.lemma_top();
                assert(self@.dom().disjoint(seen.insert(key)) == (self@.dom().disjoint(seen)
                    && !self@.contains_key(key)));
            }
            map.remove_pair_invalidate(&*pairs[i].0);
            i += 1;
            proof {
                assert(map@ =~= self@.remove_keys(pairs_map(pairs@.take(i as int)).dom()));
            }
        }
        proof {
            lemma_seen(pairs@, pairs@.len() as int);
        }
        map
    }

    /// The union of a list of maps; a function of the key and two values joins
    /// the values of a key, from the first map to the last.
    pub fn unions_with_key<F: Fn(&K, V, V) -> V>(maps: Vec<Self>, f: F) -> (map: Self) where
        K: HashKey<S>,
        V: Clone,
        S: Default,

        requires
            forall|i: int| 0 <= i < maps@.len() ==> (#[trigger] maps@[i]).wf(),
            sizes(maps@) <= usize::MAX,
            accepts_keyed(f, maps@.map_values(|m: Self| m@)),
        ensures
            map.wf(),
            folds(keyed_step(f), maps@.map_values(|m: Self| m@), map@),
            map.held_keys() == unions_keys(
                |a: Map<K::V, K>, b: Map<K::V, K>| replaced_keys(a, b),
                maps@,
            ),
            exists|start: S| #[trigger]
                is_default(start) && map.state() == unions_state(maps@, start),
            match unions_sole(maps@) {
                Some(sole) => map == sole,
                None => if all_keys(maps@) == Set::<K::V>::empty() {
                    fresh(map)
                } else {
                    map.kv_merkle() is None && map.top() is Some
                },
            },
    {
        let ghost all = maps@;
        let ghost views = all.map_values(|m: Self| m@);
        let ghost step = keyed_step(f);
        let ghost union_keys = |a: Map<K::V, K>, b: Map<K::V, K>| replaced_keys(a, b);
        let mut map = Self::new();
        let ghost start = map.state();
        proof {
            assert(all.take(0) =~= Seq::<Self>::empty());
            assert(map@.dom() =~= Set::empty());
        }
        for next in iter: maps.into_iter()
            invariant
                iter.seq() == all,
                forall|j: int| 0 <= j < all.len() ==> (#[trigger] all[j]).wf(),
                views == all.map_values(|m: Self| m@),
                step == keyed_step(f),
                sizes(all) <= usize::MAX,
                accepts_keyed(f, views),
                map.wf(),
                folds(step, views.take(iter.index()), map@),
                map@.dom() == all_keys(all.take(iter.index())),
                union_keys == (|a: Map<K::V, K>, b: Map<K::V, K>| replaced_keys(a, b)),
                map.held_keys() == unions_keys(union_keys, all.take(iter.index())),
                map.state() == unions_state(all.take(iter.index()), start),
                match unions_sole(all.take(iter.index())) {
                    Some(sole) => map == sole && map@.len() > 0,
                    None => if all_keys(all.take(iter.index())) == Set::<K::V>::empty() {
                        fresh(map)
                    } else {
                        map.kv_merkle() is None && map.top() is Some
                    },
                },
                map@.dom().finite(),
                map@.len() <= sizes(all.take(iter.index())),
        {
            let ghost i = iter.index();
            let ghost before = map@;
            proof {
                assert(next == all[i]);
                next.lemma_map();
                assert(all.take(i + 1).drop_last() =~= all.take(i));
                lemma_sizes(all, i + 1);
            }
            let join = |key: &K, ours: V, theirs: V| -> (value: V)
                requires
                    accepts_three(&f, key, ours, theirs),
                ensures
                    makes_of_three(&f, key, ours, theirs, value),
                { f(key, ours, theirs) };
            proof {
                assert(views[i] == next@);
                assert forall|key: K::V| #[trigger]
                    before.contains_key(key) && next@.contains_key(key) implies accepts(
                    join,
                    key,
                    before[key],
                    next@[key],
                ) by {
                    assert(accepts(f, key, before[key], views[i][key]));
                    assert forall|k: K, a: V, b: V|
                        k@ == key && cloned(before[key], a) && cloned(
                            next@[key],
                            b,
                        ) implies #[trigger] join.requires((&k, a, b)) by {
                        assert(f.requires((&k, a, b)));
                    }
                }
            }
            map = map.union_with_key(next, join);
            proof {
                assert forall|key: K::V| #[trigger] map@.contains_key(key) && before.contains_key(key)
                    && next@.contains_key(key) implies joins(
                    f,
                    key,
                    before[key],
                    next@[key],
                    map@[key],
                ) by {
                    let (k, a, b) = choose|k: K, a: V, b: V|
                        k@ == key && cloned(before[key], a) && cloned(next@[key], b)
                            && #[trigger] join.ensures((&k, a, b), map@[key]);
                    assert(f.ensures((&k, a, b), map@[key]));
                }
                assert(joined(f, before, next@, map@));
                lemma_fold_step(step, views.take(i), before, next@, map@);
                assert(views.take(i + 1) =~= views.take(i).push(next@));
                assert(all.take(i + 1).last() == next);
                assert(map@.dom() =~= before.dom().union(next@.dom()));
                lemma_empty_dom(before);
                lemma_empty_dom(next@);
                lemma_empty_dom(map@);
                if map@.dom() == Set::<K::V>::empty() {
                    assert(before.dom().subset_of(map@.dom()) && next@.dom().subset_of(map@.dom()));
                    assert(before.dom() =~= Set::empty());
                    assert(next@.dom() =~= Set::empty());
                }
                map.lemma_map();
                vstd::set_lib::lemma_len_union(before.dom(), next@.dom());
            }
        }
        proof {
            assert(views.take(views.len() as int) =~= views);
            assert(all.take(all.len() as int) =~= all);
            assert(is_default(start));
        }
        map
    }

    /// The union of a list of maps; a function of two values joins the values of
    /// a key, from the first map to the last.
    pub fn unions_with<F: Fn(V, V) -> V>(maps: Vec<Self>, f: F) -> (map: Self) where
        K: HashKey<S>,
        V: Clone,
        S: Default,

        requires
            forall|i: int| 0 <= i < maps@.len() ==> (#[trigger] maps@[i]).wf(),
            sizes(maps@) <= usize::MAX,
            accepts_values(f, maps@.map_values(|m: Self| m@)),
        ensures
            map.wf(),
            folds(value_step(f), maps@.map_values(|m: Self| m@), map@),
            map.held_keys() == unions_keys(
                |a: Map<K::V, K>, b: Map<K::V, K>| replaced_keys(a, b),
                maps@,
            ),
            exists|start: S| #[trigger]
                is_default(start) && map.state() == unions_state(maps@, start),
            match unions_sole(maps@) {
                Some(sole) => map == sole,
                None => if all_keys(maps@) == Set::<K::V>::empty() {
                    fresh(map)
                } else {
                    map.kv_merkle() is None && map.top() is Some
                },
            },
    {
        let ghost all = maps@;
        let ghost views = all.map_values(|m: Self| m@);
        let ghost step = value_step::<K::V, V, F>(f);
        let ghost union_keys = |a: Map<K::V, K>, b: Map<K::V, K>| replaced_keys(a, b);
        let mut map = Self::new();
        let ghost start = map.state();
        proof {
            assert(all.take(0) =~= Seq::<Self>::empty());
            assert(map@.dom() =~= Set::empty());
        }
        for next in iter: maps.into_iter()
            invariant
                iter.seq() == all,
                forall|j: int| 0 <= j < all.len() ==> (#[trigger] all[j]).wf(),
                views == all.map_values(|m: Self| m@),
                step == value_step::<K::V, V, F>(f),
                sizes(all) <= usize::MAX,
                accepts_values(f, views),
                map.wf(),
                folds(step, views.take(iter.index()), map@),
                map@.dom() == all_keys(all.take(iter.index())),
                union_keys == (|a: Map<K::V, K>, b: Map<K::V, K>| replaced_keys(a, b)),
                map.held_keys() == unions_keys(union_keys, all.take(iter.index())),
                map.state() == unions_state(all.take(iter.index()), start),
                match unions_sole(all.take(iter.index())) {
                    Some(sole) => map == sole && map@.len() > 0,
                    None => if all_keys(all.take(iter.index())) == Set::<K::V>::empty() {
                        fresh(map)
                    } else {
                        map.kv_merkle() is None && map.top() is Some
                    },
                },
                map@.dom().finite(),
                map@.len() <= sizes(all.take(iter.index())),
        {
            let ghost i = iter.index();
            let ghost before = map@;
            proof {
                assert(next == all[i]);
                next.lemma_map();
                assert(all.take(i + 1).drop_last() =~= all.take(i));
                lemma_sizes(all, i + 1);
            }
            let join = |ours: V, theirs: V| -> (value: V)
                requires
                    accepts_two(&f, ours, theirs),
                ensures
                    makes_of_two(&f, ours, theirs, value),
                { f(ours, theirs) };
            proof {
                assert(views[i] == next@);
                assert(accepts_common(f, before, views[i]));
                assert forall|key: K::V, a: V, b: V|
                    #![trigger before.contains_key(key), join.requires((a, b))]
                    before.contains_key(key) && next@.contains_key(key) && cloned(before[key], a)
                        && cloned(next@[key], b) implies join.requires((a, b)) by {
                    assert(f.requires((a, b)));
                }
            }
            map = map.union_with(next, join);
            proof {
                assert forall|key: K::V| #[trigger] map@.contains_key(key) && before.contains_key(key)
                    && next@.contains_key(key) implies exists|a: V, b: V|
                    cloned(before[key], a) && cloned(next@[key], b) && #[trigger] f.ensures(
                        (a, b),
                        map@[key],
                    ) by {
                    let (a, b) = choose|a: V, b: V|
                        cloned(before[key], a) && cloned(next@[key], b)
                            && #[trigger] join.ensures((a, b), map@[key]);
                    assert(f.ensures((a, b), map@[key]));
                }
                assert(joined_by_values(f, before, next@, map@));
                lemma_fold_step(step, views.take(i), before, next@, map@);
                assert(views.take(i + 1) =~= views.take(i).push(next@));
                assert(all.take(i + 1).last() == next);
                assert(map@.dom() =~= before.dom().union(next@.dom()));
                lemma_empty_dom(before);
                lemma_empty_dom(next@);
                lemma_empty_dom(map@);
                if map@.dom() == Set::<K::V>::empty() {
                    assert(before.dom().subset_of(map@.dom()) && next@.dom().subset_of(map@.dom()));
                    assert(before.dom() =~= Set::empty());
                    assert(next@.dom() =~= Set::empty());
                }
                map.lemma_map();
                vstd::set_lib::lemma_len_union(before.dom(), next@.dom());
            }
        }
        proof {
            assert(views.take(views.len() as int) =~= views);
            assert(all.take(all.len() as int) =~= all);
            assert(is_default(start));
        }
        map
    }
}

} // verus!
