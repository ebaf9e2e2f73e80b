//! Laws on walks: what an iterator hands out of a collection, and what is made of
//! a list of maps.
use crate::bag::GenericBag;
use crate::bimap::GenericBiMap;
use crate::champ::ChampMap;
use crate::hash_key::HashKey;
use crate::hash_map::GenericHashMap;
use crate::hash_map_ops::joined;
use crate::hash_map_sets::{accepts_keyed, folds, keyed_step};
use crate::hash_map_update::sizes;
use crate::hash_multimap::GenericHashMultiMap;
use crate::hash_set::GenericHashSet;
use crate::identity_hasher::IdentityBuildHasher;
use crate::insertion_order_map::GenericInsertionOrderMap;
use crate::node::{distinct, lemma_find, lemma_found, Pair};
use crate::random_state::RandomState;
use crate::trie::pairs_map;
use vstd::prelude::*;
use vstd::std_specs::cmp::PartialEqSpec;

verus! {

/// What distinct entries say of the map that they list.
proof fn lemma_walk<K: View, V>(pairs: Seq<Pair<K, V>>, map: Map<K::V, V>)
    requires
        distinct(pairs),
        map == pairs_map(pairs),
    ensures
        forall|i: int|
            0 <= i < pairs.len() ==> map.contains_key((*(#[trigger] pairs[i]).0)@) && map[(
            *pairs[i].0)@] == *pairs[i].1,
        forall|key: K::V| #[trigger]
            map.contains_key(key) ==> exists|i: int|
                0 <= i < pairs.len() && (*(#[trigger] pairs[i]).0)@ == key,
        forall|i: int, j: int|
            0 <= i < j < pairs.len() ==> (*(#[trigger] pairs[i]).0)@ != (*(
            #[trigger] pairs[j]).0)@,
{
    assert forall|i: int| 0 <= i < pairs.len() implies map.contains_key((*(
    #[trigger] pairs[i]).0)@) && map[(*pairs[i].0)@] == *pairs[i].1 by {
        lemma_find(pairs, i);
    }
    assert forall|key: K::V| #[trigger] map.contains_key(key) implies exists|i: int|
        0 <= i < pairs.len() && (*(#[trigger] pairs[i]).0)@ == key by {
        let i = lemma_found(pairs, key);
        assert((*pairs[i].0)@ == key);
    }
}

/// A walk of a map meets every key once, with its value, and nothing else.
pub proof fn law_map_walk<'a, S, K: HashKey<S>, V>(
    map: &'a GenericHashMap<K, V, S>,
    iter: crate::iter::Iter<'a, K, V>,
)
    requires
        map.wf(),
        call_ensures(GenericHashMap::<K, V, S>::iter, (map,), iter),
    ensures
        iter@.len() == map@.len(),
        forall|i: int|
            0 <= i < iter@.len() ==> map@.contains_key((*(#[trigger] iter@[i]).0)@) && map@[(
            *iter@[i].0)@] == *iter@[i].1,
        forall|key: K::V| #[trigger]
            map@.contains_key(key) ==> exists|i: int|
                0 <= i < iter@.len() && (*(#[trigger] iter@[i]).0)@ == key,
        forall|i: int, j: int|
            0 <= i < j < iter@.len() ==> (*(#[trigger] iter@[i]).0)@ != (*(
            #[trigger] iter@[j]).0)@,
{
    map.lemma_map();
    lemma_walk(map.entries(), map@);
}

/// The keys and the values of a map are walked in one order: the value at a place
/// is that of the key at the place.
pub proof fn law_keys_and_values<'a, S, K: HashKey<S>, V>(
    map: &'a GenericHashMap<K, V, S>,
    keys: crate::map_iters::Keys<'a, K, V>,
    values: crate::map_iters::Values<'a, K, V>,
)
    requires
        map.wf(),
        call_ensures(GenericHashMap::<K, V, S>::keys, (map,), keys),
        call_ensures(GenericHashMap::<K, V, S>::values, (map,), values),
    ensures
        keys@.len() == map@.len(),
        values@.len() == map@.len(),
        forall|i: int|
            0 <= i < keys@.len() ==> map@.contains_key((#[trigger] keys@[i])@) && map@[keys@[i]@]
                == values@[i],
        forall|i: int, j: int|
            0 <= i < j < keys@.len() ==> (#[trigger] keys@[i])@ != (#[trigger] keys@[j])@,
{
    map.lemma_map();
    lemma_walk(map.entries(), map@);
    let pairs = map.entries();
    assert forall|i: int| 0 <= i < keys@.len() implies map@.contains_key((#[trigger] keys@[i])@)
        && map@[keys@[i]@] == values@[i] by {
        assert(*pairs[i].0 == keys@[i]);
    }
    assert forall|i: int, j: int| 0 <= i < j < keys@.len() implies (#[trigger] keys@[i])@ != (
    #[trigger] keys@[j])@ by {
        assert((*pairs[i].0)@ != (*pairs[j].0)@);
    }
}

/// A walk of a set meets every element once, and nothing else.
pub proof fn law_set_walk<'a, S, A: HashKey<S>>(
    set: &'a GenericHashSet<A, S>,
    iter: crate::hash_set::Iter<'a, A>,
)
    requires
        set.wf(),
        call_ensures(GenericHashSet::<A, S>::iter, (set,), iter),
    ensures
        iter@.len() == set@.len(),
        forall|i: int| 0 <= i < iter@.len() ==> set@.contains((#[trigger] iter@[i])@),
        forall|e: A::V| #[trigger]
            set@.contains(e) ==> exists|i: int|
                0 <= i < iter@.len() && (#[trigger] iter@[i])@ == e,
        forall|i: int, j: int|
            0 <= i < j < iter@.len() ==> (#[trigger] iter@[i])@ != (#[trigger] iter@[j])@,
{
    set.lemma_set();
    let all = crate::map_iters::names(iter@);
    assert forall|i: int| 0 <= i < iter@.len() implies set@.contains((#[trigger] iter@[i])@) by {
        assert(all[i] == iter@[i]@);
        assert(all.to_set().contains(all[i]));
    }
    assert forall|e: A::V| #[trigger] set@.contains(e) implies exists|i: int|
        0 <= i < iter@.len() && (#[trigger] iter@[i])@ == e by {
        assert(all.to_set().contains(e));
        let i = all.index_of(e);
        assert(iter@[i]@ == e);
    }
    assert forall|i: int, j: int| 0 <= i < j < iter@.len() implies (#[trigger] iter@[i])@ != (
    #[trigger] iter@[j])@ by {
        assert(all[i] != all[j]);
    }
}

/// A walk of a bag meets every element once, with the number of its copies.
pub proof fn law_bag_walk<'a, S, A: HashKey<S>>(
    bag: &'a GenericBag<A, S>,
    iter: crate::iter::Iter<'a, A, usize>,
)
    requires
        bag.wf(),
        call_ensures(GenericBag::<A, S>::iter, (bag,), iter),
    ensures
        forall|i: int|
            0 <= i < iter@.len() ==> bag@.count((*(#[trigger] iter@[i]).0)@) == *iter@[i].1,
        forall|e: A::V| #[trigger]
            bag@.count(e) > 0 ==> exists|i: int|
                0 <= i < iter@.len() && (*(#[trigger] iter@[i]).0)@ == e,
        forall|i: int, j: int|
            0 <= i < j < iter@.len() ==> (*(#[trigger] iter@[i]).0)@ != (*(
            #[trigger] iter@[j]).0)@,
{
    bag.lemma_bag();
    bag.lemma_entries();
    lemma_walk(bag.entries(), pairs_map(bag.entries()));
    assert forall|e: A::V| #[trigger] bag@.count(e) > 0 implies exists|i: int|
        0 <= i < iter@.len() && (*(#[trigger] iter@[i]).0)@ == e by {
        assert(bag@.dom().contains(e));
        assert(pairs_map(bag.entries()).contains_key(e));
    }
}

/// A walk of a bijection meets every key once, with its value.
pub proof fn law_bimap_walk<'a, S, K: HashKey<S>, V: HashKey<S>>(
    map: &'a GenericBiMap<K, V, S>,
    iter: crate::iter::Iter<'a, K, V>,
)
    requires
        map.wf(),
        call_ensures(GenericBiMap::<K, V, S>::iter, (map,), iter),
    ensures
        iter@.len() == map@.len(),
        forall|i: int|
            0 <= i < iter@.len() ==> map@.contains_key((*(#[trigger] iter@[i]).0)@) && map@[(
            *iter@[i].0)@] == (*iter@[i].1)@,
        forall|i: int, j: int|
            0 <= i < j < iter@.len() ==> (*(#[trigger] iter@[i]).0)@ != (*(
            #[trigger] iter@[j]).0)@,
{
    map.law_bijection();
    map.lemma_entries();
    lemma_walk(map.entries(), pairs_map(map.entries()));
}

/// A walk of a multimap meets every pair once, and nothing else.
pub proof fn law_multimap_walk<'a, S, K: HashKey<S>, V: HashKey<S>>(
    map: &'a GenericHashMultiMap<K, V, S>,
    iter: crate::hash_multimap_iter::Iter<'a, K, V, S>,
)
    requires
        map.wf(),
        call_ensures(GenericHashMultiMap::<K, V, S>::iter, (map,), iter),
    ensures
        iter@.len() == map@.len(),
        forall|i: int|
            0 <= i < iter@.len() ==> map@.contains(
                ((#[trigger] iter@[i]).0@, iter@[i].1@),
            ),
        forall|k: K::V, v: V::V| #[trigger]
            map@.contains((k, v)) ==> exists|i: int|
                0 <= i < iter@.len() && (#[trigger] iter@[i]).0@ == k && iter@[i].1@ == v,
{
    map.law_walk();
    let all = crate::bimap::pair_names(iter@);
    assert forall|i: int| 0 <= i < iter@.len() implies map@.contains(
        ((#[trigger] iter@[i]).0@, iter@[i].1@),
    ) by {
        assert(all[i] == (iter@[i].0@, iter@[i].1@));
        assert(all.to_set().contains(all[i]));
    }
    assert forall|k: K::V, v: V::V| #[trigger] map@.contains((k, v)) implies exists|i: int|
        0 <= i < iter@.len() && (#[trigger] iter@[i]).0@ == k && iter@[i].1@ == v by {
        assert(all.to_set().contains((k, v)));
        let i = all.index_of((k, v));
        assert(all[i] == (k, v));
        assert(iter@[i].0@ == k);
    }
}

/// A walk of a map in order of insertion meets the entries in that order.
pub proof fn law_order_walk<'a, S, K: HashKey<S>, V>(
    map: &'a GenericInsertionOrderMap<K, V, S>,
    iter: crate::insertion_order_map::Iter<'a, K, V>,
)
    requires
        map.wf(),
        call_ensures(GenericInsertionOrderMap::<K, V, S>::iter, (map,), iter),
    ensures
        iter@.len() == map@.len(),
        forall|i: int|
            0 <= i < iter@.len() ==> map@[i] == ((*(#[trigger] iter@[i]).1.0)@, *iter@[i].1.1),
{
    map.law_keys_differ();
}

/// The keys and the values of a map in order of insertion are walked in that order.
pub proof fn law_order_keys_and_values<'a, S, K: HashKey<S>, V>(
    map: &'a GenericInsertionOrderMap<K, V, S>,
    keys: crate::insertion_order_map_ops::Keys<'a, K, V>,
    values: crate::insertion_order_map_ops::Values<'a, K, V>,
)
    requires
        map.wf(),
        call_ensures(GenericInsertionOrderMap::<K, V, S>::keys, (map,), keys),
        call_ensures(GenericInsertionOrderMap::<K, V, S>::values, (map,), values),
    ensures
        keys@.len() == map@.len(),
        values@.len() == map@.len(),
        forall|i: int| 0 <= i < map@.len() ==> #[trigger] map@[i] == (keys@[i]@, values@[i]),
{
    map.law_keys_differ();
}

/// Maps of the plain kind test as equal just where they have the same keys, with
/// values that are equal by `==`.
pub proof fn law_champ_test_eq<K: HashKey<RandomState>, V: PartialEq>(
    a: &ChampMap<K, V>,
    b: &ChampMap<K, V>,
    equal: bool,
)
    requires
        a.wf(),
        b.wf(),
        V::obeys_eq_spec(),
        forall|v: V| #[trigger] v.eq_spec(&v),
        call_ensures(ChampMap::<K, V>::test_eq, (a, b), equal),
    ensures
        equal <==> forall|key: K::V|
            #![trigger a@.contains_key(key)]
            #![trigger b@.contains_key(key)]
            a@.contains_key(key) == b@.contains_key(key) && (a@.contains_key(key)
                ==> a@[key].eq_spec(&b@[key])),
{
    if equal {
        assert forall|key: K::V|
            #![trigger a@.contains_key(key)]
            #![trigger b@.contains_key(key)]
            a@.contains_key(key) == b@.contains_key(key) && (a@.contains_key(key)
                ==> a@[key].eq_spec(&b@[key])) by {
            assert(a@.dom().contains(key) == b@.dom().contains(key));
        }
    }
    if forall|key: K::V|
        #![trigger a@.contains_key(key)]
        #![trigger b@.contains_key(key)]
        a@.contains_key(key) == b@.contains_key(key) && (a@.contains_key(key) ==> a@[key].eq_spec(
            &b@[key],
        )) {
        assert(a@.dom() =~= b@.dom()) by {
            assert forall|key: K::V| a@.dom().contains(key) == b@.dom().contains(key) by {
                assert(a@.contains_key(key) == b@.contains_key(key));
            }
        }
    }
}

/// A union of a list of maps with a function has the keys of all of them, and a key
/// that one map alone has keeps its value.
pub proof fn law_unions_with_key<S: Default, K: HashKey<S>, V: Clone, F: Fn(&K, V, V) -> V>(
    maps: Vec<GenericHashMap<K, V, S>>,
    f: F,
    map: GenericHashMap<K, V, S>,
    key: K::V,
)
    requires
        forall|i: int| 0 <= i < maps@.len() ==> (#[trigger] maps@[i]).wf(),
        sizes(maps@) <= usize::MAX,
        accepts_keyed(f, maps@.map_values(|m: GenericHashMap<K, V, S>| m@)),
        call_ensures(GenericHashMap::<K, V, S>::unions_with_key::<F>, (maps, f), map),
    ensures
        map@.contains_key(key) <==> exists|i: int|
            0 <= i < maps@.len() && (#[trigger] maps@[i])@.contains_key(key),
        forall|i: int|
            #![trigger maps@[i]]
            0 <= i < maps@.len() && maps@[i]@.contains_key(key) && (forall|j: int|
                0 <= j < maps@.len() && j != i ==> !(#[trigger] maps@[j])@.contains_key(key))
                ==> map@[key] == maps@[i]@[key],
{
    let views = maps@.map_values(|m: GenericHashMap<K, V, S>| m@);
    lemma_folded(f, views, map@, key);
    if map@.contains_key(key) {
        let i = choose|i: int| 0 <= i < views.len() && (#[trigger] views[i]).contains_key(key);
        assert(maps@[i]@.contains_key(key));
    }
    if exists|i: int| 0 <= i < maps@.len() && (#[trigger] maps@[i])@.contains_key(key) {
        let i = choose|i: int| 0 <= i < maps@.len() && (#[trigger] maps@[i])@.contains_key(key);
        assert(views[i].contains_key(key));
    }
    assert forall|i: int|
        #![trigger maps@[i]]
        0 <= i < maps@.len() && maps@[i]@.contains_key(key) && (forall|j: int|
            0 <= j < maps@.len() && j != i ==> !(#[trigger] maps@[j])@.contains_key(
                key,
            )) implies map@[key] == maps@[i]@[key] by {
        assert(views[i].contains_key(key));
        assert forall|j: int| 0 <= j < views.len() && j != i implies !(
        #[trigger] views[j]).contains_key(key) by {
            assert(!maps@[j]@.contains_key(key));
        }
        lemma_folded_alone(f, views, map@, i, key);
    }
}

proof fn lemma_folded<K: View, V: Clone, F: Fn(&K, V, V) -> V>(
    f: F,
    maps: Seq<Map<K::V, V>>,
    out: Map<K::V, V>,
    key: K::V,
)
    requires
        folds(keyed_step(f), maps, out),
    ensures
        out.contains_key(key) <==> exists|i: int|
            0 <= i < maps.len() && (#[trigger] maps[i]).contains_key(key),
    decreases maps.len(),
{
    if maps.len() > 0 {
        let front = maps.drop_last();
        let n = maps.len() - 1;
        let before = choose|before: Map<K::V, V>|
            folds(keyed_step(f), front, before) && #[trigger] keyed_step(f)(
                before,
                maps.last(),
                out,
            );
        assert(joined(f, before, maps.last(), out));
        lemma_folded(f, front, before, key);
        assert(out.dom().contains(key) == (before.dom().contains(key) || maps.last().dom().contains(
            key,
        )));
        if before.contains_key(key) {
            let i = choose|i: int| 0 <= i < front.len() && (#[trigger] front[i]).contains_key(key);
            assert(maps[i].contains_key(key));
        }
        if maps.last().contains_key(key) {
            assert(maps[n].contains_key(key));
        }
        if exists|i: int| 0 <= i < maps.len() && (#[trigger] maps[i]).contains_key(key) {
            let i = choose|i: int| 0 <= i < maps.len() && (#[trigger] maps[i]).contains_key(key);
            if i < n {
                assert(front[i].contains_key(key));
            }
        }
    }
}

proof fn lemma_folded_alone<K: View, V: Clone, F: Fn(&K, V, V) -> V>(
    f: F,
    maps: Seq<Map<K::V, V>>,
    out: Map<K::V, V>,
    i: int,
    key: K::V,
)
    requires
        folds(keyed_step(f), maps, out),
        0 <= i < maps.len(),
        maps[i].contains_key(key),
        forall|j: int|
            0 <= j < maps.len() && j != i ==> !(#[trigger] maps[j]).contains_key(key),
    ensures
        out.contains_key(key),
        out[key] == maps[i][key],
    decreases maps.len(),
{
    let front = maps.drop_last();
    let n = maps.len() - 1;
    let before = choose|before: Map<K::V, V>|
        folds(keyed_step(f), front, before) && #[trigger] keyed_step(f)(before, maps.last(), out);
    assert(joined(f, before, maps.last(), out));
    assert(out.dom().contains(key) == (before.dom().contains(key) || maps.last().dom().contains(
        key,
    )));
    if i < n {
        assert(!maps[n].contains_key(key));
        assert forall|j: int| 0 <= j < front.len() && j != i implies !(
        #[trigger] front[j]).contains_key(key) by {
            assert(!maps[j].contains_key(key));
        }
        lemma_folded_alone(f, front, before, i, key);
        assert(out.contains_key(key));
    } else {
        lemma_folded(f, front, before, key);
        if before.contains_key(key) {
            let j = choose|j: int| 0 <= j < front.len() && (#[trigger] front[j]).contains_key(key);
            assert(!maps[j].contains_key(key));
        }
        assert(maps[n].contains_key(key));
        assert(out.contains_key(key));
    }
}

/// The hash of a number that passes through is the number.
pub proof fn law_identity_hash(
    state: &IdentityBuildHasher,
    a: u8,
    b: u16,
    c: u32,
    d: u64,
    e: usize,
    hashes: (u64, u64, u64, u64, u64),
)
    requires
        call_ensures(IdentityBuildHasher::hash_one::<u8>, (state, a), hashes.0),
        call_ensures(IdentityBuildHasher::hash_one::<u16>, (state, b), hashes.1),
        call_ensures(IdentityBuildHasher::hash_one::<u32>, (state, c), hashes.2),
        call_ensures(IdentityBuildHasher::hash_one::<u64>, (state, d), hashes.3),
        call_ensures(IdentityBuildHasher::hash_one::<usize>, (state, e), hashes.4),
    ensures
        hashes.0 == a,
        hashes.1 == b,
        hashes.2 == c,
        hashes.3 == d,
        hashes.4 == e as u64,
{
}

} // verus!
