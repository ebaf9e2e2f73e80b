//! Laws on calls of bags, bijections and multimaps: what a call makes of every
//! element and every pair.
use crate::bag::{lemma_copies, GenericBag};
use crate::bimap::{pair_names, repaired_all, GenericBiMap};
use crate::fingerprint::kv_sum;
use crate::hash_key::{HashKey, HashState};
use crate::hash_multimap::{image, relates, GenericHashMultiMap};
use crate::hash_set::GenericHashSet;
use crate::map_iters::names;
use vstd::prelude::*;

verus! {

/// An insertion of copies adds to the count of the element, and leaves every other
/// count as it is.
pub proof fn law_bag_insert_many<S, A: HashKey<S>>(
    bag: &mut GenericBag<A, S>,
    value: A,
    n: usize,
    prev: usize,
    other: A::V,
) where usize: HashKey<S>
    requires
        old(bag).wf(),
        old(bag)@.len() + n <= usize::MAX,
        call_ensures(GenericBag::<A, S>::insert_many, (bag, value, n), prev),
    ensures
        prev == old(bag)@.count(value@),
        final(bag)@.count(value@) == prev + n,
        other != value@ ==> final(bag)@.count(other) == old(bag)@.count(other),
{
    broadcast use vstd::multiset::group_multiset_axioms;

    lemma_copies(value@, n as nat);
}

/// A removal of one element lowers its count by one, down to none, and leaves every
/// other count as it is.
pub proof fn law_bag_remove<S, A: HashKey<S>>(
    bag: &mut GenericBag<A, S>,
    value: &A,
    prev: usize,
    other: A::V,
) where usize: HashKey<S>
    requires
        old(bag).wf(),
        call_ensures(GenericBag::<A, S>::remove, (bag, value), prev),
    ensures
        prev == old(bag)@.count(value@),
        final(bag)@.count(value@) == if prev == 0 {
            0
        } else {
            prev - 1
        },
        other != value@ ==> final(bag)@.count(other) == old(bag)@.count(other),
{
    broadcast use vstd::multiset::group_multiset_axioms;

}

/// A removal of all copies leaves none of the element, and every other count as it
/// is.
pub proof fn law_bag_remove_all<S, A: HashKey<S>>(
    bag: &mut GenericBag<A, S>,
    value: &A,
    prev: usize,
    other: A::V,
) where usize: HashKey<S>
    requires
        old(bag).wf(),
        call_ensures(GenericBag::<A, S>::remove_all, (bag, value), prev),
    ensures
        prev == old(bag)@.count(value@),
        final(bag)@.count(value@) == 0,
        other != value@ ==> final(bag)@.count(other) == old(bag)@.count(other),
{
    broadcast use vstd::multiset::group_multiset_axioms;

    lemma_copies(value@, old(bag)@.count(value@));
}

/// How often an element stands in a list.
proof fn lemma_occurrences<A: View>(list: Seq<A>, element: A::V)
    ensures
        names(list).to_multiset().count(element) == list.filter(|a: A| a@ == element).len(),
    decreases list.len(),
{
    broadcast use vstd::multiset::group_multiset_axioms;
    broadcast use vstd::seq_lib::group_to_multiset_ensures;

    reveal(Seq::filter);
    if list.len() > 0 {
        let front = list.drop_last();
        lemma_occurrences(front, element);
        assert(names(list) =~= names(front).push(list.last()@));
    } else {
        assert(names(list) =~= Seq::<A::V>::empty());
        assert(names(list).to_multiset().count(element) == 0);
    }
}

/// A bag of a list counts how often each element stands in the list.
pub proof fn law_bag_of_list<S: Default, A: HashKey<S>>(
    list: Vec<A>,
    bag: GenericBag<A, S>,
    element: A::V,
) where usize: HashKey<S>
    requires
        call_ensures(GenericBag::<A, S>::from_vec, (list,), bag),
    ensures
        bag@.count(element) == list@.filter(|a: A| a@ == element).len(),
{
    lemma_occurrences(list@, element);
}

/// A sum adds the counts, an intersection takes the lower of the two, and a
/// difference subtracts, down to none.
pub proof fn law_bag_counts<S: HashState + Default, A: HashKey<S>>(
    a: &GenericBag<A, S>,
    b: &GenericBag<A, S>,
    sum: GenericBag<A, S>,
    common: GenericBag<A, S>,
    rest: GenericBag<A, S>,
    element: A::V,
) where usize: HashKey<S>
    requires
        a.wf(),
        b.wf(),
        a@.len() + b@.len() <= usize::MAX,
        call_ensures(GenericBag::<A, S>::sum, (a, b), sum),
        call_ensures(GenericBag::<A, S>::intersection, (a, b), common),
        call_ensures(GenericBag::<A, S>::difference, (a, b), rest),
    ensures
        sum@.count(element) == a@.count(element) + b@.count(element),
        common@.count(element) == if a@.count(element) <= b@.count(element) {
            a@.count(element)
        } else {
            b@.count(element)
        },
        rest@.count(element) == if a@.count(element) <= b@.count(element) {
            0
        } else {
            a@.count(element) - b@.count(element)
        },
{
    broadcast use vstd::multiset::group_multiset_axioms;
    broadcast use vstd::multiset::lemma_intersection_count;

}

/// A test for equality that says yes speaks of bags with the same counts, or of
/// bags of one size whose fingerprints are both valid and the same.
pub proof fn law_bag_test_eq<S: HashState, A: HashKey<S>>(
    a: &GenericBag<A, S>,
    b: &GenericBag<A, S>,
    equal: bool,
)
    requires
        a.wf(),
        b.wf(),
        call_ensures(GenericBag::<A, S>::test_eq, (a, b), equal),
    ensures
        (forall|e: A::V| #[trigger] a@.count(e) == b@.count(e)) ==> equal,
        equal ==> (forall|e: A::V| #[trigger] a@.count(e) == b@.count(e)) || (a.kv_merkle() is Some
            && b.kv_merkle() is Some && a.kv_merkle() == b.kv_merkle() && a.keys_merkle()
            == b.keys_merkle() && a.state() == b.state() && a@.len() == b@.len()),
{
    if forall|e: A::V| #[trigger] a@.count(e) == b@.count(e) {
        assert(a@ =~= b@);
    }
}

/// An insertion into a bijection pairs the key with the value and nothing else: the
/// pairs that stood in its way are gone, and every other pair stays.
pub proof fn law_bimap_insert<S, K: HashKey<S> + Clone, V: HashKey<S> + Clone>(
    map: &mut GenericBiMap<K, V, S>,
    key: K,
    value: V,
    displaced: Option<(Option<V>, Option<K>)>,
    other: K::V,
)
    requires
        old(map).wf(),
        call_ensures(GenericBiMap::<K, V, S>::insert, (map, key, value), displaced),
    ensures
        final(map)@.contains_key(key@) && final(map)@[key@] == value@,
        other != key@ ==> final(map)@.contains_key(other) == (old(map)@.contains_key(other) && old(
            map,
        )@[other] != value@),
        other != key@ && final(map)@.contains_key(other) ==> final(map)@[other] == old(map)@[other],
        displaced is None <==> !old(map)@.contains_key(key@) && (forall|k: K::V| #[trigger]
            old(map)@.contains_key(k) ==> old(map)@[k] != value@),
{
    if old(map)@.contains_value(value@) {
        let k = choose|k: K::V| #[trigger] old(map)@.dom().contains(k) && old(map)@[k] == value@;
        assert(old(map)@.contains_key(k));
    }
    if exists|k: K::V| #[trigger] old(map)@.contains_key(k) && old(map)@[k] == value@ {
        let k = choose|k: K::V| #[trigger] old(map)@.contains_key(k) && old(map)@[k] == value@;
        assert(old(map)@.dom().contains(k) && old(map)@[k] == value@);
    }
}

/// What a bijection gives for a key it gives back for the value, and the other way
/// round.
pub proof fn law_bimap_round_trip<S, K: HashKey<S>, V: HashKey<S>>(
    map: &GenericBiMap<K, V, S>,
    key: &K,
    value: &V,
    from_key: Option<&V>,
    from_value: Option<&K>,
)
    requires
        map.wf(),
        call_ensures(GenericBiMap::<K, V, S>::get_by_key, (map, key), from_key),
        call_ensures(GenericBiMap::<K, V, S>::get_by_value, (map, value), from_value),
    ensures
        (from_key matches Some(v) && v@ == value@) <==> (from_value matches Some(k) && k@ == key@),
{
    map.law_bijection();
    if from_key matches Some(v) && v@ == value@ {
        assert(map@.dom().contains(key@) && map@[key@] == value@);
        assert(map@.contains_value(value@));
    }
}

/// A test for equality that says yes speaks of bijections with the same pairs, or
/// of bijections of one size whose fingerprints are the same, and those are the
/// sums over their own pairs.
pub proof fn law_bimap_test_eq<S: HashState, K: HashKey<S>, V: HashKey<S>>(
    a: &GenericBiMap<K, V, S>,
    b: &GenericBiMap<K, V, S>,
    equal: bool,
)
    requires
        a.wf(),
        b.wf(),
        call_ensures(GenericBiMap::<K, V, S>::test_eq, (a, b), equal),
    ensures
        (forall|k: K::V|
            #![trigger a@.contains_key(k)]
            #![trigger b@.contains_key(k)]
            a@.contains_key(k) == b@.contains_key(k) && (a@.contains_key(k) ==> a@[k] == b@[k]))
            ==> equal,
        equal ==> (forall|k: K::V|
            #![trigger a@.contains_key(k)]
            #![trigger b@.contains_key(k)]
            a@.contains_key(k) == b@.contains_key(k) && (a@.contains_key(k) ==> a@[k] == b@[k]))
            || (a@.len() == b@.len() && a.state() == b.state() && kv_sum::<S, K, V>(
            a.held_values(),
            a.state(),
        ) == kv_sum::<S, K, V>(b.held_values(), b.state())),
{
    a.law_bijection();
    b.law_bijection();
    if forall|k: K::V|
        #![trigger a@.contains_key(k)]
        #![trigger b@.contains_key(k)]
        a@.contains_key(k) == b@.contains_key(k) && (a@.contains_key(k) ==> a@[k] == b@[k]) {
        assert(a@ =~= b@) by {
            assert forall|k: K::V| a@.dom().contains(k) == b@.dom().contains(k) by {
                assert(a@.contains_key(k) == b@.contains_key(k));
            }
            assert forall|k: K::V| a@.dom().contains(k) implies a@[k] == b@[k] by {
                assert(a@.contains_key(k));
            }
        }
    }
}

/// The set of a key holds just the values that the multimap has for it.
pub proof fn law_multimap_get<S: HashState + Default, K: HashKey<S>, V: HashKey<S>>(
    map: &GenericHashMultiMap<K, V, S>,
    key: &K,
    values: GenericHashSet<V, S>,
    found: bool,
    value: V::V,
)
    requires
        map.wf(),
        call_ensures(GenericHashMultiMap::<K, V, S>::get, (map, key), values),
        call_ensures(GenericHashMultiMap::<K, V, S>::contains_key, (map, key), found),
    ensures
        values@.contains(value) == map@.contains((key@, value)),
        found <==> exists|v: V::V| map@.contains((key@, v)),
{
}

/// The number of values of a key is the size of its set, and the number of keys
/// that of the set of keys that have a value.
pub proof fn law_multimap_counts<S: HashState + Default, K: HashKey<S>, V: HashKey<S>>(
    map: &GenericHashMultiMap<K, V, S>,
    key: &K,
    values: GenericHashSet<V, S>,
    count: usize,
    keys: usize,
)
    requires
        map.wf(),
        call_ensures(GenericHashMultiMap::<K, V, S>::get, (map, key), values),
        call_ensures(GenericHashMultiMap::<K, V, S>::key_count, (map, key), count),
        call_ensures(GenericHashMultiMap::<K, V, S>::keys_len, (map,), keys),
    ensures
        count == values@.len(),
        keys == Set::new(|k: K::V| exists|v: V::V| map@.contains((k, v))).len(),
{
    assert(crate::hash_multimap::related(map@) =~= Set::new(
        |k: K::V| exists|v: V::V| map@.contains((k, v)),
    ));
}

/// A removal of a key takes out its pairs and no other, and gives back its values.
pub proof fn law_multimap_remove_all<S: HashState + Default, K: HashKey<S>, V: HashKey<S>>(
    map: &mut GenericHashMultiMap<K, V, S>,
    key: &K,
    values: GenericHashSet<V, S>,
    k: K::V,
    v: V::V,
)
    requires
        old(map).wf(),
        call_ensures(GenericHashMultiMap::<K, V, S>::remove_all, (map, key), values),
    ensures
        final(map)@.contains((k, v)) == (old(map)@.contains((k, v)) && k != key@),
        values@.contains(v) == old(map)@.contains((key@, v)),
{
    let gone = crate::hash_multimap::row(key@, image(old(map)@, key@));
    let values_of = image(old(map)@, key@);
    if k == key@ && old(map)@.contains((k, v)) {
        assert(values_of.contains(v));
        assert(gone.contains((k, v)));
    }
}

/// A difference of multimaps has the pairs of the first whose keys the second has
/// not, and an intersection those whose keys the second has.
pub proof fn law_multimap_parts<S: Default, K: HashKey<S>, V: HashKey<S>>(
    a: GenericHashMultiMap<K, V, S>,
    b: &GenericHashMultiMap<K, V, S>,
    rest: GenericHashMultiMap<K, V, S>,
    common: GenericHashMultiMap<K, V, S>,
    k: K::V,
    v: V::V,
)
    requires
        a.wf(),
        b.wf(),
        call_ensures(GenericHashMultiMap::<K, V, S>::difference, (a, b), rest),
        call_ensures(GenericHashMultiMap::<K, V, S>::intersection, (a, b), common),
    ensures
        rest@.contains((k, v)) <==> a@.contains((k, v)) && forall|w: V::V| !b@.contains((k, w)),
        common@.contains((k, v)) <==> a@.contains((k, v)) && exists|w: V::V| b@.contains((k, w)),
{
    assert(relates(b@, k) <==> exists|w: V::V| b@.contains((k, w)));
}

/// A symmetric difference of multimaps has the pairs of each whose keys the other
/// has not.
pub proof fn law_multimap_symmetric_difference<
    S: HashState + Default,
    K: HashKey<S>,
    V: HashKey<S>,
>(
    a: GenericHashMultiMap<K, V, S>,
    b: &GenericHashMultiMap<K, V, S>,
    map: GenericHashMultiMap<K, V, S>,
    k: K::V,
    v: V::V,
)
    requires
        a.wf(),
        b.wf(),
        a@.len() + b@.len() <= usize::MAX,
        call_ensures(GenericHashMultiMap::<K, V, S>::symmetric_difference, (a, b), map),
    ensures
        map@.contains((k, v)) <==> (a@.contains((k, v)) && forall|w: V::V| !b@.contains((k, w)))
            || (b@.contains((k, v)) && forall|w: V::V| !a@.contains((k, w))),
{
    assert(relates(b@, k) <==> exists|w: V::V| b@.contains((k, w)));
    assert(relates(a@, k) <==> exists|w: V::V| a@.contains((k, w)));
}

/// A bag that is extended by a list counts the copies that it had and those of the
/// list.
pub proof fn law_bag_extend<S, A: HashKey<S>>(
    bag: &mut GenericBag<A, S>,
    list: Vec<A>,
    element: A::V,
) where usize: HashKey<S>
    requires
        old(bag).wf(),
        old(bag)@.len() + list@.len() <= usize::MAX,
        call_ensures(GenericBag::<A, S>::extend, (bag, list), ()),
    ensures
        final(bag)@.count(element) == old(bag)@.count(element) + list@.filter(
            |a: A| a@ == element,
        ).len(),
{
    broadcast use vstd::multiset::group_multiset_axioms;

    lemma_occurrences(list@, element);
}

/// What a map holds when pairs were put in one by one, each in place of those that
/// stood in its way.
proof fn lemma_repaired_all<M, N>(map: Map<M, N>, pairs: Seq<(M, N)>, key: M)
    ensures
        repaired_all(map, pairs).contains_key(key) ==> (map.contains_key(key) && repaired_all(
            map,
            pairs,
        )[key] == map[key]) || pairs.contains((key, repaired_all(map, pairs)[key])),
    decreases pairs.len(),
{
    if pairs.len() > 0 {
        let front = pairs.drop_last();
        let n = pairs.len() - 1;
        lemma_repaired_all(map, front, key);
        let (before, after) = (repaired_all(map, front), repaired_all(map, pairs));
        if after.contains_key(key) {
            if key == pairs[n].0 {
                assert(pairs[n] == (key, after[key]));
            } else if front.contains((key, before[key])) {
                assert(pairs[front.index_of((key, before[key]))] == (key, after[key]));
            }
        }
    }
}

/// A pair that nothing later stands in the way of stays.
proof fn lemma_repaired_last<M, N>(map: Map<M, N>, pairs: Seq<(M, N)>, i: int)
    requires
        0 <= i < pairs.len(),
        forall|j: int|
            i < j < pairs.len() ==> (#[trigger] pairs[j]).0 != pairs[i].0 && pairs[j].1
                != pairs[i].1,
    ensures
        repaired_all(map, pairs).contains_key(pairs[i].0),
        repaired_all(map, pairs)[pairs[i].0] == pairs[i].1,
    decreases pairs.len(),
{
    let front = pairs.drop_last();
    let n = pairs.len() - 1;
    if i < n {
        assert(pairs[n].0 != pairs[i].0);
        assert forall|j: int| i < j < front.len() implies (#[trigger] front[j]).0 != front[i].0
            && front[j].1 != front[i].1 by {
            assert(pairs[j].0 != pairs[i].0);
        }
        lemma_repaired_last(map, front, i);
    }
}

/// A bijection of a list of pairs holds pairs of the list only, and every pair of it
/// whose key and whose value no later pair has.
pub proof fn law_bimap_of_list<S: Default, K: HashKey<S>, V: HashKey<S>>(
    list: Vec<(K, V)>,
    map: GenericBiMap<K, V, S>,
    i: int,
    key: K::V,
)
    requires
        call_ensures(GenericBiMap::<K, V, S>::from_vec, (list,), map),
    ensures
        map@.contains_key(key) ==> exists|j: int|
            0 <= j < list@.len() && (#[trigger] list@[j]).0@ == key && list@[j].1@ == map@[key],
        0 <= i < list@.len() && (forall|j: int|
            i < j < list@.len() ==> (#[trigger] list@[j]).0@ != list@[i].0@ && list@[j].1@
                != list@[i].1@) ==> map@.contains_key(list@[i].0@) && map@[list@[i].0@]
            == list@[i].1@,
{
    let pairs = pair_names(list@);
    lemma_repaired_all(Map::empty(), pairs, key);
    if map@.contains_key(key) {
        let j = pairs.index_of((key, map@[key]));
        assert(pairs[j] == (key, map@[key]));
        assert(list@[j].0@ == key);
    }
    if 0 <= i < list@.len() && (forall|j: int|
        i < j < list@.len() ==> (#[trigger] list@[j]).0@ != list@[i].0@ && list@[j].1@
            != list@[i].1@) {
        assert forall|j: int| i < j < pairs.len() implies (#[trigger] pairs[j]).0 != pairs[i].0
            && pairs[j].1 != pairs[i].1 by {
            assert(list@[j].0@ != list@[i].0@);
        }
        lemma_repaired_last(Map::empty(), pairs, i);
    }
}

/// A multimap of a list of pairs holds just the pairs of the list.
pub proof fn law_multimap_of_list<S: HashState + Default, K: HashKey<S>, V: HashKey<S>>(
    list: Vec<(K, V)>,
    map: GenericHashMultiMap<K, V, S>,
    k: K::V,
    v: V::V,
)
    requires
        call_ensures(GenericHashMultiMap::<K, V, S>::from_vec, (list,), map),
    ensures
        map@.contains((k, v)) <==> exists|j: int|
            0 <= j < list@.len() && (#[trigger] list@[j]).0@ == k && list@[j].1@ == v,
{
    let pairs = pair_names(list@);
    if pairs.contains((k, v)) {
        let j = pairs.index_of((k, v));
        assert(pairs[j] == (k, v));
        assert(list@[j].0@ == k);
    }
    if exists|j: int| 0 <= j < list@.len() && (#[trigger] list@[j]).0@ == k && list@[j].1@ == v {
        let j = choose|j: int|
            0 <= j < list@.len() && (#[trigger] list@[j]).0@ == k && list@[j].1@ == v;
        assert(pairs[j] == (k, v));
    }
}

} // verus!
