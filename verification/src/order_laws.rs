//! Laws on calls of collections in order of insertion: what a call says of the
//! entries that it was given, place by place.
use crate::hash_key::HashKey;
use crate::insertion_order_map::GenericInsertionOrderMap;
use crate::insertion_order_map::{chosen, entries_of, has_key, place, put, put_all};
use crate::insertion_order_set::{added_all, kept, GenericInsertionOrderSet};
use vstd::prelude::*;
use vstd::std_specs::cmp::PartialEqSpec;

verus! {

/// Maps in order of insertion test as equal just where they have as many entries,
/// and at each place the same key with values that are equal by `==`. So a map
/// that holds another value for one key, or the same entries in another order,
/// tests as different.
pub proof fn law_order_test_eq<S, K: HashKey<S>, V: PartialEq>(
    a: &GenericInsertionOrderMap<K, V, S>,
    b: &GenericInsertionOrderMap<K, V, S>,
    equal: bool,
)
    requires
        a.wf(),
        b.wf(),
        V::obeys_eq_spec(),
        call_ensures(GenericInsertionOrderMap::<K, V, S>::test_eq, (a, b), equal),
    ensures
        equal ==> a@.len() == b@.len(),
        equal ==> forall|i: int|
            0 <= i < a@.len() ==> (#[trigger] a@[i]).0 == b@[i].0 && a@[i].1.eq_spec(&b@[i].1),
        !equal && a@.len() == b@.len() ==> exists|i: int|
            0 <= i < a@.len() && ((#[trigger] a@[i]).0 != b@[i].0 || !a@[i].1.eq_spec(&b@[i].1)),
{
}

/// Maps in order of insertion that test as equal answer alike: what one gives for
/// a key the other gives too, with a value that is equal by `==`.
pub proof fn law_order_equal_answers<S, K: HashKey<S>, V: PartialEq>(
    a: &GenericInsertionOrderMap<K, V, S>,
    b: &GenericInsertionOrderMap<K, V, S>,
    key: &K,
    from_a: Option<&V>,
    from_b: Option<&V>,
)
    requires
        a.wf(),
        b.wf(),
        V::obeys_eq_spec(),
        call_ensures(GenericInsertionOrderMap::<K, V, S>::test_eq, (a, b), true),
        call_ensures(GenericInsertionOrderMap::<K, V, S>::get, (a, key), from_a),
        call_ensures(GenericInsertionOrderMap::<K, V, S>::get, (b, key), from_b),
    ensures
        match (from_a, from_b) {
            (Some(x), Some(y)) => (*x).eq_spec(y),
            (None, None) => true,
            _ => false,
        },
{
    a.law_keys_differ();
    b.law_keys_differ();
    law_order_test_eq(a, b, true);
    if from_a is Some {
        let i = place(a@, key@);
        assert(a@[i].0 == key@ && b@[i].0 == key@);
        let j = place(b@, key@);
        if i < j {
            assert(b@[i].0 != b@[j].0);
        } else if j < i {
            assert(b@[j].0 != b@[i].0);
        }
    } else if from_b is Some {
        let j = place(b@, key@);
        assert(a@[j].0 == b@[j].0);
    }
}

/// What was looked up stands in the map: a value that is given for a key is that of
/// an entry with the key, and where nothing is given there is no such entry.
pub proof fn law_order_get<S, K: HashKey<S>, V>(
    map: &GenericInsertionOrderMap<K, V, S>,
    key: &K,
    value: Option<&V>,
)
    requires
        map.wf(),
        call_ensures(GenericInsertionOrderMap::<K, V, S>::get, (map, key), value),
    ensures
        value matches Some(v) ==> exists|i: int|
            0 <= i < map@.len() && #[trigger] map@[i] == (key@, *v),
        value is None ==> forall|i: int| 0 <= i < map@.len() ==> (#[trigger] map@[i]).0 != key@,
{
    if let Some(v) = value {
        let i = place(map@, key@);
        assert(map@[i] == (key@, *v));
    }
}

/// What was put in can be looked up, and nothing else changes: an insertion gives
/// the key its value, in the place where the key was or at the end, and leaves
/// every other entry with its value and its order.
pub proof fn law_order_insert<S, K: HashKey<S>, V: Clone>(
    map: &mut GenericInsertionOrderMap<K, V, S>,
    key: K,
    value: V,
    replaced: Option<V>,
)
    requires
        old(map).wf(),
        call_ensures(GenericInsertionOrderMap::<K, V, S>::insert, (map, key, value), replaced),
    ensures
        replaced is Some ==> final(map)@.len() == old(map)@.len(),
        replaced is None ==> final(map)@.len() == old(map)@.len() + 1,
        replaced is None ==> final(map)@.last() == (key@, value),
        replaced is Some ==> exists|i: int|
            0 <= i < old(map)@.len() && (#[trigger] old(map)@[i]).0 == key@ && final(map)@[i] == (
                key@,
                value,
            ) && cloned(old(map)@[i].1, replaced->0),
        forall|i: int|
            0 <= i < old(map)@.len() && (#[trigger] old(map)@[i]).0 != key@ ==> final(map)@[i]
                == old(map)@[i],
{
    if replaced is Some {
        let i = place(old(map)@, key@);
        assert(old(map)@[i].0 == key@);
    }
}

/// A removal takes out the entry of the key and no other, and keeps the order of
/// those that stay.
pub proof fn law_order_remove<S, K: HashKey<S>, V: Clone>(
    map: &mut GenericInsertionOrderMap<K, V, S>,
    key: &K,
    removed: Option<V>,
)
    requires
        old(map).wf(),
        call_ensures(GenericInsertionOrderMap::<K, V, S>::remove, (map, key), removed),
    ensures
        forall|i: int| 0 <= i < final(map)@.len() ==> (#[trigger] final(map)@[i]).0 != key@,
        removed is None ==> final(map)@ == old(map)@,
        removed is Some ==> exists|i: int|
            0 <= i < old(map)@.len() && (#[trigger] old(map)@[i]).0 == key@ && cloned(
                old(map)@[i].1,
                removed->0,
            ) && final(map)@ == old(map)@.take(i) + old(map)@.skip(i + 1),
{
    old(map).law_keys_differ();
    let list = old(map)@;
    if removed is Some {
        let at = place(list, key@);
        assert(list[at].0 == key@);
        assert(final(map)@ =~= list.take(at) + list.skip(at + 1));
        assert forall|i: int| 0 <= i < final(map)@.len() implies (#[trigger] final(map)@[i]).0
            != key@ by {
            if i < at {
                assert(list[i].0 != list[at].0);
            } else {
                assert(list[at].0 != list[i + 1].0);
            }
        }
    }
}

/// Whether items of a list stand in the order of the list.
pub open spec fn ordered_part<T>(part: Seq<T>, list: Seq<T>) -> bool {
    forall|i: int, j: int|
        #![trigger part[i], part[j]]
        0 <= i < j < part.len() ==> exists|k: int, l: int|
            0 <= k < l < list.len() && #[trigger] list[k] == part[i] && #[trigger] list[l]
                == part[j]
}

/// What stays of a list by a test: the items that pass, in their order.
pub(crate) proof fn lemma_filtered<T>(list: Seq<T>, test: spec_fn(T) -> bool)
    ensures
        forall|i: int|
            0 <= i < list.filter(test).len() ==> list.contains(#[trigger] list.filter(test)[i])
                && test(list.filter(test)[i]),
        forall|i: int|
            0 <= i < list.len() && test(#[trigger] list[i]) ==> list.filter(test).contains(list[i]),
        ordered_part(list.filter(test), list),
    decreases list.len(),
{
    reveal(Seq::filter);
    if list.len() > 0 {
        let front = list.drop_last();
        let n = list.len() - 1;
        lemma_filtered(front, test);
        let (few, all) = (front.filter(test), list.filter(test));
        assert forall|i: int| 0 <= i < few.len() implies #[trigger] all[i] == few[i] by {}
        assert forall|i: int| 0 <= i < all.len() implies list.contains(#[trigger] all[i]) && test(
            all[i],
        ) by {
            if i < few.len() {
                assert(front.contains(few[i]));
                let k = front.index_of(few[i]);
                assert(list[k] == all[i]);
            } else {
                assert(list[n] == all[i]);
            }
        }
        assert forall|i: int| 0 <= i < list.len() && test(#[trigger] list[i]) implies all.contains(
            list[i],
        ) by {
            if i < n {
                assert(few.contains(front[i]));
                let k = few.index_of(front[i]);
                assert(all[k] == list[i]);
            } else {
                assert(all[few.len() as int] == list[n]);
            }
        }
        assert forall|i: int, j: int|
            #![trigger all[i], all[j]]
            0 <= i < j < all.len() implies exists|k: int, l: int|
            0 <= k < l < list.len() && #[trigger] list[k] == all[i] && #[trigger] list[l]
                == all[j] by {
            if j < few.len() {
                let (k, l) = choose|k: int, l: int|
                    0 <= k < l < front.len() && #[trigger] front[k] == few[i]
                        && #[trigger] front[l] == few[j];
                assert(list[k] == all[i] && list[l] == all[j]);
            } else {
                assert(front.contains(few[i]));
                let k = front.index_of(few[i]);
                assert(list[k] == all[i] && list[n] == all[j]);
            }
        }
    }
}

/// What stays of a list when the entries of some keys go.
proof fn lemma_chosen<M, V, W>(list: Seq<(M, V)>, other: Seq<(M, W)>, wanted: bool)
    ensures
        forall|i: int|
            0 <= i < chosen(list, other, wanted).len() ==> list.contains(
                #[trigger] chosen(list, other, wanted)[i],
            ) && has_key(other, chosen(list, other, wanted)[i].0) == wanted,
        forall|i: int|
            0 <= i < list.len() && has_key(other, (#[trigger] list[i]).0) == wanted ==> chosen(
                list,
                other,
                wanted,
            ).contains(list[i]),
        ordered_part(chosen(list, other, wanted), list),
{
    let test = |entry: (M, V)| has_key(other, entry.0) == wanted;
    let kept = chosen(list, other, wanted);
    lemma_filtered(list, test);
    assert(kept == list.filter(test));
    assert forall|i: int|
        0 <= i < list.len() && has_key(other, (#[trigger] list[i]).0) == wanted implies kept.contains(
        list[i],
    ) by {
        assert(test(list[i]));
    }
}

/// A difference holds the entries of the first map whose keys the second has not,
/// in their order, and nothing else.
pub proof fn law_order_difference<S: Default, K: HashKey<S>, V>(
    a: GenericInsertionOrderMap<K, V, S>,
    b: &GenericInsertionOrderMap<K, V, S>,
    map: GenericInsertionOrderMap<K, V, S>,
)
    requires
        a.wf(),
        b.wf(),
        call_ensures(GenericInsertionOrderMap::<K, V, S>::difference, (a, b), map),
    ensures
        ordered_part(map@, a@),
        forall|i: int|
            0 <= i < map@.len() ==> a@.contains(#[trigger] map@[i]) && forall|j: int|
                0 <= j < b@.len() ==> (#[trigger] b@[j]).0 != map@[i].0,
        forall|i: int|
            0 <= i < a@.len() && (forall|j: int|
                0 <= j < b@.len() ==> (#[trigger] b@[j]).0 != a@[i].0) ==> map@.contains(
                #[trigger] a@[i],
            ),
{
    lemma_chosen(a@, b@, false);
    assert forall|i: int| 0 <= i < map@.len() implies a@.contains(#[trigger] map@[i]) && forall|
        j: int,
    |
        0 <= j < b@.len() ==> (#[trigger] b@[j]).0 != map@[i].0 by {
        assert(!has_key(b@, map@[i].0));
    }
    assert forall|i: int|
        0 <= i < a@.len() && (forall|j: int|
            0 <= j < b@.len() ==> (#[trigger] b@[j]).0 != a@[i].0) implies map@.contains(
        #[trigger] a@[i],
    ) by {
        assert(!has_key(b@, a@[i].0));
    }
}

/// An intersection holds the entries of the first map whose keys the second has
/// too, in their order, and nothing else.
pub proof fn law_order_intersection<S: Default, K: HashKey<S>, V>(
    a: GenericInsertionOrderMap<K, V, S>,
    b: &GenericInsertionOrderMap<K, V, S>,
    map: GenericInsertionOrderMap<K, V, S>,
)
    requires
        a.wf(),
        b.wf(),
        call_ensures(GenericInsertionOrderMap::<K, V, S>::intersection, (a, b), map),
    ensures
        ordered_part(map@, a@),
        forall|i: int|
            0 <= i < map@.len() ==> a@.contains(#[trigger] map@[i]) && (exists|j: int|
                0 <= j < b@.len() && (#[trigger] b@[j]).0 == map@[i].0),
        forall|i: int, j: int|
            0 <= i < a@.len() && 0 <= j < b@.len() && (#[trigger] b@[j]).0 == (
            #[trigger] a@[i]).0 ==> map@.contains(a@[i]),
{
    lemma_chosen(a@, b@, true);
    assert forall|i: int| 0 <= i < map@.len() implies a@.contains(#[trigger] map@[i]) && (exists|
        j: int,
    |
        0 <= j < b@.len() && (#[trigger] b@[j]).0 == map@[i].0) by {
        assert(has_key(b@, map@[i].0));
        let j = place(b@, map@[i].0);
        assert(b@[j].0 == map@[i].0);
    }
    assert forall|i: int, j: int|
        0 <= i < a@.len() && 0 <= j < b@.len() && (#[trigger] b@[j]).0 == (
        #[trigger] a@[i]).0 implies map@.contains(a@[i]) by {
        assert(has_key(b@, a@[i].0));
    }
}

/// What a list holds with others put in: the places of the first list stay, with
/// their keys, and every entry comes from one of the lists.
proof fn lemma_put_all<M, V>(list: Seq<(M, V)>, more: Seq<(M, V)>)
    ensures
        put_all(list, more).len() >= list.len(),
        forall|i: int|
            0 <= i < list.len() ==> (#[trigger] put_all(list, more)[i]).0 == list[i].0,
        forall|i: int|
            0 <= i < list.len() && !has_key(more, (#[trigger] list[i]).0) ==> put_all(list, more)[i]
                == list[i],
        forall|i: int|
            0 <= i < put_all(list, more).len() ==> list.contains(
                #[trigger] put_all(list, more)[i],
            ) || more.contains(put_all(list, more)[i]),
        forall|i: int|
            0 <= i < more.len() ==> has_key(put_all(list, more), (#[trigger] more[i]).0),
    decreases more.len(),
{
    if more.len() > 0 {
        let front = more.drop_last();
        let (key, value) = more.last();
        let before = put_all(list, front);
        let after = put_all(list, more);
        let n = more.len() - 1;
        lemma_put_all(list, front);
        if has_key(before, key) {
            assert(before[place(before, key)].0 == key);
        }
        assert(after == put(before, key, value));
        assert forall|i: int| 0 <= i < list.len() && !has_key(more, (#[trigger] list[i]).0) implies
            after[i] == list[i] by {
            assert(more[n].0 != list[i].0);
            if has_key(front, list[i].0) {
                let k = place(front, list[i].0);
                assert(front[k].0 == list[i].0);
                assert(more[k].0 == list[i].0);
            }
            assert(before[i] == list[i]);
        }
        assert forall|i: int| 0 <= i < after.len() implies list.contains(#[trigger] after[i])
            || more.contains(after[i]) by {
            if after[i] == (key, value) {
                assert(more[n] == after[i]);
            } else {
                assert(after[i] == before[i]);
                if front.contains(before[i]) {
                    let k = front.index_of(before[i]);
                    assert(more[k] == before[i]);
                }
            }
        }
        assert forall|i: int| 0 <= i < more.len() implies has_key(after, (#[trigger] more[i]).0) by {
            if i < n {
                assert(front[i] == more[i]);
                let k = place(before, front[i].0);
                assert(has_key(before, front[i].0));
                assert(after[k].0 == more[i].0);
            } else if has_key(before, key) {
                assert(after[place(before, key)].0 == key);
            } else {
                assert(after[before.len() as int].0 == key);
            }
        }
    }
}

/// A union keeps the places of the first map and has the keys of both: entries of
/// the first map whose keys the second has not stay as they are, every entry of
/// the second map is there with its own value, and nothing else is.
pub proof fn law_order_union<S, K: HashKey<S>, V>(
    a: GenericInsertionOrderMap<K, V, S>,
    b: GenericInsertionOrderMap<K, V, S>,
    map: GenericInsertionOrderMap<K, V, S>,
)
    requires
        a.wf(),
        b.wf(),
        a.issued() + b@.len() <= usize::MAX,
        call_ensures(GenericInsertionOrderMap::<K, V, S>::union, (a, b), map),
    ensures
        map@.len() >= a@.len(),
        forall|i: int| 0 <= i < a@.len() ==> (#[trigger] map@[i]).0 == a@[i].0,
        forall|i: int|
            0 <= i < a@.len() && (forall|j: int|
                0 <= j < b@.len() ==> (#[trigger] b@[j]).0 != a@[i].0) ==> #[trigger] map@[i]
                == a@[i],
        forall|i: int| 0 <= i < b@.len() ==> map@.contains(#[trigger] b@[i]),
        forall|i: int|
            0 <= i < map@.len() ==> a@.contains(#[trigger] map@[i]) || b@.contains(map@[i]),
{
    lemma_put_all(a@, b@);
    b.law_keys_differ();
    assert forall|i: int|
        0 <= i < a@.len() && (forall|j: int|
            0 <= j < b@.len() ==> (#[trigger] b@[j]).0 != a@[i].0) implies #[trigger] map@[i]
        == a@[i] by {
        assert(!has_key(b@, a@[i].0));
    }
    assert forall|i: int| 0 <= i < b@.len() implies map@.contains(#[trigger] b@[i]) by {
        lemma_put_one(a@, b@, i);
    }
}

/// Of lists whose keys differ, every entry that is put in stays.
proof fn lemma_put_one<M, V>(list: Seq<(M, V)>, more: Seq<(M, V)>, i: int)
    requires
        0 <= i < more.len(),
        forall|j: int| i < j < more.len() ==> (#[trigger] more[j]).0 != more[i].0,
    ensures
        put_all(list, more).contains(more[i]),
    decreases more.len(),
{
    let front = more.drop_last();
    let n = more.len() - 1;
    let before = put_all(list, front);
    let (key, value) = more.last();
    let after = put(before, key, value);
    if i < n {
        assert forall|j: int| i < j < front.len() implies (#[trigger] front[j]).0 != front[i].0 by {
            assert(more[j].0 != more[i].0);
        }
        lemma_put_one(list, front, i);
        let k = before.index_of(front[i]);
        assert(more[n].0 != more[i].0);
        if has_key(before, key) {
            assert(before[place(before, key)].0 == key);
        }
        assert(after[k] == more[i]);
    } else if has_key(before, key) {
        assert(before[place(before, key)].0 == key);
        assert(after[place(before, key)] == more[i]);
    } else {
        assert(after[before.len() as int] == more[i]);
    }
}

/// Sets in order of insertion test as equal just where they have as many elements,
/// and the same one at each place.
pub proof fn law_order_set_test_eq<S, A: HashKey<S>>(
    a: &GenericInsertionOrderSet<A, S>,
    b: &GenericInsertionOrderSet<A, S>,
    equal: bool,
)
    requires
        a.wf(),
        b.wf(),
        call_ensures(GenericInsertionOrderSet::<A, S>::test_eq, (a, b), equal),
    ensures
        equal <==> a@.len() == b@.len() && forall|i: int|
            0 <= i < a@.len() ==> #[trigger] a@[i] == b@[i],
{
    if a@.len() == b@.len() && forall|i: int| 0 <= i < a@.len() ==> #[trigger] a@[i] == b@[i] {
        assert(a@ =~= b@);
    }
}

/// An insertion into a set in order of insertion leaves the elements where they
/// are, and puts a new one at the end.
pub proof fn law_order_set_insert<S, A: HashKey<S>>(
    set: &mut GenericInsertionOrderSet<A, S>,
    element: A,
    inserted: bool,
)
    requires
        old(set).wf(),
        call_ensures(GenericInsertionOrderSet::<A, S>::insert, (set, element), inserted),
    ensures
        final(set)@.contains(element@),
        inserted <==> !old(set)@.contains(element@),
        forall|i: int| 0 <= i < old(set)@.len() ==> #[trigger] final(set)@[i] == old(set)@[i],
        final(set)@.len() == old(set)@.len() + if inserted {
            1int
        } else {
            0int
        },
{
    if inserted {
        assert(final(set)@[old(set)@.len() as int] == element@);
    }
}

/// A removal from a set in order of insertion takes out the element and no other,
/// and keeps the order of those that stay.
pub proof fn law_order_set_remove<S, A: HashKey<S>>(
    set: &mut GenericInsertionOrderSet<A, S>,
    element: &A,
    removed: bool,
)
    requires
        old(set).wf(),
        call_ensures(GenericInsertionOrderSet::<A, S>::remove, (set, element), removed),
    ensures
        !final(set)@.contains(element@),
        removed <==> old(set)@.contains(element@),
        !removed ==> final(set)@ == old(set)@,
        removed ==> exists|i: int|
            0 <= i < old(set)@.len() && #[trigger] old(set)@[i] == element@ && final(set)@
                == old(set)@.take(i) + old(set)@.skip(i + 1),
{
    old(set).law_elements_differ();
    if removed {
        let i = old(set)@.index_of(element@);
        assert(old(set)@[i] == element@);
        assert(final(set)@ =~= old(set)@.take(i) + old(set)@.skip(i + 1));
    }
}

/// What is changed in place is the value of the key and nothing else.
pub proof fn law_order_get_mut<'a, S, K: HashKey<S>, V: Clone>(
    map: &'a mut GenericInsertionOrderMap<K, V, S>,
    key: &K,
    value: &'a mut V,
    i: int,
)
    requires
        old(map).wf(),
        call_ensures(
            GenericInsertionOrderMap::<K, V, S>::get_mut,
            (map, key),
            Some(value),
        ),
        0 <= i < old(map)@.len(),
    ensures
        final(map)@.len() == old(map)@.len(),
        old(map)@[i].0 != key@ ==> final(map)@[i] == old(map)@[i],
        old(map)@[i].0 == key@ ==> final(map)@[i] == (key@, *final(value)) && cloned(
            old(map)@[i].1,
            *old(value),
        ),
{
    old(map).law_keys_differ();
    let at = place(old(map)@, key@);
    assert(old(map)@[at].0 == key@);
    if i < at {
        assert(old(map)@[i].0 != old(map)@[at].0);
    } else if at < i {
        assert(old(map)@[at].0 != old(map)@[i].0);
    }
}

/// A key is said to be there just where an entry has it.
pub proof fn law_order_contains_key<S, K: HashKey<S>, V>(
    map: &GenericInsertionOrderMap<K, V, S>,
    key: &K,
    found: bool,
)
    requires
        map.wf(),
        call_ensures(GenericInsertionOrderMap::<K, V, S>::contains_key, (map, key), found),
    ensures
        found <==> exists|i: int| 0 <= i < map@.len() && (#[trigger] map@[i]).0 == key@,
{
}

/// A symmetric difference holds the entries of the first map whose keys the second
/// has not, then those of the second whose keys the first has not, each in their
/// order.
pub proof fn law_order_symmetric_difference<S: Default, K: HashKey<S>, V>(
    a: GenericInsertionOrderMap<K, V, S>,
    b: &GenericInsertionOrderMap<K, V, S>,
    map: GenericInsertionOrderMap<K, V, S>,
) -> (n: int)
    requires
        a.wf(),
        b.wf(),
        a@.len() + b@.len() <= usize::MAX,
        call_ensures(GenericInsertionOrderMap::<K, V, S>::symmetric_difference, (a, b), map),
    ensures
        0 <= n <= map@.len(),
        ordered_part(map@.take(n), a@),
        ordered_part(map@.skip(n), b@),
        forall|i: int|
            0 <= i < n ==> a@.contains(#[trigger] map@[i]) && forall|j: int|
                0 <= j < b@.len() ==> (#[trigger] b@[j]).0 != map@[i].0,
        forall|i: int|
            n <= i < map@.len() ==> b@.contains(#[trigger] map@[i]) && forall|j: int|
                0 <= j < a@.len() ==> (#[trigger] a@[j]).0 != map@[i].0,
        forall|i: int|
            0 <= i < a@.len() && (forall|j: int|
                0 <= j < b@.len() ==> (#[trigger] b@[j]).0 != a@[i].0) ==> map@.contains(
                #[trigger] a@[i],
            ),
        forall|i: int|
            0 <= i < b@.len() && (forall|j: int|
                0 <= j < a@.len() ==> (#[trigger] a@[j]).0 != b@[i].0) ==> map@.contains(
                #[trigger] b@[i],
            ),
{
    let (x, y) = (chosen(a@, b@, false), chosen(b@, a@, false));
    let n = x.len() as int;
    lemma_chosen(a@, b@, false);
    lemma_chosen(b@, a@, false);
    assert(map@.take(n) =~= x);
    assert(map@.skip(n) =~= y);
    assert forall|i: int| 0 <= i < n implies a@.contains(#[trigger] map@[i]) && forall|j: int|
        0 <= j < b@.len() ==> (#[trigger] b@[j]).0 != map@[i].0 by {
        assert(map@[i] == x[i]);
        assert(!has_key(b@, x[i].0));
    }
    assert forall|i: int| n <= i < map@.len() implies b@.contains(#[trigger] map@[i]) && forall|
        j: int,
    |
        0 <= j < a@.len() ==> (#[trigger] a@[j]).0 != map@[i].0 by {
        assert(map@[i] == y[i - n]);
        assert(!has_key(a@, y[i - n].0));
    }
    assert forall|i: int|
        0 <= i < a@.len() && (forall|j: int|
            0 <= j < b@.len() ==> (#[trigger] b@[j]).0 != a@[i].0) implies map@.contains(
        #[trigger] a@[i],
    ) by {
        assert(!has_key(b@, a@[i].0));
        let k = x.index_of(a@[i]);
        assert(map@[k] == a@[i]);
    }
    assert forall|i: int|
        0 <= i < b@.len() && (forall|j: int|
            0 <= j < a@.len() ==> (#[trigger] a@[j]).0 != b@[i].0) implies map@.contains(
        #[trigger] b@[i],
    ) by {
        assert(!has_key(a@, b@[i].0));
        let k = y.index_of(b@[i]);
        assert(map@[n + k] == b@[i]);
    }
    n
}

/// A map of a list of entries has every key of the list, no other, and the value of
/// the last entry with the key.
pub proof fn law_order_of_list<S: Default, K: HashKey<S>, V>(
    list: Vec<(K, V)>,
    map: GenericInsertionOrderMap<K, V, S>,
    i: int,
)
    requires
        call_ensures(GenericInsertionOrderMap::<K, V, S>::from_vec, (list,), map),
        0 <= i < list@.len(),
    ensures
        exists|k: int| 0 <= k < map@.len() && (#[trigger] map@[k]).0 == list@[i].0@,
        (forall|j: int| i < j < list@.len() ==> (#[trigger] list@[j]).0@ != list@[i].0@)
            ==> map@.contains((list@[i].0@, list@[i].1)),
        forall|k: int|
            0 <= k < map@.len() ==> exists|j: int|
                0 <= j < list@.len() && (#[trigger] list@[j]).0@ == (#[trigger] map@[k]).0
                    && list@[j].1 == map@[k].1,
{
    let more = entries_of(list@);
    let none = Seq::<(K::V, V)>::empty();
    lemma_put_all(none, more);
    assert(more[i] == (list@[i].0@, list@[i].1));
    assert(has_key(map@, more[i].0));
    let at = place(map@, more[i].0);
    assert(map@[at].0 == list@[i].0@);
    if forall|j: int| i < j < list@.len() ==> (#[trigger] list@[j]).0@ != list@[i].0@ {
        assert forall|j: int| i < j < more.len() implies (#[trigger] more[j]).0 != more[i].0 by {
            assert(list@[j].0@ != list@[i].0@);
        }
        lemma_put_one(none, more, i);
    }
    assert forall|k: int| 0 <= k < map@.len() implies exists|j: int|
        0 <= j < list@.len() && (#[trigger] list@[j]).0@ == (#[trigger] map@[k]).0 && list@[j].1
            == map@[k].1 by {
        assert(more.contains(map@[k]));
        let j = more.index_of(map@[k]);
        assert(list@[j].0@ == map@[k].0);
    }
}

/// What stays of a list of elements by another list.
proof fn lemma_kept<M>(list: Seq<M>, other: Seq<M>, wanted: bool)
    ensures
        ordered_part(kept(list, other, wanted), list),
        forall|e: M| #[trigger]
            kept(list, other, wanted).contains(e) <==> list.contains(e) && other.contains(e)
                == wanted,
{
    let test = |element: M| other.contains(element) == wanted;
    lemma_filtered(list, test);
    let part = kept(list, other, wanted);
    assert(part == list.filter(test));
    assert forall|e: M| #[trigger] part.contains(e) <==> list.contains(e) && other.contains(e)
        == wanted by {
        if part.contains(e) {
            let i = part.index_of(e);
            assert(test(part[i]));
        }
        if list.contains(e) && other.contains(e) == wanted {
            let i = list.index_of(e);
            assert(test(list[i]));
        }
    }
}

/// A difference, an intersection and a symmetric difference of sets in order of
/// insertion have the elements that they should, in their order.
pub proof fn law_order_set_parts<S: Default, A: HashKey<S>>(
    a: GenericInsertionOrderSet<A, S>,
    b: GenericInsertionOrderSet<A, S>,
    rest: GenericInsertionOrderSet<A, S>,
    common: GenericInsertionOrderSet<A, S>,
    parted: GenericInsertionOrderSet<A, S>,
    e: A::V,
)
    requires
        a.wf(),
        b.wf(),
        a@.len() + b@.len() <= usize::MAX,
        call_ensures(GenericInsertionOrderSet::<A, S>::difference, (a, &b), rest),
        call_ensures(GenericInsertionOrderSet::<A, S>::intersection, (a, &b), common),
        call_ensures(GenericInsertionOrderSet::<A, S>::symmetric_difference, (a, b), parted),
    ensures
        rest@.contains(e) <==> a@.contains(e) && !b@.contains(e),
        common@.contains(e) <==> a@.contains(e) && b@.contains(e),
        parted@.contains(e) <==> a@.contains(e) != b@.contains(e),
        ordered_part(rest@, a@),
        ordered_part(common@, a@),
        parted@.take(rest@.len() as int) == rest@,
        ordered_part(parted@.skip(rest@.len() as int), b@),
{
    lemma_kept(a@, b@, false);
    lemma_kept(a@, b@, true);
    lemma_kept(b@, a@, false);
    let (x, y) = (kept(a@, b@, false), kept(b@, a@, false));
    assert(parted@.take(x.len() as int) =~= x);
    assert(parted@.skip(x.len() as int) =~= y);
    if x.contains(e) {
        assert(parted@[x.index_of(e)] == e);
    }
    if y.contains(e) {
        assert(parted@[x.len() + y.index_of(e)] == e);
    }
    if parted@.contains(e) {
        let i = parted@.index_of(e);
        if i < x.len() {
            assert(x[i] == e);
        } else {
            assert(y[i - x.len()] == e);
        }
    }
}

/// What a list holds with elements added one by one.
proof fn lemma_added_all<M>(list: Seq<M>, more: Seq<M>)
    ensures
        added_all(list, more).len() >= list.len(),
        forall|i: int| 0 <= i < list.len() ==> #[trigger] added_all(list, more)[i] == list[i],
        forall|e: M| #[trigger]
            added_all(list, more).contains(e) <==> list.contains(e) || more.contains(e),
    decreases more.len(),
{
    if more.len() > 0 {
        let front = more.drop_last();
        let n = more.len() - 1;
        lemma_added_all(list, front);
        let (before, after) = (added_all(list, front), added_all(list, more));
        assert forall|e: M| #[trigger] after.contains(e) <==> list.contains(e) || more.contains(
            e,
        ) by {
            assert(before.contains(e) == (list.contains(e) || front.contains(e)));
            if front.contains(e) {
                assert(more[front.index_of(e)] == e);
            }
            if more.contains(e) {
                let i = more.index_of(e);
                if i < n {
                    assert(front[i] == e);
                }
            }
            if after.contains(e) {
                let i = after.index_of(e);
                if i < before.len() {
                    assert(before[i] == e);
                } else {
                    assert(more[n] == e);
                }
            }
            if before.contains(e) {
                assert(after[before.index_of(e)] == e);
            }
            if e == more[n] && !before.contains(e) {
                assert(after[before.len() as int] == e);
            }
        }
    }
}

/// A union of sets in order of insertion has the elements of the first in their
/// places, then the others of the second.
pub proof fn law_order_set_union<S, A: HashKey<S>>(
    a: GenericInsertionOrderSet<A, S>,
    b: GenericInsertionOrderSet<A, S>,
    set: GenericInsertionOrderSet<A, S>,
    e: A::V,
)
    requires
        a.wf(),
        b.wf(),
        a.issued() + b@.len() <= usize::MAX,
        call_ensures(GenericInsertionOrderSet::<A, S>::union, (a, b), set),
    ensures
        set@.len() >= a@.len(),
        forall|i: int| 0 <= i < a@.len() ==> #[trigger] set@[i] == a@[i],
        set@.contains(e) <==> a@.contains(e) || b@.contains(e),
{
    lemma_added_all(a@, b@);
}

} // verus!
