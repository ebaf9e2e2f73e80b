//! Laws on calls of operations on maps: what each makes of every key.
use crate::champ::ChampMap;
use crate::diff::{law_map_patch, DiffItem, DiffIter};
use crate::hash_key::{HashKey, HashState};
use crate::hash_map::GenericHashMap;
use crate::hash_map_make::{accepts_both, accepts_entries, fails_first, renamed, succeeds};
use crate::hash_map_ops::accepts;
use crate::hash_map_query::{equivalence, same_entries};
use crate::hash_map_update::{list_map, sizes, union_map};
use crate::random_state::RandomState;
use vstd::prelude::*;
use vstd::std_specs::cmp::PartialEqSpec;

verus! {

/// The difference between two maps, applied to the old one, makes a map with the
/// keys of the new one and values that are equal by `==`, where that is an
/// equivalence and a clone is equal to what it was cloned from.
pub proof fn law_diff_applied<'a, 'b, S: HashState, K: HashKey<S> + Clone, V: PartialEq + Clone>(
    a: &'a GenericHashMap<K, V, S>,
    b: &'b GenericHashMap<K, V, S>,
    iter: DiffIter<'a, 'b, K, V>,
    items: Vec<DiffItem<'a, 'b, K, V>>,
    made: GenericHashMap<K, V, S>,
    key: K::V,
)
    requires
        a.wf(),
        b.wf(),
        forall|k: K, copy: K| #[trigger] cloned(k, copy) ==> copy@ == k@,
        V::obeys_eq_spec(),
        forall|v: V| #[trigger] v.eq_spec(&v),
        forall|v: V, w: V| #[trigger] v.eq_spec(&w) ==> w.eq_spec(&v),
        forall|u: V, v: V, w: V| #[trigger]
            u.eq_spec(&v) && #[trigger] v.eq_spec(&w) ==> u.eq_spec(&w),
        forall|v: V, w: V| #[trigger] cloned(v, w) ==> v.eq_spec(&w),
        a.kv_merkle() is None || b.kv_merkle() is None || a.kv_merkle() != b.kv_merkle(),
        call_ensures(GenericHashMap::<K, V, S>::diff, (a, b), iter),
        call_ensures(DiffIter::<'a, 'b, K, V>::collect, (iter,), items),
        call_ensures(GenericHashMap::<K, V, S>::apply_diff, (a, items), made),
    ensures
        made@.contains_key(key) == b@.contains_key(key),
        b@.contains_key(key) ==> b@[key].eq_spec(&made@[key]),
{
    law_map_patch(items@, a@, b@, made@);
    assert(same_entries(b@, made@));
    assert(b@.dom().contains(key) == made@.dom().contains(key));
}

/// Differences, applied one by one, leave alone the keys that none is about, and
/// of those about a key the last decides: an addition or an update gives the key a
/// clone of its new value, a removal takes the key out.
pub proof fn law_apply_diff<'a, 'b, S: HashState, K: HashKey<S> + Clone, V: Clone>(
    a: &GenericHashMap<K, V, S>,
    items: Vec<DiffItem<'a, 'b, K, V>>,
    made: GenericHashMap<K, V, S>,
    key: K::V,
)
    requires
        a.wf(),
        forall|k: K, copy: K| #[trigger] cloned(k, copy) ==> copy@ == k@,
        call_ensures(GenericHashMap::<K, V, S>::apply_diff, (a, items), made),
    ensures
        (forall|i: int| 0 <= i < items@.len() ==> (#[trigger] items@[i]).key() != key)
            ==> made@.contains_key(key) == a@.contains_key(key) && (a@.contains_key(key)
            ==> made@[key] == a@[key]),
        forall|i: int|
            #![trigger items@[i]]
            0 <= i < items@.len() && items@[i].key() == key && (forall|j: int|
                i < j < items@.len() ==> (#[trigger] items@[j]).key() != key) ==> match items@[i] {
                DiffItem::Add(_, v) => made@.contains_key(key) && cloned(*v, made@[key]),
                DiffItem::Update { new, .. } => made@.contains_key(key) && cloned(
                    *new.1,
                    made@[key],
                ),
                DiffItem::Remove(..) => !made@.contains_key(key),
            },
{
    assert(made@.get(key) == made@.get(key));
}

/// A map of a list of entries holds for each key the value of the last entry with
/// it, and no other key.
pub proof fn law_map_of_list<S: Default, K: HashKey<S>, V: HashKey<S> + Clone>(
    list: Vec<(K, V)>,
    map: GenericHashMap<K, V, S>,
    key: K::V,
)
    requires
        call_ensures(GenericHashMap::<K, V, S>::from_vec, (list,), map),
    ensures
        map@.contains_key(key) <==> exists|i: int|
            0 <= i < list@.len() && (#[trigger] list@[i]).0@ == key,
        forall|i: int|
            #![trigger list@[i]]
            0 <= i < list@.len() && list@[i].0@ == key && (forall|j: int|
                i < j < list@.len() ==> (#[trigger] list@[j]).0@ != key) ==> map@[key]
                == list@[i].1,
{
    lemma_list_map(Map::empty(), list@, key);
    assert forall|i: int|
        #![trigger list@[i]]
        0 <= i < list@.len() && list@[i].0@ == key && (forall|j: int|
            i < j < list@.len() ==> (#[trigger] list@[j]).0@ != key) implies map@[key]
        == list@[i].1 by {
        lemma_listed_last(Map::empty(), list@, i);
    }
}

/// A map that is extended by a list of entries holds for each key of the list the
/// value of the last entry with it, and for every other key what it held before.
pub proof fn law_extend<S, K: HashKey<S>, V: HashKey<S> + Clone>(
    map: &mut GenericHashMap<K, V, S>,
    list: Vec<(K, V)>,
    key: K::V,
)
    requires
        old(map).wf(),
        old(map)@.len() + list@.len() <= usize::MAX,
        call_ensures(GenericHashMap::<K, V, S>::extend, (map, list), ()),
    ensures
        final(map)@.contains_key(key) <==> old(map)@.contains_key(key) || exists|i: int|
            0 <= i < list@.len() && (#[trigger] list@[i]).0@ == key,
        (forall|i: int| 0 <= i < list@.len() ==> (#[trigger] list@[i]).0@ != key) && old(
            map,
        )@.contains_key(key) ==> final(map)@[key] == old(map)@[key],
        forall|i: int|
            #![trigger list@[i]]
            0 <= i < list@.len() && list@[i].0@ == key && (forall|j: int|
                i < j < list@.len() ==> (#[trigger] list@[j]).0@ != key) ==> final(map)@[key]
                == list@[i].1,
{
    lemma_list_map(old(map)@, list@, key);
    assert forall|i: int|
        #![trigger list@[i]]
        0 <= i < list@.len() && list@[i].0@ == key && (forall|j: int|
            i < j < list@.len() ==> (#[trigger] list@[j]).0@ != key) implies final(map)@[key]
        == list@[i].1 by {
        lemma_listed_last(old(map)@, list@, i);
    }
}

/// Where a list of entries has a key last, its value is there.
proof fn lemma_listed_last<K: View, V>(map: Map<K::V, V>, list: Seq<(K, V)>, i: int)
    requires
        0 <= i < list.len(),
        forall|j: int| i < j < list.len() ==> (#[trigger] list[j]).0@ != list[i].0@,
    ensures
        list_map(map, list).contains_key(list[i].0@),
        list_map(map, list)[list[i].0@] == list[i].1,
    decreases list.len(),
{
    let front = list.drop_last();
    let n = list.len() - 1;
    if i < n {
        assert(list[n].0@ != list[i].0@);
        assert forall|j: int| i < j < front.len() implies (#[trigger] front[j]).0@
            != front[i].0@ by {
            assert(list[j].0@ != list[i].0@);
        }
        lemma_listed_last(map, front, i);
    }
}

/// Where a list of entries has not a key, what was there before stays.
proof fn lemma_listed_none<K: View, V>(map: Map<K::V, V>, list: Seq<(K, V)>, key: K::V)
    requires
        forall|i: int| 0 <= i < list.len() ==> (#[trigger] list[i]).0@ != key,
    ensures
        list_map(map, list).contains_key(key) == map.contains_key(key),
        map.contains_key(key) ==> list_map(map, list)[key] == map[key],
    decreases list.len(),
{
    if list.len() > 0 {
        let front = list.drop_last();
        assert(list[list.len() - 1].0@ != key);
        assert forall|i: int| 0 <= i < front.len() implies (#[trigger] front[i]).0@ != key by {
            assert(list[i].0@ != key);
        }
        lemma_listed_none(map, front, key);
    }
}

/// The last place at which a list of entries has a key.
proof fn lemma_last_place<K: View, V>(list: Seq<(K, V)>, i: int) -> (last: int)
    requires
        0 <= i < list.len(),
    ensures
        i <= last < list.len(),
        list[last].0@ == list[i].0@,
        forall|j: int| last < j < list.len() ==> (#[trigger] list[j]).0@ != list[i].0@,
    decreases list.len() - i,
{
    if exists|j: int| i < j < list.len() && (#[trigger] list[j]).0@ == list[i].0@ {
        let j = choose|j: int| i < j < list.len() && (#[trigger] list[j]).0@ == list[i].0@;
        lemma_last_place(list, j)
    } else {
        i
    }
}

/// What a map holds for a key when a list of entries was put in.
proof fn lemma_list_map<K: View, V>(map: Map<K::V, V>, list: Seq<(K, V)>, key: K::V)
    ensures
        list_map(map, list).contains_key(key) <==> map.contains_key(key) || exists|i: int|
            0 <= i < list.len() && (#[trigger] list[i]).0@ == key,
        (forall|i: int| 0 <= i < list.len() ==> (#[trigger] list[i]).0@ != key)
            && map.contains_key(key) ==> list_map(map, list)[key] == map[key],
{
    if exists|i: int| 0 <= i < list.len() && (#[trigger] list[i]).0@ == key {
        let i = choose|i: int| 0 <= i < list.len() && (#[trigger] list[i]).0@ == key;
        let last = lemma_last_place(list, i);
        lemma_listed_last(map, list, last);
    } else {
        lemma_listed_none(map, list, key);
    }
}

/// A union has the keys of both maps, with the value of the first for the keys that
/// both have.
pub proof fn law_union<S, K: HashKey<S>, V>(
    a: GenericHashMap<K, V, S>,
    b: GenericHashMap<K, V, S>,
    map: GenericHashMap<K, V, S>,
    key: K::V,
)
    requires
        a.wf(),
        b.wf(),
        a@.len() + b@.len() <= usize::MAX,
        call_ensures(GenericHashMap::<K, V, S>::union, (a, b), map),
    ensures
        map@.contains_key(key) == (a@.contains_key(key) || b@.contains_key(key)),
        a@.contains_key(key) ==> map@[key] == a@[key],
        b@.contains_key(key) && !a@.contains_key(key) ==> map@[key] == b@[key],
{
}

/// A union of a list of maps has the keys of all of them, with the value of the
/// first map that has the key.
pub proof fn law_unions<S: Default, K: HashKey<S>, V>(
    maps: Vec<GenericHashMap<K, V, S>>,
    map: GenericHashMap<K, V, S>,
    key: K::V,
)
    requires
        forall|i: int| 0 <= i < maps@.len() ==> (#[trigger] maps@[i]).wf(),
        sizes(maps@) <= usize::MAX,
        call_ensures(GenericHashMap::<K, V, S>::unions, (maps,), map),
    ensures
        map@.contains_key(key) <==> exists|i: int|
            0 <= i < maps@.len() && (#[trigger] maps@[i])@.contains_key(key),
        forall|i: int|
            #![trigger maps@[i]]
            0 <= i < maps@.len() && maps@[i]@.contains_key(key) && (forall|j: int|
                0 <= j < i ==> !(#[trigger] maps@[j])@.contains_key(key)) ==> map@[key]
                == maps@[i]@[key],
{
    let views = maps@.map_values(|m: GenericHashMap<K, V, S>| m@);
    if exists|i: int| 0 <= i < maps@.len() && (#[trigger] maps@[i])@.contains_key(key) {
        let i = choose|i: int| 0 <= i < maps@.len() && (#[trigger] maps@[i])@.contains_key(key);
        let first = lemma_first_map(views, i, key);
        lemma_union_first(views, first, key);
    } else {
        assert forall|j: int| 0 <= j < views.len() implies !(#[trigger] views[j]).contains_key(
            key,
        ) by {
            assert(!maps@[j]@.contains_key(key));
        }
        lemma_union_none(views, key);
    }
    assert forall|i: int|
        #![trigger maps@[i]]
        0 <= i < maps@.len() && maps@[i]@.contains_key(key) && (forall|j: int|
            0 <= j < i ==> !(#[trigger] maps@[j])@.contains_key(key)) implies map@[key]
        == maps@[i]@[key] by {
        assert(views[i].contains_key(key));
        assert forall|j: int| 0 <= j < i implies !(#[trigger] views[j]).contains_key(key) by {
            assert(!maps@[j]@.contains_key(key));
        }
        lemma_union_first(views, i, key);
    }
}

/// Where a list of maps has a key first, its value is that of the union.
proof fn lemma_union_first<M, V>(maps: Seq<Map<M, V>>, i: int, key: M)
    requires
        0 <= i < maps.len(),
        maps[i].contains_key(key),
        forall|j: int| 0 <= j < i ==> !(#[trigger] maps[j]).contains_key(key),
    ensures
        union_map(maps).contains_key(key),
        union_map(maps)[key] == maps[i][key],
    decreases maps.len(),
{
    let front = maps.drop_last();
    let n = maps.len() - 1;
    if i < n {
        assert forall|j: int| 0 <= j < i implies !(#[trigger] front[j]).contains_key(key) by {
            assert(!maps[j].contains_key(key));
        }
        lemma_union_first(front, i, key);
    } else {
        assert forall|j: int| 0 <= j < front.len() implies !(#[trigger] front[j]).contains_key(
            key,
        ) by {
            assert(!maps[j].contains_key(key));
        }
        lemma_union_none(front, key);
    }
}

/// A key that no map of a list has is not in the union.
proof fn lemma_union_none<M, V>(maps: Seq<Map<M, V>>, key: M)
    requires
        forall|j: int| 0 <= j < maps.len() ==> !(#[trigger] maps[j]).contains_key(key),
    ensures
        !union_map(maps).contains_key(key),
    decreases maps.len(),
{
    if maps.len() > 0 {
        let front = maps.drop_last();
        assert(!maps[maps.len() - 1].contains_key(key));
        assert forall|j: int| 0 <= j < front.len() implies !(#[trigger] front[j]).contains_key(
            key,
        ) by {
            assert(!maps[j].contains_key(key));
        }
        lemma_union_none(front, key);
    }
}

/// The first place at which a list of maps has a key.
proof fn lemma_first_map<M, V>(maps: Seq<Map<M, V>>, i: int, key: M) -> (first: int)
    requires
        0 <= i < maps.len(),
        maps[i].contains_key(key),
    ensures
        0 <= first <= i,
        maps[first].contains_key(key),
        forall|j: int| 0 <= j < first ==> !(#[trigger] maps[j]).contains_key(key),
    decreases i,
{
    if exists|j: int| 0 <= j < i && (#[trigger] maps[j]).contains_key(key) {
        let j = choose|j: int| 0 <= j < i && (#[trigger] maps[j]).contains_key(key);
        lemma_first_map(maps, j, key)
    } else {
        i
    }
}

/// A union with a function has the keys of both maps: a key of one map only keeps
/// its value, and for a key of both the function makes the value of the key and
/// clones of the two values, that of the first map first.
pub proof fn law_union_with_key<S, K: HashKey<S>, V: Clone, F: Fn(&K, V, V) -> V>(
    a: GenericHashMap<K, V, S>,
    b: GenericHashMap<K, V, S>,
    f: F,
    map: GenericHashMap<K, V, S>,
    key: K::V,
)
    requires
        a.wf(),
        b.wf(),
        a@.len() + b@.len() <= usize::MAX,
        forall|key: K::V| #[trigger]
            a@.contains_key(key) && b@.contains_key(key) ==> accepts(f, key, a@[key], b@[key]),
        call_ensures(GenericHashMap::<K, V, S>::union_with_key::<F>, (a, b, f), map),
    ensures
        map@.contains_key(key) == (a@.contains_key(key) || b@.contains_key(key)),
        a@.contains_key(key) && !b@.contains_key(key) ==> map@[key] == a@[key],
        b@.contains_key(key) && !a@.contains_key(key) ==> map@[key] == b@[key],
        a@.contains_key(key) && b@.contains_key(key) ==> exists|k: K, x: V, y: V|
            k@ == key && cloned(a@[key], x) && cloned(b@[key], y) && #[trigger] f.ensures(
                (&k, x, y),
                map@[key],
            ),
{
    assert(map@.dom().contains(key) == (a@.dom().contains(key) || b@.dom().contains(key)));
}

/// What is kept is what the function says `true` of: a key stays, with its value,
/// or goes, as the function says of the key and its value.
pub proof fn law_retain<S, K: HashKey<S>, V, F: Fn(&K, &V) -> bool>(
    map: &mut GenericHashMap<K, V, S>,
    f: F,
    key: K::V,
)
    requires
        old(map).wf(),
        forall|k: K| old(map)@.contains_key(#[trigger] k@) ==> f.requires((&k, &old(map)@[k@])),
        call_ensures(GenericHashMap::<K, V, S>::retain::<F>, (map, f), ()),
    ensures
        final(map)@.contains_key(key) ==> old(map)@.contains_key(key) && final(map)@[key] == old(
            map,
        )@[key],
        old(map)@.contains_key(key) ==> exists|k: K| #[trigger]
            k@ == key && f.ensures((&k, &old(map)@[key]), final(map)@.contains_key(key)),
{
    if final(map)@.contains_key(key) {
        assert(final(map)@.dom().contains(key));
    }
    if old(map)@.contains_key(key) {
        assert(crate::hash_map_ops::says(
            f,
            key,
            old(map)@[key],
            final(map)@.contains_key(key),
        ));
    }
}

/// A partition puts every entry in one of two maps, as the function says.
pub proof fn law_partition<S: Default, K: HashKey<S>, V, F: Fn(&K, &V) -> bool>(
    map: &GenericHashMap<K, V, S>,
    f: F,
    parts: (GenericHashMap<K, V, S>, GenericHashMap<K, V, S>),
    key: K::V,
)
    requires
        map.wf(),
        accepts_entries(f, map@),
        call_ensures(GenericHashMap::<K, V, S>::partition::<F>, (map, f), parts),
    ensures
        map@.contains_key(key) ==> parts.0@.contains_key(key) != parts.1@.contains_key(key),
        parts.0@.contains_key(key) ==> map@.contains_key(key) && parts.0@[key] == map@[key],
        parts.1@.contains_key(key) ==> map@.contains_key(key) && parts.1@[key] == map@[key],
        map@.contains_key(key) ==> exists|k: K| #[trigger]
            k@ == key && f.ensures((&k, &map@[key]), parts.0@.contains_key(key)),
{
    if parts.0@.contains_key(key) {
        assert(parts.0@.dom().contains(key));
    }
    if map@.contains_key(key) {
        assert(crate::hash_map_ops::says(f, key, map@[key], parts.0@.contains_key(key)));
    }
}

/// A merge makes of every key what one of three functions makes of it: one for the
/// keys of the first map only, one for those of both, one for those of the second
/// only. Where the function makes nothing, the key is not there.
pub proof fn law_merge_with<
    S: Default,
    K: HashKey<S>,
    V,
    V2,
    V3,
    FL: Fn(&K, &V) -> Option<V3>,
    FB: Fn(&K, &V, &V2) -> Option<V3>,
    FR: Fn(&K, &V2) -> Option<V3>,
>(
    a: &GenericHashMap<K, V, S>,
    b: &GenericHashMap<K, V2, S>,
    left: FL,
    both: FB,
    right: FR,
    map: GenericHashMap<K, V3, S>,
    key: K::V,
)
    requires
        a.wf(),
        b.wf(),
        a@.len() + b@.len() <= usize::MAX,
        accepts_entries(left, a@),
        accepts_both(both, a@, b@),
        accepts_entries(right, b@),
        call_ensures(
            GenericHashMap::<K, V, S>::merge_with::<V2, V3, FL, FB, FR>,
            (a, b, left, both, right),
            map,
        ),
    ensures
        map@.contains_key(key) ==> a@.contains_key(key) || b@.contains_key(key),
        a@.contains_key(key) && b@.contains_key(key) ==> exists|k: K| #[trigger]
            k@ == key && both.ensures((&k, &a@[key], &b@[key]), map@.get(key)),
        a@.contains_key(key) && !b@.contains_key(key) ==> exists|k: K| #[trigger]
            k@ == key && left.ensures((&k, &a@[key]), map@.get(key)),
        b@.contains_key(key) && !a@.contains_key(key) ==> exists|k: K| #[trigger]
            k@ == key && right.ensures((&k, &b@[key]), map@.get(key)),
{
    if map@.contains_key(key) {
        assert(map@.dom().contains(key));
    }
}

/// A parallel union of two maps has the keys of both, with the value of the first
/// for the keys that both have. The one exception is maps whose fingerprints are
/// both valid and the same, which are taken to be equal.
pub proof fn law_par_union<
    S: HashState + Default + Send + Sync,
    K: HashKey<S> + Send + Sync,
    V: Send + Sync,
>(
    a: GenericHashMap<K, V, S>,
    b: GenericHashMap<K, V, S>,
    map: GenericHashMap<K, V, S>,
    key: K::V,
)
    requires
        a.wf(),
        b.wf(),
        a@.len() + b@.len() <= usize::MAX,
        a.kv_merkle() is None || b.kv_merkle() is None || a.kv_merkle() != b.kv_merkle(),
        call_ensures(GenericHashMap::<K, V, S>::par_union, (a, b), map),
    ensures
        map@.contains_key(key) == (a@.contains_key(key) || b@.contains_key(key)),
        a@.contains_key(key) ==> map@[key] == a@[key],
        b@.contains_key(key) && !a@.contains_key(key) ==> map@[key] == b@[key],
{
}

/// A parallel intersection of two maps has the keys of both, with the values of the
/// first. The one exception is maps whose fingerprints are both valid and the same.
pub proof fn law_par_intersection<
    S: HashState + Default + Send + Sync,
    K: HashKey<S> + Send + Sync,
    V: Send + Sync,
>(
    a: GenericHashMap<K, V, S>,
    b: GenericHashMap<K, V, S>,
    map: GenericHashMap<K, V, S>,
    key: K::V,
)
    requires
        a.wf(),
        b.wf(),
        a.kv_merkle() is None || b.kv_merkle() is None || a.kv_merkle() != b.kv_merkle(),
        call_ensures(GenericHashMap::<K, V, S>::par_intersection, (a, b), map),
    ensures
        map@.contains_key(key) == (a@.contains_key(key) && b@.contains_key(key)),
        map@.contains_key(key) ==> map@[key] == a@[key],
{
}

/// A parallel difference of two maps has the entries of the first whose keys the
/// second has not. The one exception is maps whose fingerprints are both valid and
/// the same.
pub proof fn law_par_difference<
    S: HashState + Default + Send + Sync,
    K: HashKey<S> + Send + Sync,
    V: Send + Sync,
>(
    a: GenericHashMap<K, V, S>,
    b: GenericHashMap<K, V, S>,
    map: GenericHashMap<K, V, S>,
    key: K::V,
)
    requires
        a.wf(),
        b.wf(),
        a.kv_merkle() is None || b.kv_merkle() is None || a.kv_merkle() != b.kv_merkle(),
        call_ensures(GenericHashMap::<K, V, S>::par_difference, (a, b), map),
    ensures
        map@.contains_key(key) == (a@.contains_key(key) && !b@.contains_key(key)),
        map@.contains_key(key) ==> map@[key] == a@[key],
{
}

/// A parallel symmetric difference of two maps has the entries of each whose keys
/// the other has not. The one exception is maps whose fingerprints are both valid
/// and the same.
pub proof fn law_par_symmetric_difference<
    S: HashState + Default + Send + Sync,
    K: HashKey<S> + Send + Sync,
    V: Send + Sync,
>(
    a: GenericHashMap<K, V, S>,
    b: GenericHashMap<K, V, S>,
    map: GenericHashMap<K, V, S>,
    key: K::V,
)
    requires
        a.wf(),
        b.wf(),
        a@.len() + b@.len() <= usize::MAX,
        a.kv_merkle() is None || b.kv_merkle() is None || a.kv_merkle() != b.kv_merkle(),
        call_ensures(GenericHashMap::<K, V, S>::par_symmetric_difference, (a, b), map),
    ensures
        map@.contains_key(key) == (a@.contains_key(key) != b@.contains_key(key)),
        map@.contains_key(key) && a@.contains_key(key) ==> map@[key] == a@[key],
        map@.contains_key(key) && b@.contains_key(key) ==> map@[key] == b@[key],
{
}

/// Of equal keys, a union keeps those of the larger map, and those of the first
/// where both are of one size.
pub proof fn law_union_keys<S, K: HashKey<S>, V>(
    a: GenericHashMap<K, V, S>,
    b: GenericHashMap<K, V, S>,
    map: GenericHashMap<K, V, S>,
    key: K::V,
)
    requires
        a.wf(),
        b.wf(),
        a@.len() + b@.len() <= usize::MAX,
        call_ensures(GenericHashMap::<K, V, S>::union, (a, b), map),
    ensures
        a@.contains_key(key) && b@.contains_key(key) ==> map.held_keys()[key] == if a@.len()
            >= b@.len() {
            a.held_keys()[key]
        } else {
            b.held_keys()[key]
        },
        a@.contains_key(key) && !b@.contains_key(key) ==> map.held_keys()[key]
            == a.held_keys()[key],
        b@.contains_key(key) && !a@.contains_key(key) ==> map.held_keys()[key]
            == b.held_keys()[key],
{
    a.lemma_map();
    b.lemma_map();
    assert(a.held_keys().dom().contains(key) == a@.dom().contains(key));
    assert(b.held_keys().dom().contains(key) == b@.dom().contains(key));
    assert(a.held_keys().len() == a@.len());
    assert(b.held_keys().len() == b@.len());
}

/// A map that is made by new names for the keys has the names that the function
/// gives, one for each entry in the order of the walk, and no others. Of entries
/// with one name the value of the last stays.
pub proof fn law_map_keys<S: Default, K: HashKey<S>, K2: HashKey<S>, V, F: Fn(&K) -> K2>(
    map: &GenericHashMap<K, V, S>,
    f: F,
    made: GenericHashMap<K2, V, S>,
    i: int,
    name: K2::V,
) -> (list: Seq<K2>)
    requires
        map.wf(),
        forall|k: K| map@.contains_key(#[trigger] k@) ==> f.requires((&k,)),
        call_ensures(GenericHashMap::<K, V, S>::map_keys::<K2, F>, (map, f), made),
    ensures
        list.len() == map.entries().len(),
        0 <= i < list.len() ==> f.ensures((&*map.entries()[i].0,), list[i]),
        0 <= i < list.len() ==> made@.contains_key(list[i]@),
        0 <= i < list.len() && (forall|j: int|
            i < j < list.len() ==> (#[trigger] list[j])@ != list[i]@) ==> made@[list[i]@]
            == *map.entries()[i].1,
        made@.contains_key(name) ==> exists|k: int|
            0 <= k < list.len() && (#[trigger] list[k])@ == name,
{
    let pairs = map.entries();
    let list = choose|names: Seq<K2>|
        {
            &&& names.len() == pairs.len()
            &&& forall|i: int|
                0 <= i < names.len() ==> f.ensures((&*pairs[i].0,), #[trigger] names[i])
            &&& renamed(pairs, names, made@, made.held_keys())
        };
    if 0 <= i < list.len() {
        assert(list[i] == list[i]);
    }
    list
}

/// Where the function fails for an entry in the order of the walk, and not for one
/// before it, its error is the result; otherwise every key has what the function
/// made of its value.
pub proof fn law_try_map_values<
    S: Default,
    K: HashKey<S>,
    V,
    V2,
    E,
    F: Fn(&K, &V) -> Result<V2, E>,
>(
    map: &GenericHashMap<K, V, S>,
    f: F,
    made: Result<GenericHashMap<K, V2, S>, E>,
    key: K::V,
    before: int,
) -> (i: int)
    requires
        map.wf(),
        accepts_entries(f, map@),
        call_ensures(GenericHashMap::<K, V, S>::try_map_values::<V2, E, F>, (map, f), made),
    ensures
        made matches Ok(m) ==> m@.contains_key(key) == map@.contains_key(key),
        made matches Ok(m) ==> map@.contains_key(key) ==> exists|k: K| #[trigger]
            k@ == key && f.ensures((&k, &map@[key]), Ok(m@[key])),
        made matches Err(e) ==> 0 <= i < map.entries().len() && f.ensures(
            (&*map.entries()[i].0, &*map.entries()[i].1),
            Err(e),
        ),
        made is Err && 0 <= before < i ==> exists|v: V2| #[trigger]
            f.ensures((&*map.entries()[before].0, &*map.entries()[before].1), Ok(v)),
{
    let pairs = map.entries();
    match made {
        Ok(m) => {
            assert(m@.dom().contains(key) == map@.dom().contains(key));
            0
        },
        Err(e) => {
            let i = choose|i: int|
                0 <= i < pairs.len() && #[trigger] fails_first::<K, V, V2, E, F>(f, pairs, i, e);
            if 0 <= before < i {
                assert(succeeds::<K, V, V2, E, F>(f, pairs[before]));
            }
            i
        },
    }
}

/// A difference with a function keeps the entries of the keys that the second map
/// has not; for the others the function decides.
pub proof fn law_difference_with<S: Default, K: HashKey<S>, V, F: Fn(&K, &V, &V) -> Option<V>>(
    a: &GenericHashMap<K, V, S>,
    b: &GenericHashMap<K, V, S>,
    f: F,
    map: GenericHashMap<K, V, S>,
    key: K::V,
)
    requires
        a.wf(),
        b.wf(),
        accepts_both(f, a@, b@),
        call_ensures(GenericHashMap::<K, V, S>::difference_with::<F>, (a, b, f), map),
    ensures
        map@.contains_key(key) ==> a@.contains_key(key),
        a@.contains_key(key) && !b@.contains_key(key) ==> map@.contains_key(key) && map@[key]
            == a@[key],
        a@.contains_key(key) && b@.contains_key(key) ==> exists|k: K| #[trigger]
            k@ == key && f.ensures((&k, &a@[key], &b@[key]), map@.get(key)),
{
    if map@.contains_key(key) {
        assert(map@.dom().contains(key));
    }
    if a@.contains_key(key) && !b@.contains_key(key) {
        assert(map@.get(key) == Some(a@[key]));
    }
}

/// A split with a function puts every key in one of two maps, with what the
/// function made of its value.
pub proof fn law_partition_map<
    S: Default,
    K: HashKey<S>,
    V,
    V1,
    V2,
    F: Fn(&K, &V) -> Result<V1, V2>,
>(
    map: &GenericHashMap<K, V, S>,
    f: F,
    parts: (GenericHashMap<K, V1, S>, GenericHashMap<K, V2, S>),
    key: K::V,
)
    requires
        map.wf(),
        accepts_entries(f, map@),
        call_ensures(GenericHashMap::<K, V, S>::partition_map::<V1, V2, F>, (map, f), parts),
    ensures
        map@.contains_key(key) <==> parts.0@.contains_key(key) || parts.1@.contains_key(key),
        !(parts.0@.contains_key(key) && parts.1@.contains_key(key)),
        parts.0@.contains_key(key) ==> exists|k: K| #[trigger]
            k@ == key && f.ensures((&k, &map@[key]), Ok(parts.0@[key])),
        parts.1@.contains_key(key) ==> exists|k: K| #[trigger]
            k@ == key && f.ensures((&k, &map@[key]), Err(parts.1@[key])),
{
    assert(parts.0@.dom().union(parts.1@.dom()).contains(key) == map@.dom().contains(key));
}

/// A parallel filter keeps the entries that the function says `true` of.
pub proof fn law_par_filter<
    S: Default + Send + Sync,
    K: HashKey<S> + Send + Sync,
    V: Send + Sync,
    F: Fn(&K, &V) -> bool + Sync + Send,
>(map: &GenericHashMap<K, V, S>, f: F, kept: GenericHashMap<K, V, S>, key: K::V)
    requires
        map.wf(),
        accepts_entries(f, map@),
        call_ensures(GenericHashMap::<K, V, S>::par_filter::<F>, (map, f), kept),
    ensures
        kept@.contains_key(key) ==> map@.contains_key(key) && kept@[key] == map@[key],
        map@.contains_key(key) ==> exists|k: K| #[trigger]
            k@ == key && f.ensures((&k, &map@[key]), kept@.contains_key(key)),
{
    if kept@.contains_key(key) {
        assert(kept@.dom().contains(key));
    }
    if map@.contains_key(key) {
        assert(crate::hash_map_ops::says(f, key, map@[key], kept@.contains_key(key)));
    }
}

/// A map of the plain kind that is made of a list of entries holds for each key the
/// value of the last entry with it, and no other key.
pub proof fn law_champ_of_list<K: HashKey<RandomState>, V>(
    list: Vec<(K, V)>,
    map: ChampMap<K, V>,
    i: int,
    key: K::V,
)
    requires
        call_ensures(ChampMap::<K, V>::from_vec, (list,), map),
    ensures
        map@.contains_key(key) <==> exists|j: int|
            0 <= j < list@.len() && (#[trigger] list@[j]).0@ == key,
        0 <= i < list@.len() && (forall|j: int|
            i < j < list@.len() ==> (#[trigger] list@[j]).0@ != list@[i].0@)
            ==> map@[list@[i].0@] == list@[i].1,
{
    lemma_list_map(Map::empty(), list@, key);
    if 0 <= i < list@.len() && (forall|j: int|
        i < j < list@.len() ==> (#[trigger] list@[j]).0@ != list@[i].0@) {
        lemma_listed_last(Map::empty(), list@, i);
    }
}

/// A map is part of another just where every key of it is in the other, with a
/// value that is equal by `==`; it is a proper part where it is smaller too.
pub proof fn law_submap<S, K: HashKey<S>, V: PartialEq>(
    a: &GenericHashMap<K, V, S>,
    b: &GenericHashMap<K, V, S>,
    part: bool,
    proper: bool,
)
    requires
        a.wf(),
        b.wf(),
        V::obeys_eq_spec(),
        call_ensures(GenericHashMap::<K, V, S>::is_submap, (a, b), part),
        call_ensures(GenericHashMap::<K, V, S>::is_proper_submap, (a, b), proper),
    ensures
        part <==> forall|key: K::V| #[trigger]
            a@.contains_key(key) ==> b@.contains_key(key) && a@[key].eq_spec(&b@[key]),
        proper <==> part && a@.len() < b@.len(),
{
    a.lemma_map();
    b.lemma_map();
    if part {
        assert(a@.dom().subset_of(b@.dom()));
        vstd::set_lib::lemma_len_subset(a@.dom(), b@.dom());
    }
}

} // verus!
