//! Laws that relate the operations of maps and of other collections.
use crate::canonical::{hashes_differ, holds_alike, same_form};
use crate::canonical::{law_canonical, law_canonical_order};
use crate::entries::lemma_entries;
use crate::equal_nodes::equal_nodes;
use crate::fingerprint::{key_sum, kv_sum, lemma_sum_same, map_weight};
use crate::hash_key::HashKey;
use crate::hash_map::GenericHashMap;
use crate::hash_map_query::{equivalence, same_entries};
use crate::insertion_order_map::{dropped, has_key, keys_differ, place, put};
use crate::intern::{all_held, known, law_equal_known, InternPool};
use crate::node::{find, lemma_find, ChampNode};
use crate::shape::lemma_shape_entries;
use crate::shared::inside;
use crate::trie::pairs_map;
use vstd::multiset::Multiset;
use vstd::prelude::*;
use vstd::std_specs::cmp::PartialEqSpec;

verus! {

/// The fingerprints of a map depend on its contents alone, not on the order in
/// which they came: maps with one hasher state and the same keys have the same
/// fingerprint of keys, and where the values have the same views too, they have
/// the same fingerprint of keys and values.
pub proof fn law_fingerprints_by_content<S, K: HashKey<S>, V: HashKey<S>>(
    a: GenericHashMap<K, V, S>,
    b: GenericHashMap<K, V, S>,
)
    requires
        a.wf(),
        b.wf(),
        a.state() == b.state(),
        a@.dom() == b@.dom(),
    ensures
        a.keys_merkle() == b.keys_merkle(),
        a.sealed() && b.sealed() && a.kv_merkle() is Some && b.kv_merkle() is Some && (forall|
            key: K::V,
        |
            #[trigger] a@.contains_key(key) ==> a@[key]@ == b@[key]@) ==> a.kv_merkle()
            == b.kv_merkle(),
{
    a.lemma_map();
    b.lemma_map();
    if forall|key: K::V| #[trigger] a@.contains_key(key) ==> a@[key]@ == b@[key]@ {
        let weight = map_weight::<S, K, V>(a@, a.state());
        let other = map_weight::<S, K, V>(b@, b.state());
        assert forall|key: K::V| a@.dom().contains(key) implies #[trigger] weight(key) == other(
            key,
        ) by {
            assert(a@.contains_key(key));
        }
        lemma_sum_same(a@.dom(), weight, other);
    }
}

/// A key that goes into a map and out again leaves the contents and the
/// fingerprints as they were.
pub proof fn law_fingerprint_round_trip<S, K: HashKey<S>, V: HashKey<S>>(
    map: Map<K::V, V>,
    state: S,
    key: K::V,
    value: V,
)
    requires
        !map.contains_key(key),
    ensures
        map.insert(key, value).remove(key) == map,
        kv_sum::<S, K, V>(map.insert(key, value).remove(key), state) == kv_sum::<S, K, V>(
            map,
            state,
        ),
        key_sum::<S, K>(map.insert(key, value).remove(key).dom(), state) == key_sum::<S, K>(
            map.dom(),
            state,
        ),
{
    assert(map.insert(key, value).remove(key) =~= map);
}

/// Roots of maps with the same keys hold the same keys.
proof fn lemma_roots_alike<S, K: HashKey<S>, V, W>(
    x: ChampNode<K, V>,
    y: ChampNode<K, W>,
    state: S,
)
    requires
        x.wf(state, Seq::empty()),
        y.wf(state, Seq::empty()),
        pairs_map(x.entries()).dom() == pairs_map(y.entries()).dom(),
    ensures
        holds_alike(x, y, state, 0),
{
    let path = Seq::<u32>::empty();
    lemma_entries(x, state, path);
    lemma_entries(y, state, path);
    assert forall|key: K::V|
        (#[trigger] x.at(state, key, 0) is Some) == (y.at(state, key, 0) is Some) by {
        assert(path.len() == 0);
        assert(find(x.entries(), key) == x.at(state, key, path.len()));
        assert(find(y.entries(), key) == y.at(state, key, path.len()));
        assert(pairs_map(x.entries()).dom().contains(key) == (find(x.entries(), key) is Some));
        assert(pairs_map(y.entries()).dom().contains(key) == (find(y.entries(), key) is Some));
    }
}

/// Maps with one hasher state and the same keys are built alike, whatever led to
/// them.
pub proof fn law_canonical_maps<S, K: HashKey<S>, V, W>(
    a: GenericHashMap<K, V, S>,
    b: GenericHashMap<K, W, S>,
)
    requires
        a.wf(),
        b.wf(),
        a.state() == b.state(),
        a@.dom() == b@.dom(),
    ensures
        match (a.top(), b.top()) {
            (Some(x), Some(y)) => same_form(*x, *y),
            (None, None) => true,
            _ => a@.dom() == Set::<K::V>::empty(),
        },
{
    a.lemma_map();
    b.lemma_map();
    a.lemma_top();
    b.lemma_top();
    match (a.top(), b.top()) {
        (Some(x), Some(y)) => {
            lemma_roots_alike(inside(x), inside(y), a.state());
            law_canonical(inside(x), inside(y), a.state(), Seq::empty());
        },
        (None, Some(_)) => {
            assert(a@.dom() =~= Set::<K::V>::empty());
        },
        (Some(_), None) => {
            assert(b@.dom() =~= Set::<K::V>::empty());
        },
        _ => {},
    }
}

/// The roots of equal maps are equal nodes, where no two keys have the same hash,
/// since entries with one hash stand in the order in which they came.
pub(crate) proof fn lemma_equal_roots<S, K: HashKey<S>, V: PartialEq>(
    a: GenericHashMap<K, V, S>,
    b: GenericHashMap<K, V, S>,
)
    requires
        a.wf(),
        b.wf(),
        a.state() == b.state(),
        same_entries(a@, b@),
        hashes_differ(a.entries(), a.state()),
        a.top() is Some,
        b.top() is Some,
    ensures
        equal_nodes(*a.top()->0, *b.top()->0),
{
    a.lemma_map();
    b.lemma_map();
    a.lemma_top();
    b.lemma_top();
    let x = inside(a.top()->0);
    let y = inside(b.top()->0);
    lemma_roots_alike(x, y, a.state());
    law_canonical_order(x, y, a.state(), Seq::empty());
    lemma_shape_entries(x, y);
    let p = x.entries();
    let q = y.entries();
    assert forall|i: int| 0 <= i < p.len() implies (*(#[trigger] p[i]).1).eq_spec(&*q[i].1) by {
        lemma_find(p, i);
        lemma_find(q, i);
        assert((*q[i].0)@ == (*p[i].0)@);
        assert(a@.contains_key((*p[i].0)@));
    }
}

/// A pool that holds the nodes of one map knows those of every map that is equal
/// to it: interning the second map adds nothing, and the two share all their
/// nodes. This is so where no two keys have the same hash, since entries with one
/// hash stand in the order in which they came.
pub proof fn law_interned_alike<S, K: HashKey<S>, V: PartialEq>(
    a: GenericHashMap<K, V, S>,
    b: GenericHashMap<K, V, S>,
    pool: InternPool<K, V>,
)
    requires
        a.wf(),
        b.wf(),
        a.state() == b.state(),
        equivalence::<V>(),
        same_entries(a@, b@),
        hashes_differ(a.entries(), a.state()),
        a.top() matches Some(x) && all_held(pool, *x, a.state()),
    ensures
        b.top() matches Some(y) ==> known(pool, *y, a.state()),
{
    if b.top() is Some {
        lemma_equal_roots(a, b);
        law_equal_known(pool, inside(a.top()->0), inside(b.top()->0), a.state());
    }
}

/// Where `==` on values is an equivalence, so is equality of maps.
pub proof fn law_equal_maps<M, V: PartialEq>(a: Map<M, V>, b: Map<M, V>, c: Map<M, V>)
    requires
        equivalence::<V>(),
    ensures
        same_entries(a, a),
        same_entries(a, b) ==> same_entries(b, a),
        same_entries(a, b) && same_entries(b, c) ==> same_entries(a, c),
{
    if same_entries(a, b) {
        assert forall|key: M| #[trigger] b.contains_key(key) implies b[key].eq_spec(&a[key]) by {
            assert(a.dom().contains(key));
            assert(a.contains_key(key));
        }
        if same_entries(b, c) {
            assert forall|key: M| #[trigger] a.contains_key(key) implies a[key].eq_spec(
                &c[key],
            ) by {
                assert(b.dom().contains(key));
                assert(b.contains_key(key));
                assert(a[key].eq_spec(&b[key]));
                assert(b[key].eq_spec(&c[key]));
            }
        }
    }
}

/// An intersection and a difference part a map.
pub proof fn law_parts<M, V, W>(a: Map<M, V>, b: Map<M, W>)
    ensures
        a.restrict(b.dom()).union_prefer_right(a.remove_keys(b.dom())) == a,
        a.restrict(b.dom()).dom().disjoint(a.remove_keys(b.dom()).dom()),
{
    assert(a.restrict(b.dom()).union_prefer_right(a.remove_keys(b.dom())) =~= a);
}

/// A symmetric difference is a union without the common keys, and does not depend
/// on which map comes first.
pub proof fn law_symmetric_difference<M, V>(a: Map<M, V>, b: Map<M, V>)
    ensures
        a.remove_keys(b.dom()).union_prefer_right(b.remove_keys(a.dom()))
            == b.union_prefer_right(a).remove_keys(a.dom().intersect(b.dom())),
        a.remove_keys(b.dom()).union_prefer_right(b.remove_keys(a.dom())) == b.remove_keys(
            a.dom(),
        ).union_prefer_right(a.remove_keys(b.dom())),
{
    let difference = a.remove_keys(b.dom()).union_prefer_right(b.remove_keys(a.dom()));
    assert(difference =~= b.union_prefer_right(a).remove_keys(a.dom().intersect(b.dom())));
    assert(difference =~= b.remove_keys(a.dom()).union_prefer_right(a.remove_keys(b.dom())));
}

/// Unions can be taken in any grouping.
pub proof fn law_union_grouping<M, V>(a: Map<M, V>, b: Map<M, V>, c: Map<M, V>)
    ensures
        c.union_prefer_right(b.union_prefer_right(a)) == c.union_prefer_right(
            b,
        ).union_prefer_right(a),
{
    assert(c.union_prefer_right(b.union_prefer_right(a)) =~= c.union_prefer_right(
        b,
    ).union_prefer_right(a));
}

/// What two bags have in common and what one has over the other make up the one;
/// a sum has as many elements as its parts.
pub proof fn law_bag_parts<M>(a: Multiset<M>, b: Multiset<M>)
    ensures
        a.intersection_with(b).add(a.sub(b)) == a,
        a.add(b) == b.add(a),
        a.add(b).len() == a.len() + b.len(),
        a.add(b).sub(b) == a,
{
    broadcast use {vstd::multiset::group_multiset_axioms, vstd::multiset::lemma_intersection_count};

    assert(a.intersection_with(b).add(a.sub(b)) =~= a);
    assert(a.add(b) =~= b.add(a));
    assert(a.add(b).sub(b) =~= a);
}

/// A key that is put into a list again keeps its place; a key that left and comes
/// back stands at the end.
pub proof fn law_order_of_arrival<M, V>(list: Seq<(M, V)>, key: M, value: V)
    requires
        keys_differ(list),
    ensures
        has_key(list, key) ==> put(list, key, value).len() == list.len() && (forall|i: int|
            0 <= i < list.len() ==> (#[trigger] put(list, key, value)[i]).0 == list[i].0),
        put(dropped(list, key), key, value) == dropped(list, key).push((key, value)),
        keys_differ(put(list, key, value)),
        keys_differ(dropped(list, key)),
{
    let left = dropped(list, key);
    if has_key(list, key) {
        let at = place(list, key);
        assert(list[at].0 == key);
        assert forall|i: int, j: int| 0 <= i < j < left.len() implies (#[trigger] left[i]).0 != (
        #[trigger] left[j]).0 by {
            let i2 = if i < at {
                i
            } else {
                i + 1
            };
            let j2 = if j < at {
                j
            } else {
                j + 1
            };
            assert(list[i2].0 != list[j2].0);
        }
        assert forall|i: int| 0 <= i < left.len() implies (#[trigger] left[i]).0 != key by {
            if i < at {
                assert(list[i].0 != list[at].0);
            } else {
                assert(list[at].0 != list[i + 1].0);
            }
        }
        assert(!has_key(left, key));
    }
    let now = put(list, key, value);
    assert forall|i: int, j: int| 0 <= i < j < now.len() implies (#[trigger] now[i]).0 != (
    #[trigger] now[j]).0 by {
        if j < list.len() {
            assert(list[i].0 != list[j].0);
        }
    }
}

} // verus!
