//! Laws on the fingerprint of keys and values: whatever made a map, its fingerprint
//! is right where it is valid, so that maps may be compared by it.
use crate::diff::DiffItem;
use crate::fingerprint::kv_sum;
use crate::hash_key::{HashKey, HashState};
use crate::hash_map::GenericHashMap;
use crate::hash_set::GenericHashSet;
use vstd::prelude::*;

verus! {

/// Whether the fingerprint of a map is that of its entries, where it is valid.
pub open spec fn right<S, K: HashKey<S>, V: HashKey<S>>(map: GenericHashMap<K, V, S>) -> bool {
    map.kv_merkle() matches Some(hash) ==> hash == kv_sum::<S, K, V>(map@, map.state())
}

/// The fingerprint of nothing is zero.
proof fn lemma_right_empty<S, K: HashKey<S>, V: HashKey<S>>(state: S)
    ensures
        kv_sum::<S, K, V>(Map::empty(), state) == 0,
{
    assert(Map::<K::V, V>::empty().dom() =~= Set::empty());
}

/// An empty map has the right fingerprint, however it came about.
pub proof fn law_right_new<S: HashState + Default, K: HashKey<S>, V: HashKey<S>>(
    state: S,
    map: &GenericHashMap<K, V, S>,
    fresh: GenericHashMap<K, V, S>,
    given: GenericHashMap<K, V, S>,
    kin: GenericHashMap<K, V, S>,
)
    requires
        call_ensures(GenericHashMap::<K, V, S>::new, (), fresh),
        call_ensures(GenericHashMap::<K, V, S>::with_hasher, (state,), given),
        call_ensures(GenericHashMap::<K, V, S>::new_from::<K, V>, (map,), kin),
    ensures
        right(fresh),
        right(given),
        right(kin),
{
    lemma_right_empty::<S, K, V>(fresh.state());
    lemma_right_empty::<S, K, V>(given.state());
    lemma_right_empty::<S, K, V>(kin.state());
}

/// A map that was cleared has the right fingerprint.
pub proof fn law_right_clear<S, K: HashKey<S>, V: HashKey<S>>(
    map: &mut GenericHashMap<K, V, S>,
)
    requires
        call_ensures(GenericHashMap::<K, V, S>::clear, (map,), ()),
    ensures
        right(*final(map)),
{
    lemma_right_empty::<S, K, V>(final(map).state());
}

/// An insertion, a removal and an extension keep a fingerprint right and valid.
pub proof fn law_right_insert<S, K: HashKey<S>, V: HashKey<S> + Clone>(
    a: &mut GenericHashMap<K, V, S>,
    b: &mut GenericHashMap<K, V, S>,
    c: &mut GenericHashMap<K, V, S>,
    key: K,
    value: V,
    other: &K,
    list: Vec<(K, V)>,
    replaced: Option<V>,
    removed: Option<V>,
)
    requires
        old(a).wf(),
        old(b).wf(),
        old(c).wf(),
        right(*old(a)),
        right(*old(b)),
        right(*old(c)),
        call_ensures(GenericHashMap::<K, V, S>::insert, (a, key, value), replaced),
        call_ensures(GenericHashMap::<K, V, S>::remove, (b, other), removed),
        call_ensures(GenericHashMap::<K, V, S>::extend, (c, list), ()),
    ensures
        right(*final(a)),
        right(*final(b)),
        right(*final(c)),
        final(a).kv_merkle() is Some == old(a).kv_merkle() is Some,
        final(b).kv_merkle() is Some == old(b).kv_merkle() is Some,
        final(c).kv_merkle() is Some == old(c).kv_merkle() is Some,
{
}

/// A change of a value in place makes a fingerprint invalid, and bringing it up to date
/// makes it valid and right.
pub proof fn law_right_change<'a, S, K: HashKey<S>, V: HashKey<S> + Clone>(
    map: &'a mut GenericHashMap<K, V, S>,
    key: &K,
    value: Option<&'a mut V>,
    other: &mut GenericHashMap<K, V, S>,
)
    requires
        old(map).wf(),
        old(other).wf(),
        call_ensures(GenericHashMap::<K, V, S>::get_mut, (map, key), value),
        call_ensures(GenericHashMap::<K, V, S>::recompute_kv_merkle, (other,), ()),
    ensures
        final(map).kv_merkle() is None,
        final(other).kv_merkle() is Some,
        right(*final(other)),
        final(other)@ == old(other)@,
{
}

/// A map of a list has a valid fingerprint, and the right one.
pub proof fn law_right_list<S: Default, K: HashKey<S>, V: HashKey<S> + Clone>(
    list: Vec<(K, V)>,
    map: GenericHashMap<K, V, S>,
)
    requires
        call_ensures(GenericHashMap::<K, V, S>::from_vec, (list,), map),
    ensures
        map.kv_merkle() is Some,
        right(map),
{
}

/// A union, a difference and an intersection of maps with right fingerprints have right
/// ones.
pub proof fn law_right_union<S: HashState, K: HashKey<S>, V: HashKey<S> + Clone>(
    a: GenericHashMap<K, V, S>,
    b: GenericHashMap<K, V, S>,
    all: GenericHashMap<K, V, S>,
    rest: GenericHashMap<K, V, S>,
    common: GenericHashMap<K, V, S>,
    parted: GenericHashMap<K, V, S>,
)
    requires
        a.wf(),
        b.wf(),
        right(a),
        right(b),
        call_ensures(GenericHashMap::<K, V, S>::union, (a, b), all),
        call_ensures(GenericHashMap::<K, V, S>::difference, (a, b), rest),
        call_ensures(GenericHashMap::<K, V, S>::intersection, (a, b), common),
        call_ensures(GenericHashMap::<K, V, S>::symmetric_difference, (a, b), parted),
    ensures
        right(all),
        right(rest),
        right(common),
        right(parted),
{
    lemma_right_empty::<S, K, V>(common.state());
    lemma_right_empty::<S, K, V>(parted.state());
}

/// A union and a symmetric difference with a function have right fingerprints.
pub proof fn law_right_union_with<
    S: HashState,
    K: HashKey<S>,
    V: HashKey<S> + Clone,
    F: Fn(&K, V, V) -> V,
    G: Fn(&K, V, V) -> Option<V>,
>(
    a: GenericHashMap<K, V, S>,
    b: GenericHashMap<K, V, S>,
    f: F,
    g: G,
    all: GenericHashMap<K, V, S>,
    parted: GenericHashMap<K, V, S>,
)
    requires
        a.wf(),
        b.wf(),
        right(a),
        right(b),
        call_ensures(GenericHashMap::<K, V, S>::union_with_key::<F>, (a, b, f), all),
        call_ensures(GenericHashMap::<K, V, S>::symmetric_difference_with_key::<G>, (a, b, g), parted),
    ensures
        right(all),
        right(parted),
{
    lemma_right_empty::<S, K, V>(parted.state());
}

/// A map whose values a function made has the right fingerprint.
pub proof fn law_right_values<
    S: Default,
    K: HashKey<S>,
    V,
    W: HashKey<S>,
    F: Fn(&V) -> W,
    G: Fn(&K, &V) -> W,
    H: Fn(&K, &V) -> Result<W, W>,
>(
    map: &GenericHashMap<K, V, S>,
    f: F,
    g: G,
    h: H,
    plain: GenericHashMap<K, W, S>,
    keyed: GenericHashMap<K, W, S>,
    tried: Result<GenericHashMap<K, W, S>, W>,
    parts: (GenericHashMap<K, W, S>, GenericHashMap<K, W, S>),
)
    requires
        map.wf(),
        call_ensures(GenericHashMap::<K, V, S>::map_values::<W, F>, (map, f), plain),
        call_ensures(GenericHashMap::<K, V, S>::map_values_with_key::<W, G>, (map, g), keyed),
        call_ensures(GenericHashMap::<K, V, S>::try_map_values::<W, W, H>, (map, h), tried),
        call_ensures(GenericHashMap::<K, V, S>::partition_map::<W, W, H>, (map, h), parts),
    ensures
        right(plain),
        right(keyed),
        tried matches Ok(made) ==> right(made),
        right(parts.0),
        right(parts.1),
{
    lemma_right_empty::<S, K, W>(plain.state());
    lemma_right_empty::<S, K, W>(keyed.state());
    lemma_right_empty::<S, K, W>(parts.0.state());
    lemma_right_empty::<S, K, W>(parts.1.state());
    if let Ok(made) = tried {
        lemma_right_empty::<S, K, W>(made.state());
    }
}

/// What a function keeps of a map has the right fingerprint.
pub proof fn law_right_parts<
    S: Default,
    K: HashKey<S>,
    V: HashKey<S>,
    F: Fn(&K, &V) -> bool,
    G: Fn(&K, &V, &V) -> Option<V>,
>(
    map: &GenericHashMap<K, V, S>,
    other: &GenericHashMap<K, V, S>,
    f: F,
    g: G,
    parts: (GenericHashMap<K, V, S>, GenericHashMap<K, V, S>),
    rest: GenericHashMap<K, V, S>,
    kept: &mut GenericHashMap<K, V, S>,
)
    requires
        map.wf(),
        other.wf(),
        old(kept).wf(),
        right(*old(kept)),
        call_ensures(GenericHashMap::<K, V, S>::partition::<F>, (map, f), parts),
        call_ensures(GenericHashMap::<K, V, S>::difference_with::<G>, (map, other, g), rest),
        call_ensures(GenericHashMap::<K, V, S>::retain::<F>, (kept, f), ()),
    ensures
        right(parts.0),
        right(parts.1),
        right(rest),
        right(*final(kept)),
{
    lemma_right_empty::<S, K, V>(parts.0.state());
    lemma_right_empty::<S, K, V>(parts.1.state());
    lemma_right_empty::<S, K, V>(rest.state());
}

/// A map with new names for its keys, and a map that was merged, have right
/// fingerprints.
pub proof fn law_right_names<
    S: Default,
    K: HashKey<S>,
    L: HashKey<S>,
    V: HashKey<S>,
    F: Fn(&K) -> L,
    G: Fn(&K, &V) -> Option<V>,
    H: Fn(&K, &V, &V) -> Option<V>,
>(
    map: &GenericHashMap<K, V, S>,
    other: &GenericHashMap<K, V, S>,
    f: F,
    g: G,
    h: H,
    named: GenericHashMap<L, V, S>,
    merged: GenericHashMap<K, V, S>,
)
    requires
        map.wf(),
        other.wf(),
        call_ensures(GenericHashMap::<K, V, S>::map_keys::<L, F>, (map, f), named),
        call_ensures(GenericHashMap::<K, V, S>::merge_with::<V, V, G, H, G>, (map, other, g, h, g), merged),
    ensures
        right(named),
        right(merged),
{
    lemma_right_empty::<S, L, V>(named.state());
    lemma_right_empty::<S, K, V>(merged.state());
}

/// What a set of keys leaves of a map has the right fingerprint.
pub proof fn law_right_key_sets<S: HashState, K: HashKey<S>, V: HashKey<S>>(
    map: &GenericHashMap<K, V, S>,
    keys: &GenericHashSet<K, S>,
    with: GenericHashMap<K, V, S>,
    without: GenericHashMap<K, V, S>,
)
    requires
        map.wf(),
        keys.wf(),
        right(*map),
        call_ensures(GenericHashMap::<K, V, S>::restrict_keys, (map, keys), with),
        call_ensures(GenericHashMap::<K, V, S>::without_keys, (map, keys), without),
    ensures
        right(with),
        right(without),
{
}

/// A map to which differences were applied has the right fingerprint.
pub proof fn law_right_applied<'a, 'b, S: HashState, K: HashKey<S> + Clone, V: HashKey<S> + Clone>(
    map: &GenericHashMap<K, V, S>,
    items: Vec<DiffItem<'a, 'b, K, V>>,
    made: GenericHashMap<K, V, S>,
)
    requires
        map.wf(),
        right(*map),
        call_ensures(GenericHashMap::<K, V, S>::apply_diff, (map, items), made),
    ensures
        right(made),
{
}

/// Operations in parallel give right fingerprints too.
pub proof fn law_right_parallel<
    S: HashState + Default + Send + Sync,
    K: HashKey<S> + Send + Sync,
    V: HashKey<S> + Send + Sync,
>(
    a: GenericHashMap<K, V, S>,
    b: GenericHashMap<K, V, S>,
    all: GenericHashMap<K, V, S>,
    rest: GenericHashMap<K, V, S>,
    common: GenericHashMap<K, V, S>,
    parted: GenericHashMap<K, V, S>,
)
    requires
        a.wf(),
        b.wf(),
        right(a),
        right(b),
        call_ensures(GenericHashMap::<K, V, S>::par_union, (a, b), all),
        call_ensures(GenericHashMap::<K, V, S>::par_difference, (a, b), rest),
        call_ensures(GenericHashMap::<K, V, S>::par_intersection, (a, b), common),
        call_ensures(GenericHashMap::<K, V, S>::par_symmetric_difference, (a, b), parted),
    ensures
        right(all),
        right(rest),
        right(common),
        right(parted),
{
    lemma_right_empty::<S, K, V>(rest.state());
    lemma_right_empty::<S, K, V>(common.state());
    lemma_right_empty::<S, K, V>(parted.state());
}

} // verus!
