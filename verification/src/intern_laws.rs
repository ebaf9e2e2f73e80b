//! Laws on calls of interning: what a map and a pool are afterwards.
use crate::canonical::hashes_differ;
use crate::fingerprint::kv_sum;
use crate::hash_key::HashKey;
use crate::hash_map::GenericHashMap;
use crate::hash_map_query::{equivalence, same_entries};
use crate::hash_set::{GenericHashSet, Member};
use crate::intern::{closed_under, list_merkle, no_twins, HashSetInternPool, InternPool};
use crate::intern::{law_empty_no_twins, law_held_once};
use crate::laws::{law_equal_maps, law_interned_alike, lemma_equal_roots};
use crate::node::find;
use crate::shared::inside;
use std::sync::Arc;
use vstd::prelude::*;
use vstd::std_specs::cmp::PartialEqSpec;

verus! {

/// Interning changes nothing that a map says: it has the same keys, with values
/// that are equal by `==`, and the same fingerprints.
pub proof fn law_intern_keeps<S, K: HashKey<S>, V: PartialEq>(
    map: &mut GenericHashMap<K, V, S>,
    pool: &mut InternPool<K, V>,
    key: K::V,
)
    requires
        old(map).wf(),
        old(pool).wf(),
        call_ensures(GenericHashMap::<K, V, S>::intern, (map, pool), ()),
    ensures
        final(map)@.contains_key(key) == old(map)@.contains_key(key),
        equivalence::<V>() && old(map)@.contains_key(key) ==> old(map)@[key].eq_spec(
            &final(map)@[key],
        ),
        final(map).kv_merkle() == old(map).kv_merkle(),
        final(map).keys_merkle() == old(map).keys_merkle(),
        final(map).state() == old(map).state(),
{
    assert(final(map)@.dom().contains(key) == old(map)@.dom().contains(key));
}

/// Interning takes nothing out of a pool: the nodes that were there stay, in their
/// places, and the root that the map has afterwards is one of the pool.
pub proof fn law_intern_grows<S, K: HashKey<S>, V: PartialEq>(
    map: &mut GenericHashMap<K, V, S>,
    pool: &mut InternPool<K, V>,
    hash: u64,
)
    requires
        old(map).wf(),
        old(pool).wf(),
        call_ensures(GenericHashMap::<K, V, S>::intern, (map, pool), ()),
    ensures
        old(pool).held(hash).len() <= final(pool).held(hash).len(),
        forall|i: int|
            0 <= i < old(pool).held(hash).len() ==> #[trigger] final(pool).held(hash)[i] == old(
                pool,
            ).held(hash)[i],
        old(map).top() is Some ==> final(map).top() is Some && exists|h: u64|
            #[trigger] final(pool).held(h).contains(final(map).top()->0),
        old(map).top() is None ==> final(map).top() is None && *final(pool) == *old(pool),
{
    if old(map).top() is Some {
        assert(old(pool).held(hash).is_prefix_of(final(pool).held(hash)));
    }
}

/// Maps that are equal come to share their nodes: where two of them are interned
/// one after the other in a pool that was empty, they end up with one and the same
/// root, and the second adds nothing to the pool. This is so where no two keys have
/// the same hash.
pub proof fn law_interned_together<S, K: HashKey<S>, V: PartialEq>(
    a: &mut GenericHashMap<K, V, S>,
    first: &mut InternPool<K, V>,
    b: &mut GenericHashMap<K, V, S>,
    second: &mut InternPool<K, V>,
)
    requires
        old(a).wf(),
        old(b).wf(),
        old(first).wf(),
        forall|hash: u64| #[trigger] old(first).held(hash).len() == 0,
        V::obeys_eq_spec(),
        forall|v: V| #[trigger] v.eq_spec(&v),
        forall|v: V, w: V| #[trigger] v.eq_spec(&w) ==> w.eq_spec(&v),
        forall|u: V, v: V, w: V| #[trigger]
            u.eq_spec(&v) && #[trigger] v.eq_spec(&w) ==> u.eq_spec(&w),
        old(a).state() == old(b).state(),
        old(a).top() is Some,
        old(b).top() is Some,
        old(a)@.dom() == old(b)@.dom(),
        forall|key: K::V| #[trigger]
            old(a)@.contains_key(key) ==> old(a)@[key].eq_spec(&old(b)@[key]),
        forall|one: K::V, two: K::V|
            old(a)@.contains_key(one) && old(a)@.contains_key(two) && #[trigger] K::hash_in(
                one,
                old(a).state(),
            ) == #[trigger] K::hash_in(two, old(a).state()) ==> one == two,
        call_ensures(GenericHashMap::<K, V, S>::intern, (a, first), ()),
        *old(second) == *final(first),
        call_ensures(GenericHashMap::<K, V, S>::intern, (b, second), ()),
    ensures
        final(a).top() == final(b).top(),
        final(second).total() == final(first).total(),
        final(second).counts().misses == final(first).counts().misses,
{
    let state = old(a).state();
    law_empty_no_twins(*old(first));
    assert(closed_under(*old(first), state));
    law_equal_maps(old(a)@, final(a)@, old(a)@);
    law_equal_maps(final(a)@, old(a)@, old(b)@);
    law_equal_maps(final(a)@, old(b)@, final(b)@);
    assert(same_entries(old(a)@, old(b)@));
    assert(same_entries(final(a)@, old(b)@));
    final(a).lemma_map();
    assert(hashes_differ(final(a).entries(), state)) by {
        assert forall|one: K::V, two: K::V|
            #![trigger find(final(a).entries(), one), find(final(a).entries(), two)]
            find(final(a).entries(), one) is Some && find(final(a).entries(), two) is Some
                && K::hash_in(one, state) == K::hash_in(two, state) implies one == two by {
            assert(final(a)@.dom().contains(one) && final(a)@.dom().contains(two));
            assert(old(a)@.contains_key(one) && old(a)@.contains_key(two));
        }
    }
    law_interned_alike(*final(a), *old(b), *final(first));
    lemma_equal_roots(*final(a), *final(b));
    let (x, y) = (inside(final(a).top()->0), inside(final(b).top()->0));
    assert(no_twins(*final(second)));
    assert(closed_under(*final(second), state));
    let hash = list_merkle(x.entries(), state);
    let i = final(first).held(hash).index_of(final(a).top()->0);
    assert(final(first).held(hash).contains(Arc::new(x)));
    assert(final(first).held(hash)[i] == final(a).top()->0);
    assert(final(first).held(hash).is_prefix_of(final(second).held(hash)));
    assert(final(second).held(hash)[i] == final(a).top()->0);
    law_held_once(*final(second), x, y, state);
}

/// Sets with the same elements come to share their nodes: where two of them are
/// interned one after the other in a pool that was empty, they end up with one and
/// the same root, and the second adds nothing to the pool. This is so where no two
/// elements have the same hash.
pub proof fn law_sets_interned_together<S, A: HashKey<S>>(
    a: &mut GenericHashSet<A, S>,
    first: &mut HashSetInternPool<A>,
    b: &mut GenericHashSet<A, S>,
    second: &mut HashSetInternPool<A>,
)
    requires
        old(a).wf(),
        old(b).wf(),
        old(first).wf(),
        forall|hash: u64| #[trigger] old(first).held(hash).len() == 0,
        old(a).state() == old(b).state(),
        old(a).top() is Some,
        old(b).top() is Some,
        old(a)@ == old(b)@,
        forall|one: A::V, two: A::V|
            old(a)@.contains(one) && old(a)@.contains(two) && #[trigger] A::hash_in(
                one,
                old(a).state(),
            ) == #[trigger] A::hash_in(two, old(a).state()) ==> one == two,
        call_ensures(GenericHashSet::<A, S>::intern, (a, first), ()),
        *old(second) == *final(first),
        call_ensures(GenericHashSet::<A, S>::intern, (b, second), ()),
    ensures
        final(a)@ == old(a)@,
        final(b)@ == old(b)@,
        final(a).top() == final(b).top(),
        final(second).total() == final(first).total(),
{
    let state = old(a).state();
    let (p, q) = (final(a).below(), final(b).below());
    let r = old(b).below();
    law_empty_no_twins(*old(first));
    assert(closed_under(*old(first), state));
    assert(equivalence::<Member>());
    final(a).lemma_below();
    final(b).lemma_below();
    old(b).lemma_below();
    p.lemma_map();
    assert(same_entries(p@, r@));
    assert(same_entries(p@, q@));
    assert(hashes_differ(p.entries(), state)) by {
        assert forall|one: A::V, two: A::V|
            #![trigger find(p.entries(), one), find(p.entries(), two)]
            find(p.entries(), one) is Some && find(p.entries(), two) is Some && A::hash_in(
                one,
                state,
            ) == A::hash_in(two, state) implies one == two by {
            assert(p@.dom().contains(one) && p@.dom().contains(two));
        }
    }
    law_interned_alike(p, r, *final(first));
    lemma_equal_roots(p, q);
    let (x, y) = (inside(p.top()->0), inside(q.top()->0));
    let hash = list_merkle(x.entries(), state);
    assert(final(first).held(hash).contains(Arc::new(x)));
    let i = final(first).held(hash).index_of(p.top()->0);
    assert(final(first).held(hash)[i] == p.top()->0);
    assert(final(first).held(hash).is_prefix_of(final(second).held(hash)));
    assert(final(second).held(hash)[i] == p.top()->0);
    law_held_once(*final(second), x, y, state);
}

/// Interning and bringing the fingerprint up to date keeps what a map says, and
/// leaves the fingerprint valid: the sum over the entries of the map.
pub proof fn law_intern_and_seal<S, K: HashKey<S>, V: PartialEq + HashKey<S>>(
    map: &mut GenericHashMap<K, V, S>,
    pool: &mut InternPool<K, V>,
    key: K::V,
)
    requires
        old(map).wf(),
        old(pool).wf(),
        call_ensures(GenericHashMap::<K, V, S>::intern_and_seal, (map, pool), ()),
    ensures
        final(map)@.contains_key(key) == old(map)@.contains_key(key),
        equivalence::<V>() && old(map)@.contains_key(key) ==> old(map)@[key].eq_spec(
            &final(map)@[key],
        ),
        final(map).kv_merkle() == Some(kv_sum::<S, K, V>(final(map)@, final(map).state())),
{
    assert(final(map)@.dom().contains(key) == old(map)@.dom().contains(key));
}

} // verus!
