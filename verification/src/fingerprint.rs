//! Commutative fingerprints: sums of mixed hashes, modulo 2^64.
//!
//! A sum does not depend on the order of its terms, so a map can keep one up to
//! date by adding the term of an entry that comes and subtracting that of one
//! that goes.
use crate::hash_key::HashKey;
use crate::hash_width::fmix64_spec;
use vstd::prelude::*;

verus! {

/// Addition modulo 2^64.
pub open spec fn wrap_add(a: u64, b: u64) -> u64 {
    if a + b <= u64::MAX {
        (a + b) as u64
    } else {
        (a + b - 0x1_0000_0000_0000_0000) as u64
    }
}

/// Subtraction modulo 2^64.
pub open spec fn wrap_sub(a: u64, b: u64) -> u64 {
    if a >= b {
        (a - b) as u64
    } else {
        (a - b + 0x1_0000_0000_0000_0000) as u64
    }
}

/// The sum of the weights of the members of a finite set, modulo 2^64.
pub open spec fn sum<M>(members: Set<M>, weight: spec_fn(M) -> u64) -> u64
    decreases members.len(),
{
    if members.finite() && members.len() > 0 {
        let one = members.choose();
        wrap_add(sum(members.remove(one), weight), weight(one))
    } else {
        0
    }
}

/// A sum does not depend on which member is added last.
pub proof fn lemma_sum_remove<M>(members: Set<M>, weight: spec_fn(M) -> u64, one: M)
    requires
        members.finite(),
        members.contains(one),
    ensures
        sum(members, weight) == wrap_add(sum(members.remove(one), weight), weight(one)),
    decreases members.len(),
{
    let last = members.choose();
    if last != one {
        lemma_sum_remove(members.remove(last), weight, one);
        lemma_sum_remove(members.remove(one), weight, last);
        assert(members.remove(last).remove(one) =~= members.remove(one).remove(last));
    }
}

/// A member more is a term more.
pub proof fn lemma_sum_insert<M>(members: Set<M>, weight: spec_fn(M) -> u64, one: M)
    requires
        members.finite(),
        !members.contains(one),
    ensures
        sum(members.insert(one), weight) == wrap_add(sum(members, weight), weight(one)),
{
    lemma_sum_remove(members.insert(one), weight, one);
    assert(members.insert(one).remove(one) =~= members);
}

/// Weights that agree on the members give one sum.
pub proof fn lemma_sum_same<M>(
    members: Set<M>,
    weight_a: spec_fn(M) -> u64,
    weight_b: spec_fn(M) -> u64,
)
    requires
        forall|one: M| members.contains(one) ==> #[trigger] weight_a(one) == weight_b(one),
    ensures
        sum(members, weight_a) == sum(members, weight_b),
    decreases members.len(),
{
    if members.finite() && members.len() > 0 {
        let one = members.choose();
        lemma_sum_same(members.remove(one), weight_a, weight_b);
    }
}

/// The term of a key.
pub open spec fn key_weight<S, K: HashKey<S>>(state: S) -> spec_fn(K::V) -> u64 {
    |key: K::V| fmix64_spec(K::hash_in(key, state))
}

/// The fingerprint of a set of keys.
pub open spec fn key_sum<S, K: HashKey<S>>(keys: Set<K::V>, state: S) -> u64 {
    sum(keys, key_weight::<S, K>(state))
}

/// The term of an entry.
pub open spec fn entry_weight<S, K: HashKey<S>, V: HashKey<S>>(key: K::V, value: V, state: S) -> u64 {
    fmix64_spec(wrap_add(K::hash_in(key, state), V::hash_in(value@, state)))
}

/// The terms of the entries of a map.
pub open spec fn map_weight<S, K: HashKey<S>, V: HashKey<S>>(
    map: Map<K::V, V>,
    state: S,
) -> spec_fn(K::V) -> u64 {
    |key: K::V| entry_weight::<S, K, V>(key, map[key], state)
}

/// The fingerprint of the keys and the values of a map.
pub open spec fn kv_sum<S, K: HashKey<S>, V: HashKey<S>>(map: Map<K::V, V>, state: S) -> u64 {
    sum(map.dom(), map_weight::<S, K, V>(map, state))
}

/// What an insertion does to the fingerprint of a map.
pub proof fn lemma_kv_insert<S, K: HashKey<S>, V: HashKey<S>>(
    map: Map<K::V, V>,
    state: S,
    key: K::V,
    value: V,
)
    requires
        map.dom().finite(),
    ensures
        kv_sum::<S, K, V>(map.insert(key, value), state) == wrap_add(
            if map.contains_key(key) {
                wrap_sub(
                    kv_sum::<S, K, V>(map, state),
                    entry_weight::<S, K, V>(key, map[key], state),
                )
            } else {
                kv_sum::<S, K, V>(map, state)
            },
            entry_weight::<S, K, V>(key, value, state),
        ),
{
    let rest = map.remove(key);
    let after = map.insert(key, value);
    let weight = map_weight::<S, K, V>(map, state);
    let new_weight = map_weight::<S, K, V>(after, state);
    assert(after.dom() =~= rest.dom().insert(key));
    lemma_sum_insert(rest.dom(), new_weight, key);
    lemma_sum_same(rest.dom(), weight, new_weight);
    if map.contains_key(key) {
        lemma_sum_remove(map.dom(), weight, key);
        assert(map.dom().remove(key) =~= rest.dom());
    } else {
        assert(map.dom() =~= rest.dom());
    }
}

/// What a removal does to the fingerprint of a map.
pub proof fn lemma_kv_remove<S, K: HashKey<S>, V: HashKey<S>>(
    map: Map<K::V, V>,
    state: S,
    key: K::V,
)
    requires
        map.dom().finite(),
        map.contains_key(key),
    ensures
        kv_sum::<S, K, V>(map.remove(key), state) == wrap_sub(
            kv_sum::<S, K, V>(map, state),
            entry_weight::<S, K, V>(key, map[key], state),
        ),
{
    let weight = map_weight::<S, K, V>(map, state);
    let rest = map.remove(key);
    lemma_sum_remove(map.dom(), weight, key);
    assert(map.dom().remove(key) =~= rest.dom());
    lemma_sum_same(rest.dom(), weight, map_weight::<S, K, V>(rest, state));
}

} // verus!
