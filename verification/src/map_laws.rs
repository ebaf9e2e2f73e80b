//! Laws on calls of the comparisons of maps: what a test for equality and a list
//! of differences say of the maps that they were given.
use crate::diff::{accounts, changed, describes, item_there, item_true, moved};
use crate::diff::{DiffItem, DiffIter};
use crate::fingerprint::{entry_weight, key_sum, key_weight, kv_sum, wrap_add};
use crate::fingerprint::{lemma_kv_insert, lemma_sum_insert};
use crate::hash_key::{HashKey, HashState};
use crate::hash_map::GenericHashMap;
use crate::hash_map_query::same_entries;
use crate::hash_width::{fmix64_spec, law_mixed_apart};
use crate::random_state::{siphash, Encode, RandomState};
use vstd::prelude::*;
use vstd::std_specs::cmp::PartialEqSpec;

verus! {

/// A test for equality that says yes speaks of maps with the same keys and equal
/// values, or of maps whose fingerprints are both valid and the same. So where
/// either fingerprint is invalid, the test says yes just where the maps are equal.
pub proof fn law_test_eq<S: HashState, K: HashKey<S>, V: PartialEq>(
    a: &GenericHashMap<K, V, S>,
    b: &GenericHashMap<K, V, S>,
    equal: bool,
)
    requires
        a.wf(),
        b.wf(),
        V::obeys_eq_spec(),
        forall|v: V| #[trigger] v.eq_spec(&v),
        call_ensures(GenericHashMap::<K, V, S>::test_eq, (a, b), equal),
    ensures
        (forall|key: K::V|
            #![trigger a@.contains_key(key)]
            #![trigger b@.contains_key(key)]
            a@.contains_key(key) == b@.contains_key(key) && (a@.contains_key(key)
                ==> a@[key].eq_spec(&b@[key]))) ==> equal,
        equal ==> (forall|key: K::V|
            #![trigger a@.contains_key(key)]
            #![trigger b@.contains_key(key)]
            a@.contains_key(key) == b@.contains_key(key) && (a@.contains_key(key)
                ==> a@[key].eq_spec(&b@[key]))) || (a.kv_merkle() is Some && b.kv_merkle() is Some
            && a.kv_merkle() == b.kv_merkle() && a.keys_merkle() == b.keys_merkle() && a.state()
            == b.state() && a@.len() == b@.len()),
{
    if forall|key: K::V|
        #![trigger a@.contains_key(key)]
        #![trigger b@.contains_key(key)]
        a@.contains_key(key) == b@.contains_key(key) && (a@.contains_key(key) ==> a@[key].eq_spec(
            &b@[key],
        )) {
        assert(a@.dom() =~= b@.dom()) by {
            assert forall|key: K::V| a@.dom().contains(key) == b@.dom().contains(key) by {
                assert(a@.contains_key(key) == b@.contains_key(key));
            }
        }
        assert(same_entries(a@, b@));
    }
    if equal && same_entries(a@, b@) {
        assert forall|key: K::V|
            #![trigger a@.contains_key(key)]
            #![trigger b@.contains_key(key)]
            a@.contains_key(key) == b@.contains_key(key) && (a@.contains_key(key)
                ==> a@[key].eq_spec(&b@[key])) by {
            assert(a@.dom().contains(key) == b@.dom().contains(key));
        }
    }
}

/// Fingerprints of keys and values see every change of one value: they stay the
/// same just where the two values have one hash.
pub proof fn law_change_seen<S, K: HashKey<S>, V: HashKey<S>>(
    map: Map<K::V, V>,
    state: S,
    key: K::V,
    value: V,
)
    requires
        map.dom().finite(),
        map.contains_key(key),
    ensures
        kv_sum::<S, K, V>(map.insert(key, value), state) == kv_sum::<S, K, V>(map, state)
            <==> V::hash_in(map[key]@, state) == V::hash_in(value@, state),
{
    lemma_kv_insert::<S, K, V>(map, state, key, value);
    if kv_sum::<S, K, V>(map.insert(key, value), state) == kv_sum::<S, K, V>(map, state) {
        assert(entry_weight::<S, K, V>(key, map[key], state) == entry_weight::<S, K, V>(
            key,
            value,
            state,
        ));
        law_mixed_apart(
            wrap_add(K::hash_in(key, state), V::hash_in(map[key]@, state)),
            wrap_add(K::hash_in(key, state), V::hash_in(value@, state)),
        );
    }
}

/// Fingerprints of keys and values see every exchange of one key: two maps that
/// have all but one entry in common, and in that one the same value, have the same
/// fingerprint just where the two keys have one hash.
pub proof fn law_exchange_seen<S, K: HashKey<S>, V: HashKey<S>>(
    map: Map<K::V, V>,
    state: S,
    a: K::V,
    b: K::V,
    value: V,
)
    requires
        map.dom().finite(),
        !map.contains_key(a),
        !map.contains_key(b),
    ensures
        kv_sum::<S, K, V>(map.insert(a, value), state) == kv_sum::<S, K, V>(
            map.insert(b, value),
            state,
        ) <==> K::hash_in(a, state) == K::hash_in(b, state),
        key_sum::<S, K>(map.dom().insert(a), state) == key_sum::<S, K>(map.dom().insert(b), state)
            <==> K::hash_in(a, state) == K::hash_in(b, state),
{
    lemma_kv_insert::<S, K, V>(map, state, a, value);
    lemma_kv_insert::<S, K, V>(map, state, b, value);
    let weight = key_weight::<S, K>(state);
    lemma_sum_insert(map.dom(), weight, a);
    lemma_sum_insert(map.dom(), weight, b);
    let (x, y) = (K::hash_in(a, state), K::hash_in(b, state));
    let value_hash = V::hash_in(value@, state);
    if fmix64_spec(wrap_add(x, value_hash)) == fmix64_spec(wrap_add(y, value_hash)) {
        law_mixed_apart(wrap_add(x, value_hash), wrap_add(y, value_hash));
    }
    if fmix64_spec(x) == fmix64_spec(y) {
        law_mixed_apart(x, y);
    }
}

/// The fingerprint of a map is that of its contents: an empty map has the
/// fingerprint zero, and an insertion of a new key adds one term.
pub proof fn law_fingerprint_terms<S, K: HashKey<S>, V: HashKey<S>>(
    map: Map<K::V, V>,
    state: S,
    key: K::V,
    value: V,
)
    requires
        map.dom().finite(),
        !map.contains_key(key),
    ensures
        kv_sum::<S, K, V>(Map::empty(), state) == 0,
        key_sum::<S, K>(Set::empty(), state) == 0,
        kv_sum::<S, K, V>(map.insert(key, value), state) == (kv_sum::<S, K, V>(map, state)
            + fmix64_spec(
            ((K::hash_in(key, state) + V::hash_in(value@, state)) % 0x1_0000_0000_0000_0000) as u64,
        )) % 0x1_0000_0000_0000_0000,
        key_sum::<S, K>(map.dom().insert(key), state) == (key_sum::<S, K>(map.dom(), state)
            + fmix64_spec(K::hash_in(key, state))) % 0x1_0000_0000_0000_0000,
{
    lemma_kv_insert::<S, K, V>(map, state, key, value);
    lemma_sum_insert(map.dom(), key_weight::<S, K>(state), key);
    let (x, y) = (K::hash_in(key, state), V::hash_in(value@, state));
    assert(wrap_add(x, y) == ((x + y) % 0x1_0000_0000_0000_0000) as u64);
}

/// A value that was changed is seen: maps that differ in the value of one key test
/// as equal only where the two values are equal, or have one hash. This holds
/// whatever lineage the maps have, as long as their fingerprints are right.
pub proof fn law_changed_value_differs<S: HashState, K: HashKey<S>, V: PartialEq + HashKey<S>>(
    a: &GenericHashMap<K, V, S>,
    b: &GenericHashMap<K, V, S>,
    key: K::V,
    value: V,
)
    requires
        a.wf(),
        b.wf(),
        a.sealed(),
        b.sealed(),
        V::obeys_eq_spec(),
        forall|v: V| #[trigger] v.eq_spec(&v),
        a@.contains_key(key),
        b@ == a@.insert(key, value),
        call_ensures(GenericHashMap::<K, V, S>::test_eq, (a, b), true),
    ensures
        a@[key].eq_spec(&value) || V::hash_in(a@[key]@, a.state()) == V::hash_in(
            value@,
            a.state(),
        ),
{
    a.lemma_map();
    law_test_eq(a, b, true);
    law_change_seen::<S, K, V>(a@, a.state(), key, value);
    if !a@[key].eq_spec(&value) {
        assert(a@.contains_key(key) && !a@[key].eq_spec(&b@[key]));
    }
}

/// The hash of a value takes in all of its bytes: values that are not the same
/// have different bytes, and they have one hash only where the keyed hash of those
/// bytes, the whole of them, is the same.
pub proof fn law_hash_of_bytes<K: Encode>(
    a: &K,
    b: &K,
    state: &RandomState,
    hash_a: u64,
    hash_b: u64,
)
    requires
        call_ensures(<K as HashKey<RandomState>>::hash_with, (a, state), hash_a),
        call_ensures(<K as HashKey<RandomState>>::hash_with, (b, state), hash_b),
    ensures
        a@ == b@ ==> hash_a == hash_b,
        a@ != b@ ==> K::encoding(a@) != K::encoding(b@),
        hash_a == hash_b ==> state.hash_bytes(K::encoding(a@)) == state.hash_bytes(
            K::encoding(b@),
        ),
{
    if K::encoding(a@) == K::encoding(b@) {
        K::law_encoding(a, b, Seq::empty(), Seq::empty());
    }
}

/// The hash of a value under a state with a given key is the keyed hash of all of
/// its bytes, and of nothing else.
pub proof fn law_keyed_hash<K: Encode>(
    key_low: u64,
    key_high: u64,
    state: RandomState,
    value: &K,
    bytes: Vec<u8>,
    hash: u64,
)
    requires
        call_ensures(RandomState::with_keys, (key_low, key_high), state),
        call_ensures(<K as Encode>::encode, (value,), bytes),
        call_ensures(<K as HashKey<RandomState>>::hash_with, (value, &state), hash),
    ensures
        hash == siphash(key_low, key_high, bytes@),
{
    assert(state.hash_bytes(bytes@) == siphash(key_low, key_high, bytes@));
}

/// Two values write the same bytes just where they are the same value.
pub proof fn law_encode<K: Encode>(a: &K, b: &K, bytes_a: Vec<u8>, bytes_b: Vec<u8>)
    requires
        call_ensures(<K as Encode>::encode, (a,), bytes_a),
        call_ensures(<K as Encode>::encode, (b,), bytes_b),
    ensures
        bytes_a@ == bytes_b@ <==> a@ == b@,
{
    if bytes_a@ == bytes_b@ {
        K::law_encoding(a, b, Seq::empty(), Seq::empty());
    }
}

/// With the default hasher, maps that differ in the value of one key test as equal
/// only where the two values are equal by `==`, are the same, or have different
/// bytes that collide under the keyed hash.
pub proof fn law_changed_bytes_differ<K: Encode, V: PartialEq + Encode>(
    a: &GenericHashMap<K, V, RandomState>,
    b: &GenericHashMap<K, V, RandomState>,
    key: K::V,
    value: V,
)
    requires
        a.wf(),
        b.wf(),
        a.sealed(),
        b.sealed(),
        V::obeys_eq_spec(),
        forall|v: V| #[trigger] v.eq_spec(&v),
        a@.contains_key(key),
        b@ == a@.insert(key, value),
        call_ensures(GenericHashMap::<K, V, RandomState>::test_eq, (a, b), true),
    ensures
        a@[key].eq_spec(&value) || a@[key]@ == value@ || (V::encoding(a@[key]@) != V::encoding(
            value@,
        ) && a.state().hash_bytes(V::encoding(a@[key]@)) == a.state().hash_bytes(
            V::encoding(value@),
        )),
{
    law_changed_value_differs(a, b, key, value);
    if V::encoding(a@[key]@) == V::encoding(value@) {
        V::law_encoding(&a@[key], &value, Seq::empty(), Seq::empty());
    }
}

/// A list of differences says what became of every key: a difference is an
/// addition, an update or a removal that is there between the maps, every key that
/// was added, changed or removed has one, and no key has two. The one exception is
/// an empty list for maps whose fingerprints are both valid and the same, which
/// are taken to be equal.
pub proof fn law_diff<'a, 'b, S: HashState, K: HashKey<S>, V: PartialEq>(
    a: &'a GenericHashMap<K, V, S>,
    b: &'b GenericHashMap<K, V, S>,
    iter: DiffIter<'a, 'b, K, V>,
)
    requires
        a.wf(),
        b.wf(),
        V::obeys_eq_spec(),
        forall|v: V| #[trigger] v.eq_spec(&v),
        call_ensures(GenericHashMap::<K, V, S>::diff, (a, b), iter),
        a.kv_merkle() is None || b.kv_merkle() is None || a.kv_merkle() != b.kv_merkle()
            || a.state() != b.state() || iter@.len() > 0,
    ensures
        forall|i: int|
            0 <= i < iter@.len() ==> match #[trigger] iter@[i] {
                DiffItem::Add(k, v) => !a@.contains_key(k@) && b@.contains_key(k@) && b@[k@] == *v,
                DiffItem::Remove(k, v) => a@.contains_key(k@) && !b@.contains_key(k@) && a@[k@]
                    == *v,
                DiffItem::Update { old, new } => old.0@ == new.0@ && a@.contains_key(old.0@)
                    && b@.contains_key(new.0@) && a@[old.0@] == *old.1 && b@[new.0@] == *new.1
                    && !(*old.1).eq_spec(new.1),
            },
        forall|key: K::V| #[trigger]
            a@.contains_key(key) && !b@.contains_key(key) ==> exists|i: int|
                0 <= i < iter@.len() && (#[trigger] iter@[i] matches DiffItem::Remove(k, _)
                    && k@ == key),
        forall|key: K::V| #[trigger]
            b@.contains_key(key) && !a@.contains_key(key) ==> exists|i: int|
                0 <= i < iter@.len() && (#[trigger] iter@[i] matches DiffItem::Add(k, _)
                    && k@ == key),
        forall|key: K::V| #[trigger]
            a@.contains_key(key) && b@.contains_key(key) && !a@[key].eq_spec(&b@[key])
                ==> exists|i: int|
                0 <= i < iter@.len() && (#[trigger] iter@[i] matches DiffItem::Update { old, .. }
                    && old.0@ == key),
        forall|i: int, j: int|
            0 <= i < j < iter@.len() ==> (#[trigger] iter@[i]).key() != (
            #[trigger] iter@[j]).key(),
{
    assert(describes(iter@, a@, b@));
    lemma_told(iter@, a@, b@);
}

/// What a list of differences tells, key by key.
proof fn lemma_told<'a, 'b, K: View, V: PartialEq>(
    items: Seq<DiffItem<'a, 'b, K, V>>,
    a: Map<K::V, V>,
    b: Map<K::V, V>,
)
    requires
        describes(items, a, b),
    ensures
        forall|i: int|
            0 <= i < items.len() ==> match #[trigger] items[i] {
                DiffItem::Add(k, v) => !a.contains_key(k@) && b.contains_key(k@) && b[k@] == *v,
                DiffItem::Remove(k, v) => a.contains_key(k@) && !b.contains_key(k@) && a[k@] == *v,
                DiffItem::Update { old, new } => old.0@ == new.0@ && a.contains_key(old.0@)
                    && b.contains_key(new.0@) && a[old.0@] == *old.1 && b[new.0@] == *new.1
                    && !(*old.1).eq_spec(new.1),
            },
        forall|key: K::V| #[trigger]
            a.contains_key(key) && !b.contains_key(key) ==> exists|i: int|
                0 <= i < items.len() && (#[trigger] items[i] matches DiffItem::Remove(k, _)
                    && k@ == key),
        forall|key: K::V| #[trigger]
            b.contains_key(key) && !a.contains_key(key) ==> exists|i: int|
                0 <= i < items.len() && (#[trigger] items[i] matches DiffItem::Add(k, _)
                    && k@ == key),
        forall|key: K::V| #[trigger]
            a.contains_key(key) && b.contains_key(key) && !a[key].eq_spec(&b[key])
                ==> exists|i: int|
                0 <= i < items.len() && (#[trigger] items[i] matches DiffItem::Update { old, .. }
                    && old.0@ == key),
{
    assert forall|i: int| 0 <= i < items.len() implies match #[trigger] items[i] {
        DiffItem::Add(k, v) => !a.contains_key(k@) && b.contains_key(k@) && b[k@] == *v,
        DiffItem::Remove(k, v) => a.contains_key(k@) && !b.contains_key(k@) && a[k@] == *v,
        DiffItem::Update { old, new } => old.0@ == new.0@ && a.contains_key(old.0@)
            && b.contains_key(new.0@) && a[old.0@] == *old.1 && b[new.0@] == *new.1
            && !(*old.1).eq_spec(new.1),
    } by {
        assert(item_true(items[i], a, b));
    }
    assert forall|key: K::V| #[trigger]
        a.contains_key(key) && !b.contains_key(key) implies exists|i: int|
        0 <= i < items.len() && (#[trigger] items[i] matches DiffItem::Remove(k, _) && k@ == key) by {
        assert(changed(a, b, key));
        let i = choose|i: int| 0 <= i < items.len() && (#[trigger] items[i]).key() == key;
        assert(item_true(items[i], a, b));
    }
    assert forall|key: K::V| #[trigger]
        b.contains_key(key) && !a.contains_key(key) implies exists|i: int|
        0 <= i < items.len() && (#[trigger] items[i] matches DiffItem::Add(k, _) && k@ == key) by {
        assert(changed(a, b, key));
        let i = choose|i: int| 0 <= i < items.len() && (#[trigger] items[i]).key() == key;
        assert(item_true(items[i], a, b));
    }
    assert forall|key: K::V| #[trigger]
        a.contains_key(key) && b.contains_key(key) && !a[key].eq_spec(&b[key]) implies exists|
        i: int,
    |
        0 <= i < items.len() && (#[trigger] items[i] matches DiffItem::Update { old, .. }
            && old.0@ == key) by {
        assert(changed(a, b, key));
        let i = choose|i: int| 0 <= i < items.len() && (#[trigger] items[i]).key() == key;
        assert(item_true(items[i], a, b));
    }
}

/// Where it is known that two maps have no lineage in common, a list of
/// differences is complete, whatever their fingerprints are.
pub proof fn law_diff_of_strangers<'a, 'b, S: HashState, K: HashKey<S>, V: PartialEq>(
    a: &'a GenericHashMap<K, V, S>,
    b: &'b GenericHashMap<K, V, S>,
    iter: DiffIter<'a, 'b, K, V>,
)
    requires
        a.wf(),
        b.wf(),
        V::obeys_eq_spec(),
        forall|v: V| #[trigger] v.eq_spec(&v),
        call_ensures(GenericHashMap::<K, V, S>::diff_with, (a, b, false), iter),
    ensures
        forall|i: int|
            0 <= i < iter@.len() ==> match #[trigger] iter@[i] {
                DiffItem::Add(k, v) => !a@.contains_key(k@) && b@.contains_key(k@) && b@[k@] == *v,
                DiffItem::Remove(k, v) => a@.contains_key(k@) && !b@.contains_key(k@) && a@[k@]
                    == *v,
                DiffItem::Update { old, new } => old.0@ == new.0@ && a@.contains_key(old.0@)
                    && b@.contains_key(new.0@) && a@[old.0@] == *old.1 && b@[new.0@] == *new.1
                    && !(*old.1).eq_spec(new.1),
            },
        forall|key: K::V| #[trigger]
            a@.contains_key(key) && !b@.contains_key(key) ==> exists|i: int|
                0 <= i < iter@.len() && (#[trigger] iter@[i] matches DiffItem::Remove(k, _)
                    && k@ == key),
        forall|key: K::V| #[trigger]
            b@.contains_key(key) && !a@.contains_key(key) ==> exists|i: int|
                0 <= i < iter@.len() && (#[trigger] iter@[i] matches DiffItem::Add(k, _)
                    && k@ == key),
        forall|key: K::V| #[trigger]
            a@.contains_key(key) && b@.contains_key(key) && !a@[key].eq_spec(&b@[key])
                ==> exists|i: int|
                0 <= i < iter@.len() && (#[trigger] iter@[i] matches DiffItem::Update { old, .. }
                    && old.0@ == key),
{
    lemma_told(iter@, a@, b@);
}

/// A list of differences tells every key that only one of the maps has, whatever
/// `==` on values says.
pub proof fn law_diff_keys<'a, 'b, S: HashState, K: HashKey<S>, V: PartialEq>(
    a: &'a GenericHashMap<K, V, S>,
    b: &'b GenericHashMap<K, V, S>,
    iter: DiffIter<'a, 'b, K, V>,
    key: K::V,
)
    requires
        a.wf(),
        b.wf(),
        call_ensures(GenericHashMap::<K, V, S>::diff, (a, b), iter),
        a.kv_merkle() is None || b.kv_merkle() is None || a.kv_merkle() != b.kv_merkle(),
    ensures
        a@.contains_key(key) && !b@.contains_key(key) ==> exists|i: int|
            0 <= i < iter@.len() && (#[trigger] iter@[i] matches DiffItem::Remove(k, _)
                && k@ == key),
        b@.contains_key(key) && !a@.contains_key(key) ==> exists|i: int|
            0 <= i < iter@.len() && (#[trigger] iter@[i] matches DiffItem::Add(k, _)
                && k@ == key),
{
    assert(accounts(iter@, a@, b@));
    if moved(a@, b@, key) {
        let i = choose|i: int| 0 <= i < iter@.len() && (#[trigger] iter@[i]).key() == key;
        assert(item_there(iter@[i], a@, b@));
    }
}

/// Maps that differ in the value of one key have a difference, unless the two
/// values are equal or have one hash. This holds whatever lineage the maps have,
/// as long as their fingerprints are right.
pub proof fn law_changed_value_told<
    'a,
    'b,
    S: HashState,
    K: HashKey<S>,
    V: PartialEq + HashKey<S>,
>(
    a: &'a GenericHashMap<K, V, S>,
    b: &'b GenericHashMap<K, V, S>,
    iter: DiffIter<'a, 'b, K, V>,
    key: K::V,
    value: V,
)
    requires
        a.wf(),
        b.wf(),
        a.sealed(),
        b.sealed(),
        V::obeys_eq_spec(),
        forall|v: V| #[trigger] v.eq_spec(&v),
        a@.contains_key(key),
        b@ == a@.insert(key, value),
        !a@[key].eq_spec(&value),
        V::hash_in(a@[key]@, a.state()) != V::hash_in(value@, a.state()),
        call_ensures(GenericHashMap::<K, V, S>::diff, (a, b), iter),
    ensures
        iter@.len() > 0,
        iter@[0] matches DiffItem::Update { old, new } && old.0@ == key && new.0@ == key
            && *old.1 == a@[key] && *new.1 == value,
{
    a.lemma_map();
    law_change_seen::<S, K, V>(a@, a.state(), key, value);
    law_diff(a, b, iter);
    assert(a@.contains_key(key) && b@.contains_key(key) && !a@[key].eq_spec(&b@[key]));
    let i = choose|i: int|
        0 <= i < iter@.len() && (#[trigger] iter@[i] matches DiffItem::Update { old, .. }
            && old.0@ == key);
    assert(iter@[i] is Update);
    assert(iter@[0] is Update);
}

} // verus!
