//! Laws on hashes of whole collections: what two of them say of the contents.
use crate::bag::GenericBag;
use crate::bimap::GenericBiMap;
use crate::codes::{lemma_fronts, lemma_low_8};
use crate::content_hash::{element_bytes, fnv, fnv_from, list_bytes, map_hash, pair_hash, set_hash};
use crate::content_hash::{bag_hash, pairs_hash, sum_bytes, viewed, FNV_PRIME};
use crate::fingerprint::{lemma_sum_insert, lemma_sum_remove, lemma_sum_same, sum, wrap_add};
use crate::hash_key::HashKey;
use crate::hash_map::GenericHashMap;
use crate::hash_multimap::GenericHashMultiMap;
use crate::hash_set::GenericHashSet;
use crate::hash_width::lemma_times;
use crate::insertion_order_map::GenericInsertionOrderMap;
use crate::insertion_order_set::GenericInsertionOrderSet;
use crate::map_iters::{keys_of, names};
use crate::random_state::{word_bytes, Encode};
use vstd::multiset::Multiset;
use vstd::prelude::*;

verus! {

/// One step of the hash of bytes tells hashes apart, and bytes.
proof fn lemma_step_apart(a: u64, b: u64, x: u8, y: u8)
    requires
        vstd::wrapping::u64_specs::wrapping_mul(a ^ (x as u64), FNV_PRIME)
            == vstd::wrapping::u64_specs::wrapping_mul(b ^ (y as u64), FNV_PRIME),
    ensures
        a ^ (x as u64) == b ^ (y as u64),
        x == y ==> a == b,
        a == b ==> x == y,
{
    let (p, q) = (a ^ (x as u64), b ^ (y as u64));
    assert((FNV_PRIME as int * 0xce965057aff6957bint) % 0x1_0000_0000_0000_0000 == 1);
    lemma_times(p, FNV_PRIME, 0xce965057aff6957bu64);
    lemma_times(q, FNV_PRIME, 0xce965057aff6957bu64);
    assert(p == q);
    assert(x == y ==> a == b) by (bit_vector)
        requires
            a ^ (x as u64) == b ^ (y as u64),
    ;
    assert(a == b ==> x == y) by (bit_vector)
        requires
            a ^ (x as u64) == b ^ (y as u64),
    ;
}

/// A hash that is carried on over the same bytes tells apart where it started.
pub proof fn law_carried_apart(a: u64, b: u64, bytes: Seq<u8>)
    requires
        fnv_from(a, bytes) == fnv_from(b, bytes),
    ensures
        a == b,
    decreases bytes.len(),
{
    if bytes.len() > 0 {
        lemma_step_apart(
            fnv_from(a, bytes.drop_last()),
            fnv_from(b, bytes.drop_last()),
            bytes.last(),
            bytes.last(),
        );
        law_carried_apart(a, b, bytes.drop_last());
    }
}

/// Runs of bytes that differ in one byte have different hashes, wherever the byte
/// stands. So a hash takes in every byte that it is given.
pub proof fn law_every_byte_counts(bytes: Seq<u8>, i: int, byte: u8)
    requires
        0 <= i < bytes.len(),
        byte != bytes[i],
    ensures
        fnv(bytes.update(i, byte)) != fnv(bytes),
{
    lemma_byte_counts(crate::content_hash::FNV_OFFSET, bytes, i, byte);
}

proof fn lemma_byte_counts(start: u64, bytes: Seq<u8>, i: int, byte: u8)
    requires
        0 <= i < bytes.len(),
        byte != bytes[i],
    ensures
        fnv_from(start, bytes.update(i, byte)) != fnv_from(start, bytes),
    decreases bytes.len(),
{
    let n = bytes.len() - 1;
    let other = bytes.update(i, byte);
    let front = bytes.drop_last();
    if fnv_from(start, other) == fnv_from(start, bytes) {
        lemma_step_apart(
            fnv_from(start, other.drop_last()),
            fnv_from(start, front),
            other.last(),
            bytes.last(),
        );
        if i < n {
            assert(other.drop_last() =~= front.update(i, byte));
            lemma_byte_counts(start, front, i, byte);
        } else {
            assert(other.drop_last() =~= front);
        }
    }
}

/// Maps with the same keys, and values with the same views, have one hash,
/// whatever their hasher states and however they came about.
pub proof fn law_hash_by_content<S, T, K: HashKey<S> + HashKey<T> + Encode, V: Encode>(
    a: &GenericHashMap<K, V, S>,
    b: &GenericHashMap<K, V, T>,
    hash_a: u64,
    hash_b: u64,
)
    requires
        a.wf(),
        b.wf(),
        a@.dom() == b@.dom(),
        forall|key: K::V| #[trigger] a@.contains_key(key) ==> a@[key]@ == b@[key]@,
        call_ensures(GenericHashMap::<K, V, S>::content_hash, (a,), hash_a),
        call_ensures(GenericHashMap::<K, V, T>::content_hash, (b,), hash_b),
    ensures
        hash_a == hash_b,
{
    assert(viewed(a@) =~= viewed(b@)) by {
        assert forall|key: K::V| viewed(a@).dom().contains(key) implies viewed(a@)[key] == viewed(
            b@,
        )[key] by {
            assert(a@.contains_key(key));
        }
    }
}

/// A size and a sum are told apart by the bytes that they make.
proof fn lemma_sum_bytes(size: nat, total: u64, other_size: nat, other_total: u64)
    requires
        size <= u64::MAX,
        other_size <= u64::MAX,
        sum_bytes(size, total) == sum_bytes(other_size, other_total),
    ensures
        size == other_size,
        total == other_total,
{
    lemma_fronts(
        word_bytes(size as u64),
        word_bytes(other_size as u64),
        word_bytes(total),
        word_bytes(other_total),
    );
    lemma_low_8(size as u64, other_size as u64);
    lemma_low_8(total, other_total);
}

/// Maps of different sizes hand different bytes to a hasher, and so do maps that
/// differ in the value of one key, unless the hashes of the two entries, each over
/// all bytes of the key and the value, are the same.
pub proof fn law_hash_input_change<S, K: HashKey<S> + Encode, V: Encode>(
    a: &GenericHashMap<K, V, S>,
    b: &GenericHashMap<K, V, S>,
    bytes_a: Vec<u8>,
    bytes_b: Vec<u8>,
    key: K::V,
    value: V,
)
    requires
        a.wf(),
        b.wf(),
        call_ensures(GenericHashMap::<K, V, S>::hash_input, (a,), bytes_a),
        call_ensures(GenericHashMap::<K, V, S>::hash_input, (b,), bytes_b),
    ensures
        bytes_a@ == bytes_b@ ==> a@.len() == b@.len(),
        a@.contains_key(key) && b@ == a@.insert(key, value) ==> (bytes_a@ == bytes_b@ <==> fnv(
            K::encoding(key) + V::encoding(a@[key]@),
        ) == fnv(K::encoding(key) + V::encoding(value@))),
{
    a.lemma_map();
    b.lemma_map();
    let (x, y) = (viewed(a@), viewed(b@));
    if bytes_a@ == bytes_b@ {
        lemma_sum_bytes(a@.len(), map_hash::<K, V>(x), b@.len(), map_hash::<K, V>(y));
    }
    if a@.contains_key(key) && b@ == a@.insert(key, value) {
        assert(b@.dom() =~= a@.dom());
        let weight_x = |k: K::V| pair_hash::<K, V>(k, x[k]);
        let weight_y = |k: K::V| pair_hash::<K, V>(k, y[k]);
        let rest = a@.dom().remove(key);
        assert(x.dom() =~= a@.dom());
        assert(y.dom() =~= a@.dom());
        lemma_sum_remove(a@.dom(), weight_x, key);
        lemma_sum_remove(a@.dom(), weight_y, key);
        lemma_sum_same(rest, weight_x, weight_y);
        assert(map_hash::<K, V>(x) == wrap_add(sum(rest, weight_x), weight_x(key)));
        assert(map_hash::<K, V>(y) == wrap_add(sum(rest, weight_x), weight_y(key)));
        assert(weight_x(key) == fnv(K::encoding(key) + V::encoding(a@[key]@)));
        assert(weight_y(key) == fnv(K::encoding(key) + V::encoding(value@)));
    }
}

/// Sets with the same elements have one hash, whatever their hasher states, and
/// sets of different sizes hand different bytes to a hasher.
pub proof fn law_set_hash<S, T, A: HashKey<S> + HashKey<T> + Encode>(
    a: &GenericHashSet<A, S>,
    b: &GenericHashSet<A, T>,
    bytes_a: Vec<u8>,
    bytes_b: Vec<u8>,
)
    requires
        a.wf(),
        b.wf(),
        call_ensures(GenericHashSet::<A, S>::hash_input, (a,), bytes_a),
        call_ensures(GenericHashSet::<A, T>::hash_input, (b,), bytes_b),
    ensures
        (forall|e: A::V| #[trigger] a@.contains(e) == b@.contains(e)) ==> bytes_a@ == bytes_b@,
        bytes_a@ == bytes_b@ ==> a@.len() == b@.len(),
{
    a.lemma_set();
    b.lemma_set();
    if forall|e: A::V| #[trigger] a@.contains(e) == b@.contains(e) {
        assert(a@ =~= b@);
    }
    if bytes_a@ == bytes_b@ {
        lemma_sum_bytes(a@.len(), set_hash::<A>(a@), b@.len(), set_hash::<A>(b@));
    }
}

/// The bytes of a list of entries, the first taken apart.
proof fn lemma_first_bytes<K: Encode, V: Encode>(list: Seq<(K::V, V)>)
    requires
        list.len() > 0,
    ensures
        list_bytes::<K, V>(list) == K::encoding(list[0].0) + V::encoding(list[0].1@) + list_bytes::<
            K,
            V,
        >(list.skip(1)),
    decreases list.len(),
{
    if list.len() == 1 {
        assert(list.drop_last() =~= Seq::<(K::V, V)>::empty());
        assert(list.skip(1) =~= Seq::<(K::V, V)>::empty());
    } else {
        lemma_first_bytes::<K, V>(list.drop_last());
        assert(list.drop_last().skip(1) =~= list.skip(1).drop_last());
    }
    assert(list_bytes::<K, V>(list) =~= K::encoding(list[0].0) + V::encoding(list[0].1@)
        + list_bytes::<K, V>(list.skip(1)));
}

/// Lists of one length that have the same bytes hold the same keys, and values
/// with the same views.
proof fn lemma_list_bytes<K: Encode, V: Encode>(
    keys_a: Seq<K>,
    keys_b: Seq<K>,
    a: Seq<(K::V, V)>,
    b: Seq<(K::V, V)>,
)
    requires
        a.len() == b.len() == keys_a.len() == keys_b.len(),
        forall|i: int| 0 <= i < a.len() ==> (#[trigger] keys_a[i])@ == a[i].0,
        forall|i: int| 0 <= i < b.len() ==> (#[trigger] keys_b[i])@ == b[i].0,
        list_bytes::<K, V>(a) == list_bytes::<K, V>(b),
    ensures
        forall|i: int| 0 <= i < a.len() ==> (#[trigger] a[i]).0 == b[i].0 && a[i].1@ == b[i].1@,
    decreases a.len(),
{
    if a.len() > 0 {
        lemma_first_bytes::<K, V>(a);
        lemma_first_bytes::<K, V>(b);
        let (rest_a, rest_b) = (list_bytes::<K, V>(a.skip(1)), list_bytes::<K, V>(b.skip(1)));
        let (value_a, value_b) = (V::encoding(a[0].1@), V::encoding(b[0].1@));
        assert(keys_a[0]@ == a[0].0 && keys_b[0]@ == b[0].0);
        assert(list_bytes::<K, V>(a) =~= K::encoding(a[0].0) + (value_a + rest_a));
        assert(list_bytes::<K, V>(b) =~= K::encoding(b[0].0) + (value_b + rest_b));
        K::law_encoding(&keys_a[0], &keys_b[0], value_a + rest_a, value_b + rest_b);
        V::law_encoding(&a[0].1, &b[0].1, rest_a, rest_b);
        let (next_a, next_b) = (a.skip(1), b.skip(1));
        let (more_a, more_b) = (keys_a.skip(1), keys_b.skip(1));
        assert forall|i: int| 0 <= i < next_a.len() implies (#[trigger] more_a[i])@
            == next_a[i].0 by {
            assert(keys_a[i + 1]@ == a[i + 1].0);
        }
        assert forall|i: int| 0 <= i < next_b.len() implies (#[trigger] more_b[i])@
            == next_b[i].0 by {
            assert(keys_b[i + 1]@ == b[i + 1].0);
        }
        lemma_list_bytes(more_a, more_b, next_a, next_b);
        assert forall|i: int| 0 <= i < a.len() implies (#[trigger] a[i]).0 == b[i].0 && a[i].1@
            == b[i].1@ by {
            if i > 0 {
                assert(next_a[i - 1].0 == next_b[i - 1].0);
            }
        }
    }
}

/// Maps in order of insertion with as many entries hand the same bytes to a hasher
/// just where they have the same keys in the same order, with values of the same
/// views.
pub proof fn law_order_hash_input<S, K: HashKey<S> + Encode, V: Encode>(
    a: &GenericInsertionOrderMap<K, V, S>,
    b: &GenericInsertionOrderMap<K, V, S>,
    bytes_a: Vec<u8>,
    bytes_b: Vec<u8>,
)
    requires
        a.wf(),
        b.wf(),
        a@.len() == b@.len(),
        call_ensures(GenericInsertionOrderMap::<K, V, S>::hash_input, (a,), bytes_a),
        call_ensures(GenericInsertionOrderMap::<K, V, S>::hash_input, (b,), bytes_b),
    ensures
        bytes_a@ == bytes_b@ <==> forall|i: int|
            0 <= i < a@.len() ==> (#[trigger] a@[i]).0 == b@[i].0 && a@[i].1@ == b@[i].1@,
{
    a.law_keys_differ();
    b.law_keys_differ();
    if bytes_a@ == bytes_b@ {
        lemma_list_bytes(a.held_keys(), b.held_keys(), a@, b@);
    }
    if forall|i: int|
        0 <= i < a@.len() ==> (#[trigger] a@[i]).0 == b@[i].0 && a@[i].1@ == b@[i].1@ {
        lemma_same_bytes::<K, V>(a@, b@);
    }
}

proof fn lemma_same_bytes<K: Encode, V: Encode>(a: Seq<(K::V, V)>, b: Seq<(K::V, V)>)
    requires
        a.len() == b.len(),
        forall|i: int| 0 <= i < a.len() ==> (#[trigger] a[i]).0 == b[i].0 && a[i].1@ == b[i].1@,
    ensures
        list_bytes::<K, V>(a) == list_bytes::<K, V>(b),
    decreases a.len(),
{
    if a.len() > 0 {
        let (x, y) = (a.drop_last(), b.drop_last());
        assert forall|i: int| 0 <= i < x.len() implies (#[trigger] x[i]).0 == y[i].0 && x[i].1@
            == y[i].1@ by {
            assert(a[i].0 == b[i].0);
        }
        lemma_same_bytes::<K, V>(x, y);
        assert(a[a.len() - 1].0 == b[b.len() - 1].0);
    }
}

/// The bytes of a list of elements, the first taken apart.
proof fn lemma_first_element<A: Encode>(list: Seq<A::V>)
    requires
        list.len() > 0,
    ensures
        element_bytes::<A>(list) == A::encoding(list[0]) + element_bytes::<A>(list.skip(1)),
    decreases list.len(),
{
    if list.len() == 1 {
        assert(list.drop_last() =~= Seq::<A::V>::empty());
        assert(list.skip(1) =~= Seq::<A::V>::empty());
    } else {
        lemma_first_element::<A>(list.drop_last());
        assert(list.drop_last().skip(1) =~= list.skip(1).drop_last());
    }
    assert(element_bytes::<A>(list) =~= A::encoding(list[0]) + element_bytes::<A>(list.skip(1)));
}

/// Lists of one length that have the same bytes hold the same elements.
proof fn lemma_element_bytes<A: Encode>(a: Seq<A>, b: Seq<A>, x: Seq<A::V>, y: Seq<A::V>)
    requires
        a.len() == b.len() == x.len() == y.len(),
        forall|i: int| 0 <= i < a.len() ==> (#[trigger] a[i])@ == x[i],
        forall|i: int| 0 <= i < b.len() ==> (#[trigger] b[i])@ == y[i],
        element_bytes::<A>(x) == element_bytes::<A>(y),
    ensures
        x == y,
    decreases a.len(),
{
    if a.len() > 0 {
        lemma_first_element::<A>(x);
        lemma_first_element::<A>(y);
        assert(a[0]@ == x[0] && b[0]@ == y[0]);
        A::law_encoding(
            &a[0],
            &b[0],
            element_bytes::<A>(x.skip(1)),
            element_bytes::<A>(y.skip(1)),
        );
        let (more_a, more_b) = (a.skip(1), b.skip(1));
        assert forall|i: int| 0 <= i < more_a.len() implies (#[trigger] more_a[i])@ == x.skip(
            1,
        )[i] by {
            assert(a[i + 1]@ == x[i + 1]);
        }
        assert forall|i: int| 0 <= i < more_b.len() implies (#[trigger] more_b[i])@ == y.skip(
            1,
        )[i] by {
            assert(b[i + 1]@ == y[i + 1]);
        }
        lemma_element_bytes(more_a, more_b, x.skip(1), y.skip(1));
        assert(x =~= seq![x[0]] + x.skip(1));
        assert(y =~= seq![y[0]] + y.skip(1));
    } else {
        assert(x =~= y);
    }
}

/// Sets in order of insertion with as many elements hand the same bytes to a hasher
/// just where they have the same elements in the same order.
pub proof fn law_order_set_hash_input<S, A: HashKey<S> + Encode>(
    a: &GenericInsertionOrderSet<A, S>,
    b: &GenericInsertionOrderSet<A, S>,
    bytes_a: Vec<u8>,
    bytes_b: Vec<u8>,
)
    requires
        a.wf(),
        b.wf(),
        a@.len() == b@.len(),
        call_ensures(GenericInsertionOrderSet::<A, S>::hash_input, (a,), bytes_a),
        call_ensures(GenericInsertionOrderSet::<A, S>::hash_input, (b,), bytes_b),
    ensures
        bytes_a@ == bytes_b@ <==> forall|i: int| 0 <= i < a@.len() ==> #[trigger] a@[i] == b@[i],
{
    a.law_elements_differ();
    b.law_elements_differ();
    if bytes_a@ == bytes_b@ {
        lemma_element_bytes(a.elements(), b.elements(), a@, b@);
    }
    if forall|i: int| 0 <= i < a@.len() ==> #[trigger] a@[i] == b@[i] {
        assert(a@ =~= b@);
    }
}

/// A hash of a whole collection is that of the bytes that the collection hands to a
/// hasher.
pub proof fn law_hash_of_input<S, K: HashKey<S> + Encode, V: Encode>(
    map: &GenericHashMap<K, V, S>,
    bytes: Vec<u8>,
    hash: u64,
)
    requires
        map.wf(),
        call_ensures(GenericHashMap::<K, V, S>::hash_input, (map,), bytes),
        call_ensures(GenericHashMap::<K, V, S>::content_hash, (map,), hash),
    ensures
        hash == fnv(bytes@),
{
}

/// What the count of one element adds to the hash of a bag.
proof fn lemma_bag_hash<A: Encode>(x: Multiset<A::V>, y: Multiset<A::V>, element: A::V)
    requires
        x.dom().finite(),
        x.dom() == y.dom(),
        x.dom().contains(element),
        forall|e: A::V| e != element ==> #[trigger] x.count(e) == y.count(e),
    ensures
        bag_hash::<A>(x) == bag_hash::<A>(y) <==> pair_hash::<A, usize>(
            element,
            x.count(element) as usize,
        ) == pair_hash::<A, usize>(element, y.count(element) as usize),
{
    let weight_x = |e: A::V| pair_hash::<A, usize>(e, x.count(e) as usize);
    let weight_y = |e: A::V| pair_hash::<A, usize>(e, y.count(e) as usize);
    let rest = x.dom().remove(element);
    lemma_sum_remove(x.dom(), weight_x, element);
    lemma_sum_remove(x.dom(), weight_y, element);
    assert forall|e: A::V| rest.contains(e) implies #[trigger] weight_x(e) == weight_y(e) by {
        assert(x.count(e) == y.count(e));
    }
    lemma_sum_same(rest, weight_x, weight_y);
    assert(bag_hash::<A>(x) == wrap_add(sum(rest, weight_x), weight_x(element)));
    assert(bag_hash::<A>(y) == wrap_add(sum(rest, weight_x), weight_y(element)));
}

/// Bags that differ at most in the count of one element hand the same bytes to a
/// hasher just where the hashes of the element with each count, over all bytes of
/// both, are the same.
pub proof fn law_bag_hash_input<S, A: HashKey<S> + Encode>(
    a: &GenericBag<A, S>,
    b: &GenericBag<A, S>,
    bytes_a: Vec<u8>,
    bytes_b: Vec<u8>,
    element: A::V,
)
    requires
        a.wf(),
        b.wf(),
        call_ensures(GenericBag::<A, S>::hash_input, (a,), bytes_a),
        call_ensures(GenericBag::<A, S>::hash_input, (b,), bytes_b),
        a@.count(element) > 0,
        b@.count(element) > 0,
        forall|e: A::V| e != element ==> #[trigger] a@.count(e) == b@.count(e),
    ensures
        bytes_a@ == bytes_b@ <==> fnv(
            A::encoding(element) + usize::encoding(a@.count(element) as usize),
        ) == fnv(A::encoding(element) + usize::encoding(b@.count(element) as usize)),
{
    broadcast use vstd::multiset::group_multiset_axioms;

    a.lemma_bag();
    let (x, y) = (a@, b@);
    assert(x.dom() =~= y.dom()) by {
        assert forall|e: A::V| x.dom().contains(e) == y.dom().contains(e) by {
            if e != element {
                assert(x.count(e) == y.count(e));
            }
        }
    }
    lemma_bag_size(*a);
    lemma_bag_hash::<A>(x, y, element);
    if bytes_a@ == bytes_b@ {
        lemma_sum_bytes(x.dom().len(), bag_hash::<A>(x), y.dom().len(), bag_hash::<A>(y));
    }
}

/// A bag has finitely many elements, no more than a word can count.
proof fn lemma_bag_size<S, A: HashKey<S>>(bag: GenericBag<A, S>)
    requires
        bag.wf(),
    ensures
        bag@.dom().finite(),
        bag@.dom().len() <= usize::MAX,
{
    bag.lemma_bag();
    let all = names(keys_of(bag.entries()));
    vstd::seq_lib::seq_to_set_is_finite(all);
    bag.lemma_size();
}

/// Multimaps that have all pairs but one in common hand the same bytes to a hasher
/// only where the hashes of the two pairs, over all bytes of key and value, are the
/// same.
pub proof fn law_multimap_hash_input<S, K: HashKey<S> + Encode, V: HashKey<S> + Encode>(
    a: &GenericHashMultiMap<K, V, S>,
    b: &GenericHashMultiMap<K, V, S>,
    bytes_a: Vec<u8>,
    bytes_b: Vec<u8>,
    rest: Set<(K::V, V::V)>,
    x: (K::V, V::V),
    y: (K::V, V::V),
)
    requires
        a.wf(),
        b.wf(),
        call_ensures(GenericHashMultiMap::<K, V, S>::hash_input, (a,), bytes_a),
        call_ensures(GenericHashMultiMap::<K, V, S>::hash_input, (b,), bytes_b),
        !rest.contains(x),
        !rest.contains(y),
        a@ == rest.insert(x),
        b@ == rest.insert(y),
    ensures
        bytes_a@ == bytes_b@ <==> fnv(K::encoding(x.0) + V::encoding(x.1)) == fnv(
            K::encoding(y.0) + V::encoding(y.1),
        ),
{
    a.lemma_multimap();
    b.lemma_multimap();
    assert(rest =~= a@.remove(x));
    let weight = |pair: (K::V, V::V)| pair_hash::<K, V>(pair.0, pair.1);
    lemma_sum_insert(rest, weight, x);
    lemma_sum_insert(rest, weight, y);
    if bytes_a@ == bytes_b@ {
        lemma_sum_bytes(a@.len(), pairs_hash::<K, V>(a@), b@.len(), pairs_hash::<K, V>(b@));
    }
    assert(a@.len() == b@.len());
}

/// Bijections that differ in the value of one key hand the same bytes to a hasher
/// only where the hashes of the two pairs, over all bytes of key and value, are the
/// same.
pub proof fn law_bimap_hash_input<S, K: HashKey<S> + Encode, V: HashKey<S> + Encode>(
    a: &GenericBiMap<K, V, S>,
    b: &GenericBiMap<K, V, S>,
    bytes_a: Vec<u8>,
    bytes_b: Vec<u8>,
    key: K::V,
    value: V::V,
)
    requires
        a.wf(),
        b.wf(),
        call_ensures(GenericBiMap::<K, V, S>::hash_input, (a,), bytes_a),
        call_ensures(GenericBiMap::<K, V, S>::hash_input, (b,), bytes_b),
        a@.contains_key(key),
        b@ == a@.insert(key, value),
    ensures
        bytes_a@ == bytes_b@ <==> fnv(K::encoding(key) + V::encoding(a@[key])) == fnv(
            K::encoding(key) + V::encoding(value),
        ),
{
    a.law_bijection();
    b.law_bijection();
    let (x, y) = (a@, b@);
    assert(y.dom() =~= x.dom());
    let weight_x = |k: K::V| pair_hash::<K, V>(k, x[k]);
    let weight_y = |k: K::V| pair_hash::<K, V>(k, y[k]);
    let rest = x.dom().remove(key);
    lemma_sum_remove(x.dom(), weight_x, key);
    lemma_sum_remove(x.dom(), weight_y, key);
    lemma_sum_same(rest, weight_x, weight_y);
    if bytes_a@ == bytes_b@ {
        lemma_sum_bytes(x.len(), map_hash::<K, V>(x), y.len(), map_hash::<K, V>(y));
    }
    assert(map_hash::<K, V>(x) == wrap_add(sum(rest, weight_x), weight_x(key)));
    assert(map_hash::<K, V>(y) == wrap_add(sum(rest, weight_x), weight_y(key)));
}

/// Sets that differ in one element hand the same bytes to a hasher only where the
/// hashes of the two elements, over all of their bytes, are the same.
pub proof fn law_set_hash_change<S, A: HashKey<S> + Encode>(
    a: &GenericHashSet<A, S>,
    b: &GenericHashSet<A, S>,
    bytes_a: Vec<u8>,
    bytes_b: Vec<u8>,
    rest: Set<A::V>,
    x: A::V,
    y: A::V,
)
    requires
        a.wf(),
        b.wf(),
        call_ensures(GenericHashSet::<A, S>::hash_input, (a,), bytes_a),
        call_ensures(GenericHashSet::<A, S>::hash_input, (b,), bytes_b),
        !rest.contains(x),
        !rest.contains(y),
        a@ == rest.insert(x),
        b@ == rest.insert(y),
    ensures
        bytes_a@ == bytes_b@ <==> fnv(A::encoding(x)) == fnv(A::encoding(y)),
{
    a.lemma_set();
    b.lemma_set();
    assert(rest =~= a@.remove(x));
    let weight = |e: A::V| fnv(A::encoding(e));
    lemma_sum_insert(rest, weight, x);
    lemma_sum_insert(rest, weight, y);
    if bytes_a@ == bytes_b@ {
        lemma_sum_bytes(a@.len(), set_hash::<A>(a@), b@.len(), set_hash::<A>(b@));
    }
    assert(a@.len() == b@.len());
}

/// The hash of each kind of collection is that of the bytes that it hands to a
/// hasher.
pub proof fn law_hashes_of_inputs<S, K: HashKey<S> + Encode, V: HashKey<S> + Encode>(
    set: &GenericHashSet<K, S>,
    bag: &GenericBag<K, S>,
    bijection: &GenericBiMap<K, V, S>,
    multimap: &GenericHashMultiMap<K, V, S>,
    list: &GenericInsertionOrderMap<K, V, S>,
    line: &GenericInsertionOrderSet<K, S>,
    bytes: Seq<Vec<u8>>,
    hashes: Seq<u64>,
)
    requires
        call_ensures(GenericHashSet::<K, S>::hash_input, (set,), bytes[0]),
        call_ensures(GenericHashSet::<K, S>::content_hash, (set,), hashes[0]),
        call_ensures(GenericBag::<K, S>::hash_input, (bag,), bytes[1]),
        call_ensures(GenericBag::<K, S>::content_hash, (bag,), hashes[1]),
        call_ensures(GenericBiMap::<K, V, S>::hash_input, (bijection,), bytes[2]),
        call_ensures(GenericBiMap::<K, V, S>::content_hash, (bijection,), hashes[2]),
        call_ensures(GenericHashMultiMap::<K, V, S>::hash_input, (multimap,), bytes[3]),
        call_ensures(GenericHashMultiMap::<K, V, S>::content_hash, (multimap,), hashes[3]),
        call_ensures(GenericInsertionOrderMap::<K, V, S>::hash_input, (list,), bytes[4]),
        call_ensures(GenericInsertionOrderMap::<K, V, S>::content_hash, (list,), hashes[4]),
        call_ensures(GenericInsertionOrderSet::<K, S>::hash_input, (line,), bytes[5]),
        call_ensures(GenericInsertionOrderSet::<K, S>::content_hash, (line,), hashes[5]),
    ensures
        forall|i: int| 0 <= i < 6 ==> #[trigger] hashes[i] == fnv(bytes[i]@),
{
}

} // verus!
