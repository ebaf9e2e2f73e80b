//! Laws on content addresses: what a digest of a map and a proof of inclusion say
//! of the entries of the map.
use crate::digest::{ascending, beside, ceil_power, collide, padded, steps_of};
use crate::digest::{trees_collide, zero_digest};
use crate::digest::{law_ceil_power, law_top_binds, law_way_binds, lemma_can_sort};
use crate::merkle_wrapper::{entry_key, leaf, leaf_bag, leaves_of, law_root_by_content};
use crate::merkle_wrapper::{DiffEntry, MerkleWrapper};
use crate::persistent_map::PersistentMap;
use crate::record::Record;
use vstd::multiset::Multiset;
use vstd::prelude::*;

verus! {

/// The bytes of a key and a value tell the entry: no other entry has them.
pub proof fn law_entry_bytes<K: Record, V: Record>(k1: K::V, v1: V::V, k2: K::V, v2: V::V)
    requires
        K::record(k1) + V::record(v1) == K::record(k2) + V::record(v2),
    ensures
        k1 == k2,
        v1 == v2,
{
    K::law_record(k1, k2, V::record(v1), V::record(v2));
    assert(V::record(v1) + Seq::<u8>::empty() =~= V::record(v1));
    assert(V::record(v2) + Seq::<u8>::empty() =~= V::record(v2));
    V::law_record(v1, v2, Seq::empty(), Seq::empty());
}

/// Entries have one leaf only where they are the same entry, or where the digests
/// of their bytes, the whole of them, collide.
pub proof fn law_leaf_binds<K: Record, V: Record>(k1: K::V, v1: V, k2: K::V, v2: V)
    requires
        leaf::<K, V>(k1, v1) == leaf::<K, V>(k2, v2),
    ensures
        (k1 == k2 && v1@ == v2@) || collide(
            K::record(k1) + V::record(v1@),
            K::record(k2) + V::record(v2@),
        ),
{
    if K::record(k1) + V::record(v1@) == K::record(k2) + V::record(v2@) {
        law_entry_bytes::<K, V>(k1, v1@, k2, v2@);
    }
}

/// A proof holds of one entry only: where one proof is accepted under one digest
/// for two entries that are not the same, two different runs of bytes collide,
/// those of the entries or those at a step of the proof. So a proof of a key with
/// a value fails for the key with another value, but for a collision.
pub proof fn law_proof_binds<C: PersistentMap<K, V>, K: Record, V: Record + Clone>(
    root: &[u8; 32],
    k1: &K,
    v1: &V,
    k2: &K,
    v2: &V,
    steps: &Vec<([u8; 32], bool)>,
)
    requires
        call_ensures(MerkleWrapper::<C, K, V>::verify_proof, (root, k1, v1, steps), true),
        call_ensures(MerkleWrapper::<C, K, V>::verify_proof, (root, k2, v2, steps), true),
        k1@ != k2@ || v1@ != v2@,
    ensures
        collide(K::record(k1@) + V::record(v1@), K::record(k2@) + V::record(v2@)) || exists|i: int|
            0 <= i < steps@.len() && collide(
                #[trigger] beside(leaf::<K, V>(k1@, *v1), steps_of(steps@), i),
                beside(leaf::<K, V>(k2@, *v2), steps_of(steps@), i),
            ),
{
    let (a, b) = (leaf::<K, V>(k1@, *v1), leaf::<K, V>(k2@, *v2));
    if a == b {
        law_leaf_binds::<K, V>(k1@, *v1, k2@, *v2);
    } else {
        law_way_binds(a, b, steps_of(steps@));
        let i = choose|i: int|
            0 <= i < steps_of(steps@).len() && collide(
                #[trigger] beside(a, steps_of(steps@), i),
                beside(b, steps_of(steps@), i),
            );
        assert(0 <= i < steps@.len());
    }
}

/// What is proved can be checked: a proof of inclusion of a key is accepted under
/// the digest of the map, for the key and every value with the view of the one
/// that the map holds.
pub proof fn law_proof_accepted<C: PersistentMap<K, V>, K: Record, V: Record + Clone>(
    map: &MerkleWrapper<C, K, V>,
    root: [u8; 32],
    key: &K,
    value: &V,
    steps: Vec<([u8; 32], bool)>,
    accepted: bool,
)
    requires
        map.valid(),
        map.contents().len() <= usize::MAX / 2,
        map.contents().contains_key(key@),
        value@ == map.contents()[key@]@,
        call_ensures(MerkleWrapper::<C, K, V>::root_hash, (map,), root),
        call_ensures(MerkleWrapper::<C, K, V>::prove_inclusion, (map, key), Some(steps)),
        call_ensures(
            MerkleWrapper::<C, K, V>::verify_proof,
            (&root, key, value, &steps),
            accepted,
        ),
    ensures
        accepted,
{
}

/// The digests of the entries of a map, listed.
proof fn lemma_listed<K: Record, V: Record>(map: Map<K::V, V>) -> (list: Seq<Seq<u8>>)
    requires
        map.dom().finite(),
    ensures
        list.to_multiset() == leaf_bag::<K, V>(map),
        list.len() == map.dom().len(),
    decreases map.dom().len(),
{
    broadcast use vstd::seq_lib::group_to_multiset_ensures;

    if map.dom().len() > 0 {
        let key = map.dom().choose();
        assert(map.remove(key).dom() =~= map.dom().remove(key));
        let rest = lemma_listed::<K, V>(map.remove(key));
        rest.push(leaf::<K, V>(key, map[key]))
    } else {
        let none = Seq::<Seq<u8>>::empty();
        assert(none.to_multiset() =~= Multiset::empty());
        none
    }
}

/// The leaves of the tree over a map are the digests of its entries.
proof fn lemma_leaves<K: Record, V: Record>(map: Map<K::V, V>)
    requires
        map.dom().finite(),
    ensures
        ascending(leaves_of::<K, V>(map)),
        leaves_of::<K, V>(map).to_multiset() == leaf_bag::<K, V>(map),
        leaves_of::<K, V>(map).len() == map.dom().len(),
{
    broadcast use vstd::seq_lib::group_to_multiset_ensures;

    let list = lemma_listed::<K, V>(map);
    let sorted = lemma_can_sort(list);
    assert(ascending(sorted) && sorted.to_multiset() == leaf_bag::<K, V>(map));
    let leaves = leaves_of::<K, V>(map);
    assert(leaves.to_multiset().len() == list.to_multiset().len());
}

/// Every leaf of a map is that of an entry.
proof fn lemma_leaf_owner<K: Record, V: Record>(map: Map<K::V, V>, hash: Seq<u8>) -> (key: K::V)
    requires
        map.dom().finite(),
        leaf_bag::<K, V>(map).count(hash) > 0,
    ensures
        map.contains_key(key),
        leaf::<K, V>(key, map[key]) == hash,
    decreases map.dom().len(),
{
    let first = map.dom().choose();
    assert(map.contains_key(first));
    if leaf::<K, V>(first, map[first]) == hash {
        first
    } else {
        let key = lemma_leaf_owner::<K, V>(map.remove(first), hash);
        key
    }
}

/// Every entry of a map has its leaf.
proof fn lemma_leaf_found<K: Record, V: Record>(map: Map<K::V, V>, key: K::V)
    requires
        map.dom().finite(),
        map.contains_key(key),
    ensures
        leaf_bag::<K, V>(map).count(leaf::<K, V>(key, map[key])) > 0,
    decreases map.dom().len(),
{
    let first = map.dom().choose();
    assert(map.contains_key(first));
    if first != key {
        lemma_leaf_found::<K, V>(map.remove(first), key);
    }
}

/// Whether two maps hold entries whose bytes are not the same and have one digest.
pub open spec fn entries_collide<K: Record, V: Record>(a: Map<K::V, V>, b: Map<K::V, V>) -> bool {
    exists|j: K::V, k: K::V|
        #![trigger a.contains_key(j), b.contains_key(k)]
        a.contains_key(j) && b.contains_key(k) && collide(
            K::record(j) + V::record(a[j]@),
            K::record(k) + V::record(b[k]@),
        )
}

/// Entries of one map that the other has not collide with one of it, where the two
/// have the same leaves.
proof fn lemma_bags_bind<K: Record, V: Record>(a: Map<K::V, V>, b: Map<K::V, V>)
    requires
        a.dom().finite(),
        b.dom().finite(),
        leaf_bag::<K, V>(a) == leaf_bag::<K, V>(b),
        !entries_collide::<K, V>(a, b),
    ensures
        forall|key: K::V| #[trigger]
            a.contains_key(key) ==> b.contains_key(key) && b[key]@ == a[key]@,
{
    assert forall|key: K::V| #[trigger] a.contains_key(key) implies b.contains_key(key)
        && b[key]@ == a[key]@ by {
        lemma_leaf_found::<K, V>(a, key);
        let other = lemma_leaf_owner::<K, V>(b, leaf::<K, V>(key, a[key]));
        law_leaf_binds::<K, V>(key, a[key], other, b[other]);
        assert(a.contains_key(key) && b.contains_key(other));
    }
}

/// Whether an entry of a map has the digest that stands for nothing.
pub open spec fn holds_zero<K: Record, V: Record>(map: Map<K::V, V>) -> bool {
    exists|key: K::V| #[trigger] map.contains_key(key) && leaf::<K, V>(key, map[key]) == zero_digest()
}

/// Lists of leaves that are the same once they are filled up are the same, or one
/// of them holds the zero digest.
proof fn lemma_padded<K: Record, V: Record>(x: Map<K::V, V>, y: Map<K::V, V>)
    requires
        x.dom().finite(),
        y.dom().finite(),
        padded(leaves_of::<K, V>(x)) == padded(leaves_of::<K, V>(y)),
        x.dom().len() < y.dom().len(),
    ensures
        holds_zero::<K, V>(y),
{
    broadcast use vstd::seq_lib::group_to_multiset_ensures;

    lemma_leaves::<K, V>(x);
    lemma_leaves::<K, V>(y);
    let (p, q) = (leaves_of::<K, V>(x), leaves_of::<K, V>(y));
    let n = p.len() as int;
    assert(padded(q)[n] == q[n]);
    assert(padded(p)[n] == zero_digest());
    assert(q.contains(q[n]));
    assert(leaf_bag::<K, V>(y).count(q[n]) > 0);
    let key = lemma_leaf_owner::<K, V>(y, q[n]);
    assert(y.contains_key(key));
}

/// The digest of a map is an address of its contents: two maps have one digest only
/// where they hold the same keys with values of the same views, or where different
/// bytes collide, those of two entries or those at one place of the two trees, or
/// where an entry has the digest that stands for nothing. This is so of maps whose
/// trees have as many leaves, maps of one size among them.
pub proof fn law_root_binds<C: PersistentMap<K, V>, K: Record, V: Record + Clone>(
    a: &MerkleWrapper<C, K, V>,
    b: &MerkleWrapper<C, K, V>,
    root: [u8; 32],
)
    requires
        a.valid(),
        b.valid(),
        a.contents().dom().finite(),
        b.contents().dom().finite(),
        a.contents().len() <= usize::MAX / 2,
        b.contents().len() <= usize::MAX / 2,
        ceil_power(a.contents().len()) == ceil_power(b.contents().len()),
        call_ensures(MerkleWrapper::<C, K, V>::root_hash, (a,), root),
        call_ensures(MerkleWrapper::<C, K, V>::root_hash, (b,), root),
    ensures
        ({
            let (x, y) = (a.contents(), b.contents());
            ||| forall|key: K::V|
                #![trigger x.contains_key(key)]
                #![trigger y.contains_key(key)]
                x.contains_key(key) == y.contains_key(key) && (x.contains_key(key) ==> x[key]@
                    == y[key]@)
            ||| entries_collide::<K, V>(x, y)
            ||| entries_collide::<K, V>(y, x)
            ||| x.len() < y.len() && holds_zero::<K, V>(y)
            ||| y.len() < x.len() && holds_zero::<K, V>(x)
            ||| trees_collide(
                padded(leaves_of::<K, V>(x)),
                padded(leaves_of::<K, V>(y)),
            )
        }),
{
    let (x, y) = (a.contents(), b.contents());
    lemma_leaves::<K, V>(x);
    lemma_leaves::<K, V>(y);
    let (p, q) = (leaves_of::<K, V>(x), leaves_of::<K, V>(y));
    law_ceil_power(p.len(), 1);
    law_ceil_power(q.len(), 1);
    assert(padded(p).len() == ceil_power(p.len()));
    assert(padded(q).len() == ceil_power(q.len()));
    if x.dom().len() == 0 {
        assert(padded(p)[0] == zero_digest());
    }
    if y.dom().len() == 0 {
        assert(padded(q)[0] == zero_digest());
    }
    law_top_binds(padded(p), padded(q));
    if padded(p) == padded(q) {
        if p.len() < q.len() {
            lemma_padded::<K, V>(x, y);
        } else if q.len() < p.len() {
            lemma_padded::<K, V>(y, x);
        } else {
            assert(padded(p).take(p.len() as int) =~= p);
            assert(padded(q).take(q.len() as int) =~= q);
            if !entries_collide::<K, V>(x, y) && !entries_collide::<K, V>(y, x) {
                lemma_bags_bind::<K, V>(x, y);
                lemma_bags_bind::<K, V>(y, x);
            }
        }
    }
}

/// Maps with the same keys and values of the same views have one digest, however
/// they came about.
pub proof fn law_root_of_contents<C: PersistentMap<K, V>, K: Record, V: Record + Clone>(
    a: &MerkleWrapper<C, K, V>,
    b: &MerkleWrapper<C, K, V>,
    root_a: [u8; 32],
    root_b: [u8; 32],
)
    requires
        a.valid(),
        b.valid(),
        a.contents().dom().finite(),
        a.contents().len() <= usize::MAX / 2,
        a.contents().dom() == b.contents().dom(),
        forall|key: K::V| #[trigger]
            a.contents().contains_key(key) ==> a.contents()[key]@ == b.contents()[key]@,
        call_ensures(MerkleWrapper::<C, K, V>::root_hash, (a,), root_a),
        call_ensures(MerkleWrapper::<C, K, V>::root_hash, (b,), root_b),
    ensures
        root_a@ == root_b@,
{
    law_root_by_content::<K, V>(a.contents(), b.contents());
}

/// The version of a map is its digest, and the map can be had at that version and
/// at no other.
pub proof fn law_checkout<C: PersistentMap<K, V>, K: Record, V: Record + Clone>(
    map: &MerkleWrapper<C, K, V>,
    version: [u8; 32],
    asked: [u8; 32],
    found: Option<MerkleWrapper<C, K, V>>,
)
    requires
        map.valid(),
        map.contents().len() <= usize::MAX / 2,
        call_ensures(MerkleWrapper::<C, K, V>::version, (map,), version),
        call_ensures(MerkleWrapper::<C, K, V>::checkout, (map, asked), found),
    ensures
        found is Some <==> asked@ == version@,
        found matches Some(m) ==> m.contents() == map.contents(),
{
}

/// From its current version to another one, a map tells each entry once as removed,
/// and from another one to the current version each entry once as inserted.
pub proof fn law_version_diff<C: PersistentMap<K, V>, K: Record, V: Record + Clone>(
    map: &MerkleWrapper<C, K, V>,
    version: [u8; 32],
    other: [u8; 32],
    gone: Vec<DiffEntry<K, V>>,
    come: Vec<DiffEntry<K, V>>,
)
    requires
        map.valid(),
        map.contents().len() <= usize::MAX / 2,
        version@ != other@,
        call_ensures(MerkleWrapper::<C, K, V>::version, (map,), version),
        call_ensures(MerkleWrapper::<C, K, V>::diff, (map, version, other), gone),
        call_ensures(MerkleWrapper::<C, K, V>::diff, (map, other, version), come),
    ensures
        gone@.len() == map.contents().len(),
        come@.len() == map.contents().len(),
        forall|i: int|
            0 <= i < gone@.len() ==> (#[trigger] gone@[i] matches DiffEntry::Removed {
                key,
                old_value,
            } && map.contents().contains_key(key@) && cloned(map.contents()[key@], old_value)),
        forall|i: int|
            0 <= i < come@.len() ==> (#[trigger] come@[i] matches DiffEntry::Inserted {
                key,
                value,
            } && map.contents().contains_key(key@) && cloned(map.contents()[key@], value)),
        forall|i: int, j: int|
            0 <= i < j < gone@.len() ==> entry_key(#[trigger] gone@[i]) != entry_key(
                #[trigger] gone@[j],
            ),
        forall|i: int, j: int|
            0 <= i < j < come@.len() ==> entry_key(#[trigger] come@[i]) != entry_key(
                #[trigger] come@[j],
            ),
{
    let map = map.contents();
    assert forall|i: int| 0 <= i < gone@.len() implies (#[trigger] gone@[i] matches DiffEntry::Removed {
        key,
        old_value,
    } && map.contains_key(key@) && cloned(map[key@], old_value)) by {
        assert(map.contains_key(entry_key(gone@[i])));
    }
    assert forall|i: int| 0 <= i < come@.len() implies (#[trigger] come@[i] matches DiffEntry::Inserted {
        key,
        value,
    } && map.contains_key(key@) && cloned(map[key@], value)) by {
        assert(map.contains_key(entry_key(come@[i])));
    }
}

/// At the current version a map gives a clone of the value of a key, where the key
/// is there, and proves what it proves without a version; at every other version it
/// gives nothing.
pub proof fn law_at_version<C: PersistentMap<K, V>, K: Record, V: Record + Clone>(
    map: &MerkleWrapper<C, K, V>,
    version: [u8; 32],
    asked: [u8; 32],
    key: &K,
    value: Option<V>,
    steps: Option<Vec<([u8; 32], bool)>>,
    accepted: bool,
)
    requires
        map.valid(),
        map.contents().len() <= usize::MAX / 2,
        call_ensures(MerkleWrapper::<C, K, V>::version, (map,), version),
        call_ensures(MerkleWrapper::<C, K, V>::get_at, (map, asked, key), value),
        call_ensures(MerkleWrapper::<C, K, V>::prove_inclusion_at, (map, asked, key), steps),
        steps matches Some(list) ==> call_ensures(
            MerkleWrapper::<C, K, V>::verify_proof,
            (&asked, key, &map.contents()[key@], &list),
            accepted,
        ),
    ensures
        value is Some <==> asked@ == version@ && map.contents().contains_key(key@),
        value matches Some(v) ==> cloned(map.contents()[key@], v),
        steps is Some <==> asked@ == version@ && map.contents().contains_key(key@),
        steps is Some ==> accepted,
{
}

} // verus!
