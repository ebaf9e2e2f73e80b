//! Hashes of whole collections, by what they hold alone.
//!
//! Unlike a fingerprint, such a hash does not depend on a hasher state: equal
//! collections have equal hashes. A collection hands a hasher some bytes. Where
//! it has no order, those are its size and the sum of the hashes of its entries;
//! where it has one, they are the bytes of the entries in their order.
use crate::bag::GenericBag;
use crate::bimap::{pair_names, GenericBiMap};
use crate::fingerprint::{lemma_sum_insert, lemma_sum_same, sum};
use crate::hash_key::HashKey;
use crate::hash_map::GenericHashMap;
use crate::hash_multimap::GenericHashMultiMap;
use crate::hash_set::GenericHashSet;
use crate::insertion_order_map::GenericInsertionOrderMap;
use crate::insertion_order_set::GenericInsertionOrderSet;
use crate::map_iters::names;
use crate::node::{distinct, Pair};
use crate::random_state::{push_word, word_bytes, Encode};
use crate::trie::{lemma_pairs_map, lemma_seen, pairs_map};
use vstd::multiset::Multiset;
use vstd::prelude::*;

verus! {

/// Where the hash of bytes starts.
pub const FNV_OFFSET: u64 = 0xcbf29ce484222325;

/// What the hash of bytes is multiplied by at each byte.
pub const FNV_PRIME: u64 = 0x100000001b3;

/// The hash of bytes, carried on from a hash: each byte is mixed in, then the
/// hash is multiplied.
pub open spec fn fnv_from(start: u64, bytes: Seq<u8>) -> u64
    decreases bytes.len(),
{
    if bytes.len() == 0 {
        start
    } else {
        vstd::wrapping::u64_specs::wrapping_mul(
            fnv_from(start, bytes.drop_last()) ^ (bytes.last() as u64),
            FNV_PRIME,
        )
    }
}

/// The hash of bytes.
pub open spec fn fnv(bytes: Seq<u8>) -> u64 {
    fnv_from(FNV_OFFSET, bytes)
}

/// A hash can be carried on.
proof fn lemma_carried(start: u64, a: Seq<u8>, b: Seq<u8>)
    ensures
        fnv_from(fnv_from(start, a), b) == fnv_from(start, a + b),
    decreases b.len(),
{
    if b.len() == 0 {
        assert(a + b =~= a);
    } else {
        lemma_carried(start, a, b.drop_last());
        assert((a + b).drop_last() =~= a + b.drop_last());
    }
}

/// Carries a hash on over bytes.
fn fnv_more(start: u64, bytes: &Vec<u8>) -> (hash: u64)
    ensures
        hash == fnv_from(start, bytes@),
{
    let mut hash: u64 = start;
    let mut i: usize = 0;
    while i < bytes.len()
        invariant
            i <= bytes@.len(),
            hash == fnv_from(start, bytes@.take(i as int)),
        decreases bytes@.len() - i,
    {
        proof {
            assert(bytes@.take(i + 1).drop_last() =~= bytes@.take(i as int));
        }
        hash = (hash ^ (bytes[i] as u64)).wrapping_mul(FNV_PRIME);
        i += 1;
    }
    assert(bytes@.take(bytes@.len() as int) =~= bytes@);
    hash
}

/// The hash of two values, one behind the other.
pub open spec fn pair_hash<A: Encode, B: Encode>(a: A::V, b: B::V) -> u64 {
    fnv(A::encoding(a) + B::encoding(b))
}

/// Hashes two values, one behind the other.
fn hash_pair<A: Encode, B: Encode>(a: &A, b: &B) -> (hash: u64)
    ensures
        hash == pair_hash::<A, B>(a@, b@),
{
    let first = a.encode();
    let second = b.encode();
    proof {
        lemma_carried(FNV_OFFSET, first@, second@);
    }
    fnv_more(fnv_more(FNV_OFFSET, &first), &second)
}

/// The bytes that a collection without an order hands to a hasher: its size and
/// the sum of the hashes of its entries.
pub open spec fn sum_bytes(size: nat, total: u64) -> Seq<u8> {
    word_bytes(size as u64) + word_bytes(total)
}

/// Puts a size and a sum of hashes together.
fn join_sum(size: usize, total: u64) -> (bytes: Vec<u8>)
    ensures
        bytes@ == sum_bytes(size as nat, total),
{
    let mut bytes: Vec<u8> = Vec::new();
    push_word(&mut bytes, size as u64);
    push_word(&mut bytes, total);
    proof {
        assert(bytes@ =~= sum_bytes(size as nat, total));
    }
    bytes
}

/// The sum of the hashes of the entries of a map.
pub open spec fn map_hash<A: Encode, B: Encode>(map: Map<A::V, B::V>) -> u64 {
    sum(map.dom(), |key: A::V| pair_hash::<A, B>(key, map[key]))
}

/// The sum of the hashes of the elements of a set.
pub open spec fn set_hash<A: Encode>(set: Set<A::V>) -> u64 {
    sum(set, |element: A::V| fnv(A::encoding(element)))
}

/// The sum of the hashes of the elements of a bag, each with its count.
pub open spec fn bag_hash<A: Encode>(bag: Multiset<A::V>) -> u64 {
    sum(
        bag.dom(),
        |element: A::V| pair_hash::<A, usize>(element, bag.count(element) as usize),
    )
}

/// The sum of the hashes of a set of pairs.
pub open spec fn pairs_hash<A: Encode, B: Encode>(pairs: Set<(A::V, B::V)>) -> u64 {
    sum(pairs, |pair: (A::V, B::V)| pair_hash::<A, B>(pair.0, pair.1))
}

/// What a map holds, the values by their views.
pub open spec fn viewed<M, V: View>(map: Map<M, V>) -> Map<M, V::V> {
    map.map_values(|v: V| v@)
}

/// The sum of the hashes of a list of entries.
fn hash_entries<A: Encode, B: Encode>(pairs: &Vec<Pair<A, B>>) -> (hash: u64)
    requires
        distinct(pairs@),
    ensures
        hash == map_hash::<A, B>(viewed(pairs_map(pairs@))),
{
    let ghost map = viewed(pairs_map(pairs@));
    let ghost weight = |key: A::V| pair_hash::<A, B>(key, map[key]);
    let mut total: u64 = 0;
    let mut i: usize = 0;
    proof {
        lemma_seen(pairs@, 0);
        assert(pairs_map(pairs@.take(0)).dom() =~= Set::empty());
    }
    while i < pairs.len()
        invariant
            i <= pairs@.len(),
            distinct(pairs@),
            map == viewed(pairs_map(pairs@)),
            weight == (|key: A::V| pair_hash::<A, B>(key, map[key])),
            total == sum(pairs_map(pairs@.take(i as int)).dom(), weight),
        decreases pairs@.len() - i,
    {
        let pair = &pairs[i];
        let ghost key = (*pair.0)@;
        let ghost seen = pairs_map(pairs@.take(i as int)).dom();
        proof {
            lemma_seen(pairs@, i as int);
            lemma_sum_insert(seen, weight, key);
            assert(map[key] == (*pair.1)@);
        }
        total = total.wrapping_add(hash_pair(&*pair.0, &*pair.1));
        i += 1;
        proof {
            assert(pairs_map(pairs@.take(i as int)).dom() =~= seen.insert(key));
        }
    }
    proof {
        lemma_seen(pairs@, pairs@.len() as int);
        assert(map.dom() =~= pairs_map(pairs@).dom());
    }
    total
}

impl<K, V, S> GenericHashMap<K, V, S> {
    /// The bytes that the map hands to a hasher.
    pub fn hash_input(&self) -> (bytes: Vec<u8>) where K: HashKey<S> + Encode, V: Encode
        requires
            self.wf(),
        ensures
            bytes@ == sum_bytes(self@.len(), map_hash::<K, V>(viewed(self@))),
    {
        let pairs = self.pairs();
        join_sum(self.len(), hash_entries(&pairs))
    }

    /// The hash of the contents, which does not depend on their order or on the
    /// hasher state.
    pub fn content_hash(&self) -> (hash: u64) where K: HashKey<S> + Encode, V: Encode
        requires
            self.wf(),
        ensures
            hash == fnv(sum_bytes(self@.len(), map_hash::<K, V>(viewed(self@)))),
    {
        fnv_more(FNV_OFFSET, &self.hash_input())
    }
}

impl<A, S> GenericHashSet<A, S> {
    /// The hash of the elements, which does not depend on their order or on the
    /// hasher state.
    pub fn content_hash(&self) -> (hash: u64) where A: HashKey<S> + Encode
        requires
            self.wf(),
        ensures
            hash == fnv(sum_bytes(self@.len(), set_hash::<A>(self@))),
    {
        fnv_more(FNV_OFFSET, &self.hash_input())
    }

    /// The bytes that the set hands to a hasher.
    pub fn hash_input(&self) -> (bytes: Vec<u8>) where A: HashKey<S> + Encode
        requires
            self.wf(),
        ensures
            bytes@ == sum_bytes(self@.len(), set_hash::<A>(self@)),
    {
        let pairs = self.pairs();
        let ghost weight = |element: A::V| fnv(A::encoding(element));
        let mut total: u64 = 0;
        let mut i: usize = 0;
        proof {
            lemma_seen(pairs@, 0);
            assert(pairs_map(pairs@.take(0)).dom() =~= Set::empty());
        }
        while i < pairs.len()
            invariant
                i <= pairs@.len(),
                distinct(pairs@),
                weight == (|element: A::V| fnv(A::encoding(element))),
                total == sum(pairs_map(pairs@.take(i as int)).dom(), weight),
            decreases pairs@.len() - i,
        {
            let ghost element = (*pairs@[i as int].0)@;
            let ghost seen = pairs_map(pairs@.take(i as int)).dom();
            proof {
                lemma_seen(pairs@, i as int);
                lemma_sum_insert(seen, weight, element);
            }
            let bytes = pairs[i].0.encode();
            total = total.wrapping_add(fnv_more(FNV_OFFSET, &bytes));
            i += 1;
            proof {
                assert(pairs_map(pairs@.take(i as int)).dom() =~= seen.insert(element));
            }
        }
        proof {
            lemma_seen(pairs@, pairs@.len() as int);
            self.lemma_below();
        }
        join_sum(self.len(), total)
    }
}

impl<A, S> GenericBag<A, S> {
    /// The hash of the elements and their counts.
    pub fn content_hash(&self) -> (hash: u64) where A: HashKey<S> + Encode
        requires
            self.wf(),
        ensures
            hash == fnv(sum_bytes(self@.dom().len(), bag_hash::<A>(self@))),
    {
        fnv_more(FNV_OFFSET, &self.hash_input())
    }

    /// The bytes that the bag hands to a hasher.
    pub fn hash_input(&self) -> (bytes: Vec<u8>) where A: HashKey<S> + Encode
        requires
            self.wf(),
        ensures
            bytes@ == sum_bytes(self@.dom().len(), bag_hash::<A>(self@)),
    {
        let pairs = self.iter().collect_pairs();
        let ghost map = pairs_map(pairs@);
        proof {
            self.lemma_bag();
            self.lemma_entries();
            lemma_pairs_map(pairs@);
            let a = |key: A::V| pair_hash::<A, usize>(key, viewed(map)[key]);
            let b = |element: A::V|
                pair_hash::<A, usize>(element, self@.count(element) as usize);
            assert(viewed(map).dom() =~= self@.dom());
            assert forall|element: A::V| self@.dom().contains(element) implies #[trigger] a(element)
                == b(element) by {}
            lemma_sum_same(self@.dom(), a, b);
        }
        join_sum(self.len(), hash_entries(&pairs))
    }
}

impl<K, V, S> GenericBiMap<K, V, S> {
    /// The hash of the pairs, which does not depend on their order or on the
    /// hasher states.
    pub fn content_hash(&self) -> (hash: u64) where
        K: HashKey<S> + Encode,
        V: HashKey<S> + Encode,

        requires
            self.wf(),
        ensures
            hash == fnv(sum_bytes(self@.len(), map_hash::<K, V>(self@))),
    {
        fnv_more(FNV_OFFSET, &self.hash_input())
    }

    /// The bytes that the bijection hands to a hasher.
    pub fn hash_input(&self) -> (bytes: Vec<u8>) where
        K: HashKey<S> + Encode,
        V: HashKey<S> + Encode,

        requires
            self.wf(),
        ensures
            bytes@ == sum_bytes(self@.len(), map_hash::<K, V>(self@)),
    {
        let pairs = self.iter().collect_pairs();
        proof {
            self.law_bijection();
            self.lemma_entries();
        }
        join_sum(self.len(), hash_entries(&pairs))
    }
}

/// One item more of a list without repetitions.
proof fn lemma_next_seen<T>(all: Seq<T>, i: int)
    requires
        all.no_duplicates(),
        0 <= i < all.len(),
    ensures
        all.take(i).to_set().finite(),
        !all.take(i).to_set().contains(all[i]),
        all.take(i + 1).to_set() == all.take(i).to_set().insert(all[i]),
{
    let front = all.take(i);
    let more = all.take(i + 1);
    vstd::seq_lib::seq_to_set_is_finite(front);
    assert(more =~= front.push(all[i]));
    assert forall|item: T| more.to_set().contains(item) == front.to_set().insert(
        all[i],
    ).contains(item) by {
        if more.contains(item) {
            let j = choose|j: int| 0 <= j < more.len() && more[j] == item;
            if j < i {
                assert(front[j] == item);
            }
        }
        if front.contains(item) {
            let j = choose|j: int| 0 <= j < front.len() && front[j] == item;
            assert(more[j] == item);
        }
        assert(more[i] == all[i]);
    }
    assert(more.to_set() =~= front.to_set().insert(all[i]));
    if front.contains(all[i]) {
        let j = choose|j: int| 0 <= j < front.len() && front[j] == all[i];
        assert(all[j] == all[i]);
    }
}

impl<K, V, S> GenericHashMultiMap<K, V, S> {
    /// The hash of the pairs, which does not depend on their order or on the
    /// hasher states.
    pub fn content_hash(&self) -> (hash: u64) where
        K: HashKey<S> + Encode,
        V: HashKey<S> + Encode,

        requires
            self.wf(),
        ensures
            hash == fnv(sum_bytes(self@.len(), pairs_hash::<K, V>(self@))),
    {
        fnv_more(FNV_OFFSET, &self.hash_input())
    }

    /// The bytes that the multimap hands to a hasher.
    pub fn hash_input(&self) -> (bytes: Vec<u8>) where
        K: HashKey<S> + Encode,
        V: HashKey<S> + Encode,

        requires
            self.wf(),
        ensures
            bytes@ == sum_bytes(self@.len(), pairs_hash::<K, V>(self@)),
    {
        let mut iter = self.iter();
        let ghost all = pair_names(self.pairs());
        let ghost weight = |pair: (K::V, V::V)| pair_hash::<K, V>(pair.0, pair.1);
        let mut total: u64 = 0;
        let ghost mut i: int = 0;
        proof {
            self.law_walk();
            assert(all.take(0).to_set() =~= Set::empty());
            assert(self.pairs().skip(0) =~= self.pairs());
        }
        loop
            invariant
                self.wf(),
                iter.wf(),
                0 <= i <= all.len(),
                all == pair_names(self.pairs()),
                all.no_duplicates(),
                iter@ == self.pairs().skip(i),
                weight == (|pair: (K::V, V::V)| pair_hash::<K, V>(pair.0, pair.1)),
                total == sum(all.take(i).to_set(), weight),
            ensures
                i == all.len(),
            decreases all.len() - i,
        {
            match iter.next() {
                Some((key, value)) => {
                    proof {
                        let seen = all.take(i).to_set();
                        let pair = all[i];
                        assert(pair == (key@, value@));
                        lemma_next_seen(all, i);
                        lemma_sum_insert(seen, weight, pair);
                        i = i + 1;
                    }
                    total = total.wrapping_add(hash_pair(key, value));
                },
                None => {
                    break ;
                },
            }
        }
        proof {
            self.law_walk();
            assert(all.take(all.len() as int) =~= all);
        }
        join_sum(self.len(), total)
    }
}

/// The bytes of a list of entries, one behind the other.
pub open spec fn list_bytes<K: Encode, V: Encode>(list: Seq<(K::V, V)>) -> Seq<u8>
    decreases list.len(),
{
    if list.len() == 0 {
        Seq::empty()
    } else {
        list_bytes::<K, V>(list.drop_last()) + K::encoding(list.last().0) + V::encoding(
            list.last().1@,
        )
    }
}

/// The bytes of a list of elements, one behind the other.
pub open spec fn element_bytes<A: Encode>(list: Seq<A::V>) -> Seq<u8>
    decreases list.len(),
{
    if list.len() == 0 {
        Seq::empty()
    } else {
        element_bytes::<A>(list.drop_last()) + A::encoding(list.last())
    }
}

impl<K, V, S> GenericInsertionOrderMap<K, V, S> {
    /// The hash of the entries in their order.
    pub fn content_hash(&self) -> (hash: u64) where K: HashKey<S> + Encode, V: Encode
        requires
            self.wf(),
        ensures
            hash == fnv(list_bytes::<K, V>(self@)),
    {
        fnv_more(FNV_OFFSET, &self.hash_input())
    }

    /// The bytes that the map hands to a hasher.
    pub fn hash_input(&self) -> (bytes: Vec<u8>) where K: HashKey<S> + Encode, V: Encode
        requires
            self.wf(),
        ensures
            bytes@ == list_bytes::<K, V>(self@),
    {
        let mut iter = self.iter();
        let ghost all = self@;
        let mut bytes: Vec<u8> = Vec::new();
        let ghost mut i: int = 0;
        proof {
            self.law_keys_differ();
            assert(self.slots().skip(0) =~= self.slots());
            assert(all.take(0) =~= Seq::<(K::V, V)>::empty());
        }
        loop
            invariant
                iter.wf(),
                0 <= i <= all.len(),
                all == crate::insertion_order_map::named(self.slots()),
                iter@ == self.slots().skip(i),
                bytes@ == list_bytes::<K, V>(all.take(i)),
            ensures
                i == all.len(),
            decreases all.len() - i,
        {
            match iter.next() {
                Some((key, value)) => {
                    let mut first = key.encode();
                    let mut second = value.encode();
                    proof {
                        assert(all.take(i + 1).drop_last() =~= all.take(i));
                        assert(all[i] == (key@, *value));
                        i = i + 1;
                    }
                    bytes.append(&mut first);
                    bytes.append(&mut second);
                },
                None => {
                    break ;
                },
            }
        }
        proof {
            assert(all.take(all.len() as int) =~= all);
        }
        bytes
    }
}

impl<A, S> GenericInsertionOrderSet<A, S> {
    /// The hash of the elements in their order.
    pub fn content_hash(&self) -> (hash: u64) where A: HashKey<S> + Encode
        requires
            self.wf(),
        ensures
            hash == fnv(element_bytes::<A>(self@)),
    {
        fnv_more(FNV_OFFSET, &self.hash_input())
    }

    /// The bytes that the set hands to a hasher.
    pub fn hash_input(&self) -> (bytes: Vec<u8>) where A: HashKey<S> + Encode
        requires
            self.wf(),
        ensures
            bytes@ == element_bytes::<A>(self@),
    {
        let mut iter = self.iter();
        let ghost all = self@;
        let mut bytes: Vec<u8> = Vec::new();
        let ghost mut i: int = 0;
        proof {
            self.law_elements_differ();
            assert(self.elements().skip(0) =~= self.elements());
            assert(all.take(0) =~= Seq::<A::V>::empty());
        }
        loop
            invariant
                iter.wf(),
                0 <= i <= all.len(),
                all == names(self.elements()),
                iter@ == self.elements().skip(i),
                bytes@ == element_bytes::<A>(all.take(i)),
            ensures
                i == all.len(),
            decreases all.len() - i,
        {
            match iter.next() {
                Some(element) => {
                    let mut part = element.encode();
                    proof {
                        assert(all.take(i + 1).drop_last() =~= all.take(i));
                        assert(all[i] == element@);
                        i = i + 1;
                    }
                    bytes.append(&mut part);
                },
                None => {
                    break ;
                },
            }
        }
        proof {
            assert(all.take(all.len() as int) =~= all);
        }
        bytes
    }
}

} // verus!
