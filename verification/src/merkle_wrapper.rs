//! Content addresses for persistent maps.
//!
//! A map is known by a BLAKE3 digest of what it holds: the top of a binary tree
//! over the digests of its entries, which stand in order, so that the way in which
//! the map came about does not matter.
use crate::digest::{
    ascending, bytes_of, ceil_power, climbed, padded, steps_of, tree_top, way_up, zero_digest,
};
use crate::digest::{blake3_digest, law_ceil_power, law_one_order, law_way_up};
use crate::digest::{climb, digest, pad, same_digest, sort_digests, steps_from, top_of};
use crate::node::{distinct, find, key_at, lemma_find, Pair};
use crate::persistent_map::PersistentMap;
use crate::record::Record;
use crate::shared::inside;
use crate::trie::{lemma_pairs_map, lemma_seen, pairs_map};
use std::marker::PhantomData;
use vstd::multiset::Multiset;
use vstd::prelude::*;

verus! {

/// The digest of an entry: of the record of its key and that of its value.
pub open spec fn leaf<K: Record, V: Record>(key: K::V, value: V) -> Seq<u8> {
    blake3_digest(K::record(key) + V::record(value@))
}

/// The digests of the entries of a map.
pub open spec fn leaf_bag<K: Record, V: Record>(map: Map<K::V, V>) -> Multiset<Seq<u8>>
    decreases map.dom().len(),
{
    if map.dom().finite() && map.dom().len() > 0 {
        let key = map.dom().choose();
        leaf_bag::<K, V>(map.remove(key)).insert(leaf::<K, V>(key, map[key]))
    } else {
        Multiset::empty()
    }
}

/// The digests of a bag in order.
pub open spec fn in_order(bag: Multiset<Seq<u8>>) -> Seq<Seq<u8>> {
    choose|list: Seq<Seq<u8>>| #[trigger] ascending(list) && list.to_multiset() == bag
}

/// The leaves of the tree over a map.
pub open spec fn leaves_of<K: Record, V: Record>(map: Map<K::V, V>) -> Seq<Seq<u8>> {
    in_order(leaf_bag::<K, V>(map))
}

/// The digest of a map: zero where it is empty, else the top of the tree.
pub open spec fn root_of<K: Record, V: Record>(map: Map<K::V, V>) -> Seq<u8> {
    if map.dom().len() == 0 {
        zero_digest()
    } else {
        tree_top(padded(leaves_of::<K, V>(map)))
    }
}

/// One key of a map, taken apart from the others.
proof fn lemma_leaf_apart<K: Record, V: Record>(map: Map<K::V, V>, key: K::V)
    requires
        map.dom().finite(),
        map.contains_key(key),
    ensures
        leaf_bag::<K, V>(map) == leaf_bag::<K, V>(map.remove(key)).insert(
            leaf::<K, V>(key, map[key]),
        ),
    decreases map.dom().len(),
{
    let first = map.dom().choose();
    assert(map.contains_key(first));
    if first != key {
        lemma_leaf_apart::<K, V>(map.remove(first), key);
        lemma_leaf_apart::<K, V>(map.remove(key), first);
        assert(map.remove(first).remove(key) =~= map.remove(key).remove(first));
        let rest = leaf_bag::<K, V>(map.remove(key).remove(first));
        let a = leaf::<K, V>(key, map[key]);
        let b = leaf::<K, V>(first, map[first]);
        assert(rest.insert(a).insert(b) =~= rest.insert(b).insert(a));
    }
}

/// A key more is a leaf more.
proof fn lemma_leaf_more<K: Record, V: Record>(map: Map<K::V, V>, key: K::V, value: V)
    requires
        map.dom().finite(),
        !map.contains_key(key),
    ensures
        leaf_bag::<K, V>(map.insert(key, value)) == leaf_bag::<K, V>(map).insert(
            leaf::<K, V>(key, value),
        ),
{
    lemma_leaf_apart::<K, V>(map.insert(key, value), key);
    assert(map.insert(key, value).remove(key) =~= map);
}

/// Every entry of a map has its leaf.
proof fn lemma_leaf_there<K: Record, V: Record>(map: Map<K::V, V>, key: K::V)
    requires
        map.dom().finite(),
        map.contains_key(key),
    ensures
        leaf_bag::<K, V>(map).count(leaf::<K, V>(key, map[key])) > 0,
{
    lemma_leaf_apart::<K, V>(map, key);
}

/// Maps that hold the same keys with values of the same views have the same
/// leaves, and so the same digest.
pub proof fn law_root_by_content<K: Record, V: Record>(a: Map<K::V, V>, b: Map<K::V, V>)
    requires
        a.dom().finite(),
        a.dom() == b.dom(),
        forall|key: K::V| #[trigger] a.contains_key(key) ==> a[key]@ == b[key]@,
    ensures
        leaf_bag::<K, V>(a) == leaf_bag::<K, V>(b),
        root_of::<K, V>(a) == root_of::<K, V>(b),
    decreases a.dom().len(),
{
    if a.dom().len() > 0 {
        let key = a.dom().choose();
        assert(a.contains_key(key));
        assert(a.remove(key).dom() =~= b.remove(key).dom());
        assert forall|other: K::V| #[trigger] a.remove(key).contains_key(other) implies a.remove(
            key,
        )[other]@ == b.remove(key)[other]@ by {
            assert(a.contains_key(other));
        }
        law_root_by_content::<K, V>(a.remove(key), b.remove(key));
    }
}

/// A list that is in order is the one that its bag has.
proof fn lemma_in_order(list: Seq<Seq<u8>>)
    requires
        ascending(list),
    ensures
        in_order(list.to_multiset()) == list,
{
    let chosen = in_order(list.to_multiset());
    assert(ascending(chosen) && chosen.to_multiset() == list.to_multiset());
    law_one_order(chosen, list);
}

/// A proof that starts at a leaf of a map and leads along its way up ends at the
/// digest of the map.
pub proof fn law_inclusion<K: Record, V: Record>(map: Map<K::V, V>, pos: int)
    requires
        map.dom().len() > 0,
        0 <= pos < leaves_of::<K, V>(map).len(),
    ensures
        climbed(
            leaves_of::<K, V>(map)[pos],
            way_up(padded(leaves_of::<K, V>(map)), pos),
        ) == root_of::<K, V>(map),
{
    let leaves = leaves_of::<K, V>(map);
    law_ceil_power(leaves.len(), 1);
    assert(padded(leaves).len() == ceil_power(leaves.len()));
    law_way_up(padded(leaves), pos);
}

/// An entry that one version has and another does not.
pub enum DiffEntry<K, V> {
    /// The newer version has the entry.
    Inserted { key: K, value: V },
    /// The older version had the entry.
    Removed { key: K, old_value: V },
}

/// The key of a difference.
pub open spec fn entry_key<K: View, V>(entry: DiffEntry<K, V>) -> K::V {
    match entry {
        DiffEntry::Inserted { key, .. } => key@,
        DiffEntry::Removed { key, .. } => key@,
    }
}

/// The value of a difference.
pub open spec fn entry_value<K, V>(entry: DiffEntry<K, V>) -> V {
    match entry {
        DiffEntry::Inserted { value, .. } => value,
        DiffEntry::Removed { old_value, .. } => old_value,
    }
}

/// Whether differences tell each entry of a map once, all as inserted or all as
/// removed.
pub open spec fn tells_all<K: View, V: Clone>(
    entries: Seq<DiffEntry<K, V>>,
    map: Map<K::V, V>,
    inserted: bool,
) -> bool {
    &&& entries.len() == map.len()
    &&& forall|i: int|
        0 <= i < entries.len() ==> {
            &&& (#[trigger] entries[i] is Inserted) == inserted
            &&& map.contains_key(entry_key(entries[i]))
            &&& cloned(map[entry_key(entries[i])], entry_value(entries[i]))
        }
    &&& forall|i: int, j: int|
        0 <= i < j < entries.len() ==> entry_key(#[trigger] entries[i]) != entry_key(
            #[trigger] entries[j],
        )
}

/// A persistent map that is known by a digest of what it holds.
pub struct MerkleWrapper<C, K, V> {
    inner: C,
    key: PhantomData<K>,
    value: PhantomData<V>,
}

impl<C, K, V> MerkleWrapper<C, K, V> {
    /// The map inside.
    pub closed spec fn map(self) -> C {
        self.inner
    }

    /// Wraps a map.
    pub fn new(inner: C) -> (wrapper: Self)
        ensures
            wrapper.map() == inner,
    {
        MerkleWrapper { inner, key: PhantomData, value: PhantomData }
    }

    /// The map inside.
    pub fn inner(&self) -> (inner: &C)
        ensures
            *inner == self.map(),
    {
        &self.inner
    }

    /// Takes the map out.
    pub fn into_inner(self) -> (inner: C)
        ensures
            inner == self.map(),
    {
        self.inner
    }
}

impl<C: Clone, K, V> Clone for MerkleWrapper<C, K, V> {
    fn clone(&self) -> (copy: Self)
        ensures
            cloned(self.map(), copy.map()),
    {
        MerkleWrapper::new(self.inner.clone())
    }
}

impl<C: PersistentMap<K, V>, K: View, V: Clone> PersistentMap<K, V> for MerkleWrapper<C, K, V> {
    open spec fn contents(&self) -> Map<K::V, V> {
        self.map().contents()
    }

    open spec fn valid(&self) -> bool {
        self.map().valid()
    }

    fn get_cloned(&self, key: &K) -> (value: Option<V>) {
        self.inner.get_cloned(key)
    }

    fn insert(&self, key: K, value: V) -> (map: Self) {
        MerkleWrapper::new(self.inner.insert(key, value))
    }

    fn remove(&self, key: &K) -> (result: (Self, Option<V>)) {
        let (inner, removed) = self.inner.remove(key);
        (MerkleWrapper::new(inner), removed)
    }

    fn len(&self) -> (n: usize) {
        self.inner.len()
    }

    fn contains_key(&self, key: &K) -> (found: bool) {
        self.inner.contains_key(key)
    }

    fn share_map(&self) -> (map: Self) {
        MerkleWrapper::new(self.inner.share_map())
    }

    fn walk(&self) -> (pairs: Vec<Pair<K, V>>) {
        self.inner.walk()
    }
}

/// The digest of an entry.
fn leaf_hash<K: Record, V: Record>(key: &K, value: &V) -> (hash: [u8; 32])
    ensures
        hash@ == leaf::<K, V>(key@, *value),
{
    let key_bytes = key.write();
    let value_bytes = value.write();
    digest(key_bytes.as_slice(), value_bytes.as_slice())
}

/// Where a list of entries has a key.
fn entry_of<K: Record, V>(pairs: &Vec<Pair<K, V>>, key: &K) -> (found: Option<usize>)
    ensures
        match found {
            Some(i) => key_at(pairs@, i as int, key@),
            None => find(pairs@, key@) is None,
        },
{
    let mut i: usize = 0;
    while i < pairs.len()
        invariant
            i <= pairs@.len(),
            forall|j: int| 0 <= j < i ==> !#[trigger] key_at(pairs@, j, key@),
        decreases pairs@.len() - i,
    {
        if pairs[i].0.same_record(key) {
            return Some(i);
        }
        i += 1;
    }
    None
}

/// The digests of a list of entries, in order.
fn leaf_list<K: Record, V: Record>(pairs: &Vec<Pair<K, V>>) -> (leaves: Vec<[u8; 32]>)
    requires
        distinct(pairs@),
    ensures
        bytes_of(leaves@) == leaves_of::<K, V>(pairs_map(pairs@)),
        leaves@.len() == pairs@.len(),
        bytes_of(leaves@).to_multiset() == leaf_bag::<K, V>(pairs_map(pairs@)),
{
    let mut leaves: Vec<[u8; 32]> = Vec::new();
    let mut i: usize = 0;
    proof {
        lemma_seen(pairs@, 0);
        broadcast use vstd::seq_lib::group_to_multiset_ensures;

        assert(bytes_of(leaves@) =~= Seq::empty());
        assert(bytes_of(leaves@).to_multiset() =~= Multiset::empty());
    }
    while i < pairs.len()
        invariant
            i <= pairs@.len(),
            distinct(pairs@),
            leaves@.len() == i,
            bytes_of(leaves@).to_multiset() == leaf_bag::<K, V>(
                pairs_map(pairs@.take(i as int)),
            ),
        decreases pairs@.len() - i,
    {
        let ghost before = bytes_of(leaves@);
        let hash = leaf_hash(&*pairs[i].0, &*pairs[i].1);
        leaves.push(hash);
        proof {
            broadcast use vstd::seq_lib::group_to_multiset_ensures;

            let pair = pairs@[i as int];
            lemma_seen(pairs@, i as int);
            lemma_leaf_more::<K, V>(pairs_map(pairs@.take(i as int)), (*pair.0)@, inside(pair.1));
            assert(bytes_of(leaves@) =~= before.push(hash@));
        }
        i += 1;
    }
    proof {
        lemma_seen(pairs@, pairs@.len() as int);
    }
    sort_digests(&mut leaves);
    proof {
        lemma_in_order(bytes_of(leaves@));
    }
    leaves
}

/// The first place at which a list has a digest.
fn place_of(list: &Vec<[u8; 32]>, hash: &[u8; 32]) -> (place: Option<usize>)
    ensures
        match place {
            Some(i) => i < list@.len() && list@[i as int]@ == hash@,
            None => !bytes_of(list@).contains(hash@),
        },
{
    let mut i: usize = 0;
    while i < list.len()
        invariant
            i <= list@.len(),
            forall|j: int| 0 <= j < i ==> (#[trigger] list@[j])@ != hash@,
        decreases list@.len() - i,
    {
        if same_digest(&list[i], hash) {
            return Some(i);
        }
        i += 1;
    }
    None
}

impl<C: PersistentMap<K, V>, K: Record, V: Record + Clone> MerkleWrapper<C, K, V> {
    /// The digest of what the map holds: the zero digest for an empty map.
    pub fn root_hash(&self) -> (hash: [u8; 32])
        requires
            self.valid(),
            self.contents().len() <= usize::MAX / 2,
        ensures
            hash@ == root_of::<K, V>(self.contents()),
    {
        let pairs = self.inner.walk();
        proof {
            lemma_pairs_map(pairs@);
        }
        let mut leaves = leaf_list(&pairs);
        if leaves.len() == 0 {
            let zero = [0u8; 32];
            assert(zero@ =~= zero_digest());
            return zero;
        }
        proof {
            law_ceil_power(leaves@.len(), 1);
            assert(bytes_of(leaves@).len() == leaves@.len());
        }
        let ghost sorted = bytes_of(leaves@);
        pad(&mut leaves);
        assert(bytes_of(leaves@).len() == leaves@.len());
        top_of(leaves)
    }

    /// The version of the map: the digest of what it holds.
    pub fn version(&self) -> (version: [u8; 32])
        requires
            self.valid(),
            self.contents().len() <= usize::MAX / 2,
        ensures
            version@ == root_of::<K, V>(self.contents()),
    {
        self.root_hash()
    }

    /// The digest at a version, where the version is the current one.
    pub fn root_hash_at(&self, version: [u8; 32]) -> (hash: Option<[u8; 32]>)
        requires
            self.valid(),
            self.contents().len() <= usize::MAX / 2,
        ensures
            hash is Some <==> version@ == root_of::<K, V>(self.contents()),
            hash matches Some(h) ==> h@ == version@,
    {
        let current = self.root_hash();
        if same_digest(&version, &current) {
            Some(version)
        } else {
            None
        }
    }

    /// A clone of the value of a key at a version. Only the current version is
    /// known.
    pub fn get_at(&self, version: [u8; 32], key: &K) -> (value: Option<V>)
        requires
            self.valid(),
            self.contents().len() <= usize::MAX / 2,
        ensures
            match value {
                Some(v) => version@ == root_of::<K, V>(self.contents())
                    && self.contents().contains_key(key@) && cloned(self.contents()[key@], v),
                None => version@ != root_of::<K, V>(self.contents())
                    || !self.contents().contains_key(key@),
            },
    {
        let current = self.root_hash();
        if same_digest(&version, &current) {
            self.inner.get_cloned(key)
        } else {
            None
        }
    }

    /// The map at a version. Only the current version is known.
    pub fn checkout(&self, version: [u8; 32]) -> (map: Option<Self>)
        requires
            self.valid(),
            self.contents().len() <= usize::MAX / 2,
        ensures
            match map {
                Some(m) => version@ == root_of::<K, V>(self.contents()) && m.valid()
                    && m.contents() == self.contents(),
                None => version@ != root_of::<K, V>(self.contents()),
            },
    {
        let current = self.root_hash();
        if same_digest(&version, &current) {
            Some(self.share_map())
        } else {
            None
        }
    }

    /// The entries of the map as differences from or to nothing.
    fn tell(&self, inserted: bool) -> (entries: Vec<DiffEntry<K, V>>)
        requires
            self.valid(),
        ensures
            tells_all(entries@, self.contents(), inserted),
    {
        let pairs = self.inner.walk();
        let mut entries: Vec<DiffEntry<K, V>> = Vec::new();
        let ghost map = self.contents();
        let mut i: usize = 0;
        while i < pairs.len()
            invariant
                i <= pairs@.len(),
                distinct(pairs@),
                map == pairs_map(pairs@),
                entries@.len() == i,
                forall|j: int|
                    0 <= j < i ==> {
                        &&& (#[trigger] entries@[j] is Inserted) == inserted
                        &&& entry_key(entries@[j]) == (*pairs@[j].0)@
                        &&& map.contains_key(entry_key(entries@[j]))
                        &&& cloned(map[entry_key(entries@[j])], entry_value(entries@[j]))
                    },
            decreases pairs@.len() - i,
        {
            let key = pairs[i].0.duplicate();
            let value = (*pairs[i].1).clone();
            proof {
                lemma_seen(pairs@, i as int);
            }
            if inserted {
                entries.push(DiffEntry::Inserted { key, value });
            } else {
                entries.push(DiffEntry::Removed { key, old_value: value });
            }
            i += 1;
        }
        proof {
            assert forall|i: int, j: int| 0 <= i < j < entries@.len() implies entry_key(
                #[trigger] entries@[i],
            ) != entry_key(#[trigger] entries@[j]) by {
                assert((*pairs@[i].0)@ != (*pairs@[j].0)@);
            }
        }
        entries
    }

    /// The differences between two versions. Only the current version is known:
    /// every other one counts as empty.
    pub fn diff(&self, from: [u8; 32], to: [u8; 32]) -> (entries: Vec<DiffEntry<K, V>>)
        requires
            self.valid(),
            self.contents().len() <= usize::MAX / 2,
        ensures
            ({
                let current = root_of::<K, V>(self.contents());
                if from@ != to@ && from@ == current {
                    tells_all(entries@, self.contents(), false)
                } else if from@ != to@ && to@ == current {
                    tells_all(entries@, self.contents(), true)
                } else {
                    entries@.len() == 0
                }
            }),
    {
        let current = self.root_hash();
        if same_digest(&from, &to) {
            Vec::new()
        } else if same_digest(&from, &current) {
            self.tell(false)
        } else if same_digest(&to, &current) {
            self.tell(true)
        } else {
            Vec::new()
        }
    }

    /// A proof that the map holds the entry of a key: the neighbours on the way
    /// from its leaf to the top of the tree, each with whether it stands on the
    /// left. There is one just where the key is there.
    pub fn prove_inclusion(&self, key: &K) -> (steps: Option<Vec<([u8; 32], bool)>>)
        requires
            self.valid(),
            self.contents().len() <= usize::MAX / 2,
        ensures
            steps is Some <==> self.contents().contains_key(key@),
            steps matches Some(list) ==> {
                let leaves = leaves_of::<K, V>(self.contents());
                &&& exists|pos: int|
                    0 <= pos < leaves.len() && #[trigger] leaves[pos] == leaf::<K, V>(
                        key@,
                        self.contents()[key@],
                    ) && steps_of(list@) == way_up(padded(leaves), pos)
                &&& climbed(leaf::<K, V>(key@, self.contents()[key@]), steps_of(list@))
                    == root_of::<K, V>(self.contents())
            },
    {
        let ghost map = self.contents();
        let pairs = self.inner.walk();
        proof {
            lemma_pairs_map(pairs@);
        }
        let at: usize = match entry_of(&pairs, key) {
            Some(at) => at,
            None => {
                return None;
            },
        };
        proof {
            lemma_find(pairs@, at as int);
        }
        let target = leaf_hash(key, &*pairs[at].1);
        let mut leaves = leaf_list(&pairs);
        let ghost sorted = bytes_of(leaves@);
        match place_of(&leaves, &target) {
            Some(pos) => {
                proof {
                    law_ceil_power(leaves@.len(), 1);
                    law_inclusion::<K, V>(map, pos as int);
                    assert(sorted[pos as int] == leaf::<K, V>(key@, map[key@]));
                }
                pad(&mut leaves);
                assert(bytes_of(leaves@).len() == leaves@.len());
                Some(steps_from(leaves, pos))
            },
            None => {
                proof {
                    broadcast use vstd::seq_lib::group_to_multiset_ensures;

                    lemma_leaf_there::<K, V>(map, key@);
                    assert(sorted.to_multiset().count(target@) > 0);
                    assert(false);
                }
                None
            },
        }
    }

    /// A proof that the map holds the entry of a key at a version. Only the
    /// current version is known.
    pub fn prove_inclusion_at(&self, version: [u8; 32], key: &K) -> (steps: Option<
        Vec<([u8; 32], bool)>,
    >)
        requires
            self.valid(),
            self.contents().len() <= usize::MAX / 2,
        ensures
            steps is Some <==> version@ == root_of::<K, V>(self.contents())
                && self.contents().contains_key(key@),
            steps matches Some(list) ==> {
                let leaves = leaves_of::<K, V>(self.contents());
                &&& exists|pos: int|
                    0 <= pos < leaves.len() && #[trigger] leaves[pos] == leaf::<K, V>(
                        key@,
                        self.contents()[key@],
                    ) && steps_of(list@) == way_up(padded(leaves), pos)
                &&& climbed(leaf::<K, V>(key@, self.contents()[key@]), steps_of(list@)) == version@
            },
    {
        let current = self.root_hash();
        if !same_digest(&version, &current) {
            return None;
        }
        self.prove_inclusion(key)
    }

    /// Tests whether a proof leads from the entry of a key and a value to a digest.
    pub fn verify_proof(
        root_hash: &[u8; 32],
        key: &K,
        value: &V,
        steps: &Vec<([u8; 32], bool)>,
    ) -> (holds: bool)
        ensures
            holds == (climbed(leaf::<K, V>(key@, *value), steps_of(steps@)) == root_hash@),
    {
        let start = leaf_hash(key, value);
        let top = climb(start, steps);
        same_digest(&top, root_hash)
    }
}

} // verus!
