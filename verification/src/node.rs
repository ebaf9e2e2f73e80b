//! Nodes of a compressed hash-array mapped prefix trie.
//!
//! An inner node keeps two bitmaps over its 32 slots: `datamap` for the slots
//! that hold an entry, `nodemap` for those that hold a child. The entries and
//! the children stand in two dense vectors. Keys whose 64 hash bits are all
//! equal end in a collision node below the last level.
//!
//! Entries and children are shared by reference count, so copying a node never
//! clones a key or a value.
use crate::bits::{bitpos, count_ones, has_bit, index, mask, on_path, rank, slot, MAX_DEPTH};
use crate::bits::{
    lemma_full_path, lemma_no_bit, lemma_path_step, lemma_rank_flag, lemma_rank_nonzero, lemma_rank_zero, lemma_set_nonzero, lemma_slot_range,
};
use crate::hash_key::HashKey;
use crate::shared::{inside, own_mut, share, unique_mut};
use crate::sparse::{
    lemma_sparse_index, lemma_sparse_insert, lemma_sparse_remove, lemma_sparse_single,
    lemma_sparse_slot, lemma_sparse_update,
};
use crate::sparse::{sparse_at, sparse_ok};
use std::sync::Arc;
use vstd::prelude::*;

verus! {

/// A shared key and its shared value.
pub type Pair<K, V> = (Arc<K>, Arc<V>);

/// A node of the trie.
pub enum ChampNode<K, V> {
    /// A node with 32 slots.
    Inner(InnerNode<K, V>),
    /// Entries whose hashes are equal.
    Collision(CollisionNode<K, V>),
}

/// A node with 32 slots, each free, an entry or a child.
pub struct InnerNode<K, V> {
    /// The slots that hold an entry.
    pub datamap: u32,
    /// The slots that hold a child.
    pub nodemap: u32,
    /// The entries, in the order of their slots.
    pub values: Vec<Pair<K, V>>,
    /// The children, in the order of their slots.
    pub children: Vec<Arc<ChampNode<K, V>>>,
}

/// Entries whose hashes are equal.
pub struct CollisionNode<K, V> {
    /// The hash of all the keys.
    pub hash: u64,
    /// The entries.
    pub entries: Vec<Pair<K, V>>,
}

/// Whether the entry at `idx` is that of key `key`.
pub open spec fn key_at<K: View, V>(pairs: Seq<Pair<K, V>>, idx: int, key: K::V) -> bool {
    0 <= idx < pairs.len() && (*pairs[idx].0)@ == key
}

/// The entry that a list of entries holds for a key.
pub open spec fn find<K: View, V>(pairs: Seq<Pair<K, V>>, key: K::V) -> Option<Pair<K, V>> {
    if exists|idx: int| key_at(pairs, idx, key) {
        Some(pairs[choose|idx: int| key_at(pairs, idx, key)])
    } else {
        None
    }
}

/// Whether no key occurs twice in a list of entries.
pub open spec fn distinct<K: View, V>(pairs: Seq<Pair<K, V>>) -> bool {
    forall|i: int, j: int|
        0 <= i < j < pairs.len() ==> (*(#[trigger] pairs[i]).0)@ != (*(#[trigger] pairs[j]).0)@
}

/// In a list without repeated keys, an entry's key finds its value.
pub(crate) proof fn lemma_find<K: View, V>(pairs: Seq<Pair<K, V>>, idx: int)
    requires
        distinct(pairs),
        0 <= idx < pairs.len(),
    ensures
        find(pairs, (*pairs[idx].0)@) == Some(pairs[idx]),
{
    let key = (*pairs[idx].0)@;
    assert(key_at(pairs, idx, key));
    let other = choose|i: int| key_at(pairs, i, key);
    assert(key_at(pairs, other, key));
    if other < idx {
        assert((*pairs[other].0)@ != (*pairs[idx].0)@);
    } else if idx < other {
        assert((*pairs[idx].0)@ != (*pairs[other].0)@);
    }
}

/// An entry of a list of entries that a key finds.
pub(crate) proof fn lemma_found<K: View, V>(pairs: Seq<Pair<K, V>>, key: K::V) -> (idx: int)
    requires
        find(pairs, key) is Some,
    ensures
        key_at(pairs, idx, key),
        find(pairs, key) == Some(pairs[idx]),
{
    choose|i: int| key_at(pairs, i, key)
}

impl<K: View, V> ChampNode<K, V> {
    /// The entry that a node at level `depth` holds for a key with a hash.
    pub open spec fn lookup(self, hash: u64, key: K::V, depth: nat) -> Option<Pair<K, V>>
        decreases self,
    {
        match self {
            ChampNode::Inner(inner) => {
                let pos = slot(hash, depth);
                let at = rank(inner.nodemap, pos as nat) as int;
                match sparse_at(inner.datamap, inner.values@, pos) {
                    Some(pair) => if (*pair.0)@ == key {
                        Some(pair)
                    } else {
                        None
                    },
                    None => if has_bit(inner.nodemap, pos) && at < inner.children@.len() {
                        inner.children@[at].lookup(hash, key, depth + 1)
                    } else {
                        None
                    },
                }
            },
            ChampNode::Collision(coll) => find(coll.entries@, key),
        }
    }

    /// The entry that a node at level `depth` holds for a key.
    pub open spec fn at<S>(self, state: S, key: K::V, depth: nat) -> Option<Pair<K, V>> where
        K: HashKey<S>,
    {
        self.lookup(K::hash_in(key, state), key, depth)
    }

    /// Whether a collision node stands in the node.
    pub open spec fn collides(self) -> bool
        decreases self,
    {
        match self {
            ChampNode::Inner(inner) => exists|i: int|
                0 <= i < inner.children@.len() && (#[trigger] inner.children@[i]).collides(),
            ChampNode::Collision(coll) => true,
        }
    }

    /// Whether the node holds at least two entries: what a child must.
    pub open spec fn big(self) -> bool {
        match self {
            ChampNode::Inner(inner) => inner.nodemap != 0 || inner.values@.len() >= 2,
            ChampNode::Collision(coll) => coll.entries@.len() >= 2,
        }
    }

    /// Whether a node stands at the end of `path` with every entry in the slot
    /// that its hash names, and in canonical form: no child could be an entry.
    pub open spec fn wf<S>(self, state: S, path: Seq<u32>) -> bool where K: HashKey<S>
        decreases self,
    {
        match self {
            ChampNode::Inner(inner) => {
                &&& path.len() < MAX_DEPTH
                &&& sparse_ok(inner.datamap, inner.values@)
                &&& sparse_ok(inner.nodemap, inner.children@)
                &&& forall|pos: u32|
                    pos < 32 ==> !(#[trigger] has_bit(inner.datamap, pos) && has_bit(
                        inner.nodemap,
                        pos,
                    ))
                &&& forall|pos: u32|
                    pos < 32 ==> (#[trigger] sparse_at(
                        inner.datamap,
                        inner.values@,
                        pos,
                    ) matches Some(pair) ==> on_path(
                        K::hash_in((*pair.0)@, state),
                        path.push(pos),
                    ))
                &&& forall|pos: u32|
                    #![trigger has_bit(inner.nodemap, pos)]
                    pos < 32 && has_bit(inner.nodemap, pos) && rank(inner.nodemap, pos as nat)
                        < inner.children@.len() ==> {
                        let child = inner.children@[rank(inner.nodemap, pos as nat) as int];
                        child.wf(state, path.push(pos)) && child.big()
                    }
            },
            ChampNode::Collision(coll) => {
                &&& path.len() == MAX_DEPTH
                &&& coll.entries@.len() >= 2
                &&& distinct(coll.entries@)
                &&& forall|i: int|
                    0 <= i < coll.entries@.len() ==> K::hash_in(
                        (*(#[trigger] coll.entries@[i]).0)@,
                        state,
                    ) == coll.hash
                &&& on_path(coll.hash, path)
            },
        }
    }
}

impl<K, V> InnerNode<K, V> {
    /// A node with all slots free.
    pub(crate) fn empty() -> (node: Self)
        ensures
            node.datamap == 0,
            node.nodemap == 0,
            node.values@ == Seq::<Pair<K, V>>::empty(),
            node.children@ == Seq::<Arc<ChampNode<K, V>>>::empty(),
    {
        InnerNode { datamap: 0, nodemap: 0, values: Vec::new(), children: Vec::new() }
    }
}

/// A node with all slots free is well formed at any level and holds nothing.
pub(crate) proof fn lemma_empty<S, K: HashKey<S>, V>(
    node: InnerNode<K, V>,
    state: S,
    path: Seq<u32>,
)
    requires
        path.len() < MAX_DEPTH,
        node.datamap == 0,
        node.nodemap == 0,
        node.values@.len() == 0,
        node.children@.len() == 0,
    ensures
        ChampNode::Inner(node).wf(state, path),
        forall|key: K::V| #[trigger]
            ChampNode::Inner(node).at(state, key, path.len()) is None,
{
    lemma_rank_zero(32);
    assert forall|pos: u32| pos < 32 implies !has_bit(0, pos) by {
        lemma_no_bit(pos);
    }
    assert forall|key: K::V| #[trigger]
        ChampNode::Inner(node).at(state, key, path.len()) is None by {
        lemma_slot_range(K::hash_in(key, state), path.len());
    }
}

impl<K, V> ChampNode<K, V> {
    /// Looks a key up in a node at level `depth`.
    pub(crate) fn get<S>(&self, hash: u64, key: &K, depth: u32, Ghost(state): Ghost<S>, Ghost(
        path,
    ): Ghost<Seq<u32>>) -> (found: Option<&Pair<K, V>>) where K: HashKey<S>
        requires
            self.wf(state, path),
            depth == path.len(),
            hash == K::hash_in(key@, state),
        ensures
            match found {
                Some(pair) => (*pair.0)@ == key@ && self.at(state, key@, depth as nat) == Some(
                    *pair,
                ),
                None => self.at(state, key@, depth as nat) is None,
            },
        decreases self,
    {
        match self {
            ChampNode::Inner(inner) => {
                let pos: u32 = mask(hash, depth);
                let bit: u32 = bitpos(pos);
                proof {
                    lemma_sparse_index(inner.datamap, inner.values@, pos);
                    lemma_sparse_index(inner.nodemap, inner.children@, pos);
                }
                if inner.datamap & bit != 0 {
                    let idx: usize = index(inner.datamap, bit, Ghost(pos));
                    let pair = &inner.values[idx];
                    if pair.0.same_key(key) {
                        Some(pair)
                    } else {
                        None
                    }
                } else if inner.nodemap & bit != 0 {
                    let idx: usize = index(inner.nodemap, bit, Ghost(pos));
                    inner.children[idx].get(
                        hash,
                        key,
                        depth + 1,
                        Ghost(state),
                        Ghost(path.push(pos)),
                    )
                } else {
                    None
                }
            },
            ChampNode::Collision(coll) => {
                match position(&coll.entries, key, Ghost(state)) {
                    Some(idx) => {
                        proof {
                            lemma_find(coll.entries@, idx as int);
                        }
                        Some(&coll.entries[idx])
                    },
                    None => None,
                }
            },
        }
    }
}

/// The index of the entry of a key in a list of entries.
pub(crate) fn position<S, K: HashKey<S>, V>(
    entries: &Vec<Pair<K, V>>,
    key: &K,
    Ghost(state): Ghost<S>,
) -> (found: Option<usize>)
    ensures
        match found {
            Some(idx) => key_at(entries@, idx as int, key@),
            None => find(entries@, key@) is None,
        },
{
    let mut i: usize = 0;
    while i < entries.len()
        invariant
            i <= entries.len(),
            forall|j: int| 0 <= j < i ==> !#[trigger] key_at(entries@, j, key@),
        decreases entries.len() - i,
    {
        if entries[i].0.same_key(key) {
            return Some(i);
        }
        i += 1;
    }
    None
}

/// A copy of a list of entries, which shares all keys and values with it.
pub(crate) fn copy_pairs<K, V>(pairs: &Vec<Pair<K, V>>) -> (copy: Vec<Pair<K, V>>)
    ensures
        copy@ == pairs@,
{
    let mut copy: Vec<Pair<K, V>> = Vec::new();
    let mut i: usize = 0;
    while i < pairs.len()
        invariant
            i <= pairs.len(),
            copy@ == pairs@.take(i as int),
        decreases pairs.len() - i,
    {
        let pair = &pairs[i];
        copy.push((share(&pair.0), share(&pair.1)));
        i += 1;
    }
    copy
}

/// A copy of a list of children, which shares all of them with it.
pub(crate) fn copy_children<K, V>(children: &Vec<Arc<ChampNode<K, V>>>) -> (copy: Vec<
    Arc<ChampNode<K, V>>,
>)
    ensures
        copy@ == children@,
{
    let mut copy: Vec<Arc<ChampNode<K, V>>> = Vec::new();
    let mut i: usize = 0;
    while i < children.len()
        invariant
            i <= children.len(),
            copy@ == children@.take(i as int),
        decreases children.len() - i,
    {
        copy.push(share(&children[i]));
        i += 1;
    }
    copy
}

/// A node of one entry, at level `depth`.
pub(crate) fn single_node<S, K: HashKey<S>, V>(
    hash: u64,
    pair: Pair<K, V>,
    depth: u32,
    Ghost(state): Ghost<S>,
    Ghost(path): Ghost<Seq<u32>>,
) -> (node: ChampNode<K, V>)
    requires
        depth == path.len(),
        depth < MAX_DEPTH,
        hash == K::hash_in((*pair.0)@, state),
        on_path(hash, path),
    ensures
        node.wf(state, path),
        forall|key: K::V| #[trigger]
            node.at(state, key, depth as nat) == if key == (*pair.0)@ {
                Some(pair)
            } else {
                None
            },
{
    let pos: u32 = mask(hash, depth);
    let bit: u32 = bitpos(pos);
    let mut values: Vec<Pair<K, V>> = Vec::new();
    values.push(pair);
    let node = ChampNode::Inner(
        InnerNode { datamap: bit, nodemap: 0, values, children: Vec::new() },
    );
    proof {
        lemma_sparse_single(pos, pair);
        assert(values@ =~= seq![pair]);
        lemma_rank_zero(32);
        lemma_path_step(hash, path, pos);
        assert forall|q: u32| q < 32 implies !has_bit(0, q) by {
            lemma_no_bit(q);
        }
        assert forall|key: K::V| #[trigger]
            node.at(state, key, depth as nat) == if key == (*pair.0)@ {
                Some(pair)
            } else {
                None
            } by {
            lemma_slot_range(K::hash_in(key, state), depth as nat);
        }
    }
    node
}

/// Whether two hashes have the same slots from a level on.
pub open spec fn same_slots(a: u64, b: u64, depth: nat) -> bool {
    forall|level: nat| depth <= level < MAX_DEPTH ==> #[trigger] slot(a, level) == slot(b, level)
}

/// Builds a node, possibly several levels deep, that holds two entries. A
/// collision node is in it just where the hashes have no slot left to tell them
/// apart.
pub(crate) fn make_sub_node<S, K: HashKey<S>, V>(
    hash_a: u64,
    entry_a: Pair<K, V>,
    hash_b: u64,
    entry_b: Pair<K, V>,
    depth: u32,
    Ghost(state): Ghost<S>,
    Ghost(path): Ghost<Seq<u32>>,
) -> (node: ChampNode<K, V>)
    requires
        depth == path.len(),
        depth <= MAX_DEPTH,
        hash_a == K::hash_in((*entry_a.0)@, state),
        hash_b == K::hash_in((*entry_b.0)@, state),
        (*entry_a.0)@ != (*entry_b.0)@,
    ensures
        on_path(hash_a, path) && on_path(hash_b, path) ==> node.wf(state, path),
        node.big(),
        forall|key: K::V| #[trigger]
            node.at(state, key, depth as nat) == if key == (*entry_a.0)@ {
                Some(entry_a)
            } else if key == (*entry_b.0)@ {
                Some(entry_b)
            } else {
                None
            },
        node.collides() == same_slots(hash_a, hash_b, depth as nat),
    decreases MAX_DEPTH - depth,
{
    if depth >= MAX_DEPTH {
        proof {
            if on_path(hash_a, path) && on_path(hash_b, path) {
                lemma_full_path(hash_a, hash_b, path);
            }
        }
        let mut entries: Vec<Pair<K, V>> = Vec::new();
        entries.push(entry_a);
        entries.push(entry_b);
        let node = ChampNode::Collision(CollisionNode { hash: hash_a, entries });
        proof {
            assert(entries@ =~= seq![entry_a, entry_b]);
            lemma_find(entries@, 0);
            lemma_find(entries@, 1);
        }
        return node;
    }
    let pos_a: u32 = mask(hash_a, depth);
    let pos_b: u32 = mask(hash_b, depth);
    proof {
        lemma_path_step(hash_a, path, pos_a);
        lemma_path_step(hash_b, path, pos_b);
        lemma_rank_zero(32);
        assert forall|q: u32| q < 32 implies !has_bit(0, q) by {
            lemma_no_bit(q);
        }
    }
    let bit_a: u32 = bitpos(pos_a);
    if pos_a == pos_b {
        let child = make_sub_node(
            hash_a,
            entry_a,
            hash_b,
            entry_b,
            depth + 1,
            Ghost(state),
            Ghost(path.push(pos_a)),
        );
        let child = Arc::new(child);
        let mut children: Vec<Arc<ChampNode<K, V>>> = Vec::new();
        children.push(child);
        let node = ChampNode::Inner(
            InnerNode { datamap: 0, nodemap: bit_a, values: Vec::new(), children },
        );
        proof {
            assert(children@ =~= seq![child]);
            assert(children@[0].collides() == child.collides());
            assert(node.collides() == child.collides());
            if same_slots(hash_a, hash_b, (depth + 1) as nat) {
                assert forall|level: nat| depth <= level < MAX_DEPTH implies #[trigger] slot(
                    hash_a,
                    level,
                ) == slot(hash_b, level) by {
                    if level == depth {
                        assert(slot(hash_a, depth as nat) == pos_a);
                    }
                }
            }
            lemma_sparse_single(pos_a, child);
            assert forall|key: K::V| #[trigger]
                node.at(state, key, depth as nat) == if key == (*entry_a.0)@ {
                    Some(entry_a)
                } else if key == (*entry_b.0)@ {
                    Some(entry_b)
                } else {
                    None
                } by {
                let hash = K::hash_in(key, state);
                lemma_slot_range(hash, depth as nat);
                let pos = slot(hash, depth as nat);
                assert(sparse_at(bit_a, children@, pos) == if pos == pos_a {
                    Some(child)
                } else {
                    None
                });
                assert(child.at(state, key, (depth + 1) as nat) == if key == (*entry_a.0)@ {
                    Some(entry_a)
                } else if key == (*entry_b.0)@ {
                    Some(entry_b)
                } else {
                    None
                });
            }
        }
        node
    } else {
        let bit_b: u32 = bitpos(pos_b);
        let mut values: Vec<Pair<K, V>> = Vec::new();
        if pos_a < pos_b {
            values.push(entry_a);
            values.push(entry_b);
        } else {
            values.push(entry_b);
            values.push(entry_a);
        }
        let node = ChampNode::Inner(
            InnerNode { datamap: bit_a | bit_b, nodemap: 0, values, children: Vec::new() },
        );
        proof {
            assert(slot(hash_a, depth as nat) != slot(hash_b, depth as nat));
            assert(!node.collides());
            lemma_sparse_single(pos_a, entry_a);
            lemma_sparse_insert(bit_a, seq![entry_a], pos_b, entry_b);
            lemma_sparse_index(bit_a, seq![entry_a], pos_b);
            lemma_rank_flag(pos_a, pos_b as nat);
            assert(values@ =~= seq![entry_a].insert(
                rank(bit_a, pos_b as nat) as int,
                entry_b,
            ));
            assert forall|key: K::V| #[trigger]
                node.at(state, key, depth as nat) == if key == (*entry_a.0)@ {
                    Some(entry_a)
                } else if key == (*entry_b.0)@ {
                    Some(entry_b)
                } else {
                    None
                } by {
                lemma_slot_range(K::hash_in(key, state), depth as nat);
            }
        }
        node
    }
}

/// A node that differs from a well-formed one in one slot only.
pub(crate) proof fn lemma_inner_step<S, K: HashKey<S>, V>(
    before: InnerNode<K, V>,
    after: InnerNode<K, V>,
    state: S,
    path: Seq<u32>,
    pos: u32,
)
    requires
        ChampNode::Inner(before).wf(state, path),
        pos < 32,
        sparse_ok(after.datamap, after.values@),
        sparse_ok(after.nodemap, after.children@),
        forall|q: u32|
            q < 32 && q != pos ==> #[trigger] sparse_at(after.datamap, after.values@, q)
                == sparse_at(before.datamap, before.values@, q),
        forall|q: u32|
            q < 32 && q != pos ==> #[trigger] sparse_at(after.nodemap, after.children@, q)
                == sparse_at(before.nodemap, before.children@, q),
        !has_bit(after.datamap, pos) || !has_bit(after.nodemap, pos),
        sparse_at(after.datamap, after.values@, pos) matches Some(pair) ==> on_path(
            K::hash_in((*pair.0)@, state),
            path.push(pos),
        ),
        sparse_at(after.nodemap, after.children@, pos) matches Some(child) ==> child.wf(
            state,
            path.push(pos),
        ) && child.big(),
    ensures
        ChampNode::Inner(after).wf(state, path),
        forall|key: K::V| #[trigger]
            slot(K::hash_in(key, state), path.len()) != pos ==> ChampNode::Inner(after).at(
                state,
                key,
                path.len(),
            ) == ChampNode::Inner(before).at(state, key, path.len()),
{
    assert forall|q: u32| q < 32 implies {
        &&& has_bit(after.datamap, q) <==> sparse_at(after.datamap, after.values@, q) is Some
        &&& has_bit(after.nodemap, q) <==> sparse_at(after.nodemap, after.children@, q) is Some
        &&& has_bit(before.datamap, q) <==> sparse_at(before.datamap, before.values@, q) is Some
        &&& has_bit(before.nodemap, q) <==> sparse_at(before.nodemap, before.children@, q) is Some
    } by {
        lemma_sparse_index(after.datamap, after.values@, q);
        lemma_sparse_index(after.nodemap, after.children@, q);
        lemma_sparse_index(before.datamap, before.values@, q);
        lemma_sparse_index(before.nodemap, before.children@, q);
    }
    assert forall|key: K::V| #[trigger]
        slot(K::hash_in(key, state), path.len()) != pos implies ChampNode::Inner(after).at(
        state,
        key,
        path.len(),
    ) == ChampNode::Inner(before).at(state, key, path.len()) by {
        let q = slot(K::hash_in(key, state), path.len());
        lemma_slot_range(K::hash_in(key, state), path.len());
        assert(sparse_at(after.datamap, after.values@, q) == sparse_at(
            before.datamap,
            before.values@,
            q,
        ));
        assert(sparse_at(after.nodemap, after.children@, q) == sparse_at(
            before.nodemap,
            before.children@,
            q,
        ));
    }
}

/// The entry that slot `pos` of a node at level `depth` holds for a key.
pub open spec fn slot_entry<S, K: HashKey<S>, V>(
    inner: InnerNode<K, V>,
    state: S,
    pos: u32,
    key: K::V,
    depth: nat,
) -> Option<Pair<K, V>> {
    match sparse_at(inner.datamap, inner.values@, pos) {
        Some(pair) => if (*pair.0)@ == key {
            Some(pair)
        } else {
            None
        },
        None => match sparse_at(inner.nodemap, inner.children@, pos) {
            Some(child) => child.at(state, key, depth + 1),
            None => None,
        },
    }
}

/// What an insertion does to what a node holds.
pub open spec fn inserted<S, K: HashKey<S>, V>(
    before: ChampNode<K, V>,
    after: ChampNode<K, V>,
    state: S,
    depth: nat,
    pair: Pair<K, V>,
) -> bool {
    forall|other: K::V| #[trigger]
        after.at(state, other, depth) == if other == (*pair.0)@ {
            Some(pair)
        } else {
            before.at(state, other, depth)
        }
}

/// A node in which one slot, that of a key, gained an entry.
proof fn lemma_inner_insert<S, K: HashKey<S>, V>(
    before: InnerNode<K, V>,
    after: InnerNode<K, V>,
    state: S,
    path: Seq<u32>,
    pos: u32,
    pair: Pair<K, V>,
)
    requires
        slot(K::hash_in((*pair.0)@, state), path.len()) == pos,
        forall|other: K::V| #[trigger]
            slot(K::hash_in(other, state), path.len()) != pos ==> ChampNode::Inner(after).at(
                state,
                other,
                path.len(),
            ) == ChampNode::Inner(before).at(state, other, path.len()),
        forall|other: K::V| #[trigger]
            slot_entry(after, state, pos, other, path.len()) == if other == (*pair.0)@ {
                Some(pair)
            } else {
                slot_entry(before, state, pos, other, path.len())
            },
    ensures
        inserted(
            ChampNode::Inner(before),
            ChampNode::Inner(after),
            state,
            path.len(),
            pair,
        ),
{
    assert forall|other: K::V| #[trigger]
        ChampNode::Inner(after).at(state, other, path.len()) == if other == (*pair.0)@ {
            Some(pair)
        } else {
            ChampNode::Inner(before).at(state, other, path.len())
        } by {
        let q = slot(K::hash_in(other, state), path.len());
        if q == pos {
            assert(ChampNode::Inner(after).at(state, other, path.len()) == slot_entry(
                after,
                state,
                pos,
                other,
                path.len(),
            ));
            assert(ChampNode::Inner(before).at(state, other, path.len()) == slot_entry(
                before,
                state,
                pos,
                other,
                path.len(),
            ));
        }
    }
}

/// A node in which one slot changed, but not what it holds.
proof fn lemma_inner_same<S, K: HashKey<S>, V>(
    before: InnerNode<K, V>,
    after: InnerNode<K, V>,
    state: S,
    path: Seq<u32>,
    pos: u32,
)
    requires
        forall|other: K::V| #[trigger]
            slot(K::hash_in(other, state), path.len()) != pos ==> ChampNode::Inner(after).at(
                state,
                other,
                path.len(),
            ) == ChampNode::Inner(before).at(state, other, path.len()),
        forall|other: K::V| #[trigger]
            slot_entry(after, state, pos, other, path.len()) == slot_entry(
                before,
                state,
                pos,
                other,
                path.len(),
            ),
    ensures
        forall|other: K::V| #[trigger]
            ChampNode::Inner(after).at(state, other, path.len()) == ChampNode::Inner(before).at(
                state,
                other,
                path.len(),
            ),
{
    assert forall|other: K::V| #[trigger]
        ChampNode::Inner(after).at(state, other, path.len()) == ChampNode::Inner(before).at(
            state,
            other,
            path.len(),
        ) by {
        if slot(K::hash_in(other, state), path.len()) == pos {
            assert(slot_entry(after, state, pos, other, path.len()) == slot_entry(
                before,
                state,
                pos,
                other,
                path.len(),
            ));
        }
    }
}

/// What a replaced value says of what a node held.
pub open spec fn replaces<K, V>(replaced: Option<Arc<V>>, held: Option<Pair<K, V>>) -> bool {
    match replaced {
        Some(value) => held matches Some(pair) && pair.1 == value,
        None => held is None,
    }
}

/// What a collision node holds after an insertion into its entries.
proof fn lemma_collision_insert<S, K: HashKey<S>, V>(
    before: CollisionNode<K, V>,
    after: CollisionNode<K, V>,
    state: S,
    path: Seq<u32>,
    found: Option<usize>,
    pair: Pair<K, V>,
)
    requires
        ChampNode::Collision(before).wf(state, path),
        on_path(K::hash_in((*pair.0)@, state), path),
        after.hash == before.hash,
        match found {
            Some(idx) => key_at(before.entries@, idx as int, (*pair.0)@) && after.entries@
                == before.entries@.update(idx as int, pair),
            None => find(before.entries@, (*pair.0)@) is None && after.entries@
                == before.entries@.push(pair),
        },
    ensures
        ChampNode::Collision(after).wf(state, path),
        inserted(
            ChampNode::Collision(before),
            ChampNode::Collision(after),
            state,
            path.len(),
            pair,
        ),
{
    let key = (*pair.0)@;
    lemma_full_path(K::hash_in(key, state), before.hash, path);
    let old_entries = before.entries@;
    let new_entries = after.entries@;
    let at: int = match found {
        Some(idx) => idx as int,
        None => old_entries.len() as int,
    };
    if found is None {
        assert forall|i: int| 0 <= i < old_entries.len() implies (*(
        #[trigger] old_entries[i]).0)@ != key by {
            if (*old_entries[i].0)@ == key {
                assert(key_at(old_entries, i, key));
            }
        }
    }
    assert(distinct(new_entries)) by {
        assert forall|i: int, j: int| 0 <= i < j < new_entries.len() implies (*(
        #[trigger] new_entries[i]).0)@ != (*(#[trigger] new_entries[j]).0)@ by {
            if i != at && j != at {
                assert((*old_entries[i].0)@ != (*old_entries[j].0)@);
            } else if found is Some {
                assert((*old_entries[i].0)@ != (*old_entries[j].0)@);
            }
        }
    }
    assert forall|other: K::V| #[trigger] find(new_entries, other) == if other == key {
        Some(pair)
    } else {
        find(old_entries, other)
    } by {
        if other == key {
            lemma_find(new_entries, at);
        } else {
            if find(old_entries, other) is Some {
                let i = lemma_found(old_entries, other);
                assert(new_entries[i] == old_entries[i]);
                lemma_find(new_entries, i);
            }
            if find(new_entries, other) is Some {
                let i = lemma_found(new_entries, other);
                assert(key_at(old_entries, i, other));
            }
        }
    }
}

impl<K, V> ChampNode<K, V> {
    /// Inserts an entry and returns the new node, with the value that it
    /// replaces. The node itself is left as it is.
    pub(crate) fn insert_with_hasher<S>(
        &self,
        hasher: &S,
        hash: u64,
        key: Arc<K>,
        value: Arc<V>,
        depth: u32,
        Ghost(path): Ghost<Seq<u32>>,
    ) -> (result: (Arc<Self>, Option<Arc<V>>)) where K: HashKey<S>
        requires
            self.wf(*hasher, path),
            depth == path.len(),
            hash == K::hash_in((*key)@, *hasher),
            on_path(hash, path),
        ensures
            result.0.wf(*hasher, path),
            self.big() ==> result.0.big(),
            inserted(*self, *result.0, *hasher, depth as nat, (key, value)),
            replaces(result.1, self.at(*hasher, (*key)@, depth as nat)),
        decreases self,
    {
        let ghost state = *hasher;
        let ghost entry = (key, value);
        match self {
            ChampNode::Inner(inner) => {
                let pos: u32 = mask(hash, depth);
                let bit: u32 = bitpos(pos);
                proof {
                    lemma_sparse_index(inner.datamap, inner.values@, pos);
                    lemma_sparse_index(inner.nodemap, inner.children@, pos);
                    lemma_path_step(hash, path, pos);
                }
                if inner.datamap & bit != 0 {
                    let idx: usize = index(inner.datamap, bit, Ghost(pos));
                    let existing = &inner.values[idx];
                    if existing.0.same_key(&key) {
                        let replaced = share(&existing.1);
                        let mut values = copy_pairs(&inner.values);
                        let ghost pair = (key, value);
                        values.set(idx, (key, value));
                        let node = InnerNode {
                            datamap: inner.datamap,
                            nodemap: inner.nodemap,
                            values,
                            children: copy_children(&inner.children),
                        };
                        proof {
                            lemma_sparse_update(inner.datamap, inner.values@, pos, pair);
                            lemma_inner_step(*inner, node, state, path, pos);
                            lemma_inner_insert(*inner, node, state, path, pos, entry);
                        }
                        (Arc::new(ChampNode::Inner(node)), Some(replaced))
                    } else {
                        let old_pair = (share(&existing.0), share(&existing.1));
                        let existing_hash: u64 = existing.0.hash_with(hasher);
                        proof {
                            assert(sparse_at(inner.datamap, inner.values@, pos) == Some(old_pair));
                            lemma_path_step(existing_hash, path, pos);
                        }
                        let sub = Arc::new(
                            make_sub_node(
                                existing_hash,
                                old_pair,
                                hash,
                                (key, value),
                                depth + 1,
                                Ghost(state),
                                Ghost(path.push(pos)),
                            ),
                        );
                        let mut values = copy_pairs(&inner.values);
                        values.remove(idx);
                        let child_idx: usize = index(inner.nodemap | bit, bit, Ghost(pos));
                        let mut children = copy_children(&inner.children);
                        proof {
                            lemma_sparse_remove(inner.datamap, inner.values@, pos);
                            lemma_sparse_insert(inner.nodemap, inner.children@, pos, sub);
                        }
                        children.insert(child_idx, sub);
                        let node = InnerNode {
                            datamap: inner.datamap ^ bit,
                            nodemap: inner.nodemap | bit,
                            values,
                            children,
                        };
                        proof {
                            lemma_inner_step(*inner, node, state, path, pos);
                            lemma_inner_insert(*inner, node, state, path, pos, entry);
                            lemma_set_nonzero(inner.nodemap, pos);
                        }
                        (Arc::new(ChampNode::Inner(node)), None)
                    }
                } else if inner.nodemap & bit != 0 {
                    let idx: usize = index(inner.nodemap, bit, Ghost(pos));
                    let ghost child = inner.children@[idx as int];
                    let (new_child, replaced) = inner.children[idx].insert_with_hasher(
                        hasher,
                        hash,
                        key,
                        value,
                        depth + 1,
                        Ghost(path.push(pos)),
                    );
                    let mut children = copy_children(&inner.children);
                    children.set(idx, new_child);
                    let node = InnerNode {
                        datamap: inner.datamap,
                        nodemap: inner.nodemap,
                        values: copy_pairs(&inner.values),
                        children,
                    };
                    proof {
                        lemma_sparse_update(inner.nodemap, inner.children@, pos, new_child);
                        lemma_inner_step(*inner, node, state, path, pos);
                        lemma_inner_insert(*inner, node, state, path, pos, entry);
                    }
                    (Arc::new(ChampNode::Inner(node)), replaced)
                } else {
                    let idx: usize = index(inner.datamap | bit, bit, Ghost(pos));
                    let mut values = copy_pairs(&inner.values);
                    let ghost pair = (key, value);
                    proof {
                        lemma_sparse_insert(inner.datamap, inner.values@, pos, pair);
                    }
                    values.insert(idx, (key, value));
                    let node = InnerNode {
                        datamap: inner.datamap | bit,
                        nodemap: inner.nodemap,
                        values,
                        children: copy_children(&inner.children),
                    };
                    proof {
                        lemma_inner_step(*inner, node, state, path, pos);
                        lemma_inner_insert(*inner, node, state, path, pos, entry);
                    }
                    (Arc::new(ChampNode::Inner(node)), None)
                }
            },
            ChampNode::Collision(coll) => {
                let mut entries = copy_pairs(&coll.entries);
                let found = position(&coll.entries, &key, Ghost(state));
                let ghost pair = (key, value);
                let replaced = match found {
                    Some(i) => {
                        proof {
                            lemma_find(coll.entries@, i as int);
                        }
                        entries.set(i, (key, value));
                        Some(share(&coll.entries[i].1))
                    },
                    None => {
                        entries.push((key, value));
                        None
                    },
                };
                let node = CollisionNode { hash: coll.hash, entries };
                proof {
                    lemma_collision_insert(*coll, node, state, path, found, pair);
                }
                (Arc::new(ChampNode::Collision(node)), replaced)
            },
        }
    }
}

impl<K, V> ChampNode<K, V> {
    /// Inserts an entry, in place as far as no other trie shares the nodes on
    /// the way, and returns the value that it replaces.
    pub(crate) fn insert_mut_with_hasher<S>(
        this: &mut Arc<Self>,
        hasher: &S,
        hash: u64,
        key: Arc<K>,
        value: Arc<V>,
        depth: u32,
        Ghost(path): Ghost<Seq<u32>>,
    ) -> (replaced: Option<Arc<V>>) where K: HashKey<S>
        requires
            old(this).wf(*hasher, path),
            depth == path.len(),
            hash == K::hash_in((*key)@, *hasher),
            on_path(hash, path),
        ensures
            final(this).wf(*hasher, path),
            old(this).big() ==> final(this).big(),
            inserted(**old(this), **final(this), *hasher, depth as nat, (key, value)),
            replaces(replaced, old(this).at(*hasher, (*key)@, depth as nat)),
        decreases *old(this),
    {
        let ghost state = *hasher;
        let ghost entry = (key, value);
        let Some(node) = unique_mut(this) else {
            let (new_node, replaced) = this.insert_with_hasher(
                hasher,
                hash,
                key,
                value,
                depth,
                Ghost(path),
            );
            *this = new_node;
            return replaced;
        };
        match node {
            ChampNode::Inner(inner) => {
                let ghost before = *inner;
                let pos: u32 = mask(hash, depth);
                let bit: u32 = bitpos(pos);
                proof {
                    lemma_sparse_index(inner.datamap, inner.values@, pos);
                    lemma_sparse_index(inner.nodemap, inner.children@, pos);
                    lemma_path_step(hash, path, pos);
                }
                if inner.datamap & bit != 0 {
                    let idx: usize = index(inner.datamap, bit, Ghost(pos));
                    if inner.values[idx].0.same_key(&key) {
                        let replaced = share(&inner.values[idx].1);
                        let ghost pair = (key, value);
                        inner.values.set(idx, (key, value));
                        proof {
                            lemma_sparse_update(before.datamap, before.values@, pos, pair);
                            lemma_inner_step(before, *inner, state, path, pos);
                            lemma_inner_insert(before, *inner, state, path, pos, entry);
                        }
                        return Some(replaced);
                    }
                    let existing = inner.values.remove(idx);
                    let existing_hash: u64 = existing.0.hash_with(hasher);
                    proof {
                        assert(sparse_at(before.datamap, before.values@, pos) == Some(existing));
                        lemma_path_step(existing_hash, path, pos);
                    }
                    let sub = Arc::new(
                        make_sub_node(
                            existing_hash,
                            existing,
                            hash,
                            (key, value),
                            depth + 1,
                            Ghost(state),
                            Ghost(path.push(pos)),
                        ),
                    );
                    inner.datamap = inner.datamap ^ bit;
                    inner.nodemap = inner.nodemap | bit;
                    let child_idx: usize = index(inner.nodemap, bit, Ghost(pos));
                    proof {
                        lemma_sparse_remove(before.datamap, before.values@, pos);
                        lemma_sparse_insert(before.nodemap, before.children@, pos, sub);
                    }
                    inner.children.insert(child_idx, sub);
                    proof {
                        lemma_inner_step(before, *inner, state, path, pos);
                        lemma_inner_insert(before, *inner, state, path, pos, entry);
                        lemma_set_nonzero(before.nodemap, pos);
                    }
                    None
                } else if inner.nodemap & bit != 0 {
                    let idx: usize = index(inner.nodemap, bit, Ghost(pos));
                    let replaced = Self::insert_mut_with_hasher(
                        &mut inner.children[idx],
                        hasher,
                        hash,
                        key,
                        value,
                        depth + 1,
                        Ghost(path.push(pos)),
                    );
                    proof {
                        lemma_sparse_update(
                            before.nodemap,
                            before.children@,
                            pos,
                            inner.children@[idx as int],
                        );
                        lemma_inner_step(before, *inner, state, path, pos);
                        lemma_inner_insert(before, *inner, state, path, pos, entry);
                    }
                    replaced
                } else {
                    let idx: usize = index(inner.datamap | bit, bit, Ghost(pos));
                    let ghost pair = (key, value);
                    proof {
                        lemma_sparse_insert(before.datamap, before.values@, pos, pair);
                    }
                    inner.datamap = inner.datamap | bit;
                    inner.values.insert(idx, (key, value));
                    proof {
                        lemma_inner_step(before, *inner, state, path, pos);
                        lemma_inner_insert(before, *inner, state, path, pos, entry);
                    }
                    None
                }
            },
            ChampNode::Collision(coll) => {
                let ghost before = *coll;
                let found = position(&coll.entries, &key, Ghost(state));
                let ghost pair = (key, value);
                let replaced = match found {
                    Some(i) => {
                        proof {
                            lemma_find(coll.entries@, i as int);
                        }
                        let replaced = share(&coll.entries[i].1);
                        coll.entries.set(i, (key, value));
                        Some(replaced)
                    },
                    None => {
                        coll.entries.push((key, value));
                        None
                    },
                };
                proof {
                    lemma_collision_insert(before, *coll, state, path, found, pair);
                }
                replaced
            },
        }
    }
}

/// Result of removing a key from a node.
pub enum RemoveResult<K, V> {
    /// The key is not there: nothing changes.
    NotFound,
    /// The key is removed; the new node, or nothing where no entry is left.
    Removed(Option<Arc<ChampNode<K, V>>>),
    /// The key is removed, and one entry is left, which belongs into the parent.
    Singleton(Arc<K>, Arc<V>),
}

impl<K: View, V> RemoveResult<K, V> {
    /// The entry that what is left holds for a key.
    pub open spec fn at<S>(self, state: S, key: K::V, depth: nat) -> Option<Pair<K, V>> where
        K: HashKey<S>,
    {
        match self {
            RemoveResult::NotFound => None,
            RemoveResult::Removed(None) => None,
            RemoveResult::Removed(Some(node)) => node.at(state, key, depth),
            RemoveResult::Singleton(left, value) => if (*left)@ == key {
                Some((left, value))
            } else {
                None
            },
        }
    }

    /// Whether what is left is in canonical form for the end of `path`.
    pub open spec fn wf<S>(self, state: S, path: Seq<u32>) -> bool where K: HashKey<S> {
        match self {
            RemoveResult::NotFound => true,
            RemoveResult::Removed(None) => true,
            RemoveResult::Removed(Some(node)) => node.wf(state, path) && node.big(),
            RemoveResult::Singleton(left, value) => on_path(K::hash_in((*left)@, state), path),
        }
    }
}

/// What a removal of a present key leaves.
pub open spec fn removed<S, K: HashKey<S>, V>(
    before: ChampNode<K, V>,
    result: RemoveResult<K, V>,
    state: S,
    depth: nat,
    key: K::V,
) -> bool {
    match result {
        RemoveResult::NotFound => before.at(state, key, depth) is None,
        _ => {
            &&& before.at(state, key, depth) is Some
            &&& forall|other: K::V| #[trigger]
                result.at(state, other, depth) == if other == key {
                    None
                } else {
                    before.at(state, other, depth)
                }
        },
    }
}

/// A node in which one slot, that of a key, lost the key's entry.
proof fn lemma_inner_remove<S, K: HashKey<S>, V>(
    before: InnerNode<K, V>,
    after: InnerNode<K, V>,
    state: S,
    path: Seq<u32>,
    pos: u32,
    key: K::V,
)
    requires
        slot(K::hash_in(key, state), path.len()) == pos,
        forall|other: K::V| #[trigger]
            slot(K::hash_in(other, state), path.len()) != pos ==> ChampNode::Inner(after).at(
                state,
                other,
                path.len(),
            ) == ChampNode::Inner(before).at(state, other, path.len()),
        forall|other: K::V|
            slot(K::hash_in(other, state), path.len()) == pos ==> #[trigger] slot_entry(
                after,
                state,
                pos,
                other,
                path.len(),
            ) == if other == key {
                None
            } else {
                slot_entry(before, state, pos, other, path.len())
            },
    ensures
        forall|other: K::V| #[trigger]
            ChampNode::Inner(after).at(state, other, path.len()) == if other == key {
                None
            } else {
                ChampNode::Inner(before).at(state, other, path.len())
            },
{
    assert forall|other: K::V| #[trigger]
        ChampNode::Inner(after).at(state, other, path.len()) == if other == key {
            None
        } else {
            ChampNode::Inner(before).at(state, other, path.len())
        } by {
        let q = slot(K::hash_in(other, state), path.len());
        if q == pos {
            assert(ChampNode::Inner(after).at(state, other, path.len()) == slot_entry(
                after,
                state,
                pos,
                other,
                path.len(),
            ));
            assert(ChampNode::Inner(before).at(state, other, path.len()) == slot_entry(
                before,
                state,
                pos,
                other,
                path.len(),
            ));
        }
    }
}

/// Puts a node into canonical form: none where it is empty, an entry where it
/// holds one and no child, and the node itself otherwise.
pub(crate) fn compact<S, K: HashKey<S>, V>(
    inner: InnerNode<K, V>,
    Ghost(state): Ghost<S>,
    Ghost(path): Ghost<Seq<u32>>,
) -> (result: RemoveResult<K, V>)
    requires
        ChampNode::Inner(inner).wf(state, path),
    ensures
        result !is NotFound,
        result.wf(state, path),
        forall|key: K::V| #[trigger]
            result.at(state, key, path.len()) == ChampNode::Inner(inner).at(
                state,
                key,
                path.len(),
            ),
{
    proof {
        lemma_rank_nonzero(inner.datamap);
        lemma_rank_nonzero(inner.nodemap);
    }
    if inner.datamap == 0 && inner.nodemap == 0 {
        proof {
            lemma_empty(inner, state, path);
        }
        RemoveResult::Removed(None)
    } else if count_ones(inner.datamap) == 1 && inner.nodemap == 0 {
        let mut values = inner.values;
        let pair = values.remove(0);
        proof {
            let pos = lemma_sparse_slot(inner.datamap, inner.values@, 0);
            lemma_path_step(K::hash_in((*pair.0)@, state), path, pos);
            assert forall|key: K::V| #[trigger]
                ChampNode::Inner(inner).at(state, key, path.len()) == if (*pair.0)@ == key {
                    Some(pair)
                } else {
                    None
                } by {
                let q = slot(K::hash_in(key, state), path.len());
                lemma_slot_range(K::hash_in(key, state), path.len());
                lemma_no_bit(q);
                lemma_sparse_index(inner.datamap, inner.values@, q);
            }
        }
        RemoveResult::Singleton(pair.0, pair.1)
    } else {
        RemoveResult::Removed(Some(Arc::new(ChampNode::Inner(inner))))
    }
}

impl<K, V> ChampNode<K, V> {
    /// Removes a key and returns what is left, in canonical form. The node
    /// itself is left as it is.
    pub(crate) fn remove<S>(&self, hash: u64, key: &K, depth: u32, Ghost(state): Ghost<S>, Ghost(
        path,
    ): Ghost<Seq<u32>>) -> (result: RemoveResult<K, V>) where K: HashKey<S>
        requires
            self.wf(state, path),
            depth == path.len(),
            hash == K::hash_in(key@, state),
            on_path(hash, path),
        ensures
            result.wf(state, path),
            removed(*self, result, state, depth as nat, key@),
        decreases self,
    {
        match self {
            ChampNode::Inner(inner) => {
                let pos: u32 = mask(hash, depth);
                let bit: u32 = bitpos(pos);
                proof {
                    lemma_sparse_index(inner.datamap, inner.values@, pos);
                    lemma_sparse_index(inner.nodemap, inner.children@, pos);
                    lemma_path_step(hash, path, pos);
                }
                if inner.datamap & bit != 0 {
                    let idx: usize = index(inner.datamap, bit, Ghost(pos));
                    if !inner.values[idx].0.same_key(key) {
                        return RemoveResult::NotFound;
                    }
                    let mut values = copy_pairs(&inner.values);
                    values.remove(idx);
                    let node = InnerNode {
                        datamap: inner.datamap ^ bit,
                        nodemap: inner.nodemap,
                        values,
                        children: copy_children(&inner.children),
                    };
                    proof {
                        lemma_sparse_remove(inner.datamap, inner.values@, pos);
                        lemma_inner_step(*inner, node, state, path, pos);
                        lemma_inner_remove(*inner, node, state, path, pos, key@);
                    }
                    compact(node, Ghost(state), Ghost(path))
                } else if inner.nodemap & bit != 0 {
                    let idx: usize = index(inner.nodemap, bit, Ghost(pos));
                    let ghost child = inner.children@[idx as int];
                    assert(sparse_at(inner.nodemap, inner.children@, pos) == Some(child));
                    let left = inner.children[idx].remove(
                        hash,
                        key,
                        depth + 1,
                        Ghost(state),
                        Ghost(path.push(pos)),
                    );
                    assert(forall|other: K::V|
                        slot_entry(*inner, state, pos, other, depth as nat) == #[trigger] child.at(
                            state,
                            other,
                            (depth + 1) as nat,
                        ));
                    match left {
                        RemoveResult::NotFound => RemoveResult::NotFound,
                        RemoveResult::Singleton(k, v) => {
                            let mut values = copy_pairs(&inner.values);
                            let val_idx: usize = index(inner.datamap | bit, bit, Ghost(pos));
                            let ghost pair = (k, v);
                            proof {
                                lemma_sparse_insert(inner.datamap, inner.values@, pos, pair);
                                lemma_sparse_remove(inner.nodemap, inner.children@, pos);
                            }
                            values.insert(val_idx, (k, v));
                            let mut children = copy_children(&inner.children);
                            children.remove(idx);
                            let node = InnerNode {
                                datamap: inner.datamap | bit,
                                nodemap: inner.nodemap ^ bit,
                                values,
                                children,
                            };
                            proof {
                                lemma_inner_step(*inner, node, state, path, pos);
                                assert forall|other: K::V| #[trigger]
                                    slot_entry(node, state, pos, other, path.len()) == left.at(
                                        state,
                                        other,
                                        (depth + 1) as nat,
                                    ) by {}
                                lemma_inner_remove(*inner, node, state, path, pos, key@);
                            }
                            compact(node, Ghost(state), Ghost(path))
                        },
                        RemoveResult::Removed(None) => {
                            let mut children = copy_children(&inner.children);
                            children.remove(idx);
                            let node = InnerNode {
                                datamap: inner.datamap,
                                nodemap: inner.nodemap ^ bit,
                                values: copy_pairs(&inner.values),
                                children,
                            };
                            proof {
                                lemma_sparse_remove(inner.nodemap, inner.children@, pos);
                                lemma_inner_step(*inner, node, state, path, pos);
                                assert forall|other: K::V| #[trigger]
                                    slot_entry(node, state, pos, other, path.len()) == left.at(
                                        state,
                                        other,
                                        (depth + 1) as nat,
                                    ) by {}
                                lemma_inner_remove(*inner, node, state, path, pos, key@);
                            }
                            compact(node, Ghost(state), Ghost(path))
                        },
                        RemoveResult::Removed(Some(new_child)) => {
                            let mut children = copy_children(&inner.children);
                            children.set(idx, new_child);
                            let node = InnerNode {
                                datamap: inner.datamap,
                                nodemap: inner.nodemap,
                                values: copy_pairs(&inner.values),
                                children,
                            };
                            proof {
                                lemma_sparse_update(
                                    inner.nodemap,
                                    inner.children@,
                                    pos,
                                    new_child,
                                );
                                lemma_inner_step(*inner, node, state, path, pos);
                                assert forall|other: K::V| #[trigger]
                                    slot_entry(node, state, pos, other, path.len()) == left.at(
                                        state,
                                        other,
                                        (depth + 1) as nat,
                                    ) by {}
                                lemma_inner_remove(*inner, node, state, path, pos, key@);
                            }
                            compact(node, Ghost(state), Ghost(path))
                        },
                    }
                } else {
                    RemoveResult::NotFound
                }
            },
            ChampNode::Collision(coll) => {
                let Some(idx) = position(&coll.entries, key, Ghost(state)) else {
                    return RemoveResult::NotFound;
                };
                proof {
                    lemma_find(coll.entries@, idx as int);
                }
                if coll.entries.len() == 2 {
                    let left = &coll.entries[1 - idx];
                    let result = RemoveResult::Singleton(share(&left.0), share(&left.1));
                    proof {
                        let entries = coll.entries@;
                        lemma_find(entries, 1 - idx as int);
                        assert((*entries[0].0)@ != (*entries[1].0)@);
                        assert forall|other: K::V| #[trigger]
                            result.at(state, other, depth as nat) == if other == key@ {
                                None
                            } else {
                                self.at(state, other, depth as nat)
                            } by {
                            if find(entries, other) is Some {
                                let i = lemma_found(entries, other);
                                assert(i == 0 || i == 1);
                            }
                        }
                    }
                    result
                } else {
                    let mut entries = copy_pairs(&coll.entries);
                    entries.remove(idx);
                    let node = CollisionNode { hash: coll.hash, entries };
                    proof {
                        lemma_collision_remove(*coll, node, state, path, idx as int);
                    }
                    RemoveResult::Removed(Some(Arc::new(ChampNode::Collision(node))))
                }
            },
        }
    }
}

/// What a collision node of more than two entries holds after a removal.
proof fn lemma_collision_remove<S, K: HashKey<S>, V>(
    before: CollisionNode<K, V>,
    after: CollisionNode<K, V>,
    state: S,
    path: Seq<u32>,
    idx: int,
)
    requires
        ChampNode::Collision(before).wf(state, path),
        before.entries@.len() > 2,
        0 <= idx < before.entries@.len(),
        after.hash == before.hash,
        after.entries@ == before.entries@.remove(idx),
    ensures
        ChampNode::Collision(after).wf(state, path),
        forall|other: K::V| #[trigger]
            ChampNode::Collision(after).at(state, other, path.len()) == if other
                == (*before.entries@[idx].0)@ {
                None
            } else {
                ChampNode::Collision(before).at(state, other, path.len())
            },
{
    let old_entries = before.entries@;
    let new_entries = after.entries@;
    let key = (*old_entries[idx].0)@;
    assert forall|i: int| 0 <= i < new_entries.len() implies #[trigger] new_entries[i]
        == old_entries[if i < idx {
        i
    } else {
        i + 1
    }] by {}
    assert(distinct(new_entries)) by {
        assert forall|i: int, j: int| 0 <= i < j < new_entries.len() implies (*(
        #[trigger] new_entries[i]).0)@ != (*(#[trigger] new_entries[j]).0)@ by {
            let a = if i < idx {
                i
            } else {
                i + 1
            };
            let b = if j < idx {
                j
            } else {
                j + 1
            };
            assert((*old_entries[a].0)@ != (*old_entries[b].0)@);
        }
    }
    assert forall|other: K::V| #[trigger] find(new_entries, other) == if other == key {
        None
    } else {
        find(old_entries, other)
    } by {
        if find(new_entries, other) is Some {
            let i = lemma_found(new_entries, other);
            let a = if i < idx {
                i
            } else {
                i + 1
            };
            lemma_find(old_entries, a);
            if a < idx {
                assert((*old_entries[a].0)@ != (*old_entries[idx].0)@);
            } else {
                assert((*old_entries[idx].0)@ != (*old_entries[a].0)@);
            }
        }
        if other != key && find(old_entries, other) is Some {
            let a = lemma_found(old_entries, other);
            let i = if a < idx {
                a
            } else {
                a - 1
            };
            assert(new_entries[i] == old_entries[a]);
            lemma_find(new_entries, i);
        }
    }
}

/// A node that shares all entries and children with another.
impl<K, V> Clone for ChampNode<K, V> {
    fn clone(&self) -> (copy: Self)
        ensures
            copy.like(*self),
    {
        match self {
            ChampNode::Inner(inner) => ChampNode::Inner(
                InnerNode {
                    datamap: inner.datamap,
                    nodemap: inner.nodemap,
                    values: copy_pairs(&inner.values),
                    children: copy_children(&inner.children),
                },
            ),
            ChampNode::Collision(coll) => ChampNode::Collision(
                CollisionNode { hash: coll.hash, entries: copy_pairs(&coll.entries) },
            ),
        }
    }
}

/// Nodes with the same bitmaps, entries and children hold the same.
proof fn lemma_like<S, K: HashKey<S>, V>(
    copy: ChampNode<K, V>,
    node: ChampNode<K, V>,
    state: S,
    path: Seq<u32>,
)
    requires
        cloned(node, copy),
        node.wf(state, path),
    ensures
        copy.wf(state, path),
        copy.big() == node.big(),
        forall|key: K::V| #[trigger]
            copy.at(state, key, path.len()) == node.at(state, key, path.len()),
{
    assert(copy.like(node));
}

impl<K, V> ChampNode<K, V> {
    /// Whether two nodes have the same bitmaps, entries and children.
    pub open spec fn like(self, other: Self) -> bool {
        match (self, other) {
            (ChampNode::Inner(a), ChampNode::Inner(b)) => {
                &&& a.datamap == b.datamap
                &&& a.nodemap == b.nodemap
                &&& a.values@ == b.values@
                &&& a.children@ == b.children@
            },
            (ChampNode::Collision(a), ChampNode::Collision(b)) => {
                &&& a.hash == b.hash
                &&& a.entries@ == b.entries@
            },
            _ => false,
        }
    }

    /// Looks a key up for mutation in place. Nodes on the way that other tries
    /// share are copied.
    #[verifier::spinoff_prover]
    #[verifier::rlimit(60)]
    pub(crate) fn get_mut<'a, S>(
        this: &'a mut Arc<Self>,
        hash: u64,
        key: &K,
        depth: u32,
        Ghost(state): Ghost<S>,
        Ghost(path): Ghost<Seq<u32>>,
    ) -> (found: Option<(&'a Arc<K>, &'a mut Arc<V>)>) where K: HashKey<S>
        requires
            old(this).wf(state, path),
            depth == path.len(),
            hash == K::hash_in(key@, state),
            on_path(hash, path),
        ensures
            final(this).wf(state, path),
            old(this).big() ==> final(this).big(),
            match found {
                Some((held, value)) => {
                    &&& (**held)@ == key@
                    &&& old(this).at(state, key@, depth as nat) == Some((*held, *value))
                    &&& inserted(
                        **old(this),
                        **final(this),
                        state,
                        depth as nat,
                        (*held, *final(value)),
                    )
                },
                None => {
                    &&& old(this).at(state, key@, depth as nat) is None
                    &&& forall|other: K::V| #[trigger]
                        final(this).at(state, other, depth as nat) == old(this).at(
                            state,
                            other,
                            depth as nat,
                        )
                },
            },
        decreases *old(this),
    {
        let ghost original = *this;
        let node = own_mut(this);
        proof {
            lemma_like(*node, inside(original), state, path);
        }
        match node {
            ChampNode::Inner(inner) => {
                let ghost before = *inner;
                let pos: u32 = mask(hash, depth);
                let bit: u32 = bitpos(pos);
                proof {
                    lemma_sparse_index(inner.datamap, inner.values@, pos);
                    lemma_sparse_index(inner.nodemap, inner.children@, pos);
                    lemma_path_step(hash, path, pos);
                }
                if inner.datamap & bit != 0 {
                    let idx: usize = index(inner.datamap, bit, Ghost(pos));
                    if inner.values[idx].0.same_key(key) {
                        let ghost after = *final(inner);
                        let (held, value) = &mut inner.values[idx];
                        proof {
                            let put = (before.values@[idx as int].0, *final(value));
                            assert(after.values@ =~= before.values@.update(idx as int, put));
                            lemma_sparse_update(before.datamap, before.values@, pos, put);
                            lemma_inner_step(before, after, state, path, pos);
                            lemma_inner_insert(before, after, state, path, pos, put);
                        }
                        Some((&*held, value))
                    } else {
                        None
                    }
                } else if inner.nodemap & bit != 0 {
                    let idx: usize = index(inner.nodemap, bit, Ghost(pos));
                    let ghost after = *final(inner);
                    let child = &mut inner.children[idx];
                    let ghost child_after = *final(child);
                    let found = Self::get_mut(
                        child,
                        hash,
                        key,
                        depth + 1,
                        Ghost(state),
                        Ghost(path.push(pos)),
                    );
                    proof {
                        assert(after.children@ =~= before.children@.update(
                            idx as int,
                            child_after,
                        ));
                        lemma_sparse_update(before.nodemap, before.children@, pos, child_after);
                        lemma_inner_step(before, after, state, path, pos);
                        if found is Some {
                            lemma_inner_insert(
                                before,
                                after,
                                state,
                                path,
                                pos,
                                (*(found->0).0, *final((found->0).1)),
                            );
                        } else {
                            lemma_inner_same(before, after, state, path, pos);
                        }
                    }
                    found
                } else {
                    None
                }
            },
            ChampNode::Collision(coll) => {
                match position(&coll.entries, key, Ghost(state)) {
                    Some(i) => {
                        let ghost before = *coll;
                        let ghost after = *final(coll);
                        let (held, value) = &mut coll.entries[i];
                        proof {
                            let put = (before.entries@[i as int].0, *final(value));
                            assert(after.entries@ =~= before.entries@.update(i as int, put));
                            lemma_find(before.entries@, i as int);
                            lemma_collision_insert(before, after, state, path, Some(i), put);
                        }
                        Some((&*held, value))
                    },
                    None => None,
                }
            },
        }
    }
}

} // verus!
