//! The entries of a node, in the order in which they are walked.
use crate::bits::{has_bit, on_path, rank, slot};
use crate::bits::{lemma_path_step, lemma_slot_range};
use crate::hash_key::HashKey;
use crate::node::{distinct, find, key_at, ChampNode, InnerNode, Pair};
use crate::node::{lemma_find, lemma_found};
use crate::shared::inside;
use crate::sparse::sparse_at;
use crate::sparse::{lemma_sparse_index, lemma_sparse_slot};
use std::sync::Arc;
use vstd::prelude::*;

verus! {

impl<K, V> ChampNode<K, V> {
    /// The entries of the node: those of its own slots first, then those of its
    /// children, each list in the order of the slots.
    pub open spec fn entries(self) -> Seq<Pair<K, V>>
        decreases self,
    {
        match self {
            ChampNode::Inner(inner) => inner.values@ + children_entries(inner.children@),
            ChampNode::Collision(coll) => coll.entries@,
        }
    }
}

/// The entries of a list of nodes.
pub open spec fn children_entries<K, V>(children: Seq<Arc<ChampNode<K, V>>>) -> Seq<Pair<K, V>>
    decreases children,
{
    if children.len() == 0 {
        Seq::empty()
    } else {
        children[0].entries() + children_entries(children.subrange(1, children.len() as int))
    }
}

/// Whether a list of entries lists what a finite map holds, each key once.
pub open spec fn lists<K: View, V>(pairs: Seq<Pair<K, V>>, map: Map<K::V, V>) -> bool {
    &&& distinct(pairs)
    &&& forall|key: K::V| #[trigger] map.contains_key(key) <==> find(pairs, key) is Some
    &&& forall|key: K::V| #[trigger] map.contains_key(key) ==> *(find(pairs, key)->0).1 == map[key]
}

/// Two lists of entries without a common key, one behind the other.
pub(crate) proof fn lemma_concat<K: View, V>(front: Seq<Pair<K, V>>, back: Seq<Pair<K, V>>)
    requires
        distinct(front),
        distinct(back),
        forall|i: int, j: int|
            0 <= i < front.len() && 0 <= j < back.len() ==> (*(#[trigger] front[i]).0)@ != (*(
            #[trigger] back[j]).0)@,
    ensures
        distinct(front + back),
        forall|key: K::V| #[trigger]
            find(front + back, key) == if find(front, key) is Some {
                find(front, key)
            } else {
                find(back, key)
            },
{
    let both = front + back;
    assert(distinct(both)) by {
        assert forall|i: int, j: int| 0 <= i < j < both.len() implies (*(#[trigger] both[i]).0)@
            != (*(#[trigger] both[j]).0)@ by {
            if j < front.len() {
                assert((*front[i].0)@ != (*front[j].0)@);
            } else if i >= front.len() {
                assert((*back[i - front.len()].0)@ != (*back[j - front.len()].0)@);
            } else {
                assert((*front[i].0)@ != (*back[j - front.len()].0)@);
            }
        }
    }
    assert forall|key: K::V| #[trigger]
        find(both, key) == if find(front, key) is Some {
            find(front, key)
        } else {
            find(back, key)
        } by {
        if find(front, key) is Some {
            let i = lemma_found(front, key);
            assert(both[i] == front[i]);
            lemma_find(both, i);
        } else if find(back, key) is Some {
            let j = lemma_found(back, key);
            assert(both[front.len() + j] == back[j]);
            lemma_find(both, front.len() + j);
        } else if find(both, key) is Some {
            let i = lemma_found(both, key);
            if i < front.len() {
                assert(key_at(front, i, key));
            } else {
                assert(key_at(back, i - front.len(), key));
            }
        }
    }
}

/// The entries in the slots of a node itself.
proof fn lemma_own_entries<S, K: HashKey<S>, V>(
    inner: InnerNode<K, V>,
    state: S,
    path: Seq<u32>,
)
    requires
        ChampNode::Inner(inner).wf(state, path),
    ensures
        distinct(inner.values@),
        forall|i: int|
            0 <= i < inner.values@.len() ==> {
                let hash = K::hash_in((*(#[trigger] inner.values@[i]).0)@, state);
                &&& on_path(hash, path)
                &&& has_bit(inner.datamap, slot(hash, path.len()))
            },
        forall|key: K::V|
            #![trigger find(inner.values@, key)]
            find(inner.values@, key) == match sparse_at(
                inner.datamap,
                inner.values@,
                slot(K::hash_in(key, state), path.len()),
            ) {
                Some(pair) => if (*pair.0)@ == key {
                    Some(pair)
                } else {
                    None
                },
                None => None,
            },
{
    let values = inner.values@;
    assert forall|i: int| 0 <= i < values.len() implies {
        let hash = K::hash_in((*(#[trigger] values[i]).0)@, state);
        &&& on_path(hash, path)
        &&& has_bit(inner.datamap, slot(hash, path.len()))
        &&& rank(inner.datamap, slot(hash, path.len()) as nat) == i
    } by {
        let pos = lemma_sparse_slot(inner.datamap, values, i);
        lemma_path_step(K::hash_in((*values[i].0)@, state), path, pos);
    }
    assert(distinct(values)) by {
        assert forall|i: int, j: int| 0 <= i < j < values.len() implies (*(
        #[trigger] values[i]).0)@ != (*(#[trigger] values[j]).0)@ by {
            if (*values[i].0)@ == (*values[j].0)@ {
                assert(rank(
                    inner.datamap,
                    slot(K::hash_in((*values[i].0)@, state), path.len()) as nat,
                ) == i);
            }
        }
    }
    assert forall|key: K::V|
        #![trigger find(inner.values@, key)]
        find(values, key) == match sparse_at(
            inner.datamap,
            values,
            slot(K::hash_in(key, state), path.len()),
        ) {
            Some(pair) => if (*pair.0)@ == key {
                Some(pair)
            } else {
                None
            },
            None => None,
        } by {
        let pos = slot(K::hash_in(key, state), path.len());
        lemma_slot_range(K::hash_in(key, state), path.len());
        lemma_sparse_index(inner.datamap, values, pos);
        if find(values, key) is Some {
            let i = lemma_found(values, key);
            assert(rank(inner.datamap, pos as nat) == i);
        }
        if let Some(pair) = sparse_at(inner.datamap, values, pos) {
            if (*pair.0)@ == key {
                lemma_find(values, rank(inner.datamap, pos as nat) as int);
            }
        }
    }
}

/// The entries of the children of a node from index `from` on.
#[verifier::spinoff_prover]
#[verifier::rlimit(40)]
proof fn lemma_child_entries<S, K: HashKey<S>, V>(
    inner: InnerNode<K, V>,
    state: S,
    path: Seq<u32>,
    from: int,
)
    requires
        ChampNode::Inner(inner).wf(state, path),
        0 <= from <= inner.children@.len(),
    ensures
        ({
            let pairs = children_entries(
                inner.children@.subrange(from, inner.children@.len() as int),
            );
            &&& distinct(pairs)
            &&& forall|i: int|
                0 <= i < pairs.len() ==> {
                    let hash = K::hash_in((*(#[trigger] pairs[i]).0)@, state);
                    &&& on_path(hash, path)
                    &&& has_bit(inner.nodemap, slot(hash, path.len()))
                    &&& rank(inner.nodemap, slot(hash, path.len()) as nat) >= from
                }
            &&& forall|key: K::V|
                #![trigger find(pairs, key)]
                find(pairs, key) == match sparse_at(
                    inner.nodemap,
                    inner.children@,
                    slot(K::hash_in(key, state), path.len()),
                ) {
                    Some(child) => if rank(
                        inner.nodemap,
                        slot(K::hash_in(key, state), path.len()) as nat,
                    ) >= from {
                        child.at(state, key, path.len() + 1)
                    } else {
                        None
                    },
                    None => None,
                }
        }),
    decreases inner.children@, 1nat, inner.children@.len() - from,
{
    let children = inner.children@;
    let len = children.len() as int;
    let rest = children.subrange(from, len);
    let pairs = children_entries(rest);
    if from == len {
        assert(rest.len() == 0);
        assert forall|key: K::V| #[trigger] find(pairs, key) is None by {}
        assert forall|key: K::V| sparse_at(
            inner.nodemap,
            children,
            #[trigger] slot(K::hash_in(key, state), path.len()),
        ) is Some implies rank(
            inner.nodemap,
            slot(K::hash_in(key, state), path.len()) as nat,
        ) < len by {}
    } else {
        let child = children[from];
        let pos = lemma_sparse_slot(inner.nodemap, children, from);
        assert(child.wf(state, path.push(pos)) && child.big());
        let front = inside(child).entries();
        lemma_entries(inside(child), state, path.push(pos));
        lemma_child_entries(inner, state, path, from + 1);
        assert(rest[0] == child);
        assert(rest.subrange(1, rest.len() as int) =~= children.subrange(from + 1, len));
        let back = children_entries(children.subrange(from + 1, len));
        assert(pairs == front + back);
        assert forall|i: int| 0 <= i < front.len() implies {
            let hash = K::hash_in((*(#[trigger] front[i]).0)@, state);
            &&& on_path(hash, path)
            &&& slot(hash, path.len()) == pos
        } by {
            lemma_path_step(K::hash_in((*front[i].0)@, state), path, pos);
        }
        assert forall|i: int, j: int| 0 <= i < front.len() && 0 <= j < back.len() implies (*(
        #[trigger] front[i]).0)@ != (*(#[trigger] back[j]).0)@ by {
            let hash = K::hash_in((*back[j].0)@, state);
            assert(rank(inner.nodemap, slot(hash, path.len()) as nat) >= from + 1);
        }
        lemma_concat(front, back);
        assert forall|key: K::V|
            #![trigger find(pairs, key)]
            find(pairs, key) == match sparse_at(
                inner.nodemap,
                children,
                slot(K::hash_in(key, state), path.len()),
            ) {
                Some(c) => if rank(
                    inner.nodemap,
                    slot(K::hash_in(key, state), path.len()) as nat,
                ) >= from {
                    c.at(state, key, path.len() + 1)
                } else {
                    None
                },
                None => None,
            } by {
            let q = slot(K::hash_in(key, state), path.len());
            lemma_slot_range(K::hash_in(key, state), path.len());
            assert(find(front, key) == child.at(state, key, path.len() + 1));
            assert(find(front + back, key) == if find(front, key) is Some {
                find(front, key)
            } else {
                find(back, key)
            });
            lemma_sparse_index(inner.nodemap, children, pos);
            if find(front, key) is Some {
                let i = lemma_found(front, key);
                assert(q == pos);
            }
            if q == pos {
                assert(find(back, key) is None);
            }
        }
    }
}

/// A well-formed node lists what it holds, each key once.
pub(crate) proof fn lemma_entries<S, K: HashKey<S>, V>(
    node: ChampNode<K, V>,
    state: S,
    path: Seq<u32>,
)
    requires
        node.wf(state, path),
    ensures
        distinct(node.entries()),
        forall|i: int|
            0 <= i < node.entries().len() ==> on_path(
                K::hash_in((*(#[trigger] node.entries()[i]).0)@, state),
                path,
            ),
        forall|key: K::V|
            #![trigger find(node.entries(), key)]
            #![trigger node.at(state, key, path.len())]
            find(node.entries(), key) == node.at(state, key, path.len()),
    decreases node, 2nat, 0int,
{
    match node {
        ChampNode::Inner(inner) => {
            let own = inner.values@;
            let below = children_entries(inner.children@);
            assert(inner.children@.subrange(0, inner.children@.len() as int) =~= inner.children@);
            lemma_own_entries(inner, state, path);
            lemma_child_entries(inner, state, path, 0);
            assert forall|i: int, j: int| 0 <= i < own.len() && 0 <= j < below.len() implies (*(
            #[trigger] own[i]).0)@ != (*(#[trigger] below[j]).0)@ by {
                let hash = K::hash_in((*own[i].0)@, state);
                lemma_slot_range(hash, path.len());
            }
            lemma_concat(own, below);
            assert forall|key: K::V|
                #![trigger find(node.entries(), key)]
                #![trigger node.at(state, key, path.len())]
                find(node.entries(), key) == node.at(state, key, path.len()) by {
                let pos = slot(K::hash_in(key, state), path.len());
                lemma_slot_range(K::hash_in(key, state), path.len());
                lemma_sparse_index(inner.datamap, own, pos);
                lemma_sparse_index(inner.nodemap, inner.children@, pos);
                assert(find(own + below, key) == if find(own, key) is Some {
                    find(own, key)
                } else {
                    find(below, key)
                });
            }
        },
        ChampNode::Collision(coll) => {},
    }
}

/// The entries of two lists of nodes, one behind the other.
pub(crate) proof fn lemma_children_join<K, V>(
    a: Seq<Arc<ChampNode<K, V>>>,
    b: Seq<Arc<ChampNode<K, V>>>,
)
    ensures
        children_entries(a + b) == children_entries(a) + children_entries(b),
    decreases a.len(),
{
    if a.len() == 0 {
        assert(a + b =~= b);
        assert(children_entries(a) + children_entries(b) =~= children_entries(b));
    } else {
        let rest = a.subrange(1, a.len() as int);
        lemma_children_join(rest, b);
        assert((a + b).subrange(1, (a + b).len() as int) =~= rest + b);
        assert(children_entries(a + b) =~= children_entries(a) + children_entries(b));
    }
}

/// The entries of a single node.
pub(crate) proof fn lemma_one_child<K, V>(nodes: Seq<Arc<ChampNode<K, V>>>)
    requires
        nodes.len() == 1,
    ensures
        children_entries(nodes) == nodes[0].entries(),
{
    reveal_with_fuel(children_entries, 2);
    assert(nodes.subrange(1, 1) =~= Seq::<Arc<ChampNode<K, V>>>::empty());
    assert(children_entries(nodes) =~= nodes[0].entries());
}

} // verus!
