//! Tries of one shape: the same keys in the same places, with other values.
use crate::bits::{has_bit, on_path, rank};
use crate::entries::children_entries;
use crate::hash_key::HashKey;
use crate::node::{distinct, ChampNode, Pair};
use crate::node::{lemma_find, lemma_found};
use crate::shared::inside;
use crate::sparse::sparse_at;
use crate::trie::pairs_map;
use std::sync::Arc;
use vstd::prelude::*;

verus! {

/// Whether two lists of entries have the same keys in the same order.
pub open spec fn same_keys<K: View, V, W>(a: Seq<Pair<K, V>>, b: Seq<Pair<K, W>>) -> bool {
    &&& a.len() == b.len()
    &&& forall|i: int| 0 <= i < a.len() ==> (*(#[trigger] b[i]).0)@ == (*a[i].0)@
}

/// Whether two nodes have the same keys in the same places.
pub open spec fn same_shape<K: View, V, W>(a: ChampNode<K, V>, b: ChampNode<K, W>) -> bool
    decreases a,
{
    match (a, b) {
        (ChampNode::Inner(x), ChampNode::Inner(y)) => {
            &&& x.datamap == y.datamap
            &&& x.nodemap == y.nodemap
            &&& same_keys(x.values@, y.values@)
            &&& x.children@.len() == y.children@.len()
            &&& forall|i: int|
                0 <= i < x.children@.len() ==> same_shape(
                    *#[trigger] x.children@[i],
                    *y.children@[i],
                )
        },
        (ChampNode::Collision(x), ChampNode::Collision(y)) => {
            &&& x.hash == y.hash
            &&& same_keys(x.entries@, y.entries@)
        },
        _ => false,
    }
}

/// Nodes of one shape have the same keys in the same order.
pub(crate) proof fn lemma_shape_entries<K: View, V, W>(a: ChampNode<K, V>, b: ChampNode<K, W>)
    requires
        same_shape(a, b),
    ensures
        same_keys(a.entries(), b.entries()),
    decreases a,
{
    match (a, b) {
        (ChampNode::Inner(x), ChampNode::Inner(y)) => {
            lemma_shape_children(x.children@, y.children@);
        },
        _ => {},
    }
}

proof fn lemma_shape_children<K: View, V, W>(
    a: Seq<Arc<ChampNode<K, V>>>,
    b: Seq<Arc<ChampNode<K, W>>>,
)
    requires
        a.len() == b.len(),
        forall|i: int| 0 <= i < a.len() ==> same_shape(*#[trigger] a[i], *b[i]),
    ensures
        same_keys(children_entries(a), children_entries(b)),
    decreases a,
{
    if a.len() > 0 {
        assert(same_shape(*a[0], *b[0]));
        lemma_shape_entries(inside(a[0]), inside(b[0]));
        let c = a.subrange(1, a.len() as int);
        let d = b.subrange(1, b.len() as int);
        assert forall|i: int| 0 <= i < c.len() implies same_shape(*#[trigger] c[i], *d[i]) by {
            assert(same_shape(*a[i + 1], *b[i + 1]));
        }
        lemma_shape_children(c, d);
    }
}

/// A node of the shape of a well-formed node is well formed.
pub(crate) proof fn lemma_shape_wf<S, K: HashKey<S>, V, W>(
    a: ChampNode<K, V>,
    b: ChampNode<K, W>,
    state: S,
    path: Seq<u32>,
)
    requires
        same_shape(a, b),
        a.wf(state, path),
    ensures
        b.wf(state, path),
        b.big() == a.big(),
    decreases a,
{
    match (a, b) {
        (ChampNode::Inner(x), ChampNode::Inner(y)) => {
            assert forall|pos: u32| pos < 32 implies (#[trigger] sparse_at(
                y.datamap,
                y.values@,
                pos,
            ) matches Some(pair) ==> on_path(K::hash_in((*pair.0)@, state), path.push(pos))) by {
                if sparse_at(y.datamap, y.values@, pos) is Some {
                    let i = rank(y.datamap, pos as nat) as int;
                    assert((*y.values@[i].0)@ == (*x.values@[i].0)@);
                    assert(sparse_at(x.datamap, x.values@, pos) is Some);
                }
            }
            assert forall|pos: u32|
                #![trigger has_bit(y.nodemap, pos)]
                pos < 32 && has_bit(y.nodemap, pos) && rank(y.nodemap, pos as nat)
                    < y.children@.len() implies {
                let child = y.children@[rank(y.nodemap, pos as nat) as int];
                child.wf(state, path.push(pos)) && child.big()
            } by {
                let i = rank(y.nodemap, pos as nat) as int;
                assert(has_bit(x.nodemap, pos));
                assert(same_shape(*x.children@[i], *y.children@[i]));
                lemma_shape_wf(
                    inside(x.children@[i]),
                    inside(y.children@[i]),
                    state,
                    path.push(pos),
                );
            }
        },
        (ChampNode::Collision(x), ChampNode::Collision(y)) => {
            assert forall|i: int, j: int| 0 <= i < j < y.entries@.len() implies (*(
            #[trigger] y.entries@[i]).0)@ != (*(#[trigger] y.entries@[j]).0)@ by {
                assert((*x.entries@[i].0)@ != (*x.entries@[j].0)@);
                assert((*y.entries@[i].0)@ == (*x.entries@[i].0)@);
                assert((*y.entries@[j].0)@ == (*x.entries@[j].0)@);
            }
            assert forall|i: int| 0 <= i < y.entries@.len() implies K::hash_in(
                (*(#[trigger] y.entries@[i]).0)@,
                state,
            ) == y.hash by {
                assert((*y.entries@[i].0)@ == (*x.entries@[i].0)@);
            }
        },
        _ => {},
    }
}

/// Lists of the same keys describe maps of the same keys.
pub(crate) proof fn lemma_rekeyed<K: View, V, W>(a: Seq<Pair<K, V>>, b: Seq<Pair<K, W>>)
    requires
        same_keys(a, b),
        distinct(a),
    ensures
        distinct(b),
        pairs_map(a).dom() == pairs_map(b).dom(),
{
    assert forall|i: int, j: int| 0 <= i < j < b.len() implies (*(#[trigger] b[i]).0)@ != (*(
    #[trigger] b[j]).0)@ by {
        assert((*a[i].0)@ != (*a[j].0)@);
        assert((*b[i].0)@ == (*a[i].0)@);
        assert((*b[j].0)@ == (*a[j].0)@);
    }
    assert forall|key: K::V| pairs_map(a).contains_key(key) == pairs_map(b).contains_key(key) by {
        if pairs_map(a).contains_key(key) {
            let i = lemma_found(a, key);
            assert((*b[i].0)@ == (*a[i].0)@);
            lemma_find(b, i);
        }
        if pairs_map(b).contains_key(key) {
            let i = lemma_found(b, key);
            assert((*b[i].0)@ == (*a[i].0)@);
            lemma_find(a, i);
        }
    }
    assert(pairs_map(a).dom() =~= pairs_map(b).dom());
}

} // verus!
