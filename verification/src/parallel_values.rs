//! New values for all entries of a hash map, made on several threads.
//!
//! The keys stay, so the trie keeps its shape: nodes are rebuilt where they
//! stand, without hashing a key again.
use crate::entries::{children_entries, lemma_children_join, lemma_one_child};
use crate::hash_key::{HashKey, HashState};
use crate::hash_map::GenericHashMap;
use crate::hash_map_make::accepts_entries;
use crate::hash_map_ops::makes;
use crate::node::{ChampNode, CollisionNode, InnerNode, Pair};
use crate::node::{lemma_find, lemma_found};
use crate::parallel::{anew, both};
use crate::shape::{lemma_rekeyed, lemma_shape_entries, lemma_shape_wf};
use crate::shape::{same_keys, same_shape};
use crate::shared::{inside, share};
use std::sync::Arc;
use vstd::prelude::*;

verus! {

/// Whether a function accepts every entry of a list.
pub open spec fn takes_list<K, V, W, F: Fn(&K, &V) -> W>(f: &F, pairs: Seq<Pair<K, V>>) -> bool {
    forall|i: int|
        0 <= i < pairs.len() ==> (*f).requires((&*(#[trigger] pairs[i]).0, &*pairs[i].1))
}

/// Whether a list of entries may be what a function makes of the values of
/// another.
pub open spec fn remade<K: View, V, W, F: Fn(&K, &V) -> W>(
    f: &F,
    pairs: Seq<Pair<K, V>>,
    made: Seq<Pair<K, W>>,
) -> bool {
    &&& same_keys(pairs, made)
    &&& forall|i: int|
        0 <= i < pairs.len() ==> (*f).ensures(
            (&*(#[trigger] pairs[i]).0, &*pairs[i].1),
            *made[i].1,
        ) && made[i].0 == pairs[i].0
}

/// Whether a list of nodes may be what a function makes of the values of
/// another.
pub open spec fn remade_nodes<K: View, V, W, F: Fn(&K, &V) -> W>(
    f: &F,
    nodes: Seq<Arc<ChampNode<K, V>>>,
    made: Seq<Arc<ChampNode<K, W>>>,
) -> bool {
    &&& nodes.len() == made.len()
    &&& forall|i: int| 0 <= i < nodes.len() ==> same_shape(*#[trigger] nodes[i], *made[i])
    &&& remade(f, children_entries(nodes), children_entries(made))
}

/// Two lists of new values, one behind the other.
proof fn lemma_remade_join<K: View, V, W, F: Fn(&K, &V) -> W>(
    f: &F,
    a: Seq<Pair<K, V>>,
    b: Seq<Pair<K, V>>,
    x: Seq<Pair<K, W>>,
    y: Seq<Pair<K, W>>,
)
    requires
        remade(f, a, x),
        remade(f, b, y),
    ensures
        remade(f, a + b, x + y),
{
    let all = a + b;
    let made = x + y;
    assert forall|i: int| 0 <= i < all.len() implies (*f).ensures(
        (&*(#[trigger] all[i]).0, &*all[i].1),
        *made[i].1,
    ) && made[i].0 == all[i].0 by {
        if i < a.len() {
            assert(a[i] == all[i]);
            assert(x[i] == made[i]);
        } else {
            assert(b[i - a.len()] == all[i]);
            assert(y[i - a.len()] == made[i]);
        }
    }
}

/// A function that accepts two lists together accepts each.
proof fn lemma_takes_parts<K, V, W, F: Fn(&K, &V) -> W>(
    f: &F,
    a: Seq<Pair<K, V>>,
    b: Seq<Pair<K, V>>,
)
    requires
        takes_list(f, a + b),
    ensures
        takes_list(f, a),
        takes_list(f, b),
{
    let all = a + b;
    assert forall|i: int| 0 <= i < a.len() implies (*f).requires(
        (&*(#[trigger] a[i]).0, &*a[i].1),
    ) by {
        assert(all[i] == a[i]);
    }
    assert forall|i: int| 0 <= i < b.len() implies (*f).requires(
        (&*(#[trigger] b[i]).0, &*b[i].1),
    ) by {
        assert(all[a.len() + i] == b[i]);
    }
}

/// New values for a list of entries.
fn map_pairs<K: View, V, W, F: Fn(&K, &V) -> W>(pairs: &Vec<Pair<K, V>>, f: &F) -> (made: Vec<
    Pair<K, W>,
>)
    requires
        takes_list(f, pairs@),
    ensures
        remade(f, pairs@, made@),
{
    let mut made: Vec<Pair<K, W>> = Vec::new();
    let mut i: usize = 0;
    while i < pairs.len()
        invariant
            i <= pairs@.len(),
            takes_list(f, pairs@),
            remade(f, pairs@.take(i as int), made@),
        decreases pairs@.len() - i,
    {
        let ghost before = made@;
        let pair = &pairs[i];
        proof {
            assert((*f).requires((&*pairs@[i as int].0, &*pairs@[i as int].1)));
        }
        let value = f(&*pair.0, &*pair.1);
        made.push((share(&pair.0), Arc::new(value)));
        proof {
            let front = pairs@.take(i as int);
            let longer = pairs@.take(i + 1);
            assert forall|j: int| 0 <= j < longer.len() implies (*f).ensures(
                (&*(#[trigger] longer[j]).0, &*longer[j].1),
                *made@[j].1,
            ) && made@[j].0 == longer[j].0 by {
                if j < i {
                    assert(front[j] == longer[j]);
                    assert(before[j] == made@[j]);
                }
            }
        }
        i += 1;
    }
    proof {
        assert(pairs@.take(pairs@.len() as int) =~= pairs@);
    }
    made
}

/// New values for a list of nodes, one node after the other.
fn map_children<K: View, V, W, F: Fn(&K, &V) -> W>(nodes: &[Arc<ChampNode<K, V>>], f: &F) -> (made: Vec<
    Arc<ChampNode<K, W>>,
>)
    requires
        takes_list(f, children_entries(nodes@)),
    ensures
        remade_nodes(f, nodes@, made@),
    decreases nodes@,
{
    if nodes.len() == 0 {
        return Vec::new();
    }
    let (front, last) = nodes.split_at(nodes.len() - 1);
    proof {
        assert(nodes@ =~= front@ + last@);
        lemma_children_join(front@, last@);
        lemma_takes_parts(f, children_entries(front@), children_entries(last@));
        lemma_one_child(last@);
        assert(last@[0] == nodes@[nodes@.len() - 1]);
        assert(front@ =~= nodes@.subrange(0, nodes@.len() - 1));
    }
    let mut made = map_children(front, f);
    let ghost before = made@;
    let node = map_node(&*last[0], f);
    made.push(Arc::new(node));
    proof {
        let tail = seq![Arc::new(node)];
        lemma_one_child(tail);
        lemma_children_join(before, tail);
        assert(before + tail =~= made@);
        lemma_remade_join(
            f,
            children_entries(front@),
            children_entries(last@),
            children_entries(before),
            children_entries(tail),
        );
        assert forall|i: int| 0 <= i < nodes@.len() implies same_shape(
            *#[trigger] nodes@[i],
            *made@[i],
        ) by {
            if i < front@.len() {
                assert(nodes@[i] == front@[i]);
                assert(made@[i] == before[i]);
            }
        }
    }
    made
}

/// New values for a node.
fn map_node<K: View, V, W, F: Fn(&K, &V) -> W>(node: &ChampNode<K, V>, f: &F) -> (made: ChampNode<K, W>)
    requires
        takes_list(f, node.entries()),
    ensures
        same_shape(*node, made),
        remade(f, node.entries(), made.entries()),
    decreases node,
{
    match node {
        ChampNode::Inner(inner) => {
            proof {
                lemma_takes_parts(f, inner.values@, children_entries(inner.children@));
            }
            let values = map_pairs(&inner.values, f);
            let children = map_children(inner.children.as_slice(), f);
            proof {
                lemma_remade_join(
                    f,
                    inner.values@,
                    children_entries(inner.children@),
                    values@,
                    children_entries(children@),
                );
            }
            ChampNode::Inner(
                InnerNode { datamap: inner.datamap, nodemap: inner.nodemap, values, children },
            )
        },
        ChampNode::Collision(coll) => ChampNode::Collision(
            CollisionNode { hash: coll.hash, entries: map_pairs(&coll.entries, f) },
        ),
    }
}

/// New values for a list of nodes, each node on a thread of its own where one is
/// free.
fn par_map_children<K: View, V, W, F: Fn(&K, &V) -> W + Sync>(
    nodes: &[Arc<ChampNode<K, V>>],
    f: &F,
) -> (made: Vec<Arc<ChampNode<K, W>>>) where K: Send + Sync, V: Send + Sync, W: Send + Sync
    requires
        takes_list(f, children_entries(nodes@)),
    ensures
        remade_nodes(f, nodes@, made@),
    decreases nodes@.len(),
{
    if nodes.len() <= 1 {
        return map_children(nodes, f);
    }
    let ghost whole = nodes@;
    proof {
        assert(whole.len() == nodes.len());
    }
    let (left, right) = nodes.split_at(nodes.len() / 2);
    proof {
        assert(whole =~= left@ + right@);
        lemma_children_join(left@, right@);
        lemma_takes_parts(f, children_entries(left@), children_entries(right@));
    }
    let lower = || -> (made: Vec<Arc<ChampNode<K, W>>>)
        requires
            takes_list(f, children_entries(left@)),
            left@.len() < whole.len(),
        ensures
            remade_nodes(f, left@, made@),
        { par_map_children(left, f) };
    let upper = || -> (made: Vec<Arc<ChampNode<K, W>>>)
        requires
            takes_list(f, children_entries(right@)),
            right@.len() < whole.len(),
        ensures
            remade_nodes(f, right@, made@),
        { par_map_children(right, f) };
    let (a, b) = both(lower, upper);
    let ghost first = a@;
    let ghost second = b@;
    let mut made = a;
    let mut rest = b;
    made.append(&mut rest);
    proof {
        assert(made@ =~= first + second);
        lemma_children_join(first, second);
        lemma_remade_join(
            f,
            children_entries(left@),
            children_entries(right@),
            children_entries(first),
            children_entries(second),
        );
        assert forall|i: int| 0 <= i < whole.len() implies same_shape(
            *#[trigger] whole[i],
            *made@[i],
        ) by {
            if i < left@.len() {
                assert(whole[i] == left@[i]);
                assert(made@[i] == first[i]);
            } else {
                assert(whole[i] == right@[i - left@.len()]);
                assert(made@[i] == second[i - left@.len()]);
            }
        }
    }
    made
}

/// New values for a node, its children on several threads.
fn par_map_node<K: View, V, W, F: Fn(&K, &V) -> W + Sync>(node: &ChampNode<K, V>, f: &F) -> (made:
    ChampNode<K, W>) where K: Send + Sync, V: Send + Sync, W: Send + Sync
    requires
        takes_list(f, node.entries()),
    ensures
        same_shape(*node, made),
        remade(f, node.entries(), made.entries()),
{
    match node {
        ChampNode::Inner(inner) => {
            proof {
                lemma_takes_parts(f, inner.values@, children_entries(inner.children@));
            }
            let values = map_pairs(&inner.values, f);
            let children = par_map_children(inner.children.as_slice(), f);
            proof {
                lemma_remade_join(
                    f,
                    inner.values@,
                    children_entries(inner.children@),
                    values@,
                    children_entries(children@),
                );
            }
            ChampNode::Inner(
                InnerNode { datamap: inner.datamap, nodemap: inner.nodemap, values, children },
            )
        },
        ChampNode::Collision(_) => map_node(node, f),
    }
}

impl<K, V, S> GenericHashMap<K, V, S> {
    /// A map with the same keys, and values that a function makes of the keys and
    /// the values.
    pub fn par_map_values_with_key<W, F: Fn(&K, &V) -> W + Sync + Send>(&self, f: F) -> (map:
        GenericHashMap<K, W, S>) where
        K: HashKey<S> + Send + Sync,
        V: Send + Sync,
        W: Send + Sync,
        S: HashState + Default,

        requires
            self.wf(),
            accepts_entries(f, self@),
        ensures
            map.wf(),
            map@.dom() == self@.dom(),
            forall|key: K::V| #[trigger]
                map@.contains_key(key) ==> makes(f, key, self@[key], map@[key]),
            map.held_keys() == self.held_keys(),
            if self@ == Map::<K::V, V>::empty() {
                anew(map)
            } else {
                map.state() == self.state() && map.kv_merkle() is None
            },
    {
        proof {
            self.lemma_map();
        }
        if self.is_empty() {
            let map = GenericHashMap::new();
            proof {
                assert(map@.dom() =~= self@.dom());
                assert(map@ =~= Map::<K::V, W>::empty());
                assert(map.held_keys() =~= self.held_keys());
            }
            return map;
        }
        match self.root() {
            Some(node) => {
                let ghost pairs = self.entries();
                proof {
                    assert forall|i: int| 0 <= i < pairs.len() implies f.requires(
                        (&*(#[trigger] pairs[i]).0, &*pairs[i].1),
                    ) by {
                        lemma_find(pairs, i);
                        assert(self@.contains_key(inside(pairs[i].0)@));
                    }
                }
                let made = par_map_node(node, &f);
                let ghost made_pairs = made.entries();
                proof {
                    lemma_shape_wf(*node, made, self.state(), Seq::empty());
                    lemma_shape_entries(*node, made);
                    lemma_rekeyed(pairs, made_pairs);
                }
                let map = self.with_root(made);
                proof {
                    map.lemma_map();
                    assert forall|key: K::V| #[trigger] map@.contains_key(key) implies makes(
                        f,
                        key,
                        self@[key],
                        map@[key],
                    ) by {
                        let i = lemma_found(made_pairs, key);
                        assert((*made_pairs[i].0)@ == (*pairs[i].0)@);
                        lemma_find(made_pairs, i);
                        lemma_find(pairs, i);
                        assert(inside(pairs[i].0)@ == key);
                        assert(f.ensures(
                            (&*pairs[i].0, &*pairs[i].1),
                            *made_pairs[i].1,
                        ));
                    }
                    assert forall|key: K::V| map.held_keys().contains_key(key) implies
                        #[trigger] map.held_keys()[key] == self.held_keys()[key] by {
                        let i = lemma_found(made_pairs, key);
                        assert(made_pairs[i].0 == pairs[i].0);
                        lemma_find(made_pairs, i);
                        lemma_find(pairs, i);
                    }
                    assert(map.held_keys() =~= self.held_keys());
                }
                map
            },
            None => GenericHashMap::new(),
        }
    }

    /// A map with the same keys, and values that a function makes of the values.
    pub fn par_map_values<W, F: Fn(&V) -> W + Sync + Send>(&self, f: F) -> (map: GenericHashMap<
        K,
        W,
        S,
    >) where
        K: HashKey<S> + Send + Sync,
        V: Send + Sync,
        W: Send + Sync,
        S: HashState + Default,

        requires
            self.wf(),
            forall|key: K::V| #[trigger] self@.contains_key(key) ==> f.requires((&self@[key],)),
        ensures
            map.wf(),
            map@.dom() == self@.dom(),
            forall|key: K::V| #[trigger]
                map@.contains_key(key) ==> f.ensures((&self@[key],), map@[key]),
            map.held_keys() == self.held_keys(),
            if self@ == Map::<K::V, V>::empty() {
                anew(map)
            } else {
                map.state() == self.state() && map.kv_merkle() is None
            },
    {
        let keyed = |k: &K, v: &V| -> (value: W)
            requires
                takes_one(&f, v),
            ensures
                makes_of_one(&f, v, value),
            { f(v) };
        proof {
            assert forall|k: K| self@.contains_key(#[trigger] k@) implies keyed.requires(
                (&k, &self@[k@]),
            ) by {
                assert(takes_one(&f, &self@[k@]));
            }
        }
        let map = self.par_map_values_with_key(keyed);
        proof {
            assert forall|key: K::V| #[trigger] map@.contains_key(key) implies f.ensures(
                (&self@[key],),
                map@[key],
            ) by {
                assert(makes(keyed, key, self@[key], map@[key]));
                let k = choose|k: K|
                    #[trigger] k@ == key && keyed.ensures((&k, &self@[key]), map@[key]);
                assert(makes_of_one(&f, &self@[key], map@[key]));
            }
        }
        map
    }
}

/// Whether a function of one value accepts it.
pub open spec fn takes_one<V, W, F: Fn(&V) -> W>(f: &F, v: &V) -> bool {
    (*f).requires((v,))
}

/// Whether a function of one value may make `out` of it.
pub open spec fn makes_of_one<V, W, F: Fn(&V) -> W>(f: &F, v: &V, out: W) -> bool {
    (*f).ensures((v,), out)
}

} // verus!
