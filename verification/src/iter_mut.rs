//! Iteration over the entries of a hash map, the values for mutation in place.
use crate::node::{ChampNode, Pair};
use crate::node::lemma_find;
use crate::entries::children_entries;
use crate::hash_key::HashKey;
use crate::hash_map::GenericHashMap;
use crate::shape::{lemma_rekeyed, lemma_shape_entries, lemma_shape_wf};
use crate::shape::{same_keys, same_shape};
use crate::trie::Trie;
use crate::shared::{inside, own_mut};
use std::sync::Arc;
use vstd::prelude::*;

verus! {

/// Lends the values of a list of entries out, each with its key. Values that
/// other maps share are cloned first.
fn lend_pairs<'a, K: View, V: Clone>(
    pairs: &'a mut [Pair<K, V>],
    out: Vec<(&'a K, &'a mut V)>,
) -> (lent: Vec<(&'a K, &'a mut V)>)
    ensures
        same_keys(old(pairs)@, final(pairs)@),
        lent@.len() == out@.len() + old(pairs)@.len(),
        lent@.take(out@.len() as int) == out@,
        forall|i: int|
            #![trigger old(pairs)@[i]]
            0 <= i < old(pairs)@.len() ==> {
                &&& *lent@[out@.len() + i].0 == *old(pairs)@[i].0
                &&& cloned(*old(pairs)@[i].1, *lent@[out@.len() + i].1)
                &&& *final(pairs)@[i].1 == *final(lent@[out@.len() + i].1)
            },
    decreases old(pairs)@.len(),
{
    let ghost before = pairs@;
    let ghost after = final(pairs)@;
    let ghost start = out@;
    if pairs.len() == 0 {
        return out;
    }
    let (head, tail) = pairs.split_at_mut(1);
    let ghost head_after = final(head)@;
    let ghost tail_after = final(tail)@;
    let mut out = out;
    match head.first_mut() {
        Some(pair) => {
            let (key, value) = pair;
            out.push((&**key, own_mut(value)));
        },
        None => {},
    }
    let ghost one = out@;
    let lent = lend_pairs(tail, out);
    proof {
        let m = start.len() as int;
        assert(after =~= head_after + tail_after);
        assert(one.take(m) =~= start);
        assert(lent@.take(m) =~= lent@.take(m + 1).take(m));
        assert forall|i: int|
            #![trigger before[i]]
            0 <= i < before.len() implies {
            &&& *lent@[m + i].0 == *before[i].0
            &&& cloned(*before[i].1, *lent@[m + i].1)
            &&& *after[i].1 == *final(lent@[m + i].1)
        } by {
            if i == 0 {
                assert(lent@.take(m + 1)[m] == one[m]);
                assert(lent@[m] == one[m]);
            } else {
                assert(after[i] == tail_after[i - 1]);
                assert(before[i] == before.subrange(1, before.len() as int)[i - 1]);
            }
        }
    }
    lent
}

/// Lends the values of a list of nodes out.
fn lend_children<'a, K: View, V: Clone>(
    children: &'a mut [Arc<ChampNode<K, V>>],
    out: Vec<(&'a K, &'a mut V)>,
) -> (lent: Vec<(&'a K, &'a mut V)>)
    ensures
        old(children)@.len() == final(children)@.len(),
        forall|i: int|
            0 <= i < old(children)@.len() ==> same_shape(
                *#[trigger] old(children)@[i],
                *final(children)@[i],
            ),
        children_entries(old(children)@).len() == children_entries(final(children)@).len(),
        lent@.len() == out@.len() + children_entries(old(children)@).len(),
        lent@.take(out@.len() as int) == out@,
        forall|i: int|
            #![trigger children_entries(old(children)@)[i]]
            0 <= i < children_entries(old(children)@).len() ==> {
                &&& *lent@[out@.len() + i].0 == *children_entries(old(children)@)[i].0
                &&& cloned(*children_entries(old(children)@)[i].1, *lent@[out@.len() + i].1)
                &&& *children_entries(final(children)@)[i].1 == *final(lent@[out@.len() + i].1)
            },
    decreases old(children)@,
{
    let ghost before = children@;
    let ghost after = final(children)@;
    let ghost start = out@;
    if children.len() == 0 {
        return out;
    }
    let (head, tail) = children.split_at_mut(1);
    let ghost head_after = final(head)@;
    let ghost tail_after = final(tail)@;
    let ghost first = inside(before[0]);
    let ghost one = start;
    proof {
        assert(head@[0] == before[0]);
    }
    let one = match head.first_mut() {
        Some(node) => lend_node(node, out),
        None => out,
    };
    let ghost middle = one@;
    let lent = lend_children(tail, one);
    proof {
        let m = start.len() as int;
        let rest = before.subrange(1, before.len() as int);
        assert(after =~= head_after + tail_after);
        assert(after.subrange(1, after.len() as int) =~= tail_after);
        assert(after[0] == head_after[0]);
        let n = first.entries().len() as int;
        let all = children_entries(before);
        let new_all = children_entries(after);
        assert(all == first.entries() + children_entries(rest));
        assert(same_shape(first, inside(after[0])));
        lemma_shape_entries(first, inside(after[0]));
        assert(new_all == inside(after[0]).entries() + children_entries(tail_after));
        assert(middle.take(m) =~= start);
        assert(lent@.take(m) =~= lent@.take(middle.len() as int).take(m));
        assert forall|i: int| 0 <= i < before.len() implies same_shape(
            *#[trigger] before[i],
            *after[i],
        ) by {
            if i > 0 {
                assert(before[i] == rest[i - 1]);
                assert(after[i] == tail_after[i - 1]);
            }
        }
        assert forall|i: int|
            #![trigger all[i]]
            0 <= i < all.len() implies {
            &&& *lent@[m + i].0 == *all[i].0
            &&& cloned(*all[i].1, *lent@[m + i].1)
            &&& *new_all[i].1 == *final(lent@[m + i].1)
        } by {
            if i < n {
                assert(lent@.take(middle.len() as int)[m + i] == middle[m + i]);
                assert(all[i] == first.entries()[i]);
                assert(new_all[i] == inside(after[0]).entries()[i]);
            } else {
                assert(all[i] == children_entries(rest)[i - n]);
                assert(new_all[i] == children_entries(tail_after)[i - n]);
            }
        }
    }
    lent
}

/// Lends the values of a node out. Nodes that other tries share are copied
/// first.
fn lend_node<'a, K: View, V: Clone>(
    this: &'a mut Arc<ChampNode<K, V>>,
    out: Vec<(&'a K, &'a mut V)>,
) -> (lent: Vec<(&'a K, &'a mut V)>)
    ensures
        same_shape(**old(this), **final(this)),
        old(this).entries().len() == final(this).entries().len(),
        lent@.len() == out@.len() + old(this).entries().len(),
        lent@.take(out@.len() as int) == out@,
        forall|i: int|
            #![trigger old(this).entries()[i]]
            0 <= i < old(this).entries().len() ==> {
                &&& *lent@[out@.len() + i].0 == *old(this).entries()[i].0
                &&& cloned(*old(this).entries()[i].1, *lent@[out@.len() + i].1)
                &&& *final(this).entries()[i].1 == *final(lent@[out@.len() + i].1)
            },
    decreases **old(this),
{
    let ghost before = inside(*this);
    let ghost after = inside(*final(this));
    let ghost start = out@;
    let node = own_mut(this);
    let ghost copy = *node;
    proof {
        assert(cloned(before, copy));
        assert(copy.like(before));
    }
    match node {
        ChampNode::Inner(inner) => {
            let ghost old_inner = *inner;
            let ghost new_inner = *final(inner);
            let ghost source = before->Inner_0;
            let pairs = inner.values.as_mut_slice();
            let children = inner.children.as_mut_slice();
            let one = lend_pairs(pairs, out);
            let ghost middle = one@;
            let lent = lend_children(children, one);
            proof {
                let m = start.len() as int;
                let n = old_inner.values@.len() as int;
                let all = before.entries();
                let new_all = after.entries();
                assert(all == source.values@ + children_entries(source.children@));
                assert(new_all == new_inner.values@ + children_entries(new_inner.children@));
                assert(middle.take(m) =~= start);
                assert(lent@.take(m) =~= lent@.take(middle.len() as int).take(m));
                assert forall|i: int|
                    #![trigger all[i]]
                    0 <= i < all.len() implies {
                    &&& *lent@[m + i].0 == *all[i].0
                    &&& cloned(*all[i].1, *lent@[m + i].1)
                    &&& *new_all[i].1 == *final(lent@[m + i].1)
                } by {
                    if i < n {
                        assert(lent@.take(middle.len() as int)[m + i] == middle[m + i]);
                        assert(all[i] == source.values@[i]);
                    } else {
                        assert(all[i] == children_entries(source.children@)[i - n]);
                    }
                }
            }
            lent
        },
        ChampNode::Collision(coll) => {
            let pairs = coll.entries.as_mut_slice();
            lend_pairs(pairs, out)
        },
    }
}

/// An iterator over the entries of a map, the values for mutation in place.
pub struct IterMut<'a, K, V> {
    /// The entries that are left, the next one last.
    stack: Vec<(&'a K, &'a mut V)>,
}

impl<'a, K, V> View for IterMut<'a, K, V> {
    type V = Seq<(&'a K, &'a mut V)>;

    /// The entries that are left.
    closed spec fn view(&self) -> Seq<(&'a K, &'a mut V)> {
        self.stack@.reverse()
    }
}

impl<'a, K, V> IterMut<'a, K, V> {
    /// An iterator over a list.
    fn over(list: Vec<(&'a K, &'a mut V)>) -> (iter: Self)
        ensures
            iter@ == list@,
    {
        let ghost all = list@;
        let mut stack: Vec<(&'a K, &'a mut V)> = Vec::new();
        let mut rest = list;
        proof {
            assert(rest@ + stack@.reverse() =~= all);
        }
        loop
            invariant
                rest@ + stack@.reverse() == all,
            ensures
                stack@.reverse() == all,
            decreases rest@.len(),
        {
            let ghost before = rest@ + stack@.reverse();
            match rest.pop() {
                Some(item) => {
                    stack.push(item);
                    proof {
                        assert(rest@ + stack@.reverse() =~= before);
                    }
                },
                None => {
                    proof {
                        assert(stack@.reverse() =~= before);
                    }
                    break;
                },
            }
        }
        IterMut { stack }
    }

    /// Number of entries that are left.
    pub fn len(&self) -> (n: usize)
        ensures
            n == self@.len(),
    {
        self.stack.len()
    }

    /// The next entry.
    pub fn next(&mut self) -> (item: Option<(&'a K, &'a mut V)>)
        ensures
            match item {
                Some(entry) => {
                    &&& old(self)@.len() > 0
                    &&& entry == old(self)@[0]
                    &&& final(self)@ == old(self)@.skip(1)
                },
                None => old(self)@.len() == 0 && final(self)@.len() == 0,
            },
    {
        let item = self.stack.pop();
        proof {
            if item is Some {
                assert(self@ =~= old(self)@.skip(1));
            }
        }
        item
    }
}

impl<K, V> Trie<K, V> {
    /// Lends the values of a trie out.
    fn lend<'a, S>(&'a mut self, Ghost(state): Ghost<S>) -> (lent: Vec<(&'a K, &'a mut V)>) where
        K: HashKey<S>,
        V: Clone,

        requires
            old(self).wf(state),
        ensures
            final(self).wf(state),
            same_keys(old(self).entries(), final(self).entries()),
            lent@.len() == old(self).entries().len(),
            forall|i: int|
                #![trigger old(self).entries()[i]]
                0 <= i < old(self).entries().len() ==> {
                    &&& *lent@[i].0 == *old(self).entries()[i].0
                    &&& cloned(*old(self).entries()[i].1, *lent@[i].1)
                    &&& *final(self).entries()[i].1 == *final(lent@[i].1)
                },
    {
        let ghost before = *self;
        let ghost after = *final(self);
        proof {
            before.lemma_trie(state);
        }
        match &mut self.root {
            Some(node) => {
                let ghost old_node = inside(*node);
                let ghost new_node = inside(*final(node));
                let lent = lend_node(node, Vec::new());
                proof {
                    before.lemma_rooted(state);
                    lemma_shape_wf(old_node, new_node, state, Seq::empty());
                    lemma_shape_entries(old_node, new_node);
                    assert(after.root == Some(Arc::new(new_node)));
                    after.lemma_make(state);
                }
                lent
            },
            None => Vec::new(),
        }
    }
}

impl<K, V, S> GenericHashMap<K, V, S> {
    /// An iterator over the entries, the values for mutation in place, which
    /// invalidates the fingerprint of keys and values. Values that other maps
    /// share are cloned first.
    pub fn iter_mut<'a>(&'a mut self) -> (iter: IterMut<'a, K, V>) where K: HashKey<S>, V: Clone
        requires
            old(self).wf(),
        ensures
            final(self).wf(),
            final(self).state() == old(self).state(),
            final(self).kv_merkle() is None,
            final(self)@.dom() == old(self)@.dom(),
            iter@.len() == old(self).entries().len(),
            forall|i: int|
                #![trigger old(self).entries()[i]]
                0 <= i < old(self).entries().len() ==> {
                    let name = (*old(self).entries()[i].0)@;
                    &&& *iter@[i].0 == *old(self).entries()[i].0
                    &&& cloned(old(self)@[name], *iter@[i].1)
                    &&& final(self)@[name] == *final(iter@[i].1)
                },
    {
        let ghost before = *self;
        let ghost after = *final(self);
        let (trie, state) = self.lend_trie();
        let ghost held = *state;
        let lent = trie.lend(Ghost(held));
        proof {
            before.lemma_map();
            lemma_rekeyed(before.entries(), after.entries());
            after.lemma_map();
            assert forall|i: int|
                #![trigger before.entries()[i]]
                0 <= i < before.entries().len() implies {
                let name = (*before.entries()[i].0)@;
                &&& before@[name] == *before.entries()[i].1
                &&& after@[name] == *after.entries()[i].1
            } by {
                lemma_find(before.entries(), i);
                lemma_find(after.entries(), i);
                assert((*after.entries()[i].0)@ == (*before.entries()[i].0)@);
            }
        }
        IterMut::over(lent)
    }
}

} // verus!
