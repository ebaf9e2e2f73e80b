//! Depth-first iteration over the entries of a trie.
use crate::entries::children_entries;
use crate::node::{ChampNode, CollisionNode, InnerNode, Pair};
use crate::shared::share;
use std::sync::Arc;
use vstd::prelude::*;

verus! {

/// A node on the way of an iterator, with what it has yielded so far.
pub enum IterFrame<'a, K, V> {
    /// An inner node: its own entries come first, then its children.
    Inner {
        /// The node.
        inner: &'a InnerNode<K, V>,
        /// Index of the next entry.
        val_idx: usize,
        /// Index of the next child.
        child_idx: usize,
    },
    /// A collision node.
    Collision {
        /// The node.
        coll: &'a CollisionNode<K, V>,
        /// Index of the next entry.
        idx: usize,
    },
}

/// A stack-based depth-first iterator. At each inner node it yields all entries
/// of the node, then walks the children.
pub struct Iter<'a, K, V> {
    stack: Vec<IterFrame<'a, K, V>>,
    remaining: usize,
}

impl<'a, K, V> IterFrame<'a, K, V> {
    /// Whether the indices are in range.
    pub open spec fn wf(self) -> bool {
        match self {
            IterFrame::Inner { inner, val_idx, child_idx } => val_idx <= inner.values@.len()
                && child_idx <= inner.children@.len(),
            IterFrame::Collision { coll, idx } => idx <= coll.entries@.len(),
        }
    }

    /// The entries that the frame still has to yield.
    pub open spec fn rest(self) -> Seq<Pair<K, V>> {
        match self {
            IterFrame::Inner { inner, val_idx, child_idx } => inner.values@.subrange(
                val_idx as int,
                inner.values@.len() as int,
            ) + children_entries(
                inner.children@.subrange(child_idx as int, inner.children@.len() as int),
            ),
            IterFrame::Collision { coll, idx } => coll.entries@.subrange(
                idx as int,
                coll.entries@.len() as int,
            ),
        }
    }

    spec fn weight(self) -> nat {
        match self {
            IterFrame::Inner { inner, child_idx, .. } => 1 + children_weight(
                inner.children@.subrange(child_idx as int, inner.children@.len() as int),
            ),
            IterFrame::Collision { .. } => 1,
        }
    }
}

spec fn node_weight<K, V>(node: ChampNode<K, V>) -> nat
    decreases node,
{
    match node {
        ChampNode::Inner(inner) => 2 + children_weight(inner.children@),
        ChampNode::Collision(_) => 2,
    }
}

spec fn children_weight<K, V>(children: Seq<Arc<ChampNode<K, V>>>) -> nat
    decreases children,
{
    if children.len() == 0 {
        0
    } else {
        node_weight(*children[0]) + children_weight(children.subrange(1, children.len() as int))
    }
}

spec fn stack_weight<'a, K, V>(stack: Seq<IterFrame<'a, K, V>>) -> nat
    decreases stack.len(),
{
    if stack.len() == 0 {
        0
    } else {
        stack.last().weight() + stack_weight(stack.drop_last())
    }
}

/// The entries that a stack of frames still has to yield, the last frame first.
pub open spec fn pending<'a, K, V>(stack: Seq<IterFrame<'a, K, V>>) -> Seq<Pair<K, V>>
    decreases stack.len(),
{
    if stack.len() == 0 {
        Seq::empty()
    } else {
        stack.last().rest() + pending(stack.drop_last())
    }
}

proof fn lemma_push<'a, K, V>(stack: Seq<IterFrame<'a, K, V>>, frame: IterFrame<'a, K, V>)
    ensures
        pending(stack.push(frame)) == frame.rest() + pending(stack),
        stack_weight(stack.push(frame)) == frame.weight() + stack_weight(stack),
{
    assert(stack.push(frame).drop_last() =~= stack);
}

impl<'a, K, V> View for Iter<'a, K, V> {
    type V = Seq<Pair<K, V>>;

    /// The entries that the iterator still has to yield.
    closed spec fn view(&self) -> Seq<Pair<K, V>> {
        pending(self.stack@)
    }
}

impl<'a, K, V> Iter<'a, K, V> {
    /// Whether the count of what is left is right.
    pub closed spec fn wf(self) -> bool {
        &&& forall|i: int| 0 <= i < self.stack@.len() ==> (#[trigger] self.stack@[i]).wf()
        &&& self.remaining == pending(self.stack@).len()
    }

    /// An iterator over the entries of a node.
    pub(crate) fn over(node: &'a ChampNode<K, V>, size: usize) -> (iter: Self)
        requires
            size == node.entries().len(),
        ensures
            iter.wf(),
            iter@ == node.entries(),
    {
        let mut stack: Vec<IterFrame<'a, K, V>> = Vec::new();
        let frame = match node {
            ChampNode::Inner(inner) => {
                proof {
                    assert(inner.values@.subrange(0, inner.values@.len() as int) =~= inner.values@);
                    assert(inner.children@.subrange(0, inner.children@.len() as int)
                        =~= inner.children@);
                }
                IterFrame::Inner { inner, val_idx: 0, child_idx: 0 }
            },
            ChampNode::Collision(coll) => {
                proof {
                    assert(coll.entries@.subrange(0, coll.entries@.len() as int)
                        =~= coll.entries@);
                }
                IterFrame::Collision { coll, idx: 0 }
            },
        };
        proof {
            lemma_push(stack@, frame);
        }
        stack.push(frame);
        Iter { stack, remaining: size }
    }

    /// An iterator over nothing.
    pub(crate) fn over_nothing() -> (iter: Self)
        ensures
            iter.wf(),
            iter@ == Seq::<Pair<K, V>>::empty(),
    {
        Iter { stack: Vec::new(), remaining: 0 }
    }

    /// Number of entries that are left.
    pub fn len(&self) -> (n: usize)
        requires
            self.wf(),
        ensures
            n == self@.len(),
    {
        self.remaining
    }

    /// The next entry.
    pub fn next(&mut self) -> (item: Option<(&'a K, &'a V)>)
        requires
            old(self).wf(),
        ensures
            final(self).wf(),
            match item {
                Some((key, value)) => {
                    &&& old(self)@.len() > 0
                    &&& *key == *old(self)@[0].0
                    &&& *value == *old(self)@[0].1
                    &&& final(self)@ == old(self)@.subrange(1, old(self)@.len() as int)
                },
                None => old(self)@.len() == 0 && final(self)@.len() == 0,
            },
    {
        match self.next_pair() {
            Some(pair) => Some((&*pair.0, &*pair.1)),
            None => None,
        }
    }

    /// The next entry, as the shared pair that the trie holds.
    pub(crate) fn next_pair(&mut self) -> (item: Option<&'a Pair<K, V>>)
        requires
            old(self).wf(),
        ensures
            final(self).wf(),
            match item {
                Some(pair) => {
                    &&& old(self)@.len() > 0
                    &&& *pair == old(self)@[0]
                    &&& final(self)@ == old(self)@.subrange(1, old(self)@.len() as int)
                },
                None => old(self)@.len() == 0 && final(self)@.len() == 0,
            },
    {
        let ghost all = self@;
        loop
            invariant
                self.wf(),
                self@ == all,
                all == old(self)@,
            decreases stack_weight(self.stack@),
        {
            let ghost before = self.stack@;
            let Some(frame) = self.stack.pop() else {
                return None;
            };
            let ghost below = self.stack@;
            proof {
                assert(before.last() == frame);
                assert(before.drop_last() == below);
                assert(frame.wf());
            }
            match frame {
                IterFrame::Inner { inner, val_idx, child_idx } => {
                    if val_idx < inner.values.len() {
                        let next = IterFrame::Inner { inner, val_idx: val_idx + 1, child_idx };
                        self.stack.push(next);
                        self.remaining = self.remaining - 1;
                        proof {
                            lemma_push(below, next);
                            assert(self@ =~= all.subrange(1, all.len() as int));
                        }
                        return Some(&inner.values[val_idx]);
                    }
                    if child_idx < inner.children.len() {
                        let child: &'a ChampNode<K, V> = &*inner.children[child_idx];
                        let next = IterFrame::Inner { inner, val_idx, child_idx: child_idx + 1 };
                        let ghost left = inner.children@.subrange(
                            child_idx as int,
                            inner.children@.len() as int,
                        );
                        proof {
                            assert(left[0] == inner.children@[child_idx as int]);
                            assert(left.subrange(1, left.len() as int) =~= inner.children@.subrange(
                                child_idx + 1,
                                inner.children@.len() as int,
                            ));
                            lemma_push(below, next);
                        }
                        self.stack.push(next);
                        let ghost middle = self.stack@;
                        let top = match child {
                            ChampNode::Inner(inner) => {
                                proof {
                                    assert(inner.values@.subrange(0, inner.values@.len() as int)
                                        =~= inner.values@);
                                    assert(inner.children@.subrange(0, inner.children@.len() as int)
                                        =~= inner.children@);
                                }
                                IterFrame::Inner { inner, val_idx: 0, child_idx: 0 }
                            },
                            ChampNode::Collision(coll) => {
                                proof {
                                    assert(coll.entries@.subrange(0, coll.entries@.len() as int)
                                        =~= coll.entries@);
                                }
                                IterFrame::Collision { coll, idx: 0 }
                            },
                        };
                        self.stack.push(top);
                        proof {
                            lemma_push(middle, top);
                            assert(top.rest() == child.entries());
                            assert(children_weight(left) == node_weight(*left[0])
                                + children_weight(left.subrange(1, left.len() as int)));
                            assert(top.weight() + 1 == node_weight(*child));
                            assert(self@ =~= all);
                        }
                        continue;
                    }
                    proof {
                        assert(frame.rest() =~= Seq::<Pair<K, V>>::empty());
                        assert(self@ =~= all);
                    }
                },
                IterFrame::Collision { coll, idx } => {
                    if idx < coll.entries.len() {
                        let next = IterFrame::Collision { coll, idx: idx + 1 };
                        self.stack.push(next);
                        self.remaining = self.remaining - 1;
                        proof {
                            lemma_push(below, next);
                            assert(self@ =~= all.subrange(1, all.len() as int));
                        }
                        return Some(&coll.entries[idx]);
                    }
                    proof {
                        assert(frame.rest() =~= Seq::<Pair<K, V>>::empty());
                        assert(self@ =~= all);
                    }
                },
            }
        }
    }

    /// What is left, as a list of shared pairs.
    pub(crate) fn collect_pairs(self) -> (pairs: Vec<Pair<K, V>>)
        requires
            self.wf(),
        ensures
            pairs@ == self@,
    {
        let mut iter = self;
        let ghost all = iter@;
        let mut pairs: Vec<Pair<K, V>> = Vec::new();
        loop
            invariant
                iter.wf(),
                pairs@ + iter@ == all,
            ensures
                pairs@ == all,
            decreases iter@.len(),
        {
            let ghost before = iter@;
            match iter.next_pair() {
                Some(pair) => {
                    pairs.push((share(&pair.0), share(&pair.1)));
                    proof {
                        assert(pairs@ + iter@ =~= all);
                    }
                },
                None => {
                    proof {
                        assert(pairs@ =~= all);
                    }
                    break;
                },
            }
        }
        pairs
    }
}

} // verus!
