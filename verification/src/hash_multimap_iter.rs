//! Iterators over the pairs of a multimap.
use crate::bimap::pair_names;
use crate::hash_key::{HashKey, HashState};
use crate::hash_multimap::{relation, GenericHashMultiMap};
use crate::hash_set;
use crate::hash_set::GenericHashSet;
use crate::iter as map_iter;
use crate::map_iters;
use crate::map_iters::names;
use crate::node::{distinct, Pair};
use crate::node::{lemma_find, lemma_found};
use crate::shared::{inside, take};
use crate::trie::pairs_map;
use std::sync::Arc;
use vstd::prelude::*;

verus! {

/// The pairs of one key with a list of values.
pub open spec fn pair_up<K, V>(key: K, values: Seq<V>) -> Seq<(K, V)> {
    values.map_values(|value: V| (key, value))
}

/// The pairs of a list of rows, row by row.
pub open spec fn flat<K, V, S>(rows: Seq<Pair<K, GenericHashSet<V, S>>>) -> Seq<(K, V)>
    decreases rows.len(),
{
    if rows.len() == 0 {
        Seq::empty()
    } else {
        pair_up(*rows[0].0, rows[0].1.elements()) + flat(rows.skip(1))
    }
}

/// Whether the sets of a list of rows are well formed.
pub open spec fn sound<K, S, V: HashKey<S>>(rows: Seq<Pair<K, GenericHashSet<V, S>>>) -> bool {
    forall|i: int| 0 <= i < rows.len() ==> (#[trigger] rows[i]).1.wf()
}

/// A list without its first entry, as a map.
proof fn lemma_first<K: View, V>(pairs: Seq<Pair<K, V>>)
    requires
        distinct(pairs),
        pairs.len() > 0,
    ensures
        distinct(pairs.skip(1)),
        !pairs_map(pairs.skip(1)).contains_key((*pairs[0].0)@),
        pairs_map(pairs) == pairs_map(pairs.skip(1)).insert((*pairs[0].0)@, *pairs[0].1),
{
    let rest = pairs.skip(1);
    let first = (*pairs[0].0)@;
    assert forall|i: int, j: int| 0 <= i < j < rest.len() implies (*(#[trigger] rest[i]).0)@ != (
    *(#[trigger] rest[j]).0)@ by {
        assert((*pairs[i + 1].0)@ != (*pairs[j + 1].0)@);
    }
    lemma_find(pairs, 0);
    if pairs_map(rest).contains_key(first) {
        let i = lemma_found(rest, first);
        assert((*pairs[0].0)@ != (*pairs[i + 1].0)@);
    }
    assert forall|key: K::V| key != first implies crate::node::find(pairs, key)
        == crate::node::find(rest, key) by {
        if crate::node::find(rest, key) is Some {
            let i = lemma_found(rest, key);
            lemma_find(rest, i);
            lemma_find(pairs, i + 1);
        }
        if crate::node::find(pairs, key) is Some {
            let i = lemma_found(pairs, key);
            assert(i > 0);
            lemma_find(pairs, i);
            lemma_find(rest, i - 1);
        }
    }
    assert(pairs_map(pairs) =~= pairs_map(rest).insert(first, *pairs[0].1));
}

/// The pairs of distinct rows list the relation, each pair once.
proof fn lemma_flat<K: View, S, V: HashKey<S>>(rows: Seq<Pair<K, GenericHashSet<V, S>>>)
    requires
        distinct(rows),
        sound(rows),
    ensures
        pair_names(flat(rows)).no_duplicates(),
        pair_names(flat(rows)).to_set() == relation(pairs_map(rows)),
    decreases rows.len(),
{
    let all = pair_names(flat(rows));
    if rows.len() == 0 {
        assert(pairs_map(rows) =~= Map::<K::V, GenericHashSet<V, S>>::empty());
        assert(all.to_set() =~= relation(pairs_map(rows)));
    } else {
        let key = (*rows[0].0)@;
        let set = inside(rows[0].1);
        let rest = rows.skip(1);
        lemma_first(rows);
        lemma_flat(rest);
        set.lemma_set();
        let front = pair_names(pair_up(inside(rows[0].0), set.elements()));
        let back = pair_names(flat(rest));
        let values = names(set.elements());
        assert(all =~= front + back);
        assert forall|i: int| 0 <= i < front.len() implies #[trigger] front[i] == (
            key,
            values[i],
        ) by {}
        assert forall|i: int| 0 <= i < back.len() implies (#[trigger] back[i]).0 != key by {
            assert(back.to_set().contains(back[i]));
            assert(relation(pairs_map(rest)).contains(back[i]));
        }
        assert(all.no_duplicates());
        assert forall|pair: (K::V, V::V)| all.to_set().contains(pair) == relation(
            pairs_map(rows),
        ).contains(pair) by {
            if all.to_set().contains(pair) {
                let i = choose|i: int| 0 <= i < all.len() && all[i] == pair;
                if i < front.len() {
                    assert(front[i] == pair);
                    assert(values.to_set().contains(values[i]));
                } else {
                    assert(back[i - front.len()] == pair);
                    assert(back.to_set().contains(pair));
                    assert(relation(pairs_map(rest)).contains(pair));
                }
            }
            if relation(pairs_map(rows)).contains(pair) {
                if pair.0 == key {
                    assert(values.to_set().contains(pair.1));
                    let i = choose|i: int| 0 <= i < values.len() && values[i] == pair.1;
                    assert(front[i] == pair);
                    assert(all[i] == pair);
                } else {
                    assert(relation(pairs_map(rest)).contains(pair));
                    assert(back.to_set().contains(pair));
                    let i = choose|i: int| 0 <= i < back.len() && back[i] == pair;
                    assert(all[front.len() + i] == pair);
                }
            }
        }
        assert(all.to_set() =~= relation(pairs_map(rows)));
    }
}

/// An iterator over the pairs of a multimap.
pub struct Iter<'a, K, V, S> {
    outer: map_iter::Iter<'a, K, GenericHashSet<V, S>>,
    inner: Option<(&'a K, hash_set::Iter<'a, V>)>,
    remaining: usize,
}

impl<'a, K, V, S> View for Iter<'a, K, V, S> {
    type V = Seq<(K, V)>;

    /// The pairs that are left.
    closed spec fn view(&self) -> Seq<(K, V)> {
        (match self.inner {
            Some((key, values)) => pair_up(*key, values@),
            None => Seq::empty(),
        }) + flat(self.outer@)
    }
}

impl<'a, K, V, S> Iter<'a, K, V, S> {
    /// Whether the iterator stands in its tries and knows how much is left.
    pub closed spec fn wf(self) -> bool where V: HashKey<S> {
        &&& self.outer.wf()
        &&& sound(self.outer@)
        &&& self.inner matches Some((_, values)) ==> values.wf()
        &&& self.remaining == self@.len()
    }

    /// Number of pairs that are left.
    pub fn len(&self) -> (n: usize) where V: HashKey<S>
        requires
            self.wf(),
        ensures
            n == self@.len(),
    {
        self.remaining
    }

    /// The next pair.
    pub fn next(&mut self) -> (pair: Option<(&'a K, &'a V)>) where V: HashKey<S>
        requires
            old(self).wf(),
        ensures
            final(self).wf(),
            match pair {
                Some((key, value)) => {
                    &&& old(self)@.len() > 0
                    &&& (*key, *value) == old(self)@[0]
                    &&& final(self)@ == old(self)@.skip(1)
                },
                None => old(self)@.len() == 0 && final(self)@.len() == 0,
            },
    {
        loop
            invariant
                self.wf(),
                self@ == old(self)@,
            decreases
                    self.outer@.len(),
                    (if self.inner is Some {
                        1int
                    } else {
                        0int
                    }),
        {
            let ghost before = self@;
            match &mut self.inner {
                Some((key, values)) => {
                    let key: &'a K = *key;
                    let ghost left = values@;
                    match values.next() {
                        Some(value) => {
                            self.remaining -= 1;
                            proof {
                                assert(before =~= pair_up(*key, left) + flat(self.outer@));
                                assert(before[0] == (*key, *value));
                                assert(self@ =~= before.skip(1));
                            }
                            return Some((key, value));
                        },
                        None => {},
                    }
                    self.inner = None;
                    proof {
                        assert(pair_up(*key, left).len() == 0);
                        assert(self@ =~= before);
                    }
                },
                None => {},
            }
            let ghost rows = self.outer@;
            match self.outer.next() {
                Some((key, set)) => {
                    proof {
                        assert(rows[0].1.wf());
                        assert(self.outer@ =~= rows.skip(1));
                        assert forall|i: int| 0 <= i < self.outer@.len() implies (
                        #[trigger] self.outer@[i]).1.wf() by {
                            assert(rows[i + 1].1.wf());
                        }
                    }
                    self.inner = Some((key, set.iter()));
                    proof {
                        assert(self@ =~= before);
                    }
                },
                None => {
                    return None;
                },
            }
        }
    }
}

/// An iterator that hands the pairs of a multimap out. The key of a row is
/// cloned for each of its values.
pub struct ConsumingIter<K, V, S> {
    outer: map_iters::ConsumingIter<K, GenericHashSet<V, S>>,
    inner: Option<(Arc<K>, hash_set::ConsumingIter<V>)>,
    remaining: usize,
}

impl<K, V, S> View for ConsumingIter<K, V, S> {
    type V = Seq<(K, V)>;

    /// The pairs that are left.
    closed spec fn view(&self) -> Seq<(K, V)> {
        (match self.inner {
            Some((key, values)) => pair_up(*key, values@),
            None => Seq::empty(),
        }) + flat(self.outer@)
    }
}

impl<K, V, S> ConsumingIter<K, V, S> {
    /// Whether the sets are well formed and the iterator knows how much is left.
    pub closed spec fn wf(self) -> bool where V: HashKey<S> {
        &&& sound(self.outer@)
        &&& self.remaining == self@.len()
    }

    /// Number of pairs that are left.
    pub fn len(&self) -> (n: usize) where V: HashKey<S>
        requires
            self.wf(),
        ensures
            n == self@.len(),
    {
        self.remaining
    }

    /// The next pair.
    pub fn next(&mut self) -> (pair: Option<(K, V)>) where
        K: Clone,
        V: HashKey<S> + Clone,
        S: HashState,

        requires
            old(self).wf(),
        ensures
            final(self).wf(),
            match pair {
                Some((key, value)) => {
                    &&& old(self)@.len() > 0
                    &&& cloned(old(self)@[0].0, key)
                    &&& cloned(old(self)@[0].1, value)
                    &&& final(self)@ == old(self)@.skip(1)
                },
                None => old(self)@.len() == 0 && final(self)@.len() == 0,
            },
    {
        loop
            invariant
                self.wf(),
                self@ == old(self)@,
            decreases
                    self.outer@.len(),
                    (if self.inner is Some {
                        1int
                    } else {
                        0int
                    }),
        {
            let ghost before = self@;
            match &mut self.inner {
                Some((key, values)) => {
                    let ghost held = inside(*key);
                    let ghost left = values@;
                    match values.next() {
                        Some(value) => {
                            let copy: K = (**key).clone();
                            self.remaining -= 1;
                            proof {
                                assert(cloned(held, copy));
                                assert(before =~= pair_up(held, left) + flat(self.outer@));
                                assert(before[0] == (held, left[0]));
                                assert(self@ =~= before.skip(1));
                            }
                            return Some((copy, value));
                        },
                        None => {},
                    }
                    self.inner = None;
                    proof {
                        assert(pair_up(held, left).len() == 0);
                        assert(self@ =~= before);
                    }
                },
                None => {},
            }
            let ghost rows = self.outer@;
            match self.outer.next_pair() {
                Some(pair) => {
                    proof {
                        assert(rows[0].1.wf());
                        assert forall|i: int| 0 <= i < self.outer@.len() implies (
                        #[trigger] self.outer@[i]).1.wf() by {
                            assert(rows[i + 1].1.wf());
                        }
                    }
                    let ghost held = inside(pair.1);
                    let set = take(pair.1);
                    proof {
                        assert(cloned(held, set));
                        assert(set == held);
                    }
                    self.inner = Some((pair.0, set.into_iter()));
                    proof {
                        assert(self@ =~= before);
                    }
                },
                None => {
                    return None;
                },
            }
        }
    }
}

impl<K, V, S> GenericHashMultiMap<K, V, S> {
    /// The pairs, in the order in which they are walked.
    pub open spec fn pairs(self) -> Seq<(K, V)> {
        flat(self.rows())
    }

    /// The walk meets each pair once, and nothing else.
    pub proof fn law_walk(self) where K: HashKey<S>, V: HashKey<S>
        requires
            self.wf(),
        ensures
            pair_names(self.pairs()).no_duplicates(),
            pair_names(self.pairs()).to_set() == self@,
            self.pairs().len() == self@.len(),
            sound(self.rows()),
    {
        self.lemma_multimap();
        let rows = self.rows();
        assert forall|i: int| 0 <= i < rows.len() implies (#[trigger] rows[i]).1.wf() by {
            lemma_find(rows, i);
            assert(pairs_map(rows).contains_key((*rows[i].0)@));
        }
        lemma_flat(rows);
        pair_names(self.pairs()).unique_seq_to_set();
    }

    /// An iterator over the pairs.
    pub fn iter<'a>(&'a self) -> (iter: Iter<'a, K, V, S>) where K: HashKey<S>, V: HashKey<S>
        requires
            self.wf(),
        ensures
            iter.wf(),
            iter@ == self.pairs(),
    {
        proof {
            self.law_walk();
        }
        let iter = Iter { outer: self.iter_sets(), inner: None, remaining: self.len() };
        proof {
            assert(iter@ =~= self.pairs());
        }
        iter
    }

    /// An iterator that hands the pairs out.
    pub fn into_iter(self) -> (iter: ConsumingIter<K, V, S>) where K: HashKey<S>, V: HashKey<S>
        requires
            self.wf(),
        ensures
            iter.wf(),
            iter@ == self.pairs(),
    {
        proof {
            self.law_walk();
        }
        let remaining: usize = self.len();
        let iter = ConsumingIter {
            outer: map_iters::ConsumingIter::over(self.row_pairs()),
            inner: None,
            remaining,
        };
        proof {
            assert(iter@ =~= self.pairs());
        }
        iter
    }
}

} // verus!
