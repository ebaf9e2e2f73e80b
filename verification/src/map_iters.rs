//! Iterators over the keys, the values and the owned entries of a map.
use crate::hash_key::HashKey;
use crate::hash_map::GenericHashMap;
use crate::iter::Iter;
use crate::node::{distinct, find, Pair};
use crate::node::{lemma_find, lemma_found};
use crate::shared::take;
use crate::trie::pairs_map;
use vstd::prelude::*;

verus! {

/// The keys of a list of entries.
pub open spec fn keys_of<K, V>(pairs: Seq<Pair<K, V>>) -> Seq<K> {
    pairs.map_values(|pair: Pair<K, V>| *pair.0)
}

/// The values of a list of entries.
pub open spec fn values_of<K, V>(pairs: Seq<Pair<K, V>>) -> Seq<V> {
    pairs.map_values(|pair: Pair<K, V>| *pair.1)
}

/// The names of a list of keys: their views.
pub open spec fn names<K: View>(keys: Seq<K>) -> Seq<K::V> {
    keys.map_values(|k: K| k@)
}

/// The keys of distinct entries list the domain of their map, each once.
pub proof fn lemma_keys_of<K: View, V>(pairs: Seq<Pair<K, V>>)
    requires
        distinct(pairs),
    ensures
        names(keys_of(pairs)).no_duplicates(),
        names(keys_of(pairs)).to_set() == pairs_map(pairs).dom(),
{
    let keys = names(keys_of(pairs));
    assert forall|i: int, j: int|
        0 <= i < keys.len() && 0 <= j < keys.len() && i != j implies keys[i] != keys[j] by {
        if i < j {
            assert((*pairs[i].0)@ != (*pairs[j].0)@);
        } else {
            assert((*pairs[j].0)@ != (*pairs[i].0)@);
        }
    }
    assert forall|key: K::V| keys.to_set().contains(key) <==> pairs_map(pairs).dom().contains(
        key,
    ) by {
        if keys.to_set().contains(key) {
            let i = choose|i: int| 0 <= i < keys.len() && keys[i] == key;
            lemma_find(pairs, i);
        }
        if find(pairs, key) is Some {
            let i = lemma_found(pairs, key);
            assert(keys[i] == key);
        }
    }
    assert(keys.to_set() =~= pairs_map(pairs).dom());
}

/// An iterator over the keys of a map.
pub struct Keys<'a, K, V> {
    it: Iter<'a, K, V>,
}

impl<'a, K, V> View for Keys<'a, K, V> {
    type V = Seq<K>;

    /// The keys that are left.
    closed spec fn view(&self) -> Seq<K> {
        keys_of(self.it@)
    }
}

impl<'a, K, V> Keys<'a, K, V> {
    /// Whether the iterator stands in a trie.
    pub closed spec fn wf(self) -> bool {
        self.it.wf()
    }

    /// Number of keys that are left.
    pub fn len(&self) -> (n: usize)
        requires
            self.wf(),
        ensures
            n == self@.len(),
    {
        self.it.len()
    }

    /// The next key.
    pub fn next(&mut self) -> (key: Option<&'a K>)
        requires
            old(self).wf(),
        ensures
            final(self).wf(),
            match key {
                Some(k) => {
                    &&& old(self)@.len() > 0
                    &&& *k == old(self)@[0]
                    &&& final(self)@ == old(self)@.skip(1)
                },
                None => old(self)@.len() == 0 && final(self)@.len() == 0,
            },
    {
        match self.it.next() {
            Some((key, _)) => {
                proof {
                    assert(self@ =~= old(self)@.skip(1));
                }
                Some(key)
            },
            None => None,
        }
    }
}

/// An iterator over the values of a map.
pub struct Values<'a, K, V> {
    it: Iter<'a, K, V>,
}

impl<'a, K, V> View for Values<'a, K, V> {
    type V = Seq<V>;

    /// The values that are left.
    closed spec fn view(&self) -> Seq<V> {
        values_of(self.it@)
    }
}

impl<'a, K, V> Values<'a, K, V> {
    /// Whether the iterator stands in a trie.
    pub closed spec fn wf(self) -> bool {
        self.it.wf()
    }

    /// Number of values that are left.
    pub fn len(&self) -> (n: usize)
        requires
            self.wf(),
        ensures
            n == self@.len(),
    {
        self.it.len()
    }

    /// The next value.
    pub fn next(&mut self) -> (value: Option<&'a V>)
        requires
            old(self).wf(),
        ensures
            final(self).wf(),
            match value {
                Some(v) => {
                    &&& old(self)@.len() > 0
                    &&& *v == old(self)@[0]
                    &&& final(self)@ == old(self)@.skip(1)
                },
                None => old(self)@.len() == 0 && final(self)@.len() == 0,
            },
    {
        match self.it.next() {
            Some((_, value)) => {
                proof {
                    assert(self@ =~= old(self)@.skip(1));
                }
                Some(value)
            },
            None => None,
        }
    }
}

/// An iterator that hands the entries of a map out. An entry that nothing else
/// shares is moved out; another one is cloned.
pub struct ConsumingIter<K, V> {
    /// The entries that are left, the next one last.
    stack: Vec<Pair<K, V>>,
}

impl<K, V> View for ConsumingIter<K, V> {
    type V = Seq<Pair<K, V>>;

    /// The entries that are left.
    closed spec fn view(&self) -> Seq<Pair<K, V>> {
        self.stack@.reverse()
    }
}

impl<K, V> ConsumingIter<K, V> {
    /// An iterator over a list of entries.
    pub(crate) fn over(pairs: Vec<Pair<K, V>>) -> (iter: Self)
        ensures
            iter@ == pairs@,
    {
        let mut stack: Vec<Pair<K, V>> = Vec::new();
        let mut rest = pairs;
        proof {
            assert(rest@ + stack@.reverse() =~= pairs@);
        }
        loop
            invariant
                rest@ + stack@.reverse() == pairs@,
            ensures
                stack@.reverse() == pairs@,
            decreases rest@.len(),
        {
            let ghost before = rest@ + stack@.reverse();
            match rest.pop() {
                Some(pair) => {
                    stack.push(pair);
                    proof {
                        assert(rest@ + stack@.reverse() =~= before);
                    }
                },
                None => {
                    proof {
                        assert(stack@.reverse() =~= before);
                    }
                    break;
                },
            }
        }
        ConsumingIter { stack }
    }

    /// Number of entries that are left.
    pub fn len(&self) -> (n: usize)
        ensures
            n == self@.len(),
    {
        self.stack.len()
    }

    /// The next shared entry.
    pub(crate) fn next_pair(&mut self) -> (pair: Option<Pair<K, V>>)
        ensures
            match pair {
                Some(p) => {
                    &&& old(self)@.len() > 0
                    &&& p == old(self)@[0]
                    &&& final(self)@ == old(self)@.skip(1)
                },
                None => old(self)@.len() == 0 && final(self)@.len() == 0,
            },
    {
        let pair = self.stack.pop();
        proof {
            if pair is Some {
                assert(self@ =~= old(self)@.skip(1));
            }
        }
        pair
    }

    /// The next entry.
    pub fn next(&mut self) -> (entry: Option<(K, V)>) where K: Clone, V: Clone
        ensures
            match entry {
                Some((key, value)) => {
                    &&& old(self)@.len() > 0
                    &&& cloned(*old(self)@[0].0, key)
                    &&& cloned(*old(self)@[0].1, value)
                    &&& final(self)@ == old(self)@.skip(1)
                },
                None => old(self)@.len() == 0 && final(self)@.len() == 0,
            },
    {
        match self.next_pair() {
            Some(pair) => Some((take(pair.0), take(pair.1))),
            None => None,
        }
    }
}

impl<K, V, S> GenericHashMap<K, V, S> {
    /// An iterator over the keys, in the order of the entries.
    pub fn keys<'a>(&'a self) -> (keys: Keys<'a, K, V>) where K: HashKey<S>
        requires
            self.wf(),
        ensures
            keys.wf(),
            keys@ == keys_of(self.entries()),
    {
        Keys { it: self.iter() }
    }

    /// An iterator over the values, in the order of the entries.
    pub fn values<'a>(&'a self) -> (values: Values<'a, K, V>) where K: HashKey<S>
        requires
            self.wf(),
        ensures
            values.wf(),
            values@ == values_of(self.entries()),
    {
        Values { it: self.iter() }
    }

    /// An iterator that hands the entries out, in their order.
    pub fn into_iter(self) -> (iter: ConsumingIter<K, V>) where K: HashKey<S>
        requires
            self.wf(),
        ensures
            iter@ == self.entries(),
    {
        ConsumingIter::over(self.pairs())
    }
}

} // verus!
