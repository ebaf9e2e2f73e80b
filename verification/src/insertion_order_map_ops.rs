//! Comparison of insertion-ordered maps, and set operations on them.
use crate::hash_key::HashKey;
use crate::insertion_order_map::{chosen, entries_of, has_key, keys_differ, put_all, put_keys};
use crate::insertion_order_map::{GenericInsertionOrderMap, Iter};
use crate::map_iters::ConsumingIter;
use crate::node::Pair;
use crate::ord_tree::Slot;
use crate::shared::share;
use std::sync::Arc;
use vstd::prelude::*;
use vstd::std_specs::cmp::PartialEqSpec;

verus! {

/// The entries of a list of numbered entries.
pub open spec fn unnumbered<K, V>(slots: Seq<Slot<K, V>>) -> Seq<Pair<K, V>> {
    slots.map_values(|slot: Slot<K, V>| slot.1)
}

/// Whether two lists have the same keys in the same order, with values that are
/// equal by `==`.
pub open spec fn same_list<M, V: PartialEq>(a: Seq<(M, V)>, b: Seq<(M, V)>) -> bool {
    &&& a.len() == b.len()
    &&& forall|i: int|
        0 <= i < a.len() ==> (#[trigger] a[i]).0 == b[i].0 && a[i].1.eq_spec(&b[i].1)
}

/// The keys themselves of a list that another list has, or has not.
pub open spec fn chosen_keys<K: View, W>(
    keys: Seq<K>,
    other: Seq<(K::V, W)>,
    wanted: bool,
) -> Seq<K> {
    keys.filter(|key: K| has_key(other, key@) == wanted)
}

/// The keys themselves of a list of entries.
pub open spec fn given_keys<K, V>(list: Seq<(K, V)>) -> Seq<K> {
    list.map_values(|entry: (K, V)| entry.0)
}

/// Whether two lists have the same keys in the same order.
pub open spec fn same_order<M, V>(a: Seq<(M, V)>, b: Seq<(M, V)>) -> bool {
    &&& a.len() == b.len()
    &&& forall|i: int| 0 <= i < a.len() ==> (#[trigger] a[i]).0 == b[i].0
}

/// Entries of new keys go to the end.
proof fn lemma_put_new<M, V>(list: Seq<(M, V)>, more: Seq<(M, V)>)
    requires
        keys_differ(more),
        forall|i: int| 0 <= i < more.len() ==> !has_key(list, (#[trigger] more[i]).0),
    ensures
        put_all(list, more) == list + more,
    decreases more.len(),
{
    if more.len() == 0 {
        assert(list + more =~= list);
    } else {
        let front = more.drop_last();
        let n = more.len() - 1;
        assert forall|i: int| 0 <= i < front.len() implies !has_key(
            list,
            (#[trigger] front[i]).0,
        ) by {
            assert(front[i] == more[i]);
        }
        assert forall|i: int, j: int| 0 <= i < j < front.len() implies (#[trigger] front[i]).0 != (
        #[trigger] front[j]).0 by {
            assert(more[i].0 != more[j].0);
        }
        lemma_put_new(list, front);
        let so_far = list + front;
        if has_key(so_far, more[n].0) {
            let i = choose|i: int| 0 <= i < so_far.len() && (#[trigger] so_far[i]).0 == more[n].0;
            if i < list.len() {
                assert(list[i].0 == more[n].0);
                assert(has_key(list, more[n].0));
            } else {
                assert(more[i - list.len()].0 != more[n].0);
            }
        }
        assert(so_far.push(more[n]) =~= list + more);
    }
}

/// What an entry more adds to a choice: itself or nothing.
proof fn lemma_choose_step<M, V, W>(
    list: Seq<(M, V)>,
    other: Seq<(M, W)>,
    wanted: bool,
    i: int,
)
    requires
        keys_differ(list),
        0 <= i < list.len(),
    ensures
        chosen(list.take(i + 1), other, wanted) == if has_key(other, list[i].0) == wanted {
            chosen(list.take(i), other, wanted).push(list[i])
        } else {
            chosen(list.take(i), other, wanted)
        },
        !has_key(chosen(list.take(i), other, wanted), list[i].0),
        chosen(list.take(i), other, wanted).len() <= i,
{
    let pick = |entry: (M, V)| has_key(other, entry.0) == wanted;
    let front = list.take(i);
    reveal(Seq::filter);
    assert(list.take(i + 1).drop_last() =~= front);
    lemma_choice(front, other, wanted);
    let out = chosen(front, other, wanted);
    if has_key(out, list[i].0) {
        let j = choose|j: int| 0 <= j < out.len() && (#[trigger] out[j]).0 == list[i].0;
        assert(front.contains(out[j]));
        let l = choose|l: int| 0 <= l < front.len() && front[l] == out[j];
        assert(list[l].0 != list[i].0);
    }
}

/// A choice holds entries of the list, in their order, that are wanted.
proof fn lemma_choice<M, V, W>(list: Seq<(M, V)>, other: Seq<(M, W)>, wanted: bool)
    ensures
        chosen(list, other, wanted).len() <= list.len(),
        forall|j: int|
            0 <= j < chosen(list, other, wanted).len() ==> list.contains(
                #[trigger] chosen(list, other, wanted)[j],
            ) && has_key(other, chosen(list, other, wanted)[j].0) == wanted,
        keys_differ(list) ==> keys_differ(chosen(list, other, wanted)),
    decreases list.len(),
{
    reveal(Seq::filter);
    let out = chosen(list, other, wanted);
    if list.len() > 0 {
        let front = list.drop_last();
        let n = list.len() - 1;
        lemma_choice(front, other, wanted);
        let before = chosen(front, other, wanted);
        assert forall|j: int| 0 <= j < out.len() implies list.contains(#[trigger] out[j])
            && has_key(other, out[j].0) == wanted by {
            if j < before.len() {
                assert(front.contains(before[j]));
                let l = choose|l: int| 0 <= l < front.len() && front[l] == before[j];
                assert(list[l] == out[j]);
            } else {
                assert(list[n] == out[j]);
            }
        }
        if keys_differ(list) {
            assert forall|i: int, j: int| 0 <= i < j < front.len() implies (
            #[trigger] front[i]).0 != (#[trigger] front[j]).0 by {
                assert(list[i].0 != list[j].0);
            }
            assert forall|i: int, j: int| 0 <= i < j < out.len() implies (#[trigger] out[i]).0 != (
            #[trigger] out[j]).0 by {
                if j < before.len() {
                    assert(before[i].0 != before[j].0);
                } else {
                    assert(front.contains(before[i]));
                    let l = choose|l: int| 0 <= l < front.len() && front[l] == before[i];
                    assert(list[l].0 != list[n].0);
                }
            }
        }
    }
}

impl<K, V, S> GenericInsertionOrderMap<K, V, S> {
    /// The shared entries, in their order.
    pub(crate) fn shared_entries(&self) -> (pairs: Vec<Pair<K, V>>) where K: HashKey<S>
        requires
            self.wf(),
        ensures
            pairs@ == unnumbered(self.slots()),
            pairs@.len() == self@.len(),
            pairs@.len() == self.held_keys().len(),
            forall|i: int|
                0 <= i < pairs@.len() ==> self@[i] == ((*(#[trigger] pairs@[i]).0)@, *pairs@[i].1),
            forall|i: int| 0 <= i < pairs@.len() ==> self.held_keys()[i] == *(#[trigger] pairs@[i]).0,
    {
        let mut pairs: Vec<Pair<K, V>> = Vec::new();
        let mut iter = self.iter();
        let ghost all = unnumbered(self.slots());
        proof {
            self.law_keys_differ();
            assert(pairs@ + unnumbered(iter@) =~= all);
        }
        loop
            invariant
                iter.wf(),
                pairs@ + unnumbered(iter@) == all,
            ensures
                pairs@ == all,
            decreases iter@.len(),
        {
            let ghost before = iter@;
            match iter.next_shared() {
                Some(pair) => {
                    pairs.push(pair);
                    proof {
                        assert(unnumbered(before) =~= seq![pair] + unnumbered(iter@));
                        assert(pairs@ + unnumbered(iter@) =~= all);
                    }
                },
                None => {
                    proof {
                        assert(pairs@ =~= all);
                    }
                    break;
                },
            }
        }
        pairs
    }

    /// An iterator over the keys, in the order of the entries.
    pub fn keys<'a>(&'a self) -> (keys: Keys<'a, K, V>) where K: HashKey<S>
        requires
            self.wf(),
        ensures
            keys.wf(),
            keys@ == self.slots().map_values(|slot: Slot<K, V>| *slot.1.0),
    {
        Keys { it: self.iter() }
    }

    /// An iterator over the values, in the order of the entries.
    pub fn values<'a>(&'a self) -> (values: Values<'a, K, V>) where K: HashKey<S>
        requires
            self.wf(),
        ensures
            values.wf(),
            values@ == self.slots().map_values(|slot: Slot<K, V>| *slot.1.1),
    {
        Values { it: self.iter() }
    }

    /// An iterator that hands the entries out, in their order.
    pub fn into_iter(self) -> (iter: ConsumingIter<K, V>) where K: HashKey<S>
        requires
            self.wf(),
        ensures
            iter@ == unnumbered(self.slots()),
    {
        ConsumingIter::over(self.shared_entries())
    }

    /// The entries of this map, with those of the other put in: keys of both
    /// keep their place here and have the value there.
    pub fn union(self, other: Self) -> (map: Self) where K: HashKey<S>
        requires
            self.wf(),
            other.wf(),
            self.issued() + other@.len() <= usize::MAX,
        ensures
            map.wf(),
            map@ == put_all(self@, other@),
            map.held_keys() == put_keys(self.held_keys(), other.held_keys()),
            map.issued() <= self.issued() + other@.len(),
            map.issued() + self@.len() == self.issued() + map@.len(),
    {
        let mut map = self;
        let pairs = other.shared_entries();
        let mut i: usize = 0;
        proof {
            assert(other.held_keys().take(0) =~= Seq::<K>::empty());
            assert(other@.take(0) =~= Seq::<(K::V, V)>::empty());
        }
        while i < pairs.len()
            invariant
                i <= pairs@.len(),
                pairs@.len() == other@.len(),
                forall|j: int|
                    0 <= j < pairs@.len() ==> other@[j] == (
                        (*(#[trigger] pairs@[j]).0)@,
                        *pairs@[j].1,
                    ),
                self.issued() + other@.len() <= usize::MAX,
                map.wf(),
                map.issued() <= self.issued() + i,
                map@ == put_all(self@, other@.take(i as int)),
                map.issued() + self@.len() == self.issued() + map@.len(),
                pairs@.len() == other.held_keys().len(),
                forall|j: int|
                    0 <= j < pairs@.len() ==> other.held_keys()[j] == *(#[trigger] pairs@[j]).0,
                map.held_keys() == put_keys(
                    self.held_keys(),
                    other.held_keys().take(i as int),
                ),
            decreases pairs@.len() - i,
        {
            proof {
                assert(other@.take(i + 1).drop_last() =~= other@.take(i as int));
                assert(other@.take(i + 1).last() == other@[i as int]);
                let p = pairs@[i as int];
                assert(other@[i as int] == ((*p.0)@, *p.1));
                assert(other.held_keys()[i as int] == *p.0);
                assert(other.held_keys().take(i + 1).drop_last() =~= other.held_keys().take(
                    i as int,
                ));
            }
            map.insert_shared(share(&pairs[i].0), share(&pairs[i].1));
            i += 1;
        }
        proof {
            assert(other@.take(other@.len() as int) =~= other@);
            assert(other.held_keys().take(other@.len() as int) =~= other.held_keys());
        }
        map
    }

    /// The entries whose keys the other map holds, or does not hold.
    fn select(&self, other: &Self, wanted: bool) -> (map: Self) where K: HashKey<S>, S: Default
        requires
            self.wf(),
            other.wf(),
        ensures
            map.wf(),
            map@ == chosen(self@, other@, wanted),
            map.held_keys() == chosen_keys(self.held_keys(), other@, wanted),
            map.issued() == map@.len(),
    {
        let mut map = Self::new();
        let pairs = self.shared_entries();
        let mut i: usize = 0;
        proof {
            self.law_keys_differ();
            reveal(Seq::filter);
            assert(self@.take(0) =~= Seq::<(K::V, V)>::empty());
            assert(map@ =~= chosen(self@.take(0), other@, wanted));
            assert(self.held_keys().take(0) =~= Seq::<K>::empty());
            assert(map.held_keys() =~= chosen_keys(self.held_keys().take(0), other@, wanted));
        }
        while i < pairs.len()
            invariant
                i <= pairs@.len(),
                pairs@.len() == self@.len(),
                forall|j: int|
                    0 <= j < pairs@.len() ==> self@[j] == (
                        (*(#[trigger] pairs@[j]).0)@,
                        *pairs@[j].1,
                    ),
                keys_differ(self@),
                self@.len() <= usize::MAX,
                other.wf(),
                map.wf(),
                map@ == chosen(self@.take(i as int), other@, wanted),
                pairs@.len() == self.held_keys().len(),
                forall|j: int|
                    0 <= j < pairs@.len() ==> self.held_keys()[j] == *(#[trigger] pairs@[j]).0,
                map.held_keys() == chosen_keys(
                    self.held_keys().take(i as int),
                    other@,
                    wanted,
                ),
                map.issued() == map@.len(),
            decreases pairs@.len() - i,
        {
            proof {
                lemma_choose_step(self@, other@, wanted, i as int);
                let p = pairs@[i as int];
                assert(self@[i as int] == ((*p.0)@, *p.1));
                assert(self.held_keys()[i as int] == *p.0);
                map.lemma_held((*p.0)@);
                reveal(Seq::filter);
                assert(self.held_keys().take(i + 1).drop_last() =~= self.held_keys().take(
                    i as int,
                ));
            }
            if other.contains_key(&*pairs[i].0) == wanted {
                map.insert_shared(share(&pairs[i].0), share(&pairs[i].1));
            }
            i += 1;
        }
        proof {
            assert(self@.take(self@.len() as int) =~= self@);
            assert(self.held_keys().take(self@.len() as int) =~= self.held_keys());
        }
        map
    }

    /// The entries whose keys the other map does not hold, in their order.
    pub fn difference(self, other: &Self) -> (map: Self) where K: HashKey<S>, S: Default
        requires
            self.wf(),
            other.wf(),
        ensures
            map.wf(),
            map@ == chosen(self@, other@, false),
            map.held_keys() == chosen_keys(self.held_keys(), other@, false),
            map.issued() == map@.len(),
    {
        self.select(other, false)
    }

    /// The entries whose keys the other map holds, in their order and with the
    /// values of this map.
    pub fn intersection(self, other: &Self) -> (map: Self) where K: HashKey<S>, S: Default
        requires
            self.wf(),
            other.wf(),
        ensures
            map.wf(),
            map@ == chosen(self@, other@, true),
            map.held_keys() == chosen_keys(self.held_keys(), other@, true),
            map.issued() == map@.len(),
    {
        self.select(other, true)
    }

    /// The entries whose keys only one of both maps holds: first those of this
    /// map, then those of the other.
    pub fn symmetric_difference(self, other: &Self) -> (map: Self) where K: HashKey<S>, S: Default
        requires
            self.wf(),
            other.wf(),
            self@.len() + other@.len() <= usize::MAX,
        ensures
            map.wf(),
            map@ == chosen(self@, other@, false) + chosen(other@, self@, false),
            map.held_keys() == put_keys(
                chosen_keys(self.held_keys(), other@, false),
                chosen_keys(other.held_keys(), self@, false),
            ),
            map.issued() == map@.len(),
            map.issued() <= self@.len() + other@.len(),
    {
        let ours = self.select(other, false);
        let theirs = other.select(&self, false);
        proof {
            self.law_keys_differ();
            other.law_keys_differ();
            lemma_choice(self@, other@, false);
            lemma_choice(other@, self@, false);
            assert forall|i: int| 0 <= i < theirs@.len() implies !has_key(
                ours@,
                (#[trigger] theirs@[i]).0,
            ) by {
                let key = theirs@[i].0;
                assert(!has_key(self@, key));
                if has_key(ours@, key) {
                    let j = choose|j: int| 0 <= j < ours@.len() && (#[trigger] ours@[j]).0 == key;
                    assert(self@.contains(ours@[j]));
                    let l = choose|l: int| 0 <= l < self@.len() && self@[l] == ours@[j];
                    assert(self@[l].0 == key);
                }
            }
            lemma_put_new(ours@, theirs@);
        }
        ours.union(theirs)
    }

    /// Tests two maps for equality: the same entries in the same order.
    pub fn test_eq(&self, other: &Self) -> (equal: bool) where K: HashKey<S>, V: PartialEq
        requires
            self.wf(),
            other.wf(),
        ensures
            V::obeys_eq_spec() ==> equal == same_list(self@, other@),
            equal ==> same_order(self@, other@),
    {
        if self.len() != other.len() {
            return false;
        }
        let a = self.shared_entries();
        let b = other.shared_entries();
        let mut i: usize = 0;
        while i < a.len()
            invariant
                i <= a@.len(),
                a@.len() == self@.len(),
                b@.len() == other@.len(),
                a@.len() == b@.len(),
                forall|j: int|
                    0 <= j < a@.len() ==> self@[j] == ((*(#[trigger] a@[j]).0)@, *a@[j].1),
                forall|j: int|
                    0 <= j < b@.len() ==> other@[j] == ((*(#[trigger] b@[j]).0)@, *b@[j].1),
                forall|j: int| 0 <= j < i ==> (#[trigger] self@[j]).0 == other@[j].0,
                V::obeys_eq_spec() ==> forall|j: int|
                    0 <= j < i ==> (#[trigger] self@[j]).1.eq_spec(&other@[j].1),
            decreases a@.len() - i,
        {
            proof {
                let p = a@[i as int];
                let q = b@[i as int];
                assert(self@[i as int] == ((*p.0)@, *p.1));
                assert(other@[i as int] == ((*q.0)@, *q.1));
            }
            if !a[i].0.same_key(&*b[i].0) {
                return false;
            }
            if *a[i].1 != *b[i].1 {
                return false;
            }
            i += 1;
        }
        true
    }

    /// Puts every entry of a list in.
    pub fn extend(&mut self, list: Vec<(K, V)>) where K: HashKey<S>
        requires
            old(self).wf(),
            old(self).issued() + list@.len() <= usize::MAX,
        ensures
            final(self).wf(),
            final(self)@ == put_all(old(self)@, entries_of(list@)),
            final(self).held_keys() == put_keys(old(self).held_keys(), given_keys(list@)),
            final(self).issued() + old(self)@.len() == old(self).issued() + final(self)@.len(),
            final(self).issued() <= old(self).issued() + list@.len(),
    {
        let ghost all = list@;
        let ghost wanted = entries_of(all);
        proof {
            assert(wanted.take(0) =~= Seq::<(K::V, V)>::empty());
            assert(given_keys(all).take(0) =~= Seq::<K>::empty());
        }
        for entry in iter: list.into_iter()
            invariant
                iter.seq() == all,
                wanted == entries_of(all),
                self.wf(),
                old(self).issued() + all.len() <= usize::MAX,
                self.issued() <= old(self).issued() + iter.index(),
                self@ == put_all(old(self)@, wanted.take(iter.index() as int)),
                self.held_keys() == put_keys(
                    old(self).held_keys(),
                    given_keys(all).take(iter.index() as int),
                ),
                self.issued() + old(self)@.len() == old(self).issued() + self@.len(),
        {
            let ghost i = iter.index();
            proof {
                assert(entry == all[i as int]);
                assert(wanted.take(i + 1).drop_last() =~= wanted.take(i as int));
                assert(wanted.take(i + 1).last() == (entry.0@, entry.1));
                assert(given_keys(all).take(i + 1).drop_last() =~= given_keys(all).take(
                    i as int,
                ));
                assert(given_keys(all).take(i + 1).last() == entry.0);
            }
            self.insert_shared(Arc::new(entry.0), Arc::new(entry.1));
        }
        proof {
            assert(wanted.take(wanted.len() as int) =~= wanted);
            assert(given_keys(all).take(wanted.len() as int) =~= given_keys(all));
        }
    }

    /// The map of a list of entries.
    pub fn from_vec(list: Vec<(K, V)>) -> (map: Self) where K: HashKey<S>, S: Default
        ensures
            map.wf(),
            map@ == put_all(Seq::empty(), entries_of(list@)),
            map.held_keys() == put_keys(Seq::empty(), given_keys(list@)),
            map.issued() == map@.len(),
            map.issued() <= list@.len(),
    {
        let mut map = Self::new();
        proof {
            assert(map.held_keys() =~= Seq::<K>::empty());
            assert(list@.len() == list.len());
        }
        map.extend(list);
        map
    }
}

/// An iterator over the keys of an insertion-ordered map.
pub struct Keys<'a, K, V> {
    it: Iter<'a, K, V>,
}

impl<'a, K, V> View for Keys<'a, K, V> {
    type V = Seq<K>;

    /// The keys that are left.
    closed spec fn view(&self) -> Seq<K> {
        self.it@.map_values(|slot: Slot<K, V>| *slot.1.0)
    }
}

impl<'a, K, V> Keys<'a, K, V> {
    /// Whether the iterator stands in a tree.
    pub closed spec fn wf(self) -> bool {
        self.it.wf()
    }

    /// The next key.
    pub fn next(&mut self) -> (key: Option<&'a K>)
        requires
            old(self).wf(),
        ensures
            final(self).wf(),
            match key {
                Some(k) => {
                    &&& old(self)@.len() > 0
                    &&& *k == old(self)@[0]
                    &&& final(self)@ == old(self)@.skip(1)
                },
                None => old(self)@.len() == 0 && final(self)@.len() == 0,
            },
    {
        match self.it.next() {
            Some((key, _)) => {
                proof {
                    assert(self@ =~= old(self)@.skip(1));
                }
                Some(key)
            },
            None => None,
        }
    }
}

/// An iterator over the values of an insertion-ordered map.
pub struct Values<'a, K, V> {
    it: Iter<'a, K, V>,
}

impl<'a, K, V> View for Values<'a, K, V> {
    type V = Seq<V>;

    /// The values that are left.
    closed spec fn view(&self) -> Seq<V> {
        self.it@.map_values(|slot: Slot<K, V>| *slot.1.1)
    }
}

impl<'a, K, V> Values<'a, K, V> {
    /// Whether the iterator stands in a tree.
    pub closed spec fn wf(self) -> bool {
        self.it.wf()
    }

    /// The next value.
    pub fn next(&mut self) -> (value: Option<&'a V>)
        requires
            old(self).wf(),
        ensures
            final(self).wf(),
            match value {
                Some(v) => {
                    &&& old(self)@.len() > 0
                    &&& *v == old(self)@[0]
                    &&& final(self)@ == old(self)@.skip(1)
                },
                None => old(self)@.len() == 0 && final(self)@.len() == 0,
            },
    {
        match self.it.next() {
            Some((_, value)) => {
                proof {
                    assert(self@ =~= old(self)@.skip(1));
                }
                Some(value)
            },
            None => None,
        }
    }
}

} // verus!
