//! A persistent set that keeps its elements in the order of insertion.
use crate::hash_key::{HashKey, HashState};
use crate::hash_set::Member;
use crate::insertion_order_map::{chosen, has_key, keys_differ, place, put, put_all};
use crate::insertion_order_map::{lemma_place, put_key, put_keys, GenericInsertionOrderMap};
use crate::insertion_order_map_ops::{chosen_keys, Keys};
use crate::map_iters;
use crate::map_iters::{keys_of, names};
use crate::node::ChampNode;
use crate::ord_tree::Slot;
use crate::random_state::RandomState;
use std::sync::Arc;
use vstd::prelude::*;

verus! {

/// The elements of a list of entries.
pub open spec fn firsts<M>(list: Seq<(M, Member)>) -> Seq<M> {
    list.map_values(|entry: (M, Member)| entry.0)
}

/// A list with an element added at the end, where it is not there yet.
pub open spec fn added<M>(list: Seq<M>, element: M) -> Seq<M> {
    if list.contains(element) {
        list
    } else {
        list.push(element)
    }
}

/// A list with elements added one after the other.
pub open spec fn added_all<M>(list: Seq<M>, more: Seq<M>) -> Seq<M>
    decreases more.len(),
{
    if more.len() == 0 {
        list
    } else {
        added(added_all(list, more.drop_last()), more.last())
    }
}

/// A list without an element.
pub open spec fn left_out<M>(list: Seq<M>, element: M) -> Seq<M> {
    if list.contains(element) {
        list.remove(list.index_of(element))
    } else {
        list
    }
}

/// The elements that are, or are not, in another list, in their order.
pub open spec fn kept<M>(list: Seq<M>, other: Seq<M>, wanted: bool) -> Seq<M> {
    list.filter(|element: M| other.contains(element) == wanted)
}

/// Elements of a list of entries, and the entries themselves.
proof fn lemma_firsts<M>(list: Seq<(M, Member)>)
    ensures
        forall|element: M| #[trigger] firsts(list).contains(element) == has_key(list, element),
        keys_differ(list) ==> firsts(list).no_duplicates(),
{
    let all = firsts(list);
    assert forall|element: M| #[trigger] all.contains(element) == has_key(list, element) by {
        if all.contains(element) {
            let i = choose|i: int| 0 <= i < all.len() && all[i] == element;
            assert(list[i].0 == element);
        }
        if has_key(list, element) {
            let i = place(list, element);
            assert(all[i] == element);
        }
    }
    if keys_differ(list) {
        assert forall|i: int, j: int|
            0 <= i < all.len() && 0 <= j < all.len() && i != j implies all[i] != all[j] by {
            if i < j {
                assert(list[i].0 != list[j].0);
            } else {
                assert(list[j].0 != list[i].0);
            }
        }
    }
}

/// Putting an entry in adds its element.
proof fn lemma_put_firsts<M>(list: Seq<(M, Member)>, element: M)
    ensures
        firsts(put(list, element, Member)) == added(firsts(list), element),
{
    lemma_firsts(list);
    if has_key(list, element) {
        let i = place(list, element);
        assert(0 <= i < list.len() && list[i].0 == element);
    }
    assert(firsts(put(list, element, Member)) =~= added(firsts(list), element));
}

proof fn lemma_put_all_firsts<M>(list: Seq<(M, Member)>, more: Seq<(M, Member)>)
    ensures
        firsts(put_all(list, more)) == added_all(firsts(list), firsts(more)),
    decreases more.len(),
{
    if more.len() > 0 {
        lemma_put_all_firsts(list, more.drop_last());
        assert(firsts(more).drop_last() =~= firsts(more.drop_last()));
        lemma_put_firsts(put_all(list, more.drop_last()), more.last().0);
    }
}

proof fn lemma_chosen_firsts<M>(
    list: Seq<(M, Member)>,
    other: Seq<(M, Member)>,
    wanted: bool,
)
    ensures
        firsts(chosen(list, other, wanted)) == kept(firsts(list), firsts(other), wanted),
    decreases list.len(),
{
    reveal(Seq::filter);
    lemma_firsts(other);
    if list.len() > 0 {
        lemma_chosen_firsts(list.drop_last(), other, wanted);
        assert(firsts(list).drop_last() =~= firsts(list.drop_last()));
        assert(firsts(list).last() == list.last().0);
        assert(firsts(other).contains(list.last().0) == has_key(other, list.last().0));
    }
    assert(firsts(chosen(list, other, wanted)) =~= kept(firsts(list), firsts(other), wanted));
}

/// A persistent set that is walked in the order in which its elements were first
/// inserted. It is modelled as the list of its elements.
pub struct GenericInsertionOrderSet<A, S> {
    map: GenericInsertionOrderMap<A, Member, S>,
}

/// An insertion-ordered set with the default hasher state.
pub type InsertionOrderSet<A> = GenericInsertionOrderSet<A, RandomState>;

/// The elements themselves that another list has, or has not.
pub open spec fn kept_elements<A: View>(
    elements: Seq<A>,
    other: Seq<A::V>,
    wanted: bool,
) -> Seq<A> {
    elements.filter(|a: A| other.contains(a@) == wanted)
}

/// The keys themselves that a map has are the elements that its keys have.
proof fn lemma_kept_elements<A: View>(
    elements: Seq<A>,
    other: Seq<(A::V, Member)>,
    wanted: bool,
)
    ensures
        chosen_keys(elements, other, wanted) == kept_elements(elements, firsts(other), wanted),
{
    lemma_firsts(other);
    let p = |a: A| has_key(other, a@) == wanted;
    let q = |a: A| firsts(other).contains(a@) == wanted;
    assert forall|a: A| #[trigger] p(a) == q(a) by {
        assert(has_key(other, a@) == firsts(other).contains(a@));
    }
    assert(p =~= q);
}

impl<A: View, S> View for GenericInsertionOrderSet<A, S> {
    type V = Seq<A::V>;

    closed spec fn view(&self) -> Seq<A::V> {
        firsts(self.map@)
    }
}

impl<A, S> GenericInsertionOrderSet<A, S> {
    /// The elements themselves, in their order.
    pub closed spec fn elements(self) -> Seq<A> {
        self.map.held_keys()
    }

    /// How many places were given out: one for each new element.
    pub closed spec fn issued(self) -> nat {
        self.map.issued()
    }

    /// The root of the index, where there is one.
    pub closed spec fn index_top(self) -> Option<Arc<ChampNode<A, usize>>> {
        self.map.index_top()
    }

    /// Whether the map below is well formed.
    pub closed spec fn wf(self) -> bool where A: HashKey<S> {
        self.map.wf()
    }

    /// No element occurs twice.
    pub proof fn law_elements_differ(self) where A: HashKey<S>
        requires
            self.wf(),
        ensures
            self@.no_duplicates(),
            self@ == names(self.elements()),
            self@.len() <= self.issued() <= usize::MAX,
    {
        self.map.law_keys_differ();
        lemma_firsts(self.map@);
        assert(self@ =~= names(self.elements()));
    }

    /// An empty set with a default hasher state.
    pub fn new() -> (set: Self) where A: HashKey<S>, S: Default
        ensures
            set.wf(),
            set@ == Seq::<A::V>::empty(),
            set.index_top() is None,
            set.elements() == Seq::<A>::empty(),
            set.issued() == 0,
    {
        let set = GenericInsertionOrderSet { map: GenericInsertionOrderMap::new() };
        proof {
            assert(set@ =~= Seq::<A::V>::empty());
            assert(set.elements() =~= Seq::<A>::empty());
        }
        set
    }

    /// Whether the set has no elements.
    pub fn is_empty(&self) -> (empty: bool) where A: HashKey<S>
        requires
            self.wf(),
        ensures
            empty == (self@.len() == 0),
    {
        self.map.is_empty()
    }

    /// Number of elements.
    pub fn len(&self) -> (n: usize) where A: HashKey<S>
        requires
            self.wf(),
        ensures
            n == self@.len(),
    {
        self.map.len()
    }

    /// Whether both sets have one index and one tree in memory, or lack them both.
    /// Sets that do hold the same elements; sets that do not may hold them too. Of
    /// two roots nothing says whether they are one allocation.
    pub fn ptr_eq(&self, other: &Self) -> (same: bool) where A: View
        ensures
            same ==> self@ == other@ && self.elements() == other.elements(),
            same ==> self.index_top() == other.index_top(),
            ({
                &&& self.index_top() is None && other.index_top() is None
                &&& self.elements().len() == 0 && other.elements().len() == 0
            }) ==> same,
            self.index_top() is None != other.index_top() is None ==> !same,
            (self.elements().len() == 0) != (other.elements().len() == 0) ==> !same,
    {
        self.map.ptr_eq(&other.map)
    }

    /// Whether the set holds an element.
    pub fn contains(&self, elem: &A) -> (found: bool) where A: HashKey<S>
        requires
            self.wf(),
        ensures
            found == self@.contains(elem@),
    {
        proof {
            lemma_firsts(self.map@);
        }
        self.map.contains_key(elem)
    }

    /// Inserts an element at the end and returns whether it is new. An element
    /// that is there keeps its place.
    pub fn insert(&mut self, elem: A) -> (inserted: bool) where A: HashKey<S>
        requires
            old(self).wf(),
            old(self)@.contains(elem@) || old(self).issued() < usize::MAX,
        ensures
            final(self).wf(),
            final(self)@ == added(old(self)@, elem@),
            final(self).elements() == put_key(old(self).elements(), elem),
            final(self).issued() == if old(self)@.contains(elem@) {
                old(self).issued()
            } else {
                old(self).issued() + 1
            },
            inserted == !old(self)@.contains(elem@),
    {
        proof {
            self.map.law_keys_differ();
            lemma_firsts(self.map@);
            lemma_put_firsts(self.map@, elem@);
            if self@.contains(elem@) {
                let i = self@.index_of(elem@);
                assert(0 <= i < self@.len() && self@[i] == elem@);
                lemma_place(self.map@, i);
            }
        }
        self.map.insert_shared(Arc::new(elem), Arc::new(Member)).is_none()
    }

    /// Removes an element and returns whether it was there. The others keep
    /// their order.
    pub fn remove(&mut self, elem: &A) -> (removed: bool) where A: HashKey<S>
        requires
            old(self).wf(),
        ensures
            final(self).wf(),
            final(self)@ == left_out(old(self)@, elem@),
            final(self).elements() == if old(self)@.contains(elem@) {
                old(self).elements().remove(old(self)@.index_of(elem@))
            } else {
                old(self).elements()
            },
            final(self).issued() == old(self).issued(),
            removed == old(self)@.contains(elem@),
    {
        let ghost before = self.map@;
        proof {
            self.map.law_keys_differ();
            lemma_firsts(before);
        }
        let removed = self.map.remove(elem).is_some();
        proof {
            if has_key(before, elem@) {
                assert(firsts(before).contains(elem@));
                let i = firsts(before).index_of(elem@);
                assert(0 <= i < firsts(before).len() && firsts(before)[i] == elem@);
                lemma_place(before, i);
                assert(self@ =~= firsts(before).remove(i));
            }
        }
        removed
    }

    /// The first element.
    pub fn front(&self) -> (element: Option<&A>) where A: HashKey<S>
        requires
            self.wf(),
        ensures
            match element {
                Some(a) => self@.len() > 0 && a@ == self@[0] && *a == self.elements()[0],
                None => self@.len() == 0,
            },
    {
        match self.map.front() {
            Some((a, _)) => Some(a),
            None => None,
        }
    }

    /// The last element.
    pub fn back(&self) -> (element: Option<&A>) where A: HashKey<S>
        requires
            self.wf(),
        ensures
            match element {
                Some(a) => {
                    &&& self@.len() > 0
                    &&& a@ == self@.last()
                    &&& *a == self.elements().last()
                },
                None => self@.len() == 0,
            },
    {
        match self.map.back() {
            Some((a, _)) => Some(a),
            None => None,
        }
    }

    /// Removes the first element and returns it.
    pub fn pop_front(&mut self) -> (element: Option<A>) where A: HashKey<S> + Clone
        requires
            old(self).wf(),
        ensures
            final(self).wf(),
            final(self).issued() == old(self).issued(),
            match element {
                Some(a) => {
                    &&& old(self)@.len() > 0
                    &&& cloned(old(self).elements()[0], a)
                    &&& final(self)@ == old(self)@.skip(1)
                    &&& final(self).elements() == old(self).elements().skip(1)
                },
                None => old(self)@.len() == 0 && final(self)@ == old(self)@,
            },
    {
        proof {
            self.map.law_keys_differ();
        }
        match self.map.pop_front() {
            Some((a, _)) => {
                proof {
                    assert(self@ =~= old(self)@.skip(1));
                    assert(self.elements() =~= old(self).elements().skip(1));
                }
                Some(a)
            },
            None => None,
        }
    }

    /// Removes the last element and returns it.
    pub fn pop_back(&mut self) -> (element: Option<A>) where A: HashKey<S> + Clone
        requires
            old(self).wf(),
        ensures
            final(self).wf(),
            final(self).issued() == old(self).issued(),
            match element {
                Some(a) => {
                    &&& old(self)@.len() > 0
                    &&& cloned(old(self).elements().last(), a)
                    &&& final(self)@ == old(self)@.drop_last()
                    &&& final(self).elements() == old(self).elements().drop_last()
                },
                None => old(self)@.len() == 0 && final(self)@ == old(self)@,
            },
    {
        proof {
            self.map.law_keys_differ();
        }
        match self.map.pop_back() {
            Some((a, _)) => {
                proof {
                    assert(self@ =~= old(self)@.drop_last());
                    assert(self.elements() =~= old(self).elements().drop_last());
                }
                Some(a)
            },
            None => None,
        }
    }

    /// An iterator over the elements, in their order.
    pub fn iter<'a>(&'a self) -> (iter: Keys<'a, A, Member>) where A: HashKey<S>
        requires
            self.wf(),
        ensures
            iter.wf(),
            iter@ == self.elements(),
    {
        self.map.keys()
    }

    /// An iterator that hands the elements out, in their order.
    pub fn into_iter(self) -> (iter: ConsumingIter<A>) where A: HashKey<S>
        requires
            self.wf(),
        ensures
            iter@ == self.elements(),
    {
        let iter = ConsumingIter { it: self.map.into_iter() };
        proof {
            assert(iter@ =~= self.elements());
        }
        iter
    }

    /// The elements of this set, then those of the other that are new.
    pub fn union(self, other: Self) -> (set: Self) where A: HashKey<S>
        requires
            self.wf(),
            other.wf(),
            self.issued() + other@.len() <= usize::MAX,
        ensures
            set.wf(),
            set@ == added_all(self@, other@),
            set.elements() == put_keys(self.elements(), other.elements()),
            set.issued() + self@.len() == self.issued() + set@.len(),
            set.issued() <= self.issued() + other@.len(),
    {
        proof {
            lemma_put_all_firsts(self.map@, other.map@);
        }
        GenericInsertionOrderSet { map: self.map.union(other.map) }
    }

    /// The elements that only one of both sets holds: first those of this set,
    /// then those of the other.
    pub fn symmetric_difference(self, other: Self) -> (set: Self) where A: HashKey<S>, S: Default
        requires
            self.wf(),
            other.wf(),
            self@.len() + other@.len() <= usize::MAX,
        ensures
            set.wf(),
            set@ == kept(self@, other@, false) + kept(other@, self@, false),
            set.elements() == put_keys(
                kept_elements(self.elements(), other@, false),
                kept_elements(other.elements(), self@, false),
            ),
            set.issued() == set@.len(),
            set.issued() <= self@.len() + other@.len(),
    {
        proof {
            lemma_chosen_firsts(self.map@, other.map@, false);
            lemma_chosen_firsts(other.map@, self.map@, false);
            lemma_kept_elements(self.elements(), other.map@, false);
            lemma_kept_elements(other.elements(), self.map@, false);
        }
        let set = GenericInsertionOrderSet { map: self.map.symmetric_difference(&other.map) };
        proof {
            assert(set@ =~= kept(self@, other@, false) + kept(other@, self@, false));
        }
        set
    }

    /// The elements that are not in the other set, in their order.
    pub fn difference(self, other: &Self) -> (set: Self) where A: HashKey<S>, S: Default
        requires
            self.wf(),
            other.wf(),
        ensures
            set.wf(),
            set@ == kept(self@, other@, false),
            set.elements() == kept_elements(self.elements(), other@, false),
            set.issued() == set@.len(),
    {
        proof {
            lemma_chosen_firsts(self.map@, other.map@, false);
            lemma_kept_elements(self.elements(), other.map@, false);
        }
        GenericInsertionOrderSet { map: self.map.difference(&other.map) }
    }

    /// The elements that are in the other set too, in their order.
    pub fn intersection(self, other: &Self) -> (set: Self) where A: HashKey<S>, S: Default
        requires
            self.wf(),
            other.wf(),
        ensures
            set.wf(),
            set@ == kept(self@, other@, true),
            set.elements() == kept_elements(self.elements(), other@, true),
            set.issued() == set@.len(),
    {
        proof {
            lemma_chosen_firsts(self.map@, other.map@, true);
            lemma_kept_elements(self.elements(), other.map@, true);
        }
        GenericInsertionOrderSet { map: self.map.intersection(&other.map) }
    }

    /// Tests two sets for equality: the same elements in the same order.
    pub fn test_eq(&self, other: &Self) -> (equal: bool) where A: HashKey<S>
        requires
            self.wf(),
            other.wf(),
        ensures
            equal == (self@ == other@),
    {
        let equal = self.map.test_eq(&other.map);
        proof {
            if equal {
                assert forall|i: int| 0 <= i < self@.len() implies self@[i] == other@[i] by {
                    assert(self.map@[i].0 == other.map@[i].0);
                }
                assert(self@ =~= other@);
            } else if self@ == other@ {
                assert(self@.len() == self.map@.len());
                assert(other@.len() == other.map@.len());
                assert forall|i: int| 0 <= i < self.map@.len() implies (
                #[trigger] self.map@[i]).0 == other.map@[i].0 by {
                    assert(self@[i] == self.map@[i].0);
                    assert(other@[i] == other.map@[i].0);
                }
            }
        }
        equal
    }

    /// Inserts every element of a list.
    pub fn extend(&mut self, list: Vec<A>) where A: HashKey<S>
        requires
            old(self).wf(),
            old(self).issued() + list@.len() <= usize::MAX,
        ensures
            final(self).wf(),
            final(self)@ == added_all(old(self)@, names(list@)),
            final(self).elements() == put_keys(old(self).elements(), list@),
            final(self).issued() + old(self)@.len() == old(self).issued() + final(self)@.len(),
            final(self).issued() <= old(self).issued() + list@.len(),
    {
        let ghost all = list@;
        let ghost wanted = names(all);
        proof {
            assert(wanted.take(0) =~= Seq::<A::V>::empty());
            assert(all.take(0) =~= Seq::<A>::empty());
        }
        for a in iter: list.into_iter()
            invariant
                iter.seq() == all,
                wanted == names(all),
                self.wf(),
                old(self).issued() + all.len() <= usize::MAX,
                self.issued() <= old(self).issued() + iter.index(),
                self@ == added_all(old(self)@, wanted.take(iter.index() as int)),
                self.elements() == put_keys(old(self).elements(), all.take(iter.index() as int)),
                self.issued() + old(self)@.len() == old(self).issued() + self@.len(),
        {
            let ghost i = iter.index();
            proof {
                assert(a == all[i as int]);
                assert(wanted.take(i + 1).drop_last() =~= wanted.take(i as int));
                assert(wanted.take(i + 1).last() == a@);
                assert(all.take(i + 1).drop_last() =~= all.take(i as int));
            }
            self.insert(a);
        }
        proof {
            assert(wanted.take(wanted.len() as int) =~= wanted);
            assert(all.take(all.len() as int) =~= all);
        }
    }

    /// The set of the elements of a list, in the order of first occurrence.
    pub fn from_vec(list: Vec<A>) -> (set: Self) where A: HashKey<S>, S: Default
        ensures
            set.wf(),
            set@ == added_all(Seq::empty(), names(list@)),
            set.elements() == put_keys(Seq::empty(), list@),
            set.issued() == set@.len(),
            set.issued() <= list@.len(),
    {
        let mut set = Self::new();
        proof {
            assert(list@.len() == list.len());
        }
        set.extend(list);
        set
    }
}

impl<A, S: HashState> Clone for GenericInsertionOrderSet<A, S> {
    /// Another set with the same index and tree: no element is copied.
    fn clone(&self) -> (copy: Self)
        ensures
            copy == *self,
    {
        GenericInsertionOrderSet { map: self.map.clone() }
    }
}

/// An iterator that hands the elements of an insertion-ordered set out.
pub struct ConsumingIter<A> {
    it: map_iters::ConsumingIter<A, Member>,
}

impl<A> View for ConsumingIter<A> {
    type V = Seq<A>;

    /// The elements that are left.
    closed spec fn view(&self) -> Seq<A> {
        keys_of(self.it@)
    }
}

impl<A> ConsumingIter<A> {
    /// Number of elements that are left.
    pub fn len(&self) -> (n: usize)
        ensures
            n == self@.len(),
    {
        self.it.len()
    }

    /// The next element.
    pub fn next(&mut self) -> (element: Option<A>) where A: Clone
        ensures
            match element {
                Some(a) => {
                    &&& old(self)@.len() > 0
                    &&& cloned(old(self)@[0], a)
                    &&& final(self)@ == old(self)@.skip(1)
                },
                None => old(self)@.len() == 0 && final(self)@.len() == 0,
            },
    {
        match self.it.next() {
            Some((a, _)) => {
                proof {
                    assert(self@ =~= old(self)@.skip(1));
                }
                Some(a)
            },
            None => None,
        }
    }
}

impl<A: HashKey<S>, S: Default> Default for GenericInsertionOrderSet<A, S> {
    fn default() -> (set: Self)
        ensures
            set.wf(),
            set@ == Seq::<A::V>::empty(),
            set.index_top() is None,
            set.elements() == Seq::<A>::empty(),
            set.issued() == 0,
    {
        Self::new()
    }
}

} // verus!
