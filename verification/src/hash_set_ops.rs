//! Comparison of hash sets, set operations, and sets made from sets.
use crate::hash_key::{is_default, HashKey, HashState};
use crate::hash_map_ops::replaced_keys;
use crate::hash_set::{set_has_room, GenericHashSet};
use crate::map_iters::names;
use crate::node::distinct;
use crate::shared::{inside, share};
use crate::trie::{lemma_seen, lemma_seen_keys, lemma_stored, pairs_map, stored_keys};
use std::sync::Arc;
use vstd::prelude::*;

verus! {

/// Whether a function may say `verdict` of an element.
pub open spec fn says_of<A: View, F: Fn(&A) -> bool>(f: F, element: A::V, verdict: bool) -> bool {
    exists|a: A| #[trigger] a@ == element && f.ensures((&a,), verdict)
}

/// Whether two sets of one size and one hasher state have the same
/// fingerprint. Sets that differ do so by a chance of one in 2^64.
pub open spec fn same_set_fingerprints<A: View, S>(
    a: GenericHashSet<A, S>,
    b: GenericHashSet<A, S>,
) -> bool {
    &&& a@.len() == b@.len()
    &&& a.state() == b.state()
    &&& a.merkle() == b.merkle()
}

/// Whether a set that is only borrowed is well formed.
pub open spec fn usable<S, A: HashKey<S>>(set: &GenericHashSet<A, S>) -> bool {
    set.wf()
}

/// The elements themselves that are stored when a list is inserted one by one: of
/// equal ones the last.
pub open spec fn listed<A: View>(held: Map<A::V, A>, list: Seq<A>) -> Map<A::V, A>
    decreases list.len(),
{
    if list.len() == 0 {
        held
    } else {
        listed(held, list.drop_last()).insert(list.last()@, list.last())
    }
}

/// The elements themselves of the union of a list of sets that are joined one
/// after the other to an empty one: at each step those of the smaller set replace
/// those of the larger one.
pub open spec fn unions_held<A: View, S>(sets: Seq<GenericHashSet<A, S>>) -> Map<A::V, A>
    decreases sets.len(),
{
    if sets.len() == 0 {
        Map::empty()
    } else {
        replaced_keys(unions_held(sets.drop_last()), sets.last().held())
    }
}

/// The hasher state of the union of a list of sets: at each step that of the
/// larger set stays.
pub open spec fn set_unions_state<A: View, S>(sets: Seq<GenericHashSet<A, S>>, start: S) -> S
    decreases sets.len(),
{
    if sets.len() == 0 {
        start
    } else if union_all(sets.drop_last()).len() >= sets.last()@.len() {
        set_unions_state(sets.drop_last(), start)
    } else {
        sets.last().state()
    }
}

/// The union of a list of sets.
pub open spec fn union_all<A: View, S>(sets: Seq<GenericHashSet<A, S>>) -> Set<A::V>
    decreases sets.len(),
{
    if sets.len() == 0 {
        Set::empty()
    } else {
        union_all(sets.drop_last()).union(sets.last()@)
    }
}

/// The sum of the sizes of a list of sets.
pub open spec fn total_len<A: View, S>(sets: Seq<GenericHashSet<A, S>>) -> nat
    decreases sets.len(),
{
    if sets.len() == 0 {
        0
    } else {
        total_len(sets.drop_last()) + sets.last()@.len()
    }
}

/// A union holds no more elements than both sets together.
pub(crate) proof fn lemma_set_union_len<M>(a: Set<M>, b: Set<M>)
    requires
        a.finite(),
        b.finite(),
    ensures
        a.union(b).finite(),
        a.union(b).len() <= a.len() + b.len(),
{
    vstd::set_lib::lemma_len_union(a, b);
}

impl<A, S> GenericHashSet<A, S> {
    /// A set of one element.
    pub fn unit(a: A) -> (set: Self) where A: HashKey<S>, S: Default
        ensures
            set.wf(),
            set@ == set![a@],
            set.held() == Map::<A::V, A>::empty().insert(a@, a),
            is_default(set.state()),
    {
        let ghost name = a@;
        let mut set = Self::new();
        set.insert_shared(Arc::new(a));
        proof {
            assert(set@ =~= set![name]);
        }
        set
    }

    /// Tests two sets for equality. Sets of one lineage with the same
    /// fingerprint are taken to be equal; other sets are compared element by
    /// element.
    pub fn test_eq(&self, other: &Self) -> (equal: bool) where A: HashKey<S>, S: HashState
        requires
            self.wf(),
            other.wf(),
        ensures
            self@ == other@ ==> equal,
            equal ==> self@ == other@ || same_set_fingerprints(*self, *other),
    {
        let same_lineage = self.same_lineage(other);
        self.test_eq_with(other, same_lineage)
    }

    /// Tests two sets for equality, given whether they have one lineage.
    pub fn test_eq_with(&self, other: &Self, same_lineage: bool) -> (equal: bool) where
        A: HashKey<S>,
        S: HashState,

        requires
            self.wf(),
            other.wf(),
        ensures
            equal == (self@ == other@ || (same_lineage && same_set_fingerprints(*self, *other))),
    {
        proof {
            self.lemma_set();
            other.lemma_set();
        }
        if self.len() != other.len() {
            return false;
        }
        if self.ptr_eq(other) {
            return true;
        }
        if same_lineage && self.hasher().same_state(other.hasher()) {
            return self.merkle_hash() == other.merkle_hash();
        }
        let same = self.is_subset(other);
        proof {
            if same {
                vstd::set_lib::lemma_subset_equality(self@, other@);
            }
        }
        same
    }

    /// Whether every element is in the other set.
    pub fn is_subset(&self, other: &Self) -> (subset: bool) where A: HashKey<S>
        requires
            self.wf(),
            other.wf(),
        ensures
            subset == self@.subset_of(other@),
    {
        let pairs = self.pairs();
        let mut i: usize = 0;
        proof {
            lemma_seen(pairs@, 0);
        }
        while i < pairs.len()
            invariant
                i <= pairs.len(),
                distinct(pairs@),
                other.wf(),
                self@ == pairs_map(pairs@).dom(),
                pairs_map(pairs@.take(i as int)).dom().subset_of(other@),
            decreases pairs.len() - i,
        {
            proof {
                lemma_seen(pairs@, i as int);
            }
            if !other.contains(&*pairs[i].0) {
                proof {
                    assert(self@.contains(inside(pairs@[i as int].0)@));
                }
                return false;
            }
            i += 1;
        }
        proof {
            lemma_seen(pairs@, pairs@.len() as int);
        }
        true
    }

    /// Whether every element is in the other set, which holds others too.
    pub fn is_proper_subset(&self, other: &Self) -> (subset: bool) where A: HashKey<S>
        requires
            self.wf(),
            other.wf(),
        ensures
            subset == (self@.subset_of(other@) && self@ != other@),
    {
        proof {
            self.lemma_set();
            other.lemma_set();
            if self@.subset_of(other@) && self@.len() == other@.len() {
                vstd::set_lib::lemma_subset_equality(self@, other@);
            }
        }
        self.len() != other.len() && self.is_subset(other)
    }

    /// Whether the sets have no element in common. The smaller one is walked.
    pub fn disjoint(&self, other: &Self) -> (apart: bool) where A: HashKey<S>
        requires
            self.wf(),
            other.wf(),
        ensures
            apart == self@.disjoint(other@),
    {
        if self.len() <= other.len() {
            self.none_in(other)
        } else {
            other.none_in(self)
        }
    }

    /// Whether no element is in the other set.
    fn none_in(&self, other: &Self) -> (apart: bool) where A: HashKey<S>
        requires
            self.wf(),
            other.wf(),
        ensures
            apart == self@.disjoint(other@),
    {
        let pairs = self.pairs();
        let mut i: usize = 0;
        proof {
            lemma_seen(pairs@, 0);
        }
        while i < pairs.len()
            invariant
                i <= pairs.len(),
                distinct(pairs@),
                other.wf(),
                self@ == pairs_map(pairs@).dom(),
                pairs_map(pairs@.take(i as int)).dom().disjoint(other@),
            decreases pairs.len() - i,
        {
            proof {
                lemma_seen(pairs@, i as int);
            }
            if other.contains(&*pairs[i].0) {
                proof {
                    assert(self@.contains(inside(pairs@[i as int].0)@));
                }
                return false;
            }
            i += 1;
        }
        proof {
            lemma_seen(pairs@, pairs@.len() as int);
        }
        true
    }

    /// Keeps the elements that a function says `true` of.
    pub fn retain<F: Fn(&A) -> bool>(&mut self, f: F) where A: HashKey<S>
        requires
            old(self).wf(),
            forall|a: A| old(self)@.contains(#[trigger] a@) ==> f.requires((&a,)),
        ensures
            final(self).wf(),
            final(self).state() == old(self).state(),
            final(self)@.subset_of(old(self)@),
            final(self).held().submap_of(old(self).held()),
            forall|element: A::V| #[trigger]
                old(self)@.contains(element) ==> says_of(
                    f,
                    element,
                    final(self)@.contains(element),
                ),
    {
        let ghost before = self@;
        let pairs = self.pairs();
        let mut i: usize = 0;
        proof {
            lemma_seen(pairs@, 0);
        }
        while i < pairs.len()
            invariant
                i <= pairs.len(),
                distinct(pairs@),
                before == pairs_map(pairs@).dom(),
                before == old(self)@,
                self.wf(),
                self.state() == old(self).state(),
                self@.subset_of(before),
                self.held().submap_of(old(self).held()),
                forall|a: A| before.contains(#[trigger] a@) ==> f.requires((&a,)),
                forall|element: A::V| #[trigger]
                    pairs_map(pairs@.take(i as int)).contains_key(element) ==> says_of(
                        f,
                        element,
                        self@.contains(element),
                    ),
                forall|element: A::V| #[trigger]
                    before.contains(element) && !pairs_map(pairs@.take(i as int)).contains_key(
                        element,
                    ) ==> self@.contains(element),
            decreases pairs.len() - i,
        {
            let pair = &pairs[i];
            proof {
                lemma_seen(pairs@, i as int);
                lemma_seen(pairs@, i + 1);
            }
            let ghost element = (*pair.0)@;
            let keep = f(&*pair.0);
            proof {
                assert(inside(pair.0)@ == element);
                assert(says_of(f, element, keep));
            }
            if !keep {
                self.discard(&*pair.0);
            }
            i += 1;
        }
        proof {
            lemma_seen(pairs@, pairs@.len() as int);
        }
    }

    /// The elements that a function says `true` of, and the others.
    pub fn partition<F: Fn(&A) -> bool>(&self, f: F) -> (parts: (Self, Self)) where
        A: HashKey<S>,
        S: Default,

        requires
            self.wf(),
            forall|a: A| self@.contains(#[trigger] a@) ==> f.requires((&a,)),
        ensures
            parts.0.wf(),
            parts.1.wf(),
            parts.0@.union(parts.1@) == self@,
            parts.0@.disjoint(parts.1@),
            parts.0.held().submap_of(self.held()),
            parts.1.held().submap_of(self.held()),
            is_default(parts.0.state()),
            is_default(parts.1.state()),
            forall|element: A::V| #[trigger]
                self@.contains(element) ==> says_of(f, element, parts.0@.contains(element)),
    {
        let pairs = self.pairs();
        let mut left = Self::new();
        let mut right = Self::new();
        let mut i: usize = 0;
        proof {
            self.lemma_set();
            lemma_seen(pairs@, 0);
            assert(left@.union(right@) =~= pairs_map(pairs@.take(0)).dom());
        }
        while i < pairs.len()
            invariant
                i <= pairs.len(),
                distinct(pairs@),
                self@ == pairs_map(pairs@).dom(),
                pairs@.len() <= usize::MAX,
                left.wf(),
                right.wf(),
                left@.union(right@) == pairs_map(pairs@.take(i as int)).dom(),
                left@.disjoint(right@),
                self.held() == stored_keys(pairs@),
                left.held().submap_of(self.held()),
                right.held().submap_of(self.held()),
                is_default(left.state()),
                is_default(right.state()),
                left@.finite(),
                right@.finite(),
                forall|a: A| self@.contains(#[trigger] a@) ==> f.requires((&a,)),
                forall|element: A::V| #[trigger]
                    pairs_map(pairs@.take(i as int)).contains_key(element) ==> says_of(
                        f,
                        element,
                        left@.contains(element),
                    ),
            decreases pairs.len() - i,
        {
            let pair = &pairs[i];
            let ghost seen = pairs_map(pairs@.take(i as int)).dom();
            proof {
                lemma_seen(pairs@, i as int);
                lemma_seen(pairs@, i + 1);
                lemma_stored(pairs@, i as int);
                assert(self.held().contains_pair((*pair.0)@, inside(pair.0)));
                assert(left@.subset_of(seen));
                assert(right@.subset_of(seen));
                vstd::set_lib::lemma_len_subset(left@, seen);
                vstd::set_lib::lemma_len_subset(right@, seen);
            }
            let ghost element = (*pair.0)@;
            let goes_left = f(&*pair.0);
            proof {
                assert(inside(pair.0)@ == element);
                assert(says_of(f, element, goes_left));
                assert(!seen.contains(element));
            }
            if goes_left {
                left.insert_shared(share(&pair.0));
            } else {
                right.insert_shared(share(&pair.0));
            }
            i += 1;
            proof {
                assert(left@.union(right@) =~= pairs_map(pairs@.take(i as int)).dom());
            }
        }
        proof {
            lemma_seen(pairs@, pairs@.len() as int);
        }
        (left, right)
    }

    /// Inserts every element of another set.
    fn pour(&mut self, other: &Self) where A: HashKey<S>
        requires
            old(self).wf(),
            other.wf(),
            old(self)@.len() + other@.len() <= usize::MAX,
        ensures
            final(self).wf(),
            final(self)@ == old(self)@.union(other@),
            final(self).held() == old(self).held().union_prefer_right(other.held()),
            other@.len() == 0 ==> *final(self) == *old(self),
            final(self).state() == old(self).state(),
    {
        let pairs = other.pairs();
        let mut i: usize = 0;
        proof {
            self.lemma_set();
            lemma_seen(pairs@, 0);
            assert(self@ =~= old(self)@.union(pairs_map(pairs@.take(0)).dom()));
            lemma_seen_keys(pairs@, 0);
            assert(self.held() =~= old(self).held().union_prefer_right(
                stored_keys(pairs@.take(0)),
            ));
        }
        while i < pairs.len()
            invariant
                i <= pairs.len(),
                distinct(pairs@),
                self.wf(),
                self.state() == old(self).state(),
                old(self)@.finite(),
                old(self)@.len() + pairs@.len() <= usize::MAX,
                self@ == old(self)@.union(pairs_map(pairs@.take(i as int)).dom()),
                self.held() == old(self).held().union_prefer_right(
                    stored_keys(pairs@.take(i as int)),
                ),
                i == 0 ==> *self == *old(self),
            decreases pairs.len() - i,
        {
            proof {
                lemma_seen(pairs@, i as int);
                lemma_seen_keys(pairs@, i as int);
                lemma_set_union_len(old(self)@, pairs_map(pairs@.take(i as int)).dom());
            }
            self.insert_shared(share(&pairs[i].0));
            i += 1;
            proof {
                assert(self.held() =~= old(self).held().union_prefer_right(
                    stored_keys(pairs@.take(i as int)),
                ));
                assert(self@ =~= old(self)@.union(pairs_map(pairs@.take(i as int)).dom()));
            }
        }
        proof {
            lemma_seen(pairs@, pairs@.len() as int);
            lemma_seen_keys(pairs@, pairs@.len() as int);
        }
    }

    /// The union of two sets. The smaller set is poured into the larger one,
    /// whose hasher state stays.
    pub fn union(self, other: Self) -> (set: Self) where A: HashKey<S>
        requires
            self.wf(),
            other.wf(),
            self@.len() + other@.len() <= usize::MAX,
        ensures
            set.wf(),
            set@ == self@.union(other@),
            set.held() == replaced_keys(self.held(), other.held()),
            other@.len() == 0 ==> set == self,
            self@.len() == 0 && other@.len() > 0 ==> set == other,
            set.state() == if self@.len() >= other@.len() {
                self.state()
            } else {
                other.state()
            },
    {
        proof {
            self.lemma_set();
            other.lemma_set();
        }
        if self.len() >= other.len() {
            let mut set = self;
            set.pour(&other);
            set
        } else {
            let mut set = other;
            set.pour(&self);
            proof {
                assert(set@ =~= self@.union(other@));
            }
            set
        }
    }

    /// The union of a list of sets.
    pub fn unions(sets: Vec<Self>) -> (set: Self) where A: HashKey<S>, S: HashState + Default
        requires
            forall|i: int| 0 <= i < sets@.len() ==> (#[trigger] sets@[i]).wf(),
            total_len(sets@) <= usize::MAX,
        ensures
            set.wf(),
            set@ == union_all(sets@),
            set.held() == unions_held(sets@),
            exists|start: S| #[trigger]
                is_default(start) && set.state() == set_unions_state(sets@, start),
    {
        let mut set = Self::new();
        let ghost start = set.state();
        let mut i: usize = 0;
        proof {
            assert(sets@.take(0) =~= Seq::<Self>::empty());
        }
        while i < sets.len()
            invariant
                i <= sets.len(),
                forall|j: int| 0 <= j < sets@.len() ==> (#[trigger] sets@[j]).wf(),
                total_len(sets@) <= usize::MAX,
                set.wf(),
                set@.finite(),
                set@ == union_all(sets@.take(i as int)),
                set.held() == unions_held(sets@.take(i as int)),
                set.state() == set_unions_state(sets@.take(i as int), start),
                set@.len() <= total_len(sets@.take(i as int)),
            decreases sets.len() - i,
        {
            let ghost front = sets@.take(i as int);
            proof {
                assert(sets@.take(i + 1).drop_last() =~= front);
                lemma_total_len(sets@, i + 1);
                sets@[i as int].lemma_set();
                lemma_set_union_len(set@, sets@[i as int]@);
            }
            set = set.union(sets[i].clone());
            i += 1;
        }
        proof {
            assert(sets@.take(sets@.len() as int) =~= sets@);
            assert(is_default(start));
        }
        set
    }

    /// The elements that are in one of two sets only.
    pub fn symmetric_difference(self, other: Self) -> (set: Self) where A: HashKey<S>
        requires
            self.wf(),
            other.wf(),
            self@.len() + other@.len() <= usize::MAX,
        ensures
            set.wf(),
            set@ == self@.difference(other@).union(other@.difference(self@)),
            set.state() == self.state(),
            set.top() is None == (self.top() is None && other@.len() == 0),
            set.held().submap_of(self.held().union_prefer_right(other.held())),
    {
        let mut set = self;
        let pairs = other.pairs();
        let mut i: usize = 0;
        let ghost start = self@;
        proof {
            self.lemma_set();
            other.lemma_set();
            lemma_seen(pairs@, 0);
            assert(set@ =~= symmetric(start, pairs_map(pairs@.take(0)).dom()));
        }
        while i < pairs.len()
            invariant
                i <= pairs.len(),
                distinct(pairs@),
                set.wf(),
                set.state() == self.state(),
                start.finite(),
                start.len() + pairs@.len() <= usize::MAX,
                set@ == symmetric(start, pairs_map(pairs@.take(i as int)).dom()),
                other.held() == stored_keys(pairs@),
                other@ == pairs_map(pairs@).dom(),
                self@ == start,
                forall|element: A::V| #[trigger]
                    set.held().contains_key(element) ==> if pairs_map(
                        pairs@.take(i as int),
                    ).contains_key(element) {
                        other.held().contains_pair(element, set.held()[element])
                    } else {
                        self.held().contains_pair(element, set.held()[element])
                    },
                set.top() is None == (self.top() is None && i == 0),
            decreases pairs.len() - i,
        {
            let ghost seen = pairs_map(pairs@.take(i as int)).dom();
            proof {
                lemma_seen(pairs@, i as int);
                lemma_stored(pairs@, i as int);
                lemma_set_union_len(start, seen);
                assert(symmetric(start, seen).subset_of(start.union(seen)));
                vstd::set_lib::lemma_len_subset(symmetric(start, seen), start.union(seen));
            }
            if !set.discard(&*pairs[i].0) {
                set.insert_shared(share(&pairs[i].0));
            }
            i += 1;
            proof {
                assert(set@ =~= symmetric(start, pairs_map(pairs@.take(i as int)).dom()));
            }
        }
        proof {
            lemma_seen(pairs@, pairs@.len() as int);
            set.lemma_set();
            assert forall|element: A::V| #[trigger] set.held().contains_key(element) implies
                self.held().union_prefer_right(other.held()).contains_pair(
                element,
                set.held()[element],
            ) by {
                assert(set@.contains(element));
            }
        }
        set
    }

    /// The elements that are not in the other set.
    pub fn relative_complement(self, other: Self) -> (set: Self) where A: HashKey<S>
        requires
            self.wf(),
            other.wf(),
        ensures
            set.wf(),
            set@ == self@.difference(other@),
            set.state() == self.state(),
            set.top() is None == (self.top() is None && other@.len() == 0),
            set.held().submap_of(self.held()),
    {
        let mut set = self;
        let pairs = other.pairs();
        let mut i: usize = 0;
        proof {
            lemma_seen(pairs@, 0);
            assert(set@ =~= self@.difference(pairs_map(pairs@.take(0)).dom()));
        }
        while i < pairs.len()
            invariant
                i <= pairs.len(),
                distinct(pairs@),
                set.wf(),
                set.state() == self.state(),
                set@ == self@.difference(pairs_map(pairs@.take(i as int)).dom()),
                set.held().submap_of(self.held()),
                set.top() is None == (self.top() is None && i == 0),
            decreases pairs.len() - i,
        {
            proof {
                lemma_seen(pairs@, i as int);
            }
            set.discard(&*pairs[i].0);
            i += 1;
            proof {
                assert(set@ =~= self@.difference(pairs_map(pairs@.take(i as int)).dom()));
            }
        }
        proof {
            lemma_seen(pairs@, pairs@.len() as int);
        }
        set
    }

    /// The elements that are in both sets.
    pub fn intersection(self, other: Self) -> (set: Self) where A: HashKey<S>, S: HashState
        requires
            self.wf(),
            other.wf(),
        ensures
            set.wf(),
            set@ == self@.intersect(other@),
            set.held().submap_of(other.held()),
            set.state() == self.state(),
    {
        let mut set: Self = self.new_from();
        let pairs = other.pairs();
        let mut i: usize = 0;
        proof {
            other.lemma_set();
            lemma_seen(pairs@, 0);
            assert(set@ =~= self@.intersect(pairs_map(pairs@.take(0)).dom()));
        }
        while i < pairs.len()
            invariant
                i <= pairs.len(),
                distinct(pairs@),
                pairs@.len() <= usize::MAX,
                self.wf(),
                set.wf(),
                set.state() == self.state(),
                set@ == self@.intersect(pairs_map(pairs@.take(i as int)).dom()),
                other.held() == stored_keys(pairs@),
                set.held().submap_of(other.held()),
            decreases pairs.len() - i,
        {
            let ghost seen = pairs_map(pairs@.take(i as int)).dom();
            proof {
                lemma_seen(pairs@, i as int);
                lemma_stored(pairs@, i as int);
                assert(set@.subset_of(seen));
                vstd::set_lib::lemma_len_subset(set@, seen);
            }
            if self.contains(&*pairs[i].0) {
                set.insert_shared(share(&pairs[i].0));
            }
            i += 1;
            proof {
                assert(set@ =~= self@.intersect(pairs_map(pairs@.take(i as int)).dom()));
            }
        }
        proof {
            lemma_seen(pairs@, pairs@.len() as int);
        }
        set
    }

    /// The elements that are in a given set.
    pub fn restrict(&self, other: &Self) -> (set: Self) where A: HashKey<S>, S: HashState
        requires
            self.wf(),
            other.wf(),
        ensures
            set.wf(),
            set@ == self@.intersect(other@),
            set.held().submap_of(self.held()),
            set.state() == self.state(),
    {
        let mut set = self.clone();
        let held = |a: &A| -> (keep: bool)
            requires
                usable(other),
            ensures
                other@.contains(a@) == keep,
            { other.contains(a) };
        set.retain(held);
        proof {
            assert(set@ =~= self@.intersect(other@));
        }
        set
    }

    /// This set with an element added.
    pub fn update(&self, a: A) -> (set: Self) where A: HashKey<S>, S: HashState
        requires
            self.wf(),
            set_has_room(self@, a@),
        ensures
            set.wf(),
            set@ == self@.insert(a@),
            set.held() == self.held().insert(a@, a),
            set.top() is Some,
            set.state() == self.state(),
    {
        let mut set = self.clone();
        set.insert_shared(Arc::new(a));
        set
    }

    /// This set without an element.
    pub fn without(&self, value: &A) -> (set: Self) where A: HashKey<S>, S: HashState
        requires
            self.wf(),
        ensures
            set.wf(),
            set@ == self@.remove(value@),
            set.held() == self.held().remove(value@),
            set.top() is Some,
            set.state() == self.state(),
    {
        let mut set = self.clone();
        set.discard(value);
        set
    }

    /// Inserts every element of a list.
    pub fn extend(&mut self, list: Vec<A>) where A: HashKey<S>
        requires
            old(self).wf(),
            old(self)@.len() + list@.len() <= usize::MAX,
        ensures
            final(self).wf(),
            final(self)@ == old(self)@.union(names(list@).to_set()),
            final(self).held() == listed(old(self).held(), list@),
            final(self).state() == old(self).state(),
    {
        let ghost all = list@;
        proof {
            self.lemma_set();
            assert(self@ =~= old(self)@.union(names(all.take(0)).to_set()));
            assert(all.take(0) =~= Seq::<A>::empty());
        }
        for a in iter: list.into_iter()
            invariant
                iter.seq() == all,
                self.wf(),
                self.state() == old(self).state(),
                self@.finite(),
                old(self)@.len() + all.len() <= usize::MAX,
                self@.len() <= old(self)@.len() + iter.index(),
                self@ == old(self)@.union(names(all.take(iter.index() as int)).to_set()),
                self.held() == listed(old(self).held(), all.take(iter.index() as int)),
        {
            let ghost name = a@;
            let ghost i = iter.index();
            let ghost before = self@;
            proof {
                assert(a == all[i as int]);
                assert(i < all.len());
            }
            self.insert_shared(Arc::new(a));
            proof {
                let front = names(all.take(i as int));
                let longer = names(all.take(i + 1));
                assert(longer =~= front.push(name));
                assert(all.take(i + 1).drop_last() =~= all.take(i as int));
                front.lemma_push_to_set_commute(name);
                assert(self@ =~= old(self)@.union(longer.to_set()));
            }
        }
        proof {
            assert(all.take(all.len() as int) =~= all);
        }
    }

    /// The set of the elements of a list.
    pub fn from_vec(list: Vec<A>) -> (set: Self) where A: HashKey<S>, S: Default
        ensures
            set.wf(),
            set@ == names(list@).to_set(),
            set.held() == listed(Map::empty(), list@),
            is_default(set.state()),
    {
        let ghost all = list@;
        let mut set = Self::new();
        proof {
            assert(list@.len() == list.len());
        }
        set.extend(list);
        proof {
            assert(set@ =~= names(all).to_set());
        }
        set
    }
}

/// The elements that are in one of two sets only.
pub open spec fn symmetric<M>(a: Set<M>, b: Set<M>) -> Set<M> {
    a.difference(b).union(b.difference(a))
}

/// A longer list of sets has more elements in all.
proof fn lemma_total_len<A: View, S>(sets: Seq<GenericHashSet<A, S>>, n: int)
    requires
        0 <= n <= sets.len(),
    ensures
        total_len(sets.take(n)) <= total_len(sets),
    decreases sets.len() - n,
{
    if n == sets.len() {
        assert(sets.take(n) =~= sets);
    } else {
        lemma_total_len(sets, n + 1);
        assert(sets.take(n + 1).drop_last() =~= sets.take(n));
    }
}

} // verus!
