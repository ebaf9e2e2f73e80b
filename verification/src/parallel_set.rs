//! Operations on hash sets that run on several threads.
use crate::hash_key::{is_default, HashKey};
use crate::hash_map_ops::{replaced_keys, says};
use crate::hash_set::{GenericHashSet, Member};
use crate::hash_set_ops::{says_of, symmetric, usable};
use crate::parallel::both;
use vstd::prelude::*;

verus! {

/// Whether a function of an element accepts it.
pub open spec fn takes_element<A, F: Fn(&A) -> bool>(f: &F, a: &A) -> bool {
    (*f).requires((a,))
}

/// Whether a function of an element may say `verdict` of it.
pub open spec fn says_of_element<A, F: Fn(&A) -> bool>(f: &F, a: &A, verdict: bool) -> bool {
    (*f).ensures((a,), verdict)
}

/// Whether a set was made anew: with a default hasher state, and with a root just
/// where it holds something.
pub open spec fn set_anew<A: View, S: Default>(set: GenericHashSet<A, S>) -> bool {
    &&& is_default(set.state())
    &&& set.top() is None == (set@.len() == 0)
}

impl<A, S> GenericHashSet<A, S> {
    /// The elements that the other set holds, or does not hold.
    fn par_pick(&self, other: &Self, wanted: bool) -> (set: Self) where
        A: HashKey<S> + Send + Sync,
        S: Default + Send + Sync,

        requires
            self.wf(),
            other.wf(),
        ensures
            set.wf(),
            set@ == if wanted {
                self@.intersect(other@)
            } else {
                self@.difference(other@)
            },
            set@.len() <= self@.len(),
            set_anew(set),
            set.held().submap_of(self.held()),
    {
        proof {
            self.lemma_below();
            other.lemma_below();
        }
        let map = self.map().par_pick(other.map(), wanted);
        proof {
            assert(map@.dom() =~= if wanted {
                self@.intersect(other@)
            } else {
                self@.difference(other@)
            });
        }
        let set = Self::over(map);
        proof {
            set.lemma_below();
            map.lemma_map();
            if set@.len() == 0 {
                assert(map@ =~= Map::<A::V, Member>::empty());
            }
        }
        set
    }

    /// The elements that a function says `true` of.
    pub fn par_filter<F: Fn(&A) -> bool + Sync + Send>(&self, f: F) -> (set: Self) where
        A: HashKey<S> + Send + Sync,
        S: Default + Send + Sync,

        requires
            self.wf(),
            forall|a: A| self@.contains(#[trigger] a@) ==> f.requires((&a,)),
        ensures
            set.wf(),
            set@.subset_of(self@),
            set_anew(set),
            set.held().submap_of(self.held()),
            forall|element: A::V| #[trigger]
                self@.contains(element) ==> says_of(f, element, set@.contains(element)),
    {
        proof {
            self.lemma_below();
        }
        let keyed = |a: &A, member: &Member| -> (keep: bool)
            requires
                takes_element(&f, a),
            ensures
                says_of_element(&f, a, keep),
            { f(a) };
        proof {
            assert forall|a: A| self.below()@.contains_key(#[trigger] a@) implies keyed.requires(
                (&a, &self.below()@[a@]),
            ) by {
                assert(self@.contains(a@));
                assert(takes_element(&f, &a));
            }
        }
        let map = self.map().par_filter(keyed);
        let set = Self::over(map);
        proof {
            set.lemma_below();
            map.lemma_map();
            if set@.len() == 0 {
                assert(map@ =~= Map::<A::V, Member>::empty());
            }
            assert forall|element: A::V| #[trigger] self@.contains(element) implies says_of(
                f,
                element,
                set@.contains(element),
            ) by {
                assert(self.below()@.contains_key(element));
                assert(says(keyed, element, self.below()@[element], map@.contains_key(element)));
                let a = choose|a: A|
                    #[trigger] a@ == element && keyed.ensures(
                        (&a, &self.below()@[element]),
                        map@.contains_key(element),
                    );
                assert(says_of_element(&f, &a, set@.contains(element)));
                assert(a@ == element && f.ensures((&a,), set@.contains(element)));
            }
            assert forall|element: A::V| set@.contains(element) implies self@.contains(element) by {
                assert(map@.dom().contains(element));
                assert(self.below()@.dom().contains(element));
            }
        }
        set
    }

    /// The union of two sets.
    pub fn par_union(self, other: Self) -> (set: Self) where
        A: HashKey<S> + Send + Sync,
        S: Default + Send + Sync,

        requires
            self.wf(),
            other.wf(),
            self@.len() + other@.len() <= usize::MAX,
        ensures
            set.wf(),
            set@ == self@.union(other@),
            if other@.subset_of(self@) {
                set == self
            } else if self@.len() == 0 {
                set == other
            } else {
                &&& set.held() == other.held().union_prefer_right(self.held())
                &&& if self@.len() >= other@.difference(self@).len() {
                    set.state() == self.state()
                } else {
                    is_default(set.state())
                }
            },
    {
        proof {
            self.lemma_set();
            other.lemma_set();
        }
        if other.is_empty() || self.ptr_eq(&other) {
            proof {
                assert(self@.union(other@) =~= self@);
                assert(other@.subset_of(self@));
            }
            return self;
        }
        if self.is_empty() {
            proof {
                assert(self@.union(other@) =~= other@);
                if other@.subset_of(self@) {
                    assert(other@ =~= self@);
                }
            }
            return other;
        }
        let only_in_other = other.par_pick(&self, false);
        let set = self.union(only_in_other);
        proof {
            let only = other@.difference(self@);
            assert(set@ =~= self@.union(other@));
            only_in_other.lemma_set();
            if other@.subset_of(self@) {
                assert(only =~= Set::<A::V>::empty());
            } else {
                assert(set.held() =~= other.held().union_prefer_right(self.held()));
            }
        }
        set
    }

    /// The elements that are in both sets. The smaller set is walked.
    pub fn par_intersection(self, other: Self) -> (set: Self) where
        A: HashKey<S> + Send + Sync,
        S: Default + Send + Sync,

        requires
            self.wf(),
            other.wf(),
        ensures
            set.wf(),
            set@ == self@.intersect(other@),
            ({
                ||| set == self && self@ == other@ && self.top() == other.top()
                ||| {
                    &&& set_anew(set)
                    &&& set.held().submap_of(
                        if self@.len() <= other@.len() {
                            self.held()
                        } else {
                            other.held()
                        },
                    )
                }
            }),
    {
        if self.is_empty() || other.is_empty() {
            let set = Self::new();
            proof {
                assert(set@ =~= self@.intersect(other@));
            }
            return set;
        }
        if self.ptr_eq(&other) {
            proof {
                assert(self@.intersect(other@) =~= self@);
            }
            return self;
        }
        if self.len() <= other.len() {
            self.par_pick(&other, true)
        } else {
            let set = other.par_pick(&self, true);
            proof {
                assert(set@ =~= self@.intersect(other@));
            }
            set
        }
    }

    /// The elements that are not in the other set.
    pub fn par_difference(self, other: Self) -> (set: Self) where
        A: HashKey<S> + Send + Sync,
        S: Default + Send + Sync,

        requires
            self.wf(),
            other.wf(),
        ensures
            set.wf(),
            set@ == self@.difference(other@),
            if self@.len() == 0 || other@.len() == 0 {
                set == self
            } else {
                set_anew(set) && set.held().submap_of(self.held())
            },
    {
        if self.is_empty() || other.is_empty() {
            proof {
                assert(self@.difference(other@) =~= self@);
            }
            return self;
        }
        if self.ptr_eq(&other) {
            let set = Self::new();
            proof {
                assert(self@.difference(other@) =~= set@);
            }
            return set;
        }
        self.par_pick(&other, false)
    }

    /// The elements that are in one of two sets only; both halves are found at
    /// the same time.
    pub fn par_symmetric_difference(self, other: Self) -> (set: Self) where
        A: HashKey<S> + Send + Sync,
        S: Default + Send + Sync,

        requires
            self.wf(),
            other.wf(),
            self@.len() + other@.len() <= usize::MAX,
        ensures
            set.wf(),
            set@ == symmetric(self@, other@),
            if self@.len() == 0 {
                set == other
            } else if other@.len() == 0 {
                set == self
            } else {
                &&& set_anew(set)
                &&& set.held().submap_of(self.held().union_prefer_right(other.held()))
            },
    {
        proof {
            self.lemma_set();
            other.lemma_set();
        }
        if self.is_empty() {
            proof {
                assert(symmetric(self@, other@) =~= other@);
            }
            return other;
        }
        if other.is_empty() {
            proof {
                assert(symmetric(self@, other@) =~= self@);
            }
            return self;
        }
        if self.ptr_eq(&other) {
            let set = Self::new();
            proof {
                assert(symmetric(self@, other@) =~= set@);
            }
            return set;
        }
        let (left, right) = Self::par_both_picks(&self, &other);
        let set = left.union(right);
        proof {
            lemma_parted(self, other, left, right, set);
        }
        set
    }

    /// What only one set holds, and what only the other holds.
    fn par_both_picks(ours: &Self, theirs: &Self) -> (parts: (Self, Self)) where
        A: HashKey<S> + Send + Sync,
        S: Default + Send + Sync,

        requires
            ours.wf(),
            theirs.wf(),
        ensures
            parts.0.wf(),
            parts.0@ == ours@.difference(theirs@),
            parts.0@.len() <= ours@.len(),
            set_anew(parts.0),
            parts.0.held().submap_of(ours.held()),
            parts.1.wf(),
            parts.1@ == theirs@.difference(ours@),
            parts.1@.len() <= theirs@.len(),
            set_anew(parts.1),
            parts.1.held().submap_of(theirs.held()),
    {
        let left = || -> (part: Self)
            requires
                usable(ours),
                usable(theirs),
            ensures
                part.wf(),
                part@ == ours@.difference(theirs@),
                part@.len() <= ours@.len(),
                set_anew(part),
                part.held().submap_of(ours.held()),
            { ours.par_pick(theirs, false) };
        let right = || -> (part: Self)
            requires
                usable(ours),
                usable(theirs),
            ensures
                part.wf(),
                part@ == theirs@.difference(ours@),
                part@.len() <= theirs@.len(),
                set_anew(part),
                part.held().submap_of(theirs.held()),
            { theirs.par_pick(ours, false) };
        both(left, right)
    }
}

/// What the elements are that only one of two sets holds.
proof fn lemma_parted<S: Default, A: HashKey<S>>(
    ours: GenericHashSet<A, S>,
    theirs: GenericHashSet<A, S>,
    left: GenericHashSet<A, S>,
    right: GenericHashSet<A, S>,
    set: GenericHashSet<A, S>,
)
    requires
        ours.wf(),
        theirs.wf(),
        left.wf(),
        right.wf(),
        set.wf(),
        left@ == ours@.difference(theirs@),
        right@ == theirs@.difference(ours@),
        set_anew(left),
        set_anew(right),
        left.held().submap_of(ours.held()),
        right.held().submap_of(theirs.held()),
        set@ == left@.union(right@),
        set.held() == replaced_keys(left.held(), right.held()),
        right@.len() == 0 ==> set == left,
        set.state() == if left@.len() >= right@.len() {
            left.state()
        } else {
            right.state()
        },
    ensures
        set_anew(set),
        set.held().submap_of(ours.held().union_prefer_right(theirs.held())),
{
    ours.lemma_set();
    theirs.lemma_set();
    left.lemma_set();
    right.lemma_set();
    set.lemma_set();
    if set@.len() > 0 {
        lemma_rooted_set(set);
    } else {
        assert(set@ =~= Set::<A::V>::empty());
        assert(right@ =~= Set::<A::V>::empty()) by {
            assert forall|element: A::V| !right@.contains(element) by {
                assert(!set@.contains(element));
            }
        }
        assert(left@ =~= set@);
    }
    let both = ours.held().union_prefer_right(theirs.held());
    assert forall|element: A::V| #[trigger] set.held().dom().contains(element) implies
        both.dom().contains(element) && set.held()[element] == both[element] by {
        if left@.contains(element) {
            assert(left.held().dom().contains(element));
            assert(ours.held().dom().contains(element));
            assert(!theirs.held().dom().contains(element));
            assert(!right.held().dom().contains(element));
        } else {
            assert(right.held().dom().contains(element));
            assert(theirs.held().dom().contains(element));
        }
    }
}

/// A set that holds something has a root.
proof fn lemma_rooted_set<S, A: HashKey<S>>(set: GenericHashSet<A, S>)
    requires
        set.wf(),
        set@.len() > 0,
    ensures
        set.top() is Some,
{
    set.lemma_below();
    set.below().lemma_top();
    let element = set@.choose();
    assert(set@.contains(element));
}

} // verus!
