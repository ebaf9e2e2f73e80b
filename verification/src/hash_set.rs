//! An unordered set backed by a trie, with O(1) clones.
use crate::hash_key::{is_default, HashKey, HashState};
use crate::hash_map::GenericHashMap;
use crate::hash_map_query::equivalence;
use crate::intern::{exchanged, walked, HashSetInternPool};
use crate::iter as map_iter;
use crate::map_iters::{keys_of, lemma_keys_of, names};
use crate::map_iters;
use crate::node::{distinct, lemma_find, ChampNode, Pair};
use crate::random_state::RandomState;
use crate::shared::{share, take};
use crate::trie::{pairs_map, stored_keys};
use std::sync::Arc;
use vstd::prelude::*;

verus! {

/// What a set holds beside each element: nothing but that it is there.
pub struct Member;

impl Clone for Member {
    fn clone(&self) -> (copy: Self) {
        Member
    }
}

impl PartialEq for Member {
    fn eq(&self, other: &Self) -> (equal: bool) {
        true
    }
}

impl vstd::std_specs::cmp::PartialEqSpecImpl for Member {
    open spec fn obeys_eq_spec() -> bool {
        true
    }

    open spec fn eq_spec(&self, other: &Self) -> bool {
        true
    }
}

/// An unordered set.
///
/// Elements are known by their views: the set is modelled as a set of views.
/// Like a map it keeps a fingerprint of its elements, a sum that does not depend
/// on their order, and a lineage that tells whether the fingerprints of two sets
/// may be compared.
pub struct GenericHashSet<A, S> {
    map: GenericHashMap<A, Member, S>,
}

/// A set with the default hasher state.
pub type HashSet<A> = GenericHashSet<A, RandomState>;

impl<A: View, S> View for GenericHashSet<A, S> {
    type V = Set<A::V>;

    closed spec fn view(&self) -> Set<A::V> {
        self.map@.dom()
    }
}

/// Whether a set has room for an element: it holds it, or its size can grow.
pub open spec fn set_has_room<M>(set: Set<M>, element: M) -> bool {
    set.contains(element) || set.len() < usize::MAX
}

impl<A, S> GenericHashSet<A, S> {
    /// The elements, in the order in which they are walked.
    pub closed spec fn elements(self) -> Seq<A> {
        keys_of(self.map.entries())
    }

    /// The elements themselves, by their views.
    pub closed spec fn held(self) -> Map<A::V, A> where A: View {
        self.map.held_keys()
    }

    /// The hasher state.
    pub closed spec fn state(self) -> S {
        self.map.state()
    }

    /// The fingerprint of the elements.
    pub closed spec fn merkle(self) -> u64 {
        self.map.keys_merkle()
    }

    /// Whether the trie is well formed and the fingerprint is right.
    pub closed spec fn wf(self) -> bool where A: HashKey<S> {
        self.map.wf()
    }

    /// The root of the trie, where there is one.
    pub closed spec fn top(self) -> Option<Arc<ChampNode<A, Member>>> {
        self.map.top()
    }

    /// The entries of the map below.
    pub(crate) closed spec fn below(self) -> GenericHashMap<A, Member, S> {
        self.map
    }

    /// What holds of every well-formed set.
    pub proof fn lemma_set(self) where A: HashKey<S>
        requires
            self.wf(),
        ensures
            self@.finite(),
            self@.len() <= usize::MAX,
            self.elements().len() == self@.len(),
            names(self.elements()).no_duplicates(),
            names(self.elements()).to_set() == self@,
            self.held().dom() == self@,
            forall|i: int|
                0 <= i < self.elements().len() ==> self.held()[(
                #[trigger] self.elements()[i])@] == self.elements()[i],
            self.merkle() == crate::fingerprint::key_sum::<S, A>(self@, self.state()),
    {
        self.map.lemma_map();
        lemma_keys_of(self.map.entries());
        assert forall|i: int| 0 <= i < self.elements().len() implies self.held()[(
        #[trigger] self.elements()[i])@] == self.elements()[i] by {
            lemma_find(self.map.entries(), i);
        }
    }

    /// How a set relates to the map below it.
    pub(crate) proof fn lemma_below(self) where A: HashKey<S>
        ensures
            self.wf() == self.below().wf(),
            self@ == self.below()@.dom(),
            self.state() == self.below().state(),
            self.merkle() == self.below().keys_merkle(),
            self.elements() == keys_of(self.below().entries()),
            self.held() == self.below().held_keys(),
            self.top() == self.below().top(),
    {
    }

    /// An empty set with a default hasher state.
    pub fn new() -> (set: Self) where A: HashKey<S>, S: Default
        ensures
            set.wf(),
            set@ == Set::<A::V>::empty(),
            set.top() is None,
            set.held() == Map::<A::V, A>::empty(),
            is_default(set.state()),
    {
        Self::with_hasher(S::default())
    }

    /// An empty set with a given hasher state.
    pub fn with_hasher(hasher: S) -> (set: Self) where A: HashKey<S>
        ensures
            set.wf(),
            set@ == Set::<A::V>::empty(),
            set.top() is None,
            set.held() == Map::<A::V, A>::empty(),
            set.state() == hasher,
    {
        let set = GenericHashSet { map: GenericHashMap::with_hasher(hasher) };
        proof {
            assert(set@ =~= Set::<A::V>::empty());
        }
        set
    }

    /// An empty set, of any elements, with the hasher state of this one.
    pub fn new_from<B>(&self) -> (set: GenericHashSet<B, S>) where B: HashKey<S>, S: HashState
        ensures
            set.wf(),
            set@ == Set::<B::V>::empty(),
            set.top() is None,
            set.held() == Map::<B::V, B>::empty(),
            set.state() == self.state(),
    {
        let set = GenericHashSet { map: self.map.new_from() };
        proof {
            assert(set@ =~= Set::<B::V>::empty());
        }
        set
    }

    /// The hasher state.
    pub fn hasher(&self) -> (state: &S)
        ensures
            *state == self.state(),
    {
        self.map.hasher()
    }

    /// Number of elements.
    pub fn len(&self) -> (n: usize) where A: HashKey<S>
        requires
            self.wf(),
        ensures
            n == self@.len(),
    {
        self.map.len()
    }

    /// Whether the set has no elements.
    pub fn is_empty(&self) -> (empty: bool) where A: HashKey<S>
        requires
            self.wf(),
        ensures
            empty == (self@ == Set::<A::V>::empty()),
            empty == (self@.len() == 0),
    {
        proof {
            self.map.lemma_map();
            if self@.len() == 0 {
                assert(self@ =~= Set::<A::V>::empty());
            }
        }
        self.len() == 0
    }

    /// Whether both sets have one root in memory, or no root. Sets that do hold
    /// the same elements; sets that do not may hold them too. Of two roots nothing
    /// says whether they are one allocation.
    pub fn ptr_eq(&self, other: &Self) -> (same: bool) where A: View
        ensures
            same ==> self@ == other@ && self.elements() == other.elements(),
            same ==> self.top() == other.top(),
            self.top() is None && other.top() is None ==> same,
            self.top() is None != other.top() is None ==> !same,
    {
        self.map.ptr_eq(&other.map)
    }

    /// Whether both sets were cloned from one set, or made from one another by
    /// [`new_from`][Self::new_from].
    pub(crate) fn same_lineage(&self, other: &Self) -> (same: bool) {
        self.map.same_lineage(&other.map)
    }

    /// The fingerprint of the elements.
    pub fn merkle_hash(&self) -> (hash: u64)
        ensures
            hash == self.merkle(),
    {
        self.map.merkle_hash()
    }

    /// The map below.
    pub(crate) fn map(&self) -> (map: &GenericHashMap<A, Member, S>)
        ensures
            *map == self.below(),
    {
        &self.map
    }

    /// The set of the keys of a map.
    pub(crate) fn over(map: GenericHashMap<A, Member, S>) -> (set: Self) where A: HashKey<S>
        requires
            map.wf(),
        ensures
            set.wf(),
            set.below() == map,
            set@ == map@.dom(),
            set.state() == map.state(),
    {
        GenericHashSet { map }
    }

    /// Interns the nodes of the set: each is exchanged, from the bottom up, for an
    /// equal one that the pool holds. The elements and the fingerprint stay.
    pub fn intern(&mut self, pool: &mut HashSetInternPool<A>) where A: HashKey<S>
        requires
            old(self).wf(),
            old(pool).wf(),
        ensures
            final(self).wf(),
            final(pool).wf(),
            final(self)@ == old(self)@,
            final(self).state() == old(self).state(),
            final(self).merkle() == old(self).merkle(),
            match old(self).top() {
                Some(node) => {
                    &&& final(self).top() is Some
                    &&& walked(
                        *old(pool),
                        *final(pool),
                        *node,
                        final(self).top()->0,
                        old(self).state(),
                    )
                    &&& exchanged(
                        *old(pool),
                        *final(pool),
                        *node,
                        *final(self).top()->0,
                        old(self).state(),
                    )
                },
                None => *final(self) == *old(self) && *final(pool) == *old(pool),
            },
    {
        proof {
            assert(equivalence::<Member>());
        }
        self.map.intern(pool);
    }

    /// Discards all elements.
    pub fn clear(&mut self) where A: HashKey<S>
        ensures
            final(self).wf(),
            final(self)@ == Set::<A::V>::empty(),
            final(self).top() is None,
            final(self).state() == old(self).state(),
    {
        self.map.clear();
        proof {
            assert(self@ =~= Set::<A::V>::empty());
        }
    }

    /// The elements, as shared pairs.
    pub(crate) fn pairs(&self) -> (pairs: Vec<Pair<A, Member>>) where A: HashKey<S>
        requires
            self.wf(),
        ensures
            pairs@ == self.below().entries(),
            keys_of(pairs@) == self.elements(),
            self.held() == stored_keys(pairs@),
            distinct(pairs@),
            self@ == pairs_map(pairs@).dom(),
            pairs@.len() == self@.len(),
    {
        self.map.pairs()
    }

    /// An iterator over the elements. The order is that of the trie, the same
    /// each time for one set.
    pub fn iter<'a>(&'a self) -> (iter: Iter<'a, A>) where A: HashKey<S>
        requires
            self.wf(),
        ensures
            iter.wf(),
            iter@ == self.elements(),
    {
        Iter { it: self.map.iter() }
    }

    /// An iterator that hands the elements out, in their order.
    pub fn into_iter(self) -> (iter: ConsumingIter<A>) where A: HashKey<S>
        requires
            self.wf(),
        ensures
            iter@ == self.elements(),
    {
        ConsumingIter { it: self.map.into_iter() }
    }

    /// Whether the set holds an element.
    pub fn contains(&self, value: &A) -> (found: bool) where A: HashKey<S>
        requires
            self.wf(),
        ensures
            found == self@.contains(value@),
    {
        self.map.contains_key(value)
    }

    /// Inserts a shared element.
    pub(crate) fn insert_shared(&mut self, a: Arc<A>) -> (replaced: bool) where A: HashKey<S>
        requires
            old(self).wf(),
            set_has_room(old(self)@, (*a)@),
        ensures
            final(self).wf(),
            final(self)@ == old(self)@.insert((*a)@),
            final(self).held() == old(self).held().insert((*a)@, *a),
            final(self).top() is Some,
            final(self).state() == old(self).state(),
            replaced == old(self)@.contains((*a)@),
    {
        let ghost before = self.map@;
        let ghost name = (*a)@;
        let replaced = self.map.insert_pair(a, Arc::new(Member));
        proof {
            assert(self@ =~= before.dom().insert(name));
        }
        replaced.is_some()
    }

    /// Inserts an element and returns the one that it replaces.
    pub fn insert(&mut self, a: A) -> (replaced: Option<A>) where A: HashKey<S> + Clone
        requires
            old(self).wf(),
            set_has_room(old(self)@, a@),
        ensures
            final(self).wf(),
            final(self)@ == old(self)@.insert(a@),
            final(self).held() == old(self).held().insert(a@, a),
            final(self).top() is Some,
            final(self).state() == old(self).state(),
            match replaced {
                Some(element) => old(self)@.contains(a@) && cloned(old(self).held()[a@], element),
                None => !old(self)@.contains(a@),
            },
    {
        let held = match self.map.get_pair(&a) {
            Some(pair) => Some(share(&pair.0)),
            None => None,
        };
        self.insert_shared(Arc::new(a));
        match held {
            Some(element) => Some(take(element)),
            None => None,
        }
    }

    /// Removes an element without handing it out. A set without a root gets one.
    pub(crate) fn discard(&mut self, value: &A) -> (removed: bool) where A: HashKey<S>
        requires
            old(self).wf(),
        ensures
            final(self).wf(),
            final(self)@ == old(self)@.remove(value@),
            final(self).held() == old(self).held().remove(value@),
            final(self).top() is Some,
            final(self).state() == old(self).state(),
            removed == old(self)@.contains(value@),
            !removed ==> final(self).elements() == old(self).elements(),
            !removed && old(self).top() is Some ==> *final(self) == *old(self),
    {
        let ghost before = self.map@;
        self.map.plant();
        let removed = self.map.remove_pair_invalidate(value);
        proof {
            assert(self@ =~= before.dom().remove(value@));
        }
        removed.is_some()
    }

    /// Removes an element and returns the one that the set held. A set without a
    /// root gets one, whether it holds the element or not.
    pub fn remove(&mut self, value: &A) -> (removed: Option<A>) where A: HashKey<S> + Clone
        requires
            old(self).wf(),
        ensures
            final(self).wf(),
            final(self)@ == old(self)@.remove(value@),
            final(self).held() == old(self).held().remove(value@),
            final(self).top() is Some,
            final(self).state() == old(self).state(),
            match removed {
                Some(element) => old(self)@.contains(value@) && cloned(
                    old(self).held()[value@],
                    element,
                ),
                None => {
                    &&& !old(self)@.contains(value@)
                    &&& final(self).elements() == old(self).elements()
                    &&& old(self).top() is Some ==> *final(self) == *old(self)
                },
            },
    {
        let ghost before = self.map@;
        self.map.plant();
        let removed = self.map.remove_pair_invalidate(value);
        proof {
            assert(self@ =~= before.dom().remove(value@));
        }
        match removed {
            Some(pair) => Some(take(pair.0)),
            None => None,
        }
    }
}

impl<A, S: HashState> Clone for GenericHashSet<A, S> {
    /// Another set with the same root: no element is copied.
    fn clone(&self) -> (copy: Self)
        ensures
            copy == *self,
    {
        GenericHashSet { map: self.map.clone() }
    }
}

/// An iterator over the elements of a set.
pub struct Iter<'a, A> {
    it: map_iter::Iter<'a, A, Member>,
}

impl<'a, A> View for Iter<'a, A> {
    type V = Seq<A>;

    /// The elements that are left.
    closed spec fn view(&self) -> Seq<A> {
        keys_of(self.it@)
    }
}

impl<'a, A> Iter<'a, A> {
    /// Whether the iterator stands in a trie.
    pub closed spec fn wf(self) -> bool {
        self.it.wf()
    }

    /// Number of elements that are left.
    pub fn len(&self) -> (n: usize)
        requires
            self.wf(),
        ensures
            n == self@.len(),
    {
        self.it.len()
    }

    /// The next element.
    pub fn next(&mut self) -> (element: Option<&'a A>)
        requires
            old(self).wf(),
        ensures
            final(self).wf(),
            match element {
                Some(a) => {
                    &&& old(self)@.len() > 0
                    &&& *a == old(self)@[0]
                    &&& final(self)@ == old(self)@.skip(1)
                },
                None => old(self)@.len() == 0 && final(self)@.len() == 0,
            },
    {
        match self.it.next() {
            Some((a, _)) => {
                proof {
                    assert(self@ =~= old(self)@.skip(1));
                }
                Some(a)
            },
            None => None,
        }
    }
}

/// An iterator that hands the elements of a set out. An element that nothing
/// else shares is moved out; another one is cloned.
pub struct ConsumingIter<A> {
    it: map_iters::ConsumingIter<A, Member>,
}

impl<A> View for ConsumingIter<A> {
    type V = Seq<A>;

    /// The elements that are left.
    closed spec fn view(&self) -> Seq<A> {
        keys_of(self.it@)
    }
}

impl<A> ConsumingIter<A> {
    /// Number of elements that are left.
    pub fn len(&self) -> (n: usize)
        ensures
            n == self@.len(),
    {
        self.it.len()
    }

    /// The next element.
    pub fn next(&mut self) -> (element: Option<A>) where A: Clone
        ensures
            match element {
                Some(a) => {
                    &&& old(self)@.len() > 0
                    &&& cloned(old(self)@[0], a)
                    &&& final(self)@ == old(self)@.skip(1)
                },
                None => old(self)@.len() == 0 && final(self)@.len() == 0,
            },
    {
        match self.it.next() {
            Some((a, _)) => {
                proof {
                    assert(self@ =~= old(self)@.skip(1));
                }
                Some(a)
            },
            None => None,
        }
    }
}

impl<A: HashKey<S>, S: Default> Default for GenericHashSet<A, S> {
    fn default() -> (set: Self)
        ensures
            set.wf(),
            set@ == Set::<A::V>::empty(),
            set.top() is None,
            is_default(set.state()),
    {
        Self::new()
    }
}

} // verus!
