//! A persistent multiset.
use crate::fingerprint::kv_sum;
use crate::hash_key::{is_default, HashKey, HashState};
use crate::hash_map::GenericHashMap;
use crate::hash_set_ops::listed;
use crate::iter as map_iter;
use crate::map_iters;
use crate::map_iters::names;
use crate::node::{distinct, Pair};
use crate::random_state::RandomState;
use crate::shared::{inside, share};
use crate::trie::{lemma_seen, lemma_seen_keys, lemma_stored, lemma_submap_insert};
use crate::trie::{pairs_map, stored_keys};
use std::sync::Arc;
use vstd::math::min;
use vstd::multiset::Multiset;
use vstd::prelude::*;

verus! {

/// The multiset that a map of counts describes.
pub open spec fn counted<M>(counts: Map<M, usize>) -> Multiset<M> {
    Multiset::from_map(counts.map_values(|n: usize| n as nat))
}

/// A number of copies of one element.
pub open spec fn copies<M>(element: M, n: nat) -> Multiset<M>
    decreases n,
{
    if n == 0 {
        Multiset::empty()
    } else {
        copies(element, (n - 1) as nat).insert(element)
    }
}

/// The multiset of a list.
pub open spec fn tally<M>(list: Seq<M>) -> Multiset<M> {
    list.to_multiset()
}

pub(crate) proof fn lemma_copies<M>(element: M, n: nat)
    ensures
        copies(element, n).len() == n,
        forall|v: M| #[trigger]
            copies(element, n).count(v) == if v == element {
                n
            } else {
                0
            },
    decreases n,
{
    if n > 0 {
        lemma_copies(element, (n - 1) as nat);
    }
}

/// What a map of counts says of each element.
pub proof fn lemma_counted<M>(counts: Map<M, usize>)
    requires
        counts.dom().finite(),
    ensures
        forall|v: M| #[trigger]
            counted(counts).count(v) == if counts.contains_key(v) {
                counts[v] as nat
            } else {
                0
            },
{
    let inner = counts.map_values(|n: usize| n as nat);
    assert(inner.dom() =~= counts.dom());
}

/// The multiset after the count of one element was set.
proof fn lemma_set_count<M>(counts: Map<M, usize>, element: M, n: usize)
    requires
        counts.dom().finite(),
    ensures
        counted(counts.insert(element, n)) == counted(counts.remove(element)).add(
            copies(element, n as nat),
        ),
        counted(counts.insert(element, n)).len() == counted(counts.remove(element)).len() + n,
{
    lemma_counted(counts.insert(element, n));
    lemma_counted(counts.remove(element));
    lemma_copies(element, n as nat);
    assert(counted(counts.insert(element, n)) =~= counted(counts.remove(element)).add(
        copies(element, n as nat),
    ));
}

/// The multiset before and after an element was removed altogether.
proof fn lemma_drop_count<M>(counts: Map<M, usize>, element: M)
    requires
        counts.dom().finite(),
    ensures
        !counts.contains_key(element) ==> counts.remove(element) == counts,
        counts.contains_key(element) ==> counted(counts).len() == counted(
            counts.remove(element),
        ).len() + counts[element],
        counted(counts).count(element) <= counted(counts).len(),
{
    if counts.contains_key(element) {
        lemma_set_count(counts, element, counts[element]);
        assert(counts.insert(element, counts[element]) =~= counts);
    } else {
        assert(counts.remove(element) =~= counts);
    }
}

/// A multiset that another one covers is no larger.
proof fn lemma_covered<M>(part: Multiset<M>, whole: Multiset<M>)
    requires
        part.subset_of(whole),
    ensures
        part.len() <= whole.len(),
{
    assert(whole.sub(part).len() == whole.len() - part.len());
}

/// Whether two bags of one size and one hasher state have the same fingerprints.
/// Those that differ do so by a chance of one in 2^64.
pub open spec fn same_bag_fingerprints<A: View, S>(a: GenericBag<A, S>, b: GenericBag<A, S>) -> bool {
    &&& a@.len() == b@.len()
    &&& a@.dom().len() == b@.dom().len()
    &&& a.state() == b.state()
    &&& a.keys_merkle() == b.keys_merkle()
    &&& a.kv_merkle() is Some
    &&& a.kv_merkle() == b.kv_merkle()
}

/// A persistent multiset: an unordered collection that counts how often each
/// element occurs.
pub struct GenericBag<A, S> {
    map: GenericHashMap<A, usize, S>,
    total: usize,
}

/// A bag with the default hasher state.
pub type Bag<A> = GenericBag<A, RandomState>;

impl<A: View, S> View for GenericBag<A, S> {
    type V = Multiset<A::V>;

    closed spec fn view(&self) -> Multiset<A::V> {
        counted(self.map@)
    }
}

impl<A, S> GenericBag<A, S> {
    /// The elements with their counts, in the order in which they are walked.
    pub closed spec fn entries(self) -> Seq<Pair<A, usize>> {
        self.map.entries()
    }

    /// The elements themselves, by their views.
    pub closed spec fn held(self) -> Map<A::V, A> where A: View {
        self.map.held_keys()
    }

    /// The hasher state.
    pub closed spec fn state(self) -> S {
        self.map.state()
    }

    /// The fingerprint of the elements.
    pub closed spec fn keys_merkle(self) -> u64 {
        self.map.keys_merkle()
    }

    /// The fingerprint of the elements and their counts, where it is valid.
    pub closed spec fn kv_merkle(self) -> Option<u64> {
        self.map.kv_merkle()
    }

    /// Whether the fingerprint of the elements and their counts is valid and right.
    pub closed spec fn sealed(self) -> bool where A: HashKey<S>, usize: HashKey<S> {
        self.map.kv_merkle() is Some && self.map.sealed()
    }

    /// Whether the map is well formed, no element has the count zero, and the
    /// total is right.
    pub closed spec fn wf(self) -> bool where A: HashKey<S> {
        &&& self.map.wf()
        &&& forall|v: A::V| #[trigger] self.map@.contains_key(v) ==> self.map@[v] > 0
        &&& self.total == counted(self.map@).len()
    }

    /// What holds of every well-formed bag.
    pub proof fn lemma_bag(self) where A: HashKey<S>
        requires
            self.wf(),
        ensures
            self@.len() <= usize::MAX,
            self.entries().len() == self@.dom().len(),
            self.held() == stored_keys(self.entries()),
            self.held().dom() == self@.dom(),
            names(map_iters::keys_of(self.entries())).no_duplicates(),
            names(map_iters::keys_of(self.entries())).to_set() == self@.dom(),
            forall|i: int|
                0 <= i < self.entries().len() ==> self@.count((*(#[trigger] self.entries()[i]).0)@)
                    == *self.entries()[i].1,
    {
        self.map.lemma_map();
        lemma_counted(self.map@);
        assert(self@.dom() =~= self.map@.dom());
        map_iters::lemma_keys_of(self.map.entries());
        assert forall|i: int| 0 <= i < self.entries().len() implies self@.count(
            (*(#[trigger] self.entries()[i]).0)@,
        ) == *self.entries()[i].1 by {
            lemma_seen(self.map.entries(), i);
        }
    }

    /// How the entries relate to the counts.
    pub(crate) proof fn lemma_entries(self) where A: HashKey<S>
        requires
            self.wf(),
        ensures
            distinct(self.entries()),
            pairs_map(self.entries()).dom() == self@.dom(),
            forall|v: A::V| #[trigger]
                pairs_map(self.entries()).contains_key(v) ==> self@.count(v)
                    == pairs_map(self.entries())[v],
    {
        self.map.lemma_map();
        lemma_counted(self.map@);
        assert(self@.dom() =~= self.map@.dom());
    }

    /// The fingerprint of a bag whose fingerprint is right is the sum over its
    /// elements, each with its count.
    pub proof fn law_sealed(self) where A: HashKey<S>, usize: HashKey<S>
        requires
            self.wf(),
            self.sealed(),
        ensures
            self.kv_merkle() == Some(
                kv_sum::<S, A, usize>(
                    Map::new(|e: A::V| self@.count(e) > 0, |e: A::V| self@.count(e) as usize),
                    self.state(),
                ),
            ),
    {
        self.map.lemma_map();
        lemma_counted(self.map@);
        let counts = Map::new(|e: A::V| self@.count(e) > 0, |e: A::V| self@.count(e) as usize);
        assert(counts =~= self.map@);
    }

    /// A bag has no more elements than a word can count.
    pub(crate) proof fn lemma_size(self) where A: HashKey<S>
        requires
            self.wf(),
        ensures
            self.entries().len() <= usize::MAX,
    {
        self.map.lemma_map();
    }

    /// An empty bag with a default hasher state.
    pub fn new() -> (bag: Self) where A: HashKey<S>, S: Default
        ensures
            bag.wf(),
            bag@ == Multiset::<A::V>::empty(),
            bag.held() == Map::<A::V, A>::empty(),
            bag.kv_merkle() == Some(0u64),
            is_default(bag.state()),
    {
        let bag = GenericBag { map: GenericHashMap::new(), total: 0 };
        proof {
            lemma_counted(bag.map@);
            assert(bag@ =~= Multiset::<A::V>::empty());
        }
        bag
    }

    /// The fingerprint of an empty bag is zero.
    pub proof fn lemma_empty_sealed(self) where A: HashKey<S>, usize: HashKey<S>
        requires
            self.wf(),
            self@ == Multiset::<A::V>::empty(),
            self.kv_merkle() == Some(0u64),
        ensures
            self.sealed(),
    {
        self.map.lemma_map();
        lemma_counted(self.map@);
        assert(self.map@ =~= Map::<A::V, usize>::empty()) by {
            assert forall|v: A::V| !self.map@.contains_key(v) by {
                assert(self@.count(v) == 0);
            }
        }
    }

    /// Whether the bag has no elements.
    pub fn is_empty(&self) -> (empty: bool) where A: HashKey<S>
        requires
            self.wf(),
        ensures
            empty == (self@ == Multiset::<A::V>::empty()),
    {
        proof {
            self.map.lemma_map();
            lemma_counted(self.map@);
            if self.map@ == Map::<A::V, usize>::empty() {
                assert(self@ =~= Multiset::<A::V>::empty());
            } else if self@ == Multiset::<A::V>::empty() {
                assert(self.map@ =~= Map::<A::V, usize>::empty()) by {
                    assert forall|v: A::V| !self.map@.contains_key(v) by {
                        assert(self@.count(v) == 0);
                    }
                }
            }
        }
        self.map.is_empty()
    }

    /// Number of distinct elements.
    pub fn len(&self) -> (n: usize) where A: HashKey<S>
        requires
            self.wf(),
        ensures
            n == self@.dom().len(),
    {
        proof {
            self.map.lemma_map();
            lemma_counted(self.map@);
            assert(self@.dom() =~= self.map@.dom());
        }
        self.map.len()
    }

    /// Number of elements, each as often as it occurs.
    pub fn total_count(&self) -> (n: usize) where A: HashKey<S>
        requires
            self.wf(),
        ensures
            n == self@.len(),
    {
        self.total
    }

    /// How often an element occurs.
    pub fn count(&self, value: &A) -> (n: usize) where A: HashKey<S>
        requires
            self.wf(),
        ensures
            n == self@.count(value@),
    {
        proof {
            self.map.lemma_map();
            lemma_counted(self.map@);
        }
        match self.map.get(value) {
            Some(n) => *n,
            None => 0,
        }
    }

    /// Whether an element occurs.
    pub fn contains(&self, value: &A) -> (found: bool) where A: HashKey<S>
        requires
            self.wf(),
        ensures
            found == self@.contains(value@),
    {
        proof {
            self.map.lemma_map();
            lemma_counted(self.map@);
        }
        self.map.contains_key(value)
    }

    /// Adds occurrences of a shared element.
    fn add_shared(&mut self, value: Arc<A>, prev: usize, n: usize) where
        A: HashKey<S>,
        usize: HashKey<S>,

        requires
            old(self).wf(),
            prev == old(self)@.count((*value)@),
            n > 0,
            old(self)@.len() + n <= usize::MAX,
        ensures
            final(self).wf(),
            final(self)@ == old(self)@.add(copies((*value)@, n as nat)),
            final(self).held() == old(self).held().insert((*value)@, *value),
            final(self).state() == old(self).state(),
            final(self).kv_merkle() is Some == old(self).kv_merkle() is Some,
            old(self).sealed() ==> final(self).sealed(),
    {
        let ghost name = (*value)@;
        let ghost before = self.map@;
        proof {
            self.map.lemma_map();
            lemma_counted(before);
            lemma_drop_count(before, name);
            lemma_set_count(before, name, (prev + n) as usize);
            self.lemma_room();
        }
        self.map.put_pair(value, Arc::new(prev + n));
        self.total += n;
        proof {
            lemma_counted(self.map@);
            lemma_copies(name, n as nat);
            assert(self@ =~= old(self)@.add(copies(name, n as nat)));
        }
    }

    /// The map of a bag has room for what the bag has room for.
    proof fn lemma_room(self) where A: HashKey<S>
        requires
            self.wf(),
            self@.len() < usize::MAX,
        ensures
            self.map@.len() < usize::MAX,
    {
        self.map.lemma_map();
        lemma_map_total(self.map@);
    }

    /// Adds an element and returns how often it occurred before.
    pub fn insert(&mut self, value: A) -> (prev: usize) where
        A: HashKey<S>,
        usize: HashKey<S>,

        requires
            old(self).wf(),
            old(self)@.len() < usize::MAX,
        ensures
            final(self).wf(),
            final(self)@ == old(self)@.insert(value@),
            final(self).held() == old(self).held().insert(value@, value),
            final(self).state() == old(self).state(),
            final(self).kv_merkle() is Some == old(self).kv_merkle() is Some,
            old(self).sealed() ==> final(self).sealed(),
            prev == old(self)@.count(value@),
    {
        let ghost name = value@;
        let prev: usize = self.count(&value);
        self.add_shared(Arc::new(value), prev, 1);
        proof {
            lemma_copies(name, 1);
            assert(self@ =~= old(self)@.insert(name));
        }
        prev
    }

    /// Adds an element a number of times and returns how often it occurred
    /// before.
    pub fn insert_many(&mut self, value: A, n: usize) -> (prev: usize) where
        A: HashKey<S>,
        usize: HashKey<S>,

        requires
            old(self).wf(),
            old(self)@.len() + n <= usize::MAX,
        ensures
            final(self).wf(),
            final(self)@ == old(self)@.add(copies(value@, n as nat)),
            final(self).held() == if n == 0 {
                old(self).held()
            } else {
                old(self).held().insert(value@, value)
            },
            final(self).state() == old(self).state(),
            final(self).kv_merkle() is Some == old(self).kv_merkle() is Some,
            old(self).sealed() ==> final(self).sealed(),
            prev == old(self)@.count(value@),
    {
        let prev: usize = self.count(&value);
        if n == 0 {
            proof {
                assert(self@ =~= old(self)@.add(copies(value@, 0)));
            }
            return prev;
        }
        self.add_shared(Arc::new(value), prev, n);
        prev
    }

    /// Removes one occurrence of an element and returns how often it occurred
    /// before.
    pub fn remove(&mut self, value: &A) -> (prev: usize) where
        A: HashKey<S>,
        usize: HashKey<S>,

        requires
            old(self).wf(),
        ensures
            final(self).wf(),
            final(self)@ == old(self)@.remove(value@),
            final(self).held() == if old(self)@.count(value@) == 1 {
                old(self).held().remove(value@)
            } else {
                old(self).held()
            },
            final(self).state() == old(self).state(),
            final(self).kv_merkle() is Some == old(self).kv_merkle() is Some,
            old(self).sealed() ==> final(self).sealed(),
            prev == old(self)@.count(value@),
    {
        let ghost before = self.map@;
        let ghost name = value@;
        proof {
            self.map.lemma_map();
            lemma_counted(before);
            lemma_drop_count(before, name);
        }
        let prev: usize = self.count(value);
        if prev == 0 {
            proof {
                assert(self@ =~= old(self)@.remove(name));
            }
            return 0;
        }
        if prev == 1 {
            self.map.remove_pair(value);
        } else {
            let held = match self.map.get_pair(value) {
                Some(pair) => Some(share(&pair.0)),
                None => None,
            };
            match held {
                Some(key) => {
                    proof {
                        lemma_set_count(before, name, (prev - 1) as usize);
                    }
                    self.map.put_pair(key, Arc::new(prev - 1));
                    proof {
                        assert(self.held() =~= old(self).held());
                    }
                },
                None => {},
            }
        }
        self.total -= 1;
        proof {
            lemma_counted(self.map@);
            assert(self@ =~= old(self)@.remove(name));
        }
        prev
    }

    /// Removes all occurrences of an element and returns how many there were.
    pub fn remove_all(&mut self, value: &A) -> (prev: usize) where
        A: HashKey<S>,
        usize: HashKey<S>,

        requires
            old(self).wf(),
        ensures
            final(self).wf(),
            final(self)@ == old(self)@.sub(copies(value@, old(self)@.count(value@))),
            final(self).held() == old(self).held().remove(value@),
            final(self).state() == old(self).state(),
            final(self).kv_merkle() is Some == old(self).kv_merkle() is Some,
            old(self).sealed() ==> final(self).sealed(),
            prev == old(self)@.count(value@),
    {
        let ghost before = self.map@;
        let ghost name = value@;
        proof {
            self.map.lemma_map();
            lemma_counted(before);
            lemma_drop_count(before, name);
            lemma_copies(name, old(self)@.count(name));
        }
        match self.map.remove_pair(value) {
            Some(pair) => {
                let count: usize = *pair.1;
                self.total -= count;
                proof {
                    lemma_counted(self.map@);
                    assert(self@ =~= old(self)@.sub(copies(name, old(self)@.count(name))));
                }
                count
            },
            None => {
                proof {
                    assert(self@ =~= old(self)@.sub(copies(name, old(self)@.count(name))));
                }
                0
            },
        }
    }

    /// The elements of both bags together.
    pub fn sum(&self, other: &Self) -> (bag: Self) where
        A: HashKey<S>,
        usize: HashKey<S>,
        S: HashState,

        requires
            self.wf(),
            other.wf(),
            self@.len() + other@.len() <= usize::MAX,
        ensures
            bag.wf(),
            bag@ == self@.add(other@),
            bag.held() == self.held().union_prefer_right(other.held()),
            bag.state() == self.state(),
            bag.kv_merkle() is Some == self.kv_merkle() is Some,
            self.sealed() ==> bag.sealed(),
    {
        let mut bag = self.clone();
        let pairs = other.map.pairs();
        let mut i: usize = 0;
        proof {
            lemma_seen(pairs@, 0);
            lemma_counted(Map::<A::V, usize>::empty());
            assert(bag@ =~= self@.add(counted(pairs_map(pairs@.take(0)))));
            lemma_seen_keys(pairs@, 0);
            assert(bag.held() =~= self.held().union_prefer_right(stored_keys(pairs@.take(0))));
        }
        while i < pairs.len()
            invariant
                i <= pairs.len(),
                distinct(pairs@),
                other.wf(),
                other.map@ == pairs_map(pairs@),
                self@.len() + other@.len() <= usize::MAX,
                bag.wf(),
                bag.state() == self.state(),
                bag.kv_merkle() is Some == self.kv_merkle() is Some,
                self.sealed() ==> bag.sealed(),
                bag@ == self@.add(counted(pairs_map(pairs@.take(i as int)))),
                bag.held() == self.held().union_prefer_right(
                    stored_keys(pairs@.take(i as int)),
                ),
                other.held() == stored_keys(pairs@),
            decreases pairs.len() - i,
        {
            let pair = &pairs[i];
            let ghost seen = pairs_map(pairs@.take(i as int));
            let ghost name = (*pair.0)@;
            let prev: usize = bag.count(&*pair.0);
            let count: usize = *pair.1;
            proof {
                lemma_seen(pairs@, i as int);
                lemma_seen(pairs@, i + 1);
                lemma_seen_keys(pairs@, i as int);
                lemma_set_count(seen, name, count);
                assert(seen.remove(name) =~= seen);
                lemma_counted(seen.insert(name, count));
                other.map.lemma_map();
                lemma_counted(other.map@);
                assert(counted(seen.insert(name, count)).subset_of(other@)) by {
                    lemma_seen_part(pairs@, i + 1);
                }
                lemma_covered(counted(seen.insert(name, count)), other@);
            }
            bag.add_shared(share(&pair.0), prev, count);
            i += 1;
            proof {
                assert(bag@ =~= self@.add(counted(pairs_map(pairs@.take(i as int)))));
                assert(bag.held() =~= self.held().union_prefer_right(
                    stored_keys(pairs@.take(i as int)),
                ));
            }
        }
        proof {
            lemma_seen(pairs@, pairs@.len() as int);
            lemma_seen_keys(pairs@, pairs@.len() as int);
        }
        bag
    }

    /// Each element as often as it occurs in both bags. The bag with fewer
    /// distinct elements is walked.
    pub fn intersection(&self, other: &Self) -> (bag: Self) where
        A: HashKey<S>,
        usize: HashKey<S>,
        S: Default,

        requires
            self.wf(),
            other.wf(),
        ensures
            bag.wf(),
            bag@ == self@.intersection_with(other@),
            bag.held().submap_of(
                if self@.dom().len() <= other@.dom().len() {
                    self.held()
                } else {
                    other.held()
                },
            ),
            is_default(bag.state()),
            bag.sealed(),
    {
        proof {
            assert forall|v: A::V| #[trigger] self@.intersection_with(other@).count(v) == min(
                self@.count(v) as int,
                other@.count(v) as int,
            ) by {
                vstd::multiset::lemma_intersection_count(self@, other@, v);
            }
            assert forall|v: A::V| #[trigger] other@.intersection_with(self@).count(v) == min(
                other@.count(v) as int,
                self@.count(v) as int,
            ) by {
                vstd::multiset::lemma_intersection_count(other@, self@, v);
            }
            assert(self@.intersection_with(other@) =~= other@.intersection_with(self@));
        }
        if self.len() <= other.len() {
            self.shared_with(other)
        } else {
            other.shared_with(self)
        }
    }

    fn shared_with(&self, other: &Self) -> (bag: Self) where
        A: HashKey<S>,
        usize: HashKey<S>,
        S: Default,

        requires
            self.wf(),
            other.wf(),
        ensures
            bag.wf(),
            bag@ == self@.intersection_with(other@),
            bag.held().submap_of(self.held()),
            is_default(bag.state()),
            bag.sealed(),
    {
        let mut bag = Self::new();
        let pairs = self.map.pairs();
        let mut i: usize = 0;
        proof {
            bag.lemma_empty_sealed();
            lemma_seen(pairs@, 0);
        }
        while i < pairs.len()
            invariant
                i <= pairs.len(),
                distinct(pairs@),
                self.wf(),
                other.wf(),
                self.map@ == pairs_map(pairs@),
                bag.wf(),
                self.held() == stored_keys(pairs@),
                bag.held().submap_of(self.held()),
                is_default(bag.state()),
                bag.sealed(),
                forall|v: A::V| #[trigger]
                    bag@.count(v) == if pairs_map(pairs@.take(i as int)).contains_key(v) {
                        min(self@.count(v) as int, other@.count(v) as int)
                    } else {
                        0
                    },
            decreases pairs.len() - i,
        {
            let pair = &pairs[i];
            let ghost name = (*pair.0)@;
            let ghost before = bag@;
            proof {
                lemma_seen(pairs@, i as int);
                lemma_seen(pairs@, i + 1);
                self.map.lemma_map();
                lemma_counted(self.map@);
            }
            let count: usize = *pair.1;
            let other_count: usize = other.count(&*pair.0);
            let least: usize = if count <= other_count {
                count
            } else {
                other_count
            };
            proof {
                assert(self@.count(name) == count);
                assert(bag@.count(name) == 0);
            }
            if least > 0 {
                proof {
                    lemma_copies(name, least as nat);
                    let grown = before.add(copies(name, least as nat));
                    assert forall|v: A::V| grown.count(v) <= self@.count(v) by {
                        assert(before.count(v) <= self@.count(v));
                    }
                    lemma_covered(grown, self@);
                }
                proof {
                    lemma_stored(pairs@, i as int);
                    lemma_submap_insert(bag.held(), self.held(), name, inside(pair.0));
                }
                bag.add_shared(share(&pair.0), 0, least);
            }
            i += 1;
        }
        proof {
            lemma_seen(pairs@, pairs@.len() as int);
            self.map.lemma_map();
            lemma_counted(self.map@);
            assert forall|v: A::V| bag@.count(v) == #[trigger] self@.intersection_with(
                other@,
            ).count(v) by {
                vstd::multiset::lemma_intersection_count(self@, other@, v);
                assert(bag@.count(v) == bag@.count(v));
            }
            assert(bag@ =~= self@.intersection_with(other@));
        }
        bag
    }

    /// Each element as often as it occurs more in this bag than in the other.
    pub fn difference(&self, other: &Self) -> (bag: Self) where
        A: HashKey<S>,
        usize: HashKey<S>,
        S: Default,

        requires
            self.wf(),
            other.wf(),
        ensures
            bag.wf(),
            bag@ == self@.sub(other@),
            bag.held().submap_of(self.held()),
            is_default(bag.state()),
            bag.sealed(),
    {
        let mut bag = Self::new();
        let pairs = self.map.pairs();
        let mut i: usize = 0;
        proof {
            bag.lemma_empty_sealed();
            lemma_seen(pairs@, 0);
        }
        while i < pairs.len()
            invariant
                i <= pairs.len(),
                distinct(pairs@),
                self.wf(),
                other.wf(),
                self.map@ == pairs_map(pairs@),
                bag.wf(),
                self.held() == stored_keys(pairs@),
                bag.held().submap_of(self.held()),
                is_default(bag.state()),
                bag.sealed(),
                forall|v: A::V| #[trigger]
                    bag@.count(v) == if pairs_map(pairs@.take(i as int)).contains_key(v) {
                        self@.sub(other@).count(v)
                    } else {
                        0
                    },
            decreases pairs.len() - i,
        {
            let pair = &pairs[i];
            let ghost name = (*pair.0)@;
            let ghost before = bag@;
            proof {
                lemma_seen(pairs@, i as int);
                lemma_seen(pairs@, i + 1);
                self.map.lemma_map();
                lemma_counted(self.map@);
            }
            let count: usize = *pair.1;
            let other_count: usize = other.count(&*pair.0);
            let left: usize = count.saturating_sub(other_count);
            proof {
                assert(self@.count(name) == count);
                assert(bag@.count(name) == 0);
            }
            if left > 0 {
                proof {
                    lemma_copies(name, left as nat);
                    let grown = before.add(copies(name, left as nat));
                    assert forall|v: A::V| grown.count(v) <= self@.count(v) by {
                        assert(before.count(v) <= self@.count(v));
                    }
                    lemma_covered(grown, self@);
                }
                proof {
                    lemma_stored(pairs@, i as int);
                    lemma_submap_insert(bag.held(), self.held(), name, inside(pair.0));
                }
                bag.add_shared(share(&pair.0), 0, left);
            }
            i += 1;
        }
        proof {
            lemma_seen(pairs@, pairs@.len() as int);
            self.map.lemma_map();
            lemma_counted(self.map@);
            assert(bag@ =~= self@.sub(other@));
        }
        bag
    }

    /// Tests two bags for equality. Bags of one lineage with the same fingerprints
    /// are taken to be equal; other bags are compared element by element.
    pub fn test_eq(&self, other: &Self) -> (equal: bool) where A: HashKey<S>, S: HashState
        requires
            self.wf(),
            other.wf(),
        ensures
            self@ == other@ ==> equal,
            equal ==> self@ == other@ || same_bag_fingerprints(*self, *other),
    {
        let same_lineage = self.map.same_lineage(&other.map);
        self.test_eq_with(other, same_lineage)
    }

    /// Tests two bags for equality, given whether they have one lineage.
    pub fn test_eq_with(&self, other: &Self, same_lineage: bool) -> (equal: bool) where
        A: HashKey<S>,
        S: HashState,

        requires
            self.wf(),
            other.wf(),
        ensures
            equal == (self@ == other@ || (same_lineage && same_bag_fingerprints(*self, *other))),
    {
        proof {
            self.map.lemma_map();
            other.map.lemma_map();
            lemma_counted(self.map@);
            lemma_counted(other.map@);
            assert(self@.dom() =~= self.map@.dom());
            assert(other@.dom() =~= other.map@.dom());
            if self@ == other@ {
                assert forall|v: A::V| self.map@.contains_key(v) == other.map@.contains_key(v) by {
                    assert(self@.count(v) == other@.count(v));
                }
                assert(self.map@.dom() =~= other.map@.dom());
                assert forall|v: A::V| #[trigger] self.map@.contains_key(v) implies self.map@[v]
                    == other.map@[v] by {
                    assert(self@.count(v) == other@.count(v));
                }
            }
            if crate::hash_map_query::same_entries(self.map@, other.map@) {
                assert(self.map@ =~= other.map@);
            }
        }
        self.total == other.total && self.map.test_eq_with(&other.map, same_lineage)
    }

    /// An iterator over the elements with their counts.
    pub fn iter<'a>(&'a self) -> (iter: map_iter::Iter<'a, A, usize>) where A: HashKey<S>
        requires
            self.wf(),
        ensures
            iter.wf(),
            iter@ == self.entries(),
    {
        self.map.iter()
    }

    /// An iterator that hands the elements out with their counts.
    pub fn into_iter(self) -> (iter: map_iters::ConsumingIter<A, usize>) where A: HashKey<S>
        requires
            self.wf(),
        ensures
            iter@ == self.entries(),
    {
        self.map.into_iter()
    }

    /// Adds every element of a list.
    pub fn extend(&mut self, list: Vec<A>) where
        A: HashKey<S>,
        usize: HashKey<S>,

        requires
            old(self).wf(),
            old(self)@.len() + list@.len() <= usize::MAX,
        ensures
            final(self).wf(),
            final(self)@ == old(self)@.add(tally(names(list@))),
            final(self).held() == listed(old(self).held(), list@),
            final(self).state() == old(self).state(),
            final(self).kv_merkle() is Some == old(self).kv_merkle() is Some,
            old(self).sealed() ==> final(self).sealed(),
    {
        let ghost all = list@;
        proof {
            assert(names(all.take(0)) =~= Seq::<A::V>::empty());
            assert(all.take(0) =~= Seq::<A>::empty());
            Seq::<A::V>::empty().to_multiset_ensures();
            assert(self@ =~= old(self)@.add(tally(names(all.take(0)))));
        }
        for a in iter: list.into_iter()
            invariant
                iter.seq() == all,
                self.wf(),
                self.state() == old(self).state(),
                self.kv_merkle() is Some == old(self).kv_merkle() is Some,
                old(self).sealed() ==> self.sealed(),
                old(self)@.len() + all.len() <= usize::MAX,
                self@.len() == old(self)@.len() + iter.index(),
                self@ == old(self)@.add(tally(names(all.take(iter.index() as int)))),
                self.held() == listed(old(self).held(), all.take(iter.index() as int)),
        {
            let ghost i = iter.index();
            let ghost name = a@;
            let ghost before = self@;
            proof {
                assert(a == all[i as int]);
            }
            self.insert(a);
            proof {
                let front = names(all.take(i as int));
                assert(names(all.take(i + 1)) =~= front.push(name));
                assert(all.take(i + 1).drop_last() =~= all.take(i as int));
                front.to_multiset_ensures();
                assert(self@ =~= old(self)@.add(tally(front.push(name))));
            }
        }
        proof {
            assert(all.take(all.len() as int) =~= all);
        }
    }

    /// The bag of the elements of a list.
    pub fn from_vec(list: Vec<A>) -> (bag: Self) where
        A: HashKey<S>,
        usize: HashKey<S>,
        S: Default,

        ensures
            bag.wf(),
            bag@ == tally(names(list@)),
            bag.held() == listed(Map::empty(), list@),
            is_default(bag.state()),
            bag.sealed(),
    {
        let ghost all = list@;
        let mut bag = Self::new();
        proof {
            bag.lemma_empty_sealed();
            assert(list@.len() == list.len());
        }
        bag.extend(list);
        proof {
            assert(bag@ =~= tally(names(all)));
        }
        bag
    }
}

/// A map of positive counts has no more keys than its counts add up to.
proof fn lemma_map_total<M>(counts: Map<M, usize>)
    requires
        counts.dom().finite(),
        forall|v: M| #[trigger] counts.contains_key(v) ==> counts[v] > 0,
    ensures
        counts.len() <= counted(counts).len(),
    decreases counts.len(),
{
    if counts.len() > 0 {
        let v = counts.dom().choose();
        assert(counts.contains_key(v));
        lemma_map_total(counts.remove(v));
        lemma_drop_count(counts, v);
    }
}

/// The counts of a part of a list of entries are covered by those of the list.
proof fn lemma_seen_part<A: View>(pairs: Seq<Pair<A, usize>>, i: int)
    requires
        distinct(pairs),
        0 <= i <= pairs.len(),
    ensures
        pairs_map(pairs.take(i)).submap_of(pairs_map(pairs)),
    decreases pairs.len() - i,
{
    lemma_seen(pairs, i);
    if i < pairs.len() {
        lemma_seen(pairs, i + 1);
        lemma_seen_part(pairs, i + 1);
        let part = pairs_map(pairs.take(i));
        let longer = pairs_map(pairs.take(i + 1));
        assert(part.submap_of(longer));
        assert forall|key: A::V| #[trigger] part.contains_key(key) implies pairs_map(
            pairs,
        ).contains_key(key) && pairs_map(pairs)[key] == part[key] by {
            assert(longer.contains_key(key) && longer[key] == part[key]);
        }
    }
}

impl<A, S: HashState> Clone for GenericBag<A, S> {
    /// Another bag with the same root: no element is copied.
    fn clone(&self) -> (copy: Self)
        ensures
            copy == *self,
    {
        GenericBag { map: self.map.clone(), total: self.total }
    }
}

impl<A: HashKey<S>, S: Default> Default for GenericBag<A, S> {
    fn default() -> (bag: Self)
        ensures
            bag.wf(),
            bag@ == Multiset::<A::V>::empty(),
            bag.held() == Map::<A::V, A>::empty(),
            bag.kv_merkle() == Some(0u64),
            is_default(bag.state()),
    {
        Self::new()
    }
}

} // verus!
