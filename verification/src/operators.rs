//! Operators on collections: `+` joins two of them, and `*` of two sets is what
//! they have in common.
use crate::bag::GenericBag;
use crate::bimap::{pair_names, plain_pairs, repaired_all, GenericBiMap};
use crate::bimap::{rehung_keys, rehung_values};
use crate::hash_key::{HashKey, HashState};
use crate::hash_map_ops::replaced_keys;
use crate::hash_set::GenericHashSet;
use std::ops::{Add, Mul};
use vstd::prelude::*;
use vstd::std_specs::ops::{AddSpecImpl, MulSpecImpl};

verus! {

impl<A: HashKey<S>, S> Add for GenericHashSet<A, S> {
    type Output = Self;

    /// The union of two sets.
    fn add(self, other: Self) -> (set: Self)
        ensures
            set.wf(),
            set@ == self@.union(other@),
            set.held() == replaced_keys(self.held(), other.held()),
            set.state() == if self@.len() >= other@.len() {
                self.state()
            } else {
                other.state()
            },
    {
        self.union(other)
    }
}

impl<A: HashKey<S>, S> AddSpecImpl for GenericHashSet<A, S> {
    open spec fn obeys_add_spec() -> bool {
        false
    }

    open spec fn add_req(self, other: Self) -> bool {
        self.wf() && other.wf() && self@.len() + other@.len() <= usize::MAX
    }

    open spec fn add_spec(self, other: Self) -> Self {
        arbitrary()
    }
}

impl<'a, A: HashKey<S>, S: HashState> Add for &'a GenericHashSet<A, S> {
    type Output = GenericHashSet<A, S>;

    /// The union of two sets.
    fn add(self, other: Self) -> (set: GenericHashSet<A, S>)
        ensures
            set.wf(),
            set@ == self@.union(other@),
            set.held() == replaced_keys(self.held(), other.held()),
            set.state() == if self@.len() >= other@.len() {
                self.state()
            } else {
                other.state()
            },
    {
        self.clone().union(other.clone())
    }
}

impl<'a, A: HashKey<S>, S: HashState> AddSpecImpl for &'a GenericHashSet<A, S> {
    open spec fn obeys_add_spec() -> bool {
        false
    }

    open spec fn add_req(self, other: Self) -> bool {
        self.wf() && other.wf() && self@.len() + other@.len() <= usize::MAX
    }

    open spec fn add_spec(self, other: Self) -> GenericHashSet<A, S> {
        arbitrary()
    }
}

impl<A: HashKey<S>, S: HashState> Mul for GenericHashSet<A, S> {
    type Output = Self;

    /// The elements that are in both sets.
    fn mul(self, other: Self) -> (set: Self)
        ensures
            set.wf(),
            set@ == self@.intersect(other@),
            set.held().submap_of(other.held()),
            set.state() == self.state(),
    {
        self.intersection(other)
    }
}

impl<A: HashKey<S>, S: HashState> MulSpecImpl for GenericHashSet<A, S> {
    open spec fn obeys_mul_spec() -> bool {
        false
    }

    open spec fn mul_req(self, other: Self) -> bool {
        self.wf() && other.wf()
    }

    open spec fn mul_spec(self, other: Self) -> Self {
        arbitrary()
    }
}

impl<'a, A: HashKey<S>, S: HashState> Mul for &'a GenericHashSet<A, S> {
    type Output = GenericHashSet<A, S>;

    /// The elements that are in both sets.
    fn mul(self, other: Self) -> (set: GenericHashSet<A, S>)
        ensures
            set.wf(),
            set@ == self@.intersect(other@),
            set.held().submap_of(other.held()),
            set.state() == self.state(),
    {
        self.clone().intersection(other.clone())
    }
}

impl<'a, A: HashKey<S>, S: HashState> MulSpecImpl for &'a GenericHashSet<A, S> {
    open spec fn obeys_mul_spec() -> bool {
        false
    }

    open spec fn mul_req(self, other: Self) -> bool {
        self.wf() && other.wf()
    }

    open spec fn mul_spec(self, other: Self) -> GenericHashSet<A, S> {
        arbitrary()
    }
}

impl<A: HashKey<S>, S: HashState> Add for GenericBag<A, S> where usize: HashKey<S> {
    type Output = Self;

    /// The elements of both bags together.
    fn add(self, other: Self) -> (bag: Self)
        ensures
            bag.wf(),
            bag@ == self@.add(other@),
            bag.held() == self.held().union_prefer_right(other.held()),
            bag.state() == self.state(),
    {
        self.sum(&other)
    }
}

impl<A: HashKey<S>, S: HashState> AddSpecImpl for GenericBag<A, S> where usize: HashKey<S> {
    open spec fn obeys_add_spec() -> bool {
        false
    }

    open spec fn add_req(self, other: Self) -> bool {
        self.wf() && other.wf() && self@.len() + other@.len() <= usize::MAX
    }

    open spec fn add_spec(self, other: Self) -> Self {
        arbitrary()
    }
}

impl<'a, A: HashKey<S>, S: HashState> Add for &'a GenericBag<A, S> where usize: HashKey<S> {
    type Output = GenericBag<A, S>;

    /// The elements of both bags together.
    fn add(self, other: Self) -> (bag: GenericBag<A, S>)
        ensures
            bag.wf(),
            bag@ == self@.add(other@),
            bag.held() == self.held().union_prefer_right(other.held()),
            bag.state() == self.state(),
    {
        self.sum(other)
    }
}

impl<'a, A: HashKey<S>, S: HashState> AddSpecImpl for &'a GenericBag<A, S> where usize: HashKey<S> {
    open spec fn obeys_add_spec() -> bool {
        false
    }

    open spec fn add_req(self, other: Self) -> bool {
        self.wf() && other.wf() && self@.len() + other@.len() <= usize::MAX
    }

    open spec fn add_spec(self, other: Self) -> GenericBag<A, S> {
        arbitrary()
    }
}

impl<K: HashKey<S>, V: HashKey<S>, S> Add for GenericBiMap<K, V, S> {
    type Output = Self;

    /// The first map with the pairs of the second one inserted.
    fn add(self, other: Self) -> (map: Self)
        ensures
            map.wf(),
            map@ == repaired_all(self@, pair_names(plain_pairs(other.entries()))),
            map.held_values() == rehung_values(
                self.held_values(),
                plain_pairs(other.entries()),
            ),
            map.held_keys() == rehung_keys(self.held_keys(), plain_pairs(other.entries())),
    {
        let mut map = self;
        map.absorb(&other);
        map
    }
}

impl<K: HashKey<S>, V: HashKey<S>, S> AddSpecImpl for GenericBiMap<K, V, S> {
    open spec fn obeys_add_spec() -> bool {
        false
    }

    open spec fn add_req(self, other: Self) -> bool {
        self.wf() && other.wf() && self@.len() + other@.len() <= usize::MAX
    }

    open spec fn add_spec(self, other: Self) -> Self {
        arbitrary()
    }
}

impl<'a, K: HashKey<S>, V: HashKey<S>, S: HashState> Add for &'a GenericBiMap<K, V, S> {
    type Output = GenericBiMap<K, V, S>;

    /// The first map with the pairs of the second one inserted.
    fn add(self, other: Self) -> (map: GenericBiMap<K, V, S>)
        ensures
            map.wf(),
            map@ == repaired_all(self@, pair_names(plain_pairs(other.entries()))),
            map.held_values() == rehung_values(
                self.held_values(),
                plain_pairs(other.entries()),
            ),
            map.held_keys() == rehung_keys(self.held_keys(), plain_pairs(other.entries())),
    {
        let mut map = self.clone();
        map.absorb(other);
        map
    }
}

impl<'a, K: HashKey<S>, V: HashKey<S>, S: HashState> AddSpecImpl for &'a GenericBiMap<K, V, S> {
    open spec fn obeys_add_spec() -> bool {
        false
    }

    open spec fn add_req(self, other: Self) -> bool {
        self.wf() && other.wf() && self@.len() + other@.len() <= usize::MAX
    }

    open spec fn add_spec(self, other: Self) -> GenericBiMap<K, V, S> {
        arbitrary()
    }
}

} // verus!
