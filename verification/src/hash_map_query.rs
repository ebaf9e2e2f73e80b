//! Comparing hash maps.
use crate::hash_key::{HashKey, HashState};
use crate::hash_map::GenericHashMap;
use crate::node::distinct;
use crate::trie::{lemma_seen, pairs_map};
use vstd::prelude::*;
use vstd::std_specs::cmp::PartialEqSpec;

verus! {

/// Whether `==` on values is what it says, and every value equals itself.
pub open spec fn lawful_eq<V: PartialEq>() -> bool {
    &&& V::obeys_eq_spec()
    &&& forall|v: V| #[trigger] v.eq_spec(&v)
}

/// Whether `==` on values is an equivalence.
pub open spec fn equivalence<V: PartialEq>() -> bool {
    &&& lawful_eq::<V>()
    &&& forall|a: V, b: V| #[trigger] a.eq_spec(&b) ==> b.eq_spec(&a)
    &&& forall|a: V, b: V, c: V|
        #[trigger] a.eq_spec(&b) && #[trigger] b.eq_spec(&c) ==> a.eq_spec(&c)
}

/// Whether two maps have the same keys, with values that are equal by `==`.
pub open spec fn same_entries<M, V: PartialEq>(a: Map<M, V>, b: Map<M, V>) -> bool {
    &&& a.dom() == b.dom()
    &&& forall|key: M| #[trigger] a.contains_key(key) ==> a[key].eq_spec(&b[key])
}

/// Whether two maps of one size and one hasher state have the same
/// fingerprints. Maps that differ do so by a chance of one in 2^64.
pub open spec fn same_fingerprints<K: View, V, S>(
    a: GenericHashMap<K, V, S>,
    b: GenericHashMap<K, V, S>,
) -> bool {
    &&& a@.len() == b@.len()
    &&& a.state() == b.state()
    &&& a.keys_merkle() == b.keys_merkle()
    &&& a.kv_merkle() is Some
    &&& a.kv_merkle() == b.kv_merkle()
}

impl<K, V, S> GenericHashMap<K, V, S> {
    /// Tests two maps for equality. Maps of one lineage with the same
    /// fingerprints are taken to be equal; other maps are compared entry by
    /// entry.
    pub fn test_eq(&self, other: &Self) -> (equal: bool) where
        K: HashKey<S>,
        V: PartialEq,
        S: HashState,

        requires
            self.wf(),
            other.wf(),
        ensures
            lawful_eq::<V>() && same_entries(self@, other@) ==> equal,
            lawful_eq::<V>() && equal ==> same_entries(self@, other@) || same_fingerprints(
                *self,
                *other,
            ),
            equal ==> self@.dom() == other@.dom() || same_fingerprints(*self, *other),
            V::obeys_eq_spec() && same_entries(self@, other@) ==> equal,
            V::obeys_eq_spec() && equal ==> {
                ||| same_entries(self@, other@)
                ||| same_fingerprints(*self, *other)
                ||| self@ == other@
            },
    {
        let same_lineage = self.same_lineage(other);
        self.test_eq_with(other, same_lineage)
    }

    /// Tests two maps for equality, given whether they have one lineage.
    pub fn test_eq_with(&self, other: &Self, same_lineage: bool) -> (equal: bool) where
        K: HashKey<S>,
        V: PartialEq,
        S: HashState,

        requires
            self.wf(),
            other.wf(),
        ensures
            lawful_eq::<V>() ==> equal == (same_entries(self@, other@) || (same_lineage
                && same_fingerprints(*self, *other))),
            equal ==> self@.dom() == other@.dom() || (same_lineage && same_fingerprints(
                *self,
                *other,
            )),
            same_lineage && same_fingerprints(*self, *other) ==> equal,
            V::obeys_eq_spec() && same_entries(self@, other@) ==> equal,
            V::obeys_eq_spec() && equal ==> {
                ||| same_entries(self@, other@)
                ||| same_lineage && same_fingerprints(*self, *other)
                ||| self@ == other@
            },
    {
        proof {
            self.lemma_map();
            other.lemma_map();
        }
        if self.len() != other.len() {
            return false;
        }
        if self.ptr_eq(other) {
            return true;
        }
        if same_lineage && self.has_root() && other.has_root() && self.hasher().same_state(
            other.hasher(),
        ) {
            if self.merkle_hash() != other.merkle_hash() {
                return false;
            }
            match (self.kv_merkle_hash(), other.kv_merkle_hash()) {
                (Some(a), Some(b)) => {
                    if a == b {
                        return true;
                    }
                },
                _ => {},
            }
        }
        let same = self.is_submap(other);
        proof {
            if same {
                assert(self@.dom().subset_of(other@.dom()));
                vstd::set_lib::lemma_subset_equality(self@.dom(), other@.dom());
            }
            if self@.len() == 0 {
                assert(self@ =~= Map::<K::V, V>::empty());
                assert(other@ =~= Map::<K::V, V>::empty());
            }
        }
        same
    }

    /// Whether every key of this map is in the other one, with values that a
    /// function says `true` of.
    pub fn is_submap_by<B, F: Fn(&V, &B) -> bool>(&self, other: &GenericHashMap<K, B, S>, f: F) -> (
        holds: bool) where K: HashKey<S>
        requires
            self.wf(),
            other.wf(),
            forall|key: K::V| #[trigger]
                self@.contains_key(key) && other@.contains_key(key) ==> f.requires(
                    (&self@[key], &other@[key]),
                ),
        ensures
            holds ==> forall|key: K::V| #[trigger]
                self@.contains_key(key) ==> other@.contains_key(key) && f.ensures(
                    (&self@[key], &other@[key]),
                    true,
                ),
            !holds ==> exists|key: K::V| #[trigger]
                self@.contains_key(key) && (!other@.contains_key(key) || f.ensures(
                    (&self@[key], &other@[key]),
                    false,
                )),
    {
        let pairs = self.pairs();
        let mut i: usize = 0;
        proof {
            lemma_seen(pairs@, 0);
        }
        while i < pairs.len()
            invariant
                i <= pairs.len(),
                distinct(pairs@),
                self@ == pairs_map(pairs@),
                other.wf(),
                forall|key: K::V| #[trigger]
                    self@.contains_key(key) && other@.contains_key(key) ==> f.requires(
                        (&self@[key], &other@[key]),
                    ),
                forall|key: K::V| #[trigger]
                    pairs_map(pairs@.take(i as int)).contains_key(key) ==> other@.contains_key(key)
                        && f.ensures((&self@[key], &other@[key]), true),
            decreases pairs.len() - i,
        {
            let pair = &pairs[i];
            let ghost key = (*pair.0)@;
            proof {
                lemma_seen(pairs@, i as int);
                assert(self@.contains_key(key));
            }
            match other.get(&*pair.0) {
                Some(theirs) => {
                    if !f(&*pair.1, theirs) {
                        return false;
                    }
                },
                None => {
                    return false;
                },
            }
            i += 1;
        }
        proof {
            lemma_seen(pairs@, pairs@.len() as int);
        }
        true
    }

    /// Whether this map is smaller than the other one, and every key of it is in
    /// the other one, with values that a function says `true` of.
    pub fn is_proper_submap_by<B, F: Fn(&V, &B) -> bool>(
        &self,
        other: &GenericHashMap<K, B, S>,
        f: F,
    ) -> (holds: bool) where K: HashKey<S>
        requires
            self.wf(),
            other.wf(),
            forall|key: K::V| #[trigger]
                self@.contains_key(key) && other@.contains_key(key) ==> f.requires(
                    (&self@[key], &other@[key]),
                ),
        ensures
            holds ==> self@.len() != other@.len() && forall|key: K::V| #[trigger]
                self@.contains_key(key) ==> other@.contains_key(key) && f.ensures(
                    (&self@[key], &other@[key]),
                    true,
                ),
            !holds ==> self@.len() == other@.len() || exists|key: K::V| #[trigger]
                self@.contains_key(key) && (!other@.contains_key(key) || f.ensures(
                    (&self@[key], &other@[key]),
                    false,
                )),
    {
        self.len() != other.len() && self.is_submap_by(other, f)
    }

    /// Whether every key of this map is in the other one, with an equal value.
    pub fn is_submap(&self, other: &Self) -> (holds: bool) where K: HashKey<S>, V: PartialEq
        requires
            self.wf(),
            other.wf(),
        ensures
            holds ==> self@.dom().subset_of(other@.dom()),
            self@ == Map::<K::V, V>::empty() ==> holds,
            V::obeys_eq_spec() ==> holds == forall|key: K::V| #[trigger]
                self@.contains_key(key) ==> other@.contains_key(key) && self@[key].eq_spec(
                    &other@[key],
                ),
    {
        let equal = |a: &V, b: &V| -> (same: bool)
            ensures
                V::obeys_eq_spec() ==> same == (*a).eq_spec(b),
            { *a == *b };
        let holds = self.is_submap_by(other, equal);
        proof {
            if holds {
                assert forall|key: K::V| self@.dom().contains(key) implies other@.dom().contains(
                    key,
                ) by {
                    assert(self@.contains_key(key));
                }
            }
            if V::obeys_eq_spec() && !holds {
                let key = choose|key: K::V| #[trigger]
                    self@.contains_key(key) && (!other@.contains_key(key) || equal.ensures(
                        (&self@[key], &other@[key]),
                        false,
                    ));
                assert(self@.contains_key(key));
            }
        }
        holds
    }

    /// Whether this map is smaller than the other one, and every key of it is in
    /// the other one, with an equal value.
    pub fn is_proper_submap(&self, other: &Self) -> (holds: bool) where K: HashKey<S>, V: PartialEq
        requires
            self.wf(),
            other.wf(),
        ensures
            holds ==> self@.len() != other@.len() && self@.dom().subset_of(other@.dom()),
            V::obeys_eq_spec() ==> holds == (self@.len() != other@.len() && forall|key: K::V|
                #[trigger]
                self@.contains_key(key) ==> other@.contains_key(key) && self@[key].eq_spec(
                    &other@[key],
                )),
    {
        self.len() != other.len() && self.is_submap(other)
    }

    /// Whether no key is in both maps.
    pub fn disjoint(&self, other: &Self) -> (holds: bool) where K: HashKey<S>
        requires
            self.wf(),
            other.wf(),
        ensures
            holds == self@.dom().disjoint(other@.dom()),
    {
        if self.len() <= other.len() {
            self.none_in(other)
        } else {
            other.none_in(self)
        }
    }

    fn none_in(&self, other: &Self) -> (holds: bool) where K: HashKey<S>
        requires
            self.wf(),
            other.wf(),
        ensures
            holds == self@.dom().disjoint(other@.dom()),
    {
        let pairs = self.pairs();
        let mut i: usize = 0;
        proof {
            lemma_seen(pairs@, 0);
        }
        while i < pairs.len()
            invariant
                i <= pairs.len(),
                distinct(pairs@),
                self@ == pairs_map(pairs@),
                other.wf(),
                pairs_map(pairs@.take(i as int)).dom().disjoint(other@.dom()),
            decreases pairs.len() - i,
        {
            let pair = &pairs[i];
            proof {
                lemma_seen(pairs@, i as int);
            }
            if other.contains_key(&*pair.0) {
                proof {
                    let key = (*pair.0)@;
                    assert(self@.dom().contains(key) && other@.dom().contains(key));
                }
                return false;
            }
            i += 1;
        }
        proof {
            lemma_seen(pairs@, pairs@.len() as int);
        }
        true
    }
}

} // verus!
