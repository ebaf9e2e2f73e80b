//! Interning of whole maps.
use crate::equal_nodes::{equal_nodes, equal_values};
use crate::hash_key::HashKey;
use crate::hash_map::GenericHashMap;
use crate::hash_map_query::{equivalence, lawful_eq, same_entries};
use crate::intern::{exchanged, grown, list_merkle, node_count, walked, InternPool};
use crate::node::{distinct, lemma_find, lemma_found, Pair};
use crate::shape::{lemma_rekeyed, lemma_shape_entries, lemma_shape_wf, same_keys, same_shape};
use crate::shared::inside;
use crate::trie::pairs_map;
use vstd::prelude::*;
use vstd::std_specs::cmp::PartialEqSpec;

verus! {

/// Lists of the same keys with equal values describe maps that are equal.
proof fn lemma_equal_lists<K: View, V: PartialEq>(a: Seq<Pair<K, V>>, b: Seq<Pair<K, V>>)
    requires
        same_keys(a, b),
        distinct(a),
        equal_values(a, b),
    ensures
        same_entries(pairs_map(a), pairs_map(b)),
{
    lemma_rekeyed(a, b);
    assert forall|key: K::V| #[trigger] pairs_map(a).contains_key(key) implies pairs_map(
        a,
    )[key].eq_spec(&pairs_map(b)[key]) by {
        let i = lemma_found(a, key);
        assert((*b[i].0)@ == (*a[i].0)@);
        lemma_find(a, i);
        lemma_find(b, i);
        assert((*a[i].1).eq_spec(&*b[i].1));
    }
}

impl<K, V, S> GenericHashMap<K, V, S> {
    /// Interns the nodes of the map: each is exchanged, from the bottom up, for an
    /// equal one that the pool holds.
    ///
    /// The contents stay, up to values that are equal by `==`, and so do the
    /// fingerprints. Where `==` is no equivalence, only the keys are sure to stay.
    pub fn intern(&mut self, pool: &mut InternPool<K, V>) where K: HashKey<S>, V: PartialEq
        requires
            old(self).wf(),
            old(pool).wf(),
        ensures
            final(self).wf(),
            final(pool).wf(),
            final(self).state() == old(self).state(),
            final(self).kv_merkle() == old(self).kv_merkle(),
            final(self).keys_merkle() == old(self).keys_merkle(),
            final(self)@.dom() == old(self)@.dom(),
            equivalence::<V>() ==> same_entries(old(self)@, final(self)@),
            match old(self).top() {
                Some(node) => {
                    let shared = final(self).top()->0;
                    &&& final(self).top() is Some
                    &&& same_shape(*node, *shared)
                    &&& grown(*old(pool), *final(pool), node_count(*node))
                    &&& final(pool).held(
                        list_merkle(node.entries(), old(self).state()),
                    ).contains(shared)
                    &&& lawful_eq::<V>() ==> walked(
                        *old(pool),
                        *final(pool),
                        *node,
                        shared,
                        old(self).state(),
                    )
                    &&& equivalence::<V>() ==> exchanged(
                        *old(pool),
                        *final(pool),
                        *node,
                        *shared,
                        old(self).state(),
                    )
                },
                None => *final(self) == *old(self) && *final(pool) == *old(pool),
            },
    {
        let ghost before = *self;
        proof {
            self.lemma_map();
        }
        match self.shared_root() {
            Some(node) => {
                let (shared, _) = pool.intern_tree(&node, self.hasher());
                proof {
                    let a = inside(node);
                    let b = inside(shared);
                    lemma_shape_entries(a, b);
                    lemma_shape_wf(a, b, self.state(), Seq::empty());
                    lemma_rekeyed(a.entries(), b.entries());
                    if equivalence::<V>() {
                        assert(equal_nodes(a, b));
                        lemma_equal_lists(a.entries(), b.entries());
                    }
                }
                self.set_root(shared);
            },
            None => {
                proof {
                    assert(same_entries(before@, before@));
                }
            },
        }
    }

    /// Interns the nodes of the map, then brings the fingerprint of keys and
    /// values up to date.
    pub fn intern_and_seal(&mut self, pool: &mut InternPool<K, V>) where
        K: HashKey<S>,
        V: PartialEq + HashKey<S>,

        requires
            old(self).wf(),
            old(pool).wf(),
        ensures
            final(self).wf(),
            final(pool).wf(),
            final(self).state() == old(self).state(),
            final(self).keys_merkle() == old(self).keys_merkle(),
            final(self)@.dom() == old(self)@.dom(),
            equivalence::<V>() ==> same_entries(old(self)@, final(self)@),
            final(self).kv_merkle() is Some,
            final(self).sealed(),
            match old(self).top() {
                Some(node) => {
                    let shared = final(self).top()->0;
                    &&& final(self).top() is Some
                    &&& same_shape(*node, *shared)
                    &&& grown(*old(pool), *final(pool), node_count(*node))
                    &&& final(pool).held(
                        list_merkle(node.entries(), old(self).state()),
                    ).contains(shared)
                    &&& lawful_eq::<V>() ==> walked(
                        *old(pool),
                        *final(pool),
                        *node,
                        shared,
                        old(self).state(),
                    )
                    &&& equivalence::<V>() ==> exchanged(
                        *old(pool),
                        *final(pool),
                        *node,
                        *shared,
                        old(self).state(),
                    )
                },
                None => final(self)@ == old(self)@ && *final(pool) == *old(pool),
            },
    {
        self.intern(pool);
        self.recompute_kv_merkle();
    }
}

} // verus!
