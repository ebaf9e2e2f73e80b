//! A trie with its root and its size: what the hash-based collections hold.
use crate::entries::{lemma_entries, lists};
use crate::hash_key::HashKey;
use crate::iter::Iter;
use crate::node::{distinct, find, key_at, ChampNode, InnerNode, Pair, RemoveResult};
use crate::node::{inserted, lemma_find, lemma_found, single_node};
use crate::node::lemma_empty;
use crate::shared::{inside, same_root, share};
use std::sync::Arc;
use vstd::prelude::*;

verus! {

/// The map that a list of entries describes.
pub open spec fn pairs_map<K: View, V>(pairs: Seq<Pair<K, V>>) -> Map<K::V, V> {
    Map::new(|key: K::V| find(pairs, key) is Some, |key: K::V| *(find(pairs, key)->0).1)
}

/// The keys of a list of entries themselves, by their views.
pub open spec fn stored_keys<K: View, V>(pairs: Seq<Pair<K, V>>) -> Map<K::V, K> {
    Map::new(|key: K::V| find(pairs, key) is Some, |key: K::V| *(find(pairs, key)->0).0)
}

/// The entries of a list, by the views of their keys.
pub open spec fn pairs_stock<K: View, V>(pairs: Seq<Pair<K, V>>) -> Map<K::V, Pair<K, V>> {
    Map::new(|key: K::V| find(pairs, key) is Some, |key: K::V| find(pairs, key)->0)
}

/// Whether a map has room for a key: it holds the key, or its size can grow.
pub open spec fn has_room<M, V>(map: Map<M, V>, key: M) -> bool {
    map.contains_key(key) || map.len() < usize::MAX
}

/// A list of distinct entries describes a finite map of as many keys.
pub(crate) proof fn lemma_pairs_map<K: View, V>(pairs: Seq<Pair<K, V>>)
    requires
        distinct(pairs),
    ensures
        lists(pairs, pairs_map(pairs)),
        pairs_map(pairs).dom().finite(),
        pairs_map(pairs).len() == pairs.len(),
{
    let keys = pairs.map_values(|pair: Pair<K, V>| (*pair.0)@);
    assert(keys.no_duplicates()) by {
        assert forall|i: int, j: int|
            0 <= i < keys.len() && 0 <= j < keys.len() && i != j implies keys[i] != keys[j] by {
            if i < j {
                assert((*pairs[i].0)@ != (*pairs[j].0)@);
            } else {
                assert((*pairs[j].0)@ != (*pairs[i].0)@);
            }
        }
    }
    keys.unique_seq_to_set();
    vstd::seq_lib::seq_to_set_is_finite(keys);
    assert(pairs_map(pairs).dom() =~= keys.to_set()) by {
        assert forall|key: K::V| pairs_map(pairs).dom().contains(key) implies keys.to_set().contains(
            key,
        ) by {
            let i = lemma_found(pairs, key);
            assert(keys[i] == key);
        }
        assert forall|key: K::V| keys.to_set().contains(key) implies pairs_map(
            pairs,
        ).dom().contains(key) by {
            let i = choose|i: int| 0 <= i < keys.len() && keys[i] == key;
            lemma_find(pairs, i);
        }
    }
}

/// One entry more of a list of distinct entries is one key more of the map.
pub(crate) proof fn lemma_seen<K: View, V>(pairs: Seq<Pair<K, V>>, i: int)
    requires
        distinct(pairs),
        0 <= i <= pairs.len(),
    ensures
        i == 0 ==> pairs_map(pairs.take(i)) == Map::<K::V, V>::empty(),
        i == pairs.len() ==> pairs_map(pairs.take(i)) == pairs_map(pairs),
        pairs_map(pairs.take(i)).dom().finite(),
        pairs_map(pairs.take(i)).len() == i,
        i < pairs.len() ==> {
            let key = (*pairs[i].0)@;
            &&& !pairs_map(pairs.take(i)).contains_key(key)
            &&& pairs_map(pairs.take(i + 1)) == pairs_map(pairs.take(i)).insert(key, *pairs[i].1)
            &&& pairs_map(pairs).contains_key(key)
            &&& pairs_map(pairs)[key] == *pairs[i].1
        },
{
    let front = pairs.take(i);
    assert(distinct(front));
    lemma_pairs_map(front);
    if i == 0 {
        assert(pairs_map(front) =~= Map::<K::V, V>::empty());
    }
    if i == pairs.len() {
        assert(front =~= pairs);
    } else {
        let key = (*pairs[i].0)@;
        let longer = pairs.take(i + 1);
        assert(distinct(longer));
        lemma_find(pairs, i);
        assert(longer[i] == pairs[i]);
        if find(front, key) is Some {
            let j = lemma_found(front, key);
            assert((*pairs[j].0)@ != (*pairs[i].0)@);
        }
        assert forall|other: K::V| #[trigger] find(longer, other) == if other == key {
            Some(pairs[i])
        } else {
            find(front, other)
        } by {
            if other == key {
                lemma_find(longer, i);
            } else {
                if find(front, other) is Some {
                    let j = lemma_found(front, other);
                    assert(longer[j] == front[j]);
                    lemma_find(longer, j);
                }
                if find(longer, other) is Some {
                    let j = lemma_found(longer, other);
                    assert(key_at(front, j, other));
                }
            }
        }
        assert(pairs_map(longer) =~= pairs_map(front).insert(key, *pairs[i].1));
    }
}

/// A list of distinct entries stores each of its keys.
pub(crate) proof fn lemma_stored<K: View, V>(pairs: Seq<Pair<K, V>>, i: int)
    requires
        distinct(pairs),
        0 <= i < pairs.len(),
    ensures
        stored_keys(pairs).contains_pair((*pairs[i].0)@, *pairs[i].0),
{
    lemma_find(pairs, i);
}

/// One entry more of a list of distinct entries is one key more that is stored.
pub(crate) proof fn lemma_seen_keys<K: View, V>(pairs: Seq<Pair<K, V>>, i: int)
    requires
        distinct(pairs),
        0 <= i <= pairs.len(),
    ensures
        i == 0 ==> stored_keys(pairs.take(i)) == Map::<K::V, K>::empty(),
        i == pairs.len() ==> stored_keys(pairs.take(i)) == stored_keys(pairs),
        stored_keys(pairs.take(i)).dom() == pairs_map(pairs.take(i)).dom(),
        i < pairs.len() ==> stored_keys(pairs.take(i + 1)) == stored_keys(pairs.take(i)).insert(
            (*pairs[i].0)@,
            *pairs[i].0,
        ),
{
    let front = pairs.take(i);
    assert(stored_keys(front).dom() =~= pairs_map(front).dom());
    if i == 0 {
        assert(stored_keys(front) =~= Map::<K::V, K>::empty());
    }
    if i == pairs.len() {
        assert(front =~= pairs);
    } else {
        let key = (*pairs[i].0)@;
        let longer = pairs.take(i + 1);
        assert(distinct(front));
        assert(distinct(longer));
        assert forall|other: K::V| #[trigger] find(longer, other) == if other == key {
            Some(pairs[i])
        } else {
            find(front, other)
        } by {
            if other == key {
                lemma_find(longer, i);
            } else {
                if find(front, other) is Some {
                    let j = lemma_found(front, other);
                    assert(longer[j] == front[j]);
                    lemma_find(longer, j);
                }
                if find(longer, other) is Some {
                    let j = lemma_found(longer, other);
                    assert(key_at(front, j, other));
                }
            }
        }
        assert(stored_keys(longer) =~= stored_keys(front).insert(key, inside(pairs[i].0)));
    }
}

/// A part of a map, with one more entry of the map.
pub(crate) proof fn lemma_submap_insert<M, V>(part: Map<M, V>, whole: Map<M, V>, key: M, value: V)
    requires
        part.submap_of(whole),
        whole.contains_pair(key, value),
    ensures
        part.insert(key, value).submap_of(whole),
{
    let longer = part.insert(key, value);
    assert forall|other: M| #[trigger] longer.contains_key(other) implies whole.contains_key(other)
        && whole[other] == longer[other] by {
        if other != key {
            assert(part.contains_key(other));
        }
    }
}

/// A map that is part of a finite map has no more keys.
pub(crate) proof fn lemma_submap_len<M, A, B>(part: Map<M, A>, whole: Map<M, B>)
    requires
        whole.dom().finite(),
        part.dom().subset_of(whole.dom()),
    ensures
        part.dom().finite(),
        part.len() <= whole.len(),
{
    vstd::set_lib::lemma_len_subset(part.dom(), whole.dom());
}

/// A root and a size.
pub struct Trie<K, V> {
    pub(crate) root: Option<Arc<ChampNode<K, V>>>,
    pub(crate) size: usize,
}

impl<K, V> Trie<K, V> {
    /// The entries, in the order in which they are walked.
    pub closed spec fn entries(self) -> Seq<Pair<K, V>> {
        match self.root {
            Some(node) => node.entries(),
            None => Seq::empty(),
        }
    }
}

impl<K: View, V> View for Trie<K, V> {
    type V = Map<K::V, V>;

    closed spec fn view(&self) -> Map<K::V, V> {
        pairs_map(self.entries())
    }
}

impl<K, V> Trie<K, V> {
    /// The keys themselves, by their views.
    pub open spec fn keys(self) -> Map<K::V, K> where K: View {
        stored_keys(self.entries())
    }

    /// The entries, by the views of their keys.
    pub closed spec fn stock(self) -> Map<K::V, Pair<K, V>> where K: View {
        pairs_stock(self.entries())
    }

    /// Whether every entry stands where its hash under `state` says, in
    /// canonical form, and the size is right.
    pub closed spec fn wf<S>(self, state: S) -> bool where K: HashKey<S> {
        &&& self.root matches Some(node) ==> node.wf(state, Seq::empty())
        &&& self.size == self.entries().len()
    }

    /// The map of a trie is that of its entries.
    pub(crate) proof fn lemma_view(self) where K: View
        ensures
            self@ == pairs_map(self.entries()),
    {
    }

    /// The root of a well-formed trie holds its entries.
    pub(crate) proof fn lemma_rooted<S>(self, state: S) where K: HashKey<S>
        requires
            self.wf(state),
        ensures
            self.root matches Some(node) ==> node.wf(state, Seq::empty()) && self.entries()
                == node.entries(),
    {
    }

    /// A trie with a well-formed root of its size is well formed.
    pub(crate) proof fn lemma_make<S>(self, state: S) where K: HashKey<S>
        requires
            self.root matches Some(node) && node.wf(state, Seq::empty()) && self.size
                == node.entries().len(),
        ensures
            self.wf(state),
            self.root matches Some(node) && self.entries() == node.entries(),
    {
    }

    /// What holds of every well-formed trie: its entries list its map.
    pub(crate) proof fn lemma_trie<S>(self, state: S) where K: HashKey<S>
        requires
            self.wf(state),
        ensures
            lists(self.entries(), self@),
            self@ == pairs_map(self.entries()),
            self@.dom().finite(),
            self@.len() == self.size,
            self.entries().len() == self.size,
            self.root is None ==> self@ == Map::<K::V, V>::empty(),
    {
        match self.root {
            Some(node) => {
                lemma_entries(inside(node), state, Seq::empty());
            },
            None => {
                assert(self@ =~= Map::<K::V, V>::empty());
            },
        }
        lemma_pairs_map(self.entries());
    }

    /// A node at the root that holds the entries `stock` makes a well-formed trie
    /// of those entries.
    proof fn lemma_root<S>(self, state: S, stock: Map<K::V, Pair<K, V>>) where K: HashKey<S>
        requires
            self.root matches Some(node) && node.wf(state, Seq::empty()) && (forall|key: K::V|
                #[trigger] node.at(state, key, 0) == if stock.contains_key(key) {
                    Some(stock[key])
                } else {
                    None
                }),
            stock.dom().finite(),
            stock.len() == self.size,
        ensures
            self.wf(state),
            self.stock() == stock,
            self@ == stock.map_values(|pair: Pair<K, V>| *pair.1),
            self.keys() == stock.map_values(|pair: Pair<K, V>| *pair.0),
    {
        let node = inside(self.root->0);
        lemma_entries(node, state, Seq::empty());
        lemma_pairs_map(self.entries());
        assert(self.stock() =~= stock) by {
            assert forall|key: K::V| self.stock().contains_key(key) <==> stock.contains_key(key) by {
                assert(find(node.entries(), key) == node.at(state, key, 0));
            }
            assert forall|key: K::V| stock.contains_key(key) implies self.stock()[key]
                == stock[key] by {
                assert(find(node.entries(), key) == node.at(state, key, 0));
            }
        }
        self.lemma_stock();
    }

    /// The map of a trie holds the values of its entries.
    pub(crate) proof fn lemma_stock(self) where K: View
        ensures
            self.stock().dom() == self@.dom(),
            self@ == self.stock().map_values(|pair: Pair<K, V>| *pair.1),
            self.keys() == self.stock().map_values(|pair: Pair<K, V>| *pair.0),
            forall|key: K::V| #[trigger]
                self.stock().contains_key(key) ==> (*self.stock()[key].0)@ == key
                    && *self.stock()[key].1 == self@[key],
    {
        assert(self.stock().dom() =~= self@.dom());
        assert(self@ =~= self.stock().map_values(|pair: Pair<K, V>| *pair.1));
        assert(self.keys() =~= self.stock().map_values(|pair: Pair<K, V>| *pair.0));
        assert forall|key: K::V| #[trigger] self.stock().contains_key(key) implies (
        *self.stock()[key].0)@ == key by {
            lemma_found(self.entries(), key);
        }
    }

    /// A trie of nothing, without a root.
    pub(crate) fn new() -> (trie: Self)
        ensures
            trie.entries() == Seq::<Pair<K, V>>::empty(),
            trie.size == 0,
            trie.root is None,
    {
        Trie { root: None, size: 0 }
    }

    /// A trie without a root is well formed under every state, and empty.
    pub(crate) proof fn lemma_new<S>(self, state: S) where K: HashKey<S>
        requires
            self.root is None,
            self.size == 0,
        ensures
            self.wf(state),
            self@ == Map::<K::V, V>::empty(),
    {
        assert(self@ =~= Map::<K::V, V>::empty());
    }

    /// Gives a trie without a root one that holds nothing.
    pub(crate) fn plant<S>(&mut self, state: &S) where K: HashKey<S>
        requires
            old(self).wf(*state),
        ensures
            final(self).wf(*state),
            final(self).root is Some,
            final(self).entries() == old(self).entries(),
            final(self)@ == old(self)@,
            old(self).root is Some ==> *final(self) == *old(self),
    {
        if self.root.is_none() {
            let empty = InnerNode::empty();
            proof {
                lemma_empty(empty, *state, Seq::empty());
                assert(empty.values@ + crate::entries::children_entries(empty.children@) =~= Seq::<
                    Pair<K, V>,
                >::empty());
            }
            self.root = Some(Arc::new(ChampNode::Inner(empty)));
        }
    }

    /// Another trie with the same root.
    pub(crate) fn share_trie(&self) -> (copy: Self)
        ensures
            copy == *self,
    {
        Trie {
            root: match &self.root {
                Some(node) => Some(share(node)),
                None => None,
            },
            size: self.size,
        }
    }

    /// Whether both tries have one root, or none.
    pub(crate) fn same_root(&self, other: &Self) -> (same: bool)
        ensures
            same ==> self.root == other.root && self.entries() == other.entries(),
            self.root is None && other.root is None ==> same,
            self.root is None != other.root is None ==> !same,
    {
        same_root(&self.root, &other.root)
    }

    /// Looks a key up.
    pub(crate) fn get<S>(&self, state: &S, key: &K) -> (found: Option<&Pair<K, V>>) where
        K: HashKey<S>,

        requires
            self.wf(*state),
        ensures
            match found {
                Some(pair) => {
                    &&& (*pair.0)@ == key@
                    &&& self@.contains_key(key@)
                    &&& self@[key@] == *pair.1
                    &&& self.keys()[key@] == *pair.0
                },
                None => !self@.contains_key(key@),
            },
    {
        proof {
            self.lemma_trie(*state);
        }
        match &self.root {
            Some(node) => {
                let hash: u64 = key.hash_with(state);
                proof {
                    lemma_entries(inside(*node), *state, Seq::empty());
                    assert(find(node.entries(), key@) == node.at(*state, key@, 0));
                }
                node.get(hash, key, 0, Ghost(*state), Ghost(Seq::empty()))
            },
            None => None,
        }
    }

    /// Inserts an entry and returns the new trie, with the value that it
    /// replaces.
    pub(crate) fn insert<S>(&self, state: &S, hash: u64, key: Arc<K>, value: Arc<V>) -> (result: (
        Self,
        Option<Arc<V>>,
    )) where K: HashKey<S>
        requires
            self.wf(*state),
            hash == K::hash_in((*key)@, *state),
            has_room(self@, (*key)@),
        ensures
            result.0.wf(*state),
            result.0@ == self@.insert((*key)@, *value),
            result.0.keys() == self.keys().insert((*key)@, *key),
            match result.1 {
                Some(old_value) => self@.contains_key((*key)@) && self@[(*key)@] == *old_value,
                None => !self@.contains_key((*key)@),
            },
    {
        let ghost name = (*key)@;
        let ghost entry = (key, value);
        proof {
            self.lemma_trie(*state);
            self.lemma_stock();
        }
        match &self.root {
            Some(node) => {
                proof {
                    lemma_entries(inside(*node), *state, Seq::empty());
                    assert(find(node.entries(), name) == node.at(*state, name, 0));
                }
                let (root, replaced) = node.insert_with_hasher(
                    state,
                    hash,
                    key,
                    value,
                    0,
                    Ghost(Seq::empty()),
                );
                let size: usize = if replaced.is_some() {
                    self.size
                } else {
                    self.size + 1
                };
                let trie = Trie { root: Some(root), size };
                proof {
                    lemma_grown(*self, trie, *state, entry);
                }
                (trie, replaced)
            },
            None => {
                let root = single_node(
                    hash,
                    (key, value),
                    0,
                    Ghost(*state),
                    Ghost(Seq::empty()),
                );
                let trie = Trie { root: Some(Arc::new(root)), size: 1 };
                proof {
                    trie.lemma_root(*state, self.stock().insert(name, entry));
                    assert(trie@ =~= self@.insert(name, inside(entry.1)));
                    assert(trie.keys() =~= self.keys().insert(name, inside(entry.0)));
                }
                (trie, None)
            },
        }
    }

    /// Inserts an entry, in place as far as no other trie shares the nodes on
    /// the way, and returns the value that it replaces.
    pub(crate) fn insert_mut<S>(
        &mut self,
        state: &S,
        hash: u64,
        key: Arc<K>,
        value: Arc<V>,
    ) -> (replaced: Option<Arc<V>>) where K: HashKey<S>
        requires
            old(self).wf(*state),
            hash == K::hash_in((*key)@, *state),
            has_room(old(self)@, (*key)@),
        ensures
            final(self).wf(*state),
            final(self).root is Some,
            final(self)@ == old(self)@.insert((*key)@, *value),
            final(self).keys() == old(self).keys().insert((*key)@, *key),
            match replaced {
                Some(old_value) => old(self)@.contains_key((*key)@) && old(self)@[(*key)@]
                    == *old_value,
                None => !old(self)@.contains_key((*key)@),
            },
    {
        let ghost name = (*key)@;
        let ghost entry = (key, value);
        let ghost before = *self;
        proof {
            self.lemma_trie(*state);
            self.lemma_stock();
        }
        match &mut self.root {
            Some(node) => {
                proof {
                    lemma_entries(inside(*node), *state, Seq::empty());
                    assert(find(node.entries(), name) == node.at(*state, name, 0));
                }
                let replaced = ChampNode::insert_mut_with_hasher(
                    node,
                    state,
                    hash,
                    key,
                    value,
                    0,
                    Ghost(Seq::empty()),
                );
                if replaced.is_none() {
                    self.size = self.size + 1;
                }
                proof {
                    lemma_grown(before, *self, *state, entry);
                }
                replaced
            },
            None => {
                let root = single_node(
                    hash,
                    (key, value),
                    0,
                    Ghost(*state),
                    Ghost(Seq::empty()),
                );
                self.root = Some(Arc::new(root));
                self.size = 1;
                proof {
                    self.lemma_root(*state, before.stock().insert(name, entry));
                    assert(self@ =~= before@.insert(name, inside(entry.1)));
                    assert(self.keys() =~= before.keys().insert(name, inside(entry.0)));
                }
                None
            },
        }
    }

    /// Looks a key up for mutation in place.
    pub(crate) fn get_mut<'a, S>(&'a mut self, state: &S, hash: u64, key: &K) -> (found: Option<
        (&'a Arc<K>, &'a mut Arc<V>),
    >) where K: HashKey<S>
        requires
            old(self).wf(*state),
            hash == K::hash_in(key@, *state),
        ensures
            final(self).wf(*state),
            match found {
                Some((held, value)) => {
                    &&& old(self)@.contains_key(key@)
                    &&& (**held)@ == key@
                    &&& old(self)@[key@] == **value
                    &&& old(self).keys()[key@] == **held
                    &&& final(self)@ == old(self)@.insert(key@, **final(value))
                },
                None => !old(self)@.contains_key(key@) && final(self)@ == old(self)@,
            },
            final(self).keys() == old(self).keys(),
    {
        let ghost before = *self;
        let ghost after = *final(self);
        proof {
            self.lemma_trie(*state);
            self.lemma_stock();
        }
        match &mut self.root {
            Some(node) => {
                let ghost old_node = inside(*node);
                let ghost new_node = inside(*final(node));
                proof {
                    lemma_entries(old_node, *state, Seq::empty());
                    assert(find(old_node.entries(), key@) == old_node.at(*state, key@, 0));
                }
                let found = ChampNode::get_mut(
                    node,
                    hash,
                    key,
                    0,
                    Ghost(*state),
                    Ghost(Seq::empty()),
                );
                proof {
                    if found is Some {
                        lemma_grown(
                            before,
                            after,
                            *state,
                            (*(found->0).0, *final((found->0).1)),
                        );
                        assert(after.keys() =~= before.keys());
                    } else {
                        assert forall|other: K::V| #[trigger]
                            new_node.at(*state, other, 0) == if before.stock().contains_key(other) {
                                Some(before.stock()[other])
                            } else {
                                None
                            } by {
                            assert(find(old_node.entries(), other) == old_node.at(
                                *state,
                                other,
                                0,
                            ));
                        }
                        after.lemma_root(*state, before.stock());
                    }
                }
                found
            },
            None => None,
        }
    }

    /// Removes a key and returns the new trie, or nothing where the key is not
    /// there.
    pub(crate) fn remove<S>(&self, state: &S, hash: u64, key: &K) -> (result: Option<Self>) where
        K: HashKey<S>,

        requires
            self.wf(*state),
            hash == K::hash_in(key@, *state),
        ensures
            match result {
                Some(trie) => {
                    &&& self@.contains_key(key@)
                    &&& trie.wf(*state)
                    &&& trie.root is Some
                    &&& trie@ == self@.remove(key@)
                    &&& trie.keys() == self.keys().remove(key@)
                },
                None => !self@.contains_key(key@),
            },
    {
        proof {
            self.lemma_trie(*state);
            self.lemma_stock();
        }
        let Some(node) = &self.root else {
            return None;
        };
        proof {
            lemma_entries(inside(*node), *state, Seq::empty());
            assert(find(node.entries(), key@) == node.at(*state, key@, 0));
        }
        let result = node.remove(hash, key, 0, Ghost(*state), Ghost(Seq::empty()));
        let ghost left = result;
        let root = match result {
            RemoveResult::NotFound => {
                return None;
            },
            RemoveResult::Removed(Some(node)) => node,
            RemoveResult::Removed(None) => {
                let empty = InnerNode::empty();
                proof {
                    lemma_empty(empty, *state, Seq::empty());
                }
                Arc::new(ChampNode::Inner(empty))
            },
            RemoveResult::Singleton(k, v) => {
                let rest_hash: u64 = k.hash_with(state);
                Arc::new(single_node(rest_hash, (k, v), 0, Ghost(*state), Ghost(Seq::empty())))
            },
        };
        let trie = Trie { root: Some(root), size: self.size - 1 };
        proof {
            assert forall|other: K::V| #[trigger]
                root.at(*state, other, 0) == if self.stock().remove(key@).contains_key(other) {
                    Some(self.stock().remove(key@)[other])
                } else {
                    None
                } by {
                assert(root.at(*state, other, 0) == left.at(*state, other, 0));
                assert(find(node.entries(), other) == node.at(*state, other, 0));
            }
            trie.lemma_root(*state, self.stock().remove(key@));
            assert(trie@ =~= self@.remove(key@));
            assert(trie.keys() =~= self.keys().remove(key@));
        }
        Some(trie)
    }

    /// An iterator over the entries.
    pub(crate) fn iter<'a>(&'a self) -> (iter: Iter<'a, K, V>)
        requires
            self.size == self.entries().len(),
        ensures
            iter.wf(),
            iter@ == self.entries(),
    {
        match &self.root {
            Some(node) => Iter::over(node, self.size),
            None => Iter::over_nothing(),
        }
    }
}

/// A trie whose root gained an entry.
proof fn lemma_grown<S, K: HashKey<S>, V>(
    before: Trie<K, V>,
    after: Trie<K, V>,
    state: S,
    pair: Pair<K, V>,
)
    requires
        before.wf(state),
        before.root is Some,
        after.root is Some,
        after.root->0.wf(state, Seq::empty()),
        inserted(*before.root->0, *after.root->0, state, 0, pair),
        after.size == before.size + if before.root->0.at(state, (*pair.0)@, 0) is Some {
            0int
        } else {
            1int
        },
    ensures
        after.wf(state),
        after@ == before@.insert((*pair.0)@, *pair.1),
        after.keys() == before.keys().insert((*pair.0)@, *pair.0),
{
    let key = inside(pair.0)@;
    before.lemma_trie(state);
    before.lemma_stock();
    let old_node = inside(before.root->0);
    let new_node = inside(after.root->0);
    lemma_entries(old_node, state, Seq::empty());
    let stock = before.stock().insert(key, pair);
    assert forall|other: K::V| #[trigger]
        new_node.at(state, other, 0) == if stock.contains_key(other) {
            Some(stock[other])
        } else {
            None
        } by {
        assert(find(old_node.entries(), other) == old_node.at(state, other, 0));
    }
    assert(find(old_node.entries(), key) == old_node.at(state, key, 0));
    after.lemma_root(state, stock);
    assert(after@ =~= before@.insert(key, inside(pair.1)));
    assert(after.keys() =~= before.keys().insert(key, inside(pair.0)));
}

} // verus!
