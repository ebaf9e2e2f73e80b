//! A persistent map that keeps its entries in the order of insertion.
use crate::hash_key::{HashKey, HashState};
use crate::hash_map::GenericHashMap;
use crate::map_iters::names;
use crate::node::ChampNode;
use crate::ord_tree::{
    append, first, last, link_len, lookup, share_link, slot_mut, without, without_first,
    without_last,
};
use crate::ord_tree::{ascending, flat, sized, Link, OrdWalk, Slot};
use crate::random_state::RandomState;
use crate::shared::{inside, own_mut, same_root, share, take};
use std::sync::Arc;
use vstd::prelude::*;
use vstd::std_specs::cmp::PartialEqSpec;

verus! {

/// Whether a list of entries has a key.
pub open spec fn has_key<M, V>(list: Seq<(M, V)>, key: M) -> bool {
    exists|i: int| 0 <= i < list.len() && (#[trigger] list[i]).0 == key
}

/// Where a list of entries has a key.
pub open spec fn place<M, V>(list: Seq<(M, V)>, key: M) -> int {
    choose|i: int| 0 <= i < list.len() && (#[trigger] list[i]).0 == key
}

/// The keys themselves of a list, with one put in: in the place of an equal one,
/// or at the end.
pub open spec fn put_key<K: View>(keys: Seq<K>, key: K) -> Seq<K> {
    if names(keys).contains(key@) {
        keys.update(names(keys).index_of(key@), key)
    } else {
        keys.push(key)
    }
}

/// The keys themselves of a list, with those of another put in one by one.
pub open spec fn put_keys<K: View>(keys: Seq<K>, more: Seq<K>) -> Seq<K>
    decreases more.len(),
{
    if more.len() == 0 {
        keys
    } else {
        put_key(put_keys(keys, more.drop_last()), more.last())
    }
}

/// Whether no key occurs twice.
pub open spec fn keys_differ<M, V>(list: Seq<(M, V)>) -> bool {
    forall|i: int, j: int|
        0 <= i < j < list.len() ==> (#[trigger] list[i]).0 != (#[trigger] list[j]).0
}

/// A list with an entry put in: where the key is, or at the end.
pub open spec fn put<M, V>(list: Seq<(M, V)>, key: M, value: V) -> Seq<(M, V)> {
    if has_key(list, key) {
        list.update(place(list, key), (key, value))
    } else {
        list.push((key, value))
    }
}

/// A list with entries put in one after the other.
pub open spec fn put_all<M, V>(list: Seq<(M, V)>, more: Seq<(M, V)>) -> Seq<(M, V)>
    decreases more.len(),
{
    if more.len() == 0 {
        list
    } else {
        put(put_all(list, more.drop_last()), more.last().0, more.last().1)
    }
}

/// A list without the entry of a key.
pub open spec fn dropped<M, V>(list: Seq<(M, V)>, key: M) -> Seq<(M, V)> {
    if has_key(list, key) {
        list.remove(place(list, key))
    } else {
        list
    }
}

/// The entries whose keys are, or are not, in another list, in their order.
pub open spec fn chosen<M, V, W>(
    list: Seq<(M, V)>,
    other: Seq<(M, W)>,
    wanted: bool,
) -> Seq<(M, V)> {
    list.filter(|entry: (M, V)| has_key(other, entry.0) == wanted)
}

/// The entries of a list of pairs, the keys by their views.
pub open spec fn entries_of<K: View, V>(list: Seq<(K, V)>) -> Seq<(K::V, V)> {
    list.map_values(|entry: (K, V)| (entry.0@, entry.1))
}

/// The entries of a list of numbered entries, the keys by their views.
pub open spec fn named<K: View, V>(slots: Seq<Slot<K, V>>) -> Seq<(K::V, V)> {
    slots.map_values(|slot: Slot<K, V>| ((*slot.1.0)@, *slot.1.1))
}

/// Whether an index holds the number of each entry, and nothing else.
pub open spec fn linked<K: View, V>(
    index: Map<K::V, usize>,
    slots: Seq<Slot<K, V>>,
    next: usize,
) -> bool {
    &&& ascending(slots)
    &&& index.dom().finite()
    &&& index.len() == slots.len()
    &&& forall|i: int|
        0 <= i < slots.len() ==> (#[trigger] slots[i]).0 < next && index.contains_key(
            named(slots)[i].0,
        ) && index[named(slots)[i].0] == slots[i].0
    &&& forall|key: K::V| #[trigger] index.contains_key(key) ==> has_key(named(slots), key)
}

/// The keys of an index are those of the entries, which differ.
proof fn lemma_linked<K: View, V>(index: Map<K::V, usize>, slots: Seq<Slot<K, V>>, next: usize)
    requires
        linked(index, slots, next),
    ensures
        keys_differ(named(slots)),
        forall|key: K::V| #[trigger] index.contains_key(key) == has_key(named(slots), key),
        forall|key: K::V| #[trigger]
            index.contains_key(key) ==> 0 <= place(named(slots), key) < slots.len() && named(
                slots,
            )[place(named(slots), key)].0 == key && slots[place(named(slots), key)].0 == index[key],
{
    let list = named(slots);
    assert forall|i: int, j: int| 0 <= i < j < list.len() implies (#[trigger] list[i]).0 != (
    #[trigger] list[j]).0 by {
        assert(slots[i].0 < slots[j].0);
    }
    assert forall|key: K::V| #[trigger] index.contains_key(key) == has_key(list, key) by {
        if has_key(list, key) {
            let i = place(list, key);
            assert(slots[i].0 < next);
        }
    }
    assert forall|key: K::V| #[trigger] index.contains_key(key) implies 0 <= place(list, key)
        < slots.len() && list[place(list, key)].0 == key && slots[place(list, key)].0
        == index[key] by {
        let i = place(list, key);
        assert(0 <= i < list.len() && list[i].0 == key);
        assert(slots[i].0 < next);
    }
}

/// An entry more at the end.
proof fn lemma_link_push<K: View, V>(
    index: Map<K::V, usize>,
    slots: Seq<Slot<K, V>>,
    next: usize,
    slot: Slot<K, V>,
)
    requires
        linked(index, slots, next),
        next < usize::MAX,
        slot.0 == next,
        !index.contains_key((*slot.1.0)@),
    ensures
        linked(index.insert((*slot.1.0)@, next), slots.push(slot), (next + 1) as usize),
        named(slots.push(slot)) == named(slots).push(((*slot.1.0)@, *slot.1.1)),
{
    let key = (*slot.1.0)@;
    let longer = slots.push(slot);
    let after = index.insert(key, next);
    assert(named(longer) =~= named(slots).push((key, *slot.1.1)));
    assert forall|i: int| 0 <= i < longer.len() implies (#[trigger] longer[i]).0 < next + 1
        && after.contains_key(named(longer)[i].0) && after[named(longer)[i].0]
        == longer[i].0 by {
        if i < slots.len() {
            assert(slots[i].0 < next);
            assert(named(longer)[i] == named(slots)[i]);
        }
    }
    assert forall|k: K::V| #[trigger] after.contains_key(k) implies has_key(named(longer), k) by {
        if k == key {
            assert(named(longer)[slots.len() as int].0 == key);
        } else {
            assert(index.contains_key(k));
            let i = place(named(slots), k);
            assert(named(longer)[i].0 == k);
        }
    }
}

/// An entry less.
proof fn lemma_link_remove<K: View, V>(
    index: Map<K::V, usize>,
    slots: Seq<Slot<K, V>>,
    next: usize,
    pos: int,
)
    requires
        linked(index, slots, next),
        0 <= pos < slots.len(),
    ensures
        linked(index.remove(named(slots)[pos].0), slots.remove(pos), next),
        named(slots.remove(pos)) == named(slots).remove(pos),
{
    lemma_linked(index, slots, next);
    let key = named(slots)[pos].0;
    let shorter = slots.remove(pos);
    let after = index.remove(key);
    assert(slots[pos].0 < next);
    assert(named(shorter) =~= named(slots).remove(pos));
    assert forall|i: int| 0 <= i < shorter.len() implies (#[trigger] shorter[i]).0 < next
        && after.contains_key(named(shorter)[i].0) && after[named(shorter)[i].0]
        == shorter[i].0 by {
        let j = if i < pos {
            i
        } else {
            i + 1
        };
        assert(slots[j].0 < next);
        assert(named(slots)[j].0 != named(slots)[pos].0);
    }
    assert forall|i: int, j: int| 0 <= i < j < shorter.len() implies (#[trigger] shorter[i]).0 < (
    #[trigger] shorter[j]).0 by {
        let a = if i < pos {
            i
        } else {
            i + 1
        };
        let b = if j < pos {
            j
        } else {
            j + 1
        };
        assert(slots[a].0 < slots[b].0);
    }
    assert forall|k: K::V| #[trigger] after.contains_key(k) implies has_key(named(shorter), k) by {
        assert(index.contains_key(k));
        let i = place(named(slots), k);
        assert(i != pos);
        if i < pos {
            assert(named(shorter)[i].0 == k);
        } else {
            assert(named(shorter)[i - 1].0 == k);
        }
    }
}

/// An entry with another value.
proof fn lemma_link_update<K: View, V>(
    index: Map<K::V, usize>,
    slots: Seq<Slot<K, V>>,
    next: usize,
    pos: int,
    slot: Slot<K, V>,
)
    requires
        linked(index, slots, next),
        0 <= pos < slots.len(),
        slot.0 == slots[pos].0,
        (*slot.1.0)@ == named(slots)[pos].0,
    ensures
        linked(index, slots.update(pos, slot), next),
        named(slots.update(pos, slot)) == named(slots).update(
            pos,
            ((*slot.1.0)@, *slot.1.1),
        ),
{
    let after = slots.update(pos, slot);
    assert(named(after) =~= named(slots).update(pos, ((*slot.1.0)@, *slot.1.1)));
    assert forall|i: int| 0 <= i < after.len() implies (#[trigger] after[i]).0 < next
        && index.contains_key(named(after)[i].0) && index[named(after)[i].0] == after[i].0 by {
        assert(slots[i].0 < next);
    }
    assert forall|i: int, j: int| 0 <= i < j < after.len() implies (#[trigger] after[i]).0 < (
    #[trigger] after[j]).0 by {
        assert(slots[i].0 < slots[j].0);
    }
    assert forall|k: K::V| #[trigger] index.contains_key(k) implies has_key(named(after), k) by {
        let i = place(named(slots), k);
        assert(named(after)[i].0 == k);
    }
}

/// A place where a key stands is the place, where keys differ.
pub proof fn lemma_place<M, V>(list: Seq<(M, V)>, pos: int)
    requires
        keys_differ(list),
        0 <= pos < list.len(),
    ensures
        has_key(list, list[pos].0),
        place(list, list[pos].0) == pos,
{
    assert(list[pos].0 == list[pos].0);
    let i = place(list, list[pos].0);
    assert(0 <= i < list.len() && list[i].0 == list[pos].0);
    if i < pos {
        assert(list[i].0 != list[pos].0);
    } else if pos < i {
        assert(list[pos].0 != list[i].0);
    }
}

/// A persistent map that is walked in the order in which its keys were first
/// inserted.
///
/// It is modelled as the list of its entries. A map from keys to numbers and a
/// tree of the numbered entries stand behind it.
pub struct GenericInsertionOrderMap<K, V, S> {
    index: GenericHashMap<K, usize, S>,
    entries: Link<K, V>,
    next_idx: usize,
}

/// An insertion-ordered map with the default hasher state.
pub type InsertionOrderMap<K, V> = GenericInsertionOrderMap<K, V, RandomState>;

impl<K: View, V, S> View for GenericInsertionOrderMap<K, V, S> {
    type V = Seq<(K::V, V)>;

    closed spec fn view(&self) -> Seq<(K::V, V)> {
        named(flat(self.entries))
    }
}

impl<K, V, S> GenericInsertionOrderMap<K, V, S> {
    /// The numbered entries.
    pub closed spec fn slots(self) -> Seq<Slot<K, V>> {
        flat(self.entries)
    }

    /// The keys themselves, in their order.
    pub open spec fn held_keys(self) -> Seq<K> {
        self.slots().map_values(|slot: Slot<K, V>| *slot.1.0)
    }

    /// How many numbers were given out: one for each new key.
    pub closed spec fn issued(self) -> nat {
        self.next_idx as nat
    }

    /// The root of the index, where there is one.
    pub closed spec fn index_top(self) -> Option<Arc<ChampNode<K, usize>>> {
        self.index.top()
    }

    /// Whether the index and the tree are well formed and agree.
    pub closed spec fn wf(self) -> bool where K: HashKey<S> {
        &&& self.index.wf()
        &&& sized(self.entries)
        &&& linked(self.index@, flat(self.entries), self.next_idx)
    }

    /// No key occurs twice, and no more entries are there than numbers were
    /// given out.
    pub proof fn law_keys_differ(self) where K: HashKey<S>
        requires
            self.wf(),
        ensures
            keys_differ(self@),
            self@ == named(self.slots()),
            self@.len() <= self.issued() <= usize::MAX,
    {
        self.index.lemma_map();
        lemma_linked(self.index@, flat(self.entries), self.next_idx);
        lemma_below(flat(self.entries), self.next_idx);
    }

    /// The place of a key among the keys themselves is that of its entry.
    pub(crate) proof fn lemma_held(self, key: K::V) where K: HashKey<S>
        requires
            self.wf(),
        ensures
            self.held_keys().len() == self@.len(),
            forall|i: int| 0 <= i < self@.len() ==> self.held_keys()[i]@ == (#[trigger] self@[i]).0,
            names(self.held_keys()).contains(key) == has_key(self@, key),
            has_key(self@, key) ==> names(self.held_keys()).index_of(key) == place(self@, key),
    {
        let keys = names(self.held_keys());
        self.law_keys_differ();
        assert forall|i: int| 0 <= i < self@.len() implies keys[i] == (#[trigger] self@[i]).0 by {}
        if has_key(self@, key) {
            let i = place(self@, key);
            assert(keys[i] == key);
            assert(keys.contains(key));
            let j = keys.index_of(key);
            assert(0 <= j < keys.len() && keys[j] == key);
            assert(self@[j].0 == key);
            lemma_place(self@, j);
        } else if keys.contains(key) {
            let j = keys.index_of(key);
            assert(0 <= j < keys.len() && keys[j] == key);
            assert(self@[j].0 == key);
        }
    }

    /// An empty map with a default hasher state.
    pub fn new() -> (map: Self) where K: HashKey<S>, S: Default
        ensures
            map.wf(),
            map@ == Seq::<(K::V, V)>::empty(),
            map.index_top() is None,
            map.slots() == Seq::<Slot<K, V>>::empty(),
            map.issued() == 0,
    {
        let map = GenericInsertionOrderMap {
            index: GenericHashMap::new(),
            entries: None,
            next_idx: 0,
        };
        proof {
            assert(map@ =~= Seq::<(K::V, V)>::empty());
        }
        map
    }

    /// Whether the map has no entries.
    pub fn is_empty(&self) -> (empty: bool) where K: HashKey<S>
        requires
            self.wf(),
        ensures
            empty == (self@.len() == 0),
    {
        link_len(&self.entries) == 0
    }

    /// Number of entries.
    pub fn len(&self) -> (n: usize) where K: HashKey<S>
        requires
            self.wf(),
        ensures
            n == self@.len(),
    {
        link_len(&self.entries)
    }

    /// Whether both maps have one index and one tree in memory, or lack them both.
    /// Maps that do hold the same entries; maps that do not may hold them too. Of
    /// two roots nothing says whether they are one allocation.
    pub fn ptr_eq(&self, other: &Self) -> (same: bool) where K: View
        ensures
            same ==> self@ == other@ && self.slots() == other.slots(),
            same ==> self.index_top() == other.index_top(),
            ({
                &&& self.index_top() is None && other.index_top() is None
                &&& self.slots().len() == 0 && other.slots().len() == 0
            }) ==> same,
            self.index_top() is None != other.index_top() is None ==> !same,
            (self.slots().len() == 0) != (other.slots().len() == 0) ==> !same,
    {
        self.index.ptr_eq(&other.index) && same_root(&self.entries, &other.entries)
    }

    /// Looks the value of a key up.
    pub fn get(&self, key: &K) -> (value: Option<&V>) where K: HashKey<S>
        requires
            self.wf(),
        ensures
            match value {
                Some(v) => has_key(self@, key@) && *v == self@[place(self@, key@)].1,
                None => !has_key(self@, key@),
            },
    {
        proof {
            lemma_linked(self.index@, flat(self.entries), self.next_idx);
        }
        match self.index.get(key) {
            Some(idx) => {
                let found = lookup(&self.entries, *idx);
                proof {
                    let slots = flat(self.entries);
                    let pos = place(self@, key@);
                    assert(slots[pos].0 == *idx);
                    if found is Some {
                        let slot = (*idx, (*(found->0).0, *(found->0).1));
                        let i = choose|i: int| 0 <= i < slots.len() && #[trigger] slots[i] == slot;
                        if i < pos {
                            assert(slots[i].0 < slots[pos].0);
                        } else if pos < i {
                            assert(slots[pos].0 < slots[i].0);
                        }
                    }
                }
                match found {
                    Some((_, value)) => Some(&**value),
                    None => None,
                }
            },
            None => None,
        }
    }

    /// The value of a key that the map holds.
    pub fn index(&self, key: &K) -> (value: &V) where K: HashKey<S>
        requires
            self.wf(),
            has_key(self@, key@),
        ensures
            *value == self@[place(self@, key@)].1,
    {
        self.get(key).unwrap()
    }

    /// The value of a key that is there, for mutation in place.
    pub fn index_mut<'a>(&'a mut self, key: &K) -> (value: &'a mut V) where K: HashKey<S>, V: Clone
        requires
            old(self).wf(),
            has_key(old(self)@, key@),
        ensures
            final(self).wf(),
            final(self).issued() == old(self).issued(),
            final(self).held_keys() == old(self).held_keys(),
            cloned(old(self)@[place(old(self)@, key@)].1, *value),
            final(self)@ == old(self)@.update(place(old(self)@, key@), (key@, *final(value))),
    {
        self.get_mut(key).unwrap()
    }

    /// Looks the value of a key up for mutation in place. A value that other
    /// maps share is cloned first.
    pub fn get_mut<'a>(&'a mut self, key: &K) -> (value: Option<&'a mut V>) where
        K: HashKey<S>,
        V: Clone,

        requires
            old(self).wf(),
        ensures
            final(self).wf(),
            final(self).issued() == old(self).issued(),
            final(self).held_keys() == old(self).held_keys(),
            match value {
                Some(v) => {
                    &&& has_key(old(self)@, key@)
                    &&& cloned(old(self)@[place(old(self)@, key@)].1, *v)
                    &&& final(self)@ == old(self)@.update(
                        place(old(self)@, key@),
                        (key@, *final(v)),
                    )
                },
                None => !has_key(old(self)@, key@) && final(self)@ == old(self)@,
            },
    {
        let ghost before = *self;
        let ghost slots = flat(before.entries);
        let ghost pos = place(before@, key@);
        proof {
            lemma_linked(before.index@, slots, before.next_idx);
        }
        let idx: usize = match self.index.get(key) {
            Some(idx) => *idx,
            None => {
                return None;
            },
        };
        proof {
            assert(slots[pos].0 == idx);
        }
        let ghost after = *final(self);
        match slot_mut(&mut self.entries, idx, Ghost(pos)) {
            Some((held, value)) => {
                let ghost kept = *held;
                let ghost value_after = *final(value);
                proof {
                    assert(slots[pos].1.0 == kept);
                    lemma_link_update(
                        before.index@,
                        slots,
                        before.next_idx,
                        pos,
                        (idx, (kept, value_after)),
                    );
                    assert(after.held_keys() =~= before.held_keys());
                }
                Some(own_mut(value))
            },
            None => None,
        }
    }

    /// Whether the map holds a key.
    pub fn contains_key(&self, key: &K) -> (found: bool) where K: HashKey<S>
        requires
            self.wf(),
        ensures
            found == has_key(self@, key@),
    {
        proof {
            lemma_linked(self.index@, flat(self.entries), self.next_idx);
        }
        self.index.contains_key(key)
    }

    /// Puts a shared entry in.
    pub(crate) fn insert_shared(&mut self, key: Arc<K>, value: Arc<V>) -> (replaced: Option<
        Arc<V>,
    >) where K: HashKey<S>
        requires
            old(self).wf(),
            has_key(old(self)@, (*key)@) || old(self).issued() < usize::MAX,
        ensures
            final(self).wf(),
            final(self)@ == put(old(self)@, (*key)@, *value),
            final(self).held_keys() == put_key(old(self).held_keys(), *key),
            final(self).issued() == if has_key(old(self)@, (*key)@) {
                old(self).issued()
            } else {
                old(self).issued() + 1
            },
            match replaced {
                Some(v) => has_key(old(self)@, (*key)@) && *v == old(self)@[place(
                    old(self)@,
                    (*key)@,
                )].1,
                None => !has_key(old(self)@, (*key)@),
            },
    {
        let ghost before = *self;
        let ghost slots = flat(before.entries);
        let ghost name = (*key)@;
        let ghost pos = place(before@, name);
        proof {
            self.lemma_held(name);
            self.index.lemma_map();
            self.law_keys_differ();
            lemma_linked(before.index@, slots, before.next_idx);
        }
        let known = match self.index.get(&*key) {
            Some(idx) => Some(*idx),
            None => None,
        };
        match known {
            Some(idx) => {
                proof {
                    assert(slots[pos].0 == idx);
                    lemma_link_update(
                        before.index@,
                        slots,
                        before.next_idx,
                        pos,
                        (idx, (key, value)),
                    );
                }
                match slot_mut(&mut self.entries, idx, Ghost(pos)) {
                    Some((held_key, held_value)) => {
                        let old_value = share(held_value);
                        let ghost new_key = key;
                        *held_key = key;
                        *held_value = value;
                        proof {
                            assert(self.held_keys() =~= before.held_keys().update(
                                pos,
                                inside(new_key),
                            ));
                        }
                        Some(old_value)
                    },
                    None => None,
                }
            },
            None => {
                let idx: usize = self.next_idx;
                proof {
                    lemma_link_push(before.index@, slots, before.next_idx, (idx, (key, value)));
                }
                let ghost new_key = key;
                self.next_idx += 1;
                self.index.insert_pair(share(&key), Arc::new(idx));
                self.entries = append(&self.entries, idx, key, value);
                proof {
                    assert(self.held_keys() =~= before.held_keys().push(inside(new_key)));
                }
                None
            },
        }
    }

    /// Inserts an entry and returns the value that it replaces. A key that is
    /// there keeps its place; a new one goes to the end.
    pub fn insert(&mut self, key: K, value: V) -> (replaced: Option<V>) where
        K: HashKey<S>,
        V: Clone,

        requires
            old(self).wf(),
            has_key(old(self)@, key@) || old(self).issued() < usize::MAX,
        ensures
            final(self).wf(),
            final(self)@ == put(old(self)@, key@, value),
            final(self).held_keys() == put_key(old(self).held_keys(), key),
            final(self).issued() == if has_key(old(self)@, key@) {
                old(self).issued()
            } else {
                old(self).issued() + 1
            },
            match replaced {
                Some(v) => has_key(old(self)@, key@) && cloned(
                    old(self)@[place(old(self)@, key@)].1,
                    v,
                ),
                None => !has_key(old(self)@, key@),
            },
    {
        match self.insert_shared(Arc::new(key), Arc::new(value)) {
            Some(v) => Some(take(v)),
            None => None,
        }
    }

    /// Removes a key and returns its value. The other entries keep their order.
    pub fn remove(&mut self, key: &K) -> (removed: Option<V>) where K: HashKey<S>, V: Clone
        requires
            old(self).wf(),
        ensures
            final(self).wf(),
            final(self)@ == dropped(old(self)@, key@),
            final(self).held_keys() == if has_key(old(self)@, key@) {
                old(self).held_keys().remove(place(old(self)@, key@))
            } else {
                old(self).held_keys()
            },
            final(self).issued() == old(self).issued(),
            match removed {
                Some(v) => has_key(old(self)@, key@) && cloned(
                    old(self)@[place(old(self)@, key@)].1,
                    v,
                ),
                None => !has_key(old(self)@, key@),
            },
    {
        let ghost before = *self;
        let ghost slots = flat(before.entries);
        let ghost pos = place(before@, key@);
        proof {
            self.law_keys_differ();
            lemma_linked(before.index@, slots, before.next_idx);
        }
        match self.index.remove_pair_invalidate(key) {
            Some(pair) => {
                let idx: usize = *pair.1;
                proof {
                    assert(slots[pos].0 == idx);
                    lemma_link_remove(before.index@, slots, before.next_idx, pos);
                }
                let found = match lookup(&self.entries, idx) {
                    Some((_, value)) => Some(share(value)),
                    None => None,
                };
                proof {
                    if found is Some {
                        let i = choose|i: int|
                            0 <= i < slots.len() && (#[trigger] slots[i]).0 == idx && slots[i].1.1
                                == found->0;
                        if i < pos {
                            assert(slots[i].0 < slots[pos].0);
                        } else if pos < i {
                            assert(slots[pos].0 < slots[i].0);
                        }
                    }
                }
                self.entries = without(&self.entries, idx, Ghost(pos));
                proof {
                    assert(self.held_keys() =~= before.held_keys().remove(pos));
                }
                match found {
                    Some(value) => Some(take(value)),
                    None => None,
                }
            },
            None => None,
        }
    }

    /// The first entry.
    pub fn front(&self) -> (entry: Option<(&K, &V)>) where K: HashKey<S>
        requires
            self.wf(),
        ensures
            match entry {
                Some((k, v)) => {
                    &&& self@.len() > 0
                    &&& (k@, *v) == self@[0]
                    &&& *k == self.held_keys()[0]
                },
                None => self@.len() == 0,
            },
    {
        match first(&self.entries) {
            Some((_, key, value)) => Some((&**key, &**value)),
            None => None,
        }
    }

    /// The last entry.
    pub fn back(&self) -> (entry: Option<(&K, &V)>) where K: HashKey<S>
        requires
            self.wf(),
        ensures
            match entry {
                Some((k, v)) => {
                    &&& self@.len() > 0
                    &&& (k@, *v) == self@.last()
                    &&& *k == self.held_keys().last()
                },
                None => self@.len() == 0,
            },
    {
        match last(&self.entries) {
            Some((_, key, value)) => Some((&**key, &**value)),
            None => None,
        }
    }

    /// Removes the first entry and returns it.
    pub fn pop_front(&mut self) -> (entry: Option<(K, V)>) where K: HashKey<S> + Clone, V: Clone
        requires
            old(self).wf(),
        ensures
            final(self).wf(),
            final(self).issued() == old(self).issued(),
            match entry {
                Some((k, v)) => {
                    &&& old(self)@.len() > 0
                    &&& cloned(old(self).held_keys()[0], k)
                    &&& cloned(old(self)@[0].1, v)
                    &&& final(self)@ == old(self)@.skip(1)
                    &&& final(self).slots() == old(self).slots().skip(1)
                },
                None => old(self)@.len() == 0 && final(self)@ == old(self)@,
            },
    {
        let ghost before = *self;
        let ghost slots = flat(before.entries);
        let (key, value) = match first(&self.entries) {
            Some((_, key, value)) => (share(key), share(value)),
            None => {
                return None;
            },
        };
        proof {
            self.law_keys_differ();
            lemma_link_remove(before.index@, slots, before.next_idx, 0);
            assert(slots.remove(0) =~= slots.skip(1));
            assert(before@.remove(0) =~= before@.skip(1));
        }
        self.entries = without_first(&self.entries);
        self.index.remove_pair_invalidate(&*key);
        Some((take(key), take(value)))
    }

    /// Removes the last entry and returns it.
    pub fn pop_back(&mut self) -> (entry: Option<(K, V)>) where K: HashKey<S> + Clone, V: Clone
        requires
            old(self).wf(),
        ensures
            final(self).wf(),
            final(self).issued() == old(self).issued(),
            match entry {
                Some((k, v)) => {
                    &&& old(self)@.len() > 0
                    &&& cloned(old(self).held_keys().last(), k)
                    &&& cloned(old(self)@.last().1, v)
                    &&& final(self)@ == old(self)@.drop_last()
                    &&& final(self).slots() == old(self).slots().drop_last()
                },
                None => old(self)@.len() == 0 && final(self)@ == old(self)@,
            },
    {
        let ghost before = *self;
        let ghost slots = flat(before.entries);
        let (key, value) = match last(&self.entries) {
            Some((_, key, value)) => (share(key), share(value)),
            None => {
                return None;
            },
        };
        proof {
            self.law_keys_differ();
            let n = slots.len() - 1;
            lemma_link_remove(before.index@, slots, before.next_idx, n);
            assert(slots.remove(n) =~= slots.drop_last());
            assert(before@.remove(n) =~= before@.drop_last());
        }
        self.entries = without_last(&self.entries);
        self.index.remove_pair_invalidate(&*key);
        Some((take(key), take(value)))
    }

    /// An iterator over the entries, in their order.
    pub fn iter<'a>(&'a self) -> (iter: Iter<'a, K, V>) where K: HashKey<S>
        requires
            self.wf(),
        ensures
            iter.wf(),
            iter@ == self.slots(),
    {
        Iter { walk: OrdWalk::over(&self.entries) }
    }
}

/// Ascending numbers below a bound are no more than the bound.
proof fn lemma_below<K, V>(slots: Seq<Slot<K, V>>, bound: usize)
    requires
        ascending(slots),
        forall|i: int| 0 <= i < slots.len() ==> (#[trigger] slots[i]).0 < bound,
    ensures
        slots.len() <= bound,
    decreases slots.len(),
{
    if slots.len() > 0 {
        let n = slots.len() - 1;
        let shorter = slots.drop_last();
        assert forall|i: int| 0 <= i < shorter.len() implies (#[trigger] shorter[i]).0
            < slots[n].0 by {
            assert(slots[i].0 < slots[n].0);
        }
        assert(slots[n].0 < bound);
        lemma_below(shorter, slots[n].0);
    }
}

/// An iterator over the entries of an insertion-ordered map.
pub struct Iter<'a, K, V> {
    walk: OrdWalk<'a, K, V>,
}

impl<'a, K, V> View for Iter<'a, K, V> {
    type V = Seq<Slot<K, V>>;

    /// The numbered entries that are left.
    closed spec fn view(&self) -> Seq<Slot<K, V>> {
        self.walk@
    }
}

impl<'a, K, V> Iter<'a, K, V> {
    /// Whether the iterator stands in a tree.
    pub closed spec fn wf(self) -> bool {
        self.walk.wf()
    }

    /// Number of entries that are left.
    pub fn len(&self) -> (n: usize)
        requires
            self.wf(),
        ensures
            n == self@.len(),
    {
        self.walk.len()
    }

    /// The next entry.
    pub fn next(&mut self) -> (entry: Option<(&'a K, &'a V)>)
        requires
            old(self).wf(),
        ensures
            final(self).wf(),
            match entry {
                Some((key, value)) => {
                    &&& old(self)@.len() > 0
                    &&& *key == *old(self)@[0].1.0
                    &&& *value == *old(self)@[0].1.1
                    &&& final(self)@ == old(self)@.skip(1)
                },
                None => old(self)@.len() == 0 && final(self)@.len() == 0,
            },
    {
        match self.walk.next() {
            Some((key, value)) => Some((&**key, &**value)),
            None => None,
        }
    }

    /// The next shared entry.
    pub(crate) fn next_shared(&mut self) -> (entry: Option<(Arc<K>, Arc<V>)>)
        requires
            old(self).wf(),
        ensures
            final(self).wf(),
            match entry {
                Some(pair) => {
                    &&& old(self)@.len() > 0
                    &&& pair == old(self)@[0].1
                    &&& final(self)@ == old(self)@.skip(1)
                },
                None => old(self)@.len() == 0 && final(self)@.len() == 0,
            },
    {
        match self.walk.next() {
            Some((key, value)) => Some((share(key), share(value))),
            None => None,
        }
    }
}

impl<K, V, S: HashState> Clone for GenericInsertionOrderMap<K, V, S> {
    /// Another map with the same index and tree: no entry is copied.
    fn clone(&self) -> (copy: Self)
        ensures
            copy == *self,
    {
        GenericInsertionOrderMap {
            index: self.index.clone(),
            entries: share_link(&self.entries),
            next_idx: self.next_idx,
        }
    }
}

impl<K: HashKey<S>, V, S: Default> Default for GenericInsertionOrderMap<K, V, S> {
    fn default() -> (map: Self)
        ensures
            map.wf(),
            map@ == Seq::<(K::V, V)>::empty(),
            map.index_top() is None,
            map.slots() == Seq::<Slot<K, V>>::empty(),
            map.issued() == 0,
    {
        Self::new()
    }
}

} // verus!
