//! The difference between two hash maps.
use crate::bits::{bitpos, index, slot, MAX_DEPTH};
use crate::bits::{lemma_path_step, lemma_slot_range};
use crate::entries::{children_entries, lemma_entries};
use crate::hash_key::{faithful, HashKey, HashState};
use crate::hash_map::GenericHashMap;
use crate::hash_map_query::{equivalence, lawful_eq, same_entries};
use crate::node::{distinct, find, key_at, slot_entry, ChampNode, InnerNode, Pair};
use crate::node::{lemma_find, lemma_found};
use crate::shared::{inside, same_allocation};
use crate::sparse::lemma_sparse_index;
use crate::sparse::sparse_at;
use crate::trie::{lemma_pairs_map, lemma_seen, pairs_map};
use std::sync::Arc;
use vstd::prelude::*;
use vstd::std_specs::cmp::PartialEqSpec;

verus! {

/// A difference between an old and a new map.
pub enum DiffItem<'a, 'b, K, V> {
    /// The new map has a key that the old one has not.
    Add(&'b K, &'b V),
    /// Both maps have the key, with different values.
    Update {
        /// The entry of the old map.
        old: (&'a K, &'a V),
        /// The entry of the new map.
        new: (&'b K, &'b V),
    },
    /// The old map has a key that the new one has not.
    Remove(&'a K, &'a V),
}

impl<'a, 'b, K: View, V> DiffItem<'a, 'b, K, V> {
    /// The key that a difference is about.
    pub open spec fn key(self) -> K::V {
        match self {
            DiffItem::Add(k, _) => k@,
            DiffItem::Update { new, .. } => new.0@,
            DiffItem::Remove(k, _) => k@,
        }
    }
}

/// Whether a difference is about what two maps hold: a key of one of them only, or
/// a key of both with its two values.
pub open spec fn item_there<'a, 'b, K: View, V>(
    item: DiffItem<'a, 'b, K, V>,
    before: Map<K::V, V>,
    after: Map<K::V, V>,
) -> bool {
    match item {
        DiffItem::Add(k, v) => !before.contains_key(k@) && after.contains_key(k@) && after[k@] == *v,
        DiffItem::Update { old: (k, v), new: (k2, v2) } => {
            &&& k@ == k2@
            &&& before.contains_key(k@)
            &&& before[k@] == *v
            &&& after.contains_key(k@)
            &&& after[k@] == *v2
        },
        DiffItem::Remove(k, v) => before.contains_key(k@) && before[k@] == *v
            && !after.contains_key(k@),
    }
}

/// Whether only one of two maps has a key.
pub open spec fn moved<M, V>(before: Map<M, V>, after: Map<M, V>, key: M) -> bool {
    before.contains_key(key) != after.contains_key(key)
}

/// Whether a list of differences accounts for the keys of two maps: each is about
/// what the maps hold, no key occurs twice, and no key of one map only is left
/// out. This is so whatever `==` on values says.
pub open spec fn accounts<'a, 'b, K: View, V>(
    items: Seq<DiffItem<'a, 'b, K, V>>,
    before: Map<K::V, V>,
    after: Map<K::V, V>,
) -> bool {
    &&& forall|i: int| 0 <= i < items.len() ==> item_there(#[trigger] items[i], before, after)
    &&& forall|i: int, j: int|
        0 <= i < j < items.len() ==> (#[trigger] items[i]).key() != (#[trigger] items[j]).key()
    &&& forall|key: K::V| #[trigger]
        moved(before, after, key) ==> exists|i: int|
            0 <= i < items.len() && (#[trigger] items[i]).key() == key
}

/// Whether a difference is there between two maps.
pub open spec fn item_true<'a, 'b, K: View, V: PartialEq>(
    item: DiffItem<'a, 'b, K, V>,
    before: Map<K::V, V>,
    after: Map<K::V, V>,
) -> bool {
    match item {
        DiffItem::Add(k, v) => !before.contains_key(k@) && after.contains_key(k@) && after[k@] == *v,
        DiffItem::Update { old: (k, v), new: (k2, v2) } => {
            &&& k@ == k2@
            &&& before.contains_key(k@)
            &&& before[k@] == *v
            &&& after.contains_key(k@)
            &&& after[k@] == *v2
            &&& !v.eq_spec(v2)
        },
        DiffItem::Remove(k, v) => before.contains_key(k@) && before[k@] == *v
            && !after.contains_key(k@),
    }
}

/// Whether two maps differ at a key.
pub open spec fn changed<M, V: PartialEq>(before: Map<M, V>, after: Map<M, V>, key: M) -> bool {
    ||| before.contains_key(key) != after.contains_key(key)
    ||| before.contains_key(key) && after.contains_key(key) && !before[key].eq_spec(&after[key])
}

/// Whether a list of differences is that between two maps: each of them is
/// there, no key occurs twice, and no changed key is left out.
pub open spec fn describes<'a, 'b, K: View, V: PartialEq>(
    items: Seq<DiffItem<'a, 'b, K, V>>,
    before: Map<K::V, V>,
    after: Map<K::V, V>,
) -> bool {
    &&& forall|i: int| 0 <= i < items.len() ==> item_true(#[trigger] items[i], before, after)
    &&& forall|i: int, j: int|
        0 <= i < j < items.len() ==> (#[trigger] items[i]).key() != (#[trigger] items[j]).key()
    &&& forall|key: K::V| #[trigger]
        changed(before, after, key) ==> exists|i: int|
            0 <= i < items.len() && (#[trigger] items[i]).key() == key
}

/// Whether `now` is `then` followed by the differences between two maps.
pub open spec fn appends<'a, 'b, K: View, V: PartialEq>(
    then: Seq<DiffItem<'a, 'b, K, V>>,
    now: Seq<DiffItem<'a, 'b, K, V>>,
    before: Map<K::V, V>,
    after: Map<K::V, V>,
) -> bool {
    &&& then.len() <= now.len()
    &&& now.take(then.len() as int) == then
    &&& accounts(now.skip(then.len() as int), before, after)
    &&& lawful_eq::<V>() ==> describes(now.skip(then.len() as int), before, after)
}

/// What a map holds for some keys only.
pub open spec fn part<M, V>(map: Map<M, V>, keys: Set<M>) -> Map<M, V> {
    map.restrict(keys)
}

/// Differences that account for disjoint parts account for both together.
proof fn lemma_join_accounts<'a, 'b, K: View, V>(
    a: Seq<DiffItem<'a, 'b, K, V>>,
    b: Seq<DiffItem<'a, 'b, K, V>>,
    before: Map<K::V, V>,
    after: Map<K::V, V>,
    first: Set<K::V>,
    second: Set<K::V>,
)
    requires
        accounts(a, part(before, first), part(after, first)),
        accounts(b, part(before, second), part(after, second)),
        first.disjoint(second),
    ensures
        accounts(a + b, part(before, first.union(second)), part(after, first.union(second))),
{
    let items = a + b;
    let left = part(before, first.union(second));
    let right = part(after, first.union(second));
    assert forall|i: int| 0 <= i < items.len() implies item_there(
        #[trigger] items[i],
        left,
        right,
    ) by {
        if i < a.len() {
            assert(item_there(a[i], part(before, first), part(after, first)));
        } else {
            assert(item_there(b[i - a.len()], part(before, second), part(after, second)));
        }
    }
    assert forall|i: int, j: int| 0 <= i < j < items.len() implies (#[trigger] items[i]).key() != (
    #[trigger] items[j]).key() by {
        if j < a.len() {
            assert(a[i].key() != a[j].key());
        } else if i >= a.len() {
            assert(b[i - a.len()].key() != b[j - a.len()].key());
        } else {
            assert(item_there(a[i], part(before, first), part(after, first)));
            assert(item_there(b[j - a.len()], part(before, second), part(after, second)));
            assert(first.contains(a[i].key()));
            assert(second.contains(b[j - a.len()].key()));
        }
    }
    assert forall|key: K::V| #[trigger] moved(left, right, key) implies exists|i: int|
        0 <= i < items.len() && (#[trigger] items[i]).key() == key by {
        if first.contains(key) {
            assert(moved(part(before, first), part(after, first), key));
            let i = choose|i: int| 0 <= i < a.len() && (#[trigger] a[i]).key() == key;
            assert(items[i].key() == key);
        } else {
            assert(moved(part(before, second), part(after, second), key));
            let i = choose|i: int| 0 <= i < b.len() && (#[trigger] b[i]).key() == key;
            assert(items[a.len() + i].key() == key);
        }
    }
}

/// Differences of disjoint parts make the difference of both parts together.
proof fn lemma_join<'a, 'b, K: View, V: PartialEq>(
    start: Seq<DiffItem<'a, 'b, K, V>>,
    middle: Seq<DiffItem<'a, 'b, K, V>>,
    end: Seq<DiffItem<'a, 'b, K, V>>,
    before: Map<K::V, V>,
    after: Map<K::V, V>,
    first: Set<K::V>,
    second: Set<K::V>,
)
    requires
        appends(start, middle, part(before, first), part(after, first)),
        appends(middle, end, part(before, second), part(after, second)),
        first.disjoint(second),
    ensures
        appends(
            start,
            end,
            part(before, first.union(second)),
            part(after, first.union(second)),
        ),
{
    let n = start.len() as int;
    let m = middle.len() as int;
    let a = middle.skip(n);
    let b = end.skip(m);
    let items = end.skip(n);
    assert(end.take(n) =~= start) by {
        assert(end.take(n) =~= end.take(m).take(n));
    }
    assert(items =~= a + b) by {
        assert(end.take(m) =~= middle);
        assert forall|i: int| 0 <= i < a.len() implies items[i] == a[i] by {
            assert(end.take(m)[n + i] == middle[n + i]);
        }
    }
    lemma_join_accounts(a, b, before, after, first, second);
    if lawful_eq::<V>() {
        let both = first.union(second);
        let left = part(before, both);
        let right = part(after, both);
        assert forall|i: int| 0 <= i < items.len() implies item_true(
            #[trigger] items[i],
            left,
            right,
        ) by {
            if i < a.len() {
                assert(item_true(a[i], part(before, first), part(after, first)));
            } else {
                assert(item_true(b[i - a.len()], part(before, second), part(after, second)));
            }
        }
        assert forall|i: int, j: int| 0 <= i < j < items.len() implies (
        #[trigger] items[i]).key() != (#[trigger] items[j]).key() by {
            if j < a.len() {
                assert(a[i].key() != a[j].key());
            } else if i >= a.len() {
                assert(b[i - a.len()].key() != b[j - a.len()].key());
            } else {
                assert(item_true(a[i], part(before, first), part(after, first)));
                assert(item_true(b[j - a.len()], part(before, second), part(after, second)));
                assert(first.contains(a[i].key()));
                assert(second.contains(b[j - a.len()].key()));
            }
        }
        assert forall|key: K::V| #[trigger] changed(left, right, key) implies exists|i: int|
            0 <= i < items.len() && (#[trigger] items[i]).key() == key by {
            if first.contains(key) {
                assert(changed(part(before, first), part(after, first), key));
                let i = choose|i: int| 0 <= i < a.len() && (#[trigger] a[i]).key() == key;
                assert(items[i].key() == key);
            } else {
                assert(changed(part(before, second), part(after, second), key));
                let i = choose|i: int| 0 <= i < b.len() && (#[trigger] b[i]).key() == key;
                assert(items[a.len() + i].key() == key);
            }
        }
    }
}

/// Nothing was appended, and the maps nowhere differ.
proof fn lemma_nothing<'a, 'b, K: View, V: PartialEq>(
    items: Seq<DiffItem<'a, 'b, K, V>>,
    before: Map<K::V, V>,
    after: Map<K::V, V>,
)
    requires
        forall|key: K::V| !#[trigger] moved(before, after, key),
        lawful_eq::<V>() ==> forall|key: K::V| !#[trigger] changed(before, after, key),
    ensures
        appends(items, items, before, after),
{
    assert(items.take(items.len() as int) =~= items);
    assert(items.skip(items.len() as int).len() == 0);
}

/// One key more was looked at: nothing was appended where the maps do not
/// differ at it, and the difference at it otherwise.
proof fn lemma_step<'a, 'b, K: View, V: PartialEq>(
    start: Seq<DiffItem<'a, 'b, K, V>>,
    middle: Seq<DiffItem<'a, 'b, K, V>>,
    end: Seq<DiffItem<'a, 'b, K, V>>,
    before: Map<K::V, V>,
    after: Map<K::V, V>,
    seen: Set<K::V>,
    key: K::V,
)
    requires
        appends(start, middle, part(before, seen), part(after, seen)),
        !seen.contains(key),
        ({
            ||| {
                &&& end == middle
                &&& !moved(before, after, key)
                &&& lawful_eq::<V>() ==> !changed(before, after, key)
            }
            ||| {
                &&& end.len() == middle.len() + 1
                &&& end == middle.push(end.last())
                &&& end.last().key() == key
                &&& item_there(end.last(), before, after)
                &&& lawful_eq::<V>() ==> item_true(end.last(), before, after)
            }
        }),
    ensures
        appends(start, end, part(before, seen.insert(key)), part(after, seen.insert(key))),
{
    let one = Set::<K::V>::empty().insert(key);
    let left = part(before, one);
    let right = part(after, one);
    if end.len() == middle.len() {
        assert forall|k: K::V| lawful_eq::<V>() implies !#[trigger] changed(left, right, k) by {
            if k == key {
                assert(!changed(before, after, key));
            }
        }
        assert forall|k: K::V| !#[trigger] moved(left, right, k) by {
            if k == key {
                assert(!moved(before, after, key));
            }
        }
        lemma_nothing(middle, left, right);
    } else {
        let item = end.last();
        assert(end.take(middle.len() as int) =~= middle);
        assert(end.skip(middle.len() as int) =~= seq![item]);
        assert(item_there(item, left, right));
        assert(seq![item][0] == item);
        assert forall|k: K::V| #[trigger] moved(left, right, k) implies exists|i: int|
            0 <= i < seq![item].len() && (#[trigger] seq![item][i]).key() == k by {
            assert(seq![item][0].key() == k);
        }
        if lawful_eq::<V>() {
            assert(item_true(item, left, right));
            let new = end.skip(middle.len() as int);
            assert(new[0] == item);
            assert forall|k: K::V| #[trigger] changed(left, right, k) implies exists|i: int|
                0 <= i < new.len() && (#[trigger] new[i]).key() == k by {
                assert(new[0].key() == k);
            }
        }
    }
    lemma_join(start, middle, end, before, after, seen, one);
    assert(seen.union(one) =~= seen.insert(key));
}

/// The entries of a list of borrowed entries.
pub open spec fn plain<'a, K, V>(refs: Seq<&'a Pair<K, V>>) -> Seq<Pair<K, V>> {
    refs.map_values(|pair: &'a Pair<K, V>| *pair)
}

/// Borrows all entries of a node, in the order of the walk.
fn collect_values<'a, K, V>(node: &'a ChampNode<K, V>, out: &mut Vec<&'a Pair<K, V>>)
    ensures
        plain(final(out)@) == plain(old(out)@) + node.entries(),
    decreases node,
{
    let ghost start = plain(out@);
    match node {
        ChampNode::Inner(inner) => {
            collect_list(&inner.values, out);
            let mut i: usize = 0;
            let ghost children = inner.children@;
            proof {
                assert(children.subrange(0, children.len() as int) =~= children);
            }
            while i < inner.children.len()
                invariant
                    i <= inner.children@.len(),
                    children == inner.children@,
                    plain(out@) + children_entries(children.subrange(i as int, children.len() as int))
                        == start + inner.values@ + children_entries(children),
                    node matches ChampNode::Inner(n) && n == inner,
                decreases inner.children@.len() - i,
            {
                let ghost rest = children.subrange(i as int, children.len() as int);
                proof {
                    assert(rest[0] == children[i as int]);
                    assert(rest.subrange(1, rest.len() as int) =~= children.subrange(
                        i + 1,
                        children.len() as int,
                    ));
                }
                let ghost before = plain(out@);
                collect_values(&*inner.children[i], out);
                i += 1;
                proof {
                    assert(plain(out@) + children_entries(
                        children.subrange(i as int, children.len() as int),
                    ) =~= before + children_entries(rest));
                }
            }
            proof {
                assert(children.subrange(children.len() as int, children.len() as int).len() == 0);
                assert(plain(out@) =~= start + inner.values@ + children_entries(children));
                assert(start + inner.values@ + children_entries(children) =~= start + (inner.values@
                    + children_entries(children)));
            }
        },
        ChampNode::Collision(coll) => {
            collect_list(&coll.entries, out);
        },
    }
}

/// Borrows all entries of a list.
fn collect_list<'a, K, V>(pairs: &'a Vec<Pair<K, V>>, out: &mut Vec<&'a Pair<K, V>>)
    ensures
        plain(final(out)@) == plain(old(out)@) + pairs@,
{
    let ghost start = plain(out@);
    let mut i: usize = 0;
    while i < pairs.len()
        invariant
            i <= pairs@.len(),
            plain(out@) == start + pairs@.take(i as int),
        decreases pairs@.len() - i,
    {
        let ghost before = out@;
        out.push(&pairs[i]);
        i += 1;
        proof {
            assert(plain(out@) =~= plain(before).push(pairs@[i - 1]));
            assert(pairs@.take(i as int) =~= pairs@.take(i - 1).push(pairs@[i - 1]));
            assert(plain(out@) =~= start + pairs@.take(i as int));
        }
    }
    proof {
        assert(pairs@.take(pairs@.len() as int) =~= pairs@);
    }
}

/// The index of a key in a list of borrowed entries.
fn position_of<'a, S, K: HashKey<S>, V>(
    refs: &Vec<&'a Pair<K, V>>,
    key: &K,
    Ghost(state): Ghost<S>,
) -> (found: Option<usize>)
    ensures
        match found {
            Some(i) => key_at(plain(refs@), i as int, key@),
            None => find(plain(refs@), key@) is None,
        },
{
    let mut i: usize = 0;
    while i < refs.len()
        invariant
            i <= refs@.len(),
            forall|j: int| 0 <= j < i ==> !#[trigger] key_at(plain(refs@), j, key@),
        decreases refs@.len() - i,
    {
        if refs[i].0.same_key(key) {
            return Some(i);
        }
        i += 1;
    }
    None
}

/// What became of the entries of an old list in a new one, in the order of the
/// old one: each that is gone, and each with another value.
pub open spec fn old_changes<'a, 'b, K: View, V: PartialEq>(
    old_vals: Seq<&'a Pair<K, V>>,
    new_vals: Seq<&'b Pair<K, V>>,
) -> Seq<DiffItem<'a, 'b, K, V>>
    decreases old_vals.len(),
{
    if old_vals.len() == 0 {
        Seq::empty()
    } else {
        let front = old_changes(old_vals.drop_last(), new_vals);
        let pair = old_vals.last();
        if exists|j: int| key_at(plain(new_vals), j, (*pair.0)@) {
            let new = new_vals[choose|j: int| key_at(plain(new_vals), j, (*pair.0)@)];
            if (*pair.1).eq_spec(&*new.1) {
                front
            } else {
                front.push(
                    DiffItem::Update { old: (&*pair.0, &*pair.1), new: (&*new.0, &*new.1) },
                )
            }
        } else {
            front.push(DiffItem::Remove(&*pair.0, &*pair.1))
        }
    }
}

/// The entries of a new list whose keys an old one has not, in their order.
pub open spec fn additions<'a, 'b, K: View, V>(
    old_vals: Seq<&'a Pair<K, V>>,
    new_vals: Seq<&'b Pair<K, V>>,
) -> Seq<DiffItem<'a, 'b, K, V>>
    decreases new_vals.len(),
{
    if new_vals.len() == 0 {
        Seq::empty()
    } else {
        let front = additions(old_vals, new_vals.drop_last());
        let pair = new_vals.last();
        if exists|i: int| key_at(plain(old_vals), i, (*pair.0)@) {
            front
        } else {
            front.push(DiffItem::Add(&*pair.0, &*pair.1))
        }
    }
}

/// In a list without repeated keys, a key has one place.
proof fn lemma_one_place<K: View, V>(pairs: Seq<Pair<K, V>>, idx: int, key: K::V)
    requires
        distinct(pairs),
        key_at(pairs, idx, key),
    ensures
        (choose|i: int| key_at(pairs, i, key)) == idx,
{
    let other = choose|i: int| key_at(pairs, i, key);
    assert(key_at(pairs, other, key));
    if other < idx {
        assert((*pairs[other].0)@ != (*pairs[idx].0)@);
    } else if idx < other {
        assert((*pairs[idx].0)@ != (*pairs[other].0)@);
    }
}

/// Compares two lists of entries, value by value: what is gone or changed comes
/// in the order of the old list, and then what is new in the order of the new
/// one.
fn diff_value_lists<'a, 'b, S, K: HashKey<S>, V: PartialEq>(
    old_vals: &Vec<&'a Pair<K, V>>,
    new_vals: &Vec<&'b Pair<K, V>>,
    diffs: &mut Vec<DiffItem<'a, 'b, K, V>>,
    Ghost(state): Ghost<S>,
)
    requires
        distinct(plain(old_vals@)),
        distinct(plain(new_vals@)),
    ensures
        appends(
            old(diffs)@,
            final(diffs)@,
            pairs_map(plain(old_vals@)),
            pairs_map(plain(new_vals@)),
        ),
        lawful_eq::<V>() ==> final(diffs)@ == old(diffs)@ + old_changes(old_vals@, new_vals@)
            + additions(old_vals@, new_vals@),
{
    let ghost start = diffs@;
    let ghost a = plain(old_vals@);
    let ghost b = plain(new_vals@);
    let ghost before = pairs_map(a);
    let ghost after = pairs_map(b);
    let mut i: usize = 0;
    proof {
        lemma_seen(a, 0);
        assert(old_vals@.take(0) =~= Seq::<&'a Pair<K, V>>::empty());
        assert(start + old_changes(old_vals@.take(0), new_vals@) =~= start);
        assert(part(before, pairs_map(a.take(0)).dom()) =~= Map::<K::V, V>::empty());
        assert(part(after, pairs_map(a.take(0)).dom()) =~= Map::<K::V, V>::empty());
        lemma_nothing(
            start,
            part(before, pairs_map(a.take(0)).dom()),
            part(after, pairs_map(a.take(0)).dom()),
        );
    }
    while i < old_vals.len()
        invariant
            i <= old_vals@.len(),
            a == plain(old_vals@),
            b == plain(new_vals@),
            distinct(a),
            distinct(b),
            before == pairs_map(a),
            after == pairs_map(b),
            appends(
                start,
                diffs@,
                part(before, pairs_map(a.take(i as int)).dom()),
                part(after, pairs_map(a.take(i as int)).dom()),
            ),
            lawful_eq::<V>() ==> diffs@ == start + old_changes(
                old_vals@.take(i as int),
                new_vals@,
            ),
        decreases old_vals@.len() - i,
    {
        let pair: &'a Pair<K, V> = old_vals[i];
        let ghost middle = diffs@;
        let ghost key = (*pair.0)@;
        let ghost seen = pairs_map(a.take(i as int)).dom();
        proof {
            lemma_seen(a, i as int);
            lemma_pairs_map(b);
            assert(old_vals@.take(i + 1).drop_last() =~= old_vals@.take(i as int));
        }
        match position_of(new_vals, &*pair.0, Ghost(state)) {
            None => {
                diffs.push(DiffItem::Remove(&*pair.0, &*pair.1));
            },
            Some(j) => {
                let new: &'b Pair<K, V> = new_vals[j];
                proof {
                    lemma_find(b, j as int);
                    assert(b[j as int] == *new);
                    lemma_one_place(b, j as int, key);
                }
                if *pair.1 != *new.1 {
                    diffs.push(
                        DiffItem::Update {
                            old: (&*pair.0, &*pair.1),
                            new: (&*new.0, &*new.1),
                        },
                    );
                }
            },
        }
        proof {
            lemma_step(start, middle, diffs@, before, after, seen, key);
            assert(pairs_map(a.take(i + 1)).dom() =~= seen.insert(key));
            if lawful_eq::<V>() {
                assert(diffs@ =~= start + old_changes(old_vals@.take(i + 1), new_vals@));
            }
        }
        i += 1;
    }
    let ghost gone = diffs@;
    let mut j: usize = 0;
    proof {
        lemma_seen(a, a.len() as int);
        lemma_seen(b, 0);
        assert(old_vals@.take(old_vals@.len() as int) =~= old_vals@);
        assert(new_vals@.take(0) =~= Seq::<&'b Pair<K, V>>::empty());
        assert(gone + additions(old_vals@, new_vals@.take(0)) =~= gone);
        assert(before.dom().union(pairs_map(b.take(0)).dom()) =~= before.dom());
    }
    while j < new_vals.len()
        invariant
            j <= new_vals@.len(),
            a == plain(old_vals@),
            b == plain(new_vals@),
            distinct(a),
            distinct(b),
            before == pairs_map(a),
            after == pairs_map(b),
            appends(
                start,
                diffs@,
                part(before, before.dom().union(pairs_map(b.take(j as int)).dom())),
                part(after, before.dom().union(pairs_map(b.take(j as int)).dom())),
            ),
            diffs@ == gone + additions(old_vals@, new_vals@.take(j as int)),
        decreases new_vals@.len() - j,
    {
        let pair: &'b Pair<K, V> = new_vals[j];
        let ghost middle = diffs@;
        let ghost key = (*pair.0)@;
        let ghost seen = before.dom().union(pairs_map(b.take(j as int)).dom());
        proof {
            lemma_seen(b, j as int);
            lemma_pairs_map(a);
            assert(new_vals@.take(j + 1).drop_last() =~= new_vals@.take(j as int));
        }
        match position_of(old_vals, &*pair.0, Ghost(state)) {
            None => {
                diffs.push(DiffItem::Add(&*pair.0, &*pair.1));
                proof {
                    lemma_step(start, middle, diffs@, before, after, seen, key);
                    assert(before.dom().union(pairs_map(b.take(j + 1)).dom()) =~= seen.insert(key));
                }
            },
            Some(i) => {
                proof {
                    lemma_find(a, i as int);
                    assert(before.dom().union(pairs_map(b.take(j + 1)).dom()) =~= seen);
                }
            },
        }
        proof {
            assert(diffs@ =~= gone + additions(old_vals@, new_vals@.take(j + 1)));
        }
        j += 1;
    }
    proof {
        lemma_seen(b, b.len() as int);
        assert(new_vals@.take(new_vals@.len() as int) =~= new_vals@);
        let all = before.dom().union(after.dom());
        assert(part(before, all) =~= before);
        assert(part(after, all) =~= after);
    }
}

/// What a node holds, as a map.
pub open spec fn content<K: View, V>(node: ChampNode<K, V>) -> Map<K::V, V> {
    pairs_map(node.entries())
}

/// The keys whose slot at a level is `pos`.
pub open spec fn slot_keys<S, K: HashKey<S>>(state: S, depth: nat, pos: u32) -> Set<K::V> {
    Set::new(|key: K::V| slot(K::hash_in(key, state), depth) == pos)
}

/// The keys whose slot at a level is below `pos`.
pub open spec fn low_keys<S, K: HashKey<S>>(state: S, depth: nat, pos: u32) -> Set<K::V> {
    Set::new(|key: K::V| slot(K::hash_in(key, state), depth) < pos)
}

/// A slot of a node, borrowed.
enum SlotRef<'a, K, V> {
    Free,
    Value(&'a Pair<K, V>),
    Child(&'a Arc<ChampNode<K, V>>),
}

impl<'a, K, V> SlotRef<'a, K, V> {
    spec fn entries(self) -> Seq<Pair<K, V>> {
        match self {
            SlotRef::Free => Seq::empty(),
            SlotRef::Value(pair) => seq![*pair],
            SlotRef::Child(child) => child.entries(),
        }
    }

    /// Borrows the entries of a slot.
    fn values(&self) -> (refs: Vec<&'a Pair<K, V>>)
        ensures
            plain(refs@) == self.entries(),
    {
        let mut refs: Vec<&'a Pair<K, V>> = Vec::new();
        match self {
            SlotRef::Free => {},
            SlotRef::Value(pair) => {
                refs.push(*pair);
            },
            SlotRef::Child(child) => {
                collect_values(&***child, &mut refs);
            },
        }
        proof {
            assert(plain(refs@) =~= self.entries());
        }
        refs
    }
}

/// Borrows a slot of a node.
fn slot_ref<'a, S, K: HashKey<S>, V>(
    inner: &'a InnerNode<K, V>,
    pos: u32,
    Ghost(state): Ghost<S>,
    Ghost(path): Ghost<Seq<u32>>,
) -> (found: SlotRef<'a, K, V>)
    requires
        ChampNode::Inner(*inner).wf(state, path),
        pos < 32,
    ensures
        match found {
            SlotRef::Free => true,
            SlotRef::Value(pair) => true,
            SlotRef::Child(child) => child.wf(state, path.push(pos)),
        },
        distinct(found.entries()),
        pairs_map(found.entries()) == part(
            content(ChampNode::Inner(*inner)),
            slot_keys::<S, K>(state, path.len(), pos),
        ),
{
    let bit: u32 = bitpos(pos);
    proof {
        lemma_sparse_index(inner.datamap, inner.values@, pos);
        lemma_sparse_index(inner.nodemap, inner.children@, pos);
        lemma_entries(ChampNode::Inner(*inner), state, path);
    }
    let ghost whole = content(ChampNode::Inner(*inner));
    let ghost keys = slot_keys::<S, K>(state, path.len(), pos);
    proof {
        assert forall|key: K::V| #[trigger] part(whole, keys).contains_key(key) <==> keys.contains(
            key,
        ) && slot_entry(*inner, state, pos, key, path.len()) is Some by {
            assert(find(ChampNode::Inner(*inner).entries(), key) == ChampNode::Inner(*inner).at(
                state,
                key,
                path.len(),
            ));
        }
        assert forall|key: K::V| #[trigger] part(whole, keys).contains_key(key) implies part(
            whole,
            keys,
        )[key] == *(slot_entry(*inner, state, pos, key, path.len())->0).1 by {
            assert(find(ChampNode::Inner(*inner).entries(), key) == ChampNode::Inner(*inner).at(
                state,
                key,
                path.len(),
            ));
        }
    }
    if inner.datamap & bit != 0 {
        let idx: usize = index(inner.datamap, bit, Ghost(pos));
        let pair = &inner.values[idx];
        proof {
            assert(sparse_at(inner.datamap, inner.values@, pos) == Some(*pair));
            let hash = K::hash_in((*pair.0)@, state);
            lemma_path_step(hash, path, pos);
            let list = seq![*pair];
            lemma_find(list, 0);
            assert forall|key: K::V| find(list, key) is Some implies key == (*pair.0)@ by {
                let i = lemma_found(list, key);
            }
            assert(pairs_map(list) =~= part(whole, keys));
        }
        SlotRef::Value(pair)
    } else if inner.nodemap & bit != 0 {
        let idx: usize = index(inner.nodemap, bit, Ghost(pos));
        let child = &inner.children[idx];
        proof {
            assert(sparse_at(inner.nodemap, inner.children@, pos) == Some(*child));
            let node = inside(*child);
            lemma_entries(node, state, path.push(pos));
            assert forall|key: K::V| #[trigger] find(node.entries(), key) is Some implies keys.contains(
                key,
            ) by {
                let i = lemma_found(node.entries(), key);
                lemma_path_step(K::hash_in(key, state), path, pos);
            }
            assert forall|key: K::V| #[trigger] find(node.entries(), key) == node.at(
                state,
                key,
                path.len() + 1,
            ) by {}
            assert(pairs_map(node.entries()) =~= part(whole, keys));
        }
        SlotRef::Child(child)
    } else {
        proof {
            assert(pairs_map(Seq::<Pair<K, V>>::empty()) =~= part(whole, keys));
        }
        SlotRef::Free
    }
}

/// Compares two nodes at the same place, slot by slot. Children that both nodes
/// share are skipped.
fn diff_nodes<'a, 'b, S, K: HashKey<S>, V: PartialEq>(
    old_node: &'a ChampNode<K, V>,
    new_node: &'b ChampNode<K, V>,
    diffs: &mut Vec<DiffItem<'a, 'b, K, V>>,
    Ghost(state): Ghost<S>,
    Ghost(path): Ghost<Seq<u32>>,
)
    requires
        old_node.wf(state, path),
        new_node.wf(state, path),
    ensures
        appends(old(diffs)@, final(diffs)@, content(*old_node), content(*new_node)),
    decreases MAX_DEPTH - path.len(),
{
    let ghost start = diffs@;
    let ghost before = content(*old_node);
    let ghost after = content(*new_node);
    let ghost depth = path.len();
    match (old_node, new_node) {
        (ChampNode::Inner(old_inner), ChampNode::Inner(new_inner)) => {
            let mut pos: u32 = 0;
            proof {
                let none = low_keys::<S, K>(state, depth, 0);
                assert(part(before, none) =~= Map::<K::V, V>::empty());
                assert(part(after, none) =~= Map::<K::V, V>::empty());
                lemma_nothing(start, part(before, none), part(after, none));
            }
            while pos < 32
                invariant
                    pos <= 32,
                    depth == path.len(),
                    path.len() < MAX_DEPTH,
                    old_node matches ChampNode::Inner(n) && n == old_inner,
                    new_node matches ChampNode::Inner(n) && n == new_inner,
                    old_node.wf(state, path),
                    new_node.wf(state, path),
                    before == content(*old_node),
                    after == content(*new_node),
                    appends(
                        start,
                        diffs@,
                        part(before, low_keys::<S, K>(state, depth, pos)),
                        part(after, low_keys::<S, K>(state, depth, pos)),
                    ),
                decreases 32 - pos,
            {
                let ghost middle = diffs@;
                let ghost low = low_keys::<S, K>(state, depth, pos);
                let ghost here = slot_keys::<S, K>(state, depth, pos);
                let old_slot = slot_ref(old_inner, pos, Ghost(state), Ghost(path));
                let new_slot = slot_ref(new_inner, pos, Ghost(state), Ghost(path));
                match (&old_slot, &new_slot) {
                    (SlotRef::Child(old_child), SlotRef::Child(new_child)) => {
                        if same_allocation(*old_child, *new_child) {
                            proof {
                                lemma_nothing(middle, part(before, here), part(after, here));
                            }
                        } else {
                            diff_nodes(
                                &***old_child,
                                &***new_child,
                                diffs,
                                Ghost(state),
                                Ghost(path.push(pos)),
                            );
                        }
                    },
                    _ => {
                        let old_vals = old_slot.values();
                        let new_vals = new_slot.values();
                        diff_value_lists(&old_vals, &new_vals, diffs, Ghost(state));
                    },
                }
                proof {
                    lemma_join(start, middle, diffs@, before, after, low, here);
                    assert(low.union(here) =~= low_keys::<S, K>(state, depth, (pos + 1) as u32));
                }
                pos += 1;
            }
            proof {
                let all = low_keys::<S, K>(state, depth, 32);
                assert forall|key: K::V| all.contains(key) by {
                    lemma_slot_range(K::hash_in(key, state), depth);
                }
                assert(part(before, all) =~= before);
                assert(part(after, all) =~= after);
            }
        },
        _ => {
            let mut old_vals: Vec<&'a Pair<K, V>> = Vec::new();
            let mut new_vals: Vec<&'b Pair<K, V>> = Vec::new();
            collect_values(old_node, &mut old_vals);
            collect_values(new_node, &mut new_vals);
            proof {
                assert(plain(old_vals@) =~= old_node.entries());
                assert(plain(new_vals@) =~= new_node.entries());
                lemma_entries(*old_node, state, path);
                lemma_entries(*new_node, state, path);
            }
            diff_value_lists(&old_vals, &new_vals, diffs, Ghost(state));
        },
    }
}

/// Compares two maps key by key: the way for maps whose hashers differ.
fn diff_iterate_and_lookup<'a, 'b, K: HashKey<S>, V: PartialEq, S>(
    old_map: &'a GenericHashMap<K, V, S>,
    new_map: &'b GenericHashMap<K, V, S>,
    diffs: &mut Vec<DiffItem<'a, 'b, K, V>>,
)
    requires
        old_map.wf(),
        new_map.wf(),
    ensures
        appends(old(diffs)@, final(diffs)@, old_map@, new_map@),
{
    let ghost start = diffs@;
    let ghost before = old_map@;
    let ghost after = new_map@;
    let ghost a = old_map.entries();
    let ghost b = new_map.entries();
    let mut i: usize = 0;
    let mut walk = old_map.iter();
    proof {
        old_map.lemma_map();
        new_map.lemma_map();
        lemma_seen(a, 0);
        assert(a.subrange(0, a.len() as int) =~= a);
        assert(part(before, pairs_map(a.take(0)).dom()) =~= Map::<K::V, V>::empty());
        assert(part(after, pairs_map(a.take(0)).dom()) =~= Map::<K::V, V>::empty());
        lemma_nothing(
            start,
            part(before, pairs_map(a.take(0)).dom()),
            part(after, pairs_map(a.take(0)).dom()),
        );
    }
    loop
        invariant
            i <= a.len(),
            a.len() <= usize::MAX,
            walk.wf(),
            walk@ == a.subrange(i as int, a.len() as int),
            distinct(a),
            new_map.wf(),
            before == pairs_map(a),
            after == new_map@,
            appends(
                start,
                diffs@,
                part(before, pairs_map(a.take(i as int)).dom()),
                part(after, pairs_map(a.take(i as int)).dom()),
            ),
        ensures
            i == a.len(),
        decreases a.len() - i,
    {
        match walk.next() {
            None => {
                break;
            },
            Some((k, v)) => {
                let ghost middle = diffs@;
                let ghost key = k@;
                let ghost seen = pairs_map(a.take(i as int)).dom();
                proof {
                    lemma_seen(a, i as int);
                    assert(*k == *a[i as int].0 && *v == *a[i as int].1);
                }
                match new_map.get_key_value(k) {
                    None => {
                        diffs.push(DiffItem::Remove(k, v));
                    },
                    Some((k2, v2)) => {
                        if *v != *v2 {
                            diffs.push(DiffItem::Update { old: (k, v), new: (k2, v2) });
                        }
                    },
                }
                proof {
                    lemma_step(start, middle, diffs@, before, after, seen, key);
                    assert(pairs_map(a.take(i + 1)).dom() =~= seen.insert(key));
                }
                i += 1;
            },
        }
    }
    let mut j: usize = 0;
    let mut walk = new_map.iter();
    proof {
        lemma_seen(a, a.len() as int);
        lemma_seen(b, 0);
        assert(b.subrange(0, b.len() as int) =~= b);
        assert(before.dom().union(pairs_map(b.take(0)).dom()) =~= before.dom());
    }
    loop
        invariant
            j <= b.len(),
            b.len() <= usize::MAX,
            walk.wf(),
            walk@ == b.subrange(j as int, b.len() as int),
            distinct(b),
            old_map.wf(),
            before == old_map@,
            after == pairs_map(b),
            appends(
                start,
                diffs@,
                part(before, before.dom().union(pairs_map(b.take(j as int)).dom())),
                part(after, before.dom().union(pairs_map(b.take(j as int)).dom())),
            ),
        ensures
            j == b.len(),
        decreases b.len() - j,
    {
        match walk.next() {
            None => {
                break;
            },
            Some((k, v)) => {
                let ghost middle = diffs@;
                let ghost key = k@;
                let ghost seen = before.dom().union(pairs_map(b.take(j as int)).dom());
                proof {
                    lemma_seen(b, j as int);
                    assert(*k == *b[j as int].0 && *v == *b[j as int].1);
                }
                if !old_map.contains_key(k) {
                    diffs.push(DiffItem::Add(k, v));
                    proof {
                        lemma_step(start, middle, diffs@, before, after, seen, key);
                        assert(before.dom().union(pairs_map(b.take(j + 1)).dom())
                            =~= seen.insert(key));
                    }
                } else {
                    proof {
                        assert(before.dom().union(pairs_map(b.take(j + 1)).dom()) =~= seen);
                    }
                }
                j += 1;
            },
        }
    }
    proof {
        lemma_seen(b, b.len() as int);
        let all = before.dom().union(after.dom());
        assert(part(before, all) =~= before);
        assert(part(after, all) =~= after);
    }
}

/// Whether two maps have one size, one hasher state and the same valid
/// fingerprint of keys and values.
pub open spec fn same_kv_merkle<K: View, V, S>(
    a: GenericHashMap<K, V, S>,
    b: GenericHashMap<K, V, S>,
) -> bool {
    &&& a@.len() == b@.len()
    &&& a.state() == b.state()
    &&& a.kv_merkle() is Some
    &&& a.kv_merkle() == b.kv_merkle()
}

/// The differences between two maps, one after the other.
pub struct DiffIter<'a, 'b, K, V> {
    diffs: Vec<DiffItem<'a, 'b, K, V>>,
    index: usize,
}

impl<'a, 'b, K, V> View for DiffIter<'a, 'b, K, V> {
    type V = Seq<DiffItem<'a, 'b, K, V>>;

    /// The differences that are left.
    closed spec fn view(&self) -> Seq<DiffItem<'a, 'b, K, V>> {
        self.diffs@.skip(self.index as int)
    }
}

impl<'a, 'b, K, V> DiffIter<'a, 'b, K, V> {
    /// Whether the position is in range.
    pub closed spec fn wf(self) -> bool {
        self.index <= self.diffs@.len()
    }

    /// The next difference.
    pub fn next(&mut self) -> (item: Option<DiffItem<'a, 'b, K, V>>)
        requires
            old(self).wf(),
        ensures
            final(self).wf(),
            match item {
                Some(it) => {
                    &&& old(self)@.len() > 0
                    &&& it == old(self)@[0]
                    &&& final(self)@ == old(self)@.skip(1)
                },
                None => old(self)@.len() == 0 && final(self)@.len() == 0,
            },
    {
        if self.index < self.diffs.len() {
            let item = match &self.diffs[self.index] {
                DiffItem::Add(k, v) => DiffItem::Add(*k, *v),
                DiffItem::Update { old, new } => DiffItem::Update {
                    old: (old.0, old.1),
                    new: (new.0, new.1),
                },
                DiffItem::Remove(k, v) => DiffItem::Remove(*k, *v),
            };
            self.index = self.index + 1;
            proof {
                assert(self@ =~= old(self)@.skip(1));
            }
            Some(item)
        } else {
            None
        }
    }

    /// Number of differences that are left.
    pub fn len(&self) -> (n: usize)
        requires
            self.wf(),
        ensures
            n == self@.len(),
    {
        self.diffs.len() - self.index
    }

    /// All differences that are left.
    pub fn collect(self) -> (items: Vec<DiffItem<'a, 'b, K, V>>)
        requires
            self.wf(),
        ensures
            items@ == self@,
    {
        let mut iter = self;
        let mut items: Vec<DiffItem<'a, 'b, K, V>> = Vec::new();
        let ghost all = iter@;
        loop
            invariant
                iter.wf(),
                items@ + iter@ == all,
            ensures
                items@ == all,
            decreases iter@.len(),
        {
            let ghost before = iter@;
            match iter.next() {
                Some(item) => {
                    items.push(item);
                    proof {
                        assert(items@ + iter@ =~= all);
                    }
                },
                None => {
                    proof {
                        assert(items@ =~= all);
                    }
                    break;
                },
            }
        }
        items
    }
}

/// Whether a difference does nothing to a map: it removes a key that is not there.
pub open spec fn idle<'a, 'b, K: View, V>(
    item: DiffItem<'a, 'b, K, V>,
    map: Map<K::V, V>,
) -> bool {
    item is Remove && !map.contains_key(item.key())
}

/// Whether `after` is `before` with differences applied in order: keys that no
/// difference is about keep what they have, and of the differences about a key
/// the last decides.
pub open spec fn patches<'a, 'b, K: View, V: Clone>(
    before: Map<K::V, V>,
    items: Seq<DiffItem<'a, 'b, K, V>>,
    after: Map<K::V, V>,
) -> bool {
    &&& forall|key: K::V|
        #![trigger after.get(key)]
        (forall|i: int| 0 <= i < items.len() ==> (#[trigger] items[i]).key() != key) ==> after.get(
            key,
        ) == before.get(key)
    &&& forall|i: int|
        #![trigger items[i]]
        0 <= i < items.len() && (forall|j: int|
            i < j < items.len() ==> (#[trigger] items[j]).key() != items[i].key())
            ==> match items[i] {
            DiffItem::Add(k, v) => after.contains_key(items[i].key()) && cloned(
                *v,
                after[items[i].key()],
            ),
            DiffItem::Update { new, .. } => after.contains_key(items[i].key()) && cloned(
                *new.1,
                after[items[i].key()],
            ),
            DiffItem::Remove(..) => !after.contains_key(items[i].key()),
        }
}

impl<K, V, S> GenericHashMap<K, V, S> {
    /// The differences between this map, the old one, and another, the new one.
    /// Maps of one lineage with the same fingerprint of keys and values are
    /// taken to be equal.
    pub fn diff<'a, 'b>(&'a self, other: &'b Self) -> (iter: DiffIter<'a, 'b, K, V>) where
        K: HashKey<S>,
        V: PartialEq,
        S: HashState,

        requires
            self.wf(),
            other.wf(),
        ensures
            iter.wf(),
            accounts(iter@, self@, other@) || (same_kv_merkle(*self, *other) && iter@.len() == 0),
            lawful_eq::<V>() ==> describes(iter@, self@, other@) || (same_kv_merkle(*self, *other)
                && iter@.len() == 0),
    {
        let same_lineage = self.same_lineage(other);
        self.diff_with(other, same_lineage)
    }

    /// The differences between two maps, given whether they have one lineage.
    pub fn diff_with<'a, 'b>(&'a self, other: &'b Self, same_lineage: bool) -> (iter: DiffIter<
        'a,
        'b,
        K,
        V,
    >) where K: HashKey<S>, V: PartialEq, S: HashState
        requires
            self.wf(),
            other.wf(),
        ensures
            iter.wf(),
            if same_lineage && same_kv_merkle(*self, *other) {
                iter@.len() == 0
            } else {
                accounts(iter@, self@, other@)
            },
            lawful_eq::<V>() ==> if same_lineage && same_kv_merkle(*self, *other) {
                iter@.len() == 0
            } else {
                describes(iter@, self@, other@)
            },
    {
        let mut diffs: Vec<DiffItem<'a, 'b, K, V>> = Vec::new();
        proof {
            self.lemma_map();
            other.lemma_map();
        }
        if self.ptr_eq(other) {
            proof {
                lemma_nothing(diffs@, self@, other@);
                assert(diffs@.skip(0) =~= diffs@);
            }
            return DiffIter { diffs, index: 0 };
        }
        if same_lineage && self.len() == other.len() && self.hasher().same_state(other.hasher()) {
            match (self.kv_merkle_hash(), other.kv_merkle_hash()) {
                (Some(a), Some(b)) => {
                    if a == b {
                        return DiffIter { diffs, index: 0 };
                    }
                },
                _ => {},
            }
        }
        match (self.root(), other.root()) {
            (Some(old_root), Some(new_root)) => {
                if self.hasher().same_state(other.hasher()) {
                    diff_nodes(
                        old_root,
                        new_root,
                        &mut diffs,
                        Ghost(self.state()),
                        Ghost(Seq::empty()),
                    );
                } else {
                    diff_iterate_and_lookup(self, other, &mut diffs);
                }
            },
            _ => {
                diff_iterate_and_lookup(self, other, &mut diffs);
            },
        }
        proof {
            assert(diffs@.skip(0) =~= diffs@);
        }
        DiffIter { diffs, index: 0 }
    }

    /// A map with differences applied, in order: additions and updates insert
    /// clones of keys and values, removals remove.
    pub fn apply_diff<'a, 'b>(&self, diff: Vec<DiffItem<'a, 'b, K, V>>) -> (map: Self) where
        K: HashKey<S> + Clone,
        V: Clone,
        S: HashState,

        requires
            self.wf(),
            self@.len() + diff@.len() <= usize::MAX,
        ensures
            map.wf(),
            map.state() == self.state(),
            map@.len() <= self@.len() + diff@.len(),
            (forall|i: int| 0 <= i < diff@.len() ==> idle(#[trigger] diff@[i], self@)) ==> map
                == *self,
            map.kv_merkle() is None || map == *self,
            (exists|i: int| 0 <= i < diff@.len() && #[trigger] diff@[i] !is Remove)
                ==> map.kv_merkle() is None && map.top() is Some,
            faithful::<K>() ==> patches(self@, diff@, map@),
    {
        let mut out = self.clone();
        let mut i: usize = 0;
        proof {
            self.lemma_map();
        }
        while i < diff.len()
            invariant
                i <= diff@.len(),
                self@.len() + diff@.len() <= usize::MAX,
                out.wf(),
                (forall|j: int| 0 <= j < i ==> idle(#[trigger] diff@[j], self@)) ==> out == *self,
                out.kv_merkle() is None || out == *self,
                (exists|j: int| 0 <= j < i && #[trigger] diff@[j] !is Remove)
                    ==> out.kv_merkle() is None && out.top() is Some,
                out.state() == self.state(),
                out@.dom().finite(),
                out@.len() <= self@.len() + i,
                faithful::<K>() ==> patches(self@, diff@.take(i as int), out@),
            decreases diff@.len() - i,
        {
            let ghost before = out@;
            let ghost key = diff@[i as int].key();
            let ghost earlier = out;
            match &diff[i] {
                DiffItem::Add(k, v) => {
                    let key_copy: K = (*k).clone();
                    let value_copy: V = (*v).clone();
                    proof {
                        assert(cloned(**k, key_copy));
                        assert(cloned(**v, value_copy));
                    }
                    out.insert_pair(Arc::new(key_copy), Arc::new(value_copy));
                },
                DiffItem::Update { new, .. } => {
                    let key_copy: K = new.0.clone();
                    let value_copy: V = new.1.clone();
                    proof {
                        assert(cloned(*new.0, key_copy));
                        assert(cloned(*new.1, value_copy));
                    }
                    out.insert_pair(Arc::new(key_copy), Arc::new(value_copy));
                },
                DiffItem::Remove(k, _) => {
                    out.remove_pair_invalidate(*k);
                },
            }
            proof {
                if diff@[i as int] is Remove {
                    assert(out.kv_merkle() is None || out == earlier);
                }
                if faithful::<K>() {
                    lemma_patch_step(self@, diff@, i as int, before, out@);
                }
            }
            i += 1;
        }
        proof {
            assert(diff@.take(diff@.len() as int) =~= diff@);
        }
        out
    }
}

/// The difference between two maps, applied to the old one, makes the new one, up
/// to values that are equal by `==`, where that is an equivalence and a clone is
/// equal to what it was cloned from.
pub proof fn law_map_patch<'a, 'b, K: View, V: PartialEq + Clone>(
    items: Seq<DiffItem<'a, 'b, K, V>>,
    before: Map<K::V, V>,
    after: Map<K::V, V>,
    made: Map<K::V, V>,
)
    requires
        describes(items, before, after),
        patches(before, items, made),
        equivalence::<V>(),
        forall|v: V, w: V| #[trigger] cloned(v, w) ==> v.eq_spec(&w),
    ensures
        same_entries(after, made),
{
    assert forall|key: K::V|
        #![trigger after.contains_key(key)]
        after.contains_key(key) == made.contains_key(key) && (after.contains_key(key)
            ==> after[key].eq_spec(&made[key])) by {
        if changed(before, after, key) {
            let i = choose|i: int| 0 <= i < items.len() && (#[trigger] items[i]).key() == key;
            assert(item_true(items[i], before, after));
            assert forall|j: int| i < j < items.len() implies (#[trigger] items[j]).key()
                != items[i].key() by {
                assert(items[i].key() != items[j].key());
            }
        } else {
            assert forall|i: int| 0 <= i < items.len() implies (#[trigger] items[i]).key()
                != key by {
                assert(item_true(items[i], before, after));
            }
            assert(made.get(key) == before.get(key));
            if after.contains_key(key) {
                assert(before[key].eq_spec(&after[key]));
            }
        }
    }
    assert(after.dom() =~= made.dom()) by {
        assert forall|key: K::V| after.dom().contains(key) == made.dom().contains(key) by {
            assert(after.contains_key(key) == made.contains_key(key));
        }
    }
}

/// There is a difference between two maps just where they are not equal.
pub proof fn law_no_difference<'a, 'b, K: View, V: PartialEq>(
    items: Seq<DiffItem<'a, 'b, K, V>>,
    before: Map<K::V, V>,
    after: Map<K::V, V>,
)
    requires
        describes(items, before, after),
    ensures
        items.len() == 0 <==> same_entries(before, after),
{
    if same_entries(before, after) {
        if items.len() > 0 {
            assert(item_true(items[0], before, after));
            assert(before.dom().contains(items[0].key()) == after.dom().contains(items[0].key()));
        }
    } else {
        if items.len() == 0 {
            assert forall|key: K::V| before.dom().contains(key) == after.dom().contains(key) by {
                assert(!changed(before, after, key));
            }
            assert(before.dom() =~= after.dom());
            assert forall|key: K::V| #[trigger] before.contains_key(key) implies before[key].eq_spec(
                &after[key],
            ) by {
                assert(!changed(before, after, key));
            }
        }
    }
}

/// There are no more differences than keys.
pub proof fn law_diff_size<'a, 'b, K: View, V: PartialEq>(
    items: Seq<DiffItem<'a, 'b, K, V>>,
    before: Map<K::V, V>,
    after: Map<K::V, V>,
)
    requires
        describes(items, before, after),
        before.dom().finite(),
        after.dom().finite(),
    ensures
        items.len() <= before.len() + after.len(),
{
    let keys = Seq::new(items.len(), |i: int| items[i].key());
    let all = before.dom().union(after.dom());
    assert forall|i: int, j: int| 0 <= i < keys.len() && 0 <= j < keys.len() && i
        != j implies keys[i] != keys[j] by {
        if i < j {
            assert(items[i].key() != items[j].key());
        } else {
            assert(items[j].key() != items[i].key());
        }
    }
    assert forall|key: K::V| keys.to_set().contains(key) implies all.contains(key) by {
        let i = choose|i: int| 0 <= i < keys.len() && keys[i] == key;
        assert(item_true(items[i], before, after));
    }
    keys.unique_seq_to_set();
    vstd::set_lib::lemma_len_subset(keys.to_set(), all);
    vstd::set_lib::lemma_len_union(before.dom(), after.dom());
}

/// One difference more is applied.
proof fn lemma_patch_step<'a, 'b, K: View, V: Clone>(
    start: Map<K::V, V>,
    items: Seq<DiffItem<'a, 'b, K, V>>,
    i: int,
    before: Map<K::V, V>,
    after: Map<K::V, V>,
)
    requires
        0 <= i < items.len(),
        patches(start, items.take(i), before),
        forall|key: K::V| key != items[i].key() ==> #[trigger] after.get(key) == before.get(key),
        match items[i] {
            DiffItem::Add(k, v) => after.contains_key(items[i].key()) && cloned(
                *v,
                after[items[i].key()],
            ),
            DiffItem::Update { new, .. } => after.contains_key(items[i].key()) && cloned(
                *new.1,
                after[items[i].key()],
            ),
            DiffItem::Remove(..) => !after.contains_key(items[i].key()),
        },
    ensures
        patches(start, items.take(i + 1), after),
{
    let front = items.take(i);
    let longer = items.take(i + 1);
    assert forall|key: K::V|
        #![trigger after.get(key)]
        (forall|j: int| 0 <= j < longer.len() ==> (#[trigger] longer[j]).key()
            != key) implies after.get(key) == start.get(key) by {
        assert(longer[i].key() != key);
        assert forall|j: int| 0 <= j < front.len() implies (#[trigger] front[j]).key() != key by {
            assert(longer[j] == front[j]);
        }
        assert(before.get(key) == start.get(key));
    }
    assert forall|l: int|
        #![trigger longer[l]]
        0 <= l < longer.len() && (forall|j: int|
            l < j < longer.len() ==> (#[trigger] longer[j]).key()
                != longer[l].key()) implies match longer[l] {
        DiffItem::Add(k, v) => after.contains_key(longer[l].key()) && cloned(
            *v,
            after[longer[l].key()],
        ),
        DiffItem::Update { new, .. } => after.contains_key(longer[l].key()) && cloned(
            *new.1,
            after[longer[l].key()],
        ),
        DiffItem::Remove(..) => !after.contains_key(longer[l].key()),
    } by {
        if l < i {
            assert(longer[i].key() != longer[l].key());
            assert(front[l] == longer[l]);
            assert forall|j: int| l < j < front.len() implies (#[trigger] front[j]).key()
                != front[l].key() by {
                assert(longer[j] == front[j]);
            }
            assert(after.get(longer[l].key()) == before.get(longer[l].key()));
        }
    }
}

} // verus!
