//! Canonical form: what a trie holds decides how it is built.
use crate::bits::{has_bit, lemma_full_path, lemma_path_step, lemma_rank_nonzero, lemma_slot_range};
use crate::bits::{lemma_some_bit, rank, slot};
use crate::entries::{children_entries, lemma_entries};
use crate::hash_key::HashKey;
use crate::node::{find, lemma_find, lemma_found, ChampNode, InnerNode, Pair};
use crate::shape::same_shape;
use crate::shared::inside;
use crate::sparse::{lemma_sparse_index, lemma_sparse_slot, sparse_at};
use vstd::prelude::*;

verus! {

/// Whether two lists of entries have the same keys, in any order.
pub open spec fn keys_alike<K: View, V, W>(a: Seq<Pair<K, V>>, b: Seq<Pair<K, W>>) -> bool {
    forall|key: K::V| (#[trigger] find(a, key) is Some) == (find(b, key) is Some)
}

/// Whether two nodes are built alike: the same slots hold entries of the same
/// keys, the same slots hold children that are built alike, and where all hashes
/// are equal the same keys stand together, in any order.
pub open spec fn same_form<K: View, V, W>(a: ChampNode<K, V>, b: ChampNode<K, W>) -> bool
    decreases a,
{
    match (a, b) {
        (ChampNode::Inner(x), ChampNode::Inner(y)) => {
            &&& x.datamap == y.datamap
            &&& x.nodemap == y.nodemap
            &&& x.values@.len() == y.values@.len()
            &&& forall|i: int|
                0 <= i < x.values@.len() ==> (*(#[trigger] x.values@[i]).0)@ == (*y.values@[i].0)@
            &&& x.children@.len() == y.children@.len()
            &&& forall|i: int|
                0 <= i < x.children@.len() ==> same_form(
                    *#[trigger] x.children@[i],
                    *y.children@[i],
                )
        },
        (ChampNode::Collision(x), ChampNode::Collision(y)) => {
            &&& x.hash == y.hash
            &&& keys_alike(x.entries@, y.entries@)
        },
        _ => false,
    }
}

/// Whether two nodes at one depth hold the same keys.
pub open spec fn holds_alike<S, K: HashKey<S>, V, W>(
    a: ChampNode<K, V>,
    b: ChampNode<K, W>,
    state: S,
    depth: nat,
) -> bool {
    forall|key: K::V|
        (#[trigger] a.at(state, key, depth) is Some) == (b.at(state, key, depth) is Some)
}

/// Bitmaps with the same slots set are equal.
proof fn lemma_bitmaps(a: u32, b: u32)
    requires
        forall|pos: u32| pos < 32 ==> #[trigger] has_bit(a, pos) == has_bit(b, pos),
    ensures
        a == b,
{
    let both = a ^ b;
    if both == 0 {
        assert(a == b) by (bit_vector)
            requires
                a ^ b == 0,
        ;
    } else {
        let pos = lemma_some_bit(both);
        assert(has_bit(a, pos) != has_bit(b, pos)) by (bit_vector)
            requires
                pos < 32,
                (a ^ b) & (1u32 << pos) != 0,
        ;
    }
}

/// A child holds two keys, both of its slot.
proof fn lemma_two_keys<S, K: HashKey<S>, V>(
    inner: InnerNode<K, V>,
    state: S,
    path: Seq<u32>,
    pos: u32,
) -> (keys: (K::V, K::V))
    requires
        ChampNode::Inner(inner).wf(state, path),
        pos < 32,
        has_bit(inner.nodemap, pos),
    ensures
        keys.0 != keys.1,
        slot(K::hash_in(keys.0, state), path.len()) == pos,
        slot(K::hash_in(keys.1, state), path.len()) == pos,
        ChampNode::Inner(inner).at(state, keys.0, path.len()) is Some,
        ChampNode::Inner(inner).at(state, keys.1, path.len()) is Some,
{
    lemma_sparse_index(inner.nodemap, inner.children@, pos);
    let child = inner.children@[rank(inner.nodemap, pos as nat) as int];
    assert(child.wf(state, path.push(pos)) && child.big());
    let entries = inside(child).entries();
    lemma_entries(inside(child), state, path.push(pos));
    lemma_big_entries(inside(child), state, path.push(pos));
    let a = (*entries[0].0)@;
    let b = (*entries[1].0)@;
    lemma_find(entries, 0);
    lemma_find(entries, 1);
    lemma_path_step(K::hash_in(a, state), path, pos);
    lemma_path_step(K::hash_in(b, state), path, pos);
    assert(find(entries, a) == child.at(state, a, path.push(pos).len()));
    assert(find(entries, b) == child.at(state, b, path.push(pos).len()));
    assert(!has_bit(inner.datamap, pos));
    (a, b)
}

/// A big node has two entries or more.
proof fn lemma_big_entries<S, K: HashKey<S>, V>(node: ChampNode<K, V>, state: S, path: Seq<u32>)
    requires
        node.wf(state, path),
        node.big(),
    ensures
        node.entries().len() >= 2,
    decreases node,
{
    match node {
        ChampNode::Inner(inner) => {
            if inner.nodemap != 0 {
                lemma_rank_nonzero(inner.nodemap);
                let pos = lemma_sparse_slot(inner.nodemap, inner.children@, 0);
                let child = inner.children@[0];
                assert(child.wf(state, path.push(pos)) && child.big());
                lemma_big_entries(inside(child), state, path.push(pos));
                assert(children_entries(inner.children@).len() >= child.entries().len());
            }
        },
        ChampNode::Collision(_) => {},
    }
}

/// What a slot of a node holds, it holds in a node of the same keys.
proof fn lemma_slot_kind<S, K: HashKey<S>, V, W>(
    x: InnerNode<K, V>,
    y: InnerNode<K, W>,
    state: S,
    path: Seq<u32>,
    pos: u32,
)
    requires
        ChampNode::Inner(x).wf(state, path),
        ChampNode::Inner(y).wf(state, path),
        holds_alike(ChampNode::Inner(x), ChampNode::Inner(y), state, path.len()),
        pos < 32,
    ensures
        has_bit(x.datamap, pos) ==> has_bit(y.datamap, pos),
        has_bit(x.nodemap, pos) ==> has_bit(y.nodemap, pos),
        has_bit(x.datamap, pos) ==> ({
            let i = rank(x.datamap, pos as nat) as int;
            let j = rank(y.datamap, pos as nat) as int;
            (*x.values@[i].0)@ == (*y.values@[j].0)@
        }),
{
    let a = ChampNode::Inner(x);
    let b = ChampNode::Inner(y);
    lemma_sparse_index(x.datamap, x.values@, pos);
    lemma_sparse_index(y.datamap, y.values@, pos);
    lemma_sparse_index(y.nodemap, y.children@, pos);
    if has_bit(x.datamap, pos) {
        let pair = x.values@[rank(x.datamap, pos as nat) as int];
        let key = (*pair.0)@;
        assert(sparse_at(x.datamap, x.values@, pos) == Some(pair));
        lemma_path_step(K::hash_in(key, state), path, pos);
        assert(a.at(state, key, path.len()) is Some);
        if has_bit(y.nodemap, pos) {
            let (one, two) = lemma_two_keys(y, state, path, pos);
            assert(a.at(state, one, path.len()) is Some);
            assert(a.at(state, two, path.len()) is Some);
        }
    }
    if has_bit(x.nodemap, pos) {
        let (one, two) = lemma_two_keys(x, state, path, pos);
        assert(a.at(state, one, path.len()) is Some);
        assert(a.at(state, two, path.len()) is Some);
        assert(b.at(state, one, path.len()) is Some);
        assert(b.at(state, two, path.len()) is Some);
    }
}

/// Children of one slot in nodes of the same keys hold the same keys.
proof fn lemma_children_hold<S, K: HashKey<S>, V, W>(
    x: InnerNode<K, V>,
    y: InnerNode<K, W>,
    state: S,
    path: Seq<u32>,
    pos: u32,
)
    requires
        ChampNode::Inner(x).wf(state, path),
        ChampNode::Inner(y).wf(state, path),
        holds_alike(ChampNode::Inner(x), ChampNode::Inner(y), state, path.len()),
        pos < 32,
        has_bit(x.nodemap, pos),
        has_bit(y.nodemap, pos),
        rank(x.nodemap, pos as nat) < x.children@.len(),
        rank(y.nodemap, pos as nat) < y.children@.len(),
    ensures
        holds_alike(
            *x.children@[rank(x.nodemap, pos as nat) as int],
            *y.children@[rank(y.nodemap, pos as nat) as int],
            state,
            path.push(pos).len(),
        ),
{
    let a = ChampNode::Inner(x);
    let b = ChampNode::Inner(y);
    let c = inside(x.children@[rank(x.nodemap, pos as nat) as int]);
    let d = inside(y.children@[rank(y.nodemap, pos as nat) as int]);
    assert(c.wf(state, path.push(pos)));
    assert(d.wf(state, path.push(pos)));
    lemma_entries(c, state, path.push(pos));
    lemma_entries(d, state, path.push(pos));
    assert(!has_bit(x.datamap, pos) && !has_bit(y.datamap, pos));
    let depth = path.push(pos).len();
    assert forall|key: K::V|
        (#[trigger] c.at(state, key, depth) is Some) == (d.at(state, key, depth) is Some) by {
        let hash = K::hash_in(key, state);
        assert(find(c.entries(), key) == c.at(state, key, depth));
        assert(find(d.entries(), key) == d.at(state, key, depth));
        if find(c.entries(), key) is Some {
            let i = lemma_found(c.entries(), key);
            assert(on_path_of(c, i, state, path.push(pos)));
        }
        if find(d.entries(), key) is Some {
            let i = lemma_found(d.entries(), key);
            assert(on_path_of(d, i, state, path.push(pos)));
        }
        lemma_path_step(hash, path, pos);
        if slot(hash, path.len()) == pos {
            assert(a.at(state, key, path.len()) == c.at(state, key, depth));
            assert(b.at(state, key, path.len()) == d.at(state, key, depth));
        }
    }
}

/// Whether the key of an entry has a hash on a path.
spec fn on_path_of<S, K: HashKey<S>, V>(
    node: ChampNode<K, V>,
    i: int,
    state: S,
    path: Seq<u32>,
) -> bool {
    crate::bits::on_path(K::hash_in((*node.entries()[i].0)@, state), path)
}

/// Nodes in the same place that hold the same keys have the same slots, with the
/// same keys in them.
proof fn lemma_slots_alike<S, K: HashKey<S>, V, W>(
    x: InnerNode<K, V>,
    y: InnerNode<K, W>,
    state: S,
    path: Seq<u32>,
)
    requires
        ChampNode::Inner(x).wf(state, path),
        ChampNode::Inner(y).wf(state, path),
        holds_alike(ChampNode::Inner(x), ChampNode::Inner(y), state, path.len()),
    ensures
        x.datamap == y.datamap,
        x.nodemap == y.nodemap,
        x.values@.len() == y.values@.len(),
        forall|i: int|
            0 <= i < x.values@.len() ==> (*(#[trigger] x.values@[i]).0)@ == (*y.values@[i].0)@,
{
    assert forall|pos: u32| pos < 32 implies #[trigger] has_bit(x.datamap, pos) == has_bit(
        y.datamap,
        pos,
    ) by {
        lemma_slot_kind(x, y, state, path, pos);
        lemma_slot_kind(y, x, state, path, pos);
    }
    assert forall|pos: u32| pos < 32 implies #[trigger] has_bit(x.nodemap, pos) == has_bit(
        y.nodemap,
        pos,
    ) by {
        lemma_slot_kind(x, y, state, path, pos);
        lemma_slot_kind(y, x, state, path, pos);
    }
    lemma_bitmaps(x.datamap, y.datamap);
    lemma_bitmaps(x.nodemap, y.nodemap);
    assert forall|i: int| 0 <= i < x.values@.len() implies (*(#[trigger] x.values@[i]).0)@ == (
    *y.values@[i].0)@ by {
        let pos = lemma_sparse_slot(x.datamap, x.values@, i);
        lemma_slot_kind(x, y, state, path, pos);
    }
}

/// The canonical form: nodes in the same place that hold the same keys are built
/// alike, whatever insertions and removals led to them.
pub proof fn law_canonical<S, K: HashKey<S>, V, W>(
    a: ChampNode<K, V>,
    b: ChampNode<K, W>,
    state: S,
    path: Seq<u32>,
)
    requires
        a.wf(state, path),
        b.wf(state, path),
        holds_alike(a, b, state, path.len()),
    ensures
        same_form(a, b),
    decreases a,
{
    match (a, b) {
        (ChampNode::Inner(x), ChampNode::Inner(y)) => {
            lemma_slots_alike(x, y, state, path);
            assert forall|i: int| 0 <= i < x.children@.len() implies same_form(
                *#[trigger] x.children@[i],
                *y.children@[i],
            ) by {
                let pos = lemma_sparse_slot(x.nodemap, x.children@, i);
                lemma_children_hold(x, y, state, path, pos);
                assert(x.children@[i].wf(state, path.push(pos)));
                assert(y.children@[i].wf(state, path.push(pos)));
                law_canonical(inside(x.children@[i]), inside(y.children@[i]), state, path.push(pos));
            }
        },
        (ChampNode::Collision(x), ChampNode::Collision(y)) => {
            lemma_full_path(x.hash, y.hash, path);
            assert forall|key: K::V| (#[trigger] find(x.entries@, key) is Some) == (find(
                y.entries@,
                key,
            ) is Some) by {
                assert(a.at(state, key, path.len()) == find(x.entries@, key));
                assert(b.at(state, key, path.len()) == find(y.entries@, key));
            }
        },
        _ => {},
    }
}

/// Whether no two keys of a list of entries have the same hash.
pub open spec fn hashes_differ<S, K: HashKey<S>, V>(pairs: Seq<Pair<K, V>>, state: S) -> bool {
    forall|one: K::V, two: K::V|
        #![trigger find(pairs, one), find(pairs, two)]
        find(pairs, one) is Some && find(pairs, two) is Some && K::hash_in(one, state)
            == K::hash_in(two, state) ==> one == two
}

/// What a child holds, its node holds.
proof fn lemma_child_key<S, K: HashKey<S>, V>(
    x: InnerNode<K, V>,
    state: S,
    path: Seq<u32>,
    pos: u32,
    key: K::V,
)
    requires
        ChampNode::Inner(x).wf(state, path),
        pos < 32,
        has_bit(x.nodemap, pos),
        rank(x.nodemap, pos as nat) < x.children@.len(),
        find(x.children@[rank(x.nodemap, pos as nat) as int].entries(), key) is Some,
    ensures
        find(ChampNode::Inner(x).entries(), key) is Some,
{
    let a = ChampNode::Inner(x);
    let c = inside(x.children@[rank(x.nodemap, pos as nat) as int]);
    assert(c.wf(state, path.push(pos)));
    assert(!has_bit(x.datamap, pos));
    lemma_entries(a, state, path);
    lemma_entries(c, state, path.push(pos));
    let i = lemma_found(c.entries(), key);
    assert(on_path_of(c, i, state, path.push(pos)));
    lemma_path_step(K::hash_in(key, state), path, pos);
    assert(find(c.entries(), key) == c.at(state, key, path.push(pos).len()));
    assert(find(a.entries(), key) == a.at(state, key, path.len()));
}

/// Where no two keys have the same hash, nodes that are built alike have their
/// entries in the same order.
proof fn lemma_form_shape<S, K: HashKey<S>, V, W>(
    a: ChampNode<K, V>,
    b: ChampNode<K, W>,
    state: S,
    path: Seq<u32>,
)
    requires
        a.wf(state, path),
        same_form(a, b),
        hashes_differ(a.entries(), state),
    ensures
        same_shape(a, b),
    decreases a,
{
    match (a, b) {
        (ChampNode::Inner(x), ChampNode::Inner(y)) => {
            assert forall|i: int| 0 <= i < y.values@.len() implies (*(
            #[trigger] y.values@[i]).0)@ == (*x.values@[i].0)@ by {
                assert((*x.values@[i].0)@ == (*y.values@[i].0)@);
            }
            assert forall|i: int| 0 <= i < x.children@.len() implies same_shape(
                *#[trigger] x.children@[i],
                *y.children@[i],
            ) by {
                let pos = lemma_sparse_slot(x.nodemap, x.children@, i);
                let child = inside(x.children@[i]);
                assert(child.wf(state, path.push(pos)));
                assert(same_form(*x.children@[i], *y.children@[i]));
                assert forall|one: K::V, two: K::V|
                    #![trigger find(child.entries(), one), find(child.entries(), two)]
                    find(child.entries(), one) is Some && find(child.entries(), two) is Some
                        && K::hash_in(one, state) == K::hash_in(two, state) implies one == two by {
                    lemma_child_key(x, state, path, pos, one);
                    lemma_child_key(x, state, path, pos, two);
                }
                lemma_form_shape(child, inside(y.children@[i]), state, path.push(pos));
            }
        },
        (ChampNode::Collision(x), ChampNode::Collision(y)) => {
            lemma_find(x.entries@, 0);
            lemma_find(x.entries@, 1);
            let one = (*x.entries@[0].0)@;
            let two = (*x.entries@[1].0)@;
            assert(find(a.entries(), one) is Some && find(a.entries(), two) is Some);
            assert(false);
        },
        _ => {},
    }
}

/// Where no two keys have the same hash, nodes in the same place that hold the
/// same keys have their entries in the same places and in the same order.
pub proof fn law_canonical_order<S, K: HashKey<S>, V, W>(
    a: ChampNode<K, V>,
    b: ChampNode<K, W>,
    state: S,
    path: Seq<u32>,
)
    requires
        a.wf(state, path),
        b.wf(state, path),
        holds_alike(a, b, state, path.len()),
        hashes_differ(a.entries(), state),
    ensures
        same_shape(a, b),
{
    law_canonical(a, b, state, path);
    lemma_form_shape(a, b, state, path);
}

/// A collision node stands in a node just where two of its keys have the same
/// hash.
pub proof fn law_collision<S, K: HashKey<S>, V>(node: ChampNode<K, V>, state: S, path: Seq<u32>)
    requires
        node.wf(state, path),
    ensures
        node.collides() == !hashes_differ(node.entries(), state),
    decreases node,
{
    lemma_entries(node, state, path);
    match node {
        ChampNode::Inner(x) => {
            if node.collides() {
                let i = choose|i: int|
                    0 <= i < x.children@.len() && (#[trigger] x.children@[i]).collides();
                let pos = lemma_sparse_slot(x.nodemap, x.children@, i);
                let child = inside(x.children@[i]);
                assert(child.wf(state, path.push(pos)));
                law_collision(child, state, path.push(pos));
                let (one, two) = choose|one: K::V, two: K::V|
                    #![trigger find(child.entries(), one), find(child.entries(), two)]
                    find(child.entries(), one) is Some && find(child.entries(), two) is Some
                        && K::hash_in(one, state) == K::hash_in(two, state) && one != two;
                lemma_child_key(x, state, path, pos, one);
                lemma_child_key(x, state, path, pos, two);
            } else {
                assert forall|one: K::V, two: K::V|
                    #![trigger find(node.entries(), one), find(node.entries(), two)]
                    find(node.entries(), one) is Some && find(node.entries(), two) is Some
                        && K::hash_in(one, state) == K::hash_in(two, state) implies one == two by {
                    let pos = slot(K::hash_in(one, state), path.len());
                    lemma_slot_range(K::hash_in(one, state), path.len());
                    lemma_sparse_index(x.datamap, x.values@, pos);
                    lemma_sparse_index(x.nodemap, x.children@, pos);
                    assert(find(node.entries(), one) == node.at(state, one, path.len()));
                    assert(find(node.entries(), two) == node.at(state, two, path.len()));
                    if sparse_at(x.datamap, x.values@, pos) is None {
                        let i = rank(x.nodemap, pos as nat) as int;
                        let child = inside(x.children@[i]);
                        assert(child.wf(state, path.push(pos)));
                        assert(!x.children@[i].collides());
                        law_collision(child, state, path.push(pos));
                        lemma_entries(child, state, path.push(pos));
                        assert(find(child.entries(), one) == child.at(
                            state,
                            one,
                            path.push(pos).len(),
                        ));
                        assert(find(child.entries(), two) == child.at(
                            state,
                            two,
                            path.push(pos).len(),
                        ));
                    }
                }
            }
        },
        ChampNode::Collision(x) => {
            lemma_find(x.entries@, 0);
            lemma_find(x.entries@, 1);
            let one = (*x.entries@[0].0)@;
            let two = (*x.entries@[1].0)@;
            assert(one != two);
            assert(find(node.entries(), one) is Some && find(node.entries(), two) is Some);
        },
    }
}

} // verus!
