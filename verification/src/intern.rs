//! Deduplication of trie nodes.
//!
//! A pool holds nodes under the fingerprint of their keys. A node that goes in is
//! exchanged for an equal one that the pool holds, so that tries with equal parts
//! share them in memory.
use crate::entries::{children_entries, lemma_children_join, lemma_one_child};
use crate::equal_nodes::{equal_nodes, equal_values, nodes_equal};
use crate::equal_nodes::{
    lemma_children_values, lemma_equal_self, lemma_shape_self, lemma_values_join,
};
use crate::fingerprint::wrap_add;
use crate::hash_key::HashKey;
use crate::hash_map_query::{equivalence, lawful_eq};
use crate::hash_set::Member;
use crate::hash_width::{fmix64, fmix64_spec};
use crate::node::{copy_pairs, ChampNode, CollisionNode, InnerNode, Pair};
use crate::shape::lemma_shape_entries;
use crate::shape::{same_keys, same_shape};
use crate::shared::{inside, share};
use std::collections::HashMap as StdHashMap;
use std::sync::Arc;
use vstd::prelude::*;
use vstd::std_specs::cmp::PartialEqSpec;

verus! {

/// `Arc::strong_count`: how many pointers to the value exist. The number depends
/// on the rest of the program, so nothing is stated of it.
#[verifier::external_body]
pub(crate) fn strong_count<T>(ptr: &Arc<T>) -> (n: usize) {
    Arc::strong_count(ptr)
}

/// Whether a number is one that counting the pointers to a value may give: one
/// that `Arc::strong_count` may return for it. Only a call gives such a number.
pub closed spec fn may_count<T>(ptr: Arc<T>, n: usize) -> bool {
    call_ensures(strong_count::<T>, (&ptr,), n)
}

/// What may be counted is what `Arc::strong_count` may return, and no other number.
pub(crate) proof fn law_counted_by_call<T>(ptr: &Arc<T>, n: usize)
    ensures
        may_count(*ptr, n) <==> call_ensures(strong_count::<T>, (ptr,), n),
{
}

/// Statistics about the use of a pool. The counts stop at `u64::MAX`.
#[derive(Clone, Copy, Debug)]
pub struct InternStats {
    /// How often an equal node was found.
    pub hits: u64,
    /// How often a node was stored.
    pub misses: u64,
    /// How many nodes were evicted.
    pub evictions: u64,
}

/// A count with something added, up to `u64::MAX`.
pub open spec fn sat(count: u64, more: nat) -> u64 {
    if count + more <= u64::MAX {
        (count + more) as u64
    } else {
        u64::MAX
    }
}

/// The fingerprint of a list of keys: the sum of their mixed hashes.
pub open spec fn list_merkle<S, K: HashKey<S>, V>(pairs: Seq<Pair<K, V>>, state: S) -> u64
    decreases pairs.len(),
{
    if pairs.len() == 0 {
        0
    } else {
        wrap_add(
            list_merkle(pairs.drop_last(), state),
            fmix64_spec(K::hash_in((*pairs.last().0)@, state)),
        )
    }
}

/// Fingerprints of two lists add up.
proof fn lemma_merkle_join<S, K: HashKey<S>, V>(
    a: Seq<Pair<K, V>>,
    b: Seq<Pair<K, V>>,
    state: S,
)
    ensures
        list_merkle(a + b, state) == wrap_add(list_merkle(a, state), list_merkle(b, state)),
    decreases b.len(),
{
    if b.len() == 0 {
        assert(a + b =~= a);
    } else {
        lemma_merkle_join(a, b.drop_last(), state);
        assert((a + b).drop_last() =~= a + b.drop_last());
        assert((a + b).last() == b.last());
    }
}

/// Lists of the same keys have one fingerprint.
pub(crate) proof fn lemma_merkle_same<S, K: HashKey<S>, V, W>(
    a: Seq<Pair<K, V>>,
    b: Seq<Pair<K, W>>,
    state: S,
)
    requires
        same_keys(a, b),
    ensures
        list_merkle(a, state) == list_merkle(b, state),
    decreases a.len(),
{
    if a.len() > 0 {
        let n = a.len() - 1;
        assert((*b[n].0)@ == (*a[n].0)@);
        let c = a.drop_last();
        let d = b.drop_last();
        assert forall|i: int| 0 <= i < c.len() implies (*(#[trigger] d[i]).0)@ == (*c[i].0)@ by {
            assert((*b[i].0)@ == (*a[i].0)@);
        }
        lemma_merkle_same(c, d, state);
    }
}

/// Number of nodes of a list of buckets.
pub open spec fn bucket_total<T>(buckets: Seq<Vec<T>>) -> nat
    decreases buckets.len(),
{
    if buckets.len() == 0 {
        0
    } else {
        bucket_total(buckets.drop_last()) + buckets.last()@.len()
    }
}

proof fn lemma_total_push<T>(buckets: Seq<Vec<T>>, bucket: Vec<T>)
    ensures
        bucket_total(buckets.push(bucket)) == bucket_total(buckets) + bucket@.len(),
{
    assert(buckets.push(bucket).drop_last() =~= buckets);
}

proof fn lemma_total_update<T>(buckets: Seq<Vec<T>>, i: int, bucket: Vec<T>)
    requires
        0 <= i < buckets.len(),
    ensures
        bucket_total(buckets.update(i, bucket)) + buckets[i]@.len() == bucket_total(buckets)
            + bucket@.len(),
        buckets[i]@.len() <= bucket_total(buckets),
    decreases buckets.len(),
{
    let n = buckets.len() - 1;
    if i == n {
        assert(buckets.update(i, bucket).drop_last() =~= buckets.drop_last());
    } else {
        lemma_total_update(buckets.drop_last(), i, bucket);
        assert(buckets.update(i, bucket).drop_last() =~= buckets.drop_last().update(i, bucket));
    }
}

/// A pool of nodes.
pub struct InternPool<K, V> {
    /// Where the nodes of a fingerprint stand.
    index: StdHashMap<u64, usize>,
    /// The fingerprints of the buckets.
    hashes: Vec<u64>,
    /// The nodes, by fingerprint.
    buckets: Vec<Vec<Arc<ChampNode<K, V>>>>,
    stats: InternStats,
}

/// A pool of nodes of sets.
pub type HashSetInternPool<A> = InternPool<A, Member>;

impl<K, V> InternPool<K, V> {
    /// The nodes that the pool holds under a fingerprint.
    pub closed spec fn held(self, hash: u64) -> Seq<Arc<ChampNode<K, V>>> {
        if self.index@.contains_key(hash) {
            self.buckets@[self.index@[hash] as int]@
        } else {
            Seq::empty()
        }
    }

    /// Number of nodes.
    pub closed spec fn total(self) -> nat {
        bucket_total(self.buckets@)
    }

    /// The fingerprints under which the pool holds nodes, in the order in which
    /// the pool walks them.
    pub closed spec fn order(self) -> Seq<u64> {
        self.hashes@
    }

    /// The statistics.
    pub closed spec fn counts(self) -> InternStats {
        self.stats
    }

    /// Whether the index finds each bucket, and nothing else.
    pub closed spec fn wf(self) -> bool {
        &&& self.hashes@.len() == self.buckets@.len()
        &&& forall|hash: u64| #[trigger]
            self.index@.contains_key(hash) ==> self.index@[hash] < self.buckets@.len()
                && self.hashes@[self.index@[hash] as int] == hash
        &&& forall|i: int|
            0 <= i < self.hashes@.len() ==> self.index@.contains_key(#[trigger] self.hashes@[i])
                && self.index@[self.hashes@[i]] == i
    }

    /// An empty pool.
    pub fn new() -> (pool: Self)
        ensures
            pool.wf(),
            pool.total() == 0,
            forall|hash: u64| #[trigger] pool.held(hash).len() == 0,
            pool.counts() == (InternStats { hits: 0, misses: 0, evictions: 0 }),
    {
        InternPool {
            index: StdHashMap::new(),
            hashes: Vec::new(),
            buckets: Vec::new(),
            stats: InternStats { hits: 0, misses: 0, evictions: 0 },
        }
    }

    /// Number of nodes.
    pub fn len(&self) -> (n: usize)
        ensures
            n == if self.total() <= usize::MAX {
                self.total()
            } else {
                usize::MAX as nat
            },
    {
        let mut n: usize = 0;
        let mut i: usize = 0;
        proof {
            assert(self.buckets@.take(0) =~= Seq::<Vec<Arc<ChampNode<K, V>>>>::empty());
        }
        while i < self.buckets.len()
            invariant
                i <= self.buckets@.len(),
                n == if bucket_total(self.buckets@.take(i as int)) <= usize::MAX {
                    bucket_total(self.buckets@.take(i as int))
                } else {
                    usize::MAX as nat
                },
            decreases self.buckets@.len() - i,
        {
            proof {
                assert(self.buckets@.take(i + 1).drop_last() =~= self.buckets@.take(i as int));
            }
            n = n.saturating_add(self.buckets[i].len());
            i += 1;
        }
        proof {
            assert(self.buckets@.take(self.buckets@.len() as int) =~= self.buckets@);
        }
        n
    }

    /// Whether the pool holds no nodes.
    pub fn is_empty(&self) -> (empty: bool)
        ensures
            empty == (self.total() == 0),
    {
        self.len() == 0
    }

    /// The statistics.
    pub fn stats(&self) -> (stats: &InternStats)
        ensures
            *stats == self.counts(),
    {
        &self.stats
    }
}

impl<K, V> Default for InternPool<K, V> {
    fn default() -> (pool: Self)
        ensures
            pool.wf(),
            pool.total() == 0,
            forall|hash: u64| #[trigger] pool.held(hash).len() == 0,
            pool.counts() == (InternStats { hits: 0, misses: 0, evictions: 0 }),
    {
        InternPool::new()
    }
}

/// Where a list of nodes has the first one that is equal to a given one: the
/// length of the list where there is none.
pub open spec fn first_equal<K: View, V: PartialEq>(
    nodes: Seq<Arc<ChampNode<K, V>>>,
    node: ChampNode<K, V>,
) -> nat
    decreases nodes.len(),
{
    if nodes.len() == 0 {
        0
    } else if equal_nodes(*nodes[0], node) {
        0
    } else {
        1 + first_equal(nodes.skip(1), node)
    }
}

proof fn lemma_first_equal<K: View, V: PartialEq>(
    nodes: Seq<Arc<ChampNode<K, V>>>,
    node: ChampNode<K, V>,
    n: int,
)
    requires
        0 <= n <= nodes.len(),
        forall|i: int| 0 <= i < n ==> !equal_nodes(*#[trigger] nodes[i], node),
        n < nodes.len() ==> equal_nodes(*nodes[n], node),
    ensures
        first_equal(nodes, node) == n,
    decreases n,
{
    if n > 0 {
        assert(!equal_nodes(*nodes[0], node));
        let rest = nodes.skip(1);
        assert forall|i: int| 0 <= i < n - 1 implies !equal_nodes(*#[trigger] rest[i], node) by {
            assert(!equal_nodes(*nodes[i + 1], node));
        }
        lemma_first_equal(rest, node, n - 1);
    }
}

/// A list of nodes that has an equal one has a first equal one.
proof fn lemma_first_found<K: View, V: PartialEq>(
    nodes: Seq<Arc<ChampNode<K, V>>>,
    node: ChampNode<K, V>,
)
    ensures
        first_equal(nodes, node) <= nodes.len(),
        forall|i: int|
            0 <= i < nodes.len() && equal_nodes(*#[trigger] nodes[i], node) ==> first_equal(
                nodes,
                node,
            ) <= i,
    decreases nodes.len(),
{
    if nodes.len() > 0 {
        let rest = nodes.skip(1);
        lemma_first_found(rest, node);
        assert forall|i: int|
            0 <= i < nodes.len() && equal_nodes(*#[trigger] nodes[i], node) implies first_equal(
            nodes,
            node,
        ) <= i by {
            if i > 0 {
                assert(equal_nodes(*rest[i - 1], node));
            }
        }
    }
}

impl<K, V> InternPool<K, V> {
    /// Exchanges a node for the first equal one that the pool holds under a
    /// fingerprint. Where there is none, the node itself goes into the pool.
    pub(crate) fn intern_one<S>(&mut self, hash: u64, node: Arc<ChampNode<K, V>>) -> (shared: Arc<
        ChampNode<K, V>,
    >) where K: HashKey<S>, V: PartialEq
        requires
            old(self).wf(),
        ensures
            final(self).wf(),
            same_shape(*shared, *node),
            grown(*old(self), *final(self), 1),
            final(self).held(hash).contains(shared),
            lawful_eq::<V>() ==> looked_up(*old(self), *final(self), hash, node, shared),
    {
        broadcast use vstd::std_specs::hash::group_hash_axioms;

        let ghost before = *self;
        let known = match self.index.get(&hash) {
            Some(at) => Some(*at),
            None => None,
        };
        match known {
            Some(at) => {
                let mut i: usize = 0;
                while i < self.buckets[at].len()
                    invariant
                        *self == before,
                        before == *old(self),
                        before.wf(),
                        before.index@.contains_key(hash),
                        at == before.index@[hash],
                        at < self.buckets@.len(),
                        i <= self.buckets@[at as int]@.len(),
                        lawful_eq::<V>() ==> forall|j: int|
                            0 <= j < i ==> !equal_nodes(*#[trigger] before.held(hash)[j], *node),
                    decreases self.buckets@[at as int]@.len() - i,
                {
                    if nodes_equal::<S, K, V>(&*self.buckets[at][i], &*node) {
                        let shared = share(&self.buckets[at][i]);
                        self.stats.hits = self.stats.hits.saturating_add(1);
                        proof {
                            assert(self.held(hash)[i as int] == shared);
                            lemma_only_counted(before, *self);
                            if lawful_eq::<V>() {
                                lemma_first_equal(before.held(hash), inside(node), i as int);
                            }
                        }
                        return shared;
                    }
                    i += 1;
                }
                proof {
                    if lawful_eq::<V>() {
                        lemma_first_equal(before.held(hash), inside(node), i as int);
                    }
                }
                let copy = share(&node);
                proof {
                    lemma_shape_self(inside(node));
                }
                self.buckets[at].push(copy);
                self.stats.misses = self.stats.misses.saturating_add(1);
                proof {
                    lemma_total_update(before.buckets@, at as int, self.buckets@[at as int]);
                    assert(self.buckets@ =~= before.buckets@.update(
                        at as int,
                        self.buckets@[at as int],
                    ));
                    assert(self.held(hash) =~= before.held(hash).push(node));
                    assert forall|other: u64| other != hash implies #[trigger] self.held(other)
                        == before.held(other) by {
                        if before.index@.contains_key(other) {
                            assert(before.index@[other] != at);
                        }
                    }
                    lemma_one_more(before, *self, hash, node);
                }
                node
            },
            None => {
                let at: usize = self.buckets.len();
                let mut bucket: Vec<Arc<ChampNode<K, V>>> = Vec::new();
                bucket.push(share(&node));
                let ghost added = bucket;
                self.index.insert(hash, at);
                self.hashes.push(hash);
                self.buckets.push(bucket);
                self.stats.misses = self.stats.misses.saturating_add(1);
                proof {
                    lemma_shape_self(inside(node));
                    lemma_total_push(before.buckets@, added);
                    assert(self.held(hash) =~= before.held(hash).push(node));
                    assert(first_equal(before.held(hash), inside(node)) == 0);
                    assert forall|other: u64| other != hash implies #[trigger] self.held(other)
                        == before.held(other) by {
                        if before.index@.contains_key(other) {
                            assert(self.buckets@[before.index@[other] as int]
                                == before.buckets@[before.index@[other] as int]);
                        }
                    }
                    assert forall|i: int| 0 <= i < self.hashes@.len() implies
                        self.index@.contains_key(#[trigger] self.hashes@[i])
                        && self.index@[self.hashes@[i]] == i by {
                        if i < before.hashes@.len() {
                            assert(self.hashes@[i] == before.hashes@[i]);
                            assert(before.index@.contains_key(before.hashes@[i]));
                        }
                    }
                    lemma_one_more(before, *self, hash, node);
                }
                node
            },
        }
    }
}

/// A hit leaves the nodes as they are.
proof fn lemma_only_counted<K, V>(before: InternPool<K, V>, after: InternPool<K, V>)
    requires
        after.index == before.index,
        after.buckets == before.buckets,
        after.counts() == (InternStats {
            hits: sat(before.counts().hits, 1),
            ..before.counts()
        }),
    ensures
        grown(before, after, 1),
{
    assert forall|hash: u64| #[trigger] before.held(hash).is_prefix_of(after.held(hash)) by {
        assert(before.held(hash) =~= after.held(hash).subrange(0, before.held(hash).len() as int));
    }
}

/// A miss adds a node.
proof fn lemma_one_more<K, V>(
    before: InternPool<K, V>,
    after: InternPool<K, V>,
    hash: u64,
    node: Arc<ChampNode<K, V>>,
)
    requires
        after.total() == before.total() + 1,
        after.counts() == (InternStats {
            misses: sat(before.counts().misses, 1),
            ..before.counts()
        }),
        after.held(hash) == before.held(hash).push(node),
        forall|other: u64| other != hash ==> #[trigger] after.held(other) == before.held(other),
    ensures
        grown(before, after, 1),
        after.held(hash).contains(node),
{
    assert(after.held(hash).last() == node);
    assert forall|other: u64| #[trigger] before.held(other).is_prefix_of(after.held(other)) by {
        assert(before.held(other) =~= after.held(other).subrange(
            0,
            before.held(other).len() as int,
        ));
    }
}

/// Nodes of the shape of one node have one shape.
proof fn lemma_shape_meet<K: View, V>(a: ChampNode<K, V>, b: ChampNode<K, V>, c: ChampNode<K, V>)
    requires
        same_shape(a, b),
        same_shape(c, b),
    ensures
        same_shape(a, c),
    decreases a,
{
    match (a, b, c) {
        (ChampNode::Inner(x), ChampNode::Inner(y), ChampNode::Inner(z)) => {
            assert forall|i: int| 0 <= i < x.values@.len() implies (*(
            #[trigger] z.values@[i]).0)@ == (*x.values@[i].0)@ by {
                assert((*y.values@[i].0)@ == (*x.values@[i].0)@);
                assert((*y.values@[i].0)@ == (*z.values@[i].0)@);
            }
            assert forall|i: int| 0 <= i < x.children@.len() implies same_shape(
                *#[trigger] x.children@[i],
                *z.children@[i],
            ) by {
                assert(same_shape(*x.children@[i], *y.children@[i]));
                assert(same_shape(*z.children@[i], *y.children@[i]));
                lemma_shape_meet(
                    inside(x.children@[i]),
                    inside(y.children@[i]),
                    inside(z.children@[i]),
                );
            }
        },
        (ChampNode::Collision(x), ChampNode::Collision(y), ChampNode::Collision(z)) => {
            assert forall|i: int| 0 <= i < x.entries@.len() implies (*(
            #[trigger] z.entries@[i]).0)@ == (*x.entries@[i].0)@ by {
                assert((*y.entries@[i].0)@ == (*x.entries@[i].0)@);
                assert((*y.entries@[i].0)@ == (*z.entries@[i].0)@);
            }
        },
        _ => {},
    }
}

/// Nodes that are equal to one node are equal.
proof fn lemma_equal_meet<K: View, V: PartialEq>(
    a: ChampNode<K, V>,
    b: ChampNode<K, V>,
    c: ChampNode<K, V>,
)
    requires
        equivalence::<V>(),
        equal_nodes(a, b),
        equal_nodes(c, b),
    ensures
        equal_nodes(a, c),
{
    lemma_shape_meet(a, b, c);
    let x = a.entries();
    let y = b.entries();
    let z = c.entries();
    assert forall|i: int| 0 <= i < x.len() implies (*(#[trigger] x[i]).1).eq_spec(&*z[i].1) by {
        assert((*x[i].1).eq_spec(&*y[i].1));
        assert((*z[i].1).eq_spec(&*y[i].1));
        assert((*y[i].1).eq_spec(&*z[i].1));
    }
}

/// A node that another one is equal to is equal to it.
proof fn lemma_equal_turn<K: View, V: PartialEq>(a: ChampNode<K, V>, b: ChampNode<K, V>)
    requires
        equivalence::<V>(),
        equal_nodes(a, b),
    ensures
        equal_nodes(b, a),
{
    lemma_equal_self(b);
    lemma_equal_meet(b, b, a);
}

/// Number of nodes of a trie.
pub open spec fn node_count<K, V>(node: ChampNode<K, V>) -> nat
    decreases node,
{
    match node {
        ChampNode::Inner(inner) => 1 + children_count(inner.children@),
        ChampNode::Collision(_) => 1,
    }
}

/// Number of nodes of a list of tries.
pub open spec fn children_count<K, V>(children: Seq<Arc<ChampNode<K, V>>>) -> nat
    decreases children,
{
    if children.len() == 0 {
        0
    } else {
        children_count(children.subrange(0, children.len() - 1)) + node_count(*children.last())
    }
}

/// One trie more in a list of tries.
proof fn lemma_child_more<K, V>(front: Seq<Arc<ChampNode<K, V>>>, child: Arc<ChampNode<K, V>>)
    ensures
        children_count(front.push(child)) == children_count(front) + node_count(*child),
        children_entries(front.push(child)) == children_entries(front) + child.entries(),
{
    let longer = front.push(child);
    assert(longer.subrange(0, longer.len() - 1) =~= front);
    assert(longer =~= front + seq![child]);
    lemma_children_join(front, seq![child]);
    lemma_one_child(seq![child]);
}

/// Whether a pool became another one by `n` attempts, each a hit or a miss.
pub open spec fn grown<K, V>(before: InternPool<K, V>, after: InternPool<K, V>, n: nat) -> bool {
    &&& before.total() <= after.total() <= before.total() + n
    &&& after.counts().misses == sat(
        before.counts().misses,
        (after.total() - before.total()) as nat,
    )
    &&& after.counts().hits == sat(
        before.counts().hits,
        (n - (after.total() - before.total())) as nat,
    )
    &&& after.counts().evictions == before.counts().evictions
    &&& forall|hash: u64| #[trigger] before.held(hash).is_prefix_of(after.held(hash))
}

proof fn lemma_grown_self<K, V>(pool: InternPool<K, V>)
    ensures
        grown(pool, pool, 0),
{
    assert forall|hash: u64| #[trigger] pool.held(hash).is_prefix_of(pool.held(hash)) by {
        assert(pool.held(hash) =~= pool.held(hash).subrange(0, pool.held(hash).len() as int));
    }
}

proof fn lemma_grown_join<K, V>(
    a: InternPool<K, V>,
    b: InternPool<K, V>,
    c: InternPool<K, V>,
    n: nat,
    m: nat,
)
    requires
        grown(a, b, n),
        grown(b, c, m),
    ensures
        grown(a, c, n + m),
{
    assert forall|hash: u64| #[trigger] a.held(hash).is_prefix_of(c.held(hash)) by {
        assert(a.held(hash).is_prefix_of(b.held(hash)));
        assert(b.held(hash).is_prefix_of(c.held(hash)));
        assert(a.held(hash) =~= c.held(hash).subrange(0, a.held(hash).len() as int));
    }
}

/// Whether a pool holds a node and all nodes below it, each under its
/// fingerprint.
pub open spec fn all_held<S, K: HashKey<S>, V>(
    pool: InternPool<K, V>,
    node: ChampNode<K, V>,
    state: S,
) -> bool
    decreases node,
{
    &&& pool.held(list_merkle(node.entries(), state)).contains(Arc::new(node))
    &&& match node {
        ChampNode::Inner(inner) => forall|i: int|
            0 <= i < inner.children@.len() ==> all_held(
                pool,
                *#[trigger] inner.children@[i],
                state,
            ),
        ChampNode::Collision(_) => true,
    }
}

/// Whether a pool holds, for a node and for all nodes below it, an equal node
/// under the fingerprint.
pub open spec fn known<S, K: HashKey<S>, V: PartialEq>(
    pool: InternPool<K, V>,
    node: ChampNode<K, V>,
    state: S,
) -> bool
    decreases node,
{
    &&& exists|i: int|
        0 <= i < pool.held(list_merkle(node.entries(), state)).len() && equal_nodes(
            *#[trigger] pool.held(list_merkle(node.entries(), state))[i],
            node,
        )
    &&& match node {
        ChampNode::Inner(inner) => forall|i: int|
            0 <= i < inner.children@.len() ==> known(
                pool,
                *#[trigger] inner.children@[i],
                state,
            ),
        ChampNode::Collision(_) => true,
    }
}

/// Whether a pool knows all of a list of nodes.
pub open spec fn children_known<S, K: HashKey<S>, V: PartialEq>(
    pool: InternPool<K, V>,
    children: Seq<Arc<ChampNode<K, V>>>,
    state: S,
) -> bool {
    forall|i: int| 0 <= i < children.len() ==> known(pool, *#[trigger] children[i], state)
}

/// What a pool knows, it knows when it has grown.
proof fn lemma_known_grows<S, K: HashKey<S>, V: PartialEq>(
    before: InternPool<K, V>,
    after: InternPool<K, V>,
    node: ChampNode<K, V>,
    state: S,
    n: nat,
)
    requires
        grown(before, after, n),
        known(before, node, state),
    ensures
        known(after, node, state),
    decreases node,
{
    let hash = list_merkle(node.entries(), state);
    let nodes = before.held(hash);
    assert(nodes.is_prefix_of(after.held(hash)));
    let i = choose|i: int| 0 <= i < nodes.len() && equal_nodes(*#[trigger] nodes[i], node);
    assert(after.held(hash)[i] == nodes[i]);
    match node {
        ChampNode::Inner(inner) => {
            assert forall|i: int| 0 <= i < inner.children@.len() implies known(
                after,
                *#[trigger] inner.children@[i],
                state,
            ) by {
                assert(known(before, *inner.children@[i], state));
                lemma_known_grows(before, after, inside(inner.children@[i]), state, n);
            }
        },
        ChampNode::Collision(_) => {},
    }
}

/// What a pool holds, it holds when it has grown.
proof fn lemma_held_grows<S, K: HashKey<S>, V>(
    before: InternPool<K, V>,
    after: InternPool<K, V>,
    node: ChampNode<K, V>,
    state: S,
    n: nat,
)
    requires
        grown(before, after, n),
        all_held(before, node, state),
    ensures
        all_held(after, node, state),
    decreases node,
{
    let hash = list_merkle(node.entries(), state);
    let nodes = before.held(hash);
    assert(nodes.is_prefix_of(after.held(hash)));
    let i = choose|i: int| 0 <= i < nodes.len() && nodes[i] == Arc::new(node);
    assert(after.held(hash)[i] == nodes[i]);
    match node {
        ChampNode::Inner(inner) => {
            assert forall|i: int| 0 <= i < inner.children@.len() implies all_held(
                after,
                *#[trigger] inner.children@[i],
                state,
            ) by {
                assert(all_held(before, *inner.children@[i], state));
                lemma_held_grows(before, after, inside(inner.children@[i]), state, n);
            }
        },
        ChampNode::Collision(_) => {},
    }
}

/// The fingerprint of a list of entries.
fn pairs_merkle<S, K: HashKey<S>, V>(pairs: &Vec<Pair<K, V>>, state: &S) -> (hash: u64)
    ensures
        hash == list_merkle(pairs@, *state),
{
    let mut hash: u64 = 0;
    let mut i: usize = 0;
    proof {
        assert(pairs@.take(0) =~= Seq::<Pair<K, V>>::empty());
    }
    while i < pairs.len()
        invariant
            i <= pairs@.len(),
            hash == list_merkle(pairs@.take(i as int), *state),
        decreases pairs@.len() - i,
    {
        proof {
            assert(pairs@.take(i + 1).drop_last() =~= pairs@.take(i as int));
        }
        hash = hash.wrapping_add(fmix64(pairs[i].0.hash_with(state)));
        i += 1;
    }
    proof {
        assert(pairs@.take(pairs@.len() as int) =~= pairs@);
    }
    hash
}

/// A node with children that are equal to those of another node is equal to it.
proof fn lemma_new_children<K: View, V: PartialEq>(
    old_node: InnerNode<K, V>,
    new_node: InnerNode<K, V>,
)
    requires
        equivalence::<V>(),
        old_node.datamap == new_node.datamap,
        old_node.nodemap == new_node.nodemap,
        old_node.values@ == new_node.values@,
        old_node.children@.len() == new_node.children@.len(),
        forall|i: int|
            0 <= i < old_node.children@.len() ==> equal_nodes(
                *#[trigger] old_node.children@[i],
                *new_node.children@[i],
            ),
    ensures
        equal_nodes(ChampNode::Inner(old_node), ChampNode::Inner(new_node)),
{
    let a = old_node.children@;
    let b = new_node.children@;
    assert forall|i: int| 0 <= i < a.len() implies same_shape(*#[trigger] a[i], *b[i])
        && equal_values((*a[i]).entries(), (*b[i]).entries()) by {
        assert(equal_nodes(*a[i], *b[i]));
    }
    lemma_children_values(a, b);
    lemma_values_join(
        old_node.values@,
        children_entries(a),
        new_node.values@,
        children_entries(b),
    );
    assert(equal_values(old_node.values@, new_node.values@));
}

/// Whether a pool holds all nodes of a list of tries.
pub open spec fn children_held<S, K: HashKey<S>, V>(
    pool: InternPool<K, V>,
    children: Seq<Arc<ChampNode<K, V>>>,
    state: S,
) -> bool {
    forall|i: int| 0 <= i < children.len() ==> all_held(pool, *#[trigger] children[i], state)
}

/// Whether tries are equal, one by one.
pub open spec fn children_equal<K: View, V: PartialEq>(
    a: Seq<Arc<ChampNode<K, V>>>,
    b: Seq<Arc<ChampNode<K, V>>>,
) -> bool {
    &&& a.len() == b.len()
    &&& forall|i: int| 0 <= i < a.len() ==> equal_nodes(*#[trigger] a[i], *b[i])
}

/// Whether a pool holds, with each node, all nodes below it: so it is where all
/// its nodes come from maps of one hasher state.
pub open spec fn closed_under<S, K: HashKey<S>, V>(pool: InternPool<K, V>, state: S) -> bool {
    forall|hash: u64, i: int|
        0 <= i < pool.held(hash).len() ==> all_held(pool, *#[trigger] pool.held(hash)[i], state)
}

/// Whether tries have one shape, one by one.
pub open spec fn children_alike<K: View, V>(
    a: Seq<Arc<ChampNode<K, V>>>,
    b: Seq<Arc<ChampNode<K, V>>>,
) -> bool {
    &&& a.len() == b.len()
    &&& forall|i: int| 0 <= i < a.len() ==> same_shape(*#[trigger] a[i], *b[i])
}

/// Whether a pool holds no node twice: no two nodes under one fingerprint are
/// equal.
pub open spec fn no_twins<K: View, V: PartialEq>(pool: InternPool<K, V>) -> bool {
    forall|hash: u64, i: int, j: int|
        0 <= i < j < pool.held(hash).len() ==> !equal_nodes(
            *#[trigger] pool.held(hash)[i],
            *#[trigger] pool.held(hash)[j],
        )
}

/// A pool that holds nothing holds no node twice.
pub proof fn law_empty_no_twins<K: View, V: PartialEq>(pool: InternPool<K, V>)
    requires
        forall|hash: u64| #[trigger] pool.held(hash).len() == 0,
    ensures
        no_twins(pool),
{
}

/// Where a pool holds no node twice, equal nodes that it holds are one and the
/// same: what two tries that it holds have in common, they share.
pub proof fn law_held_once<S, K: HashKey<S>, V: PartialEq>(
    pool: InternPool<K, V>,
    a: ChampNode<K, V>,
    b: ChampNode<K, V>,
    state: S,
)
    requires
        equivalence::<V>(),
        no_twins(pool),
        all_held(pool, a, state),
        all_held(pool, b, state),
        equal_nodes(a, b),
    ensures
        a == b,
{
    lemma_shape_entries(a, b);
    lemma_merkle_same(a.entries(), b.entries(), state);
    lemma_equal_turn(a, b);
    let nodes = pool.held(list_merkle(a.entries(), state));
    let i = choose|i: int| 0 <= i < nodes.len() && nodes[i] == Arc::new(a);
    let j = choose|j: int| 0 <= j < nodes.len() && nodes[j] == Arc::new(b);
    assert(inside(nodes[i]) == a && inside(nodes[j]) == b);
}

/// What it means for a pool to exchange a node for an equal one.
///
/// What the pool makes of each node on the way is said by [`walked`]; here stands
/// what comes of it where `==` is an equivalence.
pub open spec fn exchanged<S, K: HashKey<S>, V: PartialEq>(
    before: InternPool<K, V>,
    after: InternPool<K, V>,
    node: ChampNode<K, V>,
    shared: ChampNode<K, V>,
    state: S,
) -> bool {
    &&& equal_nodes(node, shared)
    &&& after.held(list_merkle(node.entries(), state)).contains(Arc::new(shared))
    &&& grown(before, after, node_count(node))
    &&& closed_under(before, state) ==> closed_under(after, state) && all_held(
        after,
        shared,
        state,
    )
    &&& no_twins(before) ==> no_twins(after)
    &&& known(before, node, state) ==> after.total() == before.total()
}

/// What it means for a pool to exchange a list of nodes for equal ones.
pub open spec fn exchanged_all<S, K: HashKey<S>, V: PartialEq>(
    before: InternPool<K, V>,
    after: InternPool<K, V>,
    nodes: Seq<Arc<ChampNode<K, V>>>,
    shared: Seq<Arc<ChampNode<K, V>>>,
    state: S,
) -> bool {
    &&& children_equal(nodes, shared)
    &&& grown(before, after, children_count(nodes))
    &&& closed_under(before, state) ==> closed_under(after, state) && children_held(
        after,
        shared,
        state,
    )
    &&& no_twins(before) ==> no_twins(after)
    &&& children_known(before, nodes, state) ==> after.total() == before.total()
}

/// What a lookup in a pool does: an equal node is found, or the node goes in.
pub open spec fn looked_up<K: View, V: PartialEq>(
    before: InternPool<K, V>,
    after: InternPool<K, V>,
    hash: u64,
    node: Arc<ChampNode<K, V>>,
    shared: Arc<ChampNode<K, V>>,
) -> bool {
    let nodes = before.held(hash);
    let n = first_equal(nodes, *node);
    &&& forall|other: u64| other != hash ==> #[trigger] after.held(other) == before.held(other)
    &&& if n < nodes.len() {
        &&& shared == nodes[n as int]
        &&& equal_nodes(*shared, *node)
        &&& after.held(hash) == nodes
        &&& after.total() == before.total()
        &&& after.counts() == (InternStats {
            hits: sat(before.counts().hits, 1),
            ..before.counts()
        })
    } else {
        &&& shared == node
        &&& after.held(hash) == nodes.push(node)
        &&& after.total() == before.total() + 1
        &&& after.counts() == (InternStats {
            misses: sat(before.counts().misses, 1),
            ..before.counts()
        })
    }
}

/// How a pool exchanges a node: the nodes below it first, from the first child to
/// the last; then a node with the same entries and the exchanged children is
/// looked up.
pub open spec fn walked<S, K: HashKey<S>, V: PartialEq>(
    before: InternPool<K, V>,
    after: InternPool<K, V>,
    node: ChampNode<K, V>,
    shared: Arc<ChampNode<K, V>>,
    state: S,
) -> bool
    decreases node,
{
    let hash = list_merkle(node.entries(), state);
    match node {
        ChampNode::Inner(inner) => exists|pools: Seq<InternPool<K, V>>, made: InnerNode<K, V>|
            {
                &&& pools.len() == inner.children@.len() + 1
                &&& pools[0] == before
                &&& made.datamap == inner.datamap
                &&& made.nodemap == inner.nodemap
                &&& made.values@ == inner.values@
                &&& made.children@.len() == inner.children@.len()
                &&& forall|i: int|
                    0 <= i < inner.children@.len() ==> walked(
                        pools[i],
                        pools[i + 1],
                        *#[trigger] inner.children@[i],
                        made.children@[i],
                        state,
                    )
                &&& #[trigger] looked_up(
                    pools.last(),
                    after,
                    hash,
                    Arc::new(ChampNode::Inner(made)),
                    shared,
                )
            },
        ChampNode::Collision(coll) => exists|made: CollisionNode<K, V>|
            {
                &&& made.hash == coll.hash
                &&& made.entries@ == coll.entries@
                &&& #[trigger] looked_up(
                    before,
                    after,
                    hash,
                    Arc::new(ChampNode::Collision(made)),
                    shared,
                )
            },
    }
}

/// Whether a pool exchanges the nodes of a list one after the other.
pub open spec fn walked_all<S, K: HashKey<S>, V: PartialEq>(
    pools: Seq<InternPool<K, V>>,
    nodes: Seq<Arc<ChampNode<K, V>>>,
    shared: Seq<Arc<ChampNode<K, V>>>,
    state: S,
) -> bool {
    &&& pools.len() == nodes.len() + 1
    &&& shared.len() == nodes.len()
    &&& forall|i: int|
        0 <= i < nodes.len() ==> walked(
            pools[i],
            pools[i + 1],
            *#[trigger] nodes[i],
            shared[i],
            state,
        )
}

/// A lookup brings no twin in.
proof fn lemma_lookup_no_twins<K: View, V: PartialEq>(
    before: InternPool<K, V>,
    after: InternPool<K, V>,
    hash: u64,
    node: Arc<ChampNode<K, V>>,
    shared: Arc<ChampNode<K, V>>,
)
    requires
        looked_up(before, after, hash, node, shared),
        no_twins(before),
    ensures
        no_twins(after),
{
    let nodes = before.held(hash);
    lemma_first_found(nodes, inside(node));
    assert forall|other: u64, i: int, j: int| 0 <= i < j < after.held(other).len() implies
        !equal_nodes(*#[trigger] after.held(other)[i], *#[trigger] after.held(other)[j]) by {
        if other == hash {
            assert(after.held(hash)[i] == nodes[i]);
            if j < nodes.len() {
                assert(after.held(hash)[j] == nodes[j]);
                assert(!equal_nodes(*before.held(hash)[i], *before.held(hash)[j]));
            } else {
                assert(after.held(hash)[j] == node);
            }
        } else {
            assert(!equal_nodes(*before.held(other)[i], *before.held(other)[j]));
        }
    }
}

/// A lookup is one attempt.
proof fn lemma_lookup_grows<K: View, V: PartialEq>(
    before: InternPool<K, V>,
    after: InternPool<K, V>,
    hash: u64,
    node: Arc<ChampNode<K, V>>,
    shared: Arc<ChampNode<K, V>>,
)
    requires
        looked_up(before, after, hash, node, shared),
    ensures
        grown(before, after, 1),
{
    assert forall|other: u64| #[trigger] before.held(other).is_prefix_of(after.held(other)) by {
        assert(before.held(other) =~= after.held(other).subrange(
            0,
            before.held(other).len() as int,
        ));
    }
}

/// A lookup of a node whose children the pool holds keeps the pool closed.
proof fn lemma_lookup_closed<S, K: HashKey<S>, V: PartialEq>(
    before: InternPool<K, V>,
    after: InternPool<K, V>,
    hash: u64,
    node: Arc<ChampNode<K, V>>,
    shared: Arc<ChampNode<K, V>>,
    state: S,
)
    requires
        looked_up(before, after, hash, node, shared),
        closed_under(before, state),
        hash == list_merkle(node.entries(), state),
        *node matches ChampNode::Inner(inner) ==> children_held(before, inner.children@, state),
    ensures
        closed_under(after, state),
        all_held(after, *shared, state),
{
    lemma_lookup_grows(before, after, hash, node, shared);
    let nodes = before.held(hash);
    let n = first_equal(nodes, inside(node));
    lemma_first_found(nodes, inside(node));
    if n < nodes.len() {
        assert(all_held(before, *before.held(hash)[n as int], state));
    } else {
        assert(after.held(hash)[nodes.len() as int] == node);
        match inside(node) {
            ChampNode::Inner(inner) => {
                assert forall|i: int| 0 <= i < inner.children@.len() implies all_held(
                    after,
                    *#[trigger] inner.children@[i],
                    state,
                ) by {
                    assert(all_held(before, *inner.children@[i], state));
                    lemma_held_grows(before, after, inside(inner.children@[i]), state, 1);
                }
            },
            ChampNode::Collision(_) => {},
        }
        assert(all_held(after, *node, state));
    }
    assert forall|other: u64, i: int| 0 <= i < after.held(other).len() implies all_held(
        after,
        *#[trigger] after.held(other)[i],
        state,
    ) by {
        if i < before.held(other).len() {
            assert(after.held(other)[i] == before.held(other)[i]);
            assert(all_held(before, *before.held(other)[i], state));
            lemma_held_grows(before, after, inside(before.held(other)[i]), state, 1);
        } else {
            assert(other == hash);
            assert(after.held(other)[i] == node);
        }
    }
    if n < nodes.len() {
        assert(all_held(after, *after.held(hash)[n as int], state));
    }
}

/// A pool that holds a node, with all that is below it, knows every equal node:
/// interning one adds nothing to the pool.
pub proof fn law_equal_known<S, K: HashKey<S>, V: PartialEq>(
    pool: InternPool<K, V>,
    a: ChampNode<K, V>,
    b: ChampNode<K, V>,
    state: S,
)
    requires
        equivalence::<V>(),
        all_held(pool, a, state),
        equal_nodes(a, b),
    ensures
        known(pool, b, state),
    decreases a,
{
    lemma_shape_entries(a, b);
    lemma_merkle_same(a.entries(), b.entries(), state);
    let nodes = pool.held(list_merkle(b.entries(), state));
    let i = choose|i: int| 0 <= i < nodes.len() && nodes[i] == Arc::new(a);
    assert(equal_nodes(*nodes[i], b));
    match (a, b) {
        (ChampNode::Inner(x), ChampNode::Inner(y)) => {
            assert forall|i: int| 0 <= i < x.children@.len() implies same_shape(
                *#[trigger] x.children@[i],
                *y.children@[i],
            ) by {}
            lemma_children_values(x.children@, y.children@);
            lemma_values_join(
                x.values@,
                children_entries(x.children@),
                y.values@,
                children_entries(y.children@),
            );
            assert forall|i: int| 0 <= i < y.children@.len() implies known(
                pool,
                *#[trigger] y.children@[i],
                state,
            ) by {
                assert(all_held(pool, *x.children@[i], state));
                assert(same_shape(*x.children@[i], *y.children@[i]));
                law_equal_known(
                    pool,
                    inside(x.children@[i]),
                    inside(y.children@[i]),
                    state,
                );
            }
        },
        _ => {},
    }
}

/// The last step: a node with its children exchanged is looked up.
proof fn lemma_exchange<S, K: HashKey<S>, V: PartialEq>(
    before: InternPool<K, V>,
    middle: InternPool<K, V>,
    after: InternPool<K, V>,
    original: ChampNode<K, V>,
    made: Arc<ChampNode<K, V>>,
    shared: Arc<ChampNode<K, V>>,
    state: S,
    hash: u64,
)
    requires
        equivalence::<V>(),
        equal_nodes(original, *made),
        hash == list_merkle(original.entries(), state),
        grown(before, middle, (node_count(original) - 1) as nat),
        closed_under(before, state) ==> closed_under(middle, state) && (*made
            matches ChampNode::Inner(inner) ==> children_held(middle, inner.children@, state)),
        no_twins(before) ==> no_twins(middle),
        known(before, original, state) ==> middle.total() == before.total(),
        looked_up(middle, after, hash, made, shared),
    ensures
        exchanged(before, after, original, *shared, state),
{
    let bucket = middle.held(hash);
    let n = first_equal(bucket, inside(made));
    lemma_shape_entries(original, inside(made));
    lemma_merkle_same(original.entries(), inside(made).entries(), state);
    lemma_first_found(bucket, inside(made));
    lemma_lookup_grows(middle, after, hash, made, shared);
    lemma_grown_join(before, middle, after, (node_count(original) - 1) as nat, 1);
    if n < bucket.len() {
        lemma_equal_meet(original, inside(made), inside(shared));
        assert(after.held(hash)[n as int] == shared);
    } else {
        assert(after.held(hash).last() == shared);
    }
    if closed_under(before, state) {
        lemma_lookup_closed(middle, after, hash, made, shared, state);
    }
    if no_twins(before) {
        lemma_lookup_no_twins(middle, after, hash, made, shared);
    }
    if known(before, original, state) {
        lemma_known_grows(before, middle, original, state, (node_count(original) - 1) as nat);
        let j = choose|j: int|
            0 <= j < bucket.len() && equal_nodes(*#[trigger] bucket[j], original);
        lemma_equal_turn(original, inside(made));
        lemma_equal_meet(inside(bucket[j]), original, inside(made));
        assert(equal_nodes(*bucket[j], *made));
    }
}

impl<K, V> InternPool<K, V> {
    /// Exchanges a list of nodes, and all nodes below them. Returns the
    /// fingerprint of their keys too.
    fn intern_children<S>(&mut self, children: &Vec<Arc<ChampNode<K, V>>>, state: &S) -> (result: (
        Vec<Arc<ChampNode<K, V>>>,
        u64,
    )) where K: HashKey<S>, V: PartialEq
        requires
            old(self).wf(),
        ensures
            final(self).wf(),
            result.1 == list_merkle(children_entries(children@), *state),
            children_alike(children@, result.0@),
            grown(*old(self), *final(self), children_count(children@)),
            lawful_eq::<V>() ==> exists|pools: Seq<Self>| #[trigger]
                walked_all(pools, children@, result.0@, *state) && pools[0] == *old(self)
                    && pools.last() == *final(self),
            equivalence::<V>() ==> exchanged_all(
                *old(self),
                *final(self),
                children@,
                result.0@,
                *state,
            ),
        decreases *children,
    {
        let ghost before = *self;
        let mut shared: Vec<Arc<ChampNode<K, V>>> = Vec::new();
        let mut hash: u64 = 0;
        let mut i: usize = 0;
        let ghost mut pools = seq![before];
        proof {
            assert(children@.take(0) =~= Seq::<Arc<ChampNode<K, V>>>::empty());
            lemma_grown_self(before);
        }
        while i < children.len()
            invariant
                i <= children@.len(),
                before == *old(self),
                self.wf(),
                hash == list_merkle(children_entries(children@.take(i as int)), *state),
                children_alike(children@.take(i as int), shared@),
                grown(before, *self, children_count(children@.take(i as int))),
                pools.len() == i + 1,
                pools[0] == before,
                pools.last() == *self,
                lawful_eq::<V>() ==> walked_all(
                    pools,
                    children@.take(i as int),
                    shared@,
                    *state,
                ),
                equivalence::<V>() ==> exchanged_all(
                    before,
                    *self,
                    children@.take(i as int),
                    shared@,
                    *state,
                ),
            decreases children@.len() - i,
        {
            let ghost middle = *self;
            let ghost front = children@.take(i as int);
            let ghost first = shared@;
            proof {
                assert(decreases_to!(children => children@));
                assert(decreases_to!(children@ => children@[i as int]));
            }
            let (node, part) = self.intern_tree(&children[i], state);
            hash = hash.wrapping_add(part);
            shared.push(node);
            proof {
                let child = children@[i as int];
                let longer = children@.take(i + 1);
                assert(longer =~= front.push(child));
                assert forall|j: int| 0 <= j < longer.len() implies same_shape(
                    *#[trigger] longer[j],
                    *shared@[j],
                ) by {
                    if j < i {
                        assert(same_shape(*front[j], *first[j]));
                    }
                }
                lemma_child_more(front, child);
                lemma_merkle_join(children_entries(front), inside(child).entries(), *state);
                lemma_grown_join(
                    before,
                    middle,
                    *self,
                    children_count(front),
                    node_count(inside(child)),
                );
                let earlier = pools;
                pools = pools.push(*self);
                if lawful_eq::<V>() {
                    assert forall|j: int| 0 <= j < longer.len() implies walked(
                        pools[j],
                        pools[j + 1],
                        *#[trigger] longer[j],
                        shared@[j],
                        *state,
                    ) by {
                        if j < i {
                            assert(walked(
                                earlier[j],
                                earlier[j + 1],
                                *front[j],
                                first[j],
                                *state,
                            ));
                        }
                    }
                }
                if equivalence::<V>() {
                    lemma_exchange_more(
                        before,
                        middle,
                        *self,
                        front,
                        first,
                        child,
                        node,
                        *state,
                    );
                }
            }
            i += 1;
        }
        proof {
            assert(children@.take(children@.len() as int) =~= children@);
            if lawful_eq::<V>() {
                assert(walked_all(pools, children@, shared@, *state));
            }
        }
        (shared, hash)
    }

    /// Exchanges a node and all nodes below it, from the bottom up, for equal
    /// ones that the pool holds. Returns the fingerprint of the keys too.
    pub(crate) fn intern_tree<S>(&mut self, node: &Arc<ChampNode<K, V>>, state: &S) -> (result: (
        Arc<ChampNode<K, V>>,
        u64,
    )) where K: HashKey<S>, V: PartialEq
        requires
            old(self).wf(),
        ensures
            final(self).wf(),
            result.1 == list_merkle(node.entries(), *state),
            same_shape(**node, *result.0),
            grown(*old(self), *final(self), node_count(**node)),
            final(self).held(result.1).contains(result.0),
            lawful_eq::<V>() ==> walked(*old(self), *final(self), **node, result.0, *state),
            equivalence::<V>() ==> exchanged(
                *old(self),
                *final(self),
                **node,
                *result.0,
                *state,
            ),
        decreases **node,
    {
        let ghost before = *self;
        let ghost original = inside(*node);
        match &**node {
            ChampNode::Inner(inner) => {
                let own: u64 = pairs_merkle(&inner.values, state);
                let (children, below) = self.intern_children(&inner.children, state);
                let hash: u64 = own.wrapping_add(below);
                let ghost middle = *self;
                let fresh = InnerNode {
                    datamap: inner.datamap,
                    nodemap: inner.nodemap,
                    values: copy_pairs(&inner.values),
                    children,
                };
                proof {
                    lemma_merkle_join(inner.values@, children_entries(inner.children@), *state);
                    if equivalence::<V>() {
                        lemma_new_children(*inner, fresh);
                    }
                }
                let made = Arc::new(ChampNode::Inner(fresh));
                let ghost kept = made;
                let shared = self.intern_one::<S>(hash, made);
                proof {
                    lemma_grown_join(
                        before,
                        middle,
                        *self,
                        children_count(inner.children@),
                        1,
                    );
                    if lawful_eq::<V>() {
                        let pools = choose|pools: Seq<Self>| #[trigger]
                            walked_all(pools, inner.children@, fresh.children@, *state)
                                && pools[0] == before && pools.last() == middle;
                        assert(looked_up(
                            pools.last(),
                            *self,
                            hash,
                            Arc::new(ChampNode::Inner(fresh)),
                            shared,
                        ));
                    }
                    assert(same_shape(original, *kept));
                    lemma_shape_meet(original, inside(kept), inside(shared));
                    if equivalence::<V>() {
                        lemma_exchange(
                            before,
                            middle,
                            *self,
                            original,
                            kept,
                            shared,
                            *state,
                            hash,
                        );
                    }
                }
                (shared, hash)
            },
            ChampNode::Collision(coll) => {
                let hash: u64 = pairs_merkle(&coll.entries, state);
                let fresh = CollisionNode { hash: coll.hash, entries: copy_pairs(&coll.entries) };
                let made = Arc::new(ChampNode::Collision(fresh));
                let ghost kept = made;
                let shared = self.intern_one::<S>(hash, made);
                proof {
                    if lawful_eq::<V>() {
                        assert(looked_up(
                            before,
                            *self,
                            hash,
                            Arc::new(ChampNode::Collision(fresh)),
                            shared,
                        ));
                    }
                    assert(same_shape(original, *kept));
                    lemma_shape_meet(original, inside(kept), inside(shared));
                    lemma_grown_self(before);
                    if equivalence::<V>() {
                        lemma_exchange(
                            before,
                            before,
                            *self,
                            original,
                            kept,
                            shared,
                            *state,
                            hash,
                        );
                    }
                }
                (shared, hash)
            },
        }
    }
}

/// One node more is exchanged.
proof fn lemma_exchange_more<S, K: HashKey<S>, V: PartialEq>(
    before: InternPool<K, V>,
    middle: InternPool<K, V>,
    after: InternPool<K, V>,
    front: Seq<Arc<ChampNode<K, V>>>,
    first: Seq<Arc<ChampNode<K, V>>>,
    child: Arc<ChampNode<K, V>>,
    node: Arc<ChampNode<K, V>>,
    state: S,
)
    requires
        exchanged_all(before, middle, front, first, state),
        exchanged(middle, after, *child, *node, state),
    ensures
        exchanged_all(before, after, front.push(child), first.push(node), state),
{
    let longer = front.push(child);
    let made = first.push(node);
    lemma_child_more(front, child);
    lemma_grown_join(before, middle, after, children_count(front), node_count(inside(child)));
    assert forall|i: int| 0 <= i < longer.len() implies equal_nodes(
        *#[trigger] longer[i],
        *made[i],
    ) by {
        if i < front.len() {
            assert(equal_nodes(*front[i], *first[i]));
        }
    }
    if closed_under(before, state) {
        assert forall|i: int| 0 <= i < made.len() implies all_held(
            after,
            *#[trigger] made[i],
            state,
        ) by {
            if i < first.len() {
                assert(all_held(middle, *first[i], state));
                lemma_held_grows(
                    middle,
                    after,
                    inside(first[i]),
                    state,
                    node_count(inside(child)),
                );
            }
        }
    }
    if children_known(before, longer, state) {
        assert forall|i: int| 0 <= i < front.len() implies known(
            before,
            *#[trigger] front[i],
            state,
        ) by {
            assert(known(before, *longer[i], state));
        }
        assert(known(before, *longer[front.len() as int], state));
        lemma_known_grows(before, middle, inside(child), state, children_count(front));
    }
}

/// Whether a pool holds under each fingerprint no more than another one.
pub open spec fn thinned<K, V>(before: InternPool<K, V>, after: InternPool<K, V>) -> bool {
    &&& after.total() <= before.total()
    &&& forall|hash: u64| #[trigger]
        after.held(hash).to_multiset().subset_of(before.held(hash).to_multiset())
}

/// The items of a list that more than one pointer points to.
pub open spec fn shared_items<T>(items: Seq<T>, pointers: Seq<usize>) -> Seq<T>
    decreases items.len(),
{
    if items.len() == 0 {
        Seq::empty()
    } else if pointers[items.len() - 1] > 1 {
        shared_items(items.drop_last(), pointers).push(items.last())
    } else {
        shared_items(items.drop_last(), pointers)
    }
}

/// Whether there is a number for each node of a pool: a list of them for each
/// fingerprint, in the order of the pool.
pub open spec fn counted<K, V>(pool: InternPool<K, V>, pointers: Seq<Vec<usize>>) -> bool {
    &&& pointers.len() == pool.order().len()
    &&& forall|i: int|
        0 <= i < pointers.len() ==> (#[trigger] pointers[i])@.len() == pool.held(
            pool.order()[i],
        ).len()
}

/// Whether each number is one that was counted for the very node that it stands
/// for.
pub open spec fn read_off<K, V>(pool: InternPool<K, V>, pointers: Seq<Vec<usize>>) -> bool {
    forall|i: int, j: int|
        0 <= i < pointers.len() && 0 <= j < pointers[i]@.len() ==> may_count(
            pool.held(pool.order()[i])[j],
            #[trigger] pointers[i]@[j],
        )
}

/// Number of nodes under the first fingerprints of a pool, one for each list of
/// numbers, that more than one pointer points to.
pub open spec fn shared_total<K, V>(pool: InternPool<K, V>, pointers: Seq<Vec<usize>>) -> nat
    decreases pointers.len(),
{
    if pointers.len() == 0 {
        0
    } else {
        shared_total(pool, pointers.drop_last()) + shared_items(
            pool.held(pool.order()[pointers.len() - 1]),
            pointers.last()@,
        ).len()
    }
}

/// Whether a pool holds what stays of another one when the nodes go that no more
/// than one pointer points to, given how many point to each.
pub open spec fn evicted<K, V>(
    before: InternPool<K, V>,
    pointers: Seq<Vec<usize>>,
    after: InternPool<K, V>,
) -> bool {
    &&& forall|i: int|
        0 <= i < pointers.len() ==> after.held(#[trigger] before.order()[i]) == shared_items(
            before.held(before.order()[i]),
            pointers[i]@,
        )
    &&& forall|hash: u64| #[trigger]
        after.held(hash).len() > 0 ==> before.order().contains(hash)
    &&& after.total() == shared_total(before, pointers)
}

/// Whether one pass leads from a pool to another one, with numbers of pointers
/// that were counted for its nodes.
pub open spec fn passed<K, V>(before: InternPool<K, V>, after: InternPool<K, V>) -> bool {
    exists|pointers: Seq<Vec<usize>>|
        counted(before, pointers) && read_off(before, pointers) && #[trigger] evicted(
            before,
            pointers,
            after,
        )
}

/// Whether each pool of a list comes from the one before it by a pass, each pass
/// but the last evicts something, and the last one nothing.
pub open spec fn passes<K, V>(pools: Seq<InternPool<K, V>>) -> bool {
    &&& pools.len() >= 2
    &&& forall|i: int| 0 <= i < pools.len() ==> (#[trigger] pools[i]).wf()
    &&& forall|i: int| 1 <= i < pools.len() ==> passed(pools[i - 1], #[trigger] pools[i])
    &&& forall|i: int|
        1 <= i < pools.len() - 1 ==> (#[trigger] pools[i]).total() < pools[i - 1].total()
    &&& pools.last().total() == pools[pools.len() - 2].total()
}

/// What stays of a list is part of it.
proof fn lemma_shared_part<T>(items: Seq<T>, pointers: Seq<usize>)
    ensures
        shared_items(items, pointers).len() <= items.len(),
        shared_items(items, pointers).to_multiset().subset_of(items.to_multiset()),
    decreases items.len(),
{
    if items.len() > 0 {
        let front = items.drop_last();
        lemma_shared_part(front, pointers);
        front.to_multiset_ensures();
        shared_items(front, pointers).to_multiset_ensures();
        assert(items =~= front.push(items.last()));
    } else {
        items.to_multiset_ensures();
        assert(shared_items(items, pointers) =~= items);
    }
}

/// Keeps the items that more than one pointer points to, given how many point to
/// each.
pub fn keep_shared<T>(items: Vec<T>, pointers: &Vec<usize>) -> (kept: Vec<T>)
    requires
        items@.len() == pointers@.len(),
    ensures
        kept@ == shared_items(items@, pointers@),
{
    let ghost all = items@;
    let mut kept: Vec<T> = Vec::new();
    let mut i: usize = 0;
    assert(all.take(0) =~= Seq::<T>::empty());
    assert(pointers@.len() == pointers.len());
    for item in iter: items.into_iter()
        invariant
            iter.seq() == all,
            i == iter.index(),
            all.len() == pointers@.len(),
            pointers@.len() <= usize::MAX,
            kept@ == shared_items(all.take(i as int), pointers@),
    {
        proof {
            assert(all.take(i + 1).drop_last() =~= all.take(i as int));
            assert(all.take(i + 1).last() == item);
        }
        if pointers[i] > 1 {
            kept.push(item);
        }
        i += 1;
    }
    assert(all.take(all.len() as int) =~= all);
    kept
}

/// How many pointers point to each of some nodes.
fn count_pointers<T>(items: &Vec<Arc<T>>) -> (pointers: Vec<usize>)
    ensures
        pointers@.len() == items@.len(),
        forall|j: int|
            0 <= j < items@.len() ==> may_count(items@[j], #[trigger] pointers@[j]),
{
    let mut pointers: Vec<usize> = Vec::new();
    let mut i: usize = 0;
    while i < items.len()
        invariant
            i <= items@.len(),
            pointers@.len() == i,
            forall|j: int| 0 <= j < i ==> may_count(items@[j], #[trigger] pointers@[j]),
        decreases items@.len() - i,
    {
        pointers.push(strong_count(&items[i]));
        i += 1;
    }
    pointers
}

impl<K, V> InternPool<K, V> {
    /// How many pointers point to each node of the pool, counted one by one. The
    /// numbers rest on what else holds the nodes.
    pub fn pointer_counts(&self) -> (pointers: Vec<Vec<usize>>)
        requires
            self.wf(),
        ensures
            counted(*self, pointers@),
            read_off(*self, pointers@),
    {
        let mut pointers: Vec<Vec<usize>> = Vec::new();
        let mut i: usize = 0;
        while i < self.buckets.len()
            invariant
                self.wf(),
                i <= self.buckets@.len(),
                pointers@.len() == i,
                forall|k: int|
                    0 <= k < i ==> (#[trigger] pointers@[k])@.len() == self.buckets@[k]@.len(),
                forall|k: int, j: int|
                    0 <= k < i && 0 <= j < pointers@[k]@.len() ==> may_count(
                        self.buckets@[k]@[j],
                        #[trigger] pointers@[k]@[j],
                    ),
            decreases self.buckets@.len() - i,
        {
            pointers.push(count_pointers(&self.buckets[i]));
            i += 1;
        }
        proof {
            assert forall|k: int, j: int|
                0 <= k < pointers@.len() && 0 <= j < pointers@[k]@.len() implies may_count(
                self.held(self.order()[k])[j],
                #[trigger] pointers@[k]@[j],
            ) by {
                assert(self.index@.contains_key(self.hashes@[k]));
            }
            assert forall|k: int| 0 <= k < pointers@.len() implies (
            #[trigger] pointers@[k])@.len() == self.held(self.order()[k]).len() by {
                assert(self.index@.contains_key(self.hashes@[k]));
            }
        }
        pointers
    }

    /// Evicts the nodes that no more than one pointer points to, given how many
    /// point to each. Returns how many went.
    pub fn evict(&mut self, pointers: &Vec<Vec<usize>>) -> (gone: u64)
        requires
            old(self).wf(),
            counted(*old(self), pointers@),
        ensures
            final(self).wf(),
            evicted(*old(self), pointers@, *final(self)),
            thinned(*old(self), *final(self)),
            final(self).counts() == old(self).counts(),
            gone == sat(0, (old(self).total() - final(self).total()) as nat),
    {
        let mut gone: u64 = 0;
        broadcast use vstd::std_specs::hash::group_hash_axioms;

        let ghost before = *self;
        let mut old_hashes: Vec<u64> = Vec::new();
        let mut old_buckets: Vec<Vec<Arc<ChampNode<K, V>>>> = Vec::new();
        core::mem::swap(&mut self.hashes, &mut old_hashes);
        core::mem::swap(&mut self.buckets, &mut old_buckets);
        self.index = StdHashMap::new();
        let ghost all = old_buckets@;
        let mut i: usize = 0;
        proof {
            assert(all.len() == old_buckets.len());
            assert(all.take(0) =~= Seq::<Vec<Arc<ChampNode<K, V>>>>::empty());
            assert(pointers@.take(0) =~= Seq::<Vec<usize>>::empty());
        }
        for bucket in iter: old_buckets.into_iter()
            invariant
                before == *old(self),
                before.wf(),
                counted(before, pointers@),
                iter.seq() == all,
                all == before.buckets@,
                all.len() <= usize::MAX,
                old_hashes@ == before.hashes@,
                i == iter.index(),
                self.wf(),
                self.stats == before.stats,
                self.total() == shared_total(before, pointers@.take(i as int)),
                self.total() <= bucket_total(all.take(i as int)),
                gone == sat(0, (bucket_total(all.take(i as int)) - self.total()) as nat),
                forall|hash: u64| #[trigger]
                    self.index@.contains_key(hash) ==> before.index@.contains_key(hash)
                        && before.index@[hash] < i,
                forall|k: int|
                    0 <= k < i ==> self.held(#[trigger] before.hashes@[k]) == shared_items(
                        all[k]@,
                        pointers@[k]@,
                    ),
        {
            broadcast use vstd::std_specs::hash::group_hash_axioms;

            let ghost nodes = bucket@;
            let ghost middle = *self;
            let size: usize = bucket.len();
            let hash: u64 = old_hashes[i];
            proof {
                assert(bucket == all[i as int]);
                assert(before.index@.contains_key(before.hashes@[i as int]));
                assert(before.held(hash) == nodes);
                assert(pointers@[i as int]@.len() == before.held(before.order()[i as int]).len());
                assert(!middle.index@.contains_key(hash));
                lemma_shared_part(nodes, pointers@[i as int]@);
                assert(all.take(i + 1).drop_last() =~= all.take(i as int));
                assert(pointers@.take(i + 1).drop_last() =~= pointers@.take(i as int));
            }
            let kept = keep_shared(bucket, &pointers[i]);
            let ghost added = kept;
            gone = gone.saturating_add((size - kept.len()) as u64);
            if kept.len() > 0 {
                let at: usize = self.buckets.len();
                self.index.insert(hash, at);
                self.hashes.push(hash);
                self.buckets.push(kept);
                proof {
                    lemma_total_push(middle.buckets@, added);
                    assert forall|k: int| 0 <= k < self.hashes@.len() implies
                        self.index@.contains_key(#[trigger] self.hashes@[k])
                        && self.index@[self.hashes@[k]] == k by {
                        if k < middle.hashes@.len() {
                            assert(self.hashes@[k] == middle.hashes@[k]);
                            assert(middle.index@.contains_key(middle.hashes@[k]));
                        }
                    }
                }
            }
            proof {
                assert(self.held(hash) =~= added@);
                assert forall|k: int| 0 <= k < i + 1 implies self.held(
                    #[trigger] before.hashes@[k],
                ) == shared_items(all[k]@, pointers@[k]@) by {
                    let other = before.hashes@[k];
                    if k < i {
                        assert(before.index@.contains_key(other) && before.index@[other] == k);
                        assert(other != hash);
                        assert(self.held(other) == middle.held(other)) by {
                            if middle.index@.contains_key(other) {
                                assert(self.buckets@[middle.index@[other] as int]
                                    == middle.buckets@[middle.index@[other] as int]);
                            }
                        }
                    }
                }
            }
            i += 1;
        }
        proof {
            assert(all.take(all.len() as int) =~= all);
            assert(pointers@.take(all.len() as int) =~= pointers@);
            assert forall|k: int| 0 <= k < pointers@.len() implies self.held(
                #[trigger] before.order()[k],
            ) == shared_items(before.held(before.order()[k]), pointers@[k]@) by {
                assert(before.index@.contains_key(before.hashes@[k]));
            }
            assert forall|hash: u64| #[trigger] self.held(hash).len() > 0 implies
                before.order().contains(hash) by {
                assert(before.index@.contains_key(hash));
                assert(before.hashes@[before.index@[hash] as int] == hash);
            }
            lemma_evicted_thins(before, pointers@, *self);
        }
        gone
    }

    /// Evicts the nodes that only the pool holds, once: a node that one of them
    /// held may now be held by the pool only. Returns how many went.
    fn purge_pass(&mut self) -> (gone: u64)
        requires
            old(self).wf(),
        ensures
            final(self).wf(),
            passed(*old(self), *final(self)),
            thinned(*old(self), *final(self)),
            final(self).counts() == old(self).counts(),
            gone == sat(0, (old(self).total() - final(self).total()) as nat),
    {
        let pointers = self.pointer_counts();
        self.evict(&pointers)
    }

    /// Evicts the nodes that only the pool holds, in passes, until one evicts
    /// nothing. Which ones those are depends on what else holds them: each pass
    /// counts the pointers to every node, and [`evict`][Self::evict] says what it
    /// does with the numbers.
    pub fn purge(&mut self)
        requires
            old(self).wf(),
        ensures
            final(self).wf(),
            exists|pools: Seq<Self>| #[trigger]
                passes(pools) && pools[0] == *old(self) && pools.last() == *final(self),
            thinned(*old(self), *final(self)),
            final(self).counts() == (InternStats {
                evictions: sat(
                    old(self).counts().evictions,
                    (old(self).total() - final(self).total()) as nat,
                ),
                ..old(self).counts()
            }),
    {
        let ghost start = *self;
        let ghost mut pools = seq![start];
        proof {
            lemma_thinned_self(start);
        }
        loop
            invariant
                start == *old(self),
                self.wf(),
                pools.len() >= 1,
                pools[0] == start,
                pools.last() == *self,
                forall|i: int| 0 <= i < pools.len() ==> (#[trigger] pools[i]).wf(),
                forall|i: int|
                    1 <= i < pools.len() ==> passed(pools[i - 1], #[trigger] pools[i])
                        && pools[i].total() < pools[i - 1].total(),
                thinned(start, *self),
                self.counts() == (InternStats {
                    evictions: sat(
                        start.counts().evictions,
                        (start.total() - self.total()) as nat,
                    ),
                    ..start.counts()
                }),
            decreases self.total(),
        {
            let ghost middle = *self;
            let gone: u64 = self.purge_pass();
            let ghost done = *self;
            self.stats.evictions = self.stats.evictions.saturating_add(gone);
            proof {
                assert forall|hash: u64| #[trigger] self.held(hash).to_multiset().subset_of(
                    middle.held(hash).to_multiset(),
                ) by {
                    assert(self.held(hash) == done.held(hash));
                }
                lemma_thinned_join(start, middle, *self);
                lemma_passed_same(middle, done, *self);
                pools = pools.push(*self);
            }
            if gone == 0 {
                assert(passes(pools));
                return;
            }
        }
    }
}

/// What stays of a list without twins has none.
proof fn lemma_shared_apart<K: View, V: PartialEq>(
    items: Seq<Arc<ChampNode<K, V>>>,
    pointers: Seq<usize>,
)
    requires
        forall|i: int, j: int|
            0 <= i < j < items.len() ==> !equal_nodes(
                *#[trigger] items[i],
                *#[trigger] items[j],
            ),
    ensures
        forall|i: int, j: int|
            0 <= i < j < shared_items(items, pointers).len() ==> !equal_nodes(
                *#[trigger] shared_items(items, pointers)[i],
                *#[trigger] shared_items(items, pointers)[j],
            ),
        forall|i: int|
            0 <= i < shared_items(items, pointers).len() ==> items.contains(
                #[trigger] shared_items(items, pointers)[i],
            ),
    decreases items.len(),
{
    if items.len() > 0 {
        let front = items.drop_last();
        let kept = shared_items(front, pointers);
        assert forall|i: int, j: int| 0 <= i < j < front.len() implies !equal_nodes(
            *#[trigger] front[i],
            *#[trigger] front[j],
        ) by {
            assert(!equal_nodes(*items[i], *items[j]));
        }
        lemma_shared_apart(front, pointers);
        let all = shared_items(items, pointers);
        assert forall|i: int| 0 <= i < all.len() implies items.contains(#[trigger] all[i]) by {
            if i < kept.len() {
                assert(front.contains(kept[i]));
                let k = choose|k: int| 0 <= k < front.len() && front[k] == kept[i];
                assert(items[k] == all[i]);
            } else {
                assert(items[items.len() - 1] == all[i]);
            }
        }
        assert forall|i: int, j: int| 0 <= i < j < all.len() implies !equal_nodes(
            *#[trigger] all[i],
            *#[trigger] all[j],
        ) by {
            if j < kept.len() {
                assert(!equal_nodes(*kept[i], *kept[j]));
            } else {
                assert(front.contains(kept[i]));
                let k = choose|k: int| 0 <= k < front.len() && front[k] == kept[i];
                assert(!equal_nodes(*items[k], *items[items.len() - 1]));
            }
        }
    }
}

/// An eviction from a pool that holds no node twice leaves such a pool.
pub proof fn law_evicted_no_twins<K: View, V: PartialEq>(
    before: InternPool<K, V>,
    pointers: Seq<Vec<usize>>,
    after: InternPool<K, V>,
)
    requires
        counted(before, pointers),
        evicted(before, pointers, after),
        no_twins(before),
    ensures
        no_twins(after),
{
    assert forall|hash: u64, i: int, j: int| 0 <= i < j < after.held(hash).len() implies
        !equal_nodes(*#[trigger] after.held(hash)[i], *#[trigger] after.held(hash)[j]) by {
        let at = before.order().index_of(hash);
        assert(before.order().contains(hash));
        assert(before.order()[at] == hash);
        let items = before.held(hash);
        assert forall|k: int, l: int| 0 <= k < l < items.len() implies !equal_nodes(
            *#[trigger] items[k],
            *#[trigger] items[l],
        ) by {
            assert(!equal_nodes(*before.held(hash)[k], *before.held(hash)[l]));
        }
        lemma_shared_apart(items, pointers[at]@);
    }
}

/// Passes over a pool that holds no node twice, which is what a purge makes, leave
/// such a pool.
pub proof fn law_passes_no_twins<K: View, V: PartialEq>(pools: Seq<InternPool<K, V>>)
    requires
        passes(pools),
        no_twins(pools[0]),
    ensures
        no_twins(pools.last()),
{
    lemma_passes_no_twins(pools, pools.len() - 1);
}

proof fn lemma_passes_no_twins<K: View, V: PartialEq>(pools: Seq<InternPool<K, V>>, i: int)
    requires
        passes(pools),
        no_twins(pools[0]),
        0 <= i < pools.len(),
    ensures
        no_twins(pools[i]),
    decreases i,
{
    if i > 0 {
        lemma_passes_no_twins(pools, i - 1);
        assert(passed(pools[i - 1], pools[i]));
        let pointers = choose|pointers: Seq<Vec<usize>>|
            counted(pools[i - 1], pointers) && read_off(pools[i - 1], pointers) && #[trigger] evicted(
                pools[i - 1],
                pointers,
                pools[i],
            );
        law_evicted_no_twins(pools[i - 1], pointers, pools[i]);
    }
}

/// What stays of a list, item by item.
proof fn lemma_shared_items<T>(items: Seq<T>, pointers: Seq<usize>)
    requires
        items.len() == pointers.len(),
    ensures
        forall|j: int|
            0 <= j < items.len() && pointers[j] > 1 ==> shared_items(items, pointers).contains(
                #[trigger] items[j],
            ),
        forall|item: T| #[trigger]
            shared_items(items, pointers).contains(item) ==> exists|j: int|
                0 <= j < items.len() && #[trigger] items[j] == item && pointers[j] > 1,
        shared_items(items, pointers).len() == pointers.filter(|n: usize| n > 1).len(),
    decreases items.len(),
{
    reveal(Seq::filter);
    if items.len() > 0 {
        let (front, before) = (items.drop_last(), pointers.drop_last());
        lemma_shared_items(front, before);
        lemma_shared_front(front, before, pointers);
        let n = items.len() - 1;
        let kept = shared_items(front, before);
        let all = shared_items(items, pointers);
        assert forall|j: int| 0 <= j < items.len() && pointers[j] > 1 implies all.contains(
            #[trigger] items[j],
        ) by {
            if j < n {
                assert(front[j] == items[j]);
                assert(kept.contains(front[j]));
                let k = choose|k: int| 0 <= k < kept.len() && kept[k] == front[j];
                assert(all[k] == items[j]);
            } else {
                assert(all[all.len() - 1] == items[n]);
            }
        }
        assert forall|item: T| #[trigger] all.contains(item) implies exists|j: int|
            0 <= j < items.len() && #[trigger] items[j] == item && pointers[j] > 1 by {
            let k = choose|k: int| 0 <= k < all.len() && all[k] == item;
            if k < kept.len() {
                assert(kept.contains(item)) by {
                    assert(kept[k] == item);
                }
                let j = choose|j: int|
                    0 <= j < front.len() && #[trigger] front[j] == item && before[j] > 1;
                assert(items[j] == item && pointers[j] > 1);
            } else {
                assert(items[n] == item && pointers[n] > 1);
            }
        }
    }
}

/// What stays of a list rests on the numbers of its items alone.
proof fn lemma_shared_front<T>(items: Seq<T>, a: Seq<usize>, b: Seq<usize>)
    requires
        items.len() <= a.len(),
        items.len() <= b.len(),
        forall|j: int| 0 <= j < items.len() ==> a[j] == b[j],
    ensures
        shared_items(items, a) == shared_items(items, b),
    decreases items.len(),
{
    if items.len() > 0 {
        lemma_shared_front(items.drop_last(), a, b);
    }
}

/// Whether a list of pointers was thinned by counting: there is a number for each
/// pointer, counted for the very value that it points to, those with a number
/// above one stay, no other does, and as many stay as there are such numbers.
pub open spec fn kept_by_count<T>(items: Seq<Arc<T>>, numbers: Seq<usize>, kept: Seq<Arc<T>>) -> bool {
    &&& numbers.len() == items.len()
    &&& forall|j: int| 0 <= j < numbers.len() ==> may_count(items[j], #[trigger] numbers[j])
    &&& forall|j: int|
        0 <= j < numbers.len() && #[trigger] numbers[j] > 1 ==> kept.contains(items[j])
    &&& forall|item: Arc<T>| #[trigger]
        kept.contains(item) ==> exists|j: int|
            0 <= j < numbers.len() && #[trigger] numbers[j] > 1 && items[j] == item
    &&& kept.len() == numbers.filter(|n: usize| n > 1).len()
}

/// A pass keeps just the nodes for which it counted more than one pointer: under
/// each fingerprint there is a number that was counted for each node, the nodes
/// with a number above one stay, no other does, and as many stay as there are such
/// numbers.
pub proof fn law_pass<K, V>(before: InternPool<K, V>, after: InternPool<K, V>, hash: u64)
    requires
        passed(before, after),
        before.wf(),
    ensures
        exists|numbers: Seq<usize>| #[trigger]
            kept_by_count(before.held(hash), numbers, after.held(hash)),
{
    let pointers = choose|pointers: Seq<Vec<usize>>|
        counted(before, pointers) && read_off(before, pointers) && #[trigger] evicted(
            before,
            pointers,
            after,
        );
    let items = before.held(hash);
    if before.order().contains(hash) {
        let at = before.order().index_of(hash);
        let numbers = pointers[at]@;
        assert(before.order()[at] == hash);
        lemma_shared_items(items, numbers);
        assert(after.held(hash) == shared_items(items, numbers));
        assert forall|node: Arc<ChampNode<K, V>>| #[trigger]
            after.held(hash).contains(node) implies exists|j: int|
            0 <= j < numbers.len() && #[trigger] numbers[j] > 1 && before.held(hash)[j] == node by {
            let j = choose|j: int|
                0 <= j < items.len() && #[trigger] items[j] == node && numbers[j] > 1;
            assert(numbers[j] > 1);
        }
        assert forall|j: int| 0 <= j < numbers.len() implies may_count(
            before.held(hash)[j],
            #[trigger] numbers[j],
        ) by {
            assert(may_count(before.held(before.order()[at])[j], pointers[at]@[j]));
        }
        assert(kept_by_count(items, numbers, after.held(hash)));
    } else {
        if before.index@.contains_key(hash) {
            assert(before.hashes@[before.index@[hash] as int] == hash);
        }
        let numbers = Seq::<usize>::empty();
        reveal(Seq::filter);
        assert(kept_by_count(items, numbers, after.held(hash)));
    }
}

/// An eviction keeps just the nodes with a number above one, given a number for
/// each, and says how many went.
pub proof fn law_evict<K, V>(
    pool: &mut InternPool<K, V>,
    pointers: &Vec<Vec<usize>>,
    gone: u64,
    i: int,
    j: int,
)
    requires
        old(pool).wf(),
        counted(*old(pool), pointers@),
        call_ensures(InternPool::<K, V>::evict, (pool, pointers), gone),
        0 <= i < pointers@.len(),
        0 <= j < pointers@[i]@.len(),
    ensures
        pointers@[i]@[j] > 1 ==> final(pool).held(old(pool).order()[i]).contains(
            old(pool).held(old(pool).order()[i])[j],
        ),
        final(pool).held(old(pool).order()[i]).len() == pointers@[i]@.filter(
            |n: usize| n > 1,
        ).len(),
        forall|node: Arc<ChampNode<K, V>>| #[trigger]
            final(pool).held(old(pool).order()[i]).contains(node) ==> exists|k: int|
                0 <= k < pointers@[i]@.len() && #[trigger] pointers@[i]@[k] > 1 && old(pool).held(
                    old(pool).order()[i],
                )[k] == node,
        final(pool).total() <= old(pool).total(),
        old(pool).total() <= u64::MAX ==> gone + final(pool).total() == old(pool).total(),
{
    let items = old(pool).held(old(pool).order()[i]);
    let numbers = pointers@[i]@;
    lemma_shared_items(items, numbers);
    assert(final(pool).held(old(pool).order()[i]) == shared_items(items, numbers));
    assert forall|node: Arc<ChampNode<K, V>>| #[trigger]
        final(pool).held(old(pool).order()[i]).contains(node) implies exists|k: int|
        0 <= k < pointers@[i]@.len() && #[trigger] pointers@[i]@[k] > 1 && old(pool).held(
            old(pool).order()[i],
        )[k] == node by {
        let k = choose|k: int|
            0 <= k < items.len() && #[trigger] items[k] == node && numbers[k] > 1;
        assert(pointers@[i]@[k] > 1);
    }
}

/// A purge evicts only nodes that were counted as held by the pool alone, and
/// leaves only nodes that were counted as held by others too.
pub proof fn law_purge<K, V>(pool: &mut InternPool<K, V>, hash: u64, node: Arc<ChampNode<K, V>>)
    requires
        old(pool).wf(),
        call_ensures(InternPool::<K, V>::purge, (pool,), ()),
    ensures
        final(pool).held(hash).contains(node) ==> old(pool).held(hash).contains(node) && exists|
            n: usize,
        |
            n > 1 && #[trigger] may_count(node, n),
        old(pool).held(hash).contains(node) && !final(pool).held(hash).contains(node) ==> exists|
            n: usize,
        |
            n <= 1 && #[trigger] may_count(node, n),
        final(pool).counts().evictions == sat(
            old(pool).counts().evictions,
            (old(pool).total() - final(pool).total()) as nat,
        ),
        final(pool).total() <= old(pool).total(),
{
    let pools = choose|pools: Seq<InternPool<K, V>>| #[trigger]
        passes(pools) && pools[0] == *old(pool) && pools.last() == *final(pool);
    lemma_purged(pools, pools.len() - 1, hash, node);
    let n = pools.len() - 1;
    assert(passed(pools[n - 1], pools[n]));
}

/// What passes do to a node.
proof fn lemma_purged<K, V>(
    pools: Seq<InternPool<K, V>>,
    i: int,
    hash: u64,
    node: Arc<ChampNode<K, V>>,
)
    requires
        passes(pools),
        0 <= i < pools.len(),
    ensures
        pools[i].held(hash).contains(node) ==> pools[0].held(hash).contains(node),
        i > 0 && pools[i].held(hash).contains(node) ==> exists|n: usize|
            n > 1 && #[trigger] may_count(node, n),
        pools[0].held(hash).contains(node) && !pools[i].held(hash).contains(node) ==> exists|
            n: usize,
        |
            n <= 1 && #[trigger] may_count(node, n),
    decreases i,
{
    if i > 0 {
        let (before, after) = (pools[i - 1], pools[i]);
        lemma_purged(pools, i - 1, hash, node);
        assert(passed(before, after));
        law_pass(before, after, hash);
        let numbers = choose|numbers: Seq<usize>| #[trigger]
            kept_by_count(before.held(hash), numbers, after.held(hash));
        if after.held(hash).contains(node) {
            let j = choose|j: int|
                0 <= j < numbers.len() && #[trigger] numbers[j] > 1 && before.held(hash)[j] == node;
            assert(may_count(node, numbers[j]));
            assert(before.held(hash)[j] == node);
        } else if before.held(hash).contains(node) {
            let j = choose|j: int| 0 <= j < before.held(hash).len() && before.held(hash)[j] == node;
            assert(may_count(node, numbers[j]));
            assert(numbers[j] <= 1);
        }
    }
}

/// What a pool holds after an eviction is part of what it held.
proof fn lemma_evicted_thins<K, V>(
    before: InternPool<K, V>,
    pointers: Seq<Vec<usize>>,
    after: InternPool<K, V>,
)
    requires
        counted(before, pointers),
        evicted(before, pointers, after),
        after.total() <= before.total(),
    ensures
        thinned(before, after),
{
    assert forall|hash: u64| #[trigger]
        after.held(hash).to_multiset().subset_of(before.held(hash).to_multiset()) by {
        if after.held(hash).len() > 0 {
            let i = before.order().index_of(hash);
            assert(before.order()[i] == hash);
            lemma_shared_part(before.held(hash), pointers[i]@);
        } else {
            after.held(hash).to_multiset_ensures();
            assert(after.held(hash) =~= Seq::<Arc<ChampNode<K, V>>>::empty());
        }
    }
}

/// A pass leads to every pool with the same nodes.
proof fn lemma_passed_same<K, V>(
    before: InternPool<K, V>,
    after: InternPool<K, V>,
    same: InternPool<K, V>,
)
    requires
        passed(before, after),
        same.index == after.index,
        same.buckets == after.buckets,
    ensures
        passed(before, same),
{
    let pointers = choose|pointers: Seq<Vec<usize>>|
        counted(before, pointers) && read_off(before, pointers) && #[trigger] evicted(
            before,
            pointers,
            after,
        );
    assert forall|hash: u64| #[trigger] same.held(hash) == after.held(hash) by {}
    assert(evicted(before, pointers, same));
}

proof fn lemma_thinned_self<K, V>(pool: InternPool<K, V>)
    ensures
        thinned(pool, pool),
{
}

proof fn lemma_thinned_join<K, V>(
    a: InternPool<K, V>,
    b: InternPool<K, V>,
    c: InternPool<K, V>,
)
    requires
        thinned(a, b),
        thinned(b, c),
    ensures
        thinned(a, c),
{
    assert forall|hash: u64| #[trigger]
        c.held(hash).to_multiset().subset_of(a.held(hash).to_multiset()) by {
        assert(c.held(hash).to_multiset().subset_of(b.held(hash).to_multiset()));
        assert(b.held(hash).to_multiset().subset_of(a.held(hash).to_multiset()));
    }
}

} // verus!
