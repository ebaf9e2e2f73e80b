//! Statistics of how a map is built, level by level.
use crate::bits::MAX_DEPTH;
use crate::entries::{children_entries, lemma_children_join, lemma_one_child};
use crate::hash_key::HashKey;
use crate::hash_map::GenericHashMap;
use crate::node::ChampNode;
use crate::shared::{inside, share};
use crate::sparse::lemma_sparse_slot;
use std::sync::Arc;
use vstd::prelude::*;

verus! {

/// What stands on one level of a trie.
pub struct LevelStats {
    /// Nodes with slots.
    pub node_count: usize,
    /// Entries in the slots of these nodes.
    pub value_count: usize,
    /// Groups of entries with one hash in the slots of these nodes.
    pub collision_count: usize,
    /// Entries in these groups.
    pub collision_entry_sum: usize,
    /// Nodes in the slots of these nodes.
    pub child_node_count: usize,
}

/// The nodes with slots among some nodes.
pub open spec fn slotted<K, V>(nodes: Seq<Arc<ChampNode<K, V>>>) -> Seq<Arc<ChampNode<K, V>>>
    decreases nodes.len(),
{
    if nodes.len() == 0 {
        Seq::empty()
    } else {
        match *nodes.last() {
            ChampNode::Inner(_) => slotted(nodes.drop_last()).push(nodes.last()),
            ChampNode::Collision(_) => slotted(nodes.drop_last()),
        }
    }
}

/// How many groups stand among some nodes.
pub open spec fn groups<K, V>(nodes: Seq<Arc<ChampNode<K, V>>>) -> nat
    decreases nodes.len(),
{
    if nodes.len() == 0 {
        0
    } else {
        groups(nodes.drop_last()) + match *nodes.last() {
            ChampNode::Inner(_) => 0nat,
            ChampNode::Collision(_) => 1nat,
        }
    }
}

/// How many entries the groups among some nodes hold.
pub open spec fn grouped<K, V>(nodes: Seq<Arc<ChampNode<K, V>>>) -> nat
    decreases nodes.len(),
{
    if nodes.len() == 0 {
        0
    } else {
        grouped(nodes.drop_last()) + match *nodes.last() {
            ChampNode::Inner(_) => 0nat,
            ChampNode::Collision(coll) => coll.entries@.len(),
        }
    }
}

/// The children of a node.
pub open spec fn children_of<K, V>(node: ChampNode<K, V>) -> Seq<Arc<ChampNode<K, V>>> {
    match node {
        ChampNode::Inner(inner) => inner.children@,
        ChampNode::Collision(_) => Seq::empty(),
    }
}

/// The children of some nodes, one behind the other.
pub open spec fn all_children<K, V>(nodes: Seq<Arc<ChampNode<K, V>>>) -> Seq<Arc<ChampNode<K, V>>>
    decreases nodes.len(),
{
    if nodes.len() == 0 {
        Seq::empty()
    } else {
        all_children(nodes.drop_last()) + children_of(*nodes.last())
    }
}

/// How many entries stand in slots of some nodes.
pub open spec fn own_values<K, V>(nodes: Seq<Arc<ChampNode<K, V>>>) -> nat
    decreases nodes.len(),
{
    if nodes.len() == 0 {
        0
    } else {
        own_values(nodes.drop_last()) + match *nodes.last() {
            ChampNode::Inner(inner) => inner.values@.len(),
            ChampNode::Collision(_) => 0nat,
        }
    }
}

/// Whether statistics are those of a level with given nodes.
pub open spec fn level_of<K, V>(stats: LevelStats, nodes: Seq<Arc<ChampNode<K, V>>>) -> bool {
    &&& stats.node_count == nodes.len()
    &&& stats.value_count == own_values(nodes)
    &&& stats.collision_count == groups(all_children(nodes))
    &&& stats.collision_entry_sum == grouped(all_children(nodes))
    &&& stats.child_node_count == slotted(all_children(nodes)).len()
}

/// Whether statistics are those of a level with given nodes and of the levels
/// below it.
pub open spec fn levels_of<K, V>(
    stats: Seq<LevelStats>,
    nodes: Seq<Arc<ChampNode<K, V>>>,
) -> bool
    decreases stats.len(),
{
    if nodes.len() == 0 {
        stats.len() == 0
    } else {
        &&& stats.len() > 0
        &&& level_of(stats[0], nodes)
        &&& levels_of(stats.skip(1), slotted(all_children(nodes)))
    }
}

/// How many entries statistics tell of.
pub open spec fn told_entries(stats: Seq<LevelStats>) -> int
    decreases stats.len(),
{
    if stats.len() == 0 {
        0
    } else {
        stats[0].value_count + stats[0].collision_entry_sum + told_entries(stats.skip(1))
    }
}

/// The statistics of all levels tell of every entry once.
pub proof fn law_levels_total<K, V>(
    stats: Seq<LevelStats>,
    nodes: Seq<Arc<ChampNode<K, V>>>,
)
    requires
        levels_of(stats, nodes),
        forall|i: int| 0 <= i < nodes.len() ==> *(#[trigger] nodes[i]) is Inner,
    ensures
        told_entries(stats) == children_entries(nodes).len(),
    decreases stats.len(),
{
    if nodes.len() > 0 {
        lemma_split(nodes);
        lemma_slotted(all_children(nodes));
        law_levels_total(stats.skip(1), slotted(all_children(nodes)));
    }
}

/// Whether some nodes stand on level `depth` of a trie, all with slots.
pub open spec fn on_level<S, K: HashKey<S>, V>(
    nodes: Seq<Arc<ChampNode<K, V>>>,
    state: S,
    depth: nat,
) -> bool {
    forall|i: int|
        0 <= i < nodes.len() ==> (*#[trigger] nodes[i]) is Inner && exists|path: Seq<u32>|
            path.len() == depth && #[trigger] nodes[i].wf(state, path)
}

/// What a node with slots holds is in its slots or below it.
proof fn lemma_split<K, V>(nodes: Seq<Arc<ChampNode<K, V>>>)
    requires
        forall|i: int| 0 <= i < nodes.len() ==> *(#[trigger] nodes[i]) is Inner,
    ensures
        children_entries(nodes).len() == own_values(nodes) + children_entries(
            all_children(nodes),
        ).len(),
    decreases nodes.len(),
{
    if nodes.len() > 0 {
        let front = nodes.drop_last();
        let last = nodes.last();
        assert(*nodes[nodes.len() - 1] is Inner);
        assert forall|i: int| 0 <= i < front.len() implies *(#[trigger] front[i]) is Inner by {
            assert(*nodes[i] is Inner);
        }
        lemma_split(front);
        assert(nodes =~= front + seq![last]);
        lemma_children_join(front, seq![last]);
        lemma_one_child(seq![last]);
        lemma_children_join(all_children(front), children_of(inside(last)));
    }
}

/// What the nodes with slots among some nodes hold, all of them hold.
proof fn lemma_slotted<K, V>(nodes: Seq<Arc<ChampNode<K, V>>>)
    ensures
        children_entries(slotted(nodes)).len() + grouped(nodes) == children_entries(nodes).len(),
        forall|i: int| 0 <= i < slotted(nodes).len() ==> *(#[trigger] slotted(nodes)[i]) is Inner,
        forall|i: int|
            0 <= i < slotted(nodes).len() ==> nodes.contains(#[trigger] slotted(nodes)[i]),
        slotted(nodes).len() + groups(nodes) == nodes.len(),
    decreases nodes.len(),
{
    if nodes.len() > 0 {
        let front = nodes.drop_last();
        let last = nodes.last();
        lemma_slotted(front);
        assert(nodes =~= front + seq![last]);
        lemma_children_join(front, seq![last]);
        lemma_one_child(seq![last]);
        if inside(last) is Inner {
            lemma_children_join(slotted(front), seq![last]);
            assert(slotted(nodes) =~= slotted(front) + seq![last]);
        }
        assert forall|i: int| 0 <= i < slotted(nodes).len() implies nodes.contains(
            #[trigger] slotted(nodes)[i],
        ) by {
            if i < slotted(front).len() {
                assert(front.contains(slotted(front)[i]));
                let j = choose|j: int| 0 <= j < front.len() && front[j] == slotted(front)[i];
                assert(nodes[j] == front[j]);
            } else {
                assert(nodes[nodes.len() - 1] == last);
            }
        }
    }
}

/// Whether no group among some nodes is empty.
pub open spec fn groups_filled<K, V>(nodes: Seq<Arc<ChampNode<K, V>>>) -> bool {
    forall|i: int|
        0 <= i < nodes.len() ==> (*(#[trigger] nodes[i]) matches ChampNode::Collision(coll)
            ==> coll.entries@.len() > 0)
}

/// There are no more groups than entries in groups.
proof fn lemma_filled<K, V>(nodes: Seq<Arc<ChampNode<K, V>>>)
    requires
        groups_filled(nodes),
    ensures
        groups(nodes) <= grouped(nodes),
    decreases nodes.len(),
{
    if nodes.len() > 0 {
        let front = nodes.drop_last();
        assert forall|i: int| 0 <= i < front.len() implies (*(
        #[trigger] front[i]) matches ChampNode::Collision(coll) ==> coll.entries@.len() > 0) by {
            assert(nodes[i] == front[i]);
        }
        lemma_filled(front);
        assert(nodes[nodes.len() - 1] == nodes.last());
    }
}

/// The first nodes of a list hold no more than all of them.
proof fn lemma_prefix<K, V>(nodes: Seq<Arc<ChampNode<K, V>>>, n: int)
    requires
        0 <= n <= nodes.len(),
    ensures
        children_entries(nodes.take(n)).len() <= children_entries(nodes).len(),
{
    lemma_children_join(nodes.take(n), nodes.skip(n));
    assert(nodes.take(n) + nodes.skip(n) =~= nodes);
}

/// The children of the first nodes of a list come first among all children.
proof fn lemma_children_prefix<K, V>(nodes: Seq<Arc<ChampNode<K, V>>>, n: int)
    requires
        0 <= n <= nodes.len(),
    ensures
        all_children(nodes.take(n)).len() <= all_children(nodes).len(),
        all_children(nodes).take(all_children(nodes.take(n)).len() as int) == all_children(
            nodes.take(n),
        ),
    decreases nodes.len(),
{
    if n < nodes.len() {
        let front = nodes.drop_last();
        lemma_children_prefix(front, n);
        assert(front.take(n) =~= nodes.take(n));
        let some = all_children(nodes.take(n));
        assert(all_children(nodes).take(some.len() as int) =~= all_children(front).take(
            some.len() as int,
        ));
    } else {
        assert(nodes.take(n) =~= nodes);
        assert(all_children(nodes).take(all_children(nodes).len() as int) =~= all_children(nodes));
    }
}

/// Every child of some nodes is a child of one of them.
proof fn lemma_whose_child<K, V>(nodes: Seq<Arc<ChampNode<K, V>>>, k: int) -> (at: (int, int))
    requires
        0 <= k < all_children(nodes).len(),
    ensures
        0 <= at.0 < nodes.len(),
        0 <= at.1 < children_of(*nodes[at.0]).len(),
        children_of(*nodes[at.0])[at.1] == all_children(nodes)[k],
    decreases nodes.len(),
{
    let front = all_children(nodes.drop_last());
    if k < front.len() {
        let at = lemma_whose_child(nodes.drop_last(), k);
        assert(nodes.drop_last()[at.0] == nodes[at.0]);
        at
    } else {
        (nodes.len() - 1, k - front.len())
    }
}

/// The children of nodes of a level stand on the next level.
proof fn lemma_child_level<S, K: HashKey<S>, V>(
    nodes: Seq<Arc<ChampNode<K, V>>>,
    state: S,
    depth: nat,
)
    requires
        on_level(nodes, state, depth),
    ensures
        on_level(slotted(all_children(nodes)), state, depth + 1),
        groups_filled(all_children(nodes)),
        nodes.len() > 0 ==> depth < MAX_DEPTH,
{
    let children = all_children(nodes);
    assert forall|k: int| 0 <= k < children.len() implies exists|path: Seq<u32>|
        path.len() == depth + 1 && (#[trigger] children[k]).wf(state, path) by {
        let at = lemma_whose_child(nodes, k);
        let node = inside(nodes[at.0]);
        let path = choose|path: Seq<u32>|
            path.len() == depth && #[trigger] nodes[at.0].wf(state, path);
        match node {
            ChampNode::Inner(inner) => {
                let pos = lemma_sparse_slot(inner.nodemap, inner.children@, at.1);
                assert(inner.children@[at.1].wf(state, path.push(pos)));
                assert(path.push(pos).len() == depth + 1);
            },
            ChampNode::Collision(_) => {},
        }
    }
    lemma_slotted(children);
    let next = slotted(children);
    assert forall|i: int| 0 <= i < next.len() implies (*#[trigger] next[i]) is Inner && exists|
        path: Seq<u32>,
    |
        path.len() == depth + 1 && #[trigger] next[i].wf(state, path) by {
        assert(children.contains(next[i]));
        let k = choose|k: int| 0 <= k < children.len() && children[k] == next[i];
        assert(exists|path: Seq<u32>|
            path.len() == depth + 1 && (#[trigger] children[k]).wf(state, path));
    }
    if nodes.len() > 0 {
        assert((*nodes[0]) is Inner);
    }
}

/// Reads the statistics of a level, and the nodes of the next one.
fn read_level<K, V>(nodes: &Vec<Arc<ChampNode<K, V>>>) -> (result: (
    LevelStats,
    Vec<Arc<ChampNode<K, V>>>,
))
    requires
        forall|i: int| 0 <= i < nodes@.len() ==> *(#[trigger] nodes@[i]) is Inner,
        groups_filled(all_children(nodes@)),
        children_entries(nodes@).len() <= usize::MAX,
    ensures
        level_of(result.0, nodes@),
        result.1@ == slotted(all_children(nodes@)),
{
    let mut next: Vec<Arc<ChampNode<K, V>>> = Vec::new();
    let mut value_count: usize = 0;
    let mut collision_count: usize = 0;
    let mut collision_entry_sum: usize = 0;
    let mut i: usize = 0;
    assert(nodes@.take(0) =~= Seq::<Arc<ChampNode<K, V>>>::empty());
    while i < nodes.len()
        invariant
            i <= nodes@.len(),
            forall|i: int| 0 <= i < nodes@.len() ==> *(#[trigger] nodes@[i]) is Inner,
            groups_filled(all_children(nodes@)),
            children_entries(nodes@).len() <= usize::MAX,
            value_count == own_values(nodes@.take(i as int)),
            collision_count == groups(all_children(nodes@.take(i as int))),
            collision_entry_sum == grouped(all_children(nodes@.take(i as int))),
            next@ == slotted(all_children(nodes@.take(i as int))),
        decreases nodes@.len() - i,
    {
        let ghost front = nodes@.take(i as int);
        let ghost longer = nodes@.take(i + 1);
        proof {
            assert(longer.drop_last() =~= front);
            assert forall|k: int| 0 <= k < longer.len() implies *(#[trigger] longer[k]) is Inner by {
                assert(*nodes@[k] is Inner);
            }
            assert(*nodes@[i as int] is Inner);
            lemma_prefix(nodes@, i + 1);
            lemma_split(longer);
            lemma_children_prefix(nodes@, i + 1);
        }
        match &*nodes[i] {
            ChampNode::Inner(inner) => {
                value_count = value_count + inner.values.len();
                let ghost before = all_children(front);
                let ghost all = all_children(longer);
                let mut j: usize = 0;
                proof {
                    assert(all =~= before + inner.children@);
                    assert(all.take(before.len() as int) =~= before);
                    assert(all_children(nodes@).take(all.len() as int) == all);
                }
                while j < inner.children.len()
                    invariant
                        j <= inner.children@.len(),
                        all == before + inner.children@,
                        all_children(nodes@).take(all.len() as int) == all,
                        all.len() <= all_children(nodes@).len(),
                        groups_filled(all_children(nodes@)),
                        children_entries(all).len() <= usize::MAX,
                        collision_count == groups(all.take(before.len() + j)),
                        collision_entry_sum == grouped(all.take(before.len() + j)),
                        next@ == slotted(all.take(before.len() + j)),
                    decreases inner.children@.len() - j,
                {
                    let ghost part = all.take(before.len() + j + 1);
                    proof {
                        assert(part.drop_last() =~= all.take(before.len() + j));
                        assert(part.last() == inner.children@[j as int]);
                        lemma_prefix(all, before.len() + j + 1);
                        lemma_slotted(part);
                        assert forall|k: int| 0 <= k < part.len() implies (*(
                        #[trigger] part[k]) matches ChampNode::Collision(coll)
                            ==> coll.entries@.len() > 0) by {
                            assert(all_children(nodes@).take(all.len() as int)[k] == part[k]);
                            assert(all_children(nodes@)[k] == part[k]);
                        }
                        lemma_filled(part);
                    }
                    match &*inner.children[j] {
                        ChampNode::Inner(_) => {
                            next.push(share(&inner.children[j]));
                        },
                        ChampNode::Collision(coll) => {
                            collision_count = collision_count + 1;
                            collision_entry_sum = collision_entry_sum + coll.entries.len();
                        },
                    }
                    j += 1;
                }
                proof {
                    assert(all.take(before.len() + inner.children@.len() as int) =~= all);
                }
            },
            ChampNode::Collision(_) => {},
        }
        i += 1;
    }
    assert(nodes@.take(nodes@.len() as int) =~= nodes@);
    let stats = LevelStats {
        node_count: nodes.len(),
        value_count,
        collision_count,
        collision_entry_sum,
        child_node_count: next.len(),
    };
    (stats, next)
}

impl<K, V, S> GenericHashMap<K, V, S> {
    /// The statistics of each level of the map, from the root down. There is none
    /// for a map without a root.
    pub fn level_stats(&self) -> (levels: Vec<LevelStats>) where K: HashKey<S>
        requires
            self.wf(),
        ensures
            levels_of(
                levels@,
                match self.top() {
                    Some(node) => seq![node],
                    None => Seq::empty(),
                },
            ),
    {
        let mut levels: Vec<LevelStats> = Vec::new();
        let mut nodes: Vec<Arc<ChampNode<K, V>>> = Vec::new();
        proof {
            self.lemma_map();
            self.lemma_top();
        }
        let ghost start: Seq<Arc<ChampNode<K, V>>> = match self.top() {
            Some(node) => seq![node],
            None => Seq::empty(),
        };
        if let Some(root) = self.shared_root() {
            nodes.push(root);
            proof {
                let path = Seq::<u32>::empty();
                assert(root.wf(self.state(), path));
                assert(path.len() == 0);
                lemma_one_child(nodes@);
            }
        }
        let mut depth: u32 = 0;
        proof {
            assert(nodes@ =~= start);
            assert forall|tail: Seq<LevelStats>| #[trigger]
                levels_of(tail, nodes@) implies levels_of(levels@ + tail, start) by {
                assert(levels@ + tail =~= tail);
            }
        }
        while nodes.len() > 0
            invariant
                on_level(nodes@, self.state(), depth as nat),
                depth <= MAX_DEPTH,
                children_entries(nodes@).len() <= usize::MAX,
                forall|tail: Seq<LevelStats>| #[trigger]
                    levels_of(tail, nodes@) ==> levels_of(levels@ + tail, start),
            decreases MAX_DEPTH - depth,
        {
            let ghost here = nodes@;
            let ghost done = levels@;
            proof {
                lemma_child_level(here, self.state(), depth as nat);
                lemma_split(here);
                lemma_slotted(all_children(here));
            }
            let (stats, next) = read_level(&nodes);
            levels.push(stats);
            proof {
                assert forall|tail: Seq<LevelStats>| #[trigger]
                    levels_of(tail, next@) implies levels_of(levels@ + tail, start) by {
                    let whole = seq![stats] + tail;
                    assert(whole.skip(1) =~= tail);
                    assert(levels_of(whole, here));
                    assert(done + whole =~= levels@ + tail);
                }
            }
            nodes = next;
            depth = depth + 1;
        }
        proof {
            assert(nodes@ =~= Seq::<Arc<ChampNode<K, V>>>::empty());
            assert(levels_of(Seq::<LevelStats>::empty(), nodes@));
            assert(levels@ + Seq::<LevelStats>::empty() =~= levels@);
        }
        levels
    }
}

} // verus!
