//! A persistent balanced tree of entries, ordered by number.
use crate::node::Pair;
use crate::shared::{inside, own_mut, share};
use std::sync::Arc;
use vstd::prelude::*;

verus! {

/// A numbered entry.
pub type Slot<K, V> = (usize, Pair<K, V>);

/// A tree: a node, or nothing.
pub type Link<K, V> = Option<Arc<OrdNode<K, V>>>;

/// A node: smaller numbers stand on the left, larger ones on the right.
pub struct OrdNode<K, V> {
    pub(crate) left: Link<K, V>,
    pub(crate) idx: usize,
    pub(crate) key: Arc<K>,
    pub(crate) value: Arc<V>,
    pub(crate) right: Link<K, V>,
    pub(crate) size: usize,
}

impl<K, V> OrdNode<K, V> {
    /// The entry of the node itself.
    pub open(crate) spec fn slot(self) -> Slot<K, V> {
        (self.idx, (self.key, self.value))
    }
}

impl<K, V> Clone for OrdNode<K, V> {
    fn clone(&self) -> (copy: Self)
        ensures
            copy == *self,
    {
        OrdNode {
            left: share_link(&self.left),
            idx: self.idx,
            key: share(&self.key),
            value: share(&self.value),
            right: share_link(&self.right),
            size: self.size,
        }
    }
}

/// The entries of a tree, from left to right.
pub open(crate) spec fn flat<K, V>(link: Link<K, V>) -> Seq<Slot<K, V>>
    decreases link,
{
    match link {
        None => Seq::empty(),
        Some(node) => flat(node.left).push(node.slot()) + flat(node.right),
    }
}

/// Whether every node knows its size.
pub open(crate) spec fn sized<K, V>(link: Link<K, V>) -> bool
    decreases link,
{
    match link {
        None => true,
        Some(node) => {
            &&& node.size == flat(link).len()
            &&& sized(node.left)
            &&& sized(node.right)
        },
    }
}

/// Whether the numbers of a list of entries grow.
pub open spec fn ascending<K, V>(slots: Seq<Slot<K, V>>) -> bool {
    forall|i: int, j: int| 0 <= i < j < slots.len() ==> (#[trigger] slots[i]).0 < (
    #[trigger] slots[j]).0
}

/// Whether a list of entries has a number.
pub open spec fn numbered<K, V>(slots: Seq<Slot<K, V>>, idx: usize) -> bool {
    exists|i: int| 0 <= i < slots.len() && (#[trigger] slots[i]).0 == idx
}

/// The same tree again.
pub(crate) fn share_link<K, V>(link: &Link<K, V>) -> (copy: Link<K, V>)
    ensures
        copy == *link,
{
    match link {
        Some(node) => Some(share(node)),
        None => None,
    }
}

/// Number of entries of a tree.
pub(crate) fn link_len<K, V>(link: &Link<K, V>) -> (n: usize)
    requires
        sized(*link),
    ensures
        n == flat(*link).len(),
{
    match link {
        Some(node) => node.size,
        None => 0,
    }
}

/// A node over two trees.
fn join<K, V>(
    left: Link<K, V>,
    idx: usize,
    key: Arc<K>,
    value: Arc<V>,
    right: Link<K, V>,
) -> (link: Link<K, V>)
    requires
        sized(left),
        sized(right),
        flat(left).len() + 1 + flat(right).len() <= usize::MAX,
    ensures
        link is Some,
        sized(link),
        flat(link) == flat(left).push((idx, (key, value))) + flat(right),
{
    let size: usize = link_len(&left) + 1 + link_len(&right);
    Some(Arc::new(OrdNode { left, idx, key, value, right, size }))
}

/// A node over two trees, the right one too large: its left part goes to the
/// left.
fn rotate_left<K, V>(
    left: Link<K, V>,
    idx: usize,
    key: Arc<K>,
    value: Arc<V>,
    r: &Arc<OrdNode<K, V>>,
) -> (link: Link<K, V>)
    requires
        sized(left),
        sized(Some(*r)),
        flat(left).len() + 1 + flat(Some(*r)).len() <= usize::MAX,
    ensures
        link is Some,
        sized(link),
        flat(link) == flat(left).push((idx, (key, value))) + flat(Some(*r)),
{
    let ghost all = flat(left).push((idx, (key, value))) + flat(Some(*r));
    let heavy = link_len(&r.left) / 2 >= link_len(&r.right);
    match &r.left {
        Some(rl) => {
            if heavy {
                proof {
                    assert(sized(Some(*rl)));
                    assert(r.left == Some(*rl));
                }
                let low = join(left, idx, key, value, share_link(&rl.left));
                let high = join(
                    share_link(&rl.right),
                    r.idx,
                    share(&r.key),
                    share(&r.value),
                    share_link(&r.right),
                );
                let link = join(low, rl.idx, share(&rl.key), share(&rl.value), high);
                proof {
                    assert(flat(link) =~= all);
                }
                return link;
            }
        },
        None => {},
    }
    let low = join(left, idx, key, value, share_link(&r.left));
    let link = join(low, r.idx, share(&r.key), share(&r.value), share_link(&r.right));
    proof {
        assert(flat(link) =~= all);
    }
    link
}

/// A node over two trees, the left one too large: its right part goes to the
/// right.
fn rotate_right<K, V>(
    l: &Arc<OrdNode<K, V>>,
    idx: usize,
    key: Arc<K>,
    value: Arc<V>,
    right: Link<K, V>,
) -> (link: Link<K, V>)
    requires
        sized(Some(*l)),
        sized(right),
        flat(Some(*l)).len() + 1 + flat(right).len() <= usize::MAX,
    ensures
        link is Some,
        sized(link),
        flat(link) == flat(Some(*l)).push((idx, (key, value))) + flat(right),
{
    let ghost all = flat(Some(*l)).push((idx, (key, value))) + flat(right);
    let heavy = link_len(&l.right) / 2 >= link_len(&l.left);
    match &l.right {
        Some(lr) => {
            if heavy {
                proof {
                    assert(sized(Some(*lr)));
                    assert(l.right == Some(*lr));
                }
                let low = join(
                    share_link(&l.left),
                    l.idx,
                    share(&l.key),
                    share(&l.value),
                    share_link(&lr.left),
                );
                let high = join(share_link(&lr.right), idx, key, value, right);
                let link = join(low, lr.idx, share(&lr.key), share(&lr.value), high);
                proof {
                    assert(flat(link) =~= all);
                }
                return link;
            }
        },
        None => {},
    }
    let high = join(share_link(&l.right), idx, key, value, right);
    let link = join(share_link(&l.left), l.idx, share(&l.key), share(&l.value), high);
    proof {
        assert(flat(link) =~= all);
    }
    link
}

/// A node over two trees, of which one may have become too large: it is rotated
/// towards the other one.
fn balance<K, V>(
    left: Link<K, V>,
    idx: usize,
    key: Arc<K>,
    value: Arc<V>,
    right: Link<K, V>,
) -> (link: Link<K, V>)
    requires
        sized(left),
        sized(right),
        flat(left).len() + 1 + flat(right).len() <= usize::MAX,
    ensures
        link is Some,
        sized(link),
        flat(link) == flat(left).push((idx, (key, value))) + flat(right),
{
    let n: usize = link_len(&left);
    let m: usize = link_len(&right);
    if n + m > 1 && m / 3 > n {
        match &right {
            Some(r) => {
                return rotate_left(left, idx, key, value, r);
            },
            None => {},
        }
    }
    if n + m > 1 && n / 3 > m {
        match &left {
            Some(l) => {
                return rotate_right(l, idx, key, value, right);
            },
            None => {},
        }
    }
    join(left, idx, key, value, right)
}

/// A tree with an entry added on the right.
pub(crate) fn append<K, V>(link: &Link<K, V>, idx: usize, key: Arc<K>, value: Arc<V>) -> (longer:
    Link<K, V>)
    requires
        sized(*link),
        flat(*link).len() < usize::MAX,
    ensures
        sized(longer),
        flat(longer) == flat(*link).push((idx, (key, value))),
    decreases *link,
{
    let ghost slot = (idx, (key, value));
    match link {
        None => {
            let longer = join(None, idx, key, value, None);
            proof {
                assert(flat(longer) =~= flat(*link).push(slot));
            }
            longer
        },
        Some(node) => {
            let right = append(&node.right, idx, key, value);
            let longer = balance(
                share_link(&node.left),
                node.idx,
                share(&node.key),
                share(&node.value),
                right,
            );
            proof {
                assert(flat(longer) =~= flat(*link).push(slot));
            }
            longer
        },
    }
}

/// A part of an ascending list ascends, and numbers on one side of a node are
/// not on the other.
proof fn lemma_sides<K, V>(left: Seq<Slot<K, V>>, slot: Slot<K, V>, right: Seq<Slot<K, V>>)
    requires
        ascending(left.push(slot) + right),
    ensures
        ascending(left),
        ascending(right),
        forall|i: int| 0 <= i < left.len() ==> (#[trigger] left[i]).0 < slot.0,
        forall|i: int| 0 <= i < right.len() ==> slot.0 < (#[trigger] right[i]).0,
{
    let all = left.push(slot) + right;
    let n = left.len();
    assert forall|i: int, j: int| 0 <= i < j < left.len() implies (#[trigger] left[i]).0 < (
    #[trigger] left[j]).0 by {
        assert(all[i].0 < all[j].0);
    }
    assert forall|i: int, j: int| 0 <= i < j < right.len() implies (#[trigger] right[i]).0 < (
    #[trigger] right[j]).0 by {
        assert(all[n + 1 + i].0 < all[n + 1 + j].0);
    }
    assert forall|i: int| 0 <= i < left.len() implies (#[trigger] left[i]).0 < slot.0 by {
        assert(all[i].0 < all[n as int].0);
    }
    assert forall|i: int| 0 <= i < right.len() implies slot.0 < (#[trigger] right[i]).0 by {
        assert(all[n as int].0 < all[n + 1 + i].0);
    }
}

/// Looks a number up.
pub(crate) fn lookup<K, V>(link: &Link<K, V>, idx: usize) -> (found: Option<(&Arc<K>, &Arc<V>)>)
    requires
        ascending(flat(*link)),
    ensures
        match found {
            Some((key, value)) => exists|i: int|
                0 <= i < flat(*link).len() && #[trigger] flat(*link)[i] == (idx, (*key, *value)),
            None => !numbered(flat(*link), idx),
        },
    decreases *link,
{
    match link {
        None => None,
        Some(node) => {
            let ghost all = flat(*link);
            let ghost left = flat(inside(*node).left);
            let ghost right = flat(inside(*node).right);
            proof {
                lemma_sides(left, inside(*node).slot(), right);
            }
            if idx < node.idx {
                let found = lookup(&node.left, idx);
                proof {
                    if found is Some {
                        let slot = (idx, (*(found->0).0, *(found->0).1));
                        let i = choose|i: int| 0 <= i < left.len() && #[trigger] left[i] == slot;
                        assert(all[i] == slot);
                    }
                    if numbered(all, idx) {
                        let i = choose|i: int| 0 <= i < all.len() && (#[trigger] all[i]).0 == idx;
                        if i > left.len() {
                            assert(right[i - left.len() - 1].0 == idx);
                        }
                        assert(left[i].0 == idx);
                    }
                }
                found
            } else if node.idx < idx {
                let found = lookup(&node.right, idx);
                proof {
                    if found is Some {
                        let slot = (idx, (*(found->0).0, *(found->0).1));
                        let i = choose|i: int| 0 <= i < right.len() && #[trigger] right[i] == slot;
                        assert(all[left.len() + 1 + i] == slot);
                    }
                    if numbered(all, idx) {
                        let i = choose|i: int| 0 <= i < all.len() && (#[trigger] all[i]).0 == idx;
                        if i < left.len() {
                            assert(left[i].0 == idx);
                        }
                        assert(right[i - left.len() - 1].0 == idx);
                    }
                }
                found
            } else {
                proof {
                    assert(all[left.len() as int] == inside(*node).slot());
                }
                Some((&node.key, &node.value))
            }
        },
    }
}

/// The first entry.
pub(crate) fn first<K, V>(link: &Link<K, V>) -> (slot: Option<(usize, &Arc<K>, &Arc<V>)>)
    ensures
        match slot {
            Some((idx, key, value)) => flat(*link).len() > 0 && flat(*link)[0] == (
                idx,
                (*key, *value),
            ),
            None => flat(*link).len() == 0,
        },
    decreases *link,
{
    match link {
        None => None,
        Some(node) => match first(&node.left) {
            Some(slot) => Some(slot),
            None => Some((node.idx, &node.key, &node.value)),
        },
    }
}

/// The last entry.
pub(crate) fn last<K, V>(link: &Link<K, V>) -> (slot: Option<(usize, &Arc<K>, &Arc<V>)>)
    ensures
        match slot {
            Some((idx, key, value)) => flat(*link).len() > 0 && flat(*link).last() == (
                idx,
                (*key, *value),
            ),
            None => flat(*link).len() == 0,
        },
    decreases *link,
{
    match link {
        None => None,
        Some(node) => match last(&node.right) {
            Some(slot) => Some(slot),
            None => Some((node.idx, &node.key, &node.value)),
        },
    }
}

/// A tree without its first entry.
pub(crate) fn without_first<K, V>(link: &Link<K, V>) -> (rest: Link<K, V>)
    requires
        sized(*link),
        flat(*link).len() > 0,
    ensures
        sized(rest),
        flat(rest) == flat(*link).skip(1),
    decreases *link,
{
    match link {
        None => None,
        Some(node) => {
            if node.left.is_none() {
                let rest = share_link(&node.right);
                proof {
                    reveal_with_fuel(flat, 2);
                    assert(flat(rest) =~= flat(*link).skip(1));
                }
                rest
            } else {
                let left = without_first(&node.left);
                let rest = balance(
                    left,
                    node.idx,
                    share(&node.key),
                    share(&node.value),
                    share_link(&node.right),
                );
                proof {
                    assert(flat(rest) =~= flat(*link).skip(1));
                }
                rest
            }
        },
    }
}

/// A tree without its last entry.
pub(crate) fn without_last<K, V>(link: &Link<K, V>) -> (rest: Link<K, V>)
    requires
        sized(*link),
        flat(*link).len() > 0,
    ensures
        sized(rest),
        flat(rest) == flat(*link).drop_last(),
    decreases *link,
{
    match link {
        None => None,
        Some(node) => {
            if node.right.is_none() {
                let rest = share_link(&node.left);
                proof {
                    reveal_with_fuel(flat, 2);
                    assert(flat(rest) =~= flat(*link).drop_last());
                }
                rest
            } else {
                let right = without_last(&node.right);
                let rest = balance(
                    share_link(&node.left),
                    node.idx,
                    share(&node.key),
                    share(&node.value),
                    right,
                );
                proof {
                    assert(flat(rest) =~= flat(*link).drop_last());
                }
                rest
            }
        },
    }
}

/// Two trees, one behind the other: the larger one gives the node between.
fn glue<K, V>(left: &Link<K, V>, right: &Link<K, V>) -> (link: Link<K, V>)
    requires
        sized(*left),
        sized(*right),
        flat(*left).len() + flat(*right).len() <= usize::MAX,
    ensures
        sized(link),
        flat(link) == flat(*left) + flat(*right),
{
    let ghost all = flat(*left) + flat(*right);
    if link_len(left) > link_len(right) {
        match last(left) {
            Some((idx, key, value)) => {
                let link = balance(
                    without_last(left),
                    idx,
                    share(key),
                    share(value),
                    share_link(right),
                );
                proof {
                    assert(flat(link) =~= all);
                }
                return link;
            },
            None => {},
        }
    } else {
        match first(right) {
            Some((idx, key, value)) => {
                let link = balance(
                    share_link(left),
                    idx,
                    share(key),
                    share(value),
                    without_first(right),
                );
                proof {
                    assert(flat(link) =~= all);
                }
                return link;
            },
            None => {},
        }
    }
    proof {
        assert(all =~= Seq::<Slot<K, V>>::empty());
    }
    None
}

/// A tree without the entry of a number.
pub(crate) fn without<K, V>(link: &Link<K, V>, idx: usize, Ghost(pos): Ghost<int>) -> (rest: Link<
    K,
    V,
>)
    requires
        sized(*link),
        ascending(flat(*link)),
        0 <= pos < flat(*link).len(),
        flat(*link)[pos].0 == idx,
        flat(*link).len() <= usize::MAX,
    ensures
        sized(rest),
        flat(rest) == flat(*link).remove(pos),
    decreases *link,
{
    match link {
        None => None,
        Some(node) => {
            let ghost all = flat(*link);
            let ghost left = flat(inside(*node).left);
            let ghost right = flat(inside(*node).right);
            proof {
                lemma_sides(left, inside(*node).slot(), right);
                assert(all[left.len() as int] == inside(*node).slot());
                if pos < left.len() {
                    assert(all[pos] == left[pos]);
                } else if pos > left.len() {
                    assert(all[pos] == right[pos - left.len() - 1]);
                }
            }
            if idx < node.idx {
                let smaller = without(&node.left, idx, Ghost(pos));
                let rest = balance(
                    smaller,
                    node.idx,
                    share(&node.key),
                    share(&node.value),
                    share_link(&node.right),
                );
                proof {
                    assert(flat(rest) =~= all.remove(pos));
                }
                rest
            } else if node.idx < idx {
                let smaller = without(&node.right, idx, Ghost(pos - left.len() - 1));
                let rest = balance(
                    share_link(&node.left),
                    node.idx,
                    share(&node.key),
                    share(&node.value),
                    smaller,
                );
                proof {
                    assert(flat(rest) =~= all.remove(pos));
                }
                rest
            } else {
                let rest = glue(&node.left, &node.right);
                proof {
                    assert(flat(rest) =~= all.remove(pos));
                }
                rest
            }
        },
    }
}

/// The entry of a number, for mutation in place. Nodes that other trees share
/// are copied first.
pub(crate) fn slot_mut<'a, K, V>(
    link: &'a mut Link<K, V>,
    idx: usize,
    Ghost(pos): Ghost<int>,
) -> (entry: Option<(&'a mut Arc<K>, &'a mut Arc<V>)>)
    requires
        sized(*old(link)),
        ascending(flat(*old(link))),
        0 <= pos < flat(*old(link)).len(),
        flat(*old(link))[pos].0 == idx,
    ensures
        sized(*final(link)),
        match entry {
            Some((key, value)) => {
                &&& flat(*old(link))[pos] == (idx, (*key, *value))
                &&& flat(*final(link)) == flat(*old(link)).update(
                    pos,
                    (idx, (*final(key), *final(value))),
                )
            },
            None => false,
        },
    decreases *old(link),
{
    let ghost before = *link;
    let ghost all = flat(before);
    let ghost after = *final(link);
    match link {
        None => None,
        Some(arc) => {
            let ghost kept = inside(*arc);
            let ghost arc_after = *final(arc);
            let node = own_mut(arc);
            let ghost left = flat(kept.left);
            let ghost right = flat(kept.right);
            let ghost node_after = *final(node);
            proof {
                lemma_sides(left, kept.slot(), right);
                assert(all[left.len() as int] == kept.slot());
                if pos < left.len() {
                    assert(all[pos] == left[pos]);
                } else if pos > left.len() {
                    assert(all[pos] == right[pos - left.len() - 1]);
                }
            }
            if idx < node.idx {
                slot_mut(&mut node.left, idx, Ghost(pos))
            } else if node.idx < idx {
                slot_mut(&mut node.right, idx, Ghost(pos - left.len() - 1))
            } else {
                Some((&mut node.key, &mut node.value))
            }
        },
    }
}

/// Nodes whose entries, with what stands on their right, are still to be met;
/// the next one last.
pub open(crate) spec fn pending<'a, K, V>(stack: Seq<&'a OrdNode<K, V>>) -> Seq<Slot<K, V>>
    decreases stack.len(),
{
    if stack.len() == 0 {
        Seq::empty()
    } else {
        seq![stack.last().slot()] + flat(stack.last().right) + pending(stack.drop_last())
    }
}

/// A walk over a tree, in the order of the numbers.
pub struct OrdWalk<'a, K, V> {
    stack: Vec<&'a OrdNode<K, V>>,
    remaining: usize,
}

impl<'a, K, V> View for OrdWalk<'a, K, V> {
    type V = Seq<Slot<K, V>>;

    /// The entries that are left.
    closed spec fn view(&self) -> Seq<Slot<K, V>> {
        pending(self.stack@)
    }
}

impl<'a, K, V> OrdWalk<'a, K, V> {
    /// Whether the walk knows how much is left.
    pub closed spec fn wf(self) -> bool {
        self.remaining == pending(self.stack@).len()
    }

    /// A walk over a tree.
    pub(crate) fn over(link: &'a Link<K, V>) -> (walk: Self)
        requires
            sized(*link),
        ensures
            walk.wf(),
            walk@ == flat(*link),
    {
        let mut walk = OrdWalk { stack: Vec::new(), remaining: link_len(link) };
        walk.descend(link);
        proof {
            assert(walk@ =~= flat(*link));
        }
        walk
    }

    /// Goes down to the left from a tree.
    fn descend(&mut self, link: &'a Link<K, V>)
        ensures
            final(self)@ == flat(*link) + old(self)@,
            final(self).remaining == old(self).remaining,
        decreases *link,
    {
        match link {
            Some(node) => {
                let ghost before = self.stack@;
                self.stack.push(&**node);
                let ghost middle = self@;
                proof {
                    assert(self.stack@.drop_last() =~= before);
                }
                self.descend(&node.left);
                proof {
                    assert(self@ =~= flat(*link) + pending(before));
                }
            },
            None => {
                proof {
                    assert(self@ =~= flat(*link) + self@);
                }
            },
        }
    }

    /// Number of entries that are left.
    pub fn len(&self) -> (n: usize)
        requires
            self.wf(),
        ensures
            n == self@.len(),
    {
        self.remaining
    }

    /// The next entry.
    pub(crate) fn next(&mut self) -> (slot: Option<(&'a Arc<K>, &'a Arc<V>)>)
        requires
            old(self).wf(),
        ensures
            final(self).wf(),
            match slot {
                Some((key, value)) => {
                    &&& old(self)@.len() > 0
                    &&& old(self)@[0].1 == (*key, *value)
                    &&& final(self)@ == old(self)@.skip(1)
                },
                None => old(self)@.len() == 0 && final(self)@.len() == 0,
            },
    {
        let ghost before = self.stack@;
        match self.stack.pop() {
            Some(node) => {
                proof {
                    assert(self.stack@ =~= before.drop_last());
                }
                self.descend(&node.right);
                self.remaining -= 1;
                proof {
                    assert(self@ =~= pending(before).skip(1));
                }
                Some((&node.key, &node.value))
            },
            None => None,
        }
    }
}

} // verus!
