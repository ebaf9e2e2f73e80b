//! Comparison of nodes: the same keys in the same places, with equal values.
use crate::entries::children_entries;
use crate::hash_key::HashKey;
use crate::hash_map_query::lawful_eq;
use crate::node::{ChampNode, Pair};
use crate::shape::lemma_shape_entries;
use crate::shape::{same_keys, same_shape};
use crate::shared::{inside, same_allocation};
use std::sync::Arc;
use vstd::prelude::*;
use vstd::std_specs::cmp::PartialEqSpec;

verus! {

/// Whether two lists of entries have values that are equal by `==`, in order.
pub open spec fn equal_values<K, V: PartialEq>(a: Seq<Pair<K, V>>, b: Seq<Pair<K, V>>) -> bool {
    &&& a.len() == b.len()
    &&& forall|i: int| 0 <= i < a.len() ==> (*(#[trigger] a[i]).1).eq_spec(&*b[i].1)
}

/// Whether two nodes have the same keys in the same places, with equal values.
pub open spec fn equal_nodes<K: View, V: PartialEq>(a: ChampNode<K, V>, b: ChampNode<K, V>) -> bool {
    same_shape(a, b) && equal_values(a.entries(), b.entries())
}

/// A node is equal to itself.
pub(crate) proof fn lemma_equal_self<K: View, V: PartialEq>(node: ChampNode<K, V>)
    requires
        lawful_eq::<V>(),
    ensures
        equal_nodes(node, node),
{
    lemma_shape_self(node);
}

/// A node has its own shape.
pub(crate) proof fn lemma_shape_self<K: View, V>(node: ChampNode<K, V>)
    ensures
        same_shape(node, node),
    decreases node,
{
    match node {
        ChampNode::Inner(inner) => {
            assert forall|i: int| 0 <= i < inner.children@.len() implies same_shape(
                *#[trigger] inner.children@[i],
                *inner.children@[i],
            ) by {
                lemma_shape_self(inside(inner.children@[i]));
            }
        },
        ChampNode::Collision(_) => {},
    }
}

/// Values of two lists, one behind the other, are equal where those of each are.
pub(crate) proof fn lemma_values_join<K, V: PartialEq>(
    a: Seq<Pair<K, V>>,
    b: Seq<Pair<K, V>>,
    x: Seq<Pair<K, V>>,
    y: Seq<Pair<K, V>>,
)
    requires
        a.len() == x.len(),
    ensures
        equal_values(a + b, x + y) == (equal_values(a, x) && equal_values(b, y)),
{
    let all = a + b;
    let other = x + y;
    if equal_values(all, other) {
        assert forall|i: int| 0 <= i < a.len() implies (*(#[trigger] a[i]).1).eq_spec(
            &*x[i].1,
        ) by {
            assert(all[i] == a[i] && other[i] == x[i]);
        }
        assert forall|i: int| 0 <= i < b.len() implies (*(#[trigger] b[i]).1).eq_spec(
            &*y[i].1,
        ) by {
            assert(all[a.len() + i] == b[i] && other[a.len() + i] == y[i]);
        }
    }
    if equal_values(a, x) && equal_values(b, y) {
        assert forall|i: int| 0 <= i < all.len() implies (*(#[trigger] all[i]).1).eq_spec(
            &*other[i].1,
        ) by {
            if i < a.len() {
                assert(all[i] == a[i] && other[i] == x[i]);
            } else {
                assert(all[i] == b[i - a.len()] && other[i] == y[i - a.len()]);
            }
        }
    }
}

/// Values of two lists of nodes are equal where those of each node are.
pub(crate) proof fn lemma_children_values<K: View, V: PartialEq>(
    a: Seq<Arc<ChampNode<K, V>>>,
    b: Seq<Arc<ChampNode<K, V>>>,
)
    requires
        a.len() == b.len(),
        forall|i: int| 0 <= i < a.len() ==> same_shape(*#[trigger] a[i], *b[i]),
    ensures
        equal_values(children_entries(a), children_entries(b)) == (forall|i: int|
            0 <= i < a.len() ==> equal_values((*#[trigger] a[i]).entries(), (*b[i]).entries())),
    decreases a.len(),
{
    if a.len() > 0 {
        let c = a.subrange(1, a.len() as int);
        let d = b.subrange(1, b.len() as int);
        assert(same_shape(*a[0], *b[0]));
        lemma_shape_entries(inside(a[0]), inside(b[0]));
        assert forall|i: int| 0 <= i < c.len() implies same_shape(*#[trigger] c[i], *d[i]) by {
            assert(same_shape(*a[i + 1], *b[i + 1]));
        }
        lemma_children_values(c, d);
        lemma_values_join(
            inside(a[0]).entries(),
            children_entries(c),
            inside(b[0]).entries(),
            children_entries(d),
        );
        let each = forall|i: int|
            0 <= i < a.len() ==> equal_values((*#[trigger] a[i]).entries(), (*b[i]).entries());
        let rest = forall|i: int|
            0 <= i < c.len() ==> equal_values((*#[trigger] c[i]).entries(), (*d[i]).entries());
        if each {
            assert(equal_values((*a[0]).entries(), (*b[0]).entries()));
            assert forall|i: int| 0 <= i < c.len() implies equal_values(
                (*#[trigger] c[i]).entries(),
                (*d[i]).entries(),
            ) by {
                assert(equal_values((*a[i + 1]).entries(), (*b[i + 1]).entries()));
            }
        }
        if rest && equal_values(inside(a[0]).entries(), inside(b[0]).entries()) {
            assert forall|i: int| 0 <= i < a.len() implies equal_values(
                (*#[trigger] a[i]).entries(),
                (*b[i]).entries(),
            ) by {
                if i > 0 {
                    assert(equal_values((*c[i - 1]).entries(), (*d[i - 1]).entries()));
                }
            }
        }
    }
}

/// Tests two lists of entries for the same keys and equal values, in order.
fn pairs_equal<S, K: HashKey<S>, V: PartialEq>(a: &Vec<Pair<K, V>>, b: &Vec<Pair<K, V>>) -> (equal:
    bool)
    ensures
        equal ==> same_keys(a@, b@),
        lawful_eq::<V>() ==> equal == (same_keys(a@, b@) && equal_values(a@, b@)),
{
    if a.len() != b.len() {
        return false;
    }
    let mut i: usize = 0;
    while i < a.len()
        invariant
            i <= a@.len(),
            a@.len() == b@.len(),
            forall|j: int| 0 <= j < i ==> (*(#[trigger] b@[j]).0)@ == (*a@[j].0)@,
            lawful_eq::<V>() ==> forall|j: int|
                0 <= j < i ==> (*(#[trigger] a@[j]).1).eq_spec(&*b@[j].1),
        decreases a@.len() - i,
    {
        if !a[i].0.same_key(&*b[i].0) {
            proof {
                assert((*b@[i as int].0)@ != (*a@[i as int].0)@);
            }
            return false;
        }
        if *a[i].1 != *b[i].1 {
            proof {
                let p = a@[i as int];
                assert(lawful_eq::<V>() ==> !(*p.1).eq_spec(&*b@[i as int].1));
            }
            return false;
        }
        i += 1;
    }
    true
}

/// Tests two nodes for the same keys in the same places, with equal values.
/// Children that stand in one place in memory are not looked into.
pub(crate) fn nodes_equal<S, K: HashKey<S>, V: PartialEq>(
    a: &ChampNode<K, V>,
    b: &ChampNode<K, V>,
) -> (equal: bool)
    ensures
        equal ==> same_shape(*a, *b),
        lawful_eq::<V>() ==> equal == equal_nodes(*a, *b),
    decreases a,
{
    match (a, b) {
        (ChampNode::Inner(x), ChampNode::Inner(y)) => {
            if x.datamap != y.datamap || x.nodemap != y.nodemap || x.children.len()
                != y.children.len() {
                return false;
            }
            if !pairs_equal::<S, K, V>(&x.values, &y.values) {
                proof {
                    if lawful_eq::<V>() && same_keys(x.values@, y.values@) {
                        lemma_values_join(
                            x.values@,
                            children_entries(x.children@),
                            y.values@,
                            children_entries(y.children@),
                        );
                    }
                }
                return false;
            }
            let mut i: usize = 0;
            while i < x.children.len()
                invariant
                    i <= x.children@.len(),
                    x.children@.len() == y.children@.len(),
                    *a == ChampNode::Inner(*x),
                    *b == ChampNode::Inner(*y),
                    x.values@.len() == y.values@.len(),
                    forall|j: int|
                        0 <= j < i ==> same_shape(*#[trigger] x.children@[j], *y.children@[j]),
                    lawful_eq::<V>() ==> forall|j: int|
                        0 <= j < i ==> equal_nodes(*#[trigger] x.children@[j], *y.children@[j]),
                decreases x.children@.len() - i,
            {
                proof {
                    assert(decreases_to!(*a => a->Inner_0));
                    assert(decreases_to!(*x => x.children));
                    assert(decreases_to!(x.children => x.children@));
                    assert(decreases_to!(x.children@ => x.children@[i as int]));
                }
                let here = &x.children[i];
                let there = &y.children[i];
                let equal = if same_allocation(here, there) {
                    proof {
                        lemma_shape_self(inside(*here));
                        if lawful_eq::<V>() {
                            lemma_equal_self(inside(*here));
                        }
                    }
                    true
                } else {
                    nodes_equal::<S, K, V>(&**here, &**there)
                };
                if !equal {
                    proof {
                        if lawful_eq::<V>() && equal_nodes(*a, *b) {
                            lemma_children_values(x.children@, y.children@);
                            lemma_values_join(
                                x.values@,
                                children_entries(x.children@),
                                y.values@,
                                children_entries(y.children@),
                            );
                            assert(same_shape(*x.children@[i as int], *y.children@[i as int]));
                            assert(equal_values(
                                (*x.children@[i as int]).entries(),
                                (*y.children@[i as int]).entries(),
                            ));
                        }
                    }
                    return false;
                }
                i += 1;
            }
            proof {
                if lawful_eq::<V>() {
                    assert forall|j: int| 0 <= j < x.children@.len() implies same_shape(
                        *#[trigger] x.children@[j],
                        *y.children@[j],
                    ) && equal_values(
                        (*x.children@[j]).entries(),
                        (*y.children@[j]).entries(),
                    ) by {
                        assert(equal_nodes(*x.children@[j], *y.children@[j]));
                    }
                    lemma_children_values(x.children@, y.children@);
                    lemma_values_join(
                        x.values@,
                        children_entries(x.children@),
                        y.values@,
                        children_entries(y.children@),
                    );
                }
            }
            true
        },
        (ChampNode::Collision(x), ChampNode::Collision(y)) => {
            x.hash == y.hash && pairs_equal::<S, K, V>(&x.entries, &y.entries)
        },
        _ => false,
    }
}

} // verus!
