//! Laws on calls of sets: what a comparison, a list of differences and a union say
//! of the sets that they were given.
use crate::fingerprint::{key_sum, key_weight, lemma_sum_insert};
use crate::hash_key::{HashKey, HashState};
use crate::hash_set::GenericHashSet;
use crate::hash_set_diff::{is_there, law_set_patch, tells, DiffItem, DiffIter};
use crate::hash_set_ops::{listed, total_len, union_all};
use crate::hash_width::law_mixed_apart;
use vstd::prelude::*;

verus! {

/// A test for equality that says yes speaks of sets with the same elements, or of
/// sets of one size whose fingerprints are the same.
pub proof fn law_set_test_eq<S: HashState, A: HashKey<S>>(
    a: &GenericHashSet<A, S>,
    b: &GenericHashSet<A, S>,
    equal: bool,
)
    requires
        a.wf(),
        b.wf(),
        call_ensures(GenericHashSet::<A, S>::test_eq, (a, b), equal),
    ensures
        (forall|e: A::V| #[trigger] a@.contains(e) == b@.contains(e)) ==> equal,
        equal ==> (forall|e: A::V| #[trigger] a@.contains(e) == b@.contains(e)) || (a@.len()
            == b@.len() && a.state() == b.state() && key_sum::<S, A>(a@, a.state()) == key_sum::<
            S,
            A,
        >(b@, b.state())),
{
    a.lemma_set();
    b.lemma_set();
    if forall|e: A::V| #[trigger] a@.contains(e) == b@.contains(e) {
        assert(a@ =~= b@);
    }
}

/// Sets that differ in one element test as equal only where the two elements have
/// one hash.
pub proof fn law_changed_element_differs<S: HashState, A: HashKey<S>>(
    a: &GenericHashSet<A, S>,
    b: &GenericHashSet<A, S>,
    rest: Set<A::V>,
    x: A::V,
    y: A::V,
)
    requires
        a.wf(),
        b.wf(),
        !rest.contains(x),
        !rest.contains(y),
        a@ == rest.insert(x),
        b@ == rest.insert(y),
        call_ensures(GenericHashSet::<A, S>::test_eq, (a, b), true),
    ensures
        x == y || A::hash_in(x, a.state()) == A::hash_in(y, a.state()),
{
    a.lemma_set();
    law_set_test_eq(a, b, true);
    assert(rest =~= a@.remove(x));
    let weight = key_weight::<S, A>(a.state());
    lemma_sum_insert(rest, weight, x);
    lemma_sum_insert(rest, weight, y);
    if forall|e: A::V| #[trigger] a@.contains(e) == b@.contains(e) {
        assert(a@.contains(x) == b@.contains(x));
    } else {
        law_mixed_apart(A::hash_in(x, a.state()), A::hash_in(y, a.state()));
    }
}

/// A list of differences between sets says what became of every element: each is
/// an addition or a removal that is there, and every element of one set only has
/// one. The one exception is an empty list for sets whose fingerprints are the
/// same, which are taken to be equal.
pub proof fn law_set_diff<'a, 'b, S: HashState, A: HashKey<S>>(
    a: &'a GenericHashSet<A, S>,
    b: &'b GenericHashSet<A, S>,
    iter: DiffIter<'a, 'b, A>,
)
    requires
        a.wf(),
        b.wf(),
        call_ensures(GenericHashSet::<A, S>::diff, (a, b), iter),
        a.merkle() != b.merkle() || a@.len() != b@.len() || a.state() != b.state() || iter@.len()
            > 0,
    ensures
        forall|i: int|
            0 <= i < iter@.len() ==> match #[trigger] iter@[i] {
                DiffItem::Add(e) => !a@.contains(e@) && b@.contains(e@),
                DiffItem::Remove(e) => a@.contains(e@) && !b@.contains(e@),
            },
        forall|e: A::V| #[trigger]
            a@.contains(e) && !b@.contains(e) ==> exists|i: int|
                0 <= i < iter@.len() && (#[trigger] iter@[i] matches DiffItem::Remove(x) && x@
                    == e),
        forall|e: A::V| #[trigger]
            b@.contains(e) && !a@.contains(e) ==> exists|i: int|
                0 <= i < iter@.len() && (#[trigger] iter@[i] matches DiffItem::Add(x) && x@ == e),
        forall|i: int, j: int|
            0 <= i < j < iter@.len() ==> (#[trigger] iter@[i]).element() != (
            #[trigger] iter@[j]).element(),
{
    lemma_set_told(iter@, a@, b@);
}

/// Where it is known that two sets have no lineage in common, a list of
/// differences is complete, whatever their fingerprints are.
pub proof fn law_set_diff_of_strangers<'a, 'b, S: HashState, A: HashKey<S>>(
    a: &'a GenericHashSet<A, S>,
    b: &'b GenericHashSet<A, S>,
    iter: DiffIter<'a, 'b, A>,
    e: A::V,
)
    requires
        a.wf(),
        b.wf(),
        call_ensures(GenericHashSet::<A, S>::diff_with, (a, b, false), iter),
    ensures
        a@.contains(e) && !b@.contains(e) <==> exists|i: int|
            0 <= i < iter@.len() && (#[trigger] iter@[i] matches DiffItem::Remove(x) && x@ == e),
        b@.contains(e) && !a@.contains(e) <==> exists|i: int|
            0 <= i < iter@.len() && (#[trigger] iter@[i] matches DiffItem::Add(x) && x@ == e),
{
    lemma_set_told(iter@, a@, b@);
}

proof fn lemma_set_told<'a, 'b, A: View>(
    items: Seq<DiffItem<'a, 'b, A>>,
    a: Set<A::V>,
    b: Set<A::V>,
)
    requires
        tells(items, a, b),
    ensures
        forall|i: int|
            0 <= i < items.len() ==> match #[trigger] items[i] {
                DiffItem::Add(e) => !a.contains(e@) && b.contains(e@),
                DiffItem::Remove(e) => a.contains(e@) && !b.contains(e@),
            },
        forall|e: A::V| #[trigger]
            a.contains(e) && !b.contains(e) ==> exists|i: int|
                0 <= i < items.len() && (#[trigger] items[i] matches DiffItem::Remove(x) && x@
                    == e),
        forall|e: A::V| #[trigger]
            b.contains(e) && !a.contains(e) ==> exists|i: int|
                0 <= i < items.len() && (#[trigger] items[i] matches DiffItem::Add(x) && x@ == e),
{
    assert forall|i: int| 0 <= i < items.len() implies match #[trigger] items[i] {
        DiffItem::Add(e) => !a.contains(e@) && b.contains(e@),
        DiffItem::Remove(e) => a.contains(e@) && !b.contains(e@),
    } by {
        assert(is_there(items[i], a, b));
    }
    assert forall|e: A::V| #[trigger] a.contains(e) && !b.contains(e) implies exists|i: int|
        0 <= i < items.len() && (#[trigger] items[i] matches DiffItem::Remove(x) && x@ == e) by {
        let i = choose|i: int| 0 <= i < items.len() && (#[trigger] items[i]).element() == e;
        assert(is_there(items[i], a, b));
    }
    assert forall|e: A::V| #[trigger] b.contains(e) && !a.contains(e) implies exists|i: int|
        0 <= i < items.len() && (#[trigger] items[i] matches DiffItem::Add(x) && x@ == e) by {
        assert(a.contains(e) != b.contains(e));
        let i = choose|i: int| 0 <= i < items.len() && (#[trigger] items[i]).element() == e;
        assert(is_there(items[i], a, b));
    }
}

/// A difference between sets, applied to the old one, makes the new one.
pub proof fn law_set_diff_applied<'a, 'b, S: HashState, A: HashKey<S> + Clone>(
    a: &'a GenericHashSet<A, S>,
    b: &'b GenericHashSet<A, S>,
    iter: DiffIter<'a, 'b, A>,
    items: Vec<DiffItem<'a, 'b, A>>,
    made: GenericHashSet<A, S>,
)
    requires
        a.wf(),
        b.wf(),
        forall|e: A, copy: A| #[trigger] cloned(e, copy) ==> copy@ == e@,
        call_ensures(GenericHashSet::<A, S>::diff_with, (a, b, false), iter),
        call_ensures(DiffIter::<'a, 'b, A>::collect, (iter,), items),
        call_ensures(GenericHashSet::<A, S>::apply_diff, (a, items), made),
    ensures
        made@ == b@,
{
    law_set_patch(items@, a@, b@);
}

/// A union of a list of sets has just the elements that one of them has.
pub proof fn law_set_unions<S: HashState + Default, A: HashKey<S>>(
    sets: Vec<GenericHashSet<A, S>>,
    set: GenericHashSet<A, S>,
    e: A::V,
)
    requires
        forall|i: int| 0 <= i < sets@.len() ==> (#[trigger] sets@[i]).wf(),
        total_len(sets@) <= usize::MAX,
        call_ensures(GenericHashSet::<A, S>::unions, (sets,), set),
    ensures
        set@.contains(e) <==> exists|i: int| 0 <= i < sets@.len() && (#[trigger] sets@[i])@.contains(e),
{
    lemma_union_all(sets@, e);
}

proof fn lemma_union_all<A: View, S>(sets: Seq<GenericHashSet<A, S>>, e: A::V)
    ensures
        union_all(sets).contains(e) <==> exists|i: int|
            0 <= i < sets.len() && (#[trigger] sets[i])@.contains(e),
    decreases sets.len(),
{
    if sets.len() > 0 {
        let front = sets.drop_last();
        let n = sets.len() - 1;
        lemma_union_all(front, e);
        if union_all(front).contains(e) {
            let i = choose|i: int| 0 <= i < front.len() && (#[trigger] front[i])@.contains(e);
            assert(sets[i]@.contains(e));
        }
        if exists|i: int| 0 <= i < sets.len() && (#[trigger] sets[i])@.contains(e) {
            let i = choose|i: int| 0 <= i < sets.len() && (#[trigger] sets[i])@.contains(e);
            if i < n {
                assert(front[i]@.contains(e));
            }
        }
    }
}

/// A set of a list has just the elements that stand in the list.
pub proof fn law_set_of_list<S: Default, A: HashKey<S>>(
    list: Vec<A>,
    set: GenericHashSet<A, S>,
    e: A::V,
)
    requires
        call_ensures(GenericHashSet::<A, S>::from_vec, (list,), set),
    ensures
        set@.contains(e) <==> exists|i: int| 0 <= i < list@.len() && (#[trigger] list@[i])@ == e,
{
    let all = crate::map_iters::names(list@);
    if all.contains(e) {
        let i = all.index_of(e);
        assert(list@[i]@ == e);
    }
    if exists|i: int| 0 <= i < list@.len() && (#[trigger] list@[i])@ == e {
        let i = choose|i: int| 0 <= i < list@.len() && (#[trigger] list@[i])@ == e;
        assert(all[i] == e);
    }
}

/// What is kept of a set is what the function says `true` of.
pub proof fn law_set_retain<S, A: HashKey<S>, F: Fn(&A) -> bool>(
    set: &mut GenericHashSet<A, S>,
    f: F,
    e: A::V,
)
    requires
        old(set).wf(),
        forall|a: A| old(set)@.contains(#[trigger] a@) ==> f.requires((&a,)),
        call_ensures(GenericHashSet::<A, S>::retain::<F>, (set, f), ()),
    ensures
        final(set)@.contains(e) ==> old(set)@.contains(e),
        old(set)@.contains(e) ==> exists|a: A| #[trigger]
            a@ == e && f.ensures((&a,), final(set)@.contains(e)),
{
}

/// A partition puts every element in one of two sets, as the function says.
pub proof fn law_set_partition<S: Default, A: HashKey<S>, F: Fn(&A) -> bool>(
    set: &GenericHashSet<A, S>,
    f: F,
    parts: (GenericHashSet<A, S>, GenericHashSet<A, S>),
    e: A::V,
)
    requires
        set.wf(),
        forall|a: A| set@.contains(#[trigger] a@) ==> f.requires((&a,)),
        call_ensures(GenericHashSet::<A, S>::partition::<F>, (set, f), parts),
    ensures
        set@.contains(e) ==> parts.0@.contains(e) != parts.1@.contains(e),
        parts.0@.contains(e) || parts.1@.contains(e) ==> set@.contains(e),
        set@.contains(e) ==> exists|a: A| #[trigger]
            a@ == e && f.ensures((&a,), parts.0@.contains(e)),
{
    assert(parts.0@.union(parts.1@).contains(e) == set@.contains(e));
}

/// A parallel filter keeps what the function says `true` of.
pub proof fn law_set_par_filter<
    S: Default + Send + Sync,
    A: HashKey<S> + Send + Sync,
    F: Fn(&A) -> bool + Sync + Send,
>(set: &GenericHashSet<A, S>, f: F, kept: GenericHashSet<A, S>, e: A::V)
    requires
        set.wf(),
        forall|a: A| set@.contains(#[trigger] a@) ==> f.requires((&a,)),
        call_ensures(GenericHashSet::<A, S>::par_filter::<F>, (set, f), kept),
    ensures
        kept@.contains(e) ==> set@.contains(e),
        set@.contains(e) ==> exists|a: A| #[trigger]
            a@ == e && f.ensures((&a,), kept@.contains(e)),
{
}

/// A symmetric difference has the elements of each set that the other has not, also
/// where it is made in parallel.
pub proof fn law_set_symmetric_difference<
    S: Default + Send + Sync,
    A: HashKey<S> + Send + Sync,
>(
    a: GenericHashSet<A, S>,
    b: GenericHashSet<A, S>,
    made: GenericHashSet<A, S>,
    par_made: GenericHashSet<A, S>,
    e: A::V,
)
    requires
        a.wf(),
        b.wf(),
        a@.len() + b@.len() <= usize::MAX,
        call_ensures(GenericHashSet::<A, S>::symmetric_difference, (a, b), made),
        call_ensures(GenericHashSet::<A, S>::par_symmetric_difference, (a, b), par_made),
    ensures
        made@.contains(e) == (a@.contains(e) != b@.contains(e)),
        par_made@.contains(e) == (a@.contains(e) != b@.contains(e)),
{
}

/// Of equal elements, a union keeps those of the smaller set, and those of the
/// second where both are of one size.
pub proof fn law_set_union_elements<S, A: HashKey<S>>(
    a: GenericHashSet<A, S>,
    b: GenericHashSet<A, S>,
    set: GenericHashSet<A, S>,
    e: A::V,
)
    requires
        a.wf(),
        b.wf(),
        a@.len() + b@.len() <= usize::MAX,
        call_ensures(GenericHashSet::<A, S>::union, (a, b), set),
    ensures
        set@.contains(e) == (a@.contains(e) || b@.contains(e)),
        a@.contains(e) && b@.contains(e) ==> set.held()[e] == if a@.len() >= b@.len() {
            b.held()[e]
        } else {
            a.held()[e]
        },
        a@.contains(e) && !b@.contains(e) ==> set.held()[e] == a.held()[e],
        b@.contains(e) && !a@.contains(e) ==> set.held()[e] == b.held()[e],
{
    a.lemma_set();
    b.lemma_set();
    assert(a.held().dom().contains(e) == a@.contains(e));
    assert(b.held().dom().contains(e) == b@.contains(e));
    assert(a.held().len() == a@.len());
    assert(b.held().len() == b@.len());
}

/// A set that is extended by a list has its own elements and those of the list; of
/// equal ones it holds the last that came.
pub proof fn law_set_extend<S, A: HashKey<S>>(
    set: &mut GenericHashSet<A, S>,
    list: Vec<A>,
    i: int,
    e: A::V,
)
    requires
        old(set).wf(),
        old(set)@.len() + list@.len() <= usize::MAX,
        call_ensures(GenericHashSet::<A, S>::extend, (set, list), ()),
    ensures
        final(set)@.contains(e) <==> old(set)@.contains(e) || exists|j: int|
            0 <= j < list@.len() && (#[trigger] list@[j])@ == e,
        0 <= i < list@.len() && (forall|j: int|
            i < j < list@.len() ==> (#[trigger] list@[j])@ != list@[i]@)
            ==> final(set).held()[list@[i]@] == list@[i],
{
    let all = crate::map_iters::names(list@);
    if all.contains(e) {
        let j = all.index_of(e);
        assert(list@[j]@ == e);
    }
    if exists|j: int| 0 <= j < list@.len() && (#[trigger] list@[j])@ == e {
        let j = choose|j: int| 0 <= j < list@.len() && (#[trigger] list@[j])@ == e;
        assert(all[j] == e);
    }
    if 0 <= i < list@.len() && (forall|j: int|
        i < j < list@.len() ==> (#[trigger] list@[j])@ != list@[i]@) {
        lemma_listed(old(set).held(), list@, i);
    }
}

proof fn lemma_listed<A: View>(held: Map<A::V, A>, list: Seq<A>, i: int)
    requires
        0 <= i < list.len(),
        forall|j: int| i < j < list.len() ==> (#[trigger] list[j])@ != list[i]@,
    ensures
        listed(held, list)[list[i]@] == list[i],
    decreases list.len(),
{
    let front = list.drop_last();
    let n = list.len() - 1;
    if i < n {
        assert(list[n]@ != list[i]@);
        assert forall|j: int| i < j < front.len() implies (#[trigger] front[j])@ != front[i]@ by {
            assert(list[j]@ != list[i]@);
        }
        lemma_listed(held, front, i);
    }
}

} // verus!
