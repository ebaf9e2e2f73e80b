//! The difference between two hash sets.
use crate::diff;
use crate::hash_key::{faithful, HashKey, HashState};
use crate::hash_set::GenericHashSet;
use crate::hash_set_ops::same_set_fingerprints;
use std::sync::Arc;
use vstd::prelude::*;

verus! {

/// A difference between an old and a new set.
pub enum DiffItem<'a, 'b, A> {
    /// The new set has an element that the old one has not.
    Add(&'b A),
    /// The old set has an element that the new one has not.
    Remove(&'a A),
}

impl<'a, 'b, A: View> DiffItem<'a, 'b, A> {
    /// The element that a difference is about.
    pub open spec fn element(self) -> A::V {
        match self {
            DiffItem::Add(a) => a@,
            DiffItem::Remove(a) => a@,
        }
    }
}

/// Whether a difference is there between two sets.
pub open spec fn is_there<'a, 'b, A: View>(
    item: DiffItem<'a, 'b, A>,
    before: Set<A::V>,
    after: Set<A::V>,
) -> bool {
    match item {
        DiffItem::Add(a) => !before.contains(a@) && after.contains(a@),
        DiffItem::Remove(a) => before.contains(a@) && !after.contains(a@),
    }
}

/// Whether a list of differences is that between two sets: each of them is
/// there, no element occurs twice, and no changed element is left out.
pub open spec fn tells<'a, 'b, A: View>(
    items: Seq<DiffItem<'a, 'b, A>>,
    before: Set<A::V>,
    after: Set<A::V>,
) -> bool {
    &&& forall|i: int| 0 <= i < items.len() ==> is_there(#[trigger] items[i], before, after)
    &&& forall|i: int, j: int|
        0 <= i < j < items.len() ==> (#[trigger] items[i]).element() != (
        #[trigger] items[j]).element()
    &&& forall|element: A::V|
        (#[trigger] before.contains(element)) != after.contains(element) ==> exists|i: int|
            0 <= i < items.len() && (#[trigger] items[i]).element() == element
}

/// What differences, applied in order, make of a set.
pub open spec fn patched<'a, 'b, A: View>(
    set: Set<A::V>,
    items: Seq<DiffItem<'a, 'b, A>>,
) -> Set<A::V>
    decreases items.len(),
{
    if items.len() == 0 {
        set
    } else {
        let front = patched(set, items.drop_last());
        match items.last() {
            DiffItem::Add(a) => front.insert(a@),
            DiffItem::Remove(a) => front.remove(a@),
        }
    }
}

/// The difference between two sets, applied to the old one, makes the new one.
pub proof fn law_set_patch<'a, 'b, A: View>(
    items: Seq<DiffItem<'a, 'b, A>>,
    before: Set<A::V>,
    after: Set<A::V>,
)
    requires
        tells(items, before, after),
    ensures
        patched(before, items) == after,
{
    lemma_patched(items, items.len() as int, before, after);
    assert(items.take(items.len() as int) =~= items);
    assert(patched(before, items) =~= after);
}

/// There are no more differences than elements.
pub proof fn law_set_diff_size<'a, 'b, A: View>(
    items: Seq<DiffItem<'a, 'b, A>>,
    before: Set<A::V>,
    after: Set<A::V>,
)
    requires
        tells(items, before, after),
        before.finite(),
        after.finite(),
    ensures
        items.len() <= before.len() + after.len(),
{
    let elements = Seq::new(items.len(), |i: int| items[i].element());
    let all = before.union(after);
    assert forall|i: int, j: int| 0 <= i < elements.len() && 0 <= j < elements.len() && i
        != j implies elements[i] != elements[j] by {
        if i < j {
            assert(items[i].element() != items[j].element());
        } else {
            assert(items[j].element() != items[i].element());
        }
    }
    assert forall|element: A::V| elements.to_set().contains(element) implies all.contains(
        element,
    ) by {
        let i = choose|i: int| 0 <= i < elements.len() && elements[i] == element;
        assert(is_there(items[i], before, after));
    }
    elements.unique_seq_to_set();
    vstd::set_lib::lemma_len_subset(elements.to_set(), all);
    vstd::set_lib::lemma_len_union(before, after);
}

proof fn lemma_patched<'a, 'b, A: View>(
    items: Seq<DiffItem<'a, 'b, A>>,
    n: int,
    before: Set<A::V>,
    after: Set<A::V>,
)
    requires
        tells(items, before, after),
        0 <= n <= items.len(),
    ensures
        forall|element: A::V| #[trigger]
            patched(before, items.take(n)).contains(element) == if exists|i: int|
                0 <= i < n && (#[trigger] items[i]).element() == element {
                after.contains(element)
            } else {
                before.contains(element)
            },
    decreases n,
{
    if n > 0 {
        lemma_patched(items, n - 1, before, after);
        assert(items.take(n).drop_last() =~= items.take(n - 1));
        let last = items[n - 1];
        assert(is_there(last, before, after));
        assert forall|element: A::V| #[trigger]
            patched(before, items.take(n)).contains(element) == if exists|i: int|
                0 <= i < n && (#[trigger] items[i]).element() == element {
                after.contains(element)
            } else {
                before.contains(element)
            } by {
            let front = patched(before, items.take(n - 1));
            assert(items.take(n).last() == last);
            assert(patched(before, items.take(n)) == match last {
                DiffItem::Add(a) => front.insert(a@),
                DiffItem::Remove(a) => front.remove(a@),
            });
            assert(front.contains(element) == front.contains(element));
            if element == last.element() {
                assert(items[n - 1].element() == element);
            } else if exists|i: int| 0 <= i < n && (#[trigger] items[i]).element() == element {
                let i = choose|i: int| 0 <= i < n && (#[trigger] items[i]).element() == element;
                assert(0 <= i < n - 1 && items[i].element() == element);
            }
        }
    }
}

/// An iterator over the differences between two sets.
pub struct DiffIter<'a, 'b, A> {
    diffs: Vec<DiffItem<'a, 'b, A>>,
    index: usize,
}

impl<'a, 'b, A> View for DiffIter<'a, 'b, A> {
    type V = Seq<DiffItem<'a, 'b, A>>;

    /// The differences that are left.
    closed spec fn view(&self) -> Seq<DiffItem<'a, 'b, A>> {
        self.diffs@.skip(self.index as int)
    }
}

impl<'a, 'b, A> DiffIter<'a, 'b, A> {
    /// Whether the iterator stands in its list.
    pub closed spec fn wf(self) -> bool {
        self.index <= self.diffs@.len()
    }

    /// An iterator over a list.
    fn over(diffs: Vec<DiffItem<'a, 'b, A>>) -> (iter: Self)
        ensures
            iter.wf(),
            iter@ == diffs@,
    {
        proof {
            assert(diffs@.skip(0) =~= diffs@);
        }
        DiffIter { diffs, index: 0 }
    }

    /// The next difference.
    pub fn next(&mut self) -> (item: Option<DiffItem<'a, 'b, A>>)
        requires
            old(self).wf(),
        ensures
            final(self).wf(),
            match item {
                Some(d) => {
                    &&& old(self)@.len() > 0
                    &&& d == old(self)@[0]
                    &&& final(self)@ == old(self)@.skip(1)
                },
                None => old(self)@.len() == 0 && final(self)@.len() == 0,
            },
    {
        if self.index < self.diffs.len() {
            let item = match &self.diffs[self.index] {
                DiffItem::Add(a) => DiffItem::Add(*a),
                DiffItem::Remove(a) => DiffItem::Remove(*a),
            };
            self.index += 1;
            proof {
                assert(self@ =~= old(self)@.skip(1));
            }
            Some(item)
        } else {
            None
        }
    }

    /// Number of differences that are left.
    pub fn len(&self) -> (n: usize)
        requires
            self.wf(),
        ensures
            n == self@.len(),
    {
        self.diffs.len() - self.index
    }

    /// All differences that are left.
    pub fn collect(self) -> (items: Vec<DiffItem<'a, 'b, A>>)
        requires
            self.wf(),
        ensures
            items@ == self@,
    {
        let mut iter = self;
        let mut items: Vec<DiffItem<'a, 'b, A>> = Vec::new();
        let ghost all = iter@;
        loop
            invariant
                iter.wf(),
                items@ + iter@ == all,
            ensures
                items@ == all,
            decreases iter@.len(),
        {
            match iter.next() {
                Some(item) => {
                    items.push(item);
                    proof {
                        assert(items@ + iter@ =~= all);
                    }
                },
                None => {
                    proof {
                        assert(items@ =~= all);
                    }
                    break;
                },
            }
        }
        items
    }
}

impl<A, S> GenericHashSet<A, S> {
    /// The differences between this set, the old one, and another, the new one.
    /// Sets of one lineage with the same fingerprint are taken to be equal.
    pub fn diff<'a, 'b>(&'a self, other: &'b Self) -> (iter: DiffIter<'a, 'b, A>) where
        A: HashKey<S>,
        S: HashState,

        requires
            self.wf(),
            other.wf(),
        ensures
            iter.wf(),
            tells(iter@, self@, other@) || (same_set_fingerprints(*self, *other) && iter@.len()
                == 0),
    {
        let same_lineage = self.same_lineage(other);
        self.diff_with(other, same_lineage)
    }

    /// The differences between two sets, given whether they have one lineage.
    pub fn diff_with<'a, 'b>(&'a self, other: &'b Self, same_lineage: bool) -> (iter: DiffIter<
        'a,
        'b,
        A,
    >) where A: HashKey<S>, S: HashState
        requires
            self.wf(),
            other.wf(),
        ensures
            iter.wf(),
            if same_lineage && same_set_fingerprints(*self, *other) {
                iter@.len() == 0
            } else {
                tells(iter@, self@, other@)
            },
    {
        let mut diffs: Vec<DiffItem<'a, 'b, A>> = Vec::new();
        if self.ptr_eq(other) {
            return DiffIter::over(diffs);
        }
        if same_lineage && self.len() == other.len() && self.hasher().same_state(other.hasher())
            && self.merkle_hash() == other.merkle_hash() {
            return DiffIter::over(diffs);
        }
        proof {
            self.lemma_below();
            other.lemma_below();
        }
        let items = self.map().diff_with(other.map(), false).collect();
        let mut i: usize = 0;
        while i < items.len()
            invariant
                i <= items@.len(),
                diffs@.len() == i,
                self@ == self.below()@.dom(),
                other@ == other.below()@.dom(),
                diff::describes(items@, self.below()@, other.below()@),
                forall|j: int|
                    0 <= j < i ==> is_there(#[trigger] diffs@[j], self@, other@)
                        && diffs@[j].element() == items@[j].key(),
            decreases items@.len() - i,
        {
            proof {
                assert(diff::item_true(items@[i as int], self.below()@, other.below()@));
            }
            match &items[i] {
                diff::DiffItem::Add(a, _) => {
                    diffs.push(DiffItem::Add(*a));
                },
                diff::DiffItem::Remove(a, _) => {
                    diffs.push(DiffItem::Remove(*a));
                },
                diff::DiffItem::Update { .. } => {
                    proof {
                        assert(false);
                    }
                },
            }
            i += 1;
        }
        proof {
            assert forall|x: int, y: int| 0 <= x < y < diffs@.len() implies (
            #[trigger] diffs@[x]).element() != (#[trigger] diffs@[y]).element() by {
                assert(items@[x].key() != items@[y].key());
            }
            assert forall|element: A::V|
                (#[trigger] self@.contains(element)) != other@.contains(
                    element,
                ) implies exists|j: int|
                0 <= j < diffs@.len() && (#[trigger] diffs@[j]).element() == element by {
                assert(diff::changed(self.below()@, other.below()@, element));
                let j = choose|j: int|
                    0 <= j < items@.len() && (#[trigger] items@[j]).key() == element;
                assert(diffs@[j].element() == element);
            }
        }
        DiffIter::over(diffs)
    }

    /// A set with differences applied, in order: additions insert clones,
    /// removals remove.
    pub fn apply_diff<'a, 'b>(&self, diff: Vec<DiffItem<'a, 'b, A>>) -> (set: Self) where
        A: HashKey<S> + Clone,
        S: HashState,

        requires
            self.wf(),
            self@.len() + diff@.len() <= usize::MAX,
        ensures
            set.wf(),
            set.state() == self.state(),
            set.top() is None == (self.top() is None && diff@.len() == 0),
            set@.len() <= self@.len() + diff@.len(),
            diff@.len() == 0 ==> set == *self,
            faithful::<A>() ==> set@ == patched(self@, diff@),
    {
        let mut set = self.clone();
        let mut i: usize = 0;
        proof {
            self.lemma_set();
        }
        while i < diff.len()
            invariant
                i <= diff@.len(),
                self@.len() + diff@.len() <= usize::MAX,
                set.wf(),
                set.state() == self.state(),
                set@.finite(),
                set@.len() <= self@.len() + i,
                set.top() is None == (self.top() is None && i == 0),
                i == 0 ==> set == *self,
                faithful::<A>() ==> set@ == patched(self@, diff@.take(i as int)),
            decreases diff@.len() - i,
        {
            proof {
                assert(diff@.take(i + 1).drop_last() =~= diff@.take(i as int));
            }
            match &diff[i] {
                DiffItem::Add(a) => {
                    let copy: A = (*a).clone();
                    proof {
                        assert(cloned(**a, copy));
                    }
                    set.insert_shared(Arc::new(copy));
                },
                DiffItem::Remove(a) => {
                    set.discard(*a);
                },
            }
            i += 1;
        }
        proof {
            assert(diff@.take(diff@.len() as int) =~= diff@);
        }
        set
    }
}

} // verus!
