//! Sparse arrays: a bitmap of occupied slots beside a dense sequence.
use crate::bits::{has_bit, rank};
use crate::bits::{
    lemma_clear_bit, lemma_flag_bit, lemma_no_bit, lemma_rank_clear, lemma_rank_grows,
    lemma_rank_set, lemma_rank_zero, lemma_set_bit, lemma_slot_of_index,
};
use vstd::prelude::*;

verus! {

/// Whether the dense sequence holds one item for each set slot.
pub open spec fn sparse_ok<T>(bitmap: u32, items: Seq<T>) -> bool {
    items.len() == rank(bitmap, 32)
}

/// What slot `pos` holds.
pub open spec fn sparse_at<T>(bitmap: u32, items: Seq<T>, pos: u32) -> Option<T> {
    if has_bit(bitmap, pos) && rank(bitmap, pos as nat) < items.len() {
        Some(items[rank(bitmap, pos as nat) as int])
    } else {
        None
    }
}

/// A set slot has an item, and an item of its own.
pub(crate) proof fn lemma_sparse_index<T>(bitmap: u32, items: Seq<T>, pos: u32)
    requires
        sparse_ok(bitmap, items),
        pos < 32,
    ensures
        has_bit(bitmap, pos) ==> rank(bitmap, pos as nat) < items.len(),
        rank(bitmap, pos as nat) <= items.len(),
        forall|other: u32|
            other < 32 && other != pos && has_bit(bitmap, pos) && #[trigger] has_bit(bitmap, other)
                ==> rank(bitmap, pos as nat) != rank(bitmap, other as nat),
{
    lemma_rank_grows(bitmap, pos as nat, 32);
    assert forall|other: u32|
        other < 32 && other != pos && has_bit(bitmap, pos) && #[trigger] has_bit(
            bitmap,
            other,
        ) implies rank(bitmap, pos as nat) != rank(bitmap, other as nat) by {
        if pos < other {
            lemma_rank_grows(bitmap, pos as nat, other as nat);
        } else {
            lemma_rank_grows(bitmap, other as nat, pos as nat);
        }
    }
}

/// Replacing the item of a set slot.
pub(crate) proof fn lemma_sparse_update<T>(bitmap: u32, items: Seq<T>, pos: u32, item: T)
    requires
        sparse_ok(bitmap, items),
        pos < 32,
        has_bit(bitmap, pos),
    ensures
        rank(bitmap, pos as nat) < items.len(),
        sparse_ok(bitmap, items.update(rank(bitmap, pos as nat) as int, item)),
        forall|q: u32|
            q < 32 ==> #[trigger] sparse_at(
                bitmap,
                items.update(rank(bitmap, pos as nat) as int, item),
                q,
            ) == if q == pos {
                Some(item)
            } else {
                sparse_at(bitmap, items, q)
            },
{
    lemma_sparse_index(bitmap, items, pos);
}

/// Filling a free slot.
pub(crate) proof fn lemma_sparse_insert<T>(bitmap: u32, items: Seq<T>, pos: u32, item: T)
    requires
        sparse_ok(bitmap, items),
        pos < 32,
        !has_bit(bitmap, pos),
    ensures
        rank(bitmap | (1u32 << pos), pos as nat) == rank(bitmap, pos as nat),
        rank(bitmap, pos as nat) <= items.len(),
        has_bit(bitmap | (1u32 << pos), pos),
        forall|q: u32|
            q < 32 ==> (#[trigger] has_bit(bitmap | (1u32 << pos), q) <==> has_bit(bitmap, q) || q
                == pos),
        sparse_ok(bitmap | (1u32 << pos), items.insert(rank(bitmap, pos as nat) as int, item)),
        forall|q: u32|
            q < 32 ==> #[trigger] sparse_at(
                bitmap | (1u32 << pos),
                items.insert(rank(bitmap, pos as nat) as int, item),
                q,
            ) == if q == pos {
                Some(item)
            } else {
                sparse_at(bitmap, items, q)
            },
{
    lemma_sparse_index(bitmap, items, pos);
    lemma_rank_set(bitmap, pos, 32);
    lemma_rank_set(bitmap, pos, pos as nat);
    lemma_set_bit(bitmap, pos, pos);
    let next = bitmap | (1u32 << pos);
    let at = rank(bitmap, pos as nat) as int;
    assert forall|q: u32| q < 32 implies (#[trigger] has_bit(next, q) <==> has_bit(bitmap, q) || q
        == pos) by {
        lemma_set_bit(bitmap, pos, q);
    }
    assert forall|q: u32| q < 32 implies #[trigger] sparse_at(next, items.insert(at, item), q)
        == if q == pos {
        Some(item)
    } else {
        sparse_at(bitmap, items, q)
    } by {
        lemma_set_bit(bitmap, pos, q);
        lemma_rank_set(bitmap, pos, q as nat);
        lemma_sparse_index(bitmap, items, q);
        if pos < q {
            lemma_rank_grows(bitmap, pos as nat, q as nat);
        } else if q < pos {
            lemma_rank_grows(bitmap, q as nat, pos as nat);
        }
    }
}

/// Freeing a set slot.
pub(crate) proof fn lemma_sparse_remove<T>(bitmap: u32, items: Seq<T>, pos: u32)
    requires
        sparse_ok(bitmap, items),
        pos < 32,
        has_bit(bitmap, pos),
    ensures
        rank(bitmap, pos as nat) < items.len(),
        !has_bit(bitmap ^ (1u32 << pos), pos),
        rank(bitmap ^ (1u32 << pos), pos as nat) == rank(bitmap, pos as nat),
        forall|q: u32|
            q < 32 ==> (#[trigger] has_bit(bitmap ^ (1u32 << pos), q) <==> has_bit(bitmap, q) && q
                != pos),
        sparse_ok(bitmap ^ (1u32 << pos), items.remove(rank(bitmap, pos as nat) as int)),
        forall|q: u32|
            q < 32 ==> #[trigger] sparse_at(
                bitmap ^ (1u32 << pos),
                items.remove(rank(bitmap, pos as nat) as int),
                q,
            ) == if q == pos {
                None
            } else {
                sparse_at(bitmap, items, q)
            },
{
    lemma_sparse_index(bitmap, items, pos);
    lemma_rank_clear(bitmap, pos, 32);
    lemma_rank_clear(bitmap, pos, pos as nat);
    lemma_clear_bit(bitmap, pos, pos);
    let next = bitmap ^ (1u32 << pos);
    let at = rank(bitmap, pos as nat) as int;
    assert forall|q: u32| q < 32 implies (#[trigger] has_bit(next, q) <==> has_bit(bitmap, q) && q
        != pos) by {
        lemma_clear_bit(bitmap, pos, q);
    }
    assert forall|q: u32| q < 32 implies #[trigger] sparse_at(next, items.remove(at), q) == if q
        == pos {
        None
    } else {
        sparse_at(bitmap, items, q)
    } by {
        lemma_clear_bit(bitmap, pos, q);
        lemma_rank_clear(bitmap, pos, q as nat);
        lemma_sparse_index(bitmap, items, q);
        if pos < q {
            lemma_rank_grows(bitmap, pos as nat, q as nat);
        } else if q < pos {
            lemma_rank_grows(bitmap, q as nat, pos as nat);
        }
    }
}

/// A sparse array with one slot set.
pub(crate) proof fn lemma_sparse_single<T>(pos: u32, item: T)
    requires
        pos < 32,
    ensures
        1u32 << pos != 0,
        sparse_ok(1u32 << pos, seq![item]),
        forall|q: u32| q < 32 ==> (#[trigger] has_bit(1u32 << pos, q) <==> q == pos),
        forall|q: u32|
            q < 32 ==> #[trigger] sparse_at(1u32 << pos, seq![item], q) == if q == pos {
                Some(item)
            } else {
                None
            },
{
    lemma_no_bit(pos);
    lemma_rank_zero(32);
    lemma_sparse_insert(0, Seq::<T>::empty(), pos, item);
    assert(0u32 | (1u32 << pos) == 1u32 << pos) by (bit_vector);
    lemma_rank_zero(pos as nat);
    assert(Seq::<T>::empty().insert(0, item) =~= seq![item]);
    assert forall|q: u32| q < 32 implies (#[trigger] has_bit(1u32 << pos, q) <==> q == pos) by {
        lemma_flag_bit(pos, q);
    }
    assert(1u32 << pos != 0) by (bit_vector)
        requires
            pos < 32,
    ;
    assert forall|q: u32| q < 32 implies #[trigger] sparse_at(1u32 << pos, seq![item], q) == if q
        == pos {
        Some(item)
    } else {
        None
    } by {
        lemma_no_bit(q);
        assert(sparse_at(0u32 | (1u32 << pos), Seq::<T>::empty().insert(0, item), q) == if q
            == pos {
            Some(item)
        } else {
            sparse_at(0, Seq::<T>::empty(), q)
        });
    }
}

/// Every item belongs to a set slot.
pub(crate) proof fn lemma_sparse_slot<T>(bitmap: u32, items: Seq<T>, idx: int) -> (pos: u32)
    requires
        sparse_ok(bitmap, items),
        0 <= idx < items.len(),
    ensures
        pos < 32,
        has_bit(bitmap, pos),
        rank(bitmap, pos as nat) == idx,
        sparse_at(bitmap, items, pos) == Some(items[idx]),
{
    lemma_slot_of_index(bitmap, idx as nat, 32)
}

} // verus!
