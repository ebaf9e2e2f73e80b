//! Bitmaps of 32 slots, and the way a 64-bit hash is cut into slots.
//!
//! A trie node keeps a bitmap of occupied slots beside a dense array: the
//! entry of slot `p` stands at index `rank(bitmap, p)`, the number of occupied
//! slots below `p`.
use vstd::prelude::*;

verus! {

/// Number of hash bits that one level of the trie consumes.
pub const BITS_PER_LEVEL: u32 = 5;

/// The low five bits.
pub const MASK: u64 = 0x1F;

/// Number of levels after which all 64 hash bits are consumed.
pub const MAX_DEPTH: u32 = 13;

/// Whether slot `pos` is set in `bitmap`.
pub open spec fn has_bit(bitmap: u32, pos: u32) -> bool {
    bitmap & (1u32 << pos) != 0
}

/// Number of set slots of `bitmap` below `pos`.
pub open spec fn rank(bitmap: u32, pos: nat) -> nat
    decreases pos,
{
    if pos == 0 {
        0
    } else {
        rank(bitmap, (pos - 1) as nat) + if has_bit(bitmap, (pos - 1) as u32) {
            1nat
        } else {
            0nat
        }
    }
}

/// The slot of `hash` at level `depth`: its five bits from bit `5 * depth` on.
pub open spec fn slot(hash: u64, depth: nat) -> u32 {
    ((hash >> ((depth * 5) as u64)) & 0x1F) as u32
}

/// Whether the first slots of `hash` are those of `path`.
pub open spec fn on_path(hash: u64, path: Seq<u32>) -> bool {
    forall|i: nat| i < path.len() ==> #[trigger] slot(hash, i) == path[i as int]
}

/// Extracts the five-bit chunk at the given depth from a 64-bit hash.
pub fn mask(hash: u64, depth: u32) -> (pos: u32)
    requires
        depth < MAX_DEPTH,
    ensures
        pos == slot(hash, depth as nat),
        pos < 32,
{
    proof {
        lemma_slot_range(hash, depth as nat);
    }
    ((hash >> ((depth * BITS_PER_LEVEL) as u64)) & MASK) as u32
}

/// The single-bit flag of slot `pos`.
pub fn bitpos(pos: u32) -> (bit: u32)
    requires
        pos < 32,
    ensures
        bit == 1u32 << pos,
{
    1u32 << pos
}

/// Number of ones in the binary representation of `x`, by `u32::count_ones`:
/// the documentation says no more and no less than that.
#[verifier::external_body]
pub(crate) fn count_ones(x: u32) -> (n: u32)
    ensures
        n == rank(x, 32),
{
    x.count_ones()
}

/// Number of set slots of `bitmap` before the slot that `bit` flags: the index
/// of that slot in the dense array.
pub fn index(bitmap: u32, bit: u32, Ghost(pos): Ghost<u32>) -> (idx: usize)
    requires
        pos < 32,
        bit == 1u32 << pos,
    ensures
        idx == rank(bitmap, pos as nat),
        idx <= 32,
{
    proof {
        lemma_flag_positive(pos);
        lemma_rank_below(bitmap, pos, 32);
        lemma_rank_bound(bitmap, pos as nat);
    }
    count_ones(bitmap & (bit - 1)) as usize
}

pub(crate) proof fn lemma_slot_range(hash: u64, depth: nat)
    ensures
        slot(hash, depth) < 32,
{
    let shifted: u64 = hash >> ((depth * 5) as u64);
    assert((shifted & 0x1F) as u32 <= 31) by (bit_vector);
}

proof fn lemma_flag_positive(pos: u32)
    by (bit_vector)
    requires
        pos < 32,
    ensures
        1u32 << pos >= 1,
{
}

/// Setting a slot.
pub(crate) proof fn lemma_set_bit(bitmap: u32, pos: u32, other: u32)
    by (bit_vector)
    requires
        pos < 32,
        other < 32,
    ensures
        has_bit(bitmap | (1u32 << pos), other) <==> has_bit(bitmap, other) || pos == other,
{
}

/// A bitmap with a slot set is not zero.
pub(crate) proof fn lemma_set_nonzero(bitmap: u32, pos: u32)
    by (bit_vector)
    requires
        pos < 32,
    ensures
        bitmap | (1u32 << pos) != 0,
{
}

/// Clearing a set slot.
pub(crate) proof fn lemma_clear_bit(bitmap: u32, pos: u32, other: u32)
    by (bit_vector)
    requires
        pos < 32,
        other < 32,
        has_bit(bitmap, pos),
    ensures
        has_bit(bitmap ^ (1u32 << pos), other) <==> has_bit(bitmap, other) && pos != other,
{
}

proof fn lemma_low_bits(bitmap: u32, pos: u32, other: u32)
    by (bit_vector)
    requires
        pos < 32,
        other < 32,
    ensures
        has_bit(bitmap & (((1u32 << pos) - 1) as u32), other) <==> has_bit(bitmap, other) && other
            < pos,
{
}

pub(crate) proof fn lemma_no_bit(other: u32)
    by (bit_vector)
    requires
        other < 32,
    ensures
        !has_bit(0, other),
{
}

/// A single flag sets one slot.
pub(crate) proof fn lemma_flag_bit(pos: u32, other: u32)
    by (bit_vector)
    requires
        pos < 32,
        other < 32,
    ensures
        has_bit(1u32 << pos, other) <==> pos == other,
{
}

proof fn lemma_rank_below(bitmap: u32, pos: u32, upto: nat)
    requires
        pos < 32,
        upto <= 32,
    ensures
        rank(bitmap & (((1u32 << pos) - 1) as u32), upto) == rank(
            bitmap,
            if upto < pos {
                upto
            } else {
                pos as nat
            },
        ),
    decreases upto,
{
    if upto > 0 {
        lemma_rank_below(bitmap, pos, (upto - 1) as nat);
        lemma_low_bits(bitmap, pos, (upto - 1) as u32);
    }
}

pub(crate) proof fn lemma_rank_bound(bitmap: u32, pos: nat)
    ensures
        rank(bitmap, pos) <= pos,
    decreases pos,
{
    if pos > 0 {
        lemma_rank_bound(bitmap, (pos - 1) as nat);
    }
}

/// Ranks grow with the slot, strictly past a set slot.
pub(crate) proof fn lemma_rank_grows(bitmap: u32, low: nat, high: nat)
    requires
        low <= high <= 32,
    ensures
        rank(bitmap, low) <= rank(bitmap, high),
        low < high && has_bit(bitmap, low as u32) ==> rank(bitmap, low) < rank(bitmap, high),
    decreases high,
{
    if low < high {
        lemma_rank_grows(bitmap, low, (high - 1) as nat);
    }
}

/// Setting a free slot raises the ranks behind it by one.
pub(crate) proof fn lemma_rank_set(bitmap: u32, pos: u32, upto: nat)
    requires
        pos < 32,
        upto <= 32,
        !has_bit(bitmap, pos),
    ensures
        rank(bitmap | (1u32 << pos), upto) == rank(bitmap, upto) + if pos < upto {
            1nat
        } else {
            0nat
        },
    decreases upto,
{
    if upto > 0 {
        lemma_rank_set(bitmap, pos, (upto - 1) as nat);
        lemma_set_bit(bitmap, pos, (upto - 1) as u32);
    }
}

/// Clearing a set slot lowers the ranks behind it by one.
pub(crate) proof fn lemma_rank_clear(bitmap: u32, pos: u32, upto: nat)
    requires
        pos < 32,
        upto <= 32,
        has_bit(bitmap, pos),
    ensures
        rank(bitmap ^ (1u32 << pos), upto) + if pos < upto {
            1nat
        } else {
            0nat
        } == rank(bitmap, upto),
    decreases upto,
{
    if upto > 0 {
        lemma_rank_clear(bitmap, pos, (upto - 1) as nat);
        lemma_clear_bit(bitmap, pos, (upto - 1) as u32);
    }
}

pub(crate) proof fn lemma_rank_zero(upto: nat)
    requires
        upto <= 32,
    ensures
        rank(0, upto) == 0,
    decreases upto,
{
    if upto > 0 {
        lemma_rank_zero((upto - 1) as nat);
        lemma_no_bit((upto - 1) as u32);
    }
}

/// The ranks of a bitmap with one slot set.
pub(crate) proof fn lemma_rank_flag(pos: u32, upto: nat)
    requires
        pos < 32,
        upto <= 32,
    ensures
        rank(1u32 << pos, upto) == if pos < upto {
            1nat
        } else {
            0nat
        },
    decreases upto,
{
    if upto > 0 {
        lemma_rank_flag(pos, (upto - 1) as nat);
        lemma_flag_bit(pos, (upto - 1) as u32);
    }
}

/// Every index of the dense array belongs to a set slot.
pub(crate) proof fn lemma_slot_of_index(bitmap: u32, idx: nat, upto: nat) -> (pos: u32)
    requires
        upto <= 32,
        idx < rank(bitmap, upto),
    ensures
        pos < upto,
        has_bit(bitmap, pos),
        rank(bitmap, pos as nat) == idx,
    decreases upto,
{
    let last = (upto - 1) as nat;
    if idx < rank(bitmap, last) {
        lemma_slot_of_index(bitmap, idx, last)
    } else {
        last as u32
    }
}

pub(crate) proof fn lemma_some_bit(bitmap: u32) -> (pos: u32)
    requires
        bitmap != 0,
    ensures
        pos < 32,
        has_bit(bitmap, pos),
{
    assert(has_bit(bitmap, 0) || has_bit(bitmap, 1) || has_bit(bitmap, 2) || has_bit(bitmap, 3)
        || has_bit(bitmap, 4) || has_bit(bitmap, 5) || has_bit(bitmap, 6) || has_bit(bitmap, 7)
        || has_bit(bitmap, 8) || has_bit(bitmap, 9) || has_bit(bitmap, 10) || has_bit(bitmap, 11)
        || has_bit(bitmap, 12) || has_bit(bitmap, 13) || has_bit(bitmap, 14) || has_bit(bitmap, 15)
        || has_bit(bitmap, 16) || has_bit(bitmap, 17) || has_bit(bitmap, 18) || has_bit(bitmap, 19)
        || has_bit(bitmap, 20) || has_bit(bitmap, 21) || has_bit(bitmap, 22) || has_bit(bitmap, 23)
        || has_bit(bitmap, 24) || has_bit(bitmap, 25) || has_bit(bitmap, 26) || has_bit(bitmap, 27)
        || has_bit(bitmap, 28) || has_bit(bitmap, 29) || has_bit(bitmap, 30) || has_bit(bitmap, 31))
        by (bit_vector)
        requires
            bitmap != 0,
    ;
    choose|pos: u32| pos < 32 && has_bit(bitmap, pos)
}

/// A bitmap is zero exactly when no slot of it is set.
pub(crate) proof fn lemma_rank_nonzero(bitmap: u32)
    ensures
        bitmap == 0 <==> rank(bitmap, 32) == 0,
{
    if bitmap != 0 {
        let pos = lemma_some_bit(bitmap);
        lemma_rank_grows(bitmap, pos as nat, 32);
    } else {
        lemma_rank_zero(32);
    }
}

/// Two hashes that agree on all slots are equal.
pub(crate) proof fn lemma_full_path(a: u64, b: u64, path: Seq<u32>)
    requires
        path.len() == MAX_DEPTH,
        on_path(a, path),
        on_path(b, path),
    ensures
        a == b,
{
    assert forall|i: nat| i < 13 implies #[trigger] slot(a, i) == slot(b, i) by {
    }
    assert(slot(a, 0) == slot(b, 0) && slot(a, 1) == slot(b, 1) && slot(a, 2) == slot(b, 2) && slot(
        a,
        3,
    ) == slot(b, 3) && slot(a, 4) == slot(b, 4) && slot(a, 5) == slot(b, 5) && slot(a, 6) == slot(
        b,
        6,
    ) && slot(a, 7) == slot(b, 7) && slot(a, 8) == slot(b, 8) && slot(a, 9) == slot(b, 9) && slot(
        a,
        10,
    ) == slot(b, 10) && slot(a, 11) == slot(b, 11) && slot(a, 12) == slot(b, 12));
    assert(a == b) by (bit_vector)
        requires
            ((a >> 0u64) & 0x1F) as u32 == ((b >> 0u64) & 0x1F) as u32,
            ((a >> 5u64) & 0x1F) as u32 == ((b >> 5u64) & 0x1F) as u32,
            ((a >> 10u64) & 0x1F) as u32 == ((b >> 10u64) & 0x1F) as u32,
            ((a >> 15u64) & 0x1F) as u32 == ((b >> 15u64) & 0x1F) as u32,
            ((a >> 20u64) & 0x1F) as u32 == ((b >> 20u64) & 0x1F) as u32,
            ((a >> 25u64) & 0x1F) as u32 == ((b >> 25u64) & 0x1F) as u32,
            ((a >> 30u64) & 0x1F) as u32 == ((b >> 30u64) & 0x1F) as u32,
            ((a >> 35u64) & 0x1F) as u32 == ((b >> 35u64) & 0x1F) as u32,
            ((a >> 40u64) & 0x1F) as u32 == ((b >> 40u64) & 0x1F) as u32,
            ((a >> 45u64) & 0x1F) as u32 == ((b >> 45u64) & 0x1F) as u32,
            ((a >> 50u64) & 0x1F) as u32 == ((b >> 50u64) & 0x1F) as u32,
            ((a >> 55u64) & 0x1F) as u32 == ((b >> 55u64) & 0x1F) as u32,
            ((a >> 60u64) & 0x1F) as u32 == ((b >> 60u64) & 0x1F) as u32,
    ;
}

/// A path of a hash, one slot longer.
pub(crate) proof fn lemma_path_step(hash: u64, path: Seq<u32>, pos: u32)
    ensures
        on_path(hash, path.push(pos)) <==> on_path(hash, path) && slot(hash, path.len()) == pos,
{
    let longer = path.push(pos);
    if on_path(hash, longer) {
        assert(slot(hash, path.len()) == longer[path.len() as int]);
        assert forall|i: nat| i < path.len() implies #[trigger] slot(hash, i) == path[i as int] by {
            assert(slot(hash, i) == longer[i as int]);
        }
    }
}

} // verus!
