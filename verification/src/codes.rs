//! Codes that tell values apart: runs of bytes from which what stands in front
//! can be told, whatever follows.
use crate::random_state::low_bytes;
use vstd::prelude::*;
use vstd::utf8::*;

verus! {

/// Runs of bytes with fronts of one length are the same just where the fronts are
/// the same and what follows is the same.
pub proof fn lemma_fronts(a: Seq<u8>, b: Seq<u8>, behind_a: Seq<u8>, behind_b: Seq<u8>)
    requires
        a + behind_a == b + behind_b,
        a.len() == b.len(),
    ensures
        a == b,
        behind_a == behind_b,
{
    let n = a.len() as int;
    assert((a + behind_a).take(n) =~= a);
    assert((b + behind_b).take(n) =~= b);
    assert((a + behind_a).skip(n) =~= behind_a);
    assert((b + behind_b).skip(n) =~= behind_b);
}

/// Valid UTF-8 does not hold the byte that ends a text.
proof fn lemma_no_end(bytes: Seq<u8>, i: int)
    requires
        valid_utf8(bytes),
        0 <= i < bytes.len(),
    ensures
        bytes[i] != 0xff,
    decreases bytes.len(),
{
    let n = length_of_first_scalar(bytes);
    if i >= n {
        lemma_no_end(pop_first_scalar(bytes), i - n);
    }
}

/// Texts that are closed by the byte that no text holds are told apart, whatever
/// follows.
pub proof fn lemma_closed_texts(
    a: Seq<char>,
    b: Seq<char>,
    behind_a: Seq<u8>,
    behind_b: Seq<u8>,
)
    requires
        encode_utf8(a).push(0xff) + behind_a == encode_utf8(b).push(0xff) + behind_b,
    ensures
        a == b,
        behind_a == behind_b,
{
    let x = encode_utf8(a);
    let y = encode_utf8(b);
    encode_utf8_valid_utf8(a);
    encode_utf8_valid_utf8(b);
    encode_utf8_decode_utf8(a);
    encode_utf8_decode_utf8(b);
    let run = x.push(0xff) + behind_a;
    assert(run[x.len() as int] == 0xff);
    assert(run[y.len() as int] == 0xff);
    if x.len() < y.len() {
        lemma_no_end(y, x.len() as int);
        assert(run[x.len() as int] == y[x.len() as int]);
    } else if y.len() < x.len() {
        lemma_no_end(x, y.len() as int);
        assert(run[y.len() as int] == x[y.len() as int]);
    }
    lemma_fronts(x.push(0xff), y.push(0xff), behind_a, behind_b);
    assert(x =~= x.push(0xff).drop_last());
    assert(y =~= y.push(0xff).drop_last());
}

/// The lowest bytes of two words, one by one.
proof fn lemma_low(a: u64, b: u64, width: nat, i: int)
    requires
        low_bytes(a, width) == low_bytes(b, width),
        0 <= i < width,
    ensures
        ((a >> ((8 * i) as u64)) & 0xff) as u8 == ((b >> ((8 * i) as u64)) & 0xff) as u8,
{
    assert(low_bytes(a, width)[i] == ((a >> ((8 * i) as u64)) & 0xff) as u8);
    assert(low_bytes(b, width)[i] == ((b >> ((8 * i) as u64)) & 0xff) as u8);
}

/// Words of which the lowest byte is kept are known by it.
pub proof fn lemma_low_1(a: u64, b: u64)
    requires
        low_bytes(a, 1) == low_bytes(b, 1),
    ensures
        a & 0xff == b & 0xff,
{
    lemma_low(a, b, 1, 0);
    assert(a & 0xff == b & 0xff) by (bit_vector)
        requires
            ((a >> 0u64) & 0xff) as u8 == ((b >> 0u64) & 0xff) as u8,
    ;
}

/// Words of which the lowest two bytes are kept are known by them.
pub proof fn lemma_low_2(a: u64, b: u64)
    requires
        low_bytes(a, 2) == low_bytes(b, 2),
    ensures
        a & 0xffff == b & 0xffff,
{
    lemma_low(a, b, 2, 0);
    lemma_low(a, b, 2, 1);
    assert(a & 0xffff == b & 0xffff) by (bit_vector)
        requires
            ((a >> 0u64) & 0xff) as u8 == ((b >> 0u64) & 0xff) as u8,
            ((a >> 8u64) & 0xff) as u8 == ((b >> 8u64) & 0xff) as u8,
    ;
}

/// Words of which the lowest four bytes are kept are known by them.
pub proof fn lemma_low_4(a: u64, b: u64)
    requires
        low_bytes(a, 4) == low_bytes(b, 4),
    ensures
        a & 0xffff_ffff == b & 0xffff_ffff,
{
    lemma_low(a, b, 4, 0);
    lemma_low(a, b, 4, 1);
    lemma_low(a, b, 4, 2);
    lemma_low(a, b, 4, 3);
    assert(a & 0xffff_ffff == b & 0xffff_ffff) by (bit_vector)
        requires
            ((a >> 0u64) & 0xff) as u8 == ((b >> 0u64) & 0xff) as u8,
            ((a >> 8u64) & 0xff) as u8 == ((b >> 8u64) & 0xff) as u8,
            ((a >> 16u64) & 0xff) as u8 == ((b >> 16u64) & 0xff) as u8,
            ((a >> 24u64) & 0xff) as u8 == ((b >> 24u64) & 0xff) as u8,
    ;
}

/// Words are known by their eight bytes.
pub proof fn lemma_low_8(a: u64, b: u64)
    requires
        low_bytes(a, 8) == low_bytes(b, 8),
    ensures
        a == b,
{
    lemma_low(a, b, 8, 0);
    lemma_low(a, b, 8, 1);
    lemma_low(a, b, 8, 2);
    lemma_low(a, b, 8, 3);
    lemma_low(a, b, 8, 4);
    lemma_low(a, b, 8, 5);
    lemma_low(a, b, 8, 6);
    lemma_low(a, b, 8, 7);
    assert(a == b) by (bit_vector)
        requires
            ((a >> 0u64) & 0xff) as u8 == ((b >> 0u64) & 0xff) as u8,
            ((a >> 8u64) & 0xff) as u8 == ((b >> 8u64) & 0xff) as u8,
            ((a >> 16u64) & 0xff) as u8 == ((b >> 16u64) & 0xff) as u8,
            ((a >> 24u64) & 0xff) as u8 == ((b >> 24u64) & 0xff) as u8,
            ((a >> 32u64) & 0xff) as u8 == ((b >> 32u64) & 0xff) as u8,
            ((a >> 40u64) & 0xff) as u8 == ((b >> 40u64) & 0xff) as u8,
            ((a >> 48u64) & 0xff) as u8 == ((b >> 48u64) & 0xff) as u8,
            ((a >> 56u64) & 0xff) as u8 == ((b >> 56u64) & 0xff) as u8,
    ;
}

} // verus!
