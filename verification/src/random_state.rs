//! The default hasher state: a keyed hash of a key's bytes.
use crate::codes::{lemma_closed_texts, lemma_fronts};
use crate::codes::{lemma_low_1, lemma_low_2, lemma_low_4, lemma_low_8};
use crate::hash_key::{HashKey, HashState};
use crate::plain::Plain;
use vstd::prelude::*;
use vstd::string::*;
use vstd::utf8::*;

verus! {

/// SipHash-2-4 of a byte string under a 128-bit key, given as two halves.
pub uninterp spec fn siphash(key_low: u64, key_high: u64, bytes: Seq<u8>) -> u64;

/// Hashes a byte string by `std::hash::SipHasher`, which its documentation calls
/// an implementation of SipHash 2-4: a function of the key and the bytes alone.
#[allow(deprecated)]
#[verifier::external_body]
fn sip_bytes(key_low: u64, key_high: u64, bytes: &Vec<u8>) -> (hash: u64)
    ensures
        hash == siphash(key_low, key_high, bytes@),
{
    let mut hasher = std::hash::SipHasher::new_with_keys(key_low, key_high);
    std::hash::Hasher::write(&mut hasher, bytes.as_slice());
    std::hash::Hasher::finish(&hasher)
}

/// Draws a number from the seed of a fresh `std::hash::RandomState`. It differs
/// from call to call, and nothing is claimed of it.
#[verifier::external_body]
fn random_word() -> (word: u64) {
    let state = std::hash::RandomState::new();
    std::hash::Hasher::finish(&std::hash::BuildHasher::build_hasher(&state))
}

/// A hasher state with a key of its own, drawn at random.
#[derive(Clone, Copy, Debug)]
pub struct RandomState {
    key_low: u64,
    key_high: u64,
}

impl RandomState {
    /// The hash of a byte string under the state.
    pub closed spec fn hash_bytes(self, bytes: Seq<u8>) -> u64 {
        siphash(self.key_low, self.key_high, bytes)
    }

    /// A state with a fresh random key.
    pub fn new() -> (state: Self) {
        RandomState { key_low: random_word(), key_high: random_word() }
    }

    /// A state with a given key: two such states with one key hash alike.
    pub fn with_keys(key_low: u64, key_high: u64) -> (state: Self)
        ensures
            forall|bytes: Seq<u8>| #[trigger]
                state.hash_bytes(bytes) == siphash(key_low, key_high, bytes),
    {
        RandomState { key_low, key_high }
    }
}

impl Default for RandomState {
    fn default() -> (state: Self) {
        RandomState::new()
    }
}

impl HashState for RandomState {
    fn share_state(&self) -> (copy: Self) {
        *self
    }

    fn same_state(&self, other: &Self) -> (same: bool) {
        self.key_low == other.key_low && self.key_high == other.key_high
    }
}

/// A type whose values are hashed by way of their bytes: those that `std`'s `Hash`
/// hands to a hasher for the value, on a machine that keeps words of eight bytes
/// with the lowest first. A number has its own width, a text ends in a byte that
/// no text holds, and a list starts with its length.
pub trait Encode: View {
    /// The bytes of a value.
    spec fn encoding(value: <Self as View>::V) -> Seq<u8>;

    /// The bytes of the value.
    fn encode(&self) -> (bytes: Vec<u8>)
        ensures
            bytes@ == Self::encoding(self@),
    ;

    /// Tests whether two values are equal.
    fn same_value(&self, other: &Self) -> (same: bool)
        ensures
            same == (self@ == other@),
    ;

    /// Bytes tell values apart: two runs of bytes that start with those of two
    /// values are the same only where the values are the same, and what follows is
    /// the same too. So no value has the bytes of another, and the bytes of no
    /// value start with those of another.
    proof fn law_encoding(a: &Self, b: &Self, behind_a: Seq<u8>, behind_b: Seq<u8>)
        requires
            Self::encoding(a@) + behind_a == Self::encoding(b@) + behind_b,
        ensures
            a@ == b@,
            behind_a == behind_b,
    ;
}

impl<K: Encode> HashKey<RandomState> for K {
    open spec fn hash_in(key: <K as View>::V, state: RandomState) -> u64 {
        state.hash_bytes(K::encoding(key))
    }

    fn hash_with(&self, state: &RandomState) -> (hash: u64) {
        let bytes = self.encode();
        sip_bytes(state.key_low, state.key_high, &bytes)
    }

    fn same_key(&self, other: &Self) -> (same: bool) {
        self.same_value(other)
    }
}

/// The lowest bytes of a word, as many as asked for, the lowest first.
pub open spec fn low_bytes(word: u64, width: nat) -> Seq<u8> {
    Seq::new(width, |i: int| ((word >> ((8 * i) as u64)) & 0xff) as u8)
}

/// The eight bytes of a word, the lowest first.
pub open spec fn word_bytes(word: u64) -> Seq<u8> {
    low_bytes(word, 8)
}

/// Appends the lowest bytes of a word.
fn push_low(bytes: &mut Vec<u8>, word: u64, width: u64)
    requires
        width <= 8,
    ensures
        final(bytes)@ == old(bytes)@ + low_bytes(word, width as nat),
{
    let ghost start = bytes@;
    let ghost all = low_bytes(word, width as nat);
    let mut i: u64 = 0;
    while i < width
        invariant
            i <= width <= 8,
            all == low_bytes(word, width as nat),
            bytes@ == start + all.take(i as int),
        decreases width - i,
    {
        bytes.push(((word >> (8 * i)) & 0xff) as u8);
        i += 1;
        proof {
            assert(all.take(i as int) =~= all.take(i - 1).push(all[i - 1]));
        }
    }
    assert(all.take(width as int) =~= all);
}

/// Appends the eight bytes of a word.
pub(crate) fn push_word(bytes: &mut Vec<u8>, word: u64)
    ensures
        final(bytes)@ == old(bytes)@ + word_bytes(word),
{
    push_low(bytes, word, 8);
}

fn encode_low(word: u64, width: u64) -> (bytes: Vec<u8>)
    requires
        width <= 8,
    ensures
        bytes@ == low_bytes(word, width as nat),
{
    let mut bytes: Vec<u8> = Vec::new();
    push_low(&mut bytes, word, width);
    bytes
}

pub(crate) fn copy_bytes(bytes: &[u8]) -> (copy: Vec<u8>)
    ensures
        copy@ == bytes@,
{
    let mut copy: Vec<u8> = Vec::new();
    let mut i: usize = 0;
    while i < bytes.len()
        invariant
            i <= bytes@.len(),
            copy@ == bytes@.take(i as int),
        decreases bytes@.len() - i,
    {
        copy.push(bytes[i]);
        i += 1;
    }
    assert(bytes@.take(bytes@.len() as int) =~= bytes@);
    copy
}

fn same_bytes(a: &[u8], b: &[u8]) -> (same: bool)
    ensures
        same == (a@ == b@),
{
    if a.len() != b.len() {
        return false;
    }
    let mut i: usize = 0;
    while i < a.len()
        invariant
            i <= a@.len(),
            a@.len() == b@.len(),
            a@.take(i as int) == b@.take(i as int),
        decreases a@.len() - i,
    {
        if a[i] != b[i] {
            return false;
        }
        i += 1;
        proof {
            assert(a@.take(i as int) =~= a@.take(i - 1).push(a@[i - 1]));
            assert(b@.take(i as int) =~= b@.take(i - 1).push(b@[i - 1]));
        }
    }
    proof {
        assert(a@.take(a@.len() as int) =~= a@);
        assert(b@.take(b@.len() as int) =~= b@);
    }
    true
}

pub(crate) fn same_str(a: &str, b: &str) -> (same: bool)
    ensures
        same == (a@ == b@),
{
    proof {
        encode_utf8_decode_utf8(a@);
        encode_utf8_decode_utf8(b@);
    }
    same_bytes(a.as_bytes(), b.as_bytes())
}

/// Copies a text, with the byte behind it that no text holds.
fn encode_text(text: &str) -> (bytes: Vec<u8>)
    ensures
        bytes@ == encode_utf8(text@).push(0xff),
{
    let mut bytes = copy_bytes(text.as_bytes());
    bytes.push(0xff);
    bytes
}

impl Encode for String {
    open spec fn encoding(value: Seq<char>) -> Seq<u8> {
        encode_utf8(value).push(0xff)
    }

    fn encode(&self) -> (bytes: Vec<u8>) {
        encode_text(self.as_str())
    }

    fn same_value(&self, other: &Self) -> (same: bool) {
        same_str(self.as_str(), other.as_str())
    }

    proof fn law_encoding(a: &Self, b: &Self, behind_a: Seq<u8>, behind_b: Seq<u8>) {
        lemma_closed_texts(a@, b@, behind_a, behind_b);
    }
}

impl<'a> Encode for &'a str {
    open spec fn encoding(value: Seq<char>) -> Seq<u8> {
        encode_utf8(value).push(0xff)
    }

    fn encode(&self) -> (bytes: Vec<u8>) {
        encode_text(self)
    }

    fn same_value(&self, other: &Self) -> (same: bool) {
        same_str(self, other)
    }

    proof fn law_encoding(a: &Self, b: &Self, behind_a: Seq<u8>, behind_b: Seq<u8>) {
        lemma_closed_texts(a@, b@, behind_a, behind_b);
    }
}

impl Encode for bool {
    open spec fn encoding(value: bool) -> Seq<u8> {
        low_bytes(
            if value {
                1
            } else {
                0
            },
            1,
        )
    }

    fn encode(&self) -> (bytes: Vec<u8>) {
        encode_low(
            if *self {
                1
            } else {
                0
            },
            1,
        )
    }

    fn same_value(&self, other: &Self) -> (same: bool) {
        *self == *other
    }

    proof fn law_encoding(a: &Self, b: &Self, behind_a: Seq<u8>, behind_b: Seq<u8>) {
        let x: u64 = if *a {
            1
        } else {
            0
        };
        let y: u64 = if *b {
            1
        } else {
            0
        };
        lemma_fronts(low_bytes(x, 1), low_bytes(y, 1), behind_a, behind_b);
        lemma_low_1(x, y);
        assert(x == y) by (bit_vector)
            requires
                x & 0xff == y & 0xff,
                x <= 1,
                y <= 1,
        ;
    }
}

/// Characters are known by their numbers, which four bytes can hold.
proof fn lemma_chars(c: char, d: char)
    ensures
        c as u64 <= 0x10_ffff,
        d as u64 <= 0x10_ffff,
        c as u64 == d as u64 ==> c == d,
{
    char_is_scalar(c);
    char_is_scalar(d);
}

impl Encode for char {
    open spec fn encoding(value: char) -> Seq<u8> {
        low_bytes(value as u64, 4)
    }

    fn encode(&self) -> (bytes: Vec<u8>) {
        encode_low(*self as u64, 4)
    }

    fn same_value(&self, other: &Self) -> (same: bool) {
        *self == *other
    }

    proof fn law_encoding(a: &Self, b: &Self, behind_a: Seq<u8>, behind_b: Seq<u8>) {
        let (x, y) = (*a as u64, *b as u64);
        lemma_chars(*a, *b);
        lemma_fronts(low_bytes(x, 4), low_bytes(y, 4), behind_a, behind_b);
        lemma_low_4(x, y);
        assert(x == y) by (bit_vector)
            requires
                x & 0xffff_ffff == y & 0xffff_ffff,
                x <= 0x10_ffff,
                y <= 0x10_ffff,
        ;
    }
}

impl Encode for () {
    open spec fn encoding(value: ()) -> Seq<u8> {
        Seq::empty()
    }

    fn encode(&self) -> (bytes: Vec<u8>) {
        Vec::new()
    }

    fn same_value(&self, other: &Self) -> (same: bool) {
        true
    }

    proof fn law_encoding(a: &Self, b: &Self, behind_a: Seq<u8>, behind_b: Seq<u8>) {
        assert(Self::encoding(a@) + behind_a =~= behind_a);
        assert(Self::encoding(b@) + behind_b =~= behind_b);
    }
}

impl Encode for u8 {
    open spec fn encoding(value: u8) -> Seq<u8> {
        low_bytes(value as u64, 1)
    }

    fn encode(&self) -> (bytes: Vec<u8>) {
        encode_low(*self as u64, 1)
    }

    fn same_value(&self, other: &Self) -> (same: bool) {
        *self == *other
    }

    proof fn law_encoding(a: &Self, b: &Self, behind_a: Seq<u8>, behind_b: Seq<u8>) {
        let x: u64 = *a as u64;
        let y: u64 = *b as u64;
        lemma_fronts(low_bytes(x, 1), low_bytes(y, 1), behind_a, behind_b);
        lemma_low_1(x, y);
        let (p, q) = (*a, *b);
        assert(p == q) by (bit_vector)
            requires
                (p as u64) & 0xff == (q as u64) & 0xff,
        ;
    }
}

impl Encode for u16 {
    open spec fn encoding(value: u16) -> Seq<u8> {
        low_bytes(value as u64, 2)
    }

    fn encode(&self) -> (bytes: Vec<u8>) {
        encode_low(*self as u64, 2)
    }

    fn same_value(&self, other: &Self) -> (same: bool) {
        *self == *other
    }

    proof fn law_encoding(a: &Self, b: &Self, behind_a: Seq<u8>, behind_b: Seq<u8>) {
        let x: u64 = *a as u64;
        let y: u64 = *b as u64;
        lemma_fronts(low_bytes(x, 2), low_bytes(y, 2), behind_a, behind_b);
        lemma_low_2(x, y);
        let (p, q) = (*a, *b);
        assert(p == q) by (bit_vector)
            requires
                (p as u64) & 0xffff == (q as u64) & 0xffff,
        ;
    }
}

impl Encode for u32 {
    open spec fn encoding(value: u32) -> Seq<u8> {
        low_bytes(value as u64, 4)
    }

    fn encode(&self) -> (bytes: Vec<u8>) {
        encode_low(*self as u64, 4)
    }

    fn same_value(&self, other: &Self) -> (same: bool) {
        *self == *other
    }

    proof fn law_encoding(a: &Self, b: &Self, behind_a: Seq<u8>, behind_b: Seq<u8>) {
        let x: u64 = *a as u64;
        let y: u64 = *b as u64;
        lemma_fronts(low_bytes(x, 4), low_bytes(y, 4), behind_a, behind_b);
        lemma_low_4(x, y);
        let (p, q) = (*a, *b);
        assert(p == q) by (bit_vector)
            requires
                (p as u64) & 0xffff_ffff == (q as u64) & 0xffff_ffff,
        ;
    }
}

impl Encode for u64 {
    open spec fn encoding(value: u64) -> Seq<u8> {
        low_bytes(value, 8)
    }

    fn encode(&self) -> (bytes: Vec<u8>) {
        encode_low(*self, 8)
    }

    fn same_value(&self, other: &Self) -> (same: bool) {
        *self == *other
    }

    proof fn law_encoding(a: &Self, b: &Self, behind_a: Seq<u8>, behind_b: Seq<u8>) {
        let x: u64 = *a;
        let y: u64 = *b;
        lemma_fronts(low_bytes(x, 8), low_bytes(y, 8), behind_a, behind_b);
        lemma_low_8(x, y);
    }
}

impl Encode for usize {
    open spec fn encoding(value: usize) -> Seq<u8> {
        low_bytes(value as u64, 8)
    }

    fn encode(&self) -> (bytes: Vec<u8>) {
        encode_low(*self as u64, 8)
    }

    fn same_value(&self, other: &Self) -> (same: bool) {
        *self == *other
    }

    proof fn law_encoding(a: &Self, b: &Self, behind_a: Seq<u8>, behind_b: Seq<u8>) {
        let x: u64 = *a as u64;
        let y: u64 = *b as u64;
        lemma_fronts(low_bytes(x, 8), low_bytes(y, 8), behind_a, behind_b);
        lemma_low_8(x, y);
    }
}

impl Encode for i8 {
    open spec fn encoding(value: i8) -> Seq<u8> {
        low_bytes(value as u64, 1)
    }

    fn encode(&self) -> (bytes: Vec<u8>) {
        encode_low(*self as u64, 1)
    }

    fn same_value(&self, other: &Self) -> (same: bool) {
        *self == *other
    }

    proof fn law_encoding(a: &Self, b: &Self, behind_a: Seq<u8>, behind_b: Seq<u8>) {
        let x: u64 = *a as u64;
        let y: u64 = *b as u64;
        lemma_fronts(low_bytes(x, 1), low_bytes(y, 1), behind_a, behind_b);
        lemma_low_1(x, y);
        let (p, q) = (*a, *b);
        assert(p == q) by (bit_vector)
            requires
                (p as u64) & 0xff == (q as u64) & 0xff,
        ;
    }
}

impl Encode for i16 {
    open spec fn encoding(value: i16) -> Seq<u8> {
        low_bytes(value as u64, 2)
    }

    fn encode(&self) -> (bytes: Vec<u8>) {
        encode_low(*self as u64, 2)
    }

    fn same_value(&self, other: &Self) -> (same: bool) {
        *self == *other
    }

    proof fn law_encoding(a: &Self, b: &Self, behind_a: Seq<u8>, behind_b: Seq<u8>) {
        let x: u64 = *a as u64;
        let y: u64 = *b as u64;
        lemma_fronts(low_bytes(x, 2), low_bytes(y, 2), behind_a, behind_b);
        lemma_low_2(x, y);
        let (p, q) = (*a, *b);
        assert(p == q) by (bit_vector)
            requires
                (p as u64) & 0xffff == (q as u64) & 0xffff,
        ;
    }
}

impl Encode for i32 {
    open spec fn encoding(value: i32) -> Seq<u8> {
        low_bytes(value as u64, 4)
    }

    fn encode(&self) -> (bytes: Vec<u8>) {
        encode_low(*self as u64, 4)
    }

    fn same_value(&self, other: &Self) -> (same: bool) {
        *self == *other
    }

    proof fn law_encoding(a: &Self, b: &Self, behind_a: Seq<u8>, behind_b: Seq<u8>) {
        let x: u64 = *a as u64;
        let y: u64 = *b as u64;
        lemma_fronts(low_bytes(x, 4), low_bytes(y, 4), behind_a, behind_b);
        lemma_low_4(x, y);
        let (p, q) = (*a, *b);
        assert(p == q) by (bit_vector)
            requires
                (p as u64) & 0xffff_ffff == (q as u64) & 0xffff_ffff,
        ;
    }
}

impl Encode for i64 {
    open spec fn encoding(value: i64) -> Seq<u8> {
        low_bytes(value as u64, 8)
    }

    fn encode(&self) -> (bytes: Vec<u8>) {
        encode_low(*self as u64, 8)
    }

    fn same_value(&self, other: &Self) -> (same: bool) {
        *self == *other
    }

    proof fn law_encoding(a: &Self, b: &Self, behind_a: Seq<u8>, behind_b: Seq<u8>) {
        let x: u64 = *a as u64;
        let y: u64 = *b as u64;
        lemma_fronts(low_bytes(x, 8), low_bytes(y, 8), behind_a, behind_b);
        lemma_low_8(x, y);
        let (p, q) = (*a, *b);
        assert(p == q) by (bit_vector)
            requires
                p as u64 == q as u64,
        ;
    }
}

impl Encode for isize {
    open spec fn encoding(value: isize) -> Seq<u8> {
        low_bytes(value as u64, 8)
    }

    fn encode(&self) -> (bytes: Vec<u8>) {
        encode_low(*self as u64, 8)
    }

    fn same_value(&self, other: &Self) -> (same: bool) {
        *self == *other
    }

    proof fn law_encoding(a: &Self, b: &Self, behind_a: Seq<u8>, behind_b: Seq<u8>) {
        let x: u64 = *a as u64;
        let y: u64 = *b as u64;
        lemma_fronts(low_bytes(x, 8), low_bytes(y, 8), behind_a, behind_b);
        lemma_low_8(x, y);
        let (p, q) = (*a, *b);
        assert(p == q) by (bit_vector)
            requires
                p as u64 == q as u64,
        ;
    }
}

impl Encode for u128 {
    open spec fn encoding(value: u128) -> Seq<u8> {
        word_bytes(value as u64) + word_bytes((value >> 64) as u64)
    }

    fn encode(&self) -> (bytes: Vec<u8>) {
        let mut bytes = encode_low(*self as u64, 8);
        push_word(&mut bytes, (*self >> 64) as u64);
        bytes
    }

    fn same_value(&self, other: &Self) -> (same: bool) {
        *self == *other
    }

    proof fn law_encoding(a: &Self, b: &Self, behind_a: Seq<u8>, behind_b: Seq<u8>) {
        let (p, q) = (*a, *b);
        let (low_p, low_q) = (word_bytes(p as u64), word_bytes(q as u64));
        let (high_p, high_q) = (word_bytes((p >> 64) as u64), word_bytes((q >> 64) as u64));
        lemma_fronts(low_p + high_p, low_q + high_q, behind_a, behind_b);
        lemma_fronts(low_p, low_q, high_p, high_q);
        lemma_low_8(p as u64, q as u64);
        lemma_low_8((p >> 64) as u64, (q >> 64) as u64);
        assert(p == q) by (bit_vector)
            requires
                p as u64 == q as u64,
                (p >> 64) as u64 == (q >> 64) as u64,
        ;
    }
}

impl Encode for i128 {
    open spec fn encoding(value: i128) -> Seq<u8> {
        word_bytes(value as u64) + word_bytes((value >> 64) as u64)
    }

    fn encode(&self) -> (bytes: Vec<u8>) {
        let mut bytes = encode_low(*self as u64, 8);
        push_word(&mut bytes, (*self >> 64) as u64);
        bytes
    }

    fn same_value(&self, other: &Self) -> (same: bool) {
        *self == *other
    }

    proof fn law_encoding(a: &Self, b: &Self, behind_a: Seq<u8>, behind_b: Seq<u8>) {
        let (p, q) = (*a, *b);
        let (low_p, low_q) = (word_bytes(p as u64), word_bytes(q as u64));
        let (high_p, high_q) = (word_bytes((p >> 64) as u64), word_bytes((q >> 64) as u64));
        lemma_fronts(low_p + high_p, low_q + high_q, behind_a, behind_b);
        lemma_fronts(low_p, low_q, high_p, high_q);
        lemma_low_8(p as u64, q as u64);
        lemma_low_8((p >> 64) as u64, (q >> 64) as u64);
        assert(p == q) by (bit_vector)
            requires
                p as u64 == q as u64,
                (p >> 64) as u64 == (q >> 64) as u64,
        ;
    }
}

impl<A: Encode, B: Encode> Encode for (A, B) {
    open spec fn encoding(value: (A::V, B::V)) -> Seq<u8> {
        A::encoding(value.0) + B::encoding(value.1)
    }

    fn encode(&self) -> (bytes: Vec<u8>) {
        let mut bytes = self.0.encode();
        let mut part1 = self.1.encode();
        bytes.append(&mut part1);
        bytes
    }

    fn same_value(&self, other: &Self) -> (same: bool) {
        self.0.same_value(&other.0)
            && self.1.same_value(&other.1)
    }

    proof fn law_encoding(a: &Self, b: &Self, behind_a: Seq<u8>, behind_b: Seq<u8>) {
        let (x0, y0) = (A::encoding(a.0@), A::encoding(b.0@));
        let (x1, y1) = (B::encoding(a.1@), B::encoding(b.1@));
        assert(Self::encoding(a@) + behind_a =~= x0 + (x1 + behind_a));
        assert(Self::encoding(b@) + behind_b =~= y0 + (y1 + behind_b));
        A::law_encoding(
            &a.0,
            &b.0,
            x1 + behind_a,
            y1 + behind_b,
        );
        B::law_encoding(
            &a.1,
            &b.1,
            behind_a,
            behind_b,
        );
    }
}

impl<A: Encode, B: Encode, C: Encode> Encode for (A, B, C) {
    open spec fn encoding(value: (A::V, B::V, C::V)) -> Seq<u8> {
        A::encoding(value.0) + B::encoding(value.1) + C::encoding(value.2)
    }

    fn encode(&self) -> (bytes: Vec<u8>) {
        let mut bytes = self.0.encode();
        let mut part1 = self.1.encode();
        bytes.append(&mut part1);
        let mut part2 = self.2.encode();
        bytes.append(&mut part2);
        bytes
    }

    fn same_value(&self, other: &Self) -> (same: bool) {
        self.0.same_value(&other.0)
            && self.1.same_value(&other.1)
            && self.2.same_value(&other.2)
    }

    proof fn law_encoding(a: &Self, b: &Self, behind_a: Seq<u8>, behind_b: Seq<u8>) {
        let (x0, y0) = (A::encoding(a.0@), A::encoding(b.0@));
        let (x1, y1) = (B::encoding(a.1@), B::encoding(b.1@));
        let (x2, y2) = (C::encoding(a.2@), C::encoding(b.2@));
        assert(Self::encoding(a@) + behind_a =~= x0 + (x1 + (x2 + behind_a)));
        assert(Self::encoding(b@) + behind_b =~= y0 + (y1 + (y2 + behind_b)));
        A::law_encoding(
            &a.0,
            &b.0,
            x1 + (x2 + behind_a),
            y1 + (y2 + behind_b),
        );
        B::law_encoding(
            &a.1,
            &b.1,
            x2 + behind_a,
            y2 + behind_b,
        );
        C::law_encoding(
            &a.2,
            &b.2,
            behind_a,
            behind_b,
        );
    }
}

impl<A: Encode, B: Encode, C: Encode, D: Encode> Encode for (A, B, C, D) {
    open spec fn encoding(value: (A::V, B::V, C::V, D::V)) -> Seq<u8> {
        A::encoding(value.0)
            + B::encoding(value.1)
            + C::encoding(value.2)
            + D::encoding(value.3)
    }

    fn encode(&self) -> (bytes: Vec<u8>) {
        let mut bytes = self.0.encode();
        let mut part1 = self.1.encode();
        bytes.append(&mut part1);
        let mut part2 = self.2.encode();
        bytes.append(&mut part2);
        let mut part3 = self.3.encode();
        bytes.append(&mut part3);
        bytes
    }

    fn same_value(&self, other: &Self) -> (same: bool) {
        self.0.same_value(&other.0)
            && self.1.same_value(&other.1)
            && self.2.same_value(&other.2)
            && self.3.same_value(&other.3)
    }

    proof fn law_encoding(a: &Self, b: &Self, behind_a: Seq<u8>, behind_b: Seq<u8>) {
        let (x0, y0) = (A::encoding(a.0@), A::encoding(b.0@));
        let (x1, y1) = (B::encoding(a.1@), B::encoding(b.1@));
        let (x2, y2) = (C::encoding(a.2@), C::encoding(b.2@));
        let (x3, y3) = (D::encoding(a.3@), D::encoding(b.3@));
        assert(Self::encoding(a@) + behind_a =~= x0 + (x1 + (x2 + (x3 + behind_a))));
        assert(Self::encoding(b@) + behind_b =~= y0 + (y1 + (y2 + (y3 + behind_b))));
        A::law_encoding(
            &a.0,
            &b.0,
            x1 + (x2 + (x3 + behind_a)),
            y1 + (y2 + (y3 + behind_b)),
        );
        B::law_encoding(
            &a.1,
            &b.1,
            x2 + (x3 + behind_a),
            y2 + (y3 + behind_b),
        );
        C::law_encoding(
            &a.2,
            &b.2,
            x3 + behind_a,
            y3 + behind_b,
        );
        D::law_encoding(
            &a.3,
            &b.3,
            behind_a,
            behind_b,
        );
    }
}

impl<A: Encode, B: Encode, C: Encode, D: Encode, E: Encode> Encode for (A, B, C, D, E) {
    open spec fn encoding(value: (A::V, B::V, C::V, D::V, E::V)) -> Seq<u8> {
        A::encoding(value.0)
            + B::encoding(value.1)
            + C::encoding(value.2)
            + D::encoding(value.3)
            + E::encoding(value.4)
    }

    fn encode(&self) -> (bytes: Vec<u8>) {
        let mut bytes = self.0.encode();
        let mut part1 = self.1.encode();
        bytes.append(&mut part1);
        let mut part2 = self.2.encode();
        bytes.append(&mut part2);
        let mut part3 = self.3.encode();
        bytes.append(&mut part3);
        let mut part4 = self.4.encode();
        bytes.append(&mut part4);
        bytes
    }

    fn same_value(&self, other: &Self) -> (same: bool) {
        self.0.same_value(&other.0)
            && self.1.same_value(&other.1)
            && self.2.same_value(&other.2)
            && self.3.same_value(&other.3)
            && self.4.same_value(&other.4)
    }

    proof fn law_encoding(a: &Self, b: &Self, behind_a: Seq<u8>, behind_b: Seq<u8>) {
        let (x0, y0) = (A::encoding(a.0@), A::encoding(b.0@));
        let (x1, y1) = (B::encoding(a.1@), B::encoding(b.1@));
        let (x2, y2) = (C::encoding(a.2@), C::encoding(b.2@));
        let (x3, y3) = (D::encoding(a.3@), D::encoding(b.3@));
        let (x4, y4) = (E::encoding(a.4@), E::encoding(b.4@));
        assert(Self::encoding(a@) + behind_a =~= x0 + (x1 + (x2 + (x3 + (x4 + behind_a)))));
        assert(Self::encoding(b@) + behind_b =~= y0 + (y1 + (y2 + (y3 + (y4 + behind_b)))));
        A::law_encoding(
            &a.0,
            &b.0,
            x1 + (x2 + (x3 + (x4 + behind_a))),
            y1 + (y2 + (y3 + (y4 + behind_b))),
        );
        B::law_encoding(
            &a.1,
            &b.1,
            x2 + (x3 + (x4 + behind_a)),
            y2 + (y3 + (y4 + behind_b)),
        );
        C::law_encoding(
            &a.2,
            &b.2,
            x3 + (x4 + behind_a),
            y3 + (y4 + behind_b),
        );
        D::law_encoding(
            &a.3,
            &b.3,
            x4 + behind_a,
            y4 + behind_b,
        );
        E::law_encoding(
            &a.4,
            &b.4,
            behind_a,
            behind_b,
        );
    }
}

impl<A: Encode, B: Encode, C: Encode, D: Encode, E: Encode, F: Encode> Encode for (A, B, C, D, E, F) {
    open spec fn encoding(value: (A::V, B::V, C::V, D::V, E::V, F::V)) -> Seq<u8> {
        A::encoding(value.0)
            + B::encoding(value.1)
            + C::encoding(value.2)
            + D::encoding(value.3)
            + E::encoding(value.4)
            + F::encoding(value.5)
    }

    fn encode(&self) -> (bytes: Vec<u8>) {
        let mut bytes = self.0.encode();
        let mut part1 = self.1.encode();
        bytes.append(&mut part1);
        let mut part2 = self.2.encode();
        bytes.append(&mut part2);
        let mut part3 = self.3.encode();
        bytes.append(&mut part3);
        let mut part4 = self.4.encode();
        bytes.append(&mut part4);
        let mut part5 = self.5.encode();
        bytes.append(&mut part5);
        bytes
    }

    fn same_value(&self, other: &Self) -> (same: bool) {
        self.0.same_value(&other.0)
            && self.1.same_value(&other.1)
            && self.2.same_value(&other.2)
            && self.3.same_value(&other.3)
            && self.4.same_value(&other.4)
            && self.5.same_value(&other.5)
    }

    proof fn law_encoding(a: &Self, b: &Self, behind_a: Seq<u8>, behind_b: Seq<u8>) {
        let (x0, y0) = (A::encoding(a.0@), A::encoding(b.0@));
        let (x1, y1) = (B::encoding(a.1@), B::encoding(b.1@));
        let (x2, y2) = (C::encoding(a.2@), C::encoding(b.2@));
        let (x3, y3) = (D::encoding(a.3@), D::encoding(b.3@));
        let (x4, y4) = (E::encoding(a.4@), E::encoding(b.4@));
        let (x5, y5) = (F::encoding(a.5@), F::encoding(b.5@));
        assert(Self::encoding(a@) + behind_a =~= x0 + (x1 + (x2 + (x3 + (x4 + (x5 + behind_a))))));
        assert(Self::encoding(b@) + behind_b =~= y0 + (y1 + (y2 + (y3 + (y4 + (y5 + behind_b))))));
        A::law_encoding(
            &a.0,
            &b.0,
            x1 + (x2 + (x3 + (x4 + (x5 + behind_a)))),
            y1 + (y2 + (y3 + (y4 + (y5 + behind_b)))),
        );
        B::law_encoding(
            &a.1,
            &b.1,
            x2 + (x3 + (x4 + (x5 + behind_a))),
            y2 + (y3 + (y4 + (y5 + behind_b))),
        );
        C::law_encoding(
            &a.2,
            &b.2,
            x3 + (x4 + (x5 + behind_a)),
            y3 + (y4 + (y5 + behind_b)),
        );
        D::law_encoding(
            &a.3,
            &b.3,
            x4 + (x5 + behind_a),
            y4 + (y5 + behind_b),
        );
        E::law_encoding(
            &a.4,
            &b.4,
            x5 + behind_a,
            y5 + behind_b,
        );
        F::law_encoding(
            &a.5,
            &b.5,
            behind_a,
            behind_b,
        );
    }
}

impl<T: Encode + Plain> Encode for Option<T> {
    open spec fn encoding(value: Option<T>) -> Seq<u8> {
        match value {
            None => word_bytes(0),
            Some(inner) => word_bytes(1) + T::encoding(inner@),
        }
    }

    fn encode(&self) -> (bytes: Vec<u8>) {
        match self {
            None => encode_low(0, 8),
            Some(inner) => {
                let mut bytes = encode_low(1, 8);
                let mut rest = inner.encode();
                bytes.append(&mut rest);
                bytes
            },
        }
    }

    fn same_value(&self, other: &Self) -> (same: bool) {
        match (self, other) {
            (None, None) => true,
            (Some(a), Some(b)) => {
                let same = a.same_value(b);
                proof {
                    if same {
                        T::same_view(*a, *b);
                    }
                }
                same
            },
            _ => false,
        }
    }

    proof fn law_encoding(a: &Self, b: &Self, behind_a: Seq<u8>, behind_b: Seq<u8>) {
        let (first_a, rest_a) = parts(*a);
        let (first_b, rest_b) = parts(*b);
        assert(Self::encoding(a@) + behind_a =~= word_bytes(first_a) + (rest_a + behind_a));
        assert(Self::encoding(b@) + behind_b =~= word_bytes(first_b) + (rest_b + behind_b));
        lemma_fronts(
            word_bytes(first_a),
            word_bytes(first_b),
            rest_a + behind_a,
            rest_b + behind_b,
        );
        lemma_low_8(first_a, first_b);
        match (a, b) {
            (Some(x), Some(y)) => {
                T::law_encoding(x, y, behind_a, behind_b);
                T::same_view(*x, *y);
            },
            _ => {
                assert(rest_a + behind_a =~= behind_a);
                assert(rest_b + behind_b =~= behind_b);
            },
        }
    }
}

/// The word that the bytes of an option start with, and the bytes behind it.
spec fn parts<T: Encode>(value: Option<T>) -> (u64, Seq<u8>) {
    match value {
        None => (0, Seq::empty()),
        Some(inner) => (1, T::encoding(inner@)),
    }
}

/// The bytes of a list of values, one behind the other.
pub open spec fn items_encoding<T: Encode>(items: Seq<T>) -> Seq<u8>
    decreases items.len(),
{
    if items.len() == 0 {
        Seq::empty()
    } else {
        items_encoding(items.drop_last()) + T::encoding(items.last()@)
    }
}

/// The bytes of a list: those of its length, then those of its items.
pub open spec fn list_encoding<T: Encode>(items: Seq<T>) -> Seq<u8> {
    word_bytes(items.len() as u64) + items_encoding(items)
}

/// The bytes of a list of items, the first taken apart.
proof fn lemma_first_item<T: Encode>(items: Seq<T>)
    requires
        items.len() > 0,
    ensures
        items_encoding(items) == T::encoding(items[0]@) + items_encoding(items.skip(1)),
    decreases items.len(),
{
    if items.len() == 1 {
        assert(items.drop_last() =~= Seq::<T>::empty());
        assert(items.skip(1) =~= Seq::<T>::empty());
        assert(items_encoding(items) =~= T::encoding(items[0]@) + items_encoding(items.skip(1)));
    } else {
        lemma_first_item(items.drop_last());
        assert(items.drop_last().skip(1) =~= items.skip(1).drop_last());
        let middle = items_encoding(items.skip(1).drop_last());
        assert(items_encoding(items) =~= T::encoding(items[0]@) + items_encoding(items.skip(1)));
    }
}

/// Lists of one length are told apart by the bytes of their items.
proof fn lemma_items<T: Encode + Plain>(
    a: Seq<T>,
    b: Seq<T>,
    behind_a: Seq<u8>,
    behind_b: Seq<u8>,
)
    requires
        a.len() == b.len(),
        items_encoding(a) + behind_a == items_encoding(b) + behind_b,
    ensures
        a == b,
        behind_a == behind_b,
    decreases a.len(),
{
    if a.len() == 0 {
        assert(items_encoding(a) + behind_a =~= behind_a);
        assert(items_encoding(b) + behind_b =~= behind_b);
        assert(a =~= b);
    } else {
        lemma_first_item(a);
        lemma_first_item(b);
        let rest_a = items_encoding(a.skip(1)) + behind_a;
        let rest_b = items_encoding(b.skip(1)) + behind_b;
        assert(items_encoding(a) + behind_a =~= T::encoding(a[0]@) + rest_a);
        assert(items_encoding(b) + behind_b =~= T::encoding(b[0]@) + rest_b);
        T::law_encoding(&a[0], &b[0], rest_a, rest_b);
        T::same_view(a[0], b[0]);
        lemma_items(a.skip(1), b.skip(1), behind_a, behind_b);
        assert(a =~= seq![a[0]] + a.skip(1));
        assert(b =~= seq![b[0]] + b.skip(1));
    }
}

/// Lists are told apart by their bytes.
proof fn lemma_lists<T: Encode + Plain>(
    a: Seq<T>,
    b: Seq<T>,
    behind_a: Seq<u8>,
    behind_b: Seq<u8>,
)
    requires
        a.len() <= u64::MAX,
        b.len() <= u64::MAX,
        list_encoding(a) + behind_a == list_encoding(b) + behind_b,
    ensures
        a == b,
        behind_a == behind_b,
{
    let (x, y) = (word_bytes(a.len() as u64), word_bytes(b.len() as u64));
    let (rest_a, rest_b) = (items_encoding(a) + behind_a, items_encoding(b) + behind_b);
    assert(list_encoding(a) + behind_a =~= x + rest_a);
    assert(list_encoding(b) + behind_b =~= y + rest_b);
    lemma_fronts(x, y, rest_a, rest_b);
    lemma_low_8(a.len() as u64, b.len() as u64);
    lemma_items(a, b, behind_a, behind_b);
}

fn encode_list<T: Encode>(items: &[T]) -> (bytes: Vec<u8>)
    ensures
        bytes@ == list_encoding(items@),
{
    let ghost prefix = word_bytes(items@.len() as u64);
    let mut bytes = encode_low(items.len() as u64, 8);
    let mut i: usize = 0;
    proof {
        assert(items@.take(0) =~= Seq::<T>::empty());
        assert(prefix + items_encoding(items@.take(0)) =~= prefix);
    }
    while i < items.len()
        invariant
            i <= items@.len(),
            bytes@ == prefix + items_encoding(items@.take(i as int)),
        decreases items@.len() - i,
    {
        let mut part = items[i].encode();
        proof {
            let front = items_encoding(items@.take(i as int));
            assert(items@.take(i + 1).drop_last() =~= items@.take(i as int));
            assert((prefix + front) + part@ =~= prefix + (front + part@));
        }
        bytes.append(&mut part);
        i += 1;
    }
    assert(items@.take(items@.len() as int) =~= items@);
    bytes
}

fn same_list<T: Encode + Plain>(a: &[T], b: &[T]) -> (same: bool)
    ensures
        same == (a@ == b@),
{
    if a.len() != b.len() {
        return false;
    }
    let mut i: usize = 0;
    while i < a.len()
        invariant
            i <= a@.len(),
            a@.len() == b@.len(),
            forall|j: int| 0 <= j < i ==> a@[j] == b@[j],
        decreases a@.len() - i,
    {
        if !a[i].same_value(&b[i]) {
            return false;
        }
        proof {
            T::same_view(a@[i as int], b@[i as int]);
        }
        i += 1;
    }
    assert(a@ =~= b@);
    true
}

impl<T: Encode + Plain> Encode for Vec<T> {
    open spec fn encoding(value: Seq<T>) -> Seq<u8> {
        list_encoding(value)
    }

    fn encode(&self) -> (bytes: Vec<u8>) {
        encode_list(self.as_slice())
    }

    fn same_value(&self, other: &Self) -> (same: bool) {
        same_list(self.as_slice(), other.as_slice())
    }

    proof fn law_encoding(a: &Self, b: &Self, behind_a: Seq<u8>, behind_b: Seq<u8>) {
        vstd::std_specs::vec::axiom_spec_len(a);
        vstd::std_specs::vec::axiom_spec_len(b);
        lemma_lists(a@, b@, behind_a, behind_b);
    }
}

impl<T: Encode + Plain, const N: usize> Encode for [T; N] {
    open spec fn encoding(value: Seq<T>) -> Seq<u8> {
        list_encoding(value)
    }

    fn encode(&self) -> (bytes: Vec<u8>) {
        encode_list(self.as_slice())
    }

    fn same_value(&self, other: &Self) -> (same: bool) {
        same_list(self.as_slice(), other.as_slice())
    }

    proof fn law_encoding(a: &Self, b: &Self, behind_a: Seq<u8>, behind_b: Seq<u8>) {
        lemma_lists(a@, b@, behind_a, behind_b);
    }
}

} // verus!
