//! A pass-through hasher for integer keys that are already well distributed.
use crate::hash_key::{HashKey, HashState};
use crate::random_state::Encode;
use vstd::prelude::*;
use vstd::string::*;

verus! {

/// The number whose little-endian bytes are `bytes`, at most eight of them.
pub open spec fn le_word(bytes: Seq<u8>) -> u64
    decreases bytes.len(),
{
    if bytes.len() == 0 {
        0
    } else {
        (le_word(bytes.subrange(1, bytes.len() as int)) << 8) | bytes[0] as u64
    }
}

/// The exclusive or of `value` with the eight-byte words of `bytes`, the last of
/// which may be shorter.
pub open spec fn xor_words(value: u64, bytes: Seq<u8>) -> u64
    decreases bytes.len(),
{
    if bytes.len() == 0 {
        value
    } else if bytes.len() <= 8 {
        value ^ le_word(bytes)
    } else {
        xor_words(value ^ le_word(bytes.subrange(0, 8)), bytes.subrange(8, bytes.len() as int))
    }
}

/// Words of up to eight bytes that differ in one byte are different.
proof fn lemma_word_byte(bytes: Seq<u8>, i: int, byte: u8)
    requires
        0 <= i < bytes.len() <= 8,
        byte != bytes[i],
    ensures
        le_word(bytes.update(i, byte)) != le_word(bytes),
    decreases bytes.len(),
{
    let n = bytes.len() as int;
    let other = bytes.update(i, byte);
    let (rest, other_rest) = (bytes.subrange(1, n), other.subrange(1, n));
    let (x, y) = (le_word(rest), le_word(other_rest));
    let (b, c) = (bytes[0], other[0]);
    lemma_word_size(rest);
    lemma_word_size(other_rest);
    assert((x << 8) | b as u64 == (y << 8) | c as u64 ==> x == y && b == c) by (bit_vector)
        requires
            x <= 0xff_ffff_ffff_ffff,
            y <= 0xff_ffff_ffff_ffff,
    ;
    if i > 0 {
        assert(other_rest =~= rest.update(i - 1, byte));
        lemma_word_byte(rest, i - 1, byte);
    }
}

/// The largest number of so many bytes.
spec fn word_limit(n: nat) -> u64 {
    if n == 0 {
        0
    } else if n == 1 {
        0xff
    } else if n == 2 {
        0xffff
    } else if n == 3 {
        0xff_ffff
    } else if n == 4 {
        0xffff_ffff
    } else if n == 5 {
        0xff_ffff_ffff
    } else if n == 6 {
        0xffff_ffff_ffff
    } else {
        0xff_ffff_ffff_ffff
    }
}

/// A word of fewer than eight bytes has room for one more.
proof fn lemma_word_size(bytes: Seq<u8>)
    requires
        bytes.len() <= 7,
    ensures
        le_word(bytes) <= word_limit(bytes.len()),
    decreases bytes.len(),
{
    if bytes.len() > 0 {
        let rest = bytes.subrange(1, bytes.len() as int);
        lemma_word_size(rest);
        let (x, b) = (le_word(rest), bytes[0]);
        assert(({
            &&& x <= 0 ==> (x << 8) | b as u64 <= 0xff
            &&& x <= 0xff ==> (x << 8) | b as u64 <= 0xffff
            &&& x <= 0xffff ==> (x << 8) | b as u64 <= 0xff_ffff
            &&& x <= 0xff_ffff ==> (x << 8) | b as u64 <= 0xffff_ffff
            &&& x <= 0xffff_ffff ==> (x << 8) | b as u64 <= 0xff_ffff_ffff
            &&& x <= 0xff_ffff_ffff ==> (x << 8) | b as u64 <= 0xffff_ffff_ffff
            &&& x <= 0xffff_ffff_ffff ==> (x << 8) | b as u64 <= 0xff_ffff_ffff_ffff
        })) by (bit_vector);
    }
}

/// Folding words in tells apart what was folded into.
proof fn lemma_xor_apart(a: u64, b: u64, bytes: Seq<u8>)
    requires
        xor_words(a, bytes) == xor_words(b, bytes),
    ensures
        a == b,
    decreases bytes.len(),
{
    if bytes.len() > 0 {
        let word = if bytes.len() <= 8 {
            le_word(bytes)
        } else {
            le_word(bytes.subrange(0, 8))
        };
        if bytes.len() > 8 {
            lemma_xor_apart(a ^ word, b ^ word, bytes.subrange(8, bytes.len() as int));
        }
        assert(a == b) by (bit_vector)
            requires
                a ^ word == b ^ word,
        ;
    }
}

/// Every byte that is folded in counts: runs of bytes that differ in one byte leave
/// different hashes, wherever the byte stands.
pub proof fn law_identity_bytes(value: u64, bytes: Seq<u8>, i: int, byte: u8)
    requires
        0 <= i < bytes.len(),
        byte != bytes[i],
    ensures
        xor_words(value, bytes.update(i, byte)) != xor_words(value, bytes),
    decreases bytes.len(),
{
    let n = bytes.len() as int;
    let other = bytes.update(i, byte);
    if n <= 8 {
        lemma_word_byte(bytes, i, byte);
        let (x, y) = (le_word(bytes), le_word(other));
        assert(value ^ x == value ^ y ==> x == y) by (bit_vector);
    } else {
        let (front, back) = (bytes.subrange(0, 8), bytes.subrange(8, n));
        let (x, y) = (le_word(front), le_word(other.subrange(0, 8)));
        if i < 8 {
            assert(other.subrange(0, 8) =~= front.update(i, byte));
            assert(other.subrange(8, n) =~= back);
            lemma_word_byte(front, i, byte);
            assert(value ^ x == value ^ y ==> x == y) by (bit_vector);
            if xor_words(value ^ x, back) == xor_words(value ^ y, back) {
                lemma_xor_apart(value ^ x, value ^ y, back);
            }
        } else {
            assert(other.subrange(0, 8) =~= front);
            assert(other.subrange(8, n) =~= back.update(i - 8, byte));
            law_identity_bytes(value ^ x, back, i - 8, byte);
        }
    }
}

/// The exclusive or of the two halves of a number.
pub open spec fn fold_halves(i: u128) -> u64 {
    (i as u64) ^ ((i >> 64) as u64)
}

/// A hasher that takes over the integer it is given.
#[derive(Debug)]
pub struct IdentityHasher {
    value: u64,
}

impl Clone for IdentityHasher {
    fn clone(&self) -> (copy: Self)
        ensures
            copy == *self,
    {
        IdentityHasher { value: self.value }
    }
}

impl Default for IdentityHasher {
    fn default() -> (hasher: Self)
        ensures
            hasher.state() == 0,
    {
        IdentityHasher { value: 0 }
    }
}

impl IdentityHasher {
    /// What the hasher holds.
    pub closed spec fn state(self) -> u64 {
        self.value
    }

    /// Folds the eight-byte words of `bytes` into the state: the way of types
    /// that are not integers.
    pub fn write(&mut self, bytes: &[u8])
        ensures
            final(self).state() == xor_words(old(self).state(), bytes@),
    {
        let ghost start = self.value;
        let mut from: usize = 0;
        assert(bytes@.subrange(0, bytes@.len() as int) =~= bytes@);
        while from < bytes.len()
            invariant
                from <= bytes@.len(),
                xor_words(self.value, bytes@.subrange(from as int, bytes@.len() as int))
                    == xor_words(start, bytes@),
            decreases bytes@.len() - from,
        {
            let ghost rest = bytes@.subrange(from as int, bytes@.len() as int);
            let left: usize = bytes.len() - from;
            let len: usize = if left < 8 {
                left
            } else {
                8
            };
            let ghost chunk = rest.subrange(0, len as int);
            let mut word: u64 = 0;
            let mut i: usize = len;
            while i > 0
                invariant
                    i <= len,
                    len <= 8,
                    from + len <= bytes.len(),
                    chunk == bytes@.subrange(from as int, from + len),
                    word == le_word(chunk.subrange(i as int, len as int)),
                decreases i,
            {
                i -= 1;
                proof {
                    let tail = chunk.subrange(i as int, len as int);
                    assert(tail.subrange(1, tail.len() as int) =~= chunk.subrange(
                        i + 1,
                        len as int,
                    ));
                }
                word = (word << 8) | bytes[from + i] as u64;
            }
            proof {
                assert(chunk.subrange(0, len as int) =~= chunk);
                if rest.len() <= 8 {
                    assert(chunk =~= rest);
                    assert(bytes@.subrange(from + len, bytes@.len() as int).len() == 0);
                } else {
                    assert(rest.subrange(8, rest.len() as int) =~= bytes@.subrange(
                        from + 8,
                        bytes@.len() as int,
                    ));
                }
            }
            self.value = self.value ^ word;
            from = from + len;
        }
        assert(bytes@.subrange(bytes@.len() as int, bytes@.len() as int).len() == 0);
    }

    /// Takes the integer over.
    pub fn write_u8(&mut self, i: u8)
        ensures
            final(self).state() == i as u64,
    {
        self.value = i as u64;
    }

    /// Takes the integer over.
    pub fn write_u16(&mut self, i: u16)
        ensures
            final(self).state() == i as u64,
    {
        self.value = i as u64;
    }

    /// Takes the integer over.
    pub fn write_u32(&mut self, i: u32)
        ensures
            final(self).state() == i as u64,
    {
        self.value = i as u64;
    }

    /// Takes the integer over.
    pub fn write_u64(&mut self, i: u64)
        ensures
            final(self).state() == i,
    {
        self.value = i;
    }

    /// Takes the exclusive or of the two halves over.
    pub fn write_u128(&mut self, i: u128)
        ensures
            final(self).state() == fold_halves(i),
    {
        self.value = (i as u64) ^ ((i >> 64) as u64);
    }

    /// Takes the integer over.
    pub fn write_usize(&mut self, i: usize)
        ensures
            final(self).state() == i as u64,
    {
        self.value = i as u64;
    }

    /// Takes the integer over, with its sign extended.
    pub fn write_i8(&mut self, i: i8)
        ensures
            final(self).state() == i as u64,
    {
        self.value = i as u64;
    }

    /// Takes the integer over, with its sign extended.
    pub fn write_i16(&mut self, i: i16)
        ensures
            final(self).state() == i as u64,
    {
        self.value = i as u64;
    }

    /// Takes the integer over, with its sign extended.
    pub fn write_i32(&mut self, i: i32)
        ensures
            final(self).state() == i as u64,
    {
        self.value = i as u64;
    }

    /// Takes the bits of the integer over.
    pub fn write_i64(&mut self, i: i64)
        ensures
            final(self).state() == i as u64,
    {
        self.value = i as u64;
    }

    /// Takes the exclusive or of the two halves over.
    pub fn write_i128(&mut self, i: i128)
        ensures
            final(self).state() == (i as u64) ^ ((i >> 64) as u64),
    {
        self.value = (i as u64) ^ ((i >> 64) as u64);
    }

    /// Takes the integer over, with its sign extended.
    pub fn write_isize(&mut self, i: isize)
        ensures
            final(self).state() == i as u64,
    {
        self.value = i as u64;
    }

    /// The hash.
    pub fn finish(&self) -> (hash: u64)
        ensures
            hash == self.state(),
    {
        self.value
    }
}

/// Builds [`IdentityHasher`]s.
#[derive(Clone, Copy, Debug)]
pub struct IdentityBuildHasher;

impl Default for IdentityBuildHasher {
    fn default() -> (state: Self) {
        IdentityBuildHasher
    }
}

impl IdentityBuildHasher {
    /// A fresh hasher.
    pub fn build_hasher(&self) -> (hasher: IdentityHasher)
        ensures
            hasher.state() == 0,
    {
        IdentityHasher { value: 0 }
    }

    /// The hash of a value.
    pub fn hash_one<K: HashKey<IdentityBuildHasher>>(&self, key: K) -> (hash: u64)
        ensures
            hash == K::hash_in(key@, *self),
    {
        key.hash_with(self)
    }
}

impl HashState for IdentityBuildHasher {
    fn share_state(&self) -> (copy: Self) {
        *self
    }

    fn same_state(&self, other: &Self) -> (same: bool) {
        true
    }
}

impl HashKey<IdentityBuildHasher> for u8 {
    open spec fn hash_in(key: u8, state: IdentityBuildHasher) -> u64 {
        key as u64
    }

    fn hash_with(&self, state: &IdentityBuildHasher) -> (hash: u64) {
        let mut hasher = state.build_hasher();
        hasher.write_u8(*self);
        hasher.finish()
    }

    fn same_key(&self, other: &Self) -> (same: bool) {
        *self == *other
    }
}

impl HashKey<IdentityBuildHasher> for u16 {
    open spec fn hash_in(key: u16, state: IdentityBuildHasher) -> u64 {
        key as u64
    }

    fn hash_with(&self, state: &IdentityBuildHasher) -> (hash: u64) {
        let mut hasher = state.build_hasher();
        hasher.write_u16(*self);
        hasher.finish()
    }

    fn same_key(&self, other: &Self) -> (same: bool) {
        *self == *other
    }
}

impl HashKey<IdentityBuildHasher> for u32 {
    open spec fn hash_in(key: u32, state: IdentityBuildHasher) -> u64 {
        key as u64
    }

    fn hash_with(&self, state: &IdentityBuildHasher) -> (hash: u64) {
        let mut hasher = state.build_hasher();
        hasher.write_u32(*self);
        hasher.finish()
    }

    fn same_key(&self, other: &Self) -> (same: bool) {
        *self == *other
    }
}

impl HashKey<IdentityBuildHasher> for u64 {
    open spec fn hash_in(key: u64, state: IdentityBuildHasher) -> u64 {
        key
    }

    fn hash_with(&self, state: &IdentityBuildHasher) -> (hash: u64) {
        let mut hasher = state.build_hasher();
        hasher.write_u64(*self);
        hasher.finish()
    }

    fn same_key(&self, other: &Self) -> (same: bool) {
        *self == *other
    }
}

impl HashKey<IdentityBuildHasher> for usize {
    open spec fn hash_in(key: usize, state: IdentityBuildHasher) -> u64 {
        key as u64
    }

    fn hash_with(&self, state: &IdentityBuildHasher) -> (hash: u64) {
        let mut hasher = state.build_hasher();
        hasher.write_usize(*self);
        hasher.finish()
    }

    fn same_key(&self, other: &Self) -> (same: bool) {
        *self == *other
    }
}

impl HashKey<IdentityBuildHasher> for i8 {
    open spec fn hash_in(key: i8, state: IdentityBuildHasher) -> u64 {
        key as u64
    }

    fn hash_with(&self, state: &IdentityBuildHasher) -> (hash: u64) {
        let mut hasher = state.build_hasher();
        hasher.write_i8(*self);
        hasher.finish()
    }

    fn same_key(&self, other: &Self) -> (same: bool) {
        *self == *other
    }
}

impl HashKey<IdentityBuildHasher> for i16 {
    open spec fn hash_in(key: i16, state: IdentityBuildHasher) -> u64 {
        key as u64
    }

    fn hash_with(&self, state: &IdentityBuildHasher) -> (hash: u64) {
        let mut hasher = state.build_hasher();
        hasher.write_i16(*self);
        hasher.finish()
    }

    fn same_key(&self, other: &Self) -> (same: bool) {
        *self == *other
    }
}

impl HashKey<IdentityBuildHasher> for i32 {
    open spec fn hash_in(key: i32, state: IdentityBuildHasher) -> u64 {
        key as u64
    }

    fn hash_with(&self, state: &IdentityBuildHasher) -> (hash: u64) {
        let mut hasher = state.build_hasher();
        hasher.write_i32(*self);
        hasher.finish()
    }

    fn same_key(&self, other: &Self) -> (same: bool) {
        *self == *other
    }
}

impl HashKey<IdentityBuildHasher> for i64 {
    open spec fn hash_in(key: i64, state: IdentityBuildHasher) -> u64 {
        key as u64
    }

    fn hash_with(&self, state: &IdentityBuildHasher) -> (hash: u64) {
        let mut hasher = state.build_hasher();
        hasher.write_i64(*self);
        hasher.finish()
    }

    fn same_key(&self, other: &Self) -> (same: bool) {
        *self == *other
    }
}

impl HashKey<IdentityBuildHasher> for isize {
    open spec fn hash_in(key: isize, state: IdentityBuildHasher) -> u64 {
        key as u64
    }

    fn hash_with(&self, state: &IdentityBuildHasher) -> (hash: u64) {
        let mut hasher = state.build_hasher();
        hasher.write_isize(*self);
        hasher.finish()
    }

    fn same_key(&self, other: &Self) -> (same: bool) {
        *self == *other
    }
}

impl HashKey<IdentityBuildHasher> for u128 {
    open spec fn hash_in(key: u128, state: IdentityBuildHasher) -> u64 {
        fold_halves(key)
    }

    fn hash_with(&self, state: &IdentityBuildHasher) -> (hash: u64) {
        let mut hasher = state.build_hasher();
        hasher.write_u128(*self);
        hasher.finish()
    }

    fn same_key(&self, other: &Self) -> (same: bool) {
        *self == *other
    }
}

impl HashKey<IdentityBuildHasher> for i128 {
    open spec fn hash_in(key: i128, state: IdentityBuildHasher) -> u64 {
        (key as u64) ^ ((key >> 64) as u64)
    }

    fn hash_with(&self, state: &IdentityBuildHasher) -> (hash: u64) {
        let mut hasher = state.build_hasher();
        hasher.write_i128(*self);
        hasher.finish()
    }

    fn same_key(&self, other: &Self) -> (same: bool) {
        *self == *other
    }
}

impl<'a> HashKey<IdentityBuildHasher> for &'a str {
    /// A string is written as its bytes and a closing `0xff`, which replaces
    /// what the bytes left.
    open spec fn hash_in(key: Seq<char>, state: IdentityBuildHasher) -> u64 {
        0xff
    }

    fn hash_with(&self, state: &IdentityBuildHasher) -> (hash: u64) {
        let mut hasher = state.build_hasher();
        hasher.write(self.as_bytes());
        hasher.write_u8(0xff);
        hasher.finish()
    }

    fn same_key(&self, other: &Self) -> (same: bool) {
        self.same_value(other)
    }
}

impl HashKey<IdentityBuildHasher> for String {
    open spec fn hash_in(key: Seq<char>, state: IdentityBuildHasher) -> u64 {
        0xff
    }

    fn hash_with(&self, state: &IdentityBuildHasher) -> (hash: u64) {
        self.as_str().hash_with(state)
    }

    fn same_key(&self, other: &Self) -> (same: bool) {
        self.same_value(other)
    }
}

} // verus!
