//! Hash widths: integers that can serve as hashes, with the chunks and the bytes
//! that are read of them. The tries of this crate use hashes of 64 bits.
use vstd::prelude::*;

verus! {

/// First multiplier of the mixer.
pub const MIX_A: u64 = 0xff51afd7ed558ccd;

/// Second multiplier of the mixer.
pub const MIX_B: u64 = 0xc4ceb9fe1a85ec53;

/// One step of the mixer: fold the high half down, then multiply.
pub open spec fn mix_step(x: u64, factor: u64) -> u64 {
    (((x ^ (x >> 33)) as int * factor as int) % 0x1_0000_0000_0000_0000) as u64
}

/// The 64-bit finaliser of MurmurHash3: three folds with two multiplications
/// between them.
pub open spec fn fmix64_spec(x: u64) -> u64 {
    let mixed = mix_step(mix_step(x, MIX_A), MIX_B);
    mixed ^ (mixed >> 33)
}

/// Multiplication by a number that has an inverse modulo 2^64 can be undone.
pub(crate) proof fn lemma_times(x: u64, factor: u64, inverse: u64)
    requires
        (factor as int * inverse as int) % 0x1_0000_0000_0000_0000 == 1,
    ensures
        (((x as int * factor as int) % 0x1_0000_0000_0000_0000) * inverse as int)
            % 0x1_0000_0000_0000_0000 == x,
{
    let m = 0x1_0000_0000_0000_0000int;
    let (a, f, g) = (x as int, factor as int, inverse as int);
    vstd::arithmetic::div_mod::lemma_mul_mod_noop_left(a * f, g, m);
    vstd::arithmetic::div_mod::lemma_mul_mod_noop_right(a, f * g, m);
    assert((a * f) * g == a * (f * g)) by (nonlinear_arith);
    assert(a * 1 == a);
}

/// A step of the mixer with a multiplier that has an inverse tells numbers apart.
proof fn lemma_mix_step(x: u64, y: u64, factor: u64, inverse: u64)
    requires
        (factor as int * inverse as int) % 0x1_0000_0000_0000_0000 == 1,
        mix_step(x, factor) == mix_step(y, factor),
    ensures
        x == y,
{
    let (p, q) = (x ^ (x >> 33), y ^ (y >> 33));
    lemma_times(p, factor, inverse);
    lemma_times(q, factor, inverse);
    assert(p == q);
    assert(x == y) by (bit_vector)
        requires
            x ^ (x >> 33) == y ^ (y >> 33),
    ;
}

/// The mixer tells numbers apart: no two hashes are mixed into one.
pub proof fn law_mixed_apart(x: u64, y: u64)
    requires
        fmix64_spec(x) == fmix64_spec(y),
    ensures
        x == y,
{
    let (a, b) = (mix_step(x, MIX_A), mix_step(y, MIX_A));
    let (c, d) = (mix_step(a, MIX_B), mix_step(b, MIX_B));
    assert(c == d) by (bit_vector)
        requires
            c ^ (c >> 33) == d ^ (d >> 33),
    ;
    assert((MIX_A as int * 0x4f74430c22a54005int) % 0x1_0000_0000_0000_0000 == 1);
    assert((MIX_B as int * 0x9cb4b2f8129337dbint) % 0x1_0000_0000_0000_0000 == 1);
    lemma_mix_step(a, b, MIX_B, 0x9cb4b2f8129337dbu64);
    lemma_mix_step(x, y, MIX_A, 0x4f74430c22a54005u64);
}

/// Two calls of the mixer give one result just where they are given one hash.
pub proof fn law_mixer(x: u64, y: u64, mixed_x: u64, mixed_y: u64)
    requires
        call_ensures(fmix64, (x,), mixed_x),
        call_ensures(fmix64, (y,), mixed_y),
    ensures
        mixed_x == mixed_y <==> x == y,
{
    if mixed_x == mixed_y {
        law_mixed_apart(x, y);
    }
}

/// Mixes the bits of a hash.
pub fn fmix64(x: u64) -> (mixed: u64)
    ensures
        mixed == fmix64_spec(x),
{
    let a: u64 = (x ^ (x >> 33)).wrapping_mul(MIX_A);
    let b: u64 = (a ^ (a >> 33)).wrapping_mul(MIX_B);
    b ^ (b >> 33)
}

/// An unsigned integer type that can serve as a hash.
pub trait HashWidth: Sized {
    /// The hash as a number.
    spec fn number(self) -> nat;

    /// Number of bits of a hash.
    const BIT_COUNT: usize;

    /// Widens a 64-bit hash: the low 64 bits are that hash, and bits above them
    /// are its mix.
    fn from_hash64(hash: u64) -> (wide: Self)
        ensures
            wide.number() == if Self::BIT_COUNT == 128 {
                fmix64_spec(hash) * 0x1_0000_0000_0000_0000 + hash
            } else {
                hash as int
            },
    ;

    /// The chunk of the hash from bit `shift` on that `width_mask` selects.
    fn trie_index(self, shift: usize, width_mask: usize) -> (index: usize)
        requires
            shift < Self::BIT_COUNT,
        ensures
            index == Self::chunk(self, shift, width_mask),
    ;

    /// The chunk of a hash from a bit on that a mask selects.
    spec fn chunk(self, shift: usize, width_mask: usize) -> usize;

    /// The top byte of the hash, at least 1.
    fn ctrl_byte(self) -> (byte: u8)
        ensures
            byte == if Self::top(self, 8) == 0 {
                1
            } else {
                Self::top(self, 8)
            },
    ;

    /// The top `count` bits of a hash, as a number.
    spec fn top(self, count: nat) -> nat;

    /// The group of the hash among `num_groups`: its top nine bits, reduced.
    fn ctrl_group(self, num_groups: usize) -> (group: usize)
        requires
            num_groups > 0,
        ensures
            group == Self::top(self, 9) % (num_groups as nat),
    ;

    /// The low 64 bits of the hash.
    fn to_u64(self) -> (low: u64)
        ensures
            low == self.number() % 0x1_0000_0000_0000_0000,
    ;
}

impl HashWidth for u64 {
    open spec fn number(self) -> nat {
        self as nat
    }

    const BIT_COUNT: usize = 64;

    fn from_hash64(hash: u64) -> (wide: Self) {
        hash
    }

    open spec fn chunk(self, shift: usize, width_mask: usize) -> usize {
        ((self >> shift) as usize) & width_mask
    }

    fn trie_index(self, shift: usize, width_mask: usize) -> (index: usize) {
        ((self >> shift) as usize) & width_mask
    }

    open spec fn top(self, count: nat) -> nat {
        if count == 8 {
            self as nat / 0x100_0000_0000_0000
        } else {
            self as nat / 0x80_0000_0000_0000
        }
    }

    fn ctrl_byte(self) -> (byte: u8) {
        let shifted: u64 = self >> 56;
        assert(shifted == self / 0x100_0000_0000_0000 && shifted < 256) by (bit_vector)
            requires
                shifted == self >> 56,
        ;
        let byte: u8 = shifted as u8;
        if byte == 0 {
            1
        } else {
            byte
        }
    }

    fn ctrl_group(self, num_groups: usize) -> (group: usize) {
        if num_groups == 1 {
            return 0;
        }
        let shifted: u64 = self >> 55;
        assert(shifted == self / 0x80_0000_0000_0000 && shifted < 512) by (bit_vector)
            requires
                shifted == self >> 55,
        ;
        shifted as usize % num_groups
    }

    fn to_u64(self) -> (low: u64) {
        self
    }
}

impl HashWidth for u128 {
    open spec fn number(self) -> nat {
        self as nat
    }

    const BIT_COUNT: usize = 128;

    fn from_hash64(hash: u64) -> (wide: Self) {
        let hi: u64 = fmix64(hash);
        let wide: u128 = ((hi as u128) << 64) | (hash as u128);
        assert(wide == (hi as u128) * 0x1_0000_0000_0000_0000u128 + (hash as u128)) by (bit_vector)
            requires
                wide == ((hi as u128) << 64) | (hash as u128),
        ;
        wide
    }

    open spec fn chunk(self, shift: usize, width_mask: usize) -> usize {
        ((self >> shift) as usize) & width_mask
    }

    fn trie_index(self, shift: usize, width_mask: usize) -> (index: usize) {
        ((self >> shift) as usize) & width_mask
    }

    open spec fn top(self, count: nat) -> nat {
        if count == 8 {
            self as nat / 0x100_0000_0000_0000_0000_0000_0000_0000
        } else {
            self as nat / 0x80_0000_0000_0000_0000_0000_0000_0000
        }
    }

    fn ctrl_byte(self) -> (byte: u8) {
        let shifted: u128 = self >> 120;
        assert(shifted == self / 0x100_0000_0000_0000_0000_0000_0000_0000 && shifted < 256)
            by (bit_vector)
            requires
                shifted == self >> 120,
        ;
        let byte: u8 = shifted as u8;
        if byte == 0 {
            1
        } else {
            byte
        }
    }

    fn ctrl_group(self, num_groups: usize) -> (group: usize) {
        if num_groups == 1 {
            return 0;
        }
        let shifted: u128 = self >> 119;
        assert(shifted == self / 0x80_0000_0000_0000_0000_0000_0000_0000 && shifted < 512)
            by (bit_vector)
            requires
                shifted == self >> 119,
        ;
        shifted as usize % num_groups
    }

    fn to_u64(self) -> (low: u64) {
        assert(self as u64 == self % 0x1_0000_0000_0000_0000) by (bit_vector);
        self as u64
    }
}

} // verus!
