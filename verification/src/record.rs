//! Records: the bytes that a Merkle tree hashes for a key or a value.
use crate::codes::lemma_fronts;
use crate::plain::Plain;
use crate::random_state::same_str;
use vstd::prelude::*;
use vstd::utf8::{encode_utf8, encode_utf8_decode_utf8};

verus! {

/// A number in groups of seven bits, the lowest first. Every byte but the last
/// has its top bit set.
pub open spec fn varint(n: nat) -> Seq<u8>
    decreases n,
{
    if n < 128 {
        seq![n as u8]
    } else {
        seq![(n % 128 + 128) as u8] + varint(n / 128)
    }
}

/// The numbers 0, -1, 1, -2, 2, .. as 0, 1, 2, 3, 4, ..
pub open spec fn zigzag(n: int) -> nat {
    if n >= 0 {
        (2 * n) as nat
    } else {
        (-2 * n - 1) as nat
    }
}

/// `postcard::to_allocvec` of a `u128`: the number as a varint. Storage that is a
/// `Vec` takes every byte, so the call does not fail.
#[verifier::external_body]
fn write_unsigned(n: u128) -> (bytes: Vec<u8>)
    ensures
        bytes@ == varint(n as nat),
{
    postcard::to_allocvec(&n).unwrap()
}

/// `postcard::to_allocvec` of an `i128`: the number in zigzag order, as a varint.
#[verifier::external_body]
fn write_signed(n: i128) -> (bytes: Vec<u8>)
    ensures
        bytes@ == varint(zigzag(n as int)),
{
    postcard::to_allocvec(&n).unwrap()
}

/// `postcard::to_allocvec` of a `u8`: the byte.
#[verifier::external_body]
fn write_byte(n: u8) -> (bytes: Vec<u8>)
    ensures
        bytes@ == seq![n],
{
    postcard::to_allocvec(&n).unwrap()
}

/// `postcard::to_allocvec` of a string: the number of its bytes as a varint, then
/// its bytes in UTF-8.
#[verifier::external_body]
fn write_text(text: &str) -> (bytes: Vec<u8>)
    ensures
        bytes@ == varint(encode_utf8(text@).len()) + encode_utf8(text@),
{
    postcard::to_allocvec(text).unwrap()
}

/// `postcard::to_allocvec` of a character: what it is of the text that holds the
/// character alone.
#[verifier::external_body]
fn write_char(c: char) -> (bytes: Vec<u8>)
    ensures
        bytes@ == varint(encode_utf8(seq![c]).len()) + encode_utf8(seq![c]),
{
    postcard::to_allocvec(&c).unwrap()
}

/// A type whose values have a record. The record depends on the view alone.
pub trait Record: View + Sized {
    /// The record of a value.
    spec fn record(value: <Self as View>::V) -> Seq<u8>;

    /// Writes the record of the value.
    fn write(&self) -> (bytes: Vec<u8>)
        ensures
            bytes@ == Self::record(self@),
    ;

    /// Another value with the same view.
    fn duplicate(&self) -> (copy: Self)
        ensures
            copy@ == self@,
    ;

    /// Tests whether two values have the same view.
    fn same_record(&self, other: &Self) -> (same: bool)
        ensures
            same == (self@ == other@),
    ;

    /// Records tell values apart: two runs of bytes that start with the records of
    /// two values are the same only where the values are the same, and what
    /// follows is the same too. So no value has the record of another, and no
    /// record starts with another.
    proof fn law_record(
        a: <Self as View>::V,
        b: <Self as View>::V,
        behind_a: Seq<u8>,
        behind_b: Seq<u8>,
    )
        requires
            Self::record(a) + behind_a == Self::record(b) + behind_b,
        ensures
            a == b,
            behind_a == behind_b,
    ;
}

/// A varint can be told from the front of a run of bytes.
proof fn lemma_varints(n: nat, m: nat, behind_n: Seq<u8>, behind_m: Seq<u8>)
    requires
        varint(n) + behind_n == varint(m) + behind_m,
    ensures
        n == m,
        behind_n == behind_m,
    decreases n,
{
    let (first_n, first_m) = ((varint(n) + behind_n)[0], (varint(m) + behind_m)[0]);
    assert(first_n == first_m);
    assert(first_n == varint(n)[0]);
    assert(first_m == varint(m)[0]);
    if n < 128 || m < 128 {
        lemma_fronts(varint(n), varint(m), behind_n, behind_m);
    } else {
        let (x, y) = (seq![(n % 128 + 128) as u8], seq![(m % 128 + 128) as u8]);
        assert(varint(n) + behind_n =~= x + (varint(n / 128) + behind_n));
        assert(varint(m) + behind_m =~= y + (varint(m / 128) + behind_m));
        lemma_fronts(x, y, varint(n / 128) + behind_n, varint(m / 128) + behind_m);
        lemma_varints(n / 128, m / 128, behind_n, behind_m);
        assert(x[0] == y[0]);
    }
}

/// Texts with their length in front are told apart.
proof fn lemma_texts(a: Seq<char>, b: Seq<char>, behind_a: Seq<u8>, behind_b: Seq<u8>)
    requires
        varint(encode_utf8(a).len()) + encode_utf8(a) + behind_a == varint(encode_utf8(b).len())
            + encode_utf8(b) + behind_b,
    ensures
        a == b,
        behind_a == behind_b,
{
    let (x, y) = (encode_utf8(a), encode_utf8(b));
    assert(varint(x.len()) + x + behind_a =~= varint(x.len()) + (x + behind_a));
    assert(varint(y.len()) + y + behind_b =~= varint(y.len()) + (y + behind_b));
    lemma_varints(x.len(), y.len(), x + behind_a, y + behind_b);
    lemma_fronts(x, y, behind_a, behind_b);
    encode_utf8_decode_utf8(a);
    encode_utf8_decode_utf8(b);
}

impl Record for u8 {
    open spec fn record(value: u8) -> Seq<u8> {
        seq![value]
    }

    fn write(&self) -> (bytes: Vec<u8>) {
        write_byte(*self)
    }

    fn duplicate(&self) -> (copy: Self) {
        *self
    }

    fn same_record(&self, other: &Self) -> (same: bool) {
        *self == *other
    }

    proof fn law_record(
        a: <Self as View>::V,
        b: <Self as View>::V,
        behind_a: Seq<u8>,
        behind_b: Seq<u8>,
    ) {
        lemma_fronts(Self::record(a), Self::record(b), behind_a, behind_b);
        assert(Self::record(a)[0] == Self::record(b)[0]);
    }
}

impl Record for u16 {
    open spec fn record(value: u16) -> Seq<u8> {
        varint(value as nat)
    }

    fn write(&self) -> (bytes: Vec<u8>) {
        write_unsigned(*self as u128)
    }

    fn duplicate(&self) -> (copy: Self) {
        *self
    }

    fn same_record(&self, other: &Self) -> (same: bool) {
        *self == *other
    }

    proof fn law_record(
        a: <Self as View>::V,
        b: <Self as View>::V,
        behind_a: Seq<u8>,
        behind_b: Seq<u8>,
    ) {
        lemma_varints(a as nat, b as nat, behind_a, behind_b);
    }
}

impl Record for u32 {
    open spec fn record(value: u32) -> Seq<u8> {
        varint(value as nat)
    }

    fn write(&self) -> (bytes: Vec<u8>) {
        write_unsigned(*self as u128)
    }

    fn duplicate(&self) -> (copy: Self) {
        *self
    }

    fn same_record(&self, other: &Self) -> (same: bool) {
        *self == *other
    }

    proof fn law_record(
        a: <Self as View>::V,
        b: <Self as View>::V,
        behind_a: Seq<u8>,
        behind_b: Seq<u8>,
    ) {
        lemma_varints(a as nat, b as nat, behind_a, behind_b);
    }
}

impl Record for u64 {
    open spec fn record(value: u64) -> Seq<u8> {
        varint(value as nat)
    }

    fn write(&self) -> (bytes: Vec<u8>) {
        write_unsigned(*self as u128)
    }

    fn duplicate(&self) -> (copy: Self) {
        *self
    }

    fn same_record(&self, other: &Self) -> (same: bool) {
        *self == *other
    }

    proof fn law_record(
        a: <Self as View>::V,
        b: <Self as View>::V,
        behind_a: Seq<u8>,
        behind_b: Seq<u8>,
    ) {
        lemma_varints(a as nat, b as nat, behind_a, behind_b);
    }
}

impl Record for usize {
    open spec fn record(value: usize) -> Seq<u8> {
        varint(value as nat)
    }

    fn write(&self) -> (bytes: Vec<u8>) {
        write_unsigned(*self as u128)
    }

    fn duplicate(&self) -> (copy: Self) {
        *self
    }

    fn same_record(&self, other: &Self) -> (same: bool) {
        *self == *other
    }

    proof fn law_record(
        a: <Self as View>::V,
        b: <Self as View>::V,
        behind_a: Seq<u8>,
        behind_b: Seq<u8>,
    ) {
        lemma_varints(a as nat, b as nat, behind_a, behind_b);
    }
}

impl Record for i16 {
    open spec fn record(value: i16) -> Seq<u8> {
        varint(zigzag(value as int))
    }

    fn write(&self) -> (bytes: Vec<u8>) {
        write_signed(*self as i128)
    }

    fn duplicate(&self) -> (copy: Self) {
        *self
    }

    fn same_record(&self, other: &Self) -> (same: bool) {
        *self == *other
    }

    proof fn law_record(
        a: <Self as View>::V,
        b: <Self as View>::V,
        behind_a: Seq<u8>,
        behind_b: Seq<u8>,
    ) {
        lemma_varints(zigzag(a as int), zigzag(b as int), behind_a, behind_b);
    }
}

impl Record for i32 {
    open spec fn record(value: i32) -> Seq<u8> {
        varint(zigzag(value as int))
    }

    fn write(&self) -> (bytes: Vec<u8>) {
        write_signed(*self as i128)
    }

    fn duplicate(&self) -> (copy: Self) {
        *self
    }

    fn same_record(&self, other: &Self) -> (same: bool) {
        *self == *other
    }

    proof fn law_record(
        a: <Self as View>::V,
        b: <Self as View>::V,
        behind_a: Seq<u8>,
        behind_b: Seq<u8>,
    ) {
        lemma_varints(zigzag(a as int), zigzag(b as int), behind_a, behind_b);
    }
}

impl Record for i64 {
    open spec fn record(value: i64) -> Seq<u8> {
        varint(zigzag(value as int))
    }

    fn write(&self) -> (bytes: Vec<u8>) {
        write_signed(*self as i128)
    }

    fn duplicate(&self) -> (copy: Self) {
        *self
    }

    fn same_record(&self, other: &Self) -> (same: bool) {
        *self == *other
    }

    proof fn law_record(
        a: <Self as View>::V,
        b: <Self as View>::V,
        behind_a: Seq<u8>,
        behind_b: Seq<u8>,
    ) {
        lemma_varints(zigzag(a as int), zigzag(b as int), behind_a, behind_b);
    }
}

impl Record for isize {
    open spec fn record(value: isize) -> Seq<u8> {
        varint(zigzag(value as int))
    }

    fn write(&self) -> (bytes: Vec<u8>) {
        write_signed(*self as i128)
    }

    fn duplicate(&self) -> (copy: Self) {
        *self
    }

    fn same_record(&self, other: &Self) -> (same: bool) {
        *self == *other
    }

    proof fn law_record(
        a: <Self as View>::V,
        b: <Self as View>::V,
        behind_a: Seq<u8>,
        behind_b: Seq<u8>,
    ) {
        lemma_varints(zigzag(a as int), zigzag(b as int), behind_a, behind_b);
    }
}

impl Record for bool {
    open spec fn record(value: bool) -> Seq<u8> {
        if value {
            seq![1u8]
        } else {
            seq![0u8]
        }
    }

    fn write(&self) -> (bytes: Vec<u8>) {
        write_byte(if *self {
            1
        } else {
            0
        })
    }

    fn duplicate(&self) -> (copy: Self) {
        *self
    }

    fn same_record(&self, other: &Self) -> (same: bool) {
        *self == *other
    }

    proof fn law_record(
        a: <Self as View>::V,
        b: <Self as View>::V,
        behind_a: Seq<u8>,
        behind_b: Seq<u8>,
    ) {
        lemma_fronts(Self::record(a), Self::record(b), behind_a, behind_b);
        assert(Self::record(a)[0] == Self::record(b)[0]);
    }
}

impl Record for String {
    open spec fn record(value: Seq<char>) -> Seq<u8> {
        varint(encode_utf8(value).len()) + encode_utf8(value)
    }

    fn write(&self) -> (bytes: Vec<u8>) {
        write_text(self.as_str())
    }

    fn duplicate(&self) -> (copy: Self) {
        self.clone()
    }

    fn same_record(&self, other: &Self) -> (same: bool) {
        same_str(self.as_str(), other.as_str())
    }

    proof fn law_record(
        a: <Self as View>::V,
        b: <Self as View>::V,
        behind_a: Seq<u8>,
        behind_b: Seq<u8>,
    ) {
        lemma_texts(a, b, behind_a, behind_b);
    }
}

impl<'a> Record for &'a str {
    open spec fn record(value: Seq<char>) -> Seq<u8> {
        varint(encode_utf8(value).len()) + encode_utf8(value)
    }

    fn write(&self) -> (bytes: Vec<u8>) {
        write_text(self)
    }

    fn duplicate(&self) -> (copy: Self) {
        *self
    }

    fn same_record(&self, other: &Self) -> (same: bool) {
        same_str(self, other)
    }

    proof fn law_record(
        a: <Self as View>::V,
        b: <Self as View>::V,
        behind_a: Seq<u8>,
        behind_b: Seq<u8>,
    ) {
        lemma_texts(a, b, behind_a, behind_b);
    }
}

impl Record for u128 {
    open spec fn record(value: u128) -> Seq<u8> {
        varint(value as nat)
    }

    fn write(&self) -> (bytes: Vec<u8>) {
        write_unsigned(*self)
    }

    fn duplicate(&self) -> (copy: Self) {
        *self
    }

    fn same_record(&self, other: &Self) -> (same: bool) {
        *self == *other
    }

    proof fn law_record(
        a: <Self as View>::V,
        b: <Self as View>::V,
        behind_a: Seq<u8>,
        behind_b: Seq<u8>,
    ) {
        lemma_varints(a as nat, b as nat, behind_a, behind_b);
    }
}

impl Record for i128 {
    open spec fn record(value: i128) -> Seq<u8> {
        varint(zigzag(value as int))
    }

    fn write(&self) -> (bytes: Vec<u8>) {
        write_signed(*self)
    }

    fn duplicate(&self) -> (copy: Self) {
        *self
    }

    fn same_record(&self, other: &Self) -> (same: bool) {
        *self == *other
    }

    proof fn law_record(
        a: <Self as View>::V,
        b: <Self as View>::V,
        behind_a: Seq<u8>,
        behind_b: Seq<u8>,
    ) {
        lemma_varints(zigzag(a as int), zigzag(b as int), behind_a, behind_b);
    }
}

impl Record for i8 {
    open spec fn record(value: i8) -> Seq<u8> {
        seq![value as u8]
    }

    fn write(&self) -> (bytes: Vec<u8>) {
        write_byte(*self as u8)
    }

    fn duplicate(&self) -> (copy: Self) {
        *self
    }

    fn same_record(&self, other: &Self) -> (same: bool) {
        *self == *other
    }

    proof fn law_record(
        a: <Self as View>::V,
        b: <Self as View>::V,
        behind_a: Seq<u8>,
        behind_b: Seq<u8>,
    ) {
        lemma_fronts(Self::record(a), Self::record(b), behind_a, behind_b);
        assert(Self::record(a)[0] == Self::record(b)[0]);
        assert(a == b) by (bit_vector)
            requires
                a as u8 == b as u8,
        ;
    }
}

impl Record for char {
    open spec fn record(value: char) -> Seq<u8> {
        varint(encode_utf8(seq![value]).len()) + encode_utf8(seq![value])
    }

    fn write(&self) -> (bytes: Vec<u8>) {
        write_char(*self)
    }

    fn duplicate(&self) -> (copy: Self) {
        *self
    }

    fn same_record(&self, other: &Self) -> (same: bool) {
        *self == *other
    }

    proof fn law_record(
        a: <Self as View>::V,
        b: <Self as View>::V,
        behind_a: Seq<u8>,
        behind_b: Seq<u8>,
    ) {
        lemma_texts(seq![a], seq![b], behind_a, behind_b);
        assert(seq![a][0] == seq![b][0]);
    }
}

impl<T: Record + Plain> Record for Option<T> {
    open spec fn record(value: Option<T>) -> Seq<u8> {
        match value {
            None => seq![0u8],
            Some(inner) => seq![1u8] + T::record(inner@),
        }
    }

    fn write(&self) -> (bytes: Vec<u8>) {
        match self {
            None => write_byte(0),
            Some(inner) => {
                let mut bytes = write_byte(1);
                let mut rest = inner.write();
                bytes.append(&mut rest);
                bytes
            },
        }
    }

    fn duplicate(&self) -> (copy: Self) {
        match self {
            None => None,
            Some(inner) => {
                let copy = inner.duplicate();
                proof {
                    T::same_view(copy, *inner);
                }
                Some(copy)
            },
        }
    }

    fn same_record(&self, other: &Self) -> (same: bool) {
        match (self, other) {
            (None, None) => true,
            (Some(a), Some(b)) => {
                let same = a.same_record(b);
                proof {
                    if same {
                        T::same_view(*a, *b);
                    }
                }
                same
            },
            _ => false,
        }
    }

    proof fn law_record(
        a: <Self as View>::V,
        b: <Self as View>::V,
        behind_a: Seq<u8>,
        behind_b: Seq<u8>,
    ) {
        assert((Self::record(a) + behind_a)[0] == Self::record(a)[0]);
        assert((Self::record(b) + behind_b)[0] == Self::record(b)[0]);
        assert(Self::record(a)[0] == if a is Some {
            1u8
        } else {
            0u8
        });
        assert(Self::record(b)[0] == if b is Some {
            1u8
        } else {
            0u8
        });
        match (a, b) {
            (Some(x), Some(y)) => {
                let mark = seq![1u8];
                let (rest_a, rest_b) = (T::record(x@) + behind_a, T::record(y@) + behind_b);
                assert(Self::record(a) + behind_a =~= mark + rest_a);
                assert(Self::record(b) + behind_b =~= mark + rest_b);
                lemma_fronts(mark, mark, rest_a, rest_b);
                T::law_record(x@, y@, behind_a, behind_b);
                T::same_view(x, y);
            },
            _ => {
                lemma_fronts(Self::record(a), Self::record(b), behind_a, behind_b);
            },
        }
    }
}

/// The records of a list of values, one behind the other.
pub open spec fn items_record<T: Record>(items: Seq<T>) -> Seq<u8>
    decreases items.len(),
{
    if items.len() == 0 {
        Seq::empty()
    } else {
        items_record(items.drop_last()) + T::record(items.last()@)
    }
}

/// The records of a list of items, the first taken apart.
proof fn lemma_first_record<T: Record>(items: Seq<T>)
    requires
        items.len() > 0,
    ensures
        items_record(items) == T::record(items[0]@) + items_record(items.skip(1)),
    decreases items.len(),
{
    if items.len() == 1 {
        assert(items.drop_last() =~= Seq::<T>::empty());
        assert(items.skip(1) =~= Seq::<T>::empty());
        assert(items_record(items) =~= T::record(items[0]@) + items_record(items.skip(1)));
    } else {
        lemma_first_record(items.drop_last());
        assert(items.drop_last().skip(1) =~= items.skip(1).drop_last());
        assert(items_record(items) =~= T::record(items[0]@) + items_record(items.skip(1)));
    }
}

/// Lists of one length are told apart by the records of their items.
proof fn lemma_item_records<T: Record + Plain>(
    a: Seq<T>,
    b: Seq<T>,
    behind_a: Seq<u8>,
    behind_b: Seq<u8>,
)
    requires
        a.len() == b.len(),
        items_record(a) + behind_a == items_record(b) + behind_b,
    ensures
        a == b,
        behind_a == behind_b,
    decreases a.len(),
{
    if a.len() == 0 {
        assert(items_record(a) + behind_a =~= behind_a);
        assert(items_record(b) + behind_b =~= behind_b);
        assert(a =~= b);
    } else {
        lemma_first_record(a);
        lemma_first_record(b);
        let rest_a = items_record(a.skip(1)) + behind_a;
        let rest_b = items_record(b.skip(1)) + behind_b;
        assert(items_record(a) + behind_a =~= T::record(a[0]@) + rest_a);
        assert(items_record(b) + behind_b =~= T::record(b[0]@) + rest_b);
        T::law_record(a[0]@, b[0]@, rest_a, rest_b);
        T::same_view(a[0], b[0]);
        lemma_item_records(a.skip(1), b.skip(1), behind_a, behind_b);
        assert(a =~= seq![a[0]] + a.skip(1));
        assert(b =~= seq![b[0]] + b.skip(1));
    }
}

impl<T: Record + Plain> Record for Vec<T> {
    open spec fn record(value: Seq<T>) -> Seq<u8> {
        varint(value.len()) + items_record(value)
    }

    fn write(&self) -> (bytes: Vec<u8>) {
        let ghost prefix = varint(self@.len());
        let mut bytes = write_unsigned(self.len() as u128);
        let mut i: usize = 0;
        proof {
            assert(self@.take(0) =~= Seq::<T>::empty());
            assert(prefix + items_record(self@.take(0)) =~= prefix);
        }
        while i < self.len()
            invariant
                i <= self@.len(),
                bytes@ == prefix + items_record(self@.take(i as int)),
            decreases self@.len() - i,
        {
            let mut part = self[i].write();
            proof {
                let front = items_record(self@.take(i as int));
                assert(self@.take(i + 1).drop_last() =~= self@.take(i as int));
                assert((prefix + front) + part@ =~= prefix + (front + part@));
            }
            bytes.append(&mut part);
            i += 1;
        }
        assert(self@.take(self@.len() as int) =~= self@);
        bytes
    }

    fn duplicate(&self) -> (copy: Self) {
        let mut copy: Vec<T> = Vec::new();
        let mut i: usize = 0;
        while i < self.len()
            invariant
                i <= self@.len(),
                copy@ == self@.take(i as int),
            decreases self@.len() - i,
        {
            let item = self[i].duplicate();
            proof {
                T::same_view(item, self@[i as int]);
                assert(self@.take(i + 1) =~= self@.take(i as int).push(item));
            }
            copy.push(item);
            i += 1;
        }
        assert(self@.take(self@.len() as int) =~= self@);
        copy
    }

    fn same_record(&self, other: &Self) -> (same: bool) {
        if self.len() != other.len() {
            return false;
        }
        let mut i: usize = 0;
        while i < self.len()
            invariant
                i <= self@.len(),
                self@.len() == other@.len(),
                forall|j: int| 0 <= j < i ==> self@[j] == other@[j],
            decreases self@.len() - i,
        {
            if !self[i].same_record(&other[i]) {
                return false;
            }
            proof {
                T::same_view(self@[i as int], other@[i as int]);
            }
            i += 1;
        }
        assert(self@ =~= other@);
        true
    }

    proof fn law_record(
        a: <Self as View>::V,
        b: <Self as View>::V,
        behind_a: Seq<u8>,
        behind_b: Seq<u8>,
    ) {
        let (rest_a, rest_b) = (items_record(a) + behind_a, items_record(b) + behind_b);
        assert(Self::record(a) + behind_a =~= varint(a.len()) + rest_a);
        assert(Self::record(b) + behind_b =~= varint(b.len()) + rest_b);
        lemma_varints(a.len(), b.len(), rest_a, rest_b);
        lemma_item_records(a, b, behind_a, behind_b);
    }
}

impl Record for () {
    open spec fn record(value: ()) -> Seq<u8> {
        Seq::empty()
    }

    fn write(&self) -> (bytes: Vec<u8>) {
        Vec::new()
    }

    fn duplicate(&self) -> (copy: Self) {
    }

    fn same_record(&self, other: &Self) -> (same: bool) {
        true
    }

    proof fn law_record(
        a: <Self as View>::V,
        b: <Self as View>::V,
        behind_a: Seq<u8>,
        behind_b: Seq<u8>,
    ) {
        assert(Self::record(a) + behind_a =~= behind_a);
        assert(Self::record(b) + behind_b =~= behind_b);
    }
}

impl<A: Record, B: Record> Record for (A, B) {
    open spec fn record(value: (A::V, B::V)) -> Seq<u8> {
        A::record(value.0) + B::record(value.1)
    }

    fn write(&self) -> (bytes: Vec<u8>) {
        let mut bytes = self.0.write();
        let mut part1 = self.1.write();
        bytes.append(&mut part1);
        bytes
    }

    fn duplicate(&self) -> (copy: Self) {
        (self.0.duplicate(), self.1.duplicate())
    }

    fn same_record(&self, other: &Self) -> (same: bool) {
        self.0.same_record(&other.0)
            && self.1.same_record(&other.1)
    }

    proof fn law_record(
        a: <Self as View>::V,
        b: <Self as View>::V,
        behind_a: Seq<u8>,
        behind_b: Seq<u8>,
    ) {
        let (x0, y0) = (A::record(a.0), A::record(b.0));
        let (x1, y1) = (B::record(a.1), B::record(b.1));
        assert(Self::record(a) + behind_a =~= x0 + (x1 + behind_a));
        assert(Self::record(b) + behind_b =~= y0 + (y1 + behind_b));
        A::law_record(
            a.0,
            b.0,
            x1 + behind_a,
            y1 + behind_b,
        );
        B::law_record(
            a.1,
            b.1,
            behind_a,
            behind_b,
        );
    }
}

impl<A: Record, B: Record, C: Record> Record for (A, B, C) {
    open spec fn record(value: (A::V, B::V, C::V)) -> Seq<u8> {
        A::record(value.0) + B::record(value.1) + C::record(value.2)
    }

    fn write(&self) -> (bytes: Vec<u8>) {
        let mut bytes = self.0.write();
        let mut part1 = self.1.write();
        bytes.append(&mut part1);
        let mut part2 = self.2.write();
        bytes.append(&mut part2);
        bytes
    }

    fn duplicate(&self) -> (copy: Self) {
        (self.0.duplicate(), self.1.duplicate(), self.2.duplicate())
    }

    fn same_record(&self, other: &Self) -> (same: bool) {
        self.0.same_record(&other.0)
            && self.1.same_record(&other.1)
            && self.2.same_record(&other.2)
    }

    proof fn law_record(
        a: <Self as View>::V,
        b: <Self as View>::V,
        behind_a: Seq<u8>,
        behind_b: Seq<u8>,
    ) {
        let (x0, y0) = (A::record(a.0), A::record(b.0));
        let (x1, y1) = (B::record(a.1), B::record(b.1));
        let (x2, y2) = (C::record(a.2), C::record(b.2));
        assert(Self::record(a) + behind_a =~= x0 + (x1 + (x2 + behind_a)));
        assert(Self::record(b) + behind_b =~= y0 + (y1 + (y2 + behind_b)));
        A::law_record(
            a.0,
            b.0,
            x1 + (x2 + behind_a),
            y1 + (y2 + behind_b),
        );
        B::law_record(
            a.1,
            b.1,
            x2 + behind_a,
            y2 + behind_b,
        );
        C::law_record(
            a.2,
            b.2,
            behind_a,
            behind_b,
        );
    }
}

impl<A: Record, B: Record, C: Record, D: Record> Record for (A, B, C, D) {
    open spec fn record(value: (A::V, B::V, C::V, D::V)) -> Seq<u8> {
        A::record(value.0) + B::record(value.1) + C::record(value.2) + D::record(value.3)
    }

    fn write(&self) -> (bytes: Vec<u8>) {
        let mut bytes = self.0.write();
        let mut part1 = self.1.write();
        bytes.append(&mut part1);
        let mut part2 = self.2.write();
        bytes.append(&mut part2);
        let mut part3 = self.3.write();
        bytes.append(&mut part3);
        bytes
    }

    fn duplicate(&self) -> (copy: Self) {
        (self.0.duplicate(), self.1.duplicate(), self.2.duplicate(), self.3.duplicate())
    }

    fn same_record(&self, other: &Self) -> (same: bool) {
        self.0.same_record(&other.0)
            && self.1.same_record(&other.1)
            && self.2.same_record(&other.2)
            && self.3.same_record(&other.3)
    }

    proof fn law_record(
        a: <Self as View>::V,
        b: <Self as View>::V,
        behind_a: Seq<u8>,
        behind_b: Seq<u8>,
    ) {
        let (x0, y0) = (A::record(a.0), A::record(b.0));
        let (x1, y1) = (B::record(a.1), B::record(b.1));
        let (x2, y2) = (C::record(a.2), C::record(b.2));
        let (x3, y3) = (D::record(a.3), D::record(b.3));
        assert(Self::record(a) + behind_a =~= x0 + (x1 + (x2 + (x3 + behind_a))));
        assert(Self::record(b) + behind_b =~= y0 + (y1 + (y2 + (y3 + behind_b))));
        A::law_record(
            a.0,
            b.0,
            x1 + (x2 + (x3 + behind_a)),
            y1 + (y2 + (y3 + behind_b)),
        );
        B::law_record(
            a.1,
            b.1,
            x2 + (x3 + behind_a),
            y2 + (y3 + behind_b),
        );
        C::law_record(
            a.2,
            b.2,
            x3 + behind_a,
            y3 + behind_b,
        );
        D::law_record(
            a.3,
            b.3,
            behind_a,
            behind_b,
        );
    }
}

impl<A: Record, B: Record, C: Record, D: Record, E: Record> Record for (A, B, C, D, E) {
    open spec fn record(value: (A::V, B::V, C::V, D::V, E::V)) -> Seq<u8> {
        A::record(value.0)
            + B::record(value.1)
            + C::record(value.2)
            + D::record(value.3)
            + E::record(value.4)
    }

    fn write(&self) -> (bytes: Vec<u8>) {
        let mut bytes = self.0.write();
        let mut part1 = self.1.write();
        bytes.append(&mut part1);
        let mut part2 = self.2.write();
        bytes.append(&mut part2);
        let mut part3 = self.3.write();
        bytes.append(&mut part3);
        let mut part4 = self.4.write();
        bytes.append(&mut part4);
        bytes
    }

    fn duplicate(&self) -> (copy: Self) {
        (
            self.0.duplicate(),
            self.1.duplicate(),
            self.2.duplicate(),
            self.3.duplicate(),
            self.4.duplicate(),
        )
    }

    fn same_record(&self, other: &Self) -> (same: bool) {
        self.0.same_record(&other.0)
            && self.1.same_record(&other.1)
            && self.2.same_record(&other.2)
            && self.3.same_record(&other.3)
            && self.4.same_record(&other.4)
    }

    proof fn law_record(
        a: <Self as View>::V,
        b: <Self as View>::V,
        behind_a: Seq<u8>,
        behind_b: Seq<u8>,
    ) {
        let (x0, y0) = (A::record(a.0), A::record(b.0));
        let (x1, y1) = (B::record(a.1), B::record(b.1));
        let (x2, y2) = (C::record(a.2), C::record(b.2));
        let (x3, y3) = (D::record(a.3), D::record(b.3));
        let (x4, y4) = (E::record(a.4), E::record(b.4));
        assert(Self::record(a) + behind_a =~= x0 + (x1 + (x2 + (x3 + (x4 + behind_a)))));
        assert(Self::record(b) + behind_b =~= y0 + (y1 + (y2 + (y3 + (y4 + behind_b)))));
        A::law_record(
            a.0,
            b.0,
            x1 + (x2 + (x3 + (x4 + behind_a))),
            y1 + (y2 + (y3 + (y4 + behind_b))),
        );
        B::law_record(
            a.1,
            b.1,
            x2 + (x3 + (x4 + behind_a)),
            y2 + (y3 + (y4 + behind_b)),
        );
        C::law_record(
            a.2,
            b.2,
            x3 + (x4 + behind_a),
            y3 + (y4 + behind_b),
        );
        D::law_record(
            a.3,
            b.3,
            x4 + behind_a,
            y4 + behind_b,
        );
        E::law_record(
            a.4,
            b.4,
            behind_a,
            behind_b,
        );
    }
}

impl<A: Record, B: Record, C: Record, D: Record, E: Record, F: Record> Record for (A, B, C, D, E, F) {
    open spec fn record(value: (A::V, B::V, C::V, D::V, E::V, F::V)) -> Seq<u8> {
        A::record(value.0)
            + B::record(value.1)
            + C::record(value.2)
            + D::record(value.3)
            + E::record(value.4)
            + F::record(value.5)
    }

    fn write(&self) -> (bytes: Vec<u8>) {
        let mut bytes = self.0.write();
        let mut part1 = self.1.write();
        bytes.append(&mut part1);
        let mut part2 = self.2.write();
        bytes.append(&mut part2);
        let mut part3 = self.3.write();
        bytes.append(&mut part3);
        let mut part4 = self.4.write();
        bytes.append(&mut part4);
        let mut part5 = self.5.write();
        bytes.append(&mut part5);
        bytes
    }

    fn duplicate(&self) -> (copy: Self) {
        (
            self.0.duplicate(),
            self.1.duplicate(),
            self.2.duplicate(),
            self.3.duplicate(),
            self.4.duplicate(),
            self.5.duplicate(),
        )
    }

    fn same_record(&self, other: &Self) -> (same: bool) {
        self.0.same_record(&other.0)
            && self.1.same_record(&other.1)
            && self.2.same_record(&other.2)
            && self.3.same_record(&other.3)
            && self.4.same_record(&other.4)
            && self.5.same_record(&other.5)
    }

    proof fn law_record(
        a: <Self as View>::V,
        b: <Self as View>::V,
        behind_a: Seq<u8>,
        behind_b: Seq<u8>,
    ) {
        let (x0, y0) = (A::record(a.0), A::record(b.0));
        let (x1, y1) = (B::record(a.1), B::record(b.1));
        let (x2, y2) = (C::record(a.2), C::record(b.2));
        let (x3, y3) = (D::record(a.3), D::record(b.3));
        let (x4, y4) = (E::record(a.4), E::record(b.4));
        let (x5, y5) = (F::record(a.5), F::record(b.5));
        assert(Self::record(a) + behind_a =~= x0 + (x1 + (x2 + (x3 + (x4 + (x5 + behind_a))))));
        assert(Self::record(b) + behind_b =~= y0 + (y1 + (y2 + (y3 + (y4 + (y5 + behind_b))))));
        A::law_record(
            a.0,
            b.0,
            x1 + (x2 + (x3 + (x4 + (x5 + behind_a)))),
            y1 + (y2 + (y3 + (y4 + (y5 + behind_b)))),
        );
        B::law_record(
            a.1,
            b.1,
            x2 + (x3 + (x4 + (x5 + behind_a))),
            y2 + (y3 + (y4 + (y5 + behind_b))),
        );
        C::law_record(
            a.2,
            b.2,
            x3 + (x4 + (x5 + behind_a)),
            y3 + (y4 + (y5 + behind_b)),
        );
        D::law_record(
            a.3,
            b.3,
            x4 + (x5 + behind_a),
            y4 + (y5 + behind_b),
        );
        E::law_record(
            a.4,
            b.4,
            x5 + behind_a,
            y5 + behind_b,
        );
        F::law_record(
            a.5,
            b.5,
            behind_a,
            behind_b,
        );
    }
}

} // verus!
