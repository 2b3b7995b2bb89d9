//! Bit-vector storage, backed by the `bitvec` crate.
//!
//! Nothing in this module is proved: each function states what the `bitvec`
//! operation it calls does to the bits held. The codecs are verified against
//! these statements.

use vstd::prelude::*;
use bitvec::field::BitField;
use bitvec::order::Lsb0;
use bitvec::vec::BitVec;

verus! {

/// A growable vector of bits: a `bitvec::vec::BitVec` over word-sized storage
/// elements, indexed from the least significant bit of each word.
#[verifier::external_body]
pub struct BitBuffer {
    bits: BitVec<usize, Lsb0>,
}

/// The bits that a buffer holds, in index order.
pub uninterp spec fn bit_seq(v: BitBuffer) -> Seq<bool>;

/// The largest number of bits that a buffer can hold: one eighth of the
/// address space.
pub open spec fn max_bits() -> nat {
    (usize::MAX / 8) as nat
}

/// Bit `j` of `value`, bit 0 being the least significant.
pub open spec fn bit_at(value: u64, j: nat) -> bool {
    j < 64 && (value >> (j as u64)) & 1 == 1
}

/// The `len` least significant bits of `value`, least significant first.
pub open spec fn le_bits(value: u64, len: nat) -> Seq<bool> {
    Seq::new(len, |j: int| bit_at(value, j as nat))
}

/// The number whose binary digits are `bits`, least significant first.
pub open spec fn le_value(bits: Seq<bool>) -> nat
    decreases bits.len(),
{
    if bits.len() == 0 {
        0
    } else {
        (if bits[0] { 1nat } else { 0nat }) + 2 * le_value(bits.drop_first())
    }
}

impl View for BitBuffer {
    type V = Seq<bool>;

    open spec fn view(&self) -> Seq<bool> {
        bit_seq(*self)
    }
}

impl BitBuffer {
    /// `BitVec::with_capacity`: an empty bit-vector. The call panics when
    /// `capacity` exceeds the largest length a bit-vector can have.
    #[verifier::external_body]
    pub(crate) fn with_capacity(capacity: usize) -> (v: BitBuffer)
        requires
            capacity <= max_bits(),
        ensures
            bit_seq(v) == Seq::<bool>::empty(),
    {
        BitBuffer { bits: BitVec::with_capacity(capacity) }
    }

    /// `BitVec::repeat`: a bit-vector of `len` copies of `bit`.
    #[verifier::external_body]
    pub(crate) fn repeat(bit: bool, len: usize) -> (v: BitBuffer)
        requires
            len <= max_bits(),
        ensures
            bit_seq(v) == Seq::new(len as nat, |i: int| bit),
    {
        BitBuffer { bits: BitVec::repeat(bit, len) }
    }

    /// `BitVec::len`: the number of bits held.
    #[verifier::external_body]
    pub(crate) fn len(&self) -> (n: usize)
        ensures
            n == bit_seq(*self).len(),
    {
        self.bits.len()
    }

    /// `BitVec::resize`: cuts the vector down to `new_len` bits, or fills it
    /// up to `new_len` bits with copies of `bit`.
    #[verifier::external_body]
    pub(crate) fn resize(&mut self, new_len: usize, bit: bool)
        requires
            new_len <= max_bits(),
        ensures
            new_len <= bit_seq(*old(self)).len() ==> bit_seq(*final(self)) == bit_seq(
                *old(self),
            ).take(new_len as int),
            new_len > bit_seq(*old(self)).len() ==> bit_seq(*final(self)) == bit_seq(*old(self))
                + Seq::new((new_len - bit_seq(*old(self)).len()) as nat, |i: int| bit),
    {
        self.bits.resize(new_len, bit)
    }

    /// `BitVec::push`: appends one bit.
    #[verifier::external_body]
    pub(crate) fn push(&mut self, bit: bool)
        requires
            bit_seq(*old(self)).len() < max_bits(),
        ensures
            bit_seq(*final(self)) == bit_seq(*old(self)).push(bit),
    {
        self.bits.push(bit)
    }

    /// `BitVec::extend_from_bitslice`: appends the bits of `other`, in order.
    #[verifier::external_body]
    pub(crate) fn extend_from(&mut self, other: &BitBuffer)
        requires
            bit_seq(*old(self)).len() + bit_seq(*other).len() <= max_bits(),
        ensures
            bit_seq(*final(self)) == bit_seq(*old(self)) + bit_seq(*other),
    {
        self.bits.extend_from_bitslice(other.bits.as_bitslice())
    }

    /// Indexing a bit-vector by position: the bit at `index`.
    #[verifier::external_body]
    pub(crate) fn get(&self, index: usize) -> (bit: bool)
        requires
            index < bit_seq(*self).len(),
        ensures
            bit == bit_seq(*self)[index as int],
    {
        self.bits[index]
    }

    /// `BitField::store_le` on the bits from `start` up to `end`: bit `j` of
    /// `value` goes to position `start + j`; the bits of `value` from
    /// `end - start` on are dropped, and no other position changes.
    #[verifier::external_body]
    pub(crate) fn store(&mut self, start: usize, end: usize, value: u64)
        requires
            start < end <= bit_seq(*old(self)).len(),
            end - start <= 64,
        ensures
            bit_seq(*final(self)) == bit_seq(*old(self)).subrange(0, start as int) + le_bits(
                value,
                (end - start) as nat,
            ) + bit_seq(*old(self)).subrange(end as int, bit_seq(*old(self)).len() as int),
    {
        self.bits[start..end].store_le::<u64>(value)
    }

    /// `BitField::load_le` on the bits from `start` up to `end`: the number
    /// whose bit `j` is the bit at position `start + j`.
    #[verifier::external_body]
    pub(crate) fn load(&self, start: usize, end: usize) -> (value: u64)
        requires
            start < end <= bit_seq(*self).len(),
            end - start <= 64,
        ensures
            value == le_value(bit_seq(*self).subrange(start as int, end as int)),
    {
        self.bits[start..end].load_le::<u64>()
    }

    /// Walks the bit-vector with `BitSlice::iter` and collects the bits.
    #[verifier::external_body]
    pub(crate) fn to_vec(&self) -> (out: Vec<bool>)
        ensures
            out@ == bit_seq(*self),
    {
        self.bits.iter().by_vals().collect()
    }
}

} // verus!
