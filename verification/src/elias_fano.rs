//! Elias–Fano coding of non-decreasing sequences of 64-bit integers.
//!
//! Each value is split into a low part of fixed width and a high part. The
//! low parts are packed side by side into one bit-vector. The high parts are
//! written in unary into a second bit-vector: for each value, as many zero
//! bits as its high part exceeds the previous one, then a one bit.

use vstd::prelude::*;
use vstd::bytes::{
    lemma_auto_spec_u64_to_from_le_bytes, spec_u64_to_le_bytes, u64_from_le_bytes,
    u64_to_le_bytes,
};
use vstd::slice::slice_subrange;
use vstd::std_specs::bits::u64_leading_zeros;
use crate::bit_packing::{
    lemma_le_value_below, lemma_unpack_pack, pack_into, packed, unpack, unpacked, words_for,
};
use crate::bits::{bit_at, bit_seq, le_bits, le_value, max_bits, BitBuffer};
use crate::compression::{CodecError, IntSeqEncoder};
use crate::little_endian::u64_at;

verus! {

/// The position of the highest set bit of `n`; 0 for `n <= 1`.
pub open spec fn floor_log2(n: nat) -> nat
    decreases n,
{
    if n <= 1 {
        0
    } else {
        1 + floor_log2(n / 2)
    }
}

/// The width of the low parts for `size` values below `universe`: the
/// rounded-down binary logarithm of `universe / size`, and 0 where the
/// universe is no larger than the number of values.
pub open spec fn lower_width(universe: nat, size: nat) -> nat {
    if universe > size && size > 0 {
        floor_log2(universe / size)
    } else {
        0
    }
}

/// The mask that selects the `width` low bits of a value.
pub open spec fn low_mask(width: nat) -> u64 {
    ((1u64 << (width as u64)) - 1) as u64
}

/// The high part of `value`: what is left above its `width` low bits.
pub open spec fn high_of(value: u64, width: nat) -> u64 {
    value >> (width as u64)
}

/// The low part of `value`: its `width` low bits.
pub open spec fn low_of(value: u64, width: nat) -> u64 {
    value & low_mask(width)
}

/// The value with the given high and low parts.
pub open spec fn join_parts(high: u64, low: u64, width: nat) -> u64 {
    (high << (width as u64)) | low
}

/// No value is smaller than the one before it.
pub open spec fn non_decreasing(values: Seq<u64>) -> bool {
    forall|i: int, j: int| 0 <= i <= j < values.len() ==> values[i] <= values[j]
}

/// A run of `n` zero bits.
pub open spec fn zeros(n: nat) -> Seq<bool> {
    Seq::new(n, |i: int| false)
}

/// The unary code of the high parts of `values`: for each value in turn, one
/// zero bit for each unit by which its high part exceeds that of the value
/// before it (0 before the first), then a one bit.
pub open spec fn upper_code(values: Seq<u64>, width: nat) -> Seq<bool>
    decreases values.len(),
{
    if values.len() == 0 {
        Seq::empty()
    } else {
        let before = values.drop_last();
        let prev_high: int = if before.len() == 0 {
            0
        } else {
            high_of(before.last(), width) as int
        };
        upper_code(before, width) + zeros((high_of(values.last(), width) - prev_high) as nat)
            + seq![true]
    }
}

/// The packed low parts of `values` in a vector of `size` slots of `width`
/// bits each: slot `i` holds the low bits of `values[i]`, least significant
/// first, and the slots past the last value hold zeros.
pub open spec fn lower_code(values: Seq<u64>, width: nat, size: nat) -> Seq<bool> {
    Seq::new(
        size * width,
        |p: int| p / (width as int) < values.len() && bit_at(
            values[p / (width as int)],
            (p % (width as int)) as nat,
        ),
    )
}

/// The number of zero bits of `upper` that come before its one bit number
/// `index` (counting from 0); where `upper` has no such one bit, the number
/// of all its zero bits.
pub open spec fn high_part(upper: Seq<bool>, index: nat) -> nat
    decreases upper.len(),
{
    if upper.len() == 0 {
        0
    } else if upper[0] {
        if index == 0 {
            0
        } else {
            high_part(upper.drop_first(), (index - 1) as nat)
        }
    } else {
        1 + high_part(upper.drop_first(), index)
    }
}

/// The number held in slot `index` of `lower`, the slots being `width` bits
/// wide; 0 where the width is 0.
pub open spec fn low_part(lower: Seq<bool>, width: nat, index: nat) -> nat {
    if width == 0 {
        0
    } else {
        le_value(lower.subrange((index * width) as int, (index * width + width) as int))
    }
}

/// The value that the two bit-vectors hold at `index`.
pub open spec fn decode_at(upper: Seq<bool>, lower: Seq<bool>, width: nat, index: nat) -> u64 {
    join_parts(high_part(upper, index) as u64, low_part(lower, width, index) as u64, width)
}

/// The first `n` values that the two bit-vectors hold.
pub open spec fn elias_fano_decoding(upper: Seq<bool>, lower: Seq<bool>, width: nat, n: nat) -> Seq<
    u64,
> {
    Seq::new(n, |i: int| decode_at(upper, lower, width, i as nat))
}

/// An Elias–Fano encoder and the sequence it has encoded.
pub struct EliasFano {
    size: usize,
    lower_bits: BitBuffer,
    upper_bits: BitBuffer,
    lower_bit_mask: u64,
    lower_bit_length: usize,
    encoded: bool,
}

/// Why a position cannot be decoded.
#[derive(Clone, Copy, Debug, PartialEq, Eq)]
pub enum EliasFanoError {
    /// The position is not below the number of elements.
    IndexOutOfBound { index: usize },
}

impl EliasFano {
    /// The number of elements the encoder was made for.
    pub closed spec fn size(&self) -> nat {
        self.size as nat
    }

    /// The width of the low parts, in bits.
    pub closed spec fn width(&self) -> nat {
        self.lower_bit_length as nat
    }

    /// The bit-vector of the low parts.
    pub closed spec fn lower(&self) -> Seq<bool> {
        bit_seq(self.lower_bits)
    }

    /// The bit-vector of the high parts.
    pub closed spec fn upper(&self) -> Seq<bool> {
        bit_seq(self.upper_bits)
    }

    /// Whether the encoder has taken its values in.
    pub closed spec fn is_encoded(&self) -> bool {
        self.encoded
    }

    /// The invariant of an encoder: the width is below 64, the mask selects
    /// that many low bits, the lower bit-vector has one slot per element,
    /// the upper bit-vector has no more one bits than there are elements,
    /// and the bit-vectors hold nothing before the values are taken in.
    pub closed spec fn wf(&self) -> bool {
        &&& self.lower_bit_length <= 63
        &&& self.lower_bit_mask == low_mask(self.lower_bit_length as nat)
        &&& bit_seq(self.lower_bits).len() == self.size * self.lower_bit_length
        &&& bit_seq(self.lower_bits).len() <= max_bits()
        &&& bit_seq(self.upper_bits).len() <= max_bits()
        &&& count_ones(bit_seq(self.upper_bits)) <= self.size
        &&& !self.encoded ==> bit_seq(self.upper_bits) == Seq::<bool>::empty() && bit_seq(
            self.lower_bits,
        ) == zeros((self.size * self.lower_bit_length) as nat)
    }

    /// The values that the bit-vectors hold: one for each one bit of the
    /// upper bit-vector.
    pub open spec fn decoded_values(&self) -> Seq<u64> {
        elias_fano_decoding(self.upper(), self.lower(), self.width(), count_ones(self.upper()))
    }

    /// Nothing has been encoded yet.
    pub open spec fn is_fresh(&self) -> bool {
        &&& self.upper() == Seq::<bool>::empty()
        &&& self.lower() == zeros(self.size() * self.width())
    }

    /// The value decoded at `index`.
    pub open spec fn decoded(&self, index: nat) -> u64 {
        decode_at(self.upper(), self.lower(), self.width(), index)
    }

    /// Creates an encoder for `size` values below `universe`.
    pub fn new(universe: usize, size: usize) -> (ef: Self)
        requires
            universe > size ==> size > 0,
            size * lower_width(universe as nat, size as nat) <= max_bits(),
            2 * size <= max_bits(),
        ensures
            ef.wf(),
            ef.is_fresh(),
            !ef.is_encoded(),
            ef.size() == size,
            ef.width() == lower_width(universe as nat, size as nat),
            universe <= size ==> ef.width() == 0 && ef.lower().len() == 0,
            ef.decoded_values() == Seq::<u64>::empty(),
    {
        let lower_bit_length: usize = if universe > size {
            msb((universe / size) as u64) as usize
        } else {
            0
        };
        proof {
            lemma_low_mask(lower_bit_length as u64);
        }
        let lower_bit_mask: u64 = (1u64 << (lower_bit_length as u64)) - 1;
        let mut lower_bits = BitBuffer::with_capacity(size * lower_bit_length);
        lower_bits.resize(size * lower_bit_length, false);
        assert(bit_seq(lower_bits) =~= zeros((size * lower_bit_length) as nat));
        let ef = Self {
            size,
            lower_bits,
            upper_bits: BitBuffer::with_capacity(2 * size),
            lower_bit_mask,
            lower_bit_length,
            encoded: false,
        };
        proof {
            assert(ef.decoded_values() =~= Seq::<u64>::empty());
        }
        ef
    }

    /// Encodes `values`, which are in non-decreasing order.
    pub fn encode(&mut self, values: &[u64])
        requires
            old(self).wf(),
            old(self).is_fresh(),
            non_decreasing(values@),
            values@.len() <= old(self).size(),
            values@.len() > 0 ==> values@.len() + high_of(values@.last(), old(self).width())
                <= max_bits(),
        ensures
            final(self).wf(),
            final(self).size() == old(self).size(),
            final(self).width() == old(self).width(),
            final(self).upper() == upper_code(values@, old(self).width()),
            final(self).lower() == lower_code(values@, old(self).width(), old(self).size()),
            final(self).upper().len() == values@.len() + (if values@.len() == 0 {
                0
            } else {
                high_of(values@.last(), old(self).width()) as int
            }),
            forall|i: int|
                0 <= i < values@.len() ==> #[trigger] final(self).decoded(i as nat) == values@[i],
            final(self).decoded_values() == values@,
            final(self).is_encoded(),
    {
        let ghost width = self.lower_bit_length as nat;
        let ghost size = self.size as nat;
        let n = values.len();
        let mut prev_high: u64 = 0;
        let mut i: usize = 0;
        proof {
            assert(bit_seq(self.lower_bits) =~= lower_code(values@.take(0), width, size));
        }
        while i < n
            invariant
                i <= n,
                n == values@.len(),
                n <= size,
                size == self.size,
                width == self.lower_bit_length,
                width <= 63,
                self.lower_bit_mask == low_mask(width),
                size * width <= max_bits(),
                non_decreasing(values@),
                n > 0 ==> n + high_of(values@.last(), width) <= max_bits(),
                prev_high == (if i == 0 {
                    0
                } else {
                    high_of(values@[i - 1], width)
                }),
                bit_seq(self.upper_bits) == upper_code(values@.take(i as int), width),
                bit_seq(self.lower_bits) == lower_code(values@.take(i as int), width, size),
            decreases n - i,
        {
            let val = values[i];
            let ghost lower_before = bit_seq(self.lower_bits);
            if self.lower_bit_length > 0 {
                let low = val & self.lower_bit_mask;
                proof {
                    lemma_slot_bounds(i as nat, width, size);
                }
                let start = i * self.lower_bit_length;
                self.lower_bits.store(start, start + self.lower_bit_length, low);
                proof {
                    lemma_store_slot(lower_before, values@, width, size, i as nat);
                }
            } else {
                assert(size * width == 0) by (nonlinear_arith)
                    requires
                        width == 0,
                ;
                assert(bit_seq(self.lower_bits) =~= lower_code(
                    values@.take(i as int + 1),
                    width,
                    size,
                ));
            }
            let high = val >> (self.lower_bit_length as u64);
            proof {
                lemma_high_monotone(values@, width, i as int);
                lemma_upper_code_len(values@.take(i as int), width);
                if i > 0 {
                    assert(values@.take(i as int).last() == values@[i - 1]);
                }
            }
            let gap = high - prev_high;
            let run = BitBuffer::repeat(false, gap as usize);
            self.upper_bits.extend_from(&run);
            self.upper_bits.push(true);
            proof {
                let next = values@.take(i as int + 1);
                assert(next.drop_last() =~= values@.take(i as int));
                assert(next.last() == val);
                assert(bit_seq(run) =~= zeros(gap as nat));
                assert(bit_seq(self.upper_bits) =~= upper_code(next, width));
            }
            prev_high = high;
            i += 1;
        }
        self.encoded = true;
        proof {
            assert(values@.take(n as int) =~= values@);
            lemma_upper_code_len(values@, width);
            assert forall|k: int| 0 <= k < values@.len() implies #[trigger] self.decoded(k as nat)
                == values@[k] by {
                lemma_decode_encode(values@, width, size, k as nat);
            }
            lemma_decode_all(values@, width, size);
        }
    }

    /// The value at `index`, for an index below `len()`.
    pub fn get(&self, index: usize) -> (r: Result<u64, EliasFanoError>)
        requires
            self.wf(),
        ensures
            index < self.size() ==> r == Ok::<u64, EliasFanoError>(self.decoded(index as nat)),
            index >= self.size() ==> r == Err::<u64, EliasFanoError>(
                EliasFanoError::IndexOutOfBound { index },
            ),
    {
        if index >= self.size {
            return Err(EliasFanoError::IndexOutOfBound { index });
        }
        let ghost upper = bit_seq(self.upper_bits);
        let len = self.upper_bits.len();
        let mut high: u64 = 0;
        let mut pos: usize = 0;
        let mut seen: usize = 0;
        proof {
            assert(upper.subrange(0, len as int) =~= upper);
        }
        while seen <= index && pos < len
            invariant
                pos <= len,
                len == upper.len(),
                upper == bit_seq(self.upper_bits),
                len <= max_bits(),
                seen <= index + 1,
                index < usize::MAX,
                high <= pos,
                seen <= index ==> high_part(upper, index as nat) == high + high_part(
                    upper.subrange(pos as int, len as int),
                    (index - seen) as nat,
                ),
                seen == index + 1 ==> high_part(upper, index as nat) == high,
            decreases len - pos,
        {
            proof {
                let rest = upper.subrange(pos as int, len as int);
                assert(rest[0] == upper[pos as int]);
                assert(rest.drop_first() =~= upper.subrange(pos as int + 1, len as int));
            }
            if self.upper_bits.get(pos) {
                seen += 1;
            } else {
                high += 1;
            }
            pos += 1;
        }
        let mut low: u64 = 0;
        if self.lower_bit_length > 0 {
            proof {
                lemma_slot_bounds(index as nat, self.lower_bit_length as nat, self.size as nat);
            }
            let low_start = index * self.lower_bit_length;
            let loaded = self.lower_bits.load(low_start, low_start + self.lower_bit_length);
            proof {
                lemma_le_value_below(
                    bit_seq(self.lower_bits).subrange(
                        low_start as int,
                        low_start + self.lower_bit_length,
                    ),
                );
                lemma_mask_keeps_low(loaded, self.lower_bit_length as u64);
            }
            low = loaded & self.lower_bit_mask;
        }
        Ok((high << (self.lower_bit_length as u64)) | low)
    }

    /// The number of elements the encoder was made for.
    pub fn len(&self) -> (n: usize)
        ensures
            n == self.size(),
    {
        self.size
    }

    /// The width of the low parts, in bits.
    pub fn lower_bit_length(&self) -> (w: usize)
        ensures
            w == self.width(),
    {
        self.lower_bit_length
    }

    /// The bits of the packed low parts.
    pub fn lower_bits(&self) -> (bits: Vec<bool>)
        ensures
            bits@ == self.lower(),
    {
        self.lower_bits.to_vec()
    }

    /// The bits of the unary-coded high parts.
    pub fn upper_bits(&self) -> (bits: Vec<bool>)
        ensures
            bits@ == self.upper(),
    {
        self.upper_bits.to_vec()
    }
}

/// The parts of an Elias–Fano code.
pub struct Parts {
    /// The number of elements the code was made for.
    pub size: nat,
    /// The width of the low parts.
    pub width: nat,
    /// The bit-vector of the low parts.
    pub lower: Seq<bool>,
    /// The bit-vector of the high parts.
    pub upper: Seq<bool>,
}

/// The bytes of an Elias–Fano code: the number of elements, the width of the
/// low parts and the number of bits of the upper bit-vector, each as eight
/// bytes, little-endian; then the lower bit-vector and the upper bit-vector,
/// each packed into words.
pub open spec fn code_bytes(parts: Parts) -> Seq<u8> {
    spec_u64_to_le_bytes(parts.size as u64) + spec_u64_to_le_bytes(parts.width as u64)
        + spec_u64_to_le_bytes(parts.upper.len() as u64) + packed(parts.lower) + packed(
        parts.upper,
    )
}

/// The parts of the code that the bytes hold; `None` where the bytes are no
/// code: they are too short for the three numbers, the width is above 63, a
/// bit-vector would be longer than a bit-vector can be, the bytes do not
/// have the length that the numbers call for, or the upper bit-vector has
/// more one bits than there are elements.
pub open spec fn code_parts(bytes: Seq<u8>) -> Option<Parts> {
    if bytes.len() < 24 {
        None
    } else {
        let size = u64_at(bytes, 0) as nat;
        let width = u64_at(bytes, 8) as nat;
        let upper_len = u64_at(bytes, 16) as nat;
        let lower_len = size * width;
        let lower_bytes: int = 8 * words_for(lower_len) as int;
        if width > 63 || size > usize::MAX || lower_len > max_bits() || upper_len > max_bits()
            || bytes.len() != 24 + lower_bytes + 8 * words_for(upper_len) {
            None
        } else {
            let lower = unpacked(bytes.subrange(24, 24 + lower_bytes), lower_len);
            let upper = unpacked(bytes.subrange(24 + lower_bytes, bytes.len() as int), upper_len);
            if count_ones(upper) > size {
                None
            } else {
                Some(Parts { size, width, lower, upper })
            }
        }
    }
}

/// The values that the bytes of an Elias–Fano code hold.
pub open spec fn code_values(bytes: Seq<u8>) -> Option<Seq<u64>> {
    match code_parts(bytes) {
        None => None,
        Some(parts) => Some(
            elias_fano_decoding(parts.upper, parts.lower, parts.width, count_ones(parts.upper)),
        ),
    }
}

/// A code that was written is read back as it was.
pub proof fn lemma_code_round_trip(parts: Parts)
    requires
        parts.width <= 63,
        parts.size <= usize::MAX,
        parts.lower.len() == parts.size * parts.width,
        parts.lower.len() <= max_bits(),
        parts.upper.len() <= max_bits(),
        count_ones(parts.upper) <= parts.size,
    ensures
        code_bytes(parts).len() == 24 + 8 * words_for(parts.lower.len()) + 8 * words_for(
            parts.upper.len(),
        ),
        code_parts(code_bytes(parts)) == Some(parts),
{
    lemma_auto_spec_u64_to_from_le_bytes();
    let bytes = code_bytes(parts);
    let a = spec_u64_to_le_bytes(parts.size as u64);
    let b = spec_u64_to_le_bytes(parts.width as u64);
    let c = spec_u64_to_le_bytes(parts.upper.len() as u64);
    let lower_bytes = packed(parts.lower);
    let upper_bytes = packed(parts.upper);
    lemma_unpack_pack(parts.lower, Seq::empty());
    lemma_unpack_pack(parts.upper, Seq::empty());
    assert(bytes.subrange(0, 8) =~= a);
    assert(bytes.subrange(8, 16) =~= b);
    assert(bytes.subrange(16, 24) =~= c);
    let mid: int = 24 + lower_bytes.len() as int;
    assert(bytes.subrange(24, mid) =~= lower_bytes + Seq::<u8>::empty());
    assert(bytes.subrange(mid, bytes.len() as int) =~= upper_bytes + Seq::<u8>::empty());
    let got = code_parts(bytes)->Some_0;
    assert(got.lower =~= parts.lower);
    assert(got.upper =~= parts.upper);
}

/// The parts of the code of `values`, for as many elements as there are
/// values, all below `universe`.
pub open spec fn code_of(values: Seq<u64>, universe: nat) -> Parts {
    let width = lower_width(universe, values.len());
    Parts {
        size: values.len(),
        width,
        lower: lower_code(values, width, values.len()),
        upper: upper_code(values, width),
    }
}

/// Whether `values` can be encoded for the universe `universe`: they are
/// non-decreasing, and neither bit-vector gets longer than a bit-vector can
/// be. If not, the reason why not.
pub open spec fn encodable(values: Seq<u64>, universe: nat) -> Result<(), CodecError> {
    let n = values.len();
    let width = lower_width(universe, n);
    if !non_decreasing(values) {
        Err(CodecError::NotSorted)
    } else if n * width > max_bits() || 2 * n > max_bits() || (n > 0 && n + high_of(
        values.last(),
        width,
    ) > max_bits()) {
        Err(CodecError::TooLarge)
    } else {
        Ok(())
    }
}

/// The width of the low parts is below 64.
pub proof fn lemma_lower_width_bound(universe: nat, size: nat)
    requires
        universe <= u64::MAX,
    ensures
        lower_width(universe, size) <= 63,
{
    if universe > size && size > 0 {
        let q = (universe / size) as u64;
        assert(universe / size >= 1 && universe / size <= universe) by (nonlinear_arith)
            requires
                universe > size,
                size > 0,
        ;
        lemma_leading_zeros_log2(q);
    }
}

/// The code of values that can be encoded is read back as those values.
pub proof fn lemma_code_of_round_trip(values: Seq<u64>, universe: nat)
    requires
        universe <= u64::MAX,
        values.len() <= usize::MAX,
        encodable(values, universe) is Ok,
    ensures
        code_bytes(code_of(values, universe)).len() == 24 + 8 * words_for(
            code_of(values, universe).lower.len(),
        ) + 8 * words_for(code_of(values, universe).upper.len()),
        code_values(code_bytes(code_of(values, universe))) == Some(values),
{
    let parts = code_of(values, universe);
    lemma_lower_width_bound(universe, values.len());
    lemma_upper_code_len(values, parts.width);
    lemma_code_round_trip(parts);
    lemma_decode_all(values, parts.width, values.len());
}

/// One more bit at the end adds to the count of one bits if it is one.
proof fn lemma_count_ones_push(bits: Seq<bool>, bit: bool)
    ensures
        count_ones(bits.push(bit)) == count_ones(bits) + (if bit {
            1nat
        } else {
            0nat
        }),
{
    lemma_count_ones_concat(bits, seq![bit]);
    assert(bits.push(bit) =~= bits + seq![bit]);
    assert(count_ones(seq![bit]) == (if bit {
        1nat
    } else {
        0nat
    })) by {
        reveal_with_fuel(count_ones, 2);
        assert(seq![bit].drop_first() =~= Seq::<bool>::empty());
    }
}

/// A run of bits has no more one bits than bits.
proof fn lemma_count_ones_le(bits: Seq<bool>)
    ensures
        count_ones(bits) <= bits.len(),
    decreases bits.len(),
{
    if bits.len() > 0 {
        lemma_count_ones_le(bits.drop_first());
    }
}

/// No value is smaller than the one just before it.
pub open spec fn adjacent_ordered(values: Seq<u64>) -> bool {
    forall|i: int| 0 < i < values.len() ==> values[i - 1] <= #[trigger] values[i]
}

/// Values of which none is smaller than the one just before it are
/// non-decreasing.
proof fn lemma_adjacent_ordered(values: Seq<u64>, i: int, j: int)
    requires
        adjacent_ordered(values),
        0 <= i <= j < values.len(),
    ensures
        values[i] <= values[j],
    decreases j - i,
{
    if i < j {
        lemma_adjacent_ordered(values, i, j - 1);
        assert(values[j - 1] <= values[j]);
    }
}

/// Whether no value is smaller than the one before it.
pub fn is_non_decreasing(values: &[u64]) -> (b: bool)
    ensures
        b == non_decreasing(values@),
{
    let n = values.len();
    let mut i: usize = 1;
    while i < n
        invariant
            1 <= i,
            n == values@.len(),
            forall|j: int| 0 < j < i && j < n ==> values@[j - 1] <= #[trigger] values@[j],
        decreases n - i,
    {
        if values[i - 1] > values[i] {
            assert(!non_decreasing(values@)) by {
                if non_decreasing(values@) {
                    assert(values@[i - 1] <= values@[i as int]);
                }
            }
            return false;
        }
        i += 1;
    }
    proof {
        assert(adjacent_ordered(values@));
        assert forall|a: int, b: int| 0 <= a <= b < values@.len() implies values@[a]
            <= values@[b] by {
            lemma_adjacent_ordered(values@, a, b);
        }
    }
    true
}

impl EliasFano {
    /// The parts of the code that the encoder holds.
    pub open spec fn parts(&self) -> Parts {
        Parts { size: self.size(), width: self.width(), lower: self.lower(), upper: self.upper() }
    }

    /// Why the encoder turns `values` down, if it does.
    fn check(&self, values: &[u64]) -> (r: Option<CodecError>)
        requires
            self.wf(),
        ensures
            r == self.refusal(values@),
            r is None ==> self.is_fresh(),
    {
        if self.encoded {
            return Some(CodecError::AlreadyEncoded);
        }
        let n = values.len();
        if n > self.size {
            return Some(CodecError::TooManyValues);
        }
        if !is_non_decreasing(values) {
            return Some(CodecError::NotSorted);
        }
        if n > 0 {
            let high = values[n - 1] >> (self.lower_bit_length as u64);
            let limit = (usize::MAX / 8) as u64;
            if high > limit || n as u64 > limit - high {
                return Some(CodecError::TooLarge);
            }
        }
        None
    }
}

impl IntSeqEncoder for EliasFano {
    open spec fn valid(&self) -> bool {
        self.wf()
    }

    open spec fn creatable(universe: Option<usize>, num_elem: usize) -> bool {
        &&& universe is Some
        &&& universe->Some_0 > num_elem ==> num_elem > 0
        &&& num_elem * lower_width(universe->Some_0 as nat, num_elem as nat) <= max_bits()
        &&& 2 * num_elem <= max_bits()
    }

    open spec fn num_elem(&self) -> nat {
        self.size()
    }

    open spec fn values(&self) -> Seq<u64> {
        self.decoded_values()
    }

    open spec fn refusal(&self, values: Seq<u64>) -> Option<CodecError> {
        if self.is_encoded() {
            Some(CodecError::AlreadyEncoded)
        } else if values.len() > self.size() {
            Some(CodecError::TooManyValues)
        } else if !non_decreasing(values) {
            Some(CodecError::NotSorted)
        } else if values.len() > 0 && values.len() + high_of(values.last(), self.width())
            > max_bits() {
            Some(CodecError::TooLarge)
        } else {
            None
        }
    }

    open spec fn data_len(&self) -> nat {
        8 * words_for(self.lower().len()) + 8 * words_for(self.upper().len())
    }

    open spec fn encoding(&self) -> Seq<u8> {
        code_bytes(self.parts())
    }

    open spec fn decoding(bytes: Seq<u8>) -> Option<Seq<u64>> {
        code_values(bytes)
    }

    fn new_encoder(universe: Option<usize>, num_elem: usize) -> (enc: Self) {
        EliasFano::new(universe.unwrap(), num_elem)
    }

    fn encode(&mut self, values: &[u64]) -> (r: Result<(), CodecError>) {
        match self.check(values) {
            Some(e) => Err(e),
            None => {
                EliasFano::encode(self, values);
                proof {
                    assert(old(self).decoded_values() =~= Seq::<u64>::empty());
                    assert(old(self).decoded_values() + values@ =~= values@);
                }
                Ok(())
            },
        }
    }

    fn len(&self) -> (n: usize) {
        let lower_words = (self.lower_bits.len() + 63) / 64;
        let upper_words = (self.upper_bits.len() + 63) / 64;
        8 * lower_words + 8 * upper_words
    }

    fn write(&self, writer: &mut Vec<u8>) -> (r: Result<usize, CodecError>) {
        let ghost start = writer@;
        let upper_len = self.upper_bits.len();
        let data_len = IntSeqEncoder::len(self);
        let mut field = u64_to_le_bytes(self.size as u64);
        writer.append(&mut field);
        let mut field = u64_to_le_bytes(self.lower_bit_length as u64);
        writer.append(&mut field);
        let mut field = u64_to_le_bytes(upper_len as u64);
        writer.append(&mut field);
        pack_into(&self.lower_bits, writer);
        pack_into(&self.upper_bits, writer);
        proof {
            lemma_auto_spec_u64_to_from_le_bytes();
            lemma_code_round_trip(self.parts());
            assert(writer@ =~= start + code_bytes(self.parts()));
        }
        Ok(24 + data_len)
    }

    proof fn lemma_decoding(&self) {
        lemma_code_round_trip(self.parts());
    }
}

/// The decoder of Elias–Fano codes.
pub struct EliasFanoDecoder {
    code: EliasFano,
    count: usize,
}

impl View for EliasFanoDecoder {
    type V = Seq<u64>;

    /// The values that the decoder holds.
    closed spec fn view(&self) -> Seq<u64> {
        self.code.decoded_values()
    }
}

impl EliasFanoDecoder {
    /// The invariant of a decoder.
    pub closed spec fn wf(&self) -> bool {
        &&& self.code.wf()
        &&& self.count == count_ones(bit_seq(self.code.upper_bits))
    }

    /// Reads a code from its bytes.
    pub fn new_decoder(bytes: &[u8]) -> (r: Result<Self, CodecError>)
        ensures
            match r {
                Ok(decoder) => decoder.wf() && code_values(bytes@) == Some(decoder@),
                Err(e) => e == CodecError::Malformed && code_values(bytes@) is None,
            },
    {
        if bytes.len() < 24 {
            return Err(CodecError::Malformed);
        }
        let size = u64_from_le_bytes(slice_subrange(bytes, 0, 8));
        let width = u64_from_le_bytes(slice_subrange(bytes, 8, 16));
        let upper_len = u64_from_le_bytes(slice_subrange(bytes, 16, 24));
        let limit = (usize::MAX / 8) as u128;
        proof {
            assert((size as u128) * (width as u128) == size * width) by (nonlinear_arith);
            assert((size as u128) * (width as u128) <= 0xffff_ffff_ffff_ffff
                * 0xffff_ffff_ffff_ffff) by (nonlinear_arith)
                requires
                    size <= 0xffff_ffff_ffff_ffff,
                    width <= 0xffff_ffff_ffff_ffff,
            ;
        }
        let lower_len = (size as u128) * (width as u128);
        if width > 63 || size as u128 > usize::MAX as u128 || lower_len > limit || upper_len as u128
            > limit {
            return Err(CodecError::Malformed);
        }
        let lower_len = lower_len as usize;
        let upper_len = upper_len as usize;
        let lower_bytes = 8 * ((lower_len + 63) / 64);
        let upper_bytes = 8 * ((upper_len + 63) / 64);
        if bytes.len() as u128 != 24 + lower_bytes as u128 + upper_bytes as u128 {
            return Err(CodecError::Malformed);
        }
        let lower_bits = unpack(slice_subrange(bytes, 24, 24 + lower_bytes), lower_len);
        let upper_bits = unpack(slice_subrange(bytes, 24 + lower_bytes, bytes.len()), upper_len);
        let ghost upper = bit_seq(upper_bits);
        let mut count: usize = 0;
        let mut pos: usize = 0;
        proof {
            assert(upper.take(0) =~= Seq::<bool>::empty());
        }
        while pos < upper_len
            invariant
                pos <= upper_len,
                upper_len == upper.len(),
                upper == bit_seq(upper_bits),
                count == count_ones(upper.take(pos as int)),
                count <= pos,
            decreases upper_len - pos,
        {
            proof {
                assert(upper.take(pos as int + 1) =~= upper.take(pos as int).push(
                    upper[pos as int],
                ));
                lemma_count_ones_push(upper.take(pos as int), upper[pos as int]);
            }
            if upper_bits.get(pos) {
                count += 1;
            }
            pos += 1;
        }
        proof {
            assert(upper.take(pos as int) =~= upper);
        }
        if count as u64 > size {
            return Err(CodecError::Malformed);
        }
        proof {
            lemma_low_mask(width);
        }
        let code = EliasFano {
            size: size as usize,
            lower_bits,
            upper_bits,
            lower_bit_mask: (1u64 << width) - 1,
            lower_bit_length: width as usize,
            encoded: true,
        };
        Ok(EliasFanoDecoder { code, count })
    }

    /// The number of values.
    pub fn len(&self) -> (n: usize)
        requires
            self.wf(),
        ensures
            n == self@.len(),
    {
        self.count
    }

    /// The value at `index`, for an index below `len()`.
    pub fn get(&self, index: usize) -> (r: Option<u64>)
        requires
            self.wf(),
        ensures
            index < self@.len() ==> r == Some(self@[index as int]),
            index >= self@.len() ==> r is None,
    {
        if index >= self.count {
            return None;
        }
        match self.code.get(index) {
            Ok(value) => Some(value),
            Err(_) => None,
        }
    }

    /// All the values, in order.
    pub fn decode(&self) -> (values: Vec<u64>)
        requires
            self.wf(),
        ensures
            values@ == self@,
    {
        let ghost upper = bit_seq(self.code.upper_bits);
        let ghost lower = bit_seq(self.code.lower_bits);
        let ghost width = self.code.lower_bit_length as nat;
        let len = self.code.upper_bits.len();
        let mut values: Vec<u64> = Vec::new();
        let mut pos: usize = 0;
        proof {
            assert(upper.take(0) =~= Seq::<bool>::empty());
        }
        while pos < len
            invariant
                pos <= len,
                len == upper.len(),
                self.wf(),
                upper == bit_seq(self.code.upper_bits),
                lower == bit_seq(self.code.lower_bits),
                width == self.code.lower_bit_length,
                values@.len() == count_ones(upper.take(pos as int)),
                values@.len() <= pos,
                forall|i: int|
                    0 <= i < values@.len() ==> #[trigger] values@[i] == decode_at(
                        upper,
                        lower,
                        width,
                        i as nat,
                    ),
            decreases len - pos,
        {
            let ghost seen = values@.len();
            proof {
                let head = upper.take(pos as int);
                let tail = upper.subrange(pos as int, len as int);
                assert(upper.take(pos as int + 1) =~= head.push(upper[pos as int]));
                lemma_count_ones_push(head, upper[pos as int]);
                assert(head + tail =~= upper);
                lemma_high_part_concat(head, tail, seen);
                assert(upper.take(len as int) =~= upper);
                lemma_count_ones_concat(head, tail);
                lemma_count_ones_le(tail);
                assert(tail[0] == upper[pos as int]);
            }
            if self.code.upper_bits.get(pos) {
                let index = values.len();
                let high = (pos - index) as u64;
                let mut low: u64 = 0;
                if self.code.lower_bit_length > 0 {
                    proof {
                        assert(count_ones(upper) >= seen + 1) by {
                            let tail = upper.subrange(pos as int, len as int);
                            assert(count_ones(tail) >= 1);
                        }
                        lemma_slot_bounds(
                            index as nat,
                            self.code.lower_bit_length as nat,
                            self.code.size as nat,
                        );
                    }
                    let low_start = index * self.code.lower_bit_length;
                    let loaded = self.code.lower_bits.load(
                        low_start,
                        low_start + self.code.lower_bit_length,
                    );
                    proof {
                        lemma_le_value_below(
                            lower.subrange(
                                low_start as int,
                                low_start + self.code.lower_bit_length,
                            ),
                        );
                        lemma_mask_keeps_low(loaded, self.code.lower_bit_length as u64);
                    }
                    low = loaded & self.code.lower_bit_mask;
                }
                values.push((high << (self.code.lower_bit_length as u64)) | low);
            }
            pos += 1;
        }
        proof {
            assert(upper.take(pos as int) =~= upper);
            assert(values@ =~= self@);
        }
        values
    }
}

/// The width of the low parts for `size` values below `universe`.
pub fn lower_bit_width(universe: usize, size: usize) -> (width: usize)
    ensures
        width == lower_width(universe as nat, size as nat),
        width <= 63,
{
    if universe > size && size > 0 {
        msb((universe / size) as u64) as usize
    } else {
        0
    }
}

/// The position of the highest set bit of `n`; 0 for 0.
fn msb(n: u64) -> (r: u64)
    ensures
        r == floor_log2(n as nat),
        r <= 63,
{
    if n == 0 {
        0
    } else {
        proof {
            lemma_leading_zeros_log2(n);
        }
        let highest_index: u64 = 63;
        highest_index - n.leading_zeros() as u64
    }
}

proof fn lemma_leading_zeros_log2(n: u64)
    requires
        n >= 1,
    ensures
        0 <= u64_leading_zeros(n) <= 63,
        63 - u64_leading_zeros(n) == floor_log2(n as nat),
    decreases n,
{
    reveal_with_fuel(u64_leading_zeros, 3);
    if n > 1 {
        lemma_leading_zeros_log2(n / 2);
    }
}

proof fn lemma_low_mask(width: u64)
    requires
        width <= 63,
    ensures
        1 <= (1u64 << width),
        (1u64 << width) - 1 == low_mask(width as nat),
{
    assert(1 <= (1u64 << width)) by (bit_vector)
        requires
            width <= 63,
    ;
}

/// Slot `index` of a vector of `size` slots lies within the vector.
proof fn lemma_slot_bounds(index: nat, width: nat, size: nat)
    requires
        index < size,
    ensures
        index * width + width <= size * width,
        index * width >= 0,
{
    assert(index * width + width <= size * width) by (nonlinear_arith)
        requires
            index < size,
    ;
}

/// Position `index * width + j` lies in slot `index`, at offset `j`.
proof fn lemma_slot_position(index: nat, width: nat, j: nat)
    requires
        j < width,
    ensures
        (index * width + j) / width == index,
        (index * width + j) % width == j,
{
    vstd::arithmetic::div_mod::lemma_fundamental_div_mod_converse(
        (index * width + j) as int,
        width as int,
        index as int,
        j as int,
    );
}

/// Below the width, the low part has the bits of the value.
proof fn lemma_low_bits(value: u64, width: u64, j: u64)
    requires
        j < width <= 63,
    ensures
        bit_at(value & low_mask(width as nat), j as nat) == bit_at(value, j as nat),
{
    assert(((value & (((1u64 << width) - 1) as u64)) >> j) & 1 == (value >> j) & 1) by (bit_vector)
        requires
            j < width <= 63,
    ;
}

/// Storing the low part of `values[index]` into its slot extends the packed
/// low parts by one value.
proof fn lemma_store_slot(before: Seq<bool>, values: Seq<u64>, width: nat, size: nat, index: nat)
    requires
        0 < width <= 63,
        index < values.len() <= size,
        before == lower_code(values.take(index as int), width, size),
    ensures
        before.subrange(0, (index * width) as int) + le_bits(
            low_of(values[index as int], width),
            width,
        ) + before.subrange((index * width + width) as int, before.len() as int) == lower_code(
            values.take(index as int + 1),
            width,
            size,
        ),
{
    lemma_slot_bounds(index, width, size);
    let start = index * width;
    let after = before.subrange(0, start as int) + le_bits(low_of(values[index as int], width), width)
        + before.subrange((start + width) as int, before.len() as int);
    let target = lower_code(values.take(index as int + 1), width, size);
    assert(after.len() == target.len());
    assert forall|p: int| 0 <= p < after.len() implies after[p] == target[p] by {
        let w = width as int;
        if p < start {
            assert(p / w < index) by (nonlinear_arith)
                requires
                    0 <= p < index * w,
                    w > 0,
            ;
        } else if p < start + width {
            let j = (p - start) as nat;
            lemma_slot_position(index, width, j);
            lemma_low_bits(values[index as int], width as u64, j as u64);
        } else {
            assert(p / w > index) by (nonlinear_arith)
                requires
                    p >= index * w + w,
                    w > 0,
            ;
        }
    }
    assert(after =~= target);
}

/// The high parts of a non-decreasing sequence are non-decreasing.
proof fn lemma_high_monotone(values: Seq<u64>, width: nat, i: int)
    requires
        non_decreasing(values),
        0 <= i < values.len(),
        width <= 63,
    ensures
        i > 0 ==> high_of(values[i - 1], width) <= high_of(values[i], width),
        high_of(values[i], width) <= high_of(values.last(), width),
{
    let w = width as u64;
    let a = values[i];
    let z = values.last();
    assert(a <= z);
    assert((a >> w) <= (z >> w)) by (bit_vector)
        requires
            a <= z,
            w <= 63,
    ;
    if i > 0 {
        let b = values[i - 1];
        assert((b >> w) <= (a >> w)) by (bit_vector)
            requires
                b <= a,
                w <= 63,
        ;
    }
}

/// The number of one bits in `bits`.
pub open spec fn count_ones(bits: Seq<bool>) -> nat
    decreases bits.len(),
{
    if bits.len() == 0 {
        0
    } else {
        (if bits[0] { 1nat } else { 0nat }) + count_ones(bits.drop_first())
    }
}

proof fn lemma_count_ones_concat(a: Seq<bool>, b: Seq<bool>)
    ensures
        count_ones(a + b) == count_ones(a) + count_ones(b),
    decreases a.len(),
{
    if a.len() == 0 {
        assert(a + b =~= b);
    } else {
        assert((a + b).drop_first() =~= a.drop_first() + b);
        lemma_count_ones_concat(a.drop_first(), b);
    }
}

proof fn lemma_count_ones_zeros(n: nat)
    ensures
        count_ones(zeros(n)) == 0,
    decreases n,
{
    if n > 0 {
        assert(zeros(n).drop_first() =~= zeros((n - 1) as nat));
        lemma_count_ones_zeros((n - 1) as nat);
    }
}

/// A run of `n` zeros followed by a one bit has its one bit number 0 after
/// `n` zeros.
proof fn lemma_high_part_run(n: nat)
    ensures
        high_part(zeros(n) + seq![true], 0) == n,
    decreases n,
{
    let run = zeros(n) + seq![true];
    if n == 0 {
        assert(run[0]);
    } else {
        assert(!run[0]);
        assert(run.drop_first() =~= zeros((n - 1) as nat) + seq![true]);
        lemma_high_part_run((n - 1) as nat);
    }
}

/// Counting in `a + b`: a one bit that `a` holds is found in `a`; one that
/// `a` does not hold is found in `b`, after all the zeros of `a`.
proof fn lemma_high_part_concat(a: Seq<bool>, b: Seq<bool>, index: nat)
    ensures
        index < count_ones(a) ==> high_part(a + b, index) == high_part(a, index),
        index >= count_ones(a) ==> high_part(a + b, index) == (a.len() - count_ones(a)) + high_part(
            b,
            (index - count_ones(a)) as nat,
        ),
    decreases a.len(),
{
    if a.len() == 0 {
        assert(a + b =~= b);
    } else {
        assert((a + b).drop_first() =~= a.drop_first() + b);
        assert((a + b)[0] == a[0]);
        if a[0] {
            if index > 0 {
                lemma_high_part_concat(a.drop_first(), b, (index - 1) as nat);
            }
        } else {
            lemma_high_part_concat(a.drop_first(), b, index);
        }
    }
}

/// The unary code of `values` holds one one bit for each value and as many
/// zero bits as the high part of the last value.
pub proof fn lemma_upper_code_len(values: Seq<u64>, width: nat)
    requires
        non_decreasing(values),
        width <= 63,
    ensures
        count_ones(upper_code(values, width)) == values.len(),
        upper_code(values, width).len() == values.len() + (if values.len() == 0 {
            0
        } else {
            high_of(values.last(), width) as int
        }),
    decreases values.len(),
{
    if values.len() > 0 {
        let before = values.drop_last();
        let i = values.len() - 1;
        lemma_upper_code_len(before, width);
        lemma_high_monotone(values, width, i);
        if before.len() > 0 {
            assert(before.last() == values[i - 1]);
        }
        let prev_high: int = if before.len() == 0 {
            0
        } else {
            high_of(before.last(), width) as int
        };
        let gap = (high_of(values.last(), width) - prev_high) as nat;
        lemma_count_ones_concat(upper_code(before, width), zeros(gap));
        lemma_count_ones_zeros(gap);
        lemma_count_ones_concat(upper_code(before, width) + zeros(gap), seq![true]);
        assert(count_ones(seq![true]) == 1) by {
            reveal_with_fuel(count_ones, 2);
            assert(seq![true].drop_first() =~= Seq::<bool>::empty());
        }
    }
}

/// In the unary code of a non-decreasing sequence, the one bit of each value
/// comes after as many zero bits as its high part.
pub proof fn lemma_high_part_of_code(values: Seq<u64>, width: nat, index: nat)
    requires
        non_decreasing(values),
        width <= 63,
        index < values.len(),
    ensures
        high_part(upper_code(values, width), index) == high_of(values[index as int], width),
    decreases values.len(),
{
    let before = values.drop_last();
    let last = values.len() - 1;
    let prev_high: int = if before.len() == 0 {
        0
    } else {
        high_of(before.last(), width) as int
    };
    lemma_high_monotone(values, width, last);
    if before.len() > 0 {
        assert(before.last() == values[last - 1]);
    }
    let gap = (high_of(values.last(), width) - prev_high) as nat;
    let head = upper_code(before, width);
    let tail = zeros(gap) + seq![true];
    assert(upper_code(values, width) =~= head + tail);
    lemma_upper_code_len(before, width);
    lemma_high_part_concat(head, tail, index);
    if index < before.len() {
        lemma_high_part_of_code(before, width, index);
        assert(before[index as int] == values[index as int]);
    } else {
        lemma_high_part_run(gap);
    }
}

/// A value below two to the width is its own low part.
proof fn lemma_mask_keeps_low(value: u64, width: u64)
    requires
        0 < width <= 63,
        value < vstd::arithmetic::power2::pow2(width as nat),
    ensures
        value & low_mask(width as nat) == value,
{
    vstd::bits::lemma_u64_pow2_no_overflow(width as nat);
    vstd::bits::lemma_u64_shl_is_mul(1, width);
    let bound = 1u64 << width;
    assert(value & ((bound - 1) as u64) == value) by (bit_vector)
        requires
            bound == 1u64 << width,
            0 < width <= 63,
            value < bound,
    ;
}

/// The bits of a value, read back as a number, give its low part.
proof fn lemma_le_value_of_bits(value: u64, width: nat)
    requires
        width <= 63,
    ensures
        le_value(le_bits(value, width)) == low_of(value, width),
    decreases width,
{
    let w = width as u64;
    if width == 0 {
        assert(value & (((1u64 << 0u64) - 1) as u64) == 0) by (bit_vector);
    } else {
        let bits = le_bits(value, width);
        let half = value / 2;
        assert(bits.drop_first() =~= le_bits(half, (width - 1) as nat)) by {
            assert forall|j: int| 0 <= j < width - 1 implies bits.drop_first()[j] == le_bits(
                half,
                (width - 1) as nat,
            )[j] by {
                let ju = j as u64;
                assert((value >> ((ju + 1) as u64)) & 1 == ((value / 2) >> ju) & 1) by (bit_vector)
                    requires
                        ju < 63,
                ;
            }
        }
        lemma_le_value_of_bits(half, (width - 1) as nat);
        let first: u64 = if bits[0] {
            1
        } else {
            0
        };
        assert(first == value & 1) by {
            assert((value >> 0u64) & 1 == value & 1) by (bit_vector);
            assert(value & 1 == 0 || value & 1 == 1) by (bit_vector);
        }
        let wm = (width - 1) as u64;
        assert((value & 1) + 2 * ((value / 2) & (((1u64 << wm) - 1) as u64)) == value & (((1u64
            << w) - 1) as u64)) by (bit_vector)
            requires
                0 < w <= 63,
                wm == w - 1,
        ;
    }
}

/// A value is its high part shifted up, joined with its low part.
proof fn lemma_join_parts(value: u64, width: nat)
    requires
        width <= 63,
    ensures
        join_parts(high_of(value, width), low_of(value, width), width) == value,
{
    let w = width as u64;
    assert(((value >> w) << w) | (value & (((1u64 << w) - 1) as u64)) == value) by (bit_vector)
        requires
            w <= 63,
    ;
}

/// Decoding inverts encoding: the bit-vectors that hold the code of a
/// non-decreasing sequence give back each of its values.
pub proof fn lemma_decode_encode(values: Seq<u64>, width: nat, size: nat, index: nat)
    requires
        non_decreasing(values),
        width <= 63,
        index < values.len() <= size,
    ensures
        decode_at(upper_code(values, width), lower_code(values, width, size), width, index)
            == values[index as int],
{
    let value = values[index as int];
    lemma_high_part_of_code(values, width, index);
    if width > 0 {
        lemma_slot_bounds(index, width, size);
        let lower = lower_code(values, width, size);
        let slot = lower.subrange((index * width) as int, (index * width + width) as int);
        assert(slot =~= le_bits(value, width)) by {
            assert forall|j: int| 0 <= j < width implies slot[j] == le_bits(value, width)[j] by {
                lemma_slot_position(index, width, j as nat);
            }
        }
        lemma_le_value_of_bits(value, width);
    } else {
        assert(value & (((1u64 << 0u64) - 1) as u64) == 0) by (bit_vector);
    }
    lemma_join_parts(value, width);
}

/// Decoding inverts encoding, for all values at once.
pub proof fn lemma_decode_all(values: Seq<u64>, width: nat, size: nat)
    requires
        non_decreasing(values),
        width <= 63,
        values.len() <= size,
    ensures
        elias_fano_decoding(
            upper_code(values, width),
            lower_code(values, width, size),
            width,
            values.len(),
        ) == values,
{
    let back = elias_fano_decoding(
        upper_code(values, width),
        lower_code(values, width, size),
        width,
        values.len(),
    );
    assert forall|i: int| 0 <= i < values.len() implies back[i] == values[i] by {
        lemma_decode_encode(values, width, size, i as nat);
    }
    assert(back =~= values);
}

/// With low parts of width 0 the lower bit-vector carries nothing: each
/// value is the number of zero bits before its one bit in the upper
/// bit-vector.
pub proof fn lemma_zero_width_decoding(upper: Seq<bool>, lower: Seq<bool>, index: nat)
    requires
        high_part(upper, index) <= u64::MAX,
    ensures
        decode_at(upper, lower, 0, index) == high_part(upper, index),
{
    let h = high_part(upper, index) as u64;
    assert((h << 0u64) | 0u64 == h) by (bit_vector);
}

} // verus!
