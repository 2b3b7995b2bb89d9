//! Bit-vectors as bytes: 64 bits to a word, the first bit the least
//! significant, each word as eight bytes, little-endian. The last word is
//! filled up with zeros.

use vstd::prelude::*;
use vstd::arithmetic::power2::{lemma2_to64, lemma2_to64_rest, lemma_pow2_unfold, pow2};
use vstd::bytes::{
    lemma_auto_spec_u64_to_from_le_bytes, spec_u64_to_le_bytes, u64_from_le_bytes,
    u64_to_le_bytes,
};
use vstd::slice::slice_subrange;
use crate::bits::{bit_at, bit_seq, le_bits, le_value, max_bits, BitBuffer};
use crate::little_endian::u64_at;

verus! {

/// The number of words that hold `n` bits.
pub open spec fn words_for(n: nat) -> nat {
    (n + 63) / 64
}

/// Where word `w` of `n` bits ends.
pub open spec fn word_end(n: nat, w: int) -> int {
    if 64 * w + 64 <= n {
        64 * w + 64
    } else {
        n as int
    }
}

/// Word `w` of the bits.
pub open spec fn word_of(bits: Seq<bool>, w: int) -> nat {
    le_value(bits.subrange(64 * w, word_end(bits.len(), w)))
}

/// The first `count` words of the bits, as bytes.
pub open spec fn packed_words(bits: Seq<bool>, count: nat) -> Seq<u8>
    decreases count,
{
    if count == 0 {
        Seq::empty()
    } else {
        packed_words(bits, (count - 1) as nat) + spec_u64_to_le_bytes(
            word_of(bits, count - 1) as u64,
        )
    }
}

/// The bits as bytes.
pub open spec fn packed(bits: Seq<bool>) -> Seq<u8> {
    packed_words(bits, words_for(bits.len()))
}

/// The first `n` bits that the bytes hold.
pub open spec fn unpacked(bytes: Seq<u8>, n: nat) -> Seq<bool> {
    Seq::new(n, |p: int| bit_at(u64_at(bytes, 8 * (p / 64)), (p % 64) as nat))
}

/// The number that a run of bits spells is below two to the number of bits.
pub proof fn lemma_le_value_below(bits: Seq<bool>)
    ensures
        le_value(bits) < pow2(bits.len()),
    decreases bits.len(),
{
    lemma2_to64();
    if bits.len() > 0 {
        lemma_le_value_below(bits.drop_first());
        lemma_pow2_unfold(bits.len());
    }
}

/// A run of at most 64 bits spells a number that fits in a word.
pub proof fn lemma_le_value_fits(bits: Seq<bool>)
    requires
        bits.len() <= 64,
    ensures
        le_value(bits) <= u64::MAX,
    decreases bits.len(),
{
    lemma_le_value_below(bits);
    lemma2_to64();
    lemma2_to64_rest();
    if bits.len() < 64 {
        vstd::arithmetic::power2::lemma_pow2_strictly_increases(bits.len(), 64);
    }
}

/// The number that a run of bits spells has those bits.
pub proof fn lemma_bit_of_value(bits: Seq<bool>, j: int)
    requires
        bits.len() <= 64,
        0 <= j < bits.len(),
    ensures
        le_value(bits) <= u64::MAX,
        bit_at(le_value(bits) as u64, j as nat) == bits[j],
    decreases bits.len(),
{
    lemma_le_value_fits(bits);
    let rest = bits.drop_first();
    lemma_le_value_fits(rest);
    lemma_le_value_below(rest);
    lemma2_to64();
    lemma2_to64_rest();
    if rest.len() < 63 {
        vstd::arithmetic::power2::lemma_pow2_strictly_increases(rest.len(), 63);
    }
    let b: u64 = if bits[0] {
        1
    } else {
        0
    };
    let x = le_value(rest) as u64;
    let v = le_value(bits) as u64;
    assert(v == b + 2 * x);
    assert(x <= 0x7fff_ffff_ffff_ffff);
    if j == 0 {
        assert(((b + 2 * x) as u64 >> 0u64) & 1 == b) by (bit_vector)
            requires
                b <= 1,
                x <= 0x7fff_ffff_ffff_ffff,
        ;
    } else {
        lemma_bit_of_value(rest, j - 1);
        let ju = j as u64;
        assert(((b + 2 * x) as u64 >> ju) & 1 == (x >> ((ju - 1) as u64)) & 1) by (bit_vector)
            requires
                b <= 1,
                x <= 0x7fff_ffff_ffff_ffff,
                1 <= ju <= 63,
        ;
        assert(rest[j - 1] == bits[j]);
    }
}

/// The packed words have eight bytes each.
pub proof fn lemma_packed_len(bits: Seq<bool>, count: nat)
    ensures
        packed_words(bits, count).len() == 8 * count,
    decreases count,
{
    lemma_auto_spec_u64_to_from_le_bytes();
    if count > 0 {
        lemma_packed_len(bits, (count - 1) as nat);
    }
}

/// Word `w` stands at bytes `8 * w` up to `8 * w + 8` of the packed words.
pub proof fn lemma_packed_at(bits: Seq<bool>, count: nat, w: int)
    requires
        0 <= w < count,
    ensures
        packed_words(bits, count).len() == 8 * count,
        u64_at(packed_words(bits, count), 8 * w) == word_of(bits, w) as u64,
    decreases count,
{
    lemma_auto_spec_u64_to_from_le_bytes();
    lemma_packed_len(bits, count);
    lemma_packed_len(bits, (count - 1) as nat);
    let head = packed_words(bits, (count - 1) as nat);
    let tail = spec_u64_to_le_bytes(word_of(bits, count - 1) as u64);
    if w < count - 1 {
        lemma_packed_at(bits, (count - 1) as nat, w);
        assert((head + tail).subrange(8 * w, 8 * w + 8) =~= head.subrange(8 * w, 8 * w + 8));
    } else {
        assert((head + tail).subrange(8 * w, 8 * w + 8) =~= tail);
    }
}

/// Unpacking inverts packing; bytes after the packed words do not matter.
pub proof fn lemma_unpack_pack(bits: Seq<bool>, after: Seq<u8>)
    ensures
        packed(bits).len() == 8 * words_for(bits.len()),
        unpacked(packed(bits) + after, bits.len()) == bits,
{
    let n = bits.len();
    let count = words_for(n);
    lemma_packed_len(bits, count);
    let bytes = packed(bits) + after;
    assert forall|p: int| 0 <= p < n implies unpacked(bytes, n)[p] == bits[p] by {
        let w = p / 64;
        let j = p % 64;
        lemma_packed_at(bits, count, w);
        assert(bytes.subrange(8 * w, 8 * w + 8) =~= packed(bits).subrange(8 * w, 8 * w + 8));
        let run = bits.subrange(64 * w, word_end(n, w));
        lemma_bit_of_value(run, j);
        assert(run[j] == bits[p]);
    }
    assert(unpacked(bytes, n) =~= bits);
}

/// Appends the bits of `buffer`, packed, to `out`.
pub fn pack_into(buffer: &BitBuffer, out: &mut Vec<u8>)
    requires
        bit_seq(*buffer).len() <= max_bits(),
    ensures
        final(out)@ == old(out)@ + packed(bit_seq(*buffer)),
        packed(bit_seq(*buffer)).len() == 8 * words_for(bit_seq(*buffer).len()),
{
    let ghost bits = bit_seq(*buffer);
    let n = buffer.len();
    let count = (n + 63) / 64;
    let mut w: usize = 0;
    proof {
        assert(out@ =~= old(out)@ + packed_words(bits, 0));
        lemma_packed_len(bits, count as nat);
    }
    while w < count
        invariant
            w <= count,
            count == words_for(n as nat),
            n == bits.len(),
            n <= max_bits(),
            bits == bit_seq(*buffer),
            out@ == old(out)@ + packed_words(bits, w as nat),
        decreases count - w,
    {
        let start = 64 * w;
        let end = if start + 64 <= n {
            start + 64
        } else {
            n
        };
        let word = buffer.load(start, end);
        let mut bytes = u64_to_le_bytes(word);
        out.append(&mut bytes);
        proof {
            assert(out@ =~= old(out)@ + packed_words(bits, (w + 1) as nat));
        }
        w += 1;
    }
}

/// The first `n` bits that the bytes hold, as a buffer.
pub fn unpack(bytes: &[u8], n: usize) -> (buffer: BitBuffer)
    requires
        n <= max_bits(),
        bytes@.len() >= 8 * words_for(n as nat),
    ensures
        bit_seq(buffer) == unpacked(bytes@, n as nat),
{
    let mut buffer = BitBuffer::with_capacity(n);
    buffer.resize(n, false);
    let count = (n + 63) / 64;
    let mut w: usize = 0;
    while w < count
        invariant
            w <= count,
            count == words_for(n as nat),
            n <= max_bits(),
            bytes@.len() >= 8 * count,
            bit_seq(buffer).len() == n,
            forall|p: int|
                0 <= p < n && p < 64 * w ==> #[trigger] bit_seq(buffer)[p] == unpacked(
                    bytes@,
                    n as nat,
                )[p],
        decreases count - w,
    {
        let start = 64 * w;
        let end = if start + 64 <= n {
            start + 64
        } else {
            n
        };
        let word = u64_from_le_bytes(slice_subrange(bytes, 8 * w, 8 * w + 8));
        let ghost before = bit_seq(buffer);
        buffer.store(start, end, word);
        proof {
            let after = bit_seq(buffer);
            assert(after.len() == n);
            assert forall|p: int| 0 <= p < n && p < 64 * (w + 1) implies #[trigger] after[p]
                == unpacked(bytes@, n as nat)[p] by {
                if p < start {
                    assert(after[p] == before[p]);
                } else {
                    assert(p / 64 == w as int && p % 64 == p - start);
                    assert(after[p] == le_bits(word, (end - start) as nat)[p - start]);
                }
            }
        }
        w += 1;
    }
    proof {
        assert(bit_seq(buffer) =~= unpacked(bytes@, n as nat));
    }
    buffer
}

} // verus!
