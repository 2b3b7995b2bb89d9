//! The plain codec: each value as eight bytes, least significant first.

use vstd::prelude::*;
use vstd::bytes::{
    lemma_auto_spec_u64_to_from_le_bytes, spec_u64_from_le_bytes, spec_u64_to_le_bytes,
    u64_from_le_bytes, u64_to_le_bytes,
};
use vstd::slice::slice_subrange;
use crate::compression::{CodecError, IntSeqEncoder};

verus! {

/// The bytes of `values`: eight for each, in order.
pub open spec fn plain_encoding(values: Seq<u64>) -> Seq<u8>
    decreases values.len(),
{
    if values.len() == 0 {
        Seq::empty()
    } else {
        plain_encoding(values.drop_last()) + spec_u64_to_le_bytes(values.last())
    }
}

/// The values that `bytes` hold, eight bytes for each; bytes left over at
/// the end hold none.
pub open spec fn plain_decoding(bytes: Seq<u8>) -> Seq<u64> {
    Seq::new(bytes.len() / 8, |i: int| spec_u64_from_le_bytes(bytes.subrange(8 * i, 8 * i + 8)))
}

/// The plain encoding has eight bytes for each value.
pub proof fn lemma_plain_encoding_len(values: Seq<u64>)
    ensures
        plain_encoding(values).len() == 8 * values.len(),
    decreases values.len(),
{
    lemma_auto_spec_u64_to_from_le_bytes();
    if values.len() > 0 {
        lemma_plain_encoding_len(values.drop_last());
    }
}

/// Value `i` stands at bytes `8 * i` up to `8 * i + 8` of the plain encoding.
pub proof fn lemma_plain_encoding_at(values: Seq<u64>, i: int)
    requires
        0 <= i < values.len(),
    ensures
        plain_encoding(values).len() == 8 * values.len(),
        plain_encoding(values).subrange(8 * i, 8 * i + 8) == spec_u64_to_le_bytes(values[i]),
    decreases values.len(),
{
    lemma_auto_spec_u64_to_from_le_bytes();
    lemma_plain_encoding_len(values);
    let before = values.drop_last();
    lemma_plain_encoding_len(before);
    let head = plain_encoding(before);
    let tail = spec_u64_to_le_bytes(values.last());
    if i < before.len() {
        lemma_plain_encoding_at(before, i);
        assert((head + tail).subrange(8 * i, 8 * i + 8) =~= head.subrange(8 * i, 8 * i + 8));
    } else {
        assert((head + tail).subrange(8 * i, 8 * i + 8) =~= tail);
    }
}

/// Decoding inverts encoding.
pub proof fn lemma_plain_round_trip(values: Seq<u64>)
    ensures
        plain_decoding(plain_encoding(values)) == values,
{
    lemma_auto_spec_u64_to_from_le_bytes();
    lemma_plain_encoding_len(values);
    let back = plain_decoding(plain_encoding(values));
    assert(back.len() == values.len());
    assert forall|i: int| 0 <= i < values.len() implies back[i] == values[i] by {
        lemma_plain_encoding_at(values, i);
    }
    assert(back =~= values);
}

/// The encoder of the plain codec.
pub struct PlainEncoder {
    num_elem: usize,
    encoded_data: Vec<u64>,
}

impl IntSeqEncoder for PlainEncoder {
    closed spec fn valid(&self) -> bool {
        &&& self.encoded_data@.len() <= self.num_elem
        &&& self.num_elem * 8 <= usize::MAX
    }

    open spec fn creatable(universe: Option<usize>, num_elem: usize) -> bool {
        num_elem * 8 <= usize::MAX
    }

    closed spec fn num_elem(&self) -> nat {
        self.num_elem as nat
    }

    closed spec fn values(&self) -> Seq<u64> {
        self.encoded_data@
    }

    open spec fn refusal(&self, values: Seq<u64>) -> Option<CodecError> {
        if self.values().len() + values.len() > self.num_elem() {
            Some(CodecError::TooManyValues)
        } else {
            None
        }
    }

    open spec fn data_len(&self) -> nat {
        self.values().len() * 8
    }

    open spec fn encoding(&self) -> Seq<u8> {
        plain_encoding(self.values())
    }

    open spec fn decoding(bytes: Seq<u8>) -> Option<Seq<u64>> {
        Some(plain_decoding(bytes))
    }

    proof fn lemma_decoding(&self) {
        lemma_plain_round_trip(self.values());
    }

    fn new_encoder(universe: Option<usize>, num_elem: usize) -> (enc: Self) {
        PlainEncoder { num_elem, encoded_data: Vec::new() }
    }

    fn encode(&mut self, values: &[u64]) -> (r: Result<(), CodecError>) {
        if values.len() > self.num_elem - self.encoded_data.len() {
            return Err(CodecError::TooManyValues);
        }
        let ghost before = self.encoded_data@;
        let mut i: usize = 0;
        while i < values.len()
            invariant
                i <= values@.len(),
                self.num_elem == old(self).num_elem,
                self.num_elem * 8 <= usize::MAX,
                before == old(self).encoded_data@,
                before.len() + values@.len() <= self.num_elem,
                self.encoded_data@ == before + values@.take(i as int),
            decreases values@.len() - i,
        {
            self.encoded_data.push(values[i]);
            proof {
                assert(values@.take(i as int + 1) =~= values@.take(i as int).push(values@[i as int]));
                assert(self.encoded_data@ =~= before + values@.take(i as int + 1));
            }
            i += 1;
        }
        proof {
            assert(values@.take(values@.len() as int) =~= values@);
        }
        Ok(())
    }

    fn len(&self) -> (n: usize) {
        self.encoded_data.len() * 8
    }

    fn write(&self, writer: &mut Vec<u8>) -> (r: Result<usize, CodecError>) {
        let ghost start = writer@;
        let mut written: usize = 0;
        let mut i: usize = 0;
        while i < self.encoded_data.len()
            invariant
                i <= self.encoded_data@.len(),
                self.encoded_data@.len() <= self.num_elem,
                self.num_elem * 8 <= usize::MAX,
                written == 8 * i,
                writer@ == start + plain_encoding(self.encoded_data@.take(i as int)),
            decreases self.encoded_data@.len() - i,
        {
            let mut bytes = u64_to_le_bytes(self.encoded_data[i]);
            proof {
                let next = self.encoded_data@.take(i as int + 1);
                assert(next.drop_last() =~= self.encoded_data@.take(i as int));
                assert(next.last() == self.encoded_data@[i as int]);
            }
            writer.append(&mut bytes);
            proof {
                assert(writer@ =~= start + plain_encoding(self.encoded_data@.take(i as int + 1)));
            }
            written += 8;
            i += 1;
        }
        proof {
            assert(self.encoded_data@.take(self.encoded_data@.len() as int) =~= self.encoded_data@);
            lemma_plain_encoding_len(self.encoded_data@);
        }
        Ok(written)
    }
}

/// The decoder of the plain codec.
pub struct PlainDecoder {}

impl PlainDecoder {
    /// The number of values that `bytes` hold.
    pub fn count(bytes: &[u8]) -> (n: usize)
        ensures
            n == plain_decoding(bytes@).len(),
    {
        bytes.len() / 8
    }

    /// Value `index` of those that `bytes` hold.
    pub fn get(bytes: &[u8], index: usize) -> (r: Option<u64>)
        ensures
            index < plain_decoding(bytes@).len() ==> r == Some(plain_decoding(bytes@)[index as int]),
            index >= plain_decoding(bytes@).len() ==> r is None,
    {
        if index >= bytes.len() / 8 {
            return None;
        }
        let word = slice_subrange(bytes, 8 * index, 8 * index + 8);
        Some(u64_from_le_bytes(word))
    }

    /// All the values that `bytes` hold, in order.
    pub fn decode(bytes: &[u8]) -> (values: Vec<u64>)
        ensures
            values@ == plain_decoding(bytes@),
    {
        let n = bytes.len() / 8;
        let mut values: Vec<u64> = Vec::new();
        let mut i: usize = 0;
        while i < n
            invariant
                i <= n,
                n == bytes@.len() / 8,
                bytes@.len() <= usize::MAX,
                values@ == plain_decoding(bytes@).take(i as int),
            decreases n - i,
        {
            let word = slice_subrange(bytes, 8 * i, 8 * i + 8);
            values.push(u64_from_le_bytes(word));
            proof {
                assert(values@ =~= plain_decoding(bytes@).take(i as int + 1));
            }
            i += 1;
        }
        proof {
            assert(plain_decoding(bytes@).take(n as int) =~= plain_decoding(bytes@));
        }
        values
    }
}

} // verus!
