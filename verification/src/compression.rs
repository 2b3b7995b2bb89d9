//! The interface of the integer-sequence encoders.

use vstd::prelude::*;

verus! {

/// Why an encoder or a decoder turned its input down.
#[derive(Clone, Copy, Debug, PartialEq, Eq)]
pub enum CodecError {
    /// More values were handed in than the encoder was made for.
    TooManyValues,
    /// The encoder has taken its values in already.
    AlreadyEncoded,
    /// A value is smaller than the one before it.
    NotSorted,
    /// The encoding of the values would be longer than can be addressed.
    TooLarge,
    /// The bytes are not an encoding.
    Malformed,
}

/// An encoder of sequences of 64-bit integers. What it has taken in is
/// written out as bytes, from which the decoder of the codec gets the values
/// back.
pub trait IntSeqEncoder: Sized {
    /// The invariant of the encoder.
    spec fn valid(&self) -> bool;

    /// Whether an encoder for `num_elem` values can be made.
    spec fn creatable(universe: Option<usize>, num_elem: usize) -> bool;

    /// The number of values the encoder was made for.
    spec fn num_elem(&self) -> nat;

    /// The values taken in so far.
    spec fn values(&self) -> Seq<u64>;

    /// Why `encode` turns `values` down in the encoder's present state;
    /// `None` where it takes them in.
    spec fn refusal(&self, values: Seq<u64>) -> Option<CodecError>;

    /// The size in bytes of the encoded data, without what a decoder needs
    /// beside it.
    spec fn data_len(&self) -> nat;

    /// The bytes that `write` writes.
    spec fn encoding(&self) -> Seq<u8>;

    /// The values that the decoder of the codec gets from `bytes`; `None`
    /// where the bytes are not an encoding.
    spec fn decoding(bytes: Seq<u8>) -> Option<Seq<u64>>;

    /// Creates an encoder for `num_elem` values, all below `universe` where
    /// one is given.
    fn new_encoder(universe: Option<usize>, num_elem: usize) -> (enc: Self)
        requires
            Self::creatable(universe, num_elem),
        ensures
            enc.valid(),
            enc.num_elem() == num_elem,
            enc.values() == Seq::<u64>::empty(),
    ;

    /// Takes in `values`, or leaves what the encoder holds as it was.
    fn encode(&mut self, values: &[u64]) -> (r: Result<(), CodecError>)
        requires
            old(self).valid(),
        ensures
            final(self).valid(),
            final(self).num_elem() == old(self).num_elem(),
            match old(self).refusal(values@) {
                None => r is Ok && final(self).values() == old(self).values() + values@,
                Some(e) => r is Err && r->Err_0 == e && final(self).values() == old(
                    self,
                ).values(),
            },
    ;

    /// The size in bytes of the encoded data.
    fn len(&self) -> (n: usize)
        requires
            self.valid(),
        ensures
            n == self.data_len(),
    ;

    /// Appends the encoding of the values taken in to `writer` and returns
    /// the number of bytes appended: the size of the encoded data, and of
    /// what a decoder needs beside it.
    fn write(&self, writer: &mut Vec<u8>) -> (r: Result<usize, CodecError>)
        requires
            self.valid(),
        ensures
            r is Ok,
            final(writer)@ == old(writer)@ + self.encoding(),
            r->Ok_0 == self.encoding().len(),
            r->Ok_0 >= self.data_len(),
    ;

    /// The decoder gets back what the encoder has taken in.
    proof fn lemma_decoding(&self)
        requires
            self.valid(),
        ensures
            Self::decoding(self.encoding()) == Some(self.values()),
    ;
}

/// The codecs agree: two encoders, of one codec or of two, that have taken
/// in the same values write encodings from which their decoders get the
/// same values back, those that were taken in.
pub proof fn lemma_codecs_agree<A: IntSeqEncoder, B: IntSeqEncoder>(a: &A, b: &B)
    requires
        a.valid(),
        b.valid(),
        a.values() == b.values(),
    ensures
        A::decoding(a.encoding()) == B::decoding(b.encoding()),
        A::decoding(a.encoding()) == Some(a.values()),
{
    a.lemma_decoding();
    b.lemma_decoding();
}

} // verus!
