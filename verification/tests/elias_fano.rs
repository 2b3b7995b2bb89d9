use spann_core::compression::{CodecError, IntSeqEncoder};
use spann_core::elias_fano::{is_non_decreasing, EliasFano, EliasFanoDecoder, EliasFanoError};
use spann_core::plain::{PlainDecoder, PlainEncoder};

fn bits(values: &[u8]) -> Vec<bool> {
    values.iter().map(|b| *b == 1).collect()
}

#[test]
fn test_elias_fano_encoding() {
    let values = vec![5, 8, 8, 15, 32];
    let upper_bound = 36;
    let mut ef = EliasFano::new(upper_bound, values.len());
    ef.encode(&values);

    // L = floor(log2(36/5)) = 2
    // Lower 2 bits of each value: 01, 00, 00, 11, 00
    let expected_lower_bits = bits(&[1, 0, 0, 0, 0, 0, 1, 1, 0, 0]);

    // Upper bits: 1, 2, 2, 3, 8
    // Gaps: 1, 1, 0, 1, 5
    // Unary encoding: 01|01|1|01|000001
    let expected_upper_bits = bits(&[0, 1, 0, 1, 1, 0, 1, 0, 0, 0, 0, 0, 1]);

    assert_eq!(ef.lower_bit_length(), 2);
    assert_eq!(ef.lower_bits(), expected_lower_bits,);
    assert_eq!(ef.upper_bits(), expected_upper_bits,);
}

#[test]
fn test_elias_fano_decoding() {
    let test_cases = vec![
        (vec![5, 8, 8, 15, 32], 36),                // Basic case
        (vec![0, 1, 2, 3, 4], 5),                   // Start with 0
        (vec![10], 20),                             // Single element
        (vec![1000, 2000, 3000, 4000, 5000], 6000), // Large numbers
        (vec![2, 4, 6, 8, 10], 10),                 // Non-consecutive integers
    ];

    for (values, upper_bound) in test_cases {
        let mut ef = EliasFano::new(upper_bound, values.len());
        ef.encode(&values);

        for i in 0..values.len() {
            let decoded_value = ef.get(i).expect("Failed to decode value");
            assert_eq!(values[i], decoded_value);
        }
    }

    // Test random access on a larger set
    let values: Vec<u64> = (1..=100).collect(); // Sorted list from 1 to 100
    let upper_bound = 9999;

    let mut ef = EliasFano::new(upper_bound, values.len());
    ef.encode(&values);

    // Check random accesses
    assert_eq!(ef.get(0).expect("Failed to decode value"), 1);
    assert_eq!(ef.get(50).expect("Failed to decode value"), 51);
    assert_eq!(ef.get(99).expect("Failed to decode value"), 100);

    // Test out of bounds
    assert!(ef.get(100).is_err());
}

#[test]
fn elias_fano_get_past_the_end_names_the_index() {
    let values = vec![5, 8, 8, 15, 32];
    let mut ef = EliasFano::new(36, values.len());
    ef.encode(&values);
    assert_eq!(ef.get(5), Err(EliasFanoError::IndexOutOfBound { index: 5 }));
    assert_eq!(ef.len(), 5);
}

#[test]
fn elias_fano_small_universe_has_no_lower_bits() {
    // The universe is no larger than the number of values: everything is in
    // the upper bits.
    let values = vec![0, 1, 1, 3];
    let mut ef = EliasFano::new(4, values.len());
    assert_eq!(ef.lower_bit_length(), 0);
    assert!(ef.lower_bits().is_empty());
    ef.encode(&values);
    assert!(ef.lower_bits().is_empty());
    assert_eq!(ef.upper_bits(), bits(&[1, 0, 1, 1, 0, 0, 1]));
    for i in 0..values.len() {
        assert_eq!(ef.get(i), Ok(values[i]));
    }
}

#[test]
fn elias_fano_fresh_encoder_is_empty() {
    let ef = EliasFano::new(1000, 10);
    // floor(log2(1000 / 10)) = 6
    assert_eq!(ef.lower_bit_length(), 6);
    assert_eq!(ef.lower_bits(), vec![false; 60]);
    assert!(ef.upper_bits().is_empty());
    assert_eq!(ef.len(), 10);
}

#[test]
fn elias_fano_wide_low_parts_cross_word_boundaries() {
    // Slots of 40 bits: the second slot spans two 64-bit words.
    let values: Vec<u64> = vec![0x12_3456_789a, 0xab_cdef_0123, 0xff_ffff_ffff, 0x1ff_0000_0001];
    let universe = 1usize << 42;
    let mut ef = EliasFano::new(universe, values.len());
    assert_eq!(ef.lower_bit_length(), 40);
    ef.encode(&values);
    for i in 0..values.len() {
        assert_eq!(ef.get(i), Ok(values[i]));
    }
    assert_eq!(ef.upper_bits(), bits(&[1, 1, 1, 0, 1]));
}

#[test]
fn plain_codec_round_trip() {
    let values: Vec<u64> = vec![5, 8, 8, 15, 32, u64::MAX];
    let mut encoder = PlainEncoder::new_encoder(None, values.len());
    assert_eq!(encoder.encode(&values), Ok(()));
    assert_eq!(encoder.len(), 48);
    let mut out: Vec<u8> = vec![0xee];
    assert_eq!(encoder.write(&mut out), Ok(48));
    assert_eq!(out.len(), 49);
    assert_eq!(out[0], 0xee);
    assert_eq!(&out[1..9], &[5, 0, 0, 0, 0, 0, 0, 0]);
    assert_eq!(&out[41..49], &[0xff; 8]);
    assert_eq!(PlainDecoder::decode(&out[1..]), values);
    assert_eq!(PlainDecoder::count(&out[1..]), 6);
    assert_eq!(PlainDecoder::get(&out[1..], 3), Some(15));
    assert_eq!(PlainDecoder::get(&out[1..], 6), None);
}

#[test]
fn plain_decoder_ignores_trailing_bytes() {
    let bytes = [1u8, 0, 0, 0, 0, 0, 0, 0, 2, 0, 0];
    assert_eq!(PlainDecoder::decode(&bytes), vec![1]);
    assert_eq!(PlainDecoder::count(&bytes), 1);
    assert_eq!(PlainDecoder::get(&bytes, 1), None);
}

#[test]
fn plain_encoder_rejects_too_many_values() {
    let mut encoder = PlainEncoder::new_encoder(Some(100), 3);
    assert_eq!(encoder.encode(&[1, 2]), Ok(()));
    assert_eq!(encoder.encode(&[3, 4]), Err(CodecError::TooManyValues));
    // The encoder is as it was.
    let mut out = Vec::new();
    assert_eq!(encoder.write(&mut out), Ok(16));
    assert_eq!(PlainDecoder::decode(&out), vec![1, 2]);
    assert_eq!(encoder.encode(&[3]), Ok(()));
}

#[test]
fn codecs_give_back_the_same_values() {
    let values: Vec<u64> = vec![3, 3, 7, 100, 101, 4000, 65_536, 65_537];
    let mut ef = EliasFano::new(70_000, values.len());
    ef.encode(&values);
    let from_ef: Vec<u64> = (0..values.len()).map(|i| ef.get(i).unwrap()).collect();

    let mut plain = PlainEncoder::new_encoder(None, values.len());
    plain.encode(&values).unwrap();
    let mut bytes = Vec::new();
    plain.write(&mut bytes).unwrap();
    let from_plain = PlainDecoder::decode(&bytes);

    assert_eq!(from_ef, values);
    assert_eq!(from_plain, values);
}

fn written<E: IntSeqEncoder>(encoder: &E) -> Vec<u8> {
    let mut bytes = Vec::new();
    let count = encoder.write(&mut bytes).unwrap();
    assert_eq!(count, bytes.len());
    assert!(count >= encoder.len());
    bytes
}

#[test]
fn elias_fano_code_as_bytes() {
    let values = vec![5, 8, 8, 15, 32];
    let mut ef: EliasFano = IntSeqEncoder::new_encoder(Some(36), values.len());
    assert_eq!(IntSeqEncoder::encode(&mut ef, &values), Ok(()));
    assert_eq!(IntSeqEncoder::len(&ef), 16);
    let bytes = written(&ef);
    let mut expected: Vec<u8> = Vec::new();
    expected.extend_from_slice(&5u64.to_le_bytes());
    expected.extend_from_slice(&2u64.to_le_bytes());
    expected.extend_from_slice(&13u64.to_le_bytes());
    // lower bits 1000000110, first bit lowest: 1 + 64 + 128
    expected.extend_from_slice(&193u64.to_le_bytes());
    // upper bits 0101101000001: 2 + 8 + 16 + 64 + 4096
    expected.extend_from_slice(&4186u64.to_le_bytes());
    assert_eq!(bytes, expected);

    let decoder = EliasFanoDecoder::new_decoder(&bytes).ok().unwrap();
    assert_eq!(decoder.len(), 5);
    assert_eq!(decoder.decode(), values);
    for i in 0..5 {
        assert_eq!(decoder.get(i), Some(values[i]));
    }
    assert_eq!(decoder.get(5), None);
}

#[test]
fn elias_fano_encoder_refuses_bad_input() {
    let mut ef: EliasFano = IntSeqEncoder::new_encoder(Some(100), 3);
    assert_eq!(
        IntSeqEncoder::encode(&mut ef, &[1, 2, 3, 4]),
        Err(CodecError::TooManyValues)
    );
    assert_eq!(IntSeqEncoder::encode(&mut ef, &[1, 3, 2]), Err(CodecError::NotSorted));
    // Nothing was taken in.
    assert!(ef.upper_bits().is_empty());
    assert_eq!(IntSeqEncoder::encode(&mut ef, &[1, 2, 2]), Ok(()));
    assert_eq!(
        IntSeqEncoder::encode(&mut ef, &[1, 2, 2]),
        Err(CodecError::AlreadyEncoded)
    );
    assert_eq!(EliasFanoDecoder::new_decoder(&written(&ef)).ok().unwrap().decode(), vec![1, 2, 2]);

    // The run of zeros before the last value would be longer than a
    // bit-vector can be.
    let mut wide: EliasFano = IntSeqEncoder::new_encoder(Some(0), 2);
    assert_eq!(wide.lower_bit_length(), 0);
    assert_eq!(
        IntSeqEncoder::encode(&mut wide, &[1, u64::MAX]),
        Err(CodecError::TooLarge)
    );
}

#[test]
fn sortedness_is_checked() {
    assert!(is_non_decreasing(&[]));
    assert!(is_non_decreasing(&[7]));
    assert!(is_non_decreasing(&[1, 1, 2, 9]));
    assert!(!is_non_decreasing(&[1, 3, 2, 9]));
    assert!(!is_non_decreasing(&[2, 1]));
}

#[test]
fn elias_fano_fewer_values_than_declared() {
    let mut ef: EliasFano = IntSeqEncoder::new_encoder(Some(1000), 10);
    IntSeqEncoder::encode(&mut ef, &[17, 300, 999]).unwrap();
    let decoder = EliasFanoDecoder::new_decoder(&written(&ef)).ok().unwrap();
    assert_eq!(decoder.len(), 3);
    assert_eq!(decoder.decode(), vec![17, 300, 999]);
    assert_eq!(decoder.get(3), None);

    let empty: EliasFano = IntSeqEncoder::new_encoder(Some(1000), 10);
    let bytes = written(&empty);
    // 60 lower bits make one word, and there are no upper bits.
    assert_eq!(bytes.len(), 32);
    let decoder = EliasFanoDecoder::new_decoder(&bytes).ok().unwrap();
    assert_eq!(decoder.len(), 0);
    assert!(decoder.decode().is_empty());
}

#[test]
fn elias_fano_long_code_round_trip() {
    // Enough values to fill several words of both bit-vectors.
    let values: Vec<u64> = (0..500u64).map(|i| i * i + 3 * i).collect();
    let universe = (values[values.len() - 1] + 1) as usize;
    let mut ef: EliasFano = IntSeqEncoder::new_encoder(Some(universe), values.len());
    IntSeqEncoder::encode(&mut ef, &values).unwrap();
    let bytes = written(&ef);
    assert_eq!(bytes.len(), 24 + IntSeqEncoder::len(&ef));
    let decoder = EliasFanoDecoder::new_decoder(&bytes).ok().unwrap();
    assert_eq!(decoder.len(), 500);
    assert_eq!(decoder.decode(), values);
    assert_eq!(decoder.get(499), Some(values[499]));
    assert_eq!(decoder.get(250), Some(values[250]));
}

#[test]
fn elias_fano_decoder_rejects_what_is_no_code() {
    let malformed = |bytes: &[u8]| {
        assert_eq!(
            EliasFanoDecoder::new_decoder(bytes).err(),
            Some(CodecError::Malformed)
        );
    };
    let mut ef: EliasFano = IntSeqEncoder::new_encoder(Some(36), 5);
    IntSeqEncoder::encode(&mut ef, &[5, 8, 8, 15, 32]).unwrap();
    let good = written(&ef);

    malformed(&[]);
    malformed(&good[..23]);
    malformed(&good[..39]);
    let mut long = good.clone();
    long.push(0);
    malformed(&long);
    // A width of 64.
    let mut bad = good.clone();
    bad[8] = 64;
    malformed(&bad);
    // More one bits than elements.
    let mut bad = good.clone();
    bad[32] = 0xff;
    malformed(&bad);
    // Fewer elements than the code has values.
    let mut bad = good.clone();
    bad[0] = 4;
    malformed(&bad);
    // A number of upper bits that does not match the bytes.
    let mut bad = good.clone();
    bad[16] = 200;
    malformed(&bad);
    assert!(EliasFanoDecoder::new_decoder(&good).is_ok());
}

#[test]
fn both_codecs_decode_to_what_was_encoded() {
    fn round_trip<E: IntSeqEncoder>(
        universe: Option<usize>,
        values: &[u64],
        decode: fn(&[u8]) -> Vec<u64>,
    ) -> Vec<u64> {
        let mut encoder = E::new_encoder(universe, values.len());
        encoder.encode(values).unwrap();
        decode(&written(&encoder))
    }
    let values: Vec<u64> = vec![0, 0, 1, 5, 8, 13, 1000, 1001, 70_000];
    let from_plain = round_trip::<PlainEncoder>(None, &values, |b| PlainDecoder::decode(b));
    let from_ef = round_trip::<EliasFano>(Some(70_001), &values, |b| {
        EliasFanoDecoder::new_decoder(b).ok().unwrap().decode()
    });
    assert_eq!(from_plain, values);
    assert_eq!(from_ef, values);
}
