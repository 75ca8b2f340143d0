use lib::ewah::{DecodeError, Decoder, Encoder, EwahBitmap, LengthMismatch};
use lib::word::Word;

fn decode<W: Word>(encoded: &[W], words: usize) -> Result<Vec<W>, DecodeError> {
    let mut out = vec![W::ZERO; words];
    Decoder::new(encoded).decode_into(&mut out)?;
    Ok(out)
}

#[test]
fn encode_runs_and_literals_u64() {
    let words: [u64; 4] = [0, 0, 5, u64::MAX];
    let encoded = Encoder::new(&words).encode();
    // run of two clear words with one literal, then a run of one set word
    assert_eq!(encoded, vec![(2 << 1) | (1 << 32), 5, (1 << 1) | 1]);
    assert_eq!(decode(&encoded, 4), Ok(words.to_vec()));
}

#[test]
fn encode_empty() {
    let words: [u32; 0] = [];
    let encoded = Encoder::new(&words).encode();
    assert!(encoded.is_empty());
    assert_eq!(decode::<u32>(&encoded, 0), Ok(vec![]));
}

#[test]
fn encode_splits_long_runs_u8() {
    let words = [0u8; 10];
    let encoded = Encoder::new(&words).encode();
    assert_eq!(encoded, vec![7 << 1, 3 << 1]);
    assert_eq!(decode(&encoded, 10), Ok(words.to_vec()));
}

#[test]
fn encode_splits_long_literal_groups_u8() {
    let words = [0x55u8; 16];
    let encoded = Encoder::new(&words).encode();
    let mut expected = vec![15u8 << 4];
    expected.extend([0x55u8; 15]);
    expected.push(1 << 4);
    expected.push(0x55);
    assert_eq!(encoded, expected);
    assert_eq!(decode(&encoded, 16), Ok(words.to_vec()));
}

#[test]
fn encode_switching_runs_u16() {
    let words: [u16; 5] = [0xffff, 0xffff, 0, 0, 0x1234];
    let encoded = Encoder::new(&words).encode();
    assert_eq!(encoded, vec![(2 << 1) | 1, (2 << 1) | (1 << 8), 0x1234]);
    assert_eq!(decode(&encoded, 5), Ok(words.to_vec()));
}

#[test]
fn roundtrip_many_shapes() {
    let mut words: Vec<u32> = Vec::new();
    for i in 0..500u32 {
        let w = match i % 7 {
            0 | 1 => 0,
            2 => u32::MAX,
            3 => i.wrapping_mul(2_654_435_761),
            _ => if i % 3 == 0 { 0 } else { 0xf0f0_0f0f },
        };
        words.push(w);
    }
    let encoded = Encoder::new(&words).encode();
    assert_eq!(decode(&encoded, words.len()), Ok(words.clone()));
    let bitmap = EwahBitmap::from_words(&words);
    assert_eq!(bitmap.to_words(), words);
    assert_eq!(bitmap.encoded_words(), encoded.as_slice());
}

#[test]
fn decode_truncated_literals() {
    let encoded: [u64; 1] = [1 << 32];
    assert_eq!(decode(&encoded, 1), Err(DecodeError::TruncatedLiterals));
}

#[test]
fn decode_output_too_small() {
    let encoded: [u64; 1] = [3 << 1];
    assert_eq!(decode(&encoded, 2), Err(DecodeError::OutputTooSmall));
}

#[test]
fn decode_output_length_mismatch() {
    let encoded: [u64; 1] = [3 << 1];
    assert_eq!(decode(&encoded, 4), Err(DecodeError::OutputLengthMismatch));
}

#[test]
fn decode_error_leaves_output() {
    let encoded: [u64; 1] = [3 << 1];
    let mut out = vec![9u64; 2];
    assert_eq!(Decoder::new(&encoded).decode_into(&mut out), Err(DecodeError::OutputTooSmall));
    assert_eq!(out, vec![9, 9]);
}

#[test]
fn decode_error_messages() {
    assert_eq!(DecodeError::CountTooLarge.message(), "marker count cannot fit in usize");
    assert_eq!(DecodeError::TruncatedLiterals.message(), "marker reference missing literal words");
    assert_eq!(DecodeError::OutputTooSmall.message(), "decoded words exceed output capacity");
    assert_eq!(DecodeError::OutputLengthMismatch.message(), "decoded words do not fill the output");
}

#[test]
fn bitmap_measures() {
    let empty: EwahBitmap<u64> = EwahBitmap::new();
    assert!(empty.is_empty());
    assert_eq!(empty.bit_len(), 0);
    assert_eq!(empty.count_ones(), 0);
    let words: [u16; 3] = [0xffff, 0x00f1, 0];
    let bitmap = EwahBitmap::from_words(&words);
    assert!(!bitmap.is_empty());
    assert_eq!(bitmap.bit_len(), 48);
    assert_eq!(bitmap.count_ones(), 21);
    let d: EwahBitmap<u8> = EwahBitmap::default();
    assert!(d.is_empty());
}

#[test]
fn bitmap_clear() {
    let mut bitmap = EwahBitmap::from_words(&[1u32, 2, 3]);
    bitmap.clear();
    assert!(bitmap.is_empty());
    assert_eq!(bitmap.to_words(), Vec::<u32>::new());
}

#[test]
fn bitmap_binary_operations() {
    let a = EwahBitmap::from_words(&[0b1100u8, 0xff, 0]);
    let b = EwahBitmap::from_words(&[0b1010u8, 0, 0xff]);
    assert_eq!(a.and(&b).unwrap().to_words(), vec![0b1000, 0, 0]);
    assert_eq!(a.or(&b).unwrap().to_words(), vec![0b1110, 0xff, 0xff]);
    assert_eq!(a.xor(&b).unwrap().to_words(), vec![0b0110, 0xff, 0xff]);
    assert_eq!(a.and_not(&b).unwrap().to_words(), vec![0b0100, 0xff, 0]);
    assert_eq!(a.nand(&b).unwrap().to_words(), vec![0xf7, 0xff, 0xff]);
    assert_eq!(a.nor(&b).unwrap().to_words(), vec![0xf1, 0, 0]);
    assert_eq!(a.xnor(&b).unwrap().to_words(), vec![0xf9, 0, 0]);
    assert_eq!(a.not().to_words(), vec![0xf3, 0, 0xff]);
}

#[test]
fn bitmap_length_mismatch() {
    let a = EwahBitmap::from_words(&[1u32, 2]);
    let b = EwahBitmap::from_words(&[1u32]);
    match a.and(&b) {
        Err(e) => assert_eq!(e, LengthMismatch { left_bits: 64, right_bits: 32 }),
        Ok(_) => panic!("lengths differ"),
    }
    match b.or(&a) {
        Err(e) => assert_eq!(e, LengthMismatch { left_bits: 32, right_bits: 64 }),
        Ok(_) => panic!("lengths differ"),
    }
    assert!(a.xor(&b).is_err());
    assert!(a.and_not(&b).is_err());
    assert!(a.nand(&b).is_err());
    assert!(a.nor(&b).is_err());
    assert!(a.xnor(&b).is_err());
}

#[test]
fn bitmap_not_twice_is_identity() {
    let words: [u64; 4] = [0, u64::MAX, 0x0123_4567_89ab_cdef, 7];
    let a = EwahBitmap::from_words(&words);
    assert_eq!(a.not().not().to_words(), words.to_vec());
}

#[test]
fn bitmap_negated_ops_match_not_of_op() {
    let a = EwahBitmap::from_words(&[0x1234u16, 0, 0xffff, 0x8001]);
    let b = EwahBitmap::from_words(&[0x0ff0u16, 0xffff, 0xffff, 0]);
    assert_eq!(a.nand(&b).unwrap().to_words(), a.and(&b).unwrap().not().to_words());
    assert_eq!(a.nor(&b).unwrap().to_words(), a.or(&b).unwrap().not().to_words());
    assert_eq!(a.xnor(&b).unwrap().to_words(), a.xor(&b).unwrap().not().to_words());
    assert_eq!(a.and_not(&b).unwrap().to_words(), a.and(&b.not()).unwrap().to_words());
}

#[test]
fn bitmap_results_stay_compressed() {
    let a = EwahBitmap::from_words(&[0u64; 100]);
    let n = a.not();
    assert_eq!(n.encoded_words(), &[(100u64 << 1) | 1][..]);
    assert_eq!(n.count_ones(), 6400);
}

#[test]
fn word_operations() {
    assert_eq!(0b1100u8.bit_and(0b1010), 0b1000);
    assert_eq!(0b1100u16.bit_or(0b1010), 0b1110);
    assert_eq!(0b1100u32.bit_xor(0b1010), 0b0110);
    assert_eq!(0u64.bit_not(), u64::MAX);
    assert_eq!(0xf0u8.count_ones(), 4);
    assert!(0u32.is_uniform());
    assert!(u16::MAX.is_uniform());
    assert!(!1u8.is_uniform());
    assert_eq!(<u8 as Word>::from_u64(200), 200u8);
    assert_eq!(0xabcdu16.to_u64(), 0xabcd);
    assert_eq!(<u32 as Word>::BITS, 32);
    assert_eq!(<u64 as Word>::ONES, u64::MAX);
}

#[test]
fn bitmap_complement_counts_the_other_bits() {
    let a = EwahBitmap::from_words(&[0x0f0fu16, 0, 0xffff, 0x1234]);
    assert_eq!(a.not().count_ones() + a.count_ones(), a.bit_len() as u64);
    assert_eq!(a.not().count_ones(), 64 - 8 - 16 - 5);
}

#[test]
fn bitmap_encoding_fixed_by_words() {
    let words: [u32; 6] = [0, 0, 7, u32::MAX, u32::MAX, 9];
    let a = EwahBitmap::from_words(&words);
    let b = a.not().not();
    let c = a.and(&a).unwrap();
    assert_eq!(b.encoded_words(), a.encoded_words());
    assert_eq!(c.encoded_words(), a.encoded_words());
    assert_eq!(b.bit_len(), a.bit_len());
}
