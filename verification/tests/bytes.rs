//! Machine code as bytes.
use scry_backend::bytes::{decode_words, encode_words, gen_nop_units};

#[test]
fn words_are_little_endian() {
    assert_eq!(encode_words(&vec![0x1234, 0xff00]), vec![0x34, 0x12, 0x00, 0xff]);
    assert_eq!(decode_words(&vec![0x34, 0x12, 0x00, 0xff]), vec![0x1234, 0xff00]);
    // A lone byte at the end is no word.
    assert_eq!(decode_words(&vec![0x01, 0x02, 0x03]), vec![0x0201]);
    assert_eq!(encode_words(&vec![]), Vec::<u8>::new());
}

#[test]
fn decoded_words_are_the_encoded_ones() {
    let words: Vec<u16> = vec![0, 1, 255, 256, 0x8001, u16::MAX];
    assert_eq!(decode_words(&encode_words(&words)), words);
}

#[test]
fn code_is_padded_with_no_ops() {
    assert_eq!(gen_nop_units(0x0102), vec![vec![0x02, 0x01]]);
}
