//! The bytes of machine code: two per instruction, the less significant first.
use byteorder::ByteOrder;
use vstd::prelude::*;

verus! {

/// The word of two bytes.
pub open spec fn word_of(low: u8, high: u8) -> u16 {
    (low + 256 * high) as u16
}

/// `LittleEndian::read_u16` reads the word whose less significant byte comes
/// first.
#[verifier::external_body]
fn read_u16(buffer: &Vec<u8>, at: usize) -> (r: u16)
    requires
        at + 2 <= buffer@.len(),
    ensures
        r == word_of(buffer@[at as int], buffer@[at + 1]),
{
    byteorder::LittleEndian::read_u16(&buffer[at..])
}

/// `LittleEndian::write_u16` writes a word, the less significant byte first; here,
/// the two bytes.
#[verifier::external_body]
fn write_u16(word: u16) -> (r: (u8, u8))
    ensures
        r.0 as int == word as int % 256,
        r.1 as int == word as int / 256,
{
    let mut bytes = [0u8; 2];
    byteorder::LittleEndian::write_u16(&mut bytes, word);
    (bytes[0], bytes[1])
}

/// The bytes of a list of words.
pub open spec fn bytes_of(words: Seq<u16>) -> Seq<u8> {
    Seq::new(
        2 * words.len(),
        |i: int|
            if i % 2 == 0 {
                (words[i / 2] as int % 256) as u8
            } else {
                (words[i / 2] as int / 256) as u8
            },
    )
}

/// The words of a list of bytes.
pub open spec fn words_of(bytes: Seq<u8>) -> Seq<u16> {
    Seq::new(bytes.len() / 2, |i: int| word_of(bytes[2 * i], bytes[2 * i + 1]))
}

/// The bytes of a list of words.
pub fn encode_words(words: &Vec<u16>) -> (r: Vec<u8>)
    ensures
        r@ == bytes_of(words@),
{
    let mut r: Vec<u8> = Vec::new();
    for i in 0..words.len()
        invariant
            r@.len() == 2 * i,
            r@ == bytes_of(words@).take(2 * i as int),
    {
        let (low, high) = write_u16(words[i]);
        r.push(low);
        r.push(high);
        assert((2 * i as int) / 2 == i && (2 * i as int + 1) / 2 == i);
        assert(r@ =~= bytes_of(words@).take(2 * (i as int + 1)));
    }
    assert(r@ =~= bytes_of(words@));
    r
}

/// The words of a list of bytes.
pub fn decode_words(bytes: &Vec<u8>) -> (r: Vec<u16>)
    ensures
        r@ == words_of(bytes@),
{
    let mut r: Vec<u16> = Vec::new();
    let total: usize = bytes.len();
    let n: usize = total / 2;
    for i in 0..n
        invariant
            total == bytes@.len(),
            n == total / 2,
            r@ == words_of(bytes@).take(i as int),
    {
        r.push(read_u16(bytes, 2 * i));
        assert(r@ =~= words_of(bytes@).take(i as int + 1));
    }
    assert(r@ =~= words_of(bytes@));
    r
}

/// The words read from the bytes of a list of words are those words.
pub proof fn decoding_undoes_encoding(words: Seq<u16>)
    ensures
        words_of(bytes_of(words)) == words,
{
    let bytes = bytes_of(words);
    assert forall|i: int| 0 <= i < words.len() implies words_of(bytes)[i] == words[i] by {
        assert((2 * i) / 2 == i && (2 * i + 1) / 2 == i);
        let w = words[i] as int;
        assert(bytes[2 * i] == (w % 256) as u8);
        assert(bytes[2 * i + 1] == (w / 256) as u8);
        assert(0 <= w / 256 < 256);
        assert(w == w % 256 + 256 * (w / 256));
    }
    assert(words_of(bytes) =~= words);
}

/// The bytes that pad code, as a list of units: one no-op, whose word is given.
pub fn gen_nop_units(nop: u16) -> (r: Vec<Vec<u8>>)
    ensures
        r@.len() == 1,
        r@[0]@ == bytes_of(seq![nop]),
{
    let words: Vec<u16> = vec![nop];
    assert(words@ =~= seq![nop]);
    let bytes = encode_words(&words);
    let mut r: Vec<Vec<u8>> = Vec::new();
    r.push(bytes);
    r
}

} // verus!
