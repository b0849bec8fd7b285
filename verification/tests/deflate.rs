use enlorge::Error;
use enlorge::deflate::BlockContext;
use enlorge::deflate::decompress;
use enlorge::helper::BitReader;

#[test]
fn stored_block_roundtrip() {
    // BFINAL=1, BTYPE=00, LEN=5, NLEN=!5, five arbitrary bytes.
    let data = [0x01, 0x05, 0x00, 0xFA, 0xFF, 9, 8, 7, 6, 5];
    assert_eq!(decompress(&data), Ok(vec![9, 8, 7, 6, 5]));
}

#[test]
fn stored_block_len_mismatch() {
    let data = [0x01, 0x05, 0x00, 0x00, 0x00, 9, 8, 7, 6, 5];
    assert_eq!(decompress(&data), Err(Error::StoredLenMismatch));
}

#[test]
fn fixed_block_hi() {
    // "Hi" under the fixed table: 'H' is code 120, 'i' is code 153, then
    // the end-of-block symbol.
    let data = [0xF3, 0xC8, 0x04, 0x00];
    assert_eq!(decompress(&data), Ok(vec![b'H', b'i']));
}

#[test]
fn overlapping_backref_stream() {
    // One literal 'A', then length 6 at distance 1: six more copies.
    let data = [0x73, 0x84, 0x00, 0x00];
    assert_eq!(decompress(&data), Ok(vec![0x41; 7]));
}

#[test]
fn overlapping_backref_block() {
    // The block decoder alone: output already holds one 0x41; the body is
    // the length-6 symbol, distance code 0, end of block.
    let body = [0x10, 0x00, 0x00];
    let mut input = BitReader::new(&body);
    let mut output = vec![0x41u8];
    let fixed = BlockContext::fixed();
    assert_eq!(fixed.decompress(&mut input, &mut output), Ok(()));
    assert_eq!(output, vec![0x41; 7]);
}

#[test]
fn backref_before_start_fails() {
    // A length code with no output yet: distance 1 reaches before the
    // start and must fail cleanly.
    let data = [0x03, 0x02];
    assert_eq!(decompress(&data), Err(Error::DistanceTooFar));
}

#[test]
fn bad_distance_code() {
    // Distance code 30 is outside the alphabet.
    let data = [0x03, 0x3E];
    assert_eq!(decompress(&data), Err(Error::BadDistCode));
}

#[test]
fn bad_literal_length_code() {
    // Symbol 286 has a fixed-table codeword but is not a valid code.
    let data = [0x1B, 0x03];
    assert_eq!(decompress(&data), Err(Error::BadLitLenCode));
}

#[test]
fn unknown_block_type() {
    let data = [0x07];
    assert_eq!(decompress(&data), Err(Error::BadBlockType));
}

#[test]
fn truncated_input() {
    assert_eq!(decompress(&[]), Err(Error::Truncated));
}

#[test]
fn dynamic_block_repeat_zero_after_length() {
    // A dynamic header whose code-length list is: length 1, then symbol 18
    // twice (138 + 117 zeros), then two more 1s — the repeat-zero runs
    // right after a nonzero length must leave every later position intact.
    let data = [0x05, 0xC0, 0x81, 0x00, 0x00, 0x00, 0x00, 0x00, 0x10, 0xFF, 0xD5, 0x10];
    assert_eq!(decompress(&data), Ok(vec![0x00, 0x00]));
}

#[test]
fn dynamic_block_repeat_without_previous() {
    // The first run-length symbol is 16 (copy the previous length) with
    // nothing before it.
    let data = [0x05, 0x00, 0x02, 0x24];
    assert_eq!(decompress(&data), Err(Error::BadDynamicTree));
}
