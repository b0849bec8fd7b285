use enlorge::Error;
use enlorge::helper::BitReader;
use enlorge::helper::strlen;

#[test]
fn chunked_reads_concatenate() {
    // Reading 4+4+8 bits returns the same bits as reading 16 at once.
    let data: [u8; 2] = [0xA5, 0x3C];
    let mut r = BitReader::new(&data);
    let a = r.get_bits(4).unwrap();
    let b = r.get_bits(4).unwrap();
    let c = r.get_bits(8).unwrap();
    let mut whole = BitReader::new(&data);
    let w = whole.get_bits(16).unwrap();
    assert_eq!(a, 0x5);
    assert_eq!(b, 0xA);
    assert_eq!(c, 0x3C);
    assert_eq!(w, a | (b << 4) | (c << 8));
    assert_eq!(w, 0x3CA5);
}

#[test]
fn single_bits_come_least_significant_first() {
    let data: [u8; 1] = [0b0000_0110];
    let mut r = BitReader::new(&data);
    assert_eq!(r.get_bit(), Ok(false));
    assert_eq!(r.get_bit(), Ok(true));
    assert_eq!(r.get_bit(), Ok(true));
    assert_eq!(r.get_bit(), Ok(false));
}

#[test]
fn reading_past_the_end_is_truncated() {
    let data: [u8; 1] = [0xFF];
    let mut r = BitReader::new(&data);
    assert_eq!(r.get_bits(8), Ok(0xFF));
    assert_eq!(r.get_bits(1), Err(Error::Truncated));
}

#[test]
fn align_discards_the_fractional_bits() {
    let data: [u8; 2] = [0b0000_0001, 0xAB];
    let mut r = BitReader::new(&data);
    assert_eq!(r.get_bits(3), Ok(1));
    r.drop_align();
    assert_eq!(r.get_bits(8), Ok(0xAB));
}

#[test]
fn strlen_finds_the_first_nul() {
    assert_eq!(strlen(&[b'a', b'b', 0, b'c']), Some(2));
    assert_eq!(strlen(&[0]), Some(0));
    assert_eq!(strlen(&[1, 2, 3]), None);
    assert_eq!(strlen(&[]), None);
}
