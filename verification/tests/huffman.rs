use enlorge::Error;
use enlorge::huffman::BitList;
use enlorge::huffman::Huffman;

fn check(code: &Huffman, expect: u16, bits: Vec<u8>) {
    let mut s = BitList::from_flags(bits);
    assert_eq!(code.decode(&mut s), Ok(expect));
    assert!(s.is_empty());
}

#[test]
fn example1() {
    let code = Huffman::new(&[2, 1, 3, 3]);
    check(&code, 0, vec![0, 1]);
    check(&code, 1, vec![0]);
    check(&code, 2, vec![0, 1, 1]);
    check(&code, 3, vec![1, 1, 1]);
}

#[test]
fn example2() {
    let code = Huffman::new(&[3, 3, 3, 3, 3, 2, 4, 4]);
    check(&code, 0, vec![0, 1, 0]);
    check(&code, 1, vec![1, 1, 0]);
    check(&code, 2, vec![0, 0, 1]);
    check(&code, 3, vec![1, 0, 1]);
    check(&code, 4, vec![0, 1, 1]);
    check(&code, 5, vec![0, 0]);
    check(&code, 6, vec![0, 1, 1, 1]);
    check(&code, 7, vec![1, 1, 1, 1]);
}

#[test]
fn overlong_code_is_an_error() {
    // The only codeword is 00; a stream of ones never matches and must
    // stop after 15 bits instead of looping.
    let code = Huffman::new(&[2]);
    let mut s = BitList::from_flags(vec![1; 20]);
    assert_eq!(code.decode(&mut s), Err(Error::OverlongCode));
}

#[test]
fn spent_stream_is_truncated() {
    let code = Huffman::new(&[2, 1, 3, 3]);
    let mut s = BitList::from_flags(vec![]);
    assert_eq!(code.decode(&mut s), Err(Error::Truncated));
}
