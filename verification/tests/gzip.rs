use enlorge::Error;
use enlorge::deflate::decompress;
use enlorge::gzip::OS;
use enlorge::gzip::read_header;

#[test]
fn reserved_flag_bit_rejected() {
    // Flags byte 0x20 sets a reserved bit: a hard error, never masked.
    let data = [0x1F, 0x8B, 8, 0x20, 0, 0, 0, 0, 0, 3];
    assert_eq!(read_header(&data).err(), Some(Error::ReservedFlags));
}

#[test]
fn minimal_header() {
    let data = [0x1F, 0x8B, 8, 0, 0x78, 0x56, 0x34, 0x12, 0x02, 3];
    let (h, used) = read_header(&data).unwrap();
    assert_eq!(used, 10);
    assert_eq!(h.flags, 0);
    assert_eq!(h.mtime, 0x12345678);
    assert_eq!(h.extra_flags, 0x02);
    assert_eq!(h.os, OS::Unix);
    assert!(h.extra.is_none());
    assert!(h.filename.is_none());
    assert!(h.comment.is_none());
}

#[test]
fn header_with_filename_and_comment() {
    let mut data = vec![0x1F, 0x8B, 8, 0x18, 0, 0, 0, 0, 0, 255];
    data.extend_from_slice(b"file.txt\0");
    data.extend_from_slice(b"a note\0");
    let (h, used) = read_header(&data).unwrap();
    assert_eq!(used, data.len());
    assert_eq!(h.os, OS::Unknown);
    assert_eq!(h.filename.as_deref(), Some(b"file.txt".as_slice()));
    assert_eq!(h.comment.as_deref(), Some(b"a note".as_slice()));
}

#[test]
fn header_with_extra_field() {
    let data = [0x1F, 0x8B, 8, 0x04, 0, 0, 0, 0, 0, 0, 3, 0, 0xAA, 0xBB, 0xCC];
    let (h, used) = read_header(&data).unwrap();
    assert_eq!(used, 15);
    assert_eq!(h.extra.as_deref(), Some([0xAA, 0xBB, 0xCC].as_slice()));
}

#[test]
fn bad_magic_number() {
    let data = [0x1F, 0x8C, 8, 0, 0, 0, 0, 0, 0, 3];
    assert_eq!(read_header(&data).err(), Some(Error::BadMagic));
}

#[test]
fn bad_compression_method() {
    let data = [0x1F, 0x8B, 7, 0, 0, 0, 0, 0, 0, 3];
    assert_eq!(read_header(&data).err(), Some(Error::BadMethod));
}

#[test]
fn truncated_header() {
    assert_eq!(read_header(&[0x1F]).err(), Some(Error::Truncated));
}

#[test]
fn whole_stream_through_header_and_payload() {
    // A gzip wrapper around the fixed-table encoding of "Hi"; the eight
    // trailer bytes after the final block are the container's, not the
    // decoder's.
    let mut data = vec![0x1F, 0x8B, 8, 0, 0, 0, 0, 0, 0, 3];
    data.extend_from_slice(&[0xF3, 0xC8, 0x04, 0x00]);
    data.extend_from_slice(&[0; 8]);
    let (_, used) = read_header(&data).unwrap();
    assert_eq!(used, 10);
    assert_eq!(decompress(&data[used..]), Ok(vec![b'H', b'i']));
}
