//! A verified decompressor for DEFLATE streams (RFC 1951) inside the gzip
//! container (RFC 1952): a least-significant-bit-first bit reader, canonical
//! Huffman tables, the three block kinds (stored, fixed, dynamic), LZ77
//! back-reference expansion, and the gzip header fields.

use vstd::prelude::*;

pub mod deflate;
pub mod gzip;
pub mod helper;
pub mod huffman;

verus! {

/// Every way an input stream can be rejected.  No failure is recovered from:
/// one detected corruption aborts the whole decompression.
#[derive(Clone, Copy, Debug, PartialEq, Eq, Structural)]
pub enum Error {
    /// The input ended before a required field, byte or code could be read.
    Truncated,
    /// The gzip stream does not start with the bytes 0x1f 0x8b.
    BadMagic,
    /// The gzip compression method is not 8 (deflate).
    BadMethod,
    /// A reserved bit of the gzip header flags byte is set.
    ReservedFlags,
    /// A block header carries the unused block type 0b11.
    BadBlockType,
    /// A stored block whose LEN field is not the complement of its NLEN field.
    StoredLenMismatch,
    /// A decoded literal/length symbol outside the valid alphabet.
    BadLitLenCode,
    /// A decoded distance symbol outside the valid alphabet.
    BadDistCode,
    /// A dynamic header whose run-length-coded lengths do not land exactly on
    /// the announced total, or a repeat with no length before it.
    BadDynamicTree,
    /// A Huffman code that runs past the maximum length of 15 bits without
    /// naming a symbol.
    OverlongCode,
    /// A back-reference that reaches before the start of the output.
    DistanceTooFar,
}

} // verus!
