//! The gzip container header (RFC 1952): magic number, compression method,
//! flags — any reserved flag bit set is a hard error — modification time,
//! extra flags, operating system, and the optional extra, file-name and
//! comment fields.  `spec_read_header` says byte for byte what is parsed
//! and exactly which error rejects a stream; the DEFLATE payload follows
//! at the returned offset.

use vstd::prelude::*;

use crate::Error;
use crate::helper::first_nul;
use crate::helper::lemma_first_nul;
use crate::helper::strlen;

verus! {

/// The operating system named in a gzip header; any code outside the
/// fourteen assigned ones reads as `Unknown`.
#[derive(Clone, Copy, Debug, PartialEq, Eq, Structural)]
#[allow(non_camel_case_types)]
pub enum OS {
    FAT,
    Amiga,
    VMS,
    Unix,
    VM_CMS,
    AtariTOS,
    HPFS,
    Macintosh,
    ZSystem,
    CPM,
    TOPS20,
    NTFS,
    QDOS,
    RISCOS,
    Unknown,
}

/// The operating system a gzip OS byte names.
pub open spec fn spec_os(b: u8) -> OS {
    if b == 0 {
        OS::FAT
    } else if b == 1 {
        OS::Amiga
    } else if b == 2 {
        OS::VMS
    } else if b == 3 {
        OS::Unix
    } else if b == 4 {
        OS::VM_CMS
    } else if b == 5 {
        OS::AtariTOS
    } else if b == 6 {
        OS::HPFS
    } else if b == 7 {
        OS::Macintosh
    } else if b == 8 {
        OS::ZSystem
    } else if b == 9 {
        OS::CPM
    } else if b == 10 {
        OS::TOPS20
    } else if b == 11 {
        OS::NTFS
    } else if b == 12 {
        OS::QDOS
    } else if b == 13 {
        OS::RISCOS
    } else {
        OS::Unknown
    }
}

/// A two-byte little-endian field.
pub open spec fn le16(s: Seq<u8>, i: int) -> nat {
    s[i] as nat + 256 * (s[i + 1] as nat)
}

/// A four-byte little-endian field.
pub open spec fn le32(s: Seq<u8>, i: int) -> nat {
    s[i] as nat + 256 * (s[i + 1] as nat) + 65536 * (s[i + 2] as nat) + 16777216 * (s[i
        + 3] as nat)
}

/// The parsed header, with byte strings as mathematical sequences.
pub struct HeaderModel {
    pub flags: u8,
    pub mtime: u32,
    pub extra_flags: u8,
    pub os: OS,
    pub extra: Option<Seq<u8>>,
    pub filename: Option<Seq<u8>>,
    pub comment: Option<Seq<u8>>,
}

/// The optional extra field, from byte 10: its bytes and the offset of
/// what follows.
pub open spec fn spec_extra(s: Seq<u8>, flags: u8) -> Result<(Option<Seq<u8>>, int), Error> {
    if flags & 0x04 == 0 {
        Ok((None, 10))
    } else if s.len() < 12 {
        Err(Error::Truncated)
    } else if s.len() < 12 + le16(s, 10) {
        Err(Error::Truncated)
    } else {
        Ok((Some(s.subrange(12, 12 + le16(s, 10) as int)), 12 + le16(s, 10) as int))
    }
}

/// A null-terminated byte string starting at `off`: its bytes without the
/// terminator, and the offset past the terminator.
pub open spec fn spec_cstr(s: Seq<u8>, off: int) -> Result<(Seq<u8>, int), Error> {
    match first_nul(s.skip(off)) {
        None => Err(Error::Truncated),
        Some(i) => Ok((s.subrange(off, off + i), off + i + 1)),
    }
}

/// An optional null-terminated field, present when `bit` is set in the
/// flags.
pub open spec fn spec_opt_cstr(s: Seq<u8>, flags: u8, bit: u8, off: int) -> Result<
    (Option<Seq<u8>>, int),
    Error,
> {
    if flags & bit == 0 {
        Ok((None, off))
    } else {
        match spec_cstr(s, off) {
            Err(e) => Err(e),
            Ok(cu) => Ok((Some(cu.0), cu.1)),
        }
    }
}

/// What `read_header` parses from the front of a gzip stream, field by
/// field, and exactly which error rejects it: a reserved flag bit is a
/// hard error, never silently masked.
pub open spec fn spec_read_header(s: Seq<u8>) -> Result<(HeaderModel, int), Error> {
    if s.len() < 2 {
        Err(Error::Truncated)
    } else if !(s[0] == 0x1f && s[1] == 0x8b) {
        Err(Error::BadMagic)
    } else if s.len() < 3 {
        Err(Error::Truncated)
    } else if s[2] != 8 {
        Err(Error::BadMethod)
    } else if s.len() < 4 {
        Err(Error::Truncated)
    } else if s[3] & 0xE0 != 0 {
        Err(Error::ReservedFlags)
    } else if s.len() < 10 {
        Err(Error::Truncated)
    } else {
        let flags = s[3];
        match spec_extra(s, flags) {
            Err(e) => Err(e),
            Ok(eu) => match spec_opt_cstr(s, flags, 0x08, eu.1) {
                Err(e) => Err(e),
                Ok(nu) => match spec_opt_cstr(s, flags, 0x10, nu.1) {
                    Err(e) => Err(e),
                    Ok(cu) => {
                        let off = cu.1;
                        if flags & 0x02 != 0 && s.len() < off + 2 {
                            Err(Error::Truncated)
                        } else {
                            let end = if flags & 0x02 != 0 {
                                off + 2
                            } else {
                                off
                            };
                            Ok(
                                (
                                    HeaderModel {
                                        flags,
                                        mtime: le32(s, 4) as u32,
                                        extra_flags: s[8],
                                        os: spec_os(s[9]),
                                        extra: eu.0,
                                        filename: nu.0,
                                        comment: cu.0,
                                    },
                                    end,
                                ),
                            )
                        }
                    },
                },
            },
        }
    }
}

/// A parsed gzip header.  The reserved bits of `flags` are always clear;
/// the byte strings carry no terminator.
pub struct GzipHeader {
    pub flags: u8,
    pub mtime: u32,
    pub extra_flags: u8,
    pub os: OS,
    pub extra: Option<Vec<u8>>,
    pub filename: Option<Vec<u8>>,
    pub comment: Option<Vec<u8>>,
}

impl View for GzipHeader {
    type V = HeaderModel;

    open spec fn view(&self) -> HeaderModel {
        HeaderModel {
            flags: self.flags,
            mtime: self.mtime,
            extra_flags: self.extra_flags,
            os: self.os,
            extra: match self.extra {
                None => None,
                Some(v) => Some(v@),
            },
            filename: match self.filename {
                None => None,
                Some(v) => Some(v@),
            },
            comment: match self.comment {
                None => None,
                Some(v) => Some(v@),
            },
        }
    }
}

/// Reads a null-terminated field starting at `off`, handing back its bytes
/// and the offset past the terminator.
fn read_cstr(data: &[u8], off: usize) -> (r: Result<(Vec<u8>, usize), Error>)
    requires
        off <= data@.len(),
    ensures
        match spec_cstr(data@, off as int) {
            Ok(cu) => r matches Ok(p) && p.0@ == cu.0 && p.1 == cu.1 && p.1 <= data@.len(),
            Err(e) => r matches Err(e2) && e2 == e,
        },
{
    let tail = vstd::slice::slice_subrange(data, off, data.len());
    match strlen(tail) {
        None => Err(Error::Truncated),
        Some(i) => {
            proof {
                lemma_first_nul(data@.skip(off as int));
            }
            let v = vstd::slice::slice_to_vec(vstd::slice::slice_subrange(data, off, off + i));
            proof {
                assert(data@.subrange(off as int, off + i) =~= data@.skip(off as int).take(
                    i as int,
                ));
                assert(v@ =~= data@.subrange(off as int, off + i));
            }
            Ok((v, off + i + 1))
        },
    }
}

/// Parses the gzip header at the front of `data`, returning it with the
/// offset at which the DEFLATE payload starts.
pub fn read_header(data: &[u8]) -> (r: Result<(GzipHeader, usize), Error>)
    ensures
        match spec_read_header(data@) {
            Ok(hu) => r matches Ok(p) && p.0@ == hu.0 && p.1 == hu.1,
            Err(e) => r matches Err(e2) && e2 == e,
        },
{
    if data.len() < 2 {
        return Err(Error::Truncated);
    }
    if !(data[0] == 0x1f && data[1] == 0x8b) {
        return Err(Error::BadMagic);
    }
    if data.len() < 3 {
        return Err(Error::Truncated);
    }
    if data[2] != 8 {
        return Err(Error::BadMethod);
    }
    if data.len() < 4 {
        return Err(Error::Truncated);
    }
    let flags = data[3];
    if flags & 0xE0 != 0 {
        return Err(Error::ReservedFlags);
    }
    if data.len() < 10 {
        return Err(Error::Truncated);
    }
    let mtime = (data[4] as u32) | ((data[5] as u32) << 8u32) | ((data[6] as u32) << 16u32) | ((
    data[7] as u32) << 24u32);
    proof {
        let b4 = data@[4];
        let b5 = data@[5];
        let b6 = data@[6];
        let b7 = data@[7];
        assert((b4 as u32) | ((b5 as u32) << 8u32) | ((b6 as u32) << 16u32) | ((b7 as u32)
            << 24u32) == (b4 as u32) + 256 * (b5 as u32) + 65536 * (b6 as u32) + 16777216 * (
        b7 as u32)) by (bit_vector);
    }
    let extra_flags = data[8];
    let os_byte = data[9];
    let os = match os_byte {
        0 => OS::FAT,
        1 => OS::Amiga,
        2 => OS::VMS,
        3 => OS::Unix,
        4 => OS::VM_CMS,
        5 => OS::AtariTOS,
        6 => OS::HPFS,
        7 => OS::Macintosh,
        8 => OS::ZSystem,
        9 => OS::CPM,
        10 => OS::TOPS20,
        11 => OS::NTFS,
        12 => OS::QDOS,
        13 => OS::RISCOS,
        _ => OS::Unknown,
    };
    let mut off: usize = 10;
    let extra: Option<Vec<u8>> = if flags & 0x04 != 0 {
        if data.len() < 12 {
            return Err(Error::Truncated);
        }
        let xlen = (data[10] as usize) + 256 * (data[11] as usize);
        if data.len() - 12 < xlen {
            return Err(Error::Truncated);
        }
        let v = vstd::slice::slice_to_vec(vstd::slice::slice_subrange(data, 12, 12 + xlen));
        off = 12 + xlen;
        Some(v)
    } else {
        None
    };
    let filename: Option<Vec<u8>> = if flags & 0x08 != 0 {
        match read_cstr(data, off) {
            Err(e) => {
                return Err(e);
            },
            Ok(p) => {
                off = p.1;
                Some(p.0)
            },
        }
    } else {
        None
    };
    let comment: Option<Vec<u8>> = if flags & 0x10 != 0 {
        match read_cstr(data, off) {
            Err(e) => {
                return Err(e);
            },
            Ok(p) => {
                off = p.1;
                Some(p.0)
            },
        }
    } else {
        None
    };
    if flags & 0x02 != 0 {
        if data.len() < 2 || data.len() - 2 < off {
            return Err(Error::Truncated);
        }
        off = off + 2;
    }
    let h = GzipHeader { flags, mtime, extra_flags, os, extra, filename, comment };
    Ok((h, off))
}

} // verus!
