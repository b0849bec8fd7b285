//! The DEFLATE stream decoder: block headers, stored blocks, the fixed and
//! dynamic Huffman tables, length/distance mapping and LZ77 back-reference
//! expansion.
//!
//! The whole format is written down as spec functions over the stream of
//! bits — `spec_inflate` is the reference decoder — and every executable
//! function is proved to return exactly what its spec mirror says, error
//! for error.

use vstd::prelude::*;

use crate::Error;
use crate::helper::BitReader;
use crate::helper::bits_of;
use crate::helper::bits_value;
use crate::helper::bytes_from_bits;
use crate::helper::exp2;
use crate::helper::lemma_bits_value_bound;
use crate::helper::lemma_exp2_vals;
use crate::helper::lemma_shift_is_exp2;
use crate::huffman::Huffman;
use crate::huffman::spec_decode;

verus! {

/// Code lengths of the fixed literal/length table: 8 bits for symbols
/// 0–143, 9 for 144–255, 7 for 256–279 and 8 for 280–287.
pub open spec fn fixed_lit_lengths() -> Seq<u8> {
    Seq::new(
        288,
        |i: int|
            if i < 144 {
                8u8
            } else if i < 256 {
                9u8
            } else if i < 280 {
                7u8
            } else {
                8u8
            },
    )
}

/// Code lengths of the fixed distance table: five bits for each of the 32
/// distance codes.
pub open spec fn fixed_dist_lengths() -> Seq<u8> {
    Seq::new(32, |i: int| 5u8)
}

/// The order in which the dynamic header lists code lengths for the
/// 19-symbol code-length alphabet.
pub open spec fn cl_order() -> Seq<u8> {
    seq![16u8, 17u8, 18u8, 0u8, 8u8, 7u8, 9u8, 6u8, 10u8, 5u8, 11u8, 4u8, 12u8, 3u8, 13u8, 2u8, 14u8, 1u8, 15u8]
}

/// The match length a literal/length symbol (257–285) stands for, reading
/// its extra bits from the front of `bits`: the length and the number of
/// extra bits consumed.
pub open spec fn spec_length(sym: int, bits: Seq<bool>) -> Result<(int, int), Error> {
    let c = sym - 257;
    if c < 8 {
        Ok((c + 3, 0))
    } else if c == 28 {
        Ok((258, 0))
    } else {
        let eb = c / 4 - 1;
        if bits.len() < eb {
            Err(Error::Truncated)
        } else {
            Ok((((c % 4 + 4) * exp2(eb as nat) + bits_value(bits.take(eb)) + 3) as int, eb))
        }
    }
}

/// The back-reference distance spelled by the next bits: one symbol of the
/// distance table, then its extra bits; the distance and the total bits
/// consumed.
pub open spec fn spec_dist(dlens: Seq<u8>, bits: Seq<bool>) -> Result<(int, int), Error> {
    match spec_decode(dlens, bits) {
        Err(e) => Err(e),
        Ok(ck) => {
            let c = ck.0 as int;
            let k = ck.1;
            if c < 4 {
                Ok((c + 1, k))
            } else if c >= 30 {
                Err(Error::BadDistCode)
            } else {
                let eb = c / 2 - 1;
                if bits.skip(k).len() < eb {
                    Err(Error::Truncated)
                } else {
                    Ok(
                        (
                            ((c % 2 + 2) * exp2(eb as nat) + bits_value(bits.skip(k).take(eb))
                                + 1) as int,
                            k + eb,
                        ),
                    )
                }
            }
        },
    }
}

/// LZ77 expansion: `len` bytes appended one at a time, each copied from
/// `dist` bytes before the end of the output — an overlapping copy reads
/// bytes it has itself just written.
pub open spec fn lz77_extend(out: Seq<u8>, dist: int, len: int) -> Seq<u8>
    decreases len,
{
    if len <= 0 {
        out
    } else {
        lz77_extend(out.push(out[out.len() - dist]), dist, len - 1)
    }
}

/// One Huffman-coded block body: literals are appended, back-references
/// expanded, until the end-of-block symbol 256; the final output and the
/// bits consumed, or the exact error.
pub open spec fn spec_block(
    lit: Seq<u8>,
    dlens: Seq<u8>,
    bits: Seq<bool>,
    out: Seq<u8>,
) -> Result<(Seq<u8>, int), Error>
    decreases bits.len(),
{
    match spec_decode(lit, bits) {
        Err(e) => Err(e),
        Ok(sk) => {
            let sym = sk.0 as int;
            let k = sk.1;
            if !(1 <= k <= bits.len()) {
                Err(Error::Truncated)
            } else if sym < 256 {
                match spec_block(lit, dlens, bits.skip(k), out.push(sym as u8)) {
                    Err(e) => Err(e),
                    Ok(ou) => Ok((ou.0, k + ou.1)),
                }
            } else if sym == 256 {
                Ok((out, k))
            } else if sym <= 285 {
                match spec_length(sym, bits.skip(k)) {
                    Err(e) => Err(e),
                    Ok(lu) => match spec_dist(dlens, bits.skip(k + lu.1)) {
                        Err(e) => Err(e),
                        Ok(du) => {
                            if du.0 > out.len() {
                                Err(Error::DistanceTooFar)
                            } else if !(0 <= lu.1 && 1 <= du.1 && k + lu.1 + du.1 <= bits.len()) {
                                Err(Error::Truncated)
                            } else {
                                match spec_block(
                                    lit,
                                    dlens,
                                    bits.skip(k + lu.1 + du.1),
                                    lz77_extend(out, du.0, lu.0),
                                ) {
                                    Err(e) => Err(e),
                                    Ok(ou) => Ok((ou.0, k + lu.1 + du.1 + ou.1)),
                                }
                            }
                        },
                    },
                }
            } else {
                Err(Error::BadLitLenCode)
            }
        },
    }
}

/// `n` copies of one code length.
pub open spec fn repeat_len(v: u8, n: int) -> Seq<u8> {
    Seq::new(n as nat, |i: int| v)
}

/// The 19 code-length-alphabet lengths after the first `j` three-bit
/// fields of the dynamic header, assigned in `cl_order`.
pub open spec fn spec_cl_lengths(bits: Seq<bool>, j: int) -> Seq<u8>
    decreases j,
{
    if j <= 0 {
        Seq::new(19, |i: int| 0u8)
    } else {
        spec_cl_lengths(bits, j - 1).update(
            cl_order()[j - 1] as int,
            bits_value(bits.subrange(3 * (j - 1), 3 * j)) as u8,
        )
    }
}

/// The run-length-coded list of code lengths: literal lengths below 16,
/// 16 repeats the previous length 3–6 times, 17 writes 3–10 zeros, 18
/// writes 11–138 zeros; landing past the exact target, or a repeat with
/// nothing before it, is an error.
pub open spec fn spec_rle(
    cl: Seq<u8>,
    bits: Seq<bool>,
    target: int,
    acc: Seq<u8>,
) -> Result<(Seq<u8>, int), Error>
    decreases bits.len(),
{
    if acc.len() >= target {
        if acc.len() == target {
            Ok((acc, 0))
        } else {
            Err(Error::BadDynamicTree)
        }
    } else {
        match spec_decode(cl, bits) {
            Err(e) => Err(e),
            Ok(sk) => {
                let sym = sk.0 as int;
                let k = sk.1;
                if !(1 <= k <= bits.len()) {
                    Err(Error::Truncated)
                } else if sym < 16 {
                    match spec_rle(cl, bits.skip(k), target, acc.push(sym as u8)) {
                        Err(e) => Err(e),
                        Ok(ru) => Ok((ru.0, k + ru.1)),
                    }
                } else if sym == 16 {
                    if acc.len() == 0 {
                        Err(Error::BadDynamicTree)
                    } else if bits.skip(k).len() < 2 {
                        Err(Error::Truncated)
                    } else {
                        let rep = 3 + bits_value(bits.skip(k).take(2));
                        match spec_rle(
                            cl,
                            bits.skip(k + 2),
                            target,
                            acc + repeat_len(acc.last(), rep as int),
                        ) {
                            Err(e) => Err(e),
                            Ok(ru) => Ok((ru.0, k + 2 + ru.1)),
                        }
                    }
                } else if sym == 17 {
                    if bits.skip(k).len() < 3 {
                        Err(Error::Truncated)
                    } else {
                        let rep = 3 + bits_value(bits.skip(k).take(3));
                        match spec_rle(cl, bits.skip(k + 3), target, acc + repeat_len(0, rep as int)) {
                            Err(e) => Err(e),
                            Ok(ru) => Ok((ru.0, k + 3 + ru.1)),
                        }
                    }
                } else {
                    if bits.skip(k).len() < 7 {
                        Err(Error::Truncated)
                    } else {
                        let rep = 11 + bits_value(bits.skip(k).take(7));
                        match spec_rle(cl, bits.skip(k + 7), target, acc + repeat_len(0, rep as int)) {
                            Err(e) => Err(e),
                            Ok(ru) => Ok((ru.0, k + 7 + ru.1)),
                        }
                    }
                }
            },
        }
    }
}

/// The dynamic block header: HLIT, HDIST, HCLEN, the code-length table,
/// and the run-length-coded lengths, split into the literal/length and
/// distance arrays; with the bits the whole header consumed.
pub open spec fn spec_dynamic(bits: Seq<bool>) -> Result<((Seq<u8>, Seq<u8>), int), Error> {
    if bits.len() < 14 {
        Err(Error::Truncated)
    } else {
        let hlit = bits_value(bits.take(5)) + 257;
        let hdist = bits_value(bits.subrange(5, 10)) + 1;
        let hclen = bits_value(bits.subrange(10, 14)) + 4;
        if bits.len() < 14 + 3 * hclen {
            Err(Error::Truncated)
        } else {
            let cl = spec_cl_lengths(bits.skip(14), hclen as int);
            match spec_rle(
                cl,
                bits.skip(14 + 3 * hclen as int),
                (hlit + hdist) as int,
                Seq::empty(),
            ) {
                Err(e) => Err(e),
                Ok(ru) => Ok(
                    (
                        (ru.0.take(hlit as int), ru.0.skip(hlit as int)),
                        14 + 3 * (hclen as int) + ru.1,
                    ),
                ),
            }
        }
    }
}

/// A stored block, taken after the three header bits: align to the byte
/// boundary, check LEN against its complement NLEN, and copy LEN bytes.
pub open spec fn spec_stored(bits: Seq<bool>, out: Seq<u8>) -> Result<(Seq<u8>, int), Error> {
    let a = bits.len() as int % 8;
    if bits.len() < a + 32 {
        Err(Error::Truncated)
    } else {
        let lenv = bits_value(bits.subrange(a, a + 16));
        let nlenv = bits_value(bits.subrange(a + 16, a + 32));
        if lenv + nlenv != 0xFFFF {
            Err(Error::StoredLenMismatch)
        } else if bits.len() < a + 32 + 8 * lenv {
            Err(Error::Truncated)
        } else {
            Ok(
                (
                    out + bytes_from_bits(bits.subrange(a + 32, a + 32 + 8 * lenv)),
                    a + 32 + 8 * lenv,
                ),
            )
        }
    }
}

/// The block loop: read BFINAL and BTYPE, run one block of the announced
/// kind, and stop after the final block.
pub open spec fn spec_blocks(bits: Seq<bool>, out: Seq<u8>) -> Result<Seq<u8>, Error>
    decreases bits.len(),
{
    if bits.len() < 3 {
        Err(Error::Truncated)
    } else {
        let bfinal = bits[0];
        let b1 = bits[1];
        let b2 = bits[2];
        let body = bits.skip(3);
        let step: Result<(Seq<u8>, int), Error> = if !b1 && !b2 {
            spec_stored(body, out)
        } else if b1 && !b2 {
            spec_block(fixed_lit_lengths(), fixed_dist_lengths(), body, out)
        } else if !b1 && b2 {
            match spec_dynamic(body) {
                Err(e) => Err(e),
                Ok(tu) => match spec_block(tu.0.0, tu.0.1, body.skip(tu.1), out) {
                    Err(e) => Err(e),
                    Ok(ou) => Ok((ou.0, tu.1 + ou.1)),
                },
            }
        } else {
            Err(Error::BadBlockType)
        };
        match step {
            Err(e) => Err(e),
            Ok(ou) => {
                if bfinal {
                    Ok(ou.0)
                } else if !(0 <= ou.1 <= body.len()) {
                    Err(Error::Truncated)
                } else {
                    spec_blocks(body.skip(ou.1), ou.0)
                }
            },
        }
    }
}

/// What a DEFLATE stream decompresses to, bit for bit — or exactly which
/// error rejects it.
pub open spec fn spec_inflate(bits: Seq<bool>) -> Result<Seq<u8>, Error> {
    spec_blocks(bits, Seq::empty())
}

/// The `cl_order` permutation as a vector.
fn cl_order_vec() -> (r: Vec<u8>)
    ensures
        r@ == cl_order(),
        forall|q: int| 0 <= q < r@.len() ==> r@[q] < 19,
{
    let mut v: Vec<u8> = Vec::new();
    v.push(16);
    v.push(17);
    v.push(18);
    v.push(0);
    v.push(8);
    v.push(7);
    v.push(9);
    v.push(6);
    v.push(10);
    v.push(5);
    v.push(11);
    v.push(4);
    v.push(12);
    v.push(3);
    v.push(13);
    v.push(2);
    v.push(14);
    v.push(1);
    v.push(15);
    proof {
        assert(v@ =~= cl_order());
        assert forall|q: int| 0 <= q < v@.len() implies v@[q] < 19 by {
            assert(v@[q] == cl_order()[q]);
        }
    }
    v
}

/// The pair of tables a Huffman-coded block decodes with.
pub struct BlockContext {
    main: Huffman,
    dist: Huffman,
}

impl BlockContext {
    pub closed spec fn wf(self) -> bool {
        self.main.wf() && self.dist.wf()
    }

    /// The code lengths behind the literal/length table.
    pub closed spec fn lit_lengths(self) -> Seq<u8> {
        self.main.code_lengths()
    }

    /// The code lengths behind the distance table.
    pub closed spec fn dist_lengths(self) -> Seq<u8> {
        self.dist.code_lengths()
    }

    /// The fixed tables used by BTYPE 01 blocks.
    pub fn fixed() -> (r: Self)
        ensures
            r.wf(),
            r.lit_lengths() == fixed_lit_lengths(),
            r.dist_lengths() == fixed_dist_lengths(),
    {
        let mut lengths: Vec<u8> = Vec::new();
        let mut i: usize = 0;
        while i < 288
            invariant
                i <= 288,
                lengths@.len() == i,
                forall|q: int| 0 <= q < i ==> lengths@[q] == fixed_lit_lengths()[q],
            decreases 288 - i,
        {
            let v: u8 = if i < 144 {
                8
            } else if i < 256 {
                9
            } else if i < 280 {
                7
            } else {
                8
            };
            lengths.push(v);
            i = i + 1;
        }
        proof {
            assert(lengths@ =~= fixed_lit_lengths());
        }
        let dl: Vec<u8> = vec![5u8; 32];
        proof {
            assert(dl@ =~= fixed_dist_lengths());
        }
        BlockContext { main: Huffman::new(lengths.as_slice()), dist: Huffman::new(dl.as_slice()) }
    }

    /// The match length of literal/length code `c` (the symbol less 257),
    /// reading the code's extra bits.
    pub fn get_length(&self, input: &mut BitReader, c: u16) -> (r: Result<u16, Error>)
        requires
            old(input).wf(),
            c <= 28,
        ensures
            final(input).wf(),
            match spec_length(c + 257, old(input).stream()) {
                Ok(lu) => r == Ok::<u16, Error>(lu.0 as u16) && 3 <= lu.0 <= 258
                    && final(input).stream() == old(input).stream().skip(lu.1),
                Err(e) => r == Err::<u16, Error>(e),
            },
    {
        let ghost s0 = old(input).stream();
        if c < 8 {
            proof {
                assert(s0.skip(0) =~= s0);
            }
            Ok(c + 3)
        } else if c == 28 {
            proof {
                assert(s0.skip(0) =~= s0);
            }
            Ok(258)
        } else {
            let extra = (c / 4 - 1) as u8;
            match input.get_bits(extra) {
                Err(e) => Err(e),
                Ok(ev) => {
                    let ghost bv = bits_value(s0.take(extra as int));
                    proof {
                        lemma_bits_value_bound(s0.take(extra as int));
                        lemma_shift_is_exp2(extra as u16);
                        lemma_exp2_vals();
                        crate::helper::lemma_exp2_mono(extra as nat, 5);
                        assert(bv < 32);
                    }
                    let base = (c % 4 + 4) << extra;
                    let ev16 = ev as u16;
                    proof {
                        let b = (c % 4 + 4) as u16;
                        let pw = 1u16 << (extra as u16);
                        assert(base == b * pw && (ev16 | base) == b * pw + ev16 && b * pw + ev16
                            < 1000) by (bit_vector)
                            requires base == (b << (extra as u16)) as u16 && 4 <= b <= 7 && 1
                                <= extra <= 5 && pw == 1u16 << (extra as u16) && ev16 < pw;
                        assert((pw as nat) == exp2(extra as nat));
                        assert((b * pw) as nat == (c % 4 + 4) * exp2(extra as nat));
                    }
                    let lv = (ev16 | base) + 3;
                    proof {
                        assert(lv as nat == (c % 4 + 4) * exp2(extra as nat) + bv + 3);
                        let b2 = (c % 4 + 4) as int;
                        let e2 = exp2(extra as nat) as int;
                        let bv2 = bv as int;
                        assert(b2 * e2 + bv2 + 3 <= 258) by (nonlinear_arith)
                            requires 4 <= b2 <= 7 && 0 < e2 <= 32 && 0 <= bv2 < e2;
                    }
                    Ok(lv)
                },
            }
        }
    }

    /// The back-reference distance: one symbol of the distance table and
    /// its extra bits.
    pub fn get_dist(&self, input: &mut BitReader) -> (r: Result<u16, Error>)
        requires
            old(input).wf(),
            self.wf(),
        ensures
            final(input).wf(),
            match spec_dist(self.dist_lengths(), old(input).stream()) {
                Ok(du) => r == Ok::<u16, Error>(du.0 as u16) && 1 <= du.0 <= 32768 && 1 <= du.1
                    <= old(input).stream().len()
                    && final(input).stream() == old(input).stream().skip(du.1),
                Err(e) => r == Err::<u16, Error>(e),
            },
    {
        let ghost s0 = old(input).stream();
        let c = match self.dist.decode(input) {
            Err(e) => {
                return Err(e);
            },
            Ok(c) => c,
        };
        let ghost ku = match spec_decode(self.dist_lengths(), s0) {
            Ok(sk) => sk.1,
            Err(_) => 0int,
        };
        if c < 4 {
            Ok(c + 1)
        } else if c >= 30 {
            Err(Error::BadDistCode)
        } else {
            let extra = (c / 2 - 1) as u8;
            let ghost s1 = input.stream();
            match input.get_bits(extra) {
                Err(e) => Err(e),
                Ok(ev) => {
                    let ghost bv = bits_value(s1.take(extra as int));
                    proof {
                        lemma_bits_value_bound(s1.take(extra as int));
                        lemma_shift_is_exp2(extra as u16);
                        lemma_exp2_vals();
                        crate::helper::lemma_exp2_mono(extra as nat, 13);
                        assert(bv < 8192);
                    }
                    let base = (c % 2 + 2) << extra;
                    let ev16 = ev as u16;
                    proof {
                        let b = (c % 2 + 2) as u16;
                        let pw = 1u16 << (extra as u16);
                        assert(base == b * pw && (ev16 | base) == b * pw + ev16 && b * pw + ev16
                            < 32768) by (bit_vector)
                            requires base == (b << (extra as u16)) as u16 && 2 <= b <= 3 && 1
                                <= extra <= 13 && pw == 1u16 << (extra as u16) && ev16 < pw;
                        assert((pw as nat) == exp2(extra as nat));
                        assert((b * pw) as nat == (c % 2 + 2) * exp2(extra as nat));
                    }
                    let dv = (ev16 | base) + 1;
                    proof {
                        assert(dv as nat == (c % 2 + 2) * exp2(extra as nat) + bv + 1);
                        assert(s0.skip(ku).skip(extra as int) =~= s0.skip(ku + extra));
                    }
                    Ok(dv)
                },
            }
        }
    }

    /// Reads the dynamic block header and builds the block's two tables:
    /// HLIT, HDIST and HCLEN, the code-length table in `cl_order`, and the
    /// run-length-coded lengths split at HLIT.
    pub fn dynamic(input: &mut BitReader) -> (r: Result<BlockContext, Error>)
        requires
            old(input).wf(),
        ensures
            final(input).wf(),
            match spec_dynamic(old(input).stream()) {
                Ok(tu) => (r matches Ok(c) && c.wf() && c.lit_lengths() == tu.0.0
                    && c.dist_lengths() == tu.0.1 && 0 <= tu.1 <= old(input).stream().len()
                    && final(input).stream() == old(input).stream().skip(tu.1)),
                Err(e) => r == Err::<BlockContext, Error>(e),
            },
    {
        let ghost b0 = old(input).stream();
        let hlit_raw = match input.get_bits(5) {
            Err(e) => {
                return Err(e);
            },
            Ok(v) => v,
        };
        let hdist_raw = match input.get_bits(5) {
            Err(e) => {
                return Err(e);
            },
            Ok(v) => v,
        };
        let hclen_raw = match input.get_bits(4) {
            Err(e) => {
                return Err(e);
            },
            Ok(v) => v,
        };
        proof {
            lemma_exp2_vals();
            lemma_bits_value_bound(b0.take(5));
            lemma_bits_value_bound(b0.skip(5).take(5));
            lemma_bits_value_bound(b0.skip(10).take(4));
            assert(b0.skip(5).take(5) =~= b0.subrange(5, 10));
            assert(b0.skip(10).take(4) =~= b0.subrange(10, 14));
            assert(b0.skip(5).skip(5) =~= b0.skip(10));
            assert(b0.skip(10).skip(4) =~= b0.skip(14));
        }
        let hlit = hlit_raw as usize + 257;
        let hdist = hdist_raw as usize + 1;
        let hclen = hclen_raw as usize + 4;
        proof {
            assert(hlit as nat == bits_value(b0.take(5)) + 257);
            assert(hdist as nat == bits_value(b0.subrange(5, 10)) + 1);
            assert(hclen as nat == bits_value(b0.subrange(10, 14)) + 4);
        }
        let ghost h = input.stream();
        let order = cl_order_vec();
        let mut cl: Vec<u8> = vec![0u8; 19];
        proof {
            assert(cl@ =~= spec_cl_lengths(h, 0));
        }
        let mut i: usize = 0;
        while i < hclen
            invariant
                i <= hclen <= 19,
                input.wf(),
                order@ == cl_order(),
                cl@ == spec_cl_lengths(h, i as int),
                cl@.len() == 19,
                forall|q: int| 0 <= q < 19 ==> cl@[q] <= 7,
                input.stream() == h.skip(3 * i),
                3 * i <= h.len(),
                h == b0.skip(14),
                b0 == old(input).stream(),
                b0.len() >= 14,
                h.len() == b0.len() - 14,
                (hclen as nat) == bits_value(b0.subrange(10, 14)) + 4,
            decreases hclen - i,
        {
            let ghost hc = input.stream();
            let v = match input.get_bits(3) {
                Err(e) => {
                    return Err(e);
                },
                Ok(v) => v,
            };
            proof {
                lemma_exp2_vals();
                lemma_bits_value_bound(hc.take(3));
                assert(hc.len() >= 3);
                assert(hc.take(3) =~= h.subrange(3 * i, 3 * i + 3));
                assert(hc.skip(3) =~= h.skip(3 * (i + 1)));
            }
            let s = order[i];
            proof {
                assert(cl_order()[i as int] < 19);
            }
            cl[s as usize] = v as u8;
            i = i + 1;
            proof {
                assert(cl@ =~= spec_cl_lengths(h, i as int));
            }
        }
        let code_length = Huffman::new(cl.as_slice());
        let target = hlit + hdist;
        let mut lens: Vec<u8> = Vec::new();
        let ghost hb = input.stream();
        let ghost clseq = cl@;
        let ghost mut consumed: int = 0;
        proof {
            assert(hb =~= b0.skip(14 + 3 * (hclen as int)));
        }
        while lens.len() < target
            invariant
                input.wf(),
                code_length.wf(),
                code_length.code_lengths() == clseq,
                clseq.len() == 19,
                257 <= target <= 320,
                b0 == old(input).stream(),
                b0.len() >= 14,
                14 + 3 * (hclen as int) <= b0.len(),
                hb == b0.skip(14 + 3 * (hclen as int)),
                hb.len() == b0.len() - 14 - 3 * (hclen as int),
                (hlit as nat) == bits_value(b0.take(5)) + 257,
                (hdist as nat) == bits_value(b0.subrange(5, 10)) + 1,
                (hclen as nat) == bits_value(b0.subrange(10, 14)) + 4,
                clseq == spec_cl_lengths(b0.skip(14), hclen as int),
                target == hlit + hdist,
                forall|q: int| 0 <= q < lens@.len() ==> lens@[q] <= 15,
                0 <= consumed <= hb.len(),
                input.stream() == hb.skip(consumed),
                match spec_rle(clseq, input.stream(), target as int, lens@) {
                    Ok(ru) => spec_rle(clseq, hb, target as int, Seq::empty()) == Ok::<
                        (Seq<u8>, int),
                        Error,
                    >((ru.0, consumed + ru.1)),
                    Err(e) => spec_rle(clseq, hb, target as int, Seq::empty()) == Err::<
                        (Seq<u8>, int),
                        Error,
                    >(e),
                },
            decreases hb.len() - consumed,
        {
            let ghost cur = input.stream();
            let ghost accpre = lens@;
            let sym = match code_length.decode(input) {
                Err(e) => {
                    return Err(e);
                },
                Ok(s) => s,
            };
            let ghost k = match spec_decode(clseq, cur) {
                Ok(sk) => sk.1,
                Err(_) => 0int,
            };
            if sym < 16 {
                lens.push(sym as u8);
                proof {
                    consumed = consumed + k;
                    assert(input.stream() =~= hb.skip(consumed));
                }
            } else if sym == 16 {
                if lens.len() == 0 {
                    return Err(Error::BadDynamicTree);
                }
                let ghost s1 = input.stream();
                let repv = match input.get_bits(2) {
                    Err(e) => {
                        return Err(e);
                    },
                    Ok(v) => v,
                };
                proof {
                    lemma_exp2_vals();
                    lemma_bits_value_bound(s1.take(2));
                }
                let rep = repv as usize + 3;
                let lastv = lens[lens.len() - 1];
                let mut jj: usize = 0;
                while jj < rep
                    invariant
                        jj <= rep,
                        lastv == accpre.last(),
                        accpre.len() >= 1,
                        lens@ == accpre + repeat_len(lastv, jj as int),
                        forall|q: int| 0 <= q < accpre.len() ==> accpre[q] <= 15,
                        lastv <= 15,
                    decreases rep - jj,
                {
                    lens.push(lastv);
                    jj = jj + 1;
                    proof {
                        assert(lens@ =~= accpre + repeat_len(lastv, jj as int));
                    }
                }
                proof {
                    consumed = consumed + k + 2;
                    assert(input.stream() =~= cur.skip(k + 2));
                    assert(input.stream() =~= hb.skip(consumed));
                }
            } else if sym == 17 {
                let ghost s1 = input.stream();
                let repv = match input.get_bits(3) {
                    Err(e) => {
                        return Err(e);
                    },
                    Ok(v) => v,
                };
                proof {
                    lemma_exp2_vals();
                    lemma_bits_value_bound(s1.take(3));
                }
                let rep = repv as usize + 3;
                let mut jj: usize = 0;
                while jj < rep
                    invariant
                        jj <= rep,
                        lens@ == accpre + repeat_len(0, jj as int),
                        forall|q: int| 0 <= q < accpre.len() ==> accpre[q] <= 15,
                    decreases rep - jj,
                {
                    lens.push(0);
                    jj = jj + 1;
                    proof {
                        assert(lens@ =~= accpre + repeat_len(0, jj as int));
                    }
                }
                proof {
                    consumed = consumed + k + 3;
                    assert(input.stream() =~= cur.skip(k + 3));
                    assert(input.stream() =~= hb.skip(consumed));
                }
            } else {
                let ghost s1 = input.stream();
                let repv = match input.get_bits(7) {
                    Err(e) => {
                        return Err(e);
                    },
                    Ok(v) => v,
                };
                proof {
                    lemma_exp2_vals();
                    lemma_bits_value_bound(s1.take(7));
                }
                let rep = repv as usize + 11;
                let mut jj: usize = 0;
                while jj < rep
                    invariant
                        jj <= rep,
                        lens@ == accpre + repeat_len(0, jj as int),
                        forall|q: int| 0 <= q < accpre.len() ==> accpre[q] <= 15,
                    decreases rep - jj,
                {
                    lens.push(0);
                    jj = jj + 1;
                    proof {
                        assert(lens@ =~= accpre + repeat_len(0, jj as int));
                    }
                }
                proof {
                    consumed = consumed + k + 7;
                    assert(input.stream() =~= cur.skip(k + 7));
                    assert(input.stream() =~= hb.skip(consumed));
                }
            }
        }
        if lens.len() != target {
            return Err(Error::BadDynamicTree);
        }
        let mut litv: Vec<u8> = Vec::new();
        let mut i2: usize = 0;
        while i2 < hlit
            invariant
                i2 <= hlit <= lens@.len(),
                litv@ == lens@.take(i2 as int),
            decreases hlit - i2,
        {
            let b = lens[i2];
            litv.push(b);
            i2 = i2 + 1;
            proof {
                assert(litv@ =~= lens@.take(i2 as int));
            }
        }
        let mut distv: Vec<u8> = Vec::new();
        while i2 < target
            invariant
                hlit <= i2 <= target == lens@.len(),
                distv@ == lens@.subrange(hlit as int, i2 as int),
            decreases target - i2,
        {
            let b = lens[i2];
            distv.push(b);
            i2 = i2 + 1;
            proof {
                assert(distv@ =~= lens@.subrange(hlit as int, i2 as int));
            }
        }
        proof {
            assert(forall|q: int| 0 <= q < litv@.len() ==> litv@[q] <= 15);
            assert(forall|q: int| 0 <= q < distv@.len() ==> distv@[q] <= 15);
            assert(distv@ =~= lens@.skip(hlit as int));
        }
        let main = Huffman::new(litv.as_slice());
        let dist = Huffman::new(distv.as_slice());
        let r = BlockContext { main, dist };
        proof {
            assert(input.stream() =~= b0.skip(14 + 3 * (hclen as int) + consumed));
        }
        Ok(r)
    }

    /// Decodes one block body into `output`: literals are appended and
    /// back-references copied one byte at a time (an overlapping copy reads
    /// what it has just written), until the end-of-block symbol.
    pub fn decompress(&self, input: &mut BitReader, output: &mut Vec<u8>) -> (r: Result<
        (),
        Error,
    >)
        requires
            self.wf(),
            old(input).wf(),
        ensures
            final(input).wf(),
            match spec_block(
                self.lit_lengths(),
                self.dist_lengths(),
                old(input).stream(),
                old(output)@,
            ) {
                Ok(ou) => r == Ok::<(), Error>(()) && final(output)@ == ou.0 && 0 <= ou.1 <= old(
                    input,
                ).stream().len() && final(input).stream() == old(input).stream().skip(ou.1),
                Err(e) => r == Err::<(), Error>(e),
            },
    {
        let ghost lit = self.lit_lengths();
        let ghost dl = self.dist_lengths();
        let ghost b0 = old(input).stream();
        let ghost out0 = old(output)@;
        let ghost mut consumed: int = 0;
        loop
            invariant
                self.wf(),
                input.wf(),
                lit == self.lit_lengths(),
                dl == self.dist_lengths(),
                b0 == old(input).stream(),
                out0 == old(output)@,
                0 <= consumed <= b0.len(),
                input.stream() == b0.skip(consumed),
                match spec_block(lit, dl, input.stream(), output@) {
                    Ok(ou) => spec_block(lit, dl, b0, out0) == Ok::<(Seq<u8>, int), Error>(
                        (ou.0, consumed + ou.1),
                    ),
                    Err(e) => spec_block(lit, dl, b0, out0) == Err::<(Seq<u8>, int), Error>(e),
                },
            decreases input.stream().len(),
        {
            let ghost cur = input.stream();
            let ghost curout = output@;
            let sym = match self.main.decode(input) {
                Err(e) => {
                    return Err(e);
                },
                Ok(s) => s,
            };
            let ghost k = match spec_decode(lit, cur) {
                Ok(sk) => sk.1,
                Err(_) => 0int,
            };
            proof {
                assert(input.stream() =~= b0.skip(consumed + k));
            }
            if sym < 256 {
                output.push(sym as u8);
                proof {
                    consumed = consumed + k;
                }
            } else if sym == 256 {
                return Ok(());
            } else if sym <= 285 {
                let ghost s1 = input.stream();
                let len = match self.get_length(input, sym - 257) {
                    Err(e) => {
                        return Err(e);
                    },
                    Ok(l) => l,
                };
                let ghost k2 = match spec_length(sym as int, s1) {
                    Ok(lu) => lu.1,
                    Err(_) => 0int,
                };
                let ghost s2 = input.stream();
                proof {
                    assert(s2 =~= cur.skip(k + k2));
                }
                let dist = match self.get_dist(input) {
                    Err(e) => {
                        return Err(e);
                    },
                    Ok(d) => d,
                };
                let ghost k3 = match spec_dist(dl, s2) {
                    Ok(du) => du.1,
                    Err(_) => 0int,
                };
                if (dist as usize) > output.len() {
                    return Err(Error::DistanceTooFar);
                }
                proof {
                    assert(input.stream() =~= cur.skip(k + k2 + k3));
                    assert(input.stream() =~= b0.skip(consumed + k + k2 + k3));
                }
                let ghost outpre = output@;
                let lenu = len as usize;
                let distu = dist as usize;
                let mut j: usize = 0;
                while j < lenu
                    invariant
                        1 <= distu,
                        j <= lenu,
                        output@.len() == outpre.len() + j,
                        distu <= output@.len(),
                        lz77_extend(output@, distu as int, lenu - j) == lz77_extend(
                            outpre,
                            distu as int,
                            lenu as int,
                        ),
                    decreases lenu - j,
                {
                    let idx = output.len() - distu;
                    let b = output[idx];
                    output.push(b);
                    j = j + 1;
                }
                proof {
                    assert(output@ == lz77_extend(outpre, distu as int, lenu as int));
                    consumed = consumed + k + k2 + k3;
                }
            } else {
                return Err(Error::BadLitLenCode);
            }
        }
    }
}

/// Decompresses one whole DEFLATE stream: reads BFINAL and BTYPE for each
/// block, runs the stored-block copier or the fixed or dynamic Huffman
/// decoder, and returns the accumulated output after the final block —
/// exactly what `spec_inflate` says of the input's bits.
#[verifier::rlimit(100)]
pub fn decompress(data: &[u8]) -> (r: Result<Vec<u8>, Error>)
    ensures
        match spec_inflate(bits_of(data@)) {
            Ok(o) => r matches Ok(v) && v@ == o,
            Err(e) => r matches Err(e2) && e2 == e,
        },
{
    let mut input = BitReader::new(data);
    let mut output: Vec<u8> = Vec::new();
    let fixed = BlockContext::fixed();
    let ghost b0 = bits_of(data@);
    loop
        invariant
            input.wf(),
            fixed.wf(),
            fixed.lit_lengths() == fixed_lit_lengths(),
            fixed.dist_lengths() == fixed_dist_lengths(),
            b0 == bits_of(data@),
            match spec_blocks(input.stream(), output@) {
                Ok(o) => spec_inflate(b0) == Ok::<Seq<u8>, Error>(o),
                Err(e) => spec_inflate(b0) == Err::<Seq<u8>, Error>(e),
            },
        decreases input.stream().len(),
    {
        let ghost cur = input.stream();
        let ghost curout = output@;
        let bfinal = match input.get_bit() {
            Err(e) => {
                return Err(e);
            },
            Ok(b) => b,
        };
        let btype = match input.get_bits(2) {
            Err(e) => {
                return Err(e);
            },
            Ok(v) => v,
        };
        let ghost body = cur.skip(3);
        proof {
            assert(cur.len() >= 3);
            let t2 = cur.skip(1).take(2);
            assert(t2.len() == 2 && t2[0] == cur[1] && t2[1] == cur[2]);
            assert(t2.skip(1) =~= seq![cur[2]]);
            assert(t2.skip(1).skip(1) =~= Seq::<bool>::empty());
            assert(t2.skip(1).len() == 1 && t2.skip(1)[0] == cur[2]);
            assert(bits_value(Seq::<bool>::empty()) == 0);
            assert(bits_value(t2.skip(1).skip(1)) == 0);
            assert(bits_value(t2.skip(1)) == (if cur[2] { 1nat } else { 0nat }));
            assert(bits_value(t2) == (if cur[1] { 1nat } else { 0nat }) + 2 * (if cur[2] {
                1nat
            } else {
                0nat
            }));
            assert(input.stream() =~= body);
        }
        let ghost step: Result<(Seq<u8>, int), Error> = if !cur[1] && !cur[2] {
            spec_stored(body, curout)
        } else if cur[1] && !cur[2] {
            spec_block(fixed_lit_lengths(), fixed_dist_lengths(), body, curout)
        } else if !cur[1] && cur[2] {
            match spec_dynamic(body) {
                Err(e) => Err(e),
                Ok(tu) => match spec_block(tu.0.0, tu.0.1, body.skip(tu.1), curout) {
                    Err(e) => Err(e),
                    Ok(ou) => Ok((ou.0, tu.1 + ou.1)),
                },
            }
        } else {
            Err(Error::BadBlockType)
        };
        if btype == 0 {
            let ghost a = body.len() as int % 8;
            input.drop_align();
            proof {
                assert(input.stream() =~= body.skip(a));
            }
            let ghost sa = input.stream();
            let lenv = match input.get_bits(16) {
                Err(e) => {
                    return Err(e);
                },
                Ok(v) => v,
            };
            let ghost sb = input.stream();
            let nlenv = match input.get_bits(16) {
                Err(e) => {
                    return Err(e);
                },
                Ok(v) => v,
            };
            proof {
                lemma_exp2_vals();
                lemma_bits_value_bound(sa.take(16));
                lemma_bits_value_bound(sb.take(16));
                assert(sa.take(16) =~= body.subrange(a, a + 16));
                assert(sb =~= body.skip(a + 16));
                assert(sb.take(16) =~= body.subrange(a + 16, a + 32));
                assert(input.stream() =~= body.skip(a + 32));
            }
            let len16 = lenv as u16;
            let nlen16 = nlenv as u16;
            proof {
                assert((len16 != !nlen16) == (len16 as int + nlen16 as int != 0xFFFF))
                    by (bit_vector);
            }
            if len16 != !nlen16 {
                return Err(Error::StoredLenMismatch);
            }
            proof {
                let bl = body.len() as int;
                assert((bl - a) % 8 == 0 && a + 32 <= bl ==> (bl - a - 32) % 8 == 0)
                    by (nonlinear_arith)
                    requires a == bl % 8;
                assert(input.stream().len() % 8 == 0);
            }
            let mut chunk = match input.read_bytes(len16 as usize) {
                Err(e) => {
                    return Err(e);
                },
                Ok(v) => v,
            };
            output.append(&mut chunk);
            proof {
                let lv = lenv as int;
                assert(body.skip(a + 32).take(8 * lv) =~= body.subrange(a + 32, a + 32 + 8 * lv));
                assert(input.stream() =~= body.skip(a + 32 + 8 * lv));
                assert(step == Ok::<(Seq<u8>, int), Error>(
                    (curout + bytes_from_bits(body.subrange(a + 32, a + 32 + 8 * lv)), a + 32 + 8
                        * lv),
                ));
                assert(output@ == curout + bytes_from_bits(body.subrange(a + 32, a + 32 + 8 * lv)));
            }
        } else if btype == 1 {
            match fixed.decompress(&mut input, &mut output) {
                Err(e) => {
                    return Err(e);
                },
                Ok(u) => u,
            };
        } else if btype == 2 {
            let ctx = match BlockContext::dynamic(&mut input) {
                Err(e) => {
                    return Err(e);
                },
                Ok(c) => c,
            };
            match ctx.decompress(&mut input, &mut output) {
                Err(e) => {
                    return Err(e);
                },
                Ok(u) => u,
            };
        } else {
            return Err(Error::BadBlockType);
        }
        proof {
            assert(step is Ok);
            let ou = step->Ok_0;
            assert(output@ == ou.0);
            assert(input.stream() =~= body.skip(ou.1));
        }
        if bfinal {
            return Ok(output);
        }
    }
}

} // verus!
