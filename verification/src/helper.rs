//! The bit-level view of a byte slice, and the reader that consumes it.
//!
//! DEFLATE reads its input as a stream of bits: each byte contributes its
//! eight bits least-significant first.  `bits_of` is that stream as a
//! mathematical sequence, `bits_value` the integer a run of bits denotes
//! (first bit least significant), and `BitReader` the executable cursor,
//! specified entirely through the stream of bits it has not yet consumed.

use vstd::prelude::*;

use crate::Error;
use crate::huffman::BitStream;

verus! {

/// Bit `i` of a byte, counting from the least significant end.
pub open spec fn bit_at(b: u8, i: int) -> bool {
    (b >> (i as u8)) & 1 == 1
}

/// Bit `i` of a 32-bit word, counting from the least significant end.
pub open spec fn bit_at32(v: u32, i: int) -> bool {
    (v >> (i as u32)) & 1 == 1
}

/// The bit stream carried by a byte sequence: each byte contributes its
/// bits least-significant first, in byte order.
pub open spec fn bits_of(data: Seq<u8>) -> Seq<bool> {
    Seq::new(data.len() * 8, |i: int| bit_at(data[i / 8], i % 8))
}

/// The integer a run of bits denotes, its first bit least significant.
pub open spec fn bits_value(bits: Seq<bool>) -> nat
    decreases bits.len(),
{
    if bits.len() == 0 {
        0
    } else {
        (if bits[0] {
            1nat
        } else {
            0nat
        }) + 2 * bits_value(bits.skip(1))
    }
}

/// Two to the power `n`.
pub open spec fn exp2(n: nat) -> nat
    decreases n,
{
    if n == 0 {
        1
    } else {
        2 * exp2((n - 1) as nat)
    }
}

/// The bytes a byte-aligned run of bits spells, one per eight bits.
pub open spec fn bytes_from_bits(bits: Seq<bool>) -> Seq<u8> {
    Seq::new(bits.len() / 8, |j: int| bits_value(bits.subrange(8 * j, 8 * j + 8)) as u8)
}

/// Powers of two are positive.
pub proof fn lemma_exp2_pos(n: nat)
    ensures
        exp2(n) >= 1,
    decreases n,
{
    if n > 0 {
        lemma_exp2_pos((n - 1) as nat);
    }
}

/// Powers of two grow with the exponent.
pub proof fn lemma_exp2_mono(a: nat, b: nat)
    requires
        a <= b,
    ensures
        exp2(a) <= exp2(b),
    decreases b,
{
    if a < b {
        lemma_exp2_mono(a, (b - 1) as nat);
    }
}

/// The small powers of two, spelled out.
pub proof fn lemma_exp2_vals()
    ensures
        exp2(0) == 1,
        exp2(1) == 2,
        exp2(2) == 4,
        exp2(3) == 8,
        exp2(4) == 16,
        exp2(5) == 32,
        exp2(6) == 64,
        exp2(7) == 128,
        exp2(8) == 256,
        exp2(9) == 512,
        exp2(10) == 1024,
        exp2(11) == 2048,
        exp2(12) == 4096,
        exp2(13) == 8192,
        exp2(14) == 16384,
        exp2(15) == 32768,
        exp2(16) == 65536,
{
    assert(exp2(0) == 1);
    assert(exp2(1) == 2);
    assert(exp2(2) == 4);
    assert(exp2(3) == 8);
    assert(exp2(4) == 16);
    assert(exp2(5) == 32);
    assert(exp2(6) == 64);
    assert(exp2(7) == 128);
    assert(exp2(8) == 256);
    assert(exp2(9) == 512);
    assert(exp2(10) == 1024);
    assert(exp2(11) == 2048);
    assert(exp2(12) == 4096);
    assert(exp2(13) == 8192);
    assert(exp2(14) == 16384);
    assert(exp2(15) == 32768);
    assert(exp2(16) == 65536);
}

/// A left shift of one is the matching power of two.
pub proof fn lemma_shift_is_exp2(ex: u16)
    requires
        ex <= 15,
    ensures
        (1u16 << ex) as nat == exp2(ex as nat),
    decreases ex,
{
    if ex == 0 {
        assert(1u16 << 0u16 == 1) by (bit_vector);
    } else {
        let em = (ex - 1) as u16;
        lemma_shift_is_exp2(em);
        assert(1u16 << ex == 2 * (1u16 << em)) by (bit_vector)
            requires 1 <= ex <= 15 && em == ex - 1;
    }
}

/// A run of bits is worth less than two to its length.
pub proof fn lemma_bits_value_bound(bits: Seq<bool>)
    ensures
        bits_value(bits) < exp2(bits.len()),
    decreases bits.len(),
{
    if bits.len() > 0 {
        lemma_bits_value_bound(bits.skip(1));
    }
}

/// Chunked reads compose: however a run of bits is split in two, the value
/// of the whole run is the value of the first part plus the value of the
/// second shifted past it.  With `BitReader::get_bits` returning the value
/// of the bits it consumes and leaving exactly the rest, this says that any
/// partition of a read plan into calls yields the same bits as one call
/// over the whole span.
pub proof fn lemma_bits_value_split(bits: Seq<bool>, k: int)
    requires
        0 <= k <= bits.len(),
    ensures
        bits_value(bits) == bits_value(bits.take(k)) + exp2(k as nat) * bits_value(bits.skip(k)),
    decreases k,
{
    if k == 0 {
        assert(bits.skip(0) =~= bits);
        assert(bits.take(0) =~= Seq::<bool>::empty());
        assert(bits_value(bits.take(0)) == 0);
        assert(exp2(0) == 1);
        assert(bits_value(bits) == 0 + 1 * bits_value(bits.skip(0)));
    } else {
        lemma_bits_value_split(bits.skip(1), k - 1);
        assert(bits.skip(1).take(k - 1) =~= bits.take(k).skip(1));
        assert(bits.skip(1).skip(k - 1) =~= bits.skip(k));
        assert(bits.take(k).len() != 0);
        assert(bits.take(k)[0] == bits[0]);
        let e1 = exp2((k - 1) as nat);
        let e = exp2(k as nat);
        let y = bits_value(bits.skip(k));
        assert(e == 2 * e1);
        assert(2 * (e1 * y) == e * y) by (nonlinear_arith)
            requires e == 2 * e1;
        assert(bits_value(bits) == (if bits[0] {
            1nat
        } else {
            0nat
        }) + 2 * bits_value(bits.skip(1)));
        assert(bits_value(bits.take(k)) == (if bits[0] {
            1nat
        } else {
            0nat
        }) + 2 * bits_value(bits.take(k).skip(1)));
        assert(bits_value(bits.skip(1)) == bits_value(bits.take(k).skip(1)) + e1 * y);
        assert(bits_value(bits) == bits_value(bits.take(k)) + 2 * (e1 * y));
        assert(bits_value(bits) == bits_value(bits.take(k)) + e * y);
    }
}

/// Two successive reads return the same bits as one read over the whole
/// span: with `get_bits` returning `bits_value` of the bits it takes and
/// leaving exactly the rest, a read of `n1 + n2` bits equals a read of
/// `n1` plus a read of `n2` shifted past it — and by induction, so does
/// any partition of a read plan into calls.
pub proof fn lemma_chunked_reads(bits: Seq<bool>, n1: int, n2: int)
    requires
        0 <= n1,
        0 <= n2,
        n1 + n2 <= bits.len(),
    ensures
        bits_value(bits.take(n1 + n2)) == bits_value(bits.take(n1)) + exp2(n1 as nat)
            * bits_value(bits.skip(n1).take(n2)),
{
    let whole = bits.take(n1 + n2);
    lemma_bits_value_split(whole, n1);
    assert(whole.take(n1) =~= bits.take(n1));
    assert(whole.skip(n1) =~= bits.skip(n1).take(n2));
}

/// Bit `8p + j` of a byte sequence's stream is bit `j` of byte `p`.
pub proof fn lemma_bits_of_index(data: Seq<u8>, p: int, j: int)
    requires
        0 <= p < data.len(),
        0 <= j < 8,
    ensures
        bits_of(data)[8 * p + j] == bit_at(data[p], j),
{
    assert((8 * p + j) / 8 == p && (8 * p + j) % 8 == j) by (nonlinear_arith)
        requires 0 <= p && 0 <= j < 8;
}

/// Shifting once more reads the next bit.
proof fn lemma_bit32_shift(v: u32, j: u32, jp: u32)
    by (bit_vector)
    requires
        j < 31,
        jp == j + 1,
    ensures
        (((v >> 1) >> j) & 1) == ((v >> jp) & 1),
{
}

/// A byte's low bits widen unchanged.
proof fn lemma_bit_u8_in_u32(b: u8, j: u32)
    by (bit_vector)
    requires
        j < 8,
    ensures
        (((b as u32) >> j) & 1 == 1) == ((b >> (j as u8)) & 1 == 1),
{
}

/// A word agreeing with a run of bits on its low `n` bits, and zero above
/// them, is worth exactly that run.
pub proof fn lemma_bits_value_matches(v: u32, s: Seq<bool>, n: int)
    requires
        0 <= n < 32,
        n <= s.len(),
        forall|i: int| 0 <= i < n ==> #[trigger] bit_at32(v, i) == s[i],
        v >> (n as u32) == 0,
    ensures
        v as nat == bits_value(s.take(n)),
    decreases n,
{
    let nu = n as u32;
    if n == 0 {
        assert(v == 0) by (bit_vector)
            requires v >> nu == 0 && nu == 0;
        assert(s.take(0) =~= Seq::<bool>::empty());
    } else {
        let v1 = v >> 1u32;
        let s1 = s.skip(1);
        assert forall|i: int| 0 <= i < n - 1 implies #[trigger] bit_at32(v1, i) == s1[i] by {
            let j = i as u32;
            let jp = (i + 1) as u32;
            lemma_bit32_shift(v, j, jp);
            assert(bit_at32(v, i + 1) == s[i + 1]);
        }
        let nm = (n - 1) as u32;
        assert(v1 >> nm == 0) by (bit_vector)
            requires v >> nu == 0 && nu == nm + 1 && nu < 32 && v1 == v >> 1u32;
        lemma_bits_value_matches(v1, s1, n - 1);
        assert(v == (if (v & 1) == 1 { 1u32 } else { 0u32 }) + 2 * (v >> 1u32)) by (bit_vector);
        assert(bit_at32(v, 0) == ((v & 1) == 1)) by (bit_vector);
        assert(s.take(n).skip(1) =~= s1.take(n - 1));
        assert(s.take(n)[0] == s[0]);
        assert(bit_at32(v, 0) == s[0]);
    }
}

/// The eight bits a byte put into the stream are worth that byte.
pub proof fn lemma_byte_from_bits(data: Seq<u8>, p: int)
    requires
        0 <= p < data.len(),
    ensures
        bits_value(bits_of(data).subrange(8 * p, 8 * p + 8)) == data[p],
{
    let s = bits_of(data).subrange(8 * p, 8 * p + 8);
    let b = data[p];
    assert forall|i: int| 0 <= i < 8 implies #[trigger] bit_at32(b as u32, i) == s[i] by {
        lemma_bits_of_index(data, p, i);
        lemma_bit_u8_in_u32(b, i as u32);
    }
    assert((b as u32) >> 8u32 == 0) by (bit_vector);
    lemma_bits_value_matches(b as u32, s, 8);
    assert(s.take(8) =~= s);
}

/// The index of the first zero byte, if there is one.
pub open spec fn first_nul(s: Seq<u8>) -> Option<int>
    decreases s.len(),
{
    if s.len() == 0 {
        None
    } else if s[0] == 0 {
        Some(0)
    } else {
        match first_nul(s.skip(1)) {
            None => None,
            Some(i) => Some(i + 1),
        }
    }
}

/// The first zero byte is a zero byte, and nothing before it is one.
pub proof fn lemma_first_nul(s: Seq<u8>)
    ensures
        match first_nul(s) {
            Some(i) => 0 <= i < s.len() && s[i] == 0 && forall|j: int| 0 <= j < i ==> s[j] != 0,
            None => forall|j: int| 0 <= j < s.len() ==> s[j] != 0,
        },
    decreases s.len(),
{
    if s.len() > 0 && s[0] != 0 {
        lemma_first_nul(s.skip(1));
        match first_nul(s.skip(1)) {
            Some(i) => {
                assert forall|j: int| 0 <= j < i + 1 implies s[j] != 0 by {
                    if j > 0 {
                        assert(s.skip(1)[j - 1] != 0);
                    }
                }
            },
            None => {
                assert forall|j: int| 0 <= j < s.len() implies s[j] != 0 by {
                    if j > 0 {
                        assert(s.skip(1)[j - 1] != 0);
                    }
                }
            },
        }
    }
}

/// The position of the first zero byte of a slice.
pub fn strlen(data: &[u8]) -> (r: Option<usize>)
    ensures
        match first_nul(data@) {
            None => r is None,
            Some(i) => r == Some(i as usize),
        },
{
    let n = data.len();
    let mut i: usize = 0;
    while i < n
        invariant
            i <= n == data@.len(),
            forall|j: int| 0 <= j < i ==> data@[j] != 0,
        decreases n - i,
    {
        if data[i] == 0 {
            proof {
                lemma_first_nul(data@);
            }
            return Some(i);
        }
        i = i + 1;
    }
    proof {
        lemma_first_nul(data@);
    }
    None
}

/// The executable cursor over a byte slice, read as a stream of bits.
///
/// Between calls the reader holds at most seven bits pulled from the slice
/// but not yet handed out; everything a caller can observe is the stream of
/// bits still to come, `self.stream()`.
pub struct BitReader<'a> {
    data: &'a [u8],
    pos: usize,
    leftover: u8,
    count: u8,
}

impl<'a> BitReader<'a> {
    /// The reader's bookkeeping is consistent: the buffered bits are exactly
    /// the bits of the slice just before the cursor.
    pub closed spec fn wf(self) -> bool {
        &&& self.pos <= self.data@.len()
        &&& self.count <= 7
        &&& self.count as int <= 8 * self.pos
        &&& self.leftover >> self.count == 0
        &&& forall|i: int|
            0 <= i < self.count ==> #[trigger] bit_at(self.leftover, i) == bits_of(self.data@)[8
                * self.pos - self.count + i]
    }

    /// The bits not yet consumed.
    pub closed spec fn stream(self) -> Seq<bool> {
        bits_of(self.data@).skip(8 * self.pos - self.count)
    }

    pub fn new(data: &'a [u8]) -> (r: Self)
        ensures
            r.wf(),
            r.stream() == bits_of(data@),
    {
        let r = BitReader { data, pos: 0, leftover: 0, count: 0 };
        proof {
            assert(0u8 >> 0u8 == 0u8) by (bit_vector);
            assert(r.stream() =~= bits_of(data@));
        }
        r
    }

    /// The next `n` bits as an integer, least-significant bit of the stream
    /// in the least-significant position, consuming them.  `n` never exceeds
    /// 25 so that one more whole byte always fits the shift register.
    pub fn get_bits(&mut self, n: u8) -> (r: Result<u32, Error>)
        requires
            old(self).wf(),
            n <= 25,
        ensures
            final(self).wf(),
            old(self).stream().len() < n ==> r == Err::<u32, Error>(Error::Truncated) && *final(self)
                == *old(self),
            old(self).stream().len() >= n ==> r == Ok::<u32, Error>(
                bits_value(old(self).stream().take(n as int)) as u32,
            ) && final(self).stream() == old(self).stream().skip(n as int),
    {
        proof {
            assert(old(self).stream().len() == 8 * (old(self).data@.len() - old(self).pos)
                + old(self).count);
        }
        if self.count < n {
            let need = ((n - self.count) + 7) / 8;
            if self.data.len() - self.pos < need as usize {
                proof {
                    let x = n as int - self.count as int;
                    let a = self.data@.len() - self.pos as int;
                    assert((x + 7) / 8 > a ==> x > 8 * a) by (nonlinear_arith);
                }
                return Err(Error::Truncated);
            }
            proof {
                let x = n as int - self.count as int;
                let a = self.data@.len() - self.pos as int;
                assert((x + 7) / 8 <= a ==> x <= 8 * a) by (nonlinear_arith);
            }
        }
        let ghost s0 = *old(self);
        let mut bits: u32 = self.leftover as u32;
        let mut have: u8 = self.count;
        proof {
            let lo = s0.leftover;
            let c = s0.count;
            assert forall|i: int| 0 <= i < have implies #[trigger] bit_at32(bits, i)
                == s0.stream()[i] by {
                lemma_bit_u8_in_u32(lo, i as u32);
                assert(bit_at(lo, i) == bits_of(s0.data@)[8 * s0.pos - s0.count + i]);
            }
            assert((lo as u32) >> (c as u32) == 0) by (bit_vector)
                requires lo >> c == 0 && c <= 7;
        }
        while have < n
            invariant
                s0.wf(),
                n <= 25,
                have <= n + 7,
                self.data@ == s0.data@,
                self.leftover == s0.leftover,
                self.count == s0.count,
                self.pos <= self.data@.len(),
                8 * self.pos - have == 8 * s0.pos - s0.count,
                n as int - have as int <= 8 * (self.data@.len() - self.pos),
                bits >> (have as u32) == 0,
                forall|i: int| 0 <= i < have ==> #[trigger] bit_at32(bits, i) == s0.stream()[i],
            decreases self.data@.len() - self.pos,
        {
            let byte = self.data[self.pos];
            let nbits = bits | ((byte as u32) << (have as u32));
            proof {
                let gpos = self.pos as int;
                assert forall|i: int| 0 <= i < have + 8 implies #[trigger] bit_at32(nbits, i)
                    == s0.stream()[i] by {
                    let ju = i as u32;
                    if i < have {
                        assert((nbits >> ju) & 1 == (bits >> ju) & 1) by (bit_vector)
                            requires nbits == bits | ((byte as u32) << (have as u32)) && ju < (
                            have as u32) && have < 32;
                        assert(bit_at32(nbits, i) == bit_at32(bits, i));
                        assert(bit_at32(bits, i) == s0.stream()[i]);
                    } else {
                        let j = i - have;
                        let jh = j as u32;
                        assert((nbits >> ju) & 1 == ((byte as u32) >> jh) & 1) by (bit_vector)
                            requires nbits == bits | ((byte as u32) << (have as u32)) && bits >> (
                            have as u32) == 0 && jh < 8 && ju == (have as u32) + jh && have <= 24;
                        lemma_bit_u8_in_u32(byte, jh);
                        lemma_bits_of_index(s0.data@, gpos, j);
                        assert(8 * gpos + j == (8 * s0.pos - s0.count) + i);
                        assert(s0.stream().len() == 8 * s0.data@.len() - (8 * s0.pos - s0.count));
                        assert(i < s0.stream().len());
                        assert(bits_of(s0.data@)[8 * gpos + j] == s0.stream()[i]);
                        assert(bit_at32(nbits, i) == bit_at(byte, j));
                    }
                }
                let h8 = (have + 8) as u32;
                assert(nbits >> h8 == 0) by (bit_vector)
                    requires nbits == bits | ((byte as u32) << (have as u32)) && bits >> (
                    have as u32) == 0 && have <= 24 && h8 == (have as u32) + 8;
            }
            bits = nbits;
            self.pos = self.pos + 1;
            have = have + 8;
        }
        let shifted = 1u32 << (n as u32);
        proof {
            assert(shifted >= 1) by (bit_vector)
                requires shifted == 1u32 << (n as u32) && n <= 25;
        }
        let mask = shifted - 1;
        let rv = bits & mask;
        self.count = have - n;
        self.leftover = (bits >> (n as u32)) as u8;
        proof {
            assert(s0.stream().len() == 8 * s0.data@.len() - (8 * s0.pos - s0.count));
            assert(s0.stream().len() >= n);
            let ns = *self;
            let nn = n as u32;
            let hh = have as u32;
            let c2 = ns.count;
            let lo2 = ns.leftover;
            assert((lo2 as u32) == bits >> nn && lo2 >> c2 == 0) by (bit_vector)
                requires lo2 == (bits >> nn) as u8 && bits >> hh == 0 && hh == nn + (c2 as u32)
                    && c2 <= 7 && nn <= 25;
            assert forall|i: int| 0 <= i < ns.count implies #[trigger] bit_at(ns.leftover, i)
                == bits_of(ns.data@)[8 * ns.pos - ns.count + i] by {
                let j = i as u32;
                let nju = (n + i) as u32;
                assert(((lo2 >> (j as u8)) & 1 == 1) == ((bits >> nju) & 1 == 1)) by (bit_vector)
                    requires lo2 == (bits >> nn) as u8 && j < 8 && nn <= 25 && nju == nn + j;
                assert(bit_at32(bits, n + i) == s0.stream()[n + i]);
                assert(8 * ns.pos - ns.count + i == (8 * s0.pos - s0.count) + (n + i));
            }
            assert(ns.wf());
            assert(ns.stream() =~= s0.stream().skip(n as int));
            assert forall|i: int| 0 <= i < n implies #[trigger] bit_at32(rv, i)
                == s0.stream().take(n as int)[i] by {
                let j = i as u32;
                assert((rv >> j) & 1 == (bits >> j) & 1) by (bit_vector)
                    requires rv == bits & mask && mask + 1 == 1u32 << nn && j < nn && nn <= 25;
                assert(bit_at32(rv, i) == bit_at32(bits, i));
                assert(bit_at32(bits, i) == s0.stream()[i]);
                assert(s0.stream().take(n as int)[i] == s0.stream()[i]);
            }
            assert(rv >> nn == 0) by (bit_vector)
                requires rv == bits & mask && mask + 1 == 1u32 << nn && nn <= 25;
            lemma_bits_value_matches(rv, s0.stream(), n as int);
        }
        Ok(rv)
    }

    /// The next bit of the stream.
    pub fn get_bit(&mut self) -> (r: Result<bool, Error>)
        requires
            old(self).wf(),
        ensures
            final(self).wf(),
            old(self).stream().len() == 0 ==> r == Err::<bool, Error>(Error::Truncated)
                && *final(self) == *old(self),
            old(self).stream().len() > 0 ==> r == Ok::<bool, Error>(old(self).stream()[0])
                && final(self).stream() == old(self).stream().skip(1),
    {
        let ghost s0 = *old(self);
        match self.get_bits(1) {
            Ok(v) => {
                proof {
                    if s0.stream().len() > 0 {
                        let t = s0.stream().take(1);
                        assert(t.skip(1) =~= Seq::<bool>::empty());
                        assert(bits_value(t.skip(1)) == 0);
                        assert(t[0] == s0.stream()[0]);
                        assert(bits_value(t) == (if s0.stream()[0] {
                            1nat
                        } else {
                            0nat
                        }));
                    }
                }
                Ok(v != 0)
            },
            Err(e) => Err(e),
        }
    }

    /// Discards the fractional bits buffered past the last whole byte, so
    /// that reading resumes at the next byte boundary.  The bits dropped are
    /// exactly the stream's length taken modulo eight.
    pub fn drop_align(&mut self)
        requires
            old(self).wf(),
        ensures
            final(self).wf(),
            final(self).stream() == old(self).stream().skip(
                old(self).stream().len() as int % 8,
            ),
    {
        proof {
            let k = old(self).data@.len() - old(self).pos as int;
            let c = old(self).count as int;
            assert(old(self).stream().len() == 8 * k + c);
            assert((8 * k + c) % 8 == c) by (nonlinear_arith)
                requires 0 <= c < 8 && k >= 0;
        }
        self.leftover = 0;
        self.count = 0;
        proof {
            assert(0u8 >> 0u8 == 0u8) by (bit_vector);
            assert(final(self).stream() =~= old(self).stream().skip(old(self).count as int));
        }
    }

    /// Copies the next `n` whole bytes of the stream, which must be
    /// byte-aligned, consuming them.
    pub fn read_bytes(&mut self, n: usize) -> (r: Result<Vec<u8>, Error>)
        requires
            old(self).wf(),
            old(self).stream().len() % 8 == 0,
        ensures
            final(self).wf(),
            old(self).stream().len() < 8 * n ==> r == Err::<Vec<u8>, Error>(Error::Truncated)
                && *final(self) == *old(self),
            old(self).stream().len() >= 8 * n ==> (r matches Ok(v) && v@ == bytes_from_bits(
                old(self).stream().take(8 * n as int),
            ) && final(self).stream() == old(self).stream().skip(8 * n as int)),
    {
        let ghost s0 = *old(self);
        proof {
            let k = s0.data@.len() - s0.pos as int;
            let c = s0.count as int;
            assert(s0.stream().len() == 8 * k + c);
            assert((8 * k + c) % 8 == c) by (nonlinear_arith)
                requires 0 <= c < 8 && k >= 0;
            assert(s0.count == 0);
        }
        if n > self.data.len() - self.pos {
            return Err(Error::Truncated);
        }
        let mut v: Vec<u8> = Vec::new();
        let mut i: usize = 0;
        while i < n
            invariant
                i <= n,
                *self == s0,
                s0.wf(),
                s0.count == 0,
                n <= s0.data@.len() - s0.pos,
                v@ == s0.data@.subrange(s0.pos as int, s0.pos + i),
            decreases n - i,
        {
            let b = self.data[self.pos + i];
            v.push(b);
            proof {
                assert(v@ =~= s0.data@.subrange(s0.pos as int, s0.pos + i + 1));
            }
            i = i + 1;
        }
        self.pos = self.pos + n;
        proof {
            let ns = *self;
            assert(ns.leftover >> ns.count == s0.leftover >> s0.count);
            let taken = s0.stream().take(8 * n as int);
            assert forall|j: int| 0 <= j < n implies v@[j] == #[trigger] bytes_from_bits(taken)[j] by {
                lemma_byte_from_bits(s0.data@, s0.pos + j);
                assert(taken.subrange(8 * j, 8 * j + 8) =~= bits_of(s0.data@).subrange(
                    8 * (s0.pos + j),
                    8 * (s0.pos + j) + 8,
                ));
            }
            assert(v@ =~= bytes_from_bits(taken));
            assert(ns.stream() =~= s0.stream().skip(8 * n as int));
        }
        Ok(v)
    }
}

impl<'a> BitStream for BitReader<'a> {
    open spec fn ok(&self) -> bool {
        self.wf()
    }

    open spec fn bits(&self) -> Seq<bool> {
        self.stream()
    }

    fn next_bit(&mut self) -> (r: Option<bool>) {
        match self.get_bit() {
            Ok(b) => Some(b),
            Err(_) => None,
        }
    }
}

} // verus!
