//! Canonical Huffman tables, built from per-symbol code lengths exactly as
//! RFC 1951 assigns them: codes of a shorter length sort before codes of a
//! longer one, and symbols of equal length take codes in symbol order.
//!
//! The table is modelled entirely by the code-length array it was built
//! from.  `count_len` counts the symbols of one length, `syms_with_len`
//! lists them in symbol order, `first_code` is the canonical value of the
//! first code of a length, and `spec_decode` walks one codeword off the
//! front of a bit stream, length level by length level.

use vstd::prelude::*;

use crate::Error;
use crate::helper::exp2;
use crate::helper::lemma_exp2_mono;

verus! {

/// How many symbols of the array have code length `l`.
pub open spec fn count_len(lengths: Seq<u8>, l: u8) -> nat
    decreases lengths.len(),
{
    if lengths.len() == 0 {
        0
    } else {
        count_len(lengths.drop_last(), l) + if lengths.last() == l {
            1nat
        } else {
            0nat
        }
    }
}

/// The symbols of code length `l`, in symbol order.
pub open spec fn syms_with_len(lengths: Seq<u8>, l: u8) -> Seq<u16>
    decreases lengths.len(),
{
    if lengths.len() == 0 {
        Seq::empty()
    } else if lengths.last() == l {
        syms_with_len(lengths.drop_last(), l).push((lengths.len() - 1) as u16)
    } else {
        syms_with_len(lengths.drop_last(), l)
    }
}

/// The symbols of code lengths 1 through `l`, shorter lengths first,
/// symbol order within a length.
pub open spec fn buckets_upto(lengths: Seq<u8>, l: int) -> Seq<u16>
    decreases l,
{
    if l <= 0 {
        Seq::empty()
    } else {
        buckets_upto(lengths, l - 1) + syms_with_len(lengths, l as u8)
    }
}

/// All coded symbols in canonical order: by length, then by symbol index.
pub open spec fn code_order(lengths: Seq<u8>) -> Seq<u16> {
    buckets_upto(lengths, 15)
}

/// How many symbols have code lengths 1 through `l`.
pub open spec fn sum_counts(lengths: Seq<u8>, l: int) -> nat
    decreases l,
{
    if l <= 0 {
        0
    } else {
        sum_counts(lengths, l - 1) + count_len(lengths, l as u8)
    }
}

/// The canonical value of the first code of length `l`.
pub open spec fn first_code(lengths: Seq<u8>, l: int) -> nat
    decreases l,
{
    if l <= 1 {
        0
    } else {
        2 * (first_code(lengths, l - 1) + count_len(lengths, (l - 1) as u8))
    }
}

/// The canonical code value assigned to symbol `s`.
pub open spec fn code_value(lengths: Seq<u8>, s: int) -> nat {
    first_code(lengths, lengths[s] as int) + count_len(lengths.take(s), lengths[s])
}

/// The `w` low bits of `v`, most significant first — the order in which a
/// codeword's bits enter the stream.
pub open spec fn be_bits(v: nat, w: nat) -> Seq<bool>
    decreases w,
{
    if w == 0 {
        Seq::empty()
    } else {
        be_bits(v / 2, (w - 1) as nat).push(v % 2 == 1)
    }
}

/// The canonical codeword of symbol `s` as it stands in the bit stream.
pub open spec fn codeword(lengths: Seq<u8>, s: int) -> Seq<bool> {
    be_bits(code_value(lengths, s), lengths[s] as nat)
}

/// One step of canonical decoding, entering length level `k` with `acc`
/// the value read so far relative to level `k`'s first code, and `pos` the
/// number of symbols of shorter lengths.
pub open spec fn spec_decode_at(
    lengths: Seq<u8>,
    bits: Seq<bool>,
    k: int,
    acc: int,
    pos: int,
) -> Result<(u16, int), Error>
    decreases 16 - k,
{
    if k > 15 {
        Err(Error::OverlongCode)
    } else if bits.len() == 0 {
        Err(Error::Truncated)
    } else {
        let acc2 = 2 * acc + if bits[0] {
            1int
        } else {
            0int
        };
        let cnt = count_len(lengths, k as u8) as int;
        if acc2 < cnt {
            Ok((code_order(lengths)[pos + acc2], k))
        } else {
            spec_decode_at(lengths, bits.skip(1), k + 1, acc2 - cnt, pos + cnt)
        }
    }
}

/// The symbol the next bits of the stream spell under the canonical code of
/// `lengths`, with the number of bits it occupies; or the exact error.
pub open spec fn spec_decode(lengths: Seq<u8>, bits: Seq<bool>) -> Result<(u16, int), Error> {
    spec_decode_at(lengths, bits, 1, 0, 0)
}

/// A source of single bits, front of `bits()` first.
pub trait BitStream {
    /// Whether the stream is in a readable state.
    spec fn ok(&self) -> bool;

    /// The bits still to come.
    spec fn bits(&self) -> Seq<bool>;

    /// The next bit, or `None` when the stream is spent.
    fn next_bit(&mut self) -> (r: Option<bool>)
        requires
            old(self).ok(),
        ensures
            final(self).ok(),
            old(self).bits().len() == 0 ==> r is None && final(self).bits() == old(self).bits(),
            old(self).bits().len() > 0 ==> r == Some(old(self).bits()[0]) && final(self).bits()
                == old(self).bits().skip(1),
    ;
}

/// A bit stream spelled out as a list of 0/1 flags, consumed from the end
/// of the list first.
pub struct BitList {
    flags: Vec<u8>,
}

impl BitList {
    /// The stream whose successive bits are `flags.last()`, then the one
    /// before it, and so on.
    pub fn from_flags(flags: Vec<u8>) -> (r: BitList)
        ensures
            r.ok(),
            r.bits().len() == flags@.len(),
            forall|i: int|
                0 <= i < flags@.len() ==> r.bits()[i] == (flags@[flags@.len() - 1 - i] != 0),
    {
        BitList { flags }
    }

    pub fn is_empty(&self) -> (r: bool)
        ensures
            r == (self.bits().len() == 0),
    {
        self.flags.len() == 0
    }
}

impl BitStream for BitList {
    closed spec fn ok(&self) -> bool {
        true
    }

    closed spec fn bits(&self) -> Seq<bool> {
        Seq::new(self.flags@.len(), |i: int| self.flags@[self.flags@.len() - 1 - i] != 0)
    }

    fn next_bit(&mut self) -> (r: Option<bool>) {
        let r = match self.flags.pop() {
            Some(x) => Some(x != 0),
            None => None,
        };
        proof {
            if old(self).flags@.len() > 0 {
                assert(self.bits() =~= old(self).bits().skip(1));
            } else {
                assert(self.bits() =~= old(self).bits());
            }
        }
        r
    }
}

// ---- the canonical round trip ----

/// A valid code-length array: no level of the code is oversubscribed — at
/// every length, the first canonical code plus the number of codes of that
/// length still fits in that many bits.
pub open spec fn valid_lengths(lengths: Seq<u8>) -> bool {
    &&& lengths.len() <= 65535
    &&& forall|i: int| 0 <= i < lengths.len() ==> lengths[i] <= 15
    &&& forall|l: int|
        1 <= l <= 15 ==> first_code(lengths, l) + count_len(lengths, l as u8) <= exp2(l as nat)
}

/// The value of the first `j` bits of symbol `s`'s codeword.
spec fn prefix_val(lengths: Seq<u8>, s: int, j: int) -> int {
    (code_value(lengths, s) / exp2((lengths[s] as int - j) as nat)) as int
}

/// The first code of level `j` plus its count; zero at level zero.
spec fn level_end(lengths: Seq<u8>, j: int) -> int {
    if j <= 0 {
        0
    } else {
        (first_code(lengths, j) + count_len(lengths, j as u8)) as int
    }
}

/// A coded symbol stands in its length's bucket at the index counting the
/// earlier symbols of the same length.
proof fn lemma_syms_rank(lengths: Seq<u8>, s: int)
    requires
        0 <= s < lengths.len(),
        lengths[s] != 0,
    ensures
        count_len(lengths.take(s), lengths[s]) < syms_with_len(lengths, lengths[s]).len(),
        syms_with_len(lengths, lengths[s])[count_len(lengths.take(s), lengths[s]) as int] == s
            as u16,
    decreases lengths.len(),
{
    let l = lengths[s];
    let dl = lengths.drop_last();
    lemma_syms_with_len_count(lengths, l);
    lemma_syms_with_len_count(dl, l);
    if s == lengths.len() - 1 {
        assert(lengths.take(s) =~= dl);
    } else {
        assert(dl.take(s) =~= lengths.take(s));
        lemma_syms_rank(dl, s);
    }
}

/// The canonical code value of a coded symbol fits its length.
proof fn lemma_code_value_bound(lengths: Seq<u8>, s: int)
    requires
        valid_lengths(lengths),
        0 <= s < lengths.len(),
        lengths[s] != 0,
    ensures
        code_value(lengths, s) < exp2(lengths[s] as nat),
        count_len(lengths.take(s), lengths[s]) < count_len(lengths, lengths[s]),
{
    lemma_count_len_take_succ(lengths, lengths[s], s);
    lemma_count_len_take_le(lengths, lengths[s], s + 1);
}

/// A codeword holds as many bits as the code's length.
proof fn lemma_be_bits_len(v: nat, w: nat)
    ensures
        be_bits(v, w).len() == w,
    decreases w,
{
    if w > 0 {
        lemma_be_bits_len(v / 2, (w - 1) as nat);
    }
}

/// A codeword spells the binary digits of its value, most significant
/// first.
proof fn lemma_be_bits_index(v: nat, w: nat, i: int)
    requires
        0 <= i < w,
    ensures
        be_bits(v, w)[i] == ((v / exp2((w - 1 - i) as nat)) % 2 == 1),
    decreases w,
{
    lemma_be_bits_len(v, w);
    lemma_be_bits_len(v / 2, (w - 1) as nat);
    if i == w - 1 {
        vstd::arithmetic::div_mod::lemma_div_basics(v as int);
        assert(exp2(0) == 1);
    } else {
        lemma_be_bits_index(v / 2, (w - 1) as nat, i);
        let m = (w - 2 - i) as nat;
        crate::helper::lemma_exp2_pos(m);
        vstd::arithmetic::div_mod::lemma_div_denominator(v as int, 2, exp2(m) as int);
        assert(exp2((m + 1) as nat) == 2 * exp2(m));
        assert((v / 2) / exp2(m) == v / exp2((m + 1) as nat));
        assert((w - 1 - i) as nat == (m + 1) as nat);
    }
}

/// Every proper prefix of a codeword stays at or past its level's end, so
/// the decoder does not stop early.
proof fn lemma_prefix_ge(lengths: Seq<u8>, s: int, k: int)
    requires
        valid_lengths(lengths),
        0 <= s < lengths.len(),
        lengths[s] != 0,
        1 <= k < lengths[s] as int,
    ensures
        prefix_val(lengths, s, k) >= level_end(lengths, k),
    decreases lengths[s] as int - k,
{
    let L = lengths[s] as int;
    let cv = code_value(lengths, s) as int;
    let ek = exp2((L - k - 1) as nat) as int;
    crate::helper::lemma_exp2_pos((L - k - 1) as nat);
    vstd::arithmetic::div_mod::lemma_div_denominator(cv, ek, 2);
    assert(exp2((L - k) as nat) == 2 * exp2((L - k - 1) as nat));
    assert(prefix_val(lengths, s, k) == (cv / ek) / 2);
    if k == L - 1 {
        vstd::arithmetic::div_mod::lemma_div_basics(cv);
        assert(exp2(0) == 1);
        assert(cv / ek == cv);
        assert(first_code(lengths, L) == 2 * level_end(lengths, L - 1));
        assert(cv >= first_code(lengths, L));
        vstd::arithmetic::div_mod::lemma_div_is_ordered(
            2 * level_end(lengths, L - 1),
            cv,
            2,
        );
        assert((2 * level_end(lengths, L - 1)) / 2 == level_end(lengths, L - 1))
            by (nonlinear_arith);
    } else {
        lemma_prefix_ge(lengths, s, k + 1);
        assert(prefix_val(lengths, s, k + 1) == cv / ek);
        assert(first_code(lengths, k + 1) == 2 * level_end(lengths, k));
        assert(cv / ek >= 2 * level_end(lengths, k));
        vstd::arithmetic::div_mod::lemma_div_is_ordered(2 * level_end(lengths, k), cv / ek, 2);
        assert((2 * level_end(lengths, k)) / 2 == level_end(lengths, k)) by (nonlinear_arith);
    }
}

/// From any level of a codeword, decoding finishes on the symbol itself.
proof fn lemma_decode_from(lengths: Seq<u8>, s: int, rest: Seq<bool>, k: int)
    requires
        valid_lengths(lengths),
        0 <= s < lengths.len(),
        lengths[s] != 0,
        1 <= k <= lengths[s] as int,
    ensures
        spec_decode_at(
            lengths,
            codeword(lengths, s).skip(k - 1) + rest,
            k,
            prefix_val(lengths, s, k - 1) - level_end(lengths, k - 1),
            sum_counts(lengths, k - 1) as int,
        ) == Ok::<(u16, int), Error>((s as u16, lengths[s] as int)),
    decreases lengths[s] as int - k,
{
    let L = lengths[s] as int;
    let cv = code_value(lengths, s);
    let cw = codeword(lengths, s);
    lemma_be_bits_len(cv, L as nat);
    let bits = cw.skip(k - 1) + rest;
    assert(bits.len() == (L - (k - 1)) + rest.len());
    assert(bits[0] == cw[k - 1]);
    lemma_be_bits_index(cv, L as nat, k - 1);
    let x = cv as int / exp2((L - k) as nat) as int;
    assert(bits[0] == (x % 2 == 1));
    crate::helper::lemma_exp2_pos((L - k) as nat);
    vstd::arithmetic::div_mod::lemma_div_denominator(cv as int, exp2((L - k) as nat) as int, 2);
    assert(exp2((L - k + 1) as nat) == 2 * exp2((L - k) as nat));
    assert(prefix_val(lengths, s, k - 1) == x / 2);
    vstd::arithmetic::div_mod::lemma_fundamental_div_mod(x, 2);
    assert(x == 2 * (x / 2) + x % 2);
    let acc = prefix_val(lengths, s, k - 1) - level_end(lengths, k - 1);
    let acc2 = 2 * acc + (if bits[0] {
        1int
    } else {
        0int
    });
    assert(first_code(lengths, k) == 2 * level_end(lengths, k - 1));
    assert(acc2 == x - first_code(lengths, k));
    let cnt = count_len(lengths, k as u8) as int;
    if k == L {
        vstd::arithmetic::div_mod::lemma_div_basics(cv as int);
        assert(exp2(0) == 1);
        assert(x == cv);
        lemma_code_value_bound(lengths, s);
        let rank = count_len(lengths.take(s), lengths[s]) as int;
        assert(acc2 == rank);
        assert(acc2 < cnt);
        lemma_buckets_index(lengths, L, 15, rank);
        lemma_syms_rank(lengths, s);
        lemma_syms_with_len_count(lengths, lengths[s]);
        assert(code_order(lengths)[sum_counts(lengths, k - 1) + acc2] == s as u16);
    } else {
        lemma_prefix_ge(lengths, s, k);
        assert(x >= level_end(lengths, k));
        assert(acc2 >= cnt);
        assert(bits.skip(1) =~= cw.skip(k) + rest);
        assert(sum_counts(lengths, k) == sum_counts(lengths, k - 1) + count_len(
            lengths,
            k as u8,
        ));
        lemma_decode_from(lengths, s, rest, k + 1);
    }
}

/// The canonical round trip: under a valid code-length array, decoding the
/// canonical codeword of any coded symbol — followed by anything at all —
/// returns exactly that symbol and consumes exactly its code length.
pub proof fn lemma_decode_codeword(lengths: Seq<u8>, s: int, rest: Seq<bool>)
    requires
        valid_lengths(lengths),
        0 <= s < lengths.len(),
        lengths[s] != 0,
    ensures
        spec_decode(lengths, codeword(lengths, s) + rest) == Ok::<(u16, int), Error>(
            (s as u16, lengths[s] as int),
        ),
{
    let L = lengths[s] as int;
    let cv = code_value(lengths, s);
    lemma_decode_from(lengths, s, rest, 1);
    assert(codeword(lengths, s).skip(0) =~= codeword(lengths, s));
    lemma_code_value_bound(lengths, s);
    crate::helper::lemma_exp2_pos((L - 1) as nat);
    assert(cv as int / exp2(L as nat) as int == 0) by (nonlinear_arith)
        requires 0 <= cv < exp2(L as nat);
    assert(prefix_val(lengths, s, 0) == 0);
}

/// A built canonical Huffman table: sixteen per-length symbol counts and
/// the coded symbols in canonical order.
pub struct Huffman {
    order: Vec<u16>,
    counts: Vec<u16>,
    lengths: Ghost<Seq<u8>>,
}

// ---- facts about the counting and bucketing functions ----

/// No length occurs more often than there are symbols.
pub proof fn lemma_count_len_le(lengths: Seq<u8>, l: u8)
    ensures
        count_len(lengths, l) <= lengths.len(),
    decreases lengths.len(),
{
    if lengths.len() > 0 {
        lemma_count_len_le(lengths.drop_last(), l);
    }
}

/// Counting a prefix counts no more than the whole.
pub proof fn lemma_count_len_take_le(lengths: Seq<u8>, l: u8, k: int)
    requires
        0 <= k <= lengths.len(),
    ensures
        count_len(lengths.take(k), l) <= count_len(lengths, l),
    decreases lengths.len() - k,
{
    if k < lengths.len() {
        lemma_count_len_take_le(lengths, l, k + 1);
        assert(lengths.take(k + 1).drop_last() =~= lengths.take(k));
        assert(lengths.take(k + 1).last() == lengths[k]);
    } else {
        assert(lengths.take(k) =~= lengths);
    }
}

/// Extending a prefix by one symbol raises exactly its length's count.
pub proof fn lemma_count_len_take_succ(lengths: Seq<u8>, l: u8, k: int)
    requires
        0 <= k < lengths.len(),
    ensures
        count_len(lengths.take(k + 1), l) == count_len(lengths.take(k), l) + if lengths[k] == l {
            1nat
        } else {
            0nat
        },
{
    assert(lengths.take(k + 1).drop_last() =~= lengths.take(k));
    assert(lengths.take(k + 1).last() == lengths[k]);
}

/// As many symbols carry a length as the order array holds.
pub proof fn lemma_syms_with_len_count(lengths: Seq<u8>, l: u8)
    ensures
        syms_with_len(lengths, l).len() == count_len(lengths, l),
    decreases lengths.len(),
{
    if lengths.len() > 0 {
        lemma_syms_with_len_count(lengths.drop_last(), l);
    }
}

/// Every listed symbol is an index into the length array.
pub proof fn lemma_syms_with_len_bound(lengths: Seq<u8>, l: u8)
    ensures
        forall|j: int|
            0 <= j < syms_with_len(lengths, l).len() ==> (#[trigger] syms_with_len(lengths, l)[j]
                as int) < lengths.len(),
    decreases lengths.len(),
{
    if lengths.len() > 0 {
        let dl = lengths.drop_last();
        lemma_syms_with_len_bound(dl, l);
        assert forall|j: int| 0 <= j < syms_with_len(lengths, l).len() implies (
        #[trigger] syms_with_len(lengths, l)[j] as int) < lengths.len() by {
            if lengths.last() == l && j == syms_with_len(dl, l).len() {
            } else {
                assert(syms_with_len(lengths, l)[j] == syms_with_len(dl, l)[j]);
            }
        }
    }
}

/// The bucket concatenation is as long as the level counts say.
pub proof fn lemma_buckets_len(lengths: Seq<u8>, l: int)
    ensures
        buckets_upto(lengths, l).len() == sum_counts(lengths, l),
    decreases l,
{
    if l > 0 {
        lemma_buckets_len(lengths, l - 1);
        lemma_syms_with_len_count(lengths, l as u8);
    }
}

/// Level sums grow with the level.
pub proof fn lemma_sum_counts_mono(lengths: Seq<u8>, a: int, b: int)
    requires
        a <= b,
    ensures
        sum_counts(lengths, a) <= sum_counts(lengths, b),
    decreases b - a,
{
    if a < b {
        lemma_sum_counts_mono(lengths, a, b - 1);
    }
}

/// Dropping the last symbol lowers by one the level sum that covers its
/// length, and no other.
pub proof fn lemma_sum_counts_drop(lengths: Seq<u8>, l: int)
    requires
        lengths.len() > 0,
        l <= 15,
    ensures
        sum_counts(lengths, l) == sum_counts(lengths.drop_last(), l) + if 1 <= lengths.last()
            && lengths.last() <= l {
            1nat
        } else {
            0nat
        },
    decreases l,
{
    if l > 0 {
        lemma_sum_counts_drop(lengths, l - 1);
    }
}

/// The coded symbols are the symbols whose length is not zero.
pub proof fn lemma_sum_counts_total(lengths: Seq<u8>)
    requires
        forall|i: int| 0 <= i < lengths.len() ==> lengths[i] <= 15,
    ensures
        sum_counts(lengths, 15) + count_len(lengths, 0) == lengths.len(),
    decreases lengths.len(),
{
    if lengths.len() == 0 {
        lemma_sum_counts_zero(lengths, 15);
    } else {
        let dl = lengths.drop_last();
        assert(forall|i: int| 0 <= i < dl.len() ==> dl[i] == lengths[i] && lengths[i] <= 15);
        lemma_sum_counts_total(dl);
        lemma_sum_counts_drop(lengths, 15);
    }
}

/// An empty array has empty level sums.
pub proof fn lemma_sum_counts_zero(lengths: Seq<u8>, l: int)
    requires
        lengths.len() == 0,
    ensures
        sum_counts(lengths, l) == 0,
    decreases l,
{
    if l > 0 {
        lemma_sum_counts_zero(lengths, l - 1);
    }
}

/// Where a length's bucket stands inside the full canonical order.
pub proof fn lemma_buckets_index(lengths: Seq<u8>, l: int, m: int, j: int)
    requires
        1 <= l <= m,
        0 <= j < count_len(lengths, l as u8),
    ensures
        sum_counts(lengths, l - 1) + j < buckets_upto(lengths, m).len(),
        buckets_upto(lengths, m)[sum_counts(lengths, l - 1) + j] == syms_with_len(
            lengths,
            l as u8,
        )[j],
    decreases m,
{
    lemma_buckets_len(lengths, m);
    lemma_buckets_len(lengths, m - 1);
    lemma_syms_with_len_count(lengths, l as u8);
    if m == l {
        lemma_buckets_len(lengths, l - 1);
    } else {
        lemma_buckets_index(lengths, l, m - 1, j);
        lemma_sum_counts_mono(lengths, l, m - 1);
    }
}

/// Every entry of the canonical order is an index into the length array.
pub proof fn lemma_code_order_bound(lengths: Seq<u8>, idx: int)
    requires
        0 <= idx < sum_counts(lengths, 15),
    ensures
        (code_order(lengths)[idx] as int) < lengths.len(),
{
    lemma_index_in_bucket(lengths, idx, 15);
    let l = choose|l: int|
        1 <= l <= 15 && sum_counts(lengths, l - 1) <= idx && idx < #[trigger] sum_counts(
            lengths,
            l,
        );
    lemma_syms_with_len_count(lengths, l as u8);
    lemma_buckets_index(lengths, l, 15, idx - sum_counts(lengths, l - 1));
    lemma_syms_with_len_bound(lengths, l as u8);
}

/// Every index into the canonical order falls inside some length's bucket.
pub proof fn lemma_index_in_bucket(lengths: Seq<u8>, idx: int, m: int)
    requires
        1 <= m,
        0 <= idx < sum_counts(lengths, m),
    ensures
        exists|l: int|
            1 <= l <= m && sum_counts(lengths, l - 1) <= idx && idx < #[trigger] sum_counts(
                lengths,
                l,
            ),
    decreases m,
{
    if idx >= sum_counts(lengths, m - 1) {
        assert(1 <= m <= m && sum_counts(lengths, m - 1) <= idx && idx < sum_counts(lengths, m));
    } else {
        lemma_index_in_bucket(lengths, idx, m - 1);
    }
}

impl Huffman {
    /// The code-length array this table was built from.
    pub closed spec fn code_lengths(self) -> Seq<u8> {
        self.lengths@
    }

    /// The counts and the order array say exactly what the code-length
    /// array says.
    pub closed spec fn wf(self) -> bool {
        &&& self.lengths@.len() <= 65535
        &&& forall|i: int| 0 <= i < self.lengths@.len() ==> self.lengths@[i] <= 15
        &&& self.counts@.len() == 16
        &&& forall|l: int|
            1 <= l <= 15 ==> (#[trigger] self.counts@[l]) as nat == count_len(
                self.lengths@,
                l as u8,
            )
        &&& self.order@ == code_order(self.lengths@)
    }

    /// Builds the canonical table of a code-length array, zero meaning the
    /// symbol is unused.
    pub fn new(lengths: &[u8]) -> (r: Huffman)
        requires
            lengths@.len() <= 65535,
            forall|i: int| 0 <= i < lengths@.len() ==> lengths@[i] <= 15,
        ensures
            r.wf(),
            r.code_lengths() == lengths@,
    {
        let ghost ls = lengths@;
        let n = lengths.len();
        let mut counts: Vec<u16> = vec![0u16; 16];
        let mut i: usize = 0;
        while i < n
            invariant
                i <= n,
                n == ls.len() <= 65535,
                forall|q: int| 0 <= q < ls.len() ==> ls[q] <= 15,
                ls == lengths@,
                counts@.len() == 16,
                forall|l: int|
                    0 <= l <= 15 ==> (#[trigger] counts@[l]) as nat == count_len(
                        ls.take(i as int),
                        l as u8,
                    ),
            decreases n - i,
        {
            let len = lengths[i];
            proof {
                lemma_count_len_le(ls.take(i as int), len);
                assert forall|l: u8|
                    #[trigger] count_len(ls.take(i as int + 1), l) == count_len(
                        ls.take(i as int),
                        l,
                    ) + if ls[i as int] == l {
                        1nat
                    } else {
                        0nat
                    } by {
                    lemma_count_len_take_succ(ls, l, i as int);
                }
            }
            let c = counts[len as usize];
            counts[len as usize] = c + 1;
            i = i + 1;
        }
        proof {
            assert(ls.take(n as int) =~= ls);
        }

        let zeros = counts[0] as usize;
        proof {
            lemma_count_len_le(ls, 0);
            lemma_sum_counts_total(ls);
            lemma_buckets_len(ls, 15);
        }
        let coded = n - zeros;
        let mut order: Vec<u16> = vec![0u16; coded];

        let mut positions: Vec<u16> = vec![0u16; 16];
        let mut pos: u16 = 0;
        let mut l: usize = 1;
        while l < 16
            invariant
                1 <= l <= 16,
                n == ls.len() <= 65535,
                forall|q: int| 0 <= q < ls.len() ==> ls[q] <= 15,
                counts@.len() == 16,
                positions@.len() == 16,
                forall|q: int|
                    1 <= q <= 15 ==> (#[trigger] counts@[q]) as nat == count_len(ls, q as u8),
                pos as nat == sum_counts(ls, l as int - 1),
                forall|q: int|
                    1 <= q < l ==> (#[trigger] positions@[q]) as nat == sum_counts(ls, q - 1),
            decreases 16 - l,
        {
            proof {
                lemma_sum_counts_mono(ls, l as int, 15);
                lemma_sum_counts_total(ls);
            }
            positions[l] = pos;
            pos = pos + counts[l];
            l = l + 1;
        }

        let mut sym: usize = 0;
        while sym < n
            invariant
                sym <= n,
                n == ls.len() <= 65535,
                ls == lengths@,
                forall|q: int| 0 <= q < ls.len() ==> ls[q] <= 15,
                counts@.len() == 16,
                positions@.len() == 16,
                order@.len() == sum_counts(ls, 15),
                forall|q: int|
                    1 <= q <= 15 ==> (#[trigger] positions@[q]) as nat == sum_counts(ls, q - 1)
                        + count_len(ls.take(sym as int), q as u8),
                forall|q: int, j: int|
                    1 <= q <= 15 && 0 <= j < count_len(ls.take(sym as int), q as u8)
                        ==> order@[sum_counts(ls, q - 1) + j] == #[trigger] syms_with_len(
                        ls.take(sym as int),
                        q as u8,
                    )[j],
            decreases n - sym,
        {
            let ghost pre = ls.take(sym as int);
            let ghost post = ls.take(sym as int + 1);
            proof {
                assert(post.drop_last() =~= pre);
                assert(post.last() == ls[sym as int]);
                assert forall|q: u8|
                    #[trigger] count_len(post, q) == count_len(pre, q) + if ls[sym as int] == q {
                        1nat
                    } else {
                        0nat
                    } by {
                    lemma_count_len_take_succ(ls, q, sym as int);
                }
            }
            let len = lengths[sym];
            if len != 0 {
                proof {
                    lemma_count_len_take_le(ls, len, sym as int + 1);
                    lemma_sum_counts_mono(ls, len as int, 15);
                    lemma_sum_counts_total(ls);
                    lemma_syms_with_len_count(pre, len);
                    assert(count_len(post, len) == count_len(pre, len) + 1);
                    assert(count_len(pre, len) + 1 <= count_len(ls, len));
                    assert(sum_counts(ls, len as int) == sum_counts(ls, len as int - 1)
                        + count_len(ls, len));
                    assert((positions@[len as int] as nat) + 1 <= sum_counts(ls, 15));
                }
                let p = positions[len as usize];
                let ghost order0 = order@;
                let ghost pi = p as int;
                order[p as usize] = sym as u16;
                positions[len as usize] = p + 1;
                proof {
                    assert(order@ == order0.update(pi, sym as u16));
                    assert(syms_with_len(post, len) =~= syms_with_len(pre, len).push(
                        sym as u16,
                    ));
                    assert(forall|q: u8|
                        q != len ==> syms_with_len(post, q) =~= syms_with_len(pre, q));
                    assert forall|q: int, j: int|
                        1 <= q <= 15 && 0 <= j < count_len(post, q as u8) implies order@[sum_counts(
                        ls,
                        q - 1,
                    ) + j] == #[trigger] syms_with_len(post, q as u8)[j] by {
                        let idx = sum_counts(ls, q - 1) + j;
                        if q == len as int && j == count_len(pre, len) {
                            assert(idx == pi);
                            assert(syms_with_len(post, len)[j] == sym as u16);
                        } else {
                            assert(count_len(post, q as u8) == count_len(pre, q as u8) + if q
                                == len as int {
                                1nat
                            } else {
                                0nat
                            });
                            assert(j < count_len(post, q as u8));
                            if q == len as int {
                                // an earlier slot of the same bucket
                                assert(j < count_len(pre, len));
                                assert(idx < pi);
                                assert(syms_with_len(post, len)[j] == syms_with_len(pre, len)[j]);
                            } else if q < len as int {
                                lemma_count_len_take_le(ls, q as u8, sym as int);
                                assert(j < count_len(ls, q as u8));
                                assert(sum_counts(ls, q) == sum_counts(ls, q - 1) + count_len(
                                    ls,
                                    q as u8,
                                ));
                                lemma_sum_counts_mono(ls, q, len as int - 1);
                                assert(idx < sum_counts(ls, len as int - 1));
                                assert(idx < pi);
                            } else {
                                lemma_sum_counts_mono(ls, len as int, q - 1);
                                assert(pi < sum_counts(ls, len as int));
                                assert(idx >= sum_counts(ls, q - 1) >= sum_counts(
                                    ls,
                                    len as int,
                                ));
                                assert(idx > pi);
                                lemma_count_len_take_le(ls, q as u8, sym as int);
                                assert(j < count_len(ls, q as u8));
                                assert(sum_counts(ls, q) == sum_counts(ls, q - 1) + count_len(
                                    ls,
                                    q as u8,
                                ));
                                lemma_sum_counts_mono(ls, q, 15);
                                assert(idx < sum_counts(ls, 15));
                            }
                            assert(order@[idx] == order0[idx]);
                            assert(syms_with_len(post, q as u8)[j] == syms_with_len(
                                pre,
                                q as u8,
                            )[j]);
                        }
                    }
                }
            } else {
                proof {
                    assert(forall|q: u8|
                        q != 0 ==> syms_with_len(post, q) =~= syms_with_len(pre, q));
                }
            }
            sym = sym + 1;
        }
        proof {
            assert(ls.take(n as int) =~= ls);
        }

        let r = Huffman { order, counts, lengths: Ghost(lengths@) };
        proof {
            lemma_buckets_len(ls, 15);
            assert forall|idx: int| 0 <= idx < r.order@.len() implies r.order@[idx] == code_order(
                ls,
            )[idx] by {
                lemma_index_in_bucket(ls, idx, 15);
                let l = choose|l: int|
                    1 <= l <= 15 && sum_counts(ls, l - 1) <= idx && idx < #[trigger] sum_counts(
                        ls,
                        l,
                    );
                let j = idx - sum_counts(ls, l - 1);
                lemma_buckets_index(ls, l, 15, j);
            }
            assert(r.order@ =~= code_order(ls));
        }
        r
    }

    /// Decodes one symbol from the stream, one bit at a time: exactly the
    /// symbol whose canonical codeword the next bits spell, with the code
    /// running past 15 bits, or the stream running dry, each its own error.
    pub fn decode<S: BitStream>(&self, bits: &mut S) -> (r: Result<u16, Error>)
        requires
            self.wf(),
            old(bits).ok(),
        ensures
            final(bits).ok(),
            match spec_decode(self.code_lengths(), old(bits).bits()) {
                Ok(sk) => r == Ok::<u16, Error>(sk.0) && final(bits).bits() == old(
                    bits,
                ).bits().skip(sk.1) && (sk.0 as int) < self.code_lengths().len() && 1 <= sk.1
                    <= old(bits).bits().len(),
                Err(e) => r == Err::<u16, Error>(e),
            },
    {
        let ghost ls = self.code_lengths();
        let ghost b0 = old(bits).bits();
        let mut acc: u16 = 0;
        let mut pos: u16 = 0;
        let mut have: usize = 1;
        proof {
            crate::helper::lemma_exp2_vals();
            lemma_buckets_len(ls, 15);
            lemma_sum_counts_total(ls);
        }
        loop
            invariant
                self.wf(),
                bits.ok(),
                ls == self.code_lengths(),
                b0 == old(bits).bits(),
                1 <= have <= 16,
                bits.bits() == b0.skip(have as int - 1),
                b0.len() >= have - 1,
                (acc as nat) < exp2((have - 1) as nat),
                pos as nat == sum_counts(ls, have as int - 1),
                spec_decode_at(ls, bits.bits(), have as int, acc as int, pos as int)
                    == spec_decode(ls, b0),
            decreases 16 - have,
        {
            proof {
                crate::helper::lemma_exp2_vals();
                lemma_buckets_len(ls, 15);
                lemma_sum_counts_total(ls);
            }
            if have > 15 {
                return Err(Error::OverlongCode);
            }
            proof {
                lemma_sum_counts_mono(ls, have as int, 15);
            }
            let ghost bcur = bits.bits();
            let ob = match bits.next_bit() {
                Some(v) => v,
                None => {
                    proof {
                        assert(bcur.len() == 0);
                        assert(spec_decode_at(ls, bcur, have as int, acc as int, pos as int)
                            == Err::<(u16, int), Error>(Error::Truncated));
                    }
                    return Err(Error::Truncated);
                },
            };
            let ghost bprev = b0.skip(have as int - 1);
            proof {
                assert(bprev.skip(1) =~= b0.skip(have as int));
                lemma_exp2_mono((have - 1) as nat, 14);
            }
            let bit: u16 = if ob {
                1
            } else {
                0
            };
            acc = 2 * acc + bit;
            let cnt = self.counts[have];
            proof {
                assert(cnt as nat == count_len(ls, have as u8));
                assert(sum_counts(ls, have as int) == sum_counts(ls, have as int - 1) + count_len(
                    ls,
                    have as u8,
                ));
            }
            if acc < cnt {
                proof {
                    assert(((pos + acc) as int) < sum_counts(ls, have as int));
                    assert(((pos + acc) as int) < sum_counts(ls, 15));
                    lemma_code_order_bound(ls, (pos + acc) as int);
                }
                let sym = self.order[(pos as usize) + (acc as usize)];
                return Ok(sym);
            }
            pos = pos + cnt;
            acc = acc - cnt;
            have = have + 1;
        }
    }
}

} // verus!
