//! DEFLATE decompression (RFC 1951).
//!
//! Canonical Huffman codes are decoded bit by bit against per-length counts,
//! rather than through a lookup table. Every loop is driven by untrusted
//! bytes, so every one is bounded; the output cap stops a small stream from
//! asking for an enormous result.

use vstd::prelude::*;
use vstd::arithmetic::power2::{pow2, lemma_pow2_pos, lemma_pow2_unfold, lemma_pow2_adds, lemma2_to64};
use vstd::arithmetic::div_mod::{lemma_fundamental_div_mod_converse, lemma_div_denominator};
use vstd::bits::{
    lemma_u32_shr_is_div,
    lemma_u32_shl_is_mul,
    lemma_u32_low_bits_mask_is_mod,
    low_bits_mask,
    lemma_u32_pow2_no_overflow,
};
use crate::zip::le16;

verus! {

/// The largest single stream this will produce.
pub const MAX_OUTPUT: usize = 0x2000_0000;

/// Why a byte string is not DEFLATE. Nothing here panics on any input.
#[derive(Clone, Copy, PartialEq, Eq, Structural, Debug)]
pub enum InflateError {
    /// The stream ended inside a block.
    Truncated,
    /// `BTYPE = 11`, which the format reserves.
    ReservedBlockType,
    /// A stored block whose length and one's complement disagree.
    StoredLengthMismatch,
    /// A Huffman code that is not in the tree.
    BadCode,
    /// Code lengths that do not form a valid canonical Huffman tree.
    BadCodeLengths,
    /// A back-reference pointing before the start of the output.
    DistanceTooFar,
    /// The stream tried to produce more than `MAX_OUTPUT` bytes.
    OutputTooLarge,
}

const MAX_BITS: usize = 15;

// ------------------------------------------------------------ bit stream

/// Bit `i` of the stream: bytes in order, each least significant bit first.
pub open spec fn bit_of(b: Seq<u8>, i: int) -> int {
    (b[i / 8] as int / pow2((i % 8) as nat) as int) % 2
}

/// The `n` bits from position `p` as a number, the first bit least
/// significant: how DEFLATE packs every field but a Huffman code.
pub open spec fn bits_le(b: Seq<u8>, p: int, n: nat) -> int
    decreases n,
{
    if n == 0 {
        0
    } else {
        bit_of(b, p) + 2 * bits_le(b, p + 1, (n - 1) as nat)
    }
}

/// The `n` bits from position `p` as a number, the first bit most
/// significant: how a Huffman code is read.
pub open spec fn bits_be(b: Seq<u8>, p: int, n: nat) -> int
    decreases n,
{
    if n == 0 {
        0
    } else {
        2 * bits_be(b, p, (n - 1) as nat) + bit_of(b, p + n - 1)
    }
}

proof fn lemma_bit_of(b: Seq<u8>, i: int)
    ensures
        0 <= bit_of(b, i) <= 1,
{
    lemma_pow2_pos((i % 8) as nat);
}

pub proof fn lemma_bits_le_bounds(b: Seq<u8>, p: int, n: nat)
    ensures
        0 <= bits_le(b, p, n) < pow2(n),
    decreases n,
{
    if n == 0 {
        lemma2_to64();
    } else {
        lemma_bit_of(b, p);
        lemma_bits_le_bounds(b, p + 1, (n - 1) as nat);
        lemma_pow2_unfold(n);
    }
}

proof fn lemma_bits_be_bounds(b: Seq<u8>, p: int, n: nat)
    ensures
        0 <= bits_be(b, p, n) < pow2(n),
    decreases n,
{
    if n == 0 {
        lemma2_to64();
    } else {
        lemma_bit_of(b, p + n - 1);
        lemma_bits_be_bounds(b, p, (n - 1) as nat);
        lemma_pow2_unfold(n);
    }
}

proof fn lemma_bits_le_split(b: Seq<u8>, p: int, m: nat, n: nat)
    ensures
        bits_le(b, p, m + n) == bits_le(b, p, m) + pow2(m) * bits_le(b, p + m, n),
    decreases m,
{
    if m == 0 {
        lemma2_to64();
    } else {
        lemma_bits_le_split(b, p + 1, (m - 1) as nat, n);
        lemma_pow2_unfold(m);
        let x = bits_le(b, p + m, n);
        let q = pow2((m - 1) as nat) as int;
        assert(2 * (q * x) == (2 * q) * x) by (nonlinear_arith);
        assert((m - 1) as nat + n == (m + n - 1) as nat);
    }
}

/// The remaining `8 - k` bits of byte `i`, from its bit `k` up, are the byte
/// shifted right by `k`.
proof fn lemma_bits_le_byte_rest(b: Seq<u8>, i: int, k: nat)
    requires
        0 <= i < b.len(),
        k <= 8,
    ensures
        bits_le(b, 8 * i + k, (8 - k) as nat) == b[i] as int / pow2(k) as int,
    decreases 8 - k,
{
    let x = b[i] as int;
    lemma_pow2_pos(k);
    if k == 8 {
        lemma2_to64();
        assert(x / 256 == 0);
    } else {
        lemma_bits_le_byte_rest(b, i, k + 1);
        assert((8 * i + k) / 8 == i);
        assert((8 * i + k) % 8 == k);
        let y = x / pow2(k) as int;
        assert(bit_of(b, 8 * i + k) == y % 2);
        lemma_pow2_unfold(k + 1);
        lemma_div_denominator(x, pow2(k) as int, 2);
        assert(pow2(k) as int * 2 == pow2(k + 1) as int);
        assert(x / pow2(k + 1) as int == y / 2);
        assert(bits_le(b, 8 * i + (k + 1), (8 - (k + 1)) as nat) == y / 2);
        assert(bits_le(b, 8 * i + k, (8 - k) as nat) == bit_of(b, 8 * i + k) + 2 * bits_le(
            b,
            8 * i + k + 1,
            (8 - (k + 1)) as nat,
        ));
        assert(y == 2 * (y / 2) + y % 2);
        assert(bits_le(b, 8 * i + k, (8 - k) as nat) == y);
    }
}

proof fn lemma_bits_le_byte(b: Seq<u8>, i: int)
    requires
        0 <= i < b.len(),
    ensures
        bits_le(b, 8 * i, 8) == b[i],
{
    lemma_bits_le_byte_rest(b, i, 0);
    lemma2_to64();
}

proof fn lemma_or_shifted(buffer: u32, byte: u32, count: u32)
    requires
        count <= 24,
        byte < 256,
        buffer < (1u32 << count),
    ensures
        buffer | (byte << count) == buffer + (byte << count),
        (byte << count) == byte * (1u32 << count),
{
    assert(buffer | (byte << count) == buffer + (byte << count)) by (bit_vector)
        requires
            count <= 24,
            byte < 256,
            buffer < (1u32 << count),
    ;
    assert((byte << count) == byte * (1u32 << count)) by (bit_vector)
        requires
            count <= 24,
            byte < 256,
    ;
}

proof fn lemma_one_shl(n: u32)
    requires
        n < 32,
    ensures
        (1u32 << n) == pow2(n as nat),
        (1u32 << n) - 1 == low_bits_mask(n as nat),
{
    lemma_u32_pow2_no_overflow(n as nat);
    lemma_u32_shl_is_mul(1, n);
}

/// A reader of the bit stream. `buffer` holds the `count` bits that come
/// next, already pulled from `bytes[..at]`.
struct BitReader<'a> {
    bytes: &'a [u8],
    at: usize,
    buffer: u32,
    count: u32,
}

impl<'a> BitReader<'a> {
    /// The position of the next unread bit.
    spec fn pos(&self) -> int {
        self.at * 8 - self.count
    }

    spec fn wf(&self) -> bool {
        &&& self.at <= self.bytes@.len()
        &&& self.count <= 24
        &&& self.count <= 8 * self.at
        &&& self.buffer == bits_le(self.bytes@, self.pos(), self.count as nat)
    }

    /// Bits left in the stream.
    spec fn remaining(&self) -> int {
        8 * self.bytes@.len() - self.pos()
    }

    fn new(bytes: &'a [u8]) -> (r: BitReader<'a>)
        ensures
            r.wf(),
            r.bytes@ == bytes@,
            r.pos() == 0,
    {
        BitReader { bytes, at: 0, buffer: 0, count: 0 }
    }

    /// The next `need` bits, first bit least significant.
    fn bits(&mut self, need: u32) -> (r: Result<u32, InflateError>)
        requires
            old(self).wf(),
            need <= 16,
        ensures
            final(self).wf(),
            final(self).bytes@ == old(self).bytes@,
            r is Ok <==> old(self).pos() + need <= 8 * old(self).bytes@.len(),
            r matches Ok(v) ==> v == bits_le(old(self).bytes@, old(self).pos(), need as nat)
                && final(self).pos() == old(self).pos() + need && v < pow2(need as nat),
            r matches Err(e) ==> e == InflateError::Truncated,
            r is Err ==> final(self).pos() == old(self).pos(),
    {
        let ghost p = self.pos();
        while self.count < need
            invariant
                self.wf(),
                self.bytes@ == old(self).bytes@,
                self.pos() == p,
                p == old(self).pos(),
                need <= 16,
            decreases self.bytes@.len() - self.at,
        {
            if self.at >= self.bytes.len() {
                return Err(InflateError::Truncated);
            }
            let byte = self.bytes[self.at];
            let ghost old_buffer = self.buffer;
            let ghost old_count = self.count;
            proof {
                lemma_bits_le_bounds(self.bytes@, p, self.count as nat);
                lemma_one_shl(self.count);
                lemma_or_shifted(self.buffer, byte as u32, self.count);
                lemma_bits_le_split(self.bytes@, p, self.count as nat, 8);
                lemma_bits_le_byte(self.bytes@, self.at as int);
                assert(p + self.count == 8 * self.at);
            }
            self.buffer = self.buffer | ((byte as u32) << self.count);
            self.at = self.at + 1;
            self.count = self.count + 8;
            assert(self.buffer == old_buffer + byte * pow2(old_count as nat));
            assert(bits_le(self.bytes@, p, (old_count + 8) as nat) == old_buffer + pow2(
                old_count as nat,
            ) * byte);
            assert(self.pos() == p);
        }
        let ghost rest = (self.count - need) as nat;
        proof {
            lemma_one_shl(need);
            lemma_u32_low_bits_mask_is_mod(self.buffer, need as nat);
            lemma_u32_shr_is_div(self.buffer, need);
            lemma_bits_le_split(self.bytes@, p, need as nat, rest);
            lemma_bits_le_bounds(self.bytes@, p, need as nat);
            lemma_bits_le_bounds(self.bytes@, p + need, rest);
            lemma_pow2_pos(need as nat);
            assert(need as nat + rest == self.count as nat);
            vstd::arithmetic::mul::lemma_mul_is_commutative(
                pow2(need as nat) as int,
                bits_le(self.bytes@, p + need, rest),
            );
            lemma_fundamental_div_mod_converse(
                self.buffer as int,
                pow2(need as nat) as int,
                bits_le(self.bytes@, p + need, rest),
                bits_le(self.bytes@, p, need as nat),
            );
        }
        let value = self.buffer & ((1u32 << need) - 1);
        proof {
            lemma_bits_le_bounds(old(self).bytes@, p, need as nat);
        }
        self.buffer = self.buffer >> need;
        self.count = self.count - need;
        Ok(value)
    }

    fn bit(&mut self) -> (r: Result<u32, InflateError>)
        requires
            old(self).wf(),
        ensures
            final(self).wf(),
            final(self).bytes@ == old(self).bytes@,
            r is Ok <==> old(self).pos() + 1 <= 8 * old(self).bytes@.len(),
            r matches Ok(v) ==> v == bit_of(old(self).bytes@, old(self).pos()) && final(self).pos() == old(self).pos() + 1,
            r matches Err(e) ==> e == InflateError::Truncated,
            r is Err ==> final(self).pos() == old(self).pos(),
    {
        let r = self.bits(1);
        proof {
            assert(bits_le(old(self).bytes@, old(self).pos() + 1, 0) == 0);
        }
        r
    }

    /// Discards the rest of a partly read byte, which is how a stored block
    /// starts.
    #[verifier::rlimit(50)]
    fn align(&mut self)
        requires
            old(self).wf(),
        ensures
            final(self).wf(),
            final(self).bytes@ == old(self).bytes@,
            final(self).pos() == aligned(old(self).pos()),
    {
        let whole = self.count % 8;
        let ghost p = self.pos();
        let ghost rest = (self.count - whole) as nat;
        proof {
            lemma_u32_shr_is_div(self.buffer, whole);
            lemma_bits_le_split(self.bytes@, p, whole as nat, rest);
            lemma_bits_le_bounds(self.bytes@, p, whole as nat);
            lemma_bits_le_bounds(self.bytes@, p + whole, rest);
            lemma_pow2_pos(whole as nat);
            assert(whole as nat + rest == self.count as nat);
            vstd::arithmetic::mul::lemma_mul_is_commutative(
                pow2(whole as nat) as int,
                bits_le(self.bytes@, p + whole, rest),
            );
            lemma_fundamental_div_mod_converse(
                self.buffer as int,
                pow2(whole as nat) as int,
                bits_le(self.bytes@, p + whole, rest),
                bits_le(self.bytes@, p, whole as nat),
            );
        }
        self.buffer = self.buffer >> whole;
        self.count = self.count - whole;
    }

    /// `n` whole bytes, read raw from a byte boundary.
    fn take_bytes(&mut self, n: usize) -> (r: Result<&'a [u8], InflateError>)
        requires
            old(self).wf(),
            old(self).pos() % 8 == 0,
        ensures
            final(self).wf(),
            final(self).bytes@ == old(self).bytes@,
            r is Ok <==> old(self).pos() / 8 + n <= old(self).bytes@.len(),
            r matches Ok(s) ==> s@ == old(self).bytes@.subrange(
                old(self).pos() / 8,
                old(self).pos() / 8 + n,
            ) && final(self).pos() == old(self).pos() + 8 * n,
            r matches Err(e) ==> e == InflateError::Truncated,
            r is Err ==> final(self).pos() == old(self).pos(),
    {
        // Bytes already pulled into the bit buffer are still unconsumed input.
        let buffered = (self.count / 8) as usize;
        let start = self.at - buffered;
        let len = self.bytes.len();
        self.buffer = 0;
        self.count = 0;
        self.at = start;
        let end = match start.checked_add(n) {
            Some(e) => e,
            None => return Err(InflateError::Truncated),
        };
        if end > len {
            return Err(InflateError::Truncated);
        }
        let slice = &self.bytes[start..end];
        self.at = end;
        Ok(slice)
    }
}

/// `p` rounded up to a byte boundary.
pub open spec fn aligned(p: int) -> int {
    if p % 8 == 0 {
        p
    } else {
        p + (8 - p % 8)
    }
}

// ------------------------------------------------------- Huffman tables

/// How many of `lengths[..i]` lie in `lo..hi`.
pub open spec fn count_range(lengths: Seq<u8>, lo: int, hi: int, i: int) -> nat
    decreases i,
{
    if i <= 0 {
        0
    } else {
        count_range(lengths, lo, hi, i - 1) + if lo <= lengths[i - 1] < hi {
            1nat
        } else {
            0nat
        }
    }
}

/// How many codes have length `l`.
pub open spec fn count_of(lengths: Seq<u8>, l: int) -> nat {
    count_range(lengths, l, l + 1, lengths.len() as int)
}

/// The per-length counts of a set of code lengths.
pub open spec fn length_counts(lengths: Seq<u8>) -> Seq<u16> {
    Seq::new(16, |l: int| count_of(lengths, l) as u16)
}

/// Codes still unassigned after all lengths up to `l` have taken theirs
/// (Kraft's inequality, counted in units of the length-`l` code space).
pub open spec fn kraft_left(counts: Seq<u16>, l: nat) -> int
    decreases l,
{
    if l == 0 {
        1
    } else {
        2 * kraft_left(counts, (l - 1) as nat) - counts[l as int]
    }
}

/// The first canonical code of length `l`.
pub open spec fn first_code(counts: Seq<u16>, l: nat) -> int
    decreases l,
{
    if l <= 1 {
        0
    } else {
        2 * (first_code(counts, (l - 1) as nat) + counts[l - 1])
    }
}

/// How many symbols have a code shorter than `l` (and not zero).
pub open spec fn first_index(counts: Seq<u16>, l: nat) -> int
    decreases l,
{
    if l <= 1 {
        0
    } else {
        first_index(counts, (l - 1) as nat) + counts[l - 1]
    }
}

/// The code lengths form a table this decoder accepts: every length at most
/// 15, and either no symbol is coded at all, or the codes fit the code space
/// (never over-subscribed) and fill it, unless incompleteness is allowed or
/// only one symbol is coded.
pub open spec fn table_accepts(lengths: Seq<u8>, allow_incomplete: bool) -> bool {
    let c = length_counts(lengths);
    &&& forall|i: int| 0 <= i < lengths.len() ==> lengths[i] <= 15
    &&& count_of(lengths, 0) == lengths.len() || {
        &&& forall|l: nat| 1 <= l <= 15 ==> #[trigger] kraft_left(c, l) >= 0
        &&& !(kraft_left(c, 15) > 0 && lengths.len() - count_of(lengths, 0) > 1
            && !allow_incomplete)
    }
}

/// Where the canonical code order puts symbol `t`: after every symbol with a
/// shorter code, and after the symbols of its own length that come before it.
pub open spec fn slot(lengths: Seq<u8>, t: int) -> int {
    first_index(length_counts(lengths), lengths[t] as nat) + count_range(
        lengths,
        lengths[t] as int,
        lengths[t] + 1,
        t,
    )
}

/// The symbol table after placing symbols `0..t` at their canonical slots,
/// over a table of zeros as long as `lengths`.
pub open spec fn placed(lengths: Seq<u8>, t: nat) -> Seq<u16>
    decreases t,
{
    if t == 0 {
        Seq::new(lengths.len(), |i: int| 0u16)
    } else {
        let before = placed(lengths, (t - 1) as nat);
        if lengths[t - 1] != 0 {
            before.update(slot(lengths, t - 1), (t - 1) as u16)
        } else {
            before
        }
    }
}

/// The canonical symbol table for `lengths`: empty when nothing is coded,
/// else every coded symbol at its slot.
pub open spec fn canonical_symbols(lengths: Seq<u8>) -> Seq<u16> {
    if count_of(lengths, 0) == lengths.len() {
        Seq::empty()
    } else {
        placed(lengths, lengths.len())
    }
}

proof fn lemma_count_range_le(lengths: Seq<u8>, lo: int, hi: int, i: int)
    requires
        0 <= i <= lengths.len(),
    ensures
        count_range(lengths, lo, hi, i) <= i,
    decreases i,
{
    if i > 0 {
        lemma_count_range_le(lengths, lo, hi, i - 1);
    }
}

proof fn lemma_count_range_empty(lengths: Seq<u8>, lo: int, hi: int, i: int)
    requires
        lo >= hi,
    ensures
        count_range(lengths, lo, hi, i) == 0,
    decreases i,
{
    if i > 0 {
        lemma_count_range_empty(lengths, lo, hi, i - 1);
    }
}

proof fn lemma_count_range_mono(lengths: Seq<u8>, lo: int, hi: int, i: int, j: int)
    requires
        0 <= i <= j <= lengths.len(),
    ensures
        count_range(lengths, lo, hi, i) <= count_range(lengths, lo, hi, j),
    decreases j - i,
{
    if i < j {
        lemma_count_range_mono(lengths, lo, hi, i, j - 1);
    }
}

proof fn lemma_count_range_add(lengths: Seq<u8>, a: int, b: int, c: int, i: int)
    requires
        0 <= i <= lengths.len(),
        a <= b <= c,
    ensures
        count_range(lengths, a, b, i) + count_range(lengths, b, c, i) == count_range(
            lengths,
            a,
            c,
            i,
        ),
    decreases i,
{
    if i > 0 {
        lemma_count_range_add(lengths, a, b, c, i - 1);
    }
}

/// With the table's own counts, the symbols before length `l` are exactly
/// those with a length in `1..l`.
proof fn lemma_first_index(lengths: Seq<u8>, l: nat)
    requires
        1 <= l <= 16,
        lengths.len() <= 320,
    ensures
        first_index(length_counts(lengths), l) == count_range(
            lengths,
            1,
            l as int,
            lengths.len() as int,
        ),
    decreases l,
{
    let n = lengths.len() as int;
    if l == 1 {
        lemma_count_range_empty(lengths, 1, 1, n);
    } else {
        lemma_first_index(lengths, (l - 1) as nat);
        lemma_count_range_add(lengths, 1, l - 1, l as int, n);
        lemma_count_range_le(lengths, (l - 1) as int, l as int, n);
    }
}

/// A coded symbol's slot lies within its length's block, and blocks follow
/// each other in length order.
proof fn lemma_slot(lengths: Seq<u8>, t: int)
    requires
        lengths.len() <= 320,
        0 <= t < lengths.len(),
        1 <= lengths[t] <= 15,
    ensures
        0 <= first_index(length_counts(lengths), lengths[t] as nat) <= slot(lengths, t),
        slot(lengths, t) < first_index(length_counts(lengths), (lengths[t] + 1) as nat),
        first_index(length_counts(lengths), (lengths[t] + 1) as nat) <= lengths.len(),
{
    let l = lengths[t] as int;
    let n = lengths.len() as int;
    lemma_count_range_mono(lengths, l, l + 1, t + 1, n);
    lemma_count_range_le(lengths, l, l + 1, n);
    lemma_first_index(lengths, l as nat);
    lemma_first_index(lengths, (l + 1) as nat);
    lemma_count_range_le(lengths, 1, l + 1, n);
    assert(first_index(length_counts(lengths), (l + 1) as nat) == first_index(
        length_counts(lengths),
        l as nat,
    ) + count_of(lengths, l));
}

proof fn lemma_first_index_mono(counts: Seq<u16>, a: nat, b: nat)
    requires
        a <= b,
    ensures
        first_index(counts, a) <= first_index(counts, b),
    decreases b - a,
{
    if a < b {
        lemma_first_index_mono(counts, a, (b - 1) as nat);
    }
}

/// A canonical Huffman decoding table: how many codes of each length, and the
/// symbols in code order.
pub struct Huffman {
    counts: Vec<u16>,
    symbols: Vec<u16>,
}

impl Huffman {
    pub closed spec fn counts(&self) -> Seq<u16> {
        self.counts@
    }

    pub closed spec fn symbols(&self) -> Seq<u16> {
        self.symbols@
    }

    pub closed spec fn wf(&self) -> bool {
        &&& self.counts@.len() == 16
        &&& self.symbols@.len() <= 320
    }

    /// The table is the canonical code for `lengths`: its counts are theirs,
    /// and each coded symbol sits at its canonical slot.
    pub closed spec fn built_from(&self, lengths: Seq<u8>) -> bool {
        &&& self.counts@ =~= length_counts(lengths)
        &&& self.symbols@ =~= canonical_symbols(lengths)
        &&& count_of(lengths, 0) == lengths.len() ==> self.symbols@.len() == 0
        &&& count_of(lengths, 0) < lengths.len() ==> {
            &&& self.symbols@.len() == lengths.len()
            &&& forall|t: int|
                0 <= t < lengths.len() && lengths[t] != 0 ==> self.symbols@[#[trigger] slot(
                    lengths,
                    t,
                )] == t
        }
    }

    /// A table built from `lengths` decodes with their canonical counts and
    /// symbols.
    proof fn lemma_built_from(&self, lengths: Seq<u8>)
        requires
            self.built_from(lengths),
        ensures
            self.counts() == length_counts(lengths),
            self.symbols() == canonical_symbols(lengths),
    {
        assert(self.counts@ =~= length_counts(lengths));
        assert(self.symbols@ =~= canonical_symbols(lengths));
    }

    /// Builds from code lengths, refusing anything that is not a valid tree.
    fn new(lengths: &[u8]) -> (r: Result<Huffman, InflateError>)
        requires
            lengths@.len() <= 320,
        ensures
            r is Ok <==> table_accepts(lengths@, false),
            r matches Ok(h) ==> h.wf() && h.built_from(lengths@),
            r matches Err(e) ==> e == InflateError::BadCodeLengths,
    {
        Huffman::build(lengths, false)
    }

    /// Builds without the under-subscription check, for the fixed tables,
    /// whose distance code is incomplete by the format's own definition.
    fn fixed(lengths: &[u8]) -> (r: Result<Huffman, InflateError>)
        requires
            lengths@.len() <= 320,
        ensures
            r is Ok <==> table_accepts(lengths@, true),
            r matches Ok(h) ==> h.wf() && h.built_from(lengths@),
            r matches Err(e) ==> e == InflateError::BadCodeLengths,
    {
        Huffman::build(lengths, true)
    }

    fn build(lengths: &[u8], allow_incomplete: bool) -> (r: Result<Huffman, InflateError>)
        requires
            lengths@.len() <= 320,
        ensures
            r is Ok <==> table_accepts(lengths@, allow_incomplete),
            r matches Ok(h) ==> h.wf() && h.built_from(lengths@),
            r matches Err(e) ==> e == InflateError::BadCodeLengths,
    {
        let n = lengths.len();
        let ghost ls = lengths@;
        let mut counts: Vec<u16> = vec![0u16; MAX_BITS + 1];
        let mut i: usize = 0;
        while i < n
            invariant
                n == ls.len(),
                ls == lengths@,
                n <= 320,
                i <= n,
                counts@.len() == 16,
                forall|l: int| 0 <= l < 16 ==> #[trigger] counts@[l] == count_range(ls, l, l + 1, i as int),
                forall|t: int| 0 <= t < i ==> ls[t] <= 15,
            decreases n - i,
        {
            let length = lengths[i];
            if length as usize > MAX_BITS {
                proof {
                    assert(!(ls[i as int] <= 15));
                }
                return Err(InflateError::BadCodeLengths);
            }
            proof {
                lemma_count_range_le(ls, length as int, length + 1, i as int);
            }
            let old_count = counts[length as usize];
            counts.set(length as usize, old_count + 1);
            i = i + 1;
        }
        let ghost c = length_counts(ls);
        proof {
            assert(counts@ =~= c);
            lemma_count_range_le(ls, 0, 1, n as int);
        }
        if counts[0] as usize == n {
            proof {
                assert(canonical_symbols(ls) =~= Seq::<u16>::empty());
            }
            return Ok(Huffman { counts, symbols: Vec::new() });
        }
        // Kraft's inequality: `left` going negative means over-subscribed.
        let mut left: i32 = 1;
        let mut l: usize = 1;
        proof {
            lemma2_to64();
        }
        while l <= MAX_BITS
            invariant
                1 <= l <= 16,
                counts@ == c,
                c == length_counts(ls),
                c.len() == 16,
                n == ls.len(),
                ls == lengths@,
                count_of(ls, 0) < n,
                left == kraft_left(c, (l - 1) as nat),
                0 <= left <= pow2((l - 1) as nat),
                forall|j: nat| 1 <= j < l ==> #[trigger] kraft_left(c, j) >= 0,
            decreases 16 - l,
        {
            proof {
                lemma_pow2_unfold(l as nat);
                lemma2_to64();
            }
            left = left * 2;
            left = left - counts[l] as i32;
            if left < 0 {
                proof {
                    assert(kraft_left(c, l as nat) < 0);
                }
                return Err(InflateError::BadCodeLengths);
            }
            l = l + 1;
        }
        // Under-subscribed sets decode ambiguously; the fixed tables and a
        // single coded symbol are the exceptions the format requires.
        let coded = n - counts[0] as usize;
        if left > 0 && coded > 1 && !allow_incomplete {
            return Err(InflateError::BadCodeLengths);
        }
        let mut offsets: Vec<u16> = vec![0u16; MAX_BITS + 2];
        let mut l: usize = 1;
        while l <= MAX_BITS
            invariant
                1 <= l <= 16,
                counts@ == c,
                c == length_counts(ls),
                c.len() == 16,
                n == ls.len(),
                n <= 320,
                offsets@.len() == 17,
                forall|j: int| 1 <= j <= l ==> #[trigger] offsets@[j] == first_index(c, j as nat),
            decreases 16 - l,
        {
            proof {
                lemma_first_index(ls, (l + 1) as nat);
                lemma_count_range_le(ls, 1, l + 1, n as int);
            }
            let next = offsets[l] + counts[l];
            offsets.set(l + 1, next);
            l = l + 1;
        }
        let mut symbols: Vec<u16> = vec![0u16; n];
        let mut t: usize = 0;
        proof {
            assert(symbols@ =~= placed(ls, 0));
        }
        while t < n
            invariant
                n == ls.len(),
                ls == lengths@,
                n <= 320,
                t <= n,
                c == length_counts(ls),
                forall|i: int| 0 <= i < n ==> ls[i] <= 15,
                offsets@.len() == 17,
                symbols@.len() == n,
                forall|j: int|
                    1 <= j <= 15 ==> #[trigger] offsets@[j] == first_index(c, j as nat)
                        + count_range(ls, j, j + 1, t as int),
                forall|s: int|
                    0 <= s < t && ls[s] != 0 ==> symbols@[#[trigger] slot(ls, s)] == s,
                symbols@ == placed(ls, t as nat),
            decreases n - t,
        {
            let length = lengths[t];
            if length != 0 {
                let at = offsets[length as usize] as usize;
                let ghost before = symbols@;
                proof {
                    lemma_slot(ls, t as int);
                    assert(at == slot(ls, t as int));
                }
                symbols.set(at, t as u16);
                assert(symbols@ == before.update(at as int, t as u16));
                let bumped = offsets[length as usize] + 1;
                offsets.set(length as usize, bumped);
                proof {
                    assert forall|s: int| 0 <= s <= t && ls[s] != 0 implies symbols@[slot(ls, s)]
                        == s by {
                        lemma_slot(ls, s);
                        if s < t {
                            let ls_s = ls[s] as nat;
                            let lt = length as nat;
                            if ls_s == lt {
                                lemma_count_range_mono(ls, lt as int, (lt + 1) as int, s + 1, t as int);
                            } else if ls_s < lt {
                                lemma_first_index_mono(c, ls_s + 1, lt);
                            } else {
                                lemma_first_index_mono(c, lt + 1, ls_s);
                            }
                            assert(slot(ls, s) != at);
                            assert(symbols@[slot(ls, s)] == before[slot(ls, s)]);
                        }
                    }
                }
            }
            t = t + 1;
        }
        proof {
            assert(canonical_symbols(ls) == placed(ls, n as nat));
        }
        Ok(Huffman { counts, symbols })
    }

    /// Decodes one symbol, reading the code one bit at a time, most
    /// significant first.
    fn decode(&self, bits: &mut BitReader) -> (r: Result<u16, InflateError>)
        requires
            self.wf(),
            old(bits).wf(),
        ensures
            final(bits).wf(),
            final(bits).bytes@ == old(bits).bytes@,
            decode_outcome(self.counts(), self.symbols(), old(bits).bytes@, old(bits).pos(), r),
            r == decode_value(self.counts(), self.symbols(), old(bits).bytes@, old(bits).pos()),
            r is Ok ==> final(bits).pos() == decode_end(self.counts(), old(bits).bytes@, old(bits).pos()),
            r is Ok ==> final(bits).pos() > old(bits).pos(),
            final(bits).pos() >= old(bits).pos(),
    {
        let ghost b = bits.bytes@;
        let ghost p = bits.pos();
        let ghost c = self.counts@;
        let mut code: i32 = 0;
        let mut first: i32 = 0;
        let mut index: i32 = 0;
        let mut length: usize = 1;
        while length <= MAX_BITS
            invariant
                1 <= length <= 16,
                self.wf(),
                c == self.counts@,
                b == old(bits).bytes@,
                p == old(bits).pos(),
                bits.wf(),
                bits.bytes@ == b,
                bits.pos() == p + length - 1,
                code == 2 * bits_be(b, p, (length - 1) as nat),
                first == first_code(c, length as nat),
                index == first_index(c, length as nat),
                0 <= first <= code,
                0 <= index <= 65535 * length,
                p + length - 1 <= 8 * b.len(),
                code_length(c, b, p, 1) == code_length(c, b, p, length as nat),
            decreases 16 - length,
        {
            proof {
                lemma_bits_be_bounds(b, p, (length - 1) as nat);
                lemma2_to64();
                lemma_pow2_strictly_increases_to(length as nat);
            }
            proof {
                lemma_code_length_ge(c, b, p, length as nat);
            }
            let bit = match bits.bit() {
                Ok(v) => v,
                Err(e) => return Err(e),
            };
            code = code + bit as i32;
            proof {
                lemma_bit_of(b, p + length - 1);
                assert(code == bits_be(b, p, length as nat));
                lemma_bits_be_bounds(b, p, length as nat);
            }
            let count = self.counts[length] as i32;
            if code - count < first {
                let at = (index + (code - first)) as usize;
                if at < self.symbols.len() {
                    return Ok(self.symbols[at]);
                }
                return Err(InflateError::BadCode);
            }
            index = index + count;
            first = (first + count) * 2;
            code = code * 2;
            length = length + 1;
        }
        Err(InflateError::BadCode)
    }
}

/// Whether the code read from `p` lies among the canonical codes of length
/// `l`.
pub open spec fn code_fits(c: Seq<u16>, b: Seq<u8>, p: int, l: nat) -> bool {
    bits_be(b, p, l) < first_code(c, l) + c[l as int]
}

/// The shortest length, from `l` up to 15, at which the code read from `p`
/// is one of the table's codes.
pub open spec fn code_length(c: Seq<u16>, b: Seq<u8>, p: int, l: nat) -> Option<nat>
    decreases 16 - l,
{
    if l > 15 {
        None
    } else if code_fits(c, b, p, l) {
        Some(l)
    } else {
        code_length(c, b, p, l + 1)
    }
}

/// What decoding one symbol from position `p` gives: the symbol whose
/// canonical code the next bits spell; `BadCode` when no code of length 1 to
/// 15 matches or the match has no symbol; `Truncated` when the stream ends
/// before the match is complete.
pub open spec fn decode_outcome(
    c: Seq<u16>,
    symbols: Seq<u16>,
    b: Seq<u8>,
    p: int,
    r: Result<u16, InflateError>,
) -> bool {
    match code_length(c, b, p, 1) {
        Some(l) => if p + l > 8 * b.len() {
            r == Err::<u16, InflateError>(InflateError::Truncated)
        } else {
            let at = first_index(c, l) + bits_be(b, p, l) - first_code(c, l);
            if 0 <= at < symbols.len() {
                r == Ok::<u16, InflateError>(symbols[at])
            } else {
                r == Err::<u16, InflateError>(InflateError::BadCode)
            }
        },
        None => if p + 15 > 8 * b.len() {
            r == Err::<u16, InflateError>(InflateError::Truncated)
        } else {
            r == Err::<u16, InflateError>(InflateError::BadCode)
        },
    }
}

/// The symbol decoded from position `p`, or why there is none: the outcome
/// `decode_outcome` describes.
pub open spec fn decode_value(c: Seq<u16>, symbols: Seq<u16>, b: Seq<u8>, p: int) -> Result<u16, InflateError> {
    match code_length(c, b, p, 1) {
        Some(l) => if p + l > 8 * b.len() {
            Err(InflateError::Truncated)
        } else {
            let at = first_index(c, l) + bits_be(b, p, l) - first_code(c, l);
            if 0 <= at < symbols.len() {
                Ok(symbols[at])
            } else {
                Err(InflateError::BadCode)
            }
        },
        None => if p + 15 > 8 * b.len() {
            Err(InflateError::Truncated)
        } else {
            Err(InflateError::BadCode)
        },
    }
}

/// Where a code read from `p` ends: after the shortest matching code.
pub open spec fn decode_end(c: Seq<u16>, b: Seq<u8>, p: int) -> int {
    match code_length(c, b, p, 1) {
        Some(l) => p + l,
        None => p,
    }
}

pub proof fn lemma_code_length_ge(c: Seq<u16>, b: Seq<u8>, p: int, l: nat)
    ensures
        code_length(c, b, p, l) matches Some(m) ==> l <= m <= 15,
    decreases 16 - l,
{
    if l <= 15 && !code_fits(c, b, p, l) {
        lemma_code_length_ge(c, b, p, l + 1);
    }
}

proof fn lemma_pow2_strictly_increases_to(l: nat)
    requires
        l <= 16,
    ensures
        pow2(l) <= 65536,
{
    lemma2_to64();
    if l < 16 {
        vstd::arithmetic::power2::lemma_pow2_strictly_increases(l, 16);
    }
}

// ------------------------------------------------------------- alphabets

/// Lengths 257..=285: base length.
pub open spec fn length_base_table() -> Seq<u16> {
    seq![3u16, 4, 5, 6, 7, 8, 9, 10, 11, 13, 15, 17, 19, 23, 27, 31, 35, 43, 51, 59, 67, 83, 99, 115,
    131, 163, 195, 227, 258]
}

/// Lengths 257..=285: extra bits.
pub open spec fn length_extra_table() -> Seq<u8> {
    seq![0u8, 0, 0, 0, 0, 0, 0, 0, 1, 1, 1, 1, 2, 2, 2, 2, 3, 3, 3, 3, 4, 4, 4, 4, 5, 5, 5, 5, 0]
}

/// Distance codes 0..=29: base distance.
pub open spec fn distance_base_table() -> Seq<u16> {
    seq![1u16, 2, 3, 4, 5, 7, 9, 13, 17, 25, 33, 49, 65, 97, 129, 193, 257, 385, 513, 769, 1025,
    1537, 2049, 3073, 4097, 6145, 8193, 12289, 16385, 24577]
}

/// Distance codes 0..=29: extra bits.
pub open spec fn distance_extra_table() -> Seq<u8> {
    seq![0u8, 0, 0, 0, 1, 1, 2, 2, 3, 3, 4, 4, 5, 5, 6, 6, 7, 7, 8, 8, 9, 9, 10, 10, 11, 11, 12, 12,
    13, 13]
}

/// The length alphabet tiles the match lengths 3 to 258 (RFC 1951 3.2.5):
/// code 257 starts at 3; each code covers `2^extra` lengths from its base
/// and the next code starts right after them; the extra bits are none for
/// the first eight codes and then one more every four codes; code 284 runs
/// up to 257 and code 285 alone is 258.
pub proof fn lemma_length_codes_tile()
    ensures
        length_base_table().len() == 29,
        length_extra_table().len() == 29,
        length_base_table()[0] == 3,
        forall|i: int|
            0 <= i < 27 ==> #[trigger] length_base_table()[i + 1] == length_base_table()[i] + pow2(
                length_extra_table()[i] as nat,
            ),
        forall|i: int|
            0 <= i < 28 ==> #[trigger] length_extra_table()[i] == (if i < 8 {
                0
            } else {
                (i - 4) / 4
            }),
        length_base_table()[27] + pow2(length_extra_table()[27] as nat) - 1 == 258,
        length_base_table()[28] == 258,
        length_extra_table()[28] == 0,
{
    lemma2_to64();
    assert forall|i: int| 0 <= i < 27 implies #[trigger] length_base_table()[i + 1] == length_base_table()[i]
        + pow2(length_extra_table()[i] as nat) by {
        if i == 0 {
            assert(length_base_table()[1] == 4 && length_base_table()[0] == 3 && length_extra_table()[0] == 0);
        } else if i == 1 {
            assert(length_base_table()[2] == 5 && length_base_table()[1] == 4 && length_extra_table()[1] == 0);
        } else if i == 2 {
            assert(length_base_table()[3] == 6 && length_base_table()[2] == 5 && length_extra_table()[2] == 0);
        } else if i == 3 {
            assert(length_base_table()[4] == 7 && length_base_table()[3] == 6 && length_extra_table()[3] == 0);
        } else if i == 4 {
            assert(length_base_table()[5] == 8 && length_base_table()[4] == 7 && length_extra_table()[4] == 0);
        } else if i == 5 {
            assert(length_base_table()[6] == 9 && length_base_table()[5] == 8 && length_extra_table()[5] == 0);
        } else if i == 6 {
            assert(length_base_table()[7] == 10 && length_base_table()[6] == 9 && length_extra_table()[6] == 0);
        } else if i == 7 {
            assert(length_base_table()[8] == 11 && length_base_table()[7] == 10 && length_extra_table()[7] == 0);
        } else if i == 8 {
            assert(length_base_table()[9] == 13 && length_base_table()[8] == 11 && length_extra_table()[8] == 1);
        } else if i == 9 {
            assert(length_base_table()[10] == 15 && length_base_table()[9] == 13 && length_extra_table()[9] == 1);
        } else if i == 10 {
            assert(length_base_table()[11] == 17 && length_base_table()[10] == 15 && length_extra_table()[10] == 1);
        } else if i == 11 {
            assert(length_base_table()[12] == 19 && length_base_table()[11] == 17 && length_extra_table()[11] == 1);
        } else if i == 12 {
            assert(length_base_table()[13] == 23 && length_base_table()[12] == 19 && length_extra_table()[12] == 2);
        } else if i == 13 {
            assert(length_base_table()[14] == 27 && length_base_table()[13] == 23 && length_extra_table()[13] == 2);
        } else if i == 14 {
            assert(length_base_table()[15] == 31 && length_base_table()[14] == 27 && length_extra_table()[14] == 2);
        } else if i == 15 {
            assert(length_base_table()[16] == 35 && length_base_table()[15] == 31 && length_extra_table()[15] == 2);
        } else if i == 16 {
            assert(length_base_table()[17] == 43 && length_base_table()[16] == 35 && length_extra_table()[16] == 3);
        } else if i == 17 {
            assert(length_base_table()[18] == 51 && length_base_table()[17] == 43 && length_extra_table()[17] == 3);
        } else if i == 18 {
            assert(length_base_table()[19] == 59 && length_base_table()[18] == 51 && length_extra_table()[18] == 3);
        } else if i == 19 {
            assert(length_base_table()[20] == 67 && length_base_table()[19] == 59 && length_extra_table()[19] == 3);
        } else if i == 20 {
            assert(length_base_table()[21] == 83 && length_base_table()[20] == 67 && length_extra_table()[20] == 4);
        } else if i == 21 {
            assert(length_base_table()[22] == 99 && length_base_table()[21] == 83 && length_extra_table()[21] == 4);
        } else if i == 22 {
            assert(length_base_table()[23] == 115 && length_base_table()[22] == 99 && length_extra_table()[22] == 4);
        } else if i == 23 {
            assert(length_base_table()[24] == 131 && length_base_table()[23] == 115 && length_extra_table()[23] == 4);
        } else if i == 24 {
            assert(length_base_table()[25] == 163 && length_base_table()[24] == 131 && length_extra_table()[24] == 5);
        } else if i == 25 {
            assert(length_base_table()[26] == 195 && length_base_table()[25] == 163 && length_extra_table()[25] == 5);
        } else if i == 26 {
            assert(length_base_table()[27] == 227 && length_base_table()[26] == 195 && length_extra_table()[26] == 5);
        }
    }
    assert forall|i: int| 0 <= i < 28 implies #[trigger] length_extra_table()[i] == (if i < 8 {
        0
    } else {
        (i - 4) / 4
    }) by {
        if i == 0 {
            assert(length_extra_table()[0] == 0);
        } else if i == 1 {
            assert(length_extra_table()[1] == 0);
        } else if i == 2 {
            assert(length_extra_table()[2] == 0);
        } else if i == 3 {
            assert(length_extra_table()[3] == 0);
        } else if i == 4 {
            assert(length_extra_table()[4] == 0);
        } else if i == 5 {
            assert(length_extra_table()[5] == 0);
        } else if i == 6 {
            assert(length_extra_table()[6] == 0);
        } else if i == 7 {
            assert(length_extra_table()[7] == 0);
        } else if i == 8 {
            assert(length_extra_table()[8] == 1);
        } else if i == 9 {
            assert(length_extra_table()[9] == 1);
        } else if i == 10 {
            assert(length_extra_table()[10] == 1);
        } else if i == 11 {
            assert(length_extra_table()[11] == 1);
        } else if i == 12 {
            assert(length_extra_table()[12] == 2);
        } else if i == 13 {
            assert(length_extra_table()[13] == 2);
        } else if i == 14 {
            assert(length_extra_table()[14] == 2);
        } else if i == 15 {
            assert(length_extra_table()[15] == 2);
        } else if i == 16 {
            assert(length_extra_table()[16] == 3);
        } else if i == 17 {
            assert(length_extra_table()[17] == 3);
        } else if i == 18 {
            assert(length_extra_table()[18] == 3);
        } else if i == 19 {
            assert(length_extra_table()[19] == 3);
        } else if i == 20 {
            assert(length_extra_table()[20] == 4);
        } else if i == 21 {
            assert(length_extra_table()[21] == 4);
        } else if i == 22 {
            assert(length_extra_table()[22] == 4);
        } else if i == 23 {
            assert(length_extra_table()[23] == 4);
        } else if i == 24 {
            assert(length_extra_table()[24] == 5);
        } else if i == 25 {
            assert(length_extra_table()[25] == 5);
        } else if i == 26 {
            assert(length_extra_table()[26] == 5);
        } else if i == 27 {
            assert(length_extra_table()[27] == 5);
        }
    }
}

/// The distance alphabet tiles the distances 1 to 32768 (RFC 1951 3.2.5):
/// code 0 starts at 1; each code covers `2^extra` distances from its base
/// and the next code starts right after them; the extra bits are none for
/// the first two codes and then one more every two codes; code 29 ends at
/// 32768.
pub proof fn lemma_distance_codes_tile()
    ensures
        distance_base_table().len() == 30,
        distance_extra_table().len() == 30,
        distance_base_table()[0] == 1,
        forall|i: int|
            0 <= i < 29 ==> #[trigger] distance_base_table()[i + 1] == distance_base_table()[i] + pow2(
                distance_extra_table()[i] as nat,
            ),
        forall|i: int|
            0 <= i < 30 ==> #[trigger] distance_extra_table()[i] == (if i < 2 {
                0
            } else {
                i / 2 - 1
            }),
        distance_base_table()[29] + pow2(distance_extra_table()[29] as nat) - 1 == 32768,
{
    lemma2_to64();
    assert forall|i: int| 0 <= i < 29 implies #[trigger] distance_base_table()[i + 1] == distance_base_table()[i]
        + pow2(distance_extra_table()[i] as nat) by {
        if i == 0 {
            assert(distance_base_table()[1] == 2 && distance_base_table()[0] == 1 && distance_extra_table()[0] == 0);
        } else if i == 1 {
            assert(distance_base_table()[2] == 3 && distance_base_table()[1] == 2 && distance_extra_table()[1] == 0);
        } else if i == 2 {
            assert(distance_base_table()[3] == 4 && distance_base_table()[2] == 3 && distance_extra_table()[2] == 0);
        } else if i == 3 {
            assert(distance_base_table()[4] == 5 && distance_base_table()[3] == 4 && distance_extra_table()[3] == 0);
        } else if i == 4 {
            assert(distance_base_table()[5] == 7 && distance_base_table()[4] == 5 && distance_extra_table()[4] == 1);
        } else if i == 5 {
            assert(distance_base_table()[6] == 9 && distance_base_table()[5] == 7 && distance_extra_table()[5] == 1);
        } else if i == 6 {
            assert(distance_base_table()[7] == 13 && distance_base_table()[6] == 9 && distance_extra_table()[6] == 2);
        } else if i == 7 {
            assert(distance_base_table()[8] == 17 && distance_base_table()[7] == 13 && distance_extra_table()[7] == 2);
        } else if i == 8 {
            assert(distance_base_table()[9] == 25 && distance_base_table()[8] == 17 && distance_extra_table()[8] == 3);
        } else if i == 9 {
            assert(distance_base_table()[10] == 33 && distance_base_table()[9] == 25 && distance_extra_table()[9] == 3);
        } else if i == 10 {
            assert(distance_base_table()[11] == 49 && distance_base_table()[10] == 33 && distance_extra_table()[10] == 4);
        } else if i == 11 {
            assert(distance_base_table()[12] == 65 && distance_base_table()[11] == 49 && distance_extra_table()[11] == 4);
        } else if i == 12 {
            assert(distance_base_table()[13] == 97 && distance_base_table()[12] == 65 && distance_extra_table()[12] == 5);
        } else if i == 13 {
            assert(distance_base_table()[14] == 129 && distance_base_table()[13] == 97 && distance_extra_table()[13] == 5);
        } else if i == 14 {
            assert(distance_base_table()[15] == 193 && distance_base_table()[14] == 129 && distance_extra_table()[14] == 6);
        } else if i == 15 {
            assert(distance_base_table()[16] == 257 && distance_base_table()[15] == 193 && distance_extra_table()[15] == 6);
        } else if i == 16 {
            assert(distance_base_table()[17] == 385 && distance_base_table()[16] == 257 && distance_extra_table()[16] == 7);
        } else if i == 17 {
            assert(distance_base_table()[18] == 513 && distance_base_table()[17] == 385 && distance_extra_table()[17] == 7);
        } else if i == 18 {
            assert(distance_base_table()[19] == 769 && distance_base_table()[18] == 513 && distance_extra_table()[18] == 8);
        } else if i == 19 {
            assert(distance_base_table()[20] == 1025 && distance_base_table()[19] == 769 && distance_extra_table()[19] == 8);
        } else if i == 20 {
            assert(distance_base_table()[21] == 1537 && distance_base_table()[20] == 1025 && distance_extra_table()[20] == 9);
        } else if i == 21 {
            assert(distance_base_table()[22] == 2049 && distance_base_table()[21] == 1537 && distance_extra_table()[21] == 9);
        } else if i == 22 {
            assert(distance_base_table()[23] == 3073 && distance_base_table()[22] == 2049 && distance_extra_table()[22] == 10);
        } else if i == 23 {
            assert(distance_base_table()[24] == 4097 && distance_base_table()[23] == 3073 && distance_extra_table()[23] == 10);
        } else if i == 24 {
            assert(distance_base_table()[25] == 6145 && distance_base_table()[24] == 4097 && distance_extra_table()[24] == 11);
        } else if i == 25 {
            assert(distance_base_table()[26] == 8193 && distance_base_table()[25] == 6145 && distance_extra_table()[25] == 11);
        } else if i == 26 {
            assert(distance_base_table()[27] == 12289 && distance_base_table()[26] == 8193 && distance_extra_table()[26] == 12);
        } else if i == 27 {
            assert(distance_base_table()[28] == 16385 && distance_base_table()[27] == 12289 && distance_extra_table()[27] == 12);
        } else if i == 28 {
            assert(distance_base_table()[29] == 24577 && distance_base_table()[28] == 16385 && distance_extra_table()[28] == 13);
        }
    }
    assert forall|i: int| 0 <= i < 30 implies #[trigger] distance_extra_table()[i] == (if i < 2 {
        0
    } else {
        i / 2 - 1
    }) by {
        if i == 0 {
            assert(distance_extra_table()[0] == 0);
        } else if i == 1 {
            assert(distance_extra_table()[1] == 0);
        } else if i == 2 {
            assert(distance_extra_table()[2] == 0);
        } else if i == 3 {
            assert(distance_extra_table()[3] == 0);
        } else if i == 4 {
            assert(distance_extra_table()[4] == 1);
        } else if i == 5 {
            assert(distance_extra_table()[5] == 1);
        } else if i == 6 {
            assert(distance_extra_table()[6] == 2);
        } else if i == 7 {
            assert(distance_extra_table()[7] == 2);
        } else if i == 8 {
            assert(distance_extra_table()[8] == 3);
        } else if i == 9 {
            assert(distance_extra_table()[9] == 3);
        } else if i == 10 {
            assert(distance_extra_table()[10] == 4);
        } else if i == 11 {
            assert(distance_extra_table()[11] == 4);
        } else if i == 12 {
            assert(distance_extra_table()[12] == 5);
        } else if i == 13 {
            assert(distance_extra_table()[13] == 5);
        } else if i == 14 {
            assert(distance_extra_table()[14] == 6);
        } else if i == 15 {
            assert(distance_extra_table()[15] == 6);
        } else if i == 16 {
            assert(distance_extra_table()[16] == 7);
        } else if i == 17 {
            assert(distance_extra_table()[17] == 7);
        } else if i == 18 {
            assert(distance_extra_table()[18] == 8);
        } else if i == 19 {
            assert(distance_extra_table()[19] == 8);
        } else if i == 20 {
            assert(distance_extra_table()[20] == 9);
        } else if i == 21 {
            assert(distance_extra_table()[21] == 9);
        } else if i == 22 {
            assert(distance_extra_table()[22] == 10);
        } else if i == 23 {
            assert(distance_extra_table()[23] == 10);
        } else if i == 24 {
            assert(distance_extra_table()[24] == 11);
        } else if i == 25 {
            assert(distance_extra_table()[25] == 11);
        } else if i == 26 {
            assert(distance_extra_table()[26] == 12);
        } else if i == 27 {
            assert(distance_extra_table()[27] == 12);
        } else if i == 28 {
            assert(distance_extra_table()[28] == 13);
        } else if i == 29 {
            assert(distance_extra_table()[29] == 13);
        }
    }
    assert(distance_base_table()[29] == 24577 && distance_extra_table()[29] == 13);
}

/// The order in which the code-length alphabet's own lengths arrive.
pub open spec fn code_length_order() -> Seq<usize> {
    seq![16usize, 17, 18, 0, 8, 7, 9, 6, 10, 5, 11, 4, 12, 3, 13, 2, 14, 1, 15]
}

fn length_base(i: usize) -> (r: u16)
    requires
        i < 29,
    ensures
        r == length_base_table()[i as int],
{
    let t: [u16; 29] = [
        3, 4, 5, 6, 7, 8, 9, 10, 11, 13, 15, 17, 19, 23, 27, 31, 35, 43, 51, 59, 67, 83, 99, 115,
        131, 163, 195, 227, 258,
    ];
    assert(t@ == length_base_table());
    t[i]
}

fn length_extra(i: usize) -> (r: u8)
    requires
        i < 29,
    ensures
        r == length_extra_table()[i as int],
        r <= 5,
{
    let t: [u8; 29] = [
        0, 0, 0, 0, 0, 0, 0, 0, 1, 1, 1, 1, 2, 2, 2, 2, 3, 3, 3, 3, 4, 4, 4, 4, 5, 5, 5, 5, 0,
    ];
    assert(t@ == length_extra_table());
    t[i]
}

fn distance_base(i: usize) -> (r: u16)
    requires
        i < 30,
    ensures
        r == distance_base_table()[i as int],
{
    let t: [u16; 30] = [
        1, 2, 3, 4, 5, 7, 9, 13, 17, 25, 33, 49, 65, 97, 129, 193, 257, 385, 513, 769, 1025, 1537,
        2049, 3073, 4097, 6145, 8193, 12289, 16385, 24577,
    ];
    assert(t@ == distance_base_table());
    t[i]
}

fn distance_extra(i: usize) -> (r: u8)
    requires
        i < 30,
    ensures
        r == distance_extra_table()[i as int],
        r <= 13,
{
    let t: [u8; 30] = [
        0, 0, 0, 0, 1, 1, 2, 2, 3, 3, 4, 4, 5, 5, 6, 6, 7, 7, 8, 8, 9, 9, 10, 10, 11, 11, 12, 12,
        13, 13,
    ];
    assert(t@ == distance_extra_table());
    t[i]
}

fn code_length_position(i: usize) -> (r: usize)
    requires
        i < 19,
    ensures
        r == code_length_order()[i as int],
        r < 19,
{
    let t: [usize; 19] = [16, 17, 18, 0, 8, 7, 9, 6, 10, 5, 11, 4, 12, 3, 13, 2, 14, 1, 15];
    assert(t@ == code_length_order());
    t[i]
}

// ---------------------------------------------------------------- blocks

/// A stored block whose `LEN` field at byte `q` agrees with its one's
/// complement `NLEN`.
pub open spec fn stored_lengths_agree(b: Seq<u8>, q: int) -> bool {
    le16(b, q) + le16(b, q + 2) == 0xFFFF
}

/// Copies a stored block: skips to a byte boundary, reads `LEN` and `NLEN`,
/// and appends `LEN` raw bytes.
fn stored(bits: &mut BitReader, out: &mut Vec<u8>) -> (r: Result<(), InflateError>)
    requires
        old(bits).wf(),
        old(out)@.len() <= MAX_OUTPUT,
    ensures
        final(bits).wf(),
        final(bits).bytes@ == old(bits).bytes@,
        final(bits).pos() >= old(bits).pos(),
        ({
            let b = old(bits).bytes@;
            let q = aligned(old(bits).pos()) / 8;
            let n = le16(b, q);
            &&& r is Ok <==> q + 4 <= b.len() && stored_lengths_agree(b, q) && q + 4 + n <= b.len()
                && old(out)@.len() + n <= MAX_OUTPUT
            &&& r is Ok ==> final(out)@ == old(out)@ + b.subrange(q + 4, q + 4 + n) && final(bits).pos() == 8 * (q + 4 + n)
            &&& q + 4 > b.len() ==> r == Err::<(), InflateError>(InflateError::Truncated)
            &&& q + 4 <= b.len() && !stored_lengths_agree(b, q) ==> r == Err::<(), InflateError>(
                InflateError::StoredLengthMismatch,
            )
            &&& q + 4 <= b.len() && stored_lengths_agree(b, q) && q + 4 + n > b.len() ==> r
                == Err::<(), InflateError>(InflateError::Truncated)
            &&& q + 4 + n <= b.len() && stored_lengths_agree(b, q) && old(out)@.len() + n
                > MAX_OUTPUT ==> r == Err::<(), InflateError>(InflateError::OutputTooLarge)
        }),
        final(out)@.len() <= MAX_OUTPUT,
        old(out)@.is_prefix_of(final(out)@),
{
    bits.align();
    let header = match bits.take_bytes(4) {
        Ok(h) => h,
        Err(e) => return Err(e),
    };
    let len = header[0] as u16 + 256 * (header[1] as u16);
    let nlen = header[2] as u16 + 256 * (header[3] as u16);
    assert(!nlen == 0xFFFFu16 - nlen) by (bit_vector);
    if len != !nlen {
        return Err(InflateError::StoredLengthMismatch);
    }
    let data = match bits.take_bytes(len as usize) {
        Ok(d) => d,
        Err(e) => return Err(e),
    };
    if out.len() + data.len() > MAX_OUTPUT {
        return Err(InflateError::OutputTooLarge);
    }
    let ghost before = out@;
    let mut i: usize = 0;
    while i < data.len()
        invariant
            i <= data@.len(),
            out@ == before + data@.take(i as int),
            before.len() + data@.len() <= MAX_OUTPUT,
        decreases data@.len() - i,
    {
        out.push(data[i]);
        i = i + 1;
        proof {
            assert(data@.take(i as int) == data@.take(i - 1) + seq![data@[i - 1]]);
        }
    }
    proof {
        assert(data@.take(data@.len() as int) == data@);
        assert(before.is_prefix_of(out@)) by {
            assert(out@.subrange(0, before.len() as int) =~= before);
        }
    }
    Ok(())
}

/// The code lengths of the fixed literal/length table: 8, 9, 7 and 8 bits over
/// the four ranges the format lists.
pub open spec fn fixed_literal_lengths() -> Seq<u8> {
    Seq::new(
        288,
        |s: int|
            if s < 144 {
                8u8
            } else if s < 256 {
                9u8
            } else if s < 280 {
                7u8
            } else {
                8u8
            },
    )
}

/// The code lengths of the fixed distance table: thirty 5-bit codes.
pub open spec fn fixed_distance_lengths() -> Seq<u8> {
    Seq::new(30, |s: int| 5u8)
}

/// Counting over a run of equal lengths adds the run's length, or nothing.
proof fn lemma_count_run(lengths: Seq<u8>, lo: int, hi: int, a: int, b: int, v: u8)
    requires
        0 <= a <= b <= lengths.len(),
        forall|j: int| a <= j < b ==> lengths[j] == v,
    ensures
        count_range(lengths, lo, hi, b) == count_range(lengths, lo, hi, a) + if lo <= v < hi {
            b - a
        } else {
            0int
        },
    decreases b - a,
{
    if b > a {
        lemma_count_run(lengths, lo, hi, a, b - 1, v);
    }
}

/// The per-length counts of the fixed literal/length table: 24 codes of 7
/// bits, 152 of 8 and 112 of 9.
proof fn lemma_fixed_literal_counts(l: int)
    ensures
        count_of(fixed_literal_lengths(), l) == if l == 7 {
            24nat
        } else if l == 8 {
            152nat
        } else if l == 9 {
            112nat
        } else {
            0nat
        },
{
    let s = fixed_literal_lengths();
    lemma_count_run(s, l, l + 1, 0, 144, 8);
    lemma_count_run(s, l, l + 1, 144, 256, 9);
    lemma_count_run(s, l, l + 1, 256, 280, 7);
    lemma_count_run(s, l, l + 1, 280, 288, 8);
}

/// The fixed literal/length lengths form a complete canonical code.
proof fn lemma_fixed_literals_accepted()
    ensures
        table_accepts(fixed_literal_lengths(), true),
{
    let s = fixed_literal_lengths();
    let c = length_counts(s);
    assert forall|l: int| 0 <= l < 16 implies #[trigger] c[l] == (if l == 7 {
        24u16
    } else if l == 8 {
        152u16
    } else if l == 9 {
        112u16
    } else {
        0u16
    }) by {
        lemma_fixed_literal_counts(l);
    }
    lemma_fixed_literal_counts(0);
    reveal_with_fuel(kraft_left, 16);
    assert(kraft_left(c, 9) == 0);
    assert forall|l: nat| 1 <= l <= 15 implies #[trigger] kraft_left(c, l) >= 0 by {
        reveal_with_fuel(kraft_left, 16);
    }
}

/// The fixed distance lengths: thirty 5-bit codes, an incomplete code the
/// format defines.
proof fn lemma_fixed_distances_accepted()
    ensures
        table_accepts(fixed_distance_lengths(), true),
{
    let s = fixed_distance_lengths();
    let c = length_counts(s);
    assert forall|l: int| 0 <= l < 16 implies #[trigger] c[l] == (if l == 5 {
        30u16
    } else {
        0u16
    }) by {
        lemma_count_run(s, l, l + 1, 0, 30, 5);
    }
    lemma_count_run(s, 0, 1, 0, 30, 5);
    reveal_with_fuel(kraft_left, 16);
    assert(kraft_left(c, 5) == 2);
    assert forall|l: nat| 1 <= l <= 15 implies #[trigger] kraft_left(c, l) >= 0 by {
        reveal_with_fuel(kraft_left, 16);
    }
}

/// The fixed tables, written out rather than derived. They are always built.
fn fixed_tables() -> (r: Result<(Huffman, Huffman), InflateError>)
    ensures
        r is Ok,
        r matches Ok((l, d)) ==> l.wf() && l.built_from(fixed_literal_lengths()) && d.wf()
            && d.built_from(fixed_distance_lengths()),
{
    proof {
        lemma_fixed_literals_accepted();
        lemma_fixed_distances_accepted();
    }
    let mut lengths: Vec<u8> = Vec::new();
    let mut symbol: usize = 0;
    while symbol < 288
        invariant
            symbol <= 288,
            lengths@ == fixed_literal_lengths().take(symbol as int),
        decreases 288 - symbol,
    {
        let length: u8 = if symbol < 144 {
            8
        } else if symbol < 256 {
            9
        } else if symbol < 280 {
            7
        } else {
            8
        };
        lengths.push(length);
        symbol = symbol + 1;
        proof {
            assert(lengths@ =~= fixed_literal_lengths().take(symbol as int));
        }
    }
    proof {
        assert(lengths@ =~= fixed_literal_lengths());
    }
    let literals = match Huffman::fixed(lengths.as_slice()) {
        Ok(h) => h,
        Err(e) => return Err(e),
    };
    let distance_lengths: [u8; 30] = [5u8; 30];
    proof {
        assert(distance_lengths@ =~= fixed_distance_lengths());
    }
    let distances = match Huffman::fixed(&distance_lengths) {
        Ok(h) => h,
        Err(e) => return Err(e),
    };
    Ok((literals, distances))
}

/// Fills `repeat` slots from `at` with `value`; a repeat that runs past the
/// table is malformed.
fn fill(lengths: &mut Vec<u8>, at: &mut usize, value: u8, repeat: usize) -> (r: Result<(), InflateError>)
    ensures
        r is Ok <==> *old(at) + repeat <= old(lengths)@.len(),
        r is Ok ==> *final(at) == *old(at) + repeat && final(lengths)@ =~= Seq::new(
            old(lengths)@.len(),
            |i: int|
                if *old(at) <= i < *old(at) + repeat {
                    value
                } else {
                    old(lengths)@[i]
                },
        ),
        r is Err ==> r == Err::<(), InflateError>(InflateError::BadCodeLengths) && final(lengths)@
            == old(lengths)@ && *final(at) == *old(at),
{
    let n = lengths.len();
    if *at > n || n - *at < repeat {
        return Err(InflateError::BadCodeLengths);
    }
    let ghost start = *at;
    let ghost before = lengths@;
    let mut k: usize = 0;
    while k < repeat
        invariant
            k <= repeat,
            start + repeat <= n,
            n == before.len(),
            *at == start + k,
            lengths@ =~= Seq::new(
                n as nat,
                |i: int|
                    if start <= i < start + k {
                        value
                    } else {
                        before[i]
                    },
            ),
        decreases repeat - k,
    {
        lengths.set(*at, value);
        *at = *at + 1;
        k = k + 1;
    }
    Ok(())
}

/// The code-length code's own lengths after `k` of the three-bit values
/// read from bit `p`: each goes to its place in the format's permuted order,
/// and the places not reached are zero.
pub open spec fn code_length_lengths(b: Seq<u8>, p: int, k: nat) -> Seq<u8>
    decreases k,
{
    if k == 0 {
        Seq::new(19, |i: int| 0u8)
    } else {
        code_length_lengths(b, p, (k - 1) as nat).update(
            code_length_order()[k - 1] as int,
            bits_le(b, p + 3 * (k - 1), 3) as u8,
        )
    }
}

/// Reading `total` literal/length and distance code lengths from bit `q`
/// with the code-length code `(cc, cs)`, `acc` read so far: symbols 0 to 15
/// are lengths, 16 repeats the previous length 3 to 6 times, 17 and 18 give
/// 3 to 10 and 11 to 138 zeros. Gives the lengths and where they end, or why
/// they cannot be read; a repeat past `total`, or of nothing, is refused.
#[verifier::opaque]
pub open spec fn length_run(
    cc: Seq<u16>,
    cs: Seq<u16>,
    b: Seq<u8>,
    q: int,
    acc: Seq<u8>,
    total: int,
) -> Result<(Seq<u8>, int), InflateError>
    decreases total - acc.len(),
{
    if acc.len() >= total {
        Ok((acc, q))
    } else {
        match decode_value(cc, cs, b, q) {
            Err(e) => Err(e),
            Ok(sym) => {
                let q1 = decode_end(cc, b, q);
                if sym <= 15 {
                    length_run(cc, cs, b, q1, acc.push(sym as u8), total)
                } else if sym <= 18 {
                    let (need, base) = if sym == 16 {
                        (2nat, 3int)
                    } else if sym == 17 {
                        (3nat, 3int)
                    } else {
                        (7nat, 11int)
                    };
                    if sym == 16 && acc.len() == 0 {
                        Err(InflateError::BadCodeLengths)
                    } else if q1 + need > 8 * b.len() {
                        Err(InflateError::Truncated)
                    } else {
                        proof {
                            lemma_bits_le_bounds(b, q1, need);
                        }
                        let repeat = base + bits_le(b, q1, need);
                        let value = if sym == 16 {
                            acc.last()
                        } else {
                            0u8
                        };
                        if acc.len() + repeat > total {
                            Err(InflateError::BadCodeLengths)
                        } else {
                            length_run(
                                cc,
                                cs,
                                b,
                                q1 + need,
                                acc + Seq::new(repeat as nat, |i: int| value),
                                total,
                            )
                        }
                    }
                } else {
                    Err(InflateError::BadCodeLengths)
                }
            },
        }
    }
}

/// Reads one code-length symbol with `tree` and writes what it stands for
/// into `lengths` from `at`: one step of `length_run`.
#[verifier::rlimit(60)]
#[verifier::spinoff_prover]
fn length_step(tree: &Huffman, bits: &mut BitReader, lengths: &mut Vec<u8>, at: &mut usize) -> (r:
    Result<(), InflateError>)
    requires
        tree.wf(),
        old(bits).wf(),
        *old(at) < old(lengths)@.len() <= 316,
        forall|i: int| *old(at) <= i < old(lengths)@.len() ==> old(lengths)@[i] == 0,
    ensures
        final(bits).wf(),
        final(bits).bytes@ == old(bits).bytes@,
        final(bits).pos() >= old(bits).pos(),
        final(lengths)@.len() == old(lengths)@.len(),
        ({
            let total = old(lengths)@.len() as int;
            let before = length_run(
                tree.counts(),
                tree.symbols(),
                old(bits).bytes@,
                old(bits).pos(),
                old(lengths)@.subrange(0, *old(at) as int),
                total,
            );
            &&& r is Ok ==> *old(at) < *final(at) <= total && (forall|i: int|
                *final(at) <= i < total ==> final(lengths)@[i] == 0) && before == length_run(
                tree.counts(),
                tree.symbols(),
                old(bits).bytes@,
                final(bits).pos(),
                final(lengths)@.subrange(0, *final(at) as int),
                total,
            )
            &&& r matches Err(e) ==> before == Err::<(Seq<u8>, int), InflateError>(e)
        }),
{
    let ghost b = bits.bytes@;
    let ghost q = bits.pos();
    let ghost acc = lengths@.subrange(0, *at as int);
    proof {
        reveal(length_run);
    }
    let ghost total = lengths@.len() as int;
    let symbol = match tree.decode(bits) {
        Ok(s) => s,
        Err(e) => return Err(e),
    };
    let ghost q1 = bits.pos();
    if symbol <= 15 {
        lengths.set(*at, symbol as u8);
        *at = *at + 1;
        proof {
            assert(lengths@.subrange(0, *at as int) =~= acc.push(symbol as u8));
        }
        return Ok(());
    }
    if symbol > 18 {
        return Err(InflateError::BadCodeLengths);
    }
    // A repeat of the previous length has nothing to repeat at the start.
    if symbol == 16 && *at == 0 {
        return Err(InflateError::BadCodeLengths);
    }
    let (need, base): (u32, usize) = if symbol == 16 {
        (2, 3)
    } else if symbol == 17 {
        (3, 3)
    } else {
        (7, 11)
    };
    let value = if symbol == 16 {
        lengths[*at - 1]
    } else {
        0
    };
    proof {
        lemma2_to64();
        if symbol == 16 {
            assert(value == acc.last()) by {
                assert(acc[*at - 1] == lengths@.subrange(0, *at as int)[*at - 1]);
            }
        }
    }
    let repeat = match bits.bits(need) {
        Ok(v) => base + v as usize,
        Err(e) => return Err(e),
    };
    let ghost from = *at as int;
    match fill(lengths, at, value, repeat) {
        Ok(()) => {},
        Err(e) => return Err(e),
    }
    proof {
        assert(lengths@.subrange(0, *at as int) =~= acc + Seq::new(repeat as nat, |i: int| value));
    }
    Ok(())
}

/// A dynamic block's header from bit `p`: `HLIT`, `HDIST` and `HCLEN`, the
/// code-length code, and with it the literal/length and distance code
/// lengths. Gives both sets of lengths and where the header ends, or why
/// there are none: a truncated stream, counts past the alphabets, or code
/// lengths that do not form an acceptable table.
pub open spec fn dynamic_header(b: Seq<u8>, p: int) -> Result<(Seq<u8>, Seq<u8>, int), InflateError> {
    let hlit = bits_le(b, p, 5) + 257;
    let hdist = bits_le(b, p + 5, 5) + 1;
    let hclen = bits_le(b, p + 10, 4) + 4;
    if p + 14 > 8 * b.len() {
        Err(InflateError::Truncated)
    } else if hlit > 286 || hdist > 30 {
        Err(InflateError::BadCodeLengths)
    } else if p + 14 + 3 * hclen > 8 * b.len() {
        Err(InflateError::Truncated)
    } else {
        let cl = code_length_lengths(b, p + 14, hclen as nat);
        if !table_accepts(cl, false) {
            Err(InflateError::BadCodeLengths)
        } else {
            match length_run(
                length_counts(cl),
                canonical_symbols(cl),
                b,
                p + 14 + 3 * hclen,
                Seq::empty(),
                hlit + hdist,
            ) {
                Err(e) => Err(e),
                Ok((ls, q)) => if !table_accepts(ls.subrange(0, hlit), false) || !table_accepts(
                    ls.subrange(hlit, hlit + hdist),
                    false,
                ) {
                    Err(InflateError::BadCodeLengths)
                } else {
                    Ok((ls.subrange(0, hlit), ls.subrange(hlit, hlit + hdist), q))
                },
            }
        }
    }
}

/// Reads a dynamic block's header: the counts `HLIT`, `HDIST` and `HCLEN`, the
/// code-length code, and with it the literal/length and distance code
/// lengths, then builds both tables.
fn dynamic_tables(bits: &mut BitReader) -> (r: Result<(Huffman, Huffman), InflateError>)
    requires
        old(bits).wf(),
    ensures
        final(bits).wf(),
        final(bits).bytes@ == old(bits).bytes@,
        final(bits).pos() >= old(bits).pos(),
        ({
            let h = dynamic_header(old(bits).bytes@, old(bits).pos());
            &&& r is Ok <==> h is Ok
            &&& r matches Ok((l, d)) ==> (h matches Ok((ll, dd, q)) && l.wf() && d.wf()
                && l.built_from(ll) && d.built_from(dd) && final(bits).pos() == q)
            &&& r matches Err(e) ==> h == Err::<(Seq<u8>, Seq<u8>, int), InflateError>(e)
        }),
{
    let ghost b = bits.bytes@;
    let ghost p = bits.pos();
    let ghost h = dynamic_header(b, p);
    proof {
        lemma2_to64();
    }
    let hlit = match bits.bits(5) {
        Ok(v) => v as usize + 257,
        Err(e) => return Err(e),
    };
    let hdist = match bits.bits(5) {
        Ok(v) => v as usize + 1,
        Err(e) => return Err(e),
    };
    let hclen = match bits.bits(4) {
        Ok(v) => v as usize + 4,
        Err(e) => return Err(e),
    };
    proof {
        lemma_bits_le_bounds(b, p + 10, 4);
        lemma2_to64();
    }
    if hlit > 286 || hdist > 30 {
        return Err(InflateError::BadCodeLengths);
    }
    let mut code_lengths: Vec<u8> = vec![0u8; 19];
    let mut k: usize = 0;
    proof {
        assert(code_lengths@ =~= code_length_lengths(b, p + 14, 0));
    }
    while k < hclen
        invariant
            k <= hclen <= 19,
            code_lengths@.len() == 19,
            p + 14 <= 8 * b.len(),
            hlit == bits_le(b, p, 5) + 257,
            hdist == bits_le(b, p + 5, 5) + 1,
            hclen == bits_le(b, p + 10, 4) + 4,
            hlit <= 286,
            hdist <= 30,
            bits.wf(),
            bits.bytes@ == b,
            b == old(bits).bytes@,
            p == old(bits).pos(),
            h == dynamic_header(b, p),
            bits.pos() == p + 14 + 3 * k,
            code_lengths@ == code_length_lengths(b, p + 14, k as nat),
        decreases hclen - k,
    {
        let v = match bits.bits(3) {
            Ok(v) => v,
            Err(e) => return Err(e),
        };
        proof {
            lemma2_to64();
        }
        code_lengths.set(code_length_position(k), v as u8);
        k = k + 1;
    }
    let ghost cl = code_lengths@;
    let code_length_tree = match Huffman::new(code_lengths.as_slice()) {
        Ok(h) => h,
        Err(e) => return Err(e),
    };
    let ghost cc = code_length_tree.counts();
    let ghost cs = code_length_tree.symbols();
    proof {
        code_length_tree.lemma_built_from(cl);
    }
    let total = hlit + hdist;
    let ghost q0 = bits.pos();
    let ghost run = length_run(cc, cs, b, q0, Seq::empty(), total as int);
    let mut lengths: Vec<u8> = vec![0u8; total];
    let mut at: usize = 0;
    proof {
        assert(lengths@.subrange(0, 0) =~= Seq::<u8>::empty());
        assert(q0 == p + 14 + 3 * hclen);
        assert(cl == code_length_lengths(b, p + 14, hclen as nat));
        assert(run matches Err(e) ==> h == Err::<(Seq<u8>, Seq<u8>, int), InflateError>(e));
    }
    while at < total
        invariant
            run matches Err(e) ==> h == Err::<(Seq<u8>, Seq<u8>, int), InflateError>(e),
            h == dynamic_header(b, p),
            at <= total,
            total == lengths@.len(),
            total == hlit + hdist,
            total <= 316,
            code_length_tree.wf(),
            cc == code_length_tree.counts(),
            cs == code_length_tree.symbols(),
            bits.wf(),
            bits.bytes@ == b,
            b == old(bits).bytes@,
            p == old(bits).pos(),
            bits.pos() >= p,
            forall|i: int| at <= i < total ==> lengths@[i] == 0,
            run == length_run(cc, cs, b, bits.pos(), lengths@.subrange(0, at as int), total as int),
        decreases total - at,
    {
        match length_step(&code_length_tree, bits, &mut lengths, &mut at) {
            Ok(()) => {},
            Err(e) => return Err(e),
        }
    }
    proof {
        assert(lengths@.subrange(0, at as int) =~= lengths@);
        reveal(length_run);
        assert(run == Ok::<(Seq<u8>, int), InflateError>((lengths@, bits.pos())));
    }
    let literal_lengths = vstd::slice::slice_subrange(lengths.as_slice(), 0, hlit);
    let distance_lengths = vstd::slice::slice_subrange(lengths.as_slice(), hlit, total);
    let literals = match Huffman::new(literal_lengths) {
        Ok(h) => h,
        Err(e) => return Err(e),
    };
    let distances = match Huffman::new(distance_lengths) {
        Ok(h) => h,
        Err(e) => return Err(e),
    };
    Ok((literals, distances))
}

/// The rest of a length/distance pair after length symbol `symbol`, read
/// from `p`: the length's extra bits, the distance code and its extra bits.
/// Gives the length, the distance and where the pair ends, or why it cannot
/// be read.
pub open spec fn match_outcome(
    c: Seq<u16>,
    symbols: Seq<u16>,
    b: Seq<u8>,
    p: int,
    symbol: u16,
) -> Result<(usize, usize, int), InflateError> {
    let i = symbol - 257;
    let le = length_extra_table()[i];
    if p + le > 8 * b.len() {
        Err(InflateError::Truncated)
    } else {
        let length = length_base_table()[i] + bits_le(b, p, le as nat);
        let p1 = p + le;
        match decode_value(c, symbols, b, p1) {
            Err(e) => Err(e),
            Ok(ds) => if ds >= 30 {
                Err(InflateError::BadCode)
            } else {
                let p2 = decode_end(c, b, p1);
                let de = distance_extra_table()[ds as int];
                if p2 + de > 8 * b.len() {
                    Err(InflateError::Truncated)
                } else {
                    Ok(
                        (
                            length as usize,
                            (distance_base_table()[ds as int] + bits_le(b, p2, de as nat)) as usize,
                            p2 + de,
                        ),
                    )
                }
            },
        }
    }
}

/// Reads the rest of a length/distance pair after its length symbol: the
/// length's extra bits, the distance code and its extra bits.
#[verifier::rlimit(60)]
#[verifier::spinoff_prover]
fn read_match(bits: &mut BitReader, distances: &Huffman, symbol: u16) -> (r: Result<
    (usize, usize),
    InflateError,
>)
    requires
        old(bits).wf(),
        distances.wf(),
        257 <= symbol <= 285,
    ensures
        final(bits).wf(),
        final(bits).bytes@ == old(bits).bytes@,
        final(bits).pos() >= old(bits).pos(),
        r matches Ok((length, distance)) ==> 3 <= length <= 258 && 1 <= distance <= 32768,
        ({
            let m = match_outcome(
                distances.counts(),
                distances.symbols(),
                old(bits).bytes@,
                old(bits).pos(),
                symbol,
            );
            &&& r is Ok <==> m is Ok
            &&& r matches Ok((length, distance)) ==> m == Ok::<(usize, usize, int), InflateError>(
                (length, distance, final(bits).pos()),
            )
            &&& r matches Err(e) ==> m == Err::<(usize, usize, int), InflateError>(e)
        }),
{
    proof {
        lemma2_to64();
    }
    let ghost b = bits.bytes@;
    let ghost p0 = bits.pos();
    let ghost m = match_outcome(distances.counts(), distances.symbols(), b, p0, symbol);
    let index = symbol as usize - 257;
    let extra = match bits.bits(length_extra(index) as u32) {
        Ok(v) => v,
        Err(e) => return Err(e),
    };
    let length = length_base(index) as usize + extra as usize;
    let ghost p1 = bits.pos();
    assert(p1 == p0 + length_extra_table()[index as int]);
    let distance_symbol = match distances.decode(bits) {
        Ok(s) => s as usize,
        Err(e) => return Err(e),
    };
    if distance_symbol >= 30 {
        return Err(InflateError::BadCode);
    }
    let ghost p2 = bits.pos();
    assert(p2 == decode_end(distances.counts(), b, p1));
    let dextra = match bits.bits(distance_extra(distance_symbol) as u32) {
        Ok(v) => v,
        Err(e) => return Err(e),
    };
    let distance = distance_base(distance_symbol) as usize + dextra as usize;
    assert(m == Ok::<(usize, usize, int), InflateError>((length, distance, bits.pos())));
    Ok((length, distance))
}

/// `out` with `n` bytes appended, each a copy of the byte `d` back.
pub open spec fn copied(out: Seq<u8>, d: int, n: nat) -> Seq<u8>
    decreases n,
{
    if n == 0 {
        out
    } else {
        let s = copied(out, d, (n - 1) as nat);
        s.push(s[s.len() - d])
    }
}

proof fn lemma_copied_len(out: Seq<u8>, d: int, n: nat)
    ensures
        copied(out, d, n).len() == out.len() + n,
    decreases n,
{
    if n > 0 {
        lemma_copied_len(out, d, (n - 1) as nat);
    }
}

/// Appends `length` bytes copied from `distance` back; a run may overlap
/// itself, so the copy goes byte by byte.
fn copy_back(out: &mut Vec<u8>, distance: usize, length: usize)
    requires
        1 <= distance <= old(out)@.len(),
        old(out)@.len() + length <= MAX_OUTPUT,
    ensures
        final(out)@.len() == old(out)@.len() + length,
        old(out)@.is_prefix_of(final(out)@),
        forall|i: int|
            old(out)@.len() <= i < final(out)@.len() ==> #[trigger] final(out)@[i] == final(out)@[i
                - distance],
        final(out)@ == copied(old(out)@, distance as int, length as nat),
{
    let start = out.len() - distance;
    let ghost before = out@;
    let mut offset: usize = 0;
    while offset < length
        invariant
            offset <= length,
            1 <= distance <= before.len(),
            start + distance == before.len(),
            before.len() + length <= MAX_OUTPUT,
            out@.len() == before.len() + offset,
            before.is_prefix_of(out@),
            forall|i: int|
                before.len() <= i < out@.len() ==> #[trigger] out@[i] == out@[i - distance],
            out@ == copied(before, distance as int, offset as nat),
        decreases length - offset,
    {
        let byte = out[start + offset];
        out.push(byte);
        offset = offset + 1;
        proof {
            lemma_copied_len(before, distance as int, (offset - 1) as nat);
        }
        proof {
            assert(out@.subrange(0, before.len() as int) =~= before);
        }
    }
}

/// Decoding one Huffman-coded block from bit `p`, appending to `out`: each
/// literal symbol appends its byte, each length symbol copies earlier
/// output, and the end-of-block symbol stops. Gives the output and where the
/// block ends, or the first error: a bad or truncated code, a distance
/// before the start of the output, or output past `MAX_OUTPUT`.
#[verifier::opaque]
pub open spec fn block_run(
    lc: Seq<u16>,
    ls: Seq<u16>,
    dc: Seq<u16>,
    ds: Seq<u16>,
    b: Seq<u8>,
    p: int,
    out: Seq<u8>,
) -> Result<(Seq<u8>, int), InflateError>
    decreases 8 * b.len() - p,
{
    match decode_value(lc, ls, b, p) {
        Err(e) => Err(e),
        Ok(sym) => {
            let p1 = decode_end(lc, b, p);
            proof {
                lemma_code_length_ge(lc, b, p, 1);
            }
            if sym <= 255 {
                if out.len() >= MAX_OUTPUT {
                    Err(InflateError::OutputTooLarge)
                } else {
                    block_run(lc, ls, dc, ds, b, p1, out.push(sym as u8))
                }
            } else if sym == 256 {
                Ok((out, p1))
            } else if sym <= 285 {
                match match_outcome(dc, ds, b, p1, sym) {
                    Err(e) => Err(e),
                    Ok((len, dist, p2)) => {
                        proof {
                            lemma_code_length_ge(dc, b, p1 + length_extra_table()[sym - 257], 1);
                        }
                        if dist > out.len() {
                            Err(InflateError::DistanceTooFar)
                        } else if out.len() + len > MAX_OUTPUT {
                            Err(InflateError::OutputTooLarge)
                        } else {
                            block_run(lc, ls, dc, ds, b, p2, copied(out, dist as int, len as nat))
                        }
                    },
                }
            } else {
                Err(InflateError::BadCode)
            }
        },
    }
}

/// One step of `block_run`: the symbol at `p` decides what follows.
pub proof fn lemma_block_step(
    lc: Seq<u16>,
    ls: Seq<u16>,
    dc: Seq<u16>,
    ds: Seq<u16>,
    b: Seq<u8>,
    p: int,
    out: Seq<u8>,
)
    ensures
        ({
            let run = block_run(lc, ls, dc, ds, b, p, out);
            let p1 = decode_end(lc, b, p);
            &&& decode_value(lc, ls, b, p) matches Err(e) ==> run == Err::<(Seq<u8>, int), InflateError>(e)
            &&& decode_value(lc, ls, b, p) matches Ok(sym) ==> {
                &&& sym <= 255 && out.len() >= MAX_OUTPUT ==> run == Err::<(Seq<u8>, int), InflateError>(
                    InflateError::OutputTooLarge,
                )
                &&& sym <= 255 && out.len() < MAX_OUTPUT ==> run == block_run(lc, ls, dc, ds, b, p1, out.push(sym as u8))
                &&& sym == 256 ==> run == Ok::<(Seq<u8>, int), InflateError>((out, p1))
                &&& sym > 285 ==> run == Err::<(Seq<u8>, int), InflateError>(InflateError::BadCode)
                &&& 257 <= sym <= 285 ==> match match_outcome(dc, ds, b, p1, sym) {
                    Err(e) => run == Err::<(Seq<u8>, int), InflateError>(e),
                    Ok((len, dist, p2)) => {
                        &&& dist > out.len() ==> run == Err::<(Seq<u8>, int), InflateError>(
                            InflateError::DistanceTooFar,
                        )
                        &&& dist <= out.len() && out.len() + len > MAX_OUTPUT ==> run == Err::<
                            (Seq<u8>, int),
                            InflateError,
                        >(InflateError::OutputTooLarge)
                        &&& dist <= out.len() && out.len() + len <= MAX_OUTPUT ==> run == block_run(
                            lc,
                            ls,
                            dc,
                            ds,
                            b,
                            p2,
                            copied(out, dist as int, len as nat),
                        )
                    },
                }
            }
        }),
{
    reveal(block_run);
}

/// Decodes one symbol of a block and acts on it: a literal is appended, a
/// length/distance pair copies earlier output, the end-of-block symbol
/// answers `true`.
#[verifier::rlimit(60)]
#[verifier::spinoff_prover]
fn block_symbol(bits: &mut BitReader, out: &mut Vec<u8>, literals: &Huffman, distances: &Huffman) -> (r:
    Result<bool, InflateError>)
    requires
        old(bits).wf(),
        literals.wf(),
        distances.wf(),
        old(out)@.len() <= MAX_OUTPUT,
    ensures
        final(bits).wf(),
        final(bits).bytes@ == old(bits).bytes@,
        final(bits).pos() >= old(bits).pos(),
        r is Ok ==> final(bits).pos() > old(bits).pos(),
        final(out)@.len() <= MAX_OUTPUT,
        old(out)@.is_prefix_of(final(out)@),
        ({
            let run = block_run(
                literals.counts(),
                literals.symbols(),
                distances.counts(),
                distances.symbols(),
                old(bits).bytes@,
                old(bits).pos(),
                old(out)@,
            );
            &&& r matches Ok(false) ==> run == block_run(
                literals.counts(),
                literals.symbols(),
                distances.counts(),
                distances.symbols(),
                old(bits).bytes@,
                final(bits).pos(),
                final(out)@,
            )
            &&& r matches Ok(true) ==> run == Ok::<(Seq<u8>, int), InflateError>(
                (final(out)@, final(bits).pos()),
            )
            &&& r matches Err(e) ==> run == Err::<(Seq<u8>, int), InflateError>(e)
        }),
{
    let ghost b = bits.bytes@;
    let ghost here = bits.pos();
    let ghost lc = literals.counts();
    let ghost ls = literals.symbols();
    let ghost dc = distances.counts();
    let ghost dsy = distances.symbols();
    let ghost mid = out@;
    proof {
        lemma_code_length_ge(lc, b, here, 1);
        lemma_block_step(lc, ls, dc, dsy, b, here, mid);
    }
    let symbol = match literals.decode(bits) {
        Ok(s) => s,
        Err(e) => return Err(e),
    };
    let ghost p1 = bits.pos();
    if symbol <= 255 {
        if out.len() >= MAX_OUTPUT {
            return Err(InflateError::OutputTooLarge);
        }
        out.push(symbol as u8);
    } else if symbol == 256 {
        return Ok(true);
    } else if symbol <= 285 {
        let (length, distance) = match read_match(bits, distances, symbol) {
            Ok(m) => m,
            Err(e) => return Err(e),
        };
        if distance > out.len() {
            return Err(InflateError::DistanceTooFar);
        }
        if out.len() + length > MAX_OUTPUT {
            return Err(InflateError::OutputTooLarge);
        }
        copy_back(out, distance, length);
    } else {
        return Err(InflateError::BadCode);
    }
    proof {
        assert(mid.is_prefix_of(out@)) by {
            assert(out@.subrange(0, mid.len() as int) =~= mid);
        }
    }
    Ok(false)
}

/// Decodes one Huffman-coded block into `out`, up to its end-of-block symbol:
/// literals are appended, length/distance pairs copy earlier output.
fn block(bits: &mut BitReader, out: &mut Vec<u8>, literals: &Huffman, distances: &Huffman) -> (r:
    Result<(), InflateError>)
    requires
        old(bits).wf(),
        literals.wf(),
        distances.wf(),
        old(out)@.len() <= MAX_OUTPUT,
    ensures
        final(bits).wf(),
        final(bits).bytes@ == old(bits).bytes@,
        final(bits).pos() >= old(bits).pos(),
        final(out)@.len() <= MAX_OUTPUT,
        old(out)@.is_prefix_of(final(out)@),
        ({
            let res = block_run(
                literals.counts(),
                literals.symbols(),
                distances.counts(),
                distances.symbols(),
                old(bits).bytes@,
                old(bits).pos(),
                old(out)@,
            );
            &&& r is Ok <==> res is Ok
            &&& r is Ok ==> res == Ok::<(Seq<u8>, int), InflateError>((final(out)@, final(bits).pos()))
            &&& r matches Err(e) ==> res == Err::<(Seq<u8>, int), InflateError>(e)
        }),
{
    let ghost b = bits.bytes@;
    let ghost p0 = bits.pos();
    let ghost start_out = out@;
    let ghost whole = block_run(
        literals.counts(),
        literals.symbols(),
        distances.counts(),
        distances.symbols(),
        b,
        p0,
        start_out,
    );
    loop
        invariant
            bits.wf(),
            bits.bytes@ == b,
            b == old(bits).bytes@,
            p0 == old(bits).pos(),
            bits.pos() >= p0,
            literals.wf(),
            distances.wf(),
            out@.len() <= MAX_OUTPUT,
            start_out == old(out)@,
            start_out.is_prefix_of(out@),
            whole == block_run(
                literals.counts(),
                literals.symbols(),
                distances.counts(),
                distances.symbols(),
                b,
                p0,
                start_out,
            ),
            whole == block_run(
                literals.counts(),
                literals.symbols(),
                distances.counts(),
                distances.symbols(),
                b,
                bits.pos(),
                out@,
            ),
        decreases bits.remaining(),
    {
        let ghost mid = out@;
        match block_symbol(bits, out, literals, distances) {
            Ok(true) => return Ok(()),
            Ok(false) => {},
            Err(e) => return Err(e),
        }
        proof {
            assert(out@.subrange(0, start_out.len() as int) =~= start_out) by {
                assert(mid.subrange(0, start_out.len() as int) =~= start_out);
                assert(out@.subrange(0, mid.len() as int) =~= mid);
            }
        }
    }
}

/// A stored block whose header bits end at bit `p`, appended to `out`: skip
/// to a byte boundary, read `LEN` and its complement, copy `LEN` bytes.
pub open spec fn stored_step(b: Seq<u8>, p: int, out: Seq<u8>) -> Result<(Seq<u8>, int), InflateError> {
    let q = aligned(p) / 8;
    let n = le16(b, q);
    if q + 4 > b.len() {
        Err(InflateError::Truncated)
    } else if !stored_lengths_agree(b, q) {
        Err(InflateError::StoredLengthMismatch)
    } else if q + 4 + n > b.len() {
        Err(InflateError::Truncated)
    } else if out.len() + n > MAX_OUTPUT {
        Err(InflateError::OutputTooLarge)
    } else {
        Ok((out + b.subrange(q + 4, q + 4 + n), 8 * (q + 4 + n)))
    }
}

/// The body of a block of type `kind` whose header ends at bit `p`: stored,
/// fixed Huffman or dynamic Huffman, appended to `out`; type 3 is reserved.
pub open spec fn block_body(b: Seq<u8>, p: int, kind: int, out: Seq<u8>) -> Result<(Seq<u8>, int), InflateError> {
    if kind == 0 {
        stored_step(b, p, out)
    } else if kind == 1 {
        block_run(
            length_counts(fixed_literal_lengths()),
            canonical_symbols(fixed_literal_lengths()),
            length_counts(fixed_distance_lengths()),
            canonical_symbols(fixed_distance_lengths()),
            b,
            p,
            out,
        )
    } else if kind == 2 {
        match dynamic_header(b, p) {
            Err(e) => Err(e),
            Ok((l, d, q)) => block_run(
                length_counts(l),
                canonical_symbols(l),
                length_counts(d),
                canonical_symbols(d),
                b,
                q,
                out,
            ),
        }
    } else {
        Err(InflateError::ReservedBlockType)
    }
}

/// Inflating the blocks from bit `p` on, `out` decoded so far (RFC 1951):
/// each block starts with `BFINAL` and the two-bit `BTYPE`; the output is
/// everything decoded up to the end of the final block, or the first error.
/// (A block always ends past its start and within the stream, so the last
/// branch is never taken; it only bounds the recursion.)
pub open spec fn inflate_from(b: Seq<u8>, p: int, out: Seq<u8>) -> Result<Seq<u8>, InflateError>
    decreases 8 * b.len() - p,
{
    if p + 3 > 8 * b.len() {
        Err(InflateError::Truncated)
    } else {
        match block_body(b, p + 3, bits_le(b, p + 1, 2), out) {
            Err(e) => Err(e),
            Ok((out2, p2)) => if bit_of(b, p) == 1 {
                Ok(out2)
            } else if p < p2 <= 8 * b.len() {
                inflate_from(b, p2, out2)
            } else {
                Err(InflateError::Truncated)
            },
        }
    }
}

/// What inflating the whole stream `b` gives.
pub open spec fn inflate_spec(b: Seq<u8>) -> Result<Seq<u8>, InflateError> {
    inflate_from(b, 0, Seq::empty())
}

/// `r` is what inflating `b` gives.
pub open spec fn inflated(b: Seq<u8>, r: Result<Vec<u8>, InflateError>) -> bool {
    match inflate_spec(b) {
        Ok(s) => r matches Ok(out) && out@ == s,
        Err(e) => r == Err::<Vec<u8>, InflateError>(e),
    }
}

/// The size hint never changes what a stream inflates to: two results for
/// the same bytes agree, whatever `expected` each call was given.
pub proof fn lemma_inflate_ignores_expected(
    b: Seq<u8>,
    r1: Result<Vec<u8>, InflateError>,
    r2: Result<Vec<u8>, InflateError>,
)
    requires
        inflated(b, r1),
        inflated(b, r2),
    ensures
        r1 is Ok <==> r2 is Ok,
        r1 matches Ok(o1) ==> (r2 matches Ok(o2) && o1@ == o2@),
        r1 matches Err(e1) ==> r2 == Err::<Vec<u8>, InflateError>(e1),
{
}

/// A stream that is exactly one final stored block: `BFINAL = 1`,
/// `BTYPE = 00`, then `LEN`, its complement, and `LEN` bytes.
pub open spec fn single_stored_block(b: Seq<u8>) -> bool {
    &&& b.len() >= 5
    &&& b[0] % 8 == 1
    &&& stored_lengths_agree(b, 1)
    &&& 5 + le16(b, 1) <= b.len()
}

/// The first block header names the reserved block type `11`.
pub open spec fn reserved_first_block(b: Seq<u8>) -> bool {
    b.len() >= 1 && (b[0] / 2) % 4 == 3
}

/// The first block is stored, and its length check fails.
pub open spec fn stored_length_mismatch_first(b: Seq<u8>) -> bool {
    b.len() >= 5 && b[0] % 8 == 1 && !stored_lengths_agree(b, 1)
}

/// A truncated stored stream never inflates: every strict prefix of a stream
/// that is exactly one final stored block is an error.
pub proof fn lemma_stored_prefix_fails(b: Seq<u8>, k: int)
    requires
        single_stored_block(b),
        b.len() == 5 + le16(b, 1),
        0 <= k < b.len(),
    ensures
        inflate_spec(b.take(k)) is Err,
{
    let c = b.take(k);
    if k > 0 {
        lemma_bits_in_byte(c, 0, 1, 2);
        lemma2_to64();
        let x = b[0];
        assert(c[0] == x);
        assert(x % 8 == 1 ==> (x / 2) % 4 == 0) by (bit_vector);
        assert(bits_le(c, 1, 2) == 0);
        assert(aligned(3) == 8);
        if k >= 5 {
            assert(le16(c, 1) == le16(b, 1));
            assert(le16(c, 3) == le16(b, 3));
        }
    }
}

/// The `n` bits from bit `k` of byte `i`, when they stay within the byte.
proof fn lemma_bits_in_byte(b: Seq<u8>, i: int, k: nat, n: nat)
    requires
        0 <= i < b.len(),
        k + n <= 8,
    ensures
        bits_le(b, 8 * i + k, n) == (b[i] as int / pow2(k) as int) % pow2(n) as int,
{
    let rest = (8 - k - n) as nat;
    lemma_bits_le_byte_rest(b, i, k);
    lemma_bits_le_split(b, 8 * i + k, n, rest);
    assert(n + rest == (8 - k) as nat);
    lemma_bits_le_bounds(b, 8 * i + k, n);
    lemma_bits_le_bounds(b, 8 * i + k + n, rest);
    lemma_pow2_pos(n);
    vstd::arithmetic::mul::lemma_mul_is_commutative(pow2(n) as int, bits_le(b, 8 * i + k + n, rest));
    lemma_fundamental_div_mod_converse(
        b[i] as int / pow2(k) as int,
        pow2(n) as int,
        bits_le(b, 8 * i + k + n, rest),
        bits_le(b, 8 * i + k, n),
    );
}

/// Inflates a raw DEFLATE stream.
///
/// The result is `inflate_spec` of the bytes. `expected` is the size the
/// container claims, used only to size the first allocation; it is never
/// trusted as a limit and never changes the result.
pub fn inflate(bytes: &[u8], expected: usize) -> (r: Result<Vec<u8>, InflateError>)
    ensures
        inflated(bytes@, r),
        r matches Ok(out) ==> out@.len() <= MAX_OUTPUT,
        bytes@.len() == 0 ==> r == Err::<Vec<u8>, InflateError>(InflateError::Truncated),
        single_stored_block(bytes@) ==> (r matches Ok(out) && out@ == bytes@.subrange(
            5,
            5 + le16(bytes@, 1),
        )),
        reserved_first_block(bytes@) ==> r == Err::<Vec<u8>, InflateError>(
            InflateError::ReservedBlockType,
        ),
        stored_length_mismatch_first(bytes@) ==> r == Err::<Vec<u8>, InflateError>(
            InflateError::StoredLengthMismatch,
        ),
{
    let ghost b = bytes@;
    let mut bits = BitReader::new(bytes);
    let capacity = if expected < 0x10_0000 {
        expected
    } else {
        0x10_0000
    };
    let mut out: Vec<u8> = Vec::with_capacity(capacity);
    let ghost mut first = true;
    proof {
        if b.len() >= 1 {
            lemma_bits_in_byte(b, 0, 0, 1);
            lemma_bits_in_byte(b, 0, 1, 2);
            lemma2_to64();
        }
    }
    loop
        invariant
            bits.wf(),
            bits.bytes@ == b,
            b == bytes@,
            out@.len() <= MAX_OUTPUT,
            first ==> bits.pos() == 0 && out@.len() == 0,
            b.len() >= 1 ==> bit_of(b, 0) == b[0] % 2 && bits_le(b, 1, 2) == (b[0] / 2) % 4,
            !first ==> !(b.len() == 0 || single_stored_block(b) || reserved_first_block(b)
                || stored_length_mismatch_first(b)),
            inflate_spec(b) == inflate_from(b, bits.pos(), out@),
        decreases bits.remaining(),
    {
        let ghost p = bits.pos();
        let ghost before = out@;
        let last = match bits.bit() {
            Ok(v) => v,
            Err(e) => return Err(e),
        };
        let kind = match bits.bits(2) {
            Ok(v) => v,
            Err(e) => return Err(e),
        };
        proof {
            lemma_bits_le_bounds(b, p + 1, 2);
            lemma2_to64();
        }
        if kind == 0 {
            let r = stored(&mut bits, &mut out);
            proof {
                if first && b.len() >= 5 {
                    assert(aligned(3) == 8);
                    assert(le16(b, 1) <= 0xFFFF);
                }
            }
            match r {
                Ok(()) => {},
                Err(e) => return Err(e),
            }
        } else if kind == 1 {
            let (literals, distances) = match fixed_tables() {
                Ok(t) => t,
                Err(e) => return Err(e),
            };
            proof {
                literals.lemma_built_from(fixed_literal_lengths());
                distances.lemma_built_from(fixed_distance_lengths());
            }
            match block(&mut bits, &mut out, &literals, &distances) {
                Ok(()) => {},
                Err(e) => return Err(e),
            }
        } else if kind == 2 {
            let (literals, distances) = match dynamic_tables(&mut bits) {
                Ok(t) => t,
                Err(e) => return Err(e),
            };
            proof {
                let (ll, dd, q) = dynamic_header(b, p + 3)->Ok_0;
                literals.lemma_built_from(ll);
                distances.lemma_built_from(dd);
            }
            match block(&mut bits, &mut out, &literals, &distances) {
                Ok(()) => {},
                Err(e) => return Err(e),
            }
        } else {
            return Err(InflateError::ReservedBlockType);
        }
        if last == 1 {
            proof {
                if first && single_stored_block(b) {
                    assert(out@ =~= b.subrange(5, 5 + le16(b, 1)));
                }
            }
            return Ok(out);
        }
        proof {
            first = false;
        }
    }
}

} // verus!
