//! The tile image's byte codec: a writer that appends fixed-width
//! little-endian fields and a reader that takes them back, refusing every
//! count it is handed before it can be used to reserve memory.

use vstd::prelude::*;
use std::string::String;
use std::vec::Vec;
use vstd::string::StringSliceAdditionalSpecFns;
use vstd::utf8::{encode_utf8, valid_utf8};
use crate::text::utf8_text;
use crate::tile::TileKey;
use crate::types::{ActorId, OpId};

verus! {

/// Image format version. A reader refuses any other.
pub const IMAGE_VERSION: u16 = 1;

/// Bounds on an untrusted image: above anything a real workbook produces,
/// below anything that could exhaust memory.
pub const MAX_AXIS_ENTRIES: usize = 0x400_0000;
pub const MAX_TILES: usize = 0x40_0000;
pub const MAX_FORMULAS: usize = 0x100_0000;
pub const MAX_LOSERS: usize = 0x1_0000;
pub const MAX_TEXT_BYTES: usize = 0x400_0000;

/// Why a byte string is not an image this build can load.
#[derive(Clone, Copy, PartialEq, Eq, Debug)]
pub enum ImageError {
    NotAnImage,
    /// Written by a build with a different image format.
    UnsupportedVersion(u16),
    Truncated,
    /// A count or tag outside its defined range.
    Malformed(&'static str),
    /// A length that would allocate more than the bound allows.
    CapExceeded(&'static str),
}

/// `256^n`.
pub open spec fn pow256(n: nat) -> int
    decreases n,
{
    if n == 0 {
        1
    } else {
        256 * pow256((n - 1) as nat)
    }
}

/// `v` as `n` little-endian bytes, least significant first.
pub open spec fn le_bytes(v: nat, n: nat) -> Seq<u8>
    decreases n,
{
    if n == 0 {
        Seq::empty()
    } else {
        seq![(v % 256) as u8] + le_bytes(v / 256, (n - 1) as nat)
    }
}

/// The number little-endian bytes spell.
pub open spec fn le_value(s: Seq<u8>) -> nat
    decreases s.len(),
{
    if s.len() == 0 {
        0
    } else {
        (s[0] + 256 * le_value(s.drop_first())) as nat
    }
}

/// The number big-endian bytes spell.
pub open spec fn be_value(s: Seq<u8>) -> nat
    decreases s.len(),
{
    if s.len() == 0 {
        0
    } else {
        (be_value(s.drop_last()) * 256 + s.last()) as nat
    }
}

proof fn lemma_pow256_pos(n: nat)
    ensures
        pow256(n) >= 1,
    decreases n,
{
    if n > 0 {
        lemma_pow256_pos((n - 1) as nat);
    }
}

pub proof fn lemma_pow256_values()
    ensures
        pow256(1) == 0x100,
        pow256(2) == 0x1_0000,
        pow256(4) == 0x1_0000_0000,
        pow256(8) == 0x1_0000_0000_0000_0000,
        pow256(16) == 0x1_0000_0000_0000_0000_0000_0000_0000_0000,
{
    reveal_with_fuel(pow256, 17);
}

proof fn lemma_le_bytes_len(v: nat, n: nat)
    ensures
        le_bytes(v, n).len() == n,
    decreases n,
{
    if n > 0 {
        lemma_le_bytes_len(v / 256, (n - 1) as nat);
    }
}

/// Bytes read back as a number, written back out, are the same bytes.
pub proof fn lemma_le_bytes_of_value(s: Seq<u8>)
    ensures
        le_value(s) < pow256(s.len()),
        le_bytes(le_value(s), s.len()) == s,
    decreases s.len(),
{
    if s.len() > 0 {
        lemma_le_bytes_of_value(s.drop_first());
        let w = le_value(s.drop_first());
        assert((s[0] + 256 * w) % 256 == s[0]);
        assert((s[0] + 256 * w) / 256 == w);
        assert(le_bytes(le_value(s), s.len()) =~= s);
    }
}

/// A number below `256^n` written as `n` little-endian bytes reads back as
/// itself.
pub proof fn lemma_le_round_trip(v: nat, n: nat)
    requires
        v < pow256(n),
    ensures
        le_bytes(v, n).len() == n,
        le_value(le_bytes(v, n)) == v,
    decreases n,
{
    lemma_le_bytes_len(v, n);
    if n > 0 {
        lemma_le_round_trip(v / 256, (n - 1) as nat);
        assert(le_bytes(v, n).drop_first() =~= le_bytes(v / 256, (n - 1) as nat));
    }
}

/// Appends `n` little-endian bytes of `v`.
fn put_le(out: &mut Vec<u8>, v: u128, n: usize)
    requires
        n <= 16,
        v < pow256(n as nat),
    ensures
        final(out)@ == old(out)@ + le_bytes(v as nat, n as nat),
{
    let mut x: u128 = v;
    let mut k: usize = 0;
    while k < n
        invariant
            k <= n,
            out@ + le_bytes(x as nat, (n - k) as nat) == old(out)@ + le_bytes(v as nat, n as nat),
        decreases n - k,
    {
        let ghost before = out@;
        out.push((x % 256) as u8);
        proof {
            assert(out@ + le_bytes((x / 256) as nat, (n - k - 1) as nat) =~= before + le_bytes(
                x as nat,
                (n - k) as nat,
            ));
        }
        x = x / 256;
        k = k + 1;
    }
    assert(le_bytes(x as nat, 0) =~= Seq::<u8>::empty());
}

/// `v` as `n` big-endian bytes, most significant first.
pub open spec fn be_bytes(v: nat, n: nat) -> Seq<u8>
    decreases n,
{
    if n == 0 {
        Seq::empty()
    } else {
        be_bytes(v / 256, (n - 1) as nat) + seq![(v % 256) as u8]
    }
}

/// A number below `256^n` written as `n` big-endian bytes reads back as
/// itself.
pub proof fn lemma_be_round_trip(v: nat, n: nat)
    requires
        v < pow256(n),
    ensures
        be_bytes(v, n).len() == n,
        be_value(be_bytes(v, n)) == v,
    decreases n,
{
    if n > 0 {
        lemma_pow256_mono((n - 1) as nat, (n - 1) as nat);
        lemma_be_round_trip(v / 256, (n - 1) as nat);
        assert(be_bytes(v, n).drop_last() =~= be_bytes(v / 256, (n - 1) as nat));
    }
}

/// Big-endian bytes are little-endian bytes in reverse.
proof fn lemma_be_is_reversed_le(v: nat, n: nat)
    ensures
        be_bytes(v, n) == le_bytes(v, n).reverse(),
    decreases n,
{
    if n > 0 {
        lemma_be_is_reversed_le(v / 256, (n - 1) as nat);
        lemma_le_bytes_len(v / 256, (n - 1) as nat);
        assert(be_bytes(v, n) =~= le_bytes(v, n).reverse());
    }
}

/// Appends `n` big-endian bytes of `v`.
pub(crate) fn put_be(out: &mut Vec<u8>, v: u128, n: usize)
    requires
        n <= 16,
        v < pow256(n as nat),
    ensures
        final(out)@ == old(out)@ + be_bytes(v as nat, n as nat),
{
    let mut le: Vec<u8> = Vec::new();
    put_le(&mut le, v, n);
    proof {
        lemma_le_bytes_len(v as nat, n as nat);
        lemma_be_is_reversed_le(v as nat, n as nat);
    }
    let mut k: usize = n;
    while k > 0
        invariant
            k <= n,
            le@ == le_bytes(v as nat, n as nat),
            le@.len() == n,
            out@ == old(out)@ + le@.reverse().subrange(0, (n - k) as int),
        decreases k,
    {
        out.push(le[k - 1]);
        proof {
            assert(le@.reverse()[(n - k) as int] == le@[k - 1]);
            assert(le@.reverse().subrange(0, (n - k + 1) as int) =~= le@.reverse().subrange(0, (n - k) as int).push(le@[k - 1]));
        }
        k = k - 1;
    }
    assert(le@.reverse().subrange(0, n as int) =~= le@.reverse());
}

/// The number the little-endian bytes of a short slice spell.
pub(crate) fn get_le(b: &[u8]) -> (r: u128)
    requires
        b@.len() <= 16,
    ensures
        r == le_value(b@),
{
    let n = b.len();
    let mut acc: u128 = 0;
    let mut i: usize = n;
    proof {
        lemma_le_bytes_of_value(b@);
        lemma_pow256_values();
    }
    while i > 0
        invariant
            i <= n,
            n == b@.len(),
            n <= 16,
            acc == le_value(b@.subrange(i as int, n as int)),
            acc < pow256((n - i) as nat),
            pow256(16) == 0x1_0000_0000_0000_0000_0000_0000_0000_0000,
        decreases i,
    {
        proof {
            assert(b@.subrange(i - 1, n as int).drop_first() =~= b@.subrange(i as int, n as int));
            lemma_pow256_mono((n - i) as nat, 15);
        }
        acc = (b[i - 1] as u128) + 256 * acc;
        i = i - 1;
    }
    assert(b@.subrange(0, n as int) =~= b@);
    acc
}

/// The number the big-endian bytes of a short slice spell.
pub(crate) fn get_be(b: &[u8]) -> (r: u128)
    requires
        b@.len() <= 16,
    ensures
        r == be_value(b@),
{
    let n = b.len();
    let mut acc: u128 = 0;
    let mut i: usize = 0;
    proof {
        lemma_pow256_values();
    }
    while i < n
        invariant
            i <= n,
            n == b@.len(),
            n <= 16,
            acc == be_value(b@.subrange(0, i as int)),
            acc < pow256(i as nat),
            pow256(16) == 0x1_0000_0000_0000_0000_0000_0000_0000_0000,
        decreases n - i,
    {
        proof {
            assert(b@.subrange(0, i + 1).drop_last() =~= b@.subrange(0, i as int));
            lemma_pow256_mono(i as nat, 15);
        }
        acc = 256 * acc + (b[i] as u128);
        i = i + 1;
    }
    assert(b@.subrange(0, n as int) =~= b@);
    acc
}

proof fn lemma_pow256_mono(k: nat, j: nat)
    requires
        k <= j,
    ensures
        pow256(k) <= pow256(j),
        pow256(k + 1) == 256 * pow256(k),
    decreases j,
{
    lemma_pow256_pos(k);
    if k < j {
        lemma_pow256_mono(k, (j - 1) as nat);
    }
}

/// An op id as the image writes it: the actor's 16 bytes, then the
/// counter's 8.
pub open spec fn opid_bytes(id: OpId) -> Seq<u8> {
    le_bytes(id.actor.0 as nat, 16) + le_bytes(id.counter as nat, 8)
}

/// Appends image fields to a byte buffer.
pub struct Writer {
    pub out: Vec<u8>,
    /// Byte ranges of each tile, in write order.
    pub tiles: Vec<(TileKey, usize, usize)>,
}

impl Writer {
    pub fn u8(&mut self, v: u8)
        ensures
            final(self).out@ == old(self).out@.push(v),
            final(self).tiles@ == old(self).tiles@,
    {
        self.out.push(v);
    }

    pub fn u16(&mut self, v: u16)
        ensures
            final(self).out@ == old(self).out@ + le_bytes(v as nat, 2),
            final(self).tiles@ == old(self).tiles@,
    {
        proof {
            lemma_pow256_values();
        }
        put_le(&mut self.out, v as u128, 2);
    }

    pub fn u32(&mut self, v: u32)
        ensures
            final(self).out@ == old(self).out@ + le_bytes(v as nat, 4),
            final(self).tiles@ == old(self).tiles@,
    {
        proof {
            lemma_pow256_values();
        }
        put_le(&mut self.out, v as u128, 4);
    }

    pub fn u64(&mut self, v: u64)
        ensures
            final(self).out@ == old(self).out@ + le_bytes(v as nat, 8),
            final(self).tiles@ == old(self).tiles@,
    {
        proof {
            lemma_pow256_values();
        }
        put_le(&mut self.out, v as u128, 8);
    }

    /// Two's complement, little-endian.
    pub fn i128(&mut self, v: i128)
        ensures
            final(self).out@ == old(self).out@ + le_bytes((v as u128) as nat, 16),
            final(self).tiles@ == old(self).tiles@,
    {
        proof {
            lemma_pow256_values();
        }
        put_le(&mut self.out, v as u128, 16);
    }

    /// Two's complement, little-endian.
    pub fn i16(&mut self, v: i16)
        ensures
            final(self).out@ == old(self).out@ + le_bytes((v as u16) as nat, 2),
            final(self).tiles@ == old(self).tiles@,
    {
        proof {
            lemma_pow256_values();
        }
        put_le(&mut self.out, (v as u16) as u128, 2);
    }

    /// A length, as a `u32`.
    pub fn len(&mut self, v: usize)
        ensures
            final(self).out@ == old(self).out@ + le_bytes((v as u32) as nat, 4),
            final(self).tiles@ == old(self).tiles@,
    {
        self.u32(v as u32);
    }

    pub fn opid(&mut self, id: &OpId)
        ensures
            final(self).out@ == old(self).out@ + opid_bytes(*id),
            final(self).tiles@ == old(self).tiles@,
    {
        proof {
            lemma_pow256_values();
        }
        put_le(&mut self.out, id.actor.0, 16);
        self.u64(id.counter);
        assert(self.out@ =~= old(self).out@ + opid_bytes(*id));
    }

    /// A length-prefixed UTF-8 string.
    pub fn text(&mut self, s: &str)
        ensures
            final(self).out@ == old(self).out@ + le_bytes(
                ((s.spec_bytes().len() as usize) as u32) as nat,
                4,
            ) + s.spec_bytes(),
            final(self).tiles@ == old(self).tiles@,
    {
        self.len(s.len());
        let b = s.as_bytes();
        let ghost mid = self.out@;
        self.out.extend_from_slice(b);
        assert(self.out@ =~= mid + s.spec_bytes());
    }
}

/// A position in an image, reading forward.
pub struct Reader<'a> {
    b: &'a [u8],
    at: usize,
}

impl<'a> Reader<'a> {
    /// The bytes being read.
    pub closed spec fn bytes(&self) -> Seq<u8> {
        self.b@
    }

    /// How far the reader has got.
    pub closed spec fn pos(&self) -> int {
        self.at as int
    }

    /// The `n` bytes from the current position on, when there are that many.
    pub open spec fn ahead(&self, n: int) -> Seq<u8> {
        self.bytes().subrange(self.pos(), self.pos() + n)
    }

    /// A reader never stands before the start of its bytes.
    pub proof fn lemma_pos(&self)
        ensures
            0 <= self.pos(),
    {
    }

    /// Whether `n` more bytes remain.
    pub open spec fn has(&self, n: int) -> bool {
        0 <= self.pos() && self.pos() + n <= self.bytes().len()
    }

    /// A reader at the start of `b`.
    pub fn new(b: &'a [u8]) -> (r: Reader<'a>)
        ensures
            r.bytes() == b@,
            r.pos() == 0,
    {
        Reader { b, at: 0 }
    }

    /// Where the reader stands.
    pub fn at(&self) -> (r: usize)
        ensures
            r == self.pos(),
    {
        self.at
    }

    /// The next `n` bytes.
    pub fn take(&mut self, n: usize) -> (r: Result<&'a [u8], ImageError>)
        requires
            old(self).pos() <= old(self).bytes().len(),
        ensures
            final(self).bytes() == old(self).bytes(),
            r is Ok <==> old(self).has(n as int),
            r matches Ok(s) ==> s@ == old(self).ahead(n as int) && final(self).pos() == old(self).pos() + n,
            r matches Err(e) ==> e == ImageError::Truncated && final(self).pos() == old(self).pos(),
            final(self).pos() <= final(self).bytes().len(),
    {
        let len = self.b.len();
        let end = match self.at.checked_add(n) {
            Some(e) => e,
            None => return Err(ImageError::Truncated),
        };
        if end > len {
            return Err(ImageError::Truncated);
        }
        let slice = &self.b[self.at..end];
        self.at = end;
        Ok(slice)
    }

    pub fn u8(&mut self) -> (r: Result<u8, ImageError>)
        requires
            old(self).pos() <= old(self).bytes().len(),
        ensures
            final(self).bytes() == old(self).bytes(),
            r is Ok <==> old(self).has(1),
            r matches Ok(v) ==> v == old(self).bytes()[old(self).pos()] && final(self).pos() == old(self).pos() + 1,
            r matches Err(e) ==> e == ImageError::Truncated && final(self).pos() == old(self).pos(),
            final(self).pos() <= final(self).bytes().len(),
    {
        let b = self.take(1)?;
        Ok(b[0])
    }

    pub fn u16(&mut self) -> (r: Result<u16, ImageError>)
        requires
            old(self).pos() <= old(self).bytes().len(),
        ensures
            final(self).bytes() == old(self).bytes(),
            r is Ok <==> old(self).has(2),
            r matches Ok(v) ==> v == le_value(old(self).ahead(2)) && final(self).pos() == old(self).pos() + 2,
            r matches Err(e) ==> e == ImageError::Truncated && final(self).pos() == old(self).pos(),
            final(self).pos() <= final(self).bytes().len(),
    {
        let b = self.take(2)?;
        proof {
            lemma_le_bytes_of_value(b@);
            lemma_pow256_values();
        }
        Ok(get_le(b) as u16)
    }

    pub fn u32(&mut self) -> (r: Result<u32, ImageError>)
        requires
            old(self).pos() <= old(self).bytes().len(),
        ensures
            final(self).bytes() == old(self).bytes(),
            r is Ok <==> old(self).has(4),
            r matches Ok(v) ==> v == le_value(old(self).ahead(4)) && final(self).pos() == old(self).pos() + 4,
            r matches Err(e) ==> e == ImageError::Truncated && final(self).pos() == old(self).pos(),
            final(self).pos() <= final(self).bytes().len(),
    {
        let b = self.take(4)?;
        proof {
            lemma_le_bytes_of_value(b@);
            lemma_pow256_values();
        }
        Ok(get_le(b) as u32)
    }

    pub fn u64(&mut self) -> (r: Result<u64, ImageError>)
        requires
            old(self).pos() <= old(self).bytes().len(),
        ensures
            final(self).bytes() == old(self).bytes(),
            r is Ok <==> old(self).has(8),
            r matches Ok(v) ==> v == le_value(old(self).ahead(8)) && final(self).pos() == old(self).pos() + 8,
            r matches Err(e) ==> e == ImageError::Truncated && final(self).pos() == old(self).pos(),
            final(self).pos() <= final(self).bytes().len(),
    {
        let b = self.take(8)?;
        proof {
            lemma_le_bytes_of_value(b@);
            lemma_pow256_values();
        }
        Ok(get_le(b) as u64)
    }

    /// Two's complement, little-endian.
    pub fn i16(&mut self) -> (r: Result<i16, ImageError>)
        requires
            old(self).pos() <= old(self).bytes().len(),
        ensures
            final(self).bytes() == old(self).bytes(),
            r is Ok <==> old(self).has(2),
            r matches Ok(v) ==> v as u16 == le_value(old(self).ahead(2)) && final(self).pos() == old(self).pos() + 2,
            r matches Err(e) ==> e == ImageError::Truncated && final(self).pos() == old(self).pos(),
            final(self).pos() <= final(self).bytes().len(),
    {
        let v = self.u16()?;
        let r = v as i16;
        assert(r as u16 == v) by (bit_vector)
            requires r == v as i16;
        Ok(r)
    }

    /// Two's complement, little-endian.
    pub fn i128(&mut self) -> (r: Result<i128, ImageError>)
        requires
            old(self).pos() <= old(self).bytes().len(),
        ensures
            final(self).bytes() == old(self).bytes(),
            r is Ok <==> old(self).has(16),
            r matches Ok(v) ==> v as u128 == le_value(old(self).ahead(16)) && final(self).pos() == old(self).pos() + 16,
            r matches Err(e) ==> e == ImageError::Truncated && final(self).pos() == old(self).pos(),
            final(self).pos() <= final(self).bytes().len(),
    {
        let b = self.take(16)?;
        let u = get_le(b);
        let r = u as i128;
        assert(r as u128 == u) by (bit_vector)
            requires r == u as i128;
        Ok(r)
    }

    pub fn u32_be(&mut self) -> (r: Result<u32, ImageError>)
        requires
            old(self).pos() <= old(self).bytes().len(),
        ensures
            final(self).bytes() == old(self).bytes(),
            r is Ok <==> old(self).has(4),
            r matches Ok(v) ==> v == be_value(old(self).ahead(4)) && final(self).pos() == old(self).pos() + 4,
            r matches Err(e) ==> e == ImageError::Truncated && final(self).pos() == old(self).pos(),
            final(self).pos() <= final(self).bytes().len(),
    {
        let b = self.take(4)?;
        proof {
            lemma_be_bound(b@);
            lemma_pow256_values();
        }
        Ok(get_be(b) as u32)
    }

    pub fn u64_be(&mut self) -> (r: Result<u64, ImageError>)
        requires
            old(self).pos() <= old(self).bytes().len(),
        ensures
            final(self).bytes() == old(self).bytes(),
            r is Ok <==> old(self).has(8),
            r matches Ok(v) ==> v == be_value(old(self).ahead(8)) && final(self).pos() == old(self).pos() + 8,
            r matches Err(e) ==> e == ImageError::Truncated && final(self).pos() == old(self).pos(),
            final(self).pos() <= final(self).bytes().len(),
    {
        let b = self.take(8)?;
        proof {
            lemma_be_bound(b@);
            lemma_pow256_values();
        }
        Ok(get_be(b) as u64)
    }

    /// Two's complement, big-endian.
    pub fn i16_be(&mut self) -> (r: Result<i16, ImageError>)
        requires
            old(self).pos() <= old(self).bytes().len(),
        ensures
            final(self).bytes() == old(self).bytes(),
            r is Ok <==> old(self).has(2),
            r matches Ok(v) ==> v as u16 == be_value(old(self).ahead(2)) && final(self).pos() == old(self).pos() + 2,
            r matches Err(e) ==> e == ImageError::Truncated && final(self).pos() == old(self).pos(),
            final(self).pos() <= final(self).bytes().len(),
    {
        let b = self.take(2)?;
        proof {
            lemma_be_bound(b@);
            lemma_pow256_values();
        }
        let u = get_be(b) as u16;
        let r = u as i16;
        assert(r as u16 == u) by (bit_vector)
            requires r == u as i16;
        Ok(r)
    }

    /// Two's complement, big-endian.
    pub fn i128_be(&mut self) -> (r: Result<i128, ImageError>)
        requires
            old(self).pos() <= old(self).bytes().len(),
        ensures
            final(self).bytes() == old(self).bytes(),
            r is Ok <==> old(self).has(16),
            r matches Ok(v) ==> v as u128 == be_value(old(self).ahead(16)) && final(self).pos() == old(self).pos() + 16,
            r matches Err(e) ==> e == ImageError::Truncated && final(self).pos() == old(self).pos(),
            final(self).pos() <= final(self).bytes().len(),
    {
        let b = self.take(16)?;
        let u = get_be(b);
        let r = u as i128;
        assert(r as u128 == u) by (bit_vector)
            requires r == u as i128;
        Ok(r)
    }

    /// An op id: the actor's 16 little-endian bytes, then the counter's 8.
    pub fn opid(&mut self) -> (r: Result<OpId, ImageError>)
        requires
            old(self).pos() <= old(self).bytes().len(),
        ensures
            final(self).bytes() == old(self).bytes(),
            r is Ok <==> old(self).has(24),
            r matches Ok(id) ==> id.actor.0 == le_value(old(self).ahead(16)) && id.counter
                == le_value(old(self).bytes().subrange(old(self).pos() + 16, old(self).pos() + 24))
                && final(self).pos() == old(self).pos() + 24,
            r matches Err(e) ==> e == ImageError::Truncated,
            final(self).pos() <= final(self).bytes().len(),
    {
        let b = self.take(16)?;
        let actor = get_le(b);
        let counter = self.u64()?;
        Ok(OpId { actor: ActorId(actor), counter })
    }

    /// A length, checked against its bound before anything can reserve it.
    pub fn count(&mut self, cap: usize, what: &'static str) -> (r: Result<usize, ImageError>)
        requires
            old(self).pos() <= old(self).bytes().len(),
        ensures
            final(self).bytes() == old(self).bytes(),
            final(self).pos() <= final(self).bytes().len(),
            !old(self).has(4) ==> r == Err::<usize, ImageError>(ImageError::Truncated),
            old(self).has(4) ==> final(self).pos() == old(self).pos() + 4 && (if le_value(
                old(self).ahead(4),
            ) > cap {
                r == Err::<usize, ImageError>(ImageError::CapExceeded(what))
            } else {
                r == Ok::<usize, ImageError>(le_value(old(self).ahead(4)) as usize)
            }),
    {
        let n = self.u32()? as usize;
        if n > cap {
            return Err(ImageError::CapExceeded(what));
        }
        Ok(n)
    }

    /// A length-prefixed UTF-8 string of at most `cap` bytes.
    pub fn text(&mut self, cap: usize) -> (r: Result<String, ImageError>)
        requires
            old(self).pos() <= old(self).bytes().len(),
        ensures
            final(self).bytes() == old(self).bytes(),
            final(self).pos() <= final(self).bytes().len(),
            r is Ok <==> {
                &&& old(self).has(4)
                &&& le_value(old(self).ahead(4)) <= cap
                &&& old(self).has((4 + le_value(old(self).ahead(4))) as int)
                &&& valid_utf8(
                    old(self).bytes().subrange(
                        old(self).pos() + 4,
                        old(self).pos() + 4 + le_value(old(self).ahead(4)),
                    ),
                )
            },
            r matches Ok(s) ==> final(self).pos() == old(self).pos() + 4 + le_value(
                old(self).ahead(4),
            ) && encode_utf8(s@) == old(self).bytes().subrange(
                old(self).pos() + 4,
                old(self).pos() + 4 + le_value(old(self).ahead(4)),
            ),
    {
        let n = self.count(cap, "text")?;
        let b = self.take(n)?;
        match utf8_text(b) {
            Some(s) => Ok(String::from_str(s)),
            None => Err(ImageError::Malformed("text is not UTF-8")),
        }
    }
}

pub proof fn lemma_be_bound(s: Seq<u8>)
    ensures
        be_value(s) < pow256(s.len()),
    decreases s.len(),
{
    if s.len() > 0 {
        lemma_be_bound(s.drop_last());
        lemma_pow256_mono((s.len() - 1) as nat, (s.len() - 1) as nat);
    }
}


/// A field written at any point of an image reads back as the value
/// written, whatever came before it and whatever follows.
pub proof fn lemma_field_round_trip(before: Seq<u8>, v: nat, n: nat, after: Seq<u8>)
    requires
        v < pow256(n),
    ensures
        le_value((before + le_bytes(v, n) + after).subrange(
            before.len() as int,
            (before.len() + n) as int,
        )) == v,
{
    lemma_le_round_trip(v, n);
    assert((before + le_bytes(v, n) + after).subrange(before.len() as int, (before.len() + n) as int)
        =~= le_bytes(v, n));
}

/// Names the BLAKE3 digest of a byte string: 32 bytes that depend on the
/// bytes alone.
pub uninterp spec fn blake3_digest(data: Seq<u8>) -> Seq<u8>;

/// `blake3::hash`: the BLAKE3 digest of `data`, as its 32 bytes. The
/// contract says only that the result is the digest of exactly these bytes;
/// what the digest is is left to the crate.
#[verifier::external_body]
fn blake3_hash(data: &[u8]) -> (r: [u8; 32])
    ensures
        r@ == blake3_digest(data@),
{
    *blake3::hash(data).as_bytes()
}

/// Whether every tile range lies inside the image.
pub open spec fn ranges_inside(image: Seq<u8>, tiles: Seq<(TileKey, usize, usize)>) -> bool {
    forall|i: int| 0 <= i < tiles.len() ==> #[trigger] tiles[i].1 <= tiles[i].2 <= image.len()
}

/// The BLAKE3 hash of each tile chunk of an image, keyed by the tile's
/// bands. Two images that share a tile's bytes give that tile the same hash.
pub fn chunk_hashes(image: &[u8], tiles: &[(TileKey, usize, usize)]) -> (r: Vec<((u32, u32), [u8; 32])>)
    requires
        ranges_inside(image@, tiles@),
    ensures
        r@.len() == tiles@.len(),
        forall|i: int|
            0 <= i < tiles@.len() ==> (#[trigger] r@[i]).0 == (tiles@[i].0.row_band, tiles@[i].0.col_band)
                && r@[i].1@ == blake3_digest(image@.subrange(tiles@[i].1 as int, tiles@[i].2 as int)),
{
    let mut out: Vec<((u32, u32), [u8; 32])> = Vec::new();
    let mut i: usize = 0;
    while i < tiles.len()
        invariant
            i <= tiles@.len(),
            ranges_inside(image@, tiles@),
            out@.len() == i,
            forall|j: int|
                0 <= j < i ==> (#[trigger] out@[j]).0 == (tiles@[j].0.row_band, tiles@[j].0.col_band)
                    && out@[j].1@ == blake3_digest(image@.subrange(tiles@[j].1 as int, tiles@[j].2 as int)),
        decreases tiles@.len() - i,
    {
        let (key, start, end) = tiles[i];
        assert(tiles@[i as int].1 <= tiles@[i as int].2 <= image@.len());
        let digest = blake3_hash(&image[start..end]);
        out.push(((key.row_band, key.col_band), digest));
        i = i + 1;
    }
    out
}

} // verus!
