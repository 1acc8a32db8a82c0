//! A read-only ZIP reader and a STORED-only writer, with the container caps
//! that stop decompression bombs: an entry count, a per-entry output size, a
//! compression ratio and a whole-container output total.
//!
//! The central directory is authoritative for what an entry is; the local
//! header is only used to find where the entry's bytes start.

pub mod inflate;
pub mod write;
pub mod roundtrip;

use vstd::prelude::*;
use vstd::string::StringSliceAdditionalSpecFns;
use vstd::utf8::{valid_utf8, decode_utf8, encode_utf8};
use crate::zip::inflate::{InflateError, inflate};
use crate::text::{utf8_text, same_bytes};

verus! {

/// The largest accepted ratio of declared output to compressed size.
pub const MAX_RATIO: u64 = 100;
/// Entries in one container.
pub const MAX_ENTRIES: usize = 4096;
/// Uncompressed bytes across the whole container.
pub const MAX_TOTAL_OUTPUT: usize = 0x4000_0000;
/// The longest entry name accepted, in bytes.
pub const MAX_NAME_BYTES: usize = 512;

pub const EOCD_SIGNATURE: u32 = 0x0605_4b50;
pub const CENTRAL_SIGNATURE: u32 = 0x0201_4b50;
pub const LOCAL_SIGNATURE: u32 = 0x0403_4b50;
const EOCD_MIN_LEN: usize = 22;
const MAX_COMMENT: usize = 0xFFFF;

/// Why a byte string is not a ZIP this reader accepts.
#[derive(Clone, PartialEq, Eq, Debug)]
pub enum ZipError {
    /// No end-of-central-directory record.
    NotAZip,
    Truncated,
    /// A structure whose fields point outside the file, or are not what they
    /// claim to be.
    Malformed(&'static str),
    /// A compression method other than store (0) or deflate (8).
    UnsupportedMethod { name: String, method: u16 },
    /// The entry is encrypted; reported, never skipped.
    Encrypted { name: String },
    /// A cap was hit; `cap` names which.
    CapExceeded { cap: &'static str, name: String },
    /// A name that would escape a directory: `..`, an absolute path, a drive.
    UnsafeName { name: String },
    Inflate { name: String, err: InflateError },
    /// The entry's data did not match its recorded CRC-32.
    CrcMismatch { name: String },
}

// ------------------------------------------------------------------ CRC-32

/// One shift of the reflected CRC-32 register (polynomial 0xEDB88320).
pub open spec fn crc_step(c: u32) -> u32 {
    if c & 1 == 1 {
        (c >> 1) ^ 0xEDB8_8320u32
    } else {
        c >> 1
    }
}

/// `k` shifts of the register.
pub open spec fn crc_shift(c: u32, k: nat) -> u32
    decreases k,
{
    if k == 0 {
        c
    } else {
        crc_step(crc_shift(c, (k - 1) as nat))
    }
}

/// The register after feeding `bytes`, each XORed in and shifted eight times.
pub open spec fn crc_update(c: u32, bytes: Seq<u8>) -> u32
    decreases bytes.len(),
{
    if bytes.len() == 0 {
        c
    } else {
        crc_shift(crc_update(c, bytes.drop_last()) ^ (bytes.last() as u32), 8)
    }
}

/// CRC-32 (IEEE 802.3, as ZIP records it): initial register all ones, final
/// complement.
pub open spec fn crc32_of(bytes: Seq<u8>) -> u32 {
    !crc_update(0xFFFF_FFFFu32, bytes)
}

/// CRC-32 (IEEE), computed bitwise.
pub fn crc32(bytes: &[u8]) -> (r: u32)
    ensures
        r == crc32_of(bytes@),
{
    let mut crc: u32 = 0xFFFF_FFFF;
    let mut i: usize = 0;
    while i < bytes.len()
        invariant
            i <= bytes.len(),
            crc == crc_update(0xFFFF_FFFFu32, bytes@.take(i as int)),
        decreases bytes.len() - i,
    {
        proof {
            assert(bytes@.take(i + 1).drop_last() =~= bytes@.take(i as int));
        }
        crc = crc ^ (bytes[i] as u32);
        let ghost start = crc;
        let mut k: u32 = 0;
        while k < 8
            invariant
                k <= 8,
                crc == crc_shift(start, k as nat),
            decreases 8 - k,
        {
            if crc & 1 == 1 {
                crc = (crc >> 1) ^ 0xEDB8_8320u32;
            } else {
                crc = crc >> 1;
            }
            k = k + 1;
        }
        i = i + 1;
    }
    proof {
        assert(bytes@.take(bytes@.len() as int) =~= bytes@);
    }
    !crc
}

// --------------------------------------------------------- little endian

/// The little-endian `u16` at `p`.
pub open spec fn le16(b: Seq<u8>, p: int) -> int {
    b[p] + 256 * b[p + 1]
}

/// The little-endian `u32` at `p`.
pub open spec fn le32(b: Seq<u8>, p: int) -> int {
    le16(b, p) + 65536 * le16(b, p + 2)
}

/// A position in a byte slice, reading forward.
struct Cursor<'a> {
    bytes: &'a [u8],
    at: usize,
}

impl<'a> Cursor<'a> {
    fn new(bytes: &'a [u8], at: usize) -> (r: Cursor<'a>)
        ensures
            r.bytes@ == bytes@,
            r.at == at,
    {
        Cursor { bytes, at }
    }

    fn take(&mut self, n: usize) -> (r: Result<&'a [u8], ZipError>)
        ensures
            final(self).bytes@ == old(self).bytes@,
            old(self).at + n <= old(self).bytes@.len() <==> r is Ok,
            r matches Ok(s) ==> s@ == old(self).bytes@.subrange(
                old(self).at as int,
                old(self).at + n,
            ) && final(self).at == old(self).at + n,
            r matches Err(e) ==> e == ZipError::Truncated,
    {
        let len = self.bytes.len();
        let end = match self.at.checked_add(n) {
            Some(e) => e,
            None => return Err(ZipError::Truncated),
        };
        if end > len {
            return Err(ZipError::Truncated);
        }
        let slice = &self.bytes[self.at..end];
        self.at = end;
        Ok(slice)
    }

    fn skip(&mut self, n: usize) -> (r: Result<(), ZipError>)
        ensures
            final(self).bytes@ == old(self).bytes@,
            old(self).at + n <= old(self).bytes@.len() <==> r is Ok,
            r is Ok ==> final(self).at == old(self).at + n,
            r matches Err(e) ==> e == ZipError::Truncated,
    {
        match self.take(n) {
            Ok(_) => Ok(()),
            Err(e) => Err(e),
        }
    }

    fn u16(&mut self) -> (r: Result<u16, ZipError>)
        ensures
            final(self).bytes@ == old(self).bytes@,
            old(self).at + 2 <= old(self).bytes@.len() <==> r is Ok,
            r matches Ok(v) ==> v == le16(old(self).bytes@, old(self).at as int) && final(self).at == old(self).at + 2,
            r matches Err(e) ==> e == ZipError::Truncated,
    {
        let b = match self.take(2) {
            Ok(b) => b,
            Err(e) => return Err(e),
        };
        Ok(b[0] as u16 + 256 * (b[1] as u16))
    }

    fn u32(&mut self) -> (r: Result<u32, ZipError>)
        ensures
            final(self).bytes@ == old(self).bytes@,
            old(self).at + 4 <= old(self).bytes@.len() <==> r is Ok,
            r matches Ok(v) ==> v == le32(old(self).bytes@, old(self).at as int) && final(self).at == old(self).at + 4,
            r matches Err(e) ==> e == ZipError::Truncated,
    {
        let b = match self.take(4) {
            Ok(b) => b,
            Err(e) => return Err(e),
        };
        Ok(b[0] as u32 + 256 * (b[1] as u32) + 65536 * (b[2] as u32) + 16777216 * (b[3] as u32))
    }
}


// ------------------------------------------------------------------ names

/// `/` or `\`, the separators a ZIP name may use.
pub open spec fn is_sep(c: u8) -> bool {
    c == 47 || c == 92
}

/// A whole `..` path segment starts at `i`.
pub open spec fn dotdot_at(b: Seq<u8>, i: int) -> bool {
    &&& 0 <= i
    &&& i + 2 <= b.len()
    &&& b[i] == 46 && b[i + 1] == 46
    &&& (i == 0 || is_sep(b[i - 1]))
    &&& (i + 2 == b.len() || is_sep(b[i + 2]))
}

/// A name that stays inside the container if anything ever extracted it: not
/// absolute, no drive letter, no `..` segment, no NUL byte.
pub open spec fn safe_name(b: Seq<u8>) -> bool {
    &&& !(b.len() >= 1 && is_sep(b[0]))
    &&& !(b.len() >= 2 && b[1] == 58)
    &&& forall|i: int| !#[trigger] dotdot_at(b, i)
    &&& forall|i: int| 0 <= i < b.len() ==> b[i] != 0
}

/// Refuses names that would escape a directory if anything extracted them.
pub fn is_safe_name(name: &str) -> (r: bool)
    ensures
        r == safe_name(name.spec_bytes()),
{
    let b = name.as_bytes();
    let n = b.len();
    if n >= 1 && (b[0] == 47 || b[0] == 92) {
        return false;
    }
    if n >= 2 && b[1] == 58 {
        return false;
    }
    let mut i: usize = 0;
    while i < n
        invariant
            n == b@.len(),
            b@ == name.spec_bytes(),
            i <= n,
            forall|j: int| 0 <= j < i ==> !#[trigger] dotdot_at(b@, j),
            forall|j: int| 0 <= j < i ==> b@[j] != 0,
        decreases n - i,
    {
        if b[i] == 0 {
            return false;
        }
        if n - i >= 2 && b[i] == 46 && b[i + 1] == 46 && (i == 0 || b[i - 1] == 47 || b[i - 1]
            == 92) && (i + 2 == n || b[i + 2] == 47 || b[i + 2] == 92) {
            assert(dotdot_at(b@, i as int));
            return false;
        }
        i = i + 1;
    }
    proof {
        assert forall|j: int| !#[trigger] dotdot_at(b@, j) by {
            if 0 <= j < n {
            } else {
            }
        }
    }
    true
}

// ---------------------------------------------------- directory records

/// An end-of-central-directory signature at `p`, with room for the record.
pub open spec fn eocd_at(b: Seq<u8>, p: int) -> bool {
    0 <= p && p + 22 <= b.len() && le32(b, p) == EOCD_SIGNATURE
}

/// The last end-of-central-directory signature at or below `p`, searching no
/// lower than `lo`.
pub open spec fn eocd_from(b: Seq<u8>, p: int, lo: int) -> Option<int>
    decreases p - lo,
{
    if eocd_at(b, p) {
        Some(p)
    } else if p <= lo {
        None
    } else {
        eocd_from(b, p - 1, lo)
    }
}

/// Where the end-of-central-directory record is: the last signature within
/// the maximum comment length of the end.
pub open spec fn eocd_of(b: Seq<u8>) -> Option<int> {
    if b.len() < 22 {
        None
    } else {
        eocd_from(b, b.len() - 22, if b.len() > 22 + 0xFFFF { b.len() - (22 + 0xFFFF) } else { 0 })
    }
}

proof fn lemma_eocd_from(b: Seq<u8>, p: int, lo: int)
    requires
        0 <= lo <= p,
    ensures
        eocd_from(b, p, lo) matches Some(q) ==> lo <= q <= p && eocd_at(b, q),
    decreases p - lo,
{
    if !eocd_at(b, p) && p > lo {
        lemma_eocd_from(b, p - 1, lo);
    }
}

/// Finds the end-of-central-directory record by scanning backwards, no
/// further than the longest comment the format allows.
fn find_eocd(bytes: &[u8]) -> (r: Result<usize, ZipError>)
    ensures
        r matches Ok(p) ==> eocd_of(bytes@) == Some(p as int) && eocd_at(bytes@, p as int),
        r matches Err(e) ==> eocd_of(bytes@) is None && e == ZipError::NotAZip,
{
    let len = bytes.len();
    if len < EOCD_MIN_LEN {
        return Err(ZipError::NotAZip);
    }
    let earliest = len.saturating_sub(EOCD_MIN_LEN + MAX_COMMENT);
    let mut at = len - EOCD_MIN_LEN;
    loop
        invariant
            len == bytes@.len(),
            len >= 22,
            earliest == (if len > 22 + 0xFFFF { len - (22 + 0xFFFF) } else { 0 }),
            earliest <= at <= len - 22,
            eocd_of(bytes@) == eocd_from(bytes@, at as int, earliest as int),
        decreases at,
    {
        let signature = bytes[at] as u32 + 256 * (bytes[at + 1] as u32) + 65536 * (bytes[at
            + 2] as u32) + 16777216 * (bytes[at + 3] as u32);
        if signature == EOCD_SIGNATURE {
            return Ok(at);
        }
        if at == earliest {
            return Err(ZipError::NotAZip);
        }
        at = at - 1;
    }
}

/// One entry's central directory record. Reading the data is a separate step,
/// so a caller can list a container without decompressing it.
#[derive(Clone, PartialEq, Eq, Debug)]
pub struct Entry {
    pub name: String,
    pub method: u16,
    pub crc32: u32,
    pub compressed_size: usize,
    pub uncompressed_size: usize,
    /// Offset of the local file header.
    pub local_header_offset: usize,
}

impl Entry {
    /// The UTF-8 bytes of the name.
    pub open spec fn name_bytes(&self) -> Seq<u8> {
        encode_utf8(self.name@)
    }

    /// Whether the entry names a directory: its name ends in `/`.
    pub fn is_directory(&self) -> (r: bool)
        ensures
            r == (self.name_bytes().len() > 0 && self.name_bytes().last() == 0x2f),
    {
        let b = self.name.as_str().as_bytes();
        b.len() > 0 && b[b.len() - 1] == 0x2f
    }
}

/// Where a central record's name ends.
pub open spec fn name_end(b: Seq<u8>, at: int) -> int {
    at + 46 + le16(b, at + 28)
}

/// Where a central record ends: after its name, extra field and comment.
pub open spec fn record_end(b: Seq<u8>, at: int) -> int {
    name_end(b, at) + le16(b, at + 30) + le16(b, at + 32)
}

/// A central record's name bytes.
pub open spec fn record_name(b: Seq<u8>, at: int) -> Seq<u8> {
    b.subrange(at + 46, name_end(b, at))
}

/// A well-formed, unencrypted central directory record at `at`.
pub open spec fn record_ok(b: Seq<u8>, at: int) -> bool {
    &&& 0 <= at
    &&& at + 46 <= b.len()
    &&& le32(b, at) == CENTRAL_SIGNATURE
    &&& record_end(b, at) <= b.len()
    &&& valid_utf8(record_name(b, at))
    &&& le16(b, at + 8) % 2 == 0
}

/// The entry a central record describes.
pub open spec fn record_describes(b: Seq<u8>, at: int, e: Entry) -> bool {
    &&& e.name@ == decode_utf8(record_name(b, at))
    &&& e.method == le16(b, at + 10)
    &&& e.crc32 == le32(b, at + 16)
    &&& e.compressed_size == le32(b, at + 20)
    &&& e.uncompressed_size == le32(b, at + 24)
    &&& e.local_header_offset == le32(b, at + 42)
}

/// Parses the central directory record at `at`, returning it and where the
/// next one starts.
fn read_central_header(bytes: &[u8], at: usize) -> (r: Result<(Entry, usize), ZipError>)
    ensures
        r is Ok <==> record_ok(bytes@, at as int),
        r matches Ok((e, next)) ==> record_describes(bytes@, at as int, e) && next == record_end(
            bytes@,
            at as int,
        ),
        at + 4 > bytes@.len() ==> r == Err::<(Entry, usize), ZipError>(ZipError::Truncated),
        at + 4 <= bytes@.len() && le32(bytes@, at as int) != CENTRAL_SIGNATURE ==> r == Err::<
            (Entry, usize),
            ZipError,
        >(ZipError::Malformed("central directory signature")),
        at + 4 <= bytes@.len() && le32(bytes@, at as int) == CENTRAL_SIGNATURE && (at + 46
            > bytes@.len() || name_end(bytes@, at as int) > bytes@.len()) ==> r == Err::<
            (Entry, usize),
            ZipError,
        >(ZipError::Truncated),
        at + 46 <= bytes@.len() && le32(bytes@, at as int) == CENTRAL_SIGNATURE && name_end(
            bytes@,
            at as int,
        ) <= bytes@.len() && !valid_utf8(record_name(bytes@, at as int)) ==> r == Err::<
            (Entry, usize),
            ZipError,
        >(ZipError::Malformed("entry name is not UTF-8")),
        at + 46 <= bytes@.len() && le32(bytes@, at as int) == CENTRAL_SIGNATURE && name_end(
            bytes@,
            at as int,
        ) <= bytes@.len() && valid_utf8(record_name(bytes@, at as int)) && le16(
            bytes@,
            at as int + 8,
        ) % 2 == 1 ==> (r matches Err(ZipError::Encrypted { name }) && name@ == decode_utf8(
            record_name(bytes@, at as int),
        )),
{
    let len = bytes.len();
    if at > len || len - at < 4 {
        return Err(ZipError::Truncated);
    }
    if rd32(bytes, at) != CENTRAL_SIGNATURE {
        return Err(ZipError::Malformed("central directory signature"));
    }
    if len - at < 46 {
        return Err(ZipError::Truncated);
    }
    let flags = rd16(bytes, at + 8);
    let method = rd16(bytes, at + 10);
    let crc = rd32(bytes, at + 16);
    let compressed_size = rd32(bytes, at + 20) as usize;
    let uncompressed_size = rd32(bytes, at + 24) as usize;
    let name_len = rd16(bytes, at + 28) as usize;
    let extra_len = rd16(bytes, at + 30) as usize;
    let comment_len = rd16(bytes, at + 32) as usize;
    let local_header_offset = rd32(bytes, at + 42) as usize;
    let start = at + 46;
    if len - start < name_len {
        return Err(ZipError::Truncated);
    }
    let name_bytes = &bytes[start..start + name_len];
    let text = match utf8_text(name_bytes) {
        Some(t) => t,
        None => return Err(ZipError::Malformed("entry name is not UTF-8")),
    };
    let name = text.to_owned();
    proof {
        vstd::utf8::encode_utf8_decode_utf8(text@);
    }
    if flags % 2 == 1 {
        return Err(ZipError::Encrypted { name });
    }
    let name_stop = start + name_len;
    if len - name_stop < extra_len + comment_len {
        return Err(ZipError::Truncated);
    }
    Ok((
        Entry {
            name,
            method,
            crc32: crc,
            compressed_size,
            uncompressed_size,
            local_header_offset,
        },
        name_stop + extra_len + comment_len,
    ))
}

/// The little-endian `u16` at `p`.
fn rd16(b: &[u8], p: usize) -> (r: u16)
    requires
        p + 2 <= b@.len(),
    ensures
        r == le16(b@, p as int),
{
    b[p] as u16 + 256 * (b[p + 1] as u16)
}

/// The little-endian `u32` at `p`.
fn rd32(b: &[u8], p: usize) -> (r: u32)
    requires
        p + 4 <= b@.len(),
    ensures
        r == le32(b@, p as int),
{
    b[p] as u32 + 256 * (b[p + 1] as u32) + 65536 * (b[p + 2] as u32) + 16777216 * (b[p
        + 3] as u32)
}

// ------------------------------------------------------------------ caps

/// The per-entry caps: name length, a name that stays inside the container,
/// the largest single output, and the compression ratio (only meaningful from
/// 256 compressed bytes up).
pub open spec fn entry_caps_ok(e: Entry) -> bool {
    &&& e.name_bytes().len() <= MAX_NAME_BYTES
    &&& safe_name(e.name_bytes())
    &&& e.uncompressed_size <= inflate::MAX_OUTPUT
    &&& e.compressed_size >= 256 ==> e.uncompressed_size / e.compressed_size <= MAX_RATIO
}

/// Applies the caps to one entry and adds its declared size to the running
/// total, which must stay within `MAX_TOTAL_OUTPUT`.
fn check_caps(entry: &Entry, total_output: &mut usize) -> (r: Result<(), ZipError>)
    ensures
        r is Ok <==> entry_caps_ok(*entry) && *old(total_output) + entry.uncompressed_size
            <= MAX_TOTAL_OUTPUT,
        r is Ok ==> *final(total_output) == *old(total_output) + entry.uncompressed_size,
        entry.name_bytes().len() > MAX_NAME_BYTES ==> (r matches Err(
            ZipError::CapExceeded { cap, name },
        ) && cap == "MAX_NAME_BYTES" && name@.len() == 0),
        entry.name_bytes().len() <= MAX_NAME_BYTES && !safe_name(entry.name_bytes()) ==> (
        r matches Err(ZipError::UnsafeName { name }) && name == entry.name),
        entry.name_bytes().len() <= MAX_NAME_BYTES && safe_name(entry.name_bytes())
            && entry.uncompressed_size > inflate::MAX_OUTPUT ==> (r matches Err(
            ZipError::CapExceeded { cap, name },
        ) && cap == "MAX_OUTPUT" && name == entry.name),
        entry.name_bytes().len() <= MAX_NAME_BYTES && safe_name(entry.name_bytes())
            && entry.uncompressed_size <= inflate::MAX_OUTPUT && entry.compressed_size >= 256
            && entry.uncompressed_size / entry.compressed_size > MAX_RATIO ==> (r matches Err(
            ZipError::CapExceeded { cap, name },
        ) && cap == "MAX_RATIO" && name == entry.name),
        entry_caps_ok(*entry) && *old(total_output) + entry.uncompressed_size > MAX_TOTAL_OUTPUT
            ==> (r matches Err(ZipError::CapExceeded { cap, name }) && cap == "MAX_TOTAL_OUTPUT"
            && name == entry.name),
{
    let text = entry.name.as_str();
    if text.as_bytes().len() > MAX_NAME_BYTES {
        return Err(ZipError::CapExceeded { cap: "MAX_NAME_BYTES", name: String::new() });
    }
    if !is_safe_name(text) {
        return Err(ZipError::UnsafeName { name: entry.name.clone() });
    }
    if entry.uncompressed_size > inflate::MAX_OUTPUT {
        return Err(ZipError::CapExceeded { cap: "MAX_OUTPUT", name: entry.name.clone() });
    }
    if entry.compressed_size >= 256 {
        let ratio = entry.uncompressed_size as u64 / entry.compressed_size as u64;
        if ratio > MAX_RATIO {
            return Err(ZipError::CapExceeded { cap: "MAX_RATIO", name: entry.name.clone() });
        }
    }
    *total_output = total_output.saturating_add(entry.uncompressed_size);
    if *total_output > MAX_TOTAL_OUTPUT {
        return Err(ZipError::CapExceeded { cap: "MAX_TOTAL_OUTPUT", name: entry.name.clone() });
    }
    Ok(())
}

// ---------------------------------------------------------------- archive

/// The entry count the end-of-central-directory record at `e` declares.
pub open spec fn dir_count(b: Seq<u8>, e: int) -> int {
    le16(b, e + 10)
}

/// Where the central directory starts, by the record at `e`.
pub open spec fn dir_start(b: Seq<u8>, e: int) -> int {
    le32(b, e + 16)
}

/// The offset of the `k`-th central record, each following the last.
pub open spec fn record_at(b: Seq<u8>, start: int, k: nat) -> int
    decreases k,
{
    if k == 0 {
        start
    } else {
        record_end(b, record_at(b, start, (k - 1) as nat))
    }
}

/// The per-entry caps, read from the record itself.
pub open spec fn record_caps_ok(b: Seq<u8>, at: int) -> bool {
    let name = record_name(b, at);
    &&& name.len() <= MAX_NAME_BYTES
    &&& safe_name(name)
    &&& le32(b, at + 24) <= inflate::MAX_OUTPUT
    &&& le32(b, at + 20) >= 256 ==> le32(b, at + 24) / le32(b, at + 20) <= MAX_RATIO
}

/// The declared output of the first `k` records.
pub open spec fn declared_before(b: Seq<u8>, start: int, k: nat) -> int
    decreases k,
{
    if k == 0 {
        0
    } else {
        declared_before(b, start, (k - 1) as nat) + le32(b, record_at(b, start, (k - 1) as nat) + 24)
    }
}

/// Record `k` of the directory starting at `start` is well formed, passes the
/// caps, and keeps the running output total within `MAX_TOTAL_OUTPUT`.
pub open spec fn record_accepted(b: Seq<u8>, start: int, k: nat) -> bool {
    let at = record_at(b, start, k);
    &&& record_ok(b, at)
    &&& record_caps_ok(b, at)
    &&& declared_before(b, start, k + 1) <= MAX_TOTAL_OUTPUT
}

/// The container opens: it has an end-of-central-directory record, declares
/// at most `MAX_ENTRIES` entries, and every one of them is accepted.
pub open spec fn archive_ok(b: Seq<u8>) -> bool {
    match eocd_of(b) {
        Some(e) => dir_count(b, e) <= MAX_ENTRIES && forall|k: nat|
            k < dir_count(b, e) ==> #[trigger] record_accepted(b, dir_start(b, e), k),
        None => false,
    }
}

/// Where an entry's data starts: after its local header, name and extra field.
pub open spec fn local_data_start(b: Seq<u8>, o: int) -> int {
    o + 30 + le16(b, o + 26) + le16(b, o + 28)
}

/// A well-formed, unencrypted local header at `o` whose data lies within the
/// file.
pub open spec fn local_ok(b: Seq<u8>, o: int, compressed: int) -> bool {
    &&& 0 <= o
    &&& o + 30 <= b.len()
    &&& le32(b, o) == LOCAL_SIGNATURE
    &&& le16(b, o + 6) % 2 == 0
    &&& local_data_start(b, o) + compressed <= b.len()
}

/// A parsed central directory. Holds no decompressed data.
pub struct Archive<'a> {
    bytes: &'a [u8],
    entries: Vec<Entry>,
    total_output: usize,
}

impl<'a> Archive<'a> {
    pub closed spec fn bytes_view(&self) -> Seq<u8> {
        self.bytes@
    }

    pub closed spec fn entries_view(&self) -> Seq<Entry> {
        self.entries@
    }

    pub closed spec fn total_view(&self) -> int {
        self.total_output as int
    }

    /// Reads the central directory and applies the container caps. The
    /// directory is authoritative; nothing is decompressed.
    pub fn open(bytes: &'a [u8]) -> (r: Result<Archive<'a>, ZipError>)
        ensures
            r is Ok <==> archive_ok(bytes@),
            eocd_of(bytes@) is None ==> (r matches Err(ZipError::NotAZip)),
            (eocd_of(bytes@) matches Some(e) && dir_count(bytes@, e) > MAX_ENTRIES) ==> (
            r matches Err(ZipError::CapExceeded { cap, name }) && cap == "MAX_ENTRIES"
                && name@.len() == 0),
            r matches Ok(a) ==> ({
                let e = eocd_of(bytes@)->0;
                let start = dir_start(bytes@, e);
                &&& a.bytes_view() == bytes@
                &&& a.entries_view().len() == dir_count(bytes@, e)
                &&& a.total_view() == declared_before(bytes@, start, a.entries_view().len())
                &&& a.total_view() <= MAX_TOTAL_OUTPUT
                &&& forall|k: int|
                    0 <= k < a.entries_view().len() ==> record_describes(
                        bytes@,
                        record_at(bytes@, start, k as nat),
                        #[trigger] a.entries_view()[k],
                    ) && entry_caps_ok(a.entries_view()[k])
            }),
    {
        let eocd = match find_eocd(bytes) {
            Ok(e) => e,
            Err(e) => return Err(e),
        };
        let len = bytes.len();
        assert(eocd + 22 <= len);
        let entry_count = rd16(bytes, eocd + 10) as usize;
        let central_offset = rd32(bytes, eocd + 16) as usize;
        let ghost b = bytes@;
        if entry_count > MAX_ENTRIES {
            return Err(ZipError::CapExceeded { cap: "MAX_ENTRIES", name: String::new() });
        }
        let mut entries: Vec<Entry> = Vec::new();
        let mut total_output: usize = 0;
        let mut at = central_offset;
        let mut k: usize = 0;
        while k < entry_count
            invariant
                b == bytes@,
                eocd_of(b) == Some(eocd as int),
                entry_count == dir_count(b, eocd as int),
                entry_count <= MAX_ENTRIES,
                central_offset == dir_start(b, eocd as int),
                k <= entry_count,
                entries@.len() == k,
                at == record_at(b, central_offset as int, k as nat),
                total_output == declared_before(b, central_offset as int, k as nat),
                total_output <= MAX_TOTAL_OUTPUT,
                forall|j: nat| j < k ==> #[trigger] record_accepted(b, central_offset as int, j),
                forall|j: int|
                    0 <= j < k ==> record_describes(
                        b,
                        record_at(b, central_offset as int, j as nat),
                        #[trigger] entries@[j],
                    ) && entry_caps_ok(entries@[j]),
            decreases entry_count - k,
        {
            let (entry, next) = match read_central_header(bytes, at) {
                Ok(v) => v,
                Err(e) => {
                    proof {
                        assert(!record_accepted(b, central_offset as int, k as nat));
                    }
                    return Err(e);
                },
            };
            proof {
                vstd::utf8::decode_utf8_encode_utf8(record_name(b, at as int));
                assert(entry.name_bytes() == record_name(b, at as int));
            }
            let ghost before = total_output;
            match check_caps(&entry, &mut total_output) {
                Ok(()) => {},
                Err(e) => {
                    proof {
                        assert(!record_accepted(b, central_offset as int, k as nat));
                    }
                    return Err(e);
                },
            }
            proof {
                assert(record_accepted(b, central_offset as int, k as nat));
            }
            entries.push(entry);
            at = next;
            k = k + 1;
        }
        Ok(Archive { bytes, entries, total_output })
    }

    /// The directory's entries, in directory order.
    pub fn entries(&self) -> (r: &[Entry])
        ensures
            r@ == self.entries_view(),
    {
        self.entries.as_slice()
    }

    /// Total uncompressed bytes the container declares; checked against the
    /// caps at open time.
    pub fn declared_output(&self) -> (r: usize)
        ensures
            r == self.total_view(),
    {
        self.total_output
    }

    /// The entry's compressed bytes, found through its local header: the data
    /// is where the local header says, even though the directory says what it
    /// means.
    fn raw(&self, entry: &Entry) -> (r: Result<&'a [u8], ZipError>)
        ensures
            ({
                let b = self.bytes_view();
                let o = entry.local_header_offset as int;
                let start = local_data_start(b, o);
                &&& r is Ok <==> local_ok(b, o, entry.compressed_size as int)
                &&& r matches Ok(s) ==> s@ == b.subrange(start, start + entry.compressed_size)
                &&& o + 4 > b.len() ==> r == Err::<&'a [u8], ZipError>(ZipError::Truncated)
                &&& o + 4 <= b.len() && le32(b, o) != LOCAL_SIGNATURE ==> r == Err::<
                    &'a [u8],
                    ZipError,
                >(ZipError::Malformed("local header signature"))
                &&& o + 30 <= b.len() && le32(b, o) == LOCAL_SIGNATURE && le16(b, o + 6) % 2 == 1
                    ==> (r matches Err(ZipError::Encrypted { name }) && name == entry.name)
                &&& o + 30 <= b.len() && le32(b, o) == LOCAL_SIGNATURE && le16(b, o + 6) % 2 == 0
                    && start + entry.compressed_size > b.len() && start + entry.compressed_size
                    <= usize::MAX ==> r == Err::<&'a [u8], ZipError>(
                    ZipError::Malformed("entry data past end of file"),
                )
            }),
    {
        let len = self.bytes.len();
        let o = entry.local_header_offset;
        if o > len || len - o < 4 {
            return Err(ZipError::Truncated);
        }
        if rd32(self.bytes, o) != LOCAL_SIGNATURE {
            return Err(ZipError::Malformed("local header signature"));
        }
        if len - o < 8 {
            return Err(ZipError::Truncated);
        }
        let flags = rd16(self.bytes, o + 6);
        if flags % 2 == 1 {
            return Err(ZipError::Encrypted { name: entry.name.clone() });
        }
        if len - o < 30 {
            return Err(ZipError::Truncated);
        }
        let name_len = rd16(self.bytes, o + 26) as usize;
        let extra_len = rd16(self.bytes, o + 28) as usize;
        let start = match (o + 30).checked_add(name_len + extra_len) {
            Some(v) => v,
            None => return Err(ZipError::Truncated),
        };
        let end = match start.checked_add(entry.compressed_size) {
            Some(v) => v,
            None => return Err(ZipError::Truncated),
        };
        if end > len {
            return Err(ZipError::Malformed("entry data past end of file"));
        }
        Ok(&self.bytes[start..end])
    }

    /// What reading `entry` may give: the stored bytes when their CRC-32 is
    /// the directory's, inflated bytes of the right CRC-32 for deflate, and
    /// otherwise the error that names what is wrong.
    pub open spec fn read_outcome(&self, entry: Entry, r: Result<Vec<u8>, ZipError>) -> bool {
        let b = self.bytes_view();
        let o = entry.local_header_offset as int;
        let start = local_data_start(b, o);
        let data = b.subrange(start, start + entry.compressed_size);
        &&& r matches Ok(out) ==> local_ok(b, o, entry.compressed_size as int) && crc32_of(out@)
            == entry.crc32 && (entry.method == 0 || entry.method == 8) && (entry.method == 0
            ==> out@ == data) && (entry.method == 8 ==> out@.len() <= inflate::MAX_OUTPUT)
        &&& local_ok(b, o, entry.compressed_size as int) && entry.method == 0 ==> (r is Ok
            <==> crc32_of(data) == entry.crc32)
        &&& local_ok(b, o, entry.compressed_size as int) && entry.method == 0 && crc32_of(data)
            != entry.crc32 ==> (r matches Err(ZipError::CrcMismatch { name }) && name
            == entry.name)
        &&& local_ok(b, o, entry.compressed_size as int) && entry.method != 0 && entry.method
            != 8 ==> (r matches Err(ZipError::UnsupportedMethod { name, method }) && name
            == entry.name && method == entry.method)
        &&& local_ok(b, o, entry.compressed_size as int) && entry.method == 8 ==> match inflate::inflate_spec(data) {
            Ok(s) => (r is Ok <==> crc32_of(s) == entry.crc32) && (r matches Ok(out) ==> out@ == s)
                && (crc32_of(s) != entry.crc32 ==> (r matches Err(ZipError::CrcMismatch { name })
                && name == entry.name)),
            Err(e) => r matches Err(ZipError::Inflate { name, err }) && name == entry.name && err
                == e,
        }
        &&& !local_ok(b, o, entry.compressed_size as int) ==> r is Err
    }

    /// Decompresses one entry and verifies its CRC-32. Store (0) copies the
    /// bytes, deflate (8) inflates them; any other method is refused.
    pub fn read(&self, entry: &Entry) -> (r: Result<Vec<u8>, ZipError>)
        ensures
            self.read_outcome(*entry, r),
    {
        let data = match self.raw(entry) {
            Ok(d) => d,
            Err(e) => return Err(e),
        };
        let out = if entry.method == 0 {
            vstd::slice::slice_to_vec(data)
        } else if entry.method == 8 {
            match inflate(data, entry.uncompressed_size) {
                Ok(v) => v,
                Err(err) => return Err(ZipError::Inflate { name: entry.name.clone(), err }),
            }
        } else {
            return Err(ZipError::UnsupportedMethod { name: entry.name.clone(), method: entry.method });
        };
        if crc32(out.as_slice()) != entry.crc32 {
            return Err(ZipError::CrcMismatch { name: entry.name.clone() });
        }
        Ok(out)
    }

    /// Reads the first entry with this name, if there is one: what `read`
    /// gives for that entry.
    pub fn read_named(&self, name: &str) -> (r: Option<Result<Vec<u8>, ZipError>>)
        ensures
            r is Some <==> exists|k: int|
                0 <= k < self.entries_view().len() && #[trigger] self.entries_view()[k].name@
                    == name@,
            r matches Some(res) ==> exists|k: int|
                0 <= k < self.entries_view().len() && self.entries_view()[k].name@ == name@
                    && (forall|j: int| 0 <= j < k ==> self.entries_view()[j].name@ != name@)
                    && self.read_outcome(#[trigger] self.entries_view()[k], res),
    {
        match self.find(name) {
            Some(entry) => Some(self.read(entry)),
            None => None,
        }
    }

    /// The first entry with this name.
    pub fn find(&self, name: &str) -> (r: Option<&Entry>)
        ensures
            r matches Some(e) ==> exists|k: int|
                0 <= k < self.entries_view().len() && self.entries_view()[k] == *e && e.name@
                    == name@ && forall|j: int| 0 <= j < k ==> self.entries_view()[j].name@ != name@,
            r is None ==> forall|k: int|
                0 <= k < self.entries_view().len() ==> self.entries_view()[k].name@ != name@,
    {
        let wanted = name.as_bytes();
        let mut k: usize = 0;
        while k < self.entries.len()
            invariant
                k <= self.entries@.len(),
                wanted@ == name.spec_bytes(),
                forall|j: int| 0 <= j < k ==> self.entries@[j].name@ != name@,
            decreases self.entries@.len() - k,
        {
            let candidate = self.entries[k].name.as_str().as_bytes();
            if same_bytes(candidate, wanted) {
                proof {
                    vstd::utf8::encode_utf8_decode_utf8(self.entries@[k as int].name@);
                    vstd::utf8::encode_utf8_decode_utf8(name@);
                    assert(self.entries@[k as int].name@ == name@);
                    assert(0 <= k < self.entries_view().len() && self.entries_view()[k as int]
                        == self.entries@[k as int] && forall|j: int|
                        0 <= j < k ==> self.entries_view()[j].name@ != name@);
                }
                return Some(&self.entries[k]);
            }
            proof {
                if self.entries@[k as int].name@ == name@ {
                    assert(candidate@ == wanted@);
                }
            }
            k = k + 1;
        }
        None
    }
}

} // verus!
