//! Writing a ZIP container, STORED entries only.
//!
//! No compression on purpose: a compressor is a second codec to get wrong,
//! and nothing hostile flows through a writer. The output is deterministic:
//! the same entries in the same order give the same bytes, because the DOS
//! timestamp is fixed at 1980-01-01 00:00:00 rather than read from a clock.

use vstd::prelude::*;
use vstd::string::StringSliceAdditionalSpecFns;
use crate::zip::{
    crc32,
    crc32_of,
    is_safe_name,
    safe_name,
    ZipError,
    MAX_ENTRIES,
    MAX_NAME_BYTES,
    LOCAL_SIGNATURE,
    CENTRAL_SIGNATURE,
    EOCD_SIGNATURE,
};

verus! {

/// 1980-01-01: year 0 (1980), month 1, day 1.
pub const DOS_DATE: u16 = 0x0021;
pub const DOS_TIME: u16 = 0x0000;
/// "Version needed to extract" for stored entries: 1.0.
pub const VERSION_NEEDED: u16 = 10;
/// "Version made by": 2.0, DOS attribute mapping.
pub const VERSION_MADE_BY: u16 = 20;

/// `v` as two little-endian bytes.
pub open spec fn le16_bytes(v: int) -> Seq<u8> {
    seq![(v % 256) as u8, ((v / 256) % 256) as u8]
}

/// `v` as four little-endian bytes.
pub open spec fn le32_bytes(v: int) -> Seq<u8> {
    le16_bytes(v % 65536) + le16_bytes(v / 65536)
}

/// The local file header and data of one stored entry.
pub open spec fn local_record(name: Seq<u8>, data: Seq<u8>) -> Seq<u8> {
    le32_bytes(LOCAL_SIGNATURE as int) + le16_bytes(VERSION_NEEDED as int) + le16_bytes(0)
        + le16_bytes(0) + le16_bytes(DOS_TIME as int) + le16_bytes(DOS_DATE as int) + le32_bytes(
        crc32_of(data) as int,
    ) + le32_bytes(data.len() as int) + le32_bytes(data.len() as int) + le16_bytes(
        name.len() as int,
    ) + le16_bytes(0) + name + data
}

/// The central directory record of an entry with this name, CRC and size,
/// whose local header is at `offset`.
pub open spec fn central_fields(name: Seq<u8>, crc: int, len: int, offset: int) -> Seq<u8> {
    le32_bytes(CENTRAL_SIGNATURE as int) + le16_bytes(VERSION_MADE_BY as int) + le16_bytes(
        VERSION_NEEDED as int,
    ) + le16_bytes(0) + le16_bytes(0) + le16_bytes(DOS_TIME as int) + le16_bytes(DOS_DATE as int)
        + le32_bytes(crc) + le32_bytes(len) + le32_bytes(len) + le16_bytes(name.len() as int)
        + le16_bytes(0) + le16_bytes(0) + le16_bytes(0) + le16_bytes(0) + le32_bytes(0)
        + le32_bytes(offset) + name
}

/// The central directory record of one stored entry whose local header is at
/// `offset`.
pub open spec fn central_record(name: Seq<u8>, data: Seq<u8>, offset: int) -> Seq<u8> {
    central_fields(name, crc32_of(data) as int, data.len() as int, offset)
}

/// The local records of the first `k` entries, in order.
pub open spec fn local_section(es: Seq<(Seq<u8>, Seq<u8>)>, k: int) -> Seq<u8>
    decreases k,
{
    if k <= 0 {
        Seq::empty()
    } else {
        local_section(es, k - 1) + local_record(es[k - 1].0, es[k - 1].1)
    }
}

/// The central records of the first `k` entries, each pointing at its local
/// record.
pub open spec fn central_section(es: Seq<(Seq<u8>, Seq<u8>)>, k: int) -> Seq<u8>
    decreases k,
{
    if k <= 0 {
        Seq::empty()
    } else {
        central_section(es, k - 1) + central_record(
            es[k - 1].0,
            es[k - 1].1,
            local_section(es, k - 1).len() as int,
        )
    }
}

/// The end-of-central-directory record, with no comment.
pub open spec fn eocd_record(count: int, central_size: int, central_offset: int) -> Seq<u8> {
    le32_bytes(EOCD_SIGNATURE as int) + le16_bytes(0) + le16_bytes(0) + le16_bytes(count)
        + le16_bytes(count) + le32_bytes(central_size) + le32_bytes(central_offset) + le16_bytes(0)
}

/// The whole stored container for these entries.
pub open spec fn stored_container(es: Seq<(Seq<u8>, Seq<u8>)>) -> Seq<u8> {
    let n = es.len() as int;
    local_section(es, n) + central_section(es, n) + eocd_record(
        n,
        central_section(es, n).len() as int,
        local_section(es, n).len() as int,
    )
}

/// The entries as name bytes and data bytes.
pub open spec fn entries_view(entries: Seq<(&str, &[u8])>) -> Seq<(Seq<u8>, Seq<u8>)> {
    Seq::new(entries.len(), |i: int| (entries[i].0.spec_bytes(), entries[i].1@))
}

/// Entry `k` can be written: its name is within `MAX_NAME_BYTES` and safe,
/// and its size and offset fit the format's 32-bit fields.
pub open spec fn entry_writable(es: Seq<(Seq<u8>, Seq<u8>)>, k: int) -> bool {
    &&& es[k].0.len() <= MAX_NAME_BYTES
    &&& safe_name(es[k].0)
    &&& es[k].1.len() <= u32::MAX
    &&& local_section(es, k).len() <= u32::MAX
}

/// The entries can be written as one container.
pub open spec fn container_writable(es: Seq<(Seq<u8>, Seq<u8>)>) -> bool {
    &&& es.len() <= MAX_ENTRIES
    &&& forall|k: int| 0 <= k < es.len() ==> #[trigger] entry_writable(es, k)
    &&& local_section(es, es.len() as int).len() <= u32::MAX
}

/// Appends `v` as two little-endian bytes.
fn put_u16(out: &mut Vec<u8>, v: u16)
    ensures
        final(out)@ == old(out)@ + le16_bytes(v as int),
{
    out.push((v % 256) as u8);
    out.push((v / 256) as u8);
    proof {
        assert(final(out)@ =~= old(out)@ + le16_bytes(v as int));
    }
}

/// Appends `v` as four little-endian bytes.
fn put_u32(out: &mut Vec<u8>, v: u32)
    ensures
        final(out)@ == old(out)@ + le32_bytes(v as int),
{
    put_u16(out, (v % 65536) as u16);
    put_u16(out, (v / 65536) as u16);
    proof {
        assert(final(out)@ =~= old(out)@ + le32_bytes(v as int));
    }
}

/// Appends all of `data`.
fn put_bytes(out: &mut Vec<u8>, data: &[u8])
    ensures
        final(out)@ == old(out)@ + data@,
{
    let mut i: usize = 0;
    while i < data.len()
        invariant
            i <= data@.len(),
            out@ == old(out)@ + data@.take(i as int),
        decreases data@.len() - i,
    {
        out.push(data[i]);
        i = i + 1;
        proof {
            assert(out@ =~= old(out)@ + data@.take(i as int));
        }
    }
    proof {
        assert(data@.take(data@.len() as int) =~= data@);
    }
}

/// Appends the local header and data of one stored entry.
fn write_local(out: &mut Vec<u8>, name: &[u8], data: &[u8], crc: u32)
    requires
        crc == crc32_of(data@),
        data@.len() <= u32::MAX,
        name@.len() <= MAX_NAME_BYTES,
    ensures
        final(out)@ == old(out)@ + local_record(name@, data@),
{
    put_u32(out, LOCAL_SIGNATURE);
    put_u16(out, VERSION_NEEDED);
    put_u16(out, 0);
    put_u16(out, 0);
    put_u16(out, DOS_TIME);
    put_u16(out, DOS_DATE);
    put_u32(out, crc);
    put_u32(out, data.len() as u32);
    put_u32(out, data.len() as u32);
    put_u16(out, name.len() as u16);
    put_u16(out, 0);
    put_bytes(out, name);
    put_bytes(out, data);
    proof {
        assert(final(out)@ =~= old(out)@ + local_record(name@, data@));
    }
}

/// Appends the central directory record of one stored entry.
fn write_central(out: &mut Vec<u8>, name: &[u8], crc: u32, len: u32, offset: u32)
    requires
        name@.len() <= MAX_NAME_BYTES,
    ensures
        final(out)@ == old(out)@ + central_fields(name@, crc as int, len as int, offset as int),
{
    put_u32(out, CENTRAL_SIGNATURE);
    put_u16(out, VERSION_MADE_BY);
    put_u16(out, VERSION_NEEDED);
    put_u16(out, 0);
    put_u16(out, 0);
    put_u16(out, DOS_TIME);
    put_u16(out, DOS_DATE);
    put_u32(out, crc);
    put_u32(out, len);
    put_u32(out, len);
    put_u16(out, name.len() as u16);
    put_u16(out, 0);
    put_u16(out, 0);
    put_u16(out, 0);
    put_u16(out, 0);
    put_u32(out, 0);
    put_u32(out, offset);
    put_bytes(out, name);
    proof {
        assert(final(out)@ =~= old(out)@ + central_fields(name@, crc as int, len as int, offset as int));
    }
}

/// Appends the end-of-central-directory record.
fn write_eocd(out: &mut Vec<u8>, count: u16, central_size: u32, central_offset: u32)
    ensures
        final(out)@ == old(out)@ + eocd_record(count as int, central_size as int, central_offset as int),
{
    put_u32(out, EOCD_SIGNATURE);
    put_u16(out, 0);
    put_u16(out, 0);
    put_u16(out, count);
    put_u16(out, count);
    put_u32(out, central_size);
    put_u32(out, central_offset);
    put_u16(out, 0);
    proof {
        assert(final(out)@ =~= old(out)@ + eocd_record(count as int, central_size as int, central_offset as int));
    }
}

/// The error `build_stored` gives for the first entry that cannot be written.
pub open spec fn refusal(es: Seq<(Seq<u8>, Seq<u8>)>, k: int, given: Seq<char>, e: ZipError) -> bool {
    if es[k].0.len() > MAX_NAME_BYTES {
        e matches ZipError::CapExceeded { cap, name } && cap == "MAX_NAME_BYTES" && name@ == given
    } else if !safe_name(es[k].0) {
        e matches ZipError::UnsafeName { name } && name@ == given
    } else {
        e matches ZipError::CapExceeded { cap, name } && cap == "u32 field" && name@ == given
    }
}

/// Appends the central directory records of `entries`, whose local records
/// `out` already holds.
#[verifier::rlimit(60)]
fn write_centrals(out: &mut Vec<u8>, entries: &[(&str, &[u8])], central: &Vec<(u32, u32, usize)>)
    requires
        entries@.len() <= MAX_ENTRIES,
        old(out)@ == local_section(entries_view(entries@), entries@.len() as int),
        central@.len() == entries@.len(),
        forall|j: int| 0 <= j < entries@.len() ==> #[trigger] entry_writable(entries_view(entries@), j),
        forall|j: int|
            0 <= j < entries@.len() ==> #[trigger] central@[j] == (
                crc32_of(entries_view(entries@)[j].1),
                local_section(entries_view(entries@), j).len() as u32,
                entries_view(entries@)[j].1.len() as usize,
            ),
    ensures
        final(out)@ == local_section(entries_view(entries@), entries@.len() as int) + central_section(
            entries_view(entries@),
            entries@.len() as int,
        ),
        central_section(entries_view(entries@), entries@.len() as int).len() <= entries@.len() * 600,
{
    let ghost es = entries_view(entries@);
    let n = entries.len();
    let mut k: usize = 0;
    while k < n
        invariant
            n == entries@.len(),
            n == es.len(),
            es == entries_view(entries@),
            n <= MAX_ENTRIES,
            k <= n,
            out@ == local_section(es, n as int) + central_section(es, k as int),
            central_section(es, k as int).len() <= k * 600,
            central@.len() == n,
            forall|j: int| 0 <= j < n ==> #[trigger] entry_writable(es, j),
            forall|j: int|
                0 <= j < n ==> #[trigger] central@[j] == (
                    crc32_of(es[j].1),
                    local_section(es, j).len() as u32,
                    es[j].1.len() as usize,
                ),
        decreases n - k,
    {
        let (name, _) = entries[k];
        let name_bytes = name.as_bytes();
        let (crc, offset, len) = central[k];
        assert(es[k as int].0 == name_bytes@);
        let ghost before = out@;
        assert(entry_writable(es, k as int));
        write_central(out, name_bytes, crc, len as u32, offset);
        proof {
            assert(out@ =~= before + central_record(
                es[k as int].0,
                es[k as int].1,
                local_section(es, k as int).len() as int,
            ));
        }
        k = k + 1;
    }
}

/// Builds a ZIP container holding `entries` as STORED data, in the order
/// given. Names must pass the reader's own rules, and sizes must fit the
/// classic format's 32-bit fields.
#[verifier::rlimit(100)]
#[verifier::spinoff_prover]
pub fn build_stored(entries: &[(&str, &[u8])]) -> (r: Result<Vec<u8>, ZipError>)
    ensures
        r is Ok <==> container_writable(entries_view(entries@)),
        r matches Ok(out) ==> out@ == stored_container(entries_view(entries@)),
        entries@.len() > MAX_ENTRIES ==> (r matches Err(ZipError::CapExceeded { cap, name })
            && cap == "MAX_ENTRIES" && name@.len() == 0),
        forall|k: int|
            0 <= k < entries@.len() && entries@.len() <= MAX_ENTRIES && (forall|j: int|
                0 <= j < k ==> entry_writable(entries_view(entries@), j)) && !#[trigger] entry_writable(
                entries_view(entries@),
                k,
            ) ==> (r matches Err(e) && refusal(entries_view(entries@), k, entries@[k].0@, e)),
{
    let ghost es = entries_view(entries@);
    let n = entries.len();
    if n > MAX_ENTRIES {
        return Err(ZipError::CapExceeded { cap: "MAX_ENTRIES", name: String::new() });
    }
    let mut out: Vec<u8> = Vec::new();
    let mut central: Vec<(u32, u32, usize)> = Vec::new();
    let mut i: usize = 0;
    while i < n
        invariant
            n == entries@.len(),
            n == es.len(),
            es == entries_view(entries@),
            n <= MAX_ENTRIES,
            i <= n,
            out@ == local_section(es, i as int),
            central@.len() == i,
            forall|j: int| 0 <= j < i ==> #[trigger] entry_writable(es, j),
            forall|j: int|
                0 <= j < i ==> #[trigger] central@[j] == (
                    crc32_of(es[j].1),
                    local_section(es, j).len() as u32,
                    es[j].1.len() as usize,
                ),
        decreases n - i,
    {
        let (name, data) = entries[i];
        let name_bytes = name.as_bytes();
        assert(es[i as int] == (name_bytes@, data@));
        if name_bytes.len() > MAX_NAME_BYTES {
            assert(!entry_writable(es, i as int));
            return Err(ZipError::CapExceeded { cap: "MAX_NAME_BYTES", name: name.to_owned() });
        }
        if !is_safe_name(name) {
            assert(!entry_writable(es, i as int));
            return Err(ZipError::UnsafeName { name: name.to_owned() });
        }
        if data.len() > u32::MAX as usize || out.len() > u32::MAX as usize {
            assert(!entry_writable(es, i as int));
            return Err(ZipError::CapExceeded { cap: "u32 field", name: name.to_owned() });
        }
        let crc = crc32(data);
        let offset = out.len() as u32;
        central.push((crc, offset, data.len()));
        write_local(&mut out, name_bytes, data, crc);
        proof {
            assert(entry_writable(es, i as int));
        }
        i = i + 1;
    }
    let central_offset = out.len();
    write_centrals(&mut out, entries, &central);
    let central_size = out.len() - central_offset;
    if central_offset > u32::MAX as usize {
        return Err(ZipError::CapExceeded { cap: "u32 field", name: String::new() });
    }
    let ghost body = out@;
    assert(body == local_section(es, n as int) + central_section(es, n as int));
    assert(central_size == central_section(es, n as int).len());
    assert(central_size <= 4096 * 600);
    write_eocd(&mut out, n as u16, central_size as u32, central_offset as u32);
    assert(out@ == body + eocd_record(n as int, central_size as int, central_offset as int));
    Ok(out)
}

} // verus!
