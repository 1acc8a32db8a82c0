//! What the reader makes of what the writer writes: a stored container opens,
//! lists its entries in order with the names, sizes and CRCs they were
//! written with, and each entry's bytes are exactly the data written.

use vstd::prelude::*;
use vstd::utf8::{decode_utf8, valid_utf8};
use crate::zip::{
    record_describes, Archive, ZipError, archive_ok, crc32_of, declared_before, dir_count, dir_start, eocd_at, eocd_of, le16, le32,
    local_data_start, local_ok, record_accepted, record_at, record_caps_ok, record_name, record_ok,
    CENTRAL_SIGNATURE, EOCD_SIGNATURE, LOCAL_SIGNATURE, MAX_TOTAL_OUTPUT,
};
use crate::zip::inflate::MAX_OUTPUT;
use crate::zip::write::{
    central_fields, central_record, central_section, container_writable, entries_view,
    entry_writable, eocd_record, le16_bytes, le32_bytes, local_record, local_section,
    stored_container, DOS_DATE, DOS_TIME, VERSION_MADE_BY, VERSION_NEEDED,
};

verus! {

/// `s` stands in `b` at `p`.
pub open spec fn stands_at(b: Seq<u8>, p: int, s: Seq<u8>) -> bool {
    &&& 0 <= p
    &&& p + s.len() <= b.len()
    &&& b.subrange(p, p + s.len()) == s
}

proof fn lemma_le16_bytes(v: int)
    requires
        0 <= v < 0x1_0000,
    ensures
        le16_bytes(v).len() == 2,
        le16(le16_bytes(v), 0) == v,
{
}

proof fn lemma_le32_bytes(v: int)
    requires
        0 <= v < 0x1_0000_0000,
    ensures
        le32_bytes(v).len() == 4,
        le32(le32_bytes(v), 0) == v,
{
    lemma_le16_bytes(v % 65536);
    lemma_le16_bytes(v / 65536);
    let s = le32_bytes(v);
    assert(s[0] == le16_bytes(v % 65536)[0] && s[1] == le16_bytes(v % 65536)[1]);
    assert(s[2] == le16_bytes(v / 65536)[0] && s[3] == le16_bytes(v / 65536)[1]);
    assert(le16(s, 2) == le16(le16_bytes(v / 65536), 0));
}

/// A field read inside a piece is the field read from the piece.
proof fn lemma_le16_within(b: Seq<u8>, p: int, s: Seq<u8>, i: int)
    requires
        stands_at(b, p, s),
        0 <= i,
        i + 2 <= s.len(),
    ensures
        le16(b, p + i) == le16(s, i),
{
    assert(b[p + i] == s[i]);
    assert(b[p + i + 1] == s[i + 1]);
}

proof fn lemma_le32_within(b: Seq<u8>, p: int, s: Seq<u8>, i: int)
    requires
        stands_at(b, p, s),
        0 <= i,
        i + 4 <= s.len(),
    ensures
        le32(b, p + i) == le32(s, i),
{
    lemma_le16_within(b, p, s, i);
    lemma_le16_within(b, p, s, i + 2);
}

/// A piece of a piece stands in the whole.
proof fn lemma_stands_within(b: Seq<u8>, p: int, s: Seq<u8>, i: int, t: Seq<u8>)
    requires
        stands_at(b, p, s),
        stands_at(s, i, t),
    ensures
        stands_at(b, p + i, t),
{
    assert(b.subrange(p + i, p + i + t.len()) =~= s.subrange(i, i + t.len()));
}

proof fn lemma_stands_split(b: Seq<u8>, p: int, s1: Seq<u8>, s2: Seq<u8>)
    requires
        stands_at(b, p, s1 + s2),
    ensures
        stands_at(b, p, s1),
        stands_at(b, p + s1.len(), s2),
{
    assert(b.subrange(p, p + s1.len()) =~= (s1 + s2).subrange(0, s1.len() as int));
    assert((s1 + s2).subrange(0, s1.len() as int) =~= s1);
    assert(b.subrange(p + s1.len(), p + s1.len() + s2.len()) =~= (s1 + s2).subrange(
        s1.len() as int,
        (s1.len() + s2.len()) as int,
    ));
    assert((s1 + s2).subrange(s1.len() as int, (s1.len() + s2.len()) as int) =~= s2);
}

/// The fields of a local record, where the reader looks for them.
proof fn lemma_local_fields(name: Seq<u8>, data: Seq<u8>)
    requires
        name.len() < 0x1_0000,
        data.len() < 0x1_0000_0000,
    ensures
        ({
            let r = local_record(name, data);
            &&& r.len() == 30 + name.len() + data.len()
            &&& le32(r, 0) == LOCAL_SIGNATURE
            &&& le16(r, 6) == 0
            &&& le16(r, 26) == name.len()
            &&& le16(r, 28) == 0
            &&& stands_at(r, (30 + name.len()) as int, data)
        }),
{
    let crc = crc32_of(data) as int;
    lemma_le32_bytes(LOCAL_SIGNATURE as int);
    lemma_le16_bytes(VERSION_NEEDED as int);
    lemma_le16_bytes(0);
    lemma_le16_bytes(DOS_TIME as int);
    lemma_le16_bytes(DOS_DATE as int);
    lemma_le32_bytes(crc);
    lemma_le32_bytes(data.len() as int);
    lemma_le16_bytes(name.len() as int);
    let h0 = le32_bytes(LOCAL_SIGNATURE as int);
    let h1 = h0 + le16_bytes(VERSION_NEEDED as int);
    let h2 = h1 + le16_bytes(0);
    let h3 = h2 + le16_bytes(0);
    let h4 = h3 + le16_bytes(DOS_TIME as int);
    let h5 = h4 + le16_bytes(DOS_DATE as int);
    let h6 = h5 + le32_bytes(crc);
    let h7 = h6 + le32_bytes(data.len() as int);
    let h8 = h7 + le32_bytes(data.len() as int);
    let h9 = h8 + le16_bytes(name.len() as int);
    let h10 = h9 + le16_bytes(0);
    let r = local_record(name, data);
    assert(r == h10 + name + data);
    assert(h10.len() == 30);
    assert(stands_at(r, 0, h10)) by {
        assert(r.subrange(0, 30) =~= h10);
    }
    assert(stands_at(h10, 0, h0)) by {
        assert(h10.subrange(0, 4) =~= h0);
    }
    assert(stands_at(h10, 6, le16_bytes(0))) by {
        assert(h10.subrange(6, 8) =~= le16_bytes(0));
    }
    assert(stands_at(h10, 26, le16_bytes(name.len() as int))) by {
        assert(h10.subrange(26, 28) =~= le16_bytes(name.len() as int));
    }
    assert(stands_at(h10, 28, le16_bytes(0))) by {
        assert(h10.subrange(28, 30) =~= le16_bytes(0));
    }
    lemma_stands_within(r, 0, h10, 0, h0);
    lemma_stands_within(r, 0, h10, 6, le16_bytes(0));
    lemma_stands_within(r, 0, h10, 26, le16_bytes(name.len() as int));
    lemma_stands_within(r, 0, h10, 28, le16_bytes(0));
    lemma_le32_within(r, 0, h0, 0);
    lemma_le16_within(r, 6, le16_bytes(0), 0);
    lemma_le16_within(r, 26, le16_bytes(name.len() as int), 0);
    lemma_le16_within(r, 28, le16_bytes(0), 0);
    assert(r.subrange((30 + name.len()) as int, (30 + name.len() + data.len()) as int) =~= data);
}

/// A two-byte field written after `h` reads back as written.
proof fn lemma_field16(b: Seq<u8>, h: Seq<u8>, v: int)
    requires
        0 <= v < 0x1_0000,
        stands_at(b, 0, h + le16_bytes(v)),
    ensures
        le16(b, h.len() as int) == v,
        stands_at(b, 0, h),
{
    lemma_le16_bytes(v);
    lemma_stands_split(b, 0, h, le16_bytes(v));
    lemma_le16_within(b, h.len() as int, le16_bytes(v), 0);
}

/// A four-byte field written after `h` reads back as written.
proof fn lemma_field32(b: Seq<u8>, h: Seq<u8>, v: int)
    requires
        0 <= v < 0x1_0000_0000,
        stands_at(b, 0, h + le32_bytes(v)),
    ensures
        le32(b, h.len() as int) == v,
        stands_at(b, 0, h),
{
    lemma_le32_bytes(v);
    lemma_stands_split(b, 0, h, le32_bytes(v));
    lemma_le32_within(b, h.len() as int, le32_bytes(v), 0);
}

proof fn lemma_stands_whole(b: Seq<u8>)
    ensures
        stands_at(b, 0, b),
{
    assert(b.subrange(0, b.len() as int) =~= b);
}

/// The fields of a central record, where the reader looks for them.
#[verifier::rlimit(60)]
#[verifier::spinoff_prover]
proof fn lemma_central_fields(name: Seq<u8>, crc: int, len: int, offset: int)
    requires
        name.len() < 0x1_0000,
        0 <= crc < 0x1_0000_0000,
        0 <= len < 0x1_0000_0000,
        0 <= offset < 0x1_0000_0000,
    ensures
        ({
            let r = central_fields(name, crc, len, offset);
            &&& r.len() == 46 + name.len()
            &&& le32(r, 0) == CENTRAL_SIGNATURE
            &&& le16(r, 8) == 0
            &&& le16(r, 10) == 0
            &&& le32(r, 16) == crc
            &&& le32(r, 20) == len
            &&& le32(r, 24) == len
            &&& le16(r, 28) == name.len()
            &&& le16(r, 30) == 0
            &&& le16(r, 32) == 0
            &&& le32(r, 42) == offset
            &&& r.subrange(46, 46 + name.len() as int) == name
        }),
{
    let h0 = le32_bytes(CENTRAL_SIGNATURE as int);
    let h1 = h0 + le16_bytes(VERSION_MADE_BY as int);
    let h2 = h1 + le16_bytes(VERSION_NEEDED as int);
    let h3 = h2 + le16_bytes(0);
    let h4 = h3 + le16_bytes(0);
    let h5 = h4 + le16_bytes(DOS_TIME as int);
    let h6 = h5 + le16_bytes(DOS_DATE as int);
    let h7 = h6 + le32_bytes(crc);
    let h8 = h7 + le32_bytes(len);
    let h9 = h8 + le32_bytes(len);
    let h10 = h9 + le16_bytes(name.len() as int);
    let h11 = h10 + le16_bytes(0);
    let h12 = h11 + le16_bytes(0);
    let h13 = h12 + le16_bytes(0);
    let h14 = h13 + le16_bytes(0);
    let h15 = h14 + le32_bytes(0);
    let h16 = h15 + le32_bytes(offset);
    let r = central_fields(name, crc, len, offset);
    assert(r == h16 + name);
    lemma_le16_bytes(0);
    lemma_le16_bytes(VERSION_MADE_BY as int);
    lemma_le16_bytes(VERSION_NEEDED as int);
    lemma_le16_bytes(DOS_TIME as int);
    lemma_le16_bytes(DOS_DATE as int);
    lemma_le16_bytes(name.len() as int);
    lemma_le32_bytes(CENTRAL_SIGNATURE as int);
    lemma_le32_bytes(crc);
    lemma_le32_bytes(len);
    lemma_le32_bytes(0);
    lemma_le32_bytes(offset);
    assert(h16.len() == 46);
    lemma_stands_whole(r);
    lemma_stands_split(r, 0, h16, name);
    lemma_field32(r, h15, offset);
    lemma_field32(r, h14, 0);
    lemma_field16(r, h13, 0);
    lemma_field16(r, h12, 0);
    lemma_field16(r, h11, 0);
    lemma_field16(r, h10, 0);
    lemma_field16(r, h9, name.len() as int);
    lemma_field32(r, h8, len);
    lemma_field32(r, h7, len);
    lemma_field32(r, h6, crc);
    lemma_field16(r, h5, DOS_DATE as int);
    lemma_field16(r, h4, DOS_TIME as int);
    lemma_field16(r, h3, 0);
    lemma_field16(r, h2, 0);
    lemma_field16(r, h1, VERSION_NEEDED as int);
    lemma_field16(r, h0, VERSION_MADE_BY as int);
    lemma_le32_within(r, 0, h0, 0);
    assert(r.subrange(46, 46 + name.len() as int) =~= name);
}

/// The fields of the end-of-central-directory record.
proof fn lemma_eocd_fields(count: int, size: int, offset: int)
    requires
        0 <= count < 0x1_0000,
        0 <= size < 0x1_0000_0000,
        0 <= offset < 0x1_0000_0000,
    ensures
        ({
            let r = eocd_record(count, size, offset);
            &&& r.len() == 22
            &&& le32(r, 0) == EOCD_SIGNATURE
            &&& le16(r, 10) == count
            &&& le32(r, 16) == offset
        }),
{
    let h0 = le32_bytes(EOCD_SIGNATURE as int);
    let h1 = h0 + le16_bytes(0);
    let h2 = h1 + le16_bytes(0);
    let h3 = h2 + le16_bytes(count);
    let h4 = h3 + le16_bytes(count);
    let h5 = h4 + le32_bytes(size);
    let h6 = h5 + le32_bytes(offset);
    let r = eocd_record(count, size, offset);
    assert(r == h6 + le16_bytes(0));
    lemma_le16_bytes(0);
    lemma_le16_bytes(count);
    lemma_le32_bytes(EOCD_SIGNATURE as int);
    lemma_le32_bytes(size);
    lemma_le32_bytes(offset);
    lemma_stands_whole(r);
    lemma_field16(r, h6, 0);
    lemma_field32(r, h5, offset);
    lemma_field32(r, h4, size);
    lemma_field16(r, h3, count);
    lemma_field16(r, h2, count);
    lemma_field16(r, h1, 0);
    lemma_field16(r, h0, 0);
    lemma_le32_within(r, 0, h0, 0);
}

/// Earlier local records stand at the front of later sections.
proof fn lemma_local_prefix(es: Seq<(Seq<u8>, Seq<u8>)>, k: int, n: int)
    requires
        0 <= k <= n,
    ensures
        stands_at(local_section(es, n), 0, local_section(es, k)),
    decreases n,
{
    if n == k {
        lemma_stands_whole(local_section(es, n));
    } else {
        lemma_local_prefix(es, k, n - 1);
        lemma_stands_whole(local_section(es, n));
        assert(local_section(es, n) == local_section(es, n - 1) + local_record(es[n - 1].0, es[n - 1].1));
        lemma_stands_split(
            local_section(es, n),
            0,
            local_section(es, n - 1),
            local_record(es[n - 1].0, es[n - 1].1),
        );
        lemma_stands_within(local_section(es, n), 0, local_section(es, n - 1), 0, local_section(es, k));
    }
}

proof fn lemma_central_prefix(es: Seq<(Seq<u8>, Seq<u8>)>, k: int, n: int)
    requires
        0 <= k <= n,
    ensures
        stands_at(central_section(es, n), 0, central_section(es, k)),
    decreases n,
{
    if n == k {
        lemma_stands_whole(central_section(es, n));
    } else {
        lemma_central_prefix(es, k, n - 1);
        let r = central_record(es[n - 1].0, es[n - 1].1, local_section(es, n - 1).len() as int);
        lemma_stands_whole(central_section(es, n));
        assert(central_section(es, n) == central_section(es, n - 1) + r);
        lemma_stands_split(
            central_section(es, n),
            0,
            central_section(es, n - 1),
            r,
        );
        lemma_stands_within(
            central_section(es, n),
            0,
            central_section(es, n - 1),
            0,
            central_section(es, k),
        );
    }
}

/// The central section grows by at most 600 bytes an entry.
#[verifier::spinoff_prover]
proof fn lemma_central_len(es: Seq<(Seq<u8>, Seq<u8>)>, k: int)
    requires
        0 <= k <= es.len(),
        forall|j: int| 0 <= j < es.len() ==> #[trigger] entry_writable(es, j),
    ensures
        central_section(es, k).len() <= 600 * k,
    decreases k,
{
    if k > 0 {
        lemma_central_len(es, k - 1);
        assert(entry_writable(es, k - 1));
        lemma_central_fields(
            es[k - 1].0,
            crc32_of(es[k - 1].1) as int,
            es[k - 1].1.len() as int,
            local_section(es, k - 1).len() as int,
        );
    }
}

/// The total size of the first `k` entries' data.
pub open spec fn stored_total(es: Seq<(Seq<u8>, Seq<u8>)>, k: int) -> int
    decreases k,
{
    if k <= 0 {
        0
    } else {
        stored_total(es, k - 1) + es[k - 1].1.len()
    }
}

proof fn lemma_stored_total_grows(es: Seq<(Seq<u8>, Seq<u8>)>, k: int, n: int)
    requires
        0 <= k <= n,
    ensures
        stored_total(es, k) <= stored_total(es, n),
    decreases n,
{
    if n > k {
        lemma_stored_total_grows(es, k, n - 1);
    }
}

/// The container is its local section, its central section and the
/// end record, one after the other.
proof fn lemma_container_parts(es: Seq<(Seq<u8>, Seq<u8>)>)
    ensures
        ({
            let b = stored_container(es);
            let n = es.len() as int;
            let ls = local_section(es, n);
            let cs = central_section(es, n);
            &&& stands_at(b, 0, ls)
            &&& stands_at(b, ls.len() as int, cs)
            &&& stands_at(b, (ls.len() + cs.len()) as int, eocd_record(n, cs.len() as int, ls.len() as int))
            &&& b.len() == ls.len() + cs.len() + eocd_record(n, cs.len() as int, ls.len() as int).len()
        }),
{
    let b = stored_container(es);
    let n = es.len() as int;
    let ls = local_section(es, n);
    let cs = central_section(es, n);
    let eocd = eocd_record(n, cs.len() as int, ls.len() as int);
    lemma_stands_whole(b);
    assert(b == (ls + cs) + eocd);
    lemma_stands_split(b, 0, ls + cs, eocd);
    lemma_stands_split(b, 0, ls, cs);
}

/// Entry `k`'s central record, where the reader looks for it.
#[verifier::rlimit(40)]
#[verifier::spinoff_prover]
proof fn lemma_central_in_container(es: Seq<(Seq<u8>, Seq<u8>)>, k: int)
    requires
        0 <= k < es.len(),
        entry_writable(es, k),
    ensures
        ({
            let b = stored_container(es);
            let n = es.len() as int;
            let start = local_section(es, n).len() as int;
            let at = start + central_section(es, k).len();
            let name = es[k].0;
            let data = es[k].1;
            &&& at + 46 + name.len() <= start + central_section(es, n).len()
            &&& central_section(es, k + 1).len() == central_section(es, k).len() + 46 + name.len()
            &&& le32(b, at) == CENTRAL_SIGNATURE
            &&& le16(b, at + 8) == 0
            &&& le16(b, at + 10) == 0
            &&& le32(b, at + 16) == crc32_of(data)
            &&& le32(b, at + 20) == data.len()
            &&& le32(b, at + 24) == data.len()
            &&& le16(b, at + 28) == name.len()
            &&& le16(b, at + 30) == 0
            &&& le16(b, at + 32) == 0
            &&& le32(b, at + 42) == local_section(es, k).len()
            &&& b.subrange(at + 46, at + 46 + name.len()) == name
        }),
{
    let b = stored_container(es);
    let n = es.len() as int;
    let cs = central_section(es, n);
    let start = local_section(es, n).len() as int;
    let name = es[k].0;
    let data = es[k].1;
    let o = local_section(es, k).len() as int;
    let at = start + central_section(es, k).len();
    lemma_container_parts(es);
    let crec = central_record(name, data, o);
    lemma_central_prefix(es, k + 1, n);
    assert(central_section(es, k + 1) == central_section(es, k) + crec);
    lemma_stands_split(cs, 0, central_section(es, k), crec);
    lemma_stands_within(b, start, cs, central_section(es, k).len() as int, crec);
    lemma_central_fields(name, crc32_of(data) as int, data.len() as int, o);
    lemma_le32_within(b, at, crec, 0);
    lemma_le16_within(b, at, crec, 8);
    lemma_le16_within(b, at, crec, 10);
    lemma_le32_within(b, at, crec, 16);
    lemma_le32_within(b, at, crec, 20);
    lemma_le32_within(b, at, crec, 24);
    lemma_le16_within(b, at, crec, 28);
    lemma_le16_within(b, at, crec, 30);
    lemma_le16_within(b, at, crec, 32);
    lemma_le32_within(b, at, crec, 42);
    assert(stands_at(crec, 46, name));
    lemma_stands_within(b, at, crec, 46, name);
}

/// Entry `k`'s local record, where the reader looks for it.
#[verifier::rlimit(40)]
#[verifier::spinoff_prover]
proof fn lemma_local_in_container(es: Seq<(Seq<u8>, Seq<u8>)>, k: int)
    requires
        0 <= k < es.len(),
        entry_writable(es, k),
    ensures
        ({
            let b = stored_container(es);
            let o = local_section(es, k).len() as int;
            let name = es[k].0;
            let data = es[k].1;
            &&& le32(b, o) == LOCAL_SIGNATURE
            &&& le16(b, o + 6) == 0
            &&& le16(b, o + 26) == name.len()
            &&& le16(b, o + 28) == 0
            &&& stands_at(b, o + 30 + name.len(), data)
        }),
{
    let b = stored_container(es);
    let n = es.len() as int;
    let ls = local_section(es, n);
    let name = es[k].0;
    let data = es[k].1;
    let o = local_section(es, k).len() as int;
    lemma_container_parts(es);
    let rec = local_record(name, data);
    lemma_local_prefix(es, k + 1, n);
    assert(local_section(es, k + 1) == local_section(es, k) + rec);
    lemma_stands_split(ls, 0, local_section(es, k), rec);
    lemma_stands_within(b, 0, ls, o, rec);
    lemma_local_fields(name, data);
    lemma_le32_within(b, o, rec, 0);
    lemma_le16_within(b, o, rec, 6);
    lemma_le16_within(b, o, rec, 26);
    lemma_le16_within(b, o, rec, 28);
    lemma_stands_within(b, o, rec, (30 + name.len()) as int, data);
}

/// Walking the directory from its start meets each central record where the
/// writer put it, and sums the sizes the writer wrote.
proof fn lemma_directory_walk(es: Seq<(Seq<u8>, Seq<u8>)>, k: int)
    requires
        container_writable(es),
        0 <= k <= es.len(),
    ensures
        ({
            let b = stored_container(es);
            let start = local_section(es, es.len() as int).len() as int;
            &&& record_at(b, start, k as nat) == start + central_section(es, k).len()
            &&& declared_before(b, start, k as nat) == stored_total(es, k)
        }),
    decreases k,
{
    if k > 0 {
        lemma_directory_walk(es, k - 1);
        assert(entry_writable(es, k - 1));
        lemma_central_in_container(es, k - 1);
    }
}

/// Record `k` of a stored container passes every check the reader makes.
#[verifier::rlimit(40)]
#[verifier::spinoff_prover]
proof fn lemma_record_accepted(es: Seq<(Seq<u8>, Seq<u8>)>, k: int)
    requires
        container_writable(es),
        0 <= k < es.len(),
        valid_utf8(es[k].0),
        es[k].1.len() <= MAX_OUTPUT,
        stored_total(es, es.len() as int) <= MAX_TOTAL_OUTPUT,
    ensures
        ({
            let b = stored_container(es);
            let start = local_section(es, es.len() as int).len() as int;
            let at = record_at(b, start, k as nat);
            &&& record_accepted(b, start, k as nat)
            &&& record_name(b, at) == es[k].0
        }),
{
    let b = stored_container(es);
    let n = es.len() as int;
    let start = local_section(es, n).len() as int;
    let len = es[k].1.len() as int;
    assert(entry_writable(es, k));
    lemma_directory_walk(es, k);
    lemma_directory_walk(es, k + 1);
    lemma_central_in_container(es, k);
    lemma_container_parts(es);
    lemma_stored_total_grows(es, k + 1, n);
    let at = record_at(b, start, k as nat);
    assert(record_name(b, at) == es[k].0);
    if len >= 256 {
        assert(len / len == 1) by (nonlinear_arith)
            requires
                len >= 256,
        ;
    }
    assert(record_ok(b, at));
    assert(record_caps_ok(b, at));
}

/// A container written by the stored writer opens and reads back: the
/// reader finds its end record where the writer put it, accepts every entry,
/// and finds, in the order written, each entry's name, stored method, CRC and
/// sizes, and behind its local header exactly the bytes written.
/// (An entry larger than the reader's `MAX_OUTPUT`, or a container whose
/// entries sum past `MAX_TOTAL_OUTPUT`, is written but refused on reading.)
#[verifier::rlimit(60)]
#[verifier::spinoff_prover]
pub proof fn lemma_stored_container_reads_back(es: Seq<(Seq<u8>, Seq<u8>)>)
    requires
        container_writable(es),
        forall|k: int|
            0 <= k < es.len() ==> valid_utf8(#[trigger] es[k].0) && es[k].1.len() <= MAX_OUTPUT,
        stored_total(es, es.len() as int) <= MAX_TOTAL_OUTPUT,
    ensures
        ({
            let b = stored_container(es);
            let e = b.len() - 22;
            &&& archive_ok(b)
            &&& eocd_of(b) == Some(e)
            &&& dir_count(b, e) == es.len()
            &&& forall|k: int|
                #![trigger es[k]]
                0 <= k < es.len() ==> {
                    let at = record_at(b, dir_start(b, e), k as nat);
                    let o = le32(b, at + 42);
                    let data_start = local_data_start(b, o);
                    &&& record_name(b, at) == es[k].0
                    &&& le16(b, at + 10) == 0
                    &&& le32(b, at + 16) == crc32_of(es[k].1)
                    &&& le32(b, at + 20) == es[k].1.len()
                    &&& le32(b, at + 24) == es[k].1.len()
                    &&& local_ok(b, o, es[k].1.len() as int)
                    &&& b.subrange(data_start, data_start + es[k].1.len()) == es[k].1
                }
        }),
{
    let b = stored_container(es);
    let n = es.len() as int;
    let ls = local_section(es, n);
    let cs = central_section(es, n);
    let start = ls.len() as int;
    let e = b.len() - 22;
    lemma_container_parts(es);
    lemma_central_len(es, n);
    let eocd = eocd_record(n, cs.len() as int, ls.len() as int);
    lemma_eocd_fields(n, cs.len() as int, ls.len() as int);
    assert(e == ls.len() + cs.len());
    lemma_le32_within(b, e, eocd, 0);
    lemma_le16_within(b, e, eocd, 10);
    lemma_le32_within(b, e, eocd, 16);
    assert(eocd_at(b, e));
    assert(eocd_of(b) == Some(e));
    assert(dir_start(b, e) == start);
    assert forall|k: nat| k < dir_count(b, e) implies #[trigger] record_accepted(b, dir_start(b, e), k) by {
        assert(valid_utf8(es[k as int].0));
        lemma_record_accepted(es, k as int);
    }
    assert forall|k: int| #![trigger es[k]] 0 <= k < es.len() implies {
        let at = record_at(b, dir_start(b, e), k as nat);
        let o = le32(b, at + 42);
        let data_start = local_data_start(b, o);
        &&& record_name(b, at) == es[k].0
        &&& le16(b, at + 10) == 0
        &&& le32(b, at + 16) == crc32_of(es[k].1)
        &&& le32(b, at + 20) == es[k].1.len()
        &&& le32(b, at + 24) == es[k].1.len()
        &&& local_ok(b, o, es[k].1.len() as int)
        &&& b.subrange(data_start, data_start + es[k].1.len()) == es[k].1
    } by {
        assert(valid_utf8(es[k].0));
        assert(entry_writable(es, k));
        lemma_record_accepted(es, k);
        lemma_directory_walk(es, k);
        lemma_central_in_container(es, k);
        lemma_local_in_container(es, k);
    }
}

/// What the stored writer wrote, the reader gives back: in an archive opened
/// on a stored container whose names are distinct, each entry carries the
/// name it was written with, is the first entry of that name, and reading it
/// succeeds with exactly the bytes written.
#[verifier::rlimit(40)]
pub proof fn lemma_stored_entry_reads_back(
    es: Seq<(Seq<u8>, Seq<u8>)>,
    a: Archive,
    k: int,
    r: Result<Vec<u8>, ZipError>,
)
    requires
        container_writable(es),
        forall|j: int|
            0 <= j < es.len() ==> valid_utf8(#[trigger] es[j].0) && es[j].1.len() <= MAX_OUTPUT,
        stored_total(es, es.len() as int) <= MAX_TOTAL_OUTPUT,
        forall|i: int, j: int| 0 <= i < j < es.len() ==> es[i].0 != es[j].0,
        a.bytes_view() == stored_container(es),
        a.entries_view().len() == es.len(),
        forall|j: int|
            0 <= j < a.entries_view().len() ==> record_describes(
                a.bytes_view(),
                record_at(a.bytes_view(), dir_start(a.bytes_view(), eocd_of(a.bytes_view())->0), j as nat),
                #[trigger] a.entries_view()[j],
            ),
        0 <= k < es.len(),
        a.read_outcome(a.entries_view()[k], r),
    ensures
        a.entries_view()[k].name@ == decode_utf8(es[k].0),
        forall|j: int| 0 <= j < k ==> a.entries_view()[j].name@ != a.entries_view()[k].name@,
        r matches Ok(out) && out@ == es[k].1,
{
    lemma_stored_container_reads_back(es);
    let b = stored_container(es);
    let e = b.len() - 22;
    assert(es[k] == es[k]);
    assert forall|j: int| 0 <= j < k implies a.entries_view()[j].name@ != a.entries_view()[k].name@ by {
        assert(es[j] == es[j]);
        assert(record_describes(b, record_at(b, dir_start(b, e), j as nat), a.entries_view()[j]));
        if a.entries_view()[j].name@ == a.entries_view()[k].name@ {
            vstd::utf8::decode_utf8_encode_utf8(es[j].0);
            vstd::utf8::decode_utf8_encode_utf8(es[k].0);
        }
    }
    assert(record_describes(b, record_at(b, dir_start(b, e), k as nat), a.entries_view()[k]));
}

/// Names handed to the writer as `&str` are valid UTF-8, as the reader asks.
pub proof fn lemma_str_names_valid(entries: Seq<(&str, &[u8])>)
    ensures
        forall|k: int|
            0 <= k < entries.len() ==> valid_utf8(#[trigger] entries_view(entries)[k].0),
{
    assert forall|k: int| 0 <= k < entries.len() implies valid_utf8(
        #[trigger] entries_view(entries)[k].0,
    ) by {
        vstd::utf8::encode_utf8_valid_utf8(entries[k].0@);
    }
}

} // verus!
