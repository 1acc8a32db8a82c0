//! ZIP and DEFLATE against hand-built and hostile inputs.

use ehkatra::zip::inflate::{inflate, InflateError, MAX_OUTPUT};
use ehkatra::zip::write::build_stored;
use ehkatra::zip::{crc32, Archive, Entry, ZipError, MAX_RATIO};

/// A minimal single-entry archive whose directory claims the given sizes.
fn forge_archive(name: &str, compressed: usize, uncompressed: usize) -> Vec<u8> {
    let name_bytes = name.as_bytes();
    let mut out = Vec::new();

    let local_offset = out.len();
    out.extend_from_slice(&0x0403_4b50u32.to_le_bytes());
    out.extend_from_slice(&[0u8; 2]);
    out.extend_from_slice(&[0u8; 2]);
    out.extend_from_slice(&8u16.to_le_bytes());
    out.extend_from_slice(&[0u8; 4]);
    out.extend_from_slice(&[0u8; 4]);
    out.extend_from_slice(&(compressed as u32).to_le_bytes());
    out.extend_from_slice(&(uncompressed as u32).to_le_bytes());
    out.extend_from_slice(&(name_bytes.len() as u16).to_le_bytes());
    out.extend_from_slice(&0u16.to_le_bytes());
    out.extend_from_slice(name_bytes);
    out.extend(core::iter::repeat_n(0u8, compressed));

    let central_offset = out.len();
    out.extend_from_slice(&0x0201_4b50u32.to_le_bytes());
    out.extend_from_slice(&[0u8; 2]);
    out.extend_from_slice(&[0u8; 2]);
    out.extend_from_slice(&[0u8; 2]);
    out.extend_from_slice(&8u16.to_le_bytes());
    out.extend_from_slice(&[0u8; 4]);
    out.extend_from_slice(&[0u8; 4]);
    out.extend_from_slice(&(compressed as u32).to_le_bytes());
    out.extend_from_slice(&(uncompressed as u32).to_le_bytes());
    out.extend_from_slice(&(name_bytes.len() as u16).to_le_bytes());
    out.extend_from_slice(&0u16.to_le_bytes());
    out.extend_from_slice(&0u16.to_le_bytes());
    out.extend_from_slice(&[0u8; 2]);
    out.extend_from_slice(&[0u8; 2]);
    out.extend_from_slice(&[0u8; 4]);
    out.extend_from_slice(&(local_offset as u32).to_le_bytes());
    out.extend_from_slice(name_bytes);
    let central_size = out.len() - central_offset;

    out.extend_from_slice(&0x0605_4b50u32.to_le_bytes());
    out.extend_from_slice(&[0u8; 4]);
    out.extend_from_slice(&1u16.to_le_bytes());
    out.extend_from_slice(&1u16.to_le_bytes());
    out.extend_from_slice(&(central_size as u32).to_le_bytes());
    out.extend_from_slice(&(central_offset as u32).to_le_bytes());
    out.extend_from_slice(&0u16.to_le_bytes());
    out
}

#[test]
fn a_file_that_is_not_a_zip_is_refused() {
    assert_eq!(Archive::open(b"").err(), Some(ZipError::NotAZip));
    assert_eq!(Archive::open(b"not a zip file at all").err(), Some(ZipError::NotAZip));
    let mut fake = b"PK\x03\x04".to_vec();
    fake.extend_from_slice(&[0u8; 64]);
    assert_eq!(Archive::open(&fake).err(), Some(ZipError::NotAZip));
}

#[test]
fn a_bomb_is_refused_from_the_directory_alone() {
    let bomb = forge_archive("bomb.bin", 1024, 4_000_000_000);
    match Archive::open(&bomb) {
        Err(ZipError::CapExceeded { cap, .. }) => {
            assert!(
                cap == "MAX_RATIO" || cap == "MAX_OUTPUT" || cap == "MAX_TOTAL_OUTPUT",
                "unexpected cap {cap}"
            );
        }
        other => panic!("expected a cap, got {other:?}", other = other.map(|_| ())),
    }
}

#[test]
fn the_ratio_cap_is_where_docs_24_says() {
    let ok = forge_archive("fine.bin", 1024, 1024 * MAX_RATIO as usize);
    assert!(Archive::open(&ok).is_ok());
    let bad = forge_archive("bad.bin", 1024, 1024 * MAX_RATIO as usize + 1024);
    assert!(matches!(
        Archive::open(&bad),
        Err(ZipError::CapExceeded { cap: "MAX_RATIO", .. })
    ));
}

#[test]
fn a_name_that_escapes_the_container_is_refused() {
    for name in ["../evil", "a/../../evil", "/abs", "C:\\evil", "a\\..\\b"] {
        let archive = forge_archive(name, 16, 16);
        assert!(
            matches!(Archive::open(&archive), Err(ZipError::UnsafeName { .. })),
            "{name} was accepted"
        );
    }
    for name in ["xl/worksheets/sheet1.xml", "a..b", "..hidden"] {
        let archive = forge_archive(name, 16, 16);
        assert!(Archive::open(&archive).is_ok(), "{name} was refused");
    }
}

#[test]
fn a_stored_block_round_trips() {
    let mut stream = vec![0x01, 0x05, 0x00, 0xFA, 0xFF];
    stream.extend_from_slice(b"hello");
    assert_eq!(inflate(&stream, 5).expect("inflates"), b"hello");
}

#[test]
fn a_stored_block_with_a_broken_length_check_is_refused() {
    let mut stream = vec![0x01, 0x05, 0x00, 0x00, 0x00];
    stream.extend_from_slice(b"hello");
    assert_eq!(inflate(&stream, 5), Err(InflateError::StoredLengthMismatch));
}

#[test]
fn malformed_streams_are_named_errors_not_panics() {
    assert_eq!(inflate(&[], 0), Err(InflateError::Truncated));
    assert_eq!(inflate(&[0x07], 0), Err(InflateError::ReservedBlockType));
    let empty_backref = [0x63u8, 0x00, 0x00];
    match inflate(&empty_backref, 0) {
        Ok(_) | Err(_) => {}
    }
    let mut valid = vec![0x01, 0x05, 0x00, 0xFA, 0xFF];
    valid.extend_from_slice(b"hello");
    for cut in 0..valid.len() {
        assert!(
            inflate(&valid[..cut], 5).is_err(),
            "a truncated stream must not succeed at {cut}"
        );
    }
}

#[test]
fn random_bytes_never_break_the_inflater() {
    let mut seed = 0x1234_5678_9ABC_DEF0u64;
    let mut next = move || {
        seed = seed
            .wrapping_mul(6364136223846793005)
            .wrapping_add(1442695040888963407);
        seed >> 33
    };
    for _ in 0..20_000 {
        let len = (next() % 64) as usize + 1;
        let bytes: Vec<u8> = (0..len).map(|_| (next() & 0xFF) as u8).collect();
        if let Ok(out) = inflate(&bytes, 0) {
            assert!(out.len() <= MAX_OUTPUT);
        }
    }
}

#[test]
fn an_over_subscribed_tree_is_refused() {
    let stream = [0x05u8, 0x00, 0x92, 0x04];
    assert_eq!(inflate(&stream, 0), Err(InflateError::BadCodeLengths));
}

#[test]
fn a_stored_container_round_trips_through_the_reader() {
    let entries: [(&str, &[u8]); 3] = [
        ("a.txt", b"hello"),
        ("dir/b.bin", &[0u8, 1, 2, 255]),
        ("empty.txt", b""),
    ];
    let bytes = build_stored(&entries).expect("writes");
    let archive = Archive::open(&bytes).expect("our own output must open");
    assert_eq!(archive.entries().len(), 3);
    for (name, data) in entries {
        let back = archive
            .read_named(name)
            .expect("present")
            .expect("reads with a verified CRC");
        assert_eq!(back, data, "{name}");
    }
}

#[test]
fn the_stored_writer_is_deterministic() {
    let entries: [(&str, &[u8]); 2] = [("x", b"one"), ("y", b"two")];
    assert_eq!(
        build_stored(&entries).expect("writes"),
        build_stored(&entries).expect("writes")
    );
}

#[test]
fn the_writer_refuses_names_its_own_reader_would() {
    for name in ["../escape", "/absolute", "C:\\drive"] {
        let entries: [(&str, &[u8]); 1] = [(name, b"x")];
        assert!(
            matches!(build_stored(&entries), Err(ZipError::UnsafeName { .. })),
            "{name} was accepted"
        );
    }
}

#[test]
fn crc32_matches_the_standard_check_value() {
    assert_eq!(crc32(b"123456789"), 0xCBF4_3926);
    assert_eq!(crc32(b""), 0);
}

#[test]
fn a_fixed_huffman_stream_inflates() {
    // "a" compressed with the fixed tables: BFINAL=1, BTYPE=01, literal 'a',
    // end of block.
    assert_eq!(inflate(&[0x4B, 0x04, 0x00], 1), Ok(b"a".to_vec()));
}

#[test]
fn a_back_reference_copies_earlier_output() {
    // "aaaaa" from zlib at level 9: a literal then a length-4, distance-1 copy.
    assert_eq!(inflate(&[0x4B, 0x4C, 0x04, 0x02, 0x00], 5), Ok(b"aaaaa".to_vec()));
}

#[test]
fn every_error_of_the_directory_is_named() {
    let mut bytes = forge_archive("x.bin", 16, 16);
    let eocd = bytes.len() - 22;
    // Point the directory past the end of the file.
    bytes[eocd + 16] = 0xFF;
    bytes[eocd + 17] = 0xFF;
    assert_eq!(Archive::open(&bytes).err(), Some(ZipError::Truncated));
}

#[test]
fn a_stored_entry_reads_back_through_its_local_header() {
    let entries: [(&str, &[u8]); 1] = [("data.bin", b"payload")];
    let bytes = build_stored(&entries).expect("writes");
    let archive = Archive::open(&bytes).expect("opens");
    let entry = archive.find("data.bin").expect("present");
    assert_eq!(entry.method, 0);
    assert_eq!(entry.crc32, crc32(b"payload"));
    assert_eq!(archive.read(entry), Ok(b"payload".to_vec()));
    assert_eq!(archive.declared_output(), 7);
    assert!(archive.find("nope").is_none());
}

#[test]
fn an_entry_whose_name_ends_in_a_slash_is_a_directory() {
    let dir = Entry {
        name: String::from("xl/worksheets/"),
        method: 0,
        crc32: 0,
        compressed_size: 0,
        uncompressed_size: 0,
        local_header_offset: 0,
    };
    let file = Entry { name: String::from("xl/workbook.xml"), ..dir.clone() };
    let empty = Entry { name: String::new(), ..dir.clone() };
    assert!(dir.is_directory());
    assert!(!file.is_directory());
    assert!(!empty.is_directory());
}

#[test]
fn the_size_hint_never_changes_the_result() {
    let streams: Vec<Vec<u8>> = vec![
        vec![0x4B, 0x04, 0x00],
        vec![0x4B, 0x4C, 0x04, 0x02, 0x00],
        vec![0x05, 0x00, 0x92, 0x04],
        vec![0x01, 0x05, 0x00, 0xFA, 0xFF, b'h', b'e', b'l', b'l', b'o'],
        vec![0x07],
    ];
    for s in &streams {
        let a = inflate(s, 0);
        let b = inflate(s, 5);
        let c = inflate(s, 1 << 30);
        assert_eq!(a, b);
        assert_eq!(a, c);
    }
}
