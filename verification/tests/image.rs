//! The image codec: fields written and read back, and hostile bytes refused.

use ehkatra::image::{chunk_hashes, ImageError, Reader, Writer, MAX_TEXT_BYTES};
use ehkatra::tile::TileKey;
use ehkatra::types::{ActorId, OpId};

fn writer() -> Writer {
    Writer { out: Vec::new(), tiles: Vec::new() }
}

#[test]
fn every_field_reads_back_as_written() {
    let mut w = writer();
    w.u8(0xAB);
    w.u16(0xBEEF);
    w.u32(0xDEAD_BEEF);
    w.u64(0x0123_4567_89AB_CDEF);
    w.i128(-2);
    w.i16(-300);
    w.len(7);
    let id = OpId { actor: ActorId(0x1122_3344_5566_7788_99AA_BBCC_DDEE_FF00), counter: 42 };
    w.opid(&id);
    w.text("héllo");
    let mut r = Reader::new(&w.out);
    assert_eq!(r.u8(), Ok(0xAB));
    assert_eq!(r.u16(), Ok(0xBEEF));
    assert_eq!(r.u32(), Ok(0xDEAD_BEEF));
    assert_eq!(r.u64(), Ok(0x0123_4567_89AB_CDEF));
    assert_eq!(r.i128(), Ok(-2));
    assert_eq!(r.i16(), Ok(-300));
    assert_eq!(r.count(100, "n"), Ok(7));
    assert_eq!(r.opid(), Ok(id));
    assert_eq!(r.text(MAX_TEXT_BYTES), Ok(String::from("héllo")));
    assert_eq!(r.at(), w.out.len());
    assert_eq!(r.u8(), Err(ImageError::Truncated));
}

#[test]
fn fields_are_little_endian() {
    let mut w = writer();
    w.u32(0x0102_0304);
    assert_eq!(w.out, vec![4, 3, 2, 1]);
    let mut w = writer();
    w.i16(-1);
    assert_eq!(w.out, vec![0xFF, 0xFF]);
}

#[test]
fn big_endian_fields_read_most_significant_first() {
    let bytes = [0x01, 0x02, 0x03, 0x04, 0x05, 0x06, 0x07, 0x08, 0xFF, 0xFE];
    let mut r = Reader::new(&bytes);
    assert_eq!(r.u32_be(), Ok(0x0102_0304));
    assert_eq!(r.u32_be(), Ok(0x0506_0708));
    assert_eq!(r.i16_be(), Ok(-2));
    let sixteen = [0xFFu8; 16];
    let mut r = Reader::new(&sixteen);
    assert_eq!(r.i128_be(), Ok(-1));
    let mut r = Reader::new(&sixteen[..8]);
    assert_eq!(r.u64_be(), Ok(u64::MAX));
}

#[test]
fn a_count_above_its_bound_is_refused_before_it_reserves() {
    let mut w = writer();
    w.u32(1_000_001);
    let mut r = Reader::new(&w.out);
    assert_eq!(r.count(1_000_000, "tiles"), Err(ImageError::CapExceeded("tiles")));
}

#[test]
fn a_short_read_is_truncated_and_leaves_the_position() {
    let bytes = [1u8, 2, 3];
    let mut r = Reader::new(&bytes);
    assert_eq!(r.u32(), Err(ImageError::Truncated));
    assert_eq!(r.at(), 0);
    assert_eq!(r.u16(), Ok(0x0201));
}

#[test]
fn text_that_is_not_utf8_is_malformed() {
    let mut w = writer();
    w.len(2);
    w.out.extend_from_slice(&[0xC3, 0x28]);
    let mut r = Reader::new(&w.out);
    assert_eq!(r.text(16), Err(ImageError::Malformed("text is not UTF-8")));
    let mut w = writer();
    w.text("long text");
    let mut r = Reader::new(&w.out);
    assert_eq!(r.text(3), Err(ImageError::CapExceeded("text")));
}

#[test]
fn chunk_hashes_are_blake3_of_each_tile_range() {
    let image = b"abcdefgh".to_vec();
    let tiles = vec![
        (TileKey { row_band: 0, col_band: 1 }, 0, 0),
        (TileKey { row_band: 2, col_band: 3 }, 2, 5),
    ];
    let hashes = chunk_hashes(&image, &tiles);
    assert_eq!(hashes.len(), 2);
    assert_eq!(hashes[0].0, (0, 1));
    assert_eq!(hashes[0].1, *blake3::hash(b"").as_bytes());
    assert_eq!(
        hashes[0].1[..4],
        [0xaf, 0x13, 0x49, 0xb9],
        "the empty chunk hashes to BLAKE3's empty digest"
    );
    assert_eq!(hashes[1].0, (2, 3));
    assert_eq!(hashes[1].1, *blake3::hash(b"cde").as_bytes());
    assert_ne!(hashes[1].1, hashes[0].1);
}
