//! Winner stamps, and the variable-length integers the image stores them in.

use ehkatra::stamps::{check_tail, read_varint, unzigzag, write_varint, zigzag, TailError, WinnerStamps};
use ehkatra::types::{ActorId, ColId, OpId, RowId};

fn id(actor: u128, counter: u64) -> OpId {
    OpId { actor: ActorId(actor), counter }
}

#[test]
fn the_greatest_stamp_wins_a_cell_whatever_the_arrival_order() {
    let (row, col) = (RowId(id(1, 1)), ColId(id(1, 2)));
    let writes = [(5u64, id(2, 7)), (9, id(3, 1)), (9, id(2, 4)), (1, id(4, 9))];
    let mut forward = WinnerStamps::new();
    for (lamport, op) in writes {
        forward.record(row, col, lamport, op);
    }
    let mut backward = WinnerStamps::new();
    for (lamport, op) in writes.iter().rev() {
        backward.record(row, col, *lamport, *op);
    }
    assert_eq!(forward.get(row, col), Some((9, id(3, 1))));
    assert_eq!(forward, backward);
    assert_eq!(forward.greatest(), Some((9, id(3, 1))));
    assert_eq!(forward.len(), 1);
    assert!(!forward.is_empty());
}

#[test]
fn an_empty_fold_has_no_greatest_key() {
    let stamps = WinnerStamps::new();
    assert_eq!(stamps.greatest(), None);
    assert!(stamps.is_empty());
    assert_eq!(stamps.get(RowId(id(1, 1)), ColId(id(1, 1))), None);
}

#[test]
fn recording_the_same_write_twice_changes_nothing() {
    let (row, col) = (RowId(id(1, 1)), ColId(id(1, 2)));
    let mut once = WinnerStamps::new();
    once.record(row, col, 3, id(7, 7));
    let mut twice = once.clone();
    twice.record(row, col, 3, id(7, 7));
    assert_eq!(once, twice);
}

#[test]
fn insert_and_set_greatest_restore_what_an_image_held() {
    let (row, col) = (RowId(id(1, 1)), ColId(id(1, 2)));
    let mut stamps = WinnerStamps::new();
    stamps.insert(row, col, (4, id(2, 2)));
    stamps.set_greatest(Some((10, id(9, 9))));
    assert_eq!(stamps.get(row, col), Some((4, id(2, 2))));
    assert_eq!(stamps.greatest(), Some((10, id(9, 9))));
    stamps.set_greatest(None);
    assert_eq!(stamps.greatest(), None);
}

#[test]
fn varints_take_one_byte_below_128_and_round_trip() {
    for v in [0u64, 1, 127, 128, 300, 16_383, 16_384, u32::MAX as u64, u64::MAX] {
        let mut out = vec![0xAA];
        write_varint(&mut out, v);
        let mut at = 1;
        assert_eq!(read_varint(&out, &mut at), Some(v));
        assert_eq!(at, out.len());
    }
    let mut out = Vec::new();
    write_varint(&mut out, 300);
    assert_eq!(out, vec![0xAC, 0x02]);
    let mut out = Vec::new();
    write_varint(&mut out, 127);
    assert_eq!(out, vec![0x7F]);
    let mut out = Vec::new();
    write_varint(&mut out, u64::MAX);
    assert_eq!(out.len(), 10);
}

#[test]
fn an_over_long_varint_is_refused_rather_than_wrapped() {
    let bytes = [0x80u8; 11];
    let mut at = 0;
    assert_eq!(read_varint(&bytes, &mut at), None);
    assert_eq!(at, 10);
}

#[test]
fn a_truncated_varint_is_refused() {
    let bytes = [0x80u8, 0x80];
    let mut at = 0;
    assert_eq!(read_varint(&bytes, &mut at), None);
    assert_eq!(at, 2);
    let mut past = 5;
    assert_eq!(read_varint(&bytes, &mut past), None);
    assert_eq!(past, 5);
}

#[test]
fn zigzag_interleaves_signs() {
    assert_eq!(zigzag(0), 0);
    assert_eq!(zigzag(-1), 1);
    assert_eq!(zigzag(1), 2);
    assert_eq!(zigzag(-2), 3);
    assert_eq!(zigzag(i64::MAX), u64::MAX - 1);
    assert_eq!(zigzag(i64::MIN), u64::MAX);
    for v in [0i64, 1, -1, 63, -64, i64::MAX, i64::MIN] {
        assert_eq!(unzigzag(zigzag(v)), v);
    }
    for u in [0u64, 1, 2, 3, u64::MAX, u64::MAX - 1] {
        assert_eq!(zigzag(unzigzag(u)), u);
    }
}

#[test]
fn entries_come_out_in_cell_order_with_their_winners() {
    let mut stamps = WinnerStamps::new();
    let (r1, r2) = (RowId(id(2, 1)), RowId(id(1, 5)));
    let c = ColId(id(1, 9));
    stamps.record(r1, c, 3, id(7, 1));
    stamps.record(r2, c, 4, id(7, 2));
    stamps.record(r1, c, 2, id(9, 9));
    let listed = stamps.entries();
    assert_eq!(listed, vec![((r2, c), (4, id(7, 2))), ((r1, c), (3, id(7, 1)))]);
    assert!(WinnerStamps::new().entries().is_empty());
}

#[test]
fn a_tail_onto_an_empty_image_is_accepted() {
    let stamps = WinnerStamps::new();
    assert_eq!(check_tail(&stamps, &[(0, id(1, 1)), (0, id(1, 0))]), Ok(()));
}

#[test]
fn a_tail_strictly_after_the_image_is_accepted() {
    let mut stamps = WinnerStamps::new();
    stamps.record(RowId(id(1, 1)), ColId(id(1, 2)), 5, id(3, 4));
    assert_eq!(check_tail(&stamps, &[(5, id(3, 5)), (6, id(1, 0)), (5, id(4, 0))]), Ok(()));
}

#[test]
fn the_first_tail_op_not_after_the_image_is_named() {
    let mut stamps = WinnerStamps::new();
    stamps.record(RowId(id(1, 1)), ColId(id(1, 2)), 5, id(3, 4));
    let tail = [(6, id(1, 0)), (5, id(3, 4)), (1, id(9, 9))];
    assert_eq!(
        check_tail(&stamps, &tail),
        Err(TailError::NotAfterImage { op: id(3, 4), image_greatest: id(3, 4) })
    );
}
