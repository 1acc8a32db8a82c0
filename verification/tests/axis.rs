//! Axis insertion order and tombstones.

use ehkatra::axis::{read_axis, write_axis, AxisSeq};
use ehkatra::image::{ImageError, Reader, Writer};
use ehkatra::types::{ActorId, OpId};

fn id(actor: u128, counter: u64) -> OpId {
    OpId { actor: ActorId(actor), counter }
}

#[test]
fn later_inserts_at_one_place_land_nearer_the_anchor_in_any_arrival_order() {
    let inserts = [(3u64, id(1, 1)), (5, id(2, 1)), (5, id(1, 2)), (1, id(3, 1))];
    let mut a = AxisSeq::new();
    for (lamport, op) in inserts {
        a.insert(None, op, lamport);
    }
    let mut b = AxisSeq::new();
    for (lamport, op) in inserts.iter().rev() {
        b.insert(None, *op, *lamport);
    }
    assert_eq!(a.children_of(None), b.children_of(None));
    assert_eq!(
        a.children_of(None),
        vec![(5, id(2, 1)), (5, id(1, 2)), (3, id(1, 1)), (1, id(3, 1))]
    );
    a.insert(Some(id(1, 1)), id(4, 1), 6);
    assert_eq!(a.children_of(Some(id(1, 1))), vec![(6, id(4, 1))]);
    assert_eq!(a.children_of(None).len(), 4);
}

#[test]
fn delete_and_undelete_toggle_liveness() {
    let mut a = AxisSeq::new();
    a.insert(None, id(1, 1), 1);
    assert!(a.is_live(&id(1, 1)));
    a.delete(id(1, 1));
    assert!(!a.is_live(&id(1, 1)));
    a.undelete(id(1, 1));
    assert!(a.is_live(&id(1, 1)));
}

#[test]
fn the_walk_lists_each_child_then_what_is_filed_under_it() {
    let (a, b, c, d) = (id(1, 1), id(1, 2), id(1, 3), id(2, 1));
    let mut axis = AxisSeq::new();
    axis.insert(None, a, 1);
    axis.insert(None, b, 2);
    axis.insert(Some(a), c, 3);
    axis.insert(Some(c), d, 4);
    assert_eq!(axis.preorder(None), vec![b, a, c, d]);
    assert_eq!(axis.preorder(Some(a)), vec![c, d]);
    assert_eq!(axis.preorder(Some(d)), Vec::<OpId>::new());
    assert_eq!(axis.live_order(), vec![b, a, c, d]);
}

#[test]
fn a_tombstone_keeps_its_place_in_the_full_order() {
    let (a, b, c) = (id(1, 1), id(1, 2), id(1, 3));
    let mut axis = AxisSeq::new();
    axis.insert(None, a, 1);
    axis.insert(Some(a), b, 2);
    axis.insert(Some(a), c, 3);
    axis.delete(a);
    assert_eq!(axis.live_order(), vec![c, b]);
    assert_eq!(axis.full_order(), vec![(a, false), (c, true), (b, true)]);
    axis.undelete(a);
    assert_eq!(axis.full_order(), vec![(a, true), (c, true), (b, true)]);
}

#[test]
fn a_deep_chain_is_walked_without_recursion() {
    let mut axis = AxisSeq::new();
    let mut anchor = None;
    for n in 0..100_000u64 {
        let op = id(1, n);
        axis.insert(anchor, op, n);
        anchor = Some(op);
    }
    let order = axis.live_order();
    assert_eq!(order.len(), 100_000);
    assert_eq!(order[0], id(1, 0));
    assert_eq!(order[99_999], id(1, 99_999));
}

#[test]
fn an_empty_axis_lists_nothing() {
    let axis = AxisSeq::new();
    assert!(axis.live_order().is_empty());
    assert!(axis.full_order().is_empty());
}

fn sample_axis() -> AxisSeq {
    let (a, b, c, d) = (id(1, 1), id(1, 2), id(2, 3), id(3, 4));
    let mut axis = AxisSeq::new();
    axis.insert(None, a, 1);
    axis.insert(None, b, 2);
    axis.insert(Some(a), c, 3);
    axis.insert(Some(a), d, 4);
    axis.delete(c);
    axis
}

#[test]
fn an_axis_image_reads_back_as_the_same_tree() {
    let axis = sample_axis();
    let mut w = Writer { out: Vec::new(), tiles: Vec::new() };
    write_axis(&mut w, &axis);
    let len = w.out.len();
    w.out.extend_from_slice(&[0xAA, 0xBB]);
    let mut r = Reader::new(&w.out);
    let back = read_axis(&mut r).expect("reads");
    assert_eq!(r.at(), len);
    assert_eq!(back.full_order(), axis.full_order());
    assert_eq!(back.children_of(None), axis.children_of(None));
    assert_eq!(back.children_of(Some(id(1, 1))), axis.children_of(Some(id(1, 1))));
    assert!(!back.is_live(&id(2, 3)));
    // A restored axis keeps being edited exactly like the original.
    let mut x = axis;
    let mut y = back;
    x.insert(Some(id(1, 1)), id(9, 9), 5);
    y.insert(Some(id(1, 1)), id(9, 9), 5);
    assert_eq!(x.full_order(), y.full_order());
}

#[test]
fn an_axis_image_has_the_documented_layout() {
    let mut axis = AxisSeq::new();
    axis.insert(None, id(1, 2), 7);
    let mut w = Writer { out: Vec::new(), tiles: Vec::new() };
    write_axis(&mut w, &axis);
    let mut expected = vec![1, 0, 0, 0, 0, 1, 0, 0, 0, 7, 0, 0, 0, 0, 0, 0, 0];
    expected.extend_from_slice(&1u128.to_le_bytes());
    expected.extend_from_slice(&2u64.to_le_bytes());
    expected.extend_from_slice(&[0, 0, 0, 0]);
    assert_eq!(w.out, expected);
}

#[test]
fn every_truncation_of_an_axis_image_is_refused() {
    let axis = sample_axis();
    let mut w = Writer { out: Vec::new(), tiles: Vec::new() };
    write_axis(&mut w, &axis);
    for cut in 0..w.out.len() {
        let mut r = Reader::new(&w.out[..cut]);
        assert_eq!(read_axis(&mut r).err(), Some(ImageError::Truncated), "cut at {cut}");
    }
}

#[test]
fn an_unknown_anchor_tag_is_malformed() {
    let bytes = [1u8, 0, 0, 0, 2];
    let mut r = Reader::new(&bytes);
    assert_eq!(read_axis(&mut r).err(), Some(ImageError::Malformed("axis anchor tag")));
}

#[test]
fn axis_counts_over_their_bounds_are_refused_before_reading() {
    let groups = [0xFF, 0xFF, 0xFF, 0xFF];
    assert_eq!(read_axis(&mut Reader::new(&groups)).err(), Some(ImageError::CapExceeded("axis groups")));
    let children = [1, 0, 0, 0, 0, 0xFF, 0xFF, 0xFF, 0xFF];
    assert_eq!(read_axis(&mut Reader::new(&children)).err(), Some(ImageError::CapExceeded("axis children")));
    let tombstones = [0, 0, 0, 0, 0xFF, 0xFF, 0xFF, 0xFF];
    assert_eq!(read_axis(&mut Reader::new(&tombstones)).err(), Some(ImageError::CapExceeded("tombstones")));
}
