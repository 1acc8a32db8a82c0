//! Style rules: stamp order, retained losers, and resolution against an axis.

use ehkatra::style::{AxisSpan, RuleValue, StyleRegistry, StyleResolver, StyleTarget};
use ehkatra::types::{ActorId, ColId, OpId, RowId};

fn id(actor: u128, counter: u64) -> OpId {
    OpId { actor: ActorId(actor), counter }
}

fn cell(row: OpId, col: OpId) -> StyleTarget {
    StyleTarget { rows: AxisSpan::Between(row, row), cols: AxisSpan::Between(col, col) }
}

fn axes() -> (Vec<(OpId, bool)>, Vec<(OpId, bool)>) {
    let rows = vec![(id(1, 1), true), (id(1, 2), true), (id(1, 3), true)];
    let cols = vec![(id(1, 10), true), (id(1, 11), true)];
    (rows, cols)
}

#[test]
fn rules_are_the_same_whatever_order_they_arrive_in() {
    let t = cell(id(1, 1), id(1, 10));
    let mut a = StyleRegistry::new();
    a.set((5, id(2, 1)), t, 3, 7);
    a.clear((9, id(3, 1)), t, 3);
    a.set((1, id(4, 1)), t, 2, 8);
    let mut b = StyleRegistry::new();
    b.set((1, id(4, 1)), t, 2, 8);
    b.clear((9, id(3, 1)), t, 3);
    b.set((5, id(2, 1)), t, 3, 7);
    b.set((5, id(2, 1)), t, 3, 7);
    assert_eq!(a.rules(), b.rules());
    let stamps: Vec<u64> = a.rules().iter().map(|r| r.stamp.0).collect();
    assert_eq!(stamps, vec![1, 5, 9]);
    assert!(!a.is_empty());
}

#[test]
fn the_newest_covering_rule_wins_each_slot_independently() {
    let (rows, cols) = axes();
    let t = cell(id(1, 1), id(1, 10));
    let mut reg = StyleRegistry::new();
    reg.set((1, id(2, 1)), t, 3, 100);
    reg.set((2, id(3, 1)), t, 2, 200);
    reg.set((3, id(2, 2)), t, 3, 101);
    let res = StyleResolver::build(&reg, &rows, &cols);
    let (row, col) = (RowId(id(1, 1)), ColId(id(1, 10)));
    assert_eq!(res.facet(&reg, row, col, 3), Some(101));
    assert_eq!(res.facet(&reg, row, col, 2), Some(200));
    assert_eq!(res.facet(&reg, row, col, 1), None);
    let style = res.style(&reg, row, col);
    assert_eq!(style.fill, Some(101));
    assert_eq!(style.font, Some(200));
    assert_eq!(style.number_format, None);
    assert!(!style.is_default());
    let losers = reg.losers(&res, (row, col), 3);
    assert_eq!(losers.len(), 1);
    assert_eq!(losers[0].value, RuleValue::SetTo(100));
    assert!(res.style(&reg, RowId(id(1, 2)), col).is_default());
}

#[test]
fn a_clear_beats_an_earlier_set() {
    let (rows, cols) = axes();
    let t = cell(id(1, 2), id(1, 11));
    let mut reg = StyleRegistry::new();
    reg.set((1, id(2, 1)), t, 1, 5);
    reg.clear((2, id(3, 1)), t, 1);
    let res = StyleResolver::build(&reg, &rows, &cols);
    assert_eq!(res.facet(&reg, RowId(id(1, 2)), ColId(id(1, 11)), 1), None);
    reg.set((3, id(2, 2)), t, 1, 6);
    let res = StyleResolver::build(&reg, &rows, &cols);
    assert_eq!(res.facet(&reg, RowId(id(1, 2)), ColId(id(1, 11)), 1), Some(6));
}

#[test]
fn a_deleted_endpoint_re_anchors_inward() {
    let rows = vec![(id(1, 1), false), (id(1, 2), true), (id(1, 3), true), (id(1, 4), false)];
    let cols = vec![(id(1, 10), true)];
    let t = StyleTarget {
        rows: AxisSpan::Between(id(1, 4), id(1, 1)),
        cols: AxisSpan::All,
    };
    let mut reg = StyleRegistry::new();
    reg.set((1, id(2, 1)), t, 2, 9);
    let res = StyleResolver::build(&reg, &rows, &cols);
    assert!(res.covers(0, (RowId(id(1, 2)), ColId(id(1, 10)))));
    assert!(res.covers(0, (RowId(id(1, 3)), ColId(id(1, 10)))));
    assert!(!res.covers(0, (RowId(id(1, 1)), ColId(id(1, 10)))));
    assert!(!res.covers(0, (RowId(id(1, 4)), ColId(id(1, 10)))));
    assert!(!res.covers(1, (RowId(id(1, 2)), ColId(id(1, 10)))));
    assert!(!res.covers(0, (RowId(id(9, 9)), ColId(id(1, 10)))));
}

#[test]
fn a_range_whose_identities_are_all_gone_covers_nothing() {
    let rows = vec![(id(1, 1), false), (id(1, 2), false)];
    let cols = vec![(id(1, 10), true)];
    let t = StyleTarget { rows: AxisSpan::Between(id(1, 1), id(1, 2)), cols: AxisSpan::All };
    let mut reg = StyleRegistry::new();
    reg.set((1, id(2, 1)), t, 2, 9);
    let res = StyleResolver::build(&reg, &rows, &cols);
    assert!(!res.covers(0, (RowId(id(1, 1)), ColId(id(1, 10)))));
}

#[test]
fn overlapping_clips_rules_to_the_target_and_keeps_whole_axes_whole() {
    let (rows, cols) = axes();
    let mut reg = StyleRegistry::new();
    let whole_column = StyleTarget { rows: AxisSpan::All, cols: AxisSpan::Between(id(1, 10), id(1, 10)) };
    reg.set((1, id(2, 1)), whole_column, 3, 1);
    reg.set((2, id(2, 2)), cell(id(1, 3), id(1, 11)), 3, 2);
    reg.set((3, id(2, 3)), whole_column, 2, 3);
    let res = StyleResolver::build(&reg, &rows, &cols);
    let target = StyleTarget { rows: AxisSpan::Between(id(1, 2), id(1, 3)), cols: AxisSpan::All };
    let got = res.overlapping(&reg, &target, 3);
    assert_eq!(got.len(), 2);
    assert_eq!(
        got[0].0,
        StyleTarget { rows: AxisSpan::Between(id(1, 2), id(1, 3)), cols: AxisSpan::Between(id(1, 10), id(1, 10)) }
    );
    assert_eq!(got[0].1, Some(1));
    assert_eq!(got[1].2, (2, id(2, 2)));
    let all = StyleTarget { rows: AxisSpan::All, cols: AxisSpan::All };
    let got = res.overlapping(&reg, &all, 2);
    assert_eq!(got.len(), 1);
    assert_eq!(got[0].0.rows, AxisSpan::All);
}
