//! The cell store: packed payloads, uncontested and contested writes, and
//! the reduction of retained losers.

use ehkatra::decimal::Decimal;
use ehkatra::store::{retain_concurrent_losers, CellPack, TileStore, Value};
use ehkatra::tile::{plan_promotions, Kind, PlanOp};
use ehkatra::types::{ActorId, ColId, ErrorKind, OpId, RowId};

fn id(actor: u128, counter: u64) -> OpId {
    OpId { actor: ActorId(actor), counter }
}

fn num(x: f64) -> Value {
    Value::Number(x.to_bits())
}

fn write(row: OpId, col: OpId, actor: u128) -> PlanOp {
    PlanOp::WriteCell { row: RowId(row), col: ColId(col), actor: ActorId(actor) }
}

#[test]
fn a_packed_payload_widens_when_a_foreign_value_arrives() {
    let mut pack = CellPack::empty(Kind::Numbers);
    pack.insert(0, num(1.5));
    pack.insert(1, num(2.5));
    assert_eq!(pack.kind(), Kind::Numbers);
    pack.insert(1, Value::Text(String::from("x")));
    assert_eq!(pack.kind(), Kind::Tagged);
    assert_eq!(pack.len(), 3);
    assert_eq!(pack.get(0), num(1.5));
    assert_eq!(pack.get(1), Value::Text(String::from("x")));
    assert_eq!(pack.get(2), num(2.5));
    pack.replace(2, Value::Bool(true));
    assert_eq!(pack.get(2), Value::Bool(true));
}

#[test]
fn decimals_pack_without_tags_and_a_number_widens_them() {
    let d = Decimal::new(1250, -2);
    let mut pack = CellPack::empty(Kind::Decimals);
    pack.insert(0, Value::Decimal(d));
    pack.replace(0, Value::Decimal(d));
    assert_eq!(pack.kind(), Kind::Decimals);
    pack.replace(0, num(1.0));
    assert_eq!(pack.kind(), Kind::Tagged);
    assert_eq!(CellPack::kind_of(&Value::Decimal(d)), Some(Kind::Decimals));
    assert_eq!(CellPack::kind_of(&Value::Error(ErrorKind::Na)), None);
}

#[test]
fn losers_keep_each_other_actors_newest_write_in_stamp_order() {
    let mut losers = vec![
        (5, id(2, 1), num(1.0)),
        (3, id(3, 1), num(2.0)),
        (7, id(2, 2), num(3.0)),
        (9, id(1, 4), num(4.0)),
        (4, id(3, 2), num(5.0)),
    ];
    retain_concurrent_losers(&mut losers, ActorId(1));
    assert_eq!(losers, vec![(4, id(3, 2), num(5.0)), (7, id(2, 2), num(3.0))]);
}

#[test]
fn the_reduction_does_not_depend_on_arrival_order() {
    let writes = vec![
        (5, id(2, 1), num(1.0)),
        (3, id(3, 1), num(2.0)),
        (7, id(2, 2), num(3.0)),
        (4, id(3, 2), num(5.0)),
    ];
    let mut a = writes.clone();
    let mut b: Vec<_> = writes.into_iter().rev().collect();
    retain_concurrent_losers(&mut a, ActorId(9));
    retain_concurrent_losers(&mut b, ActorId(9));
    assert_eq!(a, b);
}

#[test]
fn an_uncontested_cell_takes_each_write_as_it_comes() {
    let (r, c) = (id(1, 1), id(1, 2));
    let plan = plan_promotions(&[PlanOp::InsertRow(r), PlanOp::InsertCol(c), write(r, c, 1), write(r, c, 1)]);
    let mut store = TileStore::from_plan(plan);
    store.write(r, c, 3, id(1, 3), num(1.0));
    store.write(r, c, 4, id(1, 4), Value::Text(String::from("two")));
    assert_eq!(store.get(&r, &c), Some(Value::Text(String::from("two"))));
    assert!(store.losers(&r, &c).is_empty());
    assert!(!store.is_cell_promoted(&r, &c));
    assert_eq!(store.causal_summary(&r, &c), Some((4, ActorId(1))));
    assert_eq!(store.tile_count(), 1);
}

#[test]
fn a_contested_cell_converges_in_either_arrival_order_and_keeps_the_loser() {
    let (r, c) = (id(1, 1), id(1, 2));
    let ops = [PlanOp::InsertRow(r), PlanOp::InsertCol(c), write(r, c, 2), write(r, c, 3)];
    let mut one = TileStore::from_plan(plan_promotions(&ops));
    let mut two = TileStore::from_plan(plan_promotions(&ops));
    one.write(r, c, 5, id(2, 1), num(10.0));
    one.write(r, c, 6, id(3, 1), num(20.0));
    two.write(r, c, 6, id(3, 1), num(20.0));
    two.write(r, c, 5, id(2, 1), num(10.0));
    assert!(one.is_cell_promoted(&r, &c));
    assert_eq!(one.get(&r, &c), Some(num(20.0)));
    assert_eq!(two.get(&r, &c), Some(num(20.0)));
    assert_eq!(one.losers(&r, &c), &[(5, id(2, 1), num(10.0))]);
    assert_eq!(two.losers(&r, &c), one.losers(&r, &c));
    assert_eq!(one.causal_summary(&r, &c), Some((6, ActorId(3))));
    assert_eq!(two.causal_summary(&r, &c), Some((6, ActorId(3))));
}

#[test]
fn a_neighbour_of_a_contested_cell_stays_on_the_summary_path() {
    let (r, c, d) = (id(1, 1), id(1, 2), id(1, 3));
    let ops = [PlanOp::InsertRow(r), PlanOp::InsertCol(c), PlanOp::InsertCol(d), write(r, c, 2), write(r, c, 3), write(r, d, 2)];
    let mut store = TileStore::from_plan(plan_promotions(&ops));
    store.write(r, d, 1, id(2, 9), num(1.0));
    assert!(!store.is_cell_promoted(&r, &d));
    assert!(store.losers(&r, &d).is_empty());
    assert_eq!(store.get(&r, &d), Some(num(1.0)));
    assert_eq!(store.get(&r, &c), None);
}

#[test]
fn cells_never_written_and_identities_never_seen_read_as_nothing() {
    let store = TileStore::from_plan(plan_promotions(&[]));
    assert_eq!(store.get(&id(1, 1), &id(1, 2)), None);
    assert_eq!(store.causal_summary(&id(1, 1), &id(1, 2)), None);
    assert!(!store.is_cell_promoted(&id(1, 1), &id(1, 2)));
    assert_eq!(store.tile_count(), 0);
}

#[test]
fn values_written_in_row_order_read_back_whatever_their_place_in_the_tile() {
    let rows: Vec<OpId> = (0..300).map(|n| id(1, n)).collect();
    let col = id(2, 0);
    let mut store = TileStore::from_plan(plan_promotions(&[]));
    for (n, r) in rows.iter().enumerate() {
        store.write(*r, col, n as u64, id(1, 1000 + n as u64), num(n as f64));
    }
    // One write out of order inside a tile that already holds later cells.
    store.write(rows[10], id(2, 1), 999, id(1, 5000), Value::Blank);
    for (n, r) in rows.iter().enumerate() {
        assert_eq!(store.get(r, &col), Some(num(n as f64)));
    }
    assert_eq!(store.get(&rows[10], &id(2, 1)), Some(Value::Blank));
    assert_eq!(store.tile_count(), 2);
}

#[test]
fn for_each_lists_present_cells_tile_by_tile_in_cell_order() {
    let rows: Vec<OpId> = (0..300).map(|n| id(1, n)).collect();
    let (c0, c1) = (id(2, 0), id(2, 1));
    let mut store = TileStore::from_plan(plan_promotions(&[]));
    store.write(rows[299], c0, 1, id(1, 1), num(299.0));
    store.write(rows[0], c1, 2, id(1, 2), num(0.5));
    store.write(rows[0], c0, 3, id(1, 3), num(0.0));
    store.write(rows[1], c0, 4, id(1, 4), Value::Bool(false));
    let listed = store.for_each();
    // Slots follow first sight: rows[299] took row slot 0, so it leads.
    assert_eq!(
        listed,
        vec![
            (rows[299], c0, num(299.0)),
            (rows[0], c0, num(0.0)),
            (rows[0], c1, num(0.5)),
            (rows[1], c0, Value::Bool(false)),
        ]
    );
    // A cell in a later row band comes after every cell of the first band.
    let far = id(9, 9);
    for r in rows.iter().skip(2) {
        store.write(*r, c0, 10, id(1, 10), Value::Blank);
    }
    store.write(far, c0, 11, id(1, 11), num(7.0));
    let listed = store.for_each();
    assert_eq!(listed.last(), Some(&(far, c0, num(7.0))));
    assert!(TileStore::from_plan(plan_promotions(&[])).for_each().is_empty());
}

#[test]
fn promotion_stats_count_only_present_contested_cells() {
    let (r, c, d) = (id(1, 1), id(1, 2), id(1, 3));
    let ops = [PlanOp::InsertRow(r), PlanOp::InsertCol(c), PlanOp::InsertCol(d), write(r, c, 2), write(r, c, 3), write(r, d, 2)];
    let mut store = TileStore::from_plan(plan_promotions(&ops));
    let stats = store.promotion_stats();
    assert_eq!((stats.tiles, stats.promoted_tiles, stats.cells, stats.promoted_cells), (0, 0, 0, 0));
    store.write(r, d, 1, id(2, 1), num(1.0));
    let stats = store.promotion_stats();
    assert_eq!((stats.tiles, stats.promoted_tiles, stats.cells, stats.promoted_cells), (1, 1, 1, 0));
    store.write(r, c, 2, id(2, 2), num(2.0));
    store.write(r, c, 3, id(3, 1), num(3.0));
    let stats = store.promotion_stats();
    assert_eq!((stats.tiles, stats.promoted_tiles, stats.cells, stats.promoted_cells), (1, 1, 2, 1));
}

#[test]
fn a_contested_cell_keeps_the_newest_stamp_in_every_arrival_order() {
    let (r, c) = (id(1, 1), id(1, 2));
    let ops = [PlanOp::InsertRow(r), PlanOp::InsertCol(c), write(r, c, 2), write(r, c, 3), write(r, c, 4)];
    let writes = [(4u64, id(2, 1), 1.0), (9, id(3, 1), 2.0), (9, id(4, 1), 3.0), (7, id(2, 2), 4.0)];
    let orders: [[usize; 4]; 3] = [[0, 1, 2, 3], [3, 2, 1, 0], [2, 3, 0, 1]];
    for order in orders {
        let mut store = TileStore::from_plan(plan_promotions(&ops));
        for i in order {
            let (lamport, op, x) = writes[i];
            store.write(r, c, lamport, op, num(x));
        }
        assert_eq!(store.get(&r, &c), Some(num(3.0)));
    }
}
