//! Slot interning, tile addressing, presence bitmaps and contested cells.

use ehkatra::image::{Reader, Writer};
use ehkatra::tile::{
    cell_index, plan_promotions, Kind, PlanOp, Presence, PromotionStats, SlotMap, TileKey, TileWriters, TILE_CELLS,
};
use ehkatra::types::{ActorId, ColId, OpId, RowId};

fn id(actor: u128, counter: u64) -> OpId {
    OpId { actor: ActorId(actor), counter }
}

#[test]
fn slots_are_dense_stable_and_idempotent() {
    let mut slots = SlotMap::new();
    assert_eq!(slots.intern(id(1, 1)), 0);
    assert_eq!(slots.intern(id(2, 1)), 1);
    assert_eq!(slots.intern(id(1, 1)), 0);
    assert_eq!(slots.intern(id(1, 2)), 2);
    assert_eq!(slots.slot_of(&id(2, 1)), Some(1));
    assert_eq!(slots.slot_of(&id(9, 9)), None);
    assert_eq!(slots.id_of(2), id(1, 2));
    assert_eq!(slots.ids(), &[id(1, 1), id(2, 1), id(1, 2)]);
}

#[test]
fn tiles_are_256_rows_by_64_columns() {
    assert_eq!(TileKey::of(0, 0), TileKey { row_band: 0, col_band: 0 });
    assert_eq!(TileKey::of(255, 63), TileKey { row_band: 0, col_band: 0 });
    assert_eq!(TileKey::of(256, 64), TileKey { row_band: 1, col_band: 1 });
    assert_eq!(cell_index(0, 0), 0);
    assert_eq!(cell_index(1, 0), 64);
    assert_eq!(cell_index(255, 63), (TILE_CELLS - 1) as u16);
    assert_eq!(cell_index(257, 65), 65);
}

#[test]
fn presence_counts_ranks_and_remembers_its_highest_cell() {
    let mut p = Presence::new();
    assert!(!p.contains(5));
    assert!(p.set(5));
    assert!(!p.set(5));
    assert!(p.set(700));
    assert!(p.set(64));
    assert!(p.contains(64));
    assert!(!p.contains(63));
    assert_eq!(p.rank(5), 0);
    assert_eq!(p.rank(6), 1);
    assert_eq!(p.rank(64), 1);
    assert_eq!(p.rank(700), 2);
    assert_eq!(p.rank(16_383), 3);
    assert_eq!(p.indices(), vec![5, 64, 700]);
}

#[test]
fn presence_round_trips_through_an_image_and_rederives_its_count() {
    let mut p = Presence::new();
    for idx in [0u16, 63, 64, 1000, 16_383] {
        p.set(idx);
    }
    let mut w = Writer { out: Vec::new(), tiles: Vec::new() };
    p.write_image(&mut w);
    assert_eq!(w.out.len(), 2048);
    let mut r = Reader::new(&w.out);
    let back = Presence::read_image(&mut r).expect("a whole bitmap");
    assert_eq!(back.indices(), vec![0, 63, 64, 1000, 16_383]);
    assert_eq!(back.rank(16_383), 4);
    let mut short = Reader::new(&w.out[..2000]);
    assert!(Presence::read_image(&mut short).is_err());
}

#[test]
fn a_cell_is_contested_only_when_two_actors_wrote_it() {
    let mut writers = TileWriters::new();
    writers.record(ActorId(1), 10);
    writers.record(ActorId(2), 11);
    writers.record(ActorId(1), 12);
    assert!(writers.contested_cells().is_none(), "two actors, different cells");
    writers.record(ActorId(2), 12);
    writers.record(ActorId(3), 12);
    writers.record(ActorId(3), 4000);
    let bits = writers.contested_cells().expect("cell 12 is contested");
    let contested: Vec<usize> = (0..TILE_CELLS)
        .filter(|i| bits[i / 64] & (1u64 << (i % 64)) != 0)
        .collect();
    assert_eq!(contested, vec![12]);
}

#[test]
fn kinds_have_one_tag_each() {
    for kind in [Kind::Numbers, Kind::Decimals, Kind::Tagged] {
        assert_eq!(Kind::of_tag(kind.tag()), Ok(kind));
    }
    assert_eq!(Kind::Tagged.tag(), 2);
    assert!(Kind::of_tag(3).is_err());
}

#[test]
fn promotion_stats_start_at_zero() {
    let s = PromotionStats::default();
    assert_eq!(s, PromotionStats { tiles: 0, promoted_tiles: 0, cells: 0, promoted_cells: 0 });
}

#[test]
fn the_pre_pass_promotes_exactly_the_cells_two_actors_wrote() {
    let (r1, r2, c1) = (id(9, 1), id(9, 2), id(9, 3));
    let write = |row: OpId, col: OpId, actor: u128| PlanOp::WriteCell {
        row: RowId(row),
        col: ColId(col),
        actor: ActorId(actor),
    };
    let ops = vec![
        PlanOp::InsertRow(r1),
        PlanOp::InsertRow(r2),
        PlanOp::InsertCol(c1),
        write(r1, c1, 1),
        write(r1, c1, 2),
        write(r2, c1, 1),
        write(r2, c1, 1),
        PlanOp::SetFormula { row: RowId(r2), col: ColId(c1) },
        PlanOp::Other,
    ];
    let plan = plan_promotions(&ops);
    assert_eq!(plan.rows.ids(), &[r1, r2]);
    assert_eq!(plan.cols.ids(), &[c1]);
    assert_eq!(plan.contested.len(), 1);
    let bits = plan.contested.get(&(0, 0)).expect("tile 0,0 has a contested cell");
    assert_eq!(bits[0], 1, "only cell (row slot 0, col slot 0) is contested");
    assert_eq!(bits[1], 0, "row slot 1 was written by one actor twice");
    assert!(plan.formula_cells.contains(&((9, 2), (9, 3))));
    assert_eq!(plan.formula_cells.len(), 1);
}

#[test]
fn a_write_interns_identities_the_log_never_inserted() {
    let ops = vec![PlanOp::WriteCell { row: RowId(id(5, 5)), col: ColId(id(6, 6)), actor: ActorId(1) }];
    let plan = plan_promotions(&ops);
    assert_eq!(plan.rows.ids(), &[id(5, 5)]);
    assert_eq!(plan.cols.ids(), &[id(6, 6)]);
    assert!(plan.contested.is_empty());
}
