//! The formula register: stamps decide, arrival order does not.

use std::collections::BTreeSet;

use ehkatra::formula::{FormulaCell, FormulaRegistry};
use ehkatra::types::{ActorId, ColId, OpId, RowId};

fn cell(n: u64) -> (RowId, ColId) {
    let id = |c| OpId { actor: ActorId(0), counter: c };
    (RowId(id(n)), ColId(id(n + 100)))
}

fn stamp(lamport: u64, actor: u128, counter: u64) -> (u64, OpId) {
    (lamport, OpId { actor: ActorId(actor), counter })
}

fn formula(src: &str) -> FormulaCell {
    FormulaCell { source: String::from(src), bindings: Vec::new() }
}

fn seeded(cells: &[(RowId, ColId)]) -> FormulaRegistry {
    let set: BTreeSet<((u128, u64), (u128, u64))> = cells
        .iter()
        .map(|(r, c)| ((r.0.actor.0, r.0.counter), (c.0.actor.0, c.0.counter)))
        .collect();
    FormulaRegistry::seeded(&set)
}

#[test]
fn an_earlier_value_write_does_not_shadow_a_later_formula() {
    let (r, c) = cell(1);
    let mut reg = seeded(&[(r, c)]);
    reg.set_formula(r, c, stamp(9, 1, 1), formula("=A1+1"));
    reg.note_value_write(r, c, stamp(4, 2, 1));
    assert_eq!(reg.get(r, c).map(|f| f.source.as_str()), Some("=A1+1"));
}

#[test]
fn a_later_value_write_shadows_the_formula() {
    let (r, c) = cell(1);
    let mut reg = seeded(&[(r, c)]);
    reg.set_formula(r, c, stamp(4, 1, 1), formula("=A1+1"));
    reg.note_value_write(r, c, stamp(9, 2, 1));
    assert_eq!(reg.get(r, c), None);
    assert!(reg.has_no_formulas());
}

#[test]
fn ties_break_on_op_id_so_two_replicas_cannot_disagree() {
    let (r, c) = cell(1);
    let mut a = seeded(&[(r, c)]);
    a.set_formula(r, c, stamp(7, 1, 1), formula("=SUM(A1:A2)"));
    a.note_value_write(r, c, stamp(7, 2, 1));
    let mut b = seeded(&[(r, c)]);
    b.note_value_write(r, c, stamp(7, 2, 1));
    b.set_formula(r, c, stamp(7, 1, 1), formula("=SUM(A1:A2)"));
    assert_eq!(a.get(r, c), None, "actor 2 wins the lamport tie");
    assert_eq!(b.get(r, c), None);
}

#[derive(Clone)]
enum W {
    Value((u64, OpId)),
    Formula((u64, OpId), &'static str),
}

fn permute<F: FnMut(&[usize])>(items: &mut [usize], k: usize, visit: &mut F) {
    if k == items.len() {
        visit(items);
        return;
    }
    for i in k..items.len() {
        items.swap(k, i);
        permute(items, k + 1, visit);
        items.swap(k, i);
    }
}

#[test]
fn registry_is_order_independent() {
    let (r, c) = cell(1);
    let writes = [
        W::Formula(stamp(2, 1, 1), "=A1"),
        W::Value(stamp(5, 2, 1)),
        W::Formula(stamp(5, 1, 2), "=B1"),
        W::Value(stamp(3, 3, 1)),
        W::Formula(stamp(1, 2, 2), "=C1"),
    ];
    let run = |order: &[usize]| {
        let mut reg = seeded(&[(r, c)]);
        for &i in order {
            match &writes[i] {
                W::Value(s) => reg.note_value_write(r, c, *s),
                W::Formula(s, src) => reg.set_formula(r, c, *s, formula(src)),
            }
        }
        reg.get(r, c).map(|f| f.source.clone())
    };
    let expected = run(&[0, 1, 2, 3, 4]);
    assert_eq!(expected, None);
    let mut order = [0usize, 1, 2, 3, 4];
    let mut permutations = 0usize;
    permute(&mut order, 0, &mut |o| {
        permutations += 1;
        assert_eq!(run(o), expected, "arrival order {o:?} disagreed");
    });
    assert_eq!(permutations, 120, "all 5! orders were exercised");
}

#[test]
fn reapplying_the_same_write_changes_nothing() {
    let (r, c) = cell(1);
    let mut reg = seeded(&[(r, c)]);
    reg.set_formula(r, c, stamp(3, 1, 1), formula("=A1"));
    let before = reg.get(r, c).cloned();
    for _ in 0..3 {
        reg.set_formula(r, c, stamp(3, 1, 1), formula("=A1"));
        reg.note_value_write(r, c, stamp(2, 1, 2));
    }
    assert_eq!(reg.get(r, c).cloned(), before);
}

#[test]
fn unseeded_cells_hold_no_entry() {
    let (r, c) = cell(1);
    let mut reg = seeded(&[]);
    reg.note_value_write(r, c, stamp(4, 1, 1));
    assert_eq!(reg.get(r, c), None);
    assert_eq!(reg.formulas().len(), 0);
    assert!(reg.has_no_formulas());
}

#[test]
fn winning_formulas_are_listed_in_identity_order() {
    let (r1, c1) = cell(5);
    let (r2, c2) = cell(2);
    let mut reg = seeded(&[(r1, c1), (r2, c2)]);
    reg.set_formula(r1, c1, stamp(1, 1, 1), formula("=X"));
    reg.set_formula(r2, c2, stamp(1, 1, 2), formula("=Y"));
    let listed: Vec<(RowId, &str)> = reg.formulas().into_iter().map(|(r, _, f)| (r, f.source.as_str())).collect();
    assert_eq!(listed, vec![(r2, "=Y"), (r1, "=X")]);
    let (r3, c3) = cell(9);
    reg.set_formula(r3, c3, stamp(1, 1, 3), formula("=Z"));
    assert_eq!(reg.get(r3, c3).map(|f| f.source.as_str()), Some("=Z"), "an unseeded formula is kept");
}

#[test]
fn replaying_a_log_in_any_order_leaves_the_newest_stamp() {
    let (r, c) = cell(3);
    let writes = [
        (stamp(2, 1, 1), "=1"),
        (stamp(7, 2, 1), "=7"),
        (stamp(7, 1, 5), "=7a"),
        (stamp(5, 3, 1), "=5"),
    ];
    let orders: [[usize; 4]; 3] = [[0, 1, 2, 3], [3, 2, 1, 0], [2, 0, 3, 1]];
    for order in orders {
        let mut reg = seeded(&[(r, c)]);
        for i in order {
            let (s, src) = writes[i];
            reg.set_formula(r, c, s, formula(src));
        }
        assert_eq!(reg.get(r, c).map(|f| f.source.as_str()), Some("=7"));
    }
}
