//! Formulas keyed by cell identity: a stamped last-writer-wins register per
//! cell.
//!
//! A cell's winning content is whichever of a value write or a formula
//! write carries the greater `(lamport, op id)`. Every mutation keeps the
//! greater stamp with its payload, so applying the same writes in any order
//! gives the same registry. Only cells some formula names hold an entry; a
//! value write elsewhere is not recorded, since nothing can contend there.

use vstd::prelude::*;
use std::collections::{BTreeMap, BTreeSet};
use std::string::String;
use std::vec::Vec;
use crate::stamps::{stamp_key, stamp_less, stamp_precedes};
use vstd::std_specs::cmp::OrdSpec;
use crate::types::{ColId, OpId, RowId};

verus! {

broadcast use vstd::std_specs::btree::group_btree_axioms, vstd::laws_cmp::group_laws_cmp;

/// The identity of a cell as integers: row key, then column key.
pub type CellKey = ((u128, u64), (u128, u64));

/// A cell's identity key.
pub open spec fn cell_key_of(row: RowId, col: ColId) -> CellKey {
    ((row.0.actor.0, row.0.counter), (col.0.actor.0, col.0.counter))
}

/// One range a formula names, by identities, with its anchoring flags.
#[derive(Clone, Copy, PartialEq, Eq, Structural, Debug)]
pub struct RangeBinding {
    pub row_start: OpId,
    pub row_end: OpId,
    pub col_start: OpId,
    pub col_end: OpId,
    pub anchors: u8,
}

/// A stored formula: its source text and the ranges it binds.
#[derive(Clone, PartialEq, Debug)]
pub struct FormulaCell {
    pub source: String,
    pub bindings: Vec<RangeBinding>,
}

/// The seeded "nothing written yet" stamp, below every real op's.
pub open spec fn floor() -> (u64, u128, u64) {
    (0, 0, 0)
}

/// One cell's register: the winning stamp, and the formula when a formula
/// write won.
pub struct Entry {
    pub stamp: (u64, u128, u64),
    pub formula: Option<FormulaCell>,
}

/// What one write does to the registry: at a tracked cell, the write wins
/// when its stamp is greater; at an untracked cell, a formula write starts
/// an entry and a value write is not recorded.
pub open spec fn apply_write(
    m: Map<CellKey, ((u64, u128, u64), Option<FormulaCell>)>,
    k: CellKey,
    s: (u64, u128, u64),
    f: Option<FormulaCell>,
) -> Map<CellKey, ((u64, u128, u64), Option<FormulaCell>)> {
    if m.contains_key(k) {
        if stamp_less(m[k].0, s) {
            m.insert(k, (s, f))
        } else {
            m
        }
    } else if f is Some {
        m.insert(k, (s, f))
    } else {
        m
    }
}

/// Whether `(row, col, f)` is a cell whose winning content is formula `f`.
pub open spec fn winner_at(
    m: Map<CellKey, ((u64, u128, u64), Option<FormulaCell>)>,
    e: (RowId, ColId, &FormulaCell),
) -> bool {
    m.contains_key(cell_key_of(e.0, e.1)) && m[cell_key_of(e.0, e.1)].1 == Some(*e.2)
}

/// Formulas keyed by cell identity.
pub struct FormulaRegistry {
    entries: BTreeMap<CellKey, Entry>,
}

impl FormulaRegistry {
    /// Each tracked cell's stamp and winning formula.
    pub closed spec fn view(&self) -> Map<CellKey, ((u64, u128, u64), Option<FormulaCell>)> {
        Map::new(
            |k: CellKey| self.entries@.contains_key(k),
            |k: CellKey| (self.entries@[k].stamp, self.entries@[k].formula),
        )
    }

    /// Seeds an entry, at the floor stamp, for every cell a formula names,
    /// so that value writes there can leave a stamp before the formula
    /// arrives.
    pub fn seeded(cells: &BTreeSet<CellKey>) -> (r: FormulaRegistry)
        ensures
            r.view().dom() == cells@,
            forall|k: CellKey| #[trigger] cells@.contains(k) ==> r.view()[k] == (floor(), None::<FormulaCell>),
    {
        let mut entries: BTreeMap<CellKey, Entry> = BTreeMap::new();
        let ghost mut covered: Set<CellKey> = Set::empty();
        for k in it: cells.iter()
            invariant
                it.seq().unref().to_set() == cells@,
                covered == it.seq().take(it.index() as int).unref().to_set(),
                it.index() == it.seq().len() ==> covered == cells@,
                entries@.dom() == covered,
                forall|x: CellKey| #[trigger] entries@.contains_key(x) ==> entries@[x].stamp == floor() && entries@[x].formula is None,
        {
            let ghost i = it.index() as int;
            entries.insert(*k, Entry { stamp: (0, 0, 0), formula: None });
            proof {
                broadcast use vstd::seq_lib::group_seq_properties;
                assert(*k == *it.seq()[i]);
                assert(it.seq().take(i + 1).unref() =~= it.seq().take(i).unref().push(*k));
                covered = covered.insert(*k);
                assert(entries@.dom() =~= covered);
                assert(i + 1 == it.seq().len() ==> it.seq().take(i + 1) =~= it.seq());
            }
        }
        proof {
            if cells@.len() == 0 {
                assert(cells@ =~= Set::<CellKey>::empty());
            }
        }
        let r = FormulaRegistry { entries };
        proof {
            assert(r.view().dom() =~= cells@);
        }
        r
    }

    /// Applies a formula write; it wins only with the greatest stamp seen at
    /// the cell. A cell nobody seeded gets an entry rather than losing the
    /// formula.
    pub fn set_formula(&mut self, row: RowId, col: ColId, stamp: (u64, OpId), cell: FormulaCell)
        ensures
            final(self).view() == apply_write(old(self).view(), cell_key_of(row, col), stamp_key(stamp), Some(cell)),
    {
        let key = ((row.0.actor.0, row.0.counter), (col.0.actor.0, col.0.counter));
        let s = (stamp.0, stamp.1.actor.0, stamp.1.counter);
        let wins = match self.entries.get(&key) {
            Some(entry) => stamp_precedes(entry.stamp, s),
            None => true,
        };
        if wins {
            self.entries.insert(key, Entry { stamp: s, formula: Some(cell) });
        }
        proof {
            assert(self.view() =~= apply_write(old(self).view(), cell_key_of(row, col), stamp_key(stamp), Some(cell)));
        }
    }

    /// Applies a value write or a clear: it shadows the formula only when it
    /// is the later write. Untracked cells are left alone.
    pub fn note_value_write(&mut self, row: RowId, col: ColId, stamp: (u64, OpId))
        ensures
            final(self).view() == apply_write(old(self).view(), cell_key_of(row, col), stamp_key(stamp), None),
    {
        let key = ((row.0.actor.0, row.0.counter), (col.0.actor.0, col.0.counter));
        let s = (stamp.0, stamp.1.actor.0, stamp.1.counter);
        let wins = match self.entries.get(&key) {
            Some(entry) => stamp_precedes(entry.stamp, s),
            None => false,
        };
        if wins {
            self.entries.insert(key, Entry { stamp: s, formula: None });
        }
        proof {
            assert(self.view() =~= apply_write(old(self).view(), cell_key_of(row, col), stamp_key(stamp), None));
        }
    }

    /// The winning formula at a cell, if a formula is the winning content.
    pub fn get(&self, row: RowId, col: ColId) -> (r: Option<&FormulaCell>)
        ensures
            r is Some <==> self.view().contains_key(cell_key_of(row, col)) && self.view()[cell_key_of(
                row,
                col,
            )].1 is Some,
            r matches Some(f) ==> self.view()[cell_key_of(row, col)].1 == Some(*f),
    {
        let key = ((row.0.actor.0, row.0.counter), (col.0.actor.0, col.0.counter));
        match self.entries.get(&key) {
            Some(entry) => match &entry.formula {
                Some(f) => Some(f),
                None => None,
            },
            None => None,
        }
    }

    /// Every winning formula with its cell, in identity order.
    #[verifier::spinoff_prover]
    pub fn formulas(&self) -> (r: Vec<(RowId, ColId, &FormulaCell)>)
        ensures
            forall|t: int| 0 <= t < r@.len() ==> #[trigger] winner_at(self.view(), r@[t]),
            forall|k: CellKey|
                #[trigger] self.view().contains_key(k) && self.view()[k].1 is Some ==> exists|t: int|
                    0 <= t < r@.len() && cell_key_of(r@[t].0, r@[t].1) == k,
            forall|t1: int, t2: int|
                #![trigger r@[t1], r@[t2]]
                0 <= t1 < t2 < r@.len() ==> cell_key_of(r@[t1].0, r@[t1].1).cmp_spec(&cell_key_of(r@[t2].0, r@[t2].1)) is Less,
    {
        let mut out: Vec<(RowId, ColId, &FormulaCell)> = Vec::new();
        let ghost mut pos: Seq<int> = Seq::empty();
        let ghost mut at: Map<CellKey, int> = Map::empty();
        for kv in it: self.entries.iter()
            invariant
                it.seq().len() == self.entries@.dom().len(),
                forall|i: int|
                    0 <= i < it.seq().len() ==> self.entries@.contains_key(*#[trigger] it.seq()[i].0)
                        && self.entries@[*it.seq()[i].0] == *it.seq()[i].1,
                forall|k: CellKey| #[trigger] self.entries@.contains_key(k) ==> it.seq().contains((&k, &self.entries@[k])),
                vstd::std_specs::btree::increasing_seq(it.seq().map_values(|kv: (&CellKey, &Entry)| *kv.0)),
                pos.len() == out@.len(),
                forall|t: int|
                    0 <= t < out@.len() ==> 0 <= #[trigger] pos[t] < it.index() && cell_key_of(out@[t].0, out@[t].1) == *it.seq()[pos[t]].0
                        && self.view().contains_key(cell_key_of(out@[t].0, out@[t].1))
                        && self.view()[cell_key_of(out@[t].0, out@[t].1)].1 == Some(*out@[t].2),
                forall|p: int|
                    0 <= p < it.index() && (*#[trigger] it.seq()[p].1).formula is Some ==> at.contains_key(*it.seq()[p].0) && 0
                        <= at[*it.seq()[p].0] < out@.len() && cell_key_of(out@[at[*it.seq()[p].0]].0, out@[at[*it.seq()[p].0]].1)
                        == *it.seq()[p].0,
                forall|t1: int, t2: int|
                    #![trigger out@[t1], out@[t2]]
                    0 <= t1 < t2 < out@.len() ==> cell_key_of(out@[t1].0, out@[t1].1).cmp_spec(&cell_key_of(out@[t2].0, out@[t2].1)) is Less,
                it.index() == it.seq().len() ==> forall|k: CellKey|
                    #[trigger] self.entries@.contains_key(k) && self.entries@[k].formula is Some ==> at.contains_key(k) && 0 <= at[k]
                        < out@.len() && cell_key_of(out@[at[k]].0, out@[at[k]].1) == k,
        {
            let (k, e) = kv;
            let ghost idx = it.index();
            let ghost before = out@;
            proof {
                assert(*it.seq()[idx].0 == *k && *it.seq()[idx].1 == *e);
            }
            match &e.formula {
                Some(f) => {
                    let row = RowId(OpId { actor: crate::types::ActorId((k.0).0), counter: (k.0).1 });
                    let col = ColId(OpId { actor: crate::types::ActorId((k.1).0), counter: (k.1).1 });
                    out.push((row, col, f));
                    proof {
                        assert(cell_key_of(row, col) == *k);
                        let keys = it.seq().map_values(|kv: (&CellKey, &Entry)| *kv.0);
                        assert forall|t1: int, t2: int|
                            #![trigger out@[t1], out@[t2]]
                            0 <= t1 < t2 < out@.len() implies cell_key_of(out@[t1].0, out@[t1].1).cmp_spec(&cell_key_of(out@[t2].0, out@[t2].1)) is Less by {
                            if t2 == out@.len() - 1 {
                                assert(out@[t1] == before[t1]);
                                let p = pos[t1];
                                assert(keys[p] == *it.seq()[p].0);
                                assert(keys[idx] == *k);
                            } else {
                                assert(out@[t1] == before[t1] && out@[t2] == before[t2]);
                            }
                        }
                        pos = pos.push(idx);
                        at = at.insert(*k, out@.len() - 1);
                    }
                },
                None => {},
            }
            proof {
                lemma_all_listed(self.entries@, it.seq(), idx + 1, out@, at);
            }
        }
        proof {
            assert forall|t: int| 0 <= t < out@.len() implies #[trigger] winner_at(self.view(), out@[t]) by {
                assert(0 <= pos[t]);
            }
            assert forall|k: CellKey|
                #[trigger] self.view().contains_key(k) && self.view()[k].1 is Some implies exists|t: int|
                    0 <= t < out@.len() && cell_key_of(out@[t].0, out@[t].1) == k by {
                assert(self.entries@.contains_key(k));
                let t = at[k];
                assert(cell_key_of(out@[t].0, out@[t].1) == k);
            }
        }
        out
    }

    /// Whether no cell's winning content is a formula.
    pub fn has_no_formulas(&self) -> (r: bool)
        ensures
            r == forall|k: CellKey| #[trigger] self.view().contains_key(k) ==> self.view()[k].1 is None,
    {
        for kv in it: self.entries.iter()
            invariant
                it.seq().len() == self.entries@.dom().len(),
                forall|i: int|
                    0 <= i < it.seq().len() ==> self.entries@.contains_key(*#[trigger] it.seq()[i].0)
                        && self.entries@[*it.seq()[i].0] == *it.seq()[i].1,
                forall|k: CellKey| #[trigger] self.entries@.contains_key(k) ==> it.seq().contains((&k, &self.entries@[k])),
                forall|i: int| 0 <= i < it.index() ==> (*#[trigger] it.seq()[i].1).formula is None,
                it.index() == it.seq().len() ==> forall|k: CellKey| #[trigger] self.entries@.contains_key(k) ==> self.entries@[k].formula is None,
        {
            let (k, e) = kv;
            let ghost i = it.index() as int;
            if e.formula.is_some() {
                proof {
                    assert(*it.seq()[i].0 == *k);
                    assert(self.view().contains_key(*k));
                }
                return false;
            }
            proof {
                lemma_none_when_done(self.entries@, it.seq(), it.index() + 1);
            }
        }
        true
    }
}

proof fn lemma_all_listed(
    m: Map<CellKey, Entry>,
    s: Seq<(&CellKey, &Entry)>,
    n: int,
    out: Seq<(RowId, ColId, &FormulaCell)>,
    at: Map<CellKey, int>,
)
    requires
        forall|k: CellKey| #[trigger] m.contains_key(k) ==> s.contains((&k, &m[k])),
        forall|p: int|
            0 <= p < n && (*#[trigger] s[p].1).formula is Some ==> at.contains_key(*s[p].0) && 0 <= at[*s[p].0] < out.len()
                && cell_key_of(out[at[*s[p].0]].0, out[at[*s[p].0]].1) == *s[p].0,
    ensures
        n == s.len() ==> forall|k: CellKey|
            #[trigger] m.contains_key(k) && m[k].formula is Some ==> at.contains_key(k) && 0 <= at[k] < out.len()
                && cell_key_of(out[at[k]].0, out[at[k]].1) == k,
{
    if n == s.len() {
        assert forall|k: CellKey| #[trigger] m.contains_key(k) && m[k].formula is Some implies at.contains_key(k) && 0
            <= at[k] < out.len() && cell_key_of(out[at[k]].0, out[at[k]].1) == k by {
            let j = choose|j: int| 0 <= j < s.len() && s[j] == (&k, &m[k]);
            assert(*s[j].0 == k);
            assert((*s[j].1).formula is Some);
        }
    }
}

proof fn lemma_none_when_done(m: Map<CellKey, Entry>, s: Seq<(&CellKey, &Entry)>, n: int)
    requires
        forall|i: int| 0 <= i < n && i < s.len() ==> (*#[trigger] s[i].1).formula is None,
        forall|k: CellKey| #[trigger] m.contains_key(k) ==> s.contains((&k, &m[k])),
    ensures
        n == s.len() ==> forall|k: CellKey| #[trigger] m.contains_key(k) ==> m[k].formula is None,
{
    if n == s.len() {
        assert forall|k: CellKey| #[trigger] m.contains_key(k) implies m[k].formula is None by {
            let j = choose|j: int| 0 <= j < s.len() && s[j] == (&k, &m[k]);
            assert(s[j].1 == &m[k]);
        }
    }
}

/// Writes at different cells commute, and writes at one tracked cell
/// commute whenever they are different ops: the registry depends on the set
/// of writes, not their order.
pub proof fn lemma_writes_commute(
    m: Map<CellKey, ((u64, u128, u64), Option<FormulaCell>)>,
    k1: CellKey,
    s1: (u64, u128, u64),
    f1: Option<FormulaCell>,
    k2: CellKey,
    s2: (u64, u128, u64),
    f2: Option<FormulaCell>,
)
    requires
        k1 == k2 ==> m.contains_key(k1),
        k1 == k2 && s1 == s2 ==> f1 == f2,
    ensures
        apply_write(apply_write(m, k1, s1, f1), k2, s2, f2) == apply_write(apply_write(m, k2, s2, f2), k1, s1, f1),
{
    assert(apply_write(apply_write(m, k1, s1, f1), k2, s2, f2) =~= apply_write(apply_write(m, k2, s2, f2), k1, s1, f1));
}

/// The registry after a log of writes, in order: each a cell, a stamp, and
/// the formula written (`None` for a value).
pub open spec fn replay(
    m: Map<CellKey, ((u64, u128, u64), Option<FormulaCell>)>,
    log: Seq<(CellKey, (u64, u128, u64), Option<FormulaCell>)>,
) -> Map<CellKey, ((u64, u128, u64), Option<FormulaCell>)>
    decreases log.len(),
{
    if log.len() == 0 {
        m
    } else {
        let w = log.last();
        apply_write(replay(m, log.drop_last()), w.0, w.1, w.2)
    }
}

/// Replaying a log leaves the newest stamp the winner at every tracked cell:
/// the cell's entry is its starting entry or one of the log's writes to it,
/// and no stamp among those is newer.
pub proof fn lemma_replay_newest_wins(
    m: Map<CellKey, ((u64, u128, u64), Option<FormulaCell>)>,
    log: Seq<(CellKey, (u64, u128, u64), Option<FormulaCell>)>,
    k: CellKey,
)
    requires
        m.contains_key(k),
    ensures
        replay(m, log).contains_key(k),
        !stamp_less(replay(m, log)[k].0, m[k].0),
        forall|i: int|
            0 <= i < log.len() && log[i].0 == k ==> !stamp_less(replay(m, log)[k].0, #[trigger] log[i].1),
        replay(m, log)[k] == m[k] || exists|i: int|
            0 <= i < log.len() && log[i].0 == k && replay(m, log)[k] == (#[trigger] log[i].1, log[i].2),
    decreases log.len(),
{
    if log.len() > 0 {
        let prefix = log.drop_last();
        lemma_replay_newest_wins(m, prefix, k);
        let before = replay(m, prefix);
        let w = log.last();
        let n = log.len() - 1;
        assert(log[n] == w);
        assert forall|i: int| 0 <= i < n implies #[trigger] log[i] == prefix[i] by {}
        if w.0 == k && stamp_less(before[k].0, w.1) {
            assert(replay(m, log)[k] == (w.1, w.2));
        } else {
            assert(replay(m, log)[k] == before[k]);
            if before[k] != m[k] {
                let i = choose|i: int|
                    0 <= i < prefix.len() && prefix[i].0 == k && before[k] == (#[trigger] prefix[i].1, prefix[i].2);
                assert(log[i] == prefix[i]);
            }
        }
    }
}

/// Applying the same write twice leaves what applying it once left.
pub proof fn lemma_write_idempotent(
    m: Map<CellKey, ((u64, u128, u64), Option<FormulaCell>)>,
    k: CellKey,
    s: (u64, u128, u64),
    f: Option<FormulaCell>,
)
    ensures
        apply_write(apply_write(m, k, s, f), k, s, f) == apply_write(m, k, s, f),
{
    assert(apply_write(apply_write(m, k, s, f), k, s, f) =~= apply_write(m, k, s, f));
}

} // verus!
