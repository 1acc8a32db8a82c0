//! Per-cell winner stamps, and the variable-length integer codes the state
//! image stores them with.
//!
//! A stamp is the `(lamport, op id)` of the write that won a cell. Folding
//! writes into stamps keeps the greatest stamp per cell rather than the last
//! one seen, so the result does not depend on the order writes arrive in.

use vstd::prelude::*;
use std::collections::BTreeMap;
use crate::types::{ActorId, OpId, RowId, ColId};
use vstd::std_specs::cmp::OrdSpec;
use std::vec::Vec;

verus! {

broadcast use vstd::std_specs::btree::group_btree_axioms, vstd::laws_cmp::group_laws_cmp;

/// The winning `(lamport, op id)` for one cell.
pub type Stamp = (u64, OpId);

/// A stamp as integers, ordered lexicographically: lamport, actor, counter.
pub open spec fn stamp_key(s: Stamp) -> (u64, u128, u64) {
    (s.0, s.1.actor.0, s.1.counter)
}

/// The canonical order on stamps: by lamport, then actor, then counter.
pub open spec fn stamp_less(a: (u64, u128, u64), b: (u64, u128, u64)) -> bool {
    a.0 < b.0 || (a.0 == b.0 && (a.1 < b.1 || (a.1 == b.1 && a.2 < b.2)))
}

/// The greater of two stamps in the canonical order.
pub open spec fn stamp_max(a: (u64, u128, u64), b: (u64, u128, u64)) -> (u64, u128, u64) {
    if stamp_less(a, b) {
        b
    } else {
        a
    }
}

/// A cell's identity as integers: row op id, then column op id.
pub open spec fn cell_key(row: RowId, col: ColId) -> ((u128, u64), (u128, u64)) {
    ((row.0.actor.0, row.0.counter), (col.0.actor.0, col.0.counter))
}

/// Whether `a` comes before `b` in the canonical order.
pub(crate) fn stamp_precedes(a: (u64, u128, u64), b: (u64, u128, u64)) -> (r: bool)
    ensures
        r == stamp_less(a, b),
{
    a.0 < b.0 || (a.0 == b.0 && (a.1 < b.1 || (a.1 == b.1 && a.2 < b.2)))
}

/// `list` names every stamped cell of `m` once, with its stamp, in
/// increasing cell-identity order.
pub open spec fn stamps_listed(
    m: Map<((u128, u64), (u128, u64)), (u64, u128, u64)>,
    list: Seq<((RowId, ColId), Stamp)>,
) -> bool {
    &&& list.len() == m.dom().len()
    &&& forall|i: int|
        0 <= i < list.len() ==> m.contains_key(cell_key(#[trigger] list[i].0.0, list[i].0.1))
            && m[cell_key(list[i].0.0, list[i].0.1)] == stamp_key(list[i].1)
    &&& forall|k: ((u128, u64), (u128, u64))|
        #[trigger] m.contains_key(k) ==> exists|i: int| 0 <= i < list.len() && cell_key(list[i].0.0, list[i].0.1) == k
    &&& forall|i: int, j: int|
        #![trigger list[i], list[j]]
        0 <= i < j < list.len() ==> cell_key(list[i].0.0, list[i].0.1).cmp_spec(&cell_key(list[j].0.0, list[j].0.1)) is Less
}

proof fn lemma_stamps_listed_when_done(
    m: Map<((u128, u64), (u128, u64)), (u64, u128, u64)>,
    s: Seq<(&((u128, u64), (u128, u64)), &(u64, u128, u64))>,
    out: Seq<((RowId, ColId), Stamp)>,
    n: int,
)
    requires
        out.len() == n,
        0 <= n <= s.len(),
        forall|i: int|
            0 <= i < n ==> cell_key(#[trigger] out[i].0.0, out[i].0.1) == *s[i].0 && stamp_key(out[i].1) == *s[i].1,
        s.len() == m.dom().len(),
        forall|i: int| 0 <= i < s.len() ==> m.contains_key(*#[trigger] s[i].0) && m[*s[i].0] == *s[i].1,
        forall|k: ((u128, u64), (u128, u64))| #[trigger] m.contains_key(k) ==> s.contains((&k, &m[k])),
        vstd::std_specs::btree::increasing_seq(s.map_values(|kv: (&((u128, u64), (u128, u64)), &(u64, u128, u64))| *kv.0)),
    ensures
        n == s.len() ==> stamps_listed(m, out),
{
    if n == s.len() {
        let keys = s.map_values(|kv: (&((u128, u64), (u128, u64)), &(u64, u128, u64))| *kv.0);
        vstd::std_specs::btree::axiom_increasing_seq_meaning(keys);
        assert forall|i: int| 0 <= i < out.len() implies m.contains_key(cell_key(#[trigger] out[i].0.0, out[i].0.1))
            && m[cell_key(out[i].0.0, out[i].0.1)] == stamp_key(out[i].1) by {
            assert(cell_key(out[i].0.0, out[i].0.1) == *s[i].0);
        }
        assert forall|k: ((u128, u64), (u128, u64))| #[trigger] m.contains_key(k) implies exists|i: int|
            0 <= i < out.len() && cell_key(out[i].0.0, out[i].0.1) == k by {
            assert(s.contains((&k, &m[k])));
            let i = choose|i: int| 0 <= i < s.len() && s[i] == (&k, &m[k]);
            assert(cell_key(out[i].0.0, out[i].0.1) == *s[i].0);
        }
        assert forall|i: int, j: int|
            #![trigger out[i], out[j]]
            0 <= i < j < out.len() implies cell_key(out[i].0.0, out[i].0.1).cmp_spec(&cell_key(out[j].0.0, out[j].0.1)) is Less by {
            assert(cell_key(out[i].0.0, out[i].0.1) == *s[i].0);
            assert(cell_key(out[j].0.0, out[j].0.1) == *s[j].0);
            assert(keys[i] == *s[i].0 && keys[j] == *s[j].0);
        }
    }
}

/// Winner stamps for the cells a log writes, keyed by cell identity.
#[derive(Clone, Debug, PartialEq, Eq)]
pub struct WinnerStamps {
    by_cell: BTreeMap<((u128, u64), (u128, u64)), (u64, u128, u64)>,
    /// The greatest stamp of any write folded in, cell or not.
    greatest: Option<(u64, u128, u64)>,
}

impl WinnerStamps {
    pub closed spec fn cells(&self) -> Map<((u128, u64), (u128, u64)), (u64, u128, u64)> {
        self.by_cell@
    }

    pub closed spec fn top(&self) -> Option<(u64, u128, u64)> {
        self.greatest
    }

    /// No stamps, no greatest key.
    pub fn new() -> (r: WinnerStamps)
        ensures
            r.cells() == Map::<((u128, u64), (u128, u64)), (u64, u128, u64)>::empty(),
            r.top() is None,
    {
        WinnerStamps { by_cell: BTreeMap::new(), greatest: None }
    }

    /// Raises the greatest key to `(lamport, id)` if that is greater.
    fn observe(&mut self, lamport: u64, id: OpId)
        ensures
            final(self).cells() == old(self).cells(),
            final(self).top() == Some(
                match old(self).top() {
                    Some(g) => stamp_max(g, stamp_key((lamport, id))),
                    None => stamp_key((lamport, id)),
                },
            ),
    {
        let stamp = (lamport, id.actor.0, id.counter);
        match self.greatest {
            Some(g) => {
                if stamp_precedes(g, stamp) {
                    self.greatest = Some(stamp);
                }
            },
            None => {
                self.greatest = Some(stamp);
            },
        }
    }

    /// Folds one write into the stamps: the write's stamp becomes its cell's
    /// if it is greater than the cell's current one, and the greatest key
    /// moves up with it.
    pub fn record(&mut self, row: RowId, col: ColId, lamport: u64, id: OpId)
        ensures
            final(self).cells() == old(self).cells().insert(
                cell_key(row, col),
                if old(self).cells().contains_key(cell_key(row, col)) {
                    stamp_max(old(self).cells()[cell_key(row, col)], stamp_key((lamport, id)))
                } else {
                    stamp_key((lamport, id))
                },
            ),
            final(self).top() == Some(
                match old(self).top() {
                    Some(g) => stamp_max(g, stamp_key((lamport, id))),
                    None => stamp_key((lamport, id)),
                },
            ),
    {
        self.observe(lamport, id);
        let stamp = (lamport, id.actor.0, id.counter);
        let key = ((row.0.actor.0, row.0.counter), (col.0.actor.0, col.0.counter));
        let winner = match self.by_cell.get(&key) {
            Some(w) => {
                if stamp_precedes(*w, stamp) {
                    stamp
                } else {
                    *w
                }
            },
            None => stamp,
        };
        self.by_cell.insert(key, winner);
    }

    /// The stamp of the cell's winning write, if any write reached the cell.
    pub fn get(&self, row: RowId, col: ColId) -> (r: Option<Stamp>)
        ensures
            match r {
                Some(s) => self.cells().contains_key(cell_key(row, col)) && stamp_key(s)
                    == self.cells()[cell_key(row, col)],
                None => !self.cells().contains_key(cell_key(row, col)),
            },
    {
        let key = ((row.0.actor.0, row.0.counter), (col.0.actor.0, col.0.counter));
        match self.by_cell.get(&key) {
            Some(w) => Some((w.0, OpId { actor: ActorId(w.1), counter: w.2 })),
            None => None,
        }
    }

    /// Every cell with its winning stamp, in cell-identity order.
    pub fn entries(&self) -> (r: Vec<((RowId, ColId), Stamp)>)
        ensures
            stamps_listed(self.cells(), r@),
    {
        let mut out: Vec<((RowId, ColId), Stamp)> = Vec::new();
        for kv in it: self.by_cell.iter()
            invariant
                out@.len() == it.index(),
                forall|i: int|
                    0 <= i < it.index() ==> cell_key(#[trigger] out@[i].0.0, out@[i].0.1) == *it.seq()[i].0
                        && stamp_key(out@[i].1) == *it.seq()[i].1,
                it.seq().len() == self.by_cell@.dom().len(),
                forall|i: int|
                    0 <= i < it.seq().len() ==> self.by_cell@.contains_key(*#[trigger] it.seq()[i].0)
                        && self.by_cell@[*it.seq()[i].0] == *it.seq()[i].1,
                forall|k: ((u128, u64), (u128, u64))| #[trigger] self.by_cell@.contains_key(k) ==> it.seq().contains((&k, &self.by_cell@[k])),
                vstd::std_specs::btree::increasing_seq(it.seq().map_values(|kv: (&((u128, u64), (u128, u64)), &(u64, u128, u64))| *kv.0)),
                it.index() == it.seq().len() ==> stamps_listed(self.by_cell@, out@),
        {
            let (k, v) = kv;
            let row = RowId(OpId { actor: ActorId((k.0).0), counter: (k.0).1 });
            let col = ColId(OpId { actor: ActorId((k.1).0), counter: (k.1).1 });
            out.push(((row, col), (v.0, OpId { actor: ActorId(v.1), counter: v.2 })));
            proof {
                lemma_stamps_listed_when_done(self.by_cell@, it.seq(), out@, it.index() + 1);
            }
        }
        out
    }

    /// The greatest key covered; `None` when nothing was folded in.
    pub fn greatest(&self) -> (r: Option<Stamp>)
        ensures
            match r {
                Some(s) => self.top() == Some(stamp_key(s)),
                None => self.top() is None,
            },
    {
        match self.greatest {
            Some(g) => Some((g.0, OpId { actor: ActorId(g.1), counter: g.2 })),
            None => None,
        }
    }

    /// How many cells carry a stamp.
    pub fn len(&self) -> (r: usize)
        ensures
            r == self.cells().dom().len(),
    {
        self.by_cell.len()
    }

    /// Whether no cell carries a stamp.
    pub fn is_empty(&self) -> (r: bool)
        ensures
            r == (self.cells().dom().len() == 0),
    {
        self.by_cell.len() == 0
    }

    /// Sets a cell's stamp outright, as an image being read back does.
    pub fn insert(&mut self, row: RowId, col: ColId, stamp: Stamp)
        ensures
            final(self).cells() == old(self).cells().insert(cell_key(row, col), stamp_key(stamp)),
            final(self).top() == old(self).top(),
    {
        let key = ((row.0.actor.0, row.0.counter), (col.0.actor.0, col.0.counter));
        self.by_cell.insert(key, (stamp.0, stamp.1.actor.0, stamp.1.counter));
    }

    /// Sets the greatest key outright, as an image being read back does.
    pub fn set_greatest(&mut self, greatest: Option<Stamp>)
        ensures
            final(self).cells() == old(self).cells(),
            final(self).top() == match greatest {
                Some(s) => Some(stamp_key(s)),
                None => None::<(u64, u128, u64)>,
            },
    {
        self.greatest = match greatest {
            Some(s) => Some((s.0, s.1.actor.0, s.1.counter)),
            None => None,
        };
    }
}

/// Folding one write into a cell's stamp: the greater of the two.
pub open spec fn fold_write(
    cells: Map<((u128, u64), (u128, u64)), (u64, u128, u64)>,
    key: ((u128, u64), (u128, u64)),
    stamp: (u64, u128, u64),
) -> Map<((u128, u64), (u128, u64)), (u64, u128, u64)> {
    cells.insert(
        key,
        if cells.contains_key(key) {
            stamp_max(cells[key], stamp)
        } else {
            stamp
        },
    )
}

/// Stamps do not depend on arrival order: folding two writes in either order
/// gives the same stamps.
pub proof fn lemma_fold_order_independent(
    cells: Map<((u128, u64), (u128, u64)), (u64, u128, u64)>,
    k1: ((u128, u64), (u128, u64)),
    s1: (u64, u128, u64),
    k2: ((u128, u64), (u128, u64)),
    s2: (u64, u128, u64),
)
    ensures
        fold_write(fold_write(cells, k1, s1), k2, s2) == fold_write(fold_write(cells, k2, s2), k1, s1),
{
    assert(fold_write(fold_write(cells, k1, s1), k2, s2) =~= fold_write(
        fold_write(cells, k2, s2),
        k1,
        s1,
    ));
}

/// Folding the same write twice is the same as folding it once.
pub proof fn lemma_fold_idempotent(
    cells: Map<((u128, u64), (u128, u64)), (u64, u128, u64)>,
    k: ((u128, u64), (u128, u64)),
    s: (u64, u128, u64),
)
    ensures
        fold_write(fold_write(cells, k, s), k, s) == fold_write(cells, k, s),
{
    assert(fold_write(fold_write(cells, k, s), k, s) =~= fold_write(cells, k, s));
}


/// Why a tail could not be applied to an adopted image.
#[derive(Clone, Copy, PartialEq, Eq, Structural, Debug)]
pub enum TailError {
    /// The op is at or before the image's greatest key, so the image may
    /// already hold it or a newer write to the same cell: refused rather than
    /// misplaced.
    NotAfterImage { op: OpId, image_greatest: OpId },
}

/// Whether tail op `i` is at or before key `g`.
pub open spec fn not_after(tail: Seq<(u64, OpId)>, i: int, g: (u64, u128, u64)) -> bool {
    !stamp_less(g, stamp_key(tail[i]))
}

/// The first tail op at or before key `g`.
pub open spec fn first_not_after(tail: Seq<(u64, OpId)>, g: (u64, u128, u64)) -> Option<int> {
    if exists|i: int| 0 <= i < tail.len() && not_after(tail, i, g) {
        Some(
            choose|i: int|
                0 <= i < tail.len() && not_after(tail, i, g) && forall|j: int| 0 <= j < i ==> !not_after(tail, j, g),
        )
    } else {
        None
    }
}

/// Refuses a tail whose ops are not all after the image's greatest key,
/// naming the first one that is not; a tail onto an empty image is always
/// accepted.
pub fn check_tail(stamps: &WinnerStamps, tail: &[(u64, OpId)]) -> (r: Result<(), TailError>)
    ensures
        match stamps.top() {
            None => r is Ok,
            Some(g) => match first_not_after(tail@, g) {
                None => r is Ok,
                Some(i) => r == Err::<(), TailError>(
                    TailError::NotAfterImage {
                        op: tail@[i].1,
                        image_greatest: OpId { actor: ActorId(g.1), counter: g.2 },
                    },
                ),
            },
        },
{
    let g = match stamps.greatest() {
        Some(s) => s,
        None => return Ok(()),
    };
    let key = (g.0, g.1.actor.0, g.1.counter);
    let mut i: usize = 0;
    while i < tail.len()
        invariant
            i <= tail@.len(),
            stamps.top() == Some(key),
            g.1 == (OpId { actor: ActorId(key.1), counter: key.2 }),
            forall|j: int| 0 <= j < i ==> !not_after(tail@, j, key),
        decreases tail@.len() - i,
    {
        let (lamport, id) = tail[i];
        if !stamp_precedes(key, (lamport, id.actor.0, id.counter)) {
            proof {
                assert(not_after(tail@, i as int, key));
                let f = choose|f: int|
                    0 <= f < tail@.len() && not_after(tail@, f, key) && forall|j: int| 0 <= j < f ==> !not_after(tail@, j, key);
                if f < i {
                    assert(!not_after(tail@, f, key));
                } else if f > i {
                    assert(!not_after(tail@, i as int, key));
                }
            }
            return Err(TailError::NotAfterImage { op: id, image_greatest: g.1 });
        }
        i = i + 1;
    }
    Ok(())
}

// ------------------------------------------------------------------ varint

/// The unsigned LEB128 code of `v`: seven bits per byte, least significant
/// group first, the top bit set on every byte but the last.
pub open spec fn varint(v: nat) -> Seq<u8>
    decreases v,
{
    if v < 128 {
        seq![v as u8]
    } else {
        seq![(v % 128 + 128) as u8] + varint(v / 128)
    }
}

/// What a reader makes of the front of `s` when it accepts at most `n`
/// bytes: the value and the number of bytes the code took, or `None` when no
/// byte without the continuation bit comes within `n` bytes.
pub open spec fn varint_decode(s: Seq<u8>, n: nat) -> Option<(int, nat)>
    decreases n,
{
    if n == 0 || s.len() == 0 {
        None
    } else if s[0] < 128 {
        Some((s[0] as int, 1))
    } else {
        match varint_decode(s.drop_first(), (n - 1) as nat) {
            Some((w, l)) => Some(((s[0] - 128) + 128 * w, l + 1)),
            None => None,
        }
    }
}

/// `128^k`.
pub open spec fn pow128(k: nat) -> int
    decreases k,
{
    if k == 0 {
        1
    } else {
        128 * pow128((k - 1) as nat)
    }
}

proof fn lemma_pow128_mono(k: nat, j: nat)
    requires
        k <= j,
    ensures
        1 <= pow128(k) <= pow128(j),
    decreases j,
{
    if k < j {
        lemma_pow128_mono(k, (j - 1) as nat);
    } else if k > 0 {
        lemma_pow128_mono((k - 1) as nat, (k - 1) as nat);
    }
}

proof fn lemma_pow128_bounds(k: nat)
    requires
        k <= 9,
    ensures
        1 <= pow128(k) <= 0x8000_0000_0000_0000,
        pow128(k) * 128 == pow128(k + 1),
{
    lemma_pow128_mono(k, 9);
    assert(pow128(9) == 0x8000_0000_0000_0000) by {
        reveal_with_fuel(pow128, 10);
    }
}

proof fn lemma_varint_len(v: nat, k: nat)
    requires
        v < pow128(k),
    ensures
        1 <= varint(v).len() <= if k == 0 { 1 } else { k },
    decreases v,
{
    if v >= 128 {
        assert(k >= 2) by {
            if k <= 1 {
                reveal_with_fuel(pow128, 2);
            }
        }
        assert(v / 128 < pow128((k - 1) as nat));
        lemma_varint_len(v / 128, (k - 1) as nat);
    }
}

/// The code a reader finds at `at` in `b`; none where `at` lies past the end.
pub open spec fn varint_at(b: Seq<u8>, at: int) -> Option<(int, nat)> {
    if 0 <= at <= b.len() {
        varint_decode(b.skip(at), 10)
    } else {
        None
    }
}

/// Appends the LEB128 code of `v`.
pub fn write_varint(out: &mut Vec<u8>, v: u64)
    ensures
        final(out)@ == old(out)@ + varint(v as nat),
{
    let mut x: u64 = v;
    loop
        invariant
            out@ + varint(x as nat) == old(out)@ + varint(v as nat),
        decreases x,
    {
        let byte = (x % 128) as u8;
        let ghost before = out@;
        if x < 128 {
            out.push(byte);
            assert(out@ == before + varint(x as nat));
            return;
        }
        out.push(byte + 128);
        assert(out@ + varint((x / 128) as nat) =~= before + varint(x as nat));
        x = x / 128;
    }
}

/// Reads a LEB128 code at `*at`, refusing one longer than ten bytes rather
/// than reading on. The value is the code's low 64 bits.
pub fn read_varint(b: &[u8], at: &mut usize) -> (r: Option<u64>)
    ensures
        r == match varint_at(b@, *old(at) as int) {
            Some((w, _)) => Some((w % 0x1_0000_0000_0000_0000) as u64),
            None => None::<u64>,
        },
        match varint_at(b@, *old(at) as int) {
            Some((_, l)) => *final(at) == *old(at) + l,
            None => *final(at) == if *old(at) >= b@.len() {
                *old(at) as int
            } else if *old(at) + 10 <= b@.len() {
                *old(at) + 10
            } else {
                b@.len() as int
            },
        },
{
    let ghost start: int = *at as int;
    let ghost s = b@.skip(start);
    let mut acc: u128 = 0;
    let mut mult: u128 = 1;
    let mut shift: usize = 0;
    assert(s.skip(0) =~= s);
    while shift < 10
        invariant
            shift <= 10,
            start == *old(at),
            s == b@.skip(start),
            *at == start + shift,
            start <= b@.len() ==> start + shift <= b@.len(),
            start > b@.len() ==> shift == 0,
            mult == pow128(shift as nat),
            0 <= acc < mult,
            varint_decode(s, 10) == match varint_decode(s.skip(shift as int), (10 - shift) as nat) {
                Some((w, l)) => Some((acc + mult * w, (l + shift) as nat)),
                None => None::<(int, nat)>,
            },
        decreases 10 - shift,
    {
        proof {
            lemma_pow128_bounds(shift as nat);
        }
        if *at >= b.len() {
            proof {
                if start <= b@.len() {
                    assert(s.len() == b@.len() - start);
                    assert(s.skip(shift as int).len() == 0);
                }
            }
            return None;
        }
        let byte = b[*at];
        *at = *at + 1;
        let digit = (byte % 128) as u128;
        let ghost rest = s.skip(shift as int);
        proof {
            assert(rest[0] == byte);
            assert(rest.drop_first() =~= s.skip(shift + 1));
            assert(mult * digit <= mult * 127) by (nonlinear_arith)
                requires digit <= 127, mult >= 0;
        }
        if byte < 128 {
            let v = acc + mult * digit;
            proof {
                assert(v == acc + mult * rest[0]);
                assert(v < 0x1_0000_0000_0000_0000_0000_0000_0000_0000);
            }
            return Some((v % 0x1_0000_0000_0000_0000) as u64);
        }
        proof {
            let d = byte as int - 128;
            match varint_decode(s.skip(shift + 1), (9 - shift) as nat) {
                Some((w, _)) => lemma_spread(mult as int, d, w),
                None => {},
            }
        }
        acc = acc + mult * digit;
        mult = mult * 128;
        shift = shift + 1;
    }
    proof {
        assert(varint_decode(s.skip(10), 0) is None);
    }
    None
}

proof fn lemma_spread(m: int, d: int, w: int)
    by (nonlinear_arith)
    ensures
        m * (d + 128 * w) == m * d + (m * 128) * w,
{
}

/// Zig-zag: `0, -1, 1, -2, …` go to `0, 1, 2, 3, …`, so a small negative
/// delta takes one byte.
pub open spec fn zigzag_of(v: int) -> int {
    if v >= 0 {
        2 * v
    } else {
        -2 * v - 1
    }
}

/// The inverse of [`zigzag_of`].
pub open spec fn unzigzag_of(u: int) -> int {
    if u % 2 == 0 {
        u / 2
    } else {
        -(u / 2) - 1
    }
}

pub fn zigzag(v: i64) -> (r: u64)
    ensures
        r == zigzag_of(v as int),
{
    let r = ((v << 1u32) ^ (v >> 63u32)) as u64;
    assert(r == zigzag_of(v as int)) by (bit_vector)
        requires r == ((v << 1u32) ^ (v >> 63u32)) as u64;
    r
}

pub fn unzigzag(v: u64) -> (r: i64)
    ensures
        r == unzigzag_of(v as int),
{
    let half = (v >> 1u32) as i64;
    assert(v & 1 <= 1) by (bit_vector);
    let bit = (v & 1) as i64;
    let sign = 0 - bit;
    let r = half ^ sign;
    assert(r == unzigzag_of(v as int)) by (bit_vector)
        requires
            half == (v >> 1u32) as i64,
            sign == -((v & 1) as i64),
            r == half ^ sign,
    ;
    r
}

/// A varint written and then read gives the value back, and takes at most
/// ten bytes, whatever follows it.
pub proof fn lemma_varint_round_trip(v: u64, rest: Seq<u8>)
    ensures
        varint(v as nat).len() <= 10,
        varint_decode(varint(v as nat) + rest, 10) == Some((v as int, varint(v as nat).len())),
{
    assert(pow128(10) == 0x400000000000000000) by {
        reveal_with_fuel(pow128, 11);
    }
    lemma_varint_len(v as nat, 10);
    lemma_decode_varint(v as nat, rest, 10);
}

proof fn lemma_decode_varint(v: nat, rest: Seq<u8>, n: nat)
    requires
        varint(v).len() <= n,
    ensures
        varint_decode(varint(v) + rest, n) == Some((v as int, varint(v).len())),
    decreases v,
{
    let s = varint(v) + rest;
    if v >= 128 {
        lemma_decode_varint(v / 128, rest, (n - 1) as nat);
        assert(s.drop_first() =~= varint(v / 128) + rest);
    }
}

/// Zig-zag is undone by its inverse, both ways round.
pub proof fn lemma_zigzag_round_trip(v: i64, u: u64)
    ensures
        unzigzag_of(zigzag_of(v as int)) == v,
        zigzag_of(unzigzag_of(u as int)) == u,
{
}

} // verus!
