//! The cell store: tiles of 256 × 64 cells in identity space, each holding
//! its present cells' values packed densely, and stamps only for the cells
//! the promotion pre-pass proved contested.

use vstd::prelude::*;
use std::string::String;
use std::vec::Vec;
use std::collections::BTreeMap;
use crate::decimal::Decimal;
use crate::stamps::{stamp_less, stamp_precedes};
use vstd::std_specs::btree::increasing_seq;
use vstd::std_specs::cmp::OrdSpec;
use crate::tile::{
    bit_of, bits_below, cell_index, count_below, distinct, lemma_bits_below_bound, lemma_count_below_bound,
    lemma_count_by_words, ones, words_sum, PromotionStats, interned, is_max_present, lemma_count_after_set, marked, present, slot_in, tile_of,
    Kind, Plan, Presence, SlotMap, TILE_COLS, TILE_ROWS,
};
use crate::types::{ActorId, ErrorKind, OpId};

verus! {

broadcast use vstd::std_specs::btree::group_btree_axioms, vstd::array::group_array_axioms, vstd::laws_cmp::group_laws_cmp;

/// A cell's value. A number is held as the bits of its IEEE-754 binary64
/// value, which is all the store ever does with it.
#[derive(Clone, Debug, PartialEq)]
pub enum Value {
    Blank,
    Bool(bool),
    Number(u64),
    Text(String),
    Error(ErrorKind),
    Decimal(Decimal),
}

impl Value {
    /// A copy of the value.
    pub fn duplicate(&self) -> (r: Value)
        ensures
            r == *self,
    {
        match self {
            Value::Blank => Value::Blank,
            Value::Bool(b) => Value::Bool(*b),
            Value::Number(n) => Value::Number(*n),
            Value::Text(s) => Value::Text(s.clone()),
            Value::Error(k) => Value::Error(*k),
            Value::Decimal(d) => Value::Decimal(*d),
        }
    }
}

/// A tile's payload, dense over its present cells: numbers alone, decimals
/// alone, or any values with their tags.
#[derive(Clone, Debug)]
pub enum CellPack {
    Numbers(Vec<u64>),
    Decimals(Vec<Decimal>),
    Tagged(Vec<Value>),
}

/// The packed layout a value can live in, if any.
pub open spec fn kind_of_spec(v: Value) -> Option<Kind> {
    match v {
        Value::Number(_) => Some(Kind::Numbers),
        Value::Decimal(_) => Some(Kind::Decimals),
        _ => None,
    }
}

impl CellPack {
    /// The values, in payload order.
    pub open spec fn values(&self) -> Seq<Value> {
        match self {
            CellPack::Numbers(v) => v@.map_values(|n: u64| Value::Number(n)),
            CellPack::Decimals(v) => v@.map_values(|d: Decimal| Value::Decimal(d)),
            CellPack::Tagged(v) => v@,
        }
    }

    /// The layout in use.
    pub open spec fn kind_spec(&self) -> Kind {
        match self {
            CellPack::Numbers(_) => Kind::Numbers,
            CellPack::Decimals(_) => Kind::Decimals,
            CellPack::Tagged(_) => Kind::Tagged,
        }
    }

    /// The packed layout this value can live in, if any.
    pub fn kind_of(value: &Value) -> (r: Option<Kind>)
        ensures
            r == kind_of_spec(*value),
    {
        match value {
            Value::Number(_) => Some(Kind::Numbers),
            Value::Decimal(_) => Some(Kind::Decimals),
            _ => None,
        }
    }

    /// An empty payload of the given layout.
    pub fn empty(kind: Kind) -> (r: CellPack)
        ensures
            r.values() == Seq::<Value>::empty(),
            r.kind_spec() == kind,
    {
        let r = match kind {
            Kind::Numbers => CellPack::Numbers(Vec::new()),
            Kind::Decimals => CellPack::Decimals(Vec::new()),
            Kind::Tagged => CellPack::Tagged(Vec::new()),
        };
        proof {
            assert(r.values() =~= Seq::<Value>::empty());
        }
        r
    }

    /// The layout in use.
    pub fn kind(&self) -> (r: Kind)
        ensures
            r == self.kind_spec(),
    {
        match self {
            CellPack::Numbers(_) => Kind::Numbers,
            CellPack::Decimals(_) => Kind::Decimals,
            CellPack::Tagged(_) => Kind::Tagged,
        }
    }

    /// How many values the payload holds.
    pub fn len(&self) -> (r: usize)
        ensures
            r == self.values().len(),
    {
        match self {
            CellPack::Numbers(v) => v.len(),
            CellPack::Decimals(v) => v.len(),
            CellPack::Tagged(v) => v.len(),
        }
    }

    /// The value at `rank`.
    pub fn get(&self, rank: usize) -> (r: Value)
        requires
            rank < self.values().len(),
        ensures
            r == self.values()[rank as int],
    {
        match self {
            CellPack::Numbers(v) => Value::Number(v[rank]),
            CellPack::Decimals(v) => Value::Decimal(v[rank]),
            CellPack::Tagged(v) => v[rank].duplicate(),
        }
    }

    /// Turns a packed payload into a tagged one holding the same values; a
    /// tagged payload stays as it is.
    pub fn widen(&mut self)
        ensures
            final(self).values() == old(self).values(),
            final(self).kind_spec() == Kind::Tagged,
    {
        let tagged: Vec<Value> = match self {
            CellPack::Tagged(_) => {
                return ;
            },
            CellPack::Numbers(v) => {
                let mut out: Vec<Value> = Vec::new();
                let mut i: usize = 0;
                while i < v.len()
                    invariant
                        i <= v@.len(),
                        out@ == v@.take(i as int).map_values(|n: u64| Value::Number(n)),
                    decreases v@.len() - i,
                {
                    out.push(Value::Number(v[i]));
                    i = i + 1;
                    proof {
                        assert(out@ =~= v@.take(i as int).map_values(|n: u64| Value::Number(n)));
                    }
                }
                proof {
                    assert(v@.take(v@.len() as int) =~= v@);
                }
                out
            },
            CellPack::Decimals(v) => {
                let mut out: Vec<Value> = Vec::new();
                let mut i: usize = 0;
                while i < v.len()
                    invariant
                        i <= v@.len(),
                        out@ == v@.take(i as int).map_values(|d: Decimal| Value::Decimal(d)),
                    decreases v@.len() - i,
                {
                    out.push(Value::Decimal(v[i]));
                    i = i + 1;
                    proof {
                        assert(out@ =~= v@.take(i as int).map_values(|d: Decimal| Value::Decimal(d)));
                    }
                }
                proof {
                    assert(v@.take(v@.len() as int) =~= v@);
                }
                out
            },
        };
        *self = CellPack::Tagged(tagged);
    }

    /// Puts a value at `rank`, shifting the later ones up. A value the layout
    /// cannot hold widens the payload to tagged first.
    pub fn insert(&mut self, rank: usize, value: Value)
        requires
            rank <= old(self).values().len(),
        ensures
            final(self).values() == old(self).values().insert(rank as int, value),
            final(self).kind_spec() == if kind_of_spec(value) == Some(old(self).kind_spec()) {
                old(self).kind_spec()
            } else {
                Kind::Tagged
            },
    {
        match (&mut *self, &value) {
            (CellPack::Numbers(v), Value::Number(n)) => {
                let ghost before = v@;
                v.insert(rank, *n);
                proof {
                    assert(v@.map_values(|n: u64| Value::Number(n)) =~= before.map_values(|n: u64| Value::Number(n)).insert(
                        rank as int,
                        value,
                    ));
                }
                return ;
            },
            (CellPack::Decimals(v), Value::Decimal(d)) => {
                let ghost before = v@;
                v.insert(rank, *d);
                proof {
                    assert(v@.map_values(|d: Decimal| Value::Decimal(d)) =~= before.map_values(|d: Decimal| Value::Decimal(d)).insert(
                        rank as int,
                        value,
                    ));
                }
                return ;
            },
            _ => {},
        }
        self.widen();
        if let CellPack::Tagged(v) = self {
            v.insert(rank, value);
        }
    }

    /// Replaces the value at `rank`. A value the layout cannot hold widens the
    /// payload to tagged first.
    pub fn replace(&mut self, rank: usize, value: Value)
        requires
            rank < old(self).values().len(),
        ensures
            final(self).values() == old(self).values().update(rank as int, value),
            final(self).kind_spec() == if kind_of_spec(value) == Some(old(self).kind_spec()) {
                old(self).kind_spec()
            } else {
                Kind::Tagged
            },
    {
        match (&mut *self, &value) {
            (CellPack::Numbers(v), Value::Number(n)) => {
                let ghost before = v@;
                v.set(rank, *n);
                proof {
                    assert(v@.map_values(|n: u64| Value::Number(n)) =~= before.map_values(|n: u64| Value::Number(n)).update(
                        rank as int,
                        value,
                    ));
                }
                return ;
            },
            (CellPack::Decimals(v), Value::Decimal(d)) => {
                let ghost before = v@;
                v.set(rank, *d);
                proof {
                    assert(v@.map_values(|d: Decimal| Value::Decimal(d)) =~= before.map_values(|d: Decimal| Value::Decimal(d)).update(
                        rank as int,
                        value,
                    ));
                }
                return ;
            },
            _ => {},
        }
        self.widen();
        if let CellPack::Tagged(v) = self {
            v.set(rank, value);
        }
    }
}

/// A retained write: its lamport, its op, and the value it wrote.
pub type Loser = (u64, OpId, Value);

/// A loser's stamp as integers: lamport, actor, counter.
pub open spec fn loser_key(e: Loser) -> (u64, u128, u64) {
    (e.0, e.1.actor.0, e.1.counter)
}

/// Entry `i` is the one kept for its actor: no entry by that actor has a
/// greater stamp, and none after it has an equal one.
pub open spec fn best_of_actor(l: Seq<Loser>, i: int) -> bool {
    &&& 0 <= i < l.len()
    &&& forall|j: int|
        0 <= j < l.len() && (#[trigger] l[j]).1.actor == l[i].1.actor ==> !stamp_less(loser_key(l[i]), loser_key(l[j]))
    &&& forall|j: int|
        i < j < l.len() && (#[trigger] l[j]).1.actor == l[i].1.actor ==> stamp_less(loser_key(l[j]), loser_key(l[i]))
}

/// `r` holds, for each actor other than `winner` that wrote into `l`, that
/// actor's greatest write, and nothing else, in increasing stamp order.
#[verifier::opaque]
pub open spec fn concurrent_losers(l: Seq<Loser>, winner: ActorId, r: Seq<Loser>) -> bool {
    &&& forall|t: int|
        0 <= t < r.len() ==> (#[trigger] r[t]).1.actor != winner && exists|i: int| best_of_actor(l, i) && r[t] == l[i]
    &&& forall|i: int|
        0 <= i < l.len() && (#[trigger] l[i]).1.actor != winner ==> exists|t: int|
            0 <= t < r.len() && r[t].1.actor == l[i].1.actor
    &&& forall|s: int, t: int| 0 <= s < t < r.len() ==> stamp_less(loser_key(#[trigger] r[s]), loser_key(#[trigger] r[t]))
}

/// A copy of a retained write.
fn copy_loser(e: &Loser) -> (r: Loser)
    ensures
        r == *e,
{
    (e.0, e.1, e.2.duplicate())
}

/// Stamps strictly increase along `k`.
pub open spec fn by_stamp(k: Seq<Loser>) -> bool {
    forall|s: int, t: int| 0 <= s < t < k.len() ==> stamp_less(loser_key(#[trigger] k[s]), loser_key(#[trigger] k[t]))
}

/// What the reduction has built after reading `lp`: `kept` holds each
/// non-winning actor's best write of `lp` once, `src` says where each came
/// from, and the stamps increase.
pub open spec fn reduced(lp: Seq<Loser>, winner: ActorId, kept: Seq<Loser>, src: Seq<int>) -> bool {
    &&& src.len() == kept.len()
    &&& forall|t: int|
        0 <= t < kept.len() ==> (#[trigger] kept[t]).1.actor != winner && best_of_actor(lp, src[t]) && kept[t]
            == lp[src[t]]
    &&& forall|j: int|
        0 <= j < lp.len() && (#[trigger] lp[j]).1.actor != winner ==> exists|t: int|
            0 <= t < kept.len() && kept[t].1.actor == lp[j].1.actor
    &&& forall|s: int, t: int| 0 <= s < t < kept.len() ==> (#[trigger] kept[s]).1.actor != (#[trigger] kept[t]).1.actor
    &&& by_stamp(kept)
}

/// An entry stays best for its actor when a write by another actor is read.
proof fn lemma_best_stays(lp: Seq<Loser>, e: Loser, i: int)
    requires
        best_of_actor(lp, i),
        lp[i].1.actor != e.1.actor,
    ensures
        best_of_actor(lp.push(e), i),
{
    let post = lp.push(e);
    assert forall|j: int| 0 <= j < post.len() && (#[trigger] post[j]).1.actor == post[i].1.actor implies !stamp_less(loser_key(post[i]), loser_key(post[j])) by {
        assert(j < lp.len());
        assert(post[j] == lp[j]);
    }
    assert forall|j: int| i < j < post.len() && (#[trigger] post[j]).1.actor == post[i].1.actor implies stamp_less(loser_key(post[j]), loser_key(post[i])) by {
        assert(j < lp.len());
        assert(post[j] == lp[j]);
    }
}

/// Reading the winner's own write changes nothing.
#[verifier::rlimit(60)]
#[verifier::spinoff_prover]
proof fn lemma_reduce_skip(lp: Seq<Loser>, e: Loser, winner: ActorId, kept: Seq<Loser>, src: Seq<int>)
    requires
        reduced(lp, winner, kept, src),
        e.1.actor == winner,
    ensures
        reduced(lp.push(e), winner, kept, src),
{
    let post = lp.push(e);
    assert forall|t: int| 0 <= t < kept.len() implies (#[trigger] kept[t]).1.actor != winner && best_of_actor(post, src[t])
        && kept[t] == post[src[t]] by {
        assert(kept[t] == lp[src[t]]);
        lemma_best_stays(lp, e, src[t]);
    }
    assert forall|j: int| 0 <= j < post.len() && (#[trigger] post[j]).1.actor != winner implies exists|t: int|
        0 <= t < kept.len() && kept[t].1.actor == post[j].1.actor by {
        assert(post[j] == lp[j]);
    }
}

/// Reading a first write by a new actor adds it in stamp order.
#[verifier::rlimit(60)]
#[verifier::spinoff_prover]
proof fn lemma_reduce_new(
    lp: Seq<Loser>,
    e: Loser,
    winner: ActorId,
    kept: Seq<Loser>,
    src: Seq<int>,
    q: int,
    kept2: Seq<Loser>,
)
    requires
        reduced(lp, winner, kept, src),
        e.1.actor != winner,
        forall|t: int| 0 <= t < kept.len() ==> (#[trigger] kept[t]).1.actor != e.1.actor,
        0 <= q <= kept.len(),
        kept2 == kept.insert(q, e),
        by_stamp(kept2),
    ensures
        reduced(lp.push(e), winner, kept2, src.insert(q, lp.len() as int)),
{
    let post = lp.push(e);
    let src2 = src.insert(q, lp.len() as int);
    let n = lp.len() as int;
    assert forall|j: int| 0 <= j < post.len() && (#[trigger] post[j]).1.actor == e.1.actor implies j == n by {
        if j < n {
            assert(post[j] == lp[j]);
            let t = choose|t: int| 0 <= t < kept.len() && kept[t].1.actor == lp[j].1.actor;
        }
    }
    assert(post[n] == e);
    assert(best_of_actor(post, n));
    assert forall|t: int| 0 <= t < kept2.len() implies (#[trigger] kept2[t]).1.actor != winner && best_of_actor(post, src2[t])
        && kept2[t] == post[src2[t]] by {
        if t < q {
            assert(kept2[t] == kept[t] && src2[t] == src[t]);
            lemma_best_stays(lp, e, src[t]);
        } else if t > q {
            assert(kept2[t] == kept[t - 1] && src2[t] == src[t - 1]);
            lemma_best_stays(lp, e, src[t - 1]);
        }
    }
    assert forall|j: int| 0 <= j < post.len() && (#[trigger] post[j]).1.actor != winner implies exists|t: int|
        0 <= t < kept2.len() && kept2[t].1.actor == post[j].1.actor by {
        if j == n {
            assert(kept2[q] == e);
        } else {
            assert(post[j] == lp[j]);
            let t = choose|t: int| 0 <= t < kept.len() && kept[t].1.actor == lp[j].1.actor;
            let t2 = if t < q { t } else { t + 1 };
            assert(kept2[t2] == kept[t]);
        }
    }
    assert forall|s: int, t: int| 0 <= s < t < kept2.len() implies (#[trigger] kept2[s]).1.actor != (#[trigger] kept2[t]).1.actor by {
        let s0 = if s < q { s } else { s - 1 };
        let t0 = if t < q { t } else { t - 1 };
        if s != q && t != q {
            assert(kept2[s] == kept[s0] && kept2[t] == kept[t0]);
        } else if s == q {
            assert(kept2[t] == kept[t0]);
        } else {
            assert(kept2[s] == kept[s0]);
        }
    }
}

/// Reading a write older than its actor's best keeps the best.
#[verifier::rlimit(60)]
#[verifier::spinoff_prover]
proof fn lemma_reduce_keep(lp: Seq<Loser>, e: Loser, winner: ActorId, kept: Seq<Loser>, src: Seq<int>, p: int)
    requires
        reduced(lp, winner, kept, src),
        0 <= p < kept.len(),
        kept[p].1.actor == e.1.actor,
        stamp_less(loser_key(e), loser_key(kept[p])),
    ensures
        reduced(lp.push(e), winner, kept, src),
{
    let post = lp.push(e);
    let n = lp.len() as int;
    let j0 = src[p];
    assert(best_of_actor(lp, j0));
    assert forall|j: int| 0 <= j < post.len() && (#[trigger] post[j]).1.actor == post[j0].1.actor implies !stamp_less(loser_key(post[j0]), loser_key(post[j])) by {
        if j < n {
            assert(post[j] == lp[j]);
        }
    }
    assert forall|j: int| j0 < j < post.len() && (#[trigger] post[j]).1.actor == post[j0].1.actor implies stamp_less(loser_key(post[j]), loser_key(post[j0])) by {
        if j < n {
            assert(post[j] == lp[j]);
        }
    }
    assert(best_of_actor(post, j0));
    assert forall|t: int| 0 <= t < kept.len() implies (#[trigger] kept[t]).1.actor != winner && best_of_actor(post, src[t])
        && kept[t] == post[src[t]] by {
        if t != p {
            assert(kept[t].1.actor != kept[p].1.actor);
            lemma_best_stays(lp, e, src[t]);
        }
    }
    assert forall|j: int| 0 <= j < post.len() && (#[trigger] post[j]).1.actor != winner implies exists|t: int|
        0 <= t < kept.len() && kept[t].1.actor == post[j].1.actor by {
        if j == n {
            assert(kept[p].1.actor == post[j].1.actor);
        } else {
            assert(post[j] == lp[j]);
        }
    }
}

/// Reading a write at least as new as its actor's best makes it the best.
#[verifier::rlimit(60)]
#[verifier::spinoff_prover]
proof fn lemma_reduce_replace(
    lp: Seq<Loser>,
    e: Loser,
    winner: ActorId,
    kept: Seq<Loser>,
    src: Seq<int>,
    p: int,
    q: int,
    kept2: Seq<Loser>,
)
    requires
        reduced(lp, winner, kept, src),
        0 <= p < kept.len(),
        kept[p].1.actor == e.1.actor,
        !stamp_less(loser_key(e), loser_key(kept[p])),
        0 <= q < kept.len(),
        kept2 == kept.remove(p).insert(q, e),
        by_stamp(kept2),
    ensures
        reduced(lp.push(e), winner, kept2, src.remove(p).insert(q, lp.len() as int)),
{
    let post = lp.push(e);
    let n = lp.len() as int;
    let mid = kept.remove(p);
    let smid = src.remove(p);
    let src2 = smid.insert(q, n);
    let j0 = src[p];
    assert(best_of_actor(lp, j0));
    assert forall|j: int| 0 <= j < post.len() && (#[trigger] post[j]).1.actor == e.1.actor implies !stamp_less(loser_key(e), loser_key(post[j])) by {
        if j < n {
            assert(post[j] == lp[j]);
            assert(!stamp_less(loser_key(lp[j0]), loser_key(lp[j])));
        }
    }
    assert(post[n] == e);
    assert(best_of_actor(post, n));
    assert forall|t: int| 0 <= t < mid.len() implies (#[trigger] mid[t]).1.actor != e.1.actor by {
        let t0 = if t < p { t } else { t + 1 };
        assert(mid[t] == kept[t0]);
    }
    assert forall|t: int| 0 <= t < kept2.len() implies (#[trigger] kept2[t]).1.actor != winner && best_of_actor(post, src2[t])
        && kept2[t] == post[src2[t]] by {
        if t != q {
            let t1 = if t < q { t } else { t - 1 };
            assert(kept2[t] == mid[t1] && src2[t] == smid[t1]);
            let t0 = if t1 < p { t1 } else { t1 + 1 };
            assert(mid[t1] == kept[t0] && smid[t1] == src[t0]);
            lemma_best_stays(lp, e, src[t0]);
        }
    }
    assert forall|j: int| 0 <= j < post.len() && (#[trigger] post[j]).1.actor != winner implies exists|t: int|
        0 <= t < kept2.len() && kept2[t].1.actor == post[j].1.actor by {
        if post[j].1.actor == e.1.actor {
            assert(kept2[q] == e);
        } else {
            assert(post[j] == lp[j]);
            let t = choose|t: int| 0 <= t < kept.len() && kept[t].1.actor == lp[j].1.actor;
            assert(t != p);
            let t1 = if t < p { t } else { t - 1 };
            assert(mid[t1] == kept[t]);
            let t2 = if t1 < q { t1 } else { t1 + 1 };
            assert(kept2[t2] == mid[t1]);
        }
    }
    assert forall|s: int, t: int| 0 <= s < t < kept2.len() implies (#[trigger] kept2[s]).1.actor != (#[trigger] kept2[t]).1.actor by {
        if s != q && t != q {
            let s1 = if s < q { s } else { s - 1 };
            let t1 = if t < q { t } else { t - 1 };
            assert(kept2[s] == mid[s1] && kept2[t] == mid[t1]);
            let s0 = if s1 < p { s1 } else { s1 + 1 };
            let t0 = if t1 < p { t1 } else { t1 + 1 };
            assert(mid[s1] == kept[s0] && mid[t1] == kept[t0]);
        } else if s == q {
            let t1 = t - 1;
            assert(kept2[t] == mid[t1]);
        } else {
            assert(kept2[s] == mid[s]);
        }
    }
}

/// Puts `e` into a list kept in increasing stamp order, where no entry has
/// its stamp.
fn insert_by_stamp(kept: &mut Vec<Loser>, e: Loser) -> (p: usize)
    requires
        by_stamp(old(kept)@),
        forall|t: int| 0 <= t < old(kept)@.len() ==> loser_key(#[trigger] old(kept)@[t]) != loser_key(e),
    ensures
        p <= old(kept)@.len(),
        final(kept)@ == old(kept)@.insert(p as int, e),
        by_stamp(final(kept)@),
{
    let key = (e.0, e.1.actor.0, e.1.counter);
    let n = kept.len();
    let mut p: usize = 0;
    while p < n
        invariant_except_break
            p <= n,
            n == kept@.len(),
            kept@ == old(kept)@,
            forall|t: int| 0 <= t < p ==> stamp_less(loser_key(#[trigger] kept@[t]), key),
        ensures
            p <= n,
            n == kept@.len(),
            kept@ == old(kept)@,
            forall|t: int| 0 <= t < p ==> stamp_less(loser_key(#[trigger] kept@[t]), key),
            p < n ==> !stamp_less(loser_key(kept@[p as int]), key),
        decreases n - p,
    {
        let k = (kept[p].0, kept[p].1.actor.0, kept[p].1.counter);
        if !stamp_precedes(k, key) {
            break;
        }
        p = p + 1;
    }
    let ghost before = kept@;
    proof {
        assert(key == loser_key(e));
        assert forall|t: int| p <= t < n implies stamp_less(key, loser_key(#[trigger] before[t])) by {
            assert(loser_key(before[p as int]) != key);
            if t > p {
                assert(stamp_less(loser_key(before[p as int]), loser_key(before[t])));
            }
        }
    }
    kept.insert(p, e);
    proof {
        assert forall|s: int, t: int| 0 <= s < t < kept@.len() implies stamp_less(loser_key(#[trigger] kept@[s]), loser_key(#[trigger] kept@[t])) by {
            if t < p {
            } else if t == p {
            } else if s < p {
                assert(kept@[t] == before[t - 1]);
            } else if s == p {
                assert(kept@[t] == before[t - 1]);
            } else {
                assert(kept@[s] == before[s - 1]);
                assert(kept@[t] == before[t - 1]);
            }
        }
    }
    p
}

/// Where an actor's entry stands, if it has one.
fn find_actor(kept: &Vec<Loser>, actor: ActorId) -> (r: Option<usize>)
    ensures
        match r {
            Some(p) => p < kept@.len() && kept@[p as int].1.actor == actor,
            None => forall|t: int| 0 <= t < kept@.len() ==> (#[trigger] kept@[t]).1.actor != actor,
        },
{
    let mut p: usize = 0;
    while p < kept.len()
        invariant
            p <= kept@.len(),
            forall|t: int| 0 <= t < p ==> (#[trigger] kept@[t]).1.actor != actor,
        decreases kept@.len() - p,
    {
        if kept[p].1.actor.0 == actor.0 {
            return Some(p);
        }
        p = p + 1;
    }
    None
}

/// Reduces a cell's retained losers to one write per competing actor, that
/// actor's greatest, and drops the winner's own: an author's earlier write is
/// not concurrent with its later one. The result depends on the writes, not
/// on the order they arrived in.
pub fn retain_concurrent_losers(losers: &mut Vec<Loser>, winner: ActorId)
    ensures
        concurrent_losers(old(losers)@, winner, final(losers)@),
{
    let ghost l = losers@;
    let n = losers.len();
    let mut kept: Vec<Loser> = Vec::new();
    let ghost mut src: Seq<int> = Seq::empty();
    proof {
        assert(l.take(0) =~= Seq::<Loser>::empty());
    }
    let mut i: usize = 0;
    while i < n
        invariant
            i <= n,
            n == l.len(),
            losers@ == l,
            l == old(losers)@,
            reduced(l.take(i as int), winner, kept@, src),
        decreases n - i,
    {
        let e = copy_loser(&losers[i]);
        let ghost pre = l.take(i as int);
        proof {
            assert(l.take(i + 1) =~= pre.push(e));
        }
        if e.1.actor.0 == winner.0 {
            proof {
                lemma_reduce_skip(pre, e, winner, kept@, src);
            }
        } else {
            match find_actor(&kept, e.1.actor) {
                Some(p) => {
                    let k = (kept[p].0, kept[p].1.actor.0, kept[p].1.counter);
                    let ekey = (e.0, e.1.actor.0, e.1.counter);
                    if stamp_precedes(ekey, k) {
                        proof {
                            lemma_reduce_keep(pre, e, winner, kept@, src, p as int);
                        }
                    } else {
                        let ghost before = kept@;
                        let _ = kept.remove(p);
                        proof {
                            let mid = kept@;
                            assert forall|s: int, t: int| 0 <= s < t < mid.len() implies stamp_less(loser_key(#[trigger] mid[s]), loser_key(#[trigger] mid[t])) by {
                                let s0 = if s < p { s } else { s + 1 };
                                let t0 = if t < p { t } else { t + 1 };
                                assert(mid[s] == before[s0]);
                                assert(mid[t] == before[t0]);
                            }
                            assert forall|t: int| 0 <= t < mid.len() implies loser_key(#[trigger] mid[t]) != loser_key(e) by {
                                let t0 = if t < p { t } else { t + 1 };
                                assert(mid[t] == before[t0]);
                                assert(before[t0].1.actor != before[p as int].1.actor);
                            }
                        }
                        let q = insert_by_stamp(&mut kept, e);
                        proof {
                            lemma_reduce_replace(pre, e, winner, before, src, p as int, q as int, kept@);
                            src = src.remove(p as int).insert(q as int, i as int);
                        }
                    }
                },
                None => {
                    proof {
                        assert forall|t: int| 0 <= t < kept@.len() implies loser_key(#[trigger] kept@[t]) != loser_key(e) by {
                            assert(kept@[t].1.actor != e.1.actor);
                        }
                    }
                    let ghost before = kept@;
                    let q = insert_by_stamp(&mut kept, e);
                    proof {
                        lemma_reduce_new(pre, e, winner, before, src, q as int, kept@);
                        src = src.insert(q as int, i as int);
                    }
                },
            }
        }
        i = i + 1;
    }
    proof {
        reveal(concurrent_losers);
        assert(l.take(n as int) =~= l);
        assert forall|t: int| 0 <= t < kept@.len() implies (#[trigger] kept@[t]).1.actor != winner && exists|i: int|
            best_of_actor(l, i) && kept@[t] == l[i] by {
            assert(kept@[t] == l.take(n as int)[src[t]]);
            assert(best_of_actor(l, src[t]));
        }
    }
    *losers = kept;
}

/// Two lists in strictly increasing stamp order with the same members are
/// the same list.
#[verifier::rlimit(60)]
#[verifier::spinoff_prover]
proof fn lemma_by_stamp_unique(r1: Seq<Loser>, r2: Seq<Loser>)
    requires
        by_stamp(r1),
        by_stamp(r2),
        forall|x: Loser| r1.contains(x) <==> r2.contains(x),
    ensures
        r1 == r2,
    decreases r1.len(),
{
    if r1.len() == 0 {
        if r2.len() > 0 {
            assert(r2.contains(r2[0]));
        }
        assert(r1 =~= r2);
    } else {
        assert(r1.contains(r1[0]));
        let k = choose|k: int| 0 <= k < r2.len() && r2[k] == r1[0];
        assert(r2.contains(r2[0]));
        let m = choose|m: int| 0 <= m < r1.len() && r1[m] == r2[0];
        if k > 0 {
            assert(stamp_less(loser_key(r2[0]), loser_key(r2[k])));
            if m > 0 {
                assert(stamp_less(loser_key(r1[0]), loser_key(r1[m])));
            }
        }
        assert(k == 0);
        let t1 = r1.drop_first();
        let t2 = r2.drop_first();
        assert forall|x: Loser| t1.contains(x) <==> t2.contains(x) by {
            if t1.contains(x) {
                let i = choose|i: int| 0 <= i < t1.len() && t1[i] == x;
                assert(r1[i + 1] == x);
                assert(stamp_less(loser_key(r1[0]), loser_key(r1[i + 1])));
                assert(r1.contains(x));
                let j = choose|j: int| 0 <= j < r2.len() && r2[j] == x;
                assert(j != 0);
                assert(t2[j - 1] == x);
            }
            if t2.contains(x) {
                let i = choose|i: int| 0 <= i < t2.len() && t2[i] == x;
                assert(r2[i + 1] == x);
                assert(stamp_less(loser_key(r2[0]), loser_key(r2[i + 1])));
                assert(r2.contains(x));
                let j = choose|j: int| 0 <= j < r1.len() && r1[j] == x;
                assert(j != 0);
                assert(t1[j - 1] == x);
            }
        }
        lemma_by_stamp_unique(t1, t2);
        assert(r1.len() == t1.len() + 1 && r2.len() == t2.len() + 1);
        assert forall|i: int| 0 <= i < r1.len() implies r1[i] == r2[i] by {
            if i > 0 {
                assert(r1[i] == t1[i - 1]);
                assert(r2[i] == t2[i - 1]);
            }
        }
        assert(r1 =~= r2);
    }
}

/// No two entries share a stamp: each op arrives once.
pub open spec fn stamps_distinct(l: Seq<Loser>) -> bool {
    forall|i: int, j: int| 0 <= i < j < l.len() ==> loser_key(#[trigger] l[i]) != loser_key(#[trigger] l[j])
}

/// An entry best for its actor in one arrival order is best in any other
/// order of the same writes.
#[verifier::rlimit(60)]
#[verifier::spinoff_prover]
proof fn lemma_best_in_other_order(l1: Seq<Loser>, l2: Seq<Loser>, i: int) -> (i2: int)
    requires
        l1.to_set() == l2.to_set(),
        stamps_distinct(l2),
        best_of_actor(l1, i),
    ensures
        best_of_actor(l2, i2),
        l2[i2] == l1[i],
{
    let x = l1[i];
    assert(l1.to_set().contains(x));
    let i2 = choose|k: int| 0 <= k < l2.len() && l2[k] == x;
    assert forall|j: int| 0 <= j < l2.len() && (#[trigger] l2[j]).1.actor == l2[i2].1.actor implies !stamp_less(loser_key(l2[i2]), loser_key(l2[j])) by {
        assert(l2.to_set().contains(l2[j]));
        let j1 = choose|k: int| 0 <= k < l1.len() && l1[k] == l2[j];
        assert(l1[j1].1.actor == l1[i].1.actor);
    }
    assert forall|j: int| i2 < j < l2.len() && (#[trigger] l2[j]).1.actor == l2[i2].1.actor implies stamp_less(loser_key(l2[j]), loser_key(l2[i2])) by {
        assert(loser_key(l2[i2]) != loser_key(l2[j]));
    }
    i2
}

/// Two entries best for the same actor are the same entry.
proof fn lemma_best_unique(l: Seq<Loser>, i: int, j: int)
    requires
        stamps_distinct(l),
        best_of_actor(l, i),
        best_of_actor(l, j),
        l[i].1.actor == l[j].1.actor,
    ensures
        i == j,
{
    if i < j {
        assert(loser_key(l[i]) != loser_key(l[j]));
    } else if j < i {
        assert(loser_key(l[i]) != loser_key(l[j]));
    }
}

/// Every member of a reduction of `l1` is a member of any reduction of
/// another arrival order `l2` of the same writes.
#[verifier::rlimit(50)]
#[verifier::spinoff_prover]
proof fn lemma_reduction_members(l1: Seq<Loser>, l2: Seq<Loser>, w: ActorId, r1: Seq<Loser>, r2: Seq<Loser>, x: Loser)
    requires
        l1.to_set() == l2.to_set(),
        stamps_distinct(l2),
        concurrent_losers(l1, w, r1),
        concurrent_losers(l2, w, r2),
        r1.contains(x),
    ensures
        r2.contains(x),
{
    reveal(concurrent_losers);
    let t = choose|t: int| 0 <= t < r1.len() && r1[t] == x;
    assert(r1[t].1.actor != w);
    let i = choose|i: int| best_of_actor(l1, i) && r1[t] == l1[i];
    let i2 = lemma_best_in_other_order(l1, l2, i);
    assert(l2[i2].1.actor != w);
    let t2 = choose|t2: int| 0 <= t2 < r2.len() && r2[t2].1.actor == l2[i2].1.actor;
    assert(r2[t2].1.actor != w);
    let i3 = choose|k: int| best_of_actor(l2, k) && r2[t2] == l2[k];
    lemma_best_unique(l2, i2, i3);
    assert(r2[t2] == x);
}

/// Retained losers depend on which writes arrived, not on the order they
/// arrived in: two arrival orders of the same writes, each op once, reduce
/// to the same list.
pub proof fn lemma_losers_order_independent(l1: Seq<Loser>, l2: Seq<Loser>, w: ActorId, r1: Seq<Loser>, r2: Seq<Loser>)
    requires
        l1.to_set() == l2.to_set(),
        stamps_distinct(l1),
        stamps_distinct(l2),
        concurrent_losers(l1, w, r1),
        concurrent_losers(l2, w, r2),
    ensures
        r1 == r2,
{
    reveal(concurrent_losers);
    assert forall|x: Loser| r1.contains(x) <==> r2.contains(x) by {
        if r1.contains(x) {
            lemma_reduction_members(l1, l2, w, r1, r2, x);
        }
        if r2.contains(x) {
            lemma_reduction_members(l2, l1, w, r2, r1, x);
        }
    }
    lemma_by_stamp_unique(r1, r2);
}

// ------------------------------------------------------------------ tiles

/// Counting further never counts less, and a present cell counts once.
proof fn lemma_count_step(words: Seq<u64>, a: nat, b: nat)
    requires
        a < b,
    ensures
        count_below(words, b) >= count_below(words, a) + if present(words, a as int) {
            1nat
        } else {
            0nat
        },
    decreases b,
{
    if b > a + 1 {
        lemma_count_step(words, a, (b - 1) as nat);
    }
}

/// Counting over cells none of which is present adds nothing.
proof fn lemma_count_flat(words: Seq<u64>, a: nat, b: nat)
    requires
        a <= b,
        forall|j: int| a <= j < b ==> !#[trigger] present(words, j),
    ensures
        count_below(words, b) == count_below(words, a),
    decreases b,
{
    if b > a {
        lemma_count_flat(words, a, (b - 1) as nat);
    }
}

/// A contested cell's stamp: the winning write's lamport and op, and the
/// concurrent writes that lost to it.
#[derive(Clone, Debug)]
pub struct CellMeta {
    pub lamport: u64,
    pub id: OpId,
    pub losers: Vec<Loser>,
}

/// A stamp as integers.
pub open spec fn op_key(lamport: u64, id: OpId) -> (u64, u128, u64) {
    (lamport, id.actor.0, id.counter)
}

/// Whether a write at `(lamport, id)` beats a cell's stamp.
pub open spec fn beats(lamport: u64, id: OpId, s: (u64, OpId, Seq<Loser>)) -> bool {
    stamp_less(op_key(s.0, s.1), op_key(lamport, id))
}

/// A contested cell's winner after a log of writes `(lamport, id, value)`,
/// from `start`: each write takes the cell when it `beats` the winner so far,
/// as `value_after` and `stamp_after` say of one write.
pub open spec fn contested_replay(
    start: Option<(u64, OpId, Value)>,
    log: Seq<(u64, OpId, Value)>,
) -> Option<(u64, OpId, Value)>
    decreases log.len(),
{
    if log.len() == 0 {
        start
    } else {
        let w = log.last();
        match contested_replay(start, log.drop_last()) {
            None => Some(w),
            Some(p) => if beats(w.0, w.1, (p.0, p.1, Seq::<Loser>::empty())) {
                Some(w)
            } else {
                Some(p)
            },
        }
    }
}

/// On a contested cell the newest stamp wins, whatever order the writes
/// arrive in: the winner is the starting one or one of the log's writes,
/// and none of them has a newer stamp.
pub proof fn lemma_contested_newest_wins(
    start: Option<(u64, OpId, Value)>,
    log: Seq<(u64, OpId, Value)>,
)
    requires
        start is Some || log.len() > 0,
    ensures
        contested_replay(start, log) matches Some(w) && {
            &&& (start matches Some(s0) ==> !stamp_less(op_key(w.0, w.1), op_key(s0.0, s0.1)))
            &&& forall|i: int|
                0 <= i < log.len() ==> !stamp_less(op_key(w.0, w.1), op_key(#[trigger] log[i].0, log[i].1))
            &&& (start == Some(w) || exists|i: int| 0 <= i < log.len() && #[trigger] log[i] == w)
        },
    decreases log.len(),
{
    if log.len() > 0 {
        let prefix = log.drop_last();
        let n = log.len() - 1;
        assert forall|i: int| 0 <= i < n implies #[trigger] log[i] == prefix[i] by {}
        if start is Some || prefix.len() > 0 {
            lemma_contested_newest_wins(start, prefix);
            let p = contested_replay(start, prefix)->0;
            if !(start == Some(p)) {
                let i = choose|i: int| 0 <= i < prefix.len() && #[trigger] prefix[i] == p;
                assert(log[i] == p);
            }
        }
        assert(log[n] == log.last());
    }
}

/// A write to a contested cell extends its replay: when the cell holds the
/// winner of a log (or nothing, for an empty log from nothing), after the
/// write, as `value_after` and `stamp_after` give it, the cell holds the
/// winner of the log with the write appended.
pub proof fn lemma_write_extends_replay(
    start: Option<(u64, OpId, Value)>,
    log: Seq<(u64, OpId, Value)>,
    stamp: Option<(u64, OpId, Seq<Loser>)>,
    old: Option<Value>,
    lamport: u64,
    id: OpId,
    value: Value,
    after: Option<(u64, OpId, Seq<Loser>)>,
)
    requires
        stamp is Some ==> old is Some,
        contested_replay(start, log) == (match stamp {
            None => None,
            Some(st) => Some((st.0, st.1, old->0)),
        }),
        stamp_after(true, stamp, old, lamport, id, value, after),
    ensures
        after matches Some(a) && contested_replay(start, log.push((lamport, id, value))) == Some(
            (a.0, a.1, value_after(true, stamp, old, lamport, id, value)),
        ),
{
    let extended = log.push((lamport, id, value));
    assert(extended.drop_last() =~= log);
    assert(extended.last() == (lamport, id, value));
}

/// The value a write leaves in its cell: the written one, unless the cell is
/// contested and its stamp beats the write.
pub open spec fn value_after(
    contested: bool,
    stamp: Option<(u64, OpId, Seq<Loser>)>,
    old: Option<Value>,
    lamport: u64,
    id: OpId,
    value: Value,
) -> Value {
    if contested && stamp is Some && !beats(lamport, id, stamp->0) {
        old->0
    } else {
        value
    }
}

/// The stamp a write leaves on its cell. An uncontested cell carries none.
/// A contested cell's first write stamps it; a later write either wins,
/// retaining the old winner among the losers, or loses and is retained
/// itself; either way the losers are reduced to one per competing actor.
pub open spec fn stamp_after(
    contested: bool,
    stamp: Option<(u64, OpId, Seq<Loser>)>,
    old: Option<Value>,
    lamport: u64,
    id: OpId,
    value: Value,
    after: Option<(u64, OpId, Seq<Loser>)>,
) -> bool {
    if !contested {
        after == stamp
    } else {
        match stamp {
            None => after == Some((lamport, id, Seq::<Loser>::empty())),
            Some(s) => match after {
                None => false,
                Some(a) => if beats(lamport, id, s) {
                    &&& a.0 == lamport
                    &&& a.1 == id
                    &&& concurrent_losers(s.2.push((s.0, s.1, old->0)), id.actor, a.2)
                } else {
                    &&& a.0 == s.0
                    &&& a.1 == s.1
                    &&& concurrent_losers(s.2.push((lamport, id, value)), s.1.actor, a.2)
                },
            },
        }
    }
}

/// The tile's frontier after a write: the write's lamport and actor, except
/// that a contested cell's write older than the frontier leaves it alone.
pub open spec fn frontier_after(mixed: bool, contested: bool, f: (u64, ActorId), lamport: u64, id: OpId) -> (u64, ActorId) {
    if mixed && contested && lamport < f.0 {
        f
    } else {
        (lamport, id.actor)
    }
}

/// One tile: which cells are present, their values packed densely in cell
/// order, the tile's causal frontier, and stamps for its contested cells.
#[derive(Clone)]
pub struct Tile {
    presence: Presence,
    payload: CellPack,
    max_lamport: u64,
    writer: ActorId,
    mixed: bool,
    stamps: BTreeMap<u16, CellMeta>,
}

impl Tile {
    /// The value of cell `i`, if present.
    pub closed spec fn value_at(&self, i: int) -> Option<Value> {
        if 0 <= i < 16384 && self.presence.has(i) {
            Some(self.payload.values()[count_below(self.presence.words_view(), i as nat) as int])
        } else {
            None
        }
    }

    /// The stamp of cell `i`, if it carries one.
    pub closed spec fn stamp_at(&self, i: int) -> Option<(u64, OpId, Seq<Loser>)> {
        if 0 <= i < 16384 && self.stamps@.contains_key(i as u16) {
            Some((self.stamps@[i as u16].lamport, self.stamps@[i as u16].id, self.stamps@[i as u16].losers@))
        } else {
            None
        }
    }

    /// The greatest lamport applied to the tile and the actor that applied it.
    pub closed spec fn frontier(&self) -> (u64, ActorId) {
        (self.max_lamport, self.writer)
    }

    /// Whether the tile has contested cells and so keeps stamps.
    pub closed spec fn is_mixed(&self) -> bool {
        self.mixed
    }

    /// The payload is dense over the present cells; stamps exist exactly for
    /// the present cells that `marks` contests.
    pub closed spec fn wf(&self, marks: Option<Seq<u64>>) -> bool {
        &&& self.presence.wf()
        &&& self.payload.values().len() == self.presence.count_view()
        &&& self.mixed == (marks is Some)
        &&& marks matches Some(m) ==> m.len() == 256
        &&& forall|k: u16| #[trigger]
            self.stamps@.contains_key(k) ==> k < 16384 && self.presence.has(k as int) && (marks matches Some(
                m,
            ) && present(m, k as int))
        &&& forall|k: u16|
            k < 16384 && self.presence.has(k as int) && (marks matches Some(m) && present(m, k as int))
                ==> #[trigger] self.stamps@.contains_key(k)
    }

    /// An empty tile; `marks` says which of its cells are contested.
    pub fn new(mixed: bool, kind: Kind, Ghost(marks): Ghost<Option<Seq<u64>>>) -> (r: Tile)
        requires
            mixed == (marks is Some),
            marks matches Some(m) ==> m.len() == 256,
        ensures
            r.wf(marks),
            r.is_mixed() == mixed,
            forall|i: int| #[trigger] r.value_at(i) is None,
            forall|i: int| #[trigger] r.stamp_at(i) is None,
            r.frontier() == (0u64, ActorId(0)),
    {
        let r = Tile {
            presence: Presence::new(),
            payload: CellPack::empty(kind),
            max_lamport: 0,
            writer: ActorId(0),
            mixed,
            stamps: BTreeMap::new(),
        };
        proof {
            assert forall|j: int| 0 <= j < 16384 implies !#[trigger] present(r.presence.words_view(), j) by {
                assert(!r.presence.has(j));
            }
            lemma_count_flat(r.presence.words_view(), 0, 16384);
        }
        r
    }
}

/// Setting a new cell and inserting its value at its rank keeps every other
/// cell's value and puts the new value at the new cell.
proof fn lemma_insert_cell(w0: Seq<u64>, w1: Seq<u64>, p0: Seq<Value>, p1: Seq<Value>, idx: int, v: Value)
    requires
        0 <= idx < 16384,
        !present(w0, idx),
        forall|j: int| #![trigger present(w1, j)] 0 <= j < 16384 ==> present(w1, j) == (present(w0, j) || j == idx),
        p0.len() == count_below(w0, 16384),
        p1 == p0.insert(count_below(w0, idx as nat) as int, v),
    ensures
        p1.len() == count_below(w1, 16384),
        p1[count_below(w1, idx as nat) as int] == v,
        forall|j: int|
            0 <= j < 16384 && j != idx && present(w0, j) ==> p1[#[trigger] count_below(w1, j as nat) as int] == p0[count_below(
                w0,
                j as nat,
            ) as int],
{
    lemma_count_after_set(w0, w1, idx, 16384);
    lemma_count_after_set(w0, w1, idx, idx as nat);
    lemma_count_step(w0, idx as nat, 16384);
    assert forall|j: int|
        0 <= j < 16384 && j != idx && present(w0, j) implies p1[#[trigger] count_below(w1, j as nat) as int] == p0[count_below(
            w0,
            j as nat,
        ) as int] by {
        lemma_count_after_set(w0, w1, idx, j as nat);
        lemma_count_step(w0, j as nat, 16384);
        if j < idx {
            lemma_count_step(w0, j as nat, idx as nat);
        } else {
            lemma_count_step(w0, idx as nat, j as nat);
        }
    }
}

/// Replacing the value at a present cell's rank keeps every other cell's
/// value.
proof fn lemma_replace_cell(w: Seq<u64>, p0: Seq<Value>, p1: Seq<Value>, idx: int, v: Value)
    requires
        0 <= idx < 16384,
        present(w, idx),
        p0.len() == count_below(w, 16384),
        p1 == p0.update(count_below(w, idx as nat) as int, v),
    ensures
        count_below(w, idx as nat) < p0.len(),
        p1.len() == p0.len(),
        p1[count_below(w, idx as nat) as int] == v,
        forall|j: int|
            0 <= j < 16384 && j != idx && present(w, j) ==> p1[#[trigger] count_below(w, j as nat) as int] == p0[count_below(
                w,
                j as nat,
            ) as int],
{
    lemma_count_step(w, idx as nat, 16384);
    assert forall|j: int|
        0 <= j < 16384 && j != idx && present(w, j) implies p1[#[trigger] count_below(w, j as nat) as int] == p0[count_below(
            w,
            j as nat,
        ) as int] by {
        lemma_count_step(w, j as nat, 16384);
        if j < idx {
            lemma_count_step(w, j as nat, idx as nat);
        } else {
            lemma_count_step(w, idx as nat, j as nat);
        }
    }
}

impl Tile {
    /// The payload is dense over the present cells.
    pub closed spec fn dense(&self) -> bool {
        &&& self.presence.wf()
        &&& self.payload.values().len() == self.presence.count_view()
    }

    /// Where cell `idx`'s value sits in the payload: the number of present
    /// cells before it, taken from the count alone when it lies past every
    /// present cell, which is how rows loaded in order arrive.
    fn rank_of(&self, idx: u16, here: bool) -> (r: usize)
        requires
            self.presence.wf(),
            idx < 16384,
            here == self.presence.has(idx as int),
        ensures
            r == count_below(self.presence.words_view(), idx as nat),
    {
        match self.presence.max_set() {
            Some(m) => {
                if !here && idx > m {
                    proof {
                        let w = self.presence.words_view();
                        assert(is_max_present(w, m as int));
                        assert forall|j: int| idx <= j < 16384 implies !#[trigger] present(w, j) by {}
                        lemma_count_flat(w, idx as nat, 16384);
                    }
                    self.presence.count() as usize
                } else {
                    self.presence.rank(idx)
                }
            },
            None => self.presence.rank(idx),
        }
    }

    /// Stores `value` in cell `idx`, replacing its value or adding the cell.
    fn put(&mut self, idx: u16, here: bool, rank: usize, value: Value)
        requires
            old(self).dense(),
            idx < 16384,
            here == old(self).presence.has(idx as int),
            rank == count_below(old(self).presence.words_view(), idx as nat),
        ensures
            final(self).dense(),
            forall|j: int| #![trigger final(self).presence.has(j)] 0 <= j < 16384 ==> final(self).presence.has(j) == (old(self).presence.has(j) || j == idx),
            final(self).value_at(idx as int) == Some(value),
            forall|j: int| j != idx ==> #[trigger] final(self).value_at(j) == old(self).value_at(j),
            final(self).stamps == old(self).stamps,
            final(self).mixed == old(self).mixed,
            final(self).max_lamport == old(self).max_lamport,
            final(self).writer == old(self).writer,
    {
        let ghost w0 = self.presence.words_view();
        let ghost p0 = self.payload.values();
        if here {
            proof {
                lemma_replace_cell(w0, p0, p0.update(rank as int, value), idx as int, value);
            }
            self.payload.replace(rank, value);
            proof {
                assert forall|j: int| j != idx implies #[trigger] self.value_at(j) == old(self).value_at(j) by {
                    if 0 <= j < 16384 && self.presence.has(j) {
                        assert(self.payload.values()[count_below(w0, j as nat) as int] == p0[count_below(w0, j as nat) as int]);
                    }
                }
            }
        } else {
            proof {
                lemma_count_step(w0, idx as nat, 16384);
            }
            self.presence.set(idx);
            self.payload.insert(rank, value);
            proof {
                let w1 = self.presence.words_view();
                assert forall|j: int| #![trigger present(w1, j)] 0 <= j < 16384 implies present(w1, j) == (present(w0, j) || j == idx) by {
                    assert(self.presence.has(j) == (old(self).presence.has(j) || j == idx));
                }
                lemma_insert_cell(w0, w1, p0, self.payload.values(), idx as int, value);
                assert forall|j: int| j != idx implies #[trigger] self.value_at(j) == old(self).value_at(j) by {
                    if 0 <= j < 16384 {
                        assert(self.presence.has(j) == old(self).presence.has(j));
                        if old(self).presence.has(j) {
                            assert(self.payload.values()[count_below(w1, j as nat) as int] == p0[count_below(w0, j as nat) as int]);
                        }
                    }
                }
            }
        }
    }
}

impl Tile {
    /// Applies one write to cell `idx`. A cell that is not contested takes
    /// the write outright: its writes come from one actor in canonical order,
    /// so the newest is the last applied. A contested cell keeps whichever of
    /// the write and its stamp is greater and retains the other among its
    /// losers, one per competing actor.
    #[verifier::rlimit(60)]
    #[verifier::spinoff_prover]
    pub fn write_cell(
        &mut self,
        idx: u16,
        cell_contested: bool,
        lamport: u64,
        id: OpId,
        value: Value,
        Ghost(marks): Ghost<Option<Seq<u64>>>,
    )
        requires
            old(self).wf(marks),
            idx < 16384,
            cell_contested == (marks matches Some(m) && present(m, idx as int)),
        ensures
            final(self).wf(marks),
            final(self).is_mixed() == old(self).is_mixed(),
            forall|j: int|
                j != idx ==> #[trigger] final(self).value_at(j) == old(self).value_at(j) && final(self).stamp_at(j)
                    == old(self).stamp_at(j),
            final(self).value_at(idx as int) == Some(
                value_after(cell_contested, old(self).stamp_at(idx as int), old(self).value_at(idx as int), lamport, id, value),
            ),
            stamp_after(
                cell_contested,
                old(self).stamp_at(idx as int),
                old(self).value_at(idx as int),
                lamport,
                id,
                value,
                final(self).stamp_at(idx as int),
            ),
            final(self).frontier() == frontier_after(old(self).is_mixed(), cell_contested, old(self).frontier(), lamport, id),
    {
        let here = self.presence.contains(idx);
        let rank = self.rank_of(idx, here);
        if !self.mixed || !cell_contested {
            self.writer = id.actor;
            self.max_lamport = lamport;
            self.put(idx, here, rank, value);
            proof {
                assert(!self.stamps@.contains_key(idx));
                assert forall|j: int| j != idx implies #[trigger] self.value_at(j) == old(self).value_at(j) && self.stamp_at(j)
                    == old(self).stamp_at(j) by {}
                assert forall|k: u16| k < 16384 && self.presence.has(k as int) && (marks matches Some(m) && present(m, k as int))
                    implies #[trigger] self.stamps@.contains_key(k) by {
                    assert(k != idx);
                    assert(old(self).presence.has(k as int));
                }
            }
        } else {
            if lamport >= self.max_lamport {
                self.max_lamport = lamport;
                self.writer = id.actor;
            }
            let ghost st0 = self.stamps@;
            match self.stamps.remove(&idx) {
                Some(meta) => {
                    let mut meta = meta;
                    let ghost s0 = (meta.lamport, meta.id, meta.losers@);
                    proof {
                        assert(old(self).stamp_at(idx as int) == Some(s0));
                        assert(here);
                        lemma_count_step(self.presence.words_view(), idx as nat, 16384);
                    }
                    let newer = stamp_precedes(
                        (meta.lamport, meta.id.actor.0, meta.id.counter),
                        (lamport, id.actor.0, id.counter),
                    );
                    let winner = if newer {
                        let previous = self.payload.get(rank);
                        meta.losers.push((meta.lamport, meta.id, previous));
                        meta.lamport = lamport;
                        meta.id = id;
                        let ghost w = self.presence.words_view();
                        let ghost p0 = self.payload.values();
                        proof {
                            lemma_replace_cell(w, p0, p0.update(rank as int, value), idx as int, value);
                        }
                        self.payload.replace(rank, value);
                        proof {
                            assert forall|j: int| j != idx implies #[trigger] self.value_at(j) == old(self).value_at(j) by {
                                if 0 <= j < 16384 && self.presence.has(j) {
                                    assert(self.payload.values()[count_below(w, j as nat) as int] == p0[count_below(w, j as nat) as int]);
                                }
                            }
                        }
                        id.actor
                    } else {
                        meta.losers.push((lamport, id, value));
                        proof {
                            assert forall|j: int| j != idx implies #[trigger] self.value_at(j) == old(self).value_at(j) by {}
                        }
                        meta.id.actor
                    };
                    let ghost pushed = meta.losers@;
                    retain_concurrent_losers(&mut meta.losers, winner);
                    proof {
                        assert(concurrent_losers(pushed, winner, meta.losers@));
                    }
                    self.stamps.insert(idx, meta);
                    proof {
                        assert(self.stamps@ == st0.insert(idx, meta));
                        assert forall|j: int| j != idx implies #[trigger] self.value_at(j) == old(self).value_at(j)
                            && self.stamp_at(j) == old(self).stamp_at(j) by {
                            if 0 <= j < 16384 {
                                assert((j as u16) != idx);
                            }
                        }
                        assert forall|k: u16| #[trigger] self.stamps@.contains_key(k) implies k < 16384 && self.presence.has(k as int)
                            && (marks matches Some(m) && present(m, k as int)) by {
                            if k != idx {
                                assert(old(self).stamps@.contains_key(k));
                            }
                        }
                        assert forall|k: u16| k < 16384 && self.presence.has(k as int) && (marks matches Some(m) && present(m, k as int))
                            implies #[trigger] self.stamps@.contains_key(k) by {
                            if k != idx {
                                assert(old(self).stamps@.contains_key(k));
                            }
                        }
                    }
                },
                None => {
                    proof {
                        assert(old(self).stamp_at(idx as int) is None);
                        assert(!here);
                    }
                    self.put(idx, here, rank, value);
                    let ghost mid = *self;
                    proof {
                        assert forall|j: int| j != idx implies #[trigger] mid.value_at(j) == old(self).value_at(j) by {}
                    }
                    let meta = CellMeta { lamport, id, losers: Vec::new() };
                    self.stamps.insert(idx, meta);
                    proof {
                        assert forall|j: int| #[trigger] self.value_at(j) == mid.value_at(j) by {}
                        assert(self.stamps@ == st0.insert(idx, meta));
                        assert(meta.losers@ =~= Seq::<Loser>::empty());
                        assert forall|j: int| j != idx implies #[trigger] self.value_at(j) == old(self).value_at(j)
                            && self.stamp_at(j) == old(self).stamp_at(j) by {
                            if 0 <= j < 16384 {
                                assert((j as u16) != idx);
                            }
                        }
                        assert forall|k: u16| #[trigger] self.stamps@.contains_key(k) implies k < 16384 && self.presence.has(k as int)
                            && (marks matches Some(m) && present(m, k as int)) by {
                            if k != idx {
                                assert(old(self).stamps@.contains_key(k));
                            }
                        }
                        assert forall|k: u16| k < 16384 && self.presence.has(k as int) && (marks matches Some(m) && present(m, k as int))
                            implies #[trigger] self.stamps@.contains_key(k) by {
                            if k != idx {
                                assert(old(self).presence.has(k as int));
                                assert(old(self).stamps@.contains_key(k));
                            }
                        }
                    }
                },
            }
        }
    }
}

// ------------------------------------------------------------------ store

/// The row slot of cell `i` of tile `k`.
pub open spec fn row_slot_of(k: (u32, u32), i: int) -> int {
    k.0 * 256 + i / 64
}

/// The column slot of cell `i` of tile `k`.
pub open spec fn col_slot_of(k: (u32, u32), i: int) -> int {
    k.1 * 64 + i % 64
}

/// A cell's tile and index give back its slots, and the index is in range.
proof fn lemma_tile_of_slots(rs: int, cs: int)
    requires
        0 <= rs <= u32::MAX,
        0 <= cs <= u32::MAX,
    ensures
        0 <= tile_of(rs, cs).1 < 16384,
        row_slot_of(tile_of(rs, cs).0, tile_of(rs, cs).1) == rs,
        col_slot_of(tile_of(rs, cs).0, tile_of(rs, cs).1) == cs,
{
    let i = (rs % 256) * 64 + cs % 64;
    assert(0 <= i < 16384) by (nonlinear_arith)
        requires
            i == (rs % 256) * 64 + cs % 64,
            0 <= rs,
            0 <= cs,
    ;
    assert(i / 64 == rs % 256 && i % 64 == cs % 64) by (nonlinear_arith)
        requires
            i == (rs % 256) * 64 + cs % 64,
            0 <= rs,
            0 <= cs,
    ;
    assert(((rs / 256) as u32) as int == rs / 256);
    assert(((cs / 64) as u32) as int == cs / 64);
}

/// Different cells sit in different places.
proof fn lemma_tile_of_injective(rs: int, cs: int, rs2: int, cs2: int)
    requires
        0 <= rs <= u32::MAX,
        0 <= cs <= u32::MAX,
        0 <= rs2 <= u32::MAX,
        0 <= cs2 <= u32::MAX,
        tile_of(rs, cs) == tile_of(rs2, cs2),
    ensures
        rs == rs2,
        cs == cs2,
{
    lemma_tile_of_slots(rs, cs);
    lemma_tile_of_slots(rs2, cs2);
}

/// The cell store: tiles keyed by `(row band, column band)`, the slot
/// interners for rows and columns, and the contested cells the promotion
/// pre-pass fixed before the first write.
pub struct TileStore {
    pub rows: SlotMap,
    pub cols: SlotMap,
    tiles: BTreeMap<(u32, u32), Tile>,
    contested: BTreeMap<(u32, u32), [u64; 256]>,
}

impl TileStore {
    /// The contested-cell bitmaps, per tile.
    pub closed spec fn marks(&self) -> Map<(u32, u32), [u64; 256]> {
        self.contested@
    }

    /// The tiles that hold cells.
    pub closed spec fn tile_keys(&self) -> Set<(u32, u32)> {
        self.tiles@.dom()
    }

    /// The row identities, in slot order.
    pub closed spec fn row_ids(&self) -> Seq<OpId> {
        self.rows.ids_view()
    }

    /// The column identities, in slot order.
    pub closed spec fn col_ids(&self) -> Seq<OpId> {
        self.cols.ids_view()
    }

    /// Tile `k`'s contested-cell bitmap, if the tile has contested cells.
    pub open spec fn marks_of(&self, k: (u32, u32)) -> Option<Seq<u64>> {
        if self.marks().contains_key(k) {
            Some(self.marks()[k]@)
        } else {
            None
        }
    }

    /// Tile `k`, if any cell of it was written.
    pub closed spec fn tile_at(&self, k: (u32, u32)) -> Option<Tile> {
        if self.tiles@.contains_key(k) {
            Some(self.tiles@[k])
        } else {
            None
        }
    }

    /// The value of the cell at slots `(rs, cs)`.
    pub open spec fn cell(&self, rs: int, cs: int) -> Option<Value> {
        match self.tile_at(tile_of(rs, cs).0) {
            Some(t) => t.value_at(tile_of(rs, cs).1),
            None => None,
        }
    }

    /// The stamp of the cell at slots `(rs, cs)`.
    pub open spec fn stamp(&self, rs: int, cs: int) -> Option<(u64, OpId, Seq<Loser>)> {
        match self.tile_at(tile_of(rs, cs).0) {
            Some(t) => t.stamp_at(tile_of(rs, cs).1),
            None => None,
        }
    }

    /// The slot of a row identity.
    pub open spec fn row_slot(&self, row: OpId) -> int {
        slot_in(self.row_ids(), row)
    }

    /// The slot of a column identity.
    pub open spec fn col_slot(&self, col: OpId) -> int {
        slot_in(self.col_ids(), col)
    }

    /// Whether both identities have slots.
    pub open spec fn known(&self, row: OpId, col: OpId) -> bool {
        self.row_ids().contains(row) && self.col_ids().contains(col)
    }

    /// The value of a cell, by identity.
    pub open spec fn value_of(&self, row: OpId, col: OpId) -> Option<Value> {
        if self.known(row, col) {
            self.cell(self.row_slot(row), self.col_slot(col))
        } else {
            None
        }
    }

    /// The stamp of a cell, by identity.
    pub open spec fn stamp_of(&self, row: OpId, col: OpId) -> Option<(u64, OpId, Seq<Loser>)> {
        if self.known(row, col) {
            self.stamp(self.row_slot(row), self.col_slot(col))
        } else {
            None
        }
    }

    /// Whether the pre-pass contested the cell, by identity.
    pub open spec fn contested_of(&self, row: OpId, col: OpId) -> bool {
        self.known(row, col) && marked(self.marks(), self.row_slot(row), self.col_slot(col))
    }

    /// Every tile keeps its own invariant, and only cells with both
    /// identities interned are present.
    pub closed spec fn wf(&self) -> bool {
        &&& self.rows.wf()
        &&& self.cols.wf()
        &&& forall|k: (u32, u32)| #[trigger] self.tiles@.contains_key(k) ==> self.tiles@[k].wf(self.marks_of(k))
        &&& forall|k: (u32, u32), i: int|
            self.tiles@.contains_key(k) && (#[trigger] self.tiles@[k].value_at(i)) is Some ==> row_slot_of(k, i)
                < self.rows.ids_view().len() && col_slot_of(k, i) < self.cols.ids_view().len()
    }

    /// An empty store that will honour the plan's promotion decisions.
    pub fn from_plan(plan: Plan) -> (r: TileStore)
        requires
            plan.rows.wf(),
            plan.cols.wf(),
        ensures
            r.wf(),
            r.row_ids() == plan.rows.ids_view(),
            r.col_ids() == plan.cols.ids_view(),
            r.marks() == plan.contested@,
            forall|row: OpId, col: OpId| #[trigger] r.value_of(row, col) is None,
    {
        let r = TileStore { rows: plan.rows, cols: plan.cols, tiles: BTreeMap::new(), contested: plan.contested };
        proof {
            assert forall|row: OpId, col: OpId| #[trigger] r.value_of(row, col) is None by {
                assert(!r.tiles@.contains_key(tile_of(r.row_slot(row), r.col_slot(col)).0));
            }
        }
        r
    }

    /// Where a cell sits: its tile and index, when both identities have
    /// slots.
    fn locate(&self, row: &OpId, col: &OpId) -> (r: Option<((u32, u32), u16)>)
        requires
            self.wf(),
        ensures
            r is Some <==> self.known(*row, *col),
            r matches Some((k, i)) ==> tile_of(self.row_slot(*row), self.col_slot(*col)) == (k, i as int) && i < 16384,
    {
        let rs = match self.rows.slot_of(row) {
            Some(s) => s,
            None => {
                return None;
            },
        };
        let cs = match self.cols.slot_of(col) {
            Some(s) => s,
            None => {
                return None;
            },
        };
        proof {
            self.rows.lemma_distinct();
            self.cols.lemma_distinct();
            assert(self.rows.ids_view()[rs as int] == *row);
            assert(self.cols.ids_view()[cs as int] == *col);
            assert(self.row_slot(*row) == rs) by {
                let s = self.row_slot(*row);
                assert(self.rows.ids_view().contains(*row));
            }
            assert(self.col_slot(*col) == cs) by {
                assert(self.cols.ids_view().contains(*col));
            }
        }
        Some(((rs / TILE_ROWS, cs / TILE_COLS), cell_index(rs, cs)))
    }

    /// A cell's current winning value, if it was ever written.
    pub fn get(&self, row: &OpId, col: &OpId) -> (r: Option<Value>)
        requires
            self.wf(),
        ensures
            r == self.value_of(*row, *col),
    {
        let (k, idx) = match self.locate(row, col) {
            Some(at) => at,
            None => {
                return None;
            },
        };
        match self.tiles.get(&k) {
            Some(tile) => tile.get(idx),
            None => None,
        }
    }

    /// How many tiles hold cells.
    pub fn tile_count(&self) -> (r: usize)
        ensures
            r == self.tile_keys().len(),
    {
        self.tiles.len()
    }
}

impl Tile {
    /// The value of cell `idx`, if present.
    pub fn get(&self, idx: u16) -> (r: Option<Value>)
        requires
            self.dense(),
            idx < 16384,
        ensures
            r == self.value_at(idx as int),
    {
        if !self.presence.contains(idx) {
            return None;
        }
        let rank = self.presence.rank(idx);
        proof {
            lemma_count_step(self.presence.words_view(), idx as nat, 16384);
        }
        Some(self.payload.get(rank))
    }
}

/// In a list of distinct identities, an identity's slot is where it is.
proof fn lemma_slot_in(ids: Seq<OpId>, x: OpId, j: int)
    requires
        distinct(ids),
        0 <= j < ids.len(),
        ids[j] == x,
    ensures
        slot_in(ids, x) == j,
{
    let i = slot_in(ids, x);
    assert(0 <= i < ids.len() && ids[i] == x);
    if i < j {
        assert(ids[i] != ids[j]);
    } else if j < i {
        assert(ids[j] != ids[i]);
    }
}

impl Tile {
    /// A stamped cell is present.
    proof fn lemma_stamped_present(&self, marks: Option<Seq<u64>>, i: int)
        requires
            self.wf(marks),
            self.stamp_at(i) is Some,
        ensures
            self.value_at(i) is Some,
    {
        assert(self.stamps@.contains_key(i as u16));
    }
}

impl TileStore {
    /// Tile `k`'s frontier, if the tile holds cells.
    pub open spec fn frontier_at(&self, k: (u32, u32)) -> Option<(u64, ActorId)> {
        match self.tile_at(k) {
            Some(t) => Some(t.frontier()),
            None => None,
        }
    }

    /// The tile a cell lies in, by identity.
    pub open spec fn tile_of_cell(&self, row: OpId, col: OpId) -> (u32, u32) {
        tile_of(self.row_slot(row), self.col_slot(col)).0
    }

    /// Applies one cell write, interning the identities first.
    ///
    /// A cell the pre-pass found uncontested takes the write outright: its
    /// writes come from one actor and arrive in canonical order, so the newest
    /// is the last applied, and its tile's frontier moves to the write. A
    /// contested cell keeps whichever of the write and its stamp is greater,
    /// retaining the other among its losers, and moves the frontier only
    /// forward.
    #[verifier::rlimit(100)]
    #[verifier::spinoff_prover]
    pub fn write(&mut self, row: OpId, col: OpId, lamport: u64, id: OpId, value: Value)
        requires
            old(self).wf(),
            old(self).row_ids().len() < u32::MAX,
            old(self).col_ids().len() < u32::MAX,
        ensures
            final(self).wf(),
            final(self).row_ids() == interned(old(self).row_ids(), row),
            final(self).col_ids() == interned(old(self).col_ids(), col),
            final(self).marks() == old(self).marks(),
            final(self).value_of(row, col) == Some(
                value_after(
                    final(self).contested_of(row, col),
                    old(self).stamp_of(row, col),
                    old(self).value_of(row, col),
                    lamport,
                    id,
                    value,
                ),
            ),
            stamp_after(
                final(self).contested_of(row, col),
                old(self).stamp_of(row, col),
                old(self).value_of(row, col),
                lamport,
                id,
                value,
                final(self).stamp_of(row, col),
            ),
            forall|r2: OpId, c2: OpId|
                (r2, c2) != (row, col) ==> #[trigger] final(self).value_of(r2, c2) == old(self).value_of(r2, c2)
                    && final(self).stamp_of(r2, c2) == old(self).stamp_of(r2, c2),
            final(self).tile_keys() == old(self).tile_keys().insert(final(self).tile_of_cell(row, col)),
            final(self).frontier_at(final(self).tile_of_cell(row, col)) == Some(
                frontier_after(
                    final(self).marks().contains_key(final(self).tile_of_cell(row, col)),
                    final(self).contested_of(row, col),
                    match old(self).frontier_at(final(self).tile_of_cell(row, col)) {
                        Some(f) => f,
                        None => (0u64, ActorId(0)),
                    },
                    lamport,
                    id,
                ),
            ),
            forall|k: (u32, u32)|
                k != final(self).tile_of_cell(row, col) ==> #[trigger] final(self).frontier_at(k) == old(self).frontier_at(k),
    {
        let ghost r0 = self.rows.ids_view();
        let ghost c0 = self.cols.ids_view();
        let rs = self.rows.intern(row);
        let cs = self.cols.intern(col);
        let key = (rs / TILE_ROWS, cs / TILE_COLS);
        let idx = cell_index(rs, cs);
        proof {
            self.rows.lemma_distinct();
            self.cols.lemma_distinct();
            lemma_slot_in(self.rows.ids_view(), row, rs as int);
            lemma_slot_in(self.cols.ids_view(), col, cs as int);
            lemma_tile_of_slots(rs as int, cs as int);
            assert(tile_of(rs as int, cs as int) == (key, idx as int));
        }
        let ghost marks = old(self).marks_of(key);
        let cell_contested = match self.contested.get(&key) {
            Some(bm) => {
                let w = bm[idx as usize / 64];
                let b = (idx % 64) as u64;
                let hit = w & (1u64 << b) != 0;
                assert(hit == bit_of(w, b)) by (bit_vector)
                    requires
                        b < 64,
                        hit == (w & (1u64 << b) != 0),
                ;
                hit
            },
            None => false,
        };
        proof {
            assert(cell_contested == (marks matches Some(m) && present(m, idx as int)));
        }
        let mut tile = match self.tiles.remove(&key) {
            Some(t) => t,
            None => {
                let kind = match CellPack::kind_of(&value) {
                    Some(k) => k,
                    None => Kind::Tagged,
                };
                let promoted = self.contested.contains_key(&key);
                Tile::new(promoted, kind, Ghost(marks))
            },
        };
        let ghost before = tile;
        proof {
            assert(before.wf(marks));
            assert(old(self).tile_at(key) is Some ==> before == old(self).tile_at(key)->0);
        }
        tile.write_cell(idx, cell_contested, lamport, id, value, Ghost(marks));
        let ghost after = tile;
        self.tiles.insert(key, tile);
        proof {
            let r1 = self.rows.ids_view();
            let c1 = self.cols.ids_view();
            assert(self.row_ids() == r1 && self.col_ids() == c1);
            assert(self.tile_at(key) == Some(after));
            // Slots of identities known before are unchanged.
            assert forall|x: OpId| r0.contains(x) implies slot_in(r1, x) == slot_in(r0, x) by {
                let j = choose|j: int| 0 <= j < r0.len() && r0[j] == x;
                old(self).rows.lemma_distinct();
                lemma_slot_in(r0, x, j);
                assert(r1[j] == x);
                lemma_slot_in(r1, x, j);
            }
            assert forall|x: OpId| c0.contains(x) implies slot_in(c1, x) == slot_in(c0, x) by {
                let j = choose|j: int| 0 <= j < c0.len() && c0[j] == x;
                old(self).cols.lemma_distinct();
                lemma_slot_in(c0, x, j);
                assert(c1[j] == x);
                lemma_slot_in(c1, x, j);
            }
            // What the store held at the written cell is what the tile held.
            if old(self).known(row, col) {
                assert(old(self).row_slot(row) == rs);
                assert(old(self).col_slot(col) == cs);
            } else {
                if old(self).tile_at(key) is Some {
                    let t0 = old(self).tile_at(key)->0;
                    if t0.value_at(idx as int) is Some {
                        assert(old(self).tiles@.contains_key(key));
                        assert(row_slot_of(key, idx as int) < r0.len() && col_slot_of(key, idx as int) < c0.len());
                        assert(r0.contains(row)) by {
                            assert(r1[rs as int] == row);
                            assert(r0[rs as int] == r1[rs as int]);
                        }
                        assert(c0.contains(col)) by {
                            assert(c1[cs as int] == col);
                            assert(c0[cs as int] == c1[cs as int]);
                        }
                    }
                    if t0.stamp_at(idx as int) is Some {
                        t0.lemma_stamped_present(marks, idx as int);
                    }
                }
            }
            assert(before.value_at(idx as int) == old(self).value_of(row, col));
            assert(before.stamp_at(idx as int) == old(self).stamp_of(row, col));
            assert(self.contested_of(row, col) == cell_contested);
            assert(self.tile_of_cell(row, col) == key);
        }
        proof {
            assert(self.tiles@ =~= old(self).tiles@.insert(key, after));
            self.lemma_write_frame(*old(self), row, col, rs as int, cs as int, key, idx as int, before, after, marks);
        }
    }
}

impl TileStore {
    /// What a write leaves alone: every other cell, every other tile, and the
    /// store's invariant.
    #[verifier::rlimit(100)]
    #[verifier::spinoff_prover]
    proof fn lemma_write_frame(
        &self,
        old_s: TileStore,
        row: OpId,
        col: OpId,
        rs: int,
        cs: int,
        key: (u32, u32),
        idx: int,
        before: Tile,
        after: Tile,
        marks: Option<Seq<u64>>,
    )
        requires
            old_s.wf(),
            self.rows.wf(),
            self.cols.wf(),
            self.rows.ids_view() == interned(old_s.rows.ids_view(), row),
            self.cols.ids_view() == interned(old_s.cols.ids_view(), col),
            self.rows.ids_view().len() <= u32::MAX,
            self.cols.ids_view().len() <= u32::MAX,
            self.contested@ == old_s.contested@,
            marks == old_s.marks_of(key),
            0 <= rs < self.rows.ids_view().len(),
            0 <= cs < self.cols.ids_view().len(),
            self.rows.ids_view()[rs] == row,
            self.cols.ids_view()[cs] == col,
            rs <= u32::MAX,
            cs <= u32::MAX,
            tile_of(rs, cs) == (key, idx),
            self.tiles@ == old_s.tiles@.insert(key, after),
            old_s.tiles@.contains_key(key) ==> before == old_s.tiles@[key],
            !old_s.tiles@.contains_key(key) ==> (forall|j: int| #[trigger] before.value_at(j) is None) && (forall|j: int|
                #[trigger] before.stamp_at(j) is None),
            before.wf(marks),
            after.wf(marks),
            forall|j: int|
                j != idx ==> #[trigger] after.value_at(j) == before.value_at(j) && after.stamp_at(j) == before.stamp_at(j),
        ensures
            self.wf(),
            forall|r2: OpId, c2: OpId|
                (r2, c2) != (row, col) ==> #[trigger] self.value_of(r2, c2) == old_s.value_of(r2, c2) && self.stamp_of(r2, c2)
                    == old_s.stamp_of(r2, c2),
            self.tile_keys() == old_s.tile_keys().insert(key),
            forall|k: (u32, u32)| k != key ==> #[trigger] self.frontier_at(k) == old_s.frontier_at(k),
    {
        let r0 = old_s.rows.ids_view();
        let c0 = old_s.cols.ids_view();
        let r1 = self.rows.ids_view();
        let c1 = self.cols.ids_view();
        self.rows.lemma_distinct();
        self.cols.lemma_distinct();
        old_s.rows.lemma_distinct();
        old_s.cols.lemma_distinct();
        assert forall|x: OpId| r0.contains(x) implies r1.contains(x) && slot_in(r1, x) == slot_in(r0, x) by {
            let j = choose|j: int| 0 <= j < r0.len() && r0[j] == x;
            lemma_slot_in(r0, x, j);
            assert(r1[j] == x);
            lemma_slot_in(r1, x, j);
        }
        assert forall|x: OpId| c0.contains(x) implies c1.contains(x) && slot_in(c1, x) == slot_in(c0, x) by {
            let j = choose|j: int| 0 <= j < c0.len() && c0[j] == x;
            lemma_slot_in(c0, x, j);
            assert(c1[j] == x);
            lemma_slot_in(c1, x, j);
        }
        // The tile at `key` before the write, read as the store read it.
        assert forall|j: int| #[trigger] before.value_at(j) == (match old_s.tile_at(key) {
            Some(t) => t.value_at(j),
            None => None,
        }) && before.stamp_at(j) == (match old_s.tile_at(key) {
            Some(t) => t.stamp_at(j),
            None => None,
        }) by {}
        // The invariant.
        assert forall|k: (u32, u32)| #[trigger] self.tiles@.contains_key(k) implies self.tiles@[k].wf(self.marks_of(k)) by {
            if k != key {
                assert(old_s.tiles@.contains_key(k));
            }
        }
        assert forall|k: (u32, u32), i: int|
            self.tiles@.contains_key(k) && (#[trigger] self.tiles@[k].value_at(i)) is Some implies row_slot_of(k, i) < r1.len()
                && col_slot_of(k, i) < c1.len() by {
            if k != key {
                assert(old_s.tiles@[k] == self.tiles@[k]);
                assert(old_s.tiles@[k].value_at(i) is Some);
            } else if i != idx {
                assert(before.value_at(i) is Some);
                assert(old_s.tiles@.contains_key(key));
                assert(old_s.tiles@[key].value_at(i) is Some);
            } else {
                lemma_tile_of_slots(rs, cs);
            }
        }
        assert(self.wf());
        // Every other cell.
        assert forall|r2: OpId, c2: OpId| (r2, c2) != (row, col) implies #[trigger] self.value_of(r2, c2) == old_s.value_of(
            r2,
            c2,
        ) && self.stamp_of(r2, c2) == old_s.stamp_of(r2, c2) by {
            if self.known(r2, c2) {
                let rs2 = self.row_slot(r2);
                let cs2 = self.col_slot(c2);
                assert(0 <= rs2 < r1.len() && r1[rs2] == r2);
                assert(0 <= cs2 < c1.len() && c1[cs2] == c2);
                let (k2, i2) = tile_of(rs2, cs2);
                lemma_tile_of_slots(rs2, cs2);
                if k2 == key && i2 == idx {
                    lemma_tile_of_injective(rs, cs, rs2, cs2);
                    assert(false);
                }
                // The store reads the same tile content there as before.
                assert(self.cell(rs2, cs2) == old_s.cell(rs2, cs2) && self.stamp(rs2, cs2) == old_s.stamp(rs2, cs2)) by {
                    if k2 == key {
                        assert(after.value_at(i2) == before.value_at(i2));
                    }
                }
                if old_s.known(r2, c2) {
                    assert(old_s.row_slot(r2) == rs2);
                    assert(old_s.col_slot(c2) == cs2);
                } else {
                    if old_s.tile_at(k2) is Some {
                        let t = old_s.tile_at(k2)->0;
                        if t.value_at(i2) is Some {
                            assert(old_s.tiles@.contains_key(k2));
                            assert(rs2 < r0.len() && cs2 < c0.len());
                            assert(r0[rs2] == r2);
                            assert(c0[cs2] == c2);
                            assert(r0.contains(r2));
                            assert(c0.contains(c2));
                        }
                        if t.stamp_at(i2) is Some {
                            t.lemma_stamped_present(old_s.marks_of(k2), i2);
                        }
                    }
                }
            } else {
                if old_s.known(r2, c2) {
                    assert(r1.contains(r2) && c1.contains(c2));
                }
            }
        }
        assert(self.tile_keys() =~= old_s.tile_keys().insert(key));
    }
}

impl Tile {
    /// The retained losers of cell `idx`; none unless it carries a stamp.
    pub fn losers_at(&self, idx: u16) -> (r: &[Loser])
        requires
            idx < 16384,
        ensures
            r@ == match self.stamp_at(idx as int) {
                Some(st) => st.2,
                None => Seq::<Loser>::empty(),
            },
    {
        match self.stamps.get(&idx) {
            Some(m) => m.losers.as_slice(),
            None => {
                let none: &[Loser] = &[];
                proof {
                    assert(none@ =~= Seq::<Loser>::empty());
                }
                none
            },
        }
    }

    /// The tile's frontier: the greatest lamport applied and its writer.
    pub fn frontier_pair(&self) -> (r: (u64, ActorId))
        ensures
            r == self.frontier(),
    {
        (self.max_lamport, self.writer)
    }
}

impl TileStore {
    /// A cell's retained concurrent losers. A cell without a stamp has none:
    /// its writes all came from one actor, whose writes are totally ordered.
    pub fn losers(&self, row: &OpId, col: &OpId) -> (r: &[Loser])
        requires
            self.wf(),
        ensures
            r@ == match self.stamp_of(*row, *col) {
                Some(st) => st.2,
                None => Seq::<Loser>::empty(),
            },
    {
        let none: &[Loser] = &[];
        proof {
            assert(none@ =~= Seq::<Loser>::empty());
        }
        match self.locate(row, col) {
            Some((k, idx)) => match self.tiles.get(&k) {
                Some(tile) => tile.losers_at(idx),
                None => none,
            },
            None => none,
        }
    }

    /// The causal frontier of the tile a cell lies in: the greatest lamport
    /// applied to it and the actor that applied it.
    pub fn causal_summary(&self, row: &OpId, col: &OpId) -> (r: Option<(u64, ActorId)>)
        requires
            self.wf(),
        ensures
            r == if self.known(*row, *col) {
                self.frontier_at(self.tile_of_cell(*row, *col))
            } else {
                None
            },
    {
        match self.locate(row, col) {
            Some((k, _)) => match self.tiles.get(&k) {
                Some(tile) => Some(tile.frontier_pair()),
                None => None,
            },
            None => None,
        }
    }

    /// Whether this cell carries per-cell metadata: the pre-pass contested it.
    pub fn is_cell_promoted(&self, row: &OpId, col: &OpId) -> (r: bool)
        requires
            self.wf(),
        ensures
            r == self.contested_of(*row, *col),
    {
        let (k, idx) = match self.locate(row, col) {
            Some(at) => at,
            None => {
                return false;
            },
        };
        match self.contested.get(&k) {
            Some(bm) => {
                let w = bm[idx as usize / 64];
                let b = (idx % 64) as u64;
                let hit = w & (1u64 << b) != 0;
                assert(hit == bit_of(w, b)) by (bit_vector)
                    requires
                        b < 64,
                        hit == (w & (1u64 << b) != 0),
                ;
                hit
            },
            None => false,
        }
    }
}

/// Where a cell sits in tile-major order: its tile, then its index.
pub open spec fn before_in_tiles(a: ((u32, u32), int), b: ((u32, u32), int)) -> bool {
    ||| a.0.0 < b.0.0
    ||| a.0.0 == b.0.0 && a.0.1 < b.0.1
    ||| a.0.0 == b.0.0 && a.0.1 == b.0.1 && a.1 < b.1
}

/// Cell `i` of tile `k` is the cell at the slots it names.
proof fn lemma_slots_of_tile(k: (u32, u32), i: int)
    requires
        0 <= i < 16384,
        row_slot_of(k, i) <= u32::MAX,
        col_slot_of(k, i) <= u32::MAX,
    ensures
        tile_of(row_slot_of(k, i), col_slot_of(k, i)) == (k, i),
{
    let rs = row_slot_of(k, i);
    let cs = col_slot_of(k, i);
    vstd::arithmetic::div_mod::lemma_fundamental_div_mod_converse(rs, 256, k.0 as int, i / 64);
    vstd::arithmetic::div_mod::lemma_fundamental_div_mod_converse(cs, 64, k.1 as int, i % 64);
    vstd::arithmetic::div_mod::lemma_fundamental_div_mod(i, 64);
}

impl TileStore {
    /// Where a cell sits, by identity.
    pub open spec fn position(&self, row: OpId, col: OpId) -> ((u32, u32), int) {
        tile_of(self.row_slot(row), self.col_slot(col))
    }

    /// The identities and value of cell `idx` of tile `key`.
    fn cell_entry(&self, key: (u32, u32), tile: &Tile, idx: u16) -> (r: (OpId, OpId, Value))
        requires
            self.wf(),
            self.tiles@.contains_key(key),
            self.tiles@[key] == *tile,
            idx < 16384,
            tile.value_at(idx as int) is Some,
        ensures
            self.known(r.0, r.1),
            self.value_of(r.0, r.1) == Some(r.2),
            self.position(r.0, r.1) == (key, idx as int),
    {
        proof {
            assert(row_slot_of(key, idx as int) < self.rows.ids_view().len());
            assert(col_slot_of(key, idx as int) < self.cols.ids_view().len());
            self.rows.lemma_len_bound();
            self.cols.lemma_len_bound();
            assert(tile.dense()) by {
                assert(tile.wf(self.marks_of(key)));
            }
        }
        let rs = key.0 * TILE_ROWS + (idx as u32) / TILE_COLS;
        let cs = key.1 * TILE_COLS + (idx as u32) % TILE_COLS;
        let row = self.rows.id_of(rs);
        let col = self.cols.id_of(cs);
        let value = match tile.get(idx) {
            Some(v) => v,
            None => Value::Blank,
        };
        proof {
            self.rows.lemma_distinct();
            self.cols.lemma_distinct();
            lemma_slot_in(self.rows.ids_view(), row, rs as int);
            lemma_slot_in(self.cols.ids_view(), col, cs as int);
            lemma_slots_of_tile(key, idx as int);
            assert(self.rows.ids_view().contains(row));
            assert(self.cols.ids_view().contains(col));
        }
        (row, col, value)
    }
}

/// Tile keys a map walks in increasing order come in tile-major order.
proof fn lemma_keys_increase(s: Seq<(u32, u32)>, p: int, q: int)
    requires
        increasing_seq(s),
        0 <= p < q < s.len(),
    ensures
        s[p].0 < s[q].0 || (s[p].0 == s[q].0 && s[p].1 < s[q].1),
{
    vstd::std_specs::btree::axiom_increasing_seq_meaning(s);
    assert(s[p].cmp_spec(&s[q]) is Less);
}

impl TileStore {
    /// Appends the present cells of one tile, in cell order.
    fn push_tile_cells(&self, key: (u32, u32), tile: &Tile, out: &mut Vec<(OpId, OpId, Value)>)
        requires
            self.wf(),
            self.tiles@.contains_key(key),
            self.tiles@[key] == *tile,
        ensures
            final(out)@.len() >= old(out)@.len(),
            forall|t: int| 0 <= t < old(out)@.len() ==> #[trigger] final(out)@[t] == old(out)@[t],
            forall|t: int|
                old(out)@.len() <= t < final(out)@.len() ==> self.known((#[trigger] final(out)@[t]).0, final(out)@[t].1)
                    && self.value_of(final(out)@[t].0, final(out)@[t].1) == Some(final(out)@[t].2) && self.position(
                    final(out)@[t].0,
                    final(out)@[t].1,
                ).0 == key,
            forall|s: int, t: int|
                old(out)@.len() <= s < t < final(out)@.len() ==> self.position((#[trigger] final(out)@[s]).0, final(out)@[s].1).1
                    < self.position((#[trigger] final(out)@[t]).0, final(out)@[t].1).1,
            forall|i: int|
                (#[trigger] tile.value_at(i)) is Some ==> exists|t: int|
                    old(out)@.len() <= t < final(out)@.len() && self.position(final(out)@[t].0, final(out)@[t].1) == (key, i),
    {
        proof {
            assert(tile.wf(self.marks_of(key)));
        }
        let idxs = tile.presence.indices();
        let ghost base = out@.len();
        let n = idxs.len();
        let mut j: usize = 0;
        while j < n
            invariant
                j <= n,
                n == idxs@.len(),
                self.wf(),
                self.tiles@.contains_key(key),
                self.tiles@[key] == *tile,
                tile.presence.wf(),
                base == old(out)@.len(),
                forall|a: int, c: int| 0 <= a < c < idxs@.len() ==> idxs@[a] < idxs@[c],
                forall|a: int| 0 <= a < idxs@.len() ==> #[trigger] idxs@[a] < 16384 && tile.presence.has(idxs@[a] as int),
                out@.len() == base + j,
                forall|t: int| 0 <= t < base ==> #[trigger] out@[t] == old(out)@[t],
                forall|t: int|
                    base <= t < out@.len() ==> self.known((#[trigger] out@[t]).0, out@[t].1) && self.value_of(out@[t].0, out@[t].1)
                        == Some(out@[t].2) && self.position(out@[t].0, out@[t].1) == (key, idxs@[t - base] as int),
            decreases n - j,
        {
            let idx = idxs[j];
            let e = self.cell_entry(key, tile, idx);
            out.push(e);
            j = j + 1;
        }
        proof {
            assert forall|i: int| (#[trigger] tile.value_at(i)) is Some implies exists|t: int|
                base <= t < out@.len() && self.position(out@[t].0, out@[t].1) == (key, i) by {
                assert(tile.presence.has(i));
                assert(idxs@.contains(i as u16));
                let q = choose|q: int| 0 <= q < idxs@.len() && idxs@[q] == i as u16;
                assert(self.position(out@[base + q].0, out@[base + q].1) == (key, i));
            }
        }
    }

    /// Every present cell as `(row, column, value)`, in tile-major order:
    /// tiles by key, cells within a tile by index. This is the order a state
    /// hash folds cells in.
    pub fn for_each(&self) -> (r: Vec<(OpId, OpId, Value)>)
        requires
            self.wf(),
        ensures
            forall|t: int|
                0 <= t < r@.len() ==> self.known((#[trigger] r@[t]).0, r@[t].1) && self.value_of(r@[t].0, r@[t].1) == Some(r@[t].2),
            forall|row: OpId, col: OpId|
                (#[trigger] self.value_of(row, col)) is Some ==> exists|t: int|
                    0 <= t < r@.len() && r@[t].0 == row && r@[t].1 == col,
            forall|s: int, t: int|
                0 <= s < t < r@.len() ==> before_in_tiles(
                    self.position((#[trigger] r@[s]).0, r@[s].1),
                    self.position((#[trigger] r@[t]).0, r@[t].1),
                ),
    {
        let mut out: Vec<(OpId, OpId, Value)> = Vec::new();
        let ghost mut from: Seq<int> = Seq::empty();
        for kv in it: self.tiles.iter()
            invariant
                self.wf(),
                it.seq().len() == self.tiles@.dom().len(),
                forall|i: int|
                    0 <= i < it.seq().len() ==> self.tiles@.contains_key(*#[trigger] it.seq()[i].0)
                        && self.tiles@[*it.seq()[i].0] == *it.seq()[i].1,
                forall|k: (u32, u32)| #[trigger] self.tiles@.contains_key(k) ==> it.seq().contains((&k, &self.tiles@[k])),
                increasing_seq(it.seq().map_values(|kv: (&(u32, u32), &Tile)| *kv.0)),
                from.len() == out@.len(),
                forall|t: int|
                    0 <= t < out@.len() ==> self.known((#[trigger] out@[t]).0, out@[t].1) && self.value_of(out@[t].0, out@[t].1)
                        == Some(out@[t].2) && 0 <= from[t] < it.index() && self.position(out@[t].0, out@[t].1).0
                        == *it.seq()[from[t]].0,
                forall|s: int, t: int|
                    0 <= s < t < out@.len() ==> before_in_tiles(
                        self.position((#[trigger] out@[s]).0, out@[s].1),
                        self.position((#[trigger] out@[t]).0, out@[t].1),
                    ),
                forall|p: int, i: int|
                    0 <= p < it.index() && (#[trigger] it.seq()[p].1.value_at(i)) is Some ==> exists|t: int|
                        0 <= t < out@.len() && self.position(out@[t].0, out@[t].1) == (*it.seq()[p].0, i),
                it.index() == it.seq().len() ==> forall|row: OpId, col: OpId|
                    (#[trigger] self.value_of(row, col)) is Some ==> exists|t: int|
                        0 <= t < out@.len() && out@[t].0 == row && out@[t].1 == col,
        {
            let (key, tile) = kv;
            let ghost idx = it.index();
            let ghost before = out@;
            let ghost keys = it.seq().map_values(|kv: (&(u32, u32), &Tile)| *kv.0);
            proof {
                assert(*it.seq()[idx].0 == *key && *it.seq()[idx].1 == *tile);
            }
            self.push_tile_cells(*key, tile, &mut out);
            proof {
                let from2 = from + Seq::new((out@.len() - before.len()) as nat, |t: int| idx);
                assert forall|t: int| 0 <= t < out@.len() implies self.known((#[trigger] out@[t]).0, out@[t].1) && self.value_of(
                    out@[t].0,
                    out@[t].1,
                ) == Some(out@[t].2) && 0 <= from2[t] < idx + 1 && self.position(out@[t].0, out@[t].1).0
                    == *it.seq()[from2[t]].0 by {
                    if t < before.len() {
                        assert(out@[t] == before[t]);
                    }
                }
                assert forall|s: int, t: int| 0 <= s < t < out@.len() implies before_in_tiles(
                    self.position((#[trigger] out@[s]).0, out@[s].1),
                    self.position((#[trigger] out@[t]).0, out@[t].1),
                ) by {
                    if t < before.len() {
                        assert(out@[s] == before[s] && out@[t] == before[t]);
                    } else if s < before.len() {
                        assert(out@[s] == before[s]);
                        let ps = from[s];
                        assert(keys[ps] == *it.seq()[ps].0);
                        assert(keys[idx] == *key);
                        lemma_keys_increase(keys, ps, idx);
                    }
                }
                assert forall|p: int, i: int| 0 <= p < idx + 1 && (#[trigger] it.seq()[p].1.value_at(i)) is Some implies exists|t: int|
                    0 <= t < out@.len() && self.position(out@[t].0, out@[t].1) == (*it.seq()[p].0, i) by {
                    if p < idx {
                        let t = choose|t: int| 0 <= t < before.len() && self.position(before[t].0, before[t].1) == (*it.seq()[p].0, i);
                        assert(out@[t] == before[t]);
                    } else {
                        assert(tile.value_at(i) is Some);
                    }
                }
                from = from2;
                self.lemma_all_listed(it.seq(), idx + 1, out@);
            }
        }
        out
    }

    /// Once every tile has been walked, every present cell has been listed.
    proof fn lemma_all_listed(&self, s: Seq<(&(u32, u32), &Tile)>, n: int, out: Seq<(OpId, OpId, Value)>)
        requires
            self.wf(),
            0 <= n <= s.len(),
            forall|k: (u32, u32)| #[trigger] self.tiles@.contains_key(k) ==> s.contains((&k, &self.tiles@[k])),
            forall|t: int|
                0 <= t < out.len() ==> self.known((#[trigger] out[t]).0, out[t].1),
            forall|p: int, i: int|
                0 <= p < n && (#[trigger] s[p].1.value_at(i)) is Some ==> exists|t: int|
                    0 <= t < out.len() && self.position(out[t].0, out[t].1) == (*s[p].0, i),
        ensures
            n == s.len() ==> forall|row: OpId, col: OpId|
                (#[trigger] self.value_of(row, col)) is Some ==> exists|t: int| 0 <= t < out.len() && out[t].0 == row && out[t].1 == col,
    {
        if n == s.len() {
            assert forall|row: OpId, col: OpId| (#[trigger] self.value_of(row, col)) is Some implies exists|t: int|
                0 <= t < out.len() && out[t].0 == row && out[t].1 == col by {
                let rs = self.row_slot(row);
                let cs = self.col_slot(col);
                let (k, i) = tile_of(rs, cs);
                assert(self.tiles@.contains_key(k));
                assert(s.contains((&k, &self.tiles@[k])));
                let p = choose|p: int| 0 <= p < s.len() && s[p] == (&k, &self.tiles@[k]);
                assert(s[p].1.value_at(i) is Some);
                let t = choose|t: int| 0 <= t < out.len() && self.position(out[t].0, out[t].1) == (*s[p].0, i);
                self.rows.lemma_len_bound();
                self.cols.lemma_len_bound();
                let rs2 = self.row_slot(out[t].0);
                let cs2 = self.col_slot(out[t].1);
                assert(self.known(out[t].0, out[t].1));
                lemma_tile_of_injective(rs, cs, rs2, cs2);
                assert(self.rows.ids_view()[rs] == row);
                assert(self.rows.ids_view()[rs2] == out[t].0);
                assert(self.cols.ids_view()[cs] == col);
                assert(self.cols.ids_view()[cs2] == out[t].1);
            }
        }
    }
}

/// The cells present in bitmap `a` and marked in bitmap `b`.
pub open spec fn both_words(a: Seq<u64>, b: Seq<u64>) -> Seq<u64> {
    Seq::new(256, |k: int| a[k] & b[k])
}

impl Tile {
    /// The tile's presence bitmap.
    pub closed spec fn present_words(&self) -> Seq<u64> {
        self.presence.words_view()
    }

    /// How many cells the tile holds.
    pub closed spec fn cell_count(&self) -> nat {
        self.presence.count_view()
    }
}

impl TileStore {
    /// Cells held by the tiles `keys`.
    pub open spec fn cells_over(&self, keys: Seq<(u32, u32)>) -> nat
        decreases keys.len(),
    {
        if keys.len() == 0 {
            0
        } else {
            self.cells_over(keys.drop_last()) + match self.tile_at(keys.last()) {
                Some(t) => t.cell_count(),
                None => 0,
            }
        }
    }

    /// How many of the tiles `keys` have contested cells.
    pub open spec fn promoted_tiles_over(&self, keys: Seq<(u32, u32)>) -> nat
        decreases keys.len(),
    {
        if keys.len() == 0 {
            0
        } else {
            self.promoted_tiles_over(keys.drop_last()) + if self.marks().contains_key(keys.last()) {
                1nat
            } else {
                0nat
            }
        }
    }

    /// Present contested cells of the tiles `keys`: the cells carrying
    /// per-cell metadata.
    pub open spec fn promoted_over(&self, keys: Seq<(u32, u32)>) -> nat
        decreases keys.len(),
    {
        if keys.len() == 0 {
            0
        } else {
            self.promoted_over(keys.drop_last()) + match self.tile_at(keys.last()) {
                Some(t) => if self.marks().contains_key(keys.last()) {
                    count_below(both_words(t.present_words(), self.marks()[keys.last()]@), 16384)
                } else {
                    0
                },
                None => 0,
            }
        }
    }

    /// The present contested cells of one tile, counted word by word.
    fn promoted_in(tile: &Tile, bitmap: &[u64; 256]) -> (r: usize)
        requires
            tile.presence.wf(),
        ensures
            r == count_below(both_words(tile.present_words(), bitmap@), 16384),
            r <= 16384,
    {
        let ghost both = both_words(tile.present_words(), bitmap@);
        let mut n: usize = 0;
        let mut w: usize = 0;
        while w < 256
            invariant
                w <= 256,
                tile.presence.wf(),
                both == both_words(tile.present_words(), bitmap@),
                n == words_sum(both, w as nat),
                n <= 64 * w,
            decreases 256 - w,
        {
            let word = tile.presence.word(w) & bitmap[w];
            assert(word == both[w as int]);
            proof {
                lemma_bits_below_bound(word, 64);
            }
            n = n + ones(word) as usize;
            w = w + 1;
        }
        proof {
            lemma_count_by_words(both, 255, 64);
        }
        n
    }

    /// Where tile metadata sits: how many tiles and cells there are, and how
    /// many of each carry per-cell stamps.
    pub fn promotion_stats(&self) -> (r: PromotionStats)
        requires
            self.wf(),
            self.tile_keys().len() * 16384 <= usize::MAX,
        ensures
            r.tiles == self.tile_keys().len(),
            exists|keys: Seq<(u32, u32)>|
                #![trigger self.cells_over(keys)]
                crate::axis::in_order(keys, self.tile_keys()) && r.cells == self.cells_over(keys) && r.promoted_tiles
                    == self.promoted_tiles_over(keys) && r.promoted_cells == self.promoted_over(keys),
    {
        let mut s = PromotionStats { tiles: 0, promoted_tiles: 0, cells: 0, promoted_cells: 0 };
        let ghost mut keys: Seq<(u32, u32)> = Seq::empty();
        proof {
            if self.tiles@.dom().len() == 0 {
                self.tiles@.dom().lemma_len0_is_empty();
                assert(keys.to_set() =~= self.tiles@.dom());
            }
        }
        for kv in it: self.tiles.iter()
            invariant
                self.wf(),
                self.tile_keys().len() * 16384 <= usize::MAX,
                it.seq().len() == self.tiles@.dom().len(),
                forall|i: int|
                    0 <= i < it.seq().len() ==> self.tiles@.contains_key(*#[trigger] it.seq()[i].0)
                        && self.tiles@[*it.seq()[i].0] == *it.seq()[i].1,
                forall|k: (u32, u32)| #[trigger] self.tiles@.contains_key(k) ==> it.seq().contains((&k, &self.tiles@[k])),
                increasing_seq(it.seq().map_values(|kv: (&(u32, u32), &Tile)| *kv.0)),
                keys == it.seq().take(it.index()).map_values(|kv: (&(u32, u32), &Tile)| *kv.0),
                s.tiles == keys.len(),
                s.cells == self.cells_over(keys),
                s.promoted_tiles == self.promoted_tiles_over(keys),
                s.promoted_cells == self.promoted_over(keys),
                s.cells <= 16384 * keys.len(),
                s.promoted_cells <= 16384 * keys.len(),
                s.promoted_tiles <= keys.len(),
                it.index() == it.seq().len() ==> crate::axis::in_order(keys, self.tiles@.dom()),
        {
            let (key, tile) = kv;
            let ghost idx = it.index();
            proof {
                assert(*it.seq()[idx].0 == *key && *it.seq()[idx].1 == *tile);
                assert(tile.wf(self.marks_of(*key)));
                lemma_count_below_bound(tile.presence.words_view(), 16384);
                assert(keys.len() == idx);
                assert(idx < self.tiles@.dom().len());
                assert((keys.len() + 1) * 16384 <= self.tile_keys().len() * 16384) by (nonlinear_arith)
                    requires
                        keys.len() + 1 <= self.tile_keys().len(),
                ;
            }
            s.tiles = s.tiles + 1;
            s.cells = s.cells + tile.presence.count() as usize;
            match self.contested.get(key) {
                Some(bitmap) => {
                    s.promoted_tiles = s.promoted_tiles + 1;
                    s.promoted_cells = s.promoted_cells + Self::promoted_in(tile, bitmap);
                },
                None => {},
            }
            proof {
                let k2 = keys.push(*key);
                assert(k2.drop_last() =~= keys);
                assert(self.tile_at(*key) == Some(*tile));
                keys = k2;
                assert(keys =~= it.seq().take(idx + 1).map_values(|kv: (&(u32, u32), &Tile)| *kv.0));
                crate::axis::lemma_in_order_when_done(self.tiles@, it.seq(), idx + 1);
            }
        }
        proof {
            assert(self.tile_keys() == self.tiles@.dom());
        }
        s
    }
}

} // verus!
