//! The never-drop outbound queue. Local ops wait here, in authoring order,
//! until a peer's watermark acknowledges them; acknowledgement is the only
//! way an op leaves. Sending, losing the link, revocation and rebasing can at
//! most mark an op unsent again.

use vstd::prelude::*;
use crate::sync::{held, SyncOp, VectorClock};
use crate::types::OpId;

verus! {

broadcast use vstd::seq_lib::group_seq_properties;

/// The ops of queued entries, in order.
pub open spec fn ops_of(s: Seq<(SyncOp, bool)>) -> Seq<SyncOp> {
    s.map_values(|e: (SyncOp, bool)| e.0)
}

/// The entries not yet put on the wire, in order.
pub open spec fn unsent_of(s: Seq<(SyncOp, bool)>) -> Seq<SyncOp>
    decreases s.len(),
{
    if s.len() == 0 {
        Seq::empty()
    } else if !s.last().1 {
        unsent_of(s.drop_last()).push(s.last().0)
    } else {
        unsent_of(s.drop_last())
    }
}

/// Whether a watermark covers an op.
pub open spec fn covered(m: Map<u128, u64>, id: OpId) -> bool {
    held(m, id.actor.0) >= id.counter
}

/// The entries a watermark does not cover, in order.
pub open spec fn unacked(s: Seq<(SyncOp, bool)>, m: Map<u128, u64>) -> Seq<(SyncOp, bool)>
    decreases s.len(),
{
    if s.len() == 0 {
        Seq::empty()
    } else if !covered(m, s.last().0.id) {
        unacked(s.drop_last(), m).push(s.last())
    } else {
        unacked(s.drop_last(), m)
    }
}

/// Some entry holds an op with this id.
pub open spec fn holds(s: Seq<(SyncOp, bool)>, id: OpId) -> bool {
    exists|i: int| 0 <= i < s.len() && #[trigger] s[i].0.id == id
}

/// No op is queued twice.
pub open spec fn ids_distinct(s: Seq<(SyncOp, bool)>) -> bool {
    forall|i: int, j: int| 0 <= i < j < s.len() ==> #[trigger] s[i].0.id != #[trigger] s[j].0.id
}

/// Every entry marked as sent (`true`) or unsent (`false`), ops unchanged.
pub open spec fn marked(s: Seq<(SyncOp, bool)>, sent: bool) -> Seq<(SyncOp, bool)> {
    s.map_values(|e: (SyncOp, bool)| (e.0, sent))
}

/// What an acknowledgement keeps: exactly the queued ops it does not cover,
/// and nothing is queued twice afterwards if it was not before.
pub proof fn lemma_unacked(s: Seq<(SyncOp, bool)>, m: Map<u128, u64>)
    ensures
        forall|id: OpId| holds(unacked(s, m), id) <==> holds(s, id) && !covered(m, id),
        ids_distinct(s) ==> ids_distinct(unacked(s, m)),
        unacked(s, m).len() <= s.len(),
    decreases s.len(),
{
    if s.len() > 0 {
        let t = s.drop_last();
        lemma_unacked(t, m);
        let u = unacked(t, m);
        assert forall|id: OpId| holds(unacked(s, m), id) <==> holds(s, id) && !covered(m, id) by {
            if holds(s, id) {
                let i = choose|i: int| 0 <= i < s.len() && #[trigger] s[i].0.id == id;
                if i < t.len() {
                    assert(t[i].0.id == id);
                }
            }
            if holds(t, id) {
                let i = choose|i: int| 0 <= i < t.len() && #[trigger] t[i].0.id == id;
                assert(s[i].0.id == id);
            }
            if !covered(m, s.last().0.id) {
                let r = u.push(s.last());
                if holds(u, id) {
                    let i = choose|i: int| 0 <= i < u.len() && #[trigger] u[i].0.id == id;
                    assert(r[i].0.id == id);
                }
                if holds(r, id) {
                    let i = choose|i: int| 0 <= i < r.len() && #[trigger] r[i].0.id == id;
                    if i < u.len() {
                        assert(u[i].0.id == id);
                    }
                }
                assert(r[u.len() as int] == s.last());
            }
        }
        if ids_distinct(s) {
            assert(ids_distinct(t));
            if !covered(m, s.last().0.id) {
                let r = u.push(s.last());
                if !ids_distinct(r) {
                    let (i, j) = choose|i: int, j: int|
                        0 <= i < j < r.len() && #[trigger] r[i].0.id == #[trigger] r[j].0.id;
                    assert(j == u.len());
                    assert(holds(u, r[i].0.id));
                    assert(holds(t, s.last().0.id));
                    let k = choose|k: int| 0 <= k < t.len() && #[trigger] t[k].0.id == s.last().0.id;
                    assert(s[k].0.id == s[s.len() - 1].0.id);
                }
            }
        }
    }
}

/// Local ops that no peer has acknowledged yet, in authoring order, each
/// marked with whether it has been put on the wire.
#[derive(Clone, Debug)]
pub struct Queue {
    entries: Vec<(SyncOp, bool)>,
}

impl Queue {
    /// The queued ops with their sent marks.
    pub closed spec fn view(&self) -> Seq<(SyncOp, bool)> {
        self.entries@
    }

    /// Nothing is queued twice.
    pub open spec fn wf(&self) -> bool {
        ids_distinct(self.view())
    }

    pub fn new() -> (r: Queue)
        ensures
            r.view() == Seq::<(SyncOp, bool)>::empty(),
            r.wf(),
    {
        Queue { entries: Vec::new() }
    }

    /// Records a locally authored op, unsent; an op already queued is not
    /// queued again.
    pub fn enqueue(&mut self, op: SyncOp)
        requires
            old(self).wf(),
        ensures
            final(self).wf(),
            holds(old(self).view(), op.id) ==> final(self).view() == old(self).view(),
            !holds(old(self).view(), op.id) ==> final(self).view() == old(self).view().push(
                (op, false),
            ),
    {
        let ghost start = self.entries@;
        let n = self.entries.len();
        let mut i: usize = 0;
        while i < n
            invariant
                n == self.entries@.len(),
                self.entries@ == start,
                ids_distinct(start),
                i <= n,
                forall|j: int| 0 <= j < i ==> self.entries@[j].0.id != op.id,
            decreases n - i,
        {
            if self.entries[i].0.id == op.id {
                assert(start[i as int].0.id == op.id);
                return;
            }
            i = i + 1;
        }
        self.entries.push((op, false));
        proof {
            let s = self.entries@;
            assert(s == old(self).view().push((op, false)));
            assert forall|a: int, b: int| 0 <= a < b < s.len() implies #[trigger] s[a].0.id
                != #[trigger] s[b].0.id by {
                if b == n {
                    assert(old(self).view()[a].0.id != op.id);
                }
            }
        }
    }

    /// The ops not yet put on the wire, in authoring order, now marked sent.
    pub fn take_unsent(&mut self) -> (r: Vec<SyncOp>)
        requires
            old(self).wf(),
        ensures
            final(self).wf(),
            r@ == unsent_of(old(self).view()),
            final(self).view() == marked(old(self).view(), true),
    {
        let ghost start = self.entries@;
        let n = self.entries.len();
        let mut out: Vec<SyncOp> = Vec::new();
        let mut i: usize = 0;
        while i < n
            invariant
                n == start.len(),
                self.entries@.len() == n,
                i <= n,
                out@ == unsent_of(start.take(i as int)),
                forall|j: int| 0 <= j < i ==> #[trigger] self.entries@[j] == (start[j].0, true),
                forall|j: int| i <= j < n ==> #[trigger] self.entries@[j] == start[j],
            decreases n - i,
        {
            let (op, sent) = self.entries[i];
            assert(start.take(i + 1).drop_last() == start.take(i as int));
            if !sent {
                self.entries.set(i, (op, true));
                out.push(op);
            }
            i = i + 1;
        }
        proof {
            assert(start.take(n as int) == start);
            assert(self.entries@ =~= marked(start, true));
        }
        out
    }

    /// Every queued op, sent or not, in authoring order: what a fresh
    /// session must offer again.
    pub fn all(&self) -> (r: Vec<SyncOp>)
        ensures
            r@ == ops_of(self.view()),
    {
        let n = self.entries.len();
        let mut out: Vec<SyncOp> = Vec::new();
        let mut i: usize = 0;
        while i < n
            invariant
                n == self.entries@.len(),
                i <= n,
                out@ == ops_of(self.entries@).take(i as int),
            decreases n - i,
        {
            out.push(self.entries[i].0);
            i = i + 1;
            proof {
                assert(out@ =~= ops_of(self.entries@).take(i as int));
            }
        }
        proof {
            assert(ops_of(self.entries@).take(n as int) =~= ops_of(self.entries@));
        }
        out
    }

    /// Marks every queued op unsent, so that a reconnect offers it again.
    pub fn mark_all_unsent(&mut self)
        requires
            old(self).wf(),
        ensures
            final(self).wf(),
            final(self).view() == marked(old(self).view(), false),
    {
        let ghost start = self.entries@;
        let n = self.entries.len();
        let mut i: usize = 0;
        while i < n
            invariant
                n == start.len(),
                self.entries@.len() == n,
                i <= n,
                forall|j: int| 0 <= j < i ==> #[trigger] self.entries@[j] == (start[j].0, false),
                forall|j: int| i <= j < n ==> #[trigger] self.entries@[j] == start[j],
            decreases n - i,
        {
            let op = self.entries[i].0;
            self.entries.set(i, (op, false));
            i = i + 1;
        }
        proof {
            assert(self.entries@ =~= marked(start, false));
        }
    }

    /// Removes the ops the watermark proves a peer holds, and only those;
    /// returns how many left. The only removal there is.
    pub fn ack(&mut self, watermark: &VectorClock) -> (r: usize)
        requires
            old(self).wf(),
        ensures
            final(self).wf(),
            final(self).view() == unacked(old(self).view(), watermark.view()),
            r == old(self).view().len() - final(self).view().len(),
            forall|id: OpId|
                holds(final(self).view(), id) <==> holds(old(self).view(), id) && !covered(
                    watermark.view(),
                    id,
                ),
    {
        let ghost start = self.entries@;
        let n = self.entries.len();
        let mut kept: Vec<(SyncOp, bool)> = Vec::new();
        let mut i: usize = 0;
        while i < n
            invariant
                n == start.len(),
                self.entries@ == start,
                i <= n,
                kept@ == unacked(start.take(i as int), watermark.view()),
            decreases n - i,
        {
            let e = self.entries[i];
            assert(start.take(i + 1).drop_last() == start.take(i as int));
            if !watermark.covers(e.0.id) {
                kept.push(e);
            }
            i = i + 1;
        }
        proof {
            assert(start.take(n as int) == start);
            lemma_unacked(start, watermark.view());
        }
        self.entries = kept;
        n - self.entries.len()
    }

    pub fn len(&self) -> (r: usize)
        ensures
            r == self.view().len(),
    {
        self.entries.len()
    }

    pub fn is_empty(&self) -> (r: bool)
        ensures
            r == (self.view().len() == 0),
    {
        self.entries.len() == 0
    }

    /// Whether every queued op has been put on the wire at least once.
    pub fn all_sent(&self) -> (r: bool)
        ensures
            r == (forall|j: int| 0 <= j < self.view().len() ==> #[trigger] self.view()[j].1),
    {
        let n = self.entries.len();
        let mut i: usize = 0;
        while i < n
            invariant
                n == self.entries@.len(),
                i <= n,
                forall|j: int| 0 <= j < i ==> #[trigger] self.entries@[j].1,
            decreases n - i,
        {
            if !self.entries[i].1 {
                assert(!self.view()[i as int].1);
                return false;
            }
            i = i + 1;
        }
        true
    }

    /// Whether an op with this op's id is queued.
    pub fn contains(&self, op: &SyncOp) -> (r: bool)
        ensures
            r == holds(self.view(), op.id),
    {
        let n = self.entries.len();
        let mut i: usize = 0;
        while i < n
            invariant
                n == self.entries@.len(),
                i <= n,
                forall|j: int| 0 <= j < i ==> self.entries@[j].0.id != op.id,
            decreases n - i,
        {
            if self.entries[i].0.id == op.id {
                return true;
            }
            i = i + 1;
        }
        false
    }
}

} // verus!
