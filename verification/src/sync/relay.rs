//! The relay: retention, fanout and admission control, never a merge
//! authority. Each connection's ops must be authored by the principal that
//! authenticated it, pass per-actor token buckets on rate and bytes, and pass
//! validation; admitted ops are retained once and fanned out.

use vstd::prelude::*;
use std::collections::BTreeMap;
use crate::sync::{held, refill_tokens, AdmissionError, Bucket, SyncOp, VectorClock};
use crate::sync::machine::{frontier_over, lacking};
use crate::types::{ActorId, OpId};

verus! {

broadcast use vstd::std_specs::btree::group_btree_axioms, vstd::laws_cmp::group_laws_cmp,
    vstd::seq_lib::group_seq_properties;

/// Ops a second an actor may sustain.
pub const RATE_OPS_PER_SEC: u32 = 200;
/// Burst depth, in ops.
pub const RATE_BURST_OPS: u32 = 2_000;
/// Bytes a second an actor may sustain.
pub const RATE_BYTES_PER_SEC: u32 = 1_048_576;
/// Burst depth, in bytes.
pub const RATE_BURST_BYTES: u32 = 8_388_608;

/// An op as a connection submitted it: its header, the size of its
/// encoding, and whether it passed schema and bounds validation.
#[derive(Clone, Copy, PartialEq, Eq, Structural, Debug)]
pub struct Submitted {
    pub op: SyncOp,
    pub encoded_len: u64,
    pub valid: bool,
}

/// What one submission came to.
#[derive(Debug)]
pub struct Admission {
    /// Admitted ops, in submission order, to send to every other subscriber.
    pub fanout: Vec<SyncOp>,
    /// Refused ops with the reason.
    pub refused: Vec<(SyncOp, AdmissionError)>,
    /// The relay's clock after the batch.
    pub watermark: VectorClock,
}

/// Some retained op has this id.
pub open spec fn has_id(s: Seq<SyncOp>, id: OpId) -> bool {
    exists|i: int| 0 <= i < s.len() && #[trigger] s[i].id == id
}

/// A clock after observing one op.
pub open spec fn observe_one(m: Map<u128, u64>, id: OpId) -> Map<u128, u64> {
    m.insert(
        id.actor.0,
        if id.counter >= 1 && id.counter - 1 == held(m, id.actor.0) {
            id.counter
        } else {
            held(m, id.actor.0)
        },
    )
}

/// A submission by principal `p`, op by op, from rate tokens `rate`, byte
/// tokens `bytes`, the retained ops and the relay's clock: the tokens left,
/// the ops retained, the clock, the fanout and the refusals. An op by
/// another actor is spoofed; otherwise it takes a rate token, then its size
/// in byte tokens, then must be valid; an admitted op is retained and
/// observed unless an op with its id already is, and is fanned out either way.
pub open spec fn admitted(
    p: u128,
    ops: Seq<Submitted>,
    rate: u64,
    bytes: u64,
    retained: Seq<SyncOp>,
    clock: Map<u128, u64>,
) -> (u64, u64, Seq<SyncOp>, Map<u128, u64>, Seq<SyncOp>, Seq<(SyncOp, AdmissionError)>)
    decreases ops.len(),
{
    if ops.len() == 0 {
        (rate, bytes, retained, clock, Seq::empty(), Seq::empty())
    } else {
        admit_step(p, admitted(p, ops.drop_last(), rate, bytes, retained, clock), ops.last())
    }
}

/// One op of a submission, from the state the ops before it left.
pub open spec fn admit_step(
    p: u128,
    st: (u64, u64, Seq<SyncOp>, Map<u128, u64>, Seq<SyncOp>, Seq<(SyncOp, AdmissionError)>),
    s: Submitted,
) -> (u64, u64, Seq<SyncOp>, Map<u128, u64>, Seq<SyncOp>, Seq<(SyncOp, AdmissionError)>) {
    if s.op.id.actor.0 != p {
        (st.0, st.1, st.2, st.3, st.4, st.5.push((s.op, AdmissionError::Spoofed)))
    } else if st.0 < 1 {
        (st.0, st.1, st.2, st.3, st.4, st.5.push((s.op, AdmissionError::RateLimited)))
    } else if st.1 < s.encoded_len {
        ((st.0 - 1) as u64, st.1, st.2, st.3, st.4, st.5.push((s.op, AdmissionError::ByteLimited)))
    } else if !s.valid {
        (
            (st.0 - 1) as u64,
            (st.1 - s.encoded_len) as u64,
            st.2,
            st.3,
            st.4,
            st.5.push((s.op, AdmissionError::Invalid)),
        )
    } else if has_id(st.2, s.op.id) {
        ((st.0 - 1) as u64, (st.1 - s.encoded_len) as u64, st.2, st.3, st.4.push(s.op), st.5)
    } else {
        (
            (st.0 - 1) as u64,
            (st.1 - s.encoded_len) as u64,
            st.2.push(s.op),
            observe_one(st.3, s.op.id),
            st.4.push(s.op),
            st.5,
        )
    }
}

/// No op is retained twice.
pub open spec fn retained_once(s: Seq<SyncOp>) -> bool {
    forall|i: int, j: int| 0 <= i < j < s.len() ==> #[trigger] s[i].id != #[trigger] s[j].id
}

/// The relay fans out only ops authored by the submitting principal, and
/// retains no op twice.
pub proof fn lemma_admission_is_authored(
    p: u128,
    ops: Seq<Submitted>,
    rate: u64,
    bytes: u64,
    retained: Seq<SyncOp>,
    clock: Map<u128, u64>,
)
    requires
        retained_once(retained),
    ensures
        ({
            let run = admitted(p, ops, rate, bytes, retained, clock);
            &&& forall|i: int| 0 <= i < run.4.len() ==> (#[trigger] run.4[i]).id.actor.0 == p
            &&& forall|i: int| 0 <= i < run.5.len() && (#[trigger] run.5[i]).1 != AdmissionError::Spoofed
                ==> run.5[i].0.id.actor.0 == p
            &&& retained_once(run.2)
        }),
    decreases ops.len(),
{
    if ops.len() > 0 {
        lemma_admission_is_authored(p, ops.drop_last(), rate, bytes, retained, clock);
        let prev = admitted(p, ops.drop_last(), rate, bytes, retained, clock);
        let s = ops.last();
        let run = admitted(p, ops, rate, bytes, retained, clock);
        assert(run == admit_step(p, prev, s));
        if s.op.id.actor.0 == p && prev.0 >= 1 && prev.1 >= s.encoded_len && s.valid && !has_id(
            prev.2,
            s.op.id,
        ) {
            assert forall|i: int, j: int| 0 <= i < j < run.2.len() implies #[trigger] run.2[i].id
                != #[trigger] run.2[j].id by {
                if j == prev.2.len() {
                    assert(prev.2[i] == run.2[i]);
                    if run.2[i].id == s.op.id {
                        assert(has_id(prev.2, s.op.id));
                    }
                } else {
                    assert(prev.2[i] == run.2[i] && prev.2[j] == run.2[j]);
                }
            }
        }
        assert forall|i: int| 0 <= i < run.4.len() implies (#[trigger] run.4[i]).id.actor.0 == p by {
            if i < prev.4.len() {
                assert(run.4[i] == prev.4[i]);
            }
        }
        assert forall|i: int| 0 <= i < run.5.len() && (#[trigger] run.5[i]).1 != AdmissionError::Spoofed
            implies run.5[i].0.id.actor.0 == p by {
            if i < prev.5.len() {
                assert(run.5[i] == prev.5[i]);
            }
        }
    }
}

/// Retained ops, the relay's clock, and each principal's rate and byte
/// buckets.
pub struct Relay {
    retained: Vec<SyncOp>,
    clock: VectorClock,
    peers: BTreeMap<u128, (Bucket, Bucket)>,
}

impl Relay {
    pub closed spec fn retained_view(&self) -> Seq<SyncOp> {
        self.retained@
    }

    pub closed spec fn clock_view(&self) -> Map<u128, u64> {
        self.clock.view()
    }

    pub closed spec fn peers_view(&self) -> Map<u128, (Bucket, Bucket)> {
        self.peers@
    }

    /// Every bucket keeps its invariant, and no op is retained twice.
    pub open spec fn wf(&self) -> bool {
        &&& retained_once(self.retained_view())
        &&& forall|k: u128| #[trigger]
            self.peers_view().contains_key(k) ==> self.peers_view()[k].0.wf()
                && self.peers_view()[k].1.wf()
    }

    /// The rate tokens principal `p` starts a submission at `now_ms` with.
    pub open spec fn rate_start(&self, p: u128, now_ms: u64) -> u64 {
        if self.peers_view().contains_key(p) {
            let b = self.peers_view()[p].0;
            refill_tokens(b.tokens(), b.burst(), b.per_sec(), b.last_refill(), now_ms)
        } else {
            refill_tokens(RATE_BURST_OPS as u64, RATE_BURST_OPS as u64, RATE_OPS_PER_SEC as u64, 0, now_ms)
        }
    }

    /// The byte tokens principal `p` starts a submission at `now_ms` with.
    pub open spec fn bytes_start(&self, p: u128, now_ms: u64) -> u64 {
        if self.peers_view().contains_key(p) {
            let b = self.peers_view()[p].1;
            refill_tokens(b.tokens(), b.burst(), b.per_sec(), b.last_refill(), now_ms)
        } else {
            refill_tokens(
                RATE_BURST_BYTES as u64,
                RATE_BURST_BYTES as u64,
                RATE_BYTES_PER_SEC as u64,
                0,
                now_ms,
            )
        }
    }

    pub fn new() -> (r: Relay)
        ensures
            r.wf(),
            r.retained_view().len() == 0,
            r.clock_view() == Map::<u128, u64>::empty(),
            r.peers_view() == Map::<u128, (Bucket, Bucket)>::empty(),
    {
        Relay { retained: Vec::new(), clock: VectorClock::new(), peers: BTreeMap::new() }
    }

    /// Every op the relay has admitted, once each, in admission order.
    pub fn retained(&self) -> (r: &[SyncOp])
        ensures
            r@ == self.retained_view(),
    {
        self.retained.as_slice()
    }

    /// Retained ops the peer's clock says it lacks, in admission order.
    pub fn ops_missing_from(&self, peer: &VectorClock) -> (r: Vec<SyncOp>)
        ensures
            r@ == lacking(self.retained_view(), peer.view()),
    {
        let n = self.retained.len();
        let mut out: Vec<SyncOp> = Vec::new();
        let mut i: usize = 0;
        while i < n
            invariant
                n == self.retained@.len(),
                i <= n,
                out@ == lacking(self.retained@.take(i as int), peer.view()),
            decreases n - i,
        {
            let op = self.retained[i];
            assert(self.retained@.take(i + 1).drop_last() == self.retained@.take(i as int));
            if !peer.covers(op.id) {
                out.push(op);
            }
            i = i + 1;
        }
        assert(self.retained@.take(n as int) == self.retained@);
        out
    }

    pub fn clock(&self) -> (r: &VectorClock)
        ensures
            r.view() == self.clock_view(),
    {
        &self.clock
    }

    /// The greatest Lamport stamp retained, or 0: the bound validation
    /// checks submitted stamps against.
    pub fn frontier_lamport(&self) -> (r: u64)
        ensures
            r == frontier_over(0, self.retained_view()),
    {
        let n = self.retained.len();
        let mut f: u64 = 0;
        let mut i: usize = 0;
        while i < n
            invariant
                n == self.retained@.len(),
                i <= n,
                f == frontier_over(0, self.retained@.take(i as int)),
            decreases n - i,
        {
            assert(self.retained@.take(i + 1).drop_last() == self.retained@.take(i as int));
            if self.retained[i].lamport > f {
                f = self.retained[i].lamport;
            }
            i = i + 1;
        }
        assert(self.retained@.take(n as int) == self.retained@);
        f
    }

    /// Admits a principal's batch at `now_ms`: the principal's buckets are
    /// refilled, then each op is admitted or refused as `admitted` says.
    /// Admitted ops are retained once and all fanned out; the watermark is
    /// the relay's clock after the batch. Other principals' buckets are
    /// untouched.
    #[verifier::rlimit(60)]
    #[verifier::spinoff_prover]
    pub fn submit(&mut self, principal: ActorId, ops: Vec<Submitted>, now_ms: u64) -> (r: Admission)
        requires
            old(self).wf(),
        ensures
            final(self).wf(),
            ({
                let run = admitted(
                    principal.0,
                    ops@,
                    old(self).rate_start(principal.0, now_ms),
                    old(self).bytes_start(principal.0, now_ms),
                    old(self).retained_view(),
                    old(self).clock_view(),
                );
                &&& final(self).retained_view() == run.2
                &&& final(self).clock_view() == run.3
                &&& r.fanout@ == run.4
                &&& r.refused@ == run.5
                &&& r.watermark.view() == run.3
                &&& final(self).peers_view().contains_key(principal.0)
                &&& final(self).peers_view()[principal.0].0.tokens() == run.0
                &&& final(self).peers_view()[principal.0].1.tokens() == run.1
            }),
            forall|i: int| 0 <= i < r.fanout@.len() ==> (#[trigger] r.fanout@[i]).id.actor == principal,
            forall|k: u128|
                k != principal.0 ==> (#[trigger] final(self).peers_view().contains_key(k)
                    <==> old(self).peers_view().contains_key(k)) && (final(self).peers_view().contains_key(k)
                    ==> final(self).peers_view()[k] == old(self).peers_view()[k]),
    {
        let ghost p = principal.0;
        let had = self.peers.remove(&principal.0);
        let (mut rate, mut bytes) = match had {
            Some(pair) => pair,
            None => (
                Bucket::new(RATE_OPS_PER_SEC, RATE_BURST_OPS),
                Bucket::new(RATE_BYTES_PER_SEC, RATE_BURST_BYTES),
            ),
        };
        proof {
            if old(self).peers_view().contains_key(p) {
                assert(old(self).peers_view()[p].0.wf());
            }
        }
        rate.refill(now_ms);
        bytes.refill(now_ms);
        let ghost r0 = rate.tokens();
        let ghost b0 = bytes.tokens();
        let ghost ret0 = self.retained@;
        let ghost m0 = self.clock.view();
        let ghost peers_mid = self.peers@;
        assert(r0 == old(self).rate_start(p, now_ms));
        assert(b0 == old(self).bytes_start(p, now_ms));
        let mut fanout: Vec<SyncOp> = Vec::new();
        let mut refused: Vec<(SyncOp, AdmissionError)> = Vec::new();
        let n = ops.len();
        let mut i: usize = 0;
        while i < n
            invariant
                n == ops@.len(),
                p == principal.0,
                i <= n,
                rate.wf(),
                bytes.wf(),
                self.peers@ == peers_mid,
                (rate.tokens(), bytes.tokens(), self.retained@, self.clock.view(), fanout@, refused@)
                    == admitted(p, ops@.take(i as int), r0, b0, ret0, m0),
            decreases n - i,
        {
            let s = ops[i];
            let ghost prev = admitted(p, ops@.take(i as int), r0, b0, ret0, m0);
            let ghost next = admitted(p, ops@.take(i + 1), r0, b0, ret0, m0);
            assert(ops@.take(i + 1).drop_last() == ops@.take(i as int));
            assert(ops@.take(i + 1).last() == s);
            assert(next == admit_step(p, prev, s));
            if s.op.id.actor.0 != principal.0 {
                refused.push((s.op, AdmissionError::Spoofed));
            } else if !rate.take(1) {
                refused.push((s.op, AdmissionError::RateLimited));
            } else if !bytes.take(s.encoded_len) {
                refused.push((s.op, AdmissionError::ByteLimited));
            } else if !s.valid {
                refused.push((s.op, AdmissionError::Invalid));
            } else {
                if !self.retains(s.op.id) {
                    self.clock.observe(s.op.id);
                    self.retained.push(s.op);
                }
                fanout.push(s.op);
            }
            i = i + 1;
        }
        assert(ops@.take(n as int) == ops@);
        proof {
            lemma_admission_is_authored(p, ops@, r0, b0, ret0, m0);
        }
        self.peers.insert(principal.0, (rate, bytes));
        proof {
            assert forall|k: u128| #[trigger] self.peers_view().contains_key(k) implies self.peers_view()[k].0.wf()
                && self.peers_view()[k].1.wf() by {
                if k != p {
                    assert(old(self).peers_view().contains_key(k));
                }
            }
        }
        Admission { fanout, refused, watermark: self.clock.snapshot() }
    }

    /// Whether an op with this id is retained.
    fn retains(&self, id: OpId) -> (r: bool)
        ensures
            r == has_id(self.retained_view(), id),
    {
        let n = self.retained.len();
        let mut i: usize = 0;
        while i < n
            invariant
                n == self.retained@.len(),
                i <= n,
                forall|j: int| 0 <= j < i ==> self.retained@[j].id != id,
            decreases n - i,
        {
            if self.retained[i].id == id {
                return true;
            }
            i = i + 1;
        }
        false
    }
}

} // verus!
