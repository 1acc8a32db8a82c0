//! The replica sync session: a pure transition function from a state and an
//! event to the next state and the actions the shell must perform. No
//! clock, socket or entropy source is read here: time arrives as an event,
//! jitter as an injected seed.

use vstd::prelude::*;
use crate::sync::{Hello, Negotiated, SyncOp, SyncState, VectorClock, MODEL_VERSION, WIRE_VERSION};
use crate::sync::buffer::{offer_result, CausalBuffer};
use crate::sync::queue::{covered, holds, marked, ops_of, unacked, unsent_of, Queue};
use crate::types::{ActorId, OpId};

verus! {

broadcast use vstd::seq_lib::group_seq_properties;

/// First reconnect delay, doubling per attempt.
pub const BACKOFF_BASE_MS: u64 = 500;
/// The reconnect delay never exceeds a minute.
pub const BACKOFF_CAP_MS: u64 = 60_000;
/// Past this many days of watermark gap, a replica rebases from a snapshot.
pub const STALENESS_WINDOW_DAYS: u32 = 180;

/// Remote ops as the receive-side validator split them: those it accepted,
/// and the ids of those it refused.
#[derive(Clone, PartialEq, Eq, Debug)]
pub struct Screened {
    pub accepted: Vec<SyncOp>,
    pub rejected: Vec<OpId>,
}

/// Inbound events: transport and timer facts, protocol messages, local edits.
#[derive(Clone, Debug)]
pub enum Event {
    Connect,
    HelloAck(Negotiated),
    HelloReject { peer_wire: u16 },
    /// Anti-entropy: the peer says what it holds.
    Need(VectorClock),
    /// Anti-entropy: the peer sends ops we lack.
    Give(Screened),
    /// Both sides hold the same set.
    ClocksEqual,
    /// A locally authored op, already applied to local state.
    LocalOp(SyncOp),
    /// Ops pushed by the peer while live.
    RemoteOps(Screened),
    /// The peer acknowledged up to this watermark.
    Ack(VectorClock),
    TransportLoss,
    BackoffElapsed,
    StalenessExceeded { gap_days: u32 },
    /// A snapshot and a migrated op tail replaced the local history.
    RebaseComplete { ops: Vec<SyncOp> },
    AuthRevoked,
}

/// What the shell must do; the session performs no I/O itself.
#[derive(Clone, Debug, PartialEq)]
pub enum Action {
    SendHello(Hello),
    SendOps(Vec<SyncOp>),
    SendNeed(VectorClock),
    SendGive(Vec<SyncOp>),
    /// Validated, causally ready ops for the applier.
    Apply(Vec<SyncOp>),
    /// Refused ops: reported, never applied.
    Report(Vec<OpId>),
    /// How far this replica has durably taken the peer's ops.
    AckWatermark(VectorClock),
    ArmTimer { delay_ms: u64 },
    RequestSnapshot,
    GoReadOnly { peer_wire: u16 },
    /// A (state, event) pair the protocol does not list: logged, nothing done.
    LogUnexpected,
}

/// Whether the protocol lists this event in this state. Revocation is
/// listed in every state, a local edit too.
pub open spec fn listed(s: SyncState, e: Event) -> bool {
    match e {
        Event::AuthRevoked => true,
        Event::LocalOp(_) => true,
        Event::Connect => s is Disconnected,
        Event::BackoffElapsed => s is Backoff,
        Event::HelloAck(_) => s is HelloSent,
        Event::HelloReject { .. } => s is HelloSent,
        Event::Need(_) => s is Syncing,
        Event::Give(_) => s is Syncing,
        Event::ClocksEqual => s is Syncing,
        Event::RemoteOps(_) => s is Live,
        Event::Ack(_) => s is Live || s is Syncing,
        Event::TransportLoss => s is Live || s is Syncing,
        Event::StalenessExceeded { gap_days } => s is Live && gap_days >= STALENESS_WINDOW_DAYS,
        Event::RebaseComplete { .. } => s is RebaseRequired,
    }
}

/// One xorshift step of the jitter seed.
pub open spec fn xorshift(j: u32) -> u32 {
    let a = j ^ (j << 13u32);
    let b = a ^ (a >> 17u32);
    b ^ (b << 5u32)
}

/// The un-jittered delay before reconnect attempt `attempt`: doubling from
/// `BACKOFF_BASE_MS`, capped at `BACKOFF_CAP_MS`.
pub open spec fn backoff_base(attempt: u32) -> u64 {
    let k: u64 = if attempt < 20 { attempt as u64 } else { 20 };
    let b = BACKOFF_BASE_MS * (1u64 << k);
    if b < BACKOFF_CAP_MS { b as u64 } else { BACKOFF_CAP_MS }
}

/// The delay after jitter: within a quarter of the base either side, and
/// never past the cap.
pub open spec fn backoff_delay(attempt: u32, jitter: u32) -> u64 {
    let base = backoff_base(attempt);
    let spread = base / 2;
    let width: u64 = if spread > 1 { spread } else { 1 };
    let d = base - spread / 2 + (jitter as u64) % width;
    if d < BACKOFF_CAP_MS { d as u64 } else { BACKOFF_CAP_MS }
}

/// The queued ops a peer's clock does not cover, in queue order.
pub open spec fn lacking(s: Seq<SyncOp>, m: Map<u128, u64>) -> Seq<SyncOp>
    decreases s.len(),
{
    if s.len() == 0 {
        Seq::empty()
    } else if !covered(m, s.last().id) {
        lacking(s.drop_last(), m).push(s.last())
    } else {
        lacking(s.drop_last(), m)
    }
}

/// A clock after observing these ops in order.
pub open spec fn observed_all(m: Map<u128, u64>, ops: Seq<SyncOp>) -> Map<u128, u64>
    decreases ops.len(),
{
    if ops.len() == 0 {
        m
    } else {
        let prev = observed_all(m, ops.drop_last());
        let id = ops.last().id;
        prev.insert(
            id.actor.0,
            if id.counter >= 1 && id.counter - 1 == crate::sync::held(prev, id.actor.0) {
                id.counter
            } else {
                crate::sync::held(prev, id.actor.0)
            },
        )
    }
}

/// The greatest of a frontier and these ops' Lamport stamps.
pub open spec fn frontier_over(f: u64, ops: Seq<SyncOp>) -> u64
    decreases ops.len(),
{
    if ops.len() == 0 {
        f
    } else {
        let prev = frontier_over(f, ops.drop_last());
        if ops.last().lamport > prev {
            ops.last().lamport
        } else {
            prev
        }
    }
}

/// Where the ops a receipt applies stand among its actions: after the
/// report of refusals, if there were any.
pub open spec fn apply_at(rejected: Seq<OpId>) -> int {
    if rejected.len() > 0 {
        1
    } else {
        0
    }
}

/// The ops a receipt's actions apply, or none.
pub open spec fn released_by(r: Seq<Action>, rejected: Seq<OpId>) -> Seq<SyncOp> {
    let k = apply_at(rejected);
    if 0 <= k < r.len() {
        match r[k] {
            Action::Apply(v) => v@,
            _ => Seq::empty(),
        }
    } else {
        Seq::empty()
    }
}

/// The shape of a receipt's actions: the refusals reported, if any; then,
/// if anything became ready, the ops to apply and the watermark to
/// acknowledge, in that order.
pub open spec fn receipt(r: Seq<Action>, rejected: Seq<OpId>, ready: Seq<SyncOp>, clock: Map<u128, u64>) -> bool {
    let k = apply_at(rejected);
    &&& rejected.len() > 0 ==> (r[0] matches Action::Report(v) && v@ == rejected)
    &&& ready.len() > 0 ==> r.len() == k + 2 && (r[k] matches Action::Apply(v) && v@ == ready) && (
    r[k + 1] matches Action::AckWatermark(c) && c.view() == clock)
    &&& ready.len() == 0 ==> r.len() == k
}

/// A count raised by `n`, stopping at the largest `usize`.
pub open spec fn raised(q: usize, n: int) -> usize {
    if q + n > usize::MAX {
        usize::MAX
    } else {
        (q + n) as usize
    }
}

/// What taking in a screened batch does to a session: the state stays; the
/// refusals are counted and reported; the accepted ops go through the
/// buffer, and what it releases is applied and acknowledged.
pub open spec fn received(old: SyncSession, new: SyncSession, r: Seq<Action>, b: Screened) -> bool {
    let ready = released_by(r, b.rejected@);
    &&& new.state_of() == old.state_of()
    &&& receipt(r, b.rejected@, ready, new.clock_of())
    &&& offer_result(old.held_of(), old.clock_of(), b.accepted@, ready, new.held_of(), new.clock_of())
    &&& new.frontier_of() == frontier_over(old.frontier_of(), ready)
    &&& new.quarantined_of() == raised(old.quarantined_of(), b.rejected@.len() as int)
}

/// Marking entries sent or unsent keeps every queued op.
pub proof fn lemma_marked_keeps(s: Seq<(SyncOp, bool)>, sent: bool)
    ensures
        forall|id: OpId| holds(marked(s, sent), id) <==> holds(s, id),
        marked(s, sent).len() == s.len(),
{
    assert forall|id: OpId| holds(marked(s, sent), id) <==> holds(s, id) by {
        if holds(s, id) {
            let i = choose|i: int| 0 <= i < s.len() && #[trigger] s[i].0.id == id;
            assert(marked(s, sent)[i].0.id == id);
        }
        if holds(marked(s, sent), id) {
            let i = choose|i: int| 0 <= i < s.len() && #[trigger] marked(s, sent)[i].0.id == id;
            assert(s[i].0.id == id);
        }
    }
}

/// One replica's view of one connection.
pub struct SyncSession {
    actor: ActorId,
    state: SyncState,
    queue: Queue,
    clock: VectorClock,
    buffer: CausalBuffer,
    frontier_lamport: u64,
    jitter: u32,
    negotiated: Option<Negotiated>,
    quarantined: usize,
    backoff_attempt: u32,
}

impl SyncSession {
    pub closed spec fn actor_of(&self) -> ActorId {
        self.actor
    }

    pub closed spec fn state_of(&self) -> SyncState {
        self.state
    }

    pub closed spec fn queue_of(&self) -> Seq<(SyncOp, bool)> {
        self.queue.view()
    }

    pub closed spec fn clock_of(&self) -> Map<u128, u64> {
        self.clock.view()
    }

    pub closed spec fn held_of(&self) -> Map<(u128, u64), SyncOp> {
        self.buffer.view()
    }

    pub closed spec fn frontier_of(&self) -> u64 {
        self.frontier_lamport
    }

    pub closed spec fn jitter_of(&self) -> u32 {
        self.jitter
    }

    pub closed spec fn negotiated_of(&self) -> Option<Negotiated> {
        self.negotiated
    }

    pub closed spec fn quarantined_of(&self) -> usize {
        self.quarantined
    }

    pub closed spec fn attempt_of(&self) -> u32 {
        self.backoff_attempt
    }

    /// The queue and the buffer keep their own invariants.
    pub closed spec fn wf(&self) -> bool {
        self.queue.wf() && self.buffer.wf()
    }

    /// A disconnected session with nothing queued. The seed is made odd so
    /// that the jitter sequence never sticks at zero.
    pub fn new(actor: ActorId, jitter_seed: u32) -> (r: SyncSession)
        ensures
            r.wf(),
            r.actor_of() == actor,
            r.state_of() == SyncState::Disconnected,
            r.queue_of().len() == 0,
            r.clock_of() == Map::<u128, u64>::empty(),
            r.held_of() == Map::<(u128, u64), SyncOp>::empty(),
            r.frontier_of() == 0,
            r.jitter_of() == jitter_seed | 1,
            r.negotiated_of() is None,
            r.quarantined_of() == 0,
            r.attempt_of() == 0,
    {
        SyncSession {
            actor,
            state: SyncState::Disconnected,
            queue: Queue::new(),
            clock: VectorClock::new(),
            buffer: CausalBuffer::new(),
            frontier_lamport: 0,
            jitter: jitter_seed | 1,
            negotiated: None,
            quarantined: 0,
            backoff_attempt: 0,
        }
    }

    pub fn state(&self) -> (r: &SyncState)
        ensures
            *r == self.state_of(),
    {
        &self.state
    }

    pub fn clock(&self) -> (r: &VectorClock)
        ensures
            r.view() == self.clock_of(),
    {
        &self.clock
    }

    pub fn queued(&self) -> (r: usize)
        ensures
            r == self.queue_of().len(),
    {
        self.queue.len()
    }

    pub fn queued_ops(&self) -> (r: Vec<SyncOp>)
        ensures
            r@ == ops_of(self.queue_of()),
    {
        self.queue.all()
    }

    pub fn quarantined(&self) -> (r: usize)
        ensures
            r == self.quarantined_of(),
    {
        self.quarantined
    }

    pub fn negotiated(&self) -> (r: Option<Negotiated>)
        ensures
            r == self.negotiated_of(),
    {
        self.negotiated
    }

    pub fn held_by_causal_gap(&self) -> (r: usize)
        ensures
            r == self.held_of().len(),
    {
        self.buffer.held()
    }

    /// The greatest Lamport stamp this replica has seen: the bound the
    /// receive-side validator checks remote stamps against.
    pub fn frontier_lamport(&self) -> (r: u64)
        ensures
            r == self.frontier_of(),
    {
        self.frontier_lamport
    }

    /// Records ops this replica already holds, so the clock summarises them.
    pub fn observe_local_history(&mut self, ops: &[SyncOp])
        requires
            old(self).wf(),
        ensures
            final(self).wf(),
            final(self).clock_of() == observed_all(old(self).clock_of(), ops@),
            final(self).frontier_of() == frontier_over(old(self).frontier_of(), ops@),
            final(self).actor_of() == old(self).actor_of(),
            final(self).state_of() == old(self).state_of(),
            final(self).queue_of() == old(self).queue_of(),
            final(self).held_of() == old(self).held_of(),
            final(self).jitter_of() == old(self).jitter_of(),
            final(self).negotiated_of() == old(self).negotiated_of(),
            final(self).quarantined_of() == old(self).quarantined_of(),
            final(self).attempt_of() == old(self).attempt_of(),
    {
        let n = ops.len();
        let mut i: usize = 0;
        while i < n
            invariant
                n == ops@.len(),
                i <= n,
                self.wf(),
                self.clock.view() == observed_all(old(self).clock_of(), ops@.take(i as int)),
                self.frontier_lamport == frontier_over(old(self).frontier_of(), ops@.take(i as int)),
                self.actor == old(self).actor,
                self.state == old(self).state,
                self.queue == old(self).queue,
                self.buffer == old(self).buffer,
                self.jitter == old(self).jitter,
                self.negotiated == old(self).negotiated,
                self.quarantined == old(self).quarantined,
                self.backoff_attempt == old(self).backoff_attempt,
            decreases n - i,
        {
            let op = ops[i];
            assert(ops@.take(i + 1).drop_last() == ops@.take(i as int));
            self.clock.observe(op.id);
            if op.lamport > self.frontier_lamport {
                self.frontier_lamport = op.lamport;
            }
            i = i + 1;
        }
        assert(ops@.take(n as int) == ops@);
    }

    /// Queued ops the peer's clock says it lacks.
    fn ops_peer_lacks(&self, peer: &VectorClock) -> (r: Vec<SyncOp>)
        ensures
            r@ == lacking(ops_of(self.queue_of()), peer.view()),
    {
        let all = self.queue.all();
        let n = all.len();
        let mut out: Vec<SyncOp> = Vec::new();
        let mut i: usize = 0;
        while i < n
            invariant
                n == all@.len(),
                i <= n,
                out@ == lacking(all@.take(i as int), peer.view()),
            decreases n - i,
        {
            let op = all[i];
            assert(all@.take(i + 1).drop_last() == all@.take(i as int));
            if !peer.covers(op.id) {
                out.push(op);
            }
            i = i + 1;
        }
        assert(all@.take(n as int) == all@);
        out
    }

    /// The transition function: the next state and the actions the shell
    /// must perform. An unlisted (state, event) pair changes nothing and is
    /// logged. Ops reach the wire only once the handshake is acknowledged;
    /// queued local ops leave the queue only by an acknowledgement that
    /// covers them.
    #[verifier::rlimit(80)]
    #[verifier::spinoff_prover]
    pub fn step(&mut self, event: Event) -> (r: Vec<Action>)
        requires
            old(self).wf(),
        ensures
            final(self).wf(),
            final(self).actor_of() == old(self).actor_of(),
            !listed(old(self).state_of(), event) ==> r@ == seq![Action::LogUnexpected] && *final(self)
                == *old(self),
            forall|id: OpId|
                holds(final(self).queue_of(), id) <==> (holds(old(self).queue_of(), id) || (
                event matches Event::LocalOp(op) && op.id == id)) && !(event matches Event::Ack(w)
                    && listed(old(self).state_of(), event) && covered(w.view(), id)),
            forall|i: int|
                0 <= i < r@.len() && #[trigger] r@[i] is SendOps ==> final(self).state_of() is Syncing
                    || final(self).state_of() is Live,
            !(event is TransportLoss) && !(event is ClocksEqual) ==> final(self).attempt_of()
                == old(self).attempt_of(),
            (event is Connect || event is BackoffElapsed || event is HelloAck || event is HelloReject
                || event is Need || event is Give || event is RemoteOps || event is StalenessExceeded
                || event is RebaseComplete) ==> final(self).queue_of() == old(self).queue_of(),
            event is AuthRevoked ==> final(self).state_of() == SyncState::Disconnected
                && final(self).negotiated_of() is None && final(self).queue_of() == marked(
                old(self).queue_of(),
                false,
            ) && r@.len() == 0,
            (event is Connect || event is BackoffElapsed) && listed(old(self).state_of(), event)
                ==> final(self).state_of() == SyncState::HelloSent && r@.len() == 1 && (
            r@[0] matches Action::SendHello(h) && h.actor == old(self).actor_of() && h.wire
                == WIRE_VERSION && h.model == MODEL_VERSION && h.clock.view() == old(self).clock_of()),
            event matches Event::HelloAck(n) ==> listed(old(self).state_of(), event) ==> final(self).state_of() == SyncState::Syncing && final(self).negotiated_of() == Some(n)
                && r@.len() == 1 && (r@[0] matches Action::SendNeed(c) && c.view() == old(self).clock_of()),
            event matches Event::HelloReject { peer_wire } ==> listed(old(self).state_of(), event) ==> final(self).state_of() == (SyncState::Incompatible { peer_wire }) && r@ == seq![
                Action::GoReadOnly { peer_wire },
            ],
            event matches Event::Need(peer) ==> listed(old(self).state_of(), event) ==> final(self).state_of() == SyncState::Syncing && r@.len() == 1 && (
            r@[0] matches Action::SendGive(v) && v@ == lacking(ops_of(old(self).queue_of()), peer.view())),
            event matches Event::Give(b) ==> (listed(old(self).state_of(), event) ==> received(
                *old(self),
                *final(self),
                r@,
                b,
            )),
            event matches Event::RemoteOps(b) ==> (listed(old(self).state_of(), event) ==> received(
                *old(self),
                *final(self),
                r@,
                b,
            )),
            event is ClocksEqual && listed(old(self).state_of(), event) ==> ({
                let pending = unsent_of(old(self).queue_of());
                &&& final(self).state_of() == SyncState::Live
                &&& final(self).attempt_of() == 0
                &&& final(self).queue_of() == marked(old(self).queue_of(), true)
                &&& pending.len() == 0 ==> r@.len() == 0
                &&& pending.len() > 0 ==> r@.len() == 1 && (r@[0] matches Action::SendOps(v) && v@
                    == pending)
            }),
            event matches Event::LocalOp(op) ==> ({
                let q1 = if holds(old(self).queue_of(), op.id) {
                    old(self).queue_of()
                } else {
                    old(self).queue_of().push((op, false))
                };
                let pending = unsent_of(q1);
                &&& final(self).state_of() == old(self).state_of()
                &&& final(self).clock_of() == observed_all(old(self).clock_of(), seq![op])
                &&& final(self).frontier_of() == frontier_over(old(self).frontier_of(), seq![op])
                &&& (old(self).state_of() is Syncing || old(self).state_of() is Live) ==> {
                    &&& final(self).queue_of() == marked(q1, true)
                    &&& pending.len() == 0 ==> r@.len() == 0
                    &&& pending.len() > 0 ==> r@.len() == 1 && (r@[0] matches Action::SendOps(v)
                        && v@ == pending)
                }
                &&& !(old(self).state_of() is Syncing || old(self).state_of() is Live) ==> final(self).queue_of() == q1 && r@.len() == 0
            }),
            event matches Event::Ack(w) ==> listed(old(self).state_of(), event) ==> final(self).state_of() == old(self).state_of() && final(self).queue_of() == unacked(
                old(self).queue_of(),
                w.view(),
            ) && r@.len() == 0,
            event is TransportLoss && listed(old(self).state_of(), event) ==> ({
                let delay = backoff_delay(old(self).attempt_of(), xorshift(old(self).jitter_of()));
                &&& final(self).state_of() == (SyncState::Backoff {
                    attempt: old(self).attempt_of(),
                    delay_ms: delay,
                })
                &&& delay <= BACKOFF_CAP_MS
                &&& r@ == seq![Action::ArmTimer { delay_ms: delay }]
                &&& final(self).queue_of() == marked(old(self).queue_of(), false)
                &&& final(self).jitter_of() == xorshift(old(self).jitter_of())
                &&& final(self).attempt_of() == (if old(self).attempt_of() < u32::MAX {
                    (old(self).attempt_of() + 1) as u32
                } else {
                    u32::MAX
                })
            }),
            event is StalenessExceeded && listed(old(self).state_of(), event)
                ==> final(self).state_of() == SyncState::RebaseRequired && r@ == seq![
                Action::RequestSnapshot,
            ],
            event matches Event::RebaseComplete { ops } ==> listed(old(self).state_of(), event) ==> final(self).state_of() == SyncState::Syncing && final(self).clock_of()
                == observed_all(old(self).clock_of(), ops@) && final(self).frontier_of()
                == frontier_over(old(self).frontier_of(), ops@) && final(self).queue_of() == old(self).queue_of() && r@.len() == 1 && (r@[0] matches Action::SendNeed(c) && c.view() == final(self).clock_of()),
    {
        proof {
            lemma_marked_keeps(self.queue.view(), false);
            lemma_marked_keeps(self.queue.view(), true);
        }
        match event {
            Event::AuthRevoked => {
                self.state = SyncState::Disconnected;
                self.negotiated = None;
                self.queue.mark_all_unsent();
                proof {
                    assert forall|id: OpId| holds(self.queue.view(), id) <==> holds(old(self).queue_of(), id) by {
                        lemma_marked_keeps(old(self).queue_of(), false);
                    }
                }
                Vec::new()
            },
            Event::Connect => {
                if matches!(self.state, SyncState::Disconnected) {
                    self.state = SyncState::HelloSent;
                    vec![Action::SendHello(self.hello())]
                } else {
                    vec![Action::LogUnexpected]
                }
            },
            Event::BackoffElapsed => {
                if matches!(self.state, SyncState::Backoff { .. }) {
                    self.state = SyncState::HelloSent;
                    vec![Action::SendHello(self.hello())]
                } else {
                    vec![Action::LogUnexpected]
                }
            },
            Event::HelloAck(negotiated) => {
                if matches!(self.state, SyncState::HelloSent) {
                    self.state = SyncState::Syncing;
                    self.negotiated = Some(negotiated);
                    vec![Action::SendNeed(self.clock.snapshot())]
                } else {
                    vec![Action::LogUnexpected]
                }
            },
            Event::HelloReject { peer_wire } => {
                if matches!(self.state, SyncState::HelloSent) {
                    self.state = SyncState::Incompatible { peer_wire };
                    vec![Action::GoReadOnly { peer_wire }]
                } else {
                    vec![Action::LogUnexpected]
                }
            },
            Event::Need(peer_clock) => {
                if matches!(self.state, SyncState::Syncing) {
                    vec![Action::SendGive(self.ops_peer_lacks(&peer_clock))]
                } else {
                    vec![Action::LogUnexpected]
                }
            },
            Event::Give(batch) => {
                if matches!(self.state, SyncState::Syncing) {
                    self.receive(batch)
                } else {
                    vec![Action::LogUnexpected]
                }
            },
            Event::ClocksEqual => {
                if matches!(self.state, SyncState::Syncing) {
                    self.state = SyncState::Live;
                    self.backoff_attempt = 0;
                    let pending = self.queue.take_unsent();
                    proof {
                        assert forall|id: OpId| holds(self.queue.view(), id) <==> holds(old(self).queue_of(), id) by {
                            lemma_marked_keeps(old(self).queue_of(), true);
                        }
                    }
                    if pending.len() == 0 {
                        Vec::new()
                    } else {
                        vec![Action::SendOps(pending)]
                    }
                } else {
                    vec![Action::LogUnexpected]
                }
            },
            Event::LocalOp(op) => {
                self.clock.observe(op.id);
                if op.lamport > self.frontier_lamport {
                    self.frontier_lamport = op.lamport;
                }
                proof {
                    reveal_with_fuel(observed_all, 2);
                    reveal_with_fuel(frontier_over, 2);
                    assert(seq![op].drop_last() =~= Seq::<SyncOp>::empty());
                    assert(seq![op].last() == op);
                    assert(self.clock.view() == observed_all(old(self).clock_of(), seq![op]));
                    assert(self.frontier_lamport == frontier_over(old(self).frontier_of(), seq![op]));
                }
                self.queue.enqueue(op);
                proof {
                    assert(holds(self.queue.view(), op.id)) by {
                        if !holds(old(self).queue_of(), op.id) {
                            assert(self.queue.view()[self.queue.view().len() - 1].0.id == op.id);
                        }
                    }
                    assert forall|id: OpId| holds(self.queue.view(), id) <==> holds(old(self).queue_of(), id)
                        || op.id == id by {
                        if !holds(old(self).queue_of(), op.id) && holds(self.queue.view(), id) {
                            let i = choose|i: int| 0 <= i < self.queue.view().len() && #[trigger] self.queue.view()[i].0.id == id;
                            if i < old(self).queue_of().len() {
                                assert(old(self).queue_of()[i].0.id == id);
                            }
                        }
                        if holds(old(self).queue_of(), id) && !holds(old(self).queue_of(), op.id) {
                            let i = choose|i: int| 0 <= i < old(self).queue_of().len() && #[trigger] old(self).queue_of()[i].0.id == id;
                            assert(self.queue.view()[i].0.id == id);
                        }
                    }
                    lemma_marked_keeps(self.queue.view(), true);
                }
                if self.state.may_send_ops() {
                    let pending = self.queue.take_unsent();
                    if pending.len() == 0 {
                        Vec::new()
                    } else {
                        vec![Action::SendOps(pending)]
                    }
                } else {
                    Vec::new()
                }
            },
            Event::RemoteOps(batch) => {
                if matches!(self.state, SyncState::Live) {
                    self.receive(batch)
                } else {
                    vec![Action::LogUnexpected]
                }
            },
            Event::Ack(watermark) => {
                if matches!(self.state, SyncState::Live) || matches!(self.state, SyncState::Syncing) {
                    let ghost q0 = self.queue.view();
                    self.queue.ack(&watermark);
                    proof {
                        crate::sync::queue::lemma_unacked(q0, watermark.view());
                    }
                    Vec::new()
                } else {
                    vec![Action::LogUnexpected]
                }
            },
            Event::TransportLoss => {
                if matches!(self.state, SyncState::Live) || matches!(self.state, SyncState::Syncing) {
                    let n = self.backoff_attempt;
                    self.backoff_attempt = n.saturating_add(1);
                    let r = self.enter_backoff(n);
                    proof {
                        assert forall|id: OpId| holds(self.queue.view(), id) <==> holds(old(self).queue_of(), id) by {
                            lemma_marked_keeps(old(self).queue_of(), false);
                        }
                    }
                    r
                } else {
                    vec![Action::LogUnexpected]
                }
            },
            Event::StalenessExceeded { gap_days } => {
                if matches!(self.state, SyncState::Live) && gap_days >= STALENESS_WINDOW_DAYS {
                    self.state = SyncState::RebaseRequired;
                    vec![Action::RequestSnapshot]
                } else {
                    vec![Action::LogUnexpected]
                }
            },
            Event::RebaseComplete { ops } => {
                if matches!(self.state, SyncState::RebaseRequired) {
                    self.state = SyncState::Syncing;
                    self.observe_local_history(ops.as_slice());
                    vec![Action::SendNeed(self.clock.snapshot())]
                } else {
                    vec![Action::LogUnexpected]
                }
            },
        }
    }

    /// Takes in a screened batch: refusals are counted and reported and
    /// never applied; accepted ops go through the causal-gap buffer, and
    /// whatever becomes ready is applied and acknowledged. The state does not
    /// change.
    #[verifier::rlimit(50)]
    #[verifier::spinoff_prover]
    fn receive(&mut self, batch: Screened) -> (r: Vec<Action>)
        requires
            old(self).wf(),
        ensures
            final(self).wf(),
            ({
                let ready = released_by(r@, batch.rejected@);
                &&& receipt(r@, batch.rejected@, ready, final(self).clock_of())
                &&& offer_result(
                    old(self).held_of(),
                    old(self).clock_of(),
                    batch.accepted@,
                    ready,
                    final(self).held_of(),
                    final(self).clock_of(),
                )
                &&& final(self).frontier_of() == frontier_over(old(self).frontier_of(), ready)
            }),
            final(self).quarantined_of() == raised(old(self).quarantined_of(), batch.rejected@.len() as int),
            final(self).actor_of() == old(self).actor_of(),
            final(self).state_of() == old(self).state_of(),
            final(self).queue_of() == old(self).queue_of(),
            final(self).jitter_of() == old(self).jitter_of(),
            final(self).negotiated_of() == old(self).negotiated_of(),
            final(self).attempt_of() == old(self).attempt_of(),
    {
        let Screened { accepted, rejected } = batch;
        let mut actions: Vec<Action> = Vec::new();
        let refused = rejected.len();
        self.quarantined = self.quarantined.saturating_add(refused);
        let ghost rej = rejected@;
        if refused > 0 {
            actions.push(Action::Report(rejected));
        }
        let ready = self.buffer.offer(&mut self.clock, accepted);
        let ghost f0 = self.frontier_lamport;
        let ghost mid = *self;
        let n = ready.len();
        let mut i: usize = 0;
        while i < n
            invariant
                n == ready@.len(),
                i <= n,
                self.frontier_lamport == frontier_over(f0, ready@.take(i as int)),
                self.actor == mid.actor,
                self.state == mid.state,
                self.queue == mid.queue,
                self.clock == mid.clock,
                self.buffer == mid.buffer,
                self.jitter == mid.jitter,
                self.negotiated == mid.negotiated,
                self.quarantined == mid.quarantined,
                self.backoff_attempt == mid.backoff_attempt,
            decreases n - i,
        {
            assert(ready@.take(i + 1).drop_last() == ready@.take(i as int));
            if ready[i].lamport > self.frontier_lamport {
                self.frontier_lamport = ready[i].lamport;
            }
            i = i + 1;
        }
        assert(ready@.take(n as int) == ready@);
        if n > 0 {
            let ghost rv = ready@;
            actions.push(Action::Apply(ready));
            actions.push(Action::AckWatermark(self.clock.snapshot()));
            assert(released_by(actions@, rej) == rv);
        } else {
            assert(released_by(actions@, rej) =~= ready@);
        }
        actions
    }

    /// The hello this replica announces: who it is, the versions it speaks
    /// and what it holds.
    fn hello(&self) -> (h: Hello)
        ensures
            h.actor == self.actor_of(),
            h.wire == WIRE_VERSION,
            h.model == MODEL_VERSION,
            h.clock.view() == self.clock_of(),
    {
        Hello { actor: self.actor, wire: WIRE_VERSION, model: MODEL_VERSION, clock: self.clock.snapshot() }
    }

    /// Enters backoff before reconnect attempt `attempt`: everything sent but
    /// unacknowledged becomes unsent again, the jitter seed steps, and a timer
    /// is armed for the jittered delay.
    fn enter_backoff(&mut self, attempt: u32) -> (r: Vec<Action>)
        requires
            old(self).wf(),
        ensures
            final(self).wf(),
            final(self).queue_of() == marked(old(self).queue_of(), false),
            final(self).jitter_of() == xorshift(old(self).jitter_of()),
            final(self).state_of() == (SyncState::Backoff {
                attempt,
                delay_ms: backoff_delay(attempt, xorshift(old(self).jitter_of())),
            }),
            r@ == seq![Action::ArmTimer { delay_ms: backoff_delay(attempt, xorshift(old(self).jitter_of())) }],
            backoff_delay(attempt, xorshift(old(self).jitter_of())) <= BACKOFF_CAP_MS,
            final(self).actor_of() == old(self).actor_of(),
            final(self).clock_of() == old(self).clock_of(),
            final(self).held_of() == old(self).held_of(),
            final(self).frontier_of() == old(self).frontier_of(),
            final(self).negotiated_of() == old(self).negotiated_of(),
            final(self).quarantined_of() == old(self).quarantined_of(),
            final(self).attempt_of() == old(self).attempt_of(),
    {
        self.queue.mark_all_unsent();
        let k: u64 = if attempt < 20 { attempt as u64 } else { 20 };
        assert((1u64 << k) <= 1048576) by (bit_vector)
            requires
                k <= 20,
        ;
        let doubled = BACKOFF_BASE_MS * (1u64 << k);
        let base = if doubled < BACKOFF_CAP_MS { doubled } else { BACKOFF_CAP_MS };
        let j0 = self.jitter;
        let a = j0 ^ (j0 << 13u32);
        let b = a ^ (a >> 17u32);
        let j = b ^ (b << 5u32);
        self.jitter = j;
        let spread = base / 2;
        let width = if spread > 1 { spread } else { 1 };
        let d = base - spread / 2 + (j as u64) % width;
        let delay_ms = if d < BACKOFF_CAP_MS { d } else { BACKOFF_CAP_MS };
        self.state = SyncState::Backoff { attempt, delay_ms };
        vec![Action::ArmTimer { delay_ms }]
    }
}

} // verus!
