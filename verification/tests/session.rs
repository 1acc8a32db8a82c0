//! The sync session: every listed transition, every forbidden one refused.

use ehkatra::sync::machine::{
    Action, Event, Screened, SyncSession, BACKOFF_BASE_MS, BACKOFF_CAP_MS, STALENESS_WINDOW_DAYS,
};
use ehkatra::sync::{Negotiated, SyncOp, SyncState, VectorClock, MODEL_VERSION, WIRE_VERSION};
use ehkatra::types::{ActorId, OpId};

fn id(actor: u128, counter: u64) -> OpId {
    OpId { actor: ActorId(actor), counter }
}

/// The `n`-th op of `actor`.
fn write(actor: u128, n: u64) -> SyncOp {
    SyncOp { id: id(actor, n), lamport: n }
}

fn batch(ops: Vec<SyncOp>) -> Screened {
    Screened { accepted: ops, rejected: Vec::new() }
}

fn ack() -> Event {
    Event::HelloAck(Negotiated { wire: WIRE_VERSION, model: MODEL_VERSION })
}

fn connected(actor: u128) -> SyncSession {
    let mut s = SyncSession::new(ActorId(actor), 0xC0FFEE);
    s.step(Event::Connect);
    s.step(ack());
    s.step(Event::ClocksEqual);
    assert_eq!(*s.state(), SyncState::Live);
    s
}

fn sends_ops(actions: &[Action]) -> Vec<SyncOp> {
    actions
        .iter()
        .flat_map(|a| match a {
            Action::SendOps(ops) => ops.clone(),
            _ => Vec::new(),
        })
        .collect()
}

fn applied(actions: &[Action]) -> Vec<SyncOp> {
    actions
        .iter()
        .flat_map(|a| match a {
            Action::Apply(ops) => ops.clone(),
            _ => Vec::new(),
        })
        .collect()
}

#[test]
fn sync_machine_covers_every_listed_transition() {
    let mut s = SyncSession::new(ActorId(1), 7);

    let a = s.step(Event::Connect);
    assert_eq!(*s.state(), SyncState::HelloSent);
    assert!(matches!(a.as_slice(), [Action::SendHello(_)]));

    let a = s.step(ack());
    assert_eq!(*s.state(), SyncState::Syncing);
    assert!(matches!(a.as_slice(), [Action::SendNeed(_)]));
    assert_eq!(s.negotiated().map(|n| n.wire), Some(WIRE_VERSION));

    let a = s.step(Event::Need(VectorClock::new()));
    assert_eq!(*s.state(), SyncState::Syncing);
    assert!(matches!(a.as_slice(), [Action::SendGive(_)]));
    let a = s.step(Event::Give(batch(vec![write(2, 1)])));
    assert_eq!(*s.state(), SyncState::Syncing);
    assert_eq!(applied(&a).len(), 1);

    s.step(Event::ClocksEqual);
    assert_eq!(*s.state(), SyncState::Live);

    let mine = write(1, 1);
    let a = s.step(Event::LocalOp(mine));
    assert_eq!(*s.state(), SyncState::Live);
    assert_eq!(sends_ops(&a), vec![mine]);

    let a = s.step(Event::RemoteOps(batch(vec![write(2, 2)])));
    assert_eq!(*s.state(), SyncState::Live);
    assert_eq!(applied(&a).len(), 1);
    assert!(a.iter().any(|x| matches!(x, Action::AckWatermark(_))));

    let a = s.step(Event::StalenessExceeded { gap_days: STALENESS_WINDOW_DAYS });
    assert_eq!(*s.state(), SyncState::RebaseRequired);
    assert_eq!(a, vec![Action::RequestSnapshot]);

    let a = s.step(Event::RebaseComplete { ops: vec![write(3, 1)] });
    assert_eq!(*s.state(), SyncState::Syncing);
    assert!(matches!(a.as_slice(), [Action::SendNeed(_)]));

    let a = s.step(Event::TransportLoss);
    assert!(matches!(*s.state(), SyncState::Backoff { attempt: 0, .. }));
    assert!(matches!(a.as_slice(), [Action::ArmTimer { .. }]));

    let a = s.step(Event::BackoffElapsed);
    assert_eq!(*s.state(), SyncState::HelloSent);
    assert!(matches!(a.as_slice(), [Action::SendHello(_)]));

    let a = s.step(Event::HelloReject { peer_wire: 99 });
    assert_eq!(*s.state(), SyncState::Incompatible { peer_wire: 99 });
    assert_eq!(a, vec![Action::GoReadOnly { peer_wire: 99 }]);

    s.step(Event::AuthRevoked);
    assert_eq!(*s.state(), SyncState::Disconnected);

    let mut t = connected(1);
    t.step(Event::TransportLoss);
    assert!(matches!(*t.state(), SyncState::Backoff { .. }));
}

#[test]
fn incompatible_is_terminal_until_upgrade() {
    let mut s = SyncSession::new(ActorId(1), 3);
    s.step(Event::Connect);
    s.step(Event::HelloReject { peer_wire: 4 });
    assert_eq!(*s.state(), SyncState::Incompatible { peer_wire: 4 });

    let a = s.step(Event::LocalOp(write(1, 1)));
    assert!(sends_ops(&a).is_empty());
    assert_eq!(*s.state(), SyncState::Incompatible { peer_wire: 4 });
    assert_eq!(s.queued(), 1);

    s.step(Event::AuthRevoked);
    assert_eq!(*s.state(), SyncState::Disconnected);
    assert_eq!(s.queued(), 1, "revocation retains the queue");
}

#[test]
fn no_ops_reach_the_wire_before_hello_ack() {
    let mut pre_ack: Vec<(&str, SyncSession)> = Vec::new();
    pre_ack.push(("DISCONNECTED", SyncSession::new(ActorId(1), 1)));

    let mut hello = SyncSession::new(ActorId(1), 1);
    hello.step(Event::Connect);
    pre_ack.push(("HELLO_SENT", hello));

    let mut incompatible = SyncSession::new(ActorId(1), 1);
    incompatible.step(Event::Connect);
    incompatible.step(Event::HelloReject { peer_wire: 9 });
    pre_ack.push(("INCOMPATIBLE", incompatible));

    let mut backoff = connected(1);
    backoff.step(Event::TransportLoss);
    pre_ack.push(("BACKOFF", backoff));

    let mut rebasing = connected(1);
    rebasing.step(Event::StalenessExceeded { gap_days: STALENESS_WINDOW_DAYS });
    pre_ack.push(("REBASE_REQUIRED", rebasing));

    for (name, mut session) in pre_ack {
        let before = session.queued();
        let op = write(1, (before + 1) as u64);
        let actions = session.step(Event::LocalOp(op));
        assert!(sends_ops(&actions).is_empty(), "{name} put OPS on the wire before HelloAck");
        assert_eq!(session.queued(), before + 1, "{name} must queue the op it refused to send");
    }
}

#[test]
fn offline_edits_flush_exactly_when_the_session_goes_live() {
    let mut s = SyncSession::new(ActorId(1), 5);
    for n in 1..=3 {
        assert!(sends_ops(&s.step(Event::LocalOp(write(1, n)))).is_empty());
    }
    s.step(Event::Connect);
    s.step(ack());
    let a = s.step(Event::ClocksEqual);
    assert_eq!(sends_ops(&a).len(), 3, "all three offline edits flushed");
    assert_eq!(s.queued(), 3, "sent is not acked — the queue still holds them");
}

#[test]
fn queued_local_ops_survive_every_transition() {
    let mut s = SyncSession::new(ActorId(1), 11);
    let mine: Vec<SyncOp> = (1..=3).map(|n| write(1, n)).collect();
    for op in &mine {
        s.step(Event::LocalOp(*op));
    }
    assert_eq!(s.queued(), 3);

    let script: Vec<Event> = vec![
        Event::Connect,
        ack(),
        Event::Need(VectorClock::new()),
        Event::Give(batch(vec![write(2, 1)])),
        Event::ClocksEqual,
        Event::RemoteOps(batch(vec![write(2, 2)])),
        Event::TransportLoss,
        Event::BackoffElapsed,
        ack(),
        Event::ClocksEqual,
        Event::StalenessExceeded { gap_days: STALENESS_WINDOW_DAYS },
        Event::RebaseComplete { ops: Vec::new() },
        Event::ClocksEqual,
        Event::AuthRevoked,
        Event::Connect,
        Event::HelloReject { peer_wire: 42 },
    ];

    for (step, event) in script.into_iter().enumerate() {
        s.step(event);
        for op in &mine {
            assert!(
                s.queued_ops().iter().any(|q| q.id == op.id),
                "op {:?} was dropped at step {step}",
                op.id
            );
        }
    }
    assert_eq!(s.queued(), 3, "nothing but an ack may empty the queue");
}

#[test]
fn only_an_acknowledgement_empties_the_queue() {
    let mut s = connected(1);
    for n in 1..=3 {
        s.step(Event::LocalOp(write(1, n)));
    }
    assert_eq!(s.queued(), 3);
    let mut watermark = VectorClock::new();
    watermark.observe(id(1, 1));
    watermark.observe(id(1, 2));
    s.step(Event::Ack(watermark));
    assert_eq!(s.queued(), 1);
    assert_eq!(s.queued_ops()[0].id, id(1, 3));
}

#[test]
fn transport_loss_re_offers_sent_but_unacked_ops() {
    let mut s = connected(1);
    let op = write(1, 1);
    assert_eq!(sends_ops(&s.step(Event::LocalOp(op))).len(), 1);
    s.step(Event::TransportLoss);
    s.step(Event::BackoffElapsed);
    s.step(ack());
    let a = s.step(Event::ClocksEqual);
    assert_eq!(sends_ops(&a), vec![op], "the op that may have died on the wire is offered again");
}

#[test]
fn backoff_grows_exponentially_jittered_and_caps_at_sixty_seconds() {
    let mut delays = Vec::new();
    let mut s = connected(1);
    for _ in 0..12 {
        s.step(Event::TransportLoss);
        match *s.state() {
            SyncState::Backoff { delay_ms, .. } => delays.push(delay_ms),
            ref other => panic!("expected BACKOFF, got {other:?}"),
        }
        s.step(Event::BackoffElapsed);
        s.step(ack());
    }
    assert!(delays[0] < delays[3] && delays[3] < delays[6], "backoff must grow: {delays:?}");
    assert!(delays.iter().all(|d| *d <= BACKOFF_CAP_MS), "capped at 60 s: {delays:?}");
    assert_eq!(
        *delays.last().unwrap_or(&0),
        BACKOFF_CAP_MS.min(*delays.last().unwrap_or(&0)),
        "the tail sits at the cap"
    );
    assert!(delays[0] >= BACKOFF_BASE_MS / 2 && delays[0] < BACKOFF_BASE_MS * 2);
    let capped: Vec<u64> = delays.iter().copied().filter(|d| *d > 30_000).collect();
    assert!(capped.windows(2).any(|w| w[0] != w[1]), "jitter must spread reconnects: {capped:?}");
}

#[test]
fn reaching_live_resets_the_backoff_attempt() {
    let mut s = connected(1);
    for _ in 0..4 {
        s.step(Event::TransportLoss);
        s.step(Event::BackoffElapsed);
        s.step(ack());
    }
    s.step(Event::ClocksEqual);
    s.step(Event::TransportLoss);
    assert!(matches!(*s.state(), SyncState::Backoff { attempt: 0, .. }));
}

#[test]
fn ops_arriving_ahead_of_a_causal_gap_are_held_not_applied() {
    let mut s = connected(1);
    let a = s.step(Event::RemoteOps(batch(vec![write(2, 3), write(2, 2)])));
    assert!(applied(&a).is_empty(), "nothing is causally ready yet");
    assert_eq!(s.held_by_causal_gap(), 2);
    let a = s.step(Event::RemoteOps(batch(vec![write(2, 1)])));
    let ready = applied(&a);
    assert_eq!(ready.iter().map(|o| o.id.counter).collect::<Vec<_>>(), vec![1, 2, 3]);
    assert_eq!(s.held_by_causal_gap(), 0);
}

#[test]
fn duplicate_delivery_is_idempotent() {
    let mut s = connected(1);
    let remote = write(2, 1);
    assert_eq!(applied(&s.step(Event::RemoteOps(batch(vec![remote])))).len(), 1);
    let again = s.step(Event::RemoteOps(batch(vec![remote, remote])));
    assert!(applied(&again).is_empty(), "an op already held is not applied twice");

    let mine = write(1, 1);
    s.step(Event::LocalOp(mine));
    let echo = s.step(Event::RemoteOps(batch(vec![mine])));
    assert!(applied(&echo).is_empty(), "our own op echoed back is suppressed");
}

#[test]
fn refused_ops_are_reported_counted_and_the_session_stays_live() {
    let mut s = connected(1);
    let honest = write(2, 1);
    let a = s.step(Event::RemoteOps(Screened {
        accepted: vec![honest],
        rejected: vec![id(2, 0), id(2, 4)],
    }));
    assert_eq!(*s.state(), SyncState::Live);
    assert!(matches!(&a[0], Action::Report(ids) if ids.len() == 2));
    assert_eq!(s.quarantined(), 2);
    assert_eq!(applied(&a), vec![honest]);
    assert!(s.frontier_lamport() >= 1);
}

#[test]
fn an_unlisted_transition_is_logged_and_changes_nothing() {
    let mut s = SyncSession::new(ActorId(1), 1);
    let a = s.step(Event::Ack(VectorClock::new()));
    assert_eq!(a, vec![Action::LogUnexpected]);
    assert_eq!(*s.state(), SyncState::Disconnected);
    let a = s.step(Event::TransportLoss);
    assert_eq!(a, vec![Action::LogUnexpected]);
    assert_eq!(*s.state(), SyncState::Disconnected);
}

#[test]
fn a_peer_is_given_exactly_the_queued_ops_it_lacks() {
    let mut s = SyncSession::new(ActorId(1), 1);
    for n in 1..=3 {
        s.step(Event::LocalOp(write(1, n)));
    }
    s.step(Event::Connect);
    s.step(ack());
    let mut peer = VectorClock::new();
    peer.observe(id(1, 1));
    let a = s.step(Event::Need(peer));
    assert_eq!(a, vec![Action::SendGive(vec![write(1, 2), write(1, 3)])]);
}
