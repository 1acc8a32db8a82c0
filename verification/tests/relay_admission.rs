//! The relay's admission control and retention.

use ehkatra::sync::relay::{Relay, Submitted, RATE_BURST_OPS};
use ehkatra::sync::{AdmissionError, SyncOp, VectorClock};
use ehkatra::types::{ActorId, OpId};

fn op(actor: u128, n: u64) -> SyncOp {
    SyncOp { id: OpId { actor: ActorId(actor), counter: n }, lamport: n }
}

fn good(actor: u128, n: u64) -> Submitted {
    Submitted { op: op(actor, n), encoded_len: 64, valid: true }
}

#[test]
fn spoofed_and_invalid_ops_are_refused_and_the_rest_fan_out() {
    let mut relay = Relay::new();
    let out = relay.submit(
        ActorId(1),
        vec![
            good(1, 1),
            good(2, 1),
            Submitted { op: op(1, 2), encoded_len: 64, valid: false },
            good(1, 2),
        ],
        0,
    );
    assert_eq!(out.fanout, vec![op(1, 1), op(1, 2)]);
    assert_eq!(
        out.refused,
        vec![(op(2, 1), AdmissionError::Spoofed), (op(1, 2), AdmissionError::Invalid)]
    );
    assert_eq!(out.watermark.get(ActorId(1)), 2);
    assert_eq!(relay.retained(), &[op(1, 1), op(1, 2)]);
}

#[test]
fn a_redelivered_op_is_fanned_out_but_retained_once() {
    let mut relay = Relay::new();
    relay.submit(ActorId(1), vec![good(1, 1)], 0);
    let out = relay.submit(ActorId(1), vec![good(1, 1)], 0);
    assert_eq!(out.fanout, vec![op(1, 1)]);
    assert_eq!(relay.retained().len(), 1);
}

#[test]
fn the_rate_bucket_runs_dry_after_its_burst() {
    let mut relay = Relay::new();
    let burst = RATE_BURST_OPS as u64;
    let ops: Vec<Submitted> = (1..=burst + 1).map(|n| good(1, n)).collect();
    let out = relay.submit(ActorId(1), ops, 0);
    assert_eq!(out.fanout.len() as u64, burst);
    assert_eq!(out.refused, vec![(op(1, burst + 1), AdmissionError::RateLimited)]);
    // A second later, 200 tokens have come back.
    let out = relay.submit(ActorId(1), vec![good(1, burst + 1)], 1000);
    assert!(out.refused.is_empty());
}

#[test]
fn an_oversized_op_is_byte_limited() {
    let mut relay = Relay::new();
    let big = Submitted { op: op(1, 1), encoded_len: 9 * 1024 * 1024, valid: true };
    let out = relay.submit(ActorId(1), vec![big], 0);
    assert_eq!(out.refused, vec![(op(1, 1), AdmissionError::ByteLimited)]);
    assert!(relay.retained().is_empty());
}

#[test]
fn a_peer_is_sent_what_it_lacks_and_the_frontier_is_the_greatest_stamp() {
    let mut relay = Relay::new();
    relay.submit(ActorId(1), vec![good(1, 1), good(1, 2), good(1, 3)], 0);
    relay.submit(ActorId(2), vec![good(2, 1)], 0);
    let mut peer = VectorClock::new();
    peer.observe(OpId { actor: ActorId(1), counter: 1 });
    assert_eq!(relay.ops_missing_from(&peer), vec![op(1, 2), op(1, 3), op(2, 1)]);
    assert_eq!(relay.frontier_lamport(), 3);
    assert_eq!(relay.clock().get(ActorId(2)), 1);
}
