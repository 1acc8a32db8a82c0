//! The never-drop queue and the causal-gap buffer.

use ehkatra::sync::buffer::{CausalBuffer, CAUSAL_BUFFER_LIMIT};
use ehkatra::sync::queue::Queue;
use ehkatra::sync::{SyncOp, VectorClock};
use ehkatra::types::{ActorId, OpId};

fn id(actor: u128, counter: u64) -> OpId {
    OpId { actor: ActorId(actor), counter }
}

fn op(actor: u128, n: u64) -> SyncOp {
    SyncOp { id: id(actor, n), lamport: n }
}

#[test]
fn a_queued_op_is_queued_once() {
    let mut q = Queue::new();
    q.enqueue(op(1, 1));
    q.enqueue(op(1, 1));
    q.enqueue(op(1, 2));
    assert_eq!(q.len(), 2);
    assert!(q.contains(&op(1, 2)));
    assert!(!q.contains(&op(1, 3)));
}

#[test]
fn sending_marks_but_keeps_and_a_loss_re_offers() {
    let mut q = Queue::new();
    for n in 1..=3 {
        q.enqueue(op(1, n));
    }
    assert!(!q.all_sent());
    assert_eq!(q.take_unsent(), vec![op(1, 1), op(1, 2), op(1, 3)]);
    assert!(q.all_sent());
    assert_eq!(q.len(), 3, "sent is not acknowledged");
    assert!(q.take_unsent().is_empty());
    q.enqueue(op(1, 4));
    assert_eq!(q.take_unsent(), vec![op(1, 4)]);
    q.mark_all_unsent();
    assert_eq!(q.take_unsent().len(), 4);
    assert_eq!(q.all(), vec![op(1, 1), op(1, 2), op(1, 3), op(1, 4)]);
}

#[test]
fn only_the_covered_ops_are_acknowledged() {
    let mut q = Queue::new();
    for n in 1..=3 {
        q.enqueue(op(1, n));
    }
    q.enqueue(op(2, 1));
    let mut watermark = VectorClock::new();
    watermark.observe(id(1, 1));
    watermark.observe(id(1, 2));
    assert_eq!(q.ack(&watermark), 2);
    assert_eq!(q.all(), vec![op(1, 3), op(2, 1)]);
    assert_eq!(q.ack(&VectorClock::new()), 0);
    assert_eq!(q.len(), 2);
    assert!(!q.is_empty());
}

#[test]
fn ops_ahead_of_a_gap_are_held_then_released_in_order() {
    let mut buffer = CausalBuffer::new();
    let mut clock = VectorClock::new();
    let ready = buffer.offer(&mut clock, vec![op(2, 2), op(2, 3)]);
    assert!(ready.is_empty(), "counter 1 is missing");
    assert_eq!(buffer.held(), 2);
    assert_eq!(clock.get(ActorId(2)), 0);

    let ready = buffer.offer(&mut clock, vec![op(2, 1)]);
    assert_eq!(ready, vec![op(2, 1), op(2, 2), op(2, 3)]);
    assert_eq!(buffer.held(), 0);
    assert_eq!(clock.get(ActorId(2)), 3);
}

#[test]
fn releases_come_in_actor_then_counter_order() {
    let mut buffer = CausalBuffer::new();
    let mut clock = VectorClock::new();
    let ready = buffer.offer(&mut clock, vec![op(5, 2), op(3, 1), op(5, 1), op(3, 3)]);
    assert_eq!(ready, vec![op(3, 1), op(5, 1), op(5, 2)]);
    assert_eq!(buffer.held(), 1, "counter 3 of actor 3 waits on counter 2");
}

#[test]
fn a_duplicate_offer_is_dropped() {
    let mut buffer = CausalBuffer::new();
    let mut clock = VectorClock::new();
    assert_eq!(buffer.offer(&mut clock, vec![op(1, 1)]), vec![op(1, 1)]);
    assert!(buffer.offer(&mut clock, vec![op(1, 1)]).is_empty());
    assert_eq!(buffer.held(), 0);
    assert_eq!(clock.get(ActorId(1)), 1);
}

#[test]
fn a_full_buffer_refuses_further_offers() {
    let mut buffer = CausalBuffer::new();
    let mut clock = VectorClock::new();
    let gapped: Vec<SyncOp> = (0..CAUSAL_BUFFER_LIMIT as u64 + 10).map(|n| op(1, n + 2)).collect();
    assert!(buffer.offer(&mut clock, gapped).is_empty());
    assert_eq!(buffer.held(), CAUSAL_BUFFER_LIMIT);
}

#[test]
fn a_clock_snapshot_is_a_copy() {
    let mut clock = VectorClock::new();
    clock.observe(id(4, 1));
    let copy = clock.snapshot();
    clock.observe(id(4, 2));
    assert_eq!(copy.get(ActorId(4)), 1);
    assert_eq!(clock.get(ActorId(4)), 2);
}
