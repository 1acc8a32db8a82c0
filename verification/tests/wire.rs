//! The relay's clock codec, its generator and its records.

use ehkatra::bus::{Lcg, Propagation, RelayStats};
use ehkatra::frame::{put_clock, FrameCursor, FrameError};
use ehkatra::sync::VectorClock;
use ehkatra::types::{ActorId, OpId};

fn clock(entries: &[(u128, u64)]) -> VectorClock {
    let mut c = VectorClock::new();
    for (actor, counter) in entries {
        for k in 1..=*counter {
            c.observe(OpId { actor: ActorId(*actor), counter: k });
        }
    }
    c
}

#[test]
fn a_clock_round_trips_through_the_wire() {
    let original = clock(&[(7, 3), (2, 5), (u128::MAX, 1)]);
    let mut out = vec![0x55];
    put_clock(&original, &mut out);
    assert_eq!(out.len(), 1 + 4 + 3 * 24);
    assert_eq!(&out[1..5], &[0, 0, 0, 3]);
    let mut r = FrameCursor::new(&out);
    assert_eq!(r.u8(), Ok(0x55));
    let back = r.clock().expect("a whole clock");
    for actor in [2u128, 7, u128::MAX, 99] {
        assert_eq!(back.get(ActorId(actor)), original.get(ActorId(actor)));
    }
}

#[test]
fn a_short_clock_is_refused() {
    let original = clock(&[(1, 2)]);
    let mut out = Vec::new();
    put_clock(&original, &mut out);
    let mut r = FrameCursor::new(&out[..out.len() - 1]);
    assert_eq!(r.clock().err(), Some(FrameError::ShortFrame));
}

#[test]
fn a_zero_counter_claims_nothing() {
    let mut body = vec![0, 0, 0, 1];
    body.extend_from_slice(&5u128.to_be_bytes());
    body.extend_from_slice(&0u64.to_be_bytes());
    let mut r = FrameCursor::new(&body);
    let c = r.clock().expect("well formed");
    assert!(c.is_empty());
    assert_eq!(c.get(ActorId(5)), 0);
}

#[test]
fn frame_fields_are_big_endian() {
    let body = [0x01, 0x02, 0x03, 0x04, 0x05, 0x06];
    let mut r = FrameCursor::new(&body);
    assert_eq!(r.u16(), Ok(0x0102));
    assert_eq!(r.u32(), Ok(0x0304_0506));
    assert_eq!(r.u8(), Err(FrameError::ShortFrame));
}

#[test]
fn the_generator_is_reproducible_from_its_seed() {
    let mut a = Lcg::new(42);
    let mut b = Lcg::new(43);
    let first = a.next_u64();
    assert_eq!(first, b.next_u64(), "42 and 43 both seed the odd state 43");
    let state: u64 = 43u64.wrapping_mul(6364136223846793005).wrapping_add(1442695040888963407);
    assert_eq!(first, state >> 11);
    for _ in 0..100 {
        assert!(a.below(7) < 7);
    }
    let mut c = Lcg::new(1);
    assert_eq!(c.below(0), 0);
    let mut d = Lcg::new(1);
    assert_eq!(c.next_u64(), d.next_u64(), "below(0) does not step the generator");
}

#[test]
fn latency_never_goes_below_zero() {
    let p = Propagation { from: 0, to: 1, authored_ms: 10, arrived_ms: 35 };
    assert_eq!(p.latency_ms(), 25);
    let early = Propagation { from: 0, to: 1, authored_ms: 40, arrived_ms: 35 };
    assert_eq!(early.latency_ms(), 0);
}

#[test]
fn relay_stats_start_at_zero() {
    let s = RelayStats::default();
    assert_eq!(s, RelayStats { admitted: 0, spoofed: 0, invalid: 0, rate_limited: 0, byte_limited: 0 });
}
