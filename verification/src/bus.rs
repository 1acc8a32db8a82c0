//! The pieces of the in-process test transport that decide things: a seeded
//! generator, so a failing drill is reproducible from its seed alone, and
//! the per-frame and per-relay records the drills report.

use vstd::prelude::*;

verus! {

/// The generator's multiplier and increment.
pub const LCG_MUL: u64 = 6364136223846793005;
pub const LCG_ADD: u64 = 1442695040888963407;

/// One step of the generator: `s * LCG_MUL + LCG_ADD`, modulo `2^64`.
pub open spec fn lcg_next(s: u64) -> u64 {
    ((s as int * LCG_MUL as int + LCG_ADD as int) % 0x1_0000_0000_0000_0000) as u64
}

/// Deterministic pseudo-randomness: a 64-bit linear congruential generator.
pub struct Lcg(u64);

impl Lcg {
    /// The generator's state.
    pub closed spec fn state(&self) -> u64 {
        self.0
    }

    /// A generator seeded with `seed`, forced odd.
    pub fn new(seed: u64) -> (r: Lcg)
        ensures
            r.state() == seed | 1,
    {
        Lcg(seed | 1)
    }

    /// Steps the generator and returns the top 53 bits of the new state.
    pub fn next_u64(&mut self) -> (r: u64)
        ensures
            final(self).state() == lcg_next(old(self).state()),
            r == final(self).state() / 2048,
    {
        let s = self.0;
        let m = s.wrapping_mul(LCG_MUL);
        let n = m.wrapping_add(LCG_ADD);
        proof {
            let big = 0x1_0000_0000_0000_0000int;
            assert(m == (s as int * LCG_MUL as int) % big);
            vstd::arithmetic::div_mod::lemma_add_mod_noop(s as int * LCG_MUL as int, LCG_ADD as int, big);
            vstd::arithmetic::div_mod::lemma_small_mod(LCG_ADD as nat, big as nat);
            vstd::arithmetic::div_mod::lemma_mod_bound(m as int + LCG_ADD as int, big);
            if m as int + LCG_ADD as int >= big {
                vstd::arithmetic::div_mod::lemma_fundamental_div_mod_converse(
                    m as int + LCG_ADD as int,
                    big,
                    1,
                    m as int + LCG_ADD as int - big,
                );
            } else {
                vstd::arithmetic::div_mod::lemma_small_mod((m as int + LCG_ADD as int) as nat, big as nat);
            }
        }
        self.0 = n;
        let r = n >> 11u64;
        assert(r == n / 2048) by (bit_vector)
            requires r == n >> 11u64;
        r
    }

    /// A draw below `n`, or 0 for `n == 0` without stepping.
    pub fn below(&mut self, n: u64) -> (r: u64)
        ensures
            n == 0 ==> r == 0 && final(self).state() == old(self).state(),
            n > 0 ==> final(self).state() == lcg_next(old(self).state()) && r == (final(self).state() / 2048) % n,
            n > 0 ==> r < n,
    {
        if n == 0 {
            0
        } else {
            self.next_u64() % n
        }
    }
}

/// Per-frame propagation record.
#[derive(Clone, Copy, Debug)]
pub struct Propagation {
    pub from: usize,
    pub to: usize,
    pub authored_ms: u64,
    pub arrived_ms: u64,
}

impl Propagation {
    /// Arrival minus authoring, never below zero.
    pub fn latency_ms(&self) -> (r: u64)
        ensures
            r == if self.arrived_ms >= self.authored_ms {
                self.arrived_ms - self.authored_ms
            } else {
                0
            },
    {
        self.arrived_ms.saturating_sub(self.authored_ms)
    }
}

/// Counters for the relay operator's report.
#[derive(Debug, Clone, Copy, PartialEq, Eq, Structural)]
pub struct RelayStats {
    pub admitted: usize,
    pub spoofed: usize,
    pub invalid: usize,
    pub rate_limited: usize,
    pub byte_limited: usize,
}

impl Default for RelayStats {
    fn default() -> (r: RelayStats)
        ensures
            r == (RelayStats { admitted: 0, spoofed: 0, invalid: 0, rate_limited: 0, byte_limited: 0 }),
    {
        RelayStats { admitted: 0, spoofed: 0, invalid: 0, rate_limited: 0, byte_limited: 0 }
    }
}

} // verus!
