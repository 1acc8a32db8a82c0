//! The replica sync protocol's pure parts: vector clocks, the wire version
//! window, the session states, and the relay's token buckets.
//!
//! A replica summarises what it holds as the highest contiguous counter per
//! actor: `{A: 7}` means every op A minted up to counter 7. A clock never
//! advances over a hole, so it never claims coverage it does not have.

use vstd::prelude::*;
use std::collections::BTreeMap;
use vstd::std_specs::iter::IteratorSpec;
use vstd::std_specs::cmp::OrdSpec;
use crate::types::{ActorId, OpId};

pub mod queue;
pub mod buffer;
pub mod machine;
pub mod relay;

verus! {

broadcast use vstd::std_specs::btree::group_btree_axioms, vstd::laws_cmp::group_laws_cmp,
    vstd::seq_lib::group_seq_properties;

/// Wire protocol version.
pub const WIRE_VERSION: u16 = 1;
/// Model (op taxonomy) version.
pub const MODEL_VERSION: u16 = 1;
/// How many versions back this build still speaks.
pub const WIRE_SUPPORT_DEPTH: u16 = 2;

/// Whether this build negotiates with a peer announcing `peer_wire`: never
/// newer than this build, and no more than `WIRE_SUPPORT_DEPTH` older.
pub fn wire_supported(peer_wire: u16) -> (r: bool)
    ensures
        r == (peer_wire <= WIRE_VERSION && WIRE_VERSION - peer_wire <= WIRE_SUPPORT_DEPTH),
{
    peer_wire <= WIRE_VERSION && WIRE_VERSION.saturating_sub(peer_wire) <= WIRE_SUPPORT_DEPTH
}

/// The session states.
#[derive(Clone, PartialEq, Eq, Structural, Debug)]
pub enum SyncState {
    Disconnected,
    HelloSent,
    /// Terminal until the build is upgraded; editing continues locally.
    Incompatible { peer_wire: u16 },
    Syncing,
    Live,
    Backoff { attempt: u32, delay_ms: u64 },
    RebaseRequired,
}

impl SyncState {
    /// Whether ops may be put on the wire: only once the handshake has been
    /// acknowledged, while syncing or live.
    pub fn may_send_ops(&self) -> (r: bool)
        ensures
            r == (*self is Syncing || *self is Live),
    {
        match self {
            SyncState::Syncing | SyncState::Live => true,
            _ => false,
        }
    }
}

/// What the sync protocol reads of an op: its identity and its Lamport
/// stamp. The payload stays in the op log, which the shell consults by id.
#[derive(Clone, Copy, PartialEq, Eq, Structural, Debug)]
pub struct SyncOp {
    pub id: OpId,
    pub lamport: u64,
}

/// What the negotiation settled on.
#[derive(Clone, Copy, PartialEq, Eq, Structural, Debug)]
pub struct Negotiated {
    pub wire: u16,
    pub model: u16,
}

// ------------------------------------------------------------ vector clock

/// The counter a clock holds for `actor`; absent means nothing held.
pub open spec fn held(m: Map<u128, u64>, actor: u128) -> u64 {
    if m.contains_key(actor) {
        m[actor]
    } else {
        0
    }
}

/// `m` after observing `actor`'s ops `1..=c` one by one, in order, each
/// advancing the counter only when it is the next one.
pub open spec fn observed_upto(m: Map<u128, u64>, actor: u128, c: nat) -> Map<u128, u64>
    decreases c,
{
    if c == 0 {
        m
    } else {
        let m1 = observed_upto(m, actor, (c - 1) as nat);
        m1.insert(
            actor,
            if c - 1 == held(m1, actor) {
                c as u64
            } else {
                held(m1, actor)
            },
        )
    }
}

/// Observing a contiguous run `1..=c` one op at a time leaves the actor at
/// the greater of its counter and `c`: what `observe_run` records at once.
pub proof fn lemma_observe_run(m: Map<u128, u64>, actor: u128, c: nat)
    requires
        1 <= c <= u64::MAX,
    ensures
        observed_upto(m, actor, c) == m.insert(
            actor,
            if held(m, actor) >= c {
                held(m, actor)
            } else {
                c as u64
            },
        ),
    decreases c,
{
    let h = held(m, actor);
    let m1 = observed_upto(m, actor, (c - 1) as nat);
    let target: u64 = if h >= c {
        h
    } else {
        c as u64
    };
    if c > 1 {
        lemma_observe_run(m, actor, (c - 1) as nat);
        let h1: u64 = if h >= c - 1 {
            h
        } else {
            (c - 1) as u64
        };
        assert(m1 == m.insert(actor, h1));
        assert(held(m1, actor) == h1);
        assert((if c - 1 == held(m1, actor) {
            c as u64
        } else {
            held(m1, actor)
        }) == target);
    } else {
        assert(m1 == m);
    }
    assert(observed_upto(m, actor, c) =~= m.insert(
        actor,
        if held(m, actor) >= c {
            held(m, actor)
        } else {
            c as u64
        },
    ));
}

/// Two clocks merged: every actor either knows, at the greater counter.
pub open spec fn merged(a: Map<u128, u64>, b: Map<u128, u64>) -> Map<u128, u64> {
    Map::new(
        |k: u128| a.contains_key(k) || b.contains_key(k),
        |k: u128|
            if held(a, k) >= held(b, k) {
                held(a, k)
            } else {
                held(b, k)
            },
    )
}

/// Highest contiguous counter held per actor.
#[derive(Clone, PartialEq, Eq, Debug)]
pub struct VectorClock {
    entries: BTreeMap<u128, u64>,
}

impl VectorClock {
    /// The clock as a map from actor to counter.
    pub closed spec fn view(&self) -> Map<u128, u64> {
        self.entries@
    }

    /// The counter held for `actor`.
    pub open spec fn counter(&self, actor: u128) -> u64 {
        held(self.view(), actor)
    }

    /// A clock that holds nothing.
    pub fn new() -> (r: VectorClock)
        ensures
            r.view() == Map::<u128, u64>::empty(),
    {
        VectorClock { entries: BTreeMap::new() }
    }

    /// A copy of this clock.
    pub fn snapshot(&self) -> (r: VectorClock)
        ensures
            r.view() == self.view(),
    {
        VectorClock { entries: self.entries.clone() }
    }

    /// The highest contiguous counter held for `actor` (0 = none).
    pub fn get(&self, actor: ActorId) -> (r: u64)
        ensures
            r == self.counter(actor.0),
    {
        proof {
            broadcast use vstd::std_specs::btree::group_btree_axioms;
        }
        match self.entries.get(&actor.0) {
            Some(c) => *c,
            None => 0,
        }
    }

    /// Records that the op is held. The counter advances only when the op is
    /// the next one, so the clock never skips a hole.
    pub fn observe(&mut self, id: OpId)
        ensures
            final(self).view() == old(self).view().insert(
                id.actor.0,
                if id.counter >= 1 && id.counter - 1 == old(self).counter(id.actor.0) {
                    id.counter
                } else {
                    old(self).counter(id.actor.0)
                },
            ),
    {
        proof {
            broadcast use vstd::std_specs::btree::group_btree_axioms;
        }
        let current = self.get(id.actor);
        let next = if id.counter >= 1 && id.counter - 1 == current {
            id.counter
        } else {
            current
        };
        self.entries.insert(id.actor.0, next);
    }

    /// Records the contiguous run `1..=counter` of `actor`'s ops at once:
    /// what observing them one by one, in order, leaves.
    pub fn observe_run(&mut self, actor: ActorId, counter: u64)
        ensures
            final(self).view() == (if counter == 0 {
                old(self).view()
            } else {
                old(self).view().insert(
                    actor.0,
                    if old(self).counter(actor.0) >= counter {
                        old(self).counter(actor.0)
                    } else {
                        counter
                    },
                )
            }),
    {
        proof {
            broadcast use vstd::std_specs::btree::group_btree_axioms;
        }
        if counter == 0 {
            return;
        }
        let current = self.get(actor);
        let next = if current >= counter {
            current
        } else {
            counter
        };
        self.entries.insert(actor.0, next);
    }

    /// Whether this clock already covers the op.
    pub fn covers(&self, id: OpId) -> (r: bool)
        ensures
            r == (self.counter(id.actor.0) >= id.counter),
    {
        self.get(id.actor) >= id.counter
    }

    /// Merges another clock, taking the greater coverage per actor.
    pub fn merge_max(&mut self, other: &VectorClock)
        ensures
            final(self).view() == merged(old(self).view(), other.view()),
    {
        proof {
            broadcast use vstd::std_specs::btree::group_btree_axioms;
        }
        let ghost start = self.entries@;
        let ghost mut consumed: int = 0;
        let ghost mut covered: Set<u128> = Set::empty();
        for k in it: other.entries.keys()
            invariant
                consumed == it.index(),
                it.seq().unref().to_set() == other.entries@.dom(),
                covered == it.seq().take(it.index() as int).unref().to_set(),
                it.index() == it.seq().len() ==> covered == other.entries@.dom(),
                self.entries@ == merged(
                    start,
                    other.entries@.restrict(it.seq().take(it.index() as int).unref().to_set()),
                ),
                start == old(self).entries@,
        {
            let theirs = match other.entries.get(k) {
                Some(c) => *c,
                None => 0,
            };
            let ours = match self.entries.get(k) {
                Some(c) => *c,
                None => 0,
            };
            let best = if ours >= theirs {
                ours
            } else {
                theirs
            };
            self.entries.insert(*k, best);
            proof {
                let i = it.index() as int;
                let old_set = it.seq().take(i).unref().to_set();
                let new_set = it.seq().take(i + 1).unref().to_set();
                assert(*k == *it.seq()[i]);
                assert(it.seq().take(i + 1).unref() =~= it.seq().take(i).unref().push(*k));
                assert(new_set =~= old_set.insert(*k));
                assert(self.entries@ =~= merged(start, other.entries@.restrict(new_set)));
                consumed = consumed + 1;
                assert(covered.insert(*k) =~= new_set);
                covered = covered.insert(*k);
                assert(i + 1 == it.seq().len() ==> it.seq().take(i + 1) =~= it.seq());
            }
        }
        proof {
            assert(covered == other.entries@.dom());
            assert(other.entries@.restrict(other.entries@.dom()) =~= other.entries@);
        }
    }

    /// Each actor the clock knows, with its counter, in increasing actor
    /// order.
    pub fn actors(&self) -> (r: Vec<(ActorId, u64)>)
        ensures
            r@.len() == self.view().dom().len(),
            forall|i: int|
                0 <= i < r@.len() ==> self.view().contains_key(#[trigger] r@[i].0.0)
                    && self.view()[r@[i].0.0] == r@[i].1,
            forall|a: u128| #[trigger] self.view().contains_key(a) ==> exists|i: int|
                0 <= i < r@.len() && r@[i].0.0 == a,
            forall|i: int, j: int| 0 <= i < j < r@.len() ==> r@[i].0.0 < r@[j].0.0,
    {
        let mut out: Vec<(ActorId, u64)> = Vec::new();
        for kv in it: self.entries.iter()
            invariant
                out@.len() == it.index(),
                forall|i: int|
                    0 <= i < it.index() ==> #[trigger] out@[i] == (ActorId(*it.seq()[i].0), *it.seq()[i].1),
                it.seq().len() == self.entries@.dom().len(),
                forall|i: int|
                    0 <= i < it.seq().len() ==> self.entries@.contains_key(*#[trigger] it.seq()[i].0)
                        && self.entries@[*it.seq()[i].0] == *it.seq()[i].1,
                forall|a: u128| #[trigger] self.entries@.contains_key(a) ==> it.seq().contains((&a, &self.entries@[a])),
                vstd::std_specs::btree::increasing_seq(it.seq().map_values(|kv: (&u128, &u64)| *kv.0)),
                it.index() == it.seq().len() ==> actors_listed(self.entries@, out@),
        {
            let (k, v) = kv;
            out.push((ActorId(*k), *v));
            proof {
                lemma_listed_when_done(self.entries@, it.seq(), out@, it.index() + 1);
            }
        }
        out
    }

    /// Whether the clock holds nothing from anyone.
    pub fn is_empty(&self) -> (r: bool)
        ensures
            r == forall|a: u128| self.counter(a) == 0,
    {
        for c in it: self.entries.values()
            invariant
                forall|i: int| 0 <= i < it.index() ==> *#[trigger] it.seq()[i] == 0,
                it.seq().unref().to_set() == self.entries@.values(),
                it.index() == it.seq().len() ==> forall|a: u128| #[trigger] held(self.entries@, a) == 0,
        {
            if *c != 0 {
                proof {
                    let a = lemma_nonzero_value(self.entries@, it.seq(), it.index() as int, *c);
                    assert(self.counter(a) != 0);
                }
                return false;
            }
            proof {
                lemma_all_zero_when_done(self.entries@, it.seq(), it.index() + 1);
            }
        }
        true
    }
}

proof fn lemma_all_zero_when_done(m: Map<u128, u64>, s: Seq<&u64>, n: int)
    requires
        0 <= n <= s.len(),
        forall|i: int| 0 <= i < n ==> *#[trigger] s[i] == 0,
        s.unref().to_set() == m.values(),
    ensures
        n == s.len() ==> forall|a: u128| #[trigger] held(m, a) == 0,
{
    if n == s.len() {
        assert forall|a: u128| #[trigger] held(m, a) == 0 by {
            if m.contains_key(a) {
                assert(m.values().contains(m[a]));
                assert(s.unref().contains(m[a]));
                let i = choose|i: int| 0 <= i < s.unref().len() && s.unref()[i] == m[a];
                assert(*s[i] == 0);
            }
        }
    }
}

proof fn lemma_nonzero_value(m: Map<u128, u64>, s: Seq<&u64>, at: int, c: u64) -> (a: u128)
    requires
        0 <= at < s.len(),
        *s[at] == c,
        c != 0,
        s.unref().to_set() == m.values(),
    ensures
        held(m, a) != 0,
{
    assert(s.unref()[at] == c);
    assert(s.unref().contains(c));
    assert(m.values().contains(c));
    let a = choose|a: u128| m.contains_key(a) && m[a] == c;
    a
}

proof fn lemma_listed_when_done(m: Map<u128, u64>, s: Seq<(&u128, &u64)>, out: Seq<(ActorId, u64)>, n: int)
    requires
        out.len() == n,
        0 <= n <= s.len(),
        forall|i: int| 0 <= i < n ==> #[trigger] out[i] == (ActorId(*s[i].0), *s[i].1),
        s.len() == m.dom().len(),
        forall|i: int| 0 <= i < s.len() ==> m.contains_key(*#[trigger] s[i].0) && m[*s[i].0] == *s[i].1,
        forall|a: u128| #[trigger] m.contains_key(a) ==> s.contains((&a, &m[a])),
        vstd::std_specs::btree::increasing_seq(s.map_values(|kv: (&u128, &u64)| *kv.0)),
    ensures
        n == s.len() ==> actors_listed(m, out),
{
    if n == s.len() {
        let keys = s.map_values(|kv: (&u128, &u64)| *kv.0);
        vstd::std_specs::btree::axiom_increasing_seq_meaning(keys);
        assert forall|i: int| 0 <= i < out.len() implies m.contains_key(#[trigger] out[i].0.0)
            && m[out[i].0.0] == out[i].1 by {
            assert(out[i] == (ActorId(*s[i].0), *s[i].1));
        }
        assert forall|a: u128| #[trigger] m.contains_key(a) implies exists|i: int|
            0 <= i < out.len() && out[i].0.0 == a by {
            assert(s.contains((&a, &m[a])));
            let i = choose|i: int| 0 <= i < s.len() && s[i] == (&a, &m[a]);
            assert(out[i] == (ActorId(*s[i].0), *s[i].1));
        }
        assert forall|i: int, j: int| 0 <= i < j < out.len() implies out[i].0.0 < out[j].0.0 by {
            assert(out[i] == (ActorId(*s[i].0), *s[i].1));
            assert(out[j] == (ActorId(*s[j].0), *s[j].1));
            assert(keys[i] == *s[i].0 && keys[j] == *s[j].0);
            assert(keys[i].cmp_spec(&keys[j]) is Less);
        }
    }
}

/// `list` names every actor of `m` once, with its counter, in increasing
/// actor order.
pub open spec fn actors_listed(m: Map<u128, u64>, list: Seq<(ActorId, u64)>) -> bool {
    &&& list.len() == m.dom().len()
    &&& forall|i: int|
        0 <= i < list.len() ==> m.contains_key(#[trigger] list[i].0.0) && m[list[i].0.0] == list[i].1
    &&& forall|a: u128| #[trigger] m.contains_key(a) ==> exists|i: int| 0 <= i < list.len() && list[i].0.0 == a
    &&& forall|i: int, j: int| 0 <= i < j < list.len() ==> list[i].0.0 < list[j].0.0
}

/// The HELLO payload: the author, the versions it speaks, and what it holds.
#[derive(Clone, PartialEq, Eq, Debug)]
pub struct Hello {
    pub actor: ActorId,
    pub wire: u16,
    pub model: u16,
    pub clock: VectorClock,
}

// ------------------------------------------------------------------ laws

/// Merging clocks is commutative.
pub proof fn lemma_merge_commutes(a: Map<u128, u64>, b: Map<u128, u64>)
    ensures
        merged(a, b) == merged(b, a),
{
    assert(merged(a, b) =~= merged(b, a));
}

/// Merging a clock with itself changes nothing.
pub proof fn lemma_merge_idempotent(a: Map<u128, u64>)
    ensures
        merged(a, a) == a,
{
    assert(merged(a, a) =~= a);
}

/// Merging clocks is associative, so the order peers are heard from does not
/// matter.
pub proof fn lemma_merge_associative(a: Map<u128, u64>, b: Map<u128, u64>, c: Map<u128, u64>)
    ensures
        merged(merged(a, b), c) == merged(a, merged(b, c)),
{
    assert(merged(merged(a, b), c) =~= merged(a, merged(b, c)));
}

/// A merged clock covers everything either clock covered, and claims nothing
/// neither did.
pub proof fn lemma_merge_least_upper_bound(a: Map<u128, u64>, b: Map<u128, u64>, actor: u128)
    ensures
        held(merged(a, b), actor) >= held(a, actor),
        held(merged(a, b), actor) >= held(b, actor),
        held(merged(a, b), actor) == held(a, actor) || held(merged(a, b), actor) == held(b, actor),
{
}

/// Observing an op moves its actor's counter by at most one, and only onto
/// the op itself: a clock never claims an op past a hole.
pub proof fn lemma_observe_is_contiguous(before: Map<u128, u64>, after: Map<u128, u64>, id: OpId)
    requires
        after == before.insert(
            id.actor.0,
            if id.counter >= 1 && id.counter - 1 == held(before, id.actor.0) {
                id.counter
            } else {
                held(before, id.actor.0)
            },
        ),
    ensures
        held(after, id.actor.0) == held(before, id.actor.0) || held(after, id.actor.0) == held(
            before,
            id.actor.0,
        ) + 1,
        held(after, id.actor.0) >= id.counter <==> held(before, id.actor.0) + 1 >= id.counter,
        forall|other: u128| other != id.actor.0 ==> held(after, other) == held(before, other),
{
}

// ------------------------------------------------------------ admission

/// Why the relay refused to admit an op.
#[derive(Clone, Copy, PartialEq, Eq, Structural, Debug)]
pub enum AdmissionError {
    /// Authorship does not match the authenticated principal.
    Spoofed,
    /// Failed schema or bounds validation.
    Invalid,
    /// The actor's op-rate bucket is exhausted.
    RateLimited,
    /// The actor's byte bucket is exhausted.
    ByteLimited,
}

/// The tokens a bucket holds after refilling at `now_ms`: what the elapsed
/// time earned at `per_sec` tokens a second, capped at `burst`; unchanged
/// when no time has passed.
pub open spec fn refill_tokens(tokens: u64, burst: u64, per_sec: u64, last: u64, now_ms: u64) -> u64 {
    if now_ms <= last {
        tokens
    } else {
        let earned: int = if (now_ms - last) * per_sec > u64::MAX {
            (u64::MAX / 1000) as int
        } else {
            (now_ms - last) * per_sec / 1000
        };
        if tokens + earned > burst {
            burst
        } else {
            (tokens + earned) as u64
        }
    }
}

/// A token bucket over one dimension. Time is given in milliseconds, never
/// read from a clock.
#[derive(Clone, Debug)]
pub struct Bucket {
    tokens: u64,
    burst: u64,
    per_sec: u64,
    last_refill_ms: u64,
}

impl Bucket {
    pub closed spec fn tokens(&self) -> u64 {
        self.tokens
    }

    pub closed spec fn burst(&self) -> u64 {
        self.burst
    }

    pub closed spec fn per_sec(&self) -> u64 {
        self.per_sec
    }

    pub closed spec fn last_refill(&self) -> u64 {
        self.last_refill_ms
    }

    /// The bucket's invariant: never more tokens than its depth.
    pub closed spec fn wf(&self) -> bool {
        &&& self.tokens <= self.burst
        &&& self.burst <= u32::MAX
        &&& self.per_sec <= u32::MAX
    }

    /// A full bucket refilling at `per_sec` up to `burst`.
    pub fn new(per_sec: u32, burst: u32) -> (r: Bucket)
        ensures
            r.wf(),
            r.tokens() == burst,
            r.burst() == burst,
            r.per_sec() == per_sec,
            r.last_refill() == 0,
    {
        Bucket { tokens: burst as u64, burst: burst as u64, per_sec: per_sec as u64, last_refill_ms: 0 }
    }

    /// Credits the tokens earned since the last refill, up to the depth. A
    /// time at or before the last refill earns nothing.
    pub fn refill(&mut self, now_ms: u64)
        requires
            old(self).wf(),
        ensures
            final(self).wf(),
            final(self).burst() == old(self).burst(),
            final(self).per_sec() == old(self).per_sec(),
            final(self).tokens() == refill_tokens(
                old(self).tokens(),
                old(self).burst(),
                old(self).per_sec(),
                old(self).last_refill(),
                now_ms,
            ),
            now_ms <= old(self).last_refill() ==> *final(self) == *old(self),
            now_ms > old(self).last_refill() ==> ({
                let earned: int = if (now_ms - old(self).last_refill()) * old(self).per_sec() > u64::MAX {
                    (u64::MAX / 1000) as int
                } else {
                    (now_ms - old(self).last_refill()) * old(self).per_sec() / 1000
                };
                &&& final(self).last_refill() == now_ms
                &&& final(self).tokens() == if old(self).tokens() + earned > old(self).burst() {
                    old(self).burst() as int
                } else {
                    old(self).tokens() + earned
                }
            }),
    {
        let elapsed = now_ms.saturating_sub(self.last_refill_ms);
        if elapsed == 0 {
            return;
        }
        self.last_refill_ms = now_ms;
        let product = match elapsed.checked_mul(self.per_sec) {
            Some(p) => p,
            None => u64::MAX,
        };
        let earned = product / 1000;
        let total = self.tokens + earned;
        self.tokens = if total < self.burst {
            total
        } else {
            self.burst
        };
    }

    /// Takes `n` tokens if there are that many.
    pub fn take(&mut self, n: u64) -> (r: bool)
        requires
            old(self).wf(),
        ensures
            final(self).wf(),
            r == (old(self).tokens() >= n),
            r ==> final(self).tokens() == old(self).tokens() - n,
            !r ==> final(self).tokens() == old(self).tokens(),
            final(self).burst() == old(self).burst(),
            final(self).per_sec() == old(self).per_sec(),
            final(self).last_refill() == old(self).last_refill(),
    {
        if self.tokens >= n {
            self.tokens = self.tokens - n;
            true
        } else {
            false
        }
    }
}

} // verus!
