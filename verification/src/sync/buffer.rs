//! The causal-gap buffer. Ops that arrive ahead of a gap in their actor's
//! run are held, neither applied nor dropped, and released in order the
//! moment the gap closes.

use vstd::prelude::*;
use std::collections::BTreeMap;
use vstd::std_specs::btree::increasing_seq;
use vstd::std_specs::cmp::OrdSpec;
use crate::sync::{held, SyncOp, VectorClock};
use crate::sync::queue::covered;
use crate::types::ActorId;

verus! {

broadcast use vstd::std_specs::btree::group_btree_axioms, vstd::laws_cmp::group_laws_cmp,
    vstd::seq_lib::group_seq_properties;

/// The most ops the buffer holds. Offers beyond it are refused, not lost:
/// they were never acknowledged, so their author offers them again.
pub const CAUSAL_BUFFER_LIMIT: usize = 4096;

/// Where the buffer files an op: its actor, then its counter.
pub open spec fn key_of(op: SyncOp) -> (u128, u64) {
    (op.id.actor.0, op.id.counter)
}

/// The buffer's key order: by actor, then by counter.
pub open spec fn key_lt(a: (u128, u64), b: (u128, u64)) -> bool {
    a.0 < b.0 || (a.0 == b.0 && a.1 < b.1)
}

/// The buffer after `ops` are offered against a clock: each op the clock
/// does not cover is held at its key, while there is room.
pub open spec fn offered(h: Map<(u128, u64), SyncOp>, m: Map<u128, u64>, ops: Seq<SyncOp>) -> Map<
    (u128, u64),
    SyncOp,
>
    decreases ops.len(),
{
    if ops.len() == 0 {
        h
    } else {
        let prev = offered(h, m, ops.drop_last());
        let op = ops.last();
        if covered(m, op.id) || prev.len() >= CAUSAL_BUFFER_LIMIT {
            prev
        } else {
            prev.insert(key_of(op), op)
        }
    }
}

/// The op at this key is the next one its actor's run needs.
pub open spec fn is_next(m: Map<u128, u64>, k: (u128, u64)) -> bool {
    k.1 >= 1 && k.1 - 1 == held(m, k.0)
}

/// A clock after taking in these ops one by one, each the next of its run.
pub open spec fn advanced(m: Map<u128, u64>, r: Seq<SyncOp>) -> Map<u128, u64>
    decreases r.len(),
{
    if r.len() == 0 {
        m
    } else {
        advanced(m, r.drop_last()).insert(r.last().id.actor.0, r.last().id.counter)
    }
}

/// Some op of `r` is filed at `k`.
pub open spec fn released(r: Seq<SyncOp>, k: (u128, u64)) -> bool {
    exists|i: int| 0 <= i < r.len() && key_of(#[trigger] r[i]) == k
}

/// What offering `ops` to a buffer holding `h0` against a clock `m0` does:
/// the buffer takes in the ops as `offered` says; `r` is released in
/// increasing key order, each the next of its run as the clock advances over
/// the ones before; the buffer keeps the rest, none of them ready.
pub open spec fn offer_result(
    h0: Map<(u128, u64), SyncOp>,
    m0: Map<u128, u64>,
    ops: Seq<SyncOp>,
    r: Seq<SyncOp>,
    h2: Map<(u128, u64), SyncOp>,
    m2: Map<u128, u64>,
) -> bool {
    let h = offered(h0, m0, ops);
    &&& m2 == advanced(m0, r)
    &&& forall|i: int|
        0 <= i < r.len() ==> h.contains_key(key_of(#[trigger] r[i])) && h[key_of(r[i])] == r[i]
            && is_next(advanced(m0, r.take(i)), key_of(r[i]))
    &&& forall|i: int, j: int|
        0 <= i < j < r.len() ==> key_lt(key_of(#[trigger] r[i]), key_of(#[trigger] r[j]))
    &&& forall|k: (u128, u64)|
        #[trigger] h2.contains_key(k) <==> h.contains_key(k) && !released(r, k)
    &&& forall|k: (u128, u64)| #[trigger] h2.contains_key(k) ==> h2[k] == h[k] && !is_next(m2, k)
}

/// Keys a map walks in increasing order come in the buffer's key order.
proof fn lemma_keys_increase(s: Seq<(u128, u64)>, p: int, q: int)
    requires
        increasing_seq(s),
        0 <= p < q < s.len(),
    ensures
        key_lt(s[p], s[q]),
{
    vstd::std_specs::btree::axiom_increasing_seq_meaning(s);
    assert(s[p].cmp_spec(&s[q]) is Less);
}

/// Ops held until their actor's run reaches them.
#[derive(Clone, Debug)]
pub struct CausalBuffer {
    held: BTreeMap<(u128, u64), SyncOp>,
}

impl CausalBuffer {
    /// The held ops by key.
    pub closed spec fn view(&self) -> Map<(u128, u64), SyncOp> {
        self.held@
    }

    /// Each op is filed at its own key.
    pub open spec fn wf(&self) -> bool {
        forall|k: (u128, u64)| #[trigger] self.view().contains_key(k) ==> key_of(self.view()[k]) == k
    }

    pub fn new() -> (r: CausalBuffer)
        ensures
            r.view() == Map::<(u128, u64), SyncOp>::empty(),
            r.wf(),
    {
        CausalBuffer { held: BTreeMap::new() }
    }

    /// How many ops wait on a gap.
    pub fn held(&self) -> (r: usize)
        ensures
            r == self.view().len(),
    {
        self.held.len()
    }

    /// The least key, in key order, whose op is the next its run needs.
    fn next_ready(&self, clock: &VectorClock) -> (r: Option<(u128, u64)>)
        ensures
            scan_result(self.view(), clock.view(), r),
    {
        let mut found: Option<(u128, u64)> = None;
        let ghost mut at: int = 0;
        if self.held.len() == 0 {
            proof {
                self.held@.dom().lemma_len0_is_empty();
            }
        }
        for kv in it: self.held.iter()
            invariant
                it.seq().len() == self.held@.dom().len(),
                forall|i: int|
                    0 <= i < it.seq().len() ==> self.held@.contains_key(*#[trigger] it.seq()[i].0),
                forall|k: (u128, u64)| #[trigger]
                    self.held@.contains_key(k) ==> it.seq().contains((&k, &self.held@[k])),
                increasing_seq(it.seq().map_values(|kv: (&(u128, u64), &SyncOp)| *kv.0)),
                found is None ==> forall|i: int|
                    0 <= i < it.index() ==> !is_next(clock.view(), *#[trigger] it.seq()[i].0),
                found matches Some(k) ==> 0 <= at < it.index() && *it.seq()[at].0 == k && is_next(
                    clock.view(),
                    k,
                ) && forall|i: int|
                    0 <= i < at ==> !is_next(clock.view(), *#[trigger] it.seq()[i].0),
                it.index() == it.seq().len() ==> scan_result(self.held@, clock.view(), found),
        {
            let (key, _) = kv;
            let ghost idx = it.index();
            proof {
                assert(*it.seq()[idx].0 == *key);
            }
            if found.is_none() {
                let c = clock.get(ActorId(key.0));
                if key.1 >= 1 && key.1 - 1 == c {
                    found = Some(*key);
                    proof {
                        at = idx;
                    }
                }
            }
            proof {
                lemma_scan_done(it.seq(), self.held@, clock.view(), found, at, idx + 1);
            }
        }
        found
    }

    /// Offers ops against the clock and releases every op that is now the
    /// next of its run, in key order, advancing the clock over each. Ops the
    /// clock already covers are dropped as duplicates; ops beyond the limit
    /// are refused; the rest wait for their gap to close.
    #[verifier::rlimit(60)]
    #[verifier::spinoff_prover]
    pub fn offer(&mut self, clock: &mut VectorClock, ops: Vec<SyncOp>) -> (r: Vec<SyncOp>)
        requires
            old(self).wf(),
        ensures
            final(self).wf(),
            offer_result(
                old(self).view(),
                old(clock).view(),
                ops@,
                r@,
                final(self).view(),
                final(clock).view(),
            ),
    {
        let ghost h0 = self.held@;
        let ghost m0 = clock.view();
        let n = ops.len();
        let mut i: usize = 0;
        while i < n
            invariant
                n == ops@.len(),
                i <= n,
                clock.view() == m0,
                self.wf(),
                self.held@ == offered(h0, m0, ops@.take(i as int)),
            decreases n - i,
        {
            let op = ops[i];
            assert(ops@.take(i + 1).drop_last() == ops@.take(i as int));
            if !clock.covers(op.id) && self.held.len() < CAUSAL_BUFFER_LIMIT {
                let ghost hb = self.held@;
                let ghost before = *self;
                self.held.insert((op.id.actor.0, op.id.counter), op);
                proof {
                    assert(self.held@ == hb.insert(key_of(op), op));
                    assert forall|k: (u128, u64)| #[trigger] self.view().contains_key(k) implies key_of(
                        self.view()[k],
                    ) == k by {
                        if k != key_of(op) {
                            assert(before.view().contains_key(k));
                            assert(self.view()[k] == hb[k]);
                        }
                    }
                }
            }
            i = i + 1;
        }
        assert(ops@.take(n as int) == ops@);
        let ghost h1 = self.held@;
        let mut ready: Vec<SyncOp> = Vec::new();
        loop
            invariant
                self.wf(),
                clock.view() == advanced(m0, ready@),
                forall|i: int|
                    0 <= i < ready@.len() ==> h1.contains_key(key_of(#[trigger] ready@[i])) && h1[key_of(
                        ready@[i],
                    )] == ready@[i] && is_next(advanced(m0, ready@.take(i)), key_of(ready@[i])),
                forall|i: int, j: int|
                    0 <= i < j < ready@.len() ==> key_lt(
                        key_of(#[trigger] ready@[i]),
                        key_of(#[trigger] ready@[j]),
                    ),
                forall|k: (u128, u64)|
                    #[trigger] self.held@.contains_key(k) <==> h1.contains_key(k) && !released(
                        ready@,
                        k,
                    ),
                forall|k: (u128, u64)| #[trigger] self.held@.contains_key(k) ==> self.held@[k] == h1[k],
                ready@.len() > 0 ==> forall|k: (u128, u64)|
                    #[trigger] self.held@.contains_key(k) && is_next(clock.view(), k) ==> key_lt(
                        key_of(ready@.last()),
                        k,
                    ),
            ensures
                forall|k: (u128, u64)|
                    #[trigger] self.held@.contains_key(k) ==> !is_next(clock.view(), k),
            decreases self.held@.len(),
        {
            match self.next_ready(clock) {
                Some(key) => {
                    let ghost before = ready@;
                    let ghost c0 = clock.view();
                    let ghost hb = self.held@;
                    let op = match self.held.remove(&key) {
                        Some(op) => op,
                        None => {
                            assert(false);
                            break;
                        },
                    };
                    assert(op == hb[key]);
                    assert(key_of(op) == key);
                    clock.observe(op.id);
                    ready.push(op);
                    proof {
                        assert(ready@.drop_last() == before);
                        assert(ready@.take(before.len() as int) == before);
                        assert(clock.view() == c0.insert(key.0, key.1));
                        assert forall|i: int| 0 <= i < ready@.len() implies h1.contains_key(
                            key_of(#[trigger] ready@[i]),
                        ) && h1[key_of(ready@[i])] == ready@[i] && is_next(
                            advanced(m0, ready@.take(i)),
                            key_of(ready@[i]),
                        ) by {
                            if i < before.len() {
                                assert(ready@[i] == before[i]);
                                assert(ready@.take(i) == before.take(i));
                            }
                        }
                        assert forall|i: int, j: int| 0 <= i < j < ready@.len() implies key_lt(
                            key_of(#[trigger] ready@[i]),
                            key_of(#[trigger] ready@[j]),
                        ) by {
                            if j < before.len() {
                                assert(ready@[i] == before[i] && ready@[j] == before[j]);
                            } else {
                                assert(ready@[i] == before[i]);
                                if i < before.len() - 1 {
                                    assert(before[before.len() - 1] == before.last());
                                }
                            }
                        }
                        assert forall|k: (u128, u64)| #[trigger]
                            self.held@.contains_key(k) <==> h1.contains_key(k) && !released(
                                ready@,
                                k,
                            ) by {
                            if released(before, k) {
                                let i = choose|i: int| 0 <= i < before.len() && key_of(#[trigger] before[i]) == k;
                                assert(ready@[i] == before[i]);
                            }
                            if released(ready@, k) {
                                let i = choose|i: int| 0 <= i < ready@.len() && key_of(#[trigger] ready@[i]) == k;
                                if i < before.len() {
                                    assert(ready@[i] == before[i]);
                                }
                            }
                            assert(key_of(ready@[before.len() as int]) == key);
                        }
                        assert forall|k: (u128, u64)|
                            #[trigger] self.held@.contains_key(k) && is_next(clock.view(), k) implies key_lt(
                            key_of(ready@.last()),
                            k,
                        ) by {
                            assert(hb.contains_key(k));
                            if k.0 != key.0 {
                                assert(held(clock.view(), k.0) == held(c0, k.0));
                            }
                        }
                    }
                },
                None => {
                    break;
                },
            }
        }
        ready
    }
}

/// What a scan for the next ready key finds: the least ready key, or none
/// when no held op is ready.
pub open spec fn scan_result(
    h: Map<(u128, u64), SyncOp>,
    m: Map<u128, u64>,
    found: Option<(u128, u64)>,
) -> bool {
    &&& found matches Some(k) ==> h.contains_key(k) && is_next(m, k) && forall|j: (u128, u64)|
        #![trigger h.contains_key(j)]
        h.contains_key(j) && is_next(m, j) ==> j == k || key_lt(k, j)
    &&& found is None ==> forall|j: (u128, u64)| #[trigger] h.contains_key(j) ==> !is_next(m, j)
}

proof fn lemma_scan_done(
    s: Seq<(&(u128, u64), &SyncOp)>,
    h: Map<(u128, u64), SyncOp>,
    m: Map<u128, u64>,
    found: Option<(u128, u64)>,
    at: int,
    n: int,
)
    requires
        0 <= n <= s.len(),
        forall|i: int| 0 <= i < s.len() ==> h.contains_key(*#[trigger] s[i].0),
        forall|k: (u128, u64)| #[trigger] h.contains_key(k) ==> s.contains((&k, &h[k])),
        increasing_seq(s.map_values(|kv: (&(u128, u64), &SyncOp)| *kv.0)),
        found is None ==> forall|i: int| 0 <= i < n ==> !is_next(m, *#[trigger] s[i].0),
        found matches Some(k) ==> 0 <= at < n && *s[at].0 == k && is_next(m, k) && forall|
            i: int,
        | 0 <= i < at ==> !is_next(m, *#[trigger] s[i].0),
    ensures
        n == s.len() ==> scan_result(h, m, found),
{
    if n < s.len() {
        return;
    }
    let keys = s.map_values(|kv: (&(u128, u64), &SyncOp)| *kv.0);
    match found {
        Some(k) => {
            assert forall|j: (u128, u64)|
                #![trigger h.contains_key(j)]
                h.contains_key(j) && is_next(m, j) implies j == k || key_lt(k, j) by {
                assert(s.contains((&j, &h[j])));
                let p = choose|p: int| 0 <= p < s.len() && s[p] == (&j, &h[j]);
                assert(*s[p].0 == j);
                if p > at {
                    assert(keys[at] == k && keys[p] == j);
                    lemma_keys_increase(keys, at, p);
                }
            }
            assert(h.contains_key(*s[at].0));
        },
        None => {
            assert forall|j: (u128, u64)| #[trigger] h.contains_key(j) implies !is_next(m, j) by {
                assert(s.contains((&j, &h[j])));
                let p = choose|p: int| 0 <= p < s.len() && s[p] == (&j, &h[j]);
                assert(*s[p].0 == j);
            }
        },
    }
}

} // verus!
