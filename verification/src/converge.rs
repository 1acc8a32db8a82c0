//! Why a contested cell converges: whatever order its writes arrive in, its
//! value, winning stamp and retained losers summarize the set of writes it
//! received: the greatest write wins, and each other actor's greatest write
//! is retained.

use vstd::prelude::*;
use crate::stamps::stamp_less;
use crate::store::{
    beats, best_of_actor, concurrent_losers, loser_key, stamp_after, stamps_distinct, value_after, Loser, Value,
};
use crate::types::{ActorId, OpId};

verus! {

/// `ws[i]` is the greatest write of `ws`.
pub open spec fn top_write(ws: Seq<Loser>, i: int) -> bool {
    &&& 0 <= i < ws.len()
    &&& forall|j: int| 0 <= j < ws.len() && j != i ==> stamp_less(loser_key(#[trigger] ws[j]), loser_key(ws[i]))
}

/// A contested cell's value and stamp summarize the writes `ws` it received:
/// the greatest write is the value and the winning stamp, and the losers
/// are every other actor's greatest write.
pub open spec fn summarizes(ws: Seq<Loser>, v: Value, st: (u64, OpId, Seq<Loser>)) -> bool {
    exists|i: int|
        #![trigger top_write(ws, i)]
        top_write(ws, i) && v == ws[i].2 && st.0 == ws[i].0 && st.1 == ws[i].1 && concurrent_losers(ws, ws[i].1.actor, st.2)
}

/// `x` is a write of `l` that no write by the same actor beats.
#[verifier::opaque]
pub open spec fn actor_max(l: Seq<Loser>, x: Loser) -> bool {
    &&& exists|i: int| 0 <= i < l.len() && l[i] == x
    &&& forall|j: int| 0 <= j < l.len() && (#[trigger] l[j]).1.actor == x.1.actor ==> !stamp_less(loser_key(x), loser_key(l[j]))
}

proof fn lemma_best_is_max(l: Seq<Loser>, i: int)
    requires
        best_of_actor(l, i),
    ensures
        actor_max(l, l[i]),
{
    reveal(actor_max);
}

proof fn lemma_max_is_best(l: Seq<Loser>, x: Loser) -> (i: int)
    requires
        stamps_distinct(l),
        actor_max(l, x),
    ensures
        best_of_actor(l, i),
        l[i] == x,
{
    reveal(actor_max);
    let i = choose|i: int| 0 <= i < l.len() && l[i] == x;
    assert forall|j: int| i < j < l.len() && (#[trigger] l[j]).1.actor == l[i].1.actor implies stamp_less(loser_key(l[j]), loser_key(l[i])) by {
        assert(loser_key(l[i]) != loser_key(l[j]));
    }
    i
}

/// Every member of a reduction is its actor's greatest write.
proof fn lemma_reduction_facts(l: Seq<Loser>, w: ActorId, r: Seq<Loser>)
    requires
        concurrent_losers(l, w, r),
    ensures
        forall|t: int| 0 <= t < r.len() ==> (#[trigger] r[t]).1.actor != w && actor_max(l, r[t]),
{
    reveal(concurrent_losers);
    assert forall|t: int| 0 <= t < r.len() implies (#[trigger] r[t]).1.actor != w && actor_max(l, r[t]) by {
        let i = choose|i: int| best_of_actor(l, i) && r[t] == l[i];
        lemma_best_is_max(l, i);
    }
}

/// A list is a reduction of `l` when its members are other actors' greatest
/// writes of `l`, every such actor has one, and the stamps increase.
proof fn lemma_reduction_of(l: Seq<Loser>, w: ActorId, r: Seq<Loser>)
    requires
        stamps_distinct(l),
        forall|t: int| 0 <= t < r.len() ==> (#[trigger] r[t]).1.actor != w && actor_max(l, r[t]),
        forall|j: int|
            0 <= j < l.len() && (#[trigger] l[j]).1.actor != w ==> exists|t: int| 0 <= t < r.len() && r[t].1.actor == l[j].1.actor,
        forall|s: int, t: int| 0 <= s < t < r.len() ==> stamp_less(loser_key(#[trigger] r[s]), loser_key(#[trigger] r[t])),
    ensures
        concurrent_losers(l, w, r),
{
    reveal(concurrent_losers);
    assert forall|t: int| 0 <= t < r.len() implies (#[trigger] r[t]).1.actor != w && exists|i: int|
        best_of_actor(l, i) && r[t] == l[i] by {
        let i = lemma_max_is_best(l, r[t]);
    }
}

/// The first write to a contested cell leaves it summarizing that write.
pub proof fn lemma_first_write_summarizes(w: Loser)
    ensures
        value_after(true, None, None, w.0, w.1, w.2) == w.2,
        stamp_after(true, None, None, w.0, w.1, w.2, Some((w.0, w.1, Seq::<Loser>::empty()))),
        summarizes(seq![w], w.2, (w.0, w.1, Seq::<Loser>::empty())),
{
    let ws = seq![w];
    assert(top_write(ws, 0));
    reveal(concurrent_losers);
    assert(concurrent_losers(ws, w.1.actor, Seq::<Loser>::empty()));
}

/// The old losers with one more write: the members by index.
proof fn lemma_push_index<A>(s: Seq<A>, x: A, j: int)
    requires
        0 <= j <= s.len(),
    ensures
        j < s.len() ==> s.push(x)[j] == s[j],
        j == s.len() ==> s.push(x)[j] == x,
{
}

proof fn lemma_max_at(l: Seq<Loser>, x: Loser) -> (i: int)
    requires
        actor_max(l, x),
    ensures
        0 <= i < l.len(),
        l[i] == x,
{
    reveal(actor_max);
    choose|i: int| 0 <= i < l.len() && l[i] == x
}

proof fn lemma_max_beats(l: Seq<Loser>, x: Loser, j: int)
    requires
        actor_max(l, x),
        0 <= j < l.len(),
        l[j].1.actor == x.1.actor,
    ensures
        !stamp_less(loser_key(x), loser_key(l[j])),
{
    reveal(actor_max);
}

proof fn lemma_max_intro(l: Seq<Loser>, x: Loser, i: int)
    requires
        0 <= i < l.len(),
        l[i] == x,
        forall|j: int| 0 <= j < l.len() && (#[trigger] l[j]).1.actor == x.1.actor ==> !stamp_less(loser_key(x), loser_key(l[j])),
    ensures
        actor_max(l, x),
{
    reveal(actor_max);
}

proof fn lemma_reduction_has(l: Seq<Loser>, w: ActorId, r: Seq<Loser>, j: int) -> (t: int)
    requires
        concurrent_losers(l, w, r),
        0 <= j < l.len(),
        l[j].1.actor != w,
    ensures
        0 <= t < r.len(),
        r[t].1.actor == l[j].1.actor,
{
    reveal(concurrent_losers);
    choose|t: int| 0 <= t < r.len() && r[t].1.actor == l[j].1.actor
}

proof fn lemma_reduction_sorted(l: Seq<Loser>, w: ActorId, r: Seq<Loser>)
    requires
        concurrent_losers(l, w, r),
    ensures
        forall|s: int, t: int| 0 <= s < t < r.len() ==> stamp_less(loser_key(#[trigger] r[s]), loser_key(#[trigger] r[t])),
{
    reveal(concurrent_losers);
}

/// A write beating a cell's stamp becomes the winner, and the old winner
/// joins the losers.
#[verifier::rlimit(80)]
#[verifier::spinoff_prover]
proof fn lemma_winning_write(ws: Seq<Loser>, i0: int, st2: Seq<Loser>, w: Loser, r: Seq<Loser>)
    requires
        stamps_distinct(ws.push(w)),
        top_write(ws, i0),
        concurrent_losers(ws, ws[i0].1.actor, st2),
        stamp_less(loser_key(ws[i0]), loser_key(w)),
        concurrent_losers(st2.push(ws[i0]), w.1.actor, r),
    ensures
        top_write(ws.push(w), ws.len() as int),
        concurrent_losers(ws.push(w), w.1.actor, r),
{
    let post = ws.push(w);
    let n = ws.len() as int;
    let w0 = ws[i0];
    let a0 = w0.1.actor;
    let l2 = st2.push(w0);
    let m = st2.len() as int;
    assert(post[n] == w);
    lemma_reduction_facts(ws, a0, st2);
    lemma_reduction_facts(l2, w.1.actor, r);
    lemma_reduction_sorted(l2, w.1.actor, r);
    assert(stamps_distinct(ws)) by {
        assert forall|i: int, j: int| 0 <= i < j < ws.len() implies loser_key(#[trigger] ws[i]) != loser_key(#[trigger] ws[j]) by {
            assert(post[i] == ws[i] && post[j] == ws[j]);
        }
    }
    assert(l2[m] == w0);
    assert forall|j: int| 0 <= j < post.len() && j != n implies stamp_less(loser_key(#[trigger] post[j]), loser_key(post[n])) by {
        assert(post[j] == ws[j]);
    }
    assert forall|t: int| 0 <= t < r.len() implies (#[trigger] r[t]).1.actor != w.1.actor && actor_max(post, r[t]) by {
        let x = r[t];
        let i = lemma_max_at(l2, x);
        if i == m {
            assert(post[i0] == x);
            assert forall|j: int| 0 <= j < post.len() && (#[trigger] post[j]).1.actor == x.1.actor implies !stamp_less(loser_key(x), loser_key(post[j])) by {
                if j < n {
                    assert(post[j] == ws[j]);
                }
            }
            lemma_max_intro(post, x, i0);
        } else {
            assert(l2[i] == st2[i]);
            let y = st2[i];
            assert(actor_max(ws, y));
            let k = lemma_max_at(ws, y);
            assert(post[k] == x);
            assert forall|j: int| 0 <= j < post.len() && (#[trigger] post[j]).1.actor == x.1.actor implies !stamp_less(loser_key(x), loser_key(post[j])) by {
                if j < n {
                    assert(post[j] == ws[j]);
                    lemma_max_beats(ws, y, j);
                }
            }
            lemma_max_intro(post, x, k);
        }
    }
    assert forall|j: int| 0 <= j < post.len() && (#[trigger] post[j]).1.actor != w.1.actor implies exists|t: int|
        0 <= t < r.len() && r[t].1.actor == post[j].1.actor by {
        assert(j < n);
        assert(post[j] == ws[j]);
        if ws[j].1.actor == a0 {
            let t = lemma_reduction_has(l2, w.1.actor, r, m);
        } else {
            let k = lemma_reduction_has(ws, a0, st2, j);
            assert(l2[k] == st2[k]);
            let t = lemma_reduction_has(l2, w.1.actor, r, k);
        }
    }
    lemma_reduction_of(post, w.1.actor, r);
}

/// A write losing to a cell's stamp leaves the winner, and joins the losers.
#[verifier::rlimit(80)]
#[verifier::spinoff_prover]
proof fn lemma_losing_write(ws: Seq<Loser>, i0: int, st2: Seq<Loser>, w: Loser, r: Seq<Loser>)
    requires
        stamps_distinct(ws.push(w)),
        top_write(ws, i0),
        concurrent_losers(ws, ws[i0].1.actor, st2),
        !stamp_less(loser_key(ws[i0]), loser_key(w)),
        concurrent_losers(st2.push(w), ws[i0].1.actor, r),
    ensures
        top_write(ws.push(w), i0),
        concurrent_losers(ws.push(w), ws[i0].1.actor, r),
{
    let post = ws.push(w);
    let n = ws.len() as int;
    let w0 = ws[i0];
    let a0 = w0.1.actor;
    let l2 = st2.push(w);
    let m = st2.len() as int;
    assert(post[n] == w);
    assert(post[i0] == w0);
    assert(loser_key(w) != loser_key(w0));
    lemma_reduction_facts(ws, a0, st2);
    lemma_reduction_facts(l2, a0, r);
    lemma_reduction_sorted(l2, a0, r);
    assert(stamps_distinct(ws)) by {
        assert forall|i: int, j: int| 0 <= i < j < ws.len() implies loser_key(#[trigger] ws[i]) != loser_key(#[trigger] ws[j]) by {
            assert(post[i] == ws[i] && post[j] == ws[j]);
        }
    }
    assert(l2[m] == w);
    assert forall|j: int| 0 <= j < post.len() && j != i0 implies stamp_less(loser_key(#[trigger] post[j]), loser_key(post[i0])) by {
        if j < n {
            assert(post[j] == ws[j]);
        }
    }
    assert forall|t: int| 0 <= t < r.len() implies (#[trigger] r[t]).1.actor != a0 && actor_max(post, r[t]) by {
        let x = r[t];
        let i = lemma_max_at(l2, x);
        let at = if i == m {
            n
        } else {
            assert(l2[i] == st2[i]);
            assert(actor_max(ws, st2[i]));
            lemma_max_at(ws, st2[i])
        };
        assert(post[at] == x);
        assert forall|j: int| 0 <= j < post.len() && (#[trigger] post[j]).1.actor == x.1.actor implies !stamp_less(loser_key(x), loser_key(post[j])) by {
            if j == n {
                lemma_max_beats(l2, x, m);
            } else {
                assert(post[j] == ws[j]);
                let k = lemma_reduction_has(ws, a0, st2, j);
                let y = st2[k];
                assert(actor_max(ws, y));
                lemma_max_beats(ws, y, j);
                assert(l2[k] == y);
                lemma_max_beats(l2, x, k);
            }
        }
        lemma_max_intro(post, x, at);
    }
    assert forall|j: int| 0 <= j < post.len() && (#[trigger] post[j]).1.actor != a0 implies exists|t: int|
        0 <= t < r.len() && r[t].1.actor == post[j].1.actor by {
        if j == n {
            let t = lemma_reduction_has(l2, a0, r, m);
        } else {
            assert(post[j] == ws[j]);
            let k = lemma_reduction_has(ws, a0, st2, j);
            assert(l2[k] == st2[k]);
            let t = lemma_reduction_has(l2, a0, r, k);
        }
    }
    lemma_reduction_of(post, a0, r);
}

/// A write to a contested cell that summarizes its writes leaves it
/// summarizing them with the new write added.
pub proof fn lemma_write_summarizes(
    ws: Seq<Loser>,
    v: Value,
    st: (u64, OpId, Seq<Loser>),
    w: Loser,
    after: Option<(u64, OpId, Seq<Loser>)>,
)
    requires
        summarizes(ws, v, st),
        stamps_distinct(ws.push(w)),
        stamp_after(true, Some(st), Some(v), w.0, w.1, w.2, after),
    ensures
        after is Some,
        summarizes(ws.push(w), value_after(true, Some(st), Some(v), w.0, w.1, w.2), after->0),
{
    let i0 = choose|i: int| #![trigger top_write(ws, i)]
        top_write(ws, i) && v == ws[i].2 && st.0 == ws[i].0 && st.1 == ws[i].1 && concurrent_losers(ws, ws[i].1.actor, st.2);
    let w0 = ws[i0];
    assert(w0 == (st.0, st.1, v));
    let aft = after->0;
    let post = ws.push(w);
    let n = ws.len() as int;
    if beats(w.0, w.1, st) {
        lemma_winning_write(ws, i0, st.2, w, aft.2);
        assert(post[n] == w);
        assert(top_write(post, n) && w.2 == post[n].2 && aft.0 == post[n].0 && aft.1 == post[n].1 && concurrent_losers(
            post,
            post[n].1.actor,
            aft.2,
        ));
    } else {
        lemma_losing_write(ws, i0, st.2, w, aft.2);
        assert(post[i0] == w0);
        assert(top_write(post, i0) && v == post[i0].2 && aft.0 == post[i0].0 && aft.1 == post[i0].1 && concurrent_losers(
            post,
            post[i0].1.actor,
            aft.2,
        ));
    }
}

/// However a contested cell's writes arrive, each op once, the cell ends
/// with the same value, the same winning stamp and the same retained losers:
/// two cells that received the same writes summarize them identically.
pub proof fn lemma_contested_cell_converges(
    ws1: Seq<Loser>,
    ws2: Seq<Loser>,
    v1: Value,
    st1: (u64, OpId, Seq<Loser>),
    v2: Value,
    st2: (u64, OpId, Seq<Loser>),
)
    requires
        ws1.to_set() == ws2.to_set(),
        stamps_distinct(ws1),
        stamps_distinct(ws2),
        summarizes(ws1, v1, st1),
        summarizes(ws2, v2, st2),
    ensures
        v1 == v2,
        st1 == st2,
{
    let i1 = choose|i: int| #![trigger top_write(ws1, i)]
        top_write(ws1, i) && v1 == ws1[i].2 && st1.0 == ws1[i].0 && st1.1 == ws1[i].1 && concurrent_losers(ws1, ws1[i].1.actor, st1.2);
    let i2 = choose|i: int| #![trigger top_write(ws2, i)]
        top_write(ws2, i) && v2 == ws2[i].2 && st2.0 == ws2[i].0 && st2.1 == ws2[i].1 && concurrent_losers(ws2, ws2[i].1.actor, st2.2);
    assert(ws1.to_set().contains(ws1[i1]));
    assert(ws2.to_set().contains(ws2[i2]));
    let j2 = choose|j: int| 0 <= j < ws2.len() && ws2[j] == ws1[i1];
    let j1 = choose|j: int| 0 <= j < ws1.len() && ws1[j] == ws2[i2];
    if j2 != i2 {
        assert(stamp_less(loser_key(ws2[j2]), loser_key(ws2[i2])));
        if j1 != i1 {
            assert(stamp_less(loser_key(ws1[j1]), loser_key(ws1[i1])));
        }
    }
    assert(ws1[i1] == ws2[i2]);
    crate::store::lemma_losers_order_independent(ws1, ws2, ws1[i1].1.actor, st1.2, st2.2);
}

} // verus!
