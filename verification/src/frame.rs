//! The relay's wire codec for vector clocks: a big-endian count, then each
//! actor with its counter. A clock read off the wire is rebuilt by replaying
//! each actor's run, so a peer cannot claim coverage by asserting a number.

use vstd::prelude::*;
use std::vec::Vec;
use crate::image::{be_bytes, be_value, get_be, put_be, pow256, lemma_pow256_values, lemma_be_round_trip};
use crate::sync::{VectorClock, actors_listed, held};
use crate::types::{ActorId, OpId};

verus! {

/// The largest frame body a reader accepts: comfortably above a real op
/// batch, far below "allocate whatever the peer claims".
pub const MAX_FRAME: usize = 0x100_0000;

/// Why a frame body could not be read.
#[derive(Clone, Copy, PartialEq, Eq, Structural, Debug)]
pub enum FrameError {
    /// A length that overflows the address space.
    LengthOverflow,
    /// The body ends before the field does.
    ShortFrame,
}

/// A clock's entries as the wire writes them: each actor's 16 bytes, then
/// its counter's 8, big-endian.
pub open spec fn entries_bytes(l: Seq<(ActorId, u64)>) -> Seq<u8>
    decreases l.len(),
{
    if l.len() == 0 {
        Seq::empty()
    } else {
        entries_bytes(l.drop_last()) + be_bytes(l.last().0.0 as nat, 16) + be_bytes(l.last().1 as nat, 8)
    }
}

/// Appends a clock: its entry count as a big-endian `u32`, then its entries
/// in increasing actor order.
pub fn put_clock(clock: &VectorClock, out: &mut Vec<u8>)
    ensures
        exists|l: Seq<(ActorId, u64)>|
            actors_listed(clock.view(), l) && final(out)@ == old(out)@ + be_bytes(
                (l.len() as u32) as nat,
                4,
            ) + entries_bytes(l),
{
    let entries = clock.actors();
    proof {
        lemma_pow256_values();
    }
    put_be(out, (entries.len() as u32) as u128, 4);
    let ghost head = out@;
    let mut i: usize = 0;
    while i < entries.len()
        invariant
            i <= entries@.len(),
            out@ == head + entries_bytes(entries@.subrange(0, i as int)),
            pow256(16) == 0x1_0000_0000_0000_0000_0000_0000_0000_0000,
            pow256(8) == 0x1_0000_0000_0000_0000,
        decreases entries@.len() - i,
    {
        let (actor, counter) = entries[i];
        put_be(out, actor.0, 16);
        put_be(out, counter as u128, 8);
        proof {
            let s = entries@.subrange(0, i + 1);
            assert(s.drop_last() =~= entries@.subrange(0, i as int));
            assert(s.last() == entries@[i as int]);
        }
        i = i + 1;
    }
    proof {
        assert(entries@.subrange(0, entries@.len() as int) =~= entries@);
        assert(actors_listed(clock.view(), entries@));
    }
}

/// What replaying one wire entry does to a clock: the actor's counter
/// becomes the larger of the two, and an entry of zero changes nothing.
pub open spec fn apply_entry(m: Map<u128, u64>, a: u128, c: u64) -> Map<u128, u64> {
    if c == 0 {
        m
    } else {
        m.insert(a, if held(m, a) >= c { held(m, a) } else { c })
    }
}

/// The actor of the `k`th entry from `p` on.
pub open spec fn entry_actor(b: Seq<u8>, p: int, k: int) -> nat {
    be_value(b.subrange(p + 24 * k, p + 24 * k + 16))
}

/// The counter of the `k`th entry from `p` on.
pub open spec fn entry_counter(b: Seq<u8>, p: int, k: int) -> nat {
    be_value(b.subrange(p + 24 * k + 16, p + 24 * k + 24))
}

/// The clock the first `n` entries from `p` on rebuild.
pub open spec fn clock_fold(b: Seq<u8>, p: int, n: nat) -> Map<u128, u64>
    decreases n,
{
    if n == 0 {
        Map::empty()
    } else {
        apply_entry(
            clock_fold(b, p, (n - 1) as nat),
            entry_actor(b, p, n - 1) as u128,
            entry_counter(b, p, n - 1) as u64,
        )
    }
}

/// A position in a frame body, reading forward.
pub struct FrameCursor<'a> {
    b: &'a [u8],
    at: usize,
}

impl<'a> FrameCursor<'a> {
    pub closed spec fn bytes(&self) -> Seq<u8> {
        self.b@
    }

    pub closed spec fn pos(&self) -> int {
        self.at as int
    }

    /// Whether `n` more bytes remain.
    pub open spec fn has(&self, n: int) -> bool {
        0 <= self.pos() && self.pos() + n <= self.bytes().len()
    }

    /// The `n` bytes from the current position on.
    pub open spec fn ahead(&self, n: int) -> Seq<u8> {
        self.bytes().subrange(self.pos(), self.pos() + n)
    }

    /// A cursor at the start of a body.
    pub fn new(b: &'a [u8]) -> (r: FrameCursor<'a>)
        ensures
            r.bytes() == b@,
            r.pos() == 0,
    {
        FrameCursor { b, at: 0 }
    }

    /// The next `n` bytes.
    pub fn take(&mut self, n: usize) -> (r: Result<&'a [u8], FrameError>)
        requires
            old(self).pos() <= old(self).bytes().len(),
        ensures
            final(self).bytes() == old(self).bytes(),
            final(self).pos() <= final(self).bytes().len(),
            r is Ok <==> old(self).has(n as int),
            r matches Ok(s) ==> s@ == old(self).ahead(n as int) && final(self).pos() == old(self).pos() + n,
            r matches Err(e) ==> final(self).pos() == old(self).pos() && (e == FrameError::LengthOverflow
                <==> old(self).pos() + n > usize::MAX),
    {
        let len = self.b.len();
        let end = match self.at.checked_add(n) {
            Some(e) => e,
            None => return Err(FrameError::LengthOverflow),
        };
        if end > len {
            return Err(FrameError::ShortFrame);
        }
        let s = &self.b[self.at..end];
        self.at = end;
        Ok(s)
    }

    pub fn u8(&mut self) -> (r: Result<u8, FrameError>)
        requires
            old(self).pos() <= old(self).bytes().len(),
        ensures
            final(self).bytes() == old(self).bytes(),
            final(self).pos() <= final(self).bytes().len(),
            r is Ok <==> old(self).has(1),
            r matches Ok(v) ==> v == old(self).bytes()[old(self).pos()] && final(self).pos() == old(self).pos() + 1,
    {
        let b = self.take(1)?;
        Ok(b[0])
    }

    pub fn u16(&mut self) -> (r: Result<u16, FrameError>)
        requires
            old(self).pos() <= old(self).bytes().len(),
        ensures
            final(self).bytes() == old(self).bytes(),
            final(self).pos() <= final(self).bytes().len(),
            r is Ok <==> old(self).has(2),
            r matches Ok(v) ==> v == be_value(old(self).ahead(2)) && final(self).pos() == old(self).pos() + 2,
    {
        let b = self.take(2)?;
        proof {
            crate::image::lemma_be_bound(b@);
            lemma_pow256_values();
        }
        Ok(get_be(b) as u16)
    }

    pub fn u32(&mut self) -> (r: Result<u32, FrameError>)
        requires
            old(self).pos() <= old(self).bytes().len(),
        ensures
            final(self).bytes() == old(self).bytes(),
            final(self).pos() <= final(self).bytes().len(),
            r is Ok <==> old(self).has(4),
            r matches Ok(v) ==> v == be_value(old(self).ahead(4)) && final(self).pos() == old(self).pos() + 4,
    {
        let b = self.take(4)?;
        proof {
            crate::image::lemma_be_bound(b@);
            lemma_pow256_values();
        }
        Ok(get_be(b) as u32)
    }

    pub fn u64(&mut self) -> (r: Result<u64, FrameError>)
        requires
            old(self).pos() <= old(self).bytes().len(),
        ensures
            final(self).bytes() == old(self).bytes(),
            final(self).pos() <= final(self).bytes().len(),
            r is Ok <==> old(self).has(8),
            r matches Ok(v) ==> v == be_value(old(self).ahead(8)) && final(self).pos() == old(self).pos() + 8,
    {
        let b = self.take(8)?;
        proof {
            crate::image::lemma_be_bound(b@);
            lemma_pow256_values();
        }
        Ok(get_be(b) as u64)
    }

    pub fn u128(&mut self) -> (r: Result<u128, FrameError>)
        requires
            old(self).pos() <= old(self).bytes().len(),
        ensures
            final(self).bytes() == old(self).bytes(),
            final(self).pos() <= final(self).bytes().len(),
            r is Ok <==> old(self).has(16),
            r matches Ok(v) ==> v == be_value(old(self).ahead(16)) && final(self).pos() == old(self).pos() + 16,
    {
        let b = self.take(16)?;
        Ok(get_be(b))
    }

    /// A clock: a count, then that many actor-and-counter entries, each
    /// recorded as the contiguous run of ops it claims, into a fresh clock.
    pub fn clock(&mut self) -> (r: Result<VectorClock, FrameError>)
        requires
            old(self).pos() <= old(self).bytes().len(),
        ensures
            final(self).bytes() == old(self).bytes(),
            final(self).pos() <= final(self).bytes().len(),
            r is Ok <==> old(self).has(4) && old(self).has((4 + 24 * be_value(old(self).ahead(4))) as int),
            r matches Ok(c) ==> c.view() == clock_fold(
                old(self).bytes(),
                old(self).pos() + 4,
                be_value(old(self).ahead(4)),
            ) && final(self).pos() == old(self).pos() + 4 + 24 * be_value(old(self).ahead(4)),
    {
        let n = self.u32()? as usize;
        let ghost start = self.pos();
        let ghost b = self.bytes();
        let mut clock = VectorClock::new();
        let mut k: usize = 0;
        while k < n
            invariant
                k <= n,
                self.bytes() == b,
                b == old(self).bytes(),
                0 <= start,
                start == old(self).pos() + 4,
                n == be_value(old(self).ahead(4)),
                self.pos() == start + 24 * k,
                self.pos() <= b.len(),
                clock.view() == clock_fold(b, start, k as nat),
            decreases n - k,
        {
            let actor = match self.u128() {
                Ok(a) => a,
                Err(e) => {
                    proof {
                        assert(!old(self).has((4 + 24 * n) as int));
                    }
                    return Err(e);
                },
            };
            let counter = match self.u64() {
                Ok(c) => c,
                Err(e) => {
                    proof {
                        assert(!old(self).has((4 + 24 * n) as int));
                    }
                    return Err(e);
                },
            };
            proof {
                assert(actor == entry_actor(b, start, k as int));
                assert(counter == entry_counter(b, start, k as int));
            }
            clock.observe_run(ActorId(actor), counter);
            k = k + 1;
        }
        Ok(clock)
    }
}


proof fn lemma_entries_len(l: Seq<(ActorId, u64)>)
    ensures
        entries_bytes(l).len() == 24 * l.len(),
    decreases l.len(),
{
    if l.len() > 0 {
        lemma_entries_len(l.drop_last());
        lemma_pow256_values();
        lemma_be_round_trip(l.last().0.0 as nat, 16);
        lemma_be_round_trip(l.last().1 as nat, 8);
    }
}

/// Each entry written reads back where the reader looks for it.
proof fn lemma_entry_layout(l: Seq<(ActorId, u64)>, before: Seq<u8>, after: Seq<u8>, k: int)
    requires
        0 <= k < l.len(),
    ensures
        entry_actor(before + entries_bytes(l) + after, before.len() as int, k) == l[k].0.0,
        entry_counter(before + entries_bytes(l) + after, before.len() as int, k) == l[k].1,
    decreases l.len(),
{
    let b = before + entries_bytes(l) + after;
    let p = before.len() as int;
    let init = l.drop_last();
    lemma_pow256_values();
    lemma_be_round_trip(l.last().0.0 as nat, 16);
    lemma_be_round_trip(l.last().1 as nat, 8);
    lemma_entries_len(init);
    let ea = be_bytes(l.last().0.0 as nat, 16);
    let ec = be_bytes(l.last().1 as nat, 8);
    if k < l.len() - 1 {
        lemma_entry_layout(init, before, ea + ec + after, k);
        assert(before + entries_bytes(init) + (ea + ec + after) =~= b);
        assert(init[k] == l[k]);
    } else {
        assert(b.subrange(p + 24 * k, p + 24 * k + 16) =~= ea);
        assert(b.subrange(p + 24 * k + 16, p + 24 * k + 24) =~= ec);
    }
}

proof fn lemma_fold_entries(l: Seq<(ActorId, u64)>, b: Seq<u8>, p: int, n: nat)
    requires
        n <= l.len(),
        forall|i: int, j: int| 0 <= i < j < l.len() ==> l[i].0.0 < l[j].0.0,
        forall|k: int| 0 <= k < l.len() ==> entry_actor(b, p, k) == l[k].0.0 && entry_counter(b, p, k) == l[k].1,
    ensures
        forall|j: int| 0 <= j < n ==> held(clock_fold(b, p, n), #[trigger] l[j].0.0) == l[j].1,
        forall|a: u128| (forall|j: int| 0 <= j < n ==> l[j].0.0 != a) ==> held(clock_fold(b, p, n), a) == 0,
    decreases n,
{
    if n > 0 {
        lemma_fold_entries(l, b, p, (n - 1) as nat);
        let k = n - 1;
        assert(entry_actor(b, p, k) == l[k].0.0 && entry_counter(b, p, k) == l[k].1);
        let prev = clock_fold(b, p, (n - 1) as nat);
        let a = l[k].0.0;
        let c = l[k].1;
        assert(entry_actor(b, p, k) as u128 == a);
        assert(entry_counter(b, p, k) as u64 == c);
        assert(clock_fold(b, p, n) == apply_entry(prev, a, c));
        assert forall|j: int| 0 <= j < k implies l[j].0.0 != a by {}
        assert(held(prev, a) == 0);
        assert forall|j: int| 0 <= j < n implies held(clock_fold(b, p, n), #[trigger] l[j].0.0) == l[j].1 by {
            if j < k {
                assert(l[j].0.0 != a);
            }
        }
        assert forall|x: u128| (forall|j: int| 0 <= j < n ==> l[j].0.0 != x) implies held(clock_fold(b, p, n), x) == 0 by {
            assert(l[k].0.0 != x);
            assert(forall|j: int| 0 <= j < n - 1 ==> l[j].0.0 != x);
            assert(held(prev, x) == 0);
        }
    }
}

/// A clock written to the wire and read back holds the same counter for
/// every actor, whatever surrounds it in the frame.
pub proof fn lemma_clock_round_trip(m: Map<u128, u64>, l: Seq<(ActorId, u64)>, before: Seq<u8>, after: Seq<u8>)
    requires
        actors_listed(m, l),
        l.len() <= u32::MAX,
    ensures
        ({
            let b = before + be_bytes(l.len(), 4) + entries_bytes(l) + after;
            &&& be_value(b.subrange(before.len() as int, (before.len() + 4) as int)) == l.len()
            &&& forall|a: u128| held(clock_fold(b, (before.len() + 4) as int, l.len()), a) == #[trigger] held(m, a)
        }),
{
    let head = be_bytes(l.len(), 4);
    let b = before + head + entries_bytes(l) + after;
    lemma_pow256_values();
    lemma_be_round_trip(l.len(), 4);
    assert(b.subrange(before.len() as int, (before.len() + 4) as int) =~= head);
    assert forall|k: int| 0 <= k < l.len() implies entry_actor(b, (before.len() + 4) as int, k) == l[k].0.0 && entry_counter(
        b,
        (before.len() + 4) as int,
        k,
    ) == l[k].1 by {
        lemma_entry_layout(l, before + head, after, k);
        assert(before + head + entries_bytes(l) + after =~= b);
    }
    lemma_fold_entries(l, b, (before.len() + 4) as int, l.len());
    assert forall|a: u128| held(clock_fold(b, (before.len() + 4) as int, l.len()), a) == #[trigger] held(m, a) by {
        if m.contains_key(a) {
            let j = choose|j: int| 0 <= j < l.len() && l[j].0.0 == a;
            assert(held(clock_fold(b, (before.len() + 4) as int, l.len()), l[j].0.0) == l[j].1);
        } else {
            assert forall|j: int| 0 <= j < l.len() implies l[j].0.0 != a by {
                assert(m.contains_key(l[j].0.0));
            }
        }
    }
}

} // verus!
