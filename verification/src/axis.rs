//! One axis (rows or columns) as an insertion tree with tombstones.
//!
//! Each identity is inserted after an anchor (or at the start). Children of
//! one anchor are kept in descending `(lamport, actor, counter)` order, so a
//! later insert at the same place lands nearer its anchor, and the order
//! does not depend on which insert arrived first.

use vstd::prelude::*;
use std::collections::BTreeMap;
use std::vec::Vec;
use crate::image::{
    le_bytes, le_value, lemma_le_round_trip, lemma_pow256_values, opid_bytes, ImageError, Reader, Writer,
    MAX_AXIS_ENTRIES,
};
use crate::stamps::{stamp_less, stamp_precedes};
use crate::types::{ActorId, OpId};
use vstd::std_specs::cmp::OrdSpec;
use vstd::std_specs::btree::increasing_seq;

verus! {

broadcast use vstd::std_specs::btree::group_btree_axioms, vstd::laws_cmp::group_laws_cmp;

/// A child entry as integers: lamport, actor, counter.
pub open spec fn entry_key(e: (u64, OpId)) -> (u64, u128, u64) {
    (e.0, e.1.actor.0, e.1.counter)
}

/// An identity as the integers the axis is keyed by.
pub open spec fn id_key(id: OpId) -> (u128, u64) {
    (id.actor.0, id.counter)
}

/// Descending by key; equal keys allowed.
pub open spec fn sorted_desc(s: Seq<(u64, OpId)>) -> bool {
    forall|i: int, j: int| 0 <= i < j < s.len() ==> !stamp_less(entry_key(#[trigger] s[i]), entry_key(#[trigger] s[j]))
}

/// `p` splits `s` into the entries above `x` and the rest.
pub open spec fn splits(s: Seq<(u64, OpId)>, x: (u64, OpId), p: int) -> bool {
    &&& 0 <= p <= s.len()
    &&& forall|i: int| 0 <= i < p ==> stamp_less(entry_key(x), entry_key(#[trigger] s[i]))
    &&& forall|i: int| p <= i < s.len() ==> !stamp_less(entry_key(x), entry_key(#[trigger] s[i]))
}

/// `after` is `before` with `x` placed below every entry greater than it.
pub open spec fn placed(before: Seq<(u64, OpId)>, x: (u64, OpId), after: Seq<(u64, OpId)>) -> bool {
    exists|p: int| splits(before, x, p) && after == before.insert(p, x)
}

/// An axis: the insertion tree and the tombstones.
pub struct AxisSeq {
    children: BTreeMap<Option<(u128, u64)>, Vec<(u64, OpId)>>,
    tombstones: BTreeMap<(u128, u64), ()>,
}

impl AxisSeq {
    /// The children of an anchor, in order.
    pub closed spec fn kids(&self, anchor: Option<(u128, u64)>) -> Seq<(u64, OpId)> {
        if self.children@.contains_key(anchor) {
            self.children@[anchor]@
        } else {
            Seq::empty()
        }
    }

    /// The anchors that have children.
    pub closed spec fn anchors(&self) -> Set<Option<(u128, u64)>> {
        self.children@.dom()
    }

    /// The deleted identities.
    pub closed spec fn dead(&self) -> Set<(u128, u64)> {
        self.tombstones@.dom()
    }

    /// The insertion tree: each anchor that has a list, with its list.
    pub closed spec fn tree(&self) -> Map<Option<(u128, u64)>, Seq<(u64, OpId)>> {
        self.children@.map_values(|v: Vec<(u64, OpId)>| v@)
    }

    /// `kids` and `anchors` read the tree.
    pub proof fn lemma_tree(&self)
        ensures
            self.anchors() == self.tree().dom(),
            forall|a: Option<(u128, u64)>| #[trigger]
                self.kids(a) == if self.tree().contains_key(a) {
                    self.tree()[a]
                } else {
                    Seq::<(u64, OpId)>::empty()
                },
    {
        assert(self.anchors() =~= self.tree().dom());
    }

    /// Every anchor's children are in descending order.
    pub open spec fn wf(&self) -> bool {
        forall|a: Option<(u128, u64)>| sorted_desc(#[trigger] self.kids(a))
    }

    /// An empty axis.
    pub fn new() -> (r: AxisSeq)
        ensures
            r.wf(),
            forall|a: Option<(u128, u64)>| #[trigger] r.kids(a).len() == 0,
            r.dead() == Set::<(u128, u64)>::empty(),
    {
        AxisSeq { children: BTreeMap::new(), tombstones: BTreeMap::new() }
    }

    /// Inserts `id` among the children of `anchor` (`None` for the start),
    /// at the place its `(lamport, id)` gives it.
    pub fn insert(&mut self, anchor: Option<OpId>, id: OpId, lamport: u64)
        requires
            old(self).wf(),
        ensures
            final(self).wf(),
            final(self).dead() == old(self).dead(),
            placed(
                old(self).kids(anchor_key(anchor)),
                (lamport, id),
                final(self).kids(anchor_key(anchor)),
            ),
            forall|a: Option<(u128, u64)>| a != anchor_key(anchor) ==> #[trigger] final(self).kids(a) == old(self).kids(a),
    {
        let key = match anchor {
            Some(a) => Some((a.actor.0, a.counter)),
            None => None,
        };
        let mut kids = match self.children.remove(&key) {
            Some(k) => k,
            None => Vec::new(),
        };
        let x = (lamport, id.actor.0, id.counter);
        let ghost before = old(self).kids(key);
        assert(kids@ == before);
        let n = kids.len();
        let mut lo: usize = 0;
        let mut hi: usize = n;
        while lo < hi
            invariant
                0 <= lo <= hi <= n,
                n == kids@.len(),
                kids@ == before,
                sorted_desc(before),
                x == entry_key((lamport, id)),
                forall|i: int| 0 <= i < lo ==> stamp_less(x, entry_key(#[trigger] before[i])),
                forall|i: int| hi <= i < n ==> !stamp_less(x, entry_key(#[trigger] before[i])),
            decreases hi - lo,
        {
            let mid = lo + (hi - lo) / 2;
            let e = kids[mid];
            let m = (e.0, e.1.actor.0, e.1.counter);
            if stamp_precedes(x, m) {
                proof {
                    assert forall|i: int| 0 <= i < mid + 1 implies stamp_less(x, entry_key(#[trigger] before[i])) by {
                        if i < mid {
                            assert(!stamp_less(entry_key(before[i]), entry_key(before[mid as int])));
                        }
                    }
                }
                lo = mid + 1;
            } else {
                proof {
                    assert forall|i: int| mid <= i < n implies !stamp_less(x, entry_key(#[trigger] before[i])) by {
                        if i > mid {
                            assert(!stamp_less(entry_key(before[mid as int]), entry_key(before[i])));
                        }
                    }
                }
                hi = mid;
            }
        }
        kids.insert(lo, (lamport, id));
        proof {
            let after = kids@;
            assert(after == before.insert(lo as int, (lamport, id)));
            assert(splits(before, (lamport, id), lo as int));
            assert forall|i: int, j: int| 0 <= i < j < after.len() implies !stamp_less(entry_key(#[trigger] after[i]), entry_key(#[trigger] after[j])) by {
                if j < lo {
                } else if j == lo {
                } else if i < lo {
                    assert(after[j] == before[j - 1]);
                } else if i == lo {
                    assert(after[j] == before[j - 1]);
                } else {
                    assert(after[i] == before[i - 1]);
                    assert(after[j] == before[j - 1]);
                }
            }
        }
        self.children.insert(key, kids);
        proof {
            assert forall|a: Option<(u128, u64)>| sorted_desc(#[trigger] self.kids(a)) by {
                if a != key {
                    assert(self.kids(a) == old(self).kids(a));
                }
            }
        }
    }

    /// Marks an identity deleted.
    pub fn delete(&mut self, id: OpId)
        ensures
            final(self).dead() == old(self).dead().insert(id_key(id)),
            forall|a: Option<(u128, u64)>| #[trigger] final(self).kids(a) == old(self).kids(a),
    {
        self.tombstones.insert((id.actor.0, id.counter), ());
        proof {
            assert(self.dead() =~= old(self).dead().insert(id_key(id)));
        }
    }

    /// Removes a tombstone: the selective undo of a delete.
    pub fn undelete(&mut self, id: OpId)
        ensures
            final(self).dead() == old(self).dead().remove(id_key(id)),
            forall|a: Option<(u128, u64)>| #[trigger] final(self).kids(a) == old(self).kids(a),
    {
        self.tombstones.remove(&(id.actor.0, id.counter));
        proof {
            assert(self.dead() =~= old(self).dead().remove(id_key(id)));
        }
    }

    /// The children of an anchor, in order.
    pub fn children_of(&self, anchor: Option<OpId>) -> (r: Vec<(u64, OpId)>)
        ensures
            r@ == self.kids(anchor_key(anchor)),
    {
        let key = match anchor {
            Some(a) => Some((a.actor.0, a.counter)),
            None => None,
        };
        match self.children.get(&key) {
            Some(k) => vstd::slice::slice_to_vec(k.as_slice()),
            None => Vec::new(),
        }
    }

    /// Whether an identity is live.
    pub fn is_live(&self, id: &OpId) -> (r: bool)
        ensures
            r == !self.dead().contains(id_key(*id)),
    {
        !self.tombstones.contains_key(&(id.actor.0, id.counter))
    }

    /// Whether every path down from `key` ends: the insertion tree below it
    /// has no cycle.
    pub open spec fn finite_below(&self, key: Option<(u128, u64)>) -> bool {
        exists|f: nat| within(*self, self.kids(key), f)
    }

    /// Everything filed under `key`, in pre-order: each child, then what is
    /// filed under it, then the next child.
    pub open spec fn below(&self, key: Option<(u128, u64)>) -> Seq<OpId> {
        pre_list(*self, self.kids(key), choose|f: nat| within(*self, self.kids(key), f))
    }

    /// Pushes the identities of an anchor's children, last child first.
    fn push_children(&self, anchor: Option<(u128, u64)>, stack: &mut Vec<OpId>)
        ensures
            final(stack)@ == old(stack)@ + rev_ids(self.kids(anchor)),
    {
        match self.children.get(&anchor) {
            Some(kids) => {
                let n = kids.len();
                let mut j = n;
                while j > 0
                    invariant
                        j <= n,
                        n == kids@.len(),
                        kids@ == self.kids(anchor),
                        stack@ == old(stack)@ + rev_ids(kids@.subrange(j as int, n as int)),
                    decreases j,
                {
                    j = j - 1;
                    stack.push(kids[j].1);
                    proof {
                        let sub = kids@.subrange(j as int, n as int);
                        assert(sub.drop_first() =~= kids@.subrange(j + 1, n as int));
                        assert(sub[0] == kids@[j as int]);
                        assert(stack@ =~= old(stack)@ + rev_ids(sub));
                    }
                }
                proof {
                    assert(kids@.subrange(0, n as int) =~= kids@);
                }
            },
            None => {
                proof {
                    assert(rev_ids(self.kids(anchor)) =~= Seq::<OpId>::empty());
                    assert(stack@ =~= old(stack)@ + rev_ids(self.kids(anchor)));
                }
            },
        }
    }

    /// Everything filed under `key`, in pre-order, walked with an explicit
    /// stack so that a deep tree costs heap rather than call depth.
    pub fn preorder(&self, key: Option<OpId>) -> (r: Vec<OpId>)
        requires
            self.finite_below(anchor_key(key)),
        ensures
            r@ == self.below(anchor_key(key)),
    {
        let ghost k = anchor_key(key);
        let ghost f = choose|f: nat| within(*self, self.kids(k), f);
        let ghost target = pre_list(*self, self.kids(k), f);
        let mut out: Vec<OpId> = Vec::new();
        let mut stack: Vec<OpId> = Vec::new();
        let start = match key {
            Some(a) => Some((a.actor.0, a.counter)),
            None => None,
        };
        self.push_children(start, &mut stack);
        let ghost mut fs: Seq<nat> = Seq::new(self.kids(k).len(), |i: int| f);
        proof {
            lemma_push_list(*self, Seq::empty(), Seq::empty(), self.kids(k), f);
            assert(Seq::<OpId>::empty() + rev_ids(self.kids(k)) =~= stack@);
            assert(Seq::<nat>::empty() + Seq::new(self.kids(k).len(), |i: int| f) =~= fs);
            assert(out@ + pending(*self, stack@, fs) =~= target);
            lemma_rev_ids_entries(self.kids(k));
            assert forall|i: int| 0 <= i < fs.len() implies #[trigger] fs[i] >= 1 && within(
                *self,
                self.kids(Some(id_key(stack@[i]))),
                (fs[i] - 1) as nat,
            ) by {
                let j = self.kids(k).len() - 1 - i;
                lemma_within_entry(*self, self.kids(k), f, j);
            }
        }
        while stack.len() > 0
            invariant
                out@ + pending(*self, stack@, fs) == target,
                fs.len() == stack@.len(),
                forall|i: int|
                    0 <= i < fs.len() ==> #[trigger] fs[i] >= 1 && within(
                        *self,
                        self.kids(Some(id_key(stack@[i]))),
                        (fs[i] - 1) as nat,
                    ),
            decreases target.len() - out@.len(),
        {
            let ghost st = stack@;
            let ghost fso = fs;
            let ghost fi = fs.last();
            let id = stack.pop().unwrap();
            let ghost rest = stack@;
            let ghost fr = fso.drop_last();
            out.push(id);
            self.push_children(Some((id.actor.0, id.counter)), &mut stack);
            proof {
                let kids = self.kids(Some(id_key(id)));
                assert(fso[st.len() - 1] == fi);
                let g = (fi - 1) as nat;
                lemma_push_list(*self, rest, fr, kids, g);
                assert(pending(*self, st, fso) == seq![id] + pre_list(*self, kids, g) + pending(*self, rest, fr));
                let fs2 = fr + Seq::new(kids.len(), |i: int| g);
                lemma_rev_ids_entries(kids);
                assert forall|i: int| 0 <= i < fs2.len() implies #[trigger] fs2[i] >= 1 && within(
                    *self,
                    self.kids(Some(id_key(stack@[i]))),
                    (fs2[i] - 1) as nat,
                ) by {
                    if i < rest.len() {
                        assert(stack@[i] == st[i]);
                        assert(fs2[i] == fso[i]);
                    } else {
                        let j = kids.len() - 1 - (i - rest.len());
                        lemma_within_entry(*self, kids, g, j);
                        assert(stack@[i] == rev_ids(kids)[i - rest.len()]);
                    }
                }
                fs = fs2;
                assert(out@ + pending(*self, stack@, fs) =~= target);
            }
        }
        proof {
            assert(out@ + Seq::<OpId>::empty() =~= out@);
        }
        out
    }

    /// Appends the live identities filed under `key`, in pre-order.
    fn walk(&self, key: Option<OpId>, out: &mut Vec<OpId>)
        requires
            self.finite_below(anchor_key(key)),
        ensures
            final(out)@ == old(out)@ + live_of(self.below(anchor_key(key)), self.dead()),
    {
        let ids = self.preorder(key);
        let n = ids.len();
        let mut i: usize = 0;
        while i < n
            invariant
                i <= n,
                n == ids@.len(),
                ids@ == self.below(anchor_key(key)),
                out@ == old(out)@ + live_of(ids@.subrange(0, i as int), self.dead()),
            decreases n - i,
        {
            let id = ids[i];
            proof {
                let pre = ids@.subrange(0, i as int + 1);
                assert(pre.drop_last() =~= ids@.subrange(0, i as int));
                assert(pre.last() == id);
            }
            if self.is_live(&id) {
                out.push(id);
            }
            i = i + 1;
        }
        proof {
            assert(ids@.subrange(0, n as int) =~= ids@);
        }
    }

    /// Appends every identity filed under `key`, in pre-order, each with
    /// whether it is live.
    fn walk_full(&self, key: Option<OpId>, out: &mut Vec<(OpId, bool)>)
        requires
            self.finite_below(anchor_key(key)),
        ensures
            final(out)@ == old(out)@ + tagged(self.below(anchor_key(key)), self.dead()),
    {
        let ids = self.preorder(key);
        let n = ids.len();
        let mut i: usize = 0;
        while i < n
            invariant
                i <= n,
                n == ids@.len(),
                ids@ == self.below(anchor_key(key)),
                out@ == old(out)@ + tagged(ids@.subrange(0, i as int), self.dead()),
            decreases n - i,
        {
            let id = ids[i];
            let live = self.is_live(&id);
            out.push((id, live));
            i = i + 1;
            proof {
                assert(tagged(ids@.subrange(0, i as int), self.dead()) =~= tagged(
                    ids@.subrange(0, i - 1),
                    self.dead(),
                ).push((id, live)));
            }
        }
        proof {
            assert(ids@.subrange(0, n as int) =~= ids@);
        }
    }

    /// The live identities of the axis, in display order.
    pub fn live_order(&self) -> (r: Vec<OpId>)
        requires
            self.finite_below(None),
        ensures
            r@ == live_of(self.below(None), self.dead()),
    {
        let mut out: Vec<OpId> = Vec::new();
        self.walk(None, &mut out);
        proof {
            assert(Seq::<OpId>::empty() + live_of(self.below(None), self.dead()) =~= out@);
        }
        out
    }

    /// Every identity of the axis in order, tombstones included, each with
    /// whether it is live: "inward" from a deleted endpoint is only meaningful
    /// against the place the tombstone still holds.
    pub fn full_order(&self) -> (r: Vec<(OpId, bool)>)
        requires
            self.finite_below(None),
        ensures
            r@ == tagged(self.below(None), self.dead()),
    {
        let mut out: Vec<(OpId, bool)> = Vec::new();
        self.walk_full(None, &mut out);
        proof {
            assert(Seq::<(OpId, bool)>::empty() + tagged(self.below(None), self.dead()) =~= out@);
        }
        out
    }
}

/// The pre-order listing of the entries of `list` and of everything filed
/// under them, looking at most `fuel` levels down.
pub open spec fn pre_list(axis: AxisSeq, list: Seq<(u64, OpId)>, fuel: nat) -> Seq<OpId>
    decreases fuel, list.len(),
{
    if list.len() == 0 || fuel == 0 {
        Seq::empty()
    } else {
        seq![list[0].1] + pre_list(axis, axis.kids(Some(id_key(list[0].1))), (fuel - 1) as nat) + pre_list(
            axis,
            list.drop_first(),
            fuel,
        )
    }
}

/// Every path down from the entries of `list` ends within `fuel` levels.
pub open spec fn within(axis: AxisSeq, list: Seq<(u64, OpId)>, fuel: nat) -> bool
    decreases fuel, list.len(),
{
    list.len() == 0 || (fuel > 0 && within(axis, axis.kids(Some(id_key(list[0].1))), (fuel - 1) as nat) && within(
        axis,
        list.drop_first(),
        fuel,
    ))
}

/// What a stack of pending identities, each with the levels left below it,
/// still has to list: the top (last) first.
spec fn pending(axis: AxisSeq, st: Seq<OpId>, fs: Seq<nat>) -> Seq<OpId>
    decreases st.len(),
{
    if st.len() == 0 {
        Seq::empty()
    } else {
        seq![st.last()] + pre_list(axis, axis.kids(Some(id_key(st.last()))), (fs.last() - 1) as nat) + pending(
            axis,
            st.drop_last(),
            fs.drop_last(),
        )
    }
}

/// The identities of `list`, last first.
pub open spec fn rev_ids(list: Seq<(u64, OpId)>) -> Seq<OpId>
    decreases list.len(),
{
    if list.len() == 0 {
        Seq::empty()
    } else {
        rev_ids(list.drop_first()) + seq![list[0].1]
    }
}

/// The identities of `s` that are not tombstoned, in order.
pub open spec fn live_of(s: Seq<OpId>, dead: Set<(u128, u64)>) -> Seq<OpId>
    decreases s.len(),
{
    if s.len() == 0 {
        Seq::empty()
    } else if dead.contains(id_key(s.last())) {
        live_of(s.drop_last(), dead)
    } else {
        live_of(s.drop_last(), dead).push(s.last())
    }
}

/// Each identity of `s` with whether it is live.
pub open spec fn tagged(s: Seq<OpId>, dead: Set<(u128, u64)>) -> Seq<(OpId, bool)> {
    s.map_values(|id: OpId| (id, !dead.contains(id_key(id))))
}

/// The entries of a list that `within` admits are each admitted one level
/// further down.
proof fn lemma_within_entry(axis: AxisSeq, list: Seq<(u64, OpId)>, fuel: nat, j: int)
    requires
        within(axis, list, fuel),
        0 <= j < list.len(),
    ensures
        fuel > 0,
        within(axis, axis.kids(Some(id_key(list[j].1))), (fuel - 1) as nat),
    decreases j,
{
    if j > 0 {
        lemma_within_entry(axis, list.drop_first(), fuel, j - 1);
        assert(list.drop_first()[j - 1] == list[j]);
    }
}

/// More fuel than a list needs changes nothing.
pub proof fn lemma_fuel_enough(axis: AxisSeq, list: Seq<(u64, OpId)>, f: nat, g: nat)
    requires
        within(axis, list, f),
        f <= g,
    ensures
        within(axis, list, g),
        pre_list(axis, list, g) == pre_list(axis, list, f),
    decreases f, list.len(),
{
    if list.len() > 0 {
        lemma_fuel_enough(axis, axis.kids(Some(id_key(list[0].1))), (f - 1) as nat, (g - 1) as nat);
        lemma_fuel_enough(axis, list.drop_first(), f, g);
    }
}

/// Pushing a list's identities last-first, each with the list's fuel, puts
/// the list's pre-order listing in front of what was pending.
proof fn lemma_push_list(axis: AxisSeq, st: Seq<OpId>, fs: Seq<nat>, list: Seq<(u64, OpId)>, f: nat)
    requires
        st.len() == fs.len(),
        within(axis, list, f),
    ensures
        pending(axis, st + rev_ids(list), fs + Seq::new(list.len(), |i: int| f)) == pre_list(axis, list, f)
            + pending(axis, st, fs),
    decreases list.len(),
{
    let n = list.len();
    if n == 0 {
        assert(st + rev_ids(list) =~= st);
        assert(fs + Seq::new(n, |i: int| f) =~= fs);
        assert(pre_list(axis, list, f) + pending(axis, st, fs) =~= pending(axis, st, fs));
    } else {
        let rest = list.drop_first();
        lemma_push_list(axis, st, fs, rest, f);
        let st2 = st + rev_ids(list);
        let fs2 = fs + Seq::new(n, |i: int| f);
        assert(st2.drop_last() =~= st + rev_ids(rest));
        assert(st2.last() == list[0].1);
        assert(fs2.drop_last() =~= fs + Seq::new((n - 1) as nat, |i: int| f));
        assert(fs2.last() == f);
        assert(st2.len() == (st + rev_ids(rest)).len() + 1);
        assert(pending(axis, st2, fs2) == seq![list[0].1] + pre_list(axis, axis.kids(Some(id_key(list[0].1))), (f - 1) as nat)
            + pending(axis, st + rev_ids(rest), fs + Seq::new((n - 1) as nat, |i: int| f)));
        assert(pre_list(axis, list, f) == seq![list[0].1] + pre_list(axis, axis.kids(Some(id_key(list[0].1))), (f - 1) as nat)
            + pre_list(axis, rest, f));
        assert(pending(axis, st2, fs2) =~= pre_list(axis, list, f) + pending(axis, st, fs));
    }
}

/// Entry `i` of `rev_ids(list)` is the identity of entry `len - 1 - i`.
proof fn lemma_rev_ids_entries(list: Seq<(u64, OpId)>)
    ensures
        rev_ids(list).len() == list.len(),
        forall|i: int| 0 <= i < list.len() ==> #[trigger] rev_ids(list)[i] == list[list.len() - 1 - i].1,
    decreases list.len(),
{
    if list.len() > 0 {
        let rest = list.drop_first();
        lemma_rev_ids_entries(rest);
        assert forall|i: int| 0 <= i < list.len() implies #[trigger] rev_ids(list)[i] == list[list.len() - 1 - i].1 by {
            if i < rest.len() {
                assert(rev_ids(list)[i] == rev_ids(rest)[i]);
                assert(rest[rest.len() - 1 - i] == list[list.len() - 1 - i]);
            }
        }
    }
}

/// Two axes with the same children everywhere list the same things.
proof fn lemma_same_tree(a: AxisSeq, b: AxisSeq, list: Seq<(u64, OpId)>, fuel: nat)
    requires
        forall|k: Option<(u128, u64)>| #[trigger] a.kids(k) == b.kids(k),
    ensures
        within(a, list, fuel) == within(b, list, fuel),
        pre_list(a, list, fuel) == pre_list(b, list, fuel),
    decreases fuel, list.len(),
{
    if list.len() > 0 && fuel > 0 {
        assert(a.kids(Some(id_key(list[0].1))) == b.kids(Some(id_key(list[0].1))));
        lemma_same_tree(a, b, a.kids(Some(id_key(list[0].1))), (fuel - 1) as nat);
        lemma_same_tree(a, b, list.drop_first(), fuel);
    }
}

/// Deleting or restoring identities never moves anything: two axes whose
/// insertion trees agree (as `delete` and `undelete` leave them) list the
/// same identities in the same places; only the live flags can differ.
pub proof fn lemma_tombstones_keep_places(a: AxisSeq, b: AxisSeq, key: Option<(u128, u64)>)
    requires
        forall|k: Option<(u128, u64)>| #[trigger] a.kids(k) == b.kids(k),
    ensures
        a.finite_below(key) == b.finite_below(key),
        a.finite_below(key) ==> a.below(key) == b.below(key),
{
    let l = a.kids(key);
    assert(b.kids(key) == l);
    if a.finite_below(key) {
        let fa = choose|f: nat| within(a, a.kids(key), f);
        lemma_same_tree(a, b, l, fa);
        let fb = choose|f: nat| within(b, b.kids(key), f);
        lemma_same_tree(a, b, l, fb);
        if fa <= fb {
            lemma_fuel_enough(a, l, fa, fb);
        } else {
            lemma_fuel_enough(b, l, fb, fa);
        }
    } else {
        assert forall|f: nat| !within(b, b.kids(key), f) by {
            lemma_same_tree(a, b, l, f);
        }
    }
}

/// An identity key as the image writes it: the actor's 16 bytes, then the
/// counter's 8.
pub open spec fn key_bytes(k: (u128, u64)) -> Seq<u8> {
    le_bytes(k.0 as nat, 16) + le_bytes(k.1 as nat, 8)
}

/// An anchor as the image writes it: a zero tag for the start, else a one
/// tag and the anchor's key.
pub open spec fn anchor_bytes(a: Option<(u128, u64)>) -> Seq<u8> {
    match a {
        None => seq![0u8],
        Some(k) => seq![1u8] + key_bytes(k),
    }
}

/// A child as the image writes it: its lamport, then its identity.
pub open spec fn kid_bytes(e: (u64, OpId)) -> Seq<u8> {
    le_bytes(e.0 as nat, 8) + opid_bytes(e.1)
}

/// A list of children, one after another.
pub open spec fn kids_bytes(s: Seq<(u64, OpId)>) -> Seq<u8>
    decreases s.len(),
{
    if s.len() == 0 {
        Seq::empty()
    } else {
        kids_bytes(s.drop_last()) + kid_bytes(s.last())
    }
}

/// One anchor's group: the anchor, the count of its children, the children.
pub open spec fn group_bytes(a: Option<(u128, u64)>, s: Seq<(u64, OpId)>) -> Seq<u8> {
    anchor_bytes(a) + le_bytes((s.len() as u32) as nat, 4) + kids_bytes(s)
}

/// The groups of the anchors in `order`, one after another.
pub open spec fn groups_bytes(
    order: Seq<Option<(u128, u64)>>,
    tree: Map<Option<(u128, u64)>, Seq<(u64, OpId)>>,
) -> Seq<u8>
    decreases order.len(),
{
    if order.len() == 0 {
        Seq::empty()
    } else {
        groups_bytes(order.drop_last(), tree) + group_bytes(order.last(), tree[order.last()])
    }
}

/// Keys one after another.
pub open spec fn keys_bytes(ks: Seq<(u128, u64)>) -> Seq<u8>
    decreases ks.len(),
{
    if ks.len() == 0 {
        Seq::empty()
    } else {
        keys_bytes(ks.drop_last()) + key_bytes(ks.last())
    }
}

/// An axis as the image writes it: the count of groups, the groups in
/// `order`, the count of tombstones, the tombstones in `dead`.
pub open spec fn axis_bytes(
    order: Seq<Option<(u128, u64)>>,
    tree: Map<Option<(u128, u64)>, Seq<(u64, OpId)>>,
    dead: Seq<(u128, u64)>,
) -> Seq<u8> {
    le_bytes((order.len() as u32) as nat, 4) + groups_bytes(order, tree) + le_bytes((dead.len() as u32) as nat, 4)
        + keys_bytes(dead)
}

/// `s` lists the members of `keys`, each once, in increasing order.
pub open spec fn in_order<K: Ord>(s: Seq<K>, keys: Set<K>) -> bool {
    &&& s.to_set() == keys
    &&& forall|i: int, j: int| 0 <= i < j < s.len() ==> s[i].cmp_spec(&s[j]) is Less
}

/// Once a map's iteration is over, the keys it gave are the map's keys in
/// increasing order.
pub proof fn lemma_in_order_when_done<K: Ord, V>(m: Map<K, V>, s: Seq<(&K, &V)>, n: int)
    requires
        0 <= n <= s.len(),
        vstd::laws_cmp::obeys_cmp::<K>(),
        forall|i: int| 0 <= i < s.len() ==> m.contains_key(*#[trigger] s[i].0) && m[*s[i].0] == *s[i].1,
        forall|k: K| #[trigger] m.contains_key(k) ==> s.contains((&k, &m[k])),
        increasing_seq(s.map_values(|kv: (&K, &V)| *kv.0)),
    ensures
        n == s.len() ==> in_order(s.take(n).map_values(|kv: (&K, &V)| *kv.0), m.dom()),
{
    if n == s.len() {
        let keys = s.map_values(|kv: (&K, &V)| *kv.0);
        assert(s.take(n) =~= s);
        vstd::std_specs::btree::axiom_increasing_seq_meaning(keys);
        assert forall|k: K| keys.to_set().contains(k) <==> m.dom().contains(k) by {
            if keys.to_set().contains(k) {
                let i = choose|i: int| 0 <= i < keys.len() && keys[i] == k;
                assert(keys[i] == *s[i].0);
            }
            if m.dom().contains(k) {
                assert(s.contains((&k, &m[k])));
                let i = choose|i: int| 0 <= i < s.len() && s[i] == (&k, &m[k]);
                assert(keys[i] == k);
            }
        }
        assert(keys.to_set() =~= m.dom());
    }
}

/// The little-endian value of the `n` bytes of `b` at `p`.
pub open spec fn le_at(b: Seq<u8>, p: int, n: int) -> nat {
    le_value(b.subrange(p, p + n))
}

/// The identity key whose 24 bytes start at `p`.
pub open spec fn key_at(b: Seq<u8>, p: int) -> (u128, u64) {
    (le_at(b, p, 16) as u128, le_at(b, p + 16, 8) as u64)
}

/// The child whose 32 bytes start at `p`: a lamport, then an identity.
pub open spec fn kid_at(b: Seq<u8>, p: int) -> (u64, OpId) {
    (le_at(b, p, 8) as u64, OpId { actor: ActorId(le_at(b, p + 8, 16) as u128), counter: le_at(b, p + 24, 8) as u64 })
}

/// The `n` children stored from `p` on.
pub open spec fn kids_at(b: Seq<u8>, p: int, n: nat) -> Seq<(u64, OpId)> {
    Seq::new(n, |t: int| kid_at(b, p + 32 * t))
}

/// The `n` identity keys stored from `p` on.
pub open spec fn keys_at(b: Seq<u8>, p: int, n: nat) -> Seq<(u128, u64)> {
    Seq::new(n, |t: int| key_at(b, p + 24 * t))
}

/// A counted list of children at `q`, filed under `a`, and where it ends.
pub open spec fn list_at(b: Seq<u8>, q: int, a: Option<(u128, u64)>) -> Result<
    (Option<(u128, u64)>, Seq<(u64, OpId)>, int),
    ImageError,
> {
    if q + 4 > b.len() {
        Err(ImageError::Truncated)
    } else if le_at(b, q, 4) > MAX_AXIS_ENTRIES {
        Err(ImageError::CapExceeded("axis children"))
    } else if q + 4 + 32 * le_at(b, q, 4) > b.len() {
        Err(ImageError::Truncated)
    } else {
        Ok((a, kids_at(b, q + 4, le_at(b, q, 4)), q + 4 + 32 * le_at(b, q, 4)))
    }
}

/// The group that starts at `p`: its anchor, its children, and where it
/// ends.
pub open spec fn group_at(b: Seq<u8>, p: int) -> Result<(Option<(u128, u64)>, Seq<(u64, OpId)>, int), ImageError> {
    if p + 1 > b.len() {
        Err(ImageError::Truncated)
    } else if b[p] == 0 {
        list_at(b, p + 1, None)
    } else if b[p] == 1 {
        if p + 25 > b.len() {
            Err(ImageError::Truncated)
        } else {
            list_at(b, p + 25, Some(key_at(b, p + 1)))
        }
    } else {
        Err(ImageError::Malformed("axis anchor tag"))
    }
}

/// The first `n` groups from `p`, a later group for an anchor replacing an
/// earlier one, and where they end.
pub open spec fn groups_at(b: Seq<u8>, p: int, n: nat) -> Result<
    (Map<Option<(u128, u64)>, Seq<(u64, OpId)>>, int),
    ImageError,
>
    decreases n,
{
    if n == 0 {
        Ok((Map::empty(), p))
    } else {
        match groups_at(b, p, (n - 1) as nat) {
            Err(e) => Err(e),
            Ok((m, q)) => match group_at(b, q) {
                Err(e) => Err(e),
                Ok((a, ks, r)) => Ok((m.insert(a, ks), r)),
            },
        }
    }
}

/// The axis an image holds at the start of `b`: its tree, its tombstones,
/// and how many bytes it takes; or the first thing wrong with it.
pub open spec fn axis_at(b: Seq<u8>) -> Result<
    (Map<Option<(u128, u64)>, Seq<(u64, OpId)>>, Set<(u128, u64)>, int),
    ImageError,
> {
    if 4 > b.len() {
        Err(ImageError::Truncated)
    } else if le_at(b, 0, 4) > MAX_AXIS_ENTRIES {
        Err(ImageError::CapExceeded("axis groups"))
    } else {
        match groups_at(b, 4, le_at(b, 0, 4)) {
            Err(e) => Err(e),
            Ok((m, q)) => if q + 4 > b.len() {
                Err(ImageError::Truncated)
            } else if le_at(b, q, 4) > MAX_AXIS_ENTRIES {
                Err(ImageError::CapExceeded("tombstones"))
            } else if q + 4 + 24 * le_at(b, q, 4) > b.len() {
                Err(ImageError::Truncated)
            } else {
                Ok((m, keys_at(b, q + 4, le_at(b, q, 4)).to_set(), q + 4 + 24 * le_at(b, q, 4)))
            },
        }
    }
}

/// Once a group fails, every longer run of groups fails the same way.
proof fn lemma_groups_error_sticks(b: Seq<u8>, p: int, k: nat, n: nat)
    requires
        k <= n,
        groups_at(b, p, k) is Err,
    ensures
        groups_at(b, p, n) == groups_at(b, p, k),
    decreases n,
{
    if n > k {
        lemma_groups_error_sticks(b, p, k, (n - 1) as nat);
    }
}

/// The bytes of a suffix are the bytes of the whole, shifted.
proof fn lemma_suffix(whole: Seq<u8>, p0: int, q: int, n: int)
    requires
        0 <= p0 <= whole.len(),
        0 <= q,
        0 <= n,
        p0 + q + n <= whole.len(),
    ensures
        whole.subrange(p0 + q, p0 + q + n) == whole.subrange(p0, whole.len() as int).subrange(q, q + n),
{
    assert(whole.subrange(p0 + q, p0 + q + n) =~= whole.subrange(p0, whole.len() as int).subrange(q, q + n));
}

/// Reads `n` children, 32 bytes each.
fn read_kids(r: &mut Reader, Ghost(b): Ghost<Seq<u8>>, Ghost(p0): Ghost<int>, n: usize) -> (res: Result<
    Vec<(u64, OpId)>,
    ImageError,
>)
    requires
        old(r).pos() <= old(r).bytes().len(),
        0 <= p0 <= old(r).pos(),
        b == old(r).bytes().subrange(p0, old(r).bytes().len() as int),
    ensures
        final(r).bytes() == old(r).bytes(),
        final(r).pos() <= final(r).bytes().len(),
        old(r).pos() - p0 + 32 * n <= b.len() ==> (res matches Ok(v) && v@ == kids_at(b, old(r).pos() - p0, n as nat)
            && final(r).pos() == old(r).pos() + 32 * n),
        old(r).pos() - p0 + 32 * n > b.len() ==> res == Err::<Vec<(u64, OpId)>, ImageError>(ImageError::Truncated),
{
    let ghost q = r.pos() - p0;
    let ghost whole = r.bytes();
    let mut kids: Vec<(u64, OpId)> = Vec::new();
    let mut j: usize = 0;
    while j < n
        invariant
            j <= n,
            r.bytes() == whole,
            whole == old(r).bytes(),
            q == old(r).pos() - p0,
            b == whole.subrange(p0, whole.len() as int),
            0 <= p0,
            0 <= q,
            r.pos() == p0 + q + 32 * j,
            r.pos() <= whole.len(),
            kids@ == kids_at(b, q, j as nat),
        decreases n - j,
    {
        let lamport = match r.u64() {
            Ok(v) => v,
            Err(e) => {
                assert(q + 32 * j + 32 > b.len());
                assert(q + 32 * n >= q + 32 * j + 32);
                return Err(e);
            },
        };
        let id = match r.opid() {
            Ok(v) => v,
            Err(e) => {
                assert(q + 32 * j + 32 > b.len());
                assert(q + 32 * n >= q + 32 * j + 32);
                return Err(e);
            },
        };
        proof {
            let t = q + 32 * j;
            lemma_suffix(whole, p0, t, 8);
            lemma_suffix(whole, p0, t + 8, 16);
            lemma_suffix(whole, p0, t + 24, 8);
            assert(kid_at(b, t) == (lamport, id));
            assert(kids_at(b, q, (j + 1) as nat) =~= kids_at(b, q, j as nat).push((lamport, id)));
        }
        kids.push((lamport, id));
        j = j + 1;
    }
    Ok(kids)
}

/// The members of a sequence with one more element pushed.
proof fn lemma_push_to_set<A>(s: Seq<A>, x: A)
    ensures
        s.push(x).to_set() == s.to_set().insert(x),
{
    assert forall|y: A| s.push(x).to_set().contains(y) <==> s.to_set().insert(x).contains(y) by {
        if s.push(x).contains(y) && y != x {
            let i = choose|i: int| 0 <= i < s.push(x).len() && s.push(x)[i] == y;
            assert(s[i] == y);
        }
        if s.contains(y) {
            let i = choose|i: int| 0 <= i < s.len() && s[i] == y;
            assert(s.push(x)[i] == y);
        }
        if y == x {
            assert(s.push(x)[s.len() as int] == x);
        }
    }
    assert(s.push(x).to_set() =~= s.to_set().insert(x));
}

/// The key an anchor is filed under.
pub open spec fn anchor_key(anchor: Option<OpId>) -> Option<(u128, u64)> {
    match anchor {
        Some(a) => Some(id_key(a)),
        None => None,
    }
}

/// A split point, when there is one, is unique.
proof fn lemma_split_unique(s: Seq<(u64, OpId)>, x: (u64, OpId), p: int, q: int)
    requires
        splits(s, x, p),
        splits(s, x, q),
    ensures
        p == q,
{
    if p < q {
        assert(stamp_less(entry_key(x), entry_key(s[p])));
    } else if q < p {
        assert(stamp_less(entry_key(x), entry_key(s[q])));
    }
}

/// Where `x` splits a list after `y` was placed in it.
proof fn lemma_split_after_insert(s: Seq<(u64, OpId)>, x: (u64, OpId), px: int, y: (u64, OpId), py: int)
    requires
        splits(s, x, px),
        splits(s, y, py),
    ensures
        stamp_less(entry_key(x), entry_key(y)) ==> py <= px && splits(s.insert(py, y), x, px + 1),
        !stamp_less(entry_key(x), entry_key(y)) ==> px <= py && splits(s.insert(py, y), x, px),
{
    let t = s.insert(py, y);
    if stamp_less(entry_key(x), entry_key(y)) {
        if py > px {
            assert(stamp_less(entry_key(y), entry_key(s[px])));
            assert(!stamp_less(entry_key(x), entry_key(s[px])));
        }
        assert forall|i: int| 0 <= i < px + 1 implies stamp_less(entry_key(x), entry_key(#[trigger] t[i])) by {
            if i > py {
                assert(t[i] == s[i - 1]);
            }
        }
        assert forall|i: int| px + 1 <= i < t.len() implies !stamp_less(entry_key(x), entry_key(#[trigger] t[i])) by {
            assert(t[i] == s[i - 1]);
        }
    } else {
        if px > py {
            assert(stamp_less(entry_key(x), entry_key(s[py])));
        }
        assert forall|i: int| 0 <= i < px implies stamp_less(entry_key(x), entry_key(#[trigger] t[i])) by {
            assert(t[i] == s[i]);
        }
        assert forall|i: int| px <= i < t.len() implies !stamp_less(entry_key(x), entry_key(#[trigger] t[i])) by {
            if i < py {
                assert(t[i] == s[i]);
            } else if i > py {
                assert(t[i] == s[i - 1]);
            }
        }
    }
}

/// Inserts at the same anchor commute: the children come out the same
/// whichever insert arrived first.
pub proof fn lemma_inserts_commute(
    s: Seq<(u64, OpId)>,
    a: (u64, OpId),
    b: (u64, OpId),
    sa: Seq<(u64, OpId)>,
    sab: Seq<(u64, OpId)>,
    sb: Seq<(u64, OpId)>,
    sba: Seq<(u64, OpId)>,
)
    requires
        placed(s, a, sa),
        placed(sa, b, sab),
        placed(s, b, sb),
        placed(sb, a, sba),
    ensures
        sab == sba,
{
    let pa = choose|p: int| splits(s, a, p) && sa == s.insert(p, a);
    let pb = choose|p: int| splits(s, b, p) && sb == s.insert(p, b);
    let qb = choose|p: int| splits(sa, b, p) && sab == sa.insert(p, b);
    let qa = choose|p: int| splits(sb, a, p) && sba == sb.insert(p, a);
    lemma_split_after_insert(s, b, pb, a, pa);
    lemma_split_after_insert(s, a, pa, b, pb);
    if stamp_less(entry_key(b), entry_key(a)) {
        lemma_split_unique(sa, b, qb, pb + 1);
        lemma_split_unique(sb, a, qa, pa);
        assert(sab =~= sba);
    } else if stamp_less(entry_key(a), entry_key(b)) {
        lemma_split_unique(sa, b, qb, pb);
        lemma_split_unique(sb, a, qa, pa + 1);
        assert(sab =~= sba);
    } else {
        assert(entry_key(a) == entry_key(b));
        assert(a == b);
        lemma_split_unique(s, a, pa, pb);
        lemma_split_unique(sa, b, qb, pb);
        lemma_split_unique(sb, a, qa, pa);
        assert(sab =~= sba);
    }
}

/// Writes a list of children, each its lamport then its identity.
fn write_kids(w: &mut Writer, kids: &Vec<(u64, OpId)>)
    ensures
        final(w).tiles@ == old(w).tiles@,
        final(w).out@ == old(w).out@ + kids_bytes(kids@),
{
    let ghost mid = w.out@;
    let n = kids.len();
    let mut j: usize = 0;
    while j < n
        invariant
            j <= n,
            n == kids@.len(),
            w.tiles@ == old(w).tiles@,
            mid == old(w).out@,
            w.out@ == mid + kids_bytes(kids@.take(j as int)),
        decreases n - j,
    {
        let e = kids[j];
        w.u64(e.0);
        w.opid(&e.1);
        proof {
            let t = kids@.take(j + 1);
            assert(t.drop_last() =~= kids@.take(j as int));
            assert(t.last() == e);
        }
        j = j + 1;
        proof {
            assert(w.out@ =~= mid + kids_bytes(kids@.take(j as int)));
        }
    }
    proof {
        assert(kids@.take(n as int) =~= kids@);
    }
}

/// Writes an axis into an image: its insertion tree, group by group in
/// anchor order, then its tombstones in key order. The tree is written rather
/// than the flattened order because a restored axis keeps being edited, and a
/// later insert anchors to an identity already in it.
pub fn write_axis(w: &mut Writer, axis: &AxisSeq)
    ensures
        final(w).tiles@ == old(w).tiles@,
        exists|order: Seq<Option<(u128, u64)>>, dead: Seq<(u128, u64)>|
            #![trigger axis_bytes(order, axis.tree(), dead)]
            in_order(order, axis.anchors()) && in_order(dead, axis.dead()) && final(w).out@ == old(w).out@
                + axis_bytes(order, axis.tree(), dead),
{
    let ghost start = w.out@;
    w.len(axis.children.len());
    let ghost base = w.out@;
    let ghost mut order: Seq<Option<(u128, u64)>> = Seq::empty();
    proof {
        if axis.children@.dom().len() == 0 {
            axis.children@.dom().lemma_len0_is_empty();
            assert(order.to_set() =~= axis.children@.dom());
        }
    }
    for kv in it: axis.children.iter()
        invariant
            w.tiles@ == old(w).tiles@,
            it.seq().len() == axis.children@.dom().len(),
            forall|i: int|
                0 <= i < it.seq().len() ==> axis.children@.contains_key(*#[trigger] it.seq()[i].0)
                    && axis.children@[*it.seq()[i].0] == *it.seq()[i].1,
            forall|k: Option<(u128, u64)>| #[trigger]
                axis.children@.contains_key(k) ==> it.seq().contains((&k, &axis.children@[k])),
            increasing_seq(it.seq().map_values(|kv: (&Option<(u128, u64)>, &Vec<(u64, OpId)>)| *kv.0)),
            order == it.seq().take(it.index()).map_values(|kv: (&Option<(u128, u64)>, &Vec<(u64, OpId)>)| *kv.0),
            w.out@ == base + groups_bytes(order, axis.tree()),
            it.index() == it.seq().len() ==> in_order(order, axis.children@.dom()),
    {
        let (key, kids) = kv;
        let ghost idx = it.index();
        proof {
            assert(*it.seq()[idx].0 == *key && *it.seq()[idx].1 == *kids);
        }
        let ghost before = w.out@;
        match key {
            None => w.u8(0),
            Some(k) => {
                w.u8(1);
                w.opid(&OpId { actor: ActorId(k.0), counter: k.1 });
            },
        }
        proof {
            assert(w.out@ =~= before + anchor_bytes(*key));
        }
        w.len(kids.len());
        write_kids(w, kids);
        proof {
            let o2 = order.push(*key);
            assert(o2.drop_last() =~= order);
            assert(axis.tree()[*key] == kids@);
            assert(w.out@ =~= base + groups_bytes(o2, axis.tree()));
            order = o2;
            assert(order =~= it.seq().take(idx + 1).map_values(|kv: (&Option<(u128, u64)>, &Vec<(u64, OpId)>)| *kv.0));
            lemma_in_order_when_done(axis.children@, it.seq(), idx + 1);
        }
    }
    let ghost mid2 = w.out@;
    w.len(axis.tombstones.len());
    let ghost base2 = w.out@;
    let ghost mut dead: Seq<(u128, u64)> = Seq::empty();
    proof {
        if axis.tombstones@.dom().len() == 0 {
            axis.tombstones@.dom().lemma_len0_is_empty();
            assert(dead.to_set() =~= axis.tombstones@.dom());
        }
    }
    for kv in it: axis.tombstones.iter()
        invariant
            w.tiles@ == old(w).tiles@,
            it.seq().len() == axis.tombstones@.dom().len(),
            forall|i: int|
                0 <= i < it.seq().len() ==> axis.tombstones@.contains_key(*#[trigger] it.seq()[i].0)
                    && axis.tombstones@[*it.seq()[i].0] == *it.seq()[i].1,
            forall|k: (u128, u64)| #[trigger]
                axis.tombstones@.contains_key(k) ==> it.seq().contains((&k, &axis.tombstones@[k])),
            increasing_seq(it.seq().map_values(|kv: (&(u128, u64), &())| *kv.0)),
            dead == it.seq().take(it.index()).map_values(|kv: (&(u128, u64), &())| *kv.0),
            w.out@ == base2 + keys_bytes(dead),
            it.index() == it.seq().len() ==> in_order(dead, axis.tombstones@.dom()),
    {
        let (k, unit) = kv;
        let ghost idx = it.index();
        proof {
            assert(*it.seq()[idx].0 == *k);
        }
        w.opid(&OpId { actor: ActorId(k.0), counter: k.1 });
        proof {
            let d2 = dead.push(*k);
            assert(d2.drop_last() =~= dead);
            assert(w.out@ =~= base2 + keys_bytes(d2));
            dead = d2;
            assert(dead =~= it.seq().take(idx + 1).map_values(|kv: (&(u128, u64), &())| *kv.0));
            lemma_in_order_when_done(axis.tombstones@, it.seq(), idx + 1);
        }
    }
    proof {
        assert(axis.anchors() == axis.children@.dom());
        assert(order.len() == axis.children@.dom().len());
        assert(dead.len() == axis.tombstones@.dom().len());
        assert(w.out@ =~= start + axis_bytes(order, axis.tree(), dead));
    }
}

/// Reads one group: the anchor tag (and the anchor's key), the count of
/// children, the children.
fn read_group(r: &mut Reader, Ghost(b): Ghost<Seq<u8>>, Ghost(p0): Ghost<int>) -> (res: Result<
    (Option<(u128, u64)>, Vec<(u64, OpId)>),
    ImageError,
>)
    requires
        old(r).pos() <= old(r).bytes().len(),
        0 <= p0 <= old(r).pos(),
        b == old(r).bytes().subrange(p0, old(r).bytes().len() as int),
    ensures
        final(r).bytes() == old(r).bytes(),
        final(r).pos() <= final(r).bytes().len(),
        match group_at(b, old(r).pos() - p0) {
            Ok((a, ks, e)) => (res matches Ok((a2, v)) && a2 == a && v@ == ks && final(r).pos() == p0 + e),
            Err(e) => res == Err::<(Option<(u128, u64)>, Vec<(u64, OpId)>), ImageError>(e),
        },
{
    let ghost q = r.pos() - p0;
    let ghost whole = r.bytes();
    let tag = match r.u8() {
        Ok(t) => t,
        Err(e) => {
            return Err(e);
        },
    };
    let anchor = if tag == 0 {
        None
    } else if tag == 1 {
        let id = match r.opid() {
            Ok(id) => id,
            Err(e) => {
                return Err(e);
            },
        };
        proof {
            lemma_suffix(whole, p0, q + 1, 16);
            lemma_suffix(whole, p0, q + 17, 8);
        }
        Some((id.actor.0, id.counter))
    } else {
        return Err(ImageError::Malformed("axis anchor tag"));
    };
    let ghost q2 = r.pos() - p0;
    proof {
        if q2 + 4 <= b.len() {
            lemma_suffix(whole, p0, q2, 4);
        }
    }
    let n = match r.count(MAX_AXIS_ENTRIES, "axis children") {
        Ok(n) => n,
        Err(e) => {
            return Err(e);
        },
    };
    let kids = match read_kids(r, Ghost(b), Ghost(p0), n) {
        Ok(k) => k,
        Err(e) => {
            return Err(e);
        },
    };
    Ok((anchor, kids))
}

/// Reads an axis back from an image: the groups, a later group for an anchor
/// replacing an earlier one, then the tombstones. Every count is checked
/// against its bound before anything is read under it.
pub fn read_axis(r: &mut Reader) -> (res: Result<AxisSeq, ImageError>)
    requires
        old(r).pos() <= old(r).bytes().len(),
    ensures
        final(r).bytes() == old(r).bytes(),
        final(r).pos() <= final(r).bytes().len(),
        match axis_at(old(r).bytes().subrange(old(r).pos(), old(r).bytes().len() as int)) {
            Ok((tree, dead, n)) => (res matches Ok(ax) && ax.tree() == tree && ax.dead() == dead && final(r).pos()
                == old(r).pos() + n),
            Err(e) => res == Err::<AxisSeq, ImageError>(e),
        },
{
    let ghost whole = r.bytes();
    let ghost p0 = r.pos();
    proof {
        r.lemma_pos();
    }
    let ghost b = whole.subrange(p0, whole.len() as int);
    let mut axis = AxisSeq { children: BTreeMap::new(), tombstones: BTreeMap::new() };
    proof {
        assert(axis.dead() =~= Set::<(u128, u64)>::empty());
        if b.len() >= 4 {
            lemma_suffix(whole, p0, 0, 4);
        }
        assert(axis.tree() =~= Map::<Option<(u128, u64)>, Seq<(u64, OpId)>>::empty());
    }
    let groups = match r.count(MAX_AXIS_ENTRIES, "axis groups") {
        Ok(n) => n,
        Err(e) => {
            return Err(e);
        },
    };
    let mut i: usize = 0;
    while i < groups
        invariant
            i <= groups,
            groups == le_at(b, 0, 4),
            groups <= MAX_AXIS_ENTRIES,
            4 <= b.len(),
            r.bytes() == whole,
            whole == old(r).bytes(),
            p0 == old(r).pos(),
            b == whole.subrange(p0, whole.len() as int),
            0 <= p0 <= r.pos(),
            r.pos() <= whole.len(),
            axis.dead() == Set::<(u128, u64)>::empty(),
            groups_at(b, 4, i as nat) == Ok::<(Map<Option<(u128, u64)>, Seq<(u64, OpId)>>, int), ImageError>(
                (axis.tree(), r.pos() - p0),
            ),
        decreases groups - i,
    {
        let (anchor, kids) = match read_group(r, Ghost(b), Ghost(p0)) {
            Ok(g) => g,
            Err(e) => {
                proof {
                    lemma_groups_error_sticks(b, 4, (i + 1) as nat, groups as nat);
                }
                return Err(e);
            },
        };
        let ghost before = axis.tree();
        axis.children.insert(anchor, kids);
        proof {
            assert(axis.tree() =~= before.insert(anchor, kids@));
        }
        i = i + 1;
    }
    let ghost q = r.pos() - p0;
    let ghost tree = axis.tree();
    proof {
        if q + 4 <= b.len() {
            lemma_suffix(whole, p0, q, 4);
        }
    }
    let n = match r.count(MAX_AXIS_ENTRIES, "tombstones") {
        Ok(n) => n,
        Err(e) => {
            return Err(e);
        },
    };
    proof {
        assert(axis.dead() =~= keys_at(b, q + 4, 0).to_set());
        assert(axis_at(b) == if q + 4 + 24 * n > b.len() {
            Err::<(Map<Option<(u128, u64)>, Seq<(u64, OpId)>>, Set<(u128, u64)>, int), ImageError>(ImageError::Truncated)
        } else {
            Ok((tree, keys_at(b, q + 4, n as nat).to_set(), q + 4 + 24 * n))
        });
    }
    let mut j: usize = 0;
    while j < n
        invariant
            j <= n,
            n == le_at(b, q, 4),
            r.bytes() == whole,
            whole == old(r).bytes(),
            p0 == old(r).pos(),
            b == whole.subrange(p0, whole.len() as int),
            0 <= p0,
            0 <= q,
            r.pos() == p0 + q + 4 + 24 * j,
            r.pos() <= whole.len(),
            axis.tree() == tree,
            axis.dead() == keys_at(b, q + 4, j as nat).to_set(),
            axis_at(b) == if q + 4 + 24 * n > b.len() {
                Err::<(Map<Option<(u128, u64)>, Seq<(u64, OpId)>>, Set<(u128, u64)>, int), ImageError>(ImageError::Truncated)
            } else {
                Ok((tree, keys_at(b, q + 4, n as nat).to_set(), q + 4 + 24 * n))
            },
        decreases n - j,
    {
        let id = match r.opid() {
            Ok(id) => id,
            Err(e) => {
                assert(q + 4 + 24 * n >= q + 4 + 24 * j + 24);
                return Err(e);
            },
        };
        proof {
            lemma_suffix(whole, p0, q + 4 + 24 * j, 16);
            lemma_suffix(whole, p0, q + 4 + 24 * j + 16, 8);
        }
        let ghost before = axis.dead();
        axis.tombstones.insert((id.actor.0, id.counter), ());
        proof {
            let k = (id.actor.0, id.counter);
            assert(k == key_at(b, q + 4 + 24 * j));
            assert(keys_at(b, q + 4, (j + 1) as nat) =~= keys_at(b, q + 4, j as nat).push(k));
            lemma_push_to_set(keys_at(b, q + 4, j as nat), k);
            assert(axis.dead() =~= before.insert(k));
        }
        j = j + 1;
    }
    Ok(axis)
}

/// `s` stands in `b` at `p`.
pub open spec fn bytes_at(b: Seq<u8>, p: int, s: Seq<u8>) -> bool {
    &&& 0 <= p
    &&& p + s.len() <= b.len()
    &&& b.subrange(p, p + s.len()) == s
}

proof fn lemma_bytes_at_split(b: Seq<u8>, p: int, s1: Seq<u8>, s2: Seq<u8>)
    requires
        bytes_at(b, p, s1 + s2),
    ensures
        bytes_at(b, p, s1),
        bytes_at(b, p + s1.len(), s2),
{
    assert(b.subrange(p, p + s1.len()) =~= (s1 + s2).subrange(0, s1.len() as int));
    assert((s1 + s2).subrange(0, s1.len() as int) =~= s1);
    assert(b.subrange(p + s1.len(), p + s1.len() + s2.len()) =~= (s1 + s2).subrange(
        s1.len() as int,
        (s1.len() + s2.len()) as int,
    ));
    assert((s1 + s2).subrange(s1.len() as int, (s1.len() + s2.len()) as int) =~= s2);
}

proof fn lemma_le_field(b: Seq<u8>, p: int, v: nat, n: nat)
    requires
        bytes_at(b, p, le_bytes(v, n)),
        v < crate::image::pow256(n),
    ensures
        le_at(b, p, n as int) == v,
        le_bytes(v, n).len() == n,
{
    lemma_le_round_trip(v, n);
}

proof fn lemma_key_field(b: Seq<u8>, p: int, k: (u128, u64))
    requires
        bytes_at(b, p, key_bytes(k)),
    ensures
        key_at(b, p) == k,
        key_bytes(k).len() == 24,
{
    lemma_pow256_values();
    lemma_bytes_at_split(b, p, le_bytes(k.0 as nat, 16), le_bytes(k.1 as nat, 8));
    lemma_le_field(b, p, k.0 as nat, 16);
    lemma_le_field(b, p + 16, k.1 as nat, 8);
}

proof fn lemma_kid_field(b: Seq<u8>, p: int, e: (u64, OpId))
    requires
        bytes_at(b, p, kid_bytes(e)),
    ensures
        kid_at(b, p) == e,
        kid_bytes(e).len() == 32,
{
    lemma_pow256_values();
    let l = le_bytes(e.0 as nat, 8);
    let a = le_bytes(e.1.actor.0 as nat, 16);
    let c = le_bytes(e.1.counter as nat, 8);
    assert(kid_bytes(e) == l + (a + c));
    lemma_bytes_at_split(b, p, l, a + c);
    lemma_le_field(b, p, e.0 as nat, 8);
    lemma_bytes_at_split(b, p + 8, a, c);
    lemma_le_field(b, p + 8, e.1.actor.0 as nat, 16);
    lemma_le_field(b, p + 24, e.1.counter as nat, 8);
}

proof fn lemma_kids_field(b: Seq<u8>, p: int, s: Seq<(u64, OpId)>)
    requires
        bytes_at(b, p, kids_bytes(s)),
    ensures
        kids_at(b, p, s.len()) == s,
        kids_bytes(s).len() == 32 * s.len(),
    decreases s.len(),
{
    if s.len() > 0 {
        let s2 = s.drop_last();
        lemma_bytes_at_split(b, p, kids_bytes(s2), kid_bytes(s.last()));
        lemma_kids_field(b, p, s2);
        lemma_kid_field(b, p + 32 * s2.len(), s.last());
        assert(kids_at(b, p, s.len()) =~= kids_at(b, p, s2.len()).push(s.last()));
        assert(s2.push(s.last()) =~= s);
    } else {
        assert(kids_at(b, p, 0) =~= s);
    }
}

proof fn lemma_keys_field(b: Seq<u8>, p: int, ks: Seq<(u128, u64)>)
    requires
        bytes_at(b, p, keys_bytes(ks)),
    ensures
        keys_at(b, p, ks.len()) == ks,
        keys_bytes(ks).len() == 24 * ks.len(),
    decreases ks.len(),
{
    if ks.len() > 0 {
        let k2 = ks.drop_last();
        lemma_bytes_at_split(b, p, keys_bytes(k2), key_bytes(ks.last()));
        lemma_keys_field(b, p, k2);
        lemma_key_field(b, p + 24 * k2.len(), ks.last());
        assert(keys_at(b, p, ks.len()) =~= keys_at(b, p, k2.len()).push(ks.last()));
        assert(k2.push(ks.last()) =~= ks);
    } else {
        assert(keys_at(b, p, 0) =~= ks);
    }
}

proof fn lemma_group_field(b: Seq<u8>, p: int, a: Option<(u128, u64)>, s: Seq<(u64, OpId)>)
    requires
        bytes_at(b, p, group_bytes(a, s)),
        s.len() <= MAX_AXIS_ENTRIES,
    ensures
        group_at(b, p) == Ok::<(Option<(u128, u64)>, Seq<(u64, OpId)>, int), ImageError>(
            (a, s, p + group_bytes(a, s).len()),
        ),
{
    lemma_pow256_values();
    let ab = anchor_bytes(a);
    let lb = le_bytes((s.len() as u32) as nat, 4);
    let kb = kids_bytes(s);
    lemma_bytes_at_split(b, p, ab + lb, kb);
    lemma_bytes_at_split(b, p, ab, lb);
    lemma_le_field(b, p + ab.len(), (s.len() as u32) as nat, 4);
    lemma_kids_field(b, p + ab.len() + 4, s);
    assert(b.subrange(p, p + ab.len())[0] == b[p]);
    match a {
        None => {
            assert(b[p] == 0);
        },
        Some(k) => {
            assert(b[p] == 1);
            lemma_bytes_at_split(b, p, seq![1u8], key_bytes(k));
            lemma_key_field(b, p + 1, k);
        },
    }
}

/// The map the first groups of `order` build: each anchor with its list.
pub open spec fn listed_tree(
    order: Seq<Option<(u128, u64)>>,
    tree: Map<Option<(u128, u64)>, Seq<(u64, OpId)>>,
) -> Map<Option<(u128, u64)>, Seq<(u64, OpId)>> {
    Map::new(|a: Option<(u128, u64)>| order.contains(a), |a: Option<(u128, u64)>| tree[a])
}

proof fn lemma_groups_field(
    b: Seq<u8>,
    p: int,
    order: Seq<Option<(u128, u64)>>,
    tree: Map<Option<(u128, u64)>, Seq<(u64, OpId)>>,
)
    requires
        bytes_at(b, p, groups_bytes(order, tree)),
        forall|i: int| 0 <= i < order.len() ==> (#[trigger] tree[order[i]]).len() <= MAX_AXIS_ENTRIES,
    ensures
        groups_at(b, p, order.len()) == Ok::<(Map<Option<(u128, u64)>, Seq<(u64, OpId)>>, int), ImageError>(
            (listed_tree(order, tree), p + groups_bytes(order, tree).len()),
        ),
    decreases order.len(),
{
    if order.len() == 0 {
        assert(listed_tree(order, tree) =~= Map::empty());
    } else {
        let o2 = order.drop_last();
        let last = order.last();
        lemma_bytes_at_split(b, p, groups_bytes(o2, tree), group_bytes(last, tree[last]));
        assert forall|i: int| 0 <= i < o2.len() implies (#[trigger] tree[o2[i]]).len() <= MAX_AXIS_ENTRIES by {
            assert(o2[i] == order[i]);
        }
        lemma_groups_field(b, p, o2, tree);
        assert(tree[order[order.len() - 1]].len() <= MAX_AXIS_ENTRIES);
        lemma_group_field(b, p + groups_bytes(o2, tree).len(), last, tree[last]);
        assert forall|a: Option<(u128, u64)>| order.contains(a) <==> o2.contains(a) || a == last by {
            if order.contains(a) && a != last {
                let i = choose|i: int| 0 <= i < order.len() && order[i] == a;
                assert(o2[i] == a);
            }
            if o2.contains(a) {
                let i = choose|i: int| 0 <= i < o2.len() && o2[i] == a;
                assert(order[i] == a);
            }
            if a == last {
                assert(order[order.len() - 1] == a);
            }
        }
        assert(listed_tree(order, tree) =~= listed_tree(o2, tree).insert(last, tree[last]));
    }
}

/// However an axis's anchors and tombstones are enumerated, the image of it
/// reads back as the same tree and the same tombstones, whatever follows it,
/// and reading stops exactly where it ends.
pub proof fn lemma_axis_round_trip(
    order: Seq<Option<(u128, u64)>>,
    tree: Map<Option<(u128, u64)>, Seq<(u64, OpId)>>,
    dead: Seq<(u128, u64)>,
    rest: Seq<u8>,
)
    requires
        order.to_set() == tree.dom(),
        order.len() <= MAX_AXIS_ENTRIES,
        dead.len() <= MAX_AXIS_ENTRIES,
        forall|a: Option<(u128, u64)>| #[trigger] tree.contains_key(a) ==> tree[a].len() <= MAX_AXIS_ENTRIES,
    ensures
        axis_at(axis_bytes(order, tree, dead) + rest) == Ok::<
            (Map<Option<(u128, u64)>, Seq<(u64, OpId)>>, Set<(u128, u64)>, int),
            ImageError,
        >((tree, dead.to_set(), axis_bytes(order, tree, dead).len() as int)),
{
    lemma_pow256_values();
    let img = axis_bytes(order, tree, dead);
    let b = img + rest;
    let l1 = le_bytes((order.len() as u32) as nat, 4);
    let g = groups_bytes(order, tree);
    let l2 = le_bytes((dead.len() as u32) as nat, 4);
    let k = keys_bytes(dead);
    assert(b.subrange(0, img.len() as int) =~= img);
    assert(img == ((l1 + g) + l2) + k);
    lemma_bytes_at_split(b, 0, (l1 + g) + l2, k);
    lemma_bytes_at_split(b, 0, l1 + g, l2);
    lemma_bytes_at_split(b, 0, l1, g);
    lemma_le_field(b, 0, (order.len() as u32) as nat, 4);
    assert forall|i: int| 0 <= i < order.len() implies (#[trigger] tree[order[i]]).len() <= MAX_AXIS_ENTRIES by {
        assert(order.to_set().contains(order[i]));
    }
    lemma_groups_field(b, 4, order, tree);
    assert(listed_tree(order, tree) =~= tree);
    let q = 4 + g.len() as int;
    lemma_le_field(b, q, (dead.len() as u32) as nat, 4);
    lemma_keys_field(b, q + 4, dead);
}

/// An axis written by `write_axis` reads back with `read_axis` as the same
/// axis: the same children under every anchor, the same anchors, the same
/// tombstones, whatever the image holds after it.
pub proof fn lemma_axis_image_reads_back(
    ax: AxisSeq,
    order: Seq<Option<(u128, u64)>>,
    dead: Seq<(u128, u64)>,
    rest: Seq<u8>,
)
    requires
        in_order(order, ax.anchors()),
        in_order(dead, ax.dead()),
        order.len() <= MAX_AXIS_ENTRIES,
        dead.len() <= MAX_AXIS_ENTRIES,
        forall|a: Option<(u128, u64)>| #[trigger] ax.kids(a).len() <= MAX_AXIS_ENTRIES,
    ensures
        axis_at(axis_bytes(order, ax.tree(), dead) + rest) == Ok::<
            (Map<Option<(u128, u64)>, Seq<(u64, OpId)>>, Set<(u128, u64)>, int),
            ImageError,
        >((ax.tree(), ax.dead(), axis_bytes(order, ax.tree(), dead).len() as int)),
{
    ax.lemma_tree();
    assert forall|a: Option<(u128, u64)>| #[trigger] ax.tree().contains_key(a) implies ax.tree()[a].len()
        <= MAX_AXIS_ENTRIES by {
        assert(ax.kids(a).len() <= MAX_AXIS_ENTRIES);
    }
    lemma_axis_round_trip(order, ax.tree(), dead, rest);
}

} // verus!
