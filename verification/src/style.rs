//! Style rules over identity rectangles, and their resolution against an
//! axis order.
//!
//! A rule names a rectangle of row and column identities, one facet slot and
//! the `(lamport, op id)` stamp of the op that authored it. A cell's facet is
//! the value of the greatest-stamped rule for that slot that covers it. Rules
//! are kept in ascending stamp order, so the registry depends only on which
//! rules it was given, never on the order they came in.

use vstd::prelude::*;
use std::collections::BTreeMap;
use std::vec::Vec;
use crate::stamps::{stamp_key, stamp_less, stamp_precedes};
use crate::types::{ColId, OpId, RowId};

verus! {

broadcast use vstd::std_specs::btree::group_btree_axioms, vstd::laws_cmp::group_laws_cmp;

/// An interned facet value's identity.
pub type FacetId = u32;

/// What a rule says about its facet slot.
#[derive(Clone, Copy, PartialEq, Eq, Structural, Debug)]
pub enum RuleValue {
    SetTo(FacetId),
    /// Back to the workbook default. A clear must out-rank an earlier set,
    /// which only a stamped rule can do.
    Clear,
}

/// One axis of a rule's rectangle.
#[derive(Clone, Copy, PartialEq, Eq, Structural, Debug)]
pub enum AxisSpan {
    /// The whole axis, including identities created later.
    All,
    /// From one identity to another, inclusive, in either order.
    Between(OpId, OpId),
}

/// A rectangle of identities.
#[derive(Clone, Copy, PartialEq, Eq, Structural, Debug)]
pub struct StyleTarget {
    pub rows: AxisSpan,
    pub cols: AxisSpan,
}

/// One set or clear of a facet slot, as state holds it.
#[derive(Clone, Copy, PartialEq, Eq, Debug)]
pub struct Rule {
    pub stamp: (u64, OpId),
    pub target: StyleTarget,
    pub slot: u8,
    pub value: RuleValue,
}

/// A rule's stamp as integers.
pub open spec fn rule_key(r: Rule) -> (u64, u128, u64) {
    stamp_key(r.stamp)
}

/// Strictly ascending by stamp: no two rules share one.
pub open spec fn sorted_rules(rules: Seq<Rule>) -> bool {
    forall|i: int, j: int|
        0 <= i < j < rules.len() ==> stamp_less(rule_key(#[trigger] rules[i]), rule_key(#[trigger] rules[j]))
}

/// Whether some rule carries stamp `k`.
pub open spec fn has_stamp(rules: Seq<Rule>, k: (u64, u128, u64)) -> bool {
    exists|i: int| 0 <= i < rules.len() && rule_key(#[trigger] rules[i]) == k
}

/// The rules a registry holds after being given `r`: `r` joins unless a rule
/// with its stamp is already there.
pub open spec fn adds(before: Seq<Rule>, r: Rule, after: Seq<Rule>) -> bool {
    &&& sorted_rules(after)
    &&& forall|x: Rule| #[trigger] after.contains(x) <==> (before.contains(x) || (x == r && !has_stamp(before, rule_key(r))))
}

/// The workbook's formatting rules.
#[derive(Clone)]
pub struct StyleRegistry {
    rules: Vec<Rule>,
}

impl StyleRegistry {
    /// The rules, ascending by stamp.
    pub closed spec fn rules_view(&self) -> Seq<Rule> {
        self.rules@
    }

    pub open spec fn wf(&self) -> bool {
        sorted_rules(self.rules_view())
    }

    /// No rules.
    pub fn new() -> (r: StyleRegistry)
        ensures
            r.wf(),
            r.rules_view() == Seq::<Rule>::empty(),
    {
        StyleRegistry { rules: Vec::new() }
    }

    /// Applies a set of `slot` to an interned facet value. An op already
    /// held is ignored, so a redelivered op changes nothing.
    pub fn set(&mut self, stamp: (u64, OpId), target: StyleTarget, slot: u8, facet: FacetId)
        requires
            old(self).wf(),
        ensures
            final(self).wf(),
            adds(
                old(self).rules_view(),
                (Rule { stamp, target, slot, value: RuleValue::SetTo(facet) }),
                final(self).rules_view(),
            ),
    {
        self.insert(Rule { stamp, target, slot, value: RuleValue::SetTo(facet) });
    }

    /// Applies a clear of `slot`.
    pub fn clear(&mut self, stamp: (u64, OpId), target: StyleTarget, slot: u8)
        requires
            old(self).wf(),
        ensures
            final(self).wf(),
            adds(
                old(self).rules_view(),
                (Rule { stamp, target, slot, value: RuleValue::Clear }),
                final(self).rules_view(),
            ),
    {
        self.insert(Rule { stamp, target, slot, value: RuleValue::Clear });
    }

    /// Inserts a rule at its place in stamp order, unless its stamp is held.
    fn insert(&mut self, rule: Rule)
        requires
            old(self).wf(),
        ensures
            final(self).wf(),
            adds(old(self).rules_view(), rule, final(self).rules_view()),
    {
        let key = (rule.stamp.0, rule.stamp.1.actor.0, rule.stamp.1.counter);
        let n = self.rules.len();
        let mut lo: usize = 0;
        let mut hi: usize = n;
        while lo < hi
            invariant
                0 <= lo <= hi <= n,
                n == self.rules@.len(),
                self.rules@ == old(self).rules@,
                sorted_rules(self.rules@),
                key == rule_key(rule),
                forall|i: int| 0 <= i < lo ==> stamp_less(rule_key(#[trigger] self.rules@[i]), key),
                forall|i: int| hi <= i < n ==> !stamp_less(rule_key(#[trigger] self.rules@[i]), key),
            decreases hi - lo,
        {
            let mid = lo + (hi - lo) / 2;
            let r = self.rules[mid];
            let m = (r.stamp.0, r.stamp.1.actor.0, r.stamp.1.counter);
            if stamp_precedes(m, key) {
                proof {
                    assert forall|i: int| 0 <= i < mid + 1 implies stamp_less(rule_key(#[trigger] self.rules@[i]), key) by {
                        if i < mid {
                            assert(stamp_less(rule_key(self.rules@[i]), rule_key(self.rules@[mid as int])));
                        }
                    }
                }
                lo = mid + 1;
            } else {
                proof {
                    assert forall|i: int| mid <= i < n implies !stamp_less(rule_key(#[trigger] self.rules@[i]), key) by {
                        if i > mid {
                            assert(stamp_less(rule_key(self.rules@[mid as int]), rule_key(self.rules@[i])));
                        }
                    }
                }
                hi = mid;
            }
        }
        if lo < n {
            let r = self.rules[lo];
            if r.stamp.0 == rule.stamp.0 && r.stamp.1.actor.0 == rule.stamp.1.actor.0
                && r.stamp.1.counter == rule.stamp.1.counter {
                proof {
                    assert(has_stamp(self.rules@, key));
                }
                return;
            }
        }
        proof {
            assert forall|i: int| 0 <= i < n implies rule_key(#[trigger] self.rules@[i]) != key by {
                if i > lo {
                    assert(stamp_less(rule_key(self.rules@[lo as int]), rule_key(self.rules@[i])));
                }
            }
        }
        let ghost before = self.rules@;
        self.rules.insert(lo, rule);
        proof {
            let after = self.rules@;
            assert(after == before.insert(lo as int, rule));
            assert forall|i: int, j: int| 0 <= i < j < after.len() implies stamp_less(rule_key(#[trigger] after[i]), rule_key(#[trigger] after[j])) by {
                if j < lo {
                } else if j == lo {
                } else if i < lo {
                    assert(after[j] == before[j - 1]);
                } else if i == lo {
                    assert(after[j] == before[j - 1]);
                } else {
                    assert(after[i] == before[i - 1]);
                    assert(after[j] == before[j - 1]);
                }
            }
            assert forall|x: Rule| #[trigger] after.contains(x) <==> (before.contains(x) || (x == rule && !has_stamp(before, rule_key(rule)))) by {
                if after.contains(x) {
                    let i = choose|i: int| 0 <= i < after.len() && after[i] == x;
                    if i < lo {
                        assert(before[i] == x);
                    } else if i > lo {
                        assert(before[i - 1] == x);
                    }
                }
                if before.contains(x) {
                    let i = choose|i: int| 0 <= i < before.len() && before[i] == x;
                    if i < lo {
                        assert(after[i] == x);
                    } else {
                        assert(after[i + 1] == x);
                    }
                }
                if x == rule {
                    assert(after[lo as int] == x);
                }
            }
        }
    }

    /// Every rule, ascending by stamp.
    pub fn rules(&self) -> (r: &[Rule])
        ensures
            r@ == self.rules_view(),
    {
        self.rules.as_slice()
    }

    /// Whether no style op has been applied.
    pub fn is_empty(&self) -> (r: bool)
        ensures
            r == (self.rules_view().len() == 0),
    {
        self.rules.len() == 0
    }
}

/// Two stamp-sorted rule lists holding the same rules are the same list.
pub proof fn lemma_sorted_unique(s1: Seq<Rule>, s2: Seq<Rule>)
    requires
        sorted_rules(s1),
        sorted_rules(s2),
        forall|x: Rule| s1.contains(x) <==> s2.contains(x),
    ensures
        s1 == s2,
    decreases s1.len(),
{
    if s1.len() == 0 {
        if s2.len() > 0 {
            assert(s2.contains(s2[0]));
        }
        assert(s1 =~= s2);
    } else {
        assert(s1.contains(s1[0]));
        assert(s2.len() > 0);
        assert(s2.contains(s2[0]));
        let j = choose|j: int| 0 <= j < s2.len() && s2[j] == s1[0];
        let i = choose|i: int| 0 <= i < s1.len() && s1[i] == s2[0];
        if j > 0 {
            assert(stamp_less(rule_key(s2[0]), rule_key(s2[j])));
            if i > 0 {
                assert(stamp_less(rule_key(s1[0]), rule_key(s1[i])));
            }
        }
        assert(s1[0] == s2[0]);
        let t1 = s1.drop_first();
        let t2 = s2.drop_first();
        assert forall|x: Rule| t1.contains(x) <==> t2.contains(x) by {
            if t1.contains(x) {
                let a = choose|a: int| 0 <= a < t1.len() && t1[a] == x;
                assert(s1[a + 1] == x);
                assert(stamp_less(rule_key(s1[0]), rule_key(s1[a + 1])));
                assert(s2.contains(x));
                let b = choose|b: int| 0 <= b < s2.len() && s2[b] == x;
                assert(b != 0);
                assert(t2[b - 1] == x);
            }
            if t2.contains(x) {
                let a = choose|a: int| 0 <= a < t2.len() && t2[a] == x;
                assert(s2[a + 1] == x);
                assert(stamp_less(rule_key(s2[0]), rule_key(s2[a + 1])));
                assert(s1.contains(x));
                let b = choose|b: int| 0 <= b < s1.len() && s1[b] == x;
                assert(b != 0);
                assert(t1[b - 1] == x);
            }
        }
        lemma_sorted_unique(t1, t2);
        assert(s1 =~= s2) by {
            assert forall|k: int| 0 <= k < s1.len() implies s1[k] == s2[k] by {
                if k > 0 {
                    assert(s1[k] == t1[k - 1]);
                    assert(s2[k] == t2[k - 1]);
                }
            }
        }
    }
}

/// The registry does not depend on arrival order: two ops applied in
/// either order leave the same rules, and an op applied twice leaves what
/// it left once.
pub proof fn lemma_rules_order_independent(
    start: Seq<Rule>,
    a: Rule,
    b: Rule,
    ab1: Seq<Rule>,
    ab2: Seq<Rule>,
    ba1: Seq<Rule>,
    ba2: Seq<Rule>,
)
    requires
        sorted_rules(start),
        a.stamp == b.stamp ==> a == b,
        adds(start, a, ab1),
        adds(ab1, b, ab2),
        adds(start, b, ba1),
        adds(ba1, a, ba2),
    ensures
        ab2 == ba2,
{
    assert forall|k: (u64, u128, u64)| has_stamp(ab1, k) <==> (has_stamp(start, k) || k == rule_key(a)) by {
        if has_stamp(ab1, k) {
            let i = choose|i: int| 0 <= i < ab1.len() && rule_key(ab1[i]) == k;
            assert(ab1.contains(ab1[i]));
            if start.contains(ab1[i]) {
                let j = choose|j: int| 0 <= j < start.len() && start[j] == ab1[i];
                assert(rule_key(start[j]) == k);
            }
        }
        if has_stamp(start, k) {
            let i = choose|i: int| 0 <= i < start.len() && rule_key(start[i]) == k;
            assert(start.contains(start[i]));
            assert(ab1.contains(start[i]));
            let j = choose|j: int| 0 <= j < ab1.len() && ab1[j] == start[i];
        }
        if k == rule_key(a) && !has_stamp(start, k) {
            assert(ab1.contains(a));
            let j = choose|j: int| 0 <= j < ab1.len() && ab1[j] == a;
        }
    }
    assert forall|k: (u64, u128, u64)| has_stamp(ba1, k) <==> (has_stamp(start, k) || k == rule_key(b)) by {
        if has_stamp(ba1, k) {
            let i = choose|i: int| 0 <= i < ba1.len() && rule_key(ba1[i]) == k;
            assert(ba1.contains(ba1[i]));
            if start.contains(ba1[i]) {
                let j = choose|j: int| 0 <= j < start.len() && start[j] == ba1[i];
                assert(rule_key(start[j]) == k);
            }
        }
        if has_stamp(start, k) {
            let i = choose|i: int| 0 <= i < start.len() && rule_key(start[i]) == k;
            assert(start.contains(start[i]));
            assert(ba1.contains(start[i]));
            let j = choose|j: int| 0 <= j < ba1.len() && ba1[j] == start[i];
        }
        if k == rule_key(b) && !has_stamp(start, k) {
            assert(ba1.contains(b));
            let j = choose|j: int| 0 <= j < ba1.len() && ba1[j] == b;
        }
    }
    assert forall|x: Rule| ab2.contains(x) <==> ba2.contains(x) by {
        if rule_key(a) == rule_key(b) {
            assert(a.stamp == b.stamp);
        }
    }
    lemma_sorted_unique(ab2, ba2);
}


// ------------------------------------------------------------------ resolver

/// An identity as the integers an axis index is keyed by.
pub open spec fn okey(id: OpId) -> (u128, u64) {
    (id.actor.0, id.counter)
}

/// `m` maps each identity of `order` to the last position that holds it.
pub open spec fn indexes(m: Map<(u128, u64), usize>, order: Seq<(OpId, bool)>) -> bool {
    &&& forall|k: (u128, u64)| #[trigger] m.contains_key(k) <==> exists|i: int| 0 <= i < order.len() && okey(order[i].0) == k
    &&& forall|k: (u128, u64)| #[trigger] m.contains_key(k) ==> m[k] < order.len() && okey(order[m[k] as int].0) == k
        && forall|j: int| m[k] < j < order.len() ==> okey(#[trigger] order[j].0) != k
}

/// The first live position in `lo..=hi`.
pub open spec fn first_live(order: Seq<(OpId, bool)>, lo: int, hi: int) -> Option<int>
    decreases hi - lo + 1,
{
    if lo > hi || lo < 0 || hi >= order.len() {
        None
    } else if order[lo].1 {
        Some(lo)
    } else {
        first_live(order, lo + 1, hi)
    }
}

/// The last live position in `lo..=hi`.
pub open spec fn last_live(order: Seq<(OpId, bool)>, lo: int, hi: int) -> Option<int>
    decreases hi - lo + 1,
{
    if lo > hi || lo < 0 || hi >= order.len() {
        None
    } else if order[hi].1 {
        Some(hi)
    } else {
        last_live(order, lo, hi - 1)
    }
}

/// One axis of a rule resolved to a window of full-order positions. `All`
/// is the whole axis (nothing, on an empty one); `Between` locates both
/// endpoints and moves each inward past tombstones, and covers nothing when
/// no live identity is left between them.
pub open spec fn span_window(span: AxisSpan, order: Seq<(OpId, bool)>, m: Map<(u128, u64), usize>) -> Option<(int, int)> {
    match span {
        AxisSpan::All => if order.len() == 0 {
            Some((usize::MAX as int, 0))
        } else {
            Some((0, order.len() - 1))
        },
        AxisSpan::Between(start, end) => if m.contains_key(okey(start)) && m.contains_key(okey(end)) {
            let a = m[okey(start)] as int;
            let b = m[okey(end)] as int;
            let lo = if a <= b { a } else { b };
            let hi = if a <= b { b } else { a };
            match first_live(order, lo, hi) {
                Some(low) => match last_live(order, low, hi) {
                    Some(high) => Some((low, high)),
                    None => None,
                },
                None => None,
            }
        } else {
            None
        },
    }
}

/// A rule's rectangle as a window of full-order positions.
#[derive(Clone, Copy)]
pub struct Window {
    pub row_lo: usize,
    pub row_hi: usize,
    pub col_lo: usize,
    pub col_hi: usize,
}

/// A window as four integers.
pub open spec fn window_tuple(w: Option<Window>) -> Option<(int, int, int, int)> {
    match w {
        Some(w) => Some((w.row_lo as int, w.row_hi as int, w.col_lo as int, w.col_hi as int)),
        None => None,
    }
}

/// The window a target covers, when both its spans resolve.
pub open spec fn target_window(
    t: StyleTarget,
    rows: Seq<(OpId, bool)>,
    rm: Map<(u128, u64), usize>,
    cols: Seq<(OpId, bool)>,
    cm: Map<(u128, u64), usize>,
) -> Option<(int, int, int, int)> {
    match (span_window(t.rows, rows, rm), span_window(t.cols, cols, cm)) {
        (Some(r), Some(c)) => Some((r.0, r.1, c.0, c.1)),
        _ => None,
    }
}

proof fn lemma_first_live(order: Seq<(OpId, bool)>, lo: int, hi: int)
    ensures
        match first_live(order, lo, hi) {
            Some(p) => lo <= p <= hi && order[p].1 && forall|j: int| lo <= j < p ==> !(#[trigger] order[j]).1,
            None => 0 <= lo && hi < order.len() ==> forall|j: int| lo <= j <= hi ==> !(#[trigger] order[j]).1,
        },
    decreases hi - lo + 1,
{
    if !(lo > hi || lo < 0 || hi >= order.len()) && !order[lo].1 {
        lemma_first_live(order, lo + 1, hi);
    }
}

proof fn lemma_last_live(order: Seq<(OpId, bool)>, lo: int, hi: int)
    ensures
        match last_live(order, lo, hi) {
            Some(p) => lo <= p <= hi && order[p].1 && forall|j: int| p < j <= hi ==> !(#[trigger] order[j]).1,
            None => 0 <= lo && hi < order.len() ==> forall|j: int| lo <= j <= hi ==> !(#[trigger] order[j]).1,
        },
    decreases hi - lo + 1,
{
    if !(lo > hi || lo < 0 || hi >= order.len()) && !order[hi].1 {
        lemma_last_live(order, lo, hi - 1);
    }
}

/// A span between two known identities covers exactly the live stretch
/// between them: its window runs from the first live position between the
/// endpoints to the last, everything between the endpoints outside that
/// window is tombstoned, and it is empty only when every position between
/// them is. So when both endpoints are live, the window is exactly from the
/// earlier endpoint to the later one.
pub proof fn lemma_between_window(start: OpId, end: OpId, order: Seq<(OpId, bool)>, m: Map<(u128, u64), usize>)
    requires
        m.contains_key(okey(start)),
        m.contains_key(okey(end)),
        m[okey(start)] < order.len(),
        m[okey(end)] < order.len(),
    ensures
        ({
            let a = m[okey(start)] as int;
            let b = m[okey(end)] as int;
            let lo = if a <= b { a } else { b };
            let hi = if a <= b { b } else { a };
            &&& match span_window(AxisSpan::Between(start, end), order, m) {
                Some((low, high)) => {
                    &&& lo <= low <= high <= hi
                    &&& order[low].1
                    &&& order[high].1
                    &&& forall|j: int| lo <= j < low ==> !(#[trigger] order[j]).1
                    &&& forall|j: int| high < j <= hi ==> !(#[trigger] order[j]).1
                },
                None => forall|j: int| lo <= j <= hi ==> !(#[trigger] order[j]).1,
            }
            &&& order[lo].1 && order[hi].1 ==> span_window(AxisSpan::Between(start, end), order, m)
                == Some((lo, hi))
        }),
{
    let a = m[okey(start)] as int;
    let b = m[okey(end)] as int;
    let lo = if a <= b { a } else { b };
    let hi = if a <= b { b } else { a };
    lemma_first_live(order, lo, hi);
    if let Some(low) = first_live(order, lo, hi) {
        lemma_last_live(order, low, hi);
        if let Some(high) = last_live(order, low, hi) {
            assert forall|j: int| high < j <= hi implies !(#[trigger] order[j]).1 by {}
        } else {
            assert(order[low].1);
        }
    }
}

/// One axis of a target resolved against an axis order.
fn resolve_span(span: &AxisSpan, order: &[(OpId, bool)], index: &BTreeMap<(u128, u64), usize>) -> (r: Option<(usize, usize)>)
    requires
        indexes(index@, order@),
    ensures
        match r {
            Some((a, b)) => span_window(*span, order@, index@) == Some((a as int, b as int)),
            None => span_window(*span, order@, index@) is None,
        },
{
    match span {
        AxisSpan::All => {
            if order.len() == 0 {
                return Some((usize::MAX, 0));
            }
            Some((0, order.len() - 1))
        },
        AxisSpan::Between(start, end) => {
            let a = match index.get(&(start.actor.0, start.counter)) {
                Some(a) => *a,
                None => return None,
            };
            let b = match index.get(&(end.actor.0, end.counter)) {
                Some(b) => *b,
                None => return None,
            };
            let (lo, hi) = if a <= b {
                (a, b)
            } else {
                (b, a)
            };
            proof {
                lemma_first_live(order@, lo as int, hi as int);
            }
            let mut low = lo;
            while low <= hi && !order[low].1
                invariant
                    lo <= low,
                    hi < order@.len(),
                    first_live(order@, lo as int, hi as int) == first_live(order@, low as int, hi as int),
                decreases hi + 1 - low,
            {
                low = low + 1;
            }
            if low > hi {
                return None;
            }
            proof {
                lemma_last_live(order@, low as int, hi as int);
            }
            let mut high = hi;
            while high > low && !order[high].1
                invariant
                    low <= high <= hi < order@.len(),
                    order@[low as int].1,
                    last_live(order@, low as int, hi as int) == last_live(order@, low as int, high as int),
                decreases high - low,
            {
                high = high - 1;
            }
            if !order[high].1 {
                return None;
            }
            Some((low, high))
        },
    }
}

/// Where a cell sits in the two orders, and whether a rule covers it.
pub struct StyleResolver {
    rows: Vec<(OpId, bool)>,
    cols: Vec<(OpId, bool)>,
    row_index: BTreeMap<(u128, u64), usize>,
    col_index: BTreeMap<(u128, u64), usize>,
    /// Per rule, in registry order, the window it covers.
    windows: Vec<Option<Window>>,
}

/// A cell's resolved formatting: one winner per facet slot, or the default.
#[derive(Clone, Copy, PartialEq, Eq, Structural, Debug)]
pub struct ResolvedStyle {
    pub number_format: Option<FacetId>,
    pub font: Option<FacetId>,
    pub fill: Option<FacetId>,
    pub align: Option<FacetId>,
}

impl ResolvedStyle {
    /// Whether no facet is set.
    pub fn is_default(&self) -> (r: bool)
        ensures
            r == (self.number_format is None && self.font is None && self.fill is None && self.align is None),
    {
        self.number_format.is_none() && self.font.is_none() && self.fill.is_none() && self.align.is_none()
    }
}

/// What a winning rule gives its slot.
pub open spec fn value_facet(v: RuleValue) -> Option<FacetId> {
    match v {
        RuleValue::SetTo(id) => Some(id),
        RuleValue::Clear => None,
    }
}

impl StyleResolver {
    pub closed spec fn rows_view(&self) -> Seq<(OpId, bool)> {
        self.rows@
    }

    pub closed spec fn cols_view(&self) -> Seq<(OpId, bool)> {
        self.cols@
    }

    pub closed spec fn row_map(&self) -> Map<(u128, u64), usize> {
        self.row_index@
    }

    pub closed spec fn col_map(&self) -> Map<(u128, u64), usize> {
        self.col_index@
    }

    /// The window each rule covers, by rule position.
    pub closed spec fn windows_view(&self) -> Seq<Option<(int, int, int, int)>> {
        self.windows@.map_values(|w: Option<Window>| window_tuple(w))
    }

    pub open spec fn wf(&self) -> bool {
        &&& indexes(self.row_map(), self.rows_view())
        &&& indexes(self.col_map(), self.cols_view())
    }

    /// The positions of a cell in the two orders.
    pub open spec fn position(&self, row: RowId, col: ColId) -> Option<(int, int)> {
        if self.row_map().contains_key(okey(row.0)) && self.col_map().contains_key(okey(col.0)) {
            Some((self.row_map()[okey(row.0)] as int, self.col_map()[okey(col.0)] as int))
        } else {
            None
        }
    }

    /// Whether rule `i`'s window holds the positions `at`.
    pub open spec fn covers_spec(&self, i: int, at: (int, int)) -> bool {
        &&& 0 <= i < self.windows_view().len()
        &&& self.windows_view()[i] matches Some(w)
        &&& w.0 <= at.0 <= w.1
        &&& w.2 <= at.1 <= w.3
    }

    /// The greatest rule position below `n` for `slot` whose window holds
    /// `at`.
    pub open spec fn top_cover(&self, rules: Seq<Rule>, at: (int, int), slot: u8, n: int) -> Option<int>
        decreases n,
    {
        if n <= 0 {
            None
        } else if rules[n - 1].slot == slot && self.covers_spec(n - 1, at) {
            Some(n - 1)
        } else {
            self.top_cover(rules, at, slot, n - 1)
        }
    }

    /// The winning value of a slot at a cell.
    pub open spec fn facet_spec(&self, rules: Seq<Rule>, row: RowId, col: ColId, slot: u8) -> Option<FacetId> {
        match self.position(row, col) {
            Some(at) => match self.top_cover(rules, at, slot, rules.len() as int) {
                Some(i) => value_facet(rules[i].value),
                None => None,
            },
            None => None,
        }
    }

    /// Resolves every rule of `registry` once against the two orders.
    pub fn build(registry: &StyleRegistry, rows: &[(OpId, bool)], cols: &[(OpId, bool)]) -> (r: StyleResolver)
        ensures
            r.wf(),
            r.rows_view() == rows@,
            r.cols_view() == cols@,
            r.windows_view().len() == registry.rules_view().len(),
            forall|i: int|
                0 <= i < registry.rules_view().len() ==> #[trigger] r.windows_view()[i] == target_window(
                    registry.rules_view()[i].target,
                    rows@,
                    r.row_map(),
                    cols@,
                    r.col_map(),
                ),
    {
        let row_index = index_of(rows);
        let col_index = index_of(cols);
        let rules = registry.rules();
        let mut windows: Vec<Option<Window>> = Vec::new();
        let mut i: usize = 0;
        while i < rules.len()
            invariant
                i <= rules@.len(),
                rules@ == registry.rules_view(),
                indexes(row_index@, rows@),
                indexes(col_index@, cols@),
                windows@.len() == i,
                forall|j: int|
                    0 <= j < i ==> window_tuple(#[trigger] windows@[j]) == target_window(rules@[j].target, rows@, row_index@, cols@, col_index@),
            decreases rules@.len() - i,
        {
            let t = rules[i].target;
            let w = match resolve_span(&t.rows, rows, &row_index) {
                Some((row_lo, row_hi)) => match resolve_span(&t.cols, cols, &col_index) {
                    Some((col_lo, col_hi)) => Some(Window { row_lo, row_hi, col_lo, col_hi }),
                    None => None,
                },
                None => None,
            };
            windows.push(w);
            i = i + 1;
        }
        let r = StyleResolver { rows: vstd::slice::slice_to_vec(rows), cols: vstd::slice::slice_to_vec(cols), row_index, col_index, windows };
        proof {
            assert forall|i: int| 0 <= i < registry.rules_view().len() implies #[trigger] r.windows_view()[i] == target_window(
                registry.rules_view()[i].target,
                rows@,
                r.row_map(),
                cols@,
                r.col_map(),
            ) by {
                assert(r.windows@[i] == windows@[i]);
            }
        }
        r
    }

    /// Where a cell sits in the two orders.
    pub fn locate(&self, cell: (RowId, ColId)) -> (r: Option<(usize, usize)>)
        ensures
            match r {
                Some(at) => self.position(cell.0, cell.1) == Some((at.0 as int, at.1 as int)),
                None => self.position(cell.0, cell.1) is None,
            },
    {
        let r = match self.row_index.get(&(cell.0.0.actor.0, cell.0.0.counter)) {
            Some(r) => *r,
            None => return None,
        };
        let c = match self.col_index.get(&(cell.1.0.actor.0, cell.1.0.counter)) {
            Some(c) => *c,
            None => return None,
        };
        Some((r, c))
    }

    /// Whether rule `rule_index` covers the positions `at`.
    pub fn covers_at(&self, rule_index: usize, at: (usize, usize)) -> (r: bool)
        ensures
            r == self.covers_spec(rule_index as int, (at.0 as int, at.1 as int)),
    {
        if rule_index >= self.windows.len() {
            return false;
        }
        match self.windows[rule_index] {
            Some(w) => w.row_lo <= at.0 && at.0 <= w.row_hi && w.col_lo <= at.1 && at.1 <= w.col_hi,
            None => false,
        }
    }

    /// Whether rule `rule_index` covers a cell.
    pub fn covers(&self, rule_index: usize, cell: (RowId, ColId)) -> (r: bool)
        ensures
            r == match self.position(cell.0, cell.1) {
                Some(at) => self.covers_spec(rule_index as int, at),
                None => false,
            },
    {
        match self.locate(cell) {
            Some(at) => self.covers_at(rule_index, at),
            None => false,
        }
    }

    /// The winning value of one facet slot at one cell, or `None` for the
    /// workbook default: the newest covering rule for the slot decides.
    pub fn facet(&self, registry: &StyleRegistry, row: RowId, col: ColId, slot: u8) -> (r: Option<FacetId>)
        ensures
            r == self.facet_spec(registry.rules_view(), row, col, slot),
    {
        let at = match self.locate((row, col)) {
            Some(at) => at,
            None => return None,
        };
        let rules = registry.rules();
        let mut i: usize = rules.len();
        while i > 0
            invariant
                i <= rules@.len(),
                rules@ == registry.rules_view(),
                self.position(row, col) == Some((at.0 as int, at.1 as int)),
                self.top_cover(rules@, (at.0 as int, at.1 as int), slot, rules@.len() as int)
                    == self.top_cover(rules@, (at.0 as int, at.1 as int), slot, i as int),
            decreases i,
        {
            let rule = rules[i - 1];
            if rule.slot == slot && self.covers_at(i - 1, at) {
                return match rule.value {
                    RuleValue::SetTo(id) => Some(id),
                    RuleValue::Clear => None,
                };
            }
            i = i - 1;
        }
        None
    }

    /// Every facet at one cell, resolved in a single newest-first scan.
    pub fn style(&self, registry: &StyleRegistry, row: RowId, col: ColId) -> (r: ResolvedStyle)
        ensures
            r.number_format == self.facet_spec(registry.rules_view(), row, col, 1),
            r.font == self.facet_spec(registry.rules_view(), row, col, 2),
            r.fill == self.facet_spec(registry.rules_view(), row, col, 3),
            r.align == self.facet_spec(registry.rules_view(), row, col, 4),
    {
        let mut out = ResolvedStyle { number_format: None, font: None, fill: None, align: None };
        if registry.is_empty() {
            return out;
        }
        let at = match self.locate((row, col)) {
            Some(at) => at,
            None => return out,
        };
        let ghost pos = (at.0 as int, at.1 as int);
        let rules = registry.rules();
        let ghost n = rules@.len() as int;
        let mut decided: [bool; 4] = [false; 4];
        let mut i: usize = rules.len();
        while i > 0
            invariant
                i <= rules@.len(),
                n == rules@.len(),
                rules@ == registry.rules_view(),
                self.position(row, col) == Some(pos),
                pos == (at.0 as int, at.1 as int),
                decided@.len() == 4,
                forall|s: int| 0 <= s < 4 ==> (#[trigger] decided@[s]) ==> self.top_cover(rules@, pos, (s + 1) as u8, n) is Some,
                forall|s: int| 0 <= s < 4 ==> !(#[trigger] decided@[s]) ==> self.top_cover(rules@, pos, (s + 1) as u8, n)
                    == self.top_cover(rules@, pos, (s + 1) as u8, i as int),
                decided@[0] ==> out.number_format == value_facet(rules@[self.top_cover(rules@, pos, 1, n)->0].value),
                decided@[1] ==> out.font == value_facet(rules@[self.top_cover(rules@, pos, 2, n)->0].value),
                decided@[2] ==> out.fill == value_facet(rules@[self.top_cover(rules@, pos, 3, n)->0].value),
                decided@[3] ==> out.align == value_facet(rules@[self.top_cover(rules@, pos, 4, n)->0].value),
                !decided@[0] ==> out.number_format is None,
                !decided@[1] ==> out.font is None,
                !decided@[2] ==> out.fill is None,
                !decided@[3] ==> out.align is None,
            ensures
                i > 0 ==> (decided@[0] && decided@[1] && decided@[2] && decided@[3]),
            decreases i,
        {
            let rule = rules[i - 1];
            if rule.slot >= 1 && rule.slot <= 4 {
                let s = (rule.slot - 1) as usize;
                if !decided[s] && self.covers_at(i - 1, at) {
                    decided[s] = true;
                    let value = match rule.value {
                        RuleValue::SetTo(id) => Some(id),
                        RuleValue::Clear => None,
                    };
                    if s == 0 {
                        out.number_format = value;
                    } else if s == 1 {
                        out.font = value;
                    } else if s == 2 {
                        out.fill = value;
                    } else {
                        out.align = value;
                    }
                    if decided[0] && decided[1] && decided[2] && decided[3] {
                        break;
                    }
                }
            }
            i = i - 1;
        }
        proof {
            assert forall|s: int| 0 <= s < 4 && !(#[trigger] decided@[s]) implies self.top_cover(rules@, pos, (s + 1) as u8, n) is None by {
                if i > 0 {
                    assert(decided@[0] && decided@[1] && decided@[2] && decided@[3]);
                }
            }
        }
        out
    }
}

/// An identity index for an axis order: each identity to its last position.
fn index_of(order: &[(OpId, bool)]) -> (r: BTreeMap<(u128, u64), usize>)
    ensures
        indexes(r@, order@),
{
    let mut m: BTreeMap<(u128, u64), usize> = BTreeMap::new();
    let mut i: usize = 0;
    while i < order.len()
        invariant
            i <= order@.len(),
            indexes(m@, order@.subrange(0, i as int)),
        decreases order@.len() - i,
    {
        let id = order[i].0;
        let ghost pre = order@.subrange(0, i as int);
        let ghost post = order@.subrange(0, i + 1);
        m.insert((id.actor.0, id.counter), i);
        proof {
            assert forall|k: (u128, u64)| #[trigger] m@.contains_key(k) <==> exists|j: int| 0 <= j < post.len() && okey(post[j].0) == k by {
                if m@.contains_key(k) && k != okey(id) {
                    let j = choose|j: int| 0 <= j < pre.len() && okey(pre[j].0) == k;
                    assert(post[j] == pre[j]);
                }
                if k == okey(id) {
                    assert(post[i as int].0 == id);
                }
                if exists|j: int| 0 <= j < post.len() && okey(post[j].0) == k {
                    let j = choose|j: int| 0 <= j < post.len() && okey(post[j].0) == k;
                    if j < i {
                        assert(pre[j] == post[j]);
                    }
                }
            }
            assert forall|k: (u128, u64)| #[trigger] m@.contains_key(k) implies m@[k] < post.len() && okey(post[m@[k] as int].0) == k
                && forall|j: int| m@[k] < j < post.len() ==> okey(#[trigger] post[j].0) != k by {
                if k != okey(id) {
                    assert(pre[m@[k] as int] == post[m@[k] as int]);
                    assert forall|j: int| m@[k] < j < post.len() implies okey(#[trigger] post[j].0) != k by {
                        if j < i {
                            assert(pre[j] == post[j]);
                        }
                    }
                }
            }
        }
        i = i + 1;
    }
    assert(order@.subrange(0, order@.len() as int) =~= order@);
    m
}


/// A span clipped to an overlap: `All` only when both sides were `All`,
/// otherwise bounded by the identities at the overlap's ends.
pub open spec fn clip_spec(a: AxisSpan, b: AxisSpan, order: Seq<(OpId, bool)>, lo: int, hi: int) -> AxisSpan {
    if a is All && b is All {
        AxisSpan::All
    } else {
        AxisSpan::Between(order[lo].0, order[hi].0)
    }
}

fn clip_span(a: &AxisSpan, b: &AxisSpan, order: &[(OpId, bool)], lo: usize, hi: usize) -> (r: AxisSpan)
    requires
        (*a is All && *b is All) || (lo < order@.len() && hi < order@.len()),
    ensures
        r == clip_spec(*a, *b, order@, lo as int, hi as int),
{
    if matches!(a, AxisSpan::All) && matches!(b, AxisSpan::All) {
        return AxisSpan::All;
    }
    AxisSpan::Between(order[lo].0, order[hi].0)
}

proof fn lemma_span_window_bounds(span: AxisSpan, order: Seq<(OpId, bool)>, m: Map<(u128, u64), usize>)
    requires
        indexes(m, order),
    ensures
        span_window(span, order, m) matches Some(w) ==> (w.0 <= w.1 ==> 0 <= w.0 && w.1 < order.len()),
{
    if let AxisSpan::Between(start, end) = span {
        if m.contains_key(okey(start)) && m.contains_key(okey(end)) {
            let a = m[okey(start)] as int;
            let b = m[okey(end)] as int;
            let lo = if a <= b { a } else { b };
            let hi = if a <= b { b } else { a };
            lemma_first_live(order, lo, hi);
            if let Some(low) = first_live(order, lo, hi) {
                lemma_last_live(order, low, hi);
            }
        }
    }
}

impl StyleResolver {
    /// The window `target` covers, when it covers anything.
    pub open spec fn window_of_spec(&self, t: StyleTarget) -> Option<(int, int, int, int)> {
        match target_window(t, self.rows_view(), self.row_map(), self.cols_view(), self.col_map()) {
            Some(w) => if w.0 <= w.1 && w.2 <= w.3 {
                Some(w)
            } else {
                None
            },
            None => None,
        }
    }

    fn window_of(&self, target: &StyleTarget) -> (r: Option<Window>)
        requires
            self.wf(),
        ensures
            window_tuple(r) == self.window_of_spec(*target),
            r matches Some(w) ==> w.row_lo <= w.row_hi < self.rows_view().len() && w.col_lo <= w.col_hi
                < self.cols_view().len(),
    {
        let (row_lo, row_hi) = match resolve_span(&target.rows, self.rows.as_slice(), &self.row_index) {
            Some(p) => p,
            None => return None,
        };
        let (col_lo, col_hi) = match resolve_span(&target.cols, self.cols.as_slice(), &self.col_index) {
            Some(p) => p,
            None => return None,
        };
        if row_lo > row_hi || col_lo > col_hi {
            return None;
        }
        proof {
            lemma_span_window_bounds(target.rows, self.rows@, self.row_index@);
            lemma_span_window_bounds(target.cols, self.cols@, self.col_index@);
        }
        Some(Window { row_lo, row_hi, col_lo, col_hi })
    }

    /// What rule `i` contributes to `overlapping`: the rule clipped to the
    /// overlap of its window with `mine`, when the slot matches and the
    /// overlap is not empty.
    pub open spec fn overlap_entry(
        &self,
        rules: Seq<Rule>,
        target: StyleTarget,
        mine: (int, int, int, int),
        slot: u8,
        i: int,
    ) -> Option<(StyleTarget, Option<FacetId>, (u64, OpId))> {
        if rules[i].slot != slot || i >= self.windows_view().len() {
            None
        } else {
            match self.windows_view()[i] {
                Some(w) => {
                    let row_lo = if w.0 >= mine.0 { w.0 } else { mine.0 };
                    let row_hi = if w.1 <= mine.1 { w.1 } else { mine.1 };
                    let col_lo = if w.2 >= mine.2 { w.2 } else { mine.2 };
                    let col_hi = if w.3 <= mine.3 { w.3 } else { mine.3 };
                    if row_lo > row_hi || col_lo > col_hi {
                        None
                    } else {
                        Some(
                            (
                                StyleTarget {
                                    rows: clip_spec(rules[i].target.rows, target.rows, self.rows_view(), row_lo, row_hi),
                                    cols: clip_spec(rules[i].target.cols, target.cols, self.cols_view(), col_lo, col_hi),
                                },
                                value_facet(rules[i].value),
                                rules[i].stamp,
                            ),
                        )
                    }
                },
                None => None,
            }
        }
    }

    /// The entries of the first `n` rules, in rule order.
    pub open spec fn overlaps_upto(
        &self,
        rules: Seq<Rule>,
        target: StyleTarget,
        mine: (int, int, int, int),
        slot: u8,
        n: int,
    ) -> Seq<(StyleTarget, Option<FacetId>, (u64, OpId))>
        decreases n,
    {
        if n <= 0 {
            Seq::empty()
        } else {
            let prev = self.overlaps_upto(rules, target, mine, slot, n - 1);
            match self.overlap_entry(rules, target, mine, slot, n - 1) {
                Some(e) => prev.push(e),
                None => prev,
            }
        }
    }

    /// The rules for one slot that overlap `target`, ascending by stamp, each
    /// clipped to the overlap. Replaying them over a cleared `target`
    /// reproduces the previous resolution.
    pub fn overlapping(&self, registry: &StyleRegistry, target: &StyleTarget, slot: u8) -> (r: Vec<
        (StyleTarget, Option<FacetId>, (u64, OpId)),
    >)
        requires
            self.wf(),
        ensures
            r@ == match self.window_of_spec(*target) {
                Some(mine) => self.overlaps_upto(
                    registry.rules_view(),
                    *target,
                    mine,
                    slot,
                    registry.rules_view().len() as int,
                ),
                None => Seq::empty(),
            },
    {
        let mine = match self.window_of(target) {
            Some(m) => m,
            None => return Vec::new(),
        };
        let ghost mt = (mine.row_lo as int, mine.row_hi as int, mine.col_lo as int, mine.col_hi as int);
        let rules = registry.rules();
        let mut out: Vec<(StyleTarget, Option<FacetId>, (u64, OpId))> = Vec::new();
        let mut index: usize = 0;
        while index < rules.len()
            invariant
                index <= rules@.len(),
                rules@ == registry.rules_view(),
                mine.row_lo <= mine.row_hi < self.rows_view().len(),
                mine.col_lo <= mine.col_hi < self.cols_view().len(),
                mt == (mine.row_lo as int, mine.row_hi as int, mine.col_lo as int, mine.col_hi as int),
                out@ == self.overlaps_upto(rules@, *target, mt, slot, index as int),
            decreases rules@.len() - index,
        {
            let rule = rules[index];
            if rule.slot == slot && index < self.windows.len() {
                match self.windows[index] {
                    Some(w) => {
                        let row_lo = if w.row_lo >= mine.row_lo { w.row_lo } else { mine.row_lo };
                        let row_hi = if w.row_hi <= mine.row_hi { w.row_hi } else { mine.row_hi };
                        let col_lo = if w.col_lo >= mine.col_lo { w.col_lo } else { mine.col_lo };
                        let col_hi = if w.col_hi <= mine.col_hi { w.col_hi } else { mine.col_hi };
                        if !(row_lo > row_hi || col_lo > col_hi) {
                            let clipped = StyleTarget {
                                rows: clip_span(&rule.target.rows, &target.rows, self.rows.as_slice(), row_lo, row_hi),
                                cols: clip_span(&rule.target.cols, &target.cols, self.cols.as_slice(), col_lo, col_hi),
                            };
                            let value = match rule.value {
                                RuleValue::SetTo(id) => Some(id),
                                RuleValue::Clear => None,
                            };
                            out.push((clipped, value, rule.stamp));
                        }
                    },
                    None => {},
                }
            }
            index = index + 1;
        }
        out
    }
}

impl StyleRegistry {
    /// The rules for `slot` that cover a cell, newest first, from rule
    /// position `n` down.
    pub open spec fn covering_desc(&self, at: &StyleResolver, cell: (RowId, ColId), slot: u8, n: int) -> Seq<Rule>
        decreases n,
    {
        if n <= 0 {
            Seq::empty()
        } else {
            let rest = self.covering_desc(at, cell, slot, n - 1);
            let r = self.rules_view()[n - 1];
            let covered = match at.position(cell.0, cell.1) {
                Some(p) => at.covers_spec(n - 1, p),
                None => false,
            };
            if r.slot == slot && covered {
                seq![r] + rest
            } else {
                rest
            }
        }
    }

    /// The rules a cell's facet slot lost to, newest first; the winner is
    /// not among them.
    pub fn losers<'a>(&'a self, at: &'a StyleResolver, cell: (RowId, ColId), slot: u8) -> (r: Vec<&'a Rule>)
        ensures
            r@.map_values(|x: &Rule| *x) == {
                let all = self.covering_desc(at, cell, slot, self.rules_view().len() as int);
                if all.len() == 0 {
                    all
                } else {
                    all.drop_first()
                }
            },
    {
        let mut out: Vec<&'a Rule> = Vec::new();
        let mut seen_winner = false;
        let n = self.rules.len();
        let mut index: usize = n;
        let ghost all = self.covering_desc(at, cell, slot, n as int);
        while index > 0
            invariant
                index <= n,
                n == self.rules_view().len(),
                all == self.covering_desc(at, cell, slot, n as int),
                seen_winner <==> all.len() > self.covering_desc(at, cell, slot, index as int).len(),
                seen_winner ==> out@.map_values(|x: &Rule| *x) + self.covering_desc(at, cell, slot, index as int) == all.drop_first(),
                !seen_winner ==> out@.len() == 0 && all == self.covering_desc(at, cell, slot, index as int),
            decreases index,
        {
            let rule = &self.rules[index - 1];
            let ghost rest = self.covering_desc(at, cell, slot, index - 1);
            if rule.slot == slot && at.covers(index - 1, cell) {
                if seen_winner {
                    let ghost before = out@.map_values(|x: &Rule| *x);
                    out.push(rule);
                    proof {
                        assert(self.covering_desc(at, cell, slot, index as int) == seq![*rule] + rest);
                        assert(out@.map_values(|x: &Rule| *x) =~= before.push(*rule));
                        assert(out@.map_values(|x: &Rule| *x) + rest =~= before + (seq![*rule] + rest));
                    }
                } else {
                    proof {
                        assert(self.covering_desc(at, cell, slot, index as int) == seq![*rule] + rest);
                        assert(all.drop_first() =~= rest);
                        assert(out@.map_values(|x: &Rule| *x) + rest =~= rest);
                    }
                }
                seen_winner = true;
            }
            index = index - 1;
        }
        out
    }
}

} // verus!
