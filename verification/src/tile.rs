//! Tile addressing, slot interning and presence bitmaps: the layout pieces
//! of the cell store.
//!
//! A tile is 256 rows by 64 columns of identity space. Each row or column
//! identity is interned to a dense slot the first time it is seen; a tile is
//! addressed by its slots' bands, and a cell inside it by a row-major index.

use vstd::prelude::*;
use std::collections::{BTreeMap, BTreeSet};
use std::vec::Vec;
use crate::types::{ActorId, ColId, OpId, RowId};
use crate::image::{ImageError, Reader, Writer, le_value, le_bytes, get_le};

verus! {

broadcast use vstd::std_specs::btree::group_btree_axioms, vstd::laws_cmp::group_laws_cmp,
    vstd::array::group_array_axioms;

/// Rows per tile.
pub const TILE_ROWS: u32 = 256;
/// Columns per tile.
pub const TILE_COLS: u32 = 64;
/// Cells per tile.
pub const TILE_CELLS: usize = 16384;

/// Address of a tile in identity space: `(row_slot / 256, col_slot / 64)`.
#[derive(Clone, Copy, PartialEq, Eq, Structural, PartialOrd, Ord, Debug)]
pub struct TileKey {
    pub row_band: u32,
    pub col_band: u32,
}


/// An identity as the integers a slot map is keyed by.
pub open spec fn id_key(id: OpId) -> (u128, u64) {
    (id.actor.0, id.counter)
}

/// Interns axis identities to stable, densely packed slots, in the order
/// they are first seen.
#[derive(Clone)]
pub struct SlotMap {
    to_slot: BTreeMap<(u128, u64), u32>,
    to_id: Vec<OpId>,
}

impl SlotMap {
    /// The identities in slot order: slot `s` holds `ids()[s]`.
    pub closed spec fn ids_view(&self) -> Seq<OpId> {
        self.to_id@
    }

    /// The map and the list are inverse to each other, and every slot fits
    /// a `u32`.
    pub closed spec fn wf(&self) -> bool {
        &&& self.to_id@.len() <= u32::MAX
        &&& forall|i: int|
            0 <= i < self.to_id@.len() ==> #[trigger] self.to_slot@.contains_key(id_key(self.to_id@[i]))
                && self.to_slot@[id_key(self.to_id@[i])] == i
        &&& forall|k: (u128, u64)|
            #[trigger] self.to_slot@.contains_key(k) ==> self.to_slot@[k] < self.to_id@.len()
                && id_key(self.to_id@[self.to_slot@[k] as int]) == k
    }

    /// Every slot fits a `u32`.
    pub proof fn lemma_len_bound(&self)
        requires
            self.wf(),
        ensures
            self.ids_view().len() <= u32::MAX,
    {
    }

    /// No identity interned yet.
    pub fn new() -> (r: SlotMap)
        ensures
            r.wf(),
            r.ids_view() == Seq::<OpId>::empty(),
    {
        SlotMap { to_slot: BTreeMap::new(), to_id: Vec::new() }
    }

    /// Returns the identity's slot, giving it the next free one if it is
    /// unseen. Interning again returns the same slot, and no slot already
    /// given ever changes.
    pub fn intern(&mut self, id: OpId) -> (r: u32)
        requires
            old(self).wf(),
            old(self).ids_view().len() < u32::MAX,
        ensures
            final(self).wf(),
            old(self).ids_view().contains(id) ==> final(self).ids_view() == old(self).ids_view(),
            !old(self).ids_view().contains(id) ==> final(self).ids_view() == old(self).ids_view().push(id)
                && r == old(self).ids_view().len(),
            r < final(self).ids_view().len(),
            final(self).ids_view()[r as int] == id,
    {
        let key = (id.actor.0, id.counter);
        match self.to_slot.get(&key) {
            Some(s) => {
                let slot = *s;
                proof {
                    assert(id_key(self.to_id@[slot as int]) == id_key(id));
                    assert(self.to_id@[slot as int] == id);
                }
                return slot;
            },
            None => {},
        }
        proof {
            assert forall|i: int| 0 <= i < self.to_id@.len() implies self.to_id@[i] != id by {
                assert(self.to_slot@.contains_key(id_key(self.to_id@[i])));
            }
        }
        let slot = self.to_id.len() as u32;
        self.to_slot.insert(key, slot);
        self.to_id.push(id);
        proof {
            assert forall|i: int| 0 <= i < self.to_id@.len() implies #[trigger] self.to_slot@.contains_key(
                id_key(self.to_id@[i]),
            ) && self.to_slot@[id_key(self.to_id@[i])] == i by {
                if i < slot {
                    assert(old(self).to_slot@.contains_key(id_key(old(self).to_id@[i])));
                    assert(id_key(old(self).to_id@[i]) != key);
                }
            }
        }
        slot
    }

    /// The identity's slot, if it has one.
    pub fn slot_of(&self, id: &OpId) -> (r: Option<u32>)
        requires
            self.wf(),
        ensures
            r is Some <==> self.ids_view().contains(*id),
            r matches Some(s) ==> s < self.ids_view().len() && self.ids_view()[s as int] == *id,
    {
        let key = (id.actor.0, id.counter);
        match self.to_slot.get(&key) {
            Some(s) => {
                proof {
                    assert(id_key(self.to_id@[*s as int]) == id_key(*id));
                }
                Some(*s)
            },
            None => {
                proof {
                    assert forall|i: int| 0 <= i < self.to_id@.len() implies self.to_id@[i] != *id by {
                        assert(self.to_slot@.contains_key(id_key(self.to_id@[i])));
                    }
                }
                None
            },
        }
    }

    /// The identity in a slot.
    pub fn id_of(&self, slot: u32) -> (r: OpId)
        requires
            slot < self.ids_view().len(),
        ensures
            r == self.ids_view()[slot as int],
    {
        self.to_id[slot as usize]
    }

    /// The identities in slot order.
    pub fn ids(&self) -> (r: &[OpId])
        ensures
            r@ == self.ids_view(),
    {
        self.to_id.as_slice()
    }
}

impl TileKey {
    /// The tile holding the cell at these slots.
    pub fn of(row_slot: u32, col_slot: u32) -> (r: TileKey)
        ensures
            r.row_band == row_slot / TILE_ROWS,
            r.col_band == col_slot / TILE_COLS,
    {
        TileKey { row_band: row_slot / TILE_ROWS, col_band: col_slot / TILE_COLS }
    }
}

/// Index of a cell inside its tile, row-major.
pub fn cell_index(row_slot: u32, col_slot: u32) -> (r: u16)
    ensures
        r == (row_slot % TILE_ROWS) * TILE_COLS + col_slot % TILE_COLS,
        r < TILE_CELLS,
{
    ((row_slot % TILE_ROWS) * TILE_COLS + (col_slot % TILE_COLS)) as u16
}

/// Which packed layout a tile uses.
#[derive(Clone, Copy, PartialEq, Eq, Structural, Debug)]
pub enum Kind {
    Numbers,
    Decimals,
    Tagged,
}

/// The byte a kind is written as.
pub open spec fn kind_tag(k: Kind) -> u8 {
    match k {
        Kind::Numbers => 0,
        Kind::Decimals => 1,
        Kind::Tagged => 2,
    }
}

impl Kind {
    pub fn tag(self) -> (r: u8)
        ensures
            r == kind_tag(self),
    {
        match self {
            Kind::Numbers => 0,
            Kind::Decimals => 1,
            Kind::Tagged => 2,
        }
    }

    /// The kind a tag byte names; any byte but the three is refused.
    pub fn of_tag(tag: u8) -> (r: Result<Kind, ImageError>)
        ensures
            r matches Ok(k) ==> kind_tag(k) == tag,
            r is Err <==> tag > 2,
            r matches Err(e) ==> e == ImageError::Malformed("cell pack kind"),
    {
        match tag {
            0 => Ok(Kind::Numbers),
            1 => Ok(Kind::Decimals),
            2 => Ok(Kind::Tagged),
            _ => Err(ImageError::Malformed("cell pack kind")),
        }
    }
}

/// Where tile metadata sits, for promotion accounting.
#[derive(Clone, Copy, Debug, PartialEq, Eq, Structural)]
pub struct PromotionStats {
    pub tiles: usize,
    pub promoted_tiles: usize,
    pub cells: usize,
    pub promoted_cells: usize,
}

impl Default for PromotionStats {
    fn default() -> (r: PromotionStats)
        ensures
            r == (PromotionStats { tiles: 0, promoted_tiles: 0, cells: 0, promoted_cells: 0 }),
    {
        PromotionStats { tiles: 0, promoted_tiles: 0, cells: 0, promoted_cells: 0 }
    }
}

/// Reads a writer's actor as 16 little-endian bytes, one at a time.
pub fn read_actor(r: &mut Reader) -> (res: Result<ActorId, ImageError>)
    requires
        old(r).pos() <= old(r).bytes().len(),
    ensures
        final(r).bytes() == old(r).bytes(),
        final(r).pos() <= final(r).bytes().len(),
        res is Ok <==> old(r).has(16),
        res matches Ok(a) ==> a.0 == le_value(old(r).ahead(16)) && final(r).pos() == old(r).pos() + 16,
        res matches Err(e) ==> e == ImageError::Truncated,
{
    match r.take(16) {
        Ok(b) => Ok(ActorId(get_le(b))),
        Err(e) => Err(e),
    }
}


// ------------------------------------------------------------------ presence

/// Whether bit `b` of `w` is set.
pub open spec fn bit_of(w: u64, b: u64) -> bool {
    (w >> b) & 1u64 == 1u64
}

/// Whether cell `i` is present in a bitmap of words.
pub open spec fn present(words: Seq<u64>, i: int) -> bool {
    bit_of(words[i / 64], (i % 64) as u64)
}

/// The set bits of `w` below bit `b`.
pub open spec fn bits_below(w: u64, b: nat) -> nat
    decreases b,
{
    if b == 0 {
        0
    } else {
        bits_below(w, (b - 1) as nat) + if bit_of(w, (b - 1) as u64) {
            1nat
        } else {
            0nat
        }
    }
}

/// The present cells strictly before cell `i`.
pub open spec fn count_below(words: Seq<u64>, i: nat) -> nat
    decreases i,
{
    if i == 0 {
        0
    } else {
        count_below(words, (i - 1) as nat) + if present(words, i - 1) {
            1nat
        } else {
            0nat
        }
    }
}

/// The set bits of the first `k` words.
pub open spec fn words_sum(words: Seq<u64>, k: nat) -> nat
    decreases k,
{
    if k == 0 {
        0
    } else {
        words_sum(words, (k - 1) as nat) + bits_below(words[k - 1], 64)
    }
}

proof fn lemma_split_index(k: int, b: int)
    requires
        0 <= k,
        0 <= b < 64,
    ensures
        (64 * k + b) / 64 == k,
        (64 * k + b) % 64 == b,
{
    vstd::arithmetic::div_mod::lemma_fundamental_div_mod_converse(64 * k + b, 64, k, b);
}

/// Counting cell by cell and counting word by word agree.
pub proof fn lemma_count_by_words(words: Seq<u64>, k: nat, b: nat)
    requires
        b <= 64,
        k < words.len(),
    ensures
        count_below(words, 64 * k + b) == words_sum(words, k) + bits_below(words[k as int], b),
    decreases k, b,
{
    if b == 0 {
        if k > 0 {
            lemma_count_by_words(words, (k - 1) as nat, 64);
            assert(64 * k + 0 == 64 * (k - 1) + 64);
        }
    } else {
        lemma_count_by_words(words, k, (b - 1) as nat);
        lemma_split_index(k as int, b - 1);
        assert(64 * k + b - 1 == 64 * k + (b - 1));
    }
}

pub proof fn lemma_count_below_bound(words: Seq<u64>, i: nat)
    ensures
        count_below(words, i) <= i,
    decreases i,
{
    if i > 0 {
        lemma_count_below_bound(words, (i - 1) as nat);
    }
}

pub proof fn lemma_bits_below_bound(w: u64, b: nat)
    ensures
        bits_below(w, b) <= b,
    decreases b,
{
    if b > 0 {
        lemma_bits_below_bound(w, (b - 1) as nat);
    }
}

/// Adding one cell to a bitmap that lacked it adds one to every count that
/// reaches past it.
pub proof fn lemma_count_after_set(old_words: Seq<u64>, new_words: Seq<u64>, idx: int, i: nat)
    requires
        forall|j: int| #![trigger present(new_words, j)] 0 <= j < 16384 ==> present(new_words, j) == (present(old_words, j) || j == idx),
        0 <= idx < 16384,
        !present(old_words, idx),
        i <= 16384,
    ensures
        count_below(new_words, i) == count_below(old_words, i) + if idx < i {
            1nat
        } else {
            0nat
        },
    decreases i,
{
    if i > 0 {
        lemma_count_after_set(old_words, new_words, idx, (i - 1) as nat);
        assert(present(new_words, i - 1) == (present(old_words, i - 1) || i - 1 == idx));
    }
}

/// The highest present cell, when there is one.
pub open spec fn is_max_present(words: Seq<u64>, m: int) -> bool {
    &&& 0 <= m < 16384
    &&& present(words, m)
    &&& forall|j: int| m < j < 16384 ==> !#[trigger] present(words, j)
}

/// The number of set bits of a word.
pub fn ones(w: u64) -> (r: u32)
    ensures
        r == bits_below(w, 64),
{
    let mut n: u32 = 0;
    let mut b: u64 = 0;
    while b < 64
        invariant
            b <= 64,
            n == bits_below(w, b as nat),
            n <= b,
        decreases 64 - b,
    {
        if (w >> b) & 1 == 1 {
            n = n + 1;
        }
        b = b + 1;
    }
    n
}

/// The number of set bits of a word below bit `limit`.
fn ones_below(w: u64, limit: u64) -> (r: u32)
    requires
        limit <= 64,
    ensures
        r == bits_below(w, limit as nat),
{
    let mut n: u32 = 0;
    let mut b: u64 = 0;
    while b < limit
        invariant
            b <= limit <= 64,
            n == bits_below(w, b as nat),
            n <= b,
        decreases limit - b,
    {
        if (w >> b) & 1 == 1 {
            n = n + 1;
        }
        b = b + 1;
    }
    n
}

/// A presence bitmap: one bit per cell of a tile, with its count and its
/// highest set index kept beside it.
#[derive(Clone)]
pub struct Presence {
    words: [u64; 256],
    count: u32,
    max_set: Option<u16>,
}

impl Presence {
    /// The bitmap's words.
    pub closed spec fn words_view(&self) -> Seq<u64> {
        self.words@
    }

    /// The number of present cells, as kept.
    pub closed spec fn count_view(&self) -> nat {
        self.count as nat
    }

    /// The highest present cell, as kept.
    pub closed spec fn max_view(&self) -> Option<u16> {
        self.max_set
    }

    /// Whether cell `i` is present.
    pub open spec fn has(&self, i: int) -> bool {
        present(self.words_view(), i)
    }

    /// The count and the highest index agree with the bitmap.
    pub open spec fn wf(&self) -> bool {
        &&& self.words_view().len() == 256
        &&& self.count_view() == count_below(self.words_view(), 16384)
        &&& match self.max_view() {
            Some(m) => is_max_present(self.words_view(), m as int),
            None => forall|j: int| 0 <= j < 16384 ==> !#[trigger] present(self.words_view(), j),
        }
    }

    /// How many cells are present.
    pub fn count(&self) -> (r: u32)
        ensures
            r == self.count_view(),
    {
        self.count
    }

    /// The highest present cell, if any.
    pub fn max_set(&self) -> (r: Option<u16>)
        ensures
            r == self.max_view(),
    {
        self.max_set
    }

    /// Word `k` of the bitmap.
    pub fn word(&self, k: usize) -> (r: u64)
        requires
            k < 256,
            self.words_view().len() == 256,
        ensures
            r == self.words_view()[k as int],
    {
        self.words[k]
    }

    /// No cell present.
    pub fn new() -> (r: Presence)
        ensures
            r.wf(),
            forall|j: int| 0 <= j < 16384 ==> !#[trigger] r.has(j),
    {
        let r = Presence { words: [0u64; 256], count: 0, max_set: None };
        proof {
            assert forall|j: int| 0 <= j < 16384 implies !#[trigger] present(r.words@, j) by {
                assert(r.words@[j / 64] == 0);
                let b = (j % 64) as u64;
                assert((0u64 >> b) & 1u64 == 0u64) by (bit_vector);
            }
            lemma_count_zero(r.words@, 16384);
        }
        r
    }

    /// Whether a cell is present.
    pub fn contains(&self, idx: u16) -> (r: bool)
        requires
            self.wf(),
            idx < 16384,
        ensures
            r == self.has(idx as int),
    {
        let w = self.words[idx as usize / 64];
        let b = (idx % 64) as u64;
        let r = w & (1u64 << b) != 0;
        assert(r == bit_of(w, b)) by (bit_vector)
            requires
                b < 64,
                r == (w & (1u64 << b) != 0),
        ;
        r
    }

    /// The number of present cells strictly before `idx`: the cell's
    /// position in a payload packed over present cells.
    pub fn rank(&self, idx: u16) -> (r: usize)
        requires
            self.wf(),
            idx < 16384,
        ensures
            r == count_below(self.words_view(), idx as nat),
    {
        let w = idx as usize / 64;
        let mut n: usize = 0;
        let mut k: usize = 0;
        while k < w
            invariant
                k <= w < 256,
                self.wf(),
                n == words_sum(self.words_view(), k as nat),
                n <= 64 * k,
            decreases w - k,
        {
            proof {
                lemma_bits_below_bound(self.words@[k as int], 64);
            }
            n = n + ones(self.words[k]) as usize;
            k = k + 1;
        }
        let low = ones_below(self.words[w], (idx % 64) as u64);
        proof {
            lemma_bits_below_bound(self.words@[w as int], (idx % 64) as nat);
            lemma_count_by_words(self.words@, w as nat, (idx % 64) as nat);
            lemma_split_index(w as int, (idx % 64) as int);
            assert(64 * w + idx % 64 == idx);
        }
        n + low as usize
    }

    /// Marks a cell present; true when it was not present before.
    pub fn set(&mut self, idx: u16) -> (r: bool)
        requires
            old(self).wf(),
            idx < 16384,
        ensures
            final(self).wf(),
            r == !old(self).has(idx as int),
            forall|j: int| 0 <= j < 16384 ==> #[trigger] final(self).has(j) == (old(self).has(j) || j == idx),
    {
        let k = idx as usize / 64;
        let b = (idx % 64) as u64;
        let bit = 1u64 << b;
        let word = self.words[k];
        proof {
            lemma_split_index(k as int, b as int);
            assert(idx as int == 64 * k + b);
        }
        if word & bit != 0 {
            assert(bit_of(word, b)) by (bit_vector)
                requires
                    b < 64,
                    bit == 1u64 << b,
                    word & bit != 0,
            ;
            return false;
        }
        assert(!bit_of(word, b)) by (bit_vector)
            requires
                b < 64,
                bit == 1u64 << b,
                word & bit == 0,
        ;
        let ghost old_words = self.words@;
        let nw = word | bit;
        self.words[k] = nw;
        proof {
            assert forall|c: u64| c < 64 implies #[trigger] bit_of(nw, c) == (bit_of(word, c) || c == b) by {
                assert(bit_of(nw, c) == (bit_of(word, c) || c == b)) by (bit_vector)
                    requires
                        b < 64,
                        c < 64,
                        bit == 1u64 << b,
                        nw == word | bit,
                ;
            }
            assert forall|j: int| #![trigger present(self.words@, j)] 0 <= j < 16384 implies present(self.words@, j) == (present(old_words, j) || j == idx) by {
                let jk = j / 64;
                let jb = (j % 64) as u64;
                lemma_split_index(jk, jb as int);
                if jk == k {
                    assert(self.words@[jk] == nw);
                    if jb == b {
                        assert(j == idx);
                    } else {
                        assert(j != idx);
                    }
                } else {
                    assert(self.words@[jk] == old_words[jk]);
                    assert(j != idx);
                }
            }
            lemma_count_after_set(old_words, self.words@, idx as int, 16384);
            lemma_count_below_bound(old_words, 16384);
        }
        self.count = self.count + 1;
        self.max_set = Some(
            match self.max_set {
                Some(m) => {
                    if m >= idx {
                        m
                    } else {
                        idx
                    }
                },
                None => idx,
            },
        );
        true
    }

    /// The present cells, ascending.
    pub fn indices(&self) -> (r: Vec<u16>)
        requires
            self.wf(),
        ensures
            forall|i: int, j: int| 0 <= i < j < r@.len() ==> r@[i] < r@[j],
            forall|i: int| 0 <= i < r@.len() ==> #[trigger] r@[i] < 16384 && self.has(r@[i] as int),
            forall|j: int| 0 <= j < 16384 && #[trigger] self.has(j) ==> r@.contains(j as u16),
    {
        let mut out: Vec<u16> = Vec::new();
        let mut i: u16 = 0;
        while i < 16384
            invariant
                i <= 16384,
                self.wf(),
                forall|a: int, c: int| 0 <= a < c < out@.len() ==> out@[a] < out@[c],
                forall|a: int| 0 <= a < out@.len() ==> #[trigger] out@[a] < i && self.has(out@[a] as int),
                forall|j: int| 0 <= j < i && #[trigger] self.has(j) ==> out@.contains(j as u16),
            decreases 16384 - i,
        {
            let ghost before = out@;
            if self.contains(i) {
                out.push(i);
                proof {
                    assert forall|j: int| 0 <= j < i + 1 && #[trigger] self.has(j) implies out@.contains(
                        j as u16,
                    ) by {
                        if j == i {
                            assert(out@[out@.len() - 1] == i);
                        } else {
                            assert(before.contains(j as u16));
                            let x = choose|x: int| 0 <= x < before.len() && before[x] == j as u16;
                            assert(out@[x] == j as u16);
                        }
                    }
                }
            }
            i = i + 1;
        }
        out
    }

    /// Rebuilds the count and the highest index from a bitmap, so the two
    /// can never disagree with it.
    pub fn from_words(words: [u64; 256]) -> (r: Presence)
        ensures
            r.wf(),
            r.words_view() == words@,
    {
        let mut count: u32 = 0;
        let mut max_set: Option<u16> = None;
        let mut w: usize = 0;
        while w < 256
            invariant
                w <= 256,
                words@.len() == 256,
                count == words_sum(words@, w as nat),
                count <= 64 * w,
                match max_set {
                    Some(m) => m < 64 * w && present(words@, m as int) && forall|j: int|
                        m < j < 64 * w ==> !#[trigger] present(words@, j),
                    None => forall|j: int| 0 <= j < 64 * w ==> !#[trigger] present(words@, j),
                },
            decreases 256 - w,
        {
            let word = words[w];
            proof {
                lemma_bits_below_bound(word, 64);
            }
            if word != 0 {
                count = count + ones(word);
                let top = highest_bit(word);
                let m = (w * 64 + top as usize) as u16;
                proof {
                    lemma_split_index(w as int, top as int);
                    assert forall|j: int| m < j < 64 * (w + 1) implies !#[trigger] present(words@, j) by {
                        lemma_split_index(w as int, j - 64 * w);
                        assert(j / 64 == w);
                        assert(((j % 64) as u64) > top);
                    }
                }
                max_set = Some(m);
            } else {
                count = count + ones(word);
                proof {
                    assert forall|j: int| 64 * w <= j < 64 * (w + 1) implies !#[trigger] present(words@, j) by {
                        lemma_split_index(w as int, j - 64 * w);
                        let c = (j % 64) as u64;
                        assert((0u64 >> c) & 1u64 == 0u64) by (bit_vector);
                    }
                }
            }
            w = w + 1;
        }
        proof {
            lemma_count_by_words(words@, 255, 64);
            assert(64 * 255 + 64 == 16384);
        }
        Presence { words, count, max_set }
    }
}

/// The highest set bit of a nonzero word.
fn highest_bit(w: u64) -> (r: u64)
    requires
        w != 0,
    ensures
        r < 64,
        bit_of(w, r),
        forall|c: u64| r < c < 64 ==> !#[trigger] bit_of(w, c),
{
    let mut b: u64 = 63;
    assert((w >> 63u64) >> 1u64 == 0) by (bit_vector);
    loop
        invariant
            b < 64,
            w != 0,
            (w >> b) >> 1u64 == 0,
        decreases b,
    {
        if (w >> b) & 1 == 1 {
            assert forall|c: u64| b < c < 64 implies !#[trigger] bit_of(w, c) by {
                assert((w >> c) & 1u64 == 0) by (bit_vector)
                    requires
                        (w >> b) >> 1u64 == 0,
                        b < c < 64,
                ;
            }
            return b;
        }
        if b == 0 {
            assert(w == 0) by (bit_vector)
                requires
                    (w >> 0u64) >> 1u64 == 0,
                    (w >> 0u64) & 1 != 1,
            ;
            return 0;
        }
        assert((w >> ((b - 1) as u64)) >> 1u64 == 0) by (bit_vector)
            requires
                (w >> b) >> 1u64 == 0,
                (w >> b) & 1 != 1,
                0 < b < 64,
        ;
        b = b - 1;
    }
}

proof fn lemma_count_zero(words: Seq<u64>, i: nat)
    requires
        i <= 16384,
        forall|j: int| 0 <= j < 16384 ==> !#[trigger] present(words, j),
    ensures
        count_below(words, i) == 0,
    decreases i,
{
    if i > 0 {
        lemma_count_zero(words, (i - 1) as nat);
    }
}


// ------------------------------------------------------------ tile writers

/// How many of the bitmaps hold cell `c`.
pub open spec fn holders(maps: Seq<(ActorId, [u64; 256])>, c: int) -> nat
    decreases maps.len(),
{
    if maps.len() == 0 {
        0
    } else {
        holders(maps.drop_last(), c) + if present(maps.last().1@, c) {
            1nat
        } else {
            0nat
        }
    }
}

/// `after` is `before` with cell `c` added to `actor`'s bitmap: in place
/// when the actor has one, as a new bitmap at the end when it does not.
pub open spec fn recorded(
    before: Seq<(ActorId, [u64; 256])>,
    after: Seq<(ActorId, [u64; 256])>,
    actor: ActorId,
    c: int,
) -> bool {
    &&& forall|k: int| 0 <= k < before.len() && before[k].0 == actor ==> {
        &&& after.len() == before.len()
        &&& after[k].0 == actor
        &&& forall|x: int| 0 <= x < 16384 ==> #[trigger] present(after[k].1@, x) == (present(before[k].1@, x) || x == c)
        &&& forall|m: int| 0 <= m < before.len() && m != k ==> #[trigger] after[m] == before[m]
    }
    &&& (forall|k: int| 0 <= k < before.len() ==> before[k].0 != actor) ==> {
        &&& after.len() == before.len() + 1
        &&& after.subrange(0, before.len() as int) == before
        &&& after.last().0 == actor
        &&& forall|x: int| 0 <= x < 16384 ==> #[trigger] present(after.last().1@, x) == (x == c)
    }
}

/// Per tile, one bitmap of written cells per actor that wrote into it, so
/// that a cell written by two actors can be told from a tile written by two.
pub struct TileWriters {
    by_actor: Vec<(ActorId, [u64; 256])>,
}

impl TileWriters {
    /// Each actor with its bitmap, in first-write order.
    pub closed spec fn maps(&self) -> Seq<(ActorId, [u64; 256])> {
        self.by_actor@
    }

    /// No actor appears twice.
    pub open spec fn wf(&self) -> bool {
        forall|i: int, j: int|
            0 <= i < j < self.maps().len() ==> (#[trigger] self.maps()[i]).0 != (#[trigger] self.maps()[j]).0
    }

    /// No writes yet.
    pub fn new() -> (r: TileWriters)
        ensures
            r.wf(),
            r.maps().len() == 0,
    {
        TileWriters { by_actor: Vec::new() }
    }

    /// Notes that `actor` wrote cell `idx`.
    pub fn record(&mut self, actor: ActorId, idx: u16)
        requires
            old(self).wf(),
            idx < 16384,
        ensures
            final(self).wf(),
            recorded(old(self).maps(), final(self).maps(), actor, idx as int),
    {
        let b = (idx % 64) as u64;
        let bit = 1u64 << b;
        let word = idx as usize / 64;
        proof {
            lemma_split_index(word as int, b as int);
        }
        let mut i: usize = 0;
        while i < self.by_actor.len()
            invariant
                i <= self.by_actor@.len(),
                self.by_actor@ == old(self).by_actor@,
                forall|k: int| 0 <= k < i ==> self.by_actor@[k].0 != actor,
                old(self).wf(),
                word < 256,
                b < 64,
                bit == 1u64 << b,
                idx == 64 * word + b,
            decreases self.by_actor@.len() - i,
        {
            if self.by_actor[i].0 == actor {
                let ghost before = self.by_actor@[i as int].1;
                let mut entry = self.by_actor[i];
                let nw = entry.1[word] | bit;
                entry.1[word] = nw;
                proof {
                    assert(entry.0 == actor);
                    assert(entry.1@ =~= before@.update(word as int, before@[word as int] | bit));
                    lemma_set_bit(before@, entry.1@, word as int, b, bit, idx as int);
                }
                self.by_actor.set(i, entry);
                proof {
                    assert(self.by_actor@ == old(self).by_actor@.update(i as int, entry));
                    assert forall|k: int| 0 <= k < old(self).maps().len() && old(self).maps()[k].0 == actor implies k == i by {
                        if k < i {
                            assert(old(self).maps()[k].0 != old(self).maps()[i as int].0);
                        } else if k > i {
                            assert(old(self).maps()[i as int].0 != old(self).maps()[k].0);
                        }
                    }
                }
                return;
            }
            i = i + 1;
        }
        assert(forall|k: int| 0 <= k < old(self).by_actor@.len() ==> old(self).by_actor@[k].0 != actor);
        let mut map = [0u64; 256];
        let ghost z = map@;
        map[word] = bit;
        proof {
            assert(z.len() == 256);
            assert forall|c: int| 0 <= c < 16384 implies !#[trigger] present(z, c) by {
                lemma_split_index(c / 64, c % 64);
                assert(z[c / 64] == 0);
                let cb = (c % 64) as u64;
                assert((0u64 >> cb) & 1u64 == 0u64) by (bit_vector);
            }
            assert(0u64 | bit == bit) by (bit_vector);
            assert(z[word as int] == 0);
            assert(map@ =~= z.update(word as int, z[word as int] | bit));
            lemma_set_bit(z, map@, word as int, b, bit, idx as int);
        }
        self.by_actor.push((actor, map));
        proof {
            assert(self.by_actor@.subrange(0, old(self).by_actor@.len() as int) =~= old(self).by_actor@);
            let n0 = old(self).by_actor@.len();
            assert forall|i: int, j: int| 0 <= i < j < self.maps().len() implies (#[trigger] self.maps()[i]).0 != (#[trigger] self.maps()[j]).0 by {
                assert(self.maps()[i] == old(self).maps()[i]);
                if j < n0 {
                    assert(self.maps()[j] == old(self).maps()[j]);
                    assert(old(self).maps()[i].0 != old(self).maps()[j].0);
                } else {
                    assert(self.maps()[j].0 == actor);
                    assert(old(self).by_actor@[i].0 != actor);
                }
            }
        }
    }

    /// The cells written by two or more actors, or `None` when no cell of
    /// the tile was.
    pub fn contested_cells(&self) -> (r: Option<[u64; 256]>)
        requires
            self.wf(),
        ensures
            r is Some <==> exists|c: int| 0 <= c < 16384 && #[trigger] holders(self.maps(), c) >= 2,
            r matches Some(bm) ==> forall|c: int| 0 <= c < 16384 ==> #[trigger] present(bm@, c) == (holders(self.maps(), c) >= 2),
    {
        let mut out = [0u64; 256];
        let mut any = false;
        let n = self.by_actor.len();
        let mut w: usize = 0;
        while w < 256
            invariant
                w <= 256,
                n == self.maps().len(),
                forall|c: int| 0 <= c < 64 * w ==> #[trigger] present(out@, c) == (holders(self.maps(), c) >= 2),
                any <==> exists|c: int| 0 <= c < 64 * w && #[trigger] holders(self.maps(), c) >= 2,
            decreases 256 - w,
        {
            let mut seen: u64 = 0;
            let mut dup: u64 = 0;
            let mut k: usize = 0;
            proof {
                assert(self.maps().subrange(0, 0) =~= Seq::<(ActorId, [u64; 256])>::empty());
                assert forall|b: u64| b < 64 implies !#[trigger] bit_of(0u64, b) by {
                    assert((0u64 >> b) & 1u64 == 0u64) by (bit_vector);
                }
            }
            while k < n
                invariant
                    k <= n,
                    w < 256,
                    n == self.maps().len(),
                    forall|b: u64| b < 64 ==> #[trigger] bit_of(seen, b) == (holders(self.maps().subrange(0, k as int), 64 * w + b) >= 1),
                    forall|b: u64| b < 64 ==> #[trigger] bit_of(dup, b) == (holders(self.maps().subrange(0, k as int), 64 * w + b) >= 2),
                decreases n - k,
            {
                let x = self.by_actor[k].1[w];
                let nd = dup | (seen & x);
                let ns = seen | x;
                proof {
                    let pre = self.maps().subrange(0, k as int);
                    let post = self.maps().subrange(0, k + 1);
                    assert(post.len() == k + 1);
                    assert(post.last() == self.maps()[k as int]);
                    assert(x == self.maps()[k as int].1@[w as int]);
                    assert(post.drop_last() =~= pre);
                    assert forall|b: u64| b < 64 implies #[trigger] bit_of(nd, b) == (holders(post, 64 * w + b) >= 2) by {
                        assert(bit_of(nd, b) == (bit_of(dup, b) || (bit_of(seen, b) && bit_of(x, b)))) by (bit_vector)
                            requires nd == dup | (seen & x), b < 64;
                        lemma_split_index(w as int, b as int);
                        assert(present(post.last().1@, 64 * w + b) == bit_of(x, b));
                        assert(bit_of(seen, b) == (holders(pre, 64 * w + b) >= 1));
                    }
                    assert forall|b: u64| b < 64 implies #[trigger] bit_of(ns, b) == (holders(post, 64 * w + b) >= 1) by {
                        assert(bit_of(ns, b) == (bit_of(seen, b) || bit_of(x, b))) by (bit_vector)
                            requires ns == seen | x, b < 64;
                        assert(bit_of(nd, b) == (bit_of(dup, b) || (bit_of(seen, b) && bit_of(x, b)))) by (bit_vector)
                            requires nd == dup | (seen & x), b < 64;
                        lemma_split_index(w as int, b as int);
                        assert(present(post.last().1@, 64 * w + b) == bit_of(x, b));
                    }
                }
                dup = nd;
                seen = ns;
                k = k + 1;
            }
            proof {
                assert(self.maps().subrange(0, n as int) =~= self.maps());
            }
            let ghost old_out = out@;
            out[w] = dup;
            proof {
                assert(out@ == old_out.update(w as int, dup));
            }
            if dup != 0 {
                proof {
                    lemma_nonzero_has_bit(dup);
                    let b = choose|b: u64| b < 64 && bit_of(dup, b);
                    assert(holders(self.maps(), 64 * w + b) >= 2);
                }
                any = true;
            }
            proof {
                assert forall|c: int| 0 <= c < 64 * (w + 1) implies #[trigger] present(out@, c) == (holders(self.maps(), c) >= 2) by {
                    if c >= 64 * w {
                        lemma_split_index(w as int, c - 64 * w);
                        assert(out@[w as int] == dup);
                        assert(bit_of(dup, (c - 64 * w) as u64) == (holders(self.maps(), 64 * w + (c - 64 * w) as u64) >= 2));
                    } else {
                        let cw = c / 64;
                        lemma_split_index(cw, c % 64);
                        assert(out@[cw] == old_out[cw]);
                        assert(present(out@, c) == present(old_out, c));
                    }
                }
                if dup == 0 {
                    assert forall|c: int| 64 * w <= c < 64 * (w + 1) implies !(#[trigger] holders(self.maps(), c) >= 2) by {
                        lemma_split_index(w as int, c - 64 * w);
                        let b = (c - 64 * w) as u64;
                        assert((0u64 >> b) & 1u64 == 0u64) by (bit_vector);
                        assert(bit_of(dup, b) == (holders(self.maps(), 64 * w + b) >= 2));
                    }
                }
            }
            w = w + 1;
        }
        if any {
            Some(out)
        } else {
            None
        }
    }
}

proof fn lemma_nonzero_has_bit(x: u64)
    requires
        x != 0,
    ensures
        exists|b: u64| b < 64 && #[trigger] bit_of(x, b),
{
    assert((x >> 63u64) >> 1u64 == 0) by (bit_vector);
    lemma_bit_at_or_below(x, 63);
}

proof fn lemma_bit_at_or_below(x: u64, k: u64)
    requires
        x != 0,
        k < 64,
        (x >> k) >> 1u64 == 0,
    ensures
        exists|b: u64| b < 64 && #[trigger] bit_of(x, b),
    decreases k,
{
    if bit_of(x, k) {
        assert(k < 64 && bit_of(x, k));
    } else if k == 0 {
        assert(x == 0) by (bit_vector)
            requires
                (x >> 0u64) >> 1u64 == 0,
                (x >> 0u64) & 1 != 1,
        ;
    } else {
        assert((x >> ((k - 1) as u64)) >> 1u64 == 0) by (bit_vector)
            requires
                (x >> k) >> 1u64 == 0,
                (x >> k) & 1 != 1,
                0 < k < 64,
        ;
        lemma_bit_at_or_below(x, (k - 1) as u64);
    }
}

/// Setting one bit of one word of a bitmap adds exactly that cell.
proof fn lemma_set_bit(before: Seq<u64>, after: Seq<u64>, word: int, b: u64, bit: u64, idx: int)
    requires
        before.len() == 256,
        0 <= word < 256,
        b < 64,
        bit == 1u64 << b,
        idx == 64 * word + b,
        after == before.update(word, before[word] | bit),
    ensures
        forall|c: int| 0 <= c < 16384 ==> #[trigger] present(after, c) == (present(before, c) || c == idx),
{
    let old_w = before[word];
    let nw = old_w | bit;
    assert forall|c: int| 0 <= c < 16384 implies #[trigger] present(after, c) == (present(before, c) || c == idx) by {
        let cw = c / 64;
        let cb = (c % 64) as u64;
        lemma_split_index(cw, cb as int);
        lemma_split_index(word, b as int);
        if cw == word {
            assert(bit_of(nw, cb) == (bit_of(old_w, cb) || cb == b)) by (bit_vector)
                requires nw == old_w | bit, bit == 1u64 << b, b < 64, cb < 64;
        }
    }
}


/// The first `n` words of a bitmap as the image writes them: eight
/// little-endian bytes each.
pub open spec fn words_bytes(words: Seq<u64>, n: nat) -> Seq<u8>
    decreases n,
{
    if n == 0 {
        Seq::empty()
    } else {
        words_bytes(words, (n - 1) as nat) + le_bytes(words[n - 1] as nat, 8)
    }
}

/// The `k`th eight-byte little-endian word from `at` on.
pub open spec fn word_at(b: Seq<u8>, at: int, k: int) -> nat {
    le_value(b.subrange(at + 8 * k, at + 8 * k + 8))
}

impl Presence {
    /// Writes the bitmap's words; the count and highest index are derived
    /// on reading, never stored.
    pub fn write_image(&self, w: &mut Writer)
        ensures
            final(w).out@ == old(w).out@ + words_bytes(self.words_view(), 256),
            final(w).tiles@ == old(w).tiles@,
    {
        let mut k: usize = 0;
        while k < 256
            invariant
                k <= 256,
                self.words@.len() == 256,
                w.out@ == old(w).out@ + words_bytes(self.words@, k as nat),
                w.tiles@ == old(w).tiles@,
            decreases 256 - k,
        {
            let ghost before = w.out@;
            w.u64(self.words[k]);
            proof {
                assert(w.out@ =~= old(w).out@ + words_bytes(self.words@, (k + 1) as nat));
            }
            k = k + 1;
        }
    }

    /// Reads 256 words and rebuilds the bitmap from them.
    pub fn read_image(r: &mut Reader) -> (res: Result<Presence, ImageError>)
        requires
            old(r).pos() <= old(r).bytes().len(),
        ensures
            final(r).bytes() == old(r).bytes(),
            final(r).pos() <= final(r).bytes().len(),
            res is Ok <==> old(r).has(2048),
            res matches Ok(p) ==> p.wf() && final(r).pos() == old(r).pos() + 2048 && forall|k: int|
                0 <= k < 256 ==> #[trigger] p.words_view()[k] == word_at(old(r).bytes(), old(r).pos(), k),
            res matches Err(e) ==> e == ImageError::Truncated,
    {
        let ghost start = r.pos();
        let mut words = [0u64; 256];
        let mut k: usize = 0;
        while k < 256
            invariant
                k <= 256,
                words@.len() == 256,
                r.bytes() == old(r).bytes(),
                start == old(r).pos(),
                k > 0 ==> 0 <= start,
                r.pos() == start + 8 * k,
                r.pos() <= r.bytes().len(),
                forall|j: int| 0 <= j < k ==> #[trigger] words@[j] == word_at(r.bytes(), start, j),
            decreases 256 - k,
        {
            let v = match r.u64() {
                Ok(v) => v,
                Err(e) => {
                    proof {
                        assert(!old(r).has(2048));
                    }
                    return Err(e);
                },
            };
            words[k] = v;
            k = k + 1;
        }
        Ok(Presence::from_words(words))
    }
}

/// A bitmap written to an image and read back is the same bitmap.
pub proof fn lemma_words_round_trip(words: Seq<u64>, n: nat, before: Seq<u8>, after: Seq<u8>, k: int)
    requires
        n <= words.len(),
        0 <= k < n,
    ensures
        words_bytes(words, n).len() == 8 * n,
        word_at(before + words_bytes(words, n) + after, before.len() as int, k) == words[k],
    decreases n,
{
    let all = before + words_bytes(words, n) + after;
    lemma_words_len(words, n);
    if k == n - 1 {
        lemma_words_len(words, (n - 1) as nat);
        crate::image::lemma_pow256_values();
        crate::image::lemma_field_round_trip(before + words_bytes(words, (n - 1) as nat), words[k] as nat, 8, after);
        assert(before + words_bytes(words, n) + after =~= (before + words_bytes(words, (n - 1) as nat)) + le_bytes(words[k] as nat, 8) + after);
    } else {
        lemma_words_round_trip(words, (n - 1) as nat, before, le_bytes(words[n - 1] as nat, 8) + after, k);
        assert(before + words_bytes(words, (n - 1) as nat) + (le_bytes(words[n - 1] as nat, 8) + after) =~= all);
    }
}

proof fn lemma_words_len(words: Seq<u64>, n: nat)
    requires
        n <= words.len(),
    ensures
        words_bytes(words, n).len() == 8 * n,
    decreases n,
{
    if n > 0 {
        lemma_words_len(words, (n - 1) as nat);
        crate::image::lemma_pow256_values();
        crate::image::lemma_le_round_trip(words[n - 1] as nat, 8);
    }
}


// ------------------------------------------------------------ promotion plan

/// What the promotion pre-pass reads of one op, in canonical order.
#[derive(Clone, Copy, PartialEq, Eq, Structural, Debug)]
pub enum PlanOp {
    /// A row created by this op.
    InsertRow(OpId),
    /// A column created by this op.
    InsertCol(OpId),
    /// A value written to (or cleared from) a cell by an actor.
    WriteCell { row: RowId, col: ColId, actor: ActorId },
    /// A formula set on a cell.
    SetFormula { row: RowId, col: ColId },
    /// Anything that neither creates an identity nor writes a cell.
    Other,
}

/// The identities after interning `id`.
pub open spec fn interned(ids: Seq<OpId>, id: OpId) -> Seq<OpId> {
    if ids.contains(id) {
        ids
    } else {
        ids.push(id)
    }
}

/// The row identities the pre-pass interns, in first-seen order.
pub open spec fn plan_rows(ops: Seq<PlanOp>) -> Seq<OpId>
    decreases ops.len(),
{
    if ops.len() == 0 {
        Seq::empty()
    } else {
        let prev = plan_rows(ops.drop_last());
        match ops.last() {
            PlanOp::InsertRow(id) => interned(prev, id),
            PlanOp::WriteCell { row, .. } => interned(prev, row.0),
            _ => prev,
        }
    }
}

/// The column identities the pre-pass interns, in first-seen order.
pub open spec fn plan_cols(ops: Seq<PlanOp>) -> Seq<OpId>
    decreases ops.len(),
{
    if ops.len() == 0 {
        Seq::empty()
    } else {
        let prev = plan_cols(ops.drop_last());
        match ops.last() {
            PlanOp::InsertCol(id) => interned(prev, id),
            PlanOp::WriteCell { col, .. } => interned(prev, col.0),
            _ => prev,
        }
    }
}

/// Whether op `i` is a write of cell `(r, c)` by actor `a`.
pub open spec fn writes(ops: Seq<PlanOp>, i: int, r: OpId, c: OpId, a: ActorId) -> bool {
    ops[i] matches PlanOp::WriteCell { row, col, actor } && row.0 == r && col.0 == c && actor == a
}

/// Whether actor `a` wrote cell `(r, c)`.
pub open spec fn written_by(ops: Seq<PlanOp>, r: OpId, c: OpId, a: ActorId) -> bool {
    exists|i: int| 0 <= i < ops.len() && #[trigger] writes(ops, i, r, c, a)
}

/// The promotion predicate: two different actors wrote the cell.
pub open spec fn contested_cell(ops: Seq<PlanOp>, r: OpId, c: OpId) -> bool {
    exists|a1: ActorId, a2: ActorId| a1 != a2 && #[trigger] written_by(ops, r, c, a1) && #[trigger] written_by(ops, r, c, a2)
}

/// The cells some formula names.
pub open spec fn formula_keys(ops: Seq<PlanOp>) -> Set<((u128, u64), (u128, u64))> {
    Set::new(
        |k: ((u128, u64), (u128, u64))|
            exists|i: int|
                0 <= i < ops.len() && (#[trigger] ops[i] matches PlanOp::SetFormula { row, col } && k == (
                    id_key(row.0),
                    id_key(col.0),
                )),
    )
}

/// The slot an interned identity holds.
pub open spec fn slot_in(ids: Seq<OpId>, x: OpId) -> int {
    choose|i: int| 0 <= i < ids.len() && ids[i] == x
}

/// The tile and cell index of a cell at slots `(rs, cs)`.
pub open spec fn tile_of(rs: int, cs: int) -> ((u32, u32), int) {
    (((rs / 256) as u32, (cs / 64) as u32), (rs % 256) * 64 + cs % 64)
}

/// Whether the plan marks the cell at slots `(rs, cs)` contested.
pub open spec fn marked(m: Map<(u32, u32), [u64; 256]>, rs: int, cs: int) -> bool {
    let (k, c) = tile_of(rs, cs);
    m.contains_key(k) && present(m[k]@, c)
}

/// No identity twice.
pub open spec fn distinct(ids: Seq<OpId>) -> bool {
    forall|i: int, j: int| 0 <= i < j < ids.len() ==> ids[i] != ids[j]
}

/// The result of the promotion pre-pass.
pub struct Plan {
    pub rows: SlotMap,
    pub cols: SlotMap,
    /// Contested cell bitmaps, per tile `(row band, column band)`.
    pub contested: BTreeMap<(u32, u32), [u64; 256]>,
    /// Cells named by any formula, as `(row key, column key)`.
    pub formula_cells: BTreeSet<((u128, u64), (u128, u64))>,
}

impl SlotMap {
    /// Interned identities are distinct.
    pub proof fn lemma_distinct(&self)
        requires
            self.wf(),
        ensures
            distinct(self.ids_view()),
    {
        assert forall|i: int, j: int| 0 <= i < j < self.ids_view().len() implies self.ids_view()[i] != self.ids_view()[j] by {
            assert(self.to_slot@.contains_key(id_key(self.to_id@[i])));
            assert(self.to_slot@.contains_key(id_key(self.to_id@[j])));
        }
    }
}

/// A write's cell, as a tile and index, with the identities interned so far.
pub open spec fn write_lands(
    ops: Seq<PlanOp>,
    j: int,
    rows: Seq<OpId>,
    cols: Seq<OpId>,
    k: (u32, u32),
    c: int,
    a: ActorId,
) -> bool {
    ops[j] matches PlanOp::WriteCell { row, col, actor } && actor == a && tile_of(
        slot_in(rows, row.0),
        slot_in(cols, col.0),
    ) == (k, c)
}

/// Whether some write among the first `n` ops lands on `(k, c)` by `a`.
pub open spec fn landed(
    ops: Seq<PlanOp>,
    n: int,
    rows: Seq<OpId>,
    cols: Seq<OpId>,
    k: (u32, u32),
    c: int,
    a: ActorId,
) -> bool {
    exists|j: int| 0 <= j < n && #[trigger] write_lands(ops, j, rows, cols, k, c, a)
}

proof fn lemma_slot_in(ids: Seq<OpId>, i: int)
    requires
        distinct(ids),
        0 <= i < ids.len(),
    ensures
        slot_in(ids, ids[i]) == i,
{
    let s = slot_in(ids, ids[i]);
    assert(0 <= s < ids.len() && ids[s] == ids[i]);
    if s != i {
        if s < i {
            assert(ids[s] != ids[i]);
        } else {
            assert(ids[i] != ids[s]);
        }
    }
}

proof fn lemma_interned_keeps_slots(ids: Seq<OpId>, y: OpId, x: OpId)
    requires
        distinct(ids),
        ids.contains(x),
    ensures
        distinct(interned(ids, y)),
        interned(ids, y).contains(x),
        slot_in(interned(ids, y), x) == slot_in(ids, x),
{
    let t = interned(ids, y);
    let i = choose|i: int| 0 <= i < ids.len() && ids[i] == x;
    if !ids.contains(y) {
        assert forall|a: int, b: int| 0 <= a < b < t.len() implies t[a] != t[b] by {
            if b == ids.len() {
                assert(t[a] == ids[a]);
            }
        }
    }
    assert(t[i] == x);
    lemma_slot_in(ids, i);
    lemma_slot_in(t, i);
}

proof fn lemma_interned_has(ids: Seq<OpId>, y: OpId)
    requires
        distinct(ids),
    ensures
        distinct(interned(ids, y)),
        interned(ids, y).contains(y),
        forall|x: OpId| ids.contains(x) ==> #[trigger] interned(ids, y).contains(x),
{
    let t = interned(ids, y);
    if !ids.contains(y) {
        assert forall|a: int, b: int| 0 <= a < b < t.len() implies t[a] != t[b] by {
            if b == ids.len() {
                assert(t[a] == ids[a]);
            }
        }
        assert(t[ids.len() as int] == y);
    }
    assert forall|x: OpId| ids.contains(x) implies #[trigger] t.contains(x) by {
        let i = choose|i: int| 0 <= i < ids.len() && ids[i] == x;
        assert(t[i] == x);
    }
}

/// Holding a cell twice is two bitmaps holding it.
proof fn lemma_holders_two(maps: Seq<(ActorId, [u64; 256])>, c: int)
    ensures
        holders(maps, c) >= 2 <==> exists|m1: int, m2: int|
            0 <= m1 < m2 < maps.len() && #[trigger] present(maps[m1].1@, c) && #[trigger] present(maps[m2].1@, c),
        holders(maps, c) >= 1 <==> exists|m: int| 0 <= m < maps.len() && #[trigger] present(maps[m].1@, c),
    decreases maps.len(),
{
    if maps.len() > 0 {
        let init = maps.drop_last();
        lemma_holders_two(init, c);
        let n = maps.len() - 1;
        if holders(maps, c) >= 2 {
            if holders(init, c) >= 2 {
                let (m1, m2) = choose|m1: int, m2: int|
                    0 <= m1 < m2 < init.len() && #[trigger] present(init[m1].1@, c) && #[trigger] present(init[m2].1@, c);
                assert(maps[m1] == init[m1] && maps[m2] == init[m2]);
            } else {
                let m1 = choose|m: int| 0 <= m < init.len() && #[trigger] present(init[m].1@, c);
                assert(maps[m1] == init[m1]);
                assert(present(maps[n].1@, c));
            }
        }
        if exists|m1: int, m2: int| 0 <= m1 < m2 < maps.len() && #[trigger] present(maps[m1].1@, c) && #[trigger] present(maps[m2].1@, c) {
            let (m1, m2) = choose|m1: int, m2: int|
                0 <= m1 < m2 < maps.len() && #[trigger] present(maps[m1].1@, c) && #[trigger] present(maps[m2].1@, c);
            if m2 < n {
                assert(init[m1] == maps[m1] && init[m2] == maps[m2]);
            } else {
                assert(init[m1] == maps[m1]);
            }
        }
        if holders(maps, c) >= 1 {
            if holders(init, c) >= 1 {
                let m = choose|m: int| 0 <= m < init.len() && #[trigger] present(init[m].1@, c);
                assert(maps[m] == init[m]);
            } else {
                assert(present(maps[n].1@, c));
            }
        }
        if exists|m: int| 0 <= m < maps.len() && #[trigger] present(maps[m].1@, c) {
            let m = choose|m: int| 0 <= m < maps.len() && #[trigger] present(maps[m].1@, c);
            if m < n {
                assert(init[m] == maps[m]);
            }
        }
    }
}


/// `long` starts with `short`.
pub open spec fn extends(short: Seq<OpId>, long: Seq<OpId>) -> bool {
    short.len() <= long.len() && long.subrange(0, short.len() as int) == short
}

/// Each tile's bitmaps say exactly which cells each actor's writes among
/// the first `n` ops landed on.
pub open spec fn agree(w: Map<(u32, u32), TileWriters>, ops: Seq<PlanOp>, n: int, rows: Seq<OpId>, cols: Seq<OpId>) -> bool {
    forall|k: (u32, u32), m: int, c: int|
        w.contains_key(k) && 0 <= m < w[k].maps().len() && 0 <= c < 16384 ==> (#[trigger] present(
            w[k].maps()[m].1@,
            c,
        ) <==> landed(ops, n, rows, cols, k, c, w[k].maps()[m].0))
}

/// Every write among the first `n` ops has its actor's bitmap in its tile.
pub open spec fn cover(w: Map<(u32, u32), TileWriters>, ops: Seq<PlanOp>, n: int, rows: Seq<OpId>, cols: Seq<OpId>) -> bool {
    forall|j: int, k: (u32, u32), c: int, a: ActorId|
        0 <= j < n && #[trigger] write_lands(ops, j, rows, cols, k, c, a) ==> w.contains_key(k) && exists|m: int|
            0 <= m < w[k].maps().len() && (#[trigger] w[k].maps()[m]).0 == a
}

/// Every write among the first `n` ops names interned identities.
pub open spec fn known(ops: Seq<PlanOp>, n: int, rows: Seq<OpId>, cols: Seq<OpId>) -> bool {
    forall|j: int| 0 <= j < n ==> match #[trigger] ops[j] {
        PlanOp::WriteCell { row, col, .. } => rows.contains(row.0) && cols.contains(col.0),
        _ => true,
    }
}

/// Every tile's bitmaps have distinct actors.
pub open spec fn all_wf(w: Map<(u32, u32), TileWriters>) -> bool {
    forall|k: (u32, u32)| #[trigger] w.contains_key(k) ==> w[k].wf()
}

proof fn lemma_prefix_slot(short: Seq<OpId>, long: Seq<OpId>, x: OpId)
    requires
        extends(short, long),
        distinct(long),
        short.contains(x),
    ensures
        long.contains(x),
        slot_in(long, x) == slot_in(short, x),
        distinct(short),
{
    let i = choose|i: int| 0 <= i < short.len() && short[i] == x;
    assert(long[i] == short[i]);
    assert forall|a: int, b: int| 0 <= a < b < short.len() implies short[a] != short[b] by {
        assert(long[a] == short[a] && long[b] == short[b]);
    }
    lemma_slot_in(short, i);
    lemma_slot_in(long, i);
}

/// Growing the slot maps does not move an earlier write.
proof fn lemma_lands_stable(
    ops: Seq<PlanOp>,
    n: int,
    rows: Seq<OpId>,
    cols: Seq<OpId>,
    rows2: Seq<OpId>,
    cols2: Seq<OpId>,
)
    requires
        known(ops, n, rows, cols),
        extends(rows, rows2),
        extends(cols, cols2),
        distinct(rows2),
        distinct(cols2),
    ensures
        known(ops, n, rows2, cols2),
        forall|j: int, k: (u32, u32), c: int, a: ActorId|
            0 <= j < n ==> #[trigger] write_lands(ops, j, rows2, cols2, k, c, a) == write_lands(ops, j, rows, cols, k, c, a),
        forall|k: (u32, u32), c: int, a: ActorId|
            #[trigger] landed(ops, n, rows2, cols2, k, c, a) == landed(ops, n, rows, cols, k, c, a),
{
    assert forall|j: int| 0 <= j < n implies match #[trigger] ops[j] {
        PlanOp::WriteCell { row, col, .. } => rows2.contains(row.0) && cols2.contains(col.0),
        _ => true,
    } by {
        if let PlanOp::WriteCell { row, col, .. } = ops[j] {
            lemma_prefix_slot(rows, rows2, row.0);
            lemma_prefix_slot(cols, cols2, col.0);
        }
    }
    assert forall|j: int, k: (u32, u32), c: int, a: ActorId| 0 <= j < n implies #[trigger] write_lands(ops, j, rows2, cols2, k, c, a) == write_lands(ops, j, rows, cols, k, c, a) by {
        if let PlanOp::WriteCell { row, col, .. } = ops[j] {
            lemma_prefix_slot(rows, rows2, row.0);
            lemma_prefix_slot(cols, cols2, col.0);
        }
    }
    assert forall|k: (u32, u32), c: int, a: ActorId| #[trigger] landed(ops, n, rows2, cols2, k, c, a) == landed(ops, n, rows, cols, k, c, a) by {
        if landed(ops, n, rows2, cols2, k, c, a) {
            let j = choose|j: int| 0 <= j < n && #[trigger] write_lands(ops, j, rows2, cols2, k, c, a);
            assert(write_lands(ops, j, rows, cols, k, c, a));
        }
        if landed(ops, n, rows, cols, k, c, a) {
            let j = choose|j: int| 0 <= j < n && #[trigger] write_lands(ops, j, rows, cols, k, c, a);
            assert(write_lands(ops, j, rows2, cols2, k, c, a));
        }
    }
}


/// One write folded into the per-tile bitmaps keeps them exact.
proof fn lemma_write_step(
    ops: Seq<PlanOp>,
    i: int,
    rows: Seq<OpId>,
    cols: Seq<OpId>,
    w: Map<(u32, u32), TileWriters>,
    key: (u32, u32),
    idx: int,
    actor: ActorId,
    old_w: TileWriters,
    new_w: TileWriters,
)
    requires
        0 <= i < ops.len(),
        0 <= idx < 16384,
        agree(w, ops, i, rows, cols),
        cover(w, ops, i, rows, cols),
        all_wf(w),
        w.contains_key(key) ==> old_w == w[key],
        !w.contains_key(key) ==> old_w.maps().len() == 0,
        old_w.wf(),
        new_w.wf(),
        recorded(old_w.maps(), new_w.maps(), actor, idx),
        write_lands(ops, i, rows, cols, key, idx, actor),
        forall|k: (u32, u32), c: int, a: ActorId| #[trigger] write_lands(ops, i, rows, cols, k, c, a) ==> k == key && c == idx && a == actor,
    ensures
        agree(w.insert(key, new_w), ops, i + 1, rows, cols),
        cover(w.insert(key, new_w), ops, i + 1, rows, cols),
        all_wf(w.insert(key, new_w)),
{
    let w2 = w.insert(key, new_w);
    let before = old_w.maps();
    let after = new_w.maps();
    assert forall|k: (u32, u32), c: int, a: ActorId| #[trigger] landed(ops, i + 1, rows, cols, k, c, a) == (landed(ops, i, rows, cols, k, c, a) || (k == key && c == idx && a == actor)) by {
        if landed(ops, i + 1, rows, cols, k, c, a) {
            let j = choose|j: int| 0 <= j < i + 1 && #[trigger] write_lands(ops, j, rows, cols, k, c, a);
            if j < i {
                assert(landed(ops, i, rows, cols, k, c, a));
            }
        }
        if landed(ops, i, rows, cols, k, c, a) {
            let j = choose|j: int| 0 <= j < i && #[trigger] write_lands(ops, j, rows, cols, k, c, a);
            assert(0 <= j < i + 1);
        }
        if k == key && c == idx && a == actor {
            assert(write_lands(ops, i, rows, cols, k, c, a));
        }
    }
    let found = exists|k0: int| 0 <= k0 < before.len() && before[k0].0 == actor;
    // No earlier write by `actor` landed in this tile unless it has a bitmap there.
    if !found {
        assert forall|c: int| !landed(ops, i, rows, cols, key, c, actor) by {
            if landed(ops, i, rows, cols, key, c, actor) {
                let j = choose|j: int| 0 <= j < i && #[trigger] write_lands(ops, j, rows, cols, key, c, actor);
                assert(w.contains_key(key));
                let m = choose|m: int| 0 <= m < w[key].maps().len() && (#[trigger] w[key].maps()[m]).0 == actor;
                assert(before[m].0 == actor);
            }
        }
    }
    assert forall|k: (u32, u32), m: int, c: int|
        w2.contains_key(k) && 0 <= m < w2[k].maps().len() && 0 <= c < 16384 implies (#[trigger] present(
            w2[k].maps()[m].1@,
            c,
        ) <==> landed(ops, i + 1, rows, cols, k, c, w2[k].maps()[m].0)) by {
        if k != key {
            assert(w2[k] == w[k]);
            assert(present(w[k].maps()[m].1@, c) <==> landed(ops, i, rows, cols, k, c, w[k].maps()[m].0));
        } else {
            assert(w2[k] == new_w);
            if found {
                let k0 = choose|k0: int| 0 <= k0 < before.len() && before[k0].0 == actor;
                assert(w.contains_key(key));
                if m == k0 {
                    assert(present(after[m].1@, c) == (present(before[m].1@, c) || c == idx));
                    assert(present(w[key].maps()[m].1@, c) <==> landed(ops, i, rows, cols, key, c, actor));
                } else {
                    assert(after[m] == before[m]);
                    assert(before[m].0 != actor) by {
                        if m < k0 {
                            assert((before[m]).0 != (before[k0]).0);
                        } else {
                            assert((before[k0]).0 != (before[m]).0);
                        }
                    }
                    assert(present(w[key].maps()[m].1@, c) <==> landed(ops, i, rows, cols, key, c, before[m].0));
                }
            } else {
                if m < before.len() {
                    assert(after[m] == after.subrange(0, before.len() as int)[m]);
                    assert(after[m] == before[m]);
                    assert(before[m].0 != actor);
                    assert(w.contains_key(key));
                    assert(present(w[key].maps()[m].1@, c) <==> landed(ops, i, rows, cols, key, c, before[m].0));
                } else {
                    assert(m == after.len() - 1);
                    assert(present(after.last().1@, c) == (c == idx));
                }
            }
        }
    }
    assert forall|j: int, k: (u32, u32), c: int, a: ActorId|
        0 <= j < i + 1 && #[trigger] write_lands(ops, j, rows, cols, k, c, a) implies w2.contains_key(k) && exists|m: int|
            0 <= m < w2[k].maps().len() && (#[trigger] w2[k].maps()[m]).0 == a by {
        if j == i {
            assert(k == key && a == actor);
            if found {
                let k0 = choose|k0: int| 0 <= k0 < before.len() && before[k0].0 == actor;
                assert(w2[k].maps()[k0].0 == a);
            } else {
                assert(w2[k].maps()[after.len() - 1].0 == a);
            }
        } else {
            assert(w.contains_key(k));
            let m = choose|m: int| 0 <= m < w[k].maps().len() && (#[trigger] w[k].maps()[m]).0 == a;
            if k != key {
                assert(w2[k].maps()[m].0 == a);
            } else {
                assert(before[m].0 == a);
                if found {
                    let k0 = choose|k0: int| 0 <= k0 < before.len() && before[k0].0 == actor;
                    if m == k0 {
                        assert(after[m].0 == a);
                    } else {
                        assert(after[m] == before[m]);
                    }
                } else {
                    assert(after[m] == after.subrange(0, before.len() as int)[m]);
                }
                assert(w2[k].maps()[m].0 == a);
            }
        }
    }
    assert forall|k: (u32, u32)| #[trigger] w2.contains_key(k) implies w2[k].wf() by {
        if k != key {
            assert(w2[k] == w[k]);
        }
    }
}


/// An op that writes no cell leaves the bitmaps exact.
proof fn lemma_nonwrite_step(
    ops: Seq<PlanOp>,
    i: int,
    rows: Seq<OpId>,
    cols: Seq<OpId>,
    w: Map<(u32, u32), TileWriters>,
)
    requires
        0 <= i < ops.len(),
        !(ops[i] is WriteCell),
        agree(w, ops, i, rows, cols),
        cover(w, ops, i, rows, cols),
        known(ops, i, rows, cols),
    ensures
        agree(w, ops, i + 1, rows, cols),
        cover(w, ops, i + 1, rows, cols),
        known(ops, i + 1, rows, cols),
{
    assert forall|k: (u32, u32), c: int, a: ActorId| #[trigger] landed(ops, i + 1, rows, cols, k, c, a) == landed(ops, i, rows, cols, k, c, a) by {
        if landed(ops, i + 1, rows, cols, k, c, a) {
            let j = choose|j: int| 0 <= j < i + 1 && #[trigger] write_lands(ops, j, rows, cols, k, c, a);
            assert(j != i);
        }
        if landed(ops, i, rows, cols, k, c, a) {
            let j = choose|j: int| 0 <= j < i && #[trigger] write_lands(ops, j, rows, cols, k, c, a);
            assert(0 <= j < i + 1);
        }
    }
}

/// Moving to grown slot maps keeps the bitmaps exact.
proof fn lemma_transfer(
    ops: Seq<PlanOp>,
    i: int,
    rows: Seq<OpId>,
    cols: Seq<OpId>,
    rows2: Seq<OpId>,
    cols2: Seq<OpId>,
    w: Map<(u32, u32), TileWriters>,
)
    requires
        agree(w, ops, i, rows, cols),
        cover(w, ops, i, rows, cols),
        known(ops, i, rows, cols),
        extends(rows, rows2),
        extends(cols, cols2),
        distinct(rows2),
        distinct(cols2),
    ensures
        agree(w, ops, i, rows2, cols2),
        cover(w, ops, i, rows2, cols2),
        known(ops, i, rows2, cols2),
{
    lemma_lands_stable(ops, i, rows, cols, rows2, cols2);
    assert forall|j: int, k: (u32, u32), c: int, a: ActorId|
        0 <= j < i && #[trigger] write_lands(ops, j, rows2, cols2, k, c, a) implies w.contains_key(k) && exists|m: int|
            0 <= m < w[k].maps().len() && (#[trigger] w[k].maps()[m]).0 == a by {
        assert(write_lands(ops, j, rows, cols, k, c, a));
    }
}

proof fn lemma_tile_of_injective(rs: int, cs: int, rs2: int, cs2: int)
    requires
        0 <= rs < 0x1_0000_0000,
        0 <= cs < 0x1_0000_0000,
        0 <= rs2 < 0x1_0000_0000,
        0 <= cs2 < 0x1_0000_0000,
        tile_of(rs, cs) == tile_of(rs2, cs2),
    ensures
        rs == rs2,
        cs == cs2,
{
    lemma_split_index(rs / 256, 0);
    lemma_split_index(rs2 / 256, 0);
    let c = (rs % 256) * 64 + cs % 64;
    lemma_split_index(rs % 256, cs % 64);
    lemma_split_index(rs2 % 256, cs2 % 64);
    assert(rs % 256 == rs2 % 256);
    assert(cs % 64 == cs2 % 64);
    assert(rs / 256 == rs2 / 256);
    assert(cs / 64 == cs2 / 64);
}

/// A tile bit set by some write names the slots that write used.
proof fn lemma_tile_of_slots(rs: int, cs: int)
    requires
        0 <= rs < 0x1_0000_0000,
        0 <= cs < 0x1_0000_0000,
    ensures
        tile_of(rs, cs).0.0 * 256 + tile_of(rs, cs).1 / 64 == rs,
        tile_of(rs, cs).0.1 * 64 + tile_of(rs, cs).1 % 64 == cs,
        0 <= tile_of(rs, cs).1 < 16384,
{
    lemma_split_index(rs % 256, cs % 64);
}

/// A write lands on the tile cell of the slots it names, and only there.
proof fn lemma_landed_iff_written(
    ops: Seq<PlanOp>,
    rows: Seq<OpId>,
    cols: Seq<OpId>,
    rs: int,
    cs: int,
    a: ActorId,
)
    requires
        known(ops, ops.len() as int, rows, cols),
        distinct(rows),
        distinct(cols),
        rows.len() <= u32::MAX,
        cols.len() <= u32::MAX,
        0 <= rs < rows.len(),
        0 <= cs < cols.len(),
    ensures
        landed(ops, ops.len() as int, rows, cols, tile_of(rs, cs).0, tile_of(rs, cs).1, a) == written_by(
            ops,
            rows[rs],
            cols[cs],
            a,
        ),
{
    let (k, c) = tile_of(rs, cs);
    let n = ops.len() as int;
    lemma_slot_in(rows, rs);
    lemma_slot_in(cols, cs);
    if landed(ops, n, rows, cols, k, c, a) {
        let j = choose|j: int| 0 <= j < n && #[trigger] write_lands(ops, j, rows, cols, k, c, a);
        if let PlanOp::WriteCell { row, col, actor } = ops[j] {
            assert(rows.contains(row.0) && cols.contains(col.0));
            let sr = slot_in(rows, row.0);
            let sc = slot_in(cols, col.0);
            lemma_tile_of_injective(sr, sc, rs, cs);
            assert(writes(ops, j, rows[rs], cols[cs], a));
        }
    }
    if written_by(ops, rows[rs], cols[cs], a) {
        let j = choose|j: int| 0 <= j < n && #[trigger] writes(ops, j, rows[rs], cols[cs], a);
        assert(write_lands(ops, j, rows, cols, k, c, a));
    }
}

/// Runs the promotion pre-pass over ops in canonical order: interns row
/// and column identities in first-seen order, collects the cells formulas
/// name, and marks a cell contested exactly when two different actors wrote
/// it.
pub fn plan_promotions(ops: &[PlanOp]) -> (plan: Plan)
    requires
        ops@.len() < u32::MAX,
    ensures
        plan.rows.wf(),
        plan.cols.wf(),
        plan.rows.ids_view() == plan_rows(ops@),
        plan.cols.ids_view() == plan_cols(ops@),
        plan.formula_cells@ == formula_keys(ops@),
        forall|rs: int, cs: int|
            0 <= rs < plan.rows.ids_view().len() && 0 <= cs < plan.cols.ids_view().len() ==> (#[trigger] marked(
                plan.contested@,
                rs,
                cs,
            ) <==> contested_cell(ops@, plan.rows.ids_view()[rs], plan.cols.ids_view()[cs])),
        forall|k: (u32, u32), c: int|
            plan.contested@.contains_key(k) && 0 <= c < 16384 && #[trigger] present(plan.contested@[k]@, c) ==> k.0 * 256 + c
                / 64 < plan.rows.ids_view().len() && k.1 * 64 + c % 64 < plan.cols.ids_view().len(),
        forall|k: (u32, u32)| #[trigger]
            plan.contested@.contains_key(k) ==> exists|c: int| 0 <= c < 16384 && #[trigger] present(plan.contested@[k]@, c),
{
    let mut rows = SlotMap::new();
    let mut cols = SlotMap::new();
    let mut writers: BTreeMap<(u32, u32), TileWriters> = BTreeMap::new();
    let mut formula_cells: BTreeSet<((u128, u64), (u128, u64))> = BTreeSet::new();
    let n = ops.len();
    let mut i: usize = 0;
    proof {
        assert(ops@.take(0) =~= Seq::<PlanOp>::empty());
        assert(formula_cells@ =~= formula_keys(ops@.take(0)));
    }
    while i < n
        invariant
            n == ops@.len(),
            n < u32::MAX,
            i <= n,
            rows.wf(),
            cols.wf(),
            rows.ids_view() == plan_rows(ops@.take(i as int)),
            cols.ids_view() == plan_cols(ops@.take(i as int)),
            rows.ids_view().len() <= i,
            cols.ids_view().len() <= i,
            formula_cells@ == formula_keys(ops@.take(i as int)),
            agree(writers@, ops@, i as int, rows.ids_view(), cols.ids_view()),
            cover(writers@, ops@, i as int, rows.ids_view(), cols.ids_view()),
            known(ops@, i as int, rows.ids_view(), cols.ids_view()),
            all_wf(writers@),
        decreases n - i,
    {
        let ghost r0 = rows.ids_view();
        let ghost c0 = cols.ids_view();
        let ghost w0 = writers@;
        let ghost f0 = formula_cells@;
        proof {
            assert(ops@.take(i + 1).drop_last() =~= ops@.take(i as int));
            assert(ops@.take(i + 1).last() == ops@[i as int]);
            rows.lemma_distinct();
            cols.lemma_distinct();
        }
        match ops[i] {
            PlanOp::InsertRow(id) => {
                rows.intern(id);
                proof {
                    rows.lemma_distinct();
                    assert(rows.ids_view().subrange(0, r0.len() as int) =~= r0);
                    assert(c0.subrange(0, c0.len() as int) =~= c0);
                    assert(extends(r0, rows.ids_view()));
                    assert(extends(c0, c0));
                    lemma_transfer(ops@, i as int, r0, c0, rows.ids_view(), c0, w0);
                    lemma_nonwrite_step(ops@, i as int, rows.ids_view(), c0, w0);
                    assert(formula_keys(ops@.take(i + 1)) =~= formula_keys(ops@.take(i as int))) by {
                        assert forall|k| #[trigger] formula_keys(ops@.take(i + 1)).contains(k) implies formula_keys(ops@.take(i as int)).contains(k) by {
                            let j = choose|j: int| 0 <= j < i + 1 && (#[trigger] ops@.take(i + 1)[j] matches PlanOp::SetFormula { row, col } && k == (id_key(row.0), id_key(col.0)));
                            assert(ops@.take(i as int)[j] == ops@.take(i + 1)[j]);
                        }
                        assert forall|k| #[trigger] formula_keys(ops@.take(i as int)).contains(k) implies formula_keys(ops@.take(i + 1)).contains(k) by {
                            let j = choose|j: int| 0 <= j < i && (#[trigger] ops@.take(i as int)[j] matches PlanOp::SetFormula { row, col } && k == (id_key(row.0), id_key(col.0)));
                            assert(ops@.take(i as int)[j] == ops@.take(i + 1)[j]);
                        }
                    }
                }
            },
            PlanOp::InsertCol(id) => {
                cols.intern(id);
                proof {
                    cols.lemma_distinct();
                    assert(cols.ids_view().subrange(0, c0.len() as int) =~= c0);
                    assert(r0.subrange(0, r0.len() as int) =~= r0);
                    assert(extends(r0, r0));
                    assert(extends(c0, cols.ids_view()));
                    lemma_transfer(ops@, i as int, r0, c0, r0, cols.ids_view(), w0);
                    lemma_nonwrite_step(ops@, i as int, r0, cols.ids_view(), w0);
                    assert(formula_keys(ops@.take(i + 1)) =~= formula_keys(ops@.take(i as int))) by {
                        assert forall|k| #[trigger] formula_keys(ops@.take(i + 1)).contains(k) implies formula_keys(ops@.take(i as int)).contains(k) by {
                            let j = choose|j: int| 0 <= j < i + 1 && (#[trigger] ops@.take(i + 1)[j] matches PlanOp::SetFormula { row, col } && k == (id_key(row.0), id_key(col.0)));
                            assert(ops@.take(i as int)[j] == ops@.take(i + 1)[j]);
                        }
                        assert forall|k| #[trigger] formula_keys(ops@.take(i as int)).contains(k) implies formula_keys(ops@.take(i + 1)).contains(k) by {
                            let j = choose|j: int| 0 <= j < i && (#[trigger] ops@.take(i as int)[j] matches PlanOp::SetFormula { row, col } && k == (id_key(row.0), id_key(col.0)));
                            assert(ops@.take(i as int)[j] == ops@.take(i + 1)[j]);
                        }
                    }
                }
            },
            PlanOp::WriteCell { row, col, actor } => {
                let r = rows.intern(row.0);
                let c = cols.intern(col.0);
                let key = (r / TILE_ROWS, c / TILE_COLS);
                let idx = cell_index(r, c);
                let ghost r1 = rows.ids_view();
                let ghost c1 = cols.ids_view();
                proof {
                    rows.lemma_distinct();
                    cols.lemma_distinct();
                    assert(r1.subrange(0, r0.len() as int) =~= r0);
                    assert(c1.subrange(0, c0.len() as int) =~= c0);
                    assert(extends(r0, r1));
                    assert(extends(c0, c1));
                    lemma_transfer(ops@, i as int, r0, c0, r1, c1, w0);
                    lemma_slot_in(r1, r as int);
                    lemma_slot_in(c1, c as int);
                    assert(write_lands(ops@, i as int, r1, c1, key, idx as int, actor));
                    assert forall|k: (u32, u32), x: int, a: ActorId| #[trigger] write_lands(ops@, i as int, r1, c1, k, x, a) implies k == key && x == idx && a == actor by {}
                }
                let mut tw = match writers.remove(&key) {
                    Some(t) => t,
                    None => TileWriters::new(),
                };
                let ghost old_w = tw;
                tw.record(actor, idx);
                let ghost new_w = tw;
                writers.insert(key, tw);
                proof {
                    assert(writers@ =~= w0.insert(key, new_w));
                    lemma_write_step(ops@, i as int, r1, c1, w0, key, idx as int, actor, old_w, new_w);
                    assert forall|j: int| 0 <= j < i + 1 implies match #[trigger] ops@[j] {
                        PlanOp::WriteCell { row, col, .. } => r1.contains(row.0) && c1.contains(col.0),
                        _ => true,
                    } by {
                        if j == i {
                            assert(r1[r as int] == row.0);
                            assert(c1[c as int] == col.0);
                        }
                    }
                    assert(formula_keys(ops@.take(i + 1)) =~= formula_keys(ops@.take(i as int))) by {
                        assert forall|k| #[trigger] formula_keys(ops@.take(i + 1)).contains(k) implies formula_keys(ops@.take(i as int)).contains(k) by {
                            let j = choose|j: int| 0 <= j < i + 1 && (#[trigger] ops@.take(i + 1)[j] matches PlanOp::SetFormula { row, col } && k == (id_key(row.0), id_key(col.0)));
                            assert(ops@.take(i as int)[j] == ops@.take(i + 1)[j]);
                        }
                        assert forall|k| #[trigger] formula_keys(ops@.take(i as int)).contains(k) implies formula_keys(ops@.take(i + 1)).contains(k) by {
                            let j = choose|j: int| 0 <= j < i && (#[trigger] ops@.take(i as int)[j] matches PlanOp::SetFormula { row, col } && k == (id_key(row.0), id_key(col.0)));
                            assert(ops@.take(i as int)[j] == ops@.take(i + 1)[j]);
                        }
                    }
                }
            },
            PlanOp::SetFormula { row, col } => {
                let fk = ((row.0.actor.0, row.0.counter), (col.0.actor.0, col.0.counter));
                formula_cells.insert(fk);
                proof {
                    lemma_nonwrite_step(ops@, i as int, r0, c0, w0);
                    assert(formula_keys(ops@.take(i + 1)) =~= f0.insert(fk)) by {
                        assert forall|k| #[trigger] formula_keys(ops@.take(i + 1)).contains(k) implies f0.insert(fk).contains(k) by {
                            let j = choose|j: int| 0 <= j < i + 1 && (#[trigger] ops@.take(i + 1)[j] matches PlanOp::SetFormula { row, col } && k == (id_key(row.0), id_key(col.0)));
                            if j < i {
                                assert(ops@.take(i as int)[j] == ops@.take(i + 1)[j]);
                            }
                        }
                        assert forall|k| #[trigger] f0.insert(fk).contains(k) implies formula_keys(ops@.take(i + 1)).contains(k) by {
                            if k == fk {
                                assert(ops@.take(i + 1)[i as int] == ops@[i as int]);
                            } else {
                                let j = choose|j: int| 0 <= j < i && (#[trigger] ops@.take(i as int)[j] matches PlanOp::SetFormula { row, col } && k == (id_key(row.0), id_key(col.0)));
                                assert(ops@.take(i as int)[j] == ops@.take(i + 1)[j]);
                            }
                        }
                    }
                }
            },
            PlanOp::Other => {
                proof {
                    lemma_nonwrite_step(ops@, i as int, r0, c0, w0);
                    assert(formula_keys(ops@.take(i + 1)) =~= formula_keys(ops@.take(i as int))) by {
                        assert forall|k| #[trigger] formula_keys(ops@.take(i + 1)).contains(k) implies formula_keys(ops@.take(i as int)).contains(k) by {
                            let j = choose|j: int| 0 <= j < i + 1 && (#[trigger] ops@.take(i + 1)[j] matches PlanOp::SetFormula { row, col } && k == (id_key(row.0), id_key(col.0)));
                            assert(ops@.take(i as int)[j] == ops@.take(i + 1)[j]);
                        }
                        assert forall|k| #[trigger] formula_keys(ops@.take(i as int)).contains(k) implies formula_keys(ops@.take(i + 1)).contains(k) by {
                            let j = choose|j: int| 0 <= j < i && (#[trigger] ops@.take(i as int)[j] matches PlanOp::SetFormula { row, col } && k == (id_key(row.0), id_key(col.0)));
                            assert(ops@.take(i as int)[j] == ops@.take(i + 1)[j]);
                        }
                    }
                }
            },
        }
        i = i + 1;
    }
    proof {
        assert(ops@.take(n as int) =~= ops@);
    }
    let contested = collect_contested(&writers);
    proof {
        let rv = rows.ids_view();
        let cv = cols.ids_view();
        rows.lemma_distinct();
        cols.lemma_distinct();
        assert forall|rs: int, cs: int|
            0 <= rs < rv.len() && 0 <= cs < cv.len() implies (#[trigger] marked(contested@, rs, cs) <==> contested_cell(ops@, rv[rs], cv[cs])) by {
            let (k, c) = tile_of(rs, cs);
            lemma_tile_of_slots(rs, cs);
            if marked(contested@, rs, cs) {
                assert(writers@.contains_key(k));
                let maps = writers@[k].maps();
                lemma_holders_two(maps, c);
                let (m1, m2) = choose|m1: int, m2: int|
                    0 <= m1 < m2 < maps.len() && #[trigger] present(maps[m1].1@, c) && #[trigger] present(maps[m2].1@, c);
                let a1 = maps[m1].0;
                let a2 = maps[m2].0;
                assert(a1 != a2);
                lemma_landed_iff_written(ops@, rv, cv, rs, cs, a1);
                lemma_landed_iff_written(ops@, rv, cv, rs, cs, a2);
                assert(written_by(ops@, rv[rs], cv[cs], a1));
                assert(written_by(ops@, rv[rs], cv[cs], a2));
            }
            if contested_cell(ops@, rv[rs], cv[cs]) {
                let (a1, a2) = choose|a1: ActorId, a2: ActorId|
                    a1 != a2 && #[trigger] written_by(ops@, rv[rs], cv[cs], a1) && #[trigger] written_by(ops@, rv[rs], cv[cs], a2);
                lemma_landed_iff_written(ops@, rv, cv, rs, cs, a1);
                lemma_landed_iff_written(ops@, rv, cv, rs, cs, a2);
                let j1 = choose|j: int| 0 <= j < n && #[trigger] write_lands(ops@, j, rv, cv, k, c, a1);
                let j2 = choose|j: int| 0 <= j < n && #[trigger] write_lands(ops@, j, rv, cv, k, c, a2);
                assert(writers@.contains_key(k));
                let maps = writers@[k].maps();
                let m1 = choose|m: int| 0 <= m < maps.len() && (#[trigger] maps[m]).0 == a1;
                let m2 = choose|m: int| 0 <= m < maps.len() && (#[trigger] maps[m]).0 == a2;
                assert(present(maps[m1].1@, c));
                assert(present(maps[m2].1@, c));
                lemma_holders_two(maps, c);
                if m1 < m2 {
                    assert(holders(maps, c) >= 2);
                } else {
                    assert(m2 < m1);
                    assert(holders(maps, c) >= 2);
                }
                assert(contested@.contains_key(k));
            }
        }
        assert forall|k: (u32, u32), c: int|
            contested@.contains_key(k) && 0 <= c < 16384 && #[trigger] present(contested@[k]@, c) implies k.0 * 256 + c / 64
                < rv.len() && k.1 * 64 + c % 64 < cv.len() by {
            let maps = writers@[k].maps();
            lemma_holders_two(maps, c);
            let m = choose|m: int| 0 <= m < maps.len() && #[trigger] present(maps[m].1@, c);
            let j = choose|j: int| 0 <= j < n && #[trigger] write_lands(ops@, j, rv, cv, k, c, maps[m].0);
            if let PlanOp::WriteCell { row, col, actor } = ops@[j] {
                let sr = slot_in(rv, row.0);
                let sc = slot_in(cv, col.0);
                assert(rv.contains(row.0) && cv.contains(col.0));
                lemma_tile_of_slots(sr, sc);
            }
        }
        assert forall|k: (u32, u32)| #[trigger] contested@.contains_key(k) implies exists|c: int| 0 <= c < 16384 && #[trigger] present(contested@[k]@, c) by {
            let c = choose|c: int| 0 <= c < 16384 && #[trigger] holders(writers@[k].maps(), c) >= 2;
            assert(present(contested@[k]@, c));
        }
    }
    Plan { rows, cols, contested, formula_cells }
}

/// The contested bitmap of every tile that has a contested cell.
fn collect_contested(writers: &BTreeMap<(u32, u32), TileWriters>) -> (r: BTreeMap<(u32, u32), [u64; 256]>)
    requires
        all_wf(writers@),
    ensures
        forall|k: (u32, u32)| #[trigger] r@.contains_key(k) <==> (writers@.contains_key(k) && exists|c: int|
            0 <= c < 16384 && #[trigger] holders(writers@[k].maps(), c) >= 2),
        forall|k: (u32, u32), c: int|
            r@.contains_key(k) && 0 <= c < 16384 ==> #[trigger] present(r@[k]@, c) == (holders(writers@[k].maps(), c) >= 2),
{
    let mut out: BTreeMap<(u32, u32), [u64; 256]> = BTreeMap::new();
    let ghost mut covered: Set<(u32, u32)> = Set::empty();
    proof {
        if writers@.dom().len() == 0 {
            assert(writers@.dom() =~= Set::<(u32, u32)>::empty());
        }
    }
    for k in it: writers.keys()
        invariant
            all_wf(writers@),
            it.seq().unref().to_set() == writers@.dom(),
            covered == it.seq().take(it.index() as int).unref().to_set(),
            it.index() == it.seq().len() ==> covered == writers@.dom(),
            forall|x: (u32, u32)| #[trigger] out@.contains_key(x) <==> (covered.contains(x) && writers@.contains_key(x)
                && exists|c: int| 0 <= c < 16384 && #[trigger] holders(writers@[x].maps(), c) >= 2),
            forall|x: (u32, u32), c: int|
                out@.contains_key(x) && 0 <= c < 16384 ==> #[trigger] present(out@[x]@, c) == (holders(writers@[x].maps(), c) >= 2),
    {
        let ghost i = it.index() as int;
        proof {
            assert(*k == *it.seq()[i]);
            assert(it.seq().unref().to_set().contains(*k)) by {
                assert(it.seq().unref()[i] == *k);
            }
        }
        match writers.get(k) {
            Some(w) => {
                match w.contested_cells() {
                    Some(bm) => {
                        out.insert(*k, bm);
                    },
                    None => {},
                }
            },
            None => {},
        }
        proof {
            broadcast use vstd::seq_lib::group_seq_properties;
            assert(it.seq().take(i + 1).unref() =~= it.seq().take(i).unref().push(*k));
            assert(it.seq().take(i + 1).unref().to_set() =~= covered.insert(*k));
            covered = covered.insert(*k);
            assert(i + 1 == it.seq().len() ==> it.seq().take(i + 1) =~= it.seq());
        }
    }
    out
}

} // verus!
