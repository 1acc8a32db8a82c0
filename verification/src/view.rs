//! The A1 names of rows and columns, which are a view: identities are
//! permanent, labels are ordinals.

use vstd::prelude::*;
use crate::decimal::{digits_text, push_digits};
use crate::text::{ascii_chars, ascii_string};

verus! {

/// The bijective base-26 spelling of `n >= 1` in the letters `A` to `Z`:
/// 1 is `A`, 26 is `Z`, 27 is `AA`. Zero is the empty word.
pub open spec fn bijective26(n: nat) -> Seq<char>
    decreases n,
{
    if n == 0 {
        Seq::empty()
    } else {
        bijective26(((n - 1) / 26) as nat).push((65 + (n - 1) % 26) as char)
    }
}

/// The number a word of letters `A` to `Z` names in bijective base 26.
pub open spec fn bijective26_value(s: Seq<char>) -> int
    decreases s.len(),
{
    if s.len() == 0 {
        0
    } else {
        bijective26_value(s.drop_last()) * 26 + (s.last() as int - 64)
    }
}

/// Reading a label back gives the number it was made from.
pub proof fn lemma_bijective26_round_trip(n: nat)
    ensures
        bijective26_value(bijective26(n)) == n,
    decreases n,
{
    if n > 0 {
        let q = ((n - 1) / 26) as nat;
        lemma_bijective26_round_trip(q);
        let s = bijective26(n);
        assert(s.drop_last() == bijective26(q));
        assert((65 + (n - 1) % 26) as char as int == 65 + (n - 1) % 26);
    }
}

/// Column labels are bijective base 26: two columns have the same label only
/// if they are the same column, and every label names exactly one column.
pub proof fn lemma_column_labels_are_bijective(a: nat, b: nat)
    ensures
        bijective26(a + 1) == bijective26(b + 1) <==> a == b,
        bijective26_value(bijective26(a + 1)) == a + 1,
{
    lemma_bijective26_round_trip(a + 1);
    lemma_bijective26_round_trip(b + 1);
}

/// Every byte is an upper-case ASCII letter.
pub open spec fn all_letters(s: Seq<u8>) -> bool {
    forall|i: int| 0 <= i < s.len() ==> 65 <= #[trigger] s[i] < 91
}

/// A column's A1 label: bijective base 26, so the column after `Z` is `AA`.
pub fn column_label(index: usize) -> (r: String)
    requires
        index < usize::MAX,
    ensures
        r@ == bijective26((index + 1) as nat),
{
    let mut backwards: Vec<u8> = Vec::new();
    let mut n = index + 1;
    let ghost total = (index + 1) as nat;
    while n > 0
        invariant
            n <= total,
            all_letters(backwards@),
            bijective26(total) == bijective26(n as nat) + ascii_chars(backwards@).reverse(),
        decreases n,
    {
        let rem = (n - 1) % 26;
        let ghost before = backwards@;
        backwards.push(65 + rem as u8);
        proof {
            let q = ((n - 1) / 26) as nat;
            assert(bijective26(n as nat) == bijective26(q).push((65 + (n - 1) % 26) as char));
            assert(ascii_chars(backwards@).reverse() =~= seq![(65 + (n - 1) % 26) as char] + ascii_chars(
                before,
            ).reverse());
            assert(bijective26(total) =~= bijective26(q) + ascii_chars(backwards@).reverse());
        }
        n = (n - 1) / 26;
    }
    let mut out: Vec<u8> = Vec::new();
    let mut i = backwards.len();
    while i > 0
        invariant
            i <= backwards@.len(),
            all_letters(backwards@),
            all_letters(out@),
            ascii_chars(out@) =~= ascii_chars(backwards@.subrange(i as int, backwards@.len() as int)).reverse(),
        decreases i,
    {
        i = i - 1;
        let ghost before = out@;
        out.push(backwards[i]);
        proof {
            let n = backwards@.len() as int;
            let tail = backwards@.subrange(i + 1, n);
            let here = backwards@.subrange(i as int, n);
            assert(here =~= seq![backwards@[i as int]] + tail);
            assert(ascii_chars(here) =~= seq![backwards@[i as int] as char] + ascii_chars(tail));
            assert(ascii_chars(here).reverse() =~= ascii_chars(tail).reverse().push(
                backwards@[i as int] as char,
            ));
            assert(ascii_chars(out@) =~= ascii_chars(before).push(backwards@[i as int] as char));
            assert(ascii_chars(out@) =~= ascii_chars(here).reverse());
        }
    }
    proof {
        assert(backwards@.subrange(0, backwards@.len() as int) =~= backwards@);
        assert(bijective26(0) =~= Seq::<char>::empty());
        assert(bijective26(total) =~= ascii_chars(out@));
    }
    ascii_string(out.as_slice())
}

/// A row's A1 label: its 1-based number in decimal.
pub fn row_label(index: usize) -> (r: String)
    requires
        index < usize::MAX,
    ensures
        r@ == digits_text((index + 1) as nat),
{
    let mut out = String::new();
    push_digits(&mut out, (index + 1) as u128);
    out
}

} // verus!
