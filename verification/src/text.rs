//! UTF-8 facts the parsers share: where a valid byte string may be cut, and
//! turning checked bytes into text.

use vstd::prelude::*;
use vstd::string::StringSliceAdditionalSpecFns;
use vstd::utf8::*;

verus! {

/// `str::from_utf8`: the text the bytes spell, when they are valid UTF-8.
#[verifier::external_body]
pub fn utf8_text<'b>(bytes: &'b [u8]) -> (r: Option<&'b str>)
    ensures
        r is Some <==> valid_utf8(bytes@),
        r matches Some(s) ==> s.spec_bytes() == bytes@,
{
    core::str::from_utf8(bytes).ok()
}

/// In valid UTF-8, the byte after an ASCII byte starts a character.
pub proof fn lemma_after_ascii(b: Seq<u8>, i: int)
    requires
        valid_utf8(b),
        0 <= i < b.len(),
        b[i] <= 0x7f,
    ensures
        i + 1 == b.len() || !is_continuation_byte(b[i + 1]),
    decreases b.len(),
{
    let l = length_of_first_scalar(b);
    let pop = pop_first_scalar(b);
    assert(valid_first_scalar(b) && valid_utf8(pop));
    if i == 0 {
        assert(l == 1);
        if b.len() > 1 {
            assert(pop[0] == b[1]);
            assert(pop.len() > 0);
            assert(valid_first_scalar(pop));
        }
    } else if i < l {
        assert(is_continuation_byte(b[i]));
    } else {
        assert(pop[i - l] == b[i]);
        lemma_after_ascii(pop, i - l);
        if i + 1 < b.len() {
            assert(pop[i - l + 1] == b[i + 1]);
        }
    }
}

/// Cutting valid UTF-8 where neither end falls inside a character leaves
/// valid UTF-8.
pub proof fn lemma_valid_subrange(b: Seq<u8>, a: int, c: int)
    requires
        valid_utf8(b),
        0 <= a <= c <= b.len(),
        a == b.len() || !is_continuation_byte(b[a]),
        c == b.len() || !is_continuation_byte(b[c]),
    ensures
        valid_utf8(b.subrange(a, c)),
{
    if c == b.len() {
        is_char_boundary_start_end_of_seq(b);
    } else {
        is_char_boundary_iff_not_is_continuation_byte(b, c);
    }
    valid_utf8_split(b, c);
    let p = b.subrange(0, c);
    if a == c {
        is_char_boundary_start_end_of_seq(p);
    } else {
        assert(p[a] == b[a]);
        is_char_boundary_iff_not_is_continuation_byte(p, a);
    }
    valid_utf8_split(p, a);
    assert(p.subrange(a, p.len() as int) =~= b.subrange(a, c));
}

/// The bytes of a Rust string are valid UTF-8.
pub proof fn lemma_str_valid(s: &str)
    ensures
        valid_utf8(s.spec_bytes()),
{
    encode_utf8_valid_utf8(s@);
}

/// Byte-wise equality of two slices.
pub fn same_bytes(a: &[u8], b: &[u8]) -> (r: bool)
    ensures
        r == (a@ == b@),
{
    if a.len() != b.len() {
        return false;
    }
    let mut i: usize = 0;
    while i < a.len()
        invariant
            i <= a@.len(),
            a@.len() == b@.len(),
            forall|j: int| 0 <= j < i ==> a@[j] == b@[j],
        decreases a@.len() - i,
    {
        if a[i] != b[i] {
            return false;
        }
        i = i + 1;
    }
    proof {
        assert(a@ =~= b@);
    }
    true
}

/// ASCII bytes read as characters.
pub open spec fn ascii_chars(b: Seq<u8>) -> Seq<char> {
    Seq::new(b.len(), |i: int| b[i] as char)
}

/// ASCII bytes are valid UTF-8, one character each.
pub proof fn lemma_ascii_text(b: Seq<u8>)
    requires
        forall|i: int| 0 <= i < b.len() ==> b[i] < 128,
    ensures
        valid_utf8(b),
        decode_utf8(b) == ascii_chars(b),
    decreases b.len(),
{
    if b.len() > 0 {
        let rest = b.drop_first();
        lemma_ascii_text(rest);
        let c = b[0];
        assert((c & 0x7f) == c) by (bit_vector)
            requires
                c < 128,
        ;
        assert(pop_first_scalar(b) =~= rest);
        assert(valid_first_scalar(b));
        assert(decode_utf8(b) =~= ascii_chars(b));
    } else {
        assert(decode_utf8(b) =~= ascii_chars(b));
    }
}

/// Text made of ASCII bytes.
pub fn ascii_string(bytes: &[u8]) -> (r: String)
    requires
        forall|i: int| 0 <= i < bytes@.len() ==> bytes@[i] < 128,
    ensures
        r@ == ascii_chars(bytes@),
{
    proof {
        lemma_ascii_text(bytes@);
    }
    match utf8_text(bytes) {
        Some(t) => {
            proof {
                encode_utf8_decode_utf8(t@);
            }
            t.to_owned()
        },
        None => String::new(),
    }
}

} // verus!
