//! A pull XML reader for OOXML parts.
//!
//! There is no code here that resolves a DTD or an external entity: a
//! `<!DOCTYPE` or `<!ENTITY` declaration is refused outright. Only the five
//! predefined entities and numeric character references are expanded, and
//! neither can nest, so expansion is bounded by the input. Namespaces are not
//! resolved: `<x:c>` yields the name `x:c`, and consumers compare local names.

use vstd::prelude::*;
use vstd::string::StringSliceAdditionalSpecFns;
use vstd::utf8::*;
use crate::text::{utf8_text, same_bytes, lemma_after_ascii, lemma_valid_subrange, lemma_str_valid};
use crate::decimal::digit_bytes;

verus! {

/// Nesting depth.
pub const MAX_DEPTH: usize = 256;
/// Attributes on one element.
pub const MAX_ATTRIBUTES: usize = 256;
/// Bytes in one element or attribute name.
pub const MAX_NAME_BYTES: usize = 1024;
/// Bytes in one text node or attribute value.
pub const MAX_TEXT_BYTES: usize = 0x10_0000;

/// Why a document cannot be read. `at` is a byte offset into the document.
#[derive(Clone, PartialEq, Eq, Debug)]
pub enum XmlError {
    /// The document ended inside a construct.
    Truncated { at: usize },
    /// A `<!DOCTYPE` or `<!ENTITY` declaration: refused, not ignored.
    DoctypeRefused { at: usize },
    /// An entity other than the five predefined ones or a numeric character
    /// reference.
    UnknownEntity { at: usize, name: String },
    /// A numeric character reference outside the Unicode scalar range.
    BadCharacterReference { at: usize },
    /// A closing tag that does not match the open one.
    MismatchedTag { at: usize, expected: String, found: String },
    /// A cap was exceeded.
    CapExceeded { at: usize, cap: &'static str },
    Malformed { at: usize, what: &'static str },
}

/// An element's name and attributes.
#[derive(Clone, PartialEq, Eq, Debug, Default)]
pub struct Element {
    pub name: String,
    pub attributes: Vec<(String, String)>,
    /// `<a/>` rather than `<a>`. A self-closing element still produces a
    /// matching end event.
    pub self_closing: bool,
}

// ------------------------------------------------------------- local names

/// The position of the last `:` before `i`, or -1.
pub open spec fn last_colon(b: Seq<u8>, i: int) -> int
    decreases i,
{
    if i <= 0 {
        -1
    } else if b[i - 1] == 58 {
        i - 1
    } else {
        last_colon(b, i - 1)
    }
}

/// The bytes of a name after its last `:`.
pub open spec fn local_bytes(b: Seq<u8>) -> Seq<u8> {
    b.subrange(last_colon(b, b.len() as int) + 1, b.len() as int)
}

proof fn lemma_last_colon(b: Seq<u8>, i: int)
    requires
        0 <= i <= b.len(),
    ensures
        -1 <= last_colon(b, i) < i,
        last_colon(b, i) >= 0 ==> b[last_colon(b, i)] == 58,
    decreases i,
{
    if i > 0 && b[i - 1] != 58 {
        lemma_last_colon(b, i - 1);
    }
}

/// The local part of a possibly prefixed name: `x:c` becomes `c`.
pub fn local(name: &str) -> (r: &str)
    ensures
        r.spec_bytes() == local_bytes(name.spec_bytes()),
{
    let b = name.as_bytes();
    let n = b.len();
    let mut i = n;
    while i > 0 && b[i - 1] != 58
        invariant
            i <= n,
            n == b@.len(),
            last_colon(b@, n as int) == last_colon(b@, i as int),
        decreases i,
    {
        i = i - 1;
    }
    if i == 0 {
        proof {
            assert(b@.subrange(0, n as int) =~= b@);
        }
        return name;
    }
    proof {
        lemma_str_valid(name);
        lemma_after_ascii(b@, i - 1);
        if i == n {
            is_char_boundary_start_end_of_seq(b@);
        } else {
            is_char_boundary_iff_not_is_continuation_byte(b@, i as int);
        }
    }
    let (_, rest) = name.split_at(i);
    rest
}

impl Element {
    /// The name without its namespace prefix.
    pub fn local_name(&self) -> (r: &str)
        ensures
            r.spec_bytes() == local_bytes(encode_utf8(self.name@)),
    {
        local(self.name.as_str())
    }

    /// The first attribute whose local name is `name`, prefix-insensitive.
    pub fn attribute(&self, name: &str) -> (r: Option<&str>)
        ensures
            r matches Some(v) ==> exists|k: int|
                0 <= k < self.attributes@.len() && local_bytes(
                    encode_utf8(#[trigger] self.attributes@[k].0@),
                ) == name.spec_bytes() && v@ == self.attributes@[k].1@ && forall|j: int|
                    0 <= j < k ==> local_bytes(encode_utf8(self.attributes@[j].0@))
                        != name.spec_bytes(),
            r is None ==> forall|k: int|
                0 <= k < self.attributes@.len() ==> local_bytes(
                    encode_utf8(#[trigger] self.attributes@[k].0@),
                ) != name.spec_bytes(),
    {
        let wanted = name.as_bytes();
        let mut k: usize = 0;
        while k < self.attributes.len()
            invariant
                k <= self.attributes@.len(),
                wanted@ == name.spec_bytes(),
                forall|j: int|
                    0 <= j < k ==> local_bytes(encode_utf8(#[trigger] self.attributes@[j].0@))
                        != name.spec_bytes(),
            decreases self.attributes@.len() - k,
        {
            let key = local(self.attributes[k].0.as_str());
            if same_bytes(key.as_bytes(), wanted) {
                let value = self.attributes[k].1.as_str();
                proof {
                    assert(local_bytes(encode_utf8(self.attributes@[k as int].0@))
                        == name.spec_bytes());
                }
                return Some(value);
            }
            k = k + 1;
        }
        None
    }
}

// ------------------------------------------------------------- searching

/// `needle` occurs at `i` in `hay`.
pub open spec fn occurs_at(hay: Seq<u8>, needle: Seq<u8>, i: int) -> bool {
    0 <= i && i + needle.len() <= hay.len() && hay.subrange(i, i + needle.len()) == needle
}

/// The first position of a non-empty `needle` in `hay`.
fn find(hay: &[u8], needle: &[u8]) -> (r: Option<usize>)
    ensures
        r matches Some(i) ==> needle@.len() > 0 && occurs_at(hay@, needle@, i as int) && forall|j: int|
            0 <= j < i ==> !occurs_at(hay@, needle@, j),
        r is None ==> needle@.len() == 0 || forall|j: int| !occurs_at(hay@, needle@, j),
{
    let n = needle.len();
    let h = hay.len();
    if n == 0 || h < n {
        return None;
    }
    let mut i: usize = 0;
    while i <= h - n
        invariant
            n == needle@.len(),
            h == hay@.len(),
            0 < n <= h,
            i <= h - n + 1,
            forall|j: int| 0 <= j < i ==> !occurs_at(hay@, needle@, j),
        decreases h - n + 1 - i,
    {
        let window = &hay[i..i + n];
        if same_bytes(window, needle) {
            return Some(i);
        }
        i = i + 1;
    }
    None
}

/// The first position at or after `from` holding `c`.
pub open spec fn index_of(b: Seq<u8>, c: u8, from: int) -> Option<int>
    decreases b.len() - from,
{
    if from >= b.len() || from < 0 {
        None
    } else if b[from] == c {
        Some(from)
    } else {
        index_of(b, c, from + 1)
    }
}

proof fn lemma_index_of_suffix(b: Seq<u8>, c: u8, from: int, k: int)
    requires
        0 <= from <= b.len(),
        0 <= k,
    ensures
        index_of(b.subrange(from, b.len() as int), c, k) == (match index_of(b, c, from + k) {
            Some(i) => Some(i - from),
            None => None::<int>,
        }),
    decreases b.len() - from - k,
{
    if from + k < b.len() && b[from + k] != c {
        lemma_index_of_suffix(b, c, from, k + 1);
    }
}

pub proof fn lemma_index_of(b: Seq<u8>, c: u8, from: int)
    requires
        0 <= from,
    ensures
        index_of(b, c, from) matches Some(i) ==> from <= i < b.len() && b[i] == c && forall|j: int|
            from <= j < i ==> b[j] != c,
        index_of(b, c, from) is None ==> forall|j: int| from <= j < b.len() ==> b[j] != c,
    decreases b.len() - from,
{
    if from < b.len() && b[from] != c {
        lemma_index_of(b, c, from + 1);
    }
}

/// The first position at or after `from` holding `c`.
fn position_of(b: &[u8], c: u8, from: usize) -> (r: Option<usize>)
    requires
        from <= b@.len(),
    ensures
        r == (match index_of(b@, c, from as int) {
            Some(i) => Some(i as usize),
            None => None::<usize>,
        }),
{
    let mut i = from;
    while i < b.len()
        invariant
            from <= i <= b@.len(),
            index_of(b@, c, from as int) == index_of(b@, c, i as int),
        decreases b@.len() - i,
    {
        if b[i] == c {
            return Some(i);
        }
        i = i + 1;
    }
    None
}

// ---------------------------------------------------------------- entities

/// The value of an ASCII digit in `radix` (10 or 16), or -1.
pub open spec fn digit_value(c: u8, radix: int) -> int {
    if 48 <= c <= 57 {
        c - 48
    } else if radix == 16 && 97 <= c <= 102 {
        c - 87
    } else if radix == 16 && 65 <= c <= 70 {
        c - 55
    } else {
        -1
    }
}

/// The number a run of digits spells, most significant first.
pub open spec fn digits_number(s: Seq<u8>, radix: int) -> int
    decreases s.len(),
{
    if s.len() == 0 {
        0
    } else {
        digits_number(s.drop_last(), radix) * radix + digit_value(s.last(), radix)
    }
}

/// `s` without one leading `+`.
pub open spec fn unsigned_body(s: Seq<u8>) -> Seq<u8> {
    if s.len() >= 1 && s[0] == 43 {
        s.drop_first()
    } else {
        s
    }
}

/// Every byte of `s` is a digit in `radix`.
pub open spec fn all_digits(s: Seq<u8>, radix: int) -> bool {
    forall|i: int| 0 <= i < s.len() ==> #[trigger] digit_value(s[i], radix) >= 0
}

/// How `u32`'s string parser reads `s` in `radix`: an optional `+`, at least
/// one digit, and a value that fits.
pub open spec fn parse_u32(s: Seq<u8>, radix: int) -> Option<u32> {
    let body = unsigned_body(s);
    if body.len() >= 1 && all_digits(body, radix) && digits_number(body, radix) <= u32::MAX {
        Some(digits_number(body, radix) as u32)
    } else {
        None
    }
}

/// A numeric character reference's value: `#` then decimal digits, or `#x`
/// (or `#X`) then hexadecimal digits.
pub open spec fn char_ref_value(name: Seq<u8>) -> Option<u32> {
    if name.len() >= 1 && name[0] == 35 {
        let digits = name.drop_first();
        if digits.len() >= 1 && (digits[0] == 120 || digits[0] == 88) {
            parse_u32(digits.drop_first(), 16)
        } else {
            parse_u32(digits, 10)
        }
    } else {
        None
    }
}

/// The hexadecimal digits in order, in lower or upper case.
pub open spec fn hex_alphabet(upper: bool) -> Seq<u8> {
    if upper {
        seq![48u8, 49, 50, 51, 52, 53, 54, 55, 56, 57, 65, 66, 67, 68, 69, 70]
    } else {
        seq![48u8, 49, 50, 51, 52, 53, 54, 55, 56, 57, 97, 98, 99, 100, 101, 102]
    }
}

/// `n` written in base 16, most significant digit first.
pub open spec fn hex_spelling(n: nat, upper: bool) -> Seq<u8>
    decreases n,
{
    if n < 16 {
        seq![hex_alphabet(upper)[n as int]]
    } else {
        hex_spelling(n / 16, upper).push(hex_alphabet(upper)[(n % 16) as int])
    }
}

/// The `k`th hexadecimal digit, in either case, is worth `k`.
proof fn lemma_hex_digit(k: int, upper: bool)
    requires
        0 <= k < 16,
    ensures
        digit_value(hex_alphabet(upper)[k], 16) == k,
{
        if k == 0 {
            assert(hex_alphabet(upper)[0] == (if upper { 48u8 } else { 48u8 }));
        } else if k == 1 {
            assert(hex_alphabet(upper)[1] == (if upper { 49u8 } else { 49u8 }));
        } else if k == 2 {
            assert(hex_alphabet(upper)[2] == (if upper { 50u8 } else { 50u8 }));
        } else if k == 3 {
            assert(hex_alphabet(upper)[3] == (if upper { 51u8 } else { 51u8 }));
        } else if k == 4 {
            assert(hex_alphabet(upper)[4] == (if upper { 52u8 } else { 52u8 }));
        } else if k == 5 {
            assert(hex_alphabet(upper)[5] == (if upper { 53u8 } else { 53u8 }));
        } else if k == 6 {
            assert(hex_alphabet(upper)[6] == (if upper { 54u8 } else { 54u8 }));
        } else if k == 7 {
            assert(hex_alphabet(upper)[7] == (if upper { 55u8 } else { 55u8 }));
        } else if k == 8 {
            assert(hex_alphabet(upper)[8] == (if upper { 56u8 } else { 56u8 }));
        } else if k == 9 {
            assert(hex_alphabet(upper)[9] == (if upper { 57u8 } else { 57u8 }));
        } else if k == 10 {
            assert(hex_alphabet(upper)[10] == (if upper { 65u8 } else { 97u8 }));
        } else if k == 11 {
            assert(hex_alphabet(upper)[11] == (if upper { 66u8 } else { 98u8 }));
        } else if k == 12 {
            assert(hex_alphabet(upper)[12] == (if upper { 67u8 } else { 99u8 }));
        } else if k == 13 {
            assert(hex_alphabet(upper)[13] == (if upper { 68u8 } else { 100u8 }));
        } else if k == 14 {
            assert(hex_alphabet(upper)[14] == (if upper { 69u8 } else { 101u8 }));
        } else if k == 15 {
            assert(hex_alphabet(upper)[15] == (if upper { 70u8 } else { 102u8 }));
        }
}

/// Base 16 read back: the spelling of `n` is all digits, does not start
/// with `+`, and spells `n`.
proof fn lemma_hex_spelling(n: nat, upper: bool)
    ensures
        hex_spelling(n, upper).len() >= 1,
        all_digits(hex_spelling(n, upper), 16),
        digits_number(hex_spelling(n, upper), 16) == n,
        unsigned_body(hex_spelling(n, upper)) == hex_spelling(n, upper),
    decreases n,
{
    let h = hex_spelling(n, upper);
    if n < 16 {
        lemma_hex_digit(n as int, upper);
        assert(h.drop_last() =~= Seq::<u8>::empty());
        assert(h.last() == h[0]);
        assert(digit_value(h[0], 16) == n);
        assert(digits_number(h.drop_last(), 16) == 0);
        assert(digits_number(h, 16) == n);
    } else {
        lemma_hex_spelling(n / 16, upper);
        lemma_hex_digit((n % 16) as int, upper);
        let prefix = hex_spelling(n / 16, upper);
        assert(h.drop_last() =~= prefix);
        assert forall|i: int| 0 <= i < h.len() implies #[trigger] digit_value(h[i], 16) >= 0 by {
            if i < prefix.len() {
                assert(h[i] == prefix[i]);
            }
        }
        assert(h[0] == prefix[0]);
        assert(h.last() == hex_alphabet(upper)[(n % 16) as int]);
        vstd::arithmetic::div_mod::lemma_fundamental_div_mod(n as int, 16);
        assert(digits_number(h, 16) == (n / 16) * 16 + n % 16);
        assert(digits_number(h, 16) == n);
    }
    assert(digit_value(h[0], 16) >= 0);
}

/// A hexadecimal character reference names the code point its digits spell
/// in base 16, in either letter case: `&#x` then the base-16 spelling of `n`
/// (lower or upper case) stands for `n`.
pub proof fn lemma_hex_reference(n: u32, upper: bool)
    ensures
        char_ref_value(seq![35u8, 120] + hex_spelling(n as nat, upper)) == Some(n),
        char_ref_value(seq![35u8, 88] + hex_spelling(n as nat, upper)) == Some(n),
{
    lemma_hex_spelling(n as nat, upper);
    let h = hex_spelling(n as nat, upper);
    assert((seq![35u8, 120] + h).drop_first() =~= seq![120u8] + h);
    assert((seq![120u8] + h).drop_first() =~= h);
    assert((seq![35u8, 88] + h).drop_first() =~= seq![88u8] + h);
    assert((seq![88u8] + h).drop_first() =~= h);
}

/// Base 10 read back: the decimal spelling of `n` is all digits, does not
/// start with `+`, and spells `n`.
proof fn lemma_decimal_spelling(n: nat)
    ensures
        digit_bytes(n).len() >= 1,
        all_digits(digit_bytes(n), 10),
        digits_number(digit_bytes(n), 10) == n,
        unsigned_body(digit_bytes(n)) == digit_bytes(n),
    decreases n,
{
    let h = digit_bytes(n);
    if n < 10 {
        assert(h.drop_last() =~= Seq::<u8>::empty());
        assert(h.last() == h[0]);
        assert(digits_number(h.drop_last(), 10) == 0);
    } else {
        lemma_decimal_spelling(n / 10);
        let prefix = digit_bytes(n / 10);
        assert(h.drop_last() =~= prefix);
        assert forall|i: int| 0 <= i < h.len() implies #[trigger] digit_value(h[i], 10) >= 0 by {
            if i < prefix.len() {
                assert(h[i] == prefix[i]);
            }
        }
        assert(h[0] == prefix[0]);
        vstd::arithmetic::div_mod::lemma_fundamental_div_mod(n as int, 10);
        assert(digits_number(h, 10) == (n / 10) * 10 + n % 10);
    }
    assert(digit_value(h[0], 10) >= 0);
}

/// A decimal character reference names the code point its digits spell in
/// base 10: `&#` then the decimal spelling of `n` stands for `n`.
pub proof fn lemma_decimal_reference(n: u32)
    ensures
        char_ref_value(seq![35u8] + digit_bytes(n as nat)) == Some(n),
{
    lemma_decimal_spelling(n as nat);
    let h = digit_bytes(n as nat);
    assert((seq![35u8] + h).drop_first() =~= h);
    assert(digit_value(h[0], 10) >= 0);
}

proof fn lemma_digits_number_nonneg(s: Seq<u8>, radix: int)
    requires
        radix == 10 || radix == 16,
        all_digits(s, radix),
    ensures
        digits_number(s, radix) >= 0,
    decreases s.len(),
{
    if s.len() > 0 {
        lemma_digits_number_nonneg(s.drop_last(), radix);
    }
}

proof fn lemma_digits_number_mono(s: Seq<u8>, radix: int, i: int)
    requires
        radix == 10 || radix == 16,
        0 <= i <= s.len(),
        all_digits(s, radix),
    ensures
        digits_number(s.take(i), radix) <= digits_number(s, radix),
    decreases s.len() - i,
{
    if i < s.len() {
        lemma_digits_number_mono(s, radix, i + 1);
        assert(s.take(i + 1).drop_last() =~= s.take(i));
        assert(all_digits(s.take(i), radix));
        lemma_digits_number_nonneg(s.take(i), radix);
        assert(digits_number(s.take(i), radix) <= digits_number(s.take(i + 1), radix)) by (
        nonlinear_arith)
            requires
                digits_number(s.take(i + 1), radix) == digits_number(s.take(i), radix) * radix
                    + digit_value(s[i], radix),
                digits_number(s.take(i), radix) >= 0,
                digit_value(s[i], radix) >= 0,
                radix >= 10,
        ;
    } else {
        assert(s.take(i) =~= s);
    }
}

proof fn lemma_parse_none(s: Seq<u8>, radix: int, bad: int)
    requires
        0 <= bad < unsigned_body(s).len(),
        digit_value(unsigned_body(s)[bad], radix) < 0,
    ensures
        parse_u32(s, radix) is None,
{
    assert(!all_digits(unsigned_body(s), radix));
}

/// Parses a run of digits the way `u32::from_str_radix` does.
fn parse_digits(s: &[u8], radix: u64) -> (r: Option<u32>)
    requires
        radix == 10 || radix == 16,
    ensures
        r == parse_u32(s@, radix as int),
{
    let n = s.len();
    let start: usize = if n >= 1 && s[0] == 43 {
        1
    } else {
        0
    };
    let ghost body = unsigned_body(s@);
    proof {
        assert(body =~= s@.subrange(start as int, n as int));
    }
    if start == n {
        return None;
    }
    let mut value: u64 = 0;
    let mut i = start;
    while i < n
        invariant
            start <= i <= n,
            n == s@.len(),
            start < n,
            body =~= s@.subrange(start as int, n as int),
            body == unsigned_body(s@),
            radix == 10 || radix == 16,
            all_digits(body.take(i - start), radix as int),
            value == digits_number(body.take(i - start), radix as int),
            value <= u32::MAX,
        decreases n - i,
    {
        let c = s[i];
        let d: u64 = if 48 <= c && c <= 57 {
            (c - 48) as u64
        } else if radix == 16 && 97 <= c && c <= 102 {
            (c - 87) as u64
        } else if radix == 16 && 65 <= c && c <= 70 {
            (c - 55) as u64
        } else {
            proof {
                assert(digit_value(body[i - start], radix as int) < 0);
                lemma_parse_none(s@, radix as int, i - start);
            }
            return None;
        };
        proof {
            assert(body.take(i - start + 1).drop_last() =~= body.take(i - start));
            assert(body[i - start] == c);
        }
        value = value * radix + d;
        i = i + 1;
        if value > 0xFFFF_FFFF {
            proof {
                if all_digits(body, radix as int) {
                    lemma_digits_number_mono(body, radix as int, i - start);
                }
                assert(parse_u32(s@, radix as int) is None);
            }
            return None;
        }
    }
    proof {
        assert(body.take(n - start) =~= body);
    }
    Some(value as u32)
}

/// The value of a numeric character reference, if `name` is one.
fn character_reference(name: &[u8]) -> (r: Option<u32>)
    ensures
        r == char_ref_value(name@),
{
    let n = name.len();
    if n == 0 || name[0] != 35 {
        return None;
    }
    if n >= 2 && (name[1] == 120 || name[1] == 88) {
        let hex = &name[2..n];
        proof {
            assert(hex@ =~= name@.drop_first().drop_first());
        }
        parse_digits(hex, 16)
    } else {
        let dec = &name[1..n];
        proof {
            assert(dec@ =~= name@.drop_first());
        }
        parse_digits(dec, 10)
    }
}

/// The byte one of the five predefined entities stands for.
pub open spec fn predefined_entity(name: Seq<u8>) -> Option<u8> {
    if name == seq![108u8, 116u8] {
        Some(60u8)
    } else if name == seq![103u8, 116u8] {
        Some(62u8)
    } else if name == seq![97u8, 109u8, 112u8] {
        Some(38u8)
    } else if name == seq![113u8, 117u8, 111u8, 116u8] {
        Some(34u8)
    } else if name == seq![97u8, 112u8, 111u8, 115u8] {
        Some(39u8)
    } else {
        None
    }
}

/// Why expansion stopped: the `&` had no `;` after it.
pub open spec fn unterminated() -> int {
    0
}

/// Why expansion stopped: a name that is neither predefined nor a reference.
pub open spec fn unknown() -> int {
    1
}

/// Why expansion stopped: a reference to something that is not a scalar.
pub open spec fn bad_reference() -> int {
    2
}

/// Expands entities in `rest`: the five predefined ones and numeric character
/// references, each written back as UTF-8. A failure carries its kind, the
/// offset of its `&` within the text that remained when it was reached, and
/// the bytes after that `&` (the whole rest of the text for an unterminated
/// reference, the name otherwise).
pub open spec fn expand(rest: Seq<u8>) -> Result<Seq<u8>, (int, int, Seq<u8>)>
    decreases rest.len(),
{
    match index_of(rest, 38, 0) {
        None => Ok(rest),
        Some(amp) => {
            let tail = rest.subrange(amp + 1, rest.len() as int);
            match index_of(tail, 59, 0) {
                None => Err((unterminated(), amp, tail)),
                Some(end) => {
                    let name = tail.subrange(0, end);
                    let after = tail.subrange(end + 1, tail.len() as int);
                    proof {
                        lemma_index_of(rest, 38, 0);
                        lemma_index_of(tail, 59, 0);
                    }
                    let piece: Result<Seq<u8>, (int, int, Seq<u8>)> = match piece_of(name) {
                        Ok(p) => Ok(p),
                        Err(kind) => Err((kind, amp, name)),
                    };
                    match piece {
                        Err(e) => Err(e),
                        Ok(p) => match expand(after) {
                            Ok(t) => Ok(rest.subrange(0, amp) + p + t),
                            Err(e) => Err(e),
                        },
                    }
                },
            }
        },
    }
}

/// Where a preview of at most 16 bytes may stop without cutting a character:
/// the largest cut at or below `k`.
pub open spec fn cut_back(t: Seq<u8>, k: int) -> int
    decreases k,
{
    if k <= 0 || k >= t.len() || !is_continuation_byte(t[k]) {
        k
    } else {
        cut_back(t, k - 1)
    }
}

/// The first bytes of an unterminated reference that an error names: up to
/// 16, ending on a character boundary.
pub open spec fn preview(t: Seq<u8>) -> Seq<u8> {
    t.subrange(0, cut_back(t, if t.len() < 16 { t.len() as int } else { 16 }))
}

proof fn lemma_cut_back(t: Seq<u8>, k: int)
    requires
        0 <= k <= t.len(),
    ensures
        0 <= cut_back(t, k) <= k,
        cut_back(t, k) == 0 || cut_back(t, k) == t.len() || !is_continuation_byte(t[cut_back(t, k)]),
    decreases k,
{
    if !(k <= 0 || k >= t.len() || !is_continuation_byte(t[k])) {
        lemma_cut_back(t, k - 1);
    }
}

/// What a terminated reference `&name;` expands to, or why it cannot be.
pub open spec fn piece_of(name: Seq<u8>) -> Result<Seq<u8>, int> {
    match predefined_entity(name) {
        Some(c) => Ok(seq![c]),
        None => match char_ref_value(name) {
            None => Err(unknown()),
            Some(v) => if is_scalar(v) {
                Ok(encode_scalar(v))
            } else {
                Err(bad_reference())
            },
        },
    }
}

/// `expand` of the remaining text, after the expansion so far.
pub open spec fn after_prefix(
    prefix: Seq<u8>,
    r: Result<Seq<u8>, (int, int, Seq<u8>)>,
) -> Result<Seq<u8>, (int, int, Seq<u8>)> {
    match r {
        Ok(t) => Ok(prefix + t),
        Err(e) => Err(e),
    }
}

proof fn lemma_after_prefix_assoc(a: Seq<u8>, b: Seq<u8>, r: Result<Seq<u8>, (int, int, Seq<u8>)>)
    ensures
        after_prefix(a, after_prefix(b, r)) == after_prefix(a + b, r),
{
    if r is Ok {
        assert(a + (b + r->Ok_0) =~= (a + b) + r->Ok_0);
    }
}

/// Appends the UTF-8 encoding of a scalar value.
fn push_scalar(out: &mut Vec<u8>, v: u32)
    requires
        is_scalar(v),
    ensures
        final(out)@ == old(out)@ + encode_scalar(v),
{
    if v <= 0x7F {
        out.push((v & 0x7F) as u8);
    } else if v <= 0x7FF {
        out.push(0xC0 | ((v >> 6) & 0x1F) as u8);
        out.push(0x80 | (v & 0x3F) as u8);
    } else if v <= 0xFFFF {
        out.push(0xE0 | ((v >> 12) & 0x0F) as u8);
        out.push(0x80 | ((v >> 6) & 0x3F) as u8);
        out.push(0x80 | (v & 0x3F) as u8);
    } else {
        out.push(0xF0 | ((v >> 18) & 0x7) as u8);
        out.push(0x80 | ((v >> 12) & 0x3F) as u8);
        out.push(0x80 | ((v >> 6) & 0x3F) as u8);
        out.push(0x80 | (v & 0x3F) as u8);
    }
    proof {
        assert(final(out)@ =~= old(out)@ + encode_scalar(v));
    }
}

proof fn lemma_scalar_valid(v: u32)
    requires
        is_scalar(v),
    ensures
        valid_utf8(encode_scalar(v)),
{
    let c = v as char;
    assert(c as u32 == v);
    let cs = seq![c];
    assert(encode_utf8(cs) =~= encode_scalar(v) + encode_utf8(cs.drop_first()));
    assert(cs.drop_first() =~= Seq::<char>::empty());
    assert(encode_utf8(Seq::<char>::empty()) =~= Seq::<u8>::empty());
    encode_utf8_valid_utf8(cs);
    assert(encode_utf8(cs) =~= encode_scalar(v));
}

/// Appends `b[from..to]`.
fn push_range(out: &mut Vec<u8>, b: &[u8], from: usize, to: usize)
    requires
        from <= to <= b@.len(),
    ensures
        final(out)@ == old(out)@ + b@.subrange(from as int, to as int),
{
    let mut i = from;
    while i < to
        invariant
            from <= i <= to <= b@.len(),
            out@ == old(out)@ + b@.subrange(from as int, i as int),
        decreases to - i,
    {
        out.push(b[i]);
        i = i + 1;
        proof {
            assert(out@ =~= old(out)@ + b@.subrange(from as int, i as int));
        }
    }
}

/// Appends what `&name;` expands to.
fn append_piece(out: &mut Vec<u8>, name: &[u8]) -> (r: Result<(), u8>)
    ensures
        match piece_of(name@) {
            Ok(p) => r is Ok && final(out)@ == old(out)@ + p && valid_utf8(p),
            Err(kind) => r matches Err(k) && k == kind && final(out)@ == old(out)@,
        },
{
    let c = predefined(name);
    if c != 0 {
        out.push(c);
        proof {
            assert(((c as u32) & 0x7F) as u8 == c) by (bit_vector)
                requires
                    c < 128,
            ;
            assert(seq![c] =~= encode_scalar(c as u32));
            lemma_scalar_valid(c as u32);
        }
        return Ok(());
    }
    match character_reference(name) {
        None => Err(1),
        Some(v) => {
            if v > 0x10FFFF || (0xD800 <= v && v <= 0xDFFF) {
                return Err(2);
            }
            proof {
                lemma_scalar_valid(v);
            }
            push_scalar(out, v);
            Ok(())
        },
    }
}

/// The preview an unterminated reference's error carries: up to 16 bytes
/// after the `&`, ending on a character boundary.
fn preview_text(raw: &[u8], tail_start: usize) -> (r: String)
    requires
        valid_utf8(raw@),
        0 < tail_start <= raw@.len(),
        raw@[tail_start - 1] <= 0x7f,
    ensures
        encode_utf8(r@) == preview(raw@.subrange(tail_start as int, raw@.len() as int)),
{
    let n = raw.len();
    let ghost tail = raw@.subrange(tail_start as int, n as int);
    let len = n - tail_start;
    let mut k: usize = if len < 16 {
        len
    } else {
        16
    };
    let ghost k0 = k as int;
    while k > 0 && k < len && raw[tail_start + k] >= 0x80 && raw[tail_start + k] <= 0xBF
        invariant
            tail_start + len == n,
            n == raw@.len(),
            tail =~= raw@.subrange(tail_start as int, n as int),
            0 <= k <= k0 <= len,
            k0 == (if len < 16 { len as int } else { 16 }),
            cut_back(tail, k0) == cut_back(tail, k as int),
        decreases k,
    {
        k = k - 1;
    }
    proof {
        lemma_cut_back(tail, k as int);
        lemma_after_ascii(raw@, tail_start - 1);
        lemma_valid_subrange(raw@, tail_start as int, (tail_start + k) as int);
        assert(raw@.subrange(tail_start as int, (tail_start + k) as int) =~= preview(tail));
    }
    text_of(&raw[tail_start..tail_start + k])
}

/// Text from bytes already shown to be valid UTF-8.
fn text_of(b: &[u8]) -> (r: String)
    requires
        valid_utf8(b@),
    ensures
        encode_utf8(r@) == b@,
        r@ == decode_utf8(b@),
{
    match utf8_text(b) {
        Some(t) => {
            proof {
                encode_utf8_decode_utf8(t@);
            }
            t.to_owned()
        },
        None => String::new(),
    }
}

/// What expanding `raw`, found at byte `offset` of the document, gives:
/// invalid UTF-8 is malformed text; otherwise the expansion, or the error for
/// the reference it stopped at (offsets are those `expand` reports, shifted
/// by `offset`).
pub open spec fn unescape_outcome(raw: Seq<u8>, offset: int, r: Result<String, XmlError>) -> bool {
    if !valid_utf8(raw) {
        r == Err::<String, XmlError>(XmlError::Malformed { at: offset as usize, what: "text is not UTF-8" })
    } else {
        match expand(raw) {
            Ok(t) => r matches Ok(s) && encode_utf8(s@) == t,
            Err((kind, amp, name)) => if kind == unterminated() {
                r matches Err(XmlError::UnknownEntity { at, name: n }) && at == offset + amp
                    && encode_utf8(n@) == preview(name)
            } else if kind == unknown() {
                r matches Err(XmlError::UnknownEntity { at, name: n }) && at == offset + amp
                    && encode_utf8(n@) == name
            } else {
                r matches Err(XmlError::BadCharacterReference { at }) && at == offset + amp
            },
        }
    }
}

/// Expands the five predefined entities and numeric character references in
/// `raw`, which starts at byte `offset` of the document. An unknown entity is
/// an error, never a lookup.
#[verifier::rlimit(100)]
#[verifier::spinoff_prover]
fn unescape(raw: &[u8], offset: usize) -> (r: Result<String, XmlError>)
    requires
        offset + raw@.len() <= usize::MAX,
    ensures
        unescape_outcome(raw@, offset as int, r),
{
    let n = raw.len();
    if utf8_text(raw).is_none() {
        return Err(XmlError::Malformed { at: offset, what: "text is not UTF-8" });
    }
    let mut out: Vec<u8> = Vec::new();
    let mut pos: usize = 0;
    proof {
        assert(raw@.subrange(0, n as int) =~= raw@);
        lemma_valid_subrange(raw@, 0, 0);
    }
    loop
        invariant
            n == raw@.len(),
            offset + n <= usize::MAX,
            valid_utf8(raw@),
            pos <= n,
            pos == n || !is_continuation_byte(raw@[pos as int]),
            valid_utf8(out@),
            expand(raw@) == after_prefix(out@, expand(raw@.subrange(pos as int, n as int))),
        ensures
            pos == n,
            valid_utf8(out@),
            expand(raw@) == after_prefix(out@, expand(raw@.subrange(pos as int, n as int))),
        decreases n - pos,
    {
        let ghost rest = raw@.subrange(pos as int, n as int);
        proof {
            lemma_index_of(rest, 38, 0);
        }
        match position_of(raw, 38, pos) {
            None => {
                proof {
                    lemma_index_of_suffix(raw@, 38, pos as int, 0);
                    lemma_valid_subrange(raw@, pos as int, n as int);
                    vstd::utf8::valid_utf8_concat(out@, raw@.subrange(pos as int, n as int));
                }
                push_range(&mut out, raw, pos, n);
                pos = n;
                proof {
                    assert(raw@.subrange(n as int, n as int) =~= Seq::<u8>::empty());
                    assert(out@ + Seq::<u8>::empty() =~= out@);
                }
                break;
            },
            Some(amp_abs) => {
                proof {
                    lemma_index_of_suffix(raw@, 38, pos as int, 0);
                    lemma_index_of(raw@, 38, pos as int);
                    lemma_valid_subrange(raw@, pos as int, amp_abs as int);
                    lemma_after_ascii(raw@, amp_abs as int);
                }
                let amp = amp_abs - pos;
                let tail_start = amp_abs + 1;
                let ghost tail = rest.subrange(amp + 1, rest.len() as int);
                proof {
                    assert(tail =~= raw@.subrange(tail_start as int, n as int));
                    lemma_index_of_suffix(raw@, 59, tail_start as int, 0);
                    lemma_index_of(raw@, 59, tail_start as int);
                }
                match position_of(raw, 59, tail_start) {
                    None => {
                        let name = preview_text(raw, tail_start);
                        return Err(XmlError::UnknownEntity { at: offset + amp, name });
                    },
                    Some(semi) => {
                        let ghost end = (semi - tail_start) as int;
                        let name = &raw[tail_start..semi];
                        proof {
                            assert(name@ =~= tail.subrange(0, end));
                            lemma_valid_subrange(raw@, tail_start as int, semi as int);
                        }
                        let ghost out0 = out@;
                        push_range(&mut out, raw, pos, amp_abs);
                        let ghost out1 = out@;
                        match append_piece(&mut out, name) {
                            Ok(()) => {},
                            Err(kind) => {
                                if kind == 1 {
                                    let text = text_of(name);
                                    return Err(XmlError::UnknownEntity { at: offset + amp, name: text });
                                }
                                return Err(XmlError::BadCharacterReference { at: offset + amp });
                            },
                        }
                        proof {
                            let seg = raw@.subrange(pos as int, amp_abs as int);
                            let p = piece_of(name@)->Ok_0;
                            let after = tail.subrange(end + 1, tail.len() as int);
                            lemma_after_ascii(raw@, semi as int);
                            assert(after =~= raw@.subrange(semi + 1, n as int));
                            vstd::utf8::valid_utf8_concat(out0, seg);
                            vstd::utf8::valid_utf8_concat(out1, p);
                            assert(rest.subrange(0, amp as int) =~= seg);
                            assert(expand(rest) == after_prefix(seg + p, expand(after)));
                            lemma_after_prefix_assoc(out0, seg + p, expand(after));
                            assert(out0 + (seg + p) =~= out@);
                        }
                        pos = semi + 1;
                    },
                }
            },
        }
    }
    proof {
        assert(raw@.subrange(n as int, n as int) =~= Seq::<u8>::empty());
    }
    Ok(text_of(out.as_slice()))
}

/// The byte a predefined entity name stands for, or 0 when it is none of the
/// five.
fn predefined(name: &[u8]) -> (r: u8)
    ensures
        r == (match predefined_entity(name@) {
            Some(c) => c,
            None => 0u8,
        }),
{
    proof {
        assert(seq![108u8, 116u8].len() == 2);
    }
    let n = name.len();
    if n == 2 && name[0] == 108 && name[1] == 116 {
        assert(name@ =~= seq![108u8, 116u8]);
        60
    } else if n == 2 && name[0] == 103 && name[1] == 116 {
        assert(name@ =~= seq![103u8, 116u8]);
        62
    } else if n == 3 && name[0] == 97 && name[1] == 109 && name[2] == 112 {
        assert(name@ =~= seq![97u8, 109u8, 112u8]);
        38
    } else if n == 4 && name[0] == 113 && name[1] == 117 && name[2] == 111 && name[3] == 116 {
        assert(name@ =~= seq![113u8, 117u8, 111u8, 116u8]);
        34
    } else if n == 4 && name[0] == 97 && name[1] == 112 && name[2] == 111 && name[3] == 115 {
        assert(name@ =~= seq![97u8, 112u8, 111u8, 115u8]);
        39
    } else {
        proof {
            if name@ == seq![108u8, 116u8] {
                assert(name@[0] == 108u8);
            }
            if name@ == seq![103u8, 116u8] {
                assert(name@[0] == 103u8);
            }
            if name@ == seq![97u8, 109u8, 112u8] {
                assert(name@[2] == 112u8);
            }
            if name@ == seq![113u8, 117u8, 111u8, 116u8] {
                assert(name@[0] == 113u8);
            }
            if name@ == seq![97u8, 112u8, 111u8, 115u8] {
                assert(name@[1] == 112u8);
            }
        }
        0
    }
}

// ------------------------------------------------------------------ reader

/// What the reader reports.
#[derive(Clone, PartialEq, Eq, Debug)]
pub enum Event {
    Start(Element),
    End(String),
    /// Character data, entities already expanded. Text that is only
    /// whitespace between elements is not reported; CDATA always is.
    Text(String),
}

/// ASCII whitespace as `u8::is_ascii_whitespace` defines it.
pub open spec fn is_space(c: u8) -> bool {
    c == 32 || c == 9 || c == 10 || c == 12 || c == 13
}

/// A space, tab, carriage return or line feed: what text may hold and still
/// count as nothing between elements.
pub open spec fn is_blank(c: u8) -> bool {
    c == 32 || c == 9 || c == 13 || c == 10
}

/// Text made only of blanks.
pub open spec fn all_blank(t: Seq<u8>) -> bool {
    forall|i: int| 0 <= i < t.len() ==> is_blank(t[i])
}

/// Whether every byte is a blank.
fn blank_only(b: &[u8]) -> (r: bool)
    ensures
        r == all_blank(b@),
{
    let mut i: usize = 0;
    while i < b.len()
        invariant
            i <= b@.len(),
            forall|j: int| 0 <= j < i ==> is_blank(b@[j]),
        decreases b@.len() - i,
    {
        let c = b[i];
        if !(c == 32 || c == 9 || c == 13 || c == 10) {
            return false;
        }
        i = i + 1;
    }
    true
}

/// Where whitespace starting at `p` ends.
pub open spec fn space_end(b: Seq<u8>, p: int) -> int
    decreases b.len() - p,
{
    if p >= b.len() || p < 0 || !is_space(b[p]) {
        p
    } else {
        space_end(b, p + 1)
    }
}

/// A byte that ends a name: whitespace, `>`, `/` or `=`.
pub open spec fn ends_name(c: u8) -> bool {
    is_space(c) || c == 62 || c == 47 || c == 61
}

/// Where a name starting at `p` ends.
pub open spec fn name_stop(b: Seq<u8>, p: int) -> int
    decreases b.len() - p,
{
    if p >= b.len() || p < 0 || ends_name(b[p]) {
        p
    } else {
        name_stop(b, p + 1)
    }
}

pub proof fn lemma_space_end(b: Seq<u8>, p: int)
    requires
        0 <= p <= b.len(),
    ensures
        p <= space_end(b, p) <= b.len(),
    decreases b.len() - p,
{
    if p < b.len() && is_space(b[p]) {
        lemma_space_end(b, p + 1);
    }
}

pub proof fn lemma_name_stop(b: Seq<u8>, p: int)
    requires
        0 <= p <= b.len(),
    ensures
        p <= name_stop(b, p) <= b.len(),
    decreases b.len() - p,
{
    if p < b.len() && !ends_name(b[p]) {
        lemma_name_stop(b, p + 1);
    }
}

/// The UTF-8 byte order mark, which a part may begin with.
pub open spec fn without_bom(b: Seq<u8>) -> Seq<u8> {
    if b.len() >= 3 && b[0] == 0xEF && b[1] == 0xBB && b[2] == 0xBF {
        b.subrange(3, b.len() as int)
    } else {
        b
    }
}

/// A pull reader over one XML document.
pub struct Reader<'a> {
    bytes: &'a [u8],
    at: usize,
    open: Vec<String>,
    /// The end event owed after a self-closing tag.
    pending_end: Option<String>,
    failed: bool,
}

impl<'a> Reader<'a> {
    pub closed spec fn doc(&self) -> Seq<u8> {
        self.bytes@
    }

    pub closed spec fn pos(&self) -> int {
        self.at as int
    }

    /// The names of the open elements, outermost first.
    pub closed spec fn open_names(&self) -> Seq<Seq<char>> {
        self.open@.map_values(|s: String| s@)
    }

    /// The end event owed after a self-closing tag, if any.
    pub closed spec fn pending(&self) -> Option<Seq<char>> {
        match self.pending_end {
            Some(s) => Some(s@),
            None => None,
        }
    }

    pub closed spec fn spent(&self) -> bool {
        self.failed
    }

    /// Twice the bytes left, plus one while an end event is owed: every
    /// event lowers it.
    pub open spec fn progress(&self) -> int {
        2 * (self.doc().len() - self.pos()) + if self.pending() is Some {
            1int
        } else {
            0int
        }
    }

    /// The reader's invariant: the position is within the document, the
    /// nesting is within `MAX_DEPTH`, and an owed end event names the
    /// innermost open element.
    pub closed spec fn wf(&self) -> bool {
        &&& self.at <= self.bytes@.len()
        &&& self.open@.len() <= MAX_DEPTH
        &&& self.pending_end matches Some(n) ==> self.open@.len() > 0 && self.open@.last()@ == n@
    }

    /// A reader at the start of `bytes`, past a byte order mark if there is
    /// one.
    pub fn new(bytes: &'a [u8]) -> (r: Reader<'a>)
        ensures
            r.wf(),
            r.doc() == without_bom(bytes@),
            r.pos() == 0,
            r.open_names().len() == 0,
            r.pending() is None,
            !r.spent(),
    {
        let n = bytes.len();
        let body = if n >= 3 && bytes[0] == 0xEF && bytes[1] == 0xBB && bytes[2] == 0xBF {
            &bytes[3..n]
        } else {
            bytes
        };
        Reader { bytes: body, at: 0, open: Vec::new(), pending_end: None, failed: false }
    }

    /// How many elements are open.
    pub fn depth(&self) -> (r: usize)
        ensures
            r == self.open_names().len(),
    {
        self.open.len()
    }

    /// The byte at the current position.
    fn byte(&self) -> (r: Option<u8>)
        ensures
            r == (if self.at < self.bytes@.len() {
                Some(self.bytes@[self.at as int])
            } else {
                None::<u8>
            }),
    {
        if self.at < self.bytes.len() {
            Some(self.bytes[self.at])
        } else {
            None
        }
    }

    /// Skips ASCII whitespace.
    fn skip_space(&mut self)
        requires
            old(self).at <= old(self).bytes@.len(),
        ensures
            final(self).at == space_end(old(self).bytes@, old(self).at as int),
            final(self).bytes == old(self).bytes,
            final(self).open == old(self).open,
            final(self).pending_end == old(self).pending_end,
            final(self).failed == old(self).failed,
    {
        while self.at < self.bytes.len() && (self.bytes[self.at] == 32 || self.bytes[self.at] == 9
            || self.bytes[self.at] == 10 || self.bytes[self.at] == 12 || self.bytes[self.at] == 13)
            invariant
                self.at <= self.bytes@.len(),
                self.bytes == old(self).bytes,
                self.open == old(self).open,
                self.pending_end == old(self).pending_end,
                self.failed == old(self).failed,
                space_end(self.bytes@, old(self).at as int) == space_end(self.bytes@, self.at as int),
            decreases self.bytes@.len() - self.at,
        {
            self.at = self.at + 1;
        }
    }

    /// A name: the bytes up to whitespace, `>`, `/` or `=`.
    fn name(&mut self) -> (r: Result<String, XmlError>)
        requires
            old(self).at <= old(self).bytes@.len(),
        ensures
            ({
                let b = old(self).bytes@;
                let p = old(self).at as int;
                let e = name_stop(b, p);
                &&& final(self).at == e
                &&& e == p ==> r == Err::<String, XmlError>(
                    XmlError::Malformed { at: p as usize, what: "empty name" },
                )
                &&& e > p && e - p > MAX_NAME_BYTES ==> r == Err::<String, XmlError>(
                    XmlError::CapExceeded { at: p as usize, cap: "MAX_NAME_BYTES" },
                )
                &&& e > p && e - p <= MAX_NAME_BYTES && !valid_utf8(b.subrange(p, e)) ==> r
                    == Err::<String, XmlError>(
                    XmlError::Malformed { at: p as usize, what: "name is not UTF-8" },
                )
                &&& r is Ok <==> e > p && e - p <= MAX_NAME_BYTES && valid_utf8(b.subrange(p, e))
                &&& r matches Ok(s) ==> encode_utf8(s@) == b.subrange(p, e)
            }),
            final(self).bytes == old(self).bytes,
            final(self).open == old(self).open,
            final(self).pending_end == old(self).pending_end,
            final(self).failed == old(self).failed,
    {
        let start = self.at;
        let n = self.bytes.len();
        while self.at < n && !(self.bytes[self.at] == 32 || self.bytes[self.at] == 9
            || self.bytes[self.at] == 10 || self.bytes[self.at] == 12 || self.bytes[self.at] == 13
            || self.bytes[self.at] == 62 || self.bytes[self.at] == 47 || self.bytes[self.at] == 61)
            invariant
                n == self.bytes@.len(),
                start <= self.at <= n,
                self.bytes == old(self).bytes,
                self.open == old(self).open,
                self.pending_end == old(self).pending_end,
                self.failed == old(self).failed,
                start == old(self).at,
                name_stop(self.bytes@, start as int) == name_stop(self.bytes@, self.at as int),
            decreases n - self.at,
        {
            self.at = self.at + 1;
        }
        if self.at == start {
            return Err(XmlError::Malformed { at: start, what: "empty name" });
        }
        if self.at - start > MAX_NAME_BYTES {
            return Err(XmlError::CapExceeded { at: start, cap: "MAX_NAME_BYTES" });
        }
        match utf8_text(&self.bytes[start..self.at]) {
            Some(t) => {
                proof {
                    encode_utf8_decode_utf8(t@);
                }
                Ok(t.to_owned())
            },
            None => Err(XmlError::Malformed { at: start, what: "name is not UTF-8" }),
        }
    }

    /// Whether the document continues at the current position with `lit`.
    fn starts_with(&self, lit: &[u8]) -> (r: bool)
        requires
            self.at <= self.bytes@.len(),
        ensures
            r == (self.at + lit@.len() <= self.bytes@.len() && self.bytes@.subrange(
                self.at as int,
                self.at + lit@.len(),
            ) == lit@),
    {
        let n = self.bytes.len();
        if n - self.at < lit.len() {
            return false;
        }
        same_bytes(&self.bytes[self.at..self.at + lit.len()], lit)
    }

    /// A quoted attribute value, entities expanded.
    fn attribute_value(&mut self) -> (r: Result<String, XmlError>)
        requires
            old(self).at <= old(self).bytes@.len(),
        ensures
            ({
                let b = old(self).bytes@;
                let p = old(self).at as int;
                &&& p >= b.len() ==> r == Err::<String, XmlError>(XmlError::Truncated { at: p as usize })
                &&& p < b.len() && b[p] != 34 && b[p] != 39 ==> r == Err::<String, XmlError>(
                    XmlError::Malformed { at: p as usize, what: "unquoted attribute value" },
                )
                &&& p < b.len() && (b[p] == 34 || b[p] == 39) ==> match index_of(b, b[p], p + 1) {
                    None => r == Err::<String, XmlError>(XmlError::Truncated { at: (p + 1) as usize }),
                    Some(close) => if close - (p + 1) > MAX_TEXT_BYTES {
                        r == Err::<String, XmlError>(
                            XmlError::CapExceeded { at: (p + 1) as usize, cap: "MAX_TEXT_BYTES" },
                        )
                    } else {
                        unescape_outcome(b.subrange(p + 1, close), p + 1, r) && final(self).at
                            == close + 1
                    },
                }
                &&& final(self).at <= b.len()
                &&& final(self).at >= p
                &&& r is Ok ==> final(self).at > p
            }),
            final(self).bytes == old(self).bytes,
            final(self).open == old(self).open,
            final(self).pending_end == old(self).pending_end,
            final(self).failed == old(self).failed,
    {
        let n = self.bytes.len();
        let quote = match self.byte() {
            Some(q) => q,
            None => return Err(XmlError::Truncated { at: self.at }),
        };
        if quote != 34 && quote != 39 {
            return Err(XmlError::Malformed { at: self.at, what: "unquoted attribute value" });
        }
        let start = self.at + 1;
        proof {
            lemma_index_of(self.bytes@, quote, start as int);
        }
        let close = match position_of(self.bytes, quote, start) {
            Some(c) => c,
            None => return Err(XmlError::Truncated { at: start }),
        };
        if close - start > MAX_TEXT_BYTES {
            return Err(XmlError::CapExceeded { at: start, cap: "MAX_TEXT_BYTES" });
        }
        self.at = close + 1;
        unescape(&self.bytes[start..close], start)
    }

    /// Character data up to the next `<`. Text that is only spaces, tabs and
    /// line breaks comes back empty.
    fn text(&mut self) -> (r: Result<String, XmlError>)
        requires
            old(self).at <= old(self).bytes@.len(),
        ensures
            ({
                let b = old(self).bytes@;
                let p = old(self).at as int;
                let e = match index_of(b, 60, p) {
                    Some(i) => i,
                    None => b.len() as int,
                };
                let raw = b.subrange(p, e);
                &&& final(self).at == e
                &&& e - p > MAX_TEXT_BYTES ==> r == Err::<String, XmlError>(
                    XmlError::CapExceeded { at: p as usize, cap: "MAX_TEXT_BYTES" },
                )
                &&& e - p <= MAX_TEXT_BYTES ==> {
                    &&& r is Err ==> unescape_outcome(raw, p, r)
                    &&& r is Ok <==> valid_utf8(raw) && expand(raw) is Ok
                    &&& r matches Ok(s) ==> if all_blank(expand(raw)->Ok_0) {
                        s@.len() == 0
                    } else {
                        encode_utf8(s@) == expand(raw)->Ok_0
                    }
                }
            }),
            final(self).bytes == old(self).bytes,
            final(self).open == old(self).open,
            final(self).pending_end == old(self).pending_end,
            final(self).failed == old(self).failed,
    {
        let start = self.at;
        let n = self.bytes.len();
        proof {
            lemma_index_of(self.bytes@, 60, start as int);
        }
        let end = match position_of(self.bytes, 60, start) {
            Some(i) => i,
            None => n,
        };
        self.at = end;
        if end - start > MAX_TEXT_BYTES {
            return Err(XmlError::CapExceeded { at: start, cap: "MAX_TEXT_BYTES" });
        }
        let text = match unescape(&self.bytes[start..end], start) {
            Ok(t) => t,
            Err(e) => return Err(e),
        };
        if blank_only(text.as_str().as_bytes()) {
            return Ok(String::new());
        }
        Ok(text)
    }

    /// Skips past `terminator`, searching from two bytes on; `start` is where
    /// the construct began.
    fn skip_to(&mut self, terminator: &[u8], start: usize) -> (r: Result<(), XmlError>)
        requires
            old(self).at + 2 <= old(self).bytes@.len(),
        ensures
            ({
                let b = old(self).bytes@;
                let from = old(self).at + 2;
                let hay = b.subrange(from, b.len() as int);
                &&& r is Ok <==> terminator@.len() > 0 && exists|j: int| occurs_at(hay, terminator@, j)
                &&& r is Err ==> r == Err::<(), XmlError>(XmlError::Truncated { at: start })
                    && final(self).at == old(self).at
                &&& r is Ok ==> final(self).at > old(self).at && final(self).at <= b.len()
                    && exists|j: int| occurs_at(hay, terminator@, j) && final(self).at == from + j
                    + terminator@.len() && forall|i: int| 0 <= i < j ==> !occurs_at(hay, terminator@, i)
            }),
            final(self).bytes == old(self).bytes,
            final(self).open == old(self).open,
            final(self).pending_end == old(self).pending_end,
            final(self).failed == old(self).failed,
    {
        let n = self.bytes.len();
        let from = self.at + 2;
        match find(&self.bytes[from..n], terminator) {
            None => Err(XmlError::Truncated { at: start }),
            Some(found) => {
                self.at = from + found + terminator.len();
                Ok(())
            },
        }
    }
}

/// How one event changes the reader's open elements and owed end event: a
/// start opens its element (and owes its end, if self-closing), an end closes
/// the innermost open element, which it names, and text or nothing leaves
/// both alone.
pub open spec fn event_step(
    open: Seq<Seq<char>>,
    pending: Option<Seq<char>>,
    open2: Seq<Seq<char>>,
    pending2: Option<Seq<char>>,
    ev: Option<Event>,
) -> bool {
    match ev {
        None => open2 == open && pending2 == pending,
        Some(Event::Start(e)) => {
            &&& open2 == open.push(e.name@)
            &&& open2.len() <= MAX_DEPTH
            &&& pending2 == (if e.self_closing {
                Some(e.name@)
            } else {
                None::<Seq<char>>
            })
            &&& e.attributes@.len() <= MAX_ATTRIBUTES
            &&& 0 < encode_utf8(e.name@).len() <= MAX_NAME_BYTES
        },
        Some(Event::End(n)) => {
            &&& open.len() > 0
            &&& open.last() == n@
            &&& open2 == open.drop_last()
            &&& pending2 is None
        },
        Some(Event::Text(_)) => open2 == open && pending2 == pending,
    }
}

/// The rest of a start tag from `p`, after its name and `k` attributes:
/// each further attribute (a name, `=`, and a quoted value whose entities
/// expand, as bytes), then `>` or `/>`, whitespace allowed between. Gives the
/// attributes, where the tag ends and whether it closes itself; `None` when
/// the tag is malformed, truncated or over a cap.
#[verifier::opaque]
pub open spec fn tag_rest(b: Seq<u8>, p: int, k: int) -> Option<(Seq<(Seq<u8>, Seq<u8>)>, int, bool)>
    decreases b.len() - p,
{
    if p < 0 || p > b.len() {
        None
    } else {
        let q = space_end(b, p);
        proof {
            lemma_space_end(b, p);
        }
        if q >= b.len() {
            None
        } else if b[q] == 62 {
            Some((Seq::empty(), q + 1, false))
        } else if b[q] == 47 {
            if q + 1 < b.len() && b[q + 1] == 62 {
                Some((Seq::empty(), q + 2, true))
            } else {
                None
            }
        } else if k >= MAX_ATTRIBUTES {
            None
        } else {
            let ke = name_stop(b, q);
            proof {
                lemma_name_stop(b, q);
            }
            if !(ke > q && ke - q <= MAX_NAME_BYTES && valid_utf8(b.subrange(q, ke))) {
                None
            } else {
                let eq = space_end(b, ke);
                proof {
                    lemma_space_end(b, ke);
                }
                if !(eq < b.len() && b[eq] == 61) {
                    None
                } else {
                    let v = space_end(b, eq + 1);
                    proof {
                        lemma_space_end(b, eq + 1);
                    }
                    if !(v < b.len() && (b[v] == 34 || b[v] == 39)) {
                        None
                    } else {
                        proof {
                            lemma_index_of(b, b[v], v + 1);
                        }
                        match index_of(b, b[v], v + 1) {
                            None => None,
                            Some(close) => {
                                let raw = b.subrange(v + 1, close);
                                if close - (v + 1) > MAX_TEXT_BYTES || !valid_utf8(raw) || expand(
                                    raw,
                                ) is Err {
                                    None
                                } else {
                                    match tag_rest(b, close + 1, k + 1) {
                                        None => None,
                                        Some(t) => Some(
                                            (
                                                seq![(b.subrange(q, ke), expand(raw)->Ok_0)] + t.0,
                                                t.1,
                                                t.2,
                                            ),
                                        ),
                                    }
                                }
                            },
                        }
                    }
                }
            }
        }
    }
}

/// `o` with `pre` in front of its attributes.
pub open spec fn prefixed(
    pre: Seq<(Seq<u8>, Seq<u8>)>,
    o: Option<(Seq<(Seq<u8>, Seq<u8>)>, int, bool)>,
) -> Option<(Seq<(Seq<u8>, Seq<u8>)>, int, bool)> {
    match o {
        None => None,
        Some(t) => Some((pre + t.0, t.1, t.2)),
    }
}

/// Attributes as strings spell these attributes as bytes.
pub open spec fn attrs_spell(a: Seq<(String, String)>, bytes: Seq<(Seq<u8>, Seq<u8>)>) -> bool {
    &&& a.len() == bytes.len()
    &&& forall|i: int|
        0 <= i < a.len() ==> encode_utf8((#[trigger] a[i]).0@) == bytes[i].0 && encode_utf8(a[i].1@)
            == bytes[i].1
}

/// Where a start tag's name, beginning after its `<` at `start`, ends.
pub open spec fn tag_name_end(b: Seq<u8>, start: int) -> int {
    name_stop(b, start + 1)
}

/// The start tag's name is present, within `MAX_NAME_BYTES`, and UTF-8.
pub open spec fn tag_name_ok(b: Seq<u8>, start: int) -> bool {
    let e = tag_name_end(b, start);
    e > start + 1 && e - (start + 1) <= MAX_NAME_BYTES && valid_utf8(b.subrange(start + 1, e))
}

impl<'a> Reader<'a> {
    /// A start tag: name, attributes, then `>` or `/>`. It succeeds exactly
    /// when the name is well formed, the rest of the tag is, and nesting
    /// stays within `MAX_DEPTH`; the element is the name and attributes read.
    #[verifier::rlimit(80)]
    #[verifier::spinoff_prover]
    fn start_tag(&mut self, start: usize) -> (r: Result<Event, XmlError>)
        requires
            old(self).wf(),
            old(self).at == start,
            start < old(self).bytes@.len(),
            old(self).pending_end is None,
        ensures
            final(self).wf(),
            final(self).bytes == old(self).bytes,
            final(self).failed == old(self).failed,
            r matches Ok(ev) ==> ev is Start && final(self).at > start && event_step(
                old(self).open_names(),
                old(self).pending(),
                final(self).open_names(),
                final(self).pending(),
                Some(ev),
            ),
            r is Err ==> final(self).open == old(self).open && final(self).pending_end is None,
            final(self).at >= old(self).at,
            ({
                let b = old(self).bytes@;
                let rest = tag_rest(b, tag_name_end(b, start as int), 0);
                &&& r is Ok <==> tag_name_ok(b, start as int) && rest is Some && old(self).open@.len()
                    < MAX_DEPTH
                &&& tag_name_ok(b, start as int) && rest is Some && old(self).open@.len() >= MAX_DEPTH
                    ==> r == Err::<Event, XmlError>(XmlError::CapExceeded { at: start, cap: "MAX_DEPTH" })
                &&& tag_name_end(b, start as int) == start + 1 ==> r == Err::<Event, XmlError>(
                    XmlError::Malformed { at: (start + 1) as usize, what: "empty name" },
                )
                &&& tag_name_end(b, start as int) - (start + 1) > MAX_NAME_BYTES ==> r == Err::<
                    Event,
                    XmlError,
                >(XmlError::CapExceeded { at: (start + 1) as usize, cap: "MAX_NAME_BYTES" })
                &&& tag_name_end(b, start as int) > start + 1 && tag_name_end(b, start as int) - (
                start + 1) <= MAX_NAME_BYTES && !valid_utf8(
                    b.subrange(start + 1, tag_name_end(b, start as int)),
                ) ==> r == Err::<Event, XmlError>(
                    XmlError::Malformed { at: (start + 1) as usize, what: "name is not UTF-8" },
                )
                &&& r matches Ok(Event::Start(e)) ==> rest matches Some(t) && encode_utf8(e.name@)
                    == b.subrange(start + 1, tag_name_end(b, start as int)) && attrs_spell(
                    e.attributes@,
                    t.0,
                ) && final(self).at == t.1 && e.self_closing == t.2
            }),
    {
        let n = self.bytes.len();
        let ghost b = self.bytes@;
        self.at = self.at + 1;
        proof {
            lemma_name_stop(self.bytes@, self.at as int);
        }
        let name = match self.name() {
            Ok(n) => n,
            Err(e) => return Err(e),
        };
        let ghost ne = self.at as int;
        let ghost whole = tag_rest(b, ne, 0);
        let ghost mut acc: Seq<(Seq<u8>, Seq<u8>)> = Seq::empty();
        let mut element = Element { name, attributes: Vec::new(), self_closing: false };
        proof {
            assert(prefixed(acc, tag_rest(b, ne, 0)) == whole) by {
                match tag_rest(b, ne, 0) {
                    Some(t) => {
                        assert(acc + t.0 =~= t.0);
                    },
                    None => {},
                }
            }
        }
        loop
            invariant_except_break
                whole == prefixed(acc, tag_rest(b, self.at as int, acc.len() as int)),
                !element.self_closing,
            invariant
                n == self.bytes@.len(),
                b == self.bytes@,
                self.bytes == old(self).bytes,
                self.open == old(self).open,
                self.open@.len() <= MAX_DEPTH,
                self.pending_end is None,
                self.failed == old(self).failed,
                start == old(self).at,
                start < self.at <= n,
                0 < encode_utf8(element.name@).len() <= MAX_NAME_BYTES,
                encode_utf8(element.name@) == b.subrange(start + 1, ne),
                ne == tag_name_end(b, start as int),
                tag_name_ok(b, start as int),
                whole == tag_rest(b, ne, 0),
                element.attributes@.len() <= MAX_ATTRIBUTES,
                element.attributes@.len() == acc.len(),
                attrs_spell(element.attributes@, acc),
            ensures
                self.bytes == old(self).bytes,
                self.open == old(self).open,
                self.pending_end is None,
                self.failed == old(self).failed,
                start < self.at <= n,
                0 < encode_utf8(element.name@).len() <= MAX_NAME_BYTES,
                encode_utf8(element.name@) == b.subrange(start + 1, ne),
                element.attributes@.len() <= MAX_ATTRIBUTES,
                tag_name_ok(b, start as int),
                whole == tag_rest(b, ne, 0),
                whole == Some((acc, self.at as int, element.self_closing)),
                attrs_spell(element.attributes@, acc),
            decreases n - self.at,
        {
            let ghost p = self.at as int;
            proof {
                lemma_space_end(self.bytes@, self.at as int);
            }
            self.skip_space();
            let ghost k = acc.len() as int;
            let ghost q0 = self.at as int;
            match self.byte() {
                None => {
                    assert(tag_rest(b, p, k) is None) by {
                        reveal(tag_rest);
                    }
                    return Err(XmlError::Truncated { at: start });
                },
                Some(c) => {
                    if c == 62 {
                        self.at = self.at + 1;
                        proof {
                            assert(tag_rest(b, p, k) == Some(
                                (Seq::<(Seq<u8>, Seq<u8>)>::empty(), q0 + 1, false),
                            )) by {
                                reveal(tag_rest);
                            }
                            assert(acc + Seq::<(Seq<u8>, Seq<u8>)>::empty() =~= acc);
                        }
                        break;
                    } else if c == 47 {
                        self.at = self.at + 1;
                        if self.byte() != Some(62u8) {
                            assert(tag_rest(b, p, k) is None) by {
                                reveal(tag_rest);
                            }
                            return Err(
                                XmlError::Malformed { at: start, what: "expected '>' after '/'" },
                            );
                        }
                        self.at = self.at + 1;
                        element.self_closing = true;
                        proof {
                            assert(tag_rest(b, p, k) == Some(
                                (Seq::<(Seq<u8>, Seq<u8>)>::empty(), q0 + 2, true),
                            )) by {
                                reveal(tag_rest);
                            }
                            assert(acc + Seq::<(Seq<u8>, Seq<u8>)>::empty() =~= acc);
                        }
                        break;
                    } else {
                        if element.attributes.len() >= MAX_ATTRIBUTES {
                            assert(tag_rest(b, p, k) is None) by {
                                reveal(tag_rest);
                            }
                            return Err(XmlError::CapExceeded { at: start, cap: "MAX_ATTRIBUTES" });
                        }
                        let before = self.at;
                        let ghost q = self.at as int;
                        proof {
                            lemma_name_stop(self.bytes@, self.at as int);
                        }
                        let key = match self.name() {
                            Ok(k) => k,
                            Err(e) => {
                                assert(tag_rest(b, p, k) is None) by {
                                    reveal(tag_rest);
                                }
                                return Err(e);
                            },
                        };
                        let ghost ke = self.at as int;
                        proof {
                            lemma_space_end(self.bytes@, self.at as int);
                        }
                        self.skip_space();
                        if self.byte() != Some(61u8) {
                            assert(tag_rest(b, p, k) is None) by {
                                reveal(tag_rest);
                            }
                            return Err(
                                XmlError::Malformed { at: self.at, what: "attribute without a value" },
                            );
                        }
                        self.at = self.at + 1;
                        proof {
                            lemma_space_end(self.bytes@, self.at as int);
                        }
                        self.skip_space();
                        let ghost v = self.at as int;
                        proof {
                            if v < b.len() && (b[v] == 34 || b[v] == 39) {
                                lemma_index_of(b, b[v], v + 1);
                            }
                        }
                        let value = match self.attribute_value() {
                            Ok(v) => v,
                            Err(e) => {
                                assert(tag_rest(b, p, k) is None) by {
                                    reveal(tag_rest);
                                }
                                return Err(e);
                            },
                        };
                        let ghost close = (self.at - 1) as int;
                        let ghost raw = b.subrange(v + 1, close);
                        let ghost item = (b.subrange(q, ke), expand(raw)->Ok_0);
                        proof {
                            assert(index_of(b, b[v], v + 1) == Some(close));
                            assert(encode_utf8(key@) == item.0);
                            assert(encode_utf8(value@) == item.1);
                            let t = tag_rest(b, self.at as int, (acc.len() + 1) as int);
                            assert(tag_rest(b, p, k) == prefixed(seq![item], t)) by {
                                reveal(tag_rest);
                            }
                            match t {
                                Some(tt) => {
                                    assert(acc + (seq![item] + tt.0) =~= acc.push(item) + tt.0);
                                },
                                None => {},
                            }
                        }
                        element.attributes.push((key, value));
                        proof {
                            acc = acc.push(item);
                            assert(attrs_spell(element.attributes@, acc)) by {
                                assert forall|i: int| 0 <= i < element.attributes@.len() implies encode_utf8(
                                    (#[trigger] element.attributes@[i]).0@,
                                ) == acc[i].0 && encode_utf8(element.attributes@[i].1@) == acc[i].1 by {
                                    if i < acc.len() - 1 {
                                    }
                                }
                            }
                        }
                        assert(self.at > before);
                    }
                },
            }
        }
        if self.open.len() >= MAX_DEPTH {
            return Err(XmlError::CapExceeded { at: start, cap: "MAX_DEPTH" });
        }
        let ghost old_open = self.open@;
        self.open.push(element.name.clone());
        if element.self_closing {
            self.pending_end = Some(element.name.clone());
        }
        proof {
            assert(self.open@.map_values(|s: String| s@) =~= old_open.map_values(|s: String| s@).push(
                element.name@,
            ));
        }
        Ok(Event::Start(element))
    }
}

/// What reading on from a position finds, in bytes: a start tag (its name,
/// attributes and whether it closes itself), an end tag, text (as UTF-8),
/// something skipped, the end of the document, or a failure: a mismatched
/// end tag, nesting past `MAX_DEPTH`, a named error, or (for a malformed
/// start tag or entity) some error. `end` is where the reader stands
/// afterwards.
pub enum Scan {
    Start { name: Seq<u8>, attrs: Seq<(Seq<u8>, Seq<u8>)>, self_closing: bool, end: int },
    End { name: Seq<u8>, end: int },
    Text { text: Seq<u8>, end: int },
    Skip { end: int },
    Done,
    Mismatch { at: int },
    DepthCap { at: int },
    Error { e: XmlError },
    Fail,
}

/// The first place at or after `i` where `needle` occurs in `hay`.
pub open spec fn first_from(hay: Seq<u8>, needle: Seq<u8>, i: int) -> Option<int>
    decreases hay.len() - i,
{
    if i < 0 || i >= hay.len() || i + needle.len() > hay.len() {
        None
    } else if occurs_at(hay, needle, i) {
        Some(i)
    } else {
        first_from(hay, needle, i + 1)
    }
}

/// `first_from` finds the first occurrence, if there is one.
pub proof fn lemma_first_from(hay: Seq<u8>, needle: Seq<u8>, i: int)
    requires
        0 <= i,
        needle.len() > 0,
    ensures
        first_from(hay, needle, i) matches Some(j) ==> i <= j && occurs_at(hay, needle, j)
            && forall|k: int| i <= k < j ==> !occurs_at(hay, needle, k),
        first_from(hay, needle, i) is None ==> forall|k: int| i <= k ==> !occurs_at(hay, needle, k),
    decreases hay.len() - i,
{
    if i < hay.len() && i + needle.len() <= hay.len() && !occurs_at(hay, needle, i) {
        lemma_first_from(hay, needle, i + 1);
        assert forall|k: int| i <= k && first_from(hay, needle, i) is None implies !occurs_at(
            hay,
            needle,
            k,
        ) by {
            if k > i {
            }
        }
    }
}

/// The first occurrence of `needle` in `hay`, if any.
pub open spec fn first_in(hay: Seq<u8>, needle: Seq<u8>) -> Option<int> {
    first_from(hay, needle, 0)
}

/// A first occurrence that a search found is `first_in`'s.
proof fn lemma_first_in(hay: Seq<u8>, needle: Seq<u8>, j: Option<int>)
    requires
        needle.len() > 0,
        j matches Some(x) ==> occurs_at(hay, needle, x) && forall|k: int| 0 <= k < x ==> !occurs_at(hay, needle, k),
        j is None ==> forall|k: int| !occurs_at(hay, needle, k),
    ensures
        first_in(hay, needle) == j,
{
    lemma_first_from(hay, needle, 0);
    match first_in(hay, needle) {
        Some(y) => {
            if let Some(x) = j {
                if x < y {
                    assert(!occurs_at(hay, needle, x));
                } else if y < x {
                    assert(!occurs_at(hay, needle, y));
                }
            } else {
                assert(!occurs_at(hay, needle, y));
            }
        },
        None => {
            if let Some(x) = j {
                assert(!occurs_at(hay, needle, x));
            }
        },
    }
}

/// `-->`
pub open spec fn comment_close() -> Seq<u8> {
    seq![45u8, 45, 62]
}

/// `]]>`
pub open spec fn cdata_close() -> Seq<u8> {
    seq![93u8, 93, 62]
}

/// `?>`
pub open spec fn pi_close() -> Seq<u8> {
    seq![63u8, 62]
}

/// What the markup at `p` (a `<`) is, with `open` the open elements: a
/// comment or processing instruction is skipped to its close, CDATA is text,
/// a declaration is refused, an end tag must name the innermost open
/// element, and anything else is a start tag.
pub open spec fn markup_scan(b: Seq<u8>, p: int, open: Seq<Seq<char>>) -> Scan {
    let rest = b.subrange(p + 2, b.len() as int);
    if starts_at(b, p, seq![60u8, 33, 45, 45]) {
        match first_in(rest, comment_close()) {
            Some(j) => Scan::Skip { end: p + 2 + j + 3 },
            None => Scan::Error { e: XmlError::Truncated { at: p as usize } },
        }
    } else if starts_at(b, p, seq![60u8, 33, 91, 67, 68, 65, 84, 65, 91]) {
        match first_in(b.subrange(p + 9, b.len() as int), cdata_close()) {
            Some(j) => if valid_utf8(b.subrange(p + 9, p + 9 + j)) {
                Scan::Text { text: b.subrange(p + 9, p + 9 + j), end: p + 9 + j + 3 }
            } else {
                Scan::Error {
                    e: XmlError::Malformed { at: (p + 9) as usize, what: "CDATA is not UTF-8" },
                }
            },
            None => Scan::Error { e: XmlError::Truncated { at: p as usize } },
        }
    } else if starts_at(b, p, seq![60u8, 63]) {
        match first_in(rest, pi_close()) {
            Some(j) => Scan::Skip { end: p + 2 + j + 2 },
            None => Scan::Error { e: XmlError::Truncated { at: p as usize } },
        }
    } else if starts_at(b, p, doctype_open()) || starts_at(b, p, entity_open()) {
        Scan::Error { e: XmlError::DoctypeRefused { at: p as usize } }
    } else if starts_at(b, p, seq![60u8, 47]) {
        let e = name_stop(b, p + 2);
        let k = space_end(b, e);
        let name = b.subrange(p + 2, e);
        if e == p + 2 {
            Scan::Error { e: XmlError::Malformed { at: (p + 2) as usize, what: "empty name" } }
        } else if e - (p + 2) > MAX_NAME_BYTES {
            Scan::Error { e: XmlError::CapExceeded { at: (p + 2) as usize, cap: "MAX_NAME_BYTES" } }
        } else if !valid_utf8(name) {
            Scan::Error { e: XmlError::Malformed { at: (p + 2) as usize, what: "name is not UTF-8" } }
        } else if k >= b.len() || b[k] != 62 {
            Scan::Error { e: XmlError::Malformed { at: p as usize, what: "unterminated end tag" } }
        } else if open.len() == 0 || open.last() != decode_utf8(name) {
            Scan::Mismatch { at: p }
        } else {
            Scan::End { name, end: k + 1 }
        }
    } else {
        let e = tag_name_end(b, p);
        if e == p + 1 {
            Scan::Error { e: XmlError::Malformed { at: (p + 1) as usize, what: "empty name" } }
        } else if e - (p + 1) > MAX_NAME_BYTES {
            Scan::Error { e: XmlError::CapExceeded { at: (p + 1) as usize, cap: "MAX_NAME_BYTES" } }
        } else if !valid_utf8(b.subrange(p + 1, e)) {
            Scan::Error { e: XmlError::Malformed { at: (p + 1) as usize, what: "name is not UTF-8" } }
        } else {
            match tag_rest(b, e, 0) {
            Some(t) => if !tag_name_ok(b, p) {
                Scan::Fail
            } else if open.len() >= MAX_DEPTH {
                Scan::DepthCap { at: p }
            } else {
                Scan::Start {
                    name: b.subrange(p + 1, e),
                    attrs: t.0,
                    self_closing: t.2,
                    end: t.1,
                }
            },
            None => Scan::Fail,
            }
        }
    }
}

/// Reading on from `p` with no end event owed, `open` the open elements:
/// text runs to the next `<` and is skipped when it is blank after its
/// entities expand; markup is what `markup_scan` says, comments and
/// processing instructions being read past; at the end of the document the
/// reading is `Done`, or fails if elements are still open. (Each skip moves
/// forward within the document, so the guarded branches are never taken;
/// they only bound the recursion.)
pub open spec fn scan(b: Seq<u8>, p: int, open: Seq<Seq<char>>) -> Scan
    decreases b.len() - p,
{
    if p >= b.len() {
        if open.len() > 0 {
            Scan::Error { e: XmlError::Truncated { at: p as usize } }
        } else {
            Scan::Done
        }
    } else if b[p] != 60 {
        let e = match index_of(b, 60, p) {
            Some(i) => i,
            None => b.len() as int,
        };
        let raw = b.subrange(p, e);
        if e - p > MAX_TEXT_BYTES {
            Scan::Error { e: XmlError::CapExceeded { at: p as usize, cap: "MAX_TEXT_BYTES" } }
        } else if !valid_utf8(raw) || expand(raw) is Err {
            Scan::Fail
        } else if !all_blank(expand(raw)->Ok_0) {
            Scan::Text { text: expand(raw)->Ok_0, end: e }
        } else if p < e <= b.len() {
            scan(b, e, open)
        } else {
            Scan::Fail
        }
    } else {
        match markup_scan(b, p, open) {
            Scan::Skip { end } => if p < end <= b.len() {
                scan(b, end, open)
            } else {
                Scan::Fail
            },
            other => other,
        }
    }
}

/// A reader's answer as a step's: `None` is the end, `Some` an event or an
/// error.
pub open spec fn as_step(r: Option<Result<Event, XmlError>>) -> Result<Option<Event>, XmlError> {
    match r {
        None => Ok(None),
        Some(Ok(ev)) => Ok(Some(ev)),
        Some(Err(e)) => Err(e),
    }
}

/// `r`, with the reader then at `at2`, is what `s` describes.
pub open spec fn yields(s: Scan, r: Result<Option<Event>, XmlError>, at2: int) -> bool {
    match s {
        Scan::Start { name, attrs, self_closing, end } => r matches Ok(Some(Event::Start(e)))
            && encode_utf8(e.name@) == name && attrs_spell(e.attributes@, attrs) && e.self_closing
            == self_closing && at2 == end,
        Scan::End { name, end } => r matches Ok(Some(Event::End(n))) && encode_utf8(n@) == name
            && at2 == end,
        Scan::Text { text, end } => r matches Ok(Some(Event::Text(t))) && encode_utf8(t@) == text
            && at2 == end,
        Scan::Skip { end } => r == Ok::<Option<Event>, XmlError>(None) && at2 == end,
        Scan::Done => r == Ok::<Option<Event>, XmlError>(None),
        Scan::Mismatch { at } => r matches Err(XmlError::MismatchedTag { at: a, .. }) && a == at,
        Scan::DepthCap { at } => r matches Err(XmlError::CapExceeded { at: a, cap }) && a == at
            && cap == "MAX_DEPTH",
        Scan::Error { e } => r == Err::<Option<Event>, XmlError>(e),
        Scan::Fail => r is Err,
    }
}

/// `lit` occurs in `b` at `p`.
pub open spec fn starts_at(b: Seq<u8>, p: int, lit: Seq<u8>) -> bool {
    p + lit.len() <= b.len() && b.subrange(p, p + lit.len()) == lit
}

/// `<!DOCTYPE`
pub open spec fn doctype_open() -> Seq<u8> {
    seq![60u8, 33, 68, 79, 67, 84, 89, 80, 69]
}

/// `<!ENTITY`
pub open spec fn entity_open() -> Seq<u8> {
    seq![60u8, 33, 69, 78, 84, 73, 84, 89]
}

impl<'a> Reader<'a> {
    /// Anything beginning `<`: a comment, CDATA, a processing instruction, a
    /// refused declaration, an end tag or a start tag.
    fn markup(&mut self) -> (r: Result<Option<Event>, XmlError>)
        requires
            old(self).wf(),
            old(self).at < old(self).bytes@.len(),
            old(self).bytes@[old(self).at as int] == 60,
            old(self).pending_end is None,
        ensures
            final(self).wf(),
            final(self).bytes == old(self).bytes,
            final(self).failed == old(self).failed,
            r matches Ok(ev) ==> final(self).at > old(self).at && event_step(
                old(self).open_names(),
                old(self).pending(),
                final(self).open_names(),
                final(self).pending(),
                ev,
            ),
            r is Err ==> final(self).pending_end is None,
            r matches Ok(None) ==> final(self).open == old(self).open
                && final(self).pending_end == old(self).pending_end,
            final(self).at >= old(self).at,
            starts_at(old(self).bytes@, old(self).at as int, doctype_open()) || starts_at(
                old(self).bytes@,
                old(self).at as int,
                entity_open(),
            ) ==> r == Err::<Option<Event>, XmlError>(
                XmlError::DoctypeRefused { at: old(self).at },
            ),
            yields(
                markup_scan(old(self).bytes@, old(self).at as int, old(self).open_names()),
                r,
                final(self).at as int,
            ),
    {
        let start = self.at;
        let n = self.bytes.len();
        let ghost b = self.bytes@;
        if self.starts_with(&[60u8, 33, 45, 45]) {
            proof {
                assert(b[start + 2] == 45);
            }
            let ghost hay = b.subrange(start + 2, b.len() as int);
            let skipped = self.skip_to(&[45u8, 45, 62], start);
            proof {
                if skipped is Ok {
                    let j = choose|j: int|
                        occurs_at(hay, comment_close(), j) && self.at == start + 2 + j
                            + comment_close().len() && forall|i: int|
                            0 <= i < j ==> !occurs_at(hay, comment_close(), i);
                    lemma_first_in(hay, comment_close(), Some(j));
                } else {
                    lemma_first_in(hay, comment_close(), None);
                }
            }
            return match skipped {
                Ok(()) => Ok(None),
                Err(e) => Err(e),
            };
        }
        if self.starts_with(&[60u8, 33, 91, 67, 68, 65, 84, 65, 91]) {
            proof {
                assert(b[start + 2] == 91);
            }
            let body_start = self.at + 9;
            let found = find(&self.bytes[body_start..n], &[93u8, 93, 62]);
            proof {
                lemma_first_in(b.subrange(body_start as int, n as int), cdata_close(), match found {
                    Some(e) => Some(e as int),
                    None => None,
                });
            }
            let end = match found {
                Some(e) => e,
                None => return Err(XmlError::Truncated { at: start }),
            };
            let body = &self.bytes[body_start..body_start + end];
            self.at = body_start + end + 3;
            return match utf8_text(body) {
                Some(t) => Ok(Some(Event::Text(t.to_owned()))),
                None => Err(XmlError::Malformed { at: body_start, what: "CDATA is not UTF-8" }),
            };
        }
        if self.starts_with(&[60u8, 63]) {
            proof {
                assert(b[start + 1] == 63);
            }
            let ghost hay = b.subrange(start + 2, b.len() as int);
            let skipped = self.skip_to(&[63u8, 62], start);
            proof {
                if skipped is Ok {
                    let j = choose|j: int|
                        occurs_at(hay, pi_close(), j) && self.at == start + 2 + j + pi_close().len()
                            && forall|i: int| 0 <= i < j ==> !occurs_at(hay, pi_close(), i);
                    lemma_first_in(hay, pi_close(), Some(j));
                } else {
                    lemma_first_in(hay, pi_close(), None);
                }
            }
            return match skipped {
                Ok(()) => Ok(None),
                Err(e) => Err(e),
            };
        }
        if self.starts_with(&[60u8, 33, 68, 79, 67, 84, 89, 80, 69]) || self.starts_with(
            &[60u8, 33, 69, 78, 84, 73, 84, 89],
        ) {
            return Err(XmlError::DoctypeRefused { at: start });
        }
        proof {
            if starts_at(b, start as int, doctype_open()) {
                assert(b.subrange(start as int, start + 9) == doctype_open());
            }
            if starts_at(b, start as int, entity_open()) {
                assert(b.subrange(start as int, start + 8) == entity_open());
            }
        }
        if self.starts_with(&[60u8, 47]) {
            self.at = self.at + 2;
            proof {
                lemma_name_stop(self.bytes@, self.at as int);
            }
            let name = match self.name() {
                Ok(v) => v,
                Err(e) => return Err(e),
            };
            proof {
                lemma_space_end(self.bytes@, self.at as int);
                encode_utf8_decode_utf8(name@);
            }
            self.skip_space();
            if self.byte() != Some(62u8) {
                return Err(XmlError::Malformed { at: start, what: "unterminated end tag" });
            }
            self.at = self.at + 1;
            let ghost old_open = self.open@;
            match self.open.pop() {
                Some(expected) => {
                    proof {
                        assert(self.open@.map_values(|s: String| s@) =~= old_open.map_values(
                            |s: String| s@,
                        ).drop_last());
                    }
                    if expected == name {
                        Ok(Some(Event::End(name)))
                    } else {
                        Err(XmlError::MismatchedTag { at: start, expected, found: name })
                    }
                },
                None => Err(XmlError::MismatchedTag { at: start, expected: String::new(), found: name }),
            }
        } else {
            let ghost open0 = self.open_names();
            let tag = self.start_tag(start);
            proof {
                let e = tag_name_end(b, start as int);
                let s = markup_scan(b, start as int, open0);
                lemma_name_stop(b, start + 1);
                if e == start + 1 {
                    assert(s == Scan::Error {
                        e: XmlError::Malformed { at: (start + 1) as usize, what: "empty name" },
                    });
                } else if e - (start + 1) > MAX_NAME_BYTES {
                    assert(s == Scan::Error {
                        e: XmlError::CapExceeded { at: (start + 1) as usize, cap: "MAX_NAME_BYTES" },
                    });
                } else if !valid_utf8(b.subrange(start + 1, e)) {
                    assert(s == Scan::Error {
                        e: XmlError::Malformed { at: (start + 1) as usize, what: "name is not UTF-8" },
                    });
                } else {
                    assert(tag_name_ok(b, start as int));
                    assert(open0.len() == old(self).open@.len());
                }
            }
            let r = match tag {
                Ok(ev) => Ok(Some(ev)),
                Err(e) => Err(e),
            };
            proof {
                let s = markup_scan(b, start as int, open0);
                assert(yields(s, r, self.at as int));
            }
            r
        }
    }

    /// The next event, without the spent-reader guard.
    fn step(&mut self) -> (r: Result<Option<Event>, XmlError>)
        requires
            old(self).wf(),
        ensures
            final(self).wf(),
            final(self).bytes == old(self).bytes,
            final(self).failed == old(self).failed,
            final(self).at >= old(self).at,
            r matches Ok(ev) ==> event_step(
                old(self).open_names(),
                old(self).pending(),
                final(self).open_names(),
                final(self).pending(),
                ev,
            ),
            r matches Ok(None) ==> final(self).at == final(self).bytes@.len()
                && old(self).open_names().len() == 0 && old(self).pending() is None,
            old(self).pending() matches Some(n) ==> (r matches Ok(Some(Event::End(e))) && e@ == n),
            r is Err ==> final(self).pending_end is None,
            old(self).pending() is None && (r matches Ok(Some(_))) ==> final(self).at > old(self).at,
            old(self).pending() is Some ==> final(self).at == old(self).at,
            old(self).pending() is None ==> yields(
                scan(old(self).bytes@, old(self).at as int, old(self).open_names()),
                r,
                final(self).at as int,
            ),
    {
        match self.pending_end.take() {
            Some(name) => {
                let ghost old_open = self.open@;
                let popped = self.open.pop();
                proof {
                    assert(self.open@.map_values(|s: String| s@) =~= old_open.map_values(
                        |s: String| s@,
                    ).drop_last());
                }
                return Ok(Some(Event::End(name)));
            },
            None => {},
        }
        let n = self.bytes.len();
        loop
            invariant
                self.wf(),
                n == self.bytes@.len(),
                self.bytes == old(self).bytes,
                self.open == old(self).open,
                self.pending_end is None,
                old(self).pending_end is None,
                self.failed == old(self).failed,
                self.at >= old(self).at,
                scan(self.bytes@, old(self).at as int, old(self).open_names()) == scan(
                    self.bytes@,
                    self.at as int,
                    self.open_names(),
                ),
            decreases n - self.at,
        {
            if self.at >= n {
                if self.open.len() > 0 {
                    return Err(XmlError::Truncated { at: self.at });
                }
                return Ok(None);
            }
            if self.bytes[self.at] != 60 {
                let before = self.at;
                proof {
                    lemma_index_of(self.bytes@, 60, self.at as int);
                }
                let text = match self.text() {
                    Ok(t) => t,
                    Err(e) => return Err(e),
                };
                if text.as_str().as_bytes().len() == 0 {
                    assert(self.at > before);
                    proof {
                        let raw = self.bytes@.subrange(before as int, self.at as int);
                        if !all_blank(expand(raw)->Ok_0) {
                            assert(encode_utf8(text@).len() == 0);
                            assert(expand(raw)->Ok_0 =~= Seq::<u8>::empty());
                        }
                    }
                    continue;
                }
                proof {
                    let raw = self.bytes@.subrange(before as int, self.at as int);
                    if all_blank(expand(raw)->Ok_0) {
                        assert(text@.len() == 0);
                        assert(encode_utf8(text@) =~= Seq::<u8>::empty());
                    }
                }
                return Ok(Some(Event::Text(text)));
            }
            match self.markup() {
                Ok(Some(ev)) => return Ok(Some(ev)),
                Ok(None) => continue,
                Err(e) => return Err(e),
            }
        }
    }

    /// The next event, or `None` at the end of the document. Once an error has
    /// been returned the reader is spent, and every later call gives `None`.
    pub fn next(&mut self) -> (r: Option<Result<Event, XmlError>>)
        requires
            old(self).wf(),
        ensures
            final(self).wf(),
            final(self).doc() == old(self).doc(),
            old(self).spent() ==> r is None && final(self).spent() && final(self).open_names()
                == old(self).open_names() && final(self).pending() == old(self).pending(),
            !old(self).spent() ==> match r {
                None => !final(self).spent() && old(self).open_names().len() == 0
                    && old(self).pending() is None && final(self).open_names().len() == 0,
                Some(Ok(ev)) => !final(self).spent() && event_step(
                    old(self).open_names(),
                    old(self).pending(),
                    final(self).open_names(),
                    final(self).pending(),
                    Some(ev),
                ),
                Some(Err(_)) => final(self).spent(),
            },
            !old(self).spent() && old(self).pending() is None ==> yields(
                scan(old(self).doc(), old(self).pos(), old(self).open_names()),
                as_step(r),
                final(self).pos(),
            ),
            !old(self).spent() && (r matches Some(Ok(_))) ==> 0 <= final(self).progress() < old(
                self,
            ).progress(),
            !old(self).spent() ==> (old(self).pending() matches Some(n) ==> (r matches Some(
                Ok(Event::End(e)),
            ) && e@ == n)),
    {
        if self.failed {
            return None;
        }
        match self.step() {
            Ok(Some(event)) => Some(Ok(event)),
            Ok(None) => None,
            Err(err) => {
                self.failed = true;
                Some(Err(err))
            },
        }
    }
}

/// A reader's progress is at most twice its document's length plus one.
/// As every event lowers it and an error spends the reader, reading a
/// document of `n` bytes gives at most `2n + 2` answers before `None`.
pub proof fn lemma_progress_bounded(r: Reader)
    requires
        r.wf(),
    ensures
        0 <= r.progress() <= 2 * r.doc().len() + 1,
{
}

/// However a document is read, the open elements never nest deeper than
/// `MAX_DEPTH`.
pub proof fn lemma_depth_bounded(r: Reader)
    requires
        r.wf(),
    ensures
        r.open_names().len() <= MAX_DEPTH,
{
}

} // verus!
