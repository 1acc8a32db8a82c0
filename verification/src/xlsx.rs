//! The small decisions the XLSX reader makes on attribute text: where a
//! relationship target lives, what counts as true, colour parsing, the
//! built-in number formats and error spellings.

use vstd::prelude::*;
use std::string::String;
use vstd::string::{StrSliceExecFns, StringExecFns, StringSliceAdditionalSpecFns};
use crate::types::ErrorKind;

verus! {

/// Whether two strings hold the same characters.
fn same_text(a: &str, b: &str) -> (r: bool)
    ensures
        r == (a@ == b@),
{
    let n = a.unicode_len();
    if n != b.unicode_len() {
        return false;
    }
    let mut i: usize = 0;
    while i < n
        invariant
            n == a@.len(),
            n == b@.len(),
            i <= n,
            forall|j: int| 0 <= j < i ==> a@[j] == b@[j],
        decreases n - i,
    {
        if a.get_char(i) != b.get_char(i) {
            return false;
        }
        i = i + 1;
    }
    assert(a@ =~= b@);
    true
}

/// `target` without its leading slashes.
pub open spec fn without_slashes(cs: Seq<char>) -> Seq<char>
    decreases cs.len(),
{
    if cs.len() > 0 && cs[0] == '/' {
        without_slashes(cs.drop_first())
    } else {
        cs
    }
}

/// A relationship target as a part name: rooted targets lose their slash,
/// and targets relative to `xl/` gain the prefix.
pub open spec fn target_part(t: Seq<char>) -> Seq<char> {
    let u = without_slashes(t);
    if u.len() >= 3 && u[0] == 'x' && u[1] == 'l' && u[2] == '/' {
        u
    } else {
        seq!['x', 'l', '/'] + u
    }
}

/// Resolves a workbook relationship target to a part name.
pub fn resolve_target(target: &str) -> (r: String)
    ensures
        r@ == target_part(target@),
{
    let n = target.unicode_len();
    let mut i: usize = 0;
    assert(target@.subrange(0, n as int) =~= target@);
    while i < n && target.get_char(i) == '/'
        invariant
            n == target@.len(),
            i <= n,
            without_slashes(target@) == without_slashes(target@.subrange(i as int, n as int)),
        decreases n - i,
    {
        proof {
            assert(target@.subrange(i + 1, n as int) =~= target@.subrange(i as int, n as int).drop_first());
        }
        i = i + 1;
    }
    let rest = target.substring_char(i, n);
    proof {
        let u = target@.subrange(i as int, n as int);
        if u.len() > 0 {
            assert(u[0] == target@[i as int]);
        }
        assert(without_slashes(u) == u);
    }
    let m = rest.unicode_len();
    if m >= 3 && rest.get_char(0) == 'x' && rest.get_char(1) == 'l' && rest.get_char(2) == '/' {
        return String::from_str(rest);
    }
    let mut out = String::from_str("xl/");
    proof {
        reveal_strlit("xl/");
    }
    out.append(rest);
    out
}

/// ASCII lower case of a character.
pub open spec fn ascii_lower(c: char) -> char {
    if 'A' <= c <= 'Z' {
        ((c as u32) + 32) as char
    } else {
        c
    }
}

/// An OOXML boolean: `1`, or `true` in any ASCII case.
pub open spec fn is_true_text(v: Seq<char>) -> bool {
    v == seq!['1'] || (v.len() == 4 && ascii_lower(v[0]) == 't' && ascii_lower(v[1]) == 'r' && ascii_lower(v[2]) == 'u'
        && ascii_lower(v[3]) == 'e')
}

fn lower(c: char) -> (r: char)
    ensures
        r == ascii_lower(c),
{
    if 'A' <= c && c <= 'Z' {
        ((c as u8) + 32) as char
    } else {
        c
    }
}

/// Whether an attribute value means true.
pub fn is_true(value: &str) -> (r: bool)
    ensures
        r == is_true_text(value@),
{
    let n = value.unicode_len();
    if n == 1 {
        let c = value.get_char(0);
        proof {
            if c == '1' {
                assert(value@ =~= seq!['1']);
            }
        }
        return c == '1';
    }
    if n != 4 {
        return false;
    }
    lower(value.get_char(0)) == 't' && lower(value.get_char(1)) == 'r' && lower(value.get_char(2)) == 'u'
        && lower(value.get_char(3)) == 'e'
}


/// Whether `c` is Unicode white space, as `char::is_whitespace` has it.
pub open spec fn is_ws(c: char) -> bool {
    ||| '\t' <= c <= '\r'
    ||| c == ' '
    ||| c == '\u{85}'
    ||| c == '\u{A0}'
    ||| c == '\u{1680}'
    ||| '\u{2000}' <= c <= '\u{200A}'
    ||| c == '\u{2028}'
    ||| c == '\u{2029}'
    ||| c == '\u{202F}'
    ||| c == '\u{205F}'
    ||| c == '\u{3000}'
}

fn white(c: char) -> (r: bool)
    ensures
        r == is_ws(c),
{
    ('\t' <= c && c <= '\r') || c == ' ' || c == '\u{85}' || c == '\u{A0}' || c == '\u{1680}' || ('\u{2000}' <= c && c
        <= '\u{200A}') || c == '\u{2028}' || c == '\u{2029}' || c == '\u{202F}' || c == '\u{205F}' || c == '\u{3000}'
}

/// `s` without white space at either end, as positions `(lo, hi)`.
pub open spec fn trimmed_at(s: Seq<char>, lo: int, hi: int) -> bool {
    &&& 0 <= lo <= hi <= s.len()
    &&& forall|i: int| 0 <= i < lo ==> is_ws(#[trigger] s[i])
    &&& forall|i: int| hi <= i < s.len() ==> is_ws(#[trigger] s[i])
    &&& lo < hi ==> !is_ws(s[lo]) && !is_ws(s[hi - 1])
}

/// The value of a hex digit.
pub open spec fn hex_digit(c: char) -> Option<nat> {
    if '0' <= c <= '9' {
        Some((c as nat - '0' as nat) as nat)
    } else if 'a' <= c <= 'f' {
        Some((c as nat - 'a' as nat + 10) as nat)
    } else if 'A' <= c <= 'F' {
        Some((c as nat - 'A' as nat + 10) as nat)
    } else {
        None
    }
}

/// The number hex digits spell, when all of them are digits.
pub open spec fn hex_value(cs: Seq<char>) -> Option<nat>
    decreases cs.len(),
{
    if cs.len() == 0 {
        Some(0)
    } else {
        match (hex_value(cs.drop_last()), hex_digit(cs.last())) {
            (Some(v), Some(d)) => Some(v * 16 + d),
            _ => None,
        }
    }
}

/// `u32::from_str_radix(.., 16)` on text short enough not to overflow: an
/// optional `+`, then at least one hex digit.
pub open spec fn radix16(cs: Seq<char>) -> Option<nat> {
    let ds = if cs.len() > 0 && cs[0] == '+' {
        cs.drop_first()
    } else {
        cs
    };
    if ds.len() == 0 {
        None
    } else {
        hex_value(ds)
    }
}

/// An ARGB colour: eight hex digits, or six with the alpha taken as opaque,
/// after white space is trimmed; the count is of bytes.
pub open spec fn argb_of(t: Seq<char>) -> Option<u32> {
    let n = vstd::utf8::encode_utf8(t).len();
    if n == 8 {
        match radix16(t) {
            Some(v) => Some(v as u32),
            None => None,
        }
    } else if n == 6 {
        match radix16(t) {
            Some(v) => Some((v as u32) | 0xFF00_0000u32),
            None => None,
        }
    } else {
        None
    }
}

proof fn lemma_hex_bound(cs: Seq<char>)
    ensures
        hex_value(cs) matches Some(v) ==> v < crate::image::pow256(cs.len()) && v < pow16(cs.len()),
    decreases cs.len(),
{
    if cs.len() > 0 {
        lemma_hex_bound(cs.drop_last());
    }
    lemma_pow16(cs.len());
}

/// `16^n`.
pub open spec fn pow16(n: nat) -> int
    decreases n,
{
    if n == 0 {
        1
    } else {
        16 * pow16((n - 1) as nat)
    }
}

proof fn lemma_pow16(n: nat)
    ensures
        pow16(n) <= crate::image::pow256(n),
        pow16(n) >= 1,
    decreases n,
{
    if n > 0 {
        lemma_pow16((n - 1) as nat);
    }
}

/// The value of the hex digits `t[from..to]`, when they all are digits.
fn parse_hex(t: &str, from: usize, to: usize) -> (r: Option<u32>)
    requires
        from <= to <= t@.len(),
        to - from <= 8,
    ensures
        r matches Some(v) ==> hex_value(t@.subrange(from as int, to as int)) == Some(v as nat),
        r is None ==> hex_value(t@.subrange(from as int, to as int)) is None,
{
    let mut acc: u64 = 0;
    let mut i: usize = from;
    proof {
        assert(t@.subrange(from as int, from as int) =~= Seq::<char>::empty());
    }
    while i < to
        invariant
            from <= i <= to <= t@.len(),
            to - from <= 8,
            hex_value(t@.subrange(from as int, i as int)) == Some(acc as nat),
            acc < pow16((i - from) as nat),
            pow16((i - from) as nat) <= 0x1_0000_0000,
        decreases to - i,
    {
        let c = t.get_char(i);
        let d: u64 = if '0' <= c && c <= '9' {
            (c as u32 - '0' as u32) as u64
        } else if 'a' <= c && c <= 'f' {
            (c as u32 - 'a' as u32 + 10) as u64
        } else if 'A' <= c && c <= 'F' {
            (c as u32 - 'A' as u32 + 10) as u64
        } else {
            proof {
                let pre = t@.subrange(from as int, i as int);
                lemma_hex_none_extends(t@, from as int, i as int, to as int);
            }
            return None;
        };
        proof {
            let sub = t@.subrange(from as int, i + 1);
            assert(sub.drop_last() =~= t@.subrange(from as int, i as int));
            assert(sub.last() == c);
            lemma_pow16_step((i - from) as nat);
        }
        acc = acc * 16 + d;
        i = i + 1;
    }
    Some(acc as u32)
}

proof fn lemma_pow16_step(n: nat)
    requires
        n < 8,
    ensures
        pow16(n + 1) == 16 * pow16(n),
        pow16(n + 1) <= 0x1_0000_0000,
    decreases n,
{
    reveal_with_fuel(pow16, 9);
    if n > 0 {
        lemma_pow16_step((n - 1) as nat);
    }
}

/// A non-digit at `i` leaves every longer run without a value.
proof fn lemma_hex_none_extends(t: Seq<char>, from: int, i: int, to: int)
    requires
        0 <= from <= i < to <= t.len(),
        hex_digit(t[i]) is None,
    ensures
        hex_value(t.subrange(from, to)) is None,
    decreases to - i,
{
    let s = t.subrange(from, to);
    if to == i + 1 {
        assert(s.last() == t[i]);
    } else {
        lemma_hex_none_extends(t, from, i, to - 1);
        assert(s.drop_last() =~= t.subrange(from, to - 1));
    }
}

/// Text never has more characters than bytes.
proof fn lemma_chars_within_bytes(cs: Seq<char>)
    ensures
        cs.len() <= vstd::utf8::encode_utf8(cs).len(),
    decreases cs.len(),
{
    if cs.len() > 0 {
        lemma_chars_within_bytes(cs.drop_first());
        assert(vstd::utf8::encode_scalar(cs[0] as u32).len() >= 1);
    }
}

/// Parses an ARGB colour attribute.
pub fn parse_argb(text: &str) -> (r: Option<u32>)
    ensures
        exists|lo: int, hi: int| trimmed_at(text@, lo, hi) && r == argb_of(text@.subrange(lo, hi)),
{
    let n = text.unicode_len();
    let mut lo: usize = 0;
    while lo < n && white(text.get_char(lo))
        invariant
            n == text@.len(),
            lo <= n,
            forall|i: int| 0 <= i < lo ==> is_ws(#[trigger] text@[i]),
        decreases n - lo,
    {
        lo = lo + 1;
    }
    let mut hi: usize = n;
    while hi > lo && white(text.get_char(hi - 1))
        invariant
            n == text@.len(),
            lo <= hi <= n,
            forall|i: int| hi <= i < n ==> is_ws(#[trigger] text@[i]),
        decreases hi - lo,
    {
        hi = hi - 1;
    }
    let t = text.substring_char(lo, hi);
    let ghost tc = text@.subrange(lo as int, hi as int);
    assert(trimmed_at(text@, lo as int, hi as int));
    let bytes = t.as_bytes().len();
    let m = hi - lo;
    if bytes != 8 && bytes != 6 {
        return None;
    }
    proof {
        lemma_chars_within_bytes(tc);
        assert(t@ == tc);
        assert(bytes == vstd::utf8::encode_utf8(tc).len());
    }
    let start: usize = if m > 0 && t.get_char(0) == '+' {
        1
    } else {
        0
    };
    if start == m {
        return None;
    }
    if m > 8 {
        return None;
    }
    let v = match parse_hex(t, start, m) {
        Some(v) => v,
        None => {
            proof {
                assert(t@.subrange(start as int, m as int) =~= if start == 1 { tc.drop_first() } else { tc });
            }
            return None;
        },
    };
    proof {
        assert(t@.subrange(start as int, m as int) =~= if start == 1 { tc.drop_first() } else { tc });
        assert(radix16(tc) == Some(v as nat));
        assert(bytes == vstd::utf8::encode_utf8(tc).len());
    }
    let r = if bytes == 8 {
        Some(v)
    } else {
        Some(v | 0xFF00_0000)
    };
    assert(r == argb_of(tc));
    r
}


/// The code of a built-in number format id; `None` for General (id 0) and
/// for ids with no built-in code.
pub open spec fn builtin_code(id: u32) -> Option<Seq<char>> {
    if id == 1 { Some("0"@) }
    else if id == 2 { Some("0.00"@) }
    else if id == 3 { Some("#,##0"@) }
    else if id == 4 { Some("#,##0.00"@) }
    else if id == 9 { Some("0%"@) }
    else if id == 10 { Some("0.00%"@) }
    else if id == 11 { Some("0.00E+00"@) }
    else if id == 12 { Some("# ?/?"@) }
    else if id == 13 { Some("# ??/??"@) }
    else if id == 14 { Some("mm-dd-yy"@) }
    else if id == 15 { Some("d-mmm-yy"@) }
    else if id == 16 { Some("d-mmm"@) }
    else if id == 17 { Some("mmm-yy"@) }
    else if id == 18 { Some("h:mm AM/PM"@) }
    else if id == 19 { Some("h:mm:ss AM/PM"@) }
    else if id == 20 { Some("h:mm"@) }
    else if id == 21 { Some("h:mm:ss"@) }
    else if id == 22 { Some("m/d/yy h:mm"@) }
    else if id == 37 { Some("#,##0 ;(#,##0)"@) }
    else if id == 38 { Some("#,##0 ;[Red](#,##0)"@) }
    else if id == 39 { Some("#,##0.00;(#,##0.00)"@) }
    else if id == 40 { Some("#,##0.00;[Red](#,##0.00)"@) }
    else if id == 45 { Some("mm:ss"@) }
    else if id == 46 { Some("[h]:mm:ss"@) }
    else if id == 47 { Some("mmss.0"@) }
    else if id == 48 { Some("##0.0E+0"@) }
    else if id == 49 { Some("@"@) }
    else { None }
}

/// The code of a built-in number format.
pub fn builtin_format(id: u32) -> (r: Option<&'static str>)
    ensures
        r matches Some(s) ==> builtin_code(id) == Some(s@),
        r is None <==> builtin_code(id) is None,
{
    match id {
        1 => Some("0"),
        2 => Some("0.00"),
        3 => Some("#,##0"),
        4 => Some("#,##0.00"),
        9 => Some("0%"),
        10 => Some("0.00%"),
        11 => Some("0.00E+00"),
        12 => Some("# ?/?"),
        13 => Some("# ??/??"),
        14 => Some("mm-dd-yy"),
        15 => Some("d-mmm-yy"),
        16 => Some("d-mmm"),
        17 => Some("mmm-yy"),
        18 => Some("h:mm AM/PM"),
        19 => Some("h:mm:ss AM/PM"),
        20 => Some("h:mm"),
        21 => Some("h:mm:ss"),
        22 => Some("m/d/yy h:mm"),
        37 => Some("#,##0 ;(#,##0)"),
        38 => Some("#,##0 ;[Red](#,##0)"),
        39 => Some("#,##0.00;(#,##0.00)"),
        40 => Some("#,##0.00;[Red](#,##0.00)"),
        45 => Some("mm:ss"),
        46 => Some("[h]:mm:ss"),
        47 => Some("mmss.0"),
        48 => Some("##0.0E+0"),
        49 => Some("@"),
        _ => None,
    }
}

/// The error kind a cached error value spells; `#N/A` and anything not
/// recognised read as `Na`, and `#NULL!` as `Value`.
pub open spec fn error_of(t: Seq<char>) -> ErrorKind {
    if t == "#DIV/0!"@ {
        ErrorKind::Div0
    } else if t == "#VALUE!"@ {
        ErrorKind::Value
    } else if t == "#REF!"@ {
        ErrorKind::Ref
    } else if t == "#NAME?"@ {
        ErrorKind::Name
    } else if t == "#NUM!"@ {
        ErrorKind::Num
    } else if t == "#NULL!"@ {
        ErrorKind::Value
    } else if t == "#SPILL!"@ {
        ErrorKind::Spill
    } else {
        ErrorKind::Na
    }
}

/// The error kind of a cached error value's text.
pub fn error_kind(text: &str) -> (r: ErrorKind)
    ensures
        r == error_of(text@),
{
    if same_text(text, "#DIV/0!") {
        ErrorKind::Div0
    } else if same_text(text, "#VALUE!") {
        ErrorKind::Value
    } else if same_text(text, "#REF!") {
        ErrorKind::Ref
    } else if same_text(text, "#NAME?") {
        ErrorKind::Name
    } else if same_text(text, "#NUM!") {
        ErrorKind::Num
    } else if same_text(text, "#NULL!") {
        ErrorKind::Value
    } else if same_text(text, "#SPILL!") {
        ErrorKind::Spill
    } else {
        ErrorKind::Na
    }
}

} // verus!
