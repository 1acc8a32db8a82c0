//! Exact base-10 arithmetic for currency values.
//!
//! A signed 128-bit coefficient with a base-10 exponent: the number
//! `coeff × 10^exp`. Addition, subtraction, multiplication and comparison are
//! exact integer arithmetic; overflow is reported as `None`, never a trap.
//! Every value has exactly one representation: trailing zeros are stripped
//! from the coefficient and zero is always `{ coeff: 0, exp: 0 }`.

use core::cmp::Ordering;
use vstd::prelude::*;
use vstd::string::StringSliceAdditionalSpecFns;
use vstd::utf8::encode_utf8;
use crate::text::ascii_chars;

verus! {

/// Largest power of ten that fits in `i128` (10^38 does, 10^39 does not).
const MAX_POW10: u32 = 38;

/// Fractional digits kept by `div` before rounding half-even.
pub const DIV_SCALE: i16 = 28;

/// `10^n` as a mathematical integer.
pub open spec fn ten_pow(n: nat) -> int
    decreases n,
{
    if n == 0 {
        1
    } else {
        10 * ten_pow((n - 1) as nat)
    }
}

pub open spec fn in_i128(x: int) -> bool {
    i128::MIN <= x <= i128::MAX
}

pub open spec fn in_i16(x: int) -> bool {
    i16::MIN <= x <= i16::MAX
}

pub proof fn lemma_ten_pow_positive(n: nat)
    ensures
        ten_pow(n) >= 1,
    decreases n,
{
    if n > 0 {
        lemma_ten_pow_positive((n - 1) as nat);
    }
}

pub proof fn lemma_ten_pow_add(a: nat, b: nat)
    ensures
        ten_pow(a + b) == ten_pow(a) * ten_pow(b),
    decreases b,
{
    if b > 0 {
        lemma_ten_pow_add(a, (b - 1) as nat);
        assert(ten_pow(a + b) == 10 * ten_pow((a + b - 1) as nat));
        assert(ten_pow(a) * ten_pow(b) == ten_pow(a) * (10 * ten_pow((b - 1) as nat)));
        assert(ten_pow(a) * (10 * ten_pow((b - 1) as nat)) == 10 * (ten_pow(a) * ten_pow(
            (b - 1) as nat,
        ))) by (nonlinear_arith);
    }
}

pub proof fn lemma_ten_pow_monotone(a: nat, b: nat)
    requires
        a <= b,
    ensures
        ten_pow(a) <= ten_pow(b),
    decreases b,
{
    if a < b {
        lemma_ten_pow_monotone(a, (b - 1) as nat);
        lemma_ten_pow_positive((b - 1) as nat);
    }
}

pub proof fn lemma_ten_pow_38()
    ensures
        ten_pow(38) == 100000000000000000000000000000000000000,
        ten_pow(38) <= i128::MAX,
        ten_pow(39) > i128::MAX,
{
    reveal_with_fuel(ten_pow, 40);
}

/// Every power up to the 38th fits an `i128`.
pub proof fn lemma_ten_pow_fits(n: nat)
    requires
        n <= 38,
    ensures
        1 <= ten_pow(n) <= ten_pow(38) <= i128::MAX,
{
    lemma_ten_pow_38();
    lemma_ten_pow_monotone(n, 38);
    lemma_ten_pow_positive(n);
}

/// `10^n` for `n <= 38`, or `None` if it would not fit in `i128`.
fn pow10(n: u32) -> (r: Option<i128>)
    ensures
        r is Some <==> n <= MAX_POW10,
        r matches Some(v) ==> v == ten_pow(n as nat),
{
    if n > MAX_POW10 {
        return None;
    }
    let mut acc: i128 = 1;
    let mut i: u32 = 0;
    while i < n
        invariant
            i <= n <= 38,
            acc == ten_pow(i as nat),
        decreases n - i,
    {
        proof {
            lemma_ten_pow_fits((i + 1) as nat);
        }
        acc = acc.checked_mul(10)?;
        i = i + 1;
    }
    Some(acc)
}


/// Rust's truncating division on mathematical integers.
pub open spec fn tdiv(x: int, d: int) -> int {
    if x >= 0 {
        if d > 0 {
            x / d
        } else {
            -(x / (-d))
        }
    } else {
        if d > 0 {
            -((-x) / d)
        } else {
            (-x) / (-d)
        }
    }
}

/// Rust's remainder, which takes the sign of the dividend.
pub open spec fn trem(x: int, d: int) -> int {
    x - d * tdiv(x, d)
}

pub proof fn lemma_trem_bounds(x: int, d: int)
    requires
        d != 0,
    ensures
        x >= 0 ==> 0 <= trem(x, d) < if d > 0 { d } else { -d },
        x < 0 ==> (if d > 0 { -d } else { d }) < trem(x, d) <= 0,
        x == d * tdiv(x, d) + trem(x, d),
        tdiv(x, d) == 0 ==> trem(x, d) == x,
        abs(trem(x, d)) == abs(x) % abs(d),
        abs(tdiv(x, d)) == abs(x) / abs(d),
{
    let ad = if d > 0 { d } else { -d };
    let ax = if x >= 0 { x } else { -x };
    if tdiv(x, d) == 0 {
        assert(d * tdiv(x, d) == 0);
    }
    vstd::arithmetic::div_mod::lemma_fundamental_div_mod(ax, ad);
    vstd::arithmetic::div_mod::lemma_mod_bound(ax, ad);
    if x >= 0 {
        if d > 0 {
        } else {
            assert(d * tdiv(x, d) == ad * (x / ad)) by (nonlinear_arith)
                requires ad == -d, tdiv(x, d) == -(x / ad);
        }
    } else {
        if d > 0 {
            assert(d * tdiv(x, d) == -(ad * (ax / ad))) by (nonlinear_arith)
                requires ad == d, tdiv(x, d) == -(ax / ad);
        } else {
            assert(d * tdiv(x, d) == -(ad * (ax / ad))) by (nonlinear_arith)
                requires ad == -d, tdiv(x, d) == ax / ad;
        }
    }
}

/// Truncating division of two `i128`s, as Rust's `/` computes it.
fn div_trunc(x: i128, d: i128) -> (r: i128)
    requires
        d != 0,
        !(x == i128::MIN && d == -1),
    ensures
        r == tdiv(x as int, d as int),
{
    proof {
        let ad: int = if d > 0 { d as int } else { -d };
        let ax: int = if x >= 0 { x as int } else { -x };
        vstd::arithmetic::div_mod::lemma_div_pos_is_pos(ax, ad);
        vstd::arithmetic::div_mod::lemma_div_is_ordered_by_denominator(ax, 1, ad);
        if ad >= 2 {
            vstd::arithmetic::div_mod::lemma_div_is_ordered_by_denominator(ax, 2, ad);
        }
        assert(ax / 1 == ax);
        assert(0 <= ax / ad <= ax);
        assert(ad >= 2 ==> ax / ad <= ax / 2);
        assert(x as int * -1 == -x);
        assert(d as int * -1 == -d);
    }
    match x.checked_div(d) {
        Some(v) => v,
        None => 0,
    }
}

/// Rust's `%` on two `i128`s.
fn rem_trunc(x: i128, d: i128) -> (r: i128)
    requires
        d != 0,
        !(x == i128::MIN && d == -1),
    ensures
        r == trem(x as int, d as int),
{
    let q = div_trunc(x, d);
    proof {
        lemma_trem_bounds(x as int, d as int);
    }
    x - d * q
}

/// An exact base-10 number `coeff × 10^exp`, always in canonical form.
#[derive(Clone, Copy, PartialEq, Eq, Structural, Hash, Debug)]
pub struct Decimal {
    coeff: i128,
    exp: i16,
}

impl Decimal {
    /// The canonical zero, `0 × 10^0`.
    pub fn zero() -> (r: Decimal)
        ensures
            r.wf(),
            r.denotes(0, 0),
    {
        Decimal { coeff: 0, exp: 0 }
    }

    /// The canonical one, `1 × 10^0`.
    pub fn one() -> (r: Decimal)
        ensures
            r.wf(),
            r.denotes(1, 0),
    {
        Decimal { coeff: 1, exp: 0 }
    }

    pub closed spec fn coeff_of(self) -> int {
        self.coeff as int
    }

    pub closed spec fn exp_of(self) -> int {
        self.exp as int
    }

    /// Canonical form: zero is `(0, 0)`, and a nonzero coefficient carries no
    /// trailing zero unless the exponent is already at its maximum.
    pub open spec fn wf(self) -> bool {
        &&& (self.coeff_of() == 0 ==> self.exp_of() == 0)
        &&& (self.coeff_of() != 0 && self.exp_of() < i16::MAX ==> self.coeff_of() % 10 != 0)
    }

    /// `self` is the canonical spelling of the number `c × 10^e`.
    pub open spec fn denotes(self, c: int, e: int) -> bool {
        if c == 0 {
            self.coeff_of() == 0 && self.exp_of() == 0
        } else {
            &&& self.exp_of() >= e
            &&& self.coeff_of() * ten_pow((self.exp_of() - e) as nat) == c
        }
    }

    /// Strips trailing zeros so equal values have identical representations.
    fn normalized(coeff: i128, exp: i16) -> (r: Decimal)
        ensures
            r.wf(),
            r.denotes(coeff as int, exp as int),
    {
        if coeff == 0 {
            return Decimal { coeff: 0, exp: 0 };
        }
        let mut c = coeff;
        let mut e = exp;
        while rem_trunc(c, 10) == 0 && e < i16::MAX
            invariant
                c != 0,
                e >= exp,
                c * ten_pow((e - exp) as nat) == coeff,
            decreases i16::MAX - e,
        {
            let ghost old_c = c;
            let ghost k = (e - exp) as nat;
            proof {
                lemma_trem_bounds(c as int, 10);
            }
            c = div_trunc(c, 10);
            e = e + 1;
            proof {
                assert(old_c == c * 10);
                assert(ten_pow((e - exp) as nat) == 10 * ten_pow(k));
                assert(c * (10 * ten_pow(k)) == (c * 10) * ten_pow(k)) by (nonlinear_arith);
            }
        }
        Decimal { coeff: c, exp: e }
    }

    /// Builds a decimal from raw parts and canonicalises it.
    pub fn new(coeff: i128, exp: i16) -> (r: Decimal)
        ensures
            r.wf(),
            r.denotes(coeff as int, exp as int),
    {
        Decimal::normalized(coeff, exp)
    }

    pub fn from_i64(n: i64) -> (r: Decimal)
        ensures
            r.wf(),
            r.denotes(n as int, 0),
    {
        Decimal::new(n as i128, 0)
    }

    pub fn coefficient(&self) -> (r: i128)
        ensures
            r == self.coeff_of(),
    {
        self.coeff
    }

    pub fn exponent(&self) -> (r: i16)
        ensures
            r == self.exp_of(),
    {
        self.exp
    }

    pub fn is_zero(&self) -> (r: bool)
        ensures
            r == (self.coeff_of() == 0),
    {
        self.coeff == 0
    }

    pub fn is_negative(&self) -> (r: bool)
        ensures
            r == (self.coeff_of() < 0),
    {
        self.coeff < 0
    }
}

/// `c × 10^(e - m)` as a coefficient at exponent `m`, when the shift is one
/// `pow10` can compute and the product fits an `i128`.
pub open spec fn lift_to(c: int, e: int, m: int) -> Option<int> {
    if e - m > 38 || !in_i128(c * ten_pow((e - m) as nat)) {
        None
    } else {
        Some(c * ten_pow((e - m) as nat))
    }
}

/// Both operands brought to the smaller exponent, or `None` when that loses
/// digits to overflow.
pub open spec fn align_spec(a: Decimal, b: Decimal) -> Option<(int, int, int)> {
    let m = if a.exp_of() <= b.exp_of() { a.exp_of() } else { b.exp_of() };
    match (lift_to(a.coeff_of(), a.exp_of(), m), lift_to(b.coeff_of(), b.exp_of(), m)) {
        (Some(x), Some(y)) => Some((x, y, m)),
        _ => None,
    }
}

/// The two values as coefficients at their common, smaller exponent.
pub open spec fn at_common(a: Decimal, b: Decimal) -> (int, int) {
    let m = if a.exp_of() <= b.exp_of() { a.exp_of() } else { b.exp_of() };
    (a.coeff_of() * ten_pow((a.exp_of() - m) as nat), b.coeff_of() * ten_pow((b.exp_of() - m) as nat))
}

/// `c × 10^e` with its trailing zeros moved into the exponent, as far as
/// `i16::MAX`: the canonical spelling of that number.
pub open spec fn strip(c: int, e: int) -> (int, int)
    decreases i16::MAX - e,
{
    if c == 0 {
        (0, 0)
    } else if e < i16::MAX && c % 10 == 0 {
        strip(c / 10, e + 1)
    } else {
        (c, e)
    }
}

/// Some `Decimal` has the value `c × 10^e`: its canonical spelling fits.
pub open spec fn representable(c: int, e: int) -> bool {
    in_i128(strip(c, e).0) && in_i16(strip(c, e).1)
}

/// The exact sum (or difference, when `negate`) of two values, at their
/// common exponent, or `None` when no `Decimal` has that value.
pub open spec fn combine_spec(a: Decimal, b: Decimal, negate: bool) -> Option<(int, int)> {
    let m = if a.exp_of() <= b.exp_of() { a.exp_of() } else { b.exp_of() };
    let x = at_common(a, b).0;
    let y = at_common(a, b).1;
    let s = if negate { x - y } else { x + y };
    if representable(s, m) {
        Some((s, m))
    } else {
        None
    }
}

/// The exact sum as `(coefficient, exponent)`, or `None` when it has no
/// `Decimal`.
pub open spec fn add_spec(a: Decimal, b: Decimal) -> Option<(int, int)> {
    combine_spec(a, b, false)
}

/// The exact difference as `(coefficient, exponent)`, or `None` when it has
/// no `Decimal`.
pub open spec fn sub_spec(a: Decimal, b: Decimal) -> Option<(int, int)> {
    combine_spec(a, b, true)
}

/// What `strip` gives spells the same number, canonically.
pub proof fn lemma_strip(c: int, e: int)
    requires
        c != 0,
        e <= i16::MAX,
    ensures
        ({
            let t = strip(c, e);
            &&& e <= t.1 <= i16::MAX
            &&& t.0 != 0
            &&& t.0 * ten_pow((t.1 - e) as nat) == c
            &&& abs(t.0) <= abs(c)
            &&& (t.0 % 10 != 0 || t.1 == i16::MAX)
        }),
    decreases i16::MAX - e,
{
    if e < i16::MAX && c % 10 == 0 {
        vstd::arithmetic::div_mod::lemma_fundamental_div_mod(c, 10);
        assert(c == 10 * (c / 10));
        lemma_strip(c / 10, e + 1);
        let t = strip(c / 10, e + 1);
        let j = (t.1 - (e + 1)) as nat;
        assert((t.1 - e) as nat == j + 1);
        assert(ten_pow(j + 1) == 10 * ten_pow(j));
        assert(t.0 * ten_pow(j + 1) == (t.0 * ten_pow(j)) * 10) by (nonlinear_arith)
            requires ten_pow(j + 1) == 10 * ten_pow(j);
    } else {
        assert(ten_pow(0) == 1);
        assert(c * ten_pow(0) == c);
    }
}

/// Lifting by `10^k` while lowering the exponent by `k` spells the same
/// number.
pub proof fn lemma_strip_shift(c: int, e: int, k: nat)
    requires
        c != 0,
        e <= i16::MAX,
    ensures
        strip(c * ten_pow(k), e - k) == strip(c, e),
    decreases k,
{
    if k > 0 {
        let j = (k - 1) as nat;
        let cj = c * ten_pow(j);
        assert(ten_pow(k) == 10 * ten_pow(j));
        lemma_ten_pow_positive(j);
        assert(c * ten_pow(k) == cj * 10) by (nonlinear_arith)
            requires ten_pow(k) == 10 * ten_pow(j), cj == c * ten_pow(j);
        assert(cj != 0) by (nonlinear_arith)
            requires c != 0, ten_pow(j) >= 1, cj == c * ten_pow(j);
        vstd::arithmetic::div_mod::lemma_mod_multiples_basic(cj, 10);
        vstd::arithmetic::div_mod::lemma_div_multiples_vanish(cj, 10);
        assert((cj * 10) % 10 == 0);
        assert((cj * 10) / 10 == cj);
        assert(strip(c * ten_pow(k), e - k) == strip(cj, e - k + 1));
        lemma_strip_shift(c, e, j);
        assert(e - k + 1 == e - j);
    } else {
        assert(ten_pow(0) == 1);
        assert(c * ten_pow(0) == c);
    }
}

/// A canonical decimal's own value, at any lower exponent, strips back to it.
proof fn lemma_canonical_strip(d: Decimal, m: int)
    requires
        d.wf(),
        m <= d.exp_of(),
    ensures
        strip(d.coeff_of() * ten_pow((d.exp_of() - m) as nat), m) == (d.coeff_of(), d.exp_of()),
        d.denotes(d.coeff_of() * ten_pow((d.exp_of() - m) as nat), m),
{
    let k = (d.exp_of() - m) as nat;
    if d.coeff_of() != 0 {
        lemma_strip_shift(d.coeff_of(), d.exp_of(), k);
        assert(d.exp_of() - k == m);
    } else {
        assert(0 * ten_pow(k) == 0);
    }
}

/// The exact product as `(coefficient, exponent)`, or `None` on overflow.
pub open spec fn mul_spec(a: Decimal, b: Decimal) -> Option<(int, int)> {
    let c = a.coeff_of() * b.coeff_of();
    let e = a.exp_of() + b.exp_of();
    if in_i128(c) && in_i16(e) {
        Some((c, e))
    } else {
        None
    }
}

/// The negation as `(coefficient, exponent)`, or `None` on overflow.
pub open spec fn neg_spec(a: Decimal) -> Option<(int, int)> {
    if in_i128(-a.coeff_of()) {
        Some((-a.coeff_of(), a.exp_of()))
    } else {
        None
    }
}

/// A `Decimal` result that is the canonical spelling of `spec`'s answer.
pub open spec fn canonical_result(r: Option<Decimal>, spec: Option<(int, int)>) -> bool {
    &&& r is Some <==> spec is Some
    &&& r matches Some(d) ==> d.wf() && d.denotes(spec.unwrap().0, spec.unwrap().1)
}

pub open spec fn abs(x: int) -> int {
    if x < 0 {
        -x
    } else {
        x
    }
}

/// `n / d` rounded to the nearest integer, ties to the even neighbour.
pub open spec fn half_even_quotient(n: int, d: int) -> int {
    let an = abs(n);
    let ad = abs(d);
    let q = an / ad;
    let r = an % ad;
    let up = 2 * r > ad || (2 * r == ad && q % 2 == 1);
    let m = if up { q + 1 } else { q };
    if (n < 0) != (d < 0) {
        -m
    } else {
        m
    }
}

/// Where the canonical spelling of `c × 10^e` starts: above `i16::MAX` the
/// excess moves into the coefficient.
pub open spec fn capped(c: int, e: int) -> (int, int) {
    if e > i16::MAX {
        (c * ten_pow((e - i16::MAX) as nat), i16::MAX as int)
    } else {
        (c, e)
    }
}

/// The number `c × 10^e` as `(coefficient, exponent)`, or `None` when no
/// `Decimal` has it.
pub open spec fn canon_spec(c: int, e: int) -> Option<(int, int)> {
    let t = capped(c, e);
    if representable(t.0, t.1) {
        Some(t)
    } else {
        None
    }
}

/// `v` with a sign.
pub open spec fn signed(neg: bool, v: int) -> int {
    if neg {
        -v
    } else {
        v
    }
}

/// The quotient as `(coefficient, exponent)`: exact when it terminates within
/// `DIV_SCALE` fractional digits, rounded half-even otherwise. `None` for a
/// zero divisor, and when no `Decimal` has the rounded quotient.
pub open spec fn div_spec(a: Decimal, b: Decimal) -> Option<(int, int)> {
    if b.coeff_of() == 0 {
        None
    } else if a.coeff_of() == 0 {
        Some((0, 0))
    } else {
        canon_spec(
            half_even_quotient(a.coeff_of() * ten_pow(28), b.coeff_of()),
            a.exp_of() - b.exp_of() - 28,
        )
    }
}

/// One step of long division: the next quotient digit of `10r / b` and the
/// new remainder, by adding `r` ten times and taking `b` away whenever the
/// running total reaches it, so that nothing passes `u128`.
fn digit_step(r: u128, b: u128) -> (res: (u128, u128))
    requires
        1 <= b <= 0x8000_0000_0000_0000_0000_0000_0000_0000,
        r < b,
    ensures
        10 * r == res.0 * b + res.1,
        res.1 < b,
        res.0 < 10,
{
    let mut acc: u128 = 0;
    let mut t: u128 = 0;
    let mut j: u32 = 0;
    while j < 10
        invariant
            j <= 10,
            1 <= b <= 0x8000_0000_0000_0000_0000_0000_0000_0000,
            r < b,
            j * r == t * b + acc,
            acc < b,
            t <= j,
        decreases 10 - j,
    {
        let s = acc + r;
        let ghost t0 = t;
        let ghost acc0 = acc;
        if s >= b {
            acc = s - b;
            t = t + 1;
        } else {
            acc = s;
        }
        proof {
            assert((j + 1) * r == j * r + r) by (nonlinear_arith);
            assert((t0 + 1) * b == t0 * b + b) by (nonlinear_arith);
            assert((j + 1) * r == t * b + acc);
        }
        j = j + 1;
    }
    proof {
        assert(t < 10) by (nonlinear_arith)
            requires 10 * r == t * b + acc, r < b, acc >= 0, b >= 1, t >= 0;
    }
    (t, acc)
}

/// `a × 10^28` divided by `b`: the whole quotient `q0 × 10^28 + d` and the
/// remainder, by long division one decimal digit at a time.
fn long_divide(a: u128, b: u128) -> (res: (u128, u128, u128))
    requires
        1 <= b <= 0x8000_0000_0000_0000_0000_0000_0000_0000,
        a <= 0x8000_0000_0000_0000_0000_0000_0000_0000,
    ensures
        a * ten_pow(28) == (res.0 * ten_pow(28) + res.1) * b + res.2,
        res.2 < b,
        res.1 < ten_pow(28),
        res.0 <= a,
{
    let q0 = a / b;
    let mut r = a % b;
    let mut d: u128 = 0;
    let mut i: u32 = 0;
    proof {
        lemma_ten_pow_fits(28);
        vstd::arithmetic::div_mod::lemma_fundamental_div_mod(a as int, b as int);
        vstd::arithmetic::div_mod::lemma_div_is_ordered_by_denominator(a as int, 1, b as int);
        assert(ten_pow(0) == 1);
        assert(a * ten_pow(0) == (q0 * ten_pow(0) + d) * b + r) by (nonlinear_arith)
            requires a == b * q0 + r, ten_pow(0) == 1, d == 0;
    }
    while i < 28
        invariant
            i <= 28,
            1 <= b <= 0x8000_0000_0000_0000_0000_0000_0000_0000,
            r < b,
            d < ten_pow(i as nat),
            a * ten_pow(i as nat) == (q0 * ten_pow(i as nat) + d) * b + r,
            q0 <= a,
            ten_pow(28) <= i128::MAX,
        decreases 28 - i,
    {
        let (t, r2) = digit_step(r, b);
        proof {
            lemma_ten_pow_fits((i + 1) as nat);
            assert(ten_pow((i + 1) as nat) == 10 * ten_pow(i as nat));
            assert(d * 10 + t < ten_pow((i + 1) as nat)) by (nonlinear_arith)
                requires d < ten_pow(i as nat), t < 10, ten_pow((i + 1) as nat) == 10 * ten_pow(i as nat);
            assert(a * ten_pow((i + 1) as nat) == (q0 * ten_pow((i + 1) as nat) + (d * 10 + t)) * b + r2)
                by (nonlinear_arith)
                requires
                    a * ten_pow(i as nat) == (q0 * ten_pow(i as nat) + d) * b + r,
                    10 * r == t * b + r2,
                    ten_pow((i + 1) as nat) == 10 * ten_pow(i as nat);
            lemma_ten_pow_monotone((i + 1) as nat, 28);
        }
        d = d * 10 + t;
        r = r2;
        i = i + 1;
    }
    (q0, d, r)
}

/// The magnitude of a coefficient, which always fits `u128`.
fn abs_u128(c: i128) -> (r: u128)
    ensures
        r == abs(c as int),
        r <= 0x8000_0000_0000_0000_0000_0000_0000_0000,
{
    if c == i128::MIN {
        0x8000_0000_0000_0000_0000_0000_0000_0000u128
    } else if c < 0 {
        (-c) as u128
    } else {
        c as u128
    }
}

/// `mag × 10^k`, or `None` when that passes `u128::MAX`.
fn lift_mag(mag: u128, k: u32) -> (r: Option<u128>)
    requires
        mag >= 1,
    ensures
        r is Some <==> mag * ten_pow(k as nat) <= u128::MAX,
        r matches Some(v) ==> v == mag * ten_pow(k as nat),
{
    if k > MAX_POW10 {
        proof {
            reveal_with_fuel(ten_pow, 40);
            lemma_ten_pow_monotone(39, k as nat);
            assert(mag * ten_pow(k as nat) >= ten_pow(k as nat)) by (nonlinear_arith)
                requires mag >= 1, ten_pow(k as nat) >= 1;
        }
        return None;
    }
    let factor = match pow10(k) {
        Some(f) => f,
        None => return None,
    };
    proof {
        lemma_ten_pow_fits(k as nat);
    }
    mag.checked_mul(factor as u128)
}

/// Between canonical operands at different exponents, the value at the
/// smaller exponent ends in a non-zero digit, so the exact sum does too and
/// is its own canonical coefficient.
proof fn lemma_sum_last_digit(a: Decimal, b: Decimal, negate: bool)
    requires
        a.wf(),
        b.wf(),
        a.coeff_of() != 0,
        b.coeff_of() != 0,
        a.exp_of() != b.exp_of(),
    ensures
        ({
            let m = if a.exp_of() <= b.exp_of() { a.exp_of() } else { b.exp_of() };
            let x = at_common(a, b).0;
            let y = at_common(a, b).1;
            let s = if negate { x - y } else { x + y };
            s % 10 != 0 && strip(s, m) == (s, m)
        }),
{
    let m = if a.exp_of() <= b.exp_of() { a.exp_of() } else { b.exp_of() };
    let x = at_common(a, b).0;
    let y = at_common(a, b).1;
    let s = if negate { x - y } else { x + y };
    assert(ten_pow(0) == 1);
    if a.exp_of() < b.exp_of() {
        let k = (b.exp_of() - m) as nat;
        assert(ten_pow(k) == 10 * ten_pow((k - 1) as nat));
        assert(y == (b.coeff_of() * ten_pow((k - 1) as nat)) * 10) by (nonlinear_arith)
            requires y == b.coeff_of() * ten_pow(k), ten_pow(k) == 10 * ten_pow((k - 1) as nat);
        assert(x == a.coeff_of());
        assert(a.coeff_of() % 10 != 0);
        vstd::arithmetic::div_mod::lemma_mod_multiples_basic(b.coeff_of() * ten_pow((k - 1) as nat), 10);
        vstd::arithmetic::div_mod::lemma_fundamental_div_mod(x, 10);
        vstd::arithmetic::div_mod::lemma_fundamental_div_mod(y, 10);
        if s % 10 == 0 {
            vstd::arithmetic::div_mod::lemma_fundamental_div_mod(s, 10);
            assert(x == s - (if negate { -y } else { y }));
            vstd::arithmetic::div_mod::lemma_fundamental_div_mod_converse(
                x,
                10,
                s / 10 - (if negate { -(y / 10) } else { y / 10 }),
                0,
            );
        }
    } else {
        let k = (a.exp_of() - m) as nat;
        assert(ten_pow(k) == 10 * ten_pow((k - 1) as nat));
        assert(x == (a.coeff_of() * ten_pow((k - 1) as nat)) * 10) by (nonlinear_arith)
            requires x == a.coeff_of() * ten_pow(k), ten_pow(k) == 10 * ten_pow((k - 1) as nat);
        assert(y == b.coeff_of());
        assert(b.coeff_of() % 10 != 0);
        vstd::arithmetic::div_mod::lemma_mod_multiples_basic(a.coeff_of() * ten_pow((k - 1) as nat), 10);
        vstd::arithmetic::div_mod::lemma_fundamental_div_mod(x, 10);
        vstd::arithmetic::div_mod::lemma_fundamental_div_mod(y, 10);
        if s % 10 == 0 {
            vstd::arithmetic::div_mod::lemma_fundamental_div_mod(s, 10);
            let yy = if negate { -y } else { y };
            assert(yy == s - x);
            vstd::arithmetic::div_mod::lemma_fundamental_div_mod_converse(y, 10, if negate {
                -(s / 10 - x / 10)
            } else {
                s / 10 - x / 10
            }, 0);
        }
    }
}

/// When a lifted magnitude passes `u128::MAX`, the exact sum is past `i128`
/// and is its own canonical coefficient.
proof fn lemma_lift_too_big(a: Decimal, b: Decimal, negate: bool)
    requires
        a.wf(),
        b.wf(),
        a.coeff_of() != 0,
        b.coeff_of() != 0,
        ({
            let m = if a.exp_of() <= b.exp_of() { a.exp_of() } else { b.exp_of() };
            abs(a.coeff_of()) * ten_pow((a.exp_of() - m) as nat) > u128::MAX || abs(b.coeff_of())
                * ten_pow((b.exp_of() - m) as nat) > u128::MAX
        }),
    ensures
        combine_spec(a, b, negate) is None,
{
    let m = if a.exp_of() <= b.exp_of() { a.exp_of() } else { b.exp_of() };
    let x = at_common(a, b).0;
    let y = at_common(a, b).1;
    let s = if negate { x - y } else { x + y };
    let ka = (a.exp_of() - m) as nat;
    let kb = (b.exp_of() - m) as nat;
    assert(ten_pow(0) == 1);
    lemma_ten_pow_positive(ka);
    lemma_ten_pow_positive(kb);
    assert(abs(x) == abs(a.coeff_of()) * ten_pow(ka)) by (nonlinear_arith)
        requires x == a.coeff_of() * ten_pow(ka), ten_pow(ka) >= 1;
    assert(abs(y) == abs(b.coeff_of()) * ten_pow(kb)) by (nonlinear_arith)
        requires y == b.coeff_of() * ten_pow(kb), ten_pow(kb) >= 1;
    assert(abs(a.coeff_of()) <= 0x8000_0000_0000_0000_0000_0000_0000_0000);
    assert(abs(b.coeff_of()) <= 0x8000_0000_0000_0000_0000_0000_0000_0000);
    if a.exp_of() == b.exp_of() {
        assert(abs(a.coeff_of()) * 1 == abs(a.coeff_of()));
        assert(abs(b.coeff_of()) * 1 == abs(b.coeff_of()));
        assert(false);
    }
    lemma_sum_last_digit(a, b, negate);
    if abs(x) > u128::MAX {
        assert(x % 10 == 0) by {
            assert(ka >= 1);
            assert(ten_pow(ka) == 10 * ten_pow((ka - 1) as nat));
            assert(x == (a.coeff_of() * ten_pow((ka - 1) as nat)) * 10) by (nonlinear_arith)
                requires x == a.coeff_of() * ten_pow(ka), ten_pow(ka) == 10 * ten_pow((ka - 1) as nat);
            vstd::arithmetic::div_mod::lemma_mod_multiples_basic(a.coeff_of() * ten_pow((ka - 1) as nat), 10);
        }
        assert(abs(x) != 0x1_0000_0000_0000_0000_0000_0000_0000_0000) by {
            if abs(x) == 0x1_0000_0000_0000_0000_0000_0000_0000_0000 {
                assert(x == 0x1_0000_0000_0000_0000_0000_0000_0000_0000 || x == -0x1_0000_0000_0000_0000_0000_0000_0000_0000int);
            }
        }
        assert(b.exp_of() == m);
        assert(abs(y) == abs(b.coeff_of()));
    } else {
        assert(y % 10 == 0) by {
            assert(kb >= 1);
            assert(ten_pow(kb) == 10 * ten_pow((kb - 1) as nat));
            assert(y == (b.coeff_of() * ten_pow((kb - 1) as nat)) * 10) by (nonlinear_arith)
                requires y == b.coeff_of() * ten_pow(kb), ten_pow(kb) == 10 * ten_pow((kb - 1) as nat);
            vstd::arithmetic::div_mod::lemma_mod_multiples_basic(b.coeff_of() * ten_pow((kb - 1) as nat), 10);
        }
        assert(abs(y) != 0x1_0000_0000_0000_0000_0000_0000_0000_0000) by {
            if abs(y) == 0x1_0000_0000_0000_0000_0000_0000_0000_0000 {
                assert(y == 0x1_0000_0000_0000_0000_0000_0000_0000_0000 || y == -0x1_0000_0000_0000_0000_0000_0000_0000_0000int);
            }
        }
        assert(a.exp_of() == m);
        assert(abs(x) == abs(a.coeff_of()));
    }
    assert(!in_i128(s));
}

/// When two magnitudes of one sign sum past `u128::MAX`, the exact sum has
/// no `Decimal`.
proof fn lemma_sum_too_big(a: Decimal, b: Decimal, negate: bool)
    requires
        a.wf(),
        b.wf(),
        a.coeff_of() != 0,
        b.coeff_of() != 0,
        ({
            let x = at_common(a, b).0;
            let y = at_common(a, b).1;
            let yy = if negate { -y } else { y };
            &&& (x < 0) == (yy < 0)
            &&& abs(x) + abs(yy) > u128::MAX
        }),
    ensures
        combine_spec(a, b, negate) is None,
{
    let m = if a.exp_of() <= b.exp_of() { a.exp_of() } else { b.exp_of() };
    let x = at_common(a, b).0;
    let y = at_common(a, b).1;
    let s = if negate { x - y } else { x + y };
    assert(ten_pow(0) == 1);
    if a.exp_of() != b.exp_of() {
        lemma_sum_last_digit(a, b, negate);
    } else {
        assert(x == a.coeff_of() * 1);
        assert(y == b.coeff_of() * 1);
        assert(abs(x) <= 0x8000_0000_0000_0000_0000_0000_0000_0000);
        assert(abs(y) <= 0x8000_0000_0000_0000_0000_0000_0000_0000);
        assert(s == 0x1_0000_0000_0000_0000_0000_0000_0000_0000 || s == -0x1_0000_0000_0000_0000_0000_0000_0000_0000int);
        assert(s % 10 != 0);
        assert(strip(s, m) == (s, m));
    }
}

proof fn lemma_abs_mul(c: int, k: int)
    requires
        k >= 1,
    ensures
        abs(c * k) == abs(c) * k,
{
    if c < 0 {
        assert(c * k < 0) by (nonlinear_arith)
            requires c < 0, k >= 1;
        assert(-(c * k) == (-c) * k) by (nonlinear_arith);
    } else {
        assert(c * k >= 0) by (nonlinear_arith)
            requires c >= 0, k >= 1;
    }
}

/// A value past `u128::MAX` at the end of stripping has no `Decimal`.
proof fn lemma_canonical_of_too_big(neg: bool, v: int, v0: int, ee: int, e: int)
    requires
        v > u128::MAX,
        e <= i16::MAX ==> strip(signed(neg, v), ee) == strip(signed(neg, v0), e),
        e <= i16::MAX ==> (v % 10 != 0 || ee >= i16::MAX),
        e > i16::MAX ==> v == v0,
    ensures
        canon_spec(signed(neg, v0), e) is None,
{
    if e <= i16::MAX {
        let sv = signed(neg, v);
        if neg && ee < i16::MAX {
            if sv % 10 == 0 {
                vstd::arithmetic::div_mod::lemma_fundamental_div_mod(sv, 10);
                vstd::arithmetic::div_mod::lemma_fundamental_div_mod_converse(v, 10, -(sv / 10), 0);
            }
        }
        assert(strip(sv, ee) == (sv, ee));
    } else {
        let k = (e - i16::MAX) as nat;
        lemma_ten_pow_positive(k);
        assert(v * ten_pow(k) >= v) by (nonlinear_arith)
            requires v > 0, ten_pow(k) >= 1;
        let c = signed(neg, v) * ten_pow(k);
        assert(abs(c) == v * ten_pow(k)) by (nonlinear_arith)
            requires c == signed(neg, v) * ten_pow(k), ten_pow(k) >= 1, v > 0;
        assert(c != 0);
        assert(strip(c, i16::MAX as int) == (c, i16::MAX as int));
    }
}

/// An exponent above `i16::MAX` whose excess does not fit the coefficient
/// leaves no `Decimal`.
proof fn lemma_capped_too_big(neg: bool, v: int, e: int)
    requires
        v >= 1,
        e > i16::MAX,
        v * ten_pow((e - i16::MAX) as nat) > u128::MAX,
    ensures
        canon_spec(signed(neg, v), e) is None,
{
    let k = (e - i16::MAX) as nat;
    lemma_ten_pow_positive(k);
    let c = signed(neg, v) * ten_pow(k);
    assert(abs(c) == v * ten_pow(k)) by (nonlinear_arith)
        requires c == signed(neg, v) * ten_pow(k), ten_pow(k) >= 1, v > 0;
    assert(c != 0);
    assert(strip(c, i16::MAX as int) == (c, i16::MAX as int));
}

/// At the end of stripping, the canonical spelling is the stripped value at
/// its exponent (or, above `i16::MAX`, lifted to it).
proof fn lemma_canonical_of_ends(neg: bool, v: int, v0: int, ee: int, e: int, mag: int)
    requires
        v >= 1,
        e <= i16::MAX ==> strip(signed(neg, v), ee) == strip(signed(neg, v0), e),
        e <= i16::MAX ==> (v % 10 != 0 || ee >= i16::MAX) && ee <= i16::MAX && ee >= e && mag == v,
        e > i16::MAX ==> v == v0 && ee == e && mag == v * ten_pow((e - i16::MAX) as nat),
    ensures
        ({
            let ex = if ee > i16::MAX { i16::MAX as int } else { ee };
            let t = capped(signed(neg, v0), e);
            &&& strip(t.0, t.1) == (signed(neg, mag), ex)
            &&& canon_spec(signed(neg, v0), e) == (if representable(t.0, t.1) { Some(t) } else { None::<(int, int)> })
            &&& t.0 != 0
            &&& t.1 <= i16::MAX
        }),
{
    if e <= i16::MAX {
        let sv = signed(neg, v);
        if neg && ee < i16::MAX {
            if sv % 10 == 0 {
                vstd::arithmetic::div_mod::lemma_fundamental_div_mod(sv, 10);
                vstd::arithmetic::div_mod::lemma_fundamental_div_mod_converse(v, 10, -(sv / 10), 0);
            }
        }
        assert(strip(sv, ee) == (sv, ee));
        assert(signed(neg, v0) != 0) by {
            if signed(neg, v0) == 0 {
                assert(strip(0, e) == (0int, 0int));
            }
        }
    } else {
        let k = (e - i16::MAX) as nat;
        lemma_ten_pow_positive(k);
        assert(signed(neg, v) * ten_pow(k) == signed(neg, v * ten_pow(k))) by (nonlinear_arith);
        assert(v * ten_pow(k) >= 1) by (nonlinear_arith)
            requires v >= 1, ten_pow(k) >= 1;
    }
}

impl Decimal {
    /// The coefficient at exponent `target`, or `None` if that would overflow
    /// or would discard non-zero digits.
    fn rescaled_to(&self, target: i16) -> (r: Option<i128>)
        ensures
            self.exp_of() >= target ==> (r is Some <==> lift_to(
                self.coeff_of(),
                self.exp_of(),
                target as int,
            ) is Some),
            self.exp_of() >= target ==> (r matches Some(v) ==> lift_to(
                self.coeff_of(),
                self.exp_of(),
                target as int,
            ) == Some(v as int)),
            self.exp_of() < target ==> (r is Some <==> (target - self.exp_of() <= 38 && trem(
                self.coeff_of(),
                ten_pow((target - self.exp_of()) as nat),
            ) == 0)),
            self.exp_of() < target ==> (r matches Some(v) ==> v * ten_pow(
                (target - self.exp_of()) as nat,
            ) == self.coeff_of()),
    {
        if self.exp == target {
            proof {
                assert(ten_pow(0) == 1);
                assert(self.coeff_of() * ten_pow(0) == self.coeff_of());
            }
            Some(self.coeff)
        } else if self.exp > target {
            let shift = (self.exp as i32 - target as i32) as u32;
            let factor = pow10(shift)?;
            proof {
                lemma_ten_pow_fits(shift as nat);
            }
            let c = self.coeff.checked_mul(factor)?;
            Some(c)
        } else {
            let shift = (target as i32 - self.exp as i32) as u32;
            let factor = pow10(shift)?;
            proof {
                lemma_ten_pow_fits(shift as nat);
            }
            let rem = rem_trunc(self.coeff, factor);
            let q = div_trunc(self.coeff, factor);
            proof {
                lemma_trem_bounds(self.coeff as int, factor as int);
            }
            if rem != 0 {
                return None;
            }
            proof {
                assert(shift as nat == (target - self.exp_of()) as nat);
                assert(q * factor == factor * q) by (nonlinear_arith);
                assert(q * factor == self.coeff);
            }
            Some(q)
        }
    }

    /// Brings both operands to a common exponent without losing digits.
    fn align(a: &Decimal, b: &Decimal) -> (r: Option<(i128, i128, i16)>)
        ensures
            r is Some <==> align_spec(*a, *b) is Some,
            r matches Some((x, y, m)) ==> align_spec(*a, *b) == Some((x as int, y as int, m as int)),
    {
        let target = if a.exp <= b.exp { a.exp } else { b.exp };
        let x = a.rescaled_to(target)?;
        let y = b.rescaled_to(target)?;
        Some((x, y, target))
    }

    /// The sum (or, with `negate`, the difference) of two canonical
    /// decimals, exactly: the operands' magnitudes are combined as unsigned
    /// 128-bit numbers at the common exponent, so an intermediate value past
    /// `i128` is no reason to fail, and the result is stripped of trailing
    /// zeros before it must fit.
    #[verifier::rlimit(100)]
    #[verifier::spinoff_prover]
    fn combine(a: &Decimal, b: &Decimal, negate: bool) -> (r: Option<Decimal>)
        requires
            a.wf(),
            b.wf(),
        ensures
            canonical_result(r, combine_spec(*a, *b, negate)),
    {
        let ghost m: int = if a.exp_of() <= b.exp_of() { a.exp_of() } else { b.exp_of() };
        let ghost x = at_common(*a, *b).0;
        let ghost y = at_common(*a, *b).1;
        let ghost sum: int = if negate { x - y } else { x + y };
        if b.coeff == 0 {
            proof {
                assert(0 * ten_pow((b.exp_of() - m) as nat) == 0);
                lemma_canonical_strip(*a, m);
            }
            return Some(*a);
        }
        if a.coeff == 0 {
            proof {
                assert(0 * ten_pow((a.exp_of() - m) as nat) == 0);
                lemma_canonical_strip(*b, m);
            }
            if !negate {
                return Some(*b);
            }
            proof {
                let k = (b.exp_of() - m) as nat;
                assert(-(b.coeff_of() * ten_pow(k)) == (-b.coeff_of()) * ten_pow(k)) by (nonlinear_arith);
                lemma_strip_shift(-b.coeff_of(), b.exp_of(), k);
                assert(b.exp_of() - k == m);
                if (-b.coeff_of()) % 10 == 0 {
                    vstd::arithmetic::div_mod::lemma_fundamental_div_mod(-b.coeff_of(), 10);
                    let q = (-b.coeff_of()) / 10;
                    assert(b.coeff_of() == (-q) * 10 + 0);
                    vstd::arithmetic::div_mod::lemma_fundamental_div_mod_converse(
                        b.coeff_of(),
                        10,
                        -q,
                        0,
                    );
                }
                assert(strip(-b.coeff_of(), b.exp_of()) == (-b.coeff_of(), b.exp_of()));
            }
            if b.coeff == i128::MIN {
                return None;
            }
            proof {
                assert(ten_pow(0) == 1);
            }
            return Some(Decimal { coeff: -b.coeff, exp: b.exp });
        }
        let target: i16 = if a.exp <= b.exp { a.exp } else { b.exp };
        let ka = (a.exp as i32 - target as i32) as u32;
        let kb = (b.exp as i32 - target as i32) as u32;
        let a_neg = a.coeff < 0;
        let b_neg = (b.coeff < 0) != negate;
        let ma = abs_u128(a.coeff);
        let mb = abs_u128(b.coeff);
        proof {
            lemma_ten_pow_positive(ka as nat);
            lemma_ten_pow_positive(kb as nat);
            assert(ten_pow(0) == 1);
            if a.exp_of() != b.exp_of() {
                lemma_sum_last_digit(*a, *b, negate);
            }
        }
        let la = lift_mag(ma, ka);
        let lb = lift_mag(mb, kb);
        let (xa, xb) = match (la, lb) {
            (Some(xa), Some(xb)) => (xa, xb),
            _ => {
                proof {
                    lemma_lift_too_big(*a, *b, negate);
                }
                return None;
            },
        };
        proof {
            assert(abs(x) == xa) by {
                assert(abs(a.coeff_of() * ten_pow(ka as nat)) == abs(a.coeff_of()) * ten_pow(ka as nat)) by (nonlinear_arith)
                    requires ten_pow(ka as nat) >= 1;
            }
            assert(abs(y) == xb) by {
                assert(abs(b.coeff_of() * ten_pow(kb as nat)) == abs(b.coeff_of()) * ten_pow(kb as nat)) by (nonlinear_arith)
                    requires ten_pow(kb as nat) >= 1;
            }
            lemma_lift_sign(a.coeff_of(), ka as nat);
            lemma_lift_sign(b.coeff_of(), kb as nat);
        }
        let (neg, mag): (bool, u128) = if a_neg == b_neg {
            match xa.checked_add(xb) {
                Some(t) => (a_neg, t),
                None => {
                    proof {
                        lemma_sum_too_big(*a, *b, negate);
                    }
                    return None;
                },
            }
        } else if xa >= xb {
            (a_neg, xa - xb)
        } else {
            (b_neg, xb - xa)
        };
        proof {
            assert(sum == if neg { -(mag as int) } else { mag as int });
        }
        if mag == 0 {
            return Some(Decimal::zero());
        }
        let mut mm = mag;
        let mut e = target;
        while mm % 10 == 0 && e < i16::MAX
            invariant
                mm != 0,
                e >= target,
                target == m,
                m <= i16::MAX,
                strip(if neg { -(mm as int) } else { mm as int }, e as int) == strip(sum, m),
            decreases i16::MAX - e,
        {
            let ghost v: int = if neg { -(mm as int) } else { mm as int };
            proof {
                vstd::arithmetic::div_mod::lemma_fundamental_div_mod(mm as int, 10);
                assert(v % 10 == 0) by {
                    if neg {
                        vstd::arithmetic::div_mod::lemma_fundamental_div_mod_converse(
                            v,
                            10,
                            -((mm / 10) as int),
                            0,
                        );
                    }
                }
                assert(v / 10 == if neg { -((mm / 10) as int) } else { (mm / 10) as int }) by {
                    if neg {
                        vstd::arithmetic::div_mod::lemma_fundamental_div_mod_converse(
                            v,
                            10,
                            -((mm / 10) as int),
                            0,
                        );
                    }
                }
            }
            mm = mm / 10;
            e = e + 1;
        }
        let ghost v: int = if neg { -(mm as int) } else { mm as int };
        proof {
            vstd::arithmetic::div_mod::lemma_fundamental_div_mod(mm as int, 10);
            if e < i16::MAX {
                assert(v % 10 != 0) by {
                    if neg && v % 10 == 0 {
                        vstd::arithmetic::div_mod::lemma_fundamental_div_mod(v, 10);
                        vstd::arithmetic::div_mod::lemma_fundamental_div_mod_converse(
                            mm as int,
                            10,
                            -(v / 10),
                            0,
                        );
                    }
                }
            }
            assert(strip(v, e as int) == (v, e as int));
            lemma_strip(sum, m);
        }
        if !neg {
            if mm > 0x7fff_ffff_ffff_ffff_ffff_ffff_ffff_ffffu128 {
                return None;
            }
            Some(Decimal { coeff: mm as i128, exp: e })
        } else {
            if mm > 0x8000_0000_0000_0000_0000_0000_0000_0000u128 {
                return None;
            }
            if mm == 0x8000_0000_0000_0000_0000_0000_0000_0000u128 {
                return Some(Decimal { coeff: i128::MIN, exp: e });
            }
            Some(Decimal { coeff: -(mm as i128), exp: e })
        }
    }

    /// Exact addition: `None` only when no `Decimal` has the sum.
    pub fn add(&self, other: &Decimal) -> (r: Option<Decimal>)
        requires
            self.wf(),
            other.wf(),
        ensures
            canonical_result(r, add_spec(*self, *other)),
    {
        Decimal::combine(self, other, false)
    }

    /// Exact subtraction: `None` only when no `Decimal` has the difference.
    pub fn sub(&self, other: &Decimal) -> (r: Option<Decimal>)
        requires
            self.wf(),
            other.wf(),
        ensures
            canonical_result(r, sub_spec(*self, *other)),
    {
        Decimal::combine(self, other, true)
    }

    /// Exact multiplication. `None` on coefficient or exponent overflow.
    pub fn mul(&self, other: &Decimal) -> (r: Option<Decimal>)
        ensures
            canonical_result(r, mul_spec(*self, *other)),
    {
        let coeff = self.coeff.checked_mul(other.coeff)?;
        let exp = self.exp.checked_add(other.exp)?;
        Some(Decimal::new(coeff, exp))
    }

    /// Division, exact when it terminates within [`DIV_SCALE`] fractional
    /// digits and rounded half-even otherwise. `None` for division by zero and
    /// when no `Decimal` has the rounded quotient. The quotient is found by
    /// long division on the magnitudes, so no intermediate can overflow.
    #[verifier::rlimit(60)]
    #[verifier::spinoff_prover]
    pub fn div(&self, other: &Decimal) -> (r: Option<Decimal>)
        ensures
            canonical_result(r, div_spec(*self, *other)),
    {
        if other.is_zero() {
            return None;
        }
        if self.is_zero() {
            return Some(Decimal::zero());
        }
        let am = abs_u128(self.coeff);
        let bm = abs_u128(other.coeff);
        let (q0, d, rem) = long_divide(am, bm);
        let twice = rem * 2;
        let up = twice > bm || (twice == bm && d % 2 == 1);
        let ghost big_n: int = q0 * ten_pow(28) + d;
        proof {
            lemma_ten_pow_fits(28);
            reveal_with_fuel(ten_pow, 29);
        }
        let (hi, lo): (u128, u128) = if up {
            if d + 1 == 10_000_000_000_000_000_000_000_000_000u128 {
                (q0 + 1, 0)
            } else {
                (q0, d + 1)
            }
        } else {
            (q0, d)
        };
        let neg = (self.coeff < 0) != (other.coeff < 0);
        let e: i32 = self.exp as i32 - other.exp as i32 - 28;
        proof {
            let n = self.coeff_of() * ten_pow(28);
            let an = abs(n);
            let ad = abs(other.coeff_of());
            lemma_abs_mul(self.coeff_of(), ten_pow(28));
            assert(an == am * ten_pow(28));
            assert(an == big_n * ad + rem);
            vstd::arithmetic::div_mod::lemma_fundamental_div_mod_converse(an, ad, big_n, rem as int);
            assert(big_n % 2 == d % 2) by {
                assert(ten_pow(28) == 2 * 5_000_000_000_000_000_000_000_000_000);
                assert(big_n == (q0 * 5_000_000_000_000_000_000_000_000_000) * 2 + d) by (nonlinear_arith)
                    requires big_n == q0 * ten_pow(28) + d, ten_pow(28) == 2 * 5_000_000_000_000_000_000_000_000_000;
                vstd::arithmetic::div_mod::lemma_mod_multiples_vanish(
                    q0 * 5_000_000_000_000_000_000_000_000_000,
                    d as int,
                    2,
                );
            }
            assert((n < 0) == (self.coeff < 0)) by (nonlinear_arith)
                requires n == self.coeff_of() * ten_pow(28), ten_pow(28) >= 1;
            assert(ten_pow(28) == 10_000_000_000_000_000_000_000_000_000);
            assert(hi * ten_pow(28) + lo == big_n + if up { 1int } else { 0int }) by {
                if up && d + 1 == 10_000_000_000_000_000_000_000_000_000 {
                    assert((q0 + 1) * ten_pow(28) == q0 * ten_pow(28) + ten_pow(28)) by (nonlinear_arith);
                }
            }
            assert(half_even_quotient(n, other.coeff_of()) == signed(neg, hi * ten_pow(28) + lo));
        }
        Decimal::canonical_of(neg, hi, lo, e)
    }

    /// The canonical decimal for `±(hi × 10^28 + lo) × 10^e`, or `None` when
    /// none has that value: trailing zeros move into the exponent as far as
    /// `i16::MAX`, and an exponent above it moves into the coefficient.
    #[verifier::rlimit(80)]
    #[verifier::spinoff_prover]
    fn canonical_of(neg: bool, hi: u128, lo: u128, e: i32) -> (r: Option<Decimal>)
        requires
            lo < ten_pow(28),
            hi <= 0x8000_0000_0000_0000_0000_0000_0000_0001,
            -100_000 <= e <= 100_000,
        ensures
            canonical_result(r, canon_spec(signed(neg, hi * ten_pow(28) + lo), e as int)),
    {
        let ghost v0: int = hi * ten_pow(28) + lo;
        proof {
            lemma_ten_pow_fits(28);
            lemma_ten_pow_positive(28);
        }
        if hi == 0 && lo == 0 {
            proof {
                assert(v0 == 0);
                assert(signed(neg, 0) * ten_pow((e - i16::MAX) as nat) == 0);
            }
            return Some(Decimal::zero());
        }
        let mut h = hi;
        let mut l = lo;
        let mut w: u32 = 28;
        let mut ee: i32 = e;
        let mut ends_zero = l % 10 == 0;
        proof {
            assert(ten_pow(28) == 10 * ten_pow(27));
            lemma_ten_pow_positive(27);
            assert(v0 == (h * ten_pow(27)) * 10 + l) by (nonlinear_arith)
                requires v0 == h * ten_pow(28) + l, ten_pow(28) == 10 * ten_pow(27);
            vstd::arithmetic::div_mod::lemma_mod_multiples_vanish(h * ten_pow(27), l as int, 10);
            assert(v0 != 0) by (nonlinear_arith)
                requires v0 == h * ten_pow(28) + l, ten_pow(28) >= 1, !(h == 0 && l == 0), h >= 0, l >= 0;
        }
        while ee < 32767 && ends_zero
            invariant
                w <= 28,
                l < ten_pow(w as nat),
                h <= 0x8000_0000_0000_0000_0000_0000_0000_0001,
                h * ten_pow(w as nat) + l != 0,
                ee >= e,
                e <= 32767 ==> ee <= 32767,
                e > 32767 ==> ee == e,
                e > 32767 ==> h * ten_pow(w as nat) + l == v0,
                v0 == hi * ten_pow(28) + lo,
                ends_zero == ((h * ten_pow(w as nat) + l) % 10 == 0),
                e <= 32767 ==> strip(signed(neg, h * ten_pow(w as nat) + l), ee as int) == strip(
                    signed(neg, v0),
                    e as int,
                ),
                ten_pow(28) <= i128::MAX,
            decreases 32767 - ee,
        {
            let ghost v: int = h * ten_pow(w as nat) + l;
            proof {
                lemma_ten_pow_positive(w as nat);
                vstd::arithmetic::div_mod::lemma_fundamental_div_mod(v, 10);
                let sv = signed(neg, v);
                assert(sv % 10 == 0 && sv / 10 == signed(neg, v / 10)) by {
                    if neg {
                        vstd::arithmetic::div_mod::lemma_fundamental_div_mod_converse(sv, 10, -(v / 10), 0);
                    }
                }
                assert(sv != 0);
            }
            if w > 0 {
                proof {
                    lemma_ten_pow_positive((w - 1) as nat);
                    assert(ten_pow(w as nat) == 10 * ten_pow((w - 1) as nat));
                    vstd::arithmetic::div_mod::lemma_fundamental_div_mod(l as int, 10);
                    assert(v == (h * ten_pow((w - 1) as nat)) * 10 + l) by (nonlinear_arith)
                        requires v == h * ten_pow(w as nat) + l, ten_pow(w as nat) == 10 * ten_pow((w - 1) as nat);
                    vstd::arithmetic::div_mod::lemma_mod_multiples_vanish(h * ten_pow((w - 1) as nat), l as int, 10);
                    assert(l % 10 == 0);
                    assert(v / 10 == h * ten_pow((w - 1) as nat) + l / 10) by {
                        vstd::arithmetic::div_mod::lemma_fundamental_div_mod_converse(
                            v,
                            10,
                            h * ten_pow((w - 1) as nat) + l / 10,
                            0,
                        );
                    }
                    assert(l / 10 < ten_pow((w - 1) as nat)) by (nonlinear_arith)
                        requires l < ten_pow(w as nat), ten_pow(w as nat) == 10 * ten_pow((w - 1) as nat), l >= 0;
                }
                l = l / 10;
                w = w - 1;
            } else {
                proof {
                    assert(ten_pow(0) == 1);
                    assert(v == h);
                }
                h = h / 10;
            }
            ee = ee + 1;
            proof {
                lemma_ten_pow_positive(w as nat);
                if w > 0 {
                    assert(ten_pow(w as nat) == 10 * ten_pow((w - 1) as nat));
                    assert(h * ten_pow(w as nat) + l == (h * ten_pow((w - 1) as nat)) * 10 + l) by (nonlinear_arith)
                        requires ten_pow(w as nat) == 10 * ten_pow((w - 1) as nat);
                    vstd::arithmetic::div_mod::lemma_mod_multiples_vanish(h * ten_pow((w - 1) as nat), l as int, 10);
                } else {
                    assert(ten_pow(0) == 1);
                }
            }
            ends_zero = if w > 0 {
                l % 10 == 0
            } else {
                h % 10 == 0
            };
        }
        let ghost v: int = h * ten_pow(w as nat) + l;
        proof {
            lemma_ten_pow_positive(w as nat);
            lemma_ten_pow_fits(w as nat);
        }
        let value: u128 = if h == 0 {
            l
        } else {
            match lift_mag(h, w) {
                Some(x) => match x.checked_add(l) {
                    Some(t) => t,
                    None => {
                        proof {
                            lemma_canonical_of_too_big(neg, v, v0, ee as int, e as int);
                        }
                        return None;
                    },
                },
                None => {
                    proof {
                        assert(h * ten_pow(w as nat) + l >= h * ten_pow(w as nat));
                        lemma_canonical_of_too_big(neg, v, v0, ee as int, e as int);
                    }
                    return None;
                },
            }
        };
        assert(value == v);
        let (mag, exp): (u128, i32) = if ee > 32767 {
            let shift = (ee - 32767) as u32;
            match lift_mag(value, shift) {
                Some(x) => (x, 32767),
                None => {
                    proof {
                        lemma_capped_too_big(neg, v, e as int);
                    }
                    return None;
                },
            }
        } else {
            (value, ee)
        };
        proof {
            lemma_canonical_of_ends(neg, v, v0, ee as int, e as int, mag as int);
            let t = capped(signed(neg, v0), e as int);
            lemma_strip(t.0, t.1);
        }
        if exp < -32768 {
            return None;
        }
        if !neg {
            if mag > 0x7fff_ffff_ffff_ffff_ffff_ffff_ffff_ffffu128 {
                return None;
            }
            Some(Decimal { coeff: mag as i128, exp: exp as i16 })
        } else {
            if mag > 0x8000_0000_0000_0000_0000_0000_0000_0000u128 {
                return None;
            }
            if mag == 0x8000_0000_0000_0000_0000_0000_0000_0000u128 {
                return Some(Decimal { coeff: i128::MIN, exp: exp as i16 });
            }
            Some(Decimal { coeff: -(mag as i128), exp: exp as i16 })
        }
    }

    /// Exact negation. `None` only for the most negative coefficient.
    pub fn neg(&self) -> (r: Option<Decimal>)
        ensures
            canonical_result(r, neg_spec(*self)),
    {
        if self.coeff == i128::MIN {
            return None;
        }
        Some(Decimal::new(-self.coeff, self.exp))
    }
}

/// Number of decimal digits in `n` (zero has one digit).
pub open spec fn digit_count(n: nat) -> nat
    decreases n,
{
    if n < 10 {
        1
    } else {
        1 + digit_count(n / 10)
    }
}

pub proof fn lemma_digit_count_bound(n: nat, k: nat)
    requires
        k >= 1,
        n < ten_pow(k),
    ensures
        digit_count(n) <= k,
    decreases k,
{
    if n >= 10 {
        assert(k >= 2) by {
            if k == 1 {
                reveal_with_fuel(ten_pow, 2);
            }
        }
        assert(ten_pow(k) == 10 * ten_pow((k - 1) as nat));
        assert(n / 10 < ten_pow((k - 1) as nat));
        lemma_digit_count_bound(n / 10, (k - 1) as nat);
    }
}

pub open spec fn sign(x: int) -> int {
    if x < 0 {
        -1
    } else if x > 0 {
        1
    } else {
        0
    }
}

/// Number of decimal digits in `n`'s magnitude (0 has one digit).
fn digits(n: i128) -> (r: u32)
    ensures
        r == digit_count(abs(n as int) as nat),
        r <= 39,
{
    proof {
        reveal_with_fuel(ten_pow, 40);
        lemma_digit_count_bound(abs(n as int) as nat, 39);
    }
    if n == 0 {
        return 1;
    }
    let mut m = n;
    let mut d: u32 = 0;
    while m != 0
        invariant
            m != 0 ==> digit_count(abs(n as int) as nat) == d + digit_count(abs(m as int) as nat),
            m == 0 ==> digit_count(abs(n as int) as nat) == d,
            digit_count(abs(n as int) as nat) <= 39,
        decreases abs(m as int),
    {
        proof {
            lemma_trem_bounds(m as int, 10);
        }
        m = div_trunc(m, 10);
        d = d + 1;
    }
    d
}

/// The sign of a coefficient as -1, 0 or 1.
fn sign_of(c: i128) -> (r: i8)
    ensures
        r == sign(c as int),
{
    if c < 0 {
        -1
    } else if c > 0 {
        1
    } else {
        0
    }
}

pub open spec fn int_order(x: int, y: int) -> Ordering {
    if x < y {
        Ordering::Less
    } else if x > y {
        Ordering::Greater
    } else {
        Ordering::Equal
    }
}

pub open spec fn reversed(o: Ordering) -> Ordering {
    match o {
        Ordering::Less => Ordering::Greater,
        Ordering::Equal => Ordering::Equal,
        Ordering::Greater => Ordering::Less,
    }
}

/// The exact order of the two values.
pub open spec fn order_of(a: Decimal, b: Decimal) -> Ordering {
    int_order(at_common(a, b).0, at_common(a, b).1)
}

/// A coefficient lifted past what `lift_to` allows is out of `i128` range.
proof fn lemma_lift_fails(c: int, k: nat)
    requires
        c != 0,
        k > 38 || !in_i128(c * ten_pow(k)),
    ensures
        c > 0 ==> c * ten_pow(k) > i128::MAX,
        c < 0 ==> c * ten_pow(k) < i128::MIN,
{
    lemma_ten_pow_positive(k);
    if k > 38 {
        lemma_ten_pow_38();
        lemma_ten_pow_monotone(39, k);
        if c > 0 {
            assert(c * ten_pow(k) >= ten_pow(k)) by (nonlinear_arith)
                requires c >= 1, ten_pow(k) >= 1;
        } else {
            assert(c * ten_pow(k) <= -ten_pow(k)) by (nonlinear_arith)
                requires c <= -1, ten_pow(k) >= 1;
        }
    } else {
        if c > 0 {
            assert(c * ten_pow(k) > 0) by (nonlinear_arith)
                requires c >= 1, ten_pow(k) >= 1;
        } else {
            assert(c * ten_pow(k) < 0) by (nonlinear_arith)
                requires c <= -1, ten_pow(k) >= 1;
        }
    }
}

/// The sign of a lifted coefficient is the coefficient's.
proof fn lemma_lift_sign(c: int, k: nat)
    ensures
        sign(c * ten_pow(k)) == sign(c),
{
    lemma_ten_pow_positive(k);
    if c > 0 {
        assert(c * ten_pow(k) > 0) by (nonlinear_arith)
            requires c >= 1, ten_pow(k) >= 1;
    } else if c < 0 {
        assert(c * ten_pow(k) < 0) by (nonlinear_arith)
            requires c <= -1, ten_pow(k) >= 1;
    }
}

/// The signs of the values at their common exponent are the coefficients'.
proof fn lemma_common_signs(a: Decimal, b: Decimal)
    ensures
        sign(at_common(a, b).0) == sign(a.coeff_of()),
        sign(at_common(a, b).1) == sign(b.coeff_of()),
{
    let m = if a.exp_of() <= b.exp_of() { a.exp_of() } else { b.exp_of() };
    lemma_lift_sign(a.coeff_of(), (a.exp_of() - m) as nat);
    lemma_lift_sign(b.coeff_of(), (b.exp_of() - m) as nat);
}

/// When alignment overflows between values of one sign, the operand with the
/// larger exponent has the larger magnitude.
proof fn lemma_unaligned_order(a: Decimal, b: Decimal)
    requires
        align_spec(a, b) is None,
        sign(a.coeff_of()) == sign(b.coeff_of()),
        a.coeff_of() != 0,
    ensures
        a.exp_of() != b.exp_of(),
        a.exp_of() > b.exp_of() ==> (a.coeff_of() > 0 ==> at_common(a, b).0 > at_common(a, b).1)
            && (a.coeff_of() < 0 ==> at_common(a, b).0 < at_common(a, b).1),
        a.exp_of() < b.exp_of() ==> (a.coeff_of() > 0 ==> at_common(a, b).0 < at_common(a, b).1)
            && (a.coeff_of() < 0 ==> at_common(a, b).0 > at_common(a, b).1),
        a.coeff_of() != 0,
{
    let m = if a.exp_of() <= b.exp_of() { a.exp_of() } else { b.exp_of() };
    assert(ten_pow(0) == 1);
    assert(a.coeff_of() * 1 == a.coeff_of());
    assert(b.coeff_of() * 1 == b.coeff_of());
    if a.exp_of() <= b.exp_of() {
        assert(lift_to(a.coeff_of(), a.exp_of(), m) is Some);
        lemma_lift_fails(b.coeff_of(), (b.exp_of() - m) as nat);
    } else {
        assert(lift_to(b.coeff_of(), b.exp_of(), m) is Some);
        lemma_lift_fails(a.coeff_of(), (a.exp_of() - m) as nat);
    }
}

impl Decimal {
    /// Total order over decimals: the exact order of their values. Never
    /// routes through floating point.
    pub fn compare(&self, other: &Decimal) -> (r: Ordering)
        ensures
            r == order_of(*self, *other),
    {
        proof {
            lemma_common_signs(*self, *other);
        }
        let sa = sign_of(self.coeff);
        let sb = sign_of(other.coeff);
        if sa != sb {
            return if sa < sb {
                Ordering::Less
            } else {
                Ordering::Greater
            };
        }
        if sa == 0 {
            return Ordering::Equal;
        }
        if let Some((x, y, _)) = Decimal::align(self, other) {
            return if x < y {
                Ordering::Less
            } else if x > y {
                Ordering::Greater
            } else {
                Ordering::Equal
            };
        }
        proof {
            lemma_unaligned_order(*self, *other);
        }
        // Alignment overflowed, so the operand with the larger exponent has
        // the larger magnitude.
        if (self.exp > other.exp) != (sa < 0) {
            Ordering::Greater
        } else {
            Ordering::Less
        }
    }
}

impl PartialOrd for Decimal {
    fn partial_cmp(&self, other: &Decimal) -> (r: Option<Ordering>) {
        Some(self.compare(other))
    }
}

impl vstd::std_specs::cmp::PartialOrdSpecImpl for Decimal {
    open spec fn obeys_partial_cmp_spec() -> bool {
        true
    }

    open spec fn partial_cmp_spec(&self, other: &Decimal) -> Option<Ordering> {
        Some(order_of(*self, *other))
    }
}

// ------------------------------------------------------------------ powers

/// `2^n` as `i128`, or `None` if it does not fit.
pub fn pow2(n: u32) -> (r: Option<i128>)
    ensures
        r is Some <==> n < 127,
        r matches Some(v) ==> v == vstd::arithmetic::power2::pow2(n as nat),
{
    if n >= 127 {
        return None;
    }
    proof {
        vstd::arithmetic::power2::lemma2_to64();
        vstd::arithmetic::power2::lemma_pow2_strictly_increases(n as nat, 127);
        vstd::arithmetic::power2::lemma_pow2_pos(n as nat);
    }
    let mut acc: i128 = 1;
    let mut i: u32 = 0;
    while i < n
        invariant
            i <= n < 127,
            acc == vstd::arithmetic::power2::pow2(i as nat),
        decreases n - i,
    {
        proof {
            vstd::arithmetic::power2::lemma_pow2_unfold((i + 1) as nat);
            vstd::arithmetic::power2::lemma_pow2_strictly_increases((i + 1) as nat, 127);
            assert(vstd::arithmetic::power2::pow2(127) == 0x8000_0000_0000_0000_0000_0000_0000_0000)
                by {
                vstd::arithmetic::power2::lemma2_to64_rest();
                vstd::arithmetic::power2::lemma_pow2_adds(63, 64);
            }
        }
        acc = acc * 2;
        i = i + 1;
    }
    Some(acc)
}

/// `5^n` as a mathematical integer.
pub open spec fn five_pow(n: nat) -> int
    decreases n,
{
    if n == 0 {
        1
    } else {
        5 * five_pow((n - 1) as nat)
    }
}

/// `5^n` as `i128`, or `None` if it does not fit.
pub fn pow5(n: u32) -> (r: Option<i128>)
    ensures
        r is Some <==> five_pow(n as nat) <= i128::MAX,
        r matches Some(v) ==> v == five_pow(n as nat),
{
    let mut acc: i128 = 1;
    let mut i: u32 = 0;
    while i < n
        invariant
            i <= n,
            acc == five_pow(i as nat),
            forall|j: nat| j <= i ==> five_pow(j) <= five_pow(i as nat),
        decreases n - i,
    {
        proof {
            assert forall|j: nat| j <= n implies five_pow(j) >= 1 by {
                lemma_five_pow_positive(j);
            }
        }
        match acc.checked_mul(5) {
            Some(v) => acc = v,
            None => {
                proof {
                    lemma_five_pow_monotone((i + 1) as nat, n as nat);
                }
                return None;
            },
        }
        i = i + 1;
        proof {
            assert forall|j: nat| j <= i implies five_pow(j) <= five_pow(i as nat) by {
                if j < i {
                    lemma_five_pow_monotone(j, i as nat);
                }
            }
        }
    }
    Some(acc)
}

pub proof fn lemma_five_pow_positive(n: nat)
    ensures
        five_pow(n) >= 1,
    decreases n,
{
    if n > 0 {
        lemma_five_pow_positive((n - 1) as nat);
    }
}

pub proof fn lemma_five_pow_monotone(a: nat, b: nat)
    requires
        a <= b,
    ensures
        five_pow(a) <= five_pow(b),
    decreases b,
{
    if a < b {
        lemma_five_pow_monotone(a, (b - 1) as nat);
        lemma_five_pow_positive((b - 1) as nat);
    }
}

// ------------------------------------------------------------------ parsing

pub open spec fn is_digit_byte(b: u8) -> bool {
    48 <= b <= 57
}

/// The digits of `b` read as one integer, ignoring anything that is not a digit.
pub open spec fn digits_value(b: Seq<u8>) -> int
    decreases b.len(),
{
    if b.len() == 0 {
        0
    } else if is_digit_byte(b.last()) {
        digits_value(b.drop_last()) * 10 + (b.last() - 48)
    } else {
        digits_value(b.drop_last())
    }
}

/// How many bytes of `b` are `.`.
pub open spec fn point_count(b: Seq<u8>) -> nat
    decreases b.len(),
{
    if b.len() == 0 {
        0
    } else {
        point_count(b.drop_last()) + if b.last() == 46 { 1nat } else { 0nat }
    }
}

/// How many digits of `b` there are.
pub open spec fn digit_total(b: Seq<u8>) -> nat
    decreases b.len(),
{
    if b.len() == 0 {
        0
    } else {
        digit_total(b.drop_last()) + if is_digit_byte(b.last()) { 1nat } else { 0nat }
    }
}

/// How many digits of `b` follow a `.`.
pub open spec fn fraction_digits(b: Seq<u8>) -> nat
    decreases b.len(),
{
    if b.len() == 0 {
        0
    } else {
        fraction_digits(b.drop_last()) + if point_count(b.drop_last()) > 0 && is_digit_byte(
            b.last(),
        ) {
            1nat
        } else {
            0nat
        }
    }
}

/// The literal without its optional leading sign.
pub open spec fn unsigned_part(s: Seq<u8>) -> Seq<u8> {
    if s.len() > 0 && (s[0] == 45 || s[0] == 43) {
        s.drop_first()
    } else {
        s
    }
}

/// What `parse_decimal` accepts: an optional sign, then digits with at most
/// one `.`, and at least one digit. The number is `±digits × 10^-(fraction
/// digits)`; the answer is that number, or `None` when no `Decimal` has it
/// (trailing zeros are no obstacle: they move into the exponent).
pub open spec fn parse_spec(s: Seq<u8>) -> Option<(int, int)> {
    let b = unsigned_part(s);
    if s.len() == 0 {
        None
    } else if !(forall|i: int| 0 <= i < b.len() ==> is_digit_byte(b[i]) || b[i] == 46) {
        None
    } else if point_count(b) > 1 || digit_total(b) == 0 {
        None
    } else {
        let v = digits_value(b);
        canon_spec(if s[0] == 45 { -v } else { v }, -(fraction_digits(b) as int))
    }
}

/// A byte that adds nothing to a literal's value but a factor of ten or
/// nothing: `0` or `.`.
pub open spec fn is_zero_or_point(c: u8) -> bool {
    c == 48 || c == 46
}

/// Past the last non-zero digit, the value only gains factors of ten, one per
/// digit.
proof fn lemma_trailing_zeros(b: Seq<u8>, last: int, j: int)
    requires
        0 <= last <= j <= b.len(),
        forall|k: int| last <= k < j ==> is_zero_or_point(b[k]),
    ensures
        digit_total(b.take(j)) >= digit_total(b.take(last)),
        digits_value(b.take(j)) == digits_value(b.take(last)) * ten_pow(
            (digit_total(b.take(j)) - digit_total(b.take(last))) as nat,
        ),
    decreases j - last,
{
    if j == last {
        assert(ten_pow(0) == 1);
    } else {
        lemma_trailing_zeros(b, last, j - 1);
        assert(b.take(j).drop_last() =~= b.take(j - 1));
        assert(b.take(j).last() == b[j - 1]);
        let n = (digit_total(b.take(j - 1)) - digit_total(b.take(last))) as nat;
        if b[j - 1] == 48 {
            assert(ten_pow(n + 1) == 10 * ten_pow(n));
            assert(digits_value(b.take(last)) * ten_pow(n + 1) == (digits_value(b.take(last)) * ten_pow(n)) * 10)
                by (nonlinear_arith)
                requires ten_pow(n + 1) == 10 * ten_pow(n);
        }
    }
}

/// With its last digit non-zero, a number lifted by `10^k` strips back to its
/// canonical spelling, the excess above `i16::MAX` moving into the
/// coefficient.
proof fn lemma_strip_shift_capped(c: int, e: int, k: nat)
    requires
        c % 10 != 0,
        e - k <= i16::MAX,
    ensures
        strip(c * ten_pow(k), e - k) == capped(c, e),
{
    if e <= i16::MAX {
        lemma_strip_shift(c, e, k);
    } else {
        let j = (e - i16::MAX) as nat;
        let c2 = c * ten_pow(j);
        lemma_ten_pow_add(j, (k - j) as nat);
        assert(j + (k - j) as nat == k);
        assert(c * ten_pow(k) == c2 * ten_pow((k - j) as nat)) by (nonlinear_arith)
            requires ten_pow(k) == ten_pow(j) * ten_pow((k - j) as nat), c2 == c * ten_pow(j);
        lemma_ten_pow_positive(j);
        assert(c2 != 0) by (nonlinear_arith)
            requires c2 == c * ten_pow(j), ten_pow(j) >= 1, c != 0;
        lemma_strip_shift(c2, i16::MAX as int, (k - j) as nat);
        assert(i16::MAX - (k - j) == e - k);
    }
}

proof fn lemma_prefix_monotone(b: Seq<u8>, i: int, j: int)
    requires
        0 <= i <= j <= b.len(),
    ensures
        0 <= digits_value(b.take(i)) <= digits_value(b.take(j)),
        point_count(b.take(i)) <= point_count(b.take(j)),
        digit_total(b.take(i)) <= digit_total(b.take(j)),
        fraction_digits(b.take(i)) <= fraction_digits(b.take(j)),
    decreases j - i,
{
    if i < j {
        lemma_prefix_monotone(b, i, j - 1);
        assert(b.take(j).drop_last() =~= b.take(j - 1));
    } else {
        lemma_digits_value_nonneg(b.take(i));
    }
}

proof fn lemma_digits_value_nonneg(b: Seq<u8>)
    ensures
        digits_value(b) >= 0,
    decreases b.len(),
{
    if b.len() > 0 {
        lemma_digits_value_nonneg(b.drop_last());
    }
}

/// The literal's number, from its digits up to the last non-zero one: that
/// coefficient ends in a non-zero digit, and the canonical spelling of the
/// whole number is it at the exponent the trailing digits give.
proof fn lemma_parse_value(sb: Seq<u8>, b: Seq<u8>, last: int, fd: int)
    requires
        sb.len() > 0,
        b == unsigned_part(sb),
        0 < last <= b.len(),
        is_digit_byte(b[last - 1]),
        b[last - 1] != 48,
        forall|k: int| last <= k < b.len() ==> is_zero_or_point(b[k]),
        fd == fraction_digits(b),
        fd <= digit_total(b),
        forall|i: int| 0 <= i < b.len() ==> is_digit_byte(b[i]) || b[i] == 46,
        point_count(b) <= 1,
        digit_total(b) > 0,
    ensures
        ({
            let c = digits_value(b.take(last));
            let z = digit_total(b) - digit_total(b.take(last));
            let neg = sb[0] == 45;
            let sc = if neg { -c } else { c };
            &&& c >= 1
            &&& z >= 0
            &&& parse_spec(sb) == (if representable(capped(sc, z - fd).0, capped(sc, z - fd).1) {
                Some((if neg { -digits_value(b) } else { digits_value(b) }, -fd))
            } else {
                None::<(int, int)>
            })
            &&& strip(if neg { -digits_value(b) } else { digits_value(b) }, -fd) == capped(sc, z - fd)
            &&& capped(sc, z - fd).0 != 0
            &&& capped(sc, z - fd).1 <= i16::MAX
        }),
{
    let c = digits_value(b.take(last));
    let n = b.len() as int;
    assert(b.take(n) =~= b);
    lemma_trailing_zeros(b, last, n);
    let z = digit_total(b) - digit_total(b.take(last));
    assert(b.take(last).drop_last() =~= b.take(last - 1));
    assert(b.take(last).last() == b[last - 1]);
    lemma_digits_value_nonneg(b.take(last - 1));
    let d = b[last - 1] - 48;
    assert(c == digits_value(b.take(last - 1)) * 10 + d);
    vstd::arithmetic::div_mod::lemma_fundamental_div_mod_converse(c, 10, digits_value(b.take(last - 1)), d as int);
    assert(c % 10 != 0);
    let neg = sb[0] == 45;
    let sc = if neg { -c } else { c };
    assert(sc % 10 != 0) by {
        if neg && sc % 10 == 0 {
            vstd::arithmetic::div_mod::lemma_fundamental_div_mod(sc, 10);
            vstd::arithmetic::div_mod::lemma_fundamental_div_mod_converse(c, 10, -(sc / 10), 0);
        }
    }
    let v = digits_value(b);
    assert((if neg { -v } else { v }) == sc * ten_pow(z as nat)) by (nonlinear_arith)
        requires v == c * ten_pow(z as nat), sc == (if neg { -c } else { c });
    lemma_strip_shift_capped(sc, z - fd, z as nat);
    lemma_ten_pow_positive((z - fd - i16::MAX) as nat);
    if z - fd > i16::MAX {
        assert(sc * ten_pow((z - fd - i16::MAX) as nat) != 0) by (nonlinear_arith)
            requires sc != 0, ten_pow((z - fd - i16::MAX) as nat) >= 1;
    }
}

/// A literal whose digits up to the last non-zero one pass `u128::MAX` has no
/// `Decimal`.
proof fn lemma_parse_too_big(sb: Seq<u8>, b: Seq<u8>, last: int, fd: int)
    requires
        sb.len() > 0,
        b == unsigned_part(sb),
        0 < last <= b.len(),
        is_digit_byte(b[last - 1]),
        b[last - 1] != 48,
        forall|k: int| last <= k < b.len() ==> is_zero_or_point(b[k]),
        fd == fraction_digits(b),
        fd <= digit_total(b),
        forall|i: int| 0 <= i < b.len() ==> is_digit_byte(b[i]) || b[i] == 46,
        point_count(b) <= 1,
        digit_total(b) > 0,
        digits_value(b.take(last)) > u128::MAX,
    ensures
        parse_spec(sb) is None,
{
    lemma_parse_value(sb, b, last, fd);
    let c = digits_value(b.take(last));
    let z = digit_total(b) - digit_total(b.take(last));
    let neg = sb[0] == 45;
    let sc = if neg { -c } else { c };
    let t = capped(sc, z - fd);
    assert(strip(t.0, t.1) == t);
    if z - fd > i16::MAX {
        let k = (z - fd - i16::MAX) as nat;
        lemma_ten_pow_positive(k);
        lemma_abs_mul(sc, ten_pow(k));
        assert(abs(sc) * ten_pow(k) >= abs(sc)) by (nonlinear_arith)
            requires ten_pow(k) >= 1, abs(sc) >= 0;
    }
}

/// Parses a plain decimal literal: optional sign, digits, optional fraction.
/// Scientific notation, `Inf` and `NaN` are refused. Trailing zeros never
/// make a literal too long: they move into the exponent.
#[verifier::rlimit(80)]
#[verifier::spinoff_prover]
pub fn parse_decimal(s: &str) -> (r: Option<Decimal>)
    ensures
        canonical_result(r, parse_spec(s.spec_bytes())),
{
    let bytes = s.as_bytes();
    let ghost sb = s.spec_bytes();
    if bytes.len() == 0 {
        return None;
    }
    let mut i: usize = 0;
    let negative = if bytes[0] == 45u8 {
        i = 1;
        true
    } else if bytes[0] == 43u8 {
        i = 1;
        false
    } else {
        false
    };
    let start = i;
    let ghost b = unsigned_part(sb);
    proof {
        assert(b =~= sb.subrange(start as int, sb.len() as int));
        assert(b.take(0) =~= Seq::<u8>::empty());
    }
    let mut total: usize = 0;
    let mut fd: usize = 0;
    let mut last: usize = 0;
    let mut seen_point = false;
    while i < bytes.len()
        invariant
            bytes@ == sb,
            sb == s.spec_bytes(),
            start <= i <= bytes.len(),
            start <= 1,
            b == sb.subrange(start as int, sb.len() as int),
            b == unsigned_part(sb),
            sb.len() > 0,
            negative == (sb[0] == 45),
            total == digit_total(b.take(i - start)),
            fd == fraction_digits(b.take(i - start)),
            total <= i - start,
            fd <= total,
            seen_point == (point_count(b.take(i - start)) > 0),
            point_count(b.take(i - start)) <= 1,
            forall|k: int| 0 <= k < i - start ==> is_digit_byte(b[k]) || b[k] == 46,
            last <= i - start,
            forall|k: int| last <= k < i - start ==> is_zero_or_point(b[k]),
            last > 0 ==> is_digit_byte(b[last - 1]) && b[last - 1] != 48,
        decreases bytes.len() - i,
    {
        let ghost p = (i - start) as int;
        proof {
            assert(b.take(p + 1).drop_last() =~= b.take(p));
            assert(b.take(p + 1).last() == bytes[i as int]);
        }
        let c = bytes[i];
        if 48u8 <= c && c <= 57u8 {
            total = total + 1;
            if seen_point {
                fd = fd + 1;
            }
            if c != 48u8 {
                last = i - start + 1;
            }
        } else if c == 46u8 && !seen_point {
            seen_point = true;
        } else {
            proof {
                if c == 46u8 {
                    lemma_prefix_monotone(b, p + 1, b.len() as int);
                    assert(b.take(b.len() as int) =~= b);
                    assert(point_count(b.take(p + 1)) == 2);
                    assert(point_count(b) > 1);
                } else {
                    assert(b[p] == c);
                    assert(!(is_digit_byte(b[p]) || b[p] == 46));
                    assert(!(forall|k: int| 0 <= k < b.len() ==> is_digit_byte(b[k]) || b[k] == 46));
                }
                assert(parse_spec(sb) is None);
            }
            return None;
        }
        i = i + 1;
    }
    let ghost n = b.len() as int;
    proof {
        assert(b.take(n) =~= b);
        lemma_trailing_zeros(b, last as int, n);
    }
    if total == 0 {
        return None;
    }
    if last == 0 {
        proof {
            assert(b.take(0) =~= Seq::<u8>::empty());
            assert(digits_value(b) == 0) by {
                assert(digits_value(b.take(0)) == 0);
                assert(0 * ten_pow((digit_total(b) - digit_total(b.take(0))) as nat) == 0);
            }
            assert(strip(0, -(fd as int)) == (0int, 0int));
        }
        return Some(Decimal::zero());
    }
    proof {
        assert(b.len() == n);
        if digits_value(b.take(last as int)) > u128::MAX {
            lemma_parse_too_big(sb, b, last as int, fd as int);
        }
    }
    let mut c: u128 = 0;
    let mut dl: usize = 0;
    let mut k: usize = 0;
    while k < last
        invariant
            bytes@ == sb,
            sb == s.spec_bytes(),
            b == sb.subrange(start as int, sb.len() as int),
            start + last <= bytes.len(),
            k <= last,
            last <= b.len(),
            c == digits_value(b.take(k as int)),
            dl == digit_total(b.take(k as int)),
            dl <= k,
            digits_value(b.take(last as int)) > u128::MAX ==> parse_spec(sb) is None,
        decreases last - k,
    {
        proof {
            assert(b.take(k + 1).drop_last() =~= b.take(k as int));
            assert(b.take(k + 1).last() == bytes[(start + k) as int]);
        }
        let ch = bytes[start + k];
        if 48u8 <= ch && ch <= 57u8 {
            let digit = (ch - 48u8) as u128;
            let next = match c.checked_mul(10) {
                Some(t) => t.checked_add(digit),
                None => None,
            };
            match next {
                Some(v) => {
                    c = v;
                },
                None => {
                    proof {
                        lemma_digits_value_nonneg(b.take(k as int));
                        lemma_prefix_monotone(b, k + 1, last as int);
                        assert(digits_value(b.take(k + 1)) == c * 10 + digit);
                    }
                    return None;
                },
            }
            dl = dl + 1;
        }
        k = k + 1;
    }
    let z = total - dl;
    let ghost sc: int = if negative { -(c as int) } else { c as int };
    let ghost v = digits_value(b);
    proof {
        assert(b.take(last as int) =~= b.take(k as int));
        lemma_parse_value(sb, b, last as int, fd as int);
        lemma_ten_pow_positive(z as nat);
        assert(v == c * ten_pow(z as nat) && c >= 1 ==> v >= 1) by (nonlinear_arith)
            requires ten_pow(z as nat) >= 1;
        lemma_trailing_zeros(b, last as int, n);
        lemma_strip(signed(negative, v), -(fd as int));
    }
    let e: i128 = z as i128 - fd as i128;
    let (mag, exp): (u128, i128) = if e > 32767 {
        let shift = e - 32767;
        if shift > 38 {
            proof {
                reveal_with_fuel(ten_pow, 40);
                lemma_ten_pow_monotone(39, shift as nat);
                assert(c * ten_pow(shift as nat) >= ten_pow(shift as nat)) by (nonlinear_arith)
                    requires c >= 1, ten_pow(shift as nat) >= 1;
                lemma_capped_too_big(negative, c as int, e as int);
            }
            return None;
        }
        match lift_mag(c, shift as u32) {
            Some(x) => (x, 32767),
            None => {
                proof {
                    lemma_capped_too_big(negative, c as int, e as int);
                }
                return None;
            },
        }
    } else {
        (c, e)
    };
    proof {
        let t = capped(sc, e as int);
        assert(t == (signed(negative, mag as int), exp as int)) by {
            if e > 32767 {
                assert(sc * ten_pow((e - 32767) as nat) == signed(negative, c * ten_pow((e - 32767) as nat)))
                    by (nonlinear_arith)
                    requires sc == signed(negative, c as int);
            }
        }
    }
    if exp < -32768 {
        return None;
    }
    if !negative {
        if mag > 0x7fff_ffff_ffff_ffff_ffff_ffff_ffff_ffffu128 {
            return None;
        }
        Some(Decimal { coeff: mag as i128, exp: exp as i16 })
    } else {
        if mag > 0x8000_0000_0000_0000_0000_0000_0000_0000u128 {
            return None;
        }
        if mag == 0x8000_0000_0000_0000_0000_0000_0000_0000u128 {
            return Some(Decimal { coeff: i128::MIN, exp: exp as i16 });
        }
        Some(Decimal { coeff: -(mag as i128), exp: exp as i16 })
    }
}

// ------------------------------------------------------------------ text

/// The ASCII digit for `d` in `0..=9`.
pub open spec fn digit_char(d: int) -> char {
    (48 + d) as char
}

/// The decimal digits of `n`, most significant first.
pub open spec fn digits_text(n: nat) -> Seq<char>
    decreases n,
{
    if n < 10 {
        seq![digit_char(n as int)]
    } else {
        digits_text(n / 10).push(digit_char((n % 10) as int))
    }
}

/// `k` zeros.
pub open spec fn zeros(k: nat) -> Seq<char> {
    Seq::new(k, |i: int| '0')
}

/// The plain (never scientific) text of a decimal: sign, integer digits, and
/// for a negative exponent a `.` and the fraction left-padded with zeros. A
/// fraction longer than 38 digits cannot have come from an `i128`
/// coefficient, and prints as `0`.
pub open spec fn text_of(d: Decimal) -> Seq<char> {
    let c = d.coeff_of();
    let e = d.exp_of();
    let m = abs(c);
    let sign = if c < 0 { seq!['-'] } else { Seq::<char>::empty() };
    if c == 0 {
        seq!['0']
    } else if e >= 0 {
        sign + digits_text(m as nat) + zeros(e as nat)
    } else if -e > 38 {
        sign + seq!['0']
    } else {
        let k = (-e) as nat;
        let fp = m % ten_pow(k);
        let pad = if k >= digit_count(fp as nat) { (k - digit_count(fp as nat)) as nat } else { 0nat };
        sign + digits_text((m / ten_pow(k)) as nat) + seq!['.'] + zeros(pad) + digits_text(fp as nat)
    }
}

/// The one-character string holding digit `d`.
fn digit_str(d: u8) -> (r: &'static str)
    requires
        d < 10,
    ensures
        r@ == seq![digit_char(d as int)],
{
    proof {
        reveal_strlit("0");
        reveal_strlit("1");
        reveal_strlit("2");
        reveal_strlit("3");
        reveal_strlit("4");
        reveal_strlit("5");
        reveal_strlit("6");
        reveal_strlit("7");
        reveal_strlit("8");
        reveal_strlit("9");
    }
    match d {
        0 => "0",
        1 => "1",
        2 => "2",
        3 => "3",
        4 => "4",
        5 => "5",
        6 => "6",
        7 => "7",
        8 => "8",
        _ => "9",
    }
}

/// Appends the decimal digits of `n`.
pub(crate) fn push_digits(out: &mut String, n: u128)
    ensures
        final(out)@ == old(out)@ + digits_text(n as nat),
    decreases n,
{
    if n >= 10 {
        push_digits(out, n / 10);
    }
    out.append(digit_str((n % 10) as u8));
    proof {
        if n >= 10 {
            assert(old(out)@ + digits_text((n / 10) as nat) + seq![digit_char((n % 10) as int)]
                =~= old(out)@ + digits_text(n as nat));
        } else {
            assert(n % 10 == n);
        }
    }
}

/// Appends `k` zeros.
fn push_zeros(out: &mut String, k: u32)
    ensures
        final(out)@ == old(out)@ + zeros(k as nat),
{
    let mut i: u32 = 0;
    while i < k
        invariant
            i <= k,
            out@ == old(out)@ + zeros(i as nat),
        decreases k - i,
    {
        proof {
            reveal_strlit("0");
        }
        out.append("0");
        i = i + 1;
        proof {
            assert(old(out)@ + zeros((i - 1) as nat) + seq!['0'] =~= old(out)@ + zeros(i as nat));
        }
    }
}

impl Decimal {
    /// Plain decimal notation, never scientific: the canonical text form.
    /// Because the value is canonical this is the shortest exact spelling.
    pub fn to_string(&self) -> (r: String)
        ensures
            r@ == text_of(*self),
    {
        proof {
            reveal_strlit("0");
            reveal_strlit("-");
            reveal_strlit(".");
        }
        let mut out = String::new();
        if self.coeff == 0 {
            out.append("0");
            return out;
        }
        if self.coeff < 0 {
            out.append("-");
        }
        let mag: u128 = if self.coeff < 0 {
            (-(self.coeff + 1)) as u128 + 1
        } else {
            self.coeff as u128
        };
        let ghost sign = out@;
        if self.exp >= 0 {
            push_digits(&mut out, mag);
            push_zeros(&mut out, self.exp as u32);
            return out;
        }
        let frac_digits = (-(self.exp as i32)) as u32;
        let divisor = match pow10(frac_digits) {
            Some(d) => d as u128,
            None => {
                out.append("0");
                return out;
            },
        };
        proof {
            lemma_ten_pow_fits(frac_digits as nat);
        }
        let int_part = mag / divisor;
        let frac_part = mag % divisor;
        push_digits(&mut out, int_part);
        out.append(".");
        let fd = digits(frac_part as i128);
        let leading = if frac_digits >= fd { frac_digits - fd } else { 0 };
        push_zeros(&mut out, leading);
        push_digits(&mut out, frac_part);
        out
    }
}

// ------------------------------------------------------------------ text read back

/// The decimal digits of `n` as ASCII bytes, most significant first.
pub open spec fn digit_bytes(n: nat) -> Seq<u8>
    decreases n,
{
    if n < 10 {
        seq![(48 + n) as u8]
    } else {
        digit_bytes(n / 10).push((48 + n % 10) as u8)
    }
}

/// `k` ASCII zeros.
pub open spec fn zero_bytes(k: nat) -> Seq<u8> {
    Seq::new(k, |i: int| 48u8)
}

/// Only digits and points.
pub open spec fn literal_bytes(b: Seq<u8>) -> bool {
    forall|i: int| 0 <= i < b.len() ==> is_digit_byte(#[trigger] b[i]) || b[i] == 46
}

/// How the literal counts behave across a concatenation.
proof fn lemma_counts_concat(x: Seq<u8>, y: Seq<u8>)
    ensures
        digits_value(x + y) == digits_value(x) * ten_pow(digit_total(y)) + digits_value(y),
        digit_total(x + y) == digit_total(x) + digit_total(y),
        point_count(x + y) == point_count(x) + point_count(y),
        fraction_digits(x + y) == fraction_digits(x) + if point_count(x) > 0 {
            digit_total(y)
        } else {
            fraction_digits(y)
        },
    decreases y.len(),
{
    if y.len() == 0 {
        assert(x + y =~= x);
        assert(ten_pow(0) == 1);
    } else {
        let y1 = y.drop_last();
        lemma_counts_concat(x, y1);
        assert((x + y).drop_last() =~= x + y1);
        assert((x + y).last() == y.last());
        lemma_point_count_plus(x, y1);
        let t = digit_total(y1);
        if is_digit_byte(y.last()) {
            assert(ten_pow(t + 1) == 10 * ten_pow(t));
            assert(digits_value(x) * ten_pow(t + 1) == digits_value(x) * ten_pow(t) * 10) by (nonlinear_arith)
                requires ten_pow(t + 1) == 10 * ten_pow(t);
        }
    }
}

proof fn lemma_point_count_plus(x: Seq<u8>, y: Seq<u8>)
    ensures
        point_count(x + y) == point_count(x) + point_count(y),
    decreases y.len(),
{
    if y.len() == 0 {
        assert(x + y =~= x);
    } else {
        lemma_point_count_plus(x, y.drop_last());
        assert((x + y).drop_last() =~= x + y.drop_last());
    }
}

/// Without a point there are no fraction digits.
proof fn lemma_no_point_no_fraction(x: Seq<u8>)
    requires
        point_count(x) == 0,
    ensures
        fraction_digits(x) == 0,
    decreases x.len(),
{
    if x.len() > 0 {
        lemma_no_point_no_fraction(x.drop_last());
    }
}

/// A run of zeros: all digits, worth nothing, `k` of them.
proof fn lemma_zero_bytes(k: nat)
    ensures
        literal_bytes(zero_bytes(k)),
        digits_value(zero_bytes(k)) == 0,
        digit_total(zero_bytes(k)) == k,
        point_count(zero_bytes(k)) == 0,
        fraction_digits(zero_bytes(k)) == 0,
    decreases k,
{
    if k > 0 {
        lemma_zero_bytes((k - 1) as nat);
        assert(zero_bytes(k).drop_last() =~= zero_bytes((k - 1) as nat));
    } else {
        assert(zero_bytes(k) =~= Seq::<u8>::empty());
    }
    lemma_no_point_no_fraction(zero_bytes(k));
}

/// The digits of `n`: all digits, worth `n`, as many as `n` has, read as
/// the characters `digits_text` gives.
proof fn lemma_digit_bytes(n: nat)
    ensures
        literal_bytes(digit_bytes(n)),
        is_digit_byte(digit_bytes(n)[0]),
        digits_value(digit_bytes(n)) == n,
        digit_total(digit_bytes(n)) == digit_count(n),
        digit_bytes(n).len() == digit_count(n),
        point_count(digit_bytes(n)) == 0,
        fraction_digits(digit_bytes(n)) == 0,
        ascii_chars(digit_bytes(n)) == digits_text(n),
        forall|i: int| 0 <= i < digit_bytes(n).len() ==> #[trigger] digit_bytes(n)[i] < 128,
    decreases n,
{
    let b = digit_bytes(n);
    if n < 10 {
        assert(b.drop_last() =~= Seq::<u8>::empty());
        assert(b.last() == b[0]);
        assert(b[0] == 48 + n);
        assert(digits_value(b) == digits_value(b.drop_last()) * 10 + (b.last() - 48));
        assert(digit_total(b) == digit_total(b.drop_last()) + 1);
        assert(point_count(b) == point_count(b.drop_last()));
        assert(ascii_chars(b) =~= digits_text(n));
    } else {
        lemma_digit_bytes(n / 10);
        let p = digit_bytes(n / 10);
        assert(b.drop_last() =~= p);
        assert(b[0] == p[0]);
        assert forall|i: int| 0 <= i < b.len() implies is_digit_byte(#[trigger] b[i]) || b[i] == 46 by {
            if i < p.len() {
                assert(b[i] == p[i]);
            }
        }
        assert forall|i: int| 0 <= i < b.len() implies #[trigger] b[i] < 128 by {
            if i < p.len() {
                assert(b[i] == p[i]);
            }
        }
        vstd::arithmetic::div_mod::lemma_fundamental_div_mod(n as int, 10);
        assert(b.last() == 48 + n % 10);
        assert(digits_value(b) == digits_value(p) * 10 + n % 10);
        assert(digit_total(b) == digit_total(p) + 1);
        assert(point_count(b) == point_count(p));
        assert(ascii_chars(b) =~= digits_text(n));
    }
    lemma_no_point_no_fraction(b);
}

/// The text of a decimal as ASCII bytes, piece by piece as `text_of` lays it
/// out.
pub open spec fn text_bytes(d: Decimal) -> Seq<u8> {
    let c = d.coeff_of();
    let e = d.exp_of();
    let m = abs(c);
    let sign = if c < 0 { seq![45u8] } else { Seq::<u8>::empty() };
    if c == 0 {
        seq![48u8]
    } else if e >= 0 {
        sign + digit_bytes(m as nat) + zero_bytes(e as nat)
    } else if -e > 38 {
        sign + seq![48u8]
    } else {
        let k = (-e) as nat;
        let fp = m % ten_pow(k);
        let pad = if k >= digit_count(fp as nat) { (k - digit_count(fp as nat)) as nat } else { 0nat };
        sign + digit_bytes((m / ten_pow(k)) as nat) + seq![46u8] + zero_bytes(pad) + digit_bytes(fp as nat)
    }
}

/// ASCII pieces give ASCII text, character for byte.
proof fn lemma_ascii_concat(x: Seq<u8>, y: Seq<u8>)
    ensures
        ascii_chars(x + y) == ascii_chars(x) + ascii_chars(y),
{
    assert(ascii_chars(x + y) =~= ascii_chars(x) + ascii_chars(y));
}

/// The text of a decimal is the UTF-8 of its ASCII bytes.
proof fn lemma_text_bytes(d: Decimal)
    ensures
        encode_utf8(text_of(d)) == text_bytes(d),
{
    let c = d.coeff_of();
    let e = d.exp_of();
    let m = abs(c);
    let b = text_bytes(d);
    let sign = if c < 0 { seq![45u8] } else { Seq::<u8>::empty() };
    assert(ascii_chars(seq![45u8]) =~= seq!['-']);
    assert(ascii_chars(seq![48u8]) =~= seq!['0']);
    assert(ascii_chars(seq![46u8]) =~= seq!['.']);
    assert(ascii_chars(Seq::<u8>::empty()) =~= Seq::<char>::empty());
    if c == 0 {
    } else if e >= 0 {
        lemma_digit_bytes(m as nat);
        lemma_ascii_concat(sign, digit_bytes(m as nat));
        lemma_ascii_concat(sign + digit_bytes(m as nat), zero_bytes(e as nat));
        assert(ascii_chars(zero_bytes(e as nat)) =~= zeros(e as nat));
    } else if -e > 38 {
        lemma_ascii_concat(sign, seq![48u8]);
    } else {
        let k = (-e) as nat;
        let fp = m % ten_pow(k);
        let pad = if k >= digit_count(fp as nat) { (k - digit_count(fp as nat)) as nat } else { 0nat };
        let q = (m / ten_pow(k)) as nat;
        lemma_digit_bytes(q);
        lemma_digit_bytes(fp as nat);
        lemma_ascii_concat(sign, digit_bytes(q));
        lemma_ascii_concat(sign + digit_bytes(q), seq![46u8]);
        lemma_ascii_concat(sign + digit_bytes(q) + seq![46u8], zero_bytes(pad));
        lemma_ascii_concat(sign + digit_bytes(q) + seq![46u8] + zero_bytes(pad), digit_bytes(fp as nat));
        assert(ascii_chars(zero_bytes(pad)) =~= zeros(pad));
    }
    assert(ascii_chars(b) == text_of(d));
    assert forall|i: int| 0 <= i < b.len() implies b[i] < 128 by {
        if c != 0 && e >= 0 {
            let x = sign + digit_bytes(m as nat);
            lemma_digit_bytes(m as nat);
            if i < sign.len() {
                assert(b[i] == sign[i]);
            } else if i < x.len() {
                assert(b[i] == digit_bytes(m as nat)[i - sign.len()]);
            } else {
                assert(b[i] == zero_bytes(e as nat)[i - x.len()]);
            }
        } else if c != 0 && -e <= 38 {
            let k = (-e) as nat;
            let fp = m % ten_pow(k);
            let pad = if k >= digit_count(fp as nat) { (k - digit_count(fp as nat)) as nat } else { 0nat };
            let q = (m / ten_pow(k)) as nat;
            lemma_digit_bytes(q);
            lemma_digit_bytes(fp as nat);
            let x1 = sign + digit_bytes(q);
            let x2 = x1 + seq![46u8];
            let x3 = x2 + zero_bytes(pad);
            if i < sign.len() {
                assert(b[i] == sign[i]);
            } else if i < x1.len() {
                assert(b[i] == digit_bytes(q)[i - sign.len()]);
            } else if i < x2.len() {
                assert(b[i] == 46);
            } else if i < x3.len() {
                assert(b[i] == zero_bytes(pad)[i - x2.len()]);
            } else {
                assert(b[i] == digit_bytes(fp as nat)[i - x3.len()]);
            }
        } else if c != 0 {
            if i < sign.len() {
                assert(b[i] == sign[i]);
            }
        }
    }
    crate::text::lemma_ascii_text(b);
    vstd::utf8::decode_utf8_encode_utf8(b);
}

/// Digits-and-points pieces make a digits-and-points whole.
proof fn lemma_literal_concat(x: Seq<u8>, y: Seq<u8>)
    requires
        literal_bytes(x),
        literal_bytes(y),
    ensures
        literal_bytes(x + y),
{
    assert forall|i: int| 0 <= i < (x + y).len() implies is_digit_byte(#[trigger] (x + y)[i]) || (x
        + y)[i] == 46 by {
        if i < x.len() {
            assert((x + y)[i] == x[i]);
        } else {
            assert((x + y)[i] == y[i - x.len()]);
        }
    }
}

/// The literal after the sign of a non-zero decimal's text.
proof fn lemma_unsigned_text(sign: Seq<u8>, u: Seq<u8>, neg: bool)
    requires
        sign == (if neg { seq![45u8] } else { Seq::<u8>::empty() }),
        u.len() > 0,
        is_digit_byte(u[0]),
    ensures
        (sign + u).len() > 0,
        unsigned_part(sign + u) == u,
        ((sign + u)[0] == 45) == neg,
{
    if neg {
        assert((sign + u).drop_first() =~= u);
    } else {
        assert(sign + u =~= u);
    }
}

/// A decimal's text reads back as the decimal: the text of a canonical
/// decimal whose fraction, if it has one, is at most 38 digits long parses
/// to a number the decimal denotes, so the canonical parse of the text is
/// the decimal itself (`parse_decimal(&d.to_string()) == Some(d)`).
#[verifier::rlimit(60)]
pub proof fn lemma_text_reads_back(d: Decimal)
    requires
        d.wf(),
        d.exp_of() >= -38,
    ensures
        parse_spec(encode_utf8(text_of(d))) matches Some(p) && d.denotes(p.0, p.1),
        forall|r: Option<Decimal>|
            canonical_result(r, #[trigger] parse_spec(encode_utf8(text_of(d)))) ==> r == Some(d),
{
    lemma_text_bytes(d);
    let b = text_bytes(d);
    let c = d.coeff_of();
    let e = d.exp_of();
    let m = abs(c);
    let neg = c < 0;
    let sign = if c < 0 { seq![45u8] } else { Seq::<u8>::empty() };
    if c == 0 {
        assert(unsigned_part(b) == b);
        assert(b.drop_last() =~= Seq::<u8>::empty());
        assert(b.last() == 48u8);
        assert(digits_value(Seq::<u8>::empty()) == 0 && digit_total(Seq::<u8>::empty()) == 0
            && point_count(Seq::<u8>::empty()) == 0 && fraction_digits(Seq::<u8>::empty()) == 0);
        assert(digits_value(b) == 0);
        assert(digit_total(b) == 1);
        assert(point_count(b) == 0);
        assert(fraction_digits(b) == 0);
        assert(strip(0, 0) == (0int, 0int));
    } else if e >= 0 {
        let dm = digit_bytes(m as nat);
        let z = zero_bytes(e as nat);
        let u = dm + z;
        lemma_digit_bytes(m as nat);
        lemma_zero_bytes(e as nat);
        lemma_counts_concat(dm, z);
        lemma_literal_concat(dm, z);
        assert(u[0] == dm[0]);
        assert(b == sign + u);
        lemma_unsigned_text(sign, u, neg);
        let v = digits_value(u);
        assert(v == m * ten_pow(e as nat));
        assert((if neg { -v } else { v }) == c * ten_pow(e as nat)) by (nonlinear_arith)
            requires v == m * ten_pow(e as nat), m == abs(c), neg == (c < 0);
        lemma_strip_shift(c, e, e as nat);
        assert(strip(c, e) == (c, e));
        assert(e - e as nat == 0);
    } else {
        let k = (-e) as nat;
        lemma_ten_pow_positive(k);
        let fp = m % ten_pow(k);
        let q = (m / ten_pow(k)) as nat;
        vstd::arithmetic::div_mod::lemma_fundamental_div_mod(m, ten_pow(k));
        lemma_digit_count_bound(fp as nat, k);
        let pad = (k - digit_count(fp as nat)) as nat;
        let dq = digit_bytes(q);
        let df = digit_bytes(fp as nat);
        let z = zero_bytes(pad);
        let dot = seq![46u8];
        lemma_digit_bytes(q);
        lemma_digit_bytes(fp as nat);
        lemma_zero_bytes(pad);
        assert(dot.drop_last() =~= Seq::<u8>::empty());
        assert(dot.last() == 46u8);
        assert(digits_value(Seq::<u8>::empty()) == 0 && digit_total(Seq::<u8>::empty()) == 0
            && point_count(Seq::<u8>::empty()) == 0 && fraction_digits(Seq::<u8>::empty()) == 0);
        assert(digits_value(dot) == 0 && digit_total(dot) == 0 && point_count(dot) == 1
            && fraction_digits(dot) == 0);
        assert(literal_bytes(dot));
        let x1 = dq + dot;
        let x2 = x1 + z;
        let u = x2 + df;
        lemma_counts_concat(dq, dot);
        lemma_counts_concat(x1, z);
        lemma_counts_concat(x2, df);
        lemma_literal_concat(dq, dot);
        lemma_literal_concat(x1, z);
        lemma_literal_concat(x2, df);
        assert(u[0] == dq[0]);
        assert(b == sign + u) by {
            assert(sign + dq + dot + z + df =~= sign + u);
        }
        lemma_unsigned_text(sign, u, neg);
        lemma_ten_pow_add(pad, digit_count(fp as nat));
        assert(pad + digit_count(fp as nat) == k);
        let v = digits_value(u);
        assert(ten_pow(0) == 1);
        assert(digits_value(x1) == q);
        assert(v == q * ten_pow(k) + fp) by (nonlinear_arith)
            requires
                v == digits_value(x2) * ten_pow(digit_count(fp as nat)) + fp,
                digits_value(x2) == q * ten_pow(pad),
                ten_pow(k) == ten_pow(pad) * ten_pow(digit_count(fp as nat));
        assert(v == m);
        assert(fraction_digits(u) == k);
        assert((if neg { -v } else { v }) == c);
        assert(strip(c, e) == (c, e));
    }
    let p = parse_spec(encode_utf8(text_of(d)))->0;
    assert forall|r: Option<Decimal>| canonical_result(r, #[trigger] parse_spec(encode_utf8(text_of(d))))
        implies r == Some(d) by {
        if let Some(d2) = r {
            lemma_canonical_unique(d2, d, p.0, p.1);
        }
    }
}

// ------------------------------------------------------------------ laws

/// One value, one representation: two canonical decimals that spell the same
/// number are the same decimal.
pub proof fn lemma_canonical_unique(a: Decimal, b: Decimal, c: int, e: int)
    requires
        a.wf(),
        b.wf(),
        a.denotes(c, e),
        b.denotes(c, e),
    ensures
        a == b,
{
    if c != 0 {
        if a.exp_of() != b.exp_of() {
            let (lo, hi) = if a.exp_of() < b.exp_of() { (a, b) } else { (b, a) };
            let k = (hi.exp_of() - lo.exp_of()) as nat;
            let j = (lo.exp_of() - e) as nat;
            lemma_ten_pow_add(k, j);
            lemma_ten_pow_positive(j);
            assert(hi.exp_of() - e == k + j);
            assert(lo.coeff_of() * ten_pow(j) == (hi.coeff_of() * ten_pow(k)) * ten_pow(j))
                by (nonlinear_arith)
                requires
                    lo.coeff_of() * ten_pow(j) == c,
                    hi.coeff_of() * ten_pow(k + j) == c,
                    ten_pow(k + j) == ten_pow(k) * ten_pow(j);
            assert(lo.coeff_of() == hi.coeff_of() * ten_pow(k)) by (nonlinear_arith)
                requires
                    lo.coeff_of() * ten_pow(j) == (hi.coeff_of() * ten_pow(k)) * ten_pow(j),
                    ten_pow(j) >= 1;
            assert(k >= 1);
            assert(ten_pow(k) == 10 * ten_pow((k - 1) as nat));
            assert(lo.coeff_of() == (hi.coeff_of() * ten_pow((k - 1) as nat)) * 10)
                by (nonlinear_arith)
                requires
                    lo.coeff_of() == hi.coeff_of() * ten_pow(k),
                    ten_pow(k) == 10 * ten_pow((k - 1) as nat);
            vstd::arithmetic::div_mod::lemma_mod_multiples_basic(
                hi.coeff_of() * ten_pow((k - 1) as nat),
                10,
            );
            assert(false);
        }
        let j = (a.exp_of() - e) as nat;
        lemma_ten_pow_positive(j);
        assert(a.coeff_of() == b.coeff_of()) by (nonlinear_arith)
            requires
                a.coeff_of() * ten_pow(j) == b.coeff_of() * ten_pow(j),
                ten_pow(j) >= 1;
    }
    a.lemma_fields_determine(b);
}

impl Decimal {
    /// Two decimals with equal coefficient and exponent are equal.
    proof fn lemma_fields_determine(self, other: Decimal)
        requires
            self.coeff_of() == other.coeff_of(),
            self.exp_of() == other.exp_of(),
        ensures
            self == other,
    {
    }
}

/// Addition commutes, overflow included.
pub proof fn lemma_add_commutes(a: Decimal, b: Decimal)
    ensures
        add_spec(a, b) == add_spec(b, a),
{
}

/// Multiplication commutes, overflow included.
pub proof fn lemma_mul_commutes(a: Decimal, b: Decimal)
    ensures
        mul_spec(a, b) == mul_spec(b, a),
{
    assert(a.coeff_of() * b.coeff_of() == b.coeff_of() * a.coeff_of()) by (nonlinear_arith);
}

/// `compare` is antisymmetric: swapping the operands reverses the answer.
pub proof fn lemma_compare_antisymmetric(a: Decimal, b: Decimal)
    ensures
        order_of(a, b) == reversed(order_of(b, a)),
{
}

/// Canonical decimals with equal values at their common exponent are the
/// same decimal.
pub proof fn lemma_common_equal_same(a: Decimal, b: Decimal)
    requires
        a.wf(),
        b.wf(),
        at_common(a, b).0 == at_common(a, b).1,
    ensures
        a == b,
{
    let (x, y) = at_common(a, b);
    let m = if a.exp_of() <= b.exp_of() { a.exp_of() } else { b.exp_of() };
    if x != 0 {
        assert(a.denotes(x, m));
        assert(b.denotes(x, m));
        lemma_canonical_unique(a, b, x, m);
    } else {
        lemma_ten_pow_positive((a.exp_of() - m) as nat);
        lemma_ten_pow_positive((b.exp_of() - m) as nat);
        assert(a.coeff_of() == 0) by (nonlinear_arith)
            requires
                a.coeff_of() * ten_pow((a.exp_of() - m) as nat) == 0,
                ten_pow((a.exp_of() - m) as nat) >= 1,
        ;
        assert(b.coeff_of() == 0) by (nonlinear_arith)
            requires
                b.coeff_of() * ten_pow((b.exp_of() - m) as nat) == 0,
                ten_pow((b.exp_of() - m) as nat) >= 1,
        ;
        a.lemma_fields_determine(b);
    }
}

/// `d`'s coefficient at exponent `m`, at or below its own.
pub open spec fn scaled(d: Decimal, m: int) -> int {
    d.coeff_of() * ten_pow((d.exp_of() - m) as nat)
}

/// Comparing at any exponent at or below both gives what comparing at the
/// common exponent gives.
proof fn lemma_scaled_pair(a: Decimal, b: Decimal, low: int)
    requires
        low <= a.exp_of(),
        low <= b.exp_of(),
    ensures
        (at_common(a, b).0 < at_common(a, b).1) <==> (scaled(a, low) < scaled(b, low)),
        (at_common(a, b).0 == at_common(a, b).1) <==> (scaled(a, low) == scaled(b, low)),
{
    let m = if a.exp_of() <= b.exp_of() { a.exp_of() } else { b.exp_of() };
    let k = (m - low) as nat;
    let ka = (a.exp_of() - m) as nat;
    let kb = (b.exp_of() - m) as nat;
    lemma_ten_pow_add(ka, k);
    lemma_ten_pow_add(kb, k);
    lemma_ten_pow_positive(k);
    assert((a.exp_of() - low) as nat == ka + k);
    assert((b.exp_of() - low) as nat == kb + k);
    let x = at_common(a, b).0;
    let y = at_common(a, b).1;
    let t = ten_pow(k);
    assert(scaled(a, low) == x * t) by (nonlinear_arith)
        requires
            scaled(a, low) == a.coeff_of() * ten_pow(ka + k),
            ten_pow(ka + k) == ten_pow(ka) * t,
            x == a.coeff_of() * ten_pow(ka);
    assert(scaled(b, low) == y * t) by (nonlinear_arith)
        requires
            scaled(b, low) == b.coeff_of() * ten_pow(kb + k),
            ten_pow(kb + k) == ten_pow(kb) * t,
            y == b.coeff_of() * ten_pow(kb);
    assert((x < y) <==> (x * t < y * t)) by (nonlinear_arith)
        requires t >= 1;
    assert((x == y) <==> (x * t == y * t)) by (nonlinear_arith)
        requires t >= 1;
}

/// `compare` is transitive: it is the total order of the values.
pub proof fn lemma_compare_transitive(a: Decimal, b: Decimal, c: Decimal)
    ensures
        order_of(a, b) == Ordering::Less && order_of(b, c) == Ordering::Less ==> order_of(a, c)
            == Ordering::Less,
        order_of(a, b) != Ordering::Greater && order_of(b, c) != Ordering::Greater ==> order_of(
            a,
            c,
        ) != Ordering::Greater,
{
    let ab = if a.exp_of() <= b.exp_of() { a.exp_of() } else { b.exp_of() };
    let low = if ab <= c.exp_of() { ab } else { c.exp_of() };
    lemma_scaled_pair(a, b, low);
    lemma_scaled_pair(b, c, low);
    lemma_scaled_pair(a, c, low);
}

/// Subtracting is adding the negation, overflow included.
pub proof fn lemma_sub_is_add_of_negation(a: Decimal, b: Decimal, nb: Decimal)
    requires
        nb.coeff_of() == -b.coeff_of(),
        nb.exp_of() == b.exp_of(),
    ensures
        sub_spec(a, b) == add_spec(a, nb),
{
    let m = if a.exp_of() <= b.exp_of() { a.exp_of() } else { b.exp_of() };
    let t = ten_pow((b.exp_of() - m) as nat);
    assert(nb.coeff_of() * t == -(b.coeff_of() * t)) by (nonlinear_arith)
        requires nb.coeff_of() == -b.coeff_of();
    assert(at_common(a, nb).1 == -at_common(a, b).1);
}

/// `compare` says `Equal` exactly when two canonical decimals are the same
/// decimal: the order is total and exact.
pub proof fn lemma_compare_equal_iff_same(a: Decimal, b: Decimal)
    requires
        a.wf(),
        b.wf(),
    ensures
        (order_of(a, b) == Ordering::Equal) <==> a == b,
{
    if order_of(a, b) == Ordering::Equal {
        lemma_common_equal_same(a, b);
    }
}

} // verus!
