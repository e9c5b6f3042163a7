//! Decimal amounts: a signed 96-bit mantissa over a power of ten.
//!
//! A [`Dec`] is the plain content of a `rust_decimal::Decimal`. The arithmetic
//! itself is done by that crate; this module states what each operation returns.
//! Where the exact result fits into 96 bits at the natural scale, it is returned
//! unrounded. Any other sum, difference or product is rounded to the most places at
//! which it fits. An exact quotient that fits at any scale is returned with its
//! value, and only whether a zero stands at its end is left to a name. Any other
//! quotient is the nearest number, and only how many zeros are taken off its end is
//! left to that name.

use rust_decimal::Decimal;
use vstd::prelude::*;

verus! {

/// The largest mantissa: 2^96 - 1.
pub const MAX_MANTISSA: i128 = 79228162514264337593543950335;

/// The largest scale.
pub const MAX_SCALE: u32 = 28;

/// A decimal number `m / 10^s`, as a mathematical value.
pub struct DecV {
    pub m: int,
    pub s: nat,
}

pub open spec fn pow10(n: nat) -> int
    decreases n,
{
    if n == 0 {
        1
    } else {
        10 * pow10((n - 1) as nat)
    }
}

/// Whether a mantissa fits into the 96 bits that a decimal has for it.
pub open spec fn fits(m: int) -> bool {
    -MAX_MANTISSA <= m <= MAX_MANTISSA
}

pub open spec fn valid(v: DecV) -> bool {
    fits(v.m) && v.s <= MAX_SCALE
}

pub open spec fn max_nat(a: nat, b: nat) -> nat {
    if a >= b {
        a
    } else {
        b
    }
}

/// The mantissa of `v` brought to the larger scale `s`.
pub open spec fn at_scale(v: DecV, s: nat) -> int {
    v.m * pow10((s - v.s) as nat)
}

pub open spec fn dec(m: int, s: nat) -> DecV {
    DecV { m, s }
}

pub open spec fn zero() -> DecV {
    dec(0, 0)
}

pub open spec fn one() -> DecV {
    dec(1, 0)
}

/// `a < b` as numbers.
pub open spec fn lt(a: DecV, b: DecV) -> bool {
    a.m * pow10(b.s) < b.m * pow10(a.s)
}

/// `a <= b` as numbers.
pub open spec fn le(a: DecV, b: DecV) -> bool {
    a.m * pow10(b.s) <= b.m * pow10(a.s)
}

/// `a == b` as numbers: `1.0` and `1.00` are the same value.
pub open spec fn same_value(a: DecV, b: DecV) -> bool {
    a.m * pow10(b.s) == b.m * pow10(a.s)
}

pub open spec fn spec_max(a: DecV, b: DecV) -> DecV {
    if lt(a, b) {
        b
    } else {
        a
    }
}

/// `v` limited to the range from `lo` to `hi`.
pub open spec fn spec_clamp(v: DecV, lo: DecV, hi: DecV) -> DecV {
    if lt(v, lo) {
        lo
    } else if lt(hi, v) {
        hi
    } else {
        v
    }
}

/// The quotient of two decimals whose mantissas do not divide evenly, by which it is
/// known how many zeros are left at its end.
pub uninterp spec fn rounded_quotient(am: int, asc: nat, bm: int, bsc: nat) -> Option<(int, nat)>;

pub open spec fn of_pair(p: Option<(int, nat)>) -> Option<DecV> {
    match p {
        Some((m, s)) => Some(DecV { m, s }),
        None => None,
    }
}

/// `a + b`, in units of the last place that `a` or `b` has.
pub open spec fn sum_at(a: DecV, b: DecV) -> int {
    at_scale(a, max_nat(a.s, b.s)) + at_scale(b, max_nat(a.s, b.s))
}

/// `a - b`, in units of the last place that `a` or `b` has.
pub open spec fn difference_at(a: DecV, b: DecV) -> int {
    at_scale(a, max_nat(a.s, b.s)) - at_scale(b, max_nat(a.s, b.s))
}

/// Some decimal is exactly `m / 10^s`.
pub open spec fn is_decimal(m: int, s: nat) -> bool {
    exists|q: DecV| valid(q) && q.s <= s && #[trigger] at_scale(q, s) == m
}

/// `a + b` needs no rounding: it fits as it stands, or without zeros at its end.
pub open spec fn exact_sum(a: DecV, b: DecV) -> bool {
    a.m == 0 || b.m == 0 || fits(sum_at(a, b)) || is_decimal(sum_at(a, b), max_nat(a.s, b.s))
}

/// `a - b` needs no rounding: it fits as it stands, or without zeros at its end.
pub open spec fn exact_difference(a: DecV, b: DecV) -> bool {
    a.m == 0 || b.m == 0 || fits(difference_at(a, b)) || is_decimal(
        difference_at(a, b),
        max_nat(a.s, b.s),
    )
}

/// `a * b` needs no rounding: it fits as it stands, or without zeros at its end.
pub open spec fn exact_product(a: DecV, b: DecV) -> bool {
    a.m == 0 || b.m == 0 || (fits(a.m * b.m) && a.s + b.s <= MAX_SCALE) || is_decimal(
        a.m * b.m,
        a.s + b.s,
    )
}

/// `a / b` comes out at once: `b` is 0, `a` is 0, or the mantissas divide evenly.
pub open spec fn exact_quotient(a: DecV, b: DecV) -> bool {
    a.m == 0 || b.m == 0 || divides_evenly(a, b)
}

/// `m / 10^s` rounded to `t` places, an exact half going to the even neighbour.
pub open spec fn shortened(m: int, s: nat, t: nat) -> int {
    let q = half_even(abs(m), pow10((s - t) as nat));
    if m < 0 {
        -q
    } else {
        q
    }
}

/// `m / 10^s` with the most places, up to `t`, at which it fits into 96 bits when
/// rounded; `None` where it does not fit without places.
#[verifier::opaque]
pub open spec fn rounded_to_fit(m: int, s: nat, t: nat) -> Option<DecV>
    decreases t,
{
    if fits(shortened(m, s, t)) {
        Some(dec(shortened(m, s, t), t))
    } else if t == 0 {
        None
    } else {
        rounded_to_fit(m, s, (t - 1) as nat)
    }
}

/// `a + b`; `None` where it is out of range.
pub open spec fn plus(a: DecV, b: DecV) -> Option<DecV> {
    let s = max_nat(a.s, b.s);
    if a.m == 0 {
        Some(b)
    } else if b.m == 0 {
        Some(a)
    } else if fits(sum_at(a, b)) {
        Some(dec(sum_at(a, b), s))
    } else {
        rounded_to_fit(sum_at(a, b), s, s)
    }
}

/// `a - b`; `None` where it is out of range.
pub open spec fn minus(a: DecV, b: DecV) -> Option<DecV> {
    let s = max_nat(a.s, b.s);
    if a.m == 0 {
        Some(dec(-b.m, b.s))
    } else if b.m == 0 {
        Some(a)
    } else if fits(difference_at(a, b)) {
        Some(dec(difference_at(a, b), s))
    } else {
        rounded_to_fit(difference_at(a, b), s, s)
    }
}

/// Below this a mantissa takes one 32-bit word.
pub const WORD: i128 = 4294967296;

/// A product that is dropped unrounded: that of two one-word mantissas with more
/// than 47 places between them is less than half of the 28th place.
pub open spec fn vanishes(a: DecV, b: DecV) -> bool {
    abs(a.m) < WORD && abs(b.m) < WORD && a.s + b.s > 47
}

/// `a * b`; `None` where it is out of range.
pub open spec fn times(a: DecV, b: DecV) -> Option<DecV> {
    let s = a.s + b.s;
    if a.m == 0 || b.m == 0 || vanishes(a, b) {
        Some(zero())
    } else if s > MAX_SCALE {
        rounded_to_fit(a.m * b.m, s, MAX_SCALE as nat)
    } else if fits(a.m * b.m) {
        Some(dec(a.m * b.m, s))
    } else {
        rounded_to_fit(a.m * b.m, s, s)
    }
}

pub open spec fn abs(m: int) -> int {
    if m < 0 {
        -m
    } else {
        m
    }
}

/// The mantissa of `b` divides that of `a`, and the scale does not go below 0.
pub open spec fn divides_evenly(a: DecV, b: DecV) -> bool {
    a.s >= b.s && abs(a.m) % abs(b.m) == 0
}

/// `q == a / b` as numbers.
pub open spec fn is_quotient(q: DecV, a: DecV, b: DecV) -> bool {
    (q.m * b.m) * pow10(a.s) == (a.m * pow10(b.s)) * pow10(q.s)
}

/// `a / b` with the fewest places, but at least `s`, where it comes out exactly
/// and fits.
#[verifier::opaque]
pub open spec fn shortest_quotient(a: DecV, b: DecV, s: nat) -> Option<DecV>
    decreases MAX_SCALE + 1 - s,
{
    let n = (a.m * pow10(b.s)) * pow10(s);
    let d = b.m * pow10(a.s);
    if s > MAX_SCALE {
        None
    } else if n % d != 0 {
        shortest_quotient(a, b, s + 1)
    } else if fits(n / d) {
        Some(dec(n / d, s))
    } else {
        None
    }
}

/// The same number with `k` zeros at its end.
pub open spec fn with_zeros(v: DecV, k: nat) -> DecV {
    dec(v.m * pow10(k), v.s + k)
}

/// How many zeros stand at the end of the quotient `q`: one, where it is named
/// with one place more than it needs, and none otherwise.
pub open spec fn spare_zeros(a: DecV, b: DecV, q: DecV) -> nat {
    match rounded_quotient(a.m, a.s, b.m, b.s) {
        Some((_, s)) if s == q.s + 1 && valid(with_zeros(q, 1)) => 1,
        _ => 0,
    }
}

/// `n / d` rounds to a mantissa of 96 bits at `t` places.
pub open spec fn fits_at(n: int, d: int, t: nat) -> bool {
    2 * (n * pow10(t)) < (2 * MAX_MANTISSA + 1) * d
}

/// The most places, up to `t`, at which `n / d` rounds to a mantissa of 96 bits.
#[verifier::opaque]
pub open spec fn most_places(n: int, d: int, t: nat) -> nat
    decreases t,
{
    if t == 0 || fits_at(n, d, t) {
        t
    } else {
        most_places(n, d, (t - 1) as nat)
    }
}

/// The size of `a / b` as a fraction: what is above the line.
pub open spec fn upper(a: DecV, b: DecV) -> int {
    abs(a.m) * pow10(b.s)
}

/// The size of `a / b` as a fraction: what is below the line.
pub open spec fn lower(a: DecV, b: DecV) -> int {
    abs(b.m) * pow10(a.s)
}

/// The places to which `a / b` is rounded.
pub open spec fn quotient_places(a: DecV, b: DecV) -> nat {
    most_places(upper(a, b), lower(a, b), MAX_SCALE as nat)
}

/// `v` with the places of the named quotient, where only zeros are left out.
pub open spec fn with_named_places(v: DecV, name: Option<(int, nat)>) -> DecV {
    match name {
        Some((_, s)) if s <= v.s && v.m % pow10((v.s - s) as nat) == 0 => dec(
            v.m / pow10((v.s - s) as nat),
            s,
        ),
        _ => v,
    }
}

/// `a / b` rounded: the nearest number of as many places as 96 bits allow, at most
/// 28, an exact half going to the even neighbour; `None` where it does not fit without
/// places.
pub open spec fn nearest_quotient(a: DecV, b: DecV) -> Option<DecV> {
    let t = quotient_places(a, b);
    if !fits_at(upper(a, b), lower(a, b), 0) {
        None
    } else {
        let m = half_even(upper(a, b) * pow10(t), lower(a, b));
        Some(
            with_named_places(
                dec(if (a.m < 0) != (b.m < 0) { -m } else { m }, t),
                rounded_quotient(a.m, a.s, b.m, b.s),
            ),
        )
    }
}

/// `a / b`; `None` where `b` is 0 or the quotient is out of range.
pub open spec fn over(a: DecV, b: DecV) -> Option<DecV> {
    if b.m == 0 {
        None
    } else if a.m == 0 {
        Some(zero())
    } else if exact_quotient(a, b) {
        let q = abs(a.m) / abs(b.m);
        Some(dec(if (a.m < 0) != (b.m < 0) { -q } else { q }, (a.s - b.s) as nat))
    } else {
        match shortest_quotient(a, b, 0) {
            Some(q) => Some(with_zeros(q, spare_zeros(a, b, q))),
            None => nearest_quotient(a, b),
        }
    }
}

/// The integer nearest to `n / d`, an exact half going to the even neighbour.
pub open spec fn half_even(n: int, d: int) -> int {
    let q = n / d;
    let r = n % d;
    if 2 * r > d || (2 * r == d && q % 2 == 1) {
        q + 1
    } else {
        q
    }
}

/// `v` rounded to an integer, an exact half going to the even neighbour.
pub open spec fn rounded(v: DecV) -> DecV {
    if v.s == 0 {
        v
    } else {
        let q = half_even(abs(v.m), pow10(v.s));
        dec(if v.m < 0 { -q } else { q }, 0)
    }
}

/// The decimal digits of `n`, most significant first, without leading zeros.
pub open spec fn digits(n: nat) -> Seq<char>
    decreases n,
{
    if n < 10 {
        seq![digit(n)]
    } else {
        digits(n / 10).push(digit(n % 10))
    }
}

/// The character of one decimal digit.
pub open spec fn digit(d: nat) -> char {
    (48 + d) as char
}

/// The last `width` decimal digits of `n`, with leading zeros.
pub open spec fn padded(n: nat, width: nat) -> Seq<char>
    decreases width,
{
    if width == 0 {
        Seq::empty()
    } else {
        padded(n / 10, (width - 1) as nat).push(digit(n % 10))
    }
}

/// How a decimal is written: sign, whole part, and `s` digits after the point.
pub open spec fn text(v: DecV) -> Seq<char> {
    let n = abs(v.m) as nat;
    let p = pow10(v.s) as nat;
    let sign = if v.m < 0 {
        seq!['-']
    } else {
        Seq::empty()
    };
    let fraction = if v.s == 0 {
        Seq::empty()
    } else {
        seq!['.'] + padded(n % p, v.s)
    };
    sign + digits(n / p) + fraction
}

/// A decimal number: `mantissa / 10^scale`.
#[derive(Clone, Copy, Debug)]
pub struct Dec {
    mantissa: i128,
    scale: u32,
}

impl View for Dec {
    type V = DecV;

    closed spec fn view(&self) -> DecV {
        DecV { m: self.mantissa as int, s: self.scale as nat }
    }
}

impl PartialEq for Dec {
    fn eq(&self, other: &Dec) -> (r: bool) {
        decimal_eq(*self, *other)
    }
}

impl vstd::std_specs::cmp::PartialEqSpecImpl for Dec {
    open spec fn obeys_eq_spec() -> bool {
        true
    }

    open spec fn eq_spec(&self, other: &Dec) -> bool {
        same_value(self@, other@)
    }
}

impl Dec {
    /// What holds of every decimal: see `lemma_in_range`.
    #[verifier::type_invariant]
    pub closed spec fn in_range(self) -> bool {
        valid(DecV { m: self.mantissa as int, s: self.scale as nat })
    }

    /// `num / 10^scale`.
    pub fn new(num: i64, scale: u32) -> (r: Dec)
        requires
            scale <= MAX_SCALE,
        ensures
            r@ == dec(num as int, scale as nat),
    {
        Dec { mantissa: num as i128, scale }
    }

    /// `mantissa / 10^scale`, where both are in range.
    pub fn from_parts(mantissa: i128, scale: u32) -> (r: Option<Dec>)
        ensures
            r is Some <==> valid(dec(mantissa as int, scale as nat)),
            r matches Some(d) ==> d@ == dec(mantissa as int, scale as nat),
    {
        if -MAX_MANTISSA <= mantissa && mantissa <= MAX_MANTISSA && scale <= MAX_SCALE {
            Some(Dec { mantissa, scale })
        } else {
            None
        }
    }

    /// The number 0.
    pub closed spec fn spec_zero() -> Dec {
        Dec { mantissa: 0, scale: 0 }
    }

    /// The number 0.
    pub fn zero() -> (r: Dec)
        ensures
            r@ == zero(),
            r == Dec::spec_zero(),
    {
        Dec { mantissa: 0, scale: 0 }
    }

    pub fn one() -> (r: Dec)
        ensures
            r@ == one(),
    {
        Dec { mantissa: 1, scale: 0 }
    }

    pub fn mantissa(self) -> (r: i128)
        ensures
            r == self@.m,
            fits(r as int),
    {
        proof {
            use_type_invariant(&self);
        }
        self.mantissa
    }

    pub fn scale(self) -> (r: u32)
        ensures
            r == self@.s,
            r <= MAX_SCALE,
    {
        proof {
            use_type_invariant(&self);
        }
        self.scale
    }

    /// The larger of two numbers; `self` where they are equal.
    pub fn max(self, other: Dec) -> (r: Dec)
        ensures
            r@ == spec_max(self@, other@),
            r == self || r == other,
            valid(r@),
    {
        proof {
            use_type_invariant(&self);
            use_type_invariant(&other);
        }
        if decimal_lt(self, other) {
            other
        } else {
            self
        }
    }

    /// The number limited to the range from `lo` to `hi`.
    pub fn clamp(self, lo: Dec, hi: Dec) -> (r: Dec)
        requires
            le(lo@, hi@),
        ensures
            r@ == spec_clamp(self@, lo@, hi@),
            r == self || r == lo || r == hi,
            valid(r@),
    {
        proof {
            use_type_invariant(&self);
            use_type_invariant(&lo);
            use_type_invariant(&hi);
        }
        if decimal_lt(self, lo) {
            lo
        } else if decimal_lt(hi, self) {
            hi
        } else {
            self
        }
    }

    /// `self > 0`.
    pub fn is_positive(self) -> (r: bool)
        ensures
            r == (self@.m > 0),
    {
        self.mantissa > 0
    }

    /// `self == 0`.
    pub fn is_zero(self) -> (r: bool)
        ensures
            r == (self@.m == 0),
    {
        self.mantissa == 0
    }
}

/// `rust_decimal::Decimal`'s `<`: the order of the two numbers, whatever their
/// scales.
#[verifier::external_body]
pub(crate) fn decimal_lt(a: Dec, b: Dec) -> (r: bool)
    ensures
        r == lt(a@, b@),
{
    Decimal::from_i128_with_scale(a.mantissa, a.scale) < Decimal::from_i128_with_scale(
        b.mantissa,
        b.scale,
    )
}

/// `rust_decimal::Decimal`'s `==`: equality of the two numbers, whatever their
/// scales.
#[verifier::external_body]
pub(crate) fn decimal_eq(a: Dec, b: Dec) -> (r: bool)
    ensures
        r == same_value(a@, b@),
{
    Decimal::from_i128_with_scale(a.mantissa, a.scale) == Decimal::from_i128_with_scale(
        b.mantissa,
        b.scale,
    )
}

/// `rust_decimal::Decimal::checked_add`: a zero operand gives the other operand
/// back; a sum that fits into 96 bits is returned exactly, at the larger of the two
/// scales; any other sum is rounded to the most places at which it fits, an exact
/// half going to the even neighbour, and is `None` where it does not fit without
/// places.
#[verifier::external_body]
pub(crate) fn decimal_add(a: Dec, b: Dec) -> (r: Option<Dec>)
    ensures
        opt(r) == plus(a@, b@),
        r is Some ==> valid(r->0@),
{
    Decimal::from_i128_with_scale(a.mantissa, a.scale).checked_add(
        Decimal::from_i128_with_scale(b.mantissa, b.scale),
    ).map(|d| Dec { mantissa: d.mantissa(), scale: d.scale() })
}

/// `rust_decimal::Decimal::checked_sub`: `0 - b` is `-b`; `a - 0` is `a`; a
/// difference that fits into 96 bits is returned exactly, at the larger of the two
/// scales; any other difference is rounded as a sum is.
#[verifier::external_body]
pub(crate) fn decimal_sub(a: Dec, b: Dec) -> (r: Option<Dec>)
    ensures
        opt(r) == minus(a@, b@),
        r is Some ==> valid(r->0@),
{
    Decimal::from_i128_with_scale(a.mantissa, a.scale).checked_sub(
        Decimal::from_i128_with_scale(b.mantissa, b.scale),
    ).map(|d| Dec { mantissa: d.mantissa(), scale: d.scale() })
}

/// `rust_decimal::Decimal::checked_mul`: a zero operand gives `0` at scale 0; a
/// product that fits into 96 bits and 28 places is returned exactly, with the scales
/// added; any other product is rounded to the most places, up to 28, at which it
/// fits, an exact half going to the even neighbour, and is `None` where it does not
/// fit without places. Two mantissas of one word with more than 47 places between
/// them give `0` at scale 0.
#[verifier::external_body]
pub(crate) fn decimal_mul(a: Dec, b: Dec) -> (r: Option<Dec>)
    ensures
        opt(r) == times(a@, b@),
        r is Some ==> valid(r->0@),
{
    Decimal::from_i128_with_scale(a.mantissa, a.scale).checked_mul(
        Decimal::from_i128_with_scale(b.mantissa, b.scale),
    ).map(|d| Dec { mantissa: d.mantissa(), scale: d.scale() })
}

/// `rust_decimal::Decimal::checked_div`: `None` for a zero divisor, `0` at scale 0
/// for a zero dividend; where the mantissas divide evenly and the scale does not
/// go below 0, the quotient of the mantissas at the difference of the scales. Any
/// other quotient is expanded by up to nine places at a time: one that comes out
/// within 28 places and 96 bits is returned with its exact value. Of the zeros that
/// the last expansion leaves at its end, at most eight, four, two and one are taken
/// off, so that it has the fewest places it needs or one more. The rest is expanded
/// to as many places as 28 places and 96 bits allow and rounded there to the nearest
/// number, an exact half going to the even neighbour; what does not fit without
/// places is out of range. How many zeros are taken off the end of a rounded
/// quotient follows from how the expansion went, and is left to the name.
#[verifier::external_body]
pub(crate) fn decimal_div(a: Dec, b: Dec) -> (r: Option<Dec>)
    ensures
        opt(r) == over(a@, b@),
        !exact_quotient(a@, b@) ==> opt(r) == of_pair(rounded_quotient(a@.m, a@.s, b@.m, b@.s)),
        r is Some ==> valid(r->0@),
{
    Decimal::from_i128_with_scale(a.mantissa, a.scale).checked_div(
        Decimal::from_i128_with_scale(b.mantissa, b.scale),
    ).map(|d| Dec { mantissa: d.mantissa(), scale: d.scale() })
}

/// `rust_decimal::Decimal::round`: the nearest integer, an exact half going to the
/// even neighbour; a number without fractional digits is returned as it is.
#[verifier::external_body]
pub(crate) fn decimal_round(a: Dec) -> (r: Dec)
    ensures
        r@ == rounded(a@),
        valid(r@),
{
    let d = Decimal::from_i128_with_scale(a.mantissa, a.scale).round();
    Dec { mantissa: d.mantissa(), scale: d.scale() }
}

/// `rust_decimal::Decimal`'s `to_string`: the sign, the whole part, and as many
/// digits after the point as the scale says.
#[verifier::external_body]
pub(crate) fn decimal_to_string(a: Dec) -> (r: String)
    ensures
        r@ == text(a@),
{
    Decimal::from_i128_with_scale(a.mantissa, a.scale).to_string()
}

/// Every decimal is one of 96 bits and at most 28 places.
pub proof fn lemma_in_range(d: Dec)
    requires
        d.in_range(),
    ensures
        valid(d@),
{
}

/// The value of an optional decimal.
pub open spec fn opt(d: Option<Dec>) -> Option<DecV> {
    match d {
        Some(d) => Some(d@),
        None => None,
    }
}

impl Dec {
    /// `self + other`, where that is in range.
    pub fn checked_add(self, other: Dec) -> (r: Option<Dec>)
        ensures
            opt(r) == plus(self@, other@),
    {
        decimal_add(self, other)
    }

    /// `self - other`, where that is in range.
    pub fn checked_sub(self, other: Dec) -> (r: Option<Dec>)
        ensures
            opt(r) == minus(self@, other@),
            self@.m >= 0 && other@.m >= 0 ==> r is Some,
    {
        proof {
            use_type_invariant(&self);
            use_type_invariant(&other);
            if self@.m >= 0 && other@.m >= 0 {
                lemma_difference_in_range(self@, other@);
            }
        }
        decimal_sub(self, other)
    }

    /// `self * other`, where that is in range.
    pub fn checked_mul(self, other: Dec) -> (r: Option<Dec>)
        ensures
            opt(r) == times(self@, other@),
    {
        decimal_mul(self, other)
    }

    /// `self / other`, where `other` is not 0 and the quotient is in range.
    pub fn checked_div(self, other: Dec) -> (r: Option<Dec>)
        ensures
            opt(r) == over(self@, other@),
    {
        decimal_div(self, other)
    }

    /// The nearest integer, an exact half going to the even neighbour.
    pub fn round(self) -> (r: Dec)
        ensures
            r@ == rounded(self@),
    {
        decimal_round(self)
    }

    /// `self < other` as numbers.
    pub fn less_than(self, other: Dec) -> (r: bool)
        ensures
            r == lt(self@, other@),
    {
        decimal_lt(self, other)
    }

    /// The number as it is written: `0.65`, `-1.20`, `7`.
    pub fn to_text(self) -> (r: String)
        ensures
            r@ == text(self@),
    {
        decimal_to_string(self)
    }
}

/// Sums of amounts that may already be out of range.
pub open spec fn o_plus(a: Option<DecV>, b: Option<DecV>) -> Option<DecV> {
    match (a, b) {
        (Some(x), Some(y)) => plus(x, y),
        _ => None,
    }
}

pub open spec fn o_minus(a: Option<DecV>, b: Option<DecV>) -> Option<DecV> {
    match (a, b) {
        (Some(x), Some(y)) => minus(x, y),
        _ => None,
    }
}

pub open spec fn o_times(a: Option<DecV>, b: Option<DecV>) -> Option<DecV> {
    match (a, b) {
        (Some(x), Some(y)) => times(x, y),
        _ => None,
    }
}

pub open spec fn o_over(a: Option<DecV>, b: Option<DecV>) -> Option<DecV> {
    match (a, b) {
        (Some(x), Some(y)) => over(x, y),
        _ => None,
    }
}

/// The sum, where both amounts and the sum are in range.
pub fn add_amounts(a: Option<Dec>, b: Option<Dec>) -> (r: Option<Dec>)
    ensures
        opt(r) == o_plus(opt(a), opt(b)),
{
    match (a, b) {
        (Some(x), Some(y)) => x.checked_add(y),
        _ => None,
    }
}

/// The difference, where both amounts and the difference are in range.
pub fn sub_amounts(a: Option<Dec>, b: Option<Dec>) -> (r: Option<Dec>)
    ensures
        opt(r) == o_minus(opt(a), opt(b)),
{
    match (a, b) {
        (Some(x), Some(y)) => x.checked_sub(y),
        _ => None,
    }
}

/// The product, where both amounts and the product are in range.
pub fn mul_amounts(a: Option<Dec>, b: Option<Dec>) -> (r: Option<Dec>)
    ensures
        opt(r) == o_times(opt(a), opt(b)),
{
    match (a, b) {
        (Some(x), Some(y)) => x.checked_mul(y),
        _ => None,
    }
}

/// The quotient, where both amounts and the quotient are in range.
pub fn div_amounts(a: Option<Dec>, b: Option<Dec>) -> (r: Option<Dec>)
    ensures
        opt(r) == o_over(opt(a), opt(b)),
{
    match (a, b) {
        (Some(x), Some(y)) => x.checked_div(y),
        _ => None,
    }
}

/// `a + b == c` as numbers.
pub open spec fn adds_up(a: DecV, b: DecV, c: DecV) -> bool {
    a.m * pow10(b.s + c.s) + b.m * pow10(a.s + c.s) == c.m * pow10(a.s + b.s)
}

/// The number 0 has the value 0.
pub proof fn lemma_zero()
    ensures
        Dec::spec_zero()@ == zero(),
{
}

pub proof fn lemma_pow10_positive(n: nat)
    ensures
        pow10(n) >= 1,
    decreases n,
{
    if n > 0 {
        lemma_pow10_positive((n - 1) as nat);
    }
}

pub proof fn lemma_pow10_sum(a: nat, b: nat)
    ensures
        pow10(a + b) == pow10(a) * pow10(b),
    decreases a,
{
    if a > 0 {
        lemma_pow10_sum((a - 1) as nat, b);
        let x = pow10((a - 1) as nat);
        let y = pow10(b);
        assert((10 * x) * y == 10 * (x * y)) by (nonlinear_arith);
        assert((a + b - 1) as nat == (a - 1) as nat + b);
    } else {
        assert(pow10(0) == 1);
    }
}

/// `<=` is transitive.
pub proof fn lemma_le_transitive(a: DecV, b: DecV, c: DecV)
    requires
        le(a, b),
        le(b, c),
    ensures
        le(a, c),
{
    lemma_pow10_positive(a.s);
    lemma_pow10_positive(b.s);
    lemma_pow10_positive(c.s);
    let (pa, pb, pc) = (pow10(a.s), pow10(b.s), pow10(c.s));
    let (x, y, z) = (a.m, b.m, c.m);
    assert(x * pc <= z * pa) by (nonlinear_arith)
        requires
            x * pb <= y * pa,
            y * pc <= z * pb,
            pa >= 1,
            pb >= 1,
            pc >= 1,
    {
        assert((x * pb) * pc <= (y * pa) * pc);
        assert((y * pc) * pa <= (z * pb) * pa);
        assert((x * pc) * pb <= (z * pa) * pb);
        if x * pc > z * pa {
            assert((x * pc) * pb > (z * pa) * pb);
        }
    }
}

/// Of two numbers one is at most the other; `<` is the opposite of `>=`.
pub proof fn lemma_lt_le(a: DecV, b: DecV)
    ensures
        lt(a, b) <==> !le(b, a),
        le(a, b) <==> lt(a, b) || same_value(a, b),
        le(a, a),
{
}

/// Comparing with 0 looks at the sign of the mantissa.
pub proof fn lemma_compare_zero(a: DecV)
    ensures
        lt(zero(), a) <==> a.m > 0,
        lt(a, zero()) <==> a.m < 0,
        le(zero(), a) <==> a.m >= 0,
        same_value(a, zero()) <==> a.m == 0,
{
    lemma_pow10_positive(a.s);
    assert(pow10(0) == 1);
    let p = pow10(a.s);
    assert(0 * p == 0) by (nonlinear_arith);
    assert(a.m * 1 == a.m);
}

/// Rounding to the even neighbour goes at most half a unit.
pub proof fn lemma_half_even(n: int, d: int)
    requires
        n >= 0,
        d > 0,
    ensures
        2 * (half_even(n, d) * d) <= 2 * n + d,
        2 * (half_even(n, d) * d) >= 2 * n - d,
        half_even(n, d) >= 0,
{
    vstd::arithmetic::div_mod::lemma_fundamental_div_mod(n, d);
    vstd::arithmetic::div_mod::lemma_div_pos_is_pos(n, d);
    let (q, r) = (n / d, n % d);
    assert(d * q == q * d) by (nonlinear_arith);
    assert((q + 1) * d == q * d + d) by (nonlinear_arith);
}

/// A multiple is not rounded.
proof fn lemma_half_even_exact(w: int, d: int)
    requires
        d > 0,
    ensures
        half_even(w * d, d) == w,
{
    vstd::arithmetic::div_mod::lemma_fundamental_div_mod_converse(w * d, d, w, 0);
}

/// Rounding keeps the order.
proof fn lemma_half_even_in_order(n1: int, n2: int, d: int)
    requires
        0 <= n1 <= n2,
        d > 0,
    ensures
        half_even(n1, d) <= half_even(n2, d),
{
    vstd::arithmetic::div_mod::lemma_div_is_ordered(n1, n2, d);
    vstd::arithmetic::div_mod::lemma_fundamental_div_mod(n1, d);
    vstd::arithmetic::div_mod::lemma_fundamental_div_mod(n2, d);
}

/// At its own scale a number has its own mantissa.
proof fn lemma_own_scale(v: DecV)
    ensures
        at_scale(v, v.s) == v.m,
{
    assert(pow10((v.s - v.s) as nat) == 1);
    let m = v.m;
    assert(m * 1 == m) by (nonlinear_arith);
}

/// `at_scale` at two scales differs by the power of ten between them.
proof fn lemma_at_scale_steps(v: DecV, s: nat, t: nat)
    requires
        v.s <= s <= t,
    ensures
        at_scale(v, t) == at_scale(v, s) * pow10((t - s) as nat),
{
    lemma_pow10_sum((s - v.s) as nat, (t - s) as nat);
    let (m, x, y) = (v.m, pow10((s - v.s) as nat), pow10((t - s) as nat));
    assert(m * (x * y) == (m * x) * y) by (nonlinear_arith);
}

/// What a rounded number is: rounded to its own places, and to the most there are.
proof fn lemma_rounded_to_fit(m: int, s: nat, t: nat)
    requires
        t <= s,
    ensures
        rounded_to_fit(m, s, t) matches Some(d) ==> {
            &&& d.s <= t
            &&& fits(d.m)
            &&& d.m == shortened(m, s, d.s)
            &&& d.s < t ==> !fits(shortened(m, s, d.s + 1))
        },
    decreases t,
{
    reveal_with_fuel(rounded_to_fit, 1);
    if !fits(shortened(m, s, t)) && t > 0 {
        lemma_rounded_to_fit(m, s, (t - 1) as nat);
    }
}

/// What fits with `u` places is given at least as many.
proof fn lemma_rounded_at_least(m: int, s: nat, u: nat, t: nat)
    requires
        u <= t <= s,
        fits(shortened(m, s, u)),
    ensures
        rounded_to_fit(m, s, t) matches Some(d) && d.s >= u,
    decreases t,
{
    reveal_with_fuel(rounded_to_fit, 1);
    if t > u && !fits(shortened(m, s, t)) {
        lemma_rounded_at_least(m, s, u, (t - 1) as nat);
    }
}

/// A number that has only zeros behind `t` places is shortened to `t` places
/// without loss.
proof fn lemma_shortened_exact(m: int, s: nat, t: nat, w: int)
    requires
        t <= s,
        m == w * pow10((s - t) as nat),
    ensures
        shortened(m, s, t) == w,
{
    let p = pow10((s - t) as nat);
    lemma_pow10_positive((s - t) as nat);
    assert(abs(w * p) == abs(w) * p && (w * p < 0 <==> w < 0)) by (nonlinear_arith)
        requires
            p >= 1,
    ;
    lemma_half_even_exact(abs(w), p);
}

/// What is a decimal number is not changed by rounding.
proof fn lemma_decimal_is_kept(m: int, s: nat, t: nat, q: DecV)
    requires
        q.s <= t <= s,
        valid(q),
        at_scale(q, s) == m,
    ensures
        rounded_to_fit(m, s, t) matches Some(d) && d.s <= t && at_scale(d, s) == m,
{
    lemma_shortened_exact(m, s, q.s, q.m);
    lemma_rounded_at_least(m, s, q.s, t);
    lemma_rounded_to_fit(m, s, t);
    let d = rounded_to_fit(m, s, t)->0;
    lemma_at_scale_steps(q, d.s, s);
    lemma_shortened_exact(m, s, d.s, at_scale(q, d.s));
}

/// How far `a + b` is from `c`, in units of `10^-(a.s + b.s + c.s)`.
pub open spec fn excess(a: DecV, b: DecV, c: DecV) -> int {
    a.m * pow10(b.s + c.s) + b.m * pow10(a.s + c.s) - c.m * pow10(a.s + b.s)
}

/// `a + b` is `c`, up to half a unit of the last place of `b`.
pub open spec fn nearly_adds_up(a: DecV, b: DecV, c: DecV) -> bool {
    2 * abs(excess(a, b, c)) <= pow10(a.s + c.s)
}

/// How far a sum is off, in units of a common last place.
proof fn lemma_excess_at(a: DecV, b: DecV, c: DecV, s: nat)
    requires
        a.s <= s,
        b.s <= s,
        c.s <= s,
    ensures
        excess(a, b, c) * pow10(s) == (at_scale(a, s) + at_scale(b, s) - at_scale(c, s)) * ((pow10(
            a.s,
        ) * pow10(b.s)) * pow10(c.s)),
{
    let (pa, pb, pc, ps) = (pow10(a.s), pow10(b.s), pow10(c.s), pow10(s));
    let (xa, xb, xc) = (pow10((s - a.s) as nat), pow10((s - b.s) as nat), pow10((s - c.s) as nat));
    lemma_pow10_sum(a.s, (s - a.s) as nat);
    lemma_pow10_sum(b.s, (s - b.s) as nat);
    lemma_pow10_sum(c.s, (s - c.s) as nat);
    lemma_pow10_sum(a.s, b.s);
    lemma_pow10_sum(a.s, c.s);
    lemma_pow10_sum(b.s, c.s);
    let (x, y, z) = (a.m, b.m, c.m);
    let w = (pa * pb) * pc;
    assert((x * (pb * pc)) * ps == (x * xa) * w) by (nonlinear_arith)
        requires
            ps == pa * xa,
            w == (pa * pb) * pc,
    ;
    assert((y * (pa * pc)) * ps == (y * xb) * w) by (nonlinear_arith)
        requires
            ps == pb * xb,
            w == (pa * pb) * pc,
    ;
    assert((z * (pa * pb)) * ps == (z * xc) * w) by (nonlinear_arith)
        requires
            ps == pc * xc,
            w == (pa * pb) * pc,
    ;
    let (i, j, k) = (x * (pb * pc), y * (pa * pc), z * (pa * pb));
    let (f, g, h) = (x * xa, y * xb, z * xc);
    assert((i + j - k) * ps == (f + g - h) * w) by (nonlinear_arith)
        requires
            i * ps == f * w,
            j * ps == g * w,
            k * ps == h * w,
    ;
}

/// Sums in units of a common last place are sums of numbers.
proof fn lemma_adds_up_at(a: DecV, b: DecV, c: DecV, s: nat)
    requires
        a.s <= s,
        b.s <= s,
        c.s <= s,
    ensures
        adds_up(a, b, c) <==> at_scale(a, s) + at_scale(b, s) == at_scale(c, s),
        nearly_adds_up(a, b, c) <==> 2 * abs(at_scale(a, s) + at_scale(b, s) - at_scale(c, s))
            <= pow10((s - b.s) as nat),
{
    lemma_excess_at(a, b, c, s);
    lemma_pow10_positive(a.s);
    lemma_pow10_positive(b.s);
    lemma_pow10_positive(c.s);
    lemma_pow10_positive(s);
    lemma_pow10_sum(b.s, (s - b.s) as nat);
    lemma_pow10_sum(a.s, c.s);
    let (pa, pb, pc, ps) = (pow10(a.s), pow10(b.s), pow10(c.s), pow10(s));
    let w = (pa * pb) * pc;
    assert(w >= 1) by (nonlinear_arith)
        requires
            w == (pa * pb) * pc,
            pa >= 1,
            pb >= 1,
            pc >= 1,
    {
        assert(pa * pb >= 1);
    }
    let (u, f) = (excess(a, b, c), at_scale(a, s) + at_scale(b, s) - at_scale(c, s));
    assert((u == 0) <==> (f == 0)) by (nonlinear_arith)
        requires
            u * ps == f * w,
            ps >= 1,
            w >= 1,
    ;
    let (n, xb) = (pa * pc, pow10((s - b.s) as nat));
    assert(n * ps == xb * w) by (nonlinear_arith)
        requires
            n == pa * pc,
            w == (pa * pb) * pc,
            ps == pb * xb,
    ;
    assert(abs(u) * ps == abs(f) * w) by (nonlinear_arith)
        requires
            u * ps == f * w,
            ps >= 1,
            w >= 1,
    ;
    let (g, h) = (2 * abs(u), 2 * abs(f));
    let (i, j) = (abs(u), abs(f));
    assert((2 * i) * ps == (2 * j) * w) by (nonlinear_arith)
        requires
            i * ps == j * w,
    ;
    assert((g <= n) <==> (h <= xb)) by (nonlinear_arith)
        requires
            g * ps == h * w,
            n * ps == xb * w,
            ps >= 1,
            w >= 1,
    {
        if g <= n {
            assert(g * ps <= n * ps);
            if h > xb {
                assert(h * w > xb * w);
            }
        }
        if h <= xb {
            assert(h * w <= xb * w);
            if g > n {
                assert(g * ps > n * ps);
            }
        }
    }
}

/// A sum that needs no rounding is the sum.
pub proof fn lemma_exact_sum(a: DecV, b: DecV)
    requires
        exact_sum(a, b),
    ensures
        plus(a, b) matches Some(c) && c.s <= max_nat(a.s, b.s) && at_scale(c, max_nat(a.s, b.s))
            == sum_at(a, b),
{
    let s = max_nat(a.s, b.s);
    let (m, x, y) = (sum_at(a, b), pow10((s - a.s) as nat), pow10((s - b.s) as nat));
    assert(0 * x == 0 && 0 * y == 0) by (nonlinear_arith);
    assert(pow10(0) == 1);
    if a.m != 0 && b.m != 0 && !fits(m) {
        let q = choose|q: DecV| valid(q) && q.s <= s && #[trigger] at_scale(q, s) == m;
        lemma_decimal_is_kept(m, s, s, q);
    }
}

/// A difference that needs no rounding is the difference.
pub proof fn lemma_exact_difference(a: DecV, b: DecV)
    requires
        exact_difference(a, b),
    ensures
        minus(a, b) matches Some(d) && d.s <= max_nat(a.s, b.s) && at_scale(d, max_nat(a.s, b.s))
            == difference_at(a, b),
{
    let s = max_nat(a.s, b.s);
    let (m, x, y) = (difference_at(a, b), pow10((s - a.s) as nat), pow10((s - b.s) as nat));
    let n = b.m;
    assert(0 * x == 0 && 0 * y == 0 && (-n) * y == -(n * y)) by (nonlinear_arith);
    assert(pow10(0) == 1);
    if a.m != 0 && b.m != 0 && !fits(m) {
        let q = choose|q: DecV| valid(q) && q.s <= s && #[trigger] at_scale(q, s) == m;
        lemma_decimal_is_kept(m, s, s, q);
    }
}

/// A product that needs no rounding is the product.
pub proof fn lemma_exact_product(a: DecV, b: DecV)
    requires
        exact_product(a, b),
    ensures
        times(a, b) matches Some(c) && c.s <= a.s + b.s && at_scale(c, a.s + b.s) == a.m * b.m,
{
    let (s, m) = (a.s + b.s, a.m * b.m);
    let (x, y) = (a.m, b.m);
    let p = pow10(s);
    assert(0 * y == 0 && x * 0 == 0 && 0 * p == 0) by (nonlinear_arith);
    assert(pow10(0) == 1);
    if x != 0 && y != 0 && !(fits(m) && s <= MAX_SCALE) {
        let q = choose|q: DecV| valid(q) && q.s <= s && #[trigger] at_scale(q, s) == m;
        if vanishes(a, b) {
            lemma_small_products_vanish(a, b, q);
        } else if s > MAX_SCALE {
            lemma_decimal_is_kept(m, s, MAX_SCALE as nat, q);
        } else {
            lemma_decimal_is_kept(m, s, s, q);
        }
    }
}

/// A product is a decimal of 96 bits; that of numbers that are at least 0 is at least
/// 0.
pub proof fn lemma_product_is_valid(a: DecV, b: DecV)
    ensures
        times(a, b) matches Some(c) ==> valid(c),
        times(a, b) matches Some(c) ==> a.m >= 0 && b.m >= 0 ==> c.m >= 0,
{
    let (s, m) = (a.s + b.s, a.m * b.m);
    let (x, y) = (a.m, b.m);
    assert(x >= 0 && y >= 0 ==> x * y >= 0) by (nonlinear_arith);
    if times(a, b) is Some {
        let c = times(a, b)->0;
        lemma_pow10_positive((s - c.s) as nat);
        lemma_half_even(abs(m), pow10((s - c.s) as nat));
        if s > MAX_SCALE {
            lemma_rounded_to_fit(m, s, MAX_SCALE as nat);
        } else {
            lemma_rounded_to_fit(m, s, s);
        }
    }
}

/// No decimal is a product that is dropped.
proof fn lemma_small_products_vanish(a: DecV, b: DecV, q: DecV)
    requires
        vanishes(a, b),
        a.m != 0,
        b.m != 0,
        valid(q),
        q.s <= a.s + b.s,
    ensures
        at_scale(q, a.s + b.s) != a.m * b.m,
{
    let (x, y, s) = (a.m, b.m, a.s + b.s);
    let k = (s - q.s) as nat;
    let w = WORD as int;
    assert(0 < abs(x * y) < w * w) by (nonlinear_arith)
        requires
            x != 0,
            y != 0,
            abs(x) < w,
            abs(y) < w,
    {
        assert(abs(x * y) == abs(x) * abs(y));
        assert(abs(x) * abs(y) <= abs(x) * (w - 1));
        assert(abs(x) * (w - 1) <= (w - 1) * (w - 1));
    }
    lemma_pow10_sum(20, (k - 20) as nat);
    lemma_pow10_positive((k - 20) as nat);
    assert(pow10(20) == 100000000000000000000) by {
        reveal_with_fuel(pow10, 21);
    }
    let (p, z) = (pow10(k), q.m);
    let r = pow10((k - 20) as nat);
    assert(p >= 100000000000000000000) by (nonlinear_arith)
        requires
            p == 100000000000000000000 * r,
            r >= 1,
    ;
    assert(z * p == 0 || abs(z * p) >= p) by (nonlinear_arith)
        requires
            p >= 1,
    {
        if z >= 1 {
            assert(z * p >= p);
        } else if z <= -1 {
            assert(z * p <= -p);
        }
    }
}

/// A number and nothing make that number.
pub proof fn lemma_nothing_added(v: DecV)
    ensures
        adds_up(v, zero(), v),
        adds_up(zero(), v, v),
        nearly_adds_up(v, zero(), v),
        nearly_adds_up(zero(), v, v),
{
    lemma_adds_up_at(v, zero(), v, v.s);
    lemma_adds_up_at(zero(), v, v, v.s);
    lemma_pow10_positive(v.s);
    lemma_pow10_positive(0);
    let p = pow10(v.s);
    assert(0 * p == 0) by (nonlinear_arith);
}

/// The unrounded product of two numbers.
pub open spec fn product(a: DecV, b: DecV) -> DecV {
    dec(a.m * b.m, a.s + b.s)
}

/// The places that a product of two decimals can have.
pub const FINEST: u32 = 56;

/// A number in units of `10^-56`, of which every product of two decimals is a
/// multiple.
pub open spec fn finely(v: DecV) -> int {
    at_scale(v, FINEST as nat)
}

/// Sums, differences and products that need no rounding, in the finest units.
pub proof fn lemma_exact_finely(a: DecV, b: DecV)
    requires
        a.s <= MAX_SCALE,
        b.s <= MAX_SCALE,
    ensures
        exact_sum(a, b) ==> (plus(a, b) matches Some(c) && c.s <= MAX_SCALE && finely(c) == finely(a)
            + finely(b)),
        exact_difference(a, b) ==> (minus(a, b) matches Some(c) && c.s <= MAX_SCALE && finely(c)
            == finely(a) - finely(b)),
        exact_product(a, b) ==> (times(a, b) matches Some(c) && c.s <= MAX_SCALE && finely(c)
            == finely(product(a, b))),
{
    let s = max_nat(a.s, b.s);
    let f = FINEST as nat;
    lemma_at_scale_steps(a, s, f);
    lemma_at_scale_steps(b, s, f);
    let (x, y, p) = (at_scale(a, s), at_scale(b, s), pow10((f - s) as nat));
    assert((x + y) * p == x * p + y * p && (x - y) * p == x * p - y * p) by (nonlinear_arith);
    if exact_sum(a, b) {
        lemma_exact_sum(a, b);
        lemma_at_scale_steps(plus(a, b)->0, s, f);
    }
    if exact_difference(a, b) {
        lemma_exact_difference(a, b);
        lemma_at_scale_steps(minus(a, b)->0, s, f);
    }
    if exact_product(a, b) {
        lemma_exact_product(a, b);
        lemma_product_is_valid(a, b);
        lemma_at_scale_steps(times(a, b)->0, a.s + b.s, f);
    }
}

/// Two parts of a whole, each times a number, make the whole times that number.
pub proof fn lemma_parts_times(a: DecV, b: DecV, c: DecV, e: DecV)
    requires
        a.s <= MAX_SCALE,
        b.s <= MAX_SCALE,
        c.s <= MAX_SCALE,
        e.s <= MAX_SCALE,
        finely(a) + finely(b) == finely(c),
    ensures
        finely(product(a, e)) + finely(product(b, e)) == finely(product(c, e)),
{
    let t = MAX_SCALE as nat;
    let f = FINEST as nat;
    lemma_product_finely(a, e);
    lemma_product_finely(b, e);
    lemma_product_finely(c, e);
    lemma_at_scale_steps(a, t, f);
    lemma_at_scale_steps(b, t, f);
    lemma_at_scale_steps(c, t, f);
    lemma_pow10_positive((f - t) as nat);
    let (x, y, z, w) = (at_scale(a, t), at_scale(b, t), at_scale(c, t), at_scale(e, t));
    let p = pow10((f - t) as nat);
    assert(x + y == z) by (nonlinear_arith)
        requires
            x * p + y * p == z * p,
            p >= 1,
    {
        assert((x + y) * p == z * p);
    }
    assert(x * w + y * w == (x + y) * w) by (nonlinear_arith);
}

proof fn lemma_product_finely(a: DecV, b: DecV)
    requires
        a.s <= MAX_SCALE,
        b.s <= MAX_SCALE,
    ensures
        finely(product(a, b)) == at_scale(a, MAX_SCALE as nat) * at_scale(b, MAX_SCALE as nat),
{
    let (i, j) = ((MAX_SCALE - a.s) as nat, (MAX_SCALE - b.s) as nat);
    lemma_pow10_sum(i, j);
    let (x, y, p, q) = (a.m, b.m, pow10(i), pow10(j));
    assert((x * y) * (p * q) == (x * p) * (y * q)) by (nonlinear_arith);
}

/// An unrounded difference, added to what was taken away, gives the whole back.
pub proof fn lemma_difference_adds_up(a: DecV, b: DecV)
    requires
        exact_difference(a, b),
    ensures
        minus(a, b) matches Some(d) && adds_up(b, d, a),
{
    lemma_exact_difference(a, b);
    lemma_adds_up_at(b, minus(a, b)->0, a, max_nat(a.s, b.s));
}

/// A difference, added to what was taken away, gives the whole back, up to half a
/// unit of the last place of the difference.
pub proof fn lemma_difference_nearly_adds_up(a: DecV, b: DecV)
    ensures
        minus(a, b) matches Some(d) ==> nearly_adds_up(b, d, a),
{
    let s = max_nat(a.s, b.s);
    let m = difference_at(a, b);
    if minus(a, b) is Some {
        let d = minus(a, b)->0;
        lemma_pow10_positive((s - d.s) as nat);
        if exact_difference(a, b) {
            lemma_exact_difference(a, b);
        } else {
            lemma_rounded_to_fit(m, s, s);
            lemma_half_even(abs(m), pow10((s - d.s) as nat));
        }
        let (n, p) = (d.m, pow10((s - d.s) as nat));
        assert((-n) * p == -(n * p)) by (nonlinear_arith);
        lemma_adds_up_at(b, d, a, s);
    }
}

/// The order of two numbers is that of their units of a common last place.
proof fn lemma_order_at(a: DecV, b: DecV, s: nat)
    requires
        a.s <= s,
        b.s <= s,
    ensures
        le(a, b) <==> at_scale(a, s) <= at_scale(b, s),
{
    let (pa, pb, ps) = (pow10(a.s), pow10(b.s), pow10(s));
    let (xa, xb) = (pow10((s - a.s) as nat), pow10((s - b.s) as nat));
    lemma_pow10_sum(a.s, (s - a.s) as nat);
    lemma_pow10_sum(b.s, (s - b.s) as nat);
    lemma_pow10_positive(a.s);
    lemma_pow10_positive(b.s);
    lemma_pow10_positive(s);
    let (x, y) = (a.m, b.m);
    let w = pa * pb;
    assert(w >= 1) by (nonlinear_arith)
        requires
            w == pa * pb,
            pa >= 1,
            pb >= 1,
    ;
    assert((x * pb) * ps == (x * xa) * w) by (nonlinear_arith)
        requires
            ps == pa * xa,
            w == pa * pb,
    ;
    assert((y * pa) * ps == (y * xb) * w) by (nonlinear_arith)
        requires
            ps == pb * xb,
            w == pa * pb,
    ;
    let (u, v, f, g) = (x * pb, y * pa, x * xa, y * xb);
    assert((u <= v) <==> (f <= g)) by (nonlinear_arith)
        requires
            u * ps == f * w,
            v * ps == g * w,
            ps >= 1,
            w >= 1,
    {
        if u <= v {
            assert(u * ps <= v * ps);
            if f > g {
                assert(f * w > g * w);
            }
        }
        if f <= g {
            assert(f * w <= g * w);
            if u > v {
                assert(u * ps > v * ps);
            }
        }
    }
}

/// The difference of two numbers that are at least 0 is in range: rounded to the
/// places of the larger one, it has at most the digits of that one.
pub proof fn lemma_difference_in_range(a: DecV, b: DecV)
    requires
        valid(a),
        valid(b),
        a.m >= 0,
        b.m >= 0,
    ensures
        minus(a, b) matches Some(d) && valid(d),
{
    let s = max_nat(a.s, b.s);
    let m = difference_at(a, b);
    if a.m != 0 && b.m != 0 && !fits(m) {
        let x = if m >= 0 {
            a
        } else {
            b
        };
        lemma_at_scale_sign(a, s);
        lemma_at_scale_sign(b, s);
        lemma_shortened_in_order(m, x, s, x.s);
        lemma_rounded_at_least(m, s, x.s, s);
        lemma_rounded_to_fit(m, s, s);
    }
}

proof fn lemma_at_scale_sign(v: DecV, s: nat)
    requires
        v.m >= 0,
    ensures
        at_scale(v, s) >= 0,
        v.m > 0 ==> at_scale(v, s) > 0,
{
    lemma_pow10_positive((s - v.s) as nat);
    let (m, p) = (v.m, pow10((s - v.s) as nat));
    assert(m * p >= 0 && (m > 0 ==> m * p > 0)) by (nonlinear_arith)
        requires
            m >= 0,
            p >= 1,
    ;
}

/// A number that is no larger than `x` is, rounded, no larger than `x`.
proof fn lemma_shortened_in_order(m: int, x: DecV, s: nat, t: nat)
    requires
        x.s <= t <= s,
        x.m >= 0,
        abs(m) <= at_scale(x, s),
    ensures
        abs(shortened(m, s, t)) <= at_scale(x, t),
        m >= 0 ==> shortened(m, s, t) >= 0,
        t == x.s ==> at_scale(x, t) == x.m,
{
    let p = pow10((s - t) as nat);
    lemma_pow10_positive((s - t) as nat);
    lemma_at_scale_steps(x, t, s);
    lemma_half_even_in_order(abs(m), at_scale(x, s), p);
    lemma_half_even_exact(at_scale(x, t), p);
    lemma_half_even(abs(m), p);
    assert(pow10(0) == 1);
}

/// A part taken off a whole leaves a number between 0 and the whole, and more than
/// 0 where the part is less than the whole, also where the rest is rounded.
pub proof fn lemma_rest_of_a_whole(a: DecV, b: DecV)
    requires
        valid(a),
        valid(b),
        b.m >= 0,
        le(b, a),
    ensures
        minus(a, b) matches Some(d) && {
            &&& valid(d)
            &&& d.m >= 0
            &&& le(d, a)
            &&& lt(b, a) ==> d.m > 0
        },
{
    let s = max_nat(a.s, b.s);
    let m = difference_at(a, b);
    lemma_order_at(b, a, s);
    lemma_order_at(a, b, s);
    lemma_lt_le(b, a);
    lemma_at_scale_sign(b, s);
    lemma_pow10_positive((s - a.s) as nat);
    let (x, p) = (a.m, pow10((s - a.s) as nat));
    assert(x >= 0 && (x == 0 ==> x * p == 0)) by (nonlinear_arith)
        requires
            x * p >= 0,
            p >= 1,
    ;
    lemma_difference_in_range(a, b);
    let d = minus(a, b)->0;
    if a.m == 0 {
        assert(b.m == 0);
        assert(d == dec(0, b.s));
        let (q, r) = (pow10((s - b.s) as nat), pow10(a.s));
        assert(0 * q == 0 && 0 * r == 0) by (nonlinear_arith);
        assert(le(d, a));
        assert(!lt(b, a));
    } else if b.m == 0 {
        assert(d == a);
        lemma_lt_le(a, a);
    } else if fits(m) {
        assert(d == dec(m, s));
        lemma_order_at(d, a, s);
        lemma_own_scale(d);
        assert(le(d, a));
    } else {
        assert(abs(m) <= at_scale(a, s));
        lemma_shortened_in_order(m, a, s, a.s);
        lemma_rounded_at_least(m, s, a.s, s);
        lemma_rounded_to_fit(m, s, s);
        lemma_shortened_in_order(m, a, s, d.s);
        lemma_order_at(d, a, d.s);
        lemma_own_scale(d);
        assert(le(d, a));
        if d.s < s {
            lemma_shortened_is_not_zero(m, s, d.s);
        }
    }
}

/// A number that needs more than 96 bits with one place more is not rounded to 0.
proof fn lemma_shortened_is_not_zero(m: int, s: nat, t: nat)
    requires
        t < s,
        m >= 0,
        !fits(shortened(m, s, t + 1)),
    ensures
        shortened(m, s, t) > 0,
{
    let (k, j) = ((s - t) as nat, (s - t - 1) as nat);
    let (p, r) = (pow10(k), pow10(j));
    lemma_pow10_positive(j);
    lemma_half_even(m, p);
    lemma_half_even(m, r);
    let (u, v) = (half_even(m, p), half_even(m, r));
    assert(u > 0) by (nonlinear_arith)
        requires
            p == 10 * r,
            r >= 1,
            v > 100,
            2 * (v * r) <= 2 * m + r,
            2 * (u * p) >= 2 * m - p,
            u >= 0,
    {
        assert(v * r >= 101 * r);
        if u == 0 {
            assert(u * p == 0);
        }
    }
}

/// What divides evenly is divided exactly.
proof fn lemma_even_quotient(a: DecV, b: DecV)
    requires
        a.m != 0,
        b.m != 0,
        divides_evenly(a, b),
    ensures
        over(a, b) matches Some(r) && is_quotient(r, a, b),
{
    let q = abs(a.m) / abs(b.m);
    let m = if (a.m < 0) != (b.m < 0) {
        -q
    } else {
        q
    };
    let (x, y) = (a.m, b.m);
    vstd::arithmetic::div_mod::lemma_fundamental_div_mod(abs(x), abs(y));
    assert(abs(x) == abs(y) * q);
    assert(m * y == x) by (nonlinear_arith)
        requires
            y != 0,
            abs(x) == abs(y) * q,
            m == (if (x < 0) != (y < 0) {
                -q
            } else {
                q
            }),
    {
    }
    let k = (a.s - b.s) as nat;
    lemma_pow10_sum(b.s, k);
    let (pb, pk) = (pow10(b.s), pow10(k));
    assert(x * (pb * pk) == (x * pb) * pk) by (nonlinear_arith);
}

/// What the shortest quotient says is the quotient.
proof fn lemma_shortest_is_quotient(a: DecV, b: DecV, s: nat)
    requires
        b.m != 0,
    ensures
        shortest_quotient(a, b, s) matches Some(q) ==> valid(q) && is_quotient(q, a, b),
    decreases MAX_SCALE + 1 - s,
{
    reveal_with_fuel(shortest_quotient, 1);
    let n = (a.m * pow10(b.s)) * pow10(s);
    let d = b.m * pow10(a.s);
    lemma_pow10_positive(a.s);
    let (y, pa) = (b.m, pow10(a.s));
    assert(y * pa != 0) by (nonlinear_arith)
        requires
            y != 0,
            pa >= 1,
    ;
    if s <= MAX_SCALE {
        if n % d != 0 {
            lemma_shortest_is_quotient(a, b, s + 1);
        } else {
            vstd::arithmetic::div_mod::lemma_fundamental_div_mod(n, d);
            let m = n / d;
            assert((m * y) * pa == (y * pa) * m) by (nonlinear_arith);
        }
    }
}

/// Where some decimal is the quotient, there is a shortest one, with no more
/// places.
proof fn lemma_shortest_is_there(a: DecV, b: DecV, q: DecV, s: nat)
    requires
        b.m != 0,
        valid(q),
        is_quotient(q, a, b),
        s <= q.s,
    ensures
        shortest_quotient(a, b, s) matches Some(p) && p.s <= q.s,
    decreases MAX_SCALE + 1 - s,
{
    reveal_with_fuel(shortest_quotient, 1);
    let n = (a.m * pow10(b.s)) * pow10(s);
    let d = b.m * pow10(a.s);
    lemma_pow10_positive(a.s);
    let (y, pa, m) = (b.m, pow10(a.s), q.m);
    assert(y * pa != 0) by (nonlinear_arith)
        requires
            y != 0,
            pa >= 1,
    ;
    assert((m * y) * pa == m * (y * pa)) by (nonlinear_arith);
    if n % d != 0 {
        if s == q.s {
            vstd::arithmetic::div_mod::lemma_fundamental_div_mod(n, d);
            let (f, rest) = (n / d, n % d);
            assert(rest == 0) by (nonlinear_arith)
                requires
                    m * d == d * f + rest,
                    0 <= rest < abs(d),
                    d != 0,
            {
                assert(d * (m - f) == rest);
                if m - f >= 1 || m - f <= -1 {
                    assert(abs(d * (m - f)) >= abs(d));
                }
            }
        }
        lemma_shortest_is_there(a, b, q, s + 1);
    } else {
        vstd::arithmetic::div_mod::lemma_fundamental_div_mod(n, d);
        let k = (q.s - s) as nat;
        lemma_pow10_sum(s, k);
        lemma_pow10_positive(k);
        let (f, ps, pk, e) = (n / d, pow10(s), pow10(k), a.m * pow10(b.s));
        assert(m == f * pk) by (nonlinear_arith)
            requires
                m * d == e * (ps * pk),
                e * ps == d * f,
                d != 0,
        {
            assert(m * d == (f * pk) * d);
        }
        assert(fits(f)) by (nonlinear_arith)
            requires
                fits(m),
                m == f * pk,
                pk >= 1,
        {
        }
    }
}

/// Zeros at the end change nothing about a quotient.
proof fn lemma_zeros_keep_the_quotient(q: DecV, k: nat, a: DecV, b: DecV)
    requires
        is_quotient(q, a, b),
    ensures
        is_quotient(with_zeros(q, k), a, b),
{
    lemma_pow10_sum(q.s, k);
    let (m, y, pa, e, ps, pk) = (q.m, b.m, pow10(a.s), a.m * pow10(b.s), pow10(q.s), pow10(k));
    assert(((m * pk) * y) * pa == e * (ps * pk)) by (nonlinear_arith)
        requires
            (m * y) * pa == e * ps,
    {
        assert(((m * pk) * y) * pa == ((m * y) * pa) * pk);
        assert((e * ps) * pk == e * (ps * pk));
    }
}

/// Two quotients of the same numbers are the same number.
proof fn lemma_one_quotient(q: DecV, r: DecV, a: DecV, b: DecV)
    requires
        b.m != 0,
        is_quotient(q, a, b),
        is_quotient(r, a, b),
    ensures
        same_value(q, r),
{
    lemma_pow10_positive(a.s);
    let (x, z, y, pa, e) = (q.m, r.m, b.m, pow10(a.s), a.m * pow10(b.s));
    let (pq, pr) = (pow10(q.s), pow10(r.s));
    assert(x * pr == z * pq) by (nonlinear_arith)
        requires
            (x * y) * pa == e * pq,
            (z * y) * pa == e * pr,
            y != 0,
            pa >= 1,
    {
        assert(((x * y) * pa) * pr == ((z * y) * pa) * pq);
        assert((x * pr) * (y * pa) == (z * pq) * (y * pa));
        assert(y * pa != 0);
    }
}

/// A quotient that is a decimal number at all is not rounded: where some `q` of 96
/// bits and at most 28 places is exactly `a / b`, dividing gives a number of the
/// value of `q`.
pub proof fn law_decimal_quotients_are_exact(a: DecV, b: DecV, q: DecV)
    requires
        b.m != 0,
        valid(q),
        is_quotient(q, a, b),
    ensures
        over(a, b) matches Some(r) && is_quotient(r, a, b) && same_value(r, q),
{
    if a.m == 0 {
        let y = b.m;
        assert(0 * y == 0) by (nonlinear_arith);
        let (pa, pb) = (pow10(a.s), pow10(b.s));
        assert(0 * pa == 0 && (0 * pb) * 1 == 0) by (nonlinear_arith);
        assert(pow10(0) == 1);
    } else if divides_evenly(a, b) {
        lemma_even_quotient(a, b);
    } else {
        lemma_shortest_is_there(a, b, q, 0);
        lemma_shortest_is_quotient(a, b, 0);
        let s = shortest_quotient(a, b, 0)->0;
        lemma_zeros_keep_the_quotient(s, spare_zeros(a, b, s), a, b);
    }
    lemma_one_quotient(over(a, b)->0, q, a, b);
}

/// A quotient in its shortest form, without a zero behind the point's last digit,
/// is what dividing gives, or what it gives with one zero more.
pub proof fn law_quotients_are_short(a: DecV, b: DecV, q: DecV)
    requires
        a.m != 0,
        b.m != 0,
        !divides_evenly(a, b),
        valid(q),
        is_quotient(q, a, b),
        q.s == 0 || q.m % 10 != 0,
    ensures
        over(a, b) == Some(q) || over(a, b) == Some(with_zeros(q, 1)),
{
    lemma_shortest_is_there(a, b, q, 0);
    lemma_shortest_is_quotient(a, b, 0);
    let p = shortest_quotient(a, b, 0)->0;
    lemma_one_quotient(p, q, a, b);
    let k = (q.s - p.s) as nat;
    lemma_pow10_sum(p.s, k);
    lemma_pow10_positive(p.s);
    let (x, z, ps, pk) = (p.m, q.m, pow10(p.s), pow10(k));
    assert(x * pk == z) by (nonlinear_arith)
        requires
            x * (ps * pk) == z * ps,
            ps >= 1,
    {
        assert((x * pk) * ps == z * ps);
    }
    if k > 0 {
        let pj = pow10((k - 1) as nat);
        assert(x * (10 * pj) == 10 * (x * pj)) by (nonlinear_arith);
        assert(z % 10 == 0);
    }
    assert(pow10(0) == 1);
    assert(with_zeros(q, 0) == q);
}

/// The most places are the most: the quotient fits there, and no longer with one
/// more.
proof fn lemma_most_places(n: int, d: int, t: nat)
    requires
        n >= 0,
        d > 0,
        fits_at(n, d, 0),
    ensures
        most_places(n, d, t) <= t,
        fits_at(n, d, most_places(n, d, t)),
        most_places(n, d, t) < t ==> !fits_at(n, d, most_places(n, d, t) + 1),
    decreases t,
{
    reveal_with_fuel(most_places, 1);
    if t > 0 && !fits_at(n, d, t) {
        lemma_most_places(n, d, (t - 1) as nat);
    }
}

/// What fits with some places fits with fewer.
proof fn lemma_fits_with_fewer(n: int, d: int, s: nat, t: nat)
    requires
        n >= 0,
        d > 0,
        s <= t,
        fits_at(n, d, t),
    ensures
        fits_at(n, d, s),
{
    let k = (t - s) as nat;
    lemma_pow10_sum(s, k);
    lemma_pow10_positive(k);
    lemma_pow10_positive(s);
    let (ps, pk) = (pow10(s), pow10(k));
    assert(n * (ps * pk) >= n * ps) by (nonlinear_arith)
        requires
            n >= 0,
            ps >= 1,
            pk >= 1,
    {
        assert(ps * pk >= ps);
    }
}

/// A quotient that comes out exactly is the nearest number too.
proof fn lemma_exact_is_nearest(a: DecV, b: DecV, r: DecV)
    requires
        a.m >= 0,
        b.m > 0,
        valid(r),
        is_quotient(r, a, b),
    ensures
        fits_at(upper(a, b), lower(a, b), 0),
        r.m * pow10(quotient_places(a, b)) == half_even(
            upper(a, b) * pow10(quotient_places(a, b)),
            lower(a, b),
        ) * pow10(r.s),
{
    let (n, d) = (upper(a, b), lower(a, b));
    let (m, y, pa, pb, pr) = (r.m, b.m, pow10(a.s), pow10(b.s), pow10(r.s));
    lemma_pow10_positive(a.s);
    lemma_pow10_positive(b.s);
    lemma_pow10_positive(r.s);
    let x = a.m;
    assert(n >= 0 && d > 0) by (nonlinear_arith)
        requires
            n == x * pb,
            d == y * pa,
            x >= 0,
            y > 0,
            pa >= 1,
            pb >= 1,
    ;
    assert((m * y) * pa == m * (y * pa)) by (nonlinear_arith);
    assert(m * d == n * pr);
    let top = MAX_MANTISSA as int;
    assert(2 * (n * pr) < (2 * top + 1) * d) by (nonlinear_arith)
        requires
            m * d == n * pr,
            m <= top,
            d > 0,
    ;
    assert(fits_at(n, d, r.s));
    lemma_fits_with_fewer(n, d, 0, r.s);
    lemma_most_places_at_least(n, d, r.s, MAX_SCALE as nat);
    let t = quotient_places(a, b);
    let k = (t - r.s) as nat;
    lemma_pow10_sum(r.s, k);
    let pk = pow10(k);
    let w = m * pk;
    assert(n * (pr * pk) == w * d + 0) by (nonlinear_arith)
        requires
            m * d == n * pr,
            w == m * pk,
    {
        assert(n * (pr * pk) == (n * pr) * pk);
        assert((m * d) * pk == (m * pk) * d);
    }
    vstd::arithmetic::div_mod::lemma_fundamental_div_mod_converse(n * (pr * pk), d, w, 0);
    assert(half_even(n * pow10(t), d) == w);
    assert(m * (pr * pk) == (m * pk) * pr) by (nonlinear_arith);
}

/// What fits with `s` places is given at least as many.
proof fn lemma_most_places_at_least(n: int, d: int, s: nat, t: nat)
    requires
        n >= 0,
        d > 0,
        fits_at(n, d, s),
        s <= t,
    ensures
        most_places(n, d, t) >= s,
    decreases t,
{
    reveal_with_fuel(most_places, 1);
    if t > s && !fits_at(n, d, t) {
        lemma_most_places_at_least(n, d, s, (t - 1) as nat);
    }
}

/// A quotient has at most 28 places.
pub proof fn lemma_quotient_places(a: DecV, b: DecV)
    requires
        a.s <= MAX_SCALE,
    ensures
        over(a, b) matches Some(q) ==> q.s <= MAX_SCALE,
{
    if a.m != 0 && b.m != 0 && !divides_evenly(a, b) {
        lemma_shortest_is_quotient(a, b, 0);
        lemma_most_places_bound(upper(a, b), lower(a, b), MAX_SCALE as nat);
    }
}

proof fn lemma_most_places_bound(n: int, d: int, t: nat)
    ensures
        most_places(n, d, t) <= t,
    decreases t,
{
    reveal_with_fuel(most_places, 1);
    if t > 0 && !fits_at(n, d, t) {
        lemma_most_places_bound(n, d, (t - 1) as nat);
    }
}

/// A quotient is given exactly where it fits without places, and it is the number of
/// `quotient_places` places that is nearest to it: it is at most half a unit of the
/// last of these places away.
pub proof fn law_quotients_are_nearest(a: DecV, b: DecV)
    requires
        valid(a),
        a.m >= 0,
        b.m > 0,
    ensures
        over(a, b) is Some <==> fits_at(upper(a, b), lower(a, b), 0),
        over(a, b) matches Some(r) ==> r.m * pow10(quotient_places(a, b)) == half_even(
            upper(a, b) * pow10(quotient_places(a, b)),
            lower(a, b),
        ) * pow10(r.s),
{
    let (n, d, t) = (upper(a, b), lower(a, b), quotient_places(a, b));
    if a.m == 0 {
        let y = b.m;
        let (pa, pb) = (pow10(a.s), pow10(b.s));
        assert(0 * y == 0 && 0 * pa == 0 && 0 * pb == 0) by (nonlinear_arith);
        assert(pow10(0) == 1);
        assert(is_quotient(zero(), a, b));
        lemma_exact_is_nearest(a, b, zero());
    } else if divides_evenly(a, b) {
        lemma_even_quotient(a, b);
        let q = abs(a.m) / abs(b.m);
        let (x, y) = (a.m, b.m);
        vstd::arithmetic::div_mod::lemma_div_is_ordered_by_denominator(x, 1, y);
        assert(x / 1 == x);
        vstd::arithmetic::div_mod::lemma_div_pos_is_pos(x, y);
        lemma_exact_is_nearest(a, b, over(a, b)->0);
    } else {
        lemma_shortest_is_quotient(a, b, 0);
        match shortest_quotient(a, b, 0) {
            Some(q) => {
                let k = spare_zeros(a, b, q);
                lemma_zeros_keep_the_quotient(q, k, a, b);
                assert(pow10(0) == 1);
                assert(with_zeros(q, 0) == q);
                lemma_exact_is_nearest(a, b, over(a, b)->0);
            },
            None => {
                let m = half_even(n * pow10(t), d);
                let name = rounded_quotient(a.m, a.s, b.m, b.s);
                let r = over(a, b)->0;
                if fits_at(n, d, 0) && name is Some && (name->0).1 <= t && m % pow10((t - (name->0).1) as nat) == 0 {
                    let k = (t - r.s) as nat;
                    lemma_pow10_sum(r.s, k);
                    lemma_pow10_positive(k);
                    let (pk, ps) = (pow10(k), pow10(r.s));
                    vstd::arithmetic::div_mod::lemma_fundamental_div_mod(m, pk);
                    let f = r.m;
                    assert(f * (ps * pk) == (pk * f) * ps) by (nonlinear_arith);
                }
            },
        }
    }
}

/// Quotients by the same positive number are in the order of what was divided, also
/// where they are rounded.
pub proof fn law_quotients_keep_the_order(a: DecV, c: DecV, b: DecV)
    requires
        valid(a),
        valid(c),
        a.m >= 0,
        b.m > 0,
        lt(a, c) || a == c,
        fits_at(upper(a, b), lower(a, b), 0),
        fits_at(upper(c, b), lower(c, b), 0),
    ensures
        over(a, b) is Some,
        over(c, b) is Some,
        le(over(a, b)->0, over(c, b)->0),
{
    law_quotients_are_nearest(a, b);
    if lt(a, c) {
        let (n1, d1, t1) = (upper(a, b), lower(a, b), quotient_places(a, b));
        let (n2, d2, t2) = (upper(c, b), lower(c, b), quotient_places(c, b));
        lemma_pow10_positive(a.s);
        lemma_pow10_positive(b.s);
        lemma_pow10_positive(c.s);
        let (x, z, y) = (a.m, c.m, b.m);
        let (pa, pb, pc) = (pow10(a.s), pow10(b.s), pow10(c.s));
        assert(z > 0) by (nonlinear_arith)
            requires
                x * pc < z * pa,
                x >= 0,
                pa >= 1,
                pc >= 1,
        ;
        law_quotients_are_nearest(c, b);
        let r1 = over(a, b)->0;
        let r2 = over(c, b)->0;
        let m1 = half_even(n1 * pow10(t1), d1);
        let m2 = half_even(n2 * pow10(t2), d2);
        assert(n1 >= 0 && n2 >= 0 && d1 > 0 && d2 > 0) by (nonlinear_arith)
            requires
                n1 == x * pb,
                n2 == z * pb,
                d1 == y * pa,
                d2 == y * pc,
                x >= 0,
                z > 0,
                y > 0,
                pa >= 1,
                pb >= 1,
                pc >= 1,
        ;
        let e = pb * y;
        assert(e > 0) by (nonlinear_arith)
            requires
                e == pb * y,
                pb >= 1,
                y > 0,
        ;
        assert((x * pb) * (y * pc) == (x * pc) * (pb * y)) by (nonlinear_arith);
        assert((z * pb) * (y * pa) == (z * pa) * (pb * y)) by (nonlinear_arith);
        assert(n1 * d2 < n2 * d1) by (nonlinear_arith)
            requires
                n1 * d2 == (x * pc) * e,
                n2 * d1 == (z * pa) * e,
                x * pc < z * pa,
                e > 0,
        ;
        lemma_nearest_in_order(n1, d1, n2, d2);
        assert(le(dec(m1, t1), dec(m2, t2)));
        assert(same_value(r1, dec(m1, t1)));
        assert(same_value(r2, dec(m2, t2)));
        lemma_le_transitive(r1, dec(m1, t1), dec(m2, t2));
        lemma_le_transitive(r1, dec(m2, t2), r2);
    } else {
        lemma_lt_le(over(a, b)->0, over(a, b)->0);
    }
}

/// Of two fractions the smaller one, rounded to the most places it can have, is at
/// most the larger one, rounded to the most places that one can have.
proof fn lemma_nearest_in_order(n1: int, d1: int, n2: int, d2: int)
    requires
        n1 >= 0,
        n2 >= 0,
        d1 > 0,
        d2 > 0,
        n1 * d2 < n2 * d1,
        fits_at(n1, d1, 0),
        fits_at(n2, d2, 0),
    ensures
        ({
            let t1 = most_places(n1, d1, MAX_SCALE as nat);
            let t2 = most_places(n2, d2, MAX_SCALE as nat);
            half_even(n1 * pow10(t1), d1) * pow10(t2) <= half_even(n2 * pow10(t2), d2) * pow10(t1)
        }),
{
    let t1 = most_places(n1, d1, MAX_SCALE as nat);
    let t2 = most_places(n2, d2, MAX_SCALE as nat);
    lemma_most_places(n1, d1, MAX_SCALE as nat);
    lemma_most_places(n2, d2, MAX_SCALE as nat);
    lemma_pow10_positive(t1);
    lemma_pow10_positive(t2);
    let (p1, p2) = (pow10(t1), pow10(t2));
    let (w1, w2) = (n1 * p1, n2 * p2);
    assert(w1 >= 0 && w2 >= 0) by (nonlinear_arith)
        requires
            w1 == n1 * p1,
            w2 == n2 * p2,
            n1 >= 0,
            n2 >= 0,
            p1 >= 1,
            p2 >= 1,
    ;
    lemma_half_even(w1, d1);
    lemma_half_even(w2, d2);
    let (m1, m2) = (half_even(w1, d1), half_even(w2, d2));
    let top = MAX_MANTISSA as int;
    if t1 == t2 {
        lemma_same_grid(n1, d1, n2, d2, p1, m1, m2);
        assert(m1 * p1 <= m2 * p1) by (nonlinear_arith)
            requires
                m1 <= m2,
                p1 >= 1,
        ;
    } else if t1 > t2 {
        assert(m1 <= top) by (nonlinear_arith)
            requires
                2 * (m1 * d1) <= 2 * w1 + d1,
                2 * w1 < (2 * top + 1) * d1,
                d1 > 0,
        {
            assert(2 * (m1 * d1) < (2 * top + 2) * d1);
            if m1 >= top + 1 {
                assert(m1 * d1 >= (top + 1) * d1);
            }
        }
        assert(pow10(t2 + 1) == 10 * p2);
        assert(n2 * (10 * p2) == 10 * w2) by (nonlinear_arith)
            requires
                w2 == n2 * p2,
        ;
        assert(20 * m2 >= 2 * top - 9) by (nonlinear_arith)
            requires
                2 * (m2 * d2) >= 2 * w2 - d2,
                20 * w2 >= (2 * top + 1) * d2,
                d2 > 0,
        {
            assert((20 * m2) * d2 >= (2 * top - 9) * d2);
            if 20 * m2 < 2 * top - 9 {
                assert((20 * m2) * d2 < (2 * top - 9) * d2);
            }
        }
        assert(10 * m2 >= top);
        let k = (t1 - t2 - 1) as nat;
        lemma_pow10_sum(t2 + 1, k);
        lemma_pow10_positive(k);
        let pk = pow10(k);
        assert(m1 * p2 <= m2 * p1) by (nonlinear_arith)
            requires
                p1 == (10 * p2) * pk,
                pk >= 1,
                p2 >= 1,
                10 * m2 >= top,
                m1 <= top,
                m2 >= 0,
        {
            assert(m2 * ((10 * p2) * pk) == ((10 * m2) * p2) * pk);
            assert((10 * m2) * p2 >= m1 * p2);
            assert(((10 * m2) * p2) * pk >= (10 * m2) * p2) by {
                assert((10 * m2) * p2 >= 0);
            }
        }
    } else {
        lemma_fits_with_fewer(n2, d2, t1 + 1, t2);
        let q = pow10(t1 + 1);
        lemma_pow10_positive(t1 + 1);
        let (g1, g2) = (n1 * q, n2 * q);
        assert(g1 * d2 < g2 * d1) by (nonlinear_arith)
            requires
                g1 == n1 * q,
                g2 == n2 * q,
                n1 * d2 < n2 * d1,
                q >= 1,
        {
            assert((n1 * d2) * q < (n2 * d1) * q);
        }
        assert(g1 * d2 > g2 * d1) by (nonlinear_arith)
            requires
                2 * g1 >= (2 * top + 1) * d1,
                2 * g2 < (2 * top + 1) * d2,
                d1 > 0,
                d2 > 0,
        {
            assert((2 * g1) * d2 >= ((2 * top + 1) * d1) * d2);
            assert((2 * g2) * d1 < ((2 * top + 1) * d2) * d1);
        }
    }
}

/// Two fractions rounded to the same places keep their order.
proof fn lemma_same_grid(n1: int, d1: int, n2: int, d2: int, p: int, m1: int, m2: int)
    requires
        d1 > 0,
        d2 > 0,
        p >= 1,
        n1 * d2 < n2 * d1,
        2 * (m1 * d1) <= 2 * (n1 * p) + d1,
        2 * (m2 * d2) >= 2 * (n2 * p) - d2,
    ensures
        m1 <= m2,
{
    let (w1, w2, d) = (n1 * p, n2 * p, d1 * d2);
    assert(w1 * d2 < w2 * d1) by (nonlinear_arith)
        requires
            w1 == n1 * p,
            w2 == n2 * p,
            n1 * d2 < n2 * d1,
            p >= 1,
    {
        assert((n1 * d2) * p < (n2 * d1) * p);
    }
    assert(2 * (m1 * d) <= 2 * (w1 * d2) + d) by (nonlinear_arith)
        requires
            2 * (m1 * d1) <= 2 * w1 + d1,
            d == d1 * d2,
            d2 > 0,
    {
        assert((2 * (m1 * d1)) * d2 <= (2 * w1 + d1) * d2);
        assert((m1 * d1) * d2 == m1 * (d1 * d2));
    }
    assert(2 * (m2 * d) >= 2 * (w2 * d1) - d) by (nonlinear_arith)
        requires
            2 * (m2 * d2) >= 2 * w2 - d2,
            d == d1 * d2,
            d1 > 0,
    {
        assert((2 * (m2 * d2)) * d1 >= (2 * w2 - d2) * d1);
        assert((m2 * d2) * d1 == m2 * (d1 * d2));
    }
    assert(d > 0) by (nonlinear_arith)
        requires
            d == d1 * d2,
            d1 > 0,
            d2 > 0,
    ;
    assert(m1 < m2 + 1) by (nonlinear_arith)
        requires
            2 * (m1 * d) < 2 * (m2 * d) + 2 * d,
            d > 0,
    {
        if m1 >= m2 + 1 {
            assert(m1 * d >= (m2 + 1) * d);
        }
    }
}

} // verus!
