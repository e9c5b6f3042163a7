//! Decimal numbers in text, and whole numbers of a unit.

use crate::config::{self, Num, NumV};
use crate::decimal::{self, Dec, DecV};
use crate::text::{self, copy_range, digit_of, find_char, lowered_equals, read_number};
use vstd::prelude::*;

verus! {

/// Where the point of a numeral stands, or its end.
pub open spec fn point(s: Seq<char>) -> int {
    text::index_of(s, '.')
}

/// The digits of a numeral without its sign.
pub open spec fn unsigned(s: Seq<char>) -> Seq<char> {
    if s.len() > 0 && (s[0] == '-' || s[0] == '+') {
        s.drop_first()
    } else {
        s
    }
}

/// The digits before and behind the point.
pub open spec fn whole_digits(s: Seq<char>) -> Seq<char> {
    s.take(point(s))
}

pub open spec fn fraction_digits(s: Seq<char>) -> Seq<char> {
    if point(s) < s.len() {
        s.skip(point(s) + 1)
    } else {
        Seq::empty()
    }
}

/// Where the exponent of a numeral begins, or its end.
pub open spec fn exponent_mark(s: Seq<char>) -> int
    decreases s.len(),
{
    if s.len() == 0 || s[0] == 'e' || s[0] == 'E' {
        0
    } else {
        1 + exponent_mark(s.drop_first())
    }
}

/// The exponent of a numeral without its sign.
pub open spec fn exponent(body: Seq<char>) -> Option<int> {
    let k = exponent_mark(body);
    if k < body.len() {
        text::signed_number(body.skip(k + 1))
    } else {
        Some(0)
    }
}

/// `n` with `places` decimals, times ten to the power of `e`.
pub open spec fn shifted(n: int, places: int, e: int) -> DecV {
    if places >= e {
        DecV { m: n, s: (places - e) as nat }
    } else {
        DecV { m: n * decimal::pow10((e - places) as nat), s: 0 }
    }
}

/// The number that a text writes: an optional sign, digits with at most one
/// point before, between or behind them, and an optional exponent.
pub open spec fn numeral(s: Seq<char>) -> Option<DecV> {
    let body = unsigned(s);
    let m = body.take(exponent_mark(body));
    let digits = whole_digits(m) + fraction_digits(m);
    match exponent(body) {
        Some(e) if digits.len() > 0 && text::all_digits(digits) => {
            let n = text::number(digits);
            Some(
                shifted(
                    if s[0] == '-' {
                        -n
                    } else {
                        n
                    },
                    fraction_digits(m).len() as int,
                    e,
                ),
            )
        },
        _ => None,
    }
}

/// The whole number nearest to `n / p`, a half going up.
pub open spec fn half_up(n: int, p: int) -> int {
    (2 * n + p) / (2 * p)
}

/// The mantissa of the number with `s` places that is nearest to `d`, a half going
/// away from zero.
pub open spec fn nearest(d: DecV, s: nat) -> int {
    let q = half_up(decimal::abs(d.m), decimal::pow10((d.s - s) as nat));
    if d.m < 0 {
        -q
    } else {
        q
    }
}

/// `d` with at most `s` places, and no fewer than its size makes needful; `None`
/// where it does not even fit without places.
pub open spec fn fitted(d: DecV, s: nat) -> Option<DecV>
    decreases s,
{
    if decimal::fits(nearest(d, s)) {
        Some(decimal::dec(nearest(d, s), s))
    } else if s == 0 {
        None
    } else {
        fitted(d, (s - 1) as nat)
    }
}

/// How many of the places of `d` can be held.
pub open spec fn places_held(d: DecV) -> nat {
    if d.s > 28 {
        28
    } else {
        d.s
    }
}

/// The number that a text writes, rounded to the places that can be held; `None`
/// where the text writes none, or one that is too large.
pub open spec fn held(s: Seq<char>) -> Option<DecV> {
    match numeral(s) {
        Some(d) => fitted(d, places_held(d)),
        None => None,
    }
}

/// The value of a text: a numeral, rounded to the places that can be held and
/// infinite where it is too large, or the word for an infinity or for what is not
/// a number, in any capitalisation and with an optional sign.
pub open spec fn value(s: Seq<char>) -> Option<NumV> {
    let word = text::lowered(unsigned(s));
    let negative = s.len() > 0 && s[0] == '-';
    if word == "inf"@ || word == "infinity"@ {
        Some(NumV::Infinite { negative })
    } else if word == "nan"@ {
        Some(NumV::NotANumber)
    } else {
        match (numeral(s), held(s)) {
            (Some(_), Some(h)) => Some(NumV::Finite(h)),
            (Some(_), None) => Some(NumV::Infinite { negative }),
            _ => None,
        }
    }
}

/// Every numeral has a value, however large or long it is.
pub proof fn law_every_numeral_has_a_value(s: Seq<char>)
    requires
        numeral(s) is Some,
    ensures
        value(s) is Some,
{
}

proof fn lemma_nothing_to_round(d: DecV)
    ensures
        nearest(d, d.s) == d.m,
{
    assert(decimal::pow10(0) == 1);
    lemma_half_up_of_whole(decimal::abs(d.m));
}

proof fn lemma_half_up_of_whole(n: int)
    ensures
        half_up(n, 1) == n,
{
    assert((2 * n + 1) / 2 == n);
    assert(half_up(n, 1) == (2 * n + 1) / 2);
}

/// A number that can be held is read as it is written.
pub proof fn law_numbers_that_fit_are_not_rounded(s: Seq<char>)
    requires
        numeral(s) matches Some(d) && decimal::valid(d),
    ensures
        held(s) == numeral(s),
{
    let d = numeral(s)->0;
    lemma_nothing_to_round(d);
}

/// What is read differs from what is written by half a unit of its last place at
/// most.
pub proof fn law_reading_is_off_by_half_a_unit(s: Seq<char>)
    requires
        held(s) is Some,
    ensures
        ({
            let (d, h) = (numeral(s)->0, held(s)->0);
            let p = decimal::pow10((d.s - h.s) as nat);
            &&& decimal::valid(h)
            &&& h.s <= d.s
            &&& 2 * decimal::abs(h.m * p - d.m) <= p
        }),
{
    let d = numeral(s)->0;
    lemma_fitted(d, places_held(d));
}

proof fn lemma_fitted(d: DecV, s: nat)
    requires
        s <= 28,
        s <= d.s,
        fitted(d, s) is Some,
    ensures
        ({
            let h = fitted(d, s)->0;
            let p = decimal::pow10((d.s - h.s) as nat);
            &&& decimal::valid(h)
            &&& h.s <= d.s
            &&& 2 * decimal::abs(h.m * p - d.m) <= p
        }),
    decreases s,
{
    if decimal::fits(nearest(d, s)) {
        let p = decimal::pow10((d.s - s) as nat);
        let n = decimal::abs(d.m);
        decimal::lemma_pow10_positive((d.s - s) as nat);
        let q = half_up(n, p);
        vstd::arithmetic::div_mod::lemma_fundamental_div_mod(2 * n + p, 2 * p);
        let rest = (2 * n + p) % (2 * p);
        assert(-p <= 2 * (q * p - n) <= p) by (nonlinear_arith)
            requires
                2 * n + p == (2 * p) * q + rest,
                0 <= rest < 2 * p,
        ;
        assert((-q) * p == -(q * p)) by (nonlinear_arith);
    } else {
        lemma_fitted(d, (s - 1) as nat);
    }
}

fn find_exponent(s: &[char]) -> (r: usize)
    ensures
        r == exponent_mark(s@),
        r <= s@.len(),
{
    let mut i: usize = 0;
    proof {
        assert(s@.skip(0) =~= s@);
    }
    while i < s.len() && s[i] != 'e' && s[i] != 'E'
        invariant
            i <= s@.len(),
            exponent_mark(s@) == i + exponent_mark(s@.skip(i as int)),
        decreases s@.len() - i,
    {
        proof {
            assert(s@.skip(i as int).drop_first() =~= s@.skip(i + 1));
            assert(s@.skip(i as int)[0] == s@[i as int]);
        }
        i += 1;
    }
    proof {
        if i < s@.len() {
            assert(s@.skip(i as int)[0] == s@[i as int]);
        }
    }
    i
}

/// The largest mantissa.
pub const LARGEST: u128 = 79_228_162_514_264_337_593_543_950_335;

fn times_ten(n: u128, k: u128) -> (r: Option<u128>)
    requires
        n <= LARGEST,
    ensures
        match r {
            Some(v) => v == n * decimal::pow10(k as nat) && v <= LARGEST,
            None => n * decimal::pow10(k as nat) > LARGEST,
        },
{
    let mut v: u128 = n;
    let mut i: u128 = 0;
    if n == 0 {
        proof {
            let p = decimal::pow10(k as nat);
            assert(0 * p == 0) by (nonlinear_arith);
        }
        return Some(0);
    }
    proof {
        assert(decimal::pow10(0) == 1);
        assert(n * 1 == n);
    }
    while i < k
        invariant
            i <= k,
            n <= LARGEST,
            v == n * decimal::pow10(i as nat),
            v <= LARGEST,
        decreases k - i,
    {
        proof {
            let p = decimal::pow10(i as nat);
            assert(decimal::pow10((i + 1) as nat) == 10 * p);
            assert(n * (10 * p) == (n * p) * 10) by (nonlinear_arith);
        }
        v = v * 10;
        i += 1;
        if v > LARGEST {
            proof {
                decimal::lemma_pow10_sum(i as nat, (k - i) as nat);
                decimal::lemma_pow10_positive((k - i) as nat);
                decimal::lemma_pow10_positive(i as nat);
                let p = decimal::pow10(i as nat);
                let q = decimal::pow10((k - i) as nat);
                assert(n * (p * q) >= n * p) by (nonlinear_arith)
                    requires
                        n >= 0,
                        p >= 0,
                        q >= 1,
                ;
            }
            return None;
        }
    }
    Some(v)
}

/// The digits before a place write the number of whole units there, and those
/// behind it write less than one.
proof fn lemma_number_split(s: Seq<char>, c: int)
    requires
        text::all_digits(s),
        0 <= c <= s.len(),
    ensures
        text::number(s) == text::number(s.take(c)) * decimal::pow10((s.len() - c) as nat)
            + text::number(s.skip(c)),
        0 <= text::number(s.skip(c)) < decimal::pow10((s.len() - c) as nat),
        text::number(s.take(c)) >= 0,
    decreases s.len() - c,
{
    text::lemma_number_prefix(s, c);
    if c == s.len() {
        assert(s.take(c) =~= s);
        assert(s.skip(c) =~= Seq::empty());
        assert(decimal::pow10(0) == 1);
    } else {
        let t = s.drop_last();
        lemma_number_split(t, c);
        assert(t.take(c) =~= s.take(c));
        assert(s.skip(c).drop_last() =~= t.skip(c));
        assert(s.skip(c).last() == s.last());
        assert(text::is_digit(s[s.len() - 1]));
        let (h, p) = (text::number(s.take(c)), decimal::pow10((t.len() - c) as nat));
        assert(decimal::pow10((s.len() - c) as nat) == 10 * p);
        assert(h * (10 * p) == 10 * (h * p)) by (nonlinear_arith);
    }
}

/// Rounding looks at the first digit that is left out.
proof fn lemma_rounding(s: Seq<char>, c: int)
    requires
        text::all_digits(s),
        0 <= c < s.len(),
    ensures
        half_up(text::number(s), decimal::pow10((s.len() - c) as nat)) == text::number(s.take(c)) + (
        if text::digit_value(s[c]) >= 5 {
            1int
        } else {
            0int
        }),
        text::number(s.take(c)) >= 0,
{
    let t = s.skip(c);
    let k = (s.len() - c) as nat;
    lemma_number_split(s, c);
    assert forall|i: int| 0 <= i < t.len() implies text::is_digit(#[trigger] t[i]) by {
        assert(t[i] == s[c + i]);
    }
    lemma_number_split(t, 1);
    assert(t.take(1).drop_last() =~= Seq::empty());
    assert(t.take(1).last() == s[c]);
    assert(text::number(t.take(1).drop_last()) == 0);
    let d = text::digit_value(s[c]);
    assert(text::number(t.take(1)) == d);
    assert(text::is_digit(s[c]));
    let (h, q, p) = (text::number(s.take(c)), decimal::pow10((k - 1) as nat), decimal::pow10(k));
    assert(p == 10 * q);
    decimal::lemma_pow10_positive((k - 1) as nat);
    let r = text::number(t.skip(1));
    let n = text::number(s);
    let b = 2 * (d * q) + 2 * r + p;
    assert(2 * n + p == b + h * (2 * p)) by (nonlinear_arith)
        requires
            n == h * p + (d * q + r),
            b == 2 * (d * q) + 2 * r + p,
    ;
    if d >= 5 {
        assert(5 * q <= d * q <= 9 * q) by (nonlinear_arith)
            requires
                5 <= d <= 9,
                q >= 1,
        ;
        assert(b / (2 * p) == 1) by (nonlinear_arith)
            requires
                2 * p <= b < 4 * p,
                p >= 1,
        ;
    } else {
        assert(0 <= d * q <= 4 * q) by (nonlinear_arith)
            requires
                0 <= d <= 4,
                q >= 1,
        ;
        assert(b / (2 * p) == 0) by (nonlinear_arith)
            requires
                0 <= b < 2 * p,
        ;
    }
    vstd::arithmetic::div_mod::lemma_hoist_over_denominator(b, h, (2 * p) as nat);
}

/// A number whose digits all stand behind the place that is rounded to, and then
/// some, is nearest to none of its units.
proof fn lemma_rounds_to_nothing(s: Seq<char>, k: nat)
    requires
        text::all_digits(s),
        k > s.len(),
    ensures
        half_up(text::number(s), decimal::pow10(k)) == 0,
{
    lemma_number_split(s, 0);
    assert(s.skip(0) =~= s);
    assert(s.take(0) =~= Seq::empty());
    let n = text::number(s);
    let z = decimal::pow10(s.len());
    assert(0 * z == 0) by (nonlinear_arith);
    assert(n < z);
    let j = (k - s.len()) as nat;
    decimal::lemma_pow10_sum(s.len(), j);
    let (p, w) = (decimal::pow10(k), decimal::pow10(j));
    decimal::lemma_pow10_positive((j - 1) as nat);
    assert(w >= 10);
    assert(0 <= 2 * n + p < 2 * p) by (nonlinear_arith)
        requires
            0 <= n < z,
            p == z * w,
            w >= 10,
    ;
    assert((2 * n + p) / (2 * p) == 0) by (nonlinear_arith)
        requires
            0 <= 2 * n + p < 2 * p,
    ;
}

/// The number that digits write, in units of its last digit but `drop`, rounded.
fn round_digits(digits: &[char], drop: u128) -> (r: Option<u128>)
    requires
        digits@.len() > 0,
        text::all_digits(digits@),
    ensures
        match r {
            Some(q) => q == half_up(text::number(digits@), decimal::pow10(drop as nat)) && q
                <= LARGEST,
            None => half_up(text::number(digits@), decimal::pow10(drop as nat)) > LARGEST,
        },
{
    if drop > digits.len() as u128 {
        proof {
            lemma_rounds_to_nothing(digits@, drop as nat);
        }
        return Some(0);
    }
    let cut: usize = digits.len() - drop as usize;
    let head = copy_range(digits, 0, cut);
    assert(head@ =~= digits@.take(cut as int));
    proof {
        text::lemma_number_prefix(digits@, cut as int);
        if cut < digits@.len() {
            lemma_rounding(digits@, cut as int);
        } else {
            assert(head@ =~= digits@);
            assert(decimal::pow10(0) == 1);
            lemma_half_up_of_whole(text::number(digits@));
        }
        assert forall|i: int| 0 <= i < head@.len() implies text::is_digit(#[trigger] head@[i]) by {
            assert(head@[i] == digits@[i]);
        }
    }
    let n: u128 = if cut == 0 {
        0
    } else {
        match read_number(head.as_slice(), LARGEST) {
            Some(n) => n,
            None => {
                return None;
            },
        }
    };
    if cut == digits.len() {
        return Some(n);
    }
    let up = match digit_of(digits[cut]) {
        Some(d) => d >= 5,
        None => false,
    };
    assert(text::is_digit(digits@[cut as int]));
    if !up {
        Some(n)
    } else if n < LARGEST {
        Some(n + 1)
    } else {
        None
    }
}

/// Whether all characters are digits.
fn are_digits(s: &[char]) -> (r: bool)
    ensures
        r == text::all_digits(s@),
{
    let mut i: usize = 0;
    while i < s.len()
        invariant
            i <= s@.len(),
            forall|k: int| 0 <= k < i ==> text::is_digit(#[trigger] s@[k]),
        decreases s@.len() - i,
    {
        if digit_of(s[i]).is_none() {
            assert(!text::is_digit(s@[i as int]));
            return false;
        }
        i += 1;
    }
    true
}

/// An exponent beyond which a numeral is too large, or too small to be held.
pub const FAR: i128 = 0x40_0000_0000_0000_0000;

/// An exponent, or the nearest one that is not beyond `FAR`.
pub open spec fn near(e: int) -> int {
    if e > FAR {
        FAR as int
    } else if e < -FAR {
        -FAR
    } else {
        e
    }
}

fn read_exponent(s: &[char]) -> (r: Option<i128>)
    ensures
        match text::signed_number(s@) {
            Some(e) => r matches Some(x) && x == near(e),
            None => r is None,
        },
{
    let negative = s.len() > 0 && s[0] == '-';
    let from: usize = if s.len() > 0 && (s[0] == '-' || s[0] == '+') {
        1
    } else {
        0
    };
    let body = copy_range(s, from, s.len());
    assert(from == 1 ==> body@ =~= s@.drop_first());
    assert(from == 0 ==> body@ =~= s@);
    if body.len() == 0 || !are_digits(body.as_slice()) {
        return None;
    }
    proof {
        text::lemma_number_prefix(body@, 0);
        assert(body@.take(0) =~= Seq::empty());
    }
    let e: i128 = match read_number(body.as_slice(), FAR as u128) {
        Some(n) => n as i128,
        None => FAR,
    };
    if negative {
        Some(-e)
    } else {
        Some(e)
    }
}

/// An exponent that is far off makes no difference to one that is farther off.
proof fn lemma_far(digits: Seq<char>, negative: bool, places: int, e: int)
    requires
        digits.len() > 0,
        text::all_digits(digits),
        0 <= places <= digits.len() <= usize::MAX,
    ensures
        ({
            let n = text::number(digits);
            let d = shifted(if negative { -n } else { n }, places, e);
            let x = shifted(if negative { -n } else { n }, places, near(e));
            fitted(d, places_held(d)) == fitted(x, places_held(x))
        }),
{
    let n = text::number(digits);
    text::lemma_number_prefix(digits, 0);
    assert(digits.take(0) =~= Seq::empty());
    if e > FAR {
        lemma_far_up(n, negative, (e - places) as nat);
        lemma_far_up(n, negative, (FAR - places) as nat);
    } else if e < -FAR {
        lemma_far_down(digits, negative, (places - e) as nat);
        lemma_far_down(digits, negative, (places + FAR) as nat);
    }
}

proof fn lemma_far_up(n: int, negative: bool, k: nat)
    requires
        n >= 0,
        k >= 29,
    ensures
        ({
            let d = shifted(if negative { -n } else { n }, 0, k as int);
            &&& places_held(d) == 0
            &&& d.s == 0
            &&& fitted(d, 0) == if n == 0 {
                Some(decimal::zero())
            } else {
                None
            }
        }),
{
    let d = shifted(if negative { -n } else { n }, 0, k as int);
    decimal::lemma_pow10_sum(29, (k - 29) as nat);
    decimal::lemma_pow10_positive((k - 29) as nat);
    let (p, q) = (decimal::pow10(k), decimal::pow10((k - 29) as nat));
    assert(decimal::pow10(29) == 100_000_000_000_000_000_000_000_000_000) by {
        reveal_with_fuel(decimal::pow10, 30);
    }
    assert(p >= 100_000_000_000_000_000_000_000_000_000) by (nonlinear_arith)
        requires
            p == 100_000_000_000_000_000_000_000_000_000 * q,
            q >= 1,
    ;
    assert(n == 0 ==> n * p == 0) by (nonlinear_arith);
    assert(n > 0 ==> n * p >= p) by (nonlinear_arith)
        requires
            p >= 1,
    ;
    assert((-n) * p == -(n * p)) by (nonlinear_arith);
    lemma_nothing_to_round(d);
}

proof fn lemma_far_down(digits: Seq<char>, negative: bool, k: nat)
    requires
        digits.len() > 0,
        text::all_digits(digits),
        k > digits.len() + 28,
    ensures
        ({
            let n = text::number(digits);
            let d = shifted(if negative { -n } else { n }, k as int, 0);
            fitted(d, places_held(d)) == Some(decimal::dec(0, 28))
        }),
{
    lemma_rounds_to_nothing(digits, (k - 28) as nat);
    text::lemma_number_prefix(digits, 0);
    assert(digits.take(0) =~= Seq::empty());
}

/// Reads a numeral, rounded to what 96 bits and 28 places can hold; the inner
/// `None` is for one that is too large for them.
fn read_numeral(s: &[char]) -> (r: Option<Option<Dec>>)
    ensures
        match r {
            Some(h) => numeral(s@) is Some && decimal::opt(h) == held(s@),
            None => numeral(s@) is None,
        },
{
    let negative = s.len() > 0 && s[0] == '-';
    let from: usize = if s.len() > 0 && (s[0] == '-' || s[0] == '+') {
        1
    } else {
        0
    };
    let body = copy_range(s, from, s.len());
    assert(body@ =~= unsigned(s@));
    let mark: usize = find_exponent(body.as_slice());
    let e: i128 = if mark < body.len() {
        let tail = copy_range(body.as_slice(), mark + 1, body.len());
        assert(tail@ =~= body@.skip(mark + 1));
        match read_exponent(tail.as_slice()) {
            Some(e) => e,
            None => {
                return None;
            },
        }
    } else {
        0
    };
    assert(exponent(body@) matches Some(x) && e == near(x));
    let m = copy_range(body.as_slice(), 0, mark);
    assert(m@ =~= body@.take(mark as int));
    let (digits, places) = split_digits(m.as_slice());
    if digits.len() == 0 || !are_digits(digits.as_slice()) {
        return None;
    }
    proof {
        lemma_far(digits@, negative, places as int, exponent(body@)->0);
    }
    let scale: i128 = places as i128 - e;
    Some(fit(digits.as_slice(), negative, scale))
}

/// The digits before and behind the point, and how many stand behind it.
fn split_digits(m: &[char]) -> (r: (Vec<char>, usize))
    ensures
        r.0@ == whole_digits(m@) + fraction_digits(m@),
        r.1 == fraction_digits(m@).len(),
        r.1 <= r.0@.len(),
{
    let at: usize = find_char(m, '.');
    let mut digits = copy_range(m, 0, at);
    assert(digits@ =~= whole_digits(m@));
    let mut places: usize = 0;
    if at < m.len() {
        let mut tail = copy_range(m, at + 1, m.len());
        assert(tail@ =~= fraction_digits(m@));
        places = tail.len();
        let ghost head = digits@;
        let ghost t = tail@;
        digits.append(&mut tail);
        assert(digits@ =~= head + t);
    } else {
        assert(digits@ =~= whole_digits(m@) + fraction_digits(m@));
    }
    (digits, places)
}

/// Reads a number, rounded to what 96 bits and 28 places can hold.
pub fn read_value(s: &[char]) -> (r: Option<Num>)
    ensures
        config::opt_num(r) == value(s@),
{
    let negative = s.len() > 0 && s[0] == '-';
    let from: usize = if s.len() > 0 && (s[0] == '-' || s[0] == '+') {
        1
    } else {
        0
    };
    let body = copy_range(s, from, s.len());
    assert(body@ =~= unsigned(s@));
    if lowered_equals(body.as_slice(), "inf") || lowered_equals(body.as_slice(), "infinity") {
        return Some(Num::Infinite { negative });
    }
    if lowered_equals(body.as_slice(), "nan") {
        return Some(Num::NotANumber);
    }
    match read_numeral(s) {
        Some(Some(d)) => Some(Num::Finite(d)),
        Some(None) => Some(Num::Infinite { negative }),
        None => None,
    }
}

/// The number of the digits, with `scale` places.
pub open spec fn placed(n: int, negative: bool, scale: int) -> DecV {
    shifted(
        if negative {
            -n
        } else {
            n
        },
        scale,
        0,
    )
}

fn signed(q: u128, negative: bool) -> (r: i128)
    requires
        q <= LARGEST,
    ensures
        r == if negative {
            -q
        } else {
            q as int
        },
{
    if negative {
        -(q as i128)
    } else {
        q as i128
    }
}

/// The number of the digits, with `scale` places, as far as it can be held.
fn fit(digits: &[char], negative: bool, scale: i128) -> (r: Option<Dec>)
    requires
        digits@.len() > 0,
        text::all_digits(digits@),
        -0x1_0000_0000_0000_0000_0000 <= scale <= 0x1_0000_0000_0000_0000_0000,
    ensures
        ({
            let d = placed(text::number(digits@), negative, scale as int);
            decimal::opt(r) == fitted(d, places_held(d))
        }),
{
    let ghost n = text::number(digits@);
    let ghost d = placed(n, negative, scale as int);
    proof {
        text::lemma_number_prefix(digits@, 0);
        assert(digits@.take(0) =~= Seq::empty());
        assert(decimal::pow10(0) == 1);
    }
    if scale < 0 {
        let k: u128 = (-scale) as u128;
        proof {
            let p = decimal::pow10(k as nat);
            assert((-n) * p == -(n * p)) by (nonlinear_arith);
            decimal::lemma_pow10_positive(k as nat);
            assert(n * p >= n) by (nonlinear_arith)
                requires
                    n >= 0,
                    p >= 1,
            ;
            lemma_nothing_to_round(d);
        }
        let n: u128 = match read_number(digits, LARGEST) {
            Some(n) => n,
            None => {
                return None;
            },
        };
        return match times_ten(n, k) {
            None => None,
            Some(v) => Dec::from_parts(signed(v, negative), 0),
        };
    }
    let mut s: u32 = if scale > 28 {
        28
    } else {
        scale as u32
    };
    loop
        invariant
            digits@.len() > 0,
            text::all_digits(digits@),
            n == text::number(digits@),
            n >= 0,
            0 <= scale <= 0x1_0000_0000_0000_0000_0000,
            d == placed(n, negative, scale as int),
            s <= 28,
            s <= scale,
            fitted(d, places_held(d)) == fitted(d, s as nat),
        decreases s,
    {
        let q = round_digits(digits, (scale - s as i128) as u128);
        proof {
            let p = decimal::pow10((d.s - s) as nat);
            decimal::lemma_pow10_positive((d.s - s) as nat);
            assert(n == 0 ==> half_up(n, p) == 0) by {
                assert(n == 0 ==> (2 * n + p) / (2 * p) == 0) by (nonlinear_arith)
                    requires
                        p >= 1,
                ;
            }
            assert((2 * n + p) / (2 * p) >= 0) by (nonlinear_arith)
                requires
                    n >= 0,
                    p >= 1,
            ;
        }
        match q {
            Some(q) => {
                return Dec::from_parts(signed(q, negative), s);
            },
            None => {},
        }
        if s == 0 {
            return None;
        }
        s -= 1;
    }
}

/// How many units of `1/k` a number is, rounded to the nearest whole one, halves
/// up; none where it is not positive.
pub open spec fn units(d: DecV, k: int) -> int {
    let p = decimal::pow10(d.s);
    if d.m <= 0 {
        0
    } else {
        (2 * d.m * k + p) / (2 * p)
    }
}

/// The power of ten by which a number's mantissa is divided.
pub fn power_of_ten(n: u32) -> (r: u128)
    requires
        n <= 28,
    ensures
        r == decimal::pow10(n as nat),
        1 <= r <= 10_000_000_000_000_000_000_000_000_000,
{
    let mut d: u128 = 1;
    let mut i: u32 = 0;
    proof {
        assert(decimal::pow10(0) == 1);
    }
    while i < n
        invariant
            i <= n <= 28,
            d == decimal::pow10(i as nat),
        decreases n - i,
    {
        proof {
            lemma_pow10_bound((i + 1) as nat);
            assert(decimal::pow10((i + 1) as nat) == 10 * decimal::pow10(i as nat));
        }
        d = d * 10;
        i += 1;
    }
    proof {
        lemma_pow10_bound(n as nat);
    }
    d
}

proof fn lemma_pow10_bound(n: nat)
    requires
        n <= 28,
    ensures
        1 <= decimal::pow10(n) <= 10_000_000_000_000_000_000_000_000_000,
    decreases 28 - n,
{
    decimal::lemma_pow10_positive(n);
    if n < 28 {
        lemma_pow10_bound(n + 1);
    } else {
        reveal_with_fuel(decimal::pow10, 30);
    }
}

/// How many units of `1/k` a number is.
pub fn to_units(d: Dec, k: u64) -> (r: u128)
    requires
        k <= 100_000_000,
    ensures
        r == units(d@, k as int),
{
    let m: i128 = d.mantissa();
    let s: u32 = d.scale();
    if m <= 0 {
        return 0;
    }
    let p: u128 = power_of_ten(s);
    proof {
        assert(0 <= 2 * m * k <= 2 * m * 100_000_000) by (nonlinear_arith)
            requires
                m >= 0,
                0 <= k <= 100_000_000,
        ;
    }
    (2 * (m as u128) * k as u128 + p) / (2 * p)
}

/// How many units of `1/k` a number is, where a positive number is never none: what
/// is smaller than a unit counts as one.
pub open spec fn some_units(d: DecV, k: int) -> int {
    if d.m > 0 && units(d, k) == 0 {
        1
    } else {
        units(d, k)
    }
}

/// The finest units that are counted in: 1e-15.
pub const FINEST: u128 = 1_000_000_000_000_000;

/// How many units of 1e-15 a number is, a positive one at least one, and none more
/// than `limit`.
pub fn to_fine_units(d: Dec, limit: u128) -> (r: u128)
    requires
        0 < limit,
    ensures
        r == if some_units(d@, FINEST as int) > limit {
            limit as int
        } else {
            some_units(d@, FINEST as int)
        },
{
    let m: i128 = d.mantissa();
    let s: u32 = d.scale();
    if m <= 0 {
        return 0;
    }
    let ghost p = decimal::pow10(s as nat);
    proof {
        decimal::lemma_pow10_positive(s as nat);
        reveal_with_fuel(decimal::pow10, 16);
        assert(decimal::pow10(15) == FINEST);
    }
    if s <= 15 {
        let q: u128 = power_of_ten(15 - s);
        proof {
            decimal::lemma_pow10_sum(s as nat, (15 - s) as nat);
            lemma_whole_units(m as int, p, q as int);
            vstd::arithmetic::div_mod::lemma_fundamental_div_mod(limit as int, q as int);
            let (f, rest) = (limit as int / q as int, limit as int % q as int);
            assert(m > f ==> m * q > limit) by (nonlinear_arith)
                requires
                    limit == q * f + rest,
                    0 <= rest < q,
            {
                if m > f {
                    assert(m * q >= (f + 1) * q);
                }
            }
            assert(m <= f ==> m * q <= limit) by (nonlinear_arith)
                requires
                    limit == q * f + rest,
                    0 <= rest < q,
            ;
            assert(m * q >= 1) by (nonlinear_arith)
                requires
                    m >= 1,
                    q >= 1,
            ;
        }
        if m as u128 > limit / q {
            limit
        } else {
            m as u128 * q
        }
    } else {
        let q: u128 = power_of_ten(s - 15);
        proof {
            decimal::lemma_pow10_sum(15, (s - 15) as nat);
            lemma_parts_of_units(m as int, FINEST as int, q as int);
        }
        let n: u128 = (2 * (m as u128) + q) / (2 * q);
        if n == 0 {
            1
        } else if n > limit {
            limit
        } else {
            n
        }
    }
}

/// Where a unit is finer than the last place, there is nothing to round.
proof fn lemma_whole_units(m: int, p: int, q: int)
    requires
        p >= 1,
        q >= 1,
    ensures
        (2 * m * (p * q) + p) / (2 * p) == m * q,
{
    assert(2 * m * (p * q) + p == (m * q) * (2 * p) + p) by (nonlinear_arith);
    vstd::arithmetic::div_mod::lemma_fundamental_div_mod_converse(
        2 * m * (p * q) + p,
        2 * p,
        m * q,
        p,
    );
}

/// Where a unit is coarser than the last place, the unit itself can be left out.
proof fn lemma_parts_of_units(m: int, k: int, q: int)
    requires
        m >= 0,
        k >= 1,
        q >= 1,
    ensures
        (2 * m * k + k * q) / (2 * (k * q)) == (2 * m + q) / (2 * q),
{
    let n = 2 * m + q;
    assert(2 * m * k + k * q == k * n) by (nonlinear_arith)
        requires
            n == 2 * m + q,
    ;
    assert(2 * (k * q) == k * (2 * q)) by (nonlinear_arith);
    vstd::arithmetic::div_mod::lemma_div_multiples_vanish_quotient(k, n, 2 * q);
}

/// A number has units if and only if it is positive.
pub proof fn law_only_positive_numbers_have_units(d: DecV, k: int)
    requires
        k >= 0,
    ensures
        some_units(d, k) > 0 <==> d.m > 0,
        some_units(d, k) >= 0,
{
    decimal::lemma_pow10_positive(d.s);
    let p = decimal::pow10(d.s);
    assert(d.m > 0 ==> (2 * d.m * k + p) / (2 * p) >= 0) by (nonlinear_arith)
        requires
            k >= 0,
            p >= 1,
    ;
}

/// Larger numbers never have fewer units.
pub proof fn law_units_keep_the_order(a: DecV, b: DecV, k: int)
    requires
        decimal::le(a, b),
        k >= 0,
    ensures
        units(a, k) <= units(b, k),
{
    let p = decimal::pow10(a.s);
    let q = decimal::pow10(b.s);
    decimal::lemma_pow10_positive(a.s);
    decimal::lemma_pow10_positive(b.s);
    if a.m > 0 {
        assert(b.m > 0) by (nonlinear_arith)
            requires
                a.m * q <= b.m * p,
                a.m > 0,
                q > 0,
                p > 0,
        ;
        let x = (2 * a.m * k + p) / (2 * p);
        let y = (2 * b.m * k + q) / (2 * q);
        vstd::arithmetic::div_mod::lemma_fundamental_div_mod(2 * a.m * k + p, 2 * p);
        vstd::arithmetic::div_mod::lemma_fundamental_div_mod(2 * b.m * k + q, 2 * q);
        let rx = (2 * a.m * k + p) % (2 * p);
        let ry = (2 * b.m * k + q) % (2 * q);
        assert(x <= y) by (nonlinear_arith)
            requires
                a.m * q <= b.m * p,
                k >= 0,
                p > 0,
                q > 0,
                2 * a.m * k + p == (2 * p) * x + rx,
                2 * b.m * k + q == (2 * q) * y + ry,
                0 <= rx,
                0 <= ry < 2 * q,
        {
            // (2p)x * q <= (2*a.m*k + p) * q <= (2*b.m*k + q) * p < (2q)(y + 1) * p
            assert((a.m * q) * k <= (b.m * p) * k);
            assert(((2 * p) * x) * q <= (2 * a.m * k + p) * q);
            assert((2 * a.m * k + p) * q == 2 * ((a.m * q) * k) + p * q);
            assert((2 * b.m * k + q) * p == 2 * ((b.m * p) * k) + p * q);
            assert((2 * b.m * k + q) * p < ((2 * q) * y + 2 * q) * p);
            assert((2 * p * q) * x < (2 * p * q) * (y + 1));
            assert(p * q > 0);
            assert(x < y + 1);
        }
    } else if b.m > 0 {
        assert((2 * b.m * k + q) / (2 * q) >= 0) by (nonlinear_arith)
            requires
                b.m > 0,
                k >= 0,
                q > 0,
        ;
    }
}

/// A number in units of `1/k`, rounded to the nearest, halves away from zero.
pub open spec fn signed_units(d: DecV, k: int) -> int {
    if d.m < 0 {
        -units(decimal::dec(-d.m, d.s), k)
    } else {
        units(d, k)
    }
}

/// A number in units of `1/k`.
pub fn to_signed_units(d: Dec, k: u64) -> (r: i128)
    requires
        k <= 100_000_000,
    ensures
        r == signed_units(d@, k as int),
        -(LARGEST * k + 1) <= r <= LARGEST * k + 1,
{
    let m: i128 = d.mantissa();
    let s: u32 = d.scale();
    let size: u128 = if m < 0 {
        (-m) as u128
    } else {
        m as u128
    };
    let p: u128 = power_of_ten(s);
    proof {
        assert(0 <= 2 * size * k <= 2 * size * 100_000_000) by (nonlinear_arith)
            requires
                size >= 0,
                0 <= k <= 100_000_000,
        ;
    }
    let n: u128 = (2 * size * k as u128 + p) / (2 * p);
    proof {
        assert(size == 0 ==> (2 * size * k + p) / (2 * p) == 0) by (nonlinear_arith)
            requires
                p >= 1,
        ;
        assert((2 * size * k + p) / (2 * p) <= size * k + 1) by (nonlinear_arith)
            requires
                p >= 1,
                size >= 0,
                k >= 0,
        ;
        assert(size * k <= LARGEST * k) by (nonlinear_arith)
            requires
                0 <= size <= LARGEST,
                0 <= k,
        ;
        assert(LARGEST * k <= LARGEST * 100_000_000) by (nonlinear_arith)
            requires
                0 <= k <= 100_000_000,
        ;
    }
    if m < 0 {
        -(n as i128)
    } else {
        n as i128
    }
}

} // verus!
