//! Numbers as they are written, read and rounded.

use crate::config::NumV;
use crate::decimal::{self, DecV};
use crate::laws::texts;
use crate::numeral;
use crate::text;
use vstd::prelude::*;

verus! {

/// Digits write the number that they are read as, with no zero in front.
pub proof fn law_digits_read_back(n: nat)
    ensures
        text::all_digits(decimal::digits(n)),
        text::number(decimal::digits(n)) == n,
        decimal::digits(n).len() > 0,
        n > 0 ==> decimal::digits(n)[0] != '0',
    decreases n,
{
    let s = decimal::digits(n);
    let c = decimal::digit(n % 10);
    texts::law_digits_are_worth_their_name(c);
    if n >= 10 {
        law_digits_read_back(n / 10);
        assert(s.drop_last() =~= decimal::digits(n / 10));
        assert(s.last() == c);
        assert(s[0] == decimal::digits(n / 10)[0]);
    } else {
        assert(s =~= seq![c]);
    }
}

/// A padded number has as many digits as were asked for: the last ones of the number.
pub proof fn law_padded_digits_are_the_last(n: nat, width: nat)
    ensures
        text::all_digits(decimal::padded(n, width)),
        decimal::padded(n, width).len() == width,
        text::number(decimal::padded(n, width)) == n as int % decimal::pow10(width),
    decreases width,
{
    if width == 0 {
        assert(decimal::pow10(0) == 1);
    } else {
        let w = (width - 1) as nat;
        law_padded_digits_are_the_last(n / 10, w);
        let s = decimal::padded(n, width);
        let c = decimal::digit(n % 10);
        texts::law_digits_are_worth_their_name(c);
        assert(s.drop_last() =~= decimal::padded(n / 10, w));
        assert(s.last() == c);
        let (m, p) = (n as int, decimal::pow10(w));
        decimal::lemma_pow10_positive(w);
        assert(decimal::pow10(width) == 10 * p);
        assert(m % (10 * p) == 10 * ((m / 10) % p) + m % 10) by {
            vstd::arithmetic::div_mod::lemma_mod_breakdown(m, 10, p);
        }
    }
}

proof fn lemma_no_mark(s: Seq<char>)
    requires
        forall|i: int| 0 <= i < s.len() ==> #[trigger] s[i] != 'e' && s[i] != 'E',
    ensures
        numeral::exponent_mark(s) == s.len(),
    decreases s.len(),
{
    if s.len() > 0 {
        let t = s.drop_first();
        assert forall|i: int| 0 <= i < t.len() implies #[trigger] t[i] != 'e' && t[i] != 'E' by {
            assert(t[i] == s[i + 1]);
        }
        lemma_no_mark(t);
    }
}

proof fn lemma_mark(s: Seq<char>, rest: Seq<char>)
    requires
        forall|i: int| 0 <= i < s.len() ==> #[trigger] s[i] != 'e' && s[i] != 'E',
        rest.len() > 0,
        rest[0] == 'e' || rest[0] == 'E',
    ensures
        numeral::exponent_mark(s + rest) == s.len(),
    decreases s.len(),
{
    let u = s + rest;
    if s.len() > 0 {
        let t = s.drop_first();
        assert forall|i: int| 0 <= i < t.len() implies #[trigger] t[i] != 'e' && t[i] != 'E' by {
            assert(t[i] == s[i + 1]);
        }
        lemma_mark(t, rest);
        assert(u.drop_first() =~= t + rest);
        assert(u[0] == s[0]);
    } else {
        assert(u[0] == rest[0]);
    }
}

proof fn lemma_index(s: Seq<char>, c: char, n: int)
    requires
        0 <= n <= s.len(),
        n < s.len() ==> s[n] == c,
        forall|i: int| 0 <= i < n ==> #[trigger] s[i] != c,
    ensures
        text::index_of(s, c) == n,
{
    texts::law_the_first_place_is_found(s, c);
}

/// Digits with a point among them, before them or behind them.
pub open spec fn pointed(whole: Seq<char>, fraction: Seq<char>) -> Seq<char> {
    whole + seq!['.'] + fraction
}

proof fn lemma_parts(whole: Seq<char>, fraction: Seq<char>)
    requires
        text::all_digits(whole),
        text::all_digits(fraction),
    ensures
        numeral::whole_digits(pointed(whole, fraction)) == whole,
        numeral::fraction_digits(pointed(whole, fraction)) == fraction,
        numeral::whole_digits(whole) == whole,
        numeral::fraction_digits(whole) == Seq::<char>::empty(),
{
    let s = pointed(whole, fraction);
    lemma_index(s, '.', whole.len() as int);
    lemma_index(whole, '.', whole.len() as int);
    assert(s.take(whole.len() as int) =~= whole);
    assert(s.skip(whole.len() as int + 1) =~= fraction);
    assert(whole.take(whole.len() as int) =~= whole);
}

/// Digits write a whole number. Digits behind a point are its places. Both together
/// write the digits' number, with that many places.
pub proof fn law_places_stand_behind_the_point(whole: Seq<char>, fraction: Seq<char>)
    requires
        text::all_digits(whole),
        text::all_digits(fraction),
    ensures
        whole.len() > 0 ==> numeral::numeral(whole) == Some(decimal::dec(text::number(whole), 0)),
        whole.len() + fraction.len() > 0 ==> numeral::numeral(pointed(whole, fraction)) == Some(
            decimal::dec(
                text::number(whole) * decimal::pow10(fraction.len()) + text::number(fraction),
                fraction.len(),
            ),
        ),
        numeral::numeral(seq!['.']) is None,
        numeral::numeral(Seq::empty()) is None,
{
    lemma_parts(whole, fraction);
    texts::law_digits_have_places(whole, fraction);
    let s = pointed(whole, fraction);
    lemma_no_mark(whole);
    lemma_no_mark(s);
    assert(whole.take(whole.len() as int) =~= whole);
    assert(s.take(s.len() as int) =~= s);
    assert(whole + Seq::<char>::empty() =~= whole);
    if whole.len() > 0 {
        assert(text::is_digit(whole[0]));
        assert(numeral::unsigned(whole) == whole);
    }
    if whole.len() + fraction.len() > 0 {
        assert(s[0] != '-' && s[0] != '+') by {
            if whole.len() > 0 {
                assert(s[0] == whole[0] && text::is_digit(whole[0]));
            } else {
                assert(s[0] == '.');
            }
        }
        assert(numeral::unsigned(s) == s);
        let d = whole + fraction;
        assert(text::all_digits(d)) by {
            assert forall|i: int| 0 <= i < d.len() implies text::is_digit(#[trigger] d[i]) by {
                if i < whole.len() {
                    assert(d[i] == whole[i]);
                } else {
                    assert(d[i] == fraction[i - whole.len()]);
                }
            }
        }
    }
    let dot = seq!['.'];
    let none = Seq::<char>::empty();
    assert(pointed(none, none) =~= dot);
    lemma_parts(none, none);
    lemma_no_mark(dot);
    lemma_no_mark(none);
    assert(dot.take(1) =~= dot);
    assert(numeral::unsigned(dot) == dot);
    assert(none.take(0) =~= none);
    assert(numeral::whole_digits(none) + numeral::fraction_digits(none) =~= none);
}

/// A sign in front makes the number negative, or does not.
pub proof fn law_a_sign_turns_the_number(s: Seq<char>, d: DecV)
    requires
        s.len() > 0,
        s[0] != '-',
        s[0] != '+',
        numeral::numeral(s) == Some(d),
    ensures
        numeral::numeral(seq!['-'] + s) matches Some(v) && v.s == d.s && v.m == -d.m,
        numeral::numeral(seq!['+'] + s) == Some(d),
{
    let (n, p) = (seq!['-'] + s, seq!['+'] + s);
    assert(n.drop_first() =~= s);
    assert(p.drop_first() =~= s);
    assert(n[0] == '-' && p[0] == '+');
    let m = s.take(numeral::exponent_mark(s));
    let x = text::number(numeral::whole_digits(m) + numeral::fraction_digits(m));
    let (places, e) = (numeral::fraction_digits(m).len() as int, numeral::exponent(s)->0);
    if places < e {
        let k = decimal::pow10((e - places) as nat);
        assert((-x) * k == -(x * k)) by (nonlinear_arith);
    }
}

/// An exponent moves the point: the number with it is the number without it, times that
/// power of ten.
pub proof fn law_an_exponent_moves_the_point(s: Seq<char>, mark: char, x: Seq<char>, e: int, d: DecV)
    requires
        s.len() > 0,
        forall|i: int| 0 <= i < s.len() ==> #[trigger] s[i] != 'e' && s[i] != 'E',
        s[0] != '-',
        s[0] != '+',
        mark == 'e' || mark == 'E',
        text::signed_number(x) == Some(e),
        numeral::numeral(s) == Some(d),
    ensures
        numeral::numeral(s + (seq![mark] + x)) matches Some(v) && {
            &&& e >= 0 ==> v.m * decimal::pow10(d.s) == d.m * decimal::pow10(e as nat)
                * decimal::pow10(v.s)
            &&& e < 0 ==> v.m * decimal::pow10(d.s) * decimal::pow10((-e) as nat) == d.m
                * decimal::pow10(v.s)
        },
{
    let rest = seq![mark] + x;
    let u = s + rest;
    lemma_mark(s, rest);
    lemma_no_mark(s);
    assert(u[0] == s[0]);
    assert(numeral::unsigned(u) == u && numeral::unsigned(s) == s);
    assert(u.take(s.len() as int) =~= s);
    assert(s.take(s.len() as int) =~= s);
    assert(u.skip(s.len() as int + 1) =~= x);
    let n = text::number(numeral::whole_digits(s) + numeral::fraction_digits(s));
    let f = numeral::fraction_digits(s).len();
    assert(d == numeral::shifted(n, f as int, 0));
    assert(d == decimal::dec(n, f));
    let v = numeral::shifted(n, f as int, e);
    assert(numeral::numeral(u) == Some(v));
    assert(decimal::pow10(0) == 1);
    if f >= e {
        if e >= 0 {
            decimal::lemma_pow10_sum((f - e) as nat, e as nat);
            let (a, b) = (decimal::pow10((f - e) as nat), decimal::pow10(e as nat));
            assert(n * (a * b) == n * b * a) by (nonlinear_arith);
        } else {
            decimal::lemma_pow10_sum(f, (-e) as nat);
            assert((f + (-e) as nat) as nat == (f - e) as nat);
            let (a, b) = (decimal::pow10(f), decimal::pow10((-e) as nat));
            assert(n * a * b == n * (a * b)) by (nonlinear_arith);
        }
    } else {
        decimal::lemma_pow10_sum((e - f) as nat, f);
        let (a, b) = (decimal::pow10((e - f) as nat), decimal::pow10(f));
        assert((n * a) * b == n * (a * b) * 1) by (nonlinear_arith);
    }
}

/// A decimal is read as it was written.
pub proof fn law_decimals_read_back(v: DecV)
    ensures
        numeral::numeral(decimal::text(v)) == Some(v),
        decimal::text(v)[0] == '-' <==> v.m < 0,
{
    let n = decimal::abs(v.m) as nat;
    let p = decimal::pow10(v.s) as nat;
    decimal::lemma_pow10_positive(v.s);
    let (w, f) = (decimal::digits(n / p), decimal::padded(n % p, v.s));
    law_digits_read_back(n / p);
    law_padded_digits_are_the_last(n % p, v.s);
    assert((n % p) as int % (p as int) == (n % p) as int) by {
        vstd::arithmetic::div_mod::lemma_mod_bound(n as int, p as int);
        vstd::arithmetic::div_mod::lemma_small_mod(n % p, p);
    }
    law_places_stand_behind_the_point(w, f);
    let body = if v.s == 0 {
        w
    } else {
        pointed(w, f)
    };
    assert(body[0] == w[0] && text::is_digit(w[0]));
    let d = decimal::dec(n as int, v.s);
    let (q, r) = ((n / p) as int, (n % p) as int);
    assert(n as int == q * (p as int) + r) by {
        vstd::arithmetic::div_mod::lemma_fundamental_div_mod(n as int, p as int);
        let b = p as int;
        assert(b * q == q * b) by (nonlinear_arith);
    }
    if v.s == 0 {
        assert(decimal::pow10(0) == 1);
        assert(p == 1 && r == 0);
        assert(q * 1 == q);
        assert(text::number(w) == n);
    } else {
        assert(p as int == decimal::pow10(v.s));
        assert(text::number(f) == r);
        assert(text::number(w) == q);
        assert(text::number(w) * decimal::pow10(f.len()) + text::number(f) == n);
    }
    assert(numeral::numeral(body) == Some(d));
    law_a_sign_turns_the_number(body, d);
    if v.m < 0 {
        assert(decimal::text(v) =~= seq!['-'] + body);
    } else {
        assert(decimal::text(v) =~= body);
    }
}

/// The nearest whole number: no other is nearer, and of two that are equally near it is
/// the larger one.
pub proof fn law_halves_go_up(n: int, p: int)
    requires
        p > 0,
    ensures
        2 * n - p < 2 * (numeral::half_up(n, p) * p) <= 2 * n + p,
{
    let q = numeral::half_up(n, p);
    vstd::arithmetic::div_mod::lemma_fundamental_div_mod(2 * n + p, 2 * p);
    vstd::arithmetic::div_mod::lemma_mod_bound(2 * n + p, 2 * p);
    assert(2 * p * q == 2 * (q * p)) by (nonlinear_arith);
}

/// A positive number is as many units as are nearest to it, and one where that would be
/// none; other numbers are none.
pub proof fn law_units_are_the_nearest(d: DecV, k: int)
    requires
        k >= 0,
    ensures
        ({
            let (u, p) = (numeral::units(d, k), decimal::pow10(d.s));
            &&& d.m > 0 ==> 2 * (d.m * k) - p < 2 * (u * p) <= 2 * (d.m * k) + p
            &&& d.m <= 0 ==> u == 0 && numeral::some_units(d, k) == 0
            &&& d.m > 0 && u > 0 ==> numeral::some_units(d, k) == u
            &&& d.m > 0 && u <= 0 ==> numeral::some_units(d, k) == 1
            &&& d.m >= 0 ==> numeral::signed_units(d, k) == u
            &&& numeral::signed_units(decimal::dec(-d.m, d.s), k) == -numeral::signed_units(d, k)
        }),
{
    let p = decimal::pow10(d.s);
    decimal::lemma_pow10_positive(d.s);
    let m = d.m;
    assert(2 * m * k == 2 * (m * k)) by (nonlinear_arith);
    law_halves_go_up(m * k, p);
    if m > 0 {
        let u = numeral::units(d, k);
        assert(u >= 0) by {
            assert(m * k >= 0) by (nonlinear_arith)
                requires
                    m > 0,
                    k >= 0,
            ;
            if u < 0 {
                assert(u * p <= -p) by (nonlinear_arith)
                    requires
                        u <= -1,
                        p >= 1,
                ;
            }
        }
    }
    assert(decimal::dec(-(-m), d.s) == d);
}

/// A number is held with as many places as fit, at most 28 and no more than it has, and
/// with the nearest number of those units, halves away from zero. Only what is too large
/// even without places is not held.
pub proof fn law_numbers_are_held_as_finely_as_they_fit(d: DecV, s: nat)
    requires
        s <= d.s,
    ensures
        ({
            let near = |t: nat| numeral::nearest(d, t);
            match numeral::fitted(d, s) {
                Some(h) => {
                    &&& h.s <= s && h.m == near(h.s) && decimal::fits(h.m)
                    &&& forall|t: nat| h.s < t <= s ==> !decimal::fits(#[trigger] near(t))
                },
                None => forall|t: nat| t <= s ==> !decimal::fits(#[trigger] near(t)),
            }
        }),
    decreases s,
{
    let near = |t: nat| numeral::nearest(d, t);
    assert(near(s) == numeral::nearest(d, s));
    if !decimal::fits(near(s)) && s > 0 {
        law_numbers_are_held_as_finely_as_they_fit(d, (s - 1) as nat);
        let old = |t: nat| numeral::nearest(d, t);
        match numeral::fitted(d, (s - 1) as nat) {
            Some(h) => {
                assert forall|t: nat| h.s < t <= s implies !decimal::fits(#[trigger] near(t)) by {
                    assert(near(t) == old(t));
                }
            },
            None => {
                assert forall|t: nat| t <= s implies !decimal::fits(#[trigger] near(t)) by {
                    assert(near(t) == old(t));
                }
            },
        }
    }
}

/// Rounding goes to the nearest, and away from zero from the middle.
pub proof fn law_rounding_goes_away_from_zero(d: DecV, t: nat)
    requires
        t <= d.s,
    ensures
        ({
            let (q, p) = (numeral::nearest(d, t), decimal::pow10((d.s - t) as nat));
            &&& d.m >= 0 ==> 2 * d.m - p < 2 * (q * p) <= 2 * d.m + p
            &&& d.m < 0 ==> 2 * d.m - p <= 2 * (q * p) < 2 * d.m + p
        }),
{
    let p = decimal::pow10((d.s - t) as nat);
    decimal::lemma_pow10_positive((d.s - t) as nat);
    let q = numeral::half_up(decimal::abs(d.m), p);
    law_halves_go_up(decimal::abs(d.m), p);
    assert((-q) * p == -(q * p)) by (nonlinear_arith);
}

/// What is held has no more than 28 places.
pub proof fn law_no_more_than_all_places_are_held(s: Seq<char>)
    ensures
        numeral::numeral(s) is None ==> numeral::held(s) is None,
        numeral::numeral(s) matches Some(d) ==> {
            &&& d.s <= 28 ==> numeral::held(s) == numeral::fitted(d, d.s)
            &&& d.s > 28 ==> numeral::held(s) == numeral::fitted(d, 28)
        },
{
}

/// The words for what is no finite number, in any capitalisation, and with a sign that
/// only an infinity keeps. Numbers that are too large are infinite.
pub proof fn law_words_for_numbers(s: Seq<char>, word: Seq<char>)
    requires
        word.len() > 0,
        word[0] != '-',
        word[0] != '+',
        s == word || s == seq!['-'] + word || s == seq!['+'] + word,
    ensures
        ({
            let w = text::lowered(word);
            let negative = s[0] == '-';
            let endless = w == seq!['i', 'n', 'f'] || w == seq![
                'i',
                'n',
                'f',
                'i',
                'n',
                'i',
                't',
                'y',
            ];
            let none = w == seq!['n', 'a', 'n'];
            &&& endless ==> numeral::value(s) == Some(NumV::Infinite { negative })
            &&& none ==> numeral::value(s) == Some(NumV::NotANumber)
            &&& !endless && !none ==> match (numeral::numeral(s), numeral::held(s)) {
                (None, _) => numeral::value(s) is None,
                (Some(_), None) => numeral::value(s) == Some(NumV::Infinite { negative }),
                (Some(_), Some(h)) => numeral::value(s) == Some(NumV::Finite(h)),
            }
        }),
{
    reveal_strlit("inf");
    reveal_strlit("infinity");
    reveal_strlit("nan");
    assert((seq!['-'] + word).drop_first() =~= word);
    assert((seq!['+'] + word).drop_first() =~= word);
    assert("inf"@ =~= seq!['i', 'n', 'f']);
    assert("infinity"@ =~= seq!['i', 'n', 'f', 'i', 'n', 'i', 't', 'y']);
    assert("nan"@ =~= seq!['n', 'a', 'n']);
}

/// Decimals are compared as numbers: on a common scale, by their mantissas.
pub proof fn law_decimals_compare_on_a_common_scale(m: int, n: int, s: nat, k: nat)
    ensures
        decimal::lt(decimal::dec(m, s), decimal::dec(n, s)) <==> m < n,
        decimal::le(decimal::dec(m, s), decimal::dec(n, s)) <==> m <= n,
        decimal::same_value(decimal::dec(m, s), decimal::dec(n, s)) <==> m == n,
        decimal::same_value(
            decimal::dec(m * decimal::pow10(k), s + k),
            decimal::dec(m, s),
        ),
{
    decimal::lemma_pow10_positive(s);
    decimal::lemma_pow10_sum(s, k);
    let p = decimal::pow10(s);
    assert(m * p < n * p <==> m < n) by (nonlinear_arith)
        requires
            p >= 1,
    ;
    assert(m * p <= n * p <==> m <= n) by (nonlinear_arith)
        requires
            p >= 1,
    ;
    let q = decimal::pow10(k);
    assert((m * q) * p == m * (p * q)) by (nonlinear_arith);
}

/// The larger of two decimals, and a decimal brought between two others.
pub proof fn law_limits_limit(v: DecV, lo: DecV, hi: DecV)
    requires
        decimal::le(lo, hi),
    ensures
        ({
            let c = decimal::spec_clamp(v, lo, hi);
            let m = decimal::spec_max(v, lo);
            &&& decimal::le(lo, c) && decimal::le(c, hi)
            &&& decimal::le(lo, v) && decimal::le(v, hi) ==> c == v
            &&& decimal::lt(v, lo) ==> c == lo
            &&& decimal::lt(hi, v) && decimal::le(lo, v) ==> c == hi
            &&& decimal::le(v, m) && decimal::le(lo, m) && (m == v || m == lo)
        }),
{
}

} // verus!
