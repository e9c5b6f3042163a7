//! What is known of a lot at a moment.

use crate::backtest::causal::{self, Bbo, Close, FeatureSample, Features};
use crate::backtest::position::{self, CollectedPosition};
use crate::backtest::trajectory::Sample;
use crate::config::Num;
use crate::decimal::{self, DecV};
use crate::laws::numerals;
use crate::laws::peaks;
use crate::numeral;
use vstd::prelude::*;

verus! {

/// The past is the samples up to the first one that is later than the moment; the future
/// is that one and all behind it.
pub proof fn law_the_past_ends_at_the_moment(s: Seq<Sample>, t: int)
    ensures
        ({
            let n = causal::past(s, t).len() as int;
            &&& n <= s.len()
            &&& causal::past(s, t) == s.take(n)
            &&& causal::future(s, t) == s.skip(n)
            &&& forall|i: int| 0 <= i < n ==> (#[trigger] s[i]).0 <= t
            &&& n < s.len() ==> s[n].0 > t
        }),
    decreases s.len(),
{
    if s.len() > 0 && s[0].0 <= t {
        let rest = s.drop_first();
        law_the_past_ends_at_the_moment(rest, t);
        let m = causal::past(rest, t).len() as int;
        assert(s.take(m + 1) =~= seq![s[0]] + rest.take(m));
        assert forall|i: int| 0 <= i < m + 1 implies (#[trigger] s[i]).0 <= t by {
            if i > 0 {
                assert(rest[i - 1] == s[i]);
            }
        }
        assert(m < rest.len() ==> rest[m] == s[m + 1]);
    } else {
        assert(causal::past(s, t) =~= s.take(0));
    }
}

/// In the same way for the best prices.
pub proof fn law_past_prices_end_at_the_moment(s: Seq<Bbo>, t: int)
    ensures
        ({
            let n = causal::past_bbo(s, t).len() as int;
            &&& n <= s.len()
            &&& causal::past_bbo(s, t) == s.take(n)
            &&& forall|i: int| 0 <= i < n ==> (#[trigger] s[i]).0 <= t
            &&& n < s.len() ==> s[n].0 > t
        }),
    decreases s.len(),
{
    if s.len() > 0 && s[0].0 <= t {
        let rest = s.drop_first();
        law_past_prices_end_at_the_moment(rest, t);
        let m = causal::past_bbo(rest, t).len() as int;
        assert(s.take(m + 1) =~= seq![s[0]] + rest.take(m));
        assert forall|i: int| 0 <= i < m + 1 implies (#[trigger] s[i]).0 <= t by {
            if i > 0 {
                assert(rest[i - 1] == s[i]);
            }
        }
        assert(m < rest.len() ==> rest[m] == s[m + 1]);
    } else {
        assert(causal::past_bbo(s, t) =~= s.take(0));
    }
}

/// In the same way for the closes.
pub proof fn law_past_closes_end_at_the_moment(s: Seq<Close>, t: int)
    ensures
        ({
            let n = causal::past_closes(s, t).len() as int;
            &&& n <= s.len()
            &&& causal::past_closes(s, t) == s.take(n)
            &&& forall|i: int| 0 <= i < n ==> (#[trigger] s[i]).0 <= t
            &&& n < s.len() ==> s[n].0 > t
        }),
    decreases s.len(),
{
    if s.len() > 0 && s[0].0 <= t {
        let rest = s.drop_first();
        law_past_closes_end_at_the_moment(rest, t);
        let m = causal::past_closes(rest, t).len() as int;
        assert(s.take(m + 1) =~= seq![s[0]] + rest.take(m));
        assert forall|i: int| 0 <= i < m + 1 implies (#[trigger] s[i]).0 <= t by {
            if i > 0 {
                assert(rest[i - 1] == s[i]);
            }
        }
        assert(m < rest.len() ==> rest[m] == s[m + 1]);
    } else {
        assert(causal::past_closes(s, t) =~= s.take(0));
    }
}

/// The last value is that of the last sample that has one.
pub proof fn law_the_last_value_counts(s: Seq<Sample>, more: Seq<Sample>, v: u128, t: i64)
    requires
        forall|i: int| 0 <= i < more.len() ==> (#[trigger] more[i]).1 is None,
    ensures
        causal::last_known(more) is None,
        causal::last_known(s.push((t, Some(v))) + more) == Some(v),
    decreases more.len(),
{
    let x = s.push((t, Some(v)));
    if more.len() == 0 {
        assert(x + more =~= x);
    } else {
        let less = more.drop_last();
        assert forall|i: int| 0 <= i < less.len() implies (#[trigger] less[i]).1 is None by {
            assert(less[i] == more[i]);
        }
        law_the_last_value_counts(s, less, v, t);
        assert((x + more).drop_last() =~= x + less);
        assert((x + more).last() == more[more.len() - 1]);
    }
}

/// The last value by a time is that of the last sample that has one and is not later.
pub proof fn law_the_last_value_by_a_time_counts(
    s: Seq<Sample>,
    more: Seq<Sample>,
    v: u128,
    t: i64,
    target: int,
)
    requires
        t <= target,
        forall|i: int| 0 <= i < more.len() ==> (#[trigger] more[i]).1 is None || more[i].0 > target,
    ensures
        causal::last_known_by(more, target) is None,
        causal::last_known_by(s.push((t, Some(v))) + more, target) == Some(v),
    decreases more.len(),
{
    let x = s.push((t, Some(v)));
    if more.len() == 0 {
        assert(x + more =~= x);
    } else {
        let less = more.drop_last();
        assert forall|i: int| 0 <= i < less.len() implies (#[trigger] less[i]).1 is None || less[i].0
            > target by {
            assert(less[i] == more[i]);
        }
        law_the_last_value_by_a_time_counts(s, less, v, t, target);
        assert((x + more).drop_last() =~= x + less);
        assert((x + more).last() == more[more.len() - 1]);
    }
}

/// The first value from a time on is that of the first sample that has one and is not
/// earlier.
pub proof fn law_the_first_value_from_a_time_counts(
    before: Seq<Sample>,
    s: Seq<Sample>,
    v: u128,
    t: i64,
    target: int,
)
    requires
        t >= target,
        forall|i: int|
            0 <= i < before.len() ==> (#[trigger] before[i]).1 is None || before[i].0 < target,
    ensures
        causal::first_from(before, target) is None,
        causal::first_from(before + (seq![(t, Some(v))] + s), target) == Some(v),
    decreases before.len(),
{
    let x = seq![(t, Some(v))] + s;
    if before.len() == 0 {
        assert(before + x =~= x);
    } else {
        let rest = before.drop_first();
        assert forall|i: int| 0 <= i < rest.len() implies (#[trigger] rest[i]).1 is None || rest[i].0
            < target by {
            assert(rest[i] == before[i + 1]);
        }
        law_the_first_value_from_a_time_counts(rest, s, v, t, target);
        assert((before + x).drop_first() =~= rest + x);
        assert((before + x)[0] == before[0]);
    }
}

/// The last time of a value is that of the last sample that has it.
pub proof fn law_the_last_time_of_a_value(
    s: Seq<Sample>,
    more: Seq<Sample>,
    v: u128,
    t: i64,
)
    requires
        forall|i: int| 0 <= i < more.len() ==> (#[trigger] more[i]).1 != Some(v),
    ensures
        causal::last_at(more, v as int) is None,
        causal::last_at(s.push((t, Some(v))) + more, v as int) == Some(t),
    decreases more.len(),
{
    let x = s.push((t, Some(v)));
    if more.len() == 0 {
        assert(x + more =~= x);
    } else {
        let less = more.drop_last();
        assert forall|i: int| 0 <= i < less.len() implies (#[trigger] less[i]).1 != Some(v) by {
            assert(less[i] == more[i]);
        }
        law_the_last_time_of_a_value(s, less, v, t);
        assert((x + more).drop_last() =~= x + less);
        assert((x + more).last() == more[more.len() - 1]);
    }
}

/// The last full prices are those of the last moment at which both are known; the last
/// bid is that of the last moment at which it is.
pub proof fn law_the_last_prices_count(s: Seq<Bbo>, more: Seq<Bbo>, t: i64, bid: u32, ask: u32)
    ensures
        (forall|i: int| 0 <= i < more.len() ==> (#[trigger] more[i]).1 is None || more[i].2 is None)
            ==> causal::last_full(more) is None && causal::last_full(
            s.push((t, Some(bid), Some(ask))) + more,
        ) == Some((bid, ask)),
        (forall|i: int| 0 <= i < more.len() ==> (#[trigger] more[i]).1 is None)
            ==> causal::last_bid(more) is None && causal::last_bid(
            s.push((t, Some(bid), Some(ask))) + more,
        ) == Some(bid) && causal::last_bid(s.push((t, Some(bid), None)) + more) == Some(bid),
    decreases more.len(),
{
    let x = s.push((t, Some(bid), Some(ask)));
    let y = s.push((t, Some(bid), None));
    if more.len() == 0 {
        assert(x + more =~= x);
        assert(y + more =~= y);
    } else {
        let less = more.drop_last();
        let n = more.len() - 1;
        assert forall|i: int| 0 <= i < less.len() implies less[i] == #[trigger] more[i] by {}
        law_the_last_prices_count(s, less, t, bid, ask);
        assert((x + more).drop_last() =~= x + less);
        assert((x + more).last() == more[n]);
        assert((y + more).drop_last() =~= y + less);
        assert((y + more).last() == more[n]);
        if forall|i: int|
            0 <= i < more.len() ==> (#[trigger] more[i]).1 is None || more[i].2 is None {
            assert(more[n].1 is None || more[n].2 is None);
            assert forall|i: int| 0 <= i < less.len() implies (#[trigger] less[i]).1 is None
                || less[i].2 is None by {
                assert(less[i] == more[i]);
            }
        }
        if forall|i: int| 0 <= i < more.len() ==> (#[trigger] more[i]).1 is None {
            assert(more[n].1 is None);
            assert forall|i: int| 0 <= i < less.len() implies (#[trigger] less[i]).1 is None by {
                assert(less[i] == more[i]);
            }
        }
    }
}

/// The close by a time is the last one that is not later.
pub proof fn law_the_last_close_counts(s: Seq<Close>, more: Seq<Close>, t: i64, c: Num, target: int)
    requires
        t <= target,
        forall|i: int| 0 <= i < more.len() ==> (#[trigger] more[i]).0 > target,
    ensures
        causal::close_by(more, target) is None,
        causal::close_by(s.push((t, c)) + more, target) == Some(c),
        causal::final_close(s.push((t, c))) == Some(c),
        causal::final_close(Seq::empty()) is None,
    decreases more.len(),
{
    let x = s.push((t, c));
    if more.len() == 0 {
        assert(x + more =~= x);
    } else {
        let less = more.drop_last();
        assert forall|i: int| 0 <= i < less.len() implies (#[trigger] less[i]).0 > target by {
            assert(less[i] == more[i]);
        }
        law_the_last_close_counts(s, less, t, c, target);
        assert((x + more).drop_last() =~= x + less);
        assert((x + more).last() == more[more.len() - 1]);
    }
}

/// The best of samples is one of their values, and none is higher.
pub proof fn law_the_best_is_the_highest(s: Seq<Sample>)
    ensures
        match causal::best_of(s) {
            Some(v) => {
                &&& forall|i: int| 0 <= i < s.len() && (#[trigger] s[i]).1 is Some ==> s[i].1->0 <= v
                &&& exists|i: int| 0 <= i < s.len() && (#[trigger] s[i]).1 is Some && s[i].1->0 == v
            },
            None => forall|i: int| 0 <= i < s.len() ==> (#[trigger] s[i]).1 is None,
        },
        match causal::top(s) {
            Some(v) => {
                &&& forall|i: int| 0 <= i < s.len() && (#[trigger] s[i]).1 is Some ==> s[i].1->0 <= v
                &&& exists|i: int| 0 <= i < s.len() && (#[trigger] s[i]).1 is Some && s[i].1->0 == v
            },
            None => forall|i: int| 0 <= i < s.len() ==> (#[trigger] s[i]).1 is None,
        },
    decreases s.len(),
{
    peaks::lemma_peak(s);
    lemma_best(s);
    if let Some(v) = causal::top(s) {
        let at = (crate::backtest::exits::high(None, s)->0).1;
        let i = choose|i: int| #[trigger]
            peaks::is_peak(s, i) && s[i].1->0 == v && s[i].0 == at;
        assert(s[i].1 is Some);
    }
}

proof fn lemma_best(s: Seq<Sample>)
    ensures
        match causal::best_of(s) {
            Some(v) => {
                &&& forall|i: int| 0 <= i < s.len() && (#[trigger] s[i]).1 is Some ==> s[i].1->0 <= v
                &&& exists|i: int| 0 <= i < s.len() && (#[trigger] s[i]).1 is Some && s[i].1->0 == v
            },
            None => forall|i: int| 0 <= i < s.len() ==> (#[trigger] s[i]).1 is None,
        },
    decreases s.len(),
{
    if s.len() > 0 {
        let rest = s.drop_first();
        lemma_best(rest);
        let b = causal::best_of(rest);
        assert forall|i: int| 0 < i < s.len() implies rest[i - 1] == #[trigger] s[i] by {}
        if b is Some {
            let i = choose|i: int|
                0 <= i < rest.len() && (#[trigger] rest[i]).1 is Some && rest[i].1->0 == b->0;
            assert(s[i + 1] == rest[i]);
        }
        assert forall|i: int| 0 <= i < s.len() && (#[trigger] s[i]).1 is Some implies causal::best_of(
            s,
        ) is Some && s[i].1->0 <= causal::best_of(s)->0 by {
            if i > 0 {
                assert(rest[i - 1].1 is Some);
            }
        }
        if causal::best_of(s) is Some {
            if s[0].1 is Some && s[0].1->0 == causal::best_of(s)->0 {
                assert(s[0].1 is Some);
            }
        }
    }
}

/// It was right to sell where no later value is more than so many thousandths above the
/// present one. Nothing is said where there is no present value.
pub proof fn law_selling_was_right(now: int, later: int, tolerance: int, any: Option<int>)
    ensures
        causal::should_have_sold(None, any, tolerance) is None,
        causal::should_have_sold(Some(now), None, tolerance) == Some(true),
        causal::should_have_sold(Some(now), Some(later), tolerance) == Some(
            1000 * later <= 1000 * now + tolerance * now,
        ),
{
    assert(now * (1000 + tolerance) == 1000 * now + tolerance * now) by (nonlinear_arith);
}

proof fn lemma_floor(a: int, b: int)
    requires
        b > 0,
    ensures
        (a / b) * b <= a < (a / b) * b + b,
{
    vstd::arithmetic::div_mod::lemma_fundamental_div_mod(a, b);
    vstd::arithmetic::div_mod::lemma_mod_bound(a, b);
    let q = a / b;
    assert(b * q == q * b) by (nonlinear_arith);
}

/// A price is a value over the shares, a change of it the difference over the shares and
/// the seconds, each without what is beyond the last whole unit. There is none without
/// shares, or without a value.
pub proof fn law_prices_are_per_share(v: int, w: int, shares: u64, seconds: int)
    requires
        seconds > 0,
    ensures
        shares == 0 ==> causal::opt_price(Some(v), shares) is None && causal::price_change(
            Some(v),
            Some(w),
            shares,
            seconds,
        ) is None,
        causal::opt_price(None, shares) is None,
        causal::price_change(None, Some(w), shares, seconds) is None,
        causal::price_change(Some(v), None, shares, seconds) is None,
        shares > 0 ==> {
            &&& causal::opt_price(Some(v), shares) matches Some(p) && p * shares <= v * 1_000_000 < p
                * shares + shares
            &&& causal::price_change(Some(v), Some(w), shares, seconds) matches Some(c) && c * (shares
                * seconds) <= (v - w) * 1_000_000 < c * (shares * seconds) + shares * seconds
        },
{
    if shares > 0 {
        lemma_floor(v * 1_000_000, shares as int);
        let n = shares * seconds;
        assert(n > 0) by (nonlinear_arith)
            requires
                n == shares * seconds,
                shares > 0,
                seconds > 0,
        ;
        lemma_floor((v - w) * 1_000_000, n);
    }
}

/// The share of the holding time that is over, and the present value as a share of the
/// highest one, in millionths of a percent.
pub proof fn law_shares_are_in_millionths_of_a_percent(
    p: CollectedPosition,
    t: int,
    now: int,
    high: int,
)
    ensures
        ({
            let hold = if p.exit_ts_ms - p.entry_recv_ms < 1 {
                1
            } else {
                p.exit_ts_ms - p.entry_recv_ms
            };
            let x = causal::time_share(p, t);
            x * hold <= (t - p.entry_recv_ms) * 100_000_000 < x * hold + hold
        }),
        high > 0 ==> (causal::ratio(Some(now), Some(high)) matches Some(r) && r * high <= now
            * 100_000_000 < r * high + high),
        high <= 0 ==> causal::ratio(Some(now), Some(high)) is None,
        causal::ratio(None, Some(high)) is None,
        causal::ratio(Some(now), None) is None,
{
    let hold = if p.exit_ts_ms - p.entry_recv_ms < 1 {
        1
    } else {
        p.exit_ts_ms - p.entry_recv_ms
    };
    lemma_floor((t - p.entry_recv_ms) * 100_000_000, hold);
    if high > 0 {
        lemma_floor(now * 100_000_000, high);
    }
}

/// The time since the highest value is counted from when it was last had.
pub proof fn law_the_time_since_the_high(s: Seq<Sample>, t: int, i: int)
    requires
        0 <= i < s.len(),
        s[i].1 is Some,
        forall|k: int| 0 <= k < s.len() && (#[trigger] s[k]).1 is Some ==> s[k].1->0 <= s[i].1->0,
        forall|k: int| i < k < s.len() && (#[trigger] s[k]).1 is Some ==> s[k].1->0 < s[i].1->0,
    ensures
        causal::since_top(s, t) == Some(t - s[i].0),
        causal::since_top(Seq::empty(), t) is None,
{
    law_the_best_is_the_highest(s);
    let v = causal::top(s)->0;
    assert(causal::top(s) is Some && v == s[i].1->0) by {
        assert(s[i].1 is Some);
        let j = choose|j: int| 0 <= j < s.len() && (#[trigger] s[j]).1 is Some && s[j].1->0 == v;
        assert(s[j].1->0 <= s[i].1->0);
    }
    let (front, more) = (s.take(i), s.skip(i + 1));
    assert(s =~= front.push((s[i].0, Some(s[i].1->0))) + more);
    assert forall|k: int| 0 <= k < more.len() implies (#[trigger] more[k]).1 != Some(s[i].1->0) by {
        assert(more[k] == s[i + 1 + k]);
    }
    law_the_last_time_of_a_value(front, more, s[i].1->0, s[i].0);
    assert(causal::top(Seq::empty()) is None);
}

/// A velocity is the change of the price from the last value that was known so many
/// seconds ago to the last one known now, per second.
pub proof fn law_velocities_look_back(s: Seq<Sample>, t: int, k: int, shares: u64)
    ensures
        t < 1000 * k ==> causal::velocity(s, t, k, shares) is None,
        t >= 1000 * k ==> causal::velocity(s, t, k, shares) == causal::price_change(
            position::amount(causal::last_known(s)),
            position::amount(causal::last_known_by(s, t - 1000 * k)),
            shares,
            k,
        ),
{
}

/// The spread is the ask less the bid; what a large sale costs is the price of the lot
/// less the best bid.
pub proof fn law_spreads_are_ask_less_bid(s: Seq<Bbo>, now: Option<int>, shares: u64)
    ensures
        match causal::last_full(s) {
            Some((bid, ask)) => causal::spread(s) == Some(ask - bid),
            None => causal::spread(s) is None,
        },
        match (causal::opt_price(now, shares), causal::last_bid(s)) {
            (Some(p), Some(bid)) => causal::depth_tax(now, s, shares) == Some(p - 1_000_000 * bid),
            _ => causal::depth_tax(now, s, shares) is None,
        },
{
}

/// A close is counted in millionths of a billionth: to the nearest one, at least one
/// where it is not 0, no more than so many, and the same on both sides of 0.
pub proof fn law_closes_are_counted_finely(d: DecV)
    ensures
        ({
            let (u, p, exact) = (
                causal::close_units(d),
                decimal::pow10(d.s),
                d.m * 1_000_000_000_000_000,
            );
            let most = 0x8_0000_0000_0000_0000_0000int;
            &&& d.m == 0 <==> u == 0
            &&& d.m > 0 ==> 1 <= u <= most
            &&& d.m > 0 && 1 < u < most ==> 2 * exact - p < 2 * (u * p) <= 2 * exact + p
            &&& causal::close_units(decimal::dec(-d.m, d.s)) == -u
        }),
{
    let k = 1_000_000_000_000_000int;
    numerals::law_units_are_the_nearest(d, k);
    numerals::law_units_are_the_nearest(decimal::dec(-d.m, d.s), k);
    numeral::law_only_positive_numbers_have_units(d, k);
    numeral::law_only_positive_numbers_have_units(decimal::dec(-d.m, d.s), k);
    assert(decimal::dec(-(-d.m), d.s) == d);
}

/// A return is the change over the base, in millionths of a millionth, without what is
/// beyond the last whole one. There is none unless both are finite and the base is above
/// 0.
pub proof fn law_returns_are_over_the_base(now: Option<Num>, base: Option<Num>)
    ensures
        match (now, base) {
            (Some(Num::Finite(c)), Some(Num::Finite(b))) => if b@.m > 0 {
                let (x, y) = (causal::close_units(c@), causal::close_units(b@));
                causal::ret(now, base) matches Some(r) && r * y <= (x - y) * 1_000_000_000_000 < r * y
                    + y
            } else {
                causal::ret(now, base) is None
            },
            _ => causal::ret(now, base) is None,
        },
{
    if let (Some(Num::Finite(c)), Some(Num::Finite(b))) = (now, base) {
        if b@.m > 0 {
            law_closes_are_counted_finely(b@);
            let (x, y) = (causal::close_units(c@), causal::close_units(b@));
            lemma_floor((x - y) * 1_000_000_000_000, y);
        }
    }
}

/// What the features are taken of: the past for what is known, the future for the label
/// and for what was to come.
pub proof fn law_features_are_of_the_moment(
    p: CollectedPosition,
    closes: Seq<Close>,
    close_at_entry: Option<Num>,
    t: i64,
    random: u64,
)
    ensures
        ({
            let s = causal::past(p.trajectory@, t as int);
            let bbo = causal::past_bbo(p.trajectory_bbo@, t as int);
            let c = causal::past_closes(closes, t as int);
            let later = causal::best_of(causal::future(p.trajectory@, t as int));
            let r = causal::features_at(p, closes, close_at_entry, t, random);
            &&& r is None <==> causal::last_known(s) is None
            &&& r matches Some(f) ==> {
                let v = causal::last_known(s)->0 as int;
                &&& f.t_recv_ms == t
                &&& later is None ==> f.label
                &&& later matches Some(m) ==> (f.label <==> 1000 * m <= 1015 * v)
                &&& is_wide(f.f1_t_since_entry_pct, Some(causal::time_share(p, t as int)))
                &&& is_wide(f.f2_t_to_exit_ms, Some(p.exit_ts_ms - t))
                &&& is_wide(f.f3_bid_t, causal::opt_price(Some(v), p.shares))
                &&& is_wide(f.f4_bid_max_so_far, causal::opt_price(causal::top(s), p.shares))
                &&& is_wide(f.f5_bid_ratio, causal::ratio(Some(v), causal::top(s)))
                &&& is_wide(f.f6_time_since_bid_max_ms, causal::since_top(s, t as int))
                &&& is_wide(f.f7_bid_velocity_5s, causal::velocity(s, t as int, 5, p.shares))
                &&& is_wide(f.f8_bid_velocity_15s, causal::velocity(s, t as int, 15, p.shares))
                &&& is_wide(f.f9_spread_t, causal::spread(bbo))
                &&& is_wide(
                    f.f10_executable_minus_best_bid,
                    causal::depth_tax(Some(v), bbo, p.shares),
                )
                &&& is_wide(
                    f.f11_binance_return_since_entry,
                    causal::ret(causal::final_close(c), close_at_entry),
                )
                &&& is_wide(
                    f.f12_binance_return_5s,
                    causal::ret(causal::final_close(c), causal::close_by(c, t - 5000)),
                )
                &&& f.sanity_label_as_feat == Some(
                    if f.label {
                        1i128
                    } else {
                        0i128
                    },
                )
                &&& is_wide(f.sanity_random_seeded, Some(random as int))
                &&& is_wide(
                    f.canary_max_future_advantage,
                    causal::price_change(later, Some(v), p.shares, 1),
                )
                &&& is_wide(
                    f.canary_advantage_at_t_plus_30s,
                    causal::price_change(
                        position::amount(causal::first_from(p.trajectory@, t + 30_000)),
                        Some(v),
                        p.shares,
                        1,
                    ),
                )
            }
        }),
{
    reveal(causal::features_at);
}

/// The feature is that number, or unknown as it is.
pub open spec fn is_wide(f: Option<i128>, v: Option<int>) -> bool {
    match v {
        Some(v) => f == Some(v as i128),
        None => f is None,
    }
}

/// The next state of the sequence is a multiple of the present one and a constant more,
/// of which the last 64 bits are kept.
pub proof fn law_the_sequence_goes_on(s: u64)
    ensures
        ({
            let n = causal::next_state(s) as int;
            let whole = s * 6364136223846793005 + 1442695040888963407;
            &&& 0 <= n < 18446744073709551616
            &&& (whole - n) % 18446744073709551616 == 0
        }),
{
}

/// A row is taken at every step from the first moment to the end of the lot, where the
/// lot can be sold at it; every step draws a number, whether it gives a row or not.
pub proof fn law_rows_are_taken_step_by_step(
    p: CollectedPosition,
    closes: Seq<Close>,
    close_at_entry: Option<Num>,
    t: int,
    step: int,
    state: u64,
)
    requires
        step > 0,
    ensures
        ({
            let rows = causal::rows_from(p, closes, close_at_entry, t, step, state);
            let next = causal::next_state(state);
            let rest = causal::rows_from(p, closes, close_at_entry, t + step, step, next);
            &&& t > p.exit_ts_ms ==> rows.len() == 0
            &&& t <= p.exit_ts_ms ==> match causal::features_at(
                p,
                closes,
                close_at_entry,
                t as i64,
                (next / 2048) as u64,
            ) {
                Some(f) => rows == seq![f] + rest,
                None => rows == rest,
            }
            &&& t > p.exit_ts_ms ==> causal::state_after(t, p.exit_ts_ms as int, step, state)
                == state
            &&& t <= p.exit_ts_ms ==> causal::state_after(t, p.exit_ts_ms as int, step, state)
                == causal::state_after(t + step, p.exit_ts_ms as int, step, next)
        }),
{
}

/// A row is named by its lot, its cell and its date.
pub proof fn law_rows_are_named(r: FeatureSample, p: CollectedPosition, date: Seq<char>)
    requires
        causal::row_of(r, p, date),
    ensures
        r.signal_id@ == p.signal_id@,
        r.cell@ == p.asset@.push('_') + p.interval@,
        r.date@ == date,
        r.entry_price == p.entry_price,
{
    reveal_strlit("_");
    assert(r.cell@ =~= p.asset@.push('_') + p.interval@);
}

} // verus!
