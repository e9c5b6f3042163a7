//! The exit policies: at which sample each of them sells.

use crate::backtest::exits::{self, ExitReason, ExitVariant};
use crate::backtest::position::CollectedPosition;
use crate::backtest::trajectory::Sample;
use crate::config::Num;
use crate::decimal::{self, Dec, DecV};
use vstd::prelude::*;

verus! {

/// `top` is the highest of what was paid and the bids of the samples, and was first
/// had at `ms`; what was paid was had at `entry_ms`.
pub open spec fn first_high(
    samples: Seq<Sample>,
    paid: int,
    entry_ms: int,
    top: int,
    ms: int,
) -> bool {
    &&& paid <= top
    &&& forall|j: int|
        0 <= j < samples.len() ==> ((#[trigger] samples[j]).1 matches Some(b) ==> b <= top)
    &&& top == paid ==> ms == entry_ms
    &&& top > paid ==> exists|k: int|
        0 <= k < samples.len() && samples[k].1 == Some(top as u128) && (#[trigger] samples[k]).0
            == ms && forall|j: int|
            0 <= j < k ==> ((#[trigger] samples[j]).1 matches Some(b) ==> b < top)
}

/// `top` is the highest bid of the samples.
pub open spec fn highest_bid(samples: Seq<Sample>, top: int) -> bool {
    &&& forall|j: int|
        0 <= j < samples.len() ==> ((#[trigger] samples[j]).1 matches Some(b) ==> b <= top)
    &&& exists|k: int| 0 <= k < samples.len() && (#[trigger] samples[k]).1 == Some(top as u128)
}

pub open spec fn no_bid(samples: Seq<Sample>) -> bool {
    forall|j: int| 0 <= j < samples.len() ==> (#[trigger] samples[j]).1 is None
}

proof fn lemma_high_since_entry(samples: Seq<Sample>, paid: int, entry_ms: int)
    requires
        paid >= 0,
    ensures
        exits::high(Some((paid, entry_ms)), samples) matches Some((top, ms)) && first_high(
            samples,
            paid,
            entry_ms,
            top,
            ms,
        ) && top <= if paid > u128::MAX {
            paid
        } else {
            u128::MAX as int
        },
    decreases samples.len(),
{
    if samples.len() > 0 {
        let before = samples.drop_last();
        lemma_high_since_entry(before, paid, entry_ms);
        let (t0, m0) = exits::high(Some((paid, entry_ms)), before)->0;
        let (t, m) = exits::high(Some((paid, entry_ms)), samples)->0;
        let n = before.len() as int;
        assert forall|j: int| 0 <= j < n implies before[j] == #[trigger] samples[j] by {}
        assert(samples[n] == samples.last());
        if t > t0 {
            assert(samples[n].1 == Some(t as u128) && samples[n].0 == m);
        } else if t > paid {
            let k = choose|k: int|
                0 <= k < before.len() && before[k].1 == Some(t as u128) && (
                #[trigger] before[k]).0 == m && forall|j: int|
                    0 <= j < k ==> ((#[trigger] before[j]).1 matches Some(b) ==> b < t);
            assert(samples[k] == before[k]);
            assert forall|j: int| 0 <= j < k implies ((#[trigger] samples[j]).1 matches Some(b)
                ==> b < t) by {
                assert(before[j] == samples[j]);
            }
        }
        assert forall|j: int| 0 <= j < samples.len() implies ((#[trigger] samples[j]).1 matches Some(
            b,
        ) ==> b <= t) by {
            if j < n {
                assert(before[j] == samples[j]);
            }
        }
    }
}

/// There is one first high, so that it is the one that a policy goes by.
proof fn lemma_one_first_high(
    samples: Seq<Sample>,
    paid: int,
    entry_ms: int,
    top: int,
    ms: int,
)
    requires
        0 <= paid <= u128::MAX,
        top <= u128::MAX,
        first_high(samples, paid, entry_ms, top, ms),
    ensures
        exits::high(Some((paid, entry_ms)), samples) == Some((top, ms)),
{
    lemma_high_since_entry(samples, paid, entry_ms);
    let (t, m) = exits::high(Some((paid, entry_ms)), samples)->0;
    if t > paid {
        let k = choose|k: int|
            0 <= k < samples.len() && samples[k].1 == Some(t as u128) && (#[trigger] samples[k]).0
                == m && forall|j: int|
                0 <= j < k ==> ((#[trigger] samples[j]).1 matches Some(b) ==> b < t);
        assert(samples[k].1 matches Some(b) && b == t);
        assert(t <= top);
    }
    if top > paid {
        let l = choose|l: int|
            0 <= l < samples.len() && samples[l].1 == Some(top as u128) && (#[trigger] samples[l]).0
                == ms && forall|j: int|
                0 <= j < l ==> ((#[trigger] samples[j]).1 matches Some(b) ==> b < top);
        assert(samples[l].1 matches Some(b) && b == top);
        assert(top <= t);
        assert(t > paid);
        let k = choose|k: int|
            0 <= k < samples.len() && samples[k].1 == Some(t as u128) && (#[trigger] samples[k]).0
                == m && forall|j: int|
                0 <= j < k ==> ((#[trigger] samples[j]).1 matches Some(b) ==> b < t);
        assert(k == l) by {
            if k < l {
                assert(samples[k].1 matches Some(b) && b < top);
            }
            if l < k {
                assert(samples[l].1 matches Some(b) && b < t);
            }
        }
    }
}

proof fn lemma_high_of_bids(samples: Seq<Sample>)
    ensures
        match exits::high(None, samples) {
            Some((top, _)) => highest_bid(samples, top) && 0 <= top <= u128::MAX,
            None => no_bid(samples),
        },
    decreases samples.len(),
{
    if samples.len() > 0 {
        let before = samples.drop_last();
        lemma_high_of_bids(before);
        let n = before.len() as int;
        assert forall|j: int| 0 <= j < n implies before[j] == #[trigger] samples[j] by {}
        assert(samples[n] == samples.last());
        match exits::high(None, samples) {
            Some((top, _)) => {
                if samples.last().1 == Some(top as u128) {
                    assert(samples[n].1 == Some(top as u128));
                } else {
                    let k = choose|k: int|
                        0 <= k < before.len() && (#[trigger] before[k]).1 == Some(top as u128);
                    assert(samples[k] == before[k]);
                }
                assert forall|j: int| 0 <= j < samples.len() implies ((
                #[trigger] samples[j]).1 matches Some(b) ==> b <= top) by {
                    if j < n {
                        assert(before[j] == samples[j]);
                    }
                }
            },
            None => {
                assert forall|j: int| 0 <= j < samples.len() implies (#[trigger] samples[j]).1
                    is None by {
                    if j < n {
                        assert(before[j] == samples[j]);
                    }
                }
            },
        }
    }
}

proof fn lemma_one_highest_bid(samples: Seq<Sample>, top: int)
    requires
        0 <= top <= u128::MAX,
        highest_bid(samples, top),
    ensures
        exits::high(None, samples) matches Some((t, _)) && t == top,
{
    lemma_high_of_bids(samples);
    let k = choose|k: int| 0 <= k < samples.len() && (#[trigger] samples[k]).1 == Some(top as u128);
    assert(samples[k].1 matches Some(b) && b == top);
    let t = (exits::high(None, samples)->0).0;
    let l = choose|l: int| 0 <= l < samples.len() && (#[trigger] samples[l]).1 == Some(t as u128);
    assert(samples[l].1 matches Some(b) && b == t);
}

/// At least `x` percent of the time from the entry to the exit are over at `ms`; a lot
/// that is held for no time counts as held for a millisecond.
pub open spec fn over_by(p: CollectedPosition, ms: int, x: DecV) -> bool {
    let hold = if p.exit_ts_ms <= p.entry_recv_ms {
        1
    } else {
        p.exit_ts_ms - p.entry_recv_ms
    };
    (ms - p.entry_recv_ms) * (100 * decimal::pow10(x.s)) >= x.m * hold
}

/// `b` is at least `z` percent below `top`.
pub open spec fn below_by(b: int, top: int, z: DecV) -> bool {
    b <= top && b * (100 * decimal::pow10(z.s)) <= top * (100 * decimal::pow10(z.s) - z.m)
}

/// A sample without a price is not sold at, by no policy.
pub proof fn law_nothing_is_sold_without_a_price(p: CollectedPosition, v: ExitVariant, i: int)
    requires
        0 <= i < p.trajectory@.len(),
        p.trajectory@[i].1 is None,
    ensures
        !exits::sells_at(p, v, i),
{
}

/// The touch policy sells at a sample exactly where the price is the given percentage
/// above what was paid.
pub proof fn law_a_touch_is_a_gain(p: CollectedPosition, tp_pct: u64, i: int, b: u128)
    requires
        0 <= i < p.trajectory@.len(),
        p.trajectory@[i].1 == Some(b),
    ensures
        exits::sells_at(p, ExitVariant::FirstTouch { tp_pct }, i) <==> b * 100 >= (p.shares
            * p.entry_price) * (100 + tp_pct),
{
}

/// The policies that wait for a high to grow old go by the first moment of the highest
/// of what was paid and every price up to and with the sample: they sell exactly where
/// that lies the given seconds before the sample, the one of them not before the given
/// part of the time is over.
pub proof fn law_old_highs_are_sold(
    p: CollectedPosition,
    x_pct: Dec,
    y_sec: i64,
    i: int,
    b: u128,
    top: int,
    high_ms: int,
)
    requires
        0 <= i < p.trajectory@.len(),
        p.trajectory@[i].1 == Some(b),
        top <= u128::MAX,
        first_high(
            p.trajectory@.take(i + 1),
            p.shares * p.entry_price,
            p.entry_recv_ms as int,
            top,
            high_ms,
        ),
    ensures
        ({
            let ms = p.trajectory@[i].0 as int;
            let old_enough = ms - high_ms >= 1000 * y_sec;
            &&& exits::sells_at(p, ExitVariant::F6Only { y_sec }, i) <==> old_enough
            &&& exits::sells_at(p, ExitVariant::Smart { x_pct, y_sec }, i) <==> old_enough
                && over_by(p, ms, x_pct@)
        }),
{
    let paid = p.shares * p.entry_price;
    assert(0 <= paid <= u64::MAX * u32::MAX) by (nonlinear_arith)
        requires
            paid == p.shares * p.entry_price,
            0 <= p.shares <= u64::MAX,
            0 <= p.entry_price <= u32::MAX,
    ;
    lemma_one_first_high(p.trajectory@.take(i + 1), paid, p.entry_recv_ms as int, top, high_ms);
}

/// There always is such a first moment.
pub proof fn law_every_sample_has_a_first_high(p: CollectedPosition, i: int) -> (r: (int, int))
    requires
        0 <= i < p.trajectory@.len(),
    ensures
        first_high(
            p.trajectory@.take(i + 1),
            p.shares * p.entry_price,
            p.entry_recv_ms as int,
            r.0,
            r.1,
        ),
        r.0 <= u128::MAX,
{
    let paid = p.shares * p.entry_price;
    assert(0 <= paid <= u64::MAX * u32::MAX) by (nonlinear_arith)
        requires
            paid == p.shares * p.entry_price,
            0 <= p.shares <= u64::MAX,
            0 <= p.entry_price <= u32::MAX,
    ;
    lemma_high_since_entry(p.trajectory@.take(i + 1), paid, p.entry_recv_ms as int);
    exits::high(Some((paid, p.entry_recv_ms as int)), p.trajectory@.take(i + 1))->0
}

/// Nothing is sold at a new high: a sample whose price is above what was paid and
/// above every earlier one is no old high, however long the lot has been held.
pub proof fn law_new_highs_are_held(
    p: CollectedPosition,
    x_pct: Dec,
    y_sec: i64,
    i: int,
    b: u128,
)
    requires
        y_sec > 0,
        0 <= i < p.trajectory@.len(),
        p.trajectory@[i].1 == Some(b),
        b > p.shares * p.entry_price,
        forall|j: int|
            0 <= j < i ==> ((#[trigger] p.trajectory@[j]).1 matches Some(e) ==> e < b),
    ensures
        !exits::sells_at(p, ExitVariant::F6Only { y_sec }, i),
        !exits::sells_at(p, ExitVariant::Smart { x_pct, y_sec }, i),
{
    let now = p.trajectory@.take(i + 1);
    let ms = p.trajectory@[i].0 as int;
    assert(now[i].1 == Some(b) && now[i].0 == ms);
    assert forall|j: int| 0 <= j < i implies ((#[trigger] now[j]).1 matches Some(e) ==> e < b) by {
        assert(now[j] == p.trajectory@[j]);
    }
    law_old_highs_are_sold(p, x_pct, y_sec, i, b, b as int, ms);
}

/// The policies that wait for a fall go by the highest price before the sample: they
/// sell exactly where the price is the given percentage below it, one of them only
/// while the spread is known and small enough, one only once the given part of the time
/// is over.
pub proof fn law_falls_are_sold(
    p: CollectedPosition,
    x_pct: Dec,
    z_pct: Dec,
    max_spread: Num,
    i: int,
    b: u128,
    top: int,
)
    requires
        0 <= i < p.trajectory@.len(),
        p.trajectory@[i].1 == Some(b),
        0 <= top <= u128::MAX,
        highest_bid(p.trajectory@.take(i), top),
    ensures
        ({
            let ms = p.trajectory@[i].0 as int;
            let fallen = below_by(b as int, top, z_pct@);
            let tight = i < p.trajectory_bbo@.len() && (p.trajectory_bbo@[i].1 matches Some(bid)
                && (p.trajectory_bbo@[i].2 matches Some(ask) && match max_spread {
                Num::Finite(m) => decimal::le(decimal::dec(ask - bid, 4), m@),
                Num::Infinite { negative } => !negative,
                Num::NotANumber => false,
            }));
            &&& exits::sells_at(p, ExitVariant::Trailing { z_pct }, i) <==> fallen
            &&& exits::sells_at(p, ExitVariant::SpreadFilteredTrailing { z_pct, max_spread }, i)
                <==> fallen && tight
            &&& exits::sells_at(p, ExitVariant::TimeCappedTrailing { x_pct, z_pct }, i) <==> fallen
                && over_by(p, ms, x_pct@)
        }),
{
    lemma_one_highest_bid(p.trajectory@.take(i), top);
}

/// Before the first price there is nothing to fall from.
pub proof fn law_the_first_price_is_no_fall(
    p: CollectedPosition,
    x_pct: Dec,
    z_pct: Dec,
    max_spread: Num,
    i: int,
)
    requires
        0 <= i < p.trajectory@.len(),
        no_bid(p.trajectory@.take(i)),
    ensures
        !exits::sells_at(p, ExitVariant::Trailing { z_pct }, i),
        !exits::sells_at(p, ExitVariant::SpreadFilteredTrailing { z_pct, max_spread }, i),
        !exits::sells_at(p, ExitVariant::TimeCappedTrailing { x_pct, z_pct }, i),
{
    lemma_high_of_bids(p.trajectory@.take(i));
    let past = p.trajectory@.take(i);
    match exits::high(None, past) {
        Some((top, _)) => {
            let k = choose|k: int|
                0 <= k < past.len() && (#[trigger] past[k]).1 == Some(top as u128);
            assert(past[k].1 is None);
        },
        None => {},
    }
}

proof fn lemma_first(p: CollectedPosition, v: ExitVariant, i: int, n: int)
    requires
        0 <= i < n,
        exits::sells_at(p, v, i),
        forall|j: int| 0 <= j < i ==> !#[trigger] exits::sells_at(p, v, j),
    ensures
        exits::first_sale(p, v, n) == Some(i),
    decreases n,
{
    if n > i + 1 {
        lemma_first(p, v, i, n - 1);
    } else {
        lemma_none(p, v, i);
    }
}

proof fn lemma_none(p: CollectedPosition, v: ExitVariant, n: int)
    requires
        forall|j: int| 0 <= j < n ==> !#[trigger] exits::sells_at(p, v, j),
    ensures
        exits::first_sale(p, v, n) is None,
    decreases n,
{
    if n > 0 {
        lemma_none(p, v, n - 1);
    }
}

/// A lot is sold at the first sample at which its policy sells, at the price of that
/// sample, and the policy is named as the reason.
pub proof fn law_the_first_sale_counts(p: CollectedPosition, v: ExitVariant, i: int)
    requires
        v != ExitVariant::Peak,
        0 <= i < p.trajectory@.len(),
        exits::sells_at(p, v, i),
        forall|j: int| 0 <= j < i ==> !#[trigger] exits::sells_at(p, v, j),
    ensures
        p.trajectory@[i].1 matches Some(b) && exits::exit_of(p, v).0 == b,
        exits::exit_of(p, v).1 == match v {
            ExitVariant::FirstTouch { .. } => ExitReason::TpTouched,
            ExitVariant::Smart { .. } => ExitReason::SmartTriggered,
            ExitVariant::F6Only { .. } => ExitReason::F6Triggered,
            _ => ExitReason::TrailingTriggered,
        },
{
    lemma_first(p, v, i, p.trajectory@.len() as int);
}

/// A lot that its policy does not sell is sold when its time has come, for what can be
/// had then; one that cannot be sold then brings nothing. The policy of no rule always
/// waits for that.
pub proof fn law_unsold_lots_wait_for_their_time(p: CollectedPosition, v: ExitVariant)
    requires
        v != ExitVariant::Peak,
        v == ExitVariant::Baseline || forall|j: int|
            0 <= j < p.trajectory@.len() ==> !#[trigger] exits::sells_at(p, v, j),
    ensures
        exits::exit_of(p, v) == match p.time_exit_bid {
            Some(b) => (b as int, ExitReason::TimeExit),
            None => (0int, ExitReason::Uncoverable),
        },
{
    lemma_none(p, v, p.trajectory@.len() as int);
}

/// The peak is the highest price of all, and nothing where there is none.
pub proof fn law_the_peak_is_the_highest_price(p: CollectedPosition)
    ensures
        ({
            let (v, why) = exits::exit_of(p, ExitVariant::Peak);
            &&& no_bid(p.trajectory@) ==> v == 0 && why == ExitReason::Uncoverable
            &&& !no_bid(p.trajectory@) ==> highest_bid(p.trajectory@, v) && why
                == ExitReason::PeakOpportunity
        }),
{
    lemma_high_of_bids(p.trajectory@);
    match exits::high(None, p.trajectory@) {
        Some((top, _)) => {
            let k = choose|k: int|
                0 <= k < p.trajectory@.len() && (#[trigger] p.trajectory@[k]).1 == Some(
                    top as u128,
                );
            assert(!(p.trajectory@[k].1 is None));
        },
        None => {},
    }
}

} // verus!
