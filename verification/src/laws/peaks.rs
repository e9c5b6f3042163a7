//! What was to be had of a lot while it was held.

use crate::b3_maker;
use crate::backtest::exits::{self, ExitVariant};
use crate::backtest::metrics::{self, VariantTrade};
use crate::backtest::peak::{self, CellPeaks, Measure, PeakReport, PeakStats};
use crate::backtest::position::{self, CollectedPosition};
use crate::backtest::trace::{self, ExitsTraceRow};
use crate::backtest::trajectory::{self, Sample};
use crate::decimal::{self, DecV};
use crate::laws::tallies;
use crate::numeral;
use vstd::prelude::*;

verus! {

/// Sample `i` has the highest price of all, and no earlier one has it.
pub open spec fn is_peak(s: Seq<Sample>, i: int) -> bool {
    &&& 0 <= i < s.len() && s[i].1 is Some
    &&& forall|k: int| 0 <= k < s.len() && (#[trigger] s[k]).1 is Some ==> s[k].1->0 <= s[i].1->0
    &&& forall|k: int| 0 <= k < i && (#[trigger] s[k]).1 is Some ==> s[k].1->0 < s[i].1->0
}

/// No sample has a price.
pub open spec fn no_price(s: Seq<Sample>) -> bool {
    forall|k: int| 0 <= k < s.len() ==> (#[trigger] s[k]).1 is None
}

pub proof fn lemma_peak(s: Seq<Sample>)
    ensures
        match exits::high(None, s) {
            Some((top, at)) => exists|i: int| #[trigger]
                is_peak(s, i) && s[i].1->0 == top && s[i].0 == at,
            None => no_price(s),
        },
    decreases s.len(),
{
    if s.len() > 0 {
        let less = s.drop_last();
        let n = less.len() as int;
        lemma_peak(less);
        assert forall|k: int| 0 <= k < n implies less[k] == #[trigger] s[k] by {}
        let before = exits::high(None, less);
        let (ms, bid) = s.last();
        if bid is Some && (before is None || bid->0 > (before->0).0) {
            if before is Some {
                let i = choose|i: int| #[trigger]
                    is_peak(less, i) && less[i].1->0 == (before->0).0 && less[i].0 == (before->0).1;
                assert forall|k: int| 0 <= k < n && (#[trigger] s[k]).1 is Some implies s[k].1->0
                    < s[n].1->0 by {
                    assert(less[k].1->0 <= less[i].1->0);
                }
            } else {
                assert forall|k: int| 0 <= k < n implies (#[trigger] s[k]).1 is None by {
                    assert(less[k].1 is None);
                }
            }
            assert(is_peak(s, n));
        } else if before is Some {
            let i = choose|i: int| #[trigger]
                is_peak(less, i) && less[i].1->0 == (before->0).0 && less[i].0 == (before->0).1;
            assert(s[i] == less[i]);
            assert forall|k: int| 0 <= k < s.len() && (#[trigger] s[k]).1 is Some implies s[k].1->0
                <= s[i].1->0 by {
                if k < n {
                    assert(less[k].1->0 <= less[i].1->0);
                }
            }
            assert forall|k: int| 0 <= k < i && (#[trigger] s[k]).1 is Some implies s[k].1->0
                < s[i].1->0 by {
                assert(less[k].1->0 < less[i].1->0);
            }
            assert(is_peak(s, i));
        } else {
            assert forall|k: int| 0 <= k < s.len() implies (#[trigger] s[k]).1 is None by {
                if k < n {
                    assert(less[k].1 is None);
                }
            }
        }
    }
}

/// The peak of a lot is the first of its highest prices, with its time.
pub proof fn law_the_peak_is_the_first_highest_price(p: CollectedPosition)
    ensures
        match peak::peak_of(p) {
            Some((top, at)) => exists|i: int| #[trigger]
                is_peak(p.trajectory@, i) && p.trajectory@[i].1->0 == top && p.trajectory@[i].0 == at,
            None => no_price(p.trajectory@),
        },
{
    lemma_peak(p.trajectory@);
}

/// A price of at least nine tenths of the peak.
pub open spec fn in_top_tenth(s: Sample, peak: int) -> bool {
    match s.1 {
        Some(v) => 10 * v >= 9 * peak,
        None => false,
    }
}

/// How long sample `i` lasts: to the next one; the last one to the end of the lot's time.
/// Never less than nothing.
pub open spec fn is_duration(p: CollectedPosition, i: int, ms: int) -> bool {
    let t = p.trajectory@[i].0;
    let next = if i == p.trajectory@.len() - 1 {
        p.exit_ts_ms
    } else {
        p.trajectory@[i + 1].0
    };
    ms == (if next >= t {
        next - t
    } else {
        0
    })
}

/// The time near the peak grows by each sample near it, by as long as that lasts.
pub proof fn law_the_time_near_the_peak_adds_up(p: CollectedPosition, top: int, n: int)
    requires
        0 <= n < p.trajectory@.len(),
    ensures
        peak::near_time(p, top, 0) == 0,
        in_top_tenth(p.trajectory@[n], top) ==> is_duration(
            p,
            n,
            peak::near_time(p, top, n + 1) - peak::near_time(p, top, n),
        ),
        !in_top_tenth(p.trajectory@[n], top) ==> peak::near_time(p, top, n + 1) == peak::near_time(
            p,
            top,
            n,
        ),
{
}

proof fn lemma_near_count(s: Seq<Sample>, top: int, n: int)
    requires
        0 <= n <= s.len(),
    ensures
        peak::near_count(s, top, n) == tallies::places(
            n as nat,
            |i: int| in_top_tenth(s[i], top),
        ).len(),
    decreases n,
{
    reveal(Seq::filter);
    let of = |i: int| in_top_tenth(s[i], top);
    if n > 0 {
        lemma_near_count(s, top, n - 1);
        let all = Seq::new(n as nat, |i: int| i);
        assert(all.drop_last() =~= Seq::new((n - 1) as nat, |i: int| i));
        assert(all.last() == n - 1);
        assert(tallies::places((n - 1) as nat, |i: int| in_top_tenth(s[i], top))
            == tallies::places((n - 1) as nat, of));
    }
}

/// The samples near the peak are counted.
pub proof fn law_samples_near_the_peak_are_counted(s: Seq<Sample>, top: int)
    ensures
        peak::near_count(s, top, s.len() as int) == tallies::places(
            s.len(),
            |i: int| in_top_tenth(s[i], top),
        ).len(),
{
    lemma_near_count(s, top, s.len() as int);
}

/// Of the first `n` samples, `i` is the first near the peak and `j` the last.
pub open spec fn spans(s: Seq<Sample>, top: int, n: int, i: int, j: int) -> bool {
    &&& 0 <= i <= j < n
    &&& first_near(s, top, i)
    &&& in_top_tenth(s[j], top)
    &&& forall|k: int| j < k < n ==> !in_top_tenth(#[trigger] s[k], top)
}

/// The samples near the peak reach from the first of them to the last.
pub proof fn law_the_span_is_from_first_to_last(s: Seq<Sample>, top: int, n: int)
    requires
        0 <= n <= s.len(),
    ensures
        match peak::near_ends(s, top, n) {
            Some((a, b)) => exists|i: int, j: int| #[trigger]
                spans(s, top, n, i, j) && s[i].0 == a && s[j].0 == b,
            None => forall|k: int| 0 <= k < n ==> !in_top_tenth(#[trigger] s[k], top),
        },
    decreases n,
{
    if n > 0 {
        let m = n - 1;
        law_the_span_is_from_first_to_last(s, top, m);
        match peak::near_ends(s, top, m) {
            Some((a, b)) => {
                let (i, j) = choose|i: int, j: int| #[trigger]
                    spans(s, top, m, i, j) && s[i].0 == a && s[j].0 == b;
                if in_top_tenth(s[m], top) {
                    assert(spans(s, top, n, i, m));
                } else {
                    assert(spans(s, top, n, i, j));
                }
            },
            None => {
                if in_top_tenth(s[m], top) {
                    assert(spans(s, top, n, m, m));
                }
            },
        }
    }
}

/// The first sample near the peak.
pub open spec fn first_near(s: Seq<Sample>, top: int, i: int) -> bool {
    in_top_tenth(s[i], top) && forall|k: int| 0 <= k < i ==> !in_top_tenth(#[trigger] s[k], top)
}

/// What is known of a lot: its names and times; what was paid; what the sale at its time
/// and the one at its peak leave, and by how much the latter leaves more, in dollars and
/// in percent of what was paid. The peak counts from the entry.
pub proof fn law_peaks_are_measured_from_the_entry(s: PeakStats, p: CollectedPosition)
    requires
        peak::is_stats(s, p),
    ensures
        s.signal_id@ == p.signal_id@ && s.asset@ == p.asset@ && s.interval@ == p.interval@
            && s.direction@ == p.direction@,
        s.entry_recv_ms == p.entry_recv_ms && s.exit_ts_ms == p.exit_ts_ms,
        s.hold_duration_ms >= 1 && (s.hold_duration_ms == p.exit_ts_ms - p.entry_recv_ms
            || p.exit_ts_ms - p.entry_recv_ms < 1 && s.hold_duration_ms == 1),
        s.shares == p.shares && s.entry_price == p.entry_price && s.stake == p.shares
            * p.entry_price,
        s.total_samples == p.total_samples && s.uncoverable_samples == p.uncoverable_samples,
        s.time_exit_bid == p.time_exit_bid,
        no_price(p.trajectory@) <==> s.peak_bid is None,
        s.peak_bid is None ==> s.peak_offset_ms is None && s.time_in_top_decile_ms == 0
            && s.samples_in_top_decile == 0 && s.top_decile_span_ms == 0 && s.peak_pnl is None
            && s.peak_excess_pnl is None && s.peak_excess_pct_over_stake is None,
        s.peak_bid matches Some(v) ==> {
            &&& exists|i: int| #[trigger]
                is_peak(p.trajectory@, i) && p.trajectory@[i].1 == Some(v) && s.peak_offset_ms
                    == Some((p.trajectory@[i].0 - p.entry_recv_ms) as i64)
            &&& s.samples_in_top_decile == tallies::places(
                p.trajectory@.len(),
                |i: int| in_top_tenth(p.trajectory@[i], v as int),
            ).len()
            &&& s.time_in_top_decile_ms == peak::near_time(p, v as int, p.trajectory@.len() as int)
            &&& decimal::opt(s.peak_pnl) == metrics::lot_net(p, v as int)
        },
        p.time_exit_bid matches Some(v) ==> decimal::opt(s.time_exit_pnl) == metrics::lot_net(
            p,
            v as int,
        ),
        p.time_exit_bid is None ==> s.time_exit_pnl is None && s.peak_excess_pnl is None,
        s.peak_pnl is Some && s.time_exit_pnl is Some ==> decimal::opt(s.peak_excess_pnl)
            == decimal::minus(s.peak_pnl->0@, s.time_exit_pnl->0@),
        s.stake == 0 ==> s.peak_excess_pct_over_stake is None,
{
    let t = p.trajectory@;
    lemma_peak(t);
    match peak::peak_of(p) {
        Some((top, at)) => {
            lemma_near_count(t, top, t.len() as int);
            let i = choose|i: int| #[trigger] is_peak(t, i) && t[i].1->0 == top && t[i].0 == at;
            assert(is_peak(t, i) && t[i].1 == s.peak_bid);
            assert(s.peak_offset_ms == Some((t[i].0 - p.entry_recv_ms) as i64));
            assert(!(t[i].1 is None));
        },
        None => {},
    }
}

/// The excess in percent is a hundred times the excess over what was paid.
pub proof fn law_percents_are_of_the_stake(excess: DecV, stake: int, hundredfold: DecV)
    requires
        stake > 0,
        decimal::times(decimal::dec(100, 0), excess) == Some(hundredfold),
    ensures
        peak::pct_of_stake(Some(excess), stake) == decimal::over(
            hundredfold,
            decimal::dec(stake, 10),
        ),
        peak::pct_of_stake(None, stake) is None,
        peak::pct_of_stake(Some(excess), 0) is None,
{
}

/// The measures of a lot: milliseconds as they are, shares of the holding time in
/// millionths of a percent, and amounts in millionths.
pub proof fn law_measures_are_in_millionths(s: PeakStats)
    requires
        s.hold_duration_ms >= 1,
    ensures
        ({
            let hold = s.hold_duration_ms as int;
            &&& peak::measured(s, Measure::TopMs) == Some(s.time_in_top_decile_ms as int)
            &&& peak::measured(s, Measure::TopPct) matches Some(x) && x * hold
                <= s.time_in_top_decile_ms * 100_000_000 < (x + 1) * hold
            &&& s.peak_offset_ms is None ==> peak::measured(s, Measure::OffsetMs) is None
                && peak::measured(s, Measure::OffsetPct) is None
            &&& s.peak_offset_ms matches Some(o) ==> {
                &&& peak::measured(s, Measure::OffsetMs) == Some(o as int)
                &&& peak::measured(s, Measure::OffsetPct) matches Some(x) && x * hold <= o
                    * 100_000_000 < (x + 1) * hold
            }
            &&& match s.peak_excess_pnl {
                Some(d) => peak::measured(s, Measure::ExcessPnl) == Some(
                    numeral::signed_units(d@, 1_000_000),
                ),
                None => peak::measured(s, Measure::ExcessPnl) is None,
            }
            &&& match s.peak_excess_pct_over_stake {
                Some(d) => peak::measured(s, Measure::ExcessPct) == Some(
                    numeral::signed_units(d@, 1_000_000),
                ),
                None => peak::measured(s, Measure::ExcessPct) is None,
            }
        }),
{
    let hold = s.hold_duration_ms as int;
    lemma_floor(s.time_in_top_decile_ms * 100_000_000, hold);
    if let Some(o) = s.peak_offset_ms {
        lemma_floor(o * 100_000_000, hold);
    }
}

proof fn lemma_floor(a: int, b: int)
    requires
        b >= 1,
    ensures
        (a / b) * b <= a < (a / b + 1) * b,
{
    vstd::arithmetic::div_mod::lemma_fundamental_div_mod(a, b);
    vstd::arithmetic::div_mod::lemma_mod_bound(a, b);
    let q = a / b;
    assert(b * q == q * b && (q + 1) * b == q * b + b) by (nonlinear_arith);
}

/// The lot has a peak and is of the cell, or of any.
pub open spec fn has_peak(s: PeakStats, cell: Option<Seq<char>>) -> bool {
    s.peak_bid is Some && (cell matches Some(c) ==> s.asset@.push('_') + s.interval@ == c)
}

proof fn lemma_counts(s: PeakStats, cell: Option<Seq<char>>)
    ensures
        peak::counts(s, cell) == has_peak(s, cell),
{
    reveal_strlit("_");
    assert(b3_maker::cell_name(s.asset@, s.interval@) =~= s.asset@.push('_') + s.interval@);
}

/// The lots with a peak are counted, and their measures are listed as they come.
pub proof fn law_measures_are_of_lots_with_a_peak(
    stats: Seq<PeakStats>,
    m: Measure,
    cell: Option<Seq<char>>,
)
    ensures
        peak::counted(stats, cell) == stats.filter(|s: PeakStats| has_peak(s, cell)).len(),
        peak::measures(stats, m, cell) == stats.filter(
            |s: PeakStats| has_peak(s, cell) && peak::measured(s, m) is Some,
        ).map_values(|s: PeakStats| peak::measured(s, m)->0),
    decreases stats.len(),
{
    reveal(Seq::filter);
    let of = |s: PeakStats| has_peak(s, cell) && peak::measured(s, m) is Some;
    let value = |s: PeakStats| peak::measured(s, m)->0;
    if stats.len() > 0 {
        law_measures_are_of_lots_with_a_peak(stats.drop_last(), m, cell);
        lemma_counts(stats.last(), cell);
        let before = stats.drop_last().filter(of);
        assert(before.push(stats.last()).map_values(value) =~= before.map_values(value).push(
            value(stats.last()),
        ));
    } else {
        assert(stats.filter(of).map_values(value) =~= Seq::empty());
    }
}

/// Between two neighbours a quantile goes up evenly: it is as far from the lower one as
/// its place is.
pub proof fn law_quantiles_lie_evenly(s: Seq<int>, q: int)
    requires
        s.len() > 0,
        0 <= q <= 100,
    ensures
        ({
            let place = q * (s.len() - 1);
            let lo = place / 100;
            &&& 0 <= lo < s.len()
            &&& place == lo * 100 ==> peak::quantile(s, q) == s[lo] * 100
            &&& place > lo * 100 ==> peak::quantile(s, q) == s[lo] * 100 + (s[lo + 1] - s[lo]) * (
            place - lo * 100)
        }),
        peak::quantile(s, 0) == s[0] * 100,
        peak::quantile(s, 100) == s.last() * 100,
        peak::quantile(Seq::empty(), q) == 0,
{
    let n = s.len() - 1;
    let place = q * n;
    assert(0 <= place <= 100 * n) by (nonlinear_arith)
        requires
            0 <= q <= 100,
            n >= 0,
            place == q * n,
    ;
    let (lo, rest) = (place / 100, place % 100);
    if rest != 0 {
        let (a, b) = (s[lo], s[lo + 1]);
        assert(a * (100 - rest) + b * rest == a * 100 + (b - a) * rest) by (nonlinear_arith);
    }
    assert(0 * n == 0) by (nonlinear_arith);
    assert((100 * n) / 100 == n && (100 * n) % 100 == 0);
}

/// A share of the holding time lies in its tenth: the first for what is below, the last
/// for all of it and more.
pub proof fn law_shares_lie_in_their_tenth(v: int)
    ensures
        ({
            let b = peak::bucket_of(v);
            &&& 0 <= b <= 10
            &&& 0 <= v < 100_000_000 ==> b * 10_000_000 <= v < (b + 1) * 10_000_000
            &&& v < 0 ==> b == 0
            &&& v >= 100_000_000 <==> b == 10
        }),
{
}

/// The shares in a tenth are counted.
pub proof fn law_shares_in_a_tenth_are_counted(s: Seq<int>, b: int)
    ensures
        peak::in_bucket(s, b) == s.filter(|v: int| peak::bucket_of(v) == b).len(),
    decreases s.len(),
{
    reveal(Seq::filter);
    if s.len() > 0 {
        law_shares_in_a_tenth_are_counted(s.drop_last(), b);
    }
}

/// The peak was at least so many percent of the stake above the sale at the lot's time.
pub open spec fn is_high(s: PeakStats, k: int) -> bool {
    s.peak_bid is Some && match s.peak_excess_pct_over_stake {
        Some(d) => k * decimal::pow10(d@.s) <= d@.m,
        None => k <= 0,
    }
}

/// The lots with a high peak are counted; of what is not known nothing counts.
pub proof fn law_high_peaks_are_counted(stats: Seq<PeakStats>, k: int)
    ensures
        peak::significant(stats, k) == stats.filter(|s: PeakStats| is_high(s, k)).len(),
    decreases stats.len(),
{
    reveal(Seq::filter);
    assert(decimal::pow10(0) == 1);
    if stats.len() > 0 {
        law_high_peaks_are_counted(stats.drop_last(), k);
        if stats.last().peak_excess_pct_over_stake is Some {
            let d = stats.last().peak_excess_pct_over_stake->0@;
            let m = d.m;
            assert(m * 1 == m);
        }
    }
}

/// The report is on all lots: how many there are and how many have a peak; every measure
/// of those in ascending order; how many lie in each tenth; and how many are high by 5,
/// 10, 20, 50 and 100 percent.
pub proof fn law_the_report_is_on_all_lots(r: PeakReport, stats: Seq<PeakStats>)
    requires
        peak::is_report(r, stats),
    ensures
        r.n_total == stats.len(),
        r.n_coverable == stats.filter(|s: PeakStats| has_peak(s, None)).len(),
        sorts(r.offset_pct@, stats, Measure::OffsetPct, None),
        sorts(r.offset_ms@, stats, Measure::OffsetMs, None),
        sorts(r.excess_pnl@, stats, Measure::ExcessPnl, None),
        sorts(r.excess_pct@, stats, Measure::ExcessPct, None),
        sorts(r.top_pct@, stats, Measure::TopPct, None),
        sorts(r.top_ms@, stats, Measure::TopMs, None),
        r.offset_buckets@.len() == 11 && r.top_buckets@.len() == 11,
        forall|i: int|
            0 <= i < 11 ==> #[trigger] r.offset_buckets@[i] == peak::in_bucket(
                peak::ints(r.offset_pct@),
                i,
            ),
        forall|i: int|
            0 <= i < 11 ==> #[trigger] r.top_buckets@[i] == peak::in_bucket(
                peak::ints(r.top_pct@),
                i,
            ),
        r.significant@.len() == 5,
        r.significant@[0] == stats.filter(|s: PeakStats| is_high(s, 5)).len(),
        r.significant@[1] == stats.filter(|s: PeakStats| is_high(s, 10)).len(),
        r.significant@[2] == stats.filter(|s: PeakStats| is_high(s, 20)).len(),
        r.significant@[3] == stats.filter(|s: PeakStats| is_high(s, 50)).len(),
        r.significant@[4] == stats.filter(|s: PeakStats| is_high(s, 100)).len(),
        forall|i: int|
            0 <= i < r.by_cell@.len() ==> is_report_on(
                (#[trigger] r.by_cell@[i]).1,
                stats,
                r.by_cell@[i].0@,
            ),
{
    law_measures_are_of_lots_with_a_peak(stats, Measure::OffsetPct, None);
    law_high_peaks_are_counted(stats, 5);
    law_high_peaks_are_counted(stats, 10);
    law_high_peaks_are_counted(stats, 20);
    law_high_peaks_are_counted(stats, 50);
    law_high_peaks_are_counted(stats, 100);
    assert forall|i: int| 0 <= i < r.by_cell@.len() implies is_report_on(
        (#[trigger] r.by_cell@[i]).1,
        stats,
        r.by_cell@[i].0@,
    ) by {
        law_measures_are_of_lots_with_a_peak(stats, Measure::OffsetPct, Some(r.by_cell@[i].0@));
    }
}

/// The list holds a measure of the lots, in ascending order.
pub open spec fn sorts(
    list: Seq<i128>,
    stats: Seq<PeakStats>,
    m: Measure,
    cell: Option<Seq<char>>,
) -> bool {
    peak::ints(list) == peak::ascending(peak::measures(stats, m, cell))
}

/// The report on one cell is on its lots.
pub open spec fn is_report_on(c: CellPeaks, stats: Seq<PeakStats>, cell: Seq<char>) -> bool {
    &&& c.n == stats.filter(|s: PeakStats| has_peak(s, Some(cell))).len()
    &&& sorts(c.offset_pct@, stats, Measure::OffsetPct, Some(cell))
    &&& sorts(c.top_pct@, stats, Measure::TopPct, Some(cell))
    &&& sorts(c.excess_pnl@, stats, Measure::ExcessPnl, Some(cell))
    &&& sorts(c.excess_pct@, stats, Measure::ExcessPct, Some(cell))
}

/// A cell is reported on where a lot of it has a peak.
pub proof fn law_cells_with_a_peak_are_reported_on(stats: Seq<PeakStats>, name: Seq<char>)
    ensures
        peak::is_peak_cell(stats, name) <==> exists|i: int|
            0 <= i < stats.len() && has_peak(#[trigger] stats[i], Some(name)),
{
    assert forall|i: int| 0 <= i < stats.len() implies has_peak(#[trigger] stats[i], Some(name)) == (
    stats[i].peak_bid is Some && b3_maker::cell_name(stats[i].asset@, stats[i].interval@) == name) by {
        lemma_counts(stats[i], Some(name));
    }
}

/// The samples up to a moment are the first ones, all before it; the next is not.
pub proof fn law_samples_up_to_a_moment(samples: Seq<Sample>, end: int)
    ensures
        ({
            let n = trajectory::until(samples, end).len() as int;
            &&& n <= samples.len()
            &&& trajectory::until(samples, end) == samples.take(n)
            &&& forall|i: int| 0 <= i < n ==> (#[trigger] samples[i]).0 < end
            &&& n < samples.len() ==> samples[n].0 >= end
        }),
    decreases samples.len(),
{
    if samples.len() > 0 && samples[0].0 < end {
        let rest = samples.drop_first();
        law_samples_up_to_a_moment(rest, end);
        let m = trajectory::until(rest, end).len() as int;
        assert(trajectory::until(samples, end) =~= samples.take(m + 1)) by {
            assert(samples.take(m + 1) =~= seq![samples[0]] + rest.take(m));
        }
        assert forall|i: int| 0 <= i < m + 1 implies (#[trigger] samples[i]).0 < end by {
            if i > 0 {
                assert(rest[i - 1] == samples[i]);
            }
        }
        assert(m < rest.len() ==> rest[m] == samples[m + 1]);
    } else {
        assert(trajectory::until(samples, end) =~= samples.take(0));
    }
}

/// What is to be had at a moment is what the first sample says that is not before it.
pub proof fn law_the_next_sample_tells(samples: Seq<Sample>, target: int, i: int)
    requires
        0 <= i <= samples.len(),
        forall|k: int| 0 <= k < i ==> (#[trigger] samples[k]).0 < target,
        i < samples.len() ==> samples[i].0 >= target,
    ensures
        i < samples.len() ==> trajectory::value_at(samples, target) == samples[i].1,
        i == samples.len() ==> trajectory::value_at(samples, target) is None,
{
    law_samples_up_to_a_moment(samples, target);
    let n = trajectory::until(samples, target).len() as int;
    if n < i {
        assert(samples[n].0 < target);
    } else if i < n {
        assert(samples[i].0 < target);
    }
}

/// The window holds the samples from the entry on and before its end, in their order.
pub proof fn law_the_window_begins_at_the_entry(
    samples: Seq<Sample>,
    entry_recv_ms: i64,
    window_s: i64,
)
    ensures
        trajectory::window(samples, entry_recv_ms, window_s) == samples.filter(
            |s: Sample|
                entry_recv_ms <= s.0 && s.0 - entry_recv_ms < 1000 * window_s,
        ),
{
    let of = |s: Sample| entry_recv_ms <= s.0 && s.0 - entry_recv_ms < 1000 * window_s;
    lemma_between(samples, entry_recv_ms as int, trajectory::moment(entry_recv_ms, window_s), of);
}

proof fn lemma_between(samples: Seq<Sample>, start: int, end: int, of: spec_fn(Sample) -> bool)
    requires
        forall|s: Sample| #[trigger] of(s) == (start <= s.0 < end),
    ensures
        trajectory::between(samples, start, end) == samples.filter(of),
    decreases samples.len(),
{
    reveal(Seq::filter);
    if samples.len() > 0 {
        lemma_between(samples.drop_last(), start, end, of);
        assert(of(samples.last()) == (start <= samples.last().0 < end));
    }
}

/// The value beats every earlier one: it is higher, or it is lower.
pub open spec fn beats_all(rising: bool, samples: Seq<Sample>, v: u128) -> bool {
    forall|k: int|
        0 <= k < samples.len() && (#[trigger] samples[k]).1 is Some ==> if rising {
            v > samples[k].1->0
        } else {
            v < samples[k].1->0
        }
}

/// A sample is marked where its value beats all earlier ones, with its time from the
/// entry.
pub proof fn law_marks_are_new_records(
    rising: bool,
    samples: Seq<Sample>,
    entry_recv_ms: i64,
    s: Sample,
)
    ensures
        trajectory::marks(rising, Seq::empty(), entry_recv_ms).len() == 0,
        ({
            let before = trajectory::marks(rising, samples, entry_recv_ms);
            let after = trajectory::marks(rising, samples.push(s), entry_recv_ms);
            match s.1 {
                Some(v) if beats_all(rising, samples, v) => after == before.push(
                    (s.0 - entry_recv_ms, v as int),
                ),
                _ => after == before,
            }
        }),
{
    assert(samples.push(s).drop_last() =~= samples);
    trajectory::law_marks_improve_to_the_best(rising, samples, entry_recv_ms);
    let before = trajectory::marks(rising, samples, entry_recv_ms);
    if let Some(v) = s.1 {
        if before.len() > 0 {
            let m = before[before.len() - 1];
            assert(trajectory::is_sample(samples, entry_recv_ms, m));
            let i = choose|i: int|
                0 <= i < samples.len() && (#[trigger] samples[i]).0 - entry_recv_ms == m.0
                    && samples[i].1 is Some && samples[i].1->0 == m.1;
            if trajectory::better(rising, v as int, m.1) {
                assert forall|k: int| 0 <= k < samples.len() && (#[trigger] samples[k]).1 is Some implies if rising {
                    v > samples[k].1->0
                } else {
                    v < samples[k].1->0
                } by {
                    assert(!trajectory::better(rising, samples[k].1->0 as int, m.1));
                }
            } else {
                assert(!beats_all(rising, samples, v));
            }
        } else {
            assert forall|k: int| 0 <= k < samples.len() implies (#[trigger] samples[k]).1 is None by {}
        }
    }
}

/// The extreme of a window is its last mark: the value, and when it was reached first.
pub proof fn law_the_extreme_is_the_last_mark(
    rising: bool,
    samples: Seq<Sample>,
    entry_recv_ms: i64,
)
    ensures
        match trajectory::extreme(rising, samples, entry_recv_ms) {
            Some((v, ms)) => {
                &&& trajectory::marks(rising, samples, entry_recv_ms).len() > 0
                &&& trajectory::marks(rising, samples, entry_recv_ms).last() == (ms, v)
                &&& forall|k: int|
                    0 <= k < samples.len() && (#[trigger] samples[k]).1 is Some ==> if rising {
                        samples[k].1->0 <= v
                    } else {
                        samples[k].1->0 >= v
                    }
            },
            None => no_price(samples),
        },
{
    trajectory::law_marks_improve_to_the_best(rising, samples, entry_recv_ms);
    let m = trajectory::marks(rising, samples, entry_recv_ms);
    assert forall|k: int| 0 <= k < samples.len() && (#[trigger] samples[k]).1 is Some implies m.len()
        > 0 && (if rising {
        samples[k].1->0 <= m.last().1
    } else {
        samples[k].1->0 >= m.last().1
    }) by {
        assert(!trajectory::better(rising, samples[k].1->0 as int, m.last().1));
    }
}

/// A trace has the lot as it was sold at its time, what was to be had of it 5, 15, 30, 60
/// and 120 seconds after its entry, and the records of the first two minutes.
pub proof fn law_a_trace_looks_at_two_minutes(r: ExitsTraceRow<'_>, p: CollectedPosition)
    requires
        trace::is_trace(r, p),
    ensures
        ({
            let e = p.entry_recv_ms as int;
            let first = p.trajectory@.filter(
                |s: Sample| p.entry_recv_ms <= s.0 && s.0 - p.entry_recv_ms < 120_000,
            );
            &&& *r.position == p
            &&& exists|t: VariantTrade<'_>| #[trigger]
                metrics::is_trade(t, p, ExitVariant::Baseline) && r.baseline_exit_price@
                    == t.exit_price@ && r.baseline_net_pnl@ == t.net_pnl@ && r.baseline_exit_reason
                    == t.exit_reason
            &&& r.bid_at_5s == trajectory::value_at(p.trajectory@, e + 5_000)
            &&& r.bid_at_15s == trajectory::value_at(p.trajectory@, e + 15_000)
            &&& r.bid_at_30s == trajectory::value_at(p.trajectory@, e + 30_000)
            &&& r.bid_at_60s == trajectory::value_at(p.trajectory@, e + 60_000)
            &&& r.bid_at_120s == trajectory::value_at(p.trajectory@, e + 120_000)
            &&& trajectory::plain(r.hwm_120s@) == trajectory::marks(true, first, p.entry_recv_ms)
            &&& trajectory::plain(r.lwm_120s@) == trajectory::marks(false, first, p.entry_recv_ms)
            &&& match trajectory::extreme(true, first, p.entry_recv_ms) {
                Some((v, ms)) => r.max_bid_120s matches Some((w, at)) && w == v && at == ms,
                None => r.max_bid_120s is None,
            }
            &&& match trajectory::extreme(false, first, p.entry_recv_ms) {
                Some((v, ms)) => r.min_bid_120s matches Some((w, at)) && w == v && at == ms,
                None => r.min_bid_120s is None,
            }
        }),
{
    let of = |s: Sample| p.entry_recv_ms <= s.0 && s.0 - p.entry_recv_ms < 120_000;
    lemma_between(
        p.trajectory@,
        p.entry_recv_ms as int,
        trajectory::moment(p.entry_recv_ms, 120),
        of,
    );
    let t = choose|t: VariantTrade<'_>| #[trigger]
        metrics::is_trade(t, p, ExitVariant::Baseline) && trace::is_row(r, t);
    assert(metrics::is_trade(t, p, ExitVariant::Baseline));
}

} // verus!
