//! The shape of the best price that each lot saw.

use crate::b3_maker::{self, cell_label};
use crate::backtest::exits;
use crate::backtest::metrics::{self, lot_pnl};
use crate::backtest::position::{self, CollectedPosition};
use crate::backtest::trajectory::{self, Sample};
use crate::decimal::{self, div_amounts, mul_amounts, sub_amounts, Dec, DecV};
use crate::numeral::{self, to_signed_units};
use crate::text::{self, same_text};
use vstd::prelude::*;

verus! {

/// A lot, and what is known of its best price. Amounts are `None` where they are
/// not known or out of range.
#[derive(Debug, Clone)]
pub struct PeakStats {
    pub signal_id: String,
    pub asset: String,
    pub interval: String,
    pub direction: String,
    pub entry_recv_ms: i64,
    pub exit_ts_ms: i64,
    /// At least one millisecond.
    pub hold_duration_ms: i64,
    pub shares: u64,
    pub entry_price: u32,
    /// What was paid, in units of 1e-10 dollars.
    pub stake: u128,
    pub time_exit_bid: Option<u128>,
    pub time_exit_pnl: Option<Dec>,
    pub peak_bid: Option<u128>,
    pub peak_pnl: Option<Dec>,
    pub peak_offset_ms: Option<i64>,
    /// How long the price was at nine tenths of the peak or above.
    pub time_in_top_decile_ms: i64,
    pub samples_in_top_decile: usize,
    /// From the first such sample to the last.
    pub top_decile_span_ms: i64,
    /// What the peak would have left above the sale at the lot's time.
    pub peak_excess_pnl: Option<Dec>,
    pub peak_excess_pct_over_stake: Option<Dec>,
    pub total_samples: usize,
    pub uncoverable_samples: usize,
}

/// A sample at nine tenths of the peak or above.
pub open spec fn near(s: Sample, peak: int) -> bool {
    s.1 matches Some(v) && v * 10 >= peak * 9
}

/// How long a sample holds: until the next one, the last one until the lot's
/// time.
pub open spec fn lasts(p: CollectedPosition, i: int) -> int {
    let t = p.trajectory@[i].0;
    let next = if i + 1 < p.trajectory@.len() {
        p.trajectory@[i + 1].0 as int
    } else if p.exit_ts_ms < t {
        t as int
    } else {
        p.exit_ts_ms as int
    };
    if next - t < 0 {
        0
    } else {
        next - t
    }
}

/// How long the first `n` samples near the peak hold.
pub open spec fn near_time(p: CollectedPosition, peak: int, n: int) -> int
    decreases n,
{
    if n <= 0 {
        0
    } else {
        near_time(p, peak, n - 1) + (if near(p.trajectory@[n - 1], peak) {
            lasts(p, n - 1)
        } else {
            0
        })
    }
}

/// How many of the first `n` samples are near the peak.
pub open spec fn near_count(s: Seq<Sample>, peak: int, n: int) -> nat
    decreases n,
{
    if n <= 0 {
        0
    } else {
        near_count(s, peak, n - 1) + (if near(s[n - 1], peak) {
            1nat
        } else {
            0nat
        })
    }
}

/// The times of the first and of the last of the first `n` samples that are near
/// the peak.
pub open spec fn near_ends(s: Seq<Sample>, peak: int, n: int) -> Option<(int, int)>
    decreases n,
{
    if n <= 0 {
        None
    } else {
        let before = near_ends(s, peak, n - 1);
        if near(s[n - 1], peak) {
            match before {
                Some((a, _)) => Some((a, s[n - 1].0 as int)),
                None => Some((s[n - 1].0 as int, s[n - 1].0 as int)),
            }
        } else {
            before
        }
    }
}

/// The best price of a lot, with its time.
pub open spec fn peak_of(p: CollectedPosition) -> Option<(int, int)> {
    exits::high(None, p.trajectory@)
}

/// Every span of time in the lot's life fits its type.
pub open spec fn times_fit(p: CollectedPosition) -> bool {
    &&& p.exit_ts_ms - p.entry_recv_ms <= i64::MAX
    &&& trajectory::offsets_fit(p.trajectory@, p.entry_recv_ms)
    &&& forall|i: int, j: int|
        0 <= i < p.trajectory@.len() && 0 <= j < p.trajectory@.len() ==> (#[trigger] p.trajectory@[j]).0
            - (#[trigger] p.trajectory@[i]).0 <= i64::MAX
    &&& forall|i: int|
        0 <= i < p.trajectory@.len() ==> p.exit_ts_ms - (#[trigger] p.trajectory@[i]).0 <= i64::MAX
    &&& peak_of(p) matches Some((top, _)) ==> near_time(p, top, p.trajectory@.len() as int)
        <= i64::MAX
}

/// What the sale at a value leaves, where there is one.
pub open spec fn pnl_at(p: CollectedPosition, value: Option<u128>) -> Option<DecV> {
    match value {
        Some(v) => metrics::lot_net(p, v as int),
        None => None,
    }
}

/// The excess in percent of the stake.
pub open spec fn pct_of_stake(excess: Option<DecV>, stake: int) -> Option<DecV> {
    if stake > 0 {
        decimal::o_over(
            decimal::o_times(Some(decimal::dec(100, 0)), excess),
            Some(decimal::dec(stake, 10)),
        )
    } else {
        None
    }
}

/// What is known of a lot's best price.
pub open spec fn is_stats(s: PeakStats, p: CollectedPosition) -> bool {
    let n = p.trajectory@.len() as int;
    let excess = decimal::o_minus(pnl_at(p, s.peak_bid), pnl_at(p, p.time_exit_bid));
    &&& s.signal_id@ == p.signal_id@
    &&& s.asset@ == p.asset@
    &&& s.interval@ == p.interval@
    &&& s.direction@ == p.direction@
    &&& s.entry_recv_ms == p.entry_recv_ms
    &&& s.exit_ts_ms == p.exit_ts_ms
    &&& s.hold_duration_ms == exits::hold_ms(p)
    &&& s.shares == p.shares
    &&& s.entry_price == p.entry_price
    &&& s.stake == position::cost(p)
    &&& s.time_exit_bid == p.time_exit_bid
    &&& decimal::opt(s.time_exit_pnl) == pnl_at(p, p.time_exit_bid)
    &&& decimal::opt(s.peak_pnl) == pnl_at(p, s.peak_bid)
    &&& decimal::opt(s.peak_excess_pnl) == excess
    &&& decimal::opt(s.peak_excess_pct_over_stake) == pct_of_stake(excess, position::cost(p))
    &&& s.total_samples == p.total_samples
    &&& s.uncoverable_samples == p.uncoverable_samples
    &&& match peak_of(p) {
        Some((top, at)) => {
            &&& s.peak_bid matches Some(v) && v == top
            &&& s.peak_offset_ms matches Some(o) && o == at - p.entry_recv_ms
            &&& s.time_in_top_decile_ms == near_time(p, top, n)
            &&& s.samples_in_top_decile == near_count(p.trajectory@, top, n)
            &&& near_ends(p.trajectory@, top, n) matches Some((a, b)) && s.top_decile_span_ms == (
            if b - a < 0 {
                0
            } else {
                b - a
            })
        },
        None => {
            &&& s.peak_bid is None
            &&& s.peak_offset_ms is None
            &&& s.time_in_top_decile_ms == 0
            &&& s.samples_in_top_decile == 0
            &&& s.top_decile_span_ms == 0
        },
    }
}

proof fn lemma_near_time_grows(p: CollectedPosition, peak: int, i: int, n: int)
    requires
        0 <= i <= n,
    ensures
        0 <= near_time(p, peak, i) <= near_time(p, peak, n),
    decreases n,
{
    if i < n {
        lemma_near_time_grows(p, peak, i, n - 1);
    } else if n > 0 {
        lemma_near_time_grows(p, peak, n - 1, n - 1);
    }
}

/// The peak is one of the samples, and is near itself.
proof fn lemma_peak_is_near(samples: Seq<Sample>, n: int) -> (i: int)
    requires
        0 <= n <= samples.len(),
        exits::high(None, samples.take(n)) is Some,
    ensures
        0 <= i < n,
        samples[i].1 is Some,
        samples[i].1->0 == (exits::high(None, samples.take(n))->0).0,
        samples[i].0 == (exits::high(None, samples.take(n))->0).1,
        near_ends(samples, (exits::high(None, samples.take(n))->0).0, n) is Some,
    decreases n,
{
    let s = samples.take(n);
    if n == 0 {
        assert(s =~= Seq::empty());
        0
    } else {
        assert(s.drop_last() =~= samples.take(n - 1));
        assert(s.last() == samples[n - 1]);
        let before = exits::high(None, samples.take(n - 1));
        let now = exits::high(None, s);
        if now == before {
            let k = lemma_peak_is_near(samples, n - 1);
            lemma_near_ends_some(samples, (now->0).0, k, n);
            k
        } else {
            lemma_near_ends_some(samples, (now->0).0, n - 1, n);
            n - 1
        }
    }
}

proof fn lemma_near_ends_some(samples: Seq<Sample>, peak: int, i: int, n: int)
    requires
        0 <= i < n <= samples.len(),
        near(samples[i], peak),
    ensures
        near_ends(samples, peak, n) is Some,
    decreases n,
{
    if i < n - 1 {
        lemma_near_ends_some(samples, peak, i, n - 1);
    }
}

proof fn lemma_ends_are_samples(samples: Seq<Sample>, peak: int, n: int)
    requires
        0 <= n <= samples.len(),
    ensures
        near_ends(samples, peak, n) matches Some((a, b)) ==> {
            &&& exists|i: int| 0 <= i < n && (#[trigger] samples[i]).0 == a
            &&& exists|i: int| 0 <= i < n && (#[trigger] samples[i]).0 == b
        },
    decreases n,
{
    if n > 0 {
        lemma_ends_are_samples(samples, peak, n - 1);
        assert(samples[n - 1].0 == samples[n - 1].0);
    }
}

struct Near {
    time: i64,
    count: usize,
    span: i64,
}

fn measure_near(p: &CollectedPosition, peak: u128) -> (r: Near)
    requires
        p.wf(),
        times_fit(*p),
        peak <= p.shares * u32::MAX,
        peak_of(*p) matches Some((top, _)) && top == peak,
        near_ends(p.trajectory@, peak as int, p.trajectory@.len() as int) is Some,
    ensures
        r.time == near_time(*p, peak as int, p.trajectory@.len() as int),
        r.count == near_count(p.trajectory@, peak as int, p.trajectory@.len() as int),
        near_ends(p.trajectory@, peak as int, p.trajectory@.len() as int) matches Some((a, b)) && r.span
            == (if b - a < 0 {
            0
        } else {
            b - a
        }),
{
    let n: usize = p.trajectory.len();
    let mut time: i64 = 0;
    let mut count: usize = 0;
    let mut first: Option<i64> = None;
    let mut last: i64 = 0;
    let mut i: usize = 0;
    proof {
        assert(p.shares * u32::MAX <= u64::MAX * u32::MAX) by (nonlinear_arith)
            requires
                0 <= p.shares <= u64::MAX,
        ;
    }
    while i < n
        invariant
            i <= n,
            n == p.trajectory@.len(),
            p.wf(),
            times_fit(*p),
            peak_of(*p) matches Some((top, _)) && top == peak,
            peak <= 0x1_0000_0000_0000_0000_0000_0000,
            p.shares * u32::MAX <= 0x1_0000_0000_0000_0000_0000_0000,
            time == near_time(*p, peak as int, i as int),
            count == near_count(p.trajectory@, peak as int, i as int),
            count <= i,
            match first {
                Some(a) => near_ends(p.trajectory@, peak as int, i as int) == Some(
                    (a as int, last as int),
                ),
                None => near_ends(p.trajectory@, peak as int, i as int) is None,
            },
        decreases n - i,
    {
        let (ms, bid) = p.trajectory[i];
        proof {
            assert(position::possible(*p, p.trajectory@[i as int].1));
            lemma_near_time_grows(*p, peak as int, i + 1, n as int);
        }
        let close_by = match bid {
            Some(v) => v * 10 >= peak * 9,
            None => false,
        };
        if close_by {
            count += 1;
            if first.is_none() {
                first = Some(ms);
            }
            last = ms;
            let next: i64 = if i + 1 < n {
                p.trajectory[i + 1].0
            } else if p.exit_ts_ms < ms {
                ms
            } else {
                p.exit_ts_ms
            };
            let gap: i64 = if next < ms {
                0
            } else {
                next - ms
            };
            time = time + gap;
        }
        i += 1;
    }
    proof {
        lemma_ends_are_samples(p.trajectory@, peak as int, n as int);
    }
    let span: i64 = match first {
        Some(a) => {
            if last < a {
                0
            } else {
                proof {
                    let x = choose|x: int|
                        0 <= x < p.trajectory@.len() && (#[trigger] p.trajectory@[x]).0 == a;
                    let y = choose|y: int|
                        0 <= y < p.trajectory@.len() && (#[trigger] p.trajectory@[y]).0 == last;
                    assert(p.trajectory@[y].0 - p.trajectory@[x].0 <= i64::MAX);
                }
                last - a
            }
        },
        None => 0,
    };
    Near { time, count, span }
}

fn find_peak(p: &CollectedPosition) -> (r: Option<(u128, i64)>)
    requires
        p.wf(),
    ensures
        match r {
            Some((v, ms)) => peak_of(*p) == Some((v as int, ms as int)) && v <= p.shares * u32::MAX,
            None => peak_of(*p) is None,
        },
{
    let mut best: Option<(u128, i64)> = None;
    let mut i: usize = 0;
    proof {
        assert(p.trajectory@.take(0) =~= Seq::empty());
    }
    while i < p.trajectory.len()
        invariant
            i <= p.trajectory@.len(),
            p.wf(),
            match best {
                Some((v, ms)) => exits::high(None, p.trajectory@.take(i as int)) == Some(
                    (v as int, ms as int),
                ) && v <= p.shares * u32::MAX,
                None => exits::high(None, p.trajectory@.take(i as int)) is None,
            },
        decreases p.trajectory@.len() - i,
    {
        let (ms, bid) = p.trajectory[i];
        proof {
            assert(p.trajectory@.take(i + 1).drop_last() =~= p.trajectory@.take(i as int));
            assert(p.trajectory@.take(i + 1).last() == p.trajectory@[i as int]);
            assert(position::possible(*p, p.trajectory@[i as int].1));
        }
        match bid {
            Some(v) => {
                let higher = match best {
                    Some((b, _)) => v > b,
                    None => true,
                };
                if higher {
                    best = Some((v, ms));
                }
            },
            None => {},
        }
        i += 1;
    }
    proof {
        assert(p.trajectory@.take(i as int) =~= p.trajectory@);
    }
    best
}

/// What is known of a lot's best price.
pub fn characterize_position(p: &CollectedPosition) -> (r: PeakStats)
    requires
        p.wf(),
        times_fit(*p),
    ensures
        is_stats(r, *p),
{
    proof {
        assert(p.shares * p.entry_price <= u64::MAX * u32::MAX) by (nonlinear_arith)
            requires
                0 <= p.shares <= u64::MAX,
                0 <= p.entry_price <= u32::MAX,
        ;
        assert(position::possible(*p, p.time_exit_bid));
        assert(p.trajectory@.take(p.trajectory@.len() as int) =~= p.trajectory@);
    }
    let hold: i64 = if p.exit_ts_ms <= p.entry_recv_ms {
        1
    } else {
        p.exit_ts_ms - p.entry_recv_ms
    };
    let stake: u128 = p.shares as u128 * p.entry_price as u128;
    let time_exit_pnl = match p.time_exit_bid {
        Some(b) => lot_pnl(p, b),
        None => None,
    };
    let peak = find_peak(p);
    let (peak_bid, peak_pnl, peak_offset_ms, shape) = match peak {
        Some((v, ms)) => {
            proof {
                let i = lemma_peak_is_near(p.trajectory@, p.trajectory@.len() as int);
                assert(p.trajectory@[i].0 == ms);
            }
            let off: i64 = ms - p.entry_recv_ms;
            (Some(v), lot_pnl(p, v), Some(off), measure_near(p, v))
        },
        None => (None, None, None, Near { time: 0, count: 0, span: 0 }),
    };
    let peak_excess_pnl = sub_amounts(peak_pnl, time_exit_pnl);
    let peak_excess_pct_over_stake = if stake > 0 {
        div_amounts(
            mul_amounts(Some(Dec::new(100, 0)), peak_excess_pnl),
            Dec::from_parts(stake as i128, 10),
        )
    } else {
        None
    };
    PeakStats {
        signal_id: p.signal_id.clone(),
        asset: p.asset.clone(),
        interval: p.interval.clone(),
        direction: p.direction.clone(),
        entry_recv_ms: p.entry_recv_ms,
        exit_ts_ms: p.exit_ts_ms,
        hold_duration_ms: hold,
        shares: p.shares,
        entry_price: p.entry_price,
        stake,
        time_exit_bid: p.time_exit_bid,
        time_exit_pnl,
        peak_bid,
        peak_pnl,
        peak_offset_ms,
        time_in_top_decile_ms: shape.time,
        samples_in_top_decile: shape.count,
        top_decile_span_ms: shape.span,
        peak_excess_pnl,
        peak_excess_pct_over_stake,
        total_samples: p.total_samples,
        uncoverable_samples: p.uncoverable_samples,
    }
}

// The report.

/// What the report measures of a lot.
#[derive(Debug, Clone, Copy, PartialEq, Eq, Structural)]
pub enum Measure {
    /// When the peak was, in millionths of a percent of the holding time.
    OffsetPct,
    /// When the peak was, in milliseconds.
    OffsetMs,
    /// The excess of the peak in millionths of a dollar.
    ExcessPnl,
    /// The excess of the peak in millionths of a percent of the stake.
    ExcessPct,
    /// The time near the peak in millionths of a percent of the holding time.
    TopPct,
    /// The time near the peak in milliseconds.
    TopMs,
}

/// Units of an amount, where there is one.
pub open spec fn opt_units(d: Option<Dec>, k: int) -> Option<int> {
    match d {
        Some(d) => Some(numeral::signed_units(d@, k)),
        None => None,
    }
}

/// A measure of a lot.
pub open spec fn measured(s: PeakStats, m: Measure) -> Option<int> {
    let hold = if s.hold_duration_ms < 1 {
        1
    } else {
        s.hold_duration_ms as int
    };
    match m {
        Measure::OffsetPct => match s.peak_offset_ms {
            Some(o) => Some((o * 100_000_000) / hold),
            None => None,
        },
        Measure::OffsetMs => match s.peak_offset_ms {
            Some(o) => Some(o as int),
            None => None,
        },
        Measure::ExcessPnl => opt_units(s.peak_excess_pnl, 1_000_000),
        Measure::ExcessPct => opt_units(s.peak_excess_pct_over_stake, 1_000_000),
        Measure::TopPct => Some((s.time_in_top_decile_ms * 100_000_000) / hold),
        Measure::TopMs => Some(s.time_in_top_decile_ms as int),
    }
}

/// No measure is above this.
pub open spec fn measure_limit() -> int {
    0x10_0000_0000_0000_0000_0000_0000_0000
}

/// A lot whose peak is known, of the given cell if there is one.
pub open spec fn counts(s: PeakStats, cell: Option<Seq<char>>) -> bool {
    s.peak_bid is Some && (match cell {
        Some(c) => b3_maker::cell_name(s.asset@, s.interval@) == c,
        None => true,
    })
}

/// The measures of the lots that count.
pub open spec fn measures(stats: Seq<PeakStats>, m: Measure, cell: Option<Seq<char>>) -> Seq<int>
    decreases stats.len(),
{
    if stats.len() == 0 {
        Seq::empty()
    } else {
        let before = measures(stats.drop_last(), m, cell);
        match measured(stats.last(), m) {
            Some(v) if counts(stats.last(), cell) => before.push(v),
            _ => before,
        }
    }
}

/// A number put behind all that are not above it.
pub open spec fn insert_int(s: Seq<int>, v: int) -> Seq<int>
    decreases s.len(),
{
    if s.len() == 0 || s.last() <= v {
        s.push(v)
    } else {
        insert_int(s.drop_last(), v).push(s.last())
    }
}

/// Numbers in ascending order.
pub open spec fn ascending(s: Seq<int>) -> Seq<int>
    decreases s.len(),
{
    if s.len() == 0 {
        Seq::empty()
    } else {
        insert_int(ascending(s.drop_last()), s.last())
    }
}

proof fn lemma_insert_int(s: Seq<int>, v: int)
    requires
        forall|i: int, j: int| 0 <= i <= j < s.len() ==> #[trigger] s[i] <= #[trigger] s[j],
    ensures
        forall|i: int, j: int|
            0 <= i <= j < insert_int(s, v).len() ==> #[trigger] insert_int(s, v)[i]
                <= #[trigger] insert_int(s, v)[j],
        insert_int(s, v).to_multiset() == s.to_multiset().insert(v),
        insert_int(s, v).len() == s.len() + 1,
        forall|i: int|
            0 <= i < insert_int(s, v).len() ==> #[trigger] insert_int(s, v)[i] <= v || (s.len() > 0
                && insert_int(s, v)[i] <= s.last()),
    decreases s.len(),
{
    broadcast use vstd::seq_lib::group_to_multiset_ensures;

    if s.len() > 0 && s.last() > v {
        let before = s.drop_last();
        assert forall|i: int, j: int| 0 <= i <= j < before.len() implies #[trigger] before[i]
            <= #[trigger] before[j] by {
            assert(before[i] == s[i]);
            assert(before[j] == s[j]);
        }
        lemma_insert_int(before, v);
        assert(s =~= before.push(s.last()));
        if before.len() > 0 {
            assert(before.last() == s[s.len() - 2]);
            assert(s[s.len() - 2] <= s[s.len() - 1]);
        }
    } else if s.len() > 0 {
        assert forall|i: int| 0 <= i < s.len() implies #[trigger] s[i] <= v by {
            assert(s[i] <= s[s.len() - 1]);
        }
    }
}

/// Such numbers ascend, and none is lost or gained.
pub proof fn law_ascending_sorts(s: Seq<int>)
    ensures
        forall|i: int, j: int|
            0 <= i <= j < ascending(s).len() ==> #[trigger] ascending(s)[i] <= #[trigger] ascending(
                s,
            )[j],
        ascending(s).to_multiset() == s.to_multiset(),
        ascending(s).len() == s.len(),
    decreases s.len(),
{
    broadcast use vstd::seq_lib::group_to_multiset_ensures;

    if s.len() > 0 {
        law_ascending_sorts(s.drop_last());
        lemma_insert_int(ascending(s.drop_last()), s.last());
        assert(s =~= s.drop_last().push(s.last()));
    } else {
        assert(ascending(s) =~= s);
    }
}

/// Numbers as plain ones.
pub open spec fn ints(v: Seq<i128>) -> Seq<int> {
    v.map_values(|x: i128| x as int)
}

/// Puts a number in its place among ascending ones.
pub fn insert_ascending(v: &mut Vec<i128>, x: i128)
    ensures
        ints(final(v)@) == insert_int(ints(old(v)@), x as int),
{
    let ghost all = v@;
    let mut i: usize = v.len();
    proof {
        assert(all.take(i as int) =~= all);
        assert(insert_int(ints(all), x as int) =~= insert_int(ints(all.take(i as int)), x as int)
            + ints(all.skip(i as int)));
    }
    while i > 0 && v[i - 1] > x
        invariant
            i <= v@.len(),
            v@ == all,
            insert_int(ints(all), x as int) == insert_int(ints(all.take(i as int)), x as int)
                + ints(all.skip(i as int)),
        decreases i,
    {
        proof {
            let t = ints(all.take(i as int));
            assert(t.drop_last() =~= ints(all.take(i - 1)));
            assert(t.last() == all[i - 1]);
            assert(insert_int(t, x as int) == insert_int(ints(all.take(i - 1)), x as int).push(
                all[i - 1] as int,
            ));
            assert(ints(all.skip(i - 1)) =~= seq![all[i - 1] as int] + ints(all.skip(i as int)));
            assert(insert_int(ints(all), x as int) =~= insert_int(ints(all.take(i - 1)), x as int)
                + ints(all.skip(i - 1)));
        }
        i -= 1;
    }
    proof {
        let t = ints(all.take(i as int));
        if i > 0 {
            assert(t.last() == all[i - 1]);
        }
        assert(insert_int(t, x as int) == t.push(x as int));
        assert(ints(all.insert(i as int, x)) =~= t.push(x as int) + ints(all.skip(i as int)));
    }
    v.insert(i, x);
}

fn measure(s: &PeakStats, m: Measure) -> (r: Option<i128>)
    ensures
        match r {
            Some(v) => measured(*s, m) == Some(v as int) && -measure_limit() <= v <= measure_limit(),
            None => measured(*s, m) is None,
        },
{
    let hold: i64 = if s.hold_duration_ms < 1 {
        1
    } else {
        s.hold_duration_ms
    };
    match m {
        Measure::OffsetPct => match s.peak_offset_ms {
            Some(o) => Some(floor_div(o as i128 * 100_000_000, hold)),
            None => None,
        },
        Measure::OffsetMs => match s.peak_offset_ms {
            Some(o) => Some(o as i128),
            None => None,
        },
        Measure::ExcessPnl => match s.peak_excess_pnl {
            Some(d) => Some(to_signed_units(d, 1_000_000)),
            None => None,
        },
        Measure::ExcessPct => match s.peak_excess_pct_over_stake {
            Some(d) => Some(to_signed_units(d, 1_000_000)),
            None => None,
        },
        Measure::TopPct => Some(floor_div(s.time_in_top_decile_ms as i128 * 100_000_000, hold)),
        Measure::TopMs => Some(s.time_in_top_decile_ms as i128),
    }
}

fn floor_div(a: i128, b: i64) -> (r: i128)
    requires
        b >= 1,
        -0x1000_0000_0000_0000_0000_0000_0000 <= a <= 0x1000_0000_0000_0000_0000_0000_0000,
    ensures
        r == a as int / b as int,
        -measure_limit() <= r <= measure_limit(),
{
    if a >= 0 {
        let r: i128 = a / b as i128;
        proof {
            assert(0 <= a as int / b as int <= a) by (nonlinear_arith)
                requires
                    a >= 0,
                    b >= 1,
            ;
        }
        r
    } else {
        let up: i128 = (-a) + (b as i128 - 1);
        let q: i128 = up / b as i128;
        proof {
            vstd::arithmetic::div_mod::lemma_fundamental_div_mod(up as int, b as int);
            vstd::arithmetic::div_mod::lemma_fundamental_div_mod(a as int, b as int);
            let ru = up as int % b as int;
            let ra = a as int % b as int;
            let qa = a as int / b as int;
            assert(qa == -q) by (nonlinear_arith)
                requires
                    up == b * q + ru,
                    a == b * qa + ra,
                    0 <= ru < b,
                    0 <= ra < b,
                    up == -a + (b - 1),
                    b >= 1,
            {
                // b * (q + qa) lies strictly between -b and b.
                assert(b * (q + qa) == (b - 1) - ru - ra);
                assert(-b < b * (q + qa) < b);
                assert(q + qa < 1 && q + qa > -1);
            }
            assert(0 <= up as int / b as int <= up) by (nonlinear_arith)
                requires
                    up >= 0,
                    b >= 1,
            ;
        }
        -q
    }
}

fn is_counted(s: &PeakStats, cell: Option<&str>) -> (r: bool)
    ensures
        r == counts(*s, opt_text(cell)),
{
    if s.peak_bid.is_none() {
        false
    } else {
        match cell {
            Some(c) => {
                let name = cell_label(&s.asset, &s.interval);
                same_text(&name, c)
            },
            None => true,
        }
    }
}

pub open spec fn opt_text(s: Option<&str>) -> Option<Seq<char>> {
    match s {
        Some(s) => Some(s@),
        None => None,
    }
}

/// The measures of the lots that count, in ascending order.
pub fn sorted_measures(stats: &[PeakStats], m: Measure, cell: Option<&str>) -> (r: Vec<i128>)
    ensures
        ints(r@) == ascending(measures(stats@, m, opt_text(cell))),
        forall|i: int| 0 <= i < r@.len() ==> -measure_limit() <= #[trigger] r@[i] <= measure_limit(),
{
    let mut out: Vec<i128> = Vec::new();
    let mut i: usize = 0;
    proof {
        assert(stats@.take(0) =~= Seq::empty());
        assert(ints(out@) =~= Seq::empty());
    }
    while i < stats.len()
        invariant
            i <= stats@.len(),
            ints(out@) == ascending(measures(stats@.take(i as int), m, opt_text(cell))),
            forall|k: int|
                0 <= k < out@.len() ==> -measure_limit() <= #[trigger] out@[k] <= measure_limit(),
        decreases stats@.len() - i,
    {
        let ghost before = measures(stats@.take(i as int), m, opt_text(cell));
        proof {
            assert(stats@.take(i + 1).drop_last() =~= stats@.take(i as int));
            assert(stats@.take(i + 1).last() == stats@[i as int]);
        }
        if is_counted(&stats[i], cell) {
            match measure(&stats[i], m) {
                Some(v) => {
                    proof {
                        assert(before.push(v as int).drop_last() =~= before);
                    }
                    let ghost was = out@;
                    insert_ascending(&mut out, v);
                    proof {
                        lemma_insert_bounds(ints(was), v as int, measure_limit());
                        assert forall|k: int| 0 <= k < out@.len() implies -measure_limit()
                            <= #[trigger] out@[k] <= measure_limit() by {
                            assert(ints(out@)[k] == out@[k]);
                        }
                    }
                },
                None => {},
            }
        }
        i += 1;
    }
    proof {
        assert(stats@.take(i as int) =~= stats@);
    }
    out
}

proof fn lemma_insert_bounds(s: Seq<int>, v: int, limit: int)
    requires
        -limit <= v <= limit,
        forall|i: int| 0 <= i < s.len() ==> -limit <= #[trigger] s[i] <= limit,
    ensures
        forall|i: int|
            0 <= i < insert_int(s, v).len() ==> -limit <= #[trigger] insert_int(s, v)[i] <= limit,
    decreases s.len(),
{
    if s.len() > 0 && s.last() > v {
        assert forall|i: int| 0 <= i < s.drop_last().len() implies -limit <= #[trigger] s.drop_last()[i]
            <= limit by {
            assert(s.drop_last()[i] == s[i]);
        }
        lemma_insert_bounds(s.drop_last(), v, limit);
        assert(-limit <= s[s.len() - 1] <= limit);
        let before = insert_int(s.drop_last(), v);
        let r = insert_int(s, v);
        assert forall|i: int| 0 <= i < r.len() implies -limit <= #[trigger] r[i] <= limit by {
            if i < before.len() {
                assert(r[i] == before[i]);
            }
        }
    } else {
        let r = insert_int(s, v);
        assert forall|i: int| 0 <= i < r.len() implies -limit <= #[trigger] r[i] <= limit by {
            if i < s.len() {
                assert(r[i] == s[i]);
            }
        }
    }
}

/// The quantile of ascending numbers at `q` percent, a hundredfold: between two
/// neighbours it goes up evenly.
pub open spec fn quantile(s: Seq<int>, q: int) -> int {
    if s.len() == 0 {
        0
    } else {
        let at = q * (s.len() - 1);
        let lo = at / 100;
        let rest = at % 100;
        if rest == 0 {
            s[lo] * 100
        } else {
            s[lo] * (100 - rest) + s[lo + 1] * rest
        }
    }
}

/// The quantile at `q` percent, a hundredfold; 0 where there are no numbers.
pub fn quantile_sorted(sorted: &[i128], q: u32) -> (r: i128)
    requires
        q <= 100,
        forall|i: int|
            0 <= i < sorted@.len() ==> -measure_limit() <= #[trigger] sorted@[i] <= measure_limit(),
    ensures
        r == quantile(ints(sorted@), q as int),
{
    if sorted.len() == 0 {
        return 0;
    }
    let n: u128 = sorted.len() as u128 - 1;
    proof {
        assert(0 <= q * n <= 100 * n) by (nonlinear_arith)
            requires
                0 <= q <= 100,
                n >= 0,
        ;
    }
    let at: u128 = q as u128 * n;
    let lo: u128 = at / 100;
    let rest: i128 = (at % 100) as i128;
    let low: i128 = sorted[lo as usize];
    assert(ints(sorted@)[lo as int] == low);
    if rest == 0 {
        low * 100
    } else {
        let high: i128 = sorted[lo as usize + 1];
        proof {
            assert(ints(sorted@)[lo + 1] == high);
            let l = measure_limit();
            assert(-l * 100 <= low * (100 - rest) <= l * 100) by (nonlinear_arith)
                requires
                    -l <= low <= l,
                    0 < rest < 100,
                    l >= 0,
            ;
            assert(-l * 100 <= high * rest <= l * 100) by (nonlinear_arith)
                requires
                    -l <= high <= l,
                    0 < rest < 100,
                    l >= 0,
            ;
        }
        low * (100 - rest) + high * rest
    }
}

/// A quantile lies between its neighbours, and does not fall with `q`.
pub proof fn law_quantiles_ascend(s: Seq<int>, a: int, b: int)
    requires
        s.len() > 0,
        0 <= a <= b <= 100,
        forall|i: int, j: int| 0 <= i <= j < s.len() ==> #[trigger] s[i] <= #[trigger] s[j],
    ensures
        s[0] * 100 <= quantile(s, a) <= quantile(s, b) <= s.last() * 100,
{
    let n = s.len() - 1;
    let x = a * n;
    let y = b * n;
    assert(0 <= x <= y <= 100 * n) by (nonlinear_arith)
        requires
            0 <= a <= b <= 100,
            n >= 0,
            x == a * n,
            y == b * n,
    ;
    lemma_level_ascends(s, x, y);
    assert(level(s, 0) == s[0] * 100);
    lemma_level_ascends(s, 0, x);
    lemma_level_ascends(s, y, 100 * n);
    assert((100 * n) / 100 == n && (100 * n) % 100 == 0);
    assert(level(s, 100 * n) == s[n] * 100);
}

/// The value at a hundredth of a place.
spec fn level(s: Seq<int>, at: int) -> int {
    let lo = at / 100;
    let rest = at % 100;
    if rest == 0 {
        s[lo] * 100
    } else {
        s[lo] * (100 - rest) + s[lo + 1] * rest
    }
}

proof fn lemma_level_ascends(s: Seq<int>, x: int, y: int)
    requires
        s.len() > 0,
        0 <= x <= y <= 100 * (s.len() - 1),
        forall|i: int, j: int| 0 <= i <= j < s.len() ==> #[trigger] s[i] <= #[trigger] s[j],
    ensures
        level(s, x) <= level(s, y),
    decreases y - x,
{
    if x < y {
        lemma_level_ascends(s, x, y - 1);
        let z = y - 1;
        let lo = z / 100;
        let rest = z % 100;
        assert(s[lo] <= s[lo + 1]);
        if rest == 99 {
            assert(y / 100 == lo + 1 && y % 100 == 0);
            assert(level(s, z) == s[lo] * 1 + s[lo + 1] * 99);
        } else {
            assert(y / 100 == lo && y % 100 == rest + 1);
            let d = s[lo + 1] - s[lo];
            assert(s[lo] * (100 - rest) + s[lo + 1] * rest == s[lo] * 100 + d * rest)
                by (nonlinear_arith)
                requires
                    d == s[lo + 1] - s[lo],
            ;
            assert(s[lo] * (100 - (rest + 1)) + s[lo + 1] * (rest + 1) == s[lo] * 100 + d * (rest
                + 1)) by (nonlinear_arith)
                requires
                    d == s[lo + 1] - s[lo],
            ;
            assert(d * rest <= d * (rest + 1)) by (nonlinear_arith)
                requires
                    d >= 0,
            ;
        }
    }
}

/// The tenth of the holding time in which a share of it lies; the last one is for
/// all of it and more.
pub open spec fn bucket_of(v: int) -> int {
    if v >= 100_000_000 {
        10
    } else if v < 0 {
        0
    } else {
        v / 10_000_000
    }
}

/// How many shares lie in a tenth.
pub open spec fn in_bucket(s: Seq<int>, b: int) -> nat
    decreases s.len(),
{
    if s.len() == 0 {
        0
    } else {
        in_bucket(s.drop_last(), b) + (if bucket_of(s.last()) == b {
            1nat
        } else {
            0nat
        })
    }
}

proof fn lemma_bucket_bound(s: Seq<int>, b: int)
    ensures
        in_bucket(s, b) <= s.len(),
    decreases s.len(),
{
    if s.len() > 0 {
        lemma_bucket_bound(s.drop_last(), b);
    }
}

/// How many shares, in millionths of a percent, lie in each tenth, and in what
/// is 100 % or more.
pub fn pct_buckets_0_to_100_step10(values: &[i128]) -> (r: Vec<usize>)
    ensures
        r@.len() == 11,
        forall|b: int| 0 <= b < 11 ==> #[trigger] r@[b] == in_bucket(ints(values@), b),
{
    let ghost all = ints(values@);
    let mut counts: Vec<usize> = vec![0, 0, 0, 0, 0, 0, 0, 0, 0, 0, 0];
    let mut i: usize = 0;
    proof {
        assert(all.take(0) =~= Seq::empty());
    }
    while i < values.len()
        invariant
            i <= values@.len(),
            all == ints(values@),
            counts@.len() == 11,
            forall|b: int|
                0 <= b < 11 ==> #[trigger] counts@[b] == in_bucket(all.take(i as int), b),
        decreases values@.len() - i,
    {
        let v: i128 = values[i];
        let b: usize = if v >= 100_000_000 {
            10
        } else if v < 0 {
            0
        } else {
            (v / 10_000_000) as usize
        };
        proof {
            assert(all.take(i + 1).drop_last() =~= all.take(i as int));
            assert(all.take(i + 1).last() == v);
            lemma_bucket_bound(all.take(i as int), b as int);
            assert(counts@[b as int] == in_bucket(all.take(i as int), b as int));
        }
        let n: usize = counts[b] + 1;
        counts.set(b, n);
        i += 1;
    }
    proof {
        assert(all.take(i as int) =~= all);
    }
    counts
}

/// How many lots had a peak that was `k` percent of the stake above the sale at
/// their time; a lot of which that is not known counts as none.
pub open spec fn significant(stats: Seq<PeakStats>, k: int) -> nat
    decreases stats.len(),
{
    if stats.len() == 0 {
        0
    } else {
        let s = stats.last();
        let pct = match s.peak_excess_pct_over_stake {
            Some(d) => d@,
            None => decimal::zero(),
        };
        significant(stats.drop_last(), k) + (if s.peak_bid is Some && decimal::le(
            decimal::dec(k, 0),
            pct,
        ) {
            1nat
        } else {
            0nat
        })
    }
}

/// How many lots had a peak of at least `k` percent of the stake.
pub fn significant_peaks(stats: &[PeakStats], k: u32) -> (r: usize)
    ensures
        r == significant(stats@, k as int),
{
    let bar = Dec::new(k as i64, 0);
    let mut n: usize = 0;
    let mut i: usize = 0;
    proof {
        assert(stats@.take(0) =~= Seq::empty());
    }
    while i < stats.len()
        invariant
            bar@ == decimal::dec(k as int, 0),
            i <= stats@.len(),
            n <= i,
            n == significant(stats@.take(i as int), k as int),
        decreases stats@.len() - i,
    {
        proof {
            assert(stats@.take(i + 1).drop_last() =~= stats@.take(i as int));
            assert(stats@.take(i + 1).last() == stats@[i as int]);
        }
        let pct = match stats[i].peak_excess_pct_over_stake {
            Some(d) => d,
            None => Dec::zero(),
        };
        if stats[i].peak_bid.is_some() && !pct.less_than(bar) {
            n += 1;
        }
        i += 1;
    }
    proof {
        assert(stats@.take(i as int) =~= stats@);
    }
    n
}

/// The measures of one cell.
#[derive(Debug, Clone)]
pub struct CellPeaks {
    pub n: usize,
    pub offset_pct: Vec<i128>,
    pub top_pct: Vec<i128>,
    pub excess_pnl: Vec<i128>,
    pub excess_pct: Vec<i128>,
}

/// All that the report on the peaks says.
#[derive(Debug, Clone)]
pub struct PeakReport {
    pub n_total: usize,
    pub n_coverable: usize,
    pub offset_pct: Vec<i128>,
    pub offset_ms: Vec<i128>,
    pub excess_pnl: Vec<i128>,
    pub excess_pct: Vec<i128>,
    pub top_pct: Vec<i128>,
    pub top_ms: Vec<i128>,
    pub offset_buckets: Vec<usize>,
    pub top_buckets: Vec<usize>,
    /// By the cells' names, in dictionary order.
    pub by_cell: Vec<(String, CellPeaks)>,
    /// Peaks of at least 5, 10, 20, 50 and 100 percent of the stake.
    pub significant: Vec<usize>,
}

/// How many lots count.
pub open spec fn counted(stats: Seq<PeakStats>, cell: Option<Seq<char>>) -> nat
    decreases stats.len(),
{
    if stats.len() == 0 {
        0
    } else {
        counted(stats.drop_last(), cell) + (if counts(stats.last(), cell) {
            1nat
        } else {
            0nat
        })
    }
}

fn count_lots(stats: &[PeakStats], cell: Option<&str>) -> (r: usize)
    ensures
        r == counted(stats@, opt_text(cell)),
        r <= stats@.len(),
{
    let mut n: usize = 0;
    let mut i: usize = 0;
    proof {
        assert(stats@.take(0) =~= Seq::empty());
    }
    while i < stats.len()
        invariant
            i <= stats@.len(),
            n <= i,
            n == counted(stats@.take(i as int), opt_text(cell)),
        decreases stats@.len() - i,
    {
        proof {
            assert(stats@.take(i + 1).drop_last() =~= stats@.take(i as int));
            assert(stats@.take(i + 1).last() == stats@[i as int]);
        }
        if is_counted(&stats[i], cell) {
            n += 1;
        }
        i += 1;
    }
    proof {
        assert(stats@.take(i as int) =~= stats@);
    }
    n
}

/// The name is that of the cell of some lot that counts.
pub open spec fn is_peak_cell(stats: Seq<PeakStats>, name: Seq<char>) -> bool {
    exists|i: int|
        0 <= i < stats.len() && (#[trigger] stats[i]).peak_bid is Some && b3_maker::cell_name(
            stats[i].asset@,
            stats[i].interval@,
        ) == name
}

/// The cells of the lots that count, in dictionary order.
pub open spec fn are_peak_cells(names: Seq<String>, stats: Seq<PeakStats>) -> bool {
    &&& metrics::names_ascend(names)
    &&& forall|n: Seq<char>| #[trigger] metrics::has_name(names, n) == is_peak_cell(stats, n)
}

pub open spec fn is_cell_peaks(c: CellPeaks, stats: Seq<PeakStats>, cell: Seq<char>) -> bool {
    &&& c.n == counted(stats, Some(cell))
    &&& ints(c.offset_pct@) == ascending(measures(stats, Measure::OffsetPct, Some(cell)))
    &&& ints(c.top_pct@) == ascending(measures(stats, Measure::TopPct, Some(cell)))
    &&& ints(c.excess_pnl@) == ascending(measures(stats, Measure::ExcessPnl, Some(cell)))
    &&& ints(c.excess_pct@) == ascending(measures(stats, Measure::ExcessPct, Some(cell)))
}

pub open spec fn are_buckets(b: Seq<usize>, s: Seq<int>) -> bool {
    b.len() == 11 && forall|i: int| 0 <= i < 11 ==> #[trigger] b[i] == in_bucket(s, i)
}

pub open spec fn is_report(r: PeakReport, stats: Seq<PeakStats>) -> bool {
    &&& r.n_total == stats.len()
    &&& r.n_coverable == counted(stats, None)
    &&& ints(r.offset_pct@) == ascending(measures(stats, Measure::OffsetPct, None))
    &&& ints(r.offset_ms@) == ascending(measures(stats, Measure::OffsetMs, None))
    &&& ints(r.excess_pnl@) == ascending(measures(stats, Measure::ExcessPnl, None))
    &&& ints(r.excess_pct@) == ascending(measures(stats, Measure::ExcessPct, None))
    &&& ints(r.top_pct@) == ascending(measures(stats, Measure::TopPct, None))
    &&& ints(r.top_ms@) == ascending(measures(stats, Measure::TopMs, None))
    &&& are_buckets(r.offset_buckets@, ints(r.offset_pct@))
    &&& are_buckets(r.top_buckets@, ints(r.top_pct@))
    &&& are_peak_cells(r.by_cell@.map_values(|c: (String, CellPeaks)| c.0), stats)
    &&& forall|i: int|
        0 <= i < r.by_cell@.len() ==> is_cell_peaks(
            (#[trigger] r.by_cell@[i]).1,
            stats,
            r.by_cell@[i].0@,
        )
    &&& r.significant@.len() == 5
    &&& r.significant@[0] == significant(stats, 5)
    &&& r.significant@[1] == significant(stats, 10)
    &&& r.significant@[2] == significant(stats, 20)
    &&& r.significant@[3] == significant(stats, 50)
    &&& r.significant@[4] == significant(stats, 100)
}

fn list_peak_cells(stats: &[PeakStats]) -> (r: Vec<String>)
    ensures
        are_peak_cells(r@, stats@),
{
    let mut names: Vec<String> = Vec::new();
    let mut i: usize = 0;
    while i < stats.len()
        invariant
            i <= stats@.len(),
            metrics::names_ascend(names@),
            forall|n: Seq<char>| #[trigger]
                metrics::has_name(names@, n) == is_peak_cell(stats@.take(i as int), n),
        decreases stats@.len() - i,
    {
        let ghost before = names@;
        let ghost past = stats@.take(i as int);
        let ghost now = stats@.take(i + 1);
        let ghost cell = b3_maker::cell_name(stats@[i as int].asset@, stats@[i as int].interval@);
        if stats[i].peak_bid.is_some() {
            let name = cell_label(&stats[i].asset, &stats[i].interval);
            metrics::insert_name(&mut names, name);
            assert forall|n: Seq<char>| #[trigger] metrics::has_name(names@, n) == is_peak_cell(
                now,
                n,
            ) by {
                assert(metrics::has_name(before, n) == is_peak_cell(past, n));
                lemma_cells_step(stats@, i as int, n);
            }
        } else {
            assert forall|n: Seq<char>| #[trigger] metrics::has_name(names@, n) == is_peak_cell(
                now,
                n,
            ) by {
                assert(metrics::has_name(before, n) == is_peak_cell(past, n));
                lemma_cells_step(stats@, i as int, n);
            }
        }
        i += 1;
    }
    proof {
        assert(stats@.take(i as int) =~= stats@);
    }
    names
}

proof fn lemma_cells_step(stats: Seq<PeakStats>, i: int, n: Seq<char>)
    requires
        0 <= i < stats.len(),
    ensures
        is_peak_cell(stats.take(i + 1), n) == (is_peak_cell(stats.take(i), n) || (stats[i].peak_bid is Some
            && b3_maker::cell_name(stats[i].asset@, stats[i].interval@) == n)),
{
    let past = stats.take(i);
    let now = stats.take(i + 1);
    if is_peak_cell(past, n) {
        let k = choose|k: int|
            0 <= k < past.len() && (#[trigger] past[k]).peak_bid is Some && b3_maker::cell_name(
                past[k].asset@,
                past[k].interval@,
            ) == n;
        assert(now[k] == past[k]);
    }
    assert(now[i] == stats[i]);
    if is_peak_cell(now, n) {
        let k = choose|k: int|
            0 <= k < now.len() && (#[trigger] now[k]).peak_bid is Some && b3_maker::cell_name(
                now[k].asset@,
                now[k].interval@,
            ) == n;
        if k < i {
            assert(past[k] == now[k]);
        }
    }
}

/// The report on the peaks.
pub fn peak_report(stats: &[PeakStats]) -> (r: PeakReport)
    ensures
        is_report(r, stats@),
{
    let offset_pct = sorted_measures(stats, Measure::OffsetPct, None);
    let top_pct = sorted_measures(stats, Measure::TopPct, None);
    let offset_buckets = pct_buckets_0_to_100_step10(offset_pct.as_slice());
    let top_buckets = pct_buckets_0_to_100_step10(top_pct.as_slice());
    let names = list_peak_cells(stats);
    let mut by_cell: Vec<(String, CellPeaks)> = Vec::new();
    let mut i: usize = 0;
    while i < names.len()
        invariant
            i <= names@.len(),
            by_cell@.len() == i,
            forall|k: int| 0 <= k < i ==> (#[trigger] by_cell@[k]).0@ == names@[k]@,
            forall|k: int|
                0 <= k < i ==> is_cell_peaks(
                    (#[trigger] by_cell@[k]).1,
                    stats@,
                    by_cell@[k].0@,
                ),
        decreases names@.len() - i,
    {
        let name = names[i].clone();
        let peaks = CellPeaks {
            n: count_lots(stats, Some(name.as_str())),
            offset_pct: sorted_measures(stats, Measure::OffsetPct, Some(name.as_str())),
            top_pct: sorted_measures(stats, Measure::TopPct, Some(name.as_str())),
            excess_pnl: sorted_measures(stats, Measure::ExcessPnl, Some(name.as_str())),
            excess_pct: sorted_measures(stats, Measure::ExcessPct, Some(name.as_str())),
        };
        by_cell.push((name, peaks));
        i += 1;
    }
    let significant = vec![
        significant_peaks(stats, 5),
        significant_peaks(stats, 10),
        significant_peaks(stats, 20),
        significant_peaks(stats, 50),
        significant_peaks(stats, 100),
    ];
    let r = PeakReport {
        n_total: stats.len(),
        n_coverable: count_lots(stats, None),
        offset_pct,
        offset_ms: sorted_measures(stats, Measure::OffsetMs, None),
        excess_pnl: sorted_measures(stats, Measure::ExcessPnl, None),
        excess_pct: sorted_measures(stats, Measure::ExcessPct, None),
        top_pct,
        top_ms: sorted_measures(stats, Measure::TopMs, None),
        offset_buckets,
        top_buckets,
        by_cell,
        significant,
    };
    proof {
        let listed = r.by_cell@.map_values(|c: (String, CellPeaks)| c.0);
        assert forall|a: int, b: int| 0 <= a < b < listed.len() implies text::dictionary_le(
            (#[trigger] listed[a])@,
            (#[trigger] listed[b])@,
        ) && listed[a]@ != listed[b]@ by {
            assert(r.by_cell@[a].0@ == names@[a]@);
            assert(r.by_cell@[b].0@ == names@[b]@);
        }
        assert forall|n: Seq<char>| #[trigger] metrics::has_name(listed, n) == is_peak_cell(
            stats@,
            n,
        ) by {
            assert(metrics::has_name(names@, n) == is_peak_cell(stats@, n));
            if metrics::has_name(names@, n) {
                let k = choose|k: int| 0 <= k < names@.len() && (#[trigger] names@[k])@ == n;
                assert(r.by_cell@[k].0@ == names@[k]@);
                assert(listed[k]@ == n);
            }
            if metrics::has_name(listed, n) {
                let k = choose|k: int| 0 <= k < listed.len() && (#[trigger] listed[k])@ == n;
                assert(r.by_cell@[k].0@ == names@[k]@);
                assert(names@[k]@ == n);
            }
        }
    }
    r
}

} // verus!
