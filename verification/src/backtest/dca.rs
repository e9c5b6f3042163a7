//! What further lots on one side of a market were worth, and the summary of a
//! run with an entry filter.

use crate::backtest::entry_filter::{
    self, count_double_sided_markets, count_double_sided_markets_for_cell,
};
use crate::backtest::exits::ExitVariant;
use crate::backtest::metrics::{
    self, evaluate_variant, flag_cell, flag_reason, list_cells, tally, VariantTrade,
};
use crate::backtest::position::CollectedPosition;
use crate::decimal::{self, add_amounts, sub_amounts, Dec, DecV};
use crate::text::{self, chars_of, copy_range, find_char, owned, same_text, text_of};
use vstd::prelude::*;

verus! {

/// Two lots are on one side of one market.
pub open spec fn same_side(a: CollectedPosition, b: CollectedPosition) -> bool {
    entry_filter::one_market(a, b) && a.direction@ == b.direction@
}

/// The flagged trades on the side of trade `i`.
pub open spec fn group(trades: Seq<VariantTrade<'_>>, flags: Seq<bool>, i: int) -> Seq<bool> {
    Seq::new(trades.len(), |j: int| flags[j] && same_side(*trades[j].position, *trades[i].position))
}

/// Trade `i` is the first flagged one of its side.
pub open spec fn is_first(trades: Seq<VariantTrade<'_>>, flags: Seq<bool>, i: int) -> bool {
    flags[i] && forall|j: int|
        0 <= j < i ==> !(flags[j] && same_side(*(#[trigger] trades[j]).position, *trades[i].position))
}

/// Trade `i` is the only flagged one of its side.
pub open spec fn is_alone(trades: Seq<VariantTrade<'_>>, flags: Seq<bool>, i: int) -> bool {
    metrics::count(group(trades, flags, i)) == 1
}

/// The flagged trades that are alone on their side, or are not.
pub open spec fn side_flags(trades: Seq<VariantTrade<'_>>, flags: Seq<bool>, alone: bool) -> Seq<bool> {
    Seq::new(trades.len(), |i: int| flags[i] && is_alone(trades, flags, i) == alone)
}

/// The first trades of sides with one trade, or with more.
pub open spec fn first_flags(trades: Seq<VariantTrade<'_>>, flags: Seq<bool>, alone: bool) -> Seq<bool> {
    Seq::new(
        trades.len(),
        |i: int| is_first(trades, flags, i) && is_alone(trades, flags, i) == alone,
    )
}

/// What all trades on the side of trade `i` made together.
pub open spec fn group_total(trades: Seq<VariantTrade<'_>>, flags: Seq<bool>, i: int) -> Option<DecV> {
    metrics::total(metrics::nets(trades), group(trades, flags, i))
}

/// A sum that is in range and above zero.
pub open spec fn is_gain(sum: Option<DecV>) -> bool {
    sum matches Some(d) && d.m > 0
}

/// The sides with more than one trade that made a profit, or did not.
pub open spec fn result_flags(trades: Seq<VariantTrade<'_>>, flags: Seq<bool>, gain: bool) -> Seq<bool> {
    Seq::new(
        trades.len(),
        |i: int|
            first_flags(trades, flags, false)[i] && is_gain(group_total(trades, flags, i)) == gain,
    )
}

/// What those sides made, up to trade `n`.
pub open spec fn result_sum(trades: Seq<VariantTrade<'_>>, flags: Seq<bool>, gain: bool, n: int) -> Option<
    DecV,
>
    decreases n,
{
    if n <= 0 {
        Some(decimal::zero())
    } else {
        let before = result_sum(trades, flags, gain, n - 1);
        if result_flags(trades, flags, gain)[n - 1] {
            decimal::o_plus(before, group_total(trades, flags, n - 1))
        } else {
            before
        }
    }
}

/// What further lots were worth. An amount is `None` where it is out of range.
#[derive(Debug, Clone)]
pub struct DcaBreakdown {
    pub n_market_sides_total: usize,
    /// Sides with at least two lots.
    pub n_dca_market_sides: usize,
    pub n_single_market_sides: usize,
    /// Lots on sides with at least two lots.
    pub n_positions_dca: usize,
    pub wins_single: usize,
    pub wins_dca: usize,
    pub pnl_per_trade_single: Option<Dec>,
    pub pnl_per_trade_dca: Option<Dec>,
    /// The second less the first.
    pub dca_edge: Option<Dec>,
    pub n_dca_winners_ms: usize,
    pub n_dca_losers_ms: usize,
    pub sum_pnl_dca_winners: Option<Dec>,
    pub sum_pnl_dca_losers: Option<Dec>,
}

pub open spec fn mean_flagged(trades: Seq<VariantTrade<'_>>, flags: Seq<bool>) -> Option<DecV> {
    metrics::mean(metrics::total(metrics::nets(trades), flags), metrics::count(flags))
}

pub open spec fn is_breakdown(b: DcaBreakdown, trades: Seq<VariantTrade<'_>>, flags: Seq<bool>) -> bool {
    let single = side_flags(trades, flags, true);
    let many = side_flags(trades, flags, false);
    &&& b.n_single_market_sides == metrics::count(first_flags(trades, flags, true))
    &&& b.n_dca_market_sides == metrics::count(first_flags(trades, flags, false))
    &&& b.n_market_sides_total == b.n_single_market_sides + b.n_dca_market_sides
    &&& b.n_positions_dca == metrics::count(many)
    &&& b.wins_single == metrics::count(metrics::won(metrics::nets(trades), single))
    &&& b.wins_dca == metrics::count(metrics::won(metrics::nets(trades), many))
    &&& decimal::opt(b.pnl_per_trade_single) == mean_flagged(trades, single)
    &&& decimal::opt(b.pnl_per_trade_dca) == mean_flagged(trades, many)
    &&& decimal::opt(b.dca_edge) == decimal::o_minus(
        mean_flagged(trades, many),
        mean_flagged(trades, single),
    )
    &&& b.n_dca_winners_ms == metrics::count(result_flags(trades, flags, true))
    &&& b.n_dca_losers_ms == metrics::count(result_flags(trades, flags, false))
    &&& decimal::opt(b.sum_pnl_dca_winners) == result_sum(trades, flags, true, trades.len() as int)
    &&& decimal::opt(b.sum_pnl_dca_losers) == result_sum(trades, flags, false, trades.len() as int)
}

fn is_same_side(a: &CollectedPosition, b: &CollectedPosition) -> (r: bool)
    ensures
        r == same_side(*a, *b),
{
    a.epoch == b.epoch && same_text(&a.asset, &b.asset) && same_text(&a.interval, &b.interval)
        && same_text(&a.direction, &b.direction)
}

fn group_of(trades: &[VariantTrade<'_>], flags: &[bool], i: usize) -> (r: Vec<bool>)
    requires
        flags@.len() == trades@.len(),
        i < trades@.len(),
    ensures
        r@ == group(trades@, flags@, i as int),
{
    let mut out: Vec<bool> = Vec::new();
    let mut j: usize = 0;
    while j < trades.len()
        invariant
            j <= trades@.len(),
            i < trades@.len(),
            flags@.len() == trades@.len(),
            out@ == group(trades@, flags@, i as int).take(j as int),
        decreases trades@.len() - j,
    {
        out.push(flags[j] && is_same_side(trades[j].position, trades[i].position));
        assert(out@ =~= group(trades@, flags@, i as int).take(j + 1));
        j += 1;
    }
    assert(out@ =~= group(trades@, flags@, i as int));
    out
}

fn comes_first(trades: &[VariantTrade<'_>], flags: &[bool], i: usize) -> (r: bool)
    requires
        flags@.len() == trades@.len(),
        i < trades@.len(),
    ensures
        r == is_first(trades@, flags@, i as int),
{
    if !flags[i] {
        return false;
    }
    let mut j: usize = 0;
    while j < i
        invariant
            j <= i < trades@.len(),
            flags@.len() == trades@.len(),
            flags@[i as int],
            forall|k: int|
                0 <= k < j ==> !(flags@[k] && same_side(
                    *(#[trigger] trades@[k]).position,
                    *trades@[i as int].position,
                )),
        decreases i - j,
    {
        if flags[j] && is_same_side(trades[j].position, trades[i].position) {
            assert(flags@[j as int] && same_side(
                *trades@[j as int].position,
                *trades@[i as int].position,
            ));
            return false;
        }
        j += 1;
    }
    true
}

/// What further lots were worth, among the flagged trades.
pub fn compute_dca_breakdown(trades: &[VariantTrade<'_>], flags: &[bool]) -> (r: DcaBreakdown)
    requires
        flags@.len() == trades@.len(),
    ensures
        is_breakdown(r, trades@, flags@),
{
    let ghost all = trades@;
    let ghost fl = flags@;
    let mut single: Vec<bool> = Vec::new();
    let mut many: Vec<bool> = Vec::new();
    let mut n_single: usize = 0;
    let mut n_dca: usize = 0;
    let mut n_win: usize = 0;
    let mut n_lose: usize = 0;
    let mut sum_win: Option<Dec> = Some(Dec::zero());
    let mut sum_lose: Option<Dec> = Some(Dec::zero());
    let mut i: usize = 0;
    proof {
        assert(first_flags(all, fl, true).take(0) =~= Seq::empty());
        assert(first_flags(all, fl, false).take(0) =~= Seq::empty());
        assert(result_flags(all, fl, true).take(0) =~= Seq::empty());
        assert(result_flags(all, fl, false).take(0) =~= Seq::empty());
    }
    while i < trades.len()
        invariant
            all == trades@,
            fl == flags@,
            fl.len() == all.len(),
            i <= all.len(),
            n_single + n_dca <= i,
            n_win + n_lose <= i,
            single@ == side_flags(all, fl, true).take(i as int),
            many@ == side_flags(all, fl, false).take(i as int),
            n_single == metrics::count(first_flags(all, fl, true).take(i as int)),
            n_dca == metrics::count(first_flags(all, fl, false).take(i as int)),
            n_win == metrics::count(result_flags(all, fl, true).take(i as int)),
            n_lose == metrics::count(result_flags(all, fl, false).take(i as int)),
            decimal::opt(sum_win) == result_sum(all, fl, true, i as int),
            decimal::opt(sum_lose) == result_sum(all, fl, false, i as int),
        decreases all.len() - i,
    {
        let g = group_of(trades, flags, i);
        let t = tally(trades, g.as_slice());
        let first = comes_first(trades, flags, i);
        let alone = t.n == 1;
        single.push(flags[i] && alone);
        many.push(flags[i] && !alone);
        proof {
            assert(single@ =~= side_flags(all, fl, true).take(i + 1));
            assert(many@ =~= side_flags(all, fl, false).take(i + 1));
            let a = first_flags(all, fl, true);
            let b = first_flags(all, fl, false);
            let c = result_flags(all, fl, true);
            let d = result_flags(all, fl, false);
            assert(a.take(i + 1).drop_last() =~= a.take(i as int));
            assert(b.take(i + 1).drop_last() =~= b.take(i as int));
            assert(c.take(i + 1).drop_last() =~= c.take(i as int));
            assert(d.take(i + 1).drop_last() =~= d.take(i as int));
            assert(a.take(i + 1).last() == a[i as int]);
            assert(b.take(i + 1).last() == b[i as int]);
            assert(c.take(i + 1).last() == c[i as int]);
            assert(d.take(i + 1).last() == d[i as int]);
        }
        if first {
            if alone {
                n_single += 1;
            } else {
                n_dca += 1;
                let gain = match t.total {
                    Some(x) => x.is_positive(),
                    None => false,
                };
                if gain {
                    n_win += 1;
                    sum_win = add_amounts(sum_win, t.total);
                } else {
                    n_lose += 1;
                    sum_lose = add_amounts(sum_lose, t.total);
                }
            }
        }
        i += 1;
    }
    proof {
        assert(single@ =~= side_flags(all, fl, true));
        assert(many@ =~= side_flags(all, fl, false));
        assert(first_flags(all, fl, true).take(i as int) =~= first_flags(all, fl, true));
        assert(first_flags(all, fl, false).take(i as int) =~= first_flags(all, fl, false));
        assert(result_flags(all, fl, true).take(i as int) =~= result_flags(all, fl, true));
        assert(result_flags(all, fl, false).take(i as int) =~= result_flags(all, fl, false));
    }
    let s = tally(trades, single.as_slice());
    let m = tally(trades, many.as_slice());
    DcaBreakdown {
        n_market_sides_total: n_single + n_dca,
        n_dca_market_sides: n_dca,
        n_single_market_sides: n_single,
        n_positions_dca: m.n,
        wins_single: s.wins,
        wins_dca: m.wins,
        pnl_per_trade_single: s.mean,
        pnl_per_trade_dca: m.mean,
        dca_edge: sub_amounts(m.mean, s.mean),
        n_dca_winners_ms: n_win,
        n_dca_losers_ms: n_lose,
        sum_pnl_dca_winners: sum_win,
        sum_pnl_dca_losers: sum_lose,
    }
}

/// Every side with more than one lot won or lost, and every lot is on a side
/// with one lot or on one with more.
pub proof fn law_sides_are_divided(trades: Seq<VariantTrade<'_>>, flags: Seq<bool>)
    requires
        flags.len() == trades.len(),
    ensures
        metrics::count(first_flags(trades, flags, false)) == metrics::count(
            result_flags(trades, flags, true),
        ) + metrics::count(result_flags(trades, flags, false)),
        metrics::count(flags) == metrics::count(side_flags(trades, flags, true)) + metrics::count(
            side_flags(trades, flags, false),
        ),
{
    metrics::lemma_count_split(
        first_flags(trades, flags, false),
        result_flags(trades, flags, true),
        result_flags(trades, flags, false),
    );
    metrics::lemma_count_split(
        flags,
        side_flags(trades, flags, true),
        side_flags(trades, flags, false),
    );
}

/// What one cell came to in a run with an entry filter.
#[derive(Debug, Clone)]
pub struct CellSummary {
    pub n_trades: usize,
    pub wins: usize,
    pub total_pnl: Option<Dec>,
    pub avg_pnl: Option<Dec>,
    pub n_double_sided_markets: usize,
    pub dca_breakdown: DcaBreakdown,
}

/// What a run with an entry filter came to.
#[derive(Debug, Clone)]
pub struct EntryFilterRunSummary {
    pub filter_label: String,
    pub n_trades_total: usize,
    pub wins: usize,
    pub total_pnl: Option<Dec>,
    pub avg_pnl: Option<Dec>,
    pub n_double_sided_markets_total: usize,
    pub by_cell: Vec<(String, CellSummary)>,
    pub dates_processed: Vec<String>,
    pub dates_skipped: Vec<String>,
    pub dca_breakdown: DcaBreakdown,
}

/// A run of fewer trades says little.
pub const LOW_SAMPLE_THRESHOLD: usize = 100;

/// Whether a row of the table is marked as one that says little.
pub fn is_low_sample(n_trades: usize) -> (r: bool)
    ensures
        r == (n_trades < 100),
{
    n_trades < LOW_SAMPLE_THRESHOLD
}

/// The asset and the interval in a cell's name: what is before its first
/// underscore, and what is behind it.
pub open spec fn cell_asset(name: Seq<char>) -> Seq<char> {
    name.take(text::index_of(name, '_'))
}

pub open spec fn cell_interval(name: Seq<char>) -> Seq<char> {
    if text::index_of(name, '_') < name.len() {
        name.skip(text::index_of(name, '_') + 1)
    } else {
        Seq::empty()
    }
}

fn cell_halves(name: &str) -> (r: (String, String))
    ensures
        r.0@ == cell_asset(name@),
        r.1@ == cell_interval(name@),
{
    let chars = chars_of(name);
    let at: usize = find_char(chars.as_slice(), '_');
    let a = copy_range(chars.as_slice(), 0, at);
    assert(a@ =~= cell_asset(name@));
    if at < chars.len() {
        let b = copy_range(chars.as_slice(), at + 1, chars.len());
        assert(b@ =~= cell_interval(name@));
        (text_of(a.as_slice()), text_of(b.as_slice()))
    } else {
        let b = String::new();
        assert(b@ =~= cell_interval(name@));
        (text_of(a.as_slice()), b)
    }
}

pub open spec fn is_cell_summary(
    c: CellSummary,
    trades: Seq<VariantTrade<'_>>,
    positions: Seq<CollectedPosition>,
    cell: Seq<char>,
) -> bool {
    let flags = metrics::cell_flags(trades, cell, None);
    &&& c.n_trades == metrics::count(flags)
    &&& c.wins == metrics::count(metrics::won(metrics::nets(trades), flags))
    &&& decimal::opt(c.total_pnl) == metrics::total(metrics::nets(trades), flags)
    &&& decimal::opt(c.avg_pnl) == mean_flagged(trades, flags)
    &&& c.n_double_sided_markets == entry_filter::doubles(
        positions,
        positions.len() as int,
        Some((cell_asset(cell), cell_interval(cell))),
    )
    &&& is_breakdown(c.dca_breakdown, trades, flags)
}

pub open spec fn is_run_summary(
    s: EntryFilterRunSummary,
    trades: Seq<VariantTrade<'_>>,
    positions: Seq<CollectedPosition>,
) -> bool {
    let flags = metrics::reason_flags(trades, None);
    &&& s.n_trades_total == trades.len()
    &&& s.wins == metrics::count(metrics::won(metrics::nets(trades), flags))
    &&& decimal::opt(s.total_pnl) == metrics::total(metrics::nets(trades), flags)
    &&& decimal::opt(s.avg_pnl) == metrics::mean(
        metrics::total(metrics::nets(trades), flags),
        trades.len(),
    )
    &&& s.n_double_sided_markets_total == entry_filter::doubles(
        positions,
        positions.len() as int,
        None,
    )
    &&& is_breakdown(s.dca_breakdown, trades, flags)
    &&& metrics::are_cells(summary_names(s), trades)
    &&& forall|i: int|
        0 <= i < s.by_cell@.len() ==> is_cell_summary(
            (#[trigger] s.by_cell@[i]).1,
            trades,
            positions,
            s.by_cell@[i].0@,
        )
}

pub open spec fn summary_names(s: EntryFilterRunSummary) -> Seq<String> {
    s.by_cell@.map_values(|c: (String, CellSummary)| c.0)
}

fn cell_summary(trades: &[VariantTrade<'_>], positions: &[CollectedPosition], cell: &str) -> (r:
    CellSummary)
    ensures
        is_cell_summary(r, trades@, positions@, cell@),
{
    let flags = flag_cell(trades, cell, None);
    let t = tally(trades, flags.as_slice());
    let (asset, interval) = cell_halves(cell);
    CellSummary {
        n_trades: t.n,
        wins: t.wins,
        total_pnl: t.total,
        avg_pnl: t.mean,
        n_double_sided_markets: count_double_sided_markets_for_cell(positions, &asset, &interval),
        dca_breakdown: compute_dca_breakdown(trades, flags.as_slice()),
    }
}

/// What the trades of a run came to.
pub fn summarize_trades(
    trades: &[VariantTrade<'_>],
    positions: &[CollectedPosition],
    filter_label: &str,
    dates_processed: Vec<String>,
    dates_skipped: Vec<String>,
) -> (r: EntryFilterRunSummary)
    ensures
        r.filter_label@ == filter_label@,
        r.dates_processed == dates_processed,
        r.dates_skipped == dates_skipped,
        is_run_summary(r, trades@, positions@),
{
    let flags = flag_reason(trades, None);
    let t = tally(trades, flags.as_slice());
    proof {
        metrics::lemma_count_all(flags@);
    }
    let names = list_cells(trades);
    let mut by_cell: Vec<(String, CellSummary)> = Vec::new();
    let mut i: usize = 0;
    while i < names.len()
        invariant
            i <= names@.len(),
            by_cell@.len() == i,
            forall|k: int| 0 <= k < i ==> (#[trigger] by_cell@[k]).0@ == names@[k]@,
            forall|k: int|
                0 <= k < i ==> is_cell_summary(
                    (#[trigger] by_cell@[k]).1,
                    trades@,
                    positions@,
                    by_cell@[k].0@,
                ),
        decreases names@.len() - i,
    {
        by_cell.push((names[i].clone(), cell_summary(trades, positions, &names[i])));
        i += 1;
    }
    let s = EntryFilterRunSummary {
        filter_label: owned(filter_label),
        n_trades_total: trades.len(),
        wins: t.wins,
        total_pnl: t.total,
        avg_pnl: t.mean,
        n_double_sided_markets_total: count_double_sided_markets(positions),
        by_cell,
        dates_processed,
        dates_skipped,
        dca_breakdown: compute_dca_breakdown(trades, flags.as_slice()),
    };
    proof {
        let listed = summary_names(s);
        assert forall|a: int, b: int| 0 <= a < b < listed.len() implies text::dictionary_le(
            (#[trigger] listed[a])@,
            (#[trigger] listed[b])@,
        ) && listed[a]@ != listed[b]@ by {
            assert(s.by_cell@[a].0@ == names@[a]@);
            assert(s.by_cell@[b].0@ == names@[b]@);
        }
        assert forall|a: int| 0 <= a < listed.len() implies metrics::is_cell(
            trades@,
            (#[trigger] listed[a])@,
        ) by {
            assert(s.by_cell@[a].0@ == names@[a]@);
        }
        assert forall|a: int| 0 <= a < trades@.len() implies metrics::has_name(
            listed,
            metrics::cell_of(*(#[trigger] trades@[a]).position),
        ) by {
            let name = metrics::cell_of(*trades@[a].position);
            assert(metrics::has_name(names@, name));
            let k = choose|k: int| 0 <= k < names@.len() && (#[trigger] names@[k])@ == name;
            assert(s.by_cell@[k].0@ == names@[k]@);
            assert(listed[k]@ == name);
        }
    }
    s
}

/// What a run with an entry filter came to, with every lot sold at its time;
/// `None` where an amount is out of range.
pub fn compute_entry_filter_summary(
    positions: &[CollectedPosition],
    filter_label: &str,
    dates_processed: Vec<String>,
    dates_skipped: Vec<String>,
) -> (r: Option<EntryFilterRunSummary>)
    requires
        forall|i: int| 0 <= i < positions@.len() ==> (#[trigger] positions@[i]).wf(),
    ensures
        match r {
            Some(s) => {
                &&& s.filter_label@ == filter_label@
                &&& s.dates_processed == dates_processed
                &&& s.dates_skipped == dates_skipped
                &&& exists|trades: Seq<VariantTrade<'_>>|
                    are_baseline_trades(trades, positions@) && #[trigger] is_run_summary(
                        s,
                        trades,
                        positions@,
                    )
            },
            None => exists|i: int|
                0 <= i < positions@.len() && !metrics::trade_fits(
                    #[trigger] positions@[i],
                    ExitVariant::Baseline,
                ),
        },
{
    match evaluate_variant(positions, ExitVariant::Baseline) {
        Some(trades) => {
            assert(are_baseline_trades(trades@, positions@));
            let s = summarize_trades(
                trades.as_slice(),
                positions,
                filter_label,
                dates_processed,
                dates_skipped,
            );
            Some(s)
        },
        None => None,
    }
}

/// The trades of lots that are all sold at their time.
pub open spec fn are_baseline_trades(
    trades: Seq<VariantTrade<'_>>,
    positions: Seq<CollectedPosition>,
) -> bool {
    &&& trades.len() == positions.len()
    &&& forall|i: int|
        0 <= i < trades.len() ==> metrics::is_trade(
            #[trigger] trades[i],
            positions[i],
            ExitVariant::Baseline,
        )
}

} // verus!
