//! What policies and runs come to: trades, totals, means and counts.

use crate::b3_maker::{self, B3ExitKind, CellAgg, ReplayLot};
use crate::backtest::dca::{self, DcaBreakdown, EntryFilterRunSummary};
use crate::backtest::entry_filter;
use crate::backtest::exits::{self, ExitReason, ExitVariant};
use crate::backtest::metrics::{self, CellMetrics, VariantMetrics, VariantTrade};
use crate::backtest::position::CollectedPosition;
use crate::decimal::{self, DecV};
use crate::strategy_replay::{self, StrategyReplay};
use crate::text;
use vstd::prelude::*;

verus! {

/// The numbers from 0 up to `n` of which something holds.
pub open spec fn places(n: nat, of: spec_fn(int) -> bool) -> Seq<int> {
    Seq::new(n, |i: int| i).filter(of)
}

proof fn lemma_count(flags: Seq<bool>, of: spec_fn(int) -> bool)
    requires
        forall|i: int| 0 <= i < flags.len() ==> flags[i] == #[trigger] of(i),
    ensures
        metrics::count(flags) == places(flags.len(), of).len(),
    decreases flags.len(),
{
    reveal(Seq::filter);
    let all = Seq::new(flags.len(), |i: int| i);
    if flags.len() > 0 {
        let less = flags.drop_last();
        assert forall|i: int| 0 <= i < less.len() implies less[i] == #[trigger] of(i) by {
            assert(less[i] == flags[i]);
        }
        lemma_count(less, of);
        assert(all.drop_last() =~= Seq::new(less.len(), |i: int| i));
        let n = less.len() as int;
        assert(all.last() == n);
        assert(flags[n] == of(n));
    }
}

/// A count is the number of places that are flagged.
pub proof fn law_a_count_is_the_number_of_flags(flags: Seq<bool>)
    ensures
        metrics::count(flags) == places(flags.len(), |i: int| flags[i]).len(),
{
    lemma_count(flags, |i: int| flags[i]);
}

/// A total begins at 0, grows by every profit that is flagged, and by no other.
pub proof fn law_a_total_adds_what_is_flagged(nets: Seq<DecV>, flags: Seq<bool>, x: DecV)
    requires
        nets.len() == flags.len(),
    ensures
        metrics::total(Seq::empty(), Seq::empty()) == Some(decimal::zero()),
        metrics::total(nets.push(x), flags.push(false)) == metrics::total(nets, flags),
        metrics::total(nets, flags) matches Some(t) ==> metrics::total(nets.push(x), flags.push(true))
            == decimal::plus(t, x),
        metrics::total(nets, flags) is None ==> metrics::total(nets.push(x), flags.push(true)) is None,
{
    assert(nets.push(x).drop_last() =~= nets);
    assert(flags.push(true).drop_last() =~= flags);
    assert(flags.push(false).drop_last() =~= flags);
}

/// A total of one profit is that profit.
pub proof fn law_one_profit_is_its_total(x: DecV)
    ensures
        metrics::total(seq![x], seq![true]) == Some(x),
        metrics::total(seq![x], seq![false]) == Some(decimal::zero()),
{
    assert(seq![x].drop_last() =~= Seq::empty());
    assert(seq![true].drop_last() =~= Seq::empty());
    assert(seq![false].drop_last() =~= Seq::empty());
    assert(metrics::total(Seq::empty(), Seq::empty()) == Some(decimal::zero()));
}

/// A mean is the sum over the number; the mean of nothing is 0. A mean that is a decimal
/// number is exact.
pub proof fn law_a_mean_is_the_sum_over_the_number(sum: DecV, n: nat, q: DecV)
    requires
        n > 0,
        decimal::valid(q),
        q.m * n * decimal::pow10(sum.s) == sum.m * decimal::pow10(q.s),
    ensures
        metrics::mean(Some(sum), n) matches Some(r) && decimal::same_value(r, q),
        metrics::mean(Some(sum), 0) == Some(decimal::zero()),
{
    let d = decimal::dec(n as int, 0);
    assert(decimal::pow10(0) == 1);
    let (m, p) = (sum.m, decimal::pow10(q.s));
    assert((m * 1) * p == m * p) by (nonlinear_arith);
    decimal::law_decimal_quotients_are_exact(sum, d, q);
}

/// What a policy's trade of a lot is: the lot, the policy's reason, the average price
/// that its sale brings per share, and the profit after the fees on both sides.
pub proof fn law_a_trade_is_the_sale_of_the_lot(
    t: VariantTrade<'_>,
    p: CollectedPosition,
    v: ExitVariant,
)
    requires
        metrics::is_trade(t, p, v),
    ensures
        ({
            let (value, why) = exits::exit_of(p, v);
            let (shares, entry) = (
                decimal::dec(p.shares as int, 6),
                decimal::dec(p.entry_price as int, 4),
            );
            &&& *t.position == p && t.exit_reason == why
            &&& value == 0 ==> t.exit_price@ == decimal::zero()
            &&& value != 0 ==> decimal::over(decimal::dec(value, 10), shares) == Some(
                t.exit_price@,
            )
            &&& b3_maker::net_profit(
                shares,
                entry,
                t.exit_price@,
                b3_maker::fee(shares, t.exit_price@),
            ) == Some(t.net_pnl@)
        }),
{
}

/// The trade is counted under its reason, or under any.
pub open spec fn ended_by(t: VariantTrade<'_>, reason: Option<ExitReason>) -> bool {
    reason matches Some(x) ==> t.exit_reason == x
}

/// The trade's lot is of the cell of that name.
pub open spec fn of_cell(t: VariantTrade<'_>, cell: Seq<char>) -> bool {
    t.position.asset@.push('_') + t.position.interval@ == cell
}

proof fn lemma_cell(t: VariantTrade<'_>, cell: Seq<char>)
    ensures
        of_cell(t, cell) <==> metrics::cell_of(*t.position) == cell,
{
    reveal_strlit("_");
    assert(metrics::cell_of(*t.position) =~= t.position.asset@.push('_') + t.position.interval@);
}

/// The counts of a run: all trades, those with a profit above 0, those that touched
/// their target, and those that could not be sold. The two means are those of the
/// trades that touched and of those that were sold at their time.
pub proof fn law_metrics_count_the_trades(m: VariantMetrics, trades: Seq<VariantTrade<'_>>)
    requires
        metrics::is_metrics(m, trades),
    ensures
        ({
            let n = trades.len();
            let nets = Seq::new(n, |i: int| trades[i].net_pnl@);
            let all = Seq::new(n, |i: int| true);
            let touched = Seq::new(n, |i: int| trades[i].exit_reason == ExitReason::TpTouched);
            let timed = Seq::new(n, |i: int| trades[i].exit_reason == ExitReason::TimeExit);
            let tp = places(n, |i: int| trades[i].exit_reason == ExitReason::TpTouched).len();
            let at_time = places(n, |i: int| trades[i].exit_reason == ExitReason::TimeExit).len();
            &&& m.n_trades == n
            &&& m.wins == places(n, |i: int| trades[i].net_pnl@.m > 0).len()
            &&& m.tp_hits == tp
            &&& m.n_uncoverable == places(
                n,
                |i: int| trades[i].exit_reason == ExitReason::Uncoverable,
            ).len()
            &&& metrics::total(nets, all) == Some(m.total_pnl@)
            &&& metrics::mean(Some(m.total_pnl@), n) == Some(m.avg_pnl@)
            &&& metrics::mean(metrics::total(nets, touched), tp) == Some(m.pnl_when_tp_hit@)
            &&& metrics::mean(metrics::total(nets, timed), at_time) == Some(m.pnl_when_time_exit@)
        }),
{
    let n = trades.len();
    let nets = Seq::new(n, |i: int| trades[i].net_pnl@);
    let all = Seq::new(n, |i: int| true);
    let touched = Seq::new(n, |i: int| trades[i].exit_reason == ExitReason::TpTouched);
    let timed = Seq::new(n, |i: int| trades[i].exit_reason == ExitReason::TimeExit);
    assert(metrics::nets(trades) =~= nets);
    assert(metrics::reason_flags(trades, None) =~= all);
    assert(metrics::reason_flags(trades, Some(ExitReason::TpTouched)) =~= touched);
    assert(metrics::reason_flags(trades, Some(ExitReason::TimeExit)) =~= timed);
    lemma_count(metrics::won(nets, all), |i: int| trades[i].net_pnl@.m > 0);
    lemma_count(touched, |i: int| trades[i].exit_reason == ExitReason::TpTouched);
    lemma_count(timed, |i: int| trades[i].exit_reason == ExitReason::TimeExit);
    lemma_count(
        metrics::reason_flags(trades, Some(ExitReason::Uncoverable)),
        |i: int| trades[i].exit_reason == ExitReason::Uncoverable,
    );
}

/// The numbers of a cell are those of its own trades.
pub proof fn law_cells_count_their_own_trades(
    m: CellMetrics,
    trades: Seq<VariantTrade<'_>>,
    cell: Seq<char>,
)
    requires
        metrics::is_cell_metrics(m, trades, cell),
    ensures
        ({
            let n = trades.len();
            let nets = Seq::new(n, |i: int| trades[i].net_pnl@);
            let own = Seq::new(n, |i: int| of_cell(trades[i], cell));
            &&& m.n_trades == places(n, |i: int| of_cell(trades[i], cell)).len()
            &&& m.wins == places(
                n,
                |i: int| of_cell(trades[i], cell) && trades[i].net_pnl@.m > 0,
            ).len()
            &&& m.tp_hits == places(
                n,
                |i: int|
                    of_cell(trades[i], cell) && trades[i].exit_reason == ExitReason::TpTouched,
            ).len()
            &&& metrics::total(nets, own) == Some(m.total_pnl@)
            &&& metrics::mean(Some(m.total_pnl@), m.n_trades as nat) == Some(m.avg_pnl@)
        }),
{
    let n = trades.len();
    let nets = Seq::new(n, |i: int| trades[i].net_pnl@);
    let own = Seq::new(n, |i: int| of_cell(trades[i], cell));
    assert(metrics::nets(trades) =~= nets);
    assert forall|i: int| 0 <= i < n implies of_cell(#[trigger] trades[i], cell) == (
    metrics::cell_of(*trades[i].position) == cell) by {
        lemma_cell(trades[i], cell);
    }
    assert(metrics::cell_flags(trades, cell, None) =~= own);
    lemma_count(own, |i: int| of_cell(trades[i], cell));
    lemma_count(
        metrics::won(nets, own),
        |i: int| of_cell(trades[i], cell) && trades[i].net_pnl@.m > 0,
    );
    lemma_count(
        metrics::cell_flags(trades, cell, Some(ExitReason::TpTouched)),
        |i: int| of_cell(trades[i], cell) && trades[i].exit_reason == ExitReason::TpTouched,
    );
}

/// The lots are in one market, on one side of it.
pub open spec fn side_by_side(a: VariantTrade<'_>, b: VariantTrade<'_>) -> bool {
    a.position.asset@ == b.position.asset@ && a.position.interval@ == b.position.interval@
        && a.position.epoch == b.position.epoch && a.position.direction@ == b.position.direction@
}

/// Trade `i` is the only one of those flagged on its side.
pub open spec fn by_itself(trades: Seq<VariantTrade<'_>>, flags: Seq<bool>, i: int) -> bool {
    flags[i] && forall|j: int|
        0 <= j < trades.len() && flags[j] && side_by_side(#[trigger] trades[j], trades[i]) ==> j == i
}

/// Trade `i` is the first of those flagged on its side.
pub open spec fn leads(trades: Seq<VariantTrade<'_>>, flags: Seq<bool>, i: int) -> bool {
    flags[i] && forall|j: int|
        0 <= j < i && flags[j] ==> !side_by_side(#[trigger] trades[j], trades[i])
}

proof fn lemma_one_flag(flags: Seq<bool>, i: int)
    requires
        0 <= i < flags.len(),
        flags[i],
    ensures
        metrics::count(flags) >= 1,
        metrics::count(flags) == 1 <==> forall|j: int|
            0 <= j < flags.len() && #[trigger] flags[j] ==> j == i,
    decreases flags.len(),
{
    let less = flags.drop_last();
    let n = less.len() as int;
    assert forall|j: int| 0 <= j < n implies less[j] == #[trigger] flags[j] by {}
    if i == n {
        lemma_no_flag(less);
        if forall|j: int| 0 <= j < flags.len() && #[trigger] flags[j] ==> j == i {
            assert forall|j: int| 0 <= j < n implies !#[trigger] less[j] by {
                assert(less[j] == flags[j]);
            }
        }
        if metrics::count(flags) == 1 {
            assert forall|j: int| 0 <= j < flags.len() && #[trigger] flags[j] implies j == i by {
                if j < n {
                    assert(less[j]);
                }
            }
        }
    } else {
        lemma_one_flag(less, i);
        if metrics::count(flags) == 1 {
            assert(!flags[n]);
            assert forall|j: int| 0 <= j < flags.len() && #[trigger] flags[j] implies j == i by {
                if j < n {
                    assert(less[j]);
                }
            }
        }
        if forall|j: int| 0 <= j < flags.len() && #[trigger] flags[j] ==> j == i {
            assert(!flags[n]);
            assert forall|j: int| 0 <= j < n && #[trigger] less[j] implies j == i by {
                assert(flags[j]);
            }
        }
    }
}

proof fn lemma_no_flag(flags: Seq<bool>)
    ensures
        metrics::count(flags) == 0 <==> forall|j: int|
            0 <= j < flags.len() ==> !#[trigger] flags[j],
    decreases flags.len(),
{
    if flags.len() > 0 {
        let less = flags.drop_last();
        let n = less.len() as int;
        lemma_no_flag(less);
        assert forall|j: int| 0 <= j < n implies less[j] == #[trigger] flags[j] by {}
        if metrics::count(flags) == 0 {
            assert forall|j: int| 0 <= j < flags.len() implies !#[trigger] flags[j] by {
                if j < n {
                    assert(!less[j]);
                }
            }
        }
        if forall|j: int| 0 <= j < flags.len() ==> !#[trigger] flags[j] {
            assert(!flags[n]);
            assert forall|j: int| 0 <= j < n implies !#[trigger] less[j] by {
                assert(!flags[j]);
            }
        }
    }
}

proof fn lemma_alone(trades: Seq<VariantTrade<'_>>, flags: Seq<bool>, i: int)
    requires
        flags.len() == trades.len(),
        0 <= i < trades.len(),
        flags[i],
    ensures
        dca::is_alone(trades, flags, i) <==> by_itself(trades, flags, i),
        dca::is_first(trades, flags, i) <==> leads(trades, flags, i),
{
    let g = dca::group(trades, flags, i);
    assert(g[i]);
    lemma_one_flag(g, i);
    assert forall|j: int| 0 <= j < trades.len() implies #[trigger] g[j] == (flags[j]
        && side_by_side(trades[j], trades[i])) by {}
    if by_itself(trades, flags, i) {
        assert forall|j: int| 0 <= j < g.len() && #[trigger] g[j] implies j == i by {
            assert(side_by_side(trades[j], trades[i]));
        }
    }
    if dca::is_alone(trades, flags, i) {
        assert forall|j: int|
            0 <= j < trades.len() && flags[j] && side_by_side(
                #[trigger] trades[j],
                trades[i],
            ) implies j == i by {
            assert(g[j]);
        }
    }
    assert forall|j: int| 0 <= j < trades.len() implies dca::same_side(
        *(#[trigger] trades[j]).position,
        *trades[i].position,
    ) == side_by_side(trades[j], trades[i]) by {}
}

/// What further lots were worth: a side with one lot is single, one with more is not,
/// and each side is counted once, by its first lot; every lot of a side with more is
/// counted as such. The edge is the mean of the latter less the mean of the former.
pub proof fn law_further_lots_are_told_apart(
    b: DcaBreakdown,
    trades: Seq<VariantTrade<'_>>,
    flags: Seq<bool>,
)
    requires
        flags.len() == trades.len(),
        dca::is_breakdown(b, trades, flags),
    ensures
        ({
            let n = trades.len();
            let nets = Seq::new(n, |i: int| trades[i].net_pnl@);
            let single = Seq::new(n, |i: int| flags[i] && by_itself(trades, flags, i));
            let many = Seq::new(n, |i: int| flags[i] && !by_itself(trades, flags, i));
            let mean_single = metrics::mean(metrics::total(nets, single), metrics::count(single));
            let mean_many = metrics::mean(metrics::total(nets, many), metrics::count(many));
            &&& b.n_single_market_sides == places(n, |i: int| by_itself(trades, flags, i)).len()
            &&& b.n_dca_market_sides == places(
                n,
                |i: int| leads(trades, flags, i) && !by_itself(trades, flags, i),
            ).len()
            &&& b.n_market_sides_total == b.n_single_market_sides + b.n_dca_market_sides
            &&& b.n_positions_dca == places(
                n,
                |i: int| flags[i] && !by_itself(trades, flags, i),
            ).len()
            &&& b.wins_single == places(
                n,
                |i: int| by_itself(trades, flags, i) && trades[i].net_pnl@.m > 0,
            ).len()
            &&& b.wins_dca == places(
                n,
                |i: int|
                    flags[i] && !by_itself(trades, flags, i) && trades[i].net_pnl@.m > 0,
            ).len()
            &&& decimal::opt(b.pnl_per_trade_single) == mean_single
            &&& decimal::opt(b.pnl_per_trade_dca) == mean_many
            &&& mean_single is Some && mean_many is Some ==> decimal::opt(b.dca_edge)
                == decimal::minus(mean_many->0, mean_single->0)
        }),
{
    let n = trades.len();
    let nets = Seq::new(n, |i: int| trades[i].net_pnl@);
    assert(metrics::nets(trades) =~= nets);
    let single = Seq::new(n, |i: int| flags[i] && by_itself(trades, flags, i));
    let many = Seq::new(n, |i: int| flags[i] && !by_itself(trades, flags, i));
    assert forall|i: int| 0 <= i < n && #[trigger] flags[i] implies (dca::is_alone(
        trades,
        flags,
        i,
    ) == by_itself(trades, flags, i)) && (dca::is_first(trades, flags, i) == leads(
        trades,
        flags,
        i,
    )) by {
        lemma_alone(trades, flags, i);
    }
    assert(dca::side_flags(trades, flags, true) =~= single);
    assert(dca::side_flags(trades, flags, false) =~= many);
    lemma_count(many, |i: int| flags[i] && !by_itself(trades, flags, i));
    lemma_count(
        metrics::won(nets, single),
        |i: int| by_itself(trades, flags, i) && trades[i].net_pnl@.m > 0,
    );
    lemma_count(
        metrics::won(nets, many),
        |i: int| flags[i] && !by_itself(trades, flags, i) && trades[i].net_pnl@.m > 0,
    );
    let ones = dca::first_flags(trades, flags, true);
    assert forall|i: int| 0 <= i < n implies ones[i] == #[trigger] by_itself(trades, flags, i) by {
        if by_itself(trades, flags, i) {
            assert(flags[i]);
            assert(leads(trades, flags, i)) by {
                assert forall|j: int| 0 <= j < i && flags[j] implies !side_by_side(
                    #[trigger] trades[j],
                    trades[i],
                ) by {
                    if side_by_side(trades[j], trades[i]) {
                        assert(j == i);
                    }
                }
            }
        }
        if flags[i] {
            lemma_alone(trades, flags, i);
        }
    }
    lemma_count(ones, |i: int| by_itself(trades, flags, i));
    let more = dca::first_flags(trades, flags, false);
    assert forall|i: int| 0 <= i < n implies #[trigger] more[i] == (leads(trades, flags, i)
        && !by_itself(trades, flags, i)) by {
        if flags[i] {
            lemma_alone(trades, flags, i);
        }
    }
    lemma_count(more, |i: int| leads(trades, flags, i) && !by_itself(trades, flags, i));
}

/// A side with more than one lot wins where its lots made a profit together, and loses
/// otherwise; what the winning and the losing sides made is added up apart.
pub proof fn law_sides_win_together(
    b: DcaBreakdown,
    trades: Seq<VariantTrade<'_>>,
    flags: Seq<bool>,
)
    requires
        flags.len() == trades.len(),
        dca::is_breakdown(b, trades, flags),
    ensures
        ({
            let n = trades.len();
            let nets = Seq::new(n, |i: int| trades[i].net_pnl@);
            let made = |i: int|
                metrics::total(
                    nets,
                    Seq::new(n, |j: int| flags[j] && side_by_side(trades[j], trades[i])),
                );
            let gained = |i: int| made(i) matches Some(d) && d.m > 0;
            let side = |i: int| leads(trades, flags, i) && !by_itself(trades, flags, i);
            &&& b.n_dca_winners_ms == places(n, |i: int| side(i) && gained(i)).len()
            &&& b.n_dca_losers_ms == places(n, |i: int| side(i) && !gained(i)).len()
            &&& decimal::opt(b.sum_pnl_dca_winners) == sum_where(
                made,
                |i: int| side(i) && gained(i),
                n as int,
            )
            &&& decimal::opt(b.sum_pnl_dca_losers) == sum_where(
                made,
                |i: int| side(i) && !gained(i),
                n as int,
            )
        }),
{
    let n = trades.len();
    let nets = Seq::new(n, |i: int| trades[i].net_pnl@);
    assert(metrics::nets(trades) =~= nets);
    let made = |i: int|
        metrics::total(nets, Seq::new(n, |j: int| flags[j] && side_by_side(trades[j], trades[i])));
    let gained = |i: int| made(i) matches Some(d) && d.m > 0;
    let side = |i: int| leads(trades, flags, i) && !by_itself(trades, flags, i);
    let (won, lost) = (|i: int| side(i) && gained(i), |i: int| side(i) && !gained(i));
    assert forall|i: int| 0 <= i < n implies dca::result_flags(trades, flags, true)[i]
        == #[trigger] won(i) && dca::result_flags(trades, flags, false)[i] == lost(i)
        && dca::group_total(trades, flags, i) == made(i) by {
        if flags[i] {
            lemma_alone(trades, flags, i);
        }
        assert(dca::group(trades, flags, i) =~= Seq::new(
            n,
            |j: int| flags[j] && side_by_side(trades[j], trades[i]),
        ));
    }
    assert forall|i: int| 0 <= i < n implies dca::result_flags(trades, flags, false)[i]
        == #[trigger] lost(i) && dca::group_total(trades, flags, i) == made(i) by {
        assert(dca::result_flags(trades, flags, true)[i] == won(i));
    }
    lemma_count(dca::result_flags(trades, flags, true), won);
    lemma_count(dca::result_flags(trades, flags, false), lost);
    lemma_sum_where(trades, flags, true, made, won, n as int);
    lemma_sum_where(trades, flags, false, made, lost, n as int);
}

/// The sum of amounts at the places up to `n` of which something holds.
pub open spec fn sum_where(
    amount: spec_fn(int) -> Option<DecV>,
    of: spec_fn(int) -> bool,
    n: int,
) -> Option<DecV>
    decreases n,
{
    if n <= 0 {
        Some(decimal::zero())
    } else if of(n - 1) {
        match (sum_where(amount, of, n - 1), amount(n - 1)) {
            (Some(a), Some(b)) => decimal::plus(a, b),
            _ => None,
        }
    } else {
        sum_where(amount, of, n - 1)
    }
}

proof fn lemma_sum_where(
    trades: Seq<VariantTrade<'_>>,
    flags: Seq<bool>,
    gain: bool,
    made: spec_fn(int) -> Option<DecV>,
    of: spec_fn(int) -> bool,
    n: int,
)
    requires
        0 <= n <= trades.len(),
        forall|i: int|
            0 <= i < trades.len() ==> dca::result_flags(trades, flags, gain)[i] == #[trigger] of(i)
                && dca::group_total(trades, flags, i) == made(i),
    ensures
        dca::result_sum(trades, flags, gain, n) == sum_where(made, of, n),
    decreases n,
{
    if n > 0 {
        lemma_sum_where(trades, flags, gain, made, of, n - 1);
        assert(of(n - 1) == dca::result_flags(trades, flags, gain)[n - 1]);
    }
}

/// The name of a cell gives its asset and its interval back.
pub proof fn law_cell_names_come_apart(asset: Seq<char>, interval: Seq<char>)
    requires
        !asset.contains('_'),
    ensures
        ({
            let name = asset.push('_') + interval;
            dca::cell_asset(name) == asset && dca::cell_interval(name) == interval
        }),
{
    let name = asset.push('_') + interval;
    lemma_index(name, '_', asset.len() as int);
    assert(name.take(asset.len() as int) =~= asset);
    assert(name.skip(asset.len() as int + 1) =~= interval);
}

proof fn lemma_index(s: Seq<char>, c: char, n: int)
    requires
        0 <= n < s.len(),
        s[n] == c,
        forall|i: int| 0 <= i < n ==> s[i] != c,
    ensures
        text::index_of(s, c) == n,
    decreases n,
{
    if n > 0 {
        let rest = s.drop_first();
        assert(s[0] != c);
        assert forall|i: int| 0 <= i < n - 1 implies rest[i] != c by {
            assert(rest[i] == s[i + 1]);
        }
        lemma_index(rest, c, n - 1);
    }
}

/// What a lot of a replay counts as: nothing where its cell is retired, its profits and
/// no kind where it is sold at its time, its profits, kind and flag where it has a maker
/// exit.
pub proof fn law_lots_are_counted_by_their_kind(lot: ReplayLot)
    ensures
        strategy_replay::result_of(lot) is None <==> lot is Excluded,
        lot matches ReplayLot::Baseline { gross, net } ==> strategy_replay::result_of(lot) == Some(
            (gross@, net@, None::<B3ExitKind>, false),
        ),
        lot matches ReplayLot::Maker { outcome, invalid_target } ==> strategy_replay::result_of(lot)
            == Some(
            (
                outcome.gross_pnl@,
                outcome.net_pnl@,
                Some(outcome.exit_kind),
                invalid_target,
            ),
        ),
{
}

/// The cells together have the lots and wins of each of them.
pub proof fn law_cells_add_up(a: Seq<CellAgg>, b: Seq<CellAgg>, c: CellAgg)
    ensures
        strategy_replay::lots(a + b) == strategy_replay::lots(a) + strategy_replay::lots(b),
        strategy_replay::wins(a + b) == strategy_replay::wins(a) + strategy_replay::wins(b),
        strategy_replay::lots(seq![c]) == c.n,
        strategy_replay::wins(seq![c]) == c.net_wins,
        strategy_replay::amounts(seq![c]) == (
            Some(c.gross@),
            Some(c.net@),
            Some(c.net_gross_gain@),
            Some(c.net_gross_loss@),
        ),
    decreases b.len(),
{
    assert(seq![c].drop_last() =~= Seq::empty());
    assert(strategy_replay::lots(Seq::empty()) == 0 && strategy_replay::wins(Seq::empty()) == 0);
    let z = Some(decimal::zero());
    assert(strategy_replay::amounts(Seq::empty()) == (z, z, z, z));
    if b.len() == 0 {
        assert(a + b =~= a);
    } else {
        law_cells_add_up(a, b.drop_last(), c);
        assert((a + b).drop_last() =~= a + b.drop_last());
        assert((a + b).last() == b.last());
    }
}

/// The amounts of the cells together grow by those of one more cell.
pub proof fn law_amounts_add_up(a: Seq<CellAgg>, c: CellAgg)
    ensures
        ({
            let (g, n, x, y) = strategy_replay::amounts(a);
            let (g2, n2, x2, y2) = strategy_replay::amounts(a.push(c));
            &&& g matches Some(v) ==> g2 == decimal::plus(v, c.gross@)
            &&& n matches Some(v) ==> n2 == decimal::plus(v, c.net@)
            &&& x matches Some(v) ==> x2 == decimal::plus(v, c.net_gross_gain@)
            &&& y matches Some(v) ==> y2 == decimal::plus(v, c.net_gross_loss@)
        }),
{
    assert(a.push(c).drop_last() =~= a);
}

/// A lot is counted in its own cell: that cell has one more, and every other cell has
/// what it had.
pub proof fn law_a_lot_is_counted_in_its_cell(
    before: StrategyReplay,
    after: StrategyReplay,
    name: Seq<char>,
    gross: DecV,
    net: DecV,
    kind: Option<B3ExitKind>,
    invalid: bool,
    other: Seq<char>,
    agg: CellAgg,
)
    requires
        after.counts(before, name, gross, net, kind, invalid),
        other != name,
    ensures
        is_total(after, other, agg) <==> is_total(before, other, agg),
        exists|a: CellAgg, b: CellAgg|
            #![trigger is_total(before, name, a), is_total(after, name, b)]
            is_total(after, name, b) && b3_maker::counted(a, b, gross, net, kind, invalid) && (
            is_total(before, name, a) || a.blank() && !has_totals(before, name)),
{
    lemma_has(before, other, agg);
    lemma_has(after, other, agg);
    assert(after.has(other, agg) == before.has(other, agg));
    let (a, b) = choose|a: CellAgg, b: CellAgg| #[trigger]
        before.had(name, a) && #[trigger] after.has(name, b) && b3_maker::counted(
            a,
            b,
            gross,
            net,
            kind,
            invalid,
        );
    lemma_has(before, name, a);
    lemma_has(after, name, b);
    assert(is_total(after, name, b));
}

/// The cell has totals.
pub open spec fn has_totals(r: StrategyReplay, name: Seq<char>) -> bool {
    exists|i: int| 0 <= i < r.names().len() && (#[trigger] r.names()[i])@ == name
}

/// The cell has these totals.
pub open spec fn is_total(r: StrategyReplay, name: Seq<char>, agg: CellAgg) -> bool {
    exists|i: int|
        0 <= i < r.names().len() && (#[trigger] r.names()[i])@ == name && r.totals()[i] == agg
}

proof fn lemma_has(r: StrategyReplay, name: Seq<char>, agg: CellAgg)
    ensures
        r.has(name, agg) <==> is_total(r, name, agg),
{
    if r.has(name, agg) {
        let i = choose|i: int| #[trigger] r.is_at(i, name) && r.totals()[i] == agg;
        assert(r.names()[i]@ == name);
    }
    if is_total(r, name, agg) {
        let i = choose|i: int|
            0 <= i < r.names().len() && (#[trigger] r.names()[i])@ == name && r.totals()[i] == agg;
        assert(r.is_at(i, name));
    }
}

/// A run with an entry filter comes to what all its trades do; each of its cells to what
/// its own do, with the markets in which lots were held on both sides.
pub proof fn law_a_run_comes_to_its_trades(
    s: EntryFilterRunSummary,
    trades: Seq<VariantTrade<'_>>,
    positions: Seq<CollectedPosition>,
    i: int,
)
    requires
        dca::is_run_summary(s, trades, positions),
        0 <= i < s.by_cell@.len(),
    ensures
        ({
            let n = trades.len();
            let nets = Seq::new(n, |k: int| trades[k].net_pnl@);
            let all = Seq::new(n, |k: int| true);
            let (name, c) = s.by_cell@[i];
            let own = Seq::new(n, |k: int| of_cell(trades[k], name@));
            &&& s.n_trades_total == n
            &&& s.wins == places(n, |k: int| trades[k].net_pnl@.m > 0).len()
            &&& decimal::opt(s.total_pnl) == metrics::total(nets, all)
            &&& decimal::opt(s.avg_pnl) == metrics::mean(metrics::total(nets, all), n)
            &&& s.n_double_sided_markets_total == entry_filter::doubles(
                positions,
                positions.len() as int,
                None,
            )
            &&& dca::is_breakdown(s.dca_breakdown, trades, all)
            &&& c.n_trades == places(n, |k: int| of_cell(trades[k], name@)).len()
            &&& c.wins == places(
                n,
                |k: int| of_cell(trades[k], name@) && trades[k].net_pnl@.m > 0,
            ).len()
            &&& decimal::opt(c.total_pnl) == metrics::total(nets, own)
            &&& decimal::opt(c.avg_pnl) == metrics::mean(
                metrics::total(nets, own),
                c.n_trades as nat,
            )
            &&& c.n_double_sided_markets == entry_filter::doubles(
                positions,
                positions.len() as int,
                Some((dca::cell_asset(name@), dca::cell_interval(name@))),
            )
            &&& dca::is_breakdown(c.dca_breakdown, trades, own)
        }),
{
    let n = trades.len();
    let nets = Seq::new(n, |k: int| trades[k].net_pnl@);
    let all = Seq::new(n, |k: int| true);
    let (name, c) = s.by_cell@[i];
    let cell = name@;
    let own = Seq::new(n, |k: int| of_cell(trades[k], cell));
    assert(metrics::nets(trades) =~= nets);
    assert(metrics::reason_flags(trades, None) =~= all);
    assert forall|k: int| 0 <= k < n implies of_cell(#[trigger] trades[k], cell) == (
    metrics::cell_of(*trades[k].position) == cell) by {
        lemma_cell(trades[k], cell);
    }
    assert(metrics::cell_flags(trades, cell, None) =~= own);
    assert(dca::is_cell_summary(c, trades, positions, cell));
    lemma_count(metrics::won(nets, all), |k: int| trades[k].net_pnl@.m > 0);
    lemma_count(own, |k: int| of_cell(trades[k], cell));
    lemma_count(
        metrics::won(nets, own),
        |k: int| of_cell(trades[k], cell) && trades[k].net_pnl@.m > 0,
    );
}

/// The cells of trades are listed once each, in dictionary order: every cell that has a
/// trade, and no other.
pub proof fn law_cells_are_listed_once(
    names: Seq<String>,
    trades: Seq<VariantTrade<'_>>,
    i: int,
    j: int,
)
    requires
        metrics::are_cells(names, trades),
        0 <= i < j < names.len(),
    ensures
        names[i]@ != names[j]@,
        text::dictionary_le(names[i]@, names[j]@),
        exists|k: int| 0 <= k < trades.len() && of_cell(#[trigger] trades[k], names[i]@),
        forall|k: int|
            0 <= k < trades.len() ==> exists|c: int|
                0 <= c < names.len() && of_cell(#[trigger] trades[k], (#[trigger] names[c])@),
{
    assert(metrics::is_cell(trades, names[i]@));
    let k = choose|k: int|
        0 <= k < trades.len() && metrics::cell_of(*(#[trigger] trades[k]).position) == names[i]@;
    lemma_cell(trades[k], names[i]@);
    assert forall|k: int| 0 <= k < trades.len() implies exists|c: int|
        0 <= c < names.len() && of_cell(#[trigger] trades[k], (#[trigger] names[c])@) by {
        let name = metrics::cell_of(*trades[k].position);
        assert(metrics::has_name(names, name));
        let c = choose|c: int| 0 <= c < names.len() && (#[trigger] names[c])@ == name;
        lemma_cell(trades[k], names[c]@);
        assert(of_cell(trades[k], names[c]@));
    }
}

} // verus!
