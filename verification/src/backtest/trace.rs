//! What was to be had of each lot at fixed moments after its entry.

use crate::backtest::exits::{ExitReason, ExitVariant};
use crate::backtest::metrics::{self, evaluate_variant, VariantTrade};
use crate::backtest::position::CollectedPosition;
use crate::backtest::trajectory::{
    self, bid_at_offset, high_water_marks, low_water_marks, max_bid_in_window, min_bid_in_window,
};
use crate::decimal::Dec;
use vstd::prelude::*;

verus! {

/// The seconds after an entry that a trace looks at.
pub const TRACE_WINDOW_S: i64 = 120;

/// A lot, how it ended when it was held, and what was to be had of it before.
#[derive(Debug)]
pub struct ExitsTraceRow<'a> {
    pub position: &'a CollectedPosition,
    pub baseline_exit_price: Dec,
    pub baseline_net_pnl: Dec,
    pub baseline_exit_reason: ExitReason,
    pub bid_at_5s: Option<u128>,
    pub bid_at_15s: Option<u128>,
    pub bid_at_30s: Option<u128>,
    pub bid_at_60s: Option<u128>,
    pub bid_at_120s: Option<u128>,
    /// The highest value in the window and its offset.
    pub max_bid_120s: Option<(u128, i64)>,
    pub min_bid_120s: Option<(u128, i64)>,
    /// The new highs in the window, each with its offset.
    pub hwm_120s: Vec<(i64, u128)>,
    pub lwm_120s: Vec<(i64, u128)>,
}

pub open spec fn pair(v: Option<(u128, i64)>) -> Option<(int, int)> {
    match v {
        Some((v, ms)) => Some((v as int, ms as int)),
        None => None,
    }
}

/// What was to be had of a lot `seconds` after its entry.
pub open spec fn had_at(p: CollectedPosition, seconds: i64) -> Option<u128> {
    trajectory::value_at(p.trajectory@, trajectory::moment(p.entry_recv_ms, seconds))
}

/// The row of a trade.
pub open spec fn is_row(r: ExitsTraceRow<'_>, t: VariantTrade<'_>) -> bool {
    let p = *t.position;
    let window = trajectory::window(p.trajectory@, p.entry_recv_ms, 120);
    &&& *r.position == p
    &&& r.baseline_exit_price@ == t.exit_price@
    &&& r.baseline_net_pnl@ == t.net_pnl@
    &&& r.baseline_exit_reason == t.exit_reason
    &&& r.bid_at_5s == had_at(p, 5)
    &&& r.bid_at_15s == had_at(p, 15)
    &&& r.bid_at_30s == had_at(p, 30)
    &&& r.bid_at_60s == had_at(p, 60)
    &&& r.bid_at_120s == had_at(p, 120)
    &&& pair(r.max_bid_120s) == trajectory::extreme(true, window, p.entry_recv_ms)
    &&& pair(r.min_bid_120s) == trajectory::extreme(false, window, p.entry_recv_ms)
    &&& trajectory::plain(r.hwm_120s@) == trajectory::marks(true, window, p.entry_recv_ms)
    &&& trajectory::plain(r.lwm_120s@) == trajectory::marks(false, window, p.entry_recv_ms)
}

/// The row of a trade.
pub fn trace_row<'a>(t: &VariantTrade<'a>) -> (r: ExitsTraceRow<'a>)
    requires
        trajectory::offsets_fit(t.position.trajectory@, t.position.entry_recv_ms),
    ensures
        is_row(r, *t),
{
    let p = t.position;
    let s = p.trajectory.as_slice();
    let e: i64 = p.entry_recv_ms;
    ExitsTraceRow {
        position: p,
        baseline_exit_price: t.exit_price,
        baseline_net_pnl: t.net_pnl,
        baseline_exit_reason: t.exit_reason,
        bid_at_5s: bid_at_offset(s, e, 5),
        bid_at_15s: bid_at_offset(s, e, 15),
        bid_at_30s: bid_at_offset(s, e, 30),
        bid_at_60s: bid_at_offset(s, e, 60),
        bid_at_120s: bid_at_offset(s, e, 120),
        max_bid_120s: max_bid_in_window(s, e, TRACE_WINDOW_S),
        min_bid_120s: min_bid_in_window(s, e, TRACE_WINDOW_S),
        hwm_120s: high_water_marks(s, e, TRACE_WINDOW_S),
        lwm_120s: low_water_marks(s, e, TRACE_WINDOW_S),
    }
}

/// The rows of lots that are all held to their end: one for each lot, in order.
/// `None` where an amount is out of range.
pub fn trace_exits(positions: &[CollectedPosition]) -> (r: Option<Vec<ExitsTraceRow<'_>>>)
    requires
        forall|i: int| 0 <= i < positions@.len() ==> (#[trigger] positions@[i]).wf(),
        forall|i: int|
            0 <= i < positions@.len() ==> trajectory::offsets_fit(
                (#[trigger] positions@[i]).trajectory@,
                positions@[i].entry_recv_ms,
            ),
    ensures
        match r {
            Some(rows) => rows@.len() == positions@.len() && forall|i: int|
                0 <= i < rows@.len() ==> is_trace(#[trigger] rows@[i], positions@[i]),
            None => exists|i: int|
                0 <= i < positions@.len() && !metrics::trade_fits(
                    #[trigger] positions@[i],
                    ExitVariant::Baseline,
                ),
        },
{
    let trades = match evaluate_variant(positions, ExitVariant::Baseline) {
        Some(t) => t,
        None => {
            return None;
        },
    };
    let mut out: Vec<ExitsTraceRow<'_>> = Vec::new();
    let mut i: usize = 0;
    while i < trades.len()
        invariant
            i <= trades@.len(),
            trades@.len() == positions@.len(),
            forall|k: int|
                0 <= k < trades@.len() ==> metrics::is_trade(
                    #[trigger] trades@[k],
                    positions@[k],
                    ExitVariant::Baseline,
                ),
            forall|k: int|
                0 <= k < positions@.len() ==> trajectory::offsets_fit(
                    (#[trigger] positions@[k]).trajectory@,
                    positions@[k].entry_recv_ms,
                ),
            out@.len() == i,
            forall|k: int| 0 <= k < i ==> is_trace(#[trigger] out@[k], positions@[k]),
        decreases trades@.len() - i,
    {
        let t = &trades[i];
        assert(metrics::is_trade(trades@[i as int], positions@[i as int], ExitVariant::Baseline));
        assert(trajectory::offsets_fit(
            positions@[i as int].trajectory@,
            positions@[i as int].entry_recv_ms,
        ));
        let row = trace_row(t);
        assert(is_trace(row, positions@[i as int]));
        out.push(row);
        i += 1;
    }
    Some(out)
}

/// The row of a lot that is held to its end.
pub open spec fn is_trace(r: ExitsTraceRow<'_>, p: CollectedPosition) -> bool {
    exists|t: VariantTrade<'_>| #[trigger]
        metrics::is_trade(t, p, ExitVariant::Baseline) && is_row(r, t)
}

/// Whatever was to be had of a lot at a moment of the window lies between the
/// lowest and the highest value of the window, and the moments of these lie in the
/// window.
pub proof fn law_marks_bound_what_was_had(r: ExitsTraceRow<'_>, t: VariantTrade<'_>)
    requires
        is_row(r, t),
    ensures
        forall|i: int|
            0 <= i < t.position.trajectory@.len() && t.position.entry_recv_ms <= (
            #[trigger] t.position.trajectory@[i]).0 < trajectory::moment(
                t.position.entry_recv_ms,
                120,
            ) ==> (t.position.trajectory@[i].1 matches Some(v) ==> (r.max_bid_120s matches Some(
                (m, _),
            ) && v <= m) && (r.min_bid_120s matches Some((l, _)) && l <= v)),
        r.max_bid_120s matches Some((_, ms)) ==> 0 <= ms < 120_000,
        r.min_bid_120s matches Some((_, ms)) ==> 0 <= ms < 120_000,
{
    let p = *t.position;
    let w = trajectory::window(p.trajectory@, p.entry_recv_ms, 120);
    trajectory::law_marks_improve_to_the_best(true, w, p.entry_recv_ms);
    trajectory::law_marks_improve_to_the_best(false, w, p.entry_recv_ms);
    trajectory::law_window_is_the_time_between(
        p.trajectory@,
        p.entry_recv_ms as int,
        trajectory::moment(p.entry_recv_ms, 120),
    );
    assert forall|i: int|
        0 <= i < p.trajectory@.len() && p.entry_recv_ms <= (#[trigger] p.trajectory@[i]).0
            < trajectory::moment(p.entry_recv_ms, 120) implies (p.trajectory@[i].1 matches Some(v)
        ==> (r.max_bid_120s matches Some((m, _)) && v <= m) && (r.min_bid_120s matches Some((l, _))
        && l <= v)) by {
        assert(w.contains(p.trajectory@[i]));
        let k = choose|k: int| 0 <= k < w.len() && w[k] == p.trajectory@[i];
        assert(w[k].1 == p.trajectory@[i].1);
    }
    let highs = trajectory::marks(true, w, p.entry_recv_ms);
    if highs.len() > 0 {
        assert(trajectory::is_sample(w, p.entry_recv_ms, highs[highs.len() - 1]));
    }
    let lows = trajectory::marks(false, w, p.entry_recv_ms);
    if lows.len() > 0 {
        assert(trajectory::is_sample(w, p.entry_recv_ms, lows[lows.len() - 1]));
    }
}

} // verus!
