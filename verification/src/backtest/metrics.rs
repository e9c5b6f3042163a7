//! What a policy made of a run's lots.

use crate::b3_maker::{self, cell_label, checked_net_pnl, checked_taker_fee};
use crate::backtest::exits::{self, decide_exit_for_variant, ExitReason, ExitVariant};
use crate::backtest::position::CollectedPosition;
use crate::decimal::{self, add_amounts, div_amounts, Dec, DecV};
use crate::text::{self, same_text, text_le};
use vstd::prelude::*;

verus! {

/// What a trade leaves after both fees, where all amounts are in range.
pub open spec fn net(shares: DecV, entry: DecV, exit: DecV) -> Option<DecV> {
    b3_maker::net_profit(shares, entry, exit, b3_maker::fee(shares, exit))
}

/// `shares` bought at `entry` and sold at `exit`, both as a taker.
pub fn net_pnl_for(shares: Dec, entry: Dec, exit: Dec) -> (r: Option<Dec>)
    ensures
        decimal::opt(r) == net(shares@, entry@, exit@),
{
    checked_net_pnl(shares, entry, exit, checked_taker_fee(shares, exit))
}

/// The size of a lot.
pub open spec fn lot_shares(p: CollectedPosition) -> DecV {
    decimal::dec(p.shares as int, 6)
}

/// The price that was paid for it.
pub open spec fn lot_entry(p: CollectedPosition) -> DecV {
    decimal::dec(p.entry_price as int, 4)
}

/// The average price of a sale of the whole lot that brings `value`.
pub open spec fn average(p: CollectedPosition, value: int) -> Option<DecV> {
    if value == 0 {
        Some(decimal::zero())
    } else {
        decimal::over(decimal::dec(value, 10), lot_shares(p))
    }
}

/// What is left of such a sale after both fees.
pub open spec fn lot_net(p: CollectedPosition, value: int) -> Option<DecV> {
    match average(p, value) {
        Some(x) => net(lot_shares(p), lot_entry(p), x),
        None => None,
    }
}

fn shares_of(p: &CollectedPosition) -> (r: Dec)
    ensures
        r@ == lot_shares(*p),
{
    match Dec::from_parts(p.shares as i128, 6) {
        Some(d) => d,
        None => Dec::zero(),
    }
}

fn entry_of(p: &CollectedPosition) -> (r: Dec)
    ensures
        r@ == lot_entry(*p),
{
    Dec::new(p.entry_price as i64, 4)
}

fn average_price(p: &CollectedPosition, value: u128) -> (r: Option<Dec>)
    requires
        value <= p.shares * u32::MAX,
    ensures
        decimal::opt(r) == average(*p, value as int),
{
    proof {
        assert(p.shares * u32::MAX <= u64::MAX * u32::MAX) by (nonlinear_arith)
            requires
                0 <= p.shares <= u64::MAX,
        ;
    }
    if value == 0 {
        Some(Dec::zero())
    } else {
        match Dec::from_parts(value as i128, 10) {
            Some(v) => v.checked_div(shares_of(p)),
            None => None,
        }
    }
}

/// What is left of a sale of the whole lot that brings `value`.
pub fn lot_pnl(p: &CollectedPosition, value: u128) -> (r: Option<Dec>)
    requires
        value <= p.shares * u32::MAX,
    ensures
        decimal::opt(r) == lot_net(*p, value as int),
{
    match average_price(p, value) {
        Some(x) => net_pnl_for(shares_of(p), entry_of(p), x),
        None => None,
    }
}

/// A lot with what a policy made of it.
#[derive(Debug)]
pub struct VariantTrade<'a> {
    pub position: &'a CollectedPosition,
    pub exit_price: Dec,
    pub exit_reason: ExitReason,
    pub net_pnl: Dec,
}

/// The trade that a policy makes of a lot.
pub open spec fn is_trade(t: VariantTrade<'_>, p: CollectedPosition, v: ExitVariant) -> bool {
    let (value, reason) = exits::exit_of(p, v);
    &&& *t.position == p
    &&& t.exit_reason == reason
    &&& average(p, value) == Some(t.exit_price@)
    &&& lot_net(p, value) == Some(t.net_pnl@)
}

/// Its amounts are in range.
pub open spec fn trade_fits(p: CollectedPosition, v: ExitVariant) -> bool {
    lot_net(p, exits::exit_of(p, v).0) is Some
}

/// The trades that a policy makes of all lots; `None` where an amount is out of
/// range.
pub fn evaluate_variant(positions: &[CollectedPosition], variant: ExitVariant) -> (r: Option<
    Vec<VariantTrade<'_>>,
>)
    requires
        forall|i: int| 0 <= i < positions@.len() ==> (#[trigger] positions@[i]).wf(),
    ensures
        match r {
            Some(t) => t@.len() == positions@.len() && forall|i: int|
                0 <= i < t@.len() ==> is_trade(#[trigger] t@[i], positions@[i], variant),
            None => exists|i: int|
                0 <= i < positions@.len() && !trade_fits(#[trigger] positions@[i], variant),
        },
{
    let mut out: Vec<VariantTrade<'_>> = Vec::new();
    let mut i: usize = 0;
    while i < positions.len()
        invariant
            i <= positions@.len(),
            forall|k: int| 0 <= k < positions@.len() ==> (#[trigger] positions@[k]).wf(),
            out@.len() == i,
            forall|k: int|
                0 <= k < out@.len() ==> is_trade(#[trigger] out@[k], positions@[k], variant),
        decreases positions@.len() - i,
    {
        let p = &positions[i];
        let (value, reason) = decide_exit_for_variant(p, variant);
        let exit_price = average_price(p, value);
        let net_pnl = lot_pnl(p, value);
        match (exit_price, net_pnl) {
            (Some(exit_price), Some(net_pnl)) => {
                out.push(VariantTrade { position: p, exit_price, exit_reason: reason, net_pnl });
            },
            _ => {
                assert(!trade_fits(positions@[i as int], variant));
                return None;
            },
        }
        i += 1;
    }
    Some(out)
}

/// The profits of trades.
pub open spec fn nets(trades: Seq<VariantTrade<'_>>) -> Seq<DecV> {
    trades.map_values(|t: VariantTrade<'_>| t.net_pnl@)
}

/// The sum of the flagged profits.
pub open spec fn total(nets: Seq<DecV>, flags: Seq<bool>) -> Option<DecV>
    decreases nets.len(),
{
    if nets.len() == 0 {
        Some(decimal::zero())
    } else {
        let before = total(nets.drop_last(), flags.drop_last());
        if flags.last() {
            decimal::o_plus(before, Some(nets.last()))
        } else {
            before
        }
    }
}

/// How many are flagged.
pub open spec fn count(flags: Seq<bool>) -> nat
    decreases flags.len(),
{
    if flags.len() == 0 {
        0
    } else {
        count(flags.drop_last()) + (if flags.last() {
            1nat
        } else {
            0nat
        })
    }
}

/// Those flagged that made a profit.
pub open spec fn won(nets: Seq<DecV>, flags: Seq<bool>) -> Seq<bool> {
    Seq::new(nets.len(), |i: int| flags[i] && nets[i].m > 0)
}

/// The mean; nothing where there is nothing.
pub open spec fn mean(sum: Option<DecV>, n: nat) -> Option<DecV> {
    if n == 0 {
        Some(decimal::zero())
    } else {
        decimal::o_over(sum, Some(decimal::dec(n as int, 0)))
    }
}

/// What flagged trades come to.
#[derive(Debug, Clone, Copy)]
pub struct Tally {
    pub n: usize,
    pub wins: usize,
    pub total: Option<Dec>,
    pub mean: Option<Dec>,
}

pub open spec fn is_tally(t: Tally, nets: Seq<DecV>, flags: Seq<bool>) -> bool {
    &&& t.n == count(flags)
    &&& t.wins == count(won(nets, flags))
    &&& decimal::opt(t.total) == total(nets, flags)
    &&& decimal::opt(t.mean) == mean(total(nets, flags), count(flags))
    &&& t.wins <= t.n <= nets.len()
}

fn mean_of(sum: Option<Dec>, n: usize) -> (r: Option<Dec>)
    ensures
        decimal::opt(r) == mean(decimal::opt(sum), n as nat),
{
    if n == 0 {
        Some(Dec::zero())
    } else {
        div_amounts(sum, Dec::from_parts(n as i128, 0))
    }
}

/// What flagged trades come to.
pub fn tally(trades: &[VariantTrade<'_>], flags: &[bool]) -> (r: Tally)
    requires
        flags@.len() == trades@.len(),
    ensures
        is_tally(r, nets(trades@), flags@),
{
    let ghost all = nets(trades@);
    let ghost wins_flags = won(all, flags@);
    let mut n: usize = 0;
    let mut wins: usize = 0;
    let mut sum: Option<Dec> = Some(Dec::zero());
    let mut i: usize = 0;
    proof {
        assert(all.take(0) =~= Seq::empty());
        assert(flags@.take(0) =~= Seq::empty());
        assert(wins_flags.take(0) =~= Seq::empty());
    }
    while i < trades.len()
        invariant
            i <= trades@.len(),
            flags@.len() == trades@.len(),
            all == nets(trades@),
            wins_flags == won(all, flags@),
            wins <= n <= i,
            n == count(flags@.take(i as int)),
            wins == count(wins_flags.take(i as int)),
            decimal::opt(sum) == total(all.take(i as int), flags@.take(i as int)),
        decreases trades@.len() - i,
    {
        proof {
            assert(all.take(i + 1).drop_last() =~= all.take(i as int));
            assert(flags@.take(i + 1).drop_last() =~= flags@.take(i as int));
            assert(wins_flags.take(i + 1).drop_last() =~= wins_flags.take(i as int));
            assert(all.take(i + 1).last() == trades@[i as int].net_pnl@);
        }
        if flags[i] {
            n += 1;
            sum = add_amounts(sum, Some(trades[i].net_pnl));
            if trades[i].net_pnl.is_positive() {
                wins += 1;
            }
        }
        i += 1;
    }
    proof {
        assert(all.take(i as int) =~= all);
        assert(flags@.take(i as int) =~= flags@);
        assert(wins_flags.take(i as int) =~= wins_flags);
    }
    Tally { n, wins, total: sum, mean: mean_of(sum, n) }
}

/// The trades of one reason, or all.
pub open spec fn reason_flags(trades: Seq<VariantTrade<'_>>, reason: Option<ExitReason>) -> Seq<bool> {
    Seq::new(
        trades.len(),
        |i: int| match reason {
            Some(x) => trades[i].exit_reason == x,
            None => true,
        },
    )
}

/// The cell of a lot.
pub open spec fn cell_of(p: CollectedPosition) -> Seq<char> {
    b3_maker::cell_name(p.asset@, p.interval@)
}

/// The trades of one cell, of one reason or of all.
pub open spec fn cell_flags(
    trades: Seq<VariantTrade<'_>>,
    cell: Seq<char>,
    reason: Option<ExitReason>,
) -> Seq<bool> {
    Seq::new(
        trades.len(),
        |i: int| cell_of(*trades[i].position) == cell && reason_flags(trades, reason)[i],
    )
}

/// Flags the trades of one reason, or all.
pub fn flag_reason(trades: &[VariantTrade<'_>], reason: Option<ExitReason>) -> (r: Vec<bool>)
    ensures
        r@ == reason_flags(trades@, reason),
{
    let mut out: Vec<bool> = Vec::new();
    let mut i: usize = 0;
    while i < trades.len()
        invariant
            i <= trades@.len(),
            out@ == reason_flags(trades@, reason).take(i as int),
        decreases trades@.len() - i,
    {
        let hit = match reason {
            Some(x) => trades[i].exit_reason == x,
            None => true,
        };
        out.push(hit);
        assert(out@ =~= reason_flags(trades@, reason).take(i + 1));
        i += 1;
    }
    assert(out@ =~= reason_flags(trades@, reason));
    out
}

/// Flags the trades of one cell.
pub fn flag_cell(trades: &[VariantTrade<'_>], cell: &str, reason: Option<ExitReason>) -> (r: Vec<bool>)
    ensures
        r@ == cell_flags(trades@, cell@, reason),
{
    let mut out: Vec<bool> = Vec::new();
    let mut i: usize = 0;
    while i < trades.len()
        invariant
            i <= trades@.len(),
            out@ == cell_flags(trades@, cell@, reason).take(i as int),
        decreases trades@.len() - i,
    {
        let name = cell_label(&trades[i].position.asset, &trades[i].position.interval);
        let hit = match reason {
            Some(x) => trades[i].exit_reason == x,
            None => true,
        };
        out.push(hit && same_text(&name, cell));
        assert(out@ =~= cell_flags(trades@, cell@, reason).take(i + 1));
        i += 1;
    }
    assert(out@ =~= cell_flags(trades@, cell@, reason));
    out
}

/// Every name comes before the next in dictionary order.
pub open spec fn names_ascend(names: Seq<String>) -> bool {
    forall|i: int, j: int|
        0 <= i < j < names.len() ==> text::dictionary_le(
            (#[trigger] names[i])@,
            (#[trigger] names[j])@,
        ) && names[i]@ != names[j]@
}

pub open spec fn has_name(names: Seq<String>, name: Seq<char>) -> bool {
    exists|i: int| 0 <= i < names.len() && (#[trigger] names[i])@ == name
}

/// The name is that of some trade's cell.
pub open spec fn is_cell(trades: Seq<VariantTrade<'_>>, name: Seq<char>) -> bool {
    exists|i: int| 0 <= i < trades.len() && cell_of(*(#[trigger] trades[i]).position) == name
}

/// The cells of trades, in dictionary order.
pub open spec fn are_cells(names: Seq<String>, trades: Seq<VariantTrade<'_>>) -> bool {
    &&& names_ascend(names)
    &&& forall|i: int| 0 <= i < names.len() ==> is_cell(trades, (#[trigger] names[i])@)
    &&& forall|i: int|
        0 <= i < trades.len() ==> has_name(names, cell_of(*(#[trigger] trades[i]).position))
}

/// Puts a name in its place, unless it is there.
pub fn insert_name(names: &mut Vec<String>, name: String)
    requires
        names_ascend(old(names)@),
    ensures
        names_ascend(final(names)@),
        forall|n: Seq<char>| #[trigger]
            has_name(final(names)@, n) == (has_name(old(names)@, n) || n == name@),
{
    let ghost all = names@;
    let ghost new = name;
    let mut i: usize = 0;
    while i < names.len() && text_le(&names[i], &name)
        invariant
            names@ == all,
            names_ascend(all),
            i <= all.len(),
            name == new,
            forall|k: int|
                0 <= k < i ==> text::dictionary_le((#[trigger] all[k])@, name@) && all[k]@ != name@,
        decreases all.len() - i,
    {
        if same_text(&names[i], &name) {
            proof {
                assert(all[i as int]@ == name@);
                assert forall|n: Seq<char>| #[trigger] has_name(all, n) == (has_name(all, n) || n
                    == name@) by {
                    if n == name@ {
                        assert(all[i as int]@ == n);
                    }
                }
            }
            return;
        }
        i += 1;
    }
    proof {
        if i < all.len() {
            text::lemma_dictionary_total(name@, all[i as int]@);
        }
        assert forall|k: int| i <= k < all.len() implies text::dictionary_le(
            name@,
            (#[trigger] all[k])@,
        ) && all[k]@ != name@ by {
            if k > i {
                assert(text::dictionary_le(all[i as int]@, all[k]@));
                text::lemma_dictionary_transitive(name@, all[i as int]@, all[k]@);
                if all[k]@ == name@ {
                    text::lemma_dictionary_antisymmetric(name@, all[i as int]@);
                }
            } else {
                if all[k]@ == name@ {
                    text::lemma_dictionary_total(name@, name@);
                }
            }
        }
    }
    names.insert(i, name);
    proof {
        let after = names@;
        assert(after == all.insert(i as int, new));
        assert forall|a: int, b: int| 0 <= a < b < after.len() implies text::dictionary_le(
            (#[trigger] after[a])@,
            (#[trigger] after[b])@,
        ) && after[a]@ != after[b]@ by {
            let x = if a < i {
                a
            } else {
                a - 1
            };
            let y = if b < i {
                b
            } else {
                b - 1
            };
            if a == i {
                assert(after[b] == all[b - 1]);
            } else if b == i {
                assert(after[a] == all[a]);
            } else {
                assert(after[a] == all[x]);
                assert(after[b] == all[y]);
            }
        }
        assert forall|n: Seq<char>| #[trigger] has_name(after, n) == (has_name(all, n) || n
            == new@) by {
            if has_name(all, n) {
                let k = choose|k: int| 0 <= k < all.len() && (#[trigger] all[k])@ == n;
                if k < i {
                    assert(after[k]@ == n);
                } else {
                    assert(after[k + 1]@ == n);
                }
            }
            if n == new@ {
                assert(after[i as int]@ == n);
            }
            if has_name(after, n) {
                let k = choose|k: int| 0 <= k < after.len() && (#[trigger] after[k])@ == n;
                if k < i {
                    assert(all[k]@ == n);
                } else if k > i {
                    assert(all[k - 1]@ == n);
                }
            }
        }
    }
}

/// The cells of trades, in dictionary order.
pub fn list_cells(trades: &[VariantTrade<'_>]) -> (r: Vec<String>)
    ensures
        are_cells(r@, trades@),
{
    let mut names: Vec<String> = Vec::new();
    let mut i: usize = 0;
    while i < trades.len()
        invariant
            i <= trades@.len(),
            names_ascend(names@),
            forall|n: Seq<char>| #[trigger] has_name(names@, n) ==> is_cell(trades@, n),
            forall|k: int|
                0 <= k < i ==> has_name(names@, cell_of(*(#[trigger] trades@[k]).position)),
        decreases trades@.len() - i,
    {
        let name = cell_label(&trades[i].position.asset, &trades[i].position.interval);
        assert(cell_of(*trades@[i as int].position) == name@);
        let ghost before = names@;
        insert_name(&mut names, name);
        assert forall|n: Seq<char>| #[trigger] has_name(names@, n) implies is_cell(trades@, n) by {
            assert(has_name(before, n) || n == cell_of(*trades@[i as int].position));
        }
        assert forall|k: int| 0 <= k < i + 1 implies has_name(
            names@,
            cell_of(*(#[trigger] trades@[k]).position),
        ) by {
            if k < i {
                assert(has_name(before, cell_of(*trades@[k].position)));
            }
        }
        i += 1;
    }
    assert forall|k: int| 0 <= k < names@.len() implies is_cell(
        trades@,
        (#[trigger] names@[k])@,
    ) by {
        assert(has_name(names@, names@[k]@));
    }
    names
}

/// What a policy made of the lots of one cell.
#[derive(Debug, Clone)]
pub struct CellMetrics {
    pub n_trades: usize,
    pub wins: usize,
    pub total_pnl: Dec,
    pub avg_pnl: Dec,
    pub tp_hits: usize,
}

/// What a policy made of the lots of a run.
#[derive(Debug, Clone)]
pub struct VariantMetrics {
    pub variant_label: String,
    pub n_trades: usize,
    pub wins: usize,
    pub total_pnl: Dec,
    pub avg_pnl: Dec,
    pub tp_hits: usize,
    pub pnl_when_tp_hit: Dec,
    pub pnl_when_time_exit: Dec,
    pub n_uncoverable: usize,
    /// By the cells' names, in dictionary order.
    pub by_cell: Vec<(String, CellMetrics)>,
}

/// The sum and the mean of flagged profits are in range.
pub open spec fn fits(nets: Seq<DecV>, flags: Seq<bool>) -> bool {
    total(nets, flags) is Some && mean(total(nets, flags), count(flags)) is Some
}

pub open spec fn is_cell_metrics(m: CellMetrics, trades: Seq<VariantTrade<'_>>, cell: Seq<char>) -> bool {
    let flags = cell_flags(trades, cell, None);
    &&& m.n_trades == count(flags)
    &&& m.wins == count(won(nets(trades), flags))
    &&& total(nets(trades), flags) == Some(m.total_pnl@)
    &&& mean(total(nets(trades), flags), count(flags)) == Some(m.avg_pnl@)
    &&& m.tp_hits == count(cell_flags(trades, cell, Some(ExitReason::TpTouched)))
}

pub open spec fn is_metrics(m: VariantMetrics, trades: Seq<VariantTrade<'_>>) -> bool {
    let all = reason_flags(trades, None);
    let tp = reason_flags(trades, Some(ExitReason::TpTouched));
    let timed = reason_flags(trades, Some(ExitReason::TimeExit));
    &&& m.n_trades == trades.len()
    &&& m.wins == count(won(nets(trades), all))
    &&& total(nets(trades), all) == Some(m.total_pnl@)
    &&& mean(total(nets(trades), all), trades.len()) == Some(m.avg_pnl@)
    &&& m.tp_hits == count(tp)
    &&& mean(total(nets(trades), tp), count(tp)) == Some(m.pnl_when_tp_hit@)
    &&& mean(total(nets(trades), timed), count(timed)) == Some(m.pnl_when_time_exit@)
    &&& m.n_uncoverable == count(reason_flags(trades, Some(ExitReason::Uncoverable)))
    &&& are_cells(cell_names(m), trades)
    &&& forall|i: int|
        0 <= i < m.by_cell@.len() ==> is_cell_metrics(
            (#[trigger] m.by_cell@[i]).1,
            trades,
            m.by_cell@[i].0@,
        )
}

pub open spec fn cell_names(m: VariantMetrics) -> Seq<String> {
    m.by_cell@.map_values(|c: (String, CellMetrics)| c.0)
}

/// Every amount of the metrics is in range.
pub open spec fn metrics_fit(trades: Seq<VariantTrade<'_>>) -> bool {
    &&& fits(nets(trades), reason_flags(trades, None))
    &&& fits(nets(trades), reason_flags(trades, Some(ExitReason::TpTouched)))
    &&& fits(nets(trades), reason_flags(trades, Some(ExitReason::TimeExit)))
    &&& forall|i: int|
        0 <= i < trades.len() ==> fits(
            nets(trades),
            cell_flags(trades, cell_of(*(#[trigger] trades[i]).position), None),
        )
}

pub proof fn lemma_count_all(flags: Seq<bool>)
    requires
        forall|i: int| 0 <= i < flags.len() ==> #[trigger] flags[i],
    ensures
        count(flags) == flags.len(),
    decreases flags.len(),
{
    if flags.len() > 0 {
        assert(flags[flags.len() - 1]);
        assert forall|i: int| 0 <= i < flags.drop_last().len() implies #[trigger] flags.drop_last()[i] by {
            assert(flags.drop_last()[i] == flags[i]);
        }
        lemma_count_all(flags.drop_last());
    }
}

fn cell_metrics(trades: &[VariantTrade<'_>], cell: &str) -> (r: Option<CellMetrics>)
    ensures
        match r {
            Some(m) => is_cell_metrics(m, trades@, cell@) && fits(
                nets(trades@),
                cell_flags(trades@, cell@, None),
            ),
            None => !fits(nets(trades@), cell_flags(trades@, cell@, None)),
        },
{
    let flags = flag_cell(trades, cell, None);
    let t = tally(trades, flags.as_slice());
    let tp_flags = flag_cell(trades, cell, Some(ExitReason::TpTouched));
    let tp = tally(trades, tp_flags.as_slice());
    match (t.total, t.mean) {
        (Some(total_pnl), Some(avg_pnl)) => Some(
            CellMetrics { n_trades: t.n, wins: t.wins, total_pnl, avg_pnl, tp_hits: tp.n },
        ),
        _ => None,
    }
}

/// What a policy made of the lots of a run; `None` where an amount is out of
/// range.
pub fn compute_metrics(trades: &[VariantTrade<'_>], variant_label: String) -> (r: Option<
    VariantMetrics,
>)
    ensures
        match r {
            Some(m) => m.variant_label == variant_label && is_metrics(m, trades@),
            None => !metrics_fit(trades@),
        },
{
    let all_flags = flag_reason(trades, None);
    let all = tally(trades, all_flags.as_slice());
    let tp_flags = flag_reason(trades, Some(ExitReason::TpTouched));
    let tp = tally(trades, tp_flags.as_slice());
    let timed_flags = flag_reason(trades, Some(ExitReason::TimeExit));
    let timed = tally(trades, timed_flags.as_slice());
    let none_flags = flag_reason(trades, Some(ExitReason::Uncoverable));
    let none = tally(trades, none_flags.as_slice());
    proof {
        lemma_count_all(all_flags@);
    }
    let names = list_cells(trades);
    let mut by_cell: Vec<(String, CellMetrics)> = Vec::new();
    let mut i: usize = 0;
    while i < names.len()
        invariant
            i <= names@.len(),
            are_cells(names@, trades@),
            by_cell@.len() == i,
            forall|k: int| 0 <= k < i ==> (#[trigger] by_cell@[k]).0@ == names@[k]@,
            forall|k: int|
                0 <= k < i ==> is_cell_metrics(
                    (#[trigger] by_cell@[k]).1,
                    trades@,
                    by_cell@[k].0@,
                ),
        decreases names@.len() - i,
    {
        match cell_metrics(trades, &names[i]) {
            Some(m) => {
                by_cell.push((names[i].clone(), m));
            },
            None => {
                proof {
                    assert(is_cell(trades@, names@[i as int]@));
                    let k = choose|k: int|
                        0 <= k < trades@.len() && cell_of(*(#[trigger] trades@[k]).position)
                            == names@[i as int]@;
                    assert(!fits(
                        nets(trades@),
                        cell_flags(trades@, cell_of(*trades@[k].position), None),
                    ));
                }
                return None;
            },
        }
        i += 1;
    }
    match (all.total, all.mean, tp.mean, timed.mean) {
        (Some(total_pnl), Some(avg_pnl), Some(pnl_when_tp_hit), Some(pnl_when_time_exit)) => {
            let m = VariantMetrics {
                variant_label,
                n_trades: trades.len(),
                wins: all.wins,
                total_pnl,
                avg_pnl,
                tp_hits: tp.n,
                pnl_when_tp_hit,
                pnl_when_time_exit,
                n_uncoverable: none.n,
                by_cell,
            };
            proof {
                let listed = cell_names(m);
                assert forall|a: int, b: int| 0 <= a < b < listed.len() implies text::dictionary_le(
                    (#[trigger] listed[a])@,
                    (#[trigger] listed[b])@,
                ) && listed[a]@ != listed[b]@ by {
                    assert(m.by_cell@[a].0@ == names@[a]@);
                    assert(m.by_cell@[b].0@ == names@[b]@);
                }
                assert forall|a: int| 0 <= a < listed.len() implies is_cell(
                    trades@,
                    (#[trigger] listed[a])@,
                ) by {
                    assert(m.by_cell@[a].0@ == names@[a]@);
                }
                assert forall|a: int| 0 <= a < trades@.len() implies has_name(
                    listed,
                    cell_of(*(#[trigger] trades@[a]).position),
                ) by {
                    let name = cell_of(*trades@[a].position);
                    assert(has_name(names@, name));
                    let k = choose|k: int| 0 <= k < names@.len() && (#[trigger] names@[k])@ == name;
                    assert(m.by_cell@[k].0@ == names@[k]@);
                    assert(listed[k]@ == name);
                }
            }
            Some(m)
        },
        _ => None,
    }
}

pub proof fn lemma_count_split(flags: Seq<bool>, a: Seq<bool>, b: Seq<bool>)
    requires
        flags.len() == a.len(),
        flags.len() == b.len(),
        forall|i: int| 0 <= i < flags.len() ==> #[trigger] flags[i] == (a[i] || b[i]),
        forall|i: int| 0 <= i < flags.len() ==> !(#[trigger] a[i] && b[i]),
    ensures
        count(flags) == count(a) + count(b),
    decreases flags.len(),
{
    if flags.len() > 0 {
        let n = flags.len() - 1;
        assert(flags[n] == (a[n] || b[n]));
        assert(!(a[n] && b[n]));
        assert forall|i: int| 0 <= i < n implies #[trigger] flags.drop_last()[i] == (a.drop_last()[i]
            || b.drop_last()[i]) by {
            assert(flags[i] == (a[i] || b[i]));
        }
        assert forall|i: int| 0 <= i < n implies !(#[trigger] a.drop_last()[i] && b.drop_last()[i]) by {
            assert(!(a[i] && b[i]));
        }
        lemma_count_split(flags.drop_last(), a.drop_last(), b.drop_last());
    }
}

/// Every trade of a policy ends in one way only: the trades that touched their
/// target, those sold at their time, those that could not be sold and all others
/// are all trades.
pub proof fn law_reasons_divide_the_trades(trades: Seq<VariantTrade<'_>>)
    ensures
        count(reason_flags(trades, Some(ExitReason::TpTouched))) + count(
            reason_flags(trades, Some(ExitReason::TimeExit)),
        ) + count(reason_flags(trades, Some(ExitReason::Uncoverable))) + count(
            reason_flags(trades, Some(ExitReason::PeakOpportunity)),
        ) + count(reason_flags(trades, Some(ExitReason::SmartTriggered))) + count(
            reason_flags(trades, Some(ExitReason::TrailingTriggered)),
        ) + count(reason_flags(trades, Some(ExitReason::F6Triggered))) == trades.len(),
    decreases trades.len(),
{
    if trades.len() > 0 {
        let before = trades.drop_last();
        law_reasons_divide_the_trades(before);
        lemma_drop_reason(trades, ExitReason::TpTouched);
        lemma_drop_reason(trades, ExitReason::TimeExit);
        lemma_drop_reason(trades, ExitReason::Uncoverable);
        lemma_drop_reason(trades, ExitReason::PeakOpportunity);
        lemma_drop_reason(trades, ExitReason::SmartTriggered);
        lemma_drop_reason(trades, ExitReason::TrailingTriggered);
        lemma_drop_reason(trades, ExitReason::F6Triggered);
    }
}

proof fn lemma_drop_reason(trades: Seq<VariantTrade<'_>>, x: ExitReason)
    requires
        trades.len() > 0,
    ensures
        count(reason_flags(trades, Some(x))) == count(reason_flags(trades.drop_last(), Some(x))) + (
        if trades.last().exit_reason == x {
            1nat
        } else {
            0nat
        }),
{
    let f = reason_flags(trades, Some(x));
    assert(f.drop_last() =~= reason_flags(trades.drop_last(), Some(x)));
}

/// A price within the highest one is given.
proof fn lemma_price_is_given(p: CollectedPosition, value: int)
    requires
        p.shares > 0,
        0 <= value <= p.shares * u32::MAX,
    ensures
        decimal::valid(decimal::dec(value, 10)),
        decimal::fits_at(
            decimal::upper(decimal::dec(value, 10), lot_shares(p)),
            decimal::lower(decimal::dec(value, 10), lot_shares(p)),
            0,
        ),
        average(p, value) == decimal::over(decimal::dec(value, 10), lot_shares(p)),
{
    let shares = p.shares as int;
    assert(shares * u32::MAX <= u64::MAX * u32::MAX) by (nonlinear_arith)
        requires
            0 <= shares <= u64::MAX,
    ;
    reveal_with_fuel(decimal::pow10, 11);
    assert(decimal::pow10(6) == 1_000_000);
    assert(decimal::pow10(10) == 10_000_000_000);
    assert(decimal::pow10(0) == 1);
    let (n, d) = (
        decimal::upper(decimal::dec(value, 10), lot_shares(p)),
        decimal::lower(decimal::dec(value, 10), lot_shares(p)),
    );
    assert(n == value * 1_000_000);
    assert(d == shares * 10_000_000_000);
    assert(n * decimal::pow10(0) == n);
    assert((2 * decimal::MAX_MANTISSA + 1) * d >= 1_000_000_000 * d) by (nonlinear_arith)
        requires
            d >= 0,
    ;
}

/// No rule that sells at a sample has a better price than the peak.
pub proof fn law_no_price_is_above_the_peak(p: CollectedPosition, v: ExitVariant)
    requires
        p.wf(),
        p.shares > 0,
        exits::exit_of(p, v).1 != ExitReason::TimeExit,
    ensures
        ({
            let price = average(p, exits::exit_of(p, v).0);
            let peak = average(p, exits::exit_of(p, ExitVariant::Peak).0);
            price is Some && peak is Some && decimal::le(price->0, peak->0)
        }),
{
    let value = exits::exit_of(p, v).0;
    let top = exits::exit_of(p, ExitVariant::Peak).0;
    exits::law_peak_is_the_ceiling(p, v);
    exits::law_sales_are_possible(p, v);
    exits::law_sales_are_possible(p, ExitVariant::Peak);
    lemma_price_is_given(p, value);
    lemma_price_is_given(p, top);
    decimal::lemma_pow10_positive(10);
    let s = decimal::pow10(10);
    if value < top {
        assert(value * s < top * s) by (nonlinear_arith)
            requires
                value < top,
                s >= 1,
        ;
    }
    decimal::law_quotients_keep_the_order(
        decimal::dec(value, 10),
        decimal::dec(top, 10),
        lot_shares(p),
    );
}

} // verus!
