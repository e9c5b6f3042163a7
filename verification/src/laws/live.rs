//! The live maker exit: which lots are sold, when and how.

use crate::b3_live::{
    self, ActionV, Applying, B3Apply, EventBbo, ExitKind, HoldReason, MakerExitState,
    MakerExitStatus, OpenPosition, StepV,
};
use crate::b3_maker::{self, MakerOrderStatus, PostV};
use crate::config::{self, CellRule, ExitRule, Num};
use crate::decimal::{self, Dec, DecV};
use vstd::prelude::*;

verus! {

/// A cell's rule is the first one listed under the cell's name.
pub proof fn law_the_first_rule_of_a_cell_counts(cells: Seq<CellRule>, cell: Seq<char>, i: int)
    requires
        0 <= i < cells.len(),
        cells[i].cell@ == cell,
        forall|j: int| 0 <= j < i ==> (#[trigger] cells[j]).cell@ != cell,
    ensures
        config::rule_of(cells, cell) == Some(cells[i].rule),
    decreases i,
{
    if i > 0 {
        let rest = cells.drop_first();
        assert(cells[0].cell@ != cell);
        assert forall|j: int| 0 <= j < i - 1 implies (#[trigger] rest[j]).cell@ != cell by {
            assert(rest[j] == cells[j + 1]);
        }
        law_the_first_rule_of_a_cell_counts(rest, cell, i - 1);
    }
}

/// A cell that is not listed has no rule.
pub proof fn law_unlisted_cells_have_no_rule(cells: Seq<CellRule>, cell: Seq<char>)
    requires
        forall|j: int| 0 <= j < cells.len() ==> (#[trigger] cells[j]).cell@ != cell,
    ensures
        config::rule_of(cells, cell) is None,
    decreases cells.len(),
{
    if cells.len() > 0 {
        let rest = cells.drop_first();
        assert forall|j: int| 0 <= j < rest.len() implies (#[trigger] rest[j]).cell@ != cell by {
            assert(rest[j] == cells[j + 1]);
        }
        law_unlisted_cells_have_no_rule(rest, cell);
    }
}

/// A cell's name is the asset, a colon and the interval.
pub proof fn law_cells_are_named_by_asset_and_interval(asset: Seq<char>, interval: Seq<char>)
    ensures
        b3_live::cell_of(asset, interval) == asset.push(':') + interval,
{
    reveal_strlit(":");
    assert(b3_live::cell_of(asset, interval) =~= asset.push(':') + interval);
}

/// The `i`-th rule is the one of the lot's cell.
pub open spec fn rule_at(cells: Seq<CellRule>, i: int, p: OpenPosition) -> bool {
    let cell = p.asset@.push(':') + p.interval@;
    &&& 0 <= i < cells.len()
    &&& cells[i].cell@ == cell
    &&& forall|j: int| 0 <= j < i ==> (#[trigger] cells[j]).cell@ != cell
}

proof fn lemma_rule_at(cells: Seq<CellRule>, i: int, p: OpenPosition)
    requires
        rule_at(cells, i, p),
    ensures
        config::rule_of(cells, b3_live::cell_of(p.asset@, p.interval@)) == Some(cells[i].rule),
        b3_live::cell_of(p.asset@, p.interval@) == p.asset@.push(':') + p.interval@,
{
    law_cells_are_named_by_asset_and_interval(p.asset@, p.interval@);
    law_the_first_rule_of_a_cell_counts(cells, p.asset@.push(':') + p.interval@, i);
}

/// The whole second of `now_ms`, cut towards 0, has reached the time of the lot.
pub open spec fn time_is_over(p: OpenPosition, now_ms: i64) -> bool {
    if now_ms >= 0 {
        p.exit_ts_s * 1000 <= now_ms
    } else {
        (p.exit_ts_s - 1) * 1000 < now_ms
    }
}

/// The quote holds the finite bid `b`, seen at most five seconds ago.
pub open spec fn offers(quote: Option<EventBbo>, now_ms: i64, b: DecV) -> bool {
    quote matches Some(q) && now_ms - q.ts_ms <= 5000 && (q.best_bid matches Some(Num::Finite(d))
        && d@ == b)
}

/// The quote holds nothing to sell at: there is none, it is more than five seconds
/// old, or its bid is missing or no finite number.
pub open spec fn offers_nothing(quote: Option<EventBbo>, now_ms: i64) -> bool {
    match quote {
        None => true,
        Some(q) => now_ms - q.ts_ms > 5000 || !(q.best_bid matches Some(Num::Finite(_))),
    }
}

proof fn lemma_time(p: OpenPosition, now_ms: i64)
    ensures
        time_is_over(p, now_ms) <==> p.exit_ts_s <= b3_live::whole_seconds(now_ms),
{
}

/// A lot without an order is sold whole as a taker once its time is over and a fresh
/// bid is there, whatever distance its cell's rule asks for.
pub proof fn law_due_lots_without_an_order_are_sold(
    p: OpenPosition,
    cells: Seq<CellRule>,
    i: int,
    quote: Option<EventBbo>,
    now_ms: i64,
    b: DecV,
)
    requires
        rule_at(cells, i, p),
        cells[i].rule is B3Maker,
        p.entry_ts_ms != 0,
        p.asset@.len() > 0,
        p.maker_exit is None,
        offers(quote, now_ms, b),
        time_is_over(p, now_ms),
    ensures
        b3_live::action_of(p, cells, quote, now_ms) == Some(
            ActionV::FallbackOnly {
                signal_id: p.signal_id@,
                token_id: p.token_id@,
                shares: p.shares@,
                entry: p.entry_price@,
                bid: b,
            },
        ),
{
    lemma_rule_at(cells, i, p);
    lemma_time(p, now_ms);
}

/// A lot without an order whose time is not over yet gets one for all its shares,
/// at the rule's distance above the entry on the grid of prices, where a fresh bid is
/// there and the target is at most 0.99; it is not sold otherwise.
pub proof fn law_early_lots_get_an_order(
    p: OpenPosition,
    cells: Seq<CellRule>,
    i: int,
    quote: Option<EventBbo>,
    now_ms: i64,
    b: DecV,
    d: Dec,
)
    requires
        rule_at(cells, i, p),
        cells[i].rule matches ExitRule::B3Maker { delta, .. } && delta == Num::Finite(d),
        p.entry_ts_ms != 0,
        p.asset@.len() > 0,
        p.maker_exit is None,
        offers(quote, now_ms, b),
        !time_is_over(p, now_ms),
    ensures
        ({
            let a = b3_live::action_of(p, cells, quote, now_ms);
            let t = decimal::plus(p.entry_price@, d@);
            &&& t is Some && decimal::le(t->0, decimal::dec(99, 2)) && b3_live::snapped(t->0) is Some
                ==> a == Some(
                ActionV::Place {
                    signal_id: p.signal_id@,
                    token_id: p.token_id@,
                    cell: p.asset@.push(':') + p.interval@,
                    shares: p.shares@,
                    target: b3_live::snapped(t->0)->0,
                    entry: p.entry_price@,
                    bid: b,
                },
            )
            &&& t is None || !decimal::le(t->0, decimal::dec(99, 2)) || b3_live::snapped(t->0)
                is None ==> a is None
        }),
{
    lemma_rule_at(cells, i, p);
    lemma_time(p, now_ms);
    assert(decimal::pow10(2) == 100) by {
        reveal_with_fuel(decimal::pow10, 3);
    }
    assert(decimal::pow10(0) == 1);
    assert(decimal::minus(decimal::one(), decimal::dec(1, 2)) == Some(decimal::dec(99, 2)));
}

/// A lot with an order on the book is polled at every tick, with or without a bid,
/// and is told whether its time is over.
pub proof fn law_orders_on_the_book_are_polled(
    p: OpenPosition,
    cells: Seq<CellRule>,
    i: int,
    quote: Option<EventBbo>,
    now_ms: i64,
)
    requires
        rule_at(cells, i, p),
        cells[i].rule is B3Maker,
        p.entry_ts_ms != 0,
        p.asset@.len() > 0,
        p.maker_exit matches Some(m) && m.status == MakerExitStatus::Placed,
    ensures
        b3_live::action_of(p, cells, quote, now_ms) matches Some(
            ActionV::Poll {
                signal_id,
                token_id,
                order_id,
                orig,
                target,
                entry,
                due,
                exit_ts_s,
                bid,
            },
        ) && {
            &&& signal_id == p.signal_id@ && token_id == p.token_id@
            &&& order_id == p.maker_exit->0.order_id@ && target == p.maker_exit->0.target@
            &&& orig == p.shares@ && entry == p.entry_price@ && exit_ts_s == p.exit_ts_s
            &&& due == time_is_over(p, now_ms)
            &&& bid is None <==> offers_nothing(quote, now_ms)
            &&& bid matches Some(b) ==> offers(quote, now_ms, b)
        },
{
    lemma_rule_at(cells, i, p);
    lemma_time(p, now_ms);
}

/// A lot is left alone where its cell has no maker exit, where it has no entry time or
/// asset, where its order is over, and where it has no order and no bid to sell at.
pub proof fn law_other_lots_are_left_alone(
    p: OpenPosition,
    cells: Seq<CellRule>,
    quote: Option<EventBbo>,
    now_ms: i64,
)
    requires
        ({
            ||| forall|j: int|
                0 <= j < cells.len() ==> (#[trigger] cells[j]).cell@ != p.asset@.push(':')
                    + p.interval@
            ||| exists|i: int| rule_at(cells, i, p) && !(#[trigger] cells[i].rule is B3Maker)
            ||| p.entry_ts_ms == 0
            ||| p.asset@.len() == 0
            ||| p.maker_exit matches Some(m) && m.status != MakerExitStatus::Placed
            ||| p.maker_exit is None && offers_nothing(quote, now_ms)
        }),
    ensures
        b3_live::action_of(p, cells, quote, now_ms) is None,
{
    let cell = p.asset@.push(':') + p.interval@;
    law_cells_are_named_by_asset_and_interval(p.asset@, p.interval@);
    if forall|j: int| 0 <= j < cells.len() ==> (#[trigger] cells[j]).cell@ != cell {
        law_unlisted_cells_have_no_rule(cells, cell);
    }
    if exists|i: int| rule_at(cells, i, p) && !(#[trigger] cells[i].rule is B3Maker) {
        let i = choose|i: int| rule_at(cells, i, p) && !(#[trigger] cells[i].rule is B3Maker);
        lemma_rule_at(cells, i, p);
    }
}

/// Every lot that calls for an action gets it, and every action comes from a lot, in
/// the order of the lots.
pub proof fn law_every_lot_is_looked_at(
    ps: Seq<OpenPosition>,
    cells: Seq<CellRule>,
    quotes: Seq<Option<EventBbo>>,
    now_ms: i64,
) -> (from: Seq<int>)
    requires
        quotes.len() == ps.len(),
    ensures
        ({
            let acts = b3_live::actions_of(ps, cells, quotes, now_ms);
            &&& from.len() == acts.len()
            &&& forall|k: int|
                0 <= k < from.len() ==> 0 <= #[trigger] from[k] < ps.len() && b3_live::action_of(
                    ps[from[k]],
                    cells,
                    quotes[from[k]],
                    now_ms,
                ) == Some(acts[k])
            &&& forall|k: int, l: int| 0 <= k < l < from.len() ==> from[k] < from[l]
            &&& forall|i: int|
                0 <= i < ps.len() && b3_live::action_of(#[trigger] ps[i], cells, quotes[i], now_ms)
                    is Some ==> from.contains(i)
        }),
    decreases ps.len(),
{
    if ps.len() == 0 {
        Seq::empty()
    } else {
        let before = law_every_lot_is_looked_at(
            ps.drop_last(),
            cells,
            quotes.drop_last(),
            now_ms,
        );
        let n = ps.len() - 1;
        assert forall|i: int| 0 <= i < n implies ps.drop_last()[i] == #[trigger] ps[i] by {}
        if b3_live::action_of(ps.last(), cells, quotes.last(), now_ms) is Some {
            let from = before.push(n);
            let acts = b3_live::actions_of(ps, cells, quotes, now_ms);
            assert forall|k: int| 0 <= k < from.len() implies 0 <= #[trigger] from[k] < ps.len()
                && b3_live::action_of(ps[from[k]], cells, quotes[from[k]], now_ms) == Some(
                acts[k],
            ) by {
                if k < before.len() {
                    assert(from[k] == before[k]);
                }
            }
            assert forall|i: int|
                0 <= i < ps.len() && b3_live::action_of(#[trigger] ps[i], cells, quotes[i], now_ms)
                    is Some implies from.contains(i) by {
                if i == n {
                    assert(from[before.len() as int] == n);
                } else {
                    assert(ps.drop_last()[i] == ps[i]);
                    assert(before.contains(i));
                    let k = choose|k: int| 0 <= k < before.len() && before[k] == i;
                    assert(from[k] == i);
                }
            }
            from
        } else {
            assert forall|i: int|
                0 <= i < ps.len() && b3_live::action_of(#[trigger] ps[i], cells, quotes[i], now_ms)
                    is Some implies before.contains(i) by {
                assert(ps.drop_last()[i] == ps[i]);
            }
            before
        }
    }
}

/// The answer to a placed order: an order id is noted with the target that was asked
/// for; a refusal because the target is there to be had sells the whole lot at the
/// bid; after any other answer, and without one, nothing is sold or noted.
pub proof fn law_only_a_crossing_refusal_sells(
    signal_id: Seq<char>,
    shares: DecV,
    target: DecV,
    bid: DecV,
    reply: Option<PostV>,
)
    ensures
        ({
            let step = b3_live::placed_step(signal_id, shares, target, bid, reply);
            &&& step is SellWhole <==> reply == Some(PostV::RejectedCrossable)
            &&& step matches StepV::SellWhole { shares: s, bid: b, kind } ==> s == shares && b == bid
                && kind == ExitKind::B3MakerFill
            &&& step is SetMaker <==> (reply matches Some(PostV::Posted { .. }))
            &&& step matches StepV::SetMaker { signal_id: id, order_id, target: t } ==> id
                == signal_id && t == target && reply == Some(PostV::Posted { order_id })
            &&& !(step is SellWhole) && !(step is SetMaker) ==> (step matches StepV::Hold {
                signal_id: id,
                why,
            } && id == signal_id && (why == HoldReason::CallFailed <==> reply is None))
        }),
{
}

/// What a poll leads to: a lot that is fully matched is closed at the target, one
/// whose time is over or whose order has ended is reconciled, and any other is left as
/// it is; nothing is sold on account of a poll, and nothing happens without an answer.
pub proof fn law_a_poll_sells_nothing(
    signal_id: Seq<char>,
    orig: DecV,
    target: DecV,
    entry: DecV,
    due: bool,
    reply: Option<(MakerOrderStatus, DecV)>,
)
    requires
        orig.m > 0,
    ensures
        ({
            let step = b3_live::polled_step(signal_id, orig, target, entry, due, reply);
            &&& reply is None ==> step == Some(
                StepV::Hold { signal_id, why: HoldReason::CallFailed },
            )
            &&& reply matches Some((status, matched)) ==> {
                let filled = decimal::le(orig, matched);
                let ended = status == MakerOrderStatus::Cancelled || status
                    == MakerOrderStatus::Matched || status == MakerOrderStatus::Unmatched;
                &&& filled ==> (step matches Some(s) ==> (s matches StepV::Close {
                    signal_id: id,
                    price,
                    kind,
                    ..
                } && id == signal_id && price == target && kind == ExitKind::B3MakerFill))
                &&& !filled && (due || ended) ==> step == Some(StepV::Reconcile)
                &&& !filled && !due && !ended ==> (step matches Some(StepV::Hold {
                    signal_id: id,
                    why,
                }) && id == signal_id && (why == HoldReason::Working <==> matched.m > 0)
                    && (why == HoldReason::Waiting <==> matched.m <= 0))
            }
        }),
{
    if let Some((status, matched)) = reply {
        crate::laws::maker::law_polls_by_the_matched_size(status, matched, orig, due);
    }
}

/// A lot sold by its order at the target earns its price difference, less the buying
/// fee; the order itself has no fee.
pub proof fn law_a_fill_earns_the_difference(
    signal_id: Seq<char>,
    shares: DecV,
    target: DecV,
    entry: DecV,
)
    requires
        decimal::valid(shares),
        decimal::valid(target),
        decimal::valid(entry),
        b3_maker::fee(shares, entry) is Some,
        decimal::exact_product(shares, target),
        decimal::exact_product(shares, entry),
        decimal::exact_sum(decimal::times(shares, entry)->0, b3_maker::fee(shares, entry)->0),
        decimal::exact_difference(
            decimal::times(shares, target)->0,
            decimal::plus(decimal::times(shares, entry)->0, b3_maker::fee(shares, entry)->0)->0,
        ),
    ensures
        b3_live::maker_close(signal_id, shares, target, entry) matches Some(StepV::Close {
            signal_id: id,
            net,
            price,
            kind,
        }) && {
            &&& id == signal_id && price == target && kind == ExitKind::B3MakerFill
            &&& decimal::finely(net) == decimal::finely(decimal::product(shares, target))
                - decimal::finely(decimal::product(shares, entry)) - decimal::finely(
                b3_maker::fee(shares, entry)->0,
            )
        },
{
    let buy_fee = b3_maker::fee(shares, entry)->0;
    b3_maker::lemma_fee_places(shares, entry);
    decimal::lemma_exact_finely(shares, target);
    decimal::lemma_exact_finely(shares, entry);
    let cost = decimal::times(shares, entry)->0;
    decimal::lemma_exact_finely(cost, buy_fee);
    decimal::lemma_exact_finely(
        decimal::times(shares, target)->0,
        decimal::plus(cost, buy_fee)->0,
    );
}

/// A lot sold whole as a taker is closed at the average price of the sale, and earns
/// what the sale brought, less the price of the lot, less the buying fee. A call that
/// failed closes nothing.
pub proof fn law_a_sale_earns_what_it_brought(
    signal_id: Seq<char>,
    shares: DecV,
    entry: DecV,
    bid: DecV,
    kind: ExitKind,
    taking: DecV,
)
    requires
        decimal::valid(shares),
        decimal::valid(entry),
        decimal::valid(taking),
        b3_maker::fee(shares, entry) is Some,
        decimal::exact_product(shares, entry),
        decimal::exact_sum(decimal::times(shares, entry)->0, b3_maker::fee(shares, entry)->0),
        decimal::exact_difference(
            taking,
            decimal::plus(decimal::times(shares, entry)->0, b3_maker::fee(shares, entry)->0)->0,
        ),
    ensures
        b3_live::whole_sold_step(signal_id, shares, entry, bid, kind, None) == Some(
            StepV::Hold { signal_id, why: HoldReason::CallFailed },
        ),
        ({
            let step = b3_live::whole_sold_step(
                signal_id,
                shares,
                entry,
                bid,
                kind,
                Some(taking),
            );
            let net = decimal::finely(taking) - decimal::finely(decimal::product(shares, entry))
                - decimal::finely(b3_maker::fee(shares, entry)->0);
            &&& shares.m > 0 ==> (step is Some <==> decimal::over(taking, shares) is Some)
            &&& shares.m <= 0 ==> step is Some
            &&& step matches Some(s) ==> (s matches StepV::Close {
                signal_id: id,
                net: n,
                price,
                kind: k,
            } && id == signal_id && k == kind && decimal::finely(n) == net && (if shares.m > 0 {
                decimal::over(taking, shares) == Some(price)
            } else {
                price == bid
            }))
        }),
{
    let buy_fee = b3_maker::fee(shares, entry)->0;
    b3_maker::lemma_fee_places(shares, entry);
    decimal::lemma_exact_finely(shares, entry);
    let cost = decimal::times(shares, entry)->0;
    decimal::lemma_exact_finely(cost, buy_fee);
    decimal::lemma_exact_finely(taking, decimal::plus(cost, buy_fee)->0);
}

/// A lot of which the remainder was sold is closed in two parts: the maker part at the
/// target, the other at the average price of the sale, with the buying fee of the
/// whole lot divided between them. A call that failed closes nothing.
pub proof fn law_a_sold_remainder_closes_the_lot(
    signal_id: Seq<char>,
    orig: DecV,
    target: DecV,
    entry: DecV,
    maker_filled: DecV,
    fallback_size: DecV,
    bid: DecV,
    taking: DecV,
)
    requires
        fallback_size.m > 0,
        decimal::over(taking, fallback_size) is Some,
        b3_maker::fee(orig, entry) is Some,
    ensures
        ({
            let price = decimal::over(taking, fallback_size)->0;
            let s = b3_maker::split_of(
                orig,
                maker_filled,
                target,
                price,
                entry,
                b3_maker::fee(orig, entry)->0,
            );
            let step = b3_live::rest_sold_step(
                signal_id,
                orig,
                target,
                entry,
                maker_filled,
                fallback_size,
                bid,
                Some(taking),
            );
            &&& step is Some <==> s is Some
            &&& step matches Some(x) ==> (x matches StepV::CloseSplit {
                signal_id: id,
                maker_net,
                fallback_net,
                fill,
            } && id == signal_id && fill == price && maker_net == s->0.maker_pnl && fallback_net
                == s->0.fallback_pnl)
        }),
        b3_live::rest_sold_step(
            signal_id,
            orig,
            target,
            entry,
            maker_filled,
            fallback_size,
            bid,
            None,
        ) == Some(StepV::Hold { signal_id, why: HoldReason::CallFailed }),
{
}

/// A closed lot leaves the list, and is recorded with everything that it was bought
/// with, at the price, profit and kind of the close, at the time of the tick. The lots
/// of other names are not touched.
pub proof fn law_a_close_records_the_lot(
    st: Applying,
    a: B3Apply,
    i: int,
    now_ms: i64,
    signal_id: Seq<char>,
    price: DecV,
    net: DecV,
    kind: ExitKind,
)
    requires
        0 <= i < st.positions.len(),
        st.positions[i].signal_id@ == signal_id,
        forall|k: int| 0 <= k < i ==> (#[trigger] st.positions[k]).signal_id@ != signal_id,
        match a {
            B3Apply::Close { signal_id: id, net_pnl, exit_price, kind: k } => {
                id@ == signal_id && net_pnl@ == net && exit_price@ == price && k == kind
            },
            B3Apply::CloseSplit { signal_id: id, maker_net, fallback_net, fallback_fill } => {
                id@ == signal_id && decimal::plus(maker_net@, fallback_net@) == Some(net)
                    && fallback_fill@ == price && kind == ExitKind::B3Fallback
            },
            _ => false,
        },
    ensures
        ({
            let after = b3_live::apply_one(st, a, now_ms);
            let (t, p) = (after.closed.last(), st.positions[i]);
            &&& after.positions == st.positions
            &&& after.closed == st.closed.push(t)
            &&& after.gone == st.gone.insert(signal_id)
            &&& t.signal_id == p.signal_id@ && t.token_id == p.token_id@ && t.side == p.side
            &&& t.interval == p.interval@ && t.entry_price == p.entry_price@
            &&& t.shares == p.shares@ && t.opened_at_ms == p.opened_at_ms
            &&& t.exit_price == price && t.realized_pnl == net && t.exit_kind == kind
            &&& t.closed_at_ms == now_ms
        }),
{
    b3_live::lemma_lot_index(st.positions, signal_id);
    let j = b3_live::lot_index(st.positions, signal_id)->0;
    assert(j == i) by {
        if j < i {
            assert(st.positions[j].signal_id@ != signal_id);
        }
    }
    let after = b3_live::apply_one(st, a, now_ms);
    assert(after.closed =~= st.closed.push(after.closed.last()));
}

/// An order that was placed is noted on its lot, and changes nothing else.
pub proof fn law_a_placed_order_is_noted(
    st: Applying,
    a: B3Apply,
    i: int,
    now_ms: i64,
    signal_id: String,
    order_id: String,
    target: Dec,
)
    requires
        0 <= i < st.positions.len(),
        st.positions[i].signal_id@ == signal_id@,
        forall|k: int| 0 <= k < i ==> (#[trigger] st.positions[k]).signal_id@ != signal_id@,
        a == (B3Apply::SetMaker { signal_id, order_id, target }),
    ensures
        ({
            let after = b3_live::apply_one(st, a, now_ms);
            let (p, q) = (st.positions[i], after.positions[i]);
            &&& after.closed == st.closed && after.gone == st.gone
            &&& after.positions.len() == st.positions.len()
            &&& forall|k: int|
                0 <= k < st.positions.len() && k != i ==> #[trigger] after.positions[k]
                    == st.positions[k]
            &&& q.maker_exit == Some(
                MakerExitState {
                    order_id,
                    placed_ms: now_ms,
                    target,
                    status: MakerExitStatus::Placed,
                },
            )
            &&& (OpenPosition { maker_exit: p.maker_exit, ..q }) == p
        }),
{
    b3_live::lemma_lot_index(st.positions, signal_id@);
    let j = b3_live::lot_index(st.positions, signal_id@)->0;
    assert(j == i) by {
        if j < i {
            assert(st.positions[j].signal_id@ != signal_id@);
        }
    }
}

/// A result that changes nothing changes nothing.
pub proof fn law_nothing_is_nothing(st: Applying, signal_id: String, now_ms: i64)
    ensures
        b3_live::apply_one(st, B3Apply::Nothing { signal_id }, now_ms) == st,
{
}

/// The results are applied one after the other, beginning with nothing closed.
pub proof fn law_results_are_applied_in_order(
    ps: Seq<OpenPosition>,
    applies: Seq<B3Apply>,
    now_ms: i64,
    n: int,
)
    requires
        0 <= n < applies.len(),
    ensures
        b3_live::apply_first(ps, applies, now_ms, 0).positions == ps,
        b3_live::apply_first(ps, applies, now_ms, 0).closed.len() == 0,
        b3_live::apply_first(ps, applies, now_ms, 0).gone =~= Set::<Seq<char>>::empty(),
        b3_live::apply_first(ps, applies, now_ms, n + 1) == b3_live::apply_one(
            b3_live::apply_first(ps, applies, now_ms, n),
            applies[n],
            now_ms,
        ),
{
}

/// Of the lots, exactly those are kept whose names are not among the closed ones, in
/// their order.
pub proof fn law_closed_lots_are_removed(ps: Seq<OpenPosition>, gone: Set<Seq<char>>)
    ensures
        b3_live::without(ps, gone) == ps.filter(
            |p: OpenPosition| !gone.contains(p.signal_id@),
        ),
    decreases ps.len(),
{
    let keep = |p: OpenPosition| !gone.contains(p.signal_id@);
    if ps.len() == 0 {
        reveal(Seq::filter);
        assert(ps.filter(keep) =~= Seq::empty());
    } else {
        law_closed_lots_are_removed(ps.drop_first(), gone);
        assert(ps =~= seq![ps[0]] + ps.drop_first());
        Seq::filter_distributes_over_add(seq![ps[0]], ps.drop_first(), keep);
        assert(seq![ps[0]].filter(keep) =~= if keep(ps[0]) {
            seq![ps[0]]
        } else {
            Seq::empty()
        }) by {
            reveal(Seq::filter);
            assert(seq![ps[0]].drop_last() =~= Seq::empty());
            reveal_with_fuel(Seq::filter, 2);
        }
        assert(b3_live::without(ps, gone) =~= ps.filter(keep));
    }
}

/// The client's id of an order begins with the lot's name and ends with the target.
pub proof fn law_order_ids_tell_lot_and_target(signal_id: Seq<char>, target: DecV)
    ensures
        ({
            let id = b3_live::coid(signal_id, target);
            let n = signal_id.len() as int;
            &&& id.len() == n + 7 + decimal::text(target).len()
            &&& id.take(n) == signal_id
            &&& id.skip(n + 7) == decimal::text(target)
            &&& id.subrange(n, n + 7) == seq!['-', 'm', 'a', 'k', 'e', 'r', '-']
        }),
{
    reveal_strlit("-maker-");
    let id = b3_live::coid(signal_id, target);
    let n = signal_id.len() as int;
    assert(id.take(n) =~= signal_id);
    assert(id.skip(n + 7) =~= decimal::text(target));
    assert(id.subrange(n, n + 7) =~= seq!['-', 'm', 'a', 'k', 'e', 'r', '-']);
}

/// A price on the grid is a whole number of cents, at most half a cent away.
pub proof fn law_prices_snap_to_the_nearest_cent(p: DecV)
    requires
        decimal::valid(p),
        p.s >= 2,
    ensures
        b3_live::snapped(p) matches Some(v) && {
            &&& v == decimal::zero() || v.s == 2
            &&& exists|n: int|
                decimal::same_value(v, #[trigger] decimal::dec(n, 2)) && 2 * decimal::abs(
                    p.m - n * decimal::pow10((p.s - 2) as nat),
                ) <= decimal::pow10((p.s - 2) as nat)
        },
{
    let k = (p.s - 2) as nat;
    let t = decimal::pow10(k);
    let cent = decimal::dec(1, 2);
    decimal::lemma_pow10_positive(k);
    let x = p.m;
    assert(decimal::abs(x) % 1 == 0);
    assert(decimal::abs(x) / 1 == decimal::abs(x));
    let q = decimal::over(p, cent)->0;
    assert(decimal::over(p, cent) == Some(if x == 0 {
        decimal::zero()
    } else {
        decimal::dec(x, k)
    }));
    if x == 0 {
        let v = decimal::zero();
        assert(decimal::rounded(q) == decimal::zero());
        assert(0 * t == 0) by (nonlinear_arith);
        let z = decimal::dec(0, 2);
        assert(0 * decimal::pow10(2) == 0 * decimal::pow10(0));
        assert(decimal::same_value(v, z));
        assert(p.m - 0 * t == 0);
    } else {
        let n = decimal::rounded(q).m;
        assert(decimal::rounded(q).s == 0);
        if k == 0 {
            assert(t == 1);
            assert(n == x);
            assert(n * t == x) by (nonlinear_arith)
                requires
                    n == x,
                    t == 1,
            ;
        } else {
            decimal::lemma_pow10_positive((k - 1) as nat);
            decimal::lemma_half_even(decimal::abs(x), t);
            let h = decimal::half_even(decimal::abs(x), t);
            assert(h <= decimal::abs(x)) by (nonlinear_arith)
                requires
                    2 * (h * t) <= 2 * decimal::abs(x) + t,
                    t >= 10,
                    h >= 0,
                    decimal::abs(x) >= 1,
            {
                if h > decimal::abs(x) {
                    assert(h * t >= (decimal::abs(x) + 1) * t);
                    assert((decimal::abs(x) + 1) * t == decimal::abs(x) * t + t);
                    assert(decimal::abs(x) * t >= decimal::abs(x));
                }
            }
            assert((-h) * t == -(h * t)) by (nonlinear_arith);
        }
        let r = decimal::dec(n, 0);
        assert(decimal::rounded(q) == r);
        assert(n * 1 == n) by (nonlinear_arith);
        assert(decimal::fits(n));
        let v = decimal::times(r, cent)->0;
        if n == 0 {
            assert(v == decimal::zero());
            assert(decimal::pow10(0) == 1);
            assert(0 * decimal::pow10(2) == 0 * decimal::pow10(0));
        } else {
            assert(v == decimal::dec(n, 2));
        }
        assert(decimal::same_value(v, decimal::dec(n, 2)));
    }
}

} // verus!
