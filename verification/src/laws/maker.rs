//! The maker exit's decisions, its simulation and what a lot earns.

use crate::b3_maker::{
    self, B3ExitKind, BidAt, CellAgg, MakerOrderStatus, PollDecision, PostV, ReconcileDecision,
    ReplayLot, TimeoutV,
};
use crate::decimal::{self, DecV};
use crate::text;
use vstd::prelude::*;

verus! {

/// The order can fill no more.
pub open spec fn ended(s: MakerOrderStatus) -> bool {
    match s {
        MakerOrderStatus::Cancelled => true,
        MakerOrderStatus::Matched => true,
        MakerOrderStatus::Unmatched => true,
        MakerOrderStatus::Live => false,
        MakerOrderStatus::Delayed => false,
        MakerOrderStatus::Unknown => false,
    }
}

pub proof fn lemma_sizes(orig: DecV, matched: DecV)
    requires
        orig.m > 0,
    ensures
        b3_maker::lot_size(orig) == orig,
        b3_maker::fully_matched(orig, matched) <==> decimal::le(orig, matched),
        matched.m <= 0 ==> b3_maker::matched_size(orig, matched).m == 0,
        matched.m > 0 && !decimal::le(orig, matched) ==> b3_maker::matched_size(orig, matched)
            == matched,
{
    decimal::lemma_compare_zero(orig);
    decimal::lemma_compare_zero(matched);
    decimal::lemma_lt_le(orig, matched);
    decimal::lemma_lt_le(matched, orig);
    decimal::lemma_lt_le(orig, orig);
    decimal::lemma_lt_le(decimal::zero(), orig);
    decimal::lemma_lt_le(orig, decimal::zero());
    if matched.m < 0 && decimal::le(orig, matched) {
        decimal::lemma_lt_le(matched, decimal::zero());
        decimal::lemma_le_transitive(orig, matched, decimal::zero());
    }
    if matched.m == 0 && decimal::le(orig, matched) {
        decimal::lemma_lt_le(matched, decimal::zero());
        decimal::lemma_le_transitive(orig, matched, decimal::zero());
    }
}

/// What a poll of a lot means goes by what was matched: all of it, and the lot is
/// filled; less, and its time is over where the caller says so or the order has ended;
/// otherwise the order works where something was matched, and waits where nothing was.
pub proof fn law_polls_by_the_matched_size(
    status: MakerOrderStatus,
    matched: DecV,
    orig: DecV,
    due: bool,
)
    requires
        orig.m > 0,
    ensures
        ({
            let d = b3_maker::polled(status, matched, orig, due);
            let filled = decimal::le(orig, matched);
            &&& filled <==> d == PollDecision::Filled
            &&& !filled && (due || ended(status)) <==> d == PollDecision::Timeout
            &&& !filled && !due && !ended(status) && matched.m > 0 <==> d == PollDecision::Working
            &&& !filled && !due && !ended(status) && matched.m <= 0 <==> d == PollDecision::Waiting
        }),
{
    lemma_sizes(orig, matched);
}

/// What a reconcile of a lot finds goes by what was matched: all of it, and the lot is
/// sold, whatever the status; less, and it is deferred while the order may still fill;
/// once the order has ended, the lot is still there where nothing was matched, and
/// otherwise what was matched is sold and the rest is still there.
pub proof fn law_reconciles_by_the_matched_size(status: MakerOrderStatus, orig: DecV, matched: DecV)
    requires
        decimal::valid(orig),
        decimal::valid(matched),
        orig.m > 0,
    ensures
        b3_maker::reconciled(status, orig, matched) matches Some(o) && {
            let filled = decimal::le(orig, matched);
            &&& filled ==> o.decision == ReconcileDecision::FullFill && !o.defer && o.maker_filled
                == orig && o.fallback_size.m == 0
            &&& !filled && !ended(status) ==> o.decision == ReconcileDecision::Ambiguous && o.defer
                && o.maker_filled.m == 0 && o.fallback_size.m == 0
            &&& !filled && ended(status) && matched.m <= 0 ==> o.decision
                == ReconcileDecision::CleanCancel && !o.defer && o.maker_filled.m == 0
                && o.fallback_size == orig
            &&& !filled && ended(status) && matched.m > 0 ==> {
                &&& o.decision == ReconcileDecision::Partial && !o.defer
                &&& o.maker_filled == matched && o.fallback_size.m > 0
                &&& decimal::exact_difference(orig, matched) ==> decimal::adds_up(
                    matched,
                    o.fallback_size,
                    orig,
                )
                &&& decimal::nearly_adds_up(matched, o.fallback_size, orig)
            }
        },
{
    lemma_sizes(orig, matched);
    b3_maker::law_no_oversell(status, orig, matched);
}

/// A lot of no shares is never sold: an order for it that has ended leaves nothing,
/// and one that may still fill is deferred.
pub proof fn law_lots_of_no_shares_are_not_sold(
    status: MakerOrderStatus,
    orig: DecV,
    matched: DecV,
    due: bool,
)
    requires
        decimal::valid(orig),
        decimal::valid(matched),
        orig.m <= 0,
    ensures
        b3_maker::reconciled(status, orig, matched) matches Some(o) && {
            &&& o.maker_filled.m == 0 && o.fallback_size.m == 0
            &&& o.defer <==> !ended(status)
            &&& b3_maker::timeout_action(o) is Defer
        },
        b3_maker::polled(status, matched, orig, due) == if due || ended(status) {
            PollDecision::Timeout
        } else {
            PollDecision::Waiting
        },
{
    b3_maker::law_no_oversell(status, orig, matched);
    b3_maker::lemma_lot_and_match(orig, matched);
    decimal::lemma_compare_zero(orig);
    let lot = b3_maker::lot_size(orig);
    let m = b3_maker::matched_size(orig, matched);
    decimal::lemma_compare_zero(lot);
    decimal::lemma_compare_zero(m);
    decimal::lemma_lt_le(decimal::zero(), m);
    if m.m > 0 {
        decimal::lemma_lt_le(lot, decimal::zero());
        decimal::lemma_le_transitive(m, lot, decimal::zero());
    }
}

/// The action after a reconcile goes by the two sizes alone: nothing is sold where it
/// is to defer; else the remainder is sold where there is one, as the rest of a lot or
/// as the whole, and nothing is left to sell where there is none.
pub proof fn law_the_remainder_is_sold(o: b3_maker::OutcomeV)
    ensures
        ({
            let a = b3_maker::timeout_action(o);
            let (sold, left) = (o.maker_filled.m > 0, o.fallback_size.m > 0);
            &&& a is Defer <==> o.defer || (!sold && !left)
            &&& a is FullFallback <==> !o.defer && !sold && left
            &&& a is FullMakerFill <==> !o.defer && sold && !left
            &&& a is Partial <==> !o.defer && sold && left
            &&& a matches TimeoutV::Partial { maker_filled, fallback_size } ==> maker_filled
                == o.maker_filled && fallback_size == o.fallback_size
        }),
{
}

/// `v` times `10^-s` is `n`.
pub open spec fn is_value(v: DecV, n: int, s: nat) -> bool {
    v.m * decimal::pow10(s) == n * decimal::pow10(v.s)
}

proof fn lemma_exact_product_value(a: DecV, b: DecV)
    requires
        decimal::exact_product(a, b),
    ensures
        decimal::times(a, b) matches Some(c) && is_value(c, a.m * b.m, a.s + b.s),
{
    decimal::lemma_exact_product(a, b);
    let c = decimal::times(a, b)->0;
    let k = (a.s + b.s - c.s) as nat;
    decimal::lemma_pow10_sum(c.s, k);
    let (m, x, y) = (c.m, decimal::pow10(c.s), decimal::pow10(k));
    assert(m * (x * y) == (m * y) * x) by (nonlinear_arith);
}

proof fn lemma_value_of_product(a: DecV, an: int, asc: nat, b: DecV)
    requires
        is_value(a, an, asc),
        decimal::exact_product(a, b),
    ensures
        decimal::times(a, b) matches Some(c) && is_value(c, an * b.m, asc + b.s),
{
    lemma_exact_product_value(a, b);
    let c = decimal::times(a, b)->0;
    decimal::lemma_pow10_sum(a.s, b.s);
    decimal::lemma_pow10_sum(asc, b.s);
    decimal::lemma_pow10_positive(a.s);
    decimal::lemma_pow10_positive(b.s);
    let (cm, am, bm) = (c.m, a.m, b.m);
    let (pa, pb, ps, pc) = (
        decimal::pow10(a.s),
        decimal::pow10(b.s),
        decimal::pow10(asc),
        decimal::pow10(c.s),
    );
    let (u, v) = (cm * (ps * pb), (an * bm) * pc);
    assert((cm * (ps * pb)) * pa == (cm * (pa * pb)) * ps) by (nonlinear_arith);
    assert(((am * bm) * pc) * ps == ((am * ps) * bm) * pc) by (nonlinear_arith);
    assert(((an * pa) * bm) * pc == ((an * bm) * pc) * pa) by (nonlinear_arith);
    assert(cm * (pa * pb) == (am * bm) * pc);
    assert(am * ps == an * pa);
    assert(u * pa == v * pa);
    assert(u == v) by (nonlinear_arith)
        requires
            u * pa == v * pa,
            pa >= 1,
    ;
}

/// The fee on a taker fill is seven hundredths of shares times price times one minus
/// price.
pub proof fn law_the_fee_is_convex(shares: DecV, price: DecV)
    requires
        decimal::exact_product(decimal::dec(7, 2), shares),
        decimal::exact_product(decimal::times(decimal::dec(7, 2), shares)->0, price),
        decimal::exact_difference(decimal::one(), price),
        decimal::exact_product(
            decimal::times(decimal::times(decimal::dec(7, 2), shares)->0, price)->0,
            decimal::minus(decimal::one(), price)->0,
        ),
    ensures
        b3_maker::fee(shares, price) matches Some(f) && is_value(
            f,
            7 * shares.m * price.m * (decimal::pow10(price.s) - price.m),
            (2 + shares.s + price.s + price.s) as nat,
        ),
{
    let rate = decimal::dec(7, 2);
    let one = decimal::one();
    lemma_exact_product_value(rate, shares);
    let a = decimal::times(rate, shares)->0;
    lemma_value_of_product(a, 7 * shares.m, 2 + shares.s, price);
    let b = decimal::times(a, price)->0;
    decimal::lemma_exact_difference(one, price);
    let c = decimal::minus(one, price)->0;
    assert(decimal::pow10(0) == 1);
    let p = price.s;
    assert(decimal::max_nat(0, p) == p);
    let (pp, pm) = (decimal::pow10(p), price.m);
    assert(1 * pp == pp && pm * 1 == pm) by (nonlinear_arith);
    assert(decimal::difference_at(one, price) == pp - pm);
    // c is (pp - pm) / 10^p
    let k = (p - c.s) as nat;
    decimal::lemma_pow10_sum(c.s, k);
    let (cm, x, y) = (c.m, decimal::pow10(c.s), decimal::pow10(k));
    assert(cm * (x * y) == (cm * y) * x) by (nonlinear_arith);
    assert(is_value(c, pp - pm, p));
    lemma_exact_product_value(b, c);
    let f = decimal::times(b, c)->0;
    let bn = (7 * shares.m) * pm;
    lemma_two_values(b, bn, 2 + shares.s + p, c, pp - pm, p, f);
    assert(bn == 7 * shares.m * pm);
}

proof fn lemma_two_values(a: DecV, an: int, asc: nat, b: DecV, bn: int, bsc: nat, c: DecV)
    requires
        is_value(a, an, asc),
        is_value(b, bn, bsc),
        is_value(c, a.m * b.m, a.s + b.s),
    ensures
        is_value(c, an * bn, asc + bsc),
{
    decimal::lemma_pow10_sum(a.s, b.s);
    decimal::lemma_pow10_sum(asc, bsc);
    decimal::lemma_pow10_positive(a.s);
    decimal::lemma_pow10_positive(b.s);
    let (cm, am, bm) = (c.m, a.m, b.m);
    let (pa, pb, qa, qb, pc) = (
        decimal::pow10(a.s),
        decimal::pow10(b.s),
        decimal::pow10(asc),
        decimal::pow10(bsc),
        decimal::pow10(c.s),
    );
    let (u, v, w) = (cm * (qa * qb), (an * bn) * pc, pa * pb);
    assert(w >= 1) by (nonlinear_arith)
        requires
            w == pa * pb,
            pa >= 1,
            pb >= 1,
    ;
    assert(u * w == v * w) by (nonlinear_arith)
        requires
            cm * w == (am * bm) * pc,
            am * qa == an * pa,
            bm * qb == bn * pb,
            u == cm * (qa * qb),
            v == (an * bn) * pc,
            w == pa * pb,
    {
        assert(u * w == (cm * w) * (qa * qb));
        assert(((am * bm) * pc) * (qa * qb) == ((am * qa) * (bm * qb)) * pc);
        assert(((an * pa) * (bn * pb)) * pc == v * (pa * pb));
    }
    assert(u == v) by (nonlinear_arith)
        requires
            u * w == v * w,
            w >= 1,
    ;
}

/// A taker sale earns what it brings, less the fee on it, less the price of the shares,
/// less the buying fee.
pub proof fn law_profit_is_after_both_fees(shares: DecV, entry: DecV, exit: DecV, exit_fee: DecV)
    requires
        decimal::valid(shares),
        decimal::valid(entry),
        decimal::valid(exit),
        decimal::valid(exit_fee),
        b3_maker::fee(shares, entry) is Some,
        decimal::exact_product(shares, exit),
        decimal::exact_product(shares, entry),
        decimal::exact_difference(decimal::times(shares, exit)->0, exit_fee),
        decimal::exact_sum(decimal::times(shares, entry)->0, b3_maker::fee(shares, entry)->0),
        decimal::exact_difference(
            decimal::minus(decimal::times(shares, exit)->0, exit_fee)->0,
            decimal::plus(decimal::times(shares, entry)->0, b3_maker::fee(shares, entry)->0)->0,
        ),
    ensures
        b3_maker::net_profit(shares, entry, exit, Some(exit_fee)) matches Some(net)
            && decimal::finely(net) == decimal::finely(decimal::product(shares, exit))
            - decimal::finely(exit_fee) - decimal::finely(decimal::product(shares, entry))
            - decimal::finely(b3_maker::fee(shares, entry)->0),
{
    let buy_fee = b3_maker::fee(shares, entry)->0;
    b3_maker::lemma_fee_places(shares, entry);
    decimal::lemma_exact_finely(shares, exit);
    decimal::lemma_exact_finely(shares, entry);
    let (cost, got) = (decimal::times(shares, entry)->0, decimal::times(shares, exit)->0);
    decimal::lemma_exact_finely(got, exit_fee);
    decimal::lemma_exact_finely(cost, buy_fee);
    decimal::lemma_exact_finely(
        decimal::minus(got, exit_fee)->0,
        decimal::plus(cost, buy_fee)->0,
    );
}

/// A maker order pays no fee; every other exit pays the fee of a taker fill.
pub proof fn law_only_the_maker_pays_no_fee(kind: B3ExitKind, shares: DecV, price: DecV)
    ensures
        kind == B3ExitKind::FirstTouch ==> (b3_maker::exit_fee(kind, shares, price) matches Some(f)
            && f.m == 0),
        kind != B3ExitKind::FirstTouch ==> b3_maker::exit_fee(kind, shares, price)
            == b3_maker::fee(shares, price),
{
}

/// The maker part of a split close earns its price difference, less its share of the
/// buying fee; so does the other part, less the fee on its sale.
pub proof fn law_each_part_earns_its_own(
    orig: DecV,
    filled: DecV,
    target: DecV,
    fallback_fill: DecV,
    entry: DecV,
    buy_fee_total: DecV,
)
    requires
        decimal::valid(orig),
        decimal::valid(filled),
        decimal::valid(target),
        decimal::valid(fallback_fill),
        decimal::valid(entry),
        decimal::valid(buy_fee_total),
        orig.m > 0,
        filled.m > 0,
        decimal::lt(filled, orig),
        b3_maker::split_is_exact(orig, filled, target, fallback_fill, entry, buy_fee_total),
    ensures
        b3_maker::split_of(orig, filled, target, fallback_fill, entry, buy_fee_total) matches Some(s)
            && {
            let share = decimal::over(decimal::times(buy_fee_total, filled)->0, orig);
            &&& s.maker_shares == filled
            &&& decimal::minus(orig, filled) == Some(s.fallback_shares)
            &&& share is Some
            &&& decimal::finely(s.maker_pnl) == decimal::finely(decimal::product(filled, target))
                - decimal::finely(decimal::product(filled, entry)) - decimal::finely(share->0)
            &&& decimal::finely(s.fallback_pnl) == decimal::finely(
                decimal::product(s.fallback_shares, fallback_fill),
            ) - decimal::finely(b3_maker::fee(s.fallback_shares, fallback_fill)->0)
                - decimal::finely(decimal::product(s.fallback_shares, entry)) - (decimal::finely(
                buy_fee_total,
            ) - decimal::finely(share->0))
        },
{
    lemma_sizes(orig, filled);
    decimal::lemma_lt_le(filled, orig);
    let (mf, lot) = (filled, orig);
    decimal::lemma_exact_finely(lot, mf);
    let fb = b3_maker::left_over(orig, filled)->0;
    decimal::lemma_product_is_valid(buy_fee_total, mf);
    decimal::lemma_quotient_places(decimal::times(buy_fee_total, mf)->0, lot);
    let first = b3_maker::maker_buy_fee(orig, filled, buy_fee_total)->0;
    decimal::lemma_exact_finely(buy_fee_total, first);
    let second = b3_maker::fallback_buy_fee(orig, filled, buy_fee_total)->0;
    decimal::lemma_exact_finely(mf, target);
    decimal::lemma_exact_finely(mf, entry);
    decimal::lemma_exact_finely(fb, fallback_fill);
    decimal::lemma_exact_finely(fb, entry);
    let maker_cost = decimal::times(mf, entry)->0;
    let fallback_cost = decimal::times(fb, entry)->0;
    let maker_proceeds = decimal::times(mf, target)->0;
    let fallback_proceeds = decimal::times(fb, fallback_fill)->0;
    b3_maker::lemma_fee_places(fb, fallback_fill);
    let sell_fee = b3_maker::fee(fb, fallback_fill)->0;
    decimal::lemma_exact_finely(maker_cost, first);
    decimal::lemma_exact_finely(fallback_cost, second);
    decimal::lemma_exact_finely(maker_proceeds, decimal::plus(maker_cost, first)->0);
    decimal::lemma_exact_finely(fallback_proceeds, sell_fee);
    decimal::lemma_exact_finely(
        decimal::minus(fallback_proceeds, sell_fee)->0,
        decimal::plus(fallback_cost, second)->0,
    );
}

/// The touch is the first mark whose bid is at or above the target.
pub proof fn law_the_touch_is_the_first_bid_at_the_target(marks: Seq<BidAt>, target: DecV)
    ensures
        match b3_maker::first_reaching(marks, target) {
            Some(t) => exists|i: int|
                0 <= i < marks.len() && #[trigger] marks[i] == t && decimal::le(target, t.1@)
                    && forall|j: int|
                    0 <= j < i ==> decimal::lt((#[trigger] marks[j]).1@, target),
            None => forall|j: int|
                0 <= j < marks.len() ==> decimal::lt((#[trigger] marks[j]).1@, target),
        },
    decreases marks.len(),
{
    if marks.len() > 0 {
        let rest = marks.drop_first();
        law_the_touch_is_the_first_bid_at_the_target(rest, target);
        decimal::lemma_lt_le(marks[0].1@, target);
        if decimal::le(target, marks[0].1@) {
            assert(marks[0] == b3_maker::first_reaching(marks, target)->0);
        } else {
            match b3_maker::first_reaching(marks, target) {
                Some(t) => {
                    let i = choose|i: int|
                        0 <= i < rest.len() && #[trigger] rest[i] == t && decimal::le(target, t.1@)
                            && forall|j: int|
                            0 <= j < i ==> decimal::lt((#[trigger] rest[j]).1@, target);
                    assert(marks[i + 1] == t);
                    assert forall|j: int| 0 <= j < i + 1 implies decimal::lt(
                        (#[trigger] marks[j]).1@,
                        target,
                    ) by {
                        if j > 0 {
                            assert(marks[j] == rest[j - 1]);
                        }
                    }
                },
                None => {
                    assert forall|j: int| 0 <= j < marks.len() implies decimal::lt(
                        (#[trigger] marks[j]).1@,
                        target,
                    ) by {
                        if j > 0 {
                            assert(marks[j] == rest[j - 1]);
                        }
                    }
                },
            }
        }
    }
}

/// The stop is armed by the first mark whose bid is above the entry.
pub proof fn law_the_stop_is_armed_above_the_entry(marks: Seq<BidAt>, price: DecV)
    ensures
        match b3_maker::first_above(marks, price) {
            Some(t) => exists|i: int|
                0 <= i < marks.len() && #[trigger] marks[i] == t && decimal::lt(price, t.1@)
                    && forall|j: int|
                    0 <= j < i ==> decimal::le((#[trigger] marks[j]).1@, price),
            None => forall|j: int|
                0 <= j < marks.len() ==> decimal::le((#[trigger] marks[j]).1@, price),
        },
    decreases marks.len(),
{
    if marks.len() > 0 {
        let rest = marks.drop_first();
        law_the_stop_is_armed_above_the_entry(rest, price);
        decimal::lemma_lt_le(price, marks[0].1@);
        if decimal::lt(price, marks[0].1@) {
            assert(marks[0] == b3_maker::first_above(marks, price)->0);
        } else {
            match b3_maker::first_above(marks, price) {
                Some(t) => {
                    let i = choose|i: int|
                        0 <= i < rest.len() && #[trigger] rest[i] == t && decimal::lt(price, t.1@)
                            && forall|j: int|
                            0 <= j < i ==> decimal::le((#[trigger] rest[j]).1@, price);
                    assert(marks[i + 1] == t);
                    assert forall|j: int| 0 <= j < i + 1 implies decimal::le(
                        (#[trigger] marks[j]).1@,
                        price,
                    ) by {
                        if j > 0 {
                            assert(marks[j] == rest[j - 1]);
                        }
                    }
                },
                None => {
                    assert forall|j: int| 0 <= j < marks.len() implies decimal::le(
                        (#[trigger] marks[j]).1@,
                        price,
                    ) by {
                        if j > 0 {
                            assert(marks[j] == rest[j - 1]);
                        }
                    }
                },
            }
        }
    }
}

proof fn lemma_fallen_back(marks: Seq<BidAt>, offset: i64, price: DecV)
    ensures
        match b3_maker::first_fallen_back(marks, offset, price) {
            Some(t) => exists|i: int|
                0 <= i < marks.len() && #[trigger] marks[i] == t && offset < t.0 && decimal::le(
                    t.1@,
                    price,
                ) && forall|j: int|
                    0 <= j < i && offset < (#[trigger] marks[j]).0 ==> decimal::lt(
                        price,
                        marks[j].1@,
                    ),
            None => forall|j: int|
                0 <= j < marks.len() && offset < (#[trigger] marks[j]).0 ==> decimal::lt(
                    price,
                    marks[j].1@,
                ),
        },
    decreases marks.len(),
{
    if marks.len() > 0 {
        let rest = marks.drop_first();
        lemma_fallen_back(rest, offset, price);
        decimal::lemma_lt_le(price, marks[0].1@);
        if marks[0].0 > offset && decimal::le(marks[0].1@, price) {
            assert(marks[0] == b3_maker::first_fallen_back(marks, offset, price)->0);
        } else {
            match b3_maker::first_fallen_back(marks, offset, price) {
                Some(t) => {
                    let i = choose|i: int|
                        0 <= i < rest.len() && #[trigger] rest[i] == t && offset < t.0
                            && decimal::le(t.1@, price) && forall|j: int|
                            0 <= j < i && offset < (#[trigger] rest[j]).0 ==> decimal::lt(
                                price,
                                rest[j].1@,
                            );
                    assert(marks[i + 1] == t);
                    assert forall|j: int|
                        0 <= j < i + 1 && offset < (#[trigger] marks[j]).0 implies decimal::lt(
                        price,
                        marks[j].1@,
                    ) by {
                        if j > 0 {
                            assert(marks[j] == rest[j - 1]);
                        }
                    }
                },
                None => {
                    assert forall|j: int|
                        0 <= j < marks.len() && offset < (#[trigger] marks[j]).0 implies decimal::lt(
                        price,
                        marks[j].1@,
                    ) by {
                        if j > 0 {
                            assert(marks[j] == rest[j - 1]);
                        }
                    }
                },
            }
        }
    }
}

/// The stop is causal: it is armed by the first high above the entry, and fires at
/// the first low that is later than that and at or below the entry, at the bid of that
/// low. It does not fire where no high is above the entry, nor on a low that is not
/// later than the first such high.
pub proof fn law_the_stop_is_causal(hwm: Seq<BidAt>, lwm: Seq<BidAt>, entry: DecV)
    ensures
        match b3_maker::broke_even(hwm, lwm, entry) {
            Some(t) => exists|a: int, i: int|
                #![trigger hwm[a], lwm[i]]
                0 <= a < hwm.len() && 0 <= i < lwm.len() && lwm[i] == t && hwm[a].0 < t.0
                    && decimal::lt(entry, hwm[a].1@) && decimal::le(t.1@, entry) && (forall|j: int|
                    0 <= j < a ==> decimal::le((#[trigger] hwm[j]).1@, entry)) && (forall|j: int|
                    0 <= j < i && decimal::le((#[trigger] lwm[j]).1@, entry) ==> lwm[j].0
                        <= hwm[a].0),
            None => (forall|j: int|
                0 <= j < hwm.len() ==> decimal::le((#[trigger] hwm[j]).1@, entry)) || exists|a: int|
                0 <= a < hwm.len() && decimal::lt(entry, #[trigger] hwm[a].1@) && (forall|j: int|
                    0 <= j < a ==> decimal::le((#[trigger] hwm[j]).1@, entry)) && (forall|j: int|
                    0 <= j < lwm.len() && decimal::le((#[trigger] lwm[j]).1@, entry) ==> lwm[j].0
                        <= hwm[a].0),
        },
{
    law_the_stop_is_armed_above_the_entry(hwm, entry);
    match b3_maker::first_above(hwm, entry) {
        None => {},
        Some(armed) => {
            let a = choose|a: int|
                0 <= a < hwm.len() && #[trigger] hwm[a] == armed && decimal::lt(entry, armed.1@)
                    && forall|j: int|
                    0 <= j < a ==> decimal::le((#[trigger] hwm[j]).1@, entry);
            lemma_fallen_back(lwm, armed.0, entry);
            assert(decimal::lt(entry, hwm[a].1@));
            match b3_maker::broke_even(hwm, lwm, entry) {
                Some(t) => {
                    let i = choose|i: int|
                        0 <= i < lwm.len() && #[trigger] lwm[i] == t && armed.0 < t.0
                            && decimal::le(t.1@, entry) && forall|j: int|
                            0 <= j < i && armed.0 < (#[trigger] lwm[j]).0 ==> decimal::lt(
                                entry,
                                lwm[j].1@,
                            );
                    assert forall|j: int|
                        0 <= j < i && decimal::le((#[trigger] lwm[j]).1@, entry) implies lwm[j].0
                        <= hwm[a].0 by {
                        decimal::lemma_lt_le(entry, lwm[j].1@);
                    }
                    assert(lwm[i] == t);
                },
                None => {
                    assert forall|j: int|
                        0 <= j < lwm.len() && decimal::le((#[trigger] lwm[j]).1@, entry) implies lwm[j].0
                        <= hwm[a].0 by {
                        decimal::lemma_lt_le(entry, lwm[j].1@);
                    }
                },
            }
        },
    }
}

/// The way of a maker exit: at the target where some high reaches it; else at the bid
/// of the stop where it fires; else at the last bid. The ways exclude each other.
pub proof fn law_a_maker_exit_goes_one_way(
    entry: DecV,
    target: DecV,
    hwm: Seq<BidAt>,
    lwm: Seq<BidAt>,
    time_exit_bid: DecV,
)
    ensures
        ({
            let (kind, price) = b3_maker::exit_path(entry, target, hwm, lwm, time_exit_bid);
            let touched = exists|i: int|
                0 <= i < hwm.len() && decimal::le(target, (#[trigger] hwm[i]).1@);
            let stop = b3_maker::broke_even(hwm, lwm, entry);
            &&& touched <==> kind == B3ExitKind::FirstTouch
            &&& touched ==> price == target
            &&& !touched && stop is Some <==> kind == B3ExitKind::F2BreakEven
            &&& !touched && stop is Some ==> price == (stop->0).1@ && decimal::le(price, entry)
            &&& !touched && stop is None <==> kind == B3ExitKind::F1TimeExit
            &&& !touched && stop is None ==> price == time_exit_bid
        }),
{
    law_the_touch_is_the_first_bid_at_the_target(hwm, target);
    law_the_stop_is_causal(hwm, lwm, entry);
    match b3_maker::first_reaching(hwm, target) {
        Some(t) => {
            let i = choose|i: int|
                0 <= i < hwm.len() && #[trigger] hwm[i] == t && decimal::le(target, t.1@)
                    && forall|j: int| 0 <= j < i ==> decimal::lt((#[trigger] hwm[j]).1@, target);
            assert(decimal::le(target, hwm[i].1@));
        },
        None => {
            assert forall|i: int| 0 <= i < hwm.len() implies !decimal::le(
                target,
                (#[trigger] hwm[i]).1@,
            ) by {
                decimal::lemma_lt_le(hwm[i].1@, target);
            }
        },
    }
}

/// A target is asked for exactly where it is at most one tick below 1; it is never
/// brought down to that.
pub proof fn law_targets_stay_below_one(entry: DecV, delta: DecV, tick: DecV)
    requires
        decimal::plus(entry, delta) is Some,
        decimal::exact_difference(decimal::one(), tick),
    ensures
        ({
            let t = decimal::plus(entry, delta)->0;
            let top = decimal::minus(decimal::one(), tick)->0;
            &&& decimal::adds_up(tick, top, decimal::one())
            &&& b3_maker::reachable_target(entry, delta, tick) == if decimal::le(t, top) {
                Some(t)
            } else {
                None
            }
        }),
{
    decimal::lemma_difference_adds_up(decimal::one(), tick);
}

/// What the strategy does with a lot of a cell, by the cell's name: one cell is
/// retired, one is sold when the time is over, and every other has a maker exit at
/// ten cents above the entry.
pub proof fn law_the_strategy_goes_by_the_cell(
    r: Option<ReplayLot>,
    asset: Seq<char>,
    interval: Seq<char>,
    entry: DecV,
    shares: DecV,
    exit: DecV,
    hwm: Seq<BidAt>,
    lwm: Seq<BidAt>,
)
    requires
        b3_maker::is_replay(
            r,
            b3_maker::cell_name(asset, interval),
            entry,
            shares,
            exit,
            hwm,
            lwm,
        ),
        r is Some,
    ensures
        ({
            let cell = asset.push('_') + interval;
            let retired = cell == seq!['E', 'T', 'H', '_', '1', '5', 'm'];
            let baseline = cell == seq!['B', 'T', 'C', '_', '5', 'm'];
            &&& r->0 is Excluded <==> retired
            &&& r->0 is Baseline <==> baseline
            &&& r->0 is Maker <==> !retired && !baseline
            &&& r->0 is Baseline ==> {
                &&& decimal::minus(exit, entry) matches Some(d) && decimal::times(shares, d)
                    == Some(r->0->gross@)
                &&& b3_maker::net_profit(shares, entry, exit, b3_maker::fee(shares, exit)) == Some(
                    r->0->net@,
                )
            }
            &&& r->0 is Maker ==> {
                let o = r->0->outcome;
                let target = decimal::plus(entry, decimal::dec(10, 2));
                &&& target is Some
                &&& r->0->invalid_target <==> decimal::lt(decimal::dec(99, 2), target->0)
                &&& o.maker_filled <==> exists|i: int|
                    0 <= i < hwm.len() && decimal::le(target->0, (#[trigger] hwm[i]).1@)
                &&& o.maker_filled <==> o.exit_kind == B3ExitKind::FirstTouch
                &&& (o.exit_kind, o.exit_price@) == b3_maker::exit_path(
                    entry,
                    target->0,
                    hwm,
                    lwm,
                    exit,
                )
                &&& decimal::minus(o.exit_price@, entry) matches Some(d) && decimal::times(shares, d)
                    == Some(o.gross_pnl@)
                &&& b3_maker::net_profit(
                    shares,
                    entry,
                    o.exit_price@,
                    if o.maker_filled {
                        Some(decimal::zero())
                    } else {
                        b3_maker::fee(shares, o.exit_price@)
                    },
                ) == Some(o.net_pnl@)
            }
        }),
{
    reveal_strlit("_");
    reveal_strlit("ETH_15m");
    reveal_strlit("BTC_5m");
    let cell = asset.push('_') + interval;
    assert(b3_maker::cell_name(asset, interval) =~= cell);
    assert("ETH_15m"@ =~= seq!['E', 'T', 'H', '_', '1', '5', 'm']);
    assert("BTC_5m"@ =~= seq!['B', 'T', 'C', '_', '5', 'm']);
    assert("ETH_15m"@.len() != "BTC_5m"@.len());
    let target = decimal::plus(entry, decimal::dec(10, 2));
    law_a_maker_exit_goes_one_way(entry, target->0, hwm, lwm, exit);
}

/// The totals of a cell move by the lot that is counted: the profits and losses of
/// all lots differ by their total, a lot wins where its profit is above 0, and it is
/// counted under its own kind only.
pub proof fn law_totals_move_by_the_lot(
    before: CellAgg,
    after: CellAgg,
    gross: DecV,
    net: DecV,
    kind: Option<B3ExitKind>,
    invalid: bool,
)
    requires
        b3_maker::counted(before, after, gross, net, kind, invalid),
        before.gross@.s <= 28 && before.net@.s <= 28 && before.net_gross_gain@.s <= 28
            && before.net_gross_loss@.s <= 28 && gross.s <= 28 && net.s <= 28,
        decimal::exact_sum(before.gross@, gross),
        decimal::exact_sum(before.net@, net),
        decimal::exact_sum(before.net_gross_gain@, net),
        decimal::exact_difference(before.net_gross_loss@, net),
    ensures
        after.n == before.n + 1,
        decimal::finely(after.gross@) - decimal::finely(before.gross@) == decimal::finely(gross),
        decimal::finely(after.net@) - decimal::finely(before.net@) == decimal::finely(net),
        ({
            let gain = decimal::finely(after.net_gross_gain@) - decimal::finely(
                before.net_gross_gain@,
            );
            let loss = decimal::finely(after.net_gross_loss@) - decimal::finely(
                before.net_gross_loss@,
            );
            &&& gain - loss == decimal::finely(net)
            &&& gain >= 0 && loss >= 0 && (gain == 0 || loss == 0)
        }),
        after.net_wins - before.net_wins == if net.m > 0 {
            1int
        } else {
            0
        },
        after.invalid_target - before.invalid_target == if invalid {
            1int
        } else {
            0
        },
        ({
            let (a, b, c) = (
                after.first_touch - before.first_touch,
                after.f2_break_even - before.f2_break_even,
                after.f1_time_exit - before.f1_time_exit,
            );
            &&& a >= 0 && b >= 0 && c >= 0
            &&& a + b + c == if kind is Some {
                1int
            } else {
                0
            }
            &&& a == 1 <==> kind == Some(B3ExitKind::FirstTouch)
            &&& b == 1 <==> kind == Some(B3ExitKind::F2BreakEven)
            &&& c == 1 <==> kind == Some(B3ExitKind::F1TimeExit)
        }),
{
    decimal::lemma_exact_finely(before.gross@, gross);
    decimal::lemma_exact_finely(before.net@, net);
    decimal::lemma_exact_finely(before.net_gross_gain@, net);
    decimal::lemma_exact_finely(before.net_gross_loss@, net);
    let k = (decimal::FINEST - net.s) as nat;
    decimal::lemma_pow10_positive(k);
    let (m, p) = (net.m, decimal::pow10(k));
    assert((m > 0 ==> m * p > 0) && (m < 0 ==> m * p < 0) && (m == 0 ==> m * p == 0))
        by (nonlinear_arith)
        requires
            p >= 1,
    ;
    match kind {
        None => {},
        Some(B3ExitKind::FirstTouch) => {},
        Some(B3ExitKind::F2BreakEven) => {},
        Some(B3ExitKind::F1TimeExit) => {},
    }
}

/// A message in any capitalisation that has one of the known words in it is a refusal
/// of a crossing order; `i` is where the word stands.
pub proof fn law_known_words_mean_crossing(message: Seq<char>, i: int, word: Seq<char>)
    requires
        ({
            ||| word == "post only"@
            ||| word == "post-only"@
            ||| word == "postonly"@
            ||| word == "would cross"@
            ||| word == "crossing"@
            ||| word == "would match"@
            ||| word == "marketable"@
        }),
        0 <= i <= i + word.len() <= message.len(),
        text::lowered(message).subrange(i, i + word.len()) == word,
    ensures
        b3_maker::post_outcome(false, None, Some(message)) == PostV::RejectedCrossable,
{
    assert(text::occurs_at(text::lowered(message), word, i));
}

/// A cell without lots has nothing: no lot, no win, no exit of any kind and no amount.
pub proof fn law_cells_begin_with_nothing(c: CellAgg)
    ensures
        c.blank() <==> {
            &&& c.n == 0
            &&& c.net_wins == 0
            &&& c.first_touch == 0
            &&& c.f2_break_even == 0
            &&& c.f1_time_exit == 0
            &&& c.invalid_target == 0
            &&& c.gross@ == decimal::dec(0, 0)
            &&& c.net@ == decimal::dec(0, 0)
            &&& c.net_gross_gain@ == decimal::dec(0, 0)
            &&& c.net_gross_loss@ == decimal::dec(0, 0)
        },
{
}

/// A lot of no shares has no share of a fee.
pub proof fn law_nothing_has_no_fee(orig: DecV, filled: DecV, total: DecV)
    requires
        orig.m <= 0,
    ensures
        b3_maker::maker_buy_fee(orig, filled, total) == Some(decimal::dec(0, 0)),
{
    decimal::lemma_compare_zero(orig);
    decimal::lemma_lt_le(orig, decimal::zero());
    decimal::lemma_lt_le(decimal::zero(), orig);
}

} // verus!
