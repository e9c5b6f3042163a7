//! The maker-exit decisions: what a resting sell order means once it has been
//! polled or cancelled, how a partly filled lot is closed, and how the result of
//! posting the order is read.
//!
//! Nothing here talks to a venue. The caller observes order status, matched size
//! and error texts, and acts on the verdicts.

use crate::decimal::{self, add_amounts, div_amounts, mul_amounts, sub_amounts, Dec, DecV};
use crate::text::{self, chars_of, lowered_contains, text_of};
use vstd::prelude::*;

verus! {

/// The state of an order, as far as it matters here: can it still fill?
#[derive(Debug, Clone, Copy, PartialEq, Eq, Structural)]
pub enum MakerOrderStatus {
    /// Cancelled: no more fills.
    Cancelled,
    /// Fully matched.
    Matched,
    /// Expired without a match.
    Unmatched,
    /// Still on the book: a cancel did not take effect.
    Live,
    /// Queued: may still fill.
    Delayed,
    /// Not known: taken as one that may still fill.
    Unknown,
}

pub open spec fn terminal(s: MakerOrderStatus) -> bool {
    s == MakerOrderStatus::Cancelled || s == MakerOrderStatus::Matched || s
        == MakerOrderStatus::Unmatched
}

impl MakerOrderStatus {
    /// No further fills are possible.
    #[must_use]
    pub fn is_terminal(self) -> (r: bool)
        ensures
            r == terminal(self),
    {
        match self {
            MakerOrderStatus::Cancelled | MakerOrderStatus::Matched | MakerOrderStatus::Unmatched => true,
            _ => false,
        }
    }
}

/// What reconciling a cancelled order found.
#[derive(Debug, Clone, Copy, PartialEq, Eq, Structural)]
pub enum ReconcileDecision {
    FullFill,
    Partial,
    CleanCancel,
    Ambiguous,
}

impl ReconcileDecision {
    pub open spec fn name(self) -> Seq<char> {
        match self {
            ReconcileDecision::FullFill => "full_fill"@,
            ReconcileDecision::Partial => "partial"@,
            ReconcileDecision::CleanCancel => "clean_cancel"@,
            ReconcileDecision::Ambiguous => "ambiguous"@,
        }
    }

    #[must_use]
    pub fn as_str(self) -> (r: &'static str)
        ensures
            r@ == self.name(),
    {
        match self {
            ReconcileDecision::FullFill => "full_fill",
            ReconcileDecision::Partial => "partial",
            ReconcileDecision::CleanCancel => "clean_cancel",
            ReconcileDecision::Ambiguous => "ambiguous",
        }
    }
}

/// What to do with a lot once its order has been cancelled.
///
/// When `defer` is set, both sizes are 0 and nothing may be sold now. Otherwise
/// the two sizes make up the whole lot.
#[derive(Debug, Clone, PartialEq)]
pub struct ReconcileOutcome {
    /// Shares that the maker order sold.
    pub maker_filled: Dec,
    /// Shares left to sell as a taker.
    pub fallback_size: Dec,
    /// Sell nothing now: the order may still fill.
    pub defer: bool,
    pub decision: ReconcileDecision,
}

/// A reconcile outcome as mathematical values.
pub struct OutcomeV {
    pub maker_filled: DecV,
    pub fallback_size: DecV,
    pub defer: bool,
    pub decision: ReconcileDecision,
}

impl View for ReconcileOutcome {
    type V = OutcomeV;

    open spec fn view(&self) -> OutcomeV {
        OutcomeV {
            maker_filled: self.maker_filled@,
            fallback_size: self.fallback_size@,
            defer: self.defer,
            decision: self.decision,
        }
    }
}

/// The size of a lot; a negative size counts as 0.
pub open spec fn lot_size(orig: DecV) -> DecV {
    decimal::spec_max(orig, decimal::zero())
}

/// The reported match, limited to the range from 0 to the size of the lot.
pub open spec fn matched_size(orig: DecV, matched: DecV) -> DecV {
    decimal::spec_clamp(matched, decimal::zero(), lot_size(orig))
}

/// The whole lot has been matched.
pub open spec fn fully_matched(orig: DecV, matched: DecV) -> bool {
    lot_size(orig).m > 0 && decimal::le(lot_size(orig), matched_size(orig, matched))
}

/// What is left of the lot after the match.
pub open spec fn left_over(orig: DecV, matched: DecV) -> Option<DecV> {
    decimal::minus(lot_size(orig), matched_size(orig, matched))
}

/// The outcome of reconciling: `None` where the remainder is out of range.
pub open spec fn reconciled(status: MakerOrderStatus, orig: DecV, matched: DecV) -> Option<
    OutcomeV,
> {
    let o = lot_size(orig);
    let m = matched_size(orig, matched);
    if fully_matched(orig, matched) {
        Some(
            OutcomeV {
                maker_filled: o,
                fallback_size: decimal::zero(),
                defer: false,
                decision: ReconcileDecision::FullFill,
            },
        )
    } else if !terminal(status) {
        Some(
            OutcomeV {
                maker_filled: decimal::zero(),
                fallback_size: decimal::zero(),
                defer: true,
                decision: ReconcileDecision::Ambiguous,
            },
        )
    } else if m.m == 0 {
        Some(
            OutcomeV {
                maker_filled: decimal::zero(),
                fallback_size: o,
                defer: false,
                decision: ReconcileDecision::CleanCancel,
            },
        )
    } else {
        match left_over(orig, matched) {
            Some(rest) => Some(
                OutcomeV {
                    maker_filled: m,
                    fallback_size: rest,
                    defer: false,
                    decision: ReconcileDecision::Partial,
                },
            ),
            None => None,
        }
    }
}

/// The size of a lot is at least 0, and what is matched lies between 0 and it.
pub proof fn lemma_lot_and_match(orig: DecV, matched: DecV)
    ensures
        decimal::le(decimal::zero(), lot_size(orig)),
        lot_size(orig).m >= 0,
        matched_size(orig, matched).m >= 0,
        decimal::le(matched_size(orig, matched), lot_size(orig)),
{
    decimal::lemma_compare_zero(orig);
    decimal::lemma_compare_zero(decimal::zero());
    decimal::lemma_compare_zero(lot_size(orig));
    decimal::lemma_compare_zero(matched);
    decimal::lemma_lt_le(matched, decimal::zero());
    decimal::lemma_lt_le(lot_size(orig), matched);
    decimal::lemma_lt_le(lot_size(orig), lot_size(orig));
}

/// Decides what to do after a cancel, from what the venue says about the order:
/// its status and the size matched in total. The reported size is limited to the
/// lot, so that a wrong report cannot make the lot larger than it is.
#[must_use]
pub fn reconcile_decision(
    status: MakerOrderStatus,
    original_size: Dec,
    size_matched: Dec,
) -> (r: ReconcileOutcome)
    ensures
        reconciled(status, original_size@, size_matched@) == Some(r@),
        makes_up_the_lot(r@, original_size@, size_matched@),
{
    let orig = original_size.max(Dec::zero());
    proof {
        lemma_lot_and_match(original_size@, size_matched@);
        decimal::lemma_lt_le(matched_size(original_size@, size_matched@), lot_size(original_size@));
    }
    let matched = size_matched.clamp(Dec::zero(), orig);
    proof {
        lemma_makes_up_the_lot(status, original_size@, size_matched@);
    }
    if orig.is_positive() && !matched.less_than(orig) {
        return ReconcileOutcome {
            maker_filled: orig,
            fallback_size: Dec::zero(),
            defer: false,
            decision: ReconcileDecision::FullFill,
        };
    }
    if !status.is_terminal() {
        return ReconcileOutcome {
            maker_filled: Dec::zero(),
            fallback_size: Dec::zero(),
            defer: true,
            decision: ReconcileDecision::Ambiguous,
        };
    }
    if matched.is_zero() {
        return ReconcileOutcome {
            maker_filled: Dec::zero(),
            fallback_size: orig,
            defer: false,
            decision: ReconcileDecision::CleanCancel,
        };
    }
    let rest = orig.checked_sub(matched);
    ReconcileOutcome {
        maker_filled: matched,
        fallback_size: rest.unwrap(),
        defer: false,
        decision: ReconcileDecision::Partial,
    }
}

/// What an outcome keeps to: what the maker sold and what is left to sell lie between
/// 0 and the lot; when the outcome is to defer, both are 0; otherwise they add up to
/// the lot, wherever the remainder is a decimal number, and up to half a unit of its
/// last place where it has to be rounded; of a partial fill both are more than 0.
pub open spec fn makes_up_the_lot(o: OutcomeV, orig: DecV, matched: DecV) -> bool {
    let lot = lot_size(orig);
    &&& o.maker_filled.m >= 0 && decimal::le(o.maker_filled, lot)
    &&& o.fallback_size.m >= 0 && decimal::le(o.fallback_size, lot)
    &&& o.defer ==> o.maker_filled.m == 0 && o.fallback_size.m == 0
    &&& !o.defer && decimal::exact_difference(lot, matched_size(orig, matched))
        ==> decimal::adds_up(o.maker_filled, o.fallback_size, lot)
    &&& !o.defer ==> decimal::nearly_adds_up(o.maker_filled, o.fallback_size, lot)
    &&& o.decision == ReconcileDecision::Partial ==> o.maker_filled.m > 0 && o.fallback_size.m > 0
}

proof fn lemma_makes_up_the_lot(status: MakerOrderStatus, orig: DecV, matched: DecV)
    requires
        decimal::valid(lot_size(orig)),
        decimal::valid(matched_size(orig, matched)),
    ensures
        reconciled(status, orig, matched) matches Some(o) && makes_up_the_lot(o, orig, matched),
{
    let o = lot_size(orig);
    let m = matched_size(orig, matched);
    lemma_lot_and_match(orig, matched);
    decimal::lemma_rest_of_a_whole(o, m);
    decimal::lemma_difference_nearly_adds_up(o, m);
    if decimal::exact_difference(o, m) {
        decimal::lemma_difference_adds_up(o, m);
    }
    decimal::lemma_compare_zero(o);
    decimal::lemma_compare_zero(m);
    decimal::lemma_lt_le(o, o);
    decimal::lemma_lt_le(m, o);
    decimal::lemma_nothing_added(o);
    if o.m == 0 && m.m > 0 {
        decimal::lemma_le_transitive(m, o, decimal::zero());
        decimal::lemma_lt_le(decimal::zero(), m);
    }
}

/// Nothing is sold twice and nothing is left over, whatever the venue says of the
/// order: the outcome makes up the lot, and it is to defer only where the order may
/// still fill.
pub proof fn law_no_oversell(status: MakerOrderStatus, orig: DecV, matched: DecV)
    requires
        decimal::valid(orig),
        decimal::valid(matched),
    ensures
        reconciled(status, orig, matched) matches Some(o) && {
            &&& makes_up_the_lot(o, orig, matched)
            &&& o.defer <==> o.decision == ReconcileDecision::Ambiguous
            &&& o.defer ==> !terminal(status)
        },
{
    lemma_sizes_are_valid(orig, matched);
    lemma_makes_up_the_lot(status, orig, matched);
}

/// The size of a lot and what is matched of it are decimals of 96 bits.
proof fn lemma_sizes_are_valid(orig: DecV, matched: DecV)
    requires
        decimal::valid(orig),
        decimal::valid(matched),
    ensures
        decimal::valid(lot_size(orig)),
        decimal::valid(matched_size(orig, matched)),
{
}

/// What the exit task does when the time for the maker order is over.
#[derive(Debug, Clone, PartialEq)]
pub enum B3TimeoutAction {
    /// Sell nothing, try again later.
    Defer,
    /// Sell the whole lot as a taker.
    FullFallback,
    /// The maker order sold the whole lot.
    FullMakerFill,
    /// The maker order sold one part; sell the other as a taker.
    Partial { maker_filled: Dec, fallback_size: Dec },
}

/// A timeout action as mathematical values.
pub enum TimeoutV {
    Defer,
    FullFallback,
    FullMakerFill,
    Partial { maker_filled: DecV, fallback_size: DecV },
}

impl View for B3TimeoutAction {
    type V = TimeoutV;

    open spec fn view(&self) -> TimeoutV {
        match self {
            B3TimeoutAction::Defer => TimeoutV::Defer,
            B3TimeoutAction::FullFallback => TimeoutV::FullFallback,
            B3TimeoutAction::FullMakerFill => TimeoutV::FullMakerFill,
            B3TimeoutAction::Partial { maker_filled, fallback_size } => TimeoutV::Partial {
                maker_filled: maker_filled@,
                fallback_size: fallback_size@,
            },
        }
    }
}

pub open spec fn timeout_action(o: OutcomeV) -> TimeoutV {
    if o.defer {
        TimeoutV::Defer
    } else if o.maker_filled.m > 0 && o.fallback_size.m > 0 {
        TimeoutV::Partial { maker_filled: o.maker_filled, fallback_size: o.fallback_size }
    } else if o.fallback_size.m > 0 {
        TimeoutV::FullFallback
    } else if o.maker_filled.m > 0 {
        TimeoutV::FullMakerFill
    } else {
        TimeoutV::Defer
    }
}

/// The action that a reconcile outcome calls for.
#[must_use]
pub fn b3_timeout_action(recon: &ReconcileOutcome) -> (r: B3TimeoutAction)
    ensures
        r@ == timeout_action(recon@),
{
    if recon.defer {
        return B3TimeoutAction::Defer;
    }
    let mf = recon.maker_filled;
    let fb = recon.fallback_size;
    if mf.is_positive() && fb.is_positive() {
        B3TimeoutAction::Partial { maker_filled: mf, fallback_size: fb }
    } else if fb.is_positive() {
        B3TimeoutAction::FullFallback
    } else if mf.is_positive() {
        B3TimeoutAction::FullMakerFill
    } else {
        B3TimeoutAction::Defer
    }
}

/// The action taken on a reconciled lot sells that lot exactly once: it is to defer
/// where the order may still fill, a fallback of the whole lot only where the maker
/// sold nothing, a maker fill of the whole lot only where nothing is left, and
/// otherwise two parts that are both more than 0. These add up to the lot, wherever
/// the remainder is a decimal number. (A lot of no shares has nothing to sell.)
pub proof fn law_timeout_sells_once(status: MakerOrderStatus, orig: DecV, matched: DecV)
    requires
        decimal::valid(orig),
        decimal::valid(matched),
    ensures
        reconciled(status, orig, matched) matches Some(o) && {
            &&& match timeout_action(o) {
                TimeoutV::Defer => o.maker_filled.m == 0 && o.fallback_size.m == 0,
                TimeoutV::FullFallback => o.maker_filled.m == 0 && o.fallback_size == lot_size(
                    orig,
                ),
                TimeoutV::FullMakerFill => o.maker_filled == lot_size(orig) && o.fallback_size.m
                    == 0,
                TimeoutV::Partial { maker_filled, fallback_size } => {
                    &&& maker_filled == o.maker_filled && maker_filled.m > 0
                    &&& fallback_size == o.fallback_size && fallback_size.m > 0
                    &&& decimal::exact_difference(lot_size(orig), matched_size(orig, matched))
                        ==> decimal::adds_up(maker_filled, fallback_size, lot_size(orig))
                    &&& decimal::nearly_adds_up(maker_filled, fallback_size, lot_size(orig))
                },
            }
            &&& orig.m > 0 ==> {
                &&& timeout_action(o) is Defer <==> o.decision == ReconcileDecision::Ambiguous
                &&& timeout_action(o) is FullFallback <==> o.decision
                    == ReconcileDecision::CleanCancel
                &&& timeout_action(o) is FullMakerFill <==> o.decision
                    == ReconcileDecision::FullFill
                &&& timeout_action(o) is Partial <==> o.decision == ReconcileDecision::Partial
            }
        },
{
    law_no_oversell(status, orig, matched);
    lemma_lot_and_match(orig, matched);
    decimal::lemma_compare_zero(orig);
}

/// What polling a resting order means.
#[derive(Debug, Clone, Copy, PartialEq, Eq, Structural)]
pub enum PollDecision {
    /// The whole lot was matched.
    Filled,
    /// Partly matched and still on the book.
    Working,
    /// Nothing matched yet.
    Waiting,
    /// The time is over, or the order ended without a full match.
    Timeout,
}

pub open spec fn polled(status: MakerOrderStatus, matched: DecV, orig: DecV, due: bool) -> PollDecision {
    if fully_matched(orig, matched) {
        PollDecision::Filled
    } else if due || terminal(status) {
        PollDecision::Timeout
    } else if matched_size(orig, matched).m > 0 {
        PollDecision::Working
    } else {
        PollDecision::Waiting
    }
}

/// Decides what a poll means, from the status, the size matched in total, and
/// whether the time for the order is over.
#[must_use]
pub fn b3_poll_decision(
    status: MakerOrderStatus,
    size_matched: Dec,
    orig: Dec,
    due: bool,
) -> (r: PollDecision)
    ensures
        r == polled(status, size_matched@, orig@, due),
{
    let lot = orig.max(Dec::zero());
    proof {
        lemma_lot_and_match(orig@, size_matched@);
        decimal::lemma_lt_le(matched_size(orig@, size_matched@), lot_size(orig@));
    }
    let matched = size_matched.clamp(Dec::zero(), lot);
    if lot.is_positive() && !matched.less_than(lot) {
        return PollDecision::Filled;
    }
    if due || status.is_terminal() {
        return PollDecision::Timeout;
    }
    if matched.is_positive() {
        PollDecision::Working
    } else {
        PollDecision::Waiting
    }
}

/// Polling and reconciling agree: a poll finds the lot filled exactly where a
/// reconcile of the same report finds a full fill, and an order that is neither
/// filled, due nor ended is one that a reconcile would leave alone.
pub proof fn law_poll_agrees_with_reconcile(
    status: MakerOrderStatus,
    orig: DecV,
    matched: DecV,
    due: bool,
)
    ensures
        polled(status, matched, orig, due) == PollDecision::Filled <==> (reconciled(
            status,
            orig,
            matched,
        ) matches Some(o) && o.decision == ReconcileDecision::FullFill),
        polled(status, matched, orig, due) == PollDecision::Working || polled(
            status,
            matched,
            orig,
            due,
        ) == PollDecision::Waiting ==> (reconciled(status, orig, matched) matches Some(o)
            && o.defer),
{
}

/// The fee on a taker fill: `0.07 * shares * price * (1 - price)`.
pub open spec fn fee(shares: DecV, price: DecV) -> Option<DecV> {
    decimal::o_times(
        decimal::o_times(decimal::times(decimal::dec(7, 2), shares), Some(price)),
        decimal::minus(decimal::one(), price),
    )
}

/// The fee on a taker fill, where it is in range.
#[must_use]
pub fn checked_taker_fee(shares: Dec, price: Dec) -> (r: Option<Dec>)
    ensures
        decimal::opt(r) == fee(shares@, price@),
{
    let rate = Dec::new(7, 2);
    let by_shares = rate.checked_mul(shares);
    let by_price = mul_amounts(by_shares, Some(price));
    mul_amounts(by_price, Dec::one().checked_sub(price))
}

/// The fee on a taker fill: `0.07 * shares * price * (1 - price)`.
#[must_use]
pub fn taker_fee_dec(shares: Dec, price: Dec) -> (r: Dec)
    requires
        fee(shares@, price@) is Some,
    ensures
        fee(shares@, price@) == Some(r@),
{
    let r = checked_taker_fee(shares, price);
    r.unwrap()
}

/// A lot closed in two parts: what the maker order sold and what was sold as a
/// taker.
#[derive(Debug, Clone, PartialEq)]
pub struct SplitClose {
    pub maker_shares: Dec,
    pub fallback_shares: Dec,
    /// Profit of the maker part, sold at the target without a fee.
    pub maker_pnl: Dec,
    /// Profit of the fallback part, sold as a taker.
    pub fallback_pnl: Dec,
}

/// A split close as mathematical values.
pub struct SplitV {
    pub maker_shares: DecV,
    pub fallback_shares: DecV,
    pub maker_pnl: DecV,
    pub fallback_pnl: DecV,
}

impl View for SplitClose {
    type V = SplitV;

    open spec fn view(&self) -> SplitV {
        SplitV {
            maker_shares: self.maker_shares@,
            fallback_shares: self.fallback_shares@,
            maker_pnl: self.maker_pnl@,
            fallback_pnl: self.fallback_pnl@,
        }
    }
}

/// The part of the buying fee that falls on the maker part, by share of the lot.
pub open spec fn maker_buy_fee(orig: DecV, filled: DecV, total: DecV) -> Option<DecV> {
    if lot_size(orig).m > 0 {
        decimal::o_over(
            decimal::times(total, matched_size(orig, filled)),
            Some(lot_size(orig)),
        )
    } else {
        Some(decimal::zero())
    }
}

/// The rest of the buying fee.
pub open spec fn fallback_buy_fee(orig: DecV, filled: DecV, total: DecV) -> Option<DecV> {
    decimal::o_minus(Some(total), maker_buy_fee(orig, filled, total))
}

/// What `shares` sold for `proceeds` earn over their price and their buying fee.
pub open spec fn profit(
    proceeds: Option<DecV>,
    shares: Option<DecV>,
    entry: DecV,
    buy_fee: Option<DecV>,
) -> Option<DecV> {
    decimal::o_minus(
        proceeds,
        decimal::o_plus(decimal::o_times(shares, Some(entry)), buy_fee),
    )
}

/// The two parts of a split close; `None` where an amount is out of range.
pub open spec fn split_of(
    orig: DecV,
    filled: DecV,
    target: DecV,
    fallback_fill: DecV,
    entry: DecV,
    buy_fee_total: DecV,
) -> Option<SplitV> {
    let mf = matched_size(orig, filled);
    let rest = left_over(orig, filled);
    let maker = profit(
        decimal::times(mf, target),
        Some(mf),
        entry,
        maker_buy_fee(orig, filled, buy_fee_total),
    );
    let sell_fee = match rest {
        Some(fb) => fee(fb, fallback_fill),
        None => None,
    };
    let fallback = profit(
        decimal::o_minus(decimal::o_times(rest, Some(fallback_fill)), sell_fee),
        rest,
        entry,
        fallback_buy_fee(orig, filled, buy_fee_total),
    );
    match (rest, maker, fallback) {
        (Some(fb), Some(mp), Some(fp)) => Some(
            SplitV { maker_shares: mf, fallback_shares: fb, maker_pnl: mp, fallback_pnl: fp },
        ),
        _ => None,
    }
}

/// Closes a partly filled lot in two parts, where all amounts are in range.
#[must_use]
pub fn checked_split_close(
    orig: Dec,
    maker_filled: Dec,
    target: Dec,
    fallback_fill: Dec,
    entry: Dec,
    buy_fee_total: Dec,
) -> (r: Option<SplitClose>)
    ensures
        r is Some <==> split_of(
            orig@,
            maker_filled@,
            target@,
            fallback_fill@,
            entry@,
            buy_fee_total@,
        ) is Some,
        r matches Some(s) ==> split_of(
            orig@,
            maker_filled@,
            target@,
            fallback_fill@,
            entry@,
            buy_fee_total@,
        ) == Some(s@),
        r matches Some(s) ==> shares_make_up_the_lot(s@, orig@, maker_filled@),
        split_is_exact(
            orig@,
            maker_filled@,
            target@,
            fallback_fill@,
            entry@,
            buy_fee_total@,
        ) ==> (r matches Some(s) && charges_once(
            s@,
            orig@,
            target@,
            fallback_fill@,
            entry@,
            buy_fee_total@,
        )),
{
    let lot = orig.max(Dec::zero());
    proof {
        lemma_lot_and_match(orig@, maker_filled@);
    }
    let mf = maker_filled.clamp(Dec::zero(), lot);
    proof {
        lemma_shares_make_up_the_lot(
            orig@,
            maker_filled@,
            target@,
            fallback_fill@,
            entry@,
            buy_fee_total@,
        );
        use_type_invariant(&orig);
        use_type_invariant(&maker_filled);
        use_type_invariant(&target);
        use_type_invariant(&fallback_fill);
        use_type_invariant(&entry);
        use_type_invariant(&buy_fee_total);
        decimal::lemma_in_range(orig);
        decimal::lemma_in_range(maker_filled);
        decimal::lemma_in_range(target);
        decimal::lemma_in_range(fallback_fill);
        decimal::lemma_in_range(entry);
        decimal::lemma_in_range(buy_fee_total);
        if split_is_exact(
            orig@,
            maker_filled@,
            target@,
            fallback_fill@,
            entry@,
            buy_fee_total@,
        ) {
            law_split_charges_the_fee_once(
                orig@,
                maker_filled@,
                target@,
                fallback_fill@,
                entry@,
                buy_fee_total@,
            );
        }
    }
    let fb = lot.checked_sub(mf);
    // The buying fee is split by shares; the second part is the remainder, so
    // that the two make up the total.
    let maker_buy = if lot.is_positive() {
        div_amounts(buy_fee_total.checked_mul(mf), Some(lot))
    } else {
        Some(Dec::zero())
    };
    let fb_buy = sub_amounts(Some(buy_fee_total), maker_buy);
    let maker_pnl = sub_amounts(
        mf.checked_mul(target),
        add_amounts(mf.checked_mul(entry), maker_buy),
    );
    let fb_sell_fee = match fb {
        Some(shares) => checked_taker_fee(shares, fallback_fill),
        None => None,
    };
    let fallback_pnl = sub_amounts(
        sub_amounts(mul_amounts(fb, Some(fallback_fill)), fb_sell_fee),
        add_amounts(mul_amounts(fb, Some(entry)), fb_buy),
    );
    match (fb, maker_pnl, fallback_pnl) {
        (Some(fallback_shares), Some(maker_pnl), Some(fallback_pnl)) => Some(
            SplitClose { maker_shares: mf, fallback_shares, maker_pnl, fallback_pnl },
        ),
        _ => None,
    }
}

/// Closes a partly filled lot in two parts: `maker_filled` shares sold at
/// `target` by the maker order, and the rest sold as a taker at `fallback_fill`.
/// The buying fee is divided between them by shares.
#[must_use]
pub fn split_close(
    orig: Dec,
    maker_filled: Dec,
    target: Dec,
    fallback_fill: Dec,
    entry: Dec,
    buy_fee_total: Dec,
) -> (r: SplitClose)
    requires
        split_of(orig@, maker_filled@, target@, fallback_fill@, entry@, buy_fee_total@) is Some,
    ensures
        split_of(orig@, maker_filled@, target@, fallback_fill@, entry@, buy_fee_total@) == Some(r@),
        shares_make_up_the_lot(r@, orig@, maker_filled@),
        split_is_exact(orig@, maker_filled@, target@, fallback_fill@, entry@, buy_fee_total@)
            ==> charges_once(r@, orig@, target@, fallback_fill@, entry@, buy_fee_total@),
{
    let r = checked_split_close(orig, maker_filled, target, fallback_fill, entry, buy_fee_total);
    r.unwrap()
}

/// What a split close keeps to: its two parts lie between 0 and the lot and add up to
/// it, wherever the remainder is a decimal number, and up to half a unit of its last
/// place where it has to be rounded.
pub open spec fn shares_make_up_the_lot(s: SplitV, orig: DecV, filled: DecV) -> bool {
    let lot = lot_size(orig);
    &&& s.maker_shares.m >= 0 && decimal::le(s.maker_shares, lot)
    &&& s.fallback_shares.m >= 0 && decimal::le(s.fallback_shares, lot)
    &&& decimal::exact_difference(lot, matched_size(orig, filled)) ==> decimal::adds_up(
        s.maker_shares,
        s.fallback_shares,
        lot,
    )
    &&& decimal::nearly_adds_up(s.maker_shares, s.fallback_shares, lot)
}

proof fn lemma_shares_make_up_the_lot(
    orig: DecV,
    filled: DecV,
    target: DecV,
    fallback_fill: DecV,
    entry: DecV,
    buy_fee_total: DecV,
)
    requires
        decimal::valid(lot_size(orig)),
        decimal::valid(matched_size(orig, filled)),
    ensures
        split_of(orig, filled, target, fallback_fill, entry, buy_fee_total) matches Some(s)
            ==> shares_make_up_the_lot(s, orig, filled),
{
    let o = lot_size(orig);
    let m = matched_size(orig, filled);
    lemma_lot_and_match(orig, filled);
    decimal::lemma_rest_of_a_whole(o, m);
    decimal::lemma_difference_nearly_adds_up(o, m);
    if decimal::exact_difference(o, m) {
        decimal::lemma_difference_adds_up(o, m);
    }
}

/// A split close sells the lot once, whatever was reported as filled.
pub proof fn law_split_sells_the_lot_once(
    orig: DecV,
    filled: DecV,
    target: DecV,
    fallback_fill: DecV,
    entry: DecV,
    buy_fee_total: DecV,
)
    requires
        decimal::valid(orig),
        decimal::valid(filled),
    ensures
        split_of(orig, filled, target, fallback_fill, entry, buy_fee_total) matches Some(s)
            ==> shares_make_up_the_lot(s, orig, filled),
{
    lemma_sizes_are_valid(orig, filled);
    lemma_shares_make_up_the_lot(orig, filled, target, fallback_fill, entry, buy_fee_total);
}

/// The two parts of the buying fee add up to the whole fee, wherever the second part
/// is a decimal number; one that has to be rounded is off by at most half a unit of
/// its last place.
pub proof fn law_buy_fee_is_divided_without_loss(orig: DecV, filled: DecV, total: DecV)
    ensures
        maker_buy_fee(orig, filled, total) matches Some(first) ==> {
            &&& decimal::exact_difference(total, first) ==> (fallback_buy_fee(orig, filled, total)
                matches Some(rest) && decimal::adds_up(first, rest, total))
            &&& fallback_buy_fee(orig, filled, total) matches Some(rest)
                ==> decimal::nearly_adds_up(first, rest, total)
        },
{
    if maker_buy_fee(orig, filled, total) is Some {
        let first = maker_buy_fee(orig, filled, total)->0;
        decimal::lemma_difference_nearly_adds_up(total, first);
        if decimal::exact_difference(total, first) {
            decimal::lemma_difference_adds_up(total, first);
        }
    }
}

/// No amount of a split close needs rounding, but for the share of the buying fee and
/// the fee on the taker fill.
pub open spec fn split_is_exact(
    orig: DecV,
    filled: DecV,
    target: DecV,
    fallback_fill: DecV,
    entry: DecV,
    buy_fee_total: DecV,
) -> bool {
    let mf = matched_size(orig, filled);
    let fb = left_over(orig, filled)->0;
    let first = maker_buy_fee(orig, filled, buy_fee_total)->0;
    let second = fallback_buy_fee(orig, filled, buy_fee_total)->0;
    let maker_cost = decimal::times(mf, entry)->0;
    let fallback_cost = decimal::times(fb, entry)->0;
    let maker_proceeds = decimal::times(mf, target)->0;
    let fallback_proceeds = decimal::times(fb, fallback_fill)->0;
    let sell_fee = fee(fb, fallback_fill)->0;
    &&& maker_buy_fee(orig, filled, buy_fee_total) is Some
    &&& fee(fb, fallback_fill) is Some
    &&& decimal::exact_difference(lot_size(orig), mf)
    &&& decimal::exact_difference(buy_fee_total, first)
    &&& decimal::exact_product(mf, target)
    &&& decimal::exact_product(mf, entry)
    &&& decimal::exact_product(fb, fallback_fill)
    &&& decimal::exact_product(fb, entry)
    &&& decimal::exact_sum(maker_cost, first)
    &&& decimal::exact_sum(fallback_cost, second)
    &&& decimal::exact_difference(maker_proceeds, decimal::plus(maker_cost, first)->0)
    &&& decimal::exact_difference(fallback_proceeds, sell_fee)
    &&& decimal::exact_difference(
        decimal::minus(fallback_proceeds, sell_fee)->0,
        decimal::plus(fallback_cost, second)->0,
    )
}

/// What the two parts of a split close earn together: the proceeds of both parts,
/// less the fee on the taker fill, less the price of the lot, less the buying fee,
/// which is charged once.
pub open spec fn charges_once(
    s: SplitV,
    orig: DecV,
    target: DecV,
    fallback_fill: DecV,
    entry: DecV,
    buy_fee_total: DecV,
) -> bool {
    let proceeds = decimal::finely(decimal::product(s.maker_shares, target)) + decimal::finely(
        decimal::product(s.fallback_shares, fallback_fill),
    );
    let cost = decimal::finely(decimal::product(lot_size(orig), entry));
    fee(s.fallback_shares, fallback_fill) matches Some(sell_fee) && decimal::finely(s.maker_pnl)
        + decimal::finely(s.fallback_pnl) == proceeds - decimal::finely(sell_fee) - cost
        - decimal::finely(buy_fee_total)
}

/// A split close earns what the whole lot earns: the buying fee is charged once.
/// (Amounts that have to be rounded bring in their rounding.)
pub proof fn law_split_charges_the_fee_once(
    orig: DecV,
    filled: DecV,
    target: DecV,
    fallback_fill: DecV,
    entry: DecV,
    buy_fee_total: DecV,
)
    requires
        decimal::valid(orig),
        decimal::valid(filled),
        decimal::valid(target),
        decimal::valid(fallback_fill),
        decimal::valid(entry),
        decimal::valid(buy_fee_total),
        split_is_exact(orig, filled, target, fallback_fill, entry, buy_fee_total),
    ensures
        split_of(orig, filled, target, fallback_fill, entry, buy_fee_total) matches Some(s)
            && charges_once(s, orig, target, fallback_fill, entry, buy_fee_total),
{
    let lot = lot_size(orig);
    let mf = matched_size(orig, filled);
    lemma_sizes_are_valid(orig, filled);
    decimal::lemma_exact_finely(lot, mf);
    let fb = left_over(orig, filled)->0;
    decimal::lemma_product_is_valid(buy_fee_total, mf);
    if lot.m > 0 {
        decimal::lemma_quotient_places(decimal::times(buy_fee_total, mf)->0, lot);
    }
    let first = maker_buy_fee(orig, filled, buy_fee_total)->0;
    decimal::lemma_exact_finely(buy_fee_total, first);
    let second = fallback_buy_fee(orig, filled, buy_fee_total)->0;
    decimal::lemma_exact_finely(mf, target);
    decimal::lemma_exact_finely(mf, entry);
    decimal::lemma_exact_finely(fb, fallback_fill);
    decimal::lemma_exact_finely(fb, entry);
    let maker_cost = decimal::times(mf, entry)->0;
    let fallback_cost = decimal::times(fb, entry)->0;
    let maker_proceeds = decimal::times(mf, target)->0;
    let fallback_proceeds = decimal::times(fb, fallback_fill)->0;
    lemma_fee_places(fb, fallback_fill);
    let sell_fee = fee(fb, fallback_fill)->0;
    decimal::lemma_exact_finely(maker_cost, first);
    decimal::lemma_exact_finely(fallback_cost, second);
    decimal::lemma_exact_finely(maker_proceeds, decimal::plus(maker_cost, first)->0);
    decimal::lemma_exact_finely(fallback_proceeds, sell_fee);
    decimal::lemma_exact_finely(
        decimal::minus(fallback_proceeds, sell_fee)->0,
        decimal::plus(fallback_cost, second)->0,
    );
    decimal::lemma_parts_times(mf, fb, lot, entry);
}

/// The fee on a taker fill has at most 28 places.
pub proof fn lemma_fee_places(shares: DecV, price: DecV)
    ensures
        fee(shares, price) matches Some(f) ==> f.s <= decimal::MAX_SCALE,
{
    if fee(shares, price) is Some {
        let by_shares = decimal::times(decimal::dec(7, 2), shares)->0;
        let by_price = decimal::times(by_shares, price)->0;
        decimal::lemma_product_is_valid(
            by_price,
            decimal::minus(decimal::one(), price)->0,
        );
    }
}

/// The maker part bears the buying fee of its shares: `total * filled / lot`, to
/// the last digit wherever that is a decimal number.
pub proof fn law_buy_fee_falls_by_shares(orig: DecV, filled: DecV, total: DecV, part: DecV)
    requires
        lot_size(orig).m > 0,
        decimal::times(total, matched_size(orig, filled)) is Some,
        decimal::valid(part),
        decimal::is_quotient(
            part,
            decimal::times(total, matched_size(orig, filled))->0,
            lot_size(orig),
        ),
    ensures
        maker_buy_fee(orig, filled, total) matches Some(fee) && decimal::same_value(fee, part),
{
    decimal::law_decimal_quotients_are_exact(
        decimal::times(total, matched_size(orig, filled))->0,
        lot_size(orig),
        part,
    );
}

/// A share of a fee is no larger than the fee.
proof fn lemma_share_in_range(total: DecV, matched: DecV, lot: DecV, whole: DecV)
    requires
        decimal::valid(total),
        total.m >= 0,
        matched.m >= 0,
        lot.m > 0,
        decimal::le(matched, lot),
        whole.s <= total.s + matched.s,
        whole.m >= 0,
        decimal::at_scale(whole, total.s + matched.s) == total.m * matched.m,
    ensures
        decimal::fits_at(decimal::upper(whole, lot), decimal::lower(whole, lot), 0),
{
    let s = total.s + matched.s;
    let k = (s - whole.s) as nat;
    decimal::lemma_pow10_positive(lot.s);
    decimal::lemma_pow10_positive(matched.s);
    decimal::lemma_pow10_positive(total.s);
    decimal::lemma_pow10_positive(whole.s);
    decimal::lemma_pow10_positive(k);
    decimal::lemma_pow10_sum(whole.s, k);
    decimal::lemma_pow10_sum(total.s, matched.s);
    let (f, m, l, w) = (total.m, matched.m, lot.m, whole.m);
    let (pl, pm, pf, pw, pk) = (
        decimal::pow10(lot.s),
        decimal::pow10(matched.s),
        decimal::pow10(total.s),
        decimal::pow10(whole.s),
        decimal::pow10(k),
    );
    let (n, d) = (decimal::upper(whole, lot), decimal::lower(whole, lot));
    let top = decimal::MAX_MANTISSA as int;
    let (x, y) = (l * pm, pf * pm);
    assert((f * m) * pl <= top * (x * pf)) by (nonlinear_arith)
        requires
            x == l * pm,
            m * pl <= x,
            0 <= f <= top,
            l > 0,
            pf >= 1,
            pm >= 1,
    {
        assert((f * m) * pl == f * (m * pl));
        assert(f * (m * pl) <= f * x);
        assert(x > 0);
        assert(f * x <= top * x);
        assert(x <= x * pf);
        assert(top * x <= top * (x * pf));
    }
    assert((l * pw) * pk == x * pf) by (nonlinear_arith)
        requires
            x == l * pm,
            pw * pk == pf * pm,
    {
        assert((l * pw) * pk == l * (pw * pk));
        assert(l * (pf * pm) == (l * pm) * pf);
    }
    assert(n * pk == (f * m) * pl) by (nonlinear_arith)
        requires
            n == w * pl,
            w * pk == f * m,
    ;
    assert(d > 0) by (nonlinear_arith)
        requires
            d == l * pw,
            l > 0,
            pw >= 1,
    ;
    assert(n <= top * d) by (nonlinear_arith)
        requires
            n * pk <= top * (d * pk),
            pk >= 1,
    {
        assert(top * (d * pk) == (top * d) * pk);
        if n > top * d {
            assert(n * pk > (top * d) * pk);
        }
    }
    assert((2 * top + 1) * d > 2 * n) by (nonlinear_arith)
        requires
            n <= top * d,
            d > 0,
    ;
    assert(decimal::pow10(0) == 1);
}

/// Where the share is no decimal number, the maker part bears the number that is
/// nearest to it: it is at most half a unit of the last place away that a decimal of
/// its size can have.
pub proof fn law_buy_fee_is_nearest_to_its_share(orig: DecV, filled: DecV, total: DecV)
    requires
        lot_size(orig).m > 0,
        decimal::valid(total),
        decimal::valid(filled),
        decimal::valid(orig),
        total.m >= 0,
    ensures
        decimal::times(total, matched_size(orig, filled)) matches Some(whole) ==> {
            let lot = lot_size(orig);
            let t = decimal::quotient_places(whole, lot);
            maker_buy_fee(orig, filled, total) matches Some(fee) ==> fee.m * decimal::pow10(t)
                == decimal::half_even(
                decimal::upper(whole, lot) * decimal::pow10(t),
                decimal::lower(whole, lot),
            ) * decimal::pow10(fee.s)
        },
        decimal::exact_product(total, matched_size(orig, filled)) ==> maker_buy_fee(
            orig,
            filled,
            total,
        ) is Some,
{
    let lot = lot_size(orig);
    let matched = matched_size(orig, filled);
    lemma_lot_and_match(orig, filled);
    decimal::lemma_product_is_valid(total, matched);
    if decimal::times(total, matched) is Some {
        let whole = decimal::times(total, matched)->0;
        decimal::law_quotients_are_nearest(whole, lot);
    }
    if decimal::exact_product(total, matched) {
        decimal::lemma_exact_product(total, matched);
        lemma_share_in_range(total, matched, lot, decimal::times(total, matched)->0);
    }
}

/// What posting the maker order led to.
#[derive(Debug, Clone, PartialEq)]
pub enum PostOutcome {
    /// The order is on the book.
    Posted { order_id: String },
    /// Refused because it would have been matched at once: the target is already
    /// there to be taken.
    RejectedCrossable,
    /// Any other failure. Nothing may be sold on account of it.
    RealError { text: String },
}

/// A post outcome as mathematical values.
pub enum PostV {
    Posted { order_id: Seq<char> },
    RejectedCrossable,
    RealError { text: Seq<char> },
}

impl View for PostOutcome {
    type V = PostV;

    open spec fn view(&self) -> PostV {
        match self {
            PostOutcome::Posted { order_id } => PostV::Posted { order_id: order_id@ },
            PostOutcome::RejectedCrossable => PostV::RejectedCrossable,
            PostOutcome::RealError { text } => PostV::RealError { text: text@ },
        }
    }
}

/// The messages by which a venue says that the order would have been matched at
/// once, in any capitalisation.
pub open spec fn says_crossable(message: Seq<char>) -> bool {
    let m = text::lowered(message);
    text::occurs(m, "post only"@) || text::occurs(m, "post-only"@) || text::occurs(m, "postonly"@)
        || text::occurs(m, "would cross"@) || text::occurs(m, "crossing"@) || text::occurs(
        m,
        "would match"@,
    ) || text::occurs(m, "marketable"@)
}

pub open spec fn post_outcome(
    success: bool,
    order_id: Option<Seq<char>>,
    error_msg: Option<Seq<char>>,
) -> PostV {
    if success {
        match order_id {
            Some(id) if id.len() > 0 => PostV::Posted { order_id: id },
            _ => PostV::RealError { text: "post reported success but returned no order_id"@ },
        }
    } else {
        let message = match error_msg {
            Some(m) => m,
            None => Seq::empty(),
        };
        if says_crossable(message) {
            PostV::RejectedCrossable
        } else {
            PostV::RealError { text: message }
        }
    }
}

/// The characters of an optional text.
pub open spec fn opt_chars(s: Option<&str>) -> Option<Seq<char>> {
    match s {
        Some(t) => Some(t@),
        None => None,
    }
}

fn message_contains(message: &[char], signal: &str) -> (r: bool)
    ensures
        r == text::occurs(text::lowered(message@), signal@),
{
    let needle = chars_of(signal);
    lowered_contains(message, needle.as_slice())
}

/// Reads the result of posting the maker order. Only a recognised message counts
/// as a refusal of a crossing order; everything else is an error, and so is a
/// success without an order id.
#[must_use]
pub fn classify_post_outcome(
    success: bool,
    order_id: Option<&str>,
    error_msg: Option<&str>,
) -> (r: PostOutcome)
    ensures
        r@ == post_outcome(success, opt_chars(order_id), opt_chars(error_msg)),
{
    if success {
        if let Some(id) = order_id {
            if !id.is_empty() {
                return PostOutcome::Posted { order_id: text_of(chars_of(id).as_slice()) };
            }
        }
        let text = "post reported success but returned no order_id";
        return PostOutcome::RealError { text: text_of(chars_of(text).as_slice()) };
    }
    let message = match error_msg {
        Some(m) => chars_of(m),
        None => Vec::new(),
    };
    assert(error_msg is None ==> message@ =~= Seq::empty());
    let m = message.as_slice();
    if message_contains(m, "post only") || message_contains(m, "post-only") || message_contains(
        m,
        "postonly",
    ) || message_contains(m, "would cross") || message_contains(m, "crossing") || message_contains(
        m,
        "would match",
    ) || message_contains(m, "marketable") {
        return PostOutcome::RejectedCrossable;
    }
    PostOutcome::RealError { text: text_of(m) }
}

/// Failing closed: a failed post counts as a refusal of a crossing order only for
/// a recognised message; without a message, and for a success without an order
/// id, it is an error, and an error keeps the message as it came.
pub proof fn law_post_fails_closed(
    success: bool,
    order_id: Option<Seq<char>>,
    error_msg: Option<Seq<char>>,
)
    ensures
        post_outcome(success, order_id, error_msg) is RejectedCrossable ==> !success
            && (error_msg matches Some(m) && says_crossable(m)),
        post_outcome(success, order_id, error_msg) is Posted ==> success && (order_id matches Some(
            id,
        ) && id.len() > 0),
        !success && (error_msg matches Some(m) && !says_crossable(m)) ==> post_outcome(
            success,
            order_id,
            error_msg,
        ) == (PostV::RealError { text: error_msg->0 }),
{
    reveal_strlit("post only");
    reveal_strlit("post-only");
    reveal_strlit("postonly");
    reveal_strlit("would cross");
    reveal_strlit("crossing");
    reveal_strlit("would match");
    reveal_strlit("marketable");
    let none = text::lowered(Seq::<char>::empty());
    assert(none.len() == 0);
    assert(!says_crossable(Seq::empty()));
}

/// Which way a lot with a maker exit went.
#[derive(Debug, Clone, Copy, PartialEq, Eq, Structural)]
pub enum B3ExitKind {
    /// The bid reached the target: the maker order filled.
    FirstTouch,
    /// The bid rose above the entry and fell back to it: sold as a taker.
    F2BreakEven,
    /// Neither happened: sold as a taker when the time was over.
    F1TimeExit,
}

impl B3ExitKind {
    pub open spec fn name(self) -> Seq<char> {
        match self {
            B3ExitKind::FirstTouch => "first_touch"@,
            B3ExitKind::F2BreakEven => "f2_break_even"@,
            B3ExitKind::F1TimeExit => "f1_time_exit"@,
        }
    }

    #[must_use]
    pub fn as_str(self) -> (r: &'static str)
        ensures
            r@ == self.name(),
    {
        match self {
            B3ExitKind::FirstTouch => "first_touch",
            B3ExitKind::F2BreakEven => "f2_break_even",
            B3ExitKind::F1TimeExit => "f1_time_exit",
        }
    }
}

/// What a maker exit of one lot comes to.
#[derive(Debug, Clone, PartialEq)]
pub struct B3SimOutcome {
    pub exit_price: Dec,
    pub exit_kind: B3ExitKind,
    /// The maker order filled.
    pub maker_filled: bool,
    /// `shares * (exit_price - entry)`, without fees.
    pub gross_pnl: Dec,
    /// Profit after the buying fee and the exit fee.
    pub net_pnl: Dec,
}

/// A bid at an offset in milliseconds from the entry.
pub type BidAt = (i64, Dec);

/// The first mark whose bid reaches the target.
pub open spec fn first_reaching(marks: Seq<BidAt>, target: DecV) -> Option<BidAt>
    decreases marks.len(),
{
    if marks.len() == 0 {
        None
    } else if decimal::le(target, marks[0].1@) {
        Some(marks[0])
    } else {
        first_reaching(marks.drop_first(), target)
    }
}

/// The first mark whose bid lies above the price.
pub open spec fn first_above(marks: Seq<BidAt>, price: DecV) -> Option<BidAt>
    decreases marks.len(),
{
    if marks.len() == 0 {
        None
    } else if decimal::lt(price, marks[0].1@) {
        Some(marks[0])
    } else {
        first_above(marks.drop_first(), price)
    }
}

/// The first mark later than `offset` whose bid is at most the price.
pub open spec fn first_fallen_back(marks: Seq<BidAt>, offset: i64, price: DecV) -> Option<BidAt>
    decreases marks.len(),
{
    if marks.len() == 0 {
        None
    } else if marks[0].0 > offset && decimal::le(marks[0].1@, price) {
        Some(marks[0])
    } else {
        first_fallen_back(marks.drop_first(), offset, price)
    }
}

/// The moment at which the bid, having been above the entry, is back at it.
pub open spec fn broke_even(hwm: Seq<BidAt>, lwm: Seq<BidAt>, entry: DecV) -> Option<BidAt> {
    match first_above(hwm, entry) {
        Some(armed) => first_fallen_back(lwm, armed.0, entry),
        None => None,
    }
}

/// The first mark whose bid reaches the target.
pub fn first_touch(hwm: &[BidAt], target: Dec) -> (r: Option<BidAt>)
    ensures
        r == first_reaching(hwm@, target@),
{
    let mut i: usize = 0;
    assert(hwm@.skip(0) =~= hwm@);
    while i < hwm.len()
        invariant
            i <= hwm.len(),
            first_reaching(hwm@, target@) == first_reaching(hwm@.skip(i as int), target@),
        decreases hwm.len() - i,
    {
        proof {
            decimal::lemma_lt_le(hwm@[i as int].1@, target@);
        }
        if !hwm[i].1.less_than(target) {
            return Some(hwm[i]);
        }
        assert(hwm@.skip(i as int).drop_first() =~= hwm@.skip(i + 1));
        i += 1;
    }
    None
}

/// Break-even: armed by the first high above the entry, it fires at the first
/// later low that is back at the entry or below, and gives the bid of that moment.
pub fn break_even(hwm: &[BidAt], lwm: &[BidAt], entry: Dec) -> (r: Option<BidAt>)
    ensures
        r == broke_even(hwm@, lwm@, entry@),
{
    let mut arm: Option<i64> = None;
    let mut i: usize = 0;
    assert(hwm@.skip(0) =~= hwm@);
    while i < hwm.len() && arm.is_none()
        invariant
            i <= hwm.len(),
            arm is None ==> first_above(hwm@, entry@) == first_above(hwm@.skip(i as int), entry@),
            arm matches Some(off) ==> (first_above(hwm@, entry@) matches Some(m) && m.0 == off),
        decreases hwm.len() - i,
    {
        if entry.less_than(hwm[i].1) {
            arm = Some(hwm[i].0);
        } else {
            assert(hwm@.skip(i as int).drop_first() =~= hwm@.skip(i + 1));
        }
        i += 1;
    }
    let arm_off: i64 = match arm {
        Some(off) => off,
        None => {
            return None;
        },
    };
    let mut j: usize = 0;
    assert(lwm@.skip(0) =~= lwm@);
    while j < lwm.len()
        invariant
            j <= lwm.len(),
            first_above(hwm@, entry@) matches Some(m) && m.0 == arm_off,
            first_fallen_back(lwm@, arm_off, entry@) == first_fallen_back(
                lwm@.skip(j as int),
                arm_off,
                entry@,
            ),
        decreases lwm.len() - j,
    {
        proof {
            decimal::lemma_lt_le(entry@, lwm@[j as int].1@);
        }
        if lwm[j].0 > arm_off && !entry.less_than(lwm[j].1) {
            return Some(lwm[j]);
        }
        assert(lwm@.skip(j as int).drop_first() =~= lwm@.skip(j + 1));
        j += 1;
    }
    None
}

/// The smallest price step of the market: 0.01.
pub fn tick() -> (r: Dec)
    ensures
        r@ == decimal::dec(1, 2),
{
    Dec::new(1, 2)
}

/// The distance from the entry to the maker target in the replay of recorded
/// trades: 0.10.
pub fn delta() -> (r: Dec)
    ensures
        r@ == decimal::dec(10, 2),
{
    Dec::new(10, 2)
}

/// The target `entry + delta`, where it stays at or below `1 - tick`.
pub open spec fn reachable_target(entry: DecV, delta: DecV, tick: DecV) -> Option<DecV> {
    match (decimal::plus(entry, delta), decimal::minus(decimal::one(), tick)) {
        (Some(t), Some(top)) => if decimal::le(t, top) {
            Some(t)
        } else {
            None
        },
        _ => None,
    }
}

/// The maker target `entry + delta`, but only where it stays at or below
/// `1 - tick`: a higher price cannot be asked for, and is not brought down to
/// `1 - tick` either.
#[must_use]
pub fn valid_maker_target(entry: Dec, delta: Dec, tick: Dec) -> (r: Option<Dec>)
    ensures
        decimal::opt(r) == reachable_target(entry@, delta@, tick@),
{
    match (entry.checked_add(delta), Dec::one().checked_sub(tick)) {
        (Some(t), Some(top)) => {
            proof {
                decimal::lemma_lt_le(top@, t@);
            }
            if !top.less_than(t) {
                Some(t)
            } else {
                None
            }
        },
        _ => None,
    }
}

/// The highest bid of the first `n` samples.
pub open spec fn highest(samples: Seq<BidAt>, n: int) -> DecV
    decreases n,
{
    if n <= 1 {
        samples[0].1@
    } else {
        decimal::spec_max(highest(samples, n - 1), samples[n - 1].1@)
    }
}

/// The lowest bid of the first `n` samples.
pub open spec fn lowest(samples: Seq<BidAt>, n: int) -> DecV
    decreases n,
{
    if n <= 1 {
        samples[0].1@
    } else if decimal::lt(samples[n - 1].1@, lowest(samples, n - 1)) {
        samples[n - 1].1@
    } else {
        lowest(samples, n - 1)
    }
}

/// The running highs and the running lows of bid samples: for each sample, its
/// offset with the highest and the lowest bid seen up to it.
#[must_use]
pub fn hwm_lwm_from_samples(samples: &[BidAt]) -> (r: (Vec<BidAt>, Vec<BidAt>))
    ensures
        r.0@.len() == samples@.len(),
        r.1@.len() == samples@.len(),
        forall|i: int|
            0 <= i < samples@.len() ==> (#[trigger] r.0@[i]).0 == samples@[i].0 && r.0@[i].1@
                == highest(samples@, i + 1),
        forall|i: int|
            0 <= i < samples@.len() ==> (#[trigger] r.1@[i]).0 == samples@[i].0 && r.1@[i].1@
                == lowest(samples@, i + 1),
{
    let mut hwm: Vec<BidAt> = Vec::new();
    let mut lwm: Vec<BidAt> = Vec::new();
    if samples.len() == 0 {
        return (hwm, lwm);
    }
    let mut run_max = samples[0].1;
    let mut run_min = samples[0].1;
    let mut i: usize = 0;
    while i < samples.len()
        invariant
            i <= samples.len(),
            hwm@.len() == i,
            lwm@.len() == i,
            i == 0 ==> run_max@ == samples@[0].1@ && run_min@ == samples@[0].1@,
            i > 0 ==> run_max@ == highest(samples@, i as int) && run_min@ == lowest(
                samples@,
                i as int,
            ),
            forall|k: int|
                0 <= k < i ==> (#[trigger] hwm@[k]).0 == samples@[k].0 && hwm@[k].1@ == highest(
                    samples@,
                    k + 1,
                ),
            forall|k: int|
                0 <= k < i ==> (#[trigger] lwm@[k]).0 == samples@[k].0 && lwm@[k].1@ == lowest(
                    samples@,
                    k + 1,
                ),
        decreases samples.len() - i,
    {
        let (off, bid) = samples[i];
        if i > 0 {
            run_max = run_max.max(bid);
            if bid.less_than(run_min) {
                run_min = bid;
            }
        }
        hwm.push((off, run_max));
        lwm.push((off, run_min));
        i += 1;
    }
    (hwm, lwm)
}

/// The running high is at least every bid seen so far, and the running low at
/// most; each is one of the bids.
pub proof fn law_marks_bound_the_samples(samples: Seq<BidAt>, n: int)
    requires
        1 <= n <= samples.len(),
    ensures
        forall|k: int|
            0 <= k < n ==> decimal::le(#[trigger] samples[k].1@, highest(samples, n))
                && decimal::le(lowest(samples, n), samples[k].1@),
        exists|k: int| 0 <= k < n && #[trigger] samples[k].1@ == highest(samples, n),
        exists|k: int| 0 <= k < n && #[trigger] samples[k].1@ == lowest(samples, n),
    decreases n,
{
    decimal::lemma_lt_le(samples[0].1@, samples[0].1@);
    if n == 1 {
        assert(samples[0].1@ == highest(samples, 1) && samples[0].1@ == lowest(samples, 1));
    } else {
        law_marks_bound_the_samples(samples, n - 1);
        let (h, l, b) = (highest(samples, n - 1), lowest(samples, n - 1), samples[n - 1].1@);
        decimal::lemma_lt_le(h, b);
        decimal::lemma_lt_le(b, h);
        decimal::lemma_lt_le(b, l);
        decimal::lemma_lt_le(l, b);
        decimal::lemma_lt_le(b, b);
        assert forall|k: int| 0 <= k < n implies decimal::le(
            #[trigger] samples[k].1@,
            highest(samples, n),
        ) && decimal::le(lowest(samples, n), samples[k].1@) by {
            if k < n - 1 {
                if decimal::lt(h, b) {
                    decimal::lemma_le_transitive(samples[k].1@, h, b);
                }
                if decimal::lt(b, l) {
                    decimal::lemma_le_transitive(b, l, samples[k].1@);
                }
            }
        }
        let kh = choose|k: int| 0 <= k < n - 1 && #[trigger] samples[k].1@ == h;
        let kl = choose|k: int| 0 <= k < n - 1 && #[trigger] samples[k].1@ == l;
        assert(samples[if decimal::lt(h, b) { n - 1 } else { kh }].1@ == highest(samples, n));
        assert(samples[if decimal::lt(b, l) { n - 1 } else { kl }].1@ == lowest(samples, n));
    }
}

/// Profit after fees: bought at `entry` as a taker, sold at `exit` with
/// `exit_fee`.
pub open spec fn net_profit(shares: DecV, entry: DecV, exit: DecV, exit_fee: Option<DecV>) -> Option<
    DecV,
> {
    profit(
        decimal::o_minus(decimal::times(shares, exit), exit_fee),
        Some(shares),
        entry,
        fee(shares, entry),
    )
}

/// Profit after fees, where all amounts are in range.
#[must_use]
pub fn checked_net_pnl(shares: Dec, entry: Dec, exit_price: Dec, exit_fee: Option<Dec>) -> (r:
    Option<Dec>)
    ensures
        decimal::opt(r) == net_profit(shares@, entry@, exit_price@, decimal::opt(exit_fee)),
{
    let buy_fee = checked_taker_fee(shares, entry);
    sub_amounts(
        sub_amounts(shares.checked_mul(exit_price), exit_fee),
        add_amounts(shares.checked_mul(entry), buy_fee),
    )
}

/// Profit after fees: bought at `entry` as a taker, sold at `exit_price` with
/// `exit_fee`.
#[must_use]
pub fn net_pnl_with_fees(shares: Dec, entry: Dec, exit_price: Dec, exit_fee: Dec) -> (r: Dec)
    requires
        net_profit(shares@, entry@, exit_price@, Some(exit_fee@)) is Some,
    ensures
        net_profit(shares@, entry@, exit_price@, Some(exit_fee@)) == Some(r@),
{
    let r = checked_net_pnl(shares, entry, exit_price, Some(exit_fee));
    r.unwrap()
}

/// Which way a maker exit goes, and at which price.
pub open spec fn exit_path(
    entry: DecV,
    target: DecV,
    hwm: Seq<BidAt>,
    lwm: Seq<BidAt>,
    time_exit_bid: DecV,
) -> (B3ExitKind, DecV) {
    if first_reaching(hwm, target) is Some {
        (B3ExitKind::FirstTouch, target)
    } else {
        match broke_even(hwm, lwm, entry) {
            Some(m) => (B3ExitKind::F2BreakEven, m.1@),
            None => (B3ExitKind::F1TimeExit, time_exit_bid),
        }
    }
}

proof fn lemma_not_reached(marks: Seq<BidAt>, target: DecV)
    requires
        forall|i: int| 0 <= i < marks.len() ==> !decimal::le(target, (#[trigger] marks[i]).1@),
    ensures
        first_reaching(marks, target) is None,
    decreases marks.len(),
{
    if marks.len() > 0 {
        let rest = marks.drop_first();
        assert forall|i: int| 0 <= i < rest.len() implies !decimal::le(
            target,
            (#[trigger] rest[i]).1@,
        ) by {
            assert(rest[i] == marks[i + 1]);
        }
        lemma_not_reached(rest, target);
    }
}

/// A target that no bid reaches is never sold at: the lot always falls back to a
/// sale as a taker.
pub proof fn law_unreached_target_falls_back(
    entry: DecV,
    target: DecV,
    hwm: Seq<BidAt>,
    lwm: Seq<BidAt>,
    time_exit_bid: DecV,
)
    requires
        forall|i: int| 0 <= i < hwm.len() ==> !decimal::le(target, (#[trigger] hwm[i]).1@),
    ensures
        exit_path(entry, target, hwm, lwm, time_exit_bid).0 != B3ExitKind::FirstTouch,
{
    lemma_not_reached(hwm, target);
}

/// The exit fee: none for the maker, the taker fee otherwise.
pub open spec fn exit_fee(kind: B3ExitKind, shares: DecV, price: DecV) -> Option<DecV> {
    if kind == B3ExitKind::FirstTouch {
        Some(decimal::zero())
    } else {
        fee(shares, price)
    }
}

/// Simulates the maker exit of one lot: sold at the target by the maker order
/// where the bid reaches it, else as a taker at break-even, else as a taker at
/// `time_exit_bid`. `None` where an amount is out of range.
#[must_use]
pub fn checked_first_touch_sim(
    entry: Dec,
    target: Dec,
    shares: Dec,
    hwm: &[BidAt],
    lwm: &[BidAt],
    time_exit_bid: Dec,
) -> (r: Option<B3SimOutcome>)
    ensures
        ({
            let (kind, price) = exit_path(entry@, target@, hwm@, lwm@, time_exit_bid@);
            let gross = decimal::o_times(Some(shares@), decimal::minus(price, entry@));
            let net = net_profit(shares@, entry@, price, exit_fee(kind, shares@, price));
            &&& r is Some <==> gross is Some && net is Some
            &&& r matches Some(o) ==> o.exit_kind == kind && o.exit_price@ == price
                && o.maker_filled == (kind == B3ExitKind::FirstTouch) && Some(o.gross_pnl@) == gross
                && Some(o.net_pnl@) == net
        }),
{
    let touched = first_touch(hwm, target);
    let (exit_price, exit_kind) = if touched.is_some() {
        (target, B3ExitKind::FirstTouch)
    } else {
        match break_even(hwm, lwm, entry) {
            Some(m) => (m.1, B3ExitKind::F2BreakEven),
            None => (time_exit_bid, B3ExitKind::F1TimeExit),
        }
    };
    let maker_filled = exit_kind == B3ExitKind::FirstTouch;
    let fee_paid = if maker_filled {
        Some(Dec::zero())
    } else {
        checked_taker_fee(shares, exit_price)
    };
    let gross = mul_amounts(Some(shares), exit_price.checked_sub(entry));
    let net = checked_net_pnl(shares, entry, exit_price, fee_paid);
    match (gross, net) {
        (Some(gross_pnl), Some(net_pnl)) => Some(
            B3SimOutcome { exit_price, exit_kind, maker_filled, gross_pnl, net_pnl },
        ),
        _ => None,
    }
}

/// Simulates the maker exit of one lot.
#[must_use]
pub fn b3_first_touch_sim(
    entry: Dec,
    target: Dec,
    shares: Dec,
    hwm: &[BidAt],
    lwm: &[BidAt],
    time_exit_bid: Dec,
) -> (r: B3SimOutcome)
    requires
        ({
            let (kind, price) = exit_path(entry@, target@, hwm@, lwm@, time_exit_bid@);
            &&& decimal::o_times(Some(shares@), decimal::minus(price, entry@)) is Some
            &&& net_profit(shares@, entry@, price, exit_fee(kind, shares@, price)) is Some
        }),
    ensures
        ({
            let (kind, price) = exit_path(entry@, target@, hwm@, lwm@, time_exit_bid@);
            &&& r.exit_kind == kind
            &&& r.exit_price@ == price
            &&& r.maker_filled == (kind == B3ExitKind::FirstTouch)
            &&& Some(r.gross_pnl@) == decimal::o_times(
                Some(shares@),
                decimal::minus(price, entry@),
            )
            &&& Some(r.net_pnl@) == net_profit(
                shares@,
                entry@,
                price,
                exit_fee(kind, shares@, price),
            )
        }),
{
    let r = checked_first_touch_sim(entry, target, shares, hwm, lwm, time_exit_bid);
    r.unwrap()
}

/// The name of a market cell: `asset_interval`.
pub open spec fn cell_name(asset: Seq<char>, interval: Seq<char>) -> Seq<char> {
    asset + "_"@ + interval
}

/// The name of a market cell: `asset_interval`.
pub fn cell_label(asset: &str, interval: &str) -> (r: String)
    ensures
        r@ == cell_name(asset@, interval@),
{
    let mut cell = String::new();
    text::push_str(&mut cell, asset);
    text::push_str(&mut cell, "_");
    text::push_str(&mut cell, interval);
    assert(cell@ =~= cell_name(asset@, interval@));
    cell
}

/// How the strategy treats one lot of a replay.
#[derive(Debug, Clone, PartialEq)]
pub enum ReplayLot {
    /// The cell is retired.
    Excluded,
    /// Sold as a taker when the time is over.
    Baseline { gross: Dec, net: Dec },
    /// Closed by the maker exit.
    Maker { outcome: B3SimOutcome, invalid_target: bool },
}

/// How the strategy treats a lot: `ETH_15m` is retired, `BTC_5m` is sold when the
/// time is over, every other cell has a maker exit at 0.10 above the entry. `None`
/// where an amount is out of range.
pub open spec fn is_replay(
    r: Option<ReplayLot>,
    cell: Seq<char>,
    entry: DecV,
    shares: DecV,
    exit: DecV,
    hwm: Seq<BidAt>,
    lwm: Seq<BidAt>,
) -> bool {
    let goal = decimal::plus(entry, decimal::dec(10, 2));
    let (kind, price) = exit_path(entry, goal->0, hwm, lwm, exit);
    if cell == "ETH_15m"@ {
        r == Some(ReplayLot::Excluded)
    } else if cell == "BTC_5m"@ {
        let gross = decimal::o_times(Some(shares), decimal::minus(exit, entry));
        let net = net_profit(shares, entry, exit, fee(shares, exit));
        match r {
            None => gross is None || net is None,
            Some(lot) => lot is Baseline && Some(lot->gross@) == gross && Some(lot->net@) == net,
        }
    } else {
        let gross = decimal::o_times(Some(shares), decimal::minus(price, entry));
        let net = net_profit(shares, entry, price, exit_fee(kind, shares, price));
        match r {
            None => goal is None || gross is None || net is None,
            Some(lot) => {
                &&& goal is Some
                &&& lot is Maker
                &&& lot->invalid_target == decimal::lt(decimal::dec(99, 2), goal->0)
                &&& lot->outcome.exit_kind == kind
                &&& lot->outcome.exit_price@ == price
                &&& lot->outcome.maker_filled == (kind == B3ExitKind::FirstTouch)
                &&& Some(lot->outcome.gross_pnl@) == gross
                &&& Some(lot->outcome.net_pnl@) == net
            },
        }
    }
}

/// Plays one lot through the strategy. `None` where an amount is out of range.
pub fn replay_lot(
    asset: &str,
    interval: &str,
    entry: Dec,
    shares: Dec,
    time_exit_bid: Dec,
    hwm: &[BidAt],
    lwm: &[BidAt],
) -> (r: Option<ReplayLot>)
    ensures
        is_replay(
            r,
            cell_name(asset@, interval@),
            entry@,
            shares@,
            time_exit_bid@,
            hwm@,
            lwm@,
        ),
{
    let cell = cell_label(asset, interval);
    if text::same_text(cell.as_str(), "ETH_15m") {
        return Some(ReplayLot::Excluded);
    }
    if text::same_text(cell.as_str(), "BTC_5m") {
        let gross = mul_amounts(Some(shares), time_exit_bid.checked_sub(entry));
        let sell_fee = checked_taker_fee(shares, time_exit_bid);
        let net = checked_net_pnl(shares, entry, time_exit_bid, sell_fee);
        return match (gross, net) {
            (Some(gross), Some(net)) => Some(ReplayLot::Baseline { gross, net }),
            _ => None,
        };
    }
    let target = match entry.checked_add(delta()) {
        Some(t) => t,
        None => {
            return None;
        },
    };
    let invalid_target = Dec::new(99, 2).less_than(target);
    match checked_first_touch_sim(entry, target, shares, hwm, lwm, time_exit_bid) {
        Some(outcome) => Some(ReplayLot::Maker { outcome, invalid_target }),
        None => None,
    }
}

/// Totals of one cell of a replay.
#[derive(Debug, Clone, PartialEq)]
pub struct CellAgg {
    pub n: u64,
    pub gross: Dec,
    pub net: Dec,
    pub net_wins: u64,
    pub net_gross_gain: Dec,
    pub net_gross_loss: Dec,
    pub first_touch: u64,
    pub f2_break_even: u64,
    pub f1_time_exit: u64,
    pub invalid_target: u64,
}

pub open spec fn count(b: bool) -> int {
    if b {
        1
    } else {
        0
    }
}

/// The totals after one more lot with the given results.
pub open spec fn counted(
    before: CellAgg,
    after: CellAgg,
    gross: DecV,
    net: DecV,
    kind: Option<B3ExitKind>,
    invalid: bool,
) -> bool {
    &&& after.n == before.n + 1
    &&& decimal::plus(before.gross@, gross) == Some(after.gross@)
    &&& decimal::plus(before.net@, net) == Some(after.net@)
    &&& after.net_wins == before.net_wins + count(net.m > 0)
    &&& if net.m > 0 {
        decimal::plus(before.net_gross_gain@, net) == Some(after.net_gross_gain@)
    } else {
        after.net_gross_gain@ == before.net_gross_gain@
    }
    &&& if net.m < 0 {
        decimal::minus(before.net_gross_loss@, net) == Some(after.net_gross_loss@)
    } else {
        after.net_gross_loss@ == before.net_gross_loss@
    }
    &&& after.first_touch == before.first_touch + count(kind == Some(B3ExitKind::FirstTouch))
    &&& after.f2_break_even == before.f2_break_even + count(kind == Some(B3ExitKind::F2BreakEven))
    &&& after.f1_time_exit == before.f1_time_exit + count(kind == Some(B3ExitKind::F1TimeExit))
    &&& after.invalid_target == before.invalid_target + count(invalid)
}

/// One more lot brings a total out of range.
pub open spec fn overflows(before: CellAgg, gross: DecV, net: DecV) -> bool {
    ||| decimal::plus(before.gross@, gross) is None
    ||| decimal::plus(before.net@, net) is None
    ||| net.m > 0 && decimal::plus(before.net_gross_gain@, net) is None
    ||| net.m < 0 && decimal::minus(before.net_gross_loss@, net) is None
}

impl CellAgg {
    /// These are the totals of a cell without lots.
    pub open spec fn blank(self) -> bool {
        &&& self.n == 0 && self.net_wins == 0 && self.first_touch == 0 && self.f2_break_even == 0
        &&& self.f1_time_exit == 0 && self.invalid_target == 0
        &&& self.gross@ == decimal::zero() && self.net@ == decimal::zero()
        &&& self.net_gross_gain@ == decimal::zero() && self.net_gross_loss@ == decimal::zero()
    }

    /// The totals of a cell without lots.
    pub fn new() -> (r: CellAgg)
        ensures
            r.blank(),
    {
        CellAgg {
            n: 0,
            gross: Dec::zero(),
            net: Dec::zero(),
            net_wins: 0,
            net_gross_gain: Dec::zero(),
            net_gross_loss: Dec::zero(),
            first_touch: 0,
            f2_break_even: 0,
            f1_time_exit: 0,
            invalid_target: 0,
        }
    }

    /// The lots of each kind, and those that won, are among the lots counted.
    pub open spec fn wf(self) -> bool {
        &&& self.first_touch + self.f2_break_even + self.f1_time_exit <= self.n
        &&& self.net_wins <= self.n
        &&& self.invalid_target <= self.n
    }

    /// Counts one more lot; `None` where a total is out of range.
    pub fn record(&self, gross: Dec, net: Dec, kind: Option<B3ExitKind>, invalid: bool) -> (r: Option<
        CellAgg,
    >)
        requires
            self.wf(),
            self.n < u64::MAX,
        ensures
            r matches Some(after) ==> counted(*self, after, gross@, net@, kind, invalid)
                && after.wf(),
            r is None <==> overflows(*self, gross@, net@),
    {
        let won = net.is_positive();
        let lost = !won && !net.is_zero();
        let gain = if won {
            self.net_gross_gain.checked_add(net)
        } else {
            Some(self.net_gross_gain)
        };
        let loss = if lost {
            self.net_gross_loss.checked_sub(net)
        } else {
            Some(self.net_gross_loss)
        };
        let total_gross = self.gross.checked_add(gross);
        let total_net = self.net.checked_add(net);
        match (total_gross, total_net, gain, loss) {
            (Some(total_gross), Some(total_net), Some(gain), Some(loss)) => {
                let mut after = CellAgg {
                    n: self.n + 1,
                    gross: total_gross,
                    net: total_net,
                    net_wins: self.net_wins,
                    net_gross_gain: gain,
                    net_gross_loss: loss,
                    first_touch: self.first_touch,
                    f2_break_even: self.f2_break_even,
                    f1_time_exit: self.f1_time_exit,
                    invalid_target: self.invalid_target,
                };
                if won {
                    after.net_wins = after.net_wins + 1;
                }
                if invalid {
                    after.invalid_target = after.invalid_target + 1;
                }
                match kind {
                    Some(B3ExitKind::FirstTouch) => {
                        after.first_touch = after.first_touch + 1;
                    },
                    Some(B3ExitKind::F2BreakEven) => {
                        after.f2_break_even = after.f2_break_even + 1;
                    },
                    Some(B3ExitKind::F1TimeExit) => {
                        after.f1_time_exit = after.f1_time_exit + 1;
                    },
                    None => {},
                }
                Some(after)
            },
            _ => None,
        }
    }
}

} // verus!
