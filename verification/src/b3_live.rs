//! The live maker exit, without its I/O.
//!
//! A tick has three phases. First the open positions are looked at and an action
//! is chosen for each. Then every action is carried out against the venue; what
//! the venue answers is handed to the `after_..` functions, which say what comes
//! next. Last, the results are applied to the positions. A lot is found by its
//! signal id, never by its index, and one that has gone in the meantime is left
//! out.
//!
//! Lots whose bid is not fresh are held: nothing is sold without a current bid.

use crate::b3_maker::{
    self, b3_poll_decision, b3_timeout_action, checked_split_close, checked_taker_fee,
    reconcile_decision, valid_maker_target, B3TimeoutAction, MakerOrderStatus, PollDecision,
    PostOutcome, PostV, TimeoutV,
};
use crate::config::{self, ExitRule, ExitsConfig, Num};
use crate::decimal::{self, add_amounts, sub_amounts, Dec, DecV};
use crate::text::{push_str, same_text};
use dashmap::DashMap;
use vstd::prelude::*;

verus! {

/// Whether the venue confirmed a cancel.
#[derive(Debug, Clone, Copy, PartialEq, Eq, Structural)]
pub enum CancelResp {
    Canceled,
    NotCanceled,
}

impl CancelResp {
    pub open spec fn name(self) -> Seq<char> {
        match self {
            CancelResp::Canceled => "canceled"@,
            CancelResp::NotCanceled => "not_canceled"@,
        }
    }

    pub fn as_str(self) -> (r: &'static str)
        ensures
            r@ == self.name(),
    {
        match self {
            CancelResp::Canceled => "canceled",
            CancelResp::NotCanceled => "not_canceled",
        }
    }
}

/// The side of the market that a position is on.
#[derive(Debug, Clone, Copy, PartialEq, Eq, Structural)]
pub enum Outcome {
    Up,
    Down,
}

/// The state of a position's maker order.
#[derive(Debug, Clone, Copy, PartialEq, Eq, Structural)]
pub enum MakerExitStatus {
    /// On the book.
    Placed,
    /// Filled or cancelled.
    Closed,
}

/// The maker order of a position.
#[derive(Debug, Clone, PartialEq)]
pub struct MakerExitState {
    pub order_id: String,
    pub placed_ms: i64,
    pub target: Dec,
    pub status: MakerExitStatus,
}

/// An open position, as far as the maker exit looks at it.
#[derive(Debug, Clone, PartialEq)]
pub struct OpenPosition {
    pub token_id: String,
    pub asset: String,
    pub side: Outcome,
    pub entry_price: Dec,
    pub shares: Dec,
    pub opened_at_ms: i64,
    /// Identifies the lot; never used twice.
    pub signal_id: String,
    pub interval: String,
    /// When the position is to be closed, in seconds.
    pub exit_ts_s: i64,
    pub entry_ts_ms: i64,
    pub maker_exit: Option<MakerExitState>,
}

/// The best bid of a token and when it was seen.
#[derive(Debug, Clone, Copy, PartialEq)]
pub struct EventBbo {
    pub best_bid: Option<Num>,
    pub ts_ms: i64,
}

/// How a position was closed.
#[derive(Debug, Clone, Copy, PartialEq, Eq, Structural)]
pub enum ExitKind {
    /// By the maker order, or as a taker at or above its target.
    B3MakerFill,
    /// As a taker.
    B3Fallback,
}

/// A position that was closed.
#[derive(Debug, Clone, PartialEq)]
pub struct ClosedTrade {
    pub token_id: String,
    pub side: Outcome,
    pub interval: String,
    pub signal_id: String,
    pub entry_price: Dec,
    pub exit_price: Dec,
    pub shares: Dec,
    pub realized_pnl: Dec,
    pub exit_kind: ExitKind,
    pub opened_at_ms: i64,
    pub closed_at_ms: i64,
}

/// A closed trade as mathematical values.
pub struct TradeV {
    pub token_id: Seq<char>,
    pub side: Outcome,
    pub interval: Seq<char>,
    pub signal_id: Seq<char>,
    pub entry_price: DecV,
    pub exit_price: DecV,
    pub shares: DecV,
    pub realized_pnl: DecV,
    pub exit_kind: ExitKind,
    pub opened_at_ms: i64,
    pub closed_at_ms: i64,
}

impl View for ClosedTrade {
    type V = TradeV;

    open spec fn view(&self) -> TradeV {
        TradeV {
            token_id: self.token_id@,
            side: self.side,
            interval: self.interval@,
            signal_id: self.signal_id@,
            entry_price: self.entry_price@,
            exit_price: self.exit_price@,
            shares: self.shares@,
            realized_pnl: self.realized_pnl@,
            exit_kind: self.exit_kind,
            opened_at_ms: self.opened_at_ms,
            closed_at_ms: self.closed_at_ms,
        }
    }
}

/// How old a bid may be, in milliseconds.
pub const STALE_BBO_MS: i64 = 5000;

/// Place a maker order.
#[derive(Debug, Clone, PartialEq)]
pub struct PlaceAction {
    pub signal_id: String,
    pub token_id: String,
    pub cell: String,
    pub shares: Dec,
    pub target: Dec,
    pub entry: Dec,
    pub bid: Dec,
}

/// Poll a maker order on the book.
#[derive(Debug, Clone, PartialEq)]
pub struct PollAction {
    pub signal_id: String,
    pub token_id: String,
    pub order_id: String,
    pub orig: Dec,
    pub target: Dec,
    pub entry: Dec,
    pub due: bool,
    pub exit_ts_s: i64,
    pub bid: Option<Dec>,
}

/// Sell a lot without a maker order as a taker.
#[derive(Debug, Clone, PartialEq)]
pub struct FallbackAction {
    pub signal_id: String,
    pub token_id: String,
    pub shares: Dec,
    pub entry: Dec,
    pub bid: Dec,
}

/// What to do about one position.
#[derive(Debug, Clone, PartialEq)]
pub enum B3Action {
    Place(PlaceAction),
    Poll(PollAction),
    FallbackOnly(FallbackAction),
}

/// An action as mathematical values.
pub enum ActionV {
    Place {
        signal_id: Seq<char>,
        token_id: Seq<char>,
        cell: Seq<char>,
        shares: DecV,
        target: DecV,
        entry: DecV,
        bid: DecV,
    },
    Poll {
        signal_id: Seq<char>,
        token_id: Seq<char>,
        order_id: Seq<char>,
        orig: DecV,
        target: DecV,
        entry: DecV,
        due: bool,
        exit_ts_s: i64,
        bid: Option<DecV>,
    },
    FallbackOnly {
        signal_id: Seq<char>,
        token_id: Seq<char>,
        shares: DecV,
        entry: DecV,
        bid: DecV,
    },
}

impl View for B3Action {
    type V = ActionV;

    open spec fn view(&self) -> ActionV {
        match self {
            B3Action::Place(a) => ActionV::Place {
                signal_id: a.signal_id@,
                token_id: a.token_id@,
                cell: a.cell@,
                shares: a.shares@,
                target: a.target@,
                entry: a.entry@,
                bid: a.bid@,
            },
            B3Action::Poll(a) => ActionV::Poll {
                signal_id: a.signal_id@,
                token_id: a.token_id@,
                order_id: a.order_id@,
                orig: a.orig@,
                target: a.target@,
                entry: a.entry@,
                due: a.due,
                exit_ts_s: a.exit_ts_s,
                bid: decimal::opt(a.bid),
            },
            B3Action::FallbackOnly(a) => ActionV::FallbackOnly {
                signal_id: a.signal_id@,
                token_id: a.token_id@,
                shares: a.shares@,
                entry: a.entry@,
                bid: a.bid@,
            },
        }
    }
}

/// The bid, where it is a finite number and was seen at most `STALE_BBO_MS` ago.
pub open spec fn fresh(quote: Option<EventBbo>, now_ms: i64) -> Option<DecV> {
    match quote {
        Some(q) => if now_ms - q.ts_ms > STALE_BBO_MS {
            None
        } else {
            match q.best_bid {
                Some(Num::Finite(b)) => Some(b@),
                _ => None,
            }
        },
        None => None,
    }
}

/// The bid of a quote, where it is fresh.
pub fn fresh_bid(quote: Option<EventBbo>, now_ms: i64) -> (r: Option<Dec>)
    ensures
        decimal::opt(r) == fresh(quote, now_ms),
{
    match quote {
        Some(q) => {
            let age: i128 = now_ms as i128 - q.ts_ms as i128;
            if age > STALE_BBO_MS as i128 {
                None
            } else {
                match q.best_bid {
                    Some(Num::Finite(b)) => Some(b),
                    _ => None,
                }
            }
        },
        None => None,
    }
}

/// A price brought to the nearest whole cent; `None` where it is out of range.
pub open spec fn snapped(p: DecV) -> Option<DecV> {
    match decimal::over(p, decimal::dec(1, 2)) {
        Some(q) => decimal::times(decimal::rounded(q), decimal::dec(1, 2)),
        None => None,
    }
}

/// Brings a price to the nearest whole cent.
pub fn snap_dec(p: Dec) -> (r: Option<Dec>)
    ensures
        decimal::opt(r) == snapped(p@),
{
    let tick = Dec::new(1, 2);
    match p.checked_div(tick) {
        Some(q) => q.round().checked_mul(tick),
        None => None,
    }
}

/// A snapped price is a whole number of cents: 0, or a mantissa over 10^2.
/// (The number of cents must fit without rounding.)
pub proof fn law_snapped_is_whole_cents(p: DecV)
    requires
        decimal::over(p, decimal::dec(1, 2)) is Some,
        decimal::fits(decimal::rounded(decimal::over(p, decimal::dec(1, 2))->0).m),
    ensures
        snapped(p) matches Some(v) && (v == decimal::zero() || v.s == 2),
{
    let q = decimal::rounded(decimal::over(p, decimal::dec(1, 2))->0);
    assert(q.m * 1 == q.m);
    assert(q.s == 0);
}

/// The name of a cell: `ASSET:INTERVAL`.
pub open spec fn cell_of(asset: Seq<char>, interval: Seq<char>) -> Seq<char> {
    asset + ":"@ + interval
}

/// The name of a cell: `ASSET:INTERVAL`.
pub fn cell_key(asset: &str, interval: &str) -> (r: String)
    ensures
        r@ == cell_of(asset@, interval@),
{
    let mut cell = String::new();
    push_str(&mut cell, asset);
    push_str(&mut cell, ":");
    push_str(&mut cell, interval);
    assert(cell@ =~= cell_of(asset@, interval@));
    cell
}

/// The distance from the entry to the maker target that a rule asks for.
pub open spec fn maker_delta(rule: ExitRule) -> Option<DecV> {
    match rule {
        ExitRule::B3Maker { delta: Num::Finite(d), fallback: _ } => Some(d@),
        _ => None,
    }
}

/// The action for one position, given the quote of its token. None where the
/// cell has no maker exit, the position has no entry time or asset, its maker
/// order is over, no fresh bid is there to sell or place at, the distance that
/// the cell's rule asks for is no finite number, or the target at that distance
/// cannot be asked for.
pub open spec fn action_of(
    p: OpenPosition,
    cells: Seq<config::CellRule>,
    quote: Option<EventBbo>,
    now_ms: i64,
) -> Option<ActionV> {
    let cell = cell_of(p.asset@, p.interval@);
    let due = p.exit_ts_s <= whole_seconds(now_ms);
    let entry = p.entry_price@;
    let bid = fresh(quote, now_ms);
    let rule = config::rule_of(cells, cell);
    if !(rule matches Some(x) && x is B3Maker) {
        None
    } else if p.entry_ts_ms == 0 || p.asset@.len() == 0 {
        None
    } else {
        match p.maker_exit {
            Some(m) => if m.status != MakerExitStatus::Placed {
                None
            } else {
                Some(
                    ActionV::Poll {
                        signal_id: p.signal_id@,
                        token_id: p.token_id@,
                        order_id: m.order_id@,
                        orig: p.shares@,
                        target: m.target@,
                        entry,
                        due,
                        exit_ts_s: p.exit_ts_s,
                        bid,
                    },
                )
            },
            None => match bid {
                None => None,
                Some(b) => if due {
                    Some(
                        ActionV::FallbackOnly {
                            signal_id: p.signal_id@,
                            token_id: p.token_id@,
                            shares: p.shares@,
                            entry,
                            bid: b,
                        },
                    )
                } else {
                    match target_of(rule->0, entry) {
                        None => None,
                        Some(target) => Some(
                            ActionV::Place {
                                signal_id: p.signal_id@,
                                token_id: p.token_id@,
                                cell,
                                shares: p.shares@,
                                target,
                                entry,
                                bid: b,
                            },
                        ),
                    }
                },
            },
        }
    }
}

/// The maker target of a lot: the rule's distance above the entry, on the grid of
/// prices, where it can be asked for.
pub open spec fn target_of(rule: ExitRule, entry: DecV) -> Option<DecV> {
    match maker_delta(rule) {
        None => None,
        Some(delta) => match b3_maker::reachable_target(entry, delta, decimal::dec(1, 2)) {
            None => None,
            Some(t) => snapped(t),
        },
    }
}

/// Whole seconds of a time in milliseconds, towards 0.
pub open spec fn whole_seconds(ms: i64) -> int {
    if ms >= 0 {
        ms as int / 1000
    } else {
        -((-ms) as int / 1000)
    }
}

/// Whole seconds of a time in milliseconds, towards 0.
fn to_seconds(ms: i64) -> (r: i64)
    ensures
        r == whole_seconds(ms),
{
    if ms >= 0 {
        ms / 1000
    } else if ms == i64::MIN {
        -9223372036854775
    } else {
        -((-ms) / 1000)
    }
}

/// The value of an optional action.
pub open spec fn opt_action(a: Option<B3Action>) -> Option<ActionV> {
    match a {
        Some(x) => Some(x@),
        None => None,
    }
}

/// Chooses the action for one position.
pub fn choose_action(
    p: &OpenPosition,
    cfg: &ExitsConfig,
    quote: Option<EventBbo>,
    now_ms: i64,
) -> (r: Option<B3Action>)
    ensures
        opt_action(r) == action_of(*p, cfg.cells@, quote, now_ms),
{
    let cell = cell_key(p.asset.as_str(), p.interval.as_str());
    let delta = match cfg.get(cell.as_str()) {
        Some(ExitRule::B3Maker { delta, fallback: _ }) => delta,
        _ => {
            return None;
        },
    };
    if p.entry_ts_ms == 0 || p.asset.as_str().is_empty() {
        return None;
    }
    let due = p.exit_ts_s <= to_seconds(now_ms);
    let entry = p.entry_price;
    let bid = fresh_bid(quote, now_ms);
    match &p.maker_exit {
        Some(m) => {
            if m.status != MakerExitStatus::Placed {
                return None;
            }
            Some(
                B3Action::Poll(
                    PollAction {
                        signal_id: p.signal_id.clone(),
                        token_id: p.token_id.clone(),
                        order_id: m.order_id.clone(),
                        orig: p.shares,
                        target: m.target,
                        entry,
                        due,
                        exit_ts_s: p.exit_ts_s,
                        bid,
                    },
                ),
            )
        },
        None => {
            let b = match bid {
                Some(b) => b,
                None => {
                    return None;
                },
            };
            if due {
                return Some(
                    B3Action::FallbackOnly(
                        FallbackAction {
                            signal_id: p.signal_id.clone(),
                            token_id: p.token_id.clone(),
                            shares: p.shares,
                            entry,
                            bid: b,
                        },
                    ),
                );
            }
            let distance = match delta {
                Num::Finite(d) => d,
                _ => {
                    return None;
                },
            };
            let t = match valid_maker_target(entry, distance, b3_maker::tick()) {
                Some(t) => t,
                None => {
                    return None;
                },
            };
            match snap_dec(t) {
                Some(target) => Some(
                    B3Action::Place(
                        PlaceAction {
                            signal_id: p.signal_id.clone(),
                            token_id: p.token_id.clone(),
                            cell,
                            shares: p.shares,
                            target,
                            entry,
                            bid: b,
                        },
                    ),
                ),
                None => None,
            }
        },
    }
}

/// The actions for the positions, in their order, given one quote per position.
pub open spec fn actions_of(
    ps: Seq<OpenPosition>,
    cells: Seq<config::CellRule>,
    quotes: Seq<Option<EventBbo>>,
    now_ms: i64,
) -> Seq<ActionV>
    decreases ps.len(),
{
    if ps.len() == 0 {
        Seq::empty()
    } else {
        let before = actions_of(ps.drop_last(), cells, quotes.drop_last(), now_ms);
        match action_of(ps.last(), cells, quotes.last(), now_ms) {
            Some(a) => before.push(a),
            None => before,
        }
    }
}

/// The values of a list of actions.
pub open spec fn action_views(v: Seq<B3Action>) -> Seq<ActionV> {
    v.map_values(|a: B3Action| a@)
}

/// `dashmap::DashMap`, the quotes that other tasks keep up to date.
#[verifier::external_type_specification]
#[verifier::external_body]
#[verifier::reject_recursive_types(K)]
#[verifier::reject_recursive_types(V)]
#[verifier::reject_recursive_types(S)]
pub struct ExDashMap<K, V, S>(DashMap<K, V, S>);

/// What a map holds for a token at one time or another: a quote, or none.
pub uninterp spec fn quotes_held(bbo: DashMap<String, EventBbo>, token: Seq<char>) -> Set<
    Option<EventBbo>,
>;

/// `dashmap::DashMap::get`, copied out: the quote that is there for the token at
/// this moment. Other tasks write to the map, so two calls can differ; each gives
/// something that the map held for the token.
#[verifier::external_body]
fn quote_now(bbo: &DashMap<String, EventBbo>, token: &str) -> (r: Option<EventBbo>)
    ensures
        quotes_held(*bbo, token@).contains(r),
{
    bbo.get(token).map(|e| *e.value())
}

/// Each position's quote is one that the map held for its token.
pub open spec fn quotes_for(
    quotes: Seq<Option<EventBbo>>,
    bbo: DashMap<String, EventBbo>,
    positions: Seq<OpenPosition>,
) -> bool {
    &&& quotes.len() == positions.len()
    &&& forall|i: int|
        0 <= i < positions.len() ==> quotes_held(
            bbo,
            (#[trigger] positions[i]).token_id@,
        ).contains(quotes[i])
}

/// Chooses the actions for the open positions, from the quotes as they stand
/// when each position is looked at. Whatever the quotes are, the actions are the
/// ones that they call for.
pub fn collect_b3_actions(
    positions: &[OpenPosition],
    cfg: &ExitsConfig,
    bbo: &DashMap<String, EventBbo>,
    now_ms: i64,
) -> (r: Vec<B3Action>)
    ensures
        exists|quotes: Seq<Option<EventBbo>>|
            quotes_for(quotes, *bbo, positions@) && action_views(r@) == #[trigger] actions_of(
                positions@,
                cfg.cells@,
                quotes,
                now_ms,
            ),
{
    let mut quotes: Vec<Option<EventBbo>> = Vec::new();
    let mut i: usize = 0;
    while i < positions.len()
        invariant
            i <= positions.len(),
            quotes@.len() == i,
            forall|k: int|
                0 <= k < i ==> quotes_held(*bbo, (#[trigger] positions@[k]).token_id@).contains(
                    quotes@[k],
                ),
        decreases positions.len() - i,
    {
        quotes.push(quote_now(bbo, positions[i].token_id.as_str()));
        i += 1;
    }
    actions_for(positions, cfg, quotes.as_slice(), now_ms)
}

/// Chooses the actions for the open positions, given one quote per position.
pub fn actions_for(
    positions: &[OpenPosition],
    cfg: &ExitsConfig,
    quotes: &[Option<EventBbo>],
    now_ms: i64,
) -> (r: Vec<B3Action>)
    requires
        quotes@.len() == positions@.len(),
    ensures
        action_views(r@) == actions_of(positions@, cfg.cells@, quotes@, now_ms),
{
    let mut out: Vec<B3Action> = Vec::new();
    let mut i: usize = 0;
    assert(action_views(out@) =~= Seq::empty());
    while i < positions.len()
        invariant
            i <= positions.len(),
            quotes@.len() == positions@.len(),
            action_views(out@) == actions_of(
                positions@.take(i as int),
                cfg.cells@,
                quotes@.take(i as int),
                now_ms,
            ),
        decreases positions.len() - i,
    {
        assert(positions@.take(i + 1).drop_last() =~= positions@.take(i as int));
        assert(quotes@.take(i + 1).drop_last() =~= quotes@.take(i as int));
        let ghost before = out@;
        match choose_action(&positions[i], cfg, quotes[i], now_ms) {
            Some(a) => {
                out.push(a);
                assert(action_views(out@) =~= action_views(before).push(a@));
            },
            None => {},
        }
        i += 1;
    }
    assert(positions@.take(positions@.len() as int) =~= positions@);
    assert(quotes@.take(quotes@.len() as int) =~= quotes@);
    out
}

/// Nothing is sold or placed without a fresh bid: a position without one gets no
/// action, or is only polled.
pub proof fn law_no_fresh_bid_no_sale(
    p: OpenPosition,
    cells: Seq<config::CellRule>,
    quote: Option<EventBbo>,
    now_ms: i64,
)
    requires
        fresh(quote, now_ms) is None,
    ensures
        action_of(p, cells, quote, now_ms) matches Some(a) ==> a is Poll && a->Poll_bid is None,
{
}

/// An order is asked for only where the cell's rule names a distance, and then at
/// that distance above the entry, on the grid of prices, and never above what can be
/// asked for.
pub proof fn law_orders_keep_the_distance_of_the_rule(
    p: OpenPosition,
    cells: Seq<config::CellRule>,
    quote: Option<EventBbo>,
    now_ms: i64,
)
    requires
        action_of(p, cells, quote, now_ms) matches Some(a) && a is Place,
    ensures
        ({
            let rule = config::rule_of(cells, cell_of(p.asset@, p.interval@));
            &&& rule is Some
            &&& maker_delta(rule->0) is Some
            &&& decimal::plus(p.entry_price@, maker_delta(rule->0)->0) matches Some(t)
                && decimal::minus(decimal::one(), decimal::dec(1, 2)) matches Some(top)
                && decimal::le(t, top) && snapped(t) == Some(
                action_of(p, cells, quote, now_ms)->0->Place_target,
            )
        }),
{
}

/// Why a lot is left as it is.
#[derive(Debug, Clone, Copy, PartialEq, Eq, Structural)]
pub enum HoldReason {
    /// A call to the venue failed.
    CallFailed,
    /// The venue refused the order for another reason than crossing.
    PlaceRefused,
    /// The order is on the book, partly matched.
    Working,
    /// The order is on the book.
    Waiting,
    /// The cancel was not confirmed, or there is nothing to sell.
    Deferred,
    /// No fresh bid to sell the whole lot at.
    NoBidForLot,
    /// No fresh bid to sell the remainder at.
    NoBidForRest,
}

/// What a finished action changes about the positions.
#[derive(Debug, Clone, PartialEq)]
pub enum B3Apply {
    /// The order is on the book.
    SetMaker { signal_id: String, order_id: String, target: Dec },
    /// The whole lot was sold.
    Close { signal_id: String, net_pnl: Dec, exit_price: Dec, kind: ExitKind },
    /// The lot was sold in two parts.
    CloseSplit { signal_id: String, maker_net: Dec, fallback_net: Dec, fallback_fill: Dec },
    /// Nothing changes.
    Nothing { signal_id: String },
}

/// What comes next in carrying out an action.
#[derive(Debug, Clone, PartialEq)]
pub enum B3Step {
    /// The action is finished.
    Apply(B3Apply),
    /// The action is finished and changes nothing.
    Hold { signal_id: String, why: HoldReason },
    /// Cancel the order and read its state again.
    Reconcile,
    /// Sell the whole lot as a taker.
    SellWhole { shares: Dec, bid: Dec, kind: ExitKind },
    /// Sell the remainder as a taker.
    SellRest { maker_filled: Dec, fallback_size: Dec, bid: Dec },
}

/// A step as mathematical values.
pub enum StepV {
    SetMaker { signal_id: Seq<char>, order_id: Seq<char>, target: DecV },
    Close { signal_id: Seq<char>, net: DecV, price: DecV, kind: ExitKind },
    CloseSplit { signal_id: Seq<char>, maker_net: DecV, fallback_net: DecV, fill: DecV },
    Nothing { signal_id: Seq<char> },
    Hold { signal_id: Seq<char>, why: HoldReason },
    Reconcile,
    SellWhole { shares: DecV, bid: DecV, kind: ExitKind },
    SellRest { maker_filled: DecV, fallback_size: DecV, bid: DecV },
}

impl View for B3Step {
    type V = StepV;

    open spec fn view(&self) -> StepV {
        match self {
            B3Step::Apply(B3Apply::SetMaker { signal_id, order_id, target }) => StepV::SetMaker {
                signal_id: signal_id@,
                order_id: order_id@,
                target: target@,
            },
            B3Step::Apply(B3Apply::Close { signal_id, net_pnl, exit_price, kind }) => StepV::Close {
                signal_id: signal_id@,
                net: net_pnl@,
                price: exit_price@,
                kind: *kind,
            },
            B3Step::Apply(
                B3Apply::CloseSplit { signal_id, maker_net, fallback_net, fallback_fill },
            ) => StepV::CloseSplit {
                signal_id: signal_id@,
                maker_net: maker_net@,
                fallback_net: fallback_net@,
                fill: fallback_fill@,
            },
            B3Step::Apply(B3Apply::Nothing { signal_id }) => StepV::Nothing {
                signal_id: signal_id@,
            },
            B3Step::Hold { signal_id, why } => StepV::Hold { signal_id: signal_id@, why: *why },
            B3Step::Reconcile => StepV::Reconcile,
            B3Step::SellWhole { shares, bid, kind } => StepV::SellWhole {
                shares: shares@,
                bid: bid@,
                kind: *kind,
            },
            B3Step::SellRest { maker_filled, fallback_size, bid } => StepV::SellRest {
                maker_filled: maker_filled@,
                fallback_size: fallback_size@,
                bid: bid@,
            },
        }
    }
}

/// The value of an optional step.
pub open spec fn opt_step(s: Option<B3Step>) -> Option<StepV> {
    match s {
        Some(x) => Some(x@),
        None => None,
    }
}

pub open spec fn opt_post(p: Option<PostOutcome>) -> Option<PostV> {
    match p {
        Some(x) => Some(x@),
        None => None,
    }
}

/// What follows the answer to a placed order (`None`: the call failed). A refusal
/// of a crossing order means that the target can be had at once, so the lot is
/// sold as a taker; no other failure sells anything.
pub open spec fn placed_step(
    signal_id: Seq<char>,
    shares: DecV,
    target: DecV,
    bid: DecV,
    reply: Option<PostV>,
) -> StepV {
    match reply {
        None => StepV::Hold { signal_id, why: HoldReason::CallFailed },
        Some(PostV::Posted { order_id }) => StepV::SetMaker { signal_id, order_id, target },
        Some(PostV::RejectedCrossable) => StepV::SellWhole {
            shares,
            bid,
            kind: ExitKind::B3MakerFill,
        },
        Some(PostV::RealError { text }) => StepV::Hold { signal_id, why: HoldReason::PlaceRefused },
    }
}

/// What follows the answer to a placed order.
pub fn after_place(a: &PlaceAction, reply: Option<PostOutcome>) -> (r: B3Step)
    ensures
        r@ == placed_step(a.signal_id@, a.shares@, a.target@, a.bid@, opt_post(reply)),
{
    match reply {
        None => B3Step::Hold { signal_id: a.signal_id.clone(), why: HoldReason::CallFailed },
        Some(PostOutcome::Posted { order_id }) => B3Step::Apply(
            B3Apply::SetMaker { signal_id: a.signal_id.clone(), order_id, target: a.target },
        ),
        Some(PostOutcome::RejectedCrossable) => B3Step::SellWhole {
            shares: a.shares,
            bid: a.bid,
            kind: ExitKind::B3MakerFill,
        },
        Some(PostOutcome::RealError { text: _ }) => B3Step::Hold {
            signal_id: a.signal_id.clone(),
            why: HoldReason::PlaceRefused,
        },
    }
}

/// What a lot sold at the target by the maker order earns: the order itself has
/// no fee.
pub open spec fn maker_profit(shares: DecV, target: DecV, entry: DecV) -> Option<DecV> {
    b3_maker::profit(
        decimal::times(shares, target),
        Some(shares),
        entry,
        b3_maker::fee(shares, entry),
    )
}

/// What a lot sold at the target by the maker order earns, where that is in
/// range.
pub fn maker_net(shares: Dec, target: Dec, entry: Dec) -> (r: Option<Dec>)
    ensures
        decimal::opt(r) == maker_profit(shares@, target@, entry@),
{
    let buy_fee = checked_taker_fee(shares, entry);
    sub_amounts(
        shares.checked_mul(target),
        add_amounts(shares.checked_mul(entry), buy_fee),
    )
}

/// The lot was sold at the target by the maker order.
pub open spec fn maker_close(signal_id: Seq<char>, orig: DecV, target: DecV, entry: DecV) -> Option<
    StepV,
> {
    match maker_profit(orig, target, entry) {
        Some(net) => Some(
            StepV::Close { signal_id, net, price: target, kind: ExitKind::B3MakerFill },
        ),
        None => None,
    }
}

fn close_by_maker(a: &PollAction) -> (r: Option<B3Step>)
    ensures
        opt_step(r) == maker_close(a.signal_id@, a.orig@, a.target@, a.entry@),
{
    match maker_net(a.orig, a.target, a.entry) {
        Some(net_pnl) => Some(
            B3Step::Apply(
                B3Apply::Close {
                    signal_id: a.signal_id.clone(),
                    net_pnl,
                    exit_price: a.target,
                    kind: ExitKind::B3MakerFill,
                },
            ),
        ),
        None => None,
    }
}

/// What follows a poll (`None` as a reply: the call failed; `None` as a step: an
/// amount is out of range).
pub open spec fn polled_step(
    signal_id: Seq<char>,
    orig: DecV,
    target: DecV,
    entry: DecV,
    due: bool,
    reply: Option<(MakerOrderStatus, DecV)>,
) -> Option<StepV> {
    match reply {
        None => Some(StepV::Hold { signal_id, why: HoldReason::CallFailed }),
        Some((status, matched)) => match b3_maker::polled(status, matched, orig, due) {
            PollDecision::Working => Some(StepV::Hold { signal_id, why: HoldReason::Working }),
            PollDecision::Waiting => Some(StepV::Hold { signal_id, why: HoldReason::Waiting }),
            PollDecision::Filled => maker_close(signal_id, orig, target, entry),
            PollDecision::Timeout => Some(StepV::Reconcile),
        },
    }
}

pub open spec fn opt_report(r: Option<(MakerOrderStatus, Dec)>) -> Option<(MakerOrderStatus, DecV)> {
    match r {
        Some((status, matched)) => Some((status, matched@)),
        None => None,
    }
}

/// What follows a poll.
pub fn after_poll(a: &PollAction, reply: Option<(MakerOrderStatus, Dec)>) -> (r: Option<B3Step>)
    ensures
        opt_step(r) == polled_step(
            a.signal_id@,
            a.orig@,
            a.target@,
            a.entry@,
            a.due,
            opt_report(reply),
        ),
{
    match reply {
        None => Some(
            B3Step::Hold { signal_id: a.signal_id.clone(), why: HoldReason::CallFailed },
        ),
        Some((status, matched)) => match b3_poll_decision(status, matched, a.orig, a.due) {
            PollDecision::Working => Some(
                B3Step::Hold { signal_id: a.signal_id.clone(), why: HoldReason::Working },
            ),
            PollDecision::Waiting => Some(
                B3Step::Hold { signal_id: a.signal_id.clone(), why: HoldReason::Waiting },
            ),
            PollDecision::Filled => close_by_maker(a),
            PollDecision::Timeout => Some(B3Step::Reconcile),
        },
    }
}

/// What follows reading an order's state after its cancel.
pub open spec fn reconciled_step(
    signal_id: Seq<char>,
    orig: DecV,
    target: DecV,
    entry: DecV,
    bid: Option<DecV>,
    reply: Option<(MakerOrderStatus, DecV)>,
) -> Option<StepV> {
    match reply {
        None => Some(StepV::Hold { signal_id, why: HoldReason::CallFailed }),
        Some((status, matched)) => match b3_maker::reconciled(status, orig, matched) {
            None => None,
            Some(o) => match b3_maker::timeout_action(o) {
                TimeoutV::Defer => Some(StepV::Hold { signal_id, why: HoldReason::Deferred }),
                TimeoutV::FullMakerFill => maker_close(signal_id, orig, target, entry),
                TimeoutV::FullFallback => match bid {
                    Some(b) => Some(
                        StepV::SellWhole { shares: orig, bid: b, kind: ExitKind::B3Fallback },
                    ),
                    None => Some(StepV::Hold { signal_id, why: HoldReason::NoBidForLot }),
                },
                TimeoutV::Partial { maker_filled, fallback_size } => match bid {
                    Some(b) => Some(StepV::SellRest { maker_filled, fallback_size, bid: b }),
                    None => Some(StepV::Hold { signal_id, why: HoldReason::NoBidForRest }),
                },
            },
        },
    }
}

/// What follows reading an order's state after its cancel.
pub fn after_reconcile(a: &PollAction, reply: Option<(MakerOrderStatus, Dec)>) -> (r: Option<B3Step>)
    ensures
        opt_step(r) == reconciled_step(
            a.signal_id@,
            a.orig@,
            a.target@,
            a.entry@,
            decimal::opt(a.bid),
            opt_report(reply),
        ),
        opt_report(reply) matches Some((status, matched)) ==> (opt_step(r) matches Some(step)
            ==> sells_no_more(step, a.orig@, status, matched)),
{
    let (status, matched) = match reply {
        None => {
            return Some(
                B3Step::Hold { signal_id: a.signal_id.clone(), why: HoldReason::CallFailed },
            );
        },
        Some(v) => v,
    };
    let recon = reconcile_decision(status, a.orig, matched);
    proof {
        lemma_sells_no_more(
            a.signal_id@,
            a.orig@,
            a.target@,
            a.entry@,
            decimal::opt(a.bid),
            status,
            matched@,
        );
    }
    match b3_timeout_action(&recon) {
        B3TimeoutAction::Defer => Some(
            B3Step::Hold { signal_id: a.signal_id.clone(), why: HoldReason::Deferred },
        ),
        B3TimeoutAction::FullMakerFill => close_by_maker(a),
        B3TimeoutAction::FullFallback => match a.bid {
            Some(bid) => Some(
                B3Step::SellWhole { shares: a.orig, bid, kind: ExitKind::B3Fallback },
            ),
            None => Some(
                B3Step::Hold { signal_id: a.signal_id.clone(), why: HoldReason::NoBidForLot },
            ),
        },
        B3TimeoutAction::Partial { maker_filled, fallback_size } => match a.bid {
            Some(bid) => Some(B3Step::SellRest { maker_filled, fallback_size, bid }),
            None => Some(
                B3Step::Hold { signal_id: a.signal_id.clone(), why: HoldReason::NoBidForRest },
            ),
        },
    }
}

/// A step sells no more than the maker order left: the whole lot only where nothing
/// was matched, and otherwise the remainder, which makes up the lot together with the
/// matched part wherever it is a decimal number, and is off by at most half a unit of
/// its last place where it has to be rounded; while the order may still fill, nothing.
pub open spec fn sells_no_more(
    step: StepV,
    orig: DecV,
    status: MakerOrderStatus,
    matched: DecV,
) -> bool {
    let lot = b3_maker::lot_size(orig);
    &&& step matches StepV::SellWhole { shares, .. } ==> shares == orig && b3_maker::matched_size(
        orig,
        matched,
    ).m == 0 && b3_maker::terminal(status)
    &&& step matches StepV::SellRest { maker_filled, fallback_size, .. } ==> {
        &&& maker_filled == b3_maker::matched_size(orig, matched)
        &&& maker_filled.m > 0 && decimal::le(maker_filled, lot)
        &&& fallback_size.m > 0 && decimal::le(fallback_size, lot)
        &&& decimal::exact_difference(lot, maker_filled) ==> decimal::adds_up(
            maker_filled,
            fallback_size,
            lot,
        )
        &&& decimal::nearly_adds_up(maker_filled, fallback_size, lot)
        &&& b3_maker::terminal(status)
    }
    &&& step is Close ==> b3_maker::fully_matched(orig, matched)
}

proof fn lemma_sells_no_more(
    signal_id: Seq<char>,
    orig: DecV,
    target: DecV,
    entry: DecV,
    bid: Option<DecV>,
    status: MakerOrderStatus,
    matched: DecV,
)
    requires
        b3_maker::reconciled(status, orig, matched) matches Some(o) ==> b3_maker::makes_up_the_lot(
            o,
            orig,
            matched,
        ),
    ensures
        reconciled_step(signal_id, orig, target, entry, bid, Some((status, matched)))
            matches Some(step) ==> sells_no_more(step, orig, status, matched),
{
    b3_maker::lemma_lot_and_match(orig, matched);
}

/// After a cancel no more is sold than the maker order left.
pub proof fn law_reconcile_never_oversells(
    signal_id: Seq<char>,
    orig: DecV,
    target: DecV,
    entry: DecV,
    bid: Option<DecV>,
    status: MakerOrderStatus,
    matched: DecV,
)
    requires
        decimal::valid(orig),
        decimal::valid(matched),
    ensures
        reconciled_step(signal_id, orig, target, entry, bid, Some((status, matched)))
            matches Some(step) ==> sells_no_more(step, orig, status, matched),
{
    b3_maker::law_no_oversell(status, orig, matched);
    lemma_sells_no_more(signal_id, orig, target, entry, bid, status, matched);
}

/// The average price of a sale, or the bid where nothing was sold.
pub open spec fn fill_price(taking: DecV, shares: DecV, bid: DecV) -> Option<DecV> {
    if shares.m > 0 {
        decimal::over(taking, shares)
    } else {
        Some(bid)
    }
}

/// What follows the sale of the whole lot.
pub open spec fn whole_sold_step(
    signal_id: Seq<char>,
    shares: DecV,
    entry: DecV,
    bid: DecV,
    kind: ExitKind,
    taking: Option<DecV>,
) -> Option<StepV> {
    match taking {
        None => Some(StepV::Hold { signal_id, why: HoldReason::CallFailed }),
        Some(t) => match (
            fill_price(t, shares, bid),
            b3_maker::profit(Some(t), Some(shares), entry, b3_maker::fee(shares, entry)),
        ) {
            (Some(price), Some(net)) => Some(StepV::Close { signal_id, net, price, kind }),
            _ => None,
        },
    }
}

fn price_of_fill(taking: Dec, shares: Dec, bid: Dec) -> (r: Option<Dec>)
    ensures
        decimal::opt(r) == fill_price(taking@, shares@, bid@),
{
    if shares.is_positive() {
        taking.checked_div(shares)
    } else {
        Some(bid)
    }
}

/// What follows the sale of the whole lot for `taking` (`None`: the call failed).
pub fn after_whole_sold(
    signal_id: &String,
    shares: Dec,
    entry: Dec,
    bid: Dec,
    kind: ExitKind,
    taking: Option<Dec>,
) -> (r: Option<B3Step>)
    ensures
        opt_step(r) == whole_sold_step(
            signal_id@,
            shares@,
            entry@,
            bid@,
            kind,
            decimal::opt(taking),
        ),
{
    let t = match taking {
        None => {
            return Some(
                B3Step::Hold { signal_id: signal_id.clone(), why: HoldReason::CallFailed },
            );
        },
        Some(t) => t,
    };
    let fill = price_of_fill(t, shares, bid);
    let buy_fee = checked_taker_fee(shares, entry);
    let net = sub_amounts(Some(t), add_amounts(shares.checked_mul(entry), buy_fee));
    match (fill, net) {
        (Some(exit_price), Some(net_pnl)) => Some(
            B3Step::Apply(
                B3Apply::Close { signal_id: signal_id.clone(), net_pnl, exit_price, kind },
            ),
        ),
        _ => None,
    }
}

/// What follows the sale of the remainder.
pub open spec fn rest_sold_step(
    signal_id: Seq<char>,
    orig: DecV,
    target: DecV,
    entry: DecV,
    maker_filled: DecV,
    fallback_size: DecV,
    bid: DecV,
    taking: Option<DecV>,
) -> Option<StepV> {
    match taking {
        None => Some(StepV::Hold { signal_id, why: HoldReason::CallFailed }),
        Some(t) => match (fill_price(t, fallback_size, bid), b3_maker::fee(orig, entry)) {
            (Some(fill), Some(buy_fee)) => match b3_maker::split_of(
                orig,
                maker_filled,
                target,
                fill,
                entry,
                buy_fee,
            ) {
                Some(s) => Some(
                    StepV::CloseSplit {
                        signal_id,
                        maker_net: s.maker_pnl,
                        fallback_net: s.fallback_pnl,
                        fill,
                    },
                ),
                None => None,
            },
            _ => None,
        },
    }
}

/// What follows the sale of the remainder for `taking` (`None`: the call failed).
pub fn after_rest_sold(
    a: &PollAction,
    maker_filled: Dec,
    fallback_size: Dec,
    bid: Dec,
    taking: Option<Dec>,
) -> (r: Option<B3Step>)
    ensures
        opt_step(r) == rest_sold_step(
            a.signal_id@,
            a.orig@,
            a.target@,
            a.entry@,
            maker_filled@,
            fallback_size@,
            bid@,
            decimal::opt(taking),
        ),
{
    let t = match taking {
        None => {
            return Some(
                B3Step::Hold { signal_id: a.signal_id.clone(), why: HoldReason::CallFailed },
            );
        },
        Some(t) => t,
    };
    let fill = price_of_fill(t, fallback_size, bid);
    let buy_fee = checked_taker_fee(a.orig, a.entry);
    match (fill, buy_fee) {
        (Some(fallback_fill), Some(buy_fee)) => match checked_split_close(
            a.orig,
            maker_filled,
            a.target,
            fallback_fill,
            a.entry,
            buy_fee,
        ) {
            Some(s) => Some(
                B3Step::Apply(
                    B3Apply::CloseSplit {
                        signal_id: a.signal_id.clone(),
                        maker_net: s.maker_pnl,
                        fallback_net: s.fallback_pnl,
                        fallback_fill,
                    },
                ),
            ),
            None => None,
        },
        _ => None,
    }
}

/// The index of the first position with the given signal id.
pub open spec fn lot_index(ps: Seq<OpenPosition>, id: Seq<char>) -> Option<int>
    decreases ps.len(),
{
    if ps.len() == 0 {
        None
    } else if ps[0].signal_id@ == id {
        Some(0)
    } else {
        match lot_index(ps.drop_first(), id) {
            Some(i) => Some(i + 1),
            None => None,
        }
    }
}

pub proof fn lemma_lot_index(ps: Seq<OpenPosition>, id: Seq<char>)
    ensures
        match lot_index(ps, id) {
            Some(i) => 0 <= i < ps.len() && ps[i].signal_id@ == id && forall|k: int|
                0 <= k < i ==> (#[trigger] ps[k]).signal_id@ != id,
            None => forall|k: int| 0 <= k < ps.len() ==> (#[trigger] ps[k]).signal_id@ != id,
        },
    decreases ps.len(),
{
    if ps.len() > 0 {
        let rest = ps.drop_first();
        lemma_lot_index(rest, id);
        assert forall|k: int| 0 < k < ps.len() implies ps[k] == #[trigger] rest[k - 1] by {}
        match lot_index(ps, id) {
            Some(i) => {
                assert forall|k: int| 0 <= k < i implies (#[trigger] ps[k]).signal_id@ != id by {
                    if k > 0 {
                        assert(ps[k] == rest[k - 1]);
                    }
                }
            },
            None => {
                assert forall|k: int| 0 <= k < ps.len() implies (#[trigger] ps[k]).signal_id@
                    != id by {
                    if k > 0 {
                        assert(ps[k] == rest[k - 1]);
                    }
                }
            },
        }
    }
}

proof fn lemma_lot_index_is(ps: Seq<OpenPosition>, id: Seq<char>, i: int)
    requires
        0 <= i < ps.len(),
        ps[i].signal_id@ == id,
        forall|k: int| 0 <= k < i ==> (#[trigger] ps[k]).signal_id@ != id,
    ensures
        lot_index(ps, id) == Some(i),
{
    lemma_lot_index(ps, id);
}

/// The index of the first position with the given signal id.
pub(crate) fn find_lot(positions: &Vec<OpenPosition>, id: &str) -> (r: Option<usize>)
    ensures
        match r {
            Some(i) => lot_index(positions@, id@) == Some(i as int) && i < positions@.len(),
            None => lot_index(positions@, id@) is None,
        },
{
    let mut i: usize = 0;
    while i < positions.len()
        invariant
            i <= positions.len(),
            forall|k: int| 0 <= k < i ==> (#[trigger] positions@[k]).signal_id@ != id@,
        decreases positions.len() - i,
    {
        if same_text(positions[i].signal_id.as_str(), id) {
            proof {
                lemma_lot_index_is(positions@, id@, i as int);
            }
            return Some(i);
        }
        i += 1;
    }
    proof {
        lemma_lot_index(positions@, id@);
    }
    None
}

/// The record of a position that was closed.
pub open spec fn trade_of(
    p: OpenPosition,
    exit_price: DecV,
    shares: DecV,
    net: DecV,
    kind: ExitKind,
    now_ms: i64,
) -> TradeV {
    TradeV {
        token_id: p.token_id@,
        side: p.side,
        interval: p.interval@,
        signal_id: p.signal_id@,
        entry_price: p.entry_price@,
        exit_price,
        shares,
        realized_pnl: net,
        exit_kind: kind,
        opened_at_ms: p.opened_at_ms,
        closed_at_ms: now_ms,
    }
}

/// The record of a position that was closed.
pub fn closed_trade(
    p: &OpenPosition,
    exit_price: Dec,
    shares: Dec,
    net: Dec,
    kind: ExitKind,
    now_ms: i64,
) -> (r: ClosedTrade)
    ensures
        r@ == trade_of(*p, exit_price@, shares@, net@, kind, now_ms),
{
    ClosedTrade {
        token_id: p.token_id.clone(),
        side: p.side,
        interval: p.interval.clone(),
        signal_id: p.signal_id.clone(),
        entry_price: p.entry_price,
        exit_price,
        shares,
        realized_pnl: net,
        exit_kind: kind,
        opened_at_ms: p.opened_at_ms,
        closed_at_ms: now_ms,
    }
}

/// The positions while results are being applied: closed lots stay in the list
/// until the end.
pub struct Applying {
    pub positions: Seq<OpenPosition>,
    pub closed: Seq<TradeV>,
    pub gone: Set<Seq<char>>,
}

/// The lot with the given id closed, if it is there.
pub open spec fn close_lot(
    st: Applying,
    id: Seq<char>,
    exit_price: DecV,
    net: DecV,
    kind: ExitKind,
    now_ms: i64,
) -> Applying {
    match lot_index(st.positions, id) {
        Some(i) => Applying {
            positions: st.positions,
            closed: st.closed.push(
                trade_of(
                    st.positions[i],
                    exit_price,
                    st.positions[i].shares@,
                    net,
                    kind,
                    now_ms,
                ),
            ),
            gone: st.gone.insert(id),
        },
        None => st,
    }
}

/// The lot with the given id given a maker order, if it is there.
pub open spec fn set_maker(
    ps: Seq<OpenPosition>,
    id: Seq<char>,
    state: Option<MakerExitState>,
) -> Seq<OpenPosition> {
    match lot_index(ps, id) {
        Some(i) => ps.update(i, OpenPosition { maker_exit: state, ..ps[i] }),
        None => ps,
    }
}

/// One result applied.
pub open spec fn apply_one(st: Applying, a: B3Apply, now_ms: i64) -> Applying {
    match a {
        B3Apply::SetMaker { signal_id, order_id, target } => Applying {
            positions: set_maker(
                st.positions,
                signal_id@,
                Some(
                    MakerExitState {
                        order_id,
                        placed_ms: now_ms,
                        target,
                        status: MakerExitStatus::Placed,
                    },
                ),
            ),
            ..st
        },
        B3Apply::Close { signal_id, net_pnl, exit_price, kind } => close_lot(
            st,
            signal_id@,
            exit_price@,
            net_pnl@,
            kind,
            now_ms,
        ),
        B3Apply::CloseSplit { signal_id, maker_net, fallback_net, fallback_fill } => close_lot(
            st,
            signal_id@,
            fallback_fill@,
            decimal::plus(maker_net@, fallback_net@)->0,
            ExitKind::B3Fallback,
            now_ms,
        ),
        B3Apply::Nothing { signal_id } => st,
    }
}

/// The first `n` results applied in their order.
pub open spec fn apply_first(
    ps: Seq<OpenPosition>,
    applies: Seq<B3Apply>,
    now_ms: i64,
    n: int,
) -> Applying
    decreases n,
{
    if n <= 0 {
        Applying { positions: ps, closed: Seq::empty(), gone: Set::empty() }
    } else {
        apply_one(apply_first(ps, applies, now_ms, n - 1), applies[n - 1], now_ms)
    }
}

/// The positions whose ids are not in the set.
pub open spec fn without(ps: Seq<OpenPosition>, gone: Set<Seq<char>>) -> Seq<OpenPosition>
    decreases ps.len(),
{
    if ps.len() == 0 {
        Seq::empty()
    } else if gone.contains(ps[0].signal_id@) {
        without(ps.drop_first(), gone)
    } else {
        seq![ps[0]] + without(ps.drop_first(), gone)
    }
}

/// The profit of every split close is in range.
pub open spec fn sums_in_range(applies: Seq<B3Apply>) -> bool {
    forall|i: int|
        0 <= i < applies.len() ==> sum_in_range(#[trigger] applies[i])
}

pub open spec fn sum_in_range(a: B3Apply) -> bool {
    a matches B3Apply::CloseSplit { maker_net, fallback_net, .. } ==> decimal::plus(
        maker_net@,
        fallback_net@,
    ) is Some
}

/// The values of a list of trades.
pub open spec fn trade_views(v: Seq<ClosedTrade>) -> Seq<TradeV> {
    v.map_values(|t: ClosedTrade| t@)
}

/// The names in a list, as a set.
pub open spec fn name_set(v: Seq<String>) -> Set<Seq<char>> {
    Set::new(|n: Seq<char>| exists|i: int| 0 <= i < v.len() && (#[trigger] v[i])@ == n)
}

pub proof fn lemma_name_set_push(v: Seq<String>, s: String)
    ensures
        name_set(v.push(s)) == name_set(v).insert(s@),
{
    assert forall|n: Seq<char>| name_set(v.push(s)).contains(n) == name_set(v).insert(
        s@,
    ).contains(n) by {
        if n == s@ {
            assert(v.push(s)[v.len() as int]@ == n);
        }
        if name_set(v).contains(n) {
            let i = choose|i: int| 0 <= i < v.len() && (#[trigger] v[i])@ == n;
            assert(v.push(s)[i]@ == n);
        }
        if name_set(v.push(s)).contains(n) && n != s@ {
            let i = choose|i: int| 0 <= i < v.push(s).len() && (#[trigger] v.push(s)[i])@ == n;
            assert(v[i]@ == n);
        }
    }
    assert(name_set(v.push(s)) =~= name_set(v).insert(s@));
}

pub(crate) fn in_names(names: &Vec<String>, name: &str) -> (r: bool)
    ensures
        r == name_set(names@).contains(name@),
{
    let mut i: usize = 0;
    while i < names.len()
        invariant
            i <= names.len(),
            forall|k: int| 0 <= k < i ==> (#[trigger] names@[k])@ != name@,
        decreases names.len() - i,
    {
        if same_text(names[i].as_str(), name) {
            assert(names@[i as int]@ == name@);
            return true;
        }
        i += 1;
    }
    false
}

/// Removes the positions whose ids are in the list.
pub(crate) fn remove_lots(positions: &mut Vec<OpenPosition>, gone: &Vec<String>)
    ensures
        final(positions)@ == without(old(positions)@, name_set(gone@)),
{
    let ghost start = positions@;
    let ghost set = name_set(gone@);
    let mut i: usize = 0;
    assert(start.skip(0) =~= start);
    assert(start.take(0) + without(start.skip(0), set) =~= without(start, set));
    while i < positions.len()
        invariant
            i <= positions@.len(),
            set == name_set(gone@),
            positions@.take(i as int) + without(positions@.skip(i as int), set) == without(
                start,
                set,
            ),
        decreases positions@.len() - i,
    {
        let ghost before = positions@;
        assert(before.skip(i as int)[0] == before[i as int]);
        if in_names(gone, positions[i].signal_id.as_str()) {
            let removed = positions.remove(i);
            assert(positions@.take(i as int) =~= before.take(i as int));
            assert(positions@.skip(i as int) =~= before.skip(i as int).drop_first());
        } else {
            assert(before.skip(i as int).drop_first() =~= before.skip(i + 1));
            assert(before.take(i as int) + (seq![before[i as int]] + without(
                before.skip(i + 1),
                set,
            )) =~= before.take(i + 1) + without(before.skip(i + 1), set));
            i += 1;
        }
    }
    assert(positions@.skip(i as int) =~= Seq::empty());
    assert(positions@.take(i as int) + Seq::<OpenPosition>::empty() =~= positions@);
}

/// Applies the results of a tick: an order that was placed is noted on its lot,
/// a closed lot is recorded with all its shares and removed. A lot that is no
/// longer there is passed over.
pub fn apply_b3_results(
    positions: &mut Vec<OpenPosition>,
    applies: &[B3Apply],
    now_ms: i64,
) -> (r: Vec<ClosedTrade>)
    requires
        sums_in_range(applies@),
    ensures
        ({
            let st = apply_first(old(positions)@, applies@, now_ms, applies@.len() as int);
            &&& final(positions)@ == without(st.positions, st.gone)
            &&& trade_views(r@) == st.closed
        }),
{
    let ghost start = positions@;
    let mut closed: Vec<ClosedTrade> = Vec::new();
    let mut gone: Vec<String> = Vec::new();
    let mut i: usize = 0;
    assert(trade_views(closed@) =~= Seq::empty());
    assert(name_set(gone@) =~= Set::empty());
    while i < applies.len()
        invariant
            i <= applies.len(),
            sums_in_range(applies@),
            ({
                let st = apply_first(start, applies@, now_ms, i as int);
                &&& positions@ == st.positions
                &&& trade_views(closed@) == st.closed
                &&& name_set(gone@) == st.gone
            }),
        decreases applies.len() - i,
    {
        let ghost closed_before = closed@;
        assert(sum_in_range(applies@[i as int]));
        match &applies[i] {
            B3Apply::SetMaker { signal_id, order_id, target } => {
                if let Some(k) = find_lot(positions, signal_id.as_str()) {
                    let state = MakerExitState {
                        order_id: order_id.clone(),
                        placed_ms: now_ms,
                        target: *target,
                        status: MakerExitStatus::Placed,
                    };
                    note_maker(positions, k, Some(state));
                }
            },
            B3Apply::Close { signal_id, net_pnl, exit_price, kind } => {
                if let Some(k) = find_lot(positions, signal_id.as_str()) {
                    let p = &positions[k];
                    let t = closed_trade(p, *exit_price, p.shares, *net_pnl, *kind, now_ms);
                    closed.push(t);
                    assert(trade_views(closed@) =~= trade_views(closed_before).push(t@));
                    proof {
                        lemma_name_set_push(gone@, *signal_id);
                    }
                    gone.push(signal_id.clone());
                }
            },
            B3Apply::CloseSplit { signal_id, maker_net, fallback_net, fallback_fill } => {
                let total = maker_net.checked_add(*fallback_net).unwrap();
                if let Some(k) = find_lot(positions, signal_id.as_str()) {
                    let p = &positions[k];
                    let t = closed_trade(
                        p,
                        *fallback_fill,
                        p.shares,
                        total,
                        ExitKind::B3Fallback,
                        now_ms,
                    );
                    closed.push(t);
                    assert(trade_views(closed@) =~= trade_views(closed_before).push(t@));
                    proof {
                        lemma_name_set_push(gone@, *signal_id);
                    }
                    gone.push(signal_id.clone());
                }
            },
            B3Apply::Nothing { signal_id: _ } => {},
        }
        i += 1;
    }
    remove_lots(positions, &gone);
    closed
}

/// Sets or clears the maker order of one lot.
pub(crate) fn note_maker(positions: &mut Vec<OpenPosition>, k: usize, state: Option<MakerExitState>)
    requires
        k < old(positions)@.len(),
    ensures
        final(positions)@ == old(positions)@.update(
            k as int,
            OpenPosition { maker_exit: state, ..old(positions)@[k as int] },
        ),
{
    let p = &positions[k];
    let changed = OpenPosition {
        token_id: p.token_id.clone(),
        asset: p.asset.clone(),
        side: p.side,
        entry_price: p.entry_price,
        shares: p.shares,
        opened_at_ms: p.opened_at_ms,
        signal_id: p.signal_id.clone(),
        interval: p.interval.clone(),
        exit_ts_s: p.exit_ts_s,
        entry_ts_ms: p.entry_ts_ms,
        maker_exit: state,
    };
    positions.set(k, changed);
}

/// Applies the results of a tick, where the profit of every split close is in
/// range; otherwise leaves the positions as they are.
pub fn checked_apply_b3_results(
    positions: &mut Vec<OpenPosition>,
    applies: &[B3Apply],
    now_ms: i64,
) -> (r: Option<Vec<ClosedTrade>>)
    ensures
        r is Some <==> sums_in_range(applies@),
        r is None ==> final(positions)@ == old(positions)@,
        r matches Some(closed) ==> {
            let st = apply_first(old(positions)@, applies@, now_ms, applies@.len() as int);
            &&& final(positions)@ == without(st.positions, st.gone)
            &&& trade_views(closed@) == st.closed
        },
{
    let mut i: usize = 0;
    while i < applies.len()
        invariant
            i <= applies.len(),
            forall|k: int| 0 <= k < i ==> sum_in_range(#[trigger] applies@[k]),
            positions@ == old(positions)@,
        decreases applies.len() - i,
    {
        match &applies[i] {
            B3Apply::CloseSplit { signal_id: _, maker_net, fallback_net, fallback_fill: _ } => {
                let total = maker_net.checked_add(*fallback_net);
                if total.is_none() {
                    assert(!sum_in_range(applies@[i as int]));
                    return None;
                }
            },
            _ => {},
        }
        i += 1;
    }
    Some(apply_b3_results(positions, applies, now_ms))
}

/// Whether a result is about the given lot.
pub open spec fn names_lot(a: B3Apply, id: Seq<char>) -> bool {
    match a {
        B3Apply::SetMaker { signal_id, .. } => signal_id@ == id,
        B3Apply::Close { signal_id, .. } => signal_id@ == id,
        B3Apply::CloseSplit { signal_id, .. } => signal_id@ == id,
        B3Apply::Nothing { signal_id } => false,
    }
}

/// Applying results changes no other lots: a lot that no result names is neither
/// altered, removed nor recorded as closed; lots keep their ids and their places.
pub proof fn law_apply_changes_only_named_lots(
    ps: Seq<OpenPosition>,
    applies: Seq<B3Apply>,
    now_ms: i64,
    n: int,
    id: Seq<char>,
)
    requires
        0 <= n <= applies.len(),
        forall|k: int| 0 <= k < n ==> !names_lot(#[trigger] applies[k], id),
    ensures
        ({
            let st = apply_first(ps, applies, now_ms, n);
            &&& st.positions.len() == ps.len()
            &&& !st.gone.contains(id)
            &&& forall|k: int|
                0 <= k < ps.len() ==> (#[trigger] st.positions[k]).signal_id@ == ps[k].signal_id@
            &&& forall|k: int|
                0 <= k < ps.len() && ps[k].signal_id@ == id ==> #[trigger] st.positions[k] == ps[k]
            &&& forall|k: int|
                0 <= k < st.closed.len() ==> (#[trigger] st.closed[k]).signal_id != id
        }),
    decreases n,
{
    if n > 0 {
        law_apply_changes_only_named_lots(ps, applies, now_ms, n - 1, id);
        let before = apply_first(ps, applies, now_ms, n - 1);
        let a = applies[n - 1];
        assert(!names_lot(a, id));
        match a {
            B3Apply::SetMaker { signal_id, .. } => {
                lemma_lot_index(before.positions, signal_id@);
            },
            B3Apply::Close { signal_id, .. } => {
                lemma_lot_index(before.positions, signal_id@);
            },
            B3Apply::CloseSplit { signal_id, .. } => {
                lemma_lot_index(before.positions, signal_id@);
            },
            B3Apply::Nothing { signal_id } => {},
        }
    }
}

/// A result for a lot that is not there does nothing.
pub proof fn law_vanished_lot_is_skipped(st: Applying, a: B3Apply, now_ms: i64)
    requires
        forall|k: int| 0 <= k < st.positions.len() ==> !names_lot(a, (#[trigger] st.positions[k]).signal_id@),
    ensures
        apply_one(st, a, now_ms) == st,
{
    match a {
        B3Apply::SetMaker { signal_id, .. } => {
            lemma_lot_index(st.positions, signal_id@);
        },
        B3Apply::Close { signal_id, .. } => {
            lemma_lot_index(st.positions, signal_id@);
        },
        B3Apply::CloseSplit { signal_id, .. } => {
            lemma_lot_index(st.positions, signal_id@);
        },
        B3Apply::Nothing { signal_id } => {},
    }
}

/// A lot that is closed is recorded once, with all its shares.
pub proof fn law_close_records_the_whole_lot(
    st: Applying,
    id: Seq<char>,
    exit_price: DecV,
    net: DecV,
    kind: ExitKind,
    now_ms: i64,
)
    requires
        lot_index(st.positions, id) is Some,
    ensures
        ({
            let after = close_lot(st, id, exit_price, net, kind, now_ms);
            let i = lot_index(st.positions, id)->0;
            &&& after.closed.len() == st.closed.len() + 1
            &&& after.closed.last().shares == st.positions[i].shares@
            &&& after.closed.last().signal_id == id
            &&& after.gone.contains(id)
        }),
{
    lemma_lot_index(st.positions, id);
}

/// The id that a maker order has with the client: the same for the same lot and
/// target.
pub open spec fn coid(signal_id: Seq<char>, target: DecV) -> Seq<char> {
    signal_id + "-maker-"@ + decimal::text(target)
}

/// The id that a maker order has with the client.
#[must_use]
pub fn maker_coid(signal_id: &str, target: Dec) -> (r: String)
    ensures
        r@ == coid(signal_id@, target@),
{
    let mut out = String::new();
    push_str(&mut out, signal_id);
    push_str(&mut out, "-maker-");
    let t = target.to_text();
    push_str(&mut out, t.as_str());
    assert(out@ =~= coid(signal_id@, target@));
    out
}

} // verus!
