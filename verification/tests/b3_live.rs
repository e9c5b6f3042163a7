use dashmap::DashMap;
use rust_bot::b3_live::{
    actions_for, after_place, after_poll, after_reconcile, after_rest_sold, after_whole_sold,
    apply_b3_results, checked_apply_b3_results, choose_action, collect_b3_actions, fresh_bid,
    maker_net, snap_dec, B3Action, B3Apply, B3Step, CancelResp, ClosedTrade, EventBbo, ExitKind,
    HoldReason, MakerExitState, MakerExitStatus, OpenPosition, Outcome, PollAction, STALE_BBO_MS,
};
use rust_bot::b3_maker::{MakerOrderStatus, PostOutcome};
use rust_bot::b3_startup::{
    apply_startup_items, known_order_id, orphan_decisions, persisted_maker_decision, OpenOrderRow,
    ReconItem, ReconPos, ReconcileReport,
};
use rust_bot::config::{B3Fallback, CellRule, ExitRule, ExitsConfig, Num};
use rust_bot::decimal::Dec;
use std::collections::HashMap;

fn d(num: i64, scale: u32) -> Dec {
    Dec::new(num, scale)
}

fn same(a: Dec, b: Dec) -> bool {
    !a.less_than(b) && !b.less_than(a)
}

/// A venue that answers from a script.
#[derive(Default)]
struct Venue {
    place: HashMap<String, PostOutcome>,
    poll: HashMap<String, (MakerOrderStatus, Dec)>,
    recon: HashMap<String, (MakerOrderStatus, Dec, CancelResp)>,
    taker_taking: Option<Dec>,
    open_orders: Vec<OpenOrderRow>,
    cancelled: Vec<String>,
    held: Vec<HoldReason>,
    sales: usize,
}

impl Venue {
    fn place_maker(&self, token_id: &str) -> PostOutcome {
        match self.place.get(token_id) {
            Some(o) => o.clone(),
            None => PostOutcome::Posted { order_id: format!("oid-{token_id}") },
        }
    }

    fn poll_order(&self, order_id: &str) -> (MakerOrderStatus, Dec) {
        match self.poll.get(order_id) {
            Some(o) => *o,
            None => (MakerOrderStatus::Live, d(0, 0)),
        }
    }

    fn cancel_then_reconcile(&self, order_id: &str) -> (MakerOrderStatus, Dec, CancelResp) {
        match self.recon.get(order_id) {
            Some(o) => *o,
            None => (MakerOrderStatus::Cancelled, d(0, 0), CancelResp::Canceled),
        }
    }

    fn taker_sell(&mut self) -> Option<Dec> {
        self.sales += 1;
        self.taker_taking
    }
}

/// Carries out one action to its end.
fn carry_out(venue: &mut Venue, action: &B3Action) -> Option<B3Apply> {
    let (signal_id, entry) = match action {
        B3Action::Place(a) => (a.signal_id.clone(), a.entry),
        B3Action::Poll(a) => (a.signal_id.clone(), a.entry),
        B3Action::FallbackOnly(a) => (a.signal_id.clone(), a.entry),
    };
    let mut step = match action {
        B3Action::Place(a) => after_place(a, Some(venue.place_maker(&a.token_id))),
        B3Action::Poll(a) => after_poll(a, Some(venue.poll_order(&a.order_id))).unwrap(),
        B3Action::FallbackOnly(a) => {
            B3Step::SellWhole { shares: a.shares, bid: a.bid, kind: ExitKind::B3Fallback }
        }
    };
    loop {
        step = match (step, action) {
            (B3Step::Apply(a), _) => return Some(a),
            (B3Step::Hold { why, .. }, _) => {
                venue.held.push(why);
                return None;
            }
            (B3Step::Reconcile, B3Action::Poll(a)) => {
                let (status, matched, _) = venue.cancel_then_reconcile(&a.order_id);
                after_reconcile(a, Some((status, matched))).unwrap()
            }
            (B3Step::SellWhole { shares, bid, kind }, _) => {
                let taking = venue.taker_sell();
                after_whole_sold(&signal_id, shares, entry, bid, kind, taking).unwrap()
            }
            (B3Step::SellRest { maker_filled, fallback_size, bid }, B3Action::Poll(a)) => {
                let taking = venue.taker_sell();
                after_rest_sold(a, maker_filled, fallback_size, bid, taking).unwrap()
            }
            (s, a) => panic!("step {s:?} does not follow from {a:?}"),
        };
    }
}

fn process(
    positions: &mut Vec<OpenPosition>,
    cfg: &ExitsConfig,
    bbo: &DashMap<String, EventBbo>,
    now: i64,
    venue: &mut Venue,
) -> Vec<ClosedTrade> {
    let actions = collect_b3_actions(positions, cfg, bbo, now);
    let mut applies = Vec::new();
    for a in &actions {
        if let Some(x) = carry_out(venue, a) {
            applies.push(x);
        }
    }
    checked_apply_b3_results(positions, &applies, now).unwrap()
}

fn cfg() -> ExitsConfig {
    let mut c = ExitsConfig::new();
    c.cells.push(CellRule {
        cell: "ETH:5m".to_string(),
        rule: ExitRule::B3Maker { delta: Num::Finite(d(10, 2)), fallback: B3Fallback::F2Market },
    });
    c
}

fn bbo_with(token: &str, bid: Dec, now: i64) -> DashMap<String, EventBbo> {
    let m = DashMap::new();
    m.insert(token.to_string(), EventBbo { best_bid: Some(Num::Finite(bid)), ts_ms: now });
    m
}

fn pos_named(
    signal_id: &str,
    token: &str,
    entry: Dec,
    t0: i64,
    maker: Option<MakerExitState>,
) -> OpenPosition {
    OpenPosition {
        token_id: token.to_string(),
        asset: "ETH".to_string(),
        side: Outcome::Up,
        entry_price: entry,
        shares: d(100, 1),
        opened_at_ms: t0,
        signal_id: signal_id.to_string(),
        interval: "5m".to_string(),
        exit_ts_s: t0 / 1000 + 120,
        entry_ts_ms: t0,
        maker_exit: maker,
    }
}

fn pos(token: &str, entry: Dec, t0: i64, maker: Option<MakerExitState>) -> OpenPosition {
    pos_named(&format!("{token}-sig"), token, entry, t0, maker)
}

fn placed(order_id: &str, target: Dec, t0: i64) -> MakerExitState {
    MakerExitState {
        order_id: order_id.to_string(),
        placed_ms: t0,
        target,
        status: MakerExitStatus::Placed,
    }
}

const T0: i64 = 1_780_000_000_000;

#[test]
fn lifecycle_place_then_fill_complete() {
    let mut positions = vec![pos("T", d(55, 2), T0, None)];
    let mut venue = Venue::default();
    let now1 = T0 + 1_000;
    let bbo = bbo_with("T", d(55, 2), now1);
    let c1 = process(&mut positions, &cfg(), &bbo, now1, &mut venue);
    assert!(c1.is_empty());
    assert!(positions[0].maker_exit.is_some());
    let oid = positions[0].maker_exit.as_ref().unwrap().order_id.clone();
    venue.poll.insert(oid, (MakerOrderStatus::Matched, d(100, 1)));
    let now2 = T0 + 2_000;
    let bbo2 = bbo_with("T", d(66, 2), now2);
    let c2 = process(&mut positions, &cfg(), &bbo2, now2, &mut venue);
    assert_eq!(c2.len(), 1, "full fill closes the lot");
    assert_eq!(c2[0].exit_kind, ExitKind::B3MakerFill);
    assert!(same(c2[0].exit_price, d(65, 2)), "fills at the target (maker)");
    assert!(same(c2[0].realized_pnl, d(82675, 5)));
    assert!(positions.is_empty());
}

#[test]
fn lifecycle_timeout_clean_cancel_fallback() {
    let mut positions = vec![pos("T", d(55, 2), T0, Some(placed("oid-T", d(65, 2), T0)))];
    positions[0].exit_ts_s = T0 / 1000;
    let mut venue = Venue::default();
    venue.poll.insert("oid-T".into(), (MakerOrderStatus::Live, d(0, 0)));
    venue.recon.insert("oid-T".into(), (MakerOrderStatus::Cancelled, d(0, 0), CancelResp::Canceled));
    venue.taker_taking = Some(d(540, 2));
    let now = T0 + 120_000;
    let bbo = bbo_with("T", d(54, 2), now);
    let c = process(&mut positions, &cfg(), &bbo, now, &mut venue);
    assert_eq!(c.len(), 1, "timeout closes via F2 fallback");
    assert_eq!(c[0].exit_kind, ExitKind::B3Fallback);
    assert!(same(c[0].realized_pnl, d(-27325, 5)));
    assert!(positions.is_empty());
}

#[test]
fn timeout_no_fresh_bid_defers_and_warns_no_sell() {
    let mut positions = vec![pos("T", d(55, 2), T0, Some(placed("oid-T", d(65, 2), T0)))];
    positions[0].exit_ts_s = T0 / 1000;
    let mut venue = Venue::default();
    venue.poll.insert("oid-T".into(), (MakerOrderStatus::Live, d(0, 0)));
    venue.recon.insert("oid-T".into(), (MakerOrderStatus::Cancelled, d(0, 0), CancelResp::Canceled));
    venue.taker_taking = Some(d(999, 0));
    let now = T0 + 120_000;
    let bbo = bbo_with("T", d(54, 2), now - STALE_BBO_MS - 1);
    let c = process(&mut positions, &cfg(), &bbo, now, &mut venue);
    assert!(c.is_empty(), "no fresh bid at timeout -> sells NOTHING");
    assert_eq!(venue.sales, 0);
    assert_eq!(positions.len(), 1, "position kept for retry");
    assert_eq!(venue.held, vec![HoldReason::NoBidForLot], "must WARN, not be silent");
}

#[test]
fn lifecycle_partial_split_sums_to_orig() {
    let mut positions = vec![pos("T", d(55, 2), T0, Some(placed("oid-T", d(65, 2), T0)))];
    positions[0].exit_ts_s = T0 / 1000;
    let mut venue = Venue::default();
    venue.poll.insert("oid-T".into(), (MakerOrderStatus::Live, d(0, 0)));
    venue.recon.insert("oid-T".into(), (MakerOrderStatus::Cancelled, d(30, 1), CancelResp::Canceled));
    venue.taker_taking = Some(d(378, 2));
    let now = T0 + 120_000;
    let bbo = bbo_with("T", d(54, 2), now);
    let c = process(&mut positions, &cfg(), &bbo, now, &mut venue);
    assert_eq!(c.len(), 1, "partial split closes the lot once (total)");
    assert_eq!(c[0].exit_kind, ExitKind::B3Fallback);
    assert!(same(c[0].shares, d(100, 1)), "whole lot accounted (3 maker + 7 fallback)");
    assert!(positions.is_empty());
}

#[test]
fn lifecycle_ambiguous_defers_sells_nothing() {
    let mut positions = vec![pos("T", d(55, 2), T0, Some(placed("oid-T", d(65, 2), T0)))];
    positions[0].exit_ts_s = T0 / 1000;
    let mut venue = Venue::default();
    venue.poll.insert("oid-T".into(), (MakerOrderStatus::Live, d(30, 1)));
    venue.recon.insert("oid-T".into(), (MakerOrderStatus::Live, d(30, 1), CancelResp::NotCanceled));
    venue.taker_taking = Some(d(999, 0));
    let now = T0 + 120_000;
    let bbo = bbo_with("T", d(54, 2), now);
    let c = process(&mut positions, &cfg(), &bbo, now, &mut venue);
    assert!(c.is_empty(), "ambiguous -> sells NOTHING, no close");
    assert_eq!(venue.sales, 0);
    assert_eq!(positions.len(), 1, "position kept (retry next tick)");
    assert!(positions[0].maker_exit.is_some(), "maker still tracked");
}

#[test]
fn apply_finds_by_signal_id_not_index() {
    let mut positions = vec![pos("A", d(55, 2), T0, None), pos("B", d(55, 2), T0, None)];
    let applies = vec![
        B3Apply::Close {
            signal_id: "A-sig".into(),
            net_pnl: d(10, 1),
            exit_price: d(65, 2),
            kind: ExitKind::B3MakerFill,
        },
        B3Apply::Close {
            signal_id: "Z-sig".into(),
            net_pnl: d(10, 1),
            exit_price: d(65, 2),
            kind: ExitKind::B3MakerFill,
        },
    ];
    let closed = apply_b3_results(&mut positions, &applies, T0 + 1);
    assert_eq!(closed.len(), 1, "only the present signal_id closed; the gone one skipped");
    assert_eq!(closed[0].signal_id, "A-sig");
    assert_eq!(positions.len(), 1, "A removed, B kept, Z was never there");
    assert_eq!(positions[0].signal_id, "B-sig");
}

#[test]
fn no_oversell_invariant_wiring() {
    let mut positions = vec![pos("T", d(55, 2), T0, None)];
    let applies = vec![B3Apply::CloseSplit {
        signal_id: "T-sig".into(),
        maker_net: d(3, 1),
        fallback_net: d(-1, 1),
        fallback_fill: d(54, 2),
    }];
    let closed = apply_b3_results(&mut positions, &applies, T0 + 1);
    assert_eq!(closed.len(), 1, "split closes the lot exactly once");
    assert!(same(closed[0].shares, d(100, 1)), "the WHOLE lot (never more)");
    assert!(same(closed[0].realized_pnl, d(2, 1)), "total = maker_net + fallback_net");
    assert!(positions.is_empty(), "lot removed once, no double-close");
}

fn rp(
    signal_id: &str,
    token: &str,
    target: Dec,
    persisted: Option<&str>,
    submitted: Option<&str>,
    pending: bool,
) -> ReconPos {
    ReconPos {
        signal_id: signal_id.into(),
        token_id: token.into(),
        shares: d(100, 1),
        entry: d(55, 2),
        target,
        persisted_order_id: persisted.map(str::to_string),
        submitted_order_id: submitted.map(str::to_string),
        has_pending_intent: pending,
    }
}

fn ord(order_id: &str, token: &str, price: Dec, orig: Dec, matched: Dec) -> OpenOrderRow {
    OpenOrderRow {
        order_id: order_id.into(),
        token_id: token.into(),
        is_sell: true,
        price,
        original_size: orig,
        size_matched: matched,
    }
}

/// Takes up the orders of the positions again.
fn reconcile(
    positions: &mut Vec<OpenPosition>,
    recon: &[ReconPos],
    venue: &mut Venue,
    now: i64,
) -> ReconcileReport {
    let mut items = Vec::new();
    for p in recon {
        if let Some(oid) = known_order_id(p) {
            let (status, matched) = venue.poll_order(&oid);
            items.push(persisted_maker_decision(&p.signal_id, &oid, status, matched, p.shares));
        }
    }
    let mut cancelled = 0;
    for item in orphan_decisions(&venue.open_orders, recon) {
        match item {
            ReconItem::CancelOrphan { order_id } => {
                venue.cancelled.push(order_id);
                cancelled += 1;
            }
            other => items.push(other),
        }
    }
    apply_startup_items(positions, &items, recon, cancelled, now).unwrap()
}

#[test]
fn reconcile_match_inequivoco_via_coid() {
    let mut positions = vec![
        pos_named("A-sig", "T", d(55, 2), T0, None),
        pos_named("B-sig", "T", d(55, 2), T0, None),
    ];
    let recon = vec![
        rp("A-sig", "T", d(65, 2), None, Some("oid-A"), false),
        rp("B-sig", "T", d(65, 2), None, Some("oid-B"), false),
    ];
    let mut venue = Venue::default();
    venue.poll.insert("oid-A".into(), (MakerOrderStatus::Live, d(0, 0)));
    venue.poll.insert("oid-B".into(), (MakerOrderStatus::Live, d(0, 0)));
    venue.open_orders = vec![
        ord("oid-A", "T", d(65, 2), d(100, 1), d(0, 0)),
        ord("oid-B", "T", d(65, 2), d(100, 1), d(0, 0)),
    ];
    let r = reconcile(&mut positions, &recon, &mut venue, T0);
    assert_eq!(r.adopted, 2);
    assert_eq!(r.cancelled, 0, "submitted orders are expected -> NOT orphans");
    let a = positions.iter().find(|p| p.signal_id == "A-sig").unwrap();
    let b = positions.iter().find(|p| p.signal_id == "B-sig").unwrap();
    assert_eq!(a.maker_exit.as_ref().unwrap().order_id, "oid-A", "A bound to its own order");
    assert_eq!(
        b.maker_exit.as_ref().unwrap().order_id,
        "oid-B",
        "B bound to its own order (not crossed)"
    );
}

#[test]
fn reconcile_ambiguous_pending_cancels_both() {
    let mut positions = vec![
        pos_named("A-sig", "T", d(55, 2), T0, None),
        pos_named("B-sig", "T", d(55, 2), T0, None),
    ];
    let recon = vec![
        rp("A-sig", "T", d(65, 2), None, None, true),
        rp("B-sig", "T", d(65, 2), None, None, true),
    ];
    let mut venue = Venue::default();
    venue.open_orders = vec![
        ord("oid-X", "T", d(65, 2), d(100, 1), d(0, 0)),
        ord("oid-Y", "T", d(65, 2), d(100, 1), d(0, 0)),
    ];
    let r = reconcile(&mut positions, &recon, &mut venue, T0);
    assert_eq!(r.cancelled, 2, "both ambiguous orphans cancelled");
    assert_eq!(r.adopted, 0, "neither adopted");
    assert!(
        venue.cancelled.contains(&"oid-X".to_string())
            && venue.cancelled.contains(&"oid-Y".to_string())
    );
    assert!(
        positions.iter().all(|p| p.maker_exit.is_none()),
        "no maker adopted to a guessed lot"
    );
}

#[test]
fn reconcile_fill_while_down_closes_position() {
    let mut positions =
        vec![pos_named("A-sig", "T", d(55, 2), T0, Some(placed("oid-A", d(65, 2), T0)))];
    let recon = vec![rp("A-sig", "T", d(65, 2), Some("oid-A"), None, false)];
    let mut venue = Venue::default();
    venue.poll.insert("oid-A".into(), (MakerOrderStatus::Matched, d(100, 1)));
    venue.taker_taking = Some(d(999, 0));
    let r = reconcile(&mut positions, &recon, &mut venue, T0);
    assert_eq!(r.closed.len(), 1, "fill-while-down closes the lot");
    assert_eq!(r.closed[0].exit_kind, ExitKind::B3MakerFill);
    assert!(same(r.closed[0].exit_price, d(65, 2)));
    assert!(venue.cancelled.is_empty(), "nothing cancelled");
    assert!(positions.is_empty(), "lot removed (shares already gone)");
}

#[test]
fn reconcile_ambiguous_with_partial_halts() {
    let mut positions = vec![
        pos_named("A-sig", "T", d(55, 2), T0, None),
        pos_named("B-sig", "T", d(55, 2), T0, None),
    ];
    let recon = vec![
        rp("A-sig", "T", d(65, 2), None, None, true),
        rp("B-sig", "T", d(65, 2), None, None, true),
    ];
    let mut venue = Venue::default();
    venue.open_orders = vec![ord("oid-X", "T", d(65, 2), d(100, 1), d(30, 1))];
    let r = reconcile(&mut positions, &recon, &mut venue, T0);
    assert_eq!(r.cancelled, 1, "the orphan is cancelled");
    assert!(
        r.halted.contains(&"A-sig".to_string()) && r.halted.contains(&"B-sig".to_string()),
        "candidate lots HALTED (uncertain)"
    );
}

#[test]
fn reconcile_does_not_cancel_loaded_legit() {
    let mut positions =
        vec![pos_named("A-sig", "T", d(55, 2), T0, Some(placed("oid-A", d(65, 2), T0)))];
    let recon = vec![rp("A-sig", "T", d(65, 2), Some("oid-A"), None, false)];
    let mut venue = Venue::default();
    venue.poll.insert("oid-A".into(), (MakerOrderStatus::Live, d(0, 0)));
    venue.open_orders = vec![ord("oid-A", "T", d(65, 2), d(100, 1), d(0, 0))];
    let r = reconcile(&mut positions, &recon, &mut venue, T0);
    assert_eq!(r.cancelled, 0, "a loaded position's order is NEVER cancelled");
    assert!(venue.cancelled.is_empty());
    assert!(positions[0].maker_exit.is_some(), "still tracked (resumed)");
}

#[test]
fn order_gone_without_a_fill_is_forgotten() {
    let mut positions =
        vec![pos_named("A-sig", "T", d(55, 2), T0, Some(placed("oid-A", d(65, 2), T0)))];
    let recon = vec![rp("A-sig", "T", d(65, 2), Some("oid-A"), None, false)];
    let mut venue = Venue::default();
    venue.poll.insert("oid-A".into(), (MakerOrderStatus::Cancelled, d(0, 0)));
    let r = reconcile(&mut positions, &recon, &mut venue, T0);
    assert_eq!(r.adopted, 0);
    assert_eq!(positions.len(), 1);
    assert!(positions[0].maker_exit.is_none());
}

#[test]
fn bids_are_fresh_for_five_seconds() {
    let q = EventBbo { best_bid: Some(Num::Finite(d(54, 2))), ts_ms: T0 };
    assert!(same(fresh_bid(Some(q), T0 + 5_000).unwrap(), d(54, 2)));
    assert!(fresh_bid(Some(q), T0 + 5_001).is_none());
    assert!(fresh_bid(None, T0).is_none());
    assert!(fresh_bid(Some(EventBbo { best_bid: None, ts_ms: T0 }), T0).is_none());
    for bid in [Num::NotANumber, Num::Infinite { negative: false }] {
        assert!(fresh_bid(Some(EventBbo { best_bid: Some(bid), ts_ms: T0 }), T0).is_none());
    }
}

#[test]
fn prices_snap_to_whole_cents() {
    assert!(same(snap_dec(d(6549, 4)).unwrap(), d(65, 2)));
    assert!(same(snap_dec(d(6551, 4)).unwrap(), d(66, 2)));
}

#[test]
fn target_of_a_maker_fill_pays_no_fee() {
    // 10*0.65 - (10*0.55 + 0.07*10*0.55*0.45)
    assert!(same(maker_net(d(10, 0), d(65, 2), d(55, 2)).unwrap(), d(82675, 5)));
}

#[test]
fn cells_without_a_maker_rule_are_left_alone() {
    let p = pos("T", d(55, 2), T0, None);
    let q = Some(EventBbo { best_bid: Some(Num::Finite(d(55, 2))), ts_ms: T0 });
    assert!(choose_action(&p, &ExitsConfig::new(), q, T0).is_none());
    assert!(matches!(choose_action(&p, &cfg(), q, T0), Some(B3Action::Place(_))));
    let two = [p.clone(), p];
    assert_eq!(actions_for(&two, &cfg(), &[q, None], T0).len(), 1);
}

#[test]
fn crossing_refusal_sells_at_once_and_other_refusals_do_not() {
    let mut positions = vec![pos("T", d(55, 2), T0, None)];
    let mut venue = Venue::default();
    venue.place.insert("T".into(), PostOutcome::RealError { text: "no".into() });
    let bbo = bbo_with("T", d(66, 2), T0);
    assert!(process(&mut positions, &cfg(), &bbo, T0, &mut venue).is_empty());
    assert_eq!(venue.held, vec![HoldReason::PlaceRefused]);
    venue.place.insert("T".into(), PostOutcome::RejectedCrossable);
    venue.taker_taking = Some(d(660, 2));
    let c = process(&mut positions, &cfg(), &bbo, T0, &mut venue);
    assert_eq!(c.len(), 1);
    assert_eq!(c[0].exit_kind, ExitKind::B3MakerFill);
    assert_eq!(CancelResp::Canceled.as_str(), "canceled");
    assert_eq!(CancelResp::NotCanceled.as_str(), "not_canceled");
}

#[test]
fn an_order_is_taken_up_once() {
    let adopt = ReconItem::Adopt { signal_id: "T-sig".into(), order_id: "oid".into() };
    let recon = vec![rp("T-sig", "T", d(65, 2), None, Some("oid"), false)];
    let mut once = vec![pos("T", d(55, 2), T0, None), pos("U", d(55, 2), T0, None)];
    let mut twice = once.clone();
    let r1 = apply_startup_items(&mut once, &[adopt.clone()], &recon, 0, T0 + 1).unwrap();
    let r2 = apply_startup_items(&mut twice, &[adopt.clone(), adopt], &recon, 0, T0 + 1).unwrap();
    assert_eq!(once, twice);
    assert_eq!(once[0].maker_exit, Some(placed("oid", d(65, 2), T0 + 1)));
    assert!(once[1].maker_exit.is_none());
    assert_eq!((r1.adopted, r2.adopted), (1, 2));
}

fn poll_action(due: bool, bid: Option<Dec>) -> PollAction {
    PollAction {
        signal_id: "T-sig".into(),
        token_id: "T".into(),
        order_id: "oid".into(),
        orig: d(100, 1),
        target: d(65, 2),
        entry: d(55, 2),
        due,
        exit_ts_s: T0 / 1000,
        bid,
    }
}

fn why(step: Option<B3Step>) -> HoldReason {
    match step {
        Some(B3Step::Hold { why, .. }) => why,
        o => panic!("expected Hold, got {o:?}"),
    }
}

#[test]
fn each_reason_to_hold_has_its_reply() {
    let a = poll_action(true, None);
    assert_eq!(why(after_poll(&a, None)), HoldReason::CallFailed);
    assert_eq!(why(after_reconcile(&a, None)), HoldReason::CallFailed);
    let live = Some((MakerOrderStatus::Live, d(30, 1)));
    assert_eq!(why(after_reconcile(&a, live)), HoldReason::Deferred);
    let part = Some((MakerOrderStatus::Cancelled, d(30, 1)));
    assert_eq!(why(after_reconcile(&a, part)), HoldReason::NoBidForRest);
    let none = Some((MakerOrderStatus::Cancelled, d(0, 0)));
    assert_eq!(why(after_reconcile(&a, none)), HoldReason::NoBidForLot);
    let early = poll_action(false, None);
    assert_eq!(why(after_poll(&early, Some((MakerOrderStatus::Live, d(30, 1))))), HoldReason::Working);
    assert_eq!(why(after_poll(&early, Some((MakerOrderStatus::Live, d(0, 0))))), HoldReason::Waiting);
    let sold = after_whole_sold(&"T-sig".to_string(), d(100, 1), d(55, 2), d(54, 2), ExitKind::B3Fallback, None);
    assert_eq!(why(sold), HoldReason::CallFailed);
}

#[test]
fn the_target_is_at_the_distance_of_the_rule() {
    let p = pos("T", d(55, 2), T0, None);
    let q = Some(EventBbo { best_bid: Some(Num::Finite(d(55, 2))), ts_ms: T0 });
    let with_delta = |delta: Num| {
        let mut c = cfg();
        c.cells[0].rule = ExitRule::B3Maker { delta, fallback: B3Fallback::F2Market };
        c
    };
    match choose_action(&p, &with_delta(Num::Finite(d(5, 2))), q, T0) {
        Some(B3Action::Place(a)) => assert!(same(a.target, d(60, 2))),
        o => panic!("expected an order, got {o:?}"),
    }
    match choose_action(&p, &cfg(), q, T0) {
        Some(B3Action::Place(a)) => assert!(same(a.target, d(65, 2))),
        o => panic!("expected an order, got {o:?}"),
    }
    assert!(choose_action(&p, &with_delta(Num::Finite(d(45, 2))), q, T0).is_none());
    assert!(choose_action(&p, &with_delta(Num::NotANumber), q, T0).is_none());
    let inf = Num::Infinite { negative: false };
    assert!(choose_action(&p, &with_delta(inf), q, T0).is_none());
    // An order that is already there is watched whatever the rule says.
    let watched = pos("T", d(55, 2), T0, Some(placed("oid", d(65, 2), T0)));
    assert!(matches!(
        choose_action(&watched, &with_delta(Num::NotANumber), q, T0),
        Some(B3Action::Poll(_))
    ));
}

#[test]
fn only_sell_orders_are_adopted() {
    let recon = vec![rp("A", "T", d(65, 2), None, None, true)];
    let sell = ord("X", "T", d(65, 2), d(10, 0), d(0, 0));
    let buy = OpenOrderRow { is_sell: false, ..sell.clone() };
    assert_eq!(
        orphan_decisions(&[buy.clone()], &recon),
        vec![ReconItem::CancelOrphan { order_id: "X".into() }]
    );
    assert_eq!(
        orphan_decisions(&[sell.clone()], &recon),
        vec![ReconItem::Adopt { signal_id: "A".into(), order_id: "X".into() }]
    );
    // A buy order at the same price makes the sell order no less certain.
    let other = OpenOrderRow { order_id: "Y".into(), size_matched: d(1, 0), ..buy };
    assert_eq!(
        orphan_decisions(&[sell, other], &recon),
        vec![
            ReconItem::Adopt { signal_id: "A".into(), order_id: "X".into() },
            ReconItem::CancelOrphan { order_id: "Y".into() },
        ]
    );
}
