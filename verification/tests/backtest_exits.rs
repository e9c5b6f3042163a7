use rust_bot::backtest::book::{key_to_price, price_to_key, BookSide, FullBook};
use rust_bot::backtest::dca::{
    compute_dca_breakdown, compute_entry_filter_summary, is_low_sample, summarize_trades,
};
use rust_bot::backtest::entry_filter::interval_secs_for;
use rust_bot::backtest::exits::{decide_exit_for_variant, ExitReason, ExitVariant};
use rust_bot::backtest::metrics::{
    compute_metrics, evaluate_variant, flag_reason, net_pnl_for, tally, VariantTrade,
};
use rust_bot::backtest::peak::{
    characterize_position, pct_buckets_0_to_100_step10, peak_report, quantile_sorted,
    significant_peaks, sorted_measures, Measure,
};
use rust_bot::backtest::position::CollectedPosition;
use rust_bot::backtest::trace::{trace_exits, trace_row};
use rust_bot::backtest::variants::{default_variants, parse_variants, VariantError, VariantFault};
use rust_bot::config::Num;
use rust_bot::decimal::Dec;
use rust_bot::numeral::read_value;

fn d(num: i64, scale: u32) -> Dec {
    Dec::new(num, scale)
}

fn same(a: Dec, b: Dec) -> bool {
    !a.less_than(b) && !b.less_than(a)
}

/// A price of four decimals as its key.
fn key(p: f64) -> u32 {
    (p * 10_000.0).round() as u32
}

/// A number as it is written.
fn num(x: f64) -> Num {
    let chars: Vec<char> = format!("{x}").chars().collect();
    read_value(&chars).unwrap()
}

/// A lot in millionths of a share.
fn lot_of(s: f64) -> u64 {
    (s * 1_000_000.0).round() as u64
}

fn levels(v: &[(f64, f64)]) -> Vec<(u32, Num)> {
    v.iter().map(|&(p, s)| (key(p), num(s))).collect()
}

/// What a whole lot brings at a price.
fn worth(price: f64, shares: u64) -> u128 {
    key(price) as u128 * shares as u128
}

const NONE: f64 = -1.0;

fn mk_position(
    asset: &str,
    interval: &str,
    entry: f64,
    shares: f64,
    trajectory: Vec<f64>,
    time_exit_bid: Option<f64>,
) -> CollectedPosition {
    let shares = lot_of(shares);
    let traj: Vec<(i64, Option<u128>)> = trajectory
        .into_iter()
        .enumerate()
        .map(|(i, b)| {
            (1_000 + i as i64 * 100, if b < 0.0 { None } else { Some(worth(b, shares)) })
        })
        .collect();
    let epoch = (1700_i64 / interval_secs_for(interval)) * interval_secs_for(interval);
    CollectedPosition {
        token: format!("tok-{asset}-{interval}"),
        asset: asset.to_string(),
        interval: interval.to_string(),
        epoch,
        direction: "Up".to_string(),
        signal_id: format!("{asset}-1700-{interval}-Up"),
        entry_recv_ms: 1_000,
        entry_price: key(entry),
        shares,
        exit_ts_ms: 9_999_999,
        uncoverable_samples: traj.iter().filter(|(_, b)| b.is_none()).count(),
        total_samples: traj.len(),
        trajectory_bbo: traj.iter().map(|(ms, _)| (*ms, None, None)).collect(),
        trajectory: traj,
        time_exit_bid: time_exit_bid.map(|b| worth(b, shares)),
        trigger_close: num(0.0),
        trigger_ret_bps: num(0.0),
        maker_fee_bps: 0,
        taker_fee_bps: 0,
        fee_type: String::new(),
        entry_trigger_ts_ms: 0,
        obi_top1: None,
        obi_top3: None,
        binance_close_at_2s: None,
        binance_close_at_5s: None,
        binance_close_at_10s: None,
        binance_close_at_30s: None,
        binance_close_at_60s: None,
        binance_close_at_120s: None,
        vol_30m: None,
        vol_60m: None,
    }
}

fn pct(x: i64) -> Dec {
    d(x, 0)
}

#[test]
fn g8_pre_tp_apply_snapshot_resets_and_populates() {
    let mut b = FullBook::default();
    b.apply_price_change(key(0.50), num(100.0), BookSide::Bid, 1_000);
    b.apply_price_change(key(0.51), num(200.0), BookSide::Ask, 1_000);
    b.apply_snapshot(
        &levels(&[(0.40, 5.0), (0.42, 10.0)]),
        &levels(&[(0.55, 7.0), (0.60, 3.0)]),
        2_000,
    );
    assert_eq!(b.best_bid(), Some(key(0.42)));
    assert_eq!(b.best_ask(), Some(key(0.55)));
    assert_eq!(b.bids.len(), 2);
    assert_eq!(b.asks.len(), 2);
    assert_eq!(b.last_update_ms, 2_000);
}

#[test]
fn g8_pre_tp_apply_price_change_is_absolute() {
    let mut b = FullBook::default();
    let k = price_to_key(d(50, 2));
    assert_eq!(k, key(0.50));
    b.apply_price_change(k, num(100.0), BookSide::Bid, 1_000);
    assert_eq!(b.bids.get(&k), Some(&num(100.0)));
    b.apply_price_change(k, num(50.0), BookSide::Bid, 1_001);
    assert_eq!(b.bids.get(&k), Some(&num(50.0)), "size is absolute, not delta-added");
    b.apply_price_change(k, num(0.0), BookSide::Bid, 1_002);
    assert!(!b.bids.contains_key(&k));
    b.apply_price_change(k, num(75.0), BookSide::Bid, 1_003);
    assert_eq!(b.bids.get(&k), Some(&num(75.0)));
}

#[test]
fn g8_pre_tp_best_bid_and_ask_return_extremes() {
    let mut b = FullBook::default();
    b.apply_snapshot(
        &levels(&[(0.40, 1.0), (0.42, 1.0), (0.45, 1.0)]),
        &levels(&[(0.55, 1.0), (0.50, 1.0), (0.48, 1.0)]),
        0,
    );
    assert_eq!(b.best_bid(), Some(key(0.45)));
    assert_eq!(b.best_ask(), Some(key(0.48)));
}

#[test]
fn g8_pre_tp_executable_bid_single_level_consumes_partial_num() {
    let mut b = FullBook::default();
    b.apply_snapshot(&levels(&[(0.50, 100.0)]), &[], 0);
    let total = b.executable_bid_for_shares(lot_of(25.0)).unwrap();
    assert_eq!(total, worth(0.50, lot_of(25.0)));
}

#[test]
fn g8_pre_tp_executable_bid_walks_stack_when_top_thin() {
    let mut b = FullBook::default();
    b.apply_snapshot(&levels(&[(0.30, 50.0), (0.50, 0.1)]), &[], 0);
    let total = b.executable_bid_for_shares(lot_of(25.0)).unwrap();
    assert_eq!(total, worth(0.3008, lot_of(25.0)));
    assert!(total < worth(0.31, lot_of(25.0)), "dragged down by the thin top");
}

#[test]
fn g8_pre_tp_executable_bid_returns_none_when_total_depth_insufficient() {
    let mut b = FullBook::default();
    b.apply_snapshot(&levels(&[(0.30, 5.0), (0.50, 0.1)]), &[], 0);
    assert_eq!(b.executable_bid_for_shares(lot_of(100.0)), None);
}

#[test]
fn g8_pre_tp_executable_bid_empty_book_is_none() {
    let b = FullBook::default();
    assert_eq!(b.executable_bid_for_shares(lot_of(1.0)), None);
}

#[test]
fn g8_pre_tp_executable_bid_exact_full_stack_consume_is_ok() {
    let mut b = FullBook::default();
    b.apply_snapshot(&levels(&[(0.30, 5.0), (0.50, 5.0)]), &[], 0);
    let total = b.executable_bid_for_shares(lot_of(10.0)).unwrap();
    assert_eq!(total, worth(0.40, lot_of(10.0)));
}

#[test]
fn g8_pre_tp_book_side_from_polymarket_strings() {
    assert_eq!(BookSide::from_str("BUY"), Some(BookSide::Bid));
    assert_eq!(BookSide::from_str("SELL"), Some(BookSide::Ask));
    assert_eq!(BookSide::from_str("buy"), None);
    assert_eq!(BookSide::from_str("invalid"), None);
}

#[test]
fn g8_pre_tp_price_to_key_roundtrips_and_orders() {
    for p in [d(1, 4), d(1, 2), d(10, 2), d(50, 2), d(99, 2), d(1, 0)] {
        let k = price_to_key(p);
        assert!(same(p, key_to_price(k)), "roundtrip of key {k}");
    }
    assert!(price_to_key(d(50, 2)) > price_to_key(d(49, 2)));
    assert!(price_to_key(d(49, 2)) < price_to_key(d(50, 2)));
}

#[test]
fn g8_pre_tp_variant_baseline_uses_time_exit_bid() {
    let p = mk_position("BTC", "5m", 0.40, 2.625, vec![0.42, 0.45, 0.41], Some(0.41));
    let (v, reason) = decide_exit_for_variant(&p, ExitVariant::Baseline);
    assert_eq!(v, worth(0.41, p.shares));
    assert_eq!(reason, ExitReason::TimeExit);
}

#[test]
fn g8_pre_tp_variant_baseline_uncoverable_when_no_time_exit_bid() {
    let p = mk_position("BTC", "5m", 0.40, 2.625, vec![NONE, NONE], None);
    let (v, reason) = decide_exit_for_variant(&p, ExitVariant::Baseline);
    assert_eq!(v, 0);
    assert_eq!(reason, ExitReason::Uncoverable);
}

#[test]
fn g8_pre_tp_variant_first_touch_exits_at_first_threshold_cross() {
    let p = mk_position("BTC", "5m", 0.40, 2.625, vec![0.41, 0.43, 0.45, 0.50, 0.42], Some(0.42));
    let (v, reason) = decide_exit_for_variant(&p, ExitVariant::FirstTouch { tp_pct: 10 });
    assert_eq!(v, worth(0.45, p.shares), "exits at FIRST touch (0.45), not peak (0.50)");
    assert_eq!(reason, ExitReason::TpTouched);
}

#[test]
fn g8_pre_tp_variant_first_touch_falls_back_to_time_exit_when_never_touched() {
    let p = mk_position("BTC", "5m", 0.40, 2.625, vec![0.41, 0.43, 0.45, 0.50, 0.42], Some(0.42));
    let (v, reason) = decide_exit_for_variant(&p, ExitVariant::FirstTouch { tp_pct: 30 });
    assert_eq!(v, worth(0.42, p.shares));
    assert_eq!(reason, ExitReason::TimeExit);
}

#[test]
fn g8_pre_tp_variant_peak_returns_maximum_in_window() {
    let p = mk_position("BTC", "5m", 0.40, 2.625, vec![0.41, 0.43, 0.45, 0.50, 0.42], Some(0.42));
    let (v, reason) = decide_exit_for_variant(&p, ExitVariant::Peak);
    assert_eq!(v, worth(0.50, p.shares));
    assert_eq!(reason, ExitReason::PeakOpportunity);
}

#[test]
fn g8_pre_tp_variant_first_touch_ignores_nan_samples_uncoverable_moments() {
    let p = mk_position("BTC", "5m", 0.40, 2.625, vec![NONE, NONE, 0.45, NONE, 0.42], Some(0.42));
    let (v, reason) = decide_exit_for_variant(&p, ExitVariant::FirstTouch { tp_pct: 10 });
    assert_eq!(v, worth(0.45, p.shares));
    assert_eq!(reason, ExitReason::TpTouched);
}

#[test]
fn g8_pre_tp_net_pnl_for_winner_is_positive_with_fees() {
    let net = net_pnl_for(d(2625, 3), d(40, 2), d(1, 0)).unwrap();
    assert!(same(net, d(15309, 4)), "got {}", net.to_text());
}

#[test]
fn g8_pre_tp_net_pnl_for_loser_is_negative_full_entry_cost_plus_buy_fee() {
    let net = net_pnl_for(d(2625, 3), d(40, 2), d(0, 0)).unwrap();
    assert!(same(net, d(-10941, 4)), "got {}", net.to_text());
}

#[test]
fn g8_pre_tp_parse_variants_handles_baseline_tp_and_peak() {
    let vs = parse_variants("0,10,25,peak").unwrap();
    assert_eq!(vs.len(), 4);
    assert_eq!(vs[0], ExitVariant::Baseline);
    assert_eq!(vs[1], ExitVariant::FirstTouch { tp_pct: 10 });
    assert_eq!(vs[2], ExitVariant::FirstTouch { tp_pct: 25 });
    assert_eq!(vs[3], ExitVariant::Peak);
}

#[test]
fn g8_pre_tp_parse_variants_default_grid_matches_spec() {
    let vs = default_variants();
    assert_eq!(vs.len(), 10);
    assert_eq!(vs[0], ExitVariant::Baseline);
    assert_eq!(vs[9], ExitVariant::Peak);
}

#[test]
fn g8_pre_tp_parse_variants_rejects_negative_and_empty() {
    assert!(parse_variants("").is_err());
    assert!(parse_variants("-10").is_err());
}

fn trade(p: &CollectedPosition, exit: Dec, reason: ExitReason, net: Dec) -> VariantTrade<'_> {
    VariantTrade { position: p, exit_price: exit, exit_reason: reason, net_pnl: net }
}

#[test]
fn g8_pre_tp_metrics_compute_aggregate_and_per_cell() {
    let a = mk_position("BTC", "5m", 0.40, 2.625, vec![], Some(0.50));
    let b = mk_position("BTC", "5m", 0.40, 2.625, vec![], Some(0.30));
    let c = mk_position("ETH", "15m", 0.40, 2.625, vec![], Some(0.50));
    let e = mk_position("ETH", "15m", 0.40, 2.625, vec![], Some(0.60));
    let trades = vec![
        trade(&a, d(50, 2), ExitReason::TimeExit, d(25, 2)),
        trade(&b, d(30, 2), ExitReason::TimeExit, d(-30, 2)),
        trade(&c, d(50, 2), ExitReason::TpTouched, d(20, 2)),
        trade(&e, d(60, 2), ExitReason::TpTouched, d(40, 2)),
    ];
    let m = compute_metrics(&trades, "test".into()).unwrap();
    assert_eq!(m.n_trades, 4);
    assert_eq!(m.wins, 3, "3/4 wins");
    assert!(same(m.total_pnl, d(55, 2)));
    assert!(same(m.avg_pnl, d(1375, 4)));
    assert_eq!(m.tp_hits, 2, "2/4 TP-touched");
    assert_eq!(m.n_uncoverable, 0);
    assert_eq!(m.by_cell.len(), 2);
    let (name, btc) = &m.by_cell[0];
    assert_eq!(name, "BTC_5m");
    assert_eq!(btc.n_trades, 2);
    assert_eq!(btc.wins, 1);
    let (name, eth) = &m.by_cell[1];
    assert_eq!(name, "ETH_15m");
    assert_eq!(eth.n_trades, 2);
    assert_eq!(eth.wins, 2);
    assert_eq!(eth.tp_hits, 2);
}

#[test]
fn g14_smart_falls_back_to_time_exit_when_never_triggered() {
    let mut p = mk_position(
        "BTC",
        "5m",
        0.50,
        20.0,
        vec![0.51, 0.52, 0.53, 0.54, 0.55, 0.56, 0.57, 0.58, 0.59, 0.60],
        Some(0.60),
    );
    p.exit_ts_ms = 2000;
    let (v, reason) = decide_exit_for_variant(&p, ExitVariant::Smart { x_pct: pct(50), y_sec: 1 });
    assert_eq!(v, worth(0.60, p.shares), "fallback to time-exit bid=0.60");
    assert_eq!(reason, ExitReason::TimeExit);
}

#[test]
fn g14_smart_triggers_when_both_conditions_met() {
    let mut p = mk_position(
        "BTC",
        "5m",
        0.50,
        20.0,
        vec![0.55, 0.60, 0.65, 0.70, 0.70, 0.70, 0.70, 0.70, 0.70, 0.70],
        Some(0.70),
    );
    p.exit_ts_ms = 2200;
    let (v, reason) = decide_exit_for_variant(&p, ExitVariant::Smart { x_pct: pct(30), y_sec: 0 });
    assert_eq!(v, worth(0.70, p.shares));
    assert_eq!(reason, ExitReason::SmartTriggered);
}

#[test]
fn g14_smart_never_reaches_high_x_falls_back() {
    let mut p = mk_position("BTC", "5m", 0.50, 20.0, vec![0.55, 0.60, 0.55, 0.55, 0.55], Some(0.55));
    p.exit_ts_ms = 1600;
    let (v, reason) = decide_exit_for_variant(&p, ExitVariant::Smart { x_pct: pct(200), y_sec: 0 });
    assert_eq!(v, worth(0.55, p.shares));
    assert_eq!(reason, ExitReason::TimeExit);
}

#[test]
fn g14_parse_variants_handles_smart_syntax() {
    let v = parse_variants("0,smart:50:30,peak,smart:70:60").unwrap();
    assert_eq!(v.len(), 4);
    assert_eq!(v[0], ExitVariant::Baseline);
    assert_eq!(v[1], ExitVariant::Smart { x_pct: pct(50), y_sec: 30 });
    assert_eq!(v[2], ExitVariant::Peak);
    assert_eq!(v[3], ExitVariant::Smart { x_pct: pct(70), y_sec: 60 });
}

#[test]
fn g14_parse_variants_rejects_bad_smart() {
    assert!(parse_variants("smart:50").is_err());
    assert!(parse_variants("smart:50:30:extra").is_err());
    assert!(parse_variants("smart:150:30").is_err(), "X > 100 must reject");
    assert!(parse_variants("smart:-5:30").is_err(), "X < 0 must reject");
    assert!(parse_variants("smart:50:-10").is_err());
    assert!(parse_variants("smart:abc:30").is_err());
}

#[test]
fn g14_smart_variant_label_format() {
    let v = ExitVariant::Smart { x_pct: pct(70), y_sec: 30 };
    assert_eq!(v.label(), "smart_x70_y30s");
}

#[test]
fn g15_trailing_triggers_on_drop_from_max() {
    let p = mk_position("BTC", "5m", 0.50, 20.0, vec![0.65, 0.70, 0.75, 0.80, 0.76, 0.74], Some(0.74));
    let (v, reason) = decide_exit_for_variant(&p, ExitVariant::Trailing { z_pct: pct(2) });
    assert_eq!(v, worth(0.76, p.shares));
    assert_eq!(reason, ExitReason::TrailingTriggered);
}

#[test]
fn g15_trailing_never_triggers_when_bid_rises_monotonically() {
    let p = mk_position("BTC", "5m", 0.50, 20.0, vec![0.55, 0.60, 0.65, 0.70, 0.75, 0.80], Some(0.80));
    let (v, reason) = decide_exit_for_variant(&p, ExitVariant::Trailing { z_pct: pct(2) });
    assert_eq!(v, worth(0.80, p.shares));
    assert_eq!(reason, ExitReason::TimeExit);
}

#[test]
fn g15_spread_filtered_trailing_skips_when_spread_too_wide() {
    let mut p =
        mk_position("BTC", "5m", 0.50, 20.0, vec![0.65, 0.70, 0.75, 0.80, 0.76, 0.74], Some(0.74));
    p.trajectory_bbo =
        p.trajectory.iter().map(|(ms, _)| (*ms, Some(key(0.40)), Some(key(0.50)))).collect();
    let (v, reason) = decide_exit_for_variant(
        &p,
        ExitVariant::SpreadFilteredTrailing { z_pct: pct(2), max_spread: num(0.05) },
    );
    assert_eq!(reason, ExitReason::TimeExit);
    assert_eq!(v, worth(0.74, p.shares));
}

#[test]
fn g15_spread_filtered_trailing_fires_when_spread_tight() {
    let mut p =
        mk_position("BTC", "5m", 0.50, 20.0, vec![0.65, 0.70, 0.75, 0.80, 0.76, 0.74], Some(0.74));
    p.trajectory_bbo =
        p.trajectory.iter().map(|(ms, _)| (*ms, Some(key(0.74)), Some(key(0.76)))).collect();
    let (v, reason) = decide_exit_for_variant(
        &p,
        ExitVariant::SpreadFilteredTrailing { z_pct: pct(2), max_spread: num(0.05) },
    );
    assert_eq!(reason, ExitReason::TrailingTriggered);
    assert_eq!(v, worth(0.76, p.shares));
}

#[test]
fn g15_time_capped_trailing_does_not_trigger_before_x_pct() {
    let mut p = mk_position(
        "BTC",
        "5m",
        0.50,
        20.0,
        vec![0.65, 0.70, 0.75, 0.80, 0.76, 0.78, 0.76, 0.74, 0.74, 0.74],
        Some(0.74),
    );
    p.exit_ts_ms = 2000;
    let (v, reason) = decide_exit_for_variant(
        &p,
        ExitVariant::TimeCappedTrailing { x_pct: pct(80), z_pct: pct(2) },
    );
    assert_eq!(reason, ExitReason::TrailingTriggered);
    assert_eq!(v, worth(0.74, p.shares));
}

#[test]
fn g15_f6only_triggers_on_time_since_max() {
    let mut p = mk_position(
        "BTC",
        "5m",
        0.50,
        20.0,
        vec![0.65, 0.70, 0.75, 0.80, 0.80, 0.78, 0.76, 0.78, 0.78, 0.79],
        Some(0.79),
    );
    p.exit_ts_ms = 2100;
    let (v, reason) = decide_exit_for_variant(&p, ExitVariant::F6Only { y_sec: 0 });
    assert_eq!(v, worth(0.65, p.shares));
    assert_eq!(reason, ExitReason::F6Triggered);
}

#[test]
fn g15_parse_variants_handles_new_forms() {
    let v = parse_variants("0,trailing:2,strail:3:0.05,ctrail:50:2,f6:30").unwrap();
    assert_eq!(v.len(), 5);
    assert_eq!(v[0], ExitVariant::Baseline);
    assert_eq!(v[1], ExitVariant::Trailing { z_pct: pct(2) });
    assert_eq!(v[2], ExitVariant::SpreadFilteredTrailing { z_pct: pct(3), max_spread: num(0.05) });
    assert_eq!(v[3], ExitVariant::TimeCappedTrailing { x_pct: pct(50), z_pct: pct(2) });
    assert_eq!(v[4], ExitVariant::F6Only { y_sec: 30 });
}

#[test]
fn g15_parse_variants_rejects_bad_new_forms() {
    assert!(parse_variants("trailing:150").is_err(), "Z > 100 must reject");
    assert!(parse_variants("strail:2").is_err(), "missing S");
    assert!(parse_variants("strail:2:5").is_err(), "S > 1 dollar must reject");
    assert!(parse_variants("ctrail:50").is_err(), "missing Z");
    assert!(parse_variants("f6:-5").is_err(), "negative Y must reject");
}

/// A lot as the live bot ticks it: its high begins with what was paid, and only
/// a higher bid that is fresh raises it.
fn simulate_live(
    p: &CollectedPosition,
    triggers: impl Fn(i64, i64) -> bool,
    reason: ExitReason,
) -> (u128, ExitReason) {
    let mut high = worth(0.0001, p.shares) * p.entry_price as u128;
    let mut high_ms = p.entry_recv_ms;
    let mut quote: Option<(i64, u128)> = None;
    for &(ms, bid) in &p.trajectory {
        if let Some(v) = bid {
            quote = Some((ms, v));
        }
        if let Some((seen, v)) = quote {
            if ms - seen <= 5_000 && v > high {
                high = v;
                high_ms = ms;
            }
        }
        if let Some(v) = bid {
            if triggers(ms, high_ms) {
                return (v, reason);
            }
        }
    }
    match p.time_exit_bid {
        Some(v) => (v, ExitReason::TimeExit),
        None => (0, ExitReason::Uncoverable),
    }
}

fn live_smart(p: &CollectedPosition, x_pct: f64, y_sec: i64) -> (u128, ExitReason) {
    let hold = (p.exit_ts_ms - p.entry_recv_ms).max(1) as f64;
    let entry = p.entry_recv_ms;
    simulate_live(
        p,
        |now, high_ms| {
            (now - entry) as f64 / hold * 100.0 >= x_pct && now - high_ms >= y_sec * 1000
        },
        ExitReason::SmartTriggered,
    )
}

fn live_f6(p: &CollectedPosition, y_sec: i64) -> (u128, ExitReason) {
    simulate_live(p, |now, high_ms| now - high_ms >= y_sec * 1000, ExitReason::F6Triggered)
}

#[test]
fn parity_smart_triggers_at_same_sample_simple() {
    let mut p = mk_position(
        "BTC",
        "5m",
        0.50,
        20.0,
        vec![0.55, 0.60, 0.65, 0.70, 0.70, 0.70, 0.70, 0.70, 0.70, 0.70],
        Some(0.70),
    );
    p.exit_ts_ms = 2200;
    let bt = decide_exit_for_variant(&p, ExitVariant::Smart { x_pct: pct(30), y_sec: 0 });
    assert_eq!(bt, live_smart(&p, 30.0, 0));
}

#[test]
fn parity_smart_falls_back_to_time_exit_both_paths() {
    let mut p = mk_position(
        "BTC",
        "5m",
        0.50,
        20.0,
        vec![0.51, 0.52, 0.53, 0.54, 0.55, 0.56, 0.57, 0.58, 0.59, 0.60],
        Some(0.60),
    );
    p.exit_ts_ms = 2000;
    let bt = decide_exit_for_variant(&p, ExitVariant::Smart { x_pct: pct(50), y_sec: 1 });
    assert_eq!(bt, live_smart(&p, 50.0, 1), "both must fall back to time_exit at 0.60");
    assert_eq!(bt.1, ExitReason::TimeExit);
}

#[test]
fn parity_f6_only_triggers_at_same_sample() {
    let mut p = mk_position(
        "BTC",
        "5m",
        0.50,
        20.0,
        vec![0.65, 0.70, 0.75, 0.80, 0.80, 0.78, 0.76, 0.78, 0.78, 0.79],
        Some(0.79),
    );
    p.exit_ts_ms = 2100;
    let bt = decide_exit_for_variant(&p, ExitVariant::F6Only { y_sec: 0 });
    assert_eq!(bt, live_f6(&p, 0));
    assert_eq!(bt.1, ExitReason::F6Triggered);
}

#[test]
fn parity_smart_preserves_running_max_across_gap() {
    let mut p = mk_position("BTC", "5m", 0.50, 20.0, vec![], Some(0.55));
    let s = p.shares;
    p.trajectory = vec![
        (1_000, Some(worth(0.70, s))),
        (2_000, None),
        (3_000, None),
        (4_000, None),
        (5_000, None),
        (6_000, None),
        (7_000, None),
        (8_000, None),
        (9_000, Some(worth(0.60, s))),
        (44_000, Some(worth(0.55, s))),
    ];
    p.trajectory_bbo = p.trajectory.iter().map(|(ms, _)| (*ms, None, None)).collect();
    p.uncoverable_samples = 7;
    p.total_samples = 10;
    p.exit_ts_ms = 120_000;
    let bt = decide_exit_for_variant(&p, ExitVariant::Smart { x_pct: pct(10), y_sec: 30 });
    assert_eq!(bt, live_smart(&p, 10.0, 30), "gap-preserved parity");
    assert_eq!(bt.1, ExitReason::SmartTriggered, "must trigger post-gap");
    assert!(bt.0 == worth(0.60, s) || bt.0 == worth(0.55, s));
}

#[test]
fn parity_smart_with_bid_below_entry_price_seed_alignment() {
    let mut p = mk_position(
        "BTC",
        "5m",
        0.55,
        20.0,
        vec![0.50, 0.50, 0.51, 0.52, 0.58, 0.58, 0.58, 0.58, 0.58, 0.58],
        Some(0.58),
    );
    p.exit_ts_ms = 2200;
    let bt = decide_exit_for_variant(&p, ExitVariant::Smart { x_pct: pct(30), y_sec: 0 });
    assert_eq!(bt, live_smart(&p, 30.0, 0), "seed-aligned parity");
    assert_eq!(bt.1, ExitReason::SmartTriggered);
    assert_eq!(bt.0, worth(0.58, p.shares), "must trigger at bid=0.58");
}

#[test]
fn g8_pre_tp_metrics_uncoverable_counter_aggregates() {
    let a = mk_position("BTC", "5m", 0.40, 2.625, vec![], None);
    let b = mk_position("BTC", "5m", 0.40, 2.625, vec![], Some(0.45));
    let trades = vec![
        trade(&a, d(0, 0), ExitReason::Uncoverable, d(-11, 1)),
        trade(&b, d(45, 2), ExitReason::TimeExit, d(10, 2)),
    ];
    let m = compute_metrics(&trades, "test".into()).unwrap();
    assert_eq!(m.n_uncoverable, 1);
    assert_eq!(m.n_trades, 2);
}

#[test]
fn g8_pre_tp_characterize_position_empty_trajectory_returns_none_peak() {
    let pos = mk_position("BTC", "5m", 0.50, 20.0, vec![NONE, NONE, NONE], None);
    let stats = characterize_position(&pos);
    assert!(stats.peak_bid.is_none());
    assert!(stats.peak_pnl.is_none());
    assert!(stats.peak_offset_ms.is_none());
    assert!(stats.peak_excess_pnl.is_none());
    assert!(stats.peak_excess_pct_over_stake.is_none());
    assert_eq!(stats.time_in_top_decile_ms, 0);
    assert_eq!(stats.samples_in_top_decile, 0);
    assert_eq!(stats.top_decile_span_ms, 0);
    assert_eq!(stats.asset, "BTC");
    assert_eq!(stats.interval, "5m");
    assert!(stats.hold_duration_ms >= 1);
    assert!(sorted_measures(&[stats], Measure::OffsetPct, None).is_empty());
}

#[test]
fn g8_pre_tp_characterize_position_meseta_vs_pico_distinct_top_decile_ms() {
    let pos_pico = mk_position(
        "BTC",
        "5m",
        0.50,
        20.0,
        vec![0.50, 0.50, 0.50, 0.50, 0.50, 0.60, 0.50, 0.50, 0.50, 0.50],
        Some(0.50),
    );
    let s_pico = characterize_position(&pos_pico);
    let pos_meseta = mk_position(
        "BTC",
        "5m",
        0.50,
        20.0,
        vec![0.50, 0.50, 0.50, 0.60, 0.58, 0.57, 0.56, 0.55, 0.50, 0.50],
        Some(0.50),
    );
    let s_meseta = characterize_position(&pos_meseta);
    assert_eq!(s_pico.peak_bid, Some(worth(0.60, pos_pico.shares)));
    assert_eq!(s_meseta.peak_bid, Some(worth(0.60, pos_meseta.shares)));
    assert!(s_meseta.time_in_top_decile_ms > 3 * s_pico.time_in_top_decile_ms);
    assert!(s_meseta.samples_in_top_decile >= 5);
    assert_eq!(s_pico.samples_in_top_decile, 1);
    assert!(s_meseta.top_decile_span_ms > s_pico.top_decile_span_ms);

    let report = peak_report(&[s_pico, s_meseta]);
    assert_eq!(report.n_total, 2);
    assert_eq!(report.n_coverable, 2);
    assert_eq!(report.offset_ms, vec![300, 500]);
    assert_eq!(report.by_cell.len(), 1);
    assert_eq!(report.by_cell[0].0, "BTC_5m");
    assert_eq!(report.significant.len(), 5);
}

#[test]
fn quantiles_and_buckets() {
    assert_eq!(quantile_sorted(&[10, 20, 30], 50), 2000);
    assert_eq!(quantile_sorted(&[10, 20], 50), 1500);
    assert_eq!(quantile_sorted(&[7], 99), 700);
    let b = pct_buckets_0_to_100_step10(&[0, 9_999_999, 10_000_000, 100_000_000]);
    assert_eq!(b.len(), 11);
    assert_eq!((b[0], b[1], b[10]), (2, 1, 1));
    assert_eq!(significant_peaks(&[], 5), 0);
}

#[test]
fn faults_of_policies_are_told_apart() {
    match parse_variants("10,smart:50") {
        Err(VariantError::Bad { fault, token }) => {
            assert_eq!(fault, VariantFault::SmartParts);
            assert_eq!(token, "smart:50");
        }
        o => panic!("expected a fault, got {o:?}"),
    }
    assert!(matches!(parse_variants(" , "), Err(VariantError::Empty)));
    for (spec, fault) in [
        ("smart:x:1", VariantFault::SmartX),
        ("smart:1:y", VariantFault::SmartY),
        ("smart:101:1", VariantFault::SmartXRange),
        ("smart:1:-1", VariantFault::SmartYRange),
        ("trailing:q", VariantFault::TrailingZ),
        ("trailing:101", VariantFault::TrailingZRange),
        ("strail:1", VariantFault::StrailParts),
        ("strail:q:0.1", VariantFault::StrailZ),
        ("strail:1:q", VariantFault::StrailS),
        ("ctrail:1", VariantFault::CtrailParts),
        ("ctrail:q:1", VariantFault::CtrailX),
        ("ctrail:1:q", VariantFault::CtrailZ),
        ("strail:101:0.1", VariantFault::StrailZRange),
        ("strail:1:1.01", VariantFault::StrailSRange),
        ("strail:1:-0.01", VariantFault::StrailSRange),
        ("ctrail:101:1", VariantFault::CtrailXRange),
        ("ctrail:1:101", VariantFault::CtrailZRange),
        ("f6:q", VariantFault::F6Y),
        ("f6:-1", VariantFault::F6YRange),
        ("five", VariantFault::Token),
        ("-5", VariantFault::Negative),
    ] {
        match parse_variants(spec) {
            Err(VariantError::Bad { fault: f, .. }) => assert_eq!(f, fault, "{spec}"),
            o => panic!("expected a fault of {spec}, got {o:?}"),
        }
    }
}

#[test]
fn words_of_exit_reasons_and_labels() {
    assert_eq!(ExitReason::TimeExit.as_str(), "time_exit");
    assert_eq!(ExitReason::TpTouched.as_str(), "tp_touched");
    assert_eq!(ExitReason::PeakOpportunity.as_str(), "peak_opportunity");
    assert_eq!(ExitReason::Uncoverable.as_str(), "uncoverable");
    assert_eq!(ExitVariant::Baseline.label(), "baseline_time_exit");
}

#[test]
fn lots_on_one_side_are_told_from_single_ones() {
    let a = mk_position("BTC", "5m", 0.40, 2.0, vec![], Some(0.50));
    let b = mk_position("BTC", "5m", 0.45, 2.0, vec![], Some(0.50));
    let c = mk_position("ETH", "5m", 0.40, 2.0, vec![], Some(0.50));
    let trades = vec![
        trade(&a, d(50, 2), ExitReason::TimeExit, d(1, 0)),
        trade(&b, d(50, 2), ExitReason::TimeExit, d(-3, 0)),
        trade(&c, d(50, 2), ExitReason::TimeExit, d(5, 0)),
    ];
    let flags = flag_reason(&trades, None);
    let r = compute_dca_breakdown(&trades, &flags);
    assert_eq!(r.n_market_sides_total, 2);
    assert_eq!(r.n_dca_market_sides, 1);
    assert_eq!(r.n_single_market_sides, 1);
    assert_eq!(r.n_positions_dca, 2);
    assert!(same(r.pnl_per_trade_single.unwrap(), d(5, 0)));
    assert!(same(r.pnl_per_trade_dca.unwrap(), d(-1, 0)));
    assert!(same(r.dca_edge.unwrap(), d(-6, 0)));
    assert_eq!((r.n_dca_winners_ms, r.n_dca_losers_ms), (0, 1));
    assert!(same(r.sum_pnl_dca_losers.unwrap(), d(-2, 0)));
    let t = tally(&trades, &flags);
    assert_eq!((t.n, t.wins), (3, 2));
    let s = summarize_trades(&trades, &[], "a0", vec!["2026-05-06".into()], vec![]);
    assert_eq!(s.n_trades_total, 3);
    assert_eq!(s.by_cell.len(), 2);
    assert_eq!(s.by_cell[0].0, "BTC_5m");
    assert!(is_low_sample(99) && !is_low_sample(100));
}

#[test]
fn summary_of_lots_that_are_held() {
    let lots = vec![
        mk_position("BTC", "5m", 0.40, 2.625, vec![0.42], Some(1.0)),
        mk_position("BTC", "5m", 0.40, 2.625, vec![0.42], None),
    ];
    let s = compute_entry_filter_summary(&lots, "a0", vec![], vec![]).unwrap();
    assert_eq!(s.n_trades_total, 2);
    assert_eq!(s.wins, 1);
    // 1.5309 for the first, -1.0941 for the second.
    assert!(same(s.total_pnl.unwrap(), d(4368, 4)));
    let trades = evaluate_variant(&lots, ExitVariant::Baseline).unwrap();
    assert!(same(trades[0].exit_price, d(1, 0)));
    assert_eq!(trades[1].exit_reason, ExitReason::Uncoverable);
}

#[test]
fn traces_give_what_was_to_be_had() {
    let mut p = mk_position("BTC", "5m", 0.40, 2.625, vec![], Some(0.41));
    let s = p.shares;
    p.trajectory = vec![
        (2_000, Some(worth(0.42, s))),
        (6_000, Some(worth(0.45, s))),
        (16_000, None),
        (31_000, Some(worth(0.39, s))),
        (121_000, Some(worth(0.90, s))),
    ];
    p.trajectory_bbo = p.trajectory.iter().map(|(ms, _)| (*ms, None, None)).collect();
    p.total_samples = 5;
    p.uncoverable_samples = 1;
    let lots = vec![p];
    let rows = trace_exits(&lots).unwrap();
    assert_eq!(rows.len(), 1);
    let r = &rows[0];
    assert!(same(r.baseline_exit_price, d(41, 2)));
    assert_eq!(r.baseline_exit_reason, ExitReason::TimeExit);
    assert_eq!(r.bid_at_5s, Some(worth(0.45, s)));
    assert_eq!(r.bid_at_15s, None);
    assert_eq!(r.bid_at_30s, Some(worth(0.39, s)));
    assert_eq!(r.bid_at_60s, Some(worth(0.90, s)));
    assert_eq!(r.bid_at_120s, Some(worth(0.90, s)));
    assert_eq!(r.max_bid_120s, Some((worth(0.45, s), 5_000)));
    assert_eq!(r.min_bid_120s, Some((worth(0.39, s), 30_000)));
    assert_eq!(r.hwm_120s.len(), 2);
    assert_eq!(r.lwm_120s.len(), 2);
    let trades = evaluate_variant(&lots, ExitVariant::Baseline).unwrap();
    assert_eq!(trace_row(&trades[0]).bid_at_5s, Some(worth(0.45, s)));
}

#[test]
fn numbers_of_policies_are_kept_as_they_are_written() {
    let v = parse_variants("trailing:0.0000001,trailing:0,strail:0.0000001:0.0000001").unwrap();
    assert_eq!(v[0], ExitVariant::Trailing { z_pct: d(1, 7) });
    assert_eq!(v[1], ExitVariant::Trailing { z_pct: d(0, 0) });
    assert_eq!(
        v[2],
        ExitVariant::SpreadFilteredTrailing { z_pct: d(1, 7), max_spread: Num::Finite(d(1, 7)) }
    );
    let long = "trailing:2.50000000000000000000000000000000001";
    assert_eq!(parse_variants(long).unwrap(), vec![ExitVariant::Trailing { z_pct: d(25, 1) }]);
}

#[test]
fn numbers_of_policies_that_are_not_finite() {
    let fault = |text: &str| match parse_variants(text) {
        Err(VariantError::Bad { fault, .. }) => fault,
        o => panic!("{text}: expected a fault, got {o:?}"),
    };
    assert_eq!(fault("smart:nan:1"), VariantFault::SmartXRange);
    assert_eq!(fault("smart:inf:1"), VariantFault::SmartXRange);
    assert_eq!(fault("trailing:1e40"), VariantFault::TrailingZRange);
    assert_eq!(fault("trailing:-Infinity"), VariantFault::TrailingZRange);
    assert_eq!(fault("strail:nan:nan"), VariantFault::StrailZRange);
    assert_eq!(fault("strail:1:inf"), VariantFault::StrailSRange);
    assert_eq!(fault("ctrail:nan:1"), VariantFault::CtrailXRange);
    assert_eq!(fault("ctrail:1:NAN"), VariantFault::CtrailZRange);
    assert_eq!(fault("trailing:infinit"), VariantFault::TrailingZ);
    let v = parse_variants("strail:0:nan").unwrap();
    assert_eq!(v[0].label(), "strail_z0_s0");
    let mut p = mk_position("BTC", "5m", 0.40, 10.0, vec![0.50, 0.50], Some(0.45));
    p.trajectory_bbo = vec![(1_000, Some(5000), Some(5000)), (1_100, Some(5000), Some(5000))];
    assert_eq!(
        decide_exit_for_variant(&p, v[0]).1,
        ExitReason::TimeExit,
        "no spread is at most what is not a number"
    );
    let v = parse_variants("strail:0:0").unwrap();
    assert_eq!(decide_exit_for_variant(&p, v[0]).1, ExitReason::TrailingTriggered);
}

#[test]
fn a_fall_is_measured_to_the_last_digit() {
    let p = mk_position("BTC", "5m", 0.40, 1.0, vec![0.50, 0.4999], Some(0.45));
    let reason = |z: Dec| decide_exit_for_variant(&p, ExitVariant::Trailing { z_pct: z }).1;
    assert_eq!(reason(d(2, 2)), ExitReason::TrailingTriggered);
    assert_eq!(
        reason(Dec::from_parts(200_000_000_000_000_000_000_000_001, 28).unwrap()),
        ExitReason::TimeExit
    );
    assert_eq!(
        reason(Dec::from_parts(199_999_999_999_999_999_999_999_999, 28).unwrap()),
        ExitReason::TrailingTriggered
    );
    assert_eq!(reason(d(101, 0)), ExitReason::TimeExit);
    assert_eq!(reason(d(-1, 0)), ExitReason::TrailingTriggered);
    let still = mk_position("BTC", "5m", 0.40, 1.0, vec![0.50, 0.50], Some(0.45));
    let tiny = ExitVariant::Trailing { z_pct: Dec::from_parts(1, 28).unwrap() };
    assert_eq!(decide_exit_for_variant(&still, tiny).1, ExitReason::TimeExit);
}

#[test]
fn labels_round_their_numbers() {
    let label = |v: ExitVariant| v.label();
    assert_eq!(label(ExitVariant::Smart { x_pct: d(25, 1), y_sec: 7 }), "smart_x03_y7s");
    assert_eq!(label(ExitVariant::Trailing { z_pct: d(24, 1) }), "trailing_z2pct");
    assert_eq!(label(ExitVariant::Trailing { z_pct: d(-25, 1) }), "trailing_z-3pct");
    let strail =
        |s: Num| label(ExitVariant::SpreadFilteredTrailing { z_pct: d(3, 0), max_spread: s });
    assert_eq!(strail(num(0.045)), "strail_z3_s5");
    assert_eq!(strail(Num::Infinite { negative: false }), "strail_z3_s9223372036854775807");
    assert_eq!(
        label(ExitVariant::TimeCappedTrailing { x_pct: d(50, 0), z_pct: d(15, 1) }),
        "ctrail_x50_z2pct"
    );
}

#[test]
fn rounded_prices_keep_the_order_of_the_proceeds() {
    let mut p = mk_position("BTC", "5m", 0.40, 3.0, vec![], Some(0.45));
    let price = |p: &CollectedPosition, v: ExitVariant| {
        evaluate_variant(std::slice::from_ref(p), v).unwrap()[0].exit_price
    };
    p.trajectory = vec![(1_000, Some(10_000_000_000)), (1_100, Some(10_000_000_001))];
    p.trajectory_bbo = vec![(1_000, None, None), (1_100, None, None)];
    p.total_samples = 2;
    let (first, peak) = (price(&p, ExitVariant::F6Only { y_sec: 0 }), price(&p, ExitVariant::Peak));
    assert_eq!(first.to_text(), "0.3333333333333333333333333333");
    assert_eq!(peak.to_text(), "0.3333333333666666666666666667");
    assert!(first.less_than(peak));
}

#[test]
fn no_rule_sells_above_the_peak() {
    let p = mk_position("BTC", "5m", 0.40, 10.0, vec![0.41, 0.52, 0.47, 0.50], Some(0.45));
    let lots = [p];
    let peak = evaluate_variant(&lots, ExitVariant::Peak).unwrap()[0].exit_price;
    assert!(same(peak, d(52, 2)));
    for v in parse_variants("10,25,smart:0:0,trailing:5,f6:0").unwrap() {
        let t = evaluate_variant(&lots, v).unwrap();
        assert!(!peak.less_than(t[0].exit_price), "{v:?}");
    }
}
