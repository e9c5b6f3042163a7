use rust_bot::backtest::entry_filter::{
    cli_label_for, count_double_sided_markets, count_double_sided_markets_for_cell,
    has_opposite_position, interval_secs_for, market_epoch, parse_entry_filter_labels,
    same_market_side_lots, Direction, EntryFilter, LabelError,
};
use rust_bot::backtest::position::CollectedPosition;
use rust_bot::backtest::trajectory::{
    bid_at_offset, high_water_marks, low_water_marks, max_bid_in_window, min_bid_in_window,
};
use rust_bot::config::Num;
use rust_bot::numeral::read_value;

fn lot(
    asset: &str,
    interval: &str,
    epoch: i64,
    direction: &str,
    entry_recv_ms: i64,
    entry_price: u32,
    trigger_close: Num,
) -> CollectedPosition {
    CollectedPosition {
        token: format!("{asset}-{interval}-{direction}-{epoch}"),
        asset: asset.to_string(),
        interval: interval.to_string(),
        epoch,
        direction: direction.to_string(),
        signal_id: format!("{asset}-{epoch}-{interval}-{direction}-{entry_recv_ms}"),
        entry_recv_ms,
        entry_price,
        shares: 10_000_000,
        exit_ts_ms: 1_000,
        trajectory: Vec::new(),
        trajectory_bbo: Vec::new(),
        time_exit_bid: Some(50_000_000_000),
        uncoverable_samples: 0,
        total_samples: 0,
        trigger_close,
        trigger_ret_bps: num(0.0),
        maker_fee_bps: 0,
        taker_fee_bps: 0,
        fee_type: String::new(),
        entry_trigger_ts_ms: 0,
        obi_top1: None,
        obi_top3: None,
        binance_close_at_2s: None,
        binance_close_at_5s: None,
        binance_close_at_10s: None,
        binance_close_at_30s: None,
        binance_close_at_60s: None,
        binance_close_at_120s: None,
        vol_30m: None,
        vol_60m: None,
    }
}

fn at(asset: &str, interval: &str, epoch: i64, direction: &str) -> CollectedPosition {
    lot(asset, interval, epoch, direction, 0, 5000, num(0.0))
}

/// A number as it is written.
fn num(x: f64) -> Num {
    let chars: Vec<char> = format!("{x}").chars().collect();
    read_value(&chars).unwrap()
}

fn bps(x: f64) -> Num {
    num(x)
}

fn close(x: f64) -> Num {
    num(x)
}

fn key(p: f64) -> u32 {
    (p * 10_000.0).round() as u32
}

const EPOCH: i64 = 1_779_999_900;
const W9_EPOCH: i64 = 1_780_000_000;

#[test]
fn entry_filter_baseline_accepts_everything() {
    let f = EntryFilter::Baseline;
    assert!(f.accept(bps(5.0), Direction::Up, &[], "BTC", "5m", EPOCH, 5000, num(0.0)));
    let positions = vec![at("BTC", "5m", EPOCH, "Down")];
    assert!(f.accept(bps(5.0), Direction::Up, &positions, "BTC", "5m", EPOCH, 5000, num(0.0)));
}

#[test]
fn entry_filter_bps_threshold_rejects_below_and_accepts_at_or_above() {
    let f = EntryFilter::BpsThreshold { min_abs_bps: 6_000_000 };
    assert!(!f.accept(bps(5.5), Direction::Up, &[], "BTC", "5m", 0, 5000, num(0.0)));
    assert!(f.accept(bps(6.0), Direction::Up, &[], "BTC", "5m", 0, 5000, num(0.0)));
    assert!(f.accept(bps(8.5), Direction::Up, &[], "BTC", "5m", 0, 5000, num(0.0)));
    assert!(f.accept(bps(-7.0), Direction::Down, &[], "BTC", "5m", 0, 5000, num(0.0)));
}

#[test]
fn entry_filter_no_opposite_rejects_when_opposite_exists_same_market() {
    let f = EntryFilter::NoOpposite;
    let positions = vec![at("BTC", "5m", EPOCH, "Down")];
    assert!(!f.accept(bps(5.0), Direction::Up, &positions, "BTC", "5m", EPOCH, 5000, num(0.0)));
    assert!(has_opposite_position(&positions, "BTC", "5m", EPOCH, Direction::Up));
}

#[test]
fn entry_filter_no_opposite_accepts_same_side_dca() {
    let f = EntryFilter::NoOpposite;
    let positions = vec![at("BTC", "5m", EPOCH, "Up")];
    assert!(f.accept(bps(5.0), Direction::Up, &positions, "BTC", "5m", EPOCH, 5000, num(0.0)));
}

#[test]
fn entry_filter_no_opposite_accepts_different_epoch_same_cell() {
    let f = EntryFilter::NoOpposite;
    let positions = vec![at("BTC", "5m", EPOCH, "Down")];
    assert!(f.accept(bps(5.0), Direction::Up, &positions, "BTC", "5m", 1_780_000_200, 5000, num(0.0)));
}

#[test]
fn entry_filter_asymmetric_bps_high_bar_for_opposite() {
    let f =
        EntryFilter::AsymmetricBps { min_abs_bps: 5_000_000, opposite_min_abs_bps: 8_000_000 };
    let opp = vec![at("BTC", "5m", EPOCH, "Down")];
    assert!(f.accept(bps(6.0), Direction::Up, &[], "BTC", "5m", EPOCH, 5000, num(0.0)));
    assert!(!f.accept(bps(6.0), Direction::Up, &opp, "BTC", "5m", EPOCH, 5000, num(0.0)));
    assert!(f.accept(bps(10.0), Direction::Up, &opp, "BTC", "5m", EPOCH, 5000, num(0.0)));
    assert!(!f.accept(bps(4.0), Direction::Up, &[], "BTC", "5m", EPOCH, 5000, num(0.0)));
}

#[test]
fn count_double_sided_markets_synthetic() {
    let positions = vec![
        at("BTC", "5m", 100, "Up"),
        at("BTC", "5m", 100, "Down"),
        at("ETH", "5m", 200, "Up"),
        at("BTC", "5m", 300, "Down"),
    ];
    assert_eq!(count_double_sided_markets(&positions), 1);
    assert_eq!(count_double_sided_markets_for_cell(&positions, "BTC", "5m"), 1);
    assert_eq!(count_double_sided_markets_for_cell(&positions, "ETH", "5m"), 0);
}

#[test]
fn entry_filter_baseline_passthrough_is_no_op() {
    let f = EntryFilter::Baseline;
    let scenarios = vec![
        (5.0, Direction::Up, vec![]),
        (5.0, Direction::Down, vec![at("BTC", "5m", 100, "Up")]),
        (10.0, Direction::Up, vec![at("ETH", "15m", 200, "Down")]),
        (-7.5, Direction::Down, vec![at("BTC", "5m", 100, "Up"), at("BTC", "5m", 100, "Down")]),
    ];
    for (b, dir, positions) in scenarios {
        assert!(f.accept(bps(b), dir, &positions, "BTC", "5m", 100, 5000, num(0.0)));
    }
}

#[test]
fn entry_filter_d0_dca_unlimited_matches_baseline() {
    let baseline = EntryFilter::Baseline;
    let d0 = EntryFilter::DcaUnlimited;
    let scenarios = vec![
        (5.0, Direction::Up, vec![]),
        (5.0, Direction::Down, vec![at("BTC", "5m", W9_EPOCH, "Up")]),
        (10.0, Direction::Up, vec![at("ETH", "15m", 200, "Down")]),
        (
            5.0,
            Direction::Up,
            vec![
                lot("BTC", "5m", W9_EPOCH, "Up", 1, key(0.50), close(100.0)),
                lot("BTC", "5m", W9_EPOCH, "Up", 2, key(0.55), close(101.0)),
                lot("BTC", "5m", W9_EPOCH, "Up", 3, key(0.60), close(102.0)),
            ],
        ),
    ];
    for (b, dir, positions) in &scenarios {
        let x =
            baseline.accept(bps(*b), *dir, positions, "BTC", "5m", W9_EPOCH, key(0.65), close(103.0));
        let y = d0.accept(bps(*b), *dir, positions, "BTC", "5m", W9_EPOCH, key(0.65), close(103.0));
        assert_eq!(x, y);
        assert!(y, "D0 must accept all scenarios (it's a pass-through)");
    }
}

#[test]
fn entry_filter_d1_improving_price_accepts_strictly_lower() {
    let f = EntryFilter::DcaImprovingPrice;
    let positions = vec![lot("BTC", "5m", W9_EPOCH, "Up", 1, key(0.50), close(100.0))];
    let accept = |active: &[CollectedPosition], p: f64| {
        f.accept(bps(5.0), Direction::Up, active, "BTC", "5m", W9_EPOCH, key(p), close(100.0))
    };
    assert!(accept(&[], 0.50), "D1 must accept the first lot (no priors)");
    assert!(accept(&positions, 0.49));
    assert!(!accept(&positions, 0.50));
    assert!(!accept(&positions, 0.60));
}

#[test]
fn entry_filter_d2a_confirming_underlying_two_triggers() {
    let f = EntryFilter::DcaConfirmingUnderlying;
    let up = vec![lot("BTC", "5m", W9_EPOCH, "Up", 1, key(0.50), close(100.0))];
    let down = vec![lot("BTC", "5m", W9_EPOCH, "Down", 1, key(0.50), close(100.0))];
    let accept = |active: &[CollectedPosition], dir: Direction, c: f64| {
        f.accept(bps(5.0), dir, active, "BTC", "5m", W9_EPOCH, key(0.55), close(c))
    };
    assert!(accept(&up, Direction::Up, 101.0));
    assert!(!accept(&up, Direction::Up, 99.0));
    assert!(!accept(&up, Direction::Up, 100.0));
    assert!(accept(&[], Direction::Up, 50.0));
    assert!(accept(&down, Direction::Down, 99.0));
    assert!(!accept(&down, Direction::Down, 101.0));
}

#[test]
fn entry_filter_d3_no_dca_blocks_second_lot_same_market_side() {
    let f = EntryFilter::NoDca;
    let one = vec![lot("BTC", "5m", W9_EPOCH, "Up", 1, key(0.50), close(100.0))];
    assert!(f.accept(
        bps(5.0), Direction::Up, &[], "BTC", "5m", W9_EPOCH, key(0.50), close(100.0)));
    assert!(!f.accept(
        bps(5.0), Direction::Up, &one, "BTC", "5m", W9_EPOCH, key(0.49), close(101.0)));
    assert!(f.accept(
        bps(5.0), Direction::Up, &one, "BTC", "5m", W9_EPOCH + 300, key(0.49), close(101.0)));
    assert!(f.accept(
        bps(5.0), Direction::Down, &one, "BTC", "5m", W9_EPOCH, key(0.49), close(99.0)));
}

#[test]
fn entry_filter_d4_caps_at_three_lots_per_market_side() {
    let f = EntryFilter::DcaCap { max: 3 };
    let three = vec![
        lot("BTC", "5m", W9_EPOCH, "Up", 1, key(0.50), close(100.0)),
        lot("BTC", "5m", W9_EPOCH, "Up", 2, key(0.51), close(100.5)),
        lot("BTC", "5m", W9_EPOCH, "Up", 3, key(0.52), close(101.0)),
    ];
    let accept = |active: &[CollectedPosition], epoch: i64, p: f64, c: f64| {
        f.accept(bps(5.0), Direction::Up, active, "BTC", "5m", epoch, key(p), close(c))
    };
    assert!(accept(&[], W9_EPOCH, 0.50, 100.0));
    assert!(accept(&three[..1], W9_EPOCH, 0.51, 100.5));
    assert!(accept(&three[..2], W9_EPOCH, 0.52, 101.0));
    assert!(!accept(&three, W9_EPOCH, 0.53, 101.5), "D4 must reject the 4th lot when cap=3");
    assert!(accept(&three, W9_EPOCH + 300, 0.53, 101.5));
    assert_eq!(same_market_side_lots(&three, "BTC", "5m", W9_EPOCH, Direction::Up), 3);
}

#[test]
fn entry_filter_d1_and_d2b_are_exact_mirrors() {
    let d1 = EntryFilter::DcaImprovingPrice;
    let d2b = EntryFilter::DcaConfirmingAsk;
    let positions = vec![lot("BTC", "5m", W9_EPOCH, "Up", 1, key(0.50), close(100.0))];
    let accept = |f: &EntryFilter, p: f64| {
        f.accept(bps(5.0), Direction::Up, &positions, "BTC", "5m", W9_EPOCH, key(p), close(100.0))
    };
    assert!(!accept(&d1, 0.60));
    assert!(accept(&d2b, 0.60));
    assert!(accept(&d1, 0.40));
    assert!(!accept(&d2b, 0.40));
    assert!(!accept(&d1, 0.50) && !accept(&d2b, 0.50));
}

#[test]
fn entry_filter_split_dca_dispatches_by_interval() {
    let split = EntryFilter::SplitDcaByInterval {
        five_min: Box::new(EntryFilter::DcaUnlimited),
        fifteen_min: Box::new(EntryFilter::DcaCap { max: 3 }),
    };
    let four_5m: Vec<CollectedPosition> = (1..=4)
        .map(|i| lot("BTC", "5m", W9_EPOCH, "Up", i, 5000 + 100 * (i as u32 - 1), close(100.0)))
        .collect();
    assert!(split.accept(
        bps(5.0), Direction::Up, &four_5m, "BTC", "5m", W9_EPOCH, key(0.54), close(102.0)));
    let four_15m: Vec<CollectedPosition> = (1..=4)
        .map(|i| lot("BTC", "15m", W9_EPOCH, "Up", i, 5000 + 100 * i as u32, close(100.0)))
        .collect();
    assert!(!split.accept(
        bps(5.0), Direction::Up, &four_15m, "BTC", "15m", W9_EPOCH, key(0.54), close(102.0)));
    assert!(split.accept(
        bps(5.0), Direction::Up, &four_15m[..2], "BTC", "15m", W9_EPOCH, key(0.52), close(101.0)));
    assert!(split.accept(
        bps(5.0), Direction::Up, &four_5m, "BTC", "30m", W9_EPOCH, key(0.54), close(102.0)));
    assert_eq!(cli_label_for(&split), "split_dca");
    assert_eq!(split.label(), "split_dca_5m=d0_dca_unlimited_15m=d4_dca_cap_3");
    let other = EntryFilter::SplitDcaByInterval {
        five_min: Box::new(EntryFilter::DcaUnlimited),
        fifteen_min: Box::new(EntryFilter::NoDca),
    };
    assert_ne!(cli_label_for(&other), "split_dca");
}

#[test]
fn labels_are_read_and_written() {
    let fs = parse_entry_filter_labels("a0, d3,split_dca").unwrap();
    assert_eq!(fs.len(), 3);
    assert_eq!(cli_label_for(&fs[0]), "a0");
    assert_eq!(cli_label_for(&fs[2]), "split_dca");
    match parse_entry_filter_labels("a0,zz") {
        Err(LabelError::Unknown(l)) => assert_eq!(l, "zz"),
        _ => panic!("expected an unknown label"),
    }
    assert!(matches!(parse_entry_filter_labels(" ,"), Err(LabelError::Empty)));
}

#[test]
fn epochs_of_markets() {
    assert_eq!(interval_secs_for("15m"), 900);
    assert_eq!(interval_secs_for("5m"), 300);
    assert_eq!(market_epoch(1_780_000_123, "5m"), 1_779_999_900);
    assert_eq!(market_epoch(1_780_000_123, "15m"), 1_779_999_300);
    assert_eq!(Direction::Up.word(), "Up");
    assert_eq!(Direction::Up.opposite(), Direction::Down);
}

/// A value of one share, in units of 1e-10 dollars.
fn v(p: f64) -> u128 {
    (p * 1_000_000.0).round() as u128 * 10_000
}

fn samples(s: &[(i64, f64)]) -> Vec<(i64, Option<u128>)> {
    s.iter().map(|&(ms, p)| (ms, if p < 0.0 { None } else { Some(v(p)) })).collect()
}

const NONE: f64 = -1.0;

#[test]
fn trajectory_bid_at_offset_picks_first_post_target_sample() {
    let entry = 10_000_i64;
    let traj: Vec<(i64, Option<u128>)> =
        (0..120).map(|i| (entry + i * 1000, Some(v(0.30 + 0.001 * i as f64)))).collect();
    assert_eq!(bid_at_offset(&traj, entry, 30), Some(v(0.330)));
    assert_eq!(bid_at_offset(&traj, entry, 0), Some(v(0.300)));
    assert_eq!(bid_at_offset(&traj, entry, 120), None);
    assert_eq!(bid_at_offset(&[], entry, 30), None);
}

#[test]
fn trajectory_max_min_in_window_ignore_nan_and_respect_window_end() {
    let e = 10_000_i64;
    let traj = samples(&[
        (e, 0.50),
        (e + 1000, 0.55),
        (e + 2000, NONE),
        (e + 3000, 0.85),
        (e + 4000, 0.40),
        (e + 5000, 0.60),
        (e + 121_000, 0.99),
        (e + 130_000, 0.01),
    ]);
    assert_eq!(max_bid_in_window(&traj, e, 120), Some((v(0.85), 3000)));
    assert_eq!(min_bid_in_window(&traj, e, 120), Some((v(0.40), 4000)));
    let none = samples(&[(e, NONE), (e + 1000, NONE)]);
    assert_eq!(max_bid_in_window(&none, e, 120), None);
}

#[test]
fn trajectory_high_water_marks_only_strictly_increasing() {
    let e = 10_000_i64;
    let traj = samples(&[
        (e, 0.50),
        (e + 1000, 0.55),
        (e + 2000, 0.55),
        (e + 3000, 0.40),
        (e + 4000, 0.85),
        (e + 5000, 0.40),
        (e + 6000, 0.90),
    ]);
    assert_eq!(
        high_water_marks(&traj, e, 120),
        vec![(0, v(0.50)), (1000, v(0.55)), (4000, v(0.85)), (6000, v(0.90))]
    );
    assert_eq!(
        high_water_marks(&traj, e, 5),
        vec![(0, v(0.50)), (1000, v(0.55)), (4000, v(0.85))]
    );
}

#[test]
fn trajectory_low_water_marks_only_strictly_decreasing() {
    let traj = samples(&[
        (0, 0.50),
        (1000, 0.60),
        (2000, 0.40),
        (3000, 0.40),
        (4000, 0.30),
        (5000, 0.80),
    ]);
    assert_eq!(
        low_water_marks(&traj, 0, 120),
        vec![(0, v(0.50)), (2000, v(0.40)), (4000, v(0.30))]
    );
}

#[test]
fn trajectory_helpers_skip_nan_in_extremes_and_marks() {
    let traj = samples(&[
        (0, 0.50),
        (1000, NONE),
        (2000, 0.70),
        (3000, NONE),
        (4000, 0.30),
        (5000, NONE),
    ]);
    assert_eq!(high_water_marks(&traj, 0, 120), vec![(0, v(0.50)), (2000, v(0.70))]);
    assert_eq!(low_water_marks(&traj, 0, 120), vec![(0, v(0.50)), (4000, v(0.30))]);
    assert_eq!(max_bid_in_window(&traj, 0, 120).unwrap().0, v(0.70));
    assert_eq!(min_bid_in_window(&traj, 0, 120).unwrap().0, v(0.30));
}

#[test]
fn windows_begin_at_the_entry() {
    let traj = samples(&[(900, 0.90), (1000, 0.50), (1500, 0.60), (1999, 0.40), (2000, 0.95)]);
    assert_eq!(max_bid_in_window(&traj[..2], 1000, 1), Some((v(0.50), 0)));
    assert_eq!(max_bid_in_window(&traj, 1000, 1), Some((v(0.60), 500)));
    assert_eq!(min_bid_in_window(&traj, 1000, 1), Some((v(0.40), 999)));
    assert_eq!(high_water_marks(&traj, 1000, 1), vec![(0, v(0.50)), (500, v(0.60))]);
    assert_eq!(low_water_marks(&traj, 1000, 1), vec![(0, v(0.50)), (999, v(0.40))]);
    assert_eq!(max_bid_in_window(&traj[..1], 1000, 1), None);
    assert_eq!(bid_at_offset(&traj, 1000, -1), Some(v(0.90)));
}

#[test]
fn a_window_holds_all_samples_of_its_time() {
    // A sample that was recorded late is still one of the window.
    let traj = samples(&[(1000, 0.50), (2500, 0.90), (1500, 0.70)]);
    assert_eq!(max_bid_in_window(&traj, 1000, 1), Some((v(0.70), 500)));
}

#[test]
fn filters_can_be_copied_and_told_apart() {
    let f = EntryFilter::SplitDcaByInterval {
        five_min: Box::new(EntryFilter::NoDca),
        fifteen_min: Box::new(EntryFilter::DcaCap { max: 2 }),
    };
    let g = f.clone();
    assert_eq!(f, g);
    assert_ne!(f, EntryFilter::NoDca);
}
