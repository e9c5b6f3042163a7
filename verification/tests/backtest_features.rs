use rust_bot::backtest::auc::{compute_auc_and_mwu, AucResult};
use rust_bot::backtest::causal::{
    build_features_at, build_features_for_position, close_at_or_before, future_max_bid,
    label_should_have_sold, precompute_suffix_max_bid, BinanceCausal, CausalSlice, CausalSliceBbo,
    FeatureSample, Features, SeededRng, LABEL_TOLERANCE,
};
use rust_bot::backtest::phase2::{
    canary_flag, cells_passing, check_sanity, count_cells, distance_of, is_below, judge_features,
    judged_features, list_feature_cells, passes, robust_features, rows_of_tercile, score_features,
    split_train_test, strongest_first, tercile_breakpoints, tercile_of, CanaryFlag, Feature,
    FeatureAnalysisRow, FeatureScore, Tercile,
};
use rust_bot::backtest::position::CollectedPosition;
use rust_bot::config::Num;
use rust_bot::decimal::Dec;

fn whole(n: i64) -> Num {
    Num::Finite(Dec::new(n, 0))
}

fn lot(
    asset: &str,
    interval: &str,
    epoch: i64,
    direction: &str,
    entry_recv_ms: i64,
    entry_price: u32,
    trigger_close: Num,
) -> CollectedPosition {
    CollectedPosition {
        token: format!("{asset}-{interval}-{direction}-{epoch}"),
        asset: asset.to_string(),
        interval: interval.to_string(),
        epoch,
        direction: direction.to_string(),
        signal_id: format!("{asset}-{epoch}-{interval}-{direction}-{entry_recv_ms}"),
        entry_recv_ms,
        entry_price,
        shares: 10_000_000,
        exit_ts_ms: 1_000,
        trajectory: Vec::new(),
        trajectory_bbo: Vec::new(),
        time_exit_bid: Some(50_000_000_000),
        uncoverable_samples: 0,
        total_samples: 0,
        trigger_close,
        trigger_ret_bps: whole(0),
        maker_fee_bps: 0,
        taker_fee_bps: 0,
        fee_type: String::new(),
        entry_trigger_ts_ms: 0,
        obi_top1: None,
        obi_top3: None,
        binance_close_at_2s: None,
        binance_close_at_5s: None,
        binance_close_at_10s: None,
        binance_close_at_30s: None,
        binance_close_at_60s: None,
        binance_close_at_120s: None,
        vol_30m: None,
        vol_60m: None,
    }
}

/// A value of one share, in units of 1e-10 dollars.
fn v(p: f64) -> u128 {
    (p * 1_000_000.0).round() as u128 * 10_000
}

fn samples(s: &[(i64, f64)]) -> Vec<(i64, Option<u128>)> {
    s.iter().map(|&(ms, p)| (ms, Some(v(p)))).collect()
}

/// A lot of one share with samples.
fn sampled(s: &[(i64, f64)], exit_ts_ms: i64) -> CollectedPosition {
    let mut p = lot("BTC", "5m", 0, "Up", 0, 5000, whole(0));
    p.shares = 1_000_000;
    p.time_exit_bid = None;
    p.exit_ts_ms = exit_ts_ms;
    p.trajectory = samples(s);
    p.trajectory_bbo = s.iter().map(|&(ms, _)| (ms, None, None)).collect();
    p.total_samples = s.len();
    p
}

fn features(p: &CollectedPosition, t: i64) -> Features {
    let suffix = precompute_suffix_max_bid(&p.trajectory);
    build_features_at(p, &suffix, &[], None, t, 7).unwrap()
}

/// Twice the pairs that are told right, and twice all pairs.
fn share(r: &AucResult) -> (u128, u128) {
    (r.u_doubled, 2 * r.n_pos as u128 * r.n_neg as u128)
}

#[test]
fn g13_label_clear_positive_sells_now() {
    assert_eq!(label_should_have_sold(Some(v(0.80)), Some(v(0.50)), LABEL_TOLERANCE), Some(true));
}

#[test]
fn g13_label_clear_negative_waits() {
    assert_eq!(label_should_have_sold(Some(v(0.50)), Some(v(0.80)), LABEL_TOLERANCE), Some(false));
}

#[test]
fn g13_label_within_tolerance_sells_now() {
    assert_eq!(label_should_have_sold(Some(v(0.50)), Some(v(0.501)), LABEL_TOLERANCE), Some(true));
}

#[test]
fn g13_label_outside_tolerance_waits() {
    assert_eq!(label_should_have_sold(Some(v(0.50)), Some(v(0.55)), LABEL_TOLERANCE), Some(false));
}

#[test]
fn g13_label_nan_bid_returns_none() {
    assert_eq!(label_should_have_sold(None, Some(v(0.50)), LABEL_TOLERANCE), None);
}

#[test]
fn g13_label_no_future_returns_sell_now() {
    assert_eq!(label_should_have_sold(Some(v(0.50)), None, LABEL_TOLERANCE), Some(true));
}

#[test]
fn g13_auc_oracle_label_as_feature_gives_one() {
    let pairs: Vec<(Option<i128>, bool)> = (0..200)
        .map(|i| {
            let label = i % 3 == 0;
            (Some(if label { 1 } else { 0 }), label)
        })
        .collect();
    let (n, d) = share(&compute_auc_and_mwu(&pairs));
    assert_eq!(n, d, "label-as-feature MUST give AUC=1.0 by construction");
}

#[test]
fn g13_auc_perfect_inverse_gives_zero() {
    let pairs: Vec<(Option<i128>, bool)> = (0..200)
        .map(|i| {
            let label = i % 3 == 0;
            (Some(if label { 0 } else { 1 }), label)
        })
        .collect();
    let (n, _) = share(&compute_auc_and_mwu(&pairs));
    assert_eq!(n, 0, "inverse perfect MUST give AUC=0.0");
}

#[test]
fn g13_auc_random_feature_near_half() {
    let mut rng = SeededRng::new(42);
    let pairs: Vec<(Option<i128>, bool)> =
        (0..5000).map(|i| (Some(rng.next_bits() as i128), i % 2 == 0)).collect();
    let (n, d) = share(&compute_auc_and_mwu(&pairs));
    let auc = n as f64 / d as f64;
    assert!((auc - 0.5).abs() < 0.03, "random feature should give AUC near 0.5; got {auc}");
}

#[test]
fn g13_auc_all_tied_gives_half() {
    let pairs: Vec<(Option<i128>, bool)> = (0..100).map(|i| (Some(5), i % 2 == 0)).collect();
    let (n, d) = share(&compute_auc_and_mwu(&pairs));
    assert_eq!(2 * n, d, "all-tied gives AUC=0.5");
}

#[test]
fn g13_auc_drops_nan_features() {
    let pairs = vec![
        (Some(1), true),
        (Some(1), true),
        (Some(0), false),
        (Some(0), false),
        (None, true),
        (None, false),
        (None, true),
    ];
    let r = compute_auc_and_mwu(&pairs);
    assert_eq!(r.n_dropped, 3);
    let (n, d) = share(&r);
    assert_eq!(n, d, "known data is perfect, AUC=1.0");
}

#[test]
fn g13_causal_slice_truncates_to_t_inclusive() {
    let traj = samples(&[(100, 0.50), (200, 0.55), (300, 0.60), (400, 0.65), (500, 0.70)]);
    let causal = CausalSlice::new(&traj, 300);
    let visible: Vec<(i64, Option<u128>)> = (0..causal.len()).map(|i| causal.get(i)).collect();
    assert_eq!(visible, samples(&[(100, 0.50), (200, 0.55), (300, 0.60)]));
    assert_eq!(causal.t(), 300);
    assert_eq!(causal.last_finite_bid(), Some(v(0.60)));
}

#[test]
fn g13_causal_slice_empty_when_t_before_first() {
    let traj = samples(&[(100, 0.50), (200, 0.55)]);
    let causal = CausalSlice::new(&traj, 50);
    assert_eq!(causal.len(), 0);
    assert_eq!(causal.last_finite_bid(), None);
}

#[test]
fn g13_feat_bid_max_so_far_only_uses_past() {
    let s = [(100, 0.50), (200, 0.55), (300, 0.60), (400, 0.80), (500, 0.70)];
    let traj = samples(&s);
    assert_eq!(CausalSlice::new(&traj, 300).max_bid(), Some(v(0.60)));
    assert_eq!(features(&sampled(&s, 1000), 300).f4_bid_max_so_far, Some(6_000_000_000));
}

#[test]
fn g13_feat_time_since_bid_max_only_uses_past() {
    let p = sampled(&[(100, 0.50), (200, 0.55), (300, 0.60), (400, 0.58), (500, 0.80)], 1000);
    assert_eq!(features(&p, 400).f6_time_since_bid_max_ms, Some(100));
}

#[test]
fn g13_canary_max_future_advantage_sees_future_minus_current() {
    let p = sampled(&[(100, 0.50), (200, 0.55), (300, 0.60), (400, 0.70), (500, 0.80)], 1000);
    assert_eq!(features(&p, 300).canary_max_future_advantage, Some(2_000_000_000));
    assert_eq!(features(&p, 500).canary_max_future_advantage, None);
}

#[test]
fn g13_canary_advantage_at_t_plus_30s_works() {
    let p = sampled(
        &[(10_000, 0.50), (15_000, 0.55), (20_000, 0.60), (50_000, 0.70), (60_000, 0.80)],
        100_000,
    );
    assert_eq!(features(&p, 20_000).canary_advantage_at_t_plus_30s, Some(1_000_000_000));
}

#[test]
fn g13_suffix_max_precompute_matches_naive() {
    let traj =
        samples(&[(100, 0.50), (200, 0.55), (300, 0.60), (400, 0.45), (500, 0.65), (600, 0.40)]);
    let suf = precompute_suffix_max_bid(&traj);
    assert_eq!(suf.len(), 7);
    assert_eq!(suf[6], None);
    assert_eq!(suf[5], Some(v(0.40)));
    for i in 0..5 {
        assert_eq!(suf[i], Some(v(0.65)));
    }
}

#[test]
fn g13_future_max_bid_via_suffix() {
    let traj = samples(&[(100, 0.50), (200, 0.55), (300, 0.60), (400, 0.45), (500, 0.65)]);
    let suf = precompute_suffix_max_bid(&traj);
    assert_eq!(future_max_bid(&traj, &suf, 300), Some(v(0.65)));
    assert_eq!(future_max_bid(&traj, &suf, 550), None);
}

#[test]
fn every_feature_has_its_value() {
    let mut p = sampled(&[(1_000, 0.50), (5_000, 0.40), (10_000, 0.45), (20_000, 0.44)], 100_000);
    p.trajectory_bbo = vec![
        (1_000, Some(5100), Some(5300)),
        (5_000, None, Some(4200)),
        (10_000, Some(4600), None),
        (20_000, None, None),
    ];
    let suffix = precompute_suffix_max_bid(&p.trajectory);
    let closes =
        [(0, whole(100)), (4_000, whole(110)), (9_000, whole(121)), (30_000, whole(1))];
    let f = build_features_at(&p, &suffix, &closes, Some(whole(100)), 10_000, 3).unwrap();
    assert_eq!(f.t_recv_ms, 10_000);
    assert!(f.label, "0.44 is no better than 0.45");
    assert_eq!(f.f1_t_since_entry_pct, Some(10_000_000));
    assert_eq!(f.f2_t_to_exit_ms, Some(90_000));
    assert_eq!(f.f3_bid_t, Some(4_500_000_000));
    assert_eq!(f.f4_bid_max_so_far, Some(5_000_000_000));
    assert_eq!(f.f5_bid_ratio, Some(90_000_000));
    assert_eq!(f.f6_time_since_bid_max_ms, Some(9_000));
    assert_eq!(f.f7_bid_velocity_5s, Some(100_000_000));
    assert_eq!(f.f8_bid_velocity_15s, None);
    assert_eq!(f.f9_spread_t, Some(200));
    assert_eq!(f.f10_executable_minus_best_bid, Some(-100_000_000));
    assert_eq!(f.f11_binance_return_since_entry, Some(210_000_000_000));
    assert_eq!(f.f12_binance_return_5s, Some(100_000_000_000));
    assert_eq!(f.sanity_label_as_feat, Some(1));
    assert_eq!(f.sanity_random_seeded, Some(3));
    assert_eq!(f.canary_max_future_advantage, Some(-100_000_000));
    assert_eq!(f.canary_advantage_at_t_plus_30s, None);
    assert!(build_features_at(&p, &suffix, &closes, None, 500, 3).is_none());
}

#[test]
fn slices_end_with_their_moment() {
    let bbo = [(100, Some(4000), None), (200, Some(4100), Some(4300)), (300, None, Some(4400))];
    let s = CausalSliceBbo::new(&bbo, 300);
    assert_eq!(s.t(), 300);
    assert_eq!(s.last_full_bbo(), Some((4100, 4300)));
    assert_eq!(s.last_best_bid(), Some(4100));
    assert_eq!(CausalSliceBbo::new(&bbo, 100).last_full_bbo(), None);
    let closes = [(100, whole(1)), (200, whole(2)), (300, whole(3))];
    let b = BinanceCausal::new(&closes, 250);
    assert_eq!(b.t(), 250);
    assert_eq!(b.last_close(), Some(whole(2)));
    assert_eq!(b.close_at_or_before(150), Some(whole(1)));
    assert_eq!(b.close_at_or_before(50), None);
    assert_eq!(close_at_or_before(&closes, 99), None);
    assert_eq!(close_at_or_before(&closes, 300), Some(whole(3)));
}

#[test]
fn numbers_of_a_seed_are_always_the_same() {
    let mut a = SeededRng::new(42);
    let mut b = SeededRng::new(42);
    let first = a.next_bits();
    assert_eq!(first, b.next_bits());
    let state = 42u64.wrapping_mul(6364136223846793005).wrapping_add(1442695040888963407);
    assert_eq!(first, state >> 11);
    assert_ne!(first, a.next_bits());
}

#[test]
fn rows_of_a_lot_are_taken_at_a_fixed_pace() {
    let p = sampled(&[(1_500, 0.50), (2_500, 0.52)], 4_000);
    let mut rng = SeededRng::new(1);
    let rows = build_features_for_position(&p, &[], None, &mut rng, "2026-05-06", 1000);
    let times: Vec<i64> = rows.iter().map(|r| r.features.t_recv_ms).collect();
    assert_eq!(times, vec![2_000, 3_000, 4_000], "no row before the first sample");
    assert_eq!(rows[0].cell, "BTC_5m");
    assert_eq!(rows[0].date, "2026-05-06");
    assert!(!rows[0].features.label, "0.52 is to come");
    assert!(rows[1].features.label);
    // A number was drawn for each of the five moments.
    let mut same = SeededRng::new(1);
    for _ in 0..5 {
        same.next_bits();
    }
    assert_eq!(rng.next_bits(), same.next_bits());
}

fn row(id: &str, cell: &str, date: &str, price: u32, value: i128, label: bool) -> FeatureSample {
    FeatureSample {
        signal_id: id.to_string(),
        cell: cell.to_string(),
        date: date.to_string(),
        entry_price: price,
        features: Features {
            t_recv_ms: 0,
            label,
            f1_t_since_entry_pct: Some(value),
            f2_t_to_exit_ms: None,
            f3_bid_t: None,
            f4_bid_max_so_far: None,
            f5_bid_ratio: None,
            f6_time_since_bid_max_ms: None,
            f7_bid_velocity_5s: None,
            f8_bid_velocity_15s: None,
            f9_spread_t: None,
            f10_executable_minus_best_bid: None,
            f11_binance_return_since_entry: None,
            f12_binance_return_5s: None,
            sanity_label_as_feat: Some(if label { 1 } else { 0 }),
            sanity_random_seeded: Some(0),
            canary_max_future_advantage: Some(if label { -1 } else { 1 }),
            canary_advantage_at_t_plus_30s: Some(0),
        },
    }
}

#[test]
fn rows_are_trained_on_or_tested_on() {
    let rows = vec![
        row("a", "BTC_5m", "d1", 1, 1, true),
        row("b", "BTC_5m", "d2", 1, 0, false),
        row("c", "ETH_5m", "d3", 1, 0, false),
    ];
    let (train, test) = split_train_test(&rows, &["d1"], &["d1", "d2"]);
    assert_eq!(train.len(), 1);
    assert_eq!(test.len(), 1);
    assert_eq!(train[0].signal_id, "a");
    assert_eq!(test[0].signal_id, "b");
    assert_eq!(list_feature_cells(&rows), vec!["BTC_5m", "ETH_5m"]);
    let counts = count_cells(&rows, &["d1"], &["d1", "d2"]);
    assert_eq!((counts[0].train, counts[0].test), (1, 1));
    assert_eq!((counts[1].train, counts[1].test), (0, 0));
}

#[test]
fn known_columns_score_as_they_must() {
    let rows: Vec<FeatureSample> =
        (0..40).map(|i| row("a", "BTC_5m", "d1", 1, i, i % 2 == 0)).collect();
    let train: Vec<&FeatureSample> = rows.iter().collect();
    let s = check_sanity(&train);
    assert!(s.oracle_ok && s.random_ok && s.strong_ok);
    assert!(!s.moderate_ok, "a column of zeros tells nothing");
    let empty = check_sanity(&[]);
    assert!(!empty.oracle_ok);
}

fn auc(u_doubled: u128, n_pos: usize, n_neg: usize) -> AucResult {
    AucResult { u_doubled, n_pos, n_neg, n_dropped: 0 }
}

#[test]
fn verdicts_follow_train_and_test() {
    // 100 pairs: a score of 70 % has a distance of 20 %.
    assert_eq!(distance_of(&auc(140, 10, 10)), (40, 200));
    assert_eq!(distance_of(&auc(60, 10, 10)), (40, 200));
    assert_eq!(distance_of(&auc(0, 0, 10)), (0, 1));
    let strong = auc(0, 10, 10);
    let moderate = auc(140, 10, 10);
    assert!(passes(&auc(140, 10, 10), &auc(140, 10, 10), true));
    assert!(!passes(&auc(140, 10, 10), &auc(140, 10, 10), false), "not significant");
    assert!(!passes(&auc(140, 10, 10), &auc(134, 10, 10), true), "85 hundredths are not above");
    assert!(!passes(&auc(110, 10, 10), &auc(110, 10, 10), true), "too near to chance");
    assert!(!passes(&auc(0, 10, 10), &auc(0, 10, 10), true), "never right on the train rows");
    assert!(!passes(&auc(100, 10, 10), &auc(140, 10, 10), true), "chance on the train rows");
    assert_eq!(canary_flag(&auc(190, 10, 10), &strong, &moderate), CanaryFlag::Red);
    assert_eq!(canary_flag(&auc(140, 10, 10), &strong, &moderate), CanaryFlag::Yellow);
    assert_eq!(canary_flag(&auc(120, 10, 10), &strong, &moderate), CanaryFlag::Green);
    assert_eq!(CanaryFlag::Green.as_str(), "OK");
    assert_eq!(CanaryFlag::Yellow.as_str(), "YELLOW");
    assert_eq!(CanaryFlag::Red.as_str(), "RED");
}

#[test]
fn fractions_are_compared_exactly() {
    assert!(is_below(1, 3, 1, 2));
    assert!(!is_below(1, 2, 1, 2));
    assert!(!is_below(2, 3, 1, 2));
    let big = u128::MAX;
    assert!(is_below(big - 1, big, 1, 1));
    assert!(is_below(big - 2, big - 1, big - 1, big));
    assert!(!is_below(big - 1, big, big - 2, big - 1));
}

#[test]
fn every_feature_is_scored_in_every_cell() {
    let rows: Vec<FeatureSample> = (0..10)
        .map(|i| row("a", if i < 5 { "BTC_5m" } else { "ETH_5m" }, "d1", 1, i, i % 2 == 0))
        .collect();
    let all: Vec<&FeatureSample> = rows.iter().collect();
    let cells = vec!["BTC_5m".to_string(), "ETH_5m".to_string()];
    let scores = score_features(&all, &all, &cells);
    assert_eq!(scores.len(), 24);
    assert_eq!(scores[0].feature, Feature::TSinceEntryPct);
    assert_eq!(scores[0].train.n_pos, 3);
    assert_eq!(scores[12].cell, "ETH_5m");
    assert_eq!(scores[1].train.n_dropped, 5);
    let significant = vec![true; 24];
    let judged = judge_features(&scores, &significant, &auc(0, 10, 10), &auc(140, 10, 10));
    assert_eq!(judged.len(), 24);
    assert_eq!(judged_features().len(), 12);
}

fn verdict(cell: &str, feature: Feature, test: AucResult, flag: CanaryFlag) -> FeatureAnalysisRow {
    FeatureAnalysisRow {
        cell: cell.to_string(),
        feature,
        train: test,
        test,
        passes: true,
        canary_flag: flag,
    }
}

#[test]
fn robust_features_pass_in_two_cells() {
    let rows = vec![
        verdict("A", Feature::BidT, auc(140, 10, 10), CanaryFlag::Green),
        verdict("B", Feature::BidT, auc(20, 10, 10), CanaryFlag::Yellow),
        verdict("A", Feature::SpreadT, auc(140, 10, 10), CanaryFlag::Green),
        verdict("B", Feature::SpreadT, auc(140, 10, 10), CanaryFlag::Red),
        verdict("A", Feature::BinanceReturn5s, auc(120, 10, 10), CanaryFlag::Green),
        verdict("B", Feature::BinanceReturn5s, auc(120, 10, 10), CanaryFlag::Green),
    ];
    let r = robust_features(&rows);
    assert_eq!(r.len(), 2);
    assert_eq!(r[0].0.as_str(), "f12_binance_return_5s");
    assert_eq!(r[1].0.as_str(), "f3_bid_t");
    assert_eq!(r[1].1, vec!["A", "B"]);
    assert_eq!(cells_passing(&rows, Feature::SpreadT), vec!["A"]);
    assert_eq!(strongest_first(&rows), vec![1, 0, 2, 3, 4, 5]);
}

#[test]
fn terciles_divide_the_signals_of_a_cell() {
    let rows: Vec<FeatureSample> = vec![
        row("a", "X", "d", 10, 0, true),
        row("a", "X", "d", 10, 0, true),
        row("b", "X", "d", 30, 0, true),
        row("c", "X", "d", 20, 0, true),
        row("d", "Y", "d", 90, 0, true),
    ];
    let all: Vec<&FeatureSample> = rows.iter().collect();
    assert_eq!(tercile_breakpoints(&all, "X"), Some((20, 30)));
    assert_eq!(tercile_breakpoints(&all, "Z"), None);
    assert_eq!(tercile_of(20, (20, 30)), Tercile::Low);
    assert_eq!(tercile_of(25, (20, 30)), Tercile::Mid);
    assert_eq!(tercile_of(31, (20, 30)), Tercile::High);
    assert_eq!(rows_of_tercile(&all, (20, 30), Tercile::Low).len(), 3);
    assert_eq!(Tercile::Low.as_str(), "low");
    assert_eq!(Tercile::Mid.as_str(), "mid");
    assert_eq!(Tercile::High.as_str(), "high");
}

#[test]
fn scores_carry_their_cell() {
    let s = FeatureScore {
        cell: "X".into(),
        feature: Feature::Oracle,
        train: auc(0, 1, 1),
        test: auc(0, 1, 1),
    };
    assert_eq!(s.feature.as_str(), "sanity_label_as_feat");
    assert_eq!(Feature::Random.as_str(), "sanity_random_seeded");
}

#[test]
fn returns_are_of_finite_closes() {
    let p = sampled(&[(100, 0.5), (200, 0.5)], 1_000);
    let suffix = precompute_suffix_max_bid(&p.trajectory);
    let ret = |close: Num, base: Num| {
        build_features_at(&p, &suffix, &[(50, close)], Some(base), 150, 3)
            .unwrap()
            .f11_binance_return_since_entry
    };
    assert_eq!(ret(whole(110), whole(100)), Some(100_000_000_000));
    assert_eq!(ret(Num::NotANumber, whole(100)), None);
    assert_eq!(ret(Num::Infinite { negative: false }, whole(100)), None);
    assert_eq!(ret(whole(110), Num::NotANumber), None);
    assert_eq!(ret(whole(110), whole(0)), None);
    let small = Num::Finite(Dec::new(1, 12));
    assert_eq!(ret(Num::Finite(Dec::new(3, 12)), small), Some(2_000_000_000_000));
    assert_eq!(ret(whole(-1), whole(1)), Some(-2_000_000_000_000));
}
