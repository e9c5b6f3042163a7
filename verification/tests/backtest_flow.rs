use rust_bot::backtest::book::{BookSide, FullBook};
use rust_bot::backtest::day::DayReplay;
use rust_bot::backtest::entry_filter::{Direction, EntryFilter};
use rust_bot::backtest::health::StreamHealth;
use rust_bot::backtest::kline::{compute_obi, record_kline_for_active, KlineHist};
use rust_bot::backtest::merge::{merge_streams, sort_events, Ev, StreamingMerger, TimedEvent};
use rust_bot::backtest::phase::{
    plan_run, validate_include_dates, validate_phase_dates, BtPhase, PhaseError, RunError,
    VALIDATION_CUTOFF_DATE,
};
use rust_bot::backtest::position::{ActiveTracker, CollectedPosition};
use rust_bot::backtest::record::{
    line_recv_ms, make_candle, make_change, make_level, read_book, read_kline, read_price_changes,
    TokenSet,
};
use rust_bot::backtest::replay::{name_signal, open_position_for_decide, Fire, Replay};
use rust_bot::b3_live::Outcome;
use rust_bot::config::Num;
use rust_bot::dates::{date_midnight_sec, dates_inclusive, prev_date, RangeError};
use rust_bot::decimal::Dec;

fn whole(n: i64) -> Num {
    Num::Finite(Dec::new(n, 0))
}

fn lot(
    asset: &str,
    interval: &str,
    epoch: i64,
    direction: &str,
    entry_recv_ms: i64,
    entry_price: u32,
    trigger_close: Num,
) -> CollectedPosition {
    CollectedPosition {
        token: format!("{asset}-{interval}-{direction}-{epoch}"),
        asset: asset.to_string(),
        interval: interval.to_string(),
        epoch,
        direction: direction.to_string(),
        signal_id: format!("{asset}-{epoch}-{interval}-{direction}-{entry_recv_ms}"),
        entry_recv_ms,
        entry_price,
        shares: 10_000_000,
        exit_ts_ms: 1_000,
        trajectory: Vec::new(),
        trajectory_bbo: Vec::new(),
        time_exit_bid: Some(50_000_000_000),
        uncoverable_samples: 0,
        total_samples: 0,
        trigger_close,
        trigger_ret_bps: whole(0),
        maker_fee_bps: 0,
        taker_fee_bps: 0,
        fee_type: String::new(),
        entry_trigger_ts_ms: 0,
        obi_top1: None,
        obi_top3: None,
        binance_close_at_2s: None,
        binance_close_at_5s: None,
        binance_close_at_10s: None,
        binance_close_at_30s: None,
        binance_close_at_60s: None,
        binance_close_at_120s: None,
        vol_30m: None,
        vol_60m: None,
    }
}

#[test]
fn g10_phase_exploration_with_validation_end_date_aborts() {
    let msg = validate_phase_dates(BtPhase::Exploration, "2026-05-06", "2026-05-17")
        .unwrap_err()
        .message();
    assert!(msg.contains("OUT-OF-SAMPLE DISCIPLINE VIOLATION"), "got: {msg}");
    assert!(msg.contains(VALIDATION_CUTOFF_DATE), "must name the cutoff date; got: {msg}");
    assert!(msg.contains("--bt-phase validation"), "must point to the escape hatch; got: {msg}");

    let err2 = validate_phase_dates(BtPhase::Exploration, "2026-05-06", "2026-05-26").unwrap_err();
    assert!(err2.message().contains("OUT-OF-SAMPLE DISCIPLINE VIOLATION"));

    let m3 = validate_phase_dates(BtPhase::Exploration, "2026-05-20", "2026-05-16")
        .unwrap_err()
        .message();
    assert!(m3.contains("OUT-OF-SAMPLE DISCIPLINE VIOLATION"));
    assert!(m3.contains("--bt-start-date=2026-05-20"), "got: {m3}");
}

#[test]
fn g10_phase_exploration_within_window_ok() {
    assert!(validate_phase_dates(BtPhase::Exploration, "2026-05-06", "2026-05-16").is_ok());
    assert!(validate_phase_dates(BtPhase::Exploration, "2026-05-06", "2026-05-06").is_ok());
    assert!(validate_phase_dates(BtPhase::Exploration, "2026-05-16", "2026-05-16").is_ok());
}

#[test]
fn g14_include_dates_exploration_with_validation_date_aborts() {
    let listed = vec!["2026-05-16".to_string(), "2026-05-20".to_string()];
    let msg = validate_include_dates(BtPhase::Exploration, &listed).unwrap_err().message();
    assert!(msg.contains("OUT-OF-SAMPLE DISCIPLINE VIOLATION"), "got: {msg}");
    assert!(msg.contains("2026-05-20"), "must name the offending date; got: {msg}");
}

#[test]
fn g14_include_dates_exploration_within_window_ok() {
    let listed = vec!["2026-05-06".to_string(), "2026-05-16".to_string()];
    assert!(validate_include_dates(BtPhase::Exploration, &listed).is_ok());
    assert!(validate_include_dates(BtPhase::Exploration, &[]).is_ok());
}

#[test]
fn g14_include_dates_validation_phase_allows_any_date() {
    let listed: Vec<String> = ["2026-05-17", "2026-05-21", "2026-05-23", "2026-05-24"]
        .iter()
        .map(|s| s.to_string())
        .collect();
    assert!(validate_include_dates(BtPhase::Validation, &listed).is_ok());
}

#[test]
fn g10_phase_validation_allows_any_date() {
    assert!(validate_phase_dates(BtPhase::Validation, "2026-05-17", "2026-05-26").is_ok());
    assert!(validate_phase_dates(BtPhase::Validation, "2026-05-06", "2026-05-16").is_ok());
    assert!(validate_phase_dates(BtPhase::Validation, "2030-01-01", "2030-12-31").is_ok());
}

#[test]
fn dates_that_cannot_be_read_are_refused() {
    assert!(matches!(
        validate_phase_dates(BtPhase::Exploration, "x", "2026-05-16"),
        Err(PhaseError::BadStart { .. })
    ));
    assert!(matches!(
        validate_phase_dates(BtPhase::Exploration, "2026-05-06", "y"),
        Err(PhaseError::BadEnd { .. })
    ));
    assert!(matches!(
        validate_include_dates(BtPhase::Exploration, &["z".to_string()]),
        Err(PhaseError::BadListed { .. })
    ));
    assert!(BtPhase::parse("Validation").is_ok());
    assert!(BtPhase::parse("other").is_err());
    assert_eq!(BtPhase::Exploration.as_str(), "exploration");
}

#[test]
fn listed_dates_take_the_place_of_the_range() {
    let run = plan_run(BtPhase::Exploration, "2026-05-06", "2026-05-08", &[]).unwrap();
    assert_eq!(run, vec!["2026-05-06", "2026-05-07", "2026-05-08"]);
    let listed = vec!["2026-05-09".to_string()];
    let run = plan_run(BtPhase::Exploration, "2026-05-06", "2026-05-08", &listed).unwrap();
    assert_eq!(run, listed);
    assert!(matches!(
        plan_run(BtPhase::Exploration, "2026-05-08", "2026-05-06", &[]),
        Err(RunError::Range(RangeError::EndBeforeStart))
    ));
    assert!(matches!(
        plan_run(BtPhase::Exploration, "2026-05-08", "2026-05-20", &listed),
        Err(RunError::Phase(_))
    ));
}

#[test]
fn calendar_of_the_runs() {
    assert_eq!(dates_inclusive("2026-02-27", "2026-03-01").unwrap().len(), 3);
    assert_eq!(dates_inclusive("2024-02-28", "2024-03-01").unwrap()[1], "2024-02-29");
    assert!(matches!(dates_inclusive("x", "2026-03-01"), Err(RangeError::BadStart)));
    assert!(matches!(dates_inclusive("2026-03-01", "x"), Err(RangeError::BadEnd)));
    assert_eq!(prev_date("2026-03-01"), Some("2026-02-28".to_string()));
    assert_eq!(prev_date("x"), None);
    assert_eq!(date_midnight_sec("1970-01-03"), Some(172_800));
}

fn kline_te(asset: &str, recv_ms: i64) -> TimedEvent {
    TimedEvent {
        recv_ms,
        ev: Ev::Kline { asset: asset.to_string(), t_open_ms: recv_ms, close: whole(100) },
    }
}

fn stream(name: &str, asset: &str, times: &[i64]) -> (String, Vec<TimedEvent>) {
    (name.to_string(), times.iter().map(|&t| kline_te(asset, t)).collect())
}

fn asset_of(t: &TimedEvent) -> String {
    match &t.ev {
        Ev::Kline { asset, .. } => asset.clone(),
        _ => "OTHER".to_string(),
    }
}

#[test]
fn g11_streaming_merger_yields_min_recv_ms_first() {
    let (out, _) =
        merge_streams(vec![stream("a", "BTC", &[10, 30, 50]), stream("b", "ETH", &[20, 40, 60])]);
    let times: Vec<i64> = out.iter().map(|t| t.recv_ms).collect();
    assert_eq!(times, vec![10, 20, 30, 40, 50, 60]);
}

#[test]
fn g11_streaming_merger_empty_stream_skipped() {
    let (out, _) = merge_streams(vec![
        stream("a", "BTC", &[5, 25]),
        stream("empty", "", &[]),
        stream("c", "ETH", &[10, 30]),
    ]);
    let times: Vec<i64> = out.iter().map(|t| t.recv_ms).collect();
    assert_eq!(times, vec![5, 10, 25, 30]);
}

#[test]
fn g11_streaming_merger_all_empty_returns_none_on_first_next() {
    let mut m = StreamingMerger::new(vec![("a".into(), None), ("b".into(), None)]);
    assert!(m.next().is_none());
}

#[test]
fn g11_streaming_merger_ties_resolve_by_ascending_stream_index() {
    let (out, _) =
        merge_streams(vec![stream("first", "BTC", &[10, 20]), stream("second", "ETH", &[10, 20])]);
    let assets: Vec<String> = out.iter().map(asset_of).collect();
    assert_eq!(assets, vec!["BTC", "ETH", "BTC", "ETH"]);
}

#[test]
fn g11_streaming_merger_reports_out_of_order_per_stream() {
    let (_, summary) =
        merge_streams(vec![stream("mono", "BTC", &[10, 30, 50]), stream("ooo", "ETH", &[5, 20, 15, 40])]);
    let count = |n: &str| summary.iter().find(|(name, _)| name == n).unwrap().1;
    assert_eq!(count("mono"), 0, "monotonic stream must report 0 OOO");
    assert_eq!(count("ooo"), 1, "stream with one regression must report 1 OOO");
}

#[test]
fn merging_ordered_streams_is_sorting_them() {
    let (merged, _) =
        merge_streams(vec![stream("a", "BTC", &[1, 2, 2, 9]), stream("b", "ETH", &[2, 3])]);
    let mut all = Vec::new();
    for t in [1, 2, 2, 9] {
        all.push(kline_te("BTC", t));
    }
    for t in [2, 3] {
        all.push(kline_te("ETH", t));
    }
    let sorted = sort_events(all);
    let show = |v: &[TimedEvent]| -> Vec<(i64, String)> {
        v.iter().map(|t| (t.recv_ms, asset_of(t))).collect()
    };
    assert_eq!(show(&merged), show(&sorted));
}

#[test]
fn drain_due_returns_positions_in_signal_id_order() {
    let mut active = ActiveTracker::new();
    for sid in ["zzz", "mmm", "aaa", "kkk"] {
        let mut p = lot("BTC", "5m", 0, "Up", 0, 5000, whole(0));
        p.token = format!("tok-{sid}");
        p.signal_id = sid.to_string();
        p.time_exit_bid = None;
        active.add(p);
    }
    let drained = active.drain_due(2000);
    let order: Vec<&str> = drained.iter().map(|p| p.signal_id.as_str()).collect();
    assert_eq!(order, vec!["aaa", "kkk", "mmm", "zzz"]);
    assert!(active.drain_all().is_empty());
}

fn rec_line(received_at: &str) -> String {
    format!(
        r#"{{"received_at":"{received_at}","payload":{{"price":"99.99","size":"123","token":"FORBIDDEN","asset_id":"FORBIDDEN","k":{{"t":0,"c":"0"}}}}}}"#
    )
}

fn scan(lines: &[String]) -> StreamHealth {
    let mut h = StreamHealth::new("2026-05-06".into(), "test_stream".into(), true);
    for l in lines {
        h.scan_line(Some(l));
    }
    h
}

#[test]
fn scan_stream_health_counts_lines_recv_ms_and_skips_garbage() {
    let h = scan(&[
        rec_line("2026-05-06T00:00:01.000+00:00"),
        String::new(),
        rec_line("2026-05-06T00:00:02.000+00:00"),
        "not even json".to_string(),
        rec_line("2026-05-06T00:00:03.000+00:00"),
    ]);
    assert!(h.file_present);
    assert_eq!(h.n_lines, 5);
    assert_eq!(h.n_with_recv_ms, 3);
    assert_eq!(h.n_skipped, 2);
    assert_eq!(h.n_out_of_order, 0);
    assert_eq!(h.n_gaps_over_60s, 0);
}

#[test]
fn scan_stream_health_detects_out_of_order_with_max_skew() {
    let h = scan(&[
        rec_line("2026-05-06T00:00:01.000+00:00"),
        rec_line("2026-05-06T00:00:02.000+00:00"),
        rec_line("2026-05-06T00:00:01.500+00:00"),
        rec_line("2026-05-06T00:00:03.000+00:00"),
    ]);
    assert_eq!(h.n_with_recv_ms, 4);
    assert_eq!(h.n_out_of_order, 1);
    assert_eq!(h.max_ooo_skew_ms, 500);
}

#[test]
fn scan_stream_health_detects_large_gap_over_60s() {
    let h = scan(&[
        rec_line("2026-05-06T00:00:01.000+00:00"),
        rec_line("2026-05-06T00:00:02.000+00:00"),
        rec_line("2026-05-06T00:01:15.000+00:00"),
        rec_line("2026-05-06T00:01:16.000+00:00"),
    ]);
    assert_eq!(h.n_with_recv_ms, 4);
    assert_eq!(h.n_out_of_order, 0);
    assert_eq!(h.n_gaps_over_60s, 1);
    assert_eq!(h.max_gap_ms, 73_000);
}

#[test]
fn lines_that_cannot_be_read_count_as_skipped() {
    let mut h = StreamHealth::new("d".into(), "s".into(), true);
    h.scan_line(None);
    h.count_line(Some(5));
    assert_eq!((h.n_lines, h.n_skipped, h.n_with_recv_ms), (2, 1, 1));
    assert_eq!(line_recv_ms(&rec_line("1970-01-01T00:00:01.000+00:00")), Some(1000));
    assert_eq!(line_recv_ms("x"), None);
}

fn d(num: i64, scale: u32) -> Dec {
    Dec::new(num, scale)
}

#[test]
fn recorded_lines_become_events() {
    let line = r#"{"received_at":"1970-01-01T00:00:02Z","payload":{"k":{"t":1000,"c":"65000.25"}}}"#;
    match read_kline(line, "BTC") {
        Some(TimedEvent { recv_ms, ev: Ev::Kline { asset, t_open_ms, close } }) => {
            assert_eq!((recv_ms, t_open_ms, close), (2000, 1000, Num::Finite(d(6500025, 2))));
            assert_eq!(asset, "BTC");
        }
        o => panic!("expected a candle, got {o:?}"),
    }
    let mut tokens = TokenSet::new();
    tokens.insert("A".into());
    let line = r#"{"received_at":"1970-01-01T00:00:02Z","payload":{"asset_id":"A","timestamp":"1500",
        "bids":[{"price":"0.40","size":"2.5"},{"price":"0.41"}],"asks":[{"price":0.5,"size":1}]}}"#;
    match read_book(line, &tokens) {
        Some(TimedEvent { recv_ms, ev: Ev::BookSnapshot { token, bids, asks, ts_ms } }) => {
            assert_eq!((recv_ms, ts_ms), (2000, 1500));
            assert_eq!(token, "A");
            assert_eq!(bids, vec![(4000, Num::Finite(d(25, 1)))]);
            assert_eq!(asks, vec![(5000, whole(1))]);
        }
        o => panic!("expected a book, got {o:?}"),
    }
    let line = r#"{"received_at":"1970-01-01T00:00:02Z","payload":{"price_changes":[
        {"asset_id":"A","price":"0.40","size":"3","side":"BUY"},
        {"asset_id":"A","price":"0.40","size":"3","side":"hold"},
        {"asset_id":"B","price":"0.40","size":"3","side":"SELL"}]}}"#;
    let events = read_price_changes(line, &tokens);
    assert_eq!(events.len(), 1);
    match &events[0].ev {
        Ev::PriceChange { token, key, size, side, ts_ms } => {
            assert_eq!(token, "A");
            assert_eq!((*key, *size, *ts_ms), (4000, whole(3), 2000));
            assert_eq!(*side, BookSide::Bid);
        }
        o => panic!("expected a change, got {o:?}"),
    }
    assert!(read_book("x", &tokens).is_none());
    let price = Num::Finite(d(4, 1));
    let size = Num::Finite(d(25, 1));
    assert_eq!(make_level(Some(price), Some(size)), Some((4000, size)));
    assert_eq!(make_level(Some(price), None), None);
    assert!(make_candle("BTC", Some(1), Some(0), Some(whole(1))).is_none());
    assert!(make_change(Some(price), Some(whole(1)), "BUY").is_some());
}

#[test]
fn replay_opens_samples_and_closes_lots() {
    let mut r = Replay::new();
    let book = |recv_ms: i64, bid: u32| TimedEvent {
        recv_ms,
        ev: Ev::BookSnapshot {
            token: "T".to_string(),
            bids: vec![(bid, whole(100))],
            asks: vec![(bid + 100, whole(50))],
            ts_ms: recv_ms,
        },
    };
    assert!(r.bbo("T").is_none());
    assert!(r.advance(book(1_000, 5000)).is_none());
    assert_eq!(r.bbo("T"), Some((Some(5000), Some(5100), 1_000)));
    assert!(r.bbo("U").is_none());
    let candle = r.advance(kline_te("BTC", 2_000)).unwrap();
    assert_eq!(candle, ("BTC".to_string(), 2_000, whole(100)));
    let f = Fire {
        asset: "BTC".into(),
        interval: "5m".into(),
        token: "T".into(),
        direction: Direction::Up,
        trigger_ts: 2,
        hold_s: 10,
        fill: 5100,
        shares: 10_000_000,
        ret_bps: whole(5),
        maker_fee_bps: 0,
        taker_fee_bps: 0,
        fee_type: String::new(),
        vol_30m: None,
        vol_60m: None,
    };
    assert!(r.fire(&f, &EntryFilter::NoDca, whole(100), 2_000));
    assert!(!r.fire(&f, &EntryFilter::NoDca, whole(100), 2_000), "one lot is open");
    r.advance(book(3_000, 5200));
    assert_eq!(r.active.lots.len(), 1);
    assert_eq!(r.active.lots[0].signal_id, "BTC-2-5m-Up");
    assert_eq!(r.active.lots[0].trajectory, vec![(3_000, Some(52_000_000_000))]);
    r.advance(kline_te("BTC", 12_500));
    assert!(r.active.lots.is_empty());
    assert_eq!(r.closed.len(), 1);
    assert_eq!(r.closed[0].exit_ts_ms, 12_000);
    assert_eq!(r.closed[0].time_exit_bid, Some(52_000_000_000));
    r.finish();
    assert_eq!(r.closed.len(), 1);
}

#[test]
fn candles_are_kept_up_to_a_limit() {
    let mut h = KlineHist::with_capacity(3);
    for i in 0..5 {
        h.push(i * 1000, whole(i));
    }
    assert_eq!(h.vol_window(2, 5_000), Some(vec![whole(2), whole(3), whole(4)]));
    assert_eq!(h.vol_window(3, 5_000), None, "too short");
    assert_eq!(h.vol_window(2, 500), None, "a gap");
    let mut active = ActiveTracker::new();
    let mut p = lot("BTC", "5m", 0, "Up", 0, 5000, whole(0));
    p.entry_trigger_ts_ms = 1_000;
    active.add(p);
    record_kline_for_active(&mut active, "BTC", 3_000, whole(77));
    assert_eq!(active.lots[0].binance_close_at_2s, Some(whole(77)));
    assert_eq!(active.lots[0].binance_close_at_5s, None);
    record_kline_for_active(&mut active, "ETH", 6_000, whole(78));
    assert_eq!(active.lots[0].binance_close_at_5s, None);
}

#[test]
fn a_close_that_is_no_number_leaves_its_place_open() {
    let mut active = ActiveTracker::new();
    let mut p = lot("BTC", "5m", 0, "Up", 0, 5000, whole(0));
    p.entry_trigger_ts_ms = 1_000;
    active.add(p);
    record_kline_for_active(&mut active, "BTC", 3_000, Num::NotANumber);
    assert_eq!(active.lots[0].binance_close_at_2s, Some(Num::NotANumber));
    record_kline_for_active(&mut active, "BTC", 3_000, whole(77));
    assert_eq!(active.lots[0].binance_close_at_2s, Some(whole(77)));
    record_kline_for_active(&mut active, "BTC", 3_000, whole(78));
    assert_eq!(active.lots[0].binance_close_at_2s, Some(whole(77)));
}

#[test]
fn a_signal_is_named_after_its_market() {
    assert_eq!(name_signal("BTC", 1_700_000_000, "5m", Direction::Up), "BTC-1700000000-5m-Up");
    assert_eq!(name_signal("ETH", -7, "15m", Direction::Down), "ETH--7-15m-Down");
}

#[test]
fn imbalance_of_the_best_levels() {
    let mut b = FullBook::default();
    assert!(compute_obi(&b, 1).is_none());
    b.apply_snapshot(
        &[(4000, whole(30)), (3900, whole(50))],
        &[(4100, whole(10)), (4200, whole(70))],
        0,
    );
    let fine = 1_000_000_000_000_000;
    let one = compute_obi(&b, 1).unwrap();
    assert_eq!((one.net, one.total), (20 * fine, 40 * fine as u128));
    let three = compute_obi(&b, 3).unwrap();
    assert_eq!((three.net, three.total), (0, 160 * fine as u128));
    assert!(compute_obi(&b, 0).is_none());
}

#[test]
fn a_lot_as_the_decisions_see_it() {
    let mut p = lot("ETH", "15m", 900, "Down", 1_234, 4_321, whole(0));
    p.exit_ts_ms = 12_999;
    let o = open_position_for_decide(&p);
    assert_eq!(o.token_id, p.token);
    assert_eq!(o.signal_id, p.signal_id);
    assert_eq!((o.asset.as_str(), o.interval.as_str()), ("ETH", "15m"));
    assert_eq!(o.side, Outcome::Down);
    assert_eq!(o.entry_price.to_text(), "0.4321");
    assert_eq!(o.shares.to_text(), "10.000000");
    assert_eq!((o.opened_at_ms, o.exit_ts_s, o.entry_ts_ms), (1_234, 12, 0));
    assert!(o.maker_exit.is_none());
    p.exit_ts_ms = -1_500;
    assert_eq!(open_position_for_decide(&p).exit_ts_s, -1);
    assert!(Replay::new().open_positions().is_empty());
}

#[test]
fn each_refusal_of_a_phase_has_its_dates() {
    let e = BtPhase::Exploration;
    assert!(matches!(
        validate_phase_dates(e, "2026-05-06", "2026-05-17"),
        Err(PhaseError::EndInValidation { .. })
    ));
    assert!(matches!(
        validate_phase_dates(e, "2026-05-20", "2026-05-16"),
        Err(PhaseError::StartInValidation { .. })
    ));
    let listed = vec!["2026-05-16".to_string(), "2026-05-17".to_string()];
    assert!(matches!(
        validate_include_dates(e, &listed),
        Err(PhaseError::ListedInValidation { .. })
    ));
    assert!(validate_include_dates(BtPhase::Validation, &listed).is_ok());
}

#[test]
fn a_range_up_to_the_last_date_overflows() {
    let last = "+262142-12-31";
    assert!(matches!(dates_inclusive(last, last), Err(RangeError::Overflow)));
}

#[test]
fn a_volatility_is_taken_over_candles_from_before_the_signal() {
    let mut day = DayReplay::new();
    for i in 0..3 {
        day.keep_candle("BTC", i * 1_000, whole(100 + i));
    }
    day.keep_candle("SOL", 0, whole(1));
    assert_eq!(day.lookback("BTC", 2), Some(vec![whole(100), whole(101), whole(102)]));
    let candle = day.on_event(kline_te("BTC", 3_000)).unwrap();
    assert_eq!((candle.t_open_ms, candle.close, candle.recv_ms), (3_000, whole(100), 3_000));
    assert_eq!(day.lookback("BTC", 2), Some(vec![whole(100), whole(101), whole(102)]));
    let f = Fire {
        asset: "BTC".into(),
        interval: "5m".into(),
        token: "T".into(),
        direction: Direction::Up,
        trigger_ts: 3,
        hold_s: 10,
        fill: 5100,
        shares: 10_000_000,
        ret_bps: whole(5),
        maker_fee_bps: 0,
        taker_fee_bps: 0,
        fee_type: String::new(),
        vol_30m: None,
        vol_60m: None,
    };
    assert!(day.bet(&f, &EntryFilter::Baseline, &candle));
    assert_eq!(day.lookback("BTC", 2), Some(vec![whole(100), whole(101), whole(102)]));
    day.keep_candle(&candle.asset, candle.t_open_ms, candle.close);
    assert_eq!(day.lookback("BTC", 2), Some(vec![whole(101), whole(102), whole(100)]));
    assert_eq!(day.lookback("BTC", 4), None);
    assert_eq!(day.lookback("ETH", 1), None);
    assert_eq!(day.lookback("SOL", 0), None);
    assert_eq!(day.n_events, 1);
    let lots = day.finish();
    assert_eq!(lots.len(), 1);
    assert_eq!(lots[0].trigger_close, whole(100));
}

#[test]
fn the_longest_gap_is_any_step_forward() {
    let mut h = StreamHealth::new("d".into(), "s".into(), true);
    for t in [1_000, 2_000, 4_000] {
        h.count_line(Some(t));
    }
    assert_eq!((h.max_gap_ms, h.n_gaps_over_60s), (2_000, 0));
    h.count_line(None);
    h.count_line(Some(3_000));
    h.count_line(Some(3_500));
    assert_eq!((h.max_gap_ms, h.max_ooo_skew_ms), (2_000, 1_000));
}

#[test]
fn sizes_and_closes_are_kept_as_they_are_written() {
    let line = r#"{"received_at":"1970-01-01T00:00:02Z","payload":{"asset_id":"A","bids":[
        {"price":"0.40","size":"0.00000000001"},{"price":"inf","size":"1e40"},
        {"price":"nan","size":"-inf"},{"price":"1e40","size":"NaN"}],"asks":[]}}"#;
    let mut tokens = TokenSet::new();
    tokens.insert("A".into());
    let bids = match read_book(line, &tokens) {
        Some(TimedEvent { ev: Ev::BookSnapshot { bids, .. }, .. }) => bids,
        o => panic!("expected a book, got {o:?}"),
    };
    assert_eq!(
        bids,
        vec![
            (4000, Num::Finite(d(1, 11))),
            (u32::MAX, Num::Infinite { negative: false }),
            (0, Num::Infinite { negative: true }),
            (u32::MAX, Num::NotANumber),
        ]
    );
    let line = r#"{"received_at":"1970-01-01T00:00:02Z","payload":{"k":{"t":1,"c":"+Infinity"}}}"#;
    match read_kline(line, "BTC") {
        Some(TimedEvent { ev: Ev::Kline { close, .. }, .. }) => {
            assert_eq!(close, Num::Infinite { negative: false });
        }
        o => panic!("expected a candle, got {o:?}"),
    }
    let line = r#"{"received_at":"1970-01-01T00:00:02Z","payload":{"k":{"t":1,"c":"0.0000000000001"}}}"#;
    match read_kline(line, "BTC") {
        Some(TimedEvent { ev: Ev::Kline { close, .. }, .. }) => {
            assert_eq!(close, Num::Finite(d(1, 13)));
        }
        o => panic!("expected a candle, got {o:?}"),
    }
}

#[test]
fn sizes_that_are_no_finite_numbers() {
    let mut b = FullBook::default();
    let inf = Num::Infinite { negative: false };
    b.apply_snapshot(&[(4000, Num::NotANumber), (3900, inf), (3800, whole(-1))], &[], 0);
    assert_eq!(b.bids.len(), 1, "only what is above zero stands in a snapshot");
    assert_eq!(b.executable_bid_for_shares(u64::MAX), Some(u64::MAX as u128 * 3900));
    b.apply_price_change(4100, Num::NotANumber, BookSide::Bid, 1);
    assert_eq!(b.best_bid(), Some(4100), "a change takes a level away only at or below zero");
    assert_eq!(b.executable_bid_for_shares(1_000_000), Some(4_100_000_000));
    b.apply_price_change(4100, Num::Infinite { negative: true }, BookSide::Bid, 2);
    assert_eq!(b.best_bid(), Some(3900));
    b.apply_price_change(4000, whole(1), BookSide::Ask, 3);
    assert!(compute_obi(&b, 1).is_none(), "an infinite size has no share");
    b.apply_price_change(3900, whole(3), BookSide::Bid, 4);
    let obi = compute_obi(&b, 1).unwrap();
    assert_eq!(2 * obi.net, obi.total as i128);
}

#[test]
fn fine_sizes_count_in_a_sale() {
    let mut b = FullBook::default();
    b.apply_snapshot(&[(5000, Num::Finite(d(5, 7))), (4000, whole(1))], &[], 0);
    assert_eq!(b.executable_bid_for_shares(1), Some(4_500));
    assert_eq!(b.executable_bid_for_shares(1_000_000), Some(4_000_000_500));
    assert_eq!(b.executable_bid_for_shares(1_000_001), None, "half a millionth is missing");
    b.apply_price_change(5000, Num::Finite(d(1, 6)), BookSide::Bid, 1);
    assert_eq!(b.executable_bid_for_shares(1_000_001), Some(4_000_005_000));
}

#[test]
fn samples_of_a_replayed_lot_are_pairs_within_its_life() {
    let mut r = Replay::new();
    let book = |recv_ms: i64, bid: u32| TimedEvent {
        recv_ms,
        ev: Ev::BookSnapshot {
            token: "T".to_string(),
            bids: vec![(bid, whole(100))],
            asks: vec![(bid + 100, whole(50))],
            ts_ms: recv_ms,
        },
    };
    r.advance(book(900_000, 5000));
    let f = Fire {
        asset: "BTC".into(),
        interval: "15m".into(),
        token: "T".into(),
        direction: Direction::Up,
        trigger_ts: 1_000,
        hold_s: 10,
        fill: 5100,
        shares: 10_000_000,
        ret_bps: whole(5),
        maker_fee_bps: 0,
        taker_fee_bps: 0,
        fee_type: String::new(),
        vol_30m: None,
        vol_60m: None,
    };
    assert!(r.fire(&f, &EntryFilter::Baseline, whole(1), 1_000_500));
    for ms in [1_000_500, 1_003_000, 1_009_999, 1_010_000, 1_011_000] {
        r.advance(book(ms, 5000));
    }
    r.finish();
    let lot = &r.closed[0];
    assert_eq!(lot.epoch, 900);
    let times: Vec<i64> = lot.trajectory.iter().map(|s| s.0).collect();
    assert_eq!(times, vec![1_000_500, 1_003_000, 1_009_999]);
    let paired: Vec<i64> = lot.trajectory_bbo.iter().map(|s| s.0).collect();
    assert_eq!(times, paired);
}

#[test]
fn a_refused_end_date_says_why() {
    let msg = validate_phase_dates(BtPhase::Exploration, "2026-05-06", "2026-05-17")
        .unwrap_err()
        .message();
    assert!(msg.starts_with(
        "OUT-OF-SAMPLE DISCIPLINE VIOLATION: phase=exploration but --bt-end-date=2026-05-17 \
         reaches into the validation set (cutoff = 2026-05-17).\n\nDates >= 2026-05-17 are \
         reserved for the Fase 3 final validation gate and MUST NOT be peeked at"
    ));
    assert!(msg.ends_with("set --bt-end-date to a value < 2026-05-17 (e.g. 2026-05-16)."));
}
