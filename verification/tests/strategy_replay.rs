use rust_bot::b3_maker::{B3ExitKind, ReplayLot};
use rust_bot::decimal::Dec;
use rust_bot::strategy_replay::{read_trade, StrategyReplay};

fn d(num: i64, scale: u32) -> Dec {
    Dec::new(num, scale)
}

const TOUCHED: &str = r#"{"signal_id":"s1","asset":"ETH","interval":"5m","entry_price":0.65,
    "shares":10,"baseline_exit_price":0.60,
    "hwm_120s":[[0,0.66],[1000,0.76]],"lwm_120s":[[0,0.66],[1000,0.66]]}"#;
const BASELINE: &str = r#"{"signal_id":"s2","asset":"BTC","interval":"5m","entry_price":0.65,
    "shares":10,"baseline_exit_price":0.60}"#;
const RETIRED: &str = r#"{"asset":"ETH","interval":"15m","entry_price":0.65,"shares":10}"#;
const UNREACHABLE: &str = r#"{"asset":"BTC","interval":"15m","entry_price":0.95,"shares":10}"#;

#[test]
fn a_line_gives_a_trade() {
    let t = read_trade(TOUCHED).unwrap();
    assert_eq!(t.signal_id, "s1");
    assert_eq!(t.asset, "ETH");
    assert_eq!(t.interval, "5m");
    assert_eq!(t.entry, d(65, 2));
    assert_eq!(t.shares, d(10, 0));
    assert_eq!(t.time_exit_bid, d(6, 1));
    assert_eq!(t.hwm, vec![(0, d(66, 2)), (1000, d(76, 2))]);
    assert_eq!(t.lwm, vec![(0, d(66, 2)), (1000, d(66, 2))]);
}

#[test]
fn what_a_line_does_not_give_is_zero_or_empty() {
    let t = read_trade("{}").unwrap();
    assert_eq!(t.asset, "");
    assert!(t.entry.is_zero() && t.shares.is_zero() && t.time_exit_bid.is_zero());
    assert!(t.hwm.is_empty() && t.lwm.is_empty());
    let t = read_trade(UNREACHABLE).unwrap();
    assert_eq!(t.time_exit_bid, d(95, 2));
}

#[test]
fn what_is_no_pair_is_passed_over() {
    let t = read_trade(
        r#"{"hwm_120s":[[0,0.5],7,[1],["2",0.5],[3,"0.5"],{"0":4,"1":0.5},[5,0.75,9]],
            "lwm_120s":3,"entry_price":"0.5"}"#,
    )
    .unwrap();
    assert_eq!(t.hwm, vec![(0, d(5, 1)), (5, d(75, 2))]);
    assert!(t.lwm.is_empty());
    assert!(t.entry.is_zero());
}

#[test]
fn a_line_that_is_not_json_gives_no_trade() {
    assert!(read_trade("entry_price=0.65").is_none());
}

#[test]
fn trades_are_counted_in_their_cells() {
    let mut r = StrategyReplay::new();
    for line in [TOUCHED, BASELINE, RETIRED, UNREACHABLE, TOUCHED] {
        assert!(r.add_trade(&read_trade(line).unwrap()).is_some());
    }
    assert_eq!(r.read(), 5);
    assert_eq!(r.retired(), 1);
    assert_eq!(r.cells(), &vec!["BTC_15m".to_string(), "BTC_5m".to_string(), "ETH_5m".to_string()]);

    let unreachable = &r.aggregates()[0];
    assert_eq!((unreachable.n, unreachable.invalid_target, unreachable.f1_time_exit), (1, 1, 1));
    assert!(unreachable.gross.is_zero());
    assert_eq!(unreachable.net, d(-665, 4));

    let baseline = &r.aggregates()[1];
    assert_eq!((baseline.n, baseline.net_wins, baseline.first_touch), (1, 0, 0));
    assert_eq!(baseline.gross, d(-5, 1));
    assert_eq!(baseline.net, d(-82725, 5));
    assert_eq!(baseline.net_gross_loss, d(82725, 5));

    let touched = &r.aggregates()[2];
    assert_eq!((touched.n, touched.net_wins, touched.first_touch), (2, 2, 2));
    assert_eq!(touched.gross, d(2, 0));
    assert_eq!(touched.net, d(16815, 4));
    assert_eq!(touched.net_gross_gain, d(16815, 4));

    let all = r.overall();
    assert_eq!((all.n, all.net_wins), (4, 2));
    assert_eq!(all.gross, Some(d(15, 1)));
    assert_eq!(all.net, Some(d(78775, 5)));
    assert_eq!(all.net_gross_gain, Some(d(16815, 4)));
    assert_eq!(all.net_gross_loss, Some(d(89375, 5)));
}

#[test]
fn a_trade_is_answered_with_what_became_of_it() {
    let mut r = StrategyReplay::new();
    match r.add_trade(&read_trade(TOUCHED).unwrap()) {
        Some(ReplayLot::Maker { outcome, invalid_target }) => {
            assert!(!invalid_target);
            assert_eq!(outcome.exit_kind, B3ExitKind::FirstTouch);
            assert_eq!(outcome.exit_price, d(75, 2));
            assert_eq!(outcome.net_pnl, d(84075, 5));
        }
        o => panic!("expected Maker, got {o:?}"),
    }
    assert!(matches!(r.add_trade(&read_trade(RETIRED).unwrap()), Some(ReplayLot::Excluded)));
}

#[test]
fn an_amount_out_of_range_counts_nothing() {
    let mut r = StrategyReplay::new();
    let huge = r#"{"asset":"BTC","interval":"5m","entry_price":0,"shares":1e20,
        "baseline_exit_price":1e20}"#;
    let t = read_trade(huge).unwrap();
    assert_eq!(t.shares.to_text(), "100000000000000000000");
    assert!(r.add_trade(&t).is_none());
    assert_eq!(r.read(), 0);
    assert!(r.cells().is_empty());
}
