use rust_bot::backtest::record::TokenSet;
use rust_bot::bbo_dump::{event_touches, load_strategy_tokens, trades_market};
use rust_bot::capa_b::{
    date_midnight_sec, peek_hour, read_kline_line, read_pm_line, recv_ms, sort_timed, window,
    window_seconds, Ev, Line, Parity, Quotes, Timed, Win,
};
use rust_bot::dates::days_from_civil;
use rust_bot::config::Num;
use rust_bot::decimal::Dec;

fn same(a: Num, num: i64, scale: u32) -> bool {
    let a = match a {
        Num::Finite(d) => d,
        o => panic!("expected a finite number, got {o:?}"),
    };
    let b = Dec::new(num, scale);
    !a.less_than(b) && !b.less_than(a)
}

fn tokens(names: &[&str]) -> TokenSet {
    let mut t = TokenSet::new();
    for n in names {
        t.insert(n.to_string());
    }
    t
}

fn events(line: Line) -> Vec<Timed> {
    match line {
        Line::Events(v) => v,
        o => panic!("expected events, got {o:?}"),
    }
}

#[test]
fn recv_ms_parses_utc() {
    let (ms, hour) = recv_ms("2026-05-28T03:06:44.851330+00:00").unwrap();
    assert_eq!(hour, 3);
    let (ms2, _) = recv_ms("2026-05-28T03:06:45.851330+00:00").unwrap();
    assert_eq!(ms2 - ms, 1000);
    assert_eq!(ms, 1_779_937_604_851);
}

#[test]
fn recv_ms_without_a_fraction_and_too_short() {
    assert_eq!(recv_ms("1970-01-01T00:00:01").unwrap(), (1000, 0));
    assert_eq!(recv_ms("1970-01-01T00:00:01.5").unwrap(), (1500, 0));
    assert!(recv_ms("1970-01-01T00:00").is_none());
    assert!(recv_ms("1970-01-01Txx:00:00").is_none());
}

#[test]
fn days_from_civil_epoch() {
    assert_eq!(days_from_civil(1970, 1, 1), 0);
    assert_eq!(days_from_civil(1970, 1, 2), 1);
    assert_eq!(days_from_civil(2000, 1, 1), 10957);
}

#[test]
fn window_of_hours_in_seconds() {
    assert_eq!(date_midnight_sec("1970-01-02"), Some(86_400));
    assert_eq!(window_seconds("1970-01-02", 1, 3), Some((90_000, 97_200)));
    assert!(window_seconds("1970-01", 1, 3).is_none());
}

#[test]
fn lines_outside_the_window_are_passed_over() {
    let line = r#"{"received_at":"2026-05-28T03:06:44.851330+00:00","payload":{}}"#;
    assert_eq!(peek_hour(line), Some(3));
    assert!(matches!(window(line, 3, 4), Win::Take));
    assert!(matches!(window(line, 4, 5), Win::Skip));
    assert!(matches!(window(line, 0, 3), Win::Stop));
    assert_eq!(peek_hour("{}"), None);
    assert!(matches!(window("{}", 4, 5), Win::Take));
}

const KLINE: &str = r#"{"received_at":"1970-01-01T00:00:02+00:00","payload":{"data":{"k":{"x":true,"t":1000,"c":"65000.25"}}}}"#;

#[test]
fn closed_candles_are_taken() {
    let v = events(read_kline_line(KLINE, "BTC", 0, 24));
    assert_eq!(v.len(), 1);
    assert_eq!(v[0].recv_ms, 2000);
    match &v[0].ev {
        Ev::Kline { asset, t_open_ms, close } => {
            assert_eq!(asset, "BTC");
            assert_eq!(*t_open_ms, 1000);
            assert!(same(*close, 6500025, 2));
        }
        o => panic!("expected a candle, got {o:?}"),
    }
    let open = KLINE.replace("true", "false");
    assert!(matches!(read_kline_line(&open, "BTC", 0, 24), Line::Skip));
    let unquoted = KLINE.replace("\"65000.25\"", "65000.25");
    assert!(matches!(read_kline_line(&unquoted, "BTC", 0, 24), Line::Skip));
    assert!(matches!(read_kline_line("  ", "BTC", 0, 24), Line::Skip));
    assert!(matches!(read_kline_line("not json", "BTC", 0, 24), Line::Skip));
    assert!(matches!(read_kline_line(KLINE, "BTC", 1, 24), Line::Skip));
    assert!(matches!(read_kline_line(KLINE, "BTC", 0, 0), Line::Stop));
}

#[test]
fn changes_need_both_best_prices() {
    let line = r#"{"received_at":"1970-01-01T00:00:02+00:00","payload":{"timestamp":"1500","price_changes":[
        {"asset_id":"A","best_ask":"0.52","best_bid":0.5},
        {"asset_id":"A","best_ask":"0.52"},
        {"asset_id":"B","best_ask":"0.52","best_bid":"0.50"}]}}"#;
    let v = events(read_pm_line(line, "price_change", &tokens(&["A"]), 0, 24));
    assert_eq!(v.len(), 1);
    match &v[0].ev {
        Ev::Bbo { token, best_ask, best_bid, ts_ms } => {
            assert_eq!(token, "A");
            assert!(same(best_ask.unwrap(), 52, 2));
            assert!(same(best_bid.unwrap(), 50, 2));
            assert_eq!(*ts_ms, 1500);
        }
        o => panic!("expected prices, got {o:?}"),
    }
}

#[test]
fn quotes_may_lack_a_side_and_books_give_their_last_levels() {
    let quote = r#"{"received_at":"1970-01-01T00:00:02+00:00","payload":{"asset_id":"A","best_bid":"0.50"}}"#;
    let v = events(read_pm_line(quote, "best_bid_ask", &tokens(&["A"]), 0, 24));
    match &v[0].ev {
        Ev::Bbo { best_ask, best_bid, ts_ms, .. } => {
            assert!(best_ask.is_none());
            assert!(same(best_bid.unwrap(), 50, 2));
            assert_eq!(*ts_ms, 2000);
        }
        o => panic!("expected prices, got {o:?}"),
    }
    let book = r#"{"received_at":"1970-01-01T00:00:02+00:00","payload":{"asset_id":"A",
        "bids":[{"price":"0.40"},{"price":"0.49"}],"asks":[{"price":"0.60"},{"price":"0.51"}]}}"#;
    let v = events(read_pm_line(book, "book", &tokens(&["A"]), 0, 24));
    match &v[0].ev {
        Ev::Bbo { best_ask, best_bid, .. } => {
            assert!(same(best_ask.unwrap(), 51, 2));
            assert!(same(best_bid.unwrap(), 49, 2));
        }
        o => panic!("expected prices, got {o:?}"),
    }
    assert!(events(read_pm_line(book, "book", &tokens(&["B"]), 0, 24)).is_empty());
}

#[test]
fn parity_counts_triggers() {
    let mut p = Parity::new();
    p.note(false, false, true);
    p.note(true, true, true);
    assert!(p.holds());
    p.note(true, false, false);
    assert!(!p.holds());
    assert_eq!((p.triggers, p.matches, p.mismatches), (2, 1, 1));
}

#[test]
fn strategy_tokens_are_those_of_four_markets() {
    assert!(trades_market("BTC", "5m") && trades_market("ETH", "15m"));
    assert!(!trades_market("SOL", "5m") && !trades_market("BTC", "1h"));
    let lines: Vec<String> = vec![
        r#"{"market":{"asset":"BTC","interval":"5m","up_token_id":"u","down_token_id":"d"}}"#.into(),
        r#"{"market":{"asset":"SOL","interval":"5m","up_token_id":"x","down_token_id":"y"}}"#.into(),
        r#"{"market":{"asset":"ETH","interval":"15m","up_token_id":"","down_token_id":"e"}}"#.into(),
        "".into(),
        "not json".into(),
    ];
    let t = load_strategy_tokens(&lines);
    assert!(t.contains("u") && t.contains("d") && t.contains("e"));
    assert!(!t.contains("x") && !t.contains("y") && !t.contains(""));
}

#[test]
fn events_touch_strategy_tokens() {
    let t = tokens(&["A", "B"]);
    let book = r#"{"payload":{"asset_id":"A"}}"#;
    assert_eq!(event_touches(book, "book", &t), vec!["A".to_string()]);
    assert!(event_touches(r#"{"payload":{"asset_id":"C"}}"#, "book", &t).is_empty());
    let changes = r#"{"payload":{"price_changes":[
        {"asset_id":"A","best_ask":null,"best_bid":"0.5"},
        {"asset_id":"B","best_ask":"0.6"},
        {"asset_id":"C","best_ask":"0.6","best_bid":"0.5"},
        {"asset_id":"B","best_ask":"0.6","best_bid":"0.5"}]}}"#;
    assert_eq!(
        event_touches(changes, "price_change", &t),
        vec!["A".to_string(), "B".to_string()]
    );
    let older = changes.replace("price_changes", "changes");
    assert_eq!(event_touches(&older, "price_change", &t).len(), 2);
    assert!(event_touches("{}", "book", &t).is_empty());
}

fn quote_at(recv_ms: i64, token: &str, bid: i64) -> Timed {
    Timed {
        recv_ms,
        ev: Ev::Bbo {
            token: token.to_string(),
            best_ask: None,
            best_bid: Some(Num::Finite(Dec::new(bid, 2))),
            ts_ms: recv_ms,
        },
    }
}

#[test]
fn events_of_one_time_keep_their_order() {
    let events = vec![quote_at(30, "a", 1), quote_at(10, "b", 2), quote_at(30, "c", 3), quote_at(10, "d", 4)];
    let sorted = sort_timed(events);
    let seen: Vec<(i64, String)> = sorted
        .iter()
        .map(|t| match &t.ev {
            Ev::Bbo { token, .. } => (t.recv_ms, token.clone()),
            Ev::Kline { asset, .. } => (t.recv_ms, asset.clone()),
        })
        .collect();
    let expected: Vec<(i64, String)> =
        [(10, "b"), (10, "d"), (30, "a"), (30, "c")].iter().map(|(t, n)| (*t, n.to_string())).collect();
    assert_eq!(seen, expected);
}

#[test]
fn the_last_quote_of_a_token_counts() {
    let mut q = Quotes::new();
    assert!(q.get("a").is_none());
    q.note(&quote_at(1, "a", 40).ev);
    q.note(&quote_at(2, "b", 50).ev);
    q.note(&quote_at(3, "a", 41).ev);
    q.note(&Ev::Kline { asset: "BTC".to_string(), t_open_ms: 4, close: Num::Finite(Dec::new(1, 0)) });
    let a = q.get("a").unwrap();
    assert_eq!(a.best_bid, Some(Num::Finite(Dec::new(41, 2))));
    assert_eq!(a.ts_ms, 3);
    assert_eq!(q.get("b").unwrap().ts_ms, 2);
}

#[test]
fn a_set_of_tokens_is_empty_until_one_is_put_in() {
    let mut t = TokenSet::new();
    assert!(t.is_empty());
    t.insert("a".to_string());
    assert!(!t.is_empty());
}

#[test]
fn days_follow_each_other_and_repeat_after_400_years() {
    for (before, after) in [
        ((2024, 2, 28), (2024, 2, 29)),
        ((2024, 2, 29), (2024, 3, 1)),
        ((1900, 2, 28), (1900, 3, 1)),
        ((2000, 12, 31), (2001, 1, 1)),
        ((-1, 12, 31), (0, 1, 1)),
    ] {
        let (a, b): ((i64, i64, i64), (i64, i64, i64)) = (before, after);
        assert_eq!(days_from_civil(b.0, b.1, b.2), days_from_civil(a.0, a.1, a.2) + 1);
        assert_eq!(days_from_civil(a.0 + 400, a.1, a.2), days_from_civil(a.0, a.1, a.2) + 146_097);
    }
}
