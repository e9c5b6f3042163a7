use rust_bot::canary::{Canary, CanaryConfig, CanaryReason, CanaryState};
use rust_bot::config::Num;
use rust_bot::decimal::Dec;

fn num(m: i64, scale: u32) -> Num {
    Num::Finite(Dec::new(m, scale))
}

fn cfg() -> CanaryConfig {
    CanaryConfig::default()
}

fn feed(c: &mut Canary, asset: &str, wins: usize, total: usize, t0: i64) {
    for i in 0..total {
        c.record_hold(asset, i < wins, t0 + i as i64);
    }
}

#[test]
fn green_until_window_fills() {
    let mut c = Canary::new(cfg());
    feed(&mut c, "BTC", 0, 29, 0);
    assert_eq!(c.state("BTC"), CanaryState::Green);
}

#[test]
fn amber_then_red_at_thresholds() {
    let mut c = Canary::new(cfg());
    feed(&mut c, "BTC", 14, 30, 0);
    assert_eq!(c.state("BTC"), CanaryState::Amber);
    let mut c2 = Canary::new(cfg());
    feed(&mut c2, "BTC", 12, 30, 0);
    assert_eq!(c2.state("BTC"), CanaryState::Red);
}

#[test]
fn green_when_healthy() {
    let mut c = Canary::new(cfg());
    feed(&mut c, "BTC", 20, 30, 0);
    assert_eq!(c.state("BTC"), CanaryState::Green);
}

#[test]
fn red_holds_through_cooldown_then_resumes_amber() {
    let mut c = Canary::new(cfg());
    feed(&mut c, "BTC", 12, 30, 0);
    assert_eq!(c.state("BTC"), CanaryState::Red);
    c.tick("BTC", 30 * 60 * 1000);
    assert_eq!(c.state("BTC"), CanaryState::Red);
    c.tick("BTC", 61 * 60 * 1000);
    assert_eq!(c.state("BTC"), CanaryState::Amber);
}

#[test]
fn resume_probation_promotes_to_green_on_good_run() {
    let mut c = Canary::new(cfg());
    feed(&mut c, "BTC", 12, 30, 0);
    c.tick("BTC", 61 * 60 * 1000);
    assert_eq!(c.state("BTC"), CanaryState::Amber);
    let base = 62 * 60 * 1000;
    for i in 0..10 {
        c.record_hold("BTC", i < 6, base + i as i64);
    }
    assert_eq!(c.state("BTC"), CanaryState::Green);
}

#[test]
fn resume_probation_falls_back_to_red_on_bad_run() {
    let mut c = Canary::new(cfg());
    feed(&mut c, "BTC", 12, 30, 0);
    c.tick("BTC", 61 * 60 * 1000);
    let base = 62 * 60 * 1000;
    for i in 0..10 {
        c.record_hold("BTC", i < 3, base + i as i64);
    }
    assert_eq!(c.state("BTC"), CanaryState::Red);
}

#[test]
fn vol_acceleration_forces_amber_and_only_arm1_reds() {
    let mut c = Canary::new(cfg());
    feed(&mut c, "BTC", 25, 30, 0);
    assert_eq!(c.state("BTC"), CanaryState::Green);
    c.update_vol("BTC", num(36, 1), num(10, 1), 1_000);
    assert_eq!(c.state("BTC"), CanaryState::Amber);
    assert_ne!(c.state("BTC"), CanaryState::Red);
    c.tick("BTC", 1_000 + 11 * 60 * 1000);
    assert_eq!(c.state("BTC"), CanaryState::Green);
}

#[test]
fn disabled_is_always_green() {
    let mut cf = cfg();
    cf.enabled = false;
    let mut c = Canary::new(cf);
    feed(&mut c, "BTC", 0, 40, 0);
    assert_eq!(c.state("BTC"), CanaryState::Green);
}

#[test]
fn per_asset_isolation() {
    let mut c = Canary::new(cfg());
    feed(&mut c, "BTC", 12, 30, 0);
    feed(&mut c, "ETH", 22, 30, 0);
    assert_eq!(c.state("BTC"), CanaryState::Red);
    assert_eq!(c.state("ETH"), CanaryState::Green);
}

#[test]
fn transitions_are_reported_with_their_reason() {
    let mut c = Canary::new(cfg());
    feed(&mut c, "BTC", 12, 29, 0);
    let t = c.record_hold("BTC", false, 29).unwrap();
    assert_eq!(t.from, CanaryState::Green);
    assert_eq!(t.to, CanaryState::Red);
    assert_eq!(t.wr, Some((12, 30)));
    assert_eq!(t.reason.as_str(), CanaryReason::HoldwrRed.as_str());
    assert_eq!(t.reason.as_str(), "holdwr_red");
    assert_eq!(CanaryReason::VolAccel.as_str(), "vol_accel");
    assert_eq!(CanaryReason::HoldwrAmberOrResume.as_str(), "holdwr_amber_or_resume");
    assert_eq!(CanaryReason::Recovered.as_str(), "recovered");
}

#[test]
fn volatility_below_the_floor_changes_nothing() {
    let mut c = Canary::new(cfg());
    feed(&mut c, "BTC", 25, 30, 0);
    assert!(c.update_vol("BTC", num(19, 1), num(1, 1), 1_000).is_none());
    assert_eq!(c.state("BTC"), CanaryState::Green);
}

#[test]
fn snapshot_shows_the_worst_state() {
    let mut c = Canary::new(cfg());
    feed(&mut c, "ETH", 22, 30, 0);
    feed(&mut c, "BTC", 12, 30, 0);
    let shown = c.snapshot();
    assert!(shown.enabled);
    assert_eq!(shown.assets.len(), 2);
    assert_eq!(shown.state, CanaryState::Red);
    let btc = shown.assets.iter().find(|r| r.asset == "BTC").unwrap();
    assert_eq!(btc.wr, Some((12, 30)));
    assert_eq!(btc.n, 30);
}

#[test]
fn a_canary_that_is_off_shows_so() {
    let mut cf = cfg();
    cf.enabled = false;
    let mut c = Canary::new(cf);
    assert!(c.record_hold("BTC", false, 0).is_none());
    let shown = c.snapshot();
    assert!(!shown.enabled);
    assert_eq!(shown.state, CanaryState::Green);
    assert!(shown.assets.is_empty());
}

#[test]
fn only_an_amber_hold_has_to_fit_the_clock() {
    let mut c = Canary::new(cfg());
    assert!(c.update_vol("BTC", num(1, 0), num(1, 0), i64::MAX).is_none());
    assert_eq!(c.state("BTC"), CanaryState::Green);
    let mut cf = cfg();
    cf.enabled = false;
    let mut off = Canary::new(cf);
    assert!(off.update_vol("BTC", num(90, 0), num(1, 0), i64::MAX).is_none());
    assert!(off.snapshot().assets.is_empty());
}

#[test]
fn words_and_limits_of_states() {
    assert_eq!(CanaryState::Green.as_str(), "green");
    assert_eq!(CanaryState::Amber.as_str(), "amber");
    assert_eq!(CanaryState::Red.as_str(), "red");
    assert!(!CanaryState::Green.derisked());
    assert!(CanaryState::Amber.derisked());
    assert!(!CanaryState::Amber.halted());
    assert!(CanaryState::Red.halted());
}

#[test]
fn news_of_two_assets_can_come_in_either_order() {
    let (mut a, mut b) = (Canary::new(cfg()), Canary::new(cfg()));
    for i in 0..30 {
        a.record_hold("BTC", i < 12, i);
        a.record_hold("ETH", i < 20, i);
    }
    for i in 0..30 {
        b.record_hold("ETH", i < 20, i);
    }
    for i in 0..30 {
        b.record_hold("BTC", i < 12, i);
    }
    for asset in ["BTC", "ETH"] {
        assert_eq!(a.state(asset), b.state(asset));
    }
    assert_eq!(a.state("BTC"), CanaryState::Red);
    assert_eq!(a.state("ETH"), CanaryState::Green);
    a.tick("SOL", 99);
    assert_eq!(a.snapshot().assets.len(), 2);
}

#[test]
fn thresholds_are_compared_to_the_last_digit() {
    let with_red = |red: Num| {
        let mut cf = cfg();
        cf.n_window = 3;
        cf.wr_red = red;
        let mut c = Canary::new(cf);
        feed(&mut c, "BTC", 1, 3, 0);
        c.state("BTC")
    };
    assert_eq!(with_red(num(333_333_333_333_333_333, 18)), CanaryState::Amber);
    assert_eq!(with_red(num(333_333_333_333_333_334, 18)), CanaryState::Red);
    assert_eq!(with_red(num(-1, 0)), CanaryState::Amber);
    assert_eq!(with_red(Num::NotANumber), CanaryState::Amber);
    assert_eq!(with_red(Num::Infinite { negative: false }), CanaryState::Red);
    assert_eq!(with_red(Num::Infinite { negative: true }), CanaryState::Amber);
}

#[test]
fn the_ratio_of_volatilities() {
    let after = |a: Num, b: Num| {
        let mut c = Canary::new(cfg());
        let t = c.update_vol("BTC", a, b, 1_000);
        let rows = c.snapshot().assets;
        assert_eq!((rows[0].vol_10m, rows[0].vol_60m), (a, b));
        if let Some(t) = &t {
            assert_eq!(t.reason, CanaryReason::VolAccel);
            assert_eq!(t.vol_ratio, rows[0].vol_ratio);
        }
        (c.state("BTC"), rows[0].vol_ratio)
    };
    let inf = Num::Infinite { negative: false };
    assert_eq!(after(num(6, 0), num(3, 0)), (CanaryState::Amber, num(2, 0)));
    assert_eq!(after(num(6, 0), num(3_000_001, 6)).0, CanaryState::Green);
    assert_eq!(after(num(6, 0), num(1, 9)), (CanaryState::Green, num(0, 0)), "next to nothing");
    assert_eq!(after(num(6, 0), num(2, 9)), (CanaryState::Amber, num(3_000_000_000, 0)));
    assert_eq!(after(inf, num(3, 0)), (CanaryState::Amber, inf));
    assert_eq!(after(num(6, 0), inf), (CanaryState::Green, num(0, 0)));
    assert_eq!(after(Num::NotANumber, num(3, 0)).0, CanaryState::Green);
    assert_eq!(after(num(6, 0), Num::NotANumber), (CanaryState::Green, num(0, 0)));
}
