use rust_bot::b3_maker::{
    b3_first_touch_sim, b3_poll_decision, b3_timeout_action, cell_label, checked_first_touch_sim,
    checked_net_pnl, checked_split_close, checked_taker_fee, classify_post_outcome, delta,
    hwm_lwm_from_samples, net_pnl_with_fees, reconcile_decision, replay_lot, split_close,
    taker_fee_dec, tick, valid_maker_target, B3ExitKind, B3TimeoutAction, CellAgg,
    MakerOrderStatus, PollDecision, PostOutcome, ReconcileDecision, ReplayLot,
};
use rust_bot::decimal::Dec;

fn d(num: i64, scale: u32) -> Dec {
    Dec::new(num, scale)
}

fn same(a: Dec, b: Dec) -> bool {
    !a.less_than(b) && !b.less_than(a)
}

fn at_most(a: Dec, b: Dec) -> bool {
    !b.less_than(a)
}

fn add(a: Dec, b: Dec) -> Dec {
    a.checked_add(b).unwrap()
}

fn bids(v: &[(i64, i64)]) -> Vec<(i64, Dec)> {
    v.iter().map(|&(ms, cents)| (ms, d(cents, 2))).collect()
}

fn same_bids(a: &[(i64, Dec)], b: &[(i64, i64)]) -> bool {
    a.len() == b.len() && a.iter().zip(b).all(|(x, y)| x.0 == y.0 && same(x.1, d(y.1, 2)))
}

const ALL_STATUSES: [MakerOrderStatus; 6] = [
    MakerOrderStatus::Cancelled,
    MakerOrderStatus::Matched,
    MakerOrderStatus::Unmatched,
    MakerOrderStatus::Live,
    MakerOrderStatus::Delayed,
    MakerOrderStatus::Unknown,
];

#[test]
fn reconcile_invariant_holds_for_all_inputs() {
    let mut orig_cents = 0;
    while orig_cents <= 1000 {
        let orig = d(orig_cents, 2);
        let mut m_cents = -100;
        while m_cents <= orig_cents + 100 {
            let matched = d(m_cents, 2);
            for st in ALL_STATUSES {
                let o = reconcile_decision(st, orig, matched);
                assert!(at_most(Dec::zero(), o.maker_filled), "maker_filled >= 0");
                assert!(at_most(Dec::zero(), o.fallback_size), "fallback_size >= 0");
                assert!(at_most(o.maker_filled, orig), "maker_filled <= orig (no oversell side)");
                if o.defer {
                    assert!(o.maker_filled.is_zero(), "defer sells nothing (maker)");
                    assert!(o.fallback_size.is_zero(), "defer sells nothing (fallback)");
                } else {
                    assert!(
                        same(add(o.maker_filled, o.fallback_size), orig),
                        "non-defer: maker_filled + fallback_size MUST == orig \
                         (status={st:?}, orig={orig_cents}, matched={m_cents})"
                    );
                }
            }
            m_cents += 25;
        }
        orig_cents += 25;
    }
}

#[test]
fn reconcile_full_fill() {
    let o = reconcile_decision(MakerOrderStatus::Matched, d(80, 1), d(80, 1));
    assert_eq!(o.decision, ReconcileDecision::FullFill);
    assert!(same(o.maker_filled, d(80, 1)));
    assert!(same(o.fallback_size, d(0, 0)));
    assert!(!o.defer);
}

#[test]
fn reconcile_full_fill_even_if_status_still_live() {
    let o = reconcile_decision(MakerOrderStatus::Live, d(80, 1), d(80, 1));
    assert_eq!(o.decision, ReconcileDecision::FullFill);
    assert!(same(o.maker_filled, d(80, 1)));
    assert!(same(o.fallback_size, d(0, 0)));
    assert!(!o.defer);
}

#[test]
fn reconcile_clean_cancel() {
    let o = reconcile_decision(MakerOrderStatus::Cancelled, d(80, 1), d(0, 0));
    assert_eq!(o.decision, ReconcileDecision::CleanCancel);
    assert!(same(o.maker_filled, d(0, 0)));
    assert!(same(o.fallback_size, d(80, 1)));
    assert!(!o.defer);
}

#[test]
fn reconcile_partial() {
    let o = reconcile_decision(MakerOrderStatus::Cancelled, d(80, 1), d(30, 1));
    assert_eq!(o.decision, ReconcileDecision::Partial);
    assert!(same(o.maker_filled, d(30, 1)));
    assert!(same(o.fallback_size, d(50, 1)));
    assert!(!o.defer);
}

#[test]
fn reconcile_ambiguous_defers_no_sell() {
    for st in [MakerOrderStatus::Live, MakerOrderStatus::Delayed, MakerOrderStatus::Unknown] {
        let o = reconcile_decision(st, d(80, 1), d(30, 1));
        assert_eq!(o.decision, ReconcileDecision::Ambiguous, "status {st:?}");
        assert!(o.defer, "status {st:?} must defer");
        assert!(same(o.maker_filled, d(0, 0)), "defer sells nothing");
        assert!(same(o.fallback_size, d(0, 0)), "defer sells nothing");
    }
}

#[test]
fn reconcile_over_report_is_clamped_to_full_fill() {
    let o = reconcile_decision(MakerOrderStatus::Matched, d(80, 1), d(990, 1));
    assert_eq!(o.decision, ReconcileDecision::FullFill);
    assert!(same(o.maker_filled, d(80, 1)));
    assert!(same(o.fallback_size, d(0, 0)));
}

#[test]
fn b3_timeout_action_for_every_reconcile_case() {
    let amb = reconcile_decision(MakerOrderStatus::Live, d(80, 1), d(30, 1));
    assert!(matches!(b3_timeout_action(&amb), B3TimeoutAction::Defer));
    let cc = reconcile_decision(MakerOrderStatus::Cancelled, d(80, 1), d(0, 0));
    assert!(matches!(b3_timeout_action(&cc), B3TimeoutAction::FullFallback));
    let ff = reconcile_decision(MakerOrderStatus::Matched, d(80, 1), d(80, 1));
    assert!(matches!(b3_timeout_action(&ff), B3TimeoutAction::FullMakerFill));
    let pf = reconcile_decision(MakerOrderStatus::Cancelled, d(80, 1), d(30, 1));
    match b3_timeout_action(&pf) {
        B3TimeoutAction::Partial { maker_filled, fallback_size } => {
            assert!(same(maker_filled, d(30, 1)));
            assert!(same(fallback_size, d(50, 1)));
        }
        o => panic!("expected Partial, got {o:?}"),
    }
}

#[test]
fn b3_timeout_action_never_oversells() {
    let orig = d(100, 1);
    for st in ALL_STATUSES {
        for m in [0i64, 3, 7, 10] {
            let recon = reconcile_decision(st, orig, d(m, 0));
            match b3_timeout_action(&recon) {
                B3TimeoutAction::Defer => {}
                B3TimeoutAction::FullFallback | B3TimeoutAction::FullMakerFill => {}
                B3TimeoutAction::Partial { maker_filled, fallback_size } => {
                    assert!(
                        same(add(maker_filled, fallback_size), orig),
                        "partial must split to exactly orig (st={st:?}, m={m})"
                    );
                }
            }
        }
    }
}

#[test]
fn poll_full_fill_is_filled_even_when_due_or_live() {
    let ten = d(10, 0);
    assert_eq!(b3_poll_decision(MakerOrderStatus::Live, ten, ten, false), PollDecision::Filled);
    assert_eq!(b3_poll_decision(MakerOrderStatus::Live, ten, ten, true), PollDecision::Filled);
    assert_eq!(
        b3_poll_decision(MakerOrderStatus::Matched, d(11, 0), ten, false),
        PollDecision::Filled
    );
}

#[test]
fn poll_working_waiting_when_not_due_and_live() {
    let ten = d(10, 0);
    assert_eq!(
        b3_poll_decision(MakerOrderStatus::Live, d(3, 0), ten, false),
        PollDecision::Working
    );
    assert_eq!(
        b3_poll_decision(MakerOrderStatus::Live, d(0, 0), ten, false),
        PollDecision::Waiting
    );
}

#[test]
fn poll_timeout_when_due_or_terminated_early() {
    let ten = d(10, 0);
    assert_eq!(
        b3_poll_decision(MakerOrderStatus::Live, d(3, 0), ten, true),
        PollDecision::Timeout
    );
    assert_eq!(
        b3_poll_decision(MakerOrderStatus::Live, d(0, 0), ten, true),
        PollDecision::Timeout
    );
    assert_eq!(
        b3_poll_decision(MakerOrderStatus::Cancelled, d(3, 0), ten, false),
        PollDecision::Timeout
    );
    assert_eq!(
        b3_poll_decision(MakerOrderStatus::Unmatched, d(0, 0), ten, false),
        PollDecision::Timeout
    );
}

#[test]
fn split_close_shares_always_sum_to_orig() {
    let mut o_cents = 0;
    while o_cents <= 1000 {
        let orig = d(o_cents, 2);
        let mut m_cents = -100;
        while m_cents <= o_cents + 100 {
            let mf = d(m_cents, 2);
            let s = split_close(orig, mf, d(65, 2), d(55, 2), d(50, 2), d(1, 2));
            assert!(at_most(Dec::zero(), s.maker_shares), "maker_shares >= 0");
            assert!(at_most(Dec::zero(), s.fallback_shares), "fallback_shares >= 0");
            assert!(at_most(s.maker_shares, orig), "maker_shares <= orig");
            assert!(
                same(add(s.maker_shares, s.fallback_shares), orig),
                "split MUST sum to orig (orig={o_cents}, maker_filled={m_cents})"
            );
            m_cents += 25;
        }
        o_cents += 25;
    }
}

#[test]
fn the_rest_of_a_lot_is_exact_to_the_last_place() {
    let wide = |m: i128| Dec::from_parts(m, 28).unwrap();
    let matched = wide(50_000_000_000_000_000_000_000_000_001);
    let o = reconcile_decision(MakerOrderStatus::Cancelled, d(10, 0), matched);
    assert!(same(o.maker_filled, matched));
    assert!(same(o.fallback_size, wide(49_999_999_999_999_999_999_999_999_999)));
    assert!(same(add(o.maker_filled, o.fallback_size), d(10, 0)));
    let s = split_close(d(10, 0), matched, d(65, 2), d(55, 2), d(50, 2), d(0, 0));
    assert!(same(add(s.maker_shares, s.fallback_shares), d(10, 0)));
}

#[test]
fn a_rest_that_needs_rounding_stays_within_the_lot() {
    let lot = Dec::from_parts(100_000_000_000_000_000_000, 0).unwrap();
    let o = reconcile_decision(MakerOrderStatus::Cancelled, lot, d(1, 20));
    assert_eq!(o.decision, ReconcileDecision::Partial);
    assert!(same(o.maker_filled, d(1, 20)));
    assert!(same(o.fallback_size, lot));
}

#[test]
fn the_buying_fee_is_charged_once() {
    // One share of three: the fee of 10 is divided into 3.33.. and 6.66..
    let s = split_close(d(3, 0), d(1, 0), d(9, 0), d(1, 0), d(0, 0), d(10, 0));
    let wide = |m: i128| Dec::from_parts(m, 28).unwrap();
    assert!(same(s.maker_pnl, wide(56_666_666_666_666_666_666_666_666_667)));
    assert!(same(s.fallback_pnl, wide(-46_666_666_666_666_666_666_666_666_667)));
    // 1 * 9 + 2 * 1 - 10, without a fee on a fill at 1.
    assert!(same(add(s.maker_pnl, s.fallback_pnl), d(1, 0)));
    // 3 * 0.65 + 7 * 0.55 - 0.07 * 7 * 0.55 * 0.45 - 10 * 0.50 - 0.01
    let s = split_close(d(10, 0), d(3, 0), d(65, 2), d(55, 2), d(50, 2), d(1, 2));
    assert!(same(add(s.maker_pnl, s.fallback_pnl), d(668725, 6)));
}

#[test]
fn split_close_clean_partial_3_of_10() {
    let s = split_close(d(10, 0), d(3, 0), d(65, 2), d(55, 2), d(50, 2), d(1, 2));
    assert!(same(s.maker_shares, d(3, 0)));
    assert!(same(s.fallback_shares, d(7, 0)));
    assert!(same(s.maker_pnl, d(447, 3)));
    assert!(same(s.fallback_pnl, d(221725, 6)));
}

#[test]
fn split_close_full_fill_has_zero_fallback() {
    let s = split_close(d(10, 0), d(10, 0), d(65, 2), d(55, 2), d(50, 2), d(1, 2));
    assert!(same(s.maker_shares, d(10, 0)));
    assert!(same(s.fallback_shares, d(0, 0)));
    assert!(same(s.fallback_pnl, d(0, 0)));
}

#[test]
fn split_close_out_of_range_amounts_are_none() {
    let huge = Dec::from_parts(79_228_162_514_264_337_593_543_950_335, 0).unwrap();
    assert!(checked_split_close(huge, d(2, 0), huge, d(1, 0), d(1, 0), d(0, 0)).is_none());
    assert!(checked_taker_fee(huge, huge).is_none());
    assert!(Dec::from_parts(79_228_162_514_264_337_593_543_950_336, 0).is_none());
}

#[test]
fn post_success_with_id_is_posted() {
    let o = classify_post_outcome(true, Some("0xabc"), None);
    match o {
        PostOutcome::Posted { order_id } => assert_eq!(order_id, "0xabc".to_string()),
        o => panic!("expected Posted, got {o:?}"),
    }
}

#[test]
fn post_success_without_id_is_real_error_fail_closed() {
    let o = classify_post_outcome(true, None, None);
    assert!(matches!(o, PostOutcome::RealError { .. }), "got {o:?}");
    let o2 = classify_post_outcome(true, Some(""), None);
    assert!(matches!(o2, PostOutcome::RealError { .. }), "empty id -> real error");
}

#[test]
fn post_recognized_crossable_messages_map_to_rejected_crossable() {
    let msgs = [
        "order would cross the book",
        "post only order is marketable",
        "POSTONLY violation",
        "Post-Only would match resting order",
        "crossing not allowed for post only",
    ];
    for m in msgs {
        assert!(
            matches!(classify_post_outcome(false, None, Some(m)), PostOutcome::RejectedCrossable),
            "message {m:?} must be RejectedCrossable",
        );
    }
}

#[test]
fn post_unrecognized_errors_are_real_error_fail_closed() {
    let msgs = [
        "connection reset by peer",
        "401 unauthorized: bad api key",
        "insufficient balance",
        "request timed out after 5000ms",
        "invalid amounts, max accuracy of 2 decimals",
        "internal server error",
        "",
    ];
    for m in msgs {
        assert!(
            matches!(classify_post_outcome(false, None, Some(m)), PostOutcome::RealError { .. }),
            "message {m:?} must be RealError (fail-closed, NOT a sell)",
        );
    }
    assert!(matches!(classify_post_outcome(false, None, None), PostOutcome::RealError { .. }));
}

#[test]
fn post_real_error_preserves_exact_text() {
    let exact = "insufficient balance: need 10.50 USDC, have 2.00";
    match classify_post_outcome(false, None, Some(exact)) {
        PostOutcome::RealError { text } => assert_eq!(text, exact, "exact text preserved"),
        o => panic!("expected RealError, got {o:?}"),
    }
}

#[test]
fn valid_maker_target_normal_case() {
    let t = valid_maker_target(d(65, 2), d(10, 2), tick());
    assert!(same(t.unwrap(), d(75, 2)));
}

#[test]
fn valid_maker_target_invalid_near_one_no_clamp() {
    assert!(valid_maker_target(d(95, 2), d(10, 2), tick()).is_none());
    assert!(valid_maker_target(d(90, 2), d(10, 2), tick()).is_none());
    assert!(same(valid_maker_target(d(89, 2), d(10, 2), tick()).unwrap(), d(99, 2)));
    assert!(same(delta(), d(10, 2)));
}

#[test]
fn hwm_lwm_from_samples_running_max_min() {
    let samples = bids(&[(0, 50), (1000, 55), (2000, 52), (3000, 60), (4000, 48)]);
    let (hwm, lwm) = hwm_lwm_from_samples(&samples);
    assert!(same_bids(&hwm, &[(0, 50), (1000, 55), (2000, 55), (3000, 60), (4000, 60)]));
    assert!(same_bids(&lwm, &[(0, 50), (1000, 50), (2000, 50), (3000, 50), (4000, 48)]));
}

#[test]
fn hwm_lwm_from_samples_empty() {
    let (hwm, lwm) = hwm_lwm_from_samples(&[]);
    assert!(hwm.is_empty() && lwm.is_empty());
}

#[test]
fn paper_sample_path_first_touch_and_fallback() {
    let samples = bids(&[(0, 66), (1000, 70), (2000, 76)]);
    let (hwm, lwm) = hwm_lwm_from_samples(&samples);
    let o = b3_first_touch_sim(d(65, 2), d(75, 2), d(100, 1), &hwm, &lwm, d(70, 2));
    assert_eq!(o.exit_kind, B3ExitKind::FirstTouch);
    assert!(same(o.exit_price, d(75, 2)));

    let samples2 = bids(&[(0, 66), (1000, 70), (2000, 62)]);
    let (hwm2, lwm2) = hwm_lwm_from_samples(&samples2);
    let o2 = b3_first_touch_sim(d(65, 2), d(75, 2), d(100, 1), &hwm2, &lwm2, d(63, 2));
    assert_eq!(o2.exit_kind, B3ExitKind::F2BreakEven);
    assert!(same(o2.exit_price, d(62, 2)), "F2 sells at the actual low bid");
}

#[test]
fn neither_touch_nor_break_even_sells_when_the_time_is_over() {
    let samples = bids(&[(0, 60), (1000, 64), (2000, 62)]);
    let (hwm, lwm) = hwm_lwm_from_samples(&samples);
    let o = b3_first_touch_sim(d(65, 2), d(75, 2), d(100, 1), &hwm, &lwm, d(63, 2));
    assert_eq!(o.exit_kind, B3ExitKind::F1TimeExit);
    assert_eq!(o.exit_kind.as_str(), "f1_time_exit");
    assert!(!o.maker_filled);
    assert!(same(o.exit_price, d(63, 2)));
    // 10 * (0.63 - 0.65), and both fees on top.
    assert!(same(o.gross_pnl, d(-2, 1)));
    let buy = taker_fee_dec(d(10, 0), d(65, 2));
    let sell = taker_fee_dec(d(10, 0), d(63, 2));
    assert!(same(buy, d(15925, 5)));
    assert!(same(sell, d(16317, 5)));
    assert!(same(o.net_pnl, d(-52242, 5)));
    assert!(same(net_pnl_with_fees(d(10, 0), d(65, 2), d(63, 2), sell), d(-52242, 5)));
    assert!(checked_net_pnl(d(10, 0), d(65, 2), d(63, 2), None).is_none());
}

#[test]
fn amounts_out_of_range_make_no_simulation() {
    let huge = Dec::from_parts(79_228_162_514_264_337_593_543_950_335, 0).unwrap();
    assert!(checked_first_touch_sim(huge, huge, huge, &[], &[], huge).is_none());
}

#[test]
fn statuses_that_can_fill_no_more_are_terminal() {
    assert!(MakerOrderStatus::Cancelled.is_terminal());
    assert!(MakerOrderStatus::Matched.is_terminal());
    assert!(MakerOrderStatus::Unmatched.is_terminal());
    assert!(!MakerOrderStatus::Live.is_terminal());
    assert!(!MakerOrderStatus::Delayed.is_terminal());
    assert!(!MakerOrderStatus::Unknown.is_terminal());
}

#[test]
fn words_of_reconcile_decisions() {
    assert_eq!(ReconcileDecision::FullFill.as_str(), "full_fill");
    assert_eq!(ReconcileDecision::Partial.as_str(), "partial");
    assert_eq!(ReconcileDecision::CleanCancel.as_str(), "clean_cancel");
    assert_eq!(ReconcileDecision::Ambiguous.as_str(), "ambiguous");
}

#[test]
fn strategy_of_a_lot_depends_on_its_cell() {
    let hwm = bids(&[(0, 66), (1000, 76)]);
    let lwm = bids(&[(0, 66), (1000, 66)]);
    let retired = replay_lot("ETH", "15m", d(65, 2), d(10, 0), d(60, 2), &hwm, &lwm);
    assert!(matches!(retired, Some(ReplayLot::Excluded)));
    let held = replay_lot("BTC", "5m", d(65, 2), d(10, 0), d(60, 2), &hwm, &lwm);
    match held {
        Some(ReplayLot::Baseline { gross, .. }) => assert!(same(gross, d(-5, 1))),
        o => panic!("expected Baseline, got {o:?}"),
    }
    let maker = replay_lot("ETH", "5m", d(65, 2), d(10, 0), d(60, 2), &hwm, &lwm);
    match maker {
        Some(ReplayLot::Maker { outcome, invalid_target }) => {
            assert!(!invalid_target);
            assert_eq!(outcome.exit_kind, B3ExitKind::FirstTouch);
        }
        o => panic!("expected Maker, got {o:?}"),
    }
    assert_eq!(cell_label("ETH", "5m"), "ETH_5m");
}

#[test]
fn totals_of_a_cell_begin_at_zero() {
    let c = CellAgg::new();
    assert_eq!(c.n, 0);
    assert!(c.gross.is_zero() && c.net.is_zero());
}

#[test]
fn a_target_that_no_bid_reaches_falls_back() {
    let hwm = bids(&[(0, 96), (1000, 99)]);
    let lwm = bids(&[(0, 96), (1000, 96)]);
    let r = b3_first_touch_sim(d(95, 2), d(105, 2), d(10, 0), &hwm, &lwm, d(97, 2));
    assert_eq!(r.exit_kind, B3ExitKind::F1TimeExit);
    assert!(same(r.exit_price, d(97, 2)));
    assert!(!r.maker_filled);
}

#[test]
fn a_fee_that_does_not_divide_falls_to_the_nearest_part() {
    let s = checked_split_close(
        Dec::new(3, 0),
        Dec::new(1, 0),
        Dec::new(60, 2),
        Dec::new(55, 2),
        Dec::new(50, 2),
        Dec::new(1, 2),
    )
    .unwrap();
    let gain = Dec::new(10, 2);
    let fee = gain.checked_sub(s.maker_pnl).unwrap();
    assert_eq!(fee.to_text(), "0.0033333333333333333333333333");
}
