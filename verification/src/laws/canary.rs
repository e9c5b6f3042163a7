//! The regime canary: what its window holds, and when an asset changes its state.

use crate::canary::{
    self, AssetStatus, AssetV, CanaryConfig, CanaryReason, CanaryState, News, Transition,
};
use crate::config::NumV;
use crate::decimal;
use vstd::prelude::*;

verus! {

/// The canary told of settled positions of one asset, in their order: whether each
/// won, and when it was settled.
pub open spec fn after_outcomes(
    assets: Map<Seq<char>, AssetV>,
    cfg: CanaryConfig,
    name: Seq<char>,
    outcomes: Seq<(bool, int)>,
) -> Map<Seq<char>, AssetV>
    decreases outcomes.len(),
{
    if outcomes.len() == 0 {
        assets
    } else {
        let before = after_outcomes(assets, cfg, name, outcomes.drop_last());
        canary::after_news(
            before,
            cfg,
            name,
            News::Outcome { won: outcomes.last().0 },
            outcomes.last().1,
        )
    }
}

/// The last `n` of a list, or all of it.
pub open spec fn last_of(s: Seq<bool>, n: int) -> Seq<bool> {
    if s.len() > n {
        s.skip(s.len() - n)
    } else {
        s
    }
}

/// The window rolls: after any outcomes of an asset it holds the last of them, as many
/// as the settings say, in their order.
pub proof fn law_the_window_holds_the_last_outcomes(
    assets: Map<Seq<char>, AssetV>,
    cfg: CanaryConfig,
    name: Seq<char>,
    outcomes: Seq<(bool, int)>,
)
    requires
        cfg.enabled,
        !assets.dom().contains(name),
        outcomes.len() > 0,
    ensures
        ({
            let after = after_outcomes(assets, cfg, name, outcomes);
            &&& after.dom().contains(name)
            &&& after[name].hold == last_of(
                Seq::new(outcomes.len(), |i: int| outcomes[i].0),
                cfg.n_window as int,
            )
            &&& cfg.n_window > 0 ==> after[name].hold.len() > 0 && after[name].hold.last()
                == outcomes.last().0
        }),
    decreases outcomes.len(),
{
    let n = cfg.n_window as int;
    let won = Seq::new(outcomes.len(), |i: int| outcomes[i].0);
    let less = outcomes.drop_last();
    let earlier = Seq::new(less.len(), |i: int| less[i].0);
    assert(won =~= earlier.push(outcomes.last().0));
    let after = after_outcomes(assets, cfg, name, outcomes);
    if less.len() > 0 {
        law_the_window_holds_the_last_outcomes(assets, cfg, name, less);
        assert(last_of(earlier.push(outcomes.last().0), n) =~= last_of(
            last_of(earlier, n).push(outcomes.last().0),
            n,
        ));
    } else {
        assert(earlier =~= Seq::empty());
        assert(last_of(Seq::<bool>::empty().push(outcomes.last().0), n) =~= last_of(won, n));
    }
    assert(after[name].hold =~= last_of(won, n));
}

/// The number of wins is the number of outcomes that won.
pub proof fn law_wins_are_counted(hold: Seq<bool>)
    ensures
        canary::wins(hold) == hold.filter(|b: bool| b).len(),
    decreases hold.len(),
{
    reveal(Seq::filter);
    if hold.len() > 0 {
        law_wins_are_counted(hold.drop_last());
    }
}

/// A full window of losses has no wins, and one of wins has nothing else.
pub proof fn law_all_losses_are_no_wins(hold: Seq<bool>)
    ensures
        (forall|i: int| 0 <= i < hold.len() ==> !#[trigger] hold[i]) ==> canary::wins(hold) == 0,
        (forall|i: int| 0 <= i < hold.len() ==> #[trigger] hold[i]) ==> canary::wins(hold)
            == hold.len(),
        canary::wins(hold) <= hold.len(),
    decreases hold.len(),
{
    if hold.len() > 0 {
        let less = hold.drop_last();
        law_all_losses_are_no_wins(less);
        assert forall|i: int| 0 <= i < less.len() implies less[i] == #[trigger] hold[i] by {}
    }
}

/// `w` of `n` is a smaller part than the share. Everything is less than an infinite
/// share, and nothing is less than what is no number.
pub open spec fn too_few(w: int, n: int, share: NumV) -> bool {
    match share {
        NumV::Finite(d) => w * decimal::pow10(d.s) < d.m * n,
        NumV::Infinite { negative } => !negative,
        NumV::NotANumber => false,
    }
}

/// In normal times the state goes by the window and by volatility: red where the
/// window is full and too few won, amber where too few won for green or volatility was
/// high a while ago, green otherwise.
pub proof fn law_a_full_window_decides(a: AssetV, cfg: CanaryConfig, now_ms: int)
    requires
        !a.probation,
        a.state != CanaryState::Red,
    ensures
        ({
            let after = canary::recomputed(a, cfg, now_ms);
            let full = a.hold.len() > 0 && a.hold.len() >= cfg.n_window;
            let w = a.hold.filter(|b: bool| b).len() as int;
            let red = full && too_few(w, a.hold.len() as int, cfg.wr_red@);
            let low = full && too_few(w, a.hold.len() as int, cfg.wr_amber@);
            &&& after.state == CanaryState::Red <==> red
            &&& after.state == CanaryState::Amber <==> !red && (low || now_ms
                < a.vol_amber_until_ms)
            &&& after.state == CanaryState::Green <==> !red && !low && now_ms
                >= a.vol_amber_until_ms
            &&& after.red_since_ms == if red {
                now_ms
            } else {
                a.red_since_ms
            }
            &&& !after.probation && after.prob_n == a.prob_n && after.prob_w == a.prob_w
        }),
{
    law_wins_are_counted(a.hold);
}

/// A red asset is red until the cooldown is over, and then amber on probation, with
/// nothing settled on it yet.
pub proof fn law_red_cools_down_to_probation(a: AssetV, cfg: CanaryConfig, now_ms: int)
    requires
        !a.probation,
        a.state == CanaryState::Red,
    ensures
        ({
            let after = canary::recomputed(a, cfg, now_ms);
            let over = now_ms >= a.red_since_ms + cfg.red_cooldown_ms;
            &&& after.state == if over {
                CanaryState::Amber
            } else {
                CanaryState::Red
            }
            &&& after.probation == over
            &&& over ==> after.prob_n == 0 && after.prob_w == 0
            &&& !over ==> after.prob_n == a.prob_n && after.prob_w == a.prob_w
            &&& after.red_since_ms == a.red_since_ms
        }),
{
}

/// An asset on probation is amber until enough positions have settled on it; then it is
/// green, or amber by volatility, where enough of them won, and red again from now on
/// where not.
pub proof fn law_probation_decides(a: AssetV, cfg: CanaryConfig, now_ms: int)
    requires
        a.probation,
    ensures
        ({
            let after = canary::recomputed(a, cfg, now_ms);
            let done = a.prob_n >= cfg.resume_probation_n;
            let n = if a.prob_n == 0 {
                1
            } else {
                a.prob_n as int
            };
            let passed = !(cfg.resume_probation_wr@ is NotANumber) && !too_few(
                a.prob_w as int,
                n,
                cfg.resume_probation_wr@,
            );
            &&& !done ==> after.state == CanaryState::Amber && after.probation && after.prob_n
                == a.prob_n && after.prob_w == a.prob_w && after.red_since_ms == a.red_since_ms
            &&& done ==> !after.probation && after.prob_n == 0 && after.prob_w == 0
            &&& done && !passed ==> after.state == CanaryState::Red && after.red_since_ms == now_ms
            &&& done && passed ==> after.red_since_ms == a.red_since_ms && after.state == if now_ms
                < a.vol_amber_until_ms {
                CanaryState::Amber
            } else {
                CanaryState::Green
            }
        }),
{
}

/// Working out the state leaves the window and the volatilities as they are, and notes
/// the time where the state changes, and only there.
pub proof fn law_a_change_is_dated(a: AssetV, cfg: CanaryConfig, now_ms: int)
    ensures
        ({
            let after = canary::recomputed(a, cfg, now_ms);
            &&& after.hold == a.hold && after.vol_10m == a.vol_10m && after.vol_60m == a.vol_60m
            &&& after.vol_amber_until_ms == a.vol_amber_until_ms
            &&& after.state == a.state ==> after.since_ms == a.since_ms
            &&& after.state != a.state ==> after.since_ms == now_ms
        }),
{
}

/// An outcome counts on probation only, and changes nothing but the window and the
/// counts of the probation.
pub proof fn law_outcomes_count_on_probation(a: AssetV, won: bool, cfg: CanaryConfig)
    ensures
        ({
            let after = canary::held(a, won, cfg);
            &&& after.prob_n - a.prob_n == if a.probation {
                1int
            } else {
                0
            }
            &&& after.prob_w - a.prob_w == if a.probation && won {
                1int
            } else {
                0
            }
            &&& after.hold == last_of(a.hold.push(won), cfg.n_window as int)
            &&& after == (AssetV {
                hold: after.hold,
                prob_n: after.prob_n,
                prob_w: after.prob_w,
                ..a
            })
        }),
{
    assert(canary::held(a, won, cfg).hold =~= last_of(a.hold.push(won), cfg.n_window as int));
}

/// Volatility that is high, and high against that of the last hour, keeps an asset from
/// being green for the set time from now; other volatility changes nothing about how
/// long it does.
pub proof fn law_acceleration_latches(
    a: AssetV,
    vol_10m: decimal::DecV,
    vol_60m: decimal::DecV,
    floor: decimal::DecV,
    trigger: decimal::DecV,
    cfg: CanaryConfig,
    now_ms: int,
)
    requires
        cfg.vol_floor_bpm@ == NumV::Finite(floor),
        cfg.vol_ratio_trig@ == NumV::Finite(trigger),
    ensures
        ({
            let after = canary::with_vol(
                a,
                NumV::Finite(vol_10m),
                NumV::Finite(vol_60m),
                cfg,
                now_ms,
            );
            let counts = decimal::lt(decimal::dec(1, 9), vol_60m);
            let ratio = decimal::over(vol_10m, vol_60m);
            let fast = decimal::le(floor, vol_10m) && (if counts {
                match ratio {
                    Some(q) => decimal::le(trigger, q),
                    None => vol_10m.m >= 0,
                }
            } else {
                decimal::le(trigger, decimal::zero())
            });
            &&& after.vol_amber_until_ms == if fast {
                now_ms + cfg.vol_amber_hold_ms
            } else {
                a.vol_amber_until_ms
            }
            &&& after.vol_10m == NumV::Finite(vol_10m) && after.vol_60m == NumV::Finite(vol_60m)
            &&& after == (AssetV {
                vol_10m: after.vol_10m,
                vol_60m: after.vol_60m,
                vol_amber_until_ms: after.vol_amber_until_ms,
                ..a
            })
        }),
{
}

/// Volatility that is no number is never high; an infinite one is, against a finite
/// one that is more than next to nothing.
pub proof fn law_odd_volatilities(a: AssetV, vol: NumV, cfg: CanaryConfig, now_ms: int)
    requires
        cfg.vol_floor_bpm@ is Finite,
        cfg.vol_ratio_trig@ is Finite,
    ensures
        canary::with_vol(a, NumV::NotANumber, vol, cfg, now_ms).vol_amber_until_ms
            == a.vol_amber_until_ms,
        vol matches NumV::Finite(d) && decimal::lt(decimal::dec(1, 9), d) ==> canary::with_vol(
            a,
            NumV::Infinite { negative: false },
            vol,
            cfg,
            now_ms,
        ).vol_amber_until_ms == now_ms + cfg.vol_amber_hold_ms,
{
}

/// An asset that was not known begins green, with nothing settled and no volatility.
pub proof fn law_assets_begin_green(now_ms: int)
    ensures
        ({
            let a = canary::fresh_asset(now_ms);
            &&& a.state == CanaryState::Green && !a.probation && a.hold.len() == 0
            &&& a.since_ms == now_ms && a.red_since_ms == 0 && a.prob_n == 0 && a.prob_w == 0
            &&& a.vol_amber_until_ms == 0
            &&& a.vol_10m == NumV::Finite(decimal::zero()) && a.vol_60m == NumV::Finite(
                decimal::zero(),
            )
        }),
{
}

/// A canary that is off learns nothing; passing time makes no asset known; any other
/// news is noted, and the state worked out again.
pub proof fn law_news_are_noted(
    assets: Map<Seq<char>, AssetV>,
    cfg: CanaryConfig,
    name: Seq<char>,
    now_ms: int,
    won: bool,
    vol_10m: NumV,
    vol_60m: NumV,
)
    ensures
        !cfg.enabled ==> canary::after_news(assets, cfg, name, News::Outcome { won }, now_ms)
            == assets && canary::after_news(assets, cfg, name, News::Time, now_ms) == assets
            && canary::after_news(
            assets,
            cfg,
            name,
            News::Volatility { vol_10m, vol_60m },
            now_ms,
        ) == assets,
        !assets.dom().contains(name) ==> canary::after_news(assets, cfg, name, News::Time, now_ms)
            == assets,
        cfg.enabled ==> {
            let a = if assets.dom().contains(name) {
                assets[name]
            } else {
                canary::fresh_asset(now_ms)
            };
            &&& canary::after_news(assets, cfg, name, News::Outcome { won }, now_ms)
                == assets.insert(
                name,
                canary::recomputed(canary::held(a, won, cfg), cfg, now_ms),
            )
            &&& canary::after_news(
                assets,
                cfg,
                name,
                News::Volatility { vol_10m, vol_60m },
                now_ms,
            ) == assets.insert(
                name,
                canary::recomputed(
                    canary::with_vol(a, vol_10m, vol_60m, cfg, now_ms),
                    cfg,
                    now_ms,
                ),
            )
            &&& assets.dom().contains(name) ==> canary::after_news(
                assets,
                cfg,
                name,
                News::Time,
                now_ms,
            ) == assets.insert(name, canary::recomputed(a, cfg, now_ms))
        },
{
}

/// A change is reported exactly where there was one, with the state before and after,
/// and with a reason that tells which arm it was.
pub proof fn law_changes_are_reported(
    r: Option<Transition>,
    name: Seq<char>,
    a: AssetV,
    cfg: CanaryConfig,
    now_ms: int,
)
    requires
        canary::reports(r, name, a, cfg, now_ms),
    ensures
        ({
            let after = canary::recomputed(a, cfg, now_ms);
            &&& r is Some <==> after.state != a.state
            &&& r matches Some(t) ==> {
                let w = a.hold.filter(|b: bool| b).len();
                let full = a.hold.len() >= cfg.n_window;
                let fine = !full || (a.hold.len() > 0 && !(cfg.wr_amber@ is NotANumber) && !too_few(
                    w as int,
                    a.hold.len() as int,
                    cfg.wr_amber@,
                ));
                &&& t.asset@ == name && t.from == a.state && t.to == after.state
                &&& t.n == a.hold.len()
                &&& t.wr is Some <==> full
                &&& t.wr matches Some((x, n)) ==> x == w && n == a.hold.len()
                &&& t.reason == CanaryReason::HoldwrRed <==> t.to == CanaryState::Red
                &&& t.reason == CanaryReason::Recovered <==> t.to == CanaryState::Green
                &&& t.reason == CanaryReason::VolAccel <==> t.to == CanaryState::Amber && now_ms
                    < a.vol_amber_until_ms && fine
                &&& t.reason == CanaryReason::HoldwrAmberOrResume <==> t.to == CanaryState::Amber
                    && !(now_ms < a.vol_amber_until_ms && fine)
            }
        }),
{
    law_wins_are_counted(a.hold);
}

/// What is shown of an asset is what it is.
pub proof fn law_the_status_shows_the_asset(s: AssetStatus, a: AssetV, cfg: CanaryConfig)
    requires
        canary::shows(s, a, cfg),
    ensures
        s.state == a.state && s.n == a.hold.len() && s.since_ms == a.since_ms,
        s.vol_10m@ == a.vol_10m && s.vol_60m@ == a.vol_60m,
        s.wr is Some <==> a.hold.len() >= cfg.n_window,
        s.wr matches Some((w, n)) ==> w == a.hold.filter(|b: bool| b).len() && n == a.hold.len(),
{
    law_wins_are_counted(a.hold);
}

/// The worst state is red where some asset is red, else amber where some is amber,
/// else green.
pub proof fn law_the_worst_state_is_shown(assets: Map<Seq<char>, AssetV>)
    ensures
        ({
            let worst = canary::worst_of(assets);
            let red = exists|n: Seq<char>| #[trigger]
                assets.dom().contains(n) && assets[n].state == CanaryState::Red;
            let amber = exists|n: Seq<char>| #[trigger]
                assets.dom().contains(n) && assets[n].state == CanaryState::Amber;
            &&& worst == CanaryState::Red <==> red
            &&& worst == CanaryState::Amber <==> !red && amber
            &&& worst == CanaryState::Green <==> !red && !amber
        }),
{
}

/// The ratio of volatilities is their quotient; it is 0 where the longer one is next
/// to nothing.
pub proof fn law_the_ratio_is_the_quotient(x: decimal::DecV, y: decimal::DecV)
    ensures
        decimal::lt(decimal::dec(1, 9), y) && decimal::over(x, y) is Some ==> canary::vol_ratio(
            NumV::Finite(x),
            NumV::Finite(y),
        ) == NumV::Finite(decimal::over(x, y)->0),
        !decimal::lt(decimal::dec(1, 9), y) ==> canary::vol_ratio(NumV::Finite(x), NumV::Finite(y))
            == NumV::Finite(decimal::zero()),
{
}

/// There is a ratio over a volatility that is above a billionth, or without end; over any
/// other, and over what is not a number, it is 0.
pub proof fn law_a_ratio_needs_a_base(vol: NumV, base: decimal::DecV)
    ensures
        canary::vol_ratio(vol, NumV::NotANumber) == NumV::Finite(decimal::dec(0, 0)),
        canary::vol_ratio(vol, NumV::Infinite { negative: true }) == NumV::Finite(
            decimal::dec(0, 0),
        ),
        base.m * 1_000_000_000 <= decimal::pow10(base.s) ==> canary::vol_ratio(
            vol,
            NumV::Finite(base),
        ) == NumV::Finite(decimal::dec(0, 0)),
        base.m * 1_000_000_000 > decimal::pow10(base.s) ==> canary::vol_ratio(
            vol,
            NumV::Finite(base),
        ) == canary::quotient(vol, NumV::Finite(base)),
        canary::vol_ratio(vol, NumV::Infinite { negative: false }) == canary::quotient(
            vol,
            NumV::Infinite { negative: false },
        ),
{
    assert(decimal::pow10(9) == 1_000_000_000) by {
        reveal_with_fuel(decimal::pow10, 10);
    }
}

/// A quotient of what is not a number is none, nor is one of two numbers without end; a
/// finite number over one without end is 0, and one that is too large is without end, on
/// the side of the number that is divided.
pub proof fn law_quotients_of_odd_numbers(a: NumV, x: decimal::DecV, y: decimal::DecV, neg: bool, n: bool)
    ensures
        canary::quotient(NumV::NotANumber, a) == NumV::NotANumber,
        canary::quotient(a, NumV::NotANumber) == NumV::NotANumber,
        canary::quotient(
            NumV::Infinite { negative: neg },
            NumV::Infinite { negative: n },
        ) == NumV::NotANumber,
        canary::quotient(NumV::Finite(x), NumV::Infinite { negative: n }) == NumV::Finite(
            decimal::dec(0, 0),
        ),
        canary::quotient(NumV::Infinite { negative: neg }, NumV::Finite(y)) == (NumV::Infinite {
            negative: neg,
        }),
        match decimal::over(x, y) {
            Some(q) => canary::quotient(NumV::Finite(x), NumV::Finite(y)) == NumV::Finite(q),
            None => canary::quotient(NumV::Finite(x), NumV::Finite(y)) == (NumV::Infinite {
                negative: x.m < 0,
            }),
        },
{
}

} // verus!
