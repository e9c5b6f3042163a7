//! The regime canary: takes risk off, or stops entries, per asset while the
//! market turns against the strategy.
//!
//! Two arms feed one state per asset. The first is the share of the last settled
//! positions that won: below one threshold it is amber, below a lower one red.
//! The second is volatility that speeds up: it makes an asset amber for a while,
//! never red. After a cooldown a red asset goes back to amber on probation, and
//! the next settled positions decide between green and red.
//!
//! Volatilities are in basis points per minute.

use crate::config::{self, Num, NumV};
use crate::decimal::{self, Dec};
use crate::numeral::power_of_ten;
use crate::text::same_text;
use crate::wide::product_le;
use std::collections::VecDeque;
use vstd::prelude::*;

verus! {

#[derive(Clone, Copy, PartialEq, Eq, Debug, Structural)]
pub enum CanaryState {
    Green,
    Amber,
    Red,
}

impl CanaryState {
    pub open spec fn name(self) -> Seq<char> {
        match self {
            CanaryState::Green => "green"@,
            CanaryState::Amber => "amber"@,
            CanaryState::Red => "red"@,
        }
    }

    #[must_use]
    pub fn as_str(&self) -> (r: &'static str)
        ensures
            r@ == self.name(),
    {
        match self {
            CanaryState::Green => "green",
            CanaryState::Amber => "amber",
            CanaryState::Red => "red",
        }
    }

    /// No larger stakes and no second entries.
    #[must_use]
    pub fn derisked(&self) -> (r: bool)
        ensures
            r == (*self != CanaryState::Green),
    {
        match self {
            CanaryState::Green => false,
            _ => true,
        }
    }

    /// No entries at all.
    #[must_use]
    pub fn halted(&self) -> (r: bool)
        ensures
            r == (*self == CanaryState::Red),
    {
        match self {
            CanaryState::Red => true,
            _ => false,
        }
    }
}

#[derive(Clone, Copy, Debug)]
pub struct CanaryConfig {
    pub enabled: bool,
    /// How many settled positions the share is taken over.
    pub n_window: usize,
    /// Amber below this share.
    pub wr_amber: Num,
    /// Red below this share.
    pub wr_red: Num,
    /// Amber at this ratio of the ten-minute to the sixty-minute volatility.
    pub vol_ratio_trig: Num,
    /// ... if the ten-minute volatility is at least this.
    pub vol_floor_bpm: Num,
    pub red_cooldown_ms: i64,
    /// How many settled positions decide about a probation.
    pub resume_probation_n: usize,
    /// The share of them that must win.
    pub resume_probation_wr: Num,
    /// How long volatility keeps an asset amber.
    pub vol_amber_hold_ms: i64,
}

impl Default for CanaryConfig {
    fn default() -> (r: CanaryConfig)
        ensures
            r.enabled && r.n_window == 30,
            config::is_num(r.wr_amber, 50, 2) && config::is_num(r.wr_red, 45, 2),
            config::is_num(r.vol_ratio_trig, 2, 0) && config::is_num(r.vol_floor_bpm, 2, 0),
            r.red_cooldown_ms == 3_600_000 && r.resume_probation_n == 10,
            config::is_num(r.resume_probation_wr, 50, 2) && r.vol_amber_hold_ms == 600_000,
    {
        CanaryConfig {
            enabled: true,
            n_window: 30,
            wr_amber: Num::Finite(Dec::new(50, 2)),
            wr_red: Num::Finite(Dec::new(45, 2)),
            vol_ratio_trig: Num::Finite(Dec::new(2, 0)),
            vol_floor_bpm: Num::Finite(Dec::new(2, 0)),
            red_cooldown_ms: 3_600_000,
            resume_probation_n: 10,
            resume_probation_wr: Num::Finite(Dec::new(50, 2)),
            vol_amber_hold_ms: 600_000,
        }
    }
}

/// How many of the outcomes are wins.
pub open spec fn wins(hold: Seq<bool>) -> nat
    decreases hold.len(),
{
    if hold.len() == 0 {
        0
    } else {
        wins(hold.drop_last()) + if hold.last() {
            1nat
        } else {
            0nat
        }
    }
}

/// `w` of `n` is less than the share; of nothing it is not.
pub open spec fn share_below(w: nat, n: nat, share: NumV) -> bool {
    n > 0 && (match share {
        NumV::Finite(d) => w * decimal::pow10(d.s) < d.m * n,
        NumV::Infinite { negative } => !negative,
        NumV::NotANumber => false,
    })
}

/// `w` of `n` is at least the share; of nothing it is not.
pub open spec fn share_reaches(w: nat, n: nat, share: NumV) -> bool {
    n > 0 && !share_below(w, n, share) && share !is NotANumber
}

fn is_share_below(w: usize, n: usize, share: Num) -> (r: bool)
    ensures
        r == share_below(w as nat, n as nat, share@),
{
    if n == 0 {
        return false;
    }
    match share {
        Num::Finite(d) => {
            let m: i128 = d.mantissa();
            let p: u128 = power_of_ten(d.scale());
            proof {
                assert(w * p >= 0) by (nonlinear_arith)
                    requires
                        w >= 0,
                        p >= 0,
                ;
                assert(m <= 0 ==> m * n <= 0) by (nonlinear_arith)
                    requires
                        n >= 0,
                ;
            }
            m > 0 && !product_le(m as u128, n as u128, w as u128, p)
        },
        Num::Infinite { negative } => !negative,
        Num::NotANumber => false,
    }
}

fn is_share_reaching(w: usize, n: usize, share: Num) -> (r: bool)
    ensures
        r == share_reaches(w as nat, n as nat, share@),
{
    match share {
        Num::NotANumber => false,
        _ => n > 0 && !is_share_below(w, n, share),
    }
}

/// `a / b` for a `b` above 0. What is too large for a decimal is infinite.
pub open spec fn quotient(a: NumV, b: NumV) -> NumV {
    match (a, b) {
        (NumV::NotANumber, _) => NumV::NotANumber,
        (_, NumV::NotANumber) => NumV::NotANumber,
        (NumV::Infinite { .. }, NumV::Infinite { .. }) => NumV::NotANumber,
        (NumV::Finite(_), NumV::Infinite { .. }) => NumV::Finite(decimal::zero()),
        (NumV::Infinite { negative }, NumV::Finite(_)) => NumV::Infinite { negative },
        (NumV::Finite(x), NumV::Finite(y)) => match decimal::over(x, y) {
            Some(q) => NumV::Finite(q),
            None => NumV::Infinite { negative: x.m < 0 },
        },
    }
}

/// The ratio of the ten-minute to the sixty-minute volatility; 0 where the latter
/// is next to nothing.
pub open spec fn vol_ratio(vol_10m: NumV, vol_60m: NumV) -> NumV {
    if value_above(vol_60m, decimal::dec(1, 9)) {
        quotient(vol_10m, vol_60m)
    } else {
        NumV::Finite(decimal::zero())
    }
}

pub open spec fn value_above(a: NumV, limit: decimal::DecV) -> bool {
    match a {
        NumV::Finite(d) => decimal::lt(limit, d),
        NumV::Infinite { negative } => !negative,
        NumV::NotANumber => false,
    }
}

fn ratio_of(vol_10m: Num, vol_60m: Num) -> (r: Num)
    ensures
        r@ == vol_ratio(vol_10m@, vol_60m@),
{
    if !vol_60m.is_above(Dec::new(1, 9)) {
        return Num::Finite(Dec::zero());
    }
    match (vol_10m, vol_60m) {
        (Num::NotANumber, _) => Num::NotANumber,
        (_, Num::NotANumber) => Num::NotANumber,
        (Num::Infinite { negative: _ }, Num::Infinite { negative: _ }) => Num::NotANumber,
        (Num::Finite(_), Num::Infinite { negative: _ }) => Num::Finite(Dec::zero()),
        (Num::Infinite { negative }, Num::Finite(_)) => Num::Infinite { negative },
        (Num::Finite(x), Num::Finite(y)) => match x.checked_div(y) {
            Some(q) => Num::Finite(q),
            None => Num::Infinite { negative: x.mantissa() < 0 },
        },
    }
}

/// What is known of one asset.
#[derive(Clone, Debug)]
pub struct Asset {
    hold: VecDeque<bool>,
    state: CanaryState,
    since_ms: i64,
    red_since_ms: i64,
    probation: bool,
    prob_n: usize,
    prob_w: usize,
    vol_10m: Num,
    vol_60m: Num,
    vol_amber_until_ms: i64,
}

/// What is known of one asset, as mathematical values.
pub struct AssetV {
    /// Outcomes of the last settled positions.
    pub hold: Seq<bool>,
    pub state: CanaryState,
    /// When the state began.
    pub since_ms: int,
    pub red_since_ms: int,
    pub probation: bool,
    /// Positions settled on probation, and how many of them won.
    pub prob_n: nat,
    pub prob_w: nat,
    pub vol_10m: NumV,
    pub vol_60m: NumV,
    /// Until when volatility keeps the asset amber.
    pub vol_amber_until_ms: int,
}

impl View for Asset {
    type V = AssetV;

    closed spec fn view(&self) -> AssetV {
        AssetV {
            hold: self.hold@,
            state: self.state,
            since_ms: self.since_ms as int,
            red_since_ms: self.red_since_ms as int,
            probation: self.probation,
            prob_n: self.prob_n as nat,
            prob_w: self.prob_w as nat,
            vol_10m: self.vol_10m@,
            vol_60m: self.vol_60m@,
            vol_amber_until_ms: self.vol_amber_until_ms as int,
        }
    }
}

/// An asset that was not seen before.
pub open spec fn fresh_asset(now_ms: int) -> AssetV {
    AssetV {
        hold: Seq::empty(),
        state: CanaryState::Green,
        since_ms: now_ms,
        red_since_ms: 0,
        probation: false,
        prob_n: 0,
        prob_w: 0,
        vol_10m: NumV::Finite(decimal::zero()),
        vol_60m: NumV::Finite(decimal::zero()),
        vol_amber_until_ms: 0,
    }
}

/// Between two calls: at most `n_window` outcomes are kept, and a probation is
/// not yet complete.
pub open spec fn settled(a: AssetV, cfg: CanaryConfig) -> bool {
    &&& a.hold.len() <= cfg.n_window
    &&& a.probation ==> a.prob_n < cfg.resume_probation_n || a.prob_n == 0
    &&& a.prob_w <= a.prob_n
    &&& !a.probation ==> a.prob_n == 0
}

/// The verdict of the first arm: green until the window is full.
pub open spec fn arm1(a: AssetV, cfg: CanaryConfig) -> CanaryState {
    if a.hold.len() >= cfg.n_window && share_below(wins(a.hold), a.hold.len(), cfg.wr_red@) {
        CanaryState::Red
    } else if a.hold.len() >= cfg.n_window && share_below(
        wins(a.hold),
        a.hold.len(),
        cfg.wr_amber@,
    ) {
        CanaryState::Amber
    } else {
        CanaryState::Green
    }
}

/// Volatility keeps the asset amber.
pub open spec fn vol_amber(a: AssetV, now_ms: int) -> bool {
    now_ms < a.vol_amber_until_ms
}

/// Enough positions have settled to decide about a probation.
pub open spec fn probation_over(a: AssetV, cfg: CanaryConfig) -> bool {
    a.probation && a.prob_n >= cfg.resume_probation_n
}

/// The probation was passed.
pub open spec fn probation_passed(a: AssetV, cfg: CanaryConfig) -> bool {
    share_reaches(
        a.prob_w,
        if a.prob_n == 0 {
            1
        } else {
            a.prob_n
        },
        cfg.resume_probation_wr@,
    )
}

/// The state that the outcomes call for, volatility apart.
pub open spec fn by_outcomes(a: AssetV, cfg: CanaryConfig, now_ms: int) -> CanaryState {
    if probation_over(a, cfg) {
        if probation_passed(a, cfg) {
            CanaryState::Green
        } else {
            CanaryState::Red
        }
    } else if a.probation {
        CanaryState::Amber
    } else if a.state == CanaryState::Red {
        if now_ms - a.red_since_ms >= cfg.red_cooldown_ms {
            CanaryState::Amber
        } else {
            CanaryState::Red
        }
    } else {
        arm1(a, cfg)
    }
}

/// The next state: volatility turns green into amber.
pub open spec fn next_state(a: AssetV, cfg: CanaryConfig, now_ms: int) -> CanaryState {
    let s = by_outcomes(a, cfg, now_ms);
    if s == CanaryState::Green && vol_amber(a, now_ms) {
        CanaryState::Amber
    } else {
        s
    }
}

/// The asset after its state was worked out again.
pub open spec fn recomputed(a: AssetV, cfg: CanaryConfig, now_ms: int) -> AssetV {
    let next = next_state(a, cfg, now_ms);
    let resumed = !a.probation && a.state == CanaryState::Red && now_ms - a.red_since_ms
        >= cfg.red_cooldown_ms;
    let fell = by_outcomes(a, cfg, now_ms) == CanaryState::Red && (a.probation || a.state
        != CanaryState::Red);
    AssetV {
        state: next,
        since_ms: if next != a.state {
            now_ms
        } else {
            a.since_ms
        },
        red_since_ms: if fell {
            now_ms
        } else {
            a.red_since_ms
        },
        probation: resumed || (a.probation && !probation_over(a, cfg)),
        prob_n: if resumed || probation_over(a, cfg) {
            0
        } else {
            a.prob_n
        },
        prob_w: if resumed || probation_over(a, cfg) {
            0
        } else {
            a.prob_w
        },
        ..a
    }
}

/// Why a state changed.
#[derive(Clone, Copy, PartialEq, Eq, Debug, Structural)]
pub enum CanaryReason {
    HoldwrRed,
    VolAccel,
    HoldwrAmberOrResume,
    Recovered,
}

impl CanaryReason {
    pub open spec fn name(self) -> Seq<char> {
        match self {
            CanaryReason::HoldwrRed => "holdwr_red"@,
            CanaryReason::VolAccel => "vol_accel"@,
            CanaryReason::HoldwrAmberOrResume => "holdwr_amber_or_resume"@,
            CanaryReason::Recovered => "recovered"@,
        }
    }

    pub fn as_str(&self) -> (r: &'static str)
        ensures
            r@ == self.name(),
    {
        match self {
            CanaryReason::HoldwrRed => "holdwr_red",
            CanaryReason::VolAccel => "vol_accel",
            CanaryReason::HoldwrAmberOrResume => "holdwr_amber_or_resume",
            CanaryReason::Recovered => "recovered",
        }
    }
}

/// A change of state.
#[derive(Clone, Debug)]
pub struct Transition {
    pub asset: String,
    pub from: CanaryState,
    pub to: CanaryState,
    /// Wins and outcomes of a full window.
    pub wr: Option<(usize, usize)>,
    /// Outcomes in the window.
    pub n: usize,
    /// The ratio of the ten-minute to the sixty-minute volatility.
    pub vol_ratio: Num,
    pub reason: CanaryReason,
}

/// Wins and outcomes, once the window is full.
pub open spec fn full_window(a: AssetV, cfg: CanaryConfig) -> Option<(nat, nat)> {
    if a.hold.len() >= cfg.n_window {
        Some((wins(a.hold), a.hold.len()))
    } else {
        None
    }
}

pub open spec fn reason_of(a: AssetV, cfg: CanaryConfig, now_ms: int) -> CanaryReason {
    let next = next_state(a, cfg, now_ms);
    let window_fine = match full_window(a, cfg) {
        Some((w, n)) => share_reaches(w, n, cfg.wr_amber@),
        None => true,
    };
    if next == CanaryState::Red {
        CanaryReason::HoldwrRed
    } else if vol_amber(a, now_ms) && next == CanaryState::Amber && window_fine {
        CanaryReason::VolAccel
    } else if next == CanaryState::Amber {
        CanaryReason::HoldwrAmberOrResume
    } else {
        CanaryReason::Recovered
    }
}

/// The report of what working out the state of `a` again changed.
pub open spec fn reports(
    r: Option<Transition>,
    name: Seq<char>,
    a: AssetV,
    cfg: CanaryConfig,
    now_ms: int,
) -> bool {
    match r {
        None => next_state(a, cfg, now_ms) == a.state,
        Some(t) => {
            &&& next_state(a, cfg, now_ms) != a.state
            &&& t.asset@ == name
            &&& t.from == a.state
            &&& t.to == next_state(a, cfg, now_ms)
            &&& match (t.wr, full_window(a, cfg)) {
                (Some((w, n)), Some((w2, n2))) => w == w2 && n == n2,
                (None, None) => true,
                _ => false,
            }
            &&& t.n == a.hold.len()
            &&& t.vol_ratio@ == vol_ratio(a.vol_10m, a.vol_60m)
            &&& t.reason == reason_of(a, cfg, now_ms)
        },
    }
}

/// The asset with one more outcome; only the last `n_window` are kept.
pub open spec fn held(a: AssetV, won: bool, cfg: CanaryConfig) -> AssetV {
    let all = a.hold.push(won);
    AssetV {
        hold: if all.len() > cfg.n_window {
            all.skip(all.len() - cfg.n_window)
        } else {
            all
        },
        prob_n: if a.probation {
            a.prob_n + 1
        } else {
            a.prob_n
        },
        prob_w: if a.probation && won {
            a.prob_w + 1
        } else {
            a.prob_w
        },
        ..a
    }
}

/// The ten-minute volatility is high, and high against the sixty-minute one.
pub open spec fn accelerates(vol_10m: NumV, vol_60m: NumV, cfg: CanaryConfig) -> bool {
    config::value_reaches(vol_10m, cfg.vol_floor_bpm@) && config::value_reaches(
        vol_ratio(vol_10m, vol_60m),
        cfg.vol_ratio_trig@,
    )
}

/// The asset with new volatilities.
pub open spec fn with_vol(
    a: AssetV,
    vol_10m: NumV,
    vol_60m: NumV,
    cfg: CanaryConfig,
    now_ms: int,
) -> AssetV {
    AssetV {
        vol_10m,
        vol_60m,
        vol_amber_until_ms: if accelerates(vol_10m, vol_60m, cfg) {
            now_ms + cfg.vol_amber_hold_ms
        } else {
            a.vol_amber_until_ms
        },
        ..a
    }
}

impl Asset {
    fn new(now_ms: i64) -> (r: Asset)
        ensures
            r@ == fresh_asset(now_ms as int),
    {
        let r = Asset {
            hold: VecDeque::new(),
            state: CanaryState::Green,
            since_ms: now_ms,
            red_since_ms: 0,
            probation: false,
            prob_n: 0,
            prob_w: 0,
            vol_10m: Num::Finite(Dec::zero()),
            vol_60m: Num::Finite(Dec::zero()),
            vol_amber_until_ms: 0,
        };
        assert(r@.hold =~= Seq::empty());
        r
    }

    fn win_count(&self) -> (r: usize)
        ensures
            r == wins(self@.hold),
            r <= self@.hold.len(),
    {
        let mut w: usize = 0;
        let mut i: usize = 0;
        while i < self.hold.len()
            invariant
                i <= self.hold@.len(),
                w <= i,
                w == wins(self.hold@.take(i as int)),
            decreases self.hold@.len() - i,
        {
            assert(self.hold@.take(i + 1).drop_last() =~= self.hold@.take(i as int));
            if self.hold[i] {
                w += 1;
            }
            i += 1;
        }
        assert(self.hold@.take(self.hold@.len() as int) =~= self.hold@);
        w
    }

    /// Wins and outcomes, once the window is full.
    fn wr(&self, cfg: &CanaryConfig) -> (r: Option<(usize, usize)>)
        ensures
            match (r, full_window(self@, *cfg)) {
                (Some((w, n)), Some((w2, n2))) => w == w2 && n == n2,
                (None, None) => true,
                _ => false,
            },
    {
        if self.hold.len() >= cfg.n_window {
            Some((self.win_count(), self.hold.len()))
        } else {
            None
        }
    }

    fn push_outcome(&mut self, won: bool, cfg: &CanaryConfig)
        requires
            settled(old(self)@, *cfg),
        ensures
            final(self)@ == held(old(self)@, won, *cfg),
    {
        let ghost start = self@;
        let ghost all = self.hold@.push(won);
        self.hold.push_back(won);
        assert(all.skip(0) =~= all);
        while self.hold.len() > cfg.n_window
            invariant
                self.hold@.len() <= all.len(),
                self.hold@ == all.skip(all.len() - self.hold@.len()),
                self.hold@.len() >= cfg.n_window || self.hold@.len() == all.len(),
                self@ == (AssetV { hold: self.hold@, ..start }),
            decreases self.hold@.len(),
        {
            let ghost before = self.hold@;
            self.hold.pop_front();
            assert(self.hold@ =~= all.skip(all.len() - self.hold@.len()));
        }
        if self.probation {
            self.prob_n = self.prob_n + 1;
            if won {
                self.prob_w = self.prob_w + 1;
            }
        }
        assert(self@.hold =~= held(start, won, *cfg).hold);
    }

    /// Works out the state again.
    fn recompute(&mut self, name: &str, cfg: &CanaryConfig, now_ms: i64) -> (r: Option<Transition>)
        ensures
            final(self)@ == recomputed(old(self)@, *cfg, now_ms as int),
            reports(r, name@, old(self)@, *cfg, now_ms as int),
    {
        let ghost start = self@;
        let from = self.state;
        let wr = self.wr(cfg);
        let vol_amber = now_ms < self.vol_amber_until_ms;
        let arm = match wr {
            Some((w, n)) => {
                if is_share_below(w, n, cfg.wr_red) {
                    CanaryState::Red
                } else if is_share_below(w, n, cfg.wr_amber) {
                    CanaryState::Amber
                } else {
                    CanaryState::Green
                }
            },
            None => CanaryState::Green,
        };
        let by_outcomes = if self.probation {
            if self.prob_n >= cfg.resume_probation_n {
                let n: usize = if self.prob_n == 0 {
                    1
                } else {
                    self.prob_n
                };
                let passed = is_share_reaching(self.prob_w, n, cfg.resume_probation_wr);
                self.probation = false;
                self.prob_n = 0;
                self.prob_w = 0;
                if passed {
                    CanaryState::Green
                } else {
                    self.red_since_ms = now_ms;
                    CanaryState::Red
                }
            } else {
                CanaryState::Amber
            }
        } else if self.state == CanaryState::Red {
            let red_for: i128 = now_ms as i128 - self.red_since_ms as i128;
            if red_for >= cfg.red_cooldown_ms as i128 {
                self.probation = true;
                self.prob_n = 0;
                self.prob_w = 0;
                CanaryState::Amber
            } else {
                CanaryState::Red
            }
        } else {
            if arm == CanaryState::Red {
                self.red_since_ms = now_ms;
            }
            arm
        };
        let next = if by_outcomes == CanaryState::Green && vol_amber {
            CanaryState::Amber
        } else {
            by_outcomes
        };
        if next == from {
            return None;
        }
        self.state = next;
        self.since_ms = now_ms;
        let window_fine = match wr {
            Some((w, n)) => is_share_reaching(w, n, cfg.wr_amber),
            None => true,
        };
        let reason = if next == CanaryState::Red {
            CanaryReason::HoldwrRed
        } else if vol_amber && next == CanaryState::Amber && window_fine {
            CanaryReason::VolAccel
        } else if next == CanaryState::Amber {
            CanaryReason::HoldwrAmberOrResume
        } else {
            CanaryReason::Recovered
        };
        Some(
            Transition {
                asset: crate::text::text_of(crate::text::chars_of(name).as_slice()),
                from,
                to: next,
                wr,
                n: self.hold.len(),
                vol_ratio: ratio_of(self.vol_10m, self.vol_60m),
                reason,
            },
        )
    }
}

struct Entry {
    name: String,
    asset: Asset,
}

/// The canary over all assets.
pub struct Canary {
    cfg: CanaryConfig,
    entries: Vec<Entry>,
}

spec fn position_of(es: Seq<Entry>, name: Seq<char>) -> int {
    choose|i: int| 0 <= i < es.len() && (#[trigger] es[i]).name@ == name
}

spec fn has_entry(es: Seq<Entry>, name: Seq<char>) -> bool {
    exists|i: int| 0 <= i < es.len() && (#[trigger] es[i]).name@ == name
}

spec fn distinct(es: Seq<Entry>) -> bool {
    forall|i: int, j: int|
        0 <= i < j < es.len() ==> (#[trigger] es[i]).name@ != (#[trigger] es[j]).name@
}

spec fn as_map(es: Seq<Entry>) -> Map<Seq<char>, AssetV> {
    Map::new(|n: Seq<char>| has_entry(es, n), |n: Seq<char>| es[position_of(es, n)].asset@)
}

proof fn lemma_at(es: Seq<Entry>, i: int)
    requires
        distinct(es),
        0 <= i < es.len(),
    ensures
        as_map(es).dom().contains(es[i].name@),
        as_map(es)[es[i].name@] == es[i].asset@,
{
    let n = es[i].name@;
    let k = position_of(es, n);
    assert(es[i].name@ == n);
    assert(0 <= k < es.len() && es[k].name@ == n);
    assert(k == i);
}

proof fn lemma_update(es: Seq<Entry>, i: int, e: Entry)
    requires
        distinct(es),
        0 <= i < es.len(),
        e.name@ == es[i].name@,
    ensures
        distinct(es.update(i, e)),
        as_map(es.update(i, e)) == as_map(es).insert(e.name@, e.asset@),
{
    let new = es.update(i, e);
    assert(distinct(new));
    assert forall|n: Seq<char>| as_map(new).dom().contains(n) == as_map(es).insert(
        e.name@,
        e.asset@,
    ).dom().contains(n) by {
        if has_entry(es, n) {
            let k = position_of(es, n);
            assert(new[k].name@ == n);
        }
        if has_entry(new, n) {
            let k = position_of(new, n);
            assert(es[k].name@ == n);
        }
        assert(new[i].name@ == e.name@);
    }
    assert forall|n: Seq<char>| as_map(new).dom().contains(n) implies as_map(new)[n] == as_map(
        es,
    ).insert(e.name@, e.asset@)[n] by {
        let k = position_of(new, n);
        lemma_at(new, k);
        lemma_at(es, k);
    }
    assert(as_map(new) =~= as_map(es).insert(e.name@, e.asset@));
}

proof fn lemma_push(es: Seq<Entry>, e: Entry)
    requires
        distinct(es),
        !has_entry(es, e.name@),
    ensures
        distinct(es.push(e)),
        as_map(es.push(e)) == as_map(es).insert(e.name@, e.asset@),
{
    let new = es.push(e);
    assert(distinct(new));
    assert forall|n: Seq<char>| as_map(new).dom().contains(n) == as_map(es).insert(
        e.name@,
        e.asset@,
    ).dom().contains(n) by {
        if has_entry(es, n) {
            let k = position_of(es, n);
            assert(new[k].name@ == n);
        }
        if has_entry(new, n) {
            let k = position_of(new, n);
            if k < es.len() {
                assert(es[k].name@ == n);
            }
        }
        assert(new[es.len() as int].name@ == e.name@);
    }
    assert forall|n: Seq<char>| as_map(new).dom().contains(n) implies as_map(new)[n] == as_map(
        es,
    ).insert(e.name@, e.asset@)[n] by {
        let k = position_of(new, n);
        lemma_at(new, k);
        if k < es.len() {
            lemma_at(es, k);
        }
    }
    assert(as_map(new) =~= as_map(es).insert(e.name@, e.asset@));
}

/// The canary over all assets, as mathematical values.
pub struct CanaryV {
    pub cfg: CanaryConfig,
    pub assets: Map<Seq<char>, AssetV>,
}

impl View for Canary {
    type V = CanaryV;

    closed spec fn view(&self) -> CanaryV {
        CanaryV { cfg: self.cfg, assets: as_map(self.entries@) }
    }
}

/// The asset of that name, or a fresh one.
pub open spec fn asset_or_fresh(
    assets: Map<Seq<char>, AssetV>,
    name: Seq<char>,
    now_ms: int,
) -> AssetV {
    if assets.dom().contains(name) {
        assets[name]
    } else {
        fresh_asset(now_ms)
    }
}

/// What a canary is told of an asset.
pub enum News {
    /// A position was settled, and holding it to the end won or lost.
    Outcome { won: bool },
    /// New volatilities.
    Volatility { vol_10m: NumV, vol_60m: NumV },
    /// Time has passed.
    Time,
}

/// The assets after some news of one of them. A canary that is off is not changed
/// by any, and passing time makes no asset known.
pub open spec fn after_news(
    assets: Map<Seq<char>, AssetV>,
    cfg: CanaryConfig,
    name: Seq<char>,
    news: News,
    now_ms: int,
) -> Map<Seq<char>, AssetV> {
    let a = asset_or_fresh(assets, name, now_ms);
    let told = match news {
        News::Outcome { won } => held(a, won, cfg),
        News::Volatility { vol_10m, vol_60m } => with_vol(a, vol_10m, vol_60m, cfg, now_ms),
        News::Time => a,
    };
    if !cfg.enabled || (news is Time && !assets.dom().contains(name)) {
        assets
    } else {
        assets.insert(name, recomputed(told, cfg, now_ms))
    }
}

impl Canary {
    pub open spec fn config(self) -> CanaryConfig {
        self@.cfg
    }

    /// Every asset is held once, and between two calls none is half worked out.
    pub closed spec fn wf(self) -> bool {
        &&& distinct(self.entries@)
        &&& forall|i: int|
            0 <= i < self.entries@.len() ==> settled((#[trigger] self.entries@[i]).asset@, self.cfg)
    }

    #[must_use]
    pub fn new(cfg: CanaryConfig) -> (r: Canary)
        ensures
            r.wf(),
            r.config() == cfg,
            r@.assets == Map::<Seq<char>, AssetV>::empty(),
    {
        let r = Canary { cfg, entries: Vec::new() };
        assert(r@.assets =~= Map::<Seq<char>, AssetV>::empty());
        r
    }

    fn find(&self, asset: &str) -> (r: Option<usize>)
        requires
            self.wf(),
        ensures
            match r {
                Some(i) => i < self.entries@.len() && self.entries@[i as int].name@ == asset@,
                None => !has_entry(self.entries@, asset@),
            },
    {
        let mut i: usize = 0;
        while i < self.entries.len()
            invariant
                i <= self.entries.len(),
                forall|k: int| 0 <= k < i ==> (#[trigger] self.entries@[k]).name@ != asset@,
            decreases self.entries.len() - i,
        {
            if same_text(self.entries[i].name.as_str(), asset) {
                return Some(i);
            }
            i += 1;
        }
        None
    }

    /// The entry of an asset, made where it is missing.
    fn asset_index(&mut self, asset: &str, now_ms: i64) -> (r: usize)
        requires
            old(self).wf(),
        ensures
            final(self).wf(),
            final(self).config() == old(self).config(),
            r < final(self).entries@.len(),
            final(self).entries@[r as int].name@ == asset@,
            final(self)@.assets == old(self)@.assets.insert(
                asset@,
                asset_or_fresh(old(self)@.assets, asset@, now_ms as int),
            ),
            final(self).entries@[r as int].asset@ == asset_or_fresh(
                old(self)@.assets,
                asset@,
                now_ms as int,
            ),
    {
        match self.find(asset) {
            Some(i) => {
                proof {
                    lemma_at(self.entries@, i as int);
                    assert(self@.assets =~= self@.assets.insert(asset@, self@.assets[asset@]));
                }
                i
            },
            None => {
                let e = Entry {
                    name: crate::text::text_of(crate::text::chars_of(asset).as_slice()),
                    asset: Asset::new(now_ms),
                };
                proof {
                    lemma_push(self.entries@, e);
                    assert(!self@.assets.dom().contains(asset@));
                }
                let n: usize = self.entries.len();
                self.entries.push(e);
                n
            },
        }
    }

    /// Puts a changed asset back.
    fn put(&mut self, i: usize, e: Entry)
        requires
            old(self).wf(),
            i < old(self).entries@.len(),
            e.name@ == old(self).entries@[i as int].name@,
            settled(e.asset@, old(self).cfg),
        ensures
            final(self).wf(),
            final(self).config() == old(self).config(),
            final(self)@.assets == old(self)@.assets.insert(e.name@, e.asset@),
    {
        proof {
            lemma_update(self.entries@, i as int, e);
        }
        self.entries.set(i, e);
    }

    fn copy_entry(&self, i: usize) -> (r: Entry)
        requires
            i < self.entries@.len(),
        ensures
            r.name@ == self.entries@[i as int].name@,
            r.asset@ == self.entries@[i as int].asset@,
    {
        let e = &self.entries[i];
        let mut hold: VecDeque<bool> = VecDeque::new();
        let mut k: usize = 0;
        while k < e.asset.hold.len()
            invariant
                k <= e.asset.hold@.len(),
                hold@ == e.asset.hold@.take(k as int),
            decreases e.asset.hold@.len() - k,
        {
            assert(e.asset.hold@.take(k + 1) =~= e.asset.hold@.take(k as int).push(
                e.asset.hold@[k as int],
            ));
            hold.push_back(e.asset.hold[k]);
            k += 1;
        }
        assert(hold@ =~= e.asset.hold@);
        Entry {
            name: e.name.clone(),
            asset: Asset {
                hold,
                state: e.asset.state,
                since_ms: e.asset.since_ms,
                red_since_ms: e.asset.red_since_ms,
                probation: e.asset.probation,
                prob_n: e.asset.prob_n,
                prob_w: e.asset.prob_w,
                vol_10m: e.asset.vol_10m,
                vol_60m: e.asset.vol_60m,
                vol_amber_until_ms: e.asset.vol_amber_until_ms,
            },
        }
    }

    /// The state of an asset: green where the canary is off or the asset was
    /// never seen.
    #[must_use]
    pub fn state(&self, asset: &str) -> (r: CanaryState)
        requires
            self.wf(),
        ensures
            r == if self.config().enabled && self@.assets.dom().contains(asset@) {
                self@.assets[asset@].state
            } else {
                CanaryState::Green
            },
    {
        if !self.cfg.enabled {
            return CanaryState::Green;
        }
        match self.find(asset) {
            Some(i) => {
                proof {
                    lemma_at(self.entries@, i as int);
                }
                self.entries[i].asset.state
            },
            None => CanaryState::Green,
        }
    }

    /// Notes the outcome of a settled position: did holding it to the end win?
    /// Gives the change of state, if there was one.
    pub fn record_hold(&mut self, asset: &str, won: bool, now_ms: i64) -> (r: Option<Transition>)
        requires
            old(self).wf(),
        ensures
            final(self).wf(),
            final(self).config() == old(self).config(),
            final(self)@.assets == after_news(
                old(self)@.assets,
                old(self).config(),
                asset@,
                (News::Outcome { won }),
                now_ms as int,
            ),
            !old(self).config().enabled ==> r is None,
            old(self).config().enabled ==> {
                let cfg = old(self).config();
                let a = held(asset_or_fresh(old(self)@.assets, asset@, now_ms as int), won, cfg);
                &&& reports(r, asset@, a, cfg, now_ms as int)
            },
    {
        if !self.cfg.enabled {
            return None;
        }
        let cfg = self.cfg;
        let ghost before = self@.assets;
        let i = self.asset_index(asset, now_ms);
        let mut e = self.copy_entry(i);
        e.asset.push_outcome(won, &cfg);
        proof {
            lemma_recomputed_settled(e.asset@, cfg, now_ms as int);
        }
        let r = e.asset.recompute(asset, &cfg, now_ms);
        self.put(i, e);
        assert(self@.assets =~= before.insert(asset@, e.asset@));
        r
    }

    /// Notes new volatilities of an asset. Where they accelerate, the asset is
    /// kept amber for a while.
    pub fn update_vol(&mut self, asset: &str, vol_10m: Num, vol_60m: Num, now_ms: i64) -> (r: Option<
        Transition,
    >)
        requires
            old(self).wf(),
            old(self).config().enabled && accelerates(vol_10m@, vol_60m@, old(self).config())
                ==> i64::MIN <= now_ms + old(self).config().vol_amber_hold_ms <= i64::MAX,
        ensures
            final(self).wf(),
            final(self).config() == old(self).config(),
            final(self)@.assets == after_news(
                old(self)@.assets,
                old(self).config(),
                asset@,
                (News::Volatility { vol_10m: vol_10m@, vol_60m: vol_60m@ }),
                now_ms as int,
            ),
            !old(self).config().enabled ==> r is None,
            old(self).config().enabled ==> {
                let cfg = old(self).config();
                let a = with_vol(
                    asset_or_fresh(old(self)@.assets, asset@, now_ms as int),
                    vol_10m@,
                    vol_60m@,
                    cfg,
                    now_ms as int,
                );
                &&& reports(r, asset@, a, cfg, now_ms as int)
            },
    {
        if !self.cfg.enabled {
            return None;
        }
        let cfg = self.cfg;
        let ghost before = self@.assets;
        let i = self.asset_index(asset, now_ms);
        let mut e = self.copy_entry(i);
        e.asset.vol_10m = vol_10m;
        e.asset.vol_60m = vol_60m;
        let ratio_high = ratio_of(vol_10m, vol_60m).is_reaching(cfg.vol_ratio_trig);
        if ratio_high && vol_10m.is_reaching(cfg.vol_floor_bpm) {
            e.asset.vol_amber_until_ms = now_ms + cfg.vol_amber_hold_ms;
        }
        proof {
            lemma_recomputed_settled(e.asset@, cfg, now_ms as int);
        }
        let r = e.asset.recompute(asset, &cfg, now_ms);
        self.put(i, e);
        assert(self@.assets =~= before.insert(asset@, e.asset@));
        r
    }

    /// Works out an asset's state again because time has passed.
    pub fn tick(&mut self, asset: &str, now_ms: i64) -> (r: Option<Transition>)
        requires
            old(self).wf(),
        ensures
            final(self).wf(),
            final(self).config() == old(self).config(),
            final(self)@.assets == after_news(
                old(self)@.assets,
                old(self).config(),
                asset@,
                News::Time,
                now_ms as int,
            ),
            !old(self).config().enabled || !old(self)@.assets.dom().contains(asset@) ==> r is None,
            old(self).config().enabled && old(self)@.assets.dom().contains(asset@) ==> {
                let cfg = old(self).config();
                let a = old(self)@.assets[asset@];
                &&& reports(r, asset@, a, cfg, now_ms as int)
            },
    {
        if !self.cfg.enabled {
            return None;
        }
        let cfg = self.cfg;
        match self.find(asset) {
            None => None,
            Some(i) => {
                proof {
                    lemma_at(self.entries@, i as int);
                }
                let mut e = self.copy_entry(i);
                proof {
                    lemma_recomputed_settled(e.asset@, cfg, now_ms as int);
                }
                let r = e.asset.recompute(asset, &cfg, now_ms);
                self.put(i, e);
                r
            },
        }
    }
}

proof fn lemma_recomputed_settled(a: AssetV, cfg: CanaryConfig, now_ms: int)
    requires
        a.hold.len() <= cfg.n_window,
        a.prob_w <= a.prob_n,
        !a.probation ==> a.prob_n == 0,
    ensures
        settled(recomputed(a, cfg, now_ms), cfg),
{
}

/// What can be shown of one asset.
#[derive(Clone, Debug)]
pub struct AssetStatus {
    pub asset: String,
    pub state: CanaryState,
    pub wr: Option<(usize, usize)>,
    pub n: usize,
    pub vol_10m: Num,
    pub vol_60m: Num,
    pub vol_ratio: Num,
    pub since_ms: i64,
}

/// The status shows the asset.
pub open spec fn shows(s: AssetStatus, a: AssetV, cfg: CanaryConfig) -> bool {
    &&& s.state == a.state
    &&& match (s.wr, full_window(a, cfg)) {
        (Some((w, n)), Some((w2, n2))) => w == w2 && n == n2,
        (None, None) => true,
        _ => false,
    }
    &&& s.n == a.hold.len()
    &&& s.vol_10m@ == a.vol_10m
    &&& s.vol_60m@ == a.vol_60m
    &&& s.vol_ratio@ == vol_ratio(a.vol_10m, a.vol_60m)
    &&& s.since_ms == a.since_ms
}

/// Whether an asset is in the given state.
pub open spec fn any_in(assets: Map<Seq<char>, AssetV>, state: CanaryState) -> bool {
    exists|n: Seq<char>| #[trigger] assets.dom().contains(n) && assets[n].state == state
}

/// The worst state of all assets.
pub open spec fn worst_of(assets: Map<Seq<char>, AssetV>) -> CanaryState {
    if any_in(assets, CanaryState::Red) {
        CanaryState::Red
    } else if any_in(assets, CanaryState::Amber) {
        CanaryState::Amber
    } else {
        CanaryState::Green
    }
}

/// What the canary shows of itself.
#[derive(Clone, Debug)]
pub struct Snapshot {
    pub enabled: bool,
    /// The worst state of an asset.
    pub state: CanaryState,
    pub assets: Vec<AssetStatus>,
}

impl Canary {
    /// Whether the canary is on, the worst state of an asset, and the status of every
    /// asset.
    #[must_use]
    pub fn snapshot(&self) -> (r: Snapshot)
        requires
            self.wf(),
        ensures
            r.enabled == self.config().enabled,
            r.state == worst_of(self@.assets),
            forall|i: int|
                0 <= i < r.assets@.len() ==> self@.assets.dom().contains(
                    (#[trigger] r.assets@[i]).asset@,
                ) && shows(
                    r.assets@[i],
                    self@.assets[r.assets@[i].asset@],
                    self.config(),
                ),
            forall|n: Seq<char>| #[trigger]
                self@.assets.dom().contains(n) ==> exists|i: int|
                    0 <= i < r.assets@.len() && (#[trigger] r.assets@[i]).asset@ == n,
            forall|i: int, j: int|
                0 <= i < j < r.assets@.len() ==> (#[trigger] r.assets@[i]).asset@ != (
                #[trigger] r.assets@[j]).asset@,
    {
        let mut out: Vec<AssetStatus> = Vec::new();
        let mut red: bool = false;
        let mut amber: bool = false;
        let mut i: usize = 0;
        while i < self.entries.len()
            invariant
                self.wf(),
                i <= self.entries@.len(),
                out@.len() == i,
                forall|k: int|
                    0 <= k < i ==> (#[trigger] out@[k]).asset@ == self.entries@[k].name@ && shows(
                        out@[k],
                        self.entries@[k].asset@,
                        self.cfg,
                    ),
                red <==> exists|k: int|
                    0 <= k < i && (#[trigger] self.entries@[k]).asset@.state == CanaryState::Red,
                amber <==> exists|k: int|
                    0 <= k < i && (#[trigger] self.entries@[k]).asset@.state == CanaryState::Amber,
            decreases self.entries@.len() - i,
        {
            let e = &self.entries[i];
            let a = &e.asset;
            if a.state == CanaryState::Red {
                assert(self.entries@[i as int].asset@.state == CanaryState::Red);
                red = true;
            } else if a.state == CanaryState::Amber {
                assert(self.entries@[i as int].asset@.state == CanaryState::Amber);
                amber = true;
            }
            out.push(
                AssetStatus {
                    asset: e.name.clone(),
                    state: a.state,
                    wr: a.wr(&self.cfg),
                    n: a.hold.len(),
                    vol_10m: a.vol_10m,
                    vol_60m: a.vol_60m,
                    vol_ratio: ratio_of(a.vol_10m, a.vol_60m),
                    since_ms: a.since_ms,
                },
            );
            i += 1;
        }
        let worst = if red {
            CanaryState::Red
        } else if amber {
            CanaryState::Amber
        } else {
            CanaryState::Green
        };
        proof {
            let es = self.entries@;
            assert forall|k: int| 0 <= k < es.len() implies self@.assets.dom().contains(
                (#[trigger] es[k]).name@,
            ) && self@.assets[es[k].name@] == es[k].asset@ by {
                lemma_at(es, k);
            }
            assert forall|n: Seq<char>| #[trigger]
                self@.assets.dom().contains(n) implies exists|i: int|
                0 <= i < out@.len() && (#[trigger] out@[i]).asset@ == n by {
                let k = position_of(es, n);
                assert(out@[k].asset@ == n);
            }
            lemma_any(es, CanaryState::Red);
            lemma_any(es, CanaryState::Amber);
        }
        Snapshot { enabled: self.cfg.enabled, state: worst, assets: out }
    }
}

proof fn lemma_any(es: Seq<Entry>, state: CanaryState)
    requires
        distinct(es),
    ensures
        any_in(as_map(es), state) <==> exists|k: int|
            0 <= k < es.len() && (#[trigger] es[k]).asset@.state == state,
{
    if any_in(as_map(es), state) {
        let n = choose|n: Seq<char>| #[trigger]
            as_map(es).dom().contains(n) && as_map(es)[n].state == state;
        let k = position_of(es, n);
        assert(0 <= k < es.len() && es[k].asset@.state == state);
    }
    if exists|k: int| 0 <= k < es.len() && (#[trigger] es[k]).asset@.state == state {
        let k = choose|k: int| 0 <= k < es.len() && (#[trigger] es[k]).asset@.state == state;
        lemma_at(es, k);
        assert(as_map(es).dom().contains(es[k].name@));
    }
}

/// Volatility alone never stops an asset: new volatilities lead to red exactly
/// where the outcomes lead to red without them.
pub proof fn law_volatility_never_turns_red(
    a: AssetV,
    vol_10m: NumV,
    vol_60m: NumV,
    cfg: CanaryConfig,
    now_ms: int,
)
    ensures
        next_state(with_vol(a, vol_10m, vol_60m, cfg, now_ms), cfg, now_ms) == CanaryState::Red
            <==> by_outcomes(a, cfg, now_ms) == CanaryState::Red,
{
}

/// A red asset stays red until its cooldown is over, and is then amber, on
/// probation.
pub proof fn law_red_lasts_through_the_cooldown(a: AssetV, cfg: CanaryConfig, now_ms: int)
    requires
        a.state == CanaryState::Red,
        !a.probation,
    ensures
        now_ms - a.red_since_ms < cfg.red_cooldown_ms ==> next_state(a, cfg, now_ms)
            == CanaryState::Red && recomputed(a, cfg, now_ms).red_since_ms == a.red_since_ms,
        now_ms - a.red_since_ms >= cfg.red_cooldown_ms ==> next_state(a, cfg, now_ms)
            == CanaryState::Amber && recomputed(a, cfg, now_ms).probation,
{
}

/// Until the window is full the outcomes do not count: an asset that is neither
/// red nor on probation is green, or amber by volatility.
pub proof fn law_green_until_the_window_is_full(a: AssetV, cfg: CanaryConfig, now_ms: int)
    requires
        a.state != CanaryState::Red,
        !a.probation,
        a.hold.len() < cfg.n_window,
    ensures
        next_state(a, cfg, now_ms) == if vol_amber(a, now_ms) {
            CanaryState::Amber
        } else {
            CanaryState::Green
        },
{
}

/// Red only by outcomes: an asset turns red only where too few of a full window
/// won, or too few on probation.
pub proof fn law_red_only_by_outcomes(a: AssetV, cfg: CanaryConfig, now_ms: int)
    requires
        next_state(a, cfg, now_ms) == CanaryState::Red,
        a.state != CanaryState::Red,
    ensures
        if a.probation {
            probation_over(a, cfg) && !probation_passed(a, cfg)
        } else {
            full_window(a, cfg) matches Some((w, n)) && share_below(w, n, cfg.wr_red@)
        },
{
}

/// Assets are independent. News of one asset leaves every other one as it is; what
/// becomes of an asset is decided by what it was and by the news of it, whatever
/// the other assets are; and news of two assets can come in either order.
pub proof fn law_assets_are_independent(
    assets: Map<Seq<char>, AssetV>,
    elsewhere: Map<Seq<char>, AssetV>,
    cfg: CanaryConfig,
    name: Seq<char>,
    news: News,
    now_ms: int,
    other: Seq<char>,
    other_news: News,
    other_ms: int,
)
    requires
        name != other,
        assets.dom().contains(name) == elsewhere.dom().contains(name),
        assets.dom().contains(name) ==> assets[name] == elsewhere[name],
    ensures
        ({
            let after = after_news(assets, cfg, name, news, now_ms);
            let there = after_news(elsewhere, cfg, name, news, now_ms);
            &&& after.dom().contains(other) == assets.dom().contains(other)
            &&& assets.dom().contains(other) ==> after[other] == assets[other]
            &&& after.dom().contains(name) == there.dom().contains(name)
            &&& after.dom().contains(name) ==> after[name] == there[name]
            &&& after_news(after, cfg, other, other_news, other_ms) == after_news(
                after_news(assets, cfg, other, other_news, other_ms),
                cfg,
                name,
                news,
                now_ms,
            )
        }),
{
    let one = after_news(
        after_news(assets, cfg, name, news, now_ms),
        cfg,
        other,
        other_news,
        other_ms,
    );
    let two = after_news(
        after_news(assets, cfg, other, other_news, other_ms),
        cfg,
        name,
        news,
        now_ms,
    );
    assert(one =~= two);
}

} // verus!
