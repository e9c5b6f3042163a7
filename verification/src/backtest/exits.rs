//! Exit policies, and what each of them would have done with a lot.

use crate::backtest::position::{self, CollectedPosition};
use crate::backtest::trajectory::Sample;
use crate::config::{Num, NumV};
use crate::decimal::{self, Dec, DecV};
use crate::numeral::{self, power_of_ten, to_signed_units};
use crate::text::{self, push_number, push_signed, push_str};
use crate::wide::product_le;
use vstd::prelude::*;

verus! {

/// When a lot is sold. Shares of the price or of the holding time are in percent,
/// a spread in dollars.
#[derive(Debug, Clone, Copy, PartialEq)]
pub enum ExitVariant {
    /// When its time has come.
    Baseline,
    /// At the first sample that is `tp_pct` percent above what was paid.
    FirstTouch { tp_pct: u64 },
    /// At the best sample of all. No policy can know that sample: this is what
    /// was to be had at most.
    Peak,
    /// When `x_pct` of the holding time are over and the price has not risen
    /// above its high for `y_sec` seconds.
    Smart { x_pct: Dec, y_sec: i64 },
    /// When the price has fallen `z_pct` from its high.
    Trailing { z_pct: Dec },
    /// The same, but only while the spread is at most `max_spread`.
    SpreadFilteredTrailing { z_pct: Dec, max_spread: Num },
    /// The same, but only when `x_pct` of the holding time are over.
    TimeCappedTrailing { x_pct: Dec, z_pct: Dec },
    /// When the price has not risen above its high for `y_sec` seconds.
    F6Only { y_sec: i64 },
}

/// A policy with the values of its numbers.
pub enum VariantV {
    Baseline,
    FirstTouch { tp_pct: u64 },
    Peak,
    Smart { x_pct: DecV, y_sec: i64 },
    Trailing { z_pct: DecV },
    SpreadFilteredTrailing { z_pct: DecV, max_spread: NumV },
    TimeCappedTrailing { x_pct: DecV, z_pct: DecV },
    F6Only { y_sec: i64 },
}

impl View for ExitVariant {
    type V = VariantV;

    open spec fn view(&self) -> VariantV {
        match *self {
            ExitVariant::Baseline => VariantV::Baseline,
            ExitVariant::FirstTouch { tp_pct } => VariantV::FirstTouch { tp_pct },
            ExitVariant::Peak => VariantV::Peak,
            ExitVariant::Smart { x_pct, y_sec } => VariantV::Smart { x_pct: x_pct@, y_sec },
            ExitVariant::Trailing { z_pct } => VariantV::Trailing { z_pct: z_pct@ },
            ExitVariant::SpreadFilteredTrailing { z_pct, max_spread } => {
                VariantV::SpreadFilteredTrailing { z_pct: z_pct@, max_spread: max_spread@ }
            },
            ExitVariant::TimeCappedTrailing { x_pct, z_pct } => VariantV::TimeCappedTrailing {
                x_pct: x_pct@,
                z_pct: z_pct@,
            },
            ExitVariant::F6Only { y_sec } => VariantV::F6Only { y_sec },
        }
    }
}

/// Why a lot was sold.
#[derive(Debug, Clone, Copy, PartialEq, Eq, Structural)]
pub enum ExitReason {
    TimeExit,
    TpTouched,
    PeakOpportunity,
    Uncoverable,
    SmartTriggered,
    TrailingTriggered,
    F6Triggered,
}

impl ExitReason {
    pub open spec fn name(self) -> Seq<char> {
        match self {
            ExitReason::TimeExit => "time_exit"@,
            ExitReason::TpTouched => "tp_touched"@,
            ExitReason::PeakOpportunity => "peak_opportunity"@,
            ExitReason::Uncoverable => "uncoverable"@,
            ExitReason::SmartTriggered => "smart_triggered"@,
            ExitReason::TrailingTriggered => "trailing_triggered"@,
            ExitReason::F6Triggered => "f6_triggered"@,
        }
    }

    pub fn as_str(&self) -> (r: &'static str)
        ensures
            r@ == self.name(),
    {
        match self {
            ExitReason::TimeExit => "time_exit",
            ExitReason::TpTouched => "tp_touched",
            ExitReason::PeakOpportunity => "peak_opportunity",
            ExitReason::Uncoverable => "uncoverable",
            ExitReason::SmartTriggered => "smart_triggered",
            ExitReason::TrailingTriggered => "trailing_triggered",
            ExitReason::F6Triggered => "f6_triggered",
        }
    }
}

/// Decimal digits, at least two.
pub open spec fn two_digits(n: nat) -> Seq<char> {
    if n < 10 {
        "0"@ + decimal::digits(n)
    } else {
        decimal::digits(n)
    }
}

fn push_two_digits(out: &mut String, n: u64)
    ensures
        final(out)@ == old(out)@ + two_digits(n as nat),
{
    let ghost start = out@;
    if n < 10 {
        push_str(out, "0");
    }
    push_number(out, n);
    assert(out@ =~= start + two_digits(n as nat));
}

/// Digits with a sign where there is one, at least two characters.
pub open spec fn two_signed_digits(n: int) -> Seq<char> {
    if 0 <= n < 10 {
        "0"@ + text::signed_digits(n)
    } else {
        text::signed_digits(n)
    }
}

fn push_two_signed_digits(out: &mut String, n: i64)
    ensures
        final(out)@ == old(out)@ + two_signed_digits(n as int),
{
    let ghost start = out@;
    if 0 <= n && n < 10 {
        push_str(out, "0");
    }
    push_signed(out, n);
    assert(out@ =~= start + two_signed_digits(n as int));
}

/// `d` times `k` as a whole number of 64 bits: rounded to the nearest, halves away
/// from zero, and the nearest there is where it does not fit.
pub open spec fn whole_of(d: DecV, k: int) -> int {
    let n = numeral::signed_units(d, k);
    if n > i64::MAX {
        i64::MAX as int
    } else if n < i64::MIN {
        i64::MIN as int
    } else {
        n
    }
}

fn to_whole(d: Dec, k: u64) -> (r: i64)
    requires
        k <= 100,
    ensures
        r == whole_of(d@, k as int),
{
    let n: i128 = to_signed_units(d, k);
    if n > i64::MAX as i128 {
        i64::MAX
    } else if n < i64::MIN as i128 {
        i64::MIN
    } else {
        n as i64
    }
}

/// The same of a number that may be infinite, or no number, which gives 0.
pub open spec fn whole_of_number(x: NumV, k: int) -> int {
    match x {
        NumV::Finite(d) => whole_of(d, k),
        NumV::Infinite { negative } => if negative {
            i64::MIN as int
        } else {
            i64::MAX as int
        },
        NumV::NotANumber => 0,
    }
}

fn number_to_whole(x: Num, k: u64) -> (r: i64)
    requires
        k <= 100,
    ensures
        r == whole_of_number(x@, k as int),
{
    match x {
        Num::Finite(d) => to_whole(d, k),
        Num::Infinite { negative } => if negative {
            i64::MIN
        } else {
            i64::MAX
        },
        Num::NotANumber => 0,
    }
}

impl ExitVariant {
    /// The policy's name in files and tables.
    pub open spec fn name(self) -> Seq<char> {
        match self {
            ExitVariant::Baseline => "baseline_time_exit"@,
            ExitVariant::FirstTouch { tp_pct } => "first_touch_tp_"@ + two_digits(tp_pct as nat)
                + "pct"@,
            ExitVariant::Peak => "peak_opportunity"@,
            ExitVariant::Smart { x_pct, y_sec } => "smart_x"@ + two_signed_digits(
                whole_of(x_pct@, 1),
            ) + "_y"@ + text::signed_digits(y_sec as int) + "s"@,
            ExitVariant::Trailing { z_pct } => "trailing_z"@ + text::signed_digits(
                whole_of(z_pct@, 1),
            ) + "pct"@,
            ExitVariant::SpreadFilteredTrailing { z_pct, max_spread } => "strail_z"@
                + text::signed_digits(whole_of(z_pct@, 1)) + "_s"@ + text::signed_digits(
                whole_of_number(max_spread@, 100),
            ),
            ExitVariant::TimeCappedTrailing { x_pct, z_pct } => "ctrail_x"@
                + text::signed_digits(whole_of(x_pct@, 1)) + "_z"@ + text::signed_digits(
                whole_of(z_pct@, 1),
            ) + "pct"@,
            ExitVariant::F6Only { y_sec } => "f6only_y"@ + text::signed_digits(y_sec as int)
                + "s"@,
        }
    }

    pub fn label(&self) -> (r: String)
        ensures
            r@ == self.name(),
    {
        let mut out = String::new();
        match self {
            ExitVariant::Baseline => push_str(&mut out, "baseline_time_exit"),
            ExitVariant::FirstTouch { tp_pct } => {
                push_str(&mut out, "first_touch_tp_");
                push_two_digits(&mut out, *tp_pct);
                push_str(&mut out, "pct");
            },
            ExitVariant::Peak => push_str(&mut out, "peak_opportunity"),
            ExitVariant::Smart { x_pct, y_sec } => {
                push_str(&mut out, "smart_x");
                push_two_signed_digits(&mut out, to_whole(*x_pct, 1));
                push_str(&mut out, "_y");
                push_signed(&mut out, *y_sec);
                push_str(&mut out, "s");
            },
            ExitVariant::Trailing { z_pct } => {
                push_str(&mut out, "trailing_z");
                push_signed(&mut out, to_whole(*z_pct, 1));
                push_str(&mut out, "pct");
            },
            ExitVariant::SpreadFilteredTrailing { z_pct, max_spread } => {
                push_str(&mut out, "strail_z");
                push_signed(&mut out, to_whole(*z_pct, 1));
                push_str(&mut out, "_s");
                push_signed(&mut out, number_to_whole(*max_spread, 100));
            },
            ExitVariant::TimeCappedTrailing { x_pct, z_pct } => {
                push_str(&mut out, "ctrail_x");
                push_signed(&mut out, to_whole(*x_pct, 1));
                push_str(&mut out, "_z");
                push_signed(&mut out, to_whole(*z_pct, 1));
                push_str(&mut out, "pct");
            },
            ExitVariant::F6Only { y_sec } => {
                push_str(&mut out, "f6only_y");
                push_signed(&mut out, *y_sec);
                push_str(&mut out, "s");
            },
        }
        assert(out@ =~= self.name());
        out
    }
}

/// The highest value of samples, with the time at which it was first had. Where
/// there is a value to begin with, a sample counts only when it is above it.
pub open spec fn high(seed: Option<(int, int)>, samples: Seq<Sample>) -> Option<(int, int)>
    decreases samples.len(),
{
    if samples.len() == 0 {
        seed
    } else {
        let before = high(seed, samples.drop_last());
        let (ms, bid) = samples.last();
        match bid {
            Some(v) if (match before {
                Some((b, _)) => v > b,
                None => true,
            }) => Some((v as int, ms as int)),
            _ => before,
        }
    }
}

/// What was paid, at the time of the entry.
pub open spec fn entry_high(p: CollectedPosition) -> Option<(int, int)> {
    Some((position::cost(p), p.entry_recv_ms as int))
}

/// The time for which a lot is held, at least one millisecond.
pub open spec fn hold_ms(p: CollectedPosition) -> int {
    if p.exit_ts_ms - p.entry_recv_ms < 1 {
        1
    } else {
        p.exit_ts_ms - p.entry_recv_ms
    }
}

/// 100 %, in units of the last place of a share.
pub open spec fn hundred(share: DecV) -> int {
    100 * decimal::pow10(share.s)
}

/// At least `x_pct` percent of the holding time are over.
pub open spec fn time_is_up(p: CollectedPosition, ms: int, x_pct: DecV) -> bool {
    (ms - p.entry_recv_ms) * hundred(x_pct) >= x_pct.m * hold_ms(p)
}

/// No higher price for at least `y_sec` seconds.
pub open spec fn high_is_old(ms: int, high_ms: int, y_sec: i64) -> bool {
    ms - high_ms >= y_sec * 1000
}

/// `v` is at least `z_pct` percent below the high.
pub open spec fn has_fallen(v: int, top: int, z_pct: DecV) -> bool {
    v <= top && v * hundred(z_pct) <= top * (hundred(z_pct) - z_pct.m)
}

/// The spread at a sample is known and at most `max_spread`.
pub open spec fn is_tight(p: CollectedPosition, i: int, max_spread: Num) -> bool {
    i < p.trajectory_bbo@.len() && (match (p.trajectory_bbo@[i].1, p.trajectory_bbo@[i].2) {
        (Some(bid), Some(ask)) => max_spread.at_least(decimal::dec(ask - bid, 4)),
        _ => false,
    })
}

/// The policy sells at sample `i`. What it looks at are that sample and those
/// before it.
pub open spec fn sells_at(p: CollectedPosition, v: ExitVariant, i: int) -> bool {
    let (ms, bid) = p.trajectory@[i];
    let past = p.trajectory@.take(i);
    let now = p.trajectory@.take(i + 1);
    match bid {
        None => false,
        Some(b) => match v {
            ExitVariant::Baseline => false,
            ExitVariant::Peak => false,
            ExitVariant::FirstTouch { tp_pct } => b * 100 >= position::cost(p) * (100 + tp_pct),
            ExitVariant::Smart { x_pct, y_sec } => time_is_up(p, ms as int, x_pct@) && high_is_old(
                ms as int,
                (high(entry_high(p), now)->0).1,
                y_sec,
            ),
            ExitVariant::F6Only { y_sec } => high_is_old(
                ms as int,
                (high(entry_high(p), now)->0).1,
                y_sec,
            ),
            ExitVariant::Trailing { z_pct } => high(None, past) matches Some((top, _)) && has_fallen(
                b as int,
                top,
                z_pct@,
            ),
            ExitVariant::SpreadFilteredTrailing { z_pct, max_spread } => (high(
                None,
                past,
            ) matches Some((top, _)) && has_fallen(b as int, top, z_pct@)) && is_tight(
                p,
                i,
                max_spread,
            ),
            ExitVariant::TimeCappedTrailing { x_pct, z_pct } => (high(None, past) matches Some(
                (top, _),
            ) && has_fallen(b as int, top, z_pct@)) && time_is_up(p, ms as int, x_pct@),
        },
    }
}

/// The first of the first `n` samples at which the policy sells.
pub open spec fn first_sale(p: CollectedPosition, v: ExitVariant, n: int) -> Option<int>
    decreases n,
{
    if n <= 0 {
        None
    } else {
        match first_sale(p, v, n - 1) {
            Some(i) => Some(i),
            None => if sells_at(p, v, n - 1) {
                Some(n - 1)
            } else {
                None
            },
        }
    }
}

/// The reason for a sale by the policy's own rule.
pub open spec fn rule_reason(v: ExitVariant) -> ExitReason {
    match v {
        ExitVariant::FirstTouch { .. } => ExitReason::TpTouched,
        ExitVariant::Smart { .. } => ExitReason::SmartTriggered,
        ExitVariant::F6Only { .. } => ExitReason::F6Triggered,
        _ => ExitReason::TrailingTriggered,
    }
}

/// The sale when the lot's time has come; nothing is had for a lot that cannot
/// be sold.
pub open spec fn time_exit(p: CollectedPosition) -> (int, ExitReason) {
    match p.time_exit_bid {
        Some(b) => (b as int, ExitReason::TimeExit),
        None => (0, ExitReason::Uncoverable),
    }
}

/// What the sale brings, and its reason.
pub open spec fn exit_of(p: CollectedPosition, v: ExitVariant) -> (int, ExitReason) {
    if v == ExitVariant::Peak {
        match high(None, p.trajectory@) {
            Some((top, _)) => (top, ExitReason::PeakOpportunity),
            None => (0, ExitReason::Uncoverable),
        }
    } else {
        match first_sale(p, v, p.trajectory@.len() as int) {
            Some(i) => (p.trajectory@[i].1->0 as int, rule_reason(v)),
            None => time_exit(p),
        }
    }
}

fn sell_at_time(p: &CollectedPosition) -> (r: (u128, ExitReason))
    ensures
        (r.0 as int, r.1) == time_exit(*p),
{
    match p.time_exit_bid {
        Some(b) => (b, ExitReason::TimeExit),
        None => (0, ExitReason::Uncoverable),
    }
}

/// 100 %, in units of the last place of a share.
fn to_hundred(share: Dec) -> (r: u128)
    ensures
        r == hundred(share@),
        100 <= r <= 1_000_000_000_000_000_000_000_000_000_000,
{
    100 * power_of_ten(share.scale())
}

fn size_of(m: i128) -> (r: u128)
    requires
        m != i128::MIN,
    ensures
        r == decimal::abs(m as int),
{
    if m < 0 {
        (-m) as u128
    } else {
        m as u128
    }
}

/// At least `x_pct` percent of the holding time are over at `ms`.
fn is_time_up(p: &CollectedPosition, ms: i64, x_pct: Dec) -> (r: bool)
    ensures
        r == time_is_up(*p, ms as int, x_pct@),
{
    let held: i128 = p.exit_ts_ms as i128 - p.entry_recv_ms as i128;
    let hold: i128 = if held < 1 {
        1
    } else {
        held
    };
    let over: i128 = ms as i128 - p.entry_recv_ms as i128;
    let all: u128 = to_hundred(x_pct);
    let m: i128 = x_pct.mantissa();
    proof {
        assert(over >= 0 ==> over * all >= 0) by (nonlinear_arith)
            requires
                all >= 0,
        ;
        assert(over < 0 ==> over * all < 0) by (nonlinear_arith)
            requires
                all > 0,
        ;
        assert(m >= 0 ==> m * hold >= 0) by (nonlinear_arith)
            requires
                hold >= 0,
        ;
        assert(m < 0 ==> m * hold < 0) by (nonlinear_arith)
            requires
                hold > 0,
        ;
        assert((-over) * all == -(over * all)) by (nonlinear_arith);
        assert((-m) * hold == -(m * hold)) by (nonlinear_arith);
    }
    if over >= 0 {
        m <= 0 || product_le(m as u128, hold as u128, over as u128, all)
    } else {
        m < 0 && product_le((-over) as u128, all, (-m) as u128, hold as u128)
    }
}

fn is_high_old(ms: i64, high_ms: i64, y_sec: i64) -> (r: bool)
    ensures
        r == high_is_old(ms as int, high_ms as int, y_sec),
{
    ms as i128 - high_ms as i128 >= y_sec as i128 * 1000
}

fn fell(v: u128, top: u128, z_pct: Dec) -> (r: bool)
    ensures
        r == has_fallen(v as int, top as int, z_pct@),
{
    let all: u128 = to_hundred(z_pct);
    let m: i128 = z_pct.mantissa();
    if v > top {
        false
    } else if m < 0 {
        product_le(v, all, top, all + size_of(m))
    } else if m as u128 <= all {
        product_le(v, all, top, all - m as u128)
    } else {
        proof {
            assert(top > 0 ==> top * (all - m) < 0) by (nonlinear_arith)
                requires
                    m > all,
            ;
            assert(top == 0 ==> top * (all - m) == 0) by (nonlinear_arith);
            assert(v == 0 ==> v * all == 0) by (nonlinear_arith);
            assert(v * all >= 0) by (nonlinear_arith)
                requires
                    v >= 0,
                    all >= 0,
            ;
        }
        top == 0
    }
}

fn tight(p: &CollectedPosition, i: usize, max_spread: Num) -> (r: bool)
    ensures
        r == is_tight(*p, i as int, max_spread),
{
    if i < p.trajectory_bbo.len() {
        let (_, bid, ask) = p.trajectory_bbo[i];
        match (bid, ask) {
            (Some(bid), Some(ask)) => max_spread.is_at_least(Dec::new(ask as i64 - bid as i64, 4)),
            _ => false,
        }
    } else {
        false
    }
}

fn touched(b: u128, paid: u128, tp_pct: u64) -> (r: bool)
    requires
        b <= 0x1_0000_0000_0000_0000_0000_0000,
        paid <= 0x1_0000_0000_0000_0000_0000_0000,
    ensures
        r == (b * 100 >= paid * (100 + tp_pct)),
{
    if b < paid {
        proof {
            assert(paid * (100 + tp_pct) >= paid * 100) by (nonlinear_arith)
                requires
                    paid >= 0,
                    tp_pct >= 0,
            ;
        }
        false
    } else if paid == 0 {
        proof {
            assert(paid * (100 + tp_pct) == 0) by (nonlinear_arith)
                requires
                    paid == 0,
            ;
        }
        true
    } else {
        let gain: u128 = (b - paid) * 100;
        let q: u128 = gain / paid;
        proof {
            vstd::arithmetic::div_mod::lemma_fundamental_div_mod(gain as int, paid as int);
            let rem = gain as int % paid as int;
            assert(paid * (100 + tp_pct) == paid * 100 + paid * tp_pct) by (nonlinear_arith);
            assert((gain >= paid * tp_pct) == (q >= tp_pct)) by (nonlinear_arith)
                requires
                    gain == paid * q + rem,
                    0 <= rem < paid,
                    paid > 0,
            ;
        }
        q >= tp_pct as u128
    }
}

proof fn lemma_first_sale_none(p: CollectedPosition, v: ExitVariant, n: int)
    requires
        forall|i: int| 0 <= i < n ==> !#[trigger] sells_at(p, v, i),
    ensures
        first_sale(p, v, n) is None,
    decreases n,
{
    if n > 0 {
        lemma_first_sale_none(p, v, n - 1);
    }
}

proof fn lemma_first_sale_at(p: CollectedPosition, v: ExitVariant, i: int, n: int)
    requires
        0 <= i < n,
        sells_at(p, v, i),
        first_sale(p, v, i) is None,
    ensures
        first_sale(p, v, n) == Some(i),
    decreases n,
{
    if n > i + 1 {
        lemma_first_sale_at(p, v, i, n - 1);
    }
}

proof fn lemma_first_sale(p: CollectedPosition, v: ExitVariant, n: int)
    ensures
        match first_sale(p, v, n) {
            Some(i) => 0 <= i < n && sells_at(p, v, i) && first_sale(p, v, i) is None,
            None => true,
        },
    decreases n,
{
    if n > 0 {
        lemma_first_sale(p, v, n - 1);
    }
}

/// What the policy's sale of a lot brings, in units of 1e-10 dollars, and its
/// reason.
pub fn decide_exit_for_variant(p: &CollectedPosition, v: ExitVariant) -> (r: (u128, ExitReason))
    requires
        p.wf(),
    ensures
        (r.0 as int, r.1) == exit_of(*p, v),
        r.0 <= p.shares * u32::MAX,
{
    proof {
        assert(p.shares * p.entry_price <= u64::MAX * u32::MAX) by (nonlinear_arith)
            requires
                0 <= p.shares <= u64::MAX,
                0 <= p.entry_price <= u32::MAX,
        ;
        assert(p.shares * u32::MAX <= u64::MAX * u32::MAX) by (nonlinear_arith)
            requires
                0 <= p.shares <= u64::MAX,
        ;
        assert(0 <= p.shares * u32::MAX) by (nonlinear_arith)
            requires
                0 <= p.shares,
        ;
        assert(position::possible(*p, p.time_exit_bid));
    }
    let paid: u128 = p.shares as u128 * p.entry_price as u128;
    let n: usize = p.trajectory.len();
    let mut top: Option<u128> = None;
    let mut since_entry: u128 = paid;
    let mut since_ms: i64 = p.entry_recv_ms;
    let mut i: usize = 0;
    proof {
        assert(p.trajectory@.take(0) =~= Seq::empty());
    }
    while i < n
        invariant
            p.wf(),
            i <= n,
            n == p.trajectory@.len(),
            paid == position::cost(*p),
            paid <= 0x1_0000_0000_0000_0000_0000_0000,
            p.shares * u32::MAX <= 0x1_0000_0000_0000_0000_0000_0000,
            v != ExitVariant::Peak ==> first_sale(*p, v, i as int) is None,
            match top {
                Some(t) => high(None, p.trajectory@.take(i as int)) matches Some((h, _)) && h == t
                    && t <= p.shares * u32::MAX,
                None => high(None, p.trajectory@.take(i as int)) is None,
            },
            high(entry_high(*p), p.trajectory@.take(i as int)) == Some(
                (since_entry as int, since_ms as int),
            ),
        decreases n - i,
    {
        let (ms, bid) = p.trajectory[i];
        let ghost past = p.trajectory@.take(i as int);
        let ghost now = p.trajectory@.take(i + 1);
        proof {
            assert(now.drop_last() =~= past);
            assert(now.last() == p.trajectory@[i as int]);
            assert(position::possible(*p, p.trajectory@[i as int].1));
        }
        match bid {
            None => {},
            Some(b) => {
                if b > since_entry {
                    since_entry = b;
                    since_ms = ms;
                }
                let dropped = match v {
                    ExitVariant::Trailing { z_pct } => match top {
                        Some(t) => fell(b, t, z_pct),
                        None => false,
                    },
                    ExitVariant::SpreadFilteredTrailing { z_pct, max_spread } => match top {
                        Some(t) => fell(b, t, z_pct) && tight(p, i, max_spread),
                        None => false,
                    },
                    ExitVariant::TimeCappedTrailing { x_pct, z_pct } => match top {
                        Some(t) => fell(b, t, z_pct) && is_time_up(p, ms, x_pct),
                        None => false,
                    },
                    ExitVariant::FirstTouch { tp_pct } => touched(b, paid, tp_pct),
                    ExitVariant::Smart { x_pct, y_sec } => is_time_up(p, ms, x_pct) && is_high_old(
                        ms,
                        since_ms,
                        y_sec,
                    ),
                    ExitVariant::F6Only { y_sec } => is_high_old(ms, since_ms, y_sec),
                    ExitVariant::Baseline => false,
                    ExitVariant::Peak => false,
                };
                assert(dropped == sells_at(*p, v, i as int));
                if dropped {
                    proof {
                        lemma_first_sale_at(*p, v, i as int, n as int);
                    }
                    let reason = match v {
                        ExitVariant::FirstTouch { tp_pct: _ } => ExitReason::TpTouched,
                        ExitVariant::Smart { x_pct: _, y_sec: _ } => ExitReason::SmartTriggered,
                        ExitVariant::F6Only { y_sec: _ } => ExitReason::F6Triggered,
                        _ => ExitReason::TrailingTriggered,
                    };
                    return (b, reason);
                }
                let higher = match top {
                    Some(t) => b > t,
                    None => true,
                };
                if higher {
                    top = Some(b);
                }
            },
        }
        i += 1;
    }
    proof {
        assert(p.trajectory@.take(n as int) =~= p.trajectory@);
    }
    match v {
        ExitVariant::Peak => match top {
            Some(t) => (t, ExitReason::PeakOpportunity),
            None => (0, ExitReason::Uncoverable),
        },
        _ => sell_at_time(p),
    }
}

proof fn lemma_high_bounds(seed: Option<(int, int)>, samples: Seq<Sample>, i: int)
    requires
        0 <= i < samples.len(),
        samples[i].1 is Some,
    ensures
        high(seed, samples) is Some,
        samples[i].1->0 <= (high(seed, samples)->0).0,
    decreases samples.len(),
{
    if i < samples.len() - 1 {
        lemma_high_bounds(seed, samples.drop_last(), i);
        assert(samples.drop_last()[i] == samples[i]);
    }
}

/// No rule that sells at a sample brings more than the peak.
pub proof fn law_peak_is_the_ceiling(p: CollectedPosition, v: ExitVariant)
    requires
        exit_of(p, v).1 != ExitReason::TimeExit,
    ensures
        exit_of(p, v).0 <= exit_of(p, ExitVariant::Peak).0,
{
    if v != ExitVariant::Peak {
        let n = p.trajectory@.len() as int;
        lemma_first_sale(p, v, n);
        match first_sale(p, v, n) {
            Some(i) => {
                lemma_high_bounds(None, p.trajectory@, i);
            },
            None => {
                lemma_high_nonneg(p.trajectory@);
            },
        }
    }
}

proof fn lemma_high_nonneg(samples: Seq<Sample>)
    ensures
        high(None, samples) matches Some((v, _)) ==> v >= 0,
    decreases samples.len(),
{
    if samples.len() > 0 {
        lemma_high_nonneg(samples.drop_last());
    }
}

proof fn lemma_high_is_a_sample(samples: Seq<Sample>)
    ensures
        high(None, samples) matches Some((v, _)) ==> exists|i: int|
            0 <= i < samples.len() && (#[trigger] samples[i]).1 is Some && samples[i].1->0 == v,
    decreases samples.len(),
{
    if samples.len() > 0 {
        let before = samples.drop_last();
        lemma_high_is_a_sample(before);
        if high(None, samples) == high(None, before) && high(None, samples) is Some {
            let v = (high(None, before)->0).0;
            let i = choose|i: int|
                0 <= i < before.len() && (#[trigger] before[i]).1 is Some && before[i].1->0 == v;
            assert(samples[i] == before[i]);
        } else {
            assert(samples[samples.len() - 1] == samples.last());
        }
    }
}

/// No sale brings more than the highest price for every share.
pub proof fn law_sales_are_possible(p: CollectedPosition, v: ExitVariant)
    requires
        p.wf(),
    ensures
        0 <= exit_of(p, v).0 <= p.shares * u32::MAX,
{
    let n = p.trajectory@.len() as int;
    assert(0 <= p.shares * u32::MAX) by (nonlinear_arith)
        requires
            0 <= p.shares,
    ;
    assert(position::possible(p, p.time_exit_bid));
    if v == ExitVariant::Peak {
        lemma_high_is_a_sample(p.trajectory@);
        if high(None, p.trajectory@) is Some {
            let top = (high(None, p.trajectory@)->0).0;
            let i = choose|i: int|
                0 <= i < n && (#[trigger] p.trajectory@[i]).1 is Some && p.trajectory@[i].1->0
                    == top;
            assert(position::possible(p, p.trajectory@[i].1));
        }
    } else {
        lemma_first_sale(p, v, n);
        if first_sale(p, v, n) is Some {
            assert(position::possible(p, p.trajectory@[first_sale(p, v, n)->0].1));
        }
    }
}

/// A rule never looks ahead: what comes behind the sample at which it sells
/// makes no difference to the sale.
pub proof fn law_rules_use_no_future(p: CollectedPosition, q: CollectedPosition, v: ExitVariant, n: int)
    requires
        v != ExitVariant::Peak,
        0 <= n <= p.trajectory@.len(),
        n <= q.trajectory@.len(),
        p.trajectory@.take(n) == q.trajectory@.take(n),
        n <= p.trajectory_bbo@.len(),
        n <= q.trajectory_bbo@.len(),
        p.trajectory_bbo@.take(n) == q.trajectory_bbo@.take(n),
        p.shares == q.shares,
        p.entry_price == q.entry_price,
        p.entry_recv_ms == q.entry_recv_ms,
        p.exit_ts_ms == q.exit_ts_ms,
        first_sale(p, v, n) is Some,
    ensures
        exit_of(p, v) == exit_of(q, v),
{
    lemma_first_sale(p, v, n);
    let i = first_sale(p, v, n)->0;
    assert forall|k: int| 0 <= k <= i implies sells_at(p, v, k) == #[trigger] sells_at(q, v, k) by {
        assert(p.trajectory@[k] == p.trajectory@.take(n)[k]);
        assert(q.trajectory@[k] == q.trajectory@.take(n)[k]);
        assert(p.trajectory_bbo@[k] == p.trajectory_bbo@.take(n)[k]);
        assert(q.trajectory_bbo@[k] == q.trajectory_bbo@.take(n)[k]);
        assert(p.trajectory@.take(k) =~= p.trajectory@.take(n).take(k));
        assert(q.trajectory@.take(k) =~= q.trajectory@.take(n).take(k));
        assert(p.trajectory@.take(k + 1) =~= p.trajectory@.take(n).take(k + 1));
        assert(q.trajectory@.take(k + 1) =~= q.trajectory@.take(n).take(k + 1));
    }
    assert forall|k: int| 0 <= k < i implies !#[trigger] sells_at(q, v, k) by {
        lemma_no_earlier_sale(p, v, i, k);
    }
    assert(sells_at(q, v, i));
    lemma_first_sale_none(q, v, i);
    lemma_first_sale_at(p, v, i, p.trajectory@.len() as int);
    lemma_first_sale_at(q, v, i, q.trajectory@.len() as int);
    assert(p.trajectory@[i] == p.trajectory@.take(n)[i]);
    assert(q.trajectory@[i] == q.trajectory@.take(n)[i]);
}

proof fn lemma_no_earlier_sale(p: CollectedPosition, v: ExitVariant, n: int, k: int)
    requires
        first_sale(p, v, n) is None,
        0 <= k < n,
    ensures
        !sells_at(p, v, k),
    decreases n,
{
    if k < n - 1 {
        lemma_no_earlier_sale(p, v, n - 1, k);
    }
}

/// A rule that waits for a fall never sells at an unchanged price, however small
/// the fall is.
pub proof fn law_a_fall_is_a_fall(top: int, z_pct: DecV)
    requires
        top > 0,
        z_pct.m > 0,
    ensures
        !has_fallen(top, top, z_pct),
{
    let (all, m) = (hundred(z_pct), z_pct.m);
    assert(top * all > top * (all - m)) by (nonlinear_arith)
        requires
            top > 0,
            m > 0,
    ;
}

/// A lot that is sold on a touch brings at least its target.
pub proof fn law_touch_pays_the_target(p: CollectedPosition, tp_pct: u64)
    requires
        exit_of(p, ExitVariant::FirstTouch { tp_pct }).1 == ExitReason::TpTouched,
    ensures
        exit_of(p, ExitVariant::FirstTouch { tp_pct }).0 * 100 >= position::cost(p) * (100
            + tp_pct),
{
    lemma_first_sale(p, ExitVariant::FirstTouch { tp_pct }, p.trajectory@.len() as int);
}

/// What a policy of touch pays does not get worse where a target is lower: a
/// lot that reaches the higher target reaches the lower one, and no later.
pub proof fn law_lower_targets_are_touched_first(p: CollectedPosition, low: u64, high_pct: u64)
    requires
        low <= high_pct,
        first_sale(p, ExitVariant::FirstTouch { tp_pct: high_pct }, p.trajectory@.len() as int) is Some,
    ensures
        first_sale(p, ExitVariant::FirstTouch { tp_pct: low }, p.trajectory@.len() as int) is Some,
        first_sale(p, ExitVariant::FirstTouch { tp_pct: low }, p.trajectory@.len() as int)->0
            <= first_sale(
            p,
            ExitVariant::FirstTouch { tp_pct: high_pct },
            p.trajectory@.len() as int,
        )->0,
{
    let n = p.trajectory@.len() as int;
    let a = ExitVariant::FirstTouch { tp_pct: low };
    let b = ExitVariant::FirstTouch { tp_pct: high_pct };
    lemma_first_sale(p, b, n);
    let i = first_sale(p, b, n)->0;
    let paid = position::cost(p);
    assert(paid * (100 + low) <= paid * (100 + high_pct)) by (nonlinear_arith)
        requires
            paid >= 0,
            low <= high_pct,
    ;
    assert(sells_at(p, a, i));
    lemma_sale_by(p, a, i, n);
}

proof fn lemma_sale_by(p: CollectedPosition, v: ExitVariant, i: int, n: int)
    requires
        0 <= i < n,
        sells_at(p, v, i),
    ensures
        first_sale(p, v, n) is Some,
        first_sale(p, v, n)->0 <= i,
    decreases n,
{
    lemma_first_sale(p, v, n - 1);
    if i < n - 1 {
        lemma_sale_by(p, v, i, n - 1);
    }
}

} // verus!
