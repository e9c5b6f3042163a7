//! Which features tell when to sell: train and test rows, scores and verdicts.

use crate::backtest::auc::{self, compute_auc_and_mwu, AucResult};
use crate::backtest::causal::{FeatureSample, Features};
use crate::backtest::metrics::{self, insert_name};
use crate::backtest::peak::{self, insert_ascending};
use crate::text::same_text;
use vstd::prelude::*;

verus! {

// Fractions.

/// Whether `a / b` is below `c / d`.
pub open spec fn below(a: int, b: int, c: int, d: int) -> bool {
    a * d < c * b
}

proof fn lemma_below_step(a: int, b: int, c: int, d: int)
    requires
        a >= 0,
        b > 0,
        c >= 0,
        d > 0,
    ensures
        a / b != c / d ==> below(a, b, c, d) == (a / b < c / d),
        a / b == c / d ==> below(a, b, c, d) == below(a % b, b, c % d, d),
{
    let qa = a / b;
    let ra = a % b;
    let qc = c / d;
    let rc = c % d;
    vstd::arithmetic::div_mod::lemma_fundamental_div_mod(a, b);
    vstd::arithmetic::div_mod::lemma_fundamental_div_mod(c, d);
    let bd = b * d;
    assert(a * d == qa * bd + ra * d) by (nonlinear_arith)
        requires
            a == b * qa + ra,
            bd == b * d,
    ;
    assert(c * b == qc * bd + rc * b) by (nonlinear_arith)
        requires
            c == d * qc + rc,
            bd == b * d,
    ;
    assert(0 <= ra * d < bd) by (nonlinear_arith)
        requires
            0 <= ra < b,
            d > 0,
            bd == b * d,
    ;
    assert(0 <= rc * b < bd) by (nonlinear_arith)
        requires
            0 <= rc < d,
            b > 0,
            bd == b * d,
    ;
    if qa < qc {
        assert(qa * bd + bd <= qc * bd) by (nonlinear_arith)
            requires
                qa + 1 <= qc,
                bd > 0,
        ;
    } else if qc < qa {
        assert(qc * bd + bd <= qa * bd) by (nonlinear_arith)
            requires
                qc + 1 <= qa,
                bd > 0,
        ;
    }
}

/// Compares two fractions.
pub fn is_below(a: u128, b: u128, c: u128, d: u128) -> (r: bool)
    requires
        b > 0,
        d > 0,
    ensures
        r == below(a as int, b as int, c as int, d as int),
    decreases b,
{
    proof {
        lemma_below_step(a as int, b as int, c as int, d as int);
    }
    let qa: u128 = a / b;
    let qc: u128 = c / d;
    if qa != qc {
        return qa < qc;
    }
    let ra: u128 = a % b;
    let rc: u128 = c % d;
    if rc == 0 {
        assert(0 <= ra * d) by (nonlinear_arith)
            requires
                ra >= 0,
                d > 0,
        ;
        return false;
    }
    if ra == 0 {
        assert(rc * b > 0) by (nonlinear_arith)
            requires
                rc > 0,
                b > 0,
        ;
        return true;
    }
    let qd: u128 = d / rc;
    let qb: u128 = b / ra;
    proof {
        lemma_below_step(d as int, rc as int, b as int, ra as int);
        assert(below(ra as int, b as int, rc as int, d as int) == below(
            d as int,
            rc as int,
            b as int,
            ra as int,
        )) by (nonlinear_arith);
    }
    if qd != qb {
        return qd < qb;
    }
    let rd: u128 = d % rc;
    let rb: u128 = b % ra;
    if rb == 0 {
        assert(!below(rd as int, rc as int, rb as int, ra as int)) by (nonlinear_arith)
            requires
                rd >= 0,
                ra > 0,
                rb == 0,
        ;
        return false;
    }
    if rd == 0 {
        assert(below(rd as int, rc as int, rb as int, ra as int)) by (nonlinear_arith)
            requires
                rb > 0,
                rc > 0,
                rd == 0,
        ;
        return true;
    }
    proof {
        assert(below(rd as int, rc as int, rb as int, ra as int) == below(
            ra as int,
            rb as int,
            rc as int,
            rd as int,
        )) by (nonlinear_arith);
    }
    is_below(ra, rb, rc, rd)
}

// Scores.

/// The pairs of a right and a wrong row.
pub open spec fn pairs(r: AucResult) -> int {
    r.n_pos * r.n_neg
}

/// How far a score is from chance, as a fraction.
pub open spec fn distance(r: AucResult) -> (int, int) {
    let p = pairs(r);
    if p == 0 {
        (0, 1)
    } else if r.u_doubled >= p {
        (r.u_doubled - p, 2 * p)
    } else {
        (p - r.u_doubled, 2 * p)
    }
}

/// A result that a score of rows can be.
pub open spec fn possible(r: AucResult) -> bool {
    &&& r.n_pos < 0x1_0000_0000_0000
    &&& r.n_neg < 0x1_0000_0000_0000
    &&& r.u_doubled <= 2 * pairs(r)
}

fn pairs_of(r: &AucResult) -> (p: u128)
    requires
        possible(*r),
    ensures
        p == pairs(*r),
        p < 0x1_0000_0000_0000_0000_0000_0000,
{
    proof {
        assert(0 <= r.n_pos * r.n_neg < 0x1_0000_0000_0000_0000_0000_0000) by (nonlinear_arith)
            requires
                0 <= r.n_pos < 0x1_0000_0000_0000,
                0 <= r.n_neg < 0x1_0000_0000_0000,
        ;
    }
    r.n_pos as u128 * r.n_neg as u128
}

/// How far a score is from chance: a fraction of at most one half.
pub fn distance_of(r: &AucResult) -> (d: (u128, u128))
    requires
        possible(*r),
    ensures
        d.0 == distance(*r).0,
        d.1 == distance(*r).1,
        d.1 > 0,
        2 * d.0 <= d.1,
        d.1 < 0x2_0000_0000_0000_0000_0000_0000,
{
    let p: u128 = pairs_of(r);
    if p == 0 {
        (0, 1)
    } else if r.u_doubled >= p {
        (r.u_doubled - p, 2 * p)
    } else {
        (p - r.u_doubled, 2 * p)
    }
}

/// A score of rows is possible.
proof fn lemma_possible(r: AucResult, samples: Seq<(Option<i128>, bool)>)
    requires
        auc::is_auc(r, samples),
        samples.len() < 0x1_0000_0000_0000,
    ensures
        possible(r),
{
    let s = auc::known(samples);
    auc::law_score_is_a_share_of_the_pairs(s);
    auc::lemma_sizes(samples);
    assert(2 * r.n_pos * r.n_neg == 2 * (r.n_pos * r.n_neg)) by (nonlinear_arith);
}

/// A feature of the data set.
#[derive(Debug, Clone, Copy, PartialEq, Eq, Structural)]
pub enum Feature {
    TSinceEntryPct,
    TToExitMs,
    BidT,
    BidMaxSoFar,
    BidRatio,
    TimeSinceBidMaxMs,
    BidVelocity5s,
    BidVelocity15s,
    SpreadT,
    ExecutableMinusBestBid,
    BinanceReturnSinceEntry,
    BinanceReturn5s,
    /// The label itself.
    Oracle,
    /// Chance.
    Random,
    MaxFutureAdvantage,
    AdvantageAtTPlus30s,
}

/// The value of a feature in a row.
pub open spec fn value(f: Feature, x: Features) -> Option<i128> {
    match f {
        Feature::TSinceEntryPct => x.f1_t_since_entry_pct,
        Feature::TToExitMs => x.f2_t_to_exit_ms,
        Feature::BidT => x.f3_bid_t,
        Feature::BidMaxSoFar => x.f4_bid_max_so_far,
        Feature::BidRatio => x.f5_bid_ratio,
        Feature::TimeSinceBidMaxMs => x.f6_time_since_bid_max_ms,
        Feature::BidVelocity5s => x.f7_bid_velocity_5s,
        Feature::BidVelocity15s => x.f8_bid_velocity_15s,
        Feature::SpreadT => x.f9_spread_t,
        Feature::ExecutableMinusBestBid => x.f10_executable_minus_best_bid,
        Feature::BinanceReturnSinceEntry => x.f11_binance_return_since_entry,
        Feature::BinanceReturn5s => x.f12_binance_return_5s,
        Feature::Oracle => x.sanity_label_as_feat,
        Feature::Random => x.sanity_random_seeded,
        Feature::MaxFutureAdvantage => x.canary_max_future_advantage,
        Feature::AdvantageAtTPlus30s => x.canary_advantage_at_t_plus_30s,
    }
}

impl Feature {
    /// The value of the feature in a row.
    pub fn value_in(self, x: &Features) -> (r: Option<i128>)
        ensures
            r == value(self, *x),
    {
        match self {
            Feature::TSinceEntryPct => x.f1_t_since_entry_pct,
            Feature::TToExitMs => x.f2_t_to_exit_ms,
            Feature::BidT => x.f3_bid_t,
            Feature::BidMaxSoFar => x.f4_bid_max_so_far,
            Feature::BidRatio => x.f5_bid_ratio,
            Feature::TimeSinceBidMaxMs => x.f6_time_since_bid_max_ms,
            Feature::BidVelocity5s => x.f7_bid_velocity_5s,
            Feature::BidVelocity15s => x.f8_bid_velocity_15s,
            Feature::SpreadT => x.f9_spread_t,
            Feature::ExecutableMinusBestBid => x.f10_executable_minus_best_bid,
            Feature::BinanceReturnSinceEntry => x.f11_binance_return_since_entry,
            Feature::BinanceReturn5s => x.f12_binance_return_5s,
            Feature::Oracle => x.sanity_label_as_feat,
            Feature::Random => x.sanity_random_seeded,
            Feature::MaxFutureAdvantage => x.canary_max_future_advantage,
            Feature::AdvantageAtTPlus30s => x.canary_advantage_at_t_plus_30s,
        }
    }

    /// The feature's name in reports.
    pub open spec fn name(self) -> Seq<char> {
        match self {
            Feature::TSinceEntryPct => "f1_t_since_entry_pct"@,
            Feature::TToExitMs => "f2_t_to_exit_ms"@,
            Feature::BidT => "f3_bid_t"@,
            Feature::BidMaxSoFar => "f4_bid_max_so_far"@,
            Feature::BidRatio => "f5_bid_ratio"@,
            Feature::TimeSinceBidMaxMs => "f6_time_since_bid_max_ms"@,
            Feature::BidVelocity5s => "f7_bid_velocity_5s"@,
            Feature::BidVelocity15s => "f8_bid_velocity_15s"@,
            Feature::SpreadT => "f9_spread_t"@,
            Feature::ExecutableMinusBestBid => "f10_executable_minus_best_bid"@,
            Feature::BinanceReturnSinceEntry => "f11_binance_return_since_entry"@,
            Feature::BinanceReturn5s => "f12_binance_return_5s"@,
            Feature::Oracle => "sanity_label_as_feat"@,
            Feature::Random => "sanity_random_seeded"@,
            Feature::MaxFutureAdvantage => "canary_max_future_advantage"@,
            Feature::AdvantageAtTPlus30s => "canary_advantage_at_t_plus_30s"@,
        }
    }

    pub fn as_str(self) -> (r: &'static str)
        ensures
            r@ == self.name(),
    {
        match self {
            Feature::TSinceEntryPct => "f1_t_since_entry_pct",
            Feature::TToExitMs => "f2_t_to_exit_ms",
            Feature::BidT => "f3_bid_t",
            Feature::BidMaxSoFar => "f4_bid_max_so_far",
            Feature::BidRatio => "f5_bid_ratio",
            Feature::TimeSinceBidMaxMs => "f6_time_since_bid_max_ms",
            Feature::BidVelocity5s => "f7_bid_velocity_5s",
            Feature::BidVelocity15s => "f8_bid_velocity_15s",
            Feature::SpreadT => "f9_spread_t",
            Feature::ExecutableMinusBestBid => "f10_executable_minus_best_bid",
            Feature::BinanceReturnSinceEntry => "f11_binance_return_since_entry",
            Feature::BinanceReturn5s => "f12_binance_return_5s",
            Feature::Oracle => "sanity_label_as_feat",
            Feature::Random => "sanity_random_seeded",
            Feature::MaxFutureAdvantage => "canary_max_future_advantage",
            Feature::AdvantageAtTPlus30s => "canary_advantage_at_t_plus_30s",
        }
    }
}

/// The features that are judged.
pub open spec fn judged() -> Seq<Feature> {
    seq![
        Feature::TSinceEntryPct,
        Feature::TToExitMs,
        Feature::BidT,
        Feature::BidMaxSoFar,
        Feature::BidRatio,
        Feature::TimeSinceBidMaxMs,
        Feature::BidVelocity5s,
        Feature::BidVelocity15s,
        Feature::SpreadT,
        Feature::ExecutableMinusBestBid,
        Feature::BinanceReturnSinceEntry,
        Feature::BinanceReturn5s,
    ]
}

pub fn judged_features() -> (r: Vec<Feature>)
    ensures
        r@ == judged(),
{
    vec![
        Feature::TSinceEntryPct,
        Feature::TToExitMs,
        Feature::BidT,
        Feature::BidMaxSoFar,
        Feature::BidRatio,
        Feature::TimeSinceBidMaxMs,
        Feature::BidVelocity5s,
        Feature::BidVelocity15s,
        Feature::SpreadT,
        Feature::ExecutableMinusBestBid,
        Feature::BinanceReturnSinceEntry,
        Feature::BinanceReturn5s,
    ]
}

// Rows.

pub open spec fn lists(dates: Seq<&str>, date: Seq<char>) -> bool {
    exists|i: int| 0 <= i < dates.len() && (#[trigger] dates[i])@ == date
}

/// Whether a date is listed.
pub fn is_listed(dates: &[&str], date: &str) -> (r: bool)
    ensures
        r == lists(dates@, date@),
{
    let mut i: usize = 0;
    while i < dates.len()
        invariant
            i <= dates@.len(),
            forall|k: int| 0 <= k < i ==> (#[trigger] dates@[k])@ != date@,
        decreases dates@.len() - i,
    {
        if same_text(dates[i], date) {
            return true;
        }
        i += 1;
    }
    false
}

/// The rows of the dates to train on.
pub open spec fn train_part(s: Seq<FeatureSample>, train: Seq<&str>) -> Seq<FeatureSample>
    decreases s.len(),
{
    if s.len() == 0 {
        Seq::empty()
    } else if lists(train, s.last().date@) {
        train_part(s.drop_last(), train).push(s.last())
    } else {
        train_part(s.drop_last(), train)
    }
}

/// The rows of the dates to test on; a date to train on is none of them.
pub open spec fn test_part(s: Seq<FeatureSample>, train: Seq<&str>, test: Seq<&str>) -> Seq<
    FeatureSample,
>
    decreases s.len(),
{
    if s.len() == 0 {
        Seq::empty()
    } else if !lists(train, s.last().date@) && lists(test, s.last().date@) {
        test_part(s.drop_last(), train, test).push(s.last())
    } else {
        test_part(s.drop_last(), train, test)
    }
}

/// The rows that references stand for.
pub open spec fn rows(v: Seq<&FeatureSample>) -> Seq<FeatureSample> {
    v.map_values(|r: &FeatureSample| *r)
}

/// The rows to train on and the rows to test on.
pub fn split_train_test<'a>(
    samples: &'a [FeatureSample],
    train_dates: &[&str],
    test_dates: &[&str],
) -> (r: (Vec<&'a FeatureSample>, Vec<&'a FeatureSample>))
    ensures
        rows(r.0@) == train_part(samples@, train_dates@),
        rows(r.1@) == test_part(samples@, train_dates@, test_dates@),
{
    let mut train: Vec<&'a FeatureSample> = Vec::new();
    let mut test: Vec<&'a FeatureSample> = Vec::new();
    let mut i: usize = 0;
    proof {
        assert(samples@.take(0) =~= Seq::empty());
        assert(rows(train@) =~= Seq::empty());
        assert(rows(test@) =~= Seq::empty());
    }
    while i < samples.len()
        invariant
            i <= samples@.len(),
            rows(train@) == train_part(samples@.take(i as int), train_dates@),
            rows(test@) == test_part(samples@.take(i as int), train_dates@, test_dates@),
        decreases samples@.len() - i,
    {
        let row = &samples[i];
        let ghost tr = train@;
        let ghost te = test@;
        proof {
            assert(samples@.take(i + 1).drop_last() =~= samples@.take(i as int));
            assert(samples@.take(i + 1).last() == samples@[i as int]);
        }
        if is_listed(train_dates, &row.date) {
            train.push(row);
            assert(rows(train@) =~= rows(tr).push(*row));
        } else if is_listed(test_dates, &row.date) {
            test.push(row);
            assert(rows(test@) =~= rows(te).push(*row));
        }
        i += 1;
    }
    proof {
        assert(samples@.take(i as int) =~= samples@);
    }
    (train, test)
}

/// Each row's value of a feature with its label.
pub open spec fn paired(s: Seq<FeatureSample>, f: Feature) -> Seq<(Option<i128>, bool)> {
    s.map_values(|r: FeatureSample| (value(f, r.features), r.features.label))
}

pub fn pair_feature_label(samples: &[&FeatureSample], f: Feature) -> (r: Vec<(Option<i128>, bool)>)
    ensures
        r@ == paired(rows(samples@), f),
{
    let mut out: Vec<(Option<i128>, bool)> = Vec::new();
    let mut i: usize = 0;
    while i < samples.len()
        invariant
            i <= samples@.len(),
            out@.len() == i,
            forall|k: int| 0 <= k < i ==> out@[k] == #[trigger] paired(rows(samples@), f)[k],
        decreases samples@.len() - i,
    {
        let row = samples[i];
        proof {
            assert(rows(samples@)[i as int] == *samples@[i as int]);
            assert(paired(rows(samples@), f)[i as int] == (
                value(f, row.features),
                row.features.label,
            ));
        }
        out.push((f.value_in(&row.features), row.features.label));
        i += 1;
    }
    assert(out@ =~= paired(rows(samples@), f));
    out
}

/// The rows of a cell.
pub open spec fn of_cell(s: Seq<FeatureSample>, cell: Seq<char>) -> Seq<FeatureSample>
    decreases s.len(),
{
    if s.len() == 0 {
        Seq::empty()
    } else if s.last().cell@ == cell {
        of_cell(s.drop_last(), cell).push(s.last())
    } else {
        of_cell(s.drop_last(), cell)
    }
}

proof fn lemma_of_cell_len(s: Seq<FeatureSample>, cell: Seq<char>)
    ensures
        of_cell(s, cell).len() <= s.len(),
    decreases s.len(),
{
    if s.len() > 0 {
        lemma_of_cell_len(s.drop_last(), cell);
    }
}

pub fn rows_of_cell<'a>(samples: &[&'a FeatureSample], cell: &str) -> (r: Vec<&'a FeatureSample>)
    ensures
        rows(r@) == of_cell(rows(samples@), cell@),
        r@.len() <= samples@.len(),
{
    let ghost all = rows(samples@);
    let mut out: Vec<&'a FeatureSample> = Vec::new();
    let mut i: usize = 0;
    proof {
        assert(all.take(0) =~= Seq::empty());
        assert(rows(out@) =~= Seq::empty());
    }
    while i < samples.len()
        invariant
            i <= samples@.len(),
            all == rows(samples@),
            rows(out@) == of_cell(all.take(i as int), cell@),
        decreases samples@.len() - i,
    {
        let row = samples[i];
        let ghost had = out@;
        proof {
            assert(all.take(i + 1).drop_last() =~= all.take(i as int));
            assert(all.take(i + 1).last() == *samples@[i as int]);
        }
        if same_text(&row.cell, cell) {
            out.push(row);
            assert(rows(out@) =~= rows(had).push(*row));
        }
        i += 1;
    }
    proof {
        assert(all.take(i as int) =~= all);
        lemma_of_cell_len(all, cell@);
        assert(rows(out@).len() == out@.len());
    }
    out
}

/// The score of a feature over rows.
pub open spec fn is_score(r: AucResult, s: Seq<FeatureSample>, f: Feature) -> bool {
    auc::is_auc(r, paired(s, f))
}

/// The score of a feature over rows.
pub fn score_of(samples: &[&FeatureSample], f: Feature) -> (r: AucResult)
    requires
        samples@.len() < 0x1_0000_0000_0000,
    ensures
        is_score(r, rows(samples@), f),
        possible(r),
{
    let p = pair_feature_label(samples, f);
    let r = compute_auc_and_mwu(p.as_slice());
    proof {
        lemma_possible(r, p@);
    }
    r
}

// Checks of the data set.

/// Scores whose values are known beforehand.
#[derive(Debug, Clone, Copy)]
pub struct Sanity {
    pub oracle: AucResult,
    pub random: AucResult,
    pub strong: AucResult,
    pub moderate: AucResult,
    pub oracle_ok: bool,
    pub random_ok: bool,
    pub strong_ok: bool,
    pub moderate_ok: bool,
}

/// The label tells itself, chance tells nothing to within a hundredth, the
/// largest value to come tells at least two fifths, and the value in half a
/// minute between a twentieth and two fifths.
pub open spec fn is_sane(r: Sanity) -> bool {
    let random = distance(r.random);
    let strong = distance(r.strong);
    let moderate = distance(r.moderate);
    &&& r.oracle_ok == (pairs(r.oracle) > 0 && r.oracle.u_doubled == 2 * pairs(r.oracle))
    &&& r.random_ok == (100 * random.0 < random.1)
    &&& r.strong_ok == (5 * strong.0 >= 2 * strong.1)
    &&& r.moderate_ok == (20 * moderate.0 >= moderate.1 && 5 * moderate.0 <= 2 * moderate.1)
}

/// Checks the data set on the rows to train on.
pub fn check_sanity(train: &[&FeatureSample]) -> (r: Sanity)
    requires
        train@.len() < 0x1_0000_0000_0000,
    ensures
        is_score(r.oracle, rows(train@), Feature::Oracle),
        is_score(r.random, rows(train@), Feature::Random),
        is_score(r.strong, rows(train@), Feature::MaxFutureAdvantage),
        is_score(r.moderate, rows(train@), Feature::AdvantageAtTPlus30s),
        possible(r.strong),
        possible(r.moderate),
        is_sane(r),
{
    let oracle = score_of(train, Feature::Oracle);
    let random = score_of(train, Feature::Random);
    let strong = score_of(train, Feature::MaxFutureAdvantage);
    let moderate = score_of(train, Feature::AdvantageAtTPlus30s);
    let p: u128 = pairs_of(&oracle);
    let (rn, rd) = distance_of(&random);
    let (sn, sd) = distance_of(&strong);
    let (mn, md) = distance_of(&moderate);
    Sanity {
        oracle,
        random,
        strong,
        moderate,
        oracle_ok: p > 0 && oracle.u_doubled == 2 * p,
        random_ok: 100 * rn < rd,
        strong_ok: 5 * sn >= 2 * sd,
        moderate_ok: 20 * mn >= md && 5 * mn <= 2 * md,
    }
}

// Verdicts.

/// How a feature compares with columns that look ahead.
#[derive(Debug, Clone, Copy, PartialEq, Eq, Structural)]
pub enum CanaryFlag {
    Green,
    Yellow,
    Red,
}

impl CanaryFlag {
    pub open spec fn name(self) -> Seq<char> {
        match self {
            CanaryFlag::Green => "OK"@,
            CanaryFlag::Yellow => "YELLOW"@,
            CanaryFlag::Red => "RED"@,
        }
    }

    pub fn as_str(self) -> (r: &'static str)
        ensures
            r@ == self.name(),
    {
        match self {
            CanaryFlag::Green => "OK",
            CanaryFlag::Yellow => "YELLOW",
            CanaryFlag::Red => "RED",
        }
    }
}

/// A feature is no more than a twentieth weaker than a column that looks ahead.
pub open spec fn nears(feature: (int, int), canary: (int, int)) -> bool {
    !below(20 * feature.0 + feature.1, 20 * feature.1, canary.0, canary.1)
}

pub open spec fn canary(test: AucResult, strong: AucResult, moderate: AucResult) -> CanaryFlag {
    if nears(distance(test), distance(strong)) {
        CanaryFlag::Red
    } else if nears(distance(test), distance(moderate)) {
        CanaryFlag::Yellow
    } else {
        CanaryFlag::Green
    }
}

fn is_near(feature: (u128, u128), canary: (u128, u128)) -> (r: bool)
    requires
        0 < feature.1 < 0x2_0000_0000_0000_0000_0000_0000,
        2 * feature.0 <= feature.1,
        canary.1 > 0,
    ensures
        r == nears(
            (feature.0 as int, feature.1 as int),
            (canary.0 as int, canary.1 as int),
        ),
{
    !is_below(20 * feature.0 + feature.1, 20 * feature.1, canary.0, canary.1)
}

/// How a feature compares with the columns that look ahead.
pub fn canary_flag(test: &AucResult, strong: &AucResult, moderate: &AucResult) -> (r: CanaryFlag)
    requires
        possible(*test),
        possible(*strong),
        possible(*moderate),
    ensures
        r == canary(*test, *strong, *moderate),
{
    let d = distance_of(test);
    if is_near(d, distance_of(strong)) {
        CanaryFlag::Red
    } else if is_near(d, distance_of(moderate)) {
        CanaryFlag::Yellow
    } else {
        CanaryFlag::Green
    }
}

/// A feature keeps its word on the test rows: its score there is more than a
/// twentieth from chance, and more than 85 hundredths as far from chance as on
/// the rows to train on. A feature that is never right there keeps none, nor
/// does one that is within 1e-9 of chance.
pub open spec fn keeps(train: AucResult, test: AucResult) -> bool {
    let a = distance(train);
    let b = distance(test);
    &&& 20 * b.0 > b.1
    &&& !(pairs(train) > 0 && train.u_doubled == 0)
    &&& 1_000_000_000 * a.0 > a.1
    &&& below(17 * a.0, a.1, 20 * b.0, b.1)
}

/// Whether a feature passes: it keeps its word, and what it tells on the rows to
/// train on is significant.
pub fn passes(train: &AucResult, test: &AucResult, significant: bool) -> (r: bool)
    requires
        possible(*train),
        possible(*test),
    ensures
        r == (significant && keeps(*train, *test)),
{
    let (an, ad) = distance_of(train);
    let (bn, bd) = distance_of(test);
    let p: u128 = pairs_of(train);
    significant && 20 * bn > bd && !(p > 0 && train.u_doubled == 0) && 1_000_000_000 * an > ad
        && is_below(17 * an, ad, 20 * bn, bd)
}

/// The scores of a feature in a cell.
#[derive(Debug, Clone)]
pub struct FeatureScore {
    pub cell: String,
    pub feature: Feature,
    pub train: AucResult,
    pub test: AucResult,
}

/// The scores of feature `k` of cell `c`.
pub open spec fn is_feature_score(
    r: FeatureScore,
    train: Seq<FeatureSample>,
    test: Seq<FeatureSample>,
    cell: Seq<char>,
    f: Feature,
) -> bool {
    &&& r.cell@ == cell
    &&& r.feature == f
    &&& is_score(r.train, of_cell(train, cell), f)
    &&& is_score(r.test, of_cell(test, cell), f)
    &&& possible(r.train)
    &&& possible(r.test)
}

/// The scores of every cell and feature, cell by cell.
pub open spec fn are_scores(
    r: Seq<FeatureScore>,
    train: Seq<FeatureSample>,
    test: Seq<FeatureSample>,
    cells: Seq<String>,
) -> bool {
    &&& r.len() == cells.len() * 12
    &&& forall|i: int|
        0 <= i < r.len() ==> is_feature_score(
            #[trigger] r[i],
            train,
            test,
            cells[i / 12]@,
            judged()[i % 12],
        )
}

/// Scores every feature in every cell.
pub fn score_features(train: &[&FeatureSample], test: &[&FeatureSample], cells: &[String]) -> (r: Vec<
    FeatureScore,
>)
    requires
        train@.len() < 0x1_0000_0000_0000,
        test@.len() < 0x1_0000_0000_0000,
    ensures
        are_scores(r@, rows(train@), rows(test@), cells@),
{
    let features = judged_features();
    let mut out: Vec<FeatureScore> = Vec::new();
    let mut c: usize = 0;
    while c < cells.len()
        invariant
            c <= cells@.len(),
            train@.len() < 0x1_0000_0000_0000,
            test@.len() < 0x1_0000_0000_0000,
            features@ == judged(),
            out@.len() == c * 12,
            forall|i: int|
                0 <= i < out@.len() ==> is_feature_score(
                    #[trigger] out@[i],
                    rows(train@),
                    rows(test@),
                    cells@[i / 12]@,
                    judged()[i % 12],
                ),
        decreases cells@.len() - c,
    {
        let train_cell = rows_of_cell(train, &cells[c]);
        let test_cell = rows_of_cell(test, &cells[c]);
        let mut k: usize = 0;
        while k < features.len()
            invariant
                c < cells@.len(),
                k <= 12,
                features@ == judged(),
                features@.len() == 12,
                rows(train_cell@) == of_cell(rows(train@), cells@[c as int]@),
                rows(test_cell@) == of_cell(rows(test@), cells@[c as int]@),
                train_cell@.len() < 0x1_0000_0000_0000,
                test_cell@.len() < 0x1_0000_0000_0000,
                out@.len() == c * 12 + k,
                forall|i: int|
                    0 <= i < out@.len() ==> is_feature_score(
                        #[trigger] out@[i],
                        rows(train@),
                        rows(test@),
                        cells@[i / 12]@,
                        judged()[i % 12],
                    ),
            decreases 12 - k,
        {
            let f = features[k];
            let row = FeatureScore {
                cell: cells[c].clone(),
                feature: f,
                train: score_of(train_cell.as_slice(), f),
                test: score_of(test_cell.as_slice(), f),
            };
            proof {
                let i = c * 12 + k;
                assert(i / 12 == c && i % 12 == k);
            }
            out.push(row);
            k += 1;
        }
        c += 1;
    }
    out
}

/// A feature's scores in a cell with their verdict.
#[derive(Debug, Clone)]
pub struct FeatureAnalysisRow {
    pub cell: String,
    pub feature: Feature,
    pub train: AucResult,
    pub test: AucResult,
    pub passes: bool,
    pub canary_flag: CanaryFlag,
}

pub open spec fn is_verdict(
    r: FeatureAnalysisRow,
    s: FeatureScore,
    significant: bool,
    strong: AucResult,
    moderate: AucResult,
) -> bool {
    &&& r.cell@ == s.cell@
    &&& r.feature == s.feature
    &&& r.train == s.train
    &&& r.test == s.test
    &&& r.passes == (significant && keeps(s.train, s.test))
    &&& r.canary_flag == canary(s.test, strong, moderate)
}

/// Judges every score. `significant` says of each score whether what it tells
/// on the rows to train on is significant.
pub fn judge_features(
    scores: &[FeatureScore],
    significant: &[bool],
    strong: &AucResult,
    moderate: &AucResult,
) -> (r: Vec<FeatureAnalysisRow>)
    requires
        scores@.len() == significant@.len(),
        possible(*strong),
        possible(*moderate),
        forall|i: int|
            0 <= i < scores@.len() ==> possible((#[trigger] scores@[i]).train) && possible(
                scores@[i].test,
            ),
    ensures
        r@.len() == scores@.len(),
        forall|i: int|
            0 <= i < r@.len() ==> is_verdict(
                #[trigger] r@[i],
                scores@[i],
                significant@[i],
                *strong,
                *moderate,
            ),
{
    let mut out: Vec<FeatureAnalysisRow> = Vec::new();
    let mut i: usize = 0;
    while i < scores.len()
        invariant
            i <= scores@.len(),
            scores@.len() == significant@.len(),
            possible(*strong),
            possible(*moderate),
            forall|k: int|
                0 <= k < scores@.len() ==> possible((#[trigger] scores@[k]).train) && possible(
                    scores@[k].test,
                ),
            out@.len() == i,
            forall|k: int|
                0 <= k < i ==> is_verdict(
                    #[trigger] out@[k],
                    scores@[k],
                    significant@[k],
                    *strong,
                    *moderate,
                ),
        decreases scores@.len() - i,
    {
        let s = &scores[i];
        assert(possible(scores@[i as int].train));
        out.push(
            FeatureAnalysisRow {
                cell: s.cell.clone(),
                feature: s.feature,
                train: s.train,
                test: s.test,
                passes: passes(&s.train, &s.test, significant[i]),
                canary_flag: canary_flag(&s.test, strong, moderate),
            },
        );
        i += 1;
    }
    out
}

/// Row `a` is weaker on the test rows than row `b`.
pub open spec fn weaker(rows: Seq<FeatureAnalysisRow>, a: int, b: int) -> bool {
    let x = distance(rows[a].test);
    let y = distance(rows[b].test);
    below(x.0, x.1, y.0, y.1)
}

/// A row put behind all that are as strong as it.
pub open spec fn placed(rows: Seq<FeatureAnalysisRow>, order: Seq<usize>, i: usize) -> Seq<usize>
    decreases order.len(),
{
    if order.len() == 0 || !weaker(rows, order.last() as int, i as int) {
        order.push(i)
    } else {
        placed(rows, order.drop_last(), i).push(order.last())
    }
}

/// The first `n` rows, the strongest first.
pub open spec fn ranked(rows: Seq<FeatureAnalysisRow>, n: nat) -> Seq<usize>
    decreases n,
{
    if n == 0 {
        Seq::empty()
    } else {
        placed(rows, ranked(rows, (n - 1) as nat), (n - 1) as usize)
    }
}

proof fn lemma_placed(rows: Seq<FeatureAnalysisRow>, order: Seq<usize>, i: usize)
    requires
        forall|k: int|
            0 <= k < order.len() - 1 ==> !weaker(rows, #[trigger] order[k] as int, order[k + 1] as int),
    ensures
        placed(rows, order, i).len() == order.len() + 1,
        placed(rows, order, i).to_multiset() == order.to_multiset().insert(i),
        forall|k: int|
            0 <= k < order.len() ==> !weaker(
                rows,
                #[trigger] placed(rows, order, i)[k] as int,
                placed(rows, order, i)[k + 1] as int,
            ),
        placed(rows, order, i).last() == i || (order.len() > 0 && placed(rows, order, i).last()
            == order.last()),
    decreases order.len(),
{
    let r = placed(rows, order, i);
    broadcast use vstd::seq_lib::group_to_multiset_ensures;

    if order.len() == 0 || !weaker(rows, order.last() as int, i as int) {
        assert(r == order.push(i));
        assert forall|k: int| 0 <= k < order.len() implies !weaker(
            rows,
            #[trigger] r[k] as int,
            r[k + 1] as int,
        ) by {
            if k < order.len() - 1 {
                assert(!weaker(rows, order[k] as int, order[k + 1] as int));
            }
        }
    } else {
        let before = order.drop_last();
        assert forall|k: int| 0 <= k < before.len() - 1 implies !weaker(
            rows,
            #[trigger] before[k] as int,
            before[k + 1] as int,
        ) by {
            assert(!weaker(rows, order[k] as int, order[k + 1] as int));
        }
        lemma_placed(rows, before, i);
        let p = placed(rows, before, i);
        assert(order =~= before.push(order.last()));
        assert(r.to_multiset() =~= order.to_multiset().insert(i));
        if before.len() > 0 && p.last() == before.last() {
            assert(!weaker(rows, order[before.len() - 1] as int, order[before.len() as int] as int));
        }
        let x = distance(rows[order.last() as int].test);
        let y = distance(rows[i as int].test);
        assert(!below(y.0, y.1, x.0, x.1));
        assert forall|k: int| 0 <= k < order.len() implies !weaker(
            rows,
            #[trigger] r[k] as int,
            r[k + 1] as int,
        ) by {
            if k < before.len() {
                assert(r[k] == p[k]);
                assert(r[k + 1] == p[k + 1]);
            } else {
                assert(r[k] == p.last());
                assert(r[k + 1] == order.last());
            }
        }
    }
}

/// A ranking holds every row once, and no row of it is weaker than the next one.
pub proof fn law_rankings_descend(rows: Seq<FeatureAnalysisRow>, n: nat)
    requires
        n <= rows.len() <= usize::MAX,
    ensures
        ranked(rows, n).len() == n,
        ranked(rows, n).to_multiset() == Seq::new(n, |i: int| i as usize).to_multiset(),
        forall|k: int|
            0 <= k < n - 1 ==> !weaker(
                rows,
                #[trigger] ranked(rows, n)[k] as int,
                ranked(rows, n)[k + 1] as int,
            ),
    decreases n,
{
    let all = Seq::new(n, |i: int| i as usize);
    if n > 0 {
        let m = (n - 1) as nat;
        law_rankings_descend(rows, m);
        lemma_placed(rows, ranked(rows, m), m as usize);
        let less = Seq::new(m, |i: int| i as usize);
        assert(all =~= less.push(m as usize));
        broadcast use vstd::seq_lib::group_to_multiset_ensures;

        assert(all.to_multiset() == less.to_multiset().insert(m as usize));
    } else {
        assert(all =~= Seq::<usize>::empty());
    }
}

/// The places of the rows, the strongest on the test rows first; rows of the
/// same strength keep their order.
pub fn strongest_first(analysis: &[FeatureAnalysisRow]) -> (r: Vec<usize>)
    requires
        forall|i: int| 0 <= i < analysis@.len() ==> possible((#[trigger] analysis@[i]).test),
    ensures
        r@ == ranked(analysis@, analysis@.len()),
{
    let mut out: Vec<usize> = Vec::new();
    let mut n: usize = 0;
    while n < analysis.len()
        invariant
            n <= analysis@.len(),
            out@ == ranked(analysis@, n as nat),
            forall|k: int| 0 <= k < out@.len() ==> (#[trigger] out@[k]) < n,
            forall|i: int| 0 <= i < analysis@.len() ==> possible((#[trigger] analysis@[i]).test),
        decreases analysis@.len() - n,
    {
        let ghost had = out@;
        assert(possible(analysis@[n as int].test));
        let (dn, dd) = distance_of(&analysis[n].test);
        let mut at: usize = out.len();
        assert(had.take(at as int) =~= had);
        assert(placed(analysis@, had, n) =~= placed(analysis@, had.take(at as int), n) + had.skip(
            at as int,
        ));
        let mut moving = true;
        while at > 0 && moving
            invariant
                n < analysis@.len(),
                at <= out@.len(),
                out@ == had,
                dn == distance(analysis@[n as int].test).0,
                dd == distance(analysis@[n as int].test).1,
                dd > 0,
                forall|k: int| 0 <= k < out@.len() ==> (#[trigger] out@[k]) < n,
                forall|i: int|
                    0 <= i < analysis@.len() ==> possible((#[trigger] analysis@[i]).test),
                placed(analysis@, had, n) == placed(analysis@, had.take(at as int), n) + had.skip(
                    at as int,
                ),
                !moving ==> placed(analysis@, had.take(at as int), n) == had.take(at as int).push(
                    n,
                ),
            decreases at + (if moving {
                    1int
                } else {
                    0int
                }),
        {
            let left: usize = out[at - 1];
            assert(possible(analysis@[left as int].test));
            let (ln, ld) = distance_of(&analysis[left].test);
            let ghost part = had.take(at as int);
            assert(part.last() == left);
            if is_below(ln, ld, dn, dd) {
                at -= 1;
                proof {
                    assert(part.drop_last() =~= had.take(at as int));
                    assert(placed(analysis@, had.take(at as int), n).push(left) + had.skip(at + 1)
                        =~= placed(analysis@, had.take(at as int), n) + had.skip(at as int));
                }
            } else {
                moving = false;
            }
        }
        proof {
            if at == 0 {
                assert(had.take(0) =~= Seq::<usize>::empty());
            }
            assert(placed(analysis@, had.take(at as int), n) == had.take(at as int).push(n));
            assert(had.insert(at as int, n) =~= had.take(at as int).push(n) + had.skip(at as int));
        }
        out.insert(at, n);
        n += 1;
    }
    out
}

/// The cells in which a feature passes without looking like a leak.
pub open spec fn passing_cells(rows: Seq<FeatureAnalysisRow>, f: Feature) -> Seq<Seq<char>>
    decreases rows.len(),
{
    if rows.len() == 0 {
        Seq::empty()
    } else {
        let r = rows.last();
        if r.feature == f && r.passes && r.canary_flag != CanaryFlag::Red {
            passing_cells(rows.drop_last(), f).push(r.cell@)
        } else {
            passing_cells(rows.drop_last(), f)
        }
    }
}

pub open spec fn texts(v: Seq<String>) -> Seq<Seq<char>> {
    v.map_values(|s: String| s@)
}

/// The cells in which a feature passes without looking like a leak.
pub fn cells_passing(analysis: &[FeatureAnalysisRow], f: Feature) -> (r: Vec<String>)
    ensures
        texts(r@) == passing_cells(analysis@, f),
{
    let mut out: Vec<String> = Vec::new();
    let mut i: usize = 0;
    proof {
        assert(analysis@.take(0) =~= Seq::empty());
        assert(texts(out@) =~= Seq::empty());
    }
    while i < analysis.len()
        invariant
            i <= analysis@.len(),
            texts(out@) == passing_cells(analysis@.take(i as int), f),
        decreases analysis@.len() - i,
    {
        let r = &analysis[i];
        let ghost had = out@;
        proof {
            assert(analysis@.take(i + 1).drop_last() =~= analysis@.take(i as int));
            assert(analysis@.take(i + 1).last() == analysis@[i as int]);
        }
        if r.feature == f && r.passes && r.canary_flag != CanaryFlag::Red {
            out.push(r.cell.clone());
            assert(texts(out@) =~= texts(had).push(r.cell@));
        }
        i += 1;
    }
    proof {
        assert(analysis@.take(i as int) =~= analysis@);
    }
    out
}

/// The features that pass in two cells or more, of a list of features.
pub open spec fn robust(rows: Seq<FeatureAnalysisRow>, fs: Seq<Feature>) -> Seq<Feature>
    decreases fs.len(),
{
    if fs.len() == 0 {
        Seq::empty()
    } else if passing_cells(rows, fs.last()).len() >= 2 {
        robust(rows, fs.drop_last()).push(fs.last())
    } else {
        robust(rows, fs.drop_last())
    }
}

/// The judged features in dictionary order of their names.
pub open spec fn by_name() -> Seq<Feature> {
    seq![
        Feature::ExecutableMinusBestBid,
        Feature::BinanceReturnSinceEntry,
        Feature::BinanceReturn5s,
        Feature::TSinceEntryPct,
        Feature::TToExitMs,
        Feature::BidT,
        Feature::BidMaxSoFar,
        Feature::BidRatio,
        Feature::TimeSinceBidMaxMs,
        Feature::BidVelocity5s,
        Feature::BidVelocity15s,
        Feature::SpreadT,
    ]
}

/// The features that hold in two cells or more, in dictionary order, each with
/// the cells in which it passes.
pub fn robust_features(analysis: &[FeatureAnalysisRow]) -> (r: Vec<(Feature, Vec<String>)>)
    ensures
        r@.map_values(|x: (Feature, Vec<String>)| x.0) == robust(analysis@, by_name()),
        forall|i: int|
            0 <= i < r@.len() ==> texts((#[trigger] r@[i]).1@) == passing_cells(
                analysis@,
                r@[i].0,
            ),
{
    let all: Vec<Feature> = vec![
        Feature::ExecutableMinusBestBid,
        Feature::BinanceReturnSinceEntry,
        Feature::BinanceReturn5s,
        Feature::TSinceEntryPct,
        Feature::TToExitMs,
        Feature::BidT,
        Feature::BidMaxSoFar,
        Feature::BidRatio,
        Feature::TimeSinceBidMaxMs,
        Feature::BidVelocity5s,
        Feature::BidVelocity15s,
        Feature::SpreadT,
    ];
    let mut out: Vec<(Feature, Vec<String>)> = Vec::new();
    let mut i: usize = 0;
    let ghost first = |x: (Feature, Vec<String>)| x.0;
    proof {
        assert(all@ =~= by_name());
        assert(all@.take(0) =~= Seq::empty());
        assert(out@.map_values(first) =~= Seq::empty());
    }
    while i < all.len()
        invariant
            i <= all@.len(),
            first == (|x: (Feature, Vec<String>)| x.0),
            out@.map_values(first) == robust(analysis@, all@.take(i as int)),
            forall|k: int|
                0 <= k < out@.len() ==> texts((#[trigger] out@[k]).1@) == passing_cells(
                    analysis@,
                    out@[k].0,
                ),
        decreases all@.len() - i,
    {
        let f = all[i];
        let cells = cells_passing(analysis, f);
        let ghost had = out@;
        proof {
            assert(all@.take(i + 1).drop_last() =~= all@.take(i as int));
            assert(all@.take(i + 1).last() == f);
            assert(texts(cells@).len() == cells@.len());
        }
        if cells.len() >= 2 {
            out.push((f, cells));
            assert(out@.map_values(first) =~= had.map_values(first).push(f));
        }
        i += 1;
    }
    proof {
        assert(all@.take(i as int) =~= all@);
    }
    out
}

// Terciles.

/// Whether a signal is among the first rows.
pub open spec fn seen(s: Seq<FeatureSample>, n: int, id: Seq<char>) -> bool {
    exists|i: int| 0 <= i < n && (#[trigger] s[i]).signal_id@ == id
}

/// The prices that were paid in a cell, one for each signal.
pub open spec fn prices(s: Seq<FeatureSample>, cell: Seq<char>, n: int) -> Seq<int>
    decreases n,
{
    if n <= 0 {
        Seq::empty()
    } else {
        let before = prices(s, cell, n - 1);
        let r = s[n - 1];
        if !seen(s, n - 1, r.signal_id@) && r.cell@ == cell {
            before.push(r.entry_price as int)
        } else {
            before
        }
    }
}

/// The prices that divide the signals of a cell into thirds.
pub open spec fn thirds(s: Seq<FeatureSample>, cell: Seq<char>) -> Option<(int, int)> {
    let p = peak::ascending(prices(s, cell, s.len() as int));
    if p.len() == 0 {
        None
    } else {
        Some((p[(p.len() / 3) as int], p[((p.len() * 2) / 3) as int]))
    }
}

fn was_seen(samples: &[&FeatureSample], n: usize, id: &str) -> (r: bool)
    requires
        n <= samples@.len(),
    ensures
        r == seen(rows(samples@), n as int, id@),
{
    let ghost all = rows(samples@);
    let mut i: usize = 0;
    while i < n
        invariant
            i <= n <= samples@.len(),
            all == rows(samples@),
            forall|k: int| 0 <= k < i ==> (#[trigger] all[k]).signal_id@ != id@,
        decreases n - i,
    {
        assert(all[i as int] == *samples@[i as int]);
        if same_text(&samples[i].signal_id, id) {
            return true;
        }
        i += 1;
    }
    false
}

/// The prices that divide the signals of a cell into thirds.
pub fn tercile_breakpoints(samples: &[&FeatureSample], cell: &str) -> (r: Option<(i128, i128)>)
    ensures
        match r {
            Some((a, b)) => thirds(rows(samples@), cell@) == Some((a as int, b as int)),
            None => thirds(rows(samples@), cell@) is None,
        },
{
    let ghost all = rows(samples@);
    let mut list: Vec<i128> = Vec::new();
    let mut i: usize = 0;
    assert(peak::ints(list@) =~= Seq::<int>::empty());
    while i < samples.len()
        invariant
            i <= samples@.len(),
            all == rows(samples@),
            peak::ints(list@) == peak::ascending(prices(all, cell@, i as int)),
        decreases samples@.len() - i,
    {
        let row = samples[i];
        assert(all[i as int] == *row);
        if same_text(&row.cell, cell) && !was_seen(samples, i, &row.signal_id) {
            insert_ascending(&mut list, row.entry_price as i128);
            proof {
                let before = prices(all, cell@, i as int);
                assert(before.push(row.entry_price as int).drop_last() =~= before);
            }
        }
        i += 1;
    }
    proof {
        assert(peak::ints(list@).len() == list@.len());
    }
    let n: usize = list.len();
    if n == 0 {
        return None;
    }
    let lo: usize = n / 3;
    let hi: usize = ((n as u128 * 2) / 3) as usize;
    proof {
        assert(peak::ints(list@)[lo as int] == list@[lo as int]);
        assert(peak::ints(list@)[hi as int] == list@[hi as int]);
    }
    Some((list[lo], list[hi]))
}

/// A third of the prices of a cell.
#[derive(Debug, Clone, Copy, PartialEq, Eq, Structural)]
pub enum Tercile {
    Low,
    Mid,
    High,
}

impl Tercile {
    pub open spec fn name(self) -> Seq<char> {
        match self {
            Tercile::Low => "low"@,
            Tercile::Mid => "mid"@,
            Tercile::High => "high"@,
        }
    }

    pub fn as_str(self) -> (r: &'static str)
        ensures
            r@ == self.name(),
    {
        match self {
            Tercile::Low => "low",
            Tercile::Mid => "mid",
            Tercile::High => "high",
        }
    }
}

/// The third in which a price is.
pub open spec fn third(price: int, low: int, mid: int) -> Tercile {
    if price <= low {
        Tercile::Low
    } else if price <= mid {
        Tercile::Mid
    } else {
        Tercile::High
    }
}

/// The third in which a price is.
pub fn tercile_of(price: u32, breakpoints: (i128, i128)) -> (r: Tercile)
    ensures
        r == third(price as int, breakpoints.0 as int, breakpoints.1 as int),
{
    if price as i128 <= breakpoints.0 {
        Tercile::Low
    } else if price as i128 <= breakpoints.1 {
        Tercile::Mid
    } else {
        Tercile::High
    }
}

/// The rows of a third.
pub open spec fn of_third(s: Seq<FeatureSample>, low: int, mid: int, t: Tercile) -> Seq<FeatureSample>
    decreases s.len(),
{
    if s.len() == 0 {
        Seq::empty()
    } else if third(s.last().entry_price as int, low, mid) == t {
        of_third(s.drop_last(), low, mid, t).push(s.last())
    } else {
        of_third(s.drop_last(), low, mid, t)
    }
}

/// The rows of a third.
pub fn rows_of_tercile<'a>(
    samples: &[&'a FeatureSample],
    breakpoints: (i128, i128),
    t: Tercile,
) -> (r: Vec<&'a FeatureSample>)
    ensures
        rows(r@) == of_third(rows(samples@), breakpoints.0 as int, breakpoints.1 as int, t),
        r@.len() <= samples@.len(),
{
    let ghost all = rows(samples@);
    let mut out: Vec<&'a FeatureSample> = Vec::new();
    let mut i: usize = 0;
    proof {
        assert(all.take(0) =~= Seq::empty());
        assert(rows(out@) =~= Seq::empty());
    }
    while i < samples.len()
        invariant
            i <= samples@.len(),
            all == rows(samples@),
            out@.len() <= i,
            rows(out@) == of_third(
                all.take(i as int),
                breakpoints.0 as int,
                breakpoints.1 as int,
                t,
            ),
        decreases samples@.len() - i,
    {
        let row = samples[i];
        let ghost had = out@;
        proof {
            assert(all.take(i + 1).drop_last() =~= all.take(i as int));
            assert(all.take(i + 1).last() == *samples@[i as int]);
        }
        if tercile_of(row.entry_price, breakpoints) == t {
            out.push(row);
            assert(rows(out@) =~= rows(had).push(*row));
        }
        i += 1;
    }
    proof {
        assert(all.take(i as int) =~= all);
    }
    out
}

// Coverage.

/// A cell of the rows with how many of them are to train on and to test on.
#[derive(Debug, Clone)]
pub struct CellCount {
    pub cell: String,
    pub train: usize,
    pub test: usize,
}

pub open spec fn has_rows(s: Seq<FeatureSample>, cell: Seq<char>) -> bool {
    exists|i: int| 0 <= i < s.len() && (#[trigger] s[i]).cell@ == cell
}

/// The cells of rows, each once, in dictionary order.
pub open spec fn are_cells(names: Seq<String>, s: Seq<FeatureSample>) -> bool {
    &&& metrics::names_ascend(names)
    &&& forall|n: Seq<char>| #[trigger] metrics::has_name(names, n) == has_rows(s, n)
}

/// The cells of rows, each once, in dictionary order.
pub fn list_feature_cells(samples: &[FeatureSample]) -> (r: Vec<String>)
    ensures
        are_cells(r@, samples@),
{
    let mut names: Vec<String> = Vec::new();
    let mut i: usize = 0;
    proof {
        assert forall|n: Seq<char>| #[trigger] metrics::has_name(names@, n) == has_rows(
            samples@.take(0),
            n,
        ) by {}
    }
    while i < samples.len()
        invariant
            i <= samples@.len(),
            are_cells(names@, samples@.take(i as int)),
        decreases samples@.len() - i,
    {
        let ghost before = names@;
        let ghost part = samples@.take(i as int);
        let ghost next = samples@.take(i + 1);
        insert_name(&mut names, samples[i].cell.clone());
        proof {
            assert forall|n: Seq<char>| #[trigger] metrics::has_name(names@, n) == has_rows(next, n) by {
                assert(metrics::has_name(before, n) == has_rows(part, n));
                if has_rows(part, n) {
                    let k = choose|k: int| 0 <= k < part.len() && (#[trigger] part[k]).cell@ == n;
                    assert(next[k].cell@ == n);
                }
                if n == samples@[i as int].cell@ {
                    assert(next[i as int].cell@ == n);
                }
                if has_rows(next, n) {
                    let k = choose|k: int| 0 <= k < next.len() && (#[trigger] next[k]).cell@ == n;
                    if k < i {
                        assert(part[k].cell@ == n);
                    }
                }
            }
        }
        i += 1;
    }
    assert(samples@.take(i as int) =~= samples@);
    names
}

/// How many rows of each cell are to train on and to test on.
pub fn count_cells(samples: &[FeatureSample], train_dates: &[&str], test_dates: &[&str]) -> (r: Vec<
    CellCount,
>)
    ensures
        are_cells(r@.map_values(|c: CellCount| c.cell), samples@),
        forall|i: int|
            0 <= i < r@.len() ==> (#[trigger] r@[i]).train == of_cell(
                train_part(samples@, train_dates@),
                r@[i].cell@,
            ).len() && r@[i].test == of_cell(
                test_part(samples@, train_dates@, test_dates@),
                r@[i].cell@,
            ).len(),
{
    let names = list_feature_cells(samples);
    let (train, test) = split_train_test(samples, train_dates, test_dates);
    let mut out: Vec<CellCount> = Vec::new();
    let mut i: usize = 0;
    while i < names.len()
        invariant
            i <= names@.len(),
            rows(train@) == train_part(samples@, train_dates@),
            rows(test@) == test_part(samples@, train_dates@, test_dates@),
            out@.len() == i,
            forall|k: int| 0 <= k < i ==> (#[trigger] out@[k]).cell == names@[k],
            forall|k: int|
                0 <= k < i ==> (#[trigger] out@[k]).train == of_cell(
                    rows(train@),
                    out@[k].cell@,
                ).len() && out@[k].test == of_cell(rows(test@), out@[k].cell@).len(),
        decreases names@.len() - i,
    {
        let a = rows_of_cell(train.as_slice(), &names[i]);
        let b = rows_of_cell(test.as_slice(), &names[i]);
        proof {
            assert(rows(a@).len() == a@.len());
            assert(rows(b@).len() == b@.len());
        }
        out.push(CellCount { cell: names[i].clone(), train: a.len(), test: b.len() });
        i += 1;
    }
    assert(out@.map_values(|c: CellCount| c.cell) =~= names@);
    out
}

/// No row is both to train on and to test on: a row to test on has a date that is
/// none to train on.
pub proof fn law_test_rows_are_not_trained_on(
    s: Seq<FeatureSample>,
    train: Seq<&str>,
    test: Seq<&str>,
    i: int,
)
    requires
        0 <= i < test_part(s, train, test).len(),
    ensures
        !lists(train, test_part(s, train, test)[i].date@),
        lists(test, test_part(s, train, test)[i].date@),
    decreases s.len(),
{
    if s.len() > 0 {
        if i < test_part(s.drop_last(), train, test).len() {
            law_test_rows_are_not_trained_on(s.drop_last(), train, test, i);
        }
    }
}

/// The thirds divide the rows.
pub proof fn law_thirds_divide_the_rows(s: Seq<FeatureSample>, low: int, mid: int)
    ensures
        of_third(s, low, mid, Tercile::Low).len() + of_third(s, low, mid, Tercile::Mid).len()
            + of_third(s, low, mid, Tercile::High).len() == s.len(),
    decreases s.len(),
{
    if s.len() > 0 {
        law_thirds_divide_the_rows(s.drop_last(), low, mid);
    }
}

} // verus!
