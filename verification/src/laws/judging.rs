//! How well features tell right from wrong.

use crate::backtest::auc::{self, AucResult};
use crate::backtest::causal::{FeatureSample, Features};
use crate::backtest::peak;
use crate::backtest::phase2::{
    self, CanaryFlag, Feature, FeatureAnalysisRow, FeatureScore, Sanity, Tercile,
};
use vstd::prelude::*;

verus! {

/// What a pair of samples is worth: two where the first is right, the second wrong and
/// the first above the second; one where they are equal.
pub open spec fn worth(s: Seq<(i128, bool)>, a: int, b: int) -> int {
    if s[a].1 && !s[b].1 {
        if s[a].0 > s[b].0 {
            2
        } else if s[a].0 == s[b].0 {
            1
        } else {
            0
        }
    } else {
        0
    }
}

/// The sum over the places up to `n`.
pub open spec fn total(n: int, f: spec_fn(int) -> int) -> int
    decreases n,
{
    if n <= 0 {
        0
    } else {
        f(n - 1) + total(n - 1, f)
    }
}

proof fn lemma_total(n: int, f: spec_fn(int) -> int, g: spec_fn(int) -> int)
    requires
        forall|i: int| 0 <= i < n ==> #[trigger] f(i) == g(i),
    ensures
        auc::sum(n, f) == total(n, g),
    decreases n,
{
    if n > 0 {
        lemma_total(n - 1, f, g);
        assert(f(n - 1) == g(n - 1));
    }
}

proof fn lemma_total_of_two(
    n: int,
    f: spec_fn(int) -> int,
    g: spec_fn(int) -> int,
    h: spec_fn(int) -> int,
)
    requires
        forall|i: int| 0 <= i < n ==> f(i) + g(i) == #[trigger] h(i),
    ensures
        auc::sum(n, f) + auc::sum(n, g) == total(n, h),
    decreases n,
{
    if n > 0 {
        lemma_total_of_two(n - 1, f, g, h);
        assert(f(n - 1) + g(n - 1) == h(n - 1));
    }
}

proof fn lemma_total_zero(n: int, h: spec_fn(int) -> int)
    requires
        forall|i: int| 0 <= i < n ==> #[trigger] h(i) == 0,
    ensures
        total(n, h) == 0,
    decreases n,
{
    if n > 0 {
        lemma_total_zero(n - 1, h);
        assert(h(n - 1) == 0);
    }
}

/// The score is what all pairs are worth.
pub proof fn law_the_score_is_over_all_pairs(s: Seq<(i128, bool)>)
    ensures
        auc::score(s) == total(
            s.len() as int,
            |a: int| total(s.len() as int, |b: int| worth(s, a, b)),
        ),
{
    let n = s.len() as int;
    let f = auc::part(s);
    let g = |a: int| total(n, |b: int| worth(s, a, b));
    assert forall|a: int| 0 <= a < n implies #[trigger] f(a) == g(a) by {
        let h = |b: int| worth(s, a, b);
        if s[a].1 {
            let (x, y) = (auc::below_fn(s, a), auc::not_above_fn(s, a));
            assert forall|b: int| 0 <= b < n implies x(b) + y(b) == #[trigger] h(b) by {}
            lemma_total_of_two(n, x, y, h);
        } else {
            assert forall|b: int| 0 <= b < n implies #[trigger] h(b) == 0 by {}
            lemma_total_zero(n, h);
        }
    }
    lemma_total(n, f, g);
}

proof fn lemma_class(s: Seq<(i128, bool)>, class: bool, n: int)
    requires
        0 <= n <= s.len(),
    ensures
        auc::sum(n, auc::class_fn(s, class)) == s.take(n).filter(
            |x: (i128, bool)| x.1 == class,
        ).len(),
    decreases n,
{
    reveal(Seq::filter);
    if n > 0 {
        lemma_class(s, class, n - 1);
        assert(s.take(n).drop_last() =~= s.take(n - 1));
        assert(s.take(n).last() == s[n - 1]);
    } else {
        assert(s.take(0) =~= Seq::empty());
    }
}

/// Samples of a class are counted.
pub proof fn law_classes_are_counted(s: Seq<(i128, bool)>, class: bool)
    ensures
        auc::class_size(s, class) == s.filter(|x: (i128, bool)| x.1 == class).len(),
{
    lemma_class(s, class, s.len() as int);
    assert(s.take(s.len() as int) =~= s);
}

/// Samples whose number is known count, in their order; the others are dropped.
pub proof fn law_known_samples_count(samples: Seq<(Option<i128>, bool)>)
    ensures
        auc::known(samples) == samples.filter(
            |x: (Option<i128>, bool)| x.0 is Some,
        ).map_values(|x: (Option<i128>, bool)| (x.0->0, x.1)),
    decreases samples.len(),
{
    reveal(Seq::filter);
    let of = |x: (Option<i128>, bool)| x.0 is Some;
    let to = |x: (Option<i128>, bool)| (x.0->0, x.1);
    if samples.len() > 0 {
        law_known_samples_count(samples.drop_last());
        let before = samples.drop_last().filter(of);
        assert(before.push(samples.last()).map_values(to) =~= before.map_values(to).push(
            to(samples.last()),
        ));
    } else {
        assert(samples.filter(of).map_values(to) =~= Seq::empty());
    }
}

/// A result has the samples of each class, those that were dropped, and the score.
pub proof fn law_a_result_counts_the_samples(
    r: AucResult,
    samples: Seq<(Option<i128>, bool)>,
)
    requires
        auc::is_auc(r, samples),
    ensures
        ({
            let s = auc::known(samples);
            &&& r.n_pos == s.filter(|x: (i128, bool)| x.1 == true).len()
            &&& r.n_neg == s.filter(|x: (i128, bool)| x.1 == false).len()
            &&& r.n_dropped == samples.len() - s.len()
            &&& r.u_doubled == auc::score(s)
        }),
{
    law_classes_are_counted(auc::known(samples), true);
    law_classes_are_counted(auc::known(samples), false);
}

/// The fraction is below the other: on one denominator where its numerator is, and
/// whatever both parts of it are multiplied by.
pub proof fn law_fractions_compare(a: int, b: int, c: int, d: int, k: int)
    requires
        b > 0,
        d > 0,
        k > 0,
    ensures
        phase2::below(a, b, c, b) <==> a < c,
        phase2::below(a * k, b * k, c, d) <==> phase2::below(a, b, c, d),
        phase2::below(a, b, c * k, d * k) <==> phase2::below(a, b, c, d),
        !(phase2::below(a, b, c, d) && phase2::below(c, d, a, b)),
{
    assert(a * b < c * b <==> a < c) by (nonlinear_arith)
        requires
            b > 0,
    ;
    assert((a * k) * d < c * (b * k) <==> a * d < c * b) by (nonlinear_arith)
        requires
            k > 0,
    ;
    assert(a * (d * k) < (c * k) * b <==> a * d < c * b) by (nonlinear_arith)
        requires
            k > 0,
    ;
}

/// How far a score is from chance: as far as what it is from the number of pairs, of
/// twice that number. It is the same for a score and its mirror image, nothing for chance
/// and nothing without pairs.
pub proof fn law_the_distance_is_from_chance(r: AucResult)
    ensures
        ({
            let p = r.n_pos * r.n_neg;
            let d = phase2::distance(r);
            &&& p == 0 ==> d == (0int, 1int)
            &&& p > 0 && r.u_doubled >= p ==> d == (r.u_doubled - p, 2 * p)
            &&& p > 0 && r.u_doubled <= p ==> d == (p - r.u_doubled, 2 * p)
            &&& d.0 >= 0 && d.1 > 0
        }),
{
    let (x, y) = (r.n_pos as int, r.n_neg as int);
    assert(x * y >= 0) by (nonlinear_arith)
        requires
            x >= 0,
            y >= 0,
    ;
}

/// Each feature reads its own column.
pub proof fn law_features_read_their_column(x: Features)
    ensures
        phase2::value(Feature::TSinceEntryPct, x) == x.f1_t_since_entry_pct,
        phase2::value(Feature::TToExitMs, x) == x.f2_t_to_exit_ms,
        phase2::value(Feature::BidT, x) == x.f3_bid_t,
        phase2::value(Feature::BidMaxSoFar, x) == x.f4_bid_max_so_far,
        phase2::value(Feature::BidRatio, x) == x.f5_bid_ratio,
        phase2::value(Feature::TimeSinceBidMaxMs, x) == x.f6_time_since_bid_max_ms,
        phase2::value(Feature::BidVelocity5s, x) == x.f7_bid_velocity_5s,
        phase2::value(Feature::BidVelocity15s, x) == x.f8_bid_velocity_15s,
        phase2::value(Feature::SpreadT, x) == x.f9_spread_t,
        phase2::value(Feature::ExecutableMinusBestBid, x) == x.f10_executable_minus_best_bid,
        phase2::value(Feature::BinanceReturnSinceEntry, x) == x.f11_binance_return_since_entry,
        phase2::value(Feature::BinanceReturn5s, x) == x.f12_binance_return_5s,
        phase2::value(Feature::Oracle, x) == x.sanity_label_as_feat,
        phase2::value(Feature::Random, x) == x.sanity_random_seeded,
        phase2::value(Feature::MaxFutureAdvantage, x) == x.canary_max_future_advantage,
        phase2::value(Feature::AdvantageAtTPlus30s, x) == x.canary_advantage_at_t_plus_30s,
{
}

/// Each feature has the name of its column.
pub proof fn law_features_have_the_name_of_their_column()
    ensures
        Feature::TSinceEntryPct.name() == "f1_t_since_entry_pct"@,
        Feature::TToExitMs.name() == "f2_t_to_exit_ms"@,
        Feature::BidT.name() == "f3_bid_t"@,
        Feature::BidMaxSoFar.name() == "f4_bid_max_so_far"@,
        Feature::BidRatio.name() == "f5_bid_ratio"@,
        Feature::TimeSinceBidMaxMs.name() == "f6_time_since_bid_max_ms"@,
        Feature::BidVelocity5s.name() == "f7_bid_velocity_5s"@,
        Feature::BidVelocity15s.name() == "f8_bid_velocity_15s"@,
        Feature::SpreadT.name() == "f9_spread_t"@,
        Feature::ExecutableMinusBestBid.name() == "f10_executable_minus_best_bid"@,
        Feature::BinanceReturnSinceEntry.name() == "f11_binance_return_since_entry"@,
        Feature::BinanceReturn5s.name() == "f12_binance_return_5s"@,
        Feature::Oracle.name() == "sanity_label_as_feat"@,
        Feature::Random.name() == "sanity_random_seeded"@,
        Feature::MaxFutureAdvantage.name() == "canary_max_future_advantage"@,
        Feature::AdvantageAtTPlus30s.name() == "canary_advantage_at_t_plus_30s"@,
        CanaryFlag::Green.name() == "OK"@,
        CanaryFlag::Yellow.name() == "YELLOW"@,
        CanaryFlag::Red.name() == "RED"@,
        Tercile::Low.name() == "low"@,
        Tercile::Mid.name() == "mid"@,
        Tercile::High.name() == "high"@,
{
}

/// Twelve features are judged, each once: all but those that check the method itself.
pub proof fn law_twelve_features_are_judged(f: Feature)
    ensures
        phase2::judged().len() == 12,
        phase2::judged().no_duplicates(),
        phase2::by_name().len() == 12,
        phase2::by_name().no_duplicates(),
        phase2::judged().contains(f) <==> f != Feature::Oracle && f != Feature::Random && f
            != Feature::MaxFutureAdvantage && f != Feature::AdvantageAtTPlus30s,
        phase2::by_name().contains(f) <==> phase2::judged().contains(f),
{
    let (j, b) = (phase2::judged(), phase2::by_name());
    match f {
        Feature::TSinceEntryPct => {
            assert(j[0] == f && b[3] == f);
        },
        Feature::TToExitMs => {
            assert(j[1] == f && b[4] == f);
        },
        Feature::BidT => {
            assert(j[2] == f && b[5] == f);
        },
        Feature::BidMaxSoFar => {
            assert(j[3] == f && b[6] == f);
        },
        Feature::BidRatio => {
            assert(j[4] == f && b[7] == f);
        },
        Feature::TimeSinceBidMaxMs => {
            assert(j[5] == f && b[8] == f);
        },
        Feature::BidVelocity5s => {
            assert(j[6] == f && b[9] == f);
        },
        Feature::BidVelocity15s => {
            assert(j[7] == f && b[10] == f);
        },
        Feature::SpreadT => {
            assert(j[8] == f && b[11] == f);
        },
        Feature::ExecutableMinusBestBid => {
            assert(j[9] == f && b[0] == f);
        },
        Feature::BinanceReturnSinceEntry => {
            assert(j[10] == f && b[1] == f);
        },
        Feature::BinanceReturn5s => {
            assert(j[11] == f && b[2] == f);
        },
        _ => {},
    }
}

/// The date is on the list.
pub open spec fn has_date(dates: Seq<&str>, date: Seq<char>) -> bool {
    exists|i: int| 0 <= i < dates.len() && (#[trigger] dates[i])@ == date
}

/// The rows to train on are those of the dates to train on; the rows to test on are those
/// of the dates to test on that are not to train on.
pub proof fn law_rows_are_divided_by_date(
    s: Seq<FeatureSample>,
    train: Seq<&str>,
    test: Seq<&str>,
)
    ensures
        phase2::train_part(s, train) == s.filter(|r: FeatureSample| has_date(train, r.date@)),
        phase2::test_part(s, train, test) == s.filter(
            |r: FeatureSample| has_date(test, r.date@) && !has_date(train, r.date@),
        ),
    decreases s.len(),
{
    reveal(Seq::filter);
    if s.len() > 0 {
        law_rows_are_divided_by_date(s.drop_last(), train, test);
        assert(has_date(train, s.last().date@) == phase2::lists(train, s.last().date@));
        assert(has_date(test, s.last().date@) == phase2::lists(test, s.last().date@));
    }
}

/// The rows of a cell, and those of a third, in their order; each row with its value and
/// its label.
pub proof fn law_rows_are_chosen(
    s: Seq<FeatureSample>,
    cell: Seq<char>,
    low: int,
    mid: int,
    t: Tercile,
    f: Feature,
)
    ensures
        phase2::of_cell(s, cell) == s.filter(|r: FeatureSample| r.cell@ == cell),
        phase2::of_third(s, low, mid, t) == s.filter(
            |r: FeatureSample| phase2::third(r.entry_price as int, low, mid) == t,
        ),
        phase2::paired(s, f).len() == s.len(),
        forall|i: int|
            0 <= i < s.len() ==> #[trigger] phase2::paired(s, f)[i] == (
                phase2::value(f, s[i].features),
                s[i].features.label,
            ),
    decreases s.len(),
{
    reveal(Seq::filter);
    if s.len() > 0 {
        law_rows_are_chosen(s.drop_last(), cell, low, mid, t, f);
    }
}

/// The scores of a feature are over the rows of its cell, to train on and to test on.
pub proof fn law_features_are_scored_by_cell(
    r: FeatureScore,
    train: Seq<FeatureSample>,
    test: Seq<FeatureSample>,
    cell: Seq<char>,
    f: Feature,
)
    requires
        phase2::is_feature_score(r, train, test, cell, f),
    ensures
        r.cell@ == cell && r.feature == f,
        auc::is_auc(
            r.train,
            phase2::paired(train.filter(|x: FeatureSample| x.cell@ == cell), f),
        ),
        auc::is_auc(r.test, phase2::paired(test.filter(|x: FeatureSample| x.cell@ == cell), f)),
{
    law_rows_are_chosen(train, cell, 0, 0, Tercile::Low, f);
    law_rows_are_chosen(test, cell, 0, 0, Tercile::Low, f);
}

/// The scores that are known beforehand: the label tells itself on every pair; chance is
/// within a hundredth of chance; the best value to come is at least two fifths from it;
/// the one in half a minute between a twentieth and two fifths.
pub proof fn law_known_scores_are_as_expected(r: Sanity)
    requires
        phase2::is_sane(r),
    ensures
        r.oracle_ok <==> r.oracle.n_pos * r.oracle.n_neg > 0 && r.oracle.u_doubled == 2 * (
        r.oracle.n_pos * r.oracle.n_neg),
        r.random_ok <==> is_within(r.random, 1, 100) && !is_from(r.random, 1, 100),
        r.strong_ok <==> is_from(r.strong, 2, 5),
        r.moderate_ok <==> is_from(r.moderate, 1, 20) && is_within(r.moderate, 2, 5),
{
    law_the_distance_is_from_chance(r.random);
    law_the_distance_is_from_chance(r.strong);
    law_the_distance_is_from_chance(r.moderate);
}

/// How far the score is from the number of pairs.
pub open spec fn off(r: AucResult) -> int {
    let p = r.n_pos * r.n_neg;
    if p == 0 {
        0
    } else if r.u_doubled >= p {
        r.u_doubled - p
    } else {
        p - r.u_doubled
    }
}

/// Twice the number of pairs, or 1 where there are none.
pub open spec fn of_pairs(r: AucResult) -> int {
    if r.n_pos * r.n_neg == 0 {
        1
    } else {
        2 * (r.n_pos * r.n_neg)
    }
}

/// The score is at least `k / n` from chance.
pub open spec fn is_from(r: AucResult, k: int, n: int) -> bool {
    off(r) * n >= k * of_pairs(r)
}

/// The score is at most `k / n` from chance.
pub open spec fn is_within(r: AucResult, k: int, n: int) -> bool {
    off(r) * n <= k * of_pairs(r)
}

/// A feature looks like a leak where it is at most a twentieth weaker than a column that
/// looks ahead: red for the strong one, else yellow for the moderate one.
pub proof fn law_leaks_are_flagged(test: AucResult, strong: AucResult, moderate: AucResult)
    ensures
        ({
            let near = |c: AucResult|
                (off(test) * 20 + of_pairs(test)) * of_pairs(c) >= off(c) * (20 * of_pairs(test));
            let flag = phase2::canary(test, strong, moderate);
            &&& near(strong) <==> flag == CanaryFlag::Red
            &&& !near(strong) && near(moderate) <==> flag == CanaryFlag::Yellow
            &&& !near(strong) && !near(moderate) <==> flag == CanaryFlag::Green
        }),
{
    law_the_distance_is_from_chance(test);
    law_the_distance_is_from_chance(strong);
    law_the_distance_is_from_chance(moderate);
}

/// A feature keeps its word where its score on the test rows is more than a twentieth
/// from chance and more than 85 hundredths as far as on the rows to train on, where it
/// was not within a billionth of chance, nor wrong on every pair.
pub proof fn law_features_keep_their_word(train: AucResult, test: AucResult)
    ensures
        phase2::keeps(train, test) <==> {
            &&& off(test) * 20 > of_pairs(test)
            &&& off(train) * 1_000_000_000 > of_pairs(train)
            &&& !(train.n_pos * train.n_neg > 0 && train.u_doubled == 0)
            &&& 17 * off(train) * of_pairs(test) < 20 * off(test) * of_pairs(train)
        },
{
    law_the_distance_is_from_chance(train);
    law_the_distance_is_from_chance(test);
}

/// A verdict has the scores, and lets the feature pass where it is significant and keeps
/// its word.
pub proof fn law_a_verdict_is_of_the_scores(
    r: FeatureAnalysisRow,
    s: FeatureScore,
    significant: bool,
    strong: AucResult,
    moderate: AucResult,
)
    requires
        phase2::is_verdict(r, s, significant, strong, moderate),
    ensures
        r.cell@ == s.cell@ && r.feature == s.feature && r.train == s.train && r.test == s.test,
        r.passes <==> significant && phase2::keeps(s.train, s.test),
        r.canary_flag == phase2::canary(s.test, strong, moderate),
{
}

/// The first row is to stand before the second: it is stronger on the test rows, or as
/// strong and first among the rows.
pub open spec fn stands_before(rows: Seq<FeatureAnalysisRow>, a: int, b: int) -> bool {
    let (x, y) = (rows[a].test, rows[b].test);
    let (l, r) = (off(x) * of_pairs(y), off(y) * of_pairs(x));
    l > r || l == r && a < b
}

proof fn lemma_weaker(rows: Seq<FeatureAnalysisRow>, a: int, b: int)
    ensures
        phase2::weaker(rows, a, b) <==> off(rows[a].test) * of_pairs(rows[b].test) < off(
            rows[b].test,
        ) * of_pairs(rows[a].test),
        off(rows[a].test) >= 0,
        of_pairs(rows[a].test) > 0,
{
    law_the_distance_is_from_chance(rows[a].test);
    law_the_distance_is_from_chance(rows[b].test);
}

proof fn lemma_fraction_chain(a: int, b: int, c: int, d: int, e: int, f: int)
    requires
        b > 0,
        d > 0,
        f > 0,
        a * d >= c * b,
        c * f >= e * d,
    ensures
        a * f >= e * b,
        a * d > c * b ==> a * f > e * b,
        c * f > e * d ==> a * f > e * b,
{
    assert((a * d) * f >= (c * b) * f) by (nonlinear_arith)
        requires
            a * d >= c * b,
            f > 0,
    ;
    assert((c * f) * b >= (e * d) * b) by (nonlinear_arith)
        requires
            c * f >= e * d,
            b > 0,
    ;
    assert((a * d) * f == (a * f) * d && (c * b) * f == (c * f) * b && (e * d) * b == (e * b) * d)
        by (nonlinear_arith);
    assert(a * f >= e * b) by (nonlinear_arith)
        requires
            (a * f) * d >= (e * b) * d,
            d > 0,
    ;
    if a * d > c * b {
        assert((a * d) * f > (c * b) * f) by (nonlinear_arith)
            requires
                a * d > c * b,
                f > 0,
        ;
        assert(a * f > e * b) by (nonlinear_arith)
            requires
                (a * f) * d > (e * b) * d,
                d > 0,
        ;
    }
    if c * f > e * d {
        assert((c * f) * b > (e * d) * b) by (nonlinear_arith)
            requires
                c * f > e * d,
                b > 0,
        ;
        assert(a * f > e * b) by (nonlinear_arith)
            requires
                (a * f) * d > (e * b) * d,
                d > 0,
        ;
    }
}

proof fn lemma_before_transitive(rows: Seq<FeatureAnalysisRow>, a: int, b: int, c: int)
    requires
        stands_before(rows, a, b),
        stands_before(rows, b, c),
    ensures
        stands_before(rows, a, c),
{
    lemma_weaker(rows, a, b);
    lemma_weaker(rows, b, c);
    lemma_weaker(rows, c, a);
    lemma_fraction_chain(
        off(rows[a].test),
        of_pairs(rows[a].test),
        off(rows[b].test),
        of_pairs(rows[b].test),
        off(rows[c].test),
        of_pairs(rows[c].test),
    );
}

/// Every row stands before all behind it.
pub open spec fn is_ranking(rows: Seq<FeatureAnalysisRow>, order: Seq<usize>) -> bool {
    forall|i: int, j: int|
        0 <= i < j < order.len() ==> stands_before(
            rows,
            #[trigger] order[i] as int,
            #[trigger] order[j] as int,
        )
}

proof fn lemma_placed(rows: Seq<FeatureAnalysisRow>, order: Seq<usize>, i: usize)
    requires
        is_ranking(rows, order),
        forall|k: int| 0 <= k < order.len() ==> #[trigger] order[k] < i,
    ensures
        is_ranking(rows, phase2::placed(rows, order, i)),
        phase2::placed(rows, order, i).len() == order.len() + 1,
        forall|k: int|
            0 <= k <= order.len() ==> (#[trigger] phase2::placed(rows, order, i)[k] == i
                || order.contains(phase2::placed(rows, order, i)[k])),
    decreases order.len(),
{
    let r = phase2::placed(rows, order, i);
    if order.len() == 0 {
        assert(r =~= seq![i]);
    } else {
        let (less, last) = (order.drop_last(), order.last());
        let n = less.len() as int;
        lemma_weaker(rows, last as int, i as int);
        lemma_weaker(rows, i as int, last as int);
        if !phase2::weaker(rows, last as int, i as int) {
            assert(order[n] < i);
            assert(stands_before(rows, last as int, i as int));
            assert forall|a: int, b: int| 0 <= a < b < r.len() implies stands_before(
                rows,
                #[trigger] r[a] as int,
                #[trigger] r[b] as int,
            ) by {
                if b == order.len() && a < n {
                    assert(stands_before(rows, order[a] as int, order[n] as int));
                    lemma_before_transitive(rows, order[a] as int, last as int, i as int);
                } else if b < order.len() {
                    assert(stands_before(rows, order[a] as int, order[b] as int));
                }
            }
            assert forall|k: int| 0 <= k <= order.len() implies (#[trigger] r[k] == i
                || order.contains(r[k])) by {
                if k < order.len() {
                    assert(r[k] == order[k]);
                }
            }
        } else {
            assert forall|k: int| 0 <= k < less.len() implies #[trigger] less[k] < i by {
                assert(less[k] == order[k]);
            }
            assert forall|a: int, b: int| 0 <= a < b < less.len() implies stands_before(
                rows,
                #[trigger] less[a] as int,
                #[trigger] less[b] as int,
            ) by {
                assert(stands_before(rows, order[a] as int, order[b] as int));
            }
            lemma_placed(rows, less, i);
            let q = phase2::placed(rows, less, i);
            assert(r =~= q.push(last));
            assert forall|k: int| 0 <= k < q.len() implies stands_before(
                rows,
                #[trigger] q[k] as int,
                last as int,
            ) by {
                if q[k] != i {
                    assert(less.contains(q[k]));
                    let m = choose|m: int| 0 <= m < less.len() && less[m] == q[k];
                    assert(stands_before(rows, order[m] as int, order[n] as int));
                }
            }
            assert forall|a: int, b: int| 0 <= a < b < r.len() implies stands_before(
                rows,
                #[trigger] r[a] as int,
                #[trigger] r[b] as int,
            ) by {
                if b < q.len() {
                    assert(stands_before(rows, q[a] as int, q[b] as int));
                } else {
                    assert(stands_before(rows, q[a] as int, last as int));
                }
            }
            assert forall|k: int| 0 <= k <= order.len() implies (#[trigger] r[k] == i
                || order.contains(r[k])) by {
                if k < q.len() {
                    if q[k] != i {
                        assert(less.contains(q[k]));
                        let m = choose|m: int| 0 <= m < less.len() && less[m] == q[k];
                        assert(order[m] == r[k]);
                    }
                } else {
                    assert(order[n] == r[k]);
                }
            }
        }
    }
}

/// A ranking begins with the strongest row; rows that are as strong as each other keep
/// their order.
pub proof fn law_the_strongest_come_first(rows: Seq<FeatureAnalysisRow>, n: nat)
    requires
        n <= usize::MAX,
    ensures
        phase2::ranked(rows, n).len() == n,
        is_ranking(rows, phase2::ranked(rows, n)),
        forall|k: int| 0 <= k < n ==> #[trigger] phase2::ranked(rows, n)[k] < n,
    decreases n,
{
    if n > 0 {
        let m = (n - 1) as nat;
        law_the_strongest_come_first(rows, m);
        let before = phase2::ranked(rows, m);
        lemma_placed(rows, before, m as usize);
        let r = phase2::ranked(rows, n);
        assert forall|k: int| 0 <= k < n implies #[trigger] r[k] < n by {
            if r[k] != m as usize {
                assert(before.contains(r[k]));
                let j = choose|j: int| 0 <= j < before.len() && before[j] == r[k];
                assert(before[j] < m);
            }
        }
    }
}

/// The cells of a feature are those in which it passes and does not look like a leak; it
/// is robust where there are two of them or more.
pub proof fn law_robust_features_pass_twice(
    rows: Seq<FeatureAnalysisRow>,
    f: Feature,
    fs: Seq<Feature>,
)
    ensures
        phase2::passing_cells(rows, f) == rows.filter(
            |r: FeatureAnalysisRow| r.feature == f && r.passes && r.canary_flag != CanaryFlag::Red,
        ).map_values(|r: FeatureAnalysisRow| r.cell@),
        phase2::robust(rows, fs) == fs.filter(
            |g: Feature| phase2::passing_cells(rows, g).len() >= 2,
        ),
    decreases rows.len() + fs.len(),
{
    reveal(Seq::filter);
    let of = |r: FeatureAnalysisRow|
        r.feature == f && r.passes && r.canary_flag != CanaryFlag::Red;
    let to = |r: FeatureAnalysisRow| r.cell@;
    if rows.len() > 0 {
        law_robust_features_pass_twice(rows.drop_last(), f, Seq::empty());
        let before = rows.drop_last().filter(of);
        assert(before.push(rows.last()).map_values(to) =~= before.map_values(to).push(
            to(rows.last()),
        ));
    } else {
        assert(rows.filter(of).map_values(to) =~= Seq::empty());
    }
    if fs.len() > 0 {
        law_robust_features_pass_twice(rows, f, fs.drop_last());
    }
}

/// The price of a signal counts with its first row, in the cell of that row.
pub proof fn law_prices_count_once(s: Seq<FeatureSample>, cell: Seq<char>, n: int)
    requires
        0 <= n < s.len(),
    ensures
        phase2::prices(s, cell, 0) == Seq::<int>::empty(),
        ({
            let first = forall|i: int|
                0 <= i < n ==> (#[trigger] s[i]).signal_id@ != s[n].signal_id@;
            let (before, after) = (phase2::prices(s, cell, n), phase2::prices(s, cell, n + 1));
            &&& first && s[n].cell@ == cell ==> after == before.push(s[n].entry_price as int)
            &&& !(first && s[n].cell@ == cell) ==> after == before
        }),
{
}

/// Two prices divide a cell: those at a third and at two thirds of the ascending prices.
/// A third reaches up to its price, with it.
pub proof fn law_thirds_are_by_price(s: Seq<FeatureSample>, cell: Seq<char>, price: int)
    ensures
        ({
            let p = peak::ascending(phase2::prices(s, cell, s.len() as int));
            match phase2::thirds(s, cell) {
                Some((low, mid)) => {
                    &&& p.len() > 0
                    &&& exists|i: int, j: int|
                        #![trigger p[i], p[j]]
                        3 * i <= p.len() < 3 * i + 3 && 3 * j <= 2 * p.len() < 3 * j + 3 && p[i]
                            == low && p[j] == mid
                    &&& price <= low <==> phase2::third(price, low, mid) == Tercile::Low
                    &&& price > low && price <= mid <==> phase2::third(price, low, mid)
                        == Tercile::Mid
                    &&& price > low && price > mid <==> phase2::third(price, low, mid)
                        == Tercile::High
                },
                None => p.len() == 0,
            }
        }),
{
    let p = peak::ascending(phase2::prices(s, cell, s.len() as int));
    if p.len() > 0 {
        let (i, j) = ((p.len() / 3) as int, ((p.len() * 2) / 3) as int);
        assert(p[i] == p[i] && p[j] == p[j]);
    }
}

} // verus!
