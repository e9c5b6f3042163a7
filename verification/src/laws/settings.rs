//! The configuration: which one is accepted, and what is said of one that is not.

use crate::config::{
    self, B3Fallback, CellFaultV, CellLayer, CellRule, Config, ExitRule, FaultV, Interval15mCfg,
    MarketsConfig, Num, RuleFaultV, V2Config,
};
use crate::decimal::{self, DecV};
use crate::laws::numerals;
use crate::laws::texts;
use crate::numeral;
use crate::text;
use vstd::prelude::*;

verus! {

/// The kinds of rules by their words, each with the parameters that it needs.
pub proof fn law_rules_are_read_by_their_kind(
    x_pct: Option<Num>,
    y_sec: Option<i64>,
    delta: Option<Num>,
    fallback: Option<Seq<char>>,
    x: Num,
    y: i64,
    d: Num,
)
    ensures
        config::rule_in(
            seq!['b', 'a', 's', 'e', 'l', 'i', 'n', 'e'],
            x_pct,
            y_sec,
            delta,
            fallback,
        ) == Ok::<ExitRule, RuleFaultV>(ExitRule::Baseline),
        config::rule_in(
            seq!['f', '6', '_', 'o', 'n', 'l', 'y'],
            x_pct,
            Some(y),
            delta,
            fallback,
        ) == Ok::<ExitRule, RuleFaultV>(ExitRule::F6Only { y_sec: y }),
        config::rule_in(seq!['f', '6', '_', 'o', 'n', 'l', 'y'], x_pct, None, delta, fallback) == Err::<
            ExitRule,
            RuleFaultV,
        >(RuleFaultV::MissingField { field: seq!['y', '_', 's', 'e', 'c'] }),
        config::rule_in(seq!['s', 'm', 'a', 'r', 't'], Some(x), Some(y), delta, fallback) == Ok::<
            ExitRule,
            RuleFaultV,
        >(ExitRule::Smart { x_pct: x, y_sec: y }),
        config::rule_in(seq!['s', 'm', 'a', 'r', 't'], None, y_sec, delta, fallback) == Err::<
            ExitRule,
            RuleFaultV,
        >(RuleFaultV::MissingField { field: seq!['x', '_', 'p', 'c', 't'] }),
        config::rule_in(seq!['s', 'm', 'a', 'r', 't'], Some(x), None, delta, fallback) == Err::<
            ExitRule,
            RuleFaultV,
        >(RuleFaultV::MissingField { field: seq!['y', '_', 's', 'e', 'c'] }),
{
    lemma_words();
    let (a, b, c) = (
        seq!['b', 'a', 's', 'e', 'l', 'i', 'n', 'e'],
        seq!['f', '6', '_', 'o', 'n', 'l', 'y'],
        seq!['s', 'm', 'a', 'r', 't'],
    );
    assert(a.len() == 8 && b.len() == 7 && c.len() == 5);
}

proof fn lemma_words()
    ensures
        "baseline"@ == seq!['b', 'a', 's', 'e', 'l', 'i', 'n', 'e'],
        "f6_only"@ == seq!['f', '6', '_', 'o', 'n', 'l', 'y'],
        "smart"@ == seq!['s', 'm', 'a', 'r', 't'],
        "b3_maker"@ == seq!['b', '3', '_', 'm', 'a', 'k', 'e', 'r'],
        "f2_market"@ == seq!['f', '2', '_', 'm', 'a', 'r', 'k', 'e', 't'],
        "y_sec"@ == seq!['y', '_', 's', 'e', 'c'],
        "x_pct"@ == seq!['x', '_', 'p', 'c', 't'],
        "delta"@ == seq!['d', 'e', 'l', 't', 'a'],
        "fallback"@ == seq!['f', 'a', 'l', 'l', 'b', 'a', 'c', 'k'],
{
    reveal_strlit("baseline");
    reveal_strlit("f6_only");
    reveal_strlit("smart");
    reveal_strlit("b3_maker");
    reveal_strlit("f2_market");
    reveal_strlit("y_sec");
    reveal_strlit("x_pct");
    reveal_strlit("delta");
    reveal_strlit("fallback");
    assert("baseline"@ =~= seq!['b', 'a', 's', 'e', 'l', 'i', 'n', 'e']);
    assert("f6_only"@ =~= seq!['f', '6', '_', 'o', 'n', 'l', 'y']);
    assert("smart"@ =~= seq!['s', 'm', 'a', 'r', 't']);
    assert("b3_maker"@ =~= seq!['b', '3', '_', 'm', 'a', 'k', 'e', 'r']);
    assert("f2_market"@ =~= seq!['f', '2', '_', 'm', 'a', 'r', 'k', 'e', 't']);
    assert("y_sec"@ =~= seq!['y', '_', 's', 'e', 'c']);
    assert("x_pct"@ =~= seq!['x', '_', 'p', 'c', 't']);
    assert("delta"@ =~= seq!['d', 'e', 'l', 't', 'a']);
    assert("fallback"@ =~= seq!['f', 'a', 'l', 'l', 'b', 'a', 'c', 'k']);
}

/// A maker rule needs its distance and a fallback that is known.
pub proof fn law_maker_rules_need_both(
    x_pct: Option<Num>,
    y_sec: Option<i64>,
    delta: Option<Num>,
    d: Num,
    word: Seq<char>,
)
    requires
        word != seq!['f', '2', '_', 'm', 'a', 'r', 'k', 'e', 't'],
    ensures
        ({
            let maker = seq!['b', '3', '_', 'm', 'a', 'k', 'e', 'r'];
            let known = seq!['f', '2', '_', 'm', 'a', 'r', 'k', 'e', 't'];
            &&& config::rule_in(maker, x_pct, y_sec, Some(d), Some(known)) == Ok::<
                ExitRule,
                RuleFaultV,
            >(ExitRule::B3Maker { delta: d, fallback: B3Fallback::F2Market })
            &&& config::rule_in(maker, x_pct, y_sec, delta, Some(word)) == Err::<
                ExitRule,
                RuleFaultV,
            >(RuleFaultV::UnknownFallback { fallback: word })
            &&& config::rule_in(maker, x_pct, y_sec, None, Some(known)) == Err::<
                ExitRule,
                RuleFaultV,
            >(RuleFaultV::MissingField { field: seq!['d', 'e', 'l', 't', 'a'] })
            &&& config::rule_in(maker, x_pct, y_sec, None, None) == Err::<ExitRule, RuleFaultV>(
                RuleFaultV::MissingField { field: seq!['d', 'e', 'l', 't', 'a'] },
            )
            &&& config::rule_in(maker, x_pct, y_sec, Some(d), None) == Err::<ExitRule, RuleFaultV>(
                RuleFaultV::MissingField {
                    field: seq!['f', 'a', 'l', 'l', 'b', 'a', 'c', 'k'],
                },
            )
        }),
{
    lemma_words();
    let maker = seq!['b', '3', '_', 'm', 'a', 'k', 'e', 'r'];
    let base = seq!['b', 'a', 's', 'e', 'l', 'i', 'n', 'e'];
    assert(maker[1] != base[1]);
    assert(maker.len() == 8);
}

/// Any other word is no kind of rule.
pub proof fn law_other_kinds_are_refused(
    kind: Seq<char>,
    x_pct: Option<Num>,
    y_sec: Option<i64>,
    delta: Option<Num>,
    fallback: Option<Seq<char>>,
)
    requires
        kind != seq!['b', 'a', 's', 'e', 'l', 'i', 'n', 'e'],
        kind != seq!['f', '6', '_', 'o', 'n', 'l', 'y'],
        kind != seq!['s', 'm', 'a', 'r', 't'],
        kind != seq!['b', '3', '_', 'm', 'a', 'k', 'e', 'r'],
    ensures
        config::rule_in(kind, x_pct, y_sec, delta, fallback) == Err::<ExitRule, RuleFaultV>(
            RuleFaultV::UnknownKind { kind },
        ),
{
    lemma_words();
}

/// The name is on the list.
pub open spec fn on_list(names: Seq<String>, name: Seq<char>) -> bool {
    exists|i: int| 0 <= i < names.len() && (#[trigger] names[i])@ == name
}

pub proof fn lemma_two(s: Seq<char>, a: Seq<char>, b: Seq<char>)
    requires
        !a.contains(':'),
        !b.contains(':'),
        s == a.push(':') + b,
    ensures
        text::split(s, ':') == seq![a, b],
    decreases b.len(),
{
    if b.len() == 0 {
        assert(s =~= a.push(':'));
        assert(s.drop_last() =~= a);
        lemma_one(a);
        assert(b =~= Seq::empty());
        assert(s.last() == ':');
        assert(text::split(s, ':') =~= seq![a, b]);
    } else {
        let c = b.drop_last();
        assert(b.contains(b.last()));
        assert(s.last() == b.last());
        assert(s.drop_last() =~= a.push(':') + c);
        assert(!c.contains(':')) by {
            if c.contains(':') {
                let k = choose|k: int| 0 <= k < c.len() && c[k] == ':';
                assert(b[k] == ':');
            }
        }
        lemma_two(s.drop_last(), a, c);
        assert(c.push(b.last()) =~= b);
        assert(text::split(s, ':') =~= seq![a, b]);
    }
}

pub proof fn lemma_one(a: Seq<char>)
    requires
        !a.contains(':'),
    ensures
        text::split(a, ':') == seq![a],
    decreases a.len(),
{
    if a.len() == 0 {
        assert(a =~= Seq::empty());
    } else {
        let c = a.drop_last();
        assert(a.contains(a.last()));
        assert(!c.contains(':')) by {
            if c.contains(':') {
                let k = choose|k: int| 0 <= k < c.len() && c[k] == ':';
                assert(a[k] == ':');
            }
        }
        lemma_one(c);
        assert(c.push(a.last()) =~= a);
        assert(text::split(a, ':') =~= seq![a]);
    }
}

/// A cell is an asset and an interval with a colon between them: both must be there and
/// be configured.
pub proof fn law_cells_are_an_asset_and_an_interval(
    a: Seq<char>,
    b: Seq<char>,
    assets: Seq<String>,
    intervals: Seq<String>,
)
    requires
        !a.contains(':'),
        !b.contains(':'),
    ensures
        ({
            let fault = config::name_fault(a.push(':') + b, assets, intervals);
            let empty = a.len() == 0 || b.len() == 0;
            &&& empty <==> fault == Some(CellFaultV::EmptyHalf)
            &&& !empty && !on_list(assets, a) <==> fault == Some(
                CellFaultV::UnknownAsset { asset: a },
            )
            &&& !empty && on_list(assets, a) && !on_list(intervals, b) <==> fault == Some(
                CellFaultV::UnknownInterval { interval: b },
            )
            &&& !empty && on_list(assets, a) && on_list(intervals, b) <==> fault is None
        }),
{
    lemma_two(a.push(':') + b, a, b);
}

/// A name without a colon, or with more than one, is no cell.
pub proof fn law_cells_have_one_colon(
    cell: Seq<char>,
    assets: Seq<String>,
    intervals: Seq<String>,
)
    ensures
        ({
            let fault = config::name_fault(cell, assets, intervals);
            let one = exists|a: Seq<char>, b: Seq<char>| #[trigger] two_parts(cell, a, b);
            &&& one <==> !(fault matches Some(CellFaultV::Parts { n }))
            &&& fault matches Some(CellFaultV::Parts { n }) ==> n == text::split(cell, ':').len()
        }),
{
    let parts = text::split(cell, ':');
    texts::law_pieces_make_the_text(cell, ':');
    if exists|a: Seq<char>, b: Seq<char>| #[trigger] two_parts(cell, a, b) {
        let (a, b) = choose|a: Seq<char>, b: Seq<char>| #[trigger] two_parts(cell, a, b);
        lemma_two(cell, a, b);
    }
    if parts.len() == 2 {
        let less = parts.drop_last();
        assert(less.len() == 1 && less[0] == parts[0]);
        assert(texts::joined(less, ':') == parts[0]);
        assert(texts::joined(parts, ':') == parts[0].push(':') + parts[1]);
        assert(two_parts(cell, parts[0], parts[1]));
    }
}

/// The name is these two parts, with the only colon between them.
pub open spec fn two_parts(cell: Seq<char>, a: Seq<char>, b: Seq<char>) -> bool {
    !a.contains(':') && !b.contains(':') && cell == a.push(':') + b
}

/// The number is a finite one between the two, without them.
pub open spec fn strictly_between(n: Num, lo: int, hi: int) -> bool {
    n matches Num::Finite(d) && lo * decimal::pow10(d@.s) < d@.m && d@.m < hi * decimal::pow10(d@.s)
}

/// The number is a finite one between the two, or one of them.
pub open spec fn between(n: Num, lo: int, hi: int) -> bool {
    n matches Num::Finite(d) && lo * decimal::pow10(d@.s) <= d@.m && d@.m <= hi * decimal::pow10(
        d@.s,
    )
}

/// The number is above 0, and may be without end.
pub open spec fn is_positive(n: Num) -> bool {
    match n {
        Num::Finite(d) => d@.m > 0,
        Num::Infinite { negative } => !negative,
        Num::NotANumber => false,
    }
}

/// The number is 0 or above, and may be without end.
pub open spec fn is_not_negative(n: Num) -> bool {
    match n {
        Num::Finite(d) => d@.m >= 0,
        Num::Infinite { negative } => !negative,
        Num::NotANumber => false,
    }
}

proof fn lemma_whole(d: DecV, k: int)
    ensures
        decimal::lt(decimal::dec(k, 0), d) <==> k * decimal::pow10(d.s) < d.m,
        decimal::le(decimal::dec(k, 0), d) <==> k * decimal::pow10(d.s) <= d.m,
        decimal::lt(d, decimal::dec(k, 0)) <==> d.m < k * decimal::pow10(d.s),
        decimal::le(d, decimal::dec(k, 0)) <==> d.m <= k * decimal::pow10(d.s),
        0 * decimal::pow10(d.s) == 0,
        1 * decimal::pow10(d.s) == decimal::pow10(d.s),
{
    assert(decimal::pow10(0) == 1);
    let p = decimal::pow10(d.s);
    assert(0 * p == 0 && 1 * p == p) by (nonlinear_arith);
}

proof fn lemma_num(n: Num)
    ensures
        n.above(decimal::zero()) == is_positive(n),
        n.at_least(decimal::zero()) == is_not_negative(n),
        (n.at_least(decimal::zero()) && n.at_most(decimal::one())) == between(n, 0, 1),
        (n is Finite && n.above(decimal::zero()) && n.below(decimal::one())) == strictly_between(
            n,
            0,
            1,
        ),
        (n is Finite && n.above(decimal::zero()) && n.at_most(decimal::dec(100, 0))) == (
        strictly_between(n, 0, 101) && between(n, 0, 100)),
{
    match n {
        Num::Finite(d) => {
            lemma_whole(d@, 0);
            lemma_whole(d@, 1);
            lemma_whole(d@, 100);
            decimal::lemma_pow10_positive(d@.s);
        },
        _ => {},
    }
}

/// The parameters of a rule: seconds above 0, a share of the time above 0 and of at most
/// all of it, and a distance between 0 and 1.
pub open spec fn sound_rule(rule: ExitRule) -> bool {
    match rule {
        ExitRule::Baseline => true,
        ExitRule::F6Only { y_sec } => y_sec > 0,
        ExitRule::Smart { x_pct, y_sec } => between(x_pct, 0, 100) && is_positive(x_pct) && y_sec > 0,
        ExitRule::B3Maker { delta, fallback } => strictly_between(delta, 0, 1),
    }
}

/// Rules with sound parameters have no fault; the others have that of their parameter.
pub proof fn law_rules_have_sound_parameters(cell: Seq<char>, rule: ExitRule)
    ensures
        config::rule_fault(cell, rule) is None <==> sound_rule(rule),
        config::rule_fault(cell, rule) matches Some(f) ==> match (rule, f) {
            (ExitRule::F6Only { y_sec }, FaultV::F6YSec { cell: c, y_sec: y }) => c == cell && y
                == y_sec,
            (ExitRule::Smart { x_pct, y_sec }, FaultV::SmartXPct { cell: c, x_pct: x }) => c == cell
                && x == x_pct && !(between(x_pct, 0, 100) && is_positive(x_pct)),
            (ExitRule::Smart { x_pct, y_sec }, FaultV::SmartYSec { cell: c, y_sec: y }) => c == cell
                && y == y_sec && between(x_pct, 0, 100) && is_positive(x_pct),
            (ExitRule::B3Maker { delta, fallback }, FaultV::B3Delta { cell: c, delta: d }) => c
                == cell && d == delta,
            _ => false,
        },
{
    match rule {
        ExitRule::Smart { x_pct, y_sec } => {
            lemma_num(x_pct);
            lemma_strict(x_pct);
        },
        ExitRule::B3Maker { delta, fallback } => {
            lemma_num(delta);
        },
        _ => {},
    }
}

proof fn lemma_strict(n: Num)
    ensures
        (strictly_between(n, 0, 101) && between(n, 0, 100)) == (between(n, 0, 100) && is_positive(n)),
{
    if let Num::Finite(d) = n {
        let p = decimal::pow10(d@.s);
        decimal::lemma_pow10_positive(d@.s);
        assert(0 * p == 0 && 100 * p < 101 * p) by (nonlinear_arith)
            requires
                p >= 1,
        ;
    }
}

/// The parameters of the second strategy are sound, or it is switched off.
pub open spec fn sound_v2(v2: V2Config) -> bool {
    v2.enabled ==> {
        &&& strictly_between(v2.edge_min, 0, 1)
        &&& is_positive(v2.vol_cap)
        &&& is_not_negative(v2.dvr_floor)
        &&& is_positive(v2.edge_ref)
        &&& v2.min_ttl_s > 0
        &&& v2.recal_capacity >= 1
    }
}

/// The second strategy's parameters are looked at where it is switched on, in their
/// order.
pub proof fn law_the_second_strategy_is_sound(v2: V2Config)
    ensures
        config::v2_fault(v2) is None <==> sound_v2(v2),
        config::v2_fault(v2) matches Some(f) ==> match f {
            FaultV::EdgeMin { edge_min } => edge_min == v2.edge_min && !strictly_between(
                v2.edge_min,
                0,
                1,
            ),
            FaultV::VolCap => strictly_between(v2.edge_min, 0, 1) && !is_positive(v2.vol_cap),
            FaultV::DvrFloor => is_positive(v2.vol_cap) && !is_not_negative(v2.dvr_floor),
            FaultV::EdgeRef => is_not_negative(v2.dvr_floor) && !is_positive(v2.edge_ref),
            FaultV::MinTtl => is_positive(v2.edge_ref) && v2.min_ttl_s <= 0,
            FaultV::RecalCapacity => v2.min_ttl_s > 0 && v2.recal_capacity < 1,
            _ => false,
        },
{
    lemma_num(v2.edge_min);
    lemma_num(v2.vol_cap);
    lemma_num(v2.dvr_floor);
    lemma_num(v2.edge_ref);
}

/// One of the two numbers is below the other.
pub open spec fn is_below(a: Num, b: Num) -> bool {
    match (a, b) {
        (Num::Finite(x), Num::Finite(y)) => x@.m * decimal::pow10(y@.s) < y@.m * decimal::pow10(
            x@.s,
        ),
        (Num::Infinite { negative: x }, Num::Infinite { negative: y }) => x && !y,
        (Num::Infinite { negative: x }, Num::Finite(_)) => x,
        (Num::Finite(_), Num::Infinite { negative: y }) => !y,
        _ => false,
    }
}

/// The rules for the sections of a configuration, in their order.
pub open spec fn base_rules(c: Config) -> Seq<bool> {
    let (paper, live) = (seq!['p', 'a', 'p', 'e', 'r'], seq!['l', 'i', 'v', 'e']);
    seq![
        c.mode.default@ == paper || c.mode.default@ == live,
        is_positive(c.stakes.base_usdc),
        is_positive(c.stakes.base_usdc) ==> c.stakes.max_position_usdc !is NotANumber && !is_below(
            c.stakes.max_position_usdc,
            c.stakes.base_usdc,
        ),
        c.stakes.max_open_positions >= 1,
        is_positive(c.stakes.paper_initial_usdc),
        between(c.filters.h2_lower, 0, 1),
        between(c.filters.h2_upper, 0, 1),
        is_below(c.filters.h2_lower, c.filters.h2_upper),
        c.markets.intervals@.len() > 0,
        c.markets.assets@.len() > 0,
        c.gates.book_freshness_ms > 0,
        is_not_negative(c.gates.balance_min_usdc),
        c.connections.reconnect_max_attempts_per_60s >= 1,
        c.connections.connect_timeout_s >= 1,
        c.connections.polymarket_gamma_url@.len() > 0,
        c.markets.discovery_lookahead >= 0,
        c.markets.discovery_refresh_secs >= 1,
    ]
}

/// What is said of each of them.
pub open spec fn base_faults(c: Config) -> Seq<FaultV> {
    seq![
        FaultV::Mode { mode: c.mode.default@ },
        FaultV::BaseUsdc,
        FaultV::MaxPosition { max: c.stakes.max_position_usdc, base: c.stakes.base_usdc },
        FaultV::MaxOpenPositions,
        FaultV::PaperInitial,
        FaultV::H2LowerRange,
        FaultV::H2UpperRange,
        FaultV::H2Order { lower: c.filters.h2_lower, upper: c.filters.h2_upper },
        FaultV::NoIntervals,
        FaultV::NoAssets,
        FaultV::BookFreshness,
        FaultV::BalanceMin,
        FaultV::ReconnectAttempts,
        FaultV::ConnectTimeout,
        FaultV::GammaUrl,
        FaultV::DiscoveryLookahead,
        FaultV::DiscoveryRefresh,
    ]
}

/// Of the rules for the sections the first one that is broken is reported.
#[verifier::rlimit(40)]
pub proof fn law_the_first_broken_rule_is_reported(c: Config, k: int)
    requires
        0 <= k < 17,
        !base_rules(c)[k],
        forall|i: int| 0 <= i < k ==> #[trigger] base_rules(c)[i],
    ensures
        config::base_fault(c) == Some(base_faults(c)[k]),
        config::fault_of(c) == Some(base_faults(c)[k]),
{
    lemma_base(c);
    let r = base_rules(c);
    assert(k > 0 ==> r[0]);
    assert(k > 1 ==> r[1]);
    assert(k > 2 ==> r[2]);
    assert(k > 3 ==> r[3]);
    assert(k > 4 ==> r[4]);
    assert(k > 5 ==> r[5]);
    assert(k > 6 ==> r[6]);
    assert(k > 7 ==> r[7]);
    assert(k > 8 ==> r[8]);
    assert(k > 9 ==> r[9]);
    assert(k > 10 ==> r[10]);
    assert(k > 11 ==> r[11]);
    assert(k > 12 ==> r[12]);
    assert(k > 13 ==> r[13]);
    assert(k > 14 ==> r[14]);
    assert(k > 15 ==> r[15]);
}

proof fn lemma_base(c: Config)
    ensures
        "paper"@ == seq!['p', 'a', 'p', 'e', 'r'],
        "live"@ == seq!['l', 'i', 'v', 'e'],
        c.stakes.base_usdc.above(decimal::zero()) == is_positive(c.stakes.base_usdc),
        c.stakes.paper_initial_usdc.above(decimal::zero()) == is_positive(
            c.stakes.paper_initial_usdc,
        ),
        c.gates.balance_min_usdc.at_least(decimal::zero()) == is_not_negative(
            c.gates.balance_min_usdc,
        ),
        (c.filters.h2_lower.at_least(decimal::zero()) && c.filters.h2_lower.at_most(decimal::one()))
            == between(c.filters.h2_lower, 0, 1),
        (c.filters.h2_upper.at_least(decimal::zero()) && c.filters.h2_upper.at_most(decimal::one()))
            == between(c.filters.h2_upper, 0, 1),
        c.filters.h2_lower.precedes(c.filters.h2_upper) == is_below(
            c.filters.h2_lower,
            c.filters.h2_upper,
        ),
        is_positive(c.stakes.base_usdc) ==> c.stakes.max_position_usdc.reaches(c.stakes.base_usdc)
            == (c.stakes.max_position_usdc !is NotANumber && !is_below(
            c.stakes.max_position_usdc,
            c.stakes.base_usdc,
        )),
{
    reveal_strlit("paper");
    reveal_strlit("live");
    assert("paper"@ =~= seq!['p', 'a', 'p', 'e', 'r']);
    assert("live"@ =~= seq!['l', 'i', 'v', 'e']);
    lemma_num(c.stakes.base_usdc);
    lemma_num(c.stakes.paper_initial_usdc);
    lemma_num(c.gates.balance_min_usdc);
    lemma_num(c.filters.h2_lower);
    lemma_num(c.filters.h2_upper);
}

/// The cell has a sound name.
pub open spec fn sound_cell(c: Config, cell: Seq<char>) -> bool {
    exists|a: Seq<char>, b: Seq<char>|
        #![trigger two_parts(cell, a, b)]
        two_parts(cell, a, b) && a.len() > 0 && b.len() > 0 && on_list(c.markets.assets@, a)
            && on_list(c.markets.intervals@, b)
}

proof fn lemma_sound_cell(c: Config, cell: Seq<char>)
    ensures
        config::name_fault(cell, c.markets.assets@, c.markets.intervals@) is None <==> sound_cell(
            c,
            cell,
        ),
{
    law_cells_have_one_colon(cell, c.markets.assets@, c.markets.intervals@);
    let parts = text::split(cell, ':');
    if sound_cell(c, cell) {
        let (a, b) = choose|a: Seq<char>, b: Seq<char>|
            #![trigger two_parts(cell, a, b)]
            two_parts(cell, a, b) && a.len() > 0 && b.len() > 0 && on_list(c.markets.assets@, a)
                && on_list(c.markets.intervals@, b);
        lemma_two(cell, a, b);
    }
    if config::name_fault(cell, c.markets.assets@, c.markets.intervals@) is None {
        let (a, b) = choose|a: Seq<char>, b: Seq<char>| #[trigger] two_parts(cell, a, b);
        lemma_two(cell, a, b);
        assert(two_parts(cell, a, b));
    }
}

/// A configuration is accepted if and only if it keeps every rule: those for its
/// sections; every listed cell has a sound name, and a sound rule where it has one; no
/// retired cell has a rule; and the second strategy is sound.
pub open spec fn keeps_every_rule(c: Config) -> bool {
    &&& forall|k: int| 0 <= k < 17 ==> #[trigger] base_rules(c)[k]
    &&& forall|i: int|
        0 <= i < c.exits.cells@.len() ==> sound_cell(c, (#[trigger] c.exits.cells@[i]).cell@)
            && sound_rule(c.exits.cells@[i].rule)
    &&& forall|i: int|
        0 <= i < c.markets.disabled_cells@.len() ==> sound_cell(
            c,
            (#[trigger] c.markets.disabled_cells@[i])@,
        )
    &&& forall|i: int, j: int|
        0 <= i < c.markets.disabled_cells@.len() && 0 <= j < c.exits.cells@.len() ==> (
        #[trigger] c.exits.cells@[j]).cell@ != (#[trigger] c.markets.disabled_cells@[i])@
    &&& sound_v2(c.v2)
}

proof fn lemma_no_rule(cells: Seq<CellRule>, cell: Seq<char>)
    ensures
        config::rule_of(cells, cell) is None <==> forall|j: int|
            0 <= j < cells.len() ==> (#[trigger] cells[j]).cell@ != cell,
    decreases cells.len(),
{
    if cells.len() > 0 {
        let rest = cells.drop_first();
        lemma_no_rule(rest, cell);
        if cells[0].cell@ != cell {
            if config::rule_of(rest, cell) is None {
                assert forall|j: int| 0 <= j < cells.len() implies (#[trigger] cells[j]).cell@
                    != cell by {
                    if j > 0 {
                        assert(rest[j - 1] == cells[j]);
                    }
                }
            } else {
                let j = choose|j: int| 0 <= j < rest.len() && (#[trigger] rest[j]).cell@ == cell;
                assert(cells[j + 1] == rest[j]);
            }
        }
    }
}

proof fn lemma_exits(c: Config, i: int)
    requires
        0 <= i,
    ensures
        config::exits_fault(c.exits.cells@, c.markets.assets@, c.markets.intervals@, i) is None
            <==> forall|k: int|
            i <= k < c.exits.cells@.len() ==> sound_cell(c, (#[trigger] c.exits.cells@[k]).cell@)
                && sound_rule(c.exits.cells@[k].rule),
    decreases c.exits.cells@.len() - i,
{
    let cells = c.exits.cells@;
    if i < cells.len() {
        lemma_exits(c, i + 1);
        lemma_sound_cell(c, cells[i].cell@);
        law_rules_have_sound_parameters(cells[i].cell@, cells[i].rule);
    }
}

proof fn lemma_disabled(c: Config, i: int)
    requires
        0 <= i,
    ensures
        config::disabled_fault(
            c.markets.disabled_cells@,
            c.markets.assets@,
            c.markets.intervals@,
            i,
        ) is None <==> forall|k: int|
            i <= k < c.markets.disabled_cells@.len() ==> sound_cell(
                c,
                (#[trigger] c.markets.disabled_cells@[k])@,
            ),
    decreases c.markets.disabled_cells@.len() - i,
{
    let cells = c.markets.disabled_cells@;
    if i < cells.len() {
        lemma_disabled(c, i + 1);
        lemma_sound_cell(c, cells[i]@);
    }
}

proof fn lemma_overlap(c: Config, i: int)
    requires
        0 <= i,
    ensures
        config::overlap_fault(c.markets.disabled_cells@, c.exits.cells@, i) is None
            <==> forall|k: int, j: int|
            i <= k < c.markets.disabled_cells@.len() && 0 <= j < c.exits.cells@.len() ==> (
            #[trigger] c.exits.cells@[j]).cell@ != (#[trigger] c.markets.disabled_cells@[k])@,
    decreases c.markets.disabled_cells@.len() - i,
{
    let cells = c.markets.disabled_cells@;
    if i < cells.len() {
        lemma_overlap(c, i + 1);
        lemma_no_rule(c.exits.cells@, cells[i]@);
    }
}

/// A configuration is accepted if and only if it keeps every rule.
#[verifier::rlimit(40)]
pub proof fn law_accepted_configurations_keep_every_rule(c: Config)
    ensures
        config::fault_of(c) is None <==> keeps_every_rule(c),
{
    lemma_base(c);
    lemma_exits(c, 0);
    lemma_disabled(c, 0);
    lemma_overlap(c, 0);
    law_the_second_strategy_is_sound(c.v2);
    let r = base_rules(c);
    if config::base_fault(c) is None {
        assert forall|k: int| 0 <= k < 17 implies #[trigger] r[k] by {}
    }
    if forall|k: int| 0 <= k < 17 ==> #[trigger] base_rules(c)[k] {
        assert(r[0] && r[1] && r[2] && r[3] && r[4] && r[5] && r[6] && r[7] && r[8] && r[9] && r[10]
            && r[11] && r[12] && r[13] && r[14] && r[15] && r[16]);
        assert(config::base_fault(c) is None);
    }
}

/// A cell that is reported is one that is listed and has no sound name: of the cells
/// with rules the first, and a retired one only where those are sound. A retired cell
/// that is reported for its rule has one.
pub proof fn law_faults_come_in_their_order(c: Config)
    ensures
        ({
            let f = config::fault_of(c);
            &&& f matches Some(FaultV::RetiredWithRule { cell }) ==> exists|i: int, j: int|
                0 <= i < c.markets.disabled_cells@.len() && 0 <= j < c.exits.cells@.len() && (
                #[trigger] c.exits.cells@[j]).cell@ == cell && (
                #[trigger] c.markets.disabled_cells@[i])@ == cell
            &&& f matches Some(FaultV::Cell { layer, cell, fault }) ==> !sound_cell(c, cell)
                && config::name_fault(cell, c.markets.assets@, c.markets.intervals@) == Some(fault)
                && match layer {
                CellLayer::ExitsCells => exists|i: int|
                    0 <= i < c.exits.cells@.len() && (#[trigger] c.exits.cells@[i]).cell@ == cell
                        && forall|k: int|
                        0 <= k < i ==> sound_cell(c, (#[trigger] c.exits.cells@[k]).cell@)
                            && sound_rule(c.exits.cells@[k].rule),
                CellLayer::DisabledCells => exists|i: int|
                    0 <= i < c.markets.disabled_cells@.len() && (
                    #[trigger] c.markets.disabled_cells@[i])@ == cell && forall|k: int|
                        0 <= k < c.exits.cells@.len() ==> sound_cell(
                            c,
                            (#[trigger] c.exits.cells@[k]).cell@,
                        ) && sound_rule(c.exits.cells@[k].rule),
            }
        }),
{
    let f = config::fault_of(c);
    law_the_second_strategy_is_sound(c.v2);
    lemma_exits(c, 0);
    lemma_first_exit(c, 0);
    lemma_first_disabled(c, 0);
    lemma_first_overlap(c, 0);
}

proof fn lemma_first_exit(c: Config, i: int)
    requires
        0 <= i,
    ensures
        config::exits_fault(c.exits.cells@, c.markets.assets@, c.markets.intervals@, i) matches Some(f)
            ==> match f {
            FaultV::Cell { layer, cell, fault } => layer == CellLayer::ExitsCells && !sound_cell(c, cell)
                && config::name_fault(cell, c.markets.assets@, c.markets.intervals@) == Some(fault)
                && exists|k: int|
                i <= k < c.exits.cells@.len() && (#[trigger] c.exits.cells@[k]).cell@ == cell
                    && forall|m: int|
                    i <= m < k ==> sound_cell(c, (#[trigger] c.exits.cells@[m]).cell@)
                        && sound_rule(c.exits.cells@[m].rule),
            FaultV::F6YSec { .. } => true,
            FaultV::SmartXPct { .. } => true,
            FaultV::SmartYSec { .. } => true,
            FaultV::B3Delta { .. } => true,
            _ => false,
        },
    decreases c.exits.cells@.len() - i,
{
    let cells = c.exits.cells@;
    if i < cells.len() {
        lemma_sound_cell(c, cells[i].cell@);
        law_rules_have_sound_parameters(cells[i].cell@, cells[i].rule);
        lemma_first_exit(c, i + 1);
        let rest = config::exits_fault(cells, c.markets.assets@, c.markets.intervals@, i + 1);
        if config::name_fault(cells[i].cell@, c.markets.assets@, c.markets.intervals@) is Some {
            assert(cells[i].cell@ == cells[i].cell@);
        } else if config::rule_fault(cells[i].cell@, cells[i].rule) is None {
            if let Some(FaultV::Cell { layer, cell, fault }) = rest {
                let k = choose|k: int|
                    i + 1 <= k < cells.len() && (#[trigger] cells[k]).cell@ == cell && forall|m: int|
                        i + 1 <= m < k ==> sound_cell(c, (#[trigger] cells[m]).cell@) && sound_rule(
                            cells[m].rule,
                        );
                assert forall|m: int| i <= m < k implies sound_cell(c, (#[trigger] cells[m]).cell@)
                    && sound_rule(cells[m].rule) by {}
                assert(cells[k].cell@ == cell);
            }
        }
    }
}

proof fn lemma_first_disabled(c: Config, i: int)
    requires
        0 <= i,
    ensures
        config::disabled_fault(
            c.markets.disabled_cells@,
            c.markets.assets@,
            c.markets.intervals@,
            i,
        ) matches Some(f) ==> match f {
            FaultV::Cell { layer, cell, fault } => layer == CellLayer::DisabledCells && !sound_cell(
                c,
                cell,
            ) && config::name_fault(cell, c.markets.assets@, c.markets.intervals@) == Some(fault)
                && exists|k: int|
                i <= k < c.markets.disabled_cells@.len() && (
                #[trigger] c.markets.disabled_cells@[k])@ == cell,
            _ => false,
        },
    decreases c.markets.disabled_cells@.len() - i,
{
    let cells = c.markets.disabled_cells@;
    if i < cells.len() {
        lemma_sound_cell(c, cells[i]@);
        lemma_first_disabled(c, i + 1);
        assert(cells[i]@ == cells[i]@);
    }
}

proof fn lemma_first_overlap(c: Config, i: int)
    requires
        0 <= i,
    ensures
        config::overlap_fault(c.markets.disabled_cells@, c.exits.cells@, i) matches Some(f) ==> match f {
            FaultV::RetiredWithRule { cell } => exists|k: int, j: int|
                i <= k < c.markets.disabled_cells@.len() && 0 <= j < c.exits.cells@.len() && (
                #[trigger] c.exits.cells@[j]).cell@ == cell && (
                #[trigger] c.markets.disabled_cells@[k])@ == cell,
            _ => false,
        },
    decreases c.markets.disabled_cells@.len() - i,
{
    let cells = c.markets.disabled_cells@;
    if i < cells.len() {
        lemma_no_rule(c.exits.cells@, cells[i]@);
        lemma_first_overlap(c, i + 1);
        if config::rule_of(c.exits.cells@, cells[i]@) is Some {
            let j = choose|j: int|
                0 <= j < c.exits.cells@.len() && (#[trigger] c.exits.cells@[j]).cell@ == cells[i]@;
            assert(cells[i]@ == c.exits.cells@[j].cell@);
        }
    }
}

/// A number is read as it is written.
pub proof fn law_numbers_read_back(n: Num)
    requires
        n matches Num::Finite(d) ==> decimal::valid(d@),
    ensures
        numeral::value(n.text()) == Some(n@),
{
    reveal_strlit("inf");
    reveal_strlit("-inf");
    reveal_strlit("NaN");
    let (inf, nan) = (seq!['i', 'n', 'f'], seq!['N', 'a', 'N']);
    assert("inf"@ =~= inf);
    assert("-inf"@ =~= seq!['-'] + inf);
    assert("NaN"@ =~= nan);
    assert(text::lowered(inf) =~= inf);
    assert(text::lowered(nan) =~= seq!['n', 'a', 'n']);
    match n {
        Num::Finite(d) => {
            let s = decimal::text(d@);
            numerals::law_decimals_read_back(d@);
            numeral::law_numbers_that_fit_are_not_rounded(s);
            let a = decimal::abs(d@.m) as nat;
            let p = decimal::pow10(d@.s) as nat;
            numerals::law_digits_read_back(a / p);
            let first = decimal::digits(a / p)[0];
            assert(text::is_digit(first));
            let word = numeral::unsigned(s);
            assert(word[0] == first) by {
                if d@.m < 0 {
                    assert(s[0] == '-' && s[1] == first);
                } else {
                    assert(s[0] == first);
                }
            }
            let w = text::lowered(word);
            assert(w[0] == first);
            reveal_strlit("infinity");
            reveal_strlit("nan");
            assert("infinity"@[0] == 'i' && "nan"@[0] == 'n' && "inf"@[0] == 'i');
        },
        Num::Infinite { negative } => {
            numerals::law_words_for_numbers(n.text(), inf);
        },
        Num::NotANumber => {
            numerals::law_words_for_numbers(nan, nan);
        },
    }
}

/// What is said of two numbers gives both, the one that is wrong first.
pub proof fn law_messages_give_both_numbers(a: Num, b: Num, markets: MarketsConfig)
    ensures
        gives_both(
            config::fault_message(FaultV::MaxPosition { max: a, base: b }, markets),
            a.text(),
            b.text(),
        ),
        gives_both(
            config::fault_message(FaultV::H2Order { lower: a, upper: b }, markets),
            a.text(),
            b.text(),
        ),
{
    let m = config::fault_message(FaultV::MaxPosition { max: a, base: b }, markets);
    let x = "stakes.max_position_usdc ("@;
    let (y, z) = (") must be >= base_usdc ("@, ")"@);
    assert(m =~= x + a.text() + y + b.text() + z);
    assert(made_of(m, x, a.text(), y, b.text(), z));
    let m = config::fault_message(FaultV::H2Order { lower: a, upper: b }, markets);
    let x = "filters.h2_lower ("@;
    let (y, z) = (") must be < h2_upper ("@, ")"@);
    assert(m =~= x + a.text() + y + b.text() + z);
    assert(made_of(m, x, a.text(), y, b.text(), z));
}

/// The text is made of these five.
pub open spec fn made_of(
    s: Seq<char>,
    x: Seq<char>,
    a: Seq<char>,
    y: Seq<char>,
    b: Seq<char>,
    z: Seq<char>,
) -> bool {
    s == x + a + y + b + z
}

/// The text has both, in this order.
pub open spec fn gives_both(s: Seq<char>, a: Seq<char>, b: Seq<char>) -> bool {
    exists|x: Seq<char>, y: Seq<char>, z: Seq<char>| #[trigger] made_of(s, x, a, y, b, z)
}

/// What is said of a cell, of a rule or of the mode names it.
pub proof fn law_messages_name_the_cell(
    layer: CellLayer,
    cell: Seq<char>,
    fault: CellFaultV,
    markets: MarketsConfig,
    y: i64,
    n: Num,
)
    ensures
        text::occurs(config::fault_message(FaultV::Cell { layer, cell, fault }, markets), cell),
        gives_both(
            config::fault_message(FaultV::F6YSec { cell, y_sec: y }, markets),
            cell,
            text::signed_digits(y as int),
        ),
        gives_both(
            config::fault_message(FaultV::SmartYSec { cell, y_sec: y }, markets),
            cell,
            text::signed_digits(y as int),
        ),
        gives_both(
            config::fault_message(FaultV::SmartXPct { cell, x_pct: n }, markets),
            cell,
            n.text(),
        ),
        gives_both(
            config::fault_message(FaultV::B3Delta { cell, delta: n }, markets),
            cell,
            n.text(),
        ),
        text::occurs(config::fault_message(FaultV::RetiredWithRule { cell }, markets), cell),
        text::occurs(config::fault_message(FaultV::Mode { mode: cell }, markets), cell),
        text::occurs(config::fault_message(FaultV::EdgeMin { edge_min: n }, markets), n.text()),
{
    let name = layer.name();
    match fault {
        CellFaultV::Parts { n } => {
            lemma_has(
                name + ": '"@,
                cell,
                "' must be '<ASSET>:<INTERVAL>' (one colon, exactly two parts); got "@
                    + decimal::digits(n) + " parts"@,
                config::cell_message(layer, cell, fault, markets),
            );
        },
        CellFaultV::EmptyHalf => {
            lemma_has(
                name + ": '"@,
                cell,
                "' has an empty asset or interval half"@,
                config::cell_message(layer, cell, fault, markets),
            );
        },
        CellFaultV::UnknownAsset { asset } => {
            lemma_has(
                name + ": unknown asset '"@ + asset + "' in '"@,
                cell,
                "' (not in markets.assets = "@ + config::list_text(markets.assets@) + ")"@,
                config::cell_message(layer, cell, fault, markets),
            );
        },
        CellFaultV::UnknownInterval { interval } => {
            lemma_has(
                name + ": unknown interval '"@ + interval + "' in '"@,
                cell,
                "' (not in markets.intervals = "@ + config::list_text(markets.intervals@) + ")"@,
                config::cell_message(layer, cell, fault, markets),
            );
        },
    }
    lemma_rule_message(cell, "f6_only.y_sec must be > 0, got "@, text::signed_digits(y as int));
    lemma_rule_message(cell, "smart.y_sec must be > 0, got "@, text::signed_digits(y as int));
    lemma_rule_message(cell, "smart.x_pct must be in (0.0, 100.0], got "@, n.text());
    lemma_rule_message(cell, "b3_maker.delta must be in (0.0, 1.0), got "@, n.text());
    let retired = config::fault_message(FaultV::RetiredWithRule { cell }, markets);
    lemma_has("cell '"@, cell, retired.skip(("cell '"@ + cell).len() as int), retired);
    lemma_has(
        "mode.default must be 'paper' or 'live', got '"@,
        cell,
        "'"@,
        config::fault_message(FaultV::Mode { mode: cell }, markets),
    );
    lemma_has(
        "v2.edge_min must be in (0.0, 1.0), got "@,
        n.text(),
        Seq::empty(),
        config::fault_message(FaultV::EdgeMin { edge_min: n }, markets),
    );
}

proof fn lemma_has(a: Seq<char>, word: Seq<char>, b: Seq<char>, s: Seq<char>)
    requires
        s =~= a + word + b,
    ensures
        text::occurs(s, word),
{
    assert(s.subrange(a.len() as int, a.len() + word.len() as int) =~= word);
    assert(text::occurs_at(s, word, a.len() as int));
}

proof fn lemma_rule_message(cell: Seq<char>, rule: Seq<char>, value: Seq<char>)
    ensures
        gives_both(config::rule_message(cell, rule, value), cell, value),
{
    let m = config::rule_message(cell, rule, value);
    let (x, y) = ("exits.cells['"@, "']: "@ + rule);
    assert(m =~= x + cell + y + value + Seq::<char>::empty());
    assert(made_of(m, x, cell, y, value, Seq::empty()));
}

/// The defaults for intervals of fifteen minutes, each by itself.
pub proof fn law_the_defaults_are_these(c: Interval15mCfg, cal_z: Seq<Num>, cal_w: Seq<Num>)
    ensures
        c.is_default(cal_z, cal_w) <==> {
            &&& c.enabled == false && c.book_unmoved_gate == true
            &&& is_hundredths(c.z_min, 70) && is_hundredths(c.edge_min, 6)
            &&& is_hundredths(c.max_ask, 70) && is_hundredths(c.min_ask, 30)
            &&& is_hundredths(c.edge_ref, 8)
            &&& (c.vol_cap matches Num::Finite(d) && d@.m == 1 && d@.s == 0)
            &&& (c.dvr_floor matches Num::Finite(d) && d@.m == 2 && d@.s == 1)
            &&& (c.disp_floor_bps matches Num::Finite(d) && d@.m == 0 && d@.s == 0)
            &&& (c.vol60_floor matches Num::Finite(d) && d@.m == 0 && d@.s == 0)
            &&& c.late_entry_max_ttl_s == 540 && c.min_ttl_s == 30 && c.vol_lookback_s == 120
            &&& c.recal_capacity == 300 && c.recal_warmup == 50
            &&& c.recal_path@ == "data/v2/recal_15m.json"@
            &&& c.cal_z@ == cal_z && c.cal_w@ == cal_w
        },
{
}

/// The number is so many hundredths, with two places.
pub open spec fn is_hundredths(n: Num, m: int) -> bool {
    n matches Num::Finite(d) && d@.m == m && d@.s == 2
}

} // verus!
