//! The names of filters, policies and reasons, and the words of refusals.

use crate::b3_maker::{self, PostV};
use crate::backtest::book;
use crate::backtest::entry_filter::{self, EntryFilter};
use crate::backtest::exits::{self, ExitVariant};
use crate::backtest::merge::{self, StreamingMerger, TimedEvent};
use crate::backtest::metrics;
use crate::backtest::peak::{self, CellPeaks, PeakReport, PeakStats};
use crate::capa_b;
use crate::config::{self, FaultV, MarketsConfig, Num, NumV};
use crate::decimal::{self, Dec, DecV};
use crate::json;
use crate::laws::peaks;
use crate::numeral;
use crate::text;
use vstd::prelude::*;

verus! {

/// The filter that a short label of one letter and one digit names.
pub open spec fn filter_at(group: char, n: char) -> Option<EntryFilter> {
    if group == 'a' {
        if n == '0' {
            Some(EntryFilter::Baseline)
        } else if n == '1' {
            Some(EntryFilter::BpsThreshold { min_abs_bps: 6_000_000 })
        } else if n == '2' {
            Some(EntryFilter::BpsThreshold { min_abs_bps: 7_000_000 })
        } else if n == '3' {
            Some(EntryFilter::BpsThreshold { min_abs_bps: 8_000_000 })
        } else {
            None
        }
    } else if group == 'b' {
        if n == '1' {
            Some(EntryFilter::NoOpposite)
        } else if n == '2' {
            Some(EntryFilter::ReglaCMarker)
        } else {
            None
        }
    } else if group == 'c' {
        if n == '1' {
            Some(
                EntryFilter::AsymmetricBps {
                    min_abs_bps: 5_000_000,
                    opposite_min_abs_bps: 8_000_000,
                },
            )
        } else if n == '2' {
            Some(
                EntryFilter::AsymmetricBps {
                    min_abs_bps: 5_000_000,
                    opposite_min_abs_bps: 7_000_000,
                },
            )
        } else if n == '3' {
            Some(
                EntryFilter::AsymmetricBps {
                    min_abs_bps: 5_000_000,
                    opposite_min_abs_bps: 10_000_000,
                },
            )
        } else {
            None
        }
    } else if group == 'd' {
        if n == '0' {
            Some(EntryFilter::DcaUnlimited)
        } else if n == '1' {
            Some(EntryFilter::DcaImprovingPrice)
        } else if n == '3' {
            Some(EntryFilter::NoDca)
        } else if n == '4' {
            Some(EntryFilter::DcaCap { max: 3 })
        } else {
            None
        }
    } else {
        None
    }
}

proof fn lemma_labels()
    ensures
        "a0"@ == seq!['a', '0'],
        "a1"@ == seq!['a', '1'],
        "a2"@ == seq!['a', '2'],
        "a3"@ == seq!['a', '3'],
        "b1"@ == seq!['b', '1'],
        "b2"@ == seq!['b', '2'],
        "c1"@ == seq!['c', '1'],
        "c2"@ == seq!['c', '2'],
        "c3"@ == seq!['c', '3'],
        "d0"@ == seq!['d', '0'],
        "d1"@ == seq!['d', '1'],
        "d3"@ == seq!['d', '3'],
        "d4"@ == seq!['d', '4'],
        "d2a"@ == seq!['d', '2', 'a'],
        "d2b"@ == seq!['d', '2', 'b'],
        "split_dca"@ == seq!['s', 'p', 'l', 'i', 't', '_', 'd', 'c', 'a'],
{
    reveal_strlit("a0");
    reveal_strlit("a1");
    reveal_strlit("a2");
    reveal_strlit("a3");
    reveal_strlit("b1");
    reveal_strlit("b2");
    reveal_strlit("c1");
    reveal_strlit("c2");
    reveal_strlit("c3");
    reveal_strlit("d0");
    reveal_strlit("d1");
    reveal_strlit("d3");
    reveal_strlit("d4");
    reveal_strlit("d2a");
    reveal_strlit("d2b");
    reveal_strlit("split_dca");
    assert("a0"@ =~= seq!['a', '0']);
    assert("a1"@ =~= seq!['a', '1']);
    assert("a2"@ =~= seq!['a', '2']);
    assert("a3"@ =~= seq!['a', '3']);
    assert("b1"@ =~= seq!['b', '1']);
    assert("b2"@ =~= seq!['b', '2']);
    assert("c1"@ =~= seq!['c', '1']);
    assert("c2"@ =~= seq!['c', '2']);
    assert("c3"@ =~= seq!['c', '3']);
    assert("d0"@ =~= seq!['d', '0']);
    assert("d1"@ =~= seq!['d', '1']);
    assert("d3"@ =~= seq!['d', '3']);
    assert("d4"@ =~= seq!['d', '4']);
    assert("d2a"@ =~= seq!['d', '2', 'a']);
    assert("d2b"@ =~= seq!['d', '2', 'b']);
    assert("split_dca"@ =~= seq!['s', 'p', 'l', 'i', 't', '_', 'd', 'c', 'a']);
}

/// A label of two characters names the filter of its letter and its digit, and none where
/// there is no such filter.
#[verifier::rlimit(40)]
pub proof fn law_short_labels_name_filters(group: char, n: char)
    ensures
        entry_filter::labelled(seq![group, n]) == filter_at(group, n),
{
    lemma_labels();
    let s = seq![group, n];
    assert(s.len() == 2 && s[0] == group && s[1] == n);
    assert(forall|a: char, b: char| #[trigger] seq![a, b] == s ==> a == group && b == n) by {
        assert forall|a: char, b: char| #[trigger] seq![a, b] == s implies a == group && b == n by {
            assert(seq![a, b][0] == a && seq![a, b][1] == b);
        }
    }
    assert("d2a"@.len() == 3 && "d2b"@.len() == 3 && "split_dca"@.len() == 9);
}

/// Three labels are longer, and no other text is a label.
pub proof fn law_longer_labels_name_filters(s: Seq<char>)
    requires
        s.len() != 2,
    ensures
        ({
            let r = entry_filter::labelled(s);
            &&& s == seq!['d', '2', 'a'] <==> r == Some(EntryFilter::DcaConfirmingUnderlying)
            &&& s == seq!['d', '2', 'b'] <==> r == Some(EntryFilter::DcaConfirmingAsk)
            &&& s == seq!['s', 'p', 'l', 'i', 't', '_', 'd', 'c', 'a'] ==> (r matches Some(
                EntryFilter::SplitDcaByInterval { five_min, fifteen_min },
            ) && *five_min == EntryFilter::DcaUnlimited && *fifteen_min == (EntryFilter::DcaCap {
                max: 3,
            }))
            &&& s != seq!['d', '2', 'a'] && s != seq!['d', '2', 'b'] && s != seq![
                's',
                'p',
                'l',
                'i',
                't',
                '_',
                'd',
                'c',
                'a',
            ] ==> r is None
        }),
{
    lemma_labels();
    assert("d2a"@[2] == 'a' && "d2b"@[2] == 'b');
    assert("split_dca"@.len() == 9);
}

/// A threshold is written in whole basis points: the nearest, and the even one where two
/// are equally near.
pub proof fn law_thresholds_are_written_whole(n: int)
    requires
        n >= 0,
    ensures
        ({
            let w = entry_filter::even_whole(n) as int;
            &&& 2 * n - 1_000_000 <= 2 * (w * 1_000_000) <= 2 * n + 1_000_000
            &&& 2 * (w * 1_000_000) == 2 * n + 1_000_000 || 2 * (w * 1_000_000) == 2 * n - 1_000_000
                ==> w % 2 == 0
        }),
{
}

/// The names of the filters, with their parameters.
pub proof fn law_filters_have_names(a: u64, b: u64, f: EntryFilter, g: EntryFilter)
    ensures
        ({
            let name = |x: EntryFilter| entry_filter::filter_name(x);
            let whole = |n: u64| decimal::digits(entry_filter::even_whole(n as int));
            &&& name(EntryFilter::Baseline) == "a0_baseline"@
            &&& name(EntryFilter::BpsThreshold { min_abs_bps: a }) == "bps_"@ + whole(a)
            &&& name(EntryFilter::NoOpposite) == "b1_no_opposite"@
            &&& name(EntryFilter::ReglaCMarker) == "b2_regla_c"@
            &&& name(
                EntryFilter::AsymmetricBps { min_abs_bps: a, opposite_min_abs_bps: b },
            ) == "asym_b"@ + whole(a) + "_opp"@ + whole(b)
            &&& name(EntryFilter::DcaUnlimited) == "d0_dca_unlimited"@
            &&& name(EntryFilter::DcaImprovingPrice) == "d1_dca_improving_price"@
            &&& name(EntryFilter::DcaConfirmingUnderlying) == "d2a_dca_confirming_underlying"@
            &&& name(EntryFilter::DcaConfirmingAsk) == "d2b_dca_confirming_ask"@
            &&& name(EntryFilter::NoDca) == "d3_no_dca"@
            &&& name(
                EntryFilter::SplitDcaByInterval { five_min: Box::new(f), fifteen_min: Box::new(g) },
            ) == "split_dca_5m="@ + name(f) + "_15m="@ + name(g)
        }),
{
}

/// A number in a policy's name is the nearest whole one, halves away from zero, and the
/// last there is of 64 bits where it does not fit. What is not a number is written as 0.
pub proof fn law_names_have_whole_numbers(d: DecV, k: int)
    ensures
        ({
            let (u, w) = (numeral::signed_units(d, k), exits::whole_of(d, k));
            &&& -0x8000_0000_0000_0000 <= u <= 0x7fff_ffff_ffff_ffff ==> w == u
            &&& u > 0x7fff_ffff_ffff_ffff ==> w == 0x7fff_ffff_ffff_ffff
            &&& u < -0x8000_0000_0000_0000 ==> w == -0x8000_0000_0000_0000
            &&& exits::whole_of_number(NumV::Finite(d), k) == w
        }),
        exits::whole_of_number(NumV::NotANumber, k) == 0,
        exits::whole_of_number(NumV::Infinite { negative: false }, k) == 0x7fff_ffff_ffff_ffff,
        exits::whole_of_number(NumV::Infinite { negative: true }, k) == -0x8000_0000_0000_0000,
{
}

/// Two digits at least: a zero in front of one digit, and nothing in front of more.
pub proof fn law_two_digits_at_least(n: nat, z: int)
    ensures
        n < 10 ==> exits::two_digits(n) == seq!['0'] + decimal::digits(n),
        n >= 10 ==> exits::two_digits(n) == decimal::digits(n),
        0 <= z < 10 ==> exits::two_signed_digits(z) == seq!['0'] + decimal::digits(z as nat),
        z >= 10 ==> exits::two_signed_digits(z) == decimal::digits(z as nat),
        z < 0 ==> exits::two_signed_digits(z) == seq!['-'] + decimal::digits((-z) as nat),
        z >= 0 ==> text::signed_digits(z) == decimal::digits(z as nat),
        z < 0 ==> text::signed_digits(z) == seq!['-'] + decimal::digits((-z) as nat),
{
    reveal_strlit("0");
    reveal_strlit("-");
    assert("0"@ =~= seq!['0']);
    assert("-"@ =~= seq!['-']);
}

/// The names of the policies, with their parameters.
pub proof fn law_policies_have_names(tp_pct: u64, x: Dec, z: Dec, y_sec: i64, s: Num)
    ensures
        ExitVariant::Baseline.name() == "baseline_time_exit"@,
        ExitVariant::Peak.name() == "peak_opportunity"@,
        (ExitVariant::FirstTouch { tp_pct }).name() == "first_touch_tp_"@ + exits::two_digits(
            tp_pct as nat,
        ) + "pct"@,
        (ExitVariant::Smart { x_pct: x, y_sec }).name() == "smart_x"@ + exits::two_signed_digits(
            exits::whole_of(x@, 1),
        ) + "_y"@ + text::signed_digits(y_sec as int) + "s"@,
        (ExitVariant::Trailing { z_pct: z }).name() == "trailing_z"@ + text::signed_digits(
            exits::whole_of(z@, 1),
        ) + "pct"@,
        (ExitVariant::SpreadFilteredTrailing { z_pct: z, max_spread: s }).name() == "strail_z"@
            + text::signed_digits(exits::whole_of(z@, 1)) + "_s"@ + text::signed_digits(
            exits::whole_of_number(s@, 100),
        ),
        (ExitVariant::TimeCappedTrailing { x_pct: x, z_pct: z }).name() == "ctrail_x"@
            + text::signed_digits(exits::whole_of(x@, 1)) + "_z"@ + text::signed_digits(
            exits::whole_of(z@, 1),
        ) + "pct"@,
        (ExitVariant::F6Only { y_sec }).name() == "f6only_y"@ + text::signed_digits(y_sec as int)
            + "s"@,
{
}

/// An order is posted where success is reported with an id that is not empty. Success
/// without one is an error, and a refusal is one by its message, unless that says that
/// the order would have crossed.
pub proof fn law_posted_orders_have_an_id(
    order_id: Option<Seq<char>>,
    error_msg: Option<Seq<char>>,
)
    ensures
        ({
            let ok = b3_maker::post_outcome(true, order_id, error_msg);
            let bad = b3_maker::post_outcome(false, order_id, error_msg);
            let message = match error_msg {
                Some(m) => m,
                None => Seq::<char>::empty(),
            };
            &&& ok matches PostV::Posted { order_id: id } ==> order_id == Some(id) && id.len() > 0
            &&& ok is Posted <==> order_id is Some && order_id->0.len() > 0
            &&& ok !is Posted ==> ok is RealError
            &&& b3_maker::says_crossable(message) <==> bad is RejectedCrossable
            &&& !b3_maker::says_crossable(message) <==> bad == (PostV::RealError { text: message })
        }),
{
}

/// What is said of each rule for the sections.
pub proof fn law_what_is_said_of_the_sections(markets: MarketsConfig)
    ensures
        ({
            let said = |f: FaultV| config::fault_message(f, markets);
            &&& said(FaultV::BaseUsdc) == "stakes.base_usdc must be > 0"@
            &&& said(FaultV::MaxOpenPositions) == "stakes.max_open_positions must be >= 1"@
            &&& said(FaultV::PaperInitial) == "stakes.paper_initial_usdc must be > 0"@
            &&& said(FaultV::H2LowerRange) == "filters.h2_lower must be in [0, 1]"@
            &&& said(FaultV::H2UpperRange) == "filters.h2_upper must be in [0, 1]"@
            &&& said(FaultV::NoIntervals) == "markets.intervals must not be empty"@
            &&& said(FaultV::NoAssets) == "markets.assets must not be empty"@
            &&& said(FaultV::BookFreshness) == "gates.book_freshness_ms must be > 0"@
            &&& said(FaultV::BalanceMin) == "gates.balance_min_usdc must be >= 0"@
            &&& said(FaultV::ReconnectAttempts)
                == "connections.reconnect_max_attempts_per_60s must be >= 1"@
            &&& said(FaultV::ConnectTimeout) == "connections.connect_timeout_s must be >= 1"@
            &&& said(FaultV::GammaUrl) == "connections.polymarket_gamma_url must not be empty"@
            &&& said(FaultV::DiscoveryLookahead) == "markets.discovery_lookahead must be >= 0"@
            &&& said(FaultV::DiscoveryRefresh) == "markets.discovery_refresh_secs must be >= 1"@
            &&& said(FaultV::VolCap) == "v2.vol_cap must be > 0"@
            &&& said(FaultV::DvrFloor) == "v2.dvr_floor must be >= 0"@
            &&& said(FaultV::EdgeRef) == "v2.edge_ref must be > 0"@
            &&& said(FaultV::MinTtl) == "v2.min_ttl_s must be > 0"@
            &&& said(FaultV::RecalCapacity) == "v2.recal_capacity must be >= 1"@
        }),
{
}

/// A list is written in brackets, each name in quotes, with commas between them.
pub proof fn law_lists_are_written_in_brackets(names: Seq<String>, name: String)
    requires
        names.len() > 0,
    ensures
        config::list_text(names) == "["@ + config::list_items(names) + "]"@,
        config::list_items(Seq::empty()) == Seq::<char>::empty(),
        config::list_items(seq![name]) == "\""@ + name@ + "\""@,
        config::list_items(names.push(name)) == config::list_items(names) + ", \""@ + name@
            + "\""@,
{
    assert(names.push(name).drop_last() =~= names);
}

/// The levels of a side from the lowest to the highest: every one once, with its size.
pub proof fn law_ladders_have_every_level(
    ladder: Seq<(u32, Num)>,
    levels: Map<u32, Num>,
    key: u32,
)
    requires
        book::is_ladder(ladder, levels),
    ensures
        levels.contains_key(key) <==> exists|i: int|
            0 <= i < ladder.len() && (#[trigger] ladder[i]).0 == key,
        forall|i: int| 0 <= i < ladder.len() ==> levels[(#[trigger] ladder[i]).0] == ladder[i].1,
        forall|i: int, j: int|
            0 <= i < j < ladder.len() ==> (#[trigger] ladder[i]).0 < (#[trigger] ladder[j]).0,
{
    if levels.contains_key(key) {
        assert(book::in_ladder(ladder, key));
    }
}

/// A cell is in the report where a lot of it has a peak, and nowhere else.
pub proof fn law_the_report_has_every_cell(
    r: PeakReport,
    stats: Seq<PeakStats>,
    name: Seq<char>,
)
    requires
        peak::is_report(r, stats),
    ensures
        (exists|i: int| 0 <= i < r.by_cell@.len() && (#[trigger] r.by_cell@[i]).0@ == name)
            <==> exists|i: int|
            0 <= i < stats.len() && peaks::has_peak(#[trigger] stats[i], Some(name)),
{
    peaks::law_cells_with_a_peak_are_reported_on(stats, name);
    let names = r.by_cell@.map_values(|c: (String, CellPeaks)| c.0);
    assert(metrics::has_name(names, name) == peak::is_peak_cell(stats, name));
    if metrics::has_name(names, name) {
        let i = choose|i: int| 0 <= i < names.len() && (#[trigger] names[i])@ == name;
        assert(r.by_cell@[i].0@ == name);
    }
    if exists|i: int| 0 <= i < r.by_cell@.len() && (#[trigger] r.by_cell@[i]).0@ == name {
        let i = choose|i: int| 0 <= i < r.by_cell@.len() && (#[trigger] r.by_cell@[i]).0@ == name;
        assert(names[i]@ == name);
    }
}

/// The next stream of a merger is the first whose event comes first among those that are
/// ready.
pub proof fn law_the_next_stream_has_the_first_event(m: StreamingMerger)
    ensures
        match m.next_stream() {
            Some(b) => {
                &&& 0 <= b < m.heads().len() && m.heads()[b] is Some
                &&& forall|i: int|
                    0 <= i < m.heads().len() && (#[trigger] m.heads()[i]) is Some
                        ==> m.heads()[b]->0.recv_ms <= m.heads()[i]->0.recv_ms
                &&& forall|i: int|
                    0 <= i < b && (#[trigger] m.heads()[i]) is Some ==> m.heads()[b]->0.recv_ms
                        < m.heads()[i]->0.recv_ms
            },
            None => forall|i: int| 0 <= i < m.heads().len() ==> (#[trigger] m.heads()[i]) is None,
        },
{
    let streams = m.heads().map_values(|e: Option<TimedEvent>| merge::as_stream(e));
    crate::laws::replays::law_the_earliest_stream_comes_first(streams, streams.len() as int);
    assert forall|i: int| 0 <= i < streams.len() implies ((#[trigger] streams[i]).len() > 0) == (
    m.heads()[i] is Some) && (streams[i].len() > 0 ==> streams[i][0] == m.heads()[i]->0) by {}
    assert forall|i: int| 0 <= i < m.heads().len() implies streams[i] == merge::as_stream(
        #[trigger] m.heads()[i],
    ) by {}
}

/// Values stay what they are where they are taken as plain ones.
pub proof fn law_values_stay_what_they_are(
    n: i64,
    k: usize,
    s: String,
    d: Dec,
    x: Num,
    v: u128,
    e: capa_b::Timed,
)
    ensures
        json::opt_int(Some(n)) == Some(n as int) && json::opt_int(None) is None,
        json::opt_len(Some(k)) == Some(k as nat) && json::opt_len(None) is None,
        json::opt_chars(Some(s)) == Some(s@) && json::opt_chars(None) is None,
        decimal::opt(Some(d)) == Some(d@) && decimal::opt(None) is None,
        config::opt_num(Some(x)) == Some(x@) && config::opt_num(None) is None,
        crate::backtest::position::amount(Some(v)) == Some(v as int),
        crate::backtest::position::amount(None) is None,
        capa_b::opt_event(Some(e)) == Some((e.recv_ms as int, e.ev@)),
        x@ == (match x {
            Num::Finite(d) => NumV::Finite(d@),
            Num::Infinite { negative } => NumV::Infinite { negative },
            Num::NotANumber => NumV::NotANumber,
        }),
{
}

} // verus!
