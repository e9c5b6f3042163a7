//! The entry filters: which signals become lots.

use crate::backtest::entry_filter::{self, Candidate, Direction, EntryFilter};
use crate::backtest::position::CollectedPosition;
use crate::config::Num;
use crate::decimal;
use crate::text;
use vstd::prelude::*;

verus! {

/// The size of a finite move is at least `min` millionths of a basis point.
pub open spec fn at_least_as_large(m: int, s: nat, min: int) -> bool {
    decimal::abs(m) * 1_000_000 >= min * decimal::pow10(s)
}

proof fn lemma_strong(r: Num, min: u64)
    ensures
        r matches Num::Finite(d) ==> (entry_filter::strong(r, min) <==> at_least_as_large(
            d@.m,
            d@.s,
            min as int,
        )),
        r is Infinite ==> entry_filter::strong(r, min),
        r is NotANumber ==> !entry_filter::strong(r, min),
{
    if let Num::Finite(d) = r {
        assert(decimal::pow10(6) == 1_000_000) by {
            reveal_with_fuel(decimal::pow10, 7);
        }
        decimal::lemma_pow10_positive(d@.s);
        let (m, p, n) = (d@.m, decimal::pow10(d@.s), min as int);
        assert((-n) * p == -(n * p)) by (nonlinear_arith);
        assert(n * p >= 0) by (nonlinear_arith)
            requires
                n >= 0,
                p >= 1,
        ;
    }
}

/// A threshold lets a move through exactly where its size, whatever its sign, is at
/// least the limit; an infinite move is large enough, and what is no number is not.
pub proof fn law_a_threshold_looks_at_the_size(
    active: Seq<CollectedPosition>,
    c: Candidate,
    min_abs_bps: u64,
)
    ensures
        ({
            let accepted = entry_filter::accepts(
                EntryFilter::BpsThreshold { min_abs_bps },
                active,
                c,
            );
            match c.ret_bps {
                Num::Finite(d) => accepted <==> at_least_as_large(
                    d@.m,
                    d@.s,
                    min_abs_bps as int,
                ),
                Num::Infinite { .. } => accepted,
                Num::NotANumber => !accepted,
            }
        }),
{
    lemma_strong(c.ret_bps, min_abs_bps);
}

/// A move and the opposite move are treated alike by the filters on the size.
pub proof fn law_thresholds_are_symmetric(
    active: Seq<CollectedPosition>,
    c: Candidate,
    e: Candidate,
    min_abs_bps: u64,
    opposite_min_abs_bps: u64,
)
    requires
        c.ret_bps matches Num::Finite(x) && (e.ret_bps matches Num::Finite(y) && x@.m == -y@.m
            && x@.s == y@.s),
        e == (Candidate { ret_bps: e.ret_bps, ..c }),
    ensures
        entry_filter::accepts(EntryFilter::BpsThreshold { min_abs_bps }, active, c)
            == entry_filter::accepts(EntryFilter::BpsThreshold { min_abs_bps }, active, e),
        entry_filter::accepts(
            EntryFilter::AsymmetricBps { min_abs_bps, opposite_min_abs_bps },
            active,
            c,
        ) == entry_filter::accepts(
            EntryFilter::AsymmetricBps { min_abs_bps, opposite_min_abs_bps },
            active,
            e,
        ),
{
    lemma_strong(c.ret_bps, min_abs_bps);
    lemma_strong(e.ret_bps, min_abs_bps);
    lemma_strong(c.ret_bps, opposite_min_abs_bps);
    lemma_strong(e.ret_bps, opposite_min_abs_bps);
}

/// The lot is on the given side of the candidate's market.
pub open spec fn stands_on(p: CollectedPosition, c: Candidate, side: Seq<char>) -> bool {
    p.asset@ == c.asset && p.interval@ == c.interval && p.epoch == c.epoch && p.direction@ == side
}

/// The word for the side of the candidate.
pub open spec fn side_word(d: Direction) -> Seq<char> {
    match d {
        Direction::Up => seq!['U', 'p'],
        Direction::Down => seq!['D', 'o', 'w', 'n'],
    }
}

/// The word for the other side.
pub open spec fn other_word(d: Direction) -> Seq<char> {
    match d {
        Direction::Up => seq!['D', 'o', 'w', 'n'],
        Direction::Down => seq!['U', 'p'],
    }
}

proof fn lemma_words(d: Direction)
    ensures
        d.name() == side_word(d),
        d.other().name() == other_word(d),
{
    reveal_strlit("Up");
    reveal_strlit("Down");
    assert("Up"@ =~= seq!['U', 'p']);
    assert("Down"@ =~= seq!['D', 'o', 'w', 'n']);
}

proof fn lemma_side(active: Seq<CollectedPosition>, c: Candidate, side: Seq<char>)
    ensures
        entry_filter::side_lots(active, c.asset, c.interval, c.epoch, side) == active.filter(
            |p: CollectedPosition| stands_on(p, c, side),
        ),
    decreases active.len(),
{
    reveal(Seq::filter);
    if active.len() > 0 {
        lemma_side(active.drop_last(), c, side);
    } else {
        assert(active.filter(|p: CollectedPosition| stands_on(p, c, side)) =~= Seq::empty());
    }
}

/// The open lots on a side of a market are those of its asset, interval and beginning
/// that have its direction, in their order.
pub proof fn law_sides_are_the_lots_of_a_market(active: Seq<CollectedPosition>, c: Candidate)
    ensures
        entry_filter::own_side(active, c) == active.filter(
            |p: CollectedPosition| stands_on(p, c, side_word(c.direction)),
        ),
        entry_filter::other_side(active, c) == active.filter(
            |p: CollectedPosition| stands_on(p, c, other_word(c.direction)),
        ),
{
    lemma_words(c.direction);
    lemma_side(active, c, side_word(c.direction));
    lemma_side(active, c, other_word(c.direction));
}

/// Some open lot is on the given side of the candidate's market.
pub open spec fn some_on(active: Seq<CollectedPosition>, c: Candidate, side: Seq<char>) -> bool {
    exists|i: int| 0 <= i < active.len() && stands_on(#[trigger] active[i], c, side)
}

proof fn lemma_some(active: Seq<CollectedPosition>, c: Candidate, side: Seq<char>)
    ensures
        entry_filter::side_lots(active, c.asset, c.interval, c.epoch, side).len() > 0 <==> some_on(
            active,
            c,
            side,
        ),
    decreases active.len(),
{
    if active.len() > 0 {
        let less = active.drop_last();
        lemma_some(less, c, side);
        assert forall|i: int| 0 <= i < less.len() implies less[i] == #[trigger] active[i] by {}
        let n = less.len() as int;
        if some_on(less, c, side) {
            let i = choose|i: int| 0 <= i < less.len() && stands_on(#[trigger] less[i], c, side);
            assert(stands_on(active[i], c, side));
        }
        if some_on(active, c, side) {
            let i = choose|i: int| 0 <= i < active.len() && stands_on(#[trigger] active[i], c, side);
            if i < n {
                assert(stands_on(less[i], c, side));
            } else {
                assert(active[i] == active.last());
            }
        }
        if stands_on(active.last(), c, side) {
            assert(stands_on(active[n], c, side));
        }
    }
}

/// The filter against opposite lots lets a signal through exactly where no lot is open
/// on the other side of its market; the filter against further lots, where none is
/// open on its own.
pub proof fn law_sides_block(active: Seq<CollectedPosition>, c: Candidate)
    ensures
        entry_filter::accepts(EntryFilter::NoOpposite, active, c) <==> !some_on(
            active,
            c,
            other_word(c.direction),
        ),
        entry_filter::accepts(EntryFilter::NoDca, active, c) <==> !some_on(
            active,
            c,
            side_word(c.direction),
        ),
{
    lemma_words(c.direction);
    lemma_some(active, c, side_word(c.direction));
    lemma_some(active, c, other_word(c.direction));
}

/// The asymmetric filter asks for one size, and for the other as well where a lot is
/// open on the other side.
pub proof fn law_opposite_lots_ask_for_more(
    active: Seq<CollectedPosition>,
    c: Candidate,
    min_abs_bps: u64,
    opposite_min_abs_bps: u64,
)
    ensures
        ({
            let accepted = entry_filter::accepts(
                EntryFilter::AsymmetricBps { min_abs_bps, opposite_min_abs_bps },
                active,
                c,
            );
            let against = some_on(active, c, other_word(c.direction));
            match c.ret_bps {
                Num::Finite(d) => accepted <==> at_least_as_large(d@.m, d@.s, min_abs_bps as int)
                    && (against ==> at_least_as_large(d@.m, d@.s, opposite_min_abs_bps as int)),
                Num::Infinite { .. } => accepted,
                Num::NotANumber => accepted <==> !against,
            }
        }),
{
    lemma_strong(c.ret_bps, min_abs_bps);
    lemma_strong(c.ret_bps, opposite_min_abs_bps);
    lemma_words(c.direction);
    lemma_some(active, c, other_word(c.direction));
}

/// A cap counts the open lots on the candidate's own side.
pub proof fn law_caps_count_the_side(active: Seq<CollectedPosition>, c: Candidate, max: usize)
    ensures
        entry_filter::accepts(EntryFilter::DcaCap { max }, active, c) <==> active.filter(
            |p: CollectedPosition| stands_on(p, c, side_word(c.direction)),
        ).len() < max,
{
    law_sides_are_the_lots_of_a_market(active, c);
}

proof fn lemma_member(active: Seq<CollectedPosition>, c: Candidate, side: Seq<char>, i: int)
    requires
        0 <= i < active.len(),
        stands_on(active[i], c, side),
    ensures
        exists|k: int|
            0 <= k < entry_filter::side_lots(active, c.asset, c.interval, c.epoch, side).len()
                && #[trigger] entry_filter::side_lots(active, c.asset, c.interval, c.epoch, side)[k]
                == active[i],
    decreases active.len(),
{
    let lots = entry_filter::side_lots(active, c.asset, c.interval, c.epoch, side);
    let less = active.drop_last();
    let before = entry_filter::side_lots(less, c.asset, c.interval, c.epoch, side);
    if i == less.len() {
        assert(lots[before.len() as int] == active[i]);
    } else {
        assert(less[i] == active[i]);
        lemma_member(less, c, side, i);
        let k = choose|k: int| 0 <= k < before.len() && #[trigger] before[k] == less[i];
        assert(lots[k] == active[i]);
    }
}

proof fn lemma_from(active: Seq<CollectedPosition>, c: Candidate, side: Seq<char>, k: int)
    requires
        0 <= k < entry_filter::side_lots(active, c.asset, c.interval, c.epoch, side).len(),
    ensures
        exists|i: int|
            0 <= i < active.len() && #[trigger] active[i] == entry_filter::side_lots(
                active,
                c.asset,
                c.interval,
                c.epoch,
                side,
            )[k] && stands_on(active[i], c, side),
    decreases active.len(),
{
    let lots = entry_filter::side_lots(active, c.asset, c.interval, c.epoch, side);
    let less = active.drop_last();
    let before = entry_filter::side_lots(less, c.asset, c.interval, c.epoch, side);
    if k < before.len() {
        lemma_from(less, c, side, k);
        let i = choose|i: int|
            0 <= i < less.len() && #[trigger] less[i] == before[k] && stands_on(less[i], c, side);
        assert(active[i] == lots[k]);
    } else {
        assert(active[less.len() as int] == lots[k]);
    }
}

/// The filters on the price let a signal through exactly where it pays less, or more,
/// than every open lot on its own side.
pub proof fn law_prices_are_compared_with_every_lot(active: Seq<CollectedPosition>, c: Candidate)
    ensures
        entry_filter::accepts(EntryFilter::DcaImprovingPrice, active, c) <==> forall|i: int|
            0 <= i < active.len() && stands_on(#[trigger] active[i], c, side_word(c.direction))
                ==> c.entry_price < active[i].entry_price,
        entry_filter::accepts(EntryFilter::DcaConfirmingAsk, active, c) <==> forall|i: int|
            0 <= i < active.len() && stands_on(#[trigger] active[i], c, side_word(c.direction))
                ==> c.entry_price > active[i].entry_price,
{
    lemma_words(c.direction);
    let side = side_word(c.direction);
    let lots = entry_filter::own_side(active, c);
    if entry_filter::accepts(EntryFilter::DcaImprovingPrice, active, c) {
        assert forall|i: int|
            0 <= i < active.len() && stands_on(#[trigger] active[i], c, side) implies c.entry_price
            < active[i].entry_price by {
            lemma_member(active, c, side, i);
            let k = choose|k: int| 0 <= k < lots.len() && #[trigger] lots[k] == active[i];
            assert(c.entry_price < lots[k].entry_price);
        }
    } else {
        let k = choose|k: int|
            0 <= k < lots.len() && !(c.entry_price < (#[trigger] lots[k]).entry_price);
        lemma_from(active, c, side, k);
    }
    if entry_filter::accepts(EntryFilter::DcaConfirmingAsk, active, c) {
        assert forall|i: int|
            0 <= i < active.len() && stands_on(#[trigger] active[i], c, side) implies c.entry_price
            > active[i].entry_price by {
            lemma_member(active, c, side, i);
            let k = choose|k: int| 0 <= k < lots.len() && #[trigger] lots[k] == active[i];
            assert(c.entry_price > lots[k].entry_price);
        }
    } else {
        let k = choose|k: int|
            0 <= k < lots.len() && !(c.entry_price > (#[trigger] lots[k]).entry_price);
        lemma_from(active, c, side, k);
    }
}

/// `a` came before `b`: earlier, or at the same time with the smaller name.
pub open spec fn came_before(a: CollectedPosition, b: CollectedPosition) -> bool {
    a.entry_recv_ms < b.entry_recv_ms || (a.entry_recv_ms == b.entry_recv_ms
        && !text::dictionary_le(b.signal_id@, a.signal_id@))
}

proof fn lemma_first_is_a_lot(lots: Seq<CollectedPosition>)
    requires
        lots.len() > 0,
    ensures
        exists|i: int| 0 <= i < lots.len() && #[trigger] lots[i] == entry_filter::first_lot(lots),
    decreases lots.len(),
{
    if lots.len() == 1 {
        assert(lots[0] == entry_filter::first_lot(lots));
    } else {
        let less = lots.drop_last();
        lemma_first_is_a_lot(less);
        let i = choose|i: int|
            0 <= i < less.len() && #[trigger] less[i] == entry_filter::first_lot(less);
        assert(lots[i] == less[i]);
        assert(lots[less.len() as int] == lots.last());
    }
}

proof fn lemma_first_lot(lots: Seq<CollectedPosition>, k: int)
    requires
        0 <= k < lots.len(),
        forall|j: int| 0 <= j < lots.len() && j != k ==> came_before(lots[k], #[trigger] lots[j]),
    ensures
        entry_filter::first_lot(lots) == lots[k],
    decreases lots.len(),
{
    if lots.len() > 1 {
        let less = lots.drop_last();
        let n = less.len() as int;
        assert forall|j: int| 0 <= j < n implies less[j] == #[trigger] lots[j] by {}
        if k < n {
            assert forall|j: int| 0 <= j < n && j != k implies came_before(
                less[k],
                #[trigger] less[j],
            ) by {
                assert(less[j] == lots[j]);
            }
            lemma_first_lot(less, k);
            assert(came_before(lots[k], lots[n]));
            text::lemma_dictionary_total(lots[k].signal_id@, lots[n].signal_id@);
        } else {
            lemma_first_is_a_lot(less);
            let i = choose|i: int|
                0 <= i < less.len() && #[trigger] less[i] == entry_filter::first_lot(less);
            assert(came_before(lots[k], lots[i]));
        }
    }
}

/// The filter on the underlying compares with the lot that came first on the
/// candidate's side: the candle must have closed above its candle for a bet on a rise,
/// and below it for a bet on a fall.
pub proof fn law_the_underlying_must_go_on(active: Seq<CollectedPosition>, c: Candidate, k: int)
    requires
        ({
            let lots = entry_filter::own_side(active, c);
            &&& 0 <= k < lots.len()
            &&& forall|j: int|
                0 <= j < lots.len() && j != k ==> came_before(lots[k], #[trigger] lots[j])
        }),
    ensures
        ({
            let first = entry_filter::own_side(active, c)[k].trigger_close;
            let accepted = entry_filter::accepts(EntryFilter::DcaConfirmingUnderlying, active, c);
            &&& c.direction == Direction::Up ==> (accepted <==> first.precedes(c.trigger_close))
            &&& c.direction == Direction::Down ==> (accepted <==> c.trigger_close.precedes(first))
        }),
{
    lemma_first_lot(entry_filter::own_side(active, c), k);
}

/// The filter that goes by the interval decides as the filter of the interval does,
/// and lets other intervals through.
pub proof fn law_intervals_have_their_filters(
    active: Seq<CollectedPosition>,
    c: Candidate,
    five: EntryFilter,
    fifteen: EntryFilter,
)
    ensures
        ({
            let accepted = entry_filter::accepts(
                EntryFilter::SplitDcaByInterval {
                    five_min: Box::new(five),
                    fifteen_min: Box::new(fifteen),
                },
                active,
                c,
            );
            &&& c.interval == seq!['5', 'm'] ==> accepted == entry_filter::accepts(five, active, c)
            &&& c.interval == seq!['1', '5', 'm'] ==> accepted == entry_filter::accepts(
                fifteen,
                active,
                c,
            )
            &&& c.interval != seq!['5', 'm'] && c.interval != seq!['1', '5', 'm'] ==> accepted
        }),
{
    reveal_strlit("5m");
    reveal_strlit("15m");
    assert("5m"@ =~= seq!['5', 'm']);
    assert("15m"@ =~= seq!['1', '5', 'm']);
    assert("5m"@.len() != "15m"@.len());
}

/// The filters of no rule let every signal through.
pub proof fn law_no_rule_blocks_nothing(active: Seq<CollectedPosition>, c: Candidate)
    ensures
        entry_filter::accepts(EntryFilter::Baseline, active, c),
        entry_filter::accepts(EntryFilter::ReglaCMarker, active, c),
        entry_filter::accepts(EntryFilter::DcaUnlimited, active, c),
{
}

/// A market begins at the last multiple of its interval: 900 seconds for `15m`, 300
/// for any other.
pub proof fn law_markets_begin_on_the_grid(t: int, interval: Seq<char>)
    ensures
        ({
            let secs = if interval == seq!['1', '5', 'm'] {
                900int
            } else {
                300
            };
            let e = entry_filter::cut(t, entry_filter::interval_len(interval));
            &&& e % secs == 0
            &&& t >= 0 ==> 0 <= t - e < secs
            &&& t < 0 ==> 0 <= e - t < secs
        }),
{
    reveal_strlit("15m");
    assert("15m"@ =~= seq!['1', '5', 'm']);
    if t >= 0 {
        assert((t / 900) * 900 % 900 == 0 && (t / 300) * 300 % 300 == 0);
    } else {
        let n = -t;
        assert((-(n / 900 * 900)) % 900 == 0 && (-(n / 300 * 300)) % 300 == 0);
    }
}

/// Lot `i` is the first of a market that has lots in both directions, in the cell.
pub open spec fn first_of_both(
    ps: Seq<CollectedPosition>,
    i: int,
    cell: Option<(Seq<char>, Seq<char>)>,
) -> bool {
    &&& forall|j: int|
        0 <= j < i ==> !((#[trigger] ps[j]).asset@ == ps[i].asset@ && ps[j].interval@
            == ps[i].interval@ && ps[j].epoch == ps[i].epoch)
    &&& exists|j: int|
        0 <= j < ps.len() && (#[trigger] ps[j]).asset@ == ps[i].asset@ && ps[j].interval@
            == ps[i].interval@ && ps[j].epoch == ps[i].epoch && ps[j].direction@ == seq!['U', 'p']
    &&& exists|j: int|
        0 <= j < ps.len() && (#[trigger] ps[j]).asset@ == ps[i].asset@ && ps[j].interval@
            == ps[i].interval@ && ps[j].epoch == ps[i].epoch && ps[j].direction@ == seq![
            'D',
            'o',
            'w',
            'n',
        ]
    &&& cell matches Some((a, v)) ==> ps[i].asset@ == a && ps[i].interval@ == v
}

/// The markets that were bet on in both directions are counted once each.
pub proof fn law_doubles_are_counted_once(
    ps: Seq<CollectedPosition>,
    n: int,
    cell: Option<(Seq<char>, Seq<char>)>,
)
    requires
        0 <= n <= ps.len(),
    ensures
        entry_filter::doubles(ps, n, cell) == Seq::new(n as nat, |i: int| i).filter(
            |i: int| first_of_both(ps, i, cell),
        ).len(),
    decreases n,
{
    reveal(Seq::filter);
    let all = Seq::new(n as nat, |i: int| i);
    if n > 0 {
        law_doubles_are_counted_once(ps, n - 1, cell);
        assert(all.drop_last() =~= Seq::new((n - 1) as nat, |i: int| i));
        reveal_strlit("Up");
        reveal_strlit("Down");
        assert("Up"@ =~= seq!['U', 'p']);
        assert("Down"@ =~= seq!['D', 'o', 'w', 'n']);
        let k = n - 1;
        assert(all.last() == k);
        assert((entry_filter::stands_for_double(ps, k) && entry_filter::in_cell(ps[k], cell))
            == first_of_both(ps, k, cell)) by {
            assert(forall|j: int|
                0 <= j < ps.len() ==> entry_filter::one_market(#[trigger] ps[j], ps[k]) == (
                ps[j].asset@ == ps[k].asset@ && ps[j].interval@ == ps[k].interval@ && ps[j].epoch
                    == ps[k].epoch));
        }
    }
}

/// The labels of a list are read in their order: blanks between commas are passed
/// over, every label gives its filter, and the first one that is not known is the
/// fault.
pub proof fn law_labels_are_read_in_order(pieces: Seq<Seq<char>>)
    ensures
        ({
            let words = Seq::new(pieces.len(), |i: int| text::trimmed(pieces[i])).filter(
                |w: Seq<char>| w.len() > 0,
            );
            match entry_filter::filters_of(pieces) {
                Ok(v) => v.len() == words.len() && forall|i: int|
                    0 <= i < v.len() ==> entry_filter::labelled(words[i]) == Some(#[trigger] v[i]),
                Err(w) => exists|i: int|
                    0 <= i < words.len() && #[trigger] words[i] == w && entry_filter::labelled(w)
                        is None && forall|j: int|
                        0 <= j < i ==> entry_filter::labelled(#[trigger] words[j]) is Some,
            }
        }),
    decreases pieces.len(),
{
    reveal(Seq::filter);
    let full = |w: Seq<char>| w.len() > 0;
    let all = Seq::new(pieces.len(), |i: int| text::trimmed(pieces[i]));
    let words = all.filter(full);
    if pieces.len() > 0 {
        let less = pieces.drop_last();
        let some = Seq::new(less.len(), |i: int| text::trimmed(less[i]));
        law_labels_are_read_in_order(less);
        assert(all.drop_last() =~= some);
        let earlier = some.filter(full);
        let w = text::trimmed(pieces.last());
        assert(all.last() == w);
        match entry_filter::filters_of(less) {
            Err(e) => {
                let i = choose|i: int|
                    0 <= i < earlier.len() && #[trigger] earlier[i] == e && entry_filter::labelled(e)
                        is None && forall|j: int|
                        0 <= j < i ==> entry_filter::labelled(#[trigger] earlier[j]) is Some;
                assert(words[i] == e);
                assert forall|j: int| 0 <= j < i implies entry_filter::labelled(
                    #[trigger] words[j],
                ) is Some by {
                    assert(words[j] == earlier[j]);
                }
            },
            Ok(v) => {
                if w.len() > 0 {
                    assert(words[earlier.len() as int] == w);
                    match entry_filter::labelled(w) {
                        Some(f) => {
                            let out = v.push(f);
                            assert forall|i: int| 0 <= i < out.len() implies entry_filter::labelled(
                                words[i],
                            ) == Some(#[trigger] out[i]) by {
                                if i < v.len() {
                                    assert(words[i] == earlier[i]);
                                    assert(out[i] == v[i]);
                                }
                            }
                        },
                        None => {
                            assert forall|j: int|
                                0 <= j < earlier.len() implies entry_filter::labelled(
                                #[trigger] words[j],
                            ) is Some by {
                                assert(words[j] == earlier[j]);
                                assert(entry_filter::labelled(earlier[j]) == Some(v[j]));
                            }
                        },
                    }
                }
            },
        }
    }
}

} // verus!
