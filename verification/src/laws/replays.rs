//! A replayed day: its streams, its books, its bets and its lots.

use crate::b3_live::{OpenPosition, Outcome};
use crate::backtest::book::{self, BookSide};
use crate::backtest::day::DayReplay;
use crate::backtest::entry_filter::{self, Direction, EntryFilter};
use crate::backtest::health::{self, StreamHealth};
use crate::backtest::kline;
use crate::backtest::merge::{self, Ev, TimedEvent};
use crate::backtest::position::{self, CollectedPosition};
use crate::backtest::replay::{self, Books, Fire, Replay};
use crate::config::Num;
use crate::decimal;
use crate::laws::books as book_laws;
use crate::laws::filters;
use crate::laws::tallies;
use crate::text;
use vstd::prelude::*;

verus! {

/// A token's book is the first one that is kept under its name.
pub proof fn law_the_first_book_of_a_token_counts(books: Books, token: Seq<char>, i: int)
    requires
        0 <= i < books.len(),
        books[i].0@ == token,
        forall|k: int| 0 <= k < i ==> (#[trigger] books[k]).0@ != token,
    ensures
        replay::book_of(books, token) == Some(books[i].1),
        replay::place_of(books, token) == Some(i),
    decreases books.len(),
{
    let less = books.drop_last();
    if i < less.len() {
        assert(less[i] == books[i]);
        assert forall|k: int| 0 <= k < i implies (#[trigger] less[k]).0@ != token by {
            assert(less[k] == books[k]);
        }
        law_the_first_book_of_a_token_counts(less, token, i);
    } else {
        assert forall|k: int| 0 <= k < less.len() implies (#[trigger] less[k]).0@ != token by {
            assert(less[k] == books[k]);
        }
        law_other_tokens_have_no_book(less, token);
    }
}

/// A token that none is kept of has no book.
pub proof fn law_other_tokens_have_no_book(books: Books, token: Seq<char>)
    requires
        forall|k: int| 0 <= k < books.len() ==> (#[trigger] books[k]).0@ != token,
    ensures
        replay::book_of(books, token) is None,
        replay::place_of(books, token) is None,
    decreases books.len(),
{
    if books.len() > 0 {
        let less = books.drop_last();
        assert forall|k: int| 0 <= k < less.len() implies (#[trigger] less[k]).0@ != token by {
            assert(less[k] == books[k]);
        }
        law_other_tokens_have_no_book(less, token);
    }
}

/// A lot that is closed has what a sale of all of it into its token's book would bring
/// then; a lot whose token has no book, or one that does not take all of it, has nothing.
/// Nothing else of the lot changes.
pub proof fn law_closed_lots_have_their_last_price(
    books: Books,
    lots: Seq<CollectedPosition>,
    i: int,
)
    requires
        0 <= i < lots.len(),
    ensures
        ({
            let after = replay::all_stamped(books, lots);
            let (p, q) = (lots[i], after[i]);
            let value = match replay::book_of(books, p.token@) {
                Some(b) => book::executable(book::ladder_of(b.bids@), p.shares),
                None => None,
            };
            &&& after.len() == lots.len()
            &&& q == (CollectedPosition { time_exit_bid: q.time_exit_bid, ..p })
            &&& value is None <==> q.time_exit_bid is None
            &&& value matches Some(v) ==> q.time_exit_bid == Some(v as u128)
        }),
{
}

/// A signal is named by its asset, its second, its interval and its direction, with
/// dashes between them.
pub proof fn law_signals_are_named(asset: Seq<char>, t: int, interval: Seq<char>)
    ensures
        ({
            let front = asset.push('-') + text::signed_digits(t).push('-') + interval.push('-');
            &&& replay::signal_name(asset, t, interval, Direction::Up) == front + seq!['U', 'p']
            &&& replay::signal_name(asset, t, interval, Direction::Down) == front + seq![
                'D',
                'o',
                'w',
                'n',
            ]
        }),
{
    reveal_strlit("-");
    reveal_strlit("Up");
    reveal_strlit("Down");
    let front = asset.push('-') + text::signed_digits(t).push('-') + interval.push('-');
    assert("-"@ =~= seq!['-']);
    assert("Up"@ =~= seq!['U', 'p']);
    assert("Down"@ =~= seq!['D', 'o', 'w', 'n']);
    assert(replay::signal_name(asset, t, interval, Direction::Up) =~= front + seq!['U', 'p']);
    assert(replay::signal_name(asset, t, interval, Direction::Down) =~= front + seq![
        'D',
        'o',
        'w',
        'n',
    ]);
}

/// The lot that a bet opens is of what was bet: on its market, at its price, in its size,
/// from when it was received to the end of its time. It has no samples yet.
pub proof fn law_a_bet_opens_its_lot(
    p: CollectedPosition,
    f: Fire,
    close: Num,
    recv_ms: i64,
    books: Books,
)
    requires
        replay::is_lot_of(p, f, close, recv_ms, books),
    ensures
        p.token@ == f.token@ && p.asset@ == f.asset@ && p.interval@ == f.interval@,
        f.direction == Direction::Up ==> p.direction@ == seq!['U', 'p'],
        f.direction == Direction::Down ==> p.direction@ == seq!['D', 'o', 'w', 'n'],
        p.signal_id@ == replay::signal_name(f.asset@, f.trigger_ts as int, f.interval@, f.direction),
        p.entry_recv_ms == recv_ms,
        p.entry_price == f.fill && p.shares == f.shares,
        p.exit_ts_ms == f.trigger_ts * 1000 + f.hold_s * 1000,
        p.entry_trigger_ts_ms == f.trigger_ts * 1000,
        p.trigger_close == close && p.trigger_ret_bps == f.ret_bps,
        p.maker_fee_bps == f.maker_fee_bps && p.taker_fee_bps == f.taker_fee_bps,
        p.fee_type@ == f.fee_type@,
        p.vol_30m == f.vol_30m && p.vol_60m == f.vol_60m,
        p.trajectory@.len() == 0 && p.trajectory_bbo@.len() == 0,
        p.total_samples == 0 && p.uncoverable_samples == 0 && p.time_exit_bid is None,
        p.binance_close_at_2s is None && p.binance_close_at_5s is None
            && p.binance_close_at_10s is None,
        p.binance_close_at_30s is None && p.binance_close_at_60s is None
            && p.binance_close_at_120s is None,
        replay::book_of(books, f.token@) is None ==> p.obi_top1 is None && p.obi_top3 is None,
        replay::book_of(books, f.token@) matches Some(b) ==> {
            let (bids, asks) = (book::ladder_of(b.bids@), book::ladder_of(b.asks@));
            p.obi_top1 == kline::imbalance(bids, asks, 1) && p.obi_top3 == kline::imbalance(
                bids,
                asks,
                3,
            )
        },
{
    reveal_strlit("Up");
    reveal_strlit("Down");
    assert("Up"@ =~= seq!['U', 'p']);
    assert("Down"@ =~= seq!['D', 'o', 'w', 'n']);
}

/// The market of a bet began with the last full interval before its second.
pub proof fn law_a_bet_is_on_the_running_market(f: Fire, close: Num)
    requires
        f.trigger_ts >= 0,
    ensures
        ({
            let c = replay::candidate(f, close);
            let secs = if f.interval@ == seq!['1', '5', 'm'] {
                900int
            } else {
                300
            };
            &&& c.epoch as int % secs == 0
            &&& c.epoch <= f.trigger_ts < c.epoch + secs
            &&& c.ret_bps == f.ret_bps && c.direction == f.direction && c.trigger_close == close
            &&& c.asset == f.asset@ && c.interval == f.interval@ && c.entry_price == f.fill
        }),
{
    filters::law_markets_begin_on_the_grid(f.trigger_ts as int, f.interval@);
}

/// A bet opens a lot where the filter lets it, and only there; it changes no book, closes
/// no lot, and touches no other.
pub proof fn law_a_bet_needs_the_filter(
    before: Replay,
    after: Replay,
    f: Fire,
    filter: EntryFilter,
    close: Num,
    recv_ms: i64,
    opened: bool,
)
    requires
        replay::fired(before, after, f, filter, close, recv_ms, opened),
    ensures
        after.books == before.books && after.closed == before.closed,
        opened <==> entry_filter::accepts(
            filter,
            before.active.lots@,
            replay::candidate(f, close),
        ),
        !opened ==> after.active.lots@ == before.active.lots@,
        opened ==> exists|p: CollectedPosition| #[trigger]
            replay::is_lot_of(p, f, close, recv_ms, before.books@) && after.active.lots@
                == position::with_lot(before.active.lots@, p),
{
}

/// With an event the lots whose time has come by then are closed, in the order of their
/// signals, at what their books brought before it; the others stay open.
pub proof fn law_lots_are_closed_before_the_event(before: Replay, after: Replay, t: TimedEvent)
    requires
        replay::advanced(before, after, t),
    ensures
        ({
            let due = before.active.lots@.filter(
                |p: CollectedPosition| p.exit_ts_ms <= t.recv_ms,
            );
            let open = before.active.lots@.filter(|p: CollectedPosition| p.exit_ts_ms > t.recv_ms);
            let n = before.closed@.len() as int;
            &&& after.closed@.take(n) == before.closed@
            &&& after.closed@.skip(n) == replay::all_stamped(
                before.books@,
                position::by_signal(due),
            )
            &&& after.active.lots@.len() == open.len()
            &&& replay::after_event(before.books@, open, t, after.books@, after.active.lots@)
        }),
{
    let lots = before.active.lots@;
    book_laws::law_due_lots_are_chosen(lots, t.recv_ms);
    let n = before.closed@.len() as int;
    assert(after.closed@.take(n) =~= before.closed@);
    assert(after.closed@.skip(n) =~= replay::all_stamped(
        before.books@,
        position::by_signal(position::chosen(lots, t.recv_ms, true)),
    ));
}

/// A snapshot replaces the book of its token. The lots get a sample of it where one of
/// that token has shares, and only those of that token.
pub proof fn law_a_snapshot_replaces_the_book(
    books: Books,
    lots: Seq<CollectedPosition>,
    t: TimedEvent,
    new_books: Books,
    new_lots: Seq<CollectedPosition>,
    other: Seq<char>,
    i: int,
)
    requires
        t.ev is BookSnapshot,
        replay::after_event(books, lots, t, new_books, new_lots),
        0 <= i < lots.len(),
    ensures
        ({
            let token = t.ev->BookSnapshot_token@;
            let held = exists|k: int|
                0 <= k < lots.len() && (#[trigger] lots[k]).token@ == token && lots[k].shares > 0;
            let b = replay::book_of(new_books, token);
            &&& b is Some
            &&& b->0.bids@ == book::levels_map(t.ev->bids@)
            &&& b->0.asks@ == book::levels_map(t.ev->asks@)
            &&& b->0.last_update_ms == t.ev->BookSnapshot_ts_ms
            &&& other != token ==> replay::book_of(new_books, other) == replay::book_of(books, other)
            &&& new_lots.len() == lots.len()
            &&& held ==> position::after_book(lots[i], new_lots[i], token, t.recv_ms, b->0)
            &&& !held ==> new_lots[i] == lots[i]
        }),
{
    let token = t.ev->BookSnapshot_token@;
    if replay::holds_some(lots, token) {
        assert(position::after_book(
            lots[i],
            new_lots[i],
            token,
            t.recv_ms,
            replay::book_of(new_books, token)->0,
        ));
    }
}

/// A change of a level changes that level on its side of its token's book, which begins
/// empty where there was none. Every lot of the token gets a sample.
pub proof fn law_a_change_is_of_one_side(
    books: Books,
    lots: Seq<CollectedPosition>,
    t: TimedEvent,
    new_books: Books,
    new_lots: Seq<CollectedPosition>,
    other: Seq<char>,
    i: int,
)
    requires
        t.ev is PriceChange,
        replay::after_event(books, lots, t, new_books, new_lots),
        0 <= i < lots.len(),
    ensures
        ({
            let token = t.ev->PriceChange_token@;
            let (key, size) = (t.ev->key, t.ev->size);
            let (was, b) = (replay::book_of(books, token), replay::book_of(new_books, token));
            let (bids, asks) = match was {
                Some(x) => (x.bids@, x.asks@),
                None => (Map::empty(), Map::empty()),
            };
            &&& b is Some
            &&& b->0.last_update_ms == t.ev->PriceChange_ts_ms
            &&& t.ev->side == BookSide::Bid ==> b->0.asks@ == asks && b->0.bids@
                == book::with_level(bids, key, size)
            &&& t.ev->side == BookSide::Ask ==> b->0.bids@ == bids && b->0.asks@
                == book::with_level(asks, key, size)
            &&& other != token ==> replay::book_of(new_books, other) == replay::book_of(books, other)
            &&& new_lots.len() == lots.len()
            &&& position::after_book(lots[i], new_lots[i], token, t.recv_ms, b->0)
        }),
{
}

/// A candle changes no book. The lots of its asset note its close where it began one of
/// six times after their signal and none was noted; other lots stay as they are.
pub proof fn law_a_candle_is_noted(
    books: Books,
    lots: Seq<CollectedPosition>,
    t: TimedEvent,
    new_books: Books,
    new_lots: Seq<CollectedPosition>,
    i: int,
)
    requires
        t.ev is Kline,
        replay::after_event(books, lots, t, new_books, new_lots),
        0 <= i < lots.len(),
    ensures
        ({
            let (p, q) = (lots[i], new_lots[i]);
            let (at, close) = (t.ev->t_open_ms, t.ev->close);
            let from = p.entry_trigger_ts_ms;
            &&& new_books == books
            &&& new_lots.len() == lots.len()
            &&& p.asset@ != t.ev->asset@ ==> q == p
            &&& p.asset@ == t.ev->asset@ ==> {
                &&& noted(p.binance_close_at_2s, q.binance_close_at_2s, from, 2000, at, close)
                &&& noted(p.binance_close_at_5s, q.binance_close_at_5s, from, 5000, at, close)
                &&& noted(p.binance_close_at_10s, q.binance_close_at_10s, from, 10000, at, close)
                &&& noted(p.binance_close_at_30s, q.binance_close_at_30s, from, 30000, at, close)
                &&& noted(p.binance_close_at_60s, q.binance_close_at_60s, from, 60000, at, close)
                &&& noted(p.binance_close_at_120s, q.binance_close_at_120s, from, 120000, at, close)
                &&& q == (CollectedPosition {
                    binance_close_at_2s: q.binance_close_at_2s,
                    binance_close_at_5s: q.binance_close_at_5s,
                    binance_close_at_10s: q.binance_close_at_10s,
                    binance_close_at_30s: q.binance_close_at_30s,
                    binance_close_at_60s: q.binance_close_at_60s,
                    binance_close_at_120s: q.binance_close_at_120s,
                    ..p
                })
            }
        }),
{
}

/// A close is noted where none was, at exactly that many milliseconds after the signal.
pub open spec fn noted(
    known: Option<Num>,
    after: Option<Num>,
    from: i64,
    ms: int,
    at: i64,
    close: Num,
) -> bool {
    let none_yet = match known {
        None => true,
        Some(Num::NotANumber) => true,
        _ => false,
    };
    if none_yet && from > 0 && at - from == ms {
        after == Some(close)
    } else {
        after == known
    }
}

/// A lot as the decisions see it has its names and sides, its price in ten-thousandths
/// and its size in millionths, its times, and no maker order.
pub proof fn law_decisions_see_the_lot(r: OpenPosition, p: CollectedPosition)
    requires
        replay::is_position_of(r, p),
    ensures
        r.token_id@ == p.token@ && r.asset@ == p.asset@ && r.interval@ == p.interval@,
        r.signal_id@ == p.signal_id@,
        p.direction@ == seq!['U', 'p'] <==> r.side == Outcome::Up,
        p.direction@ != seq!['U', 'p'] <==> r.side == Outcome::Down,
        r.entry_price@.m == p.entry_price && r.entry_price@.s == 4,
        r.shares@.m == p.shares && r.shares@.s == 6,
        r.opened_at_ms == p.entry_recv_ms,
        r.entry_ts_ms == 0,
        r.maker_exit is None,
        p.exit_ts_ms >= 0 ==> r.exit_ts_s * 1000 <= p.exit_ts_ms < r.exit_ts_s * 1000 + 1000,
        p.exit_ts_ms < 0 ==> r.exit_ts_s * 1000 - 1000 < p.exit_ts_ms <= r.exit_ts_s * 1000,
{
    reveal_strlit("Up");
    assert("Up"@ =~= seq!['U', 'p']);
}

/// The candles that are kept are the last ones, up to the limit.
pub proof fn law_the_last_candles_are_kept(
    buf: Seq<(i64, Num)>,
    cap: usize,
    candle: (i64, Num),
)
    requires
        0 < cap,
        buf.len() <= cap,
    ensures
        ({
            let all = buf.push(candle);
            let kept = kline::pushed(buf, cap, candle);
            &&& all.len() <= cap ==> kept == all
            &&& all.len() > cap ==> kept == all.skip(all.len() - cap)
        }),
{
    let all = buf.push(candle);
    if all.len() > cap {
        assert(kline::pushed(buf, cap, candle) =~= all.skip(1));
    }
}

/// A volatility is taken over the last closes, one more than there are moves, where
/// there are so many and no two neighbours among them are too far apart.
pub proof fn law_the_window_is_the_last_closes(
    buf: Seq<(i64, Num)>,
    n_samples: int,
    max_gap_ms: i64,
)
    requires
        n_samples >= 0,
    ensures
        ({
            let first = buf.len() - n_samples - 1;
            let near = forall|i: int|
                first <= i < buf.len() - 1 ==> (#[trigger] buf[i + 1]).0 - buf[i].0 <= max_gap_ms;
            match kline::window_of(buf, n_samples, max_gap_ms) {
                Some(w) => {
                    &&& first >= 0 && near
                    &&& w.len() == n_samples + 1
                    &&& forall|i: int|
                        0 <= i < w.len() ==> #[trigger] w[i] == buf[first + i].1
                },
                None => first < 0 || !near,
            }
        }),
{
    let first = buf.len() - n_samples - 1;
    if first >= 0 {
        let last = buf.skip(first);
        if kline::gapless(last, max_gap_ms) {
            assert forall|i: int| first <= i < buf.len() - 1 implies (#[trigger] buf[i + 1]).0
                - buf[i].0 <= max_gap_ms by {
                let j = i - first;
                assert(last[j + 1] == buf[i + 1] && last[j] == buf[i]);
            }
        } else {
            let j = choose|j: int|
                0 <= j < last.len() - 1 && (#[trigger] last[j + 1]).0 - last[j].0 > max_gap_ms;
            assert(last[j + 1] == buf[first + j + 1] && last[j] == buf[first + j]);
            assert(buf[(first + j) + 1].0 - buf[first + j].0 > max_gap_ms);
        }
    }
}

/// The sizes of levels add up.
pub proof fn law_sizes_add_up(a: Seq<(u32, Num)>, b: Seq<(u32, Num)>, level: (u32, Num))
    ensures
        kline::size_of(a + b) == kline::size_of(a) + kline::size_of(b),
        kline::size_of(seq![level]) == book::room(level.1),
    decreases b.len(),
{
    assert(seq![level].drop_last() =~= Seq::empty());
    assert(kline::size_of(Seq::empty()) == 0);
    if b.len() == 0 {
        assert(a + b =~= a);
    } else {
        law_sizes_add_up(a, b.drop_last(), level);
        assert((a + b).drop_last() =~= a + b.drop_last());
    }
}

/// An imbalance is what stands on the best bids less what stands on the best asks: of
/// the bids those are the last ones, of the asks the first ones. There is none where a
/// side is empty, where nothing stands there, or where a size is no finite number.
pub proof fn law_an_imbalance_is_of_the_best_levels(
    bids: Seq<(u32, Num)>,
    asks: Seq<(u32, Num)>,
    n: int,
    best_bids: Seq<(u32, Num)>,
    best_asks: Seq<(u32, Num)>,
)
    requires
        n > 0,
        bids.len() <= n ==> best_bids == bids,
        bids.len() > n ==> best_bids == bids.subrange(bids.len() - n, bids.len() as int),
        asks.len() <= n ==> best_asks == asks,
        asks.len() > n ==> best_asks == asks.subrange(0, n),
    ensures
        ({
            let finite = (forall|i: int|
                0 <= i < best_bids.len() ==> (#[trigger] best_bids[i]).1 is Finite) && (
            forall|i: int| 0 <= i < best_asks.len() ==> (#[trigger] best_asks[i]).1 is Finite);
            let (b, a) = (kline::size_of(best_bids), kline::size_of(best_asks));
            let r = kline::imbalance(bids, asks, n);
            &&& r is Some <==> bids.len() > 0 && asks.len() > 0 && finite && b + a > 0
            &&& r matches Some(x) ==> x.net == (b - a) as i128 && x.total == (b + a) as u128
        }),
{
    if bids.len() > n {
        assert(bids.skip(bids.len() - n) =~= best_bids);
    }
    if asks.len() > n {
        assert(asks.take(n) =~= best_asks);
    }
    assert(kline::last_levels(bids, n) == best_bids);
    assert(kline::first_levels(asks, n) == best_asks);
}

/// The candles of two assets are kept, and each candle is kept with those of its own.
pub proof fn law_candles_are_kept_by_asset(
    d: DayReplay,
    asset: Seq<char>,
    candle: (i64, Num),
    other: Seq<char>,
)
    ensures
        d.history(seq!['B', 'T', 'C']) == Some(d.btc.buf@),
        d.history(seq!['E', 'T', 'H']) == Some(d.eth.buf@),
        other != seq!['B', 'T', 'C'] && other != seq!['E', 'T', 'H'] ==> d.history(other) is None,
        other != asset ==> d.with_candle(asset, candle, other) == d.history(other),
        d.history(asset) matches Some(buf) ==> d.with_candle(asset, candle, asset) == Some(
            kline::pushed(buf, 3601, candle),
        ),
        d.history(asset) is None ==> d.with_candle(asset, candle, asset) is None,
{
    reveal_strlit("BTC");
    reveal_strlit("ETH");
    assert("BTC"@ =~= seq!['B', 'T', 'C']);
    assert("ETH"@ =~= seq!['E', 'T', 'H']);
    assert("BTC"@[0] != "ETH"@[0]);
}

/// The stream that comes first has an event; no other stream has an earlier one, and
/// none with a lower number one at the same time. There is none only where all streams
/// are at their end.
pub proof fn law_the_earliest_stream_comes_first(streams: Seq<Seq<TimedEvent>>, n: int)
    requires
        0 <= n <= streams.len(),
    ensures
        match merge::first_stream(streams, n) {
            Some(b) => {
                &&& 0 <= b < n && streams[b].len() > 0
                &&& forall|i: int|
                    0 <= i < n && (#[trigger] streams[i]).len() > 0 ==> streams[b][0].recv_ms
                        <= streams[i][0].recv_ms
                &&& forall|i: int|
                    0 <= i < b && (#[trigger] streams[i]).len() > 0 ==> streams[b][0].recv_ms
                        < streams[i][0].recv_ms
            },
            None => forall|i: int| 0 <= i < n ==> (#[trigger] streams[i]).len() == 0,
        },
    decreases n,
{
    if n > 0 {
        law_the_earliest_stream_comes_first(streams, n - 1);
    }
}

/// The timeline begins with the event that comes first and goes on with the timeline of
/// the rest; it has every event.
pub proof fn law_the_timeline_takes_one_event_at_a_time(streams: Seq<Seq<TimedEvent>>)
    ensures
        match merge::first_stream(streams, streams.len() as int) {
            Some(b) => merge::merged(streams).len() > 0 && merge::merged(streams)[0]
                == streams[b][0] && merge::merged(streams).drop_first() == merge::merged(
                streams.update(b, streams[b].drop_first()),
            ),
            None => merge::merged(streams).len() == 0,
        },
{
    let b = merge::first_stream(streams, streams.len() as int);
    if b is Some {
        let rest = merge::merged(streams.update(b->0, streams[b->0].drop_first()));
        assert((seq![streams[b->0][0]] + rest).drop_first() =~= rest);
    }
}

/// All streams, one behind the other: a further one is put behind them.
pub proof fn law_streams_follow_each_other(streams: Seq<Seq<TimedEvent>>, s: Seq<TimedEvent>)
    ensures
        merge::flat(Seq::empty()) == Seq::<TimedEvent>::empty(),
        merge::flat(streams.push(s)) == merge::flat(streams) + s,
        merge::flat(streams).len() == merge::total_len(streams),
    decreases streams.len(),
{
    assert(streams.push(s).drop_last() =~= streams);
    if streams.len() > 0 {
        law_streams_follow_each_other(streams.drop_last(), s);
    }
}

/// An event out of order is one that is earlier than the one before it, of which the
/// first is `last`.
pub open spec fn falls_back(last: int, s: Seq<TimedEvent>, i: int) -> bool {
    s[i].recv_ms < (if i == 0 {
        last
    } else {
        s[i - 1].recv_ms as int
    })
}

/// The events out of order are counted.
pub proof fn law_events_out_of_order_are_counted(last: int, s: Seq<TimedEvent>, e: TimedEvent)
    ensures
        merge::descents(last, Seq::empty()) == 0,
        merge::descents(last, s.push(e)) == merge::descents(last, s) + (if falls_back(
            last,
            s.push(e),
            s.len() as int,
        ) {
            1nat
        } else {
            0nat
        }),
    decreases s.len(),
{
    let t = s.push(e);
    if s.len() > 0 {
        let now = s[0].recv_ms as int;
        law_events_out_of_order_are_counted(now, s.drop_first(), e);
        assert(t.drop_first() =~= s.drop_first().push(e));
        assert(t[0] == s[0]);
        let u = s.drop_first().push(e);
        let n = s.len() - 1;
        assert(falls_back(now, u, n) == falls_back(last, t, s.len() as int)) by {
            if n > 0 {
                assert(u[n - 1] == t[n]);
            } else {
                assert(t[0].recv_ms == now);
            }
        }
    } else {
        assert(t.drop_first() =~= Seq::empty());
        assert(merge::descents(e.recv_ms as int, Seq::empty()) == 0);
        assert(t[0] == e);
    }
}

/// One more line: it is counted, as one with a time or as one without. Where it has a
/// time, the step from the time before it counts as out of order where it goes back, and
/// as a gap where it is more than a minute.
pub proof fn law_a_line_is_counted(h: StreamHealth, g: StreamHealth, recv: Option<i64>)
    requires
        health::after_line(h, g, recv),
    ensures
        g.date == h.date && g.stream == h.stream && g.file_present == h.file_present,
        g.n_lines == h.n_lines + 1,
        recv is None ==> {
            &&& g.n_skipped == h.n_skipped + 1 && g.n_with_recv_ms == h.n_with_recv_ms
            &&& g.n_out_of_order == h.n_out_of_order && g.n_gaps_over_60s == h.n_gaps_over_60s
            &&& g.max_gap_ms == h.max_gap_ms && g.max_ooo_skew_ms == h.max_ooo_skew_ms
            &&& g.first_recv_ms == h.first_recv_ms && g.last_recv_ms == h.last_recv_ms
        },
        recv matches Some(t) ==> {
            &&& g.n_skipped == h.n_skipped && g.n_with_recv_ms == h.n_with_recv_ms + 1
            &&& g.last_recv_ms == Some(t)
            &&& h.first_recv_ms is None ==> g.first_recv_ms == Some(t)
            &&& h.first_recv_ms is Some ==> g.first_recv_ms == h.first_recv_ms
            &&& h.last_recv_ms is None ==> g.n_out_of_order == h.n_out_of_order
                && g.n_gaps_over_60s == h.n_gaps_over_60s && g.max_gap_ms == h.max_gap_ms
                && g.max_ooo_skew_ms == h.max_ooo_skew_ms
            &&& h.last_recv_ms matches Some(p) ==> {
                &&& t < p ==> g.n_out_of_order == h.n_out_of_order + 1 && g.max_ooo_skew_ms >= p - t
                    && g.max_ooo_skew_ms >= h.max_ooo_skew_ms && (g.max_ooo_skew_ms == p - t
                    || g.max_ooo_skew_ms == h.max_ooo_skew_ms) && g.max_gap_ms == h.max_gap_ms
                    && g.n_gaps_over_60s == h.n_gaps_over_60s
                &&& t >= p ==> g.n_out_of_order == h.n_out_of_order && g.max_ooo_skew_ms
                    == h.max_ooo_skew_ms && g.max_gap_ms >= t - p && g.max_gap_ms >= h.max_gap_ms
                    && (g.max_gap_ms == t - p || g.max_gap_ms == h.max_gap_ms)
                &&& t - p > 60000 ==> g.n_gaps_over_60s == h.n_gaps_over_60s + 1
                &&& t - p <= 60000 ==> g.n_gaps_over_60s == h.n_gaps_over_60s
            }
        },
{
}

/// A stream as a whole: its lines with a time and those without, those that go back and
/// those that come after a gap are counted, each once.
pub proof fn law_a_stream_is_counted(states: Seq<StreamHealth>, recvs: Seq<Option<i64>>)
    requires
        states.len() > 0,
        health::counted(states[0], states, recvs),
        states[0].n_lines == 0 && states[0].n_skipped == 0 && states[0].n_with_recv_ms == 0,
        states[0].n_out_of_order == 0 && states[0].n_gaps_over_60s == 0,
        states[0].last_recv_ms is None,
    ensures
        ({
            let h = states.last();
            let n = recvs.len();
            &&& h.n_lines == n
            &&& h.n_skipped == tallies::places(n, |i: int| recvs[i] is None).len()
            &&& h.n_with_recv_ms == tallies::places(n, |i: int| recvs[i] is Some).len()
            &&& h.n_out_of_order == tallies::places(n, |i: int| step(recvs, i) < 0).len()
            &&& h.n_gaps_over_60s == tallies::places(n, |i: int| step(recvs, i) > 60000).len()
            &&& h.last_recv_ms == latest(recvs)
        }),
    decreases recvs.len(),
{
    reveal(Seq::filter);
    let n = recvs.len();
    if n > 0 {
        let (s, r) = (states.drop_last(), recvs.drop_last());
        let m = r.len() as int;
        assert(health::counted(s[0], s, r)) by {
            assert forall|i: int| 0 <= i < r.len() implies health::after_line(
                #[trigger] s[i],
                s[i + 1],
                r[i],
            ) by {
                assert(health::after_line(states[i], states[i + 1], recvs[i]));
            }
        }
        law_a_stream_is_counted(s, r);
        assert(health::after_line(states[m], states[m + 1], recvs[m]));
        lemma_places(m as nat, |i: int| recvs[i] is None, |i: int| r[i] is None);
        lemma_places(m as nat, |i: int| recvs[i] is Some, |i: int| r[i] is Some);
        assert forall|i: int| 0 <= i < m implies step(recvs, i) == #[trigger] step(r, i) by {
            assert(recvs.take(i) =~= r.take(i));
        }
        lemma_places(m as nat, |i: int| step(recvs, i) < 0, |i: int| step(r, i) < 0);
        lemma_places(m as nat, |i: int| step(recvs, i) > 60000, |i: int| step(r, i) > 60000);
        assert(recvs.take(m) =~= r);
    } else {
        assert(latest(recvs) is None);
        lemma_none(|i: int| recvs[i] is None);
        lemma_none(|i: int| recvs[i] is Some);
        lemma_none(|i: int| step(recvs, i) < 0);
        lemma_none(|i: int| step(recvs, i) > 60000);
    }
}

proof fn lemma_none(of: spec_fn(int) -> bool)
    ensures
        tallies::places(0, of).len() == 0,
{
    reveal(Seq::filter);
}

proof fn lemma_places(m: nat, of: spec_fn(int) -> bool, old_of: spec_fn(int) -> bool)
    requires
        forall|i: int| 0 <= i < m ==> #[trigger] of(i) == old_of(i),
    ensures
        tallies::places(m + 1, of).len() == tallies::places(m, old_of).len() + (if of(m as int) {
            1nat
        } else {
            0nat
        }),
    decreases m,
{
    reveal(Seq::filter);
    let all = Seq::new(m + 1, |i: int| i);
    assert(all.drop_last() =~= Seq::new(m, |i: int| i));
    assert(all.last() == m);
    lemma_same(m, of, old_of);
}

proof fn lemma_same(m: nat, of: spec_fn(int) -> bool, old_of: spec_fn(int) -> bool)
    requires
        forall|i: int| 0 <= i < m ==> #[trigger] of(i) == old_of(i),
    ensures
        tallies::places(m, of) == tallies::places(m, old_of),
    decreases m,
{
    reveal(Seq::filter);
    if m > 0 {
        let all = Seq::new(m, |i: int| i);
        let less = (m - 1) as nat;
        assert(all.drop_last() =~= Seq::new(less, |i: int| i));
        assert(all.last() == less);
        lemma_same(less, of, old_of);
        assert(of(less as int) == old_of(less as int));
    }
}

/// The last time that is given.
pub open spec fn latest(recvs: Seq<Option<i64>>) -> Option<i64>
    decreases recvs.len(),
{
    if recvs.len() == 0 {
        None
    } else if recvs.last() is Some {
        recvs.last()
    } else {
        latest(recvs.drop_last())
    }
}

/// The step to the time of a line from the last one before it.
pub open spec fn step(recvs: Seq<Option<i64>>, i: int) -> int {
    match (latest(recvs.take(i)), recvs[i]) {
        (Some(p), Some(t)) => t - p,
        _ => 0,
    }
}

} // verus!
