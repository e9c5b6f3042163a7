//! The replay of a timeline: books are kept, open lots are sampled, and lots
//! whose time has come are closed.

use crate::b3_live::{OpenPosition, Outcome};
use crate::backtest::book::{self, key_to_price, BookSide, FullBook};
use crate::backtest::entry_filter::{self, market_epoch, Direction, EntryFilter};
use crate::backtest::kline::{self, compute_obi, record_kline_for_active};
use crate::backtest::merge::{Ev, TimedEvent};
use crate::backtest::position::{self, ActiveTracker, CollectedPosition, Imbalance};
use crate::config::Num;
use crate::decimal::{self, Dec};
use crate::text::{self, owned, push_signed, push_str, same_text};
use vstd::prelude::*;

verus! {

pub type Books = Seq<(String, FullBook)>;

/// The place of a token's book.
pub open spec fn place_of(books: Books, token: Seq<char>) -> Option<int>
    decreases books.len(),
{
    if books.len() == 0 {
        None
    } else {
        match place_of(books.drop_last(), token) {
            Some(i) => Some(i),
            None => if books.last().0@ == token {
                Some(books.len() - 1)
            } else {
                None
            },
        }
    }
}

/// A token's book.
pub open spec fn book_of(books: Books, token: Seq<char>) -> Option<FullBook> {
    match place_of(books, token) {
        Some(i) => Some(books[i].1),
        None => None,
    }
}

/// What a sale of the whole lot into its token's book brings.
pub open spec fn exit_bid(books: Books, p: CollectedPosition) -> Option<u128> {
    match book_of(books, p.token@) {
        Some(b) => match position::sale(b, p.shares) {
            Some(v) => Some(v as u128),
            None => None,
        },
        None => None,
    }
}

/// A lot that is closed now.
pub open spec fn stamped(books: Books, p: CollectedPosition) -> CollectedPosition {
    CollectedPosition { time_exit_bid: exit_bid(books, p), ..p }
}

/// Lots that are closed now.
pub open spec fn all_stamped(books: Books, lots: Seq<CollectedPosition>) -> Seq<
    CollectedPosition,
> {
    lots.map_values(|p: CollectedPosition| stamped(books, p))
}

proof fn lemma_place(books: Books, token: Seq<char>)
    ensures
        match place_of(books, token) {
            Some(i) => 0 <= i < books.len() && books[i].0@ == token && forall|j: int|
                0 <= j < i ==> (#[trigger] books[j]).0@ != token,
            None => forall|j: int| 0 <= j < books.len() ==> (#[trigger] books[j]).0@ != token,
        },
    decreases books.len(),
{
    if books.len() > 0 {
        let before = books.drop_last();
        lemma_place(before, token);
        assert forall|j: int| 0 <= j < before.len() implies #[trigger] books[j] == before[j] by {}
    }
}

proof fn lemma_place_is(books: Books, token: Seq<char>, i: int)
    requires
        0 <= i < books.len(),
        books[i].0@ == token,
        forall|j: int| 0 <= j < i ==> (#[trigger] books[j]).0@ != token,
    ensures
        place_of(books, token) == Some(i),
{
    lemma_place(books, token);
    match place_of(books, token) {
        Some(k) => {
            if k < i {
                assert(books[k].0@ != token);
            }
        },
        None => {
            assert(books[i].0@ != token);
        },
    }
}

/// Changing one book leaves the others as they are.
proof fn lemma_other_books(books: Books, i: int, b: FullBook, token: Seq<char>)
    requires
        0 <= i < books.len(),
        token != books[i].0@,
    ensures
        book_of(books.update(i, (books[i].0, b)), token) == book_of(books, token),
{
    let after = books.update(i, (books[i].0, b));
    lemma_place(books, token);
    lemma_place(after, token);
    match place_of(books, token) {
        Some(k) => {
            assert forall|j: int| 0 <= j < k implies (#[trigger] after[j]).0@ != token by {
                assert(books[j].0@ != token);
            }
            lemma_place_is(after, token, k);
        },
        None => {
            match place_of(after, token) {
                Some(k) => {
                    assert(books[k].0@ != token);
                },
                None => {},
            }
        },
    }
}

/// A book that is put behind the others leaves them as they are.
proof fn lemma_new_book(books: Books, entry: (String, FullBook), token: Seq<char>)
    ensures
        book_of(books.push(entry), token) == match book_of(books, token) {
            Some(b) => Some(b),
            None => if entry.0@ == token {
                Some(entry.1)
            } else {
                None
            },
        },
        place_of(books.push(entry), token) == match place_of(books, token) {
            Some(i) => Some(i),
            None => if entry.0@ == token {
                Some(books.len() as int)
            } else {
                None
            },
        },
{
    assert(books.push(entry).drop_last() =~= books);
    lemma_place(books, token);
}

/// A signal that the decisions turned into a bet.
#[derive(Debug)]
pub struct Fire {
    pub asset: String,
    pub interval: String,
    pub token: String,
    pub direction: Direction,
    /// The second of the signal.
    pub trigger_ts: i64,
    /// How long the lot is to be held, in seconds.
    pub hold_s: i64,
    /// The price key at which the bet is filled.
    pub fill: u32,
    /// Millionths of a share.
    pub shares: u64,
    pub ret_bps: Num,
    pub maker_fee_bps: i64,
    pub taker_fee_bps: i64,
    pub fee_type: String,
    pub vol_30m: Option<Dec>,
    pub vol_60m: Option<Dec>,
}

/// A signal's name: asset, second, interval and direction.
pub open spec fn signal_name(
    asset: Seq<char>,
    trigger_ts: int,
    interval: Seq<char>,
    direction: Direction,
) -> Seq<char> {
    asset + "-"@ + text::signed_digits(trigger_ts) + "-"@ + interval + "-"@ + direction.name()
}

/// The name of a signal of an asset at a second.
pub fn name_signal(asset: &str, trigger_ts: i64, interval: &str, direction: Direction) -> (r: String)
    ensures
        r@ == signal_name(asset@, trigger_ts as int, interval@, direction),
{
    let mut name = owned(asset);
    push_str(&mut name, "-");
    push_signed(&mut name, trigger_ts);
    push_str(&mut name, "-");
    push_str(&mut name, interval);
    push_str(&mut name, "-");
    push_str(&mut name, direction.word());
    assert(name@ =~= signal_name(asset@, trigger_ts as int, interval@, direction));
    name
}

/// What an entry filter is asked about a bet.
pub open spec fn candidate(f: Fire, close: Num) -> entry_filter::Candidate {
    entry_filter::Candidate {
        ret_bps: f.ret_bps,
        direction: f.direction,
        asset: f.asset@,
        interval: f.interval@,
        epoch: entry_filter::cut(f.trigger_ts as int, entry_filter::interval_len(f.interval@)) as i64,
        entry_price: f.fill as int,
        trigger_close: close,
    }
}

/// The times of a bet fit their types.
pub open spec fn times_fit(f: Fire) -> bool {
    &&& i64::MIN <= f.trigger_ts * 1000 <= i64::MAX
    &&& i64::MIN <= (f.trigger_ts + f.hold_s) * 1000 <= i64::MAX
}

/// The imbalance of a token's book; none where the token has no book.
pub open spec fn token_imbalance(books: Books, token: Seq<char>, n: int) -> Option<Imbalance> {
    match book_of(books, token) {
        Some(b) => kline::imbalance(book::ladder_of(b.bids@), book::ladder_of(b.asks@), n),
        None => None,
    }
}

/// The lot that a bet opens.
pub open spec fn is_lot_of(p: CollectedPosition, f: Fire, close: Num, recv_ms: i64, books: Books) -> bool {
    &&& p.token@ == f.token@
    &&& p.asset@ == f.asset@
    &&& p.interval@ == f.interval@
    &&& p.epoch == candidate(f, close).epoch
    &&& p.direction@ == f.direction.name()
    &&& p.signal_id@ == signal_name(f.asset@, f.trigger_ts as int, f.interval@, f.direction)
    &&& p.entry_recv_ms == recv_ms
    &&& p.entry_price == f.fill
    &&& p.shares == f.shares
    &&& p.exit_ts_ms == (f.trigger_ts + f.hold_s) * 1000
    &&& p.trigger_close == close
    &&& p.trigger_ret_bps == f.ret_bps
    &&& p.maker_fee_bps == f.maker_fee_bps
    &&& p.taker_fee_bps == f.taker_fee_bps
    &&& p.fee_type@ == f.fee_type@
    &&& p.entry_trigger_ts_ms == f.trigger_ts * 1000
    &&& p.obi_top1 == token_imbalance(books, f.token@, 1)
    &&& p.obi_top3 == token_imbalance(books, f.token@, 3)
    &&& p.binance_close_at_2s is None
    &&& p.binance_close_at_5s is None
    &&& p.binance_close_at_10s is None
    &&& p.binance_close_at_30s is None
    &&& p.binance_close_at_60s is None
    &&& p.binance_close_at_120s is None
    &&& p.vol_30m == f.vol_30m
    &&& p.vol_60m == f.vol_60m
    &&& p.trajectory@ == Seq::<crate::backtest::trajectory::Sample>::empty()
    &&& p.trajectory_bbo@ == Seq::<(i64, Option<u32>, Option<u32>)>::empty()
    &&& p.time_exit_bid is None
    &&& p.uncoverable_samples == 0
    &&& p.total_samples == 0
}

/// Some open lot of the token is of more than nothing.
pub open spec fn holds_some(lots: Seq<CollectedPosition>, token: Seq<char>) -> bool {
    exists|i: int|
        0 <= i < lots.len() && (#[trigger] lots[i]).token@ == token && lots[i].shares > 0
}

/// Every lot of the token got a sample of the book, the others are as they were.
pub open spec fn lots_sampled(
    before: Seq<CollectedPosition>,
    after: Seq<CollectedPosition>,
    token: Seq<char>,
    recv_ms: i64,
    b: FullBook,
) -> bool {
    &&& after.len() == before.len()
    &&& forall|i: int|
        0 <= i < before.len() ==> position::after_book(
            #[trigger] before[i],
            after[i],
            token,
            recv_ms,
            b,
        )
}

/// The books after a snapshot of one token.
pub open spec fn is_after_snapshot(
    before: Books,
    after: Books,
    token: Seq<char>,
    bids: Seq<(u32, Num)>,
    asks: Seq<(u32, Num)>,
    ts_ms: i64,
) -> bool {
    &&& book_of(after, token) matches Some(b) && b.bids@ == book::levels_map(bids) && b.asks@
        == book::levels_map(asks) && b.last_update_ms == ts_ms
    &&& forall|t: Seq<char>| t != token ==> #[trigger] book_of(after, t) == book_of(before, t)
}

/// The levels of a book that may not be there yet.
pub open spec fn bids_of(b: Option<FullBook>) -> Map<u32, Num> {
    match b {
        Some(b) => b.bids@,
        None => Map::empty(),
    }
}

pub open spec fn asks_of(b: Option<FullBook>) -> Map<u32, Num> {
    match b {
        Some(b) => b.asks@,
        None => Map::empty(),
    }
}

/// The books after a change of one level.
pub open spec fn is_after_change(
    before: Books,
    after: Books,
    token: Seq<char>,
    key: u32,
    size: Num,
    side: BookSide,
    ts_ms: i64,
) -> bool {
    let was = book_of(before, token);
    &&& book_of(after, token) matches Some(b) && b.bids@ == (if side == BookSide::Bid {
        book::with_level(bids_of(was), key, size)
    } else {
        bids_of(was)
    }) && b.asks@ == (if side == BookSide::Ask {
        book::with_level(asks_of(was), key, size)
    } else {
        asks_of(was)
    }) && b.last_update_ms == ts_ms
    &&& forall|t: Seq<char>| t != token ==> #[trigger] book_of(after, t) == book_of(before, t)
}

/// The state of a replay.
pub struct Replay {
    pub books: Vec<(String, FullBook)>,
    pub active: ActiveTracker,
    pub closed: Vec<CollectedPosition>,
}

fn find_book(books: &Vec<(String, FullBook)>, token: &str) -> (r: Option<usize>)
    ensures
        match r {
            Some(i) => place_of(books@, token@) == Some(i as int) && i < books@.len(),
            None => place_of(books@, token@) is None,
        },
{
    let mut i: usize = 0;
    while i < books.len()
        invariant
            i <= books@.len(),
            forall|j: int| 0 <= j < i ==> (#[trigger] books@[j]).0@ != token@,
        decreases books@.len() - i,
    {
        if same_text(&books[i].0, token) {
            proof {
                lemma_place_is(books@, token@, i as int);
            }
            return Some(i);
        }
        i += 1;
    }
    proof {
        lemma_place(books@, token@);
    }
    None
}

fn bid_for(books: &Vec<(String, FullBook)>, token: &str, shares: u64) -> (r: Option<u128>)
    ensures
        r == match book_of(books@, token@) {
            Some(b) => match position::sale(b, shares) {
                Some(v) => Some(v as u128),
                None => None,
            },
            None => None,
        },
        r matches Some(v) ==> v <= shares * u32::MAX,
{
    match find_book(books, token) {
        Some(i) => books[i].1.executable_bid_for_shares(shares),
        None => None,
    }
}

impl Replay {
    /// The lots, open and closed, are well-formed.
    pub open spec fn wf(self) -> bool {
        &&& self.active.wf()
        &&& forall|i: int| 0 <= i < self.closed@.len() ==> (#[trigger] self.closed@[i]).wf()
    }

    pub fn new() -> (r: Replay)
        ensures
            r.wf(),
            r.books@ == Seq::<(String, FullBook)>::empty(),
            r.active.lots@ == Seq::<CollectedPosition>::empty(),
            r.closed@ == Seq::<CollectedPosition>::empty(),
    {
        Replay { books: Vec::new(), active: ActiveTracker::new(), closed: Vec::new() }
    }

    fn close_lots(&mut self, lots: Vec<CollectedPosition>)
        requires
            old(self).wf(),
            forall|i: int| 0 <= i < lots@.len() ==> (#[trigger] lots@[i]).wf(),
        ensures
            final(self).wf(),
            final(self).books == old(self).books,
            final(self).active == old(self).active,
            final(self).closed@ == old(self).closed@ + all_stamped(old(self).books@, lots@),
    {
        let ghost all = lots@;
        let ghost start = self.closed@;
        let mut rest = lots;
        let ghost mut k: int = 0;
        proof {
            assert(all.skip(0) =~= all);
            assert(start + all_stamped(self.books@, all.take(0)) =~= start);
        }
        while rest.len() > 0
            invariant
                0 <= k <= all.len(),
                rest@ == all.skip(k),
                self.wf(),
                self.books == old(self).books,
                self.active == old(self).active,
                self.closed@ == start + all_stamped(self.books@, all.take(k)),
                forall|i: int| 0 <= i < all.len() ==> (#[trigger] all[i]).wf(),
            decreases rest@.len(),
        {
            let mut p = rest.remove(0);
            let ghost before = p;
            proof {
                assert(p == all[k]);
                assert(all[k].wf());
                assert(rest@ =~= all.skip(k + 1));
            }
            let bid = bid_for(&self.books, &p.token, p.shares);
            p.time_exit_bid = bid;
            proof {
                assert(p == stamped(self.books@, before));
                assert forall|i: int| 0 <= i < p.trajectory@.len() implies position::possible(
                    p,
                    (#[trigger] p.trajectory@[i]).1,
                ) by {
                    assert(position::possible(before, before.trajectory@[i].1));
                }
                assert(p.wf());
            }
            self.closed.push(p);
            proof {
                assert(all_stamped(self.books@, all.take(k + 1)) =~= all_stamped(
                    self.books@,
                    all.take(k),
                ).push(stamped(self.books@, all[k])));
                assert(self.closed@ =~= start + all_stamped(self.books@, all.take(k + 1)));
                k = k + 1;
            }
        }
        proof {
            assert(all.take(k) =~= all);
        }
    }

    /// Closes the lots whose time has come, by their signals, at what their
    /// books bring now.
    pub fn close_due(&mut self, now_ms: i64)
        requires
            old(self).wf(),
        ensures
            final(self).wf(),
            final(self).books == old(self).books,
            final(self).active.lots@ == position::chosen(old(self).active.lots@, now_ms, false),
            final(self).closed@ == old(self).closed@ + all_stamped(
                old(self).books@,
                position::by_signal(position::chosen(old(self).active.lots@, now_ms, true)),
            ),
    {
        let due = self.active.drain_due(now_ms);
        self.close_lots(due);
    }

    /// Closes all lots at the end of the timeline.
    pub fn finish(&mut self)
        requires
            old(self).wf(),
        ensures
            final(self).wf(),
            final(self).books == old(self).books,
            final(self).active.lots@ == Seq::<CollectedPosition>::empty(),
            final(self).closed@ == old(self).closed@ + all_stamped(
                old(self).books@,
                position::by_signal(old(self).active.lots@),
            ),
    {
        let tail = self.active.drain_all();
        self.close_lots(tail);
    }

    fn slot(&mut self, token: &str) -> (r: usize)
        requires
            old(self).wf(),
        ensures
            final(self).wf(),
            final(self).active == old(self).active,
            final(self).closed == old(self).closed,
            r < final(self).books@.len(),
            place_of(final(self).books@, token@) == Some(r as int),
            final(self).books@[r as int].0@ == token@,
            bids_of(book_of(old(self).books@, token@)) == final(self).books@[r as int].1.bids@,
            asks_of(book_of(old(self).books@, token@)) == final(self).books@[r as int].1.asks@,
            forall|t: Seq<char>|
                t != token@ ==> #[trigger] book_of(final(self).books@, t) == book_of(
                    old(self).books@,
                    t,
                ),
    {
        let ghost before = self.books@;
        proof {
            lemma_place(before, token@);
        }
        match find_book(&self.books, token) {
            Some(i) => i,
            None => {
                let n: usize = self.books.len();
                let fresh: FullBook = Default::default();
                let entry = (owned(token), fresh);
                let ghost e = entry;
                self.books.push(entry);
                assert forall|t: Seq<char>| t != token@ implies #[trigger] book_of(self.books@, t)
                    == book_of(before, t) by {
                    lemma_new_book(before, e, t);
                }
                proof {
                    lemma_new_book(before, e, token@);
                }
                n
            },
        }
    }

    fn any_shares(&self, token: &str) -> (r: bool)
        ensures
            r == holds_some(self.active.lots@, token@),
    {
        let mut i: usize = 0;
        while i < self.active.lots.len()
            invariant
                i <= self.active.lots@.len(),
                forall|j: int|
                    0 <= j < i ==> !((#[trigger] self.active.lots@[j]).token@ == token@
                        && self.active.lots@[j].shares > 0),
            decreases self.active.lots@.len() - i,
        {
            if self.active.lots[i].shares > 0 && same_text(&self.active.lots[i].token, token) {
                return true;
            }
            i += 1;
        }
        false
    }

    /// Replaces a token's book by a snapshot. Where some open lot of the token
    /// is of more than nothing, its lots are sampled.
    pub fn on_snapshot(
        &mut self,
        token: &str,
        bids: &[(u32, Num)],
        asks: &[(u32, Num)],
        ts_ms: i64,
        recv_ms: i64,
    )
        requires
            old(self).wf(),
        ensures
            final(self).wf(),
            final(self).closed == old(self).closed,
            is_after_snapshot(old(self).books@, final(self).books@, token@, bids@, asks@, ts_ms),
            if holds_some(old(self).active.lots@, token@) {
                lots_sampled(
                    old(self).active.lots@,
                    final(self).active.lots@,
                    token@,
                    recv_ms,
                    book_of(final(self).books@, token@)->0,
                )
            } else {
                final(self).active == old(self).active
            },
    {
        let i: usize = self.slot(token);
        let ghost mid = self.books@;
        self.books[i].1.apply_snapshot(bids, asks, ts_ms);
        proof {
            let b = self.books@[i as int].1;
            assert(self.books@ =~= mid.update(i as int, (mid[i as int].0, b)));
            lemma_place(mid, token@);
            assert forall|j: int| 0 <= j < i implies (#[trigger] self.books@[j]).0@ != token@ by {
                assert(mid[j].0@ != token@);
            }
            lemma_place_is(self.books@, token@, i as int);
            assert forall|t: Seq<char>| t != token@ implies #[trigger] book_of(self.books@, t)
                == book_of(old(self).books@, t) by {
                lemma_other_books(mid, i as int, b, t);
            }
        }
        if self.any_shares(token) {
            self.active.sample(token, recv_ms, &self.books[i].1);
        }
    }

    /// Changes one level of a token's book, and samples the token's open lots.
    pub fn on_price_change(
        &mut self,
        token: &str,
        key: u32,
        size: Num,
        side: BookSide,
        ts_ms: i64,
        recv_ms: i64,
    )
        requires
            old(self).wf(),
        ensures
            final(self).wf(),
            final(self).closed == old(self).closed,
            is_after_change(old(self).books@, final(self).books@, token@, key, size, side, ts_ms),
            lots_sampled(
                old(self).active.lots@,
                final(self).active.lots@,
                token@,
                recv_ms,
                book_of(final(self).books@, token@)->0,
            ),
    {
        let i: usize = self.slot(token);
        let ghost mid = self.books@;
        self.books[i].1.apply_price_change(key, size, side, ts_ms);
        proof {
            let b = self.books@[i as int].1;
            assert(self.books@ =~= mid.update(i as int, (mid[i as int].0, b)));
            lemma_place(mid, token@);
            assert forall|j: int| 0 <= j < i implies (#[trigger] self.books@[j]).0@ != token@ by {
                assert(mid[j].0@ != token@);
            }
            lemma_place_is(self.books@, token@, i as int);
            assert forall|t: Seq<char>| t != token@ implies #[trigger] book_of(self.books@, t)
                == book_of(old(self).books@, t) by {
                lemma_other_books(mid, i as int, b, t);
            }
        }
        self.active.sample(token, recv_ms, &self.books[i].1);
    }

    /// Opens a lot for a bet, unless the filter stops it.
    pub fn fire(&mut self, f: &Fire, filter: &EntryFilter, kline_close: Num, recv_ms: i64) -> (r: bool)
        requires
            old(self).wf(),
            times_fit(*f),
        ensures
            final(self).wf(),
            fired(*old(self), *final(self), *f, *filter, kline_close, recv_ms, r),
    {
        let epoch: i64 = market_epoch(f.trigger_ts, &f.interval);
        if !filter.accept(
            f.ret_bps,
            f.direction,
            self.active.lots.as_slice(),
            &f.asset,
            &f.interval,
            epoch,
            f.fill,
            kline_close,
        ) {
            return false;
        }
        let signal_id = name_signal(&f.asset, f.trigger_ts, &f.interval, f.direction);
        let (obi_top1, obi_top3) = match find_book(&self.books, &f.token) {
            Some(i) => (compute_obi(&self.books[i].1, 1), compute_obi(&self.books[i].1, 3)),
            None => (None, None),
        };
        let p = CollectedPosition {
            token: owned(&f.token),
            asset: owned(&f.asset),
            interval: owned(&f.interval),
            epoch,
            direction: owned(f.direction.word()),
            signal_id,
            entry_recv_ms: recv_ms,
            entry_price: f.fill,
            shares: f.shares,
            exit_ts_ms: (f.trigger_ts + f.hold_s) * 1000,
            trigger_close: kline_close,
            trigger_ret_bps: f.ret_bps,
            maker_fee_bps: f.maker_fee_bps,
            taker_fee_bps: f.taker_fee_bps,
            fee_type: owned(&f.fee_type),
            entry_trigger_ts_ms: f.trigger_ts * 1000,
            obi_top1,
            obi_top3,
            binance_close_at_2s: None,
            binance_close_at_5s: None,
            binance_close_at_10s: None,
            binance_close_at_30s: None,
            binance_close_at_60s: None,
            binance_close_at_120s: None,
            vol_30m: f.vol_30m,
            vol_60m: f.vol_60m,
            trajectory: Vec::new(),
            trajectory_bbo: Vec::new(),
            time_exit_bid: None,
            uncoverable_samples: 0,
            total_samples: 0,
        };
        assert(is_lot_of(p, *f, kline_close, recv_ms, self.books@));
        self.active.add(p);
        true
    }

    /// The best bid and the best ask of a token, and when its book last changed;
    /// `None` where the token has no book.
    pub fn bbo(&self, token: &str) -> (r: Option<(Option<u32>, Option<u32>, i64)>)
        ensures
            match book_of(self.books@, token@) {
                Some(b) => r matches Some((bid, ask, ts_ms)) && ts_ms == b.last_update_ms
                    && book::is_best_bid(b, bid) && book::is_best_ask(b, ask),
                None => r is None,
            },
    {
        match find_book(&self.books, token) {
            Some(i) => {
                let b = &self.books[i].1;
                Some((b.best_bid(), b.best_ask(), b.last_update_ms))
            },
            None => None,
        }
    }

    /// The open lots as the decisions see them.
    pub fn open_positions(&self) -> (r: Vec<OpenPosition>)
        ensures
            r@.len() == self.active.lots@.len(),
            forall|i: int|
                0 <= i < r@.len() ==> is_position_of(#[trigger] r@[i], self.active.lots@[i]),
    {
        let mut out: Vec<OpenPosition> = Vec::new();
        let mut i: usize = 0;
        while i < self.active.lots.len()
            invariant
                i <= self.active.lots@.len(),
                out@.len() == i,
                forall|k: int|
                    0 <= k < i ==> is_position_of(#[trigger] out@[k], self.active.lots@[k]),
            decreases self.active.lots@.len() - i,
        {
            out.push(open_position_for_decide(&self.active.lots[i]));
            i += 1;
        }
        out
    }

    /// One event of the timeline: first the lots whose time has come are closed,
    /// then the event is applied. A candle is handed back: what it leads to is
    /// decided elsewhere.
    pub fn advance(&mut self, t: TimedEvent) -> (r: Option<(String, i64, Num)>)
        requires
            old(self).wf(),
        ensures
            final(self).wf(),
            advanced(*old(self), *final(self), t),
            match t.ev {
                Ev::Kline { asset, t_open_ms, close } => r matches Some((a, o, c)) && a@ == asset@ && o
                    == t_open_ms && c == close,
                _ => r is None,
            },
    {
        self.close_due(t.recv_ms);
        let recv_ms: i64 = t.recv_ms;
        match t.ev {
            Ev::BookSnapshot { token, bids, asks, ts_ms } => {
                self.on_snapshot(&token, bids.as_slice(), asks.as_slice(), ts_ms, recv_ms);
                None
            },
            Ev::PriceChange { token, key, size, side, ts_ms } => {
                self.on_price_change(&token, key, size, side, ts_ms, recv_ms);
                None
            },
            Ev::Kline { asset, t_open_ms, close } => {
                record_kline_for_active(&mut self.active, &asset, t_open_ms, close);
                Some((asset, t_open_ms, close))
            },
        }
    }
}

/// The state after an event: the lots whose time has come are closed at what
/// their books brought before it, and then the event is applied.
pub open spec fn advanced(before: Replay, after: Replay, t: TimedEvent) -> bool {
    &&& after.closed@ == before.closed@ + all_stamped(
        before.books@,
        position::by_signal(position::chosen(before.active.lots@, t.recv_ms, true)),
    )
    &&& after_event(
        before.books@,
        position::chosen(before.active.lots@, t.recv_ms, false),
        t,
        after.books@,
        after.active.lots@,
    )
}

/// The state after a bet: a lot is opened where the filter lets it, and nothing
/// else changes.
pub open spec fn fired(
    before: Replay,
    after: Replay,
    f: Fire,
    filter: EntryFilter,
    close: Num,
    recv_ms: i64,
    opened: bool,
) -> bool {
    &&& after.books == before.books
    &&& after.closed == before.closed
    &&& opened == entry_filter::accepts(filter, before.active.lots@, candidate(f, close))
    &&& !opened ==> after.active == before.active
    &&& opened ==> exists|p: CollectedPosition| #[trigger]
        is_lot_of(p, f, close, recv_ms, before.books@) && after.active.lots@ == position::with_lot(
            before.active.lots@,
            p,
        )
}

/// Milliseconds as seconds, without what is beyond the last whole one.
pub open spec fn whole_seconds(ms: int) -> int {
    if ms >= 0 {
        ms / 1000
    } else {
        -((-ms) / 1000)
    }
}

/// The position is the lot, as the decisions see it: prices and sizes are
/// decimals, the time of its end is in seconds, and there is no maker order.
pub open spec fn is_position_of(r: OpenPosition, p: CollectedPosition) -> bool {
    &&& r.token_id@ == p.token@
    &&& r.asset@ == p.asset@
    &&& r.interval@ == p.interval@
    &&& r.signal_id@ == p.signal_id@
    &&& r.side == (if p.direction@ == "Up"@ {
        Outcome::Up
    } else {
        Outcome::Down
    })
    &&& r.entry_price@ == decimal::dec(p.entry_price as int, 4)
    &&& r.shares@ == decimal::dec(p.shares as int, 6)
    &&& r.opened_at_ms == p.entry_recv_ms
    &&& r.exit_ts_s == whole_seconds(p.exit_ts_ms as int)
    &&& r.entry_ts_ms == 0
    &&& r.maker_exit is None
}

/// A lot as the decisions see it.
pub fn open_position_for_decide(p: &CollectedPosition) -> (r: OpenPosition)
    ensures
        is_position_of(r, *p),
{
    let exit_ts_s: i64 = if p.exit_ts_ms >= 0 {
        p.exit_ts_ms / 1000
    } else {
        (-(-(p.exit_ts_ms as i128) / 1000)) as i64
    };
    let shares = Dec::from_parts(p.shares as i128, 6);
    OpenPosition {
        token_id: owned(&p.token),
        asset: owned(&p.asset),
        side: if same_text(&p.direction, "Up") {
            Outcome::Up
        } else {
            Outcome::Down
        },
        entry_price: key_to_price(p.entry_price),
        shares: shares.unwrap(),
        opened_at_ms: p.entry_recv_ms,
        signal_id: owned(&p.signal_id),
        interval: owned(&p.interval),
        exit_ts_s,
        entry_ts_ms: 0,
        maker_exit: None,
    }
}

/// What an event does to the books and to the lots that stay open.
pub open spec fn after_event(
    books: Books,
    lots: Seq<CollectedPosition>,
    t: TimedEvent,
    new_books: Books,
    new_lots: Seq<CollectedPosition>,
) -> bool {
    match t.ev {
        Ev::BookSnapshot { token, bids, asks, ts_ms } => {
            &&& is_after_snapshot(books, new_books, token@, bids@, asks@, ts_ms)
            &&& if holds_some(lots, token@) {
                lots_sampled(
                    lots,
                    new_lots,
                    token@,
                    t.recv_ms,
                    book_of(new_books, token@)->0,
                )
            } else {
                new_lots == lots
            }
        },
        Ev::PriceChange { token, key, size, side, ts_ms } => {
            &&& is_after_change(books, new_books, token@, key, size, side, ts_ms)
            &&& lots_sampled(lots, new_lots, token@, t.recv_ms, book_of(new_books, token@)->0)
        },
        Ev::Kline { asset, t_open_ms, close } => {
            &&& new_books == books
            &&& new_lots == lots.map_values(
                |p: CollectedPosition| kline::with_candle(p, asset@, t_open_ms, close),
            )
        },
    }
}

/// No lot is lost: what an event takes from the open lots is closed, and
/// nothing is closed that was not open.
pub proof fn law_lots_are_open_or_closed(lots: Seq<CollectedPosition>, now_ms: i64)
    ensures
        position::chosen(lots, now_ms, true).len() + position::chosen(lots, now_ms, false).len()
            == lots.len(),
        position::by_signal(position::chosen(lots, now_ms, true)).len() == position::chosen(
            lots,
            now_ms,
            true,
        ).len(),
    decreases lots.len(),
{
    position::law_lots_by_signal_are_sorted(position::chosen(lots, now_ms, true));
    if lots.len() > 0 {
        law_lots_are_open_or_closed(lots.drop_last(), now_ms);
    }
}

/// A lot that stays open at a moment is one whose time comes later.
pub proof fn law_open_lots_are_not_due(lots: Seq<CollectedPosition>, now_ms: i64, i: int)
    requires
        0 <= i < position::chosen(lots, now_ms, false).len(),
    ensures
        position::chosen(lots, now_ms, false)[i].exit_ts_ms > now_ms,
    decreases lots.len(),
{
    if lots.len() > 0 {
        let before = position::chosen(lots.drop_last(), now_ms, false);
        if i < before.len() {
            law_open_lots_are_not_due(lots.drop_last(), now_ms, i);
        }
    }
}

/// A lot as a replay knows it at a moment: it was entered before, its market began
/// at a multiple of its interval, and of each moment at which it was sampled there
/// is one sample of its value and one of the best prices. The moments are in order;
/// none is before the entry, none at the lot's end or later, and none to come.
pub open spec fn timely(p: CollectedPosition, now_ms: int) -> bool {
    &&& p.entry_recv_ms <= now_ms
    &&& p.epoch as int % entry_filter::interval_len(p.interval@) == 0
    &&& p.trajectory_bbo@.len() == p.trajectory@.len()
    &&& forall|i: int|
        0 <= i < p.trajectory@.len() ==> (#[trigger] p.trajectory@[i]).0 == p.trajectory_bbo@[i].0
            && p.entry_recv_ms <= p.trajectory@[i].0 <= now_ms && p.trajectory@[i].0 < p.exit_ts_ms
    &&& forall|i: int, j: int|
        0 <= i <= j < p.trajectory@.len() ==> (#[trigger] p.trajectory@[i]).0 <= (
        #[trigger] p.trajectory@[j]).0
}

pub open spec fn all_timely(lots: Seq<CollectedPosition>, now_ms: int) -> bool {
    forall|i: int| 0 <= i < lots.len() ==> timely(#[trigger] lots[i], now_ms)
}

proof fn lemma_chosen_timely(lots: Seq<CollectedPosition>, now_ms: i64, due: bool, at: int)
    requires
        all_timely(lots, at),
    ensures
        all_timely(position::chosen(lots, now_ms, due), at),
    decreases lots.len(),
{
    if lots.len() > 0 {
        let before = lots.drop_last();
        assert forall|i: int| 0 <= i < before.len() implies timely(#[trigger] before[i], at) by {
            assert(before[i] == lots[i]);
        }
        lemma_chosen_timely(before, now_ms, due, at);
        assert(timely(lots[lots.len() - 1], at));
    }
}

proof fn lemma_by_signal_timely(lots: Seq<CollectedPosition>, at: int)
    requires
        all_timely(lots, at),
    ensures
        all_timely(position::by_signal(lots), at),
{
    broadcast use vstd::seq_lib::group_to_multiset_ensures;

    position::law_lots_by_signal_are_sorted(lots);
    let sorted = position::by_signal(lots);
    assert forall|i: int| 0 <= i < sorted.len() implies timely(#[trigger] sorted[i], at) by {
        assert(sorted.contains(sorted[i]));
        assert(sorted.to_multiset().contains(sorted[i]));
        assert(lots.to_multiset().contains(sorted[i]));
        assert(lots.contains(sorted[i]));
        let k = choose|k: int| 0 <= k < lots.len() && lots[k] == sorted[i];
        assert(timely(lots[k], at));
    }
}

proof fn lemma_sampled_timely(
    lots: Seq<CollectedPosition>,
    after: Seq<CollectedPosition>,
    token: Seq<char>,
    recv_ms: i64,
    b: FullBook,
)
    requires
        all_timely(lots, recv_ms as int),
        lots_sampled(lots, after, token, recv_ms, b),
        forall|i: int| 0 <= i < lots.len() ==> (#[trigger] lots[i]).exit_ts_ms > recv_ms,
    ensures
        all_timely(after, recv_ms as int),
{
    assert forall|i: int| 0 <= i < after.len() implies timely(
        #[trigger] after[i],
        recv_ms as int,
    ) by {
        let (p, q) = (lots[i], after[i]);
        assert(position::after_book(p, q, token, recv_ms, b));
        assert(timely(p, recv_ms as int));
        if p.token@ == token {
            let (value, bid, ask) = choose|
                value: Option<u128>,
                best_bid: Option<u32>,
                best_ask: Option<u32>,
            | #[trigger]
                position::sampled_from(p, q, recv_ms, value, best_bid, best_ask, b);
            assert(position::is_sampled(p, q, recv_ms, value, bid, ask));
            assert forall|k: int| 0 <= k < q.trajectory@.len() implies (
            #[trigger] q.trajectory@[k]).0 == q.trajectory_bbo@[k].0 && q.entry_recv_ms
                <= q.trajectory@[k].0 <= recv_ms && q.trajectory@[k].0 < q.exit_ts_ms by {
                if k < p.trajectory@.len() {
                    assert(q.trajectory@[k] == p.trajectory@[k]);
                    assert(q.trajectory_bbo@[k] == p.trajectory_bbo@[k]);
                }
            }
            assert forall|k: int, j: int| 0 <= k <= j < q.trajectory@.len() implies (
            #[trigger] q.trajectory@[k]).0 <= (#[trigger] q.trajectory@[j]).0 by {
                if j < p.trajectory@.len() {
                    assert(q.trajectory@[k] == p.trajectory@[k]);
                    assert(q.trajectory@[j] == p.trajectory@[j]);
                }
            }
        }
    }
}

/// Every event of a timeline, taken no earlier than the one before it, keeps all
/// lots timely: the samples of a lot are pairs, in order, between its entry and its
/// end, and its market began at a multiple of its interval.
pub proof fn law_events_keep_lots_timely(before: Replay, after: Replay, t: TimedEvent, now_ms: int)
    requires
        advanced(before, after, t),
        now_ms <= t.recv_ms,
        all_timely(before.active.lots@, now_ms),
        all_timely(before.closed@, now_ms),
    ensures
        all_timely(after.active.lots@, t.recv_ms as int),
        all_timely(after.closed@, t.recv_ms as int),
{
    let at = t.recv_ms as int;
    let lots = before.active.lots@;
    assert forall|i: int| 0 <= i < lots.len() implies timely(#[trigger] lots[i], at) by {
        assert(timely(lots[i], now_ms));
    }
    let due = position::chosen(lots, t.recv_ms, true);
    let open = position::chosen(lots, t.recv_ms, false);
    lemma_chosen_timely(lots, t.recv_ms, true, at);
    lemma_chosen_timely(lots, t.recv_ms, false, at);
    lemma_by_signal_timely(due, at);
    let gone = all_stamped(before.books@, position::by_signal(due));
    assert forall|i: int| 0 <= i < after.closed@.len() implies timely(
        #[trigger] after.closed@[i],
        at,
    ) by {
        let n = before.closed@.len();
        if i < n {
            assert(after.closed@[i] == before.closed@[i]);
            assert(timely(before.closed@[i], now_ms));
        } else {
            assert(after.closed@[i] == gone[i - n]);
            assert(timely(position::by_signal(due)[i - n], at));
        }
    }
    assert forall|i: int| 0 <= i < open.len() implies (#[trigger] open[i]).exit_ts_ms
        > t.recv_ms by {
        law_open_lots_are_not_due(lots, t.recv_ms, i);
    }
    match t.ev {
        Ev::BookSnapshot { token, bids, asks, ts_ms } => {
            if holds_some(open, token@) {
                lemma_sampled_timely(
                    open,
                    after.active.lots@,
                    token@,
                    t.recv_ms,
                    book_of(after.books@, token@)->0,
                );
            }
        },
        Ev::PriceChange { token, key, size, side, ts_ms } => {
            lemma_sampled_timely(
                open,
                after.active.lots@,
                token@,
                t.recv_ms,
                book_of(after.books@, token@)->0,
            );
        },
        Ev::Kline { asset, t_open_ms, close } => {
            assert forall|i: int| 0 <= i < after.active.lots@.len() implies timely(
                #[trigger] after.active.lots@[i],
                at,
            ) by {
                assert(after.active.lots@[i] == kline::with_candle(
                    open[i],
                    asset@,
                    t_open_ms,
                    close,
                ));
                assert(timely(open[i], at));
            }
        },
    }
}

/// A bet keeps all lots timely too: the lot that it opens begins without samples,
/// in a market that began at a multiple of its interval.
pub proof fn law_bets_keep_lots_timely(
    before: Replay,
    after: Replay,
    f: Fire,
    filter: EntryFilter,
    close: Num,
    recv_ms: i64,
    opened: bool,
    now_ms: int,
)
    requires
        fired(before, after, f, filter, close, recv_ms, opened),
        now_ms <= recv_ms,
        all_timely(before.active.lots@, now_ms),
        all_timely(before.closed@, now_ms),
    ensures
        all_timely(after.active.lots@, recv_ms as int),
        all_timely(after.closed@, recv_ms as int),
{
    let at = recv_ms as int;
    let lots = before.active.lots@;
    assert forall|i: int| 0 <= i < lots.len() implies timely(#[trigger] lots[i], at) by {
        assert(timely(lots[i], now_ms));
    }
    assert forall|i: int| 0 <= i < after.closed@.len() implies timely(
        #[trigger] after.closed@[i],
        at,
    ) by {
        assert(timely(before.closed@[i], now_ms));
    }
    if opened {
        let p = choose|p: CollectedPosition| #[trigger]
            is_lot_of(p, f, close, recv_ms, before.books@) && after.active.lots@
                == position::with_lot(before.active.lots@, p);
        let secs = entry_filter::interval_len(f.interval@);
        let ts = f.trigger_ts as int;
        let size = if ts >= 0 {
            ts
        } else {
            -ts
        };
        let q = size / secs;
        vstd::arithmetic::div_mod::lemma_fundamental_div_mod(size, secs);
        assert(0 <= q * secs <= size) by (nonlinear_arith)
            requires
                size == secs * q + size % secs,
                size >= 0,
                secs > 0,
                q == size / secs,
                0 <= size % secs < secs,
        ;
        assert(p.epoch == entry_filter::cut(ts, secs));
        assert(p.epoch as int % secs == 0) by {
            vstd::arithmetic::div_mod::lemma_mod_multiples_basic(q, secs);
            vstd::arithmetic::div_mod::lemma_mod_multiples_basic(-q, secs);
            assert((-q) * secs == -(q * secs)) by (nonlinear_arith);
        }
        assert(timely(p, at));
        position::lemma_lot_place(lots, p);
        assert forall|i: int| 0 <= i < after.active.lots@.len() implies timely(
            #[trigger] after.active.lots@[i],
            at,
        ) by {
            assert(after.active.lots@[i] == p || after.active.lots@[i] == lots[i]);
        }
    }
}

/// At the end of the timeline, too, every lot is closed timely.
pub proof fn law_the_end_keeps_lots_timely(books: Books, lots: Seq<CollectedPosition>, now_ms: int)
    requires
        all_timely(lots, now_ms),
    ensures
        all_timely(all_stamped(books, position::by_signal(lots)), now_ms),
{
    lemma_by_signal_timely(lots, now_ms);
    let gone = all_stamped(books, position::by_signal(lots));
    assert forall|i: int| 0 <= i < gone.len() implies timely(#[trigger] gone[i], now_ms) by {
        assert(timely(position::by_signal(lots)[i], now_ms));
    }
}

} // verus!
