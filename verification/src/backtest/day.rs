//! A day of the replay: the timeline, and the candles that were seen before each
//! signal.

use crate::backtest::entry_filter::EntryFilter;
use crate::backtest::kline::{self, KlineHist};
use crate::backtest::merge::{Ev, TimedEvent};
use crate::backtest::position::{self, CollectedPosition};
use crate::backtest::replay::{self, Fire, Replay};
use crate::config::Num;
use crate::text::same_text;
use vstd::prelude::*;

verus! {

/// How many candles are kept of an asset: one more than an hour has seconds, for
/// an hour of moves.
pub const KEPT_CANDLES: usize = 3601;

/// A gap of more than this between two candles makes a volatility unknown.
pub const MAX_GAP_MS: i64 = 5_000;

/// A candle that may be a signal.
#[derive(Debug, Clone)]
pub struct Candle {
    pub asset: String,
    pub t_open_ms: i64,
    pub close: Num,
    pub recv_ms: i64,
}

/// The state of a day.
pub struct DayReplay {
    pub replay: Replay,
    pub btc: KlineHist,
    pub eth: KlineHist,
    pub n_events: u64,
}

impl DayReplay {
    pub open spec fn wf(self) -> bool {
        &&& self.replay.wf()
        &&& self.btc.cap == KEPT_CANDLES && self.btc.buf@.len() <= KEPT_CANDLES
        &&& self.eth.cap == KEPT_CANDLES && self.eth.buf@.len() <= KEPT_CANDLES
    }

    /// The last candles of an asset; none are kept of other assets.
    pub open spec fn history(self, asset: Seq<char>) -> Option<Seq<(i64, Num)>> {
        if asset == "BTC"@ {
            Some(self.btc.buf@)
        } else if asset == "ETH"@ {
            Some(self.eth.buf@)
        } else {
            None
        }
    }

    /// The candles with one more of an asset.
    pub open spec fn with_candle(self, asset: Seq<char>, candle: (i64, Num), other: Seq<char>) -> Option<
        Seq<(i64, Num)>,
    > {
        match self.history(other) {
            Some(buf) => Some(
                if other == asset {
                    kline::pushed(buf, KEPT_CANDLES, candle)
                } else {
                    buf
                },
            ),
            None => None,
        }
    }

    pub fn new() -> (r: DayReplay)
        ensures
            r.wf(),
            r.n_events == 0,
            r.replay.books@.len() == 0,
            r.replay.active.lots@.len() == 0,
            r.replay.closed@.len() == 0,
            r.history("BTC"@) == Some(Seq::<(i64, Num)>::empty()),
            r.history("ETH"@) == Some(Seq::<(i64, Num)>::empty()),
    {
        let r = DayReplay {
            replay: Replay::new(),
            btc: KlineHist::with_capacity(KEPT_CANDLES),
            eth: KlineHist::with_capacity(KEPT_CANDLES),
            n_events: 0,
        };
        proof {
            reveal_strlit("BTC");
            reveal_strlit("ETH");
            assert("BTC"@[0] != "ETH"@[0]);
        }
        r
    }

    /// Keeps a candle of an asset. Candles of other assets are passed over.
    pub fn keep_candle(&mut self, asset: &str, t_open_ms: i64, close: Num)
        requires
            old(self).wf(),
        ensures
            final(self).wf(),
            final(self).replay == old(self).replay,
            final(self).n_events == old(self).n_events,
            forall|a: Seq<char>| #[trigger]
                final(self).history(a) == old(self).with_candle(asset@, (t_open_ms, close), a),
    {
        proof {
            reveal_strlit("BTC");
            reveal_strlit("ETH");
            assert("BTC"@[0] != "ETH"@[0]);
        }
        if same_text(asset, "BTC") {
            self.btc.push(t_open_ms, close);
        } else if same_text(asset, "ETH") {
            self.eth.push(t_open_ms, close);
        }
    }

    /// One event of the timeline. A candle is handed back: what it leads to is
    /// decided elsewhere, and it is not kept yet.
    pub fn on_event(&mut self, t: TimedEvent) -> (r: Option<Candle>)
        requires
            old(self).wf(),
            old(self).n_events < u64::MAX,
        ensures
            final(self).wf(),
            final(self).n_events == old(self).n_events + 1,
            replay::advanced(old(self).replay, final(self).replay, t),
            forall|a: Seq<char>| #[trigger] final(self).history(a) == old(self).history(a),
            match t.ev {
                Ev::Kline { asset, t_open_ms, close } => r matches Some(c) && c.asset@ == asset@
                    && c.t_open_ms == t_open_ms && c.close == close && c.recv_ms == t.recv_ms,
                _ => r is None,
            },
    {
        self.n_events = self.n_events + 1;
        let recv_ms: i64 = t.recv_ms;
        match self.replay.advance(t) {
            Some((asset, t_open_ms, close)) => Some(Candle { asset, t_open_ms, close, recv_ms }),
            None => None,
        }
    }

    /// The closes over which a volatility of `n_samples` moves is taken; `None`
    /// where they are not all there.
    pub fn lookback(&self, asset: &str, n_samples: usize) -> (r: Option<Vec<Num>>)
        ensures
            match self.history(asset@) {
                Some(buf) => match kline::window_of(buf, n_samples as int, MAX_GAP_MS) {
                    Some(w) => r matches Some(v) && v@ == w,
                    None => r is None,
                },
                None => r is None,
            },
    {
        if same_text(asset, "BTC") {
            self.btc.vol_window(n_samples, MAX_GAP_MS)
        } else if same_text(asset, "ETH") {
            self.eth.vol_window(n_samples, MAX_GAP_MS)
        } else {
            None
        }
    }

    /// Opens a lot for a bet on a candle, unless the filter stops it. The candles
    /// stay as they were: a volatility is taken over candles from before the
    /// signal.
    pub fn bet(&mut self, f: &Fire, filter: &EntryFilter, candle: &Candle) -> (r: bool)
        requires
            old(self).wf(),
            replay::times_fit(*f),
        ensures
            final(self).wf(),
            final(self).n_events == old(self).n_events,
            replay::fired(
                old(self).replay,
                final(self).replay,
                *f,
                *filter,
                candle.close,
                candle.recv_ms,
                r,
            ),
            forall|a: Seq<char>| #[trigger] final(self).history(a) == old(self).history(a),
    {
        self.replay.fire(f, filter, candle.close, candle.recv_ms)
    }

    /// Closes what is still open, and gives all lots of the day.
    pub fn finish(self) -> (r: Vec<CollectedPosition>)
        requires
            self.wf(),
        ensures
            r@ == self.replay.closed@ + replay::all_stamped(
                self.replay.books@,
                position::by_signal(self.replay.active.lots@),
            ),
            forall|i: int| 0 <= i < r@.len() ==> (#[trigger] r@[i]).wf(),
    {
        let mut replay = self.replay;
        replay.finish();
        replay.closed
    }
}

} // verus!
