//! Candles, and what a book says about the pressure on a price.

use crate::backtest::book::{self, room_of, rungs, FullBook};
use crate::backtest::position::{self, ActiveTracker, CollectedPosition, Imbalance};
use crate::config::Num;
use crate::text::same_text;
use std::collections::VecDeque;
use vstd::prelude::*;

verus! {

/// The last candles of an asset: when each began, and its close.
#[derive(Debug, Clone)]
pub struct KlineHist {
    /// The oldest one first.
    pub buf: VecDeque<(i64, Num)>,
    pub cap: usize,
}

/// The candles with one more; at the limit the oldest one goes.
pub open spec fn pushed(buf: Seq<(i64, Num)>, cap: usize, candle: (i64, Num)) -> Seq<(i64, Num)> {
    if buf.len() >= cap && buf.len() > 0 {
        buf.drop_first().push(candle)
    } else {
        buf.push(candle)
    }
}

/// No two neighbours are further apart than `max_gap_ms`.
pub open spec fn gapless(candles: Seq<(i64, Num)>, max_gap_ms: i64) -> bool {
    forall|i: int|
        0 <= i < candles.len() - 1 ==> (#[trigger] candles[i + 1]).0 - candles[i].0 <= max_gap_ms
}

/// The closes over which a volatility of `n_samples` moves is taken: one more
/// than there are moves. `None` where there are too few, or a gap is among them.
pub open spec fn window_of(buf: Seq<(i64, Num)>, n_samples: int, max_gap_ms: i64) -> Option<
    Seq<Num>,
> {
    let n = n_samples + 1;
    if buf.len() < n {
        None
    } else {
        let last = buf.skip(buf.len() - n);
        if gapless(last, max_gap_ms) {
            Some(last.map_values(|c: (i64, Num)| c.1))
        } else {
            None
        }
    }
}

impl KlineHist {
    pub fn with_capacity(cap: usize) -> (r: Self)
        ensures
            r.buf@ == Seq::<(i64, Num)>::empty(),
            r.cap == cap,
    {
        KlineHist { buf: VecDeque::new(), cap }
    }

    /// Adds a candle.
    pub fn push(&mut self, t_open_ms: i64, close: Num)
        ensures
            final(self).buf@ == pushed(old(self).buf@, old(self).cap, (t_open_ms, close)),
            final(self).cap == old(self).cap,
    {
        let ghost before = self.buf@;
        if self.buf.len() >= self.cap {
            let _ = self.buf.pop_front();
        }
        self.buf.push_back((t_open_ms, close));
        assert(self.buf@ =~= pushed(before, self.cap, (t_open_ms, close)));
    }

    /// The closes over which a volatility of `n_samples` moves is taken.
    pub fn vol_window(&self, n_samples: usize, max_gap_ms: i64) -> (r: Option<Vec<Num>>)
        ensures
            match r {
                Some(v) => window_of(self.buf@, n_samples as int, max_gap_ms) == Some(v@),
                None => window_of(self.buf@, n_samples as int, max_gap_ms) is None,
            },
    {
        let len: usize = self.buf.len();
        if len <= n_samples {
            return None;
        }
        let start: usize = len - 1 - n_samples;
        let ghost last = self.buf@.skip(start as int);
        let mut out: Vec<Num> = Vec::new();
        let mut i: usize = start;
        while i < len
            invariant
                start <= i <= len,
                len == self.buf@.len(),
                start == len - 1 - n_samples,
                last == self.buf@.skip(start as int),
                out@.len() == i - start,
                forall|k: int| 0 <= k < out@.len() ==> #[trigger] out@[k] == last[k].1,
                forall|k: int|
                    0 <= k < i - start - 1 ==> (#[trigger] last[k + 1]).0 - last[k].0
                        <= max_gap_ms,
            decreases len - i,
        {
            let (t, close) = self.buf[i];
            if i > start {
                let (before, _) = self.buf[i - 1];
                if t as i128 - before as i128 > max_gap_ms as i128 {
                    proof {
                        let k = i - start - 1;
                        assert(last[k + 1].0 - last[k].0 > max_gap_ms);
                    }
                    return None;
                }
                assert forall|k: int| 0 <= k < i + 1 - start - 1 implies (#[trigger] last[k + 1]).0
                    - last[k].0 <= max_gap_ms by {
                    if k == i - start - 1 {
                        assert(last[k + 1] == self.buf@[i as int]);
                        assert(last[k] == self.buf@[i - 1]);
                    }
                }
            }
            out.push(close);
            i += 1;
        }
        proof {
            assert(gapless(last, max_gap_ms));
            assert(out@ =~= last.map_values(|c: (i64, Num)| c.1));
        }
        Some(out)
    }
}

/// A buffer that begins below its limit never goes above it.
pub proof fn law_history_stays_in_its_limit(buf: Seq<(i64, Num)>, cap: usize, candle: (i64, Num))
    requires
        cap > 0,
        buf.len() <= cap,
    ensures
        pushed(buf, cap, candle).len() <= cap,
        pushed(buf, cap, candle).last() == candle,
{
}

/// No close is known: none was noted, or one that is no number.
pub open spec fn close_is_open(known: Option<Num>) -> bool {
    known is None || known == Some(Num::NotANumber)
}

/// The close of a candle that began exactly `offset_s` seconds after the signal,
/// where none is known yet.
pub open spec fn close_at(
    known: Option<Num>,
    trigger_ms: i64,
    offset_s: int,
    t_open_ms: i64,
    close: Num,
) -> Option<Num> {
    if close_is_open(known) && trigger_ms > 0 && t_open_ms == trigger_ms + offset_s * 1000 {
        Some(close)
    } else {
        known
    }
}

/// A lot after a candle of its asset.
pub open spec fn with_candle(
    p: CollectedPosition,
    asset: Seq<char>,
    t_open_ms: i64,
    close: Num,
) -> CollectedPosition {
    let t = p.entry_trigger_ts_ms;
    if p.asset@ == asset {
        CollectedPosition {
            binance_close_at_2s: close_at(p.binance_close_at_2s, t, 2, t_open_ms, close),
            binance_close_at_5s: close_at(p.binance_close_at_5s, t, 5, t_open_ms, close),
            binance_close_at_10s: close_at(p.binance_close_at_10s, t, 10, t_open_ms, close),
            binance_close_at_30s: close_at(p.binance_close_at_30s, t, 30, t_open_ms, close),
            binance_close_at_60s: close_at(p.binance_close_at_60s, t, 60, t_open_ms, close),
            binance_close_at_120s: close_at(p.binance_close_at_120s, t, 120, t_open_ms, close),
            ..p
        }
    } else {
        p
    }
}

fn later_close(known: Option<Num>, trigger_ms: i64, offset_s: i64, t_open_ms: i64, close: Num) -> (r:
    Option<Num>)
    ensures
        r == close_at(known, trigger_ms, offset_s as int, t_open_ms, close),
{
    let open = match known {
        None | Some(Num::NotANumber) => true,
        _ => false,
    };
    if open && trigger_ms > 0 && t_open_ms as i128 == trigger_ms as i128 + offset_s as i128 * 1000 {
        Some(close)
    } else {
        known
    }
}

fn note_candle(p: &mut CollectedPosition, t_open_ms: i64, close: Num)
    ensures
        *final(p) == with_candle(*old(p), old(p).asset@, t_open_ms, close),
{
    let t: i64 = p.entry_trigger_ts_ms;
    p.binance_close_at_2s = later_close(p.binance_close_at_2s, t, 2, t_open_ms, close);
    p.binance_close_at_5s = later_close(p.binance_close_at_5s, t, 5, t_open_ms, close);
    p.binance_close_at_10s = later_close(p.binance_close_at_10s, t, 10, t_open_ms, close);
    p.binance_close_at_30s = later_close(p.binance_close_at_30s, t, 30, t_open_ms, close);
    p.binance_close_at_60s = later_close(p.binance_close_at_60s, t, 60, t_open_ms, close);
    p.binance_close_at_120s = later_close(p.binance_close_at_120s, t, 120, t_open_ms, close);
}

/// Notes a candle in every open lot of its asset.
pub fn record_kline_for_active(
    active: &mut ActiveTracker,
    asset: &str,
    t_open_ms: i64,
    close: Num,
)
    requires
        old(active).wf(),
    ensures
        final(active).wf(),
        final(active).lots@ == old(active).lots@.map_values(
            |p: CollectedPosition| with_candle(p, asset@, t_open_ms, close),
        ),
{
    let ghost lots = active.lots@;
    let mut i: usize = 0;
    while i < active.lots.len()
        invariant
            i <= lots.len(),
            lots == old(active).lots@,
            active.lots@.len() == lots.len(),
            active.wf(),
            forall|k: int|
                0 <= k < i ==> #[trigger] active.lots@[k] == with_candle(
                    lots[k],
                    asset@,
                    t_open_ms,
                    close,
                ),
            forall|k: int| i <= k < lots.len() ==> #[trigger] active.lots@[k] == lots[k],
        decreases lots.len() - i,
    {
        if same_text(&active.lots[i].asset, asset) {
            let ghost before = active.lots@;
            note_candle(&mut active.lots[i], t_open_ms, close);
            proof {
                assert(active.lots@ =~= before.update(i as int, active.lots@[i as int]));
                assert(before[i as int].wf());
                assert forall|a: int, b: int| 0 <= a < b < active.lots@.len() implies !position::same_lot(
                    #[trigger] active.lots@[a],
                    #[trigger] active.lots@[b],
                ) by {
                    assert(!position::same_lot(before[a], before[b]));
                }
                let q = active.lots@[i as int];
                assert forall|k: int| 0 <= k < q.trajectory@.len() implies position::possible(
                    q,
                    (#[trigger] q.trajectory@[k]).1,
                ) by {
                    assert(position::possible(before[i as int], before[i as int].trajectory@[k].1));
                }
            }
        }
        i += 1;
    }
    proof {
        assert(active.lots@ =~= lots.map_values(
            |p: CollectedPosition| with_candle(p, asset@, t_open_ms, close),
        ));
    }
}

/// The size of every level is a finite number.
pub open spec fn all_finite(levels: Seq<(u32, Num)>) -> bool {
    forall|i: int| 0 <= i < levels.len() ==> (#[trigger] levels[i]).1 is Finite
}

/// What levels take, in units of 1e-15 shares.
pub open spec fn size_of(levels: Seq<(u32, Num)>) -> int
    decreases levels.len(),
{
    if levels.len() == 0 {
        0
    } else {
        book::room(levels.last().1) + size_of(levels.drop_last())
    }
}

/// At most the last `n` levels: of the bids those are the best.
pub open spec fn last_levels(levels: Seq<(u32, Num)>, n: int) -> Seq<(u32, Num)> {
    if levels.len() <= n {
        levels
    } else {
        levels.skip(levels.len() - n)
    }
}

/// At most the first `n` levels: of the asks those are the best.
pub open spec fn first_levels(levels: Seq<(u32, Num)>, n: int) -> Seq<(u32, Num)> {
    if levels.len() <= n {
        levels
    } else {
        levels.take(n)
    }
}

/// The imbalance over the best `n` levels of each side; none where a side is
/// empty, nothing stands on the levels, or a size is no finite number, so that the
/// imbalance is no number either.
pub open spec fn imbalance(bids: Seq<(u32, Num)>, asks: Seq<(u32, Num)>, n: int) -> Option<
    Imbalance,
> {
    let b = size_of(last_levels(bids, n));
    let a = size_of(first_levels(asks, n));
    if bids.len() == 0 || asks.len() == 0 || n == 0 || !all_finite(last_levels(bids, n))
        || !all_finite(first_levels(asks, n)) || b + a <= 0 {
        None
    } else {
        Some(Imbalance { net: (b - a) as i128, total: (b + a) as u128 })
    }
}

proof fn lemma_few_levels(levels: Seq<(u32, Num)>, m: Map<u32, Num>)
    requires
        book::is_ladder(levels, m),
    ensures
        levels.len() <= 0x1_0000_0000,
{
    if levels.len() > 0 {
        lemma_key_at_least(levels, m, levels.len() - 1);
    }
}

proof fn lemma_key_at_least(levels: Seq<(u32, Num)>, m: Map<u32, Num>, i: int)
    requires
        book::is_ladder(levels, m),
        0 <= i < levels.len(),
    ensures
        levels[i].0 >= i,
    decreases i,
{
    if i > 0 {
        lemma_key_at_least(levels, m, i - 1);
        assert(levels[i - 1].0 < levels[i].0);
    }
}

fn sum_sizes(levels: &[(u32, Num)], from: usize, to: usize) -> (r: Option<u128>)
    requires
        from <= to <= levels@.len(),
        levels@.len() <= 0x1_0000_0000,
    ensures
        match r {
            Some(n) => all_finite(levels@.subrange(from as int, to as int)) && n == size_of(
                levels@.subrange(from as int, to as int),
            ) && n <= 0x1_0000_0000 * book::MOST,
            None => !all_finite(levels@.subrange(from as int, to as int)),
        },
{
    let mut total: u128 = 0;
    let mut i: usize = from;
    proof {
        assert(levels@.subrange(from as int, from as int) =~= Seq::empty());
    }
    while i < to
        invariant
            from <= i <= to <= levels@.len(),
            levels@.len() <= 0x1_0000_0000,
            all_finite(levels@.subrange(from as int, i as int)),
            total == size_of(levels@.subrange(from as int, i as int)),
            total <= (i - from) * book::MOST,
        decreases to - i,
    {
        let ghost next = levels@.subrange(from as int, i + 1);
        proof {
            assert(next.drop_last() =~= levels@.subrange(from as int, i as int));
            assert(next.last() == levels@[i as int]);
            assert((i - from) * book::MOST + book::MOST == (i + 1 - from) * book::MOST)
                by (nonlinear_arith);
            assert((i + 1 - from) * book::MOST <= 0x1_0000_0000 * book::MOST) by (nonlinear_arith)
                requires
                    0 <= i + 1 - from <= 0x1_0000_0000,
            ;
        }
        let (_, size) = levels[i];
        match size {
            Num::Finite(_) => {},
            _ => {
                proof {
                    let all = levels@.subrange(from as int, to as int);
                    assert(all[i - from] == levels@[i as int]);
                }
                return None;
            },
        }
        total = total + room_of(size);
        i += 1;
        assert(all_finite(next)) by {
            assert forall|k: int| 0 <= k < next.len() implies (#[trigger] next[k]).1 is Finite by {
                if k < next.len() - 1 {
                    assert(next[k] == next.drop_last()[k]);
                }
            }
        }
    }
    proof {
        assert((to - from) * book::MOST <= 0x1_0000_0000 * book::MOST) by (nonlinear_arith)
            requires
                0 <= to - from <= 0x1_0000_0000,
        ;
    }
    Some(total)
}

/// The imbalance of a book over the best `top_n` levels of each side.
pub fn compute_obi(book: &FullBook, top_n: usize) -> (r: Option<Imbalance>)
    ensures
        r == imbalance(
            book::ladder_of(book.bids@),
            book::ladder_of(book.asks@),
            top_n as int,
        ),
{
    let bids = rungs(&book.bids);
    let asks = rungs(&book.asks);
    proof {
        lemma_few_levels(bids@, book.bids@);
        lemma_few_levels(asks@, book.asks@);
    }
    if bids.len() == 0 || asks.len() == 0 || top_n == 0 {
        None
    } else {
        let from: usize = if bids.len() <= top_n {
            0
        } else {
            bids.len() - top_n
        };
        let to: usize = if asks.len() <= top_n {
            asks.len()
        } else {
            top_n
        };
        let bid_size = sum_sizes(bids.as_slice(), from, bids.len());
        let ask_size = sum_sizes(asks.as_slice(), 0, to);
        proof {
            assert(bids@.subrange(from as int, bids@.len() as int) =~= last_levels(
                bids@,
                top_n as int,
            ));
            assert(asks@.subrange(0, to as int) =~= first_levels(asks@, top_n as int));
        }
        match (bid_size, ask_size) {
            (Some(b), Some(a)) => {
                if b + a == 0 {
                    None
                } else {
                    Some(Imbalance { net: b as i128 - a as i128, total: b + a })
                }
            },
            _ => None,
        }
    }
}

proof fn lemma_size_nonneg(levels: Seq<(u32, Num)>)
    ensures
        size_of(levels) >= 0,
    decreases levels.len(),
{
    if levels.len() > 0 {
        lemma_size_nonneg(levels.drop_last());
        book::lemma_room(levels.last().1);
    }
}

/// An imbalance is never larger than what it is measured by.
pub proof fn law_imbalance_is_a_share(bids: Seq<(u32, Num)>, asks: Seq<(u32, Num)>, n: int)
    requires
        size_of(last_levels(bids, n)) <= 0x1_0000_0000 * book::MOST,
        size_of(first_levels(asks, n)) <= 0x1_0000_0000 * book::MOST,
        imbalance(bids, asks, n) is Some,
    ensures
        -imbalance(bids, asks, n)->0.total <= imbalance(bids, asks, n)->0.net
            <= imbalance(bids, asks, n)->0.total,
{
    lemma_size_nonneg(last_levels(bids, n));
    lemma_size_nonneg(first_levels(asks, n));
}

} // verus!
