//! Lots that the backtester holds, and the samples that it takes of them.

use crate::backtest::book::{self, FullBook};
use crate::backtest::trajectory::Sample;
use crate::config::Num;
use crate::decimal::Dec;
use crate::text::{self, same_text, text_le};
use vstd::prelude::*;

verus! {

/// How much more size stands on one side of a book than on the other.
#[derive(Debug, Clone, Copy, PartialEq, Eq, Structural)]
pub struct Imbalance {
    /// Bids less asks.
    pub net: i128,
    /// Bids and asks.
    pub total: u128,
}

/// A lot as it was entered, and what was seen of it since.
#[derive(Debug, Clone)]
pub struct CollectedPosition {
    pub token: String,
    pub asset: String,
    pub interval: String,
    /// The second at which the lot's market began.
    pub epoch: i64,
    pub direction: String,
    pub signal_id: String,
    pub entry_recv_ms: i64,
    /// The price key that was paid.
    pub entry_price: u32,
    /// Millionths of a share.
    pub shares: u64,
    pub exit_ts_ms: i64,
    /// The close of the candle that gave the signal.
    pub trigger_close: Num,
    /// The move that gave the signal, in basis points.
    pub trigger_ret_bps: Num,
    pub maker_fee_bps: i64,
    pub taker_fee_bps: i64,
    pub fee_type: String,
    pub entry_trigger_ts_ms: i64,
    pub obi_top1: Option<Imbalance>,
    pub obi_top3: Option<Imbalance>,
    pub binance_close_at_2s: Option<Num>,
    pub binance_close_at_5s: Option<Num>,
    pub binance_close_at_10s: Option<Num>,
    pub binance_close_at_30s: Option<Num>,
    pub binance_close_at_60s: Option<Num>,
    pub binance_close_at_120s: Option<Num>,
    pub vol_30m: Option<Dec>,
    pub vol_60m: Option<Dec>,
    pub trajectory: Vec<Sample>,
    /// The best bid and ask at each sample.
    pub trajectory_bbo: Vec<(i64, Option<u32>, Option<u32>)>,
    pub time_exit_bid: Option<u128>,
    pub uncoverable_samples: usize,
    pub total_samples: usize,
}

/// How many samples have no price.
pub open spec fn uncovered(samples: Seq<Sample>) -> nat
    decreases samples.len(),
{
    if samples.len() == 0 {
        0
    } else {
        uncovered(samples.drop_last()) + (if samples.last().1 is None {
            1nat
        } else {
            0nat
        })
    }
}

proof fn lemma_uncovered_bound(samples: Seq<Sample>)
    ensures
        uncovered(samples) <= samples.len(),
    decreases samples.len(),
{
    if samples.len() > 0 {
        lemma_uncovered_bound(samples.drop_last());
    }
}

/// What was paid for a lot, in units of 1e-10 dollars.
pub open spec fn cost(p: CollectedPosition) -> int {
    p.shares * p.entry_price
}

/// A value that a sale of the whole lot can bring.
pub open spec fn possible(p: CollectedPosition, v: Option<u128>) -> bool {
    v matches Some(v) ==> v <= p.shares * u32::MAX
}

impl CollectedPosition {
    /// The counts are those of the samples, each sample has its best bid and
    /// ask, and no sale brings more than the highest price.
    pub open spec fn wf(self) -> bool {
        &&& self.total_samples == self.trajectory@.len()
        &&& self.uncoverable_samples == uncovered(self.trajectory@)
        &&& self.trajectory_bbo@.len() == self.trajectory@.len()
        &&& forall|i: int|
            0 <= i < self.trajectory@.len() ==> possible(self, (#[trigger] self.trajectory@[i]).1)
        &&& possible(self, self.time_exit_bid)
    }
}

/// The lot with one more sample.
pub open spec fn is_sampled(
    before: CollectedPosition,
    after: CollectedPosition,
    recv_ms: i64,
    value: Option<u128>,
    best_bid: Option<u32>,
    best_ask: Option<u32>,
) -> bool {
    &&& after == (CollectedPosition {
        trajectory: after.trajectory,
        trajectory_bbo: after.trajectory_bbo,
        uncoverable_samples: after.uncoverable_samples,
        total_samples: after.total_samples,
        ..before
    })
    &&& after.trajectory@ == before.trajectory@.push((recv_ms, value))
    &&& after.trajectory_bbo@ == before.trajectory_bbo@.push((recv_ms, best_bid, best_ask))
    &&& after.total_samples == before.total_samples + 1
    &&& after.uncoverable_samples == before.uncoverable_samples + (if value is None {
        1int
    } else {
        0int
    })
}

fn take_sample(
    p: &mut CollectedPosition,
    recv_ms: i64,
    value: Option<u128>,
    best_bid: Option<u32>,
    best_ask: Option<u32>,
)
    requires
        old(p).wf(),
        possible(*old(p), value),
    ensures
        is_sampled(*old(p), *final(p), recv_ms, value, best_bid, best_ask),
        final(p).wf(),
{
    let ghost before = *p;
    p.trajectory.push((recv_ms, value));
    p.trajectory_bbo.push((recv_ms, best_bid, best_ask));
    let n: usize = p.trajectory.len();
    p.total_samples = n;
    proof {
        lemma_uncovered_bound(before.trajectory@);
        assert(p.trajectory@.drop_last() =~= before.trajectory@);
        assert(n == before.total_samples + 1);
    }
    if value.is_none() {
        p.uncoverable_samples = p.uncoverable_samples + 1;
    }
    assert forall|i: int| 0 <= i < p.trajectory@.len() implies possible(
        *p,
        (#[trigger] p.trajectory@[i]).1,
    ) by {
        if i < before.trajectory@.len() {
            assert(p.trajectory@[i] == before.trajectory@[i]);
        }
    }
}

/// A lot is known by its token and its signal.
pub open spec fn same_lot(a: CollectedPosition, b: CollectedPosition) -> bool {
    a.token@ == b.token@ && a.signal_id@ == b.signal_id@
}

/// The place of a lot.
pub open spec fn lot_place(lots: Seq<CollectedPosition>, p: CollectedPosition) -> Option<int>
    decreases lots.len(),
{
    if lots.len() == 0 {
        None
    } else {
        match lot_place(lots.drop_last(), p) {
            Some(i) => Some(i),
            None => if same_lot(lots.last(), p) {
                Some(lots.len() - 1)
            } else {
                None
            },
        }
    }
}

/// The lots with one more; one that is known already is replaced.
pub open spec fn with_lot(lots: Seq<CollectedPosition>, p: CollectedPosition) -> Seq<
    CollectedPosition,
> {
    match lot_place(lots, p) {
        Some(i) => lots.update(i, p),
        None => lots.push(p),
    }
}

/// No lot is there twice.
pub open spec fn distinct(lots: Seq<CollectedPosition>) -> bool {
    forall|i: int, j: int|
        0 <= i < j < lots.len() ==> !same_lot(#[trigger] lots[i], #[trigger] lots[j])
}

/// Whether a lot's time has come.
pub open spec fn is_due(p: CollectedPosition, now_ms: i64) -> bool {
    p.exit_ts_ms <= now_ms
}

/// The lots whose time has come, or has not.
pub open spec fn chosen(lots: Seq<CollectedPosition>, now_ms: i64, due: bool) -> Seq<
    CollectedPosition,
>
    decreases lots.len(),
{
    if lots.len() == 0 {
        Seq::empty()
    } else {
        let before = chosen(lots.drop_last(), now_ms, due);
        if is_due(lots.last(), now_ms) == due {
            before.push(lots.last())
        } else {
            before
        }
    }
}

/// A lot put behind all those whose signal does not come after its own.
pub open spec fn inserted(lots: Seq<CollectedPosition>, p: CollectedPosition) -> Seq<
    CollectedPosition,
>
    decreases lots.len(),
{
    if lots.len() == 0 || text::dictionary_le(lots.last().signal_id@, p.signal_id@) {
        lots.push(p)
    } else {
        inserted(lots.drop_last(), p).push(lots.last())
    }
}

/// Lots by their signals, in dictionary order; equal ones keep their order.
pub open spec fn by_signal(lots: Seq<CollectedPosition>) -> Seq<CollectedPosition>
    decreases lots.len(),
{
    if lots.len() == 0 {
        Seq::empty()
    } else {
        inserted(by_signal(lots.drop_last()), lots.last())
    }
}

pub open spec fn signals_ascend(lots: Seq<CollectedPosition>) -> bool {
    forall|i: int, j: int|
        0 <= i <= j < lots.len() ==> text::dictionary_le(
            (#[trigger] lots[i]).signal_id@,
            (#[trigger] lots[j]).signal_id@,
        )
}

proof fn lemma_inserted(lots: Seq<CollectedPosition>, p: CollectedPosition)
    requires
        signals_ascend(lots),
    ensures
        signals_ascend(inserted(lots, p)),
        inserted(lots, p).to_multiset() == lots.to_multiset().insert(p),
        inserted(lots, p).len() == lots.len() + 1,
        forall|i: int|
            0 <= i < inserted(lots, p).len() ==> (#[trigger] inserted(lots, p)[i] == p
                || lots.contains(inserted(lots, p)[i])),
    decreases lots.len(),
{
    broadcast use vstd::seq_lib::group_to_multiset_ensures;

    let r = inserted(lots, p);
    if lots.len() == 0 || text::dictionary_le(lots.last().signal_id@, p.signal_id@) {
        assert forall|i: int, j: int| 0 <= i <= j < r.len() implies text::dictionary_le(
            (#[trigger] r[i]).signal_id@,
            (#[trigger] r[j]).signal_id@,
        ) by {
            if j == lots.len() {
                if i == j {
                    text::lemma_dictionary_total(p.signal_id@, p.signal_id@);
                } else {
                    assert(text::dictionary_le(
                        lots[i].signal_id@,
                        lots[lots.len() - 1].signal_id@,
                    ));
                    text::lemma_dictionary_transitive(
                        lots[i].signal_id@,
                        lots.last().signal_id@,
                        p.signal_id@,
                    );
                }
            }
        }
        assert forall|i: int| 0 <= i < r.len() implies (#[trigger] r[i] == p || lots.contains(
            r[i],
        )) by {
            if i < lots.len() {
                assert(lots[i] == r[i]);
            }
        }
    } else {
        let before = lots.drop_last();
        let ins = inserted(before, p);
        assert forall|i: int, j: int| 0 <= i <= j < before.len() implies text::dictionary_le(
            (#[trigger] before[i]).signal_id@,
            (#[trigger] before[j]).signal_id@,
        ) by {
            assert(before[i] == lots[i]);
            assert(before[j] == lots[j]);
        }
        lemma_inserted(before, p);
        text::lemma_dictionary_total(lots.last().signal_id@, p.signal_id@);
        assert(lots =~= before.push(lots.last()));
        assert(r == ins.push(lots.last()));
        assert forall|i: int, j: int| 0 <= i <= j < r.len() implies text::dictionary_le(
            (#[trigger] r[i]).signal_id@,
            (#[trigger] r[j]).signal_id@,
        ) by {
            if j == ins.len() {
                if i == j {
                    text::lemma_dictionary_total(r[i].signal_id@, r[i].signal_id@);
                } else {
                    assert(ins[i] == p || before.contains(ins[i]));
                    if ins[i] != p {
                        let k = choose|k: int| 0 <= k < before.len() && before[k] == ins[i];
                        assert(lots[k] == ins[i]);
                        assert(text::dictionary_le(
                            lots[k].signal_id@,
                            lots[lots.len() - 1].signal_id@,
                        ));
                    }
                }
            }
        }
        assert forall|i: int| 0 <= i < r.len() implies (#[trigger] r[i] == p || lots.contains(
            r[i],
        )) by {
            if i < ins.len() {
                assert(r[i] == ins[i]);
                if ins[i] != p {
                    let k = choose|k: int| 0 <= k < before.len() && before[k] == ins[i];
                    assert(lots[k] == ins[i]);
                }
            } else {
                assert(r[i] == lots[lots.len() - 1]);
            }
        }
    }
}

/// Lots by their signals are in dictionary order, and none is lost or gained.
pub proof fn law_lots_by_signal_are_sorted(lots: Seq<CollectedPosition>)
    ensures
        signals_ascend(by_signal(lots)),
        by_signal(lots).to_multiset() == lots.to_multiset(),
        by_signal(lots).len() == lots.len(),
    decreases lots.len(),
{
    broadcast use vstd::seq_lib::group_to_multiset_ensures;

    if lots.len() > 0 {
        law_lots_by_signal_are_sorted(lots.drop_last());
        lemma_inserted(by_signal(lots.drop_last()), lots.last());
        assert(lots =~= lots.drop_last().push(lots.last()));
    } else {
        assert(by_signal(lots) =~= lots);
    }
}

fn insert_by_signal(lots: &mut Vec<CollectedPosition>, p: CollectedPosition)
    ensures
        final(lots)@ == inserted(old(lots)@, p),
{
    let ghost all = lots@;
    let mut i: usize = lots.len();
    proof {
        assert(all.take(i as int) =~= all);
        assert(all.skip(i as int) =~= Seq::empty());
        assert(inserted(all, p) =~= inserted(all.take(i as int), p) + all.skip(i as int));
    }
    while i > 0 && !text_le(&lots[i - 1].signal_id, &p.signal_id)
        invariant
            i <= lots@.len(),
            lots@ == all,
            inserted(all, p) == inserted(all.take(i as int), p) + all.skip(i as int),
        decreases i,
    {
        proof {
            let t = all.take(i as int);
            assert(t.drop_last() =~= all.take(i - 1));
            assert(t.last() == all[i - 1]);
            assert(inserted(t, p) == inserted(all.take(i - 1), p).push(all[i - 1]));
            assert(all.skip(i - 1) =~= seq![all[i - 1]] + all.skip(i as int));
            assert(inserted(all, p) =~= inserted(all.take(i - 1), p) + all.skip(i - 1));
        }
        i -= 1;
    }
    proof {
        let t = all.take(i as int);
        if i > 0 {
            assert(t.last() == all[i - 1]);
        }
        assert(inserted(t, p) == t.push(p));
        assert(all.insert(i as int, p) =~= t.push(p) + all.skip(i as int));
    }
    lots.insert(i, p);
}

/// The lots by their signals.
pub fn sort_by_signal(lots: Vec<CollectedPosition>) -> (r: Vec<CollectedPosition>)
    ensures
        r@ == by_signal(lots@),
{
    let ghost all = lots@;
    let mut rest = lots;
    let mut out: Vec<CollectedPosition> = Vec::new();
    let ghost mut k: int = 0;
    proof {
        assert(all.skip(0) =~= all);
        assert(all.take(0) =~= Seq::empty());
    }
    while rest.len() > 0
        invariant
            0 <= k <= all.len(),
            rest@ == all.skip(k),
            out@ == by_signal(all.take(k)),
        decreases rest@.len(),
    {
        let p = rest.remove(0);
        proof {
            assert(p == all[k]);
            assert(all.take(k + 1).drop_last() =~= all.take(k));
            assert(all.take(k + 1).last() == all[k]);
            assert(rest@ =~= all.skip(k + 1));
        }
        insert_by_signal(&mut out, p);
        proof {
            k = k + 1;
        }
    }
    proof {
        assert(all.take(k) =~= all);
    }
    out
}

/// The lots that are open.
pub struct ActiveTracker {
    pub lots: Vec<CollectedPosition>,
}

pub proof fn lemma_lot_place(lots: Seq<CollectedPosition>, p: CollectedPosition)
    ensures
        match lot_place(lots, p) {
            Some(i) => 0 <= i < lots.len() && same_lot(lots[i], p) && forall|j: int|
                0 <= j < i ==> !same_lot(#[trigger] lots[j], p),
            None => forall|j: int| 0 <= j < lots.len() ==> !same_lot(#[trigger] lots[j], p),
        },
    decreases lots.len(),
{
    if lots.len() > 0 {
        let before = lots.drop_last();
        lemma_lot_place(before, p);
        assert forall|j: int| 0 <= j < before.len() implies #[trigger] lots[j] == before[j] by {}
    }
}

impl ActiveTracker {
    /// No lot is there twice, and each is well-formed.
    pub open spec fn wf(self) -> bool {
        &&& distinct(self.lots@)
        &&& forall|i: int| 0 <= i < self.lots@.len() ==> (#[trigger] self.lots@[i]).wf()
    }

    pub fn new() -> (r: Self)
        ensures
            r.lots@ == Seq::<CollectedPosition>::empty(),
            r.wf(),
    {
        ActiveTracker { lots: Vec::new() }
    }

    /// Opens a lot.
    pub fn add(&mut self, p: CollectedPosition)
        requires
            old(self).wf(),
            p.wf(),
        ensures
            final(self).lots@ == with_lot(old(self).lots@, p),
            final(self).wf(),
    {
        let ghost lots = self.lots@;
        let mut i: usize = 0;
        proof {
            lemma_lot_place(lots, p);
        }
        while i < self.lots.len()
            invariant
                lots == self.lots@,
                self.wf(),
                p.wf(),
                old(self).lots@ == lots,
                i <= lots.len(),
                forall|j: int| 0 <= j < i ==> !same_lot(#[trigger] lots[j], p),
            decreases lots.len() - i,
        {
            if same_text(&self.lots[i].token, &p.token) && same_text(
                &self.lots[i].signal_id,
                &p.signal_id,
            ) {
                proof {
                    lemma_lot_place(lots, p);
                    match lot_place(lots, p) {
                        Some(k) => {
                            if k < i {
                                assert(!same_lot(lots[k], p));
                            }
                        },
                        None => {
                            assert(!same_lot(lots[i as int], p));
                        },
                    }
                }
                self.lots.set(i, p);
                assert forall|a: int, b: int| 0 <= a < b < self.lots@.len() implies !same_lot(
                    #[trigger] self.lots@[a],
                    #[trigger] self.lots@[b],
                ) by {
                    assert(!same_lot(lots[a], lots[b]));
                }
                return;
            }
            i += 1;
        }
        proof {
            lemma_lot_place(lots, p);
        }
        self.lots.push(p);
    }

    /// Takes a sample of every lot of a token from the token's book.
    pub fn sample(&mut self, token: &str, recv_ms: i64, book: &FullBook)
        requires
            old(self).wf(),
        ensures
            final(self).wf(),
            final(self).lots@.len() == old(self).lots@.len(),
            forall|i: int|
                0 <= i < old(self).lots@.len() ==> after_book(
                    #[trigger] old(self).lots@[i],
                    final(self).lots@[i],
                    token@,
                    recv_ms,
                    *book,
                ),
    {
        let ghost lots = self.lots@;
        let best_bid = book.best_bid();
        let best_ask = book.best_ask();
        let mut i: usize = 0;
        while i < self.lots.len()
            invariant
                self.wf(),
                lots == old(self).lots@,
                self.lots@.len() == lots.len(),
                i <= lots.len(),
                book::is_best_bid(*book, best_bid),
                book::is_best_ask(*book, best_ask),
                forall|k: int|
                    0 <= k < i ==> after_book(
                        #[trigger] lots[k],
                        self.lots@[k],
                        token@,
                        recv_ms,
                        *book,
                    ),
                forall|k: int| i <= k < lots.len() ==> #[trigger] self.lots@[k] == lots[k],
            decreases lots.len() - i,
        {
            if same_text(&self.lots[i].token, token) {
                let value = book.executable_bid_for_shares(self.lots[i].shares);
                let ghost before = self.lots@;
                take_sample(&mut self.lots[i], recv_ms, value, best_bid, best_ask);
                proof {
                    let after = self.lots@[i as int];
                    assert(self.lots@ =~= before.update(i as int, after));
                    assert(is_sampled(before[i as int], after, recv_ms, value, best_bid, best_ask));
                    assert(after_book(lots[i as int], after, token@, recv_ms, *book)) by {
                        assert(sampled_from(lots[i as int], after, recv_ms, value, best_bid, best_ask, *book));
                    }
                    assert forall|a: int, b: int| 0 <= a < b < self.lots@.len() implies !same_lot(
                        #[trigger] self.lots@[a],
                        #[trigger] self.lots@[b],
                    ) by {
                        assert(!same_lot(before[a], before[b]));
                    }
                }
            }
            i += 1;
        }
    }

    /// Takes out the lots whose time has come, by their signals.
    pub fn drain_due(&mut self, now_ms: i64) -> (r: Vec<CollectedPosition>)
        requires
            old(self).wf(),
        ensures
            r@ == by_signal(chosen(old(self).lots@, now_ms, true)),
            final(self).lots@ == chosen(old(self).lots@, now_ms, false),
            final(self).wf(),
            forall|i: int| 0 <= i < r@.len() ==> (#[trigger] r@[i]).wf(),
    {
        let ghost lots = self.lots@;
        let mut any = false;
        let mut i: usize = 0;
        proof {
            assert(lots.take(0) =~= Seq::empty());
        }
        while i < self.lots.len() && !any
            invariant
                lots == self.lots@,
                i <= lots.len(),
                !any ==> chosen(lots.take(i as int), now_ms, true) == Seq::<
                    CollectedPosition,
                >::empty(),
                !any ==> chosen(lots.take(i as int), now_ms, false) == lots.take(i as int),
            decreases lots.len() - i + (if any {
                0int
            } else {
                1int
            }),
        {
            if self.lots[i].exit_ts_ms <= now_ms {
                any = true;
            } else {
                proof {
                    assert(lots.take(i + 1).drop_last() =~= lots.take(i as int));
                    assert(lots.take(i + 1).last() == lots[i as int]);
                    assert(lots.take(i + 1) =~= lots.take(i as int).push(lots[i as int]));
                }
                i += 1;
            }
        }
        if !any {
            assert(lots.take(i as int) =~= lots);
            let r: Vec<CollectedPosition> = Vec::new();
            assert(by_signal(Seq::<CollectedPosition>::empty()) =~= r@);
            return r;
        }
        let mut due: Vec<CollectedPosition> = Vec::new();
        let mut open: Vec<CollectedPosition> = Vec::new();
        let mut rest: Vec<CollectedPosition> = Vec::new();
        std::mem::swap(&mut self.lots, &mut rest);
        let ghost mut k: int = 0;
        proof {
            assert(lots.skip(0) =~= lots);
        }
        while rest.len() > 0
            invariant
                0 <= k <= lots.len(),
                rest@ == lots.skip(k),
                due@ == chosen(lots.take(k), now_ms, true),
                open@ == chosen(lots.take(k), now_ms, false),
            decreases rest@.len(),
        {
            let p = rest.remove(0);
            proof {
                assert(p == lots[k]);
                assert(lots.take(k + 1).drop_last() =~= lots.take(k));
                assert(lots.take(k + 1).last() == lots[k]);
                assert(rest@ =~= lots.skip(k + 1));
                k = k + 1;
            }
            if p.exit_ts_ms <= now_ms {
                due.push(p);
            } else {
                open.push(p);
            }
        }
        proof {
            assert(lots.take(k) =~= lots);
            lemma_chosen(lots, now_ms, false);
            lemma_chosen(lots, now_ms, true);
            law_lots_by_signal_are_sorted(due@);
            lemma_wf_by_signal(due@);
        }
        self.lots = open;
        sort_by_signal(due)
    }

    /// Takes out all lots, by their signals.
    pub fn drain_all(&mut self) -> (r: Vec<CollectedPosition>)
        requires
            old(self).wf(),
        ensures
            r@ == by_signal(old(self).lots@),
            final(self).lots@ == Seq::<CollectedPosition>::empty(),
            final(self).wf(),
            forall|i: int| 0 <= i < r@.len() ==> (#[trigger] r@[i]).wf(),
    {
        let mut all: Vec<CollectedPosition> = Vec::new();
        std::mem::swap(&mut self.lots, &mut all);
        proof {
            lemma_wf_by_signal(all@);
        }
        sort_by_signal(all)
    }
}

proof fn lemma_wf_by_signal(lots: Seq<CollectedPosition>)
    requires
        forall|i: int| 0 <= i < lots.len() ==> (#[trigger] lots[i]).wf(),
    ensures
        forall|i: int| 0 <= i < by_signal(lots).len() ==> (#[trigger] by_signal(lots)[i]).wf(),
    decreases lots.len(),
{
    if lots.len() > 0 {
        let before = lots.drop_last();
        assert forall|i: int| 0 <= i < before.len() implies (#[trigger] before[i]).wf() by {
            assert(before[i] == lots[i]);
        }
        lemma_wf_by_signal(before);
        law_lots_by_signal_are_sorted(before);
        let b = by_signal(before);
        lemma_inserted(b, lots.last());
        assert forall|i: int| 0 <= i < by_signal(lots).len() implies (#[trigger] by_signal(
            lots,
        )[i]).wf() by {
            assert(inserted(b, lots.last())[i] == lots.last() || b.contains(
                inserted(b, lots.last())[i],
            ));
            assert(lots[lots.len() - 1].wf());
        }
    }
}

proof fn lemma_chosen(lots: Seq<CollectedPosition>, now_ms: i64, due: bool)
    ensures
        distinct(lots) ==> distinct(chosen(lots, now_ms, due)),
        forall|i: int|
            0 <= i < chosen(lots, now_ms, due).len() ==> lots.contains(
                #[trigger] chosen(lots, now_ms, due)[i],
            ),
    decreases lots.len(),
{
    if lots.len() > 0 {
        let before = lots.drop_last();
        lemma_chosen(before, now_ms, due);
        let c = chosen(lots, now_ms, due);
        let b = chosen(before, now_ms, due);
        assert forall|i: int| 0 <= i < c.len() implies lots.contains(#[trigger] c[i]) by {
            if i < b.len() {
                assert(c[i] == b[i]);
                let k = choose|k: int| 0 <= k < before.len() && before[k] == b[i];
                assert(lots[k] == b[i]);
            } else {
                assert(c[i] == lots[lots.len() - 1]);
            }
        }
        if distinct(lots) {
            assert forall|i: int, j: int| 0 <= i < j < before.len() implies !same_lot(
                #[trigger] before[i],
                #[trigger] before[j],
            ) by {
                assert(before[i] == lots[i]);
                assert(before[j] == lots[j]);
            }
            assert forall|i: int, j: int| 0 <= i < j < c.len() implies !same_lot(
                #[trigger] c[i],
                #[trigger] c[j],
            ) by {
                assert(c[i] == b[i]);
                if j < b.len() {
                    assert(c[j] == b[j]);
                } else {
                    assert(before.contains(b[i]));
                    let k = choose|k: int| 0 <= k < before.len() && before[k] == b[i];
                    assert(lots[k] == b[i]);
                    assert(!same_lot(lots[k], lots[lots.len() - 1]));
                }
            }
        }
    }
}

/// What a sale of a whole lot brings, as a plain value.
pub open spec fn sale(b: FullBook, shares: u64) -> Option<int> {
    book::executable(book::ladder_of(b.bids@), shares)
}

/// A value as a plain one.
pub open spec fn amount(v: Option<u128>) -> Option<int> {
    match v {
        Some(v) => Some(v as int),
        None => None,
    }
}

/// The lot with a sample of a book.
pub open spec fn sampled_from(
    before: CollectedPosition,
    after: CollectedPosition,
    recv_ms: i64,
    value: Option<u128>,
    best_bid: Option<u32>,
    best_ask: Option<u32>,
    b: FullBook,
) -> bool {
    &&& is_sampled(before, after, recv_ms, value, best_bid, best_ask)
    &&& amount(value) == sale(b, before.shares)
    &&& book::is_best_bid(b, best_bid)
    &&& book::is_best_ask(b, best_ask)
}

/// What a change of a token's book does to a lot: a lot of the token gets a
/// sample, any other stays as it is.
pub open spec fn after_book(
    before: CollectedPosition,
    after: CollectedPosition,
    token: Seq<char>,
    recv_ms: i64,
    b: FullBook,
) -> bool {
    if before.token@ == token {
        exists|value: Option<u128>, best_bid: Option<u32>, best_ask: Option<u32>| #[trigger]
            sampled_from(before, after, recv_ms, value, best_bid, best_ask, b)
    } else {
        after == before
    }
}

} // verus!
