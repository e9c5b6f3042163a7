//! Replay of the strategy over recorded trades, one JSON object per line.

use crate::b3_maker::{self, cell_label, replay_lot, BidAt, CellAgg, ReplayLot};
use crate::backtest::metrics;
use crate::backtest::record::{self, read_word};
use crate::config::{Num, NumV};
use crate::decimal::{self, add_amounts, Dec, DecV};
use crate::json::{self, int_at, item_place, len_at, number_at, read_json};
use crate::numeral::{self, read_value};
use crate::text::{self, chars_of, same_text, text_le};
use serde_json::Value;
use vstd::prelude::*;

verus! {

/// A recorded trade.
#[derive(Debug, Clone)]
pub struct Trade {
    pub signal_id: String,
    pub asset: String,
    pub interval: String,
    pub entry: Dec,
    pub shares: Dec,
    /// The bid at which the trade is sold when its time is over.
    pub time_exit_bid: Dec,
    /// New highs of the bid.
    pub hwm: Vec<BidAt>,
    /// New lows of the bid.
    pub lwm: Vec<BidAt>,
}

/// A recorded trade, as mathematical values.
pub ghost struct TradeV {
    pub signal_id: Seq<char>,
    pub asset: Seq<char>,
    pub interval: Seq<char>,
    pub entry: DecV,
    pub shares: DecV,
    pub time_exit_bid: DecV,
    pub hwm: Seq<(int, DecV)>,
    pub lwm: Seq<(int, DecV)>,
}

pub open spec fn pair_values(pairs: Seq<BidAt>) -> Seq<(int, DecV)> {
    Seq::new(pairs.len(), |i: int| (pairs[i].0 as int, pairs[i].1@))
}

impl View for Trade {
    type V = TradeV;

    open spec fn view(&self) -> TradeV {
        TradeV {
            signal_id: self.signal_id@,
            asset: self.asset@,
            interval: self.interval@,
            entry: self.entry@,
            shares: self.shares@,
            time_exit_bid: self.time_exit_bid@,
            hwm: pair_values(self.hwm@),
            lwm: pair_values(self.lwm@),
        }
    }
}

/// The decimal of a number: one that is too large becomes the largest there is.
pub open spec fn bounded(n: NumV) -> Option<DecV> {
    match n {
        NumV::Finite(d) => Some(d),
        NumV::Infinite { negative: false } => Some(decimal::dec(decimal::MAX_MANTISSA as int, 0)),
        NumV::Infinite { negative: true } => Some(decimal::dec(-decimal::MAX_MANTISSA, 0)),
        NumV::NotANumber => None,
    }
}

/// The value of the JSON number at a place.
pub open spec fn number_in(m: Map<Seq<char>, json::Leaf>, at: Seq<char>) -> Option<DecV> {
    match json::number_leaf(m, at) {
        Some(t) => match numeral::value(t) {
            Some(n) => bounded(n),
            None => None,
        },
        None => None,
    }
}

fn read_number_in(v: &Value, at: &str) -> (r: Option<Dec>)
    ensures
        decimal::opt(r) == number_in(json::leaves(*v), at@),
{
    match number_at(v, at) {
        Some(t) => {
            let chars = chars_of(&t);
            match read_value(chars.as_slice()) {
                Some(Num::Finite(d)) => Some(d),
                Some(Num::Infinite { negative }) => {
                    Dec::from_parts(
                        if negative {
                            -79228162514264337593543950335
                        } else {
                            79228162514264337593543950335
                        },
                        0,
                    )
                },
                _ => None,
            }
        },
        None => None,
    }
}

/// The pair `[offset_ms, bid]` at a place.
pub open spec fn pair_at(m: Map<Seq<char>, json::Leaf>, at: Seq<char>) -> Option<(int, DecV)> {
    match (json::list_leaf(m, at), json::int_leaf(m, json::item(at, 0)), number_in(m, json::item(at, 1))) {
        (Some(_), Some(offset), Some(bid)) => Some((offset, bid)),
        _ => None,
    }
}

/// The pairs of the array at a place, up to item `n`: what is no pair is passed
/// over.
pub open spec fn pairs_at(m: Map<Seq<char>, json::Leaf>, at: Seq<char>, n: nat) -> Seq<(int, DecV)>
    decreases n,
{
    if n == 0 {
        Seq::empty()
    } else {
        let before = pairs_at(m, at, (n - 1) as nat);
        match pair_at(m, json::item(at, (n - 1) as nat)) {
            Some(p) => before.push(p),
            None => before,
        }
    }
}

/// The pairs of the array at a place.
fn parse_pairs(v: &Value, at: &str) -> (r: Vec<BidAt>)
    ensures
        pair_values(r@) == pairs_at(
            json::leaves(*v),
            at@,
            record::len_of(json::leaves(*v), at@),
        ),
{
    let n: usize = match len_at(v, at) {
        Some(n) => n,
        None => 0,
    };
    let mut out: Vec<BidAt> = Vec::new();
    let mut i: usize = 0;
    assert(pair_values(out@) =~= Seq::empty());
    while i < n
        invariant
            i <= n,
            n == record::len_of(json::leaves(*v), at@),
            pair_values(out@) == pairs_at(json::leaves(*v), at@, i as nat),
        decreases n - i,
    {
        let place = item_place(at, i);
        let ghost before = out@;
        let list = len_at(v, &place);
        let offset = int_at(v, &item_place(&place, 0));
        let bid = read_number_in(v, &item_place(&place, 1));
        match (list, offset, bid) {
            (Some(_), Some(offset), Some(bid)) => {
                out.push((offset, bid));
                assert(pair_values(out@) =~= pair_values(before).push((offset as int, bid@)));
            },
            _ => {},
        }
        i += 1;
    }
    out
}

pub open spec fn or_zero(d: Option<DecV>) -> DecV {
    match d {
        Some(d) => d,
        None => decimal::zero(),
    }
}

/// The trade that a JSON object holds: amounts that are not given are 0, and
/// where the exit bid is not given it is the entry price.
pub open spec fn trade_of(m: Map<Seq<char>, json::Leaf>) -> TradeV {
    let entry = or_zero(number_in(m, "/entry_price"@));
    TradeV {
        signal_id: record::word_at(m, "/signal_id"@),
        asset: record::word_at(m, "/asset"@),
        interval: record::word_at(m, "/interval"@),
        entry,
        shares: or_zero(number_in(m, "/shares"@)),
        time_exit_bid: match number_in(m, "/baseline_exit_price"@) {
            Some(p) => p,
            None => entry,
        },
        hwm: pairs_at(m, "/hwm_120s"@, record::len_of(m, "/hwm_120s"@)),
        lwm: pairs_at(m, "/lwm_120s"@, record::len_of(m, "/lwm_120s"@)),
    }
}

/// The trade of a line; `None` where the line is not JSON.
pub open spec fn trade_in_line(line: Seq<char>) -> Option<TradeV> {
    match json::leaves_in_text(line) {
        Some(m) => Some(trade_of(m)),
        None => None,
    }
}

/// The trade of a line; `None` where the line is not JSON.
pub fn read_trade(line: &str) -> (r: Option<Trade>)
    ensures
        match r {
            Some(t) => trade_in_line(line@) == Some(t@),
            None => trade_in_line(line@) is None,
        },
{
    let v = match read_json(line) {
        Some(v) => v,
        None => {
            return None;
        },
    };
    let entry = match read_number_in(&v, "/entry_price") {
        Some(d) => d,
        None => Dec::zero(),
    };
    let shares = match read_number_in(&v, "/shares") {
        Some(d) => d,
        None => Dec::zero(),
    };
    let time_exit_bid = match read_number_in(&v, "/baseline_exit_price") {
        Some(d) => d,
        None => entry,
    };
    Some(
        Trade {
            signal_id: read_word(&v, "/signal_id"),
            asset: read_word(&v, "/asset"),
            interval: read_word(&v, "/interval"),
            entry,
            shares,
            time_exit_bid,
            hwm: parse_pairs(&v, "/hwm_120s"),
            lwm: parse_pairs(&v, "/lwm_120s"),
        },
    )
}

/// Gross and net profit of a lot that is counted, its exit, and whether its
/// target was out of reach.
pub open spec fn result_of(lot: ReplayLot) -> Option<
    (DecV, DecV, Option<b3_maker::B3ExitKind>, bool),
> {
    match lot {
        ReplayLot::Excluded => None,
        ReplayLot::Baseline { gross, net } => Some((gross@, net@, None, false)),
        ReplayLot::Maker { outcome, invalid_target } => Some(
            (outcome.gross_pnl@, outcome.net_pnl@, Some(outcome.exit_kind), invalid_target),
        ),
    }
}

/// How many lots the cells have together.
pub open spec fn lots(totals: Seq<CellAgg>) -> int
    decreases totals.len(),
{
    if totals.len() == 0 {
        0
    } else {
        lots(totals.drop_last()) + totals.last().n
    }
}

/// How many lots of the cells won.
pub open spec fn wins(totals: Seq<CellAgg>) -> int
    decreases totals.len(),
{
    if totals.len() == 0 {
        0
    } else {
        wins(totals.drop_last()) + totals.last().net_wins
    }
}

/// The amounts that the cells come to together: gross, net, gains and losses.
pub open spec fn amounts(totals: Seq<CellAgg>) -> (
    Option<DecV>,
    Option<DecV>,
    Option<DecV>,
    Option<DecV>,
)
    decreases totals.len(),
{
    if totals.len() == 0 {
        let z = Some(decimal::zero());
        (z, z, z, z)
    } else {
        let (gross, net, gain, loss) = amounts(totals.drop_last());
        let a = totals.last();
        (
            decimal::o_plus(gross, Some(a.gross@)),
            decimal::o_plus(net, Some(a.net@)),
            decimal::o_plus(gain, Some(a.net_gross_gain@)),
            decimal::o_plus(loss, Some(a.net_gross_loss@)),
        )
    }
}

/// What all cells come to together.
#[derive(Debug, Clone, Copy)]
pub struct Overall {
    pub n: u64,
    pub net_wins: u64,
    pub gross: Option<Dec>,
    pub net: Option<Dec>,
    pub net_gross_gain: Option<Dec>,
    pub net_gross_loss: Option<Dec>,
}

proof fn lemma_lots_prefix(totals: Seq<CellAgg>, i: int)
    requires
        0 <= i <= totals.len(),
    ensures
        lots(totals.take(i)) <= lots(totals),
    decreases totals.len() - i,
{
    if i < totals.len() {
        lemma_lots_prefix(totals, i + 1);
        assert(totals.take(i + 1).drop_last() =~= totals.take(i));
    } else {
        assert(totals.take(i) =~= totals);
    }
}

proof fn lemma_lots_bound(totals: Seq<CellAgg>, i: int)
    requires
        0 <= i < totals.len(),
    ensures
        0 <= totals[i].n <= lots(totals),
    decreases totals.len(),
{
    lemma_lots_nonnegative(totals.drop_last());
    if i < totals.len() - 1 {
        lemma_lots_bound(totals.drop_last(), i);
    }
}

proof fn lemma_lots_nonnegative(totals: Seq<CellAgg>)
    ensures
        0 <= lots(totals),
    decreases totals.len(),
{
    if totals.len() > 0 {
        lemma_lots_nonnegative(totals.drop_last());
    }
}

proof fn lemma_lots_update(totals: Seq<CellAgg>, i: int, agg: CellAgg)
    requires
        0 <= i < totals.len(),
    ensures
        lots(totals.update(i, agg)) == lots(totals) - totals[i].n + agg.n,
    decreases totals.len(),
{
    let new = totals.update(i, agg);
    if i == totals.len() - 1 {
        assert(new.drop_last() =~= totals.drop_last());
    } else {
        lemma_lots_update(totals.drop_last(), i, agg);
        assert(new.drop_last() =~= totals.drop_last().update(i, agg));
    }
}

proof fn lemma_lots_insert(totals: Seq<CellAgg>, i: int, agg: CellAgg)
    requires
        0 <= i <= totals.len(),
    ensures
        lots(totals.insert(i, agg)) == lots(totals) + agg.n,
    decreases totals.len(),
{
    let new = totals.insert(i, agg);
    if i == totals.len() {
        assert(new.drop_last() =~= totals);
    } else {
        lemma_lots_insert(totals.drop_last(), i, agg);
        assert(new.drop_last() =~= totals.drop_last().insert(i, agg));
        assert(new.last() == totals.last());
    }
}

/// The totals of a replay, by cell.
#[derive(Debug, Clone)]
pub struct StrategyReplay {
    n_total: u64,
    excluded: u64,
    names: Vec<String>,
    totals: Vec<CellAgg>,
}

impl StrategyReplay {
    /// How many trades were read.
    pub closed spec fn n_total(self) -> int {
        self.n_total as int
    }

    /// How many of them are of a retired cell.
    pub closed spec fn excluded(self) -> int {
        self.excluded as int
    }

    /// The names of the cells.
    pub closed spec fn names(self) -> Seq<String> {
        self.names@
    }

    /// The totals of the cells, in the order of their names.
    pub closed spec fn totals(self) -> Seq<CellAgg> {
        self.totals@
    }

    /// The cells stand in dictionary order, each once, and every trade that was
    /// read is a lot of one cell or of a retired one.
    pub open spec fn wf(self) -> bool {
        &&& metrics::names_ascend(self.names())
        &&& self.names().len() == self.totals().len()
        &&& lots(self.totals()) + self.excluded() == self.n_total()
        &&& forall|i: int| 0 <= i < self.totals().len() ==> (#[trigger] self.totals()[i]).wf()
    }

    /// The cell has these totals.
    pub open spec fn has(self, name: Seq<char>, agg: CellAgg) -> bool {
        exists|i: int| #[trigger] self.is_at(i, name) && self.totals()[i] == agg
    }

    /// The cell stands at `i`.
    pub open spec fn is_at(self, i: int, name: Seq<char>) -> bool {
        0 <= i < self.names().len() && self.names()[i]@ == name
    }

    /// The cell has totals.
    pub open spec fn knows(self, name: Seq<char>) -> bool {
        metrics::has_name(self.names(), name)
    }

    pub fn new() -> (r: StrategyReplay)
        ensures
            r.wf(),
            r.n_total() == 0,
            r.excluded() == 0,
            r.names().len() == 0,
    {
        StrategyReplay { n_total: 0, excluded: 0, names: Vec::new(), totals: Vec::new() }
    }

    pub fn read(&self) -> (r: u64)
        ensures
            r == self.n_total(),
    {
        self.n_total
    }

    pub fn retired(&self) -> (r: u64)
        ensures
            r == self.excluded(),
    {
        self.excluded
    }

    pub fn cells(&self) -> (r: &Vec<String>)
        ensures
            r@ == self.names(),
    {
        &self.names
    }

    pub fn aggregates(&self) -> (r: &Vec<CellAgg>)
        ensures
            r@ == self.totals(),
    {
        &self.totals
    }

    /// Where a cell stands, or would stand, and whether it is there.
    fn find(&self, name: &str) -> (r: (usize, bool))
        requires
            self.wf(),
        ensures
            r.0 <= self.names().len(),
            r.1 ==> self.is_at(r.0 as int, name@),
            !r.1 ==> {
                &&& !self.knows(name@)
                &&& forall|k: int|
                    0 <= k < r.0 ==> text::dictionary_le((#[trigger] self.names()[k])@, name@)
                &&& forall|k: int|
                    r.0 <= k < self.names().len() ==> text::dictionary_le(
                        name@,
                        (#[trigger] self.names()[k])@,
                    )
            },
    {
        let mut i: usize = 0;
        while i < self.names.len() && text_le(&self.names[i], name)
            invariant
                self.wf(),
                i <= self.names@.len(),
                forall|k: int|
                    0 <= k < i ==> text::dictionary_le((#[trigger] self.names@[k])@, name@)
                        && self.names@[k]@ != name@,
            decreases self.names@.len() - i,
        {
            if same_text(&self.names[i], name) {
                return (i, true);
            }
            i += 1;
        }
        assert forall|k: int| i <= k < self.names@.len() implies text::dictionary_le(
            name@,
            (#[trigger] self.names@[k])@,
        ) && self.names@[k]@ != name@ by {
            text::lemma_dictionary_total(name@, self.names@[i as int]@);
            if i < k {
                text::lemma_dictionary_transitive(
                    name@,
                    self.names@[i as int]@,
                    self.names@[k]@,
                );
                if self.names@[k]@ == name@ {
                    text::lemma_dictionary_antisymmetric(name@, self.names@[i as int]@);
                }
            }
        }
        (i, false)
    }

    /// The totals of a cell before one more lot: those that it has, or none yet.
    pub open spec fn had(self, name: Seq<char>, agg: CellAgg) -> bool {
        if self.knows(name) {
            self.has(name, agg)
        } else {
            agg.blank()
        }
    }

    /// Counts a lot with the given results in its cell, and nothing else.
    pub open spec fn counts(
        self,
        before: StrategyReplay,
        name: Seq<char>,
        gross: DecV,
        net: DecV,
        kind: Option<b3_maker::B3ExitKind>,
        invalid: bool,
    ) -> bool {
        &&& self.knows(name)
        &&& exists|a: CellAgg, b: CellAgg| #[trigger]
            before.had(name, a) && #[trigger] self.has(name, b) && b3_maker::counted(
                a,
                b,
                gross,
                net,
                kind,
                invalid,
            )
        &&& forall|other: Seq<char>, agg: CellAgg|
            other != name ==> #[trigger] self.has(other, agg) == before.has(other, agg)
    }

    /// Plays a trade through the strategy and counts it in its cell. `None` where
    /// an amount is out of range: nothing is counted.
    pub fn add_trade(&mut self, trade: &Trade) -> (r: Option<ReplayLot>)
        requires
            old(self).wf(),
            old(self).n_total() < u64::MAX,
        ensures
            final(self).wf(),
            ({
                let cell = b3_maker::cell_name(trade.asset@, trade.interval@);
                let (hwm, lwm) = (trade.hwm@, trade.lwm@);
                let (entry, shares, exit) = (trade.entry@, trade.shares@, trade.time_exit_bid@);
                match r {
                    Some(lot) => {
                        &&& b3_maker::is_replay(Some(lot), cell, entry, shares, exit, hwm, lwm)
                        &&& final(self).n_total() == old(self).n_total() + 1
                        &&& match result_of(lot) {
                            None => {
                                &&& final(self).excluded() == old(self).excluded() + 1
                                &&& final(self).names() == old(self).names()
                                &&& final(self).totals() == old(self).totals()
                            },
                            Some((gross, net, kind, invalid)) => {
                                &&& final(self).excluded() == old(self).excluded()
                                &&& final(self).counts(*old(self), cell, gross, net, kind, invalid)
                            },
                        }
                    },
                    None => {
                        &&& *final(self) == *old(self)
                        &&& {
                            ||| b3_maker::is_replay(None, cell, entry, shares, exit, hwm, lwm)
                            ||| exists|lot: ReplayLot, before: CellAgg| #[trigger]
                                b3_maker::is_replay(
                                    Some(lot),
                                    cell,
                                    entry,
                                    shares,
                                    exit,
                                    hwm,
                                    lwm,
                                ) && #[trigger] old(self).had(cell, before) && result_of(lot) is Some
                                    && b3_maker::overflows(
                                    before,
                                    (result_of(lot)->0).0,
                                    (result_of(lot)->0).1,
                                )
                        }
                    },
                }
            }),
    {
        let ghost start = *self;
        proof {
            lemma_lots_nonnegative(start.totals());
        }
        let lot = match replay_lot(
            &trade.asset,
            &trade.interval,
            trade.entry,
            trade.shares,
            trade.time_exit_bid,
            trade.hwm.as_slice(),
            trade.lwm.as_slice(),
        ) {
            Some(lot) => lot,
            None => {
                return None;
            },
        };
        let (gross, net, kind, invalid) = match &lot {
            ReplayLot::Excluded => {
                self.n_total = self.n_total + 1;
                self.excluded = self.excluded + 1;
                return Some(lot);
            },
            ReplayLot::Baseline { gross, net } => (*gross, *net, None, false),
            ReplayLot::Maker { outcome, invalid_target } => (
                outcome.gross_pnl,
                outcome.net_pnl,
                Some(outcome.exit_kind),
                *invalid_target,
            ),
        };
        let cell = cell_label(&trade.asset, &trade.interval);
        let ghost name = cell@;
        let (at, found) = self.find(&cell);
        let at: usize = at;
        if found {
            let ghost before = self.totals@[at as int];
            assert(start.is_at(at as int, name));
            assert(start.has(name, before));
            assert(start.names()[at as int]@ == name);
            proof {
                lemma_lots_bound(start.totals(), at as int);
            }
            let after = match self.totals[at].record(gross, net, kind, invalid) {
                Some(after) => after,
                None => {
                    assert(start.had(name, before));
                    return None;
                },
            };
            let ghost new = after;
            self.totals.set(at, after);
            self.n_total = self.n_total + 1;
            proof {
                lemma_lots_update(start.totals(), at as int, new);
                assert(self.totals() =~= start.totals().update(at as int, new));
                assert(self.is_at(at as int, name));
                assert(self.has(name, new));
                assert(start.had(name, before));
                assert(self.names()[at as int]@ == name);
                assert forall|other: Seq<char>, agg: CellAgg| other != name implies #[trigger] self.has(
                    other,
                    agg,
                ) == start.has(other, agg) by {
                    if self.has(other, agg) {
                        let i = choose|i: int| #[trigger]
                            self.is_at(i, other) && self.totals()[i] == agg;
                        assert(start.is_at(i, other) && start.totals()[i] == agg);
                    }
                    if start.has(other, agg) {
                        let i = choose|i: int| #[trigger]
                            start.is_at(i, other) && start.totals()[i] == agg;
                        assert(self.is_at(i, other) && self.totals()[i] == agg);
                    }
                }
            }
        } else {
            let blank = CellAgg::new();
            assert(start.had(name, blank));
            let after = match blank.record(gross, net, kind, invalid) {
                Some(after) => after,
                None => {
                    return None;
                },
            };
            let ghost new = after;
            self.names.insert(at, cell);
            self.totals.insert(at, after);
            self.n_total = self.n_total + 1;
            proof {
                let k = at as int;
                lemma_lots_insert(start.totals(), k, new);
                assert(self.totals() =~= start.totals().insert(k, new));
                assert forall|i: int, j: int| 0 <= i < j < self.names().len() implies text::dictionary_le(
                    (#[trigger] self.names()[i])@,
                    (#[trigger] self.names()[j])@,
                ) && self.names()[i]@ != self.names()[j]@ by {
                    let a = if i < k { i } else { i - 1 };
                    let b = if j < k { j } else { j - 1 };
                    if i != k {
                        assert(self.names()[i] == start.names()[a]);
                        assert(start.names()[a]@ != name);
                    }
                    if j != k {
                        assert(self.names()[j] == start.names()[b]);
                        assert(start.names()[b]@ != name);
                    }
                }
                assert forall|i: int| 0 <= i < self.totals().len() implies (
                #[trigger] self.totals()[i]).wf() by {
                    let a = if i < k { i } else { i - 1 };
                    if i != k {
                        assert(self.totals()[i] == start.totals()[a]);
                    }
                }
                assert(self.names()[k]@ == name);
                assert(self.is_at(k, name));
                assert(self.has(name, new));
                assert forall|other: Seq<char>, agg: CellAgg| other != name implies #[trigger] self.has(
                    other,
                    agg,
                ) == start.has(other, agg) by {
                    if self.has(other, agg) {
                        let i = choose|i: int| #[trigger]
                            self.is_at(i, other) && self.totals()[i] == agg;
                        let a = if i < k { i } else { i - 1 };
                        assert(start.is_at(a, other) && start.totals()[a] == agg);
                    }
                    if start.has(other, agg) {
                        let i = choose|i: int| #[trigger]
                            start.is_at(i, other) && start.totals()[i] == agg;
                        let b = if i < k { i } else { i + 1 };
                        assert(self.is_at(b, other) && self.totals()[b] == agg);
                    }
                }
            }
        }
        Some(lot)
    }

    /// What all cells come to together; an amount that is out of range is `None`.
    pub fn overall(&self) -> (r: Overall)
        requires
            self.wf(),
        ensures
            r.n == lots(self.totals()),
            r.net_wins == wins(self.totals()),
            (
                decimal::opt(r.gross),
                decimal::opt(r.net),
                decimal::opt(r.net_gross_gain),
                decimal::opt(r.net_gross_loss),
            ) == amounts(self.totals()),
    {
        let mut out = Overall {
            n: 0,
            net_wins: 0,
            gross: Some(Dec::zero()),
            net: Some(Dec::zero()),
            net_gross_gain: Some(Dec::zero()),
            net_gross_loss: Some(Dec::zero()),
        };
        let mut i: usize = 0;
        let ghost all = self.totals@;
        while i < self.totals.len()
            invariant
                self.wf(),
                self.totals@ == all,
                self.totals() == all,
                i <= all.len(),
                out.n == lots(all.take(i as int)),
                out.net_wins == wins(all.take(i as int)),
                out.net_wins <= out.n,
                (
                    decimal::opt(out.gross),
                    decimal::opt(out.net),
                    decimal::opt(out.net_gross_gain),
                    decimal::opt(out.net_gross_loss),
                ) == amounts(all.take(i as int)),
            decreases all.len() - i,
        {
            let a = &self.totals[i];
            proof {
                assert(all.take(i + 1).drop_last() =~= all.take(i as int));
                assert(all.take(i + 1).last() == all[i as int]);
                lemma_lots_prefix(all, i + 1);
            }
            out.n = out.n + a.n;
            out.net_wins = out.net_wins + a.net_wins;
            out.gross = add_amounts(out.gross, Some(a.gross));
            out.net = add_amounts(out.net, Some(a.net));
            out.net_gross_gain = add_amounts(out.net_gross_gain, Some(a.net_gross_gain));
            out.net_gross_loss = add_amounts(out.net_gross_loss, Some(a.net_gross_loss));
            i += 1;
        }
        assert(all.take(i as int) =~= all);
        out
    }
}

} // verus!
