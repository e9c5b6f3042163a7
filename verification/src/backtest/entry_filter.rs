//! Which signals become lots.

use crate::backtest::position::CollectedPosition;
use crate::config::Num;
use crate::decimal::{self, Dec};
use crate::text::{
    self, chars_of, owned, push_number, push_str, same_text, split_at_char, text_le, text_of, trim,
};
use vstd::prelude::*;

verus! {

/// The direction of a bet.
#[derive(Debug, Clone, Copy, PartialEq, Eq, Structural)]
pub enum Direction {
    Up,
    Down,
}

impl Direction {
    pub open spec fn name(self) -> Seq<char> {
        match self {
            Direction::Up => "Up"@,
            Direction::Down => "Down"@,
        }
    }

    pub open spec fn other(self) -> Direction {
        match self {
            Direction::Up => Direction::Down,
            Direction::Down => Direction::Up,
        }
    }

    /// The word by which a lot's direction is kept.
    pub fn word(self) -> (r: &'static str)
        ensures
            r@ == self.name(),
    {
        match self {
            Direction::Up => "Up",
            Direction::Down => "Down",
        }
    }

    pub fn opposite(self) -> (r: Direction)
        ensures
            r == self.other(),
    {
        match self {
            Direction::Up => Direction::Down,
            Direction::Down => Direction::Up,
        }
    }
}

/// The length of an interval in seconds.
pub open spec fn interval_len(interval: Seq<char>) -> int {
    if interval == "15m"@ {
        900
    } else {
        300
    }
}

pub fn interval_secs_for(interval: &str) -> (r: i64)
    ensures
        r == interval_len(interval@),
{
    if same_text(interval, "15m") {
        900
    } else {
        300
    }
}

/// A moment without what is beyond the last whole multiple of `secs`.
pub open spec fn cut(t: int, secs: int) -> int {
    if t >= 0 {
        (t / secs) * secs
    } else {
        -((-t) / secs * secs)
    }
}

/// The second at which the market of a signal began.
pub fn market_epoch(trigger_ts: i64, interval: &str) -> (r: i64)
    ensures
        r == cut(trigger_ts as int, interval_len(interval@)),
{
    let secs: i64 = interval_secs_for(interval);
    if trigger_ts >= 0 {
        let q: i64 = trigger_ts / secs;
        proof {
            assert(0 <= q * secs <= trigger_ts) by (nonlinear_arith)
                requires
                    q == trigger_ts as int / secs as int,
                    secs > 0,
                    trigger_ts >= 0,
            ;
        }
        q * secs
    } else {
        let t: i128 = -(trigger_ts as i128);
        let q: i128 = t / secs as i128;
        proof {
            assert(0 <= q * secs <= t) by (nonlinear_arith)
                requires
                    q == t as int / secs as int,
                    secs > 0,
                    t >= 0,
            ;
        }
        (-(q * secs as i128)) as i64
    }
}

/// Which signals become lots. Limits are in millionths of a basis point.
#[derive(Debug, PartialEq)]
pub enum EntryFilter {
    /// All.
    Baseline,
    /// Those of moves that are large enough.
    BpsThreshold { min_abs_bps: u64 },
    /// Those with no open lot on the other side of the market.
    NoOpposite,
    /// All; a name for runs in which the decisions close opposite lots.
    ReglaCMarker,
    /// Those of moves that are large enough; a larger move is asked for against
    /// an open lot on the other side of the market.
    AsymmetricBps { min_abs_bps: u64, opposite_min_abs_bps: u64 },
    /// All.
    DcaUnlimited,
    /// Those that pay less than every open lot on the same side.
    DcaImprovingPrice,
    /// Those whose candle closed further in the direction of the bet than the
    /// one of the first open lot on the same side.
    DcaConfirmingUnderlying,
    /// Those that pay more than every open lot on the same side.
    DcaConfirmingAsk,
    /// Those with no open lot on the same side.
    NoDca,
    /// Those with fewer than `max` open lots on the same side.
    DcaCap { max: usize },
    /// One filter for `5m` markets, another for `15m` markets, none for others.
    SplitDcaByInterval { five_min: Box<EntryFilter>, fifteen_min: Box<EntryFilter> },
}

impl Clone for EntryFilter {
    fn clone(&self) -> (r: EntryFilter)
        ensures
            r == *self,
        decreases self,
    {
        match self {
            EntryFilter::Baseline => EntryFilter::Baseline,
            EntryFilter::BpsThreshold { min_abs_bps } => EntryFilter::BpsThreshold {
                min_abs_bps: *min_abs_bps,
            },
            EntryFilter::NoOpposite => EntryFilter::NoOpposite,
            EntryFilter::ReglaCMarker => EntryFilter::ReglaCMarker,
            EntryFilter::AsymmetricBps { min_abs_bps, opposite_min_abs_bps } =>
                EntryFilter::AsymmetricBps {
                min_abs_bps: *min_abs_bps,
                opposite_min_abs_bps: *opposite_min_abs_bps,
            },
            EntryFilter::DcaUnlimited => EntryFilter::DcaUnlimited,
            EntryFilter::DcaImprovingPrice => EntryFilter::DcaImprovingPrice,
            EntryFilter::DcaConfirmingUnderlying => EntryFilter::DcaConfirmingUnderlying,
            EntryFilter::DcaConfirmingAsk => EntryFilter::DcaConfirmingAsk,
            EntryFilter::NoDca => EntryFilter::NoDca,
            EntryFilter::DcaCap { max } => EntryFilter::DcaCap { max: *max },
            EntryFilter::SplitDcaByInterval { five_min, fifteen_min } =>
                EntryFilter::SplitDcaByInterval {
                five_min: Box::new((&**five_min).clone()),
                fifteen_min: Box::new((&**fifteen_min).clone()),
            },
        }
    }
}

/// A lot is in a market.
pub open spec fn in_market(
    p: CollectedPosition,
    asset: Seq<char>,
    interval: Seq<char>,
    epoch: i64,
) -> bool {
    p.asset@ == asset && p.interval@ == interval && p.epoch == epoch
}

/// The lots on one side of a market.
pub open spec fn side_lots(
    active: Seq<CollectedPosition>,
    asset: Seq<char>,
    interval: Seq<char>,
    epoch: i64,
    direction: Seq<char>,
) -> Seq<CollectedPosition>
    decreases active.len(),
{
    if active.len() == 0 {
        Seq::empty()
    } else {
        let before = side_lots(active.drop_last(), asset, interval, epoch, direction);
        if in_market(active.last(), asset, interval, epoch) && active.last().direction@
            == direction {
            before.push(active.last())
        } else {
            before
        }
    }
}

/// `a` was entered before `b`; lots of one moment go by their signals.
pub open spec fn entered_before(a: CollectedPosition, b: CollectedPosition) -> bool {
    a.entry_recv_ms < b.entry_recv_ms || (a.entry_recv_ms == b.entry_recv_ms
        && !text::dictionary_le(b.signal_id@, a.signal_id@))
}

/// The lot that was entered first.
pub open spec fn first_lot(lots: Seq<CollectedPosition>) -> CollectedPosition
    decreases lots.len(),
{
    if lots.len() <= 1 {
        lots[0]
    } else {
        let before = first_lot(lots.drop_last());
        if entered_before(lots.last(), before) {
            lots.last()
        } else {
            before
        }
    }
}

/// A move of at least `min` millionths of a basis point, up or down.
pub open spec fn strong(ret_bps: Num, min: u64) -> bool {
    ret_bps.at_least(decimal::dec(min as int, 6)) || ret_bps.at_most(decimal::dec(-min, 6))
}

/// A move of less than that. What is not a number is neither strong nor weak.
pub open spec fn weak(ret_bps: Num, min: u64) -> bool {
    !strong(ret_bps, min) && ret_bps !is NotANumber
}

/// What is asked of a filter.
pub ghost struct Candidate {
    pub ret_bps: Num,
    pub direction: Direction,
    pub asset: Seq<char>,
    pub interval: Seq<char>,
    pub epoch: i64,
    pub entry_price: int,
    pub trigger_close: Num,
}

/// The open lots on the same side as a candidate.
pub open spec fn own_side(active: Seq<CollectedPosition>, c: Candidate) -> Seq<CollectedPosition> {
    side_lots(active, c.asset, c.interval, c.epoch, c.direction.name())
}

/// The open lots on the other side.
pub open spec fn other_side(active: Seq<CollectedPosition>, c: Candidate) -> Seq<
    CollectedPosition,
> {
    side_lots(active, c.asset, c.interval, c.epoch, c.direction.other().name())
}

pub open spec fn below_all(lots: Seq<CollectedPosition>, price: int) -> bool {
    forall|i: int| 0 <= i < lots.len() ==> price < (#[trigger] lots[i]).entry_price
}

pub open spec fn above_all(lots: Seq<CollectedPosition>, price: int) -> bool {
    forall|i: int| 0 <= i < lots.len() ==> price > (#[trigger] lots[i]).entry_price
}

/// Whether a filter lets a candidate become a lot.
pub open spec fn accepts(f: EntryFilter, active: Seq<CollectedPosition>, c: Candidate) -> bool
    decreases f,
{
    let lots = own_side(active, c);
    match f {
        EntryFilter::Baseline => true,
        EntryFilter::ReglaCMarker => true,
        EntryFilter::DcaUnlimited => true,
        EntryFilter::BpsThreshold { min_abs_bps } => strong(c.ret_bps, min_abs_bps),
        EntryFilter::NoOpposite => other_side(active, c).len() == 0,
        EntryFilter::AsymmetricBps { min_abs_bps, opposite_min_abs_bps } => !weak(
            c.ret_bps,
            min_abs_bps,
        ) && (other_side(active, c).len() > 0 ==> strong(c.ret_bps, opposite_min_abs_bps)),
        EntryFilter::DcaImprovingPrice => below_all(lots, c.entry_price),
        EntryFilter::DcaConfirmingUnderlying => lots.len() > 0 ==> (match c.direction {
            Direction::Up => first_lot(lots).trigger_close.precedes(c.trigger_close),
            Direction::Down => c.trigger_close.precedes(first_lot(lots).trigger_close),
        }),
        EntryFilter::DcaConfirmingAsk => above_all(lots, c.entry_price),
        EntryFilter::NoDca => lots.len() == 0,
        EntryFilter::DcaCap { max } => lots.len() < max,
        EntryFilter::SplitDcaByInterval { five_min, fifteen_min } => if c.interval == "5m"@ {
            accepts(*five_min, active, c)
        } else if c.interval == "15m"@ {
            accepts(*fifteen_min, active, c)
        } else {
            true
        },
    }
}

/// What the open lots on one side of a market say.
struct Side {
    count: usize,
    lowest: u32,
    highest: u32,
    first_at: usize,
}

spec fn side_ok(active: Seq<CollectedPosition>, lots: Seq<CollectedPosition>, s: Side) -> bool {
    &&& s.count == lots.len()
    &&& lots.len() > 0 ==> {
        &&& s.first_at < active.len()
        &&& active[s.first_at as int] == first_lot(lots)
        &&& forall|i: int| 0 <= i < lots.len() ==> s.lowest <= (#[trigger] lots[i]).entry_price
        &&& forall|i: int| 0 <= i < lots.len() ==> (#[trigger] lots[i]).entry_price <= s.highest
        &&& exists|i: int| 0 <= i < lots.len() && (#[trigger] lots[i]).entry_price == s.lowest
        &&& exists|i: int| 0 <= i < lots.len() && (#[trigger] lots[i]).entry_price == s.highest
    }
}

fn is_in_market(p: &CollectedPosition, asset: &str, interval: &str, epoch: i64) -> (r: bool)
    ensures
        r == in_market(*p, asset@, interval@, epoch),
{
    p.epoch == epoch && same_text(&p.asset, asset) && same_text(&p.interval, interval)
}

fn is_entered_before(a: &CollectedPosition, b: &CollectedPosition) -> (r: bool)
    ensures
        r == entered_before(*a, *b),
{
    if a.entry_recv_ms < b.entry_recv_ms {
        true
    } else if a.entry_recv_ms == b.entry_recv_ms {
        !text_le(&b.signal_id, &a.signal_id)
    } else {
        false
    }
}

fn look_at_side(
    active: &[CollectedPosition],
    asset: &str,
    interval: &str,
    epoch: i64,
    direction: Direction,
) -> (r: Side)
    ensures
        side_ok(active@, side_lots(active@, asset@, interval@, epoch, direction.name()), r),
{
    let word = direction.word();
    let mut s = Side { count: 0, lowest: 0, highest: 0, first_at: 0 };
    let mut i: usize = 0;
    proof {
        assert(active@.take(0) =~= Seq::empty());
    }
    while i < active.len()
        invariant
            word@ == direction.name(),
            i <= active@.len(),
            s.count <= i,
            side_ok(
                active@,
                side_lots(active@.take(i as int), asset@, interval@, epoch, direction.name()),
                s,
            ),
        decreases active@.len() - i,
    {
        let ghost before = side_lots(
            active@.take(i as int),
            asset@,
            interval@,
            epoch,
            direction.name(),
        );
        proof {
            assert(active@.take(i + 1).drop_last() =~= active@.take(i as int));
            assert(active@.take(i + 1).last() == active@[i as int]);
        }
        let p = &active[i];
        if is_in_market(p, asset, interval, epoch) && same_text(&p.direction, word) {
            let ghost after = before.push(*p);
            let ghost old_s = s;
            if s.count == 0 {
                s = Side { count: 1, lowest: p.entry_price, highest: p.entry_price, first_at: i };
                assert(after[0] == *p);
            } else {
                let first_at: usize = if is_entered_before(p, &active[s.first_at]) {
                    i
                } else {
                    s.first_at
                };
                let lowest: u32 = if p.entry_price < s.lowest {
                    p.entry_price
                } else {
                    s.lowest
                };
                let highest: u32 = if p.entry_price > s.highest {
                    p.entry_price
                } else {
                    s.highest
                };
                s = Side { count: s.count + 1, lowest, highest, first_at };
                proof {
                    assert(after.drop_last() =~= before);
                    let a = choose|k: int|
                        0 <= k < before.len() && (#[trigger] before[k]).entry_price
                            == old_s.lowest;
                    assert(after[a] == before[a]);
                    let b = choose|k: int|
                        0 <= k < before.len() && (#[trigger] before[k]).entry_price
                            == old_s.highest;
                    assert(after[b] == before[b]);
                    assert(after[before.len() as int] == *p);
                }
            }
        }
        i += 1;
    }
    proof {
        assert(active@.take(i as int) =~= active@);
    }
    s
}

/// How many open lots there are on one side of a market.
pub fn same_market_side_lots(
    active: &[CollectedPosition],
    asset: &str,
    interval: &str,
    epoch: i64,
    direction: Direction,
) -> (r: usize)
    ensures
        r == side_lots(active@, asset@, interval@, epoch, direction.name()).len(),
{
    look_at_side(active, asset, interval, epoch, direction).count
}

/// Whether there is an open lot on the other side of a market.
pub fn has_opposite_position(
    active: &[CollectedPosition],
    asset: &str,
    interval: &str,
    epoch: i64,
    new_direction: Direction,
) -> (r: bool)
    ensures
        r == (side_lots(active@, asset@, interval@, epoch, new_direction.other().name()).len() > 0),
{
    look_at_side(active, asset, interval, epoch, new_direction.opposite()).count > 0
}

/// Whether a move is at least `min` millionths of a basis point, up or down.
fn is_strong(ret_bps: Num, min: u64) -> (r: bool)
    ensures
        r == strong(ret_bps, min),
{
    match (Dec::from_parts(min as i128, 6), Dec::from_parts(-(min as i128), 6)) {
        (Some(up), Some(down)) => ret_bps.is_at_least(up) || ret_bps.is_at_most(down),
        _ => false,
    }
}

fn is_weak(ret_bps: Num, min: u64) -> (r: bool)
    ensures
        r == weak(ret_bps, min),
{
    match ret_bps {
        Num::NotANumber => false,
        _ => !is_strong(ret_bps, min),
    }
}

/// `n` millionths in whole ones, rounded to the nearest, halves to the even one.
pub open spec fn even_whole(n: int) -> nat {
    let q = n / 1_000_000;
    let r = n % 1_000_000;
    (if r > 500_000 || (r == 500_000 && q % 2 == 1) {
        q + 1
    } else {
        q
    }) as nat
}

fn to_even_whole(n: u64) -> (r: u64)
    ensures
        r == even_whole(n as int),
{
    let q: u64 = n / 1_000_000;
    let r: u64 = n % 1_000_000;
    if r > 500_000 || (r == 500_000 && q % 2 == 1) {
        q + 1
    } else {
        q
    }
}

/// A filter's name in files and tables.
pub open spec fn filter_name(f: EntryFilter) -> Seq<char>
    decreases f,
{
    match f {
        EntryFilter::Baseline => "a0_baseline"@,
        EntryFilter::BpsThreshold { min_abs_bps } => "bps_"@ + decimal::digits(
            even_whole(min_abs_bps as int),
        ),
        EntryFilter::NoOpposite => "b1_no_opposite"@,
        EntryFilter::ReglaCMarker => "b2_regla_c"@,
        EntryFilter::AsymmetricBps { min_abs_bps, opposite_min_abs_bps } => "asym_b"@
            + decimal::digits(even_whole(min_abs_bps as int)) + "_opp"@ + decimal::digits(
            even_whole(opposite_min_abs_bps as int),
        ),
        EntryFilter::DcaUnlimited => "d0_dca_unlimited"@,
        EntryFilter::DcaImprovingPrice => "d1_dca_improving_price"@,
        EntryFilter::DcaConfirmingUnderlying => "d2a_dca_confirming_underlying"@,
        EntryFilter::DcaConfirmingAsk => "d2b_dca_confirming_ask"@,
        EntryFilter::NoDca => "d3_no_dca"@,
        EntryFilter::DcaCap { max } => "d4_dca_cap_"@ + decimal::digits(max as nat),
        EntryFilter::SplitDcaByInterval { five_min, fifteen_min } => "split_dca_5m="@
            + filter_name(*five_min) + "_15m="@ + filter_name(*fifteen_min),
    }
}

impl EntryFilter {
    /// Whether a signal becomes a lot, beside the lots that are open.
    pub fn accept(
        &self,
        ret_bps: Num,
        new_direction: Direction,
        active: &[CollectedPosition],
        asset: &str,
        interval: &str,
        epoch: i64,
        candidate_entry_price: u32,
        candidate_trigger_close: Num,
    ) -> (r: bool)
        ensures
            r == accepts(
                *self,
                active@,
                (Candidate {
                    ret_bps,
                    direction: new_direction,
                    asset: asset@,
                    interval: interval@,
                    epoch,
                    entry_price: candidate_entry_price as int,
                    trigger_close: candidate_trigger_close,
                }),
            ),
        decreases self,
    {
        match self {
            EntryFilter::Baseline => true,
            EntryFilter::ReglaCMarker => true,
            EntryFilter::DcaUnlimited => true,
            EntryFilter::BpsThreshold { min_abs_bps } => is_strong(ret_bps, *min_abs_bps),
            EntryFilter::NoOpposite => !has_opposite_position(
                active,
                asset,
                interval,
                epoch,
                new_direction,
            ),
            EntryFilter::AsymmetricBps { min_abs_bps, opposite_min_abs_bps } => {
                if is_weak(ret_bps, *min_abs_bps) {
                    false
                } else if has_opposite_position(active, asset, interval, epoch, new_direction) {
                    is_strong(ret_bps, *opposite_min_abs_bps)
                } else {
                    true
                }
            },
            EntryFilter::DcaImprovingPrice => {
                let s = look_at_side(active, asset, interval, epoch, new_direction);
                s.count == 0 || candidate_entry_price < s.lowest
            },
            EntryFilter::DcaConfirmingUnderlying => {
                let s = look_at_side(active, asset, interval, epoch, new_direction);
                if s.count == 0 {
                    true
                } else {
                    match new_direction {
                        Direction::Up => active[s.first_at].trigger_close.is_preceding(
                            candidate_trigger_close,
                        ),
                        Direction::Down => candidate_trigger_close.is_preceding(
                            active[s.first_at].trigger_close,
                        ),
                    }
                }
            },
            EntryFilter::DcaConfirmingAsk => {
                let s = look_at_side(active, asset, interval, epoch, new_direction);
                s.count == 0 || candidate_entry_price > s.highest
            },
            EntryFilter::NoDca => look_at_side(active, asset, interval, epoch, new_direction).count
                == 0,
            EntryFilter::DcaCap { max } => look_at_side(
                active,
                asset,
                interval,
                epoch,
                new_direction,
            ).count < *max,
            EntryFilter::SplitDcaByInterval { five_min, fifteen_min } => {
                if same_text(interval, "5m") {
                    five_min.accept(
                        ret_bps,
                        new_direction,
                        active,
                        asset,
                        interval,
                        epoch,
                        candidate_entry_price,
                        candidate_trigger_close,
                    )
                } else if same_text(interval, "15m") {
                    fifteen_min.accept(
                        ret_bps,
                        new_direction,
                        active,
                        asset,
                        interval,
                        epoch,
                        candidate_entry_price,
                        candidate_trigger_close,
                    )
                } else {
                    true
                }
            },
        }
    }

    /// The filter's name in files and tables.
    pub fn label(&self) -> (r: String)
        ensures
            r@ == filter_name(*self),
        decreases self,
    {
        let mut out = String::new();
        match self {
            EntryFilter::Baseline => push_str(&mut out, "a0_baseline"),
            EntryFilter::BpsThreshold { min_abs_bps } => {
                push_str(&mut out, "bps_");
                push_number(&mut out, to_even_whole(*min_abs_bps));
            },
            EntryFilter::NoOpposite => push_str(&mut out, "b1_no_opposite"),
            EntryFilter::ReglaCMarker => push_str(&mut out, "b2_regla_c"),
            EntryFilter::AsymmetricBps { min_abs_bps, opposite_min_abs_bps } => {
                push_str(&mut out, "asym_b");
                push_number(&mut out, to_even_whole(*min_abs_bps));
                push_str(&mut out, "_opp");
                push_number(&mut out, to_even_whole(*opposite_min_abs_bps));
            },
            EntryFilter::DcaUnlimited => push_str(&mut out, "d0_dca_unlimited"),
            EntryFilter::DcaImprovingPrice => push_str(&mut out, "d1_dca_improving_price"),
            EntryFilter::DcaConfirmingUnderlying => push_str(
                &mut out,
                "d2a_dca_confirming_underlying",
            ),
            EntryFilter::DcaConfirmingAsk => push_str(&mut out, "d2b_dca_confirming_ask"),
            EntryFilter::NoDca => push_str(&mut out, "d3_no_dca"),
            EntryFilter::DcaCap { max } => {
                push_str(&mut out, "d4_dca_cap_");
                push_number(&mut out, *max as u64);
            },
            EntryFilter::SplitDcaByInterval { five_min, fifteen_min } => {
                push_str(&mut out, "split_dca_5m=");
                let a = five_min.label();
                push_str(&mut out, a.as_str());
                push_str(&mut out, "_15m=");
                let b = fifteen_min.label();
                push_str(&mut out, b.as_str());
            },
        }
        assert(out@ =~= filter_name(*self));
        out
    }
}

/// The filter that a short label names.
pub open spec fn labelled(s: Seq<char>) -> Option<EntryFilter> {
    if s == "a0"@ {
        Some(EntryFilter::Baseline)
    } else if s == "a1"@ {
        Some(EntryFilter::BpsThreshold { min_abs_bps: 6_000_000 })
    } else if s == "a2"@ {
        Some(EntryFilter::BpsThreshold { min_abs_bps: 7_000_000 })
    } else if s == "a3"@ {
        Some(EntryFilter::BpsThreshold { min_abs_bps: 8_000_000 })
    } else if s == "b1"@ {
        Some(EntryFilter::NoOpposite)
    } else if s == "b2"@ {
        Some(EntryFilter::ReglaCMarker)
    } else if s == "c1"@ {
        Some(EntryFilter::AsymmetricBps { min_abs_bps: 5_000_000, opposite_min_abs_bps: 8_000_000 })
    } else if s == "c2"@ {
        Some(EntryFilter::AsymmetricBps { min_abs_bps: 5_000_000, opposite_min_abs_bps: 7_000_000 })
    } else if s == "c3"@ {
        Some(
            EntryFilter::AsymmetricBps { min_abs_bps: 5_000_000, opposite_min_abs_bps: 10_000_000 },
        )
    } else if s == "d0"@ {
        Some(EntryFilter::DcaUnlimited)
    } else if s == "d1"@ {
        Some(EntryFilter::DcaImprovingPrice)
    } else if s == "d2a"@ {
        Some(EntryFilter::DcaConfirmingUnderlying)
    } else if s == "d2b"@ {
        Some(EntryFilter::DcaConfirmingAsk)
    } else if s == "d3"@ {
        Some(EntryFilter::NoDca)
    } else if s == "d4"@ {
        Some(EntryFilter::DcaCap { max: 3 })
    } else if s == "split_dca"@ {
        Some(
            EntryFilter::SplitDcaByInterval {
                five_min: Box::new(EntryFilter::DcaUnlimited),
                fifteen_min: Box::new(EntryFilter::DcaCap { max: 3 }),
            },
        )
    } else {
        None
    }
}

fn read_label(s: &str) -> (r: Option<EntryFilter>)
    ensures
        r == labelled(s@),
{
    if same_text(s, "a0") {
        Some(EntryFilter::Baseline)
    } else if same_text(s, "a1") {
        Some(EntryFilter::BpsThreshold { min_abs_bps: 6_000_000 })
    } else if same_text(s, "a2") {
        Some(EntryFilter::BpsThreshold { min_abs_bps: 7_000_000 })
    } else if same_text(s, "a3") {
        Some(EntryFilter::BpsThreshold { min_abs_bps: 8_000_000 })
    } else if same_text(s, "b1") {
        Some(EntryFilter::NoOpposite)
    } else if same_text(s, "b2") {
        Some(EntryFilter::ReglaCMarker)
    } else if same_text(s, "c1") {
        Some(EntryFilter::AsymmetricBps { min_abs_bps: 5_000_000, opposite_min_abs_bps: 8_000_000 })
    } else if same_text(s, "c2") {
        Some(EntryFilter::AsymmetricBps { min_abs_bps: 5_000_000, opposite_min_abs_bps: 7_000_000 })
    } else if same_text(s, "c3") {
        Some(
            EntryFilter::AsymmetricBps { min_abs_bps: 5_000_000, opposite_min_abs_bps: 10_000_000 },
        )
    } else if same_text(s, "d0") {
        Some(EntryFilter::DcaUnlimited)
    } else if same_text(s, "d1") {
        Some(EntryFilter::DcaImprovingPrice)
    } else if same_text(s, "d2a") {
        Some(EntryFilter::DcaConfirmingUnderlying)
    } else if same_text(s, "d2b") {
        Some(EntryFilter::DcaConfirmingAsk)
    } else if same_text(s, "d3") {
        Some(EntryFilter::NoDca)
    } else if same_text(s, "d4") {
        Some(EntryFilter::DcaCap { max: 3 })
    } else if same_text(s, "split_dca") {
        Some(
            EntryFilter::SplitDcaByInterval {
                five_min: Box::new(EntryFilter::DcaUnlimited),
                fifteen_min: Box::new(EntryFilter::DcaCap { max: 3 }),
            },
        )
    } else {
        None
    }
}

/// Why a list of labels cannot be read.
#[derive(Debug, Clone)]
pub enum LabelError {
    /// No filter has this label.
    Unknown(String),
    /// There is no label in it.
    Empty,
}

/// The filters that the pieces of a list name; pieces of white space are passed
/// over, the first unknown label ends it.
pub open spec fn filters_of(pieces: Seq<Seq<char>>) -> Result<Seq<EntryFilter>, Seq<char>>
    decreases pieces.len(),
{
    if pieces.len() == 0 {
        Ok(Seq::empty())
    } else {
        let token = text::trimmed(pieces.last());
        match filters_of(pieces.drop_last()) {
            Err(e) => Err(e),
            Ok(v) => if token.len() == 0 {
                Ok(v)
            } else {
                match labelled(token) {
                    Some(f) => Ok(v.push(f)),
                    None => Err(token),
                }
            },
        }
    }
}

proof fn lemma_unknown_stays(pieces: Seq<Seq<char>>, n: int)
    requires
        0 <= n <= pieces.len(),
        filters_of(pieces.take(n)) is Err,
    ensures
        filters_of(pieces) == filters_of(pieces.take(n)),
    decreases pieces.len(),
{
    if n == pieces.len() {
        assert(pieces.take(n) =~= pieces);
    } else {
        assert(pieces.drop_last().take(n) =~= pieces.take(n));
        lemma_unknown_stays(pieces.drop_last(), n);
    }
}

/// Reads a list of labels, separated by commas.
pub fn parse_entry_filter_labels(spec_text: &str) -> (r: Result<Vec<EntryFilter>, LabelError>)
    ensures
        match filters_of(text::split(spec_text@, ',')) {
            Err(token) => r matches Err(LabelError::Unknown(t)) && t@ == token,
            Ok(v) => if v.len() == 0 {
                r matches Err(LabelError::Empty)
            } else {
                r matches Ok(out) && out@ == v
            },
        },
{
    let chars = chars_of(spec_text);
    let parts = split_at_char(chars.as_slice(), ',');
    let ghost all = text::pieces(parts@);
    let mut out: Vec<EntryFilter> = Vec::new();
    let mut i: usize = 0;
    proof {
        assert(all.take(0) =~= Seq::empty());
    }
    while i < parts.len()
        invariant
            i <= parts@.len(),
            all == text::pieces(parts@),
            all == text::split(spec_text@, ','),
            filters_of(all.take(i as int)) == Ok::<_, Seq<char>>(out@),
        decreases parts@.len() - i,
    {
        proof {
            assert(all.take(i + 1).drop_last() =~= all.take(i as int));
            assert(all.take(i + 1).last() == parts@[i as int]@);
        }
        let token = trim(parts[i].as_slice());
        if token.len() > 0 {
            let word = text_of(token.as_slice());
            match read_label(&word) {
                Some(f) => {
                    out.push(f);
                },
                None => {
                    proof {
                        lemma_unknown_stays(all, i + 1);
                    }
                    return Err(LabelError::Unknown(word));
                },
            }
        }
        i += 1;
    }
    proof {
        assert(all.take(i as int) =~= all);
    }
    if out.len() == 0 {
        Err(LabelError::Empty)
    } else {
        Ok(out)
    }
}

/// The short label of a filter, where it has one, or else its name.
pub open spec fn short_label(f: EntryFilter) -> Seq<char> {
    match f {
        EntryFilter::Baseline => "a0"@,
        EntryFilter::BpsThreshold { min_abs_bps } => if min_abs_bps == 6_000_000 {
            "a1"@
        } else if min_abs_bps == 7_000_000 {
            "a2"@
        } else if min_abs_bps == 8_000_000 {
            "a3"@
        } else {
            filter_name(f)
        },
        EntryFilter::NoOpposite => "b1"@,
        EntryFilter::ReglaCMarker => "b2"@,
        EntryFilter::AsymmetricBps { min_abs_bps: _, opposite_min_abs_bps } => if opposite_min_abs_bps
            == 8_000_000 {
            "c1"@
        } else if opposite_min_abs_bps == 7_000_000 {
            "c2"@
        } else if opposite_min_abs_bps == 10_000_000 {
            "c3"@
        } else {
            filter_name(f)
        },
        EntryFilter::DcaUnlimited => "d0"@,
        EntryFilter::DcaImprovingPrice => "d1"@,
        EntryFilter::DcaConfirmingUnderlying => "d2a"@,
        EntryFilter::DcaConfirmingAsk => "d2b"@,
        EntryFilter::NoDca => "d3"@,
        EntryFilter::DcaCap { max } => if max == 3 {
            "d4"@
        } else {
            filter_name(f)
        },
        EntryFilter::SplitDcaByInterval { five_min, fifteen_min } => if *five_min
            == EntryFilter::DcaUnlimited && *fifteen_min == (EntryFilter::DcaCap { max: 3 }) {
            "split_dca"@
        } else {
            filter_name(f)
        },
    }
}

/// The short label of a filter.
pub fn cli_label_for(f: &EntryFilter) -> (r: String)
    ensures
        r@ == short_label(*f),
{
    match f {
        EntryFilter::Baseline => owned("a0"),
        EntryFilter::BpsThreshold { min_abs_bps } => {
            if *min_abs_bps == 6_000_000 {
                owned("a1")
            } else if *min_abs_bps == 7_000_000 {
                owned("a2")
            } else if *min_abs_bps == 8_000_000 {
                owned("a3")
            } else {
                f.label()
            }
        },
        EntryFilter::NoOpposite => owned("b1"),
        EntryFilter::ReglaCMarker => owned("b2"),
        EntryFilter::AsymmetricBps { min_abs_bps: _, opposite_min_abs_bps } => {
            if *opposite_min_abs_bps == 8_000_000 {
                owned("c1")
            } else if *opposite_min_abs_bps == 7_000_000 {
                owned("c2")
            } else if *opposite_min_abs_bps == 10_000_000 {
                owned("c3")
            } else {
                f.label()
            }
        },
        EntryFilter::DcaUnlimited => owned("d0"),
        EntryFilter::DcaImprovingPrice => owned("d1"),
        EntryFilter::DcaConfirmingUnderlying => owned("d2a"),
        EntryFilter::DcaConfirmingAsk => owned("d2b"),
        EntryFilter::NoDca => owned("d3"),
        EntryFilter::DcaCap { max } => {
            if *max == 3 {
                owned("d4")
            } else {
                f.label()
            }
        },
        EntryFilter::SplitDcaByInterval { five_min, fifteen_min } => {
            let plain = match &**five_min {
                EntryFilter::DcaUnlimited => true,
                _ => false,
            };
            let capped = match &**fifteen_min {
                EntryFilter::DcaCap { max } => *max == 3,
                _ => false,
            };
            if plain && capped {
                owned("split_dca")
            } else {
                f.label()
            }
        },
    }
}

/// Every filter that a label names gives the label back.
pub proof fn law_labels_come_back(s: Seq<char>)
    requires
        labelled(s) is Some,
    ensures
        short_label(labelled(s)->0) == s,
{
}

/// The unlimited filter decides as the one that lets all signals through.
pub proof fn law_unlimited_is_the_baseline(active: Seq<CollectedPosition>, c: Candidate)
    ensures
        accepts(EntryFilter::DcaUnlimited, active, c) == accepts(EntryFilter::Baseline, active, c),
{
}

/// With no open lot on its own side, no filter on further lots stops a signal.
pub proof fn law_first_lot_is_never_blocked(active: Seq<CollectedPosition>, c: Candidate)
    requires
        own_side(active, c).len() == 0,
    ensures
        accepts(EntryFilter::DcaImprovingPrice, active, c),
        accepts(EntryFilter::DcaConfirmingUnderlying, active, c),
        accepts(EntryFilter::DcaConfirmingAsk, active, c),
        accepts(EntryFilter::NoDca, active, c),
        forall|max: usize|
            max > 0 ==> #[trigger] accepts(EntryFilter::DcaCap { max }, active, c),
{
}

/// The two filters on the price exclude each other, and neither lets a signal
/// through that pays as much as some open lot.
pub proof fn law_price_filters_are_mirrors(active: Seq<CollectedPosition>, c: Candidate, i: int)
    requires
        0 <= i < own_side(active, c).len(),
    ensures
        !(accepts(EntryFilter::DcaImprovingPrice, active, c) && accepts(
            EntryFilter::DcaConfirmingAsk,
            active,
            c,
        )),
        c.entry_price == own_side(active, c)[i].entry_price ==> !accepts(
            EntryFilter::DcaImprovingPrice,
            active,
            c,
        ) && !accepts(EntryFilter::DcaConfirmingAsk, active, c),
{
    let p = own_side(active, c)[i].entry_price;
}

/// One lot at most is a cap of one.
pub proof fn law_no_dca_is_a_cap_of_one(active: Seq<CollectedPosition>, c: Candidate)
    ensures
        accepts(EntryFilter::NoDca, active, c) == accepts(
            EntryFilter::DcaCap { max: 1 },
            active,
            c,
        ),
{
}

/// A filter with a cap never lets a side of a market have more lots than that.
pub proof fn law_cap_holds(active: Seq<CollectedPosition>, c: Candidate, max: usize, p: CollectedPosition)
    requires
        accepts(EntryFilter::DcaCap { max }, active, c),
        own_side(active, c).len() <= max,
    ensures
        own_side(active.push(p), c).len() <= max,
{
    assert(active.push(p).drop_last() =~= active);
}

/// Two lots are in one market.
pub open spec fn one_market(a: CollectedPosition, b: CollectedPosition) -> bool {
    in_market(a, b.asset@, b.interval@, b.epoch)
}

/// Some lot of the market of `p` has this direction.
pub open spec fn has_side(
    positions: Seq<CollectedPosition>,
    p: CollectedPosition,
    direction: Seq<char>,
) -> bool {
    exists|j: int|
        0 <= j < positions.len() && one_market(#[trigger] positions[j], p)
            && positions[j].direction@ == direction
}

/// No earlier lot is in the market of the lot at `i`.
pub open spec fn is_first_of_market(positions: Seq<CollectedPosition>, i: int) -> bool {
    forall|j: int| 0 <= j < i ==> !one_market(#[trigger] positions[j], positions[i])
}

/// The lot at `i` stands for a market that was bet on in both directions.
pub open spec fn stands_for_double(positions: Seq<CollectedPosition>, i: int) -> bool {
    &&& is_first_of_market(positions, i)
    &&& has_side(positions, positions[i], "Up"@)
    &&& has_side(positions, positions[i], "Down"@)
}

/// The number of markets that were bet on in both directions, among those whose
/// first lot is one of the first `n`. Where a cell is given, only its markets
/// count.
pub open spec fn doubles(
    positions: Seq<CollectedPosition>,
    n: int,
    cell: Option<(Seq<char>, Seq<char>)>,
) -> nat
    decreases n,
{
    if n <= 0 {
        0
    } else {
        doubles(positions, n - 1, cell) + (if stands_for_double(positions, n - 1) && in_cell(
            positions[n - 1],
            cell,
        ) {
            1nat
        } else {
            0nat
        })
    }
}

pub open spec fn in_cell(p: CollectedPosition, cell: Option<(Seq<char>, Seq<char>)>) -> bool {
    match cell {
        Some((asset, interval)) => p.asset@ == asset && p.interval@ == interval,
        None => true,
    }
}

fn is_one_market(a: &CollectedPosition, b: &CollectedPosition) -> (r: bool)
    ensures
        r == one_market(*a, *b),
{
    is_in_market(a, &b.asset, &b.interval, b.epoch)
}

fn is_double(positions: &[CollectedPosition], i: usize) -> (r: bool)
    requires
        i < positions@.len(),
    ensures
        r == stands_for_double(positions@, i as int),
{
    let mut up = false;
    let mut down = false;
    let mut j: usize = 0;
    while j < positions.len()
        invariant
            i < positions@.len(),
            j <= positions@.len(),
            forall|k: int|
                0 <= k < j && k < i ==> !one_market(#[trigger] positions@[k], positions@[i as int]),
            up ==> has_side(positions@, positions@[i as int], "Up"@),
            down ==> has_side(positions@, positions@[i as int], "Down"@),
            !up ==> forall|k: int|
                0 <= k < j ==> !(one_market(#[trigger] positions@[k], positions@[i as int])
                    && positions@[k].direction@ == "Up"@),
            !down ==> forall|k: int|
                0 <= k < j ==> !(one_market(#[trigger] positions@[k], positions@[i as int])
                    && positions@[k].direction@ == "Down"@),
        decreases positions@.len() - j,
    {
        if is_one_market(&positions[j], &positions[i]) {
            if j < i {
                return false;
            }
            if same_text(&positions[j].direction, "Up") {
                up = true;
            }
            if same_text(&positions[j].direction, "Down") {
                down = true;
            }
        }
        j += 1;
    }
    up && down
}

/// How many markets were bet on in both directions.
pub fn count_double_sided_markets(positions: &[CollectedPosition]) -> (r: usize)
    ensures
        r == doubles(positions@, positions@.len() as int, None),
{
    let mut n: usize = 0;
    let mut i: usize = 0;
    while i < positions.len()
        invariant
            i <= positions@.len(),
            n <= i,
            n == doubles(positions@, i as int, None),
        decreases positions@.len() - i,
    {
        if is_double(positions, i) {
            n += 1;
        }
        i += 1;
    }
    n
}

/// How many markets of one cell were bet on in both directions.
pub fn count_double_sided_markets_for_cell(
    positions: &[CollectedPosition],
    asset: &str,
    interval: &str,
) -> (r: usize)
    ensures
        r == doubles(positions@, positions@.len() as int, Some((asset@, interval@))),
{
    let mut n: usize = 0;
    let mut i: usize = 0;
    while i < positions.len()
        invariant
            i <= positions@.len(),
            n <= i,
            n == doubles(positions@, i as int, Some((asset@, interval@))),
        decreases positions@.len() - i,
    {
        if same_text(&positions[i].asset, asset) && same_text(&positions[i].interval, interval)
            && is_double(positions, i) {
            n += 1;
        }
        i += 1;
    }
    n
}

/// No cell has more such markets than there are in all.
pub proof fn law_cells_have_no_more_doubles(
    positions: Seq<CollectedPosition>,
    n: int,
    asset: Seq<char>,
    interval: Seq<char>,
)
    ensures
        doubles(positions, n, Some((asset, interval))) <= doubles(positions, n, None),
    decreases n,
{
    if n > 0 {
        law_cells_have_no_more_doubles(positions, n - 1, asset, interval);
    }
}

} // verus!
