//! What can be known of a lot at a moment of its life, and what could not.
//!
//! Prices are in units of 1e-10 dollars per share, ratios in units of 1e-8,
//! returns in units of 1e-12.

use crate::b3_maker::{self, cell_label};
use crate::backtest::exits;
use crate::backtest::position::{self, CollectedPosition};
use crate::backtest::trajectory::Sample;
use crate::config::Num;
use crate::decimal::{self, Dec, DecV};
use crate::numeral::{self, to_fine_units};
use crate::text::owned;
use vstd::prelude::*;
use vstd::slice::slice_subrange;

verus! {

/// The best bid and ask at a time.
pub type Bbo = (i64, Option<u32>, Option<u32>);

/// The close of the candle that began at a time.
pub type Close = (i64, Num);

pub open spec fn sample_times(s: Seq<Sample>) -> Seq<i64> {
    s.map_values(|x: Sample| x.0)
}

pub open spec fn bbo_times(s: Seq<Bbo>) -> Seq<i64> {
    s.map_values(|x: Bbo| x.0)
}

pub open spec fn close_times(s: Seq<Close>) -> Seq<i64> {
    s.map_values(|x: Close| x.0)
}

/// No time is before the one that stands before it.
pub open spec fn ordered(times: Seq<i64>) -> bool {
    forall|i: int, j: int| 0 <= i <= j < times.len() ==> #[trigger] times[i] <= #[trigger] times[j]
}

/// How many times are not after `t`: those are the first ones.
pub open spec fn is_cut(times: Seq<i64>, t: int, n: int) -> bool {
    &&& 0 <= n <= times.len()
    &&& forall|i: int| 0 <= i < n ==> #[trigger] times[i] <= t
    &&& forall|i: int| n <= i < times.len() ==> #[trigger] times[i] > t
}

/// The samples up to a moment. Nothing behind the moment can be had from it.
pub struct CausalSlice<'a> {
    samples: &'a [Sample],
    t: i64,
}

/// Where the samples after `t` begin.
pub fn first_after(trajectory: &[Sample], t: i64) -> (r: usize)
    requires
        ordered(sample_times(trajectory@)),
    ensures
        is_cut(sample_times(trajectory@), t as int, r as int),
{
    let ghost times = sample_times(trajectory@);
    let mut lo: usize = 0;
    let mut hi: usize = trajectory.len();
    while lo < hi
        invariant
            times == sample_times(trajectory@),
            ordered(times),
            lo <= hi <= times.len(),
            forall|i: int| 0 <= i < lo ==> #[trigger] times[i] <= t,
            forall|i: int| hi <= i < times.len() ==> #[trigger] times[i] > t,
        decreases hi - lo,
    {
        let mid: usize = lo + (hi - lo) / 2;
        assert(times[mid as int] == trajectory@[mid as int].0);
        if trajectory[mid].0 <= t {
            assert forall|i: int| 0 <= i < mid + 1 implies #[trigger] times[i] <= t by {
                assert(times[i] <= times[mid as int]);
            }
            lo = mid + 1;
        } else {
            assert forall|i: int| mid <= i < times.len() implies #[trigger] times[i] > t by {
                assert(times[mid as int] <= times[i]);
            }
            hi = mid;
        }
    }
    lo
}

fn first_bbo_after(s: &[Bbo], t: i64) -> (r: usize)
    requires
        ordered(bbo_times(s@)),
    ensures
        is_cut(bbo_times(s@), t as int, r as int),
{
    let ghost times = bbo_times(s@);
    let mut lo: usize = 0;
    let mut hi: usize = s.len();
    while lo < hi
        invariant
            times == bbo_times(s@),
            ordered(times),
            lo <= hi <= times.len(),
            forall|i: int| 0 <= i < lo ==> #[trigger] times[i] <= t,
            forall|i: int| hi <= i < times.len() ==> #[trigger] times[i] > t,
        decreases hi - lo,
    {
        let mid: usize = lo + (hi - lo) / 2;
        assert(times[mid as int] == s@[mid as int].0);
        if s[mid].0 <= t {
            assert forall|i: int| 0 <= i < mid + 1 implies #[trigger] times[i] <= t by {
                assert(times[i] <= times[mid as int]);
            }
            lo = mid + 1;
        } else {
            assert forall|i: int| mid <= i < times.len() implies #[trigger] times[i] > t by {
                assert(times[mid as int] <= times[i]);
            }
            hi = mid;
        }
    }
    lo
}

fn first_close_after(s: &[Close], t: i64) -> (r: usize)
    requires
        ordered(close_times(s@)),
    ensures
        is_cut(close_times(s@), t as int, r as int),
{
    let ghost times = close_times(s@);
    let mut lo: usize = 0;
    let mut hi: usize = s.len();
    while lo < hi
        invariant
            times == close_times(s@),
            ordered(times),
            lo <= hi <= times.len(),
            forall|i: int| 0 <= i < lo ==> #[trigger] times[i] <= t,
            forall|i: int| hi <= i < times.len() ==> #[trigger] times[i] > t,
        decreases hi - lo,
    {
        let mid: usize = lo + (hi - lo) / 2;
        assert(times[mid as int] == s@[mid as int].0);
        if s[mid].0 <= t {
            assert forall|i: int| 0 <= i < mid + 1 implies #[trigger] times[i] <= t by {
                assert(times[i] <= times[mid as int]);
            }
            lo = mid + 1;
        } else {
            assert forall|i: int| mid <= i < times.len() implies #[trigger] times[i] > t by {
                assert(times[mid as int] <= times[i]);
            }
            hi = mid;
        }
    }
    lo
}

/// The samples that are not after `t`.
pub open spec fn past(s: Seq<Sample>, t: int) -> Seq<Sample>
    decreases s.len(),
{
    if s.len() == 0 || s[0].0 > t {
        Seq::empty()
    } else {
        seq![s[0]] + past(s.drop_first(), t)
    }
}

/// The samples after `t`.
pub open spec fn future(s: Seq<Sample>, t: int) -> Seq<Sample> {
    s.skip(past(s, t).len() as int)
}

pub open spec fn past_bbo(s: Seq<Bbo>, t: int) -> Seq<Bbo>
    decreases s.len(),
{
    if s.len() == 0 || s[0].0 > t {
        Seq::empty()
    } else {
        seq![s[0]] + past_bbo(s.drop_first(), t)
    }
}

pub open spec fn past_closes(s: Seq<Close>, t: int) -> Seq<Close>
    decreases s.len(),
{
    if s.len() == 0 || s[0].0 > t {
        Seq::empty()
    } else {
        seq![s[0]] + past_closes(s.drop_first(), t)
    }
}

proof fn lemma_past(s: Seq<Sample>, t: int, n: int)
    requires
        is_cut(sample_times(s), t, n),
    ensures
        past(s, t) == s.take(n),
    decreases s.len(),
{
    let times = sample_times(s);
    if n > 0 {
        assert(times[0] == s[0].0);
        let rest = s.drop_first();
        let rt = sample_times(rest);
        assert forall|i: int| 0 <= i < n - 1 implies #[trigger] rt[i] <= t by {
            assert(rt[i] == times[i + 1]);
        }
        assert forall|i: int| n - 1 <= i < rt.len() implies #[trigger] rt[i] > t by {
            assert(rt[i] == times[i + 1]);
        }
        lemma_past(rest, t, n - 1);
        assert(s.take(n) =~= seq![s[0]] + rest.take(n - 1));
    } else {
        if s.len() > 0 {
            assert(times[0] == s[0].0);
        }
        assert(s.take(0) =~= Seq::empty());
    }
}

proof fn lemma_past_bbo(s: Seq<Bbo>, t: int, n: int)
    requires
        is_cut(bbo_times(s), t, n),
    ensures
        past_bbo(s, t) == s.take(n),
    decreases s.len(),
{
    let times = bbo_times(s);
    if n > 0 {
        assert(times[0] == s[0].0);
        let rest = s.drop_first();
        let rt = bbo_times(rest);
        assert forall|i: int| 0 <= i < n - 1 implies #[trigger] rt[i] <= t by {
            assert(rt[i] == times[i + 1]);
        }
        assert forall|i: int| n - 1 <= i < rt.len() implies #[trigger] rt[i] > t by {
            assert(rt[i] == times[i + 1]);
        }
        lemma_past_bbo(rest, t, n - 1);
        assert(s.take(n) =~= seq![s[0]] + rest.take(n - 1));
    } else {
        if s.len() > 0 {
            assert(times[0] == s[0].0);
        }
        assert(s.take(0) =~= Seq::empty());
    }
}

proof fn lemma_past_closes(s: Seq<Close>, t: int, n: int)
    requires
        is_cut(close_times(s), t, n),
    ensures
        past_closes(s, t) == s.take(n),
    decreases s.len(),
{
    let times = close_times(s);
    if n > 0 {
        assert(times[0] == s[0].0);
        let rest = s.drop_first();
        let rt = close_times(rest);
        assert forall|i: int| 0 <= i < n - 1 implies #[trigger] rt[i] <= t by {
            assert(rt[i] == times[i + 1]);
        }
        assert forall|i: int| n - 1 <= i < rt.len() implies #[trigger] rt[i] > t by {
            assert(rt[i] == times[i + 1]);
        }
        lemma_past_closes(rest, t, n - 1);
        assert(s.take(n) =~= seq![s[0]] + rest.take(n - 1));
    } else {
        if s.len() > 0 {
            assert(times[0] == s[0].0);
        }
        assert(s.take(0) =~= Seq::empty());
    }
}

/// The last value of samples.
pub open spec fn last_known(s: Seq<Sample>) -> Option<u128>
    decreases s.len(),
{
    if s.len() == 0 {
        None
    } else {
        match s.last().1 {
            Some(v) => Some(v),
            None => last_known(s.drop_last()),
        }
    }
}

/// The last value that was had at `target` or before.
pub open spec fn last_known_by(s: Seq<Sample>, target: int) -> Option<u128>
    decreases s.len(),
{
    if s.len() == 0 {
        None
    } else {
        match s.last().1 {
            Some(v) if s.last().0 <= target => Some(v),
            _ => last_known_by(s.drop_last(), target),
        }
    }
}

/// The highest value of samples.
pub open spec fn top(s: Seq<Sample>) -> Option<int> {
    match exits::high(None, s) {
        Some((v, _)) => Some(v),
        None => None,
    }
}

/// When a value was last had.
pub open spec fn last_at(s: Seq<Sample>, v: int) -> Option<i64>
    decreases s.len(),
{
    if s.len() == 0 {
        None
    } else if s.last().1 matches Some(x) && x == v {
        Some(s.last().0)
    } else {
        last_at(s.drop_last(), v)
    }
}

impl<'a> CausalSlice<'a> {
    pub closed spec fn samples(self) -> Seq<Sample> {
        self.samples@
    }

    pub closed spec fn moment(self) -> i64 {
        self.t
    }

    pub fn new(trajectory: &'a [Sample], t: i64) -> (r: Self)
        requires
            ordered(sample_times(trajectory@)),
        ensures
            r.samples() == past(trajectory@, t as int),
            r.moment() == t,
    {
        let n: usize = first_after(trajectory, t);
        proof {
            lemma_past(trajectory@, t as int, n as int);
            assert(trajectory@.subrange(0, n as int) =~= trajectory@.take(n as int));
        }
        CausalSlice { samples: slice_subrange(trajectory, 0, n), t }
    }

    pub fn t(&self) -> (r: i64)
        ensures
            r == self.moment(),
    {
        self.t
    }

    pub fn len(&self) -> (r: usize)
        ensures
            r == self.samples().len(),
    {
        self.samples.len()
    }

    /// One of the samples.
    pub fn get(&self, i: usize) -> (r: Sample)
        requires
            i < self.samples().len(),
        ensures
            r == self.samples()[i as int],
    {
        self.samples[i]
    }

    /// The last value.
    pub fn last_finite_bid(&self) -> (r: Option<u128>)
        ensures
            r == last_known(self.samples()),
    {
        let mut i: usize = self.samples.len();
        proof {
            assert(self.samples@.take(i as int) =~= self.samples@);
        }
        while i > 0
            invariant
                i <= self.samples@.len(),
                last_known(self.samples@) == last_known(self.samples@.take(i as int)),
            decreases i,
        {
            proof {
                let now = self.samples@.take(i as int);
                assert(now.drop_last() =~= self.samples@.take(i - 1));
                assert(now.last() == self.samples@[i - 1]);
            }
            match self.samples[i - 1].1 {
                Some(v) => {
                    return Some(v);
                },
                None => {},
            }
            i -= 1;
        }
        None
    }

    /// The last value that was had at `target` or before.
    pub fn last_bid_by(&self, target: i128) -> (r: Option<u128>)
        ensures
            r == last_known_by(self.samples(), target as int),
    {
        let mut i: usize = self.samples.len();
        proof {
            assert(self.samples@.take(i as int) =~= self.samples@);
        }
        while i > 0
            invariant
                i <= self.samples@.len(),
                last_known_by(self.samples@, target as int) == last_known_by(
                    self.samples@.take(i as int),
                    target as int,
                ),
            decreases i,
        {
            proof {
                let now = self.samples@.take(i as int);
                assert(now.drop_last() =~= self.samples@.take(i - 1));
                assert(now.last() == self.samples@[i - 1]);
            }
            let (ms, bid) = self.samples[i - 1];
            match bid {
                Some(v) => {
                    if ms as i128 <= target {
                        return Some(v);
                    }
                },
                None => {},
            }
            i -= 1;
        }
        None
    }

    /// The highest value.
    pub fn max_bid(&self) -> (r: Option<u128>)
        ensures
            position::amount(r) == top(self.samples()),
    {
        let mut best: Option<u128> = None;
        let mut i: usize = 0;
        proof {
            assert(self.samples@.take(0) =~= Seq::empty());
        }
        while i < self.samples.len()
            invariant
                i <= self.samples@.len(),
                position::amount(best) == top(self.samples@.take(i as int)),
            decreases self.samples@.len() - i,
        {
            proof {
                let next = self.samples@.take(i + 1);
                assert(next.drop_last() =~= self.samples@.take(i as int));
                assert(next.last() == self.samples@[i as int]);
            }
            match self.samples[i].1 {
                Some(v) => {
                    let higher = match best {
                        Some(b) => v > b,
                        None => true,
                    };
                    if higher {
                        best = Some(v);
                    }
                },
                None => {},
            }
            i += 1;
        }
        proof {
            assert(self.samples@.take(i as int) =~= self.samples@);
        }
        best
    }

    /// When a value was last had.
    fn last_time_of(&self, v: u128) -> (r: Option<i64>)
        ensures
            r == last_at(self.samples(), v as int),
    {
        let mut i: usize = self.samples.len();
        proof {
            assert(self.samples@.take(i as int) =~= self.samples@);
        }
        while i > 0
            invariant
                i <= self.samples@.len(),
                last_at(self.samples@, v as int) == last_at(
                    self.samples@.take(i as int),
                    v as int,
                ),
            decreases i,
        {
            proof {
                let now = self.samples@.take(i as int);
                assert(now.drop_last() =~= self.samples@.take(i - 1));
                assert(now.last() == self.samples@[i - 1]);
            }
            let (ms, bid) = self.samples[i - 1];
            match bid {
                Some(x) => {
                    if x == v {
                        return Some(ms);
                    }
                },
                None => {},
            }
            i -= 1;
        }
        None
    }
}

/// The best bids and asks up to a moment.
pub struct CausalSliceBbo<'a> {
    samples: &'a [Bbo],
    t: i64,
}

/// The last best bid and ask where both are known.
pub open spec fn last_full(s: Seq<Bbo>) -> Option<(u32, u32)>
    decreases s.len(),
{
    if s.len() == 0 {
        None
    } else {
        match (s.last().1, s.last().2) {
            (Some(b), Some(a)) => Some((b, a)),
            _ => last_full(s.drop_last()),
        }
    }
}

/// The last best bid that is known.
pub open spec fn last_bid(s: Seq<Bbo>) -> Option<u32>
    decreases s.len(),
{
    if s.len() == 0 {
        None
    } else {
        match s.last().1 {
            Some(b) => Some(b),
            None => last_bid(s.drop_last()),
        }
    }
}

impl<'a> CausalSliceBbo<'a> {
    pub closed spec fn samples(self) -> Seq<Bbo> {
        self.samples@
    }

    pub closed spec fn moment(self) -> i64 {
        self.t
    }

    pub fn new(trajectory_bbo: &'a [Bbo], t: i64) -> (r: Self)
        requires
            ordered(bbo_times(trajectory_bbo@)),
        ensures
            r.samples() == past_bbo(trajectory_bbo@, t as int),
            r.moment() == t,
    {
        let n: usize = first_bbo_after(trajectory_bbo, t);
        proof {
            lemma_past_bbo(trajectory_bbo@, t as int, n as int);
            assert(trajectory_bbo@.subrange(0, n as int) =~= trajectory_bbo@.take(n as int));
        }
        CausalSliceBbo { samples: slice_subrange(trajectory_bbo, 0, n), t }
    }

    pub fn t(&self) -> (r: i64)
        ensures
            r == self.moment(),
    {
        self.t
    }

    pub fn last_full_bbo(&self) -> (r: Option<(u32, u32)>)
        ensures
            r == last_full(self.samples()),
    {
        let mut i: usize = self.samples.len();
        proof {
            assert(self.samples@.take(i as int) =~= self.samples@);
        }
        while i > 0
            invariant
                i <= self.samples@.len(),
                last_full(self.samples@) == last_full(self.samples@.take(i as int)),
            decreases i,
        {
            proof {
                let now = self.samples@.take(i as int);
                assert(now.drop_last() =~= self.samples@.take(i - 1));
                assert(now.last() == self.samples@[i - 1]);
            }
            let (_, bid, ask) = self.samples[i - 1];
            match (bid, ask) {
                (Some(b), Some(a)) => {
                    return Some((b, a));
                },
                _ => {},
            }
            i -= 1;
        }
        None
    }

    pub fn last_best_bid(&self) -> (r: Option<u32>)
        ensures
            r == last_bid(self.samples()),
    {
        let mut i: usize = self.samples.len();
        proof {
            assert(self.samples@.take(i as int) =~= self.samples@);
        }
        while i > 0
            invariant
                i <= self.samples@.len(),
                last_bid(self.samples@) == last_bid(self.samples@.take(i as int)),
            decreases i,
        {
            proof {
                let now = self.samples@.take(i as int);
                assert(now.drop_last() =~= self.samples@.take(i - 1));
                assert(now.last() == self.samples@[i - 1]);
            }
            match self.samples[i - 1].1 {
                Some(b) => {
                    return Some(b);
                },
                None => {},
            }
            i -= 1;
        }
        None
    }
}

/// The closes up to a moment.
pub struct BinanceCausal<'a> {
    closes: &'a [Close],
    t: i64,
}

/// The last close that is not after `target`.
pub open spec fn close_by(s: Seq<Close>, target: int) -> Option<Num>
    decreases s.len(),
{
    if s.len() == 0 {
        None
    } else if s.last().0 <= target {
        Some(s.last().1)
    } else {
        close_by(s.drop_last(), target)
    }
}

/// The last close.
pub open spec fn final_close(s: Seq<Close>) -> Option<Num> {
    if s.len() == 0 {
        None
    } else {
        Some(s.last().1)
    }
}

impl<'a> BinanceCausal<'a> {
    pub closed spec fn closes(self) -> Seq<Close> {
        self.closes@
    }

    pub closed spec fn moment(self) -> i64 {
        self.t
    }

    pub fn new(all_closes: &'a [Close], t: i64) -> (r: Self)
        requires
            ordered(close_times(all_closes@)),
        ensures
            r.closes() == past_closes(all_closes@, t as int),
            r.moment() == t,
    {
        let n: usize = first_close_after(all_closes, t);
        proof {
            lemma_past_closes(all_closes@, t as int, n as int);
            assert(all_closes@.subrange(0, n as int) =~= all_closes@.take(n as int));
        }
        BinanceCausal { closes: slice_subrange(all_closes, 0, n), t }
    }

    pub fn t(&self) -> (r: i64)
        ensures
            r == self.moment(),
    {
        self.t
    }

    pub fn last_close(&self) -> (r: Option<Num>)
        ensures
            r == final_close(self.closes()),
    {
        if self.closes.len() == 0 {
            None
        } else {
            Some(self.closes[self.closes.len() - 1].1)
        }
    }

    pub fn close_at_or_before(&self, target_ms: i128) -> (r: Option<Num>)
        ensures
            r == close_by(self.closes(), target_ms as int),
    {
        let mut i: usize = self.closes.len();
        proof {
            assert(self.closes@.take(i as int) =~= self.closes@);
        }
        while i > 0
            invariant
                i <= self.closes@.len(),
                close_by(self.closes@, target_ms as int) == close_by(
                    self.closes@.take(i as int),
                    target_ms as int,
                ),
            decreases i,
        {
            proof {
                let now = self.closes@.take(i as int);
                assert(now.drop_last() =~= self.closes@.take(i - 1));
                assert(now.last() == self.closes@[i - 1]);
            }
            let (ms, c) = self.closes[i - 1];
            if ms as i128 <= target_ms {
                return Some(c);
            }
            i -= 1;
        }
        None
    }
}

/// The close of the latest candle that began at `t_ms` or before.
pub fn close_at_or_before(closes: &[Close], t_ms: i64) -> (r: Option<Num>)
    requires
        ordered(close_times(closes@)),
    ensures
        r == final_close(past_closes(closes@, t_ms as int)),
{
    BinanceCausal::new(closes, t_ms).last_close()
}

/// Whatever is behind a moment makes no difference to what is known at it.
pub proof fn law_the_past_has_no_future(s: Seq<Sample>, later: Seq<Sample>, t: int)
    requires
        forall|i: int| 0 <= i < later.len() ==> (#[trigger] later[i]).0 > t,
    ensures
        past(s + later, t) == past(s, t),
    decreases s.len(),
{
    let both = s + later;
    if s.len() == 0 {
        assert(both =~= later);
        if later.len() > 0 {
            assert(later[0].0 > t);
        }
    } else {
        assert(both[0] == s[0]);
        if s[0].0 <= t {
            assert(both.drop_first() =~= s.drop_first() + later);
            law_the_past_has_no_future(s.drop_first(), later, t);
        }
    }
}

/// No sample of the past is after its moment.
pub proof fn law_the_past_is_over(s: Seq<Sample>, t: int, i: int)
    requires
        0 <= i < past(s, t).len(),
    ensures
        past(s, t)[i].0 <= t,
    decreases s.len(),
{
    if s.len() > 0 && s[0].0 <= t && i > 0 {
        law_the_past_is_over(s.drop_first(), t, i - 1);
        assert(past(s, t)[i] == past(s.drop_first(), t)[i - 1]);
    }
}

/// Within this share of the price, in thousandths, a better price to come is
/// nothing to wait for.
pub const LABEL_TOLERANCE: u16 = 15;

/// Whether it was right to sell: no later value was above the present one by
/// more than the tolerance. Nothing is said where there is no present value.
pub open spec fn should_have_sold(now: Option<int>, best_later: Option<int>, tolerance: int) -> Option<bool> {
    match now {
        None => None,
        Some(b) => match best_later {
            None => Some(true),
            Some(m) => Some(b * (1000 + tolerance) >= m * 1000),
        },
    }
}

pub fn label_should_have_sold(
    bid_t: Option<u128>,
    max_future_bid: Option<u128>,
    tolerance: u16,
) -> (r: Option<bool>)
    requires
        bid_t matches Some(b) ==> b <= 0x1_0000_0000_0000_0000_0000_0000,
        max_future_bid matches Some(m) ==> m <= 0x1_0000_0000_0000_0000_0000_0000,
    ensures
        r == should_have_sold(
            position::amount(bid_t),
            position::amount(max_future_bid),
            tolerance as int,
        ),
{
    match bid_t {
        None => None,
        Some(b) => match max_future_bid {
            None => Some(true),
            Some(m) => {
                proof {
                    assert(b * (1000 + tolerance) <= 0x1_0000_0000_0000_0000_0000_0000 * 70_000)
                        by (nonlinear_arith)
                        requires
                            0 <= b <= 0x1_0000_0000_0000_0000_0000_0000,
                            0 <= tolerance <= 65_535,
                    ;
                }
                Some(b * (1000 + tolerance as u128) >= m * 1000)
            },
        },
    }
}

pub open spec fn max_opt(a: Option<int>, b: Option<int>) -> Option<int> {
    match (a, b) {
        (Some(x), Some(y)) => Some(
            if x < y {
                y
            } else {
                x
            },
        ),
        (Some(x), None) => Some(x),
        (None, b) => b,
    }
}

/// The highest value of all samples.
pub open spec fn best_of(s: Seq<Sample>) -> Option<int>
    decreases s.len(),
{
    if s.len() == 0 {
        None
    } else {
        max_opt(position::amount(s[0].1), best_of(s.drop_first()))
    }
}

/// The highest value from each place on; the last entry is for no sample at all.
pub fn precompute_suffix_max_bid(trajectory: &[Sample]) -> (r: Vec<Option<u128>>)
    ensures
        r@.len() == trajectory@.len() + 1,
        forall|i: int|
            0 <= i < r@.len() ==> position::amount(#[trigger] r@[i]) == best_of(trajectory@.skip(i)),
{
    let n: usize = trajectory.len();
    let mut back: Vec<Option<u128>> = Vec::new();
    back.push(None);
    proof {
        assert(trajectory@.skip(n as int) =~= Seq::empty());
    }
    let mut i: usize = n;
    while i > 0
        invariant
            i <= n,
            n == trajectory@.len(),
            back@.len() == n - i + 1,
            forall|k: int|
                0 <= k < back@.len() ==> position::amount(#[trigger] back@[k]) == best_of(
                    trajectory@.skip(n - k),
                ),
        decreases i,
    {
        let after = back[back.len() - 1];
        proof {
            let now = trajectory@.skip(i - 1);
            assert(now.drop_first() =~= trajectory@.skip(i as int));
            assert(now[0] == trajectory@[i - 1]);
            assert(position::amount(back@[n - i]) == best_of(trajectory@.skip(i as int)));
        }
        let best = match (trajectory[i - 1].1, after) {
            (Some(x), Some(y)) => Some(
                if x < y {
                    y
                } else {
                    x
                },
            ),
            (Some(x), None) => Some(x),
            (None, b) => b,
        };
        back.push(best);
        i -= 1;
    }
    let mut out: Vec<Option<u128>> = Vec::new();
    let mut j: usize = back.len();
    while j > 0
        invariant
            j <= back@.len(),
            back@.len() == n + 1,
            n == trajectory@.len(),
            out@.len() == back@.len() - j,
            forall|k: int|
                0 <= k < back@.len() ==> position::amount(#[trigger] back@[k]) == best_of(
                    trajectory@.skip(n - k),
                ),
            forall|k: int|
                0 <= k < out@.len() ==> position::amount(#[trigger] out@[k]) == best_of(
                    trajectory@.skip(k),
                ),
        decreases j,
    {
        proof {
            assert(position::amount(back@[j - 1]) == best_of(trajectory@.skip(n - (j - 1))));
        }
        out.push(back[j - 1]);
        j -= 1;
    }
    out
}

/// The highest value after `t`.
pub fn future_max_bid(trajectory: &[Sample], suffix_max: &[Option<u128>], t: i64) -> (r: Option<u128>)
    requires
        ordered(sample_times(trajectory@)),
        suffix_max@.len() == trajectory@.len() + 1,
        forall|i: int|
            0 <= i < suffix_max@.len() ==> position::amount(#[trigger] suffix_max@[i]) == best_of(
                trajectory@.skip(i),
            ),
    ensures
        position::amount(r) == best_of(future(trajectory@, t as int)),
{
    let n: usize = first_after(trajectory, t);
    proof {
        lemma_past(trajectory@, t as int, n as int);
    }
    suffix_max[n]
}

/// A sale that is right under a tolerance is right under a larger one.
pub proof fn law_a_larger_tolerance_sells_sooner(now: int, best_later: Option<int>, a: int, b: int)
    requires
        now >= 0,
        0 <= a <= b,
        should_have_sold(Some(now), best_later, a) == Some(true),
    ensures
        should_have_sold(Some(now), best_later, b) == Some(true),
{
    assert(now * (1000 + a) <= now * (1000 + b)) by (nonlinear_arith)
        requires
            now >= 0,
            a <= b,
    ;
}

// Features.

/// A value as a price per share.
pub open spec fn price(v: int, shares: u64) -> int {
    (v * 1_000_000) / (shares as int)
}

/// The price of a value, where there is one.
pub open spec fn opt_price(v: Option<int>, shares: u64) -> Option<int> {
    match v {
        Some(v) if shares > 0 => Some(price(v, shares)),
        _ => None,
    }
}

/// By how much the price rose per second between two values, where there are
/// both.
pub open spec fn price_change(
    now: Option<int>,
    before: Option<int>,
    shares: u64,
    seconds: int,
) -> Option<int> {
    match (now, before) {
        (Some(a), Some(b)) if shares > 0 => Some(((a - b) * 1_000_000) / (shares * seconds)),
        _ => None,
    }
}

/// How much of the holding time is over, in millionths of a percent.
pub open spec fn time_share(p: CollectedPosition, t: int) -> int {
    ((t - p.entry_recv_ms) * 100_000_000) / exits::hold_ms(p)
}

/// The present value as a share of the highest one.
pub open spec fn ratio(now: Option<int>, high: Option<int>) -> Option<int> {
    match (now, high) {
        (Some(a), Some(h)) if h > 0 => Some((a * 100_000_000) / h),
        _ => None,
    }
}

/// The time since the highest value was last had.
pub open spec fn since_top(s: Seq<Sample>, t: int) -> Option<int> {
    match top(s) {
        Some(v) => match last_at(s, v) {
            Some(ms) => Some(t - ms),
            None => Some(0),
        },
        None => None,
    }
}

/// By how much the price rose per second over the last `k` seconds.
pub open spec fn velocity(s: Seq<Sample>, t: int, k: int, shares: u64) -> Option<int> {
    if t - k * 1000 < 0 {
        None
    } else {
        price_change(
            position::amount(last_known(s)),
            position::amount(last_known_by(s, t - k * 1000)),
            shares,
            k,
        )
    }
}

/// The spread, in price keys.
pub open spec fn spread(s: Seq<Bbo>) -> Option<int> {
    match last_full(s) {
        Some((b, a)) => Some(a - b),
        None => None,
    }
}

/// How much less the whole lot brings per share than the best bid.
pub open spec fn depth_tax(now: Option<int>, s: Seq<Bbo>, shares: u64) -> Option<int> {
    match (opt_price(now, shares), last_bid(s)) {
        (Some(p), Some(b)) => Some(p - b * 1_000_000),
        _ => None,
    }
}

/// The largest close of which a return is taken, in units of 1e-15.
pub const LARGEST_CLOSE: u128 = 0x8_0000_0000_0000_0000_0000;

/// A close in units of 1e-15: a positive one is at least one of them, and none is
/// larger than `LARGEST_CLOSE` either way.
pub open spec fn close_units(d: DecV) -> int {
    if d.m < 0 {
        -bounded_units(decimal::dec(-d.m, d.s))
    } else {
        bounded_units(d)
    }
}

pub open spec fn bounded_units(d: DecV) -> int {
    let n = numeral::some_units(d, numeral::FINEST as int);
    if n > LARGEST_CLOSE {
        LARGEST_CLOSE as int
    } else {
        n
    }
}

/// A return; none where a close is no finite number, or the base is not positive.
pub open spec fn ret(now: Option<Num>, base: Option<Num>) -> Option<int> {
    match (now, base) {
        (Some(Num::Finite(c)), Some(Num::Finite(b))) if b@.m > 0 => Some(
            ((close_units(c@) - close_units(b@)) * 1_000_000_000_000) / close_units(b@),
        ),
        _ => None,
    }
}

/// The first value at `target` or after.
pub open spec fn first_from(s: Seq<Sample>, target: int) -> Option<u128>
    decreases s.len(),
{
    if s.len() == 0 {
        None
    } else {
        match s[0].1 {
            Some(v) if s[0].0 >= target => Some(v),
            _ => first_from(s.drop_first(), target),
        }
    }
}

/// What is known of a lot at a moment, what was to come, and what there was to
/// do. A feature is `None` where it is not known.
#[derive(Debug, Clone, Copy, PartialEq, Eq, Structural)]
pub struct Features {
    pub t_recv_ms: i64,
    /// Whether it was right to sell.
    pub label: bool,
    pub f1_t_since_entry_pct: Option<i128>,
    pub f2_t_to_exit_ms: Option<i128>,
    pub f3_bid_t: Option<i128>,
    pub f4_bid_max_so_far: Option<i128>,
    pub f5_bid_ratio: Option<i128>,
    pub f6_time_since_bid_max_ms: Option<i128>,
    pub f7_bid_velocity_5s: Option<i128>,
    pub f8_bid_velocity_15s: Option<i128>,
    pub f9_spread_t: Option<i128>,
    pub f10_executable_minus_best_bid: Option<i128>,
    pub f11_binance_return_since_entry: Option<i128>,
    pub f12_binance_return_5s: Option<i128>,
    pub sanity_label_as_feat: Option<i128>,
    pub sanity_random_seeded: Option<i128>,
    pub canary_max_future_advantage: Option<i128>,
    pub canary_advantage_at_t_plus_30s: Option<i128>,
}

pub open spec fn wide(v: Option<int>) -> Option<i128> {
    match v {
        Some(v) => Some(v as i128),
        None => None,
    }
}

/// The features of a lot at a moment; none where the lot cannot be sold at it.
#[verifier::opaque]
pub open spec fn features_at(
    p: CollectedPosition,
    closes: Seq<Close>,
    close_at_entry: Option<Num>,
    t: i64,
    random: u64,
) -> Option<Features> {
    let s = past(p.trajectory@, t as int);
    let bbo = past_bbo(p.trajectory_bbo@, t as int);
    let c = past_closes(closes, t as int);
    let now = position::amount(last_known(s));
    let best_later = best_of(future(p.trajectory@, t as int));
    match should_have_sold(now, best_later, 15) {
        None => None,
        Some(label) => Some(
            Features {
                t_recv_ms: t,
                label,
                f1_t_since_entry_pct: wide(Some(time_share(p, t as int))),
                f2_t_to_exit_ms: wide(Some(p.exit_ts_ms - t)),
                f3_bid_t: wide(opt_price(now, p.shares)),
                f4_bid_max_so_far: wide(opt_price(top(s), p.shares)),
                f5_bid_ratio: wide(ratio(now, top(s))),
                f6_time_since_bid_max_ms: wide(since_top(s, t as int)),
                f7_bid_velocity_5s: wide(velocity(s, t as int, 5, p.shares)),
                f8_bid_velocity_15s: wide(velocity(s, t as int, 15, p.shares)),
                f9_spread_t: wide(spread(bbo)),
                f10_executable_minus_best_bid: wide(depth_tax(now, bbo, p.shares)),
                f11_binance_return_since_entry: wide(ret(final_close(c), close_at_entry)),
                f12_binance_return_5s: wide(ret(final_close(c), close_by(c, t - 5000))),
                sanity_label_as_feat: wide(
                    Some(
                        if label {
                            1int
                        } else {
                            0int
                        },
                    ),
                ),
                sanity_random_seeded: wide(Some(random as int)),
                canary_max_future_advantage: wide(
                    price_change(best_later, now, p.shares, 1),
                ),
                canary_advantage_at_t_plus_30s: wide(
                    price_change(
                        position::amount(first_from(p.trajectory@, t + 30_000)),
                        now,
                        p.shares,
                        1,
                    ),
                ),
            },
        ),
    }
}

/// Every value of a lot is one that a sale of it can bring.
spec fn values_fit(s: Seq<Sample>, limit: int) -> bool {
    forall|i: int| 0 <= i < s.len() ==> ((#[trigger] s[i]).1 matches Some(v) ==> v <= limit)
}

proof fn lemma_values(s: Seq<Sample>, limit: int, target: int)
    requires
        values_fit(s, limit),
    ensures
        last_known(s) matches Some(v) ==> v <= limit,
        last_known_by(s, target) matches Some(v) ==> v <= limit,
        top(s) matches Some(v) ==> 0 <= v <= limit,
    decreases s.len(),
{
    if s.len() > 0 {
        let before = s.drop_last();
        assert forall|i: int| 0 <= i < before.len() implies ((#[trigger] before[i]).1 matches Some(v)
            ==> v <= limit) by {
            assert(before[i] == s[i]);
        }
        lemma_values(before, limit, target);
        assert(s[s.len() - 1].1 matches Some(v) ==> v <= limit);
    }
}

proof fn lemma_values_front(s: Seq<Sample>, limit: int, target: int)
    requires
        values_fit(s, limit),
    ensures
        best_of(s) matches Some(v) ==> 0 <= v <= limit,
        first_from(s, target) matches Some(v) ==> v <= limit,
    decreases s.len(),
{
    if s.len() > 0 {
        let rest = s.drop_first();
        assert forall|i: int| 0 <= i < rest.len() implies ((#[trigger] rest[i]).1 matches Some(v)
            ==> v <= limit) by {
            assert(rest[i] == s[i + 1]);
        }
        lemma_values_front(rest, limit, target);
        assert(s[0].1 matches Some(v) ==> v <= limit);
    }
}

/// Division towards the lower number.
fn floor_div(a: i128, b: i128) -> (r: i128)
    requires
        0 < b <= 0x1_0000_0000_0000_0000_0000_0000_0000,
        -0x1000_0000_0000_0000_0000_0000_0000_0000 <= a <= 0x1000_0000_0000_0000_0000_0000_0000_0000,
    ensures
        r == a as int / b as int,
{
    if a >= 0 {
        a / b
    } else {
        let up: i128 = (-a) + (b - 1);
        let q: i128 = up / b;
        proof {
            vstd::arithmetic::div_mod::lemma_fundamental_div_mod(up as int, b as int);
            vstd::arithmetic::div_mod::lemma_fundamental_div_mod(a as int, b as int);
            let ru = up as int % b as int;
            let ra = a as int % b as int;
            let qa = a as int / b as int;
            assert(qa == -q) by (nonlinear_arith)
                requires
                    up == b * q + ru,
                    a == b * qa + ra,
                    0 <= ru < b,
                    0 <= ra < b,
                    up == -a + (b - 1),
                    b >= 1,
            {
                assert(b * (q + qa) == (b - 1) - ru - ra);
                assert(-b < b * (q + qa) < b);
                assert(q + qa < 1 && q + qa > -1);
            }
            assert(0 <= up as int / b as int <= up) by (nonlinear_arith)
                requires
                    up >= 0,
                    b >= 1,
            ;
        }
        -q
    }
}

fn to_price(v: Option<u128>, shares: u64) -> (r: Option<i128>)
    requires
        v matches Some(v) ==> v <= 0x1_0000_0000_0000_0000_0000_0000,
    ensures
        r == wide(opt_price(position::amount(v), shares)),
{
    match v {
        Some(v) => {
            if shares > 0 {
                Some(floor_div(v as i128 * 1_000_000, shares as i128))
            } else {
                None
            }
        },
        None => None,
    }
}

fn to_price_change(now: Option<u128>, before: Option<u128>, shares: u64, seconds: i64) -> (r: Option<
    i128,
>)
    requires
        1 <= seconds <= 1000,
        now matches Some(v) ==> v <= 0x1_0000_0000_0000_0000_0000_0000,
        before matches Some(v) ==> v <= 0x1_0000_0000_0000_0000_0000_0000,
    ensures
        r == wide(
            price_change(position::amount(now), position::amount(before), shares, seconds as int),
        ),
{
    match (now, before) {
        (Some(a), Some(b)) => {
            if shares > 0 {
                proof {
                    assert(1 <= shares * seconds <= u64::MAX * 1000) by (nonlinear_arith)
                        requires
                            1 <= shares <= u64::MAX,
                            1 <= seconds <= 1000,
                    ;
                }
                Some(
                    floor_div(
                        (a as i128 - b as i128) * 1_000_000,
                        shares as i128 * seconds as i128,
                    ),
                )
            } else {
                None
            }
        },
        _ => None,
    }
}

fn to_ratio(now: Option<u128>, high: Option<u128>) -> (r: Option<i128>)
    requires
        now matches Some(v) ==> v <= 0x1_0000_0000_0000_0000_0000_0000,
        high matches Some(v) ==> v <= 0x1_0000_0000_0000_0000_0000_0000,
    ensures
        r == wide(ratio(position::amount(now), position::amount(high))),
{
    match (now, high) {
        (Some(a), Some(h)) => {
            if h > 0 {
                Some(floor_div(a as i128 * 100_000_000, h as i128))
            } else {
                None
            }
        },
        _ => None,
    }
}

/// A close in units of 1e-15.
fn units_of_close(d: Dec) -> (r: i128)
    ensures
        r == close_units(d@),
        -LARGEST_CLOSE <= r <= LARGEST_CLOSE,
        d@.m > 0 ==> r > 0,
{
    let m: i128 = d.mantissa();
    proof {
        numeral::law_only_positive_numbers_have_units(d@, numeral::FINEST as int);
        numeral::law_only_positive_numbers_have_units(
            decimal::dec(-d@.m, d@.s),
            numeral::FINEST as int,
        );
    }
    if m < 0 {
        match Dec::from_parts(-m, d.scale()) {
            Some(size) => -(to_fine_units(size, LARGEST_CLOSE) as i128),
            None => 0,
        }
    } else {
        to_fine_units(d, LARGEST_CLOSE) as i128
    }
}

fn to_return(now: Option<Num>, base: Option<Num>) -> (r: Option<i128>)
    ensures
        r == wide(ret(now, base)),
{
    match (now, base) {
        (Some(Num::Finite(c)), Some(Num::Finite(b))) => {
            if b.is_positive() {
                let (now, base) = (units_of_close(c), units_of_close(b));
                Some(floor_div((now - base) * 1_000_000_000_000, base))
            } else {
                None
            }
        },
        _ => None,
    }
}

fn first_bid_from(s: &[Sample], target: i128) -> (r: Option<u128>)
    ensures
        r == first_from(s@, target as int),
{
    let mut i: usize = 0;
    proof {
        assert(s@.skip(0) =~= s@);
    }
    while i < s.len()
        invariant
            i <= s@.len(),
            first_from(s@, target as int) == first_from(s@.skip(i as int), target as int),
        decreases s@.len() - i,
    {
        let (ms, bid) = s[i];
        proof {
            let now = s@.skip(i as int);
            assert(now[0] == s@[i as int]);
            assert(now.drop_first() =~= s@.skip(i + 1));
        }
        match bid {
            Some(v) => {
                if ms as i128 >= target {
                    return Some(v);
                }
            },
            None => {},
        }
        i += 1;
    }
    proof {
        assert(s@.skip(i as int) =~= Seq::empty());
    }
    None
}

fn bid_velocity(s: &CausalSlice<'_>, k: i64, shares: u64, Ghost(limit): Ghost<int>) -> (r: Option<i128>)
    requires
        1 <= k <= 1000,
        values_fit(s.samples(), limit),
        limit <= 0x1_0000_0000_0000_0000_0000_0000,
    ensures
        r == wide(velocity(s.samples(), s.moment() as int, k as int, shares)),
{
    let target: i128 = s.t() as i128 - k as i128 * 1000;
    if target < 0 {
        return None;
    }
    proof {
        lemma_values(s.samples(), limit, target as int);
    }
    to_price_change(s.last_finite_bid(), s.last_bid_by(target), shares, k)
}

fn time_since_top(s: &CausalSlice<'_>) -> (r: Option<i128>)
    ensures
        r == wide(since_top(s.samples(), s.moment() as int)),
{
    match s.max_bid() {
        Some(v) => match s.last_time_of(v) {
            Some(ms) => Some(s.t() as i128 - ms as i128),
            None => Some(0),
        },
        None => None,
    }
}

/// The times of a lot's samples are in order.
pub open spec fn lot_ordered(p: CollectedPosition) -> bool {
    ordered(sample_times(p.trajectory@)) && ordered(bbo_times(p.trajectory_bbo@))
}

/// The features of a lot at a moment.
pub fn build_features_at(
    p: &CollectedPosition,
    suffix_max: &[Option<u128>],
    closes: &[Close],
    close_at_entry: Option<Num>,
    t: i64,
    random: u64,
) -> (r: Option<Features>)
    requires
        p.wf(),
        lot_ordered(*p),
        ordered(close_times(closes@)),
        suffix_max@.len() == p.trajectory@.len() + 1,
        forall|i: int|
            0 <= i < suffix_max@.len() ==> position::amount(#[trigger] suffix_max@[i]) == best_of(
                p.trajectory@.skip(i),
            ),
    ensures
        r == features_at(*p, closes@, close_at_entry, t, random),
{
    reveal(features_at);
    let ghost limit = p.shares * u32::MAX;
    let ghost s = past(p.trajectory@, t as int);
    let ghost f = future(p.trajectory@, t as int);
    proof {
        assert(0 <= p.shares * u32::MAX <= u64::MAX * u32::MAX) by (nonlinear_arith)
            requires
                0 <= p.shares <= u64::MAX,
        ;
        assert forall|i: int| 0 <= i < p.trajectory@.len() implies ((
        #[trigger] p.trajectory@[i]).1 matches Some(v) ==> v <= limit) by {
            assert(position::possible(*p, p.trajectory@[i].1));
        }
        lemma_past_is_prefix(p.trajectory@, t as int);
        assert(values_fit(s, limit));
        assert forall|i: int| 0 <= i < f.len() implies ((#[trigger] f[i]).1 matches Some(v) ==> v
            <= limit) by {
            assert(f[i] == p.trajectory@[i + s.len()]);
        }
        lemma_values(s, limit, 0);
        lemma_values_front(f, limit, 0);
        lemma_values_front(p.trajectory@, limit, t + 30_000);
    }
    let pm = CausalSlice::new(p.trajectory.as_slice(), t);
    let now = pm.last_finite_bid();
    let later = future_max_bid(p.trajectory.as_slice(), suffix_max, t);
    let label = match label_should_have_sold(now, later, LABEL_TOLERANCE) {
        None => {
            return None;
        },
        Some(label) => label,
    };
    let bbo = CausalSliceBbo::new(p.trajectory_bbo.as_slice(), t);
    let bin = BinanceCausal::new(closes, t);
    let high = pm.max_bid();
    let held: i128 = p.exit_ts_ms as i128 - p.entry_recv_ms as i128;
    let hold: i128 = if held < 1 {
        1
    } else {
        held
    };
    let f3 = to_price(now, p.shares);
    let spread_t: Option<i128> = match bbo.last_full_bbo() {
        Some((b, a)) => Some(a as i128 - b as i128),
        None => None,
    };
    let tax: Option<i128> = match (f3, bbo.last_best_bid()) {
        (Some(x), Some(b)) => {
            proof {
                let v = now->0;
                assert(0 <= price(v as int, p.shares) <= v * 1_000_000) by (nonlinear_arith)
                    requires
                        v >= 0,
                        p.shares > 0,
                        price(v as int, p.shares) == (v * 1_000_000) / (p.shares as int),
                ;
            }
            Some(x - b as i128 * 1_000_000)
        },
        _ => None,
    };
    let last = bin.last_close();
    Some(
        Features {
            t_recv_ms: t,
            label,
            f1_t_since_entry_pct: Some(
                floor_div((t as i128 - p.entry_recv_ms as i128) * 100_000_000, hold),
            ),
            f2_t_to_exit_ms: Some(p.exit_ts_ms as i128 - t as i128),
            f3_bid_t: f3,
            f4_bid_max_so_far: to_price(high, p.shares),
            f5_bid_ratio: to_ratio(now, high),
            f6_time_since_bid_max_ms: time_since_top(&pm),
            f7_bid_velocity_5s: bid_velocity(&pm, 5, p.shares, Ghost(limit)),
            f8_bid_velocity_15s: bid_velocity(&pm, 15, p.shares, Ghost(limit)),
            f9_spread_t: spread_t,
            f10_executable_minus_best_bid: tax,
            f11_binance_return_since_entry: to_return(last, close_at_entry),
            f12_binance_return_5s: to_return(last, bin.close_at_or_before(t as i128 - 5000)),
            sanity_label_as_feat: Some(
                if label {
                    1
                } else {
                    0
                },
            ),
            sanity_random_seeded: Some(random as i128),
            canary_max_future_advantage: to_price_change(later, now, p.shares, 1),
            canary_advantage_at_t_plus_30s: to_price_change(
                first_bid_from(p.trajectory.as_slice(), t as i128 + 30_000),
                now,
                p.shares,
                1,
            ),
        },
    )
}

proof fn lemma_past_is_prefix(s: Seq<Sample>, t: int)
    ensures
        past(s, t).len() <= s.len(),
        forall|i: int| 0 <= i < past(s, t).len() ==> #[trigger] past(s, t)[i] == s[i],
    decreases s.len(),
{
    if s.len() > 0 && s[0].0 <= t {
        lemma_past_is_prefix(s.drop_first(), t);
        assert forall|i: int| 0 <= i < past(s, t).len() implies #[trigger] past(s, t)[i] == s[i] by {
            if i > 0 {
                assert(past(s, t)[i] == past(s.drop_first(), t)[i - 1]);
            }
        }
    }
}

/// The label takes a value that is the best one to come as a sale; so a lot
/// whose price never rises again was right to sell.
pub proof fn law_no_better_price_is_a_sale(now: int, best_later: int, tolerance: int)
    requires
        now >= best_later >= 0,
        tolerance >= 0,
    ensures
        should_have_sold(Some(now), Some(best_later), tolerance) == Some(true),
{
    assert(now * (1000 + tolerance) >= best_later * 1000) by (nonlinear_arith)
        requires
            now >= best_later >= 0,
            tolerance >= 0,
    ;
}

/// The label is a bound on how much better the best value to come is: at most
/// the tolerance's share of the present value.
pub proof fn law_the_label_bounds_the_advantage(now: int, best_later: int, tolerance: int)
    ensures
        should_have_sold(Some(now), Some(best_later), tolerance) == Some(
            (best_later - now) * 1000 <= now * tolerance,
        ),
{
    assert(now * (1000 + tolerance) == now * 1000 + now * tolerance) by (nonlinear_arith);
}

/// A sequence of numbers that is the same for the same seed.
pub struct SeededRng {
    state: u64,
}

/// The state after the next number.
pub open spec fn next_state(s: u64) -> u64 {
    ((s * 6364136223846793005 + 1442695040888963407) % 0x1_0000_0000_0000_0000) as u64
}

impl SeededRng {
    pub closed spec fn state(self) -> u64 {
        self.state
    }

    pub fn new(seed: u64) -> (r: Self)
        ensures
            r.state() == seed,
    {
        SeededRng { state: seed }
    }

    /// The next number, of 53 bits.
    pub fn next_bits(&mut self) -> (r: u64)
        ensures
            final(self).state() == next_state(old(self).state()),
            r == next_state(old(self).state()) / 2048,
            r < 0x20_0000_0000_0000,
    {
        let a: u64 = self.state.wrapping_mul(6364136223846793005);
        let b: u64 = a.wrapping_add(1442695040888963407);
        proof {
            let m = 0x1_0000_0000_0000_0000int;
            let x = self.state * 6364136223846793005;
            vstd::arithmetic::div_mod::lemma_add_mod_noop(x, 1442695040888963407, m);
            assert(1442695040888963407int % m == 1442695040888963407);
            assert(a == x % m);
            assert(b == (a + 1442695040888963407) % m);
        }
        self.state = b;
        b / 2048
    }
}

/// The rows of a lot from `t` on, one every `step` milliseconds, with a number
/// of the sequence for each.
pub open spec fn rows_from(
    p: CollectedPosition,
    closes: Seq<Close>,
    close_at_entry: Option<Num>,
    t: int,
    step: int,
    state: u64,
) -> Seq<Features>
    decreases
            (if t > p.exit_ts_ms {
                0
            } else {
                p.exit_ts_ms - t + 1
            }),
{
    if step <= 0 || t > p.exit_ts_ms {
        Seq::empty()
    } else {
        let next = next_state(state);
        let rest = rows_from(p, closes, close_at_entry, t + step, step, next);
        match features_at(p, closes, close_at_entry, t as i64, next / 2048) {
            Some(f) => seq![f] + rest,
            None => rest,
        }
    }
}

/// The state after a number was drawn for every `step` milliseconds from `t` to
/// `end`.
pub open spec fn state_after(t: int, end: int, step: int, state: u64) -> u64
    decreases
            (if t > end {
                0
            } else {
                end - t + 1
            }),
{
    if step <= 0 || t > end {
        state
    } else {
        state_after(t + step, end, step, next_state(state))
    }
}

/// A row of the data set.
#[derive(Debug, Clone)]
pub struct FeatureSample {
    pub signal_id: String,
    pub cell: String,
    pub date: String,
    /// The price key that was paid.
    pub entry_price: u32,
    pub features: Features,
}

/// What the rows hold at their moments.
pub open spec fn features_of(rows: Seq<FeatureSample>) -> Seq<Features> {
    rows.map_values(|r: FeatureSample| r.features)
}

/// A row belongs to a lot and a date.
pub open spec fn row_of(r: FeatureSample, p: CollectedPosition, date: Seq<char>) -> bool {
    &&& r.signal_id@ == p.signal_id@
    &&& r.cell@ == b3_maker::cell_name(p.asset@, p.interval@)
    &&& r.date@ == date
    &&& r.entry_price == p.entry_price
}

/// The rows of a lot, from its entry to its exit.
pub fn build_features_for_position(
    pos: &CollectedPosition,
    binance_closes: &[Close],
    close_at_entry: Option<Num>,
    rng: &mut SeededRng,
    date: &str,
    sample_interval_ms: i64,
) -> (r: Vec<FeatureSample>)
    requires
        pos.wf(),
        lot_ordered(*pos),
        ordered(close_times(binance_closes@)),
        sample_interval_ms > 0,
    ensures
        features_of(r@) == rows_from(
            *pos,
            binance_closes@,
            close_at_entry,
            pos.entry_recv_ms as int,
            sample_interval_ms as int,
            old(rng).state(),
        ),
        forall|i: int| 0 <= i < r@.len() ==> row_of(#[trigger] r@[i], *pos, date@),
        final(rng).state() == state_after(
            pos.entry_recv_ms as int,
            pos.exit_ts_ms as int,
            sample_interval_ms as int,
            old(rng).state(),
        ),
{
    let suffix_max = precompute_suffix_max_bid(pos.trajectory.as_slice());
    let mut out: Vec<FeatureSample> = Vec::new();
    let mut t: i128 = pos.entry_recv_ms as i128;
    let step: i128 = sample_interval_ms as i128;
    let end: i128 = pos.exit_ts_ms as i128;
    let ghost all = rows_from(
        *pos,
        binance_closes@,
        close_at_entry,
        t as int,
        step as int,
        rng.state(),
    );
    let ghost last = state_after(t as int, end as int, step as int, rng.state());
    assert(features_of(out@) + all =~= all);
    while t <= end
        invariant
            pos.wf(),
            lot_ordered(*pos),
            ordered(close_times(binance_closes@)),
            step > 0,
            step <= i64::MAX,
            end == pos.exit_ts_ms,
            i64::MIN <= t <= i64::MAX + step,
            suffix_max@.len() == pos.trajectory@.len() + 1,
            forall|i: int|
                0 <= i < suffix_max@.len() ==> position::amount(#[trigger] suffix_max@[i])
                    == best_of(pos.trajectory@.skip(i)),
            features_of(out@) + rows_from(
                *pos,
                binance_closes@,
                close_at_entry,
                t as int,
                step as int,
                rng.state(),
            ) == all,
            state_after(t as int, end as int, step as int, rng.state()) == last,
            forall|i: int| 0 <= i < out@.len() ==> row_of(#[trigger] out@[i], *pos, date@),
        decreases end + step - t,
    {
        let ghost before = rng.state();
        let ghost rest = rows_from(
            *pos,
            binance_closes@,
            close_at_entry,
            t + step,
            step as int,
            next_state(before),
        );
        let random: u64 = rng.next_bits();
        let found = build_features_at(
            pos,
            suffix_max.as_slice(),
            binance_closes,
            close_at_entry,
            t as i64,
            random,
        );
        match found {
            Some(features) => {
                let ghost had = out@;
                let row = FeatureSample {
                    signal_id: pos.signal_id.clone(),
                    cell: cell_label(&pos.asset, &pos.interval),
                    date: owned(date),
                    entry_price: pos.entry_price,
                    features,
                };
                out.push(row);
                proof {
                    assert(features_of(out@) =~= features_of(had).push(features));
                    assert(features_of(had) + (seq![features] + rest) =~= features_of(out@)
                        + rest);
                }
            },
            None => {},
        }
        t = t + step;
    }
    assert(features_of(out@) + Seq::<Features>::empty() =~= features_of(out@));
    out
}

/// Features tell nothing of what comes later: two lots that were the same until
/// a moment have the same features at it, whatever they do from then on.
pub proof fn law_features_use_no_future(
    a: CollectedPosition,
    b: CollectedPosition,
    closes_a: Seq<Close>,
    closes_b: Seq<Close>,
    close_at_entry: Option<Num>,
    t: i64,
    random: u64,
)
    requires
        a.entry_recv_ms == b.entry_recv_ms,
        a.exit_ts_ms == b.exit_ts_ms,
        a.shares == b.shares,
        past(a.trajectory@, t as int) == past(b.trajectory@, t as int),
        past_bbo(a.trajectory_bbo@, t as int) == past_bbo(b.trajectory_bbo@, t as int),
        past_closes(closes_a, t as int) == past_closes(closes_b, t as int),
    ensures
        match (
            features_at(a, closes_a, close_at_entry, t, random),
            features_at(b, closes_b, close_at_entry, t, random),
        ) {
            (Some(x), Some(y)) => known_part(x) == known_part(y),
            (None, None) => true,
            _ => false,
        },
{
    reveal(features_at);
}

/// What features say without the label and the columns that look ahead.
pub open spec fn known_part(f: Features) -> Features {
    Features {
        label: true,
        sanity_label_as_feat: None,
        canary_max_future_advantage: None,
        canary_advantage_at_t_plus_30s: None,
        ..f
    }
}

} // verus!
