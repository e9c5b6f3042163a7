//! The order book of one token, with all its levels, and what a sale into it
//! really brings.
//!
//! Prices are keys in ten-thousandths of a dollar; sizes are kept as they are
//! written. A walk down the levels counts in units of 1e-15 shares, so that the
//! price of a key times a number of units is a whole number of units of 1e-19
//! dollars; what a sale brings is given in whole units of 1e-10 dollars.

use crate::config::{self, Num, NumV};
use crate::decimal::{self, Dec};
use crate::numeral::{self, to_fine_units, to_units};
use crate::text::same_text;
use std::collections::BTreeMap;
use vstd::prelude::*;
use vstd::std_specs::cmp::OrdSpec;
use vstd::std_specs::iter::IteratorSpec;
use vstd::std_specs::btree::*;

verus! {

/// The side of a level.
#[derive(Debug, Clone, Copy, PartialEq, Eq, Structural)]
pub enum BookSide {
    /// `BUY`
    Bid,
    /// `SELL`
    Ask,
}

/// The side that a word of the venue names.
pub open spec fn side_of(s: Seq<char>) -> Option<BookSide> {
    if s == "BUY"@ {
        Some(BookSide::Bid)
    } else if s == "SELL"@ {
        Some(BookSide::Ask)
    } else {
        None
    }
}

impl BookSide {
    pub fn from_str(s: &str) -> (r: Option<Self>)
        ensures
            r == side_of(s@),
    {
        if same_text(s, "BUY") {
            Some(BookSide::Bid)
        } else if same_text(s, "SELL") {
            Some(BookSide::Ask)
        } else {
            None
        }
    }
}

/// `price` in ten-thousandths; what does not fit becomes the nearest key.
pub open spec fn key_of(price: decimal::DecV) -> int {
    let n = numeral::units(price, 10_000);
    if n > u32::MAX {
        u32::MAX as int
    } else {
        n
    }
}

/// The key of a price that may be no finite number: the highest and the lowest key
/// for the infinities, and the lowest for what is not a number.
pub open spec fn key_of_number(price: NumV) -> int {
    match price {
        NumV::Finite(d) => key_of(d),
        NumV::Infinite { negative } => if negative {
            0
        } else {
            u32::MAX as int
        },
        NumV::NotANumber => 0,
    }
}

/// The key of a price.
pub fn price_to_key(price: Dec) -> (r: u32)
    ensures
        r == key_of(price@),
{
    let n: u128 = to_units(price, 10_000);
    if n > u32::MAX as u128 {
        u32::MAX
    } else {
        n as u32
    }
}

/// The key of a price that may be no finite number.
pub fn number_to_key(price: Num) -> (r: u32)
    ensures
        r == key_of_number(price@),
{
    match price {
        Num::Finite(d) => price_to_key(d),
        Num::Infinite { negative } => if negative {
            0
        } else {
            u32::MAX
        },
        Num::NotANumber => 0,
    }
}

/// The most that a level takes, in units of 1e-15 shares. No lot is larger.
pub const MOST: u128 = 0x4000_0000_0000_0000_0000_0000;

/// Units of 1e-15 shares in a millionth of a share, and of 1e-19 dollars in a unit
/// of 1e-10 dollars.
pub const FINE: u128 = 1_000_000_000;

/// What a level of a size takes, in units of 1e-15 shares: a positive size at least
/// one of them, and no size more than `MOST`. What is not a number sets no limit.
pub open spec fn room(size: Num) -> int {
    match size {
        Num::Finite(d) => {
            let n = numeral::some_units(d@, numeral::FINEST as int);
            if n > MOST {
                MOST as int
            } else {
                n
            }
        },
        Num::Infinite { negative } => if negative {
            0
        } else {
            MOST as int
        },
        Num::NotANumber => MOST as int,
    }
}

/// What a level of a size takes.
pub fn room_of(size: Num) -> (r: u128)
    ensures
        r == room(size),
        r <= MOST,
{
    match size {
        Num::Finite(d) => to_fine_units(d, MOST),
        Num::Infinite { negative } => if negative {
            0
        } else {
            MOST
        },
        Num::NotANumber => MOST,
    }
}

/// The price of a key.
pub fn key_to_price(key: u32) -> (r: Dec)
    ensures
        r@ == (decimal::DecV { m: key as int, s: 4 }),
{
    Dec::new(key as i64, 4)
}

/// A price of a key gives the key back.
pub proof fn law_price_of_key_gives_key(key: u32)
    ensures
        key_of(decimal::DecV { m: key as int, s: 4 }) == key,
{
    reveal_with_fuel(decimal::pow10, 6);
    assert(decimal::pow10(4) == 10_000);
    assert((2 * key * 10_000 + 10_000) / 20_000 == key) by (nonlinear_arith)
        requires
            key >= 0,
    ;
}

/// Keys order as prices do.
pub proof fn law_keys_keep_the_order(a: decimal::DecV, b: decimal::DecV)
    requires
        decimal::le(a, b),
    ensures
        key_of(a) <= key_of(b),
{
    numeral::law_units_keep_the_order(a, b, 10_000);
}

/// The levels of a snapshot as a map: a level whose size is not positive is left
/// out, of two levels with one key the later one counts.
pub open spec fn levels_map(levels: Seq<(u32, Num)>) -> Map<u32, Num>
    decreases levels.len(),
{
    if levels.len() == 0 {
        Map::empty()
    } else {
        let before = levels_map(levels.drop_last());
        let (key, size) = levels.last();
        if size.above(decimal::zero()) {
            before.insert(key, size)
        } else {
            before
        }
    }
}

/// The levels with a changed one: a size of 0 or below takes the level away, any
/// other size replaces it.
pub open spec fn with_level(levels: Map<u32, Num>, key: u32, size: Num) -> Map<u32, Num> {
    if size.at_most(decimal::zero()) {
        levels.remove(key)
    } else {
        levels.insert(key, size)
    }
}

/// A list holds the levels of a map, the lowest key first.
pub open spec fn is_ladder(ladder: Seq<(u32, Num)>, levels: Map<u32, Num>) -> bool {
    &&& forall|i: int, j: int|
        0 <= i < j < ladder.len() ==> (#[trigger] ladder[i]).0 < (#[trigger] ladder[j]).0
    &&& forall|i: int|
        0 <= i < ladder.len() ==> levels.contains_key((#[trigger] ladder[i]).0)
            && levels[ladder[i].0] == ladder[i].1
    &&& forall|k: u32| #[trigger] levels.contains_key(k) ==> in_ladder(ladder, k)
}

pub open spec fn in_ladder(ladder: Seq<(u32, Num)>, k: u32) -> bool {
    exists|i: int| 0 <= i < ladder.len() && (#[trigger] ladder[i]).0 == k
}

/// The levels of a map, the lowest key first.
pub open spec fn ladder_of(levels: Map<u32, Num>) -> Seq<(u32, Num)> {
    choose|l: Seq<(u32, Num)>| is_ladder(l, levels)
}

proof fn lemma_ladder_unique(a: Seq<(u32, Num)>, b: Seq<(u32, Num)>, levels: Map<u32, Num>)
    requires
        is_ladder(a, levels),
        is_ladder(b, levels),
    ensures
        a == b,
    decreases a.len(),
{
    if a.len() == 0 {
        if b.len() > 0 {
            assert(levels.contains_key(b[0].0));
            assert(in_ladder(a, b[0].0));
        }
        assert(a =~= b);
    } else {
        assert(levels.contains_key(a.last().0));
        assert(in_ladder(b, a.last().0));
        let i = choose|i: int| 0 <= i < b.len() && (#[trigger] b[i]).0 == a.last().0;
        assert(levels.contains_key(b.last().0));
        assert(in_ladder(a, b.last().0));
        let j = choose|j: int| 0 <= j < a.len() && (#[trigger] a[j]).0 == b.last().0;
        assert(a.last().0 <= b.last().0);
        assert(b.last().0 <= a.last().0);
        let key = a.last().0;
        let rest = levels.remove(key);
        lemma_ladder_drop(a, levels);
        lemma_ladder_drop(b, levels);
        lemma_ladder_unique(a.drop_last(), b.drop_last(), rest);
        assert(a =~= a.drop_last().push(a.last()));
        assert(b =~= b.drop_last().push(b.last()));
    }
}

proof fn lemma_ladder_drop(a: Seq<(u32, Num)>, levels: Map<u32, Num>)
    requires
        is_ladder(a, levels),
        a.len() > 0,
    ensures
        is_ladder(a.drop_last(), levels.remove(a.last().0)),
{
    let l = a.drop_last();
    let rest = levels.remove(a.last().0);
    assert forall|i: int| 0 <= i < l.len() implies rest.contains_key((#[trigger] l[i]).0)
        && rest[l[i].0] == l[i].1 by {
        assert(l[i] == a[i]);
        assert(a[i].0 < a[a.len() - 1].0);
    }
    assert forall|k: u32| #[trigger] rest.contains_key(k) implies in_ladder(l, k) by {
        assert(levels.contains_key(k));
        assert(in_ladder(a, k));
        let i = choose|i: int| 0 <= i < a.len() && (#[trigger] a[i]).0 == k;
        assert(l[i] == a[i]);
    }
}

/// What is had of the levels, best bid first, for up to `shares` units of 1e-15
/// shares, in units of 1e-19 dollars.
pub open spec fn proceeds(ladder: Seq<(u32, Num)>, shares: int) -> int
    decreases ladder.len(),
{
    if ladder.len() == 0 || shares <= 0 {
        0
    } else {
        let (key, size) = ladder.last();
        let take = if shares < room(size) {
            shares
        } else {
            room(size)
        };
        take * key + proceeds(ladder.drop_last(), shares - take)
    }
}

/// All that the levels take.
pub open spec fn depth(ladder: Seq<(u32, Num)>) -> int
    decreases ladder.len(),
{
    if ladder.len() == 0 {
        0
    } else {
        room(ladder.last().1) + depth(ladder.drop_last())
    }
}

/// What a sale of `shares` millionths of a share brings, in whole units of 1e-10
/// dollars, if the levels take all of them.
pub open spec fn executable(ladder: Seq<(u32, Num)>, shares: u64) -> Option<int> {
    if shares > 0 && depth(ladder) >= shares * FINE {
        Some(proceeds(ladder, shares * FINE) / (FINE as int))
    } else {
        None
    }
}

pub proof fn lemma_room(size: Num)
    ensures
        0 <= room(size) <= MOST,
{
    if let Num::Finite(d) = size {
        numeral::law_only_positive_numbers_have_units(d@, numeral::FINEST as int);
    }
}

/// A level has room if and only if its size is positive or not a number.
pub proof fn law_levels_have_room(size: Num)
    ensures
        room(size) > 0 <==> !size.at_most(decimal::zero()),
{
    if let Num::Finite(d) = size {
        numeral::law_only_positive_numbers_have_units(d@, numeral::FINEST as int);
        decimal::lemma_compare_zero(d@);
        decimal::lemma_lt_le(decimal::zero(), d@);
    }
}

proof fn lemma_proceeds_bounds(ladder: Seq<(u32, Num)>, shares: int, best: u32)
    requires
        shares >= 0,
        forall|i: int| 0 <= i < ladder.len() ==> (#[trigger] ladder[i]).0 <= best,
    ensures
        0 <= proceeds(ladder, shares) <= shares * best,
    decreases ladder.len(),
{
    assert(shares * best >= 0) by (nonlinear_arith)
        requires
            shares >= 0,
    ;
    if ladder.len() > 0 && shares > 0 {
        let (key, size) = ladder.last();
        let take = if shares < room(size) {
            shares
        } else {
            room(size)
        };
        lemma_room(size);
        assert forall|i: int| 0 <= i < ladder.drop_last().len() implies (#[trigger] ladder.drop_last()[
        i]).0 <= best by {
            assert(ladder.drop_last()[i] == ladder[i]);
        }
        lemma_proceeds_bounds(ladder.drop_last(), shares - take, best);
        assert(ladder[ladder.len() - 1].0 <= best);
        assert(0 <= take * key <= take * best) by (nonlinear_arith)
            requires
                0 <= key <= best,
                take >= 0,
        ;
        assert(take * best + (shares - take) * best == shares * best) by (nonlinear_arith);
    }
}

/// No sale brings more than the best bid for every share of it.
pub proof fn law_never_better_than_the_best_bid(levels: Map<u32, Num>, shares: u64)
    requires
        is_ladder(ladder_of(levels), levels),
        executable(ladder_of(levels), shares) is Some,
    ensures
        ladder_of(levels).len() > 0,
        executable(ladder_of(levels), shares)->0 <= shares * ladder_of(levels).last().0,
{
    let l = ladder_of(levels);
    assert forall|i: int| 0 <= i < l.len() implies (#[trigger] l[i]).0 <= l.last().0 by {
        if i < l.len() - 1 {
            assert(l[i].0 < l[l.len() - 1].0);
        }
    }
    let (best, fine) = (l.last().0 as int, shares * FINE);
    lemma_proceeds_bounds(l, fine, l.last().0);
    assert(fine * best == (shares * best) * FINE) by (nonlinear_arith)
        requires
            fine == shares * FINE,
    ;
}

/// A sale that the best level takes alone is had at the best bid.
pub proof fn law_a_deep_best_level_pays_its_price(levels: Map<u32, Num>, shares: u64)
    requires
        is_ladder(ladder_of(levels), levels),
        ladder_of(levels).len() > 0,
        0 < shares * FINE <= room(ladder_of(levels).last().1),
    ensures
        executable(ladder_of(levels), shares) == Some(shares * ladder_of(levels).last().0),
{
    let l = ladder_of(levels);
    lemma_depth_nonneg(l.drop_last());
    assert(proceeds(l.drop_last(), 0) == 0);
    let best = l.last().0 as int;
    assert((shares * FINE) * best == (shares * best) * FINE) by (nonlinear_arith);
}

proof fn lemma_depth_nonneg(l: Seq<(u32, Num)>)
    ensures
        depth(l) >= 0,
    decreases l.len(),
{
    if l.len() > 0 {
        lemma_depth_nonneg(l.drop_last());
        lemma_room(l.last().1);
    }
}

/// A larger sale never brings less.
pub proof fn law_more_shares_bring_no_less(ladder: Seq<(u32, Num)>, a: int, b: int)
    requires
        a <= b,
    ensures
        proceeds(ladder, a) <= proceeds(ladder, b),
    decreases ladder.len(),
{
    if ladder.len() > 0 {
        let (key, size) = ladder.last();
        let take_a = if a < room(size) {
            a
        } else {
            room(size)
        };
        let take_b = if b < room(size) {
            b
        } else {
            room(size)
        };
        lemma_room(size);
        if a > 0 {
            law_more_shares_bring_no_less(ladder.drop_last(), a - take_a, b - take_b);
            assert(take_a * key <= take_b * key) by (nonlinear_arith)
                requires
                    take_a <= take_b,
                    key >= 0,
            ;
        } else if b > 0 {
            law_more_shares_bring_no_less(ladder.drop_last(), 0, b - take_b);
            assert(take_b * key >= 0) by (nonlinear_arith)
                requires
                    take_b >= 0,
                    key >= 0,
            ;
            assert(proceeds(ladder.drop_last(), 0) == 0);
        }
    }
}

/// The book of one token.
#[derive(Debug, Clone)]
pub struct FullBook {
    pub bids: BTreeMap<u32, Num>,
    pub asks: BTreeMap<u32, Num>,
    pub last_update_ms: i64,
}

/// The best bid of a book.
pub open spec fn is_best_bid(b: FullBook, key: Option<u32>) -> bool {
    match key {
        Some(k) => b.bids@.contains_key(k) && forall|j: u32| #[trigger]
            b.bids@.contains_key(j) ==> j <= k,
        None => b.bids@ == Map::<u32, Num>::empty(),
    }
}

/// The best ask of a book.
pub open spec fn is_best_ask(b: FullBook, key: Option<u32>) -> bool {
    match key {
        Some(k) => b.asks@.contains_key(k) && forall|j: u32| #[trigger]
            b.asks@.contains_key(j) ==> k <= j,
        None => b.asks@ == Map::<u32, Num>::empty(),
    }
}

impl FullBook {
    /// Every level has a size.
    pub open spec fn wf(self) -> bool {
        &&& forall|k: u32| #[trigger]
            self.bids@.contains_key(k) ==> !self.bids@[k].at_most(decimal::zero())
        &&& forall|k: u32| #[trigger]
            self.asks@.contains_key(k) ==> !self.asks@[k].at_most(decimal::zero())
    }

    /// Replaces all levels by those of a snapshot.
    pub fn apply_snapshot(&mut self, bids: &[(u32, Num)], asks: &[(u32, Num)], ts_ms: i64)
        ensures
            final(self).bids@ == levels_map(bids@),
            final(self).asks@ == levels_map(asks@),
            final(self).last_update_ms == ts_ms,
            final(self).wf(),
    {
        self.bids = map_of(bids);
        self.asks = map_of(asks);
        self.last_update_ms = ts_ms;
        proof {
            lemma_levels_have_size(bids@);
            lemma_levels_have_size(asks@);
        }
    }

    /// Sets one level to its new size, or takes it away.
    pub fn apply_price_change(&mut self, key: u32, size: Num, side: BookSide, ts_ms: i64)
        ensures
            final(self).bids@ == if side == BookSide::Bid {
                with_level(old(self).bids@, key, size)
            } else {
                old(self).bids@
            },
            final(self).asks@ == if side == BookSide::Ask {
                with_level(old(self).asks@, key, size)
            } else {
                old(self).asks@
            },
            final(self).last_update_ms == ts_ms,
            old(self).wf() ==> final(self).wf(),
    {
        broadcast use group_btree_axioms;

        match side {
            BookSide::Bid => {
                if size.is_at_most(Dec::zero()) {
                    self.bids.remove(&key);
                } else {
                    self.bids.insert(key, size);
                }
            },
            BookSide::Ask => {
                if size.is_at_most(Dec::zero()) {
                    self.asks.remove(&key);
                } else {
                    self.asks.insert(key, size);
                }
            },
        }
        self.last_update_ms = ts_ms;
    }

    /// The highest bid.
    pub fn best_bid(&self) -> (r: Option<u32>)
        ensures
            is_best_bid(*self, r),
    {
        let l = rungs(&self.bids);
        if l.len() == 0 {
            proof {
                lemma_no_rungs(l@, self.bids@);
            }
            None
        } else {
            let (k, _) = l[l.len() - 1];
            assert forall|j: u32| #[trigger] self.bids@.contains_key(j) implies j <= k by {
                assert(in_ladder(l@, j));
            }
            Some(k)
        }
    }

    /// The lowest ask.
    pub fn best_ask(&self) -> (r: Option<u32>)
        ensures
            is_best_ask(*self, r),
    {
        let l = rungs(&self.asks);
        if l.len() == 0 {
            proof {
                lemma_no_rungs(l@, self.asks@);
            }
            None
        } else {
            let (k, _) = l[0];
            assert forall|j: u32| #[trigger] self.asks@.contains_key(j) implies k <= j by {
                assert(in_ladder(l@, j));
            }
            Some(k)
        }
    }

    /// What a sale of `shares` into the bids brings, in units of 1e-10 dollars;
    /// `None` if the bids do not take all of them.
    pub fn executable_bid_for_shares(&self, shares: u64) -> (r: Option<u128>)
        ensures
            is_ladder(ladder_of(self.bids@), self.bids@),
            match r {
                Some(v) => executable(ladder_of(self.bids@), shares) == Some(v as int),
                None => executable(ladder_of(self.bids@), shares) is None,
            },
            r matches Some(v) ==> v <= shares * u32::MAX,
    {
        let l = rungs(&self.bids);
        if shares == 0 {
            return None;
        }
        let fine: u128 = shares as u128 * FINE;
        let mut remaining: u128 = fine;
        let mut total: u128 = 0;
        let mut i: usize = l.len();
        proof {
            assert(l@.take(i as int) =~= l@);
            assert((fine - remaining) * u32::MAX == 0) by (nonlinear_arith)
                requires
                    fine == remaining,
            ;
        }
        while i > 0 && remaining > 0
            invariant
                i <= l@.len(),
                remaining <= fine,
                fine <= u64::MAX * FINE,
                total + proceeds(l@.take(i as int), remaining as int) == proceeds(l@, fine as int),
                total <= (fine - remaining) * u32::MAX,
                depth(l@) >= fine <==> depth(l@.take(i as int)) >= remaining,
            decreases i,
        {
            i -= 1;
            let (key, size) = l[i];
            let all: u128 = room_of(size);
            let take: u128 = if remaining < all {
                remaining
            } else {
                all
            };
            let ghost now = l@.take(i + 1);
            proof {
                assert(now.drop_last() =~= l@.take(i as int));
                assert(now.last() == l@[i as int]);
                lemma_depth_nonneg(l@.take(i as int));
                assert(0 <= take * key <= take * u32::MAX) by (nonlinear_arith)
                    requires
                        0 <= key <= u32::MAX,
                        take >= 0,
                ;
                assert((fine - remaining) * u32::MAX + take * u32::MAX == (fine - (remaining
                    - take)) * u32::MAX) by (nonlinear_arith);
                assert((fine - (remaining - take)) * u32::MAX <= fine * u32::MAX)
                    by (nonlinear_arith)
                    requires
                        remaining >= take,
                ;
                assert(fine * u32::MAX <= (u64::MAX * FINE) * u32::MAX) by (nonlinear_arith)
                    requires
                        fine <= u64::MAX * FINE,
                ;
            }
            total = total + take * key as u128;
            remaining = remaining - take;
        }
        proof {
            if remaining > 0 {
                assert(l@.take(0) =~= Seq::empty());
            } else {
                lemma_depth_nonneg(l@.take(i as int));
                assert(proceeds(l@.take(i as int), 0) == 0);
            }
            assert((fine - remaining) * u32::MAX <= fine * u32::MAX) by (nonlinear_arith)
                requires
                    remaining >= 0,
            ;
            assert(fine * u32::MAX == (shares * u32::MAX) * FINE) by (nonlinear_arith)
                requires
                    fine == shares * FINE,
            ;
        }
        if remaining > 0 {
            None
        } else {
            Some(total / FINE)
        }
    }
}

impl Default for FullBook {
    fn default() -> (r: Self)
        ensures
            r.bids@ == Map::<u32, Num>::empty(),
            r.asks@ == Map::<u32, Num>::empty(),
            r.last_update_ms == 0,
    {
        FullBook { bids: BTreeMap::new(), asks: BTreeMap::new(), last_update_ms: 0 }
    }
}

proof fn lemma_no_rungs(l: Seq<(u32, Num)>, levels: Map<u32, Num>)
    requires
        is_ladder(l, levels),
        l.len() == 0,
    ensures
        levels == Map::<u32, Num>::empty(),
{
    assert forall|k: u32| !levels.contains_key(k) by {
        if levels.contains_key(k) {
            assert(in_ladder(l, k));
        }
    }
    assert(levels =~= Map::empty());
}

proof fn lemma_levels_have_size(levels: Seq<(u32, Num)>)
    ensures
        forall|k: u32| #[trigger]
            levels_map(levels).contains_key(k) ==> !levels_map(levels)[k].at_most(decimal::zero()),
    decreases levels.len(),
{
    if levels.len() > 0 {
        lemma_levels_have_size(levels.drop_last());
        let before = levels_map(levels.drop_last());
        let size = levels.last().1;
        if let Num::Finite(d) = size {
            decimal::lemma_lt_le(decimal::zero(), d@);
        }
        assert forall|k: u32| #[trigger] levels_map(levels).contains_key(k) implies !levels_map(
            levels,
        )[k].at_most(decimal::zero()) by {
            if k != levels.last().0 || !size.above(decimal::zero()) {
                assert(before.contains_key(k));
            }
        }
    }
}

fn map_of(levels: &[(u32, Num)]) -> (r: BTreeMap<u32, Num>)
    ensures
        r@ == levels_map(levels@),
{
    broadcast use group_btree_axioms;

    let mut m: BTreeMap<u32, Num> = BTreeMap::new();
    let mut i: usize = 0;
    proof {
        assert(levels@.take(0) =~= Seq::empty());
    }
    while i < levels.len()
        invariant
            i <= levels@.len(),
            m@ == levels_map(levels@.take(i as int)),
        decreases levels@.len() - i,
    {
        let (key, size) = levels[i];
        proof {
            assert(levels@.take(i + 1).drop_last() =~= levels@.take(i as int));
            assert(levels@.take(i + 1).last() == levels@[i as int]);
        }
        if size.is_above(Dec::zero()) {
            m.insert(key, size);
        }
        i += 1;
    }
    proof {
        assert(levels@.take(i as int) =~= levels@);
    }
    m
}

/// The levels, the lowest key first.
pub fn rungs(levels: &BTreeMap<u32, Num>) -> (r: Vec<(u32, Num)>)
    ensures
        is_ladder(r@, levels@),
        r@ == ladder_of(levels@),
{
    broadcast use group_btree_axioms;

    let mut out: Vec<(u32, Num)> = Vec::new();
    let iter = levels.iter();
    let ghost s = iter.remaining();
    for kv in it: iter
        invariant
            it.seq() == s,
            out@.len() == it.index(),
            forall|i: int|
                0 <= i < out@.len() ==> #[trigger] out@[i] == (*it.seq()[i].0, *it.seq()[i].1),
    {
        out.push((*kv.0, *kv.1));
    }
    proof {
        let keys = s.map_values(|kv: (&u32, &Num)| *kv.0);
        assert(increasing_seq(keys));
        assert forall|i: int, j: int| 0 <= i < j < out@.len() implies (#[trigger] out@[i]).0 < (
        #[trigger] out@[j]).0 by {
            assert(keys[i].cmp_spec(&keys[j]) is Less);
        }
        assert forall|i: int| 0 <= i < out@.len() implies levels@.contains_key(
            (#[trigger] out@[i]).0,
        ) && levels@[out@[i].0] == out@[i].1 by {
            assert(levels@.contains_key(*s[i].0));
        }
        assert forall|k: u32| #[trigger] levels@.contains_key(k) implies in_ladder(out@, k) by {
            assert(s.contains((&k, &levels@[k])));
            let i = choose|i: int| 0 <= i < s.len() && s[i] == (&k, &levels@[k]);
            assert(out@[i].0 == k);
        }
        assert(is_ladder(out@, levels@));
        lemma_ladder_unique(out@, ladder_of(levels@), levels@);
    }
    out
}

} // verus!
