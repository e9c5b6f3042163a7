//! Books, what they pay, and the lots that are held against them.

use crate::backtest::book::{self, BookSide, FullBook};
use crate::backtest::position::{self, CollectedPosition};
use crate::config::{Num, NumV};
use crate::decimal::{self, DecV};
use crate::laws::numerals;
use crate::numeral;
use crate::text;
use vstd::prelude::*;

verus! {

/// Who buys stands on the bid side, who sells on the ask side, and no other word names
/// a side.
pub proof fn law_sides_are_named(s: Seq<char>)
    ensures
        book::side_of(s) == Some(BookSide::Bid) <==> s == seq!['B', 'U', 'Y'],
        book::side_of(s) == Some(BookSide::Ask) <==> s == seq!['S', 'E', 'L', 'L'],
{
    reveal_strlit("BUY");
    reveal_strlit("SELL");
    assert("BUY"@ =~= seq!['B', 'U', 'Y']);
    assert("SELL"@ =~= seq!['S', 'E', 'L', 'L']);
    assert("BUY"@.len() != "SELL"@.len());
}

/// The key of a price is the nearest number of ten-thousandths, halves up; none below 0
/// and none above the highest one.
pub proof fn law_keys_are_ten_thousandths(price: DecV)
    ensures
        ({
            let (k, p) = (book::key_of(price), decimal::pow10(price.s));
            let exact = price.m * 10_000;
            &&& 0 <= k <= 4_294_967_295
            &&& price.m <= 0 ==> k == 0
            &&& price.m > 0 ==> 2 * (k * p) <= 2 * exact + p
            &&& price.m > 0 && k < 4_294_967_295 ==> 2 * exact - p < 2 * (k * p)
        }),
        book::key_of_number(NumV::Finite(price)) == book::key_of(price),
        book::key_of_number(NumV::Infinite { negative: false }) == 4_294_967_295,
        book::key_of_number(NumV::Infinite { negative: true }) == 0,
        book::key_of_number(NumV::NotANumber) == 0,
{
    numerals::law_units_are_the_nearest(price, 10_000);
    numeral::law_only_positive_numbers_have_units(price, 10_000);
    let (k, p, u) = (book::key_of(price), decimal::pow10(price.s), numeral::units(price, 10_000));
    decimal::lemma_pow10_positive(price.s);
    if price.m > 0 {
        assert(u >= 0) by {
            if u < 0 {
                assert(u * p <= -p) by (nonlinear_arith)
                    requires
                        u <= -1,
                        p >= 1,
                ;
            }
        }
        assert(k <= u);
        assert(k * p <= u * p) by (nonlinear_arith)
            requires
                k <= u,
                p >= 1,
        ;
    }
}

/// A level takes what its size is, to the nearest millionth of a billionth of a share;
/// something where that is above 0, nothing where it is not, and any amount where it is
/// not a number.
pub proof fn law_levels_take_their_size(size: Num)
    ensures
        ({
            let most = 0x4000_0000_0000_0000_0000_0000int;
            match size {
                Num::Finite(d) => {
                    let (r, p, exact) = (
                        book::room(size),
                        decimal::pow10(d@.s),
                        d@.m * 1_000_000_000_000_000,
                    );
                    &&& d@.m <= 0 ==> r == 0
                    &&& d@.m > 0 ==> 1 <= r <= most
                    &&& d@.m > 0 && 1 < r < most ==> 2 * exact - p < 2 * (r * p) <= 2 * exact + p
                    &&& d@.m > 0 && r == 1 ==> 2 * exact < 3 * p
                    &&& r == most ==> 2 * exact - p >= 2 * ((most - 1) * p)
                },
                Num::Infinite { negative } => book::room(size) == (if negative {
                    0
                } else {
                    most
                }),
                Num::NotANumber => book::room(size) == most,
            }
        }),
{
    if let Num::Finite(d) = size {
        let k = 1_000_000_000_000_000int;
        numerals::law_units_are_the_nearest(d@, k);
        let (r, p, u) = (book::room(size), decimal::pow10(d@.s), numeral::units(d@, k));
        decimal::lemma_pow10_positive(d@.s);
        if d@.m > 0 {
            if u < 0 {
                assert(u * p <= -p) by (nonlinear_arith)
                    requires
                        u <= -1,
                        p >= 1,
                ;
                let m = d@.m;
                assert(m * k >= 0) by (nonlinear_arith)
                    requires
                        m > 0,
                        k > 0,
                ;
            }
            let most = 0x4000_0000_0000_0000_0000_0000int;
            if r == most {
                let u1 = u;
                assert(u1 * p >= most * p) by (nonlinear_arith)
                    requires
                        u1 >= most,
                        p >= 1,
                ;
                assert((most - 1) * p == most * p - p) by (nonlinear_arith);
            }
            if r == 1 {
                assert(u <= 1);
                assert(u * p <= p) by (nonlinear_arith)
                    requires
                        u <= 1,
                        p >= 1,
                ;
            }
        }
    }
}

/// The level is one of that key with a size above 0, and the last of them.
pub open spec fn last_level(levels: Seq<(u32, Num)>, i: int, key: u32) -> bool {
    &&& 0 <= i < levels.len()
    &&& levels[i].0 == key && has_size(levels[i].1)
    &&& forall|k: int| i < k < levels.len() ==> !((#[trigger] levels[k]).0 == key && has_size(levels[k].1))
}

/// The size is above 0.
pub open spec fn has_size(n: Num) -> bool {
    match n {
        Num::Finite(d) => d@.m > 0,
        Num::Infinite { negative } => !negative,
        Num::NotANumber => false,
    }
}

/// The size is 0 or below.
pub open spec fn has_no_size(n: Num) -> bool {
    match n {
        Num::Finite(d) => d@.m <= 0,
        Num::Infinite { negative } => negative,
        Num::NotANumber => false,
    }
}

proof fn lemma_size(n: Num)
    ensures
        n.above(decimal::zero()) == has_size(n),
        n.at_most(decimal::zero()) == has_no_size(n),
{
    if let Num::Finite(d) = n {
        decimal::lemma_compare_zero(d@);
        decimal::lemma_lt_le(decimal::zero(), d@);
        decimal::lemma_lt_le(d@, decimal::zero());
    }
}

/// Of a snapshot every key has the last size that is given for it and is above 0; a key
/// without one is not there.
pub proof fn law_the_last_size_of_a_key_counts(levels: Seq<(u32, Num)>, key: u32)
    ensures
        book::levels_map(levels).contains_key(key) <==> exists|i: int| #[trigger]
            last_level(levels, i, key),
        forall|i: int| #[trigger]
            last_level(levels, i, key) ==> book::levels_map(levels)[key] == levels[i].1,
    decreases levels.len(),
{
    if levels.len() > 0 {
        let before = levels.drop_last();
        law_the_last_size_of_a_key_counts(before, key);
        let n = before.len() as int;
        lemma_size(levels.last().1);
        if levels.last().0 == key && has_size(levels.last().1) {
            assert(last_level(levels, n, key));
            assert forall|i: int| #[trigger] last_level(levels, i, key) implies i == n by {
                if i < n {
                    assert(levels[n].0 == key);
                }
            }
        } else {
            assert forall|i: int| #[trigger]
                last_level(levels, i, key) == last_level(before, i, key) by {
                if last_level(levels, i, key) {
                    assert(i != n);
                    assert(before[i] == levels[i]);
                    assert forall|k: int| i < k < before.len() implies !((#[trigger] before[k]).0 == key
                        && has_size(before[k].1)) by {
                        assert(before[k] == levels[k]);
                    }
                }
                if last_level(before, i, key) {
                    assert forall|k: int| i < k < levels.len() implies !((#[trigger] levels[k]).0 == key
                        && has_size(levels[k].1)) by {
                        if k < n {
                            assert(before[k] == levels[k]);
                        }
                    }
                }
            }
            if exists|i: int| #[trigger] last_level(before, i, key) {
                let i = choose|i: int| #[trigger] last_level(before, i, key);
                assert(last_level(levels, i, key));
            }
            if exists|i: int| #[trigger] last_level(levels, i, key) {
                let i = choose|i: int| #[trigger] last_level(levels, i, key);
                assert(last_level(before, i, key));
            }
        }
    }
}

/// A change sets the size of its own key, or takes the key away where the size is 0 or
/// below; other keys stay as they are.
pub proof fn law_a_change_is_of_its_own_level(
    levels: Map<u32, Num>,
    key: u32,
    size: Num,
    other: u32,
)
    ensures
        ({
            let after = book::with_level(levels, key, size);
            &&& has_no_size(size) <==> !after.contains_key(key)
            &&& !has_no_size(size) ==> after[key] == size
            &&& other != key ==> (after.contains_key(other) <==> levels.contains_key(other))
            &&& other != key && levels.contains_key(other) ==> after[other] == levels[other]
        }),
{
    lemma_size(size);
}

/// A division of a sale among the levels: none takes more than it has room for.
pub open spec fn divides(ladder: Seq<(u32, Num)>, parts: Seq<int>, shares: int) -> bool {
    &&& parts.len() == ladder.len()
    &&& forall|i: int| 0 <= i < parts.len() ==> 0 <= #[trigger] parts[i] <= book::room(ladder[i].1)
    &&& sum(parts) == shares
}

/// The sum of numbers.
pub open spec fn sum(parts: Seq<int>) -> int
    decreases parts.len(),
{
    if parts.len() == 0 {
        0
    } else {
        sum(parts.drop_last()) + parts.last()
    }
}

/// What a division brings: each part at the price of its level.
pub open spec fn brings(ladder: Seq<(u32, Num)>, parts: Seq<int>) -> int
    decreases parts.len(),
{
    if parts.len() == 0 {
        0
    } else {
        brings(ladder.drop_last(), parts.drop_last()) + parts.last() * ladder.last().0
    }
}

/// The keys ascend.
pub open spec fn ascends(ladder: Seq<(u32, Num)>) -> bool {
    forall|i: int, j: int|
        0 <= i < j < ladder.len() ==> (#[trigger] ladder[i]).0 < (#[trigger] ladder[j]).0
}

proof fn lemma_slope(ladder: Seq<(u32, Num)>, x: int, d: int, most: int)
    requires
        x >= 0,
        d >= 0,
        most >= 0,
        forall|i: int| 0 <= i < ladder.len() ==> (#[trigger] ladder[i]).0 <= most,
    ensures
        book::proceeds(ladder, x + d) <= book::proceeds(ladder, x) + d * most,
    decreases ladder.len(),
{
    assert(d * most >= 0) by (nonlinear_arith)
        requires
            d >= 0,
            most >= 0,
    ;
    if ladder.len() > 0 && x + d > 0 {
        let (key, size) = ladder.last();
        let r = book::room(size);
        book::lemma_room(size);
        let less = ladder.drop_last();
        let take1 = if x + d < r {
            x + d
        } else {
            r
        };
        let take0 = if x < r {
            x
        } else {
            r
        };
        let e = take1 - take0;
        assert forall|i: int| 0 <= i < less.len() implies (#[trigger] less[i]).0 <= most by {
            assert(less[i] == ladder[i]);
        }
        assert(ladder[ladder.len() - 1].0 <= most);
        lemma_slope(less, x - take0, d - e, most);
        assert(x - take0 + (d - e) == x + d - take1);
        assert(take1 * key == take0 * key + e * key) by (nonlinear_arith)
            requires
                take1 == take0 + e,
        ;
        assert(e * key <= e * most) by (nonlinear_arith)
            requires
                e >= 0,
                key <= most,
        ;
        assert(e * most + (d - e) * most == d * most) by (nonlinear_arith);
        if x == 0 {
            assert(take0 * key == 0) by (nonlinear_arith)
                requires
                    take0 == 0,
            ;
            assert(book::proceeds(less, 0) == 0);
        }
    }
}

/// No division of a sale among the levels brings more than taking the best bids first.
pub proof fn law_the_best_bids_first_is_best(
    ladder: Seq<(u32, Num)>,
    parts: Seq<int>,
    shares: int,
)
    requires
        ascends(ladder),
        divides(ladder, parts, shares),
    ensures
        brings(ladder, parts) <= book::proceeds(ladder, shares),
    decreases ladder.len(),
{
    if ladder.len() > 0 {
        let n = ladder.len() - 1;
        let (less, rest) = (ladder.drop_last(), parts.drop_last());
        let (key, size) = ladder.last();
        let (a, r) = (parts.last(), book::room(size));
        assert(0 <= parts[n] <= book::room(ladder[n].1));
        assert forall|i: int| 0 <= i < rest.len() implies 0 <= #[trigger] rest[i] <= book::room(
            less[i].1,
        ) by {
            assert(rest[i] == parts[i] && less[i] == ladder[i]);
        }
        lemma_sum_positive(less, rest, shares - a);
        law_the_best_bids_first_is_best(less, rest, shares - a);
        if shares > 0 {
            let take = if shares < r {
                shares
            } else {
                r
            };
            assert forall|i: int| 0 <= i < less.len() implies (#[trigger] less[i]).0 <= key by {
                assert(ladder[i].0 < ladder[n].0);
            }
            lemma_slope(less, shares - take, take - a, key as int);
            assert((take - a) * key + a * key == take * key) by (nonlinear_arith);
        } else {
            assert(a == 0 && shares == 0);
            assert(a * key == 0) by (nonlinear_arith)
                requires
                    a == 0,
            ;
            assert(book::proceeds(less, 0) == 0);
        }
    }
}

proof fn lemma_sum_positive(ladder: Seq<(u32, Num)>, parts: Seq<int>, shares: int)
    requires
        divides(ladder, parts, shares),
    ensures
        shares >= 0,
    decreases ladder.len(),
{
    if ladder.len() > 0 {
        let (less, rest) = (ladder.drop_last(), parts.drop_last());
        let n = ladder.len() - 1;
        assert(0 <= parts[n]);
        assert forall|i: int| 0 <= i < rest.len() implies 0 <= #[trigger] rest[i] <= book::room(
            less[i].1,
        ) by {
            assert(rest[i] == parts[i] && less[i] == ladder[i]);
        }
        lemma_sum_positive(less, rest, shares - parts.last());
    }
}

/// Some division of a sale that the levels take brings what taking the best bids first
/// does.
pub proof fn law_some_division_is_that_good(ladder: Seq<(u32, Num)>, shares: int) -> (parts: Seq<int>)
    requires
        0 <= shares <= book::depth(ladder),
    ensures
        divides(ladder, parts, shares),
        brings(ladder, parts) == book::proceeds(ladder, shares),
    decreases ladder.len(),
{
    if ladder.len() == 0 {
        Seq::empty()
    } else {
        let less = ladder.drop_last();
        let (key, size) = ladder.last();
        let r = book::room(size);
        book::lemma_room(size);
        let take = if shares < r {
            shares
        } else {
            r
        };
        lemma_depth_positive(less);
        let rest = law_some_division_is_that_good(less, shares - take);
        let parts = rest.push(take);
        assert(parts.drop_last() =~= rest);
        assert forall|i: int| 0 <= i < parts.len() implies 0 <= #[trigger] parts[i] <= book::room(
            ladder[i].1,
        ) by {
            if i < rest.len() {
                assert(parts[i] == rest[i] && less[i] == ladder[i]);
                assert(0 <= rest[i] <= book::room(less[i].1));
            }
        }
        if shares == 0 {
            assert(take * key == 0) by (nonlinear_arith)
                requires
                    take == 0,
            ;
            assert(book::proceeds(less, 0) == 0);
        }
        parts
    }
}

proof fn lemma_depth_positive(ladder: Seq<(u32, Num)>)
    ensures
        book::depth(ladder) >= 0,
    decreases ladder.len(),
{
    if ladder.len() > 0 {
        book::lemma_room(ladder.last().1);
        lemma_depth_positive(ladder.drop_last());
    }
}

/// The levels together take what each of them does.
pub proof fn law_depths_add_up(a: Seq<(u32, Num)>, b: Seq<(u32, Num)>, level: (u32, Num))
    ensures
        book::depth(a + b) == book::depth(a) + book::depth(b),
        book::depth(seq![level]) == book::room(level.1),
    decreases b.len(),
{
    assert(seq![level].drop_last() =~= Seq::empty());
    assert(book::depth(Seq::empty()) == 0);
    if b.len() == 0 {
        assert(a + b =~= a);
    } else {
        law_depths_add_up(a, b.drop_last(), level);
        assert((a + b).drop_last() =~= a + b.drop_last());
    }
}

/// A sale is possible where there is something to sell and the levels take all of it.
/// It brings what the best bids first do, in whole units, the rest left out.
pub proof fn law_sales_are_whole(ladder: Seq<(u32, Num)>, shares: u64)
    ensures
        book::executable(ladder, shares) is Some <==> shares > 0 && book::depth(ladder) >= shares
            * 1_000_000_000,
        book::executable(ladder, shares) matches Some(v) ==> v * 1_000_000_000 <= book::proceeds(
            ladder,
            shares * 1_000_000_000,
        ) < (v + 1) * 1_000_000_000,
{
}

/// The best bid is the highest one, the best ask the lowest one, and there is none where
/// there are no levels.
pub proof fn law_best_prices_are_the_nearest(b: FullBook, key: Option<u32>, other: u32)
    ensures
        book::is_best_bid(b, key) && b.bids@.contains_key(other) ==> key is Some && other <= key->0
            && b.bids@.contains_key(key->0),
        book::is_best_ask(b, key) && b.asks@.contains_key(other) ==> key is Some && other >= key->0
            && b.asks@.contains_key(key->0),
        book::is_best_bid(b, key) && key is Some ==> b.bids@.contains_key(key->0),
        book::is_best_ask(b, key) && key is Some ==> b.asks@.contains_key(key->0),
{
}

/// The samples without a price are counted.
pub proof fn law_samples_without_a_price_are_counted(samples: Seq<(i64, Option<u128>)>)
    ensures
        position::uncovered(samples) == samples.filter(
            |s: (i64, Option<u128>)| s.1 is None,
        ).len(),
    decreases samples.len(),
{
    reveal(Seq::filter);
    if samples.len() > 0 {
        law_samples_without_a_price_are_counted(samples.drop_last());
    }
}

/// A sample is added behind the others, with its prices, and changes nothing else of the
/// lot.
pub proof fn law_a_sample_is_added(
    before: CollectedPosition,
    after: CollectedPosition,
    recv_ms: i64,
    value: Option<u128>,
    best_bid: Option<u32>,
    best_ask: Option<u32>,
)
    requires
        before.wf(),
        position::is_sampled(before, after, recv_ms, value, best_bid, best_ask),
    ensures
        after.trajectory@ == before.trajectory@.push((recv_ms, value)),
        after.trajectory_bbo@ == before.trajectory_bbo@.push((recv_ms, best_bid, best_ask)),
        after.total_samples == after.trajectory@.len(),
        after.uncoverable_samples == after.trajectory@.filter(
            |s: (i64, Option<u128>)| s.1 is None,
        ).len(),
        after.token == before.token && after.shares == before.shares && after.exit_ts_ms
            == before.exit_ts_ms && after.entry_price == before.entry_price && after.signal_id
            == before.signal_id && after.time_exit_bid == before.time_exit_bid,
        before == (CollectedPosition {
            trajectory: before.trajectory,
            trajectory_bbo: before.trajectory_bbo,
            uncoverable_samples: before.uncoverable_samples,
            total_samples: before.total_samples,
            ..after
        }),
{
    law_samples_without_a_price_are_counted(after.trajectory@);
    assert(after.trajectory@.drop_last() =~= before.trajectory@);
}

/// What a sample of a book gives: what the whole lot would bring, and the best prices.
pub proof fn law_a_sample_is_of_the_book(
    before: CollectedPosition,
    after: CollectedPosition,
    token: Seq<char>,
    recv_ms: i64,
    b: FullBook,
)
    requires
        position::after_book(before, after, token, recv_ms, b),
    ensures
        before.token@ != token ==> after == before,
        before.token@ == token ==> {
            let n = before.trajectory@.len() as int;
            let (t, v) = after.trajectory@[n];
            let (u, bid, ask) = after.trajectory_bbo@.last();
            &&& after.trajectory@.len() == n + 1
            &&& after.trajectory@.take(n) == before.trajectory@
            &&& t == recv_ms && u == recv_ms
            &&& match book::executable(book::ladder_of(b.bids@), before.shares) {
                Some(x) => v matches Some(y) && y == x,
                None => v is None,
            }
            &&& forall|k: u32| #[trigger] b.bids@.contains_key(k) ==> bid is Some && k <= bid->0
            &&& forall|k: u32| #[trigger] b.asks@.contains_key(k) ==> ask is Some && k >= ask->0
            &&& bid is Some ==> b.bids@.contains_key(bid->0)
            &&& ask is Some ==> b.asks@.contains_key(ask->0)
        },
{
    if before.token@ == token {
        let (value, best_bid, best_ask) = choose|
            value: Option<u128>,
            best_bid: Option<u32>,
            best_ask: Option<u32>,
        | #[trigger]
            position::sampled_from(before, after, recv_ms, value, best_bid, best_ask, b);
        let n = before.trajectory@.len() as int;
        assert(after.trajectory@.take(n) =~= before.trajectory@);
    }
}

/// A lot is known by its token and its signal. One that is known takes the place of the
/// lot it is, any other is put behind the others.
pub proof fn law_a_lot_is_held_once(
    lots: Seq<CollectedPosition>,
    p: CollectedPosition,
    i: int,
)
    requires
        0 <= i < lots.len(),
        lots[i].token@ == p.token@,
        lots[i].signal_id@ == p.signal_id@,
        forall|k: int|
            0 <= k < i ==> !((#[trigger] lots[k]).token@ == p.token@ && lots[k].signal_id@
                == p.signal_id@),
    ensures
        position::with_lot(lots, p) == lots.update(i, p),
{
    position::lemma_lot_place(lots, p);
    let j = position::lot_place(lots, p);
    assert(position::same_lot(lots[i], p));
    if j->0 < i {
        assert(position::same_lot(lots[j->0], p));
    } else if j->0 > i {
        assert(!position::same_lot(lots[i], p));
    }
}

/// A new lot is put behind the others.
pub proof fn law_a_new_lot_is_added(lots: Seq<CollectedPosition>, p: CollectedPosition)
    requires
        forall|k: int|
            0 <= k < lots.len() ==> !((#[trigger] lots[k]).token@ == p.token@ && lots[k].signal_id@
                == p.signal_id@),
    ensures
        position::with_lot(lots, p) == lots.push(p),
{
    position::lemma_lot_place(lots, p);
}

/// The lots whose time has come are those with an exit time that is not later; the lots
/// that stay are the others, all in their order.
pub proof fn law_due_lots_are_chosen(lots: Seq<CollectedPosition>, now_ms: i64)
    ensures
        position::chosen(lots, now_ms, true) == lots.filter(
            |p: CollectedPosition| p.exit_ts_ms <= now_ms,
        ),
        position::chosen(lots, now_ms, false) == lots.filter(
            |p: CollectedPosition| p.exit_ts_ms > now_ms,
        ),
    decreases lots.len(),
{
    reveal(Seq::filter);
    if lots.len() > 0 {
        law_due_lots_are_chosen(lots.drop_last(), now_ms);
    }
}

/// What was paid for a lot is its price for each of its shares; what it can bring at most
/// is the highest price for each.
pub proof fn law_a_lot_costs_its_price(p: CollectedPosition, v: u128)
    ensures
        position::cost(p) == p.entry_price * p.shares,
        position::possible(p, Some(v)) <==> v <= 4_294_967_295 * p.shares,
        position::possible(p, None),
{
    let (a, b) = (p.entry_price as int, p.shares as int);
    assert(b * a == a * b) by (nonlinear_arith);
}

/// The lots of one signal.
pub open spec fn of_signal(lots: Seq<CollectedPosition>, signal: Seq<char>) -> Seq<
    CollectedPosition,
> {
    lots.filter(|p: CollectedPosition| p.signal_id@ == signal)
}

proof fn lemma_filter_push(lots: Seq<CollectedPosition>, p: CollectedPosition, signal: Seq<char>)
    ensures
        of_signal(lots.push(p), signal) == if p.signal_id@ == signal {
            of_signal(lots, signal).push(p)
        } else {
            of_signal(lots, signal)
        },
{
    reveal(Seq::filter);
    assert(lots.push(p).drop_last() =~= lots);
}

proof fn lemma_inserted(lots: Seq<CollectedPosition>, p: CollectedPosition, signal: Seq<char>)
    ensures
        of_signal(position::inserted(lots, p), signal) == of_signal(lots.push(p), signal),
    decreases lots.len(),
{
    if lots.len() > 0 && !text::dictionary_le(lots.last().signal_id@, p.signal_id@) {
        let (less, q) = (lots.drop_last(), lots.last());
        lemma_inserted(less, p, signal);
        lemma_filter_push(position::inserted(less, p), q, signal);
        assert(lots =~= less.push(q));
        lemma_filter_push(less, q, signal);
        lemma_filter_push(less, p, signal);
        lemma_filter_push(lots, p, signal);
        if p.signal_id@ == signal && q.signal_id@ == signal {
            text::lemma_dictionary_total(signal, signal);
        }
    }
}

/// Lots of one signal keep their order where lots are sorted by their signals.
pub proof fn law_lots_of_one_signal_keep_their_order(
    lots: Seq<CollectedPosition>,
    signal: Seq<char>,
)
    ensures
        of_signal(position::by_signal(lots), signal) == of_signal(lots, signal),
    decreases lots.len(),
{
    if lots.len() > 0 {
        let (less, p) = (lots.drop_last(), lots.last());
        law_lots_of_one_signal_keep_their_order(less, signal);
        lemma_inserted(position::by_signal(less), p, signal);
        lemma_filter_push(position::by_signal(less), p, signal);
        lemma_filter_push(less, p, signal);
        assert(lots =~= less.push(p));
    }
}

} // verus!
