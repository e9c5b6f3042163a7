//! Recorded lines as events.

use crate::backtest::book::{self, number_to_key, BookSide};
use crate::backtest::merge::{Ev, TimedEvent};
use crate::backtest::metrics;
use crate::config::{self, Num, NumV};
use crate::dates::{self, read_moment};
use crate::json::{
    self, has_at, int_at, item_place, len_at, place_below, read_json, text_at, value_at, whole_at,
};
use crate::text::{self, owned, same_text, text_le};
use serde_json::Value;
use vstd::prelude::*;

verus! {

/// Tokens, in dictionary order.
#[derive(Debug, Clone)]
pub struct TokenSet {
    names: Vec<String>,
}

impl TokenSet {
    pub closed spec fn names(self) -> Seq<String> {
        self.names@
    }

    pub closed spec fn wf(self) -> bool {
        metrics::names_ascend(self.names@)
    }

    /// The token is one of them.
    pub open spec fn has(self, token: Seq<char>) -> bool {
        metrics::has_name(self.names(), token)
    }

    pub fn new() -> (r: TokenSet)
        ensures
            r.wf(),
            forall|t: Seq<char>| !#[trigger] r.has(t),
    {
        TokenSet { names: Vec::new() }
    }

    /// Whether there is no token.
    pub fn is_empty(&self) -> (r: bool)
        ensures
            r == (forall|t: Seq<char>| !#[trigger] self.has(t)),
    {
        proof {
            if self.names@.len() > 0 {
                assert(self.names()[0]@ == self.names@[0]@);
                assert(self.has(self.names@[0]@));
            }
        }
        self.names.len() == 0
    }

    /// Adds a token.
    pub fn insert(&mut self, token: String)
        requires
            old(self).wf(),
        ensures
            final(self).wf(),
            forall|t: Seq<char>| #[trigger] final(self).has(t) == (old(self).has(t) || t == token@),
    {
        let ghost before = self.names@;
        let ghost new = token@;
        metrics::insert_name(&mut self.names, token);
        assert forall|t: Seq<char>| #[trigger] self.has(t) == (metrics::has_name(before, t) || t
            == new) by {
            assert(metrics::has_name(self.names@, t) == (metrics::has_name(before, t) || t == new));
        }
    }

    /// Whether a token is one of them.
    pub fn contains(&self, token: &str) -> (r: bool)
        requires
            self.wf(),
        ensures
            r == self.has(token@),
    {
        let mut lo: usize = 0;
        let mut hi: usize = self.names.len();
        while lo < hi
            invariant
                self.wf(),
                lo <= hi <= self.names@.len(),
                forall|i: int| 0 <= i < lo ==> (#[trigger] self.names@[i])@ != token@,
                forall|i: int|
                    hi <= i < self.names@.len() ==> (#[trigger] self.names@[i])@ != token@,
            decreases hi - lo,
        {
            let mid: usize = lo + (hi - lo) / 2;
            if same_text(&self.names[mid], token) {
                assert(self.names()[mid as int]@ == token@);
                return true;
            }
            if text_le(&self.names[mid], token) {
                assert forall|i: int| 0 <= i < mid + 1 implies (#[trigger] self.names@[i])@
                    != token@ by {
                    if i < mid && self.names@[i]@ == token@ {
                        assert(text::dictionary_le(self.names@[i]@, self.names@[mid as int]@));
                        text::lemma_dictionary_antisymmetric(token@, self.names@[mid as int]@);
                    }
                }
                lo = mid + 1;
            } else {
                assert forall|i: int| mid <= i < self.names@.len() implies (
                #[trigger] self.names@[i])@ != token@ by {
                    if i > mid && self.names@[i]@ == token@ {
                        assert(text::dictionary_le(self.names@[mid as int]@, self.names@[i]@));
                    }
                }
                hi = mid;
            }
        }
        false
    }
}

/// A level, where both its price and its size are known.
pub open spec fn level_of(price: Option<NumV>, size: Option<NumV>) -> Option<(u32, NumV)> {
    match (price, size) {
        (Some(p), Some(s)) => Some((book::key_of_number(p) as u32, s)),
        _ => None,
    }
}

/// The value of an optional level.
pub open spec fn opt_level(l: Option<(u32, Num)>) -> Option<(u32, NumV)> {
    match l {
        Some((key, size)) => Some((key, size@)),
        None => None,
    }
}

/// A level of a price and a size.
pub fn make_level(price: Option<Num>, size: Option<Num>) -> (r: Option<(u32, Num)>)
    ensures
        opt_level(r) == level_of(config::opt_num(price), config::opt_num(size)),
{
    match (price, size) {
        (Some(p), Some(s)) => Some((number_to_key(p), s)),
        _ => None,
    }
}

/// When a candle was received and when it began, and its close: a candle that
/// begins at no time, or has no close, is passed over.
pub open spec fn candle_of(recv_ms: Option<int>, t_open_ms: Option<int>, close: Option<NumV>) -> Option<
    (int, int, NumV),
> {
    match (recv_ms, t_open_ms, close) {
        (Some(r), Some(t), Some(c)) if t > 0 => Some((r, t, c)),
        _ => None,
    }
}

/// The event is a candle of the asset.
pub open spec fn is_candle(e: Option<TimedEvent>, asset: Seq<char>, c: Option<(int, int, NumV)>) -> bool {
    match c {
        Some((r, t, close)) => e matches Some(TimedEvent { recv_ms, ev: Ev::Kline {
            asset: a,
            t_open_ms,
            close: x,
        } }) && recv_ms == r && a@ == asset && t_open_ms == t && x@ == close,
        None => e is None,
    }
}

/// The event of a candle.
pub fn make_candle(asset: &str, recv_ms: Option<i64>, t_open_ms: Option<i64>, close: Option<Num>) -> (r:
    Option<TimedEvent>)
    ensures
        is_candle(
            r,
            asset@,
            candle_of(json::opt_int(recv_ms), json::opt_int(t_open_ms), config::opt_num(close)),
        ),
{
    match (recv_ms, t_open_ms, close) {
        (Some(recv_ms), Some(t_open_ms), Some(close)) => {
            if t_open_ms > 0 {
                Some(
                    TimedEvent { recv_ms, ev: Ev::Kline { asset: owned(asset), t_open_ms, close } },
                )
            } else {
                None
            }
        },
        _ => None,
    }
}

/// A change of a level is made of a price, a size and a known side.
pub open spec fn change_of(price: Option<NumV>, size: Option<NumV>, side: Seq<char>) -> Option<
    (u32, NumV, BookSide),
> {
    match (level_of(price, size), book::side_of(side)) {
        (Some((key, size)), Some(side)) => Some((key, size, side)),
        _ => None,
    }
}

/// The value of an optional change.
pub open spec fn opt_change(c: Option<(u32, Num, BookSide)>) -> Option<(u32, NumV, BookSide)> {
    match c {
        Some((key, size, side)) => Some((key, size@, side)),
        None => None,
    }
}

/// A change of a level.
pub fn make_change(price: Option<Num>, size: Option<Num>, side: &str) -> (r: Option<
    (u32, Num, BookSide),
>)
    ensures
        opt_change(r) == change_of(config::opt_num(price), config::opt_num(size), side@),
{
    match (make_level(price, size), BookSide::from_str(side)) {
        (Some((key, size)), Some(side)) => Some((key, size, side)),
        _ => None,
    }
}

/// When a line was received.
pub open spec fn received(m: Map<Seq<char>, json::Leaf>) -> Option<int> {
    match json::text_leaf(m, "/received_at"@) {
        Some(t) => dates::moment_in_text(t),
        None => None,
    }
}

/// When a line was received.
fn parse_recv_ms(v: &Value) -> (r: Option<i64>)
    ensures
        json::opt_int(r) == received(json::leaves(*v)),
{
    match text_at(v, "/received_at") {
        Some(t) => read_moment(&t),
        None => None,
    }
}

/// When a line was received, of a line as it was recorded: `None` where it is
/// not JSON or gives no moment.
pub open spec fn received_in_line(line: Seq<char>) -> Option<int> {
    match json::leaves_in_text(line) {
        Some(m) => received(m),
        None => None,
    }
}

/// When a line was received. Nothing else of the line is looked at.
pub fn line_recv_ms(line: &str) -> (r: Option<i64>)
    ensures
        json::opt_int(r) == received_in_line(line@),
{
    match read_json(line) {
        Some(v) => parse_recv_ms(&v),
        None => None,
    }
}

/// The place of a candle in its line.
pub open spec fn candle_place(m: Map<Seq<char>, json::Leaf>) -> Seq<char> {
    if m.contains_key("/payload/data/k"@) {
        "/payload/data/k"@
    } else if m.contains_key("/payload/k"@) {
        "/payload/k"@
    } else {
        "/payload"@
    }
}

/// The candle in a line.
pub open spec fn candle_in(m: Map<Seq<char>, json::Leaf>) -> Option<(int, int, NumV)> {
    let at = candle_place(m);
    candle_of(
        received(m),
        json::int_leaf(m, json::below(at, "t"@)),
        json::value_leaf(m, json::below(at, "c"@)),
    )
}

/// The candle that a recorded line holds.
pub fn read_kline(line: &str, asset: &str) -> (r: Option<TimedEvent>)
    ensures
        match json::leaves_in_text(line@) {
            Some(m) => is_candle(r, asset@, candle_in(m)),
            None => r is None,
        },
{
    match read_json(line) {
        None => None,
        Some(v) => {
            let at = if has_at(&v, "/payload/data/k") {
                "/payload/data/k"
            } else if has_at(&v, "/payload/k") {
                "/payload/k"
            } else {
                "/payload"
            };
            let t_open = int_at(&v, &place_below(at, "t"));
            let close = value_at(&v, &place_below(at, "c"));
            make_candle(asset, parse_recv_ms(&v), t_open, close)
        },
    }
}

/// The levels at a place, up to item `n`: items without a price or a size are
/// passed over.
pub open spec fn levels_at(m: Map<Seq<char>, json::Leaf>, at: Seq<char>, n: nat) -> Seq<(u32, NumV)>
    decreases n,
{
    if n == 0 {
        Seq::empty()
    } else {
        let before = levels_at(m, at, (n - 1) as nat);
        let place = json::item(at, (n - 1) as nat);
        match level_of(
            json::value_leaf(m, json::below(place, "price"@)),
            json::value_leaf(m, json::below(place, "size"@)),
        ) {
            Some(l) => before.push(l),
            None => before,
        }
    }
}

/// The length of the array at a place; none where there is no array.
pub open spec fn len_of(m: Map<Seq<char>, json::Leaf>, at: Seq<char>) -> nat {
    match json::list_leaf(m, at) {
        Some(n) => n,
        None => 0,
    }
}

/// The values of levels.
pub open spec fn level_values(levels: Seq<(u32, Num)>) -> Seq<(u32, NumV)> {
    levels.map_values(|l: (u32, Num)| (l.0, l.1@))
}

fn parse_levels(v: &Value, at: &str) -> (r: Vec<(u32, Num)>)
    ensures
        level_values(r@) == levels_at(json::leaves(*v), at@, len_of(json::leaves(*v), at@)),
{
    let n: usize = match len_at(v, at) {
        Some(n) => n,
        None => 0,
    };
    let mut out: Vec<(u32, Num)> = Vec::new();
    let mut i: usize = 0;
    assert(level_values(out@) =~= Seq::empty());
    while i < n
        invariant
            i <= n,
            n == len_of(json::leaves(*v), at@),
            level_values(out@) == levels_at(json::leaves(*v), at@, i as nat),
        decreases n - i,
    {
        let place = item_place(at, i);
        let price = value_at(v, &place_below(&place, "price"));
        let size = value_at(v, &place_below(&place, "size"));
        match make_level(price, size) {
            Some(l) => {
                let ghost before = out@;
                out.push(l);
                assert(level_values(out@) =~= level_values(before).push((l.0, l.1@)));
            },
            None => {},
        }
        i += 1;
    }
    out
}

/// The venue's time of a line, or else the time at which it was received.
pub open spec fn venue_time(m: Map<Seq<char>, json::Leaf>, recv_ms: int) -> int {
    match json::whole_leaf(m, "/payload/timestamp"@) {
        Some(t) => t,
        None => recv_ms,
    }
}

/// The text at a place, or an empty one.
pub open spec fn word_at(m: Map<Seq<char>, json::Leaf>, at: Seq<char>) -> Seq<char> {
    match json::text_leaf(m, at) {
        Some(t) => t,
        None => Seq::empty(),
    }
}

/// The text at a place, or an empty one.
pub(crate) fn read_word(v: &Value, at: &str) -> (r: String)
    ensures
        r@ == word_at(json::leaves(*v), at@),
{
    match text_at(v, at) {
        Some(t) => t,
        None => {
            let r = String::new();
            assert(r@ =~= Seq::empty());
            r
        },
    }
}

/// The event is the snapshot that a line holds.
pub open spec fn is_snapshot(e: TimedEvent, m: Map<Seq<char>, json::Leaf>, r: int) -> bool {
    e.recv_ms == r && (e.ev matches Ev::BookSnapshot { token, bids, asks, ts_ms } && token@ == word_at(
        m,
        "/payload/asset_id"@,
    ) && level_values(bids@) == levels_at(m, "/payload/bids"@, len_of(m, "/payload/bids"@)) && level_values(asks@) == levels_at(
        m,
        "/payload/asks"@,
        len_of(m, "/payload/asks"@),
    ) && ts_ms == venue_time(m, r))
}

/// The snapshot that a recorded line holds, if it is of one of the tokens.
pub fn read_book(line: &str, tokens: &TokenSet) -> (r: Option<TimedEvent>)
    requires
        tokens.wf(),
    ensures
        match json::leaves_in_text(line@) {
            Some(m) => match received(m) {
                Some(t) if tokens.has(word_at(m, "/payload/asset_id"@)) => r matches Some(e)
                    && is_snapshot(e, m, t),
                _ => r is None,
            },
            None => r is None,
        },
{
    match read_json(line) {
        None => None,
        Some(v) => match parse_recv_ms(&v) {
            None => None,
            Some(recv_ms) => {
                let token = read_word(&v, "/payload/asset_id");
                if !tokens.contains(&token) {
                    return None;
                }
                let ts_ms: i64 = match whole_at(&v, "/payload/timestamp") {
                    Some(t) => t,
                    None => recv_ms,
                };
                let bids = parse_levels(&v, "/payload/bids");
                let asks = parse_levels(&v, "/payload/asks");
                Some(TimedEvent { recv_ms, ev: Ev::BookSnapshot { token, bids, asks, ts_ms } })
            },
        },
    }
}

/// A change of a level, as plain values.
pub ghost struct Change {
    pub recv_ms: int,
    pub token: Seq<char>,
    pub key: u32,
    pub size: NumV,
    pub side: BookSide,
    pub ts_ms: int,
}

/// The changes among the first `n` items of a line: items of other tokens, and
/// items without a price, a size or a known side, are passed over.
pub open spec fn changes_in(m: Map<Seq<char>, json::Leaf>, r: int, tokens: TokenSet, n: nat) -> Seq<Change>
    decreases n,
{
    if n == 0 {
        Seq::empty()
    } else {
        let before = changes_in(m, r, tokens, (n - 1) as nat);
        let place = json::item("/payload/price_changes"@, (n - 1) as nat);
        let token = word_at(m, json::below(place, "asset_id"@));
        match change_of(
            json::value_leaf(m, json::below(place, "price"@)),
            json::value_leaf(m, json::below(place, "size"@)),
            word_at(m, json::below(place, "side"@)),
        ) {
            Some((key, size, side)) if tokens.has(token) => before.push(
                Change { recv_ms: r, token, key, size, side, ts_ms: venue_time(m, r) },
            ),
            _ => before,
        }
    }
}

pub open spec fn is_change(e: TimedEvent, c: Change) -> bool {
    e.recv_ms == c.recv_ms && (e.ev matches Ev::PriceChange { token, key, size, side, ts_ms } && token@
        == c.token && key == c.key && size@ == c.size && side == c.side && ts_ms == c.ts_ms)
}

pub open spec fn are_changes(events: Seq<TimedEvent>, c: Seq<Change>) -> bool {
    events.len() == c.len() && forall|i: int|
        0 <= i < events.len() ==> is_change(#[trigger] events[i], c[i])
}

/// The changes that a recorded line holds, of the tokens.
pub fn read_price_changes(line: &str, tokens: &TokenSet) -> (r: Vec<TimedEvent>)
    requires
        tokens.wf(),
    ensures
        match json::leaves_in_text(line@) {
            Some(m) => match received(m) {
                Some(t) => are_changes(
                    r@,
                    changes_in(m, t, *tokens, len_of(m, "/payload/price_changes"@)),
                ),
                None => r@.len() == 0,
            },
            None => r@.len() == 0,
        },
{
    let mut out: Vec<TimedEvent> = Vec::new();
    let v = match read_json(line) {
        None => {
            return out;
        },
        Some(v) => v,
    };
    let recv_ms: i64 = match parse_recv_ms(&v) {
        None => {
            return out;
        },
        Some(t) => t,
    };
    let ts_ms: i64 = match whole_at(&v, "/payload/timestamp") {
        Some(t) => t,
        None => recv_ms,
    };
    let n: usize = match len_at(&v, "/payload/price_changes") {
        Some(n) => n,
        None => 0,
    };
    let mut i: usize = 0;
    while i < n
        invariant
            i <= n,
            tokens.wf(),
            n == len_of(json::leaves(v), "/payload/price_changes"@),
            ts_ms == venue_time(json::leaves(v), recv_ms as int),
            are_changes(out@, changes_in(json::leaves(v), recv_ms as int, *tokens, i as nat)),
        decreases n - i,
    {
        let place = item_place("/payload/price_changes", i);
        let token = read_word(&v, &place_below(&place, "asset_id"));
        if tokens.contains(&token) {
            let price = value_at(&v, &place_below(&place, "price"));
            let size = value_at(&v, &place_below(&place, "size"));
            let side = read_word(&v, &place_below(&place, "side"));
            match make_change(price, size, &side) {
                Some((key, size, side)) => {
                    out.push(
                        TimedEvent {
                            recv_ms,
                            ev: Ev::PriceChange { token, key, size, side, ts_ms },
                        },
                    );
                },
                None => {},
            }
        }
        i += 1;
    }
    out
}

} // verus!
