//! Reading recorder lines: the hour by which a line is taken or passed over, the
//! time at which it was received, and the events that it holds.

use crate::backtest::record::{self, read_word, TokenSet};
use crate::config::{self, Num, NumV};
use crate::dates::{self, days_from_civil};
use crate::json::{
    self, value_at, flag_at, item_place, len_at, place_below, read_json, text_at, whole_at,
};
use crate::numeral::{self, read_value};
use crate::order::{self, sort_by_keys};
use crate::text::{self, chars_of, owned, same_text};
use serde_json::Value;
use vstd::prelude::*;
use vstd::string::StringSliceAdditionalSpecFns;

verus! {

/// The characters of bytes, one each.
pub open spec fn as_chars(b: Seq<u8>) -> Seq<char> {
    b.map_values(|x: u8| x as char)
}

fn chars_between(b: &[u8], from: usize, to: usize) -> (r: Vec<char>)
    requires
        from <= to <= b@.len(),
    ensures
        r@ == as_chars(b@.subrange(from as int, to as int)),
{
    let mut out: Vec<char> = Vec::new();
    let mut i: usize = from;
    assert(out@ =~= as_chars(b@.subrange(from as int, from as int)));
    while i < to
        invariant
            from <= i <= to <= b@.len(),
            out@ == as_chars(b@.subrange(from as int, i as int)),
        decreases to - i,
    {
        let c: char = b[i] as char;
        out.push(c);
        assert(out@ =~= as_chars(b@.subrange(from as int, i + 1)));
        i += 1;
    }
    out
}

/// A signed number written in the bytes from `from` up to `to`.
pub open spec fn number_at(b: Seq<u8>, from: int, to: int) -> Option<int> {
    text::signed_number(as_chars(b.subrange(from, to)))
}

/// A number of `n` digits is below the `n`-th power of ten.
proof fn lemma_number_bound(s: Seq<char>)
    requires
        text::all_digits(s),
    ensures
        0 <= text::number(s) < crate::decimal::pow10(s.len()),
    decreases s.len(),
{
    if s.len() > 0 {
        assert forall|i: int| 0 <= i < s.len() - 1 implies text::is_digit(
            #[trigger] s.drop_last()[i],
        ) by {
            assert(s.drop_last()[i] == s[i]);
        }
        lemma_number_bound(s.drop_last());
        assert(text::is_digit(s[s.len() - 1]));
    }
}

fn read_number_at(b: &[u8], from: usize, to: usize) -> (r: Option<i64>)
    requires
        from <= to <= b@.len(),
        to - from <= 4,
    ensures
        match r {
            Some(n) => number_at(b@, from as int, to as int) == Some(n as int),
            None => number_at(b@, from as int, to as int) is None,
        },
        r matches Some(n) ==> -1000 < n < 10_000,
        to - from <= 2 ==> (r matches Some(n) ==> -10 < n < 100),
{
    let chars = chars_between(b, from, to);
    proof {
        let s = chars@;
        let body = if s.len() > 0 && (s[0] == '-' || s[0] == '+') {
            s.drop_first()
        } else {
            s
        };
        if body.len() > 0 && text::all_digits(body) {
            lemma_number_bound(body);
            reveal_with_fuel(crate::decimal::pow10, 6);
        }
    }
    text::read_i64(chars.as_slice())
}

/// Whether a line of the recorder is to be taken.
#[derive(Debug, Clone, Copy, PartialEq, Eq, Structural)]
pub enum Win {
    /// Before the window.
    Skip,
    /// After the window: no later line can be in it.
    Stop,
    Take,
}

/// How a recorder line begins.
pub open spec fn line_start() -> Seq<char> {
    "{\"received_at\":\""@
}

/// The hour in a recorder line that begins as it should. A minus sign is not
/// part of an hour.
pub open spec fn hour_in_line(b: Seq<u8>) -> Option<int> {
    if b.len() < 29 || as_chars(b.subrange(0, 16)) != line_start() || b[27] == 45 {
        None
    } else {
        number_at(b, 27, 29)
    }
}

/// The hour of a recorder line, without reading the whole line.
pub fn peek_hour(line: &str) -> (r: Option<u32>)
    ensures
        match r {
            Some(h) => hour_in_line(line.spec_bytes()) == Some(h as int),
            None => hour_in_line(line.spec_bytes()) is None,
        },
{
    let b = line.as_bytes();
    if b.len() < 29 {
        return None;
    }
    let head = chars_between(b, 0, 16);
    let expected = text::chars_of("{\"received_at\":\"");
    if !text::same_chars(head.as_slice(), expected.as_slice()) {
        return None;
    }
    if b[27] == 45 {
        return None;
    }
    let chars = chars_between(b, 27, 29);
    let n = read_number_at(b, 27, 29);
    proof {
        let s = chars@;
        assert(s[0] == b@[27] as char);
        assert(s[0] != '-');
        if n is Some {
            lemma_unsigned(s);
        }
    }
    match n {
        Some(h) => Some(h as u32),
        None => None,
    }
}

proof fn lemma_unsigned(s: Seq<char>)
    requires
        s.len() > 0,
        s[0] != '-',
        text::signed_number(s) is Some,
    ensures
        text::signed_number(s)->0 >= 0,
{
    let body = if s[0] == '+' {
        s.drop_first()
    } else {
        s
    };
    lemma_number_bound(body);
}

/// Whether a line is to be taken, for the hours from `sh` up to `eh`. A line
/// whose hour cannot be seen is taken.
pub open spec fn window_of(hour: Option<int>, sh: u32, eh: u32) -> Win {
    match hour {
        None => Win::Take,
        Some(h) => if h < sh {
            Win::Skip
        } else if h >= eh {
            Win::Stop
        } else {
            Win::Take
        },
    }
}

/// Whether a line is to be taken, for the hours from `sh` up to `eh`.
pub fn window(line: &str, sh: u32, eh: u32) -> (r: Win)
    ensures
        r == window_of(hour_in_line(line.spec_bytes()), sh, eh),
{
    match peek_hour(line) {
        Some(h) => {
            if h < sh {
                Win::Skip
            } else if h >= eh {
                Win::Stop
            } else {
                Win::Take
            }
        },
        None => Win::Take,
    }
}

/// The run of digit bytes from `from` on.
pub open spec fn digit_run(b: Seq<u8>, from: int) -> int
    decreases b.len() - from,
{
    if from < 0 || from >= b.len() || !(48 <= b[from] <= 57) {
        from
    } else {
        digit_run(b, from + 1)
    }
}

/// The milliseconds after the point: the first six digits are microseconds,
/// missing ones count as 0.
pub open spec fn fraction_ms(b: Seq<u8>) -> int {
    if b.len() > 20 && b[19] == 46 {
        let end = digit_run(b, 20);
        let cut = if end > 26 {
            26
        } else {
            end
        };
        let micros = text::number(as_chars(b.subrange(20, cut))) * crate::decimal::pow10(
            (26 - cut) as nat,
        );
        micros / 1000
    } else {
        0
    }
}

/// The time and the hour in a text `YYYY-MM-DDTHH:MM:SS`, with a fraction of a
/// second if there is one.
pub open spec fn received(b: Seq<u8>) -> Option<(int, int)> {
    if b.len() < 19 {
        None
    } else {
        match (
            number_at(b, 0, 4),
            number_at(b, 5, 7),
            number_at(b, 8, 10),
            number_at(b, 11, 13),
            number_at(b, 14, 16),
            number_at(b, 17, 19),
        ) {
            (Some(y), Some(mo), Some(d), Some(h), Some(mi), Some(s)) => Some(
                (
                    dates::civil_days(y, mo, d) * 86_400_000 + (h * 3600 + mi * 60 + s) * 1000
                        + fraction_ms(b),
                    h,
                ),
            ),
            _ => None,
        }
    }
}

fn read_fraction_ms(b: &[u8]) -> (r: i64)
    ensures
        r == fraction_ms(b@),
        0 <= r < 1000,
{
    if b.len() > 20 && b[19] == 46 {
        let mut micros: i64 = 0;
        let mut i: usize = 20;
        proof {
            assert(as_chars(b@.subrange(20, 20)) =~= Seq::empty());
        }
        while i < b.len() && i < 26 && 48 <= b[i] && b[i] <= 57
            invariant
                20 <= i <= 26,
                i <= b@.len(),
                digit_run(b@, 20) == digit_run(b@, i as int),
                text::all_digits(as_chars(b@.subrange(20, i as int))),
                micros == text::number(as_chars(b@.subrange(20, i as int))),
                0 <= micros < crate::decimal::pow10((i - 20) as nat),
                micros < 1_000_000,
            decreases 26 - i,
        {
            let ghost now = as_chars(b@.subrange(20, i as int));
            let ghost next = as_chars(b@.subrange(20, i + 1));
            proof {
                assert(next.drop_last() =~= now);
                assert(next.last() == b@[i as int] as char);
                assert forall|k: int| 0 <= k < next.len() implies text::is_digit(
                    #[trigger] next[k],
                ) by {
                    if k < now.len() {
                        assert(next[k] == now[k]);
                    }
                }
                lemma_number_bound(now);
                lemma_number_bound(next);
                reveal_with_fuel(crate::decimal::pow10, 8);
            }
            micros = micros * 10 + (b[i] - 48) as i64;
            i += 1;
        }
        let ghost cut = i as int;
        proof {
            lemma_digit_run_at_least(b@, cut);
            assert(cut == if digit_run(b@, 20) > 26 {
                26
            } else {
                digit_run(b@, 20)
            });
        }
        let ghost start = micros as int;
        proof {
            assert(crate::decimal::pow10(0) == 1);
            assert(start * 1 == start);
        }
        while i < 26
            invariant
                20 <= cut <= i <= 26,
                micros == start * crate::decimal::pow10((i - cut) as nat),
                0 <= micros < crate::decimal::pow10((i - 20) as nat),
                micros < 1_000_000,
            decreases 26 - i,
        {
            proof {
                reveal_with_fuel(crate::decimal::pow10, 8);
                let p = crate::decimal::pow10((i - cut) as nat);
                assert(crate::decimal::pow10((i + 1 - cut) as nat) == 10 * p);
                assert(start * (10 * p) == (start * p) * 10) by (nonlinear_arith);
            }
            micros = micros * 10;
            i += 1;
        }
        micros / 1000
    } else {
        0
    }
}

proof fn lemma_digit_run_at_least(b: Seq<u8>, i: int)
    requires
        0 <= i <= b.len(),
    ensures
        digit_run(b, i) >= i,
        digit_run(b, i) <= b.len(),
    decreases b.len() - i,
{
    if i < b.len() && 48 <= b[i] <= 57 {
        lemma_digit_run_at_least(b, i + 1);
    }
}

/// The time in milliseconds and the hour at which a line was received.
pub fn recv_ms(received_at: &str) -> (r: Option<(i64, u32)>)
    ensures
        match r {
            Some((ms, hour)) => received(received_at.spec_bytes()) matches Some((t, h)) && ms == t
                && hour == h as u32,
            None => received(received_at.spec_bytes()) is None,
        },
{
    let b = received_at.as_bytes();
    if b.len() < 19 {
        return None;
    }
    let y = read_number_at(b, 0, 4);
    let mo = read_number_at(b, 5, 7);
    let d = read_number_at(b, 8, 10);
    let h = read_number_at(b, 11, 13);
    let mi = read_number_at(b, 14, 16);
    let s = read_number_at(b, 17, 19);
    match (y, mo, d, h, mi, s) {
        (Some(y), Some(mo), Some(d), Some(h), Some(mi), Some(s)) => {
            let days: i64 = days_from_civil(y, mo, d);
            assert(-2_000_000 <= days <= 4_000_000);
            let frac: i64 = read_fraction_ms(b);
            let ms: i64 = days * 86_400_000 + (h * 3600 + mi * 60 + s) * 1000 + frac;
            let hour: u32 = #[verifier::truncate]
            (h as u32);
            Some((ms, hour))
        },
        _ => None,
    }
}

/// The seconds at which a date begins that is written in the first ten bytes as
/// `YYYY-MM-DD`.
pub open spec fn midnight(b: Seq<u8>) -> Option<int> {
    if b.len() < 10 {
        None
    } else {
        match (number_at(b, 0, 4), number_at(b, 5, 7), number_at(b, 8, 10)) {
            (Some(y), Some(m), Some(d)) => Some(dates::civil_days(y, m, d) * 86_400),
            _ => None,
        }
    }
}

/// The seconds at which a date begins.
pub fn date_midnight_sec(date: &str) -> (r: Option<i64>)
    ensures
        match r {
            Some(t) => midnight(date.spec_bytes()) == Some(t as int) && -172_800_000_000 <= t
                <= 345_600_000_000,
            None => midnight(date.spec_bytes()) is None,
        },
{
    let b = date.as_bytes();
    if b.len() < 10 {
        return None;
    }
    let y = read_number_at(b, 0, 4);
    let m = read_number_at(b, 5, 7);
    let d = read_number_at(b, 8, 10);
    match (y, m, d) {
        (Some(y), Some(m), Some(d)) => {
            let days: i64 = days_from_civil(y, m, d);
            assert(-2_000_000 <= days <= 4_000_000);
            Some(days * 86_400)
        },
        _ => None,
    }
}

// Events.

/// Something that was recorded.
#[derive(Debug, Clone)]
pub enum Ev {
    Kline { asset: String, t_open_ms: i64, close: Num },
    Bbo { token: String, best_ask: Option<Num>, best_bid: Option<Num>, ts_ms: i64 },
}

/// An event with the time at which it was received.
#[derive(Debug, Clone)]
pub struct Timed {
    pub recv_ms: i64,
    pub ev: Ev,
}

/// An event as mathematical values.
pub enum EvV {
    Kline { asset: Seq<char>, t_open_ms: int, close: NumV },
    Bbo { token: Seq<char>, best_ask: Option<NumV>, best_bid: Option<NumV>, ts_ms: int },
}

impl View for Ev {
    type V = EvV;

    open spec fn view(&self) -> EvV {
        match *self {
            Ev::Kline { asset, t_open_ms, close } => EvV::Kline {
                asset: asset@,
                t_open_ms: t_open_ms as int,
                close: close@,
            },
            Ev::Bbo { token, best_ask, best_bid, ts_ms } => EvV::Bbo {
                token: token@,
                best_ask: config::opt_num(best_ask),
                best_bid: config::opt_num(best_bid),
                ts_ms: ts_ms as int,
            },
        }
    }
}

impl View for Timed {
    type V = (int, EvV);

    open spec fn view(&self) -> (int, EvV) {
        (self.recv_ms as int, self.ev@)
    }
}

pub open spec fn plain(v: Seq<Timed>) -> Seq<(int, EvV)> {
    v.map_values(|t: Timed| t@)
}

/// What a line comes to.
#[derive(Debug)]
pub enum Line {
    /// The line is passed over.
    Skip,
    /// No later line is in the window.
    Stop,
    /// The events of the line.
    Events(Vec<Timed>),
}

/// What a line comes to, as mathematical values.
pub enum LineV {
    Skip,
    Stop,
    Events(Seq<(int, EvV)>),
}

impl View for Line {
    type V = LineV;

    open spec fn view(&self) -> LineV {
        match *self {
            Line::Skip => LineV::Skip,
            Line::Stop => LineV::Stop,
            Line::Events(v) => LineV::Events(plain(v@)),
        }
    }
}

/// When a line was received.
pub open spec fn line_time(m: Map<Seq<char>, json::Leaf>) -> Option<int> {
    match json::text_leaf(m, "/received_at"@) {
        Some(t) => match received(vstd::utf8::encode_utf8(t)) {
            Some((ms, _)) => Some(ms),
            None => None,
        },
        None => None,
    }
}

fn time_of(v: &Value) -> (r: Option<i64>)
    ensures
        json::opt_int(r) == line_time(json::leaves(*v)),
{
    match text_at(v, "/received_at") {
        Some(t) => match recv_ms(t.as_str()) {
            Some((ms, _)) => Some(ms),
            None => None,
        },
        None => None,
    }
}

/// The number that the text at a place writes.
pub open spec fn written_leaf(m: Map<Seq<char>, json::Leaf>, at: Seq<char>) -> Option<NumV> {
    match json::text_leaf(m, at) {
        Some(t) => numeral::value(t),
        None => None,
    }
}

/// A candle is taken once it is closed; its time and its close must be known.
pub open spec fn closed_candle(
    asset: Seq<char>,
    time: Option<int>,
    closed: Option<bool>,
    t_open_ms: Option<int>,
    close: Option<NumV>,
) -> Option<(int, EvV)> {
    match (time, t_open_ms, close) {
        (Some(r), Some(t), Some(c)) if closed == Some(true) => Some(
            (r, EvV::Kline { asset, t_open_ms: t, close: c }),
        ),
        _ => None,
    }
}

pub open spec fn opt_event(e: Option<Timed>) -> Option<(int, EvV)> {
    match e {
        Some(e) => Some(e@),
        None => None,
    }
}

/// The event of a candle.
pub fn make_closed_candle(
    asset: &str,
    time: Option<i64>,
    closed: Option<bool>,
    t_open_ms: Option<i64>,
    close: Option<Num>,
) -> (r: Option<Timed>)
    ensures
        opt_event(r) == closed_candle(
            asset@,
            json::opt_int(time),
            closed,
            json::opt_int(t_open_ms),
            config::opt_num(close),
        ),
{
    let is_closed = match closed {
        Some(b) => b,
        None => false,
    };
    match (time, t_open_ms, close) {
        (Some(recv_ms), Some(t_open_ms), Some(close)) => {
            if is_closed {
                Some(Timed { recv_ms, ev: Ev::Kline { asset: owned(asset), t_open_ms, close } })
            } else {
                None
            }
        },
        _ => None,
    }
}

/// The candle in a line.
pub open spec fn kline_of(m: Map<Seq<char>, json::Leaf>, asset: Seq<char>) -> Option<(int, EvV)> {
    closed_candle(
        asset,
        line_time(m),
        json::flag_leaf(m, "/payload/data/k/x"@),
        json::whole_leaf(m, "/payload/data/k/t"@),
        written_leaf(m, "/payload/data/k/c"@),
    )
}

/// The text is blank.
pub open spec fn blank(s: Seq<char>) -> bool {
    text::trimmed(s).len() == 0
}

fn is_blank(line: &str) -> (r: bool)
    ensures
        r == blank(line@),
{
    let chars = chars_of(line);
    let rest = text::trim(chars.as_slice());
    rest.len() == 0
}

/// What a line of candles comes to.
pub open spec fn kline_line(line: Seq<char>, asset: Seq<char>, sh: u32, eh: u32) -> LineV {
    if blank(line) {
        LineV::Skip
    } else {
        match window_of(hour_in_line(vstd::utf8::encode_utf8(line)), sh, eh) {
            Win::Skip => LineV::Skip,
            Win::Stop => LineV::Stop,
            Win::Take => match json::leaves_in_text(line) {
                Some(m) => match kline_of(m, asset) {
                    Some(e) => LineV::Events(seq![e]),
                    None => LineV::Skip,
                },
                None => LineV::Skip,
            },
        }
    }
}

/// Reads a line of candles.
pub fn read_kline_line(line: &str, asset: &str, sh: u32, eh: u32) -> (r: Line)
    ensures
        r@ == kline_line(line@, asset@, sh, eh),
{
    if is_blank(line) {
        return Line::Skip;
    }
    match window(line, sh, eh) {
        Win::Skip => {
            return Line::Skip;
        },
        Win::Stop => {
            return Line::Stop;
        },
        Win::Take => {},
    }
    let v = match read_json(line) {
        Some(v) => v,
        None => {
            return Line::Skip;
        },
    };
    let close = match text_at(&v, "/payload/data/k/c") {
        Some(t) => {
            let chars = chars_of(&t);
            read_value(chars.as_slice())
        },
        None => None,
    };
    let event = make_closed_candle(
        asset,
        time_of(&v),
        flag_at(&v, "/payload/data/k/x"),
        whole_at(&v, "/payload/data/k/t"),
        close,
    );
    match event {
        Some(e) => {
            let mut events: Vec<Timed> = Vec::new();
            events.push(e);
            assert(plain(events@) =~= seq![e@]);
            Line::Events(events)
        },
        None => Line::Skip,
    }
}

/// The price of the last level of a list.
pub open spec fn last_price(m: Map<Seq<char>, json::Leaf>, at: Seq<char>) -> Option<NumV> {
    let n = record::len_of(m, at);
    if n == 0 {
        None
    } else {
        json::value_leaf(m, json::below(json::item(at, (n - 1) as nat), "price"@))
    }
}

/// The price of the last level of a list.
fn last_level(v: &Value, at: &str) -> (r: Option<Num>)
    ensures
        config::opt_num(r) == last_price(json::leaves(*v), at@),
{
    let n: usize = match len_at(v, at) {
        Some(n) => n,
        None => 0,
    };
    if n == 0 {
        None
    } else {
        let place = item_place(at, n - 1);
        value_at(v, &place_below(&place, "price"))
    }
}

/// The changes of best prices among the first `n` items of a line: items of
/// other tokens, and items without both best prices, are passed over.
pub open spec fn quotes_in(m: Map<Seq<char>, json::Leaf>, r: int, tokens: TokenSet, n: nat) -> Seq<
    (int, EvV),
>
    decreases n,
{
    if n == 0 {
        Seq::empty()
    } else {
        let before = quotes_in(m, r, tokens, (n - 1) as nat);
        let place = json::item("/payload/price_changes"@, (n - 1) as nat);
        let token = record::word_at(m, json::below(place, "asset_id"@));
        let ask = json::value_leaf(m, json::below(place, "best_ask"@));
        let bid = json::value_leaf(m, json::below(place, "best_bid"@));
        if tokens.has(token) && ask is Some && bid is Some {
            before.push(
                (
                    r,
                    EvV::Bbo {
                        token,
                        best_ask: ask,
                        best_bid: bid,
                        ts_ms: record::venue_time(m, r),
                    },
                ),
            )
        } else {
            before
        }
    }
}

/// The best prices that a line of a kind holds: of a change both as they are
/// after it, of a quote those that it gives, of a book those of its last levels.
pub open spec fn quotes_of(
    m: Map<Seq<char>, json::Leaf>,
    r: int,
    etype: Seq<char>,
    tokens: TokenSet,
) -> Seq<(int, EvV)> {
    let token = record::word_at(m, "/payload/asset_id"@);
    let ts_ms = record::venue_time(m, r);
    if etype == "price_change"@ {
        quotes_in(m, r, tokens, record::len_of(m, "/payload/price_changes"@))
    } else if !tokens.has(token) {
        Seq::empty()
    } else if etype == "best_bid_ask"@ {
        seq![
            (
                r,
                EvV::Bbo {
                    token,
                    best_ask: json::value_leaf(m, "/payload/best_ask"@),
                    best_bid: json::value_leaf(m, "/payload/best_bid"@),
                    ts_ms,
                },
            ),
        ]
    } else {
        seq![
            (
                r,
                EvV::Bbo {
                    token,
                    best_ask: last_price(m, "/payload/asks"@),
                    best_bid: last_price(m, "/payload/bids"@),
                    ts_ms,
                },
            ),
        ]
    }
}

fn read_quotes(v: &Value, recv_ms: i64, etype: &str, tokens: &TokenSet) -> (r: Vec<Timed>)
    requires
        tokens.wf(),
    ensures
        plain(r@) == quotes_of(json::leaves(*v), recv_ms as int, etype@, *tokens),
{
    let ghost m = json::leaves(*v);
    let mut out: Vec<Timed> = Vec::new();
    assert(plain(out@) =~= Seq::empty());
    let ts_ms: i64 = match whole_at(v, "/payload/timestamp") {
        Some(t) => t,
        None => recv_ms,
    };
    if same_text(etype, "price_change") {
        let n: usize = match len_at(v, "/payload/price_changes") {
            Some(n) => n,
            None => 0,
        };
        let mut i: usize = 0;
        while i < n
            invariant
                i <= n,
                tokens.wf(),
                m == json::leaves(*v),
                ts_ms == record::venue_time(m, recv_ms as int),
                plain(out@) == quotes_in(m, recv_ms as int, *tokens, i as nat),
            decreases n - i,
        {
            let place = item_place("/payload/price_changes", i);
            let token = read_word(v, &place_below(&place, "asset_id"));
            if tokens.contains(&token) {
                let best_ask = value_at(v, &place_below(&place, "best_ask"));
                let best_bid = value_at(v, &place_below(&place, "best_bid"));
                if best_ask.is_some() && best_bid.is_some() {
                    let ghost had = out@;
                    let e = Timed { recv_ms, ev: Ev::Bbo { token, best_ask, best_bid, ts_ms } };
                    out.push(e);
                    assert(plain(out@) =~= plain(had).push(e@));
                }
            }
            i += 1;
        }
        return out;
    }
    let token = read_word(v, "/payload/asset_id");
    if !tokens.contains(&token) {
        return out;
    }
    let (best_ask, best_bid) = if same_text(etype, "best_bid_ask") {
        (value_at(v, "/payload/best_ask"), value_at(v, "/payload/best_bid"))
    } else {
        (last_level(v, "/payload/asks"), last_level(v, "/payload/bids"))
    };
    let e = Timed { recv_ms, ev: Ev::Bbo { token, best_ask, best_bid, ts_ms } };
    out.push(e);
    assert(plain(out@) =~= seq![e@]);
    out
}

/// What a line of the venue comes to.
pub open spec fn pm_line(line: Seq<char>, etype: Seq<char>, tokens: TokenSet, sh: u32, eh: u32) -> LineV {
    if blank(line) {
        LineV::Skip
    } else {
        match window_of(hour_in_line(vstd::utf8::encode_utf8(line)), sh, eh) {
            Win::Skip => LineV::Skip,
            Win::Stop => LineV::Stop,
            Win::Take => match json::leaves_in_text(line) {
                Some(m) => match line_time(m) {
                    Some(r) => LineV::Events(quotes_of(m, r, etype, tokens)),
                    None => LineV::Skip,
                },
                None => LineV::Skip,
            },
        }
    }
}

/// Reads a line of the venue, of a kind.
pub fn read_pm_line(line: &str, etype: &str, tokens: &TokenSet, sh: u32, eh: u32) -> (r: Line)
    requires
        tokens.wf(),
    ensures
        r@ == pm_line(line@, etype@, *tokens, sh, eh),
{
    if is_blank(line) {
        return Line::Skip;
    }
    match window(line, sh, eh) {
        Win::Skip => {
            return Line::Skip;
        },
        Win::Stop => {
            return Line::Stop;
        },
        Win::Take => {},
    }
    let v = match read_json(line) {
        Some(v) => v,
        None => {
            return Line::Skip;
        },
    };
    match time_of(&v) {
        Some(recv_ms) => Line::Events(read_quotes(&v, recv_ms, etype, tokens)),
        None => Line::Skip,
    }
}

/// The seconds at which a window of hours begins and ends; `None` where the date
/// cannot be read.
pub fn window_seconds(date: &str, start_hour: u32, end_hour: u32) -> (r: Option<(i64, i64)>)
    ensures
        match midnight(date.spec_bytes()) {
            Some(t) => r matches Some((a, b)) && a == t + start_hour * 3600 && b == t + end_hour
                * 3600,
            None => r is None,
        },
{
    match date_midnight_sec(date) {
        Some(t) => Some((t + start_hour as i64 * 3600, t + end_hour as i64 * 3600)),
        None => None,
    }
}

/// The times of events.
pub open spec fn recv_times(s: Seq<Timed>) -> Seq<i128> {
    s.map_values(|t: Timed| t.recv_ms as i128)
}

/// Sorts events by their times; events of one time keep their order.
pub fn sort_timed(events: Vec<Timed>) -> (r: Vec<Timed>)
    ensures
        order::is_stable_sort(r@, events@, recv_times(events@)),
{
    let mut keys: Vec<i128> = Vec::new();
    let mut i: usize = 0;
    while i < events.len()
        invariant
            i <= events@.len(),
            keys@ == recv_times(events@).take(i as int),
        decreases events@.len() - i,
    {
        keys.push(events[i].recv_ms as i128);
        assert(keys@ =~= recv_times(events@).take(i + 1));
        i += 1;
    }
    assert(keys@ =~= recv_times(events@));
    sort_by_keys(events, keys.as_slice())
}

/// The best ask and the best bid of a token, and when they were seen.
#[derive(Debug, Clone, Copy)]
pub struct Quote {
    pub best_ask: Option<Num>,
    pub best_bid: Option<Num>,
    pub ts_ms: i64,
}

/// The last quote of every token.
#[derive(Debug, Clone)]
pub struct Quotes {
    tokens: Vec<String>,
    quotes: Vec<Quote>,
}

pub open spec fn is_quote_at(tokens: Seq<String>, i: int, token: Seq<char>) -> bool {
    0 <= i < tokens.len() && tokens[i]@ == token
}

impl Quotes {
    pub closed spec fn wf(self) -> bool {
        &&& self.tokens@.len() == self.quotes@.len()
        &&& forall|i: int, j: int|
            0 <= i < j < self.tokens@.len() ==> (#[trigger] self.tokens@[i])@ != (
            #[trigger] self.tokens@[j])@
    }

    /// The last quote of a token.
    pub closed spec fn last(self, token: Seq<char>) -> Option<Quote> {
        if exists|i: int| #[trigger] is_quote_at(self.tokens@, i, token) {
            Some(self.quotes@[choose|i: int| #[trigger] is_quote_at(self.tokens@, i, token)])
        } else {
            None
        }
    }

    pub fn new() -> (r: Quotes)
        ensures
            r.wf(),
            forall|t: Seq<char>| #[trigger] r.last(t) is None,
    {
        Quotes { tokens: Vec::new(), quotes: Vec::new() }
    }

    fn find(&self, token: &str) -> (r: Option<usize>)
        requires
            self.wf(),
        ensures
            match r {
                Some(i) => is_quote_at(self.tokens@, i as int, token@) && self.last(token@) == Some(
                    self.quotes@[i as int],
                ),
                None => self.last(token@) is None && forall|k: int|
                    0 <= k < self.tokens@.len() ==> (#[trigger] self.tokens@[k])@ != token@,
            },
    {
        let mut i: usize = 0;
        while i < self.tokens.len()
            invariant
                self.wf(),
                i <= self.tokens@.len(),
                forall|k: int| 0 <= k < i ==> (#[trigger] self.tokens@[k])@ != token@,
            decreases self.tokens@.len() - i,
        {
            if same_text(&self.tokens[i], token) {
                assert(is_quote_at(self.tokens@, i as int, token@));
                return Some(i);
            }
            i += 1;
        }
        None
    }

    /// The last quote of a token.
    pub fn get(&self, token: &str) -> (r: Option<Quote>)
        requires
            self.wf(),
        ensures
            r == self.last(token@),
    {
        match self.find(token) {
            Some(i) => Some(self.quotes[i]),
            None => None,
        }
    }

    /// Takes note of an event: a quote replaces the last one of its token, a
    /// candle changes nothing.
    pub fn note(&mut self, e: &Ev)
        requires
            old(self).wf(),
        ensures
            final(self).wf(),
            match *e {
                Ev::Bbo { token, best_ask, best_bid, ts_ms } => {
                    &&& final(self).last(token@) == Some(Quote { best_ask, best_bid, ts_ms })
                    &&& forall|t: Seq<char>|
                        t != token@ ==> #[trigger] final(self).last(t) == old(self).last(t)
                },
                Ev::Kline { .. } => *final(self) == *old(self),
            },
    {
        match e {
            Ev::Bbo { token, best_ask, best_bid, ts_ms } => {
                let q = Quote { best_ask: *best_ask, best_bid: *best_bid, ts_ms: *ts_ms };
                let ghost before = *self;
                match self.find(token) {
                    Some(i) => {
                        self.quotes.set(i, q);
                        assert(is_quote_at(self.tokens@, i as int, token@));
                    },
                    None => {
                        self.tokens.push(owned(token));
                        self.quotes.push(q);
                        assert(is_quote_at(self.tokens@, before.tokens@.len() as int, token@));
                    },
                }
                assert forall|t: Seq<char>| t != token@ implies #[trigger] self.last(t)
                    == before.last(t) by {
                    if exists|i: int| #[trigger] is_quote_at(self.tokens@, i, t) {
                        let i = choose|i: int| #[trigger] is_quote_at(self.tokens@, i, t);
                        assert(is_quote_at(before.tokens@, i, t));
                    }
                    if exists|i: int| #[trigger] is_quote_at(before.tokens@, i, t) {
                        let i = choose|i: int| #[trigger] is_quote_at(before.tokens@, i, t);
                        assert(is_quote_at(self.tokens@, i, t));
                    }
                }
            },
            Ev::Kline { .. } => {},
        }
    }
}

/// How often two ways to decide came to the same decision.
#[derive(Debug, Clone, Copy)]
pub struct Parity {
    pub triggers: u64,
    pub matches: u64,
    pub mismatches: u64,
}

impl Parity {
    /// Every trigger was either a match or a mismatch.
    pub open spec fn wf(self) -> bool {
        self.matches + self.mismatches == self.triggers
    }

    pub fn new() -> (r: Parity)
        ensures
            r.wf(),
            r.triggers == 0,
    {
        Parity { triggers: 0, matches: 0, mismatches: 0 }
    }

    /// Counts a candle. `first` and `second` say whether there was a decision,
    /// `same` whether the two were the same.
    pub fn note(&mut self, first: bool, second: bool, same: bool)
        requires
            old(self).wf(),
            old(self).triggers < u64::MAX,
        ensures
            final(self).wf(),
            !first && !second ==> *final(self) == *old(self),
            first || second ==> final(self).triggers == old(self).triggers + 1,
            (first || second) && same ==> final(self).matches == old(self).matches + 1,
            (first || second) && !same ==> final(self).matches == old(self).matches,
    {
        if first || second {
            self.triggers += 1;
            if same {
                self.matches += 1;
            } else {
                self.mismatches += 1;
            }
        }
    }

    /// Whether every decision was the same.
    pub fn holds(&self) -> (r: bool)
        requires
            self.wf(),
        ensures
            r == (self.matches == self.triggers),
    {
        self.mismatches == 0
    }
}

/// No line is taken that was received outside the window, as far as its hour can
/// be seen.
pub proof fn law_taken_lines_are_in_the_window(
    line: Seq<char>,
    etype: Seq<char>,
    tokens: TokenSet,
    sh: u32,
    eh: u32,
    h: int,
)
    requires
        pm_line(line, etype, tokens, sh, eh) is Events,
        hour_in_line(vstd::utf8::encode_utf8(line)) == Some(h),
    ensures
        sh <= h < eh,
{
}

} // verus!
