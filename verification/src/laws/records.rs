//! Recorded lines: what stands where, and what it comes to.

use crate::backtest::book;
use crate::backtest::merge::{Ev, TimedEvent};
use crate::backtest::record::{self, TokenSet};
use crate::bbo_dump;
use crate::capa_b::{self, EvV, LineV, Win};
use crate::config::NumV;
use crate::dates;
use crate::decimal;
use crate::json;
use crate::laws::texts;
use crate::numeral;
use crate::strategy_replay;
use crate::text;
use vstd::prelude::*;

verus! {

/// What stands at a place is read as what it is, and as nothing else.
pub proof fn law_leaves_are_what_they_are(m: Map<Seq<char>, json::Leaf>, at: Seq<char>)
    ensures
        !m.contains_key(at) ==> json::text_leaf(m, at) is None && json::number_leaf(m, at) is None
            && json::int_leaf(m, at) is None && json::flag_leaf(m, at) is None && json::list_leaf(
            m,
            at,
        ) is None,
        m.contains_key(at) ==> {
            &&& match m[at] {
                json::Leaf::Text(t) => json::text_leaf(m, at) == Some(t),
                _ => json::text_leaf(m, at) is None,
            }
            &&& match m[at] {
                json::Leaf::Number(t, n) => json::number_leaf(m, at) == Some(t) && json::int_leaf(m, at) == n,
                _ => json::number_leaf(m, at) is None && json::int_leaf(m, at) is None,
            }
            &&& match m[at] {
                json::Leaf::Flag(b) => json::flag_leaf(m, at) == Some(b),
                _ => json::flag_leaf(m, at) is None,
            }
            &&& match m[at] {
                json::Leaf::List(n) => json::list_leaf(m, at) == Some(n),
                _ => json::list_leaf(m, at) is None,
            }
        },
{
}

/// A number may stand as a number or be written in a text; a whole one has at most 64
/// bits then.
pub proof fn law_numbers_may_be_written(m: Map<Seq<char>, json::Leaf>, at: Seq<char>)
    requires
        m.contains_key(at),
    ensures
        match m[at] {
            json::Leaf::Number(t, n) => json::value_leaf(m, at) == numeral::value(t) && (n is Some
                ==> json::whole_leaf(m, at) == n) && (n is None ==> json::whole_leaf(m, at) is None),
            json::Leaf::Text(t) => json::value_leaf(m, at) == numeral::value(t)
                && match text::signed_number(t) {
                Some(n) => if -0x8000_0000_0000_0000 <= n <= 0x7fff_ffff_ffff_ffff {
                    json::whole_leaf(m, at) == Some(n)
                } else {
                    json::whole_leaf(m, at) is None
                },
                None => json::whole_leaf(m, at) is None,
            },
            _ => json::value_leaf(m, at) is None && json::whole_leaf(m, at) is None,
        },
{
}

/// Places are named from the outside to the inside, with slashes; items by their number.
pub proof fn law_places_are_named(at: Seq<char>, name: Seq<char>, i: nat)
    ensures
        json::below(at, name) == at.push('/') + name,
        json::item(at, i) == at.push('/') + decimal::digits(i),
{
    reveal_strlit("/");
    assert("/"@ =~= seq!['/']);
    assert(json::below(at, name) =~= at.push('/') + name);
    assert(json::item(at, i) =~= at.push('/') + decimal::digits(i));
}

/// A missing text is an empty one, a missing array has no items, and a line without a
/// time of the venue has that at which it was received.
pub proof fn law_what_is_missing(m: Map<Seq<char>, json::Leaf>, at: Seq<char>, r: int)
    ensures
        match json::text_leaf(m, at) {
            Some(t) => record::word_at(m, at) == t,
            None => record::word_at(m, at).len() == 0,
        },
        match json::list_leaf(m, at) {
            Some(n) => record::len_of(m, at) == n,
            None => record::len_of(m, at) == 0,
        },
        match json::whole_leaf(m, "/payload/timestamp"@) {
            Some(t) => record::venue_time(m, r) == t,
            None => record::venue_time(m, r) == r,
        },
        match json::text_leaf(m, "/received_at"@) {
            Some(t) => record::received(m) == dates::moment_in_text(t),
            None => record::received(m) is None,
        },
{
}

/// The number of two digits.
pub open spec fn of_two(a: u8, b: u8) -> int {
    10 * (a - 48) + (b - 48)
}

/// The byte is a digit.
pub open spec fn is_digit(b: u8) -> bool {
    48 <= b <= 57
}

proof fn lemma_number_at(b: Seq<u8>, from: int, to: int)
    requires
        0 <= from < to <= b.len(),
        forall|i: int| from <= i < to ==> is_digit(#[trigger] b[i]),
    ensures
        capa_b::number_at(b, from, to) == Some(
            text::number(capa_b::as_chars(b.subrange(from, to))),
        ),
        text::all_digits(capa_b::as_chars(b.subrange(from, to))),
{
    let s = capa_b::as_chars(b.subrange(from, to));
    assert forall|i: int| 0 <= i < s.len() implies text::is_digit(#[trigger] s[i]) by {
        assert(is_digit(b[from + i]));
    }
    assert(text::is_digit(s[0]));
}

proof fn lemma_two_digits(b: Seq<u8>, from: int)
    requires
        0 <= from,
        from + 2 <= b.len(),
        is_digit(b[from]),
        is_digit(b[from + 1]),
    ensures
        capa_b::number_at(b, from, from + 2) == Some(of_two(b[from], b[from + 1])),
{
    assert forall|i: int| from <= i < from + 2 implies is_digit(#[trigger] b[i]) by {}
    lemma_number_at(b, from, from + 2);
    let s = capa_b::as_chars(b.subrange(from, from + 2));
    lemma_number_of(s, 2);
    assert(s[0] == b[from] as char && s[1] == b[from + 1] as char);
}

/// The line begins as a line of the recorder does.
pub open spec fn is_recorded(b: Seq<u8>) -> bool {
    &&& b.len() >= 29
    &&& b[0] == 123 && b[1] == 34 && b[2] == 114 && b[3] == 101 && b[4] == 99 && b[5] == 101
    &&& b[6] == 105 && b[7] == 118 && b[8] == 101 && b[9] == 100 && b[10] == 95 && b[11] == 97
    &&& b[12] == 116 && b[13] == 34 && b[14] == 58 && b[15] == 34
}

proof fn lemma_start(b: Seq<u8>)
    requires
        b.len() >= 29,
    ensures
        capa_b::as_chars(b.subrange(0, 16)) == capa_b::line_start() <==> is_recorded(b),
{
    reveal_strlit("{\"received_at\":\"");
    let want = seq![
        '{',
        '"',
        'r',
        'e',
        'c',
        'e',
        'i',
        'v',
        'e',
        'd',
        '_',
        'a',
        't',
        '"',
        ':',
        '"',
    ];
    assert(capa_b::line_start() =~= want);
    let s = capa_b::as_chars(b.subrange(0, 16));
    assert(s.len() == 16);
    if s == capa_b::line_start() {
        assert forall|i: int| 0 <= i < 16 implies b[i] as char == #[trigger] want[i] by {
            assert(s[i] == want[i]);
        }
        assert(want[0] == '{' && want[1] == '"' && want[2] == 'r' && want[3] == 'e' && want[4] == 'c'
            && want[5] == 'e' && want[6] == 'i' && want[7] == 'v' && want[8] == 'e' && want[9] == 'd'
            && want[10] == '_' && want[11] == 'a' && want[12] == 't' && want[13] == '"' && want[14]
            == ':' && want[15] == '"');
    }
    if is_recorded(b) {
        assert(s =~= want);
    }
}

/// The hour of a recorded line is its 28th and 29th characters. A line that begins
/// otherwise, or is too short, shows none.
pub proof fn law_the_hour_stands_in_its_place(b: Seq<u8>)
    ensures
        !is_recorded(b) ==> capa_b::hour_in_line(b) is None,
        is_recorded(b) && is_digit(b[27]) && is_digit(b[28]) ==> capa_b::hour_in_line(b) == Some(
            of_two(b[27], b[28]),
        ),
        is_recorded(b) && !is_digit(b[28]) ==> capa_b::hour_in_line(b) is None,
{
    if b.len() >= 29 {
        lemma_start(b);
        let s = capa_b::as_chars(b.subrange(27, 29));
        assert(s.len() == 2 && s[1] == b[28] as char);
        if is_recorded(b) && is_digit(b[27]) && is_digit(b[28]) {
            lemma_two_digits(b, 27);
        }
        if !is_digit(b[28]) {
            texts::law_other_texts_are_no_numbers(s, 1);
        }
    }
}

/// A line is passed over before the first hour of the window, ends it from the last hour
/// on, and is taken between them, or where it shows no hour.
pub proof fn law_lines_of_the_window_are_taken(hour: Option<int>, sh: u32, eh: u32)
    ensures
        hour is None ==> capa_b::window_of(hour, sh, eh) == Win::Take,
        hour matches Some(h) ==> {
            &&& h < sh <==> capa_b::window_of(hour, sh, eh) == Win::Skip
            &&& h >= sh && h >= eh <==> capa_b::window_of(hour, sh, eh) == Win::Stop
            &&& sh <= h < eh <==> capa_b::window_of(hour, sh, eh) == Win::Take
        },
{
}

proof fn lemma_run(b: Seq<u8>, from: int, end: int)
    requires
        0 <= from <= end <= b.len(),
        forall|i: int| from <= i < end ==> is_digit(#[trigger] b[i]),
        end < b.len() ==> !is_digit(b[end]),
    ensures
        capa_b::digit_run(b, from) == end,
    decreases end - from,
{
    if from < end {
        assert(is_digit(b[from]));
        lemma_run(b, from + 1, end);
    }
}

/// The fraction of a second stands behind a point: its first three digits are the
/// milliseconds, those that are missing count as 0, further ones do not count.
pub proof fn law_fractions_are_milliseconds(b: Seq<u8>, end: int)
    requires
        b.len() > 20,
        20 <= end <= b.len(),
        forall|i: int| 20 <= i < end ==> is_digit(#[trigger] b[i]),
        end < b.len() ==> !is_digit(b[end]),
    ensures
        b[19] != 46 ==> capa_b::fraction_ms(b) == 0,
        b[19] == 46 ==> capa_b::fraction_ms(b) == 100 * digit_at(b, 20, end) + 10 * digit_at(b, 21, end)
            + digit_at(b, 22, end),
{
    lemma_run(b, 20, end);
    let cut = if end > 26 {
        26
    } else {
        end
    };
    let s = capa_b::as_chars(b.subrange(20, cut));
    decimal_powers();
    if b[19] == 46 {
        let n = cut - 20;
        assert forall|i: int| 0 <= i < n implies text::digit_value(#[trigger] s[i]) == b[20 + i] - 48
            by {
            assert(is_digit(b[20 + i]));
        }
        lemma_number_of(s, n);
        if n == 0 {
        } else if n == 1 {
            assert(text::number(s) == text::digit_value(s[0]));
        } else if n == 2 {
            assert(text::number(s) == 10 * text::digit_value(s[0]) + text::digit_value(s[1]));
        } else {
            let front = s.take(3);
            let rest = s.skip(3);
            assert(s =~= front + rest);
            texts::law_digits_have_places(front, rest);
            assert(text::all_digits(rest)) by {
                assert forall|i: int| 0 <= i < rest.len() implies text::is_digit(#[trigger] rest[i]) by {
                    assert(is_digit(b[23 + i]));
                }
            }
            lemma_number_bound(rest);
            lemma_number_of(front, 3);
            let (a, r) = (text::number(front), text::number(rest));
            assert(front[0] == s[0] && front[1] == s[1] && front[2] == s[2]);
            assert(a == 100 * text::digit_value(s[0]) + 10 * text::digit_value(s[1])
                + text::digit_value(s[2]));
            if n == 3 {
                assert(rest.len() == 0 && r == 0);
                assert(text::number(s) == a * 1 + r && decimal::pow10((26 - cut) as nat) == 1000);
            } else if n == 4 {
                assert(rest.len() == 1 && (26 - cut) as nat == 2);
                assert(text::number(s) == a * 10 + r && r < 10);
            } else if n == 5 {
                assert(rest.len() == 2 && (26 - cut) as nat == 1);
                assert(text::number(s) == a * 100 + r && r < 100);
            } else {
                assert(rest.len() == 3 && (26 - cut) as nat == 0);
                assert(text::number(s) == a * 1000 + r && r < 1000);
            }
            assert((text::number(s) * decimal::pow10((26 - cut) as nat)) / 1000 == a);
        }
    }
}

proof fn decimal_powers()
    ensures
        decimal::pow10(0) == 1,
        decimal::pow10(1) == 10,
        decimal::pow10(2) == 100,
        decimal::pow10(3) == 1000,
        decimal::pow10(4) == 10_000,
        decimal::pow10(5) == 100_000,
        decimal::pow10(6) == 1_000_000,
{
    reveal_with_fuel(decimal::pow10, 8);
}

proof fn lemma_number_of(s: Seq<char>, n: int)
    requires
        s.len() == n,
    ensures
        n == 0 ==> text::number(s) == 0,
        n == 1 ==> text::number(s) == text::digit_value(s[0]),
        n == 2 ==> text::number(s) == 10 * text::digit_value(s[0]) + text::digit_value(s[1]),
        n == 3 ==> text::number(s) == 100 * text::digit_value(s[0]) + 10 * text::digit_value(s[1])
            + text::digit_value(s[2]),
{
    reveal_with_fuel(text::number, 5);
}

proof fn lemma_number_bound(s: Seq<char>)
    requires
        text::all_digits(s),
    ensures
        0 <= text::number(s) < decimal::pow10(s.len()),
    decreases s.len(),
{
    if s.len() > 0 {
        let t = s.drop_last();
        assert forall|i: int| 0 <= i < t.len() implies text::is_digit(#[trigger] t[i]) by {
            assert(t[i] == s[i]);
        }
        lemma_number_bound(t);
        assert(text::is_digit(s[s.len() - 1]));
    } else {
        assert(decimal::pow10(0) == 1);
    }
}

/// The digit at a place, or 0 behind the last one.
pub open spec fn digit_at(b: Seq<u8>, i: int, end: int) -> int {
    if i < end {
        b[i] - 48
    } else {
        0
    }
}

/// The time of a text is that of its day, its hour, its minute, its second and its
/// fraction, each in its place.
pub proof fn law_times_are_of_day_and_hour(b: Seq<u8>)
    ensures
        b.len() < 19 ==> capa_b::received(b) is None,
        b.len() < 10 ==> capa_b::midnight(b) is None,
        b.len() >= 19 && is_digit(b[11]) && is_digit(b[12]) && is_digit(b[14]) && is_digit(b[15])
            && is_digit(b[17]) && is_digit(b[18]) ==> match capa_b::midnight(b) {
            None => capa_b::received(b) is None,
            Some(start) => {
                let (h, m, s) = (of_two(b[11], b[12]), of_two(b[14], b[15]), of_two(b[17], b[18]));
                capa_b::received(b) == Some(
                    (
                        (start + 60 * (60 * h + m) + s) * 1000 + capa_b::fraction_ms(b),
                        h,
                    ),
                )
            },
        },
{
    if b.len() >= 19 && is_digit(b[11]) && is_digit(b[12]) && is_digit(b[14]) && is_digit(b[15])
        && is_digit(b[17]) && is_digit(b[18]) {
        lemma_two_digits(b, 11);
        lemma_two_digits(b, 14);
        lemma_two_digits(b, 17);
    }
}

/// A day begins so many times 86400 seconds after the first one; its year has four
/// digits, its month and its day two each.
pub proof fn law_days_begin_at_midnight(b: Seq<u8>)
    requires
        b.len() >= 10,
        is_digit(b[0]) && is_digit(b[1]) && is_digit(b[2]) && is_digit(b[3]),
        is_digit(b[5]) && is_digit(b[6]),
        is_digit(b[8]) && is_digit(b[9]),
    ensures
        ({
            let y = 100 * of_two(b[0], b[1]) + of_two(b[2], b[3]);
            capa_b::midnight(b) == Some(
                86_400 * dates::civil_days(y, of_two(b[5], b[6]), of_two(b[8], b[9])),
            )
        }),
{
    lemma_two_digits(b, 5);
    lemma_two_digits(b, 8);
    lemma_two_digits(b, 0);
    lemma_two_digits(b, 2);
    assert forall|i: int| 0 <= i < 4 implies is_digit(#[trigger] b[i]) by {}
    lemma_number_at(b, 0, 4);
    let s = capa_b::as_chars(b.subrange(0, 4));
    let (x, y) = (
        capa_b::as_chars(b.subrange(0, 2)),
        capa_b::as_chars(b.subrange(2, 4)),
    );
    assert(s =~= x + y);
    texts::law_digits_have_places(x, y);
    decimal_powers();
    lemma_number_at(b, 0, 2);
    lemma_number_at(b, 2, 4);
}

/// A candle is taken where it is closed and its time, its beginning and its close are
/// known.
pub proof fn law_only_closed_candles_are_taken(
    asset: Seq<char>,
    time: Option<int>,
    closed: Option<bool>,
    t_open_ms: Option<int>,
    close: Option<NumV>,
)
    ensures
        match capa_b::closed_candle(asset, time, closed, t_open_ms, close) {
            Some((r, e)) => closed == Some(true) && time == Some(r) && (e matches EvV::Kline {
                asset: a,
                t_open_ms: t,
                close: c,
            } && a == asset && t_open_ms == Some(t) && close == Some(c)),
            None => closed != Some(true) || time is None || t_open_ms is None || close is None,
        },
{
}

/// Where the parts of a candle stand in a line of the first kind.
pub proof fn law_where_a_candle_stands(m: Map<Seq<char>, json::Leaf>, asset: Seq<char>)
    ensures
        capa_b::kline_of(m, asset) == capa_b::closed_candle(
            asset,
            capa_b::line_time(m),
            json::flag_leaf(m, "/payload/data/k/x"@),
            json::whole_leaf(m, "/payload/data/k/t"@),
            match json::text_leaf(m, "/payload/data/k/c"@) {
                Some(t) => numeral::value(t),
                None => None,
            },
        ),
        match json::text_leaf(m, "/received_at"@) {
            Some(t) => match capa_b::received(vstd::utf8::encode_utf8(t)) {
                Some((ms, _)) => capa_b::line_time(m) == Some(ms),
                None => capa_b::line_time(m) is None,
            },
            None => capa_b::line_time(m) is None,
        },
{
}

/// A line that is nothing but white space is blank.
pub proof fn law_blank_lines_are_white(s: Seq<char>)
    ensures
        capa_b::blank(s) <==> texts::blank(s),
{
    texts::law_only_the_white_space_around_is_taken(s);
    let t = text::trimmed(s);
    let (a, b) = choose|a: Seq<char>, b: Seq<char>|
        #![trigger texts::blank(a), texts::blank(b)]
        texts::blank(a) && texts::blank(b) && s == a + t + b;
    if t.len() > 0 {
        assert(s[a.len() as int] == t[0]);
    } else {
        assert forall|i: int| 0 <= i < s.len() implies texts::white((#[trigger] s[i]) as int) by {
            if i < a.len() {
                assert(s[i] == a[i]);
            } else {
                assert(s[i] == b[i - a.len()]);
            }
        }
    }
}

/// A line of candles is passed over where it is blank, before the window, not readable
/// or without a closed candle; behind the window it ends it; else it is its candle.
pub proof fn law_lines_of_candles(line: Seq<char>, asset: Seq<char>, sh: u32, eh: u32)
    ensures
        ({
            let r = capa_b::kline_line(line, asset, sh, eh);
            let win = capa_b::window_of(
                capa_b::hour_in_line(vstd::utf8::encode_utf8(line)),
                sh,
                eh,
            );
            let candle = match json::leaves_in_text(line) {
                Some(m) => capa_b::kline_of(m, asset),
                None => None,
            };
            if texts::blank(line) || win == Win::Skip {
                r is Skip
            } else if win == Win::Stop {
                r is Stop
            } else {
                match candle {
                    Some(e) => r == LineV::Events(seq![e]),
                    None => r is Skip,
                }
            }
        }),
{
    law_blank_lines_are_white(line);
}

/// A line of the venue is passed over where it is blank, before the window, not readable
/// or without a time; behind the window it ends it; else it is its quotes.
pub proof fn law_lines_of_the_venue(
    line: Seq<char>,
    etype: Seq<char>,
    tokens: TokenSet,
    sh: u32,
    eh: u32,
)
    ensures
        ({
            let r = capa_b::pm_line(line, etype, tokens, sh, eh);
            let win = capa_b::window_of(
                capa_b::hour_in_line(vstd::utf8::encode_utf8(line)),
                sh,
                eh,
            );
            if texts::blank(line) || win == Win::Skip {
                r is Skip
            } else if win == Win::Stop {
                r is Stop
            } else {
                match json::leaves_in_text(line) {
                    Some(m) => match capa_b::line_time(m) {
                        Some(t) => r == LineV::Events(capa_b::quotes_of(m, t, etype, tokens)),
                        None => r is Skip,
                    },
                    None => r is Skip,
                }
            }
        }),
{
    law_blank_lines_are_white(line);
}

/// The best price of a list of levels is that of its last one.
pub proof fn law_the_last_level_is_the_best(m: Map<Seq<char>, json::Leaf>, at: Seq<char>)
    ensures
        record::len_of(m, at) == 0 ==> capa_b::last_price(m, at) is None,
        record::len_of(m, at) > 0 ==> capa_b::last_price(m, at) == json::value_leaf(
            m,
            json::below(json::item(at, (record::len_of(m, at) - 1) as nat), "price"@),
        ),
{
}

/// Of a line of changes every item of a known token with both best prices is a quote.
pub proof fn law_changes_with_both_prices_are_quotes(
    m: Map<Seq<char>, json::Leaf>,
    r: int,
    tokens: TokenSet,
    n: nat,
)
    ensures
        capa_b::quotes_in(m, r, tokens, 0) == Seq::<(int, EvV)>::empty(),
        ({
            let place = json::item("/payload/price_changes"@, n);
            let token = record::word_at(m, json::below(place, "asset_id"@));
            let ask = json::value_leaf(m, json::below(place, "best_ask"@));
            let bid = json::value_leaf(m, json::below(place, "best_bid"@));
            let before = capa_b::quotes_in(m, r, tokens, n);
            let after = capa_b::quotes_in(m, r, tokens, n + 1);
            &&& tokens.has(token) && ask is Some && bid is Some ==> after == before.push(
                (
                    r,
                    EvV::Bbo {
                        token,
                        best_ask: ask,
                        best_bid: bid,
                        ts_ms: record::venue_time(m, r),
                    },
                ),
            )
            &&& !(tokens.has(token) && ask is Some && bid is Some) ==> after == before
        }),
{
}

/// A line of changes has the quotes of its items; any other one quote, of a known token
/// only: a line of best prices those that it gives, a book those of its last levels.
pub proof fn law_quotes_go_by_the_kind_of_the_line(
    m: Map<Seq<char>, json::Leaf>,
    r: int,
    etype: Seq<char>,
    tokens: TokenSet,
)
    ensures
        ({
            let token = record::word_at(m, "/payload/asset_id"@);
            let ts_ms = record::venue_time(m, r);
            let q = capa_b::quotes_of(m, r, etype, tokens);
            if etype == "price_change"@ {
                q == capa_b::quotes_in(m, r, tokens, record::len_of(m, "/payload/price_changes"@))
            } else if !tokens.has(token) {
                q.len() == 0
            } else {
                &&& q.len() == 1 && q[0].0 == r
                &&& q[0].1 matches EvV::Bbo { token: t, best_ask, best_bid, ts_ms: at }
                &&& t == token && at == ts_ms
                &&& etype == "best_bid_ask"@ ==> best_ask == json::value_leaf(
                    m,
                    "/payload/best_ask"@,
                ) && best_bid == json::value_leaf(m, "/payload/best_bid"@)
                &&& etype != "best_bid_ask"@ ==> best_ask == capa_b::last_price(
                    m,
                    "/payload/asks"@,
                ) && best_bid == capa_b::last_price(m, "/payload/bids"@)
            }
        }),
{
}

/// A level needs a price and a size; its key is that of the price.
pub proof fn law_levels_need_price_and_size(price: Option<NumV>, size: Option<NumV>, side: Seq<char>)
    ensures
        match (price, size) {
            (Some(p), Some(s)) => record::level_of(price, size) == Some(
                (book::key_of_number(p) as u32, s),
            ),
            _ => record::level_of(price, size) is None,
        },
        match (record::level_of(price, size), book::side_of(side)) {
            (Some(l), Some(side_of)) => record::change_of(price, size, side) == Some(
                (l.0, l.1, side_of),
            ),
            _ => record::change_of(price, size, side) is None,
        },
{
}

/// A candle needs the time at which it was received, one above 0 at which it began, and a
/// close.
pub proof fn law_candles_begin_at_a_time(
    recv_ms: Option<int>,
    t_open_ms: Option<int>,
    close: Option<NumV>,
)
    ensures
        match record::candle_of(recv_ms, t_open_ms, close) {
            Some((r, t, c)) => recv_ms == Some(r) && t_open_ms == Some(t) && close == Some(c) && t
                > 0,
            None => recv_ms is None || t_open_ms is None || close is None || t_open_ms->0 <= 0,
        },
{
}

/// A candle stands at the innermost of three places that is there.
pub proof fn law_candles_stand_at_one_of_three_places(m: Map<Seq<char>, json::Leaf>)
    ensures
        ({
            let at = record::candle_place(m);
            let (deep, flat) = ("/payload/data/k"@, "/payload/k"@);
            &&& m.contains_key(deep) ==> at == deep
            &&& !m.contains_key(deep) && m.contains_key(flat) ==> at == flat
            &&& !m.contains_key(deep) && !m.contains_key(flat) ==> at == "/payload"@
            &&& record::candle_in(m) == record::candle_of(
                record::received(m),
                json::int_leaf(m, json::below(at, "t"@)),
                json::value_leaf(m, json::below(at, "c"@)),
            )
        }),
{
}

/// The levels of a list are those of its items that have a price and a size, in their
/// order.
pub proof fn law_levels_are_listed(m: Map<Seq<char>, json::Leaf>, at: Seq<char>, n: nat)
    ensures
        record::levels_at(m, at, 0) == Seq::<(u32, NumV)>::empty(),
        ({
            let place = json::item(at, n);
            let level = record::level_of(
                json::value_leaf(m, json::below(place, "price"@)),
                json::value_leaf(m, json::below(place, "size"@)),
            );
            let before = record::levels_at(m, at, n);
            &&& level matches Some(l) ==> record::levels_at(m, at, n + 1) == before.push(l)
            &&& level is None ==> record::levels_at(m, at, n + 1) == before
        }),
{
}

/// A snapshot is of the token of its line, with all its bids and asks.
pub proof fn law_snapshots_have_both_sides(e: TimedEvent, m: Map<Seq<char>, json::Leaf>, r: int)
    requires
        record::is_snapshot(e, m, r),
    ensures
        e.recv_ms == r,
        e.ev matches Ev::BookSnapshot { token, bids, asks, ts_ms } && {
            &&& token@ == record::word_at(m, "/payload/asset_id"@)
            &&& ts_ms == record::venue_time(m, r)
            &&& record::level_values(bids@) == record::levels_at(
                m,
                "/payload/bids"@,
                record::len_of(m, "/payload/bids"@),
            )
            &&& record::level_values(asks@) == record::levels_at(
                m,
                "/payload/asks"@,
                record::len_of(m, "/payload/asks"@),
            )
        },
{
}

/// The changes of a line are those of its items that are of a known token and have a
/// price, a size and a side.
pub proof fn law_changes_are_of_known_tokens(
    m: Map<Seq<char>, json::Leaf>,
    r: int,
    tokens: TokenSet,
    n: nat,
)
    ensures
        record::changes_in(m, r, tokens, 0).len() == 0,
        ({
            let place = json::item("/payload/price_changes"@, n);
            let token = record::word_at(m, json::below(place, "asset_id"@));
            let change = record::change_of(
                json::value_leaf(m, json::below(place, "price"@)),
                json::value_leaf(m, json::below(place, "size"@)),
                record::word_at(m, json::below(place, "side"@)),
            );
            let before = record::changes_in(m, r, tokens, n);
            let after = record::changes_in(m, r, tokens, n + 1);
            if tokens.has(token) && change is Some {
                let c = after.last();
                &&& after == before.push(c)
                &&& c.recv_ms == r && c.token == token && c.ts_ms == record::venue_time(m, r)
                &&& Some((c.key, c.size, c.side)) == change
            } else {
                after == before
            }
        }),
{
    let before = record::changes_in(m, r, tokens, n);
    let after = record::changes_in(m, r, tokens, n + 1);
    if after.len() > before.len() {
        assert(after =~= before.push(after.last()));
    }
}

/// The strategy trades two assets, each in two intervals.
pub proof fn law_the_markets_of_the_strategy(asset: Seq<char>, interval: Seq<char>)
    ensures
        bbo_dump::is_strategy_market(asset, interval) <==> (asset == seq!['B', 'T', 'C'] || asset
            == seq!['E', 'T', 'H']) && (interval == seq!['5', 'm'] || interval == seq![
            '1',
            '5',
            'm',
        ]),
{
    reveal_strlit("BTC");
    reveal_strlit("ETH");
    reveal_strlit("5m");
    reveal_strlit("15m");
    assert("BTC"@ =~= seq!['B', 'T', 'C']);
    assert("ETH"@ =~= seq!['E', 'T', 'H']);
    assert("5m"@ =~= seq!['5', 'm']);
    assert("15m"@ =~= seq!['1', '5', 'm']);
}

/// A line has two tokens, one for each outcome, where its market is one of the
/// strategy's; an empty one is none.
pub proof fn law_a_market_has_two_tokens(m: Map<Seq<char>, json::Leaf>, token: Seq<char>)
    ensures
        bbo_dump::is_strategy_token(m, token) <==> {
            &&& bbo_dump::is_strategy_market(
                record::word_at(m, "/market/asset"@),
                record::word_at(m, "/market/interval"@),
            )
            &&& token.len() > 0
            &&& json::text_leaf(m, "/market/up_token_id"@) == Some(token) || json::text_leaf(
                m,
                "/market/down_token_id"@,
            ) == Some(token)
        },
{
}

/// The tokens that a line touches: of changes those with both best prices, at one of two
/// places; else the one that it is of. Only known tokens count.
pub proof fn law_touched_tokens_are_known(
    m: Map<Seq<char>, json::Leaf>,
    etype: Seq<char>,
    tokens: TokenSet,
    at: Seq<char>,
    n: nat,
)
    ensures
        m.contains_key("/payload/price_changes"@) ==> bbo_dump::changes_place(m)
            == "/payload/price_changes"@,
        !m.contains_key("/payload/price_changes"@) ==> bbo_dump::changes_place(m)
            == "/payload/changes"@,
        etype == "price_change"@ ==> bbo_dump::touched(m, etype, tokens) == bbo_dump::changed(
            m,
            bbo_dump::changes_place(m),
            tokens,
            record::len_of(m, bbo_dump::changes_place(m)),
        ),
        etype != "price_change"@ ==> match json::text_leaf(m, "/payload/asset_id"@) {
            Some(t) => if tokens.has(t) {
                bbo_dump::touched(m, etype, tokens) == seq![t]
            } else {
                bbo_dump::touched(m, etype, tokens).len() == 0
            },
            None => bbo_dump::touched(m, etype, tokens).len() == 0,
        },
        bbo_dump::changed(m, at, tokens, 0).len() == 0,
        ({
            let place = json::item(at, n);
            let before = bbo_dump::changed(m, at, tokens, n);
            let after = bbo_dump::changed(m, at, tokens, n + 1);
            let both = m.contains_key(json::below(place, "best_ask"@)) && m.contains_key(
                json::below(place, "best_bid"@),
            );
            match json::text_leaf(m, json::below(place, "asset_id"@)) {
                Some(t) => if both && tokens.has(t) {
                    after == before.push(t)
                } else {
                    after == before
                },
                None => after == before,
            }
        }),
{
}

/// The set of tokens has those that are listed in it.
pub proof fn law_a_set_has_its_tokens(tokens: TokenSet, token: Seq<char>)
    ensures
        tokens.has(token) <==> exists|i: int|
            0 <= i < tokens.names().len() && (#[trigger] tokens.names()[i])@ == token,
{
}

/// A number as a decimal: without end it is the largest there is, and what is not a
/// number is none.
pub proof fn law_endless_numbers_are_the_largest(d: decimal::DecV)
    ensures
        strategy_replay::bounded(NumV::Finite(d)) == Some(d),
        strategy_replay::bounded(NumV::NotANumber) is None,
        strategy_replay::bounded(NumV::Infinite { negative: false }) matches Some(x) && x.s == 0 && x.m
            == 79_228_162_514_264_337_593_543_950_335,
        strategy_replay::bounded(NumV::Infinite { negative: true }) matches Some(x) && x.s == 0 && x.m
            == -79_228_162_514_264_337_593_543_950_335,
{
}

/// A pair is an array whose first item is a whole number and whose second is a number;
/// other items of a list of pairs are passed over.
pub proof fn law_pairs_are_an_offset_and_a_bid(m: Map<Seq<char>, json::Leaf>, at: Seq<char>, n: nat)
    ensures
        ({
            let (list, offset, bid) = (
                json::list_leaf(m, at),
                json::int_leaf(m, at.push('/') + seq!['0']),
                strategy_replay::number_in(m, at.push('/') + seq!['1']),
            );
            match strategy_replay::pair_at(m, at) {
                Some((o, b)) => list is Some && offset == Some(o) && bid == Some(b),
                None => list is None || offset is None || bid is None,
            }
        }),
        strategy_replay::pairs_at(m, at, 0).len() == 0,
        match strategy_replay::pair_at(m, json::item(at, n)) {
            Some(p) => strategy_replay::pairs_at(m, at, n + 1) == strategy_replay::pairs_at(
                m,
                at,
                n,
            ).push(p),
            None => strategy_replay::pairs_at(m, at, n + 1) == strategy_replay::pairs_at(m, at, n),
        },
        match json::number_leaf(m, at) {
            Some(t) => match numeral::value(t) {
                Some(v) => strategy_replay::number_in(m, at) == strategy_replay::bounded(v),
                None => strategy_replay::number_in(m, at) is None,
            },
            None => strategy_replay::number_in(m, at) is None,
        },
{
    law_places_are_named(at, decimal::digits(0), 0);
    law_places_are_named(at, decimal::digits(1), 1);
    assert(decimal::digits(0) =~= seq!['0']);
    assert(decimal::digits(1) =~= seq!['1']);
}

/// Where the parts of a recorded trade stand. An amount that is not given is 0, and a
/// trade without an exit price is sold at what was paid.
pub proof fn law_where_a_trade_stands(m: Map<Seq<char>, json::Leaf>)
    ensures
        ({
            let t = strategy_replay::trade_of(m);
            &&& t.signal_id == record::word_at(m, "/signal_id"@)
            &&& t.asset == record::word_at(m, "/asset"@)
            &&& t.interval == record::word_at(m, "/interval"@)
            &&& match strategy_replay::number_in(m, "/entry_price"@) {
                Some(d) => t.entry == d,
                None => t.entry == decimal::dec(0, 0),
            }
            &&& match strategy_replay::number_in(m, "/shares"@) {
                Some(d) => t.shares == d,
                None => t.shares == decimal::dec(0, 0),
            }
            &&& match strategy_replay::number_in(m, "/baseline_exit_price"@) {
                Some(d) => t.time_exit_bid == d,
                None => t.time_exit_bid == t.entry,
            }
            &&& t.hwm == strategy_replay::pairs_at(
                m,
                "/hwm_120s"@,
                record::len_of(m, "/hwm_120s"@),
            )
            &&& t.lwm == strategy_replay::pairs_at(
                m,
                "/lwm_120s"@,
                record::len_of(m, "/lwm_120s"@),
            )
        }),
{
}

/// A line is a trade where it can be read, and none where it cannot.
pub proof fn law_readable_lines_are_trades(line: Seq<char>)
    ensures
        match json::leaves_in_text(line) {
            Some(m) => strategy_replay::trade_in_line(line) == Some(strategy_replay::trade_of(m))
                && record::received_in_line(line) == record::received(m),
            None => strategy_replay::trade_in_line(line) is None && record::received_in_line(
                line,
            ) is None,
        },
{
}

} // verus!
