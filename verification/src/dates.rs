//! Calendar dates: counting days, reading and writing dates, and ranges of dates.

use crate::decimal;
use chrono::{Datelike, NaiveDate};
use vstd::prelude::*;

verus! {

/// The first and the last year that a date can have.
pub const MIN_YEAR: i32 = -262143;

pub const MAX_YEAR: i32 = 262142;

/// A date of the Gregorian calendar.
#[derive(Clone, Copy, Debug, PartialEq, Eq, Structural)]
pub struct CivilDate {
    pub year: i32,
    pub month: u32,
    pub day: u32,
}

pub open spec fn is_leap(y: int) -> bool {
    y % 4 == 0 && (y % 100 != 0 || y % 400 == 0)
}

/// The number of days of a month.
pub open spec fn month_len(y: int, m: int) -> int {
    if m == 2 {
        if is_leap(y) {
            29
        } else {
            28
        }
    } else if m == 4 || m == 6 || m == 9 || m == 11 {
        30
    } else {
        31
    }
}

pub open spec fn valid_date(d: CivilDate) -> bool {
    &&& MIN_YEAR <= d.year <= MAX_YEAR
    &&& 1 <= d.month <= 12
    &&& 1 <= d.day <= month_len(d.year as int, d.month as int)
}

/// `a` comes before `b`.
pub open spec fn before(a: CivilDate, b: CivilDate) -> bool {
    a.year < b.year || (a.year == b.year && (a.month < b.month || (a.month == b.month && a.day
        < b.day)))
}

/// The day after `d`.
pub open spec fn next_date(d: CivilDate) -> CivilDate {
    if d.day < month_len(d.year as int, d.month as int) {
        CivilDate { day: (d.day + 1) as u32, ..d }
    } else if d.month < 12 {
        CivilDate { year: d.year, month: (d.month + 1) as u32, day: 1 }
    } else {
        CivilDate { year: (d.year + 1) as i32, month: 1, day: 1 }
    }
}

/// The last date there is.
pub open spec fn is_last(d: CivilDate) -> bool {
    d.year == MAX_YEAR && d.month == 12 && d.day == 31
}

/// The first date there is.
pub open spec fn is_first(d: CivilDate) -> bool {
    d.year == MIN_YEAR && d.month == 1 && d.day == 1
}

/// The number of days from 1970-01-01 to the given date. The year is taken to
/// begin in March, so that the leap day is its last.
pub open spec fn civil_days(y: int, m: int, d: int) -> int {
    let yy = if m <= 2 {
        y - 1
    } else {
        y
    };
    let mp = if m > 2 {
        m - 3
    } else {
        m + 9
    };
    365 * yy + yy / 4 - yy / 100 + yy / 400 + (153 * mp + 2) / 5 + d - 1 - 719468
}

pub open spec fn day_number(d: CivilDate) -> int {
    civil_days(d.year as int, d.month as int, d.day as int)
}

/// The number of days from 1970-01-01 to the given date.
pub fn days_from_civil(y: i64, m: i64, d: i64) -> (r: i64)
    requires
        -1_000_000_000_000 <= y <= 1_000_000_000_000,
        -9 <= m <= 1_000_000,
        -1_000_000_000 <= d <= 1_000_000_000,
    ensures
        r == civil_days(y as int, m as int, d as int),
{
    let yy: i64 = if m <= 2 {
        y - 1
    } else {
        y
    };
    let shifted: i64 = if yy >= 0 {
        yy
    } else {
        yy - 399
    };
    let era: i64 = if shifted >= 0 {
        shifted / 400
    } else {
        -((-shifted) / 400)
    };
    assert(era == yy as int / 400);
    let yoe: i64 = yy - era * 400;
    assert(0 <= yoe < 400);
    let mp: i64 = if m > 2 {
        m - 3
    } else {
        m + 9
    };
    let doy: i64 = (153 * mp + 2) / 5 + d - 1;
    let doe: i64 = yoe * 365 + yoe / 4 - yoe / 100 + doy;
    assert(yoe as int / 4 == yy as int / 4 - 100 * era);
    assert(yoe as int / 100 == yy as int / 100 - 4 * era);
    era * 146_097 + doe - 719_468
}

/// The day count starts at 1970-01-01.
pub proof fn law_epoch_is_day_zero()
    ensures
        civil_days(1970, 1, 1) == 0,
{
}

/// By how much the leap days before a year exceed those before the last one.
proof fn lemma_leap_days(y: int)
    ensures
        y / 4 - y / 100 + y / 400 == (y - 1) / 4 - (y - 1) / 100 + (y - 1) / 400 + (if is_leap(y) {
            1int
        } else {
            0int
        }),
{
    assert(y / 4 == (y - 1) / 4 + (if y % 4 == 0 {
        1int
    } else {
        0int
    }));
    assert(y / 100 == (y - 1) / 100 + (if y % 100 == 0 {
        1int
    } else {
        0int
    }));
    assert(y / 400 == (y - 1) / 400 + (if y % 400 == 0 {
        1int
    } else {
        0int
    }));
    assert(y % 400 == 0 ==> y % 100 == 0);
    assert(y % 100 == 0 ==> y % 4 == 0);
}

/// One month is as many days long as the calendar says.
#[verifier::spinoff_prover]
proof fn lemma_month_steps(y: int, m: int)
    requires
        1 <= m <= 12,
    ensures
        m < 12 ==> civil_days(y, m + 1, 1) == civil_days(y, m, 1) + month_len(y, m),
        m == 12 ==> civil_days(y + 1, 1, 1) == civil_days(y, m, 1) + month_len(y, m),
{
    lemma_leap_days(y);
    if m == 1 {
    } else if m == 2 {
    } else if m == 3 {
    } else if m == 4 {
    } else if m == 5 {
    } else if m == 6 {
    } else if m == 7 {
    } else if m == 8 {
    } else if m == 9 {
    } else if m == 10 {
    } else if m == 11 {
    } else {
    }
}

/// Every day of every year is followed by the day with the next number: the next
/// of its month, or the first of the next month, or the first of the next year.
pub proof fn law_days_follow_each_other(y: int, m: int, d: int)
    requires
        1 <= m <= 12,
        1 <= d <= month_len(y, m),
    ensures
        d < month_len(y, m) ==> civil_days(y, m, d + 1) == civil_days(y, m, d) + 1,
        d == month_len(y, m) && m < 12 ==> civil_days(y, m + 1, 1) == civil_days(y, m, d) + 1,
        d == month_len(y, m) && m == 12 ==> civil_days(y + 1, 1, 1) == civil_days(y, m, d) + 1,
{
    lemma_month_steps(y, m);
}

/// What 400 years more do to the counts of leap years.
#[verifier::spinoff_prover]
proof fn lemma_four_centuries(x: int)
    ensures
        (x + 400) / 4 == x / 4 + 100,
        (x + 400) / 100 == x / 100 + 4,
        (x + 400) / 400 == x / 400 + 1,
        (x + 400) % 4 == x % 4,
        (x + 400) % 100 == x % 100,
        (x + 400) % 400 == x % 400,
{
}

/// The calendar repeats itself every 400 years, which are 146097 days.
#[verifier::spinoff_prover]
pub proof fn law_calendar_repeats(y: int, m: int, d: int)
    requires
        1 <= m <= 12,
    ensures
        month_len(y + 400, m) == month_len(y, m),
        civil_days(y + 400, m, d) == civil_days(y, m, d) + 146_097,
{
    let x = if m <= 2 {
        y - 1
    } else {
        y
    };
    lemma_four_centuries(x);
    lemma_four_centuries(y);
}

/// The day after a date has the next day number.
pub proof fn law_next_day_is_one_more(d: CivilDate)
    requires
        valid_date(d),
        !is_last(d),
    ensures
        valid_date(next_date(d)),
        day_number(next_date(d)) == day_number(d) + 1,
        before(d, next_date(d)),
{
    lemma_month_steps(d.year as int, d.month as int);
}

/// The first day of the `k`-th month since the year 0.
spec fn month_start(k: int) -> int {
    civil_days(k / 12, k % 12 + 1, 1)
}

proof fn lemma_month_start_grows(k: int, j: int)
    requires
        k < j,
    ensures
        month_start(k) + month_len(k / 12, k % 12 + 1) <= month_start(j),
    decreases j - k,
{
    let (y, m) = (k / 12, k % 12 + 1);
    lemma_month_steps(y, m);
    assert(m < 12 ==> (k + 1) / 12 == y && (k + 1) % 12 + 1 == m + 1);
    assert(m == 12 ==> (k + 1) / 12 == y + 1 && (k + 1) % 12 + 1 == 1);
    assert(month_start(k + 1) == month_start(k) + month_len(y, m));
    if k + 1 < j {
        lemma_month_start_grows(k + 1, j);
        assert(month_len((k + 1) / 12, (k + 1) % 12 + 1) >= 28);
    }
}

/// Dates are in the order of their day numbers.
pub proof fn law_day_numbers_keep_the_order(a: CivilDate, b: CivilDate)
    requires
        valid_date(a),
        valid_date(b),
    ensures
        before(a, b) <==> day_number(a) < day_number(b),
        a == b <==> day_number(a) == day_number(b),
{
    let ka = 12 * a.year + a.month - 1;
    let kb = 12 * b.year + b.month - 1;
    assert(ka / 12 == a.year && ka % 12 + 1 == a.month);
    assert(kb / 12 == b.year && kb % 12 + 1 == b.month);
    assert(day_number(a) == month_start(ka) + a.day - 1);
    assert(day_number(b) == month_start(kb) + b.day - 1);
    if ka < kb {
        lemma_month_start_grows(ka, kb);
    } else if kb < ka {
        lemma_month_start_grows(kb, ka);
    }
}

/// The date that a text of the form `YYYY-MM-DD` gives, as year, month and day.
pub uninterp spec fn date_in_text(text: Seq<char>) -> Option<(int, nat, nat)>;

/// How a date is written: `YYYY-MM-DD`, with a sign before a year that has not
/// four digits.
pub uninterp spec fn date_text(year: int, month: nat, day: nat) -> Seq<char>;

pub open spec fn parts(d: CivilDate) -> (int, nat, nat) {
    (d.year as int, d.month as nat, d.day as nat)
}

pub open spec fn opt_parts(d: Option<CivilDate>) -> Option<(int, nat, nat)> {
    match d {
        Some(d) => Some(parts(d)),
        None => None,
    }
}

/// The text of a date, where its year has four digits.
pub open spec fn plain_date_text(d: CivilDate) -> Seq<char> {
    decimal::padded(d.year as nat, 4) + seq!['-'] + decimal::padded(d.month as nat, 2) + seq!['-']
        + decimal::padded(d.day as nat, 2)
}

/// `chrono::NaiveDate::parse_from_str` with the format `%Y-%m-%d`: the date that
/// the text gives. Which texts give one is left to `chrono`; that it is a date of
/// the calendar is stated.
#[verifier::external_body]
pub(crate) fn read_date(s: &str) -> (r: Option<CivilDate>)
    ensures
        opt_parts(r) == date_in_text(s@),
        r is Some ==> valid_date(r->0),
{
    NaiveDate::parse_from_str(s, "%Y-%m-%d").ok().map(
        |d| CivilDate { year: d.year(), month: d.month(), day: d.day() },
    )
}

/// `chrono::NaiveDate::succ_opt`: the next day of the calendar, none after the
/// last date.
#[verifier::external_body]
pub(crate) fn day_after(d: CivilDate) -> (r: Option<CivilDate>)
    requires
        valid_date(d),
    ensures
        r == if is_last(d) {
            None
        } else {
            Some(next_date(d))
        },
{
    NaiveDate::from_ymd_opt(d.year, d.month, d.day).unwrap().succ_opt().map(
        |n| CivilDate { year: n.year(), month: n.month(), day: n.day() },
    )
}

/// `chrono::NaiveDate::pred_opt`: the day whose next day is the given one, none
/// before the first date.
#[verifier::external_body]
pub(crate) fn day_before(d: CivilDate) -> (r: Option<CivilDate>)
    requires
        valid_date(d),
    ensures
        r is None <==> is_first(d),
        r is Some ==> valid_date(r->0) && next_date(r->0) == d,
{
    NaiveDate::from_ymd_opt(d.year, d.month, d.day).unwrap().pred_opt().map(
        |n| CivilDate { year: n.year(), month: n.month(), day: n.day() },
    )
}

/// `chrono::NaiveDate::format` with `%Y-%m-%d`: how the date is written. For a
/// year of up to four digits that is the year in four digits, the month in two
/// and the day in two; for other years what is written is left to `chrono`.
#[verifier::external_body]
pub(crate) fn write_date(d: CivilDate) -> (r: String)
    requires
        valid_date(d),
    ensures
        r@ == date_text(d.year as int, d.month as nat, d.day as nat),
        0 <= d.year <= 9999 ==> r@ == plain_date_text(d),
{
    NaiveDate::from_ymd_opt(d.year, d.month, d.day).unwrap().format("%Y-%m-%d").to_string()
}

/// The text of a date.
pub open spec fn text_of_date(d: CivilDate) -> Seq<char> {
    date_text(d.year as int, d.month as nat, d.day as nat)
}

/// `a < b` for two dates.
pub fn date_lt(a: CivilDate, b: CivilDate) -> (r: bool)
    ensures
        r == before(a, b),
{
    a.year < b.year || (a.year == b.year && (a.month < b.month || (a.month == b.month && a.day
        < b.day)))
}

/// The seconds from 1970-01-01 to the midnight at which a date begins, where the
/// text gives a date.
pub fn date_midnight_sec(date: &str) -> (r: Option<i64>)
    ensures
        match date_in_text(date@) {
            None => r is None,
            Some((y, m, d)) => r == Some((civil_days(y, m as int, d as int) * 86_400) as i64) && r->0
                == civil_days(y, m as int, d as int) * 86_400,
        },
{
    match read_date(date) {
        None => None,
        Some(d) => {
            let days: i64 = days_from_civil(d.year as i64, d.month as i64, d.day as i64);
            assert(-200_000_000 <= days <= 200_000_000);
            Some(days * 86_400)
        },
    }
}

/// The text of the day before a date.
pub fn text_of_day_before(d: CivilDate) -> (r: Option<String>)
    requires
        valid_date(d),
    ensures
        r is None <==> is_first(d),
        r is Some ==> exists|p: CivilDate|
            #![trigger text_of_date(p)]
            valid_date(p) && next_date(p) == d && r->0@ == text_of_date(p),
{
    match day_before(d) {
        None => None,
        Some(p) => {
            let t = write_date(p);
            assert(t@ == text_of_date(p));
            Some(t)
        },
    }
}

/// The date before the one that a text gives.
pub fn prev_date(date: &str) -> (r: Option<String>)
    ensures
        match date_in_text(date@) {
            None => r is None,
            Some((y, m, d)) => {
                let given = CivilDate { year: y as i32, month: m as u32, day: d as u32 };
                &&& r is None <==> is_first(given)
                &&& r is Some ==> exists|p: CivilDate|
                    #![trigger text_of_date(p)]
                    valid_date(p) && next_date(p) == given && r->0@ == text_of_date(p)
            },
        },
{
    match read_date(date) {
        None => None,
        Some(d) => text_of_day_before(d),
    }
}

/// The date `n` days after `d`.
pub open spec fn days_later(d: CivilDate, n: nat) -> CivilDate
    decreases n,
{
    if n == 0 {
        d
    } else {
        next_date(days_later(d, (n - 1) as nat))
    }
}

/// What is wrong with a range of dates.
#[derive(Debug, Clone, Copy, PartialEq, Eq, Structural)]
pub enum RangeError {
    BadStart,
    BadEnd,
    EndBeforeStart,
    /// The range ends with the last date there is.
    Overflow,
}

/// What is wrong with a range of dates, given what its two texts read as.
pub open spec fn range_fault(start: Option<CivilDate>, end: Option<CivilDate>) -> Option<RangeError> {
    match (start, end) {
        (None, _) => Some(RangeError::BadStart),
        (_, None) => Some(RangeError::BadEnd),
        (Some(s), Some(e)) => if before(e, s) {
            Some(RangeError::EndBeforeStart)
        } else if is_last(e) {
            Some(RangeError::Overflow)
        } else {
            None
        },
    }
}

/// The result is what the range from `start` to `end` comes to: its dates as
/// texts, both ends among them, or the fault.
pub open spec fn is_range(
    r: Result<Vec<String>, RangeError>,
    start: Option<CivilDate>,
    end: Option<CivilDate>,
) -> bool {
    match range_fault(start, end) {
        Some(f) => r == Err::<Vec<String>, RangeError>(f),
        None => {
            &&& r is Ok
            &&& r->Ok_0@.len() == day_number(end->0) - day_number(start->0) + 1
            &&& forall|i: int|
                0 <= i < r->Ok_0@.len() ==> (#[trigger] r->Ok_0@[i])@ == text_of_date(
                    days_later(start->0, i as nat),
                )
        },
    }
}

/// The texts of the dates from `start` to `end`, both of them counted.
pub fn date_range(start: Option<CivilDate>, end: Option<CivilDate>) -> (r: Result<
    Vec<String>,
    RangeError,
>)
    requires
        start is Some ==> valid_date(start->0),
        end is Some ==> valid_date(end->0),
    ensures
        is_range(r, start, end),
{
    let s = match start {
        Some(d) => d,
        None => {
            return Err(RangeError::BadStart);
        },
    };
    let e = match end {
        Some(d) => d,
        None => {
            return Err(RangeError::BadEnd);
        },
    };
    if date_lt(e, s) {
        return Err(RangeError::EndBeforeStart);
    }
    proof {
        law_day_numbers_keep_the_order(e, s);
    }
    let mut out: Vec<String> = Vec::new();
    let mut d = s;
    while !date_lt(e, d)
        invariant
            valid_date(s),
            valid_date(d),
            valid_date(e),
            start == Some(s),
            end == Some(e),
            d == days_later(s, out@.len()),
            day_number(d) == day_number(s) + out@.len(),
            day_number(d) <= day_number(e) + 1,
            is_last(e) ==> day_number(d) <= day_number(e),
            !before(e, s),
            forall|i: int|
                0 <= i < out@.len() ==> (#[trigger] out@[i])@ == text_of_date(
                    days_later(s, i as nat),
                ),
        decreases day_number(e) + 1 - day_number(d),
    {
        proof {
            law_day_numbers_keep_the_order(e, d);
        }
        out.push(write_date(d));
        match day_after(d) {
            Some(n) => {
                proof {
                    law_next_day_is_one_more(d);
                    law_day_numbers_keep_the_order(d, e);
                }
                d = n;
            },
            None => {
                proof {
                    law_day_numbers_keep_the_order(d, e);
                    lemma_nothing_after_last(d, e);
                }
                return Err(RangeError::Overflow);
            },
        }
        proof {
            law_day_numbers_keep_the_order(d, e);
            if is_last(e) && before(e, d) {
                lemma_nothing_after_last(e, d);
            }
        }
    }
    proof {
        law_day_numbers_keep_the_order(e, d);
    }
    Ok(out)
}

/// The date of three numbers.
pub open spec fn from_parts(p: Option<(int, nat, nat)>) -> Option<CivilDate> {
    match p {
        Some((y, m, d)) => Some(CivilDate { year: y as i32, month: m as u32, day: d as u32 }),
        None => None,
    }
}

/// The texts of the dates from the one that `start` gives to the one that `end`
/// gives, both of them counted.
pub fn dates_inclusive(start: &str, end: &str) -> (r: Result<Vec<String>, RangeError>)
    ensures
        is_range(r, from_parts(date_in_text(start@)), from_parts(date_in_text(end@))),
{
    date_range(read_date(start), read_date(end))
}

proof fn lemma_nothing_after_last(d: CivilDate, e: CivilDate)
    requires
        valid_date(d),
        valid_date(e),
        is_last(d),
    ensures
        !before(d, e),
{
}

/// The milliseconds since the epoch of the moment that a text gives as RFC 3339
/// has it; `None` where it gives none.
pub uninterp spec fn moment_in_text(text: Seq<char>) -> Option<int>;

pub open spec fn opt_ms(t: Option<i64>) -> Option<int> {
    match t {
        Some(t) => Some(t as int),
        None => None,
    }
}

/// `chrono::DateTime::parse_from_rfc3339`, its moment as milliseconds since the
/// epoch. The result is a function of the text.
#[verifier::external_body]
pub(crate) fn read_moment(text: &str) -> (r: Option<i64>)
    ensures
        opt_ms(r) == moment_in_text(text@),
{
    chrono::DateTime::parse_from_rfc3339(text).ok().map(|t| t.timestamp_millis())
}

} // verus!
