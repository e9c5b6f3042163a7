//! Texts: their order, their pieces, their digits; orders of places; days.

use crate::dates::{self, CivilDate, RangeError};
use crate::decimal;
use crate::order;
use crate::text;
use vstd::prelude::*;

verus! {

/// Of two texts that differ, the one with the smaller character where they first differ
/// comes first.
pub proof fn law_the_first_difference_decides(a: Seq<char>, b: Seq<char>, i: int)
    requires
        0 <= i < a.len(),
        i < b.len(),
        a.take(i) == b.take(i),
        a[i] < b[i],
    ensures
        text::dictionary_le(a, b),
        !text::dictionary_le(b, a),
    decreases i,
{
    if i > 0 {
        assert(a[0] == a.take(i)[0] && b[0] == b.take(i)[0]);
        let (x, y) = (a.drop_first(), b.drop_first());
        assert(x.take(i - 1) =~= a.take(i).drop_first());
        assert(y.take(i - 1) =~= b.take(i).drop_first());
        law_the_first_difference_decides(x, y, i - 1);
    }
}

/// What a text begins with comes before it.
pub proof fn law_beginnings_come_first(a: Seq<char>, b: Seq<char>)
    requires
        b.len() > 0,
    ensures
        text::dictionary_le(a, a + b),
        !text::dictionary_le(a + b, a),
    decreases a.len(),
{
    if a.len() > 0 {
        assert((a + b).drop_first() =~= a.drop_first() + b);
        law_beginnings_come_first(a.drop_first(), b);
    }
}

/// Pieces put together again, with the separator between them.
pub open spec fn joined(pieces: Seq<Seq<char>>, sep: char) -> Seq<char>
    decreases pieces.len(),
{
    if pieces.len() == 0 {
        Seq::empty()
    } else if pieces.len() == 1 {
        pieces[0]
    } else {
        joined(pieces.drop_last(), sep).push(sep) + pieces.last()
    }
}

/// The pieces of a text hold no separator, and give the text when they are put together
/// again. There is always one.
pub proof fn law_pieces_make_the_text(s: Seq<char>, sep: char)
    ensures
        text::split(s, sep).len() > 0,
        forall|i: int|
            0 <= i < text::split(s, sep).len() ==> !(#[trigger] text::split(s, sep)[i]).contains(
                sep,
            ),
        joined(text::split(s, sep), sep) == s,
    decreases s.len(),
{
    let r = text::split(s, sep);
    if s.len() == 0 {
        assert(r =~= seq![Seq::empty()]);
        assert(joined(r, sep) =~= s);
    } else {
        law_pieces_make_the_text(s.drop_last(), sep);
        let q = text::split(s.drop_last(), sep);
        assert(s =~= s.drop_last().push(s.last()));
        if s.last() == sep {
            assert(r =~= q.push(Seq::empty()));
            assert(r.drop_last() =~= q);
            assert(joined(r, sep) =~= s);
        } else {
            let end = q.last().push(s.last());
            assert(r =~= q.update(q.len() - 1, end));
            assert forall|i: int| 0 <= i < r.len() implies !(#[trigger] r[i]).contains(sep) by {
                if i == q.len() - 1 {
                    assert(!q[i].contains(sep));
                    if end.contains(sep) {
                        let k = choose|k: int| 0 <= k < end.len() && end[k] == sep;
                        assert(q[i][k] == sep);
                    }
                } else {
                    assert(r[i] == q[i]);
                }
            }
            if q.len() > 1 {
                assert(r.drop_last() =~= q.drop_last());
            }
            assert(joined(r, sep) =~= s);
        }
    }
}

/// The text is all white space: blanks, line ends and the other characters that Unicode
/// counts as such.
pub open spec fn blank(s: Seq<char>) -> bool {
    forall|i: int| 0 <= i < s.len() ==> white((#[trigger] s[i]) as int)
}

/// The code of a character of white space.
pub open spec fn white(k: int) -> bool {
    ||| k == 9 || k == 10 || k == 11 || k == 12 || k == 13 || k == 32
    ||| k == 133 || k == 160 || k == 5760
    ||| 8192 <= k <= 8202
    ||| k == 8232 || k == 8233 || k == 8239 || k == 8287 || k == 12288
}

proof fn lemma_white(c: char)
    ensures
        text::is_space(c) == white(c as int),
{
}

proof fn lemma_trim_start(s: Seq<char>) -> (k: int)
    ensures
        0 <= k <= s.len(),
        blank(s.take(k)),
        text::trim_start(s) == s.skip(k),
        k < s.len() ==> !white(s[k] as int),
    decreases s.len(),
{
    if s.len() > 0 {
        lemma_white(s[0]);
    }
    if s.len() > 0 && text::is_space(s[0]) {
        let t = s.drop_first();
        let k = lemma_trim_start(t);
        assert forall|i: int| 0 <= i < k + 1 implies white((#[trigger] s.take(k + 1)[i]) as int) by {
            if i > 0 {
                assert(t.take(k)[i - 1] == s.take(k + 1)[i]);
            }
        }
        assert(t.skip(k) =~= s.skip(k + 1));
        assert(k < t.len() ==> t[k] == s[k + 1]);
        k + 1
    } else {
        assert(s.skip(0) =~= s);
        0
    }
}

proof fn lemma_trim_end(s: Seq<char>) -> (k: int)
    ensures
        0 <= k <= s.len(),
        blank(s.skip(k)),
        text::trim_end(s) == s.take(k),
        k > 0 ==> !white(s[k - 1] as int),
    decreases s.len(),
{
    if s.len() > 0 {
        lemma_white(s.last());
    }
    if s.len() > 0 && text::is_space(s.last()) {
        let t = s.drop_last();
        let k = lemma_trim_end(t);
        assert forall|i: int| 0 <= i < s.len() - k implies white((#[trigger] s.skip(k)[i]) as int) by {
            if k + i < t.len() {
                assert(t.skip(k)[i] == s.skip(k)[i]);
            }
        }
        assert(t.take(k) =~= s.take(k));
        k
    } else {
        assert(s.take(s.len() as int) =~= s);
        s.len() as int
    }
}

/// A trimmed text is the text without the white space around it, and without nothing
/// else: what was taken off is white space, and what is left neither begins nor ends
/// with any.
pub proof fn law_only_the_white_space_around_is_taken(s: Seq<char>)
    ensures
        ({
            let t = text::trimmed(s);
            &&& exists|a: Seq<char>, b: Seq<char>|
                #![trigger blank(a), blank(b)]
                blank(a) && blank(b) && s == a + t + b
            &&& t.len() > 0 ==> !white(t[0] as int) && !white(t.last() as int)
        }),
{
    let k = lemma_trim_start(s);
    let u = s.skip(k);
    let n = lemma_trim_end(u);
    let t = u.take(n);
    assert(s =~= s.take(k) + t + u.skip(n));
    assert(blank(s.take(k)) && blank(u.skip(n)));
}

/// Small letters stand 32 places behind the capital ones; nothing else is changed.
pub proof fn law_only_capitals_are_made_small(s: Seq<char>, i: int)
    requires
        0 <= i < s.len(),
    ensures
        text::lowered(s).len() == s.len(),
        65 <= s[i] as int <= 90 ==> text::lowered(s)[i] as int == s[i] as int + 32,
        !(65 <= s[i] as int <= 90) ==> text::lowered(s)[i] == s[i],
        text::lowered(text::lowered(s)) == text::lowered(s),
{
    assert(text::lowered(text::lowered(s)) =~= text::lowered(s));
}

/// A word occurs in a text that has it between two others, and in no other.
pub proof fn law_a_word_occurs_between_others(s: Seq<char>, word: Seq<char>)
    ensures
        text::occurs(s, word) <==> exists|a: Seq<char>, b: Seq<char>| s == #[trigger] ((a + word) + b),
{
    if text::occurs(s, word) {
        let i = choose|i: int| text::occurs_at(s, word, i);
        let (a, b) = (s.take(i), s.skip(i + word.len()));
        assert(s =~= (a + word) + b);
    }
    if exists|a: Seq<char>, b: Seq<char>| s == #[trigger] ((a + word) + b) {
        let (a, b) = choose|a: Seq<char>, b: Seq<char>| s == #[trigger] ((a + word) + b);
        assert(s.subrange(a.len() as int, (a.len() + word.len()) as int) =~= word);
        assert(text::occurs_at(s, word, a.len() as int));
    }
}

/// Digits are the ten characters from 0 to 9, each worth what it is called.
pub proof fn law_digits_are_worth_their_name(c: char)
    ensures
        text::is_digit(c) <==> 48 <= c as int <= 57,
        text::digit_value('0') == 0,
        text::digit_value('1') == 1,
        text::digit_value('5') == 5,
        text::digit_value('9') == 9,
        text::number(seq![c]) == text::digit_value(c),
        text::is_digit(c) ==> text::digit_value(c) == c as int - '0' as int,
{
    assert(seq![c].drop_last() =~= Seq::empty());
    assert(text::number(Seq::empty()) == 0);
}

/// A number that is written in two parts is the first, moved by the places of the
/// second, and the second.
pub proof fn law_digits_have_places(a: Seq<char>, b: Seq<char>)
    ensures
        text::number(a + b) == text::number(a) * decimal::pow10(b.len()) + text::number(b),
    decreases b.len(),
{
    if b.len() == 0 {
        assert(a + b =~= a);
        assert(decimal::pow10(0) == 1);
    } else {
        let c = b.drop_last();
        assert((a + b).drop_last() =~= a + c);
        law_digits_have_places(a, c);
        let (n, p) = (text::number(a), decimal::pow10(c.len()));
        assert(decimal::pow10(b.len()) == 10 * p);
        assert(10 * (n * p) == n * (10 * p)) by (nonlinear_arith);
    }
}

/// A sign in front of digits turns the number round, or does not; nothing but digits
/// with a sign in front is a number.
pub proof fn law_signs_stand_in_front(s: Seq<char>)
    requires
        s.len() > 0,
        forall|i: int| 0 <= i < s.len() ==> '0' <= #[trigger] s[i] <= '9',
    ensures
        text::signed_number(s) == Some(text::number(s)),
        text::signed_number(seq!['-'] + s) == Some(-text::number(s)),
        text::signed_number(seq!['+'] + s) == Some(text::number(s)),
{
    assert((seq!['-'] + s).drop_first() =~= s);
    assert((seq!['+'] + s).drop_first() =~= s);
    assert(s[0] != '-' && s[0] != '+');
}

/// A text with anything but digits behind its first character is no number; nor is a
/// sign alone, or nothing.
pub proof fn law_other_texts_are_no_numbers(s: Seq<char>, i: int)
    requires
        0 <= i < s.len(),
        !('0' <= s[i] <= '9'),
        i > 0 || (s[0] != '-' && s[0] != '+'),
    ensures
        text::signed_number(s) is None,
        text::signed_number(seq!['-']) is None,
        text::signed_number(seq!['+']) is None,
        text::signed_number(Seq::empty()) is None,
{
    if s[0] == '-' || s[0] == '+' {
        assert(s.drop_first()[i - 1] == s[i]);
        assert(!text::all_digits(s.drop_first()));
    } else {
        assert(!text::all_digits(s));
    }
    assert(seq!['-'].drop_first() =~= Seq::empty());
    assert(seq!['+'].drop_first() =~= Seq::empty());
}

/// Where a character first stands: it is there, and nowhere before.
pub proof fn law_the_first_place_is_found(s: Seq<char>, c: char)
    ensures
        ({
            let n = text::index_of(s, c);
            &&& 0 <= n <= s.len()
            &&& n < s.len() <==> s.contains(c)
            &&& n < s.len() ==> s[n] == c
            &&& forall|i: int| 0 <= i < n ==> #[trigger] s[i] != c
        }),
    decreases s.len(),
{
    if s.len() > 0 && s[0] != c {
        let t = s.drop_first();
        law_the_first_place_is_found(t, c);
        let n = text::index_of(s, c);
        assert forall|i: int| 0 <= i < n implies #[trigger] s[i] != c by {
            if i > 0 {
                assert(t[i - 1] == s[i]);
            }
        }
        if n < s.len() {
            assert(s[n] == t[n - 1]);
        } else if s.contains(c) {
            let k = choose|k: int| 0 <= k < s.len() && s[k] == c;
            assert(t[k - 1] == c);
        }
    } else if s.len() > 0 {
        assert(s[0] == c);
    }
}

/// A sort puts smaller keys first, leaves items of one key as they were, and has every
/// item once.
pub proof fn law_sorts_are_stable<T>(r: Seq<T>, s: Seq<T>, keys: Seq<i128>)
    requires
        order::is_stable_sort(r, s, keys),
    ensures
        r.len() == s.len(),
        exists|o: Seq<usize>|
            #![trigger o.len()]
            {
                &&& o.len() == s.len()
                &&& forall|i: int| 0 <= i < o.len() ==> 0 <= #[trigger] o[i] < s.len() && r[i]
                    == s[o[i] as int]
                &&& forall|i: int, j: int|
                    0 <= i < j < o.len() ==> o[i] != o[j] && keys[#[trigger] o[i] as int]
                        <= keys[#[trigger] o[j] as int]
                &&& forall|i: int, j: int|
                    0 <= i < j < o.len() && keys[#[trigger] o[i] as int]
                        == keys[#[trigger] o[j] as int] ==> o[i] < o[j]
            },
{
    let o = choose|o: Seq<usize>|
        order::in_order(keys, o) && order::places(o, 0, s.len() as int) && #[trigger] order::picked(
            r,
            s,
            o,
        );
    assert(o.len() == s.len());
    assert forall|i: int| 0 <= i < o.len() implies 0 <= #[trigger] o[i] < s.len() && r[i]
        == s[o[i] as int] by {
        assert(r[i] == s[o[i] as int]);
    }
    assert forall|i: int, j: int| 0 <= i < j < o.len() implies o[i] != o[j] && keys[#[trigger] o[i] as int]
        <= keys[#[trigger] o[j] as int] by {
        assert(order::earlier(keys, o[i] as int, o[j] as int));
    }
    assert forall|i: int, j: int|
        0 <= i < j < o.len() && keys[#[trigger] o[i] as int] == keys[#[trigger] o[j] as int] implies o[i]
        < o[j] by {
        assert(order::earlier(keys, o[i] as int, o[j] as int));
    }
}

/// A year is leap where four divides it, but not where only a hundred does; February
/// has a day more then. The other months have the days they have.
pub proof fn law_months_have_their_days(y: int)
    ensures
        dates::month_len(y, 2) == 28 || dates::month_len(y, 2) == 29,
        y % 4 != 0 ==> dates::month_len(y, 2) == 28,
        y % 400 == 0 ==> dates::month_len(y, 2) == 29,
        y % 100 == 0 && y % 400 != 0 ==> dates::month_len(y, 2) == 28,
        y % 4 == 0 && y % 100 != 0 ==> dates::month_len(y, 2) == 29,
        dates::month_len(y, 1) == 31,
        dates::month_len(y, 3) == 31,
        dates::month_len(y, 4) == 30,
        dates::month_len(y, 5) == 31,
        dates::month_len(y, 6) == 30,
        dates::month_len(y, 7) == 31,
        dates::month_len(y, 8) == 31,
        dates::month_len(y, 9) == 30,
        dates::month_len(y, 10) == 31,
        dates::month_len(y, 11) == 30,
        dates::month_len(y, 12) == 31,
{
}

/// A year is 365 days long, or 366 where it is leap.
pub proof fn law_years_have_their_days(y: int)
    ensures
        dates::civil_days(y + 1, 1, 1) - dates::civil_days(y, 1, 1) == 337 + dates::month_len(y, 2),
        dates::civil_days(y, 3, 1) - dates::civil_days(y, 2, 1) == dates::month_len(y, 2),
{
    dates::law_days_follow_each_other(y, 12, 31);
    dates::law_days_follow_each_other(y, 2, dates::month_len(y, 2));
    let n = dates::month_len(y, 2);
    assert(dates::civil_days(y, 3, 1) == dates::civil_days(y, 2, n) + 1);
    assert(dates::civil_days(y, 2, n) == dates::civil_days(y, 2, 1) + n - 1);
    assert(dates::civil_days(y, 2, 1) == dates::civil_days(y, 1, 1) + 31);
    assert(dates::civil_days(y, 12, 31) == dates::civil_days(y, 3, 1) + 305);
}

/// The date is one that there is: a day of a month of a year.
pub open spec fn is_day(d: CivilDate) -> bool {
    &&& -262143 <= d.year <= 262142
    &&& 1 <= d.month <= 12
    &&& 1 <= d.day <= dates::month_len(d.year as int, d.month as int)
}

/// Dates are those that there are.
pub proof fn law_dates_are_days(d: CivilDate)
    ensures
        dates::valid_date(d) <==> is_day(d),
        dates::is_last(d) && is_day(d) <==> (d == CivilDate { year: 262142, month: 12, day: 31 }),
        dates::is_first(d) && is_day(d) <==> d.year == -262143 && d.month == 1 && d.day == 1,
{
}

proof fn lemma_later(d: CivilDate, n: nat, end: CivilDate)
    requires
        dates::valid_date(d),
        dates::valid_date(end),
        dates::day_number(d) + n <= dates::day_number(end),
    ensures
        dates::valid_date(dates::days_later(d, n)),
        dates::day_number(dates::days_later(d, n)) == dates::day_number(d) + n,
    decreases n,
{
    if n > 0 {
        let p = dates::days_later(d, (n - 1) as nat);
        lemma_later(d, (n - 1) as nat, end);
        if dates::is_last(p) {
            dates::law_day_numbers_keep_the_order(p, end);
        }
        dates::law_next_day_is_one_more(p);
    }
}

/// The text writes the date of the day with that number.
pub open spec fn writes_day(text: Seq<char>, n: int) -> bool {
    exists|d: CivilDate|
        #![trigger dates::day_number(d)]
        is_day(d) && dates::day_number(d) == n && text == dates::text_of_date(d)
}

/// A range of days lists every day of it once and in order: as many as there are from
/// the first to the last, both among them, each one day after the one before it.
pub proof fn law_a_range_lists_its_days(
    r: Result<Vec<String>, RangeError>,
    start: CivilDate,
    end: CivilDate,
)
    requires
        dates::is_range(r, Some(start), Some(end)),
        is_day(start),
        is_day(end),
        dates::day_number(start) <= dates::day_number(end),
        !(end.year == 262142 && end.month == 12 && end.day == 31),
    ensures
        r is Ok,
        r->Ok_0@.len() == dates::day_number(end) - dates::day_number(start) + 1,
        r->Ok_0@[0]@ == dates::text_of_date(start),
        r->Ok_0@.last()@ == dates::text_of_date(end),
        forall|i: int|
            0 <= i < r->Ok_0@.len() ==> writes_day(
                (#[trigger] r->Ok_0@[i])@,
                dates::day_number(start) + i,
            ),
{
    dates::law_day_numbers_keep_the_order(end, start);
    let days = r->Ok_0@;
    assert forall|i: int| 0 <= i < days.len() implies writes_day(
        (#[trigger] days[i])@,
        dates::day_number(start) + i,
    ) by {
        lemma_later(start, i as nat, end);
        let d = dates::days_later(start, i as nat);
        assert(dates::day_number(d) == dates::day_number(start) + i);
    }
    let n = (days.len() - 1) as nat;
    lemma_later(start, n, end);
    dates::law_day_numbers_keep_the_order(dates::days_later(start, n), end);
    assert(dates::days_later(start, 0) == start);
}

/// A range without a first day or without a last one is none, nor is one that ends
/// before it begins, or with the last day there is.
pub proof fn law_a_range_needs_both_its_ends(
    r: Result<Vec<String>, RangeError>,
    start: Option<CivilDate>,
    end: Option<CivilDate>,
)
    requires
        dates::is_range(r, start, end),
        start matches Some(d) ==> is_day(d),
        end matches Some(d) ==> is_day(d),
    ensures
        start is None <==> r == Err::<Vec<String>, RangeError>(RangeError::BadStart),
        start is Some && end is None <==> r == Err::<Vec<String>, RangeError>(RangeError::BadEnd),
        start is Some && end is Some ==> {
            let (a, b) = (dates::day_number(start->0), dates::day_number(end->0));
            &&& b < a <==> r == Err::<Vec<String>, RangeError>(RangeError::EndBeforeStart)
            &&& a <= b && end->0 == (CivilDate { year: 262142, month: 12, day: 31 }) <==> r == Err::<
                Vec<String>,
                RangeError,
            >(RangeError::Overflow)
        },
{
    if start is Some && end is Some {
        dates::law_day_numbers_keep_the_order(end->0, start->0);
    }
}

} // verus!
