//! The words that name policies and phases, and the dates that a phase may touch.

use crate::backtest::exits::{ExitVariant, VariantV};
use crate::backtest::phase::{self, BtPhase, RefusalV};
use crate::backtest::variants::{self, VariantFault};
use crate::config::NumV;
use crate::dates;
use crate::decimal;
use crate::laws::settings;
use crate::laws::texts;
use crate::numeral;
use crate::text;
use vstd::prelude::*;

verus! {

/// The value is a finite number from 0 to `top`.
pub open spec fn from_0_to(x: NumV, top: int) -> bool {
    match x {
        NumV::Finite(d) => d.m >= 0 && d.m <= top * decimal::pow10(d.s),
        _ => false,
    }
}

proof fn lemma_begins(prefix: Seq<char>, rest: Seq<char>)
    ensures
        variants::begins(prefix + rest, prefix),
        variants::behind(prefix + rest, prefix) == rest,
{
    assert((prefix + rest).take(prefix.len() as int) =~= prefix);
    assert((prefix + rest).skip(prefix.len() as int) =~= rest);
}

proof fn lemma_prefixes()
    ensures
        "peak"@ == seq!['p', 'e', 'a', 'k'],
        "smart:"@ == seq!['s', 'm', 'a', 'r', 't', ':'],
        "trailing:"@ == seq!['t', 'r', 'a', 'i', 'l', 'i', 'n', 'g', ':'],
        "strail:"@ == seq!['s', 't', 'r', 'a', 'i', 'l', ':'],
        "ctrail:"@ == seq!['c', 't', 'r', 'a', 'i', 'l', ':'],
        "f6:"@ == seq!['f', '6', ':'],
{
    reveal_strlit("peak");
    reveal_strlit("smart:");
    reveal_strlit("trailing:");
    reveal_strlit("strail:");
    reveal_strlit("ctrail:");
    reveal_strlit("f6:");
    assert("peak"@ =~= seq!['p', 'e', 'a', 'k']);
    assert("smart:"@ =~= seq!['s', 'm', 'a', 'r', 't', ':']);
    assert("trailing:"@ =~= seq!['t', 'r', 'a', 'i', 'l', 'i', 'n', 'g', ':']);
    assert("strail:"@ =~= seq!['s', 't', 'r', 'a', 'i', 'l', ':']);
    assert("ctrail:"@ =~= seq!['c', 't', 'r', 'a', 'i', 'l', ':']);
    assert("f6:"@ =~= seq!['f', '6', ':']);
}

proof fn lemma_not_peak(token: Seq<char>)
    requires
        token.len() > 0,
        token[0] == 's' || token[0] == 't' || token[0] == 'c' || token[0] == 'f',
    ensures
        text::lowered(token) != "peak"@,
{
    lemma_prefixes();
    assert(text::lowered(token)[0] == token[0]);
    assert("peak"@[0] == 'p');
}

proof fn lemma_not(token: Seq<char>, prefix: Seq<char>, i: int)
    requires
        0 <= i < prefix.len(),
        i < token.len(),
        token[i] != prefix[i],
    ensures
        !variants::begins(token, prefix),
{
    if variants::begins(token, prefix) {
        assert(token.take(prefix.len() as int)[i] == token[i]);
    }
}

proof fn lemma_smart(rest: Seq<char>)
    ensures
        variants::variant_of(seq!['s', 'm', 'a', 'r', 't', ':'] + rest) == variants::smart_of(rest),
{
    lemma_prefixes();
    let token = "smart:"@ + rest;
    lemma_begins("smart:"@, rest);
    lemma_not_peak(token);
}

proof fn lemma_trailing(rest: Seq<char>)
    ensures
        variants::variant_of(seq!['t', 'r', 'a', 'i', 'l', 'i', 'n', 'g', ':'] + rest) == variants::trailing_of(rest),
{
    lemma_prefixes();
    let token = "trailing:"@ + rest;
    lemma_begins("trailing:"@, rest);
    lemma_not_peak(token);
    lemma_not(token, "smart:"@, 0);
}

proof fn lemma_strail(rest: Seq<char>)
    ensures
        variants::variant_of(seq!['s', 't', 'r', 'a', 'i', 'l', ':'] + rest) == variants::strail_of(rest),
{
    lemma_prefixes();
    let token = "strail:"@ + rest;
    lemma_begins("strail:"@, rest);
    lemma_not_peak(token);
    lemma_not(token, "smart:"@, 1);
    lemma_not(token, "trailing:"@, 0);
}

proof fn lemma_ctrail(rest: Seq<char>)
    ensures
        variants::variant_of(seq!['c', 't', 'r', 'a', 'i', 'l', ':'] + rest) == variants::ctrail_of(rest),
{
    lemma_prefixes();
    let token = "ctrail:"@ + rest;
    lemma_begins("ctrail:"@, rest);
    lemma_not_peak(token);
    lemma_not(token, "smart:"@, 0);
    lemma_not(token, "trailing:"@, 0);
    lemma_not(token, "strail:"@, 0);
}

proof fn lemma_f6(rest: Seq<char>)
    ensures
        variants::variant_of(seq!['f', '6', ':'] + rest) == variants::f6_of(rest),
{
    lemma_prefixes();
    let token = "f6:"@ + rest;
    lemma_begins("f6:"@, rest);
    lemma_not_peak(token);
    lemma_not(token, "smart:"@, 0);
    lemma_not(token, "trailing:"@, 0);
    lemma_not(token, "strail:"@, 0);
    lemma_not(token, "ctrail:"@, 0);
}

/// `smart:` is followed by a share of the time in percent and by seconds.
pub proof fn law_smart_needs_a_share_and_seconds(a: Seq<char>, b: Seq<char>)
    requires
        !a.contains(':'),
        !b.contains(':'),
    ensures
        ({
            let r = variants::variant_of(
                seq!['s', 'm', 'a', 'r', 't', ':'] + (a.push(':') + b),
            );
            match (numeral::value(a), variants::small(b)) {
                (None, _) => r == Err::<VariantV, VariantFault>(VariantFault::SmartX),
                (Some(x), None) => r == Err::<VariantV, VariantFault>(VariantFault::SmartY),
                (Some(x), Some(y)) => if !from_0_to(x, 100) {
                    r == Err::<VariantV, VariantFault>(VariantFault::SmartXRange)
                } else if y < 0 {
                    r == Err::<VariantV, VariantFault>(VariantFault::SmartYRange)
                } else {
                    r matches Ok(VariantV::Smart { x_pct, y_sec }) && x == NumV::Finite(x_pct)
                        && y_sec == y
                },
            }
        }),
{
    lemma_smart(a.push(':') + b);
    settings::lemma_two(a.push(':') + b, a, b);
}

/// `trailing:` is followed by a share in percent.
pub proof fn law_trailing_needs_a_share(a: Seq<char>)
    ensures
        ({
            let r = variants::variant_of(
                seq!['t', 'r', 'a', 'i', 'l', 'i', 'n', 'g', ':'] + a,
            );
            match numeral::value(a) {
                None => r == Err::<VariantV, VariantFault>(VariantFault::TrailingZ),
                Some(z) => if from_0_to(z, 100) {
                    r matches Ok(VariantV::Trailing { z_pct }) && z == NumV::Finite(z_pct)
                } else {
                    r == Err::<VariantV, VariantFault>(VariantFault::TrailingZRange)
                },
            }
        }),
{
    lemma_trailing(a);
}

/// `strail:` is followed by a share in percent and by a spread of at most a dollar.
pub proof fn law_strail_needs_a_share_and_a_spread(a: Seq<char>, b: Seq<char>)
    requires
        !a.contains(':'),
        !b.contains(':'),
    ensures
        ({
            let r = variants::variant_of(
                seq!['s', 't', 'r', 'a', 'i', 'l', ':'] + (a.push(':') + b),
            );
            match (numeral::value(a), numeral::value(b)) {
                (None, _) => r == Err::<VariantV, VariantFault>(VariantFault::StrailZ),
                (Some(z), None) => r == Err::<VariantV, VariantFault>(VariantFault::StrailS),
                (Some(z), Some(s)) => if !from_0_to(z, 100) {
                    r == Err::<VariantV, VariantFault>(VariantFault::StrailZRange)
                } else if !from_0_to(s, 1) && s !is NotANumber {
                    r == Err::<VariantV, VariantFault>(VariantFault::StrailSRange)
                } else {
                    r matches Ok(VariantV::SpreadFilteredTrailing { z_pct, max_spread }) && z
                        == NumV::Finite(z_pct) && max_spread == s
                },
            }
        }),
{
    lemma_strail(a.push(':') + b);
    settings::lemma_two(a.push(':') + b, a, b);
}

/// `ctrail:` is followed by a share of the time and by a share, both in percent.
pub proof fn law_ctrail_needs_two_shares(a: Seq<char>, b: Seq<char>)
    requires
        !a.contains(':'),
        !b.contains(':'),
    ensures
        ({
            let r = variants::variant_of(
                seq!['c', 't', 'r', 'a', 'i', 'l', ':'] + (a.push(':') + b),
            );
            match (numeral::value(a), numeral::value(b)) {
                (None, _) => r == Err::<VariantV, VariantFault>(VariantFault::CtrailX),
                (Some(x), None) => r == Err::<VariantV, VariantFault>(VariantFault::CtrailZ),
                (Some(x), Some(z)) => if !from_0_to(x, 100) {
                    r == Err::<VariantV, VariantFault>(VariantFault::CtrailXRange)
                } else if !from_0_to(z, 100) {
                    r == Err::<VariantV, VariantFault>(VariantFault::CtrailZRange)
                } else {
                    r matches Ok(VariantV::TimeCappedTrailing { x_pct, z_pct }) && x
                        == NumV::Finite(x_pct) && z == NumV::Finite(z_pct)
                },
            }
        }),
{
    lemma_ctrail(a.push(':') + b);
    settings::lemma_two(a.push(':') + b, a, b);
}

/// `f6:` is followed by seconds.
pub proof fn law_f6_needs_seconds(a: Seq<char>)
    ensures
        ({
            let r = variants::variant_of(seq!['f', '6', ':'] + a);
            match variants::small(a) {
                None => r == Err::<VariantV, VariantFault>(VariantFault::F6Y),
                Some(y) => if y >= 0 {
                    r matches Ok(VariantV::F6Only { y_sec }) && y_sec == y
                } else {
                    r == Err::<VariantV, VariantFault>(VariantFault::F6YRange)
                },
            }
        }),
{
    lemma_f6(a);
}

/// Where two parts are needed, no other number of parts will do.
pub proof fn law_two_parts_are_two_parts(rest: Seq<char>)
    requires
        !(exists|a: Seq<char>, b: Seq<char>| #[trigger] settings::two_parts(rest, a, b)),
    ensures
        variants::variant_of(seq!['s', 'm', 'a', 'r', 't', ':'] + rest) == Err::<
            VariantV,
            VariantFault,
        >(VariantFault::SmartParts),
        variants::variant_of(seq!['s', 't', 'r', 'a', 'i', 'l', ':'] + rest) == Err::<
            VariantV,
            VariantFault,
        >(VariantFault::StrailParts),
        variants::variant_of(seq!['c', 't', 'r', 'a', 'i', 'l', ':'] + rest) == Err::<
            VariantV,
            VariantFault,
        >(VariantFault::CtrailParts),
{
    let parts = text::split(rest, ':');
    texts::law_pieces_make_the_text(rest, ':');
    if parts.len() == 2 {
        let less = parts.drop_last();
        assert(less.len() == 1 && less[0] == parts[0]);
        assert(texts::joined(less, ':') == parts[0]);
        assert(settings::two_parts(rest, parts[0], parts[1]));
    }
    lemma_smart(rest);
    lemma_strail(rest);
    lemma_ctrail(rest);
}

/// The word for the peak, in any capitalisation.
pub proof fn law_the_peak_has_a_word(token: Seq<char>)
    requires
        token.len() == 4,
        token[0] == 'p' || token[0] == 'P',
        token[1] == 'e' || token[1] == 'E',
        token[2] == 'a' || token[2] == 'A',
        token[3] == 'k' || token[3] == 'K',
    ensures
        variants::variant_of(token) == Ok::<VariantV, VariantFault>(VariantV::Peak),
{
    lemma_prefixes();
    assert(text::lowered(token) =~= seq!['p', 'e', 'a', 'k']);
}

/// A whole number of 64 bits names a target in percent: 0 none, one above 0 that target,
/// one below 0 nothing. What begins with a digit or a sign and is no such number is no
/// policy.
pub proof fn law_numbers_name_targets(token: Seq<char>)
    requires
        token.len() > 0,
        '0' <= token[0] <= '9' || token[0] == '-' || token[0] == '+',
    ensures
        ({
            let r = variants::variant_of(token);
            match text::signed_number(token) {
                Some(n) => if n < -0x8000_0000_0000_0000 || n > 0x7fff_ffff_ffff_ffff {
                    r == Err::<VariantV, VariantFault>(VariantFault::Token)
                } else if n == 0 {
                    r == Ok::<VariantV, VariantFault>(VariantV::Baseline)
                } else if n > 0 {
                    r matches Ok(VariantV::FirstTouch { tp_pct }) && tp_pct == n
                } else {
                    r == Err::<VariantV, VariantFault>(VariantFault::Negative)
                },
                None => r == Err::<VariantV, VariantFault>(VariantFault::Token),
            }
        }),
{
    lemma_prefixes();
    assert(text::lowered(token)[0] == token[0]);
    assert("peak"@[0] == 'p');
    lemma_not(token, "smart:"@, 0);
    lemma_not(token, "trailing:"@, 0);
    lemma_not(token, "strail:"@, 0);
    lemma_not(token, "ctrail:"@, 0);
    lemma_not(token, "f6:"@, 0);
}

/// Whole numbers have at most 64 bits.
pub proof fn law_small_numbers_have_64_bits(s: Seq<char>)
    ensures
        match text::signed_number(s) {
            Some(n) => if -0x8000_0000_0000_0000 <= n <= 0x7fff_ffff_ffff_ffff {
                variants::small(s) == Some(n)
            } else {
                variants::small(s) is None
            },
            None => variants::small(s) is None,
        },
{
}

/// A list is read piece by piece: the white space around a piece does not matter, a piece
/// of nothing else is passed over, and a bad piece is what the list fails with.
pub proof fn law_lists_are_read_piece_by_piece(pieces: Seq<Seq<char>>, piece: Seq<char>)
    ensures
        ({
            let none = Seq::<VariantV>::empty();
            variants::variants_of(Seq::empty()) == Ok::<
                Seq<VariantV>,
                (VariantFault, Seq<char>),
            >(none)
        }),
        ({
            let token = text::trimmed(piece);
            let after = variants::variants_of(pieces.push(piece));
            match variants::variants_of(pieces) {
                Err(e) => after == Err::<Seq<VariantV>, (VariantFault, Seq<char>)>(e),
                Ok(v) => if token.len() == 0 {
                    after == Ok::<Seq<VariantV>, (VariantFault, Seq<char>)>(v)
                } else {
                    match variants::variant_of(token) {
                        Ok(x) => after == Ok::<Seq<VariantV>, (VariantFault, Seq<char>)>(v.push(x)),
                        Err(f) => after == Err::<Seq<VariantV>, (VariantFault, Seq<char>)>(
                            (f, token),
                        ),
                    }
                },
            }
        }),
{
    assert(pieces.push(piece).drop_last() =~= pieces);
}

/// Where none are asked for, the lots are sold at their time, at eight targets and at
/// their peak.
pub proof fn law_the_usual_policies()
    ensures
        ({
            let v = variants::usual_variants();
            &&& v.len() == 10
            &&& v[0] == ExitVariant::Baseline
            &&& v[1] == (ExitVariant::FirstTouch { tp_pct: 5 })
            &&& v[2] == (ExitVariant::FirstTouch { tp_pct: 10 })
            &&& v[3] == (ExitVariant::FirstTouch { tp_pct: 15 })
            &&& v[4] == (ExitVariant::FirstTouch { tp_pct: 20 })
            &&& v[5] == (ExitVariant::FirstTouch { tp_pct: 25 })
            &&& v[6] == (ExitVariant::FirstTouch { tp_pct: 30 })
            &&& v[7] == (ExitVariant::FirstTouch { tp_pct: 40 })
            &&& v[8] == (ExitVariant::FirstTouch { tp_pct: 50 })
            &&& v[9] == ExitVariant::Peak
        }),
{
}

/// The dates from 17 May 2026 on are kept for validation, and no others.
pub proof fn law_validation_begins_in_may(y: int, m: nat, d: nat)
    requires
        1 <= m <= 12,
        1 <= d <= 31,
    ensures
        phase::is_validation_date((y, m, d)) <==> y * 10_000 + m * 100 + d >= 20_260_517,
{
}

/// Validation refuses no dates. Exploration refuses what is no date, then a range that
/// ends among the validation dates, then one that begins there.
pub proof fn law_exploration_keeps_out_of_validation(
    start: Seq<char>,
    start_read: Option<(int, nat, nat)>,
    end: Seq<char>,
    end_read: Option<(int, nat, nat)>,
)
    ensures
        phase::range_refusal(BtPhase::Validation, start, start_read, end, end_read) is None,
        ({
            let r = phase::range_refusal(
                BtPhase::Exploration,
                start,
                start_read,
                end,
                end_read,
            );
            match (start_read, end_read) {
                (None, _) => r == Some(RefusalV::BadStart { date: start }),
                (Some(_), None) => r == Some(RefusalV::BadEnd { date: end }),
                (Some(s), Some(e)) => {
                    &&& phase::is_validation_date(e) <==> r == Some(
                        RefusalV::EndInValidation { date: end },
                    )
                    &&& !phase::is_validation_date(e) && phase::is_validation_date(s) <==> r == Some(
                        RefusalV::StartInValidation { date: start },
                    )
                    &&& !phase::is_validation_date(e) && !phase::is_validation_date(s) <==> r is None
                },
            }
        }),
{
}

/// The listed date is one that exploration may touch.
pub open spec fn may_be_listed(date: Seq<char>) -> bool {
    dates::date_in_text(date) matches Some(d) && !phase::is_validation_date(d)
}

/// Of listed dates the first that is none, or is kept for validation, is refused.
pub proof fn law_the_first_bad_date_is_refused(listed: Seq<String>, from: int, k: int)
    requires
        0 <= from <= k < listed.len(),
        forall|i: int| from <= i < k ==> may_be_listed((#[trigger] listed[i])@),
        !may_be_listed(listed[k]@),
    ensures
        phase::list_refusal(listed, from) == Some(
            if dates::date_in_text(listed[k]@) is None {
                RefusalV::BadListed { date: listed[k]@ }
            } else {
                RefusalV::ListedInValidation { date: listed[k]@ }
            },
        ),
    decreases k - from,
{
    if from < k {
        assert(may_be_listed(listed[from]@));
        law_the_first_bad_date_is_refused(listed, from + 1, k);
    }
}

/// A list without such a date is not refused.
pub proof fn law_good_dates_are_not_refused(listed: Seq<String>, from: int)
    requires
        0 <= from <= listed.len(),
        forall|i: int| from <= i < listed.len() ==> may_be_listed((#[trigger] listed[i])@),
    ensures
        phase::list_refusal(listed, from) is None,
    decreases listed.len() - from,
{
    if from < listed.len() {
        assert(may_be_listed(listed[from]@));
        law_good_dates_are_not_refused(listed, from + 1);
    }
}

/// A run is refused for its range, and else, in exploration, for its list.
pub proof fn law_a_run_is_refused_for_range_or_list(
    start: Seq<char>,
    end: Seq<char>,
    listed: Seq<String>,
)
    ensures
        phase::run_refusal(BtPhase::Validation, start, end, listed) is None,
        ({
            let range = phase::range_refusal(
                BtPhase::Exploration,
                start,
                dates::date_in_text(start),
                end,
                dates::date_in_text(end),
            );
            let r = phase::run_refusal(BtPhase::Exploration, start, end, listed);
            &&& range is Some ==> r == range
            &&& range is None ==> r == phase::list_refusal(listed, 0)
        }),
{
}

/// The phases by their words, and what is said of a refusal, which names the date.
pub proof fn law_refusals_name_the_date(date: Seq<char>)
    ensures
        BtPhase::Exploration.name() == "exploration"@,
        BtPhase::Validation.name() == "validation"@,
        phase::refusal_words(RefusalV::BadStart { date }) == "bad --bt-start-date: "@ + date,
        phase::refusal_words(RefusalV::BadEnd { date }) == "bad --bt-end-date: "@ + date,
        phase::refusal_words(RefusalV::BadListed { date }) == "bad --bt-include-dates entry: "@
            + date,
        text::occurs(phase::refusal_words(RefusalV::EndInValidation { date }), date),
        text::occurs(phase::refusal_words(RefusalV::StartInValidation { date }), date),
        text::occurs(phase::refusal_words(RefusalV::ListedInValidation { date }), date),
{
    let a = "OUT-OF-SAMPLE DISCIPLINE VIOLATION: phase=exploration but --bt-end-date="@;
    lemma_has(phase::refusal_words(RefusalV::EndInValidation { date }), a, date);
    let a = "OUT-OF-SAMPLE DISCIPLINE VIOLATION: phase=exploration but --bt-start-date="@;
    lemma_has(phase::refusal_words(RefusalV::StartInValidation { date }), a, date);
    let a = "OUT-OF-SAMPLE DISCIPLINE VIOLATION: phase=exploration but --bt-include-dates contains '"@;
    lemma_has(phase::refusal_words(RefusalV::ListedInValidation { date }), a, date);
}

proof fn lemma_has(s: Seq<char>, a: Seq<char>, word: Seq<char>)
    requires
        s.len() >= a.len() + word.len(),
        s.take(a.len() + word.len() as int) =~= a + word,
    ensures
        text::occurs(s, word),
{
    let n = a.len() as int;
    let t = s.take(n + word.len());
    assert(s.subrange(n, n + word.len()) =~= word) by {
        assert forall|i: int| 0 <= i < word.len() implies s.subrange(n, n + word.len())[i]
            == word[i] by {
            assert(t[n + i] == (a + word)[n + i]);
        }
    }
    assert(text::occurs_at(s, word, n));
}

} // verus!
