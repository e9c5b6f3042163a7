//! The out-of-sample guard: exploration must not touch the dates that are kept
//! for the final validation.

use crate::dates::{self, date_lt, dates_inclusive, read_date, CivilDate, RangeError};
use crate::text::{self, chars_of, lowered_is, push_str, text_of};
use vstd::prelude::*;

verus! {

/// Dates from this one on are kept for validation.
pub const VALIDATION_CUTOFF_DATE: &'static str = "2026-05-17";

/// What a run is for.
#[derive(Debug, Clone, Copy, PartialEq, Eq, Structural)]
pub enum BtPhase {
    /// Looking for hypotheses: validation dates are refused.
    Exploration,
    /// The final check: any dates.
    Validation,
}

/// A phase that is not known.
#[derive(Debug, Clone, PartialEq)]
pub struct BadPhase {
    pub value: String,
}

/// A copy of a text.
fn copy_of(s: &str) -> (r: String)
    ensures
        r@ == s@,
{
    let c = chars_of(s);
    text_of(c.as_slice())
}

impl BtPhase {
    pub open spec fn name(self) -> Seq<char> {
        match self {
            BtPhase::Exploration => "exploration"@,
            BtPhase::Validation => "validation"@,
        }
    }

    /// Reads a phase, in any capitalisation.
    pub fn parse(s: &str) -> (r: Result<BtPhase, BadPhase>)
        ensures
            match r {
                Ok(p) => text::lowered(s@) == p.name(),
                Err(e) => e.value@ == s@ && text::lowered(s@) != "exploration"@ && text::lowered(s@)
                    != "validation"@,
            },
    {
        if lowered_is(s, "exploration") {
            Ok(BtPhase::Exploration)
        } else if lowered_is(s, "validation") {
            Ok(BtPhase::Validation)
        } else {
            Err(BadPhase { value: copy_of(s) })
        }
    }

    pub fn as_str(&self) -> (r: &'static str)
        ensures
            r@ == self.name(),
    {
        match self {
            BtPhase::Exploration => "exploration",
            BtPhase::Validation => "validation",
        }
    }
}

/// What a phase is written as reads back as that phase.
pub proof fn law_phase_names_are_lower_case(p: BtPhase)
    ensures
        text::lowered(p.name()) == p.name(),
        "exploration"@ != "validation"@,
{
    reveal_strlit("exploration");
    reveal_strlit("validation");
    assert("exploration"@.len() == 11);
    assert("validation"@.len() == 10);
    assert(text::lowered(p.name()) =~= p.name());
}

impl BadPhase {
    pub open spec fn words(self) -> Seq<char> {
        "bad --bt-phase value '"@ + self.value@
            + "': use 'exploration' (default; safe; forbids touching validation data) or 'validation' (deliberate final-gate pass; logged as a sealed event)"@
    }

    /// What is wrong, in words.
    pub fn message(&self) -> (r: String)
        ensures
            r@ == self.words(),
    {
        let mut out = String::new();
        push_str(&mut out, "bad --bt-phase value '");
        push_str(&mut out, self.value.as_str());
        push_str(
            &mut out,
            "': use 'exploration' (default; safe; forbids touching validation data) or 'validation' (deliberate final-gate pass; logged as a sealed event)",
        );
        assert(out@ =~= self.words());
        out
    }
}

/// Why dates were refused.
#[derive(Debug, Clone, PartialEq)]
pub enum PhaseError {
    BadStart { date: String },
    BadEnd { date: String },
    BadListed { date: String },
    /// The range reaches into the validation dates.
    EndInValidation { date: String },
    StartInValidation { date: String },
    /// A listed date is a validation date.
    ListedInValidation { date: String },
}

/// A refusal as mathematical values.
pub enum RefusalV {
    BadStart { date: Seq<char> },
    BadEnd { date: Seq<char> },
    BadListed { date: Seq<char> },
    EndInValidation { date: Seq<char> },
    StartInValidation { date: Seq<char> },
    ListedInValidation { date: Seq<char> },
}

impl View for PhaseError {
    type V = RefusalV;

    open spec fn view(&self) -> RefusalV {
        match self {
            PhaseError::BadStart { date } => RefusalV::BadStart { date: date@ },
            PhaseError::BadEnd { date } => RefusalV::BadEnd { date: date@ },
            PhaseError::BadListed { date } => RefusalV::BadListed { date: date@ },
            PhaseError::EndInValidation { date } => RefusalV::EndInValidation { date: date@ },
            PhaseError::StartInValidation { date } => RefusalV::StartInValidation { date: date@ },
            PhaseError::ListedInValidation { date } => RefusalV::ListedInValidation { date: date@ },
        }
    }
}

/// The date is one of those kept for validation.
pub open spec fn is_validation_date(d: (int, nat, nat)) -> bool {
    d.0 > 2026 || (d.0 == 2026 && (d.1 > 5 || (d.1 == 5 && d.2 >= 17)))
}

fn in_validation(d: CivilDate) -> (r: bool)
    ensures
        r == is_validation_date(dates::parts(d)),
{
    !date_lt(d, CivilDate { year: 2026, month: 5, day: 17 })
}

/// The refusal of a range, given what its two texts read as.
pub open spec fn range_refusal(
    phase: BtPhase,
    start: Seq<char>,
    start_read: Option<(int, nat, nat)>,
    end: Seq<char>,
    end_read: Option<(int, nat, nat)>,
) -> Option<RefusalV> {
    if phase == BtPhase::Validation {
        None
    } else {
        match start_read {
            None => Some(RefusalV::BadStart { date: start }),
            Some(s) => match end_read {
                None => Some(RefusalV::BadEnd { date: end }),
                Some(e) => if is_validation_date(e) {
                    Some(RefusalV::EndInValidation { date: end })
                } else if is_validation_date(s) {
                    Some(RefusalV::StartInValidation { date: start })
                } else {
                    None
                },
            },
        }
    }
}

/// Decides about a range whose two dates have been read.
pub fn check_range(
    phase: BtPhase,
    start_date: &str,
    start: Option<CivilDate>,
    end_date: &str,
    end: Option<CivilDate>,
) -> (r: Result<(), PhaseError>)
    ensures
        match range_refusal(
            phase,
            start_date@,
            dates::opt_parts(start),
            end_date@,
            dates::opt_parts(end),
        ) {
            None => r is Ok,
            Some(f) => r is Err && r->Err_0@ == f,
        },
{
    if phase == BtPhase::Validation {
        return Ok(());
    }
    let s = match start {
        Some(d) => d,
        None => {
            return Err(PhaseError::BadStart { date: copy_of(start_date) });
        },
    };
    let e = match end {
        Some(d) => d,
        None => {
            return Err(PhaseError::BadEnd { date: copy_of(end_date) });
        },
    };
    if in_validation(e) {
        return Err(PhaseError::EndInValidation { date: copy_of(end_date) });
    }
    if in_validation(s) {
        return Err(PhaseError::StartInValidation { date: copy_of(start_date) });
    }
    Ok(())
}

/// Refuses a range of dates that exploration may not touch: both its ends must
/// lie before the validation dates. Validation may use any dates.
pub fn validate_phase_dates(phase: BtPhase, start_date: &str, end_date: &str) -> (r: Result<
    (),
    PhaseError,
>)
    ensures
        match range_refusal(
            phase,
            start_date@,
            dates::date_in_text(start_date@),
            end_date@,
            dates::date_in_text(end_date@),
        ) {
            None => r is Ok,
            Some(f) => r is Err && r->Err_0@ == f,
        },
{
    check_range(phase, start_date, read_date(start_date), end_date, read_date(end_date))
}

/// The refusal of a list of dates from the `i`-th on.
pub open spec fn list_refusal(listed: Seq<String>, i: int) -> Option<RefusalV>
    decreases listed.len() - i,
{
    if i < 0 || i >= listed.len() {
        None
    } else {
        match dates::date_in_text(listed[i]@) {
            None => Some(RefusalV::BadListed { date: listed[i]@ }),
            Some(d) => if is_validation_date(d) {
                Some(RefusalV::ListedInValidation { date: listed[i]@ })
            } else {
                list_refusal(listed, i + 1)
            },
        }
    }
}

/// Decides about one listed date that has been read.
pub fn check_listed(date: &str, read: Option<CivilDate>) -> (r: Result<(), PhaseError>)
    ensures
        match dates::opt_parts(read) {
            None => r is Err && r->Err_0@ == (RefusalV::BadListed { date: date@ }),
            Some(d) => if is_validation_date(d) {
                r is Err && r->Err_0@ == (RefusalV::ListedInValidation { date: date@ })
            } else {
                r is Ok
            },
        },
{
    match read {
        None => Err(PhaseError::BadListed { date: copy_of(date) }),
        Some(d) => {
            if in_validation(d) {
                Err(PhaseError::ListedInValidation { date: copy_of(date) })
            } else {
                Ok(())
            }
        },
    }
}

/// Refuses a list of dates with one that exploration may not touch.
pub fn validate_include_dates(phase: BtPhase, include_dates: &[String]) -> (r: Result<
    (),
    PhaseError,
>)
    ensures
        phase == BtPhase::Validation ==> r is Ok,
        phase == BtPhase::Exploration ==> match list_refusal(include_dates@, 0) {
            None => r is Ok,
            Some(f) => r is Err && r->Err_0@ == f,
        },
{
    if phase == BtPhase::Validation {
        return Ok(());
    }
    let mut i: usize = 0;
    while i < include_dates.len()
        invariant
            phase == BtPhase::Exploration,
            i <= include_dates.len(),
            list_refusal(include_dates@, 0) == list_refusal(include_dates@, i as int),
        decreases include_dates.len() - i,
    {
        let date = include_dates[i].as_str();
        match check_listed(date, read_date(date)) {
            Ok(()) => {},
            Err(e) => {
                return Err(e);
            },
        }
        i += 1;
    }
    Ok(())
}

/// Exploration that is let through touches no validation date: neither end of the
/// range is one, nor is any date between them.
pub proof fn law_exploration_stays_before_the_cutoff(
    start: Seq<char>,
    end: Seq<char>,
    s: CivilDate,
    e: CivilDate,
    d: CivilDate,
)
    requires
        range_refusal(
            BtPhase::Exploration,
            start,
            Some(dates::parts(s)),
            end,
            Some(dates::parts(e)),
        ) is None,
        !dates::before(d, s),
        !dates::before(e, d),
    ensures
        !is_validation_date(dates::parts(s)),
        !is_validation_date(dates::parts(e)),
        !is_validation_date(dates::parts(d)),
{
}

/// A list of dates that exploration is let through with holds no validation date.
pub proof fn law_listed_dates_stay_before_the_cutoff(listed: Seq<String>, from: int)
    requires
        0 <= from,
        list_refusal(listed, from) is None,
    ensures
        forall|i: int|
            from <= i < listed.len() ==> (dates::date_in_text((#[trigger] listed[i])@) matches Some(d)
                && !is_validation_date(d)),
    decreases listed.len() - from,
{
    if from < listed.len() {
        law_listed_dates_stay_before_the_cutoff(listed, from + 1);
    }
}

/// Why a run does not begin.
#[derive(Debug, Clone)]
pub enum RunError {
    Phase(PhaseError),
    Range(RangeError),
}

/// The refusal of a run: that of its range, and else that of its list.
pub open spec fn run_refusal(phase: BtPhase, start: Seq<char>, end: Seq<char>, listed: Seq<String>) -> Option<
    RefusalV,
> {
    match range_refusal(
        phase,
        start,
        dates::date_in_text(start),
        end,
        dates::date_in_text(end),
    ) {
        Some(f) => Some(f),
        None => if phase == BtPhase::Exploration {
            list_refusal(listed, 0)
        } else {
            None
        },
    }
}

/// The dates of a run: those that are listed, and else those of the range. The
/// range is held against the phase in either case.
pub fn plan_run(phase: BtPhase, start_date: &str, end_date: &str, include_dates: &[String]) -> (r: Result<
    Vec<String>,
    RunError,
>)
    ensures
        match run_refusal(phase, start_date@, end_date@, include_dates@) {
            Some(f) => r matches Err(RunError::Phase(e)) && e@ == f,
            None => if include_dates@.len() > 0 {
                r matches Ok(v) && v@ == include_dates@
            } else {
                match r {
                    Ok(v) => dates::is_range(
                        Ok(v),
                        dates::from_parts(dates::date_in_text(start_date@)),
                        dates::from_parts(dates::date_in_text(end_date@)),
                    ),
                    Err(RunError::Range(e)) => dates::is_range(
                        Err(e),
                        dates::from_parts(dates::date_in_text(start_date@)),
                        dates::from_parts(dates::date_in_text(end_date@)),
                    ),
                    Err(RunError::Phase(_)) => false,
                }
            },
        },
{
    match validate_phase_dates(phase, start_date, end_date) {
        Ok(()) => {},
        Err(e) => {
            return Err(RunError::Phase(e));
        },
    }
    match validate_include_dates(phase, include_dates) {
        Ok(()) => {},
        Err(e) => {
            return Err(RunError::Phase(e));
        },
    }
    if include_dates.len() > 0 {
        let mut listed: Vec<String> = Vec::new();
        let mut i: usize = 0;
        while i < include_dates.len()
            invariant
                i <= include_dates@.len(),
                listed@ == include_dates@.take(i as int),
            decreases include_dates@.len() - i,
        {
            listed.push(include_dates[i].clone());
            assert(include_dates@.take(i + 1) =~= include_dates@.take(i as int).push(
                include_dates@[i as int],
            ));
            i += 1;
        }
        assert(include_dates@.take(i as int) =~= include_dates@);
        return Ok(listed);
    }
    match dates_inclusive(start_date, end_date) {
        Ok(v) => Ok(v),
        Err(e) => Err(RunError::Range(e)),
    }
}

/// What is said of a refusal.
pub open spec fn refusal_words(f: RefusalV) -> Seq<char> {
    match f {
        RefusalV::BadStart { date } => "bad --bt-start-date: "@ + date,
        RefusalV::BadEnd { date } => "bad --bt-end-date: "@ + date,
        RefusalV::BadListed { date } => "bad --bt-include-dates entry: "@ + date,
        RefusalV::EndInValidation { date } => "OUT-OF-SAMPLE DISCIPLINE VIOLATION: phase=exploration but --bt-end-date="@
            + date
            + " reaches into the validation set (cutoff = 2026-05-17).\n\nDates >= 2026-05-17 are reserved for the Fase 3 final validation gate and MUST NOT be peeked at during exploration or hypothesis-building -- doing so contaminates that gate and turns the whole methodology into in-sample fitting.\n\nIf this run is the (rare, one-shot, deliberate) Fase 3 validation pass, re-invoke with `--bt-phase validation`. Otherwise, set --bt-end-date to a value < 2026-05-17 (e.g. 2026-05-16)."@,
        RefusalV::StartInValidation { date } => "OUT-OF-SAMPLE DISCIPLINE VIOLATION: phase=exploration but --bt-start-date="@
            + date
            + " reaches into the validation set (cutoff = 2026-05-17). See --bt-phase validation if intentional."@,
        RefusalV::ListedInValidation { date } => "OUT-OF-SAMPLE DISCIPLINE VIOLATION: phase=exploration but --bt-include-dates contains '"@
            + date
            + "' which is >= 2026-05-17 (validation set). The --bt-include-dates list bypasses the start/end range but is still subject to the phase guard. Use --bt-phase validation if intentional."@,
    }
}

impl PhaseError {
    /// What is wrong, in words.
    pub fn message(&self) -> (r: String)
        ensures
            r@ == refusal_words(self@),
    {
        let mut out = String::new();
        match self {
            PhaseError::BadStart { date } => {
                push_str(&mut out, "bad --bt-start-date: ");
                push_str(&mut out, date.as_str());
            },
            PhaseError::BadEnd { date } => {
                push_str(&mut out, "bad --bt-end-date: ");
                push_str(&mut out, date.as_str());
            },
            PhaseError::BadListed { date } => {
                push_str(&mut out, "bad --bt-include-dates entry: ");
                push_str(&mut out, date.as_str());
            },
            PhaseError::EndInValidation { date } => {
                push_str(
                    &mut out,
                    "OUT-OF-SAMPLE DISCIPLINE VIOLATION: phase=exploration but --bt-end-date=",
                );
                push_str(&mut out, date.as_str());
                push_str(
                    &mut out,
                    " reaches into the validation set (cutoff = 2026-05-17).\n\nDates >= 2026-05-17 are reserved for the Fase 3 final validation gate and MUST NOT be peeked at during exploration or hypothesis-building -- doing so contaminates that gate and turns the whole methodology into in-sample fitting.\n\nIf this run is the (rare, one-shot, deliberate) Fase 3 validation pass, re-invoke with `--bt-phase validation`. Otherwise, set --bt-end-date to a value < 2026-05-17 (e.g. 2026-05-16).",
                );
            },
            PhaseError::StartInValidation { date } => {
                push_str(
                    &mut out,
                    "OUT-OF-SAMPLE DISCIPLINE VIOLATION: phase=exploration but --bt-start-date=",
                );
                push_str(&mut out, date.as_str());
                push_str(
                    &mut out,
                    " reaches into the validation set (cutoff = 2026-05-17). See --bt-phase validation if intentional.",
                );
            },
            PhaseError::ListedInValidation { date } => {
                push_str(
                    &mut out,
                    "OUT-OF-SAMPLE DISCIPLINE VIOLATION: phase=exploration but --bt-include-dates contains '",
                );
                push_str(&mut out, date.as_str());
                push_str(
                    &mut out,
                    "' which is >= 2026-05-17 (validation set). The --bt-include-dates list bypasses the start/end range but is still subject to the phase guard. Use --bt-phase validation if intentional.",
                );
            },
        }
        assert(out@ =~= refusal_words(self@));
        out
    }
}

} // verus!
