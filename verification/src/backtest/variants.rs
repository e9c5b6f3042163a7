//! Reading a list of exit policies.

use crate::backtest::exits::{ExitVariant, VariantV};
use crate::config::{Num, NumV};
use crate::decimal::{self, Dec};
use crate::numeral::{self, power_of_ten, read_value};
use crate::text::{
    self, chars_of, copy_range, lowered_is, read_i64, same_chars, split_at_char, text_of, trim,
};
use vstd::prelude::*;

verus! {

/// What is wrong with one policy of a list.
#[derive(Debug, Clone, Copy, PartialEq, Eq, Structural)]
pub enum VariantFault {
    /// `smart:` without exactly two parts behind it.
    SmartParts,
    SmartX,
    SmartY,
    SmartXRange,
    SmartYRange,
    TrailingZ,
    TrailingZRange,
    StrailParts,
    StrailZ,
    StrailS,
    StrailZRange,
    StrailSRange,
    CtrailParts,
    CtrailX,
    CtrailZ,
    CtrailXRange,
    CtrailZRange,
    F6Y,
    F6YRange,
    /// Neither a known word nor a whole number.
    Token,
    /// A target below zero.
    Negative,
}

/// Why a list cannot be read.
#[derive(Debug, Clone)]
pub enum VariantError {
    Bad { fault: VariantFault, token: String },
    /// There is no policy in it.
    Empty,
}

/// `d` is not below zero and not above `top`.
pub open spec fn within(d: decimal::DecV, top: int) -> bool {
    0 <= d.m <= top * decimal::pow10(d.s)
}

fn is_within(d: Dec, top: u32) -> (r: bool)
    ensures
        r == within(d@, top as int),
{
    let m: i128 = d.mantissa();
    if m < 0 {
        false
    } else {
        let s: u32 = d.scale();
        let p: u128 = power_of_ten(s);
        proof {
            assert(top * p <= u32::MAX * 10_000_000_000_000_000_000_000_000_000)
                by (nonlinear_arith)
                requires
                    0 <= top <= u32::MAX,
                    0 <= p <= 10_000_000_000_000_000_000_000_000_000,
            ;
            assert(0 <= top * p) by (nonlinear_arith)
                requires
                    0 <= top,
                    0 <= p,
            ;
        }
        m as u128 <= top as u128 * p
    }
}

/// A number that is finite, not below zero and not above `top`.
pub open spec fn within_number(x: NumV, top: int) -> bool {
    x matches NumV::Finite(d) && within(d, top)
}

/// The decimal of such a number.
fn within_of(x: Num, top: u32) -> (r: Option<Dec>)
    ensures
        match r {
            Some(d) => x@ == NumV::Finite(d@) && within(d@, top as int),
            None => !within_number(x@, top as int),
        },
{
    match x {
        Num::Finite(d) => if is_within(d, top) {
            Some(d)
        } else {
            None
        },
        _ => None,
    }
}

/// The number is below zero or above 1 dollar. What is not a number is neither.
pub open spec fn out_of_dollar(x: NumV) -> bool {
    match x {
        NumV::Finite(d) => !within(d, 1),
        NumV::Infinite { .. } => true,
        NumV::NotANumber => false,
    }
}

fn is_out_of_dollar(x: Num) -> (r: bool)
    ensures
        r == out_of_dollar(x@),
{
    match x {
        Num::Finite(d) => !is_within(d, 1),
        Num::Infinite { negative: _ } => true,
        Num::NotANumber => false,
    }
}

/// The policy that was read, with the values of its numbers.
pub open spec fn read_as(r: Result<ExitVariant, VariantFault>) -> Result<VariantV, VariantFault> {
    match r {
        Ok(v) => Ok(v@),
        Err(f) => Err(f),
    }
}

/// Policies with the values of their numbers.
pub open spec fn variant_values(v: Seq<ExitVariant>) -> Seq<VariantV> {
    v.map_values(|x: ExitVariant| x@)
}

/// The whole number in a text, where it has at most 64 bits.
pub open spec fn small(s: Seq<char>) -> Option<int> {
    match text::signed_number(s) {
        Some(n) if i64::MIN <= n <= i64::MAX => Some(n),
        _ => None,
    }
}

/// `s` begins with `prefix`.
pub open spec fn begins(s: Seq<char>, prefix: Seq<char>) -> bool {
    prefix.len() <= s.len() && s.take(prefix.len() as int) == prefix
}

/// What stands behind a prefix.
pub open spec fn behind(s: Seq<char>, prefix: Seq<char>) -> Seq<char> {
    s.skip(prefix.len() as int)
}

pub open spec fn smart_of(rest: Seq<char>) -> Result<VariantV, VariantFault> {
    let parts = text::split(rest, ':');
    if parts.len() != 2 {
        Err(VariantFault::SmartParts)
    } else {
        match (numeral::value(parts[0]), small(parts[1])) {
            (None, _) => Err(VariantFault::SmartX),
            (_, None) => Err(VariantFault::SmartY),
            (Some(x), Some(y)) => if !within_number(x, 100) {
                Err(VariantFault::SmartXRange)
            } else if y < 0 {
                Err(VariantFault::SmartYRange)
            } else {
                Ok(VariantV::Smart { x_pct: x->Finite_0, y_sec: y as i64 })
            },
        }
    }
}

pub open spec fn trailing_of(rest: Seq<char>) -> Result<VariantV, VariantFault> {
    match numeral::value(rest) {
        None => Err(VariantFault::TrailingZ),
        Some(z) => if !within_number(z, 100) {
            Err(VariantFault::TrailingZRange)
        } else {
            Ok(VariantV::Trailing { z_pct: z->Finite_0 })
        },
    }
}

pub open spec fn strail_of(rest: Seq<char>) -> Result<VariantV, VariantFault> {
    let parts = text::split(rest, ':');
    if parts.len() != 2 {
        Err(VariantFault::StrailParts)
    } else {
        match (numeral::value(parts[0]), numeral::value(parts[1])) {
            (None, _) => Err(VariantFault::StrailZ),
            (_, None) => Err(VariantFault::StrailS),
            (Some(z), Some(s)) => if !within_number(z, 100) {
                Err(VariantFault::StrailZRange)
            } else if out_of_dollar(s) {
                Err(VariantFault::StrailSRange)
            } else {
                Ok(VariantV::SpreadFilteredTrailing { z_pct: z->Finite_0, max_spread: s })
            },
        }
    }
}

pub open spec fn ctrail_of(rest: Seq<char>) -> Result<VariantV, VariantFault> {
    let parts = text::split(rest, ':');
    if parts.len() != 2 {
        Err(VariantFault::CtrailParts)
    } else {
        match (numeral::value(parts[0]), numeral::value(parts[1])) {
            (None, _) => Err(VariantFault::CtrailX),
            (_, None) => Err(VariantFault::CtrailZ),
            (Some(x), Some(z)) => if !within_number(x, 100) {
                Err(VariantFault::CtrailXRange)
            } else if !within_number(z, 100) {
                Err(VariantFault::CtrailZRange)
            } else {
                Ok(VariantV::TimeCappedTrailing { x_pct: x->Finite_0, z_pct: z->Finite_0 })
            },
        }
    }
}

pub open spec fn f6_of(rest: Seq<char>) -> Result<VariantV, VariantFault> {
    match small(rest) {
        None => Err(VariantFault::F6Y),
        Some(y) => if y < 0 {
            Err(VariantFault::F6YRange)
        } else {
            Ok(VariantV::F6Only { y_sec: y as i64 })
        },
    }
}

pub open spec fn target_of(token: Seq<char>) -> Result<VariantV, VariantFault> {
    match small(token) {
        None => Err(VariantFault::Token),
        Some(n) => if n == 0 {
            Ok(VariantV::Baseline)
        } else if n > 0 {
            Ok(VariantV::FirstTouch { tp_pct: n as u64 })
        } else {
            Err(VariantFault::Negative)
        },
    }
}

/// The policy that one token of a list names.
pub open spec fn variant_of(token: Seq<char>) -> Result<VariantV, VariantFault> {
    if text::lowered(token) == "peak"@ {
        Ok(VariantV::Peak)
    } else if begins(token, "smart:"@) {
        smart_of(behind(token, "smart:"@))
    } else if begins(token, "trailing:"@) {
        trailing_of(behind(token, "trailing:"@))
    } else if begins(token, "strail:"@) {
        strail_of(behind(token, "strail:"@))
    } else if begins(token, "ctrail:"@) {
        ctrail_of(behind(token, "ctrail:"@))
    } else if begins(token, "f6:"@) {
        f6_of(behind(token, "f6:"@))
    } else {
        target_of(token)
    }
}

/// The policies that the pieces of a list name; pieces of white space are passed
/// over, the first bad piece ends it.
pub open spec fn variants_of(pieces: Seq<Seq<char>>) -> Result<
    Seq<VariantV>,
    (VariantFault, Seq<char>),
>
    decreases pieces.len(),
{
    if pieces.len() == 0 {
        Ok(Seq::empty())
    } else {
        let token = text::trimmed(pieces.last());
        match variants_of(pieces.drop_last()) {
            Err(e) => Err(e),
            Ok(v) => if token.len() == 0 {
                Ok(v)
            } else {
                match variant_of(token) {
                    Ok(x) => Ok(v.push(x)),
                    Err(f) => Err((f, token)),
                }
            },
        }
    }
}

fn strip(s: &[char], prefix: &str) -> (r: Option<Vec<char>>)
    ensures
        match r {
            Some(rest) => begins(s@, prefix@) && rest@ == behind(s@, prefix@),
            None => !begins(s@, prefix@),
        },
{
    let p = chars_of(prefix);
    if p.len() > s.len() {
        return None;
    }
    let head = copy_range(s, 0, p.len());
    assert(head@ =~= s@.take(p@.len() as int));
    if same_chars(head.as_slice(), p.as_slice()) {
        let rest = copy_range(s, p.len(), s.len());
        assert(rest@ =~= behind(s@, prefix@));
        Some(rest)
    } else {
        None
    }
}

fn read_smart(rest: &[char]) -> (r: Result<ExitVariant, VariantFault>)
    ensures
        read_as(r) == smart_of(rest@),
{
    let parts = split_at_char(rest, ':');
    let ghost all = text::pieces(parts@);
    if parts.len() != 2 {
        return Err(VariantFault::SmartParts);
    }
    assert(all[0] == parts@[0]@ && all[1] == parts@[1]@);
    match read_value(parts[0].as_slice()) {
        None => Err(VariantFault::SmartX),
        Some(x) => match read_i64(parts[1].as_slice()) {
            None => Err(VariantFault::SmartY),
            Some(y) => match within_of(x, 100) {
                None => Err(VariantFault::SmartXRange),
                Some(x_pct) => if y < 0 {
                    Err(VariantFault::SmartYRange)
                } else {
                    Ok(ExitVariant::Smart { x_pct, y_sec: y })
                },
            },
        },
    }
}

fn read_trailing(rest: &[char]) -> (r: Result<ExitVariant, VariantFault>)
    ensures
        read_as(r) == trailing_of(rest@),
{
    match read_value(rest) {
        None => Err(VariantFault::TrailingZ),
        Some(z) => match within_of(z, 100) {
            None => Err(VariantFault::TrailingZRange),
            Some(z_pct) => Ok(ExitVariant::Trailing { z_pct }),
        },
    }
}

fn read_strail(rest: &[char]) -> (r: Result<ExitVariant, VariantFault>)
    ensures
        read_as(r) == strail_of(rest@),
{
    let parts = split_at_char(rest, ':');
    let ghost all = text::pieces(parts@);
    if parts.len() != 2 {
        return Err(VariantFault::StrailParts);
    }
    assert(all[0] == parts@[0]@ && all[1] == parts@[1]@);
    match read_value(parts[0].as_slice()) {
        None => Err(VariantFault::StrailZ),
        Some(z) => match read_value(parts[1].as_slice()) {
            None => Err(VariantFault::StrailS),
            Some(max_spread) => match within_of(z, 100) {
                None => Err(VariantFault::StrailZRange),
                Some(z_pct) => if is_out_of_dollar(max_spread) {
                    Err(VariantFault::StrailSRange)
                } else {
                    Ok(ExitVariant::SpreadFilteredTrailing { z_pct, max_spread })
                },
            },
        },
    }
}

fn read_ctrail(rest: &[char]) -> (r: Result<ExitVariant, VariantFault>)
    ensures
        read_as(r) == ctrail_of(rest@),
{
    let parts = split_at_char(rest, ':');
    let ghost all = text::pieces(parts@);
    if parts.len() != 2 {
        return Err(VariantFault::CtrailParts);
    }
    assert(all[0] == parts@[0]@ && all[1] == parts@[1]@);
    match read_value(parts[0].as_slice()) {
        None => Err(VariantFault::CtrailX),
        Some(x) => match read_value(parts[1].as_slice()) {
            None => Err(VariantFault::CtrailZ),
            Some(z) => match (within_of(x, 100), within_of(z, 100)) {
                (None, _) => Err(VariantFault::CtrailXRange),
                (_, None) => Err(VariantFault::CtrailZRange),
                (Some(x_pct), Some(z_pct)) => Ok(ExitVariant::TimeCappedTrailing { x_pct, z_pct }),
            },
        },
    }
}

fn read_f6(rest: &[char]) -> (r: Result<ExitVariant, VariantFault>)
    ensures
        read_as(r) == f6_of(rest@),
{
    match read_i64(rest) {
        None => Err(VariantFault::F6Y),
        Some(y) => {
            if y < 0 {
                Err(VariantFault::F6YRange)
            } else {
                Ok(ExitVariant::F6Only { y_sec: y })
            }
        },
    }
}

fn read_target(token: &[char]) -> (r: Result<ExitVariant, VariantFault>)
    ensures
        read_as(r) == target_of(token@),
{
    match read_i64(token) {
        None => Err(VariantFault::Token),
        Some(n) => {
            if n == 0 {
                Ok(ExitVariant::Baseline)
            } else if n > 0 {
                Ok(ExitVariant::FirstTouch { tp_pct: n as u64 })
            } else {
                Err(VariantFault::Negative)
            }
        },
    }
}

fn read_variant(token: &[char]) -> (r: Result<ExitVariant, VariantFault>)
    ensures
        read_as(r) == variant_of(token@),
{
    let word = text_of(token);
    if lowered_is(&word, "peak") {
        return Ok(ExitVariant::Peak);
    }
    if let Some(rest) = strip(token, "smart:") {
        return read_smart(rest.as_slice());
    }
    if let Some(rest) = strip(token, "trailing:") {
        return read_trailing(rest.as_slice());
    }
    if let Some(rest) = strip(token, "strail:") {
        return read_strail(rest.as_slice());
    }
    if let Some(rest) = strip(token, "ctrail:") {
        return read_ctrail(rest.as_slice());
    }
    if let Some(rest) = strip(token, "f6:") {
        return read_f6(rest.as_slice());
    }
    read_target(token)
}

/// Reads a list of policies, separated by commas: `0` is the time exit, `N` a
/// first touch at N percent, `peak`, `smart:X:Y`, `trailing:Z`, `strail:Z:S`,
/// `ctrail:X:Z` and `f6:Y`.
pub fn parse_variants(spec_text: &str) -> (r: Result<Vec<ExitVariant>, VariantError>)
    ensures
        match variants_of(text::split(spec_text@, ',')) {
            Err((fault, token)) => r matches Err(VariantError::Bad { fault: f, token: t }) && f
                == fault && t@ == token,
            Ok(v) => if v.len() == 0 {
                r matches Err(VariantError::Empty)
            } else {
                r matches Ok(out) && variant_values(out@) == v
            },
        },
{
    let chars = chars_of(spec_text);
    let parts = split_at_char(chars.as_slice(), ',');
    let ghost all = text::pieces(parts@);
    let mut out: Vec<ExitVariant> = Vec::new();
    let mut i: usize = 0;
    proof {
        assert(all.take(0) =~= Seq::empty());
        assert(variant_values(out@) =~= Seq::empty());
    }
    while i < parts.len()
        invariant
            i <= parts@.len(),
            all == text::pieces(parts@),
            all == text::split(spec_text@, ','),
            variants_of(all.take(i as int)) == Ok::<_, (VariantFault, Seq<char>)>(
                variant_values(out@),
            ),
        decreases parts@.len() - i,
    {
        proof {
            assert(all.take(i + 1).drop_last() =~= all.take(i as int));
            assert(all.take(i + 1).last() == parts@[i as int]@);
        }
        let token = trim(parts[i].as_slice());
        if token.len() > 0 {
            match read_variant(token.as_slice()) {
                Ok(v) => {
                    let ghost before = out@;
                    out.push(v);
                    assert(variant_values(out@) =~= variant_values(before).push(v@));
                },
                Err(fault) => {
                    proof {
                        lemma_error_stays(all, i + 1);
                    }
                    return Err(VariantError::Bad { fault, token: text_of(token.as_slice()) });
                },
            }
        }
        i += 1;
    }
    proof {
        assert(all.take(i as int) =~= all);
    }
    if out.len() == 0 {
        Err(VariantError::Empty)
    } else {
        Ok(out)
    }
}

proof fn lemma_error_stays(pieces: Seq<Seq<char>>, n: int)
    requires
        0 <= n <= pieces.len(),
        variants_of(pieces.take(n)) is Err,
    ensures
        variants_of(pieces) == variants_of(pieces.take(n)),
    decreases pieces.len(),
{
    if n == pieces.len() {
        assert(pieces.take(n) =~= pieces);
    } else {
        assert(pieces.drop_last().take(n) =~= pieces.take(n));
        lemma_error_stays(pieces.drop_last(), n);
    }
}

/// The policies that are run where none are asked for.
pub open spec fn usual_variants() -> Seq<ExitVariant> {
    seq![
        ExitVariant::Baseline,
        ExitVariant::FirstTouch { tp_pct: 5 },
        ExitVariant::FirstTouch { tp_pct: 10 },
        ExitVariant::FirstTouch { tp_pct: 15 },
        ExitVariant::FirstTouch { tp_pct: 20 },
        ExitVariant::FirstTouch { tp_pct: 25 },
        ExitVariant::FirstTouch { tp_pct: 30 },
        ExitVariant::FirstTouch { tp_pct: 40 },
        ExitVariant::FirstTouch { tp_pct: 50 },
        ExitVariant::Peak,
    ]
}

/// The time exit, eight first touches and the peak.
pub fn default_variants() -> (r: Vec<ExitVariant>)
    ensures
        r@ == usual_variants(),
{
    let out = vec![
        ExitVariant::Baseline,
        ExitVariant::FirstTouch { tp_pct: 5 },
        ExitVariant::FirstTouch { tp_pct: 10 },
        ExitVariant::FirstTouch { tp_pct: 15 },
        ExitVariant::FirstTouch { tp_pct: 20 },
        ExitVariant::FirstTouch { tp_pct: 25 },
        ExitVariant::FirstTouch { tp_pct: 30 },
        ExitVariant::FirstTouch { tp_pct: 40 },
        ExitVariant::FirstTouch { tp_pct: 50 },
        ExitVariant::Peak,
    ];
    assert(out@ =~= usual_variants());
    out
}

/// Every policy that a list can name keeps its numbers in their ranges.
pub open spec fn in_ranges(v: VariantV) -> bool {
    match v {
        VariantV::Baseline => true,
        VariantV::Peak => true,
        VariantV::FirstTouch { tp_pct } => tp_pct > 0,
        VariantV::Smart { x_pct, y_sec } => within(x_pct, 100) && y_sec >= 0,
        VariantV::Trailing { z_pct } => within(z_pct, 100),
        VariantV::SpreadFilteredTrailing { z_pct, max_spread } => within(z_pct, 100)
            && !out_of_dollar(max_spread),
        VariantV::TimeCappedTrailing { x_pct, z_pct } => within(x_pct, 100) && within(z_pct, 100),
        VariantV::F6Only { y_sec } => y_sec >= 0,
    }
}

/// Whatever a list names is a policy whose numbers are in their ranges.
pub proof fn law_listed_variants_are_in_range(pieces: Seq<Seq<char>>, i: int)
    requires
        variants_of(pieces) is Ok,
        0 <= i < variants_of(pieces)->Ok_0.len(),
    ensures
        in_ranges(variants_of(pieces)->Ok_0[i]),
    decreases pieces.len(),
{
    let v = variants_of(pieces)->Ok_0;
    let before = variants_of(pieces.drop_last())->Ok_0;
    if i < before.len() {
        law_listed_variants_are_in_range(pieces.drop_last(), i);
    } else {
        let token = text::trimmed(pieces.last());
        lemma_variant_in_range(token);
    }
}

proof fn lemma_variant_in_range(token: Seq<char>)
    requires
        variant_of(token) is Ok,
    ensures
        in_ranges(variant_of(token)->Ok_0),
{
}

} // verus!
