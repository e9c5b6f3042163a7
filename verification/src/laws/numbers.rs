//! How numbers compare, infinite ones and those that are no numbers included.

use crate::config::{self, Num, NumV};
use crate::decimal::{self, Dec, DecV};
use vstd::prelude::*;

verus! {

/// What is no number compares with nothing.
pub proof fn law_no_number_compares_with_nothing(a: Num, b: Num, limit: DecV)
    requires
        a is NotANumber || b is NotANumber,
    ensures
        !a.reaches(b),
        !a.precedes(b),
        !config::value_reaches(a@, b@),
        a is NotANumber ==> !a.above(limit) && !a.at_least(limit) && !a.below(limit) && !a.at_most(
            limit,
        ),
{
}

/// Of two numbers one is less than the other, or reaches it, and not both; finite
/// ones compare as decimals.
pub proof fn law_numbers_compare(a: Num, b: Num)
    requires
        !(a is NotANumber),
        !(b is NotANumber),
    ensures
        a.precedes(b) <==> !a.reaches(b),
        a.reaches(b) <==> config::value_reaches(a@, b@),
        a.reaches(b) || b.reaches(a),
        a.reaches(a),
        a is Finite && b is Finite ==> (a.reaches(b) <==> decimal::le(b->Finite_0@, a->Finite_0@)),
{
    if a is Finite && b is Finite {
        decimal::lemma_lt_le(a->Finite_0@, b->Finite_0@);
        decimal::lemma_lt_le(a->Finite_0@, a->Finite_0@);
    }
}

/// Reaching is handed on.
pub proof fn law_reaching_is_transitive(a: Num, b: Num, c: Num)
    requires
        a.reaches(b),
        b.reaches(c),
    ensures
        a.reaches(c),
{
    if a is Finite && b is Finite && c is Finite {
        decimal::lemma_le_transitive(c->Finite_0@, b->Finite_0@, a->Finite_0@);
    }
}

/// An infinite number is above every finite one, or below every one, by its sign.
pub proof fn law_infinity_is_beyond_every_number(d: Dec)
    ensures
        ({
            let (up, down, x) = (
                Num::Infinite { negative: false },
                Num::Infinite { negative: true },
                Num::Finite(d),
            );
            &&& up.reaches(x) && !x.reaches(up) && x.reaches(down) && !down.reaches(x)
            &&& up.reaches(down) && !down.reaches(up)
            &&& up.above(d@) && up.at_least(d@) && !up.below(d@) && !up.at_most(d@)
            &&& down.below(d@) && down.at_most(d@) && !down.above(d@) && !down.at_least(d@)
        }),
{
}

/// The four comparisons with a limit are the comparisons with that number.
pub proof fn law_limits_are_numbers(a: Num, limit: Dec)
    requires
        !(a is NotANumber),
    ensures
        ({
            let l = Num::Finite(limit);
            &&& a.at_least(limit@) <==> a.reaches(l)
            &&& a.at_most(limit@) <==> l.reaches(a)
            &&& a.above(limit@) <==> !l.reaches(a)
            &&& a.below(limit@) <==> !a.reaches(l)
        }),
{
    if a is Finite {
        decimal::lemma_lt_le(a->Finite_0@, limit@);
        decimal::lemma_lt_le(limit@, a->Finite_0@);
    }
}

} // verus!
