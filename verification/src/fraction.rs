//! Exact non-negative fractions, compared by cross-multiplication.

use vstd::prelude::*;

verus! {

/// `a < b` for two fractions `(numerator, denominator)` with positive
/// denominators.
pub open spec fn frac_lt(a: (int, int), b: (int, int)) -> bool {
    a.0 * b.1 < b.0 * a.1
}

/// `a <= b` for two fractions `(numerator, denominator)` with positive
/// denominators.
pub open spec fn frac_le(a: (int, int), b: (int, int)) -> bool {
    a.0 * b.1 <= b.0 * a.1
}

/// A fraction with a non-negative numerator and a positive denominator.
pub open spec fn frac_valid(a: (int, int)) -> bool {
    a.0 >= 0 && a.1 > 0
}

/// A non-negative fraction `num / den`, kept exactly as it was computed (it is
/// not reduced to lowest terms).
#[derive(Clone, Copy, Debug)]
pub struct Fraction {
    pub num: u128,
    pub den: u128,
}

impl View for Fraction {
    type V = (int, int);

    open spec fn view(&self) -> (int, int) {
        (self.num as int, self.den as int)
    }
}

/// A fraction strictly below `b` is at most every fraction that `b` is at most.
pub proof fn lemma_frac_lt_le_transitive(a: (int, int), b: (int, int), c: (int, int))
    requires
        frac_valid(a),
        frac_valid(b),
        frac_valid(c),
        frac_lt(a, b),
        frac_le(b, c),
    ensures
        frac_lt(a, c),
{
    let (an, ad) = a;
    let (bn, bd) = b;
    let (cn, cd) = c;
    assert(an * cd < cn * ad) by (nonlinear_arith)
        requires
            an >= 0,
            ad > 0,
            bn >= 0,
            bd > 0,
            cn >= 0,
            cd > 0,
            an * bd < bn * ad,
            bn * cd <= cn * bd,
    {
        assert((an * bd) * cd < (bn * ad) * cd);
        assert((bn * cd) * ad <= (cn * bd) * ad);
        assert((an * cd) * bd < (cn * ad) * bd);
    }
}

} // verus!
