//! Exact order on positive-denominator ratios `e / r`, by cross-multiplication.
use vstd::prelude::*;

verus! {

/// `ea / ra < eb / rb`, for positive `ra` and `rb`.
pub open spec fn ratio_lt(ea: int, ra: int, eb: int, rb: int) -> bool {
    ea * rb < eb * ra
}

/// `ea / ra == eb / rb`, for positive `ra` and `rb`.
pub open spec fn ratio_eq(ea: int, ra: int, eb: int, rb: int) -> bool {
    ea * rb == eb * ra
}

/// `a < b` and `b <= c` give `a < c`.
pub proof fn lemma_ratio_lt_le(ea: int, ra: int, eb: int, rb: int, ec: int, rc: int)
    requires
        ra > 0,
        rb > 0,
        rc > 0,
        ea * rb < eb * ra,
        eb * rc <= ec * rb,
    ensures
        ea * rc < ec * ra,
{
    assert(ea * rb * rc < eb * ra * rc) by (nonlinear_arith)
        requires
            rc > 0,
            ea * rb < eb * ra,
    ;
    assert(eb * rc * ra <= ec * rb * ra) by (nonlinear_arith)
        requires
            ra > 0,
            eb * rc <= ec * rb,
    ;
    assert(ea * rc < ec * ra) by (nonlinear_arith)
        requires
            rb > 0,
            ea * rb * rc < eb * ra * rc,
            eb * rc * ra <= ec * rb * ra,
    ;
}

/// `a == b` and `b == c` give `a == c`.
pub proof fn lemma_ratio_eq_trans(ea: int, ra: int, eb: int, rb: int, ec: int, rc: int)
    requires
        ra > 0,
        rb > 0,
        rc > 0,
        ea * rb == eb * ra,
        eb * rc == ec * rb,
    ensures
        ea * rc == ec * ra,
{
    assert(ea * rb * rc == eb * ra * rc) by (nonlinear_arith)
        requires
            ea * rb == eb * ra,
    ;
    assert(eb * rc * ra == ec * rb * ra) by (nonlinear_arith)
        requires
            eb * rc == ec * rb,
    ;
    assert(ea * rc == ec * ra) by (nonlinear_arith)
        requires
            rb > 0,
            ea * rb * rc == eb * ra * rc,
            eb * rc * ra == ec * rb * ra,
    ;
}

} // verus!
