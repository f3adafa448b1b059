//! The best single divider/multiplier pair for a target frequency.
use vstd::prelude::*;
use crate::params::{F_REF, R_MAX, in_domain, valid_r};
use crate::ratio::{lemma_ratio_lt_le, ratio_lt};

verus! {

/// The multiplier nearest to `r * freq / F_REF`, halves rounded up.
pub open spec fn nearest_n(freq: int, r: int) -> int {
    (2 * r * freq + F_REF) / (2 * F_REF)
}

/// `|freq / F_REF - n / r|` scaled by `r * F_REF`, i.e. `|r * freq - n * F_REF|`.
pub open spec fn scaled_error(freq: int, r: int, n: int) -> int {
    let e = r * freq - n * F_REF;
    if e < 0 {
        -e
    } else {
        e
    }
}

/// The pair `(ra, na)` approximates `freq / F_REF` strictly better than `(rb, nb)`.
pub open spec fn closer(freq: int, ra: int, na: int, rb: int, nb: int) -> bool {
    ratio_lt(scaled_error(freq, ra, na), ra, scaled_error(freq, rb, nb), rb)
}

/// `(r, n)` is the best match for `freq`: `n` is the nearest multiplier for
/// `r`, no divider in range does strictly better with its own nearest
/// multiplier, and every smaller divider does strictly worse.
pub open spec fn is_best_match(freq: int, r: int, n: int) -> bool {
    &&& valid_r(r)
    &&& n == nearest_n(freq, r)
    &&& forall|r2: int|
        valid_r(r2) ==> !closer(freq, r2, #[trigger] nearest_n(freq, r2), r, n)
    &&& forall|r2: int|
        1 <= r2 < r ==> closer(freq, r, n, r2, #[trigger] nearest_n(freq, r2))
}

/// The nearest multiplier for `r` and its scaled error.
fn nearest_with_error(freq: u64, r: u32) -> (res: (u32, u64))
    requires
        in_domain(freq as int),
        valid_r(r as int),
    ensures
        res.0 == nearest_n(freq as int, r as int),
        res.1 == scaled_error(freq as int, r as int, res.0 as int),
        res.1 <= 20_000_000,
{
    let f: u64 = F_REF as u64;
    assert(r * freq <= 16383 * 2_000_000_000) by (nonlinear_arith)
        requires
            r <= 16383,
            freq <= 2_000_000_000,
    ;
    let rf: u64 = r as u64 * freq;
    let n: u64 = (2 * rf + f) / (2 * f);
    assert(2 * r * freq == 2 * rf) by (nonlinear_arith)
        requires
            rf == r * freq,
    ;
    assert(2 * f * n <= 2 * rf + f < 2 * f * n + 2 * f) by (nonlinear_arith)
        requires
            f > 0,
            n == (2 * rf + f) / (2 * f),
    ;
    assert(n <= 1_000_000) by (nonlinear_arith)
        requires
            f == 40_000_000,
            2 * f * n <= 2 * rf + f,
            rf <= 16383 * 2_000_000_000,
    ;
    assert(n * f == f * n) by (nonlinear_arith);
    let nf: u64 = n * f;
    let e: u64 = if rf >= nf {
        rf - nf
    } else {
        nf - rf
    };
    (n as u32, e)
}

/// The pair `(r, n)` whose ratio `n / r` is nearest to `freq / F_REF` over
/// every divider in range, `n` being the nearest multiplier for each `r`;
/// among equally near pairs the smallest divider wins. The multiplier is not
/// held to the multiplier range.
pub fn best_match(freq: u64) -> (res: (u32, u32))
    requires
        in_domain(freq as int),
    ensures
        is_best_match(freq as int, res.0 as int, res.1 as int),
{
    let first = nearest_with_error(freq, 1);
    let mut best_r: u32 = 1;
    let mut best_n: u32 = first.0;
    let mut best_e: u64 = first.1;
    let mut r: u32 = 2;
    while r <= R_MAX
        invariant
            in_domain(freq as int),
            2 <= r <= R_MAX + 1,
            1 <= best_r < r,
            best_n == nearest_n(freq as int, best_r as int),
            best_e == scaled_error(freq as int, best_r as int, best_n as int),
            best_e <= 20_000_000,
            forall|r2: int|
                1 <= r2 < r ==> !closer(
                    freq as int,
                    r2,
                    #[trigger] nearest_n(freq as int, r2),
                    best_r as int,
                    best_n as int,
                ),
            forall|r2: int|
                1 <= r2 < best_r ==> closer(
                    freq as int,
                    best_r as int,
                    best_n as int,
                    r2,
                    #[trigger] nearest_n(freq as int, r2),
                ),
        decreases R_MAX + 1 - r,
    {
        let cur = nearest_with_error(freq, r);
        assert(cur.1 * best_r <= 20_000_000 * 16383) by (nonlinear_arith)
            requires
                cur.1 <= 20_000_000,
                best_r <= 16383,
        ;
        assert(best_e * r <= 20_000_000 * 16383) by (nonlinear_arith)
            requires
                best_e <= 20_000_000,
                r <= 16383,
        ;
        if cur.1 * (best_r as u64) < best_e * (r as u64) {
            let ghost (ob_r, ob_n, ob_e) = (best_r as int, best_n as int, best_e as int);
            assert forall|r2: int| 1 <= r2 < r + 1 implies !closer(
                freq as int,
                r2,
                #[trigger] nearest_n(freq as int, r2),
                r as int,
                cur.0 as int,
            ) by {
                if r2 < r {
                    let e2 = scaled_error(freq as int, r2, nearest_n(freq as int, r2));
                    lemma_ratio_lt_le(cur.1 as int, r as int, ob_e, ob_r, e2, r2);
                }
            }
            assert forall|r2: int| 1 <= r2 < r implies closer(
                freq as int,
                r as int,
                cur.0 as int,
                r2,
                #[trigger] nearest_n(freq as int, r2),
            ) by {
                let e2 = scaled_error(freq as int, r2, nearest_n(freq as int, r2));
                if r2 < ob_r {
                    lemma_ratio_lt_le(cur.1 as int, r as int, ob_e, ob_r, e2, r2);
                } else {
                    lemma_ratio_lt_le(cur.1 as int, r as int, ob_e, ob_r, e2, r2);
                }
            }
            best_r = r;
            best_n = cur.0;
            best_e = cur.1;
        }
        r = r + 1;
    }
    (best_r, best_n)
}

/// One target has one best match: whatever pairs two calls of `best_match`
/// on the same frequency return, they are the same pair.
pub proof fn lemma_best_match_unique(freq: int, r1: int, n1: int, r2: int, n2: int)
    requires
        is_best_match(freq, r1, n1),
        is_best_match(freq, r2, n2),
    ensures
        r1 == r2,
        n1 == n2,
{
    if r1 < r2 {
        assert(closer(freq, r2, n2, r1, nearest_n(freq, r1)));
        assert(!closer(freq, r2, nearest_n(freq, r2), r1, n1));
    } else if r2 < r1 {
        assert(closer(freq, r1, n1, r2, nearest_n(freq, r2)));
        assert(!closer(freq, r1, nearest_n(freq, r1), r2, n2));
    }
}

} // verus!
