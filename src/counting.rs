//! Counting the coprime divider/multiplier pairs whose ratio lies between
//! `K_MIN` and `K_MAX`.
use vstd::prelude::*;
use crate::params::{K_MAX, K_MIN, R_MAX, R_MIN, are_coprime, clamp_n, gcd_spec, strip_n};

verus! {

/// How many `n` in `[lo, hi)` are coprime with `r`.
pub open spec fn coprime_below(r: int, lo: int, hi: int) -> nat
    decreases hi - lo,
{
    if hi <= lo {
        0
    } else {
        coprime_below(r, lo, hi - 1) + if gcd_spec((hi - 1) as nat, r as nat) == 1 {
            1nat
        } else {
            0nat
        }
    }
}

/// The multipliers counted for divider `r`: `[clamp_n(K_MIN * r), clamp_n(K_MAX * r)]`.
pub open spec fn row_count(r: int) -> nat {
    coprime_below(r, clamp_n(r * K_MIN), clamp_n(r * K_MAX) + 1)
}

/// The coprime pairs counted over the dividers `1..=r`.
pub open spec fn coprime_pairs(r: int) -> nat
    decreases r,
{
    if r < 1 {
        0
    } else {
        coprime_pairs(r - 1) + row_count(r)
    }
}

proof fn lemma_coprime_below_bound(r: int, lo: int, hi: int)
    requires
        lo <= hi,
    ensures
        coprime_below(r, lo, hi) <= hi - lo,
    decreases hi - lo,
{
    if hi > lo {
        lemma_coprime_below_bound(r, lo, hi - 1);
    }
}

/// The number of pairs `(r, n)` with `r` in the divider range and `n` in
/// `[clamp_n(K_MIN * r), clamp_n(K_MAX * r)]` such that `n` and `r` are
/// coprime.
pub fn count() -> (cnt: u32)
    ensures
        cnt == coprime_pairs(R_MAX as int),
{
    let mut cnt: u32 = 0;
    let mut r: u32 = R_MIN;
    while r <= R_MAX
        invariant
            1 <= r <= R_MAX + 1,
            cnt == coprime_pairs(r - 1),
            cnt <= 13 * (r - 1) * r,
        decreases R_MAX + 1 - r,
    {
        let n0 = strip_n(r * K_MIN);
        let n1 = strip_n(r * K_MAX);
        let ghost base = cnt;
        assert(13 * (r - 1) * r + 26 * r == 13 * r * (r + 1)) by (nonlinear_arith);
        assert(13 * r * (r + 1) <= 13 * 16383 * 16384) by (nonlinear_arith)
            requires
                1 <= r <= 16383,
        ;
        let mut n: u32 = n0;
        while n <= n1
            invariant
                1 <= r <= R_MAX,
                n0 == clamp_n(r * K_MIN),
                n1 == clamp_n(r * K_MAX),
                n0 <= n <= n1 + 1,
                cnt == base + coprime_below(r as int, n0 as int, n as int),
                base <= 13 * (r - 1) * r,
                13 * (r - 1) * r + 26 * r == 13 * r * (r + 1),
                13 * r * (r + 1) <= 13 * 16383 * 16384,
            decreases n1 + 1 - n,
        {
            proof {
                lemma_coprime_below_bound(r as int, n0 as int, n as int);
            }
            if are_coprime(n, r) {
                cnt = cnt + 1;
            }
            n = n + 1;
        }
        proof {
            lemma_coprime_below_bound(r as int, n0 as int, n as int);
        }
        r = r + 1;
    }
    cnt
}

} // verus!
