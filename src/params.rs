//! The fixed parameter space of the device and the arithmetic shared by the
//! searches.
use vstd::prelude::*;

verus! {

/// Smallest divider.
pub const R_MIN: u32 = 1;

/// Largest divider.
pub const R_MAX: u32 = 16383;

/// Smallest multiplier.
pub const N_MIN: u32 = 192;

/// Largest multiplier.
pub const N_MAX: u32 = 524287;

/// Smallest output-to-reference ratio of the counting sweep.
pub const K_MIN: u32 = 25;

/// Largest output-to-reference ratio of the counting sweep.
pub const K_MAX: u32 = 50;

/// Reference clock, in hertz.
pub const F_REF: u32 = 40_000_000;

/// Lowest target frequency accepted by the searches, in hertz.
pub const FREQ_MIN: u64 = 1_000_000_000;

/// Highest target frequency accepted by the searches, in hertz.
pub const FREQ_MAX: u64 = 2_000_000_000;

/// `n` held to the multiplier range.
pub open spec fn clamp_n(n: int) -> int {
    if n < N_MIN {
        N_MIN as int
    } else if n > N_MAX {
        N_MAX as int
    } else {
        n
    }
}

/// Greatest common divisor by Euclid's recursion, with `gcd(a, 0) == a`.
pub open spec fn gcd_spec(a: nat, b: nat) -> nat
    decreases b,
{
    if b == 0 {
        a
    } else {
        gcd_spec(b, a % b)
    }
}

/// A target frequency that the searches accept.
pub open spec fn in_domain(freq: int) -> bool {
    FREQ_MIN <= freq <= FREQ_MAX
}

/// A divider in range.
pub open spec fn valid_r(r: int) -> bool {
    R_MIN <= r <= R_MAX
}

/// A multiplier in range.
pub open spec fn valid_n(n: int) -> bool {
    N_MIN <= n <= N_MAX
}

/// Clamps a multiplier to `[N_MIN, N_MAX]`.
pub fn strip_n(n: u32) -> (r: u32)
    ensures
        r == clamp_n(n as int),
{
    if n < N_MIN {
        N_MIN
    } else if n > N_MAX {
        N_MAX
    } else {
        n
    }
}

/// Greatest common divisor of `a` and `b`.
pub fn gcd(a: u32, b: u32) -> (r: u32)
    ensures
        r == gcd_spec(a as nat, b as nat),
    decreases b,
{
    if b == 0 {
        a
    } else {
        gcd(b, a % b)
    }
}

/// Whether `a` and `b` have no common divisor but one.
pub fn are_coprime(a: u32, b: u32) -> (r: bool)
    ensures
        r == (gcd_spec(a as nat, b as nat) == 1),
{
    gcd(a, b) == 1
}

/// The realizable frequency `F_REF * n / r` as whole hertz and a remainder:
/// the exact value is `hz + rem / r`.
pub fn realizable_frequency(r: u32, n: u32) -> (res: (u64, u64))
    requires
        valid_r(r as int),
        valid_n(n as int),
    ensures
        res.0 * r + res.1 == F_REF * n,
        res.1 < r,
{
    assert(F_REF * n <= 40_000_000 * 524287) by (nonlinear_arith)
        requires
            n <= 524287,
    ;
    let num: u64 = F_REF as u64 * n as u64;
    let d: u64 = r as u64;
    let q: u64 = num / d;
    let m: u64 = num % d;
    assert(q * d + m == num) by (nonlinear_arith)
        requires
            d > 0,
            q == num / d,
            m == num % d,
    ;
    (q, m)
}

/// The signed offset of the realizable frequency of `(r, n)` from `freq`,
/// times `r`: the offset in hertz is exactly `res / r`.
pub fn frequency_offset(freq: u64, r: u32, n: u32) -> (res: i64)
    requires
        in_domain(freq as int),
        valid_r(r as int),
        valid_n(n as int),
    ensures
        res == F_REF * n - freq * r,
{
    assert(F_REF * n <= 40_000_000 * 524287) by (nonlinear_arith)
        requires
            n <= 524287,
    ;
    assert(freq * r <= 2_000_000_000 * 16383) by (nonlinear_arith)
        requires
            freq <= 2_000_000_000,
            r <= 16383,
    ;
    (F_REF as i64) * (n as i64) - (freq as i64) * (r as i64)
}

} // verus!
