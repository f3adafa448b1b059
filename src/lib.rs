//! Integer divider/multiplier search for a clock generator whose output is
//! `F_REF * n / r`.
//!
//! Target frequencies are whole hertz in `[FREQ_MIN, FREQ_MAX]`. Ratios are
//! compared exactly, by cross-multiplication, so two pairs give the same
//! frequency only when `n1 * r2 == n2 * r1`, and the search for the nearest
//! pair has no rounding ties of its own.
use vstd::prelude::*;

pub mod best;
pub mod counting;
pub mod params;
pub mod ratio;
pub mod window;

verus! {

} // verus!
