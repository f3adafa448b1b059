use clock_ratio::best::best_match;
use clock_ratio::params::{F_REF, R_MAX};

// |freq / F_REF - n / r| scaled by r * F_REF, by direct arithmetic.
fn error_of(freq: u64, r: u32, n: u32) -> i128 {
    (r as i128 * freq as i128 - n as i128 * F_REF as i128).abs()
}

fn nearest(freq: u64, r: u32) -> u32 {
    ((r as f64) * (freq as f64) / (F_REF as f64)).round() as u32
}

fn check_optimal(freq: u64) -> (u32, u32) {
    let (r, n) = best_match(freq);
    assert!(r >= 1 && r <= R_MAX);
    assert_eq!(n, nearest(freq, r));
    let e = error_of(freq, r, n);
    for r2 in 1..=R_MAX {
        let n2 = nearest(freq, r2);
        let e2 = error_of(freq, r2, n2);
        // e2 / r2 < e / r would be a strictly better pair
        assert!(e2 * r as i128 >= e * r2 as i128, "r2={} beats r={}", r2, r);
        if r2 < r {
            assert!(e2 * (r as i128) > e * (r2 as i128));
        }
    }
    (r, n)
}

#[test]
fn best_match_lower_edge() {
    assert_eq!(best_match(1_000_000_000), (1, 25));
}

#[test]
fn best_match_upper_edge() {
    assert_eq!(best_match(2_000_000_000), (1, 50));
}

#[test]
fn best_match_scenario_is_optimal() {
    let (r, n) = check_optimal(1_214_770_000);
    let k = 1_214_770_000f64 / F_REF as f64;
    let delta = (k - n as f64 / r as f64).abs();
    assert!(delta < 1e-7);
}

#[test]
fn best_match_near_optimum_cross_check() {
    let freq: u64 = 1_214_770_000;
    let (r, n) = best_match(freq);
    let k = freq as f64 / F_REF as f64;
    let best = (k - n as f64 / r as f64).abs();
    let lo = if r > 50 { r - 50 } else { 1 };
    let hi = if r + 50 < R_MAX { r + 50 } else { R_MAX };
    for r2 in lo..=hi {
        let n2 = (r2 as f64 * k).round();
        let d2 = (k - n2 / r2 as f64).abs();
        assert!(d2 >= best - 1e-15);
    }
}

#[test]
fn best_match_other_samples_are_optimal() {
    for &f in &[
        1_214_771_000u64,
        1_214_771_200,
        1_542_150_000,
        1_000_001_000,
        1_999_996_000,
    ] {
        check_optimal(f);
    }
}

#[test]
fn best_match_exact_ratio_takes_smallest_divider() {
    // 40 MHz * 61 / 2 = 1.22 GHz; r = 4 with n = 122 is as exact but comes later
    assert_eq!(best_match(1_220_000_000), (2, 61));
}

#[test]
fn best_match_is_repeatable() {
    assert_eq!(best_match(1_654_321_000), best_match(1_654_321_000));
}

#[test]
fn best_match_agrees_with_float_sweep() {
    for &freq in &[1_214_770_000u64, 1_000_002_000, 1_999_999_000] {
        let k = freq as f64 / F_REF as f64;
        let mut best = (0u32, 0u32, 1000.0f64);
        for r in 1..=R_MAX {
            let n = (r as f64 * k).round();
            let d = (k - n / r as f64).abs();
            if d < best.2 {
                best = (r, n as u32, d);
            }
        }
        assert_eq!(best_match(freq), (best.0, best.1));
    }
}
