use clock_ratio::params::{frequency_offset, realizable_frequency, F_REF, N_MAX, N_MIN, R_MAX};
use clock_ratio::window::{enumerate_window, Window, MIN_SOLUTIONS};

fn check_window(freq: u64, w: &Window) {
    assert!(w.pairs.len() >= MIN_SOLUTIONS);
    assert_eq!(w.dfreq, 1u64 << w.doublings);
    for &(r, n) in &w.pairs {
        assert!(r >= 1 && r <= R_MAX);
        assert!(n >= N_MIN && n <= N_MAX);
        let scaled = F_REF as i128 * n as i128;
        assert!(scaled >= (freq as i128 - w.dfreq as i128) * r as i128);
        assert!(scaled <= (freq as i128 + w.dfreq as i128) * r as i128);
    }
    for i in 1..w.pairs.len() {
        let (ra, na) = w.pairs[i - 1];
        let (rb, nb) = w.pairs[i];
        assert!((na as u64) * (rb as u64) < (nb as u64) * (ra as u64));
    }
}

fn count_distinct(freq: u64, dfreq: u64) -> usize {
    let mut seen: Vec<(u64, u64)> = Vec::new();
    for r in 1..=R_MAX as u64 {
        let low = (freq as i128 - dfreq as i128) * r as i128;
        let first = if low <= 0 { 0 } else { ((low + F_REF as i128 - 1) / F_REF as i128) as u64 };
        let start = if first < N_MIN as u64 { N_MIN as u64 } else { first };
        for n in start..=N_MAX as u64 {
            let scaled = F_REF as i128 * n as i128;
            if scaled > (freq as i128 + dfreq as i128) * r as i128 {
                break;
            }
            if scaled >= (freq as i128 - dfreq as i128) * r as i128 {
                let g = {
                    let (mut a, mut b) = (n, r);
                    while b != 0 {
                        let t = a % b;
                        a = b;
                        b = t;
                    }
                    a
                };
                let key = (n / g, r / g);
                if !seen.contains(&key) {
                    seen.push(key);
                }
            }
        }
    }
    seen.len()
}

#[test]
fn window_scenario() {
    let freq: u64 = 1_542_150_000;
    let w = enumerate_window(freq);
    check_window(freq, &w);
    for &(r, n) in &w.pairs {
        let (hz, rem) = realizable_frequency(r, n);
        let f = hz as f64 + rem as f64 / r as f64;
        let delta = f - freq as f64;
        assert!(delta.abs() <= w.dfreq as f64 + 1e-6);
        let direct = F_REF as f64 * n as f64 / r as f64 - freq as f64;
        assert!((delta - direct).abs() < 1e-5);
        let scaled = frequency_offset(freq, r, n);
        assert!((scaled as f64 / r as f64 - direct).abs() < 1e-5);
        assert!(scaled.unsigned_abs() <= w.dfreq * r as u64);
    }
}

#[test]
fn window_is_narrowest() {
    let freq: u64 = 1_542_150_000;
    let w = enumerate_window(freq);
    assert_eq!(count_distinct(freq, w.dfreq), w.pairs.len());
    if w.doublings > 0 {
        assert!(count_distinct(freq, w.dfreq / 2) < MIN_SOLUTIONS);
    }
}

#[test]
fn window_second_sample() {
    let freq: u64 = 1_654_321_000;
    let w = enumerate_window(freq);
    check_window(freq, &w);
}

#[test]
fn window_lower_edge() {
    let w = enumerate_window(1_000_000_000);
    check_window(1_000_000_000, &w);
    assert!(w.pairs.contains(&(8, 200)));
}

#[test]
fn window_upper_edge() {
    let w = enumerate_window(2_000_000_000);
    check_window(2_000_000_000, &w);
    assert!(w.pairs.contains(&(4, 200)));
}

#[test]
fn window_keeps_first_divider() {
    // 1 GHz is 40 MHz * 200 / 8: no smaller divider reaches it with n >= 192,
    // and r = 16, n = 400 gives the same frequency later in the sweep
    let w = enumerate_window(1_000_000_000);
    assert!(!w.pairs.contains(&(16, 400)));
}

#[test]
fn window_is_repeatable() {
    let a = enumerate_window(1_542_150_000);
    let b = enumerate_window(1_542_150_000);
    assert_eq!(a, b);
}
