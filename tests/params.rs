use clock_ratio::params::{are_coprime, frequency_offset, gcd, realizable_frequency, strip_n, F_REF, N_MAX, N_MIN};

#[test]
fn strip_n_clamps_below() {
    assert_eq!(strip_n(0), N_MIN);
    assert_eq!(strip_n(191), 192);
}

#[test]
fn strip_n_clamps_above() {
    assert_eq!(strip_n(600_000), N_MAX);
    assert_eq!(strip_n(524_288), 524_287);
}

#[test]
fn strip_n_keeps_in_range() {
    assert_eq!(strip_n(192), 192);
    assert_eq!(strip_n(1000), 1000);
    assert_eq!(strip_n(524_287), 524_287);
}

#[test]
fn gcd_values() {
    assert_eq!(gcd(12, 18), 6);
    assert_eq!(gcd(18, 12), 6);
    assert_eq!(gcd(5, 0), 5);
    assert_eq!(gcd(0, 7), 7);
    assert_eq!(gcd(17, 13), 1);
}

#[test]
fn coprime_values() {
    assert!(are_coprime(8, 15));
    assert!(!are_coprime(200, 8));
    assert!(are_coprime(1, 16383));
    assert!(!are_coprime(0, 4));
}

#[test]
fn realizable_frequency_exact_division() {
    assert_eq!(realizable_frequency(1, 25), (1_000_000_000, 0));
    assert_eq!(realizable_frequency(8, 400), (2_000_000_000, 0));
}

#[test]
fn realizable_frequency_with_remainder() {
    assert_eq!(realizable_frequency(3, 200), (2_666_666_666, 2));
    let (hz, rem) = realizable_frequency(16383, 524_287);
    assert_eq!(hz * 16383 + rem, F_REF as u64 * 524_287);
    assert!(rem < 16383);
}

#[test]
fn realizable_frequency_round_trip_float() {
    for &(r, n) in &[(7u32, 300u32), (16383, 497_000), (11, 192)] {
        let (hz, rem) = realizable_frequency(r, n);
        let exact = F_REF as f64 * n as f64 / r as f64;
        let back = hz as f64 + rem as f64 / r as f64;
        assert!((exact - back).abs() <= exact * 1e-15);
    }
}

#[test]
fn frequency_offset_values() {
    // 40 MHz * 200 / 8 is exactly 1 GHz
    assert_eq!(frequency_offset(1_000_000_000, 8, 200), 0);
    // 40 MHz * 200 / 3 = 2666666666.67 Hz, 1666666666.67 Hz above 1 GHz
    assert_eq!(frequency_offset(1_000_000_000, 3, 200), 5_000_000_000);
    // 40 MHz * 192 / 16383 lies far below 2 GHz
    assert_eq!(frequency_offset(2_000_000_000, 16383, 192), 7_680_000_000 - 32_766_000_000_000);
}
