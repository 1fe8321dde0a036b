use opus_celt::bands_utils::{bitexact_cos, bitexact_log2tan, compute_qn, frac_mul16, get_pulses, log2_frac};
use opus_celt::utils::lcg_rand;

#[test]
fn cos_end_points_and_midpoint() {
    assert_eq!(bitexact_cos(0), 32767);
    assert_eq!(bitexact_cos(16384), 0);
    assert_eq!(bitexact_cos(8192), 23171);
}

#[test]
fn cos_never_rises_over_coded_angles() {
    let mut prev = bitexact_cos(64);
    for x in 65..=16384i16 {
        let c = bitexact_cos(x);
        assert!(c <= prev, "rises at {}", x);
        assert!(c >= 0);
        prev = c;
    }
}

#[test]
fn log2tan_values() {
    assert_eq!(bitexact_log2tan(16384, 16384), 0);
    assert_eq!(bitexact_log2tan(0, 16384), -32768);
    assert_eq!(bitexact_log2tan(16384, 0), 32768);
    assert_eq!(bitexact_log2tan(23170, 16384), 993);
    assert_eq!(bitexact_log2tan(100, 32767), -17107);
    assert_eq!(bitexact_log2tan(32767, 100), 17107);
}

#[test]
fn frac_mul16_rounds() {
    assert_eq!(frac_mul16(16384, 16384), 8192);
    assert_eq!(frac_mul16(-626, 1), 0);
    assert_eq!(frac_mul16(-626, 32764), -626);
    assert_eq!(frac_mul16(3, 5461), 0);
    assert_eq!(frac_mul16(3, 5462), 1);
}

#[test]
fn pulse_counts_of_cache_entries() {
    assert_eq!(get_pulses(0), 0);
    assert_eq!(get_pulses(7), 7);
    assert_eq!(get_pulses(8), 8);
    assert_eq!(get_pulses(9), 9);
    assert_eq!(get_pulses(16), 16);
    assert_eq!(get_pulses(17), 18);
    assert_eq!(get_pulses(40), 128);
}

#[test]
fn log2_in_eighth_bits_rounded_up() {
    assert_eq!(log2_frac(1), 0);
    assert_eq!(log2_frac(2), 8);
    assert_eq!(log2_frac(3), 13);
    assert_eq!(log2_frac(22), 36);
    assert_eq!(log2_frac(176), 60);
}

#[test]
fn theta_resolution() {
    assert_eq!(compute_qn(22, 88, 1000, 2), 10);
    assert_eq!(compute_qn(1, 4, 100, 1), 4);
    assert_eq!(compute_qn(8, 32, 40, 0), 2);
    assert_eq!(compute_qn(4, 16, 5000, 1), 256);
    assert_eq!(compute_qn(1, 2, 0, -1), 0);
}

#[test]
fn lcg_steps() {
    assert_eq!(lcg_rand(0), 1013904223);
    assert_eq!(lcg_rand(1), 1015568748);
    assert_eq!(lcg_rand(u32::MAX), 1013904223u32.wrapping_sub(1664525));
}
