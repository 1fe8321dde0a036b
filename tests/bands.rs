use opus_celt::bands::{
    adjust_delta, mono_layout, band_budget, bits2pulses, choose_pulses, compute_theta, rebalance, recombine_fill, split_bits,
    split_fill, split_mask, BandCtx, SplitCtx,
};
use opus_celt::bands_utils::{deinterleave_hadamard, get_estimate, get_theta, interleave_hadamard};
use opus_celt::entdec::EntropyCoder;

#[test]
fn bits2pulses_rounds_to_the_nearest_cost() {
    let cache = [10, 20, 30];
    assert_eq!(bits2pulses(&cache, 14), 1);
    assert_eq!(bits2pulses(&cache, 15), 1);
    assert_eq!(bits2pulses(&cache, 16), 2);
    assert_eq!(bits2pulses(&cache, 4), 0);
    assert_eq!(bits2pulses(&cache, 6), 1);
    assert_eq!(bits2pulses(&cache, 100), 3);
}

#[test]
fn choose_pulses_takes_the_highest_affordable() {
    let cache = [10, 20, 30];
    assert_eq!(choose_pulses(&cache, 100, 25), Some(1));
    assert_eq!(choose_pulses(&cache, 100, 1000), Some(2));
    assert_eq!(choose_pulses(&cache, 100, 5), None);
    assert_eq!(choose_pulses(&cache, 4, 1000), None);
}

#[test]
fn split_keeps_every_bit() {
    for (b, delta) in [(100, 0), (100, 40), (100, -300), (7, 200), (-5, 0), (0, 0)] {
        let (m, s) = split_bits(b, delta);
        assert_eq!(m + s, b);
        assert!(m >= 0);
    }
    assert_eq!(split_bits(100, 40), (30, 70));
    assert_eq!(split_bits(100, -300), (100, 0));
    assert_eq!(split_bits(7, 200), (0, 7));
}

#[test]
fn delta_bias() {
    assert_eq!(adjust_delta(100, 10000, 16, 1), 100 - 100 / 8);
    assert_eq!(adjust_delta(-100, 10000, 16, 1), -100 + 13);
    assert_eq!(adjust_delta(-100, 4000, 16, 1), -92);
    assert_eq!(adjust_delta(5, 4000, 16, 1), 0);
}

#[test]
fn fill_after_split() {
    assert_eq!(split_fill(0xFF, 0, 4), 0x0F);
    assert_eq!(split_fill(0xFF, 16384, 4), 0xF0);
    assert_eq!(split_fill(0xFF, 5000, 4), 0xFF);
}

#[test]
fn rebalance_gifts_what_was_left() {
    assert_eq!(rebalance(50, 100, 60, true), 66);
    assert_eq!(rebalance(50, 100, 60, false), 50);
    assert_eq!(rebalance(50, 100, 90, true), 50);
}

#[test]
fn recombination_masks() {
    assert_eq!(recombine_fill(0b0000_0001), 1);
    assert_eq!(recombine_fill(0b0001_0100), 0b0110);
    assert_eq!(recombine_fill(0xFF), 0xF);
    assert_eq!(split_mask(0b0101), 0x33);
    assert_eq!(split_mask(0xF), 0xFF);
}

#[test]
fn band_budget_shares_the_balance() {
    assert_eq!(band_budget(100, 30, 21, 0), 110);
    assert_eq!(band_budget(100, 30, 21, 19), 115);
    assert_eq!(band_budget(100, 30, 21, 20), 130);
    assert_eq!(band_budget(100, -31, 21, 5), 90);
    assert_eq!(band_budget(100, 30, 10, 12), 0);
}

#[test]
fn interleave_after_deinterleave_restores() {
    for (len, stride, hadamard) in [(16usize, 4usize, true), (16, 4, false), (48, 8, true), (32, 16, true), (12, 2, true)] {
        let orig: Vec<i32> = (0..len as i32).collect();
        let mut x = orig.clone();
        deinterleave_hadamard(&mut x, stride, hadamard);
        assert_ne!(x, orig);
        interleave_hadamard(&mut x, stride, hadamard);
        assert_eq!(x, orig);
    }
}

#[test]
fn deinterleave_places_hadamard_blocks() {
    let mut x: Vec<i32> = (0..8).collect();
    deinterleave_hadamard(&mut x, 4, false);
    assert_eq!(x, vec![0, 4, 1, 5, 2, 6, 3, 7]);
    let mut y: Vec<i32> = (0..8).collect();
    deinterleave_hadamard(&mut y, 4, true);
    assert_eq!(y, vec![1, 5, 3, 7, 2, 6, 0, 4]);
}

#[test]
fn estimate_without_source_fills_all_blocks() {
    let masks = [0u8; 42];
    let (mut x_cm, mut y_cm, mut lowband) = (0u8, 0u8, 0i32);
    get_estimate(0, &masks, 2, 0, 16, true, &mut x_cm, &mut y_cm, &mut lowband);
    assert_eq!((x_cm, y_cm, lowband), (255, 255, -1));
    get_estimate(3, &masks, 3, 0, 16, false, &mut x_cm, &mut y_cm, &mut lowband);
    assert_eq!((x_cm, y_cm, lowband), (1, 1, -1));
}

#[test]
fn estimate_ors_the_covered_masks() {
    let mut masks = [0u8; 42];
    masks[2 * 10] = 0x01;
    masks[2 * 11] = 0x10;
    masks[2 * 12] = 0x04;
    masks[2 * 12 + 1] = 0x80;
    let (mut x_cm, mut y_cm, mut lowband) = (0u8, 0u8, 0i32);
    get_estimate(12, &masks, 2, 0, 32, true, &mut x_cm, &mut y_cm, &mut lowband);
    assert_eq!(lowband, 8 * 16 - 32);
    assert_eq!(x_cm, 0x04 | 0x10);
    assert_eq!(y_cm, 0x80);
}

#[test]
fn theta_in_intensity_bands_is_zero() {
    let data = [0x12u8, 0x34, 0x56, 0x78, 0x9a, 0xbc, 0xde, 0xf0];
    let mut ec = EntropyCoder::new(&data);
    let mut ctx = BandCtx { i: 12, intensity: 10, spread: 2, tf_change: 0, remaining_bits: 1000, seed: 0 };
    let mut sctx = SplitCtx { is_inv: false, imid: 0, iside: 0, delta: 0, itheta: 0, qalloc: 0 };
    let mut b = 200;
    compute_theta(64, &mut ec, &mut ctx, &mut sctx, 32, &mut b, 1, true);
    assert_eq!(sctx.itheta, 0);
    assert_eq!(sctx.imid, 32767);
    assert_eq!(sctx.iside, 0);
    assert_eq!(sctx.delta, (31 * -32768 + 128) >> 8);
    assert_eq!(b, 200 - sctx.qalloc);
}

#[test]
fn theta_split_costs_its_bits() {
    let data = [0x12u8, 0x34, 0x56, 0x78, 0x9a, 0xbc, 0xde, 0xf0];
    let mut ec = EntropyCoder::new(&data);
    let mut ctx = BandCtx { i: 5, intensity: 21, spread: 2, tf_change: 0, remaining_bits: 1000, seed: 0 };
    let mut sctx = SplitCtx { is_inv: false, imid: 0, iside: 0, delta: 0, itheta: 0, qalloc: 0 };
    let mut b = 200;
    let before = ec.tell_frac() as i32;
    compute_theta(16, &mut ec, &mut ctx, &mut sctx, 8, &mut b, 1, false);
    assert_eq!(sctx.qalloc, ec.tell_frac() as i32 - before);
    assert!(sctx.qalloc > 0);
    assert_eq!(b + sctx.qalloc, 200);
    assert!(sctx.itheta % 1024 == 0 && sctx.itheta <= 16384);
}

#[test]
fn triangular_theta_in_range() {
    let data: Vec<u8> = (0..32u32).map(|i| (i * 37 + 5) as u8).collect();
    let mut ec = EntropyCoder::new(&data);
    for qn in [2, 4, 10, 64, 256] {
        let t = get_theta(&mut ec, qn, 1, false);
        assert!(t >= 0 && t <= qn);
        let t = get_theta(&mut ec, qn, 1, true);
        assert!(t >= 0 && t <= qn);
    }
}

#[test]
fn mono_layout_divides_and_recombines() {
    // no change
    assert_eq!(mono_layout(16, 0, false, 1), (0, 1, 0, 1));
    assert_eq!(mono_layout(64, 0, true, 0xA5), (0, 8, 0, 0xA5));
    // time divisions of a non-transient band: 1 -> 2 -> 4 -> 8 blocks
    assert_eq!(mono_layout(16, -3, false, 1), (0, 8, 3, 0xFF));
    assert_eq!(mono_layout(16, -2, false, 1), (0, 4, 2, 0xF));
    // an odd block length stops the division
    assert_eq!(mono_layout(6, -3, false, 1), (0, 2, 1, 3));
    // a transient band divided once more
    assert_eq!(mono_layout(64, -1, true, 0x81), (0, 16, 1, 0x8181));
    // recombinations of a transient band
    assert_eq!(mono_layout(64, 1, true, 0b0001_0100), (1, 4, 0, 0b0110));
    assert_eq!(mono_layout(64, 3, true, 0xFF), (3, 1, 0, 1));
}
