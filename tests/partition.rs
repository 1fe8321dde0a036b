use opus_celt::bands::BandCtx;
use opus_celt::consts::BAND_WIDTHS;
use opus_celt::cwrs::{build_pvq_table, pulse_cache};
use opus_celt::entdec::EntropyCoder;
use opus_celt::partition::{mono_plan, partition_plan, stereo_split, Leaf, LeafFill};

fn caches(v: &Vec<Vec<Option<u32>>>) -> Vec<Vec<Vec<i32>>> {
    (0..5)
        .map(|level| {
            (0..21)
                .map(|i| {
                    let c = pulse_cache((BAND_WIDTHS[i] << level) >> 1, v);
                    if c.is_empty() {
                        vec![0x10_0000]
                    } else {
                        c
                    }
                })
                .collect()
        })
        .collect()
}

fn ctx(i: usize, remaining_bits: i32) -> BandCtx {
    BandCtx { i, intensity: 21, spread: 2, tf_change: 0, remaining_bits, seed: 12345 }
}

#[test]
fn starved_band_is_folded_on_filled_blocks() {
    let v = build_pvq_table();
    let c = caches(&v);
    let data: Vec<u8> = (0..64u32).map(|i| (i * 29 + 7) as u8).collect();
    let mut ec = EntropyCoder::new(&data);
    let mut cx = ctx(12, 1000);
    let mut leaves: Vec<Leaf> = Vec::new();
    let cm = partition_plan(&c, &v, &mut ec, &mut cx, 0, 32, 2, 4, true, 3, Vec::new(), 0b1011, 0, &mut leaves);
    assert_eq!(cm, 0b1011);
    assert_eq!(leaves.len(), 1);
    assert_eq!(leaves[0].len, 32);
    match &leaves[0].fill {
        LeafFill::Fold(seeds) => assert_eq!(seeds.len(), 32),
        _ => panic!("expected a folded piece"),
    }
    assert_eq!(cx.remaining_bits, 1000);
}

#[test]
fn starved_band_without_fill_is_zero() {
    let v = build_pvq_table();
    let c = caches(&v);
    let data = [0x5Au8; 16];
    let mut ec = EntropyCoder::new(&data);
    let mut cx = ctx(12, 1000);
    let mut leaves: Vec<Leaf> = Vec::new();
    let cm = partition_plan(&c, &v, &mut ec, &mut cx, 0, 32, 2, 4, false, 3, Vec::new(), 0b1_0000, 0, &mut leaves);
    assert_eq!(cm, 0);
    assert!(matches!(leaves[0].fill, LeafFill::Zero));
}

#[test]
fn rich_band_splits_into_pieces_that_tile_it() {
    let v = build_pvq_table();
    let c = caches(&v);
    for seed in 0..8u32 {
        let data: Vec<u8> = (0..200u32).map(|i| ((i + seed) * 131 + seed * 7) as u8).collect();
        let mut ec = EntropyCoder::new(&data);
        let mut cx = ctx(20, 4000);
        let mut leaves: Vec<Leaf> = Vec::new();
        let cm = partition_plan(&c, &v, &mut ec, &mut cx, 0, 176, 3000, 1, false, 3, Vec::new(), 1, 0, &mut leaves);
        let joint = leaves.iter().fold(0u32, |m, l| m | (l.mask << l.shift));
        assert_eq!(joint, cm);
        assert!(cm <= 1);
        assert!(leaves.len() > 1);
        let mut pos = vec![false; 176];
        for leaf in &leaves {
            for i in leaf.offset..leaf.offset + leaf.len {
                assert!(!pos[i]);
                pos[i] = true;
            }
            assert!(leaf.gains.len() <= 4);
            if let LeafFill::Pulses(p, k) = &leaf.fill {
                let l1: i32 = p.iter().map(|a| a.abs()).sum();
                assert_eq!(l1 as usize, *k);
            }
        }
        assert!(pos.iter().all(|&b| b));
    }
}

#[test]
fn single_piece_band_takes_a_codeword() {
    let v = build_pvq_table();
    let c = caches(&v);
    let data: Vec<u8> = (0..64u32).map(|i| (i * 53 + 11) as u8).collect();
    let mut ec = EntropyCoder::new(&data);
    let mut cx = ctx(0, 500);
    let mut leaves: Vec<Leaf> = Vec::new();
    let cm = partition_plan(&c, &v, &mut ec, &mut cx, 0, 2, 60, 1, false, 3, Vec::new(), 1, 0, &mut leaves);
    assert_eq!(cm, 1);
    match &leaves[0].fill {
        LeafFill::Pulses(p, k) => {
            assert_eq!(p.iter().map(|a| a.abs()).sum::<i32>() as usize, *k);
            assert!(*k >= 1);
        }
        _ => panic!("expected a codeword"),
    }
    assert!(cx.remaining_bits < 500);
}

#[test]
fn stereo_split_in_intensity_band_keeps_all_bits_for_mid() {
    use_stereo_split();
}

fn use_stereo_split() {
    let data = [0x12u8, 0x34, 0x56, 0x78, 0x9a, 0xbc, 0xde, 0xf0];
    let mut ec = EntropyCoder::new(&data);
    let mut cx = BandCtx { i: 12, intensity: 10, spread: 2, tf_change: 0, remaining_bits: 1000, seed: 0 };
    let (sctx, mbits, sbits, fill) = stereo_split(&mut ec, &mut cx, 32, 200, 1, 1);
    assert_eq!(sctx.itheta, 0);
    assert_eq!(mbits + sbits + sctx.qalloc, 200);
    assert_eq!(cx.remaining_bits, 1000 - sctx.qalloc);
    assert_eq!(fill, 1);
    assert!(mbits >= sbits);
}

#[test]
fn mono_plan_of_a_transient_band() {
    let v = build_pvq_table();
    let c = caches(&v);
    let data: Vec<u8> = (0..120u32).map(|i| (i * 71 + 3) as u8).collect();
    let mut ec = EntropyCoder::new(&data);
    let mut cx = ctx(17, 3000);
    cx.tf_change = 1;
    let plan = mono_plan(&c, &v, &mut ec, &mut cx, 64, 800, true, false, 0xFF);
    assert_eq!(plan.recombine, 1);
    assert_eq!(plan.b0, 4);
    assert_eq!(plan.time_divide, 0);
    let covered: usize = plan.leaves.iter().map(|l| l.len).sum();
    assert_eq!(covered, 64);
    assert!(plan.cm < 256);
}

#[test]
fn mono_plan_of_a_steady_band_keeps_one_mask_bit() {
    let v = build_pvq_table();
    let c = caches(&v);
    let data: Vec<u8> = (0..120u32).map(|i| (i * 23 + 9) as u8).collect();
    let mut ec = EntropyCoder::new(&data);
    let mut cx = ctx(15, 3000);
    cx.tf_change = -2;
    let plan = mono_plan(&c, &v, &mut ec, &mut cx, 48, 600, false, false, 1);
    assert_eq!(plan.time_divide, 2);
    assert_eq!(plan.b0, 4);
    assert!(plan.cm <= 1);
}

#[test]
fn stereo_plan_decodes_both_channels() {
    let v = build_pvq_table();
    let c = caches(&v);
    let data: Vec<u8> = (0..160u32).map(|i| (i * 101 + 17) as u8).collect();
    let mut ec = EntropyCoder::new(&data);
    let mut cx = ctx(16, 4000);
    let plan = opus_celt::partition::stereo_plan(&c, &v, &mut ec, &mut cx, 48, 900, false, false, 1);
    let mid: usize = plan.mid.leaves.iter().map(|l| l.len).sum();
    let side: usize = plan.side.leaves.iter().map(|l| l.len).sum();
    assert_eq!((mid, side), (48, 48));
    assert!(plan.cm <= 1);
    assert!(plan.split.itheta >= 0 && plan.split.itheta <= 16384);
}

#[test]
fn all_bands_of_a_frame() {
    use_all_bands(false);
    use_all_bands(true);
}

fn use_all_bands(transient: bool) {
    let v = build_pvq_table();
    let c = caches(&v);
    let data: Vec<u8> = (0..160u32).map(|i| (i.wrapping_mul(2654435761) >> 13) as u8).collect();
    let mut ec = EntropyCoder::new(&data);
    let boosts = [0i32; 21];
    let (mut intensity, mut dual) = (0usize, false);
    let mut pulses = [0i32; 21];
    let mut ebits = [0i32; 21];
    let mut prio = [0u32; 21];
    let coded = opus_celt::rate::compute_allocation(&boosts, 5, &mut intensity, &mut dual, data.len(), transient, &mut pulses, &mut ebits, &mut prio, &mut ec);
    let tf_res = [0i32; 21];
    let total_bits = data.len() * 64 - if transient { 8 } else { 0 };
    let plan = opus_celt::partition::quant_all_bands(&c, &v, &mut ec, 7, &pulses, transient, 2, dual, intensity, &tf_res, total_bits, coded);
    assert_eq!(plan.bands.len(), 21);
    assert_eq!(plan.collapse_masks.len(), 42);
    if !transient {
        assert!(plan.collapse_masks.iter().all(|&m| m <= 1));
    }
    assert!(ec.tell_frac() <= total_bits + 64);
}

#[test]
fn whole_frames_decode() {
    let v = build_pvq_table();
    let c = caches(&v);
    for seed in 0..6u32 {
        let data: Vec<u8> = (0..120u32).map(|i| ((i + 1).wrapping_mul(2246822519 ^ seed) >> 11) as u8).collect();
        let f = opus_celt::frame::decode_frame(&c, &v, &data, seed).expect("decodes");
        assert_eq!(f.coarse.len(), 42);
        assert_eq!(f.bands.bands.len(), 21);
        assert!(f.spread >= 0 && f.spread <= 3);
        assert!(f.finalise.iter().all(|&q| q >= -1 && q <= 1));
    }
    let silent = [0xFFu8; 8];
    let f = opus_celt::frame::decode_frame(&c, &v, &silent, 0).expect("decodes");
    assert!(f.silence);
    assert!(opus_celt::frame::decode_frame(&c, &v, &[], 0).is_none());
}
