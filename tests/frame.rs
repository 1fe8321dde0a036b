use opus_celt::consts::BAND_WIDTHS;
use opus_celt::decoder::{decode_band_boosts, decode_post_filter_params, tf_decode, TF_SELECT_TABLE};
use opus_celt::entdec::EntropyCoder;
use opus_celt::quant_bands::{decode_coarse_energy, decode_energy_finalise, decode_fine_energy};
use opus_celt::rate::{compute_allocation, get_bits, get_lo, lerp};

fn frame(seed: u32, len: usize) -> Vec<u8> {
    let mut s = seed;
    (0..len)
        .map(|_| {
            s = s.wrapping_mul(1664525).wrapping_add(1013904223);
            (s >> 24) as u8
        })
        .collect()
}

#[test]
fn tf_changes_come_from_one_table_row() {
    for seed in 0..20 {
        let data = frame(seed, 60);
        for transient in [false, true] {
            let mut ec = EntropyCoder::new(&data);
            let mut tf = vec![0i32; 21];
            tf_decode(transient, &mut tf, &mut ec);
            let row = &TF_SELECT_TABLE[transient as usize];
            let ok = |sel: usize| tf.iter().all(|&v| v == row[2 * sel] as i32 || v == row[2 * sel + 1] as i32);
            assert!(ok(0) || ok(1));
        }
    }
}

#[test]
fn boosts_are_whole_quanta_within_budget() {
    for seed in 0..20 {
        let data = frame(seed, 40);
        let mut ec = EntropyCoder::new(&data);
        let mut boosts = vec![0i32; 21];
        let total = decode_band_boosts(data.len(), &mut ec, &mut boosts);
        assert_eq!(total as i32, boosts.iter().sum::<i32>());
        assert!(total <= data.len() * 64 + 352);
        for i in 0..21 {
            let width = 16 * BAND_WIDTHS[i] as i32;
            let quanta = std::cmp::min(8 * width, std::cmp::max(48, width));
            assert_eq!(boosts[i] % quanta, 0);
        }
    }
}

#[test]
fn boosts_of_an_all_ones_frame() {
    let data = [0xFFu8; 8];
    let mut ec = EntropyCoder::new(&data);
    let mut boosts = vec![0i32; 21];
    let total = decode_band_boosts(data.len(), &mut ec, &mut boosts);
    assert!(total > 0);
    assert_eq!(boosts[0], 48 * (boosts[0] / 48));
}

#[test]
fn post_filter_parameters() {
    let data = [0xFFu8, 0xFF, 0xFF, 0xFF, 0x12, 0x34, 0x56, 0x78];
    let mut ec = EntropyCoder::new(&data);
    let (mut pitch, mut tapset, mut gain) = (0usize, 0usize, 0u32);
    let on = decode_post_filter_params(data.len() * 8, &mut pitch, &mut tapset, &mut gain, &mut ec);
    if on {
        assert!(pitch >= 15 && pitch <= 1022 && tapset <= 2 && gain <= 7);
    } else {
        assert_eq!((pitch, tapset, gain), (0, 0, 0));
    }
    let mut ec = EntropyCoder::new(&data[..2]);
    let on = decode_post_filter_params(16, &mut pitch, &mut tapset, &mut gain, &mut ec);
    assert!(!on);
}

#[test]
fn interpolation_search() {
    let bits1 = [100i32; 21];
    let bits2 = [200i32; 21];
    let thresh = [16i32; 21];
    assert_eq!(lerp(&bits1, &bits2, &thresh, 0), 2100);
    assert_eq!(lerp(&bits1, &bits2, &thresh, 64), 4200);
    assert_eq!(lerp(&bits1, &bits2, &thresh, 32), 3150);
    let lo = get_lo(&bits1, &bits2, &thresh, 3150);
    assert_eq!(lo, 32);
    assert_eq!(get_lo(&bits1, &bits2, &thresh, 100), 0);
    assert_eq!(get_lo(&bits1, &bits2, &thresh, 100000), 63);
    let thresh2 = [150i32; 21];
    let mut out = [0i32; 21];
    get_bits(&mut out, 0, &bits1, &bits2, &thresh2);
    assert!(out.iter().all(|&b| b == 16));
    get_bits(&mut out, 64, &bits1, &bits2, &thresh2);
    assert!(out.iter().all(|&b| b == 200));
    assert_eq!(lerp(&bits1, &bits2, &thresh2, 0), 21 * 16);
}

#[test]
fn allocation_shape() {
    for seed in 0..10 {
        for len in [20usize, 60, 160] {
            let data = frame(seed, len);
            let mut ec = EntropyCoder::new(&data);
            let boosts = [0i32; 21];
            let (mut intensity, mut dual) = (0usize, false);
            let mut pulses = [0i32; 21];
            let mut ebits = [0i32; 21];
            let mut prio = [0u32; 21];
            let coded = compute_allocation(&boosts, 5, &mut intensity, &mut dual, len, seed % 2 == 0, &mut pulses, &mut ebits, &mut prio, &mut ec);
            assert!(coded >= 1 && coded <= 21);
            assert!(intensity <= coded);
            for i in coded..21 {
                assert_eq!(pulses[i], 0);
                assert_eq!(prio[i], 0);
                assert!(ebits[i] == 0 || ebits[i] == 1);
            }
            for i in 0..coded {
                assert!(ebits[i] >= 0);
                assert!(prio[i] <= 1);
            }
        }
    }
}

#[test]
fn energies_decode() {
    let data = frame(7, 80);
    let mut ec = EntropyCoder::new(&data);
    let mut q = [0i32; 42];
    decode_coarse_energy(false, &mut ec, &mut q);
    assert!(q.iter().all(|v| v.abs() <= 32768));
    let fine = [2i32; 21];
    let mut f = [0u32; 42];
    decode_fine_energy(&fine, &mut ec, &mut f);
    assert!(f.iter().all(|&v| v < 4));
    let mut fin = [0i32; 42];
    let prio = [1u32; 21];
    decode_energy_finalise(&prio, 10, &mut ec, &mut fin);
    assert_eq!(fin.iter().filter(|&&v| v >= 0).count(), 10);
    assert!(fin.iter().all(|&v| v >= -1 && v <= 1));
}

#[test]
fn final_bits_go_to_priority_zero_bands_first() {
    let data = frame(3, 40);
    let mut ec = EntropyCoder::new(&data);
    let mut prio = [1u32; 21];
    for i in (1..21).step_by(2) {
        prio[i] = 0;
    }
    let mut q = [0i32; 42];
    decode_energy_finalise(&prio, 6, &mut ec, &mut q);
    for i in 0..21 {
        let read = i == 1 || i == 3 || i == 5;
        assert_eq!(q[i] != -1, read, "band {}", i);
        assert_eq!(q[21 + i] != -1, read);
    }
    let mut ec = EntropyCoder::new(&data);
    let mut q = [0i32; 42];
    decode_energy_finalise(&prio, 1, &mut ec, &mut q);
    assert!(q.iter().all(|&v| v == -1));
    let mut ec = EntropyCoder::new(&data);
    let mut q = [0i32; 42];
    decode_energy_finalise(&prio, 50, &mut ec, &mut q);
    assert_eq!(q.iter().filter(|&&v| v >= 0).count(), 42);
}
