use opus_celt::cwrs::{build_pvq_table, decode_pulses, log2_frac_q3, pulse_cache, PVQ_SIZE};
use opus_celt::entdec::EntropyCoder;
use opus_celt::vq::extract_collapse_mask;

#[test]
fn table_small_values() {
    let v = build_pvq_table();
    assert_eq!(v.len(), PVQ_SIZE);
    assert_eq!(v[0][0], Some(1));
    assert_eq!(v[0][5], Some(0));
    assert_eq!(v[7][0], Some(1));
    assert_eq!(v[2][3], Some(12));
    assert_eq!(v[4][5], Some(360));
    assert_eq!(v[9][9], Some(864146));
    assert_eq!(v[176][3], Some(7269152));
    assert_eq!(v[176][176], None);
}

#[test]
fn table_follows_its_recurrence() {
    let v = build_pvq_table();
    for n in 1..PVQ_SIZE {
        for k in 1..PVQ_SIZE {
            match (v[n - 1][k], v[n][k - 1], v[n - 1][k - 1]) {
                (Some(a), Some(b), Some(c)) => {
                    let s = a as u64 + b as u64 + c as u64;
                    if s < 1 << 32 {
                        assert_eq!(v[n][k], Some(s as u32));
                    } else {
                        assert_eq!(v[n][k], None);
                    }
                }
                _ => assert_eq!(v[n][k], None),
            }
        }
    }
}

#[test]
fn decoded_codewords_hold_all_pulses() {
    let v = build_pvq_table();
    let data: Vec<u8> = (0..64u32).map(|i| (i * 97 + 13) as u8).collect();
    for (n, k) in [(2usize, 1usize), (4, 3), (8, 5), (16, 2), (3, 10)] {
        let mut ec = EntropyCoder::new(&data);
        let mut x = vec![0i32; n];
        decode_pulses(&mut x, k, &mut ec, &v);
        let l1: i32 = x.iter().map(|a| a.abs()).sum();
        assert_eq!(l1 as usize, k);
    }
}

#[test]
fn codewords_of_one_dimension() {
    let v = build_pvq_table();
    let high = [0xFFu8; 8];
    let mut ec = EntropyCoder::new(&high);
    let mut x = vec![0i32; 1];
    decode_pulses(&mut x, 4, &mut ec, &v);
    assert_eq!(x[0].abs(), 4);
}

#[test]
fn collapse_mask_marks_filled_blocks() {
    let x = [0, 0, 1, 0, 0, 0, 0, -2];
    assert_eq!(extract_collapse_mask(&x, 4), 0b1010);
    assert_eq!(extract_collapse_mask(&x, 1), 1);
    assert_eq!(extract_collapse_mask(&[0; 8], 4), 0);
    assert_eq!(extract_collapse_mask(&[1; 8], 8), 0xFF);
}

#[test]
fn fractional_log2() {
    assert_eq!(log2_frac_q3(1), 0);
    assert_eq!(log2_frac_q3(3), 13);
    assert_eq!(log2_frac_q3(5), 19);
    assert_eq!(log2_frac_q3(1000), 80);
    assert_eq!(log2_frac_q3(1 << 20), 160);
}

#[test]
fn pulse_caches() {
    let v = build_pvq_table();
    let c4 = pulse_cache(4, &v);
    assert_eq!(c4.len(), 40);
    assert_eq!(&c4[..10], &[23, 39, 51, 60, 67, 73, 78, 83, 87, 90]);
    let c1 = pulse_cache(1, &v);
    assert_eq!(c1.len(), 40);
    assert!(c1.iter().all(|&b| b == 7));
    assert!(pulse_cache(0, &v).is_empty());
}
