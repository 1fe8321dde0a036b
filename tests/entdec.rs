use opus_celt::entdec::EntropyCoder;
use opus_celt::quant_bands::ec_laplace_decode;

const FRAME: [u8; 6] = [0x12, 0x34, 0x56, 0x78, 0x9a, 0xbc];

#[test]
fn init_reads_three_bytes_after_the_first() {
    let ec = EntropyCoder::new(&FRAME);
    assert_eq!(ec.range, 1u32 << 31);
    assert_eq!(ec.value, 1994773699);
    assert_eq!(ec.head, 4);
    assert_eq!(ec.nbits_total, 33);
    assert_eq!(ec.tell(), 1);
    assert_eq!(ec.tell_frac(), 8);
}

#[test]
fn silence_flag_set_by_high_first_bytes() {
    let data = [0xFFu8; 4];
    let mut ec = EntropyCoder::new(&data);
    assert_eq!(ec.decode_bit_logp(15), 1);
    assert_eq!(ec.tell(), 16);
    assert_eq!(ec.tell_frac(), 128);
    assert_eq!(ec.range, 16777216);
    assert_eq!(ec.value, 127);
}

#[test]
fn silence_flag_clear_on_zero_padding() {
    let data = [0xF8u8, 0, 0, 0];
    let mut ec = EntropyCoder::new(&data);
    assert_eq!(ec.decode_bit_logp(15), 0);
    assert_eq!(ec.tell(), 2);
    assert_eq!(ec.tell_frac(), 9);
}

#[test]
fn raw_bits_come_from_the_back_lowest_first() {
    let mut ec = EntropyCoder::new(&FRAME);
    assert_eq!(ec.raw_bits_left(), 48);
    assert_eq!(ec.decode_bits(3), 4);
    assert_eq!(ec.decode_bits(5), 23);
    assert_eq!(ec.decode_bits(12), 2202);
    assert_eq!(ec.tail, 3);
    assert_eq!(ec.raw_bits_left(), 28);
}

#[test]
fn uniform_integers_small_and_split() {
    let mut ec = EntropyCoder::new(&FRAME);
    assert_eq!(ec.decode_uint(6), 0);
    assert_eq!(ec.decode_uint(1000), 424);
    assert_eq!(ec.decode_uint(70000), 46767);
    assert_eq!(ec.tail, 2);
}

#[test]
fn icdf_symbols() {
    let mut ec = EntropyCoder::new(&FRAME);
    assert_eq!(ec.decode_icdf(&[25, 23, 2, 0], 5), 0);
    assert_eq!(ec.decode_icdf(&[126, 124, 119, 109, 87, 41, 19, 9, 4, 2, 0], 7), 5);
    assert_eq!(ec.decode_icdf(&[2, 1, 0], 2), 0);
}

#[test]
fn decode_then_update_keeps_range_normalised() {
    let mut ec = EntropyCoder::new(&FRAME);
    for ft in [3u32, 7, 100, 255, 1 << 15] {
        let fs = ec.decode(ft);
        assert!(fs < ft);
        ec.update(fs, fs + 1, ft);
        assert!(ec.range > 1 << 23);
        assert!(ec.value < ec.range);
    }
}

#[test]
fn reading_past_the_front_gives_zeros() {
    let data = [0x55u8];
    let mut ec = EntropyCoder::new(&data);
    for _ in 0..40 {
        ec.decode_bit_logp(1);
    }
    assert!(ec.range > 1 << 23);
    assert!(ec.tell() > 8);
}

#[test]
fn laplace_values() {
    let mut ec = EntropyCoder::new(&FRAME);
    let got: Vec<i32> = (0..5).map(|_| ec_laplace_decode(&mut ec, 72 * 128, 114 * 64)).collect();
    assert_eq!(got, vec![0, 0, 3, 0, 0]);
    let data = [0xA5u8, 0x3C, 0x0F, 0xF0, 0x55, 0xAA, 0x99, 0x66];
    let mut ec = EntropyCoder::new(&data);
    let got: Vec<i32> = (0..6).map(|_| ec_laplace_decode(&mut ec, 22 * 128, 178 * 64)).collect();
    assert_eq!(got, vec![3, 1, -3, 1, -1, 0]);
}

#[test]
fn icdf_with_an_empty_symbol() {
    let mut ec = EntropyCoder::new(&FRAME);
    let k = ec.decode_icdf(&[6, 6, 2, 0], 3);
    assert!(k != 1);
    assert!(k <= 3);
}
