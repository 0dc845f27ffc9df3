use mzk::opus::celt::bands::{bitexact_cos, bitexact_log2tan, celt_lcg_rand, compute_qn, frac_mul16, isqrt32};
use mzk::opus::celt::energy::ec_laplace_decode;
use mzk::opus::celt::tf_decode;
use mzk::opus::celt::vq::collapse_mask;
use mzk::opus::range::RangeDecoder;

#[test]
fn q15_product_rounds_to_nearest() {
    assert_eq!(frac_mul16(16384, 16384), 8192);
    assert_eq!(frac_mul16(3, 5461), 0);
    assert_eq!(frac_mul16(6, 5462), 1);
    assert_eq!(frac_mul16(-626, 131072), -2504);
}

#[test]
fn bit_exact_cosine() {
    let got: Vec<i32> = [0, 1, 4096, 8192, 16384, -16384, 32767, -32768].iter().map(|&x| bitexact_cos(x)).collect();
    assert_eq!(got, vec![32768, 32768, 30274, 23171, 0, 0, -36540, -36540]);
}

#[test]
fn bit_exact_log_tangent() {
    let cases = [(32767, 32767), (16384, 32767), (1, 32767), (32767, 1), (0, 0), (23170, 23170), (12000, 30000)];
    let got: Vec<i32> = cases.iter().map(|&(s, c)| bitexact_log2tan(s, c)).collect();
    assert_eq!(got, vec![0, -2018, -30690, 30690, 0, 0, -2716]);
}

#[test]
fn integer_square_root() {
    let vals = [1u32, 2, 3, 4, 15, 16, 17, 99, 100, 1 << 31, u32::MAX, 123456789];
    let got: Vec<u32> = vals.iter().map(|&v| isqrt32(v)).collect();
    assert_eq!(got, vec![1, 1, 1, 2, 3, 4, 4, 9, 10, 46340, 65535, 11111]);
    for v in 1..5000u32 {
        let r = isqrt32(v);
        assert!(r * r <= v && v < (r + 1) * (r + 1));
    }
}

#[test]
fn angle_resolution() {
    assert_eq!(compute_qn(2, 100, 0, 0, false), 18);
    assert_eq!(compute_qn(2, 100, 0, 0, true), 76);
    assert_eq!(compute_qn(8, 300, 10, 20, false), 14);
    assert_eq!(compute_qn(1, 2, 0, 0, false), 1);
    assert_eq!(compute_qn(16, 2000, 30, 0, false), 256);
    assert_eq!(compute_qn(4, -50, 3, 0, false), 1);
}

#[test]
fn noise_generator_steps() {
    assert_eq!(celt_lcg_rand(0), 1013904223);
    assert_eq!(celt_lcg_rand(1), 1015568748);
    assert_eq!(celt_lcg_rand(42), 1083814273);
    assert_eq!(celt_lcg_rand(u32::MAX), 1012239698);
}

#[test]
fn collapse_mask_marks_blocks_with_pulses() {
    let iy = [0, 0, 1, 0, 0, 0, 0, 0, 0, -3, 0, 0, 0, 0, 0, 0];
    assert_eq!(collapse_mask(&iy, 16, 4), 0b0101);
    assert_eq!(collapse_mask(&iy, 16, 2), 0b11);
    assert_eq!(collapse_mask(&iy, 16, 1), 1);
    assert_eq!(collapse_mask(&[0; 8], 8, 8), 0);
}

#[test]
fn laplace_symbols() {
    let buf = [0x5au8, 0xc3, 0x17, 0x99, 0x00, 0xff, 0x42, 0x81];
    let mut d = RangeDecoder::new(&buf);
    let params = [(72u32 << 7, 127i32 << 6), (72 << 7, 127 << 6), (20000, 6000), (100, 16000), (32000, 100)];
    let got: Vec<i32> = params.iter().map(|&(fs, decay)| ec_laplace_decode(&mut d, fs, decay)).collect();
    assert_eq!(got, vec![-1, -1, -1, -42, 0]);
    assert_eq!(d.tell(), 17);
}

#[test]
fn time_frequency_flags() {
    let buf = [0x5au8, 0xc3, 0x17, 0x99, 0x00, 0xff, 0x42, 0x81];
    let mut d = RangeDecoder::new(&buf);
    assert_eq!(tf_decode(0, 21, false, 3, &mut d), vec![0; 21]);
    assert_eq!(d.tell(), 3);
    let mut d = RangeDecoder::new(&buf);
    assert_eq!(tf_decode(2, 10, true, 2, &mut d), vec![0, 0, 1, 1, 1, 1, 1, 1, 1, 1]);
    assert_eq!(d.tell(), 4);
    let ones = [0xffu8; 4];
    let mut d = RangeDecoder::new(&ones);
    assert_eq!(tf_decode(0, 8, false, 1, &mut d), vec![-2, 0, -2, 0, -2, 0, 0, 0]);
    assert_eq!(d.tell(), 31);
}
