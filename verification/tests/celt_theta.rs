use mzk::opus::celt::cwrs::log2_frac;
use mzk::opus::celt::rate::{bits2pulses, compute_pulse_cache, pulses2bits};
use mzk::opus::celt::theta::{compute_theta, leaf_pulses, rebalance, should_split, split_bits, ThetaSplit};
use mzk::opus::celt::band_steps::{band_budget, decode_n1_signs, fold_source};
use mzk::opus::range::RangeDecoder;

const MIXED: [u8; 16] = [0x5A, 0x13, 0xC7, 0x88, 0x21, 0x9F, 0x44, 0x6B, 0xE0, 0x37, 0x02, 0xBD, 0x90, 0x7C, 0x15, 0xF3];

const EBANDS_5MS: [i32; 22] = [0, 1, 2, 3, 4, 5, 6, 7, 8, 10, 12, 14, 16, 20, 24, 28, 34, 40, 48, 60, 78, 100];

fn split(t: (i32, i32, i32, i32, i32, i32, i32, bool, i32, i32), buf: &[u8]) -> (ThetaSplit, i32) {
    let mut rd = RangeDecoder::new(buf);
    let (n, b, bparam, b0, lm, fill, log_n, stereo, past, remaining) = t;
    let r = compute_theta(&mut rd, n as usize, b, bparam, b0, lm, stereo, fill, log_n, past != 0, remaining);
    (r, rd.tell())
}

#[test]
fn theta_triangular_mono() {
    let (r, tell) = split((8, 200, 1, 1, 1, 1, 16, false, 0, 1000), &MIXED);
    assert_eq!(
        r,
        ThetaSplit { inv: false, imid: 28379, iside: 16384, delta: -44, itheta: 5461, qalloc: 20, b: 180, fill: 1 }
    );
    assert_eq!(tell, 4);
}

#[test]
fn theta_uniform_for_split_blocks() {
    let (r, tell) = split((8, 200, 2, 2, 1, 3, 16, false, 0, 1000), &MIXED);
    assert_eq!(
        r,
        ThetaSplit { inv: false, imid: 28379, iside: 16384, delta: -44, itheta: 5461, qalloc: 23, b: 177, fill: 3 }
    );
    assert_eq!(tell, 4);
}

#[test]
fn theta_stepped_stereo() {
    let (r, tell) = split((8, 300, 1, 1, 2, 1, 24, true, 0, 1000), &MIXED);
    assert_eq!(
        r,
        ThetaSplit { inv: false, imid: 30703, iside: 11449, delta: -80, itheta: 3723, qalloc: 32, b: 268, fill: 1 }
    );
    assert_eq!(tell, 5);
}

#[test]
fn theta_uniform_stereo_pair() {
    let (r, tell) = split((2, 200, 1, 1, 0, 1, 0, true, 0, 1000), &MIXED);
    assert_eq!(
        r,
        ThetaSplit { inv: false, imid: 27791, iside: 17360, delta: -5, itheta: 5824, qalloc: 65, b: 135, fill: 1 }
    );
    assert_eq!(tell, 10);
}

#[test]
fn theta_triangular_wider_band() {
    let (r, tell) = split((6, 1000, 1, 1, 2, 1, 20, false, 0, 5000), &MIXED);
    assert_eq!(
        r,
        ThetaSplit { inv: false, imid: 25956, iside: 20001, delta: -15, itheta: 6848, qalloc: 59, b: 941, fill: 1 }
    );
    assert_eq!(tell, 9);
}

#[test]
fn theta_past_intensity_reads_only_the_inversion() {
    let (r, _) = split((4, 100, 1, 1, 0, 1, 8, true, 1, 1000), &MIXED);
    assert_eq!(
        r,
        ThetaSplit { inv: false, imid: 32767, iside: 0, delta: -16384, itheta: 0, qalloc: 4, b: 96, fill: 1 }
    );
    let (r, tell) = split((4, 100, 1, 1, 0, 1, 8, true, 1, 1000), &[208, 143, 93, 199, 81, 36, 71, 227]);
    assert_eq!(
        r,
        ThetaSplit { inv: true, imid: 32767, iside: 0, delta: -16384, itheta: 0, qalloc: 16, b: 84, fill: 1 }
    );
    assert_eq!(tell, 3);
}

#[test]
fn theta_all_side_masks_the_fill() {
    let (r, tell) = split((8, 200, 2, 2, 1, 3, 16, false, 0, 1000), &[245, 140, 149, 240, 206, 75, 57, 193]);
    assert_eq!(
        r,
        ThetaSplit { inv: false, imid: 0, iside: 32767, delta: 16384, itheta: 16384, qalloc: 23, b: 177, fill: 0 }
    );
    assert_eq!(tell, 4);
}

#[test]
fn split_bits_shares() {
    assert_eq!(split_bits(180, -44, 5461, 1, 0, 4), (112, 68));
    assert_eq!(split_bits(177, -44, 5461, 2, 0, 4), (110, 67));
    assert_eq!(split_bits(177, -44, 12000, 2, 1, 4), (107, 70));
    assert_eq!(split_bits(177, 300, 12000, 2, 1, 4), (0, 177));
    assert_eq!(split_bits(100, -16384, 0, 2, 1, 8), (100, 0));
    assert_eq!(split_bits(50, 16384, 16384, 1, 0, 4), (0, 50));
    assert_eq!(split_bits(-10, 5, 3000, 1, 0, 4), (0, -10));
    assert_eq!(split_bits(177, -44, 3000, 2, -1, 8), (110, 67));
}

#[test]
fn rebalance_passes_on_the_surplus() {
    assert_eq!(rebalance(100, 50, 30, true), 56);
    assert_eq!(rebalance(100, 50, 30, false), 30);
    assert_eq!(rebalance(100, 80, 30, true), 30);
}

#[test]
fn leaf_pulses_fit_the_budget() {
    let log_n: Vec<i32> = (0..21).map(|i| log2_frac((EBANDS_5MS[i + 1] - EBANDS_5MS[i]) as u32, 3)).collect();
    let cache = compute_pulse_cache(&EBANDS_5MS, 21, &log_n, 3);
    for band in 0..21usize {
        for lm in 0..3i32 {
            for b in [0i32, 16, 40, 90, 200, 400] {
                for remaining in [-5i32, 0, 30, 1000] {
                    let (q, rem) = leaf_pulses(&cache, 21, band, lm, b, remaining);
                    let q0 = bits2pulses(&cache, 21, band, lm, b);
                    assert!(q <= q0);
                    assert_eq!(rem, remaining - pulses2bits(&cache, 21, band, lm, q));
                    assert!(rem >= 0 || q == 0);
                    if q < q0 {
                        assert!(remaining - pulses2bits(&cache, 21, band, lm, q + 1) < 0);
                    }
                }
            }
            let _ = should_split(&cache, 21, band, lm, 200, 8);
        }
    }
}

#[test]
fn split_needs_room_and_width() {
    let log_n: Vec<i32> = (0..21).map(|i| log2_frac((EBANDS_5MS[i + 1] - EBANDS_5MS[i]) as u32, 3)).collect();
    let cache = compute_pulse_cache(&EBANDS_5MS, 21, &log_n, 3);
    assert!(!should_split(&cache, 21, 20, -1, 100000, 44));
    assert!(!should_split(&cache, 21, 20, 2, 100000, 2));
    assert!(should_split(&cache, 21, 20, 2, 100000, 44));
    assert!(!should_split(&cache, 21, 20, 2, 0, 44));
}

#[test]
fn band_budgets() {
    use_band_budget();
}

fn use_band_budget() {
    assert_eq!(band_budget(0, 5, 30, 100, 1000), 110);
    assert_eq!(band_budget(3, 5, -7, 2, 1000), 0);
    assert_eq!(band_budget(5, 5, 100, 100, 1000), 0);
    assert_eq!(band_budget(0, 1, 0, 20000, 30000), 16383);
    assert_eq!(band_budget(0, 2, 10, 50, 20), 21);
    assert_eq!(band_budget(2, 5, -9, 40, 1000), 37);
}

#[test]
fn one_sample_band_signs() {
    let buf = [0x00u8, 0b0000_0010];
    let mut rd = RangeDecoder::new(&buf);
    assert_eq!(decode_n1_signs(&mut rd, true, 20), (vec![0, 1], 4));
    let mut rd = RangeDecoder::new(&buf);
    assert_eq!(decode_n1_signs(&mut rd, true, 10), (vec![0, 0], 2));
    let mut rd = RangeDecoder::new(&buf);
    assert_eq!(decode_n1_signs(&mut rd, false, 7), (vec![0], 7));
}

const EB: [i32; 22] = [0, 1, 2, 3, 4, 5, 6, 7, 8, 10, 12, 14, 16, 20, 24, 28, 34, 40, 48, 60, 78, 100];

#[test]
fn fold_sources_and_masks() {
    let cm: Vec<u8> = (0..48).map(|k| if k < 8 { 1u8 << k } else { 0 }).collect();
    assert_eq!(fold_source(&EB, 8, 3, 5, 8, 0, 1, &cm, true, 1), (Some(16), 4, 4));
    let seq: Vec<u8> = (1..60).map(|k| (k % 256) as u8).collect();
    assert_eq!(fold_source(&EB, 8, 10, 12, 16, 0, 1, &seq, true, 1), (Some(80), 10, 10));
    assert_eq!(fold_source(&EB, 8, 10, 12, 16, 0, 2, &seq, true, 1), (Some(80), 19, 20));
    assert_eq!(fold_source(&EB, 8, 0, 5, 8, 0, 1, &cm, true, 4), (None, 15, 15));
    assert_eq!(fold_source(&EB, 8, 3, 5, 8, 0, 1, &cm, false, 3), (None, 7, 7));
    let mixed: Vec<u8> = (0..60).map(|k| ((k * 37) % 256) as u8).collect();
    assert_eq!(fold_source(&EB, 4, 15, 17, 24, 8, 2, &mixed, true, 1), (Some(80), 206, 247));
}
