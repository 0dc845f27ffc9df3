use mzk::opus::celt::cwrs::log2_frac;
use mzk::opus::celt::rate::{bits2pulses, compute_pulse_cache, pulses2bits};

const EBANDS_5MS: [i32; 22] = [0, 1, 2, 3, 4, 5, 6, 7, 8, 10, 12, 14, 16, 20, 24, 28, 34, 40, 48, 60, 78, 100];

fn log_n() -> Vec<i32> {
    (0..21).map(|i| log2_frac((EBANDS_5MS[i + 1] - EBANDS_5MS[i]) as u32, 3)).collect()
}

#[test]
fn pulse_cache_layout() {
    let ln = log_n();
    let cache = compute_pulse_cache(&EBANDS_5MS, 21, &ln, 3);
    assert_eq!(cache.caps.len(), 4 * 2 * 21);
    assert_eq!(cache.index.len(), 5 * 21);
    for row in 0..5usize {
        for band in 0..21usize {
            let at = cache.index[row * 21 + band];
            let size = ((EBANDS_5MS[band + 1] - EBANDS_5MS[band]) << row) >> 1;
            if size == 0 {
                assert_eq!(at, -1);
            } else {
                assert!(at >= 0);
                assert!(cache.bits[at as usize] > 0);
            }
        }
    }
}

#[test]
fn pulses_and_bits_agree() {
    let ln = log_n();
    let cache = compute_pulse_cache(&EBANDS_5MS, 21, &ln, 3);
    for lm in -1..=3i32 {
        for band in [0usize, 8, 12, 20] {
            if cache.index[((lm + 1) as usize) * 21 + band] < 0 {
                continue;
            }
            assert_eq!(bits2pulses(&cache, 21, band, lm, 0), 0);
            assert_eq!(pulses2bits(&cache, 21, band, lm, 0), 0);
            let at = cache.index[((lm + 1) as usize) * 21 + band] as usize;
            let top = cache.bits[at] as i32;
            assert_eq!(bits2pulses(&cache, 21, band, lm, 10_000), top);
            for p in 1..=top {
                let b = pulses2bits(&cache, 21, band, lm, p);
                assert_eq!(b, cache.bits[at + p as usize] as i32 + 1);
                if p == 1 || cache.bits[at + p as usize - 1] < cache.bits[at + p as usize] {
                    assert_eq!(bits2pulses(&cache, 21, band, lm, b), p);
                }
            }
        }
    }
}

#[test]
fn pulse_cache_entries_follow_sizes() {
    let ln = log_n();
    let cache = compute_pulse_cache(&EBANDS_5MS, 21, &ln, 3);
    let size = |row: usize, band: usize| ((EBANDS_5MS[band + 1] - EBANDS_5MS[band]) << row) >> 1;
    for r1 in 0..5usize {
        for b1 in 0..21usize {
            for r2 in 0..5usize {
                for b2 in 0..21usize {
                    let same = cache.index[r1 * 21 + b1] == cache.index[r2 * 21 + b2];
                    assert_eq!(same, size(r1, b1) == size(r2, b2));
                }
            }
        }
    }
}
