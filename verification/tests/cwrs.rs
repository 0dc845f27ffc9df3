use mzk::opus::celt::cwrs::{fits_in32, get_pulses, get_required_bits, log2_frac, v_size};

#[test]
fn cwrs_v_size_recurrence() {
    assert_eq!(v_size(1, 0), 1);
    assert_eq!(v_size(2, 1), 4);
    assert_eq!(v_size(2, 2), 8);
    assert_eq!(v_size(3, 3), 38);
    assert_eq!(v_size(9, 9), 864146);
}

#[test]
fn v_size_recurrence() {
    assert_eq!(v_size(1, 0), 1);
    assert_eq!(v_size(2, 1), 4);
    assert_eq!(v_size(2, 2), 8);
    assert_eq!(v_size(3, 3), 38);
    assert_eq!(v_size(9, 9), 864146);
}

#[test]
fn log2_frac_powers() {
    assert_eq!(log2_frac(1, 3), 0);
    assert_eq!(log2_frac(2, 3), 8);
    assert_eq!(log2_frac(4, 3), 16);
}

#[test]
fn cwrs_log2_frac_powers() {
    assert_eq!(log2_frac(1, 3), 0);
    assert_eq!(log2_frac(2, 3), 8);
    assert_eq!(log2_frac(4, 3), 16);
}

#[test]
fn cwrs_v_size_equals_neighbour_sum() {
    for n in 2..6usize {
        for k in 1..6usize {
            assert_eq!(v_size(n, k), v_size(n - 1, k) + v_size(n, k - 1) + v_size(n - 1, k - 1));
        }
    }
}

#[test]
fn cwrs_pseudo_pulses() {
    assert_eq!(get_pulses(0), 0);
    assert_eq!(get_pulses(7), 7);
    assert_eq!(get_pulses(8), 8);
    assert_eq!(get_pulses(9), 9);
    assert_eq!(get_pulses(16), 16);
    assert_eq!(get_pulses(17), 18);
}

#[test]
fn cwrs_fits_in32_edges() {
    assert!(fits_in32(2, 1000));
    assert!(fits_in32(13, 15));
    assert!(!fits_in32(13, 16));
    assert!(fits_in32(14, 13));
    assert!(!fits_in32(14, 14));
    assert!(!fits_in32(15, 13));
}

#[test]
fn cwrs_required_bits_row() {
    let mut bits = vec![0i16; 4];
    get_required_bits(&mut bits, 1, 3, 3);
    assert_eq!(bits, vec![0, 8, 8, 8]);
    let mut bits = vec![0i16; 3];
    get_required_bits(&mut bits, 2, 2, 3);
    assert_eq!(bits[0], 0);
    assert_eq!(bits[1], 16);
    assert_eq!(bits[2], log2_frac(8, 3) as i16);
}

#[test]
fn log2_frac_rounds_non_powers_up() {
    assert_eq!(log2_frac(3, 3), 13);
    assert_eq!(log2_frac(5, 3), 19);
    assert_eq!(log2_frac(8, 3), 24);
}

#[test]
fn pseudo_pulses_grow_strictly() {
    for i in 0..40 {
        assert!(get_pulses(i) < get_pulses(i + 1));
    }
    assert_eq!(get_pulses(17), 18);
    assert_eq!(get_pulses(40), 128);
}
