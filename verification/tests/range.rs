use mzk::opus::range::RangeDecoder;

fn bytes(seed: u64, len: usize) -> Vec<u8> {
    let mut s = seed.wrapping_add(0x9E37_79B9_7F4A_7C15);
    (0..len)
        .map(|_| {
            s = s.wrapping_add(0x9E37_79B9_7F4A_7C15);
            let mut z = s;
            z = (z ^ (z >> 30)).wrapping_mul(0xBF58_476D_1CE4_E5B9);
            z = (z ^ (z >> 27)).wrapping_mul(0x94D0_49BB_1331_11EB);
            (z ^ (z >> 31)) as u8
        })
        .collect()
}

fn each_case(count: u64, max_len: usize, mut f: impl FnMut(&[u8])) {
    for seed in 0..count {
        let len = (seed as usize * 2654435761) % (max_len + 1);
        f(&bytes(seed, len));
    }
}

#[test]
fn tell_starts_at_one() {
    let buf = [0xFFu8; 8];
    let d = RangeDecoder::new(&buf);
    assert_eq!(d.tell(), 1);
}

#[test]
fn raw_bits_read_from_tail_lsb_first_per_word() {
    let mut buf = [0u8; 4];
    buf[3] = 0b0000_0101;
    let mut d = RangeDecoder::new(&buf);
    assert_eq!(d.dec_bits(3), 0b101);
}

#[test]
fn icdf_full_range_selects_first_when_top() {
    let buf = [0u8; 8];
    let mut d = RangeDecoder::new(&buf);
    let icdf = [128u8, 0u8];
    let s = d.dec_icdf(&icdf, 8);
    assert!(s == 0 || s == 1);
}

#[test]
fn fuzz_never_panics_on_arbitrary_bytes() {
    each_case(4000, 96, |data| {
        if data.is_empty() {
            return;
        }
        let mut d = RangeDecoder::new(data);
        let icdf = [128u8, 64, 16, 0];
        for step in 0..64 {
            match step % 6 {
                0 => {
                    let ft = (d.decode(64) + 1).min(64);
                    d.update(0, 1, ft.max(2));
                }
                1 => {
                    d.decode_bin(5);
                    d.update(0, 1, 32);
                }
                2 => {
                    d.dec_bit_logp(3);
                }
                3 => {
                    d.dec_icdf(&icdf, 8);
                }
                4 => {
                    d.dec_uint(((step as u32) << 3) + 2);
                }
                _ => {
                    d.dec_bits((step as u32 % 25) + 1);
                }
            }
            let _ = d.tell();
            let _ = d.tell_frac();
        }
    });
}

#[test]
fn range_storage_is_buffer_length() {
    let buf = [1u8, 2, 3, 4, 5];
    let d = RangeDecoder::new(&buf);
    assert_eq!(d.storage(), 5);
    assert_eq!(d.tell_frac(), 8);
}

#[test]
fn range_ilog_values() {
    assert_eq!(mzk::opus::range::ec_ilog(0), 0);
    assert_eq!(mzk::opus::range::ec_ilog(1), 1);
    assert_eq!(mzk::opus::range::ec_ilog(255), 8);
    assert_eq!(mzk::opus::range::ec_ilog(256), 9);
    assert_eq!(mzk::opus::range::ec_ilog(u32::MAX), 32);
}

#[test]
fn error_flag_is_set_and_sticky() {
    let buf = [254u8, 255, 0, 255];
    let mut d = RangeDecoder::new(&buf);
    assert!(!d.error());
    assert_eq!(d.dec_uint(257), 256);
    assert!(d.error());
    d.dec_uint(7);
    assert!(d.error());
    let clean = [0x5Au8, 0x13, 0xC7, 0x88];
    let mut e = RangeDecoder::new(&clean);
    let v = e.dec_uint(200);
    assert!(v < 200);
    assert!(!e.error());
}

#[test]
fn tell_never_decreases() {
    each_case(500, 64, |data| {
        if data.is_empty() {
            return;
        }
        let mut d = RangeDecoder::new(data);
        let icdf = [128u8, 64, 16, 0];
        let mut last = d.tell();
        for step in 0..40u32 {
            match step % 5 {
                0 => {
                    let s = d.decode(40);
                    d.update(s, s + 1, 40);
                }
                1 => {
                    d.dec_bit_logp(2);
                }
                2 => {
                    d.dec_icdf(&icdf, 8);
                }
                3 => {
                    d.dec_uint(1000 + step);
                }
                _ => {
                    let before = d.tell();
                    d.dec_bits(step % 20 + 1);
                    assert_eq!(d.tell(), before + (step % 20 + 1) as i32);
                }
            }
            assert!(d.tell() >= last);
            assert_eq!(d.storage(), data.len());
            last = d.tell();
        }
    });
}

#[test]
fn decode_bin_matches_decode() {
    each_case(300, 32, |data| {
        if data.is_empty() {
            return;
        }
        let mut a = RangeDecoder::new(data);
        let mut b = RangeDecoder::new(data);
        for bits in 1..12u32 {
            let x = a.decode_bin(bits);
            let y = b.decode(1u32 << bits);
            assert_eq!(x, y);
            a.update(x, x + 1, 1 << bits);
            b.update(y, y + 1, 1 << bits);
            assert_eq!(a.tell_frac(), b.tell_frac());
        }
    });
}

#[test]
fn bit_logp_matches_two_entry_icdf() {
    each_case(300, 32, |data| {
        if data.is_empty() {
            return;
        }
        let mut a = RangeDecoder::new(data);
        let mut b = RangeDecoder::new(data);
        let icdf = [1u8, 0];
        for k in 0..30u32 {
            let logp = k % 15 + 1;
            let x = a.dec_bit_logp(logp);
            let y = b.dec_icdf(&icdf, logp);
            assert_eq!(x as usize, y);
            assert_eq!(a.tell_frac(), b.tell_frac());
        }
    });
}

#[test]
fn icdf_with_equal_entries_skips_the_empty_symbol() {
    for seed in 0u8..64 {
        let buf: Vec<u8> = (0..8).map(|i| seed.wrapping_mul(37).wrapping_add(i * 91)).collect();
        let mut d = RangeDecoder::new(&buf);
        for _ in 0..6 {
            let k = d.dec_icdf(&[3, 3, 1, 0], 2);
            assert!(k == 0 || k == 2 || k == 3);
        }
    }
}
