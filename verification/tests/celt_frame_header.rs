use mzk::opus::celt::allocation::{clt_compute_allocation, init_caps};
use mzk::opus::celt::cwrs::log2_frac;
use mzk::opus::celt::energy::decode_coarse_symbols;
use mzk::opus::celt::frame::decode_frame_header;
use mzk::opus::celt::rate::compute_pulse_cache;
use mzk::opus::celt::{decode_alloc_params, decode_frame_prefix, tf_decode, Mode};
use mzk::opus::range::RangeDecoder;

const EBANDS_5MS: [i32; 22] = [0, 1, 2, 3, 4, 5, 6, 7, 8, 10, 12, 14, 16, 20, 24, 28, 34, 40, 48, 60, 78, 100];

const BAND_ALLOCATION: [u8; 231] = [
    0, 0, 0, 0, 0, 0, 0, 0, 0, 0, 0, 0, 0, 0, 0, 0, 0, 0, 0, 0, 0, //
    90, 80, 75, 69, 63, 56, 49, 40, 34, 29, 20, 18, 10, 0, 0, 0, 0, 0, 0, 0, 0, //
    110, 100, 90, 84, 78, 71, 65, 58, 51, 45, 39, 32, 26, 20, 12, 0, 0, 0, 0, 0, 0, //
    118, 110, 103, 93, 86, 80, 75, 70, 65, 59, 53, 47, 40, 31, 23, 15, 4, 0, 0, 0, 0, //
    126, 119, 112, 104, 95, 89, 83, 78, 72, 66, 60, 54, 47, 39, 32, 25, 17, 12, 1, 0, 0, //
    134, 127, 120, 114, 103, 97, 91, 85, 78, 72, 66, 60, 54, 47, 41, 35, 29, 23, 16, 10, 1, //
    144, 137, 130, 124, 113, 107, 101, 95, 88, 82, 76, 70, 64, 57, 51, 45, 39, 33, 26, 15, 1, //
    152, 145, 138, 132, 123, 117, 111, 105, 98, 92, 86, 80, 74, 67, 61, 55, 49, 43, 36, 20, 1, //
    162, 155, 148, 142, 133, 127, 121, 115, 108, 102, 96, 90, 84, 77, 71, 65, 59, 53, 46, 30, 1, //
    172, 165, 158, 152, 143, 137, 131, 125, 118, 112, 106, 100, 94, 87, 81, 75, 69, 63, 56, 45, 20, //
    200, 200, 200, 200, 200, 200, 200, 200, 198, 193, 188, 183, 178, 173, 168, 163, 158, 153, 148, 129, 104, //
];

fn mode_48k() -> Mode {
    let log_n: Vec<i32> = (0..21).map(|i| log2_frac((EBANDS_5MS[i + 1] - EBANDS_5MS[i]) as u32, 3)).collect();
    let cache = compute_pulse_cache(&EBANDS_5MS, 21, &log_n, 3);
    Mode { e_bands: EBANDS_5MS.to_vec(), nb_ebands: 21, log_n, alloc_vectors: BAND_ALLOCATION.to_vec(), cache }
}

fn frame() -> Vec<u8> {
    let base = [0x5Au8, 0x13, 0xC7, 0x88, 0x21, 0x9F, 0x44, 0x6B, 0xE0, 0x37, 0x02, 0xBD, 0x90, 0x7C, 0x15, 0xF3];
    let mut v = Vec::new();
    for _ in 0..4 {
        v.extend_from_slice(&base);
    }
    v
}

#[test]
fn frame_header_fields() {
    let mode = mode_48k();
    let buf = frame();
    let h = decode_frame_header(&mode, &buf, false, 3);
    assert!(!h.prefix.silence && !h.prefix.pf_on && !h.prefix.transient && !h.prefix.intra);
    let body = h.body.unwrap();
    assert_eq!(body.coarse, vec![-4, 0, 2, 0, 0, 0, 0, 0, 1, 0, -1, 1, 1, 0, 1, 0, 0, 0, 0, -1, -1]);
    assert_eq!(body.tf_res, vec![0, 0, 0, 0, 0, 0, 0, 0, 0, 0, 0, -2, -2, -2, -2, -2, -2, -2, -2, -2, -2]);
    assert_eq!(body.params.offsets.len(), 21);
    assert!(body.params.trim <= 10);
    assert_eq!(body.alloc.pulses.len(), 21);
    assert!(body.alloc.coded_bands <= 21);
}

#[test]
fn frame_header_is_the_steps_in_order() {
    let mode = mode_48k();
    let buf = frame();
    for stereo in [false, true] {
        let c = if stereo { 2usize } else { 1 };
        let h = decode_frame_header(&mode, &buf, stereo, 3);
        let mut rd = RangeDecoder::new(&buf);
        let p = decode_frame_prefix(&mut rd, 3);
        assert_eq!(h.prefix, p);
        let coarse = decode_coarse_symbols(&mut rd, 0, 21, p.intra, c, 3);
        let tf = tf_decode(0, 21, p.transient, 3, &mut rd);
        let cap = init_caps(&mode, 3, c);
        let params = decode_alloc_params(&mut rd, &mode.e_bands, &cap, 21, c as i32, 3, p.transient);
        let alloc = clt_compute_allocation(&mode, 0, 21, &params.offsets, &cap, params.trim, params.bits, c as i32, 3, &mut rd);
        let body = h.body.unwrap();
        assert_eq!(body.coarse, coarse);
        assert_eq!(body.tf_res, tf);
        assert_eq!(body.params.spread, params.spread);
        assert_eq!(body.params.offsets, params.offsets);
        assert_eq!(body.params.trim, params.trim);
        assert_eq!(body.params.bits, params.bits);
        assert_eq!(body.params.anti_collapse_rsv, params.anti_collapse_rsv);
        assert_eq!(body.alloc.pulses, alloc.pulses);
        assert_eq!(body.alloc.fine_bits, alloc.fine_bits);
        assert_eq!(body.alloc.intensity, alloc.intensity);
        assert_eq!(body.alloc.coded_bands, alloc.coded_bands);
        assert_eq!(body.alloc.balance, alloc.balance);
    }
}

#[test]
fn silent_frame_has_no_body() {
    let mode = mode_48k();
    let buf: Vec<u8> = Vec::new();
    let h = decode_frame_header(&mode, &buf, false, 3);
    assert!(h.prefix.silence);
    assert!(h.body.is_none());
}
