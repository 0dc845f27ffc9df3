use mzk::opus::celt::band_shapes::{decode_band_shapes, ShapeParams};
use mzk::opus::celt::cwrs::log2_frac;
use mzk::opus::celt::fine::{decode_anti_collapse, decode_final, decode_fine};
use mzk::opus::celt::frame::{decode_frame_header, decode_header_at};
use mzk::opus::celt::rate::compute_pulse_cache;
use mzk::opus::celt::Mode;
use mzk::opus::range::RangeDecoder;

const EBANDS_5MS: [i32; 22] = [0, 1, 2, 3, 4, 5, 6, 7, 8, 10, 12, 14, 16, 20, 24, 28, 34, 40, 48, 60, 78, 100];
const BAND_ALLOCATION: [u8; 231] = [
    0, 0, 0, 0, 0, 0, 0, 0, 0, 0, 0, 0, 0, 0, 0, 0, 0, 0, 0, 0, 0, //
    90, 80, 75, 69, 63, 56, 49, 40, 34, 29, 20, 18, 10, 0, 0, 0, 0, 0, 0, 0, 0, //
    110, 100, 90, 84, 78, 71, 65, 58, 51, 45, 39, 32, 26, 20, 12, 0, 0, 0, 0, 0, 0, //
    118, 110, 103, 93, 86, 80, 75, 70, 65, 59, 53, 47, 40, 31, 23, 15, 4, 0, 0, 0, 0, //
    126, 119, 112, 104, 95, 89, 83, 78, 72, 66, 60, 54, 47, 39, 32, 25, 17, 12, 1, 0, 0, //
    134, 127, 120, 114, 103, 97, 91, 85, 78, 72, 66, 60, 54, 47, 41, 35, 29, 23, 16, 10, 1, //
    144, 137, 130, 124, 113, 107, 101, 95, 88, 82, 76, 70, 64, 57, 51, 45, 39, 33, 26, 15, 1, //
    152, 145, 138, 132, 123, 117, 111, 105, 98, 92, 86, 80, 74, 67, 61, 55, 49, 43, 36, 20, 1, //
    162, 155, 148, 142, 133, 127, 121, 115, 108, 102, 96, 90, 84, 77, 71, 65, 59, 53, 46, 30, 1, //
    172, 165, 158, 152, 143, 137, 131, 125, 118, 112, 106, 100, 94, 87, 81, 75, 69, 63, 56, 45, 20, //
    200, 200, 200, 200, 200, 200, 200, 200, 198, 193, 188, 183, 178, 173, 168, 163, 158, 153, 148, 129, 104, //
];

const BUF: [u8; 16] = [0x5A, 0x13, 0xC7, 0x88, 0x21, 0x9F, 0x44, 0x6B, 0xE0, 0x37, 0x02, 0xBD, 0x90, 0x7C, 0x15, 0xF3];

#[test]
fn fine_bits_are_raw_fields_in_band_order() {
    let fq = [0, 2, 0, 3, 1];
    let mut rd = RangeDecoder::new(&BUF);
    let v = decode_fine(&mut rd, 0, 5, &fq, 2);
    let mut r2 = RangeDecoder::new(&BUF);
    let mut want = Vec::new();
    for &q in fq.iter() {
        if q > 0 {
            for _ in 0..2 {
                want.push(r2.dec_bits(q as u32));
            }
        }
    }
    assert_eq!(v, want);
    assert_eq!(v.len(), 6);
    assert_eq!(rd.tell(), r2.tell());
}

#[test]
fn final_bits_go_by_priority_while_bits_last() {
    let fq = [1, 8, 2, 0, 3];
    let fp = [1, 0, 0, 1, 0];
    let mut rd = RangeDecoder::new(&BUF);
    let v = decode_final(&mut rd, 0, 5, &fq, &fp, 3, 1);
    // priority 0: bands 2 and 4 (band 1 is at the limit); priority 1: band 0
    let mut r2 = RangeDecoder::new(&BUF);
    let want: Vec<u32> = (0..3).map(|_| r2.dec_bits(1)).collect();
    assert_eq!(v, want);
    let mut rd = RangeDecoder::new(&BUF);
    assert_eq!(decode_final(&mut rd, 0, 5, &fq, &fp, 1, 2).len(), 0);
    let mut rd = RangeDecoder::new(&BUF);
    assert_eq!(decode_final(&mut rd, 0, 5, &fq, &fp, 4, 2).len(), 4);
}

#[test]
fn anti_collapse_flag_only_where_reserved() {
    let mut rd = RangeDecoder::new(&BUF);
    assert!(!decode_anti_collapse(&mut rd, 0));
    assert_eq!(rd.tell(), RangeDecoder::new(&BUF).tell());
    let mut rd = RangeDecoder::new(&BUF);
    let mut r2 = RangeDecoder::new(&BUF);
    assert_eq!(decode_anti_collapse(&mut rd, 8), r2.dec_bits(1) == 1);
}

#[test]
fn frame_reads_on_after_its_header() {
    let log_n: Vec<i32> = (0..21).map(|i| log2_frac((EBANDS_5MS[i + 1] - EBANDS_5MS[i]) as u32, 3)).collect();
    let cache = compute_pulse_cache(&EBANDS_5MS, 21, &log_n, 3);
    let mode = Mode {
        e_bands: EBANDS_5MS.to_vec(),
        nb_ebands: 21,
        log_n: log_n.clone(),
        alloc_vectors: BAND_ALLOCATION.to_vec(),
        cache,
    };
    let mut buf = Vec::new();
    for _ in 0..4 {
        buf.extend_from_slice(&BUF);
    }
    let mut rd = RangeDecoder::new(&buf);
    let h = decode_header_at(&mut rd, &mode, false, 3);
    let whole = decode_frame_header(&mode, &buf, false, 3);
    assert_eq!(h.prefix.silence, whole.prefix.silence);
    let body = h.body.unwrap();
    assert_eq!(body.alloc.pulses, whole.body.unwrap().alloc.pulses);
    let fine = decode_fine(&mut rd, 0, 21, &body.alloc.fine_bits, 1);
    assert_eq!(fine.len(), body.alloc.fine_bits.iter().filter(|&&q| q > 0).count());
    let p = ShapeParams {
        eb: EBANDS_5MS.to_vec(),
        log_n,
        pulses: body.alloc.pulses.clone(),
        tf_res: body.tf_res.clone(),
        nb: 21,
        start: 0,
        end: 21,
        lm: 3,
        bblocks: if h.prefix.transient { 8 } else { 1 },
        spread: body.params.spread,
        stereo: false,
        intensity: body.alloc.intensity,
        total_bits: (buf.len() as i32) * 64 - body.params.anti_collapse_rsv,
        coded_bands: body.alloc.coded_bands,
    };
    let shapes = decode_band_shapes(&mut rd, &mode.cache, &p, body.alloc.balance, body.alloc.dual_stereo, vec![0; 21], 0);
    assert_eq!(shapes.bands.len(), 21);
    let _ = decode_anti_collapse(&mut rd, body.params.anti_collapse_rsv);
    let left = (buf.len() as i32) * 8 - rd.tell();
    let fin = decode_final(&mut rd, 0, 21, &body.alloc.fine_bits, &body.alloc.fine_priority, left, 1);
    assert!(fin.len() as i32 <= left.max(0));
    assert!(rd.tell() <= (buf.len() as i32) * 8 + 64);
}
