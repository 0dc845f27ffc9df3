use mzk::opus::celt::energy::decode_coarse_symbols;
use mzk::opus::celt::{decode_alloc_params, decode_frame_prefix, FramePrefix};
use mzk::opus::range::RangeDecoder;

const EBANDS_5MS: [i32; 22] = [0, 1, 2, 3, 4, 5, 6, 7, 8, 10, 12, 14, 16, 20, 24, 28, 34, 40, 48, 60, 78, 100];

const MIXED: [u8; 16] = [0x5A, 0x13, 0xC7, 0x88, 0x21, 0x9F, 0x44, 0x6B, 0xE0, 0x37, 0x02, 0xBD, 0x90, 0x7C, 0x15, 0xF3];

fn alternating() -> Vec<u8> {
    let mut v = Vec::new();
    for _ in 0..10 {
        v.push(0xFF);
        v.push(0x01);
    }
    v
}

#[test]
fn prefix_without_post_filter() {
    let mut rd = RangeDecoder::new(&MIXED);
    let p = decode_frame_prefix(&mut rd, 3);
    assert_eq!(
        p,
        FramePrefix {
            silence: false,
            pf_on: false,
            pf_octave: 0,
            pf_pitch: 0,
            pf_qg: 0,
            pf_tapset: 0,
            transient: false,
            intra: false,
        }
    );
    assert_eq!(rd.tell(), 3);
    assert_eq!(rd.tell_frac(), 20);
}

#[test]
fn prefix_with_post_filter() {
    let buf = alternating();
    let mut rd = RangeDecoder::new(&buf);
    let p = decode_frame_prefix(&mut rd, 3);
    assert!(!p.silence);
    assert!(p.pf_on);
    assert_eq!(p.pf_octave, 5);
    assert_eq!(p.pf_pitch, 768);
    assert_eq!(p.pf_qg, 7);
    assert_eq!(p.pf_tapset, 2);
    assert!(!p.transient);
    assert!(p.intra);
    assert_eq!(rd.tell(), 22);
}

#[test]
fn prefix_of_an_empty_frame_is_silence() {
    let buf: [u8; 0] = [];
    let mut rd = RangeDecoder::new(&buf);
    let p = decode_frame_prefix(&mut rd, 3);
    assert!(p.silence);
    assert!(!p.pf_on && !p.transient && !p.intra);
}

#[test]
fn coarse_energy_symbols() {
    let mut rd = RangeDecoder::new(&MIXED);
    assert_eq!(decode_coarse_symbols(&mut rd, 0, 5, false, 2, 3), vec![-1, -3, 1, 2, 0, 4, -1, 0, 1, -1]);
    assert_eq!(rd.tell(), 33);
    let buf = alternating();
    let mut rd = RangeDecoder::new(&buf);
    assert_eq!(decode_coarse_symbols(&mut rd, 0, 5, false, 2, 3), vec![8, -1, 0, -2, 1, 0, -1, 0, 0, -1]);
    assert_eq!(rd.tell(), 29);
}

#[test]
fn coarse_energy_past_the_budget_is_minus_one() {
    let buf = [0u8; 1];
    let mut rd = RangeDecoder::new(&buf);
    let q = decode_coarse_symbols(&mut rd, 0, 8, true, 1, 0);
    assert_eq!(q.len(), 8);
    assert_eq!(q[7], -1);
}

#[test]
fn allocation_inputs_without_boosts() {
    let cap = vec![200; 21];
    let mut rd = RangeDecoder::new(&MIXED);
    let a = decode_alloc_params(&mut rd, &EBANDS_5MS, &cap, 21, 1, 3, true);
    assert_eq!(a.spread, 2);
    assert_eq!(a.offsets, vec![0; 21]);
    assert_eq!(a.trim, 4);
    assert_eq!(a.bits, 977);
    assert_eq!(a.anti_collapse_rsv, 8);
    assert_eq!(rd.tell(), 5);
}

#[test]
fn allocation_inputs_with_boosts() {
    let cap = vec![200; 21];
    let buf = alternating();
    let mut rd = RangeDecoder::new(&buf);
    let a = decode_alloc_params(&mut rd, &EBANDS_5MS, &cap, 21, 1, 3, true);
    assert_eq!(a.spread, 3);
    assert_eq!(a.offsets, vec![0, 0, 0, 0, 192, 0, 48, 0, 0, 0, 48, 48, 0, 48, 0, 0, 0, 0, 0, 0, 0]);
    assert_eq!(a.trim, 1);
    assert_eq!(a.bits, 929);
    assert_eq!(a.anti_collapse_rsv, 8);
    assert_eq!(rd.tell(), 43);
}

#[test]
fn no_reserve_without_transient() {
    let cap = vec![200; 21];
    let mut rd = RangeDecoder::new(&MIXED);
    let a = decode_alloc_params(&mut rd, &EBANDS_5MS, &cap, 21, 1, 3, false);
    assert_eq!(a.anti_collapse_rsv, 0);
    assert_eq!(a.bits, 985);
}
