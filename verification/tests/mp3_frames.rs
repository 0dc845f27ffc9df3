use mzk::mp3::frame::{decode_frame_data, finish_frame, Mp3State};

fn stream(hdr: [u8; 4], frames: usize, junk: usize) -> Vec<u8> {
    let mut d = vec![0x11u8; junk];
    for _ in 0..frames {
        d.extend_from_slice(&hdr);
        d.extend_from_slice(&[0u8; 413]);
    }
    d
}

fn fresh() -> Mp3State {
    Mp3State { header: vec![0; 4], free_format_bytes: 0, reserv: vec![] }
}

#[test]
fn frames_are_found_then_followed_by_header() {
    let d = stream([0xFF, 0xFB, 0x90, 0x00], 3, 0);
    let s = decode_frame_data(&d, 0, fresh());
    assert!(s.reset);
    assert_eq!(s.pos, 417);
    let f = s.frame.as_ref().unwrap();
    assert!(f.usable && f.complete);
    assert_eq!((f.main_data_begin, f.main_len), (0, 381));
    assert_eq!(f.main_data.len(), 381 + 64);
    assert_eq!(s.state.header, vec![0xFF, 0xFB, 0x90, 0x00]);
    let st = finish_frame(s.state, f, 0);
    assert_eq!(st.reserv.len(), 381);
    let s = decode_frame_data(&d, 417, st);
    assert!(!s.reset);
    assert_eq!(s.pos, 834);
    assert_eq!(s.state.reserv.len(), 381);
    let f = s.frame.unwrap();
    assert_eq!(f.main_len, 381);
    let s = decode_frame_data(&d, 834, s.state);
    assert!(!s.reset);
    assert_eq!(s.pos, 1251);
    let s = decode_frame_data(&d, 1251, s.state);
    assert!(s.reset && s.frame.is_none());
    assert_eq!(s.pos, 1251);
    assert!(s.state.reserv.is_empty());
}

#[test]
fn junk_before_a_frame_resyncs() {
    let d = stream([0xFF, 0xFB, 0x90, 0x00], 3, 5);
    let st = Mp3State { header: vec![0xFF, 0xFB, 0x90, 0x00], free_format_bytes: 0, reserv: vec![7; 100] };
    let s = decode_frame_data(&d, 0, st);
    assert!(s.reset);
    assert_eq!(s.pos, 5 + 417);
    assert!(s.state.reserv.is_empty());
    assert_eq!(s.frame.unwrap().main_len, 381);
}

#[test]
fn crc_is_skipped_before_the_side_info() {
    let d = stream([0xFF, 0xFA, 0x90, 0x00], 3, 0);
    let s = decode_frame_data(&d, 0, fresh());
    let f = s.frame.unwrap();
    assert!(f.usable);
    assert_eq!(f.main_len, 379);
}

#[test]
fn reservoir_reaches_back() {
    let mut d = stream([0xFF, 0xFB, 0x90, 0x00], 2, 0);
    // main_data_begin = 10 in the second frame: 9 bits, the first byte of the side info
    d[417 + 4] = 10 >> 1;
    d[417 + 5] = (10 & 1) << 7;
    let s = decode_frame_data(&d, 0, fresh());
    let st = finish_frame(s.state, s.frame.as_ref().unwrap(), 8 * 381);
    assert!(st.reserv.is_empty());
    let s = decode_frame_data(&d, 417, st);
    let f = s.frame.unwrap();
    assert_eq!(f.main_data_begin, 10);
    assert!(!f.complete);
    assert_eq!(f.main_len, 381);
    let st = Mp3State { header: vec![0xFF, 0xFB, 0x90, 0x00], free_format_bytes: 0, reserv: (0..20).collect() };
    let s = decode_frame_data(&d, 417, st);
    let f = s.frame.unwrap();
    assert!(f.complete);
    assert_eq!(f.main_len, 391);
    assert_eq!(f.main_data[..10].to_vec(), (10..20).collect::<Vec<u8>>());
}

#[test]
fn bad_side_info_gives_a_silent_frame() {
    let mut d = stream([0xFF, 0xFB, 0x90, 0x00], 3, 0);
    d[4 + 4] = 0xFF;
    d[4 + 5] = 0x80;
    let st = Mp3State { header: vec![0; 4], free_format_bytes: 0, reserv: vec![1, 2, 3] };
    let s = decode_frame_data(&d, 0, st);
    assert_eq!(s.pos, 417);
    let f = s.frame.unwrap();
    assert!(!f.usable);
    assert_eq!(f.main_data_begin, -1);
    assert!(f.main_data.is_empty());
    assert_eq!(s.state.header, vec![0, 0, 0, 0]);
}
