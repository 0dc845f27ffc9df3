use mzk::m4a::mp4::demux;
use mzk::m4a::M4aDecoder;
use mzk::mp3::header::{find_frame, skip_id3v2};
use mzk::opus::celt::allocation::{clt_compute_allocation, init_caps};
use mzk::opus::celt::cwrs::log2_frac;
use mzk::opus::celt::rate::compute_pulse_cache;
use mzk::opus::celt::Mode;
use mzk::opus::ogg::{OpusStream, PageReader};
use mzk::opus::range::RangeDecoder;

fn bytes(seed: u64, len: usize) -> Vec<u8> {
    let mut s = seed.wrapping_add(0x9E37_79B9_7F4A_7C15);
    (0..len)
        .map(|_| {
            s = s.wrapping_add(0x9E37_79B9_7F4A_7C15);
            let mut z = s;
            z = (z ^ (z >> 30)).wrapping_mul(0xBF58_476D_1CE4_E5B9);
            z = (z ^ (z >> 27)).wrapping_mul(0x94D0_49BB_1331_11EB);
            (z ^ (z >> 31)) as u8
        })
        .collect()
}

fn each_case(count: u64, max_len: usize, mut f: impl FnMut(&[u8])) {
    for seed in 0..count {
        let len = (seed as usize * 2654435761) % (max_len + 1);
        f(&bytes(seed, len));
    }
}

fn synth_page(serial: u32, seq: u32, gran: i64, htype: u8, segs: &[u8], body: &[u8]) -> Vec<u8> {
    let mut p = Vec::new();
    p.extend_from_slice(b"OggS");
    p.push(0);
    p.push(htype);
    p.extend_from_slice(&gran.to_le_bytes());
    p.extend_from_slice(&serial.to_le_bytes());
    p.extend_from_slice(&seq.to_le_bytes());
    p.extend_from_slice(&0u32.to_le_bytes());
    p.push(segs.len() as u8);
    p.extend_from_slice(segs);
    p.extend_from_slice(body);
    p
}

fn walk_pages(data: &[u8]) {
    let mut r = PageReader::new(data);
    while let Some(pg) = r.next_page() {
        if let Ok(p) = pg {
            let _ = p.granule;
            let _ = p.lacing.len();
            let _ = p.body.len();
        }
    }
}

#[test]
fn parses_one_page() {
    let body = [9u8; 10];
    let raw = synth_page(7, 0, 42, 0x02, &[10], &body);
    let mut r = PageReader::new(&raw);
    let pg = r.next_page().unwrap().unwrap();
    assert_eq!(pg.granule, 42);
    assert_eq!(pg.lacing, &[10]);
    assert_eq!(pg.body, &body[..]);
    assert!(r.next_page().is_none());
}

#[test]
fn fuzz_page_reader_and_parse_never_panic() {
    each_case(8000, 256, |data| {
        walk_pages(data);
        let _ = OpusStream::parse(data);
    });
}

#[test]
fn fuzz_parse_with_ogg_sync_prefix() {
    each_case(8000, 256, |data| {
        let mut framed = Vec::with_capacity(data.len() + 4);
        framed.extend_from_slice(b"OggS");
        framed.extend_from_slice(data);
        let _ = OpusStream::parse(&framed);
        walk_pages(&framed);
    });
}

#[test]
fn fuzz_demux_and_decode_never_panic() {
    let prefixes: [&[u8]; 3] = [&[], b"\x00\x00\x00\x14ftypM4A \x00\x00\x00\x00M4A mp42", b"\x00\x00\x00\x08moov"];
    for prefix in prefixes {
        each_case(4000, 512, |data| {
            let mut buf = Vec::with_capacity(prefix.len() + data.len());
            buf.extend_from_slice(prefix);
            buf.extend_from_slice(data);
            let _ = demux(&buf);
            if let Ok(mut dec) = M4aDecoder::from_bytes(buf) {
                for _ in 0..32 {
                    match dec.next_packet() {
                        Some((off, len)) => {
                            let _ = dec.decode_alac(off, len);
                        }
                        None => break,
                    }
                }
            }
        });
    }
}

#[test]
fn fuzz_framing_never_panics() {
    each_case(8000, 512, |data| {
        let id3 = skip_id3v2(data).min(data.len());
        let mut ff = 0usize;
        let _ = find_frame(&data[id3..], &mut ff);
    });
}

const EBANDS_5MS: [i32; 22] = [0, 1, 2, 3, 4, 5, 6, 7, 8, 10, 12, 14, 16, 20, 24, 28, 34, 40, 48, 60, 78, 100];

const BAND_ALLOCATION: [u8; 231] = [
    0, 0, 0, 0, 0, 0, 0, 0, 0, 0, 0, 0, 0, 0, 0, 0, 0, 0, 0, 0, 0, //
    90, 80, 75, 69, 63, 56, 49, 40, 34, 29, 20, 18, 10, 0, 0, 0, 0, 0, 0, 0, 0, //
    110, 100, 90, 84, 78, 71, 65, 58, 51, 45, 39, 32, 26, 20, 12, 0, 0, 0, 0, 0, 0, //
    118, 110, 103, 93, 86, 80, 75, 70, 65, 59, 53, 47, 40, 31, 23, 15, 4, 0, 0, 0, 0, //
    126, 119, 112, 104, 95, 89, 83, 78, 72, 66, 60, 54, 47, 39, 32, 25, 17, 12, 1, 0, 0, //
    134, 127, 120, 114, 103, 97, 91, 85, 78, 72, 66, 60, 54, 47, 41, 35, 29, 23, 16, 10, 1, //
    144, 137, 130, 124, 113, 107, 101, 95, 88, 82, 76, 70, 64, 57, 51, 45, 39, 33, 26, 15, 1, //
    152, 145, 138, 132, 123, 117, 111, 105, 98, 92, 86, 80, 74, 67, 61, 55, 49, 43, 36, 20, 1, //
    162, 155, 148, 142, 133, 127, 121, 115, 108, 102, 96, 90, 84, 77, 71, 65, 59, 53, 46, 30, 1, //
    172, 165, 158, 152, 143, 137, 131, 125, 118, 112, 106, 100, 94, 87, 81, 75, 69, 63, 56, 45, 20, //
    200, 200, 200, 200, 200, 200, 200, 200, 198, 193, 188, 183, 178, 173, 168, 163, 158, 153, 148, 129, 104, //
];

fn mode_48k() -> Mode {
    let log_n: Vec<i32> = (0..21).map(|i| log2_frac((EBANDS_5MS[i + 1] - EBANDS_5MS[i]) as u32, 3)).collect();
    let cache = compute_pulse_cache(&EBANDS_5MS, 21, &log_n, 3);
    Mode { e_bands: EBANDS_5MS.to_vec(), nb_ebands: 21, log_n, alloc_vectors: BAND_ALLOCATION.to_vec(), cache }
}

#[test]
fn allocation_runs() {
    let mode = mode_48k();
    let buf = [0x55u8; 400];
    let mut rd = RangeDecoder::new(&buf);
    let cap = init_caps(&mode, 3, 2);
    let offsets = vec![0i32; mode.nb_ebands];
    let a = clt_compute_allocation(&mode, 0, mode.nb_ebands, &offsets, &cap, 5, 200 * 8 * 8, 2, 3, &mut rd);
    assert_eq!(a.pulses.len(), mode.nb_ebands);
    assert!(a.intensity <= mode.nb_ebands);
    assert!(a.coded_bands <= mode.nb_ebands);
}
