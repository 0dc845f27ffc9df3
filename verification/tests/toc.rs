use mzk::opus::toc::{split_frames, FrameMode, Toc};

fn bytes(seed: u64, len: usize) -> Vec<u8> {
    let mut s = seed.wrapping_add(0x9E37_79B9_7F4A_7C15);
    (0..len)
        .map(|_| {
            s = s.wrapping_add(0x9E37_79B9_7F4A_7C15);
            let mut z = s;
            z = (z ^ (z >> 30)).wrapping_mul(0xBF58_476D_1CE4_E5B9);
            z = (z ^ (z >> 27)).wrapping_mul(0x94D0_49BB_1331_11EB);
            (z ^ (z >> 31)) as u8
        })
        .collect()
}

fn each_case(count: u64, max_len: usize, mut f: impl FnMut(&[u8])) {
    for seed in 0..count {
        let len = (seed as usize * 2654435761) % (max_len + 1);
        f(&bytes(seed, len));
    }
}

#[test]
fn config31_is_celt_fb_20ms_stereo() {
    let t = Toc::parse(0b11111_1_00);
    assert_eq!(t.mode, FrameMode::Celt);
    assert!(t.stereo);
    assert_eq!(t.lm, 3);
    assert_eq!(t.end, 21);
    assert_eq!(t.samples, 960);
}

#[test]
fn celt_bandwidths_and_sizes() {
    assert_eq!(Toc::parse(16 << 3).end, 13);
    assert_eq!(Toc::parse(20 << 3).end, 17);
    assert_eq!(Toc::parse(24 << 3).end, 19);
    assert_eq!(Toc::parse(28 << 3).end, 21);
    assert_eq!(Toc::parse(16 << 3).samples, 120);
    assert_eq!(Toc::parse(17 << 3).samples, 240);
    assert_eq!(Toc::parse(18 << 3).samples, 480);
    assert_eq!(Toc::parse(19 << 3).samples, 960);
}

#[test]
fn silk_and_hybrid_modes_and_durations() {
    assert_eq!(Toc::parse(0).mode, FrameMode::Silk);
    assert_eq!(Toc::parse(0).samples, 480);
    assert_eq!(Toc::parse(3 << 3).samples, 2880);
    assert_eq!(Toc::parse(8 << 3).mode, FrameMode::Silk);
    assert_eq!(Toc::parse(12 << 3).mode, FrameMode::Hybrid);
    assert_eq!(Toc::parse(12 << 3).samples, 480);
    assert_eq!(Toc::parse(13 << 3).samples, 960);
}

#[test]
fn code0_single_frame() {
    let pkt = [0b11111_0_00, 1, 2, 3, 4];
    let (_, f) = split_frames(&pkt).unwrap();
    assert_eq!(f, vec![(1, 4)]);
}

#[test]
fn code1_two_equal_frames() {
    let pkt = [0b11111_0_01, 1, 2, 3, 4];
    let (_, f) = split_frames(&pkt).unwrap();
    assert_eq!(f, vec![(1, 2), (3, 2)]);
    assert!(split_frames(&[0b11111_0_01, 1, 2, 3]).is_err());
}

#[test]
fn code2_explicit_length() {
    let pkt = [0b11111_0_10, 2, 10, 20, 30, 40];
    let (_, f) = split_frames(&pkt).unwrap();
    assert_eq!(f, vec![(2, 2), (4, 2)]);
}

#[test]
fn code3_cbr() {
    let pkt = [0b11111_0_11, 3, 1, 2, 3, 4, 5, 6];
    let (_, f) = split_frames(&pkt).unwrap();
    assert_eq!(f, vec![(2, 2), (4, 2), (6, 2)]);
}

#[test]
fn code3_vbr_with_padding() {
    let pkt = [0b11111_0_11, 0x80 | 0x40 | 3, 1, 2, 3, 10, 20, 30, 40, 50, 0, 0];
    let (_, f) = split_frames(&pkt).unwrap();
    let lens: Vec<usize> = f.iter().map(|&(_, n)| n).collect();
    assert_eq!(lens, vec![2, 3, 1]);
}

#[test]
fn fuzz_never_panics() {
    each_case(8000, 64, |data| {
        let _ = split_frames(data);
        if !data.is_empty() {
            let _ = Toc::parse(data[0]);
        }
    });
}

#[test]
fn empty_packet_is_refused() {
    assert!(split_frames(&[]).is_err());
}

#[test]
fn split_frames_lay_out_end_to_end() {
    each_case(4000, 64, |data| {
        if let Ok((_, f)) = split_frames(data) {
            let want = match data[0] & 3 {
                0 => 1,
                1 | 2 => 2,
                _ => (data[1] & 0x3f) as usize,
            };
            assert_eq!(f.len(), want);
            assert!(f[0].0 >= 1);
            for i in 0..f.len() {
                assert!(f[i].1 <= 1275 && f[i].0 + f[i].1 <= data.len());
                if i + 1 < f.len() {
                    assert_eq!(f[i].0 + f[i].1, f[i + 1].0);
                }
            }
            if data[0] & 3 == 1 {
                assert_eq!(f[0].1, f[1].1);
            }
        }
    });
}
