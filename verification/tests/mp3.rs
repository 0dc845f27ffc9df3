use mzk::mp3::bits::Bits;
use mzk::mp3::header::{bitrate_kbps, find_frame, frame_bytes, is_mono, sample_rate_hz, skip_id3v2, valid};
use mzk::mp3::requant::read_scalefactors;
use mzk::mp3::sideinfo::{read_side_info, GrInfo, SfbKind};
use mzk::mp3::{assemble_main_data, keep_reservoir, parse_xing, Mp3Info};
use mzk::mp3::huffman::{read_huffman, HuffTables};
use mzk::error::Error;
use mzk::mp3::granule::{decode_main_data, ScfLayout};

const HDR: [u8; 4] = [0xFF, 0xFB, 0x90, 0x00];

#[test]
fn header_fields() {
    assert!(valid(&HDR));
    assert!(!is_mono(&HDR));
    assert_eq!(bitrate_kbps(&HDR), 128);
    assert_eq!(sample_rate_hz(&HDR), 44100);
    assert_eq!(frame_bytes(&HDR, 0), 417);
}

#[test]
fn finds_repeated_frames() {
    let mut data = vec![0u8; 7];
    for _ in 0..12 {
        let mut frame = vec![0u8; 417];
        frame[..4].copy_from_slice(&HDR);
        data.extend_from_slice(&frame);
    }
    let mut free = 0usize;
    let (at, bytes) = find_frame(&data, &mut free);
    assert_eq!(at, 7);
    assert_eq!(bytes, 417);
}

#[test]
fn id3_tag_is_skipped() {
    let mut d = b"ID3\x04\x00\x00\x00\x00\x01\x00".to_vec();
    d.extend_from_slice(&[0u8; 200]);
    assert_eq!(skip_id3v2(&d), 10 + 128);
    assert_eq!(skip_id3v2(b"RIFF"), 0);
}

#[test]
fn zero_side_info_is_long_blocks() {
    let buf = [0u8; 32];
    let mut bs = Bits::new(&buf, 32);
    let mut gr = [GrInfo::default(); 4];
    let r = read_side_info(&mut bs, &mut gr, &HDR);
    assert_eq!(r, 0);
    assert_eq!(bs.pos, 256);
    for g in gr.iter() {
        assert_eq!(g.sfb_kind, SfbKind::Long);
        assert_eq!(g.n_long_sfb, 22);
        assert_eq!(g.region_count, [0, 0, 255]);
        assert_eq!(g.table_select, [0, 0, 0]);
    }
}

#[test]
fn too_many_big_values_is_refused() {
    let mut buf = [0u8; 32];
    buf[4] = 0xFF;
    buf[5] = 0x80;
    let mut bs = Bits::new(&buf, 32);
    let mut gr = [GrInfo::default(); 4];
    assert_eq!(read_side_info(&mut bs, &mut gr, &HDR), -1);
    assert_eq!(gr[0].big_values, 511);
}

#[test]
fn short_blocks_take_the_short_table() {
    let mut buf = [0u8; 32];
    // first granule: window switching on, block type 2, not mixed
    // bits 20..32 part 2/3, 32..41 big values, 41..49 gain, 49..53 compress
    // bit 53 switching flag, 54..56 block type, 56 mixed
    buf[6] |= 0b0000_0110;
    let mut bs = Bits::new(&buf, 32);
    let mut gr = [GrInfo::default(); 4];
    let _ = read_side_info(&mut bs, &mut gr, &HDR);
    assert_eq!(gr[0].block_type, 2);
    assert_eq!(gr[0].sfb_kind, SfbKind::Short);
    assert_eq!(gr[0].n_short_sfb, 39);
    assert_eq!(gr[0].region_count[0], 8);
}

fn stream(frames: usize, xing: Option<u32>) -> Vec<u8> {
    let mut data = Vec::new();
    for f in 0..frames {
        let mut frame = vec![0u8; 417];
        frame[..4].copy_from_slice(&HDR);
        if f == 0 {
            if let Some(n) = xing {
                frame[36..40].copy_from_slice(b"Xing");
                frame[40..44].copy_from_slice(&1u32.to_be_bytes());
                frame[44..48].copy_from_slice(&n.to_be_bytes());
            }
        }
        data.extend_from_slice(&frame);
    }
    data
}

#[test]
fn xing_frame_count() {
    let data = stream(12, Some(1000));
    assert_eq!(parse_xing(&data, 0, &HDR), Some(1000));
    let plain = stream(12, None);
    assert_eq!(parse_xing(&plain, 0, &HDR), None);
    let mut unflagged = stream(12, Some(1000));
    unflagged[43] = 0;
    assert_eq!(parse_xing(&unflagged, 0, &HDR), None);
    assert_eq!(parse_xing(&data[..40], 0, &HDR), None);
}

#[test]
fn stream_info_from_frame_size_and_from_xing() {
    let plain = stream(12, None);
    let m = Mp3Info::from_bytes(&plain).ok().unwrap();
    assert_eq!((m.rate, m.channels, m.spf), (44100, 2, 1152));
    assert_eq!(m.duration, 12 * 1152);
    assert_eq!((m.start_pos, m.cbr_frame_bytes), (0, 417));
    let x = Mp3Info::from_bytes(&stream(12, Some(1000))).ok().unwrap();
    assert_eq!(x.duration, 1000 * 1152);
    assert_eq!(x.start_pos, 417);
    assert_eq!(x.seek_point(1152 * 3 + 5, 12 * 417), (417 * 4, 1152 * 3));
    assert_eq!(x.seek_point(u32::MAX as u64, 12 * 417), (12 * 417, (u32::MAX as u64 / 1152) * 1152));
}

#[test]
fn stream_info_errors() {
    assert!(matches!(Mp3Info::from_bytes(&[0u8; 100]), Err(Error::Unsupported("no mp3 frame found"))));
    let mut layer2 = vec![0u8; 522];
    layer2[..4].copy_from_slice(&[0xFF, 0xFD, 0x90, 0x00]);
    assert!(matches!(Mp3Info::from_bytes(&layer2), Err(Error::Unsupported("only MPEG Layer III"))));
}

#[test]
fn scale_factor_groups() {
    let buf = [0b1011_0110u8, 0b0101_1100, 0xFF, 0x00];
    let mut bs = Bits::new(&buf, 4);
    let mut scf = vec![9u8; 12];
    let mut ist = vec![7u8; 8];
    read_scalefactors(&mut scf, &mut ist, &[2, 0, 3, 0], &[2, 1, 2, 0], &mut bs, -16);
    assert_eq!(scf, vec![2, 3, 0, 3, 1, 0, 0, 0, 9, 9, 9, 9]);
    assert_eq!(ist, vec![2, 255, 0, 3, 1, 7, 7, 7]);
    assert_eq!(bs.pos, 10);
    let mut bs = Bits::new(&buf, 4);
    let mut scf = vec![9u8; 12];
    let mut ist = vec![4u8, 5, 6, 7, 8, 9, 1, 1];
    read_scalefactors(&mut scf, &mut ist, &[2, 2, 2, 2], &[2, 2, 2, 2], &mut bs, 0b0110);
    assert_eq!(scf, vec![2, 3, 6, 7, 8, 9, 1, 2, 0, 0, 0, 9]);
    assert_eq!(bs.pos, 8);
}

#[test]
fn main_data_joins_reservoir_and_payload() {
    let reserv = [1u8, 2, 3, 4, 5];
    let payload = [9u8, 9, 7, 8, 6];
    let (md, ok) = assemble_main_data(&reserv, 5, &payload, 2, 3, 2);
    assert!(ok);
    let mut want = vec![4u8, 5, 7, 8, 6];
    want.extend_from_slice(&[0u8; 64]);
    assert_eq!(md, want);
    let (md, ok) = assemble_main_data(&reserv, 3, &payload, 2, 3, 10);
    assert!(!ok);
    assert_eq!(&md[..6], &[1u8, 2, 3, 7, 8, 6]);
    assert_eq!(md.len(), 6 + 64);
}

#[test]
fn reservoir_keeps_the_unread_tail() {
    let md: Vec<u8> = (0..40u8).collect();
    assert_eq!(keep_reservoir(&md, 30, 81), (11u8..30).collect::<Vec<u8>>());
    assert_eq!(keep_reservoir(&md, 30, 240), Vec::<u8>::new());
    assert_eq!(keep_reservoir(&md, 30, 1000), Vec::<u8>::new());
    let big = vec![7u8; 2000];
    assert_eq!(keep_reservoir(&big, 1500, 0).len(), 511);
}

fn small_tables() -> HuffTables {
    let mut dir = vec![(0u32, 0u32, 0u32); 34];
    dir[1] = (0, 3, 0);
    dir[32] = (3, 3, 0);
    HuffTables { dir, tree: vec![0x0201, 0x0010, 0x0001, 0x0201, 0x0008, 0x0000] }
}

#[test]
fn huffman_pairs_and_quadruples() {
    let buf = [0b1001_1000u8, 0];
    let mut bs = Bits::new(&buf, 1);
    let mut gr = GrInfo::default();
    gr.part_23_length = 7;
    gr.big_values = 2;
    gr.table_select = [1, 1, 1];
    let mut is = vec![5i32; 576];
    let n = read_huffman(&mut bs, &gr, &[4u8; 22], &small_tables(), 0, &mut is);
    assert_eq!(n, 12);
    assert_eq!(bs.pos, 7);
    assert_eq!(&is[..8], &[1, 0, 0, -1, 1, 0, 0, 0]);
    assert!(is[8..].iter().all(|&v| v == 0));
}

#[test]
fn empty_part_reads_nothing() {
    let buf = [0xffu8; 4];
    let mut bs = Bits::new(&buf, 4);
    bs.pos = 5;
    let gr = GrInfo::default();
    let mut is = vec![3i32; 576];
    assert_eq!(read_huffman(&mut bs, &gr, &[], &small_tables(), 5, &mut is), 0);
    assert_eq!(bs.pos, 5);
    assert!(is.iter().all(|&v| v == 0));
}

#[test]
fn main_data_granules_in_turn() {
    let buf = [0x99u8, 0x80, 0, 0];
    let mut bs = Bits::new(&buf, 4);
    let mut g0 = GrInfo::default();
    g0.part_23_length = 11;
    g0.big_values = 2;
    g0.table_select = [1, 1, 1];
    let g1 = GrInfo::default();
    let layouts = vec![
        ScfLayout { size: [2, 0, 0, 0], count: vec![2, 0, 0, 0], scfsi: 0 },
        ScfLayout { size: [2, 0, 0, 0], count: vec![2, 0, 0, 0], scfsi: 8 },
    ];
    let tabs = vec![vec![4u8; 22], vec![4u8; 22]];
    let out = decode_main_data(&mut bs, &[g0, g1], &layouts, &tabs, &small_tables(), 1);
    assert_eq!(out.len(), 2);
    assert_eq!(&out[0].scf[..5], &[2, 1, 0, 0, 0]);
    assert_eq!(&out[0].is[..8], &[1, 0, 0, -1, 1, 0, 0, 0]);
    assert_eq!(out[0].count, 12);
    assert_eq!(&out[1].scf[..5], &[2, 1, 0, 0, 0]);
    assert!(out[1].is.iter().all(|&v| v == 0));
    assert_eq!(out[1].count, 0);
    assert_eq!(bs.pos, 11);
}
