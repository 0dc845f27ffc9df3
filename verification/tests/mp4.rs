use mzk::error::Error;
use mzk::m4a::mp4::{demux, Codec};
use mzk::m4a::M4aDecoder;

fn boxed(typ: &[u8; 4], body: &[u8]) -> Vec<u8> {
    let mut v = ((body.len() + 8) as u32).to_be_bytes().to_vec();
    v.extend_from_slice(typ);
    v.extend_from_slice(body);
    v
}

fn be32(x: u32) -> [u8; 4] {
    x.to_be_bytes()
}

fn alac_stsd() -> Vec<u8> {
    let mut cookie = vec![0u8; 4];
    cookie.extend_from_slice(&be32(4096));
    cookie.extend_from_slice(&[0, 16, 40, 10, 14, 2]);
    cookie.extend_from_slice(&[0, 255]);
    cookie.extend_from_slice(&be32(0));
    cookie.extend_from_slice(&be32(0));
    cookie.extend_from_slice(&be32(44100));
    let cookie_box = boxed(b"alac", &cookie);
    let mut entry = vec![0u8; 16];
    entry.extend_from_slice(&[0, 2, 0, 16, 0, 0, 0, 0]);
    entry.extend_from_slice(&[0xAC, 0x44, 0, 0]);
    entry.extend_from_slice(&cookie_box);
    let entry_box = boxed(b"alac", &entry);
    let mut stsd = vec![0, 0, 0, 0, 0, 0, 0, 1];
    stsd.extend_from_slice(&entry_box);
    boxed(b"stsd", &stsd)
}

fn table(typ: &[u8; 4], words: &[u32]) -> Vec<u8> {
    let mut b = vec![0u8; 4];
    for w in words {
        b.extend_from_slice(&be32(*w));
    }
    boxed(typ, &b)
}

fn movie(stbl_children: &[Vec<u8>]) -> Vec<u8> {
    let mut stbl = Vec::new();
    for c in stbl_children {
        stbl.extend_from_slice(c);
    }
    let minf = boxed(b"minf", &boxed(b"stbl", &stbl));
    let trak = boxed(b"trak", &boxed(b"mdia", &minf));
    let mut file = boxed(b"ftyp", b"M4A ");
    file.extend_from_slice(&boxed(b"moov", &trak));
    file
}

#[test]
fn demux_alac_tables() {
    let file = movie(&[
        alac_stsd(),
        table(b"stsz", &[0, 3, 10, 20, 30]),
        table(b"stco", &[2, 1000, 5000]),
        table(b"stsc", &[1, 1, 2, 1]),
    ]);
    let m = match demux(&file) {
        Ok(m) => m,
        Err(_) => panic!("demux refused"),
    };
    assert_eq!(m.sample_rate, 44100);
    assert_eq!(m.channels, 2);
    match m.codec {
        Codec::Alac(c) => {
            assert_eq!(c.frame_length, 4096);
            assert_eq!(c.bit_depth, 16);
            assert_eq!(c.pb, 40);
            assert_eq!(c.mb, 10);
            assert_eq!(c.kb, 14);
            assert_eq!(c.num_channels, 2);
        },
        _ => panic!("not alac"),
    }
    assert_eq!(m.samples, vec![(1000, 10), (1010, 20), (5000, 30)]);
}

#[test]
fn constant_sizes_and_second_run() {
    let file = movie(&[
        alac_stsd(),
        table(b"stsz", &[7, 4]),
        table(b"stco", &[3, 100, 200, 300]),
        table(b"stsc", &[2, 1, 1, 1, 2, 3, 1]),
    ]);
    let m = demux(&file).ok().unwrap();
    assert_eq!(m.samples, vec![(100, 7), (200, 7), (207, 7), (214, 7)]);
}

fn demux_err(file: &[u8]) -> &'static str {
    match demux(file) {
        Err(Error::Decode(m)) => m,
        _ => panic!("expected an error"),
    }
}

#[test]
fn demux_errors() {
    assert_eq!(demux_err(&[]), "mp4: no stbl");
    assert_eq!(demux_err(&movie(&[])), "mp4: no stsd");
    assert_eq!(demux_err(&movie(&[alac_stsd()])), "mp4: no stsz");
    assert_eq!(demux_err(&movie(&[alac_stsd(), table(b"stsz", &[0, 0])])), "mp4: no stco/co64");
    assert_eq!(
        demux_err(&movie(&[alac_stsd(), table(b"stsz", &[0, 0]), table(b"co64", &[0])])),
        "mp4: no stsc"
    );
    assert_eq!(demux_err(&movie(&[boxed(b"stsd", &[0u8; 8])])), "mp4: short stsd");
}

#[test]
fn count_bombs_are_capped() {
    let file = movie(&[
        alac_stsd(),
        table(b"stsz", &[0, 0xffff_ffff]),
        table(b"stco", &[0xffff_ffff]),
        table(b"stsc", &[0xffff_ffff]),
    ]);
    let m = demux(&file).ok().unwrap();
    assert!(m.samples.is_empty());
}

fn aac_stsd(asc: &[u8]) -> Vec<u8> {
    let mut esds = vec![0u8; 4];
    esds.push(0x05);
    esds.push(asc.len() as u8);
    esds.extend_from_slice(asc);
    let mut entry = vec![0u8; 16];
    entry.extend_from_slice(&[0, 2, 0, 16, 0, 0, 0, 0]);
    entry.extend_from_slice(&[0xAC, 0x44, 0, 0]);
    entry.extend_from_slice(&boxed(b"esds", &esds));
    let mut stsd = vec![0, 0, 0, 0, 0, 0, 0, 1];
    stsd.extend_from_slice(&boxed(b"mp4a", &entry));
    boxed(b"stsd", &stsd)
}

const STEREO_VERBATIM: [u8; 15] = [32, 0, 22, 0, 0, 0, 4, 0, 11, 255, 245, 0, 0, 255, 254];
const MONO_RICE: [u8; 10] = [0, 0, 16, 0, 0, 0, 4, 19, 0, 12];

/// A file with three ALAC packets in one chunk; the last runs past the end.
fn alac_file() -> (Vec<u8>, usize) {
    let build = |at: u32| {
        movie(&[
            alac_stsd(),
            table(b"stsz", &[0, 3, 15, 10, 1000]),
            table(b"stco", &[1, at]),
            table(b"stsc", &[1, 1, 3, 1]),
        ])
    };
    let head = build(0).len() + 8;
    let mut file = build(head as u32);
    let mut mdat = STEREO_VERBATIM.to_vec();
    mdat.extend_from_slice(&MONO_RICE);
    file.extend_from_slice(&boxed(b"mdat", &mdat));
    (file, head)
}

#[test]
fn m4a_walks_and_decodes_alac_packets() {
    let (file, at) = alac_file();
    let mut d = M4aDecoder::from_bytes(file).ok().unwrap();
    assert_eq!(d.sample_rate(), 44100);
    assert_eq!(d.channels(), 2);
    assert_eq!(d.duration_frames(), 3 * 4096);
    let (off, len) = d.next_packet().unwrap();
    assert_eq!((off, len), (at, 15));
    let pcm = d.decode_alac(off, len).unwrap();
    assert_eq!(pcm, vec![1280, -1536, -8388608, 8388352]);
    d.count_output(pcm.len());
    assert_eq!(d.pos_frames(), 2);
    let (off, len) = d.next_packet().unwrap();
    assert_eq!((off, len), (at + 15, 10));
    assert_eq!(d.decode_alac(off, len).unwrap(), vec![0, -2]);
    assert_eq!(d.next_packet(), None);
    assert_eq!(d.next_packet(), None);
    d.seek(4096 + 5);
    assert_eq!(d.pos_frames(), 4096);
    assert_eq!(d.next_packet(), Some((at + 15, 10)));
    d.seek(u64::MAX);
    assert_eq!(d.pos_frames(), 3 * 4096);
    assert_eq!(d.next_packet(), None);
}

#[test]
fn m4a_accepts_only_aac_lc_with_1024_samples() {
    let tables = || vec![table(b"stsz", &[0, 1, 4]), table(b"stco", &[1, 0]), table(b"stsc", &[1, 1, 1, 1])];
    let with = |asc: &[u8]| {
        let mut c = vec![aac_stsd(asc)];
        c.extend(tables());
        M4aDecoder::from_bytes(movie(&c))
    };
    assert!(matches!(with(&[0x2A, 0x10]), Err(Error::Unsupported("m4a: only AAC-LC (object type 2)"))));
    assert!(matches!(with(&[0x12, 0x14]), Err(Error::Unsupported("m4a: only 1024 frame length"))));
    let d = with(&[0x12, 0x10]).ok().unwrap();
    assert_eq!(d.duration_frames(), 1024);
    assert_eq!(d.decode_alac(0, 4), None);
    assert!(matches!(M4aDecoder::from_bytes(Vec::new()), Err(Error::Decode("mp4: no stbl"))));
}
