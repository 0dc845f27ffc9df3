use mzk::error::Error;
use mzk::flac::restore::{fixed_restore, lpc_restore};
use mzk::flac::{parse_metadata, FlacDecoder};

struct BitWriter {
    bytes: Vec<u8>,
    nbits: usize,
}

impl BitWriter {
    fn new() -> Self {
        BitWriter { bytes: Vec::new(), nbits: 0 }
    }
    fn put(&mut self, value: u64, n: u32) {
        for i in (0..n).rev() {
            let bit = ((value >> i) & 1) as u8;
            if self.nbits % 8 == 0 {
                self.bytes.push(0);
            }
            let last = self.bytes.len() - 1;
            self.bytes[last] |= bit << (7 - (self.nbits % 8));
            self.nbits += 1;
        }
    }
    fn align(&mut self) {
        while self.nbits % 8 != 0 {
            self.put(0, 1);
        }
    }
}

/// `fLaC` and one STREAMINFO block.
fn stream_head(rate: u32, channels: u32, bps: u32, total: u64) -> Vec<u8> {
    let mut v = b"fLaC".to_vec();
    v.push(0x80);
    v.extend_from_slice(&[0, 0, 34]);
    v.extend_from_slice(&[0u8; 10]);
    let packed: u64 = ((rate as u64) << 44) | (((channels - 1) as u64) << 41) | (((bps - 1) as u64) << 36) | total;
    v.extend_from_slice(&packed.to_be_bytes());
    v.extend_from_slice(&[0u8; 16]);
    v
}

/// A frame header for `bs` samples (block size code 6), 16-bit samples.
fn frame_head(w: &mut BitWriter, bs: u32, ch_assign: u32) {
    w.put(0x3FFE, 14);
    w.put(0, 2);
    w.put(6, 4);
    w.put(0, 4);
    w.put(ch_assign as u64, 4);
    w.put(4, 3);
    w.put(0, 1);
    w.put(0, 8);
    w.put((bs - 1) as u64, 8);
    w.put(0, 8);
}

fn frame_tail(w: &mut BitWriter) {
    w.align();
    w.put(0, 16);
}

#[test]
fn streaminfo_fields() {
    let data = stream_head(44100, 2, 16, 1000);
    let (info, first) = match parse_metadata(&data) {
        Ok(x) => x,
        Err(_) => panic!("metadata refused"),
    };
    assert_eq!(info.sample_rate, 44100);
    assert_eq!(info.channels, 2);
    assert_eq!(info.bps, 16);
    assert_eq!(info.total_samples, 1000);
    assert_eq!(first, data.len());
}

fn decode_err(data: Vec<u8>) -> &'static str {
    match FlacDecoder::from_bytes(data) {
        Err(Error::Decode(m)) => m,
        _ => panic!("expected a decode error"),
    }
}

#[test]
fn metadata_errors() {
    assert_eq!(decode_err(b"OggS".to_vec()), "flac: missing fLaC marker");
    assert_eq!(decode_err(b"fLaC\x80\x00".to_vec()), "flac: truncated metadata");
    assert_eq!(decode_err(b"fLaC\x80\x00\x00\x08\x00".to_vec()), "flac: truncated metadata block");
    assert_eq!(decode_err(b"fLaC\x80\x00\x00\x01\x00".to_vec()), "flac: short STREAMINFO");
    assert_eq!(decode_err(b"fLaC\x81\x00\x00\x01\x00".to_vec()), "flac: no STREAMINFO");
    assert_eq!(decode_err(stream_head(0, 2, 16, 10)), "flac: invalid stream info");
}

#[test]
fn constant_and_verbatim_subframes() {
    let mut data = stream_head(44100, 2, 16, 4);
    let mut w = BitWriter::new();
    frame_head(&mut w, 4, 1);
    w.put(0, 1);
    w.put(0, 6);
    w.put(0, 1);
    w.put(100, 16);
    w.put(0, 1);
    w.put(1, 6);
    w.put(0, 1);
    for v in [1i64, -2, 3, -4] {
        w.put((v as u64) & 0xFFFF, 16);
    }
    frame_tail(&mut w);
    data.extend_from_slice(&w.bytes);
    let mut dec = FlacDecoder::from_bytes(data).ok().unwrap();
    assert_eq!(dec.sample_rate(), 44100);
    assert_eq!(dec.channels(), 2);
    assert_eq!(dec.duration_frames(), 4);
    let f = dec.decode_frame().unwrap();
    assert_eq!(f.channels, 2);
    assert_eq!(f.bps, 16);
    assert_eq!(f.samples, vec![100, 1, 100, -2, 100, 3, 100, -4]);
    assert_eq!(dec.pos_frames(), 4);
    assert!(dec.decode_frame().is_none());
    dec.seek(0);
    assert_eq!(dec.pos_frames(), 0);
}

#[test]
fn fixed_predictor_and_left_side() {
    let mut data = stream_head(48000, 2, 16, 4);
    let mut w = BitWriter::new();
    frame_head(&mut w, 4, 8);
    // left: fixed order 2 with warm-up 1, 3 and zero residuals
    w.put(0, 1);
    w.put(10, 6);
    w.put(0, 1);
    w.put(1, 16);
    w.put(3, 16);
    w.put(0, 2);
    w.put(0, 4);
    w.put(0, 4);
    w.put(1, 1);
    w.put(1, 1);
    // side: constant 1 at 17 bits
    w.put(0, 1);
    w.put(0, 6);
    w.put(0, 1);
    w.put(1, 17);
    frame_tail(&mut w);
    data.extend_from_slice(&w.bytes);
    let mut dec = FlacDecoder::from_bytes(data).ok().unwrap();
    let f = dec.decode_frame().unwrap();
    assert_eq!(f.samples, vec![1, 0, 3, 2, 5, 4, 7, 6]);
}

#[test]
fn wasted_bits_shift_samples() {
    let mut data = stream_head(8000, 1, 16, 2);
    let mut w = BitWriter::new();
    frame_head(&mut w, 2, 0);
    w.put(0, 1);
    w.put(0, 6);
    w.put(1, 1);
    w.put(0b01, 2);
    w.put(3, 14);
    frame_tail(&mut w);
    data.extend_from_slice(&w.bytes);
    let mut dec = FlacDecoder::from_bytes(data).ok().unwrap();
    let f = dec.decode_frame().unwrap();
    assert_eq!(f.samples, vec![12, 12]);
}

#[test]
fn bad_sync_is_no_frame() {
    let mut data = stream_head(8000, 1, 16, 2);
    data.extend_from_slice(&[0x12, 0x34, 0x56, 0x78]);
    let mut dec = FlacDecoder::from_bytes(data).ok().unwrap();
    assert!(dec.decode_frame().is_none());
    assert_eq!(dec.pos_frames(), 0);
}

#[test]
fn fixed_restore_extrapolates() {
    let mut b = [1i64, 3, 0, 0];
    fixed_restore(&mut b, 2);
    assert_eq!(b, [1, 3, 5, 7]);
    let mut c = [5i64, 1, 1, 1];
    fixed_restore(&mut c, 1);
    assert_eq!(c, [5, 6, 7, 8]);
    let mut d = [5i64, 1, 1];
    fixed_restore(&mut d, 7);
    assert_eq!(d, [5, 1, 1]);
}

#[test]
fn lpc_restore_predicts() {
    let mut b = [10i64, 0, 0];
    lpc_restore(&mut b, &[2], 1, 1);
    assert_eq!(b, [10, 10, 10]);
    let mut w = [i64::MAX, 1];
    fixed_restore(&mut w, 1);
    assert_eq!(w, [i64::MAX, i64::MIN]);
}
