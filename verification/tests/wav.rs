use mzk::error::Error;
use mzk::wav::{int_sample, Sample, WavDecoder, CHUNK_FRAMES};

fn chunk(id: &[u8; 4], body: &[u8]) -> Vec<u8> {
    let mut v = id.to_vec();
    v.extend_from_slice(&(body.len() as u32).to_le_bytes());
    v.extend_from_slice(body);
    if body.len() % 2 == 1 {
        v.push(0);
    }
    v
}

fn fmt_body(format: u16, channels: u16, rate: u32, bits: u16) -> Vec<u8> {
    let mut f = Vec::new();
    f.extend_from_slice(&format.to_le_bytes());
    f.extend_from_slice(&channels.to_le_bytes());
    f.extend_from_slice(&rate.to_le_bytes());
    f.extend_from_slice(&(rate * channels as u32 * bits as u32 / 8).to_le_bytes());
    f.extend_from_slice(&(channels * bits / 8).to_le_bytes());
    f.extend_from_slice(&bits.to_le_bytes());
    f
}

fn wav(chunks: &[Vec<u8>]) -> Vec<u8> {
    let mut body = b"WAVE".to_vec();
    for c in chunks {
        body.extend_from_slice(c);
    }
    let mut v = b"RIFF".to_vec();
    v.extend_from_slice(&(body.len() as u32).to_le_bytes());
    v.extend_from_slice(&body);
    v
}

fn err(data: Vec<u8>) -> &'static str {
    match WavDecoder::from_bytes(data) {
        Err(Error::Decode(m)) => m,
        _ => panic!("expected a decode error"),
    }
}

#[test]
fn opens_pcm16_stereo() {
    let samples: [i16; 4] = [1, -1, 300, -300];
    let mut data = Vec::new();
    for s in samples {
        data.extend_from_slice(&s.to_le_bytes());
    }
    let bytes = wav(&[chunk(b"LIST", &[1, 2, 3]), chunk(b"fmt ", &fmt_body(1, 2, 44100, 16)), chunk(b"data", &data)]);
    let mut dec = WavDecoder::from_bytes(bytes).ok().unwrap();
    assert_eq!(dec.sample_rate(), 44100);
    assert_eq!(dec.channels(), 2);
    assert_eq!(dec.sample(), Sample::I16);
    assert_eq!(dec.width(), 2);
    assert_eq!(dec.duration_frames(), 2);
    assert_eq!(dec.pos_frames(), 0);
    let (start, frames) = dec.next_chunk().unwrap();
    assert_eq!(frames, 2);
    assert_eq!(int_sample(Sample::I16, dec.bytes(), start), 1);
    assert_eq!(int_sample(Sample::I16, dec.bytes(), start + 2), -1);
    assert_eq!(int_sample(Sample::I16, dec.bytes(), start + 6), -300);
    assert_eq!(dec.pos_frames(), 2);
    assert!(dec.next_chunk().is_none());
    dec.seek(1);
    assert_eq!(dec.pos_frames(), 1);
    dec.seek(1000);
    assert_eq!(dec.pos_frames(), 2);
}

#[test]
fn chunks_are_capped() {
    let data = vec![0u8; (CHUNK_FRAMES + 3) * 2];
    let bytes = wav(&[chunk(b"fmt ", &fmt_body(1, 1, 8000, 16)), chunk(b"data", &data)]);
    let mut dec = WavDecoder::from_bytes(bytes).ok().unwrap();
    assert_eq!(dec.next_chunk().unwrap().1, CHUNK_FRAMES);
    assert_eq!(dec.next_chunk().unwrap().1, 3);
    assert!(dec.next_chunk().is_none());
}

#[test]
fn open_errors() {
    assert_eq!(err(b"RIFX\0\0\0\0WAVE".to_vec()), "not a RIFF/WAVE file");
    assert_eq!(err(wav(&[chunk(b"data", &[0, 0])])), "wav: no fmt chunk");
    assert_eq!(err(wav(&[chunk(b"fmt ", &fmt_body(1, 2, 8000, 16))])), "wav: no data chunk");
    assert_eq!(err(wav(&[chunk(b"fmt ", &fmt_body(1, 0, 8000, 16)), chunk(b"data", &[0, 0])])), "wav: zero channels");
    assert_eq!(err(wav(&[chunk(b"fmt ", &fmt_body(2, 2, 8000, 16)), chunk(b"data", &[0, 0])])), "wav: unsupported sample format");
}

#[test]
fn integer_sample_values() {
    assert_eq!(int_sample(Sample::U8, &[0], 0), -128);
    assert_eq!(int_sample(Sample::U8, &[255], 0), 127);
    assert_eq!(int_sample(Sample::I24, &[0xff, 0xff, 0xff], 0), -1);
    assert_eq!(int_sample(Sample::I24, &[0x00, 0x00, 0x80], 0), -8388608);
    assert_eq!(int_sample(Sample::I32, &[0, 0, 0, 0x80], 0), i32::MIN);
    assert_eq!(int_sample(Sample::I32, &[1, 0, 0, 0], 0), 1);
}
