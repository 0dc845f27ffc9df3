//! RIFF/WAVE files: the chunk walk that finds the format and the sample
//! data, and the cursor over whole sample frames.
use vstd::prelude::*;
use crate::error::Error;

verus! {

/// Frames handed out per chunk.
pub const CHUNK_FRAMES: usize = 4096;

/// How the samples are stored.
#[derive(Clone, Copy, Debug, PartialEq, Eq, Structural)]
pub enum Sample {
    U8,
    I16,
    I24,
    I32,
    F32,
    F64,
}

/// Little-endian 16-bit value at `o`.
pub open spec fn le16s(d: Seq<u8>, o: int) -> int {
    d[o] + 256 * d[o + 1]
}

/// Little-endian 32-bit value at `o`.
pub open spec fn le32s(d: Seq<u8>, o: int) -> int {
    le16s(d, o) + 65536 * le16s(d, o + 2)
}

pub fn le16(b: &[u8], o: usize) -> (r: u16)
    requires
        o + 2 <= b@.len(),
    ensures
        r == le16s(b@, o as int),
{
    b[o] as u16 + 256 * b[o + 1] as u16
}

pub fn le32(b: &[u8], o: usize) -> (r: u32)
    requires
        o + 4 <= b@.len(),
    ensures
        r == le32s(b@, o as int),
{
    let _len = b.len();
    le16(b, o) as u32 + 65536 * le16(b, o + 2) as u32
}

/// Four bytes at `o` spell `id`.
pub open spec fn tag_at(d: Seq<u8>, o: int, id: Seq<u8>) -> bool {
    d.subrange(o, o + 4) == id
}

pub open spec fn riff_tag() -> Seq<u8> {
    seq![0x52, 0x49, 0x46, 0x46]
}

pub open spec fn wave_tag() -> Seq<u8> {
    seq![0x57, 0x41, 0x56, 0x45]
}

pub open spec fn fmt_tag() -> Seq<u8> {
    seq![0x66, 0x6d, 0x74, 0x20]
}

pub open spec fn data_tag() -> Seq<u8> {
    seq![0x64, 0x61, 0x74, 0x61]
}

/// The format fields of a `fmt ` chunk whose body starts at `body`:
/// (format tag, channels, rate, bits); an extensible format reads its
/// sub-format.
pub open spec fn fmt_fields(d: Seq<u8>, body: int, size: int) -> (int, int, int, int) {
    let f = le16s(d, body);
    let format = if f == 0xFFFE && size >= 40 { le16s(d, body + 24) } else { f };
    (format, le16s(d, body + 2), le32s(d, body + 4), le16s(d, body + 14))
}

/// Walks the chunks from `pos`: the last `fmt ` chunk's fields and the
/// last `data` chunk's byte range, stopping at a chunk that runs past the end.
pub open spec fn chunk_walk(
    d: Seq<u8>,
    pos: int,
    fmt: Option<(int, int, int, int)>,
    range: Option<(int, int)>,
) -> (Option<(int, int, int, int)>, Option<(int, int)>)
    decreases d.len() + 1 - pos,
{
    if pos < 0 || pos + 8 > d.len() {
        (fmt, range)
    } else {
        let size = le32s(d, pos + 4);
        let body = pos + 8;
        if body + size > d.len() {
            (fmt, range)
        } else if tag_at(d, pos, fmt_tag()) && size >= 16 {
            chunk_walk(d, body + size + size % 2, Some(fmt_fields(d, body, size)), range)
        } else if tag_at(d, pos, data_tag()) {
            chunk_walk(d, body + size + size % 2, fmt, Some((body, body + size)))
        } else {
            chunk_walk(d, body + size + size % 2, fmt, range)
        }
    }
}

/// The sample storage for a format tag and bit depth, if supported.
pub open spec fn spec_sample(format: int, bits: int) -> Option<Sample> {
    if format == 1 && bits == 8 {
        Some(Sample::U8)
    } else if format == 1 && bits == 16 {
        Some(Sample::I16)
    } else if format == 1 && bits == 24 {
        Some(Sample::I24)
    } else if format == 1 && bits == 32 {
        Some(Sample::I32)
    } else if format == 3 && bits == 32 {
        Some(Sample::F32)
    } else if format == 3 && bits == 64 {
        Some(Sample::F64)
    } else {
        None
    }
}

/// A WAVE file with a cursor over its sample frames.
pub struct WavDecoder {
    data: Vec<u8>,
    sample: Sample,
    rate: u32,
    channels: usize,
    block_align: usize,
    data_start: usize,
    data_end: usize,
    cursor: usize,
}

impl WavDecoder {
    #[verifier::type_invariant]
    spec fn inv(self) -> bool {
        &&& self.data_start <= self.cursor <= self.data_end <= self.data@.len()
        &&& 1 <= self.channels <= 0xFFFF
        &&& 1 <= self.block_align
        &&& self.block_align % self.channels == 0
        &&& self.block_align <= 0xFFFF * 8
    }

    pub closed spec fn spec_data(self) -> Seq<u8> {
        self.data@
    }

    pub closed spec fn spec_sample(self) -> Sample {
        self.sample
    }

    pub closed spec fn spec_rate(self) -> u32 {
        self.rate
    }

    pub closed spec fn spec_channels(self) -> usize {
        self.channels
    }

    pub closed spec fn spec_block_align(self) -> usize {
        self.block_align
    }

    pub closed spec fn spec_data_start(self) -> usize {
        self.data_start
    }

    pub closed spec fn spec_data_end(self) -> usize {
        self.data_end
    }

    pub closed spec fn spec_cursor(self) -> usize {
        self.cursor
    }
}

/// The format fields found so far, as integers.
pub open spec fn fmt_view(f: Option<(u16, u16, u32, u16)>) -> Option<(int, int, int, int)> {
    match f {
        Some((a, b, c, e)) => Some((a as int, b as int, c as int, e as int)),
        None => None,
    }
}

/// The data range found so far, as integers.
pub open spec fn range_view(r: Option<(usize, usize)>) -> Option<(int, int)> {
    match r {
        Some((a, b)) => Some((a as int, b as int)),
        None => None,
    }
}

/// Whether the four bytes at `o` are `t`.
fn has_tag(d: &[u8], o: usize, t: [u8; 4]) -> (r: bool)
    requires
        o + 4 <= d@.len(),
    ensures
        r == tag_at(d@, o as int, t@),
{
    let r = d[o] == t[0] && d[o + 1] == t[1] && d[o + 2] == t[2] && d[o + 3] == t[3];
    proof {
        if r {
            assert(d@.subrange(o as int, o + 4) =~= t@);
        } else {
            if d@.subrange(o as int, o + 4) == t@ {
                assert(d@.subrange(o as int, o + 4)[0] == d@[o as int]);
                assert(d@.subrange(o as int, o + 4)[1] == d@[o + 1]);
                assert(d@.subrange(o as int, o + 4)[2] == d@[o + 2]);
                assert(d@.subrange(o as int, o + 4)[3] == d@[o + 3]);
            }
        }
    }
    r
}

/// The outcome of opening a WAVE file: the error message, or the decoder's
/// (sample storage, rate, channels, block size, data start, data end).
pub open spec fn spec_open(d: Seq<u8>) -> Result<(Sample, int, int, int, int, int), Seq<char>> {
    if !(d.len() >= 12 && tag_at(d, 0, riff_tag()) && tag_at(d, 8, wave_tag())) {
        Err("not a RIFF/WAVE file"@)
    } else {
        let (fmt, range) = chunk_walk(d, 12, None, None);
        match fmt {
            None => Err("wav: no fmt chunk"@),
            Some((format, channels, rate, bits)) => match range {
                None => Err("wav: no data chunk"@),
                Some((start, end)) => if channels == 0 {
                    Err("wav: zero channels"@)
                } else {
                    match spec_sample(format, bits) {
                        None => Err("wav: unsupported sample format"@),
                        Some(smp) => {
                            let ba = channels * (bits / 8);
                            if ba == 0 {
                                Err("wav: zero block align"@)
                            } else {
                                Ok((smp, rate, channels, ba, start, end))
                            }
                        },
                    }
                },
            },
        }
    }
}

impl WavDecoder {
    /// Opens a WAVE file held in memory.
    pub fn from_bytes(data: Vec<u8>) -> (r: Result<WavDecoder, Error>)
        ensures
            match spec_open(data@) {
                Err(msg) => r matches Err(Error::Decode(m)) && m@ == msg,
                Ok((smp, rate, channels, ba, start, end)) => r matches Ok(dec) && dec.spec_data() == data@
                    && dec.spec_sample() == smp && dec.spec_rate() == rate && dec.spec_channels() == channels
                    && dec.spec_block_align() == ba && dec.spec_data_start() == start && dec.spec_data_end() == end
                    && dec.spec_cursor() == start,
            },
    {
        let len = data.len();
        if len < 12 || !has_tag(&data, 0, [0x52, 0x49, 0x46, 0x46]) || !has_tag(&data, 8, [0x57, 0x41, 0x56, 0x45]) {
            return Err(Error::Decode("not a RIFF/WAVE file"));
        }
        let ghost d = data@;
        let mut fmt: Option<(u16, u16, u32, u16)> = None;
        let mut range: Option<(usize, usize)> = None;
        let mut pos: usize = 12;
        let mut stop = false;
        while !stop && pos <= len && len - pos >= 8
            invariant
                d == data@,
                len == d.len(),
                pos <= len + 1,
                match range {
                    Some((a, b)) => a <= b <= len,
                    None => true,
                },
                !stop ==> chunk_walk(d, 12, None, None) == chunk_walk(d, pos as int, fmt_view(fmt), range_view(range)),
                stop ==> chunk_walk(d, 12, None, None) == (fmt_view(fmt), range_view(range)),
            decreases len + 2 - pos + if stop { 0int } else { 1int },
        {
            let ghost p0 = pos as int;
            let ghost f0 = fmt_view(fmt);
            let ghost r0 = range_view(range);
            let size = le32(&data, pos + 4) as usize;
            let body = pos + 8;
            if size > len - body {
                stop = true;
            } else {
                if has_tag(&data, pos, [0x66, 0x6d, 0x74, 0x20]) && size >= 16 {
                    let mut format = le16(&data, body);
                    let channels = le16(&data, body + 2);
                    let rate = le32(&data, body + 4);
                    let bits = le16(&data, body + 14);
                    if format == 0xFFFE && size >= 40 {
                        format = le16(&data, body + 24);
                    }
                    fmt = Some((format, channels, rate, bits));
                } else if has_tag(&data, pos, [0x64, 0x61, 0x74, 0x61]) {
                    range = Some((body, body + size));
                }
                assert(chunk_walk(d, p0, f0, r0) == chunk_walk(
                    d,
                    p0 + 8 + size + size % 2,
                    fmt_view(fmt),
                    range_view(range),
                ));
                pos = body + size;
                if size % 2 == 1 {
                    if pos == len {
                        stop = true;
                        assert(chunk_walk(d, len + 1, fmt_view(fmt), range_view(range)) == (
                            fmt_view(fmt),
                            range_view(range),
                        ));
                    } else {
                        pos += 1;
                    }
                }
            }
        }
        proof {
            if !stop {
                assert(chunk_walk(d, pos as int, fmt_view(fmt), range_view(range)) == (
                    fmt_view(fmt),
                    range_view(range),
                ));
            }
        }
        let (format, channels, rate, bits) = match fmt {
            Some(f) => f,
            None => {
                return Err(Error::Decode("wav: no fmt chunk"));
            },
        };
        let (data_start, data_end) = match range {
            Some(r) => r,
            None => {
                return Err(Error::Decode("wav: no data chunk"));
            },
        };
        if channels == 0 {
            return Err(Error::Decode("wav: zero channels"));
        }
        let sample = if format == 1 && bits == 8 {
            Sample::U8
        } else if format == 1 && bits == 16 {
            Sample::I16
        } else if format == 1 && bits == 24 {
            Sample::I24
        } else if format == 1 && bits == 32 {
            Sample::I32
        } else if format == 3 && bits == 32 {
            Sample::F32
        } else if format == 3 && bits == 64 {
            Sample::F64
        } else {
            return Err(Error::Decode("wav: unsupported sample format"));
        };
        proof {
            assert(channels as usize * (bits as usize / 8) <= 0xFFFF * 0x2000) by (nonlinear_arith)
                requires channels <= 0xFFFF, bits as usize / 8 <= 0x2000;
        }
        let block_align = channels as usize * (bits as usize / 8);
        if block_align == 0 {
            return Err(Error::Decode("wav: zero block align"));
        }
        proof {
            assert(bits <= 64);
            assert(bits as usize / 8 <= 8);
            assert(block_align % (channels as usize) == 0) by (nonlinear_arith)
                requires block_align == channels as usize * (bits as usize / 8), channels >= 1;
            assert(block_align <= 0xFFFF * 8) by (nonlinear_arith)
                requires block_align == channels as usize * (bits as usize / 8), channels <= 0xFFFF, bits as usize / 8 <= 8;
        }
        Ok(WavDecoder {
            data,
            sample,
            rate,
            channels: channels as usize,
            block_align,
            data_start,
            data_end,
            cursor: data_start,
        })
    }
}

/// The signed value of an integer sample stored at `o` (8-bit samples are
/// unsigned, centred on 128).
pub open spec fn spec_int_sample(sample: Sample, d: Seq<u8>, o: int) -> int {
    match sample {
        Sample::U8 => d[o] - 128,
        Sample::I16 => {
            let v = le16s(d, o);
            if v >= 0x8000 { v - 0x1_0000 } else { v }
        },
        Sample::I24 => {
            let v = le16s(d, o) + 65536 * d[o + 2];
            if v >= 0x80_0000 { v - 0x100_0000 } else { v }
        },
        _ => {
            let v = le32s(d, o);
            if v >= 0x8000_0000 { v - 0x1_0000_0000 } else { v }
        },
    }
}

/// Bytes per stored sample.
pub open spec fn sample_width(sample: Sample) -> int {
    match sample {
        Sample::U8 => 1,
        Sample::I16 => 2,
        Sample::I24 => 3,
        Sample::I32 | Sample::F32 => 4,
        Sample::F64 => 8,
    }
}

/// The signed integer value of the sample at `o`, for the integer storages.
pub fn int_sample(sample: Sample, b: &[u8], o: usize) -> (r: i32)
    requires
        o + sample_width(sample) <= b@.len(),
        sample != Sample::F32 && sample != Sample::F64,
    ensures
        r == spec_int_sample(sample, b@, o as int),
{
    let _n = b.len();
    match sample {
        Sample::U8 => b[o] as i32 - 128,
        Sample::I16 => {
            let v = le16(b, o) as i32;
            if v >= 0x8000 { v - 0x1_0000 } else { v }
        },
        Sample::I24 => {
            let v = le16(b, o) as i32 + 65536 * b[o + 2] as i32;
            if v >= 0x80_0000 { v - 0x100_0000 } else { v }
        },
        _ => {
            let v = le32(b, o) as i64;
            if v >= 0x8000_0000 { (v - 0x1_0000_0000) as i32 } else { v as i32 }
        },
    }
}

impl WavDecoder {
    pub fn sample_rate(&self) -> (r: u32)
        ensures
            r == self.spec_rate(),
    {
        self.rate
    }

    pub fn channels(&self) -> (r: usize)
        ensures
            r == self.spec_channels(),
    {
        self.channels
    }

    /// How the samples are stored.
    pub fn sample(&self) -> (r: Sample)
        ensures
            r == self.spec_sample(),
    {
        self.sample
    }

    /// The whole file.
    pub fn bytes(&self) -> (r: &[u8])
        ensures
            r@ == self.spec_data(),
    {
        self.data.as_slice()
    }

    /// Bytes per sample of one channel.
    pub fn width(&self) -> (r: usize)
        ensures
            r == self.spec_block_align() / self.spec_channels(),
    {
        proof {
            use_type_invariant(self);
        }
        self.block_align / self.channels
    }

    /// Whole frames in the data chunk.
    pub fn duration_frames(&self) -> (r: u64)
        ensures
            r == (self.spec_data_end() - self.spec_data_start()) / (self.spec_block_align() as int),
    {
        proof {
            use_type_invariant(self);
        }
        ((self.data_end - self.data_start) / self.block_align) as u64
    }

    /// Whole frames before the cursor.
    pub fn pos_frames(&self) -> (r: u64)
        ensures
            r == (self.spec_cursor() - self.spec_data_start()) / (self.spec_block_align() as int),
    {
        proof {
            use_type_invariant(self);
        }
        ((self.cursor - self.data_start) / self.block_align) as u64
    }

    /// Moves the cursor to frame `frame`, or to the end of the data where
    /// that lies beyond it.
    pub fn seek(&mut self, frame: u64)
        requires
            old(self).spec_data_start() + frame * old(self).spec_block_align() <= usize::MAX,
        ensures
            final(self).spec_cursor() == crate::opus::celt::rate::min_int(
                old(self).spec_data_start() + frame * old(self).spec_block_align(),
                old(self).spec_data_end() as int,
            ),
            final(self).spec_data() == old(self).spec_data(),
            final(self).spec_sample() == old(self).spec_sample(),
            final(self).spec_rate() == old(self).spec_rate(),
            final(self).spec_channels() == old(self).spec_channels(),
            final(self).spec_block_align() == old(self).spec_block_align(),
            final(self).spec_data_start() == old(self).spec_data_start(),
            final(self).spec_data_end() == old(self).spec_data_end(),
    {
        proof {
            use_type_invariant(&*self);
        }
        let ghost ba = self.block_align as int;
        proof {
            assert(frame * ba >= 0) by (nonlinear_arith) requires ba >= 1;
            assert(frame <= frame * ba) by (nonlinear_arith) requires ba >= 1;
        }
        let off = self.data_start + frame as usize * self.block_align;
        let c = if off < self.data_end { off } else { self.data_end };
        self.cursor = c;
    }

    /// Hands out the next run of whole frames, at most `CHUNK_FRAMES`:
    /// the byte offset of its first frame and the number of frames; `None`
    /// once less than a frame is left.
    pub fn next_chunk(&mut self) -> (r: Option<(usize, usize)>)
        ensures
            final(self).spec_data() == old(self).spec_data(),
            final(self).spec_sample() == old(self).spec_sample(),
            final(self).spec_rate() == old(self).spec_rate(),
            final(self).spec_channels() == old(self).spec_channels(),
            final(self).spec_block_align() == old(self).spec_block_align(),
            final(self).spec_data_start() == old(self).spec_data_start(),
            final(self).spec_data_end() == old(self).spec_data_end(),
            old(self).spec_cursor() + old(self).spec_block_align() > old(self).spec_data_end() ==> r is None
                && final(self).spec_cursor() == old(self).spec_cursor(),
            old(self).spec_cursor() + old(self).spec_block_align() <= old(self).spec_data_end() ==> ({
                &&& r matches Some((start, frames))
                &&& start == old(self).spec_cursor()
                &&& frames == crate::opus::celt::rate::min_int(
                    (old(self).spec_data_end() - old(self).spec_cursor()) / (old(self).spec_block_align() as int),
                    CHUNK_FRAMES as int,
                )
                &&& final(self).spec_cursor() == start + frames * old(self).spec_block_align()
                &&& final(self).spec_cursor() <= final(self).spec_data_end()
            }),
    {
        proof {
            use_type_invariant(&*self);
        }
        if self.block_align > self.data_end - self.cursor {
            return None;
        }
        let avail = (self.data_end - self.cursor) / self.block_align;
        let frames = if avail < CHUNK_FRAMES { avail } else { CHUNK_FRAMES };
        let ghost ba = self.block_align as int;
        let ghost rem = self.data_end - self.cursor;
        proof {
            assert(frames * ba <= avail * ba) by (nonlinear_arith) requires frames <= avail, ba >= 1;
            assert(avail * ba <= rem) by (nonlinear_arith) requires avail == rem / ba, ba >= 1, rem >= 0;
        }
        let start = self.cursor;
        self.cursor = start + frames * self.block_align;
        Some((start, frames))
    }
}

/// Seeking lands on the frame asked for, or on the end of the data where
/// that frame lies beyond it: the position read after a seek to `frame` is
/// the lesser of `frame` and the duration.
pub proof fn lemma_seek_position(w: WavDecoder, frame: nat)
    requires
        1 <= w.spec_block_align(),
        w.spec_data_start() <= w.spec_data_end(),
    ensures
        (crate::opus::celt::rate::min_int(
            w.spec_data_start() + frame * w.spec_block_align(),
            w.spec_data_end() as int,
        ) - w.spec_data_start()) / (w.spec_block_align() as int)
            == crate::opus::celt::rate::min_int(
            frame as int,
            (w.spec_data_end() - w.spec_data_start()) / (w.spec_block_align() as int),
        ),
{
    let ba = w.spec_block_align() as int;
    let start = w.spec_data_start() as int;
    let len = w.spec_data_end() - start;
    let fb = frame * ba;
    vstd::arithmetic::mul::lemma_mul_is_commutative(frame as int, ba);
    vstd::arithmetic::div_mod::lemma_div_multiples_vanish(frame as int, ba);
    assert(fb / ba == frame);
    if fb <= len {
        assert(start + fb - start == fb);
        vstd::arithmetic::div_mod::lemma_div_is_ordered(fb, len, ba);
    } else {
        vstd::arithmetic::div_mod::lemma_fundamental_div_mod(len, ba);
        vstd::arithmetic::div_mod::lemma_mod_bound(len, ba);
        if len / ba >= frame {
            vstd::arithmetic::mul::lemma_mul_inequality(frame as int, len / ba, ba);
            assert(false);
        }
    }
}

/// Which WAVE files open, by format tag and bit depth: PCM (tag 1) of 8,
/// 16, 24 or 32 bits opens as unsigned bytes or 16-, 24- or 32-bit signed
/// samples, IEEE float (tag 3) of 32 or 64 bits as floats, with a block of
/// `channels * bits / 8` bytes; every other pair is refused as an
/// unsupported sample format. This holds of a RIFF/WAVE file whose chunks
/// give a `fmt ` chunk with at least one channel and a `data` chunk.
pub proof fn lemma_wav_formats(d: Seq<u8>)
    requires
        d.len() >= 12,
        tag_at(d, 0, riff_tag()),
        tag_at(d, 8, wave_tag()),
        chunk_walk(d, 12, None, None).0 is Some,
        chunk_walk(d, 12, None, None).1 is Some,
        chunk_walk(d, 12, None, None).0->Some_0.1 != 0,
    ensures
        ({
            let (format, channels, rate, bits) = chunk_walk(d, 12, None, None).0->Some_0;
            let (start, end) = chunk_walk(d, 12, None, None).1->Some_0;
            &&& (format == 1 && bits == 8) ==> spec_open(d) == Ok::<(Sample, int, int, int, int, int), Seq<char>>(
                (Sample::U8, rate, channels, channels, start, end),
            )
            &&& (format == 1 && bits == 16) ==> spec_open(d) == Ok::<(Sample, int, int, int, int, int), Seq<char>>(
                (Sample::I16, rate, channels, 2 * channels, start, end),
            )
            &&& (format == 1 && bits == 24) ==> spec_open(d) == Ok::<(Sample, int, int, int, int, int), Seq<char>>(
                (Sample::I24, rate, channels, 3 * channels, start, end),
            )
            &&& (format == 1 && bits == 32) ==> spec_open(d) == Ok::<(Sample, int, int, int, int, int), Seq<char>>(
                (Sample::I32, rate, channels, 4 * channels, start, end),
            )
            &&& (format == 3 && bits == 32) ==> spec_open(d) == Ok::<(Sample, int, int, int, int, int), Seq<char>>(
                (Sample::F32, rate, channels, 4 * channels, start, end),
            )
            &&& (format == 3 && bits == 64) ==> spec_open(d) == Ok::<(Sample, int, int, int, int, int), Seq<char>>(
                (Sample::F64, rate, channels, 8 * channels, start, end),
            )
            &&& !((format == 1 && (bits == 8 || bits == 16 || bits == 24 || bits == 32)) || (format == 3 && (bits
                == 32 || bits == 64))) ==> spec_open(d) == Err::<(Sample, int, int, int, int, int), Seq<char>>(
                "wav: unsupported sample format"@,
            )
        }),
{
}

/// A supported format stores each sample in `bits / 8` bytes.
pub proof fn lemma_width_of_format(format: int, bits: int)
    requires
        spec_sample(format, bits) is Some,
    ensures
        sample_width(spec_sample(format, bits)->Some_0) == bits / 8,
{
}

/// Integer samples are little-endian two's complement (8-bit ones offset
/// by 128): the value lies in the signed range of its width and agrees
/// with the stored bytes modulo 2^(8 * width).
pub proof fn lemma_int_sample_bytes(d: Seq<u8>, o: int)
    requires
        0 <= o,
        o + 4 <= d.len(),
    ensures
        spec_int_sample(Sample::U8, d, o) == d[o] - 128,
        -0x8000 <= spec_int_sample(Sample::I16, d, o) < 0x8000,
        (spec_int_sample(Sample::I16, d, o) - (d[o] + 256 * d[o + 1])) % 0x1_0000 == 0,
        -0x80_0000 <= spec_int_sample(Sample::I24, d, o) < 0x80_0000,
        (spec_int_sample(Sample::I24, d, o) - (d[o] + 256 * d[o + 1] + 0x1_0000 * d[o + 2])) % 0x100_0000 == 0,
        -0x8000_0000 <= spec_int_sample(Sample::I32, d, o) < 0x8000_0000,
        (spec_int_sample(Sample::I32, d, o) - (d[o] + 256 * d[o + 1] + 0x1_0000 * d[o + 2] + 0x100_0000 * d[o + 3]))
            % 0x1_0000_0000 == 0,
{
}

} // verus!
