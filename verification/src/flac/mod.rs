//! FLAC: the metadata walk, the frame and subframe decoders and the
//! stream cursor. Sample arithmetic is modulo 2^64, as the prediction
//! filters wrap.
pub mod bits;
pub mod restore;
pub mod residual;
pub mod subframe;
pub mod frame;

use vstd::prelude::*;
use crate::error::Error;
use crate::flac::bits::POS_CAP;
use crate::flac::frame::{FlacFrame, frame, decode_frame_at};

verus! {

/// The big-endian value of `n` bytes at `off`.
pub open spec fn be_s(d: Seq<u8>, off: int, n: nat) -> nat
    decreases n,
{
    if n == 0 {
        0
    } else {
        be_s(d, off, (n - 1) as nat) * 256 + d[off + n - 1] as nat
    }
}

pub proof fn lemma_be_bound(d: Seq<u8>, off: int, n: nat)
    requires
        n <= 8,
    ensures
        be_s(d, off, n) < vstd::arithmetic::power2::pow2(8 * n),
    decreases n,
{
    vstd::arithmetic::power2::lemma2_to64();
    vstd::arithmetic::power2::lemma2_to64_rest();
    if n > 0 {
        lemma_be_bound(d, off, (n - 1) as nat);
        vstd::arithmetic::power2::lemma_pow2_adds(8 * (n - 1) as nat, 8);
        let p = vstd::arithmetic::power2::pow2(8 * (n - 1) as nat);
        assert(be_s(d, off, (n - 1) as nat) * 256 + 255 < p * 256) by (nonlinear_arith)
            requires be_s(d, off, (n - 1) as nat) < p;
        assert(8 * (n - 1) as nat + 8 == 8 * n);
    }
}

/// Big-endian value of `n` bytes at `off`.
pub fn be(data: &[u8], off: usize, n: usize) -> (r: u64)
    requires
        n <= 8,
        off + n <= data@.len(),
    ensures
        r == be_s(data@, off as int, n as nat),
{
    let mut v: u64 = 0;
    let mut i: usize = 0;
    while i < n
        invariant
            i <= n <= 8,
            off + n <= data@.len(),
            data@.len() == data.len(),
            v == be_s(data@, off as int, i as nat),
        decreases n - i,
    {
        proof {
            lemma_be_bound(data@, off as int, i as nat);
            lemma_be_bound(data@, off as int, (i + 1) as nat);
            vstd::arithmetic::power2::lemma2_to64_rest();
            if i + 1 < 8 {
                vstd::arithmetic::power2::lemma_pow2_strictly_increases(8 * (i + 1) as nat, 64);
            }
        }
        v = v * 256 + data[off + i] as u64;
        i = i + 1;
    }
    v
}

/// The stream parameters.
#[derive(Clone, Copy, Debug, PartialEq, Eq, Structural)]
pub struct StreamInfo {
    pub sample_rate: u32,
    pub channels: usize,
    pub bps: u32,
    pub total_samples: u64,
}

/// The parameters packed in the eight STREAMINFO bytes from offset 10:
/// 20 bits of rate, 3 of channels less one, 5 of bits per sample less one,
/// 36 of total samples.
pub open spec fn info_of(packed: nat) -> StreamInfo {
    StreamInfo {
        sample_rate: (packed / 0x1000_0000_0000 % 0x10_0000) as u32,
        channels: (packed / 0x200_0000_0000 % 8 + 1) as usize,
        bps: (packed / 0x10_0000_0000 % 32 + 1) as u32,
        total_samples: (packed % 0x10_0000_0000) as u64,
    }
}

/// The metadata blocks from `pos`: the last STREAMINFO seen and the offset
/// after the last block, or the message of the fault met first.
pub open spec fn meta_walk(d: Seq<u8>, pos: int, info: Option<StreamInfo>) -> Result<
    (Option<StreamInfo>, int),
    &'static str,
>
    decreases d.len() - pos,
{
    if pos < 0 || pos + 4 > d.len() {
        Err("flac: truncated metadata")
    } else {
        let header = d[pos];
        let len = be_s(d, pos + 1, 3);
        let body = pos + 4;
        if body + len > d.len() {
            Err("flac: truncated metadata block")
        } else if header % 128 == 0 && len < 34 {
            Err("flac: short STREAMINFO")
        } else {
            let info2 = if header % 128 == 0 {
                Some(info_of(be_s(d, body + 10, 8)))
            } else {
                info
            };
            if header >= 128 {
                Ok((info2, body + len))
            } else {
                meta_walk(d, body + len, info2)
            }
        }
    }
}

pub open spec fn flac_tag() -> Seq<u8> {
    seq![0x66, 0x4c, 0x61, 0x43]
}

/// The outcome of reading the metadata: the stream parameters and the
/// offset of the first frame, or the message of the fault.
pub open spec fn spec_metadata(d: Seq<u8>) -> Result<(StreamInfo, int), &'static str> {
    if d.len() < 4 || d.subrange(0, 4) != flac_tag() {
        Err("flac: missing fLaC marker")
    } else {
        match meta_walk(d, 4, None) {
            Err(m) => Err(m),
            Ok((None, _)) => Err("flac: no STREAMINFO"),
            Ok((Some(info), pos)) => Ok((info, pos)),
        }
    }
}

/// Reads the `fLaC` marker and the metadata blocks.
pub fn parse_metadata(data: &[u8]) -> (r: Result<(StreamInfo, usize), Error>)
    ensures
        match spec_metadata(data@) {
            Err(m) => r matches Err(Error::Decode(e)) && e@ == m@,
            Ok((info, pos)) => r matches Ok((i2, p2)) && i2 == info && p2 == pos,
        },
{
    let n = data.len();
    if n < 4 || !(data[0] == 0x66 && data[1] == 0x4c && data[2] == 0x61 && data[3] == 0x43) {
        proof {
            if n >= 4 && data@.subrange(0, 4) == flac_tag() {
                assert(data@.subrange(0, 4)[0] == data@[0]);
                assert(data@.subrange(0, 4)[1] == data@[1]);
                assert(data@.subrange(0, 4)[2] == data@[2]);
                assert(data@.subrange(0, 4)[3] == data@[3]);
            }
        }
        return Err(Error::Decode("flac: missing fLaC marker"));
    }
    assert(data@.subrange(0, 4) =~= flac_tag());
    let ghost d = data@;
    let mut pos: usize = 4;
    let mut info: Option<StreamInfo> = None;
    loop
        invariant
            d == data@,
            n == d.len(),
            4 <= pos <= n,
            d.subrange(0, 4) == flac_tag(),
            meta_walk(d, 4, None) == meta_walk(d, pos as int, info),
        decreases n - pos,
    {
        if pos > n - 4 {
            return Err(Error::Decode("flac: truncated metadata"));
        }
        let header = data[pos];
        proof {
            lemma_be_bound(d, pos + 1, 3);
            vstd::arithmetic::power2::lemma2_to64();
        }
        let len = be(data, pos + 1, 3) as usize;
        let body = pos + 4;
        if len > n - body {
            return Err(Error::Decode("flac: truncated metadata block"));
        }
        if header % 128 == 0 {
            if len < 34 {
                return Err(Error::Decode("flac: short STREAMINFO"));
            }
            let packed = be(data, body + 10, 8);
            info = Some(StreamInfo {
                sample_rate: (packed / 0x1000_0000_0000 % 0x10_0000) as u32,
                channels: (packed / 0x200_0000_0000 % 8 + 1) as usize,
                bps: (packed / 0x10_0000_0000 % 32 + 1) as u32,
                total_samples: packed % 0x10_0000_0000,
            });
        }
        pos = body + len;
        if header >= 128 {
            return match info {
                Some(i) => Ok((i, pos)),
                None => Err(Error::Decode("flac: no STREAMINFO")),
            };
        }
    }
}

/// The stream position after `bs` more samples; it stops at the largest
/// count.
pub open spec fn count_after(emitted: u64, bs: nat) -> u64 {
    if emitted + bs > u64::MAX {
        u64::MAX
    } else {
        (emitted + bs) as u64
    }
}

/// Where decoding from the first frame stops when seeking to `target`: the
/// frame cursor and sample count once the count is within one of the
/// target, or once a frame fails or adds nothing.
pub open spec fn seek_walk(d: Seq<u8>, bps: nat, cursor: int, emitted: u64, target: u64) -> (int, u64)
    decreases (if target >= emitted { target - emitted } else { 0 }),
{
    if emitted + 1 >= target {
        (cursor, emitted)
    } else {
        match frame(d, cursor, bps) {
            None => (cursor, emitted),
            Some((s, nch, fbps, bs, c2)) => {
                let e2 = count_after(emitted, bs);
                if e2 == emitted {
                    (c2, e2)
                } else {
                    seek_walk(d, bps, c2, e2, target)
                }
            },
        }
    }
}

/// A FLAC stream held in memory, with a cursor at a frame boundary.
pub struct FlacDecoder {
    data: Vec<u8>,
    info: StreamInfo,
    first_frame: usize,
    cursor: u64,
    emitted: u64,
}

impl FlacDecoder {
    #[verifier::type_invariant]
    spec fn inv(self) -> bool {
        &&& 8 * self.data@.len() <= POS_CAP
        &&& 8 * self.cursor <= POS_CAP
        &&& self.first_frame <= self.data@.len()
        &&& 1 <= self.info.bps <= 32
    }

    pub closed spec fn spec_data(self) -> Seq<u8> {
        self.data@
    }

    pub closed spec fn spec_info(self) -> StreamInfo {
        self.info
    }

    pub closed spec fn spec_first_frame(self) -> usize {
        self.first_frame
    }

    pub closed spec fn spec_cursor(self) -> u64 {
        self.cursor
    }

    pub closed spec fn spec_emitted(self) -> u64 {
        self.emitted
    }

    /// Opens a FLAC stream held in memory.
    pub fn from_bytes(data: Vec<u8>) -> (r: Result<FlacDecoder, Error>)
        requires
            8 * data@.len() <= POS_CAP,
        ensures
            match spec_metadata(data@) {
                Err(m) => r matches Err(Error::Decode(e)) && e@ == m@,
                Ok((info, pos)) => if info.channels == 0 || info.bps == 0 || info.sample_rate == 0 {
                    r matches Err(Error::Decode(e)) && e@ == "flac: invalid stream info"@
                } else {
                    r matches Ok(dec) && dec.spec_data() == data@ && dec.spec_info() == info
                        && dec.spec_first_frame() == pos && dec.spec_cursor() == pos && dec.spec_emitted() == 0
                },
            },
    {
        let (info, first_frame) = match parse_metadata(data.as_slice()) {
            Ok(x) => x,
            Err(e) => {
                return Err(e);
            },
        };
        if info.channels == 0 || info.bps == 0 || info.sample_rate == 0 {
            return Err(Error::Decode("flac: invalid stream info"));
        }
        proof {
            lemma_meta_walk_bps(data@, 4, None);
        }
        Ok(FlacDecoder { data, info, first_frame, cursor: first_frame as u64, emitted: 0 })
    }

    pub fn sample_rate(&self) -> (r: u32)
        ensures
            r == self.spec_info().sample_rate,
    {
        self.info.sample_rate
    }

    pub fn channels(&self) -> (r: usize)
        ensures
            r == self.spec_info().channels,
    {
        self.info.channels
    }

    /// The sample count the STREAMINFO block gives.
    pub fn duration_frames(&self) -> (r: u64)
        ensures
            r == self.spec_info().total_samples,
    {
        self.info.total_samples
    }

    /// Samples per channel decoded so far.
    pub fn pos_frames(&self) -> (r: u64)
        ensures
            r == self.spec_emitted(),
    {
        self.emitted
    }

    /// Decodes the frame at the cursor and moves past it; `None`, with
    /// nothing moved, where no frame decodes there.
    pub fn decode_frame(&mut self) -> (r: Option<FlacFrame>)
        ensures
            final(self).spec_data() == old(self).spec_data(),
            final(self).spec_info() == old(self).spec_info(),
            final(self).spec_first_frame() == old(self).spec_first_frame(),
            match frame(old(self).spec_data(), old(self).spec_cursor() as int, old(self).spec_info().bps as nat) {
                None => r is None && final(self).spec_cursor() == old(self).spec_cursor()
                    && final(self).spec_emitted() == old(self).spec_emitted(),
                Some((s, nch, fbps, bs, c2)) => r matches Some(f) && f.samples@ == s && f.channels == nch
                    && f.bps == fbps && final(self).spec_cursor() == c2
                    && final(self).spec_emitted() == count_after(old(self).spec_emitted(), bs),
            },
    {
        proof {
            use_type_invariant(&*self);
        }
        match decode_frame_at(self.data.as_slice(), self.cursor, self.info.bps) {
            None => None,
            Some((f, next)) => {
                proof {
                    let (s, nch, fbps, bsz, c2) = frame(self.data@, self.cursor as int, self.info.bps as nat).unwrap();
                    lemma_frame_chans(self.data@, self.cursor as int, self.info.bps as nat);
                    assert((bsz * nch) / nch == bsz) by (nonlinear_arith)
                        requires nch >= 1;
                }
                let bs = (f.samples.len() / f.channels) as u64;
                self.cursor = next;
                self.emitted = self.emitted.saturating_add(bs);
                Some(f)
            },
        }
    }

    /// Rewinds to the first frame and decodes forward until within one
    /// sample of `frame` per channel, or until a frame fails.
    pub fn seek(&mut self, frame: u64)
        ensures
            final(self).spec_data() == old(self).spec_data(),
            final(self).spec_info() == old(self).spec_info(),
            final(self).spec_first_frame() == old(self).spec_first_frame(),
            (final(self).spec_cursor() as int, final(self).spec_emitted()) == seek_walk(
                old(self).spec_data(),
                old(self).spec_info().bps as nat,
                old(self).spec_first_frame() as int,
                0,
                frame,
            ),
    {
        proof {
            use_type_invariant(&*self);
        }
        self.cursor = self.first_frame as u64;
        self.emitted = 0;
        let ghost d = self.data@;
        let ghost bps = self.info.bps as nat;
        let ghost first = self.first_frame as int;
        loop
            invariant
                self.spec_data() == d,
                self.spec_info().bps == bps,
                self.spec_info() == old(self).spec_info(),
                self.spec_first_frame() == old(self).spec_first_frame(),
                d == old(self).spec_data(),
                first == old(self).spec_first_frame(),
                seek_walk(d, bps, first, 0, frame) == seek_walk(d, bps, self.spec_cursor() as int, self.spec_emitted(), frame),
            decreases (if frame >= self.spec_emitted() { frame - self.spec_emitted() } else { 0 }),
        {
            if !(self.emitted < frame && frame - self.emitted > 1) {
                return;
            }
            let before = self.emitted;
            match self.decode_frame() {
                None => {
                    return;
                },
                Some(_) => {},
            }
            if self.emitted == before {
                return;
            }
        }
    }
}

/// A decoded frame holds at least one channel.
proof fn lemma_frame_chans(d: Seq<u8>, cursor: int, bps: nat)
    ensures
        frame(d, cursor, bps) matches Some((s, nch, fbps, bs, c2)) ==> nch >= 1,
{
}

/// The bits per sample a STREAMINFO block gives lie in 1 to 32, and the
/// walk ends within the data.
proof fn lemma_meta_walk_bps(d: Seq<u8>, pos: int, info: Option<StreamInfo>)
    requires
        info matches Some(i) ==> 1 <= i.bps <= 32,
    ensures
        meta_walk(d, pos, info) matches Ok((Some(i), p)) ==> 1 <= i.bps <= 32 && 0 <= p <= d.len(),
    decreases d.len() - pos,
{
    if !(pos < 0 || pos + 4 > d.len()) {
        let len = be_s(d, pos + 1, 3);
        let body = pos + 4;
        if body + len <= d.len() && !(d[pos] % 128 == 0 && len < 34) && d[pos] < 128 {
            let info2 = if d[pos] % 128 == 0 { Some(info_of(be_s(d, body + 10, 8))) } else { info };
            lemma_meta_walk_bps(d, body + len, info2);
        }
    }
}

/// The STREAMINFO fields are the packed word's bit fields, highest first:
/// the word is rebuilt exactly from 20 bits of rate, 3 of channels less
/// one, 5 of bits per sample less one and 36 of total samples.
pub proof fn lemma_info_fields(packed: nat)
    requires
        packed < 0x1_0000_0000_0000_0000,
    ensures
        ({
            let i = info_of(packed);
            &&& i.sample_rate < 0x10_0000
            &&& 1 <= i.channels <= 8
            &&& 1 <= i.bps <= 32
            &&& i.total_samples < 0x10_0000_0000
            &&& packed == i.sample_rate * 0x1000_0000_0000 + (i.channels - 1) * 0x200_0000_0000 + (i.bps - 1)
                * 0x10_0000_0000 + i.total_samples
        }),
{
    let p = packed as int;
    let t = p % 0x10_0000_0000;
    let u = p / 0x10_0000_0000;
    vstd::arithmetic::div_mod::lemma_fundamental_div_mod(p, 0x10_0000_0000);
    vstd::arithmetic::div_mod::lemma_mod_bound(p, 0x10_0000_0000);
    let b = u % 32;
    let v = u / 32;
    vstd::arithmetic::div_mod::lemma_fundamental_div_mod(u, 32);
    let c = v % 8;
    let w = v / 8;
    vstd::arithmetic::div_mod::lemma_fundamental_div_mod(v, 8);
    vstd::arithmetic::div_mod::lemma_div_denominator(p, 0x10_0000_0000, 32);
    vstd::arithmetic::div_mod::lemma_div_denominator(p, 0x200_0000_0000, 8);
    assert(0x10_0000_0000int * 32 == 0x200_0000_0000);
    assert(0x200_0000_0000int * 8 == 0x1000_0000_0000);
    assert(p / 0x200_0000_0000 == v);
    assert(p / 0x1000_0000_0000 == w);
    assert(w < 0x10_0000) by {
        vstd::arithmetic::div_mod::lemma_div_is_ordered(p, 0x1_0000_0000_0000_0000 - 1, 0x1000_0000_0000);
        assert((0x1_0000_0000_0000_0000int - 1) / 0x1000_0000_0000 == 0xF_FFFF);
    }
    vstd::arithmetic::div_mod::lemma_small_mod(w as nat, 0x10_0000);
    assert(p == w * 0x1000_0000_0000 + c * 0x200_0000_0000 + b * 0x10_0000_0000 + t) by (nonlinear_arith)
        requires p == 0x10_0000_0000 * u + t, u == 32 * v + b, v == 8 * w + c;
}

} // verus!
