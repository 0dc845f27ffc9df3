pub mod header;
pub mod huffman;
pub mod bits;
pub mod requant;
pub mod sideinfo;
pub mod granule;
pub mod frame;

use vstd::prelude::*;
use crate::error::Error;
use crate::flac::{be, be_s};
use crate::mp3::header::{
    HDR_SIZE, channel_mode, find_frame, find_from, frame_samples, get_layer, is_mono, layer_bits,
    mpeg1_bit, sample_rate_hz, skip_id3v2, spec_find_frame, spec_frame_samples,
    spec_sample_rate_hz, spec_skip_id3v2, spec_valid, test_mpeg1,
};

verus! {

/// Bytes of side information after the header of the first frame.
pub open spec fn side_info_bytes(h: Seq<u8>) -> int {
    if mpeg1_bit(h) {
        if channel_mode(h) == 3 { 17 } else { 32 }
    } else if channel_mode(h) == 3 {
        9
    } else {
        17
    }
}

/// Whether the four bytes at `off` spell `Xing` or `Info`.
pub open spec fn xing_tag(d: Seq<u8>, off: int) -> bool {
    let t = d.subrange(off, off + 4);
    t == seq![0x58u8, 0x69, 0x6e, 0x67] || t == seq![0x49u8, 0x6e, 0x66, 0x6f]
}

/// The frame count of a Xing/Info header in the first frame at `fstart`,
/// where one is there and flags it.
pub open spec fn spec_xing(d: Seq<u8>, fstart: int, h: Seq<u8>) -> Option<u64> {
    let off = fstart + 4 + side_info_bytes(h);
    if off + 12 > d.len() {
        None
    } else if !xing_tag(d, off) {
        None
    } else if be_s(d, off + 4, 4) % 2 == 0 {
        None
    } else {
        Some(be_s(d, off + 8, 4) as u64)
    }
}

/// Reads the frame count of the Xing/Info header of the frame at `fstart`
/// whose header is `h`.
pub fn parse_xing(data: &[u8], fstart: usize, h: &[u8]) -> (r: Option<u64>)
    requires
        h@.len() >= 4,
        fstart + 64 <= usize::MAX,
    ensures
        r == spec_xing(data@, fstart as int, h@),
{
    let si: usize = if test_mpeg1(h) {
        if is_mono(h) { 17 } else { 32 }
    } else if is_mono(h) {
        9
    } else {
        17
    };
    let off = fstart + 4 + si;
    if off + 12 > data.len() {
        return None;
    }
    let is_xing = data[off] == 0x58 && data[off + 1] == 0x69 && data[off + 2] == 0x6e && data[off + 3] == 0x67;
    let is_info = data[off] == 0x49 && data[off + 1] == 0x6e && data[off + 2] == 0x66 && data[off + 3] == 0x6f;
    proof {
        let t = data@.subrange(off as int, off + 4);
        assert(is_xing == (t =~= seq![0x58u8, 0x69, 0x6e, 0x67]));
        assert(is_info == (t =~= seq![0x49u8, 0x6e, 0x66, 0x6f]));
    }
    if !is_xing && !is_info {
        return None;
    }
    let flags = be(data, off + 4, 4);
    proof {
        assert(flags & 1 == flags % 2) by (bit_vector);
    }
    if flags & 1 == 0 {
        return None;
    }
    Some(be(data, off + 8, 4))
}

/// A frame that the search returns has a valid header within the data,
/// and the frame fits.
proof fn lemma_find_from(s: Seq<u8>, free: int, i: int)
    requires
        0 <= i,
    ensures
        ({
            let r = find_from(s, free, i);
            r.1 != 0 ==> i <= r.0 && r.0 + HDR_SIZE < s.len() && spec_valid(s.skip(r.0)) && r.0 + r.1 <= s.len()
        }),
    decreases s.len() - i,
{
    if !(i >= s.len() - HDR_SIZE || i < 0) {
        if !spec_valid(s.skip(i)) {
            lemma_find_from(s, free, i + 1);
        } else {
            lemma_find_from(s, 0, i + 1);
        }
    }
}

/// What the first frame of a stream says of it: the rate, channels and
/// samples per frame, the length in samples per channel (from a Xing/Info
/// frame count, else from the frame size), where audio frames start, and
/// the bytes of one frame.
pub struct Mp3Info {
    pub rate: u32,
    pub channels: usize,
    pub spf: usize,
    pub duration: u64,
    pub start_pos: usize,
    pub cbr_frame_bytes: usize,
}

/// The stream description of `d`, or why there is none.
pub open spec fn spec_mp3_info(d: Seq<u8>) -> Result<(u32, usize, usize, u64, usize, usize), Error> {
    let id3 = if spec_skip_id3v2(d) <= d.len() { spec_skip_id3v2(d) } else { d.len() as int };
    let (off, fbytes, _free) = spec_find_frame(d.skip(id3), 0);
    if fbytes == 0 {
        Err(Error::Unsupported("no mp3 frame found"))
    } else {
        let fstart = id3 + off;
        let h = d.subrange(fstart, fstart + 4);
        if layer_bits(h) != 1 {
            Err(Error::Unsupported("only MPEG Layer III"))
        } else {
            let spf = spec_frame_samples(h);
            let (dur, start) = match spec_xing(d, fstart, h) {
                Some(nf) => (nf * spf, fstart + fbytes),
                None => (((d.len() - fstart) / fbytes) * spf, fstart),
            };
            Ok((
                spec_sample_rate_hz(h) as u32,
                if channel_mode(h) == 3 { 1usize } else { 2 },
                spf as usize,
                (if dur == 0 { spf } else { dur }) as u64,
                start as usize,
                fbytes as usize,
            ))
        }
    }
}

impl Mp3Info {
    /// Finds the first frame past any ID3v2 tag and describes the stream.
    pub fn from_bytes(data: &[u8]) -> (r: Result<Mp3Info, Error>)
        requires
            data@.len() + 0x10000 <= usize::MAX,
            1152 * data@.len() <= u64::MAX,
        ensures
            match (r, spec_mp3_info(data@)) {
                (Ok(m), Ok(t)) => (m.rate, m.channels, m.spf, m.duration, m.start_pos, m.cbr_frame_bytes) == t,
                (Err(e), Err(f)) => e == f,
                _ => false,
            },
    {
        let skip = skip_id3v2(data);
        let id3 = if skip <= data.len() { skip } else { data.len() };
        let mut ff: usize = 0;
        let rest = &data[id3..data.len()];
        let (off, fbytes) = find_frame(rest, &mut ff);
        proof {
            assert(rest@ =~= data@.skip(id3 as int));
            if rest@.len() >= HDR_SIZE {
                lemma_find_from(rest@, 0, 0);
            }
        }
        if fbytes == 0 {
            return Err(Error::Unsupported("no mp3 frame found"));
        }
        let fstart = id3 + off;
        let h = &data[fstart..fstart + 4];
        proof {
            assert(rest@.skip(off as int).subrange(0, 4) =~= h@);
        }
        if get_layer(h) != 1 {
            return Err(Error::Unsupported("only MPEG Layer III"));
        }
        let rate = sample_rate_hz(h);
        let channels: usize = if is_mono(h) { 1 } else { 2 };
        let spf = frame_samples(h);
        let mut start_pos = fstart;
        let mut duration: u64;
        match parse_xing(data, fstart, h) {
            Some(nframes) => {
                proof {
                    assert(nframes < 0x1_0000_0000) by {
                        crate::flac::lemma_be_bound(data@, fstart + 4 + side_info_bytes(h@) + 8, 4);
                        vstd::arithmetic::power2::lemma2_to64();
                    }
                }
                duration = nframes * spf as u64;
                start_pos = fstart + fbytes;
            },
            None => {
                let audio_bytes = data.len() - fstart;
                let nframes = (audio_bytes / fbytes) as u64;
                proof {
                    assert(nframes <= audio_bytes);
                    assert(spf <= 1152);
                    assert(nframes * spf <= 1152 * data@.len()) by (nonlinear_arith)
                        requires nframes <= data@.len(), spf <= 1152;
                }
                duration = nframes * spf as u64;
            },
        }
        if duration == 0 {
            duration = spf as u64;
        }
        Ok(Mp3Info { rate, channels, spf, duration, start_pos, cbr_frame_bytes: fbytes })
    }
}

impl Mp3Info {
    /// Where decoding resumes to reach sample `frame` of each channel in a
    /// stream of `len` bytes: the byte position of the frame holding it,
    /// assuming frames of equal size, and the sample that frame starts at.
    pub fn seek_point(&self, frame: u64, len: usize) -> (r: (usize, u64))
        requires
            self.spf >= 1,
            frame / self.spf as u64 <= usize::MAX,
            self.start_pos + (frame / self.spf as u64) * self.cbr_frame_bytes <= usize::MAX,
        ensures
            ({
                let nframe = frame / self.spf as u64;
                let p = self.start_pos + nframe * self.cbr_frame_bytes;
                &&& r.0 == if p <= len { p } else { len as int }
                &&& r.1 == nframe * self.spf
            }),
    {
        let nframe = frame / self.spf as u64;
        proof {
            assert(nframe * self.spf <= frame) by (nonlinear_arith)
                requires nframe == frame / self.spf as u64, self.spf >= 1;
        }
        proof {
            assert(0 <= nframe * self.cbr_frame_bytes) by (nonlinear_arith)
                requires nframe >= 0, self.cbr_frame_bytes >= 0;
        }
        let p = self.start_pos + nframe as usize * self.cbr_frame_bytes;
        (if p <= len { p } else { len }, nframe * self.spf as u64)
    }
}

/// Most bytes of main data kept for the frames that follow.
pub const MAX_BITRESERVOIR_BYTES: usize = 511;

/// The main data of a frame: the last `min(reserv, main_data_begin)` bytes
/// held back from earlier frames, then this frame's main data (the
/// `main_bytes` after its side information), then 64 zero bytes of slack.
pub open spec fn spec_main_data(
    reserv_buf: Seq<u8>,
    reserv: int,
    payload: Seq<u8>,
    sideinfo_bytes: int,
    main_bytes: int,
    mdb: int,
) -> Seq<u8> {
    let have = if reserv <= mdb { reserv } else { mdb };
    reserv_buf.subrange(reserv - have, reserv) + payload.subrange(sideinfo_bytes, sideinfo_bytes + main_bytes)
        + Seq::new(64, |i: int| 0u8)
}

/// Builds a frame's main data from the reservoir and the frame's payload;
/// the flag says whether the reservoir held all `main_data_begin` bytes
/// that the frame reaches back for.
pub fn assemble_main_data(
    reserv_buf: &[u8],
    reserv: usize,
    payload: &[u8],
    sideinfo_bytes: usize,
    main_bytes: usize,
    main_data_begin: usize,
) -> (r: (Vec<u8>, bool))
    requires
        reserv <= reserv_buf@.len(),
        sideinfo_bytes + main_bytes <= payload@.len(),
        reserv + main_bytes + 64 <= usize::MAX,
    ensures
        r.0@ == spec_main_data(reserv_buf@, reserv as int, payload@, sideinfo_bytes as int, main_bytes as int,
            main_data_begin as int),
        r.1 == (reserv >= main_data_begin),
{
    let have = if reserv < main_data_begin { reserv } else { main_data_begin };
    let src = reserv - have;
    let mut out: Vec<u8> = Vec::new();
    let mut i: usize = 0;
    while i < have
        invariant
            i <= have,
            src + have == reserv <= reserv_buf@.len(),
            out@ =~= reserv_buf@.subrange(src as int, src + i),
        decreases have - i,
    {
        out.push(reserv_buf[src + i]);
        i = i + 1;
    }
    let ghost head = out@;
    let plen = payload.len();
    let mut j: usize = 0;
    while j < main_bytes
        invariant
            j <= main_bytes,
            sideinfo_bytes + main_bytes <= plen,
            plen == payload@.len(),
            out@ =~= head + payload@.subrange(sideinfo_bytes as int, sideinfo_bytes + j),
        decreases main_bytes - j,
    {
        out.push(payload[sideinfo_bytes + j]);
        j = j + 1;
    }
    let ghost mid = out@;
    let mut k: usize = 0;
    while k < 64
        invariant
            k <= 64,
            out@ =~= mid + Seq::new(k as nat, |i: int| 0u8),
        decreases 64 - k,
    {
        out.push(0);
        k = k + 1;
    }
    (out, reserv >= main_data_begin)
}

/// The bytes kept after a frame whose main data was `total_main` bytes and
/// was read up to bit `bit_pos`: the unread tail, but at most its last
/// `MAX_BITRESERVOIR_BYTES` bytes.
pub open spec fn spec_reservoir(maindata: Seq<u8>, total_main: int, bit_pos: int) -> Seq<u8> {
    let pos = (bit_pos + 7) / 8;
    let remains = total_main - if pos <= total_main { pos } else { total_main };
    let keep = if remains > MAX_BITRESERVOIR_BYTES { MAX_BITRESERVOIR_BYTES as int } else { remains };
    maindata.subrange(total_main - keep, total_main)
}

/// The reservoir to carry to the next frame.
pub fn keep_reservoir(maindata: &[u8], total_main: usize, bit_pos: usize) -> (r: Vec<u8>)
    requires
        total_main <= maindata@.len(),
        bit_pos + 7 <= usize::MAX,
    ensures
        r@ == spec_reservoir(maindata@, total_main as int, bit_pos as int),
        r@.len() <= MAX_BITRESERVOIR_BYTES,
{
    let pos = (bit_pos + 7) / 8;
    let mut remains = total_main - if pos < total_main { pos } else { total_main };
    let mut srcpos = pos;
    if remains > MAX_BITRESERVOIR_BYTES {
        srcpos = srcpos + (remains - MAX_BITRESERVOIR_BYTES);
        remains = MAX_BITRESERVOIR_BYTES;
    }
    let mut out: Vec<u8> = Vec::new();
    if remains == 0 {
        proof {
            assert(out@ =~= maindata@.subrange(total_main as int, total_main as int));
        }
        return out;
    }
    let mut i: usize = 0;
    while i < remains
        invariant
            i <= remains,
            srcpos + remains == total_main <= maindata@.len(),
            out@ =~= maindata@.subrange(srcpos as int, srcpos + i),
        decreases remains - i,
    {
        out.push(maindata[srcpos + i]);
        i = i + 1;
    }
    out
}

/// What the reservoir keeps after a frame: only bytes of the main data of
/// which no bit was read, the last ones of them, and all of them up to
/// `MAX_BITRESERVOIR_BYTES`: a byte just before the kept ones was read
/// from, or is beyond the bound.
pub proof fn lemma_reservoir_keeps_unread(maindata: Seq<u8>, total_main: int, bit_pos: int)
    requires
        0 <= total_main <= maindata.len(),
        0 <= bit_pos,
    ensures
        ({
            let r = spec_reservoir(maindata, total_main, bit_pos);
            let start = total_main - r.len();
            &&& r.len() <= MAX_BITRESERVOIR_BYTES
            &&& 0 <= start <= total_main
            &&& r == maindata.subrange(start, total_main)
            &&& r.len() > 0 ==> 8 * start >= bit_pos
            &&& (start > 0 && r.len() < MAX_BITRESERVOIR_BYTES) ==> 8 * (start - 1) < bit_pos
        }),
{
}

/// A frame's main data: the last `min(reserv, main_data_begin)` bytes held
/// back in the reservoir, then the frame's own `main_bytes` after its side
/// information, then 64 zero bytes.
pub proof fn lemma_main_data_layout(
    reserv_buf: Seq<u8>,
    reserv: int,
    payload: Seq<u8>,
    sideinfo_bytes: int,
    main_bytes: int,
    mdb: int,
)
    requires
        0 <= reserv <= reserv_buf.len(),
        0 <= mdb,
        0 <= sideinfo_bytes,
        0 <= main_bytes,
        sideinfo_bytes + main_bytes <= payload.len(),
    ensures
        ({
            let have = if reserv <= mdb { reserv } else { mdb };
            let m = spec_main_data(reserv_buf, reserv, payload, sideinfo_bytes, main_bytes, mdb);
            &&& m.len() == have + main_bytes + 64
            &&& forall|j: int| 0 <= j < have ==> #[trigger] m[j] == reserv_buf[reserv - have + j]
            &&& forall|j: int| have <= j < have + main_bytes ==> #[trigger] m[j] == payload[sideinfo_bytes + j - have]
            &&& forall|j: int| have + main_bytes <= j < have + main_bytes + 64 ==> #[trigger] m[j] == 0
        }),
{
}

} // verus!
