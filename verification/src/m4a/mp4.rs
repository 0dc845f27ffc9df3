//! The MP4 container: the box tree down to the sample table, the codec
//! configuration, and the byte range of every audio sample.
use vstd::prelude::*;
use crate::error::Error;
use crate::flac::bits::{BitReader, POS_CAP, rd, lemma_rd};

verus! {

/// The ALAC decoder configuration.
#[derive(Clone, Copy, Debug, PartialEq, Eq, Structural)]
pub struct AlacConfig {
    pub frame_length: u32,
    pub bit_depth: u8,
    pub pb: u8,
    pub mb: u8,
    pub kb: u8,
    pub num_channels: u8,
    pub sample_rate: u32,
}

/// The AAC audio specific configuration.
#[derive(Clone, Copy, Debug, PartialEq, Eq, Structural)]
pub struct AacConfig {
    pub audio_object_type: u32,
    pub sample_rate: u32,
    pub channels: usize,
    pub frame_length: usize,
}

/// The codec of the audio track.
#[derive(Clone, Copy, Debug, PartialEq, Eq, Structural)]
pub enum Codec {
    Alac(AlacConfig),
    Aac(AacConfig),
}

/// A demuxed audio track: its codec, rate, channels and samples as
/// (offset, length) byte ranges.
pub struct Mp4 {
    pub codec: Codec,
    pub sample_rate: u32,
    pub channels: usize,
    pub samples: Vec<(usize, usize)>,
}

/// Byte `i`, or 0 outside the data.
pub open spec fn byte0(d: Seq<u8>, i: int) -> nat {
    if 0 <= i < d.len() {
        d[i] as nat
    } else {
        0
    }
}

/// The big-endian value of `n` bytes at `o`, bytes past the end reading 0.
pub open spec fn bez(d: Seq<u8>, o: int, n: nat) -> nat
    decreases n,
{
    if n == 0 {
        0
    } else {
        bez(d, o, (n - 1) as nat) * 256 + byte0(d, o + n - 1)
    }
}

pub proof fn lemma_bez_bound(d: Seq<u8>, o: int, n: nat)
    requires
        n <= 8,
    ensures
        bez(d, o, n) < vstd::arithmetic::power2::pow2(8 * n),
    decreases n,
{
    vstd::arithmetic::power2::lemma2_to64();
    vstd::arithmetic::power2::lemma2_to64_rest();
    if n > 0 {
        lemma_bez_bound(d, o, (n - 1) as nat);
        vstd::arithmetic::power2::lemma_pow2_adds(8 * (n - 1) as nat, 8);
        let p = vstd::arithmetic::power2::pow2(8 * (n - 1) as nat);
        assert(bez(d, o, (n - 1) as nat) * 256 + 255 < p * 256) by (nonlinear_arith)
            requires bez(d, o, (n - 1) as nat) < p;
        assert(8 * (n - 1) as nat + 8 == 8 * n);
    }
}

/// Big-endian value of `n` bytes at `o`; bytes past the end read as 0.
pub fn be(d: &[u8], o: usize, n: usize) -> (r: u64)
    requires
        n <= 8,
    ensures
        r == bez(d@, o as int, n as nat),
{
    let len = d.len();
    let mut v: u64 = 0;
    let mut i: usize = 0;
    while i < n
        invariant
            i <= n <= 8,
            len == d@.len(),
            v == bez(d@, o as int, i as nat),
        decreases n - i,
    {
        proof {
            lemma_bez_bound(d@, o as int, (i + 1) as nat);
            vstd::arithmetic::power2::lemma2_to64_rest();
            if i + 1 < 8 {
                vstd::arithmetic::power2::lemma_pow2_strictly_increases(8 * (i + 1) as nat, 64);
            }
        }
        let b: u8 = if i < len && o < len - i {
            d[o + i]
        } else {
            0
        };
        v = v * 256 + b as u64;
        i = i + 1;
    }
    v
}

/// A descriptor length: up to four bytes of seven bits, each but the last
/// with its top bit set. The length and the offset after it.
pub open spec fn desc_len(d: Seq<u8>, pos: int, k: nat, acc: nat) -> (nat, int)
    decreases 4 - k,
{
    if k >= 4 {
        (acc, pos)
    } else {
        let b = byte0(d, pos);
        let acc2 = acc * 128 + b % 128;
        if b < 128 {
            (acc2, pos + 1)
        } else {
            desc_len(d, pos + 1, k + 1, acc2)
        }
    }
}

proof fn lemma_desc_len(d: Seq<u8>, pos: int, k: nat, acc: nat)
    requires
        k <= 4,
        acc < vstd::arithmetic::power2::pow2(7 * k),
    ensures
        desc_len(d, pos, k, acc).0 < 0x1000_0000,
        pos <= desc_len(d, pos, k, acc).1 <= pos + 4 - k,
    decreases 4 - k,
{
    vstd::arithmetic::power2::lemma2_to64();
    if k < 4 {
        let b = byte0(d, pos);
        vstd::arithmetic::power2::lemma_pow2_adds(7 * k, 7);
        assert(acc * 128 + b % 128 < vstd::arithmetic::power2::pow2(7 * k) * 128) by (nonlinear_arith)
            requires acc < vstd::arithmetic::power2::pow2(7 * k), b % 128 < 128;
        assert(7 * k + 7 == 7 * (k + 1));
        if k + 1 < 4 {
            vstd::arithmetic::power2::lemma_pow2_strictly_increases(7 * (k + 1), 28);
        }
        lemma_desc_len(d, pos + 1, k + 1, acc * 128 + b % 128);
    }
}

/// Reads a descriptor length at `pos`: the length and the offset after it.
fn read_desc_len(d: &[u8], pos: usize) -> (r: (usize, usize))
    requires
        pos + 4 <= usize::MAX,
    ensures
        (r.0 as nat, r.1 as int) == desc_len(d@, pos as int, 0, 0),
        pos <= r.1 <= pos + 4,
        r.0 < 0x1000_0000,
{
    let mut len: usize = 0;
    let mut p = pos;
    let mut k: usize = 0;
    proof {
        vstd::arithmetic::power2::lemma2_to64();
        lemma_desc_len(d@, pos as int, 0, 0);
    }
    while k < 4
        invariant
            k <= 4,
            p == pos + k,
            pos + 4 <= usize::MAX,
            len < vstd::arithmetic::power2::pow2(7 * k as nat),
            desc_len(d@, pos as int, 0, 0) == desc_len(d@, p as int, k as nat, len as nat),
        decreases 4 - k,
    {
        proof {
            lemma_desc_len(d@, p as int, k as nat, len as nat);
            vstd::arithmetic::power2::lemma2_to64();
            vstd::arithmetic::power2::lemma_pow2_adds(7 * k as nat, 7);
            assert(len * 128 + 127 < vstd::arithmetic::power2::pow2(7 * k as nat) * 128) by (nonlinear_arith)
                requires len < vstd::arithmetic::power2::pow2(7 * k as nat);
            assert(7 * k as nat + 7 == 7 * (k + 1) as nat);
            vstd::arithmetic::power2::lemma_pow2_strictly_increases(7 * (k + 1) as nat, 29);
        }
        let b: u8 = if p < d.len() { d[p] } else { 0 };
        len = len * 128 + (b % 128) as usize;
        p = p + 1;
        k = k + 1;
        if b < 128 {
            return (len, p);
        }
    }
    (len, p)
}

/// The header of the box at `p`: its body offset and the offset after it;
/// a size of 1 takes a 64-bit size, 0 runs to `end`.
pub open spec fn box_span(d: Seq<u8>, p: int, end: int) -> Option<(int, int)> {
    let size = bez(d, p, 4);
    if size == 1 {
        if p + 16 > end {
            None
        } else {
            Some((p + 16, p + bez(d, p + 8, 8)))
        }
    } else if size == 0 {
        Some((p + 8, end))
    } else {
        Some((p + 8, p + size))
    }
}

/// The boxes from `p` to `end` as (type, body, next), stopping at the first
/// that does not fit.
pub open spec fn box_walk(d: Seq<u8>, p: int, end: int) -> Seq<(u32, usize, usize)>
    decreases end - p,
{
    if p + 8 > end {
        Seq::empty()
    } else {
        match box_span(d, p, end) {
            None => Seq::empty(),
            Some((body, next)) => if next <= p || next > end {
                Seq::empty()
            } else {
                seq![(bez(d, p + 4, 4) as u32, body as usize, next as usize)] + box_walk(d, next, end)
            },
        }
    }
}

/// The boxes between `start` and `end`.
fn boxes(data: &[u8], start: usize, end: usize) -> (r: Vec<(u32, usize, usize)>)
    requires
        end <= data@.len(),
    ensures
        r@ == box_walk(data@, start as int, end as int),
{
    let ghost d = data@;
    let mut out: Vec<(u32, usize, usize)> = Vec::new();
    let mut p = start;
    loop
        invariant
            d == data@,
            end <= d.len(),
            box_walk(d, start as int, end as int) == out@ + box_walk(d, p as int, end as int),
        ensures
            box_walk(d, start as int, end as int) == out@,
        decreases end - p,
    {
        if end < 8 || p > end - 8 {
            proof {
                assert(box_walk(d, p as int, end as int) =~= Seq::empty());
                assert(out@ =~= out@ + Seq::<(u32, usize, usize)>::empty());
            }
            break;
        }
        let size = be(data, p, 4);
        let typ = be(data, p + 4, 4);
        proof {
            lemma_bez_bound(d, p as int, 4);
            lemma_bez_bound(d, p + 4, 4);
            vstd::arithmetic::power2::lemma2_to64();
        }
        let (body, next): (usize, u128) = if size == 1 {
            if end < 16 || p > end - 16 {
                proof {
                    assert(box_walk(d, p as int, end as int) =~= Seq::empty());
                    assert(out@ =~= out@ + Seq::<(u32, usize, usize)>::empty());
                }
                break;
            }
            (p + 16, p as u128 + be(data, p + 8, 8) as u128)
        } else if size == 0 {
            (p + 8, end as u128)
        } else {
            (p + 8, p as u128 + size as u128)
        };
        if next <= p as u128 || next > end as u128 {
            proof {
                assert(box_walk(d, p as int, end as int) =~= Seq::empty());
                assert(out@ =~= out@ + Seq::<(u32, usize, usize)>::empty());
            }
            break;
        }
        let ghost old_out = out@;
        out.push((typ as u32, body, next as usize));
        proof {
            assert(out@ + box_walk(d, next as int, end as int) =~= old_out + box_walk(d, p as int, end as int));
        }
        p = next as usize;
    }
    out
}

/// The first sample table box, searched through moov, trak, mdia and minf
/// boxes to a depth of 32.
pub open spec fn stbl_find(d: Seq<u8>, start: int, end: int, depth: nat) -> Option<(usize, usize)>
    decreases 33 - depth, 1int, 0int,
{
    if depth > 32 {
        None
    } else {
        stbl_scan(d, box_walk(d, start, end), 0, depth)
    }
}

pub open spec fn stbl_scan(d: Seq<u8>, bs: Seq<(u32, usize, usize)>, i: int, depth: nat) -> Option<(usize, usize)>
    decreases 33 - depth, 0int, bs.len() - i,
{
    if depth > 32 || i < 0 || i >= bs.len() {
        None
    } else {
        let (t, b, n) = bs[i];
        if t == 0x7374_626c {
            Some((b, n))
        } else if t == 0x6d6f_6f76 || t == 0x7472_616b || t == 0x6d64_6961 || t == 0x6d69_6e66 {
            match stbl_find(d, b as int, n as int, depth + 1) {
                Some(r) => Some(r),
                None => stbl_scan(d, bs, i + 1, depth),
            }
        } else {
            stbl_scan(d, bs, i + 1, depth)
        }
    }
}

/// Every box listed ends after `p` and within `end`.
pub open spec fn walk_within(w: Seq<(u32, usize, usize)>, p: int, end: int) -> bool {
    forall|i: int| 0 <= i < w.len() ==> p < #[trigger] w[i].2 <= end && w[i].1 <= end + 8
}

proof fn lemma_box_walk_bounds(d: Seq<u8>, p: int, end: int)
    requires
        0 <= p,
        end + 8 <= usize::MAX,
    ensures
        walk_within(box_walk(d, p, end), p, end),
    decreases end - p,
{
    if p + 8 <= end {
        if let Some((body, next)) = box_span(d, p, end) {
            if !(next <= p || next > end) {
                lemma_box_walk_bounds(d, next, end);
                let w = box_walk(d, p, end);
                let rest = box_walk(d, next, end);
                assert(w == seq![(bez(d, p + 4, 4) as u32, body as usize, next as usize)] + rest);
                assert forall|i: int| 0 <= i < w.len() implies p < #[trigger] w[i].2 <= end && w[i].1 <= end + 8 by {
                    if i > 0 {
                        assert(w[i] == rest[i - 1]);
                    }
                }
                assert(walk_within(w, p, end));
            }
        }
    }
}

/// Finds the sample table box.
fn find_stbl(data: &[u8], start: usize, end: usize, depth: u32) -> (r: Option<(usize, usize)>)
    requires
        end <= data@.len(),
        end + 8 <= usize::MAX,
    ensures
        r == stbl_find(data@, start as int, end as int, depth as nat),
        r matches Some((b, n)) ==> n <= end && b <= end + 8,
    decreases 33 - depth,
{
    if depth > 32 {
        return None;
    }
    let bs = boxes(data, start, end);
    proof {
        lemma_box_walk_bounds(data@, start as int, end as int);
    }
    let mut i: usize = 0;
    while i < bs.len()
        invariant
            depth <= 32,
            end <= data@.len(),
            end + 8 <= usize::MAX,
            bs@ == box_walk(data@, start as int, end as int),
            forall|j: int| 0 <= j < bs@.len() ==> #[trigger] bs@[j].2 <= end && bs@[j].1 <= end + 8,
            i <= bs@.len(),
            stbl_find(data@, start as int, end as int, depth as nat) == stbl_scan(data@, bs@, i as int, depth as nat),
        decreases bs@.len() - i,
    {
        let (t, b, n) = bs[i];
        if t == 0x7374_626c {
            return Some((b, n));
        } else if t == 0x6d6f_6f76 || t == 0x7472_616b || t == 0x6d64_6961 || t == 0x6d69_6e66 {
            let r = find_stbl(data, b, n, depth + 1);
            if r.is_some() {
                return r;
            }
        }
        i = i + 1;
    }
    None
}

/// The first child of type `want` between `start` and `end`.
pub open spec fn child_of(bs: Seq<(u32, usize, usize)>, want: u32, i: int) -> Option<(usize, usize)>
    decreases bs.len() - i,
{
    if i < 0 || i >= bs.len() {
        None
    } else if bs[i].0 == want {
        Some((bs[i].1, bs[i].2))
    } else {
        child_of(bs, want, i + 1)
    }
}

/// The first box of type `want` between `start` and `end`.
fn child(data: &[u8], start: usize, end: usize, want: u32) -> (r: Option<(usize, usize)>)
    requires
        end <= data@.len(),
        end + 8 <= usize::MAX,
    ensures
        r == child_of(box_walk(data@, start as int, end as int), want, 0),
        r matches Some((b, n)) ==> n <= end && b <= end + 8,
{
    let bs = boxes(data, start, end);
    proof {
        lemma_box_walk_bounds(data@, start as int, end as int);
    }
    let mut i: usize = 0;
    while i < bs.len()
        invariant
            bs@ == box_walk(data@, start as int, end as int),
            forall|j: int| 0 <= j < bs@.len() ==> #[trigger] bs@[j].2 <= end && bs@[j].1 <= end + 8,
            i <= bs@.len(),
            child_of(bs@, want, 0) == child_of(bs@, want, i as int),
        decreases bs@.len() - i,
    {
        let (t, b, n) = bs[i];
        if t == want {
            return Some((b, n));
        }
        i = i + 1;
    }
    None
}

/// The audio specific config, searched through ES and decoder config
/// descriptors to a depth of 32: its byte range.
pub open spec fn asc_find(d: Seq<u8>, start: int, end: int, depth: nat) -> Option<(usize, usize)>
    decreases 33 - depth, 1int, 0int,
{
    if depth > 32 {
        None
    } else {
        asc_scan(d, start, if end < d.len() { end } else { d.len() as int }, depth)
    }
}

pub open spec fn asc_scan(d: Seq<u8>, pos: int, end: int, depth: nat) -> Option<(usize, usize)>
    decreases 33 - depth, 0int, end - pos,
{
    if depth > 32 || pos < 0 || pos + 2 > end || end > d.len() {
        None
    } else {
        let tag = d[pos];
        let (len, body) = desc_len(d, pos + 1, 0, 0);
        let next = body + len;
        if next > end || next <= pos {
            None
        } else if tag == 5 {
            Some((body as usize, next as usize))
        } else if tag == 3 {
            if body + 3 > end {
                None
            } else {
                let flags = d[body + 2];
                let p1 = if flags & 0x80 != 0 { body + 5 } else { body + 3 };
                if flags & 0x40 != 0 && p1 >= end {
                    None
                } else {
                    let p2 = if flags & 0x40 != 0 { p1 + 1 + d[p1] } else { p1 };
                    let p3 = if flags & 0x20 != 0 { p2 + 2 } else { p2 };
                    if p3 <= end {
                        match asc_find(d, p3, next, depth + 1) {
                            Some(r) => Some(r),
                            None => asc_scan(d, next, end, depth),
                        }
                    } else {
                        asc_scan(d, next, end, depth)
                    }
                }
            }
        } else if tag == 4 {
            match asc_find(d, body + 13, next, depth + 1) {
                Some(r) => Some(r),
                None => asc_scan(d, next, end, depth),
            }
        } else {
            asc_scan(d, next, end, depth)
        }
    }
}

/// Finds the audio specific config inside an `esds` body.
fn find_asc(d: &[u8], start: usize, end: usize, depth: u32) -> (r: Option<(usize, usize)>)
    requires
        8 * d@.len() <= POS_CAP,
        d@.len() + 0x2000_0000 <= usize::MAX,
        start <= d@.len() + 32,
    ensures
        r == asc_find(d@, start as int, end as int, depth as nat),
        r matches Some((a, b)) ==> a <= b <= d@.len(),
    decreases 33 - depth,
{
    if depth > 32 {
        return None;
    }
    let lim = if end < d.len() { end } else { d.len() };
    let mut pos = start;
    loop
        invariant
            8 * d@.len() <= POS_CAP,
            d@.len() + 0x2000_0000 <= usize::MAX,
            lim <= d@.len(),
            lim == (if end < d@.len() { end as int } else { d@.len() as int }),
            depth <= 32,
            pos <= d@.len() + 32,
            asc_find(d@, start as int, end as int, depth as nat) == asc_scan(d@, pos as int, lim as int, depth as nat),
        decreases lim - pos,
    {
        if lim < 2 || pos > lim - 2 {
            return None;
        }
        let tag = d[pos];
        let (len, body) = read_desc_len(d, pos + 1);
        let next = body + len;
        if next > lim || next <= pos {
            return None;
        }
        if tag == 5 {
            return Some((body, next));
        } else if tag == 3 {
            if body + 3 > lim {
                return None;
            }
            let flags = d[body + 2];
            let mut p = body + 3;
            if flags & 0x80 != 0 {
                p = p + 2;
            }
            if flags & 0x40 != 0 {
                if p >= lim {
                    return None;
                }
                p = p + 1 + d[p] as usize;
            }
            if flags & 0x20 != 0 {
                p = p + 2;
            }
            if p <= lim {
                let r = find_asc(d, p, next, depth + 1);
                if r.is_some() {
                    return r;
                }
            }
        } else if tag == 4 {
            let r = find_asc(d, body + 13, next, depth + 1);
            if r.is_some() {
                return r;
            }
        }
        pos = next;
    }
}

/// The sampling frequency for a 4-bit index (0 where reserved).
pub open spec fn aac_rate(i: nat) -> u32 {
    if i == 0 { 96000 } else if i == 1 { 88200 } else if i == 2 { 64000 } else if i == 3 { 48000 }
    else if i == 4 { 44100 } else if i == 5 { 32000 } else if i == 6 { 24000 } else if i == 7 { 22050 }
    else if i == 8 { 16000 } else if i == 9 { 12000 } else if i == 10 { 11025 } else if i == 11 { 8000 }
    else if i == 12 { 7350 } else { 0 }
}

fn aac_rate_of(i: u64) -> (r: u32)
    ensures
        r == aac_rate(i as nat),
{
    if i == 0 { 96000 } else if i == 1 { 88200 } else if i == 2 { 64000 } else if i == 3 { 48000 }
    else if i == 4 { 44100 } else if i == 5 { 32000 } else if i == 6 { 24000 } else if i == 7 { 22050 }
    else if i == 8 { 16000 } else if i == 9 { 12000 } else if i == 10 { 11025 } else if i == 11 { 8000 }
    else if i == 12 { 7350 } else { 0 }
}

/// The audio specific config in bytes `start .. end`: object type (31
/// escapes to 32 plus six bits), frequency index (15 escapes to 24 bits),
/// channel configuration (0 defers to the sample entry) and frame length flag.
pub open spec fn asc_config(d: Seq<u8>, start: int, end: int, sd_channels: usize) -> AacConfig {
    let s = d.subrange(0, end);
    let (a0, p1) = rd(s, 8 * start, 5);
    let (aot, p2) = if a0 == 31 {
        let (x, q) = rd(s, p1, 6);
        (32 + x, q)
    } else {
        (a0, p1)
    };
    let (sri, p3) = rd(s, p2, 4);
    let (rate, p4) = if sri == 15 {
        let (x, q) = rd(s, p3, 24);
        (x as u32, q)
    } else {
        (aac_rate(sri), p3)
    };
    let (cc, p5) = rd(s, p4, 4);
    let fl = rd(s, p5, 1).0;
    AacConfig {
        audio_object_type: aot as u32,
        sample_rate: rate,
        channels: if cc > 0 { cc as usize } else { sd_channels },
        frame_length: if fl == 1 { 960 } else { 1024 },
    }
}

/// Reads the audio specific config in bytes `start .. end`; bits past
/// `end` read as 0.
fn parse_asc(d: &[u8], start: usize, end: usize, sd_channels: usize) -> (r: AacConfig)
    requires
        start <= end <= d@.len(),
        8 * d@.len() <= POS_CAP,
    ensures
        r == asc_config(d@, start as int, end as int, sd_channels),
{
    let sub = vstd::slice::slice_subrange(d, 0, end);
    let ghost s = sub@;
    let mut br = BitReader::new(sub, start as u64);
    proof {
        vstd::arithmetic::power2::lemma2_to64();
    }
    let a0 = br.read(5);
    let aot = if a0 == 31 {
        let x = br.read(6);
        32 + x
    } else {
        a0
    };
    let sri = br.read(4);
    let rate = if sri == 15 {
        br.read(24) as u32
    } else {
        aac_rate_of(sri)
    };
    let cc = br.read(4);
    let fl = br.read(1);
    AacConfig {
        audio_object_type: aot as u32,
        sample_rate: rate,
        channels: if cc > 0 { cc as usize } else { sd_channels },
        frame_length: if fl == 1 { 960 } else { 1024 },
    }
}

/// The ALAC magic cookie fields from offset `c`.
pub open spec fn alac_config(d: Seq<u8>, c: int) -> AlacConfig {
    AlacConfig {
        frame_length: bez(d, c, 4) as u32,
        bit_depth: d[c + 5],
        pb: d[c + 6],
        mb: d[c + 7],
        kb: d[c + 8],
        num_channels: d[c + 9],
        sample_rate: bez(d, c + 20, 4) as u32,
    }
}

/// The first sample description in the `stsd` body `start .. end`: the
/// codec, the entry's channel count and rate, or the message of the fault.
pub open spec fn stsd_spec(d: Seq<u8>, start: int, end: int) -> Result<(Codec, usize, u32), &'static str> {
    let entry = start + 8;
    if entry + 36 > end {
        Err("mp4: short stsd")
    } else {
        let size = bez(d, entry, 4);
        let format = bez(d, entry + 4, 4);
        let channels = bez(d, entry + 24, 2) as usize;
        let rate = bez(d, entry + 32, 2) as u32;
        let entry_end = if entry + size < end { entry + size } else { end };
        if format == 0x616c_6163 {
            match child_of(box_walk(d, entry + 36, entry_end), 0x616c_6163, 0) {
                None => Err("mp4: no alac cookie box"),
                Some((cb, ce)) => if cb + 4 + 24 > end {
                    Err("mp4: short alac cookie")
                } else {
                    Ok((Codec::Alac(alac_config(d, cb + 4)), channels, rate))
                },
            }
        } else if format == 0x6d70_3461 {
            match child_of(box_walk(d, entry + 36, entry_end), 0x6573_6473, 0) {
                None => Err("mp4: no esds"),
                Some((eb, ee)) => match asc_find(d, eb + 4, ee as int, 0) {
                    None => Err("mp4: no asc"),
                    Some((a, b)) => Ok((Codec::Aac(asc_config(d, a as int, b as int, channels)), channels, rate)),
                },
            }
        } else {
            Err("mp4: unsupported sample format")
        }
    }
}

/// Reads the sample description.
fn parse_stsd(data: &[u8], start: usize, end: usize) -> (r: Result<(Codec, usize, u32), Error>)
    requires
        end <= data@.len(),
        start <= data@.len() + 8,
        8 * data@.len() <= POS_CAP,
        data@.len() + 0x2000_0000 <= usize::MAX,
    ensures
        match stsd_spec(data@, start as int, end as int) {
            Err(m) => r matches Err(Error::Decode(e)) && e@ == m@,
            Ok(x) => r == Ok::<(Codec, usize, u32), Error>(x),
        },
{
    let entry = start + 8;
    if entry > end || end - entry < 36 {
        return Err(Error::Decode("mp4: short stsd"));
    }
    let size = be(data, entry, 4);
    let format = be(data, entry + 4, 4);
    let channels = be(data, entry + 24, 2);
    let sample_rate = be(data, entry + 32, 2);
    proof {
        lemma_bez_bound(data@, entry as int, 4);
        lemma_bez_bound(data@, entry + 24, 2);
        lemma_bez_bound(data@, entry + 32, 2);
        vstd::arithmetic::power2::lemma2_to64();
    }
    let channels = channels as usize;
    let sample_rate = sample_rate as u32;
    let entry_end = if (size as u128) + (entry as u128) < end as u128 { entry + size as usize } else { end };
    if format == 0x616c_6163 {
        let (cb, ce) = match child(data, entry + 36, entry_end, 0x616c_6163) {
            Some(x) => x,
            None => {
                return Err(Error::Decode("mp4: no alac cookie box"));
            },
        };
        proof {
            lemma_box_walk_bounds(data@, entry + 36, entry_end as int);
            lemma_child_in(box_walk(data@, entry + 36, entry_end as int), 0x616c_6163, 0);
        }
        let c = cb + 4;
        if c > end || end - c < 24 {
            return Err(Error::Decode("mp4: short alac cookie"));
        }
        let frame_length = be(data, c, 4);
        let sr = be(data, c + 20, 4);
        proof {
            lemma_bez_bound(data@, c as int, 4);
            lemma_bez_bound(data@, c + 20, 4);
        }
        let cfg = AlacConfig {
            frame_length: frame_length as u32,
            bit_depth: data[c + 5],
            pb: data[c + 6],
            mb: data[c + 7],
            kb: data[c + 8],
            num_channels: data[c + 9],
            sample_rate: sr as u32,
        };
        Ok((Codec::Alac(cfg), channels, sample_rate))
    } else if format == 0x6d70_3461 {
        let (eb, ee) = match child(data, entry + 36, entry_end, 0x6573_6473) {
            Some(x) => x,
            None => {
                return Err(Error::Decode("mp4: no esds"));
            },
        };
        proof {
            lemma_box_walk_bounds(data@, entry + 36, entry_end as int);
            lemma_child_in(box_walk(data@, entry + 36, entry_end as int), 0x6573_6473, 0);
        }
        let (a, b) = match find_asc(data, eb + 4, ee, 0) {
            Some(x) => x,
            None => {
                return Err(Error::Decode("mp4: no asc"));
            },
        };
        let cfg = parse_asc(data, a, b, channels);
        Ok((Codec::Aac(cfg), channels, sample_rate))
    } else {
        Err(Error::Decode("mp4: unsupported sample format"))
    }
}

/// A child found is one of the boxes listed.
proof fn lemma_child_in(bs: Seq<(u32, usize, usize)>, want: u32, i: int)
    ensures
        child_of(bs, want, i) matches Some((b, n)) ==> exists|j: int| 0 <= j < bs.len() && bs[j].1 == b && bs[j].2 == n,
    decreases bs.len() - i,
{
    if 0 <= i < bs.len() && bs[i].0 != want {
        lemma_child_in(bs, want, i + 1);
    }
}

/// At most this many samples of a constant size are listed.
pub const MAX_SAMPLES: usize = 0x1000_0000;

/// `a - b`, or 0 below it.
pub open spec fn sat_sub(a: int, b: int) -> int {
    if a > b {
        a - b
    } else {
        0
    }
}

pub open spec fn min2(a: int, b: int) -> int {
    if a < b {
        a
    } else {
        b
    }
}

/// The sample sizes of an `stsz` body: one constant size repeated, capped
/// at `MAX_SAMPLES` and at the file length, or a table capped at what the
/// box holds.
pub open spec fn stsz_spec(d: Seq<u8>, start: int, end: int) -> Seq<usize> {
    let ss = bez(d, start + 4, 4);
    let count = bez(d, start + 8, 4) as int;
    if ss != 0 {
        Seq::new(min2(min2(count, MAX_SAMPLES as int), d.len() as int) as nat, |i: int| ss as usize)
    } else {
        Seq::new(min2(count, sat_sub(end, start + 12) / 4) as nat, |i: int| bez(d, start + 12 + 4 * i, 4) as usize)
    }
}

fn parse_stsz(data: &[u8], start: usize, end: usize) -> (r: Vec<usize>)
    requires
        start <= data@.len() + 16,
        end <= data@.len(),
        data@.len() + 0x2000_0000 <= usize::MAX,
    ensures
        r@ == stsz_spec(data@, start as int, end as int),
{
    let ss = be(data, start + 4, 4);
    let count = be(data, start + 8, 4);
    proof {
        lemma_bez_bound(data@, start + 4, 4);
        lemma_bez_bound(data@, start + 8, 4);
        vstd::arithmetic::power2::lemma2_to64();
    }
    let count = count as usize;
    let mut out: Vec<usize> = Vec::new();
    if ss != 0 {
        let mut n = if count < MAX_SAMPLES { count } else { MAX_SAMPLES };
        if data.len() < n {
            n = data.len();
        }
        let mut i: usize = 0;
        while i < n
            invariant
                i <= n,
                out@ =~= Seq::new(i as nat, |k: int| ss as usize),
            decreases n - i,
        {
            out.push(ss as usize);
            i = i + 1;
        }
        proof {
            assert(out@ =~= stsz_spec(data@, start as int, end as int));
        }
        return out;
    }
    let avail = if end > start + 12 { (end - start - 12) / 4 } else { 0 };
    let n = if count < avail { count } else { avail };
    let mut i: usize = 0;
    while i < n
        invariant
            i <= n <= avail,
            avail == sat_sub(end as int, start + 12) / 4,
            end <= data@.len(),
            start <= data@.len() + 16,
            data@.len() + 0x2000_0000 <= usize::MAX,
            out@ =~= Seq::new(i as nat, |k: int| bez(data@, start + 12 + 4 * k, 4) as usize),
        decreases n - i,
    {
        let v = be(data, start + 12 + 4 * i, 4);
        proof {
            lemma_bez_bound(data@, start + 12 + 4 * i, 4);
            vstd::arithmetic::power2::lemma2_to64();
        }
        out.push(v as usize);
        i = i + 1;
    }
    out
}

/// The chunk offsets of an `stco` (4-byte) or `co64` (8-byte) body, capped at
/// what the box holds.
pub open spec fn offsets_spec(d: Seq<u8>, start: int, end: int, wide: bool) -> Seq<usize> {
    let w: int = if wide { 8 } else { 4 };
    let count = min2(bez(d, start + 4, 4) as int, sat_sub(end, start + 8) / w);
    Seq::new(count as nat, |i: int| bez(d, start + 8 + w * i, w as nat) as usize)
}

fn parse_offsets(data: &[u8], start: usize, end: usize, wide: bool) -> (r: Vec<usize>)
    requires
        start <= data@.len() + 16,
        end <= data@.len(),
        data@.len() + 0x2000_0000 <= usize::MAX,
    ensures
        r@ == offsets_spec(data@, start as int, end as int, wide),
{
    let count = be(data, start + 4, 4);
    proof {
        lemma_bez_bound(data@, start + 4, 4);
        vstd::arithmetic::power2::lemma2_to64();
    }
    let count = count as usize;
    let w: usize = if wide { 8 } else { 4 };
    let avail = if end > start + 8 { (end - start - 8) / w } else { 0 };
    let n = if count < avail { count } else { avail };
    let mut out: Vec<usize> = Vec::new();
    let mut i: usize = 0;
    while i < n
        invariant
            i <= n <= avail,
            w == (if wide { 8usize } else { 4usize }),
            avail == sat_sub(end as int, start + 8) / (w as int),
            end <= data@.len(),
            start <= data@.len() + 16,
            data@.len() + 0x2000_0000 <= usize::MAX,
            out@ =~= Seq::new(i as nat, |k: int| bez(data@, start + 8 + w * k, w as nat) as usize),
        decreases n - i,
    {
        proof {
            assert(w * i <= w * avail) by (nonlinear_arith)
                requires i <= avail;
            assert(w * avail <= sat_sub(end as int, start + 8)) by (nonlinear_arith)
                requires avail == sat_sub(end as int, start + 8) / (w as int), w > 0, sat_sub(end as int, start + 8) >= 0;
        }
        let v = be(data, start + 8 + w * i, w);
        out.push(v as usize);
        i = i + 1;
    }
    out
}

/// The sample-to-chunk entries of an `stsc` body: (first chunk, samples
/// per chunk), capped at what the box holds.
pub open spec fn stsc_spec(d: Seq<u8>, start: int, end: int) -> Seq<(usize, usize)> {
    let count = min2(bez(d, start + 4, 4) as int, sat_sub(end, start + 8) / 12);
    Seq::new(count as nat, |i: int| (bez(d, start + 8 + 12 * i, 4) as usize, bez(d, start + 12 + 12 * i, 4) as usize))
}

fn parse_stsc(data: &[u8], start: usize, end: usize) -> (r: Vec<(usize, usize)>)
    requires
        start <= data@.len() + 16,
        end <= data@.len(),
        data@.len() + 0x2000_0000 <= usize::MAX,
    ensures
        r@ == stsc_spec(data@, start as int, end as int),
{
    let count = be(data, start + 4, 4);
    proof {
        lemma_bez_bound(data@, start + 4, 4);
        vstd::arithmetic::power2::lemma2_to64();
    }
    let count = count as usize;
    let avail = if end > start + 8 { (end - start - 8) / 12 } else { 0 };
    let n = if count < avail { count } else { avail };
    let mut out: Vec<(usize, usize)> = Vec::new();
    let mut i: usize = 0;
    while i < n
        invariant
            i <= n <= avail,
            avail == sat_sub(end as int, start + 8) / 12,
            end <= data@.len(),
            start <= data@.len() + 16,
            data@.len() + 0x2000_0000 <= usize::MAX,
            out@ =~= Seq::new(i as nat, |k: int| (bez(data@, start + 8 + 12 * k, 4) as usize, bez(data@, start + 12 + 12 * k, 4) as usize)),
        decreases n - i,
    {
        let o = start + 8 + 12 * i;
        let a = be(data, o, 4);
        let b = be(data, o + 4, 4);
        proof {
            lemma_bez_bound(data@, o as int, 4);
            lemma_bez_bound(data@, o + 4, 4);
            vstd::arithmetic::power2::lemma2_to64();
        }
        out.push((a as usize, b as usize));
        i = i + 1;
    }
    out
}

/// `x - 1`, or 0 for 0.
pub open spec fn dec1(x: usize) -> int {
    if x > 0 {
        x - 1
    } else {
        0
    }
}

/// Samples per chunk `c` after the first `e` sample-to-chunk entries: the
/// last entry whose run of chunks holds `c`, else 0.
pub open spec fn spc_at(stsc: Seq<(usize, usize)>, n: nat, c: int, e: nat) -> usize
    decreases e,
{
    if e == 0 {
        0
    } else {
        let k = e - 1;
        let first = dec1(stsc[k].0);
        let last = if k + 1 < stsc.len() { dec1(stsc[k + 1].0) } else { n as int };
        if first <= c < min2(last, n as int) {
            stsc[k].1
        } else {
            spc_at(stsc, n, c, k as nat)
        }
    }
}

/// The samples of one chunk at offset `off`: up to `left` of them, while
/// sizes last and offsets stay within range; and the next size index.
pub open spec fn chunk_run(sizes: Seq<usize>, off: int, left: nat, si: nat) -> (Seq<(usize, usize)>, nat)
    decreases left,
{
    if left == 0 || si >= sizes.len() {
        (Seq::empty(), si)
    } else {
        let x = (off as usize, sizes[si as int]);
        if off + sizes[si as int] > usize::MAX {
            (seq![x], si)
        } else {
            let (r, s2) = chunk_run(sizes, off + sizes[si as int], (left - 1) as nat, si + 1);
            (seq![x] + r, s2)
        }
    }
}

/// The samples of chunks `c` onwards.
pub open spec fn all_run(offs: Seq<usize>, spc: Seq<usize>, sizes: Seq<usize>, c: nat, si: nat) -> Seq<(usize, usize)>
    decreases offs.len() - c,
{
    if c >= offs.len() {
        Seq::empty()
    } else {
        let (s, s2) = chunk_run(sizes, offs[c as int] as int, spc[c as int] as nat, si);
        s + all_run(offs, spc, sizes, c + 1, s2)
    }
}

/// The sample ranges of the track, from chunk offsets, samples per chunk
/// and sample sizes.
pub open spec fn sample_table(offs: Seq<usize>, stsc: Seq<(usize, usize)>, sizes: Seq<usize>) -> Seq<(usize, usize)> {
    let spc = Seq::new(offs.len(), |c: int| spc_at(stsc, offs.len(), c, stsc.len()));
    all_run(offs, spc, sizes, 0, 0)
}

/// The rate and channel count the codec configuration gives, the sample
/// entry's rate standing in for a zero rate.
pub open spec fn rate_channels(codec: Codec, sd_rate: u32) -> (u32, usize) {
    match codec {
        Codec::Alac(cfg) => (
            if cfg.sample_rate != 0 { cfg.sample_rate } else { sd_rate },
            if cfg.num_channels > 1 { cfg.num_channels as usize } else { 1 },
        ),
        Codec::Aac(cfg) => (
            if cfg.sample_rate != 0 { cfg.sample_rate } else { sd_rate },
            if cfg.channels > 1 { cfg.channels } else { 1 },
        ),
    }
}

/// The track a file holds: (codec, rate, channels, sample ranges), or the
/// message of the first fault.
pub open spec fn demux_spec(d: Seq<u8>) -> Result<(Codec, u32, usize, Seq<(usize, usize)>), &'static str> {
    match stbl_find(d, 0, d.len() as int, 0) {
        None => Err("mp4: no stbl"),
        Some((sb, se)) => {
            let bs = box_walk(d, sb as int, se as int);
            match child_of(bs, 0x7374_7364, 0) {
                None => Err("mp4: no stsd"),
                Some((b, n)) => match stsd_spec(d, b as int, n as int) {
                    Err(m) => Err(m),
                    Ok((codec, ch, sd_rate)) => match child_of(bs, 0x7374_737a, 0) {
                        None => Err("mp4: no stsz"),
                        Some((zb, zn)) => {
                            let offs = match child_of(bs, 0x7374_636f, 0) {
                                Some((ob, on)) => Some(offsets_spec(d, ob as int, on as int, false)),
                                None => match child_of(bs, 0x636f_3634, 0) {
                                    Some((ob, on)) => Some(offsets_spec(d, ob as int, on as int, true)),
                                    None => None,
                                },
                            };
                            match offs {
                                None => Err("mp4: no stco/co64"),
                                Some(offs) => match child_of(bs, 0x7374_7363, 0) {
                                    None => Err("mp4: no stsc"),
                                    Some((cb, cn)) => {
                                        let (rate, chans) = rate_channels(codec, sd_rate);
                                        Ok((
                                            codec,
                                            rate,
                                            chans,
                                            sample_table(offs, stsc_spec(d, cb as int, cn as int), stsz_spec(d, zb as int, zn as int)),
                                        ))
                                    },
                                },
                            }
                        },
                    },
                },
            }
        },
    }
}

/// Samples per chunk.
fn chunk_counts(stsc: &Vec<(usize, usize)>, n: usize) -> (r: Vec<usize>)
    ensures
        r@ == Seq::new(n as nat, |c: int| spc_at(stsc@, n as nat, c, stsc@.len())),
{
    let mut spc: Vec<usize> = Vec::new();
    let mut i: usize = 0;
    while i < n
        invariant
            i <= n,
            spc@ =~= Seq::new(i as nat, |c: int| 0usize),
        decreases n - i,
    {
        spc.push(0);
        i = i + 1;
    }
    let mut e: usize = 0;
    while e < stsc.len()
        invariant
            e <= stsc@.len(),
            spc@.len() == n,
            forall|c: int| 0 <= c < n ==> #[trigger] spc@[c] == spc_at(stsc@, n as nat, c, e as nat),
        decreases stsc@.len() - e,
    {
        let first = stsc[e].0.saturating_sub(1);
        let last = if e + 1 < stsc.len() { stsc[e + 1].0.saturating_sub(1) } else { n };
        let hi = if last < n { last } else { n };
        let v = stsc[e].1;
        let mut c = first;
        while c < hi
            invariant
                e < stsc@.len(),
                first == dec1(stsc@[e as int].0),
                hi == min2(if e + 1 < stsc@.len() { dec1(stsc@[e + 1].0) } else { n as int }, n as int),
                v == stsc@[e as int].1,
                hi <= n,
                first <= c,
                c <= hi || c == first,
                spc@.len() == n,
                forall|k: int| 0 <= k < n ==> #[trigger] spc@[k] == (if first <= k < c { v } else { spc_at(stsc@, n as nat, k, e as nat) }),
            decreases hi - c,
        {
            spc.set(c, v);
            c = c + 1;
        }
        proof {
            assert forall|k: int| 0 <= k < n implies #[trigger] spc@[k] == spc_at(stsc@, n as nat, k, (e + 1) as nat) by {
                if first <= k < hi {
                    assert(spc@[k] == v);
                }
            }
        }
        e = e + 1;
    }
    proof {
        assert(spc@ =~= Seq::new(n as nat, |c: int| spc_at(stsc@, n as nat, c, stsc@.len())));
    }
    spc
}

/// The sample ranges, chunk by chunk.
fn sample_ranges(offs: &Vec<usize>, spc: &Vec<usize>, sizes: &Vec<usize>) -> (r: Vec<(usize, usize)>)
    requires
        spc@.len() == offs@.len(),
    ensures
        r@ == all_run(offs@, spc@, sizes@, 0, 0),
{
    let mut out: Vec<(usize, usize)> = Vec::new();
    let mut si: usize = 0;
    let mut c: usize = 0;
    while c < offs.len()
        invariant
            spc@.len() == offs@.len(),
            c <= offs@.len(),
            si <= sizes@.len(),
            all_run(offs@, spc@, sizes@, 0, 0) == out@ + all_run(offs@, spc@, sizes@, c as nat, si as nat),
        decreases offs@.len() - c,
    {
        let mut off = offs[c];
        let cnt = spc[c];
        let mut k: usize = 0;
        proof {
            assert(all_run(offs@, spc@, sizes@, c as nat, si as nat) == chunk_run(sizes@, off as int, cnt as nat, si as nat).0
                + all_run(offs@, spc@, sizes@, (c + 1) as nat, chunk_run(sizes@, off as int, cnt as nat, si as nat).1));
        }
        loop
            invariant_except_break
                all_run(offs@, spc@, sizes@, 0, 0) == out@ + chunk_run(sizes@, off as int, (cnt - k) as nat, si as nat).0
                    + all_run(offs@, spc@, sizes@, (c + 1) as nat, chunk_run(sizes@, off as int, (cnt - k) as nat, si as nat).1),
            invariant
                spc@.len() == offs@.len(),
                c < offs@.len(),
                k <= cnt,
                si <= sizes@.len(),
            ensures
                si <= sizes@.len(),
                all_run(offs@, spc@, sizes@, 0, 0) == out@ + all_run(offs@, spc@, sizes@, (c + 1) as nat, si as nat),
            decreases cnt - k,
        {
            if k >= cnt || si >= sizes.len() {
                proof {
                    assert(out@ + Seq::<(usize, usize)>::empty() =~= out@);
                }
                break;
            }
            let sz = sizes[si];
            let ghost o0 = out@;
            out.push((off, sz));
            if off > usize::MAX - sz {
                proof {
                    assert(chunk_run(sizes@, off as int, (cnt - k) as nat, si as nat).0 == seq![(off, sz)]);
                    assert(o0 + seq![(off, sz)] =~= out@);
                }
                break;
            }
            proof {
                let (r, s2) = chunk_run(sizes@, off + sz, (cnt - k - 1) as nat, (si + 1) as nat);
                assert(chunk_run(sizes@, off as int, (cnt - k) as nat, si as nat) == (seq![(off, sz)] + r, s2));
                assert(o0 + (seq![(off, sz)] + r) =~= out@ + r);
            }
            off = off + sz;
            si = si + 1;
            k = k + 1;
        }
        c = c + 1;
    }
    proof {
        assert(out@ + Seq::<(usize, usize)>::empty() =~= out@);
    }
    out
}

/// Reads the audio track of an MP4 file: its codec, rate, channels and the
/// byte range of every sample.
pub fn demux(data: &[u8]) -> (r: Result<Mp4, Error>)
    requires
        8 * data@.len() <= POS_CAP,
        data@.len() + 0x2000_0000 <= usize::MAX,
    ensures
        match demux_spec(data@) {
            Err(m) => r matches Err(Error::Decode(e)) && e@ == m@,
            Ok((codec, rate, chans, samples)) => r matches Ok(m) && m.codec == codec && m.sample_rate == rate
                && m.channels == chans && m.samples@ == samples,
        },
{
    let len = data.len();
    let (sb, se) = match find_stbl(data, 0, len, 0) {
        Some(x) => x,
        None => {
            return Err(Error::Decode("mp4: no stbl"));
        },
    };
    let (stsd_b, stsd_e) = match child(data, sb, se, 0x7374_7364) {
        Some(x) => x,
        None => {
            return Err(Error::Decode("mp4: no stsd"));
        },
    };
    let (codec, _channels, sd_rate) = match parse_stsd(data, stsd_b, stsd_e) {
        Ok(x) => x,
        Err(e) => {
            return Err(e);
        },
    };
    let sizes = match child(data, sb, se, 0x7374_737a) {
        Some((b, n)) => parse_stsz(data, b, n),
        None => {
            return Err(Error::Decode("mp4: no stsz"));
        },
    };
    let offs = match child(data, sb, se, 0x7374_636f) {
        Some((b, n)) => parse_offsets(data, b, n, false),
        None => match child(data, sb, se, 0x636f_3634) {
            Some((b, n)) => parse_offsets(data, b, n, true),
            None => {
                return Err(Error::Decode("mp4: no stco/co64"));
            },
        },
    };
    let stsc = match child(data, sb, se, 0x7374_7363) {
        Some((b, n)) => parse_stsc(data, b, n),
        None => {
            return Err(Error::Decode("mp4: no stsc"));
        },
    };
    let spc = chunk_counts(&stsc, offs.len());
    let samples = sample_ranges(&offs, &spc, &sizes);
    let (sample_rate, channels) = match codec {
        Codec::Alac(cfg) => (
            if cfg.sample_rate != 0 { cfg.sample_rate } else { sd_rate },
            if cfg.num_channels > 1 { cfg.num_channels as usize } else { 1 },
        ),
        Codec::Aac(cfg) => (
            if cfg.sample_rate != 0 { cfg.sample_rate } else { sd_rate },
            if cfg.channels > 1 { cfg.channels } else { 1 },
        ),
    };
    Ok(Mp4 { codec, sample_rate, channels, samples })
}

/// An ISO box header: a 32-bit big-endian size counting the 8-byte
/// header, the body following the header; size 1 announces a 64-bit
/// big-endian size after the type and a 16-byte header; size 0 runs the
/// box to the end of its parent.
pub proof fn lemma_box_header(d: Seq<u8>, p: int, end: int)
    requires
        0 <= p,
        p + 16 <= d.len(),
    ensures
        ({
            let size = d[p] * 0x100_0000 + d[p + 1] * 0x1_0000 + d[p + 2] * 0x100 + d[p + 3];
            let large = d[p + 8] * 0x100_0000_0000_0000 + d[p + 9] * 0x1_0000_0000_0000 + d[p + 10] * 0x100_0000_0000
                + d[p + 11] * 0x1_0000_0000 + d[p + 12] * 0x100_0000 + d[p + 13] * 0x1_0000 + d[p + 14] * 0x100 + d[p
                + 15];
            &&& size >= 2 ==> box_span(d, p, end) == Some((p + 8, p + size))
            &&& size == 0 ==> box_span(d, p, end) == Some((p + 8, end))
            &&& (size == 1 && p + 16 <= end) ==> box_span(d, p, end) == Some((p + 16, p + large))
            &&& (size == 1 && p + 16 > end) ==> box_span(d, p, end) is None
        }),
{
    reveal_with_fuel(bez, 9);
}

} // verus!
