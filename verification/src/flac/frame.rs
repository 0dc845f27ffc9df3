//! FLAC frames: the header, one subframe per channel, and the inter-channel
//! decorrelation, giving interleaved integer samples.
use vstd::prelude::*;
use vstd::arithmetic::div_mod::*;
use vstd::wrapping::i64_specs::wrapping_shl;
use crate::flac::bits::{BitReader, POS_CAP, rd, ones_from, utf8_head, utf8_tail, lemma_rd};
use crate::flac::restore::{crop, wadd, wsub};
use crate::flac::subframe::{subframe, read_subframe};

verus! {

/// Samples per block for the 4-bit block size codes that give it directly.
pub open spec fn block_table(code: nat) -> nat {
    if code == 1 {
        192
    } else if 2 <= code <= 5 {
        576 * vstd::arithmetic::power2::pow2((code - 2) as nat)
    } else if 8 <= code <= 15 {
        256 * vstd::arithmetic::power2::pow2((code - 8) as nat)
    } else {
        0
    }
}

/// Bits per sample for the 3-bit sample size codes (0 where reserved).
pub open spec fn bps_table(code: nat) -> nat {
    if code == 1 {
        8
    } else if code == 2 {
        12
    } else if code == 4 {
        16
    } else if code == 5 {
        20
    } else if code == 6 {
        24
    } else {
        0
    }
}

/// The position after the coded frame number at `p`.
pub open spec fn utf8_end(d: Seq<u8>, p: int) -> int {
    let (b0, p1) = rd(d, p, 8);
    if b0 < 128 {
        p1
    } else {
        let n = ones_from(b0 as u8, 0);
        utf8_tail(d, p1, utf8_head(b0 as u8, n), (n - 1) as nat).1
    }
}

/// The header of the frame at byte `cursor`: (block size, channel
/// assignment, bits per sample, position after the header), or `None` where
/// there is no frame there.
#[verifier::opaque]
pub open spec fn header(d: Seq<u8>, cursor: int, info_bps: nat) -> Option<(nat, nat, nat, int)> {
    if cursor + 2 >= d.len() {
        None
    } else {
        let (sync, a1) = rd(d, 8 * cursor, 14);
        if sync != 0x3FFE {
            None
        } else {
            let a3 = rd(d, rd(d, a1, 1).1, 1).1;
            let (bs_code, a4) = rd(d, a3, 4);
            let (sr_code, a5) = rd(d, a4, 4);
            let (ch, a6) = rd(d, a5, 4);
            let (ss, a7) = rd(d, a6, 3);
            let a9 = utf8_end(d, rd(d, a7, 1).1);
            let (bs, a10) = if bs_code == 6 {
                let (v, p) = rd(d, a9, 8);
                (v + 1, p)
            } else if bs_code == 7 {
                let (v, p) = rd(d, a9, 16);
                (v + 1, p)
            } else {
                (block_table(bs_code), a9)
            };
            let a11 = if sr_code == 12 {
                rd(d, a10, 8).1
            } else if sr_code == 13 || sr_code == 14 {
                rd(d, a10, 16).1
            } else {
                a10
            };
            let a12 = rd(d, a11, 8).1;
            let fbps = if ss == 0 { info_bps } else { bps_table(ss) };
            if bs == 0 || fbps == 0 {
                None
            } else {
                Some((bs, ch, fbps, a12))
            }
        }
    }
}

/// Channels coded for a channel assignment: the count for independent
/// channels, two for the stereo decorrelation modes.
pub open spec fn chan_count(ch: nat) -> nat {
    if ch < 8 {
        ch + 1
    } else {
        2
    }
}

/// Bits per sample of channel `c`: the side channel has one more.
pub open spec fn chan_bps(ch: nat, fbps: nat, c: nat) -> nat {
    if (ch == 8 && c == 1) || (ch == 9 && c == 0) || (ch == 10 && c == 1) {
        fbps + 1
    } else {
        fbps
    }
}

/// The subframes of the first `n` channels.
pub open spec fn chans(d: Seq<u8>, pos: int, bs: nat, ch: nat, fbps: nat, n: nat) -> Option<(Seq<Seq<i64>>, int)>
    decreases n,
{
    if n == 0 {
        Some((Seq::empty(), pos))
    } else {
        match chans(d, pos, bs, ch, fbps, (n - 1) as nat) {
            None => None,
            Some((cs, p)) => match subframe(d, p, bs, chan_bps(ch, fbps, (n - 1) as nat)) {
                None => None,
                Some((s, p2)) => Some((cs.push(s), p2)),
            },
        }
    }
}

/// Output sample `k` of the interleaved frame, after undoing the
/// left/side, side/right or mid/side coding.
pub open spec fn out_at(cs: Seq<Seq<i64>>, ch: nat, nch: nat, k: int) -> i64 {
    let i = k / (nch as int);
    let c = k % (nch as int);
    if ch == 8 {
        let l = cs[0][i];
        if c == 0 { l } else { crop(l - cs[1][i]) }
    } else if ch == 9 {
        let r = cs[1][i];
        if c == 0 { crop(r + cs[0][i]) } else { r }
    } else if ch == 10 {
        let s = cs[1][i];
        let m = wrapping_shl(cs[0][i], 1) | (s & 1);
        if c == 0 { crop(m + s) >> 1 } else { crop(m - s) >> 1 }
    } else {
        cs[c][i]
    }
}

/// The frame at byte `cursor`: its interleaved samples, channel count,
/// bits per sample and block size, and the byte after it.
pub open spec fn frame(d: Seq<u8>, cursor: int, info_bps: nat) -> Option<(Seq<i64>, nat, nat, nat, int)> {
    match header(d, cursor, info_bps) {
        None => None,
        Some((bs, ch, fbps, p)) => {
            let nch = chan_count(ch);
            match chans(d, p, bs, ch, fbps, nch) {
                None => None,
                Some((cs, p2)) => {
                    let p3 = if p2 % 8 == 0 { p2 } else { p2 + 8 - p2 % 8 };
                    let p4 = rd(d, p3, 16).1;
                    Some((Seq::new(bs * nch, |k: int| out_at(cs, ch, nch, k)), nch, fbps, bs, p4 / 8))
                },
            }
        },
    }
}

/// A decoded frame: interleaved samples of `bps` bits.
pub struct FlacFrame {
    pub samples: Vec<i64>,
    pub channels: usize,
    pub bps: u32,
}

fn block_size_code(code: u64) -> (r: usize)
    requires
        code < 16,
    ensures
        r == block_table(code as nat),
{
    proof {
        vstd::arithmetic::power2::lemma2_to64();
    }
    if code == 1 {
        192
    } else if code == 2 {
        576
    } else if code == 3 {
        1152
    } else if code == 4 {
        2304
    } else if code == 5 {
        4608
    } else if code == 8 {
        256
    } else if code == 9 {
        512
    } else if code == 10 {
        1024
    } else if code == 11 {
        2048
    } else if code == 12 {
        4096
    } else if code == 13 {
        8192
    } else if code == 14 {
        16384
    } else if code == 15 {
        32768
    } else {
        0
    }
}

/// Parses the frame header at byte `cursor`.
fn read_header(br: &mut BitReader, cursor: u64, len: usize, info_bps: u32) -> (r: Option<(usize, u64, u32)>)
    requires
        old(br).wf(),
        old(br).pos == 8 * cursor,
        len == old(br).data@.len(),
        cursor + 2 < len,
        1 <= info_bps <= 32,
    ensures
        final(br).data@ == old(br).data@,
        final(br).wf(),
        match header(old(br).data@, cursor as int, info_bps as nat) {
            None => r is None,
            Some((bs, ch, fbps, p)) => r matches Some((b2, c2, f2)) && b2 == bs && c2 == ch && f2 == fbps
                && final(br).pos == p && 1 <= bs <= 65536 && ch < 16 && 1 <= fbps <= 32,
        },
{
    reveal(header);
    let ghost d = br.data@;
    proof {
        vstd::arithmetic::power2::lemma2_to64();
    }
    let sync = br.read(14);
    if sync != 0x3FFE {
        return None;
    }
    br.read(1);
    br.read(1);
    let bs_code = br.read(4);
    let sr_code = br.read(4);
    let ch = br.read(4);
    let ss = br.read(3);
    br.read(1);
    br.read_utf8();
    proof {
        lemma_rd(d, 8 * cursor, 14);
    }
    let bs: usize = if bs_code == 6 {
        let v = br.read(8);
        proof {
            lemma_rd(d, br.pos as int, 0);
        }
        (v + 1) as usize
    } else if bs_code == 7 {
        let v = br.read(16);
        (v + 1) as usize
    } else {
        block_size_code(bs_code)
    };
    if sr_code == 12 {
        br.read(8);
    } else if sr_code == 13 || sr_code == 14 {
        br.read(16);
    }
    br.read(8);
    if bs == 0 {
        return None;
    }
    let fbps: u32 = if ss == 0 {
        info_bps
    } else if ss == 1 {
        8
    } else if ss == 2 {
        12
    } else if ss == 4 {
        16
    } else if ss == 5 {
        20
    } else if ss == 6 {
        24
    } else {
        0
    };
    if fbps == 0 {
        return None;
    }
    Some((bs, ch, fbps))
}

/// Reads the subframes of all `nch` channels.
fn read_chans(br: &mut BitReader, bs: usize, ch: u64, fbps: u32, nch: usize) -> (r: Option<Vec<Vec<i64>>>)
    requires
        old(br).wf(),
        1 <= fbps <= 32,
        nch <= 16,
    ensures
        final(br).data@ == old(br).data@,
        final(br).wf(),
        match chans(old(br).data@, old(br).pos as int, bs as nat, ch as nat, fbps as nat, nch as nat) {
            None => r is None,
            Some((cs, p)) => r matches Some(v) && final(br).pos == p && v@.len() == cs.len()
                && forall|c: int| 0 <= c < cs.len() ==> #[trigger] v@[c]@ == cs[c],
        },
{
    let ghost d = br.data@;
    let ghost p0 = br.pos as int;
    let mut out: Vec<Vec<i64>> = Vec::new();
    let ghost mut cs: Seq<Seq<i64>> = Seq::empty();
    let mut c: usize = 0;
    while c < nch
        invariant
            br.data@ == d,
            d == old(br).data@,
            p0 == old(br).pos,
            br.wf(),
            1 <= fbps <= 32,
            c <= nch <= 16,
            chans(d, p0, bs as nat, ch as nat, fbps as nat, c as nat) == Some((cs, br.pos as int)),
            out@.len() == cs.len() == c,
            forall|k: int| 0 <= k < c ==> #[trigger] out@[k]@ == cs[k],
        decreases nch - c,
    {
        let cbps = if (ch == 8 && c == 1) || (ch == 9 && c == 0) || (ch == 10 && c == 1) {
            fbps + 1
        } else {
            fbps
        };
        assert(cbps == chan_bps(ch as nat, fbps as nat, c as nat));
        let ghost q = br.pos as int;
        let mut buf: Vec<i64> = vec![0i64; bs];
        let ok = read_subframe(br, buf.as_mut_slice(), cbps);
        if !ok {
            proof {
                lemma_chans_none(d, p0, bs as nat, ch as nat, fbps as nat, (c + 1) as nat, nch as nat);
            }
            return None;
        }
        proof {
            assert(chans(d, p0, bs as nat, ch as nat, fbps as nat, (c + 1) as nat) == Some((
                cs.push(buf@),
                br.pos as int,
            )));
        }
        out.push(buf);
        proof {
            cs = cs.push(buf@);
        }
        c = c + 1;
    }
    Some(out)
}

/// Interleaves the channels, undoing the stereo decorrelation.
fn interleave(cs: &Vec<Vec<i64>>, ch: u64, nch: usize, bs: usize) -> (r: Vec<i64>)
    requires
        1 <= nch <= 16,
        bs <= 65536,
        cs@.len() == nch,
        ch >= 8 ==> nch == 2,
        forall|c: int| 0 <= c < nch ==> (#[trigger] cs@[c])@.len() == bs,
    ensures
        r@ == Seq::new(bs as nat * nch as nat, |k: int| out_at(Seq::new(nch as nat, |c: int| cs@[c]@), ch as nat, nch as nat, k)),
{
    let ghost ss = Seq::new(nch as nat, |c: int| cs@[c]@);
    let mut out: Vec<i64> = Vec::new();
    let mut i: usize = 0;
    while i < bs
        invariant
            1 <= nch <= 16,
            bs <= 65536,
            i <= bs,
            cs@.len() == nch,
            ch >= 8 ==> nch == 2,
            forall|c: int| 0 <= c < nch ==> (#[trigger] cs@[c])@.len() == bs,
            ss == Seq::new(nch as nat, |c: int| cs@[c]@),
            out@.len() == i * nch,
            forall|k: int| 0 <= k < i * nch ==> #[trigger] out@[k] == out_at(ss, ch as nat, nch as nat, k),
        decreases bs - i,
    {
        let mut c: usize = 0;
        while c < nch
            invariant
                1 <= nch <= 16,
                bs <= 65536,
                i < bs,
                c <= nch,
                cs@.len() == nch,
                ch >= 8 ==> nch == 2,
                forall|c: int| 0 <= c < nch ==> (#[trigger] cs@[c])@.len() == bs,
                ss == Seq::new(nch as nat, |c: int| cs@[c]@),
                out@.len() == i * nch + c,
                forall|k: int| 0 <= k < i * nch + c ==> #[trigger] out@[k] == out_at(ss, ch as nat, nch as nat, k),
            decreases nch - c,
        {
            proof {
                assert(i * nch + c < 65536 * 16) by (nonlinear_arith)
                    requires i < 65536, c < nch, nch <= 16;
                lemma_fundamental_div_mod_converse((i * nch + c) as int, nch as int, i as int, c as int);
            }
            let k = i * nch + c;
            let v: i64 = if ch == 8 {
                let l = cs[0][i];
                if c == 0 { l } else { wsub(l, cs[1][i]) }
            } else if ch == 9 {
                let r = cs[1][i];
                if c == 0 { wadd(r, cs[0][i]) } else { r }
            } else if ch == 10 {
                let s = cs[1][i];
                let m = cs[0][i].wrapping_shl(1) | (s & 1);
                if c == 0 { wadd(m, s) >> 1 } else { wsub(m, s) >> 1 }
            } else {
                cs[c][i]
            };
            out.push(v);
            proof {
                assert(out@[k as int] == out_at(ss, ch as nat, nch as nat, k as int));
            }
            c = c + 1;
        }
        proof {
            assert((i + 1) * nch == i * nch + nch) by (nonlinear_arith);
        }
        i = i + 1;
    }
    proof {
        assert(out@ =~= Seq::new(bs as nat * nch as nat, |k: int| out_at(ss, ch as nat, nch as nat, k)));
    }
    out
}

/// Decodes the frame at byte `cursor`: the frame and the byte after it.
pub fn decode_frame_at(data: &[u8], cursor: u64, info_bps: u32) -> (r: Option<(FlacFrame, u64)>)
    requires
        8 * data@.len() <= POS_CAP,
        8 * cursor <= POS_CAP,
        1 <= info_bps <= 32,
    ensures
        match frame(data@, cursor as int, info_bps as nat) {
            None => r is None,
            Some((s, nch, fbps, bs, c2)) => r matches Some((f, c3)) && f.samples@ == s && f.channels == nch
                && f.bps == fbps && c3 == c2 && 8 * c3 <= POS_CAP && s.len() == bs * nch,
        },
{
    let len = data.len();
    if cursor + 2 >= len as u64 {
        proof {
            lemma_header_short(data@, cursor as int, info_bps as nat);
        }
        return None;
    }
    let mut br = BitReader::new(data, cursor);
    let (bs, ch, fbps) = match read_header(&mut br, cursor, len, info_bps) {
        Some(h) => h,
        None => {
            return None;
        },
    };
    let nch: usize = if ch < 8 { (ch + 1) as usize } else { 2 };
    let cs = match read_chans(&mut br, bs, ch, fbps, nch) {
        Some(v) => v,
        None => {
            return None;
        },
    };
    let ghost d = data@;
    let ghost hdr = header(d, cursor as int, info_bps as nat).unwrap();
    let ghost got = chans(d, hdr.3, bs as nat, ch as nat, fbps as nat, nch as nat).unwrap();
    proof {
        lemma_chans_len(d, hdr.3, bs as nat, ch as nat, fbps as nat, nch as nat);
        assert(Seq::new(nch as nat, |c: int| cs@[c]@) =~= got.0);
    }
    let samples = interleave(&cs, ch, nch, bs);
    br.align();
    br.read(16);
    let next = br.byte_pos();
    Some((FlacFrame { samples, channels: nch, bps: fbps }, next))
}

/// Each channel decoded holds a whole block.
proof fn lemma_chans_len(d: Seq<u8>, pos: int, bs: nat, ch: nat, fbps: nat, n: nat)
    requires
        chans(d, pos, bs, ch, fbps, n) is Some,
    ensures
        chans(d, pos, bs, ch, fbps, n).unwrap().0.len() == n,
        forall|c: int| 0 <= c < n ==> (#[trigger] chans(d, pos, bs, ch, fbps, n).unwrap().0[c]).len() == bs,
    decreases n,
{
    if n > 0 {
        lemma_chans_len(d, pos, bs, ch, fbps, (n - 1) as nat);
        let (cs, p) = chans(d, pos, bs, ch, fbps, (n - 1) as nat).unwrap();
        crate::flac::subframe::lemma_subframe_len(d, p, bs, chan_bps(ch, fbps, (n - 1) as nat));
    }
}

proof fn lemma_header_short(d: Seq<u8>, cursor: int, info_bps: nat)
    requires
        cursor + 2 >= d.len(),
    ensures
        header(d, cursor, info_bps) is None,
{
    reveal(header);
}

/// A channel that fails to decode fails the frame.
proof fn lemma_chans_none(d: Seq<u8>, pos: int, bs: nat, ch: nat, fbps: nat, m: nat, n: nat)
    requires
        m <= n,
        chans(d, pos, bs, ch, fbps, m) is None,
    ensures
        chans(d, pos, bs, ch, fbps, n) is None,
    decreases n,
{
    if n > m {
        lemma_chans_none(d, pos, bs, ch, fbps, m, (n - 1) as nat);
    }
}

/// The block sizes of the 4-bit codes that give one directly (192, then
/// 576 to 4608 doubling, then 256 to 32768 doubling; 0 for the codes that
/// give none), and the bit depths of the 3-bit sample size codes (8, 12,
/// 16, 20, 24; 0 for the reserved and the STREAMINFO codes).
pub proof fn lemma_flac_code_tables(code: nat)
    ensures
        code < 16 ==> block_table(code) == seq![0nat, 192, 576, 1152, 2304, 4608, 0, 0, 256, 512, 1024, 2048, 4096,
            8192, 16384, 32768][code as int],
        code < 8 ==> bps_table(code) == seq![0nat, 8, 12, 0, 16, 20, 24, 0][code as int],
{
    vstd::arithmetic::power2::lemma2_to64();
}

/// The channel assignments: codes 0 to 7 code that many channels plus
/// one; left/side, side/right and mid/side code two, the side channel
/// (the second, the first and the second) with one bit more.
pub proof fn lemma_flac_channels(ch: nat, fbps: nat)
    ensures
        ch < 8 ==> chan_count(ch) == ch + 1 && chan_bps(ch, fbps, 0) == fbps && chan_bps(ch, fbps, 1) == fbps,
        8 <= ch <= 10 ==> chan_count(ch) == 2,
        ch == 8 ==> chan_bps(ch, fbps, 0) == fbps && chan_bps(ch, fbps, 1) == fbps + 1,
        ch == 9 ==> chan_bps(ch, fbps, 0) == fbps + 1 && chan_bps(ch, fbps, 1) == fbps,
        ch == 10 ==> chan_bps(ch, fbps, 0) == fbps && chan_bps(ch, fbps, 1) == fbps + 1,
{
}

/// Undoing the stereo decorrelation of sample `i`: for left/side the
/// right channel is left minus side, for side/right the left channel is
/// right plus side; for mid/side (within 40-bit values) left minus right
/// is the side channel and their sum halved, rounding down, the mid
/// channel.
pub proof fn lemma_flac_stereo(cs: Seq<Seq<i64>>, ch: nat, i: int)
    requires
        cs.len() == 2,
        0 <= i < cs[0].len(),
        i < cs[1].len(),
    ensures
        ch == 8 ==> out_at(cs, ch, 2, 2 * i) == cs[0][i] && out_at(cs, ch, 2, 2 * i + 1) == crop(cs[0][i] - cs[1][i]),
        ch == 9 ==> out_at(cs, ch, 2, 2 * i) == crop(cs[1][i] + cs[0][i]) && out_at(cs, ch, 2, 2 * i + 1) == cs[1][i],
        ch == 10 && -0x80_0000_0000 <= cs[0][i] < 0x80_0000_0000 && -0x80_0000_0000 <= cs[1][i] < 0x80_0000_0000 ==> ({
            let l = out_at(cs, ch, 2, 2 * i) as int;
            let r = out_at(cs, ch, 2, 2 * i + 1) as int;
            &&& l - r == cs[1][i]
            &&& (l + r) / 2 == cs[0][i]
        }),
        ch < 8 ==> out_at(cs, ch, 2, 2 * i) == cs[0][i] && out_at(cs, ch, 2, 2 * i + 1) == cs[1][i],
{
    assert((2 * i) / 2 == i && (2 * i) % 2 == 0);
    assert((2 * i + 1) / 2 == i && (2 * i + 1) % 2 == 1);
    if ch == 10 {
        let m = cs[0][i];
        let sd = cs[1][i];
        if -0x80_0000_0000 <= m < 0x80_0000_0000 && -0x80_0000_0000 <= sd < 0x80_0000_0000 {
            lemma_mid_side(m, sd);
        }
    }
}

proof fn lemma_mid_side(m: i64, sd: i64)
    requires
        -0x80_0000_0000 <= m < 0x80_0000_0000,
        -0x80_0000_0000 <= sd < 0x80_0000_0000,
    ensures
        ({
            let mm = wrapping_shl(m, 1) | (sd & 1);
            let l = (crop(mm + sd) >> 1) as int;
            let r = (crop(mm - sd) >> 1) as int;
            &&& l - r == sd
            &&& (l + r) / 2 == m
        }),
{
    assert(wrapping_shl(m, 1) == (m << 1u32)) by {
        reveal(wrapping_shl);
    }
    let t = m << 1u32;
    let b = sd & 1;
    assert(-0x80_0000_0000 <= m < 0x80_0000_0000 ==> (m << 1u32) as int == 2 * (m as int) && (m << 1u32) & 1 == 0)
        by (bit_vector);
    assert((sd & 1 == 0 || sd & 1 == 1) && ((sd >> 1u32) as int) * 2 + ((sd & 1) as int) == sd as int) by (bit_vector);
    assert(t & 1 == 0 && (b == 0 || b == 1) ==> (t | b) as int == t as int + b as int) by (bit_vector);
    let mm = t | b;
    let q = (sd >> 1u32) as int;
    assert(mm as int == 2 * m + b);
    crate::flac::restore::lemma_crop_small(mm + sd);
    crate::flac::restore::lemma_crop_small(mm - sd);
    let x: i64 = crop(mm + sd);
    let y: i64 = crop(mm - sd);
    assert(forall|z: i64| ((z >> 1u32) as int) * 2 <= z as int && (z as int) < ((z >> 1u32) as int) * 2 + 2)
        by (bit_vector);
    assert(x as int == 2 * (m + b + q));
    assert(y as int == 2 * (m - q));
    assert((x >> 1u32) as int == m + b + q);
    assert((y >> 1u32) as int == m - q);
}

} // verus!
