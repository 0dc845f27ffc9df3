//! The Opus table-of-contents byte and packet framing (RFC 6716 section 3).
use vstd::prelude::*;
use crate::error::Error;

verus! {

/// The coding mode a TOC byte selects.
#[derive(Clone, Copy, Debug, PartialEq, Eq, Structural)]
pub enum FrameMode {
    Silk,
    Hybrid,
    Celt,
}

/// A decoded TOC byte.
#[derive(Clone, Copy, Debug)]
pub struct Toc {
    pub mode: FrameMode,
    pub stereo: bool,
    pub lm: u8,
    pub end: u8,
    pub samples: u32,
}

pub const MAX_FRAME: usize = 1275;


/// Frame durations (ms) of the SILK configurations.
pub open spec fn silk_ms(c: int) -> int {
    if c == 0 {
        10
    } else if c == 1 {
        20
    } else if c == 2 {
        40
    } else {
        60
    }
}

/// Last coded band of a CELT bandwidth (NB, WB, SWB, FB).
pub open spec fn celt_end(bw: int) -> int {
    if bw == 0 {
        13
    } else if bw == 1 {
        17
    } else if bw == 2 {
        19
    } else {
        21
    }
}

/// The meaning of a TOC byte: configuration `toc >> 3`, stereo flag bit 2.
pub open spec fn spec_toc(toc: u8) -> Toc {
    let config = toc / 8;
    let stereo = (toc / 4) % 2 == 1;
    if config < 12 {
        Toc { mode: FrameMode::Silk, stereo, lm: 0, end: 0, samples: (48 * silk_ms((config % 4) as int)) as u32 }
    } else if config < 16 {
        Toc {
            mode: FrameMode::Hybrid,
            stereo,
            lm: 0,
            end: 0,
            samples: (48 * if config % 2 == 0 { 10int } else { 20int }) as u32,
        }
    } else {
        let lm = config % 4;
        Toc {
            mode: FrameMode::Celt,
            stereo,
            lm: lm as u8,
            end: celt_end((config - 16) / 4) as u8,
            samples: (120 * vstd::arithmetic::power2::pow2(lm as nat)) as u32,
        }
    }
}

impl Toc {
    /// Decode a TOC byte.
    pub fn parse(toc: u8) -> (t: Toc)
        ensures
            t == spec_toc(toc),
    {
        let config = toc >> 3;
        let stereo = (toc >> 2) & 1 == 1;
        assert(toc >> 3u8 == toc / 8) by (bit_vector);
        assert((toc >> 2u8) & 1u8 == (toc / 4) % 2) by (bit_vector);
        if config < 12 {
            let ms: [u32; 4] = [10u32, 20, 40, 60];
            assert(config & 3u8 == config % 4) by (bit_vector);
            Toc { mode: FrameMode::Silk, stereo, lm: 0, end: 0, samples: 48 * ms[(config & 3) as usize] }
        } else if config < 16 {
            let ms = if config & 1 == 0 {
                10
            } else {
                20
            };
            assert(config & 1u8 == config % 2) by (bit_vector);
            Toc { mode: FrameMode::Hybrid, stereo, lm: 0, end: 0, samples: 48 * ms }
        } else {
            assert(config & 3u8 == config % 4) by (bit_vector);
            let lm = (config & 3) as u8;
            let ends: [u8; 4] = [13u8, 17, 19, 21];
            let end = ends[((config - 16) / 4) as usize];
            proof {
                vstd::arithmetic::power2::lemma2_to64();
            }
            let samples = 120u32 << lm;
            assert(lm <= 3 ==> 120u32 << lm == 120u32 * (1u32 << lm)) by (bit_vector);
            assert(lm == 0 || lm == 1 || lm == 2 || lm == 3);
            assert((1u32 << 0u8) == 1 && (1u32 << 1u8) == 2 && (1u32 << 2u8) == 4 && (1u32 << 3u8)
                == 8) by (bit_vector);
            Toc { mode: FrameMode::Celt, stereo, lm, end, samples }
        }
    }
}

/// A frame length prefix: one byte below 252, else two bytes `b0 + 4*b1`.
/// Yields the length and the number of bytes the prefix used.
pub open spec fn spec_read_len(b: Seq<u8>) -> Option<(int, int)> {
    if b.len() == 0 {
        None
    } else if b[0] < 252 {
        Some((b[0] as int, 1))
    } else if b.len() < 2 {
        None
    } else {
        Some((b[0] + 4 * b[1], 2))
    }
}

fn read_len(b: &[u8]) -> (r: Result<(usize, usize), Error>)
    ensures
        match r {
            Ok((n, used)) => spec_read_len(b@) == Some((n as int, used as int)),
            Err(e) => spec_read_len(b@) is None && e is BadOpus,
        },
{
    if b.len() == 0 {
        Err(Error::BadOpus("frame length truncated"))
    } else if b[0] < 252 {
        Ok((b[0] as usize, 1))
    } else if b.len() < 2 {
        Err(Error::BadOpus("frame length truncated"))
    } else {
        Ok((b[0] as usize + 4 * b[1] as usize, 2))
    }
}

/// Code-3 padding length: a run of 255 bytes (254 each) closed by a smaller
/// byte, starting at `p`; yields the position after it and the total.
pub open spec fn pad_scan(body: Seq<u8>, p: int, acc: int) -> Option<(int, int)>
    decreases body.len() - p,
{
    if p < 0 || p >= body.len() {
        None
    } else if body[p] == 255 {
        pad_scan(body, p + 1, acc + 254)
    } else {
        Some((p + 1, acc + body[p]))
    }
}

/// The padding that a scan finds is at least what it started from.
proof fn lemma_pad_scan_grows(body: Seq<u8>, p: int, acc: int)
    ensures
        pad_scan(body, p, acc) matches Some((_, x)) ==> x >= acc,
    decreases body.len() - p,
{
    if !(p < 0 || p >= body.len()) && body[p] == 255 {
        lemma_pad_scan_grows(body, p + 1, acc + 254);
    }
}

/// The explicit lengths of `k` more VBR frames, read from `body[p..end]`.
pub open spec fn vbr_scan(body: Seq<u8>, p: int, end: int, k: int, acc: Seq<int>) -> Option<
    (int, Seq<int>),
>
    decreases k,
{
    if k <= 0 {
        Some((p, acc))
    } else {
        let sl = if 0 <= p <= end <= body.len() {
            body.subrange(p, end)
        } else {
            Seq::<u8>::empty()
        };
        match spec_read_len(sl) {
            None => None,
            Some((n, used)) => vbr_scan(body, p + used, end, k - 1, acc.push(n)),
        }
    }
}

/// Sum of the first `i` entries.
pub open spec fn sum_prefix(s: Seq<int>, i: int) -> int
    decreases i,
{
    if i <= 0 {
        0
    } else {
        sum_prefix(s, i - 1) + s[i - 1]
    }
}

/// Frames of the given lengths laid end to end from body offset `p`
/// (packet offset `1 + p`).
pub open spec fn laid_out(lens: Seq<int>, p: int) -> Seq<(int, int)> {
    Seq::new(lens.len(), |i: int| (1 + p + sum_prefix(lens, i), lens[i]))
}

/// Every frame lies inside the packet and is at most 1275 bytes.
pub open spec fn frames_in_bounds(frames: Seq<(int, int)>, len: int) -> bool {
    forall|i: int|
        0 <= i < frames.len() ==> frames[i].1 <= MAX_FRAME && #[trigger] frames[i].0 + frames[i].1
            <= len
}

/// The frames (packet offset, length) of a code-3 packet, before the bounds check.
pub open spec fn code3_frames(pkt: Seq<u8>) -> Option<Seq<(int, int)>> {
    let body = pkt.subrange(1, pkt.len() as int);
    if body.len() == 0 {
        None
    } else {
        let fc = body[0];
        let vbr = fc >= 0x80;
        let pad = (fc / 0x40) % 2 == 1;
        let m = (fc % 0x40) as int;
        if m == 0 || m * spec_toc(pkt[0]).samples > 48 * 120 {
            None
        } else {
            let padded = if pad { pad_scan(body, 1, 0) } else { Some((1int, 0int)) };
            match padded {
                None => None,
                Some((p, padding)) => {
                    if padding > body.len() {
                        None
                    } else {
                        let data_end = body.len() - padding;
                        if vbr {
                            match vbr_scan(body, p, data_end, m - 1, Seq::empty()) {
                                None => None,
                                Some((q, lens)) => {
                                    let total = sum_prefix(lens, lens.len() as int);
                                    if data_end - q - total < 0 {
                                        None
                                    } else {
                                        Some(laid_out(lens.push(data_end - q - total), q))
                                    }
                                }
                            }
                        } else {
                            let region = data_end - p;
                            if region < 0 || region % m != 0 {
                                None
                            } else {
                                Some(laid_out(Seq::new(m as nat, |i: int| region / m), p))
                            }
                        }
                    }
                }
            }
        }
    }
}

/// The frames (packet offset, length) of an Opus packet, before the bounds check.
pub open spec fn raw_frames(pkt: Seq<u8>) -> Option<Seq<(int, int)>> {
    let body_len = pkt.len() - 1;
    let code = pkt[0] % 4;
    if code == 0 {
        Some(seq![(1int, body_len)])
    } else if code == 1 {
        if body_len % 2 != 0 {
            None
        } else {
            Some(seq![(1int, body_len / 2), (1 + body_len / 2, body_len / 2)])
        }
    } else if code == 2 {
        match spec_read_len(pkt.subrange(1, pkt.len() as int)) {
            None => None,
            Some((n, used)) => if used + n > body_len {
                None
            } else {
                Some(seq![(1 + used, n), (1 + used + n, body_len - used - n)])
            },
        }
    } else {
        code3_frames(pkt)
    }
}

/// The frames of an Opus packet: `None` for an empty or malformed packet.
pub open spec fn spec_split_frames(pkt: Seq<u8>) -> Option<Seq<(int, int)>> {
    if pkt.len() == 0 {
        None
    } else {
        match raw_frames(pkt) {
            None => None,
            Some(f) => if frames_in_bounds(f, pkt.len() as int) {
                Some(f)
            } else {
                None
            },
        }
    }
}

/// The frames as plain integer pairs.
pub open spec fn pairs(v: Seq<(usize, usize)>) -> Seq<(int, int)> {
    v.map_values(|x: (usize, usize)| (x.0 as int, x.1 as int))
}

proof fn lemma_sum_prefix_step(s: Seq<int>, i: int)
    requires
        0 <= i,
    ensures
        sum_prefix(s, i + 1) == sum_prefix(s, i) + s[i],
{
}

/// Split an Opus packet into its frames: the TOC and, for each frame, its
/// offset in `pkt` and its length.
pub fn split_frames(pkt: &[u8]) -> (r: Result<(Toc, Vec<(usize, usize)>), Error>)
    ensures
        match r {
            Ok((toc, frames)) => {
                &&& pkt@.len() > 0
                &&& toc == spec_toc(pkt@[0])
                &&& spec_split_frames(pkt@) == Some(pairs(frames@))
            },
            Err(e) => spec_split_frames(pkt@) is None && e is BadOpus,
        },
{
    if pkt.len() == 0 {
        return Err(Error::BadOpus("empty packet"));
    }
    let toc = Toc::parse(pkt[0]);
    let b0 = pkt[0];
    let code = b0 & 3;
    assert(b0 & 3u8 == b0 % 4) by (bit_vector);
    let body = slice_from(pkt, 1);
    let blen = body.len();
    let mut frames: Vec<(usize, usize)> = Vec::new();
    let ghost raw: Seq<(int, int)>;

    if code == 0 {
        frames.push((1, blen));
        proof {
            raw = seq![(1int, blen as int)];
            assert(pairs(frames@) =~= raw);
        }
    } else if code == 1 {
        if blen % 2 != 0 {
            return Err(Error::BadOpus("code 1 odd length"));
        }
        let h = blen / 2;
        frames.push((1, h));
        frames.push((1 + h, h));
        proof {
            raw = seq![(1int, h as int), (1 + h as int, h as int)];
            assert(pairs(frames@) =~= raw);
        }
    } else if code == 2 {
        let (n, used) = match read_len(body) {
            Ok(x) => x,
            Err(e) => return Err(e),
        };
        if used + n > blen {
            return Err(Error::BadOpus("code 2 overrun"));
        }
        frames.push((1 + used, n));
        frames.push((1 + used + n, blen - used - n));
        proof {
            raw = seq![(1 + used as int, n as int), (1 + used + n as int, blen - used - n as int)];
            assert(pairs(frames@) =~= raw);
        }
    } else {
        assert(code == 3);
        match code3(pkt, body, toc) {
            Ok(f) => {
                frames = f;
                proof {
                    raw = pairs(frames@);
                }
            },
            Err(e) => return Err(e),
        }
    }
    assert(raw_frames(pkt@) == Some(raw));

    let mut i: usize = 0;
    while i < frames.len()
        invariant
            0 <= i <= frames@.len(),
            pairs(frames@) == raw,
            raw_frames(pkt@) == Some(raw),
            pkt@.len() > 0,
            toc == spec_toc(pkt@[0]),
            forall|k: int|
                0 <= k < i ==> raw[k].1 <= MAX_FRAME && #[trigger] raw[k].0 + raw[k].1 <= pkt@.len(),
        decreases frames@.len() - i,
    {
        let (start, n) = frames[i];
        assert(pairs(frames@)[i as int] == (frames@[i as int].0 as int, frames@[i as int].1 as int));
        assert(raw[i as int] == (start as int, n as int));
        let past_end = start > pkt.len() || n > pkt.len() - start;
        if n > MAX_FRAME || past_end {
            proof {
                assert(n > MAX_FRAME || start + n > pkt@.len());
                assert(raw[i as int].0 + raw[i as int].1 > pkt@.len() || raw[i as int].1 > MAX_FRAME);
                assert(!frames_in_bounds(raw, pkt@.len() as int));
            }
            return Err(Error::BadOpus("frame out of bounds"));
        }
        i += 1;
    }
    Ok((toc, frames))
}

/// `&s[from..]`.
fn slice_from(s: &[u8], from: usize) -> (r: &[u8])
    requires
        from <= s@.len(),
    ensures
        r@ == s@.subrange(from as int, s@.len() as int),
{
    vstd::slice::slice_subrange(s, from, s.len())
}

/// The code-3 frames of `pkt` (whose body is `body`).
fn code3(pkt: &[u8], body: &[u8], toc: Toc) -> (r: Result<Vec<(usize, usize)>, Error>)
    requires
        pkt@.len() >= 1,
        body@ == pkt@.subrange(1, pkt@.len() as int),
        toc == spec_toc(pkt@[0]),
    ensures
        match r {
            Ok(f) => code3_frames(pkt@) == Some(pairs(f@)),
            Err(e) => code3_frames(pkt@) is None && e is BadOpus,
        },
{
    let blen = body.len();
    let plen = pkt.len();
    assert(blen + 1 == plen);
    if blen == 0 {
        return Err(Error::BadOpus("code 3 missing count"));
    }
    let fc = body[0];
    let vbr = fc & 0x80 != 0;
    let pad = fc & 0x40 != 0;
    let m = (fc & 0x3f) as usize;
    assert(fc & 0x80u8 != 0 <==> fc >= 0x80) by (bit_vector);
    assert(fc & 0x40u8 != 0 <==> (fc / 0x40) % 2 == 1) by (bit_vector);
    assert(fc & 0x3fu8 == fc % 0x40) by (bit_vector);
    proof {
        assert(toc.samples <= 2880) by {
            vstd::arithmetic::power2::lemma2_to64();
        }
    }
    let m32 = m as u32;
    if m != 0 {
        assert(m32 * toc.samples <= 63 * 2880) by (nonlinear_arith)
            requires m32 <= 63, toc.samples <= 2880;
    }
    if m == 0 || m32 * toc.samples > 48 * 120 {
        return Err(Error::BadOpus("code 3 frame count"));
    }
    assert((m32 * toc.samples) as int == (fc % 0x40) as int * spec_toc(pkt@[0]).samples);
    assert(body@[0] == fc);
    let mut p = 1usize;
    let mut padding = 0usize;
    if pad {
        let ghost target = pad_scan(body@, 1, 0);
        assert(target is None ==> code3_frames(pkt@) is None);
        assert(forall|q: int, x: int| target == Some((q, x)) && x > blen ==> code3_frames(pkt@) is None);
        loop
            invariant_except_break
                1 <= p <= blen,
                padding <= blen,
                pad_scan(body@, p as int, padding as int) == target,
            invariant
                blen == body@.len(),
                blen < plen,
                target is None ==> code3_frames(pkt@) is None,
                forall|q: int, x: int| target == Some((q, x)) && x > blen ==> code3_frames(pkt@) is None,
            ensures
                target == Some((p as int, padding as int)),
                padding <= blen,
                1 <= p <= blen,
            decreases blen - p,
        {
            if p >= blen {
                return Err(Error::BadOpus("code 3 padding"));
            }
            let b = body[p];
            p += 1;
            if b == 255 {
                if blen - padding < 254 {
                    proof {
                        assert(target == pad_scan(body@, p as int, padding + 254));
                        lemma_pad_scan_grows(body@, p as int, padding + 254);
                        if let Some((q, x)) = target {
                            assert(x > blen);
                            assert(target == Some((q, x)) && x > blen);
                        }
                        assert(code3_frames(pkt@) is None);
                    }
                    return Err(Error::BadOpus("code 3 padding > body"));
                }
                padding += 254;
            } else {
                if blen - padding < b as usize {
                    proof {
                        assert(target == Some((p as int, padding + b)));
                        assert(code3_frames(pkt@) is None);
                    }
                    return Err(Error::BadOpus("code 3 padding > body"));
                }
                padding += b as usize;
                break;
            }
        }
    }
    if padding > blen {
        return Err(Error::BadOpus("code 3 padding > body"));
    }
    let data_end = blen - padding;
    let mut frames: Vec<(usize, usize)> = Vec::new();
    if vbr {
        let mut total = 0usize;
        let mut lens: Vec<usize> = Vec::new();
        let mut k: usize = 0;
        let ghost target = vbr_scan(body@, p as int, data_end as int, m - 1, Seq::empty());
        assert(lens@.map_values(|x: usize| x as int) =~= Seq::<int>::empty());
        assert(target is None ==> code3_frames(pkt@) is None);
        while k < m - 1
            invariant
                1 <= m <= 63,
                k <= m - 1,
                blen == body@.len(),
                blen < plen,
                data_end <= blen,
                p <= blen + 2 * k + 1,
                lens@.len() == k,
                forall|j: int| 0 <= j < k ==> #[trigger] lens@[j] <= 1275,
                total == sum_prefix(lens@.map_values(|x: usize| x as int), k as int),
                total <= 1275 * k,
                vbr_scan(body@, p as int, data_end as int, (m - 1 - k) as int, lens@.map_values(
                    |x: usize| x as int,
                )) == target,
                target is None ==> code3_frames(pkt@) is None,
            decreases m - 1 - k,
        {
            let sl = if p <= data_end {
                vstd::slice::slice_subrange(body, p, data_end)
            } else {
                vstd::slice::slice_subrange(body, 0, 0)
            };
            proof {
                if !(p <= data_end) {
                    assert(sl@ =~= Seq::<u8>::empty());
                }
            }
            let (n, used) = match read_len(sl) {
                Ok(x) => x,
                Err(e) => return Err(e),
            };
            let ghost old_lens = lens@.map_values(|x: usize| x as int);
            p += used;
            total += n;
            lens.push(n);
            proof {
                assert(lens@.map_values(|x: usize| x as int) =~= old_lens.push(n as int));
                lemma_sum_prefix_step(lens@.map_values(|x: usize| x as int), k as int);
                assert(sum_prefix(lens@.map_values(|x: usize| x as int), k as int) == sum_prefix(
                    old_lens, k as int)) by {
                    lemma_sum_prefix_agree(lens@.map_values(|x: usize| x as int), old_lens, k as int);
                }
            }
            k += 1;
        }
        let ghost lens_i = lens@.map_values(|x: usize| x as int);
        assert(target == Some((p as int, lens_i)));
        if data_end < p || data_end - p < total {
            return Err(Error::BadOpus("code 3 vbr overrun"));
        }
        let last = data_end - p - total;
        lens.push(last);
        let ghost all = lens_i.push(last as int);
        assert(lens@.map_values(|x: usize| x as int) =~= all);
        proof {
            assert(sum_prefix(all, m as int) == total + last) by {
                lemma_sum_prefix_step(all, (m - 1) as int);
                lemma_sum_prefix_agree(all, lens_i, (m - 1) as int);
            }
            assert forall|j: int| 0 <= j <= m implies #[trigger] sum_prefix(all, j) <= sum_prefix(
                all, m as int) by {
                lemma_sum_prefix_mono(all, j, m as int);
            }
        }
        let mut off = p;
        let mut i: usize = 0;
        while i < lens.len()
            invariant
                i <= lens@.len(),
                lens@.len() == m,
                lens@.map_values(|x: usize| x as int) == all,
                off == p + sum_prefix(all, i as int),
                frames@.len() == i,
                forall|j: int| 0 <= j < i ==> pairs(frames@)[j] == #[trigger] laid_out(all, p as int)[j],
                p + sum_prefix(all, m as int) <= data_end,
                forall|j: int| 0 <= j <= m ==> #[trigger] sum_prefix(all, j) <= sum_prefix(all, m as int),
                data_end <= blen,
                blen < plen,
            decreases lens@.len() - i,
        {
            let n = lens[i];
            frames.push((1 + off, n));
            proof {
                lemma_sum_prefix_step(all, i as int);
                assert(pairs(frames@)[i as int] == laid_out(all, p as int)[i as int]);
            }
            off += n;
            i += 1;
        }
        proof {
            assert(pairs(frames@) =~= laid_out(all, p as int));
        }
    } else {
        if data_end < p {
            return Err(Error::BadOpus("code 3 cbr overrun"));
        }
        let region = data_end - p;
        if region % m != 0 {
            return Err(Error::BadOpus("code 3 cbr not divisible"));
        }
        let n = region / m;
        let ghost lens = Seq::new(m as nat, |i: int| (region / m) as int);
        let mut off = p;
        let mut i: usize = 0;
        while i < m
            invariant
                i <= m,
                1 <= m <= 63,
                lens.len() == m,
                forall|j: int| 0 <= j < m ==> #[trigger] lens[j] == n,
                region % m == 0,
                n == region / m,
                off == p + i * n,
                i * n <= region,
                frames@.len() == i,
                forall|j: int| 0 <= j < i ==> pairs(frames@)[j] == #[trigger] laid_out(lens, p as int)[j],
                region + p <= blen,
                blen < plen,
            decreases m - i,
        {
            proof {
                lemma_sum_prefix_const(lens, i as int, n as int);
                assert((i + 1) * n <= region) by (nonlinear_arith)
                    requires i < m, n == region / m, region % m == 0, m >= 1;
                assert((i + 1) * n == i * n + n) by (nonlinear_arith);
            }
            frames.push((1 + off, n));
            proof {
                assert(pairs(frames@)[i as int] == laid_out(lens, p as int)[i as int]) by {
                    assert(i * n == sum_prefix(lens, i as int));
                }
            }
            off += n;
            assert(off == p + (i + 1) * n) by (nonlinear_arith)
                requires off == p + i * n + n;
            i += 1;
        }
        assert(pairs(frames@) =~= laid_out(lens, p as int));
    }
    Ok(frames)
}

proof fn lemma_sum_prefix_agree(a: Seq<int>, b: Seq<int>, k: int)
    requires
        0 <= k <= a.len(),
        k <= b.len(),
        forall|j: int| 0 <= j < k ==> a[j] == b[j],
    ensures
        sum_prefix(a, k) == sum_prefix(b, k),
    decreases k,
{
    if k > 0 {
        lemma_sum_prefix_agree(a, b, k - 1);
    }
}

proof fn lemma_sum_prefix_mono(s: Seq<int>, j: int, k: int)
    requires
        0 <= j <= k <= s.len(),
        forall|i: int| 0 <= i < s.len() ==> s[i] >= 0,
    ensures
        sum_prefix(s, j) <= sum_prefix(s, k),
    decreases k - j,
{
    if j < k {
        lemma_sum_prefix_mono(s, j, k - 1);
    }
}

proof fn lemma_sum_prefix_const(s: Seq<int>, k: int, n: int)
    requires
        0 <= k <= s.len(),
        forall|j: int| 0 <= j < s.len() ==> s[j] == n,
    ensures
        sum_prefix(s, k) == k * n,
    decreases k,
{
    if k > 0 {
        lemma_sum_prefix_const(s, k - 1, n);
        assert(s[k - 1] == n);
        let a = sum_prefix(s, k - 1);
        assert(a == (k - 1) * n);
        assert(sum_prefix(s, k) == a + n);
        assert((k - 1) * n + n == k * n) by (nonlinear_arith);
    } else {
        assert(k * n == 0) by (nonlinear_arith) requires k == 0;
    }
}

proof fn lemma_pad_scan_pos(body: Seq<u8>, p: int, acc: int)
    ensures
        pad_scan(body, p, acc) matches Some((q, _)) ==> q >= p + 1,
    decreases body.len() - p,
{
    if !(p < 0 || p >= body.len()) && body[p] == 255 {
        lemma_pad_scan_pos(body, p + 1, acc + 254);
    }
}

proof fn lemma_vbr_scan_shape(body: Seq<u8>, p: int, end: int, k: int, acc: Seq<int>)
    requires
        k >= 0,
    ensures
        vbr_scan(body, p, end, k, acc) matches Some((q, lens)) ==> q >= p && lens.len() == acc.len() + k,
    decreases k,
{
    if k > 0 {
        let sl = if 0 <= p <= end <= body.len() {
            body.subrange(p, end)
        } else {
            Seq::<u8>::empty()
        };
        if let Some((n, used)) = spec_read_len(sl) {
            lemma_vbr_scan_shape(body, p + used, end, k - 1, acc.push(n));
        }
    }
}

proof fn lemma_laid_out_contiguous(lens: Seq<int>, p: int)
    ensures
        forall|i: int|
            0 <= i && i + 1 < lens.len() ==> #[trigger] laid_out(lens, p)[i].0 + laid_out(lens, p)[i].1 == laid_out(
                lens,
                p,
            )[i + 1].0,
        lens.len() >= 1 ==> laid_out(lens, p)[0].0 == 1 + p,
{
    assert forall|i: int| 0 <= i && i + 1 < lens.len() implies #[trigger] laid_out(lens, p)[i].0 + laid_out(
        lens,
        p,
    )[i].1 == laid_out(lens, p)[i + 1].0 by {
        lemma_sum_prefix_step(lens, i);
    }
}

/// The number of frames that the TOC byte and, for code 3, the frame count
/// byte announce.
pub open spec fn frame_count(pkt: Seq<u8>) -> int {
    let code = pkt[0] % 4;
    if code == 0 {
        1
    } else if code == 1 || code == 2 {
        2
    } else {
        (pkt[1] % 64) as int
    }
}

/// The frames of a packet that splits are laid end to end after the TOC
/// byte (and length bytes), as many as announced, each inside the packet and
/// at most 1275 bytes; the two frames of code 1 have the same length.
pub proof fn lemma_split_layout(pkt: Seq<u8>)
    requires
        spec_split_frames(pkt) is Some,
    ensures
        ({
            let f = spec_split_frames(pkt).unwrap();
            &&& f.len() == frame_count(pkt)
            &&& f[0].0 >= 1
            &&& forall|i: int| 0 <= i < f.len() ==> f[i].1 <= MAX_FRAME && #[trigger] f[i].0 + f[i].1 <= pkt.len()
            &&& forall|i: int| 0 <= i && i + 1 < f.len() ==> #[trigger] f[i].0 + f[i].1 == f[i + 1].0
            &&& pkt[0] % 4 == 1 ==> f[0].1 == f[1].1
        }),
{
    let f = spec_split_frames(pkt).unwrap();
    assert(raw_frames(pkt) == Some(f));
    let code = pkt[0] % 4;
    if code == 3 {
        let body = pkt.subrange(1, pkt.len() as int);
        let fc = body[0];
        let vbr = fc >= 0x80;
        let pad = (fc / 0x40) % 2 == 1;
        let m = (fc % 0x40) as int;
        assert(pkt[1] == fc);
        let padded = if pad { pad_scan(body, 1, 0) } else { Some((1int, 0int)) };
        lemma_pad_scan_pos(body, 1, 0);
        let (p, padding) = padded.unwrap();
        let data_end = body.len() - padding;
        if vbr {
            lemma_vbr_scan_shape(body, p, data_end, m - 1, Seq::empty());
            let (q, lens) = vbr_scan(body, p, data_end, m - 1, Seq::empty()).unwrap();
            let total = sum_prefix(lens, lens.len() as int);
            let all = lens.push(data_end - q - total);
            lemma_laid_out_contiguous(all, q);
            assert(f == laid_out(all, q));
        } else {
            let region = data_end - p;
            let lens = Seq::new(m as nat, |i: int| region / m);
            lemma_laid_out_contiguous(lens, p);
            assert(f == laid_out(lens, p));
        }
    }
}

/// The TOC byte of RFC 6716: configuration `toc >> 3`, stereo bit 2;
/// configurations 0 to 11 are SILK, 12 to 15 hybrid, 16 to 31 CELT; the
/// samples per frame at 48 kHz of each configuration; and for CELT the
/// frame size `lm` and the last band of its bandwidth (13, 17, 19, 21).
pub proof fn lemma_toc_table(toc: u8)
    ensures
        ({
            let c = (toc / 8) as int;
            let t = spec_toc(toc);
            &&& t.stereo == ((toc / 4) % 2 == 1)
            &&& (c < 12 <==> t.mode == FrameMode::Silk)
            &&& (12 <= c < 16 <==> t.mode == FrameMode::Hybrid)
            &&& (16 <= c <==> t.mode == FrameMode::Celt)
            &&& t.samples == seq![480int, 960, 1920, 2880, 480, 960, 1920, 2880, 480, 960, 1920, 2880, 480, 960, 480,
                960, 120, 240, 480, 960, 120, 240, 480, 960, 120, 240, 480, 960, 120, 240, 480, 960][c]
            &&& 16 <= c ==> t.lm == c % 4 && t.end == seq![13int, 17, 19, 21][(c - 16) / 4]
        }),
{
    vstd::arithmetic::power2::lemma2_to64();
    let c = (toc / 8) as int;
    assert(0 <= c < 32);
}

} // verus!
