//! Ogg page framing (RFC 3533) and the Opus stream it carries (RFC 7845):
//! pages, packets reassembled from lacing values, and the `OpusHead` header.
use vstd::prelude::*;
use vstd::arithmetic::power2::*;
use crate::error::Error;

verus! {

/// Largest packet accepted, in bytes.
pub const MAX_PACKET_LEN: usize = 0x80_0000;
/// Most packets accepted in one stream.
pub const MAX_PACKETS: usize = 0x10_0000;

/// A capture pattern `OggS` starts at `p`.
pub open spec fn is_sync(d: Seq<u8>, p: int) -> bool {
    &&& 0 <= p
    &&& p + 4 <= d.len()
    &&& d[p] == 0x4f && d[p + 1] == 0x67 && d[p + 2] == 0x67 && d[p + 3] == 0x53
}

/// The first capture pattern at or after `p`, or -1.
pub open spec fn sync_from(d: Seq<u8>, p: int) -> int
    decreases d.len() - p,
{
    if p < 0 || p + 4 > d.len() {
        -1
    } else if is_sync(d, p) {
        p
    } else {
        sync_from(d, p + 1)
    }
}

pub proof fn lemma_sync_from(d: Seq<u8>, p: int)
    requires
        0 <= p,
    ensures
        sync_from(d, p) == -1 || (p <= sync_from(d, p) && is_sync(d, sync_from(d, p))),
    decreases d.len() - p,
{
    if p + 4 <= d.len() && !is_sync(d, p) {
        lemma_sync_from(d, p + 1);
    }
}

/// Sum of the `n` lacing values from `from`.
pub open spec fn lacing_sum(d: Seq<u8>, from: int, n: int) -> int
    decreases n,
{
    if n <= 0 {
        0
    } else {
        lacing_sum(d, from, n - 1) + d[from + n - 1]
    }
}

/// The `n` bytes from `p`, little-endian.
pub open spec fn le_from(d: Seq<u8>, p: int, n: nat) -> nat
    decreases n,
{
    if n == 0 {
        0
    } else {
        d[p] as nat + 256 * le_from(d, p + 1, (n - 1) as nat)
    }
}

/// What reading a page from an offset gives.
pub enum PageStep {
    /// No further page.
    End,
    /// A page whose body runs past the data.
    Truncated,
    /// A page: granule position, lacing values and body.
    Found { granule: i64, lstart: int, nseg: int, bstart: int, blen: int },
}

/// Reads the page at `pos`, resynchronising on the next capture pattern
/// where none stands there: (offset after, outcome).
pub open spec fn page_step(d: Seq<u8>, pos: int) -> (int, PageStep)
    decreases d.len() - pos,
{
    if pos < 0 || pos + 27 > d.len() {
        (pos, PageStep::End)
    } else if !is_sync(d, pos) {
        let q = sync_from(d, pos + 1);
        if q < 0 {
            (pos, PageStep::End)
        } else {
            proof {
                lemma_sync_from(d, pos + 1);
            }
            page_step(d, q)
        }
    } else {
        let nseg = d[pos + 26] as int;
        let lstart = pos + 27;
        if lstart + nseg > d.len() {
            (pos, PageStep::End)
        } else {
            let blen = lacing_sum(d, lstart, nseg);
            let bstart = lstart + nseg;
            if bstart + blen > d.len() {
                (d.len() as int, PageStep::Truncated)
            } else {
                (
                    bstart + blen,
                    PageStep::Found { granule: le_from(d, pos + 6, 8) as i64, lstart, nseg, bstart, blen },
                )
            }
        }
    }
}

proof fn lemma_lacing_sum(d: Seq<u8>, from: int, n: int)
    requires
        0 <= from,
        0 <= n,
        from + n <= d.len(),
    ensures
        0 <= lacing_sum(d, from, n) <= 255 * n,
    decreases n,
{
    if n > 0 {
        lemma_lacing_sum(d, from, n - 1);
    }
}

/// A page found moves past its offset.
pub proof fn lemma_page_step(d: Seq<u8>, pos: int)
    requires
        0 <= pos,
    ensures
        page_step(d, pos).1 is Found ==> page_step(d, pos).0 >= pos + 27,
        page_step(d, pos).1 is Found ==> page_step(d, pos).0 <= d.len(),
        page_step(d, pos).1 is End ==> pos <= page_step(d, pos).0 <= d.len() || page_step(d, pos).0 == pos,
        page_step(d, pos).1 is Truncated ==> page_step(d, pos).0 == d.len(),
        page_step(d, pos).1 matches PageStep::Found { granule, lstart, nseg, bstart, blen } ==> 27 <= lstart && 0
            <= nseg <= 255 && lstart + nseg <= d.len() && bstart == lstart + nseg && blen == lacing_sum(
            d,
            lstart,
            nseg,
        ) && bstart + blen == page_step(d, pos).0,
    decreases d.len() - pos,
{
    if pos + 27 <= d.len() {
        if !is_sync(d, pos) {
            let q = sync_from(d, pos + 1);
            lemma_sync_from(d, pos + 1);
            if q >= 0 {
                lemma_page_step(d, q);
            }
        } else {
            let nseg = d[pos + 26] as int;
            if pos + 27 + nseg <= d.len() {
                lemma_lacing_sum(d, pos + 27, nseg);
            }
        }
    }
}

/// One Ogg page: its granule position, lacing values and body.
pub struct Page<'a> {
    pub granule: i64,
    pub lacing: &'a [u8],
    pub body: &'a [u8],
}

/// Reads the pages of a byte buffer one after the other.
pub struct PageReader<'a> {
    pub data: &'a [u8],
    pub pos: usize,
}

impl<'a> PageReader<'a> {
    pub fn new(data: &'a [u8]) -> (r: Self)
        ensures
            r.data@ == data@,
            r.pos == 0,
    {
        PageReader { data, pos: 0 }
    }

    /// The next page: `None` at the end, an error for a page cut short
    /// (after which the reader stands at the end).
    pub fn next_page(&mut self) -> (r: Option<Result<Page<'a>, Error>>)
        requires
            old(self).pos <= old(self).data@.len(),
        ensures
            final(self).data@ == old(self).data@,
            ({
                let (np, step) = page_step(old(self).data@, old(self).pos as int);
                &&& final(self).pos == np
                &&& match step {
                    PageStep::End => r is None,
                    PageStep::Truncated => r matches Some(Err(Error::BadOgg(m))) && m@ == "truncated body"@,
                    PageStep::Found { granule, lstart, nseg, bstart, blen } => r matches Some(Ok(pg))
                        && pg.granule == granule && pg.lacing@ == old(self).data@.subrange(lstart, lstart + nseg)
                        && pg.body@ == old(self).data@.subrange(bstart, bstart + blen),
                }
            }),
            final(self).pos <= final(self).data@.len(),
    {
        let d = self.data;
        let len = d.len();
        let ghost pos0 = self.pos as int;
        loop
            invariant
                d@ == self.data@,
                d@ == old(self).data@,
                pos0 == old(self).pos,
                len == d@.len(),
                self.pos <= len,
                page_step(d@, pos0) == page_step(d@, self.pos as int),
            decreases len - self.pos,
        {
            let pos = self.pos;
            if pos > len || len - pos < 27 {
                return None;
            }
            if !(d[pos] == 0x4f && d[pos + 1] == 0x67 && d[pos + 2] == 0x67 && d[pos + 3] == 0x53) {
                let mut q = pos + 1;
                let mut found = false;
                while len >= 4 && q <= len - 4 && !found
                    invariant
                        d@ == self.data@,
                        len == d@.len(),
                        pos + 1 <= q <= len,
                        self.pos == pos,
                        !found ==> sync_from(d@, pos + 1) == sync_from(d@, q as int),
                        found ==> is_sync(d@, q as int) && sync_from(d@, pos + 1) == q,
                    decreases len - q + if found { 0int } else { 1int },
                {
                    if d[q] == 0x4f && d[q + 1] == 0x67 && d[q + 2] == 0x67 && d[q + 3] == 0x53 {
                        found = true;
                    } else {
                        q += 1;
                    }
                }
                if !found {
                    return None;
                }
                self.pos = q;
                continue;
            }
            let nseg = d[pos + 26] as usize;
            let lstart = pos + 27;
            if nseg > len - lstart {
                return None;
            }
            let mut blen: usize = 0;
            let mut k: usize = 0;
            while k < nseg
                invariant
                    d@ == self.data@,
                    len == d@.len(),
                    lstart + nseg <= len,
                    nseg <= 255,
                    k <= nseg,
                    blen == lacing_sum(d@, lstart as int, k as int),
                    blen <= 255 * k,
                decreases nseg - k,
            {
                blen += d[lstart + k] as usize;
                k += 1;
            }
            let bstart = lstart + nseg;
            if blen > len - bstart {
                self.pos = len;
                return Some(Err(Error::BadOgg("truncated body")));
            }
            let mut g: u64 = 0;
            let mut i: usize = 8;
            proof {
                lemma2_to64();
            }
            while i > 0
                invariant
                    d@ == self.data@,
                    len == d@.len(),
                    pos + 27 <= len,
                    i <= 8,
                    g as nat == le_from(d@, pos + 6 + i, (8 - i) as nat),
                    g < pow2((8 * (8 - i)) as nat),
                decreases i,
            {
                proof {
                    lemma_pow2_adds((8 * (8 - i)) as nat, 8);
                    lemma2_to64();
                    if 8 * (8 - i) < 56 {
                        lemma_pow2_strictly_increases((8 * (8 - i)) as nat, 56);
                    }
                    assert(g * 256 + 255 < pow2((8 * (8 - i)) as nat) * 256) by (nonlinear_arith)
                        requires g < pow2((8 * (8 - i)) as nat);
                    lemma2_to64_rest();
                    if 8 * (8 - i) + 8 < 64 {
                        lemma_pow2_strictly_increases((8 * (8 - i) + 8) as nat, 64);
                    }
                }
                i -= 1;
                g = g * 256 + d[pos + 6 + i] as u64;
            }
            let granule = g as i64;
            let lacing = &d[lstart..lstart + nseg];
            let body = &d[bstart..bstart + blen];
            self.pos = bstart + blen;
            return Some(Ok(Page { granule, lacing, body }));
        }
    }
}

/// Why reassembly stopped.
pub enum ReasmError {
    Truncated,
    TooLarge,
    TooMany,
}

/// Packets completed so far, the packet being assembled, and the last
/// granule position seen.
pub struct Reasm {
    pub packets: Seq<Seq<u8>>,
    pub cur: Seq<u8>,
    pub last_granule: i64,
}

/// Appends the segments `k..nseg` of a page to the packets: a segment of
/// fewer than 255 bytes ends a packet.
pub open spec fn lace_loop(
    d: Seq<u8>,
    lstart: int,
    nseg: int,
    bstart: int,
    k: int,
    off: int,
    st: Reasm,
) -> Result<Reasm, ReasmError>
    decreases nseg - k,
{
    if k >= nseg {
        Ok(st)
    } else {
        let l = d[lstart + k] as int;
        if st.cur.len() + l > MAX_PACKET_LEN {
            Err(ReasmError::TooLarge)
        } else {
            let cur2 = st.cur + d.subrange(bstart + off, bstart + off + l);
            if l < 255 {
                if st.packets.len() >= MAX_PACKETS {
                    Err(ReasmError::TooMany)
                } else {
                    lace_loop(
                        d,
                        lstart,
                        nseg,
                        bstart,
                        k + 1,
                        off + l,
                        Reasm { packets: st.packets.push(cur2), cur: Seq::empty(), last_granule: st.last_granule },
                    )
                }
            } else {
                lace_loop(d, lstart, nseg, bstart, k + 1, off + l, Reasm { cur: cur2, ..st })
            }
        }
    }
}

/// Reassembles the packets of the pages from offset `pos` on.
pub open spec fn reasm_from(d: Seq<u8>, pos: int, st: Reasm) -> Result<Reasm, ReasmError>
    decreases d.len() - pos,
{
    if pos < 0 {
        Ok(st)
    } else {
        let (np, step) = page_step(d, pos);
        match step {
            PageStep::End => Ok(st),
            PageStep::Truncated => Err(ReasmError::Truncated),
            PageStep::Found { granule, lstart, nseg, bstart, blen } => {
                let st1 = if granule >= 0 { Reasm { last_granule: granule, ..st } } else { st };
                match lace_loop(d, lstart, nseg, bstart, 0, 0, st1) {
                    Err(e) => Err(e),
                    Ok(st2) => {
                        proof {
                            lemma_page_step(d, pos);
                        }
                        reasm_from(d, np, st2)
                    },
                }
            },
        }
    }
}

pub open spec fn reasm_error_message(e: ReasmError) -> Seq<char> {
    match e {
        ReasmError::Truncated => "truncated body"@,
        ReasmError::TooLarge => "packet too large"@,
        ReasmError::TooMany => "too many packets"@,
    }
}

proof fn lemma_lacing_sum_mono(d: Seq<u8>, from: int, a: int, b: int)
    requires
        0 <= a <= b,
        0 <= from,
        from + b <= d.len(),
    ensures
        lacing_sum(d, from, a) <= lacing_sum(d, from, b),
    decreases b - a,
{
    if a < b {
        lemma_lacing_sum_mono(d, from, a, b - 1);
    }
}

/// The packets of an Ogg stream and the last non-negative granule position;
/// an unfinished last packet is dropped.
fn reassemble(data: &[u8]) -> (r: Result<(Vec<Vec<u8>>, i64), Error>)
    ensures
        match reasm_from(data@, 0, Reasm { packets: Seq::empty(), cur: Seq::empty(), last_granule: 0 }) {
            Ok(st) => r matches Ok((ps, g)) && ps.deep_view() == st.packets && g == st.last_granule,
            Err(e) => r matches Err(Error::BadOgg(m)) && m@ == reasm_error_message(e),
        },
{
    let mut packets: Vec<Vec<u8>> = Vec::new();
    let mut cur: Vec<u8> = Vec::new();
    let mut last_granule: i64 = 0;
    let dlen = data.len();
    let mut rdr = PageReader::new(data);
    let ghost d = data@;
    let ghost init = Reasm { packets: Seq::empty(), cur: Seq::empty(), last_granule: 0 };
    assert(packets.deep_view() =~= Seq::<Seq<u8>>::empty());
    let mut fin = false;
    while !fin
        invariant
            rdr.data@ == d,
            d == data@,
            init == (Reasm { packets: Seq::empty(), cur: Seq::empty(), last_granule: 0 }),
            dlen == d.len(),
            rdr.pos <= d.len(),
            cur@.len() <= MAX_PACKET_LEN,
            packets@.len() <= MAX_PACKETS,
            !fin ==> reasm_from(d, 0, init) == reasm_from(
                d,
                rdr.pos as int,
                Reasm { packets: packets.deep_view(), cur: cur@, last_granule },
            ),
            fin ==> reasm_from(d, 0, init) == Ok::<Reasm, ReasmError>(
                Reasm { packets: packets.deep_view(), cur: cur@, last_granule },
            ),
        decreases d.len() - rdr.pos + if fin { 0int } else { 1int },
    {
        let ghost pos = rdr.pos as int;
        let ghost (np, step) = page_step(d, pos);
        proof {
            lemma_page_step(d, pos);
        }
        let res = rdr.next_page();
        match res {
            None => {
                assert(step is End);
                fin = true;
            },
            Some(Err(e)) => {
                assert(step is Truncated);
                assert(reasm_from(d, pos, Reasm { packets: packets.deep_view(), cur: cur@, last_granule })
                    == Err::<Reasm, ReasmError>(ReasmError::Truncated));
                assert(reasm_from(d, 0, init) == Err::<Reasm, ReasmError>(ReasmError::Truncated));
                assert(e matches Error::BadOgg(m) && m@ == "truncated body"@);
                return Err(e);
            },
            Some(Ok(pg)) => {
                assert(step is Found);
                let ghost lstart = step->lstart;
                let ghost nseg = step->nseg;
                let ghost bstart = step->bstart;
                if pg.granule >= 0 {
                    last_granule = pg.granule;
                }
                let ghost st1 = Reasm { packets: packets.deep_view(), cur: cur@, last_granule };
                assert(reasm_from(d, 0, init) == match lace_loop(d, lstart, nseg, bstart, 0, 0, st1) {
                    Err(e) => Err(e),
                    Ok(st2) => reasm_from(d, np, st2),
                });
                let nl = pg.lacing.len();
                let mut off: usize = 0;
                let mut k: usize = 0;
                proof {
                    lemma_lacing_sum(d, lstart, nseg);
                }
                while k < nl
                    invariant
                        rdr.data@ == d,
                        d == data@,
                        init == (Reasm { packets: Seq::empty(), cur: Seq::empty(), last_granule: 0 }),
                        dlen == d.len(),
                        rdr.pos == np,
                        np <= d.len(),
                        nl == nseg,
                        pg.lacing@ == d.subrange(lstart, lstart + nseg),
                        pg.body@ == d.subrange(bstart, bstart + lacing_sum(d, lstart, nseg)),
                        27 <= lstart && 0 <= nseg && lstart + nseg <= d.len(),
                        bstart == lstart + nseg,
                        bstart + lacing_sum(d, lstart, nseg) <= d.len(),
                        k <= nl,
                        off == lacing_sum(d, lstart, k as int),
                        cur@.len() <= MAX_PACKET_LEN,
                        packets@.len() <= MAX_PACKETS,
                        reasm_from(d, 0, init) == match lace_loop(d, lstart, nseg, bstart, 0, 0, st1) {
                            Err(e) => Err(e),
                            Ok(st2) => reasm_from(d, np, st2),
                        },
                        lace_loop(d, lstart, nseg, bstart, 0, 0, st1) == lace_loop(
                            d,
                            lstart,
                            nseg,
                            bstart,
                            k as int,
                            off as int,
                            Reasm { packets: packets.deep_view(), cur: cur@, last_granule },
                        ),
                    decreases nl - k,
                {
                    proof {
                        lemma_lacing_sum_mono(d, lstart, (k + 1) as int, nseg);
                        lemma_lacing_sum(d, lstart, k as int);
                    }
                    let l = pg.lacing[k] as usize;
                    assert(l == d[lstart + k]);
                    assert(off + l == lacing_sum(d, lstart, k + 1));
                    if cur.len() + l > MAX_PACKET_LEN {
                        assert(lace_loop(d, lstart, nseg, bstart, k as int, off as int,
                            Reasm { packets: packets.deep_view(), cur: cur@, last_granule })
                            == Err::<Reasm, ReasmError>(ReasmError::TooLarge));
                        return Err(Error::BadOgg("packet too large"));
                    }
                    let ghost cur0 = cur@;
                    cur.extend_from_slice(&pg.body[off..off + l]);
                    assert(cur@ =~= cur0 + d.subrange(bstart + off, bstart + off + l));
                    off += l;
                    if l < 255 {
                        if packets.len() >= MAX_PACKETS {
                            assert(lace_loop(d, lstart, nseg, bstart, k as int, (off - l) as int,
                                Reasm { packets: packets.deep_view(), cur: cur0, last_granule })
                                == Err::<Reasm, ReasmError>(ReasmError::TooMany));
                            return Err(Error::BadOgg("too many packets"));
                        }
                        let ghost p0 = packets.deep_view();
                        let done = cur;
                        assert(done.deep_view() =~= done@);
                        cur = Vec::new();
                        packets.push(done);
                        assert(packets.deep_view() =~= p0.push(done@));
                    }
                    k += 1;
                }
            },
        }
    }
    Ok((packets, last_granule))
}

/// The identification header of an Opus stream.
pub struct OpusHead {
    pub channels: u8,
    pub pre_skip: u16,
    pub output_gain: i16,
}

/// An Opus stream: its header, its audio packets, and its length in
/// samples at 48 kHz.
pub struct OpusStream {
    pub head: OpusHead,
    pub packets: Vec<Vec<u8>>,
    pub total_samples: u64,
}

/// The bytes of `OpusHead`.
pub open spec fn opus_head_magic() -> Seq<u8> {
    seq![0x4f, 0x70, 0x75, 0x73, 0x48, 0x65, 0x61, 0x64]
}

/// An identification header: at least 19 bytes starting with `OpusHead`.
pub open spec fn is_opus_head(h: Seq<u8>) -> bool {
    h.len() >= 19 && h.subrange(0, 8) == opus_head_magic()
}

impl OpusStream {
    /// Reads an Ogg Opus stream: the identification header from the first
    /// packet, the audio packets from the third on, and the sample count
    /// from the last granule position less the pre-skip.
    pub fn parse(data: &[u8]) -> (r: Result<OpusStream, Error>)
        ensures
            match reasm_from(data@, 0, Reasm { packets: Seq::empty(), cur: Seq::empty(), last_granule: 0 }) {
                Err(e) => r matches Err(Error::BadOgg(m)) && m@ == reasm_error_message(e),
                Ok(st) => if st.packets.len() < 2 {
                    r matches Err(Error::BadOpus(m)) && m@ == "too few packets"@
                } else if !is_opus_head(st.packets[0]) {
                    r matches Err(Error::BadOpus(m)) && m@ == "no OpusHead"@
                } else {
                    let h = st.packets[0];
                    let pre_skip = h[10] + 256 * h[11];
                    r matches Ok(s) && s.head.channels == h[9] && s.head.pre_skip == pre_skip
                        && s.head.output_gain == (h[16] + 256 * h[17]) as i16 && s.packets.deep_view()
                        == st.packets.skip(2) && s.total_samples == if (st.last_granule as u64) >= pre_skip {
                        (st.last_granule as u64) - pre_skip
                    } else {
                        0
                    }
                },
            },
    {
        let (mut packets, last_granule) = match reassemble(data) {
            Ok(v) => v,
            Err(e) => {
                return Err(e);
            },
        };
        if packets.len() < 2 {
            return Err(Error::BadOpus("too few packets"));
        }
        let ghost ps = packets.deep_view();
        let h = &packets[0];
        assert(h@ == ps[0]) by {
            assert(h.deep_view() =~= h@);
        }
        if h.len() < 19 || !(h[0] == 0x4f && h[1] == 0x70 && h[2] == 0x75 && h[3] == 0x73 && h[4] == 0x48
            && h[5] == 0x65 && h[6] == 0x61 && h[7] == 0x64) {
            proof {
                if h@.len() >= 19 {
                    assert(h@.subrange(0, 8) != opus_head_magic()) by {
                        if h@.subrange(0, 8) == opus_head_magic() {
                            assert(h@.subrange(0, 8)[0] == h@[0]);
                            assert(h@.subrange(0, 8)[7] == h@[7]);
                        }
                    }
                }
            }
            return Err(Error::BadOpus("no OpusHead"));
        }
        assert(h@.subrange(0, 8) =~= opus_head_magic());
        let head = OpusHead {
            channels: h[9],
            pre_skip: h[10] as u16 + 256 * h[11] as u16,
            output_gain: (h[16] as u16 + 256 * h[17] as u16) as i16,
        };
        let audio = packets.split_off(2);
        assert(audio.deep_view() =~= ps.skip(2));
        let g = last_granule as u64;
        let total_samples = if g >= head.pre_skip as u64 { g - head.pre_skip as u64 } else { 0 };
        Ok(OpusStream { head, packets: audio, total_samples })
    }
}

/// How many of the lacing values `k .. nseg` are below 255.
pub open spec fn short_laces(d: Seq<u8>, lstart: int, k: int, nseg: int) -> int
    decreases nseg - k,
{
    if k >= nseg {
        0
    } else {
        (if d[lstart + k] < 255 { 1int } else { 0 }) + short_laces(d, lstart, k + 1, nseg)
    }
}

/// The sum of the lacing values `k .. nseg`.
pub open spec fn laces_total(d: Seq<u8>, lstart: int, k: int, nseg: int) -> int
    decreases nseg - k,
{
    if k >= nseg {
        0
    } else {
        d[lstart + k] + laces_total(d, lstart, k + 1, nseg)
    }
}

/// Packets laid end to end.
pub open spec fn flat(ps: Seq<Seq<u8>>) -> Seq<u8>
    decreases ps.len(),
{
    if ps.len() == 0 {
        Seq::empty()
    } else {
        flat(ps.drop_last()) + ps.last()
    }
}

proof fn lemma_laces_nonneg(d: Seq<u8>, lstart: int, k: int, nseg: int)
    ensures
        short_laces(d, lstart, k, nseg) >= 0,
        laces_total(d, lstart, k, nseg) >= 0,
    decreases nseg - k,
{
    if k < nseg {
        lemma_laces_nonneg(d, lstart, k + 1, nseg);
    }
}

/// Laying out the segments of a page: the packets before are kept, one
/// packet is completed for each lacing value below 255 and for no other
/// (a value of 255 continues the packet), and no byte is lost or added:
/// the packets completed and the one still open hold, in order, the open
/// packet from before followed by the page's segment bytes. So a lacing
/// value of 255 never ends a packet, and a page laced `[255, 65]` with
/// nothing open yields one packet of 320 bytes.
pub proof fn lemma_lacing_law(d: Seq<u8>, lstart: int, nseg: int, bstart: int, k: int, off: int, st: Reasm)
    requires
        0 <= lstart,
        lstart + nseg <= d.len(),
        0 <= k,
        0 <= bstart,
        0 <= off,
        bstart + off + laces_total(d, lstart, k, nseg) <= d.len(),
        lace_loop(d, lstart, nseg, bstart, k, off, st) is Ok,
    ensures
        ({
            let st2 = lace_loop(d, lstart, nseg, bstart, k, off, st)->Ok_0;
            &&& st2.packets.len() == st.packets.len() + short_laces(d, lstart, k, nseg)
            &&& st2.packets.take(st.packets.len() as int) == st.packets
            &&& flat(st2.packets) + st2.cur == flat(st.packets) + st.cur + d.subrange(bstart + off, bstart + off
                + laces_total(d, lstart, k, nseg))
        }),
    decreases nseg - k,
{
    if k >= nseg {
        assert(st.packets.take(st.packets.len() as int) =~= st.packets);
        assert(d.subrange(bstart + off, bstart + off) =~= Seq::<u8>::empty());
        assert(flat(st.packets) + st.cur + Seq::<u8>::empty() =~= flat(st.packets) + st.cur);
    } else {
        let l = d[lstart + k] as int;
        let piece = d.subrange(bstart + off, bstart + off + l);
        let cur2 = st.cur + piece;
        let rest = laces_total(d, lstart, k + 1, nseg);
        lemma_laces_nonneg(d, lstart, k + 1, nseg);
        assert(laces_total(d, lstart, k, nseg) == l + rest);
        assert(d.subrange(bstart + off, bstart + off + l + rest) =~= piece + d.subrange(bstart + off + l, bstart
            + off + l + rest));
        if l < 255 {
            let st1 = Reasm { packets: st.packets.push(cur2), cur: Seq::empty(), last_granule: st.last_granule };
            lemma_lacing_law(d, lstart, nseg, bstart, k + 1, off + l, st1);
            let st2 = lace_loop(d, lstart, nseg, bstart, k, off, st)->Ok_0;
            assert(st1.packets.drop_last() =~= st.packets);
            assert(flat(st1.packets) == flat(st.packets) + cur2);
            assert(st2.packets.take(st.packets.len() as int) =~= st2.packets.take(st1.packets.len() as int).take(
                st.packets.len() as int));
            assert(st1.packets.take(st.packets.len() as int) =~= st.packets);
            assert(flat(st1.packets) + st1.cur =~= flat(st.packets) + st.cur + piece);
            assert(flat(st.packets) + st.cur + piece + d.subrange(bstart + off + l, bstart + off + l + rest)
                =~= flat(st.packets) + st.cur + d.subrange(bstart + off, bstart + off + l + rest));
        } else {
            let st1 = Reasm { cur: cur2, ..st };
            lemma_lacing_law(d, lstart, nseg, bstart, k + 1, off + l, st1);
            assert(flat(st.packets) + cur2 + d.subrange(bstart + off + l, bstart + off + l + rest)
                =~= flat(st.packets) + st.cur + d.subrange(bstart + off, bstart + off + l + rest));
        }
    }
}

proof fn lemma_lacing_sum_total(d: Seq<u8>, from: int, n: int)
    requires
        0 <= n,
    ensures
        lacing_sum(d, from, n) == laces_total(d, from, 0, n),
    decreases n,
{
    if n > 0 {
        lemma_lacing_sum_total(d, from, n - 1);
        lemma_laces_total_last(d, from, 0, n);
    }
}

proof fn lemma_laces_total_last(d: Seq<u8>, from: int, k: int, n: int)
    requires
        0 <= k < n,
    ensures
        laces_total(d, from, k, n) == laces_total(d, from, k, n - 1) + d[from + n - 1],
    decreases n - k,
{
    if k + 1 < n {
        lemma_laces_total_last(d, from, k + 1, n);
    } else {
        assert(laces_total(d, from, k + 1, n) == 0);
        assert(laces_total(d, from, k, n - 1) == 0);
    }
}

/// A page that is read stands at a capture pattern `OggS` at or after the
/// offset it is looked for from; its segment count is the header's byte
/// 26, its lacing values follow the 27-byte header, its body follows them
/// and is as long as their sum, the next page is looked for right after the
/// body, and its granule position is the header's bytes 6 to 13,
/// little-endian.
pub proof fn lemma_page_law(d: Seq<u8>, pos: int)
    requires
        0 <= pos,
    ensures
        page_step(d, pos).1 matches PageStep::Found { granule, lstart, nseg, bstart, blen } ==> ({
            let q = lstart - 27;
            &&& pos <= q
            &&& d[q] == 0x4f && d[q + 1] == 0x67 && d[q + 2] == 0x67 && d[q + 3] == 0x53
            &&& nseg == d[q + 26]
            &&& bstart == q + 27 + nseg
            &&& blen == laces_total(d, q + 27, 0, nseg)
            &&& page_step(d, pos).0 == bstart + blen
            &&& granule == (d[q + 6] + 0x100 * d[q + 7] + 0x1_0000 * d[q + 8] + 0x100_0000 * d[q + 9] + 0x1_0000_0000
                * d[q + 10] + 0x100_0000_0000 * d[q + 11] + 0x1_0000_0000_0000 * d[q + 12] + 0x100_0000_0000_0000
                * d[q + 13]) as i64
        }),
    decreases d.len() - pos,
{
    if pos + 27 <= d.len() {
        if !is_sync(d, pos) {
            let q = sync_from(d, pos + 1);
            lemma_sync_from(d, pos + 1);
            if q >= 0 {
                lemma_page_law(d, q);
            }
        } else {
            let nseg = d[pos + 26] as int;
            lemma_lacing_sum_total(d, pos + 27, nseg);
            reveal_with_fuel(le_from, 9);
        }
    }
}

} // verus!
