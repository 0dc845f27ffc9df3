//! A whole band: its time-frequency change reshapes the blocks (and the
//! fold mask) before the band's shape is read, and the collapse mask is
//! brought back to the band's own blocks after it.
use vstd::prelude::*;
use vstd::arithmetic::power2::pow2;
use crate::opus::range::{RangeDecoder, RangeState, BITS_LIMIT, spec_dec_bits};
use crate::opus::celt::theta::{ThetaSplit, compute_theta, lemma_theta_fill, rebalance, split_bits, split_bits_spec, theta_spec};
use crate::opus::celt::partition::{Partition, decode_partition, partition_pre, partition_spec, tree_ok};
use crate::opus::celt::rate::PulseCache;
use crate::arith::pow2_i32;

verus! {

/// The interleave table for fold masks: two bits of a nibble to one.
pub open spec fn interleave_table() -> Seq<i32> {
    seq![0i32, 1, 1, 1, 2, 3, 3, 3, 2, 3, 3, 3, 2, 3, 3, 3]
}

/// The deinterleave table for collapse masks: each bit doubled.
pub open spec fn deinterleave_table() -> Seq<u32> {
    seq![0x00u32, 0x03, 0x0C, 0x0F, 0x30, 0x33, 0x3C, 0x3F, 0xC0, 0xC3, 0xCC, 0xCF, 0xF0, 0xF3, 0xFC, 0xFF]
}

/// The fold mask after `k` rounds of recombining blocks in pairs: each
/// round maps the low and the high nibble through the interleave table.
pub open spec fn recombine_fill(fill: int, k: int) -> int
    decreases k,
{
    if k <= 0 {
        fill
    } else {
        let f = recombine_fill(fill, k - 1);
        interleave_table()[f % 16] + 4 * interleave_table()[f / 16]
    }
}

/// Splitting blocks in time while the block length is even and the
/// change asks for it: (fold mask, blocks, block length, rounds).
pub open spec fn divide_spec(fill: i32, blocks: int, len: int, tf: int) -> (i32, int, int, int)
    decreases (if tf < 0 { -tf } else { 0 }),
{
    if len % 2 == 0 && tf < 0 {
        let (f, b, l, t) = divide_spec(fill | (fill << (blocks as u32)), 2 * blocks, len / 2, tf + 1);
        (f, b, l, t + 1)
    } else {
        (fill, blocks, len, 0)
    }
}

/// Undoing `td` time splits on the collapse mask: (mask, blocks).
pub open spec fn undivide_spec(cm: u32, blocks: int, td: int) -> (u32, int)
    decreases td,
{
    if td <= 0 {
        (cm, blocks)
    } else {
        let b2 = blocks / 2;
        undivide_spec(cm | (cm >> (b2 as u32)), b2, td - 1)
    }
}

/// `k` rounds of the deinterleave table on the collapse mask; a mask that
/// the table does not cover is left as it is.
pub open spec fn deinterleave_spec(cm: u32, k: int) -> u32
    decreases k,
{
    if k <= 0 {
        cm
    } else {
        let c = deinterleave_spec(cm, k - 1);
        if c < 16 { deinterleave_table()[c as int] } else { c }
    }
}

/// The shape of a band of `n` samples in `bparam` blocks whose
/// time-frequency resolution changes by `tf_change`: recombine (for a
/// positive change) or split (for a negative one) the blocks, read the
/// shape on the new blocks, and map the collapse mask back onto the
/// band's blocks.
pub open spec fn band_spec(
    s: crate::opus::range::RangeState,
    cache: &PulseCache,
    nb: int,
    band: int,
    log_n: int,
    n: int,
    b: int,
    bparam: int,
    tf_change: int,
    has_lowband: bool,
    lm: int,
    fill: int,
    remaining: int,
    seed: u32,
) -> (crate::opus::range::RangeState, Seq<i32>, Seq<i32>, u32, int, u32) {
    let rc = if tf_change > 0 { tf_change } else { 0 };
    let f1 = recombine_fill(fill, rc);
    let b1 = bparam / pow2(rc as nat) as int;
    let len1 = (n / bparam) * pow2(rc as nat);
    let (f2, b2, len2, td) = divide_spec(f1 as i32, b1, len1, tf_change);
    let p = partition_spec(s, cache, nb, band, log_n, n, b, b2, has_lowband, lm, f2, remaining, seed);
    let (cm1, bb1) = undivide_spec(p.3, b2, td);
    let cm2 = deinterleave_spec(cm1, rc);
    let bb = bb1 * pow2(rc as nat);
    (p.0, p.1, p.2, cm2 & ((pow2(bb as nat) - 1) as u32), p.4, p.5)
}

/// Decodes a band of `n` samples in `bparam` blocks whose time-frequency
/// resolution changes by `tf_change` (see `band_spec`), with `fill` its
/// fold mask; the rest as for `decode_partition`.
#[verifier::rlimit(50)]
pub fn decode_band(
    rd: &mut RangeDecoder,
    cache: &PulseCache,
    nb: usize,
    band: usize,
    log_n: i32,
    n: usize,
    b: i32,
    bparam: i32,
    tf_change: i32,
    has_lowband: bool,
    lm: i32,
    fill: i32,
    remaining: i32,
    seed: u32,
) -> (r: Partition)
    requires
        partition_pre(old(rd)@, cache, nb as int, band as int, log_n as int, n as int, b as int, 1, lm as int,
            remaining as int),
        bparam == 1 || bparam == 2 || bparam == 4 || bparam == 8,
        -3 <= tf_change <= 3,
        tf_change > 0 ==> pow2(tf_change as nat) <= bparam,
        tf_change < 0 ==> bparam * pow2((-tf_change) as nat) <= 16,
        0 <= fill < 256,
    ensures
        final(rd)@.wf(),
        final(rd)@.storage == old(rd)@.storage,
        final(rd)@.nbits_total <= old(rd)@.nbits_total + 128 * n - 64,
        (final(rd)@, r.pulses@, r.thetas@, r.cm, r.remaining as int, r.seed) == band_spec(old(rd)@, cache,
            nb as int, band as int, log_n as int, n as int, b as int, bparam as int, tf_change as int, has_lowband,
            lm as int, fill as int, remaining as int, seed),
        remaining - (2000 * n - 600) <= r.remaining <= remaining + (2000 * n - 600),
        r.pulses@.len() == n,
{
    let il: [i32; 16] = [0, 1, 1, 1, 2, 3, 3, 3, 2, 3, 3, 3, 2, 3, 3, 3];
    let deil: [u32; 16] = [0x00, 0x03, 0x0C, 0x0F, 0x30, 0x33, 0x3C, 0x3F, 0xC0, 0xC3, 0xCC, 0xCF, 0xF0, 0xF3, 0xFC, 0xFF];
    assert(il@ =~= interleave_table());
    assert(deil@ =~= deinterleave_table());
    proof {
        vstd::arithmetic::power2::lemma2_to64();
        reveal(partition_pre);
        crate::opus::celt::partition::lemma_tree_facts(cache, nb as int, band as int, n as int, lm as int);
    }
    let rc: i32 = if tf_change > 0 { tf_change } else { 0 };
    let mut f: i32 = fill;
    let mut k: i32 = 0;
    while k < rc
        invariant
            0 <= k <= rc <= 3,
            il@ == interleave_table(),
            f as int == recombine_fill(fill as int, k as int),
            0 <= f < 256,
            k > 0 ==> f < 16,
        decreases rc - k,
    {
        let lo = il[(f % 16) as usize];
        let hi = il[(f / 16) as usize];
        assert(0 <= lo <= 3 && 0 <= hi <= 3);
        f = lo + 4 * hi;
        k = k + 1;
    }
    let p2 = pow2_i32(rc as u32);
    proof {
        assert(p2 <= 8) by {
            assert(rc == 0 || rc == 1 || rc == 2 || rc == 3);
        }
    }
    let b1 = bparam / p2;
    let q: i64 = n as i64 / bparam as i64;
    proof {
        assert(0 <= q <= 256) by (nonlinear_arith)
            requires q == n as int / bparam as int, n <= 256, bparam >= 1;
    }
    let len1: i64 = q * p2 as i64;
    proof {
        if tf_change > 0 {
            vstd::arithmetic::div_mod::lemma_div_pos_is_pos(bparam as int, p2 as int);
            assert(b1 >= 1);
        }
        assert(0 <= len1 <= 256 * 8) by (nonlinear_arith)
            requires len1 == q * p2, 0 <= q <= 256, p2 <= 8, p2 >= 1;
    }
    let ghost target = divide_spec(f, b1 as int, len1 as int, tf_change as int);
    let mut g: i32 = f;
    let mut blk: i32 = b1;
    let mut len: i64 = len1;
    let mut tf: i32 = tf_change;
    let mut td: i32 = 0;
    while len % 2 == 0 && tf < 0
        invariant
            -3 <= tf <= 3,
            -3 <= tf_change <= 3,
            tf_change <= tf,
            0 <= td <= 3,
            td == tf - tf_change,
            0 <= len <= 2048,
            1 <= blk <= 16,
            tf < 0 ==> blk * pow2((-tf) as nat) <= 16,
            tf_change > 0 ==> td == 0 && tf == tf_change,
            ({
                let (f2, b2, l2, t2) = divide_spec(g, blk as int, len as int, tf as int);
                target == (f2, b2, l2, t2 + td)
            }),
        decreases -tf,
    {
        proof {
            vstd::arithmetic::power2::lemma_pow2_unfold((-tf) as nat);
            vstd::arithmetic::power2::lemma_pow2_pos((-tf - 1) as nat);
            assert(blk * pow2((-tf) as nat) == 2 * blk * pow2((-tf - 1) as nat)) by (nonlinear_arith)
                requires pow2((-tf) as nat) == 2 * pow2((-tf - 1) as nat);
            assert(2 * blk <= 16) by (nonlinear_arith)
                requires 2 * blk * pow2((-tf - 1) as nat) <= 16, pow2((-tf - 1) as nat) >= 1, blk >= 1;
        }
        g = g | (g << (blk as u32));
        blk = 2 * blk;
        len = len / 2;
        tf = tf + 1;
        td = td + 1;
    }
    proof {
        reveal(partition_pre);
        assert(divide_spec(g, blk as int, len as int, tf as int) == (g, blk as int, len as int, 0int));
    }
    let p = decode_partition(rd, cache, nb, band, log_n, n, b, blk, has_lowband, lm, g, remaining, seed);
    let ghost cm0 = p.cm;
    let mut cm: u32 = p.cm;
    let mut bb: i32 = blk;
    let mut j: i32 = 0;
    while j < td
        invariant
            0 <= j <= td <= 3,
            0 <= bb <= 16,
            undivide_spec(cm0, blk as int, td as int) == undivide_spec(cm, bb as int, (td - j) as int),
            tf_change > 0 ==> td == 0,
            bb <= blk,
        decreases td - j,
    {
        bb = bb / 2;
        cm = cm | (cm >> (bb as u32));
        j = j + 1;
    }
    let ghost cm1 = cm;
    let mut k2: i32 = 0;
    while k2 < rc
        invariant
            0 <= k2 <= rc <= 3,
            deil@ == deinterleave_table(),
            deinterleave_spec(cm1, k2 as int) == cm,
        decreases rc - k2,
    {
        if cm < 16 {
            cm = deil[cm as usize];
        }
        k2 = k2 + 1;
    }
    proof {
        if rc > 0 {
            assert(bb == blk && blk == b1);
            vstd::arithmetic::div_mod::lemma_fundamental_div_mod(bparam as int, p2 as int);
            assert(b1 * p2 <= bparam) by (nonlinear_arith)
                requires b1 == bparam as int / p2 as int, p2 >= 1, bparam >= 1;
        }
    }
    let bbf = bb * p2;
    let mask = (pow2_i32(bbf as u32) - 1) as u32;
    Partition { cm: cm & mask, ..p }
}

/// A stereo band: the mid and side shapes (a two-sample band codes one
/// channel and a sign, and `side` is empty), the angles of the channels'
/// own splits in the order read, the stereo angle, whether the side is
/// inverted, the sign, the collapse mask of both channels, the frame's
/// bits left and the noise seed.
pub struct StereoShape {
    pub mid: Vec<i32>,
    pub side: Vec<i32>,
    pub thetas: Vec<i32>,
    pub itheta: i32,
    pub inv: bool,
    pub sign: u32,
    pub cm: u32,
    pub remaining: i32,
    pub seed: u32,
}

/// A stereo band as plain values.
pub struct StereoView {
    pub mid: Seq<i32>,
    pub side: Seq<i32>,
    pub thetas: Seq<i32>,
    pub itheta: i32,
    pub inv: bool,
    pub sign: int,
    pub cm: u32,
    pub remaining: int,
    pub seed: u32,
}

impl View for StereoShape {
    type V = StereoView;

    open spec fn view(&self) -> StereoView {
        StereoView {
            mid: self.mid@,
            side: self.side@,
            thetas: self.thetas@,
            itheta: self.itheta,
            inv: self.inv,
            sign: self.sign as int,
            cm: self.cm,
            remaining: self.remaining as int,
            seed: self.seed,
        }
    }
}

/// The bounds a call of `decode_band_stereo` keeps.
pub open spec fn stereo_pre(s: RangeState, cache: &PulseCache, nb: int, band: int, log_n: int, n: int, b: int,
    bparam: int, tf_change: int, lm: int, fill: int, remaining: int) -> bool {
    &&& s.wf()
    &&& s.nbits_total + 256 * n + 512 <= BITS_LIMIT
    &&& tree_ok(cache, nb, band, n, lm)
    &&& 0 <= log_n <= 1024
    &&& -0x20_0000 <= b <= 0x20_0000
    &&& -0x40_0000 <= remaining <= 0x40_0000
    &&& (bparam == 1 || bparam == 2 || bparam == 4 || bparam == 8)
    &&& -3 <= tf_change <= 3
    &&& (tf_change > 0 ==> pow2(tf_change as nat) <= bparam)
    &&& (tf_change < 0 ==> bparam * pow2((-tf_change) as nat) <= 16)
    &&& 0 <= fill < 256
}

/// A stereo band of `n` samples per channel: the stereo angle first. A
/// two-sample band then reads a sign where the angle is strictly between
/// the channels and codes one channel with the rest of the bits; a wider
/// band shares the bits between mid and side, reads the one with more
/// bits first (mid on a tie; the side without a fold source and with the
/// upper blocks of the fold mask), and passes the surplus of the first on
/// to the second unless the angle leaves that one empty.
pub open spec fn stereo_spec(
    s: RangeState,
    cache: &PulseCache,
    nb: int,
    band: int,
    log_n: int,
    n: int,
    b: int,
    bparam: int,
    tf_change: int,
    has_lowband: bool,
    lm: int,
    fill: int,
    past_intensity: bool,
    remaining: int,
    seed: u32,
) -> (RangeState, StereoView) {
    let (s1, th) = theta_spec(s, n, b, bparam, bparam, lm, true, fill as i32, log_n, past_intensity, remaining);
    if n == 2 {
        let sb: int = if th.itheta != 0 && th.itheta != 16384 { 8 } else { 0 };
        let (s2, sign) = if sb != 0 { spec_dec_bits(s1, 1) } else { (s1, 0int) };
        let p = band_spec(s2, cache, nb, band, log_n, n, th.b - sb, bparam, tf_change, has_lowband, lm, fill,
            remaining - th.qalloc - sb, seed);
        (p.0, StereoView { mid: p.1, side: Seq::empty(), thetas: p.2, itheta: th.itheta, inv: th.inv, sign,
            cm: p.3, remaining: p.4, seed: p.5 })
    } else {
        let (mbits, sbits) = split_bits_spec(th.b as int, th.delta as int, th.itheta as int, 1, 0, n);
        let rem1 = remaining - th.qalloc;
        let fside = (th.fill as int) / pow2(bparam as nat) as int;
        if mbits >= sbits {
            let a = band_spec(s1, cache, nb, band, log_n, n, mbits, bparam, tf_change, has_lowband, lm,
                th.fill as int, rem1, seed);
            let reb = mbits - (rem1 - a.4);
            let sb2 = if reb > 24 && th.itheta != 0 { sbits + reb - 24 } else { sbits };
            let z = band_spec(a.0, cache, nb, band, log_n, n, sb2, bparam, tf_change, false, lm, fside, a.4, a.5);
            (z.0, StereoView { mid: a.1, side: z.1, thetas: a.2 + z.2, itheta: th.itheta, inv: th.inv, sign: 0,
                cm: a.3 | z.3, remaining: z.4, seed: z.5 })
        } else {
            let z = band_spec(s1, cache, nb, band, log_n, n, sbits, bparam, tf_change, false, lm, fside, rem1, seed);
            let reb = sbits - (rem1 - z.4);
            let mb2 = if reb > 24 && th.itheta != 16384 { mbits + reb - 24 } else { mbits };
            let a = band_spec(z.0, cache, nb, band, log_n, n, mb2, bparam, tf_change, has_lowband, lm,
                th.fill as int, z.4, z.5);
            (a.0, StereoView { mid: a.1, side: z.1, thetas: z.2 + a.2, itheta: th.itheta, inv: th.inv, sign: 0,
                cm: z.3 | a.3, remaining: a.4, seed: a.5 })
        }
    }
}

/// Decodes a stereo band of `n >= 2` samples per channel (see
/// `stereo_spec`); `past_intensity` tells that the band lies past the
/// intensity-stereo band.
#[verifier::rlimit(100)]
pub fn decode_band_stereo(
    rd: &mut RangeDecoder,
    cache: &PulseCache,
    nb: usize,
    band: usize,
    log_n: i32,
    n: usize,
    b: i32,
    bparam: i32,
    tf_change: i32,
    has_lowband: bool,
    lm: i32,
    fill: i32,
    past_intensity: bool,
    remaining: i32,
    seed: u32,
) -> (r: StereoShape)
    requires
        stereo_pre(old(rd)@, cache, nb as int, band as int, log_n as int, n as int, b as int, bparam as int,
            tf_change as int, lm as int, fill as int, remaining as int),
    ensures
        final(rd)@.wf(),
        final(rd)@.storage == old(rd)@.storage,
        final(rd)@.nbits_total <= old(rd)@.nbits_total + 256 * n + 64,
        (final(rd)@, r@) == stereo_spec(old(rd)@, cache, nb as int, band as int, log_n as int, n as int, b as int,
            bparam as int, tf_change as int, has_lowband, lm as int, fill as int, past_intensity, remaining as int,
            seed),
{
    proof {
        crate::opus::celt::partition::lemma_tree_facts(cache, nb as int, band as int, n as int, lm as int);
        lemma_theta_fill(old(rd)@, n as int, b as int, bparam as int, bparam as int, lm as int, true, fill, log_n as int,
            past_intensity, remaining as int);
        vstd::arithmetic::power2::lemma2_to64();
    }
    let th = compute_theta(rd, n, b, bparam, bparam, lm, true, fill, log_n, past_intensity, remaining);
    if n == 2 {
        let sb: i32 = if th.itheta != 0 && th.itheta != 16384 { 8 } else { 0 };
        let mut sign: u32 = 0;
        if sb != 0 {
            sign = rd.dec_bits(1);
        }
        proof {
            reveal(partition_pre);
        }
        let p = decode_band(rd, cache, nb, band, log_n, n, th.b - sb, bparam, tf_change, has_lowband, lm, fill,
            remaining - th.qalloc - sb, seed);
        return StereoShape {
            mid: p.pulses,
            side: Vec::new(),
            thetas: p.thetas,
            itheta: th.itheta,
            inv: th.inv,
            sign,
            cm: p.cm,
            remaining: p.remaining,
            seed: p.seed,
        };
    }
    let (mbits, sbits) = split_bits(th.b, th.delta, th.itheta, 1, 0, n);
    proof {
        crate::opus::celt::partition::lemma_split_bits_bounds(th.b as int, th.delta as int, th.itheta as int, 1, 0,
            n as int);
        crate::arith::lemma_i32_shr(th.fill, bparam as u32);
    }
    let rem1 = remaining - th.qalloc;
    let fside = th.fill >> (bparam as u32);
    if mbits >= sbits {
        proof {
            reveal(partition_pre);
        }
        let a = decode_band(rd, cache, nb, band, log_n, n, mbits, bparam, tf_change, has_lowband, lm, th.fill, rem1,
            seed);
        let sb2 = rebalance(mbits, rem1 - a.remaining, sbits, th.itheta != 0);
        proof {
            reveal(partition_pre);
        }
        let z = decode_band(rd, cache, nb, band, log_n, n, sb2, bparam, tf_change, false, lm, fside, a.remaining,
            a.seed);
        let mut thetas = a.thetas;
        let mut zt = z.thetas;
        thetas.append(&mut zt);
        StereoShape {
            mid: a.pulses,
            side: z.pulses,
            thetas,
            itheta: th.itheta,
            inv: th.inv,
            sign: 0,
            cm: a.cm | z.cm,
            remaining: z.remaining,
            seed: z.seed,
        }
    } else {
        proof {
            reveal(partition_pre);
        }
        let z = decode_band(rd, cache, nb, band, log_n, n, sbits, bparam, tf_change, false, lm, fside, rem1, seed);
        let mb2 = rebalance(sbits, rem1 - z.remaining, mbits, th.itheta != 16384);
        proof {
            reveal(partition_pre);
        }
        let a = decode_band(rd, cache, nb, band, log_n, n, mb2, bparam, tf_change, has_lowband, lm, th.fill,
            z.remaining, z.seed);
        let mut thetas = z.thetas;
        let mut at = a.thetas;
        thetas.append(&mut at);
        StereoShape {
            mid: a.pulses,
            side: z.pulses,
            thetas,
            itheta: th.itheta,
            inv: th.inv,
            sign: 0,
            cm: z.cm | a.cm,
            remaining: a.remaining,
            seed: a.seed,
        }
    }
}

/// With no time-frequency change a band is read exactly as its
/// partition, its collapse mask kept to the band's blocks.
pub proof fn lemma_band_without_tf_change(
    s: RangeState,
    cache: &PulseCache,
    nb: int,
    band: int,
    log_n: int,
    n: int,
    b: int,
    bparam: int,
    has_lowband: bool,
    lm: int,
    fill: i32,
    remaining: int,
    seed: u32,
)
    requires
        1 <= bparam,
    ensures
        ({
            let p = partition_spec(s, cache, nb, band, log_n, n, b, bparam, has_lowband, lm, fill, remaining, seed);
            band_spec(s, cache, nb, band, log_n, n, b, bparam, 0, has_lowband, lm, fill as int, remaining, seed)
                == (p.0, p.1, p.2, p.3 & ((pow2(bparam as nat) - 1) as u32), p.4, p.5)
        }),
{
    vstd::arithmetic::power2::lemma2_to64();
    assert(recombine_fill(fill as int, 0) == fill as int);
    assert(pow2(0) == 1);
    assert(bparam / (pow2(0) as int) == bparam);
    assert(divide_spec(fill, bparam, (n / bparam) * 1, 0) == (fill, bparam, (n / bparam) * 1, 0int));
    let p = partition_spec(s, cache, nb, band, log_n, n, b, bparam, has_lowband, lm, fill, remaining, seed);
    assert(undivide_spec(p.3, bparam, 0) == (p.3, bparam));
    assert(deinterleave_spec(p.3, 0) == p.3);
    assert(bparam * pow2(0) == bparam);
}

} // verus!
