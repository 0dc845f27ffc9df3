//! The shapes of all coded bands of a frame, band after band: each band's
//! budget from the running balance, its fold source and inherited
//! collapse masks, then the band read as mono, as a stereo pair, or (in
//! dual stereo, up to the intensity band) as two mono bands.
use vstd::prelude::*;
use vstd::arithmetic::power2::pow2;
use crate::opus::range::{RangeDecoder, RangeState, spec_tell_frac, lemma_tell_frac_bounds, BITS_LIMIT};
use crate::opus::celt::partition::Partition;
use crate::opus::celt::band_decode::StereoShape;
use crate::arith::pow2_i32;
use crate::opus::celt::band_decode::{StereoView, band_spec, decode_band, decode_band_stereo, stereo_spec};
use crate::opus::celt::band_steps::{
    band_budget, band_budget_spec, decode_n1_signs, fold_source, fold_spec, masks_or, n1_signs_spec,
};
use crate::opus::celt::partition::{partition_pre, tree_ok};
use crate::opus::celt::rate::PulseCache;

verus! {

/// What the band loop reads: the band edges, each band's log2 width, its
/// allocation in eighth-bits and its time-frequency change; the bands
/// `start .. end` of `nb`, the frame size `lm`, the blocks per band, the
/// spreading, whether the frame is stereo and from which band on its
/// stereo is intensity stereo, the frame's size in eighth-bits, and how
/// many bands are coded.
pub struct ShapeParams {
    pub eb: Vec<i32>,
    pub log_n: Vec<i32>,
    pub pulses: Vec<i32>,
    pub tf_res: Vec<i32>,
    pub nb: usize,
    pub start: usize,
    pub end: usize,
    pub lm: i32,
    pub bblocks: i32,
    pub spread: i32,
    pub stereo: bool,
    pub intensity: usize,
    pub total_bits: i32,
    pub coded_bands: usize,
}

/// What the band loop carries from band to band: the running balance, the
/// band folded from, whether the last band was rich enough to fold from,
/// whether dual stereo is still on, the collapse masks (one per band and
/// channel) and the noise seed.
pub struct ShapesState {
    pub balance: i32,
    pub lowband_offset: usize,
    pub update_lowband: bool,
    pub dual: bool,
    pub cm: Vec<u8>,
    pub seed: u32,
}

/// The band loop's state as plain values.
pub struct ShapesView {
    pub balance: int,
    pub lowband_offset: int,
    pub update_lowband: bool,
    pub dual: bool,
    pub cm: Seq<u8>,
    pub seed: u32,
}

impl View for ShapesState {
    type V = ShapesView;

    open spec fn view(&self) -> ShapesView {
        ShapesView {
            balance: self.balance as int,
            lowband_offset: self.lowband_offset as int,
            update_lowband: self.update_lowband,
            dual: self.dual,
            cm: self.cm@,
            seed: self.seed,
        }
    }
}

/// One decoded band: the first and second channel's pulses (a one-sample
/// band holds its sign, -1 or 1; a stereo pair band holds mid and side,
/// the side empty for two samples), the angles of its splits in the
/// order read, and for a stereo pair its angle, inversion and sign.
pub struct BandOut {
    pub x: Vec<i32>,
    pub y: Vec<i32>,
    pub thetas: Vec<i32>,
    pub itheta: i32,
    pub inv: bool,
    pub sign: u32,
}

/// A decoded band as plain values.
pub struct BandOutView {
    pub x: Seq<i32>,
    pub y: Seq<i32>,
    pub thetas: Seq<i32>,
    pub itheta: i32,
    pub inv: bool,
    pub sign: int,
}

impl View for BandOut {
    type V = BandOutView;

    open spec fn view(&self) -> BandOutView {
        BandOutView { x: self.x@, y: self.y@, thetas: self.thetas@, itheta: self.itheta, inv: self.inv, sign: self.sign as int }
    }
}

/// The blocks' count per band as a shift.
pub open spec fn big_m(p: &ShapeParams) -> int {
    pow2(p.lm as nat) as int
}

/// The width of band `i` in bins.
pub open spec fn band_width(p: &ShapeParams, i: int) -> int {
    big_m(p) * p.eb@[i + 1] - big_m(p) * p.eb@[i]
}

/// The sign of a one-sample channel from its sign bit.
pub open spec fn sign_of(bit: int) -> i32 {
    if bit != 0 { -1i32 } else { 1i32 }
}

/// One mono band of `n` bins: a sign for one sample, else a band shape:
/// (decoder state, pulses, angles, collapse mask, bits left, seed).
pub open spec fn mono_spec(
    s: RangeState,
    cache: &PulseCache,
    p: &ShapeParams,
    i: int,
    n: int,
    b: int,
    has_lowband: bool,
    fill: int,
    remaining: int,
    seed: u32,
) -> (RangeState, Seq<i32>, Seq<i32>, u32, int, u32) {
    if n == 1 {
        let (s2, signs, r2) = n1_signs_spec(s, 1, remaining);
        (s2, seq![sign_of(signs[0])], Seq::empty(), 1u32, r2, seed)
    } else {
        band_spec(s, cache, p.nb as int, i, p.log_n@[i] as int, n, b, p.bblocks as int, p.tf_res@[i] as int,
            has_lowband, p.lm as int, fill, remaining, seed)
    }
}

/// One stereo pair band of `n` bins: both signs for one sample, else the
/// stereo band.
pub open spec fn pair_spec(
    s: RangeState,
    cache: &PulseCache,
    p: &ShapeParams,
    i: int,
    n: int,
    b: int,
    has_lowband: bool,
    fill: int,
    remaining: int,
    seed: u32,
) -> (RangeState, StereoView) {
    if n == 1 {
        let (s2, signs, r2) = n1_signs_spec(s, 2, remaining);
        (s2, StereoView { mid: seq![sign_of(signs[0])], side: seq![sign_of(signs[1])], thetas: Seq::empty(),
            itheta: 0, inv: false, sign: 0, cm: 1, remaining: r2, seed })
    } else {
        stereo_spec(s, cache, p.nb as int, i, p.log_n@[i] as int, n, b, p.bblocks as int, p.tf_res@[i] as int,
            has_lowband, p.lm as int, fill, i >= p.intensity, remaining, seed)
    }
}

/// What band `i` is read with, before anything is read from it.
pub struct BandSetup {
    pub n: usize,
    pub chans: usize,
    pub tell: i32,
    pub bal: i32,
    pub rem: i32,
    pub b: i32,
    pub lo: usize,
    pub has_low: bool,
    pub xcm0: u32,
    pub ycm0: u32,
    pub dual: bool,
}

/// The set-up of band `i` at decoder state `s`: its width and channels,
/// the position in eighth-bits, the balance after it, the bits left, the
/// budget, the band folded from, whether there is a fold source, the
/// collapse masks inherited, and whether it is read as dual stereo.
pub open spec fn band_setup(s: RangeState, p: &ShapeParams, st: ShapesView, i: int) -> BandSetup {
    let m = big_m(p);
    let n = band_width(p, i);
    let chans: int = if p.stereo { 2 } else { 1 };
    let norm_offset = m * p.eb@[p.start as int];
    let tell = spec_tell_frac(s);
    let bal = if i != p.start { st.balance - tell } else { st.balance };
    let rem = p.total_bits - tell - 1;
    let b = band_budget_spec(i, p.coded_bands as int, bal, p.pulses@[i] as int, rem);
    let lo = if (m * p.eb@[i] >= norm_offset + n || i == p.start + 1) && (st.update_lowband || st.lowband_offset
        == 0) {
        i
    } else {
        st.lowband_offset
    };
    let tf = p.tf_res@[i];
    let fold = p.spread != 3 || p.bblocks > 1 || tf < 0;
    let (el, xcm0, ycm0) = fold_spec(p.eb@, m, lo, i, n, norm_offset, chans, st.cm, fold, p.bblocks as int);
    BandSetup {
        n: n as usize,
        chans: chans as usize,
        tell: tell as i32,
        bal: bal as i32,
        rem: rem as i32,
        b: b as i32,
        lo: lo as usize,
        has_low: el is Some,
        xcm0,
        ycm0,
        dual: st.dual && i != p.intensity,
    }
}

/// Band `i` read with set-up `su`: the decoder state after it, the band,
/// the two channels' collapse masks and the seed.
pub open spec fn band_read(s: RangeState, cache: &PulseCache, p: &ShapeParams, i: int, su: BandSetup, seed: u32)
    -> (RangeState, BandOutView, u32, u32, u32) {
    let n = su.n as int;
    if su.dual {
        let xa = mono_spec(s, cache, p, i, n, su.b / 2, su.has_low, su.xcm0 as int, su.rem as int, seed);
        let ya = mono_spec(xa.0, cache, p, i, n, su.b / 2, su.has_low, su.ycm0 as int, xa.4, xa.5);
        (ya.0, BandOutView { x: xa.1, y: ya.1, thetas: xa.2 + ya.2, itheta: 0, inv: false, sign: 0 }, xa.3, ya.3,
            ya.5)
    } else if p.stereo {
        let (s3, v) = pair_spec(s, cache, p, i, n, su.b as int, su.has_low, (su.xcm0 | su.ycm0) as int,
            su.rem as int, seed);
        (s3, BandOutView { x: v.mid, y: v.side, thetas: v.thetas, itheta: v.itheta, inv: v.inv, sign: v.sign },
            v.cm, v.cm, v.seed)
    } else {
        let xa = mono_spec(s, cache, p, i, n, su.b as int, su.has_low, (su.xcm0 | su.ycm0) as int, su.rem as int,
            seed);
        (xa.0, BandOutView { x: xa.1, y: Seq::empty(), thetas: xa.2, itheta: 0, inv: false, sign: 0 }, xa.3, xa.3,
            xa.5)
    }
}

/// Band `i` read from state `s` with the loop state `st`: the decoder
/// state after it, the loop state for the next band, and the band.
pub open spec fn band_step_spec(s: RangeState, cache: &PulseCache, p: &ShapeParams, st: ShapesView, i: int)
    -> (RangeState, ShapesView, BandOutView) {
    let su = band_setup(s, p, st, i);
    let (s2, out, xcm, ycm, seed) = band_read(s, cache, p, i, su, st.seed);
    let chans = su.chans as int;
    let cm2 = st.cm.update(i * chans, xcm as u8).update(i * chans + chans - 1, ycm as u8);
    (s2, ShapesView {
        balance: su.bal + p.pulses@[i] + su.tell,
        lowband_offset: su.lo as int,
        update_lowband: su.b > su.n * 8,
        dual: su.dual,
        cm: cm2,
        seed,
    }, out)
}

/// Bands `i .. end` read one after another.
pub open spec fn shapes_spec(s: RangeState, cache: &PulseCache, p: &ShapeParams, st: ShapesView, i: int)
    -> (RangeState, ShapesView, Seq<BandOutView>)
    decreases p.end - i,
{
    if i >= p.end || i < 0 {
        (s, st, Seq::empty())
    } else {
        let (s2, st2, out) = band_step_spec(s, cache, p, st, i);
        let (s3, st3, rest) = shapes_spec(s2, cache, p, st2, i + 1);
        (s3, st3, seq![out] + rest)
    }
}

/// The time-frequency change of a band suits its blocks: recombining no
/// more blocks than there are, splitting into no more than 16.
pub open spec fn tf_fits(tf: int, bblocks: int) -> bool {
    &&& -3 <= tf <= 3
    &&& (tf > 0 ==> pow2(tf as nat) <= bblocks)
    &&& (tf < 0 ==> bblocks * pow2((-tf) as nat) <= 16)
}

/// The parameters describe increasing band edges, up to 63 bands, a frame
/// size of at most 3, a power of two of blocks up to 8, per-band tables
/// that cover the bands with values in range, and a cache whose entries
/// fit every band wider than one bin.
pub open spec fn params_ok(cache: &PulseCache, p: &ShapeParams) -> bool {
    let nb = p.nb as int;
    &&& 1 <= nb <= 63
    &&& p.eb@.len() == nb + 1
    &&& forall|j: int| 0 <= j <= nb ==> 0 <= #[trigger] p.eb@[j] <= 4096
    &&& forall|j: int| 0 <= j < nb ==> p.eb@[j] < #[trigger] p.eb@[j + 1]
    &&& 0 <= p.lm <= 3
    &&& (p.bblocks == 1 || p.bblocks == 2 || p.bblocks == 4 || p.bblocks == 8)
    &&& p.start <= p.end <= nb
    &&& p.log_n@.len() >= nb
    &&& p.pulses@.len() >= nb
    &&& p.tf_res@.len() >= nb
    &&& forall|j: int| 0 <= j < nb ==> 0 <= #[trigger] p.log_n@[j] <= 1024
    &&& forall|j: int| 0 <= j < nb ==> -0x10_0000 <= #[trigger] p.pulses@[j] <= 0x10_0000
    &&& forall|j: int| 0 <= j < nb ==> tf_fits(#[trigger] p.tf_res@[j] as int, p.bblocks as int)
    &&& 0 <= p.total_bits <= 0x10_0000
    &&& forall|j: int| p.start <= j < p.end && band_width(p, j) >= 2 ==> tree_ok(cache, nb, j, #[trigger] band_width(p, j),
        p.lm as int)
}

/// The room in the bit counter that bands `i .. end` may need.
pub open spec fn room_for(p: &ShapeParams, i: int) -> int {
    256 * (big_m(p) * p.eb@[p.end as int] - big_m(p) * p.eb@[i]) + 128 * (p.end - i) + 512
}

/// Two bytes OR together to a byte.
proof fn lemma_or_byte(x: u32, y: u32)
    requires
        x < 256,
        y < 256,
    ensures
        x | y < 256,
{
    assert(x < 256 && y < 256 ==> x | y < 256) by (bit_vector);
}

proof fn lemma_masks_or_byte(cm: Seq<u8>, chans: int, off: int, a: int, b: int, acc: u32)
    requires
        acc < 256,
    ensures
        masks_or(cm, chans, off, a, b, acc) < 256,
    decreases b - a,
{
    lemma_or_byte(acc, cm[a * chans + off] as u32);
    if a + 1 < b {
        lemma_masks_or_byte(cm, chans, off, a + 1, b, acc | (cm[a * chans + off] as u32));
    }
}

/// One mono band (see `mono_spec`).
fn decode_mono(
    rd: &mut RangeDecoder,
    cache: &PulseCache,
    p: &ShapeParams,
    i: usize,
    n: usize,
    b: i32,
    has_lowband: bool,
    fill: i32,
    remaining: i32,
    seed: u32,
) -> (r: Partition)
    requires
        params_ok(cache, p),
        p.start <= i < p.end,
        n == band_width(p, i as int),
        1 <= n <= 256,
        old(rd)@.wf(),
        old(rd)@.nbits_total + 128 * n + 128 <= BITS_LIMIT,
        0 <= b <= 16383,
        -0x80_0000 <= remaining <= 0x80_0000,
        0 <= fill < 256,
    ensures
        final(rd)@.wf(),
        final(rd)@.storage == old(rd)@.storage,
        final(rd)@.nbits_total <= old(rd)@.nbits_total + 128 * n,
        (final(rd)@, r.pulses@, r.thetas@, r.cm, r.remaining as int, r.seed) == mono_spec(old(rd)@, cache, p, i as int,
            n as int, b as int, has_lowband, fill as int, remaining as int, seed),
        remaining - 2000 * n <= r.remaining <= remaining + 2000 * n,
{
    if n == 1 {
        let (signs, r2) = decode_n1_signs(rd, false, remaining);
        proof {
            reveal_with_fuel(n1_signs_spec, 2);
            assert(signs@.map_values(|t: u32| t as int).len() == 1);
        }
        let v: i32 = if signs[0] != 0 { -1 } else { 1 };
        let mut x: Vec<i32> = Vec::new();
        x.push(v);
        proof {
            assert(x@ =~= seq![v]);
            assert(signs@.map_values(|t: u32| t as int)[0] == signs@[0] as int);
        }
        return Partition { pulses: x, thetas: Vec::new(), cm: 1, remaining: r2, seed };
    }
    proof {
        reveal(partition_pre);
        assert(tree_ok(cache, p.nb as int, i as int, band_width(p, i as int), p.lm as int));
        assert(0 <= p.log_n@[i as int] <= 1024);
        assert(tf_fits(p.tf_res@[i as int] as int, p.bblocks as int));
    }
    decode_band(rd, cache, p.nb, i, p.log_n[i], n, b, p.bblocks, p.tf_res[i], has_lowband, p.lm, fill, remaining,
        seed)
}

/// One stereo pair band (see `pair_spec`).
fn decode_pair(
    rd: &mut RangeDecoder,
    cache: &PulseCache,
    p: &ShapeParams,
    i: usize,
    n: usize,
    b: i32,
    has_lowband: bool,
    fill: i32,
    remaining: i32,
    seed: u32,
) -> (r: StereoShape)
    requires
        params_ok(cache, p),
        p.start <= i < p.end,
        n == band_width(p, i as int),
        1 <= n <= 256,
        old(rd)@.wf(),
        old(rd)@.nbits_total + 256 * n + 512 <= BITS_LIMIT,
        0 <= b <= 16383,
        -0x40_0000 <= remaining <= 0x40_0000,
        0 <= fill < 256,
    ensures
        final(rd)@.wf(),
        final(rd)@.storage == old(rd)@.storage,
        final(rd)@.nbits_total <= old(rd)@.nbits_total + 256 * n + 64,
        (final(rd)@, r@) == pair_spec(old(rd)@, cache, p, i as int, n as int, b as int, has_lowband, fill as int,
            remaining as int, seed),
{
    if n == 1 {
        let (signs, r2) = decode_n1_signs(rd, true, remaining);
        proof {
            reveal_with_fuel(n1_signs_spec, 3);
            assert(signs@.map_values(|t: u32| t as int).len() == 2);
        }
        let v0: i32 = if signs[0] != 0 { -1 } else { 1 };
        let v1: i32 = if signs[1] != 0 { -1 } else { 1 };
        let mut x: Vec<i32> = Vec::new();
        x.push(v0);
        let mut y: Vec<i32> = Vec::new();
        y.push(v1);
        proof {
            assert(x@ =~= seq![v0]);
            assert(y@ =~= seq![v1]);
            assert(signs@.map_values(|t: u32| t as int)[0] == signs@[0] as int);
            assert(signs@.map_values(|t: u32| t as int)[1] == signs@[1] as int);
        }
        return StereoShape {
            mid: x,
            side: y,
            thetas: Vec::new(),
            itheta: 0,
            inv: false,
            sign: 0,
            cm: 1,
            remaining: r2,
            seed,
        };
    }
    proof {
        assert(tree_ok(cache, p.nb as int, i as int, band_width(p, i as int), p.lm as int));
        assert(0 <= p.log_n@[i as int] <= 1024);
        assert(tf_fits(p.tf_res@[i as int] as int, p.bblocks as int));
    }
    decode_band_stereo(rd, cache, p.nb, i, p.log_n[i], n, b, p.bblocks, p.tf_res[i], has_lowband, p.lm, fill,
        i >= p.intensity, remaining, seed)
}

proof fn lemma_edges_sorted(eb: Seq<i32>, nb: int, j: int, k: int)
    requires
        eb.len() == nb + 1,
        forall|t: int| 0 <= t < nb ==> eb[t] < #[trigger] eb[t + 1],
        0 <= j <= k <= nb,
    ensures
        eb[j] <= eb[k],
    decreases k - j,
{
    if j < k {
        lemma_edges_sorted(eb, nb, j, k - 1);
        assert(eb[k - 1] < eb[k - 1 + 1]);
    }
}

/// The set-up of band `i` (see `band_setup`).
#[verifier::rlimit(100)]
fn setup_band(rd: &RangeDecoder, cache: &PulseCache, p: &ShapeParams, st: &ShapesState, i: usize) -> (r: BandSetup)
    requires
        params_ok(cache, p),
        p.start <= i < p.end,
        rd@.wf(),
        rd@.nbits_total <= 0x7_0000,
        st.cm@.len() == (if p.stereo { 2int } else { 1 }) * p.nb,
        st.lowband_offset <= i,
        -0x600_0000 <= st.balance <= 0x600_0000,
    ensures
        r == band_setup(rd@, p, st@, i as int),
        r.n as int == band_width(p, i as int),
        1 <= r.n <= 256,
        r.chans == (if p.stereo { 2usize } else { 1 }),
        0 <= r.tell <= 0x38_0000,
        r.tell as int == spec_tell_frac(rd@),
        r.bal == (if i != p.start { st.balance - r.tell } else { st.balance as int }),
        0 <= r.b <= 16383,
        -0x40_0000 <= r.rem <= 0x10_0000,
        r.lo <= i,
        r.xcm0 < 256,
        r.ycm0 < 256,
        r.xcm0 | r.ycm0 < 256,
        r.n as int + big_m(p) * p.eb@[i as int] == big_m(p) * p.eb@[i + 1],
        big_m(p) * p.eb@[i + 1] <= big_m(p) * p.eb@[p.end as int],
{
    proof {
        vstd::arithmetic::power2::lemma2_to64();
        lemma_tell_frac_bounds(rd@);
        lemma_edges_sorted(p.eb@, p.nb as int, 0, p.start as int);
        lemma_edges_sorted(p.eb@, p.nb as int, i + 1, p.end as int);
        assert(p.eb@[i as int] < p.eb@[i as int + 1]);
        assert(0 <= p.eb@[i as int + 1] <= 4096);
        assert(0 <= p.eb@[i as int] <= 4096);
        assert(0 <= p.eb@[p.start as int] <= 4096);
    }
    let m = pow2_i32(p.lm as u32) as usize;
    proof {
        assert(m as int == big_m(p));
        assert(1 <= m <= 8) by {
            assert(p.lm == 0 || p.lm == 1 || p.lm == 2 || p.lm == 3);
        }
        assert(m * p.eb@[i as int] < m * p.eb@[i as int + 1] <= 8 * 4096) by (nonlinear_arith)
            requires 1 <= m <= 8, p.eb@[i as int] < p.eb@[i as int + 1] <= 4096;
        assert(m * p.eb@[i as int + 1] - m * p.eb@[i as int] >= 1) by (nonlinear_arith)
            requires 1 <= m, p.eb@[i as int] < p.eb@[i as int + 1];
        assert(m * p.eb@[0] <= m * p.eb@[p.start as int] <= 8 * 4096) by (nonlinear_arith)
            requires 1 <= m <= 8, p.eb@[0] <= p.eb@[p.start as int] <= 4096;
        assert(m * p.eb@[i as int + 1] <= m * p.eb@[p.end as int]) by (nonlinear_arith)
            requires 1 <= m, p.eb@[i as int + 1] <= p.eb@[p.end as int];
        assert(0 <= m * p.eb@[i as int]) by (nonlinear_arith)
            requires 1 <= m, 0 <= p.eb@[i as int];
    }
    let n = m * p.eb[i + 1] as usize - m * p.eb[i] as usize;
    proof {
        assert(n as int == band_width(p, i as int));
        if n >= 2 {
            assert(tree_ok(cache, p.nb as int, i as int, band_width(p, i as int), p.lm as int));
            crate::opus::celt::partition::lemma_tree_facts(cache, p.nb as int, i as int, n as int, p.lm as int);
        }
    }
    let chans: usize = if p.stereo { 2 } else { 1 };
    let norm_offset = m * p.eb[p.start] as usize;
    let tell = rd.tell_frac() as i32;
    let bal = if i != p.start { st.balance - tell } else { st.balance };
    let rem = p.total_bits - tell - 1;
    proof {
        assert(-0x10_0000 <= p.pulses@[i as int] <= 0x10_0000);
    }
    let b = band_budget(i, p.coded_bands, bal, p.pulses[i], rem);
    let lo = if (m * p.eb[i] as usize >= norm_offset + n || i == p.start + 1) && (st.update_lowband
        || st.lowband_offset == 0) {
        i
    } else {
        st.lowband_offset
    };
    let tf = p.tf_res[i];
    let fold = p.spread != 3 || p.bblocks > 1 || tf < 0;
    proof {
        assert(i * chans <= st.cm@.len()) by (nonlinear_arith)
            requires i < p.nb, st.cm@.len() == chans * p.nb, chans >= 1;
    }
    let (el, xcm0, ycm0) = fold_source(p.eb.as_slice(), m, lo, i, n, norm_offset, chans, st.cm.as_slice(), fold,
        p.bblocks as u32);
    proof {
        let a = m * p.eb@[lo as int] - norm_offset;
        let e2 = if a - n > 0 { a - n } else { 0 };
        if lo != 0 && fold {
            lemma_masks_or_byte(st.cm@, chans as int, 0, crate::opus::celt::band_steps::fold_down(p.eb@, m as int,
                lo as int, e2 + norm_offset), crate::opus::celt::band_steps::fold_up(p.eb@, m as int, lo - 1, i as int,
                e2 + norm_offset + n), 0);
            lemma_masks_or_byte(st.cm@, chans as int, chans - 1, crate::opus::celt::band_steps::fold_down(p.eb@,
                m as int, lo as int, e2 + norm_offset), crate::opus::celt::band_steps::fold_up(p.eb@, m as int, lo - 1,
                i as int, e2 + norm_offset + n), 0);
        }
        assert(xcm0 < 256 && ycm0 < 256);
        lemma_or_byte(xcm0, ycm0);
    }
    BandSetup {
        n,
        chans,
        tell,
        bal,
        rem,
        b,
        lo,
        has_low: el.is_some(),
        xcm0,
        ycm0,
        dual: st.dual && i != p.intensity,
    }
}

/// Reads band `i` with its set-up (see `band_read`).
#[verifier::rlimit(100)]
fn read_band(rd: &mut RangeDecoder, cache: &PulseCache, p: &ShapeParams, i: usize, su: &BandSetup, seed: u32)
    -> (r: (BandOut, u32, u32, u32))
    requires
        params_ok(cache, p),
        p.start <= i < p.end,
        old(rd)@.wf(),
        old(rd)@.nbits_total + 256 * su.n + 512 <= BITS_LIMIT,
        su.n as int == band_width(p, i as int),
        1 <= su.n <= 256,
        0 <= su.b <= 16383,
        -0x40_0000 <= su.rem <= 0x10_0000,
        su.xcm0 < 256,
        su.ycm0 < 256,
        su.xcm0 | su.ycm0 < 256,
    ensures
        final(rd)@.wf(),
        final(rd)@.storage == old(rd)@.storage,
        final(rd)@.nbits_total <= old(rd)@.nbits_total + 256 * su.n + 64,
        (final(rd)@, r.0@, r.1, r.2, r.3) == band_read(old(rd)@, cache, p, i as int, *su, seed),
{
    let n = su.n;
    if su.dual {
        let xa = decode_mono(rd, cache, p, i, n, su.b / 2, su.has_low, su.xcm0 as i32, su.rem, seed);
        let ya = decode_mono(rd, cache, p, i, n, su.b / 2, su.has_low, su.ycm0 as i32, xa.remaining, xa.seed);
        let mut th = xa.thetas;
        let mut yt = ya.thetas;
        th.append(&mut yt);
        (BandOut { x: xa.pulses, y: ya.pulses, thetas: th, itheta: 0, inv: false, sign: 0 }, xa.cm, ya.cm, ya.seed)
    } else if p.stereo {
        let v = decode_pair(rd, cache, p, i, n, su.b, su.has_low, (su.xcm0 | su.ycm0) as i32, su.rem, seed);
        (BandOut { x: v.mid, y: v.side, thetas: v.thetas, itheta: v.itheta, inv: v.inv, sign: v.sign }, v.cm, v.cm,
            v.seed)
    } else {
        let xa = decode_mono(rd, cache, p, i, n, su.b, su.has_low, (su.xcm0 | su.ycm0) as i32, su.rem, seed);
        (BandOut { x: xa.pulses, y: Vec::new(), thetas: xa.thetas, itheta: 0, inv: false, sign: 0 }, xa.cm, xa.cm,
            xa.seed)
    }
}

/// Reads band `i` (see `band_step_spec`).
fn decode_band_step(rd: &mut RangeDecoder, cache: &PulseCache, p: &ShapeParams, st: ShapesState, i: usize)
    -> (r: (ShapesState, BandOut))
    requires
        params_ok(cache, p),
        p.start <= i < p.end,
        old(rd)@.wf(),
        old(rd)@.nbits_total + room_for(p, i as int) <= 0x7_0000,
        st.cm@.len() == (if p.stereo { 2int } else { 1 }) * p.nb,
        st.lowband_offset <= i,
        -0x600_0000 <= st.balance <= 0x600_0000,
    ensures
        final(rd)@.wf(),
        final(rd)@.storage == old(rd)@.storage,
        final(rd)@.nbits_total + room_for(p, i + 1) <= old(rd)@.nbits_total + room_for(p, i as int),
        (final(rd)@, r.0@, r.1@) == band_step_spec(old(rd)@, cache, p, st@, i as int),
        r.0.cm@.len() == st.cm@.len(),
        r.0.lowband_offset <= i,
        i > p.start ==> r.0.balance == st.balance + p.pulses@[i as int],
        i == p.start ==> r.0.balance == st.balance + p.pulses@[i as int] + spec_tell_frac(old(rd)@),
        0 <= spec_tell_frac(old(rd)@) <= 0x38_0000,
{
    proof {
        lemma_edges_sorted(p.eb@, p.nb as int, i as int, p.end as int);
        vstd::arithmetic::power2::lemma_pow2_pos(p.lm as nat);
        assert(big_m(p) * p.eb@[i as int] <= big_m(p) * p.eb@[p.end as int]) by (nonlinear_arith)
            requires big_m(p) >= 1, p.eb@[i as int] <= p.eb@[p.end as int];
    }
    let su = setup_band(rd, cache, p, &st, i);
    let (out, xcm, ycm, seed) = read_band(rd, cache, p, i, &su, st.seed);
    let chans = su.chans;
    let mut cm = st.cm;
    proof {
        assert(i * chans + chans - 1 < cm@.len()) by (nonlinear_arith)
            requires i < p.nb, cm@.len() == chans * p.nb, chans >= 1;
        assert(-0x10_0000 <= p.pulses@[i as int] <= 0x10_0000);
    }
    cm.set(i * chans, xcm as u8);
    cm.set(i * chans + chans - 1, ycm as u8);
    let st2 = ShapesState {
        balance: su.bal + p.pulses[i] + su.tell,
        lowband_offset: su.lo,
        update_lowband: su.b > (su.n as i32) * 8,
        dual: su.dual,
        cm,
        seed,
    };
    (st2, out)
}
/// The shapes of a frame's bands: each band's output, the collapse masks
/// after the frame and the noise seed.
pub struct BandShapes {
    pub bands: Vec<BandOut>,
    pub cm: Vec<u8>,
    pub seed: u32,
}

/// The band outputs as plain values.
pub open spec fn outs_view(v: Seq<BandOut>) -> Seq<BandOutView> {
    v.map_values(|b: BandOut| b@)
}

/// Decodes the shapes of bands `p.start .. p.end` (see `shapes_spec`),
/// starting from the balance left by the allocation, dual stereo as the
/// frame set it, the collapse masks `cm` (one per band and channel) and
/// the noise seed.
pub fn decode_band_shapes(
    rd: &mut RangeDecoder,
    cache: &PulseCache,
    p: &ShapeParams,
    balance: i32,
    dual_stereo: bool,
    cm: Vec<u8>,
    seed: u32,
) -> (r: BandShapes)
    requires
        params_ok(cache, p),
        old(rd)@.wf(),
        old(rd)@.nbits_total + room_for(p, p.start as int) <= 0x7_0000,
        cm@.len() == (if p.stereo { 2int } else { 1 }) * p.nb,
        -0x100_0000 <= balance <= 0x100_0000,
    ensures
        final(rd)@.wf(),
        final(rd)@.storage == old(rd)@.storage,
        ({
            let st0 = ShapesView {
                balance: balance as int,
                lowband_offset: 0,
                update_lowband: true,
                dual: dual_stereo,
                cm: cm@,
                seed,
            };
            let (s3, st3, outs) = shapes_spec(old(rd)@, cache, p, st0, p.start as int);
            &&& final(rd)@ == s3
            &&& r.cm@ == st3.cm
            &&& r.seed == st3.seed
            &&& outs_view(r.bands@) == outs
        }),
{
    let mut st = ShapesState { balance, lowband_offset: 0, update_lowband: true, dual: dual_stereo, cm, seed };
    let ghost target = shapes_spec(rd@, cache, p, st@, p.start as int);
    let mut bands: Vec<BandOut> = Vec::new();
    let mut i = p.start;
    while i < p.end
        invariant
            params_ok(cache, p),
            p.start <= i <= p.end,
            rd@.wf(),
            rd@.storage == old(rd)@.storage,
            rd@.nbits_total + room_for(p, i as int) <= 0x7_0000,
            st.cm@.len() == (if p.stereo { 2int } else { 1 }) * p.nb,
            st.lowband_offset <= i,
            i == p.start ==> st.balance == balance,
            -0x100_0000 <= balance <= 0x100_0000,
            i > p.start ==> -0x138_0000 - (i - p.start) * 0x10_0000 <= st.balance <= 0x138_0000 + (i - p.start)
                * 0x10_0000,
            ({
                let (s3, st3, rest) = shapes_spec(rd@, cache, p, st@, i as int);
                &&& target.0 == s3
                &&& target.1 == st3
                &&& target.2 == outs_view(bands@) + rest
            }),
        decreases p.end - i,
    {
        let ghost before = outs_view(bands@);
        let ghost s_before = rd@;
        let ghost st_before = st@;
        proof {
            assert(-0x10_0000 <= p.pulses@[i as int] <= 0x10_0000);
            assert(0 <= (i - p.start) * 0x10_0000 <= 63 * 0x10_0000) by (nonlinear_arith)
                requires 0 <= i - p.start <= 63;
            assert((i + 1 - p.start) * 0x10_0000 == (i - p.start) * 0x10_0000 + 0x10_0000) by (nonlinear_arith);
        }
        let (st2, out) = decode_band_step(rd, cache, p, st, i);
        proof {
            let (s2, stv, o) = band_step_spec(s_before, cache, p, st_before, i as int);
            assert(shapes_spec(s_before, cache, p, st_before, i as int) == ({
                let (s3, st3, rest) = shapes_spec(s2, cache, p, stv, i + 1);
                (s3, st3, seq![o] + rest)
            }));
        }
        bands.push(out);
        st = st2;
        proof {
            assert(outs_view(bands@) =~= before.push(out@));
            let rest = shapes_spec(rd@, cache, p, st@, i + 1).2;
            assert(before.push(out@) + rest =~= before + (seq![out@] + rest));
        }
        i = i + 1;
    }
    proof {
        assert(outs_view(bands@) + Seq::<BandOutView>::empty() =~= outs_view(bands@));
    }
    BandShapes { bands, cm: st.cm, seed: st.seed }
}

} // verus!
