//! The split angle of a band: how CELT decodes the angle between the two
//! halves (or the two channels) of a band, and what it does to the bits
//! left for each half and to the fold mask.
use vstd::prelude::*;
use vstd::arithmetic::power2::*;
use crate::opus::range::{
    RangeDecoder, RangeState, spec_decode, spec_update, spec_dec_uint, spec_dec_bit_logp, spec_tell_frac,
    lemma_tell_frac_bounds,
};
use crate::opus::celt::bands::{
    isqrt32, qn_spec, qn_divisor, compute_qn, cos_q14, fmul16, log2tan_q11, bitexact_cos, bitexact_log2tan,
    frac_mul16, lemma_cos_range, lemma_log2tan_range, lemma_qn_range,
};
use crate::arith::{pow2_i32, shr_i32};
use crate::opus::celt::rate::{PulseCache, has_entry, slot, spec_bits2pulses, bits2pulses, pulses2bits, tdiv};

verus! {

/// Whether `r` is the integer square root of `v`.
pub open spec fn is_isqrt(v: int, r: int) -> bool {
    0 <= r && r * r <= v < (r + 1) * (r + 1)
}

/// The integer square root: the `r >= 0` with `r * r <= v < (r + 1) * (r + 1)`.
pub open spec fn isqrt(v: int) -> int {
    choose|r: int| #[trigger] is_isqrt(v, r)
}

proof fn lemma_isqrt_unique(v: int, r: int)
    requires
        0 <= r,
        r * r <= v < (r + 1) * (r + 1),
    ensures
        isqrt(v) == r,
{
    assert(is_isqrt(v, r));
    let q = isqrt(v);
    assert(is_isqrt(v, q));
    if q < r {
        assert((q + 1) * (q + 1) <= r * r) by (nonlinear_arith)
            requires 0 <= q < r;
    } else if q > r {
        assert((r + 1) * (r + 1) <= q * q) by (nonlinear_arith)
            requires 0 <= r < q;
    }
}

/// Twice the triangular number `q (q + 1) / 2` is `q (q + 1)`.
proof fn lemma_tri(q: int)
    requires
        q >= 0,
    ensures
        2 * (q * (q + 1) / 2) == q * (q + 1),
        q * (q + 1) >= 0,
{
    let a = q / 2;
    if q % 2 == 0 {
        assert(q * (q + 1) == 2 * (a * (q + 1))) by (nonlinear_arith)
            requires q == 2 * a;
        assert(a * (q + 1) >= 0) by (nonlinear_arith)
            requires a >= 0, q >= 0;
    } else {
        assert(q * (q + 1) == 2 * (q * (a + 1))) by (nonlinear_arith)
            requires q == 2 * a + 1;
        assert(q * (a + 1) >= 0) by (nonlinear_arith)
            requires a >= 0, q >= 0;
    }
}

fn isqrt_exact(v: u32) -> (r: u32)
    requires
        v >= 1,
    ensures
        r as int == isqrt(v as int),
        r * r <= v < (r + 1) * (r + 1),
        1 <= r <= 0xFFFF,
{
    let r = isqrt32(v);
    proof {
        if r > 0xFFFF {
            assert(r * r >= 0x1_0000 * 0x1_0000) by (nonlinear_arith)
                requires r >= 0x1_0000;
        }
        lemma_isqrt_unique(v as int, r as int);
        if r == 0 {
            assert((r + 1) * (r + 1) == 1) by (nonlinear_arith)
                requires r == 0;
        }
    }
    r
}

/// The angle index of a split with `qn` steps, before scaling: a uniform
/// value for stereo bands and for split blocks, a step-shaped law for the
/// stereo angle of bands wider than two, and a triangular law otherwise.
pub open spec fn raw_theta(s: RangeState, qn: int, n: int, b0: int, stereo: bool) -> (RangeState, int) {
    if stereo && n > 2 {
        let x0 = qn / 2;
        let ft = 3 * (x0 + 1) + x0;
        let (s1, fs) = spec_decode(s, ft);
        let xv = if fs < (x0 + 1) * 3 { fs / 3 } else { x0 + 1 + (fs - (x0 + 1) * 3) };
        let fl = if xv <= x0 { 3 * xv } else { (xv - 1 - x0) + (x0 + 1) * 3 };
        let fh = if xv <= x0 { 3 * (xv + 1) } else { (xv - x0) + (x0 + 1) * 3 };
        (spec_update(s1, fl, fh, ft), xv)
    } else if b0 > 1 || stereo {
        spec_dec_uint(s, qn + 1)
    } else {
        let qh = qn / 2;
        let ft = (qh + 1) * (qh + 1);
        let (s1, fm) = spec_decode(s, ft);
        if fm < qh * (qh + 1) / 2 {
            let it = (isqrt(8 * fm + 1) - 1) / 2;
            let fl = it * (it + 1) / 2;
            (spec_update(s1, fl, fl + it + 1, ft), it)
        } else {
            let it = (2 * (qn + 1) - isqrt(8 * (ft - fm - 1) + 1)) / 2;
            let fl = ft - (qn + 1 - it) * (qn + 2 - it) / 2;
            (spec_update(s1, fl, fl + qn + 1 - it, ft), it)
        }
    }
}

/// Decodes the angle index of a split with `qn` steps (`qn` even).
fn decode_raw_theta(rd: &mut RangeDecoder, qn: i32, n: usize, b0: i32, stereo: bool) -> (r: i32)
    requires
        old(rd)@.wf(),
        old(rd)@.room(2),
        2 <= qn <= 256,
        qn % 2 == 0,
    ensures
        final(rd)@.wf(),
        final(rd)@.storage == old(rd)@.storage,
        old(rd)@.nbits_total <= final(rd)@.nbits_total <= old(rd)@.nbits_total + 64,
        (final(rd)@, r as int) == raw_theta(old(rd)@, qn as int, n as int, b0 as int, stereo),
        0 <= r <= qn,
{
    if stereo && n > 2 {
        let x0 = qn / 2;
        let ft = 3 * (x0 + 1) + x0;
        let fs = rd.decode(ft as u32) as i32;
        let xv = if fs < (x0 + 1) * 3 { fs / 3 } else { x0 + 1 + (fs - (x0 + 1) * 3) };
        let fl = if xv <= x0 { 3 * xv } else { (xv - 1 - x0) + (x0 + 1) * 3 };
        let fh = if xv <= x0 { 3 * (xv + 1) } else { (xv - x0) + (x0 + 1) * 3 };
        rd.update(fl as u32, fh as u32, ft as u32);
        xv
    } else if b0 > 1 || stereo {
        let v = rd.dec_uint((qn + 1) as u32);
        v as i32
    } else {
        let qh = qn / 2;
        proof {
            assert(4 <= (qh + 1) * (qh + 1) <= 129 * 129) by (nonlinear_arith)
                requires 1 <= qh <= 128;
        }
        let ft = (qh + 1) * (qh + 1);
        proof {
            lemma_tri(qh as int);
            lemma_tri(qh + 1);
            assert(0 <= qh * (qh + 1) <= 128 * 129) by (nonlinear_arith)
                requires 1 <= qh <= 128;
            assert(qh * (qh + 1) < 2 * ft) by (nonlinear_arith)
                requires 1 <= qh, ft == (qh + 1) * (qh + 1);
            assert((qh + 1) * (qh + 2) <= 2 * ft) by (nonlinear_arith)
                requires 1 <= qh, ft == (qh + 1) * (qh + 1);
            assert(ft == qh * (qh + 1) / 2 + (qh + 1) * (qh + 2) / 2) by (nonlinear_arith)
                requires ft == (qh + 1) * (qh + 1), 2 * (qh * (qh + 1) / 2) == qh * (qh + 1),
                    2 * ((qh + 1) * (qh + 1 + 1) / 2) == (qh + 1) * (qh + 1 + 1);
        }
        let fm = rd.decode(ft as u32) as i32;
        let half = qh * (qh + 1) / 2;
        if fm < half {
            let r = isqrt_exact((8 * fm + 1) as u32) as i32;
            let it = (r - 1) / 2;
            proof {
                assert(8 * fm + 1 < (2 * qh + 1) * (2 * qh + 1)) by (nonlinear_arith)
                    requires 8 * fm + 1 < 8 * half + 1, 2 * half == qh * (qh + 1);
                if r > 2 * qh {
                    assert(r * r >= (2 * qh + 1) * (2 * qh + 1)) by (nonlinear_arith)
                        requires r >= 2 * qh + 1, qh >= 0;
                }
                assert(0 <= it * (it + 1) <= 128 * 129) by (nonlinear_arith)
                    requires 0 <= it <= qh - 1, qh <= 128;
                assert((it + 1) * (it + 2) <= qh * (qh + 1)) by (nonlinear_arith)
                    requires 0 <= it <= qh - 1;
                lemma_tri(it as int);
                lemma_tri(it + 1);
                assert((it + 1) * (it + 1 + 1) == it * (it + 1) + 2 * it + 2) by (nonlinear_arith);
            }
            let fl = it * (it + 1) / 2;
            rd.update(fl as u32, (fl + it + 1) as u32, ft as u32);
            it
        } else {
            let m = ft - fm - 1;
            proof {
                assert(0 <= (qh + 1) * (qh + 2) <= 129 * 130) by (nonlinear_arith)
                    requires 1 <= qh <= 128;
            }
            let r = isqrt_exact((8 * m + 1) as u32) as i32;
            let it = (2 * (qn + 1) - r) / 2;
            let k = qn + 1 - it;
            proof {
                assert(8 * m + 1 < (2 * qh + 3) * (2 * qh + 3)) by (nonlinear_arith)
                    requires 0 <= m, 2 * (m + 1) <= (qh + 1) * (qh + 2), qh >= 1;
                if r > 2 * qh + 2 {
                    assert(r * r >= (2 * qh + 3) * (2 * qh + 3)) by (nonlinear_arith)
                        requires r >= 2 * qh + 3, qh >= 0;
                }
                assert(1 <= k <= qh + 1);
                assert(0 <= k * (k + 1) <= (qh + 1) * (qh + 2)) by (nonlinear_arith)
                    requires 1 <= k <= qh + 1;
                lemma_tri(k as int);
                assert(k * (k + 1) >= 2 * k) by (nonlinear_arith)
                    requires k >= 1;
            }
            let fl = ft - k * (k + 1) / 2;
            rd.update(fl as u32, (fl + k) as u32, ft as u32);
            it
        }
    }
}

/// What a split decodes and decides: whether the side is inverted, the Q15
/// mid and side gains, the bit shift `delta` towards the side, the Q14
/// angle, the eighth-bits that coding the angle took, the bits left for the
/// two halves together, and the fold mask.
#[derive(Clone, Copy, Debug, PartialEq, Eq, Structural)]
pub struct ThetaSplit {
    pub inv: bool,
    pub imid: i32,
    pub iside: i32,
    pub delta: i32,
    pub itheta: i32,
    pub qalloc: i32,
    pub b: i32,
    pub fill: i32,
}

/// The number of angle steps of a split of `n` samples with `b` bits: 1
/// for a stereo band past the intensity band, else from the budget left
/// after the band's pulse cap.
pub open spec fn theta_steps(n: int, b: int, lm: int, log_n: int, stereo: bool, past_intensity: bool) -> int {
    let pulse_cap = log_n + lm * 8;
    let offset = pulse_cap / 2 - if stereo && n == 2 { 16int } else { 4int };
    if stereo && past_intensity {
        1
    } else {
        qn_spec(n, b, offset, pulse_cap, stereo)
    }
}

/// The Q14 angle and inversion flag of a split with `qn` steps, and the
/// decoder state after them.
pub open spec fn theta_angle(s: RangeState, qn: int, n: int, b: int, b0: int, stereo: bool, remaining: int) -> (
    RangeState,
    int,
    bool,
) {
    if qn != 1 {
        let (s1, raw) = raw_theta(s, qn, n, b0, stereo);
        (s1, raw * 16384 / qn, false)
    } else if stereo && b > 16 && remaining > 16 {
        let (s1, bit) = spec_dec_bit_logp(s, 2);
        (s1, 0, bit != 0)
    } else {
        (s, 0, false)
    }
}

/// The split decisions for a band of `n` samples: see `ThetaSplit`.
#[verifier::opaque]
pub open spec fn theta_spec(
    s: RangeState,
    n: int,
    b: int,
    bparam: int,
    b0: int,
    lm: int,
    stereo: bool,
    fill: i32,
    log_n: int,
    past_intensity: bool,
    remaining: int,
) -> (RangeState, ThetaSplit) {
    let qn = theta_steps(n, b, lm, log_n, stereo, past_intensity);
    let (s2, itheta, inv) = theta_angle(s, qn, n, b, b0, stereo, remaining);
    let qalloc = spec_tell_frac(s2) - spec_tell_frac(s);
    let mask = (pow2(bparam as nat) - 1) as i32;
    let (imid, iside, fill2, delta) = if itheta == 0 {
        (32767int, 0int, (fill & mask) as int, -16384int)
    } else if itheta == 16384 {
        (0int, 32767int, (fill & ((mask as int) * pow2(bparam as nat)) as i32) as int, 16384int)
    } else {
        let m = cos_q14(itheta);
        let sd = cos_q14(16384 - itheta);
        (m, sd, fill as int, fmul16((n - 1) * 128, log2tan_q11(sd, m)))
    };
    (
        s2,
        ThetaSplit {
            inv,
            imid: imid as i32,
            iside: iside as i32,
            delta: delta as i32,
            itheta: itheta as i32,
            qalloc: qalloc as i32,
            b: (b - qalloc) as i32,
            fill: fill2 as i32,
        },
    )
}

/// Decodes the angle of a split of a band of `n` samples holding `b`
/// eighth-bits (`bparam` blocks, `b0` before the split, frame size `lm`,
/// the band's log2 width `log_n`), and derives the mid and side gains, the
/// bit shift between the halves and the fold mask.
pub fn compute_theta(
    rd: &mut RangeDecoder,
    n: usize,
    b: i32,
    bparam: i32,
    b0: i32,
    lm: i32,
    stereo: bool,
    fill: i32,
    log_n: i32,
    past_intensity: bool,
    remaining_bits: i32,
) -> (r: ThetaSplit)
    requires
        old(rd)@.wf(),
        old(rd)@.room(2),
        1 <= n <= 256,
        0 <= log_n <= 1024,
        -1 <= lm <= 3,
        -0x100_0000 <= b <= 0x100_0000,
        0 <= bparam <= 8,
    ensures
        final(rd)@.wf(),
        final(rd)@.storage == old(rd)@.storage,
        old(rd)@.nbits_total <= final(rd)@.nbits_total <= old(rd)@.nbits_total + 64,
        (final(rd)@, r) == theta_spec(old(rd)@, n as int, b as int, bparam as int, b0 as int, lm as int, stereo,
            fill, log_n as int, past_intensity, remaining_bits as int),
        0 <= r.itheta <= 16384,
        -40000 <= r.delta <= 40000,
        -72 <= r.qalloc <= 584,
        r.b == b - r.qalloc,
{
    proof {
        reveal(theta_spec);
    }
    let ghost s0 = rd@;
    proof {
        lemma2_to64();
    }
    let pulse_cap = log_n + lm * 8;
    let offset = shr_i32(pulse_cap, 1) - if stereo && n == 2 { 16 } else { 4 };
    let ni = n as i32;
    proof {
        assert(-20 <= offset <= 520);
        assert(-20 * 511 <= qn_divisor(ni as int, stereo) * offset <= 520 * 511) by (nonlinear_arith)
            requires 1 <= qn_divisor(ni as int, stereo) <= 511, -20 <= offset <= 520;
    }
    let mut qn = compute_qn(ni, b, offset, pulse_cap, stereo);
    if stereo && past_intensity {
        qn = 1;
    }
    proof {
        lemma_qn_range(ni as int, b as int, offset as int, pulse_cap as int, stereo);
        lemma_tell_frac_bounds(rd@);
    }
    let tell = rd.tell_frac() as i32;
    let mut itheta: i32 = 0;
    let mut inv = false;
    if qn != 1 {
        let raw = decode_raw_theta(rd, qn, n, b0, stereo);
        proof {
            assert(0 <= raw * 16384 <= 256 * 16384) by (nonlinear_arith)
                requires 0 <= raw <= 256;
        }
        itheta = raw * 16384 / qn;
        proof {
            if 1 <= raw < qn {
                assert(64 * qn <= raw * 16384 <= 16320 * qn) by (nonlinear_arith)
                    requires 1 <= raw <= qn - 1, 2 <= qn <= 256;
                vstd::arithmetic::div_mod::lemma_div_is_ordered(64 * qn, raw * 16384, qn as int);
                vstd::arithmetic::div_mod::lemma_div_is_ordered(raw * 16384, 16320 * qn, qn as int);
                vstd::arithmetic::div_mod::lemma_div_multiples_vanish(64, qn as int);
                vstd::arithmetic::div_mod::lemma_div_multiples_vanish(16320, qn as int);
            } else if raw == qn {
                vstd::arithmetic::div_mod::lemma_div_multiples_vanish(16384, qn as int);
            }
        }
    } else if stereo {
        if b > 16 && remaining_bits > 16 {
            inv = rd.dec_bit_logp(2) != 0;
        }
    }
    proof {
        lemma_tell_frac_bounds(rd@);
    }
    let qalloc = rd.tell_frac() as i32 - tell;
    let b2 = b - qalloc;
    let p = pow2_i32(bparam as u32);
    let mask = p - 1;
    let imid: i32;
    let iside: i32;
    let delta: i32;
    let mut fill2 = fill;
    if itheta == 0 {
        imid = 32767;
        iside = 0;
        fill2 = fill & mask;
        delta = -16384;
    } else if itheta == 16384 {
        imid = 0;
        iside = 32767;
        proof {
            assert(0 <= mask * p <= 255 * 256) by (nonlinear_arith)
                requires 1 <= p <= 256, mask == p - 1;
        }
        fill2 = fill & (mask * p);
        delta = 16384;
    } else {
        proof {
            lemma_cos_range(itheta as int);
            lemma_cos_range(16384 - itheta);
        }
        imid = bitexact_cos(itheta);
        iside = bitexact_cos(16384 - itheta);
        let lt = bitexact_log2tan(iside, imid);
        proof {
            lemma_log2tan_range(iside, imid);
            assert(-(255 * 128) * 38652 <= ((ni - 1) * 128) * lt <= (255 * 128) * 38652) by (nonlinear_arith)
                requires 0 <= ni - 1 <= 255, -38652 <= lt <= 38652;
        }
        delta = frac_mul16((ni - 1) * 128, lt);
        proof {
            let pr = ((ni - 1) * 128) * lt;
            assert(-40000 <= (16384 + pr) / 32768 <= 40000);
        }
    }
    proof {
        lemma_tell_frac_bounds(rd@);
    }
    ThetaSplit { inv, imid, iside, delta, itheta, qalloc, b: b2, fill: fill2 }
}

/// The cost in eighth-bits of pulse level `q` of a cache entry `c`.
pub open spec fn level_cost(c: Seq<u8>, q: int) -> int {
    if q == 0 {
        0
    } else {
        c[q] + 1
    }
}

/// Lowers level `q` while the bits left after paying for it, `rem`, are
/// negative: the level kept and the bits left after it.
pub open spec fn lower_level(c: Seq<u8>, q: int, rem: int) -> (int, int)
    decreases q,
{
    if rem < 0 && q > 0 {
        lower_level(c, q - 1, rem + level_cost(c, q) - level_cost(c, q - 1))
    } else {
        (q, rem)
    }
}

/// The entry of band `band` at frame size `lm` in a pulse cache.
pub open spec fn cache_entry(cache: &PulseCache, nb: int, lm: int, band: int) -> Seq<u8> {
    cache.bits@.skip(cache.index@[slot(nb, lm + 1, band)] as int)
}

/// The pulse level of an unsplit band given `b` eighth-bits, with
/// `remaining` eighth-bits left in the frame: the level that spends closest
/// to `b`, lowered while the frame's bits would go negative; and the bits
/// left after it.
pub fn leaf_pulses(cache: &PulseCache, nb: usize, band: usize, lm: i32, b: i32, remaining: i32) -> (r: (i32, i32))
    requires
        -1 <= lm <= 3,
        has_entry(cache.index@, cache.bits@, nb as int, lm + 1, band as int),
        b > i32::MIN + 256,
        -0x4000_0000 <= remaining <= 0x4000_0000,
    ensures
        ({
            let c = cache_entry(cache, nb as int, lm as int, band as int);
            let q0 = spec_bits2pulses(c, b as int);
            &&& (r.0 as int, r.1 as int) == lower_level(c, q0, remaining - level_cost(c, q0))
            &&& r.1 == remaining - level_cost(c, r.0 as int)
            &&& 0 <= r.0 <= c[0]
        }),
        r.0 >= 0,
{
    let ghost c = cache_entry(cache, nb as int, lm as int, band as int);
    let ghost base = cache.index@[slot(nb as int, lm + 1, band as int)] as int;
    let mut q = bits2pulses(cache, nb, band, lm, b);
    let mut curr = pulses2bits(cache, nb, band, lm, q);
    let mut rem = remaining - curr;
    let ghost q0 = q as int;
    while rem < 0 && q > 0
        invariant
            0 <= q <= cache.bits@[base],
            has_entry(cache.index@, cache.bits@, nb as int, lm + 1, band as int),
            base == cache.index@[slot(nb as int, lm + 1, band as int)] as int,
            c == cache.bits@.skip(base),
            -1 <= lm <= 3,
            curr as int == level_cost(c, q as int),
            -0x4000_0000 <= remaining <= 0x4000_0000,
            0 <= curr <= 256,
            rem == remaining - curr,
            lower_level(c, q0, remaining - level_cost(c, q0)) == lower_level(c, q as int, rem as int),
        decreases q,
    {
        rem = rem + curr;
        q = q - 1;
        curr = pulses2bits(cache, nb, band, lm, q);
        rem = rem - curr;
    }
    (q, rem)
}

/// Whether a band of `n` samples with `b` eighth-bits is split in two: not
/// at the finest resolution, wider than two samples, and richer than the
/// largest codebook of its entry by more than 1.5 bits.
pub open spec fn splits(c: Seq<u8>, n: int, b: int, lm: int) -> bool {
    lm != -1 && b > c[c[0] as int] + 12 && n > 2
}

/// Decides whether a band is split (see `splits`).
pub fn should_split(cache: &PulseCache, nb: usize, band: usize, lm: i32, b: i32, n: usize) -> (r: bool)
    requires
        -1 <= lm <= 3,
        has_entry(cache.index@, cache.bits@, nb as int, lm + 1, band as int),
        b > i32::MIN + 256,
    ensures
        r == splits(cache_entry(cache, nb as int, lm as int, band as int), n as int, b as int, lm as int),
{
    let il = cache.index.len();
    let bl = cache.bits.len();
    let row = (lm + 1) as usize;
    let base = cache.index[row * nb + band] as usize;
    let top = cache.bits[base] as usize;
    lm != -1 && b > cache.bits[base + top] as i32 + 12 && n > 2
}

/// The eighth-bits given to the mid and side halves of a split band of
/// `2n` samples: `delta` moved towards the side (less so in short blocks
/// of a split transient), half the rest to the mid, clamped to `[0, b]`.
#[verifier::opaque]
pub open spec fn split_bits_spec(b: int, delta: int, itheta: int, b0: int, lm: int, n: int) -> (int, int) {
    let d = if b0 > 1 && itheta % 16384 != 0 {
        if itheta > 8192 {
            delta - delta / (pow2((4 - lm) as nat) as int)
        } else {
            let t = delta + (n * 8) / (pow2((5 - lm) as nat) as int);
            if t < 0 { t } else { 0 }
        }
    } else {
        delta
    };
    let h = tdiv(b - d, 2);
    let mb = if b < h { b } else { h };
    let mbits = if mb > 0 { mb } else { 0 };
    (mbits, b - mbits)
}

/// Shares the bits of a split band between its halves (see
/// `split_bits_spec`); `lm` is the resolution of the halves.
pub fn split_bits(b: i32, delta: i32, itheta: i32, b0: i32, lm: i32, n: usize) -> (r: (i32, i32))
    requires
        -0x100_0000 <= b <= 0x100_0000,
        -0x100_0000 <= delta <= 0x100_0000,
        0 <= itheta <= 16384,
        -1 <= lm <= 2,
        1 <= n <= 256,
    ensures
        (r.0 as int, r.1 as int) == split_bits_spec(b as int, delta as int, itheta as int, b0 as int, lm as int,
            n as int),
{
    proof {
        reveal(split_bits_spec);
    }
    proof {
        lemma2_to64();
        assert(itheta & 0x3fff == itheta % 16384) by (bit_vector)
            requires 0 <= itheta;
    }
    let mut d = delta;
    if b0 > 1 && (itheta & 0x3fff) != 0 {
        if itheta > 8192 {
            let sh = shr_i32(delta, (4 - lm) as u32);
            proof {
                let p = pow2((4 - lm) as nat) as int;
                lemma_pow2_pos((4 - lm) as nat);
                vstd::arithmetic::div_mod::lemma_fundamental_div_mod(delta as int, p);
                vstd::arithmetic::div_mod::lemma_mod_bound(delta as int, p);
                assert(-0x100_0000 <= sh <= 0x100_0000) by (nonlinear_arith)
                    requires delta == p * sh + (delta as int) % p, 0 <= (delta as int) % p < p, p >= 1,
                    -0x100_0000 <= delta <= 0x100_0000;
            }
            d = delta - sh;
        } else {
            let sh = shr_i32((n as i32) * 8, (5 - lm) as u32);
            proof {
                let p = pow2((5 - lm) as nat) as int;
                lemma_pow2_pos((5 - lm) as nat);
                vstd::arithmetic::div_mod::lemma_div_is_ordered(0, n * 8, p);
                vstd::arithmetic::div_mod::lemma_div_is_ordered_by_denominator(n * 8, 1, p);
            }
            let t = delta + sh;
            d = if t < 0 { t } else { 0 };
        }
    }
    let h = (b - d) / 2;
    proof {
        assert(h as int == tdiv(b - d, 2));
    }
    let mb = if b < h { b } else { h };
    let mbits = if mb > 0 { mb } else { 0 };
    (mbits, b - mbits)
}

/// The bits passed on to the second half of a split: what the first half
/// left of its `budget` after spending `spent`, beyond three bits, when
/// `allow` (the angle gives the second half any energy).
pub fn rebalance(budget: i32, spent: i32, other: i32, allow: bool) -> (r: i32)
    requires
        -0x100_0000 <= budget <= 0x100_0000,
        -0x100_0000 <= spent <= 0x100_0000,
        -0x100_0000 <= other <= 0x100_0000,
    ensures
        r == if budget - spent > 24 && allow { other + budget - spent - 24 } else { other as int },
{
    let reb = budget - spent;
    if reb > 24 && allow {
        other + reb - 24
    } else {
        other
    }
}

/// A split's fold mask is the band's, or part of its bits.
pub proof fn lemma_theta_fill(
    s: RangeState,
    n: int,
    b: int,
    bparam: int,
    b0: int,
    lm: int,
    stereo: bool,
    fill: i32,
    log_n: int,
    past_intensity: bool,
    remaining: int,
)
    requires
        fill >= 0,
    ensures
        0 <= theta_spec(s, n, b, bparam, b0, lm, stereo, fill, log_n, past_intensity, remaining).1.fill <= fill,
{
    reveal(theta_spec);
    let mask = (pow2(bparam as nat) - 1) as i32;
    crate::arith::lemma_i32_and_le(fill, mask);
    crate::arith::lemma_i32_and_le(fill, ((mask as int) * pow2(bparam as nat)) as i32);
}

/// A split shares the budget exactly, `mbits + sbits == b`; the mid half
/// gets at least nothing and at most the whole budget; with one block (or
/// an angle at either end) it gets half of what `delta` leaves, rounded
/// towards zero: `2 * mbits` is `b - delta` or one less in magnitude,
/// unless that leaves the range `[0, b]`.
pub proof fn lemma_split_shares(b: int, delta: int, itheta: int, b0: int, lm: int, n: int)
    ensures
        ({
            let (mbits, sbits) = split_bits_spec(b, delta, itheta, b0, lm, n);
            &&& mbits + sbits == b
            &&& mbits >= 0
            &&& b >= 0 ==> mbits <= b
            &&& b < 0 ==> mbits == 0
            &&& (b0 <= 1 || itheta == 0 || itheta == 16384) && 0 <= b - delta <= 2 * b ==> (2 * mbits == b - delta || 2
                * mbits == b - delta - 1)
            &&& (b0 <= 1 || itheta == 0 || itheta == 16384) && b - delta > 2 * b && b >= 0 ==> mbits == b
            &&& (b0 <= 1 || itheta == 0 || itheta == 16384) && b - delta < 0 ==> mbits == 0
        }),
{
    reveal(split_bits_spec);
    assert(16384int % 16384 == 0);
}

} // verus!
