//! The fixed-point helpers of CELT band decoding: the noise generator, the
//! Q15 multiply, the bit-exact cosine and log-tangent used for stereo angles,
//! the integer square root, and the angle resolution of a split.
use vstd::prelude::*;
use vstd::arithmetic::power2::*;
use vstd::bits::{lemma_u32_pow2_no_overflow, lemma_u32_shl_is_mul, lemma_u32_shr_is_div};
use crate::arith::{ilog, lemma_i32_shr, lemma_ilog_u32, pow2_i32, shr_i32};
use crate::opus::range::ec_ilog;
use crate::opus::celt::rate::tdiv;

verus! {

/// The next state of the linear congruential noise generator.
pub open spec fn lcg_next(seed: u32) -> u32 {
    ((1664525 * seed as int + 1013904223) % 0x1_0000_0000) as u32
}

/// Steps the noise generator.
pub fn celt_lcg_rand(seed: u32) -> (r: u32)
    ensures
        r == lcg_next(seed),
{
    let m = 1664525u32.wrapping_mul(seed);
    proof {
        vstd::arithmetic::div_mod::lemma_add_mod_noop(1664525 * seed as int, 1013904223, 0x1_0000_0000);
        vstd::arithmetic::div_mod::lemma_small_mod(1013904223, 0x1_0000_0000);
        vstd::arithmetic::div_mod::lemma_mod_bound(1664525 * seed as int, 0x1_0000_0000);
        let t = m as int + 1013904223;
        if t >= 0x1_0000_0000 {
            vstd::arithmetic::div_mod::lemma_mod_sub_multiples_vanish(t, 0x1_0000_0000);
            vstd::arithmetic::div_mod::lemma_small_mod((t - 0x1_0000_0000) as nat, 0x1_0000_0000);
        } else {
            vstd::arithmetic::div_mod::lemma_small_mod(t as nat, 0x1_0000_0000);
        }
    }
    m.wrapping_add(1013904223)
}

/// `a * b` in Q15, rounded to nearest with ties upwards.
pub open spec fn fmul16(a: int, b: int) -> int {
    (16384 + a * b) / 32768
}

/// The Q15 product of `a` and `b`.
pub fn frac_mul16(a: i32, b: i32) -> (r: i32)
    requires
        i32::MIN <= a * b,
        a * b + 16384 <= i32::MAX,
    ensures
        r == fmul16(a as int, b as int),
{
    let x = 16384 + a * b;
    proof {
        vstd::arithmetic::power2::lemma2_to64();
    }
    shr_i32(x, 15)
}

/// The bit-exact Q15 cosine of a Q14 quarter-turn angle `x`, as a sum of
/// Q15 products.
pub open spec fn cos_q14(x: int) -> int {
    let t = (4096 + x * x) / 8192;
    1 + (32767 - t) + fmul16(t, -7651 + fmul16(t, 8277 + fmul16(-626, t)))
}

proof fn lemma_mul_le(t: int, a: int, hi: int, amax: int)
    by (nonlinear_arith)
    requires
        0 <= t <= hi,
        a <= amax,
        0 <= amax,
    ensures
        t * a <= hi * amax,
{
}

proof fn lemma_mul_ge(t: int, a: int, hi: int, amin: int)
    by (nonlinear_arith)
    requires
        0 <= t <= hi,
        amin <= a,
        amin <= 0,
    ensures
        t * a >= hi * amin,
{
}

/// The products inside `cos_q14` fit in 32 bits for every square below
/// `2^30 + 4096`.
proof fn lemma_cos_fits(t: int)
    requires
        0 <= t <= 131072,
    ensures
        -2504 <= fmul16(-626, t) <= 0,
        0 <= t * (8277 + fmul16(-626, t)) <= 1_084_882_944,
        0 <= fmul16(t, 8277 + fmul16(-626, t)) <= 33108,
        -1_002_831_872 <= t * (-7651 + fmul16(t, 8277 + fmul16(-626, t))),
        t * (-7651 + fmul16(t, 8277 + fmul16(-626, t))) <= 2_147_467_263,
{
    let f1 = fmul16(-626, t);
    let a2 = 8277 + f1;
    lemma_mul_le(t, a2, 131072, 8277);
    assert(t * a2 >= 0) by (nonlinear_arith)
        requires t >= 0, a2 >= 5773;
    let f2 = fmul16(t, a2);
    let a3 = -7651 + f2;
    lemma_mul_ge(t, a3, 131072, -7651);
    if t <= 65536 {
        lemma_mul_le(t, a2, 65536, 8277);
        lemma_mul_le(t, a3, 65536, 8903);
    } else if t <= 98304 {
        lemma_mul_le(t, a2, 98304, 7025);
        lemma_mul_le(t, a3, 98304, 13424);
    } else if t <= 114688 {
        lemma_mul_le(t, a2, 114688, 6399);
        lemma_mul_le(t, a3, 114688, 14746);
    } else if t <= 122880 {
        lemma_mul_le(t, a2, 122880, 6086);
        lemma_mul_le(t, a3, 122880, 15172);
    } else {
        lemma_mul_le(t, a2, 131072, 5930);
        lemma_mul_le(t, a3, 131072, 16069);
    }
}

/// The bit-exact cosine of CELT's stereo angle, for any 16-bit `x`.
pub fn bitexact_cos(x: i32) -> (r: i32)
    requires
        -32768 <= x <= 32767,
    ensures
        r == cos_q14(x as int),
{
    proof {
        assert(0 <= x * x <= 0x4000_0000) by (nonlinear_arith)
            requires -32768 <= x <= 32767;
        vstd::arithmetic::power2::lemma2_to64();
    }
    let tmp = shr_i32(4096 + x * x, 13);
    let x2 = tmp;
    proof {
        lemma_cos_fits(x2 as int);
    }
    let f1 = frac_mul16(-626, x2);
    let f2 = frac_mul16(x2, 8277 + f1);
    let f3 = frac_mul16(x2, -7651 + f2);
    1 + ((32767 - x2) + f3)
}

/// `v` scaled up so that its top bit is bit 14.
pub open spec fn norm15(v: int) -> int {
    v * pow2((15 - ilog(v as nat)) as nat)
}

/// The Q11 log2 of `isin / icos`, from a quadratic fit of each normalised
/// mantissa.
pub open spec fn log2tan_q11(isin: int, icos: int) -> int {
    let s = norm15(isin);
    let c = norm15(icos);
    (ilog(isin as nat) - ilog(icos as nat)) * 2048 + fmul16(s, fmul16(s, -2597) + 7932)
        - fmul16(c, fmul16(c, -2597) + 7932)
}

/// The normalised value of a positive 15-bit number keeps 15 bits.
proof fn lemma_norm15(v: i32)
    requires
        0 <= v <= 32767,
    ensures
        ilog(v as nat) <= 15,
        0 <= norm15(v as int) <= 32767,
{
    lemma_ilog_u32(v as u32);
    let l = ilog(v as nat);
    lemma2_to64();
    if v != 0 {
        if l > 15 {
            lemma_pow2_strictly_increases(14, (l - 1) as nat);
        }
        lemma_pow2_adds(l, (15 - l) as nat);
        lemma_pow2_pos((15 - l) as nat);
        vstd::arithmetic::mul::lemma_mul_strict_inequality(v as int, pow2(l) as int, pow2((15 - l) as nat) as int);
        assert(0 <= v * pow2((15 - l) as nat)) by (nonlinear_arith)
            requires v >= 0, pow2((15 - l) as nat) > 0;
    }
}

/// The Q15 mantissa polynomial of `bitexact_log2tan`.
fn log2_poly(v: i32) -> (r: i32)
    requires
        0 <= v <= 32767,
    ensures
        r == fmul16(v as int, fmul16(v as int, -2597) + 7932),
        0 <= r <= 7932,
{
    proof {
        assert(-85_095_899 <= v * -2597 <= 0) by (nonlinear_arith)
            requires 0 <= v <= 32767;
    }
    let m = frac_mul16(v, -2597);
    proof {
        lemma_mul_le(v as int, (m + 7932) as int, 32767, 7932);
        assert(v * (m + 7932) >= 0) by (nonlinear_arith)
            requires v >= 0, m + 7932 >= 0;
    }
    frac_mul16(v, m + 7932)
}

/// The bit-exact Q11 log2 of `isin / icos`.
pub fn bitexact_log2tan(isin: i32, icos: i32) -> (r: i32)
    requires
        0 <= isin <= 32767,
        0 <= icos <= 32767,
    ensures
        r == log2tan_q11(isin as int, icos as int),
{
    proof {
        lemma_norm15(isin);
        lemma_norm15(icos);
    }
    let lc = ec_ilog(icos as u32);
    let ls = ec_ilog(isin as u32);
    let c = icos * pow2_i32((15 - lc) as u32);
    let s = isin * pow2_i32((15 - ls) as u32);
    (ls - lc) * 2048 + log2_poly(s) - log2_poly(c)
}

/// One step of the square root: the bit `p` joins the root `r` exactly when
/// `(r + p)^2` still fits under the radicand, and the difference of squares
/// fits in 32 bits.
proof fn lemma_sqrt_step(r: int, p: int, v: int, big: int)
    requires
        0 <= r,
        1 <= p,
        r + 2 * p <= 65536,
        v + r * r == big,
    ensures
        (2 * r + p) * p == (r + p) * (r + p) - r * r,
        (2 * r + p) * p <= 0xFFFF_FFFF,
        (v >= (2 * r + p) * p) == (big >= (r + p) * (r + p)),
{
    assert((2 * r + p) * p == (r + p) * (r + p) - r * r) by (nonlinear_arith);
    assert((r + p) * (r + p) <= 65535 * 65535) by (nonlinear_arith)
        requires 0 <= r + p <= 65535;
    assert(r * r >= 0) by (nonlinear_arith);
}

/// The integer square root of a positive 32-bit number, one bit at a time.
pub fn isqrt32(val: u32) -> (r: u32)
    requires
        val >= 1,
    ensures
        r * r <= val < (r + 1) * (r + 1),
{
    let l = ec_ilog(val);
    proof {
        lemma_ilog_u32(val);
        lemma2_to64();
    }
    let mut bshift: i32 = shr_i32(l - 1, 1);
    proof {
        lemma_u32_pow2_no_overflow(bshift as nat);
        lemma_u32_shl_is_mul(1, bshift as u32);
        lemma_pow2_adds((bshift + 1) as nat, (bshift + 1) as nat);
        if (l as nat) < 2 * (bshift + 1) {
            lemma_pow2_strictly_increases(l as nat, (2 * (bshift + 1)) as nat);
        }
        lemma_pow2_unfold((bshift + 1) as nat);
        if bshift < 15 {
            lemma_pow2_strictly_increases((bshift + 1) as nat, 16);
        }
    }
    let mut b: u32 = 1u32 << (bshift as u32);
    let mut g: u32 = 0;
    let mut v: u32 = val;
    loop
        invariant_except_break
            0 <= bshift <= 15,
            b as int == pow2(bshift as nat),
            (g / 2) + 2 * b <= 65536,
            (val as int) < ((g / 2) + 2 * b) * ((g / 2) + 2 * b),
        invariant
            g % 2 == 0,
            v + (g / 2) * (g / 2) == val,
        ensures
            (val as int) < ((g / 2) + 1) * ((g / 2) + 1),
        decreases bshift,
    {
        let ghost rr = (g / 2) as int;
        let ghost p = b as int;
        proof {
            lemma_sqrt_step(rr, p, v as int, val as int);
            lemma_pow2_pos(bshift as nat);
            lemma_u32_shl_is_mul((g + b) as u32, bshift as u32);
        }
        let t = (g + b) << (bshift as u32);
        if v >= t {
            v = v - t;
            proof {
                assert(pow2(1) == 2) by { lemma2_to64(); }
                lemma_u32_shl_is_mul(b, 1);
            }
            g = g + (b << 1);
            proof {
                assert((g / 2) as int == rr + p);
                assert(v + (rr + p) * (rr + p) == val) by (nonlinear_arith)
                    requires v == val - rr * rr - ((rr + p) * (rr + p) - rr * rr);
                assert((rr + p) + p == rr + 2 * p);
            }
        } else {
            proof {
                assert((val as int) < (rr + p) * (rr + p));
            }
        }
        proof {
            assert((val as int) < ((g / 2) + p) * ((g / 2) + p));
            if bshift == 0 {
                assert(pow2(0) == 1) by { lemma2_to64(); }
            }
        }
        proof {
            lemma_u32_shr_is_div(b, 1);
            assert(pow2(1) == 2) by { lemma2_to64(); }
            if bshift >= 1 {
                lemma_pow2_unfold(bshift as nat);
            }
        }
        b = b >> 1;
        bshift = bshift - 1;
        if bshift < 0 {
            break;
        }
    }
    proof {
        lemma_u32_shr_is_div(g, 1);
        assert(pow2(1) == 2) by { lemma2_to64(); }
    }
    g >> 1
}

/// `2^(i/8)` in Q14 for `i < 8`.
pub open spec fn exp2_table8() -> Seq<int> {
    seq![16384, 17866, 19483, 21247, 23170, 25267, 27554, 30048]
}

/// The divisor of the angle resolution: `2n - 1`, or 2 for a stereo pair
/// of two-sample bands.
pub open spec fn qn_divisor(n: int, stereo: bool) -> int {
    if stereo && n == 2 {
        2
    } else {
        2 * n - 1
    }
}

/// The resolution budget of a split, in 1/8 bit, capped by the bits left
/// after the pulse cap and by 8 bits.
pub open spec fn qn_budget(n: int, b: int, offset: int, pulse_cap: int, stereo: bool) -> int {
    let n2 = qn_divisor(n, stereo);
    let q0 = tdiv(b + n2 * offset, n2);
    let q1 = if q0 <= b - pulse_cap - 32 { q0 } else { b - pulse_cap - 32 };
    if q1 <= 64 {
        q1
    } else {
        64
    }
}

/// The number of angle steps of a split: 1 below half a bit, else
/// `2^(qb/8)` rounded to an even number.
pub open spec fn qn_spec(n: int, b: int, offset: int, pulse_cap: int, stereo: bool) -> int {
    let qb = qn_budget(n, b, offset, pulse_cap, stereo);
    if qb < 4 {
        1
    } else {
        let qn = exp2_table8()[qb % 8] / pow2((14 - qb / 8) as nat) as int;
        (qn + 1) / 2 * 2
    }
}

/// The angle resolution for splitting a band of `n` samples that has `b`
/// bits, in 1/8 bit.
pub fn compute_qn(n: i32, b: i32, offset: i32, pulse_cap: i32, stereo: bool) -> (r: i32)
    requires
        1 <= n <= 0x3FFF_FFFF,
        i32::MIN <= qn_divisor(n as int, stereo) * offset <= i32::MAX,
        i32::MIN <= b + qn_divisor(n as int, stereo) * offset <= i32::MAX,
        i32::MIN + 32 <= b - pulse_cap <= i32::MAX,
    ensures
        r == qn_spec(n as int, b as int, offset as int, pulse_cap as int, stereo),
{
    let mut n2 = 2 * n - 1;
    if stereo && n == 2 {
        n2 = n2 - 1;
    }
    let num = b + n2 * offset;
    let mut qb = num / n2;
    assert(qb as int == tdiv(num as int, n2 as int));
    let cap = b - pulse_cap - 32;
    if cap < qb {
        qb = cap;
    }
    if 64 < qb {
        qb = 64;
    }
    if qb < 4 {
        1
    } else {
        let t: [i32; 8] = [16384, 17866, 19483, 21247, 23170, 25267, 27554, 30048];
        assert(t@.map_values(|x: i32| x as int) =~= exp2_table8());
        proof {
            assert(qb & 7 == qb % 8 && qb >> 3 == qb / 8) by (bit_vector)
                requires qb >= 0;
        }
        let e = t[(qb & 7) as usize];
        proof {
            assert(t@[qb as int % 8] as int == exp2_table8()[qb as int % 8]);
        }
        let qn = shr_i32(e, (14 - (qb >> 3)) as u32);
        proof {
            lemma_pow2_pos((14 - qb / 8) as nat);
            lemma2_to64();
        }
        shr_i32(qn + 1, 1) * 2
    }
}

proof fn lemma_cos_terms(t: int)
    requires
        1 <= t <= 32513,
    ensures
        -621 <= fmul16(-626, t) <= 0,
        t >= 30290 ==> fmul16(-626, t) <= -579,
{
}

/// The lower bound of the cosine polynomial on `lo <= t <= hi`, from the
/// least value the inner product can take at `lo`.
proof fn lemma_cos_piece(t: int, lo: int, hi: int, m: int)
    requires
        1 <= lo <= t <= hi <= 32513,
        m == (16384 + lo * 7655) / 32768,
        -7651 + m <= 0,
        32768 - hi + (16384 + hi * (-7651 + m)) / 32768 >= 0,
    ensures
        0 <= 1 + (32767 - t) + fmul16(t, -7651 + fmul16(t, 8277 + fmul16(-626, t))),
{
    lemma_cos_terms(t);
    let a2 = 8277 + fmul16(-626, t);
    assert(t * a2 >= lo * 7655) by (nonlinear_arith)
        requires t >= lo >= 1, a2 >= 7655;
    vstd::arithmetic::div_mod::lemma_div_is_ordered(16384 + lo * 7655, 16384 + t * a2, 32768);
    let a3 = -7651 + fmul16(t, a2);
    lemma_mul_ge(t, a3, hi, -7651 + m);
    vstd::arithmetic::div_mod::lemma_div_is_ordered(16384 + hi * (-7651 + m), 16384 + t * a3, 32768);
}

/// On the angles a split can produce, the cosine stays inside 15 bits.
pub proof fn lemma_cos_range(x: int)
    requires
        64 <= x <= 16320,
    ensures
        0 <= cos_q14(x) <= 32767,
{
    assert(4096 <= x * x <= 266342400) by (nonlinear_arith)
        requires 64 <= x <= 16320;
    let t = (4096 + x * x) / 8192;
    assert(1 <= t <= 32513);
    lemma_cos_terms(t);
    let a2 = 8277 + fmul16(-626, t);
    if t <= 30289 {
        lemma_mul_le(t, a2, 30289, 8277);
    } else {
        lemma_mul_le(t, a2, 32513, 7698);
    }
    assert(t * a2 >= 0) by (nonlinear_arith)
        requires t >= 1, a2 >= 7655;
    let a3 = -7651 + fmul16(t, a2);
    assert(a3 <= 0);
    assert(t * a3 <= 0) by (nonlinear_arith)
        requires t >= 1, a3 <= 0;
    if t <= 4000 {
        lemma_cos_piece(t, 1, 4000, 0);
    } else if t <= 8177 {
        lemma_cos_piece(t, 4000, 8177, 934);
    } else if t <= 16000 {
        lemma_cos_piece(t, 8177, 16000, 1910);
    } else if t <= 22000 {
        lemma_cos_piece(t, 16000, 22000, 3738);
    } else if t <= 27880 {
        lemma_cos_piece(t, 22000, 27880, 5139);
    } else if t <= 30000 {
        lemma_cos_piece(t, 27880, 30000, 6513);
    } else if t <= 31665 {
        lemma_cos_piece(t, 30000, 31665, 7008);
    } else if t <= 32200 {
        lemma_cos_piece(t, 31665, 32200, 7397);
    } else {
        lemma_cos_piece(t, 32200, 32513, 7522);
    }
}

proof fn lemma_poly_range(v: int)
    requires
        0 <= v <= 32767,
    ensures
        0 <= fmul16(v, fmul16(v, -2597) + 7932) <= 7932,
{
    assert(-85_095_899 <= v * -2597 <= 0) by (nonlinear_arith)
        requires 0 <= v <= 32767;
    let m = fmul16(v, -2597);
    lemma_mul_le(v, m + 7932, 32767, 7932);
    assert(v * (m + 7932) >= 0) by (nonlinear_arith)
        requires v >= 0, m + 7932 >= 0;
}

/// The Q11 log-tangent of two 15-bit values lies within 15 octaves plus
/// the mantissa correction.
pub proof fn lemma_log2tan_range(isin: i32, icos: i32)
    requires
        0 <= isin <= 32767,
        0 <= icos <= 32767,
    ensures
        -38652 <= log2tan_q11(isin as int, icos as int) <= 38652,
{
    lemma_norm15(isin);
    lemma_norm15(icos);
    lemma_poly_range(norm15(isin as int));
    lemma_poly_range(norm15(icos as int));
}

/// The number of angle steps is 1, or an even number from 2 to 256.
#[verifier::spinoff_prover]
pub proof fn lemma_qn_range(n: int, b: int, offset: int, pulse_cap: int, stereo: bool)
    ensures
        qn_spec(n, b, offset, pulse_cap, stereo) == 1 || (2 <= qn_spec(n, b, offset, pulse_cap, stereo) <= 256
            && qn_spec(n, b, offset, pulse_cap, stereo) % 2 == 0),
{
    let qb = qn_budget(n, b, offset, pulse_cap, stereo);
    if qb >= 4 {
        let t = exp2_table8();
        assert(t[0] == 16384 && t[1] == 17866 && t[2] == 19483 && t[3] == 21247);
        assert(t[4] == 23170 && t[5] == 25267 && t[6] == 27554 && t[7] == 30048);
        let e = t[qb % 8];
        assert(16384 <= e <= 30048);
        let k = (14 - qb / 8) as nat;
        lemma2_to64();
        if k > 6 {
            lemma_pow2_strictly_increases(6, k);
        }
        if k < 14 {
            lemma_pow2_strictly_increases(k, 14);
        }
        let p = pow2(k) as int;
        let q = e / p;
        assert(1 <= p <= 16384);
        assert(q >= 1) by {
            vstd::arithmetic::div_mod::lemma_div_is_ordered_by_denominator(e, p, 16384);
            vstd::arithmetic::div_mod::lemma_div_is_ordered(16384, e, 16384);
            assert(16384int / 16384 == 1);
        }
        if qb == 64 {
            assert(k == 6);
            assert(p == 64);
            assert(e == 16384);
            assert(16384int / 64 == 256);
            assert(q == 256);
        } else {
            assert(q <= 234) by {
                if k > 7 {
                    lemma_pow2_strictly_increases(7, k);
                }
                assert(p >= 128);
                vstd::arithmetic::div_mod::lemma_div_is_ordered_by_denominator(e, 128, p);
                vstd::arithmetic::div_mod::lemma_div_is_ordered(e, 30048, 128);
                assert(30048int / 128 == 234);
            }
        }
    }
}

} // verus!
