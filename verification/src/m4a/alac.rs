//! The Apple Lossless decoder: adaptive Rice coding of prediction errors,
//! an adaptive FIR predictor, and stereo unmixing. Sample arithmetic is
//! 32-bit two's complement, wrapping as the reference decoder's does.
use vstd::prelude::*;
use vstd::wrapping::i32_specs;
use vstd::wrapping::u32_specs;
use crate::arith::ilog;
use crate::flac::bits::{BitReader, POS_CAP, rd, sext, lemma_rd};
use crate::m4a::mp4::AlacConfig;
use crate::opus::range::ec_ilog;

verus! {

/// An ALAC decoder for one configuration.
pub struct Alac {
    frame_length: u32,
    bit_depth: u32,
    pb: u32,
    mb: u32,
    kb: i32,
}

impl Alac {
    #[verifier::type_invariant]
    spec fn inv(self) -> bool {
        &&& self.bit_depth <= 255
        &&& self.pb <= 255
        &&& self.mb <= 255
        &&& 0 <= self.kb <= 255
    }

    pub closed spec fn spec_frame_length(self) -> u32 {
        self.frame_length
    }

    pub closed spec fn spec_bit_depth(self) -> u32 {
        self.bit_depth
    }

    pub closed spec fn spec_pb(self) -> u32 {
        self.pb
    }

    pub closed spec fn spec_mb(self) -> u32 {
        self.mb
    }

    pub closed spec fn spec_kb(self) -> i32 {
        self.kb
    }

    /// A decoder for the configuration of the sample description.
    pub fn new(cfg: &AlacConfig) -> (r: Self)
        ensures
            r.spec_frame_length() == cfg.frame_length,
            r.spec_bit_depth() == cfg.bit_depth,
            r.spec_pb() == cfg.pb,
            r.spec_mb() == cfg.mb,
            r.spec_kb() == cfg.kb,
    {
        Alac {
            frame_length: cfg.frame_length,
            bit_depth: cfg.bit_depth as u32,
            pb: cfg.pb as u32,
            mb: cfg.mb as u32,
            kb: cfg.kb as i32,
        }
    }

    /// Packets decode independently: there is no state to clear.
    pub fn reset(&mut self)
        ensures
            *final(self) == *old(self),
        no_unwind
    {
    }

    /// Samples per packet unless a packet says fewer.
    pub fn frame_length(&self) -> (r: u32)
        ensures
            r == self.spec_frame_length(),
    {
        self.frame_length
    }

    /// Bits per output sample.
    pub fn bit_depth(&self) -> (r: u32)
        ensures
            r == self.spec_bit_depth(),
    {
        self.bit_depth
    }
}

/// A bit of the packet, with the position after it.
pub open spec fn bit1(d: Seq<u8>, pos: int) -> (nat, int) {
    rd(d, pos, 1)
}

/// Up to nine one bits before a zero: their count and the position after
/// the zero (no zero is read after the ninth one).
pub open spec fn ones9(d: Seq<u8>, pos: int, x: nat) -> (nat, int)
    decreases 9 - x,
{
    if x > 8 {
        (x, pos)
    } else {
        let (b, p) = bit1(d, pos);
        if b == 1 {
            ones9(d, p, x + 1)
        } else {
            (x, p)
        }
    }
}

/// One adaptive-Rice value: a unary prefix of at most eight ones (nine
/// escape to a raw `sample_size`-bit value), then for `k >= 2` a `k`-bit
/// suffix, of which values below 2 give back their last bit.
pub open spec fn dv(d: Seq<u8>, pos: int, sample_size: nat, k: nat) -> (nat, int) {
    let (x, p1) = ones9(d, pos, 0);
    if x > 8 {
        let (v, p2) = rd(d, p1, sample_size);
        (v % 0x1_0000_0000, p2)
    } else if k >= 2 {
        let (extra, p2) = rd(d, p1, k);
        let m = x * ((vstd::arithmetic::power2::pow2(k) - 1) as nat);
        if extra > 1 {
            ((m + extra - 1) as nat, p2)
        } else {
            (m, p2 - 1)
        }
    } else {
        (x, p1)
    }
}

fn decode_value(br: &mut BitReader, sample_size: u32, k: u32) -> (r: u32)
    requires
        old(br).wf(),
        old(br).pos + 100 <= POS_CAP,
        sample_size <= 33,
        k <= 24,
    ensures
        final(br).data@ == old(br).data@,
        final(br).wf(),
        (r as nat, final(br).pos as int) == dv(old(br).data@, old(br).pos as int, sample_size as nat, k as nat),
        old(br).pos <= final(br).pos <= old(br).pos + 42,
{
    let ghost d = br.data@;
    let ghost p0 = br.pos as int;
    let mut x: u32 = 0;
    loop
        invariant_except_break
            ones9(d, p0, 0) == ones9(d, br.pos as int, x as nat),
            br.pos == p0 + x,
        invariant
            br.data@ == d,
            br.wf(),
            x <= 9,
            p0 + 100 <= POS_CAP,
        ensures
            ones9(d, p0, 0) == (x as nat, br.pos as int),
            x <= 9,
            p0 <= br.pos <= p0 + 9,
            x > 8 ==> br.pos == p0 + 9,
        decreases 9 - x,
    {
        if x > 8 {
            break;
        }
        let b = br.read(1);
        proof {
            lemma_rd(d, p0 + x, 1);
        }
        if b != 1 {
            break;
        }
        x = x + 1;
    }
    proof {
        vstd::arithmetic::power2::lemma2_to64();
    }
    if x > 8 {
        let v = br.read(sample_size);
        proof {
            lemma_rd(d, p0 + 9, sample_size as nat);
        }
        return (v % 0x1_0000_0000) as u32;
    }
    if k >= 2 {
        let ghost p1 = br.pos as int;
        let extra = br.read(k);
        proof {
            lemma_rd(d, p1, k as nat);
            vstd::bits::lemma_u32_shl_is_mul(1, k);
            vstd::bits::lemma_u32_pow2_no_overflow(k as nat);
            vstd::arithmetic::power2::lemma_pow2_strictly_increases(k as nat, 25);
            assert(x * (vstd::arithmetic::power2::pow2(k as nat) - 1) <= 8 * 0x100_0000) by (nonlinear_arith)
                requires x <= 8, vstd::arithmetic::power2::pow2(k as nat) <= 0x100_0000;
        }
        let m = x * ((1u32 << k) - 1);
        if extra > 1 {
            return m + (extra as u32 - 1);
        } else {
            br.pos = br.pos - 1;
            return m;
        }
    }
    x
}

/// The signed value folded into `x`: even values are non-negative.
pub open spec fn unzig(x: u32) -> i32 {
    if x % 2 == 0 {
        (x / 2) as i32
    } else {
        (-((x / 2) as int) - 1) as i32
    }
}

/// The Rice parameter for history `h`, capped at `kb`.
pub open spec fn rice_k(h: u32, kb: int) -> int {
    let k0 = ilog((h / 512 + 3) as nat) - 1;
    if k0 < kb {
        k0
    } else {
        kb
    }
}

/// The history after coding `x` with multiplier `hm`.
pub open spec fn next_history(h: u32, x: u32, hm: u32) -> u32 {
    if x > 0xffff {
        0xffff
    } else {
        u32_specs::wrapping_sub(
            u32_specs::wrapping_add(h, u32_specs::wrapping_mul(x, hm)),
            u32_specs::wrapping_mul(h, hm) / 512,
        )
    }
}

/// The Rice parameter of a zero run after history `h < 128`.
pub open spec fn run_k(h: u32) -> int {
    32 - ilog(h as nat) + (h + 16) / 64 - 24
}

/// `n` prediction errors by adaptive Rice coding, from sample `i` on with
/// history `h` and sign modifier `sm`: the values and the position after.
pub open spec fn rice_loop(
    d: Seq<u8>,
    pos: int,
    n: nat,
    ss: nat,
    hm: u32,
    kb: int,
    i: nat,
    h: u32,
    sm: u32,
    out: Seq<i32>,
) -> (Seq<i32>, int)
    decreases n - i,
{
    if i >= n {
        (out, pos)
    } else {
        let k = rice_k(h, kb);
        let (x0, p1) = dv(d, pos, ss, if k > 0 { k as nat } else { 0 });
        let x = u32_specs::wrapping_add(x0 as u32, sm);
        let out1 = out.push(unzig(x));
        let h1 = next_history(h, x, hm);
        if h1 < 128 && i + 1 < n {
            let kz = run_k(h1);
            let (run, p2) = dv(d, p1, 16, if kz > 0 { kz as nat } else { 0 });
            let cnt: nat = if run < n - (i + 1) { run } else { (n - (i + 1)) as nat };
            rice_loop(
                d,
                p2,
                n,
                ss,
                hm,
                kb,
                i + 1 + cnt,
                0,
                if run > 0xffff { 0 } else { 1 },
                out1 + Seq::new(cnt, |j: int| 0i32),
            )
        } else {
            rice_loop(d, p1, n, ss, hm, kb, i + 1, h1, 0, out1)
        }
    }
}

proof fn lemma_ilog_small(v: u32, b: nat)
    requires
        b <= 32,
        (v as nat) < vstd::arithmetic::power2::pow2(b),
    ensures
        ilog(v as nat) <= b,
{
    crate::arith::lemma_ilog_u32(v);
    if v != 0 && ilog(v as nat) > b {
        if b < (ilog(v as nat) - 1) as nat {
            vstd::arithmetic::power2::lemma_pow2_strictly_increases(b, (ilog(v as nat) - 1) as nat);
        }
    }
}

fn unzig_exec(x: u32) -> (r: i32)
    ensures
        r == unzig(x),
{
    if x % 2 == 0 {
        (x / 2) as i32
    } else {
        -((x / 2) as i32) - 1
    }
}

/// Decodes `n` prediction errors by adaptive Rice coding.
fn rice(br: &mut BitReader, n: usize, ss: u32, hm: u32, mb: u32, kb: i32) -> (r: Vec<i32>)
    requires
        old(br).wf(),
        old(br).pos + 84 * n + 100 <= POS_CAP,
        ss <= 33,
    ensures
        final(br).data@ == old(br).data@,
        final(br).wf(),
        (r@, final(br).pos as int) == rice_loop(old(br).data@, old(br).pos as int, n as nat, ss as nat, hm, kb as int, 0, mb, 0, Seq::empty()),
        final(br).pos <= old(br).pos + 84 * n,
{
    let ghost d = br.data@;
    let ghost p0 = br.pos as int;
    let mut out: Vec<i32> = Vec::new();
    let mut h: u32 = mb;
    let mut sm: u32 = 0;
    let mut i: usize = 0;
    while i < n
        invariant
            br.data@ == d,
            br.wf(),
            i <= n,
            ss <= 33,
            out@.len() == i,
            p0 <= br.pos <= p0 + 84 * i,
            p0 + 84 * n + 100 <= POS_CAP,
            rice_loop(d, p0, n as nat, ss as nat, hm, kb as int, 0, mb, 0, Seq::empty()) == rice_loop(
                d,
                br.pos as int,
                n as nat,
                ss as nat,
                hm,
                kb as int,
                i as nat,
                h,
                sm,
                out@,
            ),
        decreases n - i,
    {
        let v = h / 512 + 3;
        proof {
            vstd::arithmetic::power2::lemma2_to64();
            lemma_ilog_small(v, 24);
            crate::arith::lemma_ilog_u32(v);
        }
        let k0 = ec_ilog(v) - 1;
        let k = if k0 < kb { k0 } else { kb };
        let kk: u32 = if k > 0 { k as u32 } else { 0 };
        let x0 = decode_value(br, ss, kk);
        let x = x0.wrapping_add(sm);
        let ghost out_before = out@;
        out.push(unzig_exec(x));
        i = i + 1;
        h = if x > 0xffff {
            0xffff
        } else {
            h.wrapping_add(x.wrapping_mul(hm)).wrapping_sub(h.wrapping_mul(hm) / 512)
        };
        sm = 0;
        if h < 128 && i < n {
            proof {
                lemma_ilog_small(h, 7);
            }
            let kz: i32 = 32 - ec_ilog(h) + ((h + 16) / 64) as i32 - 24;
            let run = decode_value(br, 16, if kz > 0 { kz as u32 } else { 0 });
            let cnt: usize = if (run as usize) < n - i { run as usize } else { n - i };
            let mut z: usize = 0;
            let ghost out1 = out@;
            while z < cnt
                invariant
                    z <= cnt,
                    out@ == out1 + Seq::new(z as nat, |j: int| 0i32),
                decreases cnt - z,
            {
                out.push(0);
                proof {
                    assert(out1 + Seq::new((z + 1) as nat, |j: int| 0i32) =~= (out1 + Seq::new(z as nat, |j: int| 0i32)).push(0i32));
                }
                z = z + 1;
            }
            i = i + cnt;
            sm = if run > 0xffff { 0 } else { 1 };
            h = 0;
        }
    }
    out
}

/// `v` sign-extended from its low `bits` bits.
pub open spec fn sext32(v: i32, bits: u32) -> i32 {
    i32_specs::wrapping_shl(v, (32 - bits) as u32) >> ((32 - bits) as u32)
}

fn sign_extend(v: i32, bits: u32) -> (r: i32)
    requires
        1 <= bits <= 32,
    ensures
        r == sext32(v, bits),
{
    let s = 32 - bits;
    v.wrapping_shl(s) >> s
}

/// -1, 0 or 1 as `v` is negative, zero or positive.
pub open spec fn sign_of(v: i32) -> i32 {
    if v > 0 {
        1i32
    } else if v < 0 {
        -1i32
    } else {
        0i32
    }
}

/// Samples `out.len() .. upto` of a plain running sum of the errors.
pub open spec fn warm_run(err: Seq<i32>, ss: u32, out: Seq<i32>, upto: nat) -> Seq<i32>
    decreases upto - out.len(),
{
    if out.len() >= upto || out.len() == 0 {
        out
    } else {
        warm_run(err, ss, out.push(sext32(i32_specs::wrapping_add(out.last(), err[out.len() as int]), ss)), upto)
    }
}

/// The prediction sum at `i` over the first `j` coefficients, relative to
/// `top`, in wrapping 64-bit arithmetic.
pub open spec fn fir_sum(out: Seq<i32>, coefs: Seq<i32>, i: int, top: i32, j: nat) -> i64
    decreases j,
{
    if j == 0 {
        0
    } else {
        vstd::wrapping::i64_specs::wrapping_add(
            fir_sum(out, coefs, i, top, (j - 1) as nat),
            ((i32_specs::wrapping_sub(out[i - j], top) as int) * (coefs[j - 1] as int)) as i64,
        )
    }
}

/// Coefficient adaptation after a positive error `e`: from coefficient `k`
/// down, each moves by the sign of its difference until the error is used up.
pub open spec fn adapt_pos(out: Seq<i32>, coefs: Seq<i32>, i: int, num: int, top: i32, quant: u32, e: i32, k: int) -> Seq<i32>
    decreases k + 1,
{
    if k < 0 {
        coefs
    } else {
        let dd = i32_specs::wrapping_sub(out[i - 1 - k], top);
        let sgn = sign_of(dd);
        let c2 = coefs.update(k, i32_specs::wrapping_add(coefs[k], sgn));
        let e2 = i32_specs::wrapping_sub(e, i32_specs::wrapping_mul((num - k) as i32, i32_specs::wrapping_mul(sgn, dd) >> quant));
        if e2 <= 0 {
            c2
        } else {
            adapt_pos(out, c2, i, num, top, quant, e2, k - 1)
        }
    }
}

/// Coefficient adaptation after a negative error.
pub open spec fn adapt_neg(out: Seq<i32>, coefs: Seq<i32>, i: int, num: int, top: i32, quant: u32, e: i32, k: int) -> Seq<i32>
    decreases k + 1,
{
    if k < 0 {
        coefs
    } else {
        let dd = i32_specs::wrapping_sub(out[i - 1 - k], top);
        let sgn = sign_of(dd);
        let c2 = coefs.update(k, i32_specs::wrapping_sub(coefs[k], sgn));
        let e2 = i32_specs::wrapping_sub(
            e,
            i32_specs::wrapping_mul((num - k) as i32, i32_specs::wrapping_sub(0, i32_specs::wrapping_mul(sgn, dd)) >> quant),
        );
        if e2 >= 0 {
            c2
        } else {
            adapt_neg(out, c2, i, num, top, quant, e2, k - 1)
        }
    }
}

/// The predicted sample at `out.len()` and the adapted coefficients.
pub open spec fn fir_step(err: Seq<i32>, ss: u32, num: int, quant: u32, out: Seq<i32>, coefs: Seq<i32>) -> (i32, Seq<i32>) {
    let i = out.len() as int;
    let top = out[i - num - 1];
    let sum = fir_sum(out, coefs, i, top, num as nat);
    let denhalf = vstd::wrapping::i64_specs::wrapping_shl(1, u32_specs::wrapping_sub(quant, 1));
    let e = err[i];
    let ov = vstd::wrapping::i64_specs::wrapping_add(
        vstd::wrapping::i64_specs::wrapping_add(vstd::wrapping::i64_specs::wrapping_add(denhalf, sum) >> quant, top as i64),
        e as i64,
    );
    let v = sext32(ov as i32, ss);
    let c2 = if e > 0 {
        adapt_pos(out, coefs, i, num, top, quant, e, num - 1)
    } else if e < 0 {
        adapt_neg(out, coefs, i, num, top, quant, e, num - 1)
    } else {
        coefs
    };
    (v, c2)
}

/// Samples `out.len() .. n` of the adaptive predictor.
pub open spec fn fir_run(err: Seq<i32>, ss: u32, num: int, quant: u32, out: Seq<i32>, coefs: Seq<i32>, n: nat) -> Seq<i32>
    decreases n - out.len(),
{
    if out.len() >= n || out.len() <= num {
        out
    } else {
        let (v, c2) = fir_step(err, ss, num, quant, out, coefs);
        fir_run(err, ss, num, quant, out.push(v), c2, n)
    }
}

/// The `n` samples the predictor of `num` coefficients rebuilds from the
/// errors: none (a copy), the running sum (31), or the running sum for the
/// first `num` and then the adaptive filter.
pub open spec fn fir_spec(err: Seq<i32>, n: nat, ss: u32, coefs: Seq<i32>, num: int, quant: u32) -> Seq<i32> {
    let first = seq![err[0]];
    if num == 0 {
        err.take(n as int)
    } else if num == 31 {
        warm_run(err, ss, first, n)
    } else {
        fir_run(err, ss, num, quant, warm_run(err, ss, first, (num + 1) as nat), coefs, n)
    }
}

fn sign_of_exec(v: i32) -> (r: i32)
    ensures
        r == sign_of(v),
{
    if v > 0 {
        1
    } else if v < 0 {
        -1
    } else {
        0
    }
}

fn adapt(out: &Vec<i32>, coefs: &mut Vec<i32>, i: usize, num: usize, top: i32, quant: u32, e0: i32)
    requires
        1 <= num <= 30,
        quant <= 15,
        num < i <= out@.len(),
        num <= old(coefs)@.len(),
    ensures
        final(coefs)@.len() == old(coefs)@.len(),
        final(coefs)@ == if e0 > 0 {
            adapt_pos(out@, old(coefs)@, i as int, num as int, top, quant, e0, num - 1)
        } else if e0 < 0 {
            adapt_neg(out@, old(coefs)@, i as int, num as int, top, quant, e0, num - 1)
        } else {
            old(coefs)@
        },
{
    if e0 == 0 {
        return;
    }
    let ghost c0 = coefs@;
    let mut e = e0;
    let mut k = num;
    loop
        invariant_except_break
            e0 > 0 ==> adapt_pos(out@, c0, i as int, num as int, top, quant, e0, num - 1) == adapt_pos(
                out@,
                coefs@,
                i as int,
                num as int,
                top,
                quant,
                e,
                k - 1,
            ),
            e0 < 0 ==> adapt_neg(out@, c0, i as int, num as int, top, quant, e0, num - 1) == adapt_neg(
                out@,
                coefs@,
                i as int,
                num as int,
                top,
                quant,
                e,
                k - 1,
            ),
            e0 > 0 ==> e > 0,
            e0 < 0 ==> e < 0,
        invariant
            e0 != 0,
            quant <= 15,
            k <= num <= 30,
            num < i <= out@.len(),
            coefs@.len() == c0.len(),
            num <= c0.len(),
        ensures
            coefs@.len() == c0.len(),
            e0 > 0 ==> coefs@ == adapt_pos(out@, c0, i as int, num as int, top, quant, e0, num - 1),
            e0 < 0 ==> coefs@ == adapt_neg(out@, c0, i as int, num as int, top, quant, e0, num - 1),
        decreases k,
    {
        if k == 0 {
            break;
        }
        k = k - 1;
        let dd = out[i - 1 - k].wrapping_sub(top);
        let sgn = sign_of_exec(dd);
        let w = ((num - k) as i32);
        if e0 > 0 {
            let c = coefs[k].wrapping_add(sgn);
            coefs.set(k, c);
            e = e.wrapping_sub(w.wrapping_mul(sgn.wrapping_mul(dd) >> quant));
            if e <= 0 {
                break;
            }
        } else {
            let c = coefs[k].wrapping_sub(sgn);
            coefs.set(k, c);
            e = e.wrapping_sub(w.wrapping_mul(0i32.wrapping_sub(sgn.wrapping_mul(dd)) >> quant));
            if e >= 0 {
                break;
            }
        }
    }
}

fn fir_predict(err: &Vec<i32>, ss: u32, num: usize, quant: u32, out: &Vec<i32>, coefs: &mut Vec<i32>) -> (v: i32)
    requires
        1 <= num <= 30,
        num < out@.len() < err@.len(),
        num <= old(coefs)@.len(),
        1 <= ss <= 32,
        quant <= 15,
    ensures
        final(coefs)@.len() == old(coefs)@.len(),
        (v, final(coefs)@) == fir_step(err@, ss, num as int, quant, out@, old(coefs)@),
{
    let i = out.len();
    let top = out[i - num - 1];
    let mut sum: i64 = 0;
    let mut j: usize = 0;
    while j < num
        invariant
            j <= num <= 30,
            num < i == out@.len(),
            num <= coefs@.len(),
            sum == fir_sum(out@, coefs@, i as int, top, j as nat),
        decreases num - j,
    {
        let dd = out[i - 1 - j].wrapping_sub(top);
        let c = coefs[j];
        proof {
            assert((dd as int) * (c as int) <= 0x4000_0000_0000_0000 && (dd as int) * (c as int) >= -0x4000_0000_0000_0000) by (nonlinear_arith)
                requires -0x8000_0000 <= dd < 0x8000_0000, -0x8000_0000 <= c < 0x8000_0000;
            assert(i - (j + 1) as nat == i - 1 - j);
        }
        sum = sum.wrapping_add(dd as i64 * c as i64);
        j = j + 1;
    }
    let denhalf = 1i64.wrapping_shl(quant.wrapping_sub(1));
    let e = err[i];
    let ov = (denhalf.wrapping_add(sum) >> quant).wrapping_add(top as i64).wrapping_add(e as i64);
    let v = sign_extend(ov as i32, ss);
    adapt(out, coefs, i, num, top, quant, e);
    v
}

/// Rebuilds `n` samples from prediction errors with `num` coefficients.
fn fir(err: &Vec<i32>, n: usize, ss: u32, coefs: &mut Vec<i32>, num: usize, quant: u32) -> (r: Vec<i32>)
    requires
        1 <= n <= err@.len(),
        1 <= ss <= 32,
        quant <= 15,
        num <= 31,
        num <= old(coefs)@.len(),
        num == 0 || num == 31 || num < n,
    ensures
        r@ == fir_spec(err@, n as nat, ss, old(coefs)@, num as int, quant),
{
    let mut out: Vec<i32> = Vec::new();
    out.push(err[0]);
    if num == 0 {
        let mut i: usize = 1;
        while i < n
            invariant
                1 <= i <= n <= err@.len(),
                out@ == err@.take(i as int),
            decreases n - i,
        {
            out.push(err[i]);
            proof {
                assert(err@.take(i + 1) =~= err@.take(i as int).push(err@[i as int]));
            }
            i = i + 1;
        }
        return out;
    }
    let upto = if num == 31 { n } else { num + 1 };
    let ghost first = seq![err@[0]];
    proof {
        assert(out@ =~= first);
    }
    while out.len() < upto
        invariant
            1 <= out@.len() <= upto <= n <= err@.len(),
            1 <= ss <= 32,
            warm_run(err@, ss, first, upto as nat) == warm_run(err@, ss, out@, upto as nat),
        decreases upto - out@.len(),
    {
        let i = out.len();
        let v = sign_extend(out[i - 1].wrapping_add(err[i]), ss);
        out.push(v);
    }
    if num == 31 {
        return out;
    }
    let ghost w = out@;
    while out.len() < n
        invariant
            1 <= num <= 30,
            num < out@.len() <= n <= err@.len(),
            num <= coefs@.len(),
            1 <= ss <= 32,
            quant <= 15,
            fir_run(err@, ss, num as int, quant, w, old(coefs)@, n as nat) == fir_run(
                err@,
                ss,
                num as int,
                quant,
                out@,
                coefs@,
                n as nat,
            ),
        decreases n - out@.len(),
    {
        let v = fir_predict(err, ss, num, quant, &out, coefs);
        out.push(v);
    }
    out
}

/// A predictor description: quantisation shift, Rice modifier, coefficient
/// count, the 16-bit coefficients, and the position after them.
pub open spec fn predictor(d: Seq<u8>, pos: int) -> (u32, u32, nat, Seq<i32>, int) {
    let p1 = rd(d, pos, 4).1;
    let (q, p2) = rd(d, p1, 4);
    let (rm, p3) = rd(d, p2, 3);
    let (num, p4) = rd(d, p3, 5);
    let (cs, p5) = crate::flac::residual::raw_run(d, p4, 16, num);
    (q as u32, rm as u32, num, Seq::new(num, |i: int| cs[i] as i32), p5)
}

/// An `nbits`-bit field read as a sample: signed, or as a plain number.
pub open spec fn field_val(v: nat, nbits: nat, signed: bool) -> i32 {
    if signed {
        sext(v, nbits) as i32
    } else {
        v as i32
    }
}

/// `n` pairs of `nbits`-bit fields, one for each channel in turn.
pub open spec fn pairs(d: Seq<u8>, pos: int, nbits: nat, signed: bool, n: nat) -> (Seq<i32>, Seq<i32>, int)
    decreases n,
{
    if n == 0 {
        (Seq::empty(), Seq::empty(), pos)
    } else {
        let (a, b, p) = pairs(d, pos, nbits, signed, (n - 1) as nat);
        let (x, p1) = rd(d, p, nbits);
        let (y, p2) = rd(d, p1, nbits);
        (a.push(field_val(x, nbits, signed)), b.push(field_val(y, nbits, signed)), p2)
    }
}

/// `n` single `nbits`-bit fields.
pub open spec fn singles(d: Seq<u8>, pos: int, nbits: nat, signed: bool, n: nat) -> (Seq<i32>, int)
    decreases n,
{
    if n == 0 {
        (Seq::empty(), pos)
    } else {
        let (a, p) = singles(d, pos, nbits, signed, (n - 1) as nat);
        let (x, p1) = rd(d, p, nbits);
        (a.push(field_val(x, nbits, signed)), p1)
    }
}

/// A sample shifted back up over its `shift` low bits.
pub open spec fn unshift(v: i32, low: i32, shift: u32) -> i32 {
    if shift != 0 {
        i32_specs::wrapping_shl(v, shift) | low
    } else {
        v
    }
}

/// Left and right of stereo pair `i`, unmixed.
pub open spec fn unmix(a: i32, b: i32, mix_bits: u32, mix_res: i32) -> (i32, i32) {
    if mix_res != 0 {
        let l = i32_specs::wrapping_sub(
            i32_specs::wrapping_add(a, b),
            i32_specs::wrapping_shr(i32_specs::wrapping_mul(mix_res, b), mix_bits),
        );
        (l, i32_specs::wrapping_sub(l, b))
    } else {
        (a, b)
    }
}

/// The fields of the packet header: channels, sample count, shifted bytes,
/// whether samples are stored verbatim, and the position after it; `None`
/// for a channel tag other than mono or stereo.
pub open spec fn packet_head(d: Seq<u8>, frame_length: u32) -> Option<(nat, nat, u32, bool, int)> {
    let (tag, p1) = rd(d, 0, 3);
    if tag > 1 {
        None
    } else {
        let p3 = rd(d, rd(d, p1, 4).1, 12).1;
        let (partial, p4) = rd(d, p3, 1);
        let (bshift, p5) = rd(d, p4, 2);
        let (esc, p6) = rd(d, p5, 1);
        let (n, p7) = if partial == 1 { rd(d, p6, 32) } else { (frame_length as nat, p6) };
        Some((tag + 1, n, (bshift * 8) as u32, esc == 1, p7))
    }
}

/// The decoded samples of one channel coded with a predictor: the Rice
/// errors, then the filter.
pub open spec fn coded_channel(d: Seq<u8>, pos: int, n: nat, rs: u32, pb: u32, kb: int, mb: u32, pr: (u32, u32, nat, Seq<i32>, int)) -> (Seq<i32>, int) {
    let (q, rm, num, cs, _p) = pr;
    let (err, p2) = rice_loop(d, pos, n, rs as nat, (rm * pb / 4) as u32, kb, 0, mb, 0, Seq::empty());
    (fir_spec(err, n, rs, cs, num as int, q), p2)
}

/// Whether a predictor can rebuild `n` samples.
pub open spec fn fir_fits(num: nat, n: nat) -> bool {
    num == 0 || num == 31 || num < n
}

/// The samples of a stereo packet body at `p`.
pub open spec fn stereo_samples(d: Seq<u8>, p: int, n: nat, shift: u32, esc: bool, bd: u32, rs: u32, pb: u32, kb: int, mb: u32) -> Option<Seq<i32>> {
    if esc {
        let (a, b, p2) = pairs(d, p, bd as nat, true, n);
        let z = Seq::new(n, |i: int| 0i32);
        Some(Seq::new(2 * n, |k: int| stereo_out(a, b, z, z, 0, 0, shift, k)))
    } else {
        let (mix_bits, q1) = rd(d, p, 8);
        let (mr, q2) = rd(d, q1, 8);
        let mix_res: i32 = if mr >= 128 { (mr - 256) as i32 } else { mr as i32 };
        let pa = predictor(d, q2);
        let pbr = predictor(d, pa.4);
        if !fir_fits(pa.2, n) || !fir_fits(pbr.2, n) {
            None
        } else {
            let (sa, sb, q5) = if shift != 0 {
                pairs(d, pbr.4, shift as nat, false, n)
            } else {
                (Seq::new(n, |i: int| 0i32), Seq::new(n, |i: int| 0i32), pbr.4)
            };
            let (a, q6) = coded_channel(d, q5, n, rs, pb, kb, mb, pa);
            let (b, q7) = coded_channel(d, q6, n, rs, pb, kb, mb, pbr);
            Some(Seq::new(2 * n, |k: int| stereo_out(a, b, sa, sb, mix_bits as u32, mix_res, shift, k)))
        }
    }
}

/// Output sample `k` of an unmixed stereo packet.
pub open spec fn stereo_out(a: Seq<i32>, b: Seq<i32>, sa: Seq<i32>, sb: Seq<i32>, mix_bits: u32, mix_res: i32, shift: u32, k: int) -> i32 {
    let (l, r) = unmix(a[k / 2], b[k / 2], mix_bits, mix_res);
    if k % 2 == 0 {
        unshift(l, sa[k / 2], shift)
    } else {
        unshift(r, sb[k / 2], shift)
    }
}

/// The samples of a mono packet body at `p`.
pub open spec fn mono_samples(d: Seq<u8>, p: int, n: nat, shift: u32, esc: bool, bd: u32, rs: u32, pb: u32, kb: int, mb: u32) -> Option<Seq<i32>> {
    if esc {
        let a = singles(d, p, bd as nat, true, n).0;
        Some(Seq::new(n, |k: int| unshift(a[k], 0, shift)))
    } else {
        let pa = predictor(d, p);
        if !fir_fits(pa.2, n) {
            None
        } else {
            let (sa, q5) = if shift != 0 {
                singles(d, pa.4, shift as nat, false, n)
            } else {
                (Seq::new(n, |i: int| 0i32), pa.4)
            };
            let (a, q6) = coded_channel(d, q5, n, rs, pb, kb, mb, pa);
            Some(Seq::new(n, |k: int| unshift(a[k], sa[k], shift)))
        }
    }
}

/// The interleaved samples of a packet, or `None` where the packet cannot
/// be decoded with this configuration.
pub open spec fn packet(d: Seq<u8>, fl: u32, bd: u32, pb: u32, mb: u32, kb: int) -> Option<Seq<i32>> {
    match packet_head(d, fl) {
        None => None,
        Some((ch, n, shift, esc, p)) => {
            let rs = bd - shift + if ch == 2 { 1int } else { 0int };
            if !(1 <= bd <= 32 && shift <= bd && 1 <= n <= fl && (esc || 1 <= rs <= 32)) {
                None
            } else if ch == 2 {
                stereo_samples(d, p, n, shift, esc, bd, rs as u32, pb, kb, mb)
            } else {
                mono_samples(d, p, n, shift, esc, bd, rs as u32, pb, kb, mb)
            }
        },
    }
}

fn read_predictor(br: &mut BitReader) -> (r: (u32, u32, usize, Vec<i32>))
    requires
        old(br).wf(),
    ensures
        final(br).data@ == old(br).data@,
        final(br).wf(),
        ({
            let (q, rm, num, cs, p) = predictor(old(br).data@, old(br).pos as int);
            r.0 == q && r.1 == rm && r.2 == num && r.3@ == cs && final(br).pos == p
        }),
        r.0 <= 15,
        r.1 <= 7,
        r.2 <= 31,
        old(br).pos <= final(br).pos <= old(br).pos + 512,
{
    let ghost d = br.data@;
    let ghost p0 = br.pos as int;
    br.read(4);
    let quant = br.read(4) as u32;
    let ricemod = br.read(3) as u32;
    let num = br.read(5) as usize;
    proof {
        vstd::arithmetic::power2::lemma2_to64();
        lemma_rd(d, p0, 4);
        lemma_rd(d, rd(d, p0, 4).1, 4);
        lemma_rd(d, rd(d, rd(d, p0, 4).1, 4).1, 3);
        lemma_rd(d, rd(d, rd(d, rd(d, p0, 4).1, 4).1, 3).1, 5);
    }
    let ghost p4 = br.pos as int;
    let mut wide: Vec<i64> = Vec::new();
    let mut i: usize = 0;
    while i < num
        invariant
            i <= num <= 31,
            wide@.len() == i,
            p4 <= br.pos <= p4 + 16 * i,
            p4 <= p0 + 16,
            br.data@ == d,
            br.wf(),
            wide@ == crate::flac::residual::raw_run(d, p4, 16, i as nat).0,
            br.pos == crate::flac::residual::raw_run(d, p4, 16, i as nat).1,
            forall|k: int| 0 <= k < i ==> -0x8000 <= #[trigger] wide@[k] < 0x8000,
        decreases num - i,
    {
        proof {
            lemma_rd(d, br.pos as int, 16);
            vstd::arithmetic::power2::lemma2_to64();
        }
        let v = br.read_signed(16);
        assert(-0x8000 <= v < 0x8000);
        wide.push(v);
        i = i + 1;
    }
    let mut cs: Vec<i32> = Vec::new();
    let mut j: usize = 0;
    while j < num
        invariant
            j <= num == wide@.len(),
            cs@ == Seq::new(j as nat, |k: int| wide@[k] as i32),
            forall|k: int| 0 <= k < num ==> -0x8000 <= #[trigger] wide@[k] < 0x8000,
        decreases num - j,
    {
        cs.push(wide[j] as i32);
        proof {
            assert(cs@ =~= Seq::new((j + 1) as nat, |k: int| wide@[k] as i32));
        }
        j = j + 1;
    }
    (quant, ricemod, num, cs)
}

fn read_field(br: &mut BitReader, nbits: u32, signed: bool) -> (r: i32)
    requires
        old(br).wf(),
        nbits <= 32,
        !signed ==> nbits <= 24,
    ensures
        final(br).data@ == old(br).data@,
        final(br).wf(),
        ({
            let (v, p) = rd(old(br).data@, old(br).pos as int, nbits as nat);
            r == field_val(v, nbits as nat, signed) && final(br).pos == p
        }),
        old(br).pos <= final(br).pos <= old(br).pos + nbits,
{
    proof {
        lemma_rd(br.data@, br.pos as int, nbits as nat);
        vstd::arithmetic::power2::lemma2_to64();
        if nbits < 32 {
            vstd::arithmetic::power2::lemma_pow2_strictly_increases(nbits as nat, 32);
        }
        if nbits >= 1 && nbits - 1 < 31 {
            vstd::arithmetic::power2::lemma_pow2_strictly_increases((nbits - 1) as nat, 31);
        }
        if !signed && nbits < 24 {
            vstd::arithmetic::power2::lemma_pow2_strictly_increases(nbits as nat, 24);
        }
    }
    if signed {
        let ghost v = rd(br.data@, br.pos as int, nbits as nat).0;
        let x = br.read_signed(nbits);
        proof {
            if nbits >= 1 {
                vstd::arithmetic::power2::lemma_pow2_unfold(nbits as nat);
            }
        }
        x as i32
    } else {
        br.read(nbits) as i32
    }
}

fn read_pairs(br: &mut BitReader, nbits: u32, signed: bool, n: usize) -> (r: (Vec<i32>, Vec<i32>))
    requires
        old(br).wf(),
        nbits <= 32,
        !signed ==> nbits <= 24,
    ensures
        final(br).data@ == old(br).data@,
        final(br).wf(),
        ({
            let (a, b, p) = pairs(old(br).data@, old(br).pos as int, nbits as nat, signed, n as nat);
            r.0@ == a && r.1@ == b && final(br).pos == p
        }),
        final(br).pos <= old(br).pos + 64 * n,
        r.0@.len() == n,
        r.1@.len() == n,
{
    proof {
        lemma_pairs_len(br.data@, br.pos as int, nbits as nat, signed, n as nat);
    }
    let ghost d = br.data@;
    let ghost p0 = br.pos as int;
    let mut a: Vec<i32> = Vec::new();
    let mut b: Vec<i32> = Vec::new();
    let mut i: usize = 0;
    while i < n
        invariant
            i <= n,
            nbits <= 32,
            !signed ==> nbits <= 24,
            br.data@ == d,
            br.wf(),
            br.pos <= p0 + 64 * i,
            ({
                let (sa, sb, p) = pairs(d, p0, nbits as nat, signed, i as nat);
                a@ == sa && b@ == sb && br.pos == p
            }),
        decreases n - i,
    {
        let x = read_field(br, nbits, signed);
        let y = read_field(br, nbits, signed);
        a.push(x);
        b.push(y);
        i = i + 1;
    }
    (a, b)
}

fn read_singles(br: &mut BitReader, nbits: u32, signed: bool, n: usize) -> (r: Vec<i32>)
    requires
        old(br).wf(),
        nbits <= 32,
        !signed ==> nbits <= 24,
    ensures
        final(br).data@ == old(br).data@,
        final(br).wf(),
        ({
            let (a, p) = singles(old(br).data@, old(br).pos as int, nbits as nat, signed, n as nat);
            r@ == a && final(br).pos == p
        }),
        final(br).pos <= old(br).pos + 32 * n,
        r@.len() == n,
{
    proof {
        lemma_singles_len(br.data@, br.pos as int, nbits as nat, signed, n as nat);
    }
    let ghost d = br.data@;
    let ghost p0 = br.pos as int;
    let mut a: Vec<i32> = Vec::new();
    let mut i: usize = 0;
    while i < n
        invariant
            i <= n,
            nbits <= 32,
            !signed ==> nbits <= 24,
            br.data@ == d,
            br.wf(),
            br.pos <= p0 + 32 * i,
            ({
                let (sa, p) = singles(d, p0, nbits as nat, signed, i as nat);
                a@ == sa && br.pos == p
            }),
        decreases n - i,
    {
        let x = read_field(br, nbits, signed);
        a.push(x);
        i = i + 1;
    }
    a
}

fn unshift_exec(v: i32, low: i32, shift: u32) -> (r: i32)
    requires
        shift <= 24,
    ensures
        r == unshift(v, low, shift),
{
    if shift != 0 {
        v.wrapping_shl(shift) | low
    } else {
        v
    }
}

fn unmix_exec(a: i32, b: i32, mix_bits: u32, mix_res: i32) -> (r: (i32, i32))
    ensures
        r == unmix(a, b, mix_bits, mix_res),
{
    if mix_res != 0 {
        let l = a.wrapping_add(b).wrapping_sub(mix_res.wrapping_mul(b).wrapping_shr(mix_bits));
        (l, l.wrapping_sub(b))
    } else {
        (a, b)
    }
}

/// Reads the errors of one channel and rebuilds its samples.
fn decode_channel(
    br: &mut BitReader,
    n: usize,
    rs: u32,
    pb: u32,
    kb: i32,
    mb: u32,
    q: u32,
    rm: u32,
    num: usize,
    cs: &mut Vec<i32>,
) -> (r: Vec<i32>)
    requires
        old(br).wf(),
        old(br).pos + 84 * n + 100 <= POS_CAP,
        1 <= rs <= 32,
        q <= 15,
        rm <= 7,
        pb <= 255,
        num <= 31,
        old(cs)@.len() == num,
        1 <= n,
        fir_fits(num as nat, n as nat),
    ensures
        final(br).data@ == old(br).data@,
        final(br).wf(),
        final(br).pos <= old(br).pos + 84 * n,
        (r@, final(br).pos as int) == coded_channel(
            old(br).data@,
            old(br).pos as int,
            n as nat,
            rs,
            pb,
            kb as int,
            mb,
            (q, rm, num as nat, old(cs)@, 0),
        ),
        r@.len() == n,
{
    proof {
        assert(rm * pb <= 7 * 255) by (nonlinear_arith)
            requires rm <= 7, pb <= 255;
    }
    let err = rice(br, n, rs, rm * pb / 4, mb, kb);
    proof {
        lemma_rice_len(old(br).data@, old(br).pos as int, n as nat, rs as nat, (rm * pb / 4) as u32, kb as int, 0, mb, 0, Seq::empty());
        lemma_fir_len(err@, n as nat, rs, old(cs)@, num as int, q);
    }
    fir(&err, n, rs, cs, num, q)
}

/// The length of the errors decoded.
pub proof fn lemma_rice_len(d: Seq<u8>, pos: int, n: nat, ss: nat, hm: u32, kb: int, i: nat, h: u32, sm: u32, out: Seq<i32>)
    requires
        out.len() == i <= n,
    ensures
        rice_loop(d, pos, n, ss, hm, kb, i, h, sm, out).0.len() == n,
    decreases n - i,
{
    if i < n {
        let k = rice_k(h, kb);
        let (x0, p1) = dv(d, pos, ss, if k > 0 { k as nat } else { 0 });
        let x = u32_specs::wrapping_add(x0 as u32, sm);
        let out1 = out.push(unzig(x));
        let h1 = next_history(h, x, hm);
        if h1 < 128 && i + 1 < n {
            let kz = run_k(h1);
            let (run, p2) = dv(d, p1, 16, if kz > 0 { kz as nat } else { 0 });
            let cnt: nat = if run < n - (i + 1) { run } else { (n - (i + 1)) as nat };
            lemma_rice_len(d, p2, n, ss, hm, kb, i + 1 + cnt, 0, if run > 0xffff { 0 } else { 1 }, out1 + Seq::new(cnt, |j: int| 0i32));
        } else {
            lemma_rice_len(d, p1, n, ss, hm, kb, i + 1, h1, 0, out1);
        }
    }
}

fn decode_stereo(br: &mut BitReader, n: usize, shift: u32, esc: bool, bd: u32, rs: u32, pb: u32, kb: i32, mb: u32) -> (r: Option<Vec<i32>>)
    requires
        old(br).wf(),
        old(br).pos <= 100,
        1 <= n <= 0xffff_ffff,
        1 <= bd <= 32,
        shift <= 24,
        esc || 1 <= rs <= 32,
        pb <= 255,
    ensures
        match stereo_samples(old(br).data@, old(br).pos as int, n as nat, shift, esc, bd, rs, pb, kb as int, mb) {
            None => r is None,
            Some(s) => r matches Some(v) && v@ == s,
        },
{
    let ghost d = br.data@;
    let ghost p = br.pos as int;
    let mut mix_bits: u32 = 0;
    let mut mix_res: i32 = 0;
    let a: Vec<i32>;
    let b: Vec<i32>;
    let sa: Vec<i32>;
    let sb: Vec<i32>;
    if esc {
        let (va, vb) = read_pairs(br, bd, true, n);
        a = va;
        b = vb;
        sa = vec_zeros(n);
        sb = vec_zeros(n);
    } else {
        proof {
            vstd::arithmetic::power2::lemma2_to64();
            lemma_rd(d, p, 8);
            lemma_rd(d, rd(d, p, 8).1, 8);
        }
        mix_bits = br.read(8) as u32;
        let mr = br.read(8);
        mix_res = if mr >= 128 { (mr as i32) - 256 } else { mr as i32 };
        let (qa, rma, na, mut ca) = read_predictor(br);
        let (qb, rmb, nb, mut cb) = read_predictor(br);
        if !(na == 0 || na == 31 || na < n) || !(nb == 0 || nb == 31 || nb < n) {
            return None;
        }
        let (va, vb) = if shift != 0 {
            read_pairs(br, shift, false, n)
        } else {
            (vec_zeros(n), vec_zeros(n))
        };
        sa = va;
        sb = vb;
        proof {
            assert(br.pos + 84 * n + 100 + 84 * n <= POS_CAP);
        }
        a = decode_channel(br, n, rs, pb, kb, mb, qa, rma, na, &mut ca);
        b = decode_channel(br, n, rs, pb, kb, mb, qb, rmb, nb, &mut cb);
    }
    let mut out: Vec<i32> = Vec::new();
    let mut i: usize = 0;
    while i < n
        invariant
            i <= n <= 0xffff_ffff,
            a@.len() == n,
            b@.len() == n,
            sa@.len() == n,
            sb@.len() == n,
            shift <= 24,
            out@ =~= Seq::new(2 * i as nat, |k: int| stereo_out(a@, b@, sa@, sb@, mix_bits, mix_res, shift, k)),
        decreases n - i,
    {
        let (l, r) = unmix_exec(a[i], b[i], mix_bits, mix_res);
        out.push(unshift_exec(l, sa[i], shift));
        out.push(unshift_exec(r, sb[i], shift));
        i = i + 1;
    }
    Some(out)
}

fn decode_mono(br: &mut BitReader, n: usize, shift: u32, esc: bool, bd: u32, rs: u32, pb: u32, kb: i32, mb: u32) -> (r: Option<Vec<i32>>)
    requires
        old(br).wf(),
        old(br).pos <= 100,
        1 <= n <= 0xffff_ffff,
        1 <= bd <= 32,
        shift <= 24,
        esc || 1 <= rs <= 32,
        pb <= 255,
    ensures
        match mono_samples(old(br).data@, old(br).pos as int, n as nat, shift, esc, bd, rs, pb, kb as int, mb) {
            None => r is None,
            Some(s) => r matches Some(v) && v@ == s,
        },
{
    let a: Vec<i32>;
    let sa: Vec<i32>;
    if esc {
        a = read_singles(br, bd, true, n);
        sa = vec_zeros(n);
    } else {
        let (q, rm, num, mut cs) = read_predictor(br);
        if !(num == 0 || num == 31 || num < n) {
            return None;
        }
        sa = if shift != 0 {
            read_singles(br, shift, false, n)
        } else {
            vec_zeros(n)
        };
        a = decode_channel(br, n, rs, pb, kb, mb, q, rm, num, &mut cs);
    }
    let mut out: Vec<i32> = Vec::new();
    let mut i: usize = 0;
    while i < n
        invariant
            i <= n,
            a@.len() == n,
            sa@.len() == n,
            shift <= 24,
            out@ =~= Seq::new(i as nat, |k: int| unshift(a@[k], sa@[k], shift)),
        decreases n - i,
    {
        out.push(unshift_exec(a[i], sa[i], shift));
        i = i + 1;
    }
    Some(out)
}

impl Alac {
    /// Decodes one packet into interleaved 32-bit samples, left before
    /// right in stereo; empty where the packet is not mono or stereo or
    /// cannot be decoded with this configuration.
    pub fn decode_packet(&self, pkt: &[u8]) -> (r: Vec<i32>)
        requires
            8 * pkt@.len() <= POS_CAP,
        ensures
            r@ == match packet(pkt@, self.spec_frame_length(), self.spec_bit_depth(), self.spec_pb(), self.spec_mb(), self.spec_kb() as int) {
                Some(s) => s,
                None => Seq::empty(),
            },
    {
        proof {
            use_type_invariant(self);
            vstd::arithmetic::power2::lemma2_to64();
        }
        let ghost d = pkt@;
        let mut br = BitReader::new(pkt, 0);
        proof {
            lemma_rd(d, 0, 3);
            lemma_rd(d, 3, 4);
            lemma_rd(d, 7, 12);
            lemma_rd(d, 19, 1);
            lemma_rd(d, 20, 2);
            lemma_rd(d, 22, 1);
            lemma_rd(d, 23, 32);
        }
        let tag = br.read(3);
        if tag > 1 {
            return Vec::new();
        }
        br.read(4);
        br.read(12);
        let partial = br.read(1);
        let bshift = br.read(2);
        let esc = br.read(1);
        let shift: u32 = (bshift * 8) as u32;
        let n: u64 = if partial == 1 {
            br.read(32)
        } else {
            self.frame_length as u64
        };
        let bd = self.bit_depth;
        if !(1 <= bd && bd <= 32 && shift <= bd && 1 <= n && n <= self.frame_length as u64) {
            return Vec::new();
        }
        let rs: u32 = if tag == 1 { bd - shift + 1 } else { bd - shift };
        if !(esc == 1 || (1 <= rs && rs <= 32)) {
            return Vec::new();
        }
        let r = if tag == 1 {
            decode_stereo(&mut br, n as usize, shift, esc == 1, bd, rs, self.pb, self.kb, self.mb)
        } else {
            decode_mono(&mut br, n as usize, shift, esc == 1, bd, rs, self.pb, self.kb, self.mb)
        };
        match r {
            Some(v) => v,
            None => Vec::new(),
        }
    }
}

fn vec_zeros(n: usize) -> (r: Vec<i32>)
    ensures
        r@ == Seq::new(n as nat, |i: int| 0i32),
{
    let mut v: Vec<i32> = Vec::new();
    let mut i: usize = 0;
    while i < n
        invariant
            i <= n,
            v@ =~= Seq::new(i as nat, |k: int| 0i32),
        decreases n - i,
    {
        v.push(0);
        i = i + 1;
    }
    v
}

pub proof fn lemma_pairs_len(d: Seq<u8>, pos: int, nbits: nat, signed: bool, n: nat)
    ensures
        pairs(d, pos, nbits, signed, n).0.len() == n,
        pairs(d, pos, nbits, signed, n).1.len() == n,
    decreases n,
{
    if n > 0 {
        lemma_pairs_len(d, pos, nbits, signed, (n - 1) as nat);
    }
}

pub proof fn lemma_singles_len(d: Seq<u8>, pos: int, nbits: nat, signed: bool, n: nat)
    ensures
        singles(d, pos, nbits, signed, n).0.len() == n,
    decreases n,
{
    if n > 0 {
        lemma_singles_len(d, pos, nbits, signed, (n - 1) as nat);
    }
}

proof fn lemma_warm_len(err: Seq<i32>, ss: u32, out: Seq<i32>, upto: nat)
    requires
        1 <= out.len() <= upto,
    ensures
        warm_run(err, ss, out, upto).len() == upto,
    decreases upto - out.len(),
{
    if out.len() < upto {
        lemma_warm_len(err, ss, out.push(sext32(i32_specs::wrapping_add(out.last(), err[out.len() as int]), ss)), upto);
    }
}

proof fn lemma_fir_run_len(err: Seq<i32>, ss: u32, num: int, quant: u32, out: Seq<i32>, coefs: Seq<i32>, n: nat)
    requires
        num < out.len() <= n,
    ensures
        fir_run(err, ss, num, quant, out, coefs, n).len() == n,
    decreases n - out.len(),
{
    if out.len() < n {
        let (v, c2) = fir_step(err, ss, num, quant, out, coefs);
        lemma_fir_run_len(err, ss, num, quant, out.push(v), c2, n);
    }
}

/// The filter rebuilds exactly `n` samples.
pub proof fn lemma_fir_len(err: Seq<i32>, n: nat, ss: u32, coefs: Seq<i32>, num: int, quant: u32)
    requires
        1 <= n <= err.len(),
        0 <= num <= 31,
        num == 0 || num == 31 || num < n,
    ensures
        fir_spec(err, n, ss, coefs, num, quant).len() == n,
{
    if num == 31 {
        lemma_warm_len(err, ss, seq![err[0]], n);
    } else if num != 0 {
        lemma_warm_len(err, ss, seq![err[0]], (num + 1) as nat);
        lemma_fir_run_len(err, ss, num, quant, warm_run(err, ss, seq![err[0]], (num + 1) as nat), coefs, n);
    }
}

/// Two decoders whose configurations agree in frame length, bit depth and
/// the three Rice parameters decode every packet alike (channel count and
/// sample rate play no part), and no packet depends on an earlier one.
pub proof fn lemma_alac_config_alone(a: Alac, b: Alac, d: Seq<u8>)
    requires
        a.spec_frame_length() == b.spec_frame_length(),
        a.spec_bit_depth() == b.spec_bit_depth(),
        a.spec_pb() == b.spec_pb(),
        a.spec_mb() == b.spec_mb(),
        a.spec_kb() == b.spec_kb(),
    ensures
        packet(d, a.spec_frame_length(), a.spec_bit_depth(), a.spec_pb(), a.spec_mb(), a.spec_kb() as int)
            == packet(d, b.spec_frame_length(), b.spec_bit_depth(), b.spec_pb(), b.spec_mb(), b.spec_kb() as int),
{
}

/// A decodable packet without the partial-frame bit holds a whole frame:
/// `fl` samples per channel, one channel for tag 0 and two for tag 1.
pub proof fn lemma_alac_whole_frame(d: Seq<u8>, fl: u32, bd: u32, pb: u32, mb: u32, kb: int)
    requires
        packet(d, fl, bd, pb, mb, kb) is Some,
        rd(d, rd(d, rd(d, rd(d, 0, 3).1, 4).1, 12).1, 1).0 == 0,
    ensures
        packet(d, fl, bd, pb, mb, kb).unwrap().len() == fl * (rd(d, 0, 3).0 + 1),
{
    lemma_head_whole(d, fl);
    let h = packet_head(d, fl);
    let (ch, n, shift, esc, p) = h.unwrap();
    let rs = bd - shift + if ch == 2 { 1int } else { 0int };
    if ch == 2 {
        lemma_stereo_len(d, p, n, shift, esc, bd, rs as u32, pb, kb, mb);
    } else {
        lemma_mono_len(d, p, n, shift, esc, bd, rs as u32, pb, kb, mb);
    }
}

proof fn lemma_head_whole(d: Seq<u8>, fl: u32)
    requires
        rd(d, rd(d, rd(d, rd(d, 0, 3).1, 4).1, 12).1, 1).0 == 0,
        rd(d, 0, 3).0 <= 1,
    ensures
        packet_head(d, fl) is Some,
        packet_head(d, fl).unwrap().1 == fl,
        packet_head(d, fl).unwrap().0 == rd(d, 0, 3).0 + 1,
{
}

proof fn lemma_stereo_len(d: Seq<u8>, p: int, n: nat, shift: u32, esc: bool, bd: u32, rs: u32, pb: u32, kb: int, mb: u32)
    requires
        stereo_samples(d, p, n, shift, esc, bd, rs, pb, kb, mb) is Some,
    ensures
        stereo_samples(d, p, n, shift, esc, bd, rs, pb, kb, mb).unwrap().len() == 2 * n,
{
}

proof fn lemma_mono_len(d: Seq<u8>, p: int, n: nat, shift: u32, esc: bool, bd: u32, rs: u32, pb: u32, kb: int, mb: u32)
    requires
        mono_samples(d, p, n, shift, esc, bd, rs, pb, kb, mb) is Some,
    ensures
        mono_samples(d, p, n, shift, esc, bd, rs, pb, kb, mb).unwrap().len() == n,
{
}

/// The Rice fold maps 0, 1, 2, 3, ... to 0, -1, 1, -2, ...: twice a value
/// unfolds to it, one more than twice a value to minus one more.
pub proof fn lemma_unzig(v: u32)
    requires
        v < 0x8000_0000,
    ensures
        unzig((2 * v) as u32) == v as i32,
        unzig((2 * v + 1) as u32) == (-(v as int) - 1) as i32,
{
    assert(((2 * v) as u32) % 2 == 0 && ((2 * v) as u32) / 2 == v);
    assert(((2 * v + 1) as u32) % 2 == 1 && ((2 * v + 1) as u32) / 2 == v);
}

/// Unmixing a stereo pair keeps the second channel as the difference of
/// the two (modulo 2^32), and leaves an unmixed pair as it is.
pub proof fn lemma_unmix_difference(a: i32, b: i32, mix_bits: u32, mix_res: i32)
    ensures
        mix_res == 0 ==> unmix(a, b, mix_bits, mix_res) == (a, b),
        mix_res != 0 ==> unmix(a, b, mix_bits, mix_res).1 == i32_specs::wrapping_sub(unmix(a, b, mix_bits, mix_res).0,
            b),
        mix_res != 0 && mix_bits == 0 && -0x4000 <= a < 0x4000 && -0x4000 <= b < 0x4000 && -0x4000 <= mix_res < 0x4000
            ==> unmix(a, b, mix_bits, mix_res).0 == a + b - mix_res * b,
{
    if mix_res != 0 && mix_bits == 0 && -0x4000 <= a < 0x4000 && -0x4000 <= b < 0x4000 && -0x4000 <= mix_res < 0x4000 {
        assert(-0x1000_0000 <= mix_res * b <= 0x1000_0000) by (nonlinear_arith)
            requires -0x4000 <= b < 0x4000, -0x4000 <= mix_res < 0x4000;
        assert(i32_specs::wrapping_mul(mix_res, b) == mix_res * b) by {
            reveal(i32_specs::wrapping_mul);
        }
        assert(i32_specs::wrapping_add(a, b) == a + b) by {
            reveal(i32_specs::wrapping_add);
        }
        assert(i32_specs::wrapping_shr(i32_specs::wrapping_mul(mix_res, b), 0) == mix_res * b) by {
            reveal(i32_specs::wrapping_shr);
            let x = (mix_res * b) as i32;
            assert(x >> 0u32 == x) by (bit_vector);
        }
        assert(i32_specs::wrapping_sub((a + b) as i32, (mix_res * b) as i32) == a + b - mix_res * b) by {
            reveal(i32_specs::wrapping_sub);
        }
    }
}

} // verus!
