//! The per-band integer steps around band shape decoding: each band's bit
//! budget, the sign bits of one-sample bands, and the earlier bands whose
//! collapse masks a folded band inherits.
use vstd::prelude::*;
use crate::opus::range::{RangeDecoder, RangeState, spec_dec_bits};
use crate::opus::celt::rate::tdiv;

verus! {

/// The eighth-bits band `i` may use: its allocation plus its share of the
/// running balance (spread over up to three bands), capped by the bits
/// left plus one and by 16383; nothing for bands past the coded ones.
pub open spec fn band_budget_spec(i: int, coded_bands: int, balance: int, pulses: int, remaining: int) -> int {
    if i < coded_bands {
        let d = if 3 < coded_bands - i { 3 } else { coded_bands - i };
        let want = pulses + tdiv(balance, d);
        let lim = if remaining + 1 < want { remaining + 1 } else { want };
        let capped = if 16383 < lim { 16383 } else { lim };
        if capped > 0 { capped } else { 0 }
    } else {
        0
    }
}

/// Computes the bit budget of band `i` (see `band_budget_spec`).
pub fn band_budget(i: usize, coded_bands: usize, balance: i32, pulses: i32, remaining: i32) -> (r: i32)
    requires
        -0x1000_0000 <= balance <= 0x1000_0000,
        -0x1000_0000 <= pulses <= 0x1000_0000,
        -0x1000_0000 <= remaining <= 0x1000_0000,
    ensures
        r == band_budget_spec(i as int, coded_bands as int, balance as int, pulses as int, remaining as int),
        0 <= r <= 16383,
{
    if i < coded_bands {
        let d = if 3 < coded_bands - i { 3 } else { (coded_bands - i) as i32 };
        let share = balance / d;
        proof {
            assert(share as int == tdiv(balance as int, d as int));
            crate::opus::celt::rate::lemma_tdiv_bound(balance as int, d as int);
        }
        let want = pulses + share;
        let lim = if remaining + 1 < want { remaining + 1 } else { want };
        let capped = if 16383 < lim { 16383 } else { lim };
        if capped > 0 { capped } else { 0 }
    } else {
        0
    }
}

/// The signs of a one-sample band (one per channel): a raw bit each while
/// a whole bit is left, else positive; the signs (1 for negative) and the
/// bits left.
pub open spec fn n1_signs_spec(s: RangeState, channels: int, remaining: int) -> (RangeState, Seq<int>, int)
    decreases channels,
{
    if channels <= 0 {
        (s, Seq::empty(), remaining)
    } else if remaining >= 8 {
        let (s1, v) = spec_dec_bits(s, 1);
        let (s2, rest, r2) = n1_signs_spec(s1, channels - 1, remaining - 8);
        (s2, seq![v] + rest, r2)
    } else {
        let (s2, rest, r2) = n1_signs_spec(s, channels - 1, remaining);
        (s2, seq![0int] + rest, r2)
    }
}

/// Reads the signs of a one-sample band (see `n1_signs_spec`).
pub fn decode_n1_signs(rd: &mut RangeDecoder, stereo: bool, remaining: i32) -> (r: (Vec<u32>, i32))
    requires
        old(rd)@.wf(),
        old(rd)@.nbits_total + 2 <= crate::opus::range::BITS_LIMIT,
        -0x1000_0000 <= remaining <= 0x1000_0000,
    ensures
        final(rd)@.wf(),
        final(rd)@.storage == old(rd)@.storage,
        final(rd)@.nbits_total <= old(rd)@.nbits_total + 2,
        remaining - 16 <= r.1 <= remaining,
        ({
            let (s2, signs, rem) = n1_signs_spec(old(rd)@, if stereo { 2int } else { 1int }, remaining as int);
            &&& final(rd)@ == s2
            &&& r.0@.map_values(|x: u32| x as int) == signs
            &&& r.1 == rem
        }),
{
    let ghost s0 = rd@;
    let count: usize = if stereo { 2 } else { 1 };
    let ghost target = n1_signs_spec(s0, count as int, remaining as int);
    let mut signs: Vec<u32> = Vec::new();
    let mut rem = remaining;
    let mut c: usize = 0;
    while c < count
        invariant
            c <= count <= 2,
            rd@.wf(),
            rd@.nbits_total <= s0.nbits_total + c,
            rd@.storage == s0.storage,
            remaining - 8 * c <= rem <= remaining,
            s0.nbits_total + 2 <= crate::opus::range::BITS_LIMIT,
            signs@.len() == c,
            -0x1000_0000 - 16 <= rem <= 0x1000_0000,
            ({
                let (s2, rest, r2) = n1_signs_spec(rd@, (count - c) as int, rem as int);
                &&& target.0 == s2
                &&& target.1 == signs@.map_values(|x: u32| x as int) + rest
                &&& target.2 == r2
            }),
        decreases count - c,
    {
        let ghost before = signs@.map_values(|x: u32| x as int);
        let mut sign: u32 = 0;
        if rem >= 8 {
            sign = rd.dec_bits(1);
            rem = rem - 8;
        }
        signs.push(sign);
        proof {
            let next = n1_signs_spec(rd@, (count - c - 1) as int, rem as int);
            assert(signs@.map_values(|x: u32| x as int) =~= before.push(sign as int));
            assert(before.push(sign as int) + next.1 =~= before + (seq![sign as int] + next.1));
        }
        c = c + 1;
    }
    proof {
        assert(signs@.map_values(|x: u32| x as int) + Seq::<int>::empty() =~= signs@.map_values(|x: u32| x as int));
    }
    (signs, rem)
}

/// Stepping down from band `f`, the first band whose scaled start lies at
/// or below `thr`.
pub open spec fn fold_down(eb: Seq<i32>, m: int, f: int, thr: int) -> int
    decreases f,
{
    let g = f - 1;
    if g <= 0 || !(m * eb[g] > thr) {
        g
    } else {
        fold_down(eb, m, g, thr)
    }
}

/// Stepping up from band `f + 1`, the first band at or past `i` or whose
/// scaled start reaches `lim`.
pub open spec fn fold_up(eb: Seq<i32>, m: int, f: int, i: int, lim: int) -> int
    decreases i - f,
{
    let g = f + 1;
    if !(g < i && m * eb[g] < lim) {
        g
    } else {
        fold_up(eb, m, g, i, lim)
    }
}

/// The OR, into `acc`, of the collapse masks of bands `a .. b` (at least
/// band `a`), taking each band's entry `off` of its `chans`.
pub open spec fn masks_or(cm: Seq<u8>, chans: int, off: int, a: int, b: int, acc: u32) -> u32
    decreases b - a,
{
    let acc2 = acc | (cm[a * chans + off] as u32);
    if a + 1 >= b {
        acc2
    } else {
        masks_or(cm, chans, off, a + 1, b, acc2)
    }
}

/// Where band `i` (of `n` bins) folds its noise from and the collapse masks
/// it inherits: with a fold band `lowband_offset` (non-zero) and folding
/// allowed, the position of the fold source relative to `norm_offset` and
/// the masks of the bands it spans; otherwise no source and all blocks set.
pub open spec fn fold_spec(
    eb: Seq<i32>,
    m: int,
    lowband_offset: int,
    i: int,
    n: int,
    norm_offset: int,
    chans: int,
    cm: Seq<u8>,
    fold: bool,
    bblocks: int,
) -> (Option<int>, u32, u32) {
    if lowband_offset != 0 && fold {
        let a = m * eb[lowband_offset] - norm_offset;
        let el = if a - n > 0 { a - n } else { 0 };
        let fs = fold_down(eb, m, lowband_offset, el + norm_offset);
        let fe = fold_up(eb, m, lowband_offset - 1, i, el + norm_offset + n);
        (Some(el), masks_or(cm, chans, 0, fs, fe, 0), masks_or(cm, chans, chans - 1, fs, fe, 0))
    } else {
        let all = (vstd::arithmetic::power2::pow2(bblocks as nat) - 1) as u32;
        (None, all, all)
    }
}

proof fn lemma_fold_down_range(eb: Seq<i32>, m: int, f: int, thr: int)
    requires
        f >= 1,
    ensures
        0 <= fold_down(eb, m, f, thr) < f,
    decreases f,
{
    let g = f - 1;
    if !(g <= 0 || !(m * eb[g] > thr)) {
        lemma_fold_down_range(eb, m, g, thr);
    }
}

proof fn lemma_fold_up_range(eb: Seq<i32>, m: int, f: int, i: int, lim: int)
    requires
        f < i,
    ensures
        f < fold_up(eb, m, f, i, lim) <= i,
    decreases i - f,
{
    let g = f + 1;
    if g < i && m * eb[g] < lim {
        lemma_fold_up_range(eb, m, g, i, lim);
    }
}

fn or_masks(cm: &[u8], chans: usize, off: usize, a: usize, b: usize) -> (r: u32)
    requires
        off < chans <= 2,
        a < b || a + 1 == b || b <= a,
        (if a + 1 > b { a + 1 } else { b as int }) * chans <= cm@.len(),
    ensures
        r == masks_or(cm@, chans as int, off as int, a as int, b as int, 0),
{
    let ghost target = masks_or(cm@, chans as int, off as int, a as int, b as int, 0);
    let ghost hi = if a + 1 > b { a + 1 } else { b as int };
    let mut acc: u32 = 0;
    let mut fi = a;
    let cl = cm.len();
    loop
        invariant_except_break
            a <= fi < hi,
            target == masks_or(cm@, chans as int, off as int, fi as int, b as int, acc),
        invariant
            hi * chans <= cm@.len(),
            cl == cm@.len(),
            off < chans <= 2,
            hi == if a + 1 > b { a + 1 } else { b as int },
        ensures
            acc == target,
        decreases hi - fi,
    {
        proof {
            assert(fi * chans + off < hi * chans && fi + 1 <= hi * chans) by (nonlinear_arith)
                requires 0 <= fi < hi, off < chans, chans >= 1;
        }
        acc = acc | (cm[fi * chans + off] as u32);
        fi = fi + 1;
        if fi >= b {
            break;
        }
    }
    acc
}

/// Finds the fold source and inherited collapse masks of band `i` (see
/// `fold_spec`); `fold` is whether the spreading, block count or
/// time-frequency change allow folding.
pub fn fold_source(
    eb: &[i32],
    m: usize,
    lowband_offset: usize,
    i: usize,
    n: usize,
    norm_offset: usize,
    chans: usize,
    cm: &[u8],
    fold: bool,
    bblocks: u32,
) -> (r: (Option<usize>, u32, u32))
    requires
        1 <= m <= 8,
        lowband_offset <= i < eb@.len(),
        eb@.len() <= 64,
        forall|j: int| 0 <= j < eb@.len() ==> 0 <= #[trigger] eb@[j] <= 4096,
        m * eb@[0] <= norm_offset <= 0x10_0000,
        n <= 0x10_0000,
        1 <= chans <= 2,
        i * chans <= cm@.len(),
        bblocks <= 8,
    ensures
        ({
            let (e, x, y) = fold_spec(eb@, m as int, lowband_offset as int, i as int, n as int, norm_offset as int,
                chans as int, cm@, fold, bblocks as int);
            &&& r.1 == x
            &&& r.2 == y
            &&& match r.0 {
                Some(v) => e == Some(v as int),
                None => e is None,
            }
        }),
{
    if lowband_offset != 0 && fold {
        proof {
            assert(0 <= m * eb@[lowband_offset as int] <= 8 * 4096) by (nonlinear_arith)
                requires 1 <= m <= 8, 0 <= eb@[lowband_offset as int] <= 4096;
        }
        let a = m * eb[lowband_offset] as usize;
        let a1 = if a > norm_offset { a - norm_offset } else { 0 };
        let el = if a1 > n { a1 - n } else { 0 };
        let thr = el + norm_offset;
        let mut fs = lowband_offset;
        loop
            invariant_except_break
                1 <= fs <= lowband_offset,
                fold_down(eb@, m as int, lowband_offset as int, thr as int) == fold_down(eb@, m as int, fs as int,
                    thr as int),
            invariant
                lowband_offset < eb@.len(),
                1 <= m <= 8,
                forall|j: int| 0 <= j < eb@.len() ==> 0 <= #[trigger] eb@[j] <= 4096,
            ensures
                fs == fold_down(eb@, m as int, lowband_offset as int, thr as int),
            decreases fs,
        {
            let g = fs - 1;
            proof {
                assert(0 <= m * eb@[g as int] <= 8 * 4096) by (nonlinear_arith)
                    requires 1 <= m <= 8, 0 <= eb@[g as int] <= 4096;
            }
            if g == 0 || !(m * eb[g] as usize > thr) {
                fs = g;
                break;
            }
            fs = g;
        }
        let lim = thr + n;
        let mut fe = lowband_offset - 1;
        loop
            invariant_except_break
                lowband_offset - 1 <= fe < i,
                fold_up(eb@, m as int, lowband_offset - 1, i as int, lim as int) == fold_up(eb@, m as int, fe as int,
                    i as int, lim as int),
            invariant
                i < eb@.len(),
                1 <= m <= 8,
                forall|j: int| 0 <= j < eb@.len() ==> 0 <= #[trigger] eb@[j] <= 4096,
            ensures
                fe == fold_up(eb@, m as int, lowband_offset - 1, i as int, lim as int),
            decreases i - fe,
        {
            let g = fe + 1;
            let cont = if g < i {
                proof {
                    assert(0 <= m * eb@[g as int] <= 8 * 4096) by (nonlinear_arith)
                        requires 1 <= m <= 8, 0 <= eb@[g as int] <= 4096;
                }
                m * (eb[g] as usize) < lim
            } else {
                false
            };
            if !cont {
                fe = g;
                break;
            }
            fe = g;
        }
        proof {
            lemma_fold_down_range(eb@, m as int, lowband_offset as int, thr as int);
            lemma_fold_up_range(eb@, m as int, lowband_offset - 1, i as int, lim as int);
            assert((if fs + 1 > fe { fs + 1 } else { fe as int }) * chans <= i * chans) by (nonlinear_arith)
                requires fs + 1 <= i, fe <= i, chans >= 1;
        }
        let x = or_masks(cm, chans, 0, fs, fe);
        let y = or_masks(cm, chans, chans - 1, fs, fe);
        (Some(el), x, y)
    } else {
        proof {
            vstd::arithmetic::power2::lemma2_to64();
            vstd::arithmetic::power2::lemma_pow2_strictly_increases(bblocks as nat, 9);
        }
        let all = crate::arith::pow2_i32(bblocks) - 1;
        (None, all as u32, all as u32)
    }
}

} // verus!
