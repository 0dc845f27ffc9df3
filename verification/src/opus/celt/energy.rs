//! The Laplace-distributed symbols of CELT's coarse band energies.
use vstd::prelude::*;
use vstd::arithmetic::power2::pow2;
use crate::arith::shr_i32;
use crate::opus::range::{BITS_LIMIT, RangeDecoder, RangeState, spec_dec_bit_logp, spec_dec_icdf, spec_decode_bin, spec_update};

verus! {

/// Smallest probability of a value in the tail, in 1/32768.
pub const LAPLACE_MINP: u32 = 1;
/// Values that keep at least the smallest probability on each side.
pub const LAPLACE_NMIN: u32 = 16;

/// The probability of magnitude 1 given that of 0 and the decay.
pub open spec fn laplace_freq1(fs0: int, decay: int) -> int {
    ((32768 - 2 * LAPLACE_NMIN * LAPLACE_MINP - fs0) * (16384 - decay)) / 32768
}

/// Walks up the magnitudes while the target lies beyond the two intervals
/// of the current one: the start of the current interval, the probability
/// of the next magnitude, and the magnitude reached.
pub open spec fn laplace_walk(fm: int, fl: int, fs: int, decay: int, val: int) -> (int, int, int)
    decreases fm - fl,
{
    if fs > LAPLACE_MINP && fm >= fl + 2 * fs {
        let fs2 = 2 * fs;
        laplace_walk(fm, fl + fs2, ((fs2 - 2 * LAPLACE_MINP) * decay) / 32768 + LAPLACE_MINP, decay, val + 1)
    } else {
        (fl, fs, val)
    }
}

/// The value coded by the target frequency `fm` and the interval
/// `[fl, fh)` of 32768 that it occupies.
pub open spec fn laplace_symbol(fm: int, fs0: int, decay: int) -> (int, int, int) {
    if fm < fs0 {
        (0, 0, if fs0 < 32768 { fs0 } else { 32768 })
    } else {
        let (fl1, fs, v1) = laplace_walk(fm, fs0, laplace_freq1(fs0, decay) + LAPLACE_MINP, decay, 1);
        let di = if fs <= LAPLACE_MINP { (fm - fl1) / 2 } else { 0 };
        let fl = fl1 + 2 * di * LAPLACE_MINP;
        let v = v1 + di;
        let (val, lo) = if fm < fl + fs { (-v, fl) } else { (v, fl + fs) };
        (val, lo, if lo + fs < 32768 { lo + fs } else { 32768 })
    }
}

/// Decodes one Laplace-distributed value whose zero has probability
/// `fs / 32768` and whose magnitudes decay by `decay / 16384`.
pub fn ec_laplace_decode(dec: &mut RangeDecoder, fs: u32, decay: i32) -> (r: i32)
    requires
        old(dec)@.wf(),
        old(dec)@.nbits_total + 24 <= BITS_LIMIT,
        1 <= fs <= 32768 - 2 * LAPLACE_NMIN * LAPLACE_MINP,
        0 <= decay < 16384,
    ensures
        final(dec)@.wf(),
        final(dec)@.storage == old(dec)@.storage,
        old(dec)@.nbits_total <= final(dec)@.nbits_total <= old(dec)@.nbits_total + 24,
        ({
            let (d1, fm) = spec_decode_bin(old(dec)@, 15);
            let (v, fl, fh) = laplace_symbol(fm, fs as int, decay as int);
            r == v && final(dec)@ == spec_update(d1, fl, fh, 32768)
        }),
{
    let ghost fs0 = fs as int;
    let mut val: i32 = 0;
    let fm = dec.decode_bin(15);
    proof {
        vstd::arithmetic::power2::lemma2_to64();
    }
    let mut fl: u32 = 0;
    let mut fs = fs;
    if fm >= fs {
        val = val + 1;
        fl = fs;
        let ft = 32768 - LAPLACE_MINP * (2 * LAPLACE_NMIN) - fs;
        proof {
            assert(0 <= ft * (16384 - decay) <= 32768 * 16384) by (nonlinear_arith)
                requires 0 <= ft <= 32768, 0 <= 16384 - decay <= 16384;
            vstd::arithmetic::div_mod::lemma_div_is_ordered(ft * (16384 - decay), 32768int * 16384, 32768);
            vstd::arithmetic::div_mod::lemma_div_pos_is_pos(ft * (16384 - decay), 32768);
        }
        fs = shr_i32(ft as i32 * (16384 - decay), 15) as u32 + LAPLACE_MINP;
        let ghost fs_start = fs;
        while fs > LAPLACE_MINP && fm >= fl + 2 * fs
            invariant
                fl <= fm < 32768,
                1 <= fs <= 32768,
                1 <= val <= fl,
                0 <= decay < 16384,
                laplace_walk(fm as int, fl as int, fs as int, decay as int, val as int)
                    == laplace_walk(fm as int, fs0, fs_start as int, decay as int, 1),
            decreases fm - fl,
        {
            fs = fs * 2;
            fl = fl + fs;
            proof {
                vstd::arithmetic::power2::lemma2_to64();
                assert(0 <= (fs - 2) * decay <= 65534 * 16383) by (nonlinear_arith)
                    requires 2 <= fs <= 65536, 0 <= decay < 16384;
            }
            let prod: i32 = (fs - 2 * LAPLACE_MINP) as i32 * decay;
            let q = shr_i32(prod, 15);
            proof {
                assert(prod as int == (fs as int - 2) * decay as int);
                assert(pow2(15) == 32768) by { vstd::arithmetic::power2::lemma2_to64(); }
                assert(q as int == (prod as int) / 32768);
                vstd::arithmetic::div_mod::lemma_div_is_ordered(prod as int, 65534int * 16383, 32768);
                assert(65534int * 16383 == 1073643522int);
                vstd::arithmetic::div_mod::lemma_fundamental_div_mod_converse(1073643522int, 32768, 32765, 2);
                vstd::arithmetic::div_mod::lemma_div_pos_is_pos(prod as int, 32768);
            }
            assert(0 <= q <= 32765);
            fs = q as u32 + LAPLACE_MINP;
            val = val + 1;
        }
        if fs <= LAPLACE_MINP {
            proof {
                vstd::bits::lemma_u32_shr_is_div((fm - fl) as u32, 1);
            }
            let di = ((fm - fl) >> 1) as i32;
            val = val + di;
            fl = fl + (2 * di as u32) * LAPLACE_MINP;
        }
        if fm < fl + fs {
            val = -val;
        } else {
            fl = fl + fs;
        }
    }
    let fh = if fl + fs < 32768 { fl + fs } else { 32768 };
    dec.update(fl, fh, 32768);
    val
}

/// The Laplace parameters of the coarse energy: for each frame size and
/// intra flag (row `2 * lm + intra`), the zero probability and decay of
/// each band, in pairs.
pub open spec fn e_prob_model() -> Seq<int> {
    seq![
        72, 127, 65, 129, 66, 128, 65, 128, 64, 128, 62, 128, 64, 128, 64, 128, 92, 78, 92, 79, 92,
        78, 90, 79, 116, 41, 115, 40, 114, 40, 132, 26, 132, 26, 145, 17, 161, 12, 176, 10, 177, 11,
        24, 179, 48, 138, 54, 135, 54, 132, 53, 134, 56, 133, 55, 132, 55, 132, 61, 114, 70, 96, 74,
        88, 75, 88, 87, 74, 89, 66, 91, 67, 100, 59, 108, 50, 120, 40, 122, 37, 97, 43, 78, 50,
        83, 78, 84, 81, 88, 75, 86, 74, 87, 71, 90, 73, 93, 74, 93, 74, 109, 40, 114, 36, 117,
        34, 117, 34, 143, 17, 145, 18, 146, 19, 162, 12, 165, 10, 178, 7, 189, 6, 190, 8, 177, 9,
        23, 178, 54, 115, 63, 102, 66, 98, 69, 99, 74, 89, 71, 91, 73, 91, 78, 89, 86, 80, 92,
        66, 93, 64, 102, 59, 103, 60, 104, 60, 117, 52, 123, 44, 138, 35, 133, 31, 97, 38, 77, 45,
        61, 90, 93, 60, 105, 42, 107, 41, 110, 45, 116, 38, 113, 38, 112, 38, 124, 26, 132, 27, 136,
        19, 140, 20, 155, 14, 159, 16, 158, 18, 170, 13, 177, 10, 187, 8, 192, 6, 175, 9, 159, 10,
        21, 178, 59, 110, 71, 86, 75, 85, 84, 83, 91, 66, 88, 73, 87, 72, 92, 75, 98, 72, 105,
        58, 107, 54, 115, 52, 114, 55, 112, 56, 129, 51, 132, 40, 150, 33, 140, 29, 98, 35, 77, 42,
        42, 121, 96, 66, 108, 43, 111, 40, 117, 44, 123, 32, 120, 36, 119, 33, 127, 33, 134, 34, 139,
        21, 147, 23, 152, 20, 158, 25, 154, 26, 166, 21, 173, 16, 184, 13, 184, 10, 150, 13, 139, 15,
        22, 178, 63, 114, 74, 82, 84, 83, 92, 82, 103, 62, 96, 72, 96, 67, 101, 73, 107, 72, 113,
        55, 118, 52, 125, 52, 118, 52, 117, 55, 135, 49, 137, 39, 157, 32, 145, 29, 97, 33, 77, 40,
    ]
}

/// Entry `j` of the model row for `lm` and `intra`.
fn e_prob(lm: usize, intra: bool, j: usize) -> (r: u32)
    requires
        lm <= 3,
        j < 42,
    ensures
        r == e_prob_model()[84 * lm + (if intra { 42int } else { 0 }) + j],
        1 <= r <= 255,
{
    let t: [u8; 336] = [
        72, 127, 65, 129, 66, 128, 65, 128, 64, 128, 62, 128, 64, 128, 64, 128, 92, 78, 92, 79, 92,
        78, 90, 79, 116, 41, 115, 40, 114, 40, 132, 26, 132, 26, 145, 17, 161, 12, 176, 10, 177, 11,
        24, 179, 48, 138, 54, 135, 54, 132, 53, 134, 56, 133, 55, 132, 55, 132, 61, 114, 70, 96, 74,
        88, 75, 88, 87, 74, 89, 66, 91, 67, 100, 59, 108, 50, 120, 40, 122, 37, 97, 43, 78, 50,
        83, 78, 84, 81, 88, 75, 86, 74, 87, 71, 90, 73, 93, 74, 93, 74, 109, 40, 114, 36, 117,
        34, 117, 34, 143, 17, 145, 18, 146, 19, 162, 12, 165, 10, 178, 7, 189, 6, 190, 8, 177, 9,
        23, 178, 54, 115, 63, 102, 66, 98, 69, 99, 74, 89, 71, 91, 73, 91, 78, 89, 86, 80, 92,
        66, 93, 64, 102, 59, 103, 60, 104, 60, 117, 52, 123, 44, 138, 35, 133, 31, 97, 38, 77, 45,
        61, 90, 93, 60, 105, 42, 107, 41, 110, 45, 116, 38, 113, 38, 112, 38, 124, 26, 132, 27, 136,
        19, 140, 20, 155, 14, 159, 16, 158, 18, 170, 13, 177, 10, 187, 8, 192, 6, 175, 9, 159, 10,
        21, 178, 59, 110, 71, 86, 75, 85, 84, 83, 91, 66, 88, 73, 87, 72, 92, 75, 98, 72, 105,
        58, 107, 54, 115, 52, 114, 55, 112, 56, 129, 51, 132, 40, 150, 33, 140, 29, 98, 35, 77, 42,
        42, 121, 96, 66, 108, 43, 111, 40, 117, 44, 123, 32, 120, 36, 119, 33, 127, 33, 134, 34, 139,
        21, 147, 23, 152, 20, 158, 25, 154, 26, 166, 21, 173, 16, 184, 13, 184, 10, 150, 13, 139, 15,
        22, 178, 63, 114, 74, 82, 84, 83, 92, 82, 103, 62, 96, 72, 96, 67, 101, 73, 107, 72, 113,
        55, 118, 52, 125, 52, 118, 52, 117, 55, 135, 49, 137, 39, 157, 32, 145, 29, 97, 33, 77, 40,
    ];
    assert(t@.map_values(|x: u8| x as int) =~= e_prob_model());
    let k = 84 * lm + if intra { 42 } else { 0 } + j;
    assert(t@[k as int] as int == e_prob_model()[k as int]);
    assert(forall|i: int| 0 <= i < 336 ==> 1 <= #[trigger] e_prob_model()[i] <= 255);
    t[k] as u32
}

/// One coarse energy symbol of band `i`: Laplace coded while 15 bits
/// remain, then from a small three-symbol table, then a single bit, and
/// -1 once the budget is spent.
pub open spec fn coarse_symbol(s: RangeState, i: int, lm: int, intra: bool) -> (RangeState, int) {
    let left = 8 * s.storage - s.tell();
    if left >= 15 {
        let pi = 2 * (if i < 20 { i } else { 20 });
        let row = 84 * lm + if intra { 42int } else { 0 };
        let (d1, fm) = spec_decode_bin(s, 15);
        let (v, fl, fh) = laplace_symbol(fm, e_prob_model()[row + pi] * 128, e_prob_model()[row + pi + 1] * 64);
        (spec_update(d1, fl, fh, 32768), v)
    } else if left >= 2 {
        let (s1, q) = spec_dec_icdf(s, seq![2u8, 1, 0], 2);
        (s1, if q == 0 { 0 } else if q == 1 { -1 } else { 1 })
    } else if left >= 1 {
        let (s1, b) = spec_dec_bit_logp(s, 1);
        (s1, -b)
    } else {
        (s, -1)
    }
}

/// The coarse energy symbols of bands `start + k / channels` onwards, one
/// per band and channel.
pub open spec fn coarse_symbols(s: RangeState, k: int, n: int, start: int, channels: int, lm: int, intra: bool)
    -> (Seq<int>, RangeState)
    decreases n - k,
{
    if k >= n || channels < 1 {
        (Seq::empty(), s)
    } else {
        let (s1, q) = coarse_symbol(s, start + k / channels, lm, intra);
        let (rest, s2) = coarse_symbols(s1, k + 1, n, start, channels, lm, intra);
        (seq![q] + rest, s2)
    }
}

/// Decodes the coarse energy symbols of bands `start .. end` for each
/// channel, band by band (the prediction that turns them into energies is
/// floating point and stays outside).
pub fn decode_coarse_symbols(
    rd: &mut RangeDecoder,
    start: usize,
    end: usize,
    intra: bool,
    channels: usize,
    lm: usize,
) -> (r: Vec<i32>)
    requires
        old(rd)@.wf(),
        start <= end <= 64,
        1 <= channels <= 2,
        lm <= 3,
        old(rd)@.nbits_total + 24 * 128 <= BITS_LIMIT,
        8 * old(rd)@.storage <= BITS_LIMIT,
    ensures
        final(rd)@.wf(),
        final(rd)@.storage == old(rd)@.storage,
        final(rd)@.nbits_total <= old(rd)@.nbits_total + 24 * ((end - start) * channels),
        ({
            let (qs, s2) = coarse_symbols(old(rd)@, 0, (end - start) * channels, start as int, channels as int,
                lm as int, intra);
            r@.len() == qs.len() && (forall|j: int| 0 <= j < qs.len() ==> r@[j] as int == qs[j]) && final(rd)@ == s2
        }),
{
    let ghost s0 = rd@;
    proof {
        assert((end - start) * channels <= 128) by (nonlinear_arith)
            requires end - start <= 64, channels <= 2;
    }
    let n = (end - start) * channels;
    let ghost target = coarse_symbols(s0, 0, n as int, start as int, channels as int, lm as int, intra);
    let mut out: Vec<i32> = Vec::new();
    let mut k: usize = 0;
    let small: [u8; 3] = [2, 1, 0];
    proof {
        vstd::arithmetic::power2::lemma2_to64();
        assert(small@ =~= seq![2u8, 1, 0]);
        assert(crate::opus::range::icdf_ok(small@, 2));
    }
    while k < n
        invariant
            k <= n == (end - start) * channels,
            start <= end <= 64,
            1 <= channels <= 2,
            lm <= 3,
            small@ == seq![2u8, 1, 0],
            crate::opus::range::icdf_ok(small@, 2),
            rd@.wf(),
            rd@.storage == s0.storage,
            rd@.nbits_total <= s0.nbits_total + 24 * k,
            s0.nbits_total + 24 * 128 <= BITS_LIMIT,
            8 * s0.storage <= BITS_LIMIT,
            target == coarse_symbols(s0, 0, n as int, start as int, channels as int, lm as int, intra),
            out@.len() == k,
            ({
                let (rest, s2) = coarse_symbols(rd@, k as int, n as int, start as int, channels as int, lm as int, intra);
                &&& target.1 == s2
                &&& target.0 == out@.map_values(|x: i32| x as int) + rest
            }),
        decreases n - k,
    {
        let i = start + k / channels;
        proof {
            crate::arith::lemma_ilog_u32(rd@.rng as u32);
        }
        let tell = rd.tell();
        let budget = (rd.storage() * 8) as i32;
        let ghost before = rd@;
        let ghost old_out = out@.map_values(|x: i32| x as int);
        let q: i32 = if budget - tell >= 15 {
            let pi = 2 * if i < 20 { i } else { 20 };
            let fs = e_prob(lm, intra, pi) * 128;
            let decay = (e_prob(lm, intra, pi + 1) * 64) as i32;
            ec_laplace_decode(rd, fs, decay)
        } else if budget - tell >= 2 {
            let v = rd.dec_icdf(&small, 2);
            if v == 0 { 0 } else if v == 1 { -1 } else { 1 }
        } else if budget - tell >= 1 {
            -(rd.dec_bit_logp(1) as i32)
        } else {
            -1
        };
        proof {
            assert((rd@, q as int) == coarse_symbol(before, i as int, lm as int, intra));
        }
        out.push(q);
        proof {
            let next = coarse_symbols(rd@, k + 1, n as int, start as int, channels as int, lm as int, intra);
            assert(out@.map_values(|x: i32| x as int) =~= old_out.push(q as int));
            assert(old_out.push(q as int) + next.0 =~= old_out + (seq![q as int] + next.0));
        }
        k = k + 1;
    }
    proof {
        assert(target.0 =~= out@.map_values(|x: i32| x as int));
    }
    out
}

} // verus!
