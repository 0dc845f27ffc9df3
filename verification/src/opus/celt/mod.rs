pub mod allocation;
pub mod bands;
pub mod band_steps;
pub mod band_decode;
pub mod band_shapes;
pub mod cwrs;
pub mod energy;
pub mod fine;
pub mod frame;
pub mod partition;
pub mod rate;
pub mod theta;
pub mod tables;
pub mod vq;

use vstd::prelude::*;
use crate::opus::celt::rate::PulseCache;
use crate::opus::range::{BITS_LIMIT, RangeDecoder, RangeState, lemma_tell_frac_bounds, spec_dec_bit_logp, spec_dec_bits, spec_dec_icdf, spec_dec_uint, spec_tell_frac};
use crate::opus::celt::rate::width;

verus! {

/// The integer tables of a CELT mode that bit allocation reads: band edges,
/// log2 band widths in 1/8 bit, the static allocation rows (one per
/// quality step, `nb_ebands` bytes each) and the pulse cache.
pub struct Mode {
    pub e_bands: Vec<i32>,
    pub nb_ebands: usize,
    pub log_n: Vec<i32>,
    pub alloc_vectors: Vec<u8>,
    pub cache: PulseCache,
}

/// The time-frequency resolution changes, by frame size, transient flag,
/// select bit and per-band flag.
pub open spec fn tf_select_table() -> Seq<Seq<int>> {
    seq![
        seq![0, -1, 0, -1, 0, -1, 0, -1],
        seq![0, -1, 0, -2, 1, 0, 1, -1],
        seq![0, -2, 0, -3, 2, 0, 1, -1],
        seq![0, -2, 0, -3, 3, 0, 1, -1],
    ]
}

/// One band's flag: read as a change with probability `2^-logp` while the
/// budget allows, else kept; the decoder state, bits used and flag after it.
#[verifier::opaque]
pub open spec fn tf_step(s: RangeState, tell: int, logp: int, curr: int, budget: int) -> (RangeState, int, int) {
    if tell + logp <= budget {
        let (s1, bit) = spec_dec_bit_logp(s, logp);
        (s1, s1.tell(), if bit == 1 { 1 - curr } else { curr })
    } else {
        (s, tell, curr)
    }
}

/// The per-band resolution flags from band `i` on, each coded as a change
/// from the previous one while the budget allows: the flags, the decoder
/// state after them, and whether any flag was set.
pub open spec fn tf_flags(
    s: RangeState,
    i: int,
    end: int,
    tell: int,
    logp: int,
    curr: int,
    changed: bool,
    budget: int,
    transient: bool,
) -> (Seq<int>, RangeState, bool)
    decreases end - i,
{
    if i >= end {
        (Seq::empty(), s, changed)
    } else {
        let (s2, tell2, curr2) = tf_step(s, tell, logp, curr, budget);
        let (rest, s3, ch3) = tf_flags(
            s2,
            i + 1,
            end,
            tell2,
            if transient { 4 } else { 5 },
            curr2,
            changed || curr2 == 1,
            budget,
            transient,
        );
        (seq![curr2] + rest, s3, ch3)
    }
}

/// The decoded resolution change of every band below `end` (zero below
/// `start`), and the decoder state after the flags and the select bit.
pub open spec fn tf_spec(s: RangeState, start: int, end: int, transient: bool, lm: int) -> (Seq<int>, RangeState) {
    let budget0 = 8 * s.storage;
    let logp0 = if transient { 2 } else { 4 };
    let rsv = lm > 0 && s.tell() + logp0 + 1 <= budget0;
    let budget = budget0 - if rsv { 1int } else { 0 };
    let (flags, s1, changed) = tf_flags(s, start, end, s.tell(), logp0, 0, false, budget, transient);
    let it = if transient { 4int } else { 0 };
    let ch = if changed { 1int } else { 0 };
    let row = tf_select_table()[lm];
    let (s2, sel) = if rsv && row[it + ch] != row[it + 2 + ch] {
        spec_dec_bit_logp(s1, 1)
    } else {
        (s1, 0)
    };
    (Seq::new(end as nat, |i: int| if i < start { 0 } else { row[it + 2 * sel + flags[i - start]] }), s2)
}

proof fn lemma_tf_flags_len(
    s: RangeState,
    i: int,
    end: int,
    tell: int,
    logp: int,
    curr: int,
    changed: bool,
    budget: int,
    transient: bool,
)
    requires
        i <= end,
    ensures
        tf_flags(s, i, end, tell, logp, curr, changed, budget, transient).0.len() == end - i,
    decreases end - i,
{
    if i < end {
        let (s2, tell2, curr2) = tf_step(s, tell, logp, curr, budget);
        lemma_tf_flags_len(s2, i + 1, end, tell2, if transient { 4 } else { 5 }, curr2, changed || curr2 == 1, budget, transient);
    }
}

/// Decodes the time-frequency resolution of bands `start .. end`.
#[verifier::rlimit(40)]
pub fn tf_decode(start: usize, end: usize, is_transient: bool, lm: i32, rd: &mut RangeDecoder) -> (r: Vec<i32>)
    requires
        old(rd)@.wf(),
        start <= end,
        0 <= lm <= 3,
        8 * old(rd)@.storage + 128 <= BITS_LIMIT,
    ensures
        final(rd)@.wf(),
        final(rd)@.storage == old(rd)@.storage,
        final(rd)@.nbits_total <= 8 * old(rd)@.storage + 80 || final(rd)@.nbits_total == old(rd)@.nbits_total,
        ({
            let (res, s2) = tf_spec(old(rd)@, start as int, end as int, is_transient, lm as int);
            r@.len() == end && (forall|i: int| 0 <= i < end ==> r@[i] as int == res[i]) && final(rd)@ == s2
        }),
{
    let ghost s0 = rd@;
    let mut tf_res: Vec<i32> = Vec::new();
    let mut k: usize = 0;
    while k < end
        invariant
            k <= end,
            tf_res@.len() == k,
            forall|i: int| 0 <= i < k ==> tf_res@[i] == 0,
        decreases end - k,
    {
        tf_res.push(0);
        k = k + 1;
    }
    let budget0 = (rd.storage() * 8) as i32;
    let mut tell = rd.tell();
    let mut logp: i32 = if is_transient { 2 } else { 4 };
    let tf_select_rsv: i32 = if lm > 0 && tell + logp + 1 <= budget0 { 1 } else { 0 };
    let budget = budget0 - tf_select_rsv;
    let mut tf_changed: i32 = 0;
    let mut curr: i32 = 0;
    let mut i = start;
    proof {
        crate::arith::lemma_ilog_u32(rd@.rng as u32);
    }
    let ghost flags = tf_flags(s0, start as int, end as int, s0.tell(), logp as int, 0, false, budget as int, is_transient);
    proof {
        lemma_tf_flags_len(s0, start as int, end as int, s0.tell(), logp as int, 0, false, budget as int, is_transient);
    }
    while i < end
        invariant
            start <= i <= end,
            tf_res@.len() == end,
            forall|j: int| 0 <= j < start ==> tf_res@[j] == 0,
            forall|j: int| start <= j < i ==> 0 <= #[trigger] tf_res@[j] <= 1,
            rd@.wf(),
            rd@.storage == s0.storage,
            tell == rd@.tell(),
            rd@.nbits_total <= 8 * s0.storage + 56 || rd@.nbits_total == s0.nbits_total,
            s0.tell() + (if is_transient { 2int } else { 4 }) + 1 <= 8 * s0.storage || tf_select_rsv == 0,
            8 * s0.storage + 128 <= BITS_LIMIT,
            budget as int == 8 * s0.storage - tf_select_rsv,
            0 <= tf_select_rsv <= 1,
            logp == if i == start { if is_transient { 2int } else { 4 } } else { if is_transient { 4int } else { 5 } },
            0 <= curr <= 1,
            0 <= tf_changed <= 1,
            curr == 1 ==> tf_changed == 1,
            ({
                let (rest, s3, ch3) = tf_flags(rd@, i as int, end as int, tell as int, logp as int, curr as int, tf_changed == 1, budget as int, is_transient);
                &&& flags.1 == s3
                &&& flags.2 == ch3
                &&& flags.0 == tf_res@.subrange(start as int, i as int).map_values(|x: i32| x as int) + rest
            }),
        decreases end - i,
    {
        let ghost before = rd@;
        let ghost cur0 = curr;
        let ghost tell0 = tell;
        let ghost logp0 = logp;
        let ghost ch0 = tf_changed;
        proof {
            crate::arith::lemma_ilog_u32(rd@.rng as u32);
        }
        if tell + logp <= budget {
            let bit = rd.dec_bit_logp(logp as u32);
            curr = curr ^ (bit as i32);
            proof {
                assert((bit == 1 ==> curr == 1 - cur0) && (bit == 0 ==> curr == cur0)) by (bit_vector)
                    requires 0 <= cur0 <= 1, 0 <= bit <= 1, curr == cur0 ^ (bit as i32);
            }
            tell = rd.tell();
            tf_changed = tf_changed | curr;
            proof {
                assert((curr == 1 ==> tf_changed == 1) && (curr == 0 ==> tf_changed == ch0)) by (bit_vector)
                    requires 0 <= ch0 <= 1, 0 <= curr <= 1, tf_changed == ch0 | curr;
            }
        }
        proof {
            assert((rd@, tell as int, curr as int) == tf_step(before, tell0 as int, logp0 as int, cur0 as int, budget as int)) by {
                reveal(tf_step);
            }
        }
        let ghost prev = tf_res@.subrange(start as int, i as int).map_values(|x: i32| x as int);
        tf_res.set(i, curr);
        logp = if is_transient { 4 } else { 5 };
        proof {
            let next = tf_flags(rd@, i + 1, end as int, tell as int, logp as int, curr as int, tf_changed == 1, budget as int, is_transient);
            assert(tf_res@.subrange(start as int, i + 1).map_values(|x: i32| x as int) =~= prev.push(curr as int));
            assert(prev.push(curr as int) + next.0 =~= prev + (seq![curr as int] + next.0));
        }
        i = i + 1;
    }
    let ghost raw = flags.0;
    proof {
        assert(raw =~= tf_res@.subrange(start as int, end as int).map_values(|x: i32| x as int));
        assert forall|q: int| start <= q < end implies tf_res@[q] as int == raw[q - start] by {
            assert(tf_res@.subrange(start as int, end as int)[q - start] == tf_res@[q]);
        }
    }
    let t: [[i8; 8]; 4] = [
        [0, -1, 0, -1, 0, -1, 0, -1],
        [0, -1, 0, -2, 1, 0, 1, -1],
        [0, -2, 0, -3, 2, 0, 1, -1],
        [0, -2, 0, -3, 3, 0, 1, -1],
    ];
    proof {
        assert(t@[0]@.map_values(|x: i8| x as int) =~= tf_select_table()[0]);
        assert(t@[1]@.map_values(|x: i8| x as int) =~= tf_select_table()[1]);
        assert(t@[2]@.map_values(|x: i8| x as int) =~= tf_select_table()[2]);
        assert(t@[3]@.map_values(|x: i8| x as int) =~= tf_select_table()[3]);
    }
    let it: usize = if is_transient { 1 } else { 0 };
    let lmu = lm as usize;
    let ghost row = tf_select_table()[lm as int];
    proof {
        assert(forall|k: int| 0 <= k < 8 ==> t@[lmu as int]@[k] as int == #[trigger] row[k]) by {
            assert(forall|k: int| 0 <= k < 8 ==> t@[lmu as int]@.map_values(|x: i8| x as int)[k] == #[trigger] t@[lmu as int]@[k] as int);
        }
    }
    let mut tf_select: usize = 0;
    if tf_select_rsv == 1 && t[lmu][4 * it + tf_changed as usize] != t[lmu][4 * it + 2 + tf_changed as usize] {
        tf_select = rd.dec_bit_logp(1) as usize;
    }
    let mut j = start;
    while j < end
        invariant
            start <= j <= end,
            tf_res@.len() == end,
            forall|q: int| 0 <= q < start ==> tf_res@[q] == 0,
            tf_select <= 1,
            it <= 1,
            lmu <= 3,
            lmu == lm,
            row == tf_select_table()[lm as int],
            forall|k: int| 0 <= k < 8 ==> t@[lmu as int]@[k] as int == #[trigger] row[k],
            forall|q: int| j <= q < end ==> 0 <= #[trigger] tf_res@[q] <= 1,
            forall|q: int| j <= q < end ==> tf_res@[q] as int == raw[q - start],
            forall|q: int| start <= q < j ==> tf_res@[q] as int == row[4 * it + 2 * tf_select + raw[q - start]],
        decreases end - j,
    {
        let f = tf_res[j] as usize;
        tf_res.set(j, t[lmu][4 * it + 2 * tf_select + f] as i32);
        j = j + 1;
    }
    tf_res
}

/// The flags and post-filter parameters at the start of a CELT frame.
#[derive(Clone, Copy, Debug, PartialEq, Eq, Structural)]
pub struct FramePrefix {
    pub silence: bool,
    pub pf_on: bool,
    pub pf_octave: u32,
    pub pf_pitch: i32,
    pub pf_qg: i32,
    pub pf_tapset: i32,
    pub transient: bool,
    pub intra: bool,
}

/// The post-filter fields when the frame has room for them (`tell` being
/// the count of bits before the silence flag): whether it is on, octave,
/// pitch period, gain index, tapset, and the state and bit count after.
pub open spec fn postfilter_spec(s: RangeState, tell: int, total: int) -> (RangeState, bool, int, int, int, int, int) {
    if tell + 16 <= total {
        let (sa, on) = spec_dec_bit_logp(s, 1);
        if on == 1 {
            let (sb, oct) = spec_dec_uint(sa, 6);
            let (sc, fine) = spec_dec_bits(sb, 4 + oct);
            let (sd, qg) = spec_dec_bits(sc, 3);
            let (se, tap) = if sd.tell() + 2 <= total { spec_dec_icdf(sd, seq![2u8, 1, 0], 2) } else { (sd, 0) };
            (se, true, oct, 16 * vstd::arithmetic::power2::pow2(oct as nat) + fine - 1, qg, tap, se.tell())
        } else {
            (sa, false, 0, 0, 0, 0, sa.tell())
        }
    } else {
        (s, false, 0, 0, 0, 0, tell)
    }
}

/// The frame prefix of a frame of `total` bits at frame size `lm`, and the
/// decoder state after it; nothing more is read from a silent frame.
pub open spec fn prefix_spec(s0: RangeState, lm: int, total: int) -> (FramePrefix, RangeState) {
    let t0 = s0.tell();
    let (s1, silence) = if t0 >= total {
        (s0, true)
    } else if t0 == 1 {
        let (s, b) = spec_dec_bit_logp(s0, 15);
        (s, b == 1)
    } else {
        (s0, false)
    };
    let none = FramePrefix {
        silence,
        pf_on: false,
        pf_octave: 0,
        pf_pitch: 0,
        pf_qg: 0,
        pf_tapset: 0,
        transient: false,
        intra: false,
    };
    if silence {
        (none, s1)
    } else {
        let (s2, on, oct, pitch, qg, tap, t1) = postfilter_spec(s1, t0, total);
        let (s3, tr) = if lm > 0 && t1 + 3 <= total {
            let (s, b) = spec_dec_bit_logp(s2, 3);
            (s, b == 1)
        } else {
            (s2, false)
        };
        let (s4, intra) = if s3.tell() + 3 <= total {
            let (s, b) = spec_dec_bit_logp(s3, 3);
            (s, b == 1)
        } else {
            (s3, false)
        };
        (FramePrefix {
            silence,
            pf_on: on,
            pf_octave: oct as u32,
            pf_pitch: pitch as i32,
            pf_qg: qg as i32,
            pf_tapset: tap as i32,
            transient: tr,
            intra,
        }, s4)
    }
}

/// Decodes the post-filter fields where the frame has room for them.
fn decode_postfilter(rd: &mut RangeDecoder, tell: i32, total_bits: i32) -> (r: (bool, u32, i32, i32, i32, i32))
    requires
        old(rd)@.wf(),
        old(rd)@.room(6),
        8 * old(rd)@.storage <= BITS_LIMIT,
        total_bits == 8 * old(rd)@.storage,
        -64 <= tell <= BITS_LIMIT,
    ensures
        final(rd)@.wf(),
        final(rd)@.storage == old(rd)@.storage,
        final(rd)@.nbits_total <= old(rd)@.nbits_total + 5 * 64,
        postfilter_spec(old(rd)@, tell as int, total_bits as int) == (final(rd)@, r.0, r.1 as int, r.2 as int,
            r.3 as int, r.4 as int, r.5 as int),
{
    if tell + 16 <= total_bits {
        if rd.dec_bit_logp(1) == 1 {
            let octave = rd.dec_uint(6);
            let fine = rd.dec_bits(4 + octave);
            proof {
                vstd::arithmetic::power2::lemma2_to64();
                if octave < 5 {
                    vstd::arithmetic::power2::lemma_pow2_strictly_increases((4 + octave) as nat, 9);
                    vstd::arithmetic::power2::lemma_pow2_strictly_increases(octave as nat, 5);
                }
            }
            let pitch = 16 * crate::arith::pow2_i32(octave) + fine as i32 - 1;
            let qg = rd.dec_bits(3) as i32;
            proof {
                crate::arith::lemma_ilog_u32(rd@.rng as u32);
            }
            let mut tapset: i32 = 0;
            if rd.tell() + 2 <= total_bits {
                let small: [u8; 3] = [2, 1, 0];
                proof {
                    assert(small@ =~= seq![2u8, 1, 0]);
                }
                tapset = rd.dec_icdf(&small, 2) as i32;
            }
            proof {
                crate::arith::lemma_ilog_u32(rd@.rng as u32);
            }
            (true, octave, pitch, qg, tapset, rd.tell())
        } else {
            proof {
                crate::arith::lemma_ilog_u32(rd@.rng as u32);
            }
            (false, 0, 0, 0, 0, rd.tell())
        }
    } else {
        (false, 0, 0, 0, 0, tell)
    }
}

/// Reads a flag of probability `2^-logp` where the frame's `total_bits`
/// leave room for `logp` bits after `tell`, else false.
fn flag_if_room(rd: &mut RangeDecoder, cond: bool, logp: u32) -> (r: bool)
    requires
        old(rd)@.wf(),
        old(rd)@.room(1),
        1 <= logp <= 15,
    ensures
        final(rd)@.wf(),
        final(rd)@.storage == old(rd)@.storage,
        final(rd)@.nbits_total <= old(rd)@.nbits_total + 24,
        (final(rd)@, r) == if cond {
            let (s, b) = spec_dec_bit_logp(old(rd)@, logp as int);
            (s, b == 1)
        } else {
            (old(rd)@, false)
        },
{
    if cond {
        rd.dec_bit_logp(logp) == 1
    } else {
        false
    }
}

/// Decodes the silence flag, post-filter, transient and intra flags at the
/// start of a frame at frame size `lm` (the whole buffer being the frame).
pub fn decode_frame_prefix(rd: &mut RangeDecoder, lm: i32) -> (r: FramePrefix)
    requires
        old(rd)@.wf(),
        old(rd)@.room(10),
        8 * old(rd)@.storage <= BITS_LIMIT,
    ensures
        final(rd)@.wf(),
        final(rd)@.storage == old(rd)@.storage,
        final(rd)@.nbits_total <= old(rd)@.nbits_total + 8 * 64,
        (r, final(rd)@) == prefix_spec(old(rd)@, lm as int, 8 * old(rd)@.storage),
{
    let total_bits = (rd.storage() * 8) as i32;
    proof {
        crate::arith::lemma_ilog_u32(rd@.rng as u32);
    }
    let tell = rd.tell();
    let silence = if tell >= total_bits {
        true
    } else {
        flag_if_room(rd, tell == 1, 15)
    };
    if silence {
        return FramePrefix {
            silence,
            pf_on: false,
            pf_octave: 0,
            pf_pitch: 0,
            pf_qg: 0,
            pf_tapset: 0,
            transient: false,
            intra: false,
        };
    }
    let (pf_on, pf_octave, pf_pitch, pf_qg, pf_tapset, t1) = decode_postfilter(rd, tell, total_bits);
    let transient = flag_if_room(rd, lm > 0 && t1 + 3 <= total_bits, 3);
    proof {
        crate::arith::lemma_ilog_u32(rd@.rng as u32);
    }
    let t2 = rd.tell();
    let intra = flag_if_room(rd, t2 + 3 <= total_bits, 3);
    FramePrefix { silence, pf_on, pf_octave, pf_pitch, pf_qg, pf_tapset, transient, intra }
}

/// The boost of one band: while the budget allows and the cap is not
/// reached, each set flag adds `quanta`, the first flag costing `logp` bits
/// and the rest one bit. Returns the state, the fractional bit count, the
/// budget left and the boost.
pub open spec fn boost_spec(s: RangeState, tellf: int, total_frac: int, boost: int, logp: int, quanta: int, cap: int)
    -> (RangeState, int, int, int)
    decreases (if boost < cap { cap - boost } else { 0 }),
{
    if tellf + logp * 8 < total_frac && boost < cap && quanta >= 1 {
        let (s1, flag) = spec_dec_bit_logp(s, logp);
        if flag == 0 {
            (s1, spec_tell_frac(s1), total_frac, boost)
        } else {
            boost_spec(s1, spec_tell_frac(s1), total_frac - quanta, boost + quanta, 1, quanta, cap)
        }
    } else {
        (s, tellf, total_frac, boost)
    }
}

/// The quantum of a band's boost: its size in 1/8 bit, capped between
/// its size and 6 bits.
pub open spec fn boost_quanta(eb: Seq<i32>, i: int, c: int, lm: int) -> int {
    let w = c * width(eb, i) * vstd::arithmetic::power2::pow2(lm as nat);
    let lower = if 48 > w { 48 } else { w };
    if w * 8 < lower { w * 8 } else { lower }
}

/// The boosts of bands `i .. end`, the first flag of a band costing
/// `dl` bits, two fewer after a boosted band down to 2.
pub open spec fn dynalloc_spec(
    s: RangeState,
    eb: Seq<i32>,
    cap: Seq<i32>,
    c: int,
    lm: int,
    i: int,
    end: int,
    tellf: int,
    total_frac: int,
    dl: int,
) -> (Seq<int>, RangeState, int, int)
    decreases end - i,
{
    if i >= end {
        (Seq::empty(), s, tellf, total_frac)
    } else {
        let (s1, tf1, tot1, boost) = boost_spec(s, tellf, total_frac, 0, dl, boost_quanta(eb, i, c, lm), cap[i] as int);
        let dl2 = if boost > 0 { if dl - 1 > 2 { dl - 1 } else { 2 } } else { dl };
        let (rest, s2, tf2, tot2) = dynalloc_spec(s1, eb, cap, c, lm, i + 1, end, tf1, tot1, dl2);
        (seq![boost] + rest, s2, tf2, tot2)
    }
}

/// What the allocation needs from the frame after the time-frequency
/// flags: spread, band boosts, trim, the bits for the bands and the
/// anti-collapse reserve.
pub struct AllocParams {
    pub spread: i32,
    pub offsets: Vec<i32>,
    pub trim: i32,
    pub bits: i32,
    pub anti_collapse_rsv: i32,
}

/// The allocation inputs of a frame of `total` bits read from `s`, and the
/// state after them.
pub open spec fn alloc_params_spec(
    s: RangeState,
    eb: Seq<i32>,
    cap: Seq<i32>,
    c: int,
    lm: int,
    end: int,
    transient: bool,
    total: int,
) -> (int, Seq<int>, int, int, int, RangeState) {
    let (s1, spread) = spread_spec(s, total);
    let (offs, s2, tellf, tot) = dynalloc_spec(s1, eb, cap, c, lm, 0, end, spec_tell_frac(s1), total * 8, 6);
    let (s3, trim) = trim_spec(s2, tellf, tot);
    let bits = total * 8 - spec_tell_frac(s3) - 1;
    let rsv = if transient && lm >= 2 && bits >= (lm + 2) * 8 { 8int } else { 0 };
    (spread, offs, trim, bits - rsv, rsv, s3)
}

/// The spreading decision when four bits are left of `total`, else 2.
pub open spec fn spread_spec(s: RangeState, total: int) -> (RangeState, int) {
    if s.tell() + 4 <= total {
        spec_dec_icdf(s, seq![25u8, 23, 2, 0], 5)
    } else {
        (s, 2)
    }
}

/// The allocation trim when six bits are left, else 5.
pub open spec fn trim_spec(s: RangeState, tellf: int, tot: int) -> (RangeState, int) {
    if tellf + 48 <= tot {
        spec_dec_icdf(s, seq![126u8, 124, 119, 109, 87, 41, 19, 9, 4, 2, 0], 7)
    } else {
        (s, 5)
    }
}

fn decode_spread(rd: &mut RangeDecoder) -> (r: i32)
    requires
        old(rd)@.wf(),
        8 * old(rd)@.storage <= 0x400_0000,
        old(rd)@.nbits_total + 24 <= BITS_LIMIT,
    ensures
        final(rd)@.wf(),
        final(rd)@.storage == old(rd)@.storage,
        (final(rd)@, r as int) == spread_spec(old(rd)@, 8 * old(rd)@.storage),
        0 <= r <= 3,
        final(rd)@.nbits_total <= old(rd)@.nbits_total || final(rd)@.nbits_total <= 8 * old(rd)@.storage + 60,
{
    let total_bits = (rd.storage() * 8) as i32;
    proof {
        crate::arith::lemma_ilog_u32(rd@.rng as u32);
        vstd::arithmetic::power2::lemma2_to64();
    }
    if rd.tell() + 4 <= total_bits {
        let t: [u8; 4] = [25, 23, 2, 0];
        proof {
            assert(t@ =~= seq![25u8, 23, 2, 0]);
        }
        rd.dec_icdf(&t, 5) as i32
    } else {
        2
    }
}

fn decode_trim(rd: &mut RangeDecoder, tellf: i32, total_frac: i32, bound: Ghost<int>) -> (r: i32)
    requires
        old(rd)@.wf(),
        0 <= bound@ <= 0x400_0000,
        total_frac <= 8 * bound@,
        tellf == spec_tell_frac(old(rd)@),
        old(rd)@.nbits_total <= BITS_LIMIT - 24 || old(rd)@.nbits_total <= bound@ + 60,
    ensures
        final(rd)@.wf(),
        final(rd)@.storage == old(rd)@.storage,
        (final(rd)@, r as int) == trim_spec(old(rd)@, tellf as int, total_frac as int),
        0 <= r <= 10,
        final(rd)@.nbits_total <= old(rd)@.nbits_total || final(rd)@.nbits_total <= bound@ + 60,
{
    proof {
        lemma_tell_frac_bounds(rd@);
        vstd::arithmetic::power2::lemma2_to64();
    }
    if tellf + 48 <= total_frac {
        let t: [u8; 11] = [126, 124, 119, 109, 87, 41, 19, 9, 4, 2, 0];
        proof {
            assert(t@ =~= seq![126u8, 124, 119, 109, 87, 41, 19, 9, 4, 2, 0]);
        }
        rd.dec_icdf(&t, 7) as i32
    } else {
        5
    }
}

fn decode_boost(
    rd: &mut RangeDecoder,
    tellf: i32,
    total_frac: i32,
    logp: i32,
    quanta: i32,
    cap: i32,
    bound: Ghost<int>,
    top: Ghost<int>,
) -> (r: (i32, i32, i32))
    requires
        old(rd)@.wf(),
        1 <= logp <= 6,
        1 <= quanta <= 0x2000,
        cap <= 0x10_0000,
        -0x2000 <= total_frac <= 8 * bound@,
        0 <= bound@ <= 0x400_0000,
        bound@ + 100 <= top@ <= BITS_LIMIT - 24,
        old(rd)@.nbits_total <= top@,
        tellf == spec_tell_frac(old(rd)@),
    ensures
        final(rd)@.wf(),
        final(rd)@.storage == old(rd)@.storage,
        (final(rd)@, r.0 as int, r.1 as int, r.2 as int) == boost_spec(old(rd)@, tellf as int, total_frac as int, 0,
            logp as int, quanta as int, cap as int),
        final(rd)@.nbits_total <= top@,
        -0x2000 <= r.1 <= 8 * bound@,
        r.0 == spec_tell_frac(final(rd)@),
        0 <= r.2 <= (if cap > 0 { cap as int } else { 0 }) + 0x2000,
{
    let ghost s0 = rd@;
    let mut tf = tellf;
    let mut tot = total_frac;
    let mut boost: i32 = 0;
    let mut lp = logp;
    proof {
        lemma_tell_frac_bounds(rd@);
    }
    loop
        invariant_except_break
            boost_spec(s0, tellf as int, total_frac as int, 0, logp as int, quanta as int, cap as int)
                == boost_spec(rd@, tf as int, tot as int, boost as int, lp as int, quanta as int, cap as int),
        invariant
            rd@.wf(),
            rd@.storage == s0.storage,
            1 <= lp <= 6,
            1 <= quanta <= 0x2000,
            cap <= 0x10_0000,
            0 <= boost <= (if cap > 0 { cap as int } else { 0 }) + 0x2000,
            -0x2000 <= tot <= 8 * bound@,
            0 <= bound@ <= 0x400_0000,
            bound@ + 100 <= top@ <= BITS_LIMIT - 24,
            tf == spec_tell_frac(rd@),
            rd@.nbits_total <= top@,
        ensures
            rd@.wf(),
            rd@.storage == s0.storage,
            tf == spec_tell_frac(rd@),
            rd@.nbits_total <= top@,
            -0x2000 <= tot <= 8 * bound@,
            0 <= boost <= (if cap > 0 { cap as int } else { 0 }) + 0x2000,
            boost_spec(s0, tellf as int, total_frac as int, 0, logp as int, quanta as int, cap as int)
                == (rd@, tf as int, tot as int, boost as int),
        decreases (if boost < cap { cap - boost } else { 0 }),
    {
        proof {
            lemma_tell_frac_bounds(rd@);
        }
        if !(tf + lp * 8 < tot && boost < cap) {
            break;
        }
        let flag = rd.dec_bit_logp(lp as u32);
        proof {
            lemma_tell_frac_bounds(rd@);
        }
        tf = rd.tell_frac() as i32;
        if flag == 0 {
            break;
        }
        boost = boost + quanta;
        tot = tot - quanta;
        lp = 1;
    }
    (tf, tot, boost)
}

/// The band boosts of bands `0 .. end`, read from the point where the
/// frame has `tellf` eighth-bits used of `total_frac`.
fn decode_dynalloc(
    rd: &mut RangeDecoder,
    e_bands: &[i32],
    cap: &[i32],
    end: usize,
    c: i32,
    lm: i32,
    tellf: i32,
    total_frac: i32,
    bound: Ghost<int>,
    top: Ghost<int>,
) -> (r: (Vec<i32>, i32, i32))
    requires
        old(rd)@.wf(),
        0 <= bound@ <= 0x400_0000,
        bound@ + 100 <= top@ <= BITS_LIMIT - 24,
        old(rd)@.nbits_total <= top@,
        tellf == spec_tell_frac(old(rd)@),
        -0x2000 <= total_frac <= 8 * bound@,
        end <= 64,
        e_bands@.len() >= end + 1,
        cap@.len() >= end,
        forall|i: int| 0 <= i < end ==> 1 <= #[trigger] width(e_bands@, i) <= 64,
        forall|i: int| 0 <= i < end ==> #[trigger] cap@[i] <= 0x10_0000,
        1 <= c <= 2,
        0 <= lm <= 3,
    ensures
        final(rd)@.wf(),
        final(rd)@.storage == old(rd)@.storage,
        final(rd)@.nbits_total <= top@,
        r.1 == spec_tell_frac(final(rd)@),
        -0x2000 <= r.2 <= 8 * bound@,
        r.0@.len() == end,
        forall|i: int| 0 <= i < end ==> 0 <= #[trigger] r.0@[i] <= (if cap@[i] > 0 { cap@[i] as int } else { 0 }) + 0x2000,
        ({
            let (offs, s2, tf2, tot2) = dynalloc_spec(old(rd)@, e_bands@, cap@, c as int, lm as int, 0, end as int,
                tellf as int, total_frac as int, 6);
            &&& r.0@.map_values(|x: i32| x as int) == offs
            &&& final(rd)@ == s2
            &&& r.1 == tf2
            &&& r.2 == tot2
        }),
{
    let ghost s0 = rd@;
    let mut tf = tellf;
    let mut tot = total_frac;
    let mut dl: i32 = 6;
    let p = crate::arith::pow2_i32(lm as u32);
    proof {
        vstd::arithmetic::power2::lemma2_to64();
        if lm < 3 {
            vstd::arithmetic::power2::lemma_pow2_strictly_increases(lm as nat, 3);
        }
    }
    let ghost target = dynalloc_spec(s0, e_bands@, cap@, c as int, lm as int, 0, end as int, tellf as int,
        total_frac as int, 6);
    let mut offsets: Vec<i32> = Vec::new();
    let mut i: usize = 0;
    while i < end
        invariant
            i <= end <= 64,
            e_bands@.len() >= end + 1,
            cap@.len() >= end,
            forall|k: int| 0 <= k < end ==> 1 <= #[trigger] width(e_bands@, k) <= 64,
            forall|k: int| 0 <= k < end ==> #[trigger] cap@[k] <= 0x10_0000,
            1 <= c <= 2,
            0 <= lm <= 3,
            p as int == vstd::arithmetic::power2::pow2(lm as nat),
            1 <= p <= 8,
            2 <= dl <= 6,
            rd@.wf(),
            rd@.storage == s0.storage,
            0 <= bound@ <= 0x400_0000,
            bound@ + 100 <= top@ <= BITS_LIMIT - 24,
            rd@.nbits_total <= top@,
            tf == spec_tell_frac(rd@),
            -0x2000 <= tot <= 8 * bound@,
            offsets@.len() == i,
            forall|k: int| 0 <= k < i ==> 0 <= #[trigger] offsets@[k] <= (if cap@[k] > 0 { cap@[k] as int } else { 0 }) + 0x2000,
            ({
                let (rest, s2, tf2, tot2) = dynalloc_spec(rd@, e_bands@, cap@, c as int, lm as int, i as int, end as int,
                    tf as int, tot as int, dl as int);
                &&& target.1 == s2
                &&& target.2 == tf2
                &&& target.3 == tot2
                &&& target.0 == offsets@.map_values(|x: i32| x as int) + rest
            }),
        decreases end - i,
    {
        let hi = e_bands[i + 1];
        let lo = e_bands[i];
        proof {
            assert(1 <= width(e_bands@, i as int) <= 64);
        }
        let wd: i32 = hi - lo;
        proof {
            assert(1 <= c * wd <= 128) by (nonlinear_arith)
                requires 1 <= c <= 2, 1 <= wd <= 64;
        }
        let cw: i32 = c * wd;
        proof {
            assert(1 <= cw * p <= 1024) by (nonlinear_arith)
                requires 1 <= cw <= 128, 1 <= p <= 8;
        }
        let w: i32 = cw * p;
        let lower = if 48 > w { 48 } else { w };
        let quanta = if w * 8 < lower { w * 8 } else { lower };
        let ghost prev = offsets@.map_values(|x: i32| x as int);
        let (tf1, tot1, boost) = decode_boost(rd, tf, tot, dl, quanta, cap[i], bound, top);
        tf = tf1;
        tot = tot1;
        offsets.push(boost);
        if boost > 0 {
            dl = if dl - 1 > 2 { dl - 1 } else { 2 };
        }
        proof {
            let next = dynalloc_spec(rd@, e_bands@, cap@, c as int, lm as int, i + 1, end as int, tf as int,
                tot as int, dl as int);
            assert(offsets@.map_values(|x: i32| x as int) =~= prev.push(boost as int));
            assert(prev.push(boost as int) + next.0 =~= prev + (seq![boost as int] + next.0));
        }
        i = i + 1;
    }
    proof {
        assert(target.0 =~= offsets@.map_values(|x: i32| x as int));
    }
    (offsets, tf, tot)
}

/// Decodes spread, the band boosts, the trim and the anti-collapse reserve
/// of a frame whose bands end at `end`, once its time-frequency flags are
/// read; `cap` holds the bands' boost caps.
#[verifier::rlimit(50)]
pub fn decode_alloc_params(
    rd: &mut RangeDecoder,
    e_bands: &[i32],
    cap: &[i32],
    end: usize,
    c: i32,
    lm: i32,
    transient: bool,
) -> (r: AllocParams)
    requires
        old(rd)@.wf(),
        8 * old(rd)@.storage <= 0x400_0000,
        old(rd)@.nbits_total + 124 <= BITS_LIMIT,
        end <= 64,
        e_bands@.len() >= end + 1,
        cap@.len() >= end,
        forall|i: int| 0 <= i < end ==> 1 <= #[trigger] width(e_bands@, i) <= 64,
        forall|i: int| 0 <= i < end ==> #[trigger] cap@[i] <= 0x10_0000,
        1 <= c <= 2,
        0 <= lm <= 3,
    ensures
        final(rd)@.wf(),
        final(rd)@.storage == old(rd)@.storage,
        ({
            let (spread, offs, trim, bits, rsv, s2) = alloc_params_spec(old(rd)@, e_bands@, cap@, c as int, lm as int,
                end as int, transient, 8 * old(rd)@.storage);
            &&& r.spread == spread
            &&& r.offsets@.map_values(|x: i32| x as int) == offs
            &&& r.trim == trim
            &&& r.bits == bits
            &&& r.anti_collapse_rsv == rsv
            &&& final(rd)@ == s2
        }),
        0 <= r.spread <= 3,
        0 <= r.trim <= 10,
        r.offsets@.len() == end,
        forall|i: int| 0 <= i < end ==> 0 <= #[trigger] r.offsets@[i] <= (if cap@[i] > 0 { cap@[i] as int } else { 0 }) + 0x2000,
        r.bits <= 64 * old(rd)@.storage,
        final(rd)@.nbits_total <= old(rd)@.nbits_total || final(rd)@.nbits_total <= 8 * old(rd)@.storage + 100,
{
    let ghost s0 = rd@;
    let ghost bound = 8 * s0.storage;
    let ghost top = if s0.nbits_total > bound + 100 { s0.nbits_total } else { bound + 100 };
    let total_bits = (rd.storage() * 8) as i32;
    let spread = decode_spread(rd);
    proof {
        lemma_tell_frac_bounds(rd@);
    }
    let tellf0 = rd.tell_frac() as i32;
    let (offsets, tellf, total_frac) = decode_dynalloc(rd, e_bands, cap, end, c, lm, tellf0, total_bits * 8,
        Ghost(bound), Ghost(top));
    let trim = decode_trim(rd, tellf, total_frac, Ghost(bound));
    proof {
        lemma_tell_frac_bounds(rd@);
    }
    let mut bits = total_bits * 8 - rd.tell_frac() as i32 - 1;
    let rsv: i32 = if transient && lm >= 2 && bits >= (lm + 2) * 8 { 8 } else { 0 };
    bits = bits - rsv;
    AllocParams { spread, offsets, trim, bits, anti_collapse_rsv: rsv }
}

/// The time-frequency changes of RFC 6716 (table `tf_select_table`), by
/// frame size `lm`, transient flag, select bit and band flag: a frame that
/// is not transient never raises the time resolution, and with both bits
/// clear keeps it; a transient frame with both bits clear splits to the
/// shortest blocks, `lm` steps.
pub proof fn lemma_tf_select_values(lm: int)
    requires
        0 <= lm <= 3,
    ensures
        tf_select_table()[0] == seq![0int, -1, 0, -1, 0, -1, 0, -1],
        tf_select_table()[1] == seq![0int, -1, 0, -2, 1, 0, 1, -1],
        tf_select_table()[2] == seq![0int, -2, 0, -3, 2, 0, 1, -1],
        tf_select_table()[3] == seq![0int, -2, 0, -3, 3, 0, 1, -1],
        forall|j: int| 0 <= j < 4 ==> #[trigger] tf_select_table()[lm][j] <= 0,
        tf_select_table()[lm][0] == 0 && tf_select_table()[lm][2] == 0,
        tf_select_table()[lm][4] == lm,
{
    assert(lm == 0 || lm == 1 || lm == 2 || lm == 3);
}

} // verus!
