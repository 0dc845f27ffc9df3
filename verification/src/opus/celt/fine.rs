//! The raw bits that refine the band energies: the fine energy read before
//! the band shapes, the anti-collapse flag after them, and the final
//! energy bits that spend what is left, by priority.
use vstd::prelude::*;
use crate::opus::range::{RangeDecoder, RangeState, BITS_LIMIT, spec_dec_bits};

verus! {

/// Most fine energy bits a band can have; bands with this many get no
/// final bit.
pub const MAX_FINE_BITS: i32 = 8;

/// `k` raw fields of `bits` bits each, read in turn.
pub open spec fn raw_fields(s: RangeState, bits: int, k: int) -> (RangeState, Seq<int>)
    decreases k,
{
    if k <= 0 {
        (s, Seq::empty())
    } else {
        let (s1, v) = spec_dec_bits(s, bits);
        let (s2, rest) = raw_fields(s1, bits, k - 1);
        (s2, seq![v] + rest)
    }
}

/// The fine energy of bands `i .. end`: for each band with fine bits, one
/// field of that many bits per channel.
pub open spec fn fine_spec(s: RangeState, fq: Seq<i32>, i: int, end: int, channels: int) -> (RangeState, Seq<int>)
    decreases end - i,
{
    if i >= end {
        (s, Seq::empty())
    } else if fq[i] <= 0 {
        fine_spec(s, fq, i + 1, end, channels)
    } else {
        let (s1, v) = raw_fields(s, fq[i] as int, channels);
        let (s2, rest) = fine_spec(s1, fq, i + 1, end, channels);
        (s2, v + rest)
    }
}

/// One priority pass of the final energy bits over bands `i .. end`: while
/// a bit per channel is left, each band of this priority below the fine
/// bit limit gets one bit per channel. The state, the bits, and the bits
/// left.
pub open spec fn final_pass(
    s: RangeState,
    fq: Seq<i32>,
    fp: Seq<i32>,
    prio: int,
    i: int,
    end: int,
    channels: int,
    left: int,
) -> (RangeState, Seq<int>, int)
    decreases end - i,
{
    if i >= end || left < channels {
        (s, Seq::empty(), left)
    } else if fq[i] >= MAX_FINE_BITS || fp[i] != prio {
        final_pass(s, fq, fp, prio, i + 1, end, channels, left)
    } else {
        let (s1, v) = raw_fields(s, 1, channels);
        let (s2, rest, l2) = final_pass(s1, fq, fp, prio, i + 1, end, channels, left - channels);
        (s2, v + rest, l2)
    }
}

/// Reads `k` raw fields of `bits` bits.
fn read_fields(rd: &mut RangeDecoder, bits: u32, k: usize, out: &mut Vec<u32>)
    requires
        old(rd)@.wf(),
        1 <= bits <= 24,
        k <= 2,
        old(rd)@.nbits_total + 48 <= BITS_LIMIT,
    ensures
        final(rd)@.wf(),
        final(rd)@.storage == old(rd)@.storage,
        final(rd)@.nbits_total <= old(rd)@.nbits_total + bits * k,
        ({
            let (s2, v) = raw_fields(old(rd)@, bits as int, k as int);
            &&& final(rd)@ == s2
            &&& final(out)@.map_values(|x: u32| x as int) == old(out)@.map_values(|x: u32| x as int) + v
        }),
{
    let ghost s0 = rd@;
    let ghost o0 = out@.map_values(|x: u32| x as int);
    let ghost target = raw_fields(s0, bits as int, k as int);
    let mut j: usize = 0;
    while j < k
        invariant
            j <= k <= 2,
            1 <= bits <= 24,
            rd@.wf(),
            rd@.storage == s0.storage,
            rd@.nbits_total == s0.nbits_total + bits * j,
            s0.nbits_total + 48 <= BITS_LIMIT,
            ({
                let (s2, rest) = raw_fields(rd@, bits as int, (k - j) as int);
                &&& target.0 == s2
                &&& o0 + target.1 == out@.map_values(|x: u32| x as int) + rest
            }),
        decreases k - j,
    {
        proof {
            assert(bits * j <= 24 * 2) by (nonlinear_arith)
                requires bits <= 24, j <= 2;
        }
        let ghost before = out@.map_values(|x: u32| x as int);
        let v = rd.dec_bits(bits);
        out.push(v);
        proof {
            let rest = raw_fields(rd@, bits as int, (k - j - 1) as int).1;
            assert(out@.map_values(|x: u32| x as int) =~= before.push(v as int));
            assert(before.push(v as int) + rest =~= before + (seq![v as int] + rest));
            assert(bits * (j + 1) == bits * j + bits) by (nonlinear_arith);
        }
        j = j + 1;
    }
    proof {
        assert(out@.map_values(|x: u32| x as int) + Seq::<int>::empty() =~= out@.map_values(|x: u32| x as int));
    }
}

/// Reads the fine energy bits of bands `start .. end` (see `fine_spec`):
/// the fields in band order, channel after channel.
pub fn decode_fine(rd: &mut RangeDecoder, start: usize, end: usize, fine_quant: &[i32], channels: usize)
    -> (r: Vec<u32>)
    requires
        old(rd)@.wf(),
        start <= end <= fine_quant@.len(),
        end <= 1024,
        1 <= channels <= 2,
        forall|j: int| start <= j < end ==> #[trigger] fine_quant@[j] <= 24,
        old(rd)@.nbits_total + 48 * (end - start) + 48 <= BITS_LIMIT,
    ensures
        final(rd)@.wf(),
        final(rd)@.storage == old(rd)@.storage,
        final(rd)@.nbits_total <= old(rd)@.nbits_total + 48 * (end - start),
        (final(rd)@, r@.map_values(|x: u32| x as int)) == fine_spec(old(rd)@, fine_quant@, start as int, end as int,
            channels as int),
{
    let ghost s0 = rd@;
    let ghost target = fine_spec(s0, fine_quant@, start as int, end as int, channels as int);
    let mut out: Vec<u32> = Vec::new();
    let mut i = start;
    while i < end
        invariant
            start <= i <= end <= fine_quant@.len(),
            end <= 1024,
            1 <= channels <= 2,
            forall|j: int| start <= j < end ==> #[trigger] fine_quant@[j] <= 24,
            rd@.wf(),
            rd@.storage == s0.storage,
            rd@.nbits_total <= s0.nbits_total + 48 * (i - start),
            s0.nbits_total + 48 * (end - start) + 48 <= BITS_LIMIT,
            ({
                let (s2, rest) = fine_spec(rd@, fine_quant@, i as int, end as int, channels as int);
                &&& target.0 == s2
                &&& target.1 == out@.map_values(|x: u32| x as int) + rest
            }),
        decreases end - i,
    {
        let q = fine_quant[i];
        if q > 0 {
            read_fields(rd, q as u32, channels, &mut out);
            proof {
                assert(q * channels <= 48) by (nonlinear_arith)
                    requires q <= 24, channels <= 2, q >= 1;
            }
        }
        i = i + 1;
    }
    proof {
        assert(out@.map_values(|x: u32| x as int) + Seq::<int>::empty() =~= out@.map_values(|x: u32| x as int));
    }
    out
}

/// Reads the anti-collapse flag where bits were reserved for it.
pub fn decode_anti_collapse(rd: &mut RangeDecoder, reserved: i32) -> (r: bool)
    requires
        old(rd)@.wf(),
        old(rd)@.nbits_total + 1 <= BITS_LIMIT,
    ensures
        final(rd)@.wf(),
        final(rd)@.storage == old(rd)@.storage,
        reserved > 0 ==> (final(rd)@, r) == ({
            let (s1, v) = spec_dec_bits(old(rd)@, 1);
            (s1, v == 1)
        }),
        reserved <= 0 ==> final(rd)@ == old(rd)@ && !r,
{
    if reserved > 0 {
        rd.dec_bits(1) == 1
    } else {
        false
    }
}

/// Reads one priority pass of final energy bits (see `final_pass`).
fn final_bits_pass(
    rd: &mut RangeDecoder,
    start: usize,
    end: usize,
    fine_quant: &[i32],
    fine_priority: &[i32],
    prio: i32,
    channels: usize,
    left: i32,
    out: &mut Vec<u32>,
) -> (r: i32)
    requires
        old(rd)@.wf(),
        start <= end <= fine_quant@.len(),
        end <= fine_priority@.len(),
        end <= 1024,
        1 <= channels <= 2,
        old(rd)@.nbits_total + 2 * (end - start) + 48 <= BITS_LIMIT,
        -0x1000_0000 <= left <= 0x1000_0000,
    ensures
        final(rd)@.wf(),
        final(rd)@.storage == old(rd)@.storage,
        final(rd)@.nbits_total <= old(rd)@.nbits_total + 2 * (end - start),
        left - 2 * (end - start) <= r <= left,
        ({
            let (s2, v, l2) = final_pass(old(rd)@, fine_quant@, fine_priority@, prio as int, start as int, end as int,
                channels as int, left as int);
            &&& final(rd)@ == s2
            &&& final(out)@.map_values(|x: u32| x as int) == old(out)@.map_values(|x: u32| x as int) + v
            &&& r == l2
        }),
{
    let ghost s0 = rd@;
    let ghost o0 = out@.map_values(|x: u32| x as int);
    let ghost target = final_pass(s0, fine_quant@, fine_priority@, prio as int, start as int, end as int,
        channels as int, left as int);
    let mut i = start;
    let mut l = left;
    while i < end && l >= channels as i32
        invariant
            start <= i <= end <= fine_quant@.len(),
            end <= fine_priority@.len(),
            end <= 1024,
            1 <= channels <= 2,
            rd@.wf(),
            rd@.storage == s0.storage,
            rd@.nbits_total <= s0.nbits_total + 2 * (i - start),
            s0.nbits_total + 2 * (end - start) + 48 <= BITS_LIMIT,
            left - 2 * (i - start) <= l <= left,
            -0x1000_0000 <= left <= 0x1000_0000,
            ({
                let (s2, rest, l2) = final_pass(rd@, fine_quant@, fine_priority@, prio as int, i as int, end as int,
                    channels as int, l as int);
                &&& target.0 == s2
                &&& o0 + target.1 == out@.map_values(|x: u32| x as int) + rest
                &&& target.2 == l2
            }),
        decreases end - i,
    {
        if !(fine_quant[i] >= MAX_FINE_BITS || fine_priority[i] != prio) {
            read_fields(rd, 1, channels, out);
            l = l - channels as i32;
        }
        i = i + 1;
    }
    proof {
        assert(out@.map_values(|x: u32| x as int) + Seq::<int>::empty() =~= out@.map_values(|x: u32| x as int));
    }
    l
}

/// Reads the final energy bits of bands `start .. end` with `bits_left`
/// whole bits left: the bands of priority 0, then those of priority 1.
pub fn decode_final(
    rd: &mut RangeDecoder,
    start: usize,
    end: usize,
    fine_quant: &[i32],
    fine_priority: &[i32],
    bits_left: i32,
    channels: usize,
) -> (r: Vec<u32>)
    requires
        old(rd)@.wf(),
        start <= end <= fine_quant@.len(),
        end <= fine_priority@.len(),
        end <= 1024,
        1 <= channels <= 2,
        old(rd)@.nbits_total + 4 * (end - start) + 96 <= BITS_LIMIT,
        -0x0800_0000 <= bits_left <= 0x0800_0000,
    ensures
        final(rd)@.wf(),
        final(rd)@.storage == old(rd)@.storage,
        ({
            let (s1, v1, l1) = final_pass(old(rd)@, fine_quant@, fine_priority@, 0, start as int, end as int,
                channels as int, bits_left as int);
            let (s2, v2, l2) = final_pass(s1, fine_quant@, fine_priority@, 1, start as int, end as int,
                channels as int, l1);
            &&& final(rd)@ == s2
            &&& r@.map_values(|x: u32| x as int) == v1 + v2
        }),
{
    let mut out: Vec<u32> = Vec::new();
    proof {
        assert(out@.map_values(|x: u32| x as int) =~= Seq::<int>::empty());
    }
    let l1 = final_bits_pass(rd, start, end, fine_quant, fine_priority, 0, channels, bits_left, &mut out);
    let _ = final_bits_pass(rd, start, end, fine_quant, fine_priority, 1, channels, l1, &mut out);
    proof {
        assert(Seq::<int>::empty() + final_pass(old(rd)@, fine_quant@, fine_priority@, 0, start as int, end as int,
            channels as int, bits_left as int).1 =~= final_pass(old(rd)@, fine_quant@, fine_priority@, 0, start as int,
            end as int, channels as int, bits_left as int).1);
    }
    out
}

} // verus!
