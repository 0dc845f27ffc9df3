//! The integer part of a CELT frame up to the band shapes: flags and
//! post-filter, coarse energy symbols, time-frequency resolution, spread,
//! boosts, trim, anti-collapse reserve and the bit allocation, read in the
//! order the bitstream holds them.
use vstd::prelude::*;
use crate::opus::celt::{
    AllocParams, FramePrefix, Mode, alloc_params_spec, decode_alloc_params, decode_frame_prefix, prefix_spec,
    tf_decode, tf_spec,
};
use crate::opus::celt::allocation::{Alloc, BAND_MAX, alloc_in, band_cap, clt_compute_allocation, init_caps};
use crate::opus::celt::energy::{coarse_symbols, decode_coarse_symbols};
use crate::opus::celt::rate::width;
use crate::opus::range::{RangeDecoder, RangeState, initial, lemma_initial};

verus! {

/// The tables a frame is decoded with, for frame size `lm` and `c`
/// channels: at most 23 bands of 1 to 32 bins with edges below 4096, log2
/// widths up to 64 bits, the eleven allocation rows, a cap for each band
/// and resolution, each cap within the allocation's range.
pub open spec fn mode_ok(mode: &Mode, lm: int, c: int) -> bool {
    let nb = mode.nb_ebands as int;
    &&& 1 <= nb <= 23
    &&& 0 <= lm <= 3
    &&& 1 <= c <= 2
    &&& mode.e_bands@.len() >= nb + 1
    &&& mode.log_n@.len() >= nb
    &&& mode.alloc_vectors@.len() >= 11 * nb
    &&& mode.cache.caps@.len() >= nb * (2 * lm + c)
    &&& forall|j: int| 0 <= j <= nb ==> 0 <= #[trigger] mode.e_bands@[j] <= 4096
    &&& forall|j: int|
        0 <= j < nb ==> 1 <= #[trigger] width(mode.e_bands@, j) <= 32 && 0 <= mode.log_n@[j] <= 512 && 0
            <= band_cap(mode, lm, c, j) <= BAND_MAX
}

/// What a frame decodes after its prefix: the coarse energy symbols, the
/// per-band time-frequency resolution, the allocation inputs and the
/// allocation itself.
pub struct FrameBody {
    pub coarse: Vec<i32>,
    pub tf_res: Vec<i32>,
    pub params: AllocParams,
    pub alloc: Alloc,
}

/// A decoded frame header: the prefix, and the rest unless the frame is
/// silent.
pub struct FrameHeader {
    pub prefix: FramePrefix,
    pub body: Option<FrameBody>,
}

/// The caps of all bands.
pub open spec fn caps_of(mode: &Mode, lm: int, c: int) -> Seq<i32> {
    Seq::new(mode.nb_ebands as nat, |i: int| band_cap(mode, lm, c, i) as i32)
}

/// Whether `b` is what a non-silent frame holds after its prefix, read from
/// state `s1` on a frame of `len` bytes.
#[verifier::opaque]
pub open spec fn body_matches(b: FrameBody, mode: &Mode, s1: RangeState, p: FramePrefix, lm: int, c: int, len: int) -> bool {
    let nb = mode.nb_ebands as int;
    let (qs, s2) = coarse_symbols(s1, 0, nb * c, 0, c, lm, p.intra);
    let (res, s3) = tf_spec(s2, 0, nb, p.transient, lm);
    let caps = caps_of(mode, lm, c);
    let (spread, offs, trim, bits, rsv, s4) = alloc_params_spec(s3, mode.e_bands@, caps, c, lm, nb, p.transient, 8 * len);
    let out = alloc_in(mode, 0, nb as usize, b.params.offsets@, caps, trim as i32, c as i32, lm as i32).allocation(
        bits,
        s4,
    );
    &&& b.coarse@.map_values(|x: i32| x as int) == qs
    &&& b.tf_res@.len() == nb
    &&& forall|i: int| 0 <= i < nb ==> b.tf_res@[i] as int == res[i]
    &&& b.params.spread == spread
    &&& b.params.offsets@.map_values(|x: i32| x as int) == offs
    &&& b.params.trim == trim
    &&& b.params.bits == bits
    &&& b.params.anti_collapse_rsv == rsv
    &&& b.alloc.pulses@ == out.bits
    &&& b.alloc.fine_bits@ == out.ebits
    &&& b.alloc.fine_priority@ == out.fp
    &&& b.alloc.intensity == out.intensity
    &&& b.alloc.dual_stereo == out.dual_stereo
    &&& b.alloc.coded_bands == out.coded_bands
    &&& b.alloc.balance == out.balance
}

/// The decoder state after a non-silent frame's header, read from state
/// `s1` after its prefix: the state the allocation leaves.
#[verifier::opaque]
pub open spec fn after_body(b: FrameBody, mode: &Mode, s1: RangeState, p: FramePrefix, lm: int, c: int, len: int) -> RangeState {
    let nb = mode.nb_ebands as int;
    let (qs, s2) = coarse_symbols(s1, 0, nb * c, 0, c, lm, p.intra);
    let (res, s3) = tf_spec(s2, 0, nb, p.transient, lm);
    let caps = caps_of(mode, lm, c);
    let (spread, offs, trim, bits, rsv, s4) = alloc_params_spec(s3, mode.e_bands@, caps, c, lm, nb, p.transient, 8 * len);
    alloc_in(mode, 0, nb as usize, b.params.offsets@, caps, trim as i32, c as i32, lm as i32).allocation(bits, s4).rd
}

fn decode_energy_and_tf(rd: &mut RangeDecoder, nb: usize, c: usize, lm: i32, intra: bool, transient: bool) -> (r: (
    Vec<i32>,
    Vec<i32>,
))
    requires
        old(rd)@.wf(),
        8 * old(rd)@.storage <= 10200,
        old(rd)@.nbits_total <= 600,
        1 <= nb <= 23,
        1 <= c <= 2,
        0 <= lm <= 3,
    ensures
        final(rd)@.wf(),
        final(rd)@.storage == old(rd)@.storage,
        final(rd)@.nbits_total <= 10400,
        ({
            let (qs, s2) = coarse_symbols(old(rd)@, 0, nb * c, 0, c as int, lm as int, intra);
            let (res, s3) = tf_spec(s2, 0, nb as int, transient, lm as int);
            &&& r.0@.map_values(|x: i32| x as int) == qs
            &&& r.1@.len() == nb
            &&& forall|i: int| 0 <= i < nb ==> r.1@[i] as int == res[i]
            &&& final(rd)@ == s3
        }),
{
    let coarse = decode_coarse_symbols(rd, 0, nb, intra, c, lm as usize);
    proof {
        assert(coarse@.map_values(|x: i32| x as int) =~= coarse_symbols(old(rd)@, 0, nb * c, 0, c as int, lm as int,
            intra).0);
    }
    let tf_res = tf_decode(0, nb, transient, lm, rd);
    (coarse, tf_res)
}

#[verifier::rlimit(100)]
fn decode_body(mode: &Mode, rd: &mut RangeDecoder, prefix: FramePrefix, c: usize, lm: i32) -> (b: FrameBody)
    requires
        old(rd)@.wf(),
        8 * old(rd)@.storage <= 10200,
        old(rd)@.nbits_total <= 600,
        mode_ok(mode, lm as int, c as int),
    ensures
        body_matches(b, mode, old(rd)@, prefix, lm as int, c as int, old(rd)@.storage),
        final(rd)@ == after_body(b, mode, old(rd)@, prefix, lm as int, c as int, old(rd)@.storage),
        final(rd)@.wf(),
{
    let ghost s1 = rd@;
    let nb = mode.nb_ebands;
    let (coarse, tf_res) = decode_energy_and_tf(rd, nb, c, lm, prefix.intra, prefix.transient);
    let ghost s3 = rd@;
    let cap = init_caps(mode, lm as usize, c);
    proof {
        assert(cap@ =~= caps_of(mode, lm as int, c as int));
        assert forall|i: int| 0 <= i < nb implies 1 <= #[trigger] width(mode.e_bands@, i) <= 64 && cap@[i] <= 0x10_0000 by {
            assert(1 <= width(mode.e_bands@, i) <= 32);
        }
    }
    let params = decode_alloc_params(rd, mode.e_bands.as_slice(), cap.as_slice(), nb, c as i32, lm, prefix.transient);
    let ghost s4 = rd@;
    proof {
        assert(alloc_in(mode, 0, nb, params.offsets@, cap@, params.trim, c as i32, lm).ok()) by {
            assert forall|j: int| 0 <= j < nb implies 0 <= #[trigger] params.offsets@[j] <= 0x1_0000 && 0 <= cap@[j]
                <= BAND_MAX by {
                assert(0 <= band_cap(mode, lm as int, c as int, j) <= BAND_MAX);
            }
        }
    }
    let alloc = clt_compute_allocation(mode, 0, nb, params.offsets.as_slice(), cap.as_slice(), params.trim, params.bits,
        c as i32, lm, rd);
    let b = FrameBody { coarse, tf_res, params, alloc };
    assert(body_matches(b, mode, s1, prefix, lm as int, c as int, s1.storage)) by {
        reveal(body_matches);
    }
    assert(rd@ == after_body(b, mode, s1, prefix, lm as int, c as int, s1.storage)) by {
        reveal(after_body);
    }
    b
}

/// Decodes the header of a CELT frame from a fresh decoder `rd` on a
/// frame of at most 1275 bytes, leaving `rd` where the fine energy begins
/// (see `decode_frame_header`).
pub fn decode_header_at(rd: &mut RangeDecoder, mode: &Mode, stereo: bool, lm: i32) -> (h: FrameHeader)
    requires
        old(rd)@.wf(),
        old(rd)@.nbits_total == 33,
        old(rd)@.storage <= 1275,
        mode_ok(mode, lm as int, if stereo { 2int } else { 1int }),
    ensures
        ({
            let c = if stereo { 2int } else { 1int };
            let len = old(rd)@.storage;
            let (p, s1) = prefix_spec(old(rd)@, lm as int, 8 * len);
            &&& h.prefix == p
            &&& p.silence ==> h.body is None && final(rd)@ == s1
            &&& !p.silence ==> (h.body matches Some(b) && body_matches(b, mode, s1, p, lm as int, c, len)
                && final(rd)@ == after_body(b, mode, s1, p, lm as int, c, len))
        }),
        final(rd)@.wf(),
{
    let c: usize = if stereo { 2 } else { 1 };
    let ghost s0 = rd@;
    let prefix = decode_frame_prefix(rd, lm);
    assert(rd@.nbits_total <= 600 && rd@.storage == s0.storage && rd@.wf());
    if prefix.silence {
        return FrameHeader { prefix, body: None };
    }
    let body = decode_body(mode, rd, prefix, c, lm);
    FrameHeader { prefix, body: Some(body) }
}

/// Decodes a CELT frame of at most 1275 bytes up to its band shapes, for
/// frame size `lm` and one or two channels.
pub fn decode_frame_header(mode: &Mode, frame: &[u8], stereo: bool, lm: i32) -> (h: FrameHeader)
    requires
        frame@.len() <= 1275,
        mode_ok(mode, lm as int, if stereo { 2int } else { 1int }),
    ensures
        ({
            let c = if stereo { 2int } else { 1int };
            let (p, s1) = prefix_spec(initial(frame@), lm as int, 8 * frame@.len() as int);
            &&& h.prefix == p
            &&& p.silence ==> h.body is None
            &&& !p.silence ==> (h.body matches Some(b) && body_matches(b, mode, s1, p, lm as int, c, frame@.len() as int))
        }),
{
    let mut rd = RangeDecoder::new(frame);
    decode_header_at(&mut rd, mode, stereo, lm)
}

} // verus!
