//! MPEG-4 audio files: the container, the ALAC codec, and the cursor that
//! walks a track's packets.
pub mod alac;
pub mod mp4;

use vstd::prelude::*;
use crate::error::Error;
use crate::flac::bits::POS_CAP;
use crate::m4a::alac::{Alac, packet};
use crate::m4a::mp4::{Codec, Mp4, demux, demux_spec};

verus! {

/// Why an AAC configuration cannot be decoded, if it cannot.
pub open spec fn aac_refusal(cfg: Codec) -> Option<&'static str> {
    match cfg {
        Codec::Alac(_) => None,
        Codec::Aac(c) => if c.audio_object_type != 2 {
            Some("m4a: only AAC-LC (object type 2)")
        } else if c.frame_length != 1024 {
            Some("m4a: only 1024 frame length")
        } else {
            None
        },
    }
}

/// Samples per channel in each packet of the codec.
pub open spec fn codec_frame_length(cfg: Codec) -> u64 {
    match cfg {
        Codec::Alac(c) => c.frame_length as u64,
        Codec::Aac(c) => c.frame_length as u64,
    }
}

/// Resets the codec before packets that do not follow each other; ALAC
/// packets decode independently, so the codec is left as it was.
fn reset_codec(codec: &mut Option<Alac>)
    ensures
        *final(codec) == *old(codec),
    no_unwind
{
    match codec {
        Some(a) => a.reset(),
        None => {},
    }
}

/// An MPEG-4 audio track held in memory, with a cursor over its packets.
/// ALAC packets decode here; AAC packets are handed out as byte ranges.
pub struct M4aDecoder {
    data: Vec<u8>,
    mp4: Mp4,
    alac: Option<Alac>,
    frame_length: u64,
    idx: usize,
    emitted: u64,
}

impl M4aDecoder {
    #[verifier::type_invariant]
    spec fn inv(self) -> bool {
        &&& self.idx <= self.mp4.samples@.len()
        &&& 8 * self.data@.len() <= POS_CAP
        &&& (self.alac is Some <==> self.mp4.codec is Alac)
        &&& (self.mp4.codec matches Codec::Alac(cfg) ==> self.alac matches Some(a)
            && a.spec_frame_length() == cfg.frame_length && a.spec_bit_depth() == cfg.bit_depth
            && a.spec_pb() == cfg.pb && a.spec_mb() == cfg.mb && a.spec_kb() == cfg.kb)
        &&& self.frame_length == codec_frame_length(self.mp4.codec)
    }

    pub closed spec fn spec_data(self) -> Seq<u8> {
        self.data@
    }

    pub closed spec fn spec_codec(self) -> Codec {
        self.mp4.codec
    }

    pub closed spec fn spec_rate(self) -> u32 {
        self.mp4.sample_rate
    }

    pub closed spec fn spec_channels(self) -> usize {
        self.mp4.channels
    }

    pub closed spec fn spec_samples(self) -> Seq<(usize, usize)> {
        self.mp4.samples@
    }

    pub closed spec fn spec_idx(self) -> int {
        self.idx as int
    }

    pub closed spec fn spec_emitted(self) -> u64 {
        self.emitted
    }

    /// Demuxes `data` and sets up the codec; the cursor is at the first
    /// packet.
    pub fn from_bytes(data: Vec<u8>) -> (r: Result<M4aDecoder, Error>)
        requires
            8 * data@.len() <= POS_CAP,
            data@.len() + 0x2000_0000 <= usize::MAX,
        ensures
            match demux_spec(data@) {
                Err(m) => r matches Err(Error::Decode(e)) && e@ == m@,
                Ok((codec, rate, chans, samples)) => match aac_refusal(codec) {
                    Some(m) => r matches Err(Error::Unsupported(e)) && e@ == m@,
                    None => r matches Ok(d) && d.spec_data() == data@ && d.spec_codec() == codec
                        && d.spec_rate() == rate && d.spec_channels() == chans && d.spec_samples() == samples
                        && d.spec_idx() == 0 && d.spec_emitted() == 0,
                },
            },
    {
        let mp4 = match demux(data.as_slice()) {
            Ok(m) => m,
            Err(e) => {
                return Err(e);
            },
        };
        let (alac, frame_length) = match mp4.codec {
            Codec::Alac(cfg) => (Some(Alac::new(&cfg)), cfg.frame_length as u64),
            Codec::Aac(cfg) => {
                if cfg.audio_object_type != 2 {
                    return Err(Error::Unsupported("m4a: only AAC-LC (object type 2)"));
                }
                if cfg.frame_length != 1024 {
                    return Err(Error::Unsupported("m4a: only 1024 frame length"));
                }
                (None, cfg.frame_length as u64)
            },
        };
        Ok(M4aDecoder { data, mp4, alac, frame_length, idx: 0, emitted: 0 })
    }

    /// The track's sample rate.
    pub fn sample_rate(&self) -> (r: u32)
        ensures
            r == self.spec_rate(),
    {
        self.mp4.sample_rate
    }

    /// The track's channel count.
    pub fn channels(&self) -> (r: usize)
        ensures
            r == self.spec_channels(),
    {
        self.mp4.channels
    }

    /// Samples per channel in the whole track: packets times the packet
    /// length, saturating.
    pub fn duration_frames(&self) -> (r: u64)
        ensures
            r == if self.spec_samples().len() * codec_frame_length(self.spec_codec()) > u64::MAX {
                u64::MAX as int
            } else {
                self.spec_samples().len() * codec_frame_length(self.spec_codec())
            },
    {
        proof {
            use_type_invariant(self);
        }
        match (self.mp4.samples.len() as u64).checked_mul(self.frame_length) {
            Some(v) => v,
            None => u64::MAX,
        }
    }

    /// Samples per channel handed out since the start or the last seek.
    pub fn pos_frames(&self) -> (r: u64)
        ensures
            r == self.spec_emitted(),
    {
        self.emitted
    }

    /// Moves to the next packet and returns its byte range; `None` past the
    /// last packet, or, moving past it, for a packet that overruns the data.
    pub fn next_packet(&mut self) -> (r: Option<(usize, usize)>)
        ensures
            final(self).spec_data() == old(self).spec_data(),
            final(self).spec_codec() == old(self).spec_codec(),
            final(self).spec_rate() == old(self).spec_rate(),
            final(self).spec_channels() == old(self).spec_channels(),
            final(self).spec_samples() == old(self).spec_samples(),
            final(self).spec_emitted() == old(self).spec_emitted(),
            old(self).spec_idx() >= old(self).spec_samples().len() ==> r is None
                && final(self).spec_idx() == old(self).spec_idx(),
            old(self).spec_idx() < old(self).spec_samples().len() ==> ({
                let (off, len) = old(self).spec_samples()[old(self).spec_idx()];
                &&& final(self).spec_idx() == old(self).spec_idx() + 1
                &&& r == if off + len > old(self).spec_data().len() { None } else { Some((off, len)) }
            }),
    {
        proof {
            use_type_invariant(&*self);
        }
        if self.idx >= self.mp4.samples.len() {
            return None;
        }
        let (off, len) = self.mp4.samples[self.idx];
        self.idx = self.idx + 1;
        if off > self.data.len() || len > self.data.len() - off {
            return None;
        }
        Some((off, len))
    }

    /// Decodes the ALAC packet at `off .. off + len` of the data into
    /// interleaved samples; `None` for an AAC track.
    pub fn decode_alac(&self, off: usize, len: usize) -> (r: Option<Vec<i32>>)
        requires
            off + len <= self.spec_data().len(),
        ensures
            match self.spec_codec() {
                Codec::Aac(_) => r is None,
                Codec::Alac(cfg) => r matches Some(v) && v@ == match packet(
                    self.spec_data().subrange(off as int, off + len),
                    cfg.frame_length,
                    cfg.bit_depth as u32,
                    cfg.pb as u32,
                    cfg.mb as u32,
                    cfg.kb as int,
                ) {
                    Some(s) => s,
                    None => Seq::empty(),
                },
            },
    {
        proof {
            use_type_invariant(self);
        }
        match &self.alac {
            Some(a) => {
                let dl = self.data.len();
                assert(off + len <= dl);
                let pkt = vstd::slice::slice_subrange(self.data.as_slice(), off, off + len);
                Some(a.decode_packet(pkt))
            },
            None => None,
        }
    }

    /// Counts `n` interleaved output samples as handed out.
    pub fn count_output(&mut self, n: usize)
        requires
            old(self).spec_emitted() + n <= u64::MAX,
        ensures
            final(self).spec_data() == old(self).spec_data(),
            final(self).spec_codec() == old(self).spec_codec(),
            final(self).spec_rate() == old(self).spec_rate(),
            final(self).spec_channels() == old(self).spec_channels(),
            final(self).spec_samples() == old(self).spec_samples(),
            final(self).spec_idx() == old(self).spec_idx(),
            final(self).spec_emitted() == old(self).spec_emitted()
                + (n as int) / (if old(self).spec_channels() > 1 { old(self).spec_channels() as int } else { 1int }),
    {
        proof {
            use_type_invariant(&*self);
        }
        let ch = if self.mp4.channels > 1 { self.mp4.channels } else { 1 };
        self.emitted = self.emitted + (n / ch) as u64;
    }

    /// Moves the cursor to the packet holding sample `frame` of each
    /// channel (the end where that is past it); packets decode
    /// independently, so the position is exact at packet starts.
    pub fn seek(&mut self, frame: u64)
        ensures
            final(self).spec_data() == old(self).spec_data(),
            final(self).spec_codec() == old(self).spec_codec(),
            final(self).spec_rate() == old(self).spec_rate(),
            final(self).spec_channels() == old(self).spec_channels(),
            final(self).spec_samples() == old(self).spec_samples(),
            ({
                let fl = codec_frame_length(old(self).spec_codec());
                let fl1: int = if fl > 1 { fl as int } else { 1 };
                let q = (frame as int) / fl1;
                let idx = if q < old(self).spec_samples().len() { q } else { old(self).spec_samples().len() as int };
                &&& final(self).spec_idx() == idx
                &&& final(self).spec_emitted() == idx * fl1
            }),
    {
        proof {
            use_type_invariant(&*self);
        }
        let fl = if self.frame_length > 1 { self.frame_length } else { 1 };
        let q = frame / fl;
        let n = self.mp4.samples.len();
        let idx = if q < n as u64 { q as usize } else { n };
        proof {
            assert(idx * fl <= frame) by (nonlinear_arith)
                requires idx <= q, q == frame / fl, fl >= 1;
        }
        self.idx = idx;
        self.emitted = idx as u64 * fl;
        reset_codec(&mut self.alac);
    }
}

} // verus!
