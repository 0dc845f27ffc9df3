//! One step of the Layer III frame loop: find the next frame (by the
//! previous header, or by a fresh search that resets the stream state),
//! read its side information past the CRC, and rebuild its main data from
//! the bit reservoir; then carry the unread tail of the main data on.
use vstd::prelude::*;
use crate::mp3::bits::Bits;
use crate::mp3::header::{
    HDR_SIZE, compare, find_frame, find_from, frame_bytes, is_crc, padding, spec_compare, spec_find_frame,
    spec_frame_bytes, spec_padding, spec_valid, field,
};
use crate::mp3::sideinfo::{GrInfo, SfbKind, read_side_info, side_info, lemma_side_info_size};
use crate::mp3::header::{channel_mode, mpeg1_bit};
use crate::mp3::{MAX_BITRESERVOIR_BYTES, assemble_main_data, keep_reservoir, spec_main_data, spec_reservoir};

verus! {

/// What the frame loop carries from one frame to the next: the last
/// frame's header (zeros after a resync or a bad frame), the free-format
/// frame size, and the bit reservoir.
pub struct Mp3State {
    pub header: Vec<u8>,
    pub free_format_bytes: usize,
    pub reserv: Vec<u8>,
}

/// The frame loop's state as plain values.
pub struct Mp3StateView {
    pub header: Seq<u8>,
    pub free: int,
    pub reserv: Seq<u8>,
}

impl View for Mp3State {
    type V = Mp3StateView;

    open spec fn view(&self) -> Mp3StateView {
        Mp3StateView { header: self.header@, free: self.free_format_bytes as int, reserv: self.reserv@ }
    }
}

impl Mp3StateView {
    /// A four-byte header and a reservoir within its bound.
    pub open spec fn wf(self) -> bool {
        self.header.len() == 4 && self.reserv.len() <= MAX_BITRESERVOIR_BYTES
    }
}

/// A frame read up to its main data. `usable` is false where the side
/// information was out of range (the frame then plays as silence and
/// `main_data` is empty); `complete` tells that the reservoir held all the
/// bytes the frame reaches back for, so its granules can be decoded from
/// the first `main_len` bytes of `main_data`.
pub struct FrameData {
    pub header: Vec<u8>,
    pub granules: Vec<GrInfo>,
    pub main_data_begin: i32,
    pub usable: bool,
    pub main_data: Vec<u8>,
    pub main_len: usize,
    pub complete: bool,
}

/// A frame as plain values.
pub struct FrameView {
    pub header: Seq<u8>,
    pub granules: Seq<GrInfo>,
    pub main_data_begin: i32,
    pub usable: bool,
    pub main_data: Seq<u8>,
    pub main_len: int,
    pub complete: bool,
}

impl View for FrameData {
    type V = FrameView;

    open spec fn view(&self) -> FrameView {
        FrameView {
            header: self.header@,
            granules: self.granules@,
            main_data_begin: self.main_data_begin,
            usable: self.usable,
            main_data: self.main_data@,
            main_len: self.main_len as int,
            complete: self.complete,
        }
    }
}

/// One step of the frame loop: where the next step starts, the state
/// after this frame, whether the stream was resynchronised (the decoder's
/// other state starts afresh), and the frame, where one was found.
pub struct FrameStep {
    pub pos: usize,
    pub state: Mp3State,
    pub reset: bool,
    pub frame: Option<FrameData>,
}

/// A step as plain values.
pub struct FrameStepView {
    pub pos: int,
    pub state: Mp3StateView,
    pub reset: bool,
    pub frame: Option<FrameView>,
}

impl View for FrameStep {
    type V = FrameStepView;

    open spec fn view(&self) -> FrameStepView {
        FrameStepView {
            pos: self.pos as int,
            state: self.state@,
            reset: self.reset,
            frame: match self.frame {
                Some(f) => Some(f@),
                None => None,
            },
        }
    }
}

/// Side information before it is read: every field zero.
pub open spec fn blank_granule() -> GrInfo {
    GrInfo {
        sfb_kind: SfbKind::Long,
        sfb_rate: 0,
        part_23_length: 0,
        big_values: 0,
        scalefac_compress: 0,
        global_gain: 0,
        block_type: 0,
        mixed_block_flag: 0,
        n_long_sfb: 0,
        n_short_sfb: 0,
        table_select: [0u8, 0u8, 0u8],
        region_count: [0u8, 0u8, 0u8],
        subblock_gain: [0u8, 0u8, 0u8],
        preflag: 0,
        scalefac_scale: 0,
        count1_table: 0,
        scfsi: 0,
    }
}

/// The length of the frame at the start of `m`, found by the previous
/// header: it must match that header, and the frame must fill `m` or be
/// followed by a matching header; 0 where it is not so.
pub open spec fn sync_size(m: Seq<u8>, st: Mp3StateView) -> int {
    let avail = m.len() as int;
    if avail > 4 && st.header[0] == 0xff && spec_compare(st.header, m) {
        let fs = spec_frame_bytes(m, st.free) + spec_padding(m);
        if fs != avail && (fs + HDR_SIZE > avail || !spec_compare(m, m.skip(fs))) {
            0
        } else {
            fs
        }
    } else {
        0
    }
}

/// The frame loop's step on `d` from `pos`: the frame the previous header
/// finds, or else a fresh search (which clears the header, the
/// free-format size and the reservoir). No frame, or one too short to hold
/// anything, gives no frame. Otherwise the side information is read after
/// the header (and the CRC where the header announces one); out of range,
/// the frame is unusable and the header is cleared; else its main data is
/// the reservoir's last `main_data_begin` bytes (as many as it has) and
/// the frame's own.
pub open spec fn frame_data_spec(d: Seq<u8>, pos: int, st: Mp3StateView) -> FrameStepView {
    let m = d.skip(pos);
    let avail = m.len() as int;
    let fs0 = sync_size(m, st);
    let found = spec_find_frame(m, 0);
    let reset = fs0 == 0;
    let i = if reset { found.0 } else { 0 };
    let fs = if reset { found.1 } else { fs0 };
    let st1 = if reset { Mp3StateView { header: Seq::new(4, |k: int| 0u8), free: found.2, reserv: Seq::empty() } } else { st };
    if reset && (fs == 0 || i + fs > avail) {
        FrameStepView { pos: pos + i, state: st1, reset, frame: None }
    } else if fs < HDR_SIZE + 1 {
        FrameStepView { pos: pos + i + fs, state: st1, reset, frame: None }
    } else {
        let fstart = pos + i;
        let h = d.subrange(fstart, fstart + 4);
        let plen = fs - 4;
        let payload = d.subrange(fstart + 4, fstart + fs) + Seq::new(8, |k: int| 0u8);
        let p0 = if field(h, 1, 0, 1) == 0 { 16int } else { 0 };
        let (mdb, grs, p1) = side_info(payload, 8 * plen, p0, h, Seq::new(4, |k: int| blank_granule()));
        let np = fstart + fs;
        if mdb < 0 || p1 > 8 * plen {
            FrameStepView {
                pos: np,
                state: Mp3StateView { header: Seq::new(4, |k: int| 0u8), ..st1 },
                reset,
                frame: Some(FrameView {
                    header: h,
                    granules: grs,
                    main_data_begin: mdb,
                    usable: false,
                    main_data: Seq::empty(),
                    main_len: 0,
                    complete: false,
                }),
            }
        } else {
            let sib = p1 / 8;
            let mb = plen - sib;
            let r = st1.reserv.len() as int;
            let have = if r <= mdb { r } else { mdb as int };
            FrameStepView {
                pos: np,
                state: Mp3StateView { header: h, ..st1 },
                reset,
                frame: Some(FrameView {
                    header: h,
                    granules: grs,
                    main_data_begin: mdb,
                    usable: true,
                    main_data: spec_main_data(st1.reserv, r, payload, sib, mb, mdb as int),
                    main_len: have + mb,
                    complete: r >= mdb,
                }),
            }
        }
    }
}

/// The search never reports a frame past the end of the data.
proof fn lemma_find_from_within(s: Seq<u8>, free: int, i: int)
    requires
        0 <= i,
    ensures
        find_from(s, free, i).0 <= s.len(),
        find_from(s, free, i).1 >= 0 || find_from(s, free, i).0 < s.len(),
    decreases s.len() - i,
{
    if i >= s.len() - HDR_SIZE {
    } else {
        let h = s.skip(i);
        if !spec_valid(h) {
            lemma_find_from_within(s, free, i + 1);
        } else {
            lemma_find_from_within(s, 0, i + 1);
        }
    }
}

fn blank() -> (g: GrInfo)
    ensures
        g == blank_granule(),
{
    GrInfo {
        sfb_kind: SfbKind::Long,
        sfb_rate: 0,
        part_23_length: 0,
        big_values: 0,
        scalefac_compress: 0,
        global_gain: 0,
        block_type: 0,
        mixed_block_flag: 0,
        n_long_sfb: 0,
        n_short_sfb: 0,
        table_select: [0u8, 0u8, 0u8],
        region_count: [0u8, 0u8, 0u8],
        subblock_gain: [0u8, 0u8, 0u8],
        preflag: 0,
        scalefac_scale: 0,
        count1_table: 0,
        scfsi: 0,
    }
}

/// The bytes `d[from .. to]` followed by `extra` zero bytes.
fn copy_padded(d: &[u8], from: usize, to: usize, extra: usize) -> (r: Vec<u8>)
    requires
        from <= to <= d@.len(),
        to - from + extra <= usize::MAX,
    ensures
        r@ == d@.subrange(from as int, to as int) + Seq::new(extra as nat, |k: int| 0u8),
{
    let mut out: Vec<u8> = Vec::new();
    let mut i: usize = from;
    while i < to
        invariant
            from <= i <= to <= d@.len(),
            out@ =~= d@.subrange(from as int, i as int),
        decreases to - i,
    {
        out.push(d[i]);
        i = i + 1;
    }
    let ghost head = out@;
    let mut k: usize = 0;
    while k < extra
        invariant
            k <= extra,
            out@ =~= head + Seq::new(k as nat, |j: int| 0u8),
        decreases extra - k,
    {
        out.push(0);
        k = k + 1;
    }
    out
}

/// The length of the frame at the start of `m` by the previous header
/// (see `sync_size`).
fn frame_by_header(m: &[u8], st: &Mp3State) -> (r: usize)
    requires
        st@.wf(),
        m@.len() <= 0x1000_0000,
    ensures
        r == sync_size(m@, st@),
        r <= m@.len(),
{
    let avail = m.len();
    if avail > 4 && st.header[0] == 0xff && compare(st.header.as_slice(), m) {
        let f = frame_bytes(m, st.free_format_bytes) as u128 + padding(m) as u128;
        if f == avail as u128 {
            return avail;
        }
        if f + 4 <= avail as u128 {
            let fs = f as usize;
            let next = &m[fs..avail];
            proof {
                assert(next@ =~= m@.skip(fs as int));
            }
            if compare(m, next) {
                return fs;
            }
        }
        0
    } else {
        0
    }
}

/// One step of the frame loop on `data` from `pos` (see
/// `frame_data_spec`).
pub fn decode_frame_data(data: &[u8], pos: usize, st: Mp3State) -> (r: FrameStep)
    requires
        pos <= data@.len() <= 0x1000_0000,
        st@.wf(),
    ensures
        r@ == frame_data_spec(data@, pos as int, st@),
        r.state@.wf(),
{
    let avail = data.len() - pos;
    let m = &data[pos..data.len()];
    proof {
        assert(m@ =~= data@.skip(pos as int));
    }
    let mut st = st;
    let mut fs = frame_by_header(m, &st);
    let mut i: usize = 0;
    let reset = fs == 0;
    if reset {
        let mut ff: usize = 0;
        let (off, f) = find_frame(m, &mut ff);
        proof {
            if m@.len() >= HDR_SIZE {
                lemma_find_from_within(m@, 0, 0);
            }
        }
        st = Mp3State { header: vec![0u8; 4], free_format_bytes: ff, reserv: Vec::new() };
        proof {
            assert(st.header@ =~= Seq::new(4, |k: int| 0u8));
        }
        i = off;
        fs = f;
        if fs == 0 || fs > avail - i {
            return FrameStep { pos: pos + i, state: st, reset: true, frame: None };
        }
    }
    if fs < HDR_SIZE + 1 {
        return FrameStep { pos: pos + i + fs, state: st, reset, frame: None };
    }
    let fstart = pos + i;
    let h = copy_padded(data, fstart, fstart + 4, 0);
    proof {
        assert(h@ =~= data@.subrange(fstart as int, fstart + 4));
    }
    let plen = fs - 4;
    let payload = copy_padded(data, fstart + 4, fstart + fs, 8);
    let np = fstart + fs;
    let mut bs = Bits::new(payload.as_slice(), plen);
    if is_crc(h.as_slice()) {
        bs.get_bits(16);
    }
    let mut gr: Vec<GrInfo> = Vec::new();
    let b = blank();
    gr.push(b);
    gr.push(b);
    gr.push(b);
    gr.push(b);
    proof {
        assert(gr@ =~= Seq::new(4, |k: int| blank_granule()));
    }
    let mdb = read_side_info(&mut bs, gr.as_mut_slice(), h.as_slice());
    if mdb < 0 || bs.pos > bs.limit {
        let st2 = Mp3State { header: vec![0u8; 4], ..st };
        proof {
            assert(st2.header@ =~= Seq::new(4, |k: int| 0u8));
        }
        let fr = FrameData {
            header: h,
            granules: gr,
            main_data_begin: mdb,
            usable: false,
            main_data: Vec::new(),
            main_len: 0,
            complete: false,
        };
        return FrameStep { pos: np, state: st2, reset, frame: Some(fr) };
    }
    let sib = bs.pos / 8;
    let mb = plen - sib;
    let r = st.reserv.len();
    let (md, complete) = assemble_main_data(st.reserv.as_slice(), r, payload.as_slice(), sib, mb, mdb as usize);
    let have = if r <= mdb as usize { r } else { mdb as usize };
    let st2 = Mp3State { header: h.clone(), ..st };
    let fr = FrameData {
        header: h,
        granules: gr,
        main_data_begin: mdb,
        usable: true,
        main_data: md,
        main_len: have + mb,
        complete,
    };
    FrameStep { pos: np, state: st2, reset, frame: Some(fr) }
}

/// The state after a frame whose main data was read up to bit `bit_pos`
/// (0 where its granules were not decoded): the unread tail of its main
/// data becomes the reservoir.
pub fn finish_frame(st: Mp3State, frame: &FrameData, bit_pos: usize) -> (r: Mp3State)
    requires
        frame.main_len <= frame.main_data@.len(),
        bit_pos + 7 <= usize::MAX,
    ensures
        r@ == (Mp3StateView { reserv: spec_reservoir(frame.main_data@, frame.main_len as int, bit_pos as int), ..st@ }),
        st@.header.len() == 4 ==> r@.wf(),
{
    let reserv = keep_reservoir(frame.main_data.as_slice(), frame.main_len, bit_pos);
    Mp3State { reserv, ..st }
}

/// The bytes of side information a Layer III header announces: 32 for
/// MPEG-1 stereo, 17 for MPEG-1 mono and MPEG-2 or 2.5 stereo, 9 for MPEG-2
/// or 2.5 mono; two more where a CRC follows the header.
pub open spec fn side_bytes(h: Seq<u8>) -> int {
    let mono = channel_mode(h) == 3;
    (if mpeg1_bit(h) { if mono { 17int } else { 32 } } else { if mono { 9int } else { 17 } }) + if field(h, 1, 0, 1)
        == 0 {
        2int
    } else {
        0
    }
}

/// A usable frame's main data: what the reservoir holds of the bytes it
/// reaches back for, then the rest of the frame after its 4-byte header,
/// its CRC and its side information. A resync empties the reservoir
/// first; a frame found by the previous header starts at `pos`, a resync
/// at the first frame the search finds.
pub proof fn lemma_frame_main_len(d: Seq<u8>, pos: int, st: Mp3StateView)
    requires
        st.wf(),
        0 <= pos <= d.len(),
    ensures
        ({
            let r = frame_data_spec(d, pos, st);
            let fstart = if r.reset { pos + spec_find_frame(d.skip(pos), 0).0 } else { pos };
            &&& r.reset ==> r.state.reserv.len() == 0
            &&& (r.frame is Some && r.frame->Some_0.usable) ==> ({
                let f = r.frame->Some_0;
                let res = r.state.reserv.len() as int;
                let have = if res <= f.main_data_begin { res } else { f.main_data_begin as int };
                &&& r.state.header == f.header
                &&& f.main_len == have + (r.pos - fstart) - 4 - side_bytes(f.header)
            })
            &&& (r.frame is Some && !r.frame->Some_0.usable) ==> r.state.header == Seq::new(4, |k: int| 0u8)
        }),
{
    let m = d.skip(pos);
    let fs0 = sync_size(m, st);
    let found = spec_find_frame(m, 0);
    let reset = fs0 == 0;
    let i = if reset { found.0 } else { 0 };
    let fs = if reset { found.1 } else { fs0 };
    if !(reset && (fs == 0 || i + fs > m.len())) && fs >= HDR_SIZE + 1 {
        let fstart = pos + i;
        let h = d.subrange(fstart, fstart + 4);
        let plen = fs - 4;
        let payload = d.subrange(fstart + 4, fstart + fs) + Seq::new(8, |k: int| 0u8);
        let p0 = if field(h, 1, 0, 1) == 0 { 16int } else { 0 };
        lemma_side_info_size(payload, 8 * plen, p0, h, Seq::new(4, |k: int| blank_granule()));
    }
}

} // verus!
