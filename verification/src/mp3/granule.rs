//! The main data of a frame: for each granule and channel in turn, the
//! scale factors and then the Huffman-coded spectrum, read from the
//! reassembled main data.
use vstd::prelude::*;
use crate::mp3::bits::Bits;
use crate::mp3::huffman::{HuffTables, huffman_spec, read_huffman, tables_ok};
use crate::mp3::requant::{group_start, read_scalefactors, scf_groups};
use crate::mp3::sideinfo::GrInfo;

verus! {

/// How the scale factors of one granule channel are laid out: the bit
/// width and count of each of the four groups, and the share bits (a
/// group whose bit is set reuses the previous granule's values).
pub struct ScfLayout {
    pub size: [u8; 4],
    pub count: Vec<u8>,
    pub scfsi: i32,
}

/// Layouts that fit 40 scale factors and 39 stereo positions.
pub open spec fn layout_fits(l: ScfLayout) -> bool {
    &&& l.count@.len() >= 4
    &&& forall|i: int| 0 <= i < 4 ==> l.size@[i] <= 25
    &&& group_start(l.count@, 4) <= 37
    &&& -0x100_0000 <= l.scfsi <= 0x100_0000
}

/// Side information that the Huffman reader accepts.
pub open spec fn granule_fits(g: GrInfo) -> bool {
    &&& g.big_values <= 288
    &&& g.table_select[0] < 32
    &&& g.table_select[1] < 32
    &&& g.table_select[2] < 32
    &&& g.count1_table <= 1
}

/// What one granule channel holds.
pub struct ChannelData {
    pub scf: Vec<u8>,
    pub is: Vec<i32>,
    pub count: usize,
}

/// One granule channel read from bit `pos`: its scale factors, the stereo
/// positions after it, its spectral values and their count, and the bit
/// position after its part.
pub open spec fn channel_spec(
    buf: Seq<u8>,
    limit: int,
    pos: int,
    g: GrInfo,
    l: ScfLayout,
    sfbtab: Seq<u8>,
    h: HuffTables,
    ist: Seq<u8>,
) -> (Seq<u8>, Seq<u8>, Seq<i32>, int, int) {
    let (scf, ist2, p1) = scf_groups(buf, limit, pos, l.size@, l.count@, l.scfsi as int, 0, 0, Seq::new(40, |i: int| 0u8), ist);
    let (is, r, p2) = huffman_spec(buf, limit, h.dir@, h.tree@, g, sfbtab, pos, p1);
    (scf, ist2, is, r, p2)
}

/// Reads the scale factors and spectral values of one granule channel.
pub fn decode_channel(
    bs: &mut Bits,
    g: &GrInfo,
    l: &ScfLayout,
    sfbtab: &[u8],
    h: &HuffTables,
    ist_pos: &mut Vec<u8>,
) -> (r: ChannelData)
    requires
        old(bs).wf(),
        old(bs).pos <= 0x100_0000,
        layout_fits(*l),
        granule_fits(*g),
        tables_ok(*h),
        old(ist_pos)@.len() == 39,
    ensures
        final(bs).buf@ == old(bs).buf@,
        final(bs).limit == old(bs).limit,
        final(bs).wf(),
        final(ist_pos)@.len() == 39,
        final(bs).pos <= old(bs).pos + 0x2_0000,
        (r.scf@, final(ist_pos)@, r.is@, r.count as int, final(bs).pos as int) == channel_spec(old(bs).buf@,
            old(bs).limit as int, old(bs).pos as int, *g, *l, sfbtab@, *h, old(ist_pos)@),
{
    let part_2_start = bs.pos;
    let mut scf: Vec<u8> = vec![0u8; 40];
    proof {
        assert(scf@ =~= Seq::new(40, |i: int| 0u8));
    }
    read_scalefactors(&mut scf, ist_pos, &l.size, l.count.as_slice(), bs, l.scfsi);
    let mut is: Vec<i32> = vec![0i32; 576];
    let count = read_huffman(bs, g, sfbtab, h, part_2_start, &mut is);
    ChannelData { scf, is, count }
}

/// The granule channels `k .. n` read in turn from bit `pos`, entry `k`
/// being channel `k % channels`, each channel's stereo positions carried
/// on to its next granule: for each, its scale factors, spectral values
/// and their count; and the bit position after them.
pub open spec fn main_data_spec(
    buf: Seq<u8>,
    limit: int,
    pos: int,
    k: int,
    n: int,
    channels: int,
    grs: Seq<GrInfo>,
    ls: Seq<ScfLayout>,
    tabs: Seq<Seq<u8>>,
    h: HuffTables,
    ists: Seq<Seq<u8>>,
) -> (Seq<(Seq<u8>, Seq<i32>, int)>, int)
    decreases n - k,
{
    if k >= n || k < 0 {
        (Seq::empty(), pos)
    } else {
        let ch = k % channels;
        let (scf, ist2, is, r, p2) = channel_spec(buf, limit, pos, grs[k], ls[k], tabs[k], h, ists[ch]);
        let (rest, pf) = main_data_spec(buf, limit, p2, k + 1, n, channels, grs, ls, tabs, h, ists.update(ch, ist2));
        (seq![(scf, is, r)] + rest, pf)
    }
}

/// The contents of decoded granule channels.
pub open spec fn channel_views(v: Seq<ChannelData>) -> Seq<(Seq<u8>, Seq<i32>, int)> {
    v.map_values(|c: ChannelData| (c.scf@, c.is@, c.count as int))
}

/// Reads the scale factors and spectra of all granule channels of a frame
/// (`grs[k]` being channel `k % channels` of granule `k / channels`), the
/// stereo positions starting from zero.
pub fn decode_main_data(
    bs: &mut Bits,
    grs: &[GrInfo],
    layouts: &[ScfLayout],
    sfbtabs: &[Vec<u8>],
    h: &HuffTables,
    channels: usize,
) -> (r: Vec<ChannelData>)
    requires
        old(bs).wf(),
        old(bs).pos <= 0x10_0000,
        1 <= channels <= 2,
        grs@.len() <= 4,
        layouts@.len() == grs@.len(),
        sfbtabs@.len() == grs@.len(),
        forall|k: int| 0 <= k < grs@.len() ==> layout_fits(#[trigger] layouts@[k]),
        forall|k: int| 0 <= k < grs@.len() ==> granule_fits(#[trigger] grs@[k]),
        tables_ok(*h),
    ensures
        final(bs).buf@ == old(bs).buf@,
        final(bs).limit == old(bs).limit,
        ({
            let zeros = Seq::new(39, |i: int| 0u8);
            let (chs, p) = main_data_spec(old(bs).buf@, old(bs).limit as int, old(bs).pos as int, 0, grs@.len() as int,
                channels as int, grs@, layouts@, sfbtabs@.map_values(|t: Vec<u8>| t@), *h, seq![zeros, zeros]);
            &&& channel_views(r@) == chs
            &&& final(bs).pos == p
        }),
{
    let ghost zeros = Seq::new(39, |i: int| 0u8);
    let ghost tabs = sfbtabs@.map_values(|t: Vec<u8>| t@);
    let ghost target = main_data_spec(bs.buf@, bs.limit as int, bs.pos as int, 0, grs@.len() as int, channels as int,
        grs@, layouts@, tabs, *h, seq![zeros, zeros]);
    let ghost buf = bs.buf@;
    let ghost limit = bs.limit as int;
    let mut ist0: Vec<u8> = vec![0u8; 39];
    let mut ist1: Vec<u8> = vec![0u8; 39];
    proof {
        assert(ist0@ =~= zeros);
        assert(ist1@ =~= zeros);
    }
    let mut out: Vec<ChannelData> = Vec::new();
    let n = grs.len();
    let mut k: usize = 0;
    while k < n
        invariant
            k <= n <= 4,
            n == grs@.len(),
            layouts@.len() == n,
            sfbtabs@.len() == n,
            1 <= channels <= 2,
            forall|j: int| 0 <= j < n ==> layout_fits(#[trigger] layouts@[j]),
            forall|j: int| 0 <= j < n ==> granule_fits(#[trigger] grs@[j]),
            tables_ok(*h),
            bs.wf(),
            bs.buf@ == buf,
            bs.limit == limit,
            bs.pos <= 0x10_0000 + k * 0x2_0000,
            ist0@.len() == 39,
            ist1@.len() == 39,
            tabs == sfbtabs@.map_values(|t: Vec<u8>| t@),
            ({
                let (rest, pf) = main_data_spec(buf, limit, bs.pos as int, k as int, n as int, channels as int, grs@,
                    layouts@, tabs, *h, seq![ist0@, ist1@]);
                &&& target.0 == channel_views(out@) + rest
                &&& target.1 == pf
            }),
        decreases n - k,
    {
        let ch = k % channels;
        let ghost before = out@;
        let ghost ists = seq![ist0@, ist1@];
        let ghost pos = bs.pos as int;
        proof {
            assert(tabs[k as int] == sfbtabs@[k as int]@);
        }
        let d = if ch == 0 {
            decode_channel(bs, &grs[k], &layouts[k], sfbtabs[k].as_slice(), h, &mut ist0)
        } else {
            decode_channel(bs, &grs[k], &layouts[k], sfbtabs[k].as_slice(), h, &mut ist1)
        };
        proof {
            let step = channel_spec(buf, limit, pos, grs@[k as int], layouts@[k as int], tabs[k as int], *h, ists[ch as int]);
            assert(seq![ist0@, ist1@] =~= ists.update(ch as int, step.1));
        }
        out.push(d);
        proof {
            let next = main_data_spec(buf, limit, bs.pos as int, k + 1, n as int, channels as int, grs@, layouts@, tabs, *h,
                seq![ist0@, ist1@]);
            assert(channel_views(out@) =~= channel_views(before).push((d.scf@, d.is@, d.count as int)));
            assert(channel_views(before).push((d.scf@, d.is@, d.count as int)) + next.0 =~= channel_views(before) + (
            seq![(d.scf@, d.is@, d.count as int)] + next.0));
        }
        k = k + 1;
    }
    proof {
        assert(channel_views(out@) + Seq::<(Seq<u8>, Seq<i32>, int)>::empty() =~= channel_views(out@));
    }
    out
}

} // verus!
