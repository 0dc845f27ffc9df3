//! Layer III side information: the main data offset and, per granule and
//! channel, the fields that steer scale factors, Huffman decoding and
//! the inverse transform.
use vstd::prelude::*;
use crate::mp3::bits::{Bits, bits_value, lemma_bits_bound, lemma_bits_concat};
use crate::mp3::header::{get_my_sample_rate, is_mono, test_mpeg1, channel_mode, mpeg1_bit, rate_index, field};

verus! {

pub const SHORT_BLOCK_TYPE: u8 = 2;
pub const STOP_BLOCK_TYPE: u8 = 3;

/// Which scale factor band table a granule uses; with the rate index it
/// picks the table.
#[derive(Clone, Copy, Debug, PartialEq, Eq, Structural, Default)]
pub enum SfbKind {
    #[default]
    Long,
    Short,
    Mixed,
}

/// The side information of one granule of one channel.
#[derive(Clone, Copy, Debug, Default)]
pub struct GrInfo {
    pub sfb_kind: SfbKind,
    pub sfb_rate: u8,
    pub part_23_length: u16,
    pub big_values: u16,
    pub scalefac_compress: u16,
    pub global_gain: u8,
    pub block_type: u8,
    pub mixed_block_flag: u8,
    pub n_long_sfb: u8,
    pub n_short_sfb: u8,
    pub table_select: [u8; 3],
    pub region_count: [u8; 3],
    pub subblock_gain: [u8; 3],
    pub preflag: u8,
    pub scalefac_scale: u8,
    pub count1_table: u8,
    pub scfsi: u8,
}

/// `n` bits at `pos`, or 0 where they run past `limit`.
pub open spec fn gbits(buf: Seq<u8>, limit: int, pos: int, n: nat) -> nat {
    if pos + n > limit {
        0
    } else {
        bits_value(buf, pos, n)
    }
}

/// The fields of one granule read from `pos`: whether they are usable, the
/// granule as far as it was read, the position after it and the shifted
/// scale factor selection bits.
#[verifier::opaque]
pub open spec fn granule(
    buf: Seq<u8>,
    limit: int,
    pos: int,
    mono: bool,
    mpeg1: bool,
    sr: u8,
    scfsi0: u32,
    g: GrInfo,
) -> (bool, GrInfo, int, u32) {
    let scfsi1 = if mono { scfsi0 << 4u32 } else { scfsi0 };
    let (ok, g2, p4) = granule_head(buf, limit, pos, mpeg1, sr, g);
    if !ok {
        (false, g2, p4, scfsi1)
    } else {
        let (ok2, g3, p5, scfsi2, tables) = granule_blocks(buf, limit, p4, mpeg1, scfsi1, g2);
        if !ok2 {
            (false, g3, p5, scfsi2)
        } else {
            granule_tail(buf, limit, p5, mpeg1, scfsi2, tables, g3)
        }
    }
}

/// Part 2/3 length, big values (at most 288), global gain and scale factor
/// compression; the long-block band table.
pub open spec fn granule_head(buf: Seq<u8>, limit: int, pos: int, mpeg1: bool, sr: u8, g: GrInfo) -> (bool, GrInfo, int) {
    let p23 = gbits(buf, limit, pos, 12);
    let bv = gbits(buf, limit, pos + 12, 9);
    let g1 = GrInfo { part_23_length: p23 as u16, big_values: bv as u16, ..g };
    if bv > 288 {
        (false, g1, pos + 21)
    } else {
        let gg = gbits(buf, limit, pos + 21, 8);
        let scw: nat = if mpeg1 { 4 } else { 9 };
        let sc = gbits(buf, limit, pos + 29, scw);
        (true, GrInfo {
            global_gain: gg as u8,
            scalefac_compress: sc as u16,
            sfb_kind: SfbKind::Long,
            sfb_rate: sr,
            n_long_sfb: 22,
            n_short_sfb: 0,
            ..g1
        }, pos + 29 + scw)
    }
}

/// The window switching flag and what it governs: block type (not 0),
/// mixed flag, band tables, two table selections and subblock gains; or
/// three table selections and two region counts. The packed table
/// selections come back as one number.
pub open spec fn granule_blocks(buf: Seq<u8>, limit: int, p4: int, mpeg1: bool, scfsi1: u32, g2: GrInfo) -> (bool, GrInfo, int, u32, nat) {
    let flag = gbits(buf, limit, p4, 1);
    if flag != 0 {
        let bt = gbits(buf, limit, p4 + 1, 2);
        let g3 = GrInfo { block_type: bt as u8, ..g2 };
        if bt == 0 {
            (false, g3, p4 + 3, scfsi1, 0)
        } else {
            let mbf = gbits(buf, limit, p4 + 3, 1);
            let g4 = GrInfo { mixed_block_flag: mbf as u8, region_count: [7, 255, g3.region_count[2]], ..g3 };
            let (g5, scfsi2) = if bt == 2 {
                if mbf == 0 {
                    (
                        GrInfo {
                            region_count: [8, 255, g3.region_count[2]],
                            sfb_kind: SfbKind::Short,
                            n_long_sfb: 0,
                            n_short_sfb: 39,
                            ..g4
                        },
                        scfsi1 & 0x0F0F,
                    )
                } else {
                    (
                        GrInfo { sfb_kind: SfbKind::Mixed, n_long_sfb: if mpeg1 { 8 } else { 6 }, n_short_sfb: 30, ..g4 },
                        scfsi1 & 0x0F0F,
                    )
                }
            } else {
                (g4, scfsi1)
            };
            let tables = gbits(buf, limit, p4 + 4, 10) * 32;
            let g6 = GrInfo {
                subblock_gain: [
                    gbits(buf, limit, p4 + 14, 3) as u8,
                    gbits(buf, limit, p4 + 17, 3) as u8,
                    gbits(buf, limit, p4 + 20, 3) as u8,
                ],
                ..g5
            };
            (true, g6, p4 + 23, scfsi2, tables)
        }
    } else {
        let g3 = GrInfo { block_type: 0, mixed_block_flag: 0, ..g2 };
        let tables = gbits(buf, limit, p4 + 1, 15);
        let g4 = GrInfo {
            region_count: [gbits(buf, limit, p4 + 16, 4) as u8, gbits(buf, limit, p4 + 20, 3) as u8, 255],
            ..g3
        };
        (true, g4, p4 + 23, scfsi1, tables)
    }
}

/// The table selection, flags and scale factor selection closing a granule.
pub open spec fn granule_tail(
    buf: Seq<u8>,
    limit: int,
    pos: int,
    mpeg1: bool,
    scfsi: u32,
    tables: nat,
    g: GrInfo,
) -> (bool, GrInfo, int, u32) {
    let p1 = if mpeg1 { pos + 1 } else { pos };
    let pre = if mpeg1 { gbits(buf, limit, pos, 1) } else if g.scalefac_compress >= 500 { 1 } else { 0 };
    let g2 = GrInfo {
        table_select: [(tables / 1024) as u8, (tables / 32 % 32) as u8, (tables % 32) as u8],
        preflag: pre as u8,
        scalefac_scale: gbits(buf, limit, p1, 1) as u8,
        count1_table: gbits(buf, limit, p1 + 1, 1) as u8,
        scfsi: ((scfsi >> 12u32) & 15) as u8,
        ..g
    };
    (true, g2, p1 + 2, scfsi << 4u32)
}

/// The granules from index `i` to `count`: whether all were usable, the
/// granules, the position after them and the sum of their part 2/3 lengths.
pub open spec fn granules(
    buf: Seq<u8>,
    limit: int,
    pos: int,
    mono: bool,
    mpeg1: bool,
    sr: u8,
    scfsi: u32,
    grs: Seq<GrInfo>,
    i: nat,
    count: nat,
    sum: int,
) -> (bool, Seq<GrInfo>, int, int)
    decreases count - i,
{
    if i >= count || i >= grs.len() {
        (true, grs, pos, sum)
    } else {
        let (ok, g, p, s2) = granule(buf, limit, pos, mono, mpeg1, sr, scfsi, grs[i as int]);
        let grs2 = grs.update(i as int, g);
        if !ok {
            (false, grs2, p, sum)
        } else {
            granules(buf, limit, p, mono, mpeg1, sr, s2, grs2, i + 1, count, sum + g.part_23_length)
        }
    }
}

/// The main data offset: 9 bits in MPEG-1, else 8 bits followed by one
/// private bit per granule.
pub open spec fn main_data_begin(buf: Seq<u8>, limit: int, pos: int, mpeg1: bool, count: nat) -> nat {
    if mpeg1 {
        gbits(buf, limit, pos, 9)
    } else {
        gbits(buf, limit, pos, 8 + count) / vstd::arithmetic::power2::pow2(count)
    }
}

/// The side information at `pos` for the frame header `hdr`: the main data
/// offset, or -1 where a field is out of range or the granules would need
/// more bits than the reservoir and the frame hold; the granules and the
/// position after the side information.
pub open spec fn side_info(buf: Seq<u8>, limit: int, pos: int, hdr: Seq<u8>, grs: Seq<GrInfo>) -> (i32, Seq<GrInfo>, int) {
    let mono = channel_mode(hdr) == 3;
    let mpeg1 = mpeg1_bit(hdr);
    let sr0 = rate_index(hdr) + (field(hdr, 1, 3, 1) + field(hdr, 1, 4, 1)) * 3;
    let sr = if sr0 != 0 { sr0 - 1 } else { 0 };
    let count: nat = if mono { if mpeg1 { 2 } else { 1 } } else { if mpeg1 { 4 } else { 2 } };
    let mdb = main_data_begin(buf, limit, pos, mpeg1, count);
    let (scfsi, p1) = if mpeg1 {
        (gbits(buf, limit, pos + 9, 7 + count) as u32, pos + 16 + count)
    } else {
        (0u32, pos + 8 + count)
    };
    let (ok, grs2, p2, sum) = granules(buf, limit, p1, mono, mpeg1, sr as u8, scfsi, grs, 0, count, 0);
    if !ok {
        (-1i32, grs2, p2)
    } else if sum + (p2 as usize as i32) > (limit as usize as i32) + mdb * 8 {
        (-1i32, grs2, p2)
    } else {
        (mdb as i32, grs2, p2)
    }
}

/// Reads `n` bits; zero past the limit.
fn gb(bs: &mut Bits, n: u32) -> (r: u32)
    requires
        old(bs).wf(),
        1 <= n <= 25,
        old(bs).pos + n <= usize::MAX,
    ensures
        final(bs).buf@ == old(bs).buf@,
        final(bs).limit == old(bs).limit,
        final(bs).pos == old(bs).pos + n,
        final(bs).wf(),
        r == gbits(old(bs).buf@, old(bs).limit as int, old(bs).pos as int, n as nat),
        (r as nat) < vstd::arithmetic::power2::pow2(n as nat),
{
    proof {
        lemma_bits_bound(bs.buf@, bs.pos as int, n as nat);
        vstd::arithmetic::power2::lemma_pow2_pos(n as nat);
    }
    bs.get_bits(n)
}

fn read_head(bs: &mut Bits, g: GrInfo, mpeg1: bool, sr: u8) -> (r: (bool, GrInfo))
    requires
        old(bs).wf(),
        old(bs).pos + 100 <= usize::MAX,
    ensures
        old(bs).pos <= final(bs).pos,
        final(bs).buf@ == old(bs).buf@,
        final(bs).limit == old(bs).limit,
        final(bs).wf(),
        (r.0, r.1, final(bs).pos as int) == granule_head(old(bs).buf@, old(bs).limit as int, old(bs).pos as int, mpeg1, sr, g),
        final(bs).pos <= old(bs).pos + 38,
        r.1.part_23_length < 4096,
{
    proof {
        vstd::arithmetic::power2::lemma2_to64();
    }
    let p23 = gb(bs, 12) as u16;
    let bv = gb(bs, 9) as u16;
    let g1 = GrInfo { part_23_length: p23, big_values: bv, ..g };
    if bv > 288 {
        return (false, g1);
    }
    let gg = gb(bs, 8) as u8;
    let sc = gb(bs, if mpeg1 { 4 } else { 9 }) as u16;
    (true, GrInfo { global_gain: gg, scalefac_compress: sc, sfb_kind: SfbKind::Long, sfb_rate: sr, n_long_sfb: 22, n_short_sfb: 0, ..g1 })
}

fn read_blocks(bs: &mut Bits, g2: GrInfo, mpeg1: bool, scfsi1: u32) -> (r: (bool, GrInfo, u32, u32))
    requires
        old(bs).wf(),
        old(bs).pos + 100 <= usize::MAX,
    ensures
        old(bs).pos <= final(bs).pos,
        final(bs).buf@ == old(bs).buf@,
        final(bs).limit == old(bs).limit,
        final(bs).wf(),
        r.3 < 0x8000,
        final(bs).pos <= old(bs).pos + 23,
        r.1.part_23_length == g2.part_23_length,
        (r.0, r.1, final(bs).pos as int, r.2, r.3 as nat) == granule_blocks(
            old(bs).buf@,
            old(bs).limit as int,
            old(bs).pos as int,
            mpeg1,
            scfsi1,
            g2,
        ),
{
    proof {
        vstd::arithmetic::power2::lemma2_to64();
    }
    if gb(bs, 1) != 0 {
        let bt = gb(bs, 2) as u8;
        let g3 = GrInfo { block_type: bt, ..g2 };
        if bt == 0 {
            return (false, g3, scfsi1, 0);
        }
        let mbf = gb(bs, 1) as u8;
        let g4 = GrInfo { mixed_block_flag: mbf, region_count: [7, 255, g3.region_count[2]], ..g3 };
        let (g5, scfsi2) = if bt == SHORT_BLOCK_TYPE {
            if mbf == 0 {
                (
                    GrInfo { region_count: [8, 255, g3.region_count[2]], sfb_kind: SfbKind::Short, n_long_sfb: 0, n_short_sfb: 39, ..g4 },
                    scfsi1 & 0x0F0F,
                )
            } else {
                (GrInfo { sfb_kind: SfbKind::Mixed, n_long_sfb: if mpeg1 { 8 } else { 6 }, n_short_sfb: 30, ..g4 }, scfsi1 & 0x0F0F)
            }
        } else {
            (g4, scfsi1)
        };
        let tables = gb(bs, 10) * 32;
        let s0 = gb(bs, 3) as u8;
        let s1 = gb(bs, 3) as u8;
        let s2 = gb(bs, 3) as u8;
        (true, GrInfo { subblock_gain: [s0, s1, s2], ..g5 }, scfsi2, tables)
    } else {
        let g3 = GrInfo { block_type: 0, mixed_block_flag: 0, ..g2 };
        let tables = gb(bs, 15);
        let r0 = gb(bs, 4) as u8;
        let r1 = gb(bs, 3) as u8;
        (true, GrInfo { region_count: [r0, r1, 255], ..g3 }, scfsi1, tables)
    }
}

fn read_tail(bs: &mut Bits, g: GrInfo, mpeg1: bool, scfsi: u32, tables: u32) -> (r: (GrInfo, u32))
    requires
        old(bs).wf(),
        old(bs).pos + 100 <= usize::MAX,
        tables < 0x8000,
    ensures
        old(bs).pos <= final(bs).pos,
        final(bs).pos <= old(bs).pos + 3,
        r.0.part_23_length == g.part_23_length,
        final(bs).buf@ == old(bs).buf@,
        final(bs).limit == old(bs).limit,
        final(bs).wf(),
        (true, r.0, final(bs).pos as int, r.1) == granule_tail(
            old(bs).buf@,
            old(bs).limit as int,
            old(bs).pos as int,
            mpeg1,
            scfsi,
            tables as nat,
            g,
        ),
{
    proof {
        vstd::arithmetic::power2::lemma2_to64();
    }
    let pre: u8 = if mpeg1 {
        gb(bs, 1) as u8
    } else if g.scalefac_compress >= 500 {
        1
    } else {
        0
    };
    let sfs = gb(bs, 1) as u8;
    let c1 = gb(bs, 1) as u8;
    (
        GrInfo {
            table_select: [(tables / 1024) as u8, (tables / 32 % 32) as u8, (tables % 32) as u8],
            preflag: pre,
            scalefac_scale: sfs,
            count1_table: c1,
            scfsi: ((scfsi >> 12u32) & 15) as u8,
            ..g
        },
        scfsi << 4u32,
    )
}

/// Reads the fields of one granule.
fn read_granule(bs: &mut Bits, g: GrInfo, mono: bool, mpeg1: bool, sr: u8, scfsi: u32) -> (r: (bool, GrInfo, u32))
    requires
        old(bs).wf(),
        old(bs).pos + 200 <= usize::MAX,
    ensures
        old(bs).pos <= final(bs).pos,
        final(bs).buf@ == old(bs).buf@,
        final(bs).limit == old(bs).limit,
        final(bs).wf(),
        final(bs).pos <= old(bs).pos + 64,
        r.1.part_23_length < 4096,
        (r.0, r.1, final(bs).pos as int, r.2) == granule(
            old(bs).buf@,
            old(bs).limit as int,
            old(bs).pos as int,
            mono,
            mpeg1,
            sr,
            scfsi,
            g,
        ),
{
    reveal(granule);
    let scfsi1 = if mono { scfsi << 4u32 } else { scfsi };
    let (ok, g2) = read_head(bs, g, mpeg1, sr);
    if !ok {
        return (false, g2, scfsi1);
    }
    let (ok2, g3, scfsi2, tables) = read_blocks(bs, g2, mpeg1, scfsi1);
    if !ok2 {
        return (false, g3, scfsi2);
    }
    let (g4, s4) = read_tail(bs, g3, mpeg1, scfsi2, tables);
    (true, g4, s4)
}

/// Reads the side information of a Layer III frame with header `hdr` into
/// `gr`: the main data offset, or -1 where a field is out of range or the
/// granules need more bits than the reservoir and the frame hold.
#[verifier::rlimit(30)]
pub fn read_side_info(bs: &mut Bits, gr: &mut [GrInfo], hdr: &[u8]) -> (r: i32)
    requires
        old(bs).wf(),
        old(bs).pos + 1000 <= usize::MAX,
        hdr@.len() >= 4,
    ensures
        final(bs).buf@ == old(bs).buf@,
        final(bs).limit == old(bs).limit,
        final(bs).wf(),
        (r, final(gr)@, final(bs).pos as int) == side_info(
            old(bs).buf@,
            old(bs).limit as int,
            old(bs).pos as int,
            hdr@,
            old(gr)@,
        ),
{
    let ghost buf = bs.buf@;
    let ghost limit = bs.limit as int;
    let mut sr_idx = get_my_sample_rate(hdr);
    if sr_idx != 0 {
        sr_idx = sr_idx - 1;
    }
    let mono = is_mono(hdr);
    let mpeg1 = test_mpeg1(hdr);
    let count: usize = if mono { if mpeg1 { 2 } else { 1 } } else { if mpeg1 { 4 } else { 2 } };
    let mdb: i32;
    let mut scfsi: u32 = 0;
    if mpeg1 {
        proof {
            vstd::arithmetic::power2::lemma2_to64();
        }
        mdb = gb(bs, 9) as i32;
        scfsi = gb(bs, 7 + count as u32);
    } else {
        let v = gb(bs, 8 + count as u32);
        proof {
            vstd::arithmetic::power2::lemma2_to64();
            vstd::bits::lemma_u32_shr_is_div(v, count as u32);
        }
        mdb = (v >> count as u32) as i32;
        proof {
            assert(v >> count as u32 == v as nat / vstd::arithmetic::power2::pow2(count as nat));
            assert(v as nat == gbits(old(bs).buf@, old(bs).limit as int, old(bs).pos as int, (8 + count) as nat));
            assert(mdb == main_data_begin(old(bs).buf@, old(bs).limit as int, old(bs).pos as int, mpeg1, count as nat));
        }
    }
    let ghost p1 = bs.pos as int;
    let ghost g0 = gr@;
    let ghost scfsi0 = scfsi;
    let ghost want = granules(buf, limit, p1, mono, mpeg1, sr_idx as u8, scfsi0, g0, 0, count as nat, 0);
    let mut sum: i64 = 0;
    let mut i: usize = 0;
    let mut ok = true;
    loop
        invariant_except_break
            want == granules(buf, limit, bs.pos as int, mono, mpeg1, sr_idx as u8, scfsi, gr@, i as nat, count as nat, sum as int),
            bs.pos <= p1 + 64 * i,
            ok,
        invariant
            bs.buf@ == buf,
            bs.limit == limit,
            bs.wf(),
            i <= count <= 4,
            p1 <= bs.pos <= p1 + 320,
            p1 <= old(bs).pos + 30,
            old(bs).pos + 1000 <= usize::MAX,
            0 <= sum <= 0x1000 * i,
            mdb == main_data_begin(buf, limit, old(bs).pos as int, mpeg1, count as nat),
        ensures
            ok ==> want == (true, gr@, bs.pos as int, sum as int),
            !ok ==> want.0 == false && want.1 == gr@ && want.2 == bs.pos,
            0 <= sum <= 0x4000,
        decreases count - i,
    {
        if i >= count || i >= gr.len() {
            break;
        }
        let (good, g, s2) = read_granule(bs, gr[i], mono, mpeg1, sr_idx as u8, scfsi);
        gr[i] = g;
        if !good {
            ok = false;
            break;
        }
        scfsi = s2;
        sum = sum + g.part_23_length as i64;
        i = i + 1;
    }
    if !ok {
        return -1;
    }
    let pos_i = bs.pos as i32;
    let lim_i = bs.limit as i32;
    if sum + pos_i as i64 > lim_i as i64 + mdb as i64 * 8 {
        return -1;
    }
    mdb
}

/// One usable granule's side information is 59 bits in MPEG-1 and 63 in
/// MPEG-2 and 2.5.
proof fn lemma_granule_bits(buf: Seq<u8>, limit: int, pos: int, mono: bool, mpeg1: bool, sr: u8, scfsi0: u32, g: GrInfo)
    ensures
        granule(buf, limit, pos, mono, mpeg1, sr, scfsi0, g).0 ==> granule(buf, limit, pos, mono, mpeg1, sr, scfsi0,
            g).2 == pos + if mpeg1 { 59int } else { 63int },
{
    reveal(granule);
}

proof fn lemma_granules_bits(
    buf: Seq<u8>,
    limit: int,
    pos: int,
    mono: bool,
    mpeg1: bool,
    sr: u8,
    scfsi: u32,
    grs: Seq<GrInfo>,
    i: nat,
    count: nat,
    sum: int,
)
    requires
        count <= grs.len(),
        i <= count,
    ensures
        granules(buf, limit, pos, mono, mpeg1, sr, scfsi, grs, i, count, sum).0 ==> granules(buf, limit, pos, mono,
            mpeg1, sr, scfsi, grs, i, count, sum).2 == pos + (count - i) * if mpeg1 { 59int } else { 63int },
    decreases count - i,
{
    if i < count {
        let (ok, g, p, s2) = granule(buf, limit, pos, mono, mpeg1, sr, scfsi, grs[i as int]);
        lemma_granule_bits(buf, limit, pos, mono, mpeg1, sr, scfsi, grs[i as int]);
        let grs2 = grs.update(i as int, g);
        if ok {
            lemma_granules_bits(buf, limit, p, mono, mpeg1, sr, s2, grs2, i + 1, count, sum + g.part_23_length);
            assert((count - i) * (if mpeg1 { 59int } else { 63int }) == (if mpeg1 { 59int } else { 63int }) + (count
                - (i + 1)) * (if mpeg1 { 59int } else { 63int })) by (nonlinear_arith);
        }
    }
}

/// Usable side information spans 32 bytes for MPEG-1 stereo, 17 for
/// MPEG-1 mono and for MPEG-2 or 2.5 stereo, and 9 for MPEG-2 or 2.5 mono;
/// and its main data offset is its first 9 bits in MPEG-1, its first 8
/// otherwise.
pub proof fn lemma_side_info_size(buf: Seq<u8>, limit: int, pos: int, hdr: Seq<u8>, grs: Seq<GrInfo>)
    requires
        grs.len() == 4,
    ensures
        ({
            let (mdb, _g, p) = side_info(buf, limit, pos, hdr, grs);
            let mono = channel_mode(hdr) == 3;
            let mpeg1 = mpeg1_bit(hdr);
            &&& mdb >= 0 ==> p == pos + 8 * if mpeg1 { if mono { 17int } else { 32 } } else { if mono { 9int } else { 17 } }
            &&& (mdb >= 0 && mpeg1) ==> mdb == gbits(buf, limit, pos, 9)
            &&& (mdb >= 0 && !mpeg1 && pos + 10 <= limit) ==> mdb == gbits(buf, limit, pos, 8)
        }),
{
    let mono = channel_mode(hdr) == 3;
    let mpeg1 = mpeg1_bit(hdr);
    let count: nat = if mono { if mpeg1 { 2 } else { 1 } } else { if mpeg1 { 4 } else { 2 } };
    let p1 = if mpeg1 { pos + 16 + count } else { pos + 8 + count };
    let sr0 = rate_index(hdr) + (field(hdr, 1, 3, 1) + field(hdr, 1, 4, 1)) * 3;
    let sr = if sr0 != 0 { sr0 - 1 } else { 0 };
    let scfsi = if mpeg1 { gbits(buf, limit, pos + 9, 7 + count) as u32 } else { 0u32 };
    lemma_granules_bits(buf, limit, p1, mono, mpeg1, sr as u8, scfsi, grs, 0, count, 0);
    lemma_bits_bound(buf, pos, 9);
    lemma_bits_bound(buf, pos, (8 + count) as nat);
    vstd::arithmetic::power2::lemma2_to64();
    assert(count * (if mpeg1 { 59int } else { 63int }) == if mpeg1 { if mono { 118int } else { 236 } } else { if mono {
        63int } else { 126 } });
    if !mpeg1 && pos + 8 + count <= limit {
        lemma_bits_concat(buf, pos, 8, count);
        vstd::arithmetic::power2::lemma_pow2_pos(count);
        lemma_bits_bound(buf, pos + 8, count);
        vstd::arithmetic::div_mod::lemma_fundamental_div_mod_converse(
            bits_value(buf, pos, (8 + count) as nat) as int,
            vstd::arithmetic::power2::pow2(count) as int,
            bits_value(buf, pos, 8) as int,
            bits_value(buf, pos + 8, count) as int,
        );
    }
}

} // verus!
