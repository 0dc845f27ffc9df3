//! The Huffman-coded spectral values of a granule channel: the big-values
//! pairs in three regions, then the count1 quadruples.
//!
//! The code tables are data: `HuffTables` holds, per table, its place in
//! the node array, its size and its escape width. A node is a `u16`; a node
//! whose high byte is 0 is a leaf holding `x` and `y` in its low nibbles,
//! otherwise a 1 bit moves on by its low byte and a 0 bit by its high byte,
//! steps of 250 or more chaining to a further step. A step that does not
//! move on, or leaves the table, ends the walk at the node it left.
use vstd::prelude::*;
use crate::mp3::bits::Bits;
use crate::mp3::sideinfo::{GrInfo, gbits};

verus! {

/// The Huffman tables: (node offset, node count, escape bits) per table,
/// and the nodes.
pub struct HuffTables {
    pub dir: Vec<(u32, u32, u32)>,
    pub tree: Vec<u16>,
}

pub open spec fn lo(n: u16) -> int {
    n as int % 256
}

pub open spec fn hi(n: u16) -> int {
    n as int / 256
}

/// Table `t` lies within the nodes and escapes by at most 13 bits.
pub open spec fn table_ok(dir: Seq<(u32, u32, u32)>, tree: Seq<u16>, t: int) -> bool {
    let (off, len, lb) = dir[t];
    &&& off + len <= tree.len()
    &&& lb <= 13
}

/// The 34 tables are there and lie within the nodes.
pub open spec fn tables_ok(h: HuffTables) -> bool {
    &&& h.dir@.len() >= 34
    &&& h.tree@.len() <= 0x1_0000
    &&& forall|t: int| 0 <= t < h.dir@.len() ==> #[trigger] table_ok(h.dir@, h.tree@, t)
}

/// The node reached from node `p` by one branch: the low byte's step for
/// a 1 bit, the high byte's for a 0 bit, through steps of 250 or more.
pub open spec fn chase(tree: Seq<u16>, off: int, len: int, p: int, high: bool) -> int
    decreases len - p,
{
    if !(0 <= p < len) {
        p
    } else {
        let n = tree[off + p];
        let step = if high { hi(n) } else { lo(n) };
        if step >= 250 && p + step < len {
            chase(tree, off, len, p + step, high)
        } else {
            p + step
        }
    }
}

/// The leaf reached from node `p` reading bits from `pos`, and the
/// position after them.
pub open spec fn hwalk(buf: Seq<u8>, limit: int, tree: Seq<u16>, off: int, len: int, p: int, pos: int) -> (int, int)
    decreases len - p,
{
    if !(0 <= p < len) || hi(tree[off + p]) == 0 {
        (p, pos)
    } else {
        let p2 = chase(tree, off, len, p, gbits(buf, limit, pos, 1) == 0);
        if p2 <= p || p2 >= len {
            (p, pos + 1)
        } else {
            hwalk(buf, limit, tree, off, len, p2, pos + 1)
        }
    }
}

/// A value given its sign bit where it is not zero.
pub open spec fn signed(buf: Seq<u8>, limit: int, v: int, pos: int) -> (int, int) {
    if v > 0 {
        (if gbits(buf, limit, pos, 1) == 1 { -v } else { v }, pos + 1)
    } else {
        (v, pos)
    }
}

/// A value of 15 extended by `lb` escape bits.
pub open spec fn escaped(buf: Seq<u8>, limit: int, v: int, lb: int, pos: int) -> (int, int) {
    if lb != 0 && v == 15 {
        (v + gbits(buf, limit, pos, lb as nat), pos + lb)
    } else {
        (v, pos)
    }
}

/// One symbol of `table` read at `pos`: `(x, y, v, w)` (a pair for tables
/// below 32, a quadruple for the count1 tables) and the position after it.
pub open spec fn symbol(buf: Seq<u8>, limit: int, dir: Seq<(u32, u32, u32)>, tree: Seq<u16>, table: int, pos: int)
    -> ((int, int, int, int), int)
{
    let (off, len, lb) = dir[table];
    if len == 0 {
        ((0, 0, 0, 0), pos)
    } else {
        let (pl, p1) = hwalk(buf, limit, tree, off as int, len as int, 0, pos);
        let node = tree[off + pl];
        let x = (node as int / 16) % 16;
        let y = node as int % 16;
        if table > 31 {
            let (v, p2) = signed(buf, limit, (y / 8) % 2, p1);
            let (w, p3) = signed(buf, limit, (y / 4) % 2, p2);
            let (xq, p4) = signed(buf, limit, (y / 2) % 2, p3);
            let (yq, p5) = signed(buf, limit, y % 2, p4);
            ((xq, yq, v, w), p5)
        } else {
            let (x1, p2) = escaped(buf, limit, x, lb as int, p1);
            let (x2, p3) = signed(buf, limit, x1, p2);
            let (y1, p4) = escaped(buf, limit, y, lb as int, p3);
            let (y2, p5) = signed(buf, limit, y1, p4);
            ((x2, y2, 0, 0), p5)
        }
    }
}

/// The nodes of a table lie within the node array.
pub open spec fn steps_ok(tree: Seq<u16>, off: int, len: int) -> bool {
    &&& 0 <= off
    &&& off + len <= tree.len()
}

fn chase_exec(tree: &Vec<u16>, off: usize, len: usize, p: usize, high: bool) -> (r: usize)
    requires
        steps_ok(tree@, off as int, len as int),
        p < len,
        len <= 0x1_0000,
    ensures
        r == chase(tree@, off as int, len as int, p as int, high),
        r <= len + 255,
{
    let tl = tree.len();
    let mut q = p;
    loop
        invariant
            tl == tree@.len(),
            steps_ok(tree@, off as int, len as int),
            len <= 0x1_0000,
            p <= q < len,
            chase(tree@, off as int, len as int, p as int, high) == chase(tree@, off as int, len as int, q as int, high),
        decreases len - q,
    {
        let n = tree[off + q];
        let step: usize = if high { (n / 256) as usize } else { (n % 256) as usize };
        if step >= 250 && q + step < len {
            q = q + step;
        } else {
            return q + step;
        }
    }
}

/// Facts of a well-formed table that the walk needs.
proof fn lemma_table(h: HuffTables, t: int)
    requires
        tables_ok(h),
        0 <= t < h.dir@.len(),
    ensures
        steps_ok(h.tree@, h.dir@[t].0 as int, h.dir@[t].1 as int),
        h.dir@[t].2 <= 13,
        h.dir@[t].1 <= 0x1_0000,
{
    assert(table_ok(h.dir@, h.tree@, t));
}

/// Walks from the root of a table to a leaf.
fn walk(bs: &mut Bits, tree: &Vec<u16>, off: usize, len: usize) -> (r: usize)
    requires
        steps_ok(tree@, off as int, len as int),
        1 <= len <= 0x1_0000,
        old(bs).wf(),
        old(bs).pos + len <= usize::MAX,
    ensures
        final(bs).buf@ == old(bs).buf@,
        final(bs).limit == old(bs).limit,
        final(bs).wf(),
        (r as int, final(bs).pos as int) == hwalk(old(bs).buf@, old(bs).limit as int, tree@, off as int, len as int, 0,
            old(bs).pos as int),
        r < len,
        final(bs).pos <= old(bs).pos + len,
{
    let ghost buf = bs.buf@;
    let ghost limit = bs.limit as int;
    let ghost pos0 = bs.pos as int;
    let tl = tree.len();
    let mut point: usize = 0;
    loop
        invariant
            tl == tree@.len(),
            steps_ok(tree@, off as int, len as int),
            len <= 0x1_0000,
            point < len,
            bs.wf(),
            bs.buf@ == buf,
            bs.limit == limit,
            buf == old(bs).buf@,
            limit == old(bs).limit,
            pos0 == old(bs).pos,
            bs.pos <= pos0 + point,
            pos0 + len <= usize::MAX,
            hwalk(buf, limit, tree@, off as int, len as int, 0, pos0) == hwalk(buf, limit, tree@, off as int, len as int,
                point as int, bs.pos as int),
        decreases len - point,
    {
        let n = tree[off + point];
        if n / 256 == 0 {
            return point;
        }
        let bit = bs.get_bits(1);
        let p2 = chase_exec(tree, off, len, point, bit == 0);
        if p2 <= point || p2 >= len {
            return point;
        }
        point = p2;
    }
}

fn sign_exec(bs: &mut Bits, v: i32) -> (r: i32)
    requires
        old(bs).wf(),
        old(bs).pos + 1 <= usize::MAX,
        v >= 0,
    ensures
        final(bs).buf@ == old(bs).buf@,
        final(bs).limit == old(bs).limit,
        final(bs).wf(),
        (r as int, final(bs).pos as int) == signed(old(bs).buf@, old(bs).limit as int, v as int, old(bs).pos as int),
        final(bs).pos <= old(bs).pos + 1,
{
    if v > 0 && bs.get_bits(1) == 1 {
        -v
    } else {
        v
    }
}

fn escape_exec(bs: &mut Bits, v: i32, lb: u32) -> (r: i32)
    requires
        old(bs).wf(),
        old(bs).pos + 13 <= usize::MAX,
        0 <= v <= 15,
        lb <= 13,
    ensures
        final(bs).buf@ == old(bs).buf@,
        final(bs).limit == old(bs).limit,
        final(bs).wf(),
        (r as int, final(bs).pos as int) == escaped(old(bs).buf@, old(bs).limit as int, v as int, lb as int,
            old(bs).pos as int),
        final(bs).pos <= old(bs).pos + 13,
        0 <= r < 15 + 0x2000,
{
    if lb != 0 && v == 15 {
        let e = bs.get_bits(lb);
        proof {
            if !(old(bs).pos + lb > old(bs).limit) {
                crate::mp3::bits::lemma_bits_bound(old(bs).buf@, old(bs).pos as int, lb as nat);
                vstd::arithmetic::power2::lemma2_to64();
                if lb < 13 {
                    vstd::arithmetic::power2::lemma_pow2_strictly_increases(lb as nat, 13);
                }
            }
        }
        v + e as i32
    } else {
        v
    }
}

/// Reads one symbol of `table`.
pub fn decode_symbol(bs: &mut Bits, h: &HuffTables, table: usize) -> (r: (i32, i32, i32, i32))
    requires
        tables_ok(*h),
        table < h.dir@.len(),
        old(bs).wf(),
        old(bs).pos + 0x1_0100 <= usize::MAX,
    ensures
        final(bs).buf@ == old(bs).buf@,
        final(bs).limit == old(bs).limit,
        final(bs).wf(),
        ((r.0 as int, r.1 as int, r.2 as int, r.3 as int), final(bs).pos as int) == symbol(old(bs).buf@,
            old(bs).limit as int, h.dir@, h.tree@, table as int, old(bs).pos as int),
        final(bs).pos <= old(bs).pos + 0x1_0040,
        -0x2100 <= r.0 <= 0x2100,
        -0x2100 <= r.1 <= 0x2100,
{
    proof {
        lemma_table(*h, table as int);
    }
    let (off, len, lb) = h.dir[table];
    if len == 0 {
        return (0, 0, 0, 0);
    }
    let pl = walk(bs, &h.tree, off as usize, len as usize);
    let node = h.tree[off as usize + pl];
    let x = ((node / 16) % 16) as i32;
    let y = (node % 16) as i32;
    if table > 31 {
        let v = sign_exec(bs, (y / 8) % 2);
        let w = sign_exec(bs, (y / 4) % 2);
        let xq = sign_exec(bs, (y / 2) % 2);
        let yq = sign_exec(bs, y % 2);
        (xq, yq, v, w)
    } else {
        let x1 = escape_exec(bs, x, lb);
        let x2 = sign_exec(bs, x1);
        let y1 = escape_exec(bs, y, lb);
        let y2 = sign_exec(bs, y1);
        (x2, y2, 0, 0)
    }
}

/// The sum of the first `j` band widths.
pub open spec fn cum(t: Seq<u8>, j: int) -> int
    decreases j,
{
    if j <= 0 {
        0
    } else {
        cum(t, j - 1) + t[j - 1]
    }
}

/// Start of band `j`, as a table of 24 entries filled from the first 23
/// widths holds it (zero past the widths given).
pub open spec fn band_start(t: Seq<u8>, j: int) -> int {
    let filled = if t.len() < 23 { t.len() as int } else { 23 };
    if j > filled { 0 } else { cum(t, j) }
}

/// Where regions 1 and 2 of the big values start.
pub open spec fn region_starts(gr: GrInfo, sfbtab: Seq<u8>) -> (int, int) {
    if gr.block_type == 2 {
        (36, 576)
    } else {
        let r0 = gr.region_count[0] as int;
        let r1 = gr.region_count[1] as int;
        let i1 = if r0 + 1 < 23 { r0 + 1 } else { 23 };
        let i2 = if r0 + r1 + 2 < 23 { r0 + r1 + 2 } else { 23 };
        (band_start(sfbtab, i1), band_start(sfbtab, i2))
    }
}

/// The starts of regions 1 and 2 of the big values.
pub fn region_bounds(gr: &GrInfo, sfbtab: &[u8]) -> (r: (usize, usize))
    ensures
        (r.0 as int, r.1 as int) == region_starts(*gr, sfbtab@),
{
    if gr.block_type == 2 {
        return (36, 576);
    }
    let n = if sfbtab.len() < 23 { sfbtab.len() } else { 23 };
    let mut cums: Vec<usize> = Vec::new();
    cums.push(0);
    let mut k: usize = 0;
    while k < n
        invariant
            k <= n <= 23,
            n == if sfbtab@.len() < 23 { sfbtab@.len() as int } else { 23 },
            cums@.len() == k + 1,
            forall|j: int| 0 <= j <= k ==> cums@[j] as int == cum(sfbtab@, j) && cum(sfbtab@, j) <= 255 * j,
        decreases n - k,
    {
        let c = cums[k] + sfbtab[k] as usize;
        cums.push(c);
        k = k + 1;
    }
    while k < 23
        invariant
            n <= k <= 23,
            n == if sfbtab@.len() < 23 { sfbtab@.len() as int } else { 23 },
            cums@.len() == k + 1,
            forall|j: int| 0 <= j <= k ==> cums@[j] as int == band_start(sfbtab@, j),
        decreases 23 - k,
    {
        cums.push(0);
        k = k + 1;
    }
    let r0 = gr.region_count[0] as usize;
    let r1 = gr.region_count[1] as usize;
    let i1 = if r0 + 1 < 23 { r0 + 1 } else { 23 };
    let i2 = if r0 + r1 + 2 < 23 { r0 + r1 + 2 } else { 23 };
    (cums[i1], cums[i2])
}

/// The table for big value `ip`: by the region it lies in.
pub open spec fn table_at(gr: GrInfo, r1: int, r2: int, ip: int) -> int {
    if ip < r1 {
        gr.table_select[0] as int
    } else if ip < r2 {
        gr.table_select[1] as int
    } else {
        gr.table_select[2] as int
    }
}

/// The big-value pairs from `ip` up to `big` (both even), and the position
/// after them.
pub open spec fn big_run(
    buf: Seq<u8>,
    limit: int,
    dir: Seq<(u32, u32, u32)>,
    tree: Seq<u16>,
    gr: GrInfo,
    r1: int,
    r2: int,
    big: int,
    is: Seq<i32>,
    ip: int,
    pos: int,
) -> (Seq<i32>, int)
    decreases big - ip,
{
    if ip + 2 > big || ip < 0 {
        (is, pos)
    } else {
        let (sym, p2) = symbol(buf, limit, dir, tree, table_at(gr, r1, r2, ip), pos);
        big_run(buf, limit, dir, tree, gr, r1, r2, big, is.update(ip, sym.0 as i32).update(ip + 1, sym.1 as i32), ip + 2, p2)
    }
}

/// The count1 quadruples from `ip` on while there is room and the part has
/// bits left: the values, the count of values, and the position after.
pub open spec fn c1_run(
    buf: Seq<u8>,
    limit: int,
    dir: Seq<(u32, u32, u32)>,
    tree: Seq<u16>,
    table: int,
    end: int,
    is: Seq<i32>,
    ip: int,
    pos: int,
) -> (Seq<i32>, int, int)
    decreases 576 - ip,
{
    if 0 <= ip <= 572 && pos <= end {
        let ((x, y, v, w), p2) = symbol(buf, limit, dir, tree, table, pos);
        c1_run(buf, limit, dir, tree, table, end,
            is.update(ip, v as i32).update(ip + 1, w as i32).update(ip + 2, x as i32).update(ip + 3, y as i32),
            ip + 4, p2)
    } else {
        (is, ip, pos)
    }
}

/// The spectral values of a granule channel whose part starts at bit
/// `part_2_start`, read from `pos`: the 576 values, how many were coded
/// (less a quadruple that overran the part), and the position after the
/// part.
pub open spec fn huffman_spec(
    buf: Seq<u8>,
    limit: int,
    dir: Seq<(u32, u32, u32)>,
    tree: Seq<u16>,
    gr: GrInfo,
    sfbtab: Seq<u8>,
    part_2_start: int,
    pos: int,
) -> (Seq<i32>, int, int) {
    let zeros = Seq::new(576, |i: int| 0i32);
    if gr.part_23_length == 0 {
        (zeros, 0, pos)
    } else {
        let end = part_2_start + gr.part_23_length - 1;
        let (r1, r2) = region_starts(gr, sfbtab);
        let (is1, p1) = big_run(buf, limit, dir, tree, gr, r1, r2, 2 * gr.big_values, zeros, 0, pos);
        let (is2, ip, p2) = c1_run(buf, limit, dir, tree, gr.count1_table + 32, end, is1, 2 * gr.big_values, p1);
        (is2, if p2 > end + 1 { if ip >= 4 { ip - 4 } else { 0 } } else { ip }, end + 1)
    }
}

/// Reads the Huffman-coded values of one granule channel into `is`, whose
/// part of the main data began at bit `part_2_start`; `sfbtab` holds the
/// granule's scale factor band widths. Returns how many values were coded
/// and leaves the reader at the end of the part.
pub fn read_huffman(
    bs: &mut Bits,
    gr: &GrInfo,
    sfbtab: &[u8],
    h: &HuffTables,
    part_2_start: usize,
    is: &mut Vec<i32>,
) -> (r: usize)
    requires
        old(bs).wf(),
        tables_ok(*h),
        gr.big_values <= 288,
        gr.table_select[0] < 32,
        gr.table_select[1] < 32,
        gr.table_select[2] < 32,
        gr.count1_table <= 1,
        part_2_start <= old(bs).pos,
        old(bs).pos + 0x1000_0000 <= usize::MAX,
        old(is)@.len() == 576,
    ensures
        final(bs).buf@ == old(bs).buf@,
        final(bs).limit == old(bs).limit,
        final(bs).wf(),
        (final(is)@, r as int, final(bs).pos as int) == huffman_spec(old(bs).buf@, old(bs).limit as int, h.dir@,
            h.tree@, *gr, sfbtab@, part_2_start as int, old(bs).pos as int),
        r <= 576,
{
    let ghost buf = bs.buf@;
    let ghost limit = bs.limit as int;
    let ghost pos0 = bs.pos as int;
    let mut k: usize = 0;
    while k < 576
        invariant
            k <= 576,
            is@.len() == 576,
            forall|j: int| 0 <= j < k ==> is@[j] == 0i32,
        decreases 576 - k,
    {
        is.set(k, 0);
        k = k + 1;
    }
    proof {
        assert(is@ =~= Seq::new(576, |i: int| 0i32));
    }
    if gr.part_23_length == 0 {
        return 0;
    }
    let bit_pos_end = part_2_start + gr.part_23_length as usize - 1;
    let (region_1_start, region_2_start) = region_bounds(gr, sfbtab);
    let big = gr.big_values as usize * 2;
    let ghost zeros = is@;
    let mut is_pos: usize = 0;
    while is_pos < big
        invariant
            tables_ok(*h),
            big == 2 * gr.big_values,
            gr.big_values <= 288,
            gr.table_select[0] < 32,
            gr.table_select[1] < 32,
            gr.table_select[2] < 32,
            is_pos % 2 == 0,
            is_pos <= big,
            is@.len() == 576,
            bs.wf(),
            bs.buf@ == buf,
            bs.limit == limit,
            pos0 + 0x1000_0000 <= usize::MAX,
            bs.pos <= pos0 + (is_pos / 2) * 0x1_0040,
            (region_1_start as int, region_2_start as int) == region_starts(*gr, sfbtab@),
            big_run(buf, limit, h.dir@, h.tree@, *gr, region_1_start as int, region_2_start as int, big as int,
                zeros, 0, pos0) == big_run(buf, limit, h.dir@, h.tree@, *gr, region_1_start as int,
                region_2_start as int, big as int, is@, is_pos as int, bs.pos as int),
        decreases big - is_pos,
    {
        let table = if is_pos < region_1_start {
            gr.table_select[0]
        } else if is_pos < region_2_start {
            gr.table_select[1]
        } else {
            gr.table_select[2]
        } as usize;
        let (x, y, _, _) = decode_symbol(bs, h, table);
        is.set(is_pos, x);
        is.set(is_pos + 1, y);
        is_pos = is_pos + 2;
    }
    let ghost is1 = is@;
    let ghost p1 = bs.pos as int;
    let table = gr.count1_table as usize + 32;
    while is_pos <= 572 && bs.pos <= bit_pos_end
        invariant
            tables_ok(*h),
            table == gr.count1_table + 32,
            gr.count1_table <= 1,
            is_pos <= 576,
            is@.len() == 576,
            bs.wf(),
            bs.buf@ == buf,
            bs.limit == limit,
            pos0 + 0x1000_0000 <= usize::MAX,
            bit_pos_end <= pos0 + 0x1_0000,
            bs.pos <= pos0 + 0x200_0000,
            c1_run(buf, limit, h.dir@, h.tree@, table as int, bit_pos_end as int, is1, big as int, p1)
                == c1_run(buf, limit, h.dir@, h.tree@, table as int, bit_pos_end as int, is@, is_pos as int,
                bs.pos as int),
        decreases 576 - is_pos,
    {
        let (x, y, v, w) = decode_symbol(bs, h, table);
        is.set(is_pos, v);
        is.set(is_pos + 1, w);
        is.set(is_pos + 2, x);
        is.set(is_pos + 3, y);
        is_pos = is_pos + 4;
    }
    if bs.pos > bit_pos_end + 1 {
        is_pos = if is_pos >= 4 { is_pos - 4 } else { 0 };
    }
    bs.pos = bit_pos_end + 1;
    is_pos
}

} // verus!
