//! FLAC residuals: Rice-coded partitions, with an escape to raw samples.
use vstd::prelude::*;
use vstd::arithmetic::power2::*;
use vstd::arithmetic::div_mod::*;
use crate::flac::bits::{BitReader, rd, sext, unary, unary_end, lemma_rd};

verus! {

/// The signed value folded into `val`: even values are non-negative.
pub open spec fn unfold(val: nat) -> int {
    if val % 2 == 0 {
        (val / 2) as int
    } else {
        -((val / 2) as int) - 1
    }
}

/// One Rice-coded value with parameter `k` at `pos`: the quotient in unary,
/// kept to its low `64 - k` bits, then `k` bits of remainder.
pub open spec fn rice(d: Seq<u8>, pos: int, k: nat) -> (int, int) {
    let end = (8 * d.len()) as int;
    let q = unary(d, pos, end);
    let (r, p2) = rd(d, unary_end(d, pos, end), k);
    (unfold((q % pow2((64 - k) as nat)) * pow2(k) + r), p2)
}

/// `count` Rice-coded values.
pub open spec fn rice_run(d: Seq<u8>, pos: int, k: nat, count: nat) -> (Seq<i64>, int)
    decreases count,
{
    if count == 0 {
        (Seq::empty(), pos)
    } else {
        let (s, p) = rice_run(d, pos, k, (count - 1) as nat);
        let (v, p2) = rice(d, p, k);
        (s.push(v as i64), p2)
    }
}

/// `count` raw `n`-bit two's-complement values.
pub open spec fn raw_run(d: Seq<u8>, pos: int, n: nat, count: nat) -> (Seq<i64>, int)
    decreases count,
{
    if count == 0 {
        (Seq::empty(), pos)
    } else {
        let (s, p) = raw_run(d, pos, n, (count - 1) as nat);
        let (v, p2) = rd(d, p, n);
        (s.push(sext(v, n) as i64), p2)
    }
}

/// One partition of `count` values, its parameter `pb` bits wide; the
/// all-ones parameter escapes to raw values of a 5-bit width.
pub open spec fn partition(d: Seq<u8>, pos: int, pb: nat, count: nat) -> (Seq<i64>, int) {
    let (param, p1) = rd(d, pos, pb);
    if param == pow2(pb) - 1 {
        let (raw, p2) = rd(d, p1, 5);
        raw_run(d, p2, raw, count)
    } else {
        rice_run(d, p1, param, count)
    }
}

/// The first `n` partitions; the first holds `order` values fewer.
pub open spec fn partitions(d: Seq<u8>, pos: int, pb: nat, n: nat, part_len: nat, order: nat) -> (Seq<i64>, int)
    decreases n,
{
    if n == 0 {
        (Seq::empty(), pos)
    } else {
        let (s, p) = partitions(d, pos, pb, (n - 1) as nat, part_len, order);
        let count = if n == 1 { (part_len - order) as nat } else { part_len };
        let (s2, p2) = partition(d, p, pb, count);
        (s + s2, p2)
    }
}

/// The residual of a subframe whose first `order` samples are given: the
/// values and the position after them, or `None` where the first partition
/// would be shorter than `order`.
pub open spec fn residual(d: Seq<u8>, pos: int, order: nat, blocksize: nat) -> Option<(Seq<i64>, int)> {
    let (method, p1) = rd(d, pos, 2);
    let pb: nat = if method == 1 { 5 } else { 4 };
    let (po, p2) = rd(d, p1, 4);
    let part_len = blocksize / pow2(po);
    if part_len < order {
        None
    } else {
        Some(partitions(d, p2, pb, pow2(po), part_len, order))
    }
}

pub proof fn lemma_rice_run_len(d: Seq<u8>, pos: int, k: nat, count: nat)
    ensures
        rice_run(d, pos, k, count).0.len() == count,
    decreases count,
{
    if count > 0 {
        lemma_rice_run_len(d, pos, k, (count - 1) as nat);
    }
}

pub proof fn lemma_raw_run_len(d: Seq<u8>, pos: int, n: nat, count: nat)
    ensures
        raw_run(d, pos, n, count).0.len() == count,
    decreases count,
{
    if count > 0 {
        lemma_raw_run_len(d, pos, n, (count - 1) as nat);
    }
}

pub proof fn lemma_partitions_len(d: Seq<u8>, pos: int, pb: nat, n: nat, part_len: nat, order: nat)
    requires
        order <= part_len,
        n >= 1,
    ensures
        partitions(d, pos, pb, n, part_len, order).0.len() == n * part_len - order,
    decreases n,
{
    let (s, p) = partitions(d, pos, pb, (n - 1) as nat, part_len, order);
    let count = if n == 1 { (part_len - order) as nat } else { part_len };
    let (param, p1) = rd(d, p, pb);
    let (raw, p2) = rd(d, p1, 5);
    lemma_raw_run_len(d, p2, raw, count);
    lemma_rice_run_len(d, p1, param, count);
    if n > 1 {
        lemma_partitions_len(d, pos, pb, (n - 1) as nat, part_len, order);
        assert((n - 1) * part_len + part_len == n * part_len) by (nonlinear_arith);
    }
}

/// Reads one Rice-coded value.
fn read_rice(br: &mut BitReader, k: u32) -> (r: i64)
    requires
        old(br).wf(),
        k <= 30,
    ensures
        final(br).data@ == old(br).data@,
        final(br).wf(),
        (r as int, final(br).pos as int) == rice(old(br).data@, old(br).pos as int, k as nat),
{
    let ghost d = br.data@;
    let ghost p0 = br.pos as int;
    let q = br.read_unary();
    let r = br.read(k);
    proof {
        lemma_rd(d, unary_end(d, p0, (8 * d.len()) as int), k as nat);
        lemma_pow2_strictly_increases(k as nat, 31);
        lemma2_to64();
        lemma2_to64_rest();
        lemma_pow2_pos(k as nat);
        lemma_pow2_pos((64 - k) as nat);
    }
    let val: u64 = if k == 0 {
        proof {
            lemma_small_mod(q as nat, pow2(64));
            assert(r == 0);
        }
        q
    } else {
        let m = 1u64 << (64 - k) as u64;
        let sc = 1u64 << k as u64;
        proof {
            vstd::bits::lemma_u64_shl_is_mul(1, (64 - k) as u64);
            vstd::bits::lemma_u64_pow2_no_overflow((64 - k) as nat);
            vstd::bits::lemma_u64_shl_is_mul(1, k as u64);
            vstd::bits::lemma_u64_pow2_no_overflow(k as nat);
            lemma_pow2_adds((64 - k) as nat, k as nat);
            lemma_mod_bound(q as int, m as int);
            assert((q % m) * sc + r < m * sc) by (nonlinear_arith)
                requires q % m < m, r < sc, m >= 1, sc >= 1;
            assert((q % m) * sc + r <= (m - 1) * sc + sc - 1) by (nonlinear_arith)
                requires q % m <= m - 1, r <= sc - 1;
            assert((m - 1) * sc + sc - 1 == m * sc - 1) by (nonlinear_arith);
        }
        (q % m) * sc + r
    };
    proof {
        lemma_fundamental_div_mod(val as int, 2);
    }
    if val % 2 == 0 {
        (val / 2) as i64
    } else {
        -((val / 2) as i64) - 1
    }
}

/// Reads `count` Rice-coded values into `buf` from `idx` on.
fn read_rice_run(br: &mut BitReader, buf: &mut [i64], idx: usize, k: u32, count: usize)
    requires
        old(br).wf(),
        k <= 30,
        idx + count <= old(buf)@.len(),
    ensures
        final(br).data@ == old(br).data@,
        final(br).wf(),
        final(buf)@.len() == old(buf)@.len(),
        ({
            let (s, p) = rice_run(old(br).data@, old(br).pos as int, k as nat, count as nat);
            &&& final(br).pos == p
            &&& forall|j: int| idx <= j < idx + count ==> #[trigger] final(buf)@[j] == s[j - idx]
            &&& forall|j: int| 0 <= j < old(buf)@.len() && !(idx <= j < idx + count) ==> #[trigger] final(buf)@[j] == old(buf)@[j]
        }),
{
    let ghost d = br.data@;
    let ghost p0 = br.pos as int;
    let ghost b0 = buf@;
    let _n = buf.len();
    let mut i: usize = 0;
    while i < count
        invariant
            br.data@ == d,
            br.wf(),
            i <= count,
            k <= 30,
            b0.len() <= usize::MAX,
            idx + count <= buf@.len() == b0.len(),
            ({
                let (s, p) = rice_run(d, p0, k as nat, i as nat);
                &&& br.pos == p
                &&& forall|j: int| idx <= j < idx + i ==> #[trigger] buf@[j] == s[j - idx]
            }),
            forall|j: int| 0 <= j < b0.len() && !(idx <= j < idx + i) ==> #[trigger] buf@[j] == b0[j],
        decreases count - i,
    {
        proof {
            lemma_rice_run_len(d, p0, k as nat, i as nat);
        }
        let v = read_rice(br, k);
        buf[idx + i] = v;
        proof {
            lemma_rice_run_len(d, p0, k as nat, (i + 1) as nat);
            let (s, p) = rice_run(d, p0, k as nat, i as nat);
            assert(rice_run(d, p0, k as nat, (i + 1) as nat).0 == s.push(v));
        }
        i = i + 1;
    }
}

/// Reads `count` raw `n`-bit values into `buf` from `idx` on.
pub fn read_raw_run(br: &mut BitReader, buf: &mut [i64], idx: usize, n: u32, count: usize)
    requires
        old(br).wf(),
        n <= 63,
        idx + count <= old(buf)@.len(),
    ensures
        final(br).data@ == old(br).data@,
        final(br).wf(),
        final(buf)@.len() == old(buf)@.len(),
        ({
            let (s, p) = raw_run(old(br).data@, old(br).pos as int, n as nat, count as nat);
            &&& final(br).pos == p
            &&& forall|j: int| idx <= j < idx + count ==> #[trigger] final(buf)@[j] == s[j - idx]
            &&& forall|j: int| 0 <= j < old(buf)@.len() && !(idx <= j < idx + count) ==> #[trigger] final(buf)@[j] == old(buf)@[j]
        }),
{
    let ghost d = br.data@;
    let ghost p0 = br.pos as int;
    let ghost b0 = buf@;
    let _n = buf.len();
    let mut i: usize = 0;
    while i < count
        invariant
            br.data@ == d,
            br.wf(),
            i <= count,
            n <= 63,
            b0.len() <= usize::MAX,
            idx + count <= buf@.len() == b0.len(),
            ({
                let (s, p) = raw_run(d, p0, n as nat, i as nat);
                &&& br.pos == p
                &&& forall|j: int| idx <= j < idx + i ==> #[trigger] buf@[j] == s[j - idx]
            }),
            forall|j: int| 0 <= j < b0.len() && !(idx <= j < idx + i) ==> #[trigger] buf@[j] == b0[j],
        decreases count - i,
    {
        proof {
            lemma_raw_run_len(d, p0, n as nat, i as nat);
        }
        let v = br.read_signed(n);
        buf[idx + i] = v;
        proof {
            lemma_raw_run_len(d, p0, n as nat, (i + 1) as nat);
            let (s, p) = raw_run(d, p0, n as nat, i as nat);
            assert(raw_run(d, p0, n as nat, (i + 1) as nat).0 == s.push(v));
        }
        i = i + 1;
    }
}

/// Reads the residual of a subframe into `buf` after its first `order`
/// samples; `false` where the partitions cannot hold the samples.
pub fn read_residual(br: &mut BitReader, buf: &mut [i64], order: usize, blocksize: usize) -> (ok: bool)
    requires
        old(br).wf(),
        blocksize == old(buf)@.len(),
    ensures
        final(br).data@ == old(br).data@,
        final(br).wf(),
        final(buf)@.len() == old(buf)@.len(),
        match residual(old(br).data@, old(br).pos as int, order as nat, blocksize as nat) {
            None => !ok,
            Some((s, p)) => {
                &&& ok
                &&& final(br).pos == p
                &&& order + s.len() <= blocksize
                &&& forall|j: int| order <= j < order + s.len() ==> #[trigger] final(buf)@[j] == s[j - order]
                &&& forall|j: int| 0 <= j < blocksize && !(order <= j < order + s.len()) ==> #[trigger] final(buf)@[j] == old(buf)@[j]
            },
        },
{
    let ghost d = br.data@;
    let ghost b0 = buf@;
    let method = br.read(2);
    let pb: u32 = if method == 1 { 5 } else { 4 };
    let escape: u64 = if method == 1 { 31 } else { 15 };
    let po = br.read(4);
    let ghost p2 = br.pos as int;
    proof {
        lemma_rd(d, old(br).pos as int, 2);
        lemma_rd(d, rd(d, old(br).pos as int, 2).1, 4);
        lemma2_to64();
        lemma_pow2_pos(po as nat);
    }
    proof {
        vstd::bits::lemma_u64_shl_is_mul(1, po);
        vstd::bits::lemma_u64_pow2_no_overflow(po as nat);
        lemma_pow2_strictly_increases(po as nat, 16);
    }
    let nparts: usize = (1u64 << po) as usize;
    let part_len = blocksize / nparts;
    if part_len < order {
        return false;
    }
    proof {
        assert(nparts * part_len <= blocksize) by (nonlinear_arith)
            requires part_len == blocksize / nparts, nparts >= 1;
    }
    let mut idx = order;
    let mut p: usize = 0;
    while p < nparts
        invariant
            br.data@ == d,
            br.wf(),
            b0.len() == blocksize == buf@.len(),
            1 <= nparts <= 0x8000,
            order <= part_len,
            nparts * part_len <= blocksize,
            pb == 4 || pb == 5,
            escape == pow2(pb as nat) - 1,
            p <= nparts,
            p == 0 ==> idx == order,
            p >= 1 ==> idx == p * part_len,
            ({
                let (s, q) = partitions(d, p2, pb as nat, p as nat, part_len as nat, order as nat);
                &&& br.pos == q
                &&& order + s.len() == idx
                &&& forall|j: int| order <= j < idx ==> #[trigger] buf@[j] == s[j - order]
            }),
            forall|j: int| 0 <= j < blocksize && !(order <= j < idx) ==> #[trigger] buf@[j] == b0[j],
        decreases nparts - p,
    {
        proof {
            if p >= 1 {
                lemma_partitions_len(d, p2, pb as nat, p as nat, part_len as nat, order as nat);
            }
            assert((p + 1) * part_len <= nparts * part_len) by (nonlinear_arith)
                requires p + 1 <= nparts;
            assert((p + 1) * part_len == p * part_len + part_len) by (nonlinear_arith);
        }
        let count = if p == 0 { part_len - order } else { part_len };
        let ghost q0 = br.pos as int;
        let ghost s0 = partitions(d, p2, pb as nat, p as nat, part_len as nat, order as nat).0;
        let ghost bb = buf@;
        let param = br.read(pb);
        proof {
            lemma_rd(d, q0, pb as nat);
            lemma2_to64();
        }
        if param == escape {
            let raw = br.read(5);
            proof {
                lemma_rd(d, br.pos as int, 5);
                lemma_rd(d, rd(d, q0, pb as nat).1, 5);
            }
            read_raw_run(br, buf, idx, raw as u32, count);
        } else {
            read_rice_run(br, buf, idx, param as u32, count);
        }
        proof {
            let (s2, q2) = partition(d, q0, pb as nat, count as nat);
            lemma_raw_run_len(d, rd(d, rd(d, q0, pb as nat).1, 5).1, rd(d, rd(d, q0, pb as nat).1, 5).0, count as nat);
            lemma_rice_run_len(d, rd(d, q0, pb as nat).1, rd(d, q0, pb as nat).0, count as nat);
            assert(partitions(d, p2, pb as nat, (p + 1) as nat, part_len as nat, order as nat).0 == s0 + s2);
            assert forall|j: int| order <= j < idx + count implies #[trigger] buf@[j] == (s0 + s2)[j - order] by {
                if j < idx {
                    assert(buf@[j] == bb[j]);
                }
            }
        }
        idx = idx + count;
        p = p + 1;
    }
    proof {
        lemma_partitions_len(d, p2, pb as nat, nparts as nat, part_len as nat, order as nat);
    }
    true
}

/// The Rice fold maps 0, 1, 2, 3, 4, ... to 0, -1, 1, -2, 2, ...: twice a
/// value unfolds to it, one more than twice a value to minus one more.
pub proof fn lemma_unfold_zigzag(v: nat)
    ensures
        unfold(2 * v) == v,
        unfold(2 * v + 1) == -(v as int) - 1,
{
    assert((2 * v) % 2 == 0 && (2 * v) / 2 == v);
    assert((2 * v + 1) % 2 == 1 && (2 * v + 1) / 2 == v);
}

} // verus!
