//! The scale factors of a granule channel: groups of fixed-width fields,
//! or copies of the previous granule's where the side information says so.
use vstd::prelude::*;
use crate::mp3::bits::{Bits, bits_value};

verus! {

/// What `Bits::get_bits` returns: zero once the field runs past `limit`.
pub open spec fn field_at(buf: Seq<u8>, limit: int, pos: int, n: nat) -> nat {
    if pos + n > limit {
        0
    } else {
        bits_value(buf, pos, n)
    }
}

/// One group of `count[i]` scale factors at `so`: copied from the stored
/// positions where the share bit of `si` is set, cleared where the width is
/// 0, and read otherwise, a value of all ones marking an illegal stereo
/// position when `si` is negative. Returns the scale factors, positions and
/// bit position after it.
pub open spec fn scf_group(
    buf: Seq<u8>,
    limit: int,
    pos: int,
    bits: nat,
    cnt: int,
    si: int,
    so: int,
    scf: Seq<u8>,
    ist: Seq<u8>,
) -> (Seq<u8>, Seq<u8>, int) {
    if (si as i32) & 8 != 0 {
        (Seq::new(scf.len(), |j: int| if so <= j < so + cnt { ist[j] } else { scf[j] }), ist, pos)
    } else if bits == 0 {
        (
            Seq::new(scf.len(), |j: int| if so <= j < so + cnt { 0u8 } else { scf[j] }),
            Seq::new(ist.len(), |j: int| if so <= j < so + cnt { 0u8 } else { ist[j] }),
            pos,
        )
    } else {
        let max = if si < 0 { vstd::arithmetic::power2::pow2(bits) - 1 } else { -1 };
        (
            Seq::new(scf.len(), |j: int| if so <= j < so + cnt {
                (field_at(buf, limit, pos + (j - so) * bits, bits) % 256) as u8
            } else {
                scf[j]
            }),
            Seq::new(ist.len(), |j: int| if so <= j < so + cnt {
                if field_at(buf, limit, pos + (j - so) * bits, bits) == max {
                    255u8
                } else {
                    (field_at(buf, limit, pos + (j - so) * bits, bits) % 256) as u8
                }
            } else {
                ist[j]
            }),
            pos + cnt * bits,
        )
    }
}

/// The scale factors, stereo positions and bit position after the groups
/// from `i` on, with `si` the share bits shifted to group `i`; three zeros
/// follow the last group.
pub open spec fn scf_groups(
    buf: Seq<u8>,
    limit: int,
    pos: int,
    size: Seq<u8>,
    count: Seq<u8>,
    si: int,
    i: int,
    so: int,
    scf: Seq<u8>,
    ist: Seq<u8>,
) -> (Seq<u8>, Seq<u8>, int)
    decreases 4 - i,
{
    if i >= 4 || i < 0 || count[i] == 0 {
        (scf.update(so, 0).update(so + 1, 0).update(so + 2, 0), ist, pos)
    } else {
        let (scf2, ist2, pos2) = scf_group(buf, limit, pos, size[i] as nat, count[i] as int, si, so, scf, ist);
        scf_groups(buf, limit, pos2, size, count, si * 2, i + 1, so + count[i], scf2, ist2)
    }
}

/// Offset of group `i`: the counts of the groups before it.
pub open spec fn group_start(count: Seq<u8>, i: int) -> int
    decreases i,
{
    if i <= 0 {
        0
    } else {
        group_start(count, i - 1) + count[i - 1]
    }
}

proof fn lemma_group_start_mono(count: Seq<u8>, i: int, j: int)
    requires
        0 <= i <= j,
    ensures
        group_start(count, i) <= group_start(count, j),
    decreases j - i,
{
    if i < j {
        lemma_group_start_mono(count, i, j - 1);
    }
}

/// Copies the stored positions `so .. so + cnt` into the scale factors.
fn copy_group(scf: &mut Vec<u8>, ist: &Vec<u8>, so: usize, cnt: usize)
    requires
        so + cnt <= old(scf)@.len(),
        so + cnt <= ist@.len(),
    ensures
        final(scf)@ == Seq::new(old(scf)@.len(), |j: int| if so <= j < so + cnt { ist@[j] } else { old(scf)@[j] }),
{
    let ghost s0 = scf@;
    let n = scf.len();
    let mut k: usize = 0;
    while k < cnt
        invariant
            k <= cnt,
            n == s0.len(),
            so + cnt <= n,
            so + cnt <= ist@.len(),
            scf@ =~= Seq::new(s0.len(), |j: int| if so <= j < so + k { ist@[j] } else { s0[j] }),
        decreases cnt - k,
    {
        scf.set(so + k, ist[so + k]);
        k = k + 1;
    }
}

/// Clears the scale factors and positions `so .. so + cnt`.
fn clear_group(scf: &mut Vec<u8>, ist: &mut Vec<u8>, so: usize, cnt: usize)
    requires
        so + cnt <= old(scf)@.len(),
        so + cnt <= old(ist)@.len(),
    ensures
        final(scf)@ == Seq::new(old(scf)@.len(), |j: int| if so <= j < so + cnt { 0u8 } else { old(scf)@[j] }),
        final(ist)@ == Seq::new(old(ist)@.len(), |j: int| if so <= j < so + cnt { 0u8 } else { old(ist)@[j] }),
{
    let ghost s0 = scf@;
    let ghost i0 = ist@;
    let n = scf.len();
    let mut k: usize = 0;
    while k < cnt
        invariant
            k <= cnt,
            n == s0.len(),
            so + cnt <= n,
            so + cnt <= i0.len(),
            scf@ =~= Seq::new(s0.len(), |j: int| if so <= j < so + k { 0u8 } else { s0[j] }),
            ist@ =~= Seq::new(i0.len(), |j: int| if so <= j < so + k { 0u8 } else { i0[j] }),
        decreases cnt - k,
    {
        scf.set(so + k, 0);
        ist.set(so + k, 0);
        k = k + 1;
    }
}

/// Reads `cnt` fields of `bits` bits into the scale factors and positions
/// `so .. so + cnt`; a field equal to `max` is an illegal position.
fn read_group(scf: &mut Vec<u8>, ist: &mut Vec<u8>, so: usize, cnt: usize, bits: u32, max: i32, bs: &mut Bits)
    requires
        so + cnt <= old(scf)@.len(),
        so + cnt <= old(ist)@.len(),
        1 <= bits <= 25,
        cnt <= 255,
        old(bs).wf(),
        old(bs).pos + 255 * 25 <= usize::MAX,
    ensures
        final(bs).buf@ == old(bs).buf@,
        final(bs).limit == old(bs).limit,
        final(bs).wf(),
        final(bs).pos == old(bs).pos + cnt * bits,
        ({
            let v = |j: int| field_at(old(bs).buf@, old(bs).limit as int, old(bs).pos + (j - so) * bits, bits as nat);
            &&& final(scf)@ == Seq::new(old(scf)@.len(), |j: int| if so <= j < so + cnt { (v(j) % 256) as u8 } else { old(scf)@[j] })
            &&& final(ist)@ == Seq::new(old(ist)@.len(), |j: int| if so <= j < so + cnt {
                    if v(j) == max { 255u8 } else { (v(j) % 256) as u8 }
                } else {
                    old(ist)@[j]
                })
        }),
{
    let ghost s0 = scf@;
    let ghost i0 = ist@;
    let ghost p0 = bs.pos as int;
    let ghost buf = bs.buf@;
    let ghost limit = bs.limit as int;
    let ghost v = |j: int| field_at(buf, limit, p0 + (j - so) * bits, bits as nat);
    let n = scf.len();
    let mut k: usize = 0;
    while k < cnt
        invariant
            k <= cnt <= 255,
            n == s0.len(),
            so + cnt <= n,
            1 <= bits <= 25,
            so + cnt <= s0.len(),
            so + cnt <= i0.len(),
            bs.wf(),
            bs.buf@ == buf,
            bs.limit == limit,
            p0 + 255 * 25 <= usize::MAX,
            bs.pos == p0 + k * bits,
            v == (|j: int| field_at(buf, limit, p0 + (j - so) * bits, bits as nat)),
            scf@ =~= Seq::new(s0.len(), |j: int| if so <= j < so + k { (v(j) % 256) as u8 } else { s0[j] }),
            ist@ =~= Seq::new(i0.len(), |j: int| if so <= j < so + k {
                if v(j) == max { 255u8 } else { (v(j) % 256) as u8 }
            } else {
                i0[j]
            }),
        decreases cnt - k,
    {
        proof {
            assert(k * bits + bits <= 255 * 25) by (nonlinear_arith)
                requires k < cnt <= 255, bits <= 25;
            assert((k + 1) * bits == k * bits + bits) by (nonlinear_arith);
            assert(p0 + ((so + k) - so) * bits == p0 + k * bits);
        }
        let g = bs.get_bits(bits);
        proof {
            if !(bs.pos > limit) {
                crate::mp3::bits::lemma_bits_bound(buf, p0 + k * bits, bits as nat);
            }
            vstd::arithmetic::power2::lemma2_to64();
            vstd::arithmetic::power2::lemma_pow2_strictly_increases(bits as nat, 31);
            assert(g as int == v((so + k) as int));
        }
        let s = g as i32;
        proof {
            assert((s as u8) as int == (s as int) % 256) by (bit_vector)
                requires 0 <= s;
        }
        ist.set(so + k, if s == max { 255 } else { s as u8 });
        scf.set(so + k, s as u8);
        k = k + 1;
    }
}

/// Reads the scale factors of one granule channel into `scf`, keeping the
/// intensity-stereo positions in `ist_pos`.
pub fn read_scalefactors(
    scf: &mut Vec<u8>,
    ist_pos: &mut Vec<u8>,
    scf_size: &[u8; 4],
    scf_count: &[u8],
    bs: &mut Bits,
    scfsi: i32,
)
    requires
        old(bs).wf(),
        old(bs).pos + 4 * 255 * 25 <= usize::MAX,
        scf_count@.len() >= 4,
        forall|i: int| 0 <= i < 4 ==> scf_size@[i] <= 25,
        group_start(scf_count@, 4) + 3 <= old(scf)@.len(),
        group_start(scf_count@, 4) <= old(ist_pos)@.len(),
        -0x100_0000 <= scfsi <= 0x100_0000,
    ensures
        final(bs).buf@ == old(bs).buf@,
        final(bs).limit == old(bs).limit,
        final(bs).wf(),
        old(bs).pos <= final(bs).pos <= old(bs).pos + 4 * 255 * 25,
        final(ist_pos)@.len() == old(ist_pos)@.len(),
        (final(scf)@, final(ist_pos)@, final(bs).pos as int) == scf_groups(
            old(bs).buf@,
            old(bs).limit as int,
            old(bs).pos as int,
            scf_size@,
            scf_count@,
            scfsi as int,
            0,
            0,
            old(scf)@,
            old(ist_pos)@,
        ),
{
    let ghost buf = bs.buf@;
    let ghost limit = bs.limit as int;
    let ghost target = scf_groups(buf, limit, bs.pos as int, scf_size@, scf_count@, scfsi as int, 0, 0, scf@, ist_pos@);
    let ghost pos0 = bs.pos as int;
    let mut so: usize = 0;
    let mut i: usize = 0;
    let mut si: i32 = scfsi;
    let scf_len = scf.len();
    let ist_len = ist_pos.len();
    proof {
        lemma_group_start_mono(scf_count@, 0, 4);
        vstd::arithmetic::power2::lemma2_to64();
    }
    loop
        invariant
            i <= 4,
            scf_len == scf@.len(),
            ist_len == ist_pos@.len(),
            bs.wf(),
            bs.buf@ == buf,
            bs.limit == limit,
            bs.pos + (4 - i) * 255 * 25 <= usize::MAX,
            pos0 <= bs.pos <= pos0 + i * 255 * 25,
            scf_count@.len() >= 4,
            forall|k: int| 0 <= k < 4 ==> scf_size@[k] <= 25,
            so == group_start(scf_count@, i as int),
            group_start(scf_count@, 4) + 3 <= scf@.len(),
            group_start(scf_count@, 4) <= ist_pos@.len(),
            si as int == scfsi * vstd::arithmetic::power2::pow2(i as nat),
            -0x100_0000 <= scfsi <= 0x100_0000,
            target == scf_groups(buf, limit, bs.pos as int, scf_size@, scf_count@, si as int, i as int, so as int, scf@, ist_pos@),
        ensures
            i >= 4 || scf_count@[i as int] == 0,
            i <= 4,
            pos0 <= bs.pos <= pos0 + i * 255 * 25,
            so == group_start(scf_count@, i as int),
            group_start(scf_count@, 4) + 3 <= scf@.len(),
            target == scf_groups(buf, limit, bs.pos as int, scf_size@, scf_count@, si as int, i as int, so as int, scf@, ist_pos@),
        decreases 4 - i,
    {
        if i >= 4 || scf_count[i] == 0 {
            break;
        }
        let cnt = scf_count[i] as usize;
        proof {
            lemma_group_start_mono(scf_count@, (i + 1) as int, 4);
            vstd::arithmetic::power2::lemma2_to64();
            vstd::arithmetic::power2::lemma_pow2_unfold((i + 1) as nat);
            vstd::arithmetic::power2::lemma_pow2_pos(i as nat);
            if i < 4 {
                vstd::arithmetic::power2::lemma_pow2_strictly_increases(i as nat, 4);
            }
            assert(-0x1000_0000 <= si <= 0x1000_0000) by (nonlinear_arith)
                requires si == scfsi * vstd::arithmetic::power2::pow2(i as nat), -0x100_0000 <= scfsi <= 0x100_0000,
                    0 < vstd::arithmetic::power2::pow2(i as nat) <= 16;
            assert(2 * si == scfsi * vstd::arithmetic::power2::pow2((i + 1) as nat)) by (nonlinear_arith)
                requires si == scfsi * vstd::arithmetic::power2::pow2(i as nat),
                    vstd::arithmetic::power2::pow2((i + 1) as nat) == 2 * vstd::arithmetic::power2::pow2(i as nat);
        }
        let ghost step = scf_group(buf, limit, bs.pos as int, scf_size@[i as int] as nat, cnt as int, si as int, so as int, scf@, ist_pos@);
        if si & 8 != 0 {
            copy_group(scf, ist_pos, so, cnt);
        } else {
            let bits = scf_size[i] as u32;
            if bits == 0 {
                clear_group(scf, ist_pos, so, cnt);
            } else {
                let max_scf: i32 = if si < 0 { crate::arith::pow2_i32(bits) - 1 } else { -1 };
                read_group(scf, ist_pos, so, cnt, bits, max_scf, bs);
                proof {
                    assert(cnt * bits <= 255 * 25) by (nonlinear_arith)
                        requires cnt <= 255, bits <= 25;
                }
            }
        }
        proof {
            assert(scf@ =~= step.0);
            assert(ist_pos@ =~= step.1);
            assert(bs.pos as int == step.2);
        }
        so = so + cnt;
        si = si * 2;
        i = i + 1;
    }
    proof {
        lemma_group_start_mono(scf_count@, i as int, 4);
    }
    scf.set(so, 0);
    scf.set(so + 1, 0);
    scf.set(so + 2, 0);
}

} // verus!
