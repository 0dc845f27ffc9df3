//! The pulse cache of a CELT mode: for every band size, the bit cost of
//! each pseudo-pulse count, and the per-band caps on allocated bits.
use vstd::prelude::*;
use vstd::arithmetic::power2::*;
use crate::opus::celt::cwrs::{
    fits_in32, get_pulses, get_required_bits, pvq_v, spec_fits_in32, spec_get_pulses,
    spec_log2_frac,
};
use crate::opus::celt::tables::{BITRES, CELT_MAX_PULSES, LOG_MAX_PSEUDO, MAX_PSEUDO};
use crate::arith::{pow2_i32, shr_i32};

verus! {

/// 2^32: codebooks at least this large cannot be indexed.
pub open spec fn cap32() -> int {
    0x1_0000_0000
}

/// Pseudo-pulse level `t` is usable for size `n`: the RFC's limit tables
/// admit it and its codebook fits in 32 bits.
pub open spec fn pseudo_ok(n: int, t: int) -> bool {
    &&& spec_fits_in32(n, spec_get_pulses(t))
    &&& pvq_v(n as nat, spec_get_pulses(t) as nat) < cap32()
}

/// The highest usable level, counting up from `kk` while the next one is usable.
pub open spec fn max_pseudo_from(n: int, kk: int) -> int
    decreases MAX_PSEUDO - kk,
{
    if kk < MAX_PSEUDO && pseudo_ok(n, kk + 1) {
        max_pseudo_from(n, kk + 1)
    } else {
        kk
    }
}

pub open spec fn max_pseudo(n: int) -> int {
    max_pseudo_from(n, 0)
}

/// Bit cost, in 1/8 bit, of coding `k` pulses in `n` dimensions.
pub open spec fn pulse_cost(n: int, k: int) -> int {
    if n == 1 {
        8
    } else {
        spec_log2_frac(pvq_v(n as nat, k as nat), 3)
    }
}

/// The cache's entry for level `t` of size `n`: the cost minus one, as a byte.
pub open spec fn cost_byte(n: int, t: int) -> u8 {
    (pulse_cost(n, spec_get_pulses(t)) - 1) as u8
}

proof fn lemma_max_pseudo_bounds(n: int, kk: int)
    requires
        0 <= kk <= MAX_PSEUDO,
    ensures
        kk <= max_pseudo_from(n, kk) <= MAX_PSEUDO,
        forall|t: int| kk < t <= max_pseudo_from(n, kk) ==> pseudo_ok(n, t),
    decreases MAX_PSEUDO - kk,
{
    if kk < MAX_PSEUDO && pseudo_ok(n, kk + 1) {
        lemma_max_pseudo_bounds(n, kk + 1);
    }
}

proof fn lemma_get_pulses_8()
    ensures
        spec_get_pulses(8) == 8,
{
    lemma2_to64();
    assert(8int % 8 == 0);
    assert(8int / 8 == 1);
}

/// One level up raises the pulse count.
proof fn lemma_get_pulses_step(c: int)
    requires
        8 <= c < 191,
    ensures
        spec_get_pulses(c) < spec_get_pulses(c + 1),
{
    let b = c + 1;
    lemma_pow2_pos((c / 8 - 1) as nat);
    if c % 8 == 7 {
        assert(b / 8 == c / 8 + 1 && b % 8 == 0);
        lemma_pow2_unfold((b / 8 - 1) as nat);
    } else {
        assert(b / 8 == c / 8 && b % 8 == c % 8 + 1);
    }
    assert(spec_get_pulses(c) < spec_get_pulses(b)) by (nonlinear_arith)
        requires
            spec_get_pulses(c) == (8 + c % 8) * pow2((c / 8 - 1) as nat),
            spec_get_pulses(b) == (8 + b % 8) * pow2((b / 8 - 1) as nat),
            (b / 8 == c / 8 && b % 8 == c % 8 + 1) || (c % 8 == 7 && b % 8 == 0 && pow2((b / 8 - 1) as nat) == 2
                * pow2((c / 8 - 1) as nat)),
            pow2((c / 8 - 1) as nat) > 0;
}

/// The pulse count of a level grows strictly with the level.
pub proof fn lemma_get_pulses_mono(a: int, b: int)
    requires
        0 <= a <= b <= 191,
    ensures
        spec_get_pulses(a) <= spec_get_pulses(b),
        a < b ==> spec_get_pulses(a) < spec_get_pulses(b),
        a >= 1 ==> spec_get_pulses(a) >= 1,
    decreases b - a,
{
    if a < b {
        lemma_get_pulses_mono(a, b - 1);
        if b - 1 >= 8 {
            lemma_get_pulses_step(b - 1);
        } else if b == 8 {
            lemma_get_pulses_8();
        }
    }
    if a >= 8 {
        lemma_pow2_pos((a / 8 - 1) as nat);
        assert((8 + a % 8) * pow2((a / 8 - 1) as nat) >= 1) by (nonlinear_arith)
            requires pow2((a / 8 - 1) as nat) > 0;
    }
}

/// `min(x, 2^32)`.
pub open spec fn capped(x: int) -> int {
    if x < cap32() {
        x
    } else {
        cap32()
    }
}

/// `row[k] == min(V(n, k), 2^32)` for `k` in `0..=kmax`.
fn capped_v_row(n: usize, kmax: usize) -> (row: Vec<u64>)
    requires
        kmax < usize::MAX,
    ensures
        row@.len() == kmax + 1,
        forall|k: int| 0 <= k <= kmax ==> row@[k] as int == capped(pvq_v(n as nat, k as nat) as int),
{
    let mut row: Vec<u64> = Vec::new();
    row.push(1);
    let mut k: usize = 1;
    while k <= kmax
        invariant
            1 <= k <= kmax + 1,
            kmax < usize::MAX,
            row@.len() == k,
            forall|t: int| 0 <= t < k ==> row@[t] as int == capped(pvq_v(0, t as nat) as int),
        decreases kmax + 1 - k,
    {
        row.push(0);
        k += 1;
    }
    let mut m: usize = 0;
    while m < n
        invariant
            m <= n,
            kmax < usize::MAX,
            row@.len() == kmax + 1,
            forall|t: int| 0 <= t <= kmax ==> row@[t] as int == capped(pvq_v(m as nat, t as nat) as int),
        decreases n - m,
    {
        let mut prev_old: u64 = row[0];
        let mut j: usize = 1;
        while j <= kmax
            invariant
                1 <= j <= kmax + 1,
                kmax < usize::MAX,
                m < n,
                row@.len() == kmax + 1,
                prev_old as int == capped(pvq_v(m as nat, (j - 1) as nat) as int),
                forall|t: int| 0 <= t < j ==> row@[t] as int == capped(pvq_v((m + 1) as nat, t as nat) as int),
                forall|t: int| j <= t <= kmax ==> row@[t] as int == capped(pvq_v(m as nat, t as nat) as int),
            decreases kmax + 1 - j,
        {
            let old_j = row[j];
            let s = old_j + row[j - 1] + prev_old;
            let v = if s < 0x1_0000_0000 { s } else { 0x1_0000_0000 };
            assert(pvq_v((m + 1) as nat, j as nat) == pvq_v(m as nat, j as nat) + pvq_v((m + 1) as nat, (j - 1) as nat)
                + pvq_v(m as nat, (j - 1) as nat));
            row.set(j, v);
            prev_old = old_j;
            j += 1;
        }
        proof {
            assert(pvq_v((m + 1) as nat, 0) == 1);
        }
        m += 1;
    }
    row
}

/// The highest usable pseudo-pulse level for band size `n`.
fn max_pseudo_level(n: i32) -> (kk: i32)
    requires
        n >= 1,
    ensures
        kk == max_pseudo(n as int),
        0 <= kk <= MAX_PSEUDO,
{
    let row = capped_v_row(n as usize, CELT_MAX_PULSES as usize);
    let mut kk: i32 = 0;
    proof {
        lemma_max_pseudo_bounds(n as int, 0);
    }
    while kk < MAX_PSEUDO
        invariant
            0 <= kk <= MAX_PSEUDO,
            n >= 1,
            row@.len() == CELT_MAX_PULSES + 1,
            forall|k: int| 0 <= k <= CELT_MAX_PULSES ==> row@[k] as int == capped(pvq_v(n as nat, k as nat) as int),
            max_pseudo(n as int) == max_pseudo_from(n as int, kk as int),
        decreases MAX_PSEUDO - kk,
    {
        let p = get_pulses(kk + 1);
        proof {
            lemma_get_pulses_mono(kk + 1, 40);
            lemma2_to64();
            assert(spec_get_pulses(40) == 128);
        }
        if fits_in32(n, p) && row[p as usize] < 0x1_0000_0000 {
            kk += 1;
        } else {
            return kk;
        }
    }
    kk
}

/// Width of band `j`, in bins at the shortest frame size.
pub open spec fn width(eb: Seq<i32>, j: int) -> int {
    eb[j + 1] - eb[j]
}

/// The band size that the cache keys on at resolution `i`: half the band's
/// width at `2^i` times the shortest frame.
pub open spec fn cache_size(eb: Seq<i32>, i: int, j: int) -> int {
    width(eb, j) * pow2(i as nat) / 2
}

/// Position of band `j` at resolution `i` in the index table.
pub open spec fn slot(nb: int, i: int, j: int) -> int {
    i * nb + j
}

/// `(k, nn)` comes before `(i, j)` in the scan order of the index table.
pub open spec fn before(k: int, nn: int, i: int, j: int) -> bool {
    k < i || (k == i && nn < j)
}

pub proof fn lemma_slot(nb: int, rows: int)
    requires
        nb >= 1,
        rows >= 0,
    ensures
        forall|k: int, nn: int, i: int, j: int|
            0 <= k && 0 <= nn < nb && 0 <= j < nb && before(k, nn, i, j) ==> #[trigger] slot(nb, k, nn)
                < #[trigger] slot(nb, i, j),
        forall|k: int, nn: int|
            0 <= k < rows && 0 <= nn < nb ==> 0 <= #[trigger] slot(nb, k, nn) < rows * nb,
{
    assert forall|k: int, nn: int, i: int, j: int|
        0 <= k && 0 <= nn < nb && 0 <= j < nb && before(k, nn, i, j) implies #[trigger] slot(nb, k, nn)
            < #[trigger] slot(nb, i, j) by {
        if k < i {
            assert(k * nb + nb <= i * nb) by (nonlinear_arith)
                requires k < i, nb >= 1;
        }
    }
    assert forall|k: int, nn: int| 0 <= k < rows && 0 <= nn < nb implies 0 <= #[trigger] slot(nb, k, nn)
        < rows * nb by {
        assert(0 <= k * nb && k * nb + nb <= rows * nb) by (nonlinear_arith)
            requires 0 <= k < rows, nb >= 1;
    }
}

/// The band layout that the cache is built for: at least one band, widths
/// of 1 to 64 bins, at most 3 doublings of the frame, and `log_n` large
/// enough that the split offsets of the cap computation stay non-negative.
pub open spec fn layout_ok(eb: Seq<i32>, nb: int, log_n: Seq<i32>, lm: int) -> bool {
    &&& 1 <= nb
    &&& nb + 1 <= eb.len()
    &&& nb <= log_n.len()
    &&& 0 <= lm <= 3
    &&& (lm + 2) * nb <= 799
    &&& forall|j: int| 0 <= j < nb ==> 1 <= #[trigger] width(eb, j) <= 64
    &&& forall|j: int|
        0 <= j < nb ==> 0 <= #[trigger] log_n[j] <= 512 && (width(eb, j) == 2 ==> log_n[j] >= 8) && (
        width(eb, j) > 2 ==> log_n[j] >= 16)
}

/// The cache entry at `base` describes band size `n`: its highest level,
/// then the cost byte of each level.
pub open spec fn entry_ok(bits: Seq<u8>, base: int, n: int) -> bool {
    &&& 0 <= base
    &&& base + max_pseudo(n) < bits.len()
    &&& bits[base] as int == max_pseudo(n)
    &&& forall|t: int| 1 <= t <= max_pseudo(n) ==> #[trigger] bits[base + t] == cost_byte(n, t)
}

/// The entry list of the index table: sizes, highest levels and offsets,
/// laid out one after the other from offset 0 up to `curr`.
pub open spec fn entries_ok(en: Seq<i32>, ek: Seq<i32>, ei: Seq<i32>, curr: int) -> bool {
    &&& en.len() == ek.len() == ei.len()
    &&& forall|e: int|
        0 <= e < en.len() ==> 1 <= #[trigger] en[e] <= 1024 && ek[e] == max_pseudo(en[e] as int) && 0
            <= ei[e] && ei[e] + ek[e] + 1 <= curr
    &&& forall|e1: int, e2: int|
        0 <= e1 < e2 < en.len() ==> #[trigger] ei[e1] + ek[e1] + 1 <= #[trigger] ei[e2]
}

/// Slot `(k, nn)` of the index table: -1 for size 0, else the offset of the
/// entry `ent` for its size.
pub open spec fn slot_ok(
    eb: Seq<i32>,
    nb: int,
    cindex: Seq<i16>,
    en: Seq<i32>,
    ei: Seq<i32>,
    ent: Seq<int>,
    k: int,
    nn: int,
) -> bool {
    let q = slot(nb, k, nn);
    &&& cache_size(eb, k, nn) == 0 ==> cindex[q] == -1
    &&& cache_size(eb, k, nn) != 0 ==> 0 <= ent[q] < en.len() && cindex[q] as int == ei[ent[q]] as int
        && en[ent[q]] as int == cache_size(eb, k, nn)
}

/// `n` for band `j` at resolution `i`.
fn band_size(e_bands: &[i32], j: usize, i: usize) -> (n: i32)
    requires
        j + 1 < e_bands@.len(),
        1 <= width(e_bands@, j as int) <= 64,
        i <= 4,
    ensures
        n as int == cache_size(e_bands@, i as int, j as int),
        0 <= n <= 512,
{
    let len = e_bands.len();
    let w = e_bands[j + 1] - e_bands[j];
    let p = pow2_i32(i as u32);
    proof {
        lemma2_to64();
        lemma_pow2_strictly_increases(i as nat, 5);
        assert(w * p <= 64 * 16) by (nonlinear_arith)
            requires 1 <= w <= 64, 1 <= p <= 16;
        assert(w * p >= 0) by (nonlinear_arith)
            requires 1 <= w, 1 <= p;
    }
    shr_i32(w * p, 1)
}

/// Every slot before `(i, j)` is filled, and slots of equal size agree.
pub open spec fn done_ok(
    eb: Seq<i32>,
    nb: int,
    cindex: Seq<i16>,
    en: Seq<i32>,
    ei: Seq<i32>,
    ent: Seq<int>,
    i: int,
    j: int,
) -> bool {
    &&& forall|k: int, nn: int|
        0 <= k && 0 <= nn < nb && before(k, nn, i, j) ==> #[trigger] slot_ok(eb, nb, cindex, en, ei, ent, k, nn)
    &&& forall|k: int, nn: int, k2: int, nn2: int|
        0 <= k && 0 <= nn < nb && before(k, nn, i, j) && 0 <= k2 && 0 <= nn2 < nb && before(k2, nn2, i, j)
            && #[trigger] cache_size(eb, k, nn) == #[trigger] cache_size(eb, k2, nn2) ==> cindex[slot(nb, k, nn)]
            == cindex[slot(nb, k2, nn2)]
}

/// Builds the index table: each nonzero band size gets one entry, in order
/// of first appearance; every slot of that size points at it.
fn build_index(e_bands: &[i32], nb: usize, log_n: &[i32], lm: usize) -> (r: (
    Vec<i16>,
    Vec<i32>,
    Vec<i32>,
    Vec<i32>,
    i32,
    Ghost<Seq<int>>,
))
    requires
        layout_ok(e_bands@, nb as int, log_n@, lm as int),
    ensures
        r.0@.len() == (lm + 2) * nb,
        entries_ok(r.1@, r.2@, r.3@, r.4 as int),
        0 <= r.4 <= 32767,
        r.5@.len() == (lm + 2) * nb,
        done_ok(e_bands@, nb as int, r.0@, r.1@, r.3@, r.5@, (lm + 2) as int, 0),
{
    let nsl = (lm + 2) * nb;
    let mut cindex = vec![0i16; nsl];
    let mut entry_n: Vec<i32> = Vec::new();
    let mut entry_k: Vec<i32> = Vec::new();
    let mut entry_i: Vec<i32> = Vec::new();
    let mut curr: i32 = 0;
    let ghost mut ent: Seq<int> = Seq::new(nsl as nat, |q: int| 0int);
    let ghost eb = e_bands@;
    let mut i: usize = 0;
    while i < lm + 2
        invariant
            layout_ok(eb, nb as int, log_n@, lm as int),
            eb == e_bands@,
            nsl == (lm + 2) * nb,
            i <= lm + 2,
            cindex@.len() == nsl,
            ent.len() == nsl,
            entries_ok(entry_n@, entry_k@, entry_i@, curr as int),
            0 <= curr <= 41 * slot(nb as int, i as int, 0),
            done_ok(eb, nb as int, cindex@, entry_n@, entry_i@, ent, i as int, 0),
        decreases lm + 2 - i,
    {
        let mut j: usize = 0;
        while j < nb
            invariant
                layout_ok(eb, nb as int, log_n@, lm as int),
                eb == e_bands@,
                nsl == (lm + 2) * nb,
                i < lm + 2,
                j <= nb,
                cindex@.len() == nsl,
                ent.len() == nsl,
                entries_ok(entry_n@, entry_k@, entry_i@, curr as int),
                0 <= curr <= 41 * slot(nb as int, i as int, j as int),
                done_ok(eb, nb as int, cindex@, entry_n@, entry_i@, ent, i as int, j as int),
            decreases nb - j,
        {
            proof {
                lemma_slot(nb as int, (lm + 2) as int);
                assert(0 <= slot(nb as int, i as int, j as int) < (lm + 2) * nb);
            }
            assert(1 <= width(eb, j as int) <= 64);
            let n = band_size(e_bands, j, i);
            let p = i * nb + j;
            let ghost cpre = cindex@;
            cindex.set(p, -1);
            let ghost c0 = cindex@;
            let mut found = false;
            let ghost mut fk: int = 0;
            let ghost mut fnn: int = 0;
            let mut k: usize = 0;
            while k <= i && !found
                invariant
                    layout_ok(eb, nb as int, log_n@, lm as int),
                    eb == e_bands@,
                    i < lm + 2,
                    j < nb,
                    p == slot(nb as int, i as int, j as int),
                    p < nsl,
                    n as int == cache_size(eb, i as int, j as int),
                    k <= i + 1,
                    cindex@.len() == nsl,
                    c0.len() == nsl,
                    forall|q: int| 0 <= q < nsl && q != p ==> cindex@[q] == c0[q],
                    found ==> before(fk, fnn, i as int, j as int) && 0 <= fk && 0 <= fnn < nb
                        && cache_size(eb, fk, fnn) == n && cindex@[p as int] == c0[slot(nb as int, fk, fnn)],
                    !found ==> cindex@[p as int] == -1,
                    !found ==> forall|k2: int, nn2: int|
                        0 <= k2 < k && 0 <= nn2 < nb && before(k2, nn2, i as int, j as int)
                            ==> #[trigger] cache_size(eb, k2, nn2) != n,
                decreases i + 1 - k,
            {
                let mut nn: usize = 0;
                while nn < nb && (k != i || nn < j) && !found
                    invariant
                        layout_ok(eb, nb as int, log_n@, lm as int),
                        eb == e_bands@,
                        i < lm + 2,
                        j < nb,
                        k <= i,
                        nn <= nb,
                        k == i ==> nn <= j,
                        p == slot(nb as int, i as int, j as int),
                        p < nsl,
                        n as int == cache_size(eb, i as int, j as int),
                        cindex@.len() == nsl,
                        c0.len() == nsl,
                        forall|q: int| 0 <= q < nsl && q != p ==> cindex@[q] == c0[q],
                        found ==> before(fk, fnn, i as int, j as int) && 0 <= fk && 0 <= fnn < nb
                            && cache_size(eb, fk, fnn) == n && cindex@[p as int] == c0[slot(nb as int, fk, fnn)],
                        !found ==> cindex@[p as int] == -1,
                        !found ==> forall|k2: int, nn2: int|
                            0 <= nn2 < nb && ((0 <= k2 < k) || (k2 == k && nn2 < nn)) && before(
                                k2,
                                nn2,
                                i as int,
                                j as int,
                            ) ==> #[trigger] cache_size(eb, k2, nn2) != n,
                    decreases nb - nn + (if found { 0int } else { 1int }),
                {
                    assert(1 <= width(eb, nn as int) <= 64);
                    let n2 = band_size(e_bands, nn, k);
                    if n == n2 {
                        proof {
                            lemma_slot(nb as int, (lm + 2) as int);
                            assert(before(k as int, nn as int, i as int, j as int));
                            assert(slot(nb as int, k as int, nn as int) < slot(nb as int, i as int, j as int));
                        }
                        let q = k * nb + nn;
                        let v = cindex[q];
                        cindex.set(p, v);
                        found = true;
                        proof {
                            fk = k as int;
                            fnn = nn as int;
                        }
                    } else {
                        nn += 1;
                    }
                }
                k += 1;
            }
            proof {
                lemma_slot(nb as int, (lm + 2) as int);
                assert forall|k2: int, nn2: int|
                    0 <= k2 && 0 <= nn2 < nb && before(k2, nn2, i as int, j as int) implies
                    #[trigger] slot_ok(eb, nb as int, cindex@, entry_n@, entry_i@, ent, k2, nn2) by {
                    let s2 = slot(nb as int, k2, nn2);
                    assert(s2 < slot(nb as int, i as int, j as int));
                    assert(slot_ok(eb, nb as int, cpre, entry_n@, entry_i@, ent, k2, nn2));
                    assert(cindex@[s2] == c0[s2]);
                    assert(c0[s2] == cpre[s2]);
                }
                if !found {
                    assert forall|k2: int, nn2: int|
                        0 <= k2 && 0 <= nn2 < nb && before(k2, nn2, i as int, j as int) implies
                        #[trigger] cache_size(eb, k2, nn2) != n by {
                        assert(k2 < k);
                    }
                }
                if found {
                    assert(slot_ok(eb, nb as int, cindex@, entry_n@, entry_i@, ent, fk, fnn));
                    assert(slot(nb as int, fk, fnn) < slot(nb as int, i as int, j as int));
                }
            }
            let ghost e_old = entry_n@.len() as int;
            let ghost cx = cindex@;
            let ghost en0 = entry_n@;
            let ghost ei0 = entry_i@;
            let ghost ek0 = entry_k@;
            let ghost curr0 = curr as int;
            let ghost ent0 = ent;
            if cindex[p] == -1 && n != 0 {
                let kk = max_pseudo_level(n);
                entry_n.push(n);
                entry_k.push(kk);
                cindex.set(p, curr as i16);
                entry_i.push(curr);
                proof {
                    ent = ent.update(p as int, e_old);
                }
                curr = curr + kk + 1;
                proof {
                    assert forall|e: int| 0 <= e < entry_n@.len() implies 1 <= #[trigger] entry_n@[e] <= 1024
                        && entry_k@[e] == max_pseudo(entry_n@[e] as int) && 0 <= entry_i@[e] && entry_i@[e]
                        + entry_k@[e] + 1 <= curr by {
                        if e < e_old {
                            assert(entry_n@[e] == en0[e]);
                        }
                    }
                    assert forall|e1: int, e2: int| 0 <= e1 < e2 < entry_n@.len() implies #[trigger] entry_i@[e1]
                        + entry_k@[e1] + 1 <= #[trigger] entry_i@[e2] by {
                        assert(entry_i@[e1] == ei0[e1] && entry_k@[e1] == ek0[e1]);
                        assert(1 <= en0[e1]);
                        assert(ei0[e1] + ek0[e1] + 1 <= curr0);
                        if e2 < e_old {
                            assert(entry_i@[e2] == ei0[e2]);
                        } else {
                            assert(entry_i@[e2] == curr0);
                        }
                    }
                }
            } else if found {
                proof {
                    ent = ent.update(p as int, ent[slot(nb as int, fk, fnn)]);
                }
            }
            proof {
                lemma_slot(nb as int, (lm + 2) as int);
                assert forall|k2: int, nn2: int|
                    0 <= k2 && 0 <= nn2 < nb && before(k2, nn2, i as int, (j + 1) as int) implies
                    #[trigger] slot_ok(eb, nb as int, cindex@, entry_n@, entry_i@, ent, k2, nn2) by {
                    if before(k2, nn2, i as int, j as int) {
                        assert(slot(nb as int, k2, nn2) < slot(nb as int, i as int, j as int));
                        assert(slot_ok(eb, nb as int, cx, en0, ei0, ent0, k2, nn2));
                    } else {
                        assert(k2 == i && nn2 == j);
                        if found {
                            assert(slot(nb as int, fk, fnn) < slot(nb as int, i as int, j as int));
                            assert(slot_ok(eb, nb as int, cx, en0, ei0, ent0, fk, fnn));
                        }
                    }
                }
                assert forall|k1: int, nn1: int, k2: int, nn2: int|
                    0 <= k1 && 0 <= nn1 < nb && before(k1, nn1, i as int, (j + 1) as int) && 0 <= k2 && 0
                        <= nn2 < nb && before(k2, nn2, i as int, (j + 1) as int) && #[trigger] cache_size(
                        eb,
                        k1,
                        nn1,
                    ) == #[trigger] cache_size(eb, k2, nn2) implies cindex@[slot(nb as int, k1, nn1)]
                    == cindex@[slot(nb as int, k2, nn2)] by {
                    let s1 = slot(nb as int, k1, nn1);
                    let s2 = slot(nb as int, k2, nn2);
                    if before(k1, nn1, i as int, j as int) {
                        assert(s1 < p);
                        assert(cindex@[s1] == cx[s1]);
                        assert(cx[s1] == c0[s1]);
                        assert(cindex@[s1] == cpre[s1]);
                    }
                    if before(k2, nn2, i as int, j as int) {
                        assert(s2 < p);
                        assert(cindex@[s2] == cx[s2]);
                        assert(cx[s2] == c0[s2]);
                        assert(cindex@[s2] == cpre[s2]);
                    }
                    if found {
                        let sf = slot(nb as int, fk, fnn);
                        assert(sf < p);
                        assert(cx[p as int] == cpre[sf]);
                        if before(k1, nn1, i as int, j as int) && !before(k2, nn2, i as int, j as int) {
                            assert(cache_size(eb, k1, nn1) == cache_size(eb, fk, fnn));
                            assert(cpre[s1] == cpre[sf]);
                            assert(s2 == p);
                        }
                        if before(k2, nn2, i as int, j as int) && !before(k1, nn1, i as int, j as int) {
                            assert(cache_size(eb, k2, nn2) == cache_size(eb, fk, fnn));
                            assert(cpre[s2] == cpre[sf]);
                            assert(s1 == p);
                        }
                    } else {
                        if before(k1, nn1, i as int, j as int) && !before(k2, nn2, i as int, j as int) {
                            assert(k2 == i && nn2 == j);
                            assert(cache_size(eb, k1, nn1) != n);
                        }
                        if before(k2, nn2, i as int, j as int) && !before(k1, nn1, i as int, j as int) {
                            assert(k1 == i && nn1 == j);
                            assert(cache_size(eb, k2, nn2) != n);
                        }
                    }
                }
                assert(entries_ok(entry_n@, entry_k@, entry_i@, curr as int));
            }
            j += 1;
        }
        proof {
            assert((i + 1) * nb == i * nb + nb) by (nonlinear_arith);
        }
        i += 1;
    }
    proof {
        assert((lm + 2) * nb <= 799);
    }
    (cindex, entry_n, entry_k, entry_i, curr, Ghost(ent))
}

/// Lays out the entries: at each offset the highest level, then the cost
/// byte of every level up to it.
fn fill_bits(entry_n: &Vec<i32>, entry_k: &Vec<i32>, entry_i: &Vec<i32>, curr: i32) -> (bits: Vec<u8>)
    requires
        entries_ok(entry_n@, entry_k@, entry_i@, curr as int),
        0 <= curr <= 32767,
    ensures
        bits@.len() == curr,
        forall|e: int| 0 <= e < entry_n@.len() ==> entry_ok(bits@, #[trigger] entry_i@[e] as int, entry_n@[e] as int),
{
    let mut bits = vec![0u8; curr as usize];
    let ne = entry_n.len();
    let mut e: usize = 0;
    while e < ne
        invariant
            entries_ok(entry_n@, entry_k@, entry_i@, curr as int),
            ne == entry_n@.len(),
            e <= ne,
            bits@.len() == curr,
            forall|e1: int| 0 <= e1 < e ==> entry_ok(bits@, #[trigger] entry_i@[e1] as int, entry_n@[e1] as int),
        decreases ne - e,
    {
        let base = entry_i[e] as usize;
        let n = entry_n[e];
        let kmax = entry_k[e];
        assert(1 <= entry_n@[e as int] <= 1024);
        proof {
            lemma_max_pseudo_bounds(n as int, 0);
            lemma_get_pulses_mono(kmax as int, 40);
            lemma2_to64();
            assert(spec_get_pulses(40) == 128);
            if kmax == 0 {
                assert(spec_get_pulses(0) == 0);
            } else {
                assert(pseudo_ok(n as int, kmax as int));
            }
        }
        let gp = get_pulses(kmax);
        let mut tmp = vec![0i16; (CELT_MAX_PULSES + 1) as usize];
        get_required_bits(&mut tmp, n as usize, gp as usize, BITRES);
        let ghost b0 = bits@;
        let mut t: i32 = 1;
        while t <= kmax
            invariant
                entries_ok(entry_n@, entry_k@, entry_i@, curr as int),
                ne == entry_n@.len(),
                e < ne,
                base == entry_i@[e as int],
                n == entry_n@[e as int],
                kmax == entry_k@[e as int],
                kmax == max_pseudo(n as int),
                0 <= kmax <= MAX_PSEUDO,
                1 <= t <= kmax + 1,
                gp as int == spec_get_pulses(kmax as int),
                gp <= 128,
                tmp@.len() == CELT_MAX_PULSES + 1,
                forall|k: int|
                    1 <= k <= gp ==> #[trigger] tmp@[k] as int == if n == 1 {
                        pow2(3) as int
                    } else {
                        spec_log2_frac(pvq_v(n as nat, k as nat), 3)
                    },
                bits@.len() == curr,
                b0.len() == curr,
                forall|q: int| 0 <= q < curr && !(base < q < base + t) ==> bits@[q] == b0[q],
                forall|t1: int| 1 <= t1 < t ==> #[trigger] bits@[base + t1] == cost_byte(n as int, t1),
            decreases kmax + 1 - t,
        {
            proof {
                lemma_get_pulses_mono(t as int, kmax as int);
                lemma2_to64();
            }
            let g = get_pulses(t);
            let v = tmp[g as usize];
            proof {
                assert(v as int == pulse_cost(n as int, spec_get_pulses(t as int)));
            }
            bits.set(base + t as usize, (v as i32 - 1) as u8);
            t += 1;
        }
        bits.set(base, kmax as u8);
        proof {
            assert forall|e1: int| 0 <= e1 <= e implies entry_ok(bits@, #[trigger] entry_i@[e1] as int,
                entry_n@[e1] as int) by {
                if e1 < e {
                    assert(1 <= entry_n@[e1]);
                    assert(entry_i@[e1] + entry_k@[e1] + 1 <= entry_i@[e as int]);
                    assert(entry_ok(b0, entry_i@[e1] as int, entry_n@[e1] as int));
                    assert forall|t1: int| 1 <= t1 <= max_pseudo(entry_n@[e1] as int) implies #[trigger] bits@[
                        entry_i@[e1] + t1] == cost_byte(entry_n@[e1] as int, t1) by {
                        assert(bits@[entry_i@[e1] + t1] == b0[entry_i@[e1] + t1]);
                    }
                } else {
                    assert forall|t1: int| 1 <= t1 <= max_pseudo(n as int) implies #[trigger] bits@[base + t1]
                        == cost_byte(n as int, t1) by {
                        assert(base + t1 != base);
                    }
                }
            }
        }
        e += 1;
    }
    bits
}

/// Division rounding towards zero, as `i32` division does.
pub open spec fn tdiv(a: int, d: int) -> int {
    if a >= 0 {
        a / d
    } else {
        -((-a) / d)
    }
}

pub proof fn lemma_tdiv_bound(a: int, d: int)
    requires
        d >= 1,
    ensures
        a >= 0 ==> 0 <= tdiv(a, d) <= a,
        a < 0 ==> a <= tdiv(a, d) <= 0,
        a >= 0 ==> tdiv(a, d) * d <= a,
        a < 0 ==> -a >= -tdiv(a, d) * d,
        a >= 0 ==> 0 <= a - d * tdiv(a, d) < d,
        a < 0 ==> -d < a - d * tdiv(a, d) <= 0,
{
    if a >= 0 {
        vstd::arithmetic::div_mod::lemma_fundamental_div_mod(a, d);
        vstd::arithmetic::div_mod::lemma_div_pos_is_pos(a, d);
        vstd::arithmetic::div_mod::lemma_mod_bound(a, d);
        assert(a / d <= a && (a / d) * d <= a) by (nonlinear_arith)
            requires a >= 0, d >= 1, a / d >= 0, d * (a / d) + a % d == a, a % d >= 0;
        assert(a - d * (a / d) == a % d);
    } else {
        vstd::arithmetic::div_mod::lemma_fundamental_div_mod(-a, d);
        vstd::arithmetic::div_mod::lemma_div_pos_is_pos(-a, d);
        vstd::arithmetic::div_mod::lemma_mod_bound(-a, d);
        assert((-a) / d <= -a && ((-a) / d) * d <= -a) by (nonlinear_arith)
            requires -a >= 0, d >= 1, (-a) / d >= 0, d * ((-a) / d) + (-a) % d == -a, (-a) % d >= 0;
        assert(a - d * (-((-a) / d)) == -((-a) % d)) by (nonlinear_arith)
            requires d * ((-a) / d) + (-a) % d == -a;
    }
}

pub open spec fn min_int(a: int, b: int) -> int {
    if a <= b {
        a
    } else {
        b
    }
}

/// Bits of the highest level of size `n`, as the cache stores them.
pub open spec fn max_cost(n: int) -> int {
    if max_pseudo(n) == 0 {
        0
    } else {
        cost_byte(n, max_pseudo(n)) as int
    }
}

/// One split level of the cap: double the bits and add what the split angle
/// can carry, at most 57.
pub open spec fn split_step(log_nj: int, lm0: int, k: int, nn: int, mb: int) -> int {
    let mb2 = mb * 2;
    let offset = (log_nj + (lm0 + k) * 8) / 2 - 4;
    let num = 459 * ((2 * nn - 1) * offset + mb2);
    let den = (2 * nn - 1) * 512 - 459;
    mb2 + min_int(tdiv(num + den / 2, den), 57)
}

/// Split levels `k .. steps`, doubling the size at each: (bits, final size).
pub open spec fn split_bits(log_nj: int, lm0: int, k: int, steps: int, nn: int, mb: int) -> (int, int)
    decreases steps - k,
{
    if k >= steps {
        (mb, nn)
    } else {
        split_bits(log_nj, lm0, k + 1, steps, nn * 2, split_step(log_nj, lm0, k, nn, mb))
    }
}

/// The stereo split of a band of `nn` bins.
pub open spec fn stereo_step(log_nj: int, i: int, nn: int, mb: int) -> int {
    let mb2 = mb * 2;
    let offset = (log_nj + i * 8) / 2 - if nn == 2 { 16int } else { 4int };
    let ndof = 2 * nn - 1 - if nn == 2 { 1int } else { 0int };
    let m = if nn == 2 { 512int } else { 487int };
    let num = m * (mb2 + ndof * offset);
    let den = ndof * 512 - m;
    mb2 + min_int(tdiv(num + den / 2, den), if nn == 2 { 64int } else { 61int })
}

/// The fine-energy bits added on top of the shape bits.
pub open spec fn fine_step(log_nj: int, i: int, c: int, nn: int, mb: int) -> int {
    let ndof = c * nn + if c == 2 && nn > 2 { 1int } else { 0int };
    let offset = (log_nj + i * 8) / 2 - 21 + if nn == 2 { 2int } else { 0int };
    let num = mb + ndof * offset;
    let den = (ndof - 1) * 8;
    mb + c * min_int(tdiv(num + den / 2, den), 8) * 8
}

/// Size and resolution at which band `j` of width `w` enters the split
/// recursion: halved for wide bands, doubled up to 2 for single bins.
pub open spec fn cap_start(w: int, i: int) -> (int, int) {
    if w > 2 {
        (w / 2, -1)
    } else if w <= 1 {
        let l = min_int(i, 1);
        (w * pow2(l as nat), l)
    } else {
        (w, 0)
    }
}

/// The most bits band `j` can use at resolution `i` with `c` channels.
pub open spec fn cap_bits(eb: Seq<i32>, log_n: Seq<i32>, i: int, c: int, j: int) -> int {
    let w = width(eb, j);
    if w * pow2(i as nat) == 1 {
        c * 72
    } else {
        let (n0, lm0) = cap_start(w, i);
        let (mb1, nn) = split_bits(log_n[j] as int, lm0, 0, i - lm0, n0, max_cost(n0) + 1);
        let mb2 = if c == 2 { stereo_step(log_n[j] as int, i, nn, mb1) } else { mb1 };
        fine_step(log_n[j] as int, i, c, nn, mb2)
    }
}

/// The cap byte: bits per bin and channel in 1/32 bit, less 64.
pub open spec fn cap_byte(eb: Seq<i32>, log_n: Seq<i32>, i: int, c: int, j: int) -> u8 {
    (tdiv(4 * cap_bits(eb, log_n, i, c, j), c * width(eb, j) * pow2(i as nat)) - 64) as u8
}

/// The index table and entries of a cache agree with the band layout.
pub open spec fn index_ok(eb: Seq<i32>, nb: int, lm: int, index: Seq<i16>, bits: Seq<u8>) -> bool {
    &&& index.len() == (lm + 2) * nb
    &&& forall|k: int, nn: int|
        0 <= k <= lm + 1 && 0 <= nn < nb ==> (#[trigger] cache_size(eb, k, nn) == 0 <==> index[slot(
            nb,
            k,
            nn,
        )] == -1) && (cache_size(eb, k, nn) != 0 ==> entry_ok(bits, index[slot(nb, k, nn)] as int, cache_size(eb, k, nn)))
}

/// The split levels of the cap computation.
fn split_cap(lg: i32, lm0: i32, steps: i32, n0: i32, mb0: i32) -> (r: (i32, i32))
    requires
        0 <= steps <= 4,
        -1 <= lm0 <= 1,
        0 <= lg <= 512,
        lg + lm0 * 8 >= 8,
        1 <= n0,
        n0 * pow2(steps as nat) <= 512,
        1 <= mb0 <= 256,
    ensures
        (r.0 as int, r.1 as int) == split_bits(lg as int, lm0 as int, 0, steps as int, n0 as int, mb0 as int),
        1 <= r.0 <= 313 * 16,
        r.1 == n0 * pow2(steps as nat),
{
    let mut max_bits = mb0;
    let mut nn = n0;
    let mut k: i32 = 0;
    proof {
        lemma2_to64();
        assert(n0 * pow2(0) == n0);
    }
    while k < steps
        invariant
            0 <= k <= steps <= 4,
            -1 <= lm0 <= 1,
            0 <= lg <= 512,
            lg + lm0 * 8 >= 8,
            1 <= n0,
            n0 * pow2(steps as nat) <= 512,
            nn == n0 * pow2(k as nat),
            1 <= max_bits,
            max_bits + 57 <= 313 * pow2(k as nat),
            pow2(k as nat) <= 16,
            split_bits(lg as int, lm0 as int, 0, steps as int, n0 as int, mb0 as int) == split_bits(
                lg as int,
                lm0 as int,
                k as int,
                steps as int,
                nn as int,
                max_bits as int,
            ),
        decreases steps - k,
    {
        proof {
            lemma_pow2_unfold((k + 1) as nat);
            if k + 1 < steps {
                lemma_pow2_strictly_increases((k + 1) as nat, steps as nat);
            }
            lemma_pow2_pos(k as nat);
            assert(nn * 2 <= 512 && nn >= 1) by (nonlinear_arith)
                requires
                    nn == n0 * pow2(k as nat),
                    n0 * pow2(steps as nat) <= 512,
                    pow2((k + 1) as nat) <= pow2(steps as nat),
                    pow2((k + 1) as nat) == 2 * pow2(k as nat),
                    n0 >= 1,
                    pow2(k as nat) >= 1;
        }
        let mb2 = max_bits * 2;
        let offset = (lg + (lm0 + k) * 8) / 2 - 4;
        assert(0 <= offset <= 270);
        proof {
            assert(0 <= (2 * nn - 1) * offset <= 511 * 270) by (nonlinear_arith)
                requires 1 <= 2 * nn - 1 <= 511, 0 <= offset <= 270;
        }
        let num = 459 * ((2 * nn - 1) * offset + mb2);
        let den = (2 * nn - 1) * 512 - 459;
        let q = (num + den / 2) / den;
        proof {
            lemma_tdiv_bound(num + den / 2, den as int);
        }
        max_bits = mb2 + q.min(57);
        nn = nn * 2;
        k += 1;
        proof {
            assert(nn == n0 * pow2(k as nat)) by (nonlinear_arith)
                requires nn == 2 * (n0 * pow2((k - 1) as nat)), pow2(k as nat) == 2 * pow2((k - 1) as nat);
            lemma2_to64();
            if k < 4 {
                lemma_pow2_strictly_increases(k as nat, 4);
            }
        }
    }
    (max_bits, nn)
}

/// The stereo split level of the cap computation.
fn stereo_cap(lg: i32, i: i32, nn: i32, mb: i32) -> (r: i32)
    requires
        0 <= lg <= 512,
        0 <= i <= 3,
        2 <= nn <= 512,
        1 <= mb <= 313 * 16,
    ensures
        r == stereo_step(lg as int, i as int, nn as int, mb as int),
        -9_000_000 <= r <= 10_100,
{
    let off_base = (lg + i * 8) / 2;
    let mb2 = mb * 2;
    let offset = off_base - if nn == 2 { 16 } else { 4 };
    let ndof = 2 * nn - 1 - if nn == 2 { 1 } else { 0 };
    let m = if nn == 2 { 512 } else { 487 };
    proof {
        assert(-16 * 1023 <= ndof * offset <= 1023 * 268) by (nonlinear_arith)
            requires 2 <= ndof <= 1023, -16 <= offset <= 268;
    }
    let num = m * (mb2 + ndof * offset);
    let den = ndof * 512 - m;
    let q = (num + den / 2) / den;
    proof {
        lemma_tdiv_bound(num + den / 2, den as int);
    }
    let lim = if nn == 2 { 64 } else { 61 };
    mb2 + q.min(lim)
}

/// The fine-energy level of the cap computation.
fn fine_cap(lg: i32, i: i32, c: i32, nn: i32, mb: i32) -> (r: i32)
    requires
        0 <= lg <= 512,
        0 <= i <= 3,
        1 <= c <= 2,
        2 <= nn <= 512,
        -9_000_000 <= mb <= 10_100,
    ensures
        r == fine_step(lg as int, i as int, c as int, nn as int, mb as int),
        -200_000_000 <= r <= 20_000,
{
    let off_base = (lg + i * 8) / 2;
    let ndof = c * nn + if c == 2 && nn > 2 { 1 } else { 0 };
    let offset = off_base - 21 + if nn == 2 { 2 } else { 0 };
    proof {
        assert(-21 * 1025 <= ndof * offset <= 1025 * 270) by (nonlinear_arith)
            requires 2 <= ndof <= 1025, -21 <= offset <= 270;
    }
    let num = mb + ndof * offset;
    let den = (ndof - 1) * 8;
    let q = (num + den / 2) / den;
    proof {
        lemma_tdiv_bound(num + den / 2, den as int);
    }
    let qb = q.min(8);
    mb + c * qb * 8
}

/// Where band `j` of width `w > 1 / 2^i` enters the split recursion, and
/// the bits of its highest pulse level plus one.
fn cap_entry(
    e_bands: &[i32],
    log_n: &[i32],
    nb: usize,
    lm: usize,
    cindex: &Vec<i16>,
    bits: &Vec<u8>,
    i: usize,
    j: usize,
    w: i32,
) -> (r: (i32, i32, i32))
    requires
        layout_ok(e_bands@, nb as int, log_n@, lm as int),
        index_ok(e_bands@, nb as int, lm as int, cindex@, bits@),
        i <= lm,
        j < nb,
        w == width(e_bands@, j as int),
        w * pow2(i as nat) != 1,
    ensures
        (r.0 as int, r.1 as int) == cap_start(w as int, i as int),
        r.2 == max_cost(r.0 as int) + 1,
        1 <= r.2 <= 256,
{
    let ghost eb = e_bands@;
    assert(1 <= width(eb, j as int) <= 64);
    proof {
        lemma2_to64();
    }
    let mut n0 = w;
    let mut lm0: i32 = 0;
    if n0 > 2 {
        n0 = n0 / 2;
        lm0 = -1;
    } else if n0 <= 1 {
        lm0 = if i < 1 { i as i32 } else { 1 };
        n0 = n0 * pow2_i32(lm0 as u32);
    }
    let row = (lm0 + 1) as usize;
    proof {
        if w == 1 {
            assert(i >= 1);
            assert(n0 == 2 && row == 2);
            assert(cache_size(eb, 2, j as int) == 1 * 4 / 2);
        } else if w == 2 {
            assert(cache_size(eb, 1, j as int) == 2 * 2 / 2);
        } else {
            assert(cache_size(eb, 0, j as int) == w * 1 / 2);
        }
        lemma_slot(nb as int, (lm + 2) as int);
        assert(0 <= slot(nb as int, row as int, j as int) < (lm + 2) * nb);
        assert(cache_size(eb, row as int, j as int) == n0);
        assert(entry_ok(bits@, cindex@[slot(nb as int, row as int, j as int)] as int, n0 as int));
        lemma_max_pseudo_bounds(n0 as int, 0);
    }
    let pbase = cindex[row * nb + j] as usize;
    let top = bits[pbase] as usize;
    let mb0 = bits[pbase + top] as i32 + 1;
    (n0, lm0, mb0)
}

/// The cap of band `j` at resolution `i` with `c` channels.
fn cap_for(
    e_bands: &[i32],
    log_n: &[i32],
    nb: usize,
    lm: usize,
    cindex: &Vec<i16>,
    bits: &Vec<u8>,
    i: usize,
    c: i32,
    j: usize,
) -> (r: u8)
    requires
        layout_ok(e_bands@, nb as int, log_n@, lm as int),
        index_ok(e_bands@, nb as int, lm as int, cindex@, bits@),
        i <= lm,
        1 <= c <= 2,
        j < nb,
    ensures
        r == cap_byte(e_bands@, log_n@, i as int, c as int, j as int),
{
    let ghost eb = e_bands@;
    let len = e_bands.len();
    assert(1 <= width(eb, j as int) <= 64);
    assert(0 <= log_n@[j as int] <= 512);
    let w = e_bands[j + 1] - e_bands[j];
    let pi = pow2_i32(i as u32);
    proof {
        lemma2_to64();
        lemma_pow2_strictly_increases(i as nat, 4);
        assert(1 <= w * pi <= 64 * 8) by (nonlinear_arith)
            requires 1 <= w <= 64, 1 <= pi <= 8;
    }
    let lg = log_n[j];
    let mut max_bits: i32 = c * 72;
    if w * pi != 1 {
        let (n0, lm0, mb0) = cap_entry(e_bands, log_n, nb, lm, cindex, bits, i, j, w);
        assert(-1 <= lm0 <= 1 && lm0 <= i);
        assert(w > 2 ==> n0 == w / 2);
        proof {
            if w == 1 {
                assert(i >= 1);
                assert(min_int(i as int, 1) == 1);
                assert(n0 == 1 * pow2(1));
            }
        }
        assert(w <= 2 ==> 1 <= n0 <= 2);
        let steps = i as i32 - lm0;
        proof {
            if steps < 4 {
                lemma_pow2_strictly_increases(steps as nat, 4);
            }
            assert(n0 * pow2(steps as nat) <= 512) by (nonlinear_arith)
                requires
                    (w > 2 && n0 == w / 2 && w <= 64 && pow2(steps as nat) <= 16)
                    || (w <= 2 && n0 <= 2 && pow2(steps as nat) <= 16);
        }
        let (mb1, nn) = split_cap(lg, lm0, steps, n0, mb0);
        proof {
            assert(nn >= 2) by (nonlinear_arith)
                requires
                    nn == n0 * pow2(steps as nat),
                    (n0 >= 2 && pow2(steps as nat) >= 1) || (n0 >= 1 && pow2(steps as nat) >= 2);
        }
        max_bits = mb1;
        if c == 2 {
            max_bits = stereo_cap(lg, i as i32, nn, mb1);
        }
        max_bits = fine_cap(lg, i as i32, c, nn, max_bits);
    }
    assert(-200_000_000 <= max_bits <= 20_000);
    proof {
        assert(1 <= c * w * pi <= 1024) by (nonlinear_arith)
            requires 1 <= c <= 2, 1 <= w * pi <= 512;
    }
    let final_bits = (4 * max_bits / (c * w * pi)) - 64;
    proof {
        lemma_tdiv_bound(4 * max_bits, (c * w * pi) as int);
    }
    final_bits as u8
}

/// Per band size, the bit costs of each pulse count; per band, resolution
/// and channel count, the cap on the bits a band can use.
pub struct PulseCache {
    pub index: Vec<i16>,
    pub bits: Vec<u8>,
    pub caps: Vec<u8>,
}

/// Builds the pulse cache of a band layout: `index[slot(nb, i, j)]` locates
/// the entry of band `j` at resolution `i` (half its width times `2^i`),
/// bands of one size share an entry, and `caps[slot(nb, 2i + c - 1, j)]` is
/// the cap of band `j` at resolution `i` with `c` channels.
pub fn compute_pulse_cache(e_bands: &[i32], nb: usize, log_n: &[i32], lm: usize) -> (r: PulseCache)
    requires
        layout_ok(e_bands@, nb as int, log_n@, lm as int),
    ensures
        index_ok(e_bands@, nb as int, lm as int, r.index@, r.bits@),
        forall|k: int, nn: int, k2: int, nn2: int|
            0 <= k <= lm + 1 && 0 <= nn < nb && 0 <= k2 <= lm + 1 && 0 <= nn2 < nb && #[trigger] cache_size(
                e_bands@,
                k,
                nn,
            ) == #[trigger] cache_size(e_bands@, k2, nn2) ==> r.index@[slot(nb as int, k, nn)]
                == r.index@[slot(nb as int, k2, nn2)],
        forall|k: int, nn: int, k2: int, nn2: int|
            0 <= k <= lm + 1 && 0 <= nn < nb && 0 <= k2 <= lm + 1 && 0 <= nn2 < nb && #[trigger] cache_size(
                e_bands@,
                k,
                nn,
            ) != #[trigger] cache_size(e_bands@, k2, nn2) ==> r.index@[slot(nb as int, k, nn)]
                != r.index@[slot(nb as int, k2, nn2)],
        r.caps@.len() == (lm + 1) * 2 * nb,
        forall|i: int, c: int, j: int|
            0 <= i <= lm && 1 <= c <= 2 && 0 <= j < nb ==> r.caps@[slot(nb as int, 2 * i + c - 1, j)]
                == #[trigger] cap_byte(e_bands@, log_n@, i, c, j),
{
    let ghost eb = e_bands@;
    let (cindex, entry_n, entry_k, entry_i, curr, ent) = build_index(e_bands, nb, log_n, lm);
    let bits = fill_bits(&entry_n, &entry_k, &entry_i, curr);
    proof {
        let ent = ent@;
        assert forall|k: int, nn: int| 0 <= k <= lm + 1 && 0 <= nn < nb implies (#[trigger] cache_size(eb, k, nn)
            == 0 <==> cindex@[slot(nb as int, k, nn)] == -1) && (cache_size(eb, k, nn) != 0 ==> entry_ok(
            bits@,
            cindex@[slot(nb as int, k, nn)] as int,
            cache_size(eb, k, nn),
        )) by {
            assert(before(k, nn, (lm + 2) as int, 0));
            assert(slot_ok(eb, nb as int, cindex@, entry_n@, entry_i@, ent, k, nn));
            if cache_size(eb, k, nn) != 0 {
                let e = ent[slot(nb as int, k, nn)];
                assert(entry_ok(bits@, entry_i@[e] as int, entry_n@[e] as int));
                assert(1 <= entry_n@[e]);
            }
        }
        assert forall|k: int, nn: int, k2: int, nn2: int|
            0 <= k <= lm + 1 && 0 <= nn < nb && 0 <= k2 <= lm + 1 && 0 <= nn2 < nb && #[trigger] cache_size(
                eb,
                k,
                nn,
            ) == #[trigger] cache_size(eb, k2, nn2) implies cindex@[slot(nb as int, k, nn)]
            == cindex@[slot(nb as int, k2, nn2)] by {
            assert(before(k, nn, (lm + 2) as int, 0));
            assert(before(k2, nn2, (lm + 2) as int, 0));
        }
        assert forall|k: int, nn: int, k2: int, nn2: int|
            0 <= k <= lm + 1 && 0 <= nn < nb && 0 <= k2 <= lm + 1 && 0 <= nn2 < nb && #[trigger] cache_size(
                eb,
                k,
                nn,
            ) != #[trigger] cache_size(eb, k2, nn2) implies cindex@[slot(nb as int, k, nn)]
            != cindex@[slot(nb as int, k2, nn2)] by {
            assert(before(k, nn, (lm + 2) as int, 0));
            assert(before(k2, nn2, (lm + 2) as int, 0));
            assert(slot_ok(eb, nb as int, cindex@, entry_n@, entry_i@, ent, k, nn));
            assert(slot_ok(eb, nb as int, cindex@, entry_n@, entry_i@, ent, k2, nn2));
            if cache_size(eb, k, nn) != 0 && cache_size(eb, k2, nn2) != 0 {
                let e1 = ent[slot(nb as int, k, nn)];
                let e2 = ent[slot(nb as int, k2, nn2)];
                assert(entry_k@[e1] >= 0 && entry_k@[e2] >= 0);
                if e1 < e2 {
                    assert(entry_i@[e1] + entry_k@[e1] + 1 <= entry_i@[e2]);
                } else if e2 < e1 {
                    assert(entry_i@[e2] + entry_k@[e2] + 1 <= entry_i@[e1]);
                }
            } else if cache_size(eb, k, nn) != 0 {
                assert(entry_i@[ent[slot(nb as int, k, nn)]] >= 0);
            } else {
                assert(entry_i@[ent[slot(nb as int, k2, nn2)]] >= 0);
            }
        }
    }
    let rows = (lm + 1) * 2;
    let mut caps: Vec<u8> = Vec::new();
    let mut r: usize = 0;
    while r < rows
        invariant
            layout_ok(eb, nb as int, log_n@, lm as int),
            eb == e_bands@,
            index_ok(eb, nb as int, lm as int, cindex@, bits@),
            rows == (lm + 1) * 2,
            r <= rows,
            caps@.len() == slot(nb as int, r as int, 0),
            forall|r2: int, j2: int|
                0 <= r2 && 0 <= j2 < nb && before(r2, j2, r as int, 0) ==> caps@[#[trigger] slot(
                    nb as int,
                    r2,
                    j2,
                )] == cap_byte(eb, log_n@, r2 / 2, r2 % 2 + 1, j2),
        decreases rows - r,
    {
        let mut j: usize = 0;
        while j < nb
            invariant
                layout_ok(eb, nb as int, log_n@, lm as int),
                eb == e_bands@,
                index_ok(eb, nb as int, lm as int, cindex@, bits@),
                rows == (lm + 1) * 2,
                r < rows,
                j <= nb,
                caps@.len() == slot(nb as int, r as int, j as int),
                forall|r2: int, j2: int|
                    0 <= r2 && 0 <= j2 < nb && before(r2, j2, r as int, j as int) ==> caps@[#[trigger] slot(
                        nb as int,
                        r2,
                        j2,
                    )] == cap_byte(eb, log_n@, r2 / 2, r2 % 2 + 1, j2),
            decreases nb - j,
        {
            let v = cap_for(e_bands, log_n, nb, lm, &cindex, &bits, r / 2, (r % 2 + 1) as i32, j);
            let ghost c0 = caps@;
            caps.push(v);
            proof {
                lemma_slot(nb as int, rows as int);
                assert forall|r2: int, j2: int|
                    0 <= r2 && 0 <= j2 < nb && before(r2, j2, r as int, (j + 1) as int) implies caps@[
                    #[trigger] slot(nb as int, r2, j2)] == cap_byte(eb, log_n@, r2 / 2, r2 % 2 + 1, j2) by {
                    if before(r2, j2, r as int, j as int) {
                        assert(slot(nb as int, r2, j2) < slot(nb as int, r as int, j as int));
                        assert(caps@[slot(nb as int, r2, j2)] == c0[slot(nb as int, r2, j2)]);
                    } else {
                        assert(r2 == r && j2 == j);
                    }
                }
            }
            j += 1;
        }
        proof {
            assert((r + 1) * nb == r * nb + nb) by (nonlinear_arith);
        }
        r += 1;
    }
    proof {
        assert forall|i: int, c: int, j: int| 0 <= i <= lm && 1 <= c <= 2 && 0 <= j < nb implies caps@[slot(
            nb as int,
            2 * i + c - 1,
            j,
        )] == #[trigger] cap_byte(eb, log_n@, i, c, j) by {
            let r2 = 2 * i + c - 1;
            assert(before(r2, j, rows as int, 0));
            assert(r2 / 2 == i && r2 % 2 + 1 == c);
        }
        assert((lm + 1) * 2 * nb == rows * nb);
    }
    PulseCache { index: cindex, bits, caps }
}

/// The cache holds a usable entry for band `band` at row `row` of the index.
pub open spec fn has_entry(index: Seq<i16>, bits: Seq<u8>, nb: int, row: int, band: int) -> bool {
    &&& 0 <= band < nb
    &&& 0 <= row
    &&& 0 <= slot(nb, row, band) < index.len()
    &&& 0 <= index[slot(nb, row, band)]
    &&& index[slot(nb, row, band)] + bits[index[slot(nb, row, band)] as int] < bits.len()
}

/// Bisection over the levels of an entry `c`: the bracket `(lo, hi)` after
/// `steps` halvings, `hi` the first level found costing at least `bits`.
pub open spec fn search_levels(c: Seq<u8>, bits: int, lo: int, hi: int, steps: nat) -> (int, int)
    decreases steps,
{
    if steps == 0 {
        (lo, hi)
    } else {
        let mid = (lo + hi + 1) / 2;
        if c[mid] as int >= bits {
            search_levels(c, bits, lo, mid, (steps - 1) as nat)
        } else {
            search_levels(c, bits, mid, hi, (steps - 1) as nat)
        }
    }
}

/// The level of entry `c` whose cost is nearest to `bits` (ties to the lower).
pub open spec fn spec_bits2pulses(c: Seq<u8>, bits: int) -> int {
    let b = bits - 1;
    let (lo, hi) = search_levels(c, b, 0, c[0] as int, 6);
    let lo_cost = if lo == 0 { -1 } else { c[lo] as int };
    if b - lo_cost <= c[hi] as int - b {
        lo
    } else {
        hi
    }
}

/// The pseudo-pulse level that spends closest to `bits` eighth-bits on band
/// `band` at frame size `lm`.
pub fn bits2pulses(cache: &PulseCache, nb: usize, band: usize, lm: i32, bits: i32) -> (r: i32)
    requires
        -1 <= lm < i32::MAX,
        has_entry(cache.index@, cache.bits@, nb as int, lm + 1, band as int),
        bits > i32::MIN + 256,
    ensures
        r == spec_bits2pulses(
            cache.bits@.skip(cache.index@[slot(nb as int, lm + 1, band as int)] as int),
            bits as int,
        ),
        0 <= r <= cache.bits@[cache.index@[slot(nb as int, lm + 1, band as int)] as int],
{
    let il = cache.index.len();
    let bl = cache.bits.len();
    let row = (lm + 1) as usize;
    let base = cache.index[row * nb + band] as usize;
    let ghost c = cache.bits@.skip(base as int);
    let mut lo: i32 = 0;
    let mut hi = cache.bits[base] as i32;
    let b = bits - 1;
    let mut step: i32 = 0;
    while step < LOG_MAX_PSEUDO
        invariant
            0 <= step <= LOG_MAX_PSEUDO,
            c == cache.bits@.skip(base as int),
            bl == cache.bits@.len(),
            base + cache.bits@[base as int] < cache.bits@.len(),
            0 <= lo <= hi <= c[0],
            search_levels(c, b as int, 0, c[0] as int, 6) == search_levels(
                c,
                b as int,
                lo as int,
                hi as int,
                (LOG_MAX_PSEUDO - step) as nat,
            ),
        decreases LOG_MAX_PSEUDO - step,
    {
        let mid = (lo + hi + 1) / 2;
        if cache.bits[base + mid as usize] as i32 >= b {
            hi = mid;
        } else {
            lo = mid;
        }
        step += 1;
    }
    let lo_cost: i32 = if lo == 0 { -1 } else { cache.bits[base + lo as usize] as i32 };
    if b - lo_cost <= cache.bits[base + hi as usize] as i32 - b {
        lo
    } else {
        hi
    }
}

/// Bits, in 1/8 bit, that `pulses` pseudo-pulses cost on band `band` at
/// frame size `lm`: 0 for none, else the cached cost plus one.
pub fn pulses2bits(cache: &PulseCache, nb: usize, band: usize, lm: i32, pulses: i32) -> (r: i32)
    requires
        -1 <= lm < i32::MAX,
        has_entry(cache.index@, cache.bits@, nb as int, lm + 1, band as int),
        0 <= pulses <= cache.bits@[cache.index@[slot(nb as int, lm + 1, band as int)] as int],
    ensures
        r == if pulses == 0 {
            0
        } else {
            cache.bits@[cache.index@[slot(nb as int, lm + 1, band as int)] + pulses] + 1
        },
{
    let il = cache.index.len();
    let bl = cache.bits.len();
    let row = (lm + 1) as usize;
    let base = cache.index[row * nb + band] as usize;
    if pulses == 0 {
        0
    } else {
        cache.bits[base + pulses as usize] as i32 + 1
    }
}

/// A cache built for a band layout prices every level of every band at the
/// cost of its codebook: `pulses2bits` of level `t` is `pulse_cost` of its
/// pulse count (modulo the byte the cache stores), and the entry's highest
/// level is `max_pseudo` of the band's size.
pub proof fn lemma_cached_cost(
    e_bands: Seq<i32>,
    nb: int,
    log_n: Seq<i32>,
    lm: int,
    index: Seq<i16>,
    bits: Seq<u8>,
    i: int,
    j: int,
    t: int,
)
    requires
        layout_ok(e_bands, nb, log_n, lm),
        index_ok(e_bands, nb, lm, index, bits),
        0 <= i <= lm + 1,
        0 <= j < nb,
        cache_size(e_bands, i, j) != 0,
        1 <= t <= max_pseudo(cache_size(e_bands, i, j)),
    ensures
        has_entry(index, bits, nb, i, j),
        bits[index[slot(nb, i, j)] as int] == max_pseudo(cache_size(e_bands, i, j)),
        bits[index[slot(nb, i, j)] + t] as int + 1 == ((pulse_cost(
            cache_size(e_bands, i, j),
            spec_get_pulses(t),
        ) - 1) as u8) as int + 1,
{
    lemma_slot(nb, lm + 2);
    assert(0 <= slot(nb, i, j) < (lm + 2) * nb);
    let n = cache_size(e_bands, i, j);
    assert(entry_ok(bits, index[slot(nb, i, j)] as int, n));
    lemma_max_pseudo_bounds(n, 0);
}

} // verus!
