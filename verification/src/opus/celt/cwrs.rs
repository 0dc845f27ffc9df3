//! Pyramid vector quantiser codebooks (RFC 6716 section 4.3.4): codebook
//! sizes, the index-to-vector decoding, and the bit costs of pulse counts.
use vstd::prelude::*;
use vstd::arithmetic::power2::*;
use crate::arith::{ilog, lemma_ilog_u32};
use crate::opus::range::{ec_ilog, RangeDecoder, RangeState, spec_dec_uint, BITS_LIMIT};

verus! {

/// `V(N, K)`: the number of integer vectors of dimension `N` whose absolute
/// values sum to `K` (RFC 6716, 4.3.4.1).
pub open spec fn pvq_v(n: nat, k: nat) -> nat
    decreases n + k,
{
    if k == 0 {
        1
    } else if n == 0 {
        0
    } else {
        pvq_v((n - 1) as nat, k) + pvq_v(n, (k - 1) as nat) + pvq_v((n - 1) as nat, (k - 1) as nat)
    }
}

/// `U(N, K)`: the helper table of the decoder, with `V(N, K) = U(N, K) + U(N, K + 1)`.
pub open spec fn pvq_u(n: nat, k: nat) -> nat
    decreases n + k,
{
    if k == 0 {
        0
    } else if n <= 1 {
        1
    } else {
        pvq_u((n - 1) as nat, k) + pvq_u((n - 1) as nat, (k - 1) as nat) + pvq_u(n, (k - 1) as nat)
    }
}

pub proof fn lemma_u_one(m: nat)
    requires
        m >= 1,
    ensures
        pvq_u(m, 1) == 1,
    decreases m,
{
    if m > 1 {
        lemma_u_one((m - 1) as nat);
        assert(pvq_u((m - 1) as nat, 0) == 0);
        assert(pvq_u(m, 0) == 0);
    }
}

pub proof fn lemma_u_two(kk: nat)
    requires
        kk >= 1,
    ensures
        pvq_u(2, kk) == 2 * kk - 1,
    decreases kk,
{
    if kk > 1 {
        lemma_u_two((kk - 1) as nat);
        assert(pvq_u(1, kk) == 1);
        assert(pvq_u(1, (kk - 1) as nat) == 1);
    } else {
        assert(pvq_u(1, 1) == 1);
        assert(pvq_u(1, 0) == 0);
        assert(pvq_u(2, 0) == 0);
    }
}

/// The decoder's helper table sums to the codebook size.
pub proof fn lemma_v_is_u_sum(n: nat, k: nat)
    requires
        n >= 1,
    ensures
        pvq_v(n, k) == pvq_u(n, k) + pvq_u(n, k + 1),
    decreases n + k,
{
    if n == 1 {
        if k >= 1 {
            lemma_v_is_u_sum(1, (k - 1) as nat);
            assert(pvq_v(0, k) == 0);
            assert(pvq_v(0, (k - 1) as nat) == if k == 1 { 1nat } else { 0nat });
        }
    } else if k == 0 {
        lemma_u_one(n);
    } else {
        lemma_v_is_u_sum((n - 1) as nat, k);
        lemma_v_is_u_sum(n, (k - 1) as nat);
        lemma_v_is_u_sum((n - 1) as nat, (k - 1) as nat);
        assert(pvq_u(n, k + 1) == pvq_u((n - 1) as nat, k + 1) + pvq_u((n - 1) as nat, k) + pvq_u(
            n,
            k,
        ));
    }
}

/// `V` grows with both arguments (for dimension at least 1).
pub proof fn lemma_v_mono(m: nat, j: nat, n: nat, k: nat)
    requires
        1 <= m <= n,
        j <= k,
    ensures
        pvq_v(m, j) <= pvq_v(n, k),
    decreases n + k,
{
    if m < n {
        lemma_v_mono(m, j, (n - 1) as nat, k);
        if k > 0 {
            assert(pvq_v(n, k) >= pvq_v((n - 1) as nat, k));
        } else {
            assert(pvq_v(n, k) == 1 && pvq_v((n - 1) as nat, k) == 1);
        }
    } else if j < k {
        lemma_v_mono(m, j, n, (k - 1) as nat);
    }
}

/// Every helper-table entry needed to decode a `(n, k)` codeword is bounded by `V(n, k)`.
pub proof fn lemma_u_bounded(m: nat, j: nat, n: nat, k: nat)
    requires
        1 <= m <= n,
        j <= k + 1,
    ensures
        pvq_u(m, j) <= pvq_v(n, k),
{
    if j >= 1 {
        lemma_v_is_u_sum(m, (j - 1) as nat);
        lemma_v_mono(m, (j - 1) as nat, n, k);
    }
}

/// `U` grows with the pulse count.
pub proof fn lemma_u_mono_k(m: nat, j: nat, k: nat)
    requires
        m >= 1,
        j <= k,
    ensures
        pvq_u(m, j) <= pvq_u(m, k),
    decreases k,
{
    if j < k {
        lemma_u_mono_k(m, j, (k - 1) as nat);
        if m > 1 {
            assert(pvq_u(m, k) >= pvq_u(m, (k - 1) as nat));
        } else if k - 1 == 0 {
            assert(pvq_u(m, (k - 1) as nat) == 0);
        }
    }
}

/// The number of pulses in the first coordinate of a codeword.
pub open spec fn down_search(m: nat, k: nat, i: int) -> nat
    decreases k,
{
    if k == 0 || pvq_u(m, k) <= i {
        k
    } else {
        down_search(m, (k - 1) as nat, i)
    }
}

/// The codeword with index `i` among the `V(n, k)` vectors of dimension `n`
/// and `k` pulses, in the enumeration order of RFC 6716 4.3.4.1.
pub open spec fn cw_decode(n: nat, k: nat, i: int) -> Seq<int>
    decreases n,
{
    if n == 0 {
        Seq::empty()
    } else {
        let split = pvq_u(n, k + 1);
        let neg = i >= split;
        let i1 = if neg { i - split } else { i };
        let kk = down_search(n, k, i1);
        let p = k - kk;
        seq![if neg { -p } else { p }] + cw_decode((n - 1) as nat, kk, i1 - pvq_u(n, kk))
    }
}

/// Sum of squares.
pub open spec fn energy_of(y: Seq<int>) -> int
    decreases y.len(),
{
    if y.len() == 0 {
        0
    } else {
        energy_of(y.drop_last()) + y.last() * y.last()
    }
}

/// Sum of absolute values.
pub open spec fn pulses_of(y: Seq<int>) -> int
    decreases y.len(),
{
    if y.len() == 0 {
        0
    } else {
        pulses_of(y.drop_last()) + if y.last() < 0 { -y.last() } else { y.last() }
    }
}

/// The first `t` entries of `y`, as integers.
pub open spec fn ints_prefix(y: Seq<i32>, t: int) -> Seq<int> {
    y.subrange(0, t).map_values(|x: i32| x as int)
}

/// `log2_frac`: `log2(val)` with `frac` fractional bits, as the bit-exact
/// fixed-point squaring iteration of RFC 6716 computes it.
pub open spec fn log2_frac_iter(l: int, v: int, f: int) -> (int, int)
    decreases f + 1,
{
    if f < 0 {
        (l, v)
    } else {
        let b = v / 0x1_0000;
        let l1 = l + b * pow2(f as nat);
        let v1 = (v + b) / pow2(b as nat) as int;
        let v2 = (v1 * v1 + 0x7FFF) / 0x8000;
        log2_frac_iter(l1, v2, f - 1)
    }
}

/// Whether `v` is a power of two.
pub open spec fn is_pow2(v: nat) -> bool {
    v >= 1 && v == pow2((ilog(v) - 1) as nat)
}

pub open spec fn spec_log2_frac(val: nat, frac: nat) -> int {
    let l = ilog(val) as int;
    if is_pow2(val) {
        (l - 1) * pow2(frac)
    } else {
        let v = if l > 16 {
            (val - 1) / pow2((l - 16) as nat) as int + 1
        } else {
            val * pow2((16 - l) as nat) as int
        };
        let (lf, vf) = log2_frac_iter((l - 1) * pow2(frac), v, frac as int);
        lf + if vf > 0x8000 { 1int } else { 0int }
    }
}

/// `log2(val)` in fixed point with `frac` fractional bits, rounded as
/// RFC 6716's `log2_frac` does; exact for powers of two.
pub fn log2_frac(val: u32, frac: i32) -> (r: i32)
    requires
        val >= 1,
        0 <= frac <= 8,
    ensures
        r == spec_log2_frac(val as nat, frac as nat),
        is_pow2(val as nat) ==> r == (ilog(val as nat) - 1) * pow2(frac as nat),
        0 <= r <= 33 * pow2(frac as nat),
{
    let mut l = ec_ilog(val);
    proof {
        lemma_ilog_u32(val);
        lemma2_to64();
        if frac < 8 {
            lemma_pow2_strictly_increases(frac as nat, 8);
        }
        lemma_pow2_and(val);
    }
    let ghost pf = pow2(frac as nat) as int;
    let fr = frac as u32;
    let lm1 = l - 1;
    assert(lm1 << fr == lm1 * (1i32 << fr)) by (bit_vector)
        requires 0 <= fr <= 8, 0 <= lm1 <= 31;
    proof {
        lemma_shl_i32(fr);
    }
    if val & (val - 1) != 0 {
        let ghost lg = l as int;
        let mut v: u32 = if l > 16 {
            proof {
                crate::arith::lemma_u32_mask_shift((val - 1) as u32, (l - 16) as u32);
                let e = (l - 16) as nat;
                lemma_pow2_adds(e, 16);
                lemma_pow2_pos(e);
                assert(((val - 1) as int) < pow2(e) * pow2(16));
                vstd::arithmetic::div_mod::lemma_multiply_divide_lt((val - 1) as int, pow2(e) as int, pow2(16) as int);
                lemma_pow2_adds(e, 15);
                assert(pow2((l - 1) as nat) == pow2(e) * pow2(15));
                assert(pow2((l - 1) as nat) <= (val - 1) as int) by {
                    // val is not a power of two, so it exceeds 2^(l-1)
                }
                vstd::arithmetic::div_mod::lemma_div_is_ordered(pow2((l - 1) as nat) as int, (val - 1) as int, pow2(e) as int);
                vstd::arithmetic::mul::lemma_mul_is_commutative(pow2(e) as int, pow2(15) as int);
                vstd::arithmetic::div_mod::lemma_div_by_multiple(pow2(15) as int, pow2(e) as int);
            }
            ((val - 1) >> (l - 16) as u32) + 1
        } else {
            proof {
                let e = (16 - l) as nat;
                vstd::bits::lemma_u32_pow2_no_overflow(e);
                lemma_pow2_adds(e, (l - 1) as nat);
                lemma_pow2_adds(e, l as nat);
                assert(val * pow2(e) < pow2(l as nat) * pow2(e)) by (nonlinear_arith)
                    requires val < pow2(l as nat), pow2(e) > 0;
                assert(val * pow2(e) >= pow2((l - 1) as nat) * pow2(e)) by (nonlinear_arith)
                    requires val >= pow2((l - 1) as nat), pow2(e) > 0;
                vstd::arithmetic::mul::lemma_mul_is_commutative(pow2(e) as int, pow2(l as nat) as int);
                vstd::arithmetic::mul::lemma_mul_is_commutative(pow2(e) as int, pow2((l - 1) as nat) as int);
                vstd::bits::lemma_u32_shl_is_mul(val, e as u32);
            }
            val << (16 - l) as u32
        };
        assert(0x8000 <= v <= 0x1_0000);
        let ghost v0 = v as int;
        assert(0 <= (lg - 1) * pf <= 31 * 256) by (nonlinear_arith)
            requires 1 <= lg <= 32, 1 <= pf <= 256;
        l = (l - 1) << fr;
        let mut f = frac;
        loop
            invariant_except_break
                0 <= f <= frac,
                0x8000 <= v <= 0x1_FFFD,
                log2_frac_iter(l as int, v as int, f as int) == log2_frac_iter(
                    (lg - 1) * pf, v0, frac as int),
                (lg - 1) * pf <= l <= (lg - 1) * pf + 2 * pf - 2 * pow2(f as nat),
            invariant
                0 <= frac <= 8,
                pf == pow2(frac as nat),
                1 <= pf <= 256,
                1 <= lg <= 32,
                0 <= (lg - 1) * pf <= 31 * 256,
            ensures
                0x8000 <= v <= 0x1_FFFD,
                log2_frac_iter(l as int, v as int, -1) == log2_frac_iter((lg - 1) * pf, v0, frac as int),
                (lg - 1) * pf <= l <= (lg - 1) * pf + 2 * pf - 1,
            decreases f + 1,
        {
            proof {
                if f < frac {
                    lemma_pow2_strictly_increases(f as nat, frac as nat);
                }
                lemma_pow2_pos(f as nat);
                crate::arith::lemma_u32_mask_shift(v, 16);
                lemma2_to64();
            }
            let b = (v >> 16) as i32;
            assert(b == 0 || b == 1);
            proof {
                vstd::bits::lemma_u32_pow2_no_overflow(f as nat);
            }
            let fu = f as u32;
            assert(b << fu == b * (1i32 << fu)) by (bit_vector)
                requires 0 <= fu <= 8, 0 <= b <= 1;
            proof {
                lemma_shl_i32(fu);
                let pw = pow2(f as nat) as int;
                if b == 0 {
                    assert(b * pw == 0) by (nonlinear_arith) requires b == 0;
                } else {
                    assert(b * pw == pw) by (nonlinear_arith) requires b == 1;
                }
                assert(pow2(f as nat) <= pf);
            }
            l += b << fu;
            proof {
                crate::arith::lemma_u32_mask_shift((v + b) as u32, b as u32);
            }
            let ghost vb = v;
            v = (v + b as u32) >> b as u32;
            proof {
                assert(pow2(16) == 0x1_0000);
                if b == 0 {
                    assert(vb < 0x1_0000);
                    assert(pow2(0) == 1);
                    assert(v == (vb + 0) / 1);
                    assert((vb + 0) / 1 == vb) by (nonlinear_arith);
                    assert(v == vb);
                } else {
                    assert(vb >= 0x1_0000);
                    assert(v == (vb + 1) / 2);
                }
            }
            assert(0x8000 <= v <= 0xFFFF);
            assert(v * v <= 0xFFFF * 0xFFFF) by (nonlinear_arith)
                requires v <= 0xFFFF;
            assert(v * v >= 0x8000 * 0x8000) by (nonlinear_arith)
                requires v >= 0x8000;
            proof {
                crate::arith::lemma_u32_mask_shift((v * v + 0x7FFF) as u32, 15);
            }
            v = (v * v + 0x7FFF) >> 15;
            let cont = f > 0;
            proof {
                if f > 0 {
                    lemma_pow2_unfold(f as nat);
                }
            }
            f -= 1;
            if !cont {
                break;
            }
        }
        proof {
            assert(log2_frac_iter(l as int, v as int, -1) == (l as int, v as int));
            assert((lg - 1) * pf + 2 * pf <= 33 * pf) by (nonlinear_arith)
                requires 1 <= lg <= 32, pf >= 1;
        }
        l + (v > 0x8000) as i32
    } else {
        assert(0 <= (l - 1) * pf <= 33 * pf) by (nonlinear_arith)
            requires 1 <= l <= 32, pf >= 1;
        (l - 1) << fr
    }
}

/// `1 << s` as a power of two, for small signed shifts.
proof fn lemma_shl_i32(s: u32)
    requires
        0 <= s <= 8,
    ensures
        (1i32 << s) == pow2(s as nat),
{
    lemma2_to64();
    assert((s == 0 ==> (1i32 << s) == 1) && (s == 1 ==> (1i32 << s) == 2) && (s == 2 ==> (1i32 << s) == 4)
        && (s == 3 ==> (1i32 << s) == 8) && (s == 4 ==> (1i32 << s) == 16) && (s == 5 ==> (1i32 << s) == 32)
        && (s == 6 ==> (1i32 << s) == 64) && (s == 7 ==> (1i32 << s) == 128) && (s == 8 ==> (1i32 << s) == 256))
        by (bit_vector);
}

/// `val & (val - 1)` clears the lowest set bit, so it is zero exactly for powers of two.
proof fn lemma_pow2_and(val: u32)
    requires
        val >= 1,
    ensures
        (val & ((val - 1) as u32) == 0u32) <==> is_pow2(val as nat),
        !is_pow2(val as nat) ==> pow2((ilog(val as nat) - 1) as nat) < val,
{
    lemma_ilog_u32(val);
    let l = ilog(val as nat);
    let s = (l - 1) as u32;
    vstd::bits::lemma_u32_pow2_no_overflow(s as nat);
    vstd::bits::lemma_u32_shl_is_mul(1, s);
    crate::arith::lemma_u32_mask_shift(val, s);
    lemma_pow2_unfold(l);
    lemma_pow2_pos(s as nat);
    vstd::arithmetic::div_mod::lemma_multiply_divide_lt(val as int, pow2(s as nat) as int, 2);
    vstd::arithmetic::div_mod::lemma_div_is_ordered(pow2(s as nat) as int, val as int, pow2(s as nat) as int);
    vstd::arithmetic::div_mod::lemma_div_by_multiple(1, pow2(s as nat) as int);
    assert(val >> s == 1);
    assert(s < 32 && val >> s == 1u32 ==> (val == (1u32 << s) <==> val & ((val - 1) as u32) == 0u32))
        by (bit_vector);
}


/// The pulse count of pseudo-pulse index `i` (RFC 6716 `get_pulses`).
pub open spec fn spec_get_pulses(i: int) -> int {
    if i < 8 {
        i
    } else {
        (8 + i % 8) * pow2((i / 8 - 1) as nat)
    }
}

/// The number of pulses that pseudo-pulse index `i` stands for: exact below
/// 8, then eight steps per doubling.
pub fn get_pulses(i: i32) -> (r: i32)
    requires
        0 <= i <= 191,
    ensures
        r == spec_get_pulses(i as int),
{
    if i < 8 {
        i
    } else {
        assert(i >> 3i32 == i / 8) by (bit_vector) requires i >= 0;
        assert(i & 7i32 == i % 8) by (bit_vector) requires i >= 0;
        let sh = ((i >> 3) - 1) as u32;
        let m = 8 + (i & 7);
        proof {
            vstd::bits::lemma_u32_pow2_no_overflow(sh as nat);
            lemma_pow2_strictly_increases(sh as nat, 23);
            lemma2_to64();
            assert(m * pow2(sh as nat) <= 15 * 0x80_0000) by (nonlinear_arith)
                requires m <= 15, pow2(sh as nat) <= 0x80_0000;
            vstd::bits::lemma_u32_shl_is_mul(m as u32, sh);
        }
        let mu = m as u32;
        (mu << sh) as i32
    }
}

pub open spec fn maxn_table() -> Seq<int> {
    seq![32767, 32767, 32767, 1476, 283, 109, 60, 40, 29, 24, 20, 18, 16, 14, 13]
}

pub open spec fn maxk_table() -> Seq<int> {
    seq![32767, 32767, 32767, 32767, 1172, 238, 95, 53, 36, 27, 22, 18, 16, 15, 13]
}

/// Whether `V(n, k)` is known to fit in 32 bits, by the RFC's limit tables.
pub open spec fn spec_fits_in32(n: int, k: int) -> bool {
    if n >= 14 {
        k < 14 && n <= maxn_table()[k]
    } else {
        k <= maxk_table()[n]
    }
}

/// Whether the codebook for `n` dimensions and `k` pulses is small enough
/// for 32-bit indices.
pub fn fits_in32(n: i32, k: i32) -> (r: bool)
    requires
        n >= 0,
        k >= 0,
    ensures
        r == spec_fits_in32(n as int, k as int),
{
    let maxn: [i16; 15] = [32767, 32767, 32767, 1476, 283, 109, 60, 40, 29, 24, 20, 18, 16, 14, 13];
    let maxk: [i16; 15] = [32767, 32767, 32767, 32767, 1172, 238, 95, 53, 36, 27, 22, 18, 16, 15, 13];
    assert(maxn@.map_values(|x: i16| x as int) =~= maxn_table());
    assert(maxk@.map_values(|x: i16| x as int) =~= maxk_table());
    if n >= 14 {
        if k >= 14 {
            false
        } else {
            assert(maxn@[k as int] as int == maxn_table()[k as int]);
            n <= maxn[k as usize] as i32
        }
    } else {
        assert(maxk@[n as int] as int == maxk_table()[n as int]);
        k <= maxk[n as usize] as i32
    }
}

/// One step of the row recurrence: `new[0] = carry`,
/// `new[r] = old[r] + old[r - 1] + new[r - 1]` (wrapping), over `[off, off + len)`.
pub open spec fn extended(old: Seq<u32>, new: Seq<u32>, off: int, len: int, carry: u32) -> bool {
    &&& new.len() == old.len()
    &&& forall|j: int| 0 <= j < old.len() && !(off <= j < off + len) ==> new[j] == old[j]
    &&& new[off] == carry
    &&& forall|r: int|
        1 <= r < len ==> #[trigger] new[off + r] as int == (old[off + r] + old[off + r - 1] + new[off
            + r - 1]) % 0x1_0000_0000
}

/// The inverse step: `new[r] = old[r] - old[r - 1] - new[r - 1]` (wrapping).
pub open spec fn reduced(old: Seq<u32>, new: Seq<u32>, off: int, len: int, carry: u32) -> bool {
    &&& new.len() == old.len()
    &&& forall|j: int| 0 <= j < old.len() && !(off <= j < off + len) ==> new[j] == old[j]
    &&& new[off] == carry
    &&& forall|r: int|
        1 <= r < len ==> #[trigger] new[off + r] as int == (old[off + r] - old[off + r - 1] - new[off
            + r - 1]) % 0x1_0000_0000
}

/// Advance a row of the `U` table in place from dimension `m` to `m + 1`.
fn row_extend(row: &mut Vec<u32>, off: usize, len: usize, carry: u32)
    requires
        len >= 1,
        off + len <= old(row)@.len(),
    ensures
        extended(old(row)@, final(row)@, off as int, len as int, carry),
{
    let ghost old_row = row@;
    let ghost carry0 = carry;
    let rl = row.len();
    let mut carry = carry;
    let mut j: usize = 1;
    while j < len
        invariant
            1 <= j <= len,
            off + len <= row@.len(),
            rl == row@.len(),
            row@.len() == old_row.len(),
            forall|i: int|
                0 <= i < old_row.len() && !(off <= i < off + j - 1) ==> row@[i] == old_row[i],
            j >= 2 ==> row@[off as int] == carry0,
            forall|r: int|
                1 <= r < j - 1 ==> #[trigger] row@[off + r] as int == (old_row[off + r] + old_row[off
                    + r - 1] + row@[off + r - 1]) % 0x1_0000_0000,
            j == 1 ==> carry == carry0,
            j >= 2 ==> carry as int == (old_row[off + j - 1] + old_row[off + j - 2] + row@[off + j
                - 2]) % 0x1_0000_0000,
        decreases len - j,
    {
        let next = row[off + j].wrapping_add(row[off + j - 1]).wrapping_add(carry);
        row.set(off + j - 1, carry);
        carry = next;
        j += 1;
    }
    row.set(off + len - 1, carry);
}

/// Step a row of the `U` table in place back from dimension `m` to `m - 1`.
fn row_reduce(row: &mut Vec<u32>, off: usize, len: usize, carry: u32)
    requires
        len >= 1,
        off + len <= old(row)@.len(),
    ensures
        reduced(old(row)@, final(row)@, off as int, len as int, carry),
{
    let ghost old_row = row@;
    let ghost carry0 = carry;
    let rl = row.len();
    let mut carry = carry;
    let mut j: usize = 1;
    while j < len
        invariant
            1 <= j <= len,
            off + len <= row@.len(),
            rl == row@.len(),
            row@.len() == old_row.len(),
            forall|i: int|
                0 <= i < old_row.len() && !(off <= i < off + j - 1) ==> row@[i] == old_row[i],
            j >= 2 ==> row@[off as int] == carry0,
            forall|r: int|
                1 <= r < j - 1 ==> #[trigger] row@[off + r] as int == (old_row[off + r] - old_row[off
                    + r - 1] - row@[off + r - 1]) % 0x1_0000_0000,
            j == 1 ==> carry == carry0,
            j >= 2 ==> carry as int == (old_row[off + j - 1] - old_row[off + j - 2] - row@[off + j
                - 2]) % 0x1_0000_0000,
        decreases len - j,
    {
        let next = row[off + j].wrapping_sub(row[off + j - 1]).wrapping_sub(carry);
        row.set(off + j - 1, carry);
        carry = next;
        j += 1;
    }
    row.set(off + len - 1, carry);
}


/// A row extension turns the `U` row of dimension `m` into that of `m + 1`.
proof fn lemma_extend_row(old: Seq<u32>, new: Seq<u32>, m: nat, k: nat, n: nat, a: nat)
    requires
        extended(old, new, 1, (k + 1) as int, 1),
        old.len() >= k + 2,
        forall|j: int| 0 <= j <= k + 1 ==> old[j] as int == pvq_u(m, j as nat),
        1 <= m < n,
        pvq_v(n, k) < 0x1_0000_0000,
        a <= k + 1,
    ensures
        forall|j: int| 0 <= j <= a ==> new[j] as int == pvq_u(m + 1, j as nat),
    decreases a,
{
    if a == 0 {
        assert(new[0] == old[0]);
    } else if a == 1 {
        lemma_extend_row(old, new, m, k, n, 0);
        lemma_u_one(m + 1);
    } else {
        lemma_extend_row(old, new, m, k, n, (a - 1) as nat);
        let r = a - 1;
        assert(new[1 + r] as int == (old[1 + r] + old[r as int] + new[r as int]) % 0x1_0000_0000);
        assert(pvq_u(m + 1, a) == pvq_u(m, a) + pvq_u(m, (a - 1) as nat) + pvq_u(m + 1, (a - 1) as nat));
        lemma_u_bounded(m + 1, a, n, k);
    }
}

/// A row reduction turns the `U` row of dimension `m` into that of `m - 1`.
proof fn lemma_reduce_row(old: Seq<u32>, new: Seq<u32>, m: nat, kk: nat, n: nat, k: nat, a: nat)
    requires
        reduced(old, new, 0, (kk + 2) as int, 0),
        old.len() >= kk + 2,
        forall|j: int| 0 <= j <= kk + 1 ==> old[j] as int == pvq_u(m, j as nat),
        2 <= m <= n,
        kk <= k,
        pvq_v(n, k) < 0x1_0000_0000,
        a <= kk + 1,
    ensures
        forall|j: int| 0 <= j <= a ==> new[j] as int == pvq_u((m - 1) as nat, j as nat),
    decreases a,
{
    if a > 0 {
        lemma_reduce_row(old, new, m, kk, n, k, (a - 1) as nat);
        let r = a as int;
        assert(new[0 + r] as int == (old[0 + r] - old[0 + r - 1] - new[0 + r - 1]) % 0x1_0000_0000);
        assert(new[r] as int == (old[r] - old[r - 1] - new[r - 1]) % 0x1_0000_0000);
        assert(pvq_u(m, a) == pvq_u((m - 1) as nat, a) + pvq_u((m - 1) as nat, (a - 1) as nat) + pvq_u(
            m,
            (a - 1) as nat,
        ));
        lemma_u_bounded((m - 1) as nat, a, n, k);
    }
}

/// Fill `row[0..k + 2]` with `U(n, 0..k + 2)` and return `V(n, k)`.
fn pulse_row(n: usize, k: usize, row: &mut Vec<u32>) -> (v: u32)
    requires
        2 <= n,
        k + 2 <= old(row)@.len(),
        pvq_v(n as nat, k as nat) < 0x1_0000_0000,
    ensures
        final(row)@.len() == old(row)@.len(),
        forall|j: int| 0 <= j <= k + 1 ==> final(row)@[j] as int == pvq_u(n as nat, j as nat),
        v == pvq_v(n as nat, k as nat),
{
    let rl = row.len();
    let len = k + 2;
    row.set(0, 0);
    row.set(1, 1);
    proof {
        lemma_u_two(1);
    }
    let mut kk: usize = 2;
    while kk < len
        invariant
            2 <= kk <= len,
            len == k + 2,
            k + 2 <= row@.len(),
            rl == row@.len(),
            rl == old(row)@.len(),
            2 <= n,
            pvq_v(n as nat, k as nat) < 0x1_0000_0000,
            forall|j: int| 0 <= j < kk ==> row@[j] as int == pvq_u(2, j as nat),
        decreases len - kk,
    {
        proof {
            lemma_u_two(kk as nat);
            lemma_u_bounded(2, kk as nat, n as nat, k as nat);
        }
        row.set(kk, ((kk as u64) * 2 - 1) as u32);
        kk += 1;
    }
    proof {
        assert(row@[0] as int == pvq_u(2, 0));
        lemma_u_two(1);
    }
    let mut m: usize = 2;
    while m < n
        invariant
            2 <= m <= n,
            k + 2 <= row@.len(),
            rl == row@.len(),
            rl == old(row)@.len(),
            pvq_v(n as nat, k as nat) < 0x1_0000_0000,
            forall|j: int| 0 <= j <= k + 1 ==> row@[j] as int == pvq_u(m as nat, j as nat),
        decreases n - m,
    {
        let ghost old_row = row@;
        row_extend(row, 1, k + 1, 1);
        proof {
            lemma_extend_row(old_row, row@, m as nat, k as nat, n as nat, (k + 1) as nat);
        }
        m += 1;
    }
    proof {
        lemma_v_is_u_sum(n as nat, k as nat);
    }
    row[k] + row[k + 1]
}

/// `V(n, k)`: the number of codewords for `n` dimensions and `k` pulses.
pub fn v_size(n: usize, k: usize) -> (v: u32)
    requires
        n >= 1,
        k + 2 <= usize::MAX,
        pvq_v(n as nat, k as nat) < 0x1_0000_0000,
    ensures
        v == pvq_v(n as nat, k as nat),
{
    if k == 0 {
        return 1;
    }
    if n == 1 {
        proof {
            lemma_v_is_u_sum(1, k as nat);
        }
        return 2;
    }
    let mut row = zeros_u32(k + 2);
    pulse_row(n, k, &mut row)
}

/// A vector of `n` zeros.
pub fn zeros_u32(n: usize) -> (v: Vec<u32>)
    ensures
        v@.len() == n,
        forall|i: int| 0 <= i < n ==> v@[i] == 0,
{
    let mut v: Vec<u32> = Vec::new();
    let mut i: usize = 0;
    while i < n
        invariant
            i <= n,
            v@.len() == i,
            forall|j: int| 0 <= j < i ==> v@[j] == 0,
        decreases n - i,
    {
        v.push(0);
        i += 1;
    }
    v
}


/// Decode codeword `index` of the `(n, k)` codebook into `y[0..n]`, given
/// `row == U(n, 0..k + 2)`; returns the squared norm of the vector.
fn decode_codeword(n: usize, k: usize, index: u32, y: &mut Vec<i32>, row: &mut Vec<u32>) -> (energy: u32)
    requires
        1 <= n <= old(y)@.len(),
        k <= 0x7FFF,
        k + 2 <= old(row)@.len(),
        pvq_v(n as nat, k as nat) < 0x1_0000_0000,
        forall|j: int| 0 <= j <= k + 1 ==> old(row)@[j] as int == pvq_u(n as nat, j as nat),
    ensures
        final(y)@.len() == old(y)@.len(),
        forall|j: int| n <= j < old(y)@.len() ==> final(y)@[j] == old(y)@[j],
        ints_prefix(final(y)@, n as int) == cw_decode(n as nat, k as nat, index as int),
        energy == energy_of(cw_decode(n as nat, k as nat, index as int)),
{
    let ghost k0 = k;
    let ghost idx0 = index;
    let ghost y0 = y@;
    let yl = y.len();
    let rl = row.len();
    let mut k = k;
    let mut index = index;
    let mut energy: u32 = 0;
    let mut t: usize = 0;
    while t < n
        invariant
            t <= n,
            1 <= n <= yl,
            yl == y@.len(),
            rl == row@.len(),
            k <= k0 <= 0x7FFF,
            k0 + 2 <= rl,
            pvq_v(n as nat, k0 as nat) < 0x1_0000_0000,
            t < n ==> forall|j: int| 0 <= j <= k + 1 ==> row@[j] as int == pvq_u((n - t) as nat, j as nat),
            ints_prefix(y@, t as int) + cw_decode((n - t) as nat, k as nat, index as int) == cw_decode(
                n as nat, k0 as nat, idx0 as int),
            energy == energy_of(ints_prefix(y@, t as int)),
            pulses_of(ints_prefix(y@, t as int)) == k0 - k,
            energy <= (k0 - k) * (k0 - k),
            forall|j: int| t <= j < yl ==> y@[j] == y0[j],
        decreases n - t,
    {
        let ghost m = (n - t) as nat;
        let ghost i_start = index as int;
        let ghost y_before = y@;
        let sign_split = row[k + 1];
        let negative = index >= sign_split;
        if negative {
            index -= sign_split;
        }
        let ghost i1 = index as int;
        let pulses_before = k;
        while row[k] > index
            invariant
                k <= pulses_before,
                pulses_before + 1 < rl,
                rl == row@.len(),
                forall|j: int| 0 <= j <= pulses_before + 1 ==> row@[j] as int == pvq_u(m, j as nat),
                index == i1,
                down_search(m, k as nat, i1) == down_search(m, pulses_before as nat, i1),
            decreases k,
        {
            assert(row@[0] as int == pvq_u(m, 0));
            k -= 1;
        }
        assert(down_search(m, k as nat, i1) == k);
        index -= row[k];
        let pulses = (pulses_before - k) as i32;
        let value = if negative {
            -pulses
        } else {
            pulses
        };
        y.set(t, value);
        proof {
            assert(cw_decode(m, pulses_before as nat, i_start) == seq![value as int] + cw_decode(
                (m - 1) as nat,
                k as nat,
                index as int,
            ));
            assert(ints_prefix(y@, t + 1) =~= ints_prefix(y_before, t as int).push(value as int));
            assert(ints_prefix(y_before, t as int) =~= ints_prefix(y@, t as int));
            assert(ints_prefix(y@, t + 1) + cw_decode((m - 1) as nat, k as nat, index as int) =~= ints_prefix(
                y_before, t as int) + cw_decode(m, pulses_before as nat, i_start));
            assert(ints_prefix(y@, t + 1).drop_last() =~= ints_prefix(y@, t as int));
            let a = (k0 - pulses_before) as int;
            let b = pulses as int;
            assert(value * value == b * b) by (nonlinear_arith)
                requires value == b || value == -b;
            assert(energy + b * b <= (a + b) * (a + b)) by (nonlinear_arith)
                requires energy <= a * a, a >= 0, b >= 0;
            assert((a + b) * (a + b) <= 0x7FFF * 0x7FFF) by (nonlinear_arith)
                requires 0 <= a + b <= 0x7FFF, a >= 0, b >= 0;
        }
        energy += (value * value) as u32;
        if t + 1 < n {
            let ghost before_reduce = row@;
            row_reduce(row, 0, k + 2, 0);
            proof {
                lemma_reduce_row(before_reduce, row@, m, k as nat, n as nat, k0 as nat, (k + 1) as nat);
            }
        } else {
            row_reduce(row, 0, k + 2, 0);
        }
        t += 1;
    }
    proof {
        assert(cw_decode(0, k as nat, index as int) =~= Seq::<int>::empty());
        assert(ints_prefix(y@, n as int) + Seq::<int>::empty() =~= ints_prefix(y@, n as int));
    }
    energy
}

/// Read one PVQ codeword of `n` dimensions and `k` pulses from the range
/// coder into `y[0..n]`; returns its squared norm.
pub fn decode_pulses(y: &mut Vec<i32>, n: usize, k: usize, dec: &mut RangeDecoder) -> (energy: u32)
    requires
        2 <= n <= old(y)@.len(),
        1 <= k <= 0x7FFF,
        pvq_v(n as nat, k as nat) < 0x1_0000_0000,
        old(dec)@.wf(),
        old(dec)@.room(1),
    ensures
        ({
            let (s, idx) = spec_dec_uint(old(dec)@, pvq_v(n as nat, k as nat) as int);
            &&& final(dec)@ == s
            &&& ints_prefix(final(y)@, n as int) == cw_decode(n as nat, k as nat, idx)
            &&& energy == energy_of(cw_decode(n as nat, k as nat, idx))
        }),
        final(dec)@.wf(),
        final(dec)@.storage == old(dec)@.storage,
        final(y)@.len() == old(y)@.len(),
        old(dec)@.nbits_total <= final(dec)@.nbits_total <= old(dec)@.nbits_total + 64,
{
    let mut row = zeros_u32(k + 2);
    let size = pulse_row(n, k, &mut row);
    proof {
        lemma_v_mono(1, 1, n as nat, k as nat);
        assert(pvq_v(1, 1) == 2) by {
            assert(pvq_v(0, 1) == 0);
            assert(pvq_v(1, 0) == 1);
            assert(pvq_v(0, 0) == 1);
        }
    }
    let index = dec.dec_uint(size);
    decode_codeword(n, k, index, y, &mut row)
}

/// `bits[k]` for `k` in `1..=maxk`: the cost, in `2^-frac` bits, of coding a
/// codeword with `k` pulses in `n` dimensions (`log2 V(n, k)`); `bits[0] = 0`.
pub fn get_required_bits(bits: &mut Vec<i16>, n: usize, maxk: usize, frac: i32)
    requires
        maxk + 1 <= old(bits)@.len(),
        maxk + 2 <= usize::MAX,
        n >= 1,
        0 <= frac <= 8,
        pvq_v(n as nat, maxk as nat) < 0x1_0000_0000,
    ensures
        final(bits)@.len() == old(bits)@.len(),
        final(bits)@[0] == 0,
        forall|k: int|
            1 <= k <= maxk ==> #[trigger] final(bits)@[k] as int == if n == 1 {
                pow2(frac as nat) as int
            } else {
                spec_log2_frac(pvq_v(n as nat, k as nat), frac as nat)
            },
        forall|k: int| maxk < k < old(bits)@.len() ==> final(bits)@[k] == old(bits)@[k],
{
    let bl = bits.len();
    bits.set(0, 0);
    proof {
        lemma2_to64();
        if frac < 8 {
            lemma_pow2_strictly_increases(frac as nat, 8);
        }
    }
    if n == 1 {
        let one = (1u32 << frac as u32) as i16;
        proof {
            crate::arith::lemma_u32_mask_shift(1, frac as u32);
        }
        let mut k: usize = 1;
        while k <= maxk
            invariant
                1 <= k <= maxk + 1,
                bl == bits@.len(),
                maxk + 1 <= bl,
                bits@[0] == 0,
                one as int == pow2(frac as nat),
                forall|j: int| 1 <= j < k ==> #[trigger] bits@[j] as int == pow2(frac as nat) as int,
                forall|j: int| maxk < j < bl ==> bits@[j] == old(bits)@[j],
            decreases maxk + 1 - k,
        {
            bits.set(k, one);
            k += 1;
        }
    } else {
        let mut row = zeros_u32(maxk + 2);
        pulse_row(n, maxk, &mut row);
        let mut k: usize = 1;
        while k <= maxk
            invariant
                1 <= k <= maxk + 1,
                bl == bits@.len(),
                maxk + 1 <= bl,
                row@.len() == maxk + 2,
                n >= 2,
                0 <= frac <= 8,
                bits@[0] == 0,
                pvq_v(n as nat, maxk as nat) < 0x1_0000_0000,
                forall|j: int| 0 <= j <= maxk + 1 ==> row@[j] as int == pvq_u(n as nat, j as nat),
                forall|j: int|
                    1 <= j < k ==> #[trigger] bits@[j] as int == spec_log2_frac(
                        pvq_v(n as nat, j as nat),
                        frac as nat,
                    ),
                forall|j: int| maxk < j < bl ==> bits@[j] == old(bits)@[j],
            decreases maxk + 1 - k,
        {
            proof {
                lemma_v_is_u_sum(n as nat, k as nat);
                lemma_v_mono(n as nat, k as nat, n as nat, maxk as nat);
                lemma_v_mono(1, 0, n as nat, k as nat);
                lemma2_to64();
            }
            let b = log2_frac(row[k] + row[k + 1], frac);
            proof {
                assert(33 * pow2(frac as nat) <= 33 * 256) by (nonlinear_arith)
                    requires pow2(frac as nat) <= 256;
            }
            bits.set(k, b as i16);
            k += 1;
        }
    }
}

/// The pulse counts of the pseudo-pulse levels 0 to 40: one per level up
/// to 15, then steps of 2, 4, 8 and 16 per doubling, up to 128.
pub proof fn lemma_get_pulses_table()
    ensures
        spec_get_pulses(0) == 0,
        spec_get_pulses(1) == 1,
        spec_get_pulses(2) == 2,
        spec_get_pulses(3) == 3,
        spec_get_pulses(4) == 4,
        spec_get_pulses(5) == 5,
        spec_get_pulses(6) == 6,
        spec_get_pulses(7) == 7,
        spec_get_pulses(8) == 8,
        spec_get_pulses(9) == 9,
        spec_get_pulses(10) == 10,
        spec_get_pulses(11) == 11,
        spec_get_pulses(12) == 12,
        spec_get_pulses(13) == 13,
        spec_get_pulses(14) == 14,
        spec_get_pulses(15) == 15,
        spec_get_pulses(16) == 16,
        spec_get_pulses(17) == 18,
        spec_get_pulses(18) == 20,
        spec_get_pulses(19) == 22,
        spec_get_pulses(20) == 24,
        spec_get_pulses(21) == 26,
        spec_get_pulses(22) == 28,
        spec_get_pulses(23) == 30,
        spec_get_pulses(24) == 32,
        spec_get_pulses(25) == 36,
        spec_get_pulses(26) == 40,
        spec_get_pulses(27) == 44,
        spec_get_pulses(28) == 48,
        spec_get_pulses(29) == 52,
        spec_get_pulses(30) == 56,
        spec_get_pulses(31) == 60,
        spec_get_pulses(32) == 64,
        spec_get_pulses(33) == 72,
        spec_get_pulses(34) == 80,
        spec_get_pulses(35) == 88,
        spec_get_pulses(36) == 96,
        spec_get_pulses(37) == 104,
        spec_get_pulses(38) == 112,
        spec_get_pulses(39) == 120,
        spec_get_pulses(40) == 128,
{
    lemma2_to64();
    assert(pow2(0) == 1);
    assert(pow2(1) == 2);
    assert(pow2(2) == 4);
    assert(pow2(3) == 8);
    assert(pow2(4) == 16);
    assert(spec_get_pulses(0) == 0);
    assert(spec_get_pulses(1) == 1);
    assert(spec_get_pulses(2) == 2);
    assert(spec_get_pulses(3) == 3);
    assert(spec_get_pulses(4) == 4);
    assert(spec_get_pulses(5) == 5);
    assert(spec_get_pulses(6) == 6);
    assert(spec_get_pulses(7) == 7);
    assert(spec_get_pulses(8) == (8 + 0) * pow2(0)) by {
        assert(8int / 8 - 1 == 0 && 8int % 8 == 0);
    }
    assert(spec_get_pulses(8) == 8);
    assert(spec_get_pulses(9) == (8 + 1) * pow2(0)) by {
        assert(9int / 8 - 1 == 0 && 9int % 8 == 1);
    }
    assert(spec_get_pulses(9) == 9);
    assert(spec_get_pulses(10) == (8 + 2) * pow2(0)) by {
        assert(10int / 8 - 1 == 0 && 10int % 8 == 2);
    }
    assert(spec_get_pulses(10) == 10);
    assert(spec_get_pulses(11) == (8 + 3) * pow2(0)) by {
        assert(11int / 8 - 1 == 0 && 11int % 8 == 3);
    }
    assert(spec_get_pulses(11) == 11);
    assert(spec_get_pulses(12) == (8 + 4) * pow2(0)) by {
        assert(12int / 8 - 1 == 0 && 12int % 8 == 4);
    }
    assert(spec_get_pulses(12) == 12);
    assert(spec_get_pulses(13) == (8 + 5) * pow2(0)) by {
        assert(13int / 8 - 1 == 0 && 13int % 8 == 5);
    }
    assert(spec_get_pulses(13) == 13);
    assert(spec_get_pulses(14) == (8 + 6) * pow2(0)) by {
        assert(14int / 8 - 1 == 0 && 14int % 8 == 6);
    }
    assert(spec_get_pulses(14) == 14);
    assert(spec_get_pulses(15) == (8 + 7) * pow2(0)) by {
        assert(15int / 8 - 1 == 0 && 15int % 8 == 7);
    }
    assert(spec_get_pulses(15) == 15);
    assert(spec_get_pulses(16) == (8 + 0) * pow2(1)) by {
        assert(16int / 8 - 1 == 1 && 16int % 8 == 0);
    }
    assert(spec_get_pulses(16) == 16);
    assert(spec_get_pulses(17) == (8 + 1) * pow2(1)) by {
        assert(17int / 8 - 1 == 1 && 17int % 8 == 1);
    }
    assert(spec_get_pulses(17) == 18);
    assert(spec_get_pulses(18) == (8 + 2) * pow2(1)) by {
        assert(18int / 8 - 1 == 1 && 18int % 8 == 2);
    }
    assert(spec_get_pulses(18) == 20);
    assert(spec_get_pulses(19) == (8 + 3) * pow2(1)) by {
        assert(19int / 8 - 1 == 1 && 19int % 8 == 3);
    }
    assert(spec_get_pulses(19) == 22);
    assert(spec_get_pulses(20) == (8 + 4) * pow2(1)) by {
        assert(20int / 8 - 1 == 1 && 20int % 8 == 4);
    }
    assert(spec_get_pulses(20) == 24);
    assert(spec_get_pulses(21) == (8 + 5) * pow2(1)) by {
        assert(21int / 8 - 1 == 1 && 21int % 8 == 5);
    }
    assert(spec_get_pulses(21) == 26);
    assert(spec_get_pulses(22) == (8 + 6) * pow2(1)) by {
        assert(22int / 8 - 1 == 1 && 22int % 8 == 6);
    }
    assert(spec_get_pulses(22) == 28);
    assert(spec_get_pulses(23) == (8 + 7) * pow2(1)) by {
        assert(23int / 8 - 1 == 1 && 23int % 8 == 7);
    }
    assert(spec_get_pulses(23) == 30);
    assert(spec_get_pulses(24) == (8 + 0) * pow2(2)) by {
        assert(24int / 8 - 1 == 2 && 24int % 8 == 0);
    }
    assert(spec_get_pulses(24) == 32);
    assert(spec_get_pulses(25) == (8 + 1) * pow2(2)) by {
        assert(25int / 8 - 1 == 2 && 25int % 8 == 1);
    }
    assert(spec_get_pulses(25) == 36);
    assert(spec_get_pulses(26) == (8 + 2) * pow2(2)) by {
        assert(26int / 8 - 1 == 2 && 26int % 8 == 2);
    }
    assert(spec_get_pulses(26) == 40);
    assert(spec_get_pulses(27) == (8 + 3) * pow2(2)) by {
        assert(27int / 8 - 1 == 2 && 27int % 8 == 3);
    }
    assert(spec_get_pulses(27) == 44);
    assert(spec_get_pulses(28) == (8 + 4) * pow2(2)) by {
        assert(28int / 8 - 1 == 2 && 28int % 8 == 4);
    }
    assert(spec_get_pulses(28) == 48);
    assert(spec_get_pulses(29) == (8 + 5) * pow2(2)) by {
        assert(29int / 8 - 1 == 2 && 29int % 8 == 5);
    }
    assert(spec_get_pulses(29) == 52);
    assert(spec_get_pulses(30) == (8 + 6) * pow2(2)) by {
        assert(30int / 8 - 1 == 2 && 30int % 8 == 6);
    }
    assert(spec_get_pulses(30) == 56);
    assert(spec_get_pulses(31) == (8 + 7) * pow2(2)) by {
        assert(31int / 8 - 1 == 2 && 31int % 8 == 7);
    }
    assert(spec_get_pulses(31) == 60);
    assert(spec_get_pulses(32) == (8 + 0) * pow2(3)) by {
        assert(32int / 8 - 1 == 3 && 32int % 8 == 0);
    }
    assert(spec_get_pulses(32) == 64);
    assert(spec_get_pulses(33) == (8 + 1) * pow2(3)) by {
        assert(33int / 8 - 1 == 3 && 33int % 8 == 1);
    }
    assert(spec_get_pulses(33) == 72);
    assert(spec_get_pulses(34) == (8 + 2) * pow2(3)) by {
        assert(34int / 8 - 1 == 3 && 34int % 8 == 2);
    }
    assert(spec_get_pulses(34) == 80);
    assert(spec_get_pulses(35) == (8 + 3) * pow2(3)) by {
        assert(35int / 8 - 1 == 3 && 35int % 8 == 3);
    }
    assert(spec_get_pulses(35) == 88);
    assert(spec_get_pulses(36) == (8 + 4) * pow2(3)) by {
        assert(36int / 8 - 1 == 3 && 36int % 8 == 4);
    }
    assert(spec_get_pulses(36) == 96);
    assert(spec_get_pulses(37) == (8 + 5) * pow2(3)) by {
        assert(37int / 8 - 1 == 3 && 37int % 8 == 5);
    }
    assert(spec_get_pulses(37) == 104);
    assert(spec_get_pulses(38) == (8 + 6) * pow2(3)) by {
        assert(38int / 8 - 1 == 3 && 38int % 8 == 6);
    }
    assert(spec_get_pulses(38) == 112);
    assert(spec_get_pulses(39) == (8 + 7) * pow2(3)) by {
        assert(39int / 8 - 1 == 3 && 39int % 8 == 7);
    }
    assert(spec_get_pulses(39) == 120);
    assert(spec_get_pulses(40) == (8 + 0) * pow2(4)) by {
        assert(40int / 8 - 1 == 4 && 40int % 8 == 0);
    }
    assert(spec_get_pulses(40) == 128);
}

/// The codebook sizes: `V(N, K) = V(N-1, K) + V(N, K-1) + V(N-1, K-1)`
/// with `V(N, 0) = 1` and `V(0, K) = 0` for `K > 0`; in closed form a
/// single dimension has 2 vectors, one pulse `2N`, two dimensions `4K`
/// and two pulses `2N^2`.
pub proof fn lemma_pvq_v_values(n: nat, k: nat)
    ensures
        pvq_v(n, 0) == 1,
        k >= 1 ==> pvq_v(0, k) == 0,
        n >= 1 && k >= 1 ==> pvq_v(n, k) == pvq_v((n - 1) as nat, k) + pvq_v(n, (k - 1) as nat) + pvq_v(
            (n - 1) as nat,
            (k - 1) as nat,
        ),
        k >= 1 ==> pvq_v(1, k) == 2,
        pvq_v(n, 1) == 2 * n,
        k >= 1 ==> pvq_v(2, k) == 4 * k,
        pvq_v(n, 2) == 2 * n * n,
{
    lemma_v_one_dim(k);
    lemma_v_one_pulse(n);
    lemma_v_two_dims(k);
    lemma_v_two_pulses(n);
}

proof fn lemma_v_one_dim(k: nat)
    ensures
        k >= 1 ==> pvq_v(1, k) == 2,
    decreases k,
{
    if k >= 2 {
        lemma_v_one_dim((k - 1) as nat);
        assert(pvq_v(0, k) == 0 && pvq_v(0, (k - 1) as nat) == 0);
    } else if k == 1 {
        assert(pvq_v(1, 0) == 1 && pvq_v(0, 0) == 1 && pvq_v(0, 1) == 0);
    }
}

proof fn lemma_v_one_pulse(n: nat)
    ensures
        pvq_v(n, 1) == 2 * n,
    decreases n,
{
    if n >= 1 {
        lemma_v_one_pulse((n - 1) as nat);
        assert(pvq_v(n, 0) == 1 && pvq_v((n - 1) as nat, 0) == 1);
    }
}

proof fn lemma_v_two_dims(k: nat)
    ensures
        k >= 1 ==> pvq_v(2, k) == 4 * k,
    decreases k,
{
    lemma_v_one_dim(k);
    if k >= 2 {
        lemma_v_two_dims((k - 1) as nat);
        lemma_v_one_dim((k - 1) as nat);
    } else if k == 1 {
        lemma_v_one_pulse(2);
    }
}

proof fn lemma_v_two_pulses(n: nat)
    ensures
        pvq_v(n, 2) == 2 * n * n,
    decreases n,
{
    if n >= 1 {
        lemma_v_two_pulses((n - 1) as nat);
        lemma_v_one_pulse(n);
        lemma_v_one_pulse((n - 1) as nat);
        let m = (n - 1) as nat;
        assert(pvq_v(n, 2) == pvq_v(m, 2) + pvq_v(n, 1) + pvq_v(m, 1));
        assert(pvq_v(m, 2) == 2 * m * m);
        assert(pvq_v(n, 1) == 2 * n);
        assert(pvq_v(m, 1) == 2 * m);
        assert(2 * m * m + 2 * n + 2 * m == 2 * n * n) by (nonlinear_arith)
            requires m + 1 == n;
        assert(pvq_v(n, 2) == 2 * n * n);
    } else {
        assert(n == 0);
        assert(pvq_v(0, 2) == 0);
        assert(2 * n * n == 0) by (nonlinear_arith)
            requires n == 0;
    }
}

} // verus!
