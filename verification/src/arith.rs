//! Integer facts shared by the bitstream readers.
use vstd::prelude::*;
use vstd::arithmetic::power2::*;
use vstd::bits::*;

verus! {

/// Number of significant bits of `v` (0 for 0).
pub open spec fn ilog(v: nat) -> nat
    decreases v,
{
    if v == 0 {
        0
    } else {
        1 + ilog(v / 2)
    }
}

/// `ilog` is pinned down by the power-of-two interval holding `v`.
pub proof fn lemma_ilog_interval(v: nat, k: nat)
    requires
        k >= 1,
        pow2((k - 1) as nat) <= v < pow2(k),
    ensures
        ilog(v) == k,
    decreases k,
{
    lemma_pow2_unfold(k);
    if k == 1 {
        assert(pow2(0) == 1) by { lemma2_to64(); }
        assert(v == 1);
        assert(ilog(0) == 0);
    } else {
        lemma_pow2_unfold((k - 1) as nat);
        lemma_ilog_interval(v / 2, (k - 1) as nat);
    }
}

/// `ilog` of a nonzero `u32` from its leading-zero count.
pub proof fn lemma_ilog_u32(v: u32)
    ensures
        v == 0 ==> ilog(v as nat) == 0,
        v != 0 ==> 1 <= ilog(v as nat) <= 32,
        v != 0 ==> pow2((ilog(v as nat) - 1) as nat) <= v < pow2(ilog(v as nat)),
{
    if v != 0 {
        let kk = highest_bit(v, 32);
        assert(v >> ((kk - 1) as u32) != 0 ==> v >= (1u32 << ((kk - 1) as u32))) by (bit_vector)
            requires 1 <= kk <= 32;
        assert(kk < 32 ==> (v >> kk == 0 ==> v < (1u32 << kk))) by (bit_vector)
            requires 1 <= kk <= 32;
        lemma_u32_pow2_no_overflow((kk - 1) as nat);
        lemma_u32_shl_is_mul(1, (kk - 1) as u32);
        if kk < 32 {
            lemma_u32_pow2_no_overflow(kk as nat);
            lemma_u32_shl_is_mul(1, kk);
        } else {
            lemma2_to64();
        }
        assert(pow2((kk - 1) as nat) <= v);
        assert(v < pow2(kk as nat));
        lemma_ilog_interval(v as nat, kk as nat);
    }
}

proof fn highest_bit(v: u32, hi: u32) -> (kk: u32)
    requires
        1 <= hi <= 32,
        v != 0,
        hi == 32 || v >> hi == 0,
    ensures
        1 <= kk <= 32,
        v >> ((kk - 1) as u32) != 0,
        kk == 32 || v >> kk == 0,
    decreases hi,
{
    if v >> ((hi - 1) as u32) != 0 {
        hi
    } else {
        assert(v >> 0u32 == v) by (bit_vector);
        highest_bit(v, (hi - 1) as u32)
    }
}

/// Masking with `2^b - 1` keeps the remainder modulo `2^b`; shifting right divides.
pub proof fn lemma_u32_mask_shift(w: u32, b: u32)
    requires
        b < 32,
    ensures
        w & (((1u32 << b) - 1) as u32) == w as nat % pow2(b as nat),
        w >> b == w as nat / pow2(b as nat),
        (1u32 << b) == pow2(b as nat),
{
    lemma_u32_pow2_no_overflow(b as nat);
    lemma_u32_shl_is_mul(1, b);
    lemma_u32_shr_is_div(w, b);
    lemma_u32_low_bits_mask_is_mod(w, b as nat);
    assert(low_bits_mask(b as nat) == pow2(b as nat) - 1) by {
        reveal(low_bits_mask);
    }
}

/// Or-ing `y` above the `a` low bits of a smaller `x` is addition.
pub proof fn lemma_u32_or_above(x: u32, y: u32, a: u32)
    requires
        a <= 24,
        y < 256,
        x < pow2(a as nat),
    ensures
        x | (y << a) == x + y * pow2(a as nat),
        y * pow2(a as nat) < pow2(32),
{
    lemma_u32_pow2_no_overflow(a as nat);
    lemma_u32_shl_is_mul(1, a);
    assert(x < (1u32 << a) ==> (x | (y << a)) == x + (y << a)) by (bit_vector)
        requires a <= 24, y < 256;
    lemma_pow2_adds(a as nat, 8);
    lemma2_to64();
    lemma_pow2_strictly_increases((a + 8) as nat, 33);
    assert(pow2(8) == 256);
    assert(y * pow2(a as nat) < 256 * pow2(a as nat)) by (nonlinear_arith)
        requires y < 256, pow2(a as nat) > 0;
    assert(256 * pow2(a as nat) == pow2((a + 8) as nat)) by {
        vstd::arithmetic::mul::lemma_mul_is_commutative(256, pow2(a as nat) as int);
    }
    if a + 8 < 32 {
        lemma_pow2_strictly_increases((a + 8) as nat, 32);
    }
    lemma_pow2_pos(a as nat);
    lemma_u32_shl_is_mul(y, a);
}

/// `2^k` as an `i32`.
pub fn pow2_i32(k: u32) -> (r: i32)
    requires
        k < 31,
    ensures
        r as int == pow2(k as nat),
        r >= 1,
{
    proof {
        lemma_u32_mask_shift(0, k);
        lemma_pow2_strictly_increases(k as nat, 31);
        lemma_pow2_pos(k as nat);
        lemma2_to64();
    }
    (1u32 << k) as i32
}

/// Arithmetic shift right of an `i32` rounds towards minus infinity, which
/// is the Euclidean quotient by `2^k`.
pub proof fn lemma_i32_shr(x: i32, k: u32)
    requires
        k < 31,
    ensures
        (x >> k) as int == (x as int) / (pow2(k as nat) as int),
{
    assert(((x >> k) as int) * ((1u32 << k) as int) <= x as int
        && (x as int) < ((x >> k) as int + 1) * ((1u32 << k) as int)) by (bit_vector)
        requires k < 31;
    lemma_u32_mask_shift(0, k);
    lemma_pow2_pos(k as nat);
    let q = (x >> k) as int;
    let d = pow2(k as nat) as int;
    assert((q + 1) * d == q * d + d) by (nonlinear_arith);
    vstd::arithmetic::div_mod::lemma_fundamental_div_mod_converse(x as int, d, q, x as int - q * d);
}

/// `x >> k` for an `i32`: `x / 2^k`, rounded down.
pub fn shr_i32(x: i32, k: u32) -> (r: i32)
    requires
        k < 31,
    ensures
        r as int == (x as int) / (pow2(k as nat) as int),
{
    proof {
        lemma_i32_shr(x, k);
    }
    x >> k
}

/// Bits `shift .. shift + width` of a byte, read as a number.
pub open spec fn bit_field(b: u8, shift: nat, width: nat) -> nat {
    (b as nat / pow2(shift)) % pow2(width)
}

/// Extracts bits `shift .. shift + width` of `b`.
pub fn get_field(b: u8, shift: u32, width: u32) -> (r: u8)
    requires
        shift < 8,
        1 <= width <= 8,
    ensures
        r as nat == bit_field(b, shift as nat, width as nat),
        (r as nat) < pow2(width as nat),
{
    let w = b as u32;
    let s = w >> shift;
    proof {
        lemma_u32_mask_shift(w, shift);
        lemma_u32_mask_shift(s, width);
        lemma2_to64();
        lemma_pow2_pos(width as nat);
        if width < 8 {
            lemma_pow2_strictly_increases(width as nat, 8);
        }
    }
    let m = (1u32 << width) - 1;
    let r = s & m;
    proof {
        vstd::arithmetic::div_mod::lemma_mod_bound(s as int, pow2(width as nat) as int);
    }
    r as u8
}

/// Masking a non-negative `i32` keeps it non-negative and no larger.
pub proof fn lemma_i32_and_le(a: i32, m: i32)
    requires
        a >= 0,
    ensures
        0 <= a & m <= a,
{
    assert(a >= 0 ==> 0 <= a & m && a & m <= a) by (bit_vector);
}

} // verus!
