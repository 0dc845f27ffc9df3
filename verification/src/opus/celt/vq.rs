//! Which blocks of a decoded pulse vector received any pulse.
use vstd::prelude::*;
use vstd::arithmetic::power2::*;

verus! {

/// Whether the `len` pulses from `start` hold a nonzero one.
pub open spec fn block_has_pulse(iy: Seq<i32>, start: int, len: int) -> bool {
    exists|k: int| start <= k < start + len && iy[k] != 0
}

/// The collapse mask over the first `b` blocks of `per_block` pulses: bit
/// `i` is set exactly when block `i` has a pulse.
pub open spec fn collapse_bits(iy: Seq<i32>, per_block: int, b: nat) -> nat
    decreases b,
{
    if b == 0 {
        0
    } else {
        let i = (b - 1) as nat;
        collapse_bits(iy, per_block, i) + if block_has_pulse(iy, i * per_block, per_block) {
            pow2(i)
        } else {
            0
        }
    }
}

/// The mask of `blocks` blocks stays below `2^blocks`.
proof fn lemma_collapse_bits_bound(iy: Seq<i32>, per_block: int, b: nat)
    ensures
        collapse_bits(iy, per_block, b) < pow2(b),
    decreases b,
{
    lemma_pow2_pos(b);
    if b > 0 {
        lemma_collapse_bits_bound(iy, per_block, (b - 1) as nat);
        lemma_pow2_unfold(b);
    }
}

/// The blocks of the decoded pulses `iy` (of `n` samples in `blocks`
/// interleaved-free blocks) that are not all zero, one bit per block; 1 for
/// a single block.
pub fn collapse_mask(iy: &[i32], n: usize, blocks: usize) -> (r: u32)
    requires
        n <= iy@.len(),
        blocks <= 32,
    ensures
        blocks <= 1 ==> r == 1,
        blocks > 1 ==> r == collapse_bits(iy@, (n / blocks) as int, blocks as nat),
{
    if blocks <= 1 {
        return 1;
    }
    let per_block = n / blocks;
    proof {
        assert(per_block * blocks <= n) by (nonlinear_arith)
            requires per_block == n / blocks, blocks >= 1;
    }
    let mut mask: u32 = 0;
    let mut b: usize = 0;
    while b < blocks
        invariant
            b <= blocks <= 32,
            per_block == n / blocks,
            per_block * blocks <= n <= iy@.len(),
            mask == collapse_bits(iy@, per_block as int, b as nat),
        decreases blocks - b,
    {
        proof {
            assert(b * per_block + per_block <= per_block * blocks) by (nonlinear_arith)
                requires b < blocks, per_block >= 0;
        }
        let base = b * per_block;
        let ilen = iy.len();
        let mut any: i32 = 0;
        let mut j: usize = 0;
        while j < per_block
            invariant
                j <= per_block,
                base + per_block <= iy@.len(),
                ilen == iy@.len(),
                base == b * per_block,
                (any != 0) == (exists|k: int| base <= k < base + j && iy@[k] != 0),
            decreases per_block - j,
        {
            let x = iy[base + j];
            proof {
                assert((any | x) != 0 <==> (any != 0 || x != 0)) by (bit_vector);
                if x != 0 {
                    assert(iy@[base + j as int] != 0);
                }
            }
            any = any | x;
            j = j + 1;
        }
        let bit: u32 = if any != 0 { 1 } else { 0 };
        proof {
            lemma_collapse_bits_bound(iy@, per_block as int, b as nat);
            vstd::bits::lemma_u32_pow2_no_overflow(b as nat);
            vstd::bits::lemma_u32_shl_is_mul(1, b as u32);
            assert(mask < (1u32 << (b as u32)) ==> (mask | (bit << (b as u32))) == mask + (bit << (b as u32))) by (bit_vector)
                requires b < 32, bit <= 1;
            vstd::bits::lemma_u32_shl_is_mul(bit, b as u32);
        }
        mask = mask | (bit << (b as u32));
        b = b + 1;
    }
    mask
}

} // verus!
