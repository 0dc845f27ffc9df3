//! Big-endian bit reader over a byte buffer, as MPEG audio side information
//! and Huffman data are packed.
use vstd::prelude::*;
use vstd::arithmetic::power2::*;
use vstd::arithmetic::div_mod::*;
use crate::arith::bit_field;

verus! {

/// Bit `q` of `buf`, counting from the most significant bit of byte 0.
pub open spec fn bit_at(buf: Seq<u8>, q: int) -> nat {
    bit_field(buf[q / 8], (7 - q % 8) as nat, 1)
}

/// The `n` bits of `buf` from bit `pos` on, most significant first, as a number.
pub open spec fn bits_value(buf: Seq<u8>, pos: int, n: nat) -> nat
    decreases n,
{
    if n == 0 {
        0
    } else {
        2 * bits_value(buf, pos, (n - 1) as nat) + bit_at(buf, pos + n - 1)
    }
}

pub proof fn lemma_bits_bound(buf: Seq<u8>, pos: int, n: nat)
    ensures
        bits_value(buf, pos, n) < pow2(n),
    decreases n,
{
    if n == 0 {
        lemma2_to64();
    } else {
        lemma_bits_bound(buf, pos, (n - 1) as nat);
        lemma_pow2_unfold(n);
        lemma2_to64();
        lemma_mod_bound((buf[(pos + n - 1) / 8] as nat / pow2((7 - (pos + n - 1) % 8) as nat)) as int, 2);
    }
}

/// Reading `n + m` bits is reading `n`, then `m`.
pub proof fn lemma_bits_concat(buf: Seq<u8>, pos: int, n: nat, m: nat)
    ensures
        bits_value(buf, pos, n + m) == bits_value(buf, pos, n) * pow2(m) + bits_value(buf, pos + n, m),
    decreases m,
{
    if m == 0 {
        lemma2_to64();
    } else {
        lemma_bits_concat(buf, pos, n, (m - 1) as nat);
        lemma_pow2_unfold(m);
        let a = bits_value(buf, pos, n) as int;
        let p = pow2((m - 1) as nat) as int;
        assert(2 * (a * p) == a * (2 * p)) by (nonlinear_arith);
        assert((n + m - 1) as nat == n + (m - 1) as nat);
        assert(pos + n + (m - 1) as nat + 1 - 1 == pos + (n + m) - 1);
    }
}

/// The first `j` bits of byte `q` are the byte shifted down by `8 - j`.
proof fn lemma_byte_prefix(buf: Seq<u8>, q: int, j: nat)
    requires
        j <= 8,
    ensures
        bits_value(buf, 8 * q, j) == buf[q] as nat / pow2((8 - j) as nat),
    decreases j,
{
    let b = buf[q] as nat;
    lemma2_to64();
    if j == 0 {
        assert(b / 256 == 0);
    } else {
        lemma_byte_prefix(buf, q, (j - 1) as nat);
        let e = (8 - j) as nat;
        lemma_pow2_unfold(e + 1);
        lemma_pow2_pos(e);
        let t = b / pow2(e);
        lemma_div_denominator(b as int, pow2(e) as int, 2);
        assert(pow2(e) * 2 == pow2(e + 1));
        assert((8 * q + j - 1) / 8 == q && (8 * q + j - 1) % 8 == j - 1);
        assert((7 - (j - 1)) as nat == e);
        assert(2 * (t / 2) + t % 2 == t);
    }
}

/// The last `8 - s` bits of byte `q` are the byte modulo `2^(8 - s)`.
proof fn lemma_byte_suffix(buf: Seq<u8>, q: int, s: nat)
    requires
        s < 8,
    ensures
        bits_value(buf, 8 * q + s, (8 - s) as nat) == buf[q] as nat % pow2((8 - s) as nat),
{
    let b = buf[q] as nat;
    lemma_byte_prefix(buf, q, s);
    lemma_byte_prefix(buf, q, 8);
    lemma_bits_concat(buf, 8 * q, s, (8 - s) as nat);
    lemma2_to64();
    lemma_pow2_pos((8 - s) as nat);
    lemma_bits_bound(buf, 8 * q + s, (8 - s) as nat);
    assert(s + (8 - s) as nat == 8);
    assert(pow2(0) == 1);
    assert(bits_value(buf, 8 * q, 8) == b / pow2(0));
    assert(bits_value(buf, 8 * q, 8) == b);
    assert(b == (b / pow2((8 - s) as nat)) * pow2((8 - s) as nat) + bits_value(buf, 8 * q + s, (8 - s) as nat));
    lemma_fundamental_div_mod_converse(
        b as int,
        pow2((8 - s) as nat) as int,
        (b / pow2((8 - s) as nat)) as int,
        bits_value(buf, 8 * q + s, (8 - s) as nat) as int,
    );
}

/// Appending the next whole byte to `have` bits that end on a byte boundary.
proof fn lemma_bits_next_byte(buf: Seq<u8>, pos: int, have: nat)
    requires
        (pos + have) % 8 == 0,
    ensures
        bits_value(buf, pos, have + 8) == bits_value(buf, pos, have) * 256 + buf[(pos + have) / 8],
{
    lemma_bits_concat(buf, pos, have, 8);
    lemma_byte_prefix(buf, (pos + have) / 8, 8);
    lemma2_to64();
    assert(8 * ((pos + have) / 8) == pos + have);
}

/// A cursor over `buf`; reads past `limit` bits yield 0.
pub struct Bits<'a> {
    pub buf: &'a [u8],
    pub pos: usize,
    pub limit: usize,
}

impl<'a> Bits<'a> {
    /// The limit lies within the buffer.
    pub open spec fn wf(&self) -> bool {
        self.limit <= 8 * self.buf@.len()
    }

    pub fn new(buf: &'a [u8], bytes: usize) -> (r: Self)
        requires
            bytes <= buf@.len(),
            8 * buf@.len() <= usize::MAX,
        ensures
            r.buf@ == buf@,
            r.pos == 0,
            r.limit == 8 * bytes,
            r.wf(),
    {
        Bits { buf, pos: 0, limit: bytes * 8 }
    }

    /// Reads `n` bits, most significant first; advances by `n` even past
    /// the limit, and then yields 0.
    pub fn get_bits(&mut self, n: u32) -> (r: u32)
        requires
            old(self).wf(),
            1 <= n <= 25,
            old(self).pos + n <= usize::MAX,
        ensures
            final(self).buf@ == old(self).buf@,
            final(self).limit == old(self).limit,
            final(self).pos == old(self).pos + n,
            r == (if old(self).pos + n > old(self).limit {
                0
            } else {
                bits_value(old(self).buf@, old(self).pos as int, n as nat)
            }),
    {
        let pos0 = self.pos;
        let s = pos0 % 8;
        let mut p = pos0 / 8;
        self.pos = pos0 + n as usize;
        if self.pos > self.limit {
            return 0;
        }
        let ghost buf = self.buf@;
        let w = (8 - s) as u32;
        proof {
            crate::arith::lemma_u32_mask_shift(0, w);
            lemma_byte_suffix(buf, p as int, s as nat);
            lemma2_to64();
            assert(8 * p + s == pos0);
        }
        let m = 1u32 << w;
        let mut acc: u64 = ((self.buf[p] as u32) % m) as u64;
        let mut have: u32 = w;
        p = p + 1;
        while have < n
            invariant
                buf == self.buf@,
                8 * buf.len() >= self.limit,
                pos0 + n <= self.limit,
                1 <= n <= 25,
                1 <= have <= n + 7,
                pos0 + have == 8 * p,
                acc == bits_value(buf, pos0 as int, have as nat),
            decreases n + 8 - have,
        {
            proof {
                lemma_bits_next_byte(buf, pos0 as int, have as nat);
                lemma_bits_bound(buf, pos0 as int, have as nat);
                lemma_pow2_strictly_increases(have as nat, 32);
                lemma2_to64();
                assert(acc * 256 + 255 < pow2(have as nat) * 256) by (nonlinear_arith)
                    requires acc < pow2(have as nat);
                lemma_pow2_adds(have as nat, 8);
                lemma_pow2_strictly_increases((have + 8) as nat, 64);
                assert((pos0 + have) / 8 == p);
            }
            acc = acc * 256 + self.buf[p] as u64;
            have = have + 8;
            p = p + 1;
        }
        let d = (have - n) as u64;
        proof {
            lemma_bits_concat(buf, pos0 as int, n as nat, d as nat);
            lemma_bits_bound(buf, (pos0 + n) as int, d as nat);
            lemma_bits_bound(buf, pos0 as int, n as nat);
            lemma_pow2_pos(d as nat);
            vstd::bits::lemma_u64_shr_is_div(acc, d);
            lemma_fundamental_div_mod_converse(
                acc as int,
                pow2(d as nat) as int,
                bits_value(buf, pos0 as int, n as nat) as int,
                bits_value(buf, pos0 + n, d as nat) as int,
            );
            lemma_pow2_strictly_increases(n as nat, 32);
            lemma2_to64();
        }
        (acc >> d) as u32
    }
}

} // verus!
