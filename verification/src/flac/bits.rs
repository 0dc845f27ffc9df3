//! The FLAC bit reader: bits most significant first, zeros past the end of
//! the data. The position stops at `POS_CAP`, a bound no real stream nears.
use vstd::prelude::*;
use vstd::arithmetic::power2::*;
use crate::arith::{bit_field, get_field};
use crate::mp3::bits::bit_at;

verus! {

/// The bit position never passes this multiple of 8.
pub const POS_CAP: u64 = 0xFFFF_FFFF_FFFF_FFF8;

/// Bit `q` of the stream: a bit of `d`, or 0 past its end.
pub open spec fn fbit(d: Seq<u8>, q: int) -> nat {
    if 0 <= q < 8 * d.len() {
        bit_at(d, q)
    } else {
        0
    }
}

/// The position after one bit.
pub open spec fn adv(p: int) -> int {
    if p < POS_CAP {
        p + 1
    } else {
        p
    }
}

/// Reading `n` bits from `pos`: their value, most significant first, and
/// the position after them.
pub open spec fn rd(d: Seq<u8>, pos: int, n: nat) -> (nat, int)
    decreases n,
{
    if n == 0 {
        (0, pos)
    } else {
        let (v, p) = rd(d, pos, (n - 1) as nat);
        (2 * v + fbit(d, p), adv(p))
    }
}

/// A two's-complement `n`-bit value.
pub open spec fn sext(v: nat, n: nat) -> int {
    if n == 0 {
        0
    } else if v >= pow2((n - 1) as nat) {
        v - pow2(n)
    } else {
        v as int
    }
}

/// Zero bits counted from `pos` before a one bit or `end`.
pub open spec fn unary(d: Seq<u8>, pos: int, end: int) -> nat
    decreases end - pos,
{
    if pos >= end || fbit(d, pos) == 1 {
        0
    } else {
        1 + unary(d, pos + 1, end)
    }
}

/// The position after a unary code: the zeros and the one that ends them,
/// unless `end` came first.
pub open spec fn unary_end(d: Seq<u8>, pos: int, end: int) -> int {
    if pos >= end {
        pos
    } else if pos + unary(d, pos, end) < end {
        pos + unary(d, pos, end) + 1
    } else {
        pos + unary(d, pos, end)
    }
}

/// One bits of `b` counted down from bit `7 - k`, stopping at a zero.
pub open spec fn ones_from(b: u8, k: nat) -> nat
    decreases 8 - k,
{
    if k < 8 && bit_field(b, (7 - k) as nat, 1) == 1 {
        1 + ones_from(b, k + 1)
    } else {
        0
    }
}

/// The value bits of a coded number's first byte, when it has `n` leading ones.
pub open spec fn utf8_head(b: u8, n: nat) -> nat {
    if n >= 8 {
        127
    } else {
        b as nat % pow2((7 - n) as nat)
    }
}

/// Appends the low six bits of each of `k` further bytes to `acc`.
pub open spec fn utf8_tail(d: Seq<u8>, p: int, acc: nat, k: nat) -> (nat, int)
    decreases k,
{
    if k == 0 {
        (acc, p)
    } else {
        let (b, p2) = rd(d, p, 8);
        utf8_tail(d, p2, acc * 64 + b % 64, (k - 1) as nat)
    }
}

pub proof fn lemma_fbit(d: Seq<u8>, q: int)
    ensures
        fbit(d, q) <= 1,
{
    if 0 <= q < 8 * d.len() {
        lemma2_to64();
        let b = d[q / 8];
        vstd::arithmetic::div_mod::lemma_mod_bound((b as nat / pow2((7 - q % 8) as nat)) as int, 2);
    }
}

pub proof fn lemma_rd(d: Seq<u8>, pos: int, n: nat)
    ensures
        rd(d, pos, n).0 < pow2(n),
        pos <= POS_CAP ==> pos <= rd(d, pos, n).1 <= POS_CAP,
        pos <= rd(d, pos, n).1 <= pos + n || rd(d, pos, n).1 == pos,
        pos + n <= POS_CAP ==> rd(d, pos, n).1 == pos + n,
    decreases n,
{
    if n == 0 {
        lemma2_to64();
    } else {
        lemma_rd(d, pos, (n - 1) as nat);
        let (v, p) = rd(d, pos, (n - 1) as nat);
        lemma_fbit(d, p);
        lemma_pow2_unfold(n);
    }
}

pub proof fn lemma_unary(d: Seq<u8>, pos: int, end: int)
    ensures
        pos < end ==> pos + unary(d, pos, end) <= end,
        pos < end ==> pos < unary_end(d, pos, end) <= end,
    decreases end - pos,
{
    if pos < end && fbit(d, pos) != 1 {
        lemma_unary(d, pos + 1, end);
        if pos + 1 >= end {
            assert(unary(d, pos + 1, end) == 0);
        }
    }
}

/// A cursor over a byte string.
pub struct BitReader<'a> {
    pub data: &'a [u8],
    pub pos: u64,
}

impl<'a> BitReader<'a> {
    pub open spec fn wf(&self) -> bool {
        &&& self.pos <= POS_CAP
        &&& 8 * self.data@.len() <= POS_CAP
    }

    /// A reader at byte `byte_off`.
    pub fn new(data: &'a [u8], byte_off: u64) -> (r: Self)
        requires
            8 * byte_off <= POS_CAP,
            8 * data@.len() <= POS_CAP,
        ensures
            r.data@ == data@,
            r.pos == 8 * byte_off,
            r.wf(),
    {
        BitReader { data, pos: byte_off * 8 }
    }

    /// One bit.
    pub fn bit(&mut self) -> (r: u32)
        requires
            old(self).wf(),
        ensures
            final(self).data@ == old(self).data@,
            final(self).wf(),
            r == fbit(old(self).data@, old(self).pos as int),
            final(self).pos == adv(old(self).pos as int),
    {
        let byte = self.pos / 8;
        let len = self.data.len();
        let b: u8 = if byte < len as u64 {
            self.data[byte as usize]
        } else {
            0
        };
        let shift = 7 - (self.pos % 8) as u32;
        let r = get_field(b, shift, 1) as u32;
        proof {
            lemma2_to64();
            if byte >= len as u64 {
                assert(bit_field(0, shift as nat, 1) == 0) by {
                    lemma_pow2_pos(shift as nat);
                }
            }
        }
        if self.pos < POS_CAP {
            self.pos = self.pos + 1;
        }
        r
    }

    /// `n` bits as a number, most significant first.
    pub fn read(&mut self, n: u32) -> (r: u64)
        requires
            old(self).wf(),
            n <= 64,
        ensures
            final(self).data@ == old(self).data@,
            final(self).wf(),
            (r as nat, final(self).pos as int) == rd(old(self).data@, old(self).pos as int, n as nat),
            (r as nat) < pow2(n as nat),
    {
        let ghost d = self.data@;
        let ghost p0 = self.pos as int;
        let mut v: u64 = 0;
        let mut i: u32 = 0;
        while i < n
            invariant
                self.data@ == d,
                self.wf(),
                i <= n <= 64,
                (v as nat, self.pos as int) == rd(d, p0, i as nat),
            decreases n - i,
        {
            proof {
                lemma_rd(d, p0, i as nat);
                lemma_pow2_strictly_increases(i as nat, 64);
                lemma_pow2_unfold((i + 1) as nat);
                if i + 1 < 64 {
                    lemma_pow2_strictly_increases((i + 1) as nat, 64);
                }
                lemma2_to64();
                lemma2_to64_rest();
            }
            let b = self.bit();
            proof {
                lemma_fbit(d, rd(d, p0, i as nat).1);
            }
            v = v * 2 + b as u64;
            i = i + 1;
        }
        proof {
            lemma_rd(d, p0, n as nat);
        }
        v
    }

    /// `n` bits as a two's-complement number.
    pub fn read_signed(&mut self, n: u32) -> (r: i64)
        requires
            old(self).wf(),
            n <= 63,
        ensures
            final(self).data@ == old(self).data@,
            final(self).wf(),
            r == sext(rd(old(self).data@, old(self).pos as int, n as nat).0, n as nat),
            final(self).pos == rd(old(self).data@, old(self).pos as int, n as nat).1,
    {
        if n == 0 {
            return 0;
        }
        let v = self.read(n);
        proof {
            lemma_rd(old(self).data@, old(self).pos as int, n as nat);
            lemma_pow2_strictly_increases((n - 1) as nat, n as nat);
            if n < 63 {
                lemma_pow2_strictly_increases(n as nat, 63);
            }
            lemma_pow2_unfold(n as nat);
            lemma2_to64_rest();
        }
        let half = 1u64 << (n - 1);
        proof {
            vstd::bits::lemma_u64_shl_is_mul(1, (n - 1) as u64);
            vstd::bits::lemma_u64_pow2_no_overflow((n - 1) as nat);
        }
        if v >= half {
            v as i64 - half as i64 - half as i64
        } else {
            v as i64
        }
    }

    /// Zero bits before a one bit, consuming the one; stops at the end of
    /// the data.
    pub fn read_unary(&mut self) -> (r: u64)
        requires
            old(self).wf(),
        ensures
            final(self).data@ == old(self).data@,
            final(self).wf(),
            r == unary(old(self).data@, old(self).pos as int, (8 * old(self).data@.len()) as int),
            final(self).pos == unary_end(old(self).data@, old(self).pos as int, (8 * old(self).data@.len()) as int),
    {
        let ghost d = self.data@;
        let ghost p0 = self.pos as int;
        let end = self.data.len() as u64 * 8;
        let mut c: u64 = 0;
        proof {
            lemma_unary(d, p0, end as int);
        }
        loop
            invariant_except_break
                self.pos == p0 + c,
                p0 < end ==> self.pos <= end,
                self.pos < end ==> unary(d, p0, end as int) == c + unary(d, self.pos as int, end as int),
                self.pos >= end ==> unary(d, p0, end as int) == c,
            invariant
                self.data@ == d,
                self.wf(),
                end == 8 * d.len(),
                0 <= p0 <= self.pos,
            ensures
                self.data@ == d,
                self.wf(),
                c == unary(d, p0, end as int),
                self.pos == unary_end(d, p0, end as int),
            decreases end - self.pos,
        {
            if self.pos >= end {
                proof {
                    if p0 < end {
                        lemma_unary(d, p0, end as int);
                    }
                }
                break;
            }
            let b = self.bit();
            if b != 0 {
                proof {
                    lemma_fbit(d, (p0 + c) as int);
                    lemma_unary(d, p0, end as int);
                }
                break;
            }
            c = c + 1;
        }
        c
    }

    /// A UTF-8-style coded number: a byte whose leading ones give the count
    /// of continuation bytes, each adding six bits.
    pub fn read_utf8(&mut self) -> (r: u64)
        requires
            old(self).wf(),
        ensures
            final(self).data@ == old(self).data@,
            final(self).wf(),
            ({
                let (b0, p1) = rd(old(self).data@, old(self).pos as int, 8);
                let n = ones_from(b0 as u8, 0);
                if b0 < 128 {
                    r == b0 && final(self).pos == p1
                } else {
                    (r as nat, final(self).pos as int) == utf8_tail(
                        old(self).data@,
                        p1,
                        utf8_head(b0 as u8, n),
                        (n - 1) as nat,
                    )
                }
            }),
    {
        let ghost d = self.data@;
        proof {
            lemma_rd(d, self.pos as int, 8);
            lemma2_to64();
        }
        let b0 = self.read(8) as u8;
        let ghost p1 = self.pos as int;
        if b0 < 0x80 {
            return b0 as u64;
        }
        let mut n: u32 = 0;
        while n < 8 && get_field(b0, 7 - n, 1) == 1
            invariant
                n <= 8,
                ones_from(b0, 0) == n + ones_from(b0, n as nat),
            decreases 8 - n,
        {
            n = n + 1;
        }
        assert(ones_from(b0, n as nat) == 0);
        assert(bit_field(b0, 7, 1) == 1) by {
            lemma2_to64();
            vstd::arithmetic::div_mod::lemma_div_is_ordered(128, b0 as int, 128);
        }
        assert(n >= 1);
        let mut val: u64 = if n >= 8 {
            127
        } else {
            proof {
                vstd::bits::lemma_u64_shl_is_mul(1, (7 - n) as u64);
                vstd::bits::lemma_u64_pow2_no_overflow((7 - n) as nat);
                lemma_pow2_pos((7 - n) as nat);
            }
            (b0 as u64) % (1u64 << (7 - n) as u64)
        };
        proof {
            if n < 8 {
                vstd::bits::lemma_u64_shl_is_mul(1, (7 - n) as u64);
                vstd::bits::lemma_u64_pow2_no_overflow((7 - n) as nat);
                lemma_pow2_pos((7 - n) as nat);
                lemma_pow2_strictly_increases((7 - n) as nat, 7);
            }
        }
        let mut k: u32 = 1;
        while k < n
            invariant
                self.data@ == d,
                self.wf(),
                1 <= k <= n <= 8,
                val < pow2((6 * k + 1) as nat),
                utf8_tail(d, p1, utf8_head(b0, n as nat), (n - 1) as nat) == utf8_tail(
                    d,
                    self.pos as int,
                    val as nat,
                    (n - k) as nat,
                ),
            decreases n - k,
        {
            let b = self.read(8);
            proof {
                lemma_pow2_adds((6 * k + 1) as nat, 6);
                lemma_pow2_strictly_increases((6 * k + 7) as nat, 64);
                lemma2_to64();
                lemma2_to64_rest();
                assert(val * 64 + 63 < pow2((6 * k + 1) as nat) * 64) by (nonlinear_arith)
                    requires val < pow2((6 * k + 1) as nat);
                assert((6 * (k + 1) + 1) as nat == (6 * k + 1) as nat + 6);
            }
            val = val * 64 + b % 64;
            k = k + 1;
        }
        val
    }

    /// Moves to the next byte boundary.
    pub fn align(&mut self)
        requires
            old(self).wf(),
        ensures
            final(self).data@ == old(self).data@,
            final(self).wf(),
            final(self).pos == if old(self).pos % 8 == 0 {
                old(self).pos as int
            } else {
                old(self).pos + 8 - old(self).pos % 8
            },
    {
        let r = self.pos % 8;
        if r != 0 {
            self.pos = self.pos + (8 - r);
        }
    }

    /// The byte holding the next bit.
    pub fn byte_pos(&self) -> (r: u64)
        ensures
            r == self.pos / 8,
    {
        self.pos / 8
    }
}

/// Reading `n + m` bits is reading `n`, then `m`, as far as positions go.
pub proof fn lemma_rd_split(d: Seq<u8>, pos: int, n: nat, m: nat)
    ensures
        rd(d, pos, n + m).1 == rd(d, rd(d, pos, n).1, m).1,
    decreases m,
{
    if m > 0 {
        lemma_rd_split(d, pos, n, (m - 1) as nat);
        assert((n + m - 1) as nat == n + (m - 1) as nat);
    }
}

} // verus!
