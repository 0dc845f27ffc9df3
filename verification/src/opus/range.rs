//! The Opus range decoder (RFC 6716 section 4.1), modelled as a pure state
//! transformer: every operation is stated as a spec function of the decoder
//! state before the call.
use vstd::prelude::*;
use vstd::arithmetic::power2::*;
use vstd::bits::*;
use crate::arith::{ilog, lemma_ilog_interval, lemma_ilog_u32, lemma_u32_mask_shift, lemma_u32_or_above};

verus! {

pub const EC_SYM_BITS: u32 = 8;
pub const EC_CODE_BITS: i32 = 32;
pub const EC_SYM_MAX: u32 = 255;
pub const EC_CODE_TOP: u32 = 0x8000_0000;
pub const EC_CODE_BOT: u32 = 0x80_0000;
pub const EC_CODE_EXTRA: u32 = 7;
pub const EC_UINT_BITS: u32 = 8;
pub const EC_WINDOW_SIZE: i32 = 32;

/// Upper bound on the bit counter that the model tracks; one decoder reads
/// one Opus frame (at most 1275 bytes), far below this.
pub const BITS_LIMIT: i32 = 0x1000_0000;

/// Number of significant bits of `v`; 0 for 0.
pub fn ec_ilog(v: u32) -> (r: i32)
    ensures
        r == ilog(v as nat),
        0 <= r <= 32,
{
    proof {
        lemma_ilog_u32(v);
    }
    if v == 0 {
        return 0;
    }
    let lz = v.leading_zeros();
    proof {
        vstd::std_specs::bits::axiom_u32_leading_zeros(v);
        let k = (32 - lz) as u32;
        assert(1 <= k <= 32);
        assert(v >> ((k - 1) as u32) & 1u32 != 0u32);
        assert(k == 32 || v >> k == 0u32);
        assert(v >> ((k - 1) as u32) & 1u32 != 0u32 ==> v >= (1u32 << ((k - 1) as u32)))
            by (bit_vector)
            requires 1 <= k <= 32;
        assert(k < 32 ==> (v >> k == 0 ==> v < (1u32 << k))) by (bit_vector)
            requires 1 <= k <= 32;
        lemma_u32_pow2_no_overflow((k - 1) as nat);
        lemma_u32_shl_is_mul(1, (k - 1) as u32);
        if k < 32 {
            lemma_u32_pow2_no_overflow(k as nat);
            lemma_u32_shl_is_mul(1, k);
        } else {
            lemma2_to64();
        }
        lemma_ilog_interval(v as nat, k as nat);
    }
    32 - lz as i32
}

/// The complete state of a range decoder.
pub struct RangeState {
    pub buf: Seq<u8>,
    pub storage: int,
    pub end_offs: int,
    pub end_window: int,
    pub nend_bits: int,
    pub nbits_total: int,
    pub offs: int,
    pub rng: int,
    pub val: int,
    pub ext: int,
    pub rem: int,
    pub error: bool,
}

impl RangeState {
    /// The invariant every reachable decoder state keeps.
    pub open spec fn wf(self) -> bool {
        &&& self.storage == self.buf.len()
        &&& 0 <= self.offs <= self.storage
        &&& 0 <= self.end_offs <= self.storage
        &&& EC_CODE_BOT < self.rng <= EC_CODE_TOP
        &&& 0 <= self.val < 0x1_0000_0000
        &&& 0 <= self.ext < 0x1_0000_0000
        &&& 0 <= self.rem < 256
        &&& 0 <= self.nend_bits <= 32
        &&& 0 <= self.end_window < pow2(self.nend_bits as nat)
        &&& 33 <= self.nbits_total <= BITS_LIMIT
    }

    /// Room for `n` more operations on the bit counter.
    pub open spec fn room(self, n: int) -> bool {
        self.nbits_total + 64 * n <= BITS_LIMIT
    }

    /// `ext` was set by a `decode` or `decode_bin` whose total `ft` still fits.
    pub open spec fn ext_fits(self, ft: int) -> bool {
        &&& self.ext >= 1
        &&& self.ext * ft <= self.rng
    }

    /// Bits consumed so far, rounded up (`ec_tell`).
    pub open spec fn tell(self) -> int {
        self.nbits_total - ilog(self.rng as nat)
    }
}

/// Next byte from the front of the buffer; zero past the end.
pub open spec fn read_byte(s: RangeState) -> (RangeState, int) {
    if s.offs < s.storage {
        (RangeState { offs: s.offs + 1, ..s }, s.buf[s.offs] as int)
    } else {
        (s, 0)
    }
}

/// Next byte from the back of the buffer (raw bits); zero past the end.
pub open spec fn read_byte_from_end(s: RangeState) -> (RangeState, int) {
    if s.end_offs < s.storage {
        (RangeState { end_offs: s.end_offs + 1, ..s }, s.buf[s.storage - (s.end_offs + 1)] as int)
    } else {
        (s, 0)
    }
}

/// One renormalisation step: the range grows by a byte and one more input
/// byte is shifted into the (inverted) code value.
pub open spec fn norm_step(s: RangeState) -> RangeState {
    let (t, b) = read_byte(s);
    let sym = (s.rem * 256 + b) / 2;
    RangeState {
        nbits_total: s.nbits_total + 8,
        rng: s.rng * 256,
        rem: b,
        val: (s.val * 256 + (255 - sym % 256)) % (EC_CODE_TOP as int),
        ..t
    }
}

/// Renormalise until the range exceeds `EC_CODE_BOT`.
pub open spec fn normalize(s: RangeState) -> RangeState
    decreases 0x1_0000_0000 - s.rng,
{
    if s.rng <= 0 || s.rng > EC_CODE_BOT {
        s
    } else {
        normalize(norm_step(s))
    }
}

/// The state of a decoder created on `buf`.
pub open spec fn initial(buf: Seq<u8>) -> RangeState {
    let s0 = RangeState {
        buf,
        storage: buf.len() as int,
        end_offs: 0,
        end_window: 0,
        nend_bits: 0,
        nbits_total: 9,
        offs: 0,
        rng: 128,
        val: 0,
        ext: 0,
        rem: 0,
        error: false,
    };
    let (s1, b) = read_byte(s0);
    normalize(RangeState { rem: b, val: 127 - b / 2, ..s1 })
}

/// `ec_decode`: the cumulative frequency of the next symbol out of `ft`.
pub open spec fn spec_decode(s: RangeState, ft: int) -> (RangeState, int) {
    let ext = s.rng / ft;
    let q = s.val / ext;
    (RangeState { ext, ..s }, ft - if q + 1 < ft { q + 1 } else { ft })
}

/// `ec_decode_bin`: as `spec_decode` with `ft == 2^bits`.
pub open spec fn spec_decode_bin(s: RangeState, bits: int) -> (RangeState, int) {
    let ft = pow2(bits as nat) as int;
    let ext = s.rng / ft;
    let q = s.val / ext;
    (RangeState { ext, ..s }, ft - if q + 1 < ft { q + 1 } else { ft })
}

/// `ec_dec_update`: consume the symbol occupying `[fl, fh)` out of `ft`.
pub open spec fn spec_update(s: RangeState, fl: int, fh: int, ft: int) -> RangeState {
    let d = s.ext * (ft - fh);
    normalize(
        RangeState {
            val: (s.val - d) % 0x1_0000_0000,
            rng: if fl > 0 { s.ext * (fh - fl) } else { s.rng - d },
            ..s
        },
    )
}

/// `ec_dec_bit_logp`: a binary symbol whose "1" has probability `2^-logp`.
pub open spec fn spec_dec_bit_logp(s: RangeState, logp: int) -> (RangeState, int) {
    let r = s.rng / pow2(logp as nat) as int;
    if s.val < r {
        (normalize(RangeState { rng: r, ..s }), 1)
    } else {
        (normalize(RangeState { val: s.val - r, rng: s.rng - r, ..s }), 0)
    }
}

/// Inverse-CDF tables accepted by `dec_icdf`: non-increasing, ending in 0,
/// first entry below `2^ftb`.
pub open spec fn icdf_ok(icdf: Seq<u8>, ftb: int) -> bool {
    &&& 1 <= icdf.len()
    &&& icdf[icdf.len() - 1] == 0
    &&& forall|i: int, j: int| 0 <= i < j < icdf.len() ==> icdf[i] >= icdf[j]
    &&& (icdf[0] as int) < pow2(ftb as nat)
}

/// The first index `k >= from` whose scaled inverse-CDF entry is at most `d`.
pub open spec fn icdf_index(icdf: Seq<u8>, r: int, d: int, from: int) -> int
    decreases icdf.len() - from,
{
    if from >= icdf.len() - 1 || d >= r * icdf[from] {
        from
    } else {
        icdf_index(icdf, r, d, from + 1)
    }
}

/// `ec_dec_icdf`: decode a symbol from an inverse CDF over `2^ftb`.
pub open spec fn spec_dec_icdf(s: RangeState, icdf: Seq<u8>, ftb: int) -> (RangeState, int) {
    let r = s.rng / pow2(ftb as nat) as int;
    let k = icdf_index(icdf, r, s.val, 0);
    let hi = if k == 0 { s.rng } else { r * icdf[k - 1] };
    let lo = r * icdf[k];
    (normalize(RangeState { val: s.val - lo, rng: hi - lo, ..s }), k)
}

/// Refill the raw-bit window from the back of the buffer, a byte at a time,
/// until it holds more than 24 bits.
pub open spec fn refill(s: RangeState, window: int, avail: int) -> (RangeState, int, int)
    decreases 32 - avail,
{
    let (t, b) = read_byte_from_end(s);
    let w = window + b * pow2(avail as nat);
    if avail + 8 > EC_WINDOW_SIZE - EC_SYM_BITS || avail + 8 > 32 {
        (t, w, avail + 8)
    } else {
        refill(t, w, avail + 8)
    }
}

/// `ec_dec_bits`: `bits` raw bits, least significant first, from the end.
pub open spec fn spec_dec_bits(s: RangeState, bits: int) -> (RangeState, int) {
    let (t, w, a) = if s.nend_bits < bits {
        refill(s, s.end_window, s.nend_bits)
    } else {
        (s, s.end_window, s.nend_bits)
    };
    let p = pow2(bits as nat) as int;
    (
        RangeState {
            end_window: w / p,
            nend_bits: a - bits,
            nbits_total: t.nbits_total + bits,
            ..t
        },
        w % p,
    )
}

/// `ec_dec_uint`: a uniformly distributed integer in `[0, ft)`.
pub open spec fn spec_dec_uint(s: RangeState, ft: int) -> (RangeState, int) {
    let ftm1 = ft - 1;
    let ftb = ilog(ftm1 as nat) as int;
    if ftb > EC_UINT_BITS {
        let sh = ftb - EC_UINT_BITS;
        let ftt = ftm1 / pow2(sh as nat) as int + 1;
        let (s1, sym) = spec_decode(s, ftt);
        let s2 = spec_update(s1, sym, sym + 1, ftt);
        let (s3, raw) = spec_dec_bits(s2, sh);
        let t = sym * pow2(sh as nat) + raw;
        if t <= ftm1 {
            (s3, t)
        } else {
            (RangeState { error: true, ..s3 }, ftm1)
        }
    } else {
        let (s1, sym) = spec_decode(s, ft);
        (spec_update(s1, sym, sym + 1, ft), sym)
    }
}

/// Correction thresholds for the fractional part of `tell_frac`.
pub open spec fn correction(b: int) -> int {
    if b == 0 {
        35733
    } else if b == 1 {
        38967
    } else if b == 2 {
        42495
    } else if b == 3 {
        46340
    } else if b == 4 {
        50535
    } else if b == 5 {
        55109
    } else if b == 6 {
        60097
    } else {
        65535
    }
}

/// `ec_tell_frac`: bits consumed, in eighths of a bit.
pub open spec fn spec_tell_frac(s: RangeState) -> int {
    let l = ilog(s.rng as nat) as int;
    let r = s.rng / pow2((l - 16) as nat) as int;
    let b0 = r / 4096 - 8;
    let b = if r > correction(b0) { b0 + 1 } else { b0 };
    s.nbits_total * 8 - (l * 8 + b)
}

// ---------------------------------------------------------------------------
// Facts about the model

/// Renormalisation restores the invariant and adds at most 24 bits.
pub proof fn lemma_normalize(s: RangeState)
    requires
        s.storage == s.buf.len(),
        0 <= s.offs <= s.storage,
        0 <= s.end_offs <= s.storage,
        1 <= s.rng <= EC_CODE_TOP,
        0 <= s.val < 0x1_0000_0000,
        0 <= s.ext < 0x1_0000_0000,
        0 <= s.rem < 256,
        0 <= s.nend_bits <= 32,
        0 <= s.end_window < pow2(s.nend_bits as nat),
        0 <= s.nbits_total,
    ensures
        ({
            let t = normalize(s);
            &&& t.buf == s.buf
            &&& t.storage == s.storage
            &&& t.end_offs == s.end_offs
            &&& t.end_window == s.end_window
            &&& t.nend_bits == s.nend_bits
            &&& t.ext == s.ext
            &&& t.error == s.error
            &&& s.offs <= t.offs <= t.storage
            &&& EC_CODE_BOT < t.rng <= EC_CODE_TOP
            &&& 0 <= t.val < 0x1_0000_0000
            &&& 0 <= t.rem < 256
            &&& s.nbits_total <= t.nbits_total <= s.nbits_total + 24
            &&& (s.rng > EC_CODE_BOT ==> t == s)
            &&& (s.rng >= 256 ==> t.nbits_total <= s.nbits_total + 16)
            &&& (s.rng >= 0x1_0000 ==> t.nbits_total <= s.nbits_total + 8)
        }),
    decreases 0x1_0000_0000 - s.rng,
{
    if s.rng <= EC_CODE_BOT {
        let n = norm_step(s);
        assert(s.buf[s.offs] < 256) by {
            if s.offs < s.storage {
                assert(s.buf[s.offs] <= 255);
            }
        }
        lemma_normalize(n);
    }
}

/// A decoder created on any buffer starts with one bit consumed.
pub proof fn lemma_initial(buf: Seq<u8>)
    ensures
        initial(buf).wf(),
        initial(buf).tell() == 1,
        initial(buf).nbits_total == 33,
        initial(buf).rng == EC_CODE_TOP,
{
    let s0 = RangeState {
        buf,
        storage: buf.len() as int,
        end_offs: 0,
        end_window: 0,
        nend_bits: 0,
        nbits_total: 9,
        offs: 0,
        rng: 128,
        val: 0,
        ext: 0,
        rem: 0,
        error: false,
    };
    let (s1, b) = read_byte(s0);
    assert(0 <= b < 256);
    let s2 = RangeState { rem: b, val: 127 - b / 2, ..s1 };
    let a = norm_step(s2);
    let c = norm_step(a);
    let d = norm_step(c);
    assert(a.rng == 0x8000);
    assert(c.rng == 0x80_0000);
    assert(d.rng == 0x8000_0000);
    reveal_with_fuel(normalize, 4);
    assert(normalize(s2) == d);
    assert(d.nbits_total == 33);
    assert(pow2(0) == 1) by { lemma2_to64(); }
    lemma_normalize(s2);
    lemma2_to64();
    lemma_ilog_interval(0x8000_0000, 32);
}

/// Facts about `spec_tell_frac` on a well-formed state.
pub proof fn lemma_tell_frac(s: RangeState)
    requires
        s.wf(),
    ensures
        ({
            let l = ilog(s.rng as nat) as int;
            &&& 24 <= l <= 32
            &&& 0x8000 <= (s.rng / pow2((l - 16) as nat) as int) <= 0xFFFF
            &&& 0 <= (s.rng / pow2((l - 16) as nat) as int) / 4096 - 8 <= 7
            &&& 0 <= spec_tell_frac(s) <= 0x1_0000_0000 - 1
            &&& s.nbits_total * 8 < 0x1_0000_0000
        }),
{
    let v = s.rng as u32;
    lemma_ilog_u32(v);
    let l = ilog(s.rng as nat);
    lemma2_to64();
    if l < 24 {
        lemma_pow2_strictly_increases(l, 24);
        assert(false);
    }
    if l > 32 {
        assert(false);
    }
    let e = (l - 16) as nat;
    lemma_pow2_pos(e);
    lemma_pow2_adds(e, 15);
    lemma_pow2_adds(e, 16);
    assert(pow2((l - 1) as nat) == pow2(e) * pow2(15));
    assert(pow2(l) == pow2(e) * pow2(16));
    let r = s.rng / pow2(e) as int;
    vstd::arithmetic::div_mod::lemma_div_is_ordered(
        pow2((l - 1) as nat) as int,
        s.rng,
        pow2(e) as int,
    );
    vstd::arithmetic::div_mod::lemma_div_multiples_vanish(pow2(15) as int, pow2(e) as int);
    vstd::arithmetic::mul::lemma_mul_is_commutative(pow2(e) as int, pow2(15) as int);
    vstd::arithmetic::mul::lemma_mul_is_commutative(pow2(e) as int, pow2(16) as int);
    vstd::arithmetic::div_mod::lemma_div_by_multiple_is_strongly_ordered(
        s.rng,
        pow2(l) as int,
        pow2(16) as int,
        pow2(e) as int,
    );
    vstd::arithmetic::div_mod::lemma_multiply_divide_lt(s.rng, pow2(e) as int, pow2(16) as int);
    assert(r >= 0x8000);
    assert(r < 0x1_0000);
}

// ---------------------------------------------------------------------------
// The executable decoder

pub struct RangeDecoder<'a> {
    buf: &'a [u8],
    storage: usize,
    end_offs: usize,
    end_window: u32,
    nend_bits: i32,
    nbits_total: i32,
    offs: usize,
    rng: u32,
    val: u32,
    ext: u32,
    rem: i32,
    pub error: bool,
}

impl<'a> View for RangeDecoder<'a> {
    type V = RangeState;

    closed spec fn view(&self) -> RangeState {
        RangeState {
            buf: self.buf@,
            storage: self.storage as int,
            end_offs: self.end_offs as int,
            end_window: self.end_window as int,
            nend_bits: self.nend_bits as int,
            nbits_total: self.nbits_total as int,
            offs: self.offs as int,
            rng: self.rng as int,
            val: self.val as int,
            ext: self.ext as int,
            rem: self.rem as int,
            error: self.error,
        }
    }
}

impl<'a> RangeDecoder<'a> {
    /// Start decoding `buf`.
    pub fn new(buf: &'a [u8]) -> (d: Self)
        ensures
            d@ == initial(buf@),
            d@.wf(),
            d@.tell() == 1,
            d@.nbits_total == 33,
            d@.storage == buf@.len(),
    {
        let mut d = RangeDecoder {
            buf,
            storage: buf.len(),
            end_offs: 0,
            end_window: 0,
            nend_bits: 0,
            nbits_total: EC_CODE_BITS + 1 - ((EC_CODE_BITS - EC_CODE_EXTRA as i32)
                / EC_SYM_BITS as i32) * EC_SYM_BITS as i32,
            offs: 0,
            rng: 1u32 << EC_CODE_EXTRA,
            val: 0,
            ext: 0,
            rem: 0,
            error: false,
        };
        assert(1u32 << 7u32 == 128) by (bit_vector);
        proof {
            assert(pow2(0) == 1) by { lemma2_to64(); }
        }
        d.rem = d.read_byte();
        let r = d.rem as u32;
        assert(r >> 1u32 == r / 2) by (bit_vector);
        d.val = d.rng - 1 - (d.rem as u32 >> (EC_SYM_BITS - EC_CODE_EXTRA));
        proof {
            lemma_normalize(d@);
        }
        d.normalize();
        proof {
            lemma_initial(buf@);
        }
        d
    }

    /// The bits consumed so far, rounded up.
    pub fn tell(&self) -> (t: i32)
        requires
            self@.wf(),
        ensures
            t == self@.tell(),
    {
        self.nbits_total - ec_ilog(self.rng)
    }

    /// Whether a symbol was out of range or raw bits ran out.
    pub fn error(&self) -> (e: bool)
        ensures
            e == self@.error,
    {
        self.error
    }

    /// The length of the buffer being decoded.
    pub fn storage(&self) -> (n: usize)
        ensures
            n == self@.storage,
    {
        self.storage
    }

    fn read_byte(&mut self) -> (b: i32)
        requires
            old(self).storage == old(self).buf@.len(),
            old(self).offs <= old(self).storage,
        ensures
            (final(self)@, b as int) == read_byte(old(self)@),
            0 <= b < 256,
    {
        if self.offs < self.storage {
            let b = self.buf[self.offs] as i32;
            self.offs += 1;
            b
        } else {
            0
        }
    }

    fn read_byte_from_end(&mut self) -> (b: i32)
        requires
            old(self).storage == old(self).buf@.len(),
            old(self).end_offs <= old(self).storage,
        ensures
            (final(self)@, b as int) == read_byte_from_end(old(self)@),
            0 <= b < 256,
    {
        if self.end_offs < self.storage {
            self.end_offs += 1;
            self.buf[self.storage - self.end_offs] as i32
        } else {
            0
        }
    }

    fn normalize(&mut self)
        requires
            old(self)@.storage == old(self)@.buf.len(),
            0 <= old(self)@.offs <= old(self)@.storage,
            1 <= old(self)@.rng <= EC_CODE_TOP,
            0 <= old(self)@.rem < 256,
            old(self)@.nbits_total + 24 <= i32::MAX,
        ensures
            final(self)@ == normalize(old(self)@),
    {
        let ghost target = normalize(old(self)@);
        while self.rng <= EC_CODE_BOT
            invariant
                self@.storage == self@.buf.len(),
                0 <= self@.offs <= self@.storage,
                1 <= self@.rng <= EC_CODE_TOP,
                0 <= self@.rem < 256,
                normalize(self@) == target,
                self@.nbits_total + 24 - 8 * (if self.rng > 0x80_0000 {
                    3int
                } else if self.rng >= 0x1_0000 {
                    2int
                } else if self.rng >= 256 {
                    1int
                } else {
                    0int
                }) <= i32::MAX,
            decreases 0x1_0000_0000 - self.rng,
        {
            let ghost before = self@;
            self.nbits_total += EC_SYM_BITS as i32;
            let rg = self.rng;
            assert(rg <= 0x80_0000 ==> rg << 8u32 == rg * 256) by (bit_vector);
            self.rng <<= EC_SYM_BITS;
            let sym0 = self.rem;
            self.rem = self.read_byte();
            let a = sym0 as u32;
            let b = self.rem as u32;
            let v = self.val;
            let sym = (((a << EC_SYM_BITS) | b) as i32) >> (EC_SYM_BITS - EC_CODE_EXTRA);
            assert(a < 256 && b < 256 ==> (((a << 8u32) | b) as i32) >> 1u32 == ((a * 256 + b)
                / 2) as i32) by (bit_vector);
            let x = EC_SYM_MAX & !(sym as u32);
            let sy = sym as u32;
            assert(sy < 0x8000 ==> (255u32 & !sy) == 255 - sy % 256) by (bit_vector);
            self.val = ((v << EC_SYM_BITS).wrapping_add(x)) & (EC_CODE_TOP - 1);
            assert(x <= 255 ==> (((v << 8u32) as u32).wrapping_add(x) & 0x7fff_ffffu32) == ((v as int
                * 256 + x as int) % 0x8000_0000int) as u32) by (bit_vector);
            assert(self@ == norm_step(before));
        }
    }

    /// `ec_decode`.
    pub fn decode(&mut self, ft: u32) -> (r: u32)
        requires
            old(self)@.wf(),
            1 <= ft <= 0x1_0000,
        ensures
            (final(self)@, r as int) == spec_decode(old(self)@, ft as int),
            final(self)@.wf(),
            final(self)@.storage == old(self)@.storage,
            final(self)@.nbits_total == old(self)@.nbits_total,
            final(self)@.ext_fits(ft as int),
            r < ft,
    {
        self.ext = self.rng / ft;
        proof {
            let e = self.ext as int;
            let rg = self.rng as int;
            vstd::arithmetic::div_mod::lemma_fundamental_div_mod(rg, ft as int);
            vstd::arithmetic::div_mod::lemma_mod_bound(rg, ft as int);
            assert(e * ft <= rg) by (nonlinear_arith)
                requires rg == ft * e + rg % (ft as int), rg % (ft as int) >= 0;
            assert(e >= 128) by {
                vstd::arithmetic::div_mod::lemma_div_is_ordered(0x80_0000, rg, ft as int);
                vstd::arithmetic::div_mod::lemma_div_is_ordered_by_denominator(0x80_0000, ft as int, 0x1_0000);
            }
            vstd::arithmetic::div_mod::lemma_div_is_ordered_by_denominator(self.val as int, 2, e);
        }
        let s = self.val / self.ext;
        ft - ft.min(s + 1)
    }

    /// `ec_decode_bin`.
    pub fn decode_bin(&mut self, bits: u32) -> (r: u32)
        requires
            old(self)@.wf(),
            bits <= 16,
        ensures
            (final(self)@, r as int) == spec_decode_bin(old(self)@, bits as int),
            final(self)@.wf(),
            final(self)@.storage == old(self)@.storage,
            final(self)@.nbits_total == old(self)@.nbits_total,
            final(self)@.ext_fits(pow2(bits as nat) as int),
            r < pow2(bits as nat),
    {
        proof {
            lemma_u32_mask_shift(self.rng, bits);
            lemma_u32_mask_shift(1, bits);
            lemma2_to64();
            if bits < 16 {
                lemma_pow2_strictly_increases(bits as nat, 16);
            }
        }
        self.ext = self.rng >> bits;
        proof {
            let p = pow2(bits as nat) as int;
            let e = self.ext as int;
            let rg = self.rng as int;
            vstd::arithmetic::div_mod::lemma_fundamental_div_mod(rg, p);
            vstd::arithmetic::div_mod::lemma_mod_bound(rg, p);
            assert(e * p <= rg) by (nonlinear_arith)
                requires rg == p * e + rg % p, rg % p >= 0;
            vstd::arithmetic::div_mod::lemma_div_is_ordered(0x80_0000, rg, p);
            vstd::arithmetic::div_mod::lemma_div_is_ordered_by_denominator(0x80_0000, p, 0x1_0000);
            vstd::arithmetic::div_mod::lemma_div_is_ordered_by_denominator(self.val as int, 2, e);
        }
        let s = self.val / self.ext;
        let one = 1u32 << bits;
        one - one.min(s + 1)
    }

    /// `ec_dec_update`.
    pub fn update(&mut self, fl: u32, fh: u32, ft: u32)
        requires
            old(self)@.wf(),
            old(self)@.nbits_total + 24 <= BITS_LIMIT,
            old(self)@.ext_fits(ft as int),
            fl < fh <= ft,
        ensures
            final(self)@ == spec_update(old(self)@, fl as int, fh as int, ft as int),
            final(self)@.wf(),
            final(self)@.storage == old(self)@.storage,
            old(self)@.nbits_total <= final(self)@.nbits_total <= old(self)@.nbits_total + 24,
    {
        proof {
            assert(self.ext * (ft - fh) <= self.ext * ft) by (nonlinear_arith)
                requires self.ext >= 1, fh <= ft;
            assert(self.ext * (fh - fl) <= self.ext * ft) by (nonlinear_arith)
                requires self.ext >= 1, fl < fh, fh <= ft;
            assert(self.ext * (fh - fl) >= 1) by (nonlinear_arith)
                requires self.ext >= 1, fl < fh;
            assert(self.ext * (ft - fh) + self.ext <= self.ext * ft) by (nonlinear_arith)
                requires self.ext >= 1, fh >= 1, fh <= ft;
        }
        let s = self.ext * (ft - fh);
        self.val = self.val.wrapping_sub(s);
        self.rng = if fl > 0 {
            self.ext * (fh - fl)
        } else {
            self.rng - s
        };
        proof {
            lemma_normalize(self@);
        }
        self.normalize();
    }

    /// `ec_dec_bit_logp`.
    pub fn dec_bit_logp(&mut self, logp: u32) -> (r: u32)
        requires
            old(self)@.wf(),
            old(self)@.nbits_total + 24 <= BITS_LIMIT,
            1 <= logp <= 23,
        ensures
            (final(self)@, r as int) == spec_dec_bit_logp(old(self)@, logp as int),
            final(self)@.wf(),
            final(self)@.storage == old(self)@.storage,
            r <= 1,
            old(self)@.nbits_total <= final(self)@.nbits_total <= old(self)@.nbits_total + 24,
    {
        let r = self.rng;
        let d = self.val;
        proof {
            lemma_u32_mask_shift(r, logp);
            lemma2_to64();
            lemma_pow2_strictly_increases(logp as nat, 24);
            let p = pow2(logp as nat) as int;
            vstd::arithmetic::div_mod::lemma_div_is_ordered(0x80_0000, r as int, p);
            vstd::arithmetic::div_mod::lemma_div_is_ordered_by_denominator(0x80_0000, p, 0x80_0000);
            vstd::arithmetic::div_mod::lemma_fundamental_div_mod(r as int, p);
            vstd::arithmetic::div_mod::lemma_div_decreases(r as int, p);
        }
        let s = r >> logp;
        let ret = (d < s) as u32;
        if ret == 0 {
            self.val = d - s;
        }
        self.rng = if ret == 1 {
            s
        } else {
            r - s
        };
        proof {
            lemma_normalize(self@);
        }
        self.normalize();
        ret
    }

    /// `ec_dec_icdf`.
    pub fn dec_icdf(&mut self, icdf: &[u8], ftb: u32) -> (k: usize)
        requires
            old(self)@.wf(),
            old(self)@.nbits_total + 24 <= BITS_LIMIT,
            1 <= ftb <= 15,
            icdf_ok(icdf@, ftb as int),
        ensures
            (final(self)@, k as int) == spec_dec_icdf(old(self)@, icdf@, ftb as int),
            final(self)@.wf(),
            final(self)@.storage == old(self)@.storage,
            k < icdf@.len(),
            old(self)@.nbits_total <= final(self)@.nbits_total <= old(self)@.nbits_total + 24,
    {
        let s0 = self.rng;
        let d = self.val;
        proof {
            lemma_u32_mask_shift(s0, ftb);
            lemma2_to64();
            lemma_pow2_strictly_increases(ftb as nat, 24);
            let p = pow2(ftb as nat) as int;
            vstd::arithmetic::div_mod::lemma_div_is_ordered(0x80_0000, s0 as int, p);
            vstd::arithmetic::div_mod::lemma_div_is_ordered_by_denominator(0x80_0000, p, 0x80_0000);
            vstd::arithmetic::div_mod::lemma_fundamental_div_mod(s0 as int, p);
            vstd::arithmetic::div_mod::lemma_mod_bound(s0 as int, p);
        }
        let r = s0 >> ftb;
        let ghost p = pow2(ftb as nat) as int;
        proof {
            assert(r * p <= s0) by (nonlinear_arith)
                requires s0 == p * r + (s0 as int) % p, (s0 as int) % p >= 0;
            assert(r * (icdf@[0] as int) <= r * (p - 1)) by (nonlinear_arith)
                requires icdf@[0] as int <= p - 1, r >= 0;
            assert(r * (p - 1) + r <= s0) by (nonlinear_arith)
                requires r * p <= s0;
        }
        let n = icdf.len();
        let mut ret: usize = 0;
        let mut t = s0;
        let mut s = r * icdf[0] as u32;
        while d < s
            invariant
                0 <= ret < icdf@.len(),
                n == icdf@.len(),
                icdf_ok(icdf@, ftb as int),
                s == r * icdf@[ret as int],
                t == if ret == 0 { s0 as int } else { r * icdf@[ret - 1] },
                icdf_index(icdf@, r as int, d as int, 0) == icdf_index(icdf@, r as int, d as int, ret as int),
                r * (icdf@[0] as int) + r <= s0,
                r >= 1,
                t <= s0,
                s <= r * (icdf@[0] as int),
                ret > 0 ==> d < t,
                d == self.val,
                s0 == self.rng,
            decreases icdf@.len() - ret,
        {
            proof {
                if ret as int == icdf@.len() - 1 {
                    assert(icdf@[ret as int] == 0);
                    assert(r * (icdf@[ret as int] as int) == 0) by (nonlinear_arith)
                        requires icdf@[ret as int] == 0;
                    assert(false);
                }
                assert(icdf@[ret + 1] <= icdf@[ret as int]);
                assert(icdf@[ret + 1] <= icdf@[0]);
                assert(r * icdf@[ret + 1] <= r * icdf@[ret as int]) by (nonlinear_arith)
                    requires icdf@[ret + 1] <= icdf@[ret as int], r >= 1;
                assert(r * icdf@[ret + 1] <= r * icdf@[0]) by (nonlinear_arith)
                    requires icdf@[ret + 1] <= icdf@[0], r >= 1;
            }
            assert(ret + 1 < icdf@.len());
            assert(r * icdf@[ret + 1] <= s0);
            t = s;
            ret += 1;
            s = r * icdf[ret] as u32;
        }
        proof {
            assert(icdf_index(icdf@, r as int, d as int, ret as int) == ret as int);
            if ret > 0 {
                assert(d < t);
            } else {
                assert(r * icdf@[0] as int + r <= s0);
            }
        }
        self.val = d - s;
        self.rng = t - s;
        proof {
            lemma_normalize(self@);
        }
        self.normalize();
        ret
    }

    /// `ec_dec_uint`.
    pub fn dec_uint(&mut self, ft: u32) -> (r: u32)
        requires
            old(self)@.wf(),
            old(self)@.room(1),
            ft > 1,
        ensures
            (final(self)@, r as int) == spec_dec_uint(old(self)@, ft as int),
            final(self)@.wf(),
            final(self)@.storage == old(self)@.storage,
            r < ft,
            old(self)@.nbits_total <= final(self)@.nbits_total <= old(self)@.nbits_total + 64,
    {
        let ftm1 = ft - 1;
        let ftb = ec_ilog(ftm1);
        if ftb > EC_UINT_BITS as i32 {
            let ftb = (ftb as u32) - EC_UINT_BITS;
            proof {
                lemma_ilog_u32(ftm1);
                lemma_u32_mask_shift(ftm1, ftb);
                lemma_pow2_pos(ftb as nat);
                let e = (ilog(ftm1 as nat) - 1) as nat;
                lemma_pow2_adds(ftb as nat, 8);
                lemma_pow2_adds(ftb as nat, 7);
                lemma2_to64();
                assert(pow2(ilog(ftm1 as nat)) == pow2(ftb as nat) * 256);
                assert(pow2(e) == pow2(ftb as nat) * 128);
                vstd::arithmetic::div_mod::lemma_div_by_multiple_is_strongly_ordered(
                    ftm1 as int, (pow2(ftb as nat) * 256) as int, 256, pow2(ftb as nat) as int);
                vstd::arithmetic::mul::lemma_mul_is_commutative(pow2(ftb as nat) as int, 256);
                vstd::arithmetic::div_mod::lemma_div_by_multiple(256, pow2(ftb as nat) as int);
            }
            let ftt = (ftm1 >> ftb) + 1;
            let s = self.decode(ftt);
            self.update(s, s + 1, ftt);
            let raw = self.dec_bits(ftb);
            proof {
                assert(s * pow2(ftb as nat) <= 255 * pow2(ftb as nat)) by (nonlinear_arith)
                    requires s <= 255;
                lemma_u32_mask_shift(1, ftb);
                assert(s << ftb == s * pow2(ftb as nat)) by {
                    lemma_u32_pow2_no_overflow(ftb as nat);
                    lemma_u32_shl_is_mul(s, ftb);
                }
                assert(raw < pow2(ftb as nat));
                assert(s * pow2(ftb as nat) < pow2(32)) by {
                    if ftb + 8 < 32 {
                        lemma_pow2_strictly_increases(ftb as nat + 8, 32);
                    }
                    lemma_pow2_adds(ftb as nat, 8);
                    assert(s * pow2(ftb as nat) < 256 * pow2(ftb as nat)) by (nonlinear_arith)
                        requires s <= 255, pow2(ftb as nat) > 0;
                }
                assert((s << ftb) | raw == s * pow2(ftb as nat) + raw) by {
                    lemma_sum_disjoint(s, raw, ftb);
                }
            }
            let t = (s << ftb) | raw;
            if t <= ftm1 {
                t
            } else {
                self.error = true;
                ftm1
            }
        } else {
            proof {
                lemma_ilog_u32(ftm1);
                lemma2_to64();
                if ilog(ftm1 as nat) < 8 {
                    lemma_pow2_strictly_increases(ilog(ftm1 as nat), 8);
                }
            }
            let s = self.decode(ft);
            self.update(s, s + 1, ft);
            s
        }
    }

    /// `ec_dec_bits`.
    pub fn dec_bits(&mut self, bits: u32) -> (r: u32)
        requires
            old(self)@.wf(),
            old(self)@.nbits_total + bits <= BITS_LIMIT,
            bits <= 25,
        ensures
            (final(self)@, r as int) == spec_dec_bits(old(self)@, bits as int),
            final(self)@.wf(),
            final(self)@.storage == old(self)@.storage,
            r < pow2(bits as nat),
            final(self)@.nbits_total == old(self)@.nbits_total + bits,
    {
        let mut window = self.end_window;
        let mut available = self.nend_bits;
        let ghost target = if old(self)@.nend_bits < bits {
            refill(old(self)@, old(self)@.end_window, old(self)@.nend_bits)
        } else {
            (old(self)@, old(self)@.end_window, old(self)@.nend_bits)
        };
        if (available as u32) < bits {
            loop
                invariant_except_break
                    available <= 24,
                    refill(self@, window as int, available as int) == target,
                invariant
                    0 <= available <= 32,
                    window < pow2(available as nat),
                    self@.storage == self@.buf.len(),
                    self@.end_offs <= self@.storage,
                    self@.offs == old(self)@.offs,
                    self@.buf == old(self)@.buf,
                    self@.rng == old(self)@.rng,
                    self@.val == old(self)@.val,
                    self@.ext == old(self)@.ext,
                    self@.rem == old(self)@.rem,
                    self@.nbits_total == old(self)@.nbits_total,
                    self@.error == old(self)@.error,
                    self@.end_window == old(self)@.end_window,
                    self@.nend_bits == old(self)@.nend_bits,
                ensures
                    25 <= available <= 32,
                    (self@, window as int, available as int) == target,
                decreases 32 - available,
            {
                let ghost before = self@;
                let b = self.read_byte_from_end();
                proof {
                    lemma_u32_or_above(window, b as u32, available as u32);
                    lemma_pow2_adds(available as nat, 8);
                    lemma2_to64();
                    let pa = pow2(available as nat) as int;
                    let pb = pow2((available + 8) as nat) as int;
                    assert(pb == pa * 256);
                    assert((b as int) * pa <= 255 * pa) by (nonlinear_arith)
                        requires b < 256, pa > 0;
                    assert(window + (b as int) * pa < pb);
                }
                window |= (b as u32) << (available as u32);
                available += EC_SYM_BITS as i32;
                if available > EC_WINDOW_SIZE - EC_SYM_BITS as i32 {
                    break;
                }
            }
        }
        proof {
            lemma_u32_mask_shift(window, bits);
            lemma_u32_mask_shift(1, bits);
            lemma_pow2_pos(bits as nat);
            vstd::arithmetic::div_mod::lemma_mod_bound(window as int, pow2(bits as nat) as int);
            lemma_pow2_adds(bits as nat, (available - bits) as nat);
            vstd::arithmetic::div_mod::lemma_multiply_divide_lt(window as int,
                pow2(bits as nat) as int, pow2((available - bits) as nat) as int);
        }
        let ret = window & ((1u32 << bits) - 1);
        window >>= bits;
        available -= bits as i32;
        self.end_window = window;
        self.nend_bits = available;
        self.nbits_total += bits as i32;
        ret
    }

    /// `ec_tell_frac`: bits consumed, in eighths of a bit.
    pub fn tell_frac(&self) -> (t: u32)
        requires
            self@.wf(),
        ensures
            t == spec_tell_frac(self@),
    {
        let correction: [u32; 8] = [35733, 38967, 42495, 46340, 50535, 55109, 60097, 65535];
        proof {
            lemma_tell_frac(self@);
        }
        let nbits = (self.nbits_total as u32) << 3;
        let l = ec_ilog(self.rng);
        proof {
            lemma_u32_mask_shift(self.rng, (l - 16) as u32);
            let nt = self.nbits_total as u32;
            assert(nt < 0x2000_0000 ==> nt << 3u32 == nt * 8) by (bit_vector);
        }
        let r = self.rng >> (l - 16) as u32;
        assert(r >> 12u32 == r / 4096) by (bit_vector);
        let mut b = (r >> 12) - 8;
        b += (r > correction[b as usize]) as u32;
        let lu = l as u32;
        assert(lu <= 32 ==> lu << 3u32 == lu * 8) by (bit_vector);
        let l = (lu << 3) + b;
        nbits - l
    }
}

/// Or of a left-shifted value with bits below the shift is their sum.
proof fn lemma_sum_disjoint(s: u32, raw: u32, sh: u32)
    requires
        sh < 32,
        raw < pow2(sh as nat),
        s * pow2(sh as nat) < pow2(32),
    ensures
        (s << sh) | raw == s * pow2(sh as nat) + raw,
{
    lemma_u32_pow2_no_overflow(sh as nat);
    lemma_u32_shl_is_mul(1, sh);
    lemma2_to64();
    lemma_u32_shl_is_mul(s, sh);
    assert(raw < (1u32 << sh) ==> (s << sh) | raw == (s << sh) + raw) by (bit_vector)
        requires sh < 32;
}

/// The fractional count lies within nine bits below eight times the whole
/// count.
pub proof fn lemma_tell_frac_bounds(s: RangeState)
    requires
        s.wf(),
    ensures
        8 * s.nbits_total - 264 <= spec_tell_frac(s) <= 8 * s.nbits_total - 192,
{
    crate::arith::lemma_ilog_u32(s.rng as u32);
    let l = ilog(s.rng as nat) as int;
    lemma2_to64();
    if l < 24 {
        lemma_pow2_strictly_increases(l as nat, 24);
    }
    if l > 32 {
        lemma_pow2_strictly_increases(32, (l - 1) as nat);
    }
    let d = pow2((l - 16) as nat) as int;
    lemma_pow2_pos((l - 16) as nat);
    lemma_pow2_adds((l - 16) as nat, 16);
    lemma_pow2_adds((l - 16) as nat, 15);
    assert(pow2(((l - 16) + 16) as nat) == pow2(l as nat));
    assert(pow2(((l - 16) + 15) as nat) == pow2((l - 1) as nat));
    let r = s.rng / d;
    vstd::arithmetic::div_mod::lemma_fundamental_div_mod(s.rng as int, d);
    vstd::arithmetic::div_mod::lemma_mod_bound(s.rng as int, d);
    assert(r < 65536) by (nonlinear_arith)
        requires s.rng == d * r + s.rng % d, 0 <= s.rng % d, (s.rng as int) < d * 65536, d > 0;
    assert(r >= 32768) by (nonlinear_arith)
        requires s.rng == d * r + s.rng % d, s.rng % d < d, (s.rng as int) >= d * 32768, d > 0;
}


// ---------------------------------------------------------------------------
// Laws of the decoder

proof fn lemma_normalize_error(s: RangeState)
    ensures
        normalize(s).error == s.error,
        normalize(s).storage == s.storage,
    decreases 0x1_0000_0000 - s.rng,
{
    if !(s.rng <= 0 || s.rng > EC_CODE_BOT) {
        lemma_normalize_error(norm_step(s));
    }
}

proof fn lemma_refill_error(s: RangeState, window: int, avail: int)
    ensures
        refill(s, window, avail).0.error == s.error,
    decreases 32 - avail,
{
    let (t, b) = read_byte_from_end(s);
    let w = window + b * pow2(avail as nat);
    if !(avail + 8 > EC_WINDOW_SIZE - EC_SYM_BITS || avail + 8 > 32) {
        lemma_refill_error(t, w, avail + 8);
    }
}

/// `dec_uint`'s error flag is sticky: once set it stays set; it is newly
/// set only together with the saturated value `ft - 1`; and a total of at
/// most 256 never touches it.
pub proof fn lemma_dec_uint_sticky(s: RangeState, ft: int)
    requires
        s.wf(),
        1 < ft <= 0xFFFF_FFFF,
    ensures
        ({
            let (s2, r) = spec_dec_uint(s, ft);
            &&& s.error ==> s2.error
            &&& (s2.error && !s.error) ==> r == ft - 1
            &&& ft - 1 < 256 ==> s2.error == s.error
        }),
{
    let ftm1 = ft - 1;
    crate::arith::lemma_ilog_u32(ftm1 as u32);
    let ftb = ilog(ftm1 as nat) as int;
    if ftm1 < 256 {
        lemma2_to64();
        if ftb > 8 {
            lemma_pow2_strictly_increases(8, (ftb - 1) as nat);
        }
    }
    if ftb > EC_UINT_BITS {
        let sh = ftb - EC_UINT_BITS;
        let ftt = ftm1 / pow2(sh as nat) as int + 1;
        let (s1, sym) = spec_decode(s, ftt);
        let x = RangeState {
            val: (s1.val - s1.ext * (ftt - (sym + 1))) % 0x1_0000_0000,
            rng: if sym > 0 { s1.ext * (sym + 1 - sym) } else { s1.rng - s1.ext * (ftt - (sym + 1)) },
            ..s1
        };
        lemma_normalize_error(x);
        let s2 = spec_update(s1, sym, sym + 1, ftt);
        if s2.nend_bits < sh {
            lemma_refill_error(s2, s2.end_window, s2.nend_bits);
        }
    } else {
        let (s1, sym) = spec_decode(s, ft);
        let x = RangeState {
            val: (s1.val - s1.ext * (ft - (sym + 1))) % 0x1_0000_0000,
            rng: if sym > 0 { s1.ext * (sym + 1 - sym) } else { s1.rng - s1.ext * (ft - (sym + 1)) },
            ..s1
        };
        lemma_normalize_error(x);
    }
}

/// `decode_bin(bits)` is `decode(2^bits)`.
pub proof fn lemma_decode_bin_is_decode(s: RangeState, bits: int)
    requires
        0 <= bits <= 15,
    ensures
        spec_decode_bin(s, bits) == spec_decode(s, pow2(bits as nat) as int),
{
}

/// A bit with probability `2^-logp` of being one is the two-entry inverse
/// CDF `[1, 0]` over `2^logp`: same value, same state after it.
pub proof fn lemma_bit_logp_is_icdf(s: RangeState, logp: int)
    requires
        s.wf(),
        1 <= logp <= 15,
    ensures
        spec_dec_bit_logp(s, logp) == spec_dec_icdf(s, seq![1u8, 0], logp),
{
    let icdf = seq![1u8, 0];
    let r = s.rng / pow2(logp as nat) as int;
    reveal_with_fuel(icdf_index, 3);
    assert(icdf[0] == 1u8 && icdf[1] == 0u8);
    assert(r * 1 == r && r * 0 == 0);
    if s.val < r {
        assert(icdf_index(icdf, r, s.val, 0) == 1);
    } else {
        assert(icdf_index(icdf, r, s.val, 0) == 0);
    }
}

proof fn lemma_ilog_mul256(r: nat)
    requires
        r >= 1,
    ensures
        ilog(r * 256) == ilog(r) + 8,
{
    crate::arith::lemma_ilog_u32(1);
    let k = ilog(r);
    lemma_ilog_bounds(r);
    lemma_pow2_adds((k - 1) as nat, 8);
    lemma_pow2_adds(k, 8);
    lemma2_to64();
    assert(((k - 1) as nat + 8) as nat == ((k + 8) - 1) as nat);
    assert(pow2(((k + 8) - 1) as nat) == pow2((k - 1) as nat) * 256);
    assert(pow2(k + 8) == pow2(k) * 256);
    assert(pow2(((k + 8) - 1) as nat) <= r * 256) by (nonlinear_arith)
        requires pow2(((k + 8) - 1) as nat) == pow2((k - 1) as nat) * 256, pow2((k - 1) as nat) <= r;
    assert(r * 256 < pow2(k + 8)) by (nonlinear_arith)
        requires pow2(k + 8) == pow2(k) * 256, r < pow2(k);
    crate::arith::lemma_ilog_interval(r * 256, k + 8);
}

proof fn lemma_ilog_bounds(r: nat)
    requires
        r >= 1,
    ensures
        ilog(r) >= 1,
        pow2((ilog(r) - 1) as nat) <= r < pow2(ilog(r)),
    decreases r,
{
    lemma2_to64();
    if r >= 2 {
        lemma_ilog_bounds(r / 2);
        let k = ilog(r / 2);
        lemma_pow2_unfold(k);
        lemma_pow2_unfold(k + 1);
        assert(ilog(r) == k + 1);
        assert(r == 2 * (r / 2) + r % 2);
        assert(pow2(k) <= r);
        assert(r < pow2(k + 1));
    } else {
        assert(ilog(0) == 0);
        assert(ilog(1) == 1);
    }
}

proof fn lemma_ilog_mono(a: nat, b: nat)
    requires
        a <= b,
    ensures
        ilog(a) <= ilog(b),
    decreases b,
{
    if a > 0 && b > 0 {
        lemma_ilog_mono(a / 2, b / 2);
    }
}

/// Renormalisation moves range bits into the counter one for one: the
/// count of consumed bits does not change.
proof fn lemma_normalize_tell(s: RangeState)
    requires
        1 <= s.rng,
    ensures
        normalize(s).nbits_total - ilog(normalize(s).rng as nat) == s.nbits_total - ilog(s.rng as nat),
    decreases 0x1_0000_0000 - s.rng,
{
    if s.rng <= EC_CODE_BOT {
        lemma_ilog_mul256(s.rng as nat);
        lemma_normalize_tell(norm_step(s));
    }
}

/// The raw-bit refill touches neither the range nor the counter.
proof fn lemma_refill_keeps(s: RangeState, window: int, avail: int)
    ensures
        refill(s, window, avail).0.rng == s.rng,
        refill(s, window, avail).0.nbits_total == s.nbits_total,
    decreases 32 - avail,
{
    let (t, b) = read_byte_from_end(s);
    let w = window + b * pow2(avail as nat);
    if !(avail + 8 > EC_WINDOW_SIZE - EC_SYM_BITS || avail + 8 > 32) {
        lemma_refill_keeps(t, w, avail + 8);
    }
}

/// Consuming a symbol never lowers the count of consumed bits: after
/// `update` of a symbol `[fl, fh)` out of a `ft` that the last `decode` fit.
pub proof fn lemma_update_tell(s: RangeState, fl: int, fh: int, ft: int)
    requires
        s.wf(),
        s.ext_fits(ft),
        0 <= fl < fh <= ft,
    ensures
        spec_update(s, fl, fh, ft).tell() >= s.tell(),
        spec_update(s, fl, fh, ft).storage == s.storage,
{
    let d = s.ext * (ft - fh);
    let x = RangeState {
        val: (s.val - d) % 0x1_0000_0000,
        rng: if fl > 0 { s.ext * (fh - fl) } else { s.rng - d },
        ..s
    };
    assert(s.ext * (fh - fl) <= s.ext * ft) by (nonlinear_arith)
        requires s.ext >= 1, 0 <= fl, fh <= ft, fl < fh;
    assert(s.ext * (fh - fl) >= 1) by (nonlinear_arith)
        requires s.ext >= 1, fl < fh;
    assert(d <= s.ext * ft - s.ext) by (nonlinear_arith)
        requires s.ext >= 1, fl < fh, fh <= ft, d == s.ext * (ft - fh), 0 <= fl;
    assert(d >= 0) by (nonlinear_arith)
        requires s.ext >= 1, fh <= ft, d == s.ext * (ft - fh);
    assert(1 <= x.rng <= s.rng);
    lemma_normalize_tell(x);
    lemma_ilog_mono(x.rng as nat, s.rng as nat);
    lemma_normalize(x);
}

/// `decode` reads nothing: the count of consumed bits is unchanged.
pub proof fn lemma_decode_tell(s: RangeState, ft: int)
    ensures
        spec_decode(s, ft).0.tell() == s.tell(),
        spec_decode(s, ft).0.storage == s.storage,
{
}

/// A binary symbol never lowers the count of consumed bits.
pub proof fn lemma_bit_logp_tell(s: RangeState, logp: int)
    requires
        s.wf(),
        1 <= logp <= 15,
    ensures
        spec_dec_bit_logp(s, logp).0.tell() >= s.tell(),
        spec_dec_bit_logp(s, logp).0.storage == s.storage,
{
    let p = pow2(logp as nat) as int;
    lemma2_to64();
    lemma_pow2_pos(logp as nat);
    lemma_pow2_strictly_increases(logp as nat, 16);
    let r = s.rng / p;
    vstd::arithmetic::div_mod::lemma_fundamental_div_mod(s.rng as int, p);
    vstd::arithmetic::div_mod::lemma_mod_bound(s.rng as int, p);
    assert(r >= 1 && r <= s.rng) by (nonlinear_arith)
        requires s.rng == p * r + s.rng % p, 0 <= s.rng % p < p, 1 <= p <= 0x1_0000, s.rng > 0x80_0000;
    assert(s.rng - r >= 1) by (nonlinear_arith)
        requires s.rng == p * r + s.rng % p, 0 <= s.rng % p, p >= 2, r >= 1;
    if s.val < r {
        let x = RangeState { rng: r, ..s };
        lemma_normalize_tell(x);
        lemma_ilog_mono(x.rng as nat, s.rng as nat);
        lemma_normalize(x);
    } else {
        let x = RangeState { val: s.val - r, rng: s.rng - r, ..s };
        lemma_normalize_tell(x);
        lemma_ilog_mono(x.rng as nat, s.rng as nat);
        lemma_normalize(x);
    }
}

/// Raw bits count one for one: `dec_bits(bits)` adds exactly `bits` to the
/// count of consumed bits.
pub proof fn lemma_dec_bits_tell(s: RangeState, bits: int)
    ensures
        spec_dec_bits(s, bits).0.tell() == s.tell() + bits,
        spec_dec_bits(s, bits).0.storage == s.storage,
{
    if s.nend_bits < bits {
        lemma_refill_keeps(s, s.end_window, s.nend_bits);
        lemma_refill_storage(s, s.end_window, s.nend_bits);
    }
}

proof fn lemma_refill_storage(s: RangeState, window: int, avail: int)
    ensures
        refill(s, window, avail).0.storage == s.storage,
    decreases 32 - avail,
{
    let (t, b) = read_byte_from_end(s);
    let w = window + b * pow2(avail as nat);
    if !(avail + 8 > EC_WINDOW_SIZE - EC_SYM_BITS || avail + 8 > 32) {
        lemma_refill_storage(t, w, avail + 8);
    }
}

proof fn lemma_decode_fits(s: RangeState, ft: int)
    requires
        s.wf(),
        2 <= ft <= 0x1_0000,
    ensures
        spec_decode(s, ft).0.wf(),
        spec_decode(s, ft).0.ext_fits(ft),
        0 <= spec_decode(s, ft).1 < ft,
{
    let ext = s.rng / ft;
    vstd::arithmetic::div_mod::lemma_fundamental_div_mod(s.rng as int, ft);
    vstd::arithmetic::div_mod::lemma_mod_bound(s.rng as int, ft);
    assert(ext >= 1 && ext * ft <= s.rng && ext < 0x1_0000_0000) by (nonlinear_arith)
        requires s.rng == ft * ext + s.rng % ft, 0 <= s.rng % ft < ft, 2 <= ft <= 0x1_0000, s.rng > 0x80_0000,
            s.rng <= 0x8000_0000;
    vstd::arithmetic::div_mod::lemma_div_pos_is_pos(s.val as int, ext);
}

/// `dec_uint` never lowers the count of consumed bits.
pub proof fn lemma_dec_uint_tell(s: RangeState, ft: int)
    requires
        s.wf(),
        1 < ft <= 0xFFFF_FFFF,
    ensures
        spec_dec_uint(s, ft).0.tell() >= s.tell(),
        spec_dec_uint(s, ft).0.storage == s.storage,
{
    let ftm1 = ft - 1;
    crate::arith::lemma_ilog_u32(ftm1 as u32);
    let ftb = ilog(ftm1 as nat) as int;
    lemma2_to64();
    if ftb > EC_UINT_BITS {
        let sh = ftb - EC_UINT_BITS;
        lemma_pow2_pos(sh as nat);
        lemma_pow2_adds(sh as nat, 8);
        assert(ftb - 1 == sh + 7);
        lemma_pow2_adds(sh as nat, 7);
        let p = pow2(sh as nat) as int;
        let ftt = ftm1 / p + 1;
        assert(pow2((sh + 7) as nat) == p * 128);
        assert(pow2((sh + 8) as nat) == p * 256);
        vstd::arithmetic::div_mod::lemma_fundamental_div_mod(ftm1, p);
        vstd::arithmetic::div_mod::lemma_mod_bound(ftm1, p);
        assert(129 <= ftt <= 256) by (nonlinear_arith)
            requires ftm1 == p * (ftm1 / p) + ftm1 % p, 0 <= ftm1 % p < p, p * 128 <= ftm1 < p * 256, p >= 1,
                ftt == ftm1 / p + 1;
        lemma_decode_fits(s, ftt);
        let (s1, sym) = spec_decode(s, ftt);
        lemma_update_tell(s1, sym, sym + 1, ftt);
        let s2 = spec_update(s1, sym, sym + 1, ftt);
        lemma_dec_bits_tell(s2, sh);
    } else {
        if ftm1 >= 256 {
            lemma_pow2_strictly_increases((ftb) as nat, 8);
        }
        lemma_decode_fits(s, ft);
        let (s1, sym) = spec_decode(s, ft);
        lemma_update_tell(s1, sym, sym + 1, ft);
    }
}

proof fn lemma_icdf_index_range(icdf: Seq<u8>, r: int, d: int, from: int)
    requires
        1 <= icdf.len(),
        0 <= from < icdf.len(),
    ensures
        from <= icdf_index(icdf, r, d, from) < icdf.len(),
        icdf_index(icdf, r, d, from) > from ==> d < r * icdf[icdf_index(icdf, r, d, from) - 1],
        icdf_index(icdf, r, d, from) == icdf.len() - 1 || d >= r * icdf[icdf_index(icdf, r, d, from)],
    decreases icdf.len() - from,
{
    if !(from >= icdf.len() - 1 || d >= r * icdf[from]) {
        lemma_icdf_index_range(icdf, r, d, from + 1);
    }
}

/// A symbol read through an inverse CDF never lowers the count of consumed
/// bits.
pub proof fn lemma_dec_icdf_tell(s: RangeState, icdf: Seq<u8>, ftb: int)
    requires
        s.wf(),
        icdf_ok(icdf, ftb),
        1 <= ftb <= 15,
    ensures
        spec_dec_icdf(s, icdf, ftb).0.tell() >= s.tell(),
        spec_dec_icdf(s, icdf, ftb).0.storage == s.storage,
{
    let p = pow2(ftb as nat) as int;
    lemma2_to64();
    lemma_pow2_pos(ftb as nat);
    lemma_pow2_strictly_increases(ftb as nat, 16);
    let r = s.rng / p;
    vstd::arithmetic::div_mod::lemma_fundamental_div_mod(s.rng as int, p);
    vstd::arithmetic::div_mod::lemma_mod_bound(s.rng as int, p);
    assert(r >= 1 && r * p <= s.rng) by (nonlinear_arith)
        requires s.rng == p * r + s.rng % p, 0 <= s.rng % p < p, 1 <= p <= 0x1_0000, s.rng > 0x80_0000;
    let k = icdf_index(icdf, r, s.val, 0);
    lemma_icdf_index_range(icdf, r, s.val, 0);
    let hi = if k == 0 { s.rng as int } else { r * icdf[k - 1] };
    let lo = r * icdf[k];
    if k == 0 {
        assert(hi - lo >= 1 && lo >= 0) by (nonlinear_arith)
            requires hi == s.rng, lo == r * icdf[0], 0 <= icdf[0] < p, r >= 1, r * p <= s.rng;
    } else {
        assert(icdf[k - 1] <= icdf[0]);
        assert(s.val < hi);
        if k == icdf.len() - 1 {
            assert(icdf[k] == 0);
            assert(lo == 0) by (nonlinear_arith)
                requires lo == r * icdf[k], icdf[k] == 0;
        }
        assert(s.val >= lo);
        assert(hi - lo >= 1 && lo >= 0 && hi <= s.rng) by (nonlinear_arith)
            requires hi == r * icdf[k - 1], lo == r * icdf[k], s.val < hi, s.val >= lo, icdf[k] >= 0,
                icdf[k - 1] < p, r >= 1, r * p <= s.rng;
    }
    let x = RangeState { val: s.val - lo, rng: hi - lo, ..s };
    lemma_normalize_tell(x);
    lemma_normalize_error(x);
    lemma_ilog_mono(x.rng as nat, s.rng as nat);
}

proof fn lemma_normalize_keeps_end(s: RangeState)
    ensures
        normalize(s).end_offs == s.end_offs,
        normalize(s).end_window == s.end_window,
        normalize(s).nend_bits == s.nend_bits,
        normalize(s).buf == s.buf,
        normalize(s).storage == s.storage,
    decreases 0x1_0000_0000 - s.rng,
{
    if !(s.rng <= 0 || s.rng > EC_CODE_BOT) {
        lemma_normalize_keeps_end(norm_step(s));
    }
}

/// Raw bits come from the end of the buffer, last byte first and least
/// significant bit first: on a fresh decoder the first `k <= 8` raw bits
/// are the low `k` bits of the last byte, and the first 16 the last two
/// bytes, the last one low.
pub proof fn lemma_raw_bits_from_end(buf: Seq<u8>, k: int)
    requires
        buf.len() >= 4,
        1 <= k <= 8,
    ensures
        spec_dec_bits(initial(buf), k).1 == (buf[buf.len() - 1] as int) % (pow2(k as nat) as int),
        spec_dec_bits(initial(buf), 16).1 == buf[buf.len() - 1] as int + 256 * buf[buf.len() - 2] as int,
{
    let n = buf.len() as int;
    let s0 = RangeState {
        buf,
        storage: n,
        end_offs: 0,
        end_window: 0,
        nend_bits: 0,
        nbits_total: 9,
        offs: 0,
        rng: 128,
        val: 0,
        ext: 0,
        rem: 0,
        error: false,
    };
    let (s1, b) = read_byte(s0);
    lemma_normalize_keeps_end(RangeState { rem: b, val: 127 - b / 2, ..s1 });
    let s = initial(buf);
    assert(s.end_offs == 0 && s.end_window == 0 && s.nend_bits == 0 && s.buf == buf && s.storage == n);
    lemma2_to64();
    reveal_with_fuel(refill, 5);
    let (t1, b1) = read_byte_from_end(s);
    assert(b1 == buf[n - 1]);
    let (t2, b2) = read_byte_from_end(t1);
    assert(b2 == buf[n - 2]);
    let (t3, b3) = read_byte_from_end(t2);
    let (t4, b4) = read_byte_from_end(t3);
    assert(0 <= b3 < 256 && 0 <= b4 < 256);
    let w = b1 + b2 * 256 + b3 * 0x1_0000 + b4 * 0x100_0000;
    assert(refill(t3, b1 + b2 * 256 + b3 * 0x1_0000, 24).1 == w);
    assert(refill(t2, b1 + b2 * 256, 16) == refill(t3, b1 + b2 * 256 + b3 * 0x1_0000, 24));
    assert(refill(t1, b1, 8) == refill(t2, b1 + b2 * 256, 16));
    assert(pow2(0) == 1);
    assert(0 + b1 * pow2(0) == b1);
    assert(refill(s, 0, 0) == refill(t1, 0 + b1 * pow2(0), 8));
    assert(refill(s, 0, 0) == refill(t1, b1, 8));
    assert(refill(s, 0, 0).1 == w);
    let p = pow2(k as nat) as int;
    assert(p == 2 || p == 4 || p == 8 || p == 16 || p == 32 || p == 64 || p == 128 || p == 256) by {
        assert(k == 1 || k == 2 || k == 3 || k == 4 || k == 5 || k == 6 || k == 7 || k == 8);
    }
    assert(w % p == b1 % p) by {
        assert(256int % p == 0);
        vstd::arithmetic::div_mod::lemma_mod_multiples_vanish(b2 + b3 * 256 + b4 * 0x1_0000, b1, p);
        assert((b2 + b3 * 256 + b4 * 0x1_0000) * 256 == b2 * 256 + b3 * 0x1_0000 + b4 * 0x100_0000);
        assert(256int == (256int / p) * p) by {
            vstd::arithmetic::div_mod::lemma_fundamental_div_mod(256, p);
        }
        assert((b2 + b3 * 256 + b4 * 0x1_0000) * 256 == ((b2 + b3 * 256 + b4 * 0x1_0000) * (256int / p)) * p)
            by (nonlinear_arith)
            requires 256int == (256int / p) * p;
        vstd::arithmetic::div_mod::lemma_mod_multiples_vanish((b2 + b3 * 256 + b4 * 0x1_0000) * (256int / p), b1, p);
    }
    assert(w % 0x1_0000 == b1 + 256 * b2) by {
        vstd::arithmetic::div_mod::lemma_mod_multiples_vanish(b3 + b4 * 256, b1 + 256 * b2, 0x1_0000);
    }
}

} // verus!
