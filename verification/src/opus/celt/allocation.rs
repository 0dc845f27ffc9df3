//! CELT bit allocation (RFC 6716 section 4.3.3): interpolating between the
//! static allocation rows, skipping bands, the intensity and dual-stereo
//! decisions, and splitting each band's bits into shape and fine energy.
use vstd::prelude::*;
use vstd::arithmetic::power2::*;
use crate::arith::{pow2_i32, shr_i32};
use crate::opus::celt::rate::{min_int, tdiv, lemma_tdiv_bound, width, slot};
use crate::opus::celt::tables::{BITALLOC_SIZE, BITRES, MAX_FINE_BITS};
use crate::opus::celt::Mode;
use crate::opus::range::{spec_dec_bit_logp, spec_dec_uint, RangeDecoder, RangeState};

verus! {

pub const ALLOC_STEPS: i32 = 6;

/// Largest per-band bit count (1/8 bit) that the allocation is proved for.
pub const BAND_MAX: i32 = 0x8000;
/// Largest interpolation endpoint (1/8 bit) that the allocation is proved for.
pub const ROW_MAX: i32 = 0x4_0000;
/// Largest total budget (1/8 bit) that the allocation is proved for.
pub const TOTAL_MAX: i32 = 0x2_0000;

pub open spec fn max_int(a: int, b: int) -> int {
    if a >= b {
        a
    } else {
        b
    }
}

/// `log2` of the number of choices of the intensity band, in 1/8 bit.
pub open spec fn log2_frac_table() -> Seq<int> {
    seq![0, 8, 13, 16, 19, 21, 23, 24, 26, 27, 28, 29, 30, 31, 32, 32, 33, 34, 34, 35, 36, 36, 37, 37]
}

fn log2_frac_entry(i: usize) -> (r: i32)
    requires
        i < 24,
    ensures
        r == log2_frac_table()[i as int],
        0 <= r <= 37,
{
    let t: [i32; 24] = [0, 8, 13, 16, 19, 21, 23, 24, 26, 27, 28, 29, 30, 31, 32, 32, 33, 34, 34, 35, 36, 36, 37, 37];
    assert(t@.map_values(|x: i32| x as int) =~= log2_frac_table());
    assert(t@[i as int] as int == log2_frac_table()[i as int]);
    t[i]
}

/// The inputs of the interpolation between two allocation rows.
pub struct InterpCtx {
    pub eb: Seq<i32>,
    pub log_n: Seq<i32>,
    pub start: int,
    pub end: int,
    pub skip_start: int,
    pub bits1: Seq<i32>,
    pub bits2: Seq<i32>,
    pub thresh: Seq<i32>,
    pub cap: Seq<i32>,
    pub skip_rsv: int,
    pub dual_stereo_rsv: int,
    pub c: int,
    pub lm: int,
}

impl InterpCtx {
    /// The ranges the interpolation is proved for.
    pub open spec fn ok(self) -> bool {
        &&& 0 <= self.start < self.end <= 64
        &&& self.start <= self.skip_start < self.end
        &&& self.eb.len() >= self.end + 1
        &&& self.log_n.len() >= self.end
        &&& self.bits1.len() >= self.end
        &&& self.bits2.len() >= self.end
        &&& self.thresh.len() >= self.end
        &&& self.cap.len() >= self.end
        &&& 1 <= self.c <= 2
        &&& 0 <= self.lm <= 3
        &&& (self.skip_rsv == 0 || self.skip_rsv == 8)
        &&& (self.dual_stereo_rsv == 0 || self.dual_stereo_rsv == 8)
        &&& forall|j: int| 0 <= j <= self.end ==> 0 <= #[trigger] self.eb[j] <= 4096
        &&& forall|j: int|
            self.start <= j < self.end ==> 1 <= #[trigger] width(self.eb, j) <= 32 && 0 <= self.log_n[j] <= 512
                && 0 <= self.bits1[j] <= ROW_MAX && 0 <= self.bits2[j] <= ROW_MAX && 0 <= self.thresh[j]
                <= BAND_MAX && 0 <= self.cap[j] <= BAND_MAX
    }

    pub open spec fn alloc_floor(self) -> int {
        self.c * 8
    }

    pub open spec fn stereo(self) -> int {
        if self.c > 1 {
            1
        } else {
            0
        }
    }

    /// Bits of band `j` at interpolation point `m` (of 64).
    pub open spec fn itmp(self, m: int, j: int) -> int {
        self.bits1[j] + (m * self.bits2[j]) / 64
    }

    /// Bits the bands below `j` would use at point `m`, `done` once a band
    /// above reached its threshold.
    pub open spec fn ipsum(self, m: int, j: int, done: bool) -> int
        decreases j - self.start,
    {
        if j <= self.start {
            0
        } else {
            let t = self.itmp(m, j - 1);
            if t >= self.thresh[j - 1] || done {
                min_int(t, self.cap[j - 1] as int) + self.ipsum(m, j - 1, true)
            } else if t >= self.alloc_floor() {
                self.alloc_floor() + self.ipsum(m, j - 1, false)
            } else {
                self.ipsum(m, j - 1, false)
            }
        }
    }

    /// The bisection for the interpolation point: the last `lo` kept.
    pub open spec fn ibisect(self, total: int, lo: int, hi: int, steps: nat) -> int
        decreases steps,
    {
        if steps == 0 {
            lo
        } else {
            let mid = (lo + hi) / 2;
            if self.ipsum(mid, self.end, false) > total {
                self.ibisect(total, lo, mid, (steps - 1) as nat)
            } else {
                self.ibisect(total, mid, hi, (steps - 1) as nat)
            }
        }
    }

    /// Some band from `j` up reaches its threshold at point `m`.
    pub open spec fn above(self, m: int, j: int) -> bool
        decreases self.end - j,
    {
        if j >= self.end {
            false
        } else {
            self.itmp(m, j) >= self.thresh[j] || self.above(m, j + 1)
        }
    }

    /// Initial bits of band `j` at point `m`.
    pub open spec fn ibits0(self, m: int, j: int) -> int {
        let t = self.itmp(m, j);
        let v = if t < self.thresh[j] && !self.above(m, j + 1) {
            if t >= self.alloc_floor() {
                self.alloc_floor()
            } else {
                0
            }
        } else {
            t
        };
        min_int(v, self.cap[j] as int)
    }
}

impl InterpCtx {
    /// Initial bits of bands `j..end` together.
    pub open spec fn isum(self, m: int, j: int) -> int
        decreases self.end - j,
    {
        if j >= self.end {
            0
        } else {
            self.ibits0(m, j) + self.isum(m, j + 1)
        }
    }

    /// The interpolation inputs stand in these slices.
    pub open spec fn holds(self, eb: Seq<i32>, bits1: Seq<i32>, bits2: Seq<i32>, thresh: Seq<i32>, cap: Seq<i32>) -> bool {
        &&& self.eb == eb
        &&& self.bits1 == bits1
        &&& self.bits2 == bits2
        &&& self.thresh == thresh
        &&& self.cap == cap
    }
}

proof fn lemma_itmp_bounds(ctx: InterpCtx, m: int, j: int)
    requires
        ctx.ok(),
        0 <= m <= 64,
        ctx.start <= j < ctx.end,
    ensures
        0 <= ctx.itmp(m, j) <= 2 * ROW_MAX,
        0 <= m * ctx.bits2[j] <= 64 * ROW_MAX,
        0 <= ctx.cap[j] <= BAND_MAX,
        0 <= ctx.thresh[j] <= BAND_MAX,
        0 <= ctx.bits1[j] <= ROW_MAX,
        0 <= ctx.bits2[j] <= ROW_MAX,
        1 <= width(ctx.eb, j) <= 64,
        0 <= ctx.log_n[j] <= 512,
{
    assert(1 <= width(ctx.eb, j) <= 64);
    assert(0 <= m * ctx.bits2[j] <= 64 * ROW_MAX) by (nonlinear_arith)
        requires 0 <= m <= 64, 0 <= ctx.bits2[j] <= ROW_MAX;
}

/// `ipsum` at point `mid` for all bands.
fn interp_psum(
    Ghost(ctx): Ghost<InterpCtx>,
    start: usize,
    end: usize,
    bits1: &[i32],
    bits2: &[i32],
    thresh: &[i32],
    cap: &[i32],
    c: i32,
    mid: i32,
) -> (p: i32)
    requires
        ctx.ok(),
        ctx.bits1 == bits1@ && ctx.bits2 == bits2@ && ctx.thresh == thresh@ && ctx.cap == cap@,
        ctx.start == start && ctx.end == end && ctx.c == c,
        0 <= mid <= 64,
    ensures
        p == ctx.ipsum(mid as int, end as int, false),
        0 <= p <= 64 * BAND_MAX,
{
    let mut psum: i32 = 0;
    let mut done = false;
    let mut j = end;
    while j > start
        invariant
            ctx.ok(),
            ctx.bits1 == bits1@ && ctx.bits2 == bits2@ && ctx.thresh == thresh@ && ctx.cap == cap@,
            ctx.start == start && ctx.end == end && ctx.c == c,
            0 <= mid <= 64,
            start <= j <= end,
            0 <= psum <= (end - j) * BAND_MAX,
            ctx.ipsum(mid as int, end as int, false) == psum + ctx.ipsum(mid as int, j as int, done),
        decreases j,
    {
        j -= 1;
        proof {
            lemma_itmp_bounds(ctx, mid as int, j as int);
            lemma2_to64();
        }
        let tmp = bits1[j] + shr_i32(mid * bits2[j], 6);
        if tmp >= thresh[j] || done {
            done = true;
            psum += tmp.min(cap[j]);
        } else if tmp >= c * 8 {
            psum += c * 8;
        }
    }
    psum
}

/// Bisection for the interpolation point between the two rows.
fn interp_search(
    Ghost(ctx): Ghost<InterpCtx>,
    start: usize,
    end: usize,
    bits1: &[i32],
    bits2: &[i32],
    thresh: &[i32],
    cap: &[i32],
    c: i32,
    total: i32,
) -> (lo: i32)
    requires
        ctx.ok(),
        ctx.bits1 == bits1@ && ctx.bits2 == bits2@ && ctx.thresh == thresh@ && ctx.cap == cap@,
        ctx.start == start && ctx.end == end && ctx.c == c,
    ensures
        lo == ctx.ibisect(total as int, 0, 64, 6),
        0 <= lo <= 64,
{
    let mut lo: i32 = 0;
    let mut hi: i32 = 64;
    let mut step: i32 = 0;
    while step < ALLOC_STEPS
        invariant
            ctx.ok(),
            ctx.bits1 == bits1@ && ctx.bits2 == bits2@ && ctx.thresh == thresh@ && ctx.cap == cap@,
            ctx.start == start && ctx.end == end && ctx.c == c,
            0 <= step <= ALLOC_STEPS,
            0 <= lo <= hi <= 64,
            ctx.ibisect(total as int, 0, 64, 6) == ctx.ibisect(total as int, lo as int, hi as int, (6 - step) as nat),
        decreases ALLOC_STEPS - step,
    {
        let mid = (lo + hi) / 2;
        let psum = interp_psum(Ghost(ctx), start, end, bits1, bits2, thresh, cap, c, mid);
        if psum > total {
            hi = mid;
        } else {
            lo = mid;
        }
        step += 1;
    }
    lo
}

/// Sets the initial bits of bands `start..end` at point `lo`; returns their sum.
fn interp_fill(
    Ghost(ctx): Ghost<InterpCtx>,
    start: usize,
    end: usize,
    bits1: &[i32],
    bits2: &[i32],
    thresh: &[i32],
    cap: &[i32],
    c: i32,
    lo: i32,
    bits: &mut [i32],
) -> (psum: i32)
    requires
        ctx.ok(),
        ctx.bits1 == bits1@ && ctx.bits2 == bits2@ && ctx.thresh == thresh@ && ctx.cap == cap@,
        ctx.start == start && ctx.end == end && ctx.c == c,
        0 <= lo <= 64,
        old(bits)@.len() >= end,
    ensures
        final(bits)@.len() == old(bits)@.len(),
        forall|j: int| start <= j < end ==> final(bits)@[j] as int == #[trigger] ctx.ibits0(lo as int, j),
        forall|j: int| 0 <= j < old(bits)@.len() && !(start <= j < end) ==> final(bits)@[j] == old(bits)@[j],
        psum == ctx.isum(lo as int, start as int),
        0 <= psum <= 64 * BAND_MAX,
{
    let mut psum: i32 = 0;
    let mut done = false;
    let mut j = end;
    let ghost b0 = bits@;
    while j > start
        invariant
            ctx.ok(),
            ctx.bits1 == bits1@ && ctx.bits2 == bits2@ && ctx.thresh == thresh@ && ctx.cap == cap@,
            ctx.start == start && ctx.end == end && ctx.c == c,
            0 <= lo <= 64,
            start <= j <= end,
            bits@.len() == b0.len(),
            b0.len() >= end,
            done == ctx.above(lo as int, j as int),
            psum == ctx.isum(lo as int, j as int),
            0 <= psum <= (end - j) * BAND_MAX,
            forall|t: int| j <= t < end ==> bits@[t] as int == #[trigger] ctx.ibits0(lo as int, t),
            forall|t: int| 0 <= t < b0.len() && !(j <= t < end) ==> bits@[t] == b0[t],
        decreases j,
    {
        j -= 1;
        proof {
            lemma_itmp_bounds(ctx, lo as int, j as int);
            lemma2_to64();
        }
        let mut tmp = bits1[j] + shr_i32(lo * bits2[j], 6);
        if tmp < thresh[j] && !done {
            tmp = if tmp >= c * 8 { c * 8 } else { 0 };
        } else {
            done = true;
        }
        tmp = tmp.min(cap[j]);
        bits[j] = tmp;
        psum += tmp;
    }
    psum
}

/// State of the band-skipping loop.
pub struct SkipState {
    pub cb: int,
    pub psum: int,
    pub total: int,
    pub irsv: int,
    pub bits: Seq<i32>,
    pub rd: RangeState,
}

impl InterpCtx {
    /// Band `jj` is not coded: its bits go back to the pool, but for the
    /// allocation floor where it had that much; the intensity reservation
    /// shrinks with the band count.
    pub open spec fn skip_band(self, st: SkipState, jj: int, psum: int, band_bits: int, rd: RangeState) -> SkipState {
        let p1 = psum - (st.bits[jj] + st.irsv);
        let irsv2 = if st.irsv > 0 { log2_frac_table()[jj - self.start] } else { st.irsv };
        let p2 = p1 + irsv2;
        let floor = self.alloc_floor();
        SkipState {
            cb: st.cb - 1,
            psum: if band_bits >= floor { p2 + floor } else { p2 },
            total: st.total,
            irsv: irsv2,
            bits: st.bits.update(jj, if band_bits >= floor { floor as i32 } else { 0i32 }),
            rd,
        }
    }

    /// The bits the top band `cb - 1` would get if bands `start..cb` were
    /// coded: its own, its share of what is left, and the remainder beyond
    /// the bands below it.
    pub open spec fn band_bits_at(self, cb: int, total: int, psum: int, own: int) -> int {
        let jj = cb - 1;
        let span = self.eb[cb] - self.eb[self.start];
        let left = total - psum;
        let pc = tdiv(left, span);
        let left2 = left - span * pc;
        let rem = max_int(left2 - (self.eb[jj] - self.eb[self.start]), 0);
        own + pc * (self.eb[cb] - self.eb[jj]) + rem
    }

    pub open spec fn band_bits(self, st: SkipState) -> int {
        self.band_bits_at(st.cb, st.total, st.psum, st.bits[st.cb - 1] as int)
    }

    /// Drops bands from the top while the coder signals so, or while they
    /// cannot reach their threshold, down to `skip_start`.
    pub open spec fn skip_loop(self, st: SkipState) -> SkipState
        decreases st.cb,
    {
        let jj = st.cb - 1;
        if jj <= self.skip_start || st.cb <= 0 {
            SkipState { total: st.total + self.skip_rsv, ..st }
        } else {
            let bb = self.band_bits(st);
            if bb >= max_int(self.thresh[jj] as int, self.alloc_floor() + 8) {
                let (rd2, bit) = spec_dec_bit_logp(st.rd, 1);
                if bit == 1 {
                    SkipState { rd: rd2, ..st }
                } else {
                    self.skip_loop(self.skip_band(st, jj, st.psum + 8, bb - 8, rd2))
                }
            } else {
                self.skip_loop(self.skip_band(st, jj, st.psum, bb, st.rd))
            }
        }
    }
}

proof fn lemma_eb_mono(ctx: InterpCtx, a: int, b: int)
    requires
        ctx.ok(),
        ctx.start <= a <= b <= ctx.end,
    ensures
        ctx.eb[a] + (b - a) <= ctx.eb[b],
    decreases b - a,
{
    if a < b {
        lemma_eb_mono(ctx, a, b - 1);
        assert(1 <= width(ctx.eb, b - 1));
    }
}

/// `band_bits_at` for the top band `cb - 1`.
fn top_band_bits(
    Ghost(ctx): Ghost<InterpCtx>,
    eb: &[i32],
    start: usize,
    cb: usize,
    total: i32,
    psum: i32,
    own: i32,
) -> (r: i32)
    requires
        ctx.ok(),
        ctx.eb == eb@,
        ctx.start == start,
        start + 2 <= cb <= ctx.end,
        0 <= total <= TOTAL_MAX,
        -64 * (BAND_MAX + 64) <= psum <= 64 * BAND_MAX + 64 * 64,
        0 <= own <= BAND_MAX,
    ensures
        r == ctx.band_bits_at(cb as int, total as int, psum as int, own as int),
        -0x100_0000 <= r <= 0x100_0000,
{
    let jj = cb - 1;
    proof {
        lemma_eb_mono(ctx, start as int, jj as int);
        lemma_eb_mono(ctx, jj as int, cb as int);
        assert(0 <= eb@[cb as int] <= 4096);
        assert(0 <= eb@[jj as int] <= 4096);
        assert(0 <= eb@[start as int] <= 4096);
    }
    let span = eb[cb] - eb[start];
    let mut left = total - psum;
    let percoeff = left / span;
    proof {
        lemma_tdiv_bound(left as int, span as int);
        assert(-(left as int) <= span * percoeff <= left || left <= span * percoeff <= -(left as int)) by (nonlinear_arith)
            requires
                span >= 1,
                left >= 0 ==> 0 <= percoeff && percoeff * span <= left,
                left < 0 ==> percoeff <= 0 && -left >= -percoeff * span;
    }
    left -= span * percoeff;
    let rem = (left - (eb[jj] - eb[start])).max(0);
    let band_width = eb[cb] - eb[jj];
    proof {
        assert(-(span * percoeff) <= percoeff * band_width <= span * percoeff || span * percoeff <= percoeff
            * band_width <= -(span * percoeff)) by (nonlinear_arith)
            requires 1 <= band_width <= span;
    }
    own + percoeff * band_width + rem
}

/// Bounds that the band-skipping loop keeps.
pub open spec fn skip_bounds(ctx: InterpCtx, st: SkipState, bits0: Seq<i32>) -> bool {
    let k = ctx.end - st.cb;
    &&& ctx.start + 1 <= st.cb <= ctx.end
    &&& -k * (BAND_MAX + 64) <= st.psum <= 64 * BAND_MAX + k * 64
    &&& 0 <= st.total <= TOTAL_MAX + 8
    &&& 0 <= st.irsv <= 37
    &&& st.bits.len() == bits0.len()
    &&& forall|t: int| ctx.start <= t < st.cb ==> st.bits[t] == bits0[t]
    &&& forall|t: int| st.cb <= t < ctx.end ==> 0 <= #[trigger] st.bits[t] <= 16
    &&& forall|t: int| 0 <= t < bits0.len() && !(ctx.start <= t < ctx.end) ==> st.bits[t] == bits0[t]
    &&& st.rd.wf()
    &&& st.rd.room(st.cb + 1)
}

/// Drops bands from the top (see `skip_loop`); returns the coded band
/// count, the bits in use, the budget and the intensity reservation.
fn skip_bands(
    Ghost(ctx): Ghost<InterpCtx>,
    eb: &[i32],
    start: usize,
    end: usize,
    skip_start: usize,
    thresh: &[i32],
    c: i32,
    skip_rsv: i32,
    psum0: i32,
    total0: i32,
    irsv0: i32,
    rd: &mut RangeDecoder,
    bits: &mut [i32],
) -> (r: (usize, i32, i32, i32))
    requires
        ctx.ok(),
        ctx.eb == eb@ && ctx.thresh == thresh@,
        ctx.start == start && ctx.end == end && ctx.skip_start == skip_start && ctx.c == c,
        ctx.skip_rsv == skip_rsv,
        old(bits)@.len() >= end,
        forall|t: int| start <= t < end ==> 0 <= #[trigger] old(bits)@[t] <= BAND_MAX,
        0 <= psum0 <= 64 * BAND_MAX,
        0 <= total0 <= TOTAL_MAX,
        0 <= irsv0 <= 37,
        irsv0 > 0 ==> end - start <= 24,
        old(rd)@.wf(),
        old(rd)@.room(end + 2),
    ensures
        ({
            let fin = ctx.skip_loop(
                SkipState { cb: end as int, psum: psum0 as int, total: total0 as int, irsv: irsv0 as int, bits: old(bits)@, rd: old(rd)@ },
            );
            &&& r.0 == fin.cb && r.1 == fin.psum && r.2 == fin.total && r.3 == fin.irsv
            &&& final(bits)@ == fin.bits
            &&& final(rd)@ == fin.rd
            &&& skip_bounds(ctx, fin, old(bits)@)
        }),
{
    let ghost bits0 = bits@;
    let ghost st0 = SkipState {
        cb: end as int,
        psum: psum0 as int,
        total: total0 as int,
        irsv: irsv0 as int,
        bits: bits@,
        rd: rd@,
    };
    let mut coded_bands = end;
    let mut psum = psum0;
    let mut total = total0;
    let mut intensity_rsv = irsv0;
    let mut stop = false;
    while !stop
        invariant
            ctx.ok(),
            ctx.eb == eb@ && ctx.thresh == thresh@,
            ctx.start == start && ctx.end == end && ctx.skip_start == skip_start && ctx.c == c,
            ctx.skip_rsv == skip_rsv,
            irsv0 > 0 ==> end - start <= 24,
            intensity_rsv > 0 ==> irsv0 > 0,
            bits0.len() >= end,
            forall|t: int| start <= t < end ==> 0 <= #[trigger] bits0[t] <= BAND_MAX,
            !stop ==> total <= TOTAL_MAX,
            !stop ==> rd@.room(coded_bands + 2),
            skip_bounds(
                ctx,
                SkipState { cb: coded_bands as int, psum: psum as int, total: total as int, irsv: intensity_rsv as int, bits: bits@, rd: rd@ },
                bits0,
            ),
            !stop ==> ctx.skip_loop(st0) == ctx.skip_loop(
                SkipState { cb: coded_bands as int, psum: psum as int, total: total as int, irsv: intensity_rsv as int, bits: bits@, rd: rd@ },
            ),
            stop ==> ctx.skip_loop(st0) == (SkipState {
                cb: coded_bands as int,
                psum: psum as int,
                total: total as int,
                irsv: intensity_rsv as int,
                bits: bits@,
                rd: rd@,
            }),
        decreases coded_bands + if stop { 0int } else { 1int },
    {
        let ghost st = SkipState {
            cb: coded_bands as int,
            psum: psum as int,
            total: total as int,
            irsv: intensity_rsv as int,
            bits: bits@,
            rd: rd@,
        };
        let jj = coded_bands - 1;
        if jj <= skip_start {
            total += skip_rsv;
            stop = true;
        } else {
            assert(bits@[jj as int] == bits0[jj as int]);
            assert(0 <= bits0[jj as int] <= BAND_MAX);
            let mut band_bits = top_band_bits(Ghost(ctx), eb, start, coded_bands, total, psum, bits[jj]);
            if band_bits >= thresh[jj].max(c * 8 + 8) {
                if rd.dec_bit_logp(1) == 1 {
                    stop = true;
                } else {
                    psum += 8;
                    band_bits -= 8;
                }
            }
            if !stop {
                assert(bits@[jj as int] == bits0[jj as int]);
                let ghost rd1 = rd@;
                let ghost p_in = psum as int;
                let ghost bb = band_bits as int;
                psum -= bits[jj] + intensity_rsv;
                if intensity_rsv > 0 {
                    intensity_rsv = log2_frac_entry(jj - start);
                }
                psum += intensity_rsv;
                if band_bits >= c * 8 {
                    psum += c * 8;
                    bits[jj] = c * 8;
                } else {
                    bits[jj] = 0;
                }
                coded_bands -= 1;
                assert(ctx.skip_band(st, jj as int, p_in, bb, rd1) == (SkipState {
                    cb: coded_bands as int,
                    psum: psum as int,
                    total: total as int,
                    irsv: intensity_rsv as int,
                    bits: bits@,
                    rd: rd@,
                }));
            }
        }
    }
    (coded_bands, psum, total, intensity_rsv)
}

/// State of the fine-energy split: shape bits, fine bits, priorities and
/// the bits carried over to the next band.
pub struct FineState {
    pub bits: Seq<i32>,
    pub ebits: Seq<i32>,
    pub fp: Seq<i32>,
    pub balance: int,
}

impl InterpCtx {
    /// Adds `pc` bits per bin to bands `j..cb`.
    pub open spec fn add_share(self, bits: Seq<i32>, pc: int, j: int, cb: int) -> Seq<i32>
        decreases cb - j,
    {
        if j >= cb {
            bits
        } else {
            self.add_share(bits.update(j, (bits[j] + pc * width(self.eb, j)) as i32), pc, j + 1, cb)
        }
    }

    /// Hands out the remaining `left` bits, up to one per bin, from band `j` up.
    pub open spec fn add_rem(self, bits: Seq<i32>, left: int, j: int, cb: int) -> Seq<i32>
        decreases cb - j,
    {
        if j >= cb {
            bits
        } else {
            let t = min_int(left, width(self.eb, j));
            self.add_rem(bits.update(j, (bits[j] + t) as i32), left - t, j + 1, cb)
        }
    }

    /// Shape and fine-energy split of band `j` of `n > 1` bins holding `b`
    /// bits: (shape bits, fine bits, priority).
    pub open spec fn shape_split(self, b: int, j: int, n: int, intensity: int, dual: bool) -> (int, int, int) {
        let c = self.c;
        let den = c * n + if c == 2 && n > 2 && !dual && j < intensity { 1int } else { 0int };
        let nclogn = den * (self.log_n[j] + self.lm * 8);
        let off0 = nclogn / 2 - den * 21 + if n == 2 { den * 2 } else { 0 };
        let off = if b + off0 < den * 16 {
            off0 + nclogn / 4
        } else if b + off0 < den * 24 {
            off0 + nclogn / 8
        } else {
            off0
        };
        let e1 = (max_int(b + off + den * 4, 0) / den) / 8;
        let e2 = if c * e1 > b / 8 { (b / (pow2(self.stereo() as nat) as int)) / 8 } else { e1 };
        let e3 = min_int(e2, 8);
        (b - c * e3 * 8, e3, if e3 * (den * 8) >= b + off { 1int } else { 0int })
    }

    /// Excess bits turned into extra fine energy: (fine bits, priority, excess left).
    pub open spec fn excess_split(self, excess: int, ej: int, balance: int) -> (int, int, int) {
        let extra_fine = min_int(excess / (pow2((self.stereo() + 3) as nat) as int), 8 - ej);
        let extra_bits = extra_fine * self.c * 8;
        (ej + extra_fine, if extra_bits >= excess - balance { 1int } else { 0int }, excess - extra_bits)
    }

    /// Band `j` with `bit` bits available (its own plus the carried
    /// `balance`): its shape bits, fine bits, priority and the excess carried on.
    pub open spec fn fine_one(self, bit: int, balance: int, j: int, intensity: int, dual: bool) -> (int, int, int, int) {
        let n = width(self.eb, j) * pow2(self.lm as nat);
        let (bj, ej, fj, excess) = if n > 1 {
            let excess = max_int(bit - self.cap[j], 0);
            let (b, e, f) = self.shape_split(bit - excess, j, n, intensity, dual);
            (b, e, f, excess)
        } else {
            let excess = max_int(bit - self.c * 8, 0);
            (bit - excess, 0, 1, excess)
        };
        if excess > 0 {
            let (e, f, x) = self.excess_split(excess, ej, balance);
            (bj, e, f, x)
        } else {
            (bj, ej, fj, excess)
        }
    }

    /// Splits bands `j..cb` in turn, carrying the excess upwards.
    pub open spec fn fine_loop(self, st: FineState, j: int, cb: int, intensity: int, dual: bool) -> FineState
        decreases cb - j,
    {
        if j >= cb {
            st
        } else {
            let (bj, ej, fj, bal) = self.fine_one(st.bits[j] + st.balance, st.balance, j, intensity, dual);
            self.fine_loop(
                FineState {
                    bits: st.bits.update(j, bj as i32),
                    ebits: st.ebits.update(j, ej as i32),
                    fp: st.fp.update(j, fj as i32),
                    balance: bal,
                },
                j + 1,
                cb,
                intensity,
                dual,
            )
        }
    }

    /// Bands `j..end` that are not coded keep only fine energy.
    pub open spec fn tail_loop(self, st: FineState, j: int) -> FineState
        decreases self.end - j,
    {
        if j >= self.end {
            st
        } else {
            let e = (st.bits[j] as int / (pow2(self.stereo() as nat) as int)) / 8;
            self.tail_loop(
                FineState {
                    bits: st.bits.update(j, 0),
                    ebits: st.ebits.update(j, e as i32),
                    fp: st.fp.update(j, if e < 1 { 1 } else { 0 }),
                    balance: st.balance,
                },
                j + 1,
            )
        }
    }
}

impl InterpCtx {
    /// What is left of the budget after the coded bands' bits, spread
    /// evenly per bin, then the remainder bin by bin from the bottom.
    pub open spec fn distribute(self, bits: Seq<i32>, cb: int, total: int, psum: int) -> Seq<i32> {
        let span = self.eb[cb] - self.eb[self.start];
        let left = total - psum;
        let pc = tdiv(left, span);
        self.add_rem(self.add_share(bits, pc, self.start, cb), left - span * pc, self.start, cb)
    }
}

/// Spreads the unused budget over bands `start..cb` (see `distribute`).
fn distribute(
    Ghost(ctx): Ghost<InterpCtx>,
    eb: &[i32],
    start: usize,
    cb: usize,
    total: i32,
    psum: i32,
    bits: &mut [i32],
)
    requires
        ctx.ok(),
        ctx.eb == eb@,
        ctx.start == start,
        start + 1 <= cb <= ctx.end,
        0 <= total <= TOTAL_MAX + 16,
        -64 * (BAND_MAX + 64) <= psum <= 64 * BAND_MAX + 64 * 64,
        old(bits)@.len() >= ctx.end,
        forall|t: int| start <= t < cb ==> 0 <= #[trigger] old(bits)@[t] <= BAND_MAX,
    ensures
        final(bits)@ == ctx.distribute(old(bits)@, cb as int, total as int, psum as int),
        forall|t: int| start <= t < cb ==> -0x29_0000 <= #[trigger] final(bits)@[t] <= 0x29_0000 + BAND_MAX,
        final(bits)@.len() == old(bits)@.len(),
        forall|t: int| cb <= t < old(bits)@.len() ==> #[trigger] final(bits)@[t] == old(bits)@[t],
{
    proof {
        lemma_eb_mono(ctx, start as int, cb as int);
        assert(0 <= eb@[cb as int] <= 4096);
        assert(0 <= eb@[start as int] <= 4096);
    }
    let ghost b0 = bits@;
    let span = eb[cb] - eb[start];
    let mut left = total - psum;
    let percoeff = left / span;
    proof {
        lemma_tdiv_bound(left as int, span as int);
        assert(-(left as int) <= span * percoeff <= left || left <= span * percoeff <= -(left as int)) by (nonlinear_arith)
            requires
                span >= 1,
                left >= 0 ==> 0 <= percoeff && percoeff * span <= left,
                left < 0 ==> percoeff <= 0 && -left >= -percoeff * span;
    }
    left -= span * percoeff;
    let ghost left2 = left as int;
    assert(-span < left < span);
    let mut j = start;
    while j < cb
        invariant
            ctx.ok(),
            ctx.eb == eb@,
            ctx.start == start,
            start <= j <= cb <= ctx.end,
            span == eb@[cb as int] - eb@[start as int],
            1 <= span <= 4096,
            -0x28_0000 <= span * percoeff <= 0x28_0000,
            bits@.len() == b0.len(),
            b0.len() >= ctx.end,
            forall|t: int| start <= t < cb ==> 0 <= #[trigger] b0[t] <= BAND_MAX,
            forall|t: int| start <= t < j ==> -0x28_0000 <= #[trigger] bits@[t] <= 0x28_0000 + BAND_MAX,
            forall|t: int| j <= t < cb ==> bits@[t] == b0[t],
            forall|t: int| cb <= t < b0.len() ==> bits@[t] == b0[t],
            ctx.add_share(b0, percoeff as int, start as int, cb as int) == ctx.add_share(bits@, percoeff as int, j as int, cb as int),
        decreases cb - j,
    {
        proof {
            lemma_eb_mono(ctx, (j + 1) as int, cb as int);
            lemma_eb_mono(ctx, start as int, j as int);
            assert(1 <= width(eb@, j as int) <= 64);
            assert(width(eb@, j as int) <= span);
            assert(-(span * percoeff) <= width(eb@, j as int) * percoeff <= span * percoeff || span * percoeff
                <= width(eb@, j as int) * percoeff <= -(span * percoeff)) by (nonlinear_arith)
                requires 1 <= width(eb@, j as int) <= span;
            assert(0 <= b0[j as int] <= BAND_MAX);
            assert(bits@[j as int] == b0[j as int]);
        }
        let w = eb[j + 1] - eb[j];
        assert(-0x28_0000 <= w * percoeff <= 0x28_0000);
        let v = bits[j] + percoeff * w;
        bits[j] = v;
        j += 1;
    }
    let ghost b1 = bits@;
    let mut j = start;
    while j < cb
        invariant
            ctx.ok(),
            ctx.eb == eb@,
            ctx.start == start,
            start <= j <= cb <= ctx.end,
            1 <= span <= 4096,
            -span < left < span,
            left < 0 ==> left == left2 && j == start,
            j == start ==> left == left2,
            left2 < 0 ==> j > start ==> left == 0,
            left2 >= 0 ==> 0 <= left,
            bits@.len() == b1.len(),
            b1.len() >= ctx.end,
            forall|t: int| start <= t < cb ==> -0x28_0000 <= #[trigger] b1[t] <= 0x28_0000 + BAND_MAX,
            forall|t: int| start <= t < j ==> -0x29_0000 <= #[trigger] bits@[t] <= 0x29_0000 + BAND_MAX,
            forall|t: int| j <= t < cb ==> bits@[t] == b1[t],
            forall|t: int| cb <= t < b1.len() ==> bits@[t] == b1[t],
            forall|t: int| cb <= t < b1.len() ==> b1[t] == b0[t],
            ctx.add_rem(b1, left2, start as int, cb as int) == ctx.add_rem(bits@, left as int, j as int, cb as int),
        decreases cb - j,
    {
        proof {
            assert(1 <= width(eb@, j as int) <= 64);
            assert(bits@[j as int] == b1[j as int]);
            assert(-0x28_0000 <= b1[j as int] <= 0x28_0000 + BAND_MAX);
        }
        let w = eb[j + 1] - eb[j];
        let tmp = left.min(w);
        assert(tmp == min_int(left as int, w as int));
        assert(left < 0 ==> tmp == left);
        let v = bits[j] + tmp;
        bits[j] = v;
        left -= tmp;
        j += 1;
    }
}

/// The shape and fine-energy split of a band of `n > 1` bins holding `b`
/// bits: (shape bits, fine bits, priority).
#[verifier::rlimit(40)]
fn fine_shape(
    Ghost(ctx): Ghost<InterpCtx>,
    log_nj: i32,
    j: usize,
    c: i32,
    lm: usize,
    n: i32,
    intensity: usize,
    dual: bool,
    b: i32,
) -> (r: (i32, i32, i32))
    requires
        ctx.ok(),
        ctx.c == c && ctx.lm == lm,
        ctx.start <= j < ctx.end,
        log_nj == ctx.log_n[j as int],
        0 <= log_nj <= 512,
        n == width(ctx.eb, j as int) * pow2(lm as nat),
        2 <= n <= 256,
        -0x29_0000 <= b <= BAND_MAX,
    ensures
        (r.0 as int, r.1 as int, r.2 as int) == ctx.shape_split(b as int, j as int, n as int, intensity as int, dual),
        b >= 0 ==> 0 <= r.1 <= 8,
        r.1 <= 8,
{
    proof {
        lemma2_to64();
        assert(2 <= c * n <= 512) by (nonlinear_arith)
            requires 1 <= c <= 2, 2 <= n <= 256;
    }
    let stereo: i32 = if c > 1 { 1 } else { 0 };
    let den = c * n + if c == 2 && n > 2 && !dual && j < intensity { 1 } else { 0 };
    proof {
        assert(0 <= den * (log_nj + lm * 8) <= 513 * 536) by (nonlinear_arith)
            requires 2 <= den <= 513, 0 <= log_nj + lm * 8 <= 536;
    }
    let nclogn = den * (log_nj + lm as i32 * 8);
    let mut offset = nclogn / 2 - den * 21;
    if n == 2 {
        offset += den * 2;
    }
    if b + offset < den * 16 {
        offset += nclogn / 4;
    } else if b + offset < den * 24 {
        offset += nclogn / 8;
    }
    let e0 = (b + offset + den * 4).max(0);
    let q = e0 / den;
    proof {
        lemma_tdiv_bound(e0 as int, den as int);
        assert(0 <= q <= 0x10_0000);
    }
    let mut ej = q / 8;
    assert(0 <= ej <= 0x2_0000);
    assert(1 <= c <= 2);
    let b8 = shr_i32(b, 3);
    if c * ej > b8 {
        let bs = shr_i32(b, stereo as u32);
        proof {
            if stereo == 0 {
                assert(bs == b / 1);
            } else {
                assert(bs == b / 2);
            }
            assert(-0x29_0000 <= bs <= BAND_MAX);
        }
        ej = shr_i32(bs, 3);
    }
    ej = ej.min(8);
    proof {
        assert(-0x6_0000 <= ej <= 8);
        assert(-0x6_0000 * 4104 <= ej * (den * 8) <= 8 * 4104) by (nonlinear_arith)
            requires -0x6_0000 <= ej <= 8, 2 <= den <= 513;
    }
    let fj = if ej * (den * 8) >= b + offset { 1 } else { 0 };
    (b - c * ej * 8, ej, fj)
}

/// Excess bits of a band become extra fine energy, up to the limit;
/// returns (fine bits, priority, excess left).
fn fine_excess(Ghost(ctx): Ghost<InterpCtx>, c: i32, excess: i32, ej: i32, balance: i32) -> (r: (i32, i32, i32))
    requires
        ctx.c == c,
        1 <= c <= 2,
        0 < excess <= 0x1100_0000,
        0 <= ej <= 8,
        0 <= balance <= 0x1000_0000,
    ensures
        (r.0 as int, r.1 as int, r.2 as int) == ctx.excess_split(excess as int, ej as int, balance as int),
        0 <= r.2 <= excess,
{
    let stereo: i32 = if c > 1 { 1 } else { 0 };
    proof {
        lemma2_to64();
    }
    let sh = shr_i32(excess, (stereo + 3) as u32);
    let extra_fine = sh.min(8 - ej);
    proof {
        vstd::arithmetic::div_mod::lemma_fundamental_div_mod(excess as int, pow2((stereo + 3) as nat) as int);
        vstd::arithmetic::div_mod::lemma_mod_bound(excess as int, pow2((stereo + 3) as nat) as int);
        assert(extra_fine * c * 8 <= excess) by (nonlinear_arith)
            requires
                0 <= extra_fine <= sh,
                c * 8 == pow2((stereo + 3) as nat),
                pow2((stereo + 3) as nat) * sh + (excess as int) % (pow2((stereo + 3) as nat) as int) == excess,
                (excess as int) % (pow2((stereo + 3) as nat) as int) >= 0;
    }
    let extra_bits = extra_fine * c * 8;
    let fj = if extra_bits >= excess - balance { 1 } else { 0 };
    (ej + extra_fine, fj, excess - extra_bits)
}

/// `fine_one` for band `j`.
fn fine_band(
    Ghost(ctx): Ghost<InterpCtx>,
    eb: &[i32],
    log_n: &[i32],
    cap: &[i32],
    j: usize,
    c: i32,
    lm: usize,
    intensity: usize,
    dual: bool,
    own: i32,
    balance: i32,
) -> (r: (i32, i32, i32, i32))
    requires
        ctx.ok(),
        ctx.eb == eb@ && ctx.log_n == log_n@ && ctx.cap == cap@,
        ctx.c == c && ctx.lm == lm,
        ctx.start <= j < ctx.end,
        0 <= balance <= 0x1000_0000,
        -0x29_0000 <= own <= 0x29_0000 + BAND_MAX,
    ensures
        (r.0 as int, r.1 as int, r.2 as int, r.3 as int) == ctx.fine_one(
            own + balance,
            balance as int,
            j as int,
            intensity as int,
            dual,
        ),
        0 <= r.3 <= balance + 0x29_0000 + BAND_MAX,
{
    proof {
        lemma2_to64();
        assert(1 <= width(eb@, j as int) <= 32 && 0 <= log_n@[j as int] <= 512 && 0 <= cap@[j as int] <= BAND_MAX);
        if lm < 4 {
            lemma_pow2_strictly_increases(lm as nat, 4);
        }
    }
    let bit = own + balance;
    let w = eb[j + 1] - eb[j];
    let p = pow2_i32(lm as u32);
    proof {
        assert(1 <= w * p <= 32 * 8) by (nonlinear_arith)
            requires 1 <= w <= 32, 1 <= p <= 8;
    }
    let n = w * p;
    let stereo: i32 = if c > 1 { 1 } else { 0 };
    let mut excess: i32;
    let mut bj: i32;
    let mut ej: i32;
    let mut fj: i32;
    if n > 1 {
        excess = (bit - cap[j]).max(0);
        let r = fine_shape(Ghost(ctx), log_n[j], j, c, lm, n, intensity, dual, bit - excess);
        bj = r.0;
        ej = r.1;
        fj = r.2;
    } else {
        excess = (bit - c * 8).max(0);
        bj = bit - excess;
        ej = 0;
        fj = 1;
    }
    if excess > 0 {
        let r = fine_excess(Ghost(ctx), c, excess, ej, balance);
        ej = r.0;
        fj = r.1;
        excess = r.2;
    }
    (bj, ej, fj, excess)
}

/// Splits bands `start..cb` into shape and fine bits (see `fine_loop`);
/// returns the excess left over.
fn fine_split(
    Ghost(ctx): Ghost<InterpCtx>,
    eb: &[i32],
    log_n: &[i32],
    cap: &[i32],
    start: usize,
    cb: usize,
    c: i32,
    lm: usize,
    intensity: usize,
    dual: bool,
    bits: &mut [i32],
    ebits: &mut [i32],
    fine_priority: &mut [i32],
) -> (balance: i32)
    requires
        ctx.ok(),
        ctx.eb == eb@ && ctx.log_n == log_n@ && ctx.cap == cap@,
        ctx.c == c && ctx.lm == lm && ctx.start == start,
        start + 1 <= cb <= ctx.end,
        old(bits)@.len() >= ctx.end,
        old(ebits)@.len() >= ctx.end,
        old(fine_priority)@.len() >= ctx.end,
        forall|t: int| start <= t < cb ==> -0x29_0000 <= #[trigger] old(bits)@[t] <= 0x29_0000 + BAND_MAX,
    ensures
        ctx.fine_loop(
            FineState { bits: old(bits)@, ebits: old(ebits)@, fp: old(fine_priority)@, balance: 0 },
            start as int,
            cb as int,
            intensity as int,
            dual,
        ) == (FineState { bits: final(bits)@, ebits: final(ebits)@, fp: final(fine_priority)@, balance: balance as int }),
        0 <= balance,
        final(bits)@.len() == old(bits)@.len(),
        final(ebits)@.len() == old(ebits)@.len(),
        final(fine_priority)@.len() == old(fine_priority)@.len(),
        forall|t: int| cb <= t < old(bits)@.len() ==> #[trigger] final(bits)@[t] == old(bits)@[t],
{
    let ghost e_len = ebits@.len();
    let ghost f_len = fine_priority@.len();
    let ghost st0 = FineState { bits: bits@, ebits: ebits@, fp: fine_priority@, balance: 0 };
    let ghost b0 = bits@;
    let mut balance: i32 = 0;
    let mut j = start;
    while j < cb
        invariant
            ctx.ok(),
            ctx.eb == eb@ && ctx.log_n == log_n@ && ctx.cap == cap@,
            ctx.c == c && ctx.lm == lm && ctx.start == start,
            start <= j <= cb <= ctx.end,
            bits@.len() == b0.len(),
            b0.len() >= ctx.end,
            ebits@.len() == e_len,
            fine_priority@.len() == f_len,
            e_len >= ctx.end,
            f_len >= ctx.end,
            forall|t: int| start <= t < cb ==> -0x29_0000 <= #[trigger] b0[t] <= 0x29_0000 + BAND_MAX,
            forall|t: int| j <= t < cb ==> bits@[t] == b0[t],
            forall|t: int| cb <= t < b0.len() ==> bits@[t] == b0[t],
            0 <= balance <= (j - start) * 0x29_8000,
            ctx.fine_loop(st0, start as int, cb as int, intensity as int, dual) == ctx.fine_loop(
                FineState { bits: bits@, ebits: ebits@, fp: fine_priority@, balance: balance as int },
                j as int,
                cb as int,
                intensity as int,
                dual,
            ),
        decreases cb - j,
    {
        assert(bits@[j as int] == b0[j as int]);
        let own = bits[j];
        let r = fine_band(Ghost(ctx), eb, log_n, cap, j, c, lm, intensity, dual, own, balance);
        bits[j] = r.0;
        ebits[j] = r.1;
        fine_priority[j] = r.2;
        balance = r.3;
        j += 1;
    }
    balance
}

/// Bands `cb..end` keep only fine energy (see `tail_loop`).
fn tail_fill(
    Ghost(ctx): Ghost<InterpCtx>,
    cb: usize,
    end: usize,
    c: i32,
    bits: &mut [i32],
    ebits: &mut [i32],
    fine_priority: &mut [i32],
)
    requires
        ctx.ok(),
        ctx.end == end && ctx.c == c,
        ctx.start + 1 <= cb <= end,
        old(bits)@.len() >= end,
        old(ebits)@.len() >= end,
        old(fine_priority)@.len() >= end,
        forall|t: int| cb <= t < end ==> 0 <= #[trigger] old(bits)@[t] <= 16,
    ensures
        final(bits)@.len() == old(bits)@.len(),
        final(ebits)@.len() == old(ebits)@.len(),
        final(fine_priority)@.len() == old(fine_priority)@.len(),
        forall|balance: int|
            ctx.tail_loop(
                FineState { bits: old(bits)@, ebits: old(ebits)@, fp: old(fine_priority)@, balance },
                cb as int,
            ) == (FineState { bits: final(bits)@, ebits: final(ebits)@, fp: final(fine_priority)@, balance }),
{
    let ghost b0 = bits@;
    let ghost e0 = ebits@;
    let ghost f0 = fine_priority@;
    let stereo: u32 = if c > 1 { 1 } else { 0 };
    let mut j = cb;
    while j < end
        invariant
            ctx.ok(),
            ctx.end == end && ctx.c == c,
            ctx.start + 1 <= cb <= j <= end,
            stereo as int == ctx.stereo(),
            bits@.len() == b0.len() && b0.len() >= end,
            ebits@.len() == e0.len() && e0.len() >= end,
            fine_priority@.len() == f0.len() && f0.len() >= end,
            forall|t: int| j <= t < end ==> bits@[t] == b0[t],
            forall|t: int| cb <= t < end ==> 0 <= #[trigger] b0[t] <= 16,
            forall|balance: int|
                ctx.tail_loop(FineState { bits: b0, ebits: e0, fp: f0, balance }, cb as int) == ctx.tail_loop(
                    FineState { bits: bits@, ebits: ebits@, fp: fine_priority@, balance },
                    j as int,
                ),
        decreases end - j,
    {
        let e = shr_i32(shr_i32(bits[j], stereo), 3);
        proof {
            lemma2_to64();
        }
        ebits[j] = e;
        bits[j] = 0;
        fine_priority[j] = if e < 1 { 1 } else { 0 };
        j += 1;
    }
}

/// What the interpolation decides: per band shape bits, fine bits and
/// fine priorities; the coded band count, the final excess, the intensity
/// band, dual stereo, and the decoder after its reads.
pub struct InterpOut {
    pub bits: Seq<i32>,
    pub ebits: Seq<i32>,
    pub fp: Seq<i32>,
    pub coded_bands: int,
    pub balance: int,
    pub intensity: int,
    pub dual_stereo: bool,
    pub rd: RangeState,
}

impl InterpCtx {
    /// Bits of `bits` with bands `start..end` set to their initial bits at point `lo`.
    pub open spec fn filled(self, bits: Seq<i32>, lo: int) -> Seq<i32> {
        Seq::new(
            bits.len(),
            |t: int|
                if self.start <= t < self.end {
                    self.ibits0(lo, t) as i32
                } else {
                    bits[t]
                },
        )
    }

    /// The decisions of the interpolation: the point between the rows, the
    /// bands skipped, the intensity band and dual stereo.
    pub open spec fn decide(self, total: int, irsv: int, bits: Seq<i32>, rd: RangeState) -> Decided {
        let lo = self.ibisect(total, 0, 64, 6);
        let sk = self.skip_loop(
            SkipState { cb: self.end, psum: self.isum(lo, self.start), total, irsv, bits: self.filled(bits, lo), rd },
        );
        let (rd1, intensity) = if sk.irsv > 0 {
            let (r, v) = spec_dec_uint(sk.rd, sk.cb + 1 - self.start);
            (r, self.start + v)
        } else {
            (sk.rd, 0)
        };
        let (total1, dsr) = if intensity <= self.start {
            (sk.total + self.dual_stereo_rsv, 0)
        } else {
            (sk.total, self.dual_stereo_rsv)
        };
        let (rd2, dual) = if dsr > 0 {
            let (r, b) = spec_dec_bit_logp(rd1, 1);
            (r, b == 1)
        } else {
            (rd1, false)
        };
        Decided { cb: sk.cb, psum: sk.psum, total: total1, bits: sk.bits, intensity, dual, rd: rd2 }
    }

    /// The whole interpolation, from the budget `total`, the intensity
    /// reservation and the decoder state.
    pub open spec fn interp(
        self,
        total: int,
        irsv: int,
        bits: Seq<i32>,
        ebits: Seq<i32>,
        fp: Seq<i32>,
        rd: RangeState,
    ) -> InterpOut {
        let d = self.decide(total, irsv, bits, rd);
        let fs = self.fine_loop(
            FineState { bits: self.distribute(d.bits, d.cb, d.total, d.psum), ebits, fp, balance: 0 },
            self.start,
            d.cb,
            d.intensity,
            d.dual,
        );
        let ts = self.tail_loop(fs, d.cb);
        InterpOut {
            bits: ts.bits,
            ebits: ts.ebits,
            fp: ts.fp,
            coded_bands: d.cb,
            balance: fs.balance,
            intensity: d.intensity,
            dual_stereo: d.dual,
            rd: d.rd,
        }
    }
}

/// The decisions of the interpolation, before the bits are split.
pub struct Decided {
    pub cb: int,
    pub psum: int,
    pub total: int,
    pub bits: Seq<i32>,
    pub intensity: int,
    pub dual: bool,
    pub rd: RangeState,
}

/// Everything of the interpolation up to the split into fine energy.
fn interp_decide(
    Ghost(ctx): Ghost<InterpCtx>,
    eb: &[i32],
    start: usize,
    end: usize,
    skip_start: usize,
    bits1: &[i32],
    bits2: &[i32],
    thresh: &[i32],
    cap: &[i32],
    total: i32,
    skip_rsv: i32,
    intensity_rsv: i32,
    dual_stereo_rsv: i32,
    c: i32,
    rd: &mut RangeDecoder,
    bits: &mut [i32],
) -> (r: (usize, i32, i32, usize, bool))
    requires
        ctx.ok(),
        ctx.eb == eb@ && ctx.bits1 == bits1@ && ctx.bits2 == bits2@ && ctx.thresh == thresh@ && ctx.cap == cap@,
        ctx.start == start && ctx.end == end && ctx.skip_start == skip_start && ctx.c == c,
        ctx.skip_rsv == skip_rsv && ctx.dual_stereo_rsv == dual_stereo_rsv,
        0 <= total <= TOTAL_MAX,
        0 <= intensity_rsv <= 37,
        intensity_rsv > 0 ==> end - start <= 24,
        old(rd)@.wf(),
        old(rd)@.room(end + 2),
        old(bits)@.len() >= end,
    ensures
        ({
            let d = ctx.decide(total as int, intensity_rsv as int, old(bits)@, old(rd)@);
            &&& r.0 == d.cb && r.1 == d.psum && r.2 == d.total && r.3 == d.intensity && r.4 == d.dual
            &&& final(bits)@ == d.bits
            &&& final(rd)@ == d.rd
        }),
        final(rd)@.wf(),
        start + 1 <= r.0 <= end,
        r.3 <= end,
        0 <= r.2 <= TOTAL_MAX + 16,
        -64 * (BAND_MAX + 64) <= r.1 <= 64 * BAND_MAX + 64 * 64,
        final(bits)@.len() == old(bits)@.len(),
        forall|t: int| start <= t < r.0 ==> 0 <= #[trigger] final(bits)@[t] <= BAND_MAX,
        forall|t: int| r.0 <= t < end ==> 0 <= #[trigger] final(bits)@[t] <= 16,
{
    let lo = interp_search(Ghost(ctx), start, end, bits1, bits2, thresh, cap, c, total);
    let ghost b_in = bits@;
    let psum = interp_fill(Ghost(ctx), start, end, bits1, bits2, thresh, cap, c, lo, bits);
    assert(bits@ =~= ctx.filled(b_in, lo as int));
    let ghost b_filled = bits@;
    proof {
        assert forall|t: int| start <= t < end implies 0 <= #[trigger] bits@[t] <= BAND_MAX by {
            lemma_itmp_bounds(ctx, lo as int, t);
        }
    }
    let (coded_bands, psum, mut total, intensity_rsv) = skip_bands(
        Ghost(ctx),
        eb,
        start,
        end,
        skip_start,
        thresh,
        c,
        skip_rsv,
        psum,
        total,
        intensity_rsv,
        rd,
        bits,
    );
    proof {
        assert forall|t: int| start <= t < coded_bands implies 0 <= #[trigger] bits@[t] <= BAND_MAX by {
            assert(bits@[t] == b_filled[t]);
        }
    }
    let mut intensity: usize = 0;
    let mut dual_stereo = false;
    if intensity_rsv > 0 {
        intensity = start + rd.dec_uint((coded_bands + 1 - start) as u32) as usize;
    }
    let mut dsr = dual_stereo_rsv;
    if intensity <= start {
        total += dsr;
        dsr = 0;
    }
    if dsr > 0 {
        dual_stereo = rd.dec_bit_logp(1) == 1;
    }
    (coded_bands, psum, total, intensity, dual_stereo)
}

/// The interpolation inputs read from a mode and the allocation's arrays.
pub open spec fn interp_ctx(
    mode: &Mode,
    start: usize,
    end: usize,
    skip_start: usize,
    bits1: Seq<i32>,
    bits2: Seq<i32>,
    thresh: Seq<i32>,
    cap: Seq<i32>,
    skip_rsv: i32,
    dual_stereo_rsv: i32,
    c: i32,
    lm: i32,
) -> InterpCtx {
    InterpCtx {
        eb: mode.e_bands@,
        log_n: mode.log_n@,
        start: start as int,
        end: end as int,
        skip_start: skip_start as int,
        bits1,
        bits2,
        thresh,
        cap,
        skip_rsv: skip_rsv as int,
        dual_stereo_rsv: dual_stereo_rsv as int,
        c: c as int,
        lm: lm as int,
    }
}

/// Interpolates between two allocation rows to spend `total`, decodes which
/// bands are skipped, the intensity band and dual stereo, and splits each
/// coded band's bits into shape and fine energy.
#[verifier::rlimit(100)]
fn interp_bits2pulses(
    mode: &Mode,
    start: usize,
    end: usize,
    skip_start: usize,
    bits1: &[i32],
    bits2: &[i32],
    thresh: &[i32],
    cap: &[i32],
    total: i32,
    skip_rsv: i32,
    intensity_rsv: i32,
    dual_stereo_rsv: i32,
    c: i32,
    lm: i32,
    rd: &mut RangeDecoder,
    bits: &mut [i32],
    ebits: &mut [i32],
    fine_priority: &mut [i32],
) -> (r: (usize, i32, usize, bool))
    requires
        interp_ctx(mode, start, end, skip_start, bits1@, bits2@, thresh@, cap@, skip_rsv, dual_stereo_rsv, c, lm).ok(),
        0 <= total <= TOTAL_MAX,
        0 <= intensity_rsv <= 37,
        intensity_rsv > 0 ==> end - start <= 24,
        old(rd)@.wf(),
        old(rd)@.room(end + 2),
        old(bits)@.len() >= end,
        old(ebits)@.len() >= end,
        old(fine_priority)@.len() >= end,
    ensures
        ({
            let out = interp_ctx(mode, start, end, skip_start, bits1@, bits2@, thresh@, cap@, skip_rsv, dual_stereo_rsv, c, lm).interp(
                total as int,
                intensity_rsv as int,
                old(bits)@,
                old(ebits)@,
                old(fine_priority)@,
                old(rd)@,
            );
            &&& final(bits)@ == out.bits
            &&& final(ebits)@ == out.ebits
            &&& final(fine_priority)@ == out.fp
            &&& r.0 == out.coded_bands
            &&& r.1 == out.balance
            &&& r.2 == out.intensity
            &&& r.3 == out.dual_stereo
            &&& final(rd)@ == out.rd
        }),
        final(rd)@.wf(),
        start + 1 <= r.0 <= end,
        r.2 <= end,
        final(bits)@.len() == old(bits)@.len(),
{
    let ghost ctx = interp_ctx(mode, start, end, skip_start, bits1@, bits2@, thresh@, cap@, skip_rsv, dual_stereo_rsv, c, lm);
    let eb = mode.e_bands.as_slice();
    let log_n = mode.log_n.as_slice();
    let (coded_bands, psum, total, intensity, dual_stereo) = interp_decide(
        Ghost(ctx),
        eb,
        start,
        end,
        skip_start,
        bits1,
        bits2,
        thresh,
        cap,
        total,
        skip_rsv,
        intensity_rsv,
        dual_stereo_rsv,
        c,
        rd,
        bits,
    );
    let ghost d = ctx.decide(total as int, intensity_rsv as int, old(bits)@, old(rd)@);
    let ghost e_in = ebits@;
    let ghost f_in = fine_priority@;
    distribute(Ghost(ctx), eb, start, coded_bands, total, psum, bits);
    let ghost b_dist = bits@;
    let balance = fine_split(
        Ghost(ctx),
        eb,
        log_n,
        cap,
        start,
        coded_bands,
        c,
        lm as usize,
        intensity,
        dual_stereo,
        bits,
        ebits,
        fine_priority,
    );
    let ghost fs = FineState { bits: bits@, ebits: ebits@, fp: fine_priority@, balance: balance as int };
    assert(fs == ctx.fine_loop(
        FineState { bits: b_dist, ebits: e_in, fp: f_in, balance: 0 },
        start as int,
        coded_bands as int,
        intensity as int,
        dual_stereo,
    ));
    tail_fill(Ghost(ctx), coded_bands, end, c, bits, ebits, fine_priority);
    assert(ctx.tail_loop(fs, coded_bands as int) == (FineState {
        bits: bits@,
        ebits: ebits@,
        fp: fine_priority@,
        balance: balance as int,
    }));
    (coded_bands, balance, intensity, dual_stereo)
}

/// The inputs of an allocation.
pub struct AllocIn {
    pub eb: Seq<i32>,
    pub log_n: Seq<i32>,
    pub av: Seq<u8>,
    pub len: int,
    pub start: int,
    pub end: int,
    pub offsets: Seq<i32>,
    pub cap: Seq<i32>,
    pub alloc_trim: int,
    pub c: int,
    pub lm: int,
}

impl AllocIn {
    /// The ranges the allocation is proved for.
    pub open spec fn ok(self) -> bool {
        &&& 0 <= self.start < self.end <= self.len <= 64
        &&& self.eb.len() >= self.len + 1
        &&& self.log_n.len() >= self.len
        &&& self.av.len() >= BITALLOC_SIZE * self.len
        &&& self.offsets.len() >= self.end
        &&& self.cap.len() >= self.end
        &&& 1 <= self.c <= 2
        &&& 0 <= self.lm <= 3
        &&& 0 <= self.alloc_trim <= 10
        &&& self.c == 2 ==> self.end - self.start <= 23
        &&& forall|j: int| 0 <= j <= self.end ==> 0 <= #[trigger] self.eb[j] <= 4096
        &&& forall|j: int|
            self.start <= j < self.end ==> 1 <= #[trigger] width(self.eb, j) <= 32 && 0 <= self.log_n[j] <= 512
                && 0 <= self.offsets[j] <= 0x1_0000 && 0 <= self.cap[j] <= BAND_MAX
    }

    /// Bits below which band `j` is not worth coding.
    pub open spec fn thresh(self, j: int) -> int {
        max_int(self.c * 8, (3 * width(self.eb, j) * pow2(self.lm as nat) * 8) / 16)
    }

    /// The allocation trim's tilt of band `j`, less a bit for one-bin bands.
    pub open spec fn trim(self, j: int) -> int {
        let t = (self.c * width(self.eb, j) * (self.alloc_trim - 5 - self.lm) * (self.end - j - 1) * pow2((self.lm + 3) as nat)) / 64;
        if width(self.eb, j) * pow2(self.lm as nat) == 1 {
            t - self.c * 8
        } else {
            t
        }
    }

    /// Bits of band `j` in allocation row `row`.
    pub open spec fn row_bits(self, row: int, j: int) -> int {
        (self.c * width(self.eb, j) * self.av[row * self.len + j] * pow2(self.lm as nat)) / 4
    }

    /// Row bits with the trim applied, kept non-negative.
    pub open spec fn trimmed(self, b: int, j: int) -> int {
        if b > 0 {
            max_int(b + self.trim(j), 0)
        } else {
            b
        }
    }

    /// Bits the bands below `j` use at row `row`, `done` once a band above
    /// reached its threshold.
    pub open spec fn row_psum(self, row: int, j: int, done: bool) -> int
        decreases j - self.start,
    {
        if j <= self.start {
            0
        } else {
            let b = self.trimmed(self.row_bits(row, j - 1), j - 1) + self.offsets[j - 1];
            if b >= self.thresh(j - 1) || done {
                min_int(b, self.cap[j - 1] as int) + self.row_psum(row, j - 1, true)
            } else if b >= self.c * 8 {
                self.c * 8 + self.row_psum(row, j - 1, false)
            } else {
                self.row_psum(row, j - 1, false)
            }
        }
    }

    /// Bisection over the rows: the first row whose bits exceed `total`.
    pub open spec fn row_search(self, total: int, lo: int, hi: int) -> int
        decreases hi - lo + 1,
    {
        if lo > hi {
            lo
        } else {
            let mid = (lo + hi) / 2;
            if self.row_psum(mid, self.end, false) > total {
                self.row_search(total, lo, mid - 1)
            } else {
                self.row_search(total, mid + 1, hi)
            }
        }
    }

    /// Lower interpolation endpoint of band `j` between rows `lo` and `lo + 1`.
    pub open spec fn bits1(self, lo: int, j: int) -> int {
        self.trimmed(self.row_bits(lo, j), j) + if lo > 0 { self.offsets[j] as int } else { 0 }
    }

    /// Span of band `j` from row `lo` to row `hi` (the caps past the last row).
    pub open spec fn bits2(self, lo: int, hi: int, j: int) -> int {
        let b2 = self.trimmed(
            if hi >= BITALLOC_SIZE { self.cap[j] as int } else { self.row_bits(hi, j) },
            j,
        ) + self.offsets[j];
        max_int(b2 - self.bits1(lo, j), 0)
    }

    /// The highest band with a dynamic boost, or `start`.
    pub open spec fn skip_start(self, j: int) -> int
        decreases j - self.start,
    {
        if j <= self.start {
            self.start
        } else if self.offsets[j - 1] > 0 {
            j - 1
        } else {
            self.skip_start(j - 1)
        }
    }
}

/// The result of an allocation: per band the shape bits (in 1/8 bit), the
/// fine-energy bits and their priority; the intensity band, dual stereo,
/// the number of coded bands and the bits carried past the last one.
pub struct Alloc {
    pub pulses: Vec<i32>,
    pub fine_bits: Vec<i32>,
    pub fine_priority: Vec<i32>,
    pub intensity: usize,
    pub dual_stereo: bool,
    pub coded_bands: usize,
    pub balance: i32,
}

/// The reservations taken off the budget: (skip, intensity, dual stereo,
/// budget left).
pub open spec fn reservations(total: int, c: int, start: int, end: int) -> (int, int, int, int) {
    let t0 = max_int(total, 0);
    let skip_rsv = if t0 >= 8 { 8int } else { 0int };
    let t1 = t0 - skip_rsv;
    if c == 2 {
        let irsv = log2_frac_table()[end - start];
        if irsv > t1 {
            (skip_rsv, 0, 0, t1)
        } else {
            let t2 = t1 - irsv;
            let dsr = if t2 >= 8 { 8int } else { 0int };
            (skip_rsv, irsv, dsr, t2 - dsr)
        }
    } else {
        (skip_rsv, 0, 0, t1)
    }
}

impl AllocIn {
    /// The interpolation that an allocation runs for budget `total`.
    pub open spec fn interp_ctx(self, total: int) -> InterpCtx {
        let (skip_rsv, irsv, dsr, t) = reservations(total, self.c, self.start, self.end);
        let top = self.row_search(t, 1, BITALLOC_SIZE - 1);
        let lo = top - 1;
        InterpCtx {
            eb: self.eb,
            log_n: self.log_n,
            start: self.start,
            end: self.end,
            skip_start: self.skip_start(self.end),
            bits1: Seq::new(self.len as nat, |j: int| if self.start <= j < self.end { self.bits1(lo, j) as i32 } else { 0i32 }),
            bits2: Seq::new(
                self.len as nat,
                |j: int| if self.start <= j < self.end { self.bits2(lo, top, j) as i32 } else { 0i32 },
            ),
            thresh: Seq::new(self.len as nat, |j: int| if self.start <= j < self.end { self.thresh(j) as i32 } else { 0i32 }),
            cap: self.cap,
            skip_rsv,
            dual_stereo_rsv: dsr,
            c: self.c,
            lm: self.lm,
        }
    }

    /// The allocation for budget `total` with the decoder in state `rd`.
    pub open spec fn allocation(self, total: int, rd: RangeState) -> InterpOut {
        let (skip_rsv, irsv, dsr, t) = reservations(total, self.c, self.start, self.end);
        let zeros = Seq::new(self.len as nat, |j: int| 0i32);
        self.interp_ctx(total).interp(t, irsv, zeros, zeros, zeros, rd)
    }
}

/// Threshold and trim of band `j`.
fn band_terms(Ghost(ain): Ghost<AllocIn>, eb: &[i32], j: usize, end: usize, c: i32, lm: i32, alloc_trim: i32) -> (r: (i32, i32))
    requires
        ain.ok(),
        ain.eb == eb@ && ain.end == end && ain.c == c && ain.lm == lm && ain.alloc_trim == alloc_trim,
        ain.start <= j < end,
    ensures
        r.0 == ain.thresh(j as int),
        r.1 == ain.trim(j as int),
        1 <= r.0 <= 384,
        -32256 - 16 <= r.1 <= 20160,
{
    proof {
        lemma2_to64();
        assert(1 <= width(eb@, j as int) <= 32);
        if lm < 4 {
            lemma_pow2_strictly_increases(lm as nat, 4);
        }
        lemma_pow2_strictly_increases((lm + 3) as nat, 7);
        lemma_pow2_pos((lm + 3) as nat);
    }
    let w = eb[j + 1] - eb[j];
    let p = pow2_i32(lm as u32);
    proof {
        assert(1 <= w * p <= 256) by (nonlinear_arith)
            requires 1 <= w <= 32, 1 <= p <= 8;
    }
    let w3 = 3 * w;
    proof {
        assert(3 <= w3 * p <= 768) by (nonlinear_arith)
            requires 3 <= w3 <= 96, 1 <= p <= 8;
    }
    let w3p = w3 * p;
    let th = (c * 8).max((w3p * 8) / 16);
    let p3 = pow2_i32((lm + 3) as u32);
    let k = end as i32 - j as i32 - 1;
    proof {
        assert(1 <= c * w <= 64) by (nonlinear_arith)
            requires 1 <= c <= 2, 1 <= w <= 32;
    }
    let cw = c * w;
    let a = alloc_trim - 5 - lm;
    proof {
        assert(-8 <= a <= 5);
        assert(0 <= k <= 63);
        assert(-512 <= cw * a <= 320) by (nonlinear_arith)
            requires 1 <= cw <= 64, -8 <= a <= 5;
        assert(-512 * 63 <= cw * a * k <= 320 * 63) by (nonlinear_arith)
            requires -512 <= cw * a <= 320, 0 <= k <= 63;
        assert(8 <= p3 <= 64);
        assert(-512 * 63 * 64 <= cw * a * k * p3 <= 320 * 63 * 64) by (nonlinear_arith)
            requires -512 * 63 <= cw * a * k <= 320 * 63, 8 <= p3 <= 64;
    }
    let x = cw * a * k * p3;
    let mut tr = shr_i32(x, 6);
    proof {
        assert(-32256 <= tr <= 20160);
    }
    if w * p == 1 {
        tr -= c * 8;
    }
    (th, tr)
}

/// Bits of band `j` in allocation row `row`.
fn row_band_bits(
    Ghost(ain): Ghost<AllocIn>,
    eb: &[i32],
    av: &[u8],
    len: usize,
    row: usize,
    j: usize,
    c: i32,
    lm: i32,
) -> (r: i32)
    requires
        ain.ok(),
        ain.eb == eb@ && ain.av == av@ && ain.len == len && ain.c == c && ain.lm == lm,
        row < BITALLOC_SIZE,
        ain.start <= j < ain.end,
    ensures
        r == ain.row_bits(row as int, j as int),
        0 <= r <= 32640,
{
    proof {
        lemma2_to64();
        assert(1 <= width(eb@, j as int) <= 32);
        if lm < 4 {
            lemma_pow2_strictly_increases(lm as nat, 4);
        }
        assert(row * len + j < BITALLOC_SIZE * len) by (nonlinear_arith)
            requires row < BITALLOC_SIZE, j < len;
    }
    let w = eb[j + 1] - eb[j];
    let a = av[row * len + j] as i32;
    let p = pow2_i32(lm as u32);
    proof {
        assert(0 <= c * w * a * p <= 2 * 32 * 255 * 8) by (nonlinear_arith)
            requires 1 <= c <= 2, 1 <= w <= 32, 0 <= a <= 255, 1 <= p <= 8;
        assert(0 <= c * w * a <= 2 * 32 * 255) by (nonlinear_arith)
            requires 1 <= c <= 2, 1 <= w <= 32, 0 <= a <= 255;
        assert(0 <= c * w <= 64) by (nonlinear_arith)
            requires 1 <= c <= 2, 1 <= w <= 32;
    }
    (c * w * a * p) / 4
}

/// Bits of all bands at allocation row `row` (see `row_psum`).
fn row_total(
    Ghost(ain): Ghost<AllocIn>,
    eb: &[i32],
    av: &[u8],
    len: usize,
    start: usize,
    end: usize,
    offsets: &[i32],
    cap: &[i32],
    thresh: &[i32],
    trim: &[i32],
    c: i32,
    lm: i32,
    row: usize,
) -> (p: i32)
    requires
        ain.ok(),
        ain.eb == eb@ && ain.av == av@ && ain.len == len && ain.c == c && ain.lm == lm,
        ain.offsets == offsets@ && ain.cap == cap@ && ain.start == start && ain.end == end,
        thresh@.len() >= end && trim@.len() >= end,
        forall|t: int| start <= t < end ==> #[trigger] thresh@[t] == ain.thresh(t),
        forall|t: int| start <= t < end ==> #[trigger] trim@[t] == ain.trim(t),
        forall|t: int| start <= t < end ==> -32256 - 16 <= #[trigger] trim@[t] <= 20160,
        row < BITALLOC_SIZE,
    ensures
        p == ain.row_psum(row as int, end as int, false),
        0 <= p <= 64 * BAND_MAX,
{
    let mut psum: i32 = 0;
    let mut done = false;
    let mut j = end;
    while j > start
        invariant
            ain.ok(),
            ain.eb == eb@ && ain.av == av@ && ain.len == len && ain.c == c && ain.lm == lm,
            ain.offsets == offsets@ && ain.cap == cap@ && ain.start == start && ain.end == end,
            thresh@.len() >= end && trim@.len() >= end,
            forall|t: int| start <= t < end ==> #[trigger] thresh@[t] == ain.thresh(t),
            forall|t: int| start <= t < end ==> #[trigger] trim@[t] == ain.trim(t),
            forall|t: int| start <= t < end ==> -32256 - 16 <= #[trigger] trim@[t] <= 20160,
            row < BITALLOC_SIZE,
            start <= j <= end,
            0 <= psum <= (end - j) * BAND_MAX,
            ain.row_psum(row as int, end as int, false) == psum + ain.row_psum(row as int, j as int, done),
        decreases j,
    {
        j -= 1;
        proof {
            assert(1 <= width(eb@, j as int) <= 32 && 0 <= offsets@[j as int] <= 0x1_0000 && 0 <= cap@[j as int] <= BAND_MAX);
            assert(-32256 - 16 <= trim@[j as int] <= 20160);
        }
        let mut b = row_band_bits(Ghost(ain), eb, av, len, row, j, c, lm);
        assert(trim@[j as int] == ain.trim(j as int) && thresh@[j as int] == ain.thresh(j as int));
        if b > 0 {
            b = (b + trim[j]).max(0);
        }
        b += offsets[j];
        assert(b == ain.trimmed(ain.row_bits(row as int, j as int), j as int) + ain.offsets[j as int]);
        if b >= thresh[j] || done {
            done = true;
            psum += b.min(cap[j]);
        } else if b >= c * 8 {
            psum += c * 8;
        }
    }
    psum
}

/// Thresholds and trims of bands `start..end`, zero elsewhere.
fn alloc_terms(
    Ghost(ain): Ghost<AllocIn>,
    eb: &[i32],
    len: usize,
    start: usize,
    end: usize,
    c: i32,
    lm: i32,
    alloc_trim: i32,
) -> (r: (Vec<i32>, Vec<i32>))
    requires
        ain.ok(),
        ain.eb == eb@ && ain.len == len && ain.start == start && ain.end == end && ain.c == c && ain.lm == lm
            && ain.alloc_trim == alloc_trim,
    ensures
        r.0@.len() == len && r.1@.len() == len,
        forall|t: int| start <= t < end ==> #[trigger] r.0@[t] == ain.thresh(t),
        forall|t: int| start <= t < end ==> #[trigger] r.1@[t] == ain.trim(t),
        forall|t: int| start <= t < end ==> -32256 - 16 <= #[trigger] r.1@[t] <= 20160,
        forall|t: int| 0 <= t < len && !(start <= t < end) ==> r.0@[t] == 0,
        forall|t: int| start <= t < end ==> 1 <= #[trigger] r.0@[t] <= 384,
{
    let mut thresh = vec![0i32; len];
    let mut trim = vec![0i32; len];
    let mut j = start;
    while j < end
        invariant
            ain.ok(),
            ain.eb == eb@ && ain.len == len && ain.start == start && ain.end == end && ain.c == c && ain.lm == lm
                && ain.alloc_trim == alloc_trim,
            start <= j <= end,
            thresh@.len() == len && trim@.len() == len,
            forall|t: int| start <= t < j ==> #[trigger] thresh@[t] == ain.thresh(t),
            forall|t: int| start <= t < j ==> #[trigger] trim@[t] == ain.trim(t),
            forall|t: int| start <= t < j ==> -32256 - 16 <= #[trigger] trim@[t] <= 20160,
            forall|t: int| 0 <= t < len && !(start <= t < j) ==> thresh@[t] == 0,
            forall|t: int| start <= t < j ==> 1 <= #[trigger] thresh@[t] <= 384,
        decreases end - j,
    {
        let (th, tr) = band_terms(Ghost(ain), eb, j, end, c, lm, alloc_trim);
        thresh.set(j, th);
        trim.set(j, tr);
        j += 1;
    }
    (thresh, trim)
}

/// The first allocation row whose bits exceed `total` (see `row_search`).
fn alloc_search(
    Ghost(ain): Ghost<AllocIn>,
    eb: &[i32],
    av: &[u8],
    len: usize,
    start: usize,
    end: usize,
    offsets: &[i32],
    cap: &[i32],
    thresh: &[i32],
    trim: &[i32],
    c: i32,
    lm: i32,
    total: i32,
) -> (top: i32)
    requires
        ain.ok(),
        ain.eb == eb@ && ain.av == av@ && ain.len == len && ain.c == c && ain.lm == lm,
        ain.offsets == offsets@ && ain.cap == cap@ && ain.start == start && ain.end == end,
        thresh@.len() >= end && trim@.len() >= end,
        forall|t: int| start <= t < end ==> #[trigger] thresh@[t] == ain.thresh(t),
        forall|t: int| start <= t < end ==> #[trigger] trim@[t] == ain.trim(t),
        forall|t: int| start <= t < end ==> -32256 - 16 <= #[trigger] trim@[t] <= 20160,
    ensures
        top == ain.row_search(total as int, 1, BITALLOC_SIZE - 1),
        1 <= top <= BITALLOC_SIZE,
{
    let mut lo: i32 = 1;
    let mut hi: i32 = BITALLOC_SIZE - 1;
    while lo <= hi
        invariant
            ain.ok(),
            ain.eb == eb@ && ain.av == av@ && ain.len == len && ain.c == c && ain.lm == lm,
            ain.offsets == offsets@ && ain.cap == cap@ && ain.start == start && ain.end == end,
            thresh@.len() >= end && trim@.len() >= end,
            forall|t: int| start <= t < end ==> #[trigger] thresh@[t] == ain.thresh(t),
            forall|t: int| start <= t < end ==> #[trigger] trim@[t] == ain.trim(t),
            forall|t: int| start <= t < end ==> -32256 - 16 <= #[trigger] trim@[t] <= 20160,
            1 <= lo <= BITALLOC_SIZE,
            0 <= hi <= BITALLOC_SIZE - 1,
            lo <= hi + 1,
            ain.row_search(total as int, 1, BITALLOC_SIZE - 1) == ain.row_search(total as int, lo as int, hi as int),
        decreases hi - lo + 1,
    {
        let mid = (lo + hi) / 2;
        let psum = row_total(Ghost(ain), eb, av, len, start, end, offsets, cap, thresh, trim, c, lm, mid as usize);
        if psum > total {
            hi = mid - 1;
        } else {
            lo = mid + 1;
        }
    }
    lo
}

/// The interpolation endpoints of bands `start..end` between rows `lo` and
/// `hi`, and the highest boosted band.
fn alloc_rows(
    Ghost(ain): Ghost<AllocIn>,
    eb: &[i32],
    av: &[u8],
    len: usize,
    start: usize,
    end: usize,
    offsets: &[i32],
    cap: &[i32],
    trim: &[i32],
    c: i32,
    lm: i32,
    lo: i32,
    hi: i32,
) -> (r: (Vec<i32>, Vec<i32>, usize))
    requires
        ain.ok(),
        ain.eb == eb@ && ain.av == av@ && ain.len == len && ain.c == c && ain.lm == lm,
        ain.offsets == offsets@ && ain.cap == cap@ && ain.start == start && ain.end == end,
        trim@.len() >= end,
        forall|t: int| start <= t < end ==> #[trigger] trim@[t] == ain.trim(t),
        forall|t: int| start <= t < end ==> -32256 - 16 <= #[trigger] trim@[t] <= 20160,
        0 <= lo < BITALLOC_SIZE,
        hi == lo + 1,
    ensures
        r.0@ =~= Seq::new(len as nat, |j: int| if start <= j < end { ain.bits1(lo as int, j) as i32 } else { 0i32 }),
        r.1@ =~= Seq::new(
            len as nat,
            |j: int| if start <= j < end { ain.bits2(lo as int, hi as int, j) as i32 } else { 0i32 },
        ),
        r.2 == ain.skip_start(end as int),
        start <= r.2 < end,
        forall|t: int| start <= t < end ==> 0 <= #[trigger] r.0@[t] <= ROW_MAX && 0 <= r.1@[t] <= ROW_MAX,
{
    let mut bits1 = vec![0i32; len];
    let mut bits2 = vec![0i32; len];
    let mut skip_start = start;
    let mut j = start;
    while j < end
        invariant
            ain.ok(),
            ain.eb == eb@ && ain.av == av@ && ain.len == len && ain.c == c && ain.lm == lm,
            ain.offsets == offsets@ && ain.cap == cap@ && ain.start == start && ain.end == end,
            trim@.len() >= end,
            forall|t: int| start <= t < end ==> #[trigger] trim@[t] == ain.trim(t),
            forall|t: int| start <= t < end ==> -32256 - 16 <= #[trigger] trim@[t] <= 20160,
            0 <= lo < BITALLOC_SIZE,
            hi == lo + 1,
            start <= j <= end,
            bits1@.len() == len && bits2@.len() == len,
            forall|t: int| start <= t < j ==> #[trigger] bits1@[t] == ain.bits1(lo as int, t) as i32,
            forall|t: int| start <= t < j ==> #[trigger] bits2@[t] == ain.bits2(lo as int, hi as int, t) as i32,
            forall|t: int| 0 <= t < len && !(start <= t < j) ==> bits1@[t] == 0 && bits2@[t] == 0,
            forall|t: int| start <= t < j ==> 0 <= #[trigger] bits1@[t] <= ROW_MAX && 0 <= bits2@[t] <= ROW_MAX,
            skip_start == ain.skip_start(j as int),
            start <= skip_start && (skip_start < j || skip_start == start),
        decreases end - j,
    {
        proof {
            assert(1 <= width(eb@, j as int) <= 32);
            assert(0 <= offsets@[j as int] <= 0x1_0000 && 0 <= cap@[j as int] <= BAND_MAX);
            assert(-32256 - 16 <= trim@[j as int] <= 20160 && trim@[j as int] == ain.trim(j as int));
        }
        let mut b1 = row_band_bits(Ghost(ain), eb, av, len, lo as usize, j, c, lm);
        let mut b2 = if hi >= BITALLOC_SIZE { cap[j] } else { row_band_bits(Ghost(ain), eb, av, len, hi as usize, j, c, lm) };
        if b1 > 0 {
            b1 = (b1 + trim[j]).max(0);
        }
        if b2 > 0 {
            b2 = (b2 + trim[j]).max(0);
        }
        if lo > 0 {
            b1 += offsets[j];
        }
        b2 += offsets[j];
        if offsets[j] > 0 {
            skip_start = j;
        }
        b2 = (b2 - b1).max(0);
        assert(b1 == ain.bits1(lo as int, j as int));
        assert(b2 == ain.bits2(lo as int, hi as int, j as int));
        assert(0 <= b1 <= ROW_MAX && 0 <= b2 <= ROW_MAX);
        bits1.set(j, b1);
        bits2.set(j, b2);
        j += 1;
    }
    (bits1, bits2, skip_start)
}

/// The reservations of `reservations`.
fn reserve(total: i32, c: i32, start: usize, end: usize) -> (r: (i32, i32, i32, i32))
    requires
        total <= TOTAL_MAX,
        1 <= c <= 2,
        start < end,
        c == 2 ==> end - start <= 23,
    ensures
        (r.0 as int, r.1 as int, r.2 as int, r.3 as int) == reservations(total as int, c as int, start as int, end as int),
        0 <= r.3 <= TOTAL_MAX,
        0 <= r.1 <= 37,
        r.0 == 0 || r.0 == 8,
        r.2 == 0 || r.2 == 8,
{
    let mut total = total.max(0);
    let skip_rsv = if total >= 8 { 8 } else { 0 };
    total -= skip_rsv;
    let mut intensity_rsv: i32 = 0;
    let mut dual_stereo_rsv: i32 = 0;
    if c == 2 {
        intensity_rsv = log2_frac_entry(end - start);
        if intensity_rsv > total {
            intensity_rsv = 0;
        } else {
            total -= intensity_rsv;
            dual_stereo_rsv = if total >= 8 { 8 } else { 0 };
            total -= dual_stereo_rsv;
        }
    }
    (skip_rsv, intensity_rsv, dual_stereo_rsv, total)
}

/// The allocation inputs read from a mode and the decoder's values.
pub open spec fn alloc_in(
    mode: &Mode,
    start: usize,
    end: usize,
    offsets: Seq<i32>,
    cap: Seq<i32>,
    alloc_trim: i32,
    c: i32,
    lm: i32,
) -> AllocIn {
    AllocIn {
        eb: mode.e_bands@,
        log_n: mode.log_n@,
        av: mode.alloc_vectors@,
        len: mode.nb_ebands as int,
        start: start as int,
        end: end as int,
        offsets,
        cap,
        alloc_trim: alloc_trim as int,
        c: c as int,
        lm: lm as int,
    }
}

/// Allocates `total` eighth-bits over bands `start..end` of a frame of
/// `2^lm` short blocks with `c` channels: interpolates between the mode's
/// allocation rows (tilted by `alloc_trim`, raised by the dynamic `offsets`,
/// limited by `cap`), decodes the skipped bands, the intensity band and
/// dual stereo from `rd`, and splits each band into shape and fine bits.
#[verifier::rlimit(60)]
pub fn clt_compute_allocation(
    mode: &Mode,
    start: usize,
    end: usize,
    offsets: &[i32],
    cap: &[i32],
    alloc_trim: i32,
    total: i32,
    c: i32,
    lm: i32,
    rd: &mut RangeDecoder,
) -> (r: Alloc)
    requires
        alloc_in(mode, start, end, offsets@, cap@, alloc_trim, c, lm).ok(),
        total <= TOTAL_MAX,
        old(rd)@.wf(),
        old(rd)@.room(end + 2),
    ensures
        ({
            let out = alloc_in(mode, start, end, offsets@, cap@, alloc_trim, c, lm).allocation(total as int, old(rd)@);
            &&& r.pulses@ == out.bits
            &&& r.fine_bits@ == out.ebits
            &&& r.fine_priority@ == out.fp
            &&& r.intensity == out.intensity
            &&& r.dual_stereo == out.dual_stereo
            &&& r.coded_bands == out.coded_bands
            &&& r.balance == out.balance
            &&& final(rd)@ == out.rd
        }),
        final(rd)@.wf(),
        start + 1 <= r.coded_bands <= end,
        r.intensity <= end,
        r.pulses@.len() == mode.nb_ebands,
{
    let ghost ain = alloc_in(mode, start, end, offsets@, cap@, alloc_trim, c, lm);
    let len = mode.nb_ebands;
    let eb = mode.e_bands.as_slice();
    let av = mode.alloc_vectors.as_slice();
    let ghost total0 = total as int;
    let (skip_rsv, intensity_rsv, dual_stereo_rsv, total) = reserve(total, c, start, end);
    let (thresh, trim) = alloc_terms(Ghost(ain), eb, len, start, end, c, lm, alloc_trim);
    let top = alloc_search(Ghost(ain), eb, av, len, start, end, offsets, cap, &thresh, &trim, c, lm, total);
    let hi = top;
    let lo = top - 1;
    let (bits1, bits2, skip_start) = alloc_rows(Ghost(ain), eb, av, len, start, end, offsets, cap, &trim, c, lm, lo, hi);
    let mut pulses = vec![0i32; len];
    let mut ebits = vec![0i32; len];
    let mut fine_priority = vec![0i32; len];
    let ghost zeros = Seq::new(len as nat, |j: int| 0i32);
    assert(pulses@ =~= zeros);
    assert(ebits@ =~= zeros);
    assert(fine_priority@ =~= zeros);
    let ghost ctx = interp_ctx(mode, start, end, skip_start, bits1@, bits2@, thresh@, cap@, skip_rsv, dual_stereo_rsv, c, lm);
    assert(thresh@ =~= ain.interp_ctx(total0).thresh);
    assert(ctx == ain.interp_ctx(total0));
    let (coded_bands, balance, intensity, dual_stereo) = interp_bits2pulses(
        mode,
        start,
        end,
        skip_start,
        bits1.as_slice(),
        bits2.as_slice(),
        thresh.as_slice(),
        cap,
        total,
        skip_rsv,
        intensity_rsv,
        dual_stereo_rsv,
        c,
        lm,
        rd,
        pulses.as_mut_slice(),
        ebits.as_mut_slice(),
        fine_priority.as_mut_slice(),
    );
    Alloc { pulses, fine_bits: ebits, fine_priority, intensity, dual_stereo, coded_bands, balance }
}

/// The cap of band `i` in eighth-bits for `c` channels at frame size `lm`:
/// the cache's cap byte plus 64, per 4 bins and channel.
pub open spec fn band_cap(mode: &Mode, lm: int, c: int, i: int) -> int {
    let nb = mode.nb_ebands as int;
    ((mode.cache.caps@[slot(nb, 2 * lm + c - 1, i)] + 64) * c * (width(mode.e_bands@, i) * pow2(lm as nat))) / 4
}

/// The caps of all bands for `c` channels at frame size `lm`.
pub fn init_caps(mode: &Mode, lm: usize, c: usize) -> (r: Vec<i32>)
    requires
        mode.e_bands@.len() >= mode.nb_ebands + 1,
        mode.cache.caps@.len() >= mode.nb_ebands * (2 * lm + c),
        lm <= 3,
        1 <= c <= 2,
        forall|i: int| 0 <= i < mode.nb_ebands ==> 1 <= #[trigger] width(mode.e_bands@, i) <= 64,
    ensures
        r@.len() == mode.nb_ebands,
        forall|i: int| 0 <= i < mode.nb_ebands ==> #[trigger] r@[i] as int == band_cap(mode, lm as int, c as int, i),
{
    let nb = mode.nb_ebands;
    let p = pow2_i32(lm as u32);
    proof {
        lemma2_to64();
        if lm < 4 {
            lemma_pow2_strictly_increases(lm as nat, 4);
        }
    }
    let row = 2 * lm + c - 1;
    let cl = mode.cache.caps.len();
    let mut caps: Vec<i32> = Vec::new();
    let mut i: usize = 0;
    while i < nb
        invariant
            nb == mode.nb_ebands,
            mode.e_bands@.len() >= nb + 1,
            mode.cache.caps@.len() >= nb * (2 * lm + c),
            lm <= 3,
            1 <= c <= 2,
            row == 2 * lm + c - 1,
            cl == mode.cache.caps@.len(),
            p as int == pow2(lm as nat),
            1 <= p <= 8,
            forall|i: int| 0 <= i < nb ==> 1 <= #[trigger] width(mode.e_bands@, i) <= 64,
            i <= nb,
            caps@.len() == i,
            forall|t: int| 0 <= t < i ==> #[trigger] caps@[t] as int == band_cap(mode, lm as int, c as int, t),
        decreases nb - i,
    {
        assert(1 <= width(mode.e_bands@, i as int) <= 64);
        proof {
            assert(nb * row + i < nb * (2 * lm + c)) by (nonlinear_arith)
                requires i < nb, row == 2 * lm + c - 1;
            assert(slot(nb as int, row as int, i as int) == nb * row + i) by (nonlinear_arith)
                requires true;
        }
        let w = mode.e_bands[i + 1] - mode.e_bands[i];
        proof {
            assert(1 <= w * p <= 512) by (nonlinear_arith)
                requires 1 <= w <= 64, 1 <= p <= 8;
        }
        let n = w * p;
        let cap = mode.cache.caps[nb * row + i] as i32;
        proof {
            assert(0 <= (cap + 64) * (c as i32) <= 638) by (nonlinear_arith)
                requires 0 <= cap <= 255, 1 <= c <= 2;
            assert(0 <= (cap + 64) * (c as i32) * n <= 638 * 512) by (nonlinear_arith)
                requires 0 <= (cap + 64) * (c as i32) <= 638, 1 <= n <= 512;
        }
        caps.push((cap + 64) * c as i32 * n / 4);
        i += 1;
    }
    caps
}

} // verus!
