//! The shape of a band: the recursive split of a band into halves, each
//! split coding an angle and sharing the bits, down to leaves that hold a
//! PVQ codeword or, without pulses, noise or nothing; read from the range
//! decoder in exactly the order the encoder wrote it.
use vstd::prelude::*;
use crate::opus::range::{RangeDecoder, RangeState, spec_dec_uint, BITS_LIMIT};
use crate::opus::celt::bands::{celt_lcg_rand, lcg_next};
use crate::opus::celt::cwrs::{cw_decode, decode_pulses, get_pulses, pvq_v, spec_get_pulses};
use crate::opus::celt::rate::{PulseCache, has_entry, spec_bits2pulses, lemma_get_pulses_mono};
use crate::opus::celt::theta::{
    ThetaSplit, cache_entry, compute_theta, leaf_pulses, level_cost, lower_level, rebalance, should_split, split_bits,
    split_bits_spec, splits, theta_spec,
};
use crate::opus::celt::vq::{collapse_bits, collapse_mask};
use crate::arith::pow2_i32;

verus! {

/// The noise generator stepped `n` times.
pub open spec fn lcg_iter(seed: u32, n: int) -> u32
    decreases n,
{
    if n <= 0 {
        seed
    } else {
        lcg_iter(lcg_next(seed), n - 1)
    }
}

/// The cache holds, for band `band` of `n` samples at resolution `lm` and
/// for every half it can be split into, an entry of at most 40 levels whose
/// codebooks fit in 32 bits, and no split reaches a single sample.
#[verifier::opaque]
pub open spec fn tree_ok(cache: &PulseCache, nb: int, band: int, n: int, lm: int) -> bool
    decreases lm + 1,
{
    if lm < -1 || lm > 3 {
        false
    } else {
        &&& 2 <= n <= 256
        &&& has_entry(cache.index@, cache.bits@, nb, lm + 1, band)
        &&& cache_entry(cache, nb, lm, band)[0] <= 40
        &&& forall|t: int|
            1 <= t <= cache_entry(cache, nb, lm, band)[0] ==> pvq_v(n as nat, #[trigger] spec_get_pulses(t) as nat)
                < 0x1_0000_0000
        &&& (lm == -1 || n <= 2 || tree_ok(cache, nb, band, n / 2, lm - 1))
    }
}

pub(crate) proof fn lemma_tree_facts(cache: &PulseCache, nb: int, band: int, n: int, lm: int)
    requires
        tree_ok(cache, nb, band, n, lm),
    ensures
        -1 <= lm <= 3,
        2 <= n <= 256,
        has_entry(cache.index@, cache.bits@, nb, lm + 1, band),
        cache_entry(cache, nb, lm, band)[0] <= 40,
        forall|t: int|
            1 <= t <= cache_entry(cache, nb, lm, band)[0] ==> pvq_v(n as nat, #[trigger] spec_get_pulses(t) as nat)
                < 0x1_0000_0000,
        lm != -1 && n > 2 ==> tree_ok(cache, nb, band, n / 2, lm - 1),
{
    reveal_with_fuel(tree_ok, 1);
}

/// The mid half `m` and side half `s` of a band of `n` samples, laid end
/// to end (a last odd sample stays zero).
pub open spec fn join(m: Seq<i32>, s: Seq<i32>, n: int) -> Seq<i32> {
    let h = n / 2;
    Seq::new(n as nat, |j: int| if j < h { m[j] } else if j < 2 * h { s[j - h] } else { 0i32 })
}

/// An unsplit band: the pulse level that fits `b` and the bits left, then
/// the codeword of that many pulses, or with no pulses the fold mask
/// decides between silence and noise.
pub open spec fn leaf_spec(
    s: RangeState,
    c: Seq<u8>,
    n: int,
    b: int,
    bparam: int,
    has_lowband: bool,
    fill: i32,
    remaining: int,
    seed: u32,
) -> (RangeState, Seq<i32>, Seq<i32>, u32, int, u32) {
    let q0 = spec_bits2pulses(c, b);
    let (q, rem) = lower_level(c, q0, remaining - level_cost(c, q0));
    let zeros = Seq::new(n as nat, |j: int| 0i32);
    if q != 0 {
        let k = spec_get_pulses(q);
        let (s1, idx) = spec_dec_uint(s, pvq_v(n as nat, k as nat) as int);
        let cw = cw_decode(n as nat, k as nat, idx);
        let y = Seq::new(n as nat, |j: int| cw[j] as i32);
        let cm = if bparam <= 1 { 1u32 } else { collapse_bits(y, n / bparam, bparam as nat) as u32 };
        (s1, y, Seq::empty(), cm, rem, seed)
    } else {
        let mask = (vstd::arithmetic::power2::pow2(bparam as nat) - 1) as i32;
        let f = fill & mask;
        if f == 0 {
            (s, zeros, Seq::empty(), 0u32, rem, seed)
        } else if !has_lowband {
            (s, zeros, Seq::empty(), mask as u32, rem, lcg_iter(seed, n))
        } else {
            (s, zeros, Seq::empty(), f as u32, rem, lcg_iter(seed, n))
        }
    }
}

/// The bits the split gives the half read first: the mid half's when
/// `mid_first`, else the side half's.
pub open spec fn first_bits(th: ThetaSplit, bparam: int, lm: int, n: int, mid_first: bool) -> int {
    let (mbits, sbits) = split_bits_spec(th.b as int, th.delta as int, th.itheta as int, bparam, lm - 1, n / 2);
    if mid_first { mbits } else { sbits }
}

/// The bits of the half read second, after the first left `rem2` of the
/// frame's bits: its share, plus what the first half did not use beyond
/// three bits unless the angle leaves the second half empty.
pub open spec fn second_bits(th: ThetaSplit, bparam: int, lm: int, n: int, remaining: int, rem2: int, mid_first: bool) -> int {
    let (mbits, sbits) = split_bits_spec(th.b as int, th.delta as int, th.itheta as int, bparam, lm - 1, n / 2);
    if mid_first {
        let reb = mbits - (remaining - th.qalloc - rem2);
        if reb > 24 && th.itheta != 0 { sbits + reb - 24 } else { sbits }
    } else {
        let reb = sbits - (remaining - th.qalloc - rem2);
        if reb > 24 && th.itheta != 16384 { mbits + reb - 24 } else { mbits }
    }
}

/// The fold mask of a half: the split's own for the mid half, its upper
/// blocks for the side half.
pub open spec fn half_fill(th: ThetaSplit, bparam: int, mid: bool) -> i32 {
    if mid { th.fill } else { th.fill >> (((bparam + 1) / 2) as u32) }
}

/// A split band from its halves `a` (read first) and `z` (read second):
/// the pulses mid then side, the angles in the order read, the collapse
/// mask with the side's bits above the mid's.
#[verifier::opaque]
pub open spec fn combine(
    th: ThetaSplit,
    a: (RangeState, Seq<i32>, Seq<i32>, u32, int, u32),
    z: (RangeState, Seq<i32>, Seq<i32>, u32, int, u32),
    n: int,
    bparam: int,
    mid_first: bool,
) -> (RangeState, Seq<i32>, Seq<i32>, u32, int, u32) {
    let sh = (bparam / 2) as u32;
    if mid_first {
        (z.0, join(a.1, z.1, n), seq![th.itheta] + a.2 + z.2, a.3 | (z.3 << sh), z.4, z.5)
    } else {
        (z.0, join(z.1, a.1, n), seq![th.itheta] + a.2 + z.2, (a.3 << sh) | z.3, z.4, z.5)
    }
}

/// The halves of a split band once its angle `th` is read (state `s1`):
/// the half given more bits (the mid on a tie) first, then the other.
#[verifier::opaque]
pub open spec fn split_spec(
    s1: RangeState,
    th: ThetaSplit,
    cache: &PulseCache,
    nb: int,
    band: int,
    log_n: int,
    n: int,
    bparam: int,
    has_lowband: bool,
    lm: int,
    remaining: int,
    seed: u32,
    mid_first: bool,
) -> (RangeState, Seq<i32>, Seq<i32>, u32, int, u32)
    decreases n, 0int,
{
    if n <= 2 {
        (s1, Seq::empty(), Seq::empty(), 0u32, remaining, seed)
    } else {
        let bp2 = (bparam + 1) / 2;
        let a = partition_spec(s1, cache, nb, band, log_n, n / 2, first_bits(th, bparam, lm, n, mid_first), bp2,
            has_lowband, lm - 1, half_fill(th, bparam, mid_first), remaining - th.qalloc, seed);
        let z = partition_spec(a.0, cache, nb, band, log_n, n / 2, second_bits(th, bparam, lm, n, remaining, a.4,
            mid_first), bp2, has_lowband, lm - 1, half_fill(th, bparam, !mid_first), a.4, a.5);
        combine(th, a, z, n, bparam, mid_first)
    }
}

/// A band of `n` samples with `b` eighth-bits in `bparam` blocks at
/// resolution `lm`: the decoder state after it, its pulses, the angles of
/// its splits in the order read, its collapse mask, the frame's bits left
/// and the noise seed. A split reads the angle of the halves, then the
/// halves (see `split_spec`); a leaf is read as `leaf_spec` says.
#[verifier::opaque]
pub open spec fn partition_spec(
    s: RangeState,
    cache: &PulseCache,
    nb: int,
    band: int,
    log_n: int,
    n: int,
    b: int,
    bparam: int,
    has_lowband: bool,
    lm: int,
    fill: i32,
    remaining: int,
    seed: u32,
) -> (RangeState, Seq<i32>, Seq<i32>, u32, int, u32)
    decreases n, 1int,
{
    let c = cache_entry(cache, nb, lm, band);
    if splits(c, n, b, lm) {
        let fill1 = if bparam == 1 { (fill & 1i32) | (fill << 1u32) } else { fill };
        let (s1, th) = theta_spec(s, n / 2, b, (bparam + 1) / 2, bparam, lm - 1, false, fill1, log_n, false, remaining);
        let (mbits, sbits) = split_bits_spec(th.b as int, th.delta as int, th.itheta as int, bparam, lm - 1, n / 2);
        split_spec(s1, th, cache, nb, band, log_n, n, bparam, has_lowband, lm, remaining, seed, mbits >= sbits)
    } else {
        leaf_spec(s, c, n, b, bparam, has_lowband, fill, remaining, seed)
    }
}

/// The decoded shape of a band (see `partition_spec`).
pub struct Partition {
    pub pulses: Vec<i32>,
    pub thetas: Vec<i32>,
    pub cm: u32,
    pub remaining: i32,
    pub seed: u32,
}

fn concat(a: Vec<i32>, b: &Vec<i32>) -> (r: Vec<i32>)
    ensures
        r@ == a@ + b@,
{
    let mut r = a;
    let ghost a0 = r@;
    let mut j: usize = 0;
    while j < b.len()
        invariant
            j <= b@.len(),
            r@ == a0 + b@.subrange(0, j as int),
        decreases b@.len() - j,
    {
        r.push(b[j]);
        proof {
            assert(a0 + b@.subrange(0, j + 1) =~= (a0 + b@.subrange(0, j as int)).push(b@[j as int]));
        }
        j = j + 1;
    }
    proof {
        assert(b@.subrange(0, b@.len() as int) =~= b@);
    }
    r
}

fn join_halves(m: &Vec<i32>, s: &Vec<i32>, n: usize) -> (r: Vec<i32>)
    requires
        m@.len() == n / 2,
        s@.len() == n / 2,
    ensures
        r@ == join(m@, s@, n as int),
{
    let h = n / 2;
    let mut r: Vec<i32> = Vec::new();
    let mut j: usize = 0;
    while j < n
        invariant
            j <= n,
            h == n / 2,
            m@.len() == h,
            s@.len() == h,
            r@.len() == j,
            forall|t: int| 0 <= t < j ==> r@[t] == join(m@, s@, n as int)[t],
        decreases n - j,
    {
        let v = if j < h { m[j] } else if j < 2 * h { s[j - h] } else { 0 };
        r.push(v);
        j = j + 1;
    }
    proof {
        assert(r@ =~= join(m@, s@, n as int));
    }
    r
}

fn lcg_steps(seed: u32, n: usize) -> (r: u32)
    ensures
        r == lcg_iter(seed, n as int),
{
    let mut s = seed;
    let mut j: usize = 0;
    while j < n
        invariant
            j <= n,
            lcg_iter(seed, n as int) == lcg_iter(s, (n - j) as int),
        decreases n - j,
    {
        s = celt_lcg_rand(s);
        j = j + 1;
    }
    s
}

fn decode_leaf(
    rd: &mut RangeDecoder,
    cache: &PulseCache,
    nb: usize,
    band: usize,
    n: usize,
    b: i32,
    bparam: i32,
    has_lowband: bool,
    lm: i32,
    fill: i32,
    remaining: i32,
    seed: u32,
) -> (r: Partition)
    requires
        old(rd)@.wf(),
        old(rd)@.nbits_total + 128 <= BITS_LIMIT,
        tree_ok(cache, nb as int, band as int, n as int, lm as int),
        -0x100_0000 <= b <= 0x100_0000,
        -0x100_0000 <= remaining <= 0x100_0000,
        1 <= bparam <= 16,
    ensures
        final(rd)@.wf(),
        final(rd)@.storage == old(rd)@.storage,
        final(rd)@.nbits_total <= old(rd)@.nbits_total + 64,
        (final(rd)@, r.pulses@, r.thetas@, r.cm, r.remaining as int, r.seed) == leaf_spec(old(rd)@, cache_entry(cache,
            nb as int, lm as int, band as int), n as int, b as int, bparam as int, has_lowband, fill, remaining as int,
            seed),
        remaining - 256 <= r.remaining <= remaining,
        r.pulses@.len() == n,
{
    let ghost c = cache_entry(cache, nb as int, lm as int, band as int);
    proof {
        lemma_tree_facts(cache, nb as int, band as int, n as int, lm as int);
    }
    let (q, rem) = leaf_pulses(cache, nb, band, lm, b, remaining);
    proof {
        assert(c[q as int] <= 255);
    }
    if q != 0 {
        proof {
            lemma_get_pulses_mono(1, q as int);
            lemma_get_pulses_mono(q as int, 40);
            vstd::arithmetic::power2::lemma2_to64();
            assert(40int / 8 == 5 && 40int % 8 == 0);
            assert(vstd::arithmetic::power2::pow2(4) == 16);
            assert(((40int / 8 - 1) as nat) == 4nat);
            assert((8 + 40int % 8) * vstd::arithmetic::power2::pow2(4) == 128);
            assert(spec_get_pulses(40) == 128);
            assert(spec_get_pulses(1) == 1);
            assert(pvq_v(n as nat, spec_get_pulses(q as int) as nat) < 0x1_0000_0000);
        }
        let k = get_pulses(q);
        let mut y: Vec<i32> = vec![0i32; n];
        decode_pulses(&mut y, n, k as usize, rd);
        let ghost idx = spec_dec_uint(old(rd)@, pvq_v(n as nat, k as nat) as int).1;
        proof {
            let cw = cw_decode(n as nat, k as nat, idx);
            assert forall|j: int| 0 <= j < n implies y@[j] == cw[j] as i32 by {
                assert(crate::opus::celt::cwrs::ints_prefix(y@, n as int)[j] == y@[j] as int);
            }
            assert(y@ =~= Seq::new(n as nat, |j: int| cw[j] as i32));
        }
        let cm = collapse_mask(y.as_slice(), n, bparam as usize);
        Partition { pulses: y, thetas: Vec::new(), cm, remaining: rem, seed }
    } else {
        let p = pow2_i32(bparam as u32);
        let mask = p - 1;
        let f = fill & mask;
        let zeros: Vec<i32> = vec![0i32; n];
        proof {
            assert(zeros@ =~= Seq::new(n as nat, |j: int| 0i32));
        }
        if f == 0 {
            Partition { pulses: zeros, thetas: Vec::new(), cm: 0, remaining: rem, seed }
        } else {
            let s2 = lcg_steps(seed, n);
            let cm: u32 = if !has_lowband { mask as u32 } else { f as u32 };
            Partition { pulses: zeros, thetas: Vec::new(), cm, remaining: rem, seed: s2 }
        }
    }
}

/// The bounds a call of `decode_partition` keeps.
#[verifier::opaque]
pub open spec fn partition_pre(s: RangeState, cache: &PulseCache, nb: int, band: int, log_n: int, n: int, b: int,
    bparam: int, lm: int, remaining: int) -> bool {
    &&& s.wf()
    &&& s.nbits_total + 128 * n + 128 <= BITS_LIMIT
    &&& tree_ok(cache, nb, band, n, lm)
    &&& 0 <= log_n <= 1024
    &&& -0x80_0000 + 3000 * n <= b <= 0x80_0000 - 3000 * n
    &&& -0x100_0000 + 2000 * n <= remaining <= 0x100_0000 - 2000 * n
    &&& 1 <= bparam <= 16
}

pub(crate) proof fn lemma_split_bits_bounds(b: int, delta: int, itheta: int, b0: int, lm: int, n: int)
    ensures
        0 <= split_bits_spec(b, delta, itheta, b0, lm, n).0,
        b >= 0 ==> split_bits_spec(b, delta, itheta, b0, lm, n).0 <= b,
        b < 0 ==> split_bits_spec(b, delta, itheta, b0, lm, n).0 == 0,
        split_bits_spec(b, delta, itheta, b0, lm, n).1 == b - split_bits_spec(b, delta, itheta, b0, lm, n).0,
{
    reveal(split_bits_spec);
}

/// A half of a band that keeps the bounds of `decode_partition` gives its
/// halves calls within them too.
proof fn lemma_half_pre(
    s: RangeState,
    cache: &PulseCache,
    nb: int,
    band: int,
    log_n: int,
    n: int,
    lm: int,
    bp: int,
    bb: int,
    rem: int,
)
    requires
        s.wf(),
        s.nbits_total + 128 * (n / 2) + 128 <= BITS_LIMIT,
        3 <= n <= 256,
        0 <= lm <= 3,
        tree_ok(cache, nb, band, n, lm),
        0 <= log_n <= 1024,
        -0x80_0000 + 3000 * (n / 2) <= bb <= 0x80_0000 - 3000 * (n / 2),
        -0x100_0000 + 2000 * (n / 2) <= rem <= 0x100_0000 - 2000 * (n / 2),
        1 <= bp <= 16,
    ensures
        partition_pre(s, cache, nb, band, log_n, n / 2, bb, bp, lm - 1, rem),
{
    reveal(partition_pre);
    lemma_tree_facts(cache, nb, band, n, lm);
}

proof fn lemma_split_unfold(
    s1: RangeState,
    th: ThetaSplit,
    cache: &PulseCache,
    nb: int,
    band: int,
    log_n: int,
    n: int,
    bparam: int,
    has_lowband: bool,
    lm: int,
    remaining: int,
    seed: u32,
    mid_first: bool,
    a: (RangeState, Seq<i32>, Seq<i32>, u32, int, u32),
    z: (RangeState, Seq<i32>, Seq<i32>, u32, int, u32),
)
    requires
        n > 2,
        a == partition_spec(s1, cache, nb, band, log_n, n / 2, first_bits(th, bparam, lm, n, mid_first),
            (bparam + 1) / 2, has_lowband, lm - 1, half_fill(th, bparam, mid_first), remaining - th.qalloc, seed),
        z == partition_spec(a.0, cache, nb, band, log_n, n / 2, second_bits(th, bparam, lm, n, remaining, a.4,
            mid_first), (bparam + 1) / 2, has_lowband, lm - 1, half_fill(th, bparam, !mid_first), a.4, a.5),
    ensures
        split_spec(s1, th, cache, nb, band, log_n, n, bparam, has_lowband, lm, remaining, seed, mid_first)
            == combine(th, a, z, n, bparam, mid_first),
{
    reveal_with_fuel(split_spec, 1);
    reveal_with_fuel(partition_spec, 1);
}

/// Reads the halves of a split band, the mid half first.
#[verifier::rlimit(100)]
fn decode_split_mid_first(
    rd: &mut RangeDecoder,
    th: ThetaSplit,
    cache: &PulseCache,
    nb: usize,
    band: usize,
    log_n: i32,
    n: usize,
    bparam: i32,
    has_lowband: bool,
    lm: i32,
    remaining: i32,
    seed: u32,
    b: Ghost<int>,
    nbits0: Ghost<int>,
) -> (r: Partition)
    requires
        old(rd)@.wf(),
        old(rd)@.nbits_total <= nbits0@ + 64,
        nbits0@ + 128 * n + 128 <= BITS_LIMIT,
        3 <= n <= 256,
        0 <= lm <= 3,
        tree_ok(cache, nb as int, band as int, n as int, lm as int),
        0 <= log_n <= 1024,
        -0x80_0000 + 3000 * n <= b@ <= 0x80_0000 - 3000 * n,
        th.b == b@ - th.qalloc,
        -72 <= th.qalloc <= 584,
        0 <= th.itheta <= 16384,
        -40000 <= th.delta <= 40000,
        -0x100_0000 + 2000 * n <= remaining <= 0x100_0000 - 2000 * n,
        1 <= bparam <= 16,
        split_bits_spec(th.b as int, th.delta as int, th.itheta as int, bparam as int, lm - 1, (n / 2) as int).0
            >= split_bits_spec(th.b as int, th.delta as int, th.itheta as int, bparam as int, lm - 1, (n / 2) as int).1,
    ensures
        final(rd)@.wf(),
        final(rd)@.storage == old(rd)@.storage,
        final(rd)@.nbits_total <= nbits0@ + 128 * n - 64,
        (final(rd)@, r.pulses@, r.thetas@, r.cm, r.remaining as int, r.seed) == split_spec(old(rd)@, th, cache,
            nb as int, band as int, log_n as int, n as int, bparam as int, has_lowband, lm as int, remaining as int, seed,
            true),
        remaining - (2000 * n - 600) <= r.remaining <= remaining + (2000 * n - 600),
        r.pulses@.len() == n,
    decreases n, 0int,
{
    let n2 = n / 2;
    let lm2 = lm - 1;
    let b0 = bparam;
    let bp2 = (bparam + 1) / 2;
    let (mbits, sbits) = split_bits(th.b, th.delta, th.itheta, b0, lm2, n2);
    let rem1 = remaining - th.qalloc;
    let fside = th.fill >> (bp2 as u32);
    let sh = (b0 / 2) as u32;
    proof {
        lemma_split_bits_bounds(th.b as int, th.delta as int, th.itheta as int, b0 as int, lm2 as int, n2 as int);
        assert(2 * n2 <= n <= 2 * n2 + 1);
        lemma_half_pre(rd@, cache, nb as int, band as int, log_n as int, n as int, lm as int, bp2 as int, mbits as int,
            rem1 as int);
    }
    let mut first: Vec<i32> = Vec::new();
    first.push(th.itheta);
    proof {
        assert(first@ =~= seq![th.itheta]);
    }
    let ghost s1 = rd@;
    let pm = decode_partition(rd, cache, nb, band, log_n, n2, mbits, bp2, has_lowband, lm2, th.fill, rem1, seed);
    let ghost s2 = rd@;
    let sb2 = rebalance(mbits, rem1 - pm.remaining, sbits, th.itheta != 0);
    proof {
        lemma_half_pre(rd@, cache, nb as int, band as int, log_n as int, n as int, lm as int, bp2 as int, sb2 as int,
            pm.remaining as int);
    }
    let ps = decode_partition(rd, cache, nb, band, log_n, n2, sb2, bp2, has_lowband, lm2, fside, pm.remaining, pm.seed);
    let pulses = join_halves(&pm.pulses, &ps.pulses, n);
    let thetas = concat(concat(first, &pm.thetas), &ps.thetas);
    let r = Partition { pulses, thetas, cm: pm.cm | (ps.cm << sh), remaining: ps.remaining, seed: ps.seed };
    proof {
        let a = (s2, pm.pulses@, pm.thetas@, pm.cm, pm.remaining as int, pm.seed);
        let z = (rd@, ps.pulses@, ps.thetas@, ps.cm, ps.remaining as int, ps.seed);
        assert(combine(th, a, z, n as int, bparam as int, true) == (rd@, r.pulses@, r.thetas@, r.cm,
            r.remaining as int, r.seed)) by {
            reveal(combine);
            assert(r.thetas@ =~= seq![th.itheta] + pm.thetas@ + ps.thetas@);
        }
        assert(r.thetas@ =~= seq![th.itheta] + pm.thetas@ + ps.thetas@);
        assert(first_bits(th, bparam as int, lm as int, n as int, true) == mbits);
        assert(second_bits(th, bparam as int, lm as int, n as int, remaining as int, pm.remaining as int, true) == sb2);
        assert(s1 == old(rd)@);
        assert(half_fill(th, bparam as int, true) == th.fill);
        assert(half_fill(th, bparam as int, false) == fside);
        lemma_split_unfold(old(rd)@, th, cache, nb as int, band as int, log_n as int, n as int, bparam as int,
            has_lowband, lm as int, remaining as int, seed, true, a, z);
    }
    r
}

/// Reads the halves of a split band, the side half first.
#[verifier::rlimit(100)]
fn decode_split_side_first(
    rd: &mut RangeDecoder,
    th: ThetaSplit,
    cache: &PulseCache,
    nb: usize,
    band: usize,
    log_n: i32,
    n: usize,
    bparam: i32,
    has_lowband: bool,
    lm: i32,
    remaining: i32,
    seed: u32,
    b: Ghost<int>,
    nbits0: Ghost<int>,
) -> (r: Partition)
    requires
        old(rd)@.wf(),
        old(rd)@.nbits_total <= nbits0@ + 64,
        nbits0@ + 128 * n + 128 <= BITS_LIMIT,
        3 <= n <= 256,
        0 <= lm <= 3,
        tree_ok(cache, nb as int, band as int, n as int, lm as int),
        0 <= log_n <= 1024,
        -0x80_0000 + 3000 * n <= b@ <= 0x80_0000 - 3000 * n,
        th.b == b@ - th.qalloc,
        -72 <= th.qalloc <= 584,
        0 <= th.itheta <= 16384,
        -40000 <= th.delta <= 40000,
        -0x100_0000 + 2000 * n <= remaining <= 0x100_0000 - 2000 * n,
        1 <= bparam <= 16,
        split_bits_spec(th.b as int, th.delta as int, th.itheta as int, bparam as int, lm - 1, (n / 2) as int).0
            < split_bits_spec(th.b as int, th.delta as int, th.itheta as int, bparam as int, lm - 1, (n / 2) as int).1,
    ensures
        final(rd)@.wf(),
        final(rd)@.storage == old(rd)@.storage,
        final(rd)@.nbits_total <= nbits0@ + 128 * n - 64,
        (final(rd)@, r.pulses@, r.thetas@, r.cm, r.remaining as int, r.seed) == split_spec(old(rd)@, th, cache,
            nb as int, band as int, log_n as int, n as int, bparam as int, has_lowband, lm as int, remaining as int, seed,
            false),
        remaining - (2000 * n - 600) <= r.remaining <= remaining + (2000 * n - 600),
        r.pulses@.len() == n,
    decreases n, 0int,
{
    let n2 = n / 2;
    let lm2 = lm - 1;
    let b0 = bparam;
    let bp2 = (bparam + 1) / 2;
    let (mbits, sbits) = split_bits(th.b, th.delta, th.itheta, b0, lm2, n2);
    let rem1 = remaining - th.qalloc;
    let fside = th.fill >> (bp2 as u32);
    let sh = (b0 / 2) as u32;
    proof {
        lemma_split_bits_bounds(th.b as int, th.delta as int, th.itheta as int, b0 as int, lm2 as int, n2 as int);
        assert(2 * n2 <= n <= 2 * n2 + 1);
        lemma_half_pre(rd@, cache, nb as int, band as int, log_n as int, n as int, lm as int, bp2 as int, sbits as int,
            rem1 as int);
    }
    let mut first: Vec<i32> = Vec::new();
    first.push(th.itheta);
    proof {
        assert(first@ =~= seq![th.itheta]);
    }
    let ghost s1 = rd@;
    let ps = decode_partition(rd, cache, nb, band, log_n, n2, sbits, bp2, has_lowband, lm2, fside, rem1, seed);
    let ghost s2 = rd@;
    let mb2 = rebalance(sbits, rem1 - ps.remaining, mbits, th.itheta != 16384);
    proof {
        lemma_half_pre(rd@, cache, nb as int, band as int, log_n as int, n as int, lm as int, bp2 as int, mb2 as int,
            ps.remaining as int);
    }
    let pm = decode_partition(rd, cache, nb, band, log_n, n2, mb2, bp2, has_lowband, lm2, th.fill, ps.remaining, ps.seed);
    let pulses = join_halves(&pm.pulses, &ps.pulses, n);
    let thetas = concat(concat(first, &ps.thetas), &pm.thetas);
    let r = Partition { pulses, thetas, cm: (ps.cm << sh) | pm.cm, remaining: pm.remaining, seed: pm.seed };
    proof {
        let a = (s2, ps.pulses@, ps.thetas@, ps.cm, ps.remaining as int, ps.seed);
        let z = (rd@, pm.pulses@, pm.thetas@, pm.cm, pm.remaining as int, pm.seed);
        assert(combine(th, a, z, n as int, bparam as int, false) == (rd@, r.pulses@, r.thetas@, r.cm,
            r.remaining as int, r.seed)) by {
            reveal(combine);
            assert(r.thetas@ =~= seq![th.itheta] + ps.thetas@ + pm.thetas@);
        }
        assert(r.thetas@ =~= seq![th.itheta] + ps.thetas@ + pm.thetas@);
        assert(first_bits(th, bparam as int, lm as int, n as int, false) == sbits);
        assert(second_bits(th, bparam as int, lm as int, n as int, remaining as int, ps.remaining as int, false) == mb2);
        assert(s1 == old(rd)@);
        assert(half_fill(th, bparam as int, true) == th.fill);
        assert(half_fill(th, bparam as int, false) == fside);
        lemma_split_unfold(old(rd)@, th, cache, nb as int, band as int, log_n as int, n as int, bparam as int,
            has_lowband, lm as int, remaining as int, seed, false, a, z);
    }
    r
}

/// Decodes the shape of a band of `n` samples with `b` eighth-bits in
/// `bparam` blocks at resolution `lm` (band `band` of the cache, log2 width
/// `log_n`), with `fill` its fold mask and `remaining` the frame's bits
/// left (see `partition_spec`).
pub fn decode_partition(
    rd: &mut RangeDecoder,
    cache: &PulseCache,
    nb: usize,
    band: usize,
    log_n: i32,
    n: usize,
    b: i32,
    bparam: i32,
    has_lowband: bool,
    lm: i32,
    fill: i32,
    remaining: i32,
    seed: u32,
) -> (r: Partition)
    requires
        partition_pre(old(rd)@, cache, nb as int, band as int, log_n as int, n as int, b as int, bparam as int,
            lm as int, remaining as int),
    ensures
        final(rd)@.wf(),
        final(rd)@.storage == old(rd)@.storage,
        final(rd)@.nbits_total <= old(rd)@.nbits_total + 128 * n - 64,
        (final(rd)@, r.pulses@, r.thetas@, r.cm, r.remaining as int, r.seed) == partition_spec(old(rd)@, cache,
            nb as int, band as int, log_n as int, n as int, b as int, bparam as int, has_lowband, lm as int, fill,
            remaining as int, seed),
        remaining - (2000 * n - 600) <= r.remaining <= remaining + (2000 * n - 600),
        r.pulses@.len() == n,
    decreases n, 1int,
{
    proof {
        reveal(partition_pre);
        lemma_tree_facts(cache, nb as int, band as int, n as int, lm as int);
    }
    let split = should_split(cache, nb, band, lm, b, n);
    if !split {
        proof {
            assert(partition_spec(old(rd)@, cache, nb as int, band as int, log_n as int, n as int, b as int,
                bparam as int, has_lowband, lm as int, fill, remaining as int, seed) == leaf_spec(old(rd)@, cache_entry(
                cache, nb as int, lm as int, band as int), n as int, b as int, bparam as int, has_lowband, fill,
                remaining as int, seed)) by {
                reveal_with_fuel(partition_spec, 1);
            }
        }
        return decode_leaf(rd, cache, nb, band, n, b, bparam, has_lowband, lm, fill, remaining, seed);
    }
    let ghost nbits0 = rd@.nbits_total;
    let fill1 = if bparam == 1 { (fill & 1) | (fill << 1) } else { fill };
    let th = compute_theta(rd, n / 2, b, (bparam + 1) / 2, bparam, lm - 1, false, fill1, log_n, false, remaining);
    let (mbits, sbits) = split_bits(th.b, th.delta, th.itheta, bparam, lm - 1, n / 2);
    let ghost s1 = rd@;
    proof {
        let fill1g = if bparam == 1 { (fill & 1i32) | (fill << 1u32) } else { fill };
        assert(fill1g == fill1);
        assert(partition_spec(old(rd)@, cache, nb as int, band as int, log_n as int, n as int, b as int,
            bparam as int, has_lowband, lm as int, fill, remaining as int, seed) == split_spec(s1, th, cache, nb as int,
            band as int, log_n as int, n as int, bparam as int, has_lowband, lm as int, remaining as int, seed,
            mbits >= sbits)) by {
            reveal_with_fuel(partition_spec, 1);
            reveal_with_fuel(split_spec, 1);
        }
    }
    if mbits >= sbits {
        decode_split_mid_first(rd, th, cache, nb, band, log_n, n, bparam, has_lowband, lm, remaining, seed,
            Ghost(b as int), Ghost(nbits0))
    } else {
        decode_split_side_first(rd, th, cache, nb, band, log_n, n, bparam, has_lowband, lm, remaining, seed,
            Ghost(b as int), Ghost(nbits0))
    }
}

} // verus!
