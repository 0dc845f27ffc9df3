//! The FLAC prediction filters, which rebuild samples from residuals in
//! place, in 64-bit two's-complement arithmetic.
use vstd::prelude::*;
use vstd::arithmetic::div_mod::*;
use vstd::wrapping::i64_specs::{signed_crop, wrapping_shr};

verus! {

/// `x` modulo 2^64, as a signed 64-bit value.
pub open spec fn crop(x: int) -> i64 {
    signed_crop(x)
}

pub proof fn lemma_crop_small(x: int)
    requires
        i64::MIN <= x <= i64::MAX,
    ensures
        crop(x) == x,
{
    let r = 0x1_0000_0000_0000_0000int;
    if x >= 0 {
        lemma_small_mod(x as nat, r as nat);
    } else {
        lemma_fundamental_div_mod_converse(x, r, -1, x + r);
    }
}

pub proof fn lemma_crop_congr(x: int)
    ensures
        (crop(x) - x) % 0x1_0000_0000_0000_0000int == 0,
        i64::MIN <= crop(x) <= i64::MAX,
{
    let r = 0x1_0000_0000_0000_0000int;
    lemma_fundamental_div_mod(x, r);
    lemma_mod_bound(x, r);
    let m = x % r;
    if m > i64::MAX {
        assert(crop(x) == m - r);
        lemma_mod_multiples_vanish(-(x / r) - 1, 0, r);
        assert(crop(x) - x == r * (-(x / r) - 1));
    } else {
        assert(crop(x) == m);
        assert(crop(x) - x == r * (-(x / r)));
    }
    lemma_mod_multiples_basic(-(x / r), r);
    lemma_mod_multiples_basic(-(x / r) - 1, r);
    vstd::arithmetic::mul::lemma_mul_is_commutative(r, -(x / r));
    vstd::arithmetic::mul::lemma_mul_is_commutative(r, -(x / r) - 1);
}

/// Values equal modulo 2^64 crop alike.
pub proof fn lemma_crop_eq(x: int, y: int)
    requires
        (x - y) % 0x1_0000_0000_0000_0000int == 0,
    ensures
        crop(x) == crop(y),
{
    let r = 0x1_0000_0000_0000_0000int;
    lemma_mod_equivalence(x, y, r);
}

/// Cropping a part of a sum does not change the cropped sum.
pub proof fn lemma_crop_add(a: int, b: int)
    ensures
        crop(crop(a) + crop(b)) == crop(a + b),
{
    let r = 0x1_0000_0000_0000_0000int;
    lemma_crop_congr(a);
    lemma_crop_congr(b);
    let ka = (crop(a) - a) / r;
    let kb = (crop(b) - b) / r;
    lemma_fundamental_div_mod(crop(a) - a, r);
    lemma_fundamental_div_mod(crop(b) - b, r);
    assert((crop(a) + crop(b)) - (a + b) == r * (ka + kb)) by (nonlinear_arith)
        requires crop(a) - a == r * ka, crop(b) - b == r * kb;
    lemma_mod_multiples_basic(ka + kb, r);
    vstd::arithmetic::mul::lemma_mul_is_commutative(r, ka + kb);
    lemma_crop_eq(crop(a) + crop(b), a + b);
}

pub proof fn lemma_crop_sub(a: int, b: int)
    ensures
        crop(crop(a) - crop(b)) == crop(a - b),
{
    lemma_crop_add(a, -b);
    lemma_crop_neg(b);
    lemma_crop_congr(b);
    lemma_crop_congr(-b);
    lemma_crop_add(a, -crop(b));
    lemma_crop_small(crop(a) as int);
    lemma_crop_small(crop(b) as int);
    lemma_crop_add(crop(a) as int, -crop(b));
}

proof fn lemma_crop_neg(b: int)
    ensures
        crop(-crop(b)) == crop(-b),
{
    let r = 0x1_0000_0000_0000_0000int;
    lemma_crop_congr(b);
    let k = (crop(b) - b) / r;
    lemma_fundamental_div_mod(crop(b) - b, r);
    assert(-crop(b) - (-b) == r * (-k)) by (nonlinear_arith)
        requires crop(b) - b == r * k;
    lemma_mod_multiples_basic(-k, r);
    vstd::arithmetic::mul::lemma_mul_is_commutative(r, -k);
    lemma_crop_eq(-crop(b), -b);
}

pub proof fn lemma_crop_mul(a: int, c: int)
    ensures
        crop(crop(a) * c) == crop(a * c),
{
    let r = 0x1_0000_0000_0000_0000int;
    lemma_crop_congr(a);
    let k = (crop(a) - a) / r;
    lemma_fundamental_div_mod(crop(a) - a, r);
    assert(crop(a) * c - a * c == r * (k * c)) by (nonlinear_arith)
        requires crop(a) - a == r * k;
    lemma_mod_multiples_basic(k * c, r);
    vstd::arithmetic::mul::lemma_mul_is_commutative(r, k * c);
    lemma_crop_eq(crop(a) * c, a * c);
}

/// `x + y` modulo 2^64.
pub fn wadd(x: i64, y: i64) -> (r: i64)
    ensures
        r == crop(x + y),
{
    proof {
        let s = x + y;
        if s > i64::MAX {
            lemma_crop_small(s - 0x1_0000_0000_0000_0000int);
            lemma_crop_eq(s - 0x1_0000_0000_0000_0000int, s);
        } else if s < i64::MIN {
            lemma_crop_small(s + 0x1_0000_0000_0000_0000int);
            lemma_crop_eq(s + 0x1_0000_0000_0000_0000int, s);
        } else {
            lemma_crop_small(s);
        }
    }
    x.wrapping_add(y)
}

/// `x - y` modulo 2^64.
pub fn wsub(x: i64, y: i64) -> (r: i64)
    ensures
        r == crop(x - y),
{
    proof {
        let s = x - y;
        if s > i64::MAX {
            lemma_crop_small(s - 0x1_0000_0000_0000_0000int);
            lemma_crop_eq(s - 0x1_0000_0000_0000_0000int, s);
        } else if s < i64::MIN {
            lemma_crop_small(s + 0x1_0000_0000_0000_0000int);
            lemma_crop_eq(s + 0x1_0000_0000_0000_0000int, s);
        } else {
            lemma_crop_small(s);
        }
    }
    x.wrapping_sub(y)
}

/// `x * y` modulo 2^64.
pub fn wmul(x: i64, y: i64) -> (r: i64)
    ensures
        r == crop(x * y),
{
    x.wrapping_mul(y)
}

/// The fixed predictor of order 1 to 4 at `i`, from the samples before it.
pub open spec fn fixed_pred(s: Seq<i64>, i: int, order: int) -> int {
    if order == 1 {
        s[i - 1] as int
    } else if order == 2 {
        2 * s[i - 1] - s[i - 2]
    } else if order == 3 {
        3 * s[i - 1] - 3 * s[i - 2] + s[i - 3]
    } else {
        4 * s[i - 1] - 6 * s[i - 2] + 4 * s[i - 3] - s[i - 4]
    }
}

/// What a fixed-predictor restore leaves at `i`, given the final samples
/// before it.
pub open spec fn fixed_at(res: Seq<i64>, out: Seq<i64>, order: int, i: int) -> i64 {
    if 1 <= order <= 4 && i >= order {
        crop(res[i] + fixed_pred(out, i, order))
    } else {
        res[i]
    }
}

/// The samples a fixed-predictor restore yields, first `n` of them.
pub open spec fn fixed_seq(res: Seq<i64>, order: int, n: nat) -> Seq<i64>
    decreases n,
{
    if n == 0 {
        Seq::empty()
    } else {
        let s = fixed_seq(res, order, (n - 1) as nat);
        s.push(fixed_at(res, s, order, n - 1))
    }
}

proof fn lemma_fixed_unique(res: Seq<i64>, t: Seq<i64>, order: int, n: nat)
    requires
        n <= t.len(),
        forall|i: int| 0 <= i < n ==> #[trigger] t[i] == fixed_at(res, t, order, i),
    ensures
        fixed_seq(res, order, n) == t.take(n as int),
    decreases n,
{
    if n > 0 {
        lemma_fixed_unique(res, t, order, (n - 1) as nat);
        let s = t.take(n - 1);
        assert(fixed_at(res, s, order, n - 1) == fixed_at(res, t, order, n - 1));
        assert(t.take(n as int) =~= s.push(t[n - 1]));
    }
}

fn fixed_step(buf: &[i64], i: usize, order: usize) -> (p: i64)
    requires
        1 <= order <= 4,
        order <= i < buf@.len(),
    ensures
        p == crop(fixed_pred(buf@, i as int, order as int)),
{
    let b1 = buf[i - 1];
    proof {
        lemma_crop_small(b1 as int);
    }
    if order == 1 {
        b1
    } else if order == 2 {
        let b2 = buf[i - 2];
        proof {
            lemma_crop_small(b2 as int);
            lemma_crop_mul(b1 as int, 2);
            lemma_crop_sub(b1 * 2, b2 as int);
        }
        wsub(wmul(b1, 2), b2)
    } else if order == 3 {
        let b2 = buf[i - 2];
        let b3 = buf[i - 3];
        proof {
            lemma_crop_small(b2 as int);
            lemma_crop_small(b3 as int);
            lemma_crop_mul(b1 as int, 3);
            lemma_crop_mul(b2 as int, 3);
            lemma_crop_sub(b1 * 3, b2 * 3);
            lemma_crop_add(b1 * 3 - b2 * 3, b3 as int);
        }
        wadd(wsub(wmul(b1, 3), wmul(b2, 3)), b3)
    } else {
        let b2 = buf[i - 2];
        let b3 = buf[i - 3];
        let b4 = buf[i - 4];
        proof {
            lemma_crop_small(b2 as int);
            lemma_crop_small(b3 as int);
            lemma_crop_small(b4 as int);
            lemma_crop_mul(b1 as int, 4);
            lemma_crop_mul(b2 as int, 6);
            lemma_crop_mul(b3 as int, 4);
            lemma_crop_sub(b1 * 4, b2 * 6);
            lemma_crop_add(b1 * 4 - b2 * 6, b3 * 4);
            lemma_crop_sub(b1 * 4 - b2 * 6 + b3 * 4, b4 as int);
        }
        wsub(wadd(wsub(wmul(b1, 4), wmul(b2, 6)), wmul(b3, 4)), b4)
    }
}

/// Rebuilds the samples after the first `order` from residuals with the
/// fixed polynomial predictor of that order (orders above 4 leave the
/// buffer as it is).
pub fn fixed_restore(buf: &mut [i64], order: usize)
    ensures
        final(buf)@.len() == old(buf)@.len(),
        final(buf)@ == fixed_seq(old(buf)@, order as int, old(buf)@.len()),
{
    let ghost res = buf@;
    let n = buf.len();
    if order == 0 || order > 4 {
        proof {
            lemma_fixed_unique(res, res, order as int, n as nat);
            assert(res.take(n as int) =~= res);
        }
        return;
    }
    let mut i = order;
    if i > n {
        i = n;
    }
    while i < n
        invariant
            1 <= order <= 4,
            buf@.len() == n == res.len(),
            i <= n,
            order <= i || i == n,
            forall|j: int| i <= j < n ==> buf@[j] == res[j],
            forall|j: int| 0 <= j < i ==> #[trigger] buf@[j] == fixed_at(res, buf@, order as int, j),
        decreases n - i,
    {
        let p = fixed_step(buf, i, order);
        let ghost before = buf@;
        proof {
            lemma_crop_small(buf@[i as int] as int);
            lemma_crop_add(buf@[i as int] as int, fixed_pred(before, i as int, order as int));
        }
        let v = wadd(buf[i], p);
        buf[i] = v;
        proof {
            assert forall|j: int| 0 <= j < i + 1 implies #[trigger] buf@[j] == fixed_at(res, buf@, order as int, j) by {
                if j < i {
                    assert(fixed_at(res, buf@, order as int, j) == fixed_at(res, before, order as int, j));
                }
            }
        }
        i = i + 1;
    }
    proof {
        lemma_fixed_unique(res, buf@, order as int, n as nat);
        assert(buf@.take(n as int) =~= buf@);
    }
}

/// The linear prediction sum at `i` over the first `k` coefficients.
pub open spec fn lpc_sum(c: Seq<i64>, s: Seq<i64>, i: int, k: nat) -> int
    decreases k,
{
    if k == 0 {
        0
    } else {
        lpc_sum(c, s, i, (k - 1) as nat) + c[k - 1] * s[i - k]
    }
}

/// What a linear-prediction restore leaves at `i`, given the final samples
/// before it.
pub open spec fn lpc_at(res: Seq<i64>, out: Seq<i64>, c: Seq<i64>, shift: i32, order: int, i: int) -> i64 {
    if i >= order {
        crop(res[i] + wrapping_shr(crop(lpc_sum(c, out, i, order as nat)), shift as u32))
    } else {
        res[i]
    }
}

/// The samples a linear-prediction restore yields, first `n` of them.
pub open spec fn lpc_seq(res: Seq<i64>, c: Seq<i64>, shift: i32, order: int, n: nat) -> Seq<i64>
    decreases n,
{
    if n == 0 {
        Seq::empty()
    } else {
        let s = lpc_seq(res, c, shift, order, (n - 1) as nat);
        s.push(lpc_at(res, s, c, shift, order, n - 1))
    }
}

proof fn lemma_lpc_unique(res: Seq<i64>, t: Seq<i64>, c: Seq<i64>, shift: i32, order: int, n: nat)
    requires
        n <= t.len(),
        order >= 0,
        forall|i: int| 0 <= i < n ==> #[trigger] t[i] == lpc_at(res, t, c, shift, order, i),
    ensures
        lpc_seq(res, c, shift, order, n) == t.take(n as int),
    decreases n,
{
    if n > 0 {
        lemma_lpc_unique(res, t, c, shift, order, (n - 1) as nat);
        let s = t.take(n - 1);
        if n - 1 >= order {
            lemma_lpc_sum_prefix(c, s, t, n - 1, order as nat);
        }
        assert(lpc_at(res, s, c, shift, order, n - 1) == lpc_at(res, t, c, shift, order, n - 1));
        assert(t.take(n as int) =~= s.push(t[n - 1]));
    }
}

/// Rebuilds the samples after the first `order` from residuals with the
/// linear predictor `coefs`, its sum shifted right by `shift`.
pub fn lpc_restore(buf: &mut [i64], coefs: &[i64], shift: i32, order: usize)
    requires
        order <= coefs@.len(),
    ensures
        final(buf)@.len() == old(buf)@.len(),
        final(buf)@ == lpc_seq(old(buf)@, coefs@, shift, order as int, old(buf)@.len()),
{
    let ghost res = buf@;
    let n = buf.len();
    let mut i = order;
    if i > n {
        i = n;
    }
    while i < n
        invariant
            order <= coefs@.len(),
            buf@.len() == n == res.len(),
            i <= n,
            order <= i || i == n,
            forall|j: int| i <= j < n ==> buf@[j] == res[j],
            forall|j: int| 0 <= j < i ==> #[trigger] buf@[j] == lpc_at(res, buf@, coefs@, shift, order as int, j),
        decreases n - i,
    {
        let mut pred: i64 = 0;
        let mut j: usize = 0;
        proof {
            lemma_crop_small(0);
        }
        while j < order
            invariant
                order <= coefs@.len(),
                order <= i < n == buf@.len(),
                j <= order,
                pred == crop(lpc_sum(coefs@, buf@, i as int, j as nat)),
            decreases order - j,
        {
            let t = wmul(coefs[j], buf[i - 1 - j]);
            proof {
                lemma_crop_small(pred as int);
                lemma_crop_small(t as int);
                lemma_crop_add(lpc_sum(coefs@, buf@, i as int, j as nat), coefs@[j as int] * buf@[i - 1 - j]);
                assert(i - (j + 1) as nat == i - 1 - j);
            }
            pred = wadd(pred, t);
            j = j + 1;
        }
        let ghost before = buf@;
        let v = wadd(buf[i], pred.wrapping_shr(shift as u32));
        buf[i] = v;
        proof {
            assert(lpc_sum(coefs@, buf@, i as int, order as nat) == lpc_sum(coefs@, before, i as int, order as nat)) by {
                lemma_lpc_sum_prefix(coefs@, before, buf@, i as int, order as nat);
            }
            assert forall|k: int| 0 <= k < i + 1 implies #[trigger] buf@[k] == lpc_at(res, buf@, coefs@, shift, order as int, k) by {
                if k < i {
                    if k >= order {
                        lemma_lpc_sum_prefix(coefs@, before, buf@, k, order as nat);
                    }
                }
            }
        }
        i = i + 1;
    }
    proof {
        lemma_lpc_unique(res, buf@, coefs@, shift, order as int, n as nat);
        assert(buf@.take(n as int) =~= buf@);
    }
}

/// The prediction at `i` reads only samples before `i`.
proof fn lemma_lpc_sum_prefix(c: Seq<i64>, s: Seq<i64>, t: Seq<i64>, i: int, k: nat)
    requires
        k <= i,
        forall|j: int| 0 <= j < i ==> s[j] == t[j],
    ensures
        lpc_sum(c, s, i, k) == lpc_sum(c, t, i, k),
    decreases k,
{
    if k > 0 {
        lemma_lpc_sum_prefix(c, s, t, i, (k - 1) as nat);
    }
}

pub proof fn lemma_fixed_seq_len(res: Seq<i64>, order: int, n: nat)
    ensures
        fixed_seq(res, order, n).len() == n,
    decreases n,
{
    if n > 0 {
        lemma_fixed_seq_len(res, order, (n - 1) as nat);
    }
}

pub proof fn lemma_lpc_seq_len(res: Seq<i64>, c: Seq<i64>, shift: i32, order: int, n: nat)
    ensures
        lpc_seq(res, c, shift, order, n).len() == n,
    decreases n,
{
    if n > 0 {
        lemma_lpc_seq_len(res, c, shift, order, (n - 1) as nat);
    }
}

proof fn lemma_fixed_seq_prefix(res: Seq<i64>, order: int, m: nat, n: nat)
    requires
        m <= n,
    ensures
        fixed_seq(res, order, n).take(m as int) == fixed_seq(res, order, m),
    decreases n - m,
{
    lemma_fixed_seq_len(res, order, n);
    lemma_fixed_seq_len(res, order, m);
    if m < n {
        lemma_fixed_seq_prefix(res, order, m, (n - 1) as nat);
        lemma_fixed_seq_len(res, order, (n - 1) as nat);
        let s = fixed_seq(res, order, (n - 1) as nat);
        assert(fixed_seq(res, order, n).take(m as int) =~= s.take(m as int));
    } else {
        assert(fixed_seq(res, order, n).take(m as int) =~= fixed_seq(res, order, n));
    }
}

/// What `fixed_restore` leaves in a buffer that held the residuals `res`:
/// the first `order` samples (all of them for an order outside 1 to 4) are
/// kept, and every later sample is its residual plus the FLAC fixed
/// polynomial prediction from the restored samples before it, in wrapping
/// 64-bit arithmetic: `s[i-1]`, `2s[i-1] - s[i-2]`,
/// `3s[i-1] - 3s[i-2] + s[i-3]` or `4s[i-1] - 6s[i-2] + 4s[i-3] - s[i-4]`.
pub proof fn lemma_fixed_restore_law(res: Seq<i64>, order: int, i: int)
    requires
        0 <= i < res.len(),
    ensures
        fixed_seq(res, order, res.len()).len() == res.len(),
        ({
            let out = fixed_seq(res, order, res.len());
            &&& (i < order || order < 1 || order > 4) ==> out[i] == res[i]
            &&& (order == 1 && i >= 1) ==> out[i] == crop(res[i] + out[i - 1])
            &&& (order == 2 && i >= 2) ==> out[i] == crop(res[i] + 2 * out[i - 1] - out[i - 2])
            &&& (order == 3 && i >= 3) ==> out[i] == crop(res[i] + 3 * out[i - 1] - 3 * out[i - 2] + out[i - 3])
            &&& (order == 4 && i >= 4) ==> out[i] == crop(
                res[i] + 4 * out[i - 1] - 6 * out[i - 2] + 4 * out[i - 3] - out[i - 4],
            )
        }),
{
    let n = res.len();
    let out = fixed_seq(res, order, n);
    lemma_fixed_seq_len(res, order, n);
    lemma_fixed_seq_prefix(res, order, (i + 1) as nat, n);
    lemma_fixed_seq_prefix(res, order, i as nat, n);
    lemma_fixed_seq_len(res, order, i as nat);
    let s = fixed_seq(res, order, i as nat);
    assert(fixed_seq(res, order, (i + 1) as nat) == s.push(fixed_at(res, s, order, i)));
    assert(out[i] == fixed_seq(res, order, (i + 1) as nat)[i]);
    assert forall|j: int| 0 <= j < i implies s[j] == out[j] by {
        assert(out.take(i)[j] == out[j]);
    }
}

proof fn lemma_lpc_seq_prefix(res: Seq<i64>, c: Seq<i64>, shift: i32, order: int, m: nat, n: nat)
    requires
        m <= n,
    ensures
        lpc_seq(res, c, shift, order, n).take(m as int) == lpc_seq(res, c, shift, order, m),
    decreases n - m,
{
    lemma_lpc_seq_len(res, c, shift, order, n);
    lemma_lpc_seq_len(res, c, shift, order, m);
    if m < n {
        lemma_lpc_seq_prefix(res, c, shift, order, m, (n - 1) as nat);
        lemma_lpc_seq_len(res, c, shift, order, (n - 1) as nat);
        let s = lpc_seq(res, c, shift, order, (n - 1) as nat);
        assert(lpc_seq(res, c, shift, order, n).take(m as int) =~= s.take(m as int));
    } else {
        assert(lpc_seq(res, c, shift, order, n).take(m as int) =~= lpc_seq(res, c, shift, order, n));
    }
}

/// What `lpc_restore` leaves in a buffer that held the residuals `res`:
/// the first `order` samples are kept, and every later sample is its
/// residual plus the prediction `(c[0] s[i-1] + c[1] s[i-2] + ...) >> shift`
/// over the `order` restored samples before it, in wrapping 64-bit
/// arithmetic; the sum grows by `c[k] * s[i-1-k]` with each coefficient,
/// written out below for orders up to 3.
pub proof fn lemma_lpc_restore_law(res: Seq<i64>, c: Seq<i64>, shift: i32, order: int, i: int)
    requires
        0 <= i < res.len(),
        0 <= order,
    ensures
        lpc_seq(res, c, shift, order, res.len()).len() == res.len(),
        ({
            let out = lpc_seq(res, c, shift, order, res.len());
            &&& i < order ==> out[i] == res[i]
            &&& i >= order ==> out[i] == crop(res[i] + wrapping_shr(crop(lpc_sum(c, out, i, order as nat)), shift as u32))
            &&& lpc_sum(c, out, i, 0) == 0
            &&& forall|k: nat| k < order ==> #[trigger] lpc_sum(c, out, i, k + 1) == lpc_sum(c, out, i, k) + c[k as int]
                * out[i - 1 - k]
            &&& (order == 1 && i >= 1) ==> out[i] == crop(res[i] + wrapping_shr(crop(c[0] * out[i - 1]), shift as u32))
            &&& (order == 2 && i >= 2) ==> out[i] == crop(
                res[i] + wrapping_shr(crop(c[0] * out[i - 1] + c[1] * out[i - 2]), shift as u32),
            )
            &&& (order == 3 && i >= 3) ==> out[i] == crop(
                res[i] + wrapping_shr(crop(c[0] * out[i - 1] + c[1] * out[i - 2] + c[2] * out[i - 3]), shift as u32),
            )
        }),
{
    let n = res.len();
    let out = lpc_seq(res, c, shift, order, n);
    lemma_lpc_seq_len(res, c, shift, order, n);
    lemma_lpc_seq_prefix(res, c, shift, order, (i + 1) as nat, n);
    lemma_lpc_seq_prefix(res, c, shift, order, i as nat, n);
    lemma_lpc_seq_len(res, c, shift, order, i as nat);
    let s = lpc_seq(res, c, shift, order, i as nat);
    assert(lpc_seq(res, c, shift, order, (i + 1) as nat) == s.push(lpc_at(res, s, c, shift, order, i)));
    assert(out[i] == lpc_seq(res, c, shift, order, (i + 1) as nat)[i]);
    assert forall|j: int| 0 <= j < i implies s[j] == out[j] by {
        assert(out.take(i)[j] == out[j]);
    }
    if i >= order {
        lemma_lpc_sum_prefix(c, s, out, i, order as nat);
    }
    reveal_with_fuel(lpc_sum, 4);
    assert(lpc_sum(c, out, i, 1) == c[0] * out[i - 1]);
    assert(lpc_sum(c, out, i, 2) == c[0] * out[i - 1] + c[1] * out[i - 2]);
    assert(lpc_sum(c, out, i, 3) == c[0] * out[i - 1] + c[1] * out[i - 2] + c[2] * out[i - 3]);
}

} // verus!
