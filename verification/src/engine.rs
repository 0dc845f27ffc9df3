//! The player's decisions that need no audio or files: where the playlist
//! cursor moves, which tracks a favourites-only order keeps, seek targets,
//! and the clock the status line shows.
use vstd::prelude::*;

verus! {

/// What happens at the end of a track.
#[derive(Clone, Copy, Debug, PartialEq, Eq, Structural)]
pub enum Repeat {
    Off,
    One,
    All,
}

/// The word the command line uses for a repeat mode.
pub fn repeat_word(r: Repeat) -> (w: &'static str)
    ensures
        w@ == match r {
            Repeat::Off => "off"@,
            Repeat::One => "one"@,
            Repeat::All => "all"@,
        },
{
    match r {
        Repeat::Off => "off",
        Repeat::One => "one",
        Repeat::All => "all",
    }
}

/// The cursor after moving by `dir` over an order of `n` tracks.
pub open spec fn advanced(pos: int, n: int, repeat: Repeat, dir: int) -> int {
    if n == 0 || repeat == Repeat::One {
        pos
    } else {
        (pos + dir) % n
    }
}

/// Moves the cursor over an order of `n` tracks by `dir`, wrapping around;
/// it stays where it is when repeating one track or when there are none.
pub fn advance(order_pos: &mut usize, n: usize, repeat: Repeat, dir: i64)
    ensures
        *final(order_pos) == advanced(*old(order_pos) as int, n as int, repeat, dir as int),
{
    if n == 0 {
        return;
    }
    match repeat {
        Repeat::One => {},
        _ => {
            let nn = n as u128;
            let p = *order_pos as u128 % nn;
            let r: u128 = if dir >= 0 {
                (p + dir as u128 % nn) % nn
            } else {
                let d = (-(dir as i128)) as u128 % nn;
                (p + nn - d) % nn
            };
            proof {
                let o = *old(order_pos) as int;
                let k = n as int;
                vstd::arithmetic::div_mod::lemma_mod_bound(o, k);
                if dir >= 0 {
                    vstd::arithmetic::div_mod::lemma_mod_bound(dir as int, k);
                    vstd::arithmetic::div_mod::lemma_add_mod_noop(o, dir as int, k);
                } else {
                    let dd = -(dir as int);
                    vstd::arithmetic::div_mod::lemma_mod_bound(dd, k);
                    vstd::arithmetic::div_mod::lemma_sub_mod_noop(o, dd, k);
                    vstd::arithmetic::div_mod::lemma_mod_add_multiples_vanish(o % k - dd % k, k);
                    assert(o % k - dd % k + k == o % k + k - dd % k);
                }
            }
            *order_pos = r as usize;
        },
    }
}

/// Whether `x` occurs in `order`.
pub open spec fn occurs(order: Seq<usize>, x: usize) -> bool {
    exists|i: int| 0 <= i < order.len() && order[i] == x
}

/// The first position of `x` in `order`, or 0 where it does not occur.
pub fn position_of(order: &Vec<usize>, x: usize) -> (p: usize)
    ensures
        occurs(order@, x) ==> p < order@.len() && order@[p as int] == x
            && forall|j: int| 0 <= j < p ==> order@[j] != x,
        !occurs(order@, x) ==> p == 0,
{
    let mut i: usize = 0;
    while i < order.len()
        invariant
            i <= order@.len(),
            forall|j: int| 0 <= j < i ==> order@[j] != x,
        decreases order@.len() - i,
    {
        if order[i] == x {
            return i;
        }
        i = i + 1;
    }
    0
}

/// The playlist order `0 .. n`.
pub fn natural_order(n: usize) -> (r: Vec<usize>)
    ensures
        r@ == Seq::new(n as nat, |i: int| i as usize),
{
    let mut v: Vec<usize> = Vec::new();
    let mut i: usize = 0;
    while i < n
        invariant
            i <= n,
            v@ =~= Seq::new(i as nat, |k: int| k as usize),
        decreases n - i,
    {
        v.push(i);
        i = i + 1;
    }
    v
}

/// The favourites of `base`, in its order.
pub open spec fn favs_of(base: Seq<usize>, is_fav: Seq<bool>) -> Seq<usize> {
    base.filter(fav_pred(is_fav))
}

/// Whether a track is a favourite.
pub open spec fn fav_pred(is_fav: Seq<bool>) -> spec_fn(usize) -> bool {
    |i: usize| is_fav[i as int]
}

/// The play order: `base`, or with `fav_only` its favourites, unless it
/// has none.
pub fn build_order(base: Vec<usize>, is_fav: &[bool], fav_only: bool) -> (r: Vec<usize>)
    requires
        forall|k: int| 0 <= k < base@.len() ==> #[trigger] base@[k] < is_fav@.len(),
    ensures
        r@ == if fav_only && favs_of(base@, is_fav@).len() > 0 {
            favs_of(base@, is_fav@)
        } else {
            base@
        },
{
    if !fav_only {
        return base;
    }
    let mut favs: Vec<usize> = Vec::new();
    let mut i: usize = 0;
    while i < base.len()
        invariant
            i <= base@.len(),
            forall|k: int| 0 <= k < base@.len() ==> #[trigger] base@[k] < is_fav@.len(),
            favs@ == base@.take(i as int).filter(fav_pred(is_fav@)),
        decreases base@.len() - i,
    {
        let x = base[i];
        if is_fav[x] {
            favs.push(x);
        }
        proof {
            reveal(Seq::filter);
            let t = base@.take(i as int);
            assert(base@.take(i + 1) =~= t.push(x));
            assert(t.push(x).drop_last() =~= t);
        }
        i = i + 1;
    }
    proof {
        assert(base@.take(base@.len() as int) =~= base@);
    }
    if favs.len() == 0 {
        base
    } else {
        favs
    }
}

/// `v` clamped to the `i64` range.
pub open spec fn clamp_i64(v: int) -> int {
    if v > i64::MAX {
        i64::MAX as int
    } else if v < i64::MIN {
        i64::MIN as int
    } else {
        v
    }
}

/// The frame to seek to from frame `cur` for a jump of `delta` seconds at
/// `rate`: the sum saturating at the `i64` range, with `cur` read as an
/// `i64`, and no earlier than 0.
pub fn seek_target(cur: u64, delta: i64, rate: u32) -> (r: u64)
    ensures
        r == ({
            let c = if cur > i64::MAX { cur - 0x1_0000_0000_0000_0000int } else { cur as int };
            let t = clamp_i64(c + clamp_i64(delta * rate));
            if t < 0 { 0 } else { t }
        }),
{
    let c: i128 = if cur > i64::MAX as u64 { cur as i128 - 0x1_0000_0000_0000_0000i128 } else { cur as i128 };
    proof {
        assert(-0x8000_0000_0000_0000 * 0x1_0000_0000 <= delta * rate <= 0x8000_0000_0000_0000 * 0x1_0000_0000) by (nonlinear_arith)
            requires -0x8000_0000_0000_0000 <= delta < 0x8000_0000_0000_0000, 0 <= rate < 0x1_0000_0000;
    }
    let m0: i128 = delta as i128 * rate as i128;
    let m: i128 = if m0 > i64::MAX as i128 { i64::MAX as i128 } else if m0 < i64::MIN as i128 { i64::MIN as i128 } else { m0 };
    let t0 = c + m;
    let t: i128 = if t0 > i64::MAX as i128 { i64::MAX as i128 } else if t0 < i64::MIN as i128 { i64::MIN as i128 } else { t0 };
    if t < 0 {
        0
    } else {
        t as u64
    }
}

/// The frame for a clock time: `secs * rate`, saturating.
pub fn seek_to_frame(secs: u64, rate: u32) -> (r: u64)
    ensures
        r == if secs * rate > u64::MAX { u64::MAX as int } else { secs * rate },
{
    proof {
        assert(secs * rate < 0x1_0000_0000_0000_0000 * 0x1_0000_0000) by (nonlinear_arith)
            requires secs < 0x1_0000_0000_0000_0000, rate < 0x1_0000_0000;
    }
    let p = secs as u128 * rate as u128;
    if p > u64::MAX as u128 {
        u64::MAX
    } else {
        p as u64
    }
}

/// The status clock: (position, length) in seconds, from the samples the
/// output has consumed and the track's frame count; the position never
/// passes the length (or 1 for an empty track).
pub fn status_times(duration_frames: u64, rate: u32, channels: usize, consumed: u64) -> (r: (u64, u64))
    ensures
        ({
            let rt = if rate > 1 { rate as int } else { 1 };
            let ch = if channels > 1 { channels as int } else { 1 };
            let total = (duration_frames as int) / rt;
            let cap = if total > 1 { total } else { 1 };
            let pos = (consumed as int) / ch / rt;
            r == ((if pos < cap { pos } else { cap }) as u64, total as u64)
        }),
{
    let rt: u64 = if rate > 1 { rate as u64 } else { 1 };
    let ch: u64 = if channels > 1 { channels as u64 } else { 1 };
    let total = duration_frames / rt;
    let cap = if total > 1 { total } else { 1 };
    let pos = consumed / ch / rt;
    (if pos < cap { pos } else { cap }, total)
}

/// Stepping forward and then back returns to the same place in the order,
/// and the cursor stays inside the order.
pub proof fn lemma_advance_round_trip(pos: int, n: int, repeat: Repeat)
    requires
        0 <= pos < n,
    ensures
        0 <= advanced(pos, n, repeat, 1) < n,
        advanced(advanced(pos, n, repeat, 1), n, repeat, -1) == pos,
        advanced(advanced(pos, n, repeat, -1), n, repeat, 1) == pos,
{
    if repeat != Repeat::One {
        let fwd = if pos + 1 < n { pos + 1 } else { 0 };
        let back = if pos >= 1 { pos - 1 } else { n - 1 };
        vstd::arithmetic::div_mod::lemma_fundamental_div_mod_converse(pos + 1, n, if pos + 1 < n { 0 } else { 1 }, fwd);
        vstd::arithmetic::div_mod::lemma_fundamental_div_mod_converse(pos - 1, n, if pos >= 1 { 0 } else { -1 }, back);
        vstd::arithmetic::div_mod::lemma_fundamental_div_mod_converse(fwd - 1, n, if pos + 1 < n { 0 } else { -1 }, pos);
        vstd::arithmetic::div_mod::lemma_fundamental_div_mod_converse(back + 1, n, if pos >= 1 { 0 } else { 1 }, pos);
    }
}

/// A seek within range lands `delta` seconds of `rate` frames from the
/// current frame, and never before the start: where the jump stays in the
/// `i64` range it is the exact sum, or 0 where that is negative.
pub proof fn lemma_seek_target_exact(cur: u64, delta: i64, rate: u32)
    requires
        cur <= i64::MAX,
        i64::MIN <= delta * rate <= i64::MAX,
        i64::MIN <= cur + delta * rate <= i64::MAX,
    ensures
        ({
            let t = cur + delta * rate;
            let c = if cur > i64::MAX { cur - 0x1_0000_0000_0000_0000int } else { cur as int };
            let r = clamp_i64(c + clamp_i64(delta * rate));
            &&& t >= 0 ==> (if r < 0 { 0 } else { r }) == t
            &&& t < 0 ==> (if r < 0 { 0 } else { r }) == 0
        }),
{
}

} // verus!
