//! FLAC subframes: constant, verbatim, fixed-predictor and linear-predictor
//! channels, with wasted low bits.
use vstd::prelude::*;
use vstd::wrapping::i64_specs::wrapping_shl;
use crate::flac::bits::{BitReader, rd, sext, unary, unary_end, lemma_rd};
use crate::flac::residual::{raw_run, residual, read_raw_run, read_residual, lemma_raw_run_len};
use crate::flac::restore::{fixed_seq, lpc_seq, fixed_restore, lpc_restore};

verus! {

/// The samples before prediction: the warm-up samples, the residual, and
/// zeros for what the partitions leave uncovered.
pub open spec fn filled(w: Seq<i64>, r: Seq<i64>, bs: nat) -> Seq<i64> {
    w + r + Seq::new((bs - w.len() - r.len()) as nat, |i: int| 0i64)
}

pub open spec fn min_nat(a: nat, b: nat) -> nat {
    if a < b {
        a
    } else {
        b
    }
}

/// The body of a subframe of type `kind`, `b` bits per sample.
pub open spec fn sub_body(d: Seq<u8>, pos: int, kind: nat, bs: nat, b: nat) -> Option<(Seq<i64>, int)> {
    if kind == 0 {
        let (v, p) = rd(d, pos, b);
        Some((Seq::new(bs, |i: int| sext(v, b) as i64), p))
    } else if kind == 1 {
        Some(raw_run(d, pos, b, bs))
    } else if kind >= 32 {
        let order = kind % 32 + 1;
        let (w, p1) = raw_run(d, pos, b, min_nat(order, bs));
        let (prec, p2) = rd(d, p1, 4);
        let (sh, p3) = rd(d, p2, 5);
        let (coefs, p4) = raw_run(d, p3, prec + 1, order);
        match residual(d, p4, order, bs) {
            None => None,
            Some((r, p5)) => Some((lpc_seq(filled(w, r, bs), coefs, sext(sh, 5) as i32, order as int, bs), p5)),
        }
    } else if kind >= 8 {
        let order = kind % 8;
        let (w, p1) = raw_run(d, pos, b, min_nat(order, bs));
        match residual(d, p1, order, bs) {
            None => None,
            Some((r, p2)) => Some((fixed_seq(filled(w, r, bs), order as int, bs), p2)),
        }
    } else {
        Some((Seq::new(bs, |i: int| 0i64), pos))
    }
}

/// A subframe of `bs` samples at `bps` bits: its samples and the position
/// after it, or `None` where it claims more wasted bits than it has or its
/// residual cannot be laid out.
#[verifier::opaque]
pub open spec fn subframe(d: Seq<u8>, pos: int, bs: nat, bps: nat) -> Option<(Seq<i64>, int)> {
    let p1 = rd(d, pos, 1).1;
    let (kind, p2) = rd(d, p1, 6);
    let (flag, p3) = rd(d, p2, 1);
    let end = (8 * d.len()) as int;
    let wasted: nat = if flag == 1 { unary(d, p3, end) + 1 } else { 0 };
    let p4 = if flag == 1 { unary_end(d, p3, end) } else { p3 };
    if wasted > bps {
        None
    } else {
        match sub_body(d, p4, kind, bs, (bps - wasted) as nat) {
            None => None,
            Some((s, p)) => Some((
                if wasted > 0 {
                    Seq::new(s.len(), |i: int| wrapping_shl(s[i], wasted as u32))
                } else {
                    s
                },
                p,
            )),
        }
    }
}

/// Warm-up samples, the residual and the prediction filter for a
/// predicted subframe; `false` where the residual cannot be laid out.
fn read_predicted(br: &mut BitReader, buf: &mut [i64], kind: u64, b: u32) -> (ok: bool)
    requires
        old(br).wf(),
        8 <= kind < 64,
        b <= 33,
        forall|i: int| 0 <= i < old(buf)@.len() ==> old(buf)@[i] == 0,
    ensures
        final(br).data@ == old(br).data@,
        final(br).wf(),
        final(buf)@.len() == old(buf)@.len(),
        match sub_body(old(br).data@, old(br).pos as int, kind as nat, old(buf)@.len(), b as nat) {
            None => !ok,
            Some((s, p)) => ok && final(br).pos == p && final(buf)@ == s,
        },
{
    let ghost d = br.data@;
    let ghost p0 = br.pos as int;
    let ghost zeros = buf@;
    let bs = buf.len();
    let order: usize = if kind >= 32 { (kind % 32 + 1) as usize } else { (kind % 8) as usize };
    let warm = if order < bs { order } else { bs };
    read_raw_run(br, buf, 0, b, warm);
    let ghost w = raw_run(d, p0, b as nat, warm as nat).0;
    proof {
        lemma_raw_run_len(d, p0, b as nat, warm as nat);
    }
    if kind >= 32 {
        let ghost p1 = br.pos as int;
        let prec = br.read(4);
        let sh = br.read_signed(5);
        proof {
            lemma_rd(d, p1, 4);
            vstd::arithmetic::power2::lemma2_to64();
            lemma_rd(d, rd(d, p1, 4).1, 5);
        }
        let ghost p3 = br.pos as int;
        let mut coefs: Vec<i64> = vec![0i64; order];
        read_raw_run(br, coefs.as_mut_slice(), 0, (prec + 1) as u32, order);
        proof {
            lemma_raw_run_len(d, p3, (prec + 1) as nat, order as nat);
            assert(coefs@ =~= raw_run(d, p3, (prec + 1) as nat, order as nat).0);
        }
        let ghost p4 = br.pos as int;
        let ghost before = buf@;
        if !read_residual(br, buf, order, bs) {
            return false;
        }
        proof {
            let (r, p5) = residual(d, p4, order as nat, bs as nat).unwrap();
            assert(buf@ =~= filled(w, r, bs as nat));
        }
        lpc_restore(buf, coefs.as_slice(), sh as i32, order);
        true
    } else {
        let ghost p1 = br.pos as int;
        let ghost before = buf@;
        if !read_residual(br, buf, order, bs) {
            return false;
        }
        proof {
            let (r, p2) = residual(d, p1, order as nat, bs as nat).unwrap();
            assert(buf@ =~= filled(w, r, bs as nat));
        }
        fixed_restore(buf, order);
        true
    }
}

/// Reads one subframe of `buf.len()` samples at `bps` bits into `buf`,
/// which holds zeros; `false` where the subframe is malformed.
pub fn read_subframe(br: &mut BitReader, buf: &mut [i64], bps: u32) -> (ok: bool)
    requires
        old(br).wf(),
        bps <= 33,
        forall|i: int| 0 <= i < old(buf)@.len() ==> old(buf)@[i] == 0,
    ensures
        final(br).data@ == old(br).data@,
        final(br).wf(),
        final(buf)@.len() == old(buf)@.len(),
        match subframe(old(br).data@, old(br).pos as int, old(buf)@.len(), bps as nat) {
            None => !ok,
            Some((s, p)) => ok && final(br).pos == p && final(buf)@ == s,
        },
{
    reveal(subframe);
    let ghost d = br.data@;
    let ghost p0 = br.pos as int;
    let bs = buf.len();
    br.read(1);
    let kind = br.read(6);
    let flag = br.read(1);
    proof {
        lemma_rd(d, p0, 1);
        lemma_rd(d, rd(d, p0, 1).1, 6);
        lemma_rd(d, rd(d, rd(d, p0, 1).1, 6).1, 1);
        vstd::arithmetic::power2::lemma2_to64();
    }
    let wasted: u64 = if flag == 1 {
        let u = br.read_unary();
        proof {
            crate::flac::bits::lemma_unary(d, rd(d, rd(d, rd(d, p0, 1).1, 6).1, 1).1, (8 * d.len()) as int);
        }
        u + 1
    } else {
        0
    };
    if wasted > bps as u64 {
        return false;
    }
    let b = bps - wasted as u32;
    let ghost p4 = br.pos as int;
    if kind == 0 {
        let v = br.read_signed(b);
        let mut i: usize = 0;
        while i < bs
            invariant
                i <= bs == buf@.len(),
                forall|j: int| 0 <= j < i ==> buf@[j] == v,
            decreases bs - i,
        {
            buf[i] = v;
            i = i + 1;
        }
        proof {
            assert(buf@ =~= Seq::new(bs as nat, |i: int| sext(rd(d, p4, b as nat).0, b as nat) as i64));
        }
    } else if kind == 1 {
        read_raw_run(br, buf, 0, b, bs);
        proof {
            lemma_raw_run_len(d, p4, b as nat, bs as nat);
            assert(buf@ =~= raw_run(d, p4, b as nat, bs as nat).0);
        }
    } else if kind >= 8 {
        if !read_predicted(br, buf, kind, b) {
            return false;
        }
    } else {
        proof {
            assert(buf@ =~= Seq::new(bs as nat, |i: int| 0i64));
        }
    }
    if wasted > 0 {
        let ghost s = buf@;
        let mut i: usize = 0;
        while i < bs
            invariant
                i <= bs == buf@.len() == s.len(),
                wasted <= 33,
                forall|j: int| 0 <= j < i ==> buf@[j] == wrapping_shl(s[j], wasted as u32),
                forall|j: int| i <= j < bs ==> buf@[j] == s[j],
            decreases bs - i,
        {
            let x = buf[i];
            buf[i] = x.wrapping_shl(wasted as u32);
            i = i + 1;
        }
        proof {
            assert(buf@ =~= Seq::new(s.len(), |i: int| wrapping_shl(s[i], wasted as u32)));
        }
    }
    true
}

/// A decoded subframe holds a whole block.
pub proof fn lemma_subframe_len(d: Seq<u8>, pos: int, bs: nat, bps: nat)
    ensures
        subframe(d, pos, bs, bps) matches Some((s, p)) ==> s.len() == bs,
{
    reveal(subframe);
    let p1 = rd(d, pos, 1).1;
    let (kind, p2) = rd(d, p1, 6);
    let (flag, p3) = rd(d, p2, 1);
    let end = (8 * d.len()) as int;
    let wasted: nat = if flag == 1 { unary(d, p3, end) + 1 } else { 0 };
    let p4 = if flag == 1 { unary_end(d, p3, end) } else { p3 };
    if wasted <= bps {
        let b = (bps - wasted) as nat;
        lemma_raw_run_len(d, p4, b, bs);
        if kind >= 32 {
            let order = kind % 32 + 1;
            let (w, p1) = raw_run(d, p4, b, min_nat(order, bs));
            let (prec, q2) = rd(d, p1, 4);
            let (sh, q3) = rd(d, q2, 5);
            let (coefs, q4) = raw_run(d, q3, prec + 1, order);
            if let Some((r, p5)) = residual(d, q4, order, bs) {
                crate::flac::restore::lemma_lpc_seq_len(filled(w, r, bs), coefs, sh as i32, order as int, bs);
                crate::flac::restore::lemma_lpc_seq_len(filled(w, r, bs), coefs, sext(sh, 5) as i32, order as int, bs);
            }
        } else if kind >= 8 {
            let order = kind % 8;
            let (w, q1) = raw_run(d, p4, b, min_nat(order, bs));
            if let Some((r, q2)) = residual(d, q1, order, bs) {
                crate::flac::restore::lemma_fixed_seq_len(filled(w, r, bs), order as int, bs);
            }
        }
    }
}

} // verus!
