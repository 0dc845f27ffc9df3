use mzk::opus::celt::band_shapes::{decode_band_shapes, ShapeParams};
use mzk::opus::celt::band_steps::band_budget;
use mzk::opus::celt::band_decode::{decode_band, decode_band_stereo};
use mzk::opus::celt::cwrs::{decode_pulses, get_pulses, log2_frac};
use mzk::opus::celt::bands::celt_lcg_rand;
use mzk::opus::celt::partition::{decode_partition, Partition};
use mzk::opus::celt::rate::{compute_pulse_cache, PulseCache};
use mzk::opus::celt::theta::{compute_theta, leaf_pulses, rebalance, should_split, split_bits};
use mzk::opus::celt::vq::collapse_mask;
use mzk::opus::range::RangeDecoder;

const EBANDS_5MS: [i32; 22] = [0, 1, 2, 3, 4, 5, 6, 7, 8, 10, 12, 14, 16, 20, 24, 28, 34, 40, 48, 60, 78, 100];

const STREAMS: [[u8; 16]; 3] = [
    [0x5A, 0x13, 0xC7, 0x88, 0x21, 0x9F, 0x44, 0x6B, 0xE0, 0x37, 0x02, 0xBD, 0x90, 0x7C, 0x15, 0xF3],
    [0xFF, 0x00, 0xAA, 0x55, 0x12, 0x34, 0x56, 0x78, 0x9A, 0xBC, 0xDE, 0xF0, 0x0F, 0xE1, 0x2D, 0x3C],
    [0x01, 0x80, 0x40, 0x20, 0x10, 0x08, 0x04, 0x02, 0x81, 0x42, 0x24, 0x18, 0x99, 0x66, 0xC3, 0x3C],
];

fn cache() -> PulseCache {
    let log_n: Vec<i32> = (0..21).map(|i| log2_frac((EBANDS_5MS[i + 1] - EBANDS_5MS[i]) as u32, 3)).collect();
    compute_pulse_cache(&EBANDS_5MS, 21, &log_n, 3)
}

struct Args {
    band: usize,
    log_n: i32,
    n: usize,
    b: i32,
    bparam: i32,
    has_lowband: bool,
    lm: i32,
    fill: i32,
    remaining: i32,
    seed: u32,
}

/// The recursion written out step by step with the public pieces.
fn by_steps(rd: &mut RangeDecoder, c: &PulseCache, a: &Args) -> Partition {
    if should_split(c, 21, a.band, a.lm, a.b, a.n) {
        let fill1 = if a.bparam == 1 { (a.fill & 1) | (a.fill << 1) } else { a.fill };
        let th = compute_theta(rd, a.n / 2, a.b, (a.bparam + 1) / 2, a.bparam, a.lm - 1, false, fill1, a.log_n, false,
            a.remaining);
        let (mbits, sbits) = split_bits(th.b, th.delta, th.itheta, a.bparam, a.lm - 1, a.n / 2);
        let bp2 = (a.bparam + 1) / 2;
        let fside = th.fill >> bp2;
        let half = |b: i32, fill: i32, remaining: i32, seed: u32| Args {
            band: a.band,
            log_n: a.log_n,
            n: a.n / 2,
            b,
            bparam: bp2,
            has_lowband: a.has_lowband,
            lm: a.lm - 1,
            fill,
            remaining,
            seed,
        };
        let rem1 = a.remaining - th.qalloc;
        let sh = (a.bparam / 2) as u32;
        let (m, s, thetas) = if mbits >= sbits {
            let m = by_steps(rd, c, &half(mbits, th.fill, rem1, a.seed));
            let sb = rebalance(mbits, rem1 - m.remaining, sbits, th.itheta != 0);
            let s = by_steps(rd, c, &half(sb, fside, m.remaining, m.seed));
            let t = [vec![th.itheta], m.thetas.clone(), s.thetas.clone()].concat();
            (m, s, t)
        } else {
            let s = by_steps(rd, c, &half(sbits, fside, rem1, a.seed));
            let mb = rebalance(sbits, rem1 - s.remaining, mbits, th.itheta != 16384);
            let m = by_steps(rd, c, &half(mb, th.fill, s.remaining, s.seed));
            let t = [vec![th.itheta], s.thetas.clone(), m.thetas.clone()].concat();
            (m, s, t)
        };
        let (remaining, seed) = if mbits >= sbits { (s.remaining, s.seed) } else { (m.remaining, m.seed) };
        let mut pulses = vec![0i32; a.n];
        pulses[..a.n / 2].copy_from_slice(&m.pulses);
        pulses[a.n / 2..2 * (a.n / 2)].copy_from_slice(&s.pulses);
        Partition { pulses, thetas, cm: m.cm | (s.cm << sh), remaining, seed }
    } else {
        let (q, remaining) = leaf_pulses(c, 21, a.band, a.lm, a.b, a.remaining);
        let mut pulses = vec![0i32; a.n];
        if q != 0 {
            decode_pulses(&mut pulses, a.n, get_pulses(q) as usize, rd);
            let cm = collapse_mask(&pulses, a.n, a.bparam as usize);
            return Partition { pulses, thetas: vec![], cm, remaining, seed: a.seed };
        }
        let mask = (1i32 << a.bparam) - 1;
        let f = a.fill & mask;
        if f == 0 {
            return Partition { pulses, thetas: vec![], cm: 0, remaining, seed: a.seed };
        }
        let mut seed = a.seed;
        for _ in 0..a.n {
            seed = celt_lcg_rand(seed);
        }
        let cm = if a.has_lowband { f as u32 } else { mask as u32 };
        Partition { pulses, thetas: vec![], cm, remaining, seed }
    }
}

fn run(buf: &[u8], c: &PulseCache, a: &Args) -> (Partition, i32) {
    let mut rd = RangeDecoder::new(buf);
    let p = decode_partition(&mut rd, c, 21, a.band, a.log_n, a.n, a.b, a.bparam, a.has_lowband, a.lm, a.fill,
        a.remaining, a.seed);
    (p, rd.tell())
}

fn same(x: &Partition, y: &Partition) -> bool {
    x.pulses == y.pulses && x.thetas == y.thetas && x.cm == y.cm && x.remaining == y.remaining && x.seed == y.seed
}

#[test]
fn partition_matches_the_steps() {
    let c = cache();
    let mut splits = 0;
    for buf in STREAMS.iter() {
        for band in [8usize, 12, 16, 18, 20] {
            let width = (EBANDS_5MS[band + 1] - EBANDS_5MS[band]) as usize;
            for lm in 0..4i32 {
                for b in [0i32, 40, 200, 800, 3000] {
                    for (bparam, fill) in [(1i32, 1i32), (2, 3), (4, 5)] {
                        let a = Args {
                            band,
                            log_n: log2_frac(width as u32, 3),
                            n: width << lm,
                            b,
                            bparam,
                            has_lowband: band % 2 == 0,
                            lm,
                            fill,
                            remaining: 5000,
                            seed: 1234,
                        };
                        let (p, tell) = run(buf, &c, &a);
                        let mut rd = RangeDecoder::new(buf);
                        let q = by_steps(&mut rd, &c, &a);
                        assert!(same(&p, &q));
                        assert_eq!(tell, rd.tell());
                        assert_eq!(p.pulses.len(), a.n);
                        if !p.thetas.is_empty() {
                            splits += 1;
                        }
                    }
                }
            }
        }
    }
    assert!(splits > 0);
}

#[test]
fn partition_leaf_with_no_bits_is_silent_or_noise() {
    let c = cache();
    let a = Args {
        band: 12, log_n: 16, n: 4, b: 0, bparam: 1, has_lowband: false, lm: 0, fill: 0, remaining: 100, seed: 7,
    };
    let (p, tell) = run(&STREAMS[0], &c, &a);
    assert_eq!(p.pulses, vec![0, 0, 0, 0]);
    assert!(p.thetas.is_empty());
    assert_eq!((p.cm, p.remaining, p.seed), (0, 100, 7));
    assert_eq!(tell, RangeDecoder::new(&STREAMS[0]).tell());
    let a = Args { fill: 1, ..a };
    let (p, _) = run(&STREAMS[0], &c, &a);
    let mut seed = 7u32;
    for _ in 0..4 {
        seed = celt_lcg_rand(seed);
    }
    assert_eq!((p.cm, p.seed), (1, seed));
}

#[test]
fn partition_wide_band_splits_and_spends() {
    let c = cache();
    let a = Args {
        band: 20, log_n: log2_frac(22, 3), n: 176, b: 3000, bparam: 1, has_lowband: true, lm: 3, fill: 1,
        remaining: 5000, seed: 99,
    };
    let (p, tell) = run(&STREAMS[1], &c, &a);
    assert!(!p.thetas.is_empty());
    assert!(p.thetas.iter().all(|&t| (0..=16384).contains(&t)));
    assert!(p.remaining < 5000);
    assert!(tell > 1);
    let (again, tell2) = run(&STREAMS[1], &c, &a);
    assert!(same(&p, &again));
    assert_eq!(tell, tell2);
}

#[test]
fn band_without_tf_change_is_its_partition() {
    let c = cache();
    for buf in STREAMS.iter() {
        for (band, lm, bparam) in [(12usize, 1i32, 2i32), (18, 2, 4), (20, 3, 8), (16, 0, 1)] {
            let width = (EBANDS_5MS[band + 1] - EBANDS_5MS[band]) as usize;
            let n = width << lm;
            let log_n = log2_frac(width as u32, 3);
            let mut r1 = RangeDecoder::new(buf);
            let p = decode_band(&mut r1, &c, 21, band, log_n, n, 600, bparam, 0, true, lm, 255, 4000, 5);
            let mut r2 = RangeDecoder::new(buf);
            let q = decode_partition(&mut r2, &c, 21, band, log_n, n, 600, bparam, true, lm, 255, 4000, 5);
            assert_eq!(p.pulses, q.pulses);
            assert_eq!(p.thetas, q.thetas);
            assert_eq!(p.cm, q.cm & ((1u32 << bparam) - 1));
            assert_eq!((p.remaining, p.seed), (q.remaining, q.seed));
            assert_eq!(r1.tell(), r2.tell());
        }
    }
}

#[test]
fn band_tf_change_reshapes_the_blocks() {
    let c = cache();
    let width = 12usize;
    let log_n = log2_frac(width as u32, 3);
    // recombining two blocks into one: the partition sees a single block
    let mut r1 = RangeDecoder::new(&STREAMS[2]);
    let p = decode_band(&mut r1, &c, 21, 18, log_n, width << 1, 300, 2, 1, true, 1, 3, 4000, 5);
    let mut r2 = RangeDecoder::new(&STREAMS[2]);
    let q = decode_partition(&mut r2, &c, 21, 18, log_n, width << 1, 300, 1, true, 1, 1, 4000, 5);
    assert_eq!(p.pulses, q.pulses);
    assert!(p.cm < 4);
    assert_eq!(p.cm, [0u32, 3][q.cm as usize & 1]);
    // splitting one block into two: the fold mask doubles onto the new block
    let mut r1 = RangeDecoder::new(&STREAMS[2]);
    let p = decode_band(&mut r1, &c, 21, 18, log_n, width << 1, 300, 1, -1, true, 1, 1, 4000, 5);
    let mut r2 = RangeDecoder::new(&STREAMS[2]);
    let q = decode_partition(&mut r2, &c, 21, 18, log_n, width << 1, 300, 2, true, 1, 3, 4000, 5);
    assert_eq!(p.pulses, q.pulses);
    assert_eq!(p.cm, (q.cm | (q.cm >> 1)) & 1);
}

#[test]
fn stereo_band_matches_the_steps() {
    let c = cache();
    for buf in STREAMS.iter() {
        for (band, lm) in [(8usize, 0i32), (12, 1), (18, 2), (20, 3)] {
            let width = (EBANDS_5MS[band + 1] - EBANDS_5MS[band]) as usize;
            let n = width << lm;
            let log_n = log2_frac(width as u32, 3);
            for b in [100i32, 600, 2000] {
                let mut rd = RangeDecoder::new(buf);
                let s = decode_band_stereo(&mut rd, &c, 21, band, log_n, n, b, 1, 0, true, lm, 1, false, 8000, 3);
                let mut r2 = RangeDecoder::new(buf);
                let th = compute_theta(&mut r2, n, b, 1, 1, lm, true, 1, log_n, false, 8000);
                assert_eq!((s.itheta, s.inv), (th.itheta, th.inv));
                if n == 2 {
                    let sb = if th.itheta != 0 && th.itheta != 16384 { 8 } else { 0 };
                    let sign = if sb != 0 { r2.dec_bits(1) } else { 0 };
                    let p = decode_band(&mut r2, &c, 21, band, log_n, n, th.b - sb, 1, 0, true, lm, 1,
                        8000 - th.qalloc - sb, 3);
                    assert_eq!((s.mid.clone(), s.sign, s.cm, s.remaining), (p.pulses, sign, p.cm, p.remaining));
                    assert!(s.side.is_empty());
                } else {
                    let (mbits, sbits) = split_bits(th.b, th.delta, th.itheta, 1, 0, n);
                    let rem1 = 8000 - th.qalloc;
                    let (mid, side, rem) = if mbits >= sbits {
                        let a = decode_band(&mut r2, &c, 21, band, log_n, n, mbits, 1, 0, true, lm, th.fill, rem1, 3);
                        let sb = rebalance(mbits, rem1 - a.remaining, sbits, th.itheta != 0);
                        let z = decode_band(&mut r2, &c, 21, band, log_n, n, sb, 1, 0, false, lm, th.fill >> 1,
                            a.remaining, a.seed);
                        (a.pulses, z.pulses, z.remaining)
                    } else {
                        let z = decode_band(&mut r2, &c, 21, band, log_n, n, sbits, 1, 0, false, lm, th.fill >> 1,
                            rem1, 3);
                        let mb = rebalance(sbits, rem1 - z.remaining, mbits, th.itheta != 16384);
                        let a = decode_band(&mut r2, &c, 21, band, log_n, n, mb, 1, 0, true, lm, th.fill,
                            z.remaining, z.seed);
                        (a.pulses, z.pulses, a.remaining)
                    };
                    assert_eq!((s.mid.clone(), s.side.clone(), s.remaining), (mid, side, rem));
                }
                assert_eq!(rd.tell(), r2.tell());
            }
        }
    }
}

fn shape_params(lm: i32, stereo: bool, start: usize, end: usize, bblocks: i32) -> ShapeParams {
    let log_n: Vec<i32> = (0..21).map(|i| log2_frac((EBANDS_5MS[i + 1] - EBANDS_5MS[i]) as u32, 3)).collect();
    ShapeParams {
        eb: EBANDS_5MS.to_vec(),
        log_n,
        pulses: (0..21).map(|i| 40 + 12 * i as i32).collect(),
        tf_res: vec![0; 21],
        nb: 21,
        start,
        end,
        lm,
        bblocks,
        spread: 2,
        stereo,
        intensity: 21,
        total_bits: 8 * 8 * 160,
        coded_bands: 21,
    }
}

#[test]
fn band_shapes_cover_every_band() {
    let c = cache();
    for (lm, stereo, dual) in [(0, false, false), (2, false, false), (3, true, false), (1, true, true)] {
        let p = shape_params(lm, stereo, 0, 21, 1);
        let chans = if stereo { 2 } else { 1 };
        let mut rd = RangeDecoder::new(&STREAMS[1]);
        let r = decode_band_shapes(&mut rd, &c, &p, 0, dual, vec![0; 21 * chans], 17);
        assert_eq!(r.bands.len(), 21);
        for (i, band) in r.bands.iter().enumerate() {
            let n = ((EBANDS_5MS[i + 1] - EBANDS_5MS[i]) << lm) as usize;
            assert_eq!(band.x.len(), n);
            if stereo && !dual && n > 2 {
                assert_eq!(band.y.len(), n);
            }
        }
        let mut rd2 = RangeDecoder::new(&STREAMS[1]);
        let again = decode_band_shapes(&mut rd2, &c, &p, 0, dual, vec![0; 21 * chans], 17);
        assert_eq!((r.cm.clone(), r.seed), (again.cm, again.seed));
        assert_eq!(rd.tell_frac(), rd2.tell_frac());
    }
}

#[test]
fn band_shapes_first_band_is_its_budget() {
    let c = cache();
    let p = shape_params(2, false, 20, 21, 1);
    let mut rd = RangeDecoder::new(&STREAMS[0]);
    let r = decode_band_shapes(&mut rd, &c, &p, 0, false, vec![0; 21], 17);
    let mut r2 = RangeDecoder::new(&STREAMS[0]);
    let tell = r2.tell_frac() as i32;
    let rem = p.total_bits - tell - 1;
    let b = band_budget(20, 21, 0, p.pulses[20], rem);
    let q = decode_band(&mut r2, &c, 21, 20, p.log_n[20], 88, b, 1, 0, false, 2, 1, rem, 17);
    assert_eq!(r.bands[0].x, q.pulses);
    assert_eq!(r.bands[0].thetas, q.thetas);
    assert_eq!((r.cm[20] as u32, r.seed), (q.cm & 0xFF, q.seed));
    assert_eq!(rd.tell_frac(), r2.tell_frac());
}
