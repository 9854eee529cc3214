use compress_estimate::sampler::{Quota, Read, Reservoir, Rng, Sampler};

/// Mean and population standard deviation of a stratum's observations.
fn moments(xs: &[f64]) -> (f64, f64) {
    let n = xs.len() as f64;
    let mean = xs.iter().sum::<f64>() / n;
    let var = xs.iter().map(|x| (x - mean) * (x - mean)).sum::<f64>() / n;
    (mean, var.sqrt())
}

/// Stratified mean and its standard error.
fn estimate(s: &Sampler, seen: &[Vec<f64>]) -> (f64, f64) {
    let mut mean = 0.0;
    let mut var = 0.0;
    for (st, xs) in s.strata.iter().zip(seen) {
        let w = st.len as f64 / s.total_len as f64;
        let (m, sd) = moments(xs);
        mean += w * m;
        if xs.len() >= 2 {
            var += w * w * sd * sd / xs.len() as f64;
        }
    }
    (mean, var.sqrt())
}

fn converged(s: &Sampler, seen: &[Vec<f64>], target: f64) -> bool {
    if seen.iter().any(|xs| xs.is_empty()) {
        return s.converged(false);
    }
    let (mean, se) = estimate(s, seen);
    s.converged(mean <= 0.0 || 1.96 * se / mean < target)
}

fn quotas(s: &Sampler, seen: &[Vec<f64>]) -> Vec<Quota> {
    let take = s.round_size();
    let wants: Vec<f64> = (0..s.strata.len())
        .map(|i| {
            if s.has_room(i) {
                let w = s.strata[i].len as f64 / s.total_len as f64;
                w * (moments(&seen[i]).1 + 1e-6)
            } else {
                0.0
            }
        })
        .collect();
    let total: f64 = wants.iter().sum();
    wants
        .iter()
        .enumerate()
        .filter(|(_, w)| **w > 0.0)
        .map(|(i, w)| {
            let q = w / total * take as f64;
            Quota {
                stratum: i,
                whole: q as usize,
                fraction: q.fract().to_bits(),
            }
        })
        .collect()
}

#[test]
fn plan_covers_source() {
    let s = Sampler::plan(1_000_000, 100_000, 10_000, 8);
    assert_eq!(s.strata.len(), 8);
    let covered: u64 = s.strata.iter().map(|s| s.len).sum();
    assert_eq!(covered, 1_000_000);
    let weight = |len: u64| len as f64 / s.total_len as f64;
    assert!((s.strata.iter().map(|s| weight(s.len)).sum::<f64>() - 1.0).abs() < 1e-9);
}

#[test]
fn probe_then_refine() {
    let mut s = Sampler::plan(10_000_000, 2_000_000, 100_000, 10);
    let mut seen: Vec<Vec<f64>> = vec![Vec::new(); 10];
    let value = |r: &Read| if r.stratum % 2 == 0 { 2.0 } else { 4.0 };
    for r in s.probe_reads() {
        assert!(r.offset + r.len as u64 <= 10_000_000);
        let st = &s.strata[r.stratum];
        assert!(r.offset >= st.start && r.offset < st.end());
        seen[r.stratum].push(value(&r));
        s.observe(r);
    }
    // Not converged after only one round.
    assert!(!converged(&s, &seen, 0.02));
    // Second round with identical values: zero variance, so it converges.
    let q = quotas(&s, &seen);
    let reads = s.next_reads(&q);
    assert!(!reads.is_empty());
    for r in reads {
        seen[r.stratum].push(value(&r));
        s.observe(r);
    }
    assert!(converged(&s, &seen, 0.02));
    let (mean, _se) = estimate(&s, &seen);
    assert!((mean - 3.0).abs() < 1e-9);
}

#[test]
fn neyman_favors_variance() {
    let mut s = Sampler::plan(10_000_000, 5_000_000, 100_000, 10);
    let mut seen: Vec<Vec<f64>> = vec![Vec::new(); 10];
    for r in s.probe_reads() {
        seen[r.stratum].push(3.0);
        s.observe(r);
    }
    // Inject variance only into stratum 3.
    for _ in 0..3 {
        seen[3].push(1.0);
        seen[3].push(5.0);
    }
    let q = quotas(&s, &seen);
    let reads = s.next_reads(&q);
    let count3 = reads.iter().filter(|r| r.stratum == 3).count();
    let count_any_other = (0..10)
        .filter(|&i| i != 3)
        .map(|i| reads.iter().filter(|r| r.stratum == i).count())
        .max()
        .unwrap_or(0);
    assert!(count3 >= count_any_other);
}

#[test]
fn reservoir_uniform_slots() {
    let mut r: Reservoir<u32> = Reservoir::new(10);
    for i in 0..1000 {
        r.offer(i);
    }
    assert_eq!(r.slots.len(), 10);
    assert_eq!(r.seen, 1000);
}

#[test]
fn reservoir_keeps_what_was_offered() {
    let mut r: Reservoir<u32> = Reservoir::new(4);
    for i in 0..3 {
        r.offer(i);
    }
    assert_eq!(r.slots, vec![0, 1, 2]);
    for i in 3..50 {
        r.offer(i);
    }
    assert!(r.slots.iter().all(|&x| x < 50));
    let mut nothing: Reservoir<u32> = Reservoir::default();
    nothing.offer(7);
    assert_eq!((nothing.slots.len(), nothing.seen), (0, 1));
}

#[test]
fn rng_is_splitmix64() {
    let mut rng = Rng::new(0);
    assert_eq!(rng.next_u64(), 0xE220_A839_7B1D_CDAF);
    assert_eq!(rng.next_u64(), 0x6E78_9E6A_A1B9_65F4);
    let mut rng = Rng::new(0);
    assert_eq!(rng.below(10), 0xE220_A839_7B1D_CDAF % 10);
}

#[test]
fn plan_strata_are_contiguous() {
    let s = Sampler::plan(1_000_003, 50_000, 1_000, 7);
    assert_eq!(s.strata.len(), 7);
    assert_eq!(s.chunk_budget, 50);
    let mut at = 0;
    for st in &s.strata {
        assert_eq!(st.start, at);
        at = st.end();
    }
    assert_eq!(at, 1_000_003);
    // No stratum smaller than a chunk, and at least one.
    assert_eq!(Sampler::plan(2_500, 10, 1_000, 64).strata.len(), 2);
    assert_eq!(Sampler::plan(10, 10, 1_000, 0).strata.len(), 1);
}

#[test]
fn cover_tiles_the_source() {
    let mut s = Sampler::cover(2_500, 1_000);
    let reads = s.cover_reads();
    let tiles: Vec<(u64, usize)> = reads.iter().map(|r| (r.offset, r.len)).collect();
    assert_eq!(tiles, vec![(0, 1_000), (1_000, 1_000), (2_000, 500)]);
    assert_eq!(s.chunk_budget, 3);
    let mut empty = Sampler::cover(0, 1_000);
    assert_eq!(empty.cover_reads()[0].len, 0);
    assert_eq!(Sampler::cover(3_000, 1_000).strata.len(), 3);
}

#[test]
fn weighted_by_length() {
    let s = Sampler::weighted(100, &[100, 100, 7]);
    assert_eq!(s.total_len, 207);
    assert_eq!(s.strata[2].len, 7);
    assert!(s.budget_exhausted());
    assert_eq!(s.round_size(), 0);
}

#[test]
fn probe_reads_are_reproducible() {
    let mut a = Sampler::plan(5_000_000, 1_000_000, 4_096, 16);
    let mut b = Sampler::plan(5_000_000, 1_000_000, 4_096, 16);
    assert_eq!(a.probe_reads(), b.probe_reads());
}

#[test]
fn quotas_are_rounded_by_largest_remainder() {
    let mut s = Sampler::plan(1_000_000, 500_000, 10_000, 5);
    let q = |stratum: usize, whole: usize, fraction: u64| Quota {
        stratum,
        whole,
        fraction,
    };
    // Five reads: three whole ones, and the two largest remainders.
    let quotas = vec![q(0, 1, 10), q(1, 0, 30), q(2, 2, 20), q(3, 0, 5)];
    let picks: Vec<usize> = s.next_reads(&quotas).iter().map(|r| r.stratum).collect();
    assert_eq!(picks, vec![1, 2, 2, 2, 0]);
    assert!(s.next_reads(&Vec::new()).is_empty());
}

#[test]
fn room_runs_out() {
    let mut s = Sampler::plan(2_000, 10_000, 1_000, 2);
    assert!(s.has_room(0) && s.has_room(1));
    for r in s.probe_reads() {
        s.observe(r);
    }
    assert!(!s.has_room(0) && !s.has_room(1));
    assert!(!s.converged(true));
    assert!(!s.budget_exhausted());
}

#[test]
fn plan_stays_within_its_budget() {
    let mut s = Sampler::plan(1_000_000, 20_000, 10_000, 8);
    assert_eq!(s.strata.len(), 8);
    assert_eq!(s.chunk_budget, 2);
    assert!(s.chunk_budget * s.chunk_size <= 20_000);
    // The probe still takes one chunk per stratum; nothing follows it.
    for r in s.probe_reads() {
        s.observe(r);
    }
    assert_eq!(s.sampled_total, 8);
    assert!(s.budget_exhausted());
    assert_eq!(s.round_size(), 0);
    // A gigabyte at the defaults: 8 MiB in chunks of 512 KiB.
    assert_eq!(Sampler::plan(1 << 30, 8 << 20, 512 << 10, 64).chunk_budget, 16);
    assert_eq!(Sampler::plan(1_000, 10, 0, 4).chunk_budget, 10);
}

#[test]
fn reservoir_keeps_no_offer_twice() {
    let mut r: Reservoir<u32> = Reservoir::new(10);
    for i in 0..1000 {
        let before = r.slots.clone();
        r.offer(i);
        let changed = before.iter().zip(&r.slots).filter(|(a, b)| a != b).count();
        assert!(changed <= 1);
        let mut seen = r.slots.clone();
        seen.sort();
        seen.dedup();
        assert_eq!(seen.len(), r.slots.len());
    }
}
