use compress_estimate::assemble::assemble;
use compress_estimate::sampler::Read;
use compress_estimate::stats::Histogram;
use compress_estimate::{Error, Estimator};

fn bytes(n: usize, seed: u64) -> Vec<u8> {
    let mut x = seed;
    (0..n)
        .map(|_| {
            x ^= x << 13;
            x ^= x >> 7;
            x ^= x << 17;
            (x >> 32) as u8
        })
        .collect()
}

#[test]
fn settings_are_clamped() {
    let e = Estimator::new();
    assert_eq!((e.chunk_size, e.n_strata, e.anchor), (512 * 1024, 64, true));
    let e = Estimator::new().chunk_size(1).strata(0).threads(3).anchor(false);
    assert_eq!((e.chunk_size, e.n_strata), (4096, 1));
    assert_eq!((e.threads, e.anchor), (3, false));
    assert_eq!(Estimator::new().strata(1000).n_strata, 256);
}

#[test]
fn budget_defaults() {
    let e = Estimator::new();
    assert_eq!(e.budget_for(0), 8 << 20);
    assert_eq!(e.budget_for(20 << 30), 20 << 20);
    assert_eq!(e.budget_for(u64::MAX), 64 << 20);
    assert_eq!(Estimator::new().budget(77).budget_for(20 << 30), 77);
}

#[test]
fn small_sources_are_covered() {
    let (survey, reads) = Estimator::new().survey(1_300_000).ok().unwrap();
    assert!(survey.covering);
    assert_eq!(reads.len(), 3);
    assert_eq!(reads.iter().map(|r| r.len).sum::<usize>(), 1_300_000);
    assert!(survey.is_over(false));
}

#[test]
fn large_sources_are_probed() {
    let (mut survey, reads) = Estimator::new()
        .budget(1 << 20)
        .chunk_size(8192)
        .strata(16)
        .survey(100 << 20)
        .ok()
        .unwrap();
    assert!(!survey.covering);
    assert_eq!(reads.len(), 16);
    assert_eq!(survey.sampler.chunk_budget, 128);
    for r in reads {
        survey.sampler.observe(r);
    }
    // One round is not enough, however precise it looks.
    assert!(!survey.is_over(true));
    let again: Vec<Read> = survey.sampler.probe_reads();
    for r in again {
        survey.sampler.observe(r);
    }
    assert!(survey.is_over(true));
    assert!(!survey.is_over(false));
}

#[test]
fn empty_input_and_mode_conflict() {
    assert!(matches!(Estimator::new().survey(0), Err(Error::EmptyInput)));
    assert!(matches!(Estimator::new().finish(), Err(Error::EmptyInput)));
    let mut e = Estimator::new();
    e.update(&[]).unwrap();
    assert!(matches!(e.survey(10), Err(Error::ModeConflict)));
    assert!(matches!(e.survey(0), Err(Error::ModeConflict)));
    assert!(matches!(e.finish(), Err(Error::EmptyInput)));
}

#[test]
fn span_is_centered() {
    let e = Estimator::new();
    assert_eq!(e.span_place(1000, 100), Some(450));
    assert_eq!(e.span_place(1000, 1000), Some(0));
    assert_eq!(e.span_place(1000, 0), None);
    assert_eq!(Estimator::new().anchor(false).span_place(1000, 100), None);
}

#[test]
fn stream_is_chunked() {
    let data = bytes(10_000, 7);
    let mut e = Estimator::new().chunk_size(4096);
    for part in data.chunks(999) {
        e.update(part).unwrap();
    }
    let sample = e.finish().ok().unwrap();
    assert_eq!(sample.total, 10_000);
    assert_eq!(sample.chunks.len(), 3);
    assert_eq!(sample.chunks.concat(), data);
    assert_eq!(sample.reads[2].len, 10_000 - 2 * 4096);
    assert_eq!(sample.sampler.total_len, 10_000);
    let mut hist = Histogram::default();
    hist.add(&data);
    assert_eq!(sample.hist.counts, hist.counts);
    // A short stream is its own span.
    assert_eq!(sample.span.unwrap(), data);
}

#[test]
fn feeding_in_pieces_changes_nothing() {
    let data = bytes(200_000, 3);
    let mut whole = Estimator::new().chunk_size(4096).budget(40_000);
    whole.update(&data).unwrap();
    let mut pieces = Estimator::new().chunk_size(4096).budget(40_000);
    for part in data.chunks(1_337) {
        pieces.update(part).unwrap();
    }
    let (a, b) = (whole.finish().ok().unwrap(), pieces.finish().ok().unwrap());
    assert_eq!(a.chunks.len(), 10);
    assert_eq!(a.chunks, b.chunks);
    assert_eq!(a.hist.counts, b.hist.counts);
    assert_eq!(a.span, b.span);
}

#[test]
fn long_streams_keep_their_tail() {
    let cap = 32usize << 20;
    let block = bytes(1 << 20, 11);
    let mut e = Estimator::new().budget(1 << 20);
    for i in 0..70u8 {
        let mut part = block.clone();
        part[0] = i;
        e.update(&part).unwrap();
    }
    let sample = e.finish().ok().unwrap();
    assert_eq!(sample.total, 70 << 20);
    let span = sample.span.unwrap();
    assert_eq!(span.len(), cap);
    // The span ends where the stream does.
    assert_eq!(span[0], 38);
    assert_eq!(span[span.len() - (1 << 20)], 69);
    assert_eq!(sample.chunks.len(), 8);
}

#[test]
fn chunk_size_may_change_between_updates() {
    let data = bytes(20_000, 5);
    let mut e = Estimator::new().chunk_size(4096);
    e.update(&data[..5000]).unwrap();
    let mut e = e.chunk_size(8192);
    e.update(&data[5000..]).unwrap();
    let sample = e.finish().ok().unwrap();
    let lens: Vec<usize> = sample.chunks.iter().map(|c| c.len()).collect();
    assert_eq!(lens, vec![4096, 8192, 20_000 - 4096 - 8192]);
    assert_eq!(sample.chunks.concat(), data);
}

#[test]
fn samples_are_grouped() {
    let read = |stratum: usize, len: usize| Read {
        stratum,
        offset: 0,
        len,
    };
    let reads = [read(1, 3), read(0, 2), read(1, 1)];
    let mut hists = vec![Histogram::default(); 3];
    hists[0].add(b"abc");
    hists[1].add(b"ab");
    hists[2].add(b"c");
    let refs: Vec<&Histogram> = hists.iter().collect();
    let all = assemble(&reads, &refs, 3);
    assert_eq!(all.groups, vec![vec![1], vec![0, 2], vec![]]);
    assert_eq!(all.order, vec![1, 0, 2]);
    assert_eq!(all.sampled_bytes, 6);
    assert_eq!(all.hist.total, 6);
    assert_eq!(all.hist.counts[b'c' as usize], 2);
}

#[test]
fn stream_spans_are_clamped_to_what_is_wanted() {
    let data = bytes(10_000, 7);
    let mut e = Estimator::new();
    e.update(&data).unwrap();
    let sample = e.finish().ok().unwrap();
    assert_eq!(sample.span_for(4_000), Some(&data[..4_000]));
    assert_eq!(sample.span_for(1 << 20), Some(&data[..]));
    assert_eq!(sample.span_for(0), None);
    let mut e = Estimator::new().anchor(false);
    e.update(&data).unwrap();
    assert_eq!(e.finish().ok().unwrap().span_for(4_000), None);
}

#[test]
fn reservoirs_hold_the_budget() {
    let cap = |budget: u64| {
        let mut e = Estimator::new().chunk_size(4096).budget(budget);
        e.update(b"x").unwrap();
        e.stream.unwrap().reservoir.cap
    };
    assert_eq!(cap(40_961), 11);
    assert_eq!(cap(40_960), 10);
    assert_eq!(cap(1), 8);
    assert_eq!(cap(u64::MAX), 1 << 52);
}
