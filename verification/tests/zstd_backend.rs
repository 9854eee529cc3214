use compress_estimate::backend::{Calibration, SpanSample};
use compress_estimate::backends::zstd::anchor::Fraction;
use compress_estimate::backends::zstd::lzparse::{FeatureScratch, ParseTables};
use compress_estimate::backends::zstd::{
    longest_slice, sample_given, tiled_replay, tiled_trace, Bench, Zstd,
};

#[test]
fn levels_are_clamped_sorted_and_deduplicated() {
    assert_eq!(Zstd::levels(&[30, -5, 10, 10]).levels, vec![1, 10, 22]);
    assert_eq!(Zstd::levels(&[]).levels, vec![3, 10, 15]);
    assert_eq!(Zstd::default().levels, vec![3, 10, 15]);
    assert_eq!(Zstd::all_levels().levels, (1..=22).collect::<Vec<i32>>());
}

#[test]
fn anchors_are_the_edges_of_families() {
    let z = Zstd::levels(&[1, 2, 3, 5, 9, 12, 19]);
    assert_eq!(z.anchor_levels(), vec![1, 2, 3, 5, 12, 19]);
    assert_eq!(Zstd::levels(&[7]).anchor_levels(), vec![7]);
}

#[test]
fn span_lengths() {
    let z = Zstd::default();
    assert_eq!(z.span_want(3), 8 << 21);
    assert_eq!(z.span_want(13), 8 << 22);
    assert_eq!(z.span_want(19), 4 << 20);
    assert_eq!(z.anchor_span_len(10 << 20), 10 << 20);
    assert_eq!(z.anchor_span_len(1 << 40), 32 << 20);
    let z = Zstd::default().anchor_budget(0);
    assert_eq!(z.anchor_span_len(1 << 40), 0);
    let z = Zstd::default().anchor_budget(1000).bench_time(5);
    assert_eq!((z.span_want(3), z.bench_nanos), (1000, 5));
}

#[test]
fn spans_have_to_be_worth_it() {
    let bytes = vec![0u8; 20_000];
    let cal = |len: usize| Calibration {
        enabled: true,
        span: Some(SpanSample {
            bytes: &bytes[..len],
            chunk_len: 4096,
        }),
    };
    let z = Zstd::default();
    assert!(z.usable_span(&cal(20_000)).is_some());
    assert!(z.usable_span(&cal(16_384)).is_some());
    assert!(z.usable_span(&cal(16_383)).is_none());
    assert!(z.usable_span(&Calibration::disabled()).is_none());
    let off = Zstd::default().anchor_budget(0);
    assert!(off.usable_span(&cal(20_000)).is_none());
    let mut denied = cal(20_000);
    denied.enabled = false;
    assert!(z.usable_span(&denied).is_none());
}

#[test]
fn anchor_samples_compress_the_span() {
    let bytes: Vec<u8> = b"rows and rows of a table that looks the same, ".repeat(2_000);
    let span = SpanSample {
        bytes: &bytes,
        chunk_len: 10_000,
    };
    let z = Zstd::levels(&[3]).anchor_budget(50_000);
    let sample = z.anchor_sample(&span, 3).unwrap();
    let real = zstd::bulk::compress(&bytes[..50_000], 3).unwrap();
    assert_eq!(sample.measured.part, real.len() as u64);
    assert_eq!(sample.measured.whole, 50_000);
    assert_eq!(sample.blocks.len(), 5);
    assert_eq!(sample.blocks.iter().map(|b| b.chunk_len).sum::<usize>(), 50_000);
    assert!(z.anchor_budget(0).anchor_sample(&span, 3).is_none());
}

#[test]
fn samples_follow_the_measurement() {
    let bytes: Vec<u8> = b"twelve bytes".repeat(1_000);
    let measured = Fraction {
        part: 42,
        whole: 12_000,
    };
    let sample = sample_given(Some(measured), &bytes, 3, 5_000).unwrap();
    assert_eq!(sample.measured, measured);
    let lens: Vec<usize> = sample.blocks.iter().map(|b| b.chunk_len).collect();
    assert_eq!(lens, vec![5_000, 5_000, 2_000]);
    assert!(sample_given(None, &bytes, 3, 5_000).is_none());
}

#[test]
fn long_spans_are_replayed_in_part() {
    // 40 tiles: every second one is replayed.
    let bytes = vec![1u8; 40_000];
    assert_eq!(tiled_replay(&bytes, 1, 1_000).len(), 20);
    // 15 full tiles and a short one: all are.
    assert_eq!(tiled_replay(&bytes[..15_500], 1, 1_000).len(), 16);
    assert!(tiled_replay(&[], 1, 1_000).is_empty());
}

#[test]
fn chunks_are_analyzed_at_every_level() {
    let data: Vec<u8> = b"abcdefgh12345678".repeat(500);
    let z = Zstd::levels(&[1, 3, 9]);
    let mut scratch = FeatureScratch::new();
    let mut tables = ParseTables::default();
    let stats = z.analyze_chunk(&data, &mut scratch, &mut tables);
    assert_eq!(stats.blocks.len(), 3);
    assert_eq!(stats.features.len, 8_000);
    for blocks in &stats.blocks {
        let bytes: u64 = blocks.iter().map(|b| b.total_lit_len + b.total_match_len).sum();
        assert_eq!(bytes, 8_000);
    }
}

#[test]
fn benchmarks_end() {
    let a = vec![0u8; 3 << 20];
    let b = vec![0u8; 100];
    let inputs: Vec<&[u8]> = vec![&a, &b];
    let mut bench = Bench::new(19);
    assert_eq!(bench.next_slice(&inputs), (0, 1 << 20));
    assert_eq!(longest_slice(&inputs, 19), 1 << 20);
    assert_eq!(longest_slice(&inputs, 3), 3 << 20);
    assert_eq!(longest_slice(&[], 3), 0);
    // A byte short of the cap, then over it.
    assert!(!bench.record((1 << 20) - 1, 10, 20, 1_000));
    assert_eq!(bench.next_slice(&inputs), (1, 100));
    assert!(bench.record(100, 10, 40, 1_000));
    assert_eq!((bench.total_bytes, bench.busy_nanos), ((1 << 20) + 99, 20));
    // Out of time.
    assert!(Bench::new(3).record(10, 10, 1_000, 1_000));
    assert!(!Bench::new(3).record(10, 10, 999, 1_000));
    // A slow level that compressed for half a second.
    assert!(Bench::new(19).record(10, 500_000_000, 0, 1_000));
    assert!(!Bench::new(18).record(10, 500_000_000, 0, 1_000));
}

#[test]
fn spans_are_traced_tile_by_tile() {
    let bytes = vec![1u8; 40_000];
    // Every second of 40 tiles, each of one sequence.
    let trace = tiled_trace(&bytes, 1, 1_000);
    assert_eq!(trace.len(), 20);
    assert!(trace.iter().all(|t| t.start == 2 && t.offset == 1));
    assert!(tiled_trace(&[], 1, 1_000).is_empty());
}
