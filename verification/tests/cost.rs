use compress_estimate::backends::zstd::cost::{
    huffman_cost, huffman_lengths, literal_cost, LL_PREDEF, ML_PREDEF, OF_PREDEF,
};
use compress_estimate::backends::zstd::lzparse::ParseStats;

#[test]
fn huffman_respects_limit() {
    // Highly skewed distribution that would exceed 11 bits without limit.
    let mut counts = [0u64; 256];
    counts[0] = 1 << 20;
    for c in counts.iter_mut().skip(1) {
        *c = 1;
    }
    let lengths = huffman_lengths(&counts, 11);
    assert!(*lengths.iter().max().unwrap() <= 11);
    // Kraft sum must not exceed 1.
    let kraft: f64 = (0..256)
        .filter(|&i| counts[i] > 0)
        .map(|i| 2f64.powi(-(lengths[i] as i32)))
        .sum();
    assert!(kraft <= 1.0 + 1e-9, "kraft {kraft}");
}

#[test]
fn huffman_small_trees() {
    assert_eq!(huffman_lengths(&[], 11), Vec::<u32>::new());
    assert_eq!(huffman_lengths(&[0, 0], 11), vec![0, 0]);
    assert_eq!(huffman_lengths(&[0, 9, 0], 11), vec![0, 1, 0]);
    assert_eq!(huffman_lengths(&[1, 1, 2, 4], 11), vec![3, 3, 2, 1]);
    assert_eq!(huffman_lengths(&[5, 5, 5, 5], 11), vec![2, 2, 2, 2]);
}

#[test]
fn huffman_clamps_and_repairs() {
    assert_eq!(huffman_lengths(&[1, 1, 2, 4], 2), vec![2, 2, 2, 2]);
    // Fibonacci weights make the deepest tree: 12 levels without a limit.
    let fib: Vec<u64> = vec![1, 1, 2, 3, 5, 8, 13, 21, 34, 55, 89, 144, 233];
    assert_eq!(*huffman_lengths(&fib, 20).iter().max().unwrap(), 12);
    let lengths = huffman_lengths(&fib, 5);
    assert!(lengths.iter().all(|&l| (1..=5).contains(&l)));
    let kraft: u32 = lengths.iter().map(|&l| 1 << (5 - l)).sum();
    assert!(kraft <= 32);
}

#[test]
fn huffman_code_is_complete() {
    let counts: Vec<u64> = (1..=60).map(|i| i * i % 37 + 1).collect();
    let lengths = huffman_lengths(&counts, 30);
    let kraft: u64 = lengths.iter().map(|&l| 1u64 << (30 - l)).sum();
    assert_eq!(kraft, 1 << 30);
}

fn with_literals(data: &[u8]) -> ParseStats {
    let mut stats = ParseStats::new(data.len());
    stats.literals.add(data);
    stats.total_lit_len = data.len() as u64;
    stats
}

#[test]
fn literal_costs() {
    // Nothing: an empty header of 8 bits.
    assert_eq!(literal_cost(&with_literals(&[])), 16);
    // Run-length: 24 bits.
    assert_eq!(literal_cost(&with_literals(&[5; 100])), 48);
    // Huffman: 14 bits of codes, 8 of header, 4 weights of 4.5, 24 more.
    let text = [0u8, 1, 2, 2, 3, 3, 3, 3];
    let stats = with_literals(&text);
    assert_eq!(huffman_cost(&stats.literals.counts), 80);
    assert_eq!(literal_cost(&stats), 128);
    // Raw: 8 bits each, 16 of header.
    let all: Vec<u8> = (0..=255).collect();
    assert_eq!(literal_cost(&with_literals(&all)), 2 * (256 * 8 + 16));
}

#[test]
fn predefined_tables_are_normalized() {
    let slots = |t: &[i32]| t.iter().map(|v| v.abs()).sum::<i32>();
    assert_eq!(slots(&LL_PREDEF), 64);
    assert_eq!(slots(&ML_PREDEF), 64);
    assert_eq!(slots(&OF_PREDEF[..29]), 32);
}

#[test]
fn huffman_limits_of_sparse_tables() {
    // 60 of 256 symbols, 59 levels deep without a limit.
    let mut counts = vec![0u64; 256];
    let (mut a, mut b) = (1u64, 1u64);
    for i in 0..60 {
        counts[4 * i] = a;
        (a, b) = (b, a + b);
    }
    assert_eq!(*huffman_lengths(&counts, 62).iter().max().unwrap(), 59);
    let lengths = huffman_lengths(&counts, 56);
    assert_eq!(*lengths.iter().max().unwrap(), 56);
    let present = (0..256).filter(|&i| counts[i] > 0);
    let kraft: u64 = present.map(|i| 1u64 << (56 - lengths[i])).sum();
    assert!(kraft <= 1 << 56);
}
