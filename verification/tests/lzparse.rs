use compress_estimate::backends::zstd::levels::params_for;
use compress_estimate::backends::zstd::lzparse::{
    ll_code, ml_code, replay_blocks, trace_blocks, FeatureScratch, ParseStats, ParseTables,
    ZSTD_BLOCK,
};

fn replay(chunk: &[u8], level: i32) -> Vec<ParseStats> {
    let mut tables = ParseTables::default();
    let mut blocks = Vec::new();
    replay_blocks(chunk, &params_for(level), &mut blocks, &mut tables);
    blocks
}

fn xorshift(n: usize, mut x: u64) -> Vec<u8> {
    (0..n)
        .map(|_| {
            x ^= x << 13;
            x ^= x >> 7;
            x ^= x << 17;
            (x >> 32) as u8
        })
        .collect()
}

#[test]
fn replay_repetitive_data() {
    let chunk: Vec<u8> = b"INSERT INTO table VALUES (1, 'foo');\n".repeat(4096);
    let mut tables = ParseTables::default();
    let mut blocks = Vec::new();
    for level in [1, 3, 6, 10, 19] {
        replay_blocks(&chunk, &params_for(level), &mut blocks, &mut tables);
        let total_match: u64 = blocks.iter().map(|b| b.total_match_len).sum();
        let nb_seq: u32 = blocks.iter().map(|b| b.nb_seq).sum();
        // Almost everything should be matches after the first occurrence.
        assert!(total_match as usize > chunk.len() / 2, "level {level}");
        assert!(nb_seq > 0, "level {level}");
        // Lit + match bytes must cover the chunk exactly.
        let total_lit: u64 = blocks.iter().map(|b| b.total_lit_len).sum();
        assert_eq!(total_lit + total_match, chunk.len() as u64, "level {level}");
        let block_lens: usize = blocks.iter().map(|b| b.chunk_len).sum();
        assert_eq!(block_lens, chunk.len(), "level {level}");
    }
}

#[test]
fn replay_random_data_is_all_literals() {
    // Deterministic pseudo-random bytes.
    let chunk: Vec<u8> = xorshift(16384, 0x1234_5678_9abc_def0u64);
    let mut tables = ParseTables::default();
    let mut blocks = Vec::new();
    replay_blocks(&chunk, &params_for(3), &mut blocks, &mut tables);
    let total_lit: u64 = blocks.iter().map(|b| b.total_lit_len).sum();
    assert!(total_lit as usize >= chunk.len() - 64);
}

#[test]
fn code_tables_boundaries() {
    assert_eq!(ll_code(0), (0, 0));
    assert_eq!(ll_code(15), (15, 0));
    assert_eq!(ll_code(16), (16, 1));
    assert_eq!(ll_code(65536), (35, 16));
    assert_eq!(ml_code(3), (0, 0));
    assert_eq!(ml_code(34), (31, 0));
    assert_eq!(ml_code(35), (32, 1));
    assert_eq!(ml_code(65539), (52, 16));
    assert_eq!(ml_code(1 << 20), (52, 16));
}

#[test]
fn short_chunks_are_literals() {
    for len in [0usize, 1, 8, 16] {
        let chunk = vec![7u8; len];
        let blocks = replay(&chunk, 3);
        assert_eq!(blocks.len(), 1);
        assert_eq!(blocks[0].total_lit_len, len as u64);
        assert_eq!(blocks[0].literals.counts[7], len as u64);
        assert_eq!(blocks[0].nb_seq, 0);
        assert_eq!(blocks[0].chunk_len, len);
    }
}

#[test]
fn zeros_are_one_sequence() {
    let chunk = vec![0u8; 1000];
    for (level, lit) in [(1, 3u64), (3, 3), (6, 2), (10, 2)] {
        let blocks = replay(&chunk, level);
        assert_eq!(blocks.len(), 1, "level {level}");
        let b = &blocks[0];
        assert_eq!(b.nb_seq, 1, "level {level}");
        assert_eq!(b.total_lit_len, lit, "level {level}");
        assert_eq!(b.total_match_len, 1000 - lit, "level {level}");
        // Literal run before the match, match of 997 or 998, newest offset.
        assert_eq!(b.ll_codes[lit as usize - 1], 1, "level {level}");
        assert_eq!(b.ml_codes[45], 1, "level {level}");
        assert_eq!(b.off_codes[0], 1, "level {level}");
        assert_eq!(b.extra_bits, 9, "level {level}");
    }
}

#[test]
fn blocks_split_at_128_kib() {
    let chunk = xorshift(300_000, 99);
    for level in [1, 3, 8] {
        let lens: Vec<usize> = replay(&chunk, level).iter().map(|b| b.chunk_len).collect();
        assert_eq!(lens, vec![ZSTD_BLOCK, ZSTD_BLOCK, 300_000 - 2 * ZSTD_BLOCK]);
    }
    let two = vec![0u8; 2 * ZSTD_BLOCK];
    assert_eq!(replay(&two, 3).len(), 2);
}

#[test]
fn code_counts_add_up() {
    let chunk: Vec<u8> = (0..40_000u32)
        .flat_map(|i| ((i * i) % 1000).to_le_bytes())
        .collect();
    for level in [1, 2, 3, 5, 7, 9, 13, 17] {
        for b in replay(&chunk, level) {
            assert_eq!(b.ll_codes.iter().sum::<u32>(), b.nb_seq);
            assert_eq!(b.ml_codes.iter().sum::<u32>(), b.nb_seq);
            assert_eq!(b.off_codes.iter().sum::<u32>(), b.nb_seq);
            assert_eq!(b.literals.total, b.total_lit_len);
        }
    }
}

#[test]
fn replay_does_not_depend_on_used_tables() {
    let first: Vec<u8> = b"some text, some more text, and some text again ".repeat(300);
    let second = xorshift(20_000, 5);
    for level in [1, 3, 6, 16] {
        let mut tables = ParseTables::default();
        let mut blocks = Vec::new();
        replay_blocks(&second, &params_for(level), &mut blocks, &mut tables);
        replay_blocks(&first, &params_for(level), &mut blocks, &mut tables);
        let fresh = replay(&first, level);
        assert_eq!(blocks.len(), fresh.len());
        for (a, b) in blocks.iter().zip(&fresh) {
            assert_eq!(a.nb_seq, b.nb_seq);
            assert_eq!(a.total_lit_len, b.total_lit_len);
            assert_eq!(a.extra_bits, b.extra_bits);
            assert_eq!(a.off_codes, b.off_codes);
        }
    }
}

#[test]
fn features_of_zeros() {
    let mut scratch = FeatureScratch::new();
    let f = scratch.scan_features(&[0u8; 100]);
    // 93 positions are probed; only the first was never seen before.
    assert_eq!(f.hits, 92);
    assert_eq!(f.len, 100);
    assert_eq!(f.hist.counts[0], 100);
    let f = scratch.scan_features(&[1, 2, 3]);
    assert_eq!((f.hits, f.len), (0, 3));
    let distinct: Vec<u8> = (0..=255).collect();
    assert_eq!(scratch.scan_features(&distinct).hits, 0);
}

#[test]
fn literals_and_matches_stay_in_bounds() {
    let chunk: Vec<u8> = (0..60_000u32)
        .flat_map(|i| ((i * 7919) % 3001).to_le_bytes())
        .collect();
    for level in [1, 3, 6, 12, 19] {
        let blocks = replay(&chunk, level);
        for b in &blocks {
            assert!(b.total_match_len >= 4 * b.nb_seq as u64);
            assert_eq!(b.literals.counts.iter().sum::<u64>(), b.total_lit_len);
        }
        for v in 0..=255u8 {
            let literal: u64 = blocks.iter().map(|b| b.literals.counts[v as usize]).sum();
            assert!(literal <= chunk.iter().filter(|&&c| c == v).count() as u64);
        }
    }
}

#[test]
fn traces_list_every_sequence() {
    let mut tables = ParseTables::default();
    let zeros = trace_blocks(&[0u8; 1000], &params_for(1), &mut tables);
    assert_eq!(zeros.len(), 1);
    assert_eq!((zeros[0].start, zeros[0].lit_len), (2, 2));
    assert_eq!((zeros[0].match_len, zeros[0].offset), (997, 1));
    assert_eq!(zeros[0].rep, [1, 4, 8]);

    let chunk: Vec<u8> = b"INSERT INTO table VALUES (1, 'foo');\n".repeat(8192);
    for level in [1, 3, 6, 10] {
        let trace = trace_blocks(&chunk, &params_for(level), &mut tables);
        let blocks = replay(&chunk, level);
        assert_eq!(trace.len() as u32, blocks.iter().map(|b| b.nb_seq).sum::<u32>());
        for t in &trace {
            let (at, off) = (t.start, t.offset as usize);
            let repeats = (0..t.match_len).all(|i| chunk[at + i] == chunk[at + i - off]);
            assert!(repeats, "level {level}");
        }
    }
}
