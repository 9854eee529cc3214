//! What the statistics of a parse add up to.

use super::codes::{
    last_code, lemma_code_ranges, lemma_off_code_exact, lit_len_code, match_len_code, offset_code,
    LL_BASE, LL_EXTRA, ML_BASE, ML_EXTRA,
};
use super::decode::{decode_blocks, lemma_literals_put_out, literal_occurrences};
use super::parse::{
    block_count, block_end, covered, extra_bits, finish, lemma_finish_blocks, matched, stream_code,
    tally, tidy, Block, Parse, ParseStats, Sequence, Stream, ZSTD_BLOCK,
};
use super::words::lemma_bit_len_bound;
use crate::stats::{lemma_histogram_adds_up, occurrences, sum_u64};
use vstd::arithmetic::power2::{
    lemma2_to64, lemma_pow2_adds, lemma_pow2_strictly_increases, lemma_pow2_unfold, pow2,
};
use vstd::prelude::*;

verus! {

/// Literal and match bytes of some blocks.
pub open spec fn recorded_bytes(stats: Seq<ParseStats>) -> nat
    decreases stats.len(),
{
    if stats.len() == 0 {
        0
    } else {
        recorded_bytes(stats.drop_last()) + stats.last().total_lit_len as nat
            + stats.last().total_match_len as nat
    }
}

/// Lengths of some blocks, added up.
pub open spec fn block_bytes(stats: Seq<ParseStats>) -> nat
    decreases stats.len(),
{
    if stats.len() == 0 {
        0
    } else {
        block_bytes(stats.drop_last()) + stats.last().chunk_len as nat
    }
}

/// How often a byte was counted as a literal, over some blocks.
pub open spec fn literals_counted(stats: Seq<ParseStats>, v: u8) -> nat
    decreases stats.len(),
{
    if stats.len() == 0 {
        0
    } else {
        literals_counted(stats.drop_last(), v) + stats.last().literals.counts@[v as int] as nat
    }
}

/// Sum of some counters.
pub open spec fn sum_u32(counts: Seq<u32>) -> nat
    decreases counts.len(),
{
    if counts.len() == 0 {
        0
    } else {
        sum_u32(counts.drop_last()) + counts.last() as nat
    }
}

/// Whether statistics are those of some blocks, one for one.
pub open spec fn stats_of(stats: Seq<ParseStats>, blocks: Seq<Block>) -> bool {
    &&& stats.len() == blocks.len()
    &&& forall|i: int| 0 <= i < stats.len() ==> (#[trigger] stats[i]).of(blocks[i])
}

proof fn lemma_recorded_is_covered(stats: Seq<ParseStats>, blocks: Seq<Block>)
    requires
        stats_of(stats, blocks),
    ensures
        recorded_bytes(stats) == covered(blocks),
    decreases stats.len(),
{
    if stats.len() > 0 {
        assert(stats.last().of(blocks.last()));
        assert forall|i: int| 0 <= i < stats.drop_last().len() implies (
        #[trigger] stats.drop_last()[i]).of(blocks.drop_last()[i]) by {
            assert(stats[i].of(blocks[i]));
        }
        lemma_recorded_is_covered(stats.drop_last(), blocks.drop_last());
    }
}

proof fn lemma_block_bytes(stats: Seq<ParseStats>, n: nat)
    requires
        stats.len() <= block_count(n),
        forall|i: int| #![trigger stats[i]]
            0 <= i < stats.len() ==> stats[i].chunk_len == block_end(n, ZSTD_BLOCK * i) - ZSTD_BLOCK
                * i,
    ensures
        block_bytes(stats) == if ZSTD_BLOCK * stats.len() < n {
            ZSTD_BLOCK * stats.len()
        } else {
            n as int
        },
    decreases stats.len(),
{
    if stats.len() > 0 {
        let k = stats.len() - 1;
        assert forall|i: int| #![trigger stats.drop_last()[i]] 0 <= i < k implies stats.drop_last()[
            i
        ].chunk_len == block_end(n, ZSTD_BLOCK * i) - ZSTD_BLOCK * i by {
            assert(stats[i].chunk_len == block_end(n, ZSTD_BLOCK * i) - ZSTD_BLOCK * i);
        }
        lemma_block_bytes(stats.drop_last(), n);
        assert(stats[k].chunk_len == block_end(n, ZSTD_BLOCK * k) - ZSTD_BLOCK * k);
    }
}

/// Literal and match bytes of a finished parse cover the chunk exactly, and
/// so do the block lengths.
pub proof fn lemma_parse_covers(s: Seq<u8>, p: Parse, stats: Seq<ParseStats>)
    requires
        p.ok(s),
        stats_of(stats, finish(s, p)),
    ensures
        recorded_bytes(stats) == s.len(),
        block_bytes(stats) == s.len(),
{
    lemma_finish_blocks(s, p);
    let blocks = finish(s, p);
    lemma_recorded_is_covered(stats, blocks);
    assert forall|i: int| #![trigger stats[i]] 0 <= i < stats.len() implies stats[i].chunk_len
        == block_end(s.len(), ZSTD_BLOCK * i) - ZSTD_BLOCK * i by {
        assert(stats[i].of(blocks[i]));
    }
    lemma_block_bytes(stats, s.len());
}

/// How many sequences have a code below `k` in a stream.
spec fn codes_below(stream: Stream, sequences: Seq<Sequence>, k: nat) -> nat
    decreases sequences.len(),
{
    if sequences.len() == 0 {
        0
    } else {
        codes_below(stream, sequences.drop_last(), k) + if stream_code(stream, sequences.last())
            < k {
            1nat
        } else {
            0nat
        }
    }
}

proof fn lemma_codes_below_step(stream: Stream, sequences: Seq<Sequence>, k: nat)
    ensures
        codes_below(stream, sequences, k + 1) == codes_below(stream, sequences, k) + tally(
            stream,
            sequences,
            k,
        ),
        codes_below(stream, sequences, 0) == 0,
    decreases sequences.len(),
{
    if sequences.len() > 0 {
        lemma_codes_below_step(stream, sequences.drop_last(), k);
    }
}

proof fn lemma_codes_all_below(stream: Stream, sequences: Seq<Sequence>, k: nat)
    requires
        forall|i: int|
            0 <= i < sequences.len() ==> stream_code(stream, #[trigger] sequences[i]) < k,
    ensures
        codes_below(stream, sequences, k) == sequences.len(),
    decreases sequences.len(),
{
    if sequences.len() > 0 {
        assert(stream_code(stream, sequences[sequences.len() - 1]) < k);
        assert forall|i: int| 0 <= i < sequences.drop_last().len() implies stream_code(
            stream,
            #[trigger] sequences.drop_last()[i],
        ) < k by {
            assert(stream_code(stream, sequences[i]) < k);
        }
        lemma_codes_all_below(stream, sequences.drop_last(), k);
    }
}

proof fn lemma_counts_prefix(
    stream: Stream,
    sequences: Seq<Sequence>,
    counts: Seq<u32>,
    k: nat,
)
    requires
        k <= counts.len(),
        forall|c: int|
            0 <= c < counts.len() ==> #[trigger] counts[c] == tally(stream, sequences, c as nat),
    ensures
        sum_u32(counts.take(k as int)) == codes_below(stream, sequences, k),
    decreases k,
{
    if k == 0 {
        lemma_codes_below_step(stream, sequences, 0);
    } else {
        lemma_counts_prefix(stream, sequences, counts, (k - 1) as nat);
        lemma_codes_below_step(stream, sequences, (k - 1) as nat);
        assert(counts.take(k as int).drop_last() =~= counts.take(k - 1));
        assert(counts[k - 1] == tally(stream, sequences, (k - 1) as nat));
    }
}

/// Every sequence has one code in each of the three streams: the code counts
/// of each stream add up to the number of sequences.
pub proof fn lemma_streams_add_up(stats: ParseStats, b: Block)
    requires
        stats.of(b),
        tidy(b),
    ensures
        sum_u32(stats.ll_codes@) == stats.nb_seq,
        sum_u32(stats.ml_codes@) == stats.nb_seq,
        sum_u32(stats.off_codes@) == stats.nb_seq,
{
    lemma2_to64();
    assert forall|i: int| 0 <= i < b.sequences.len() implies {
        let q = #[trigger] b.sequences[i];
        &&& stream_code(Stream::LitLen, q) < 36
        &&& stream_code(Stream::MatchLen, q) < 53
        &&& stream_code(Stream::Offset, q) < 32
    } by {
        let q = b.sequences[i];
        lemma_code_ranges(q.lit_len, q.match_len);
        lemma_bit_len_bound(q.offset_value, 32);
    }
    lemma_codes_all_below(Stream::LitLen, b.sequences, 36);
    lemma_codes_all_below(Stream::MatchLen, b.sequences, 53);
    lemma_codes_all_below(Stream::Offset, b.sequences, 32);
    lemma_counts_prefix(Stream::LitLen, b.sequences, stats.ll_codes@, 36);
    lemma_counts_prefix(Stream::MatchLen, b.sequences, stats.ml_codes@, 53);
    lemma_counts_prefix(Stream::Offset, b.sequences, stats.off_codes@, 32);
    assert(stats.ll_codes@.take(36) =~= stats.ll_codes@);
    assert(stats.ml_codes@.take(53) =~= stats.ml_codes@);
    assert(stats.off_codes@.take(32) =~= stats.off_codes@);
}

proof fn lemma_matches_are_long(sequences: Seq<Sequence>)
    requires
        forall|i: int| 0 <= i < sequences.len() ==> (#[trigger] sequences[i]).match_len >= 4,
    ensures
        matched(sequences) >= 4 * sequences.len(),
    decreases sequences.len(),
{
    if sequences.len() > 0 {
        assert(sequences[sequences.len() - 1].match_len >= 4);
        lemma_matches_are_long(sequences.drop_last());
    }
}

/// The matches of a block take at least four bytes each, and its literal
/// counts add up to its literals.
pub proof fn lemma_block_totals(stats: ParseStats, b: Block)
    requires
        stats.of(b),
        tidy(b),
    ensures
        stats.total_match_len >= 4 * stats.nb_seq,
        stats.literals.total == stats.total_lit_len,
        sum_u64(stats.literals.counts@) == stats.total_lit_len,
{
    lemma_matches_are_long(b.sequences);
    lemma_histogram_adds_up(stats.literals, b.literals);
}

proof fn lemma_literals_counted(stats: Seq<ParseStats>, blocks: Seq<Block>, v: u8)
    requires
        stats_of(stats, blocks),
    ensures
        literals_counted(stats, v) == literal_occurrences(blocks, v),
    decreases stats.len(),
{
    if stats.len() > 0 {
        assert(stats[stats.len() - 1].of(blocks[blocks.len() - 1]));
        assert forall|i: int| 0 <= i < stats.drop_last().len() implies (
        #[trigger] stats.drop_last()[i]).of(blocks.drop_last()[i]) by {
            assert(stats[i].of(blocks[i]));
        }
        lemma_literals_counted(stats.drop_last(), blocks.drop_last(), v);
    }
}

/// No byte is counted as a literal more often than it occurs in what the
/// blocks decode to.
pub proof fn lemma_literals_within(stats: Seq<ParseStats>, blocks: Seq<Block>, v: u8)
    requires
        stats_of(stats, blocks),
        forall|i: int| 0 <= i < blocks.len() ==> tidy(#[trigger] blocks[i]),
    ensures
        literals_counted(stats, v) <= occurrences(decode_blocks(blocks).out, v),
{
    lemma_literals_counted(stats, blocks, v);
    lemma_literals_put_out(blocks, v);
}

/// How often a code occurs in a stream is how many sequences have a value that
/// the code begins no later than, and the next one does.
pub proof fn lemma_tally_counts(sequences: Seq<Sequence>, c: int)
    requires
        forall|i: int|
            0 <= i < sequences.len() ==> (#[trigger] sequences[i]).match_len >= 3
                && sequences[i].offset_value >= 1,
    ensures
        0 <= c < 36 ==> tally(Stream::LitLen, sequences, c as nat) == sequences.filter(
            |q: Sequence| LL_BASE@[c] <= q.lit_len && (c == 35 || q.lit_len < LL_BASE@[c + 1]),
        ).len(),
        0 <= c < 53 ==> tally(Stream::MatchLen, sequences, c as nat) == sequences.filter(
            |q: Sequence| ML_BASE@[c] <= q.match_len && (c == 52 || q.match_len < ML_BASE@[c + 1]),
        ).len(),
        0 <= c ==> tally(Stream::Offset, sequences, c as nat) == sequences.filter(
            |q: Sequence| pow2(c as nat) <= q.offset_value < 2 * pow2(c as nat),
        ).len(),
    decreases sequences.len(),
{
    reveal(Seq::filter);
    if sequences.len() > 0 {
        let front = sequences.drop_last();
        let q = sequences[sequences.len() - 1];
        assert forall|i: int| 0 <= i < front.len() implies (#[trigger] front[i]).match_len >= 3
            && front[i].offset_value >= 1 by {
            assert(front[i] == sequences[i]);
        }
        lemma_tally_counts(front, c);
        if 0 <= c < 36 {
            lemma_code_between(LL_BASE@, 36, q.lit_len, c);
        }
        if 0 <= c < 53 {
            lemma_code_between(ML_BASE@, 53, q.match_len, c);
        }
        if 0 <= c {
            lemma_off_code_exact(q.offset_value);
            lemma_one_power(offset_code(q.offset_value), c as nat, q.offset_value);
        }
    }
}

/// The code of a value is the one that begins no later, while the next does.
proof fn lemma_code_between(base: Seq<u32>, n: nat, v: nat, c: int)
    requires
        0 <= c < n <= base.len(),
        base[0] <= v,
        forall|i: int, j: int| 0 <= i < j < n ==> #[trigger] base[i] < #[trigger] base[j],
    ensures
        last_code(base, n, v) == c <==> base[c] <= v && (c == n - 1 || v < base[c + 1]),
    decreases n,
{
    if n > 1 && base[n - 1] > v {
        if c == n - 1 {
            lemma_last_code_below(base, (n - 1) as nat, v);
        } else {
            lemma_code_between(base, (n - 1) as nat, v, c);
        }
    } else if c < n - 1 {
        if c + 1 < n - 1 {
            assert(base[c + 1] < base[n - 1]);
        }
    }
}

proof fn lemma_last_code_below(base: Seq<u32>, n: nat, v: nat)
    requires
        n >= 1,
    ensures
        last_code(base, n, v) < n,
    decreases n,
{
    if n > 1 && base[n - 1] > v {
        lemma_last_code_below(base, (n - 1) as nat, v);
    }
}

/// A number lies between one power of two and the next.
proof fn lemma_one_power(a: nat, b: nat, v: nat)
    requires
        pow2(a) <= v < 2 * pow2(a),
    ensures
        a == b <==> pow2(b) <= v < 2 * pow2(b),
{
    if a < b {
        lemma_pow2_unfold(a + 1);
        if a + 1 < b {
            lemma_pow2_strictly_increases(a + 1, b);
        }
    } else if b < a {
        lemma_pow2_unfold(b + 1);
        if b + 1 < a {
            lemma_pow2_strictly_increases(b + 1, a);
        }
    }
}

/// The extra bits of a sequence tell it from all that have the same codes: there
/// are as many of those as that many bits can tell apart. The extra bits of
/// several sequences add up.
pub proof fn lemma_extra_bits_tell(sequences: Seq<Sequence>, q: Sequence)
    requires
        lit_len_code(q.lit_len) < 35,
        match_len_code(q.match_len) < 52,
        q.match_len >= 3,
    ensures
        extra_bits(sequences.push(q)) == extra_bits(sequences) + extra_bits(seq![q]),
        ({
            let l = lit_len_code(q.lit_len) as int;
            let m = match_len_code(q.match_len) as int;
            pow2(extra_bits(seq![q])) == (LL_BASE@[l + 1] - LL_BASE@[l]) * (ML_BASE@[m + 1]
                - ML_BASE@[m]) * pow2(offset_code(q.offset_value))
        }),
{
    let l = lit_len_code(q.lit_len) as int;
    let m = match_len_code(q.match_len) as int;
    let o = offset_code(q.offset_value);
    assert(sequences.push(q).drop_last() =~= sequences);
    assert(extra_bits(seq![q].drop_last()) == 0);
    let x = LL_EXTRA@[l] as nat;
    let y = ML_EXTRA@[m] as nat;
    assert(extra_bits(seq![q]) == x + y + o);
    lemma2_to64();
    assert(pow2(x) == LL_BASE@[l + 1] - LL_BASE@[l]);
    assert(pow2(y) == ML_BASE@[m + 1] - ML_BASE@[m]);
    lemma_pow2_adds(x, y);
    lemma_pow2_adds(x + y, o);
}

} // verus!
