//! The exact part of the zstd bit-cost model: what a block's literals cost,
//! following RFC 8878, and the format's predefined code distributions. Costs
//! are whole half-bits, since a symbol weight takes about 4.5 bits to
//! describe.

use super::huffman::{code_lengths, leaves, lemma_code_lengths};
use super::lzparse::ParseStats;
use crate::stats::sum_u64;
use vstd::arithmetic::power2::{lemma2_to64, pow2};
use vstd::prelude::*;

pub use super::huffman::huffman_lengths;

verus! {

/// Longest Huffman code of the literals section, in bits.
pub const LITERAL_CODE_LIMIT: u32 = 11;

/// Predefined literal-length distribution (accuracy log 6); -1 means less
/// than one slot.
pub const LL_PREDEF: [i32; 36] = [
    4, 3, 2, 2, 2, 2, 2, 2, 2, 2, 2, 2, 2, 1, 1, 1, 2, 2, 2, 2, 2, 2, 2, 2, 2, 3, 2, 1, 1, 1, 1, 1,
    -1, -1, -1, -1,
];

/// Predefined match-length distribution (accuracy log 6).
pub const ML_PREDEF: [i32; 53] = [
    1, 4, 3, 2, 2, 2, 2, 2, 2, 1, 1, 1, 1, 1, 1, 1, 1, 1, 1, 1, 1, 1, 1, 1, 1, 1, 1, 1, 1, 1, 1, 1,
    1, 1, 1, 1, 1, 1, 1, 1, 1, 1, 1, 1, 1, 1, -1, -1, -1, -1, -1, -1, -1,
];

/// Predefined offset distribution (accuracy log 5).
pub const OF_PREDEF: [i32; 32] = [
    1, 1, 1, 1, 1, 1, 2, 2, 2, 1, 1, 1, 1, 1, 1, 1, 1, 1, 1, 1, 1, 1, 1, 1, -1, -1, -1, -1, -1, -1,
    -1, -1,
];

/// Bits that the first `k` symbols take with codes of some lengths.
pub open spec fn coded_bits(counts: Seq<u64>, lengths: Seq<nat>, k: nat) -> nat
    decreases k,
{
    if k == 0 {
        0
    } else {
        coded_bits(counts, lengths, (k - 1) as nat) + counts[k - 1] as nat * lengths[k - 1]
    }
}

/// Half-bits that Huffman coding takes: the codes, a header byte, and 4.5
/// bits for each symbol that is present. Nothing for fewer than two symbols,
/// which are run-length coded.
pub open spec fn huffman_half_bits(counts: Seq<u64>) -> nat {
    let present = leaves(counts, counts.len()).len();
    if present <= 1 {
        0
    } else {
        2 * coded_bits(counts, code_lengths(counts, LITERAL_CODE_LIMIT as nat), counts.len()) + 16
            + 9 * present
    }
}

/// Half-bits of a literals section: a header if there are none, else the
/// cheapest of raw, run-length (one symbol only) and Huffman coding.
pub open spec fn literal_half_bits(lit_total: nat, counts: Seq<u64>) -> nat {
    let raw = 16 * lit_total + 32;
    let rle: nat = 48;
    let huff = huffman_half_bits(counts) + 48;
    let coded = if leaves(counts, counts.len()).len() == 1 && rle < huff {
        rle
    } else {
        huff
    };
    if lit_total == 0 {
        16
    } else if raw < coded {
        raw
    } else {
        coded
    }
}

proof fn lemma_coded_bits_bound(counts: Seq<u64>, lengths: Seq<nat>, k: nat)
    requires
        k <= counts.len() == lengths.len(),
        forall|i: int| 0 <= i < lengths.len() ==> #[trigger] lengths[i] <= LITERAL_CODE_LIMIT,
    ensures
        coded_bits(counts, lengths, k) <= k * 0xB_0000_0000_0000_0000,
    decreases k,
{
    if k > 0 {
        lemma_coded_bits_bound(counts, lengths, (k - 1) as nat);
        assert(lengths[k - 1] <= 11);
        let c = counts[k - 1] as nat;
        let l = lengths[k - 1];
        assert(c * l <= 0xB_0000_0000_0000_0000) by (nonlinear_arith)
            requires
                c <= 0x1_0000_0000_0000_0000,
                l <= 11,
        ;
    }
}

/// Cost in half-bits of Huffman-coding the symbols of a histogram, including
/// an estimate of the table description.
pub fn huffman_cost(counts: &[u64; 256]) -> (res: u128)
    requires
        sum_u64(counts@) <= u64::MAX,
    ensures
        res == huffman_half_bits(counts@),
        res <= u128::MAX / 2,
{
    proof {
        lemma_code_lengths(counts@, LITERAL_CODE_LIMIT as nat);
    }
    let lengths: Vec<u32> = huffman_lengths(counts.as_slice(), LITERAL_CODE_LIMIT);
    let ghost ls = code_lengths(counts@, LITERAL_CODE_LIMIT as nat);
    let mut bits: u128 = 0;
    let mut distinct: u32 = 0;
    let mut i: usize = 0;
    while i < 256
        invariant
            i <= 256,
            ls == code_lengths(counts@, LITERAL_CODE_LIMIT as nat),
            ls.len() == 256,
            lengths@.len() == 256,
            forall|k: int| 0 <= k < 256 ==> #[trigger] lengths@[k] == ls[k],
            forall|k: int|
                0 <= k < 256 ==> {
                    &&& counts@[k] == 0 ==> #[trigger] ls[k] == 0
                    &&& counts@[k] > 0 ==> 1 <= ls[k] <= 11
                },
            bits == coded_bits(counts@, ls, i as nat),
            distinct <= i,
            distinct == leaves(counts@, i as nat).len(),
        decreases 256 - i,
    {
        proof {
            assert(lengths@[i as int] == ls[i as int]);
            lemma_coded_bits_bound(counts@, ls, i as nat);
            let c = counts@[i as int];
            let l = ls[i as int];
            assert(0 <= c * l <= 0xB_0000_0000_0000_0000) by (nonlinear_arith)
                requires
                    0 <= c <= 0x1_0000_0000_0000_0000,
                    0 <= l <= 11,
            ;
            if c == 0 {
                assert(c * l == 0) by (nonlinear_arith)
                    requires
                        c == 0,
                ;
            }
        }
        let c: u64 = counts[i];
        if c > 0 {
            bits = bits + c as u128 * lengths[i] as u128;
            distinct = distinct + 1;
        }
        i = i + 1;
    }
    if distinct <= 1 {
        return 0;
    }
    proof {
        lemma_coded_bits_bound(counts@, ls, 256);
    }
    2 * bits + 16 + 9 * distinct as u128
}

/// Cost in half-bits of a block's literals section: the cheapest of raw,
/// run-length and Huffman coding.
pub fn literal_cost(stats: &ParseStats) -> (res: u128)
    requires
        sum_u64(stats.literals.counts@) <= u64::MAX,
    ensures
        res == literal_half_bits(stats.total_lit_len as nat, stats.literals.counts@),
{
    if stats.total_lit_len == 0 {
        return 16;
    }
    let raw: u128 = 16 * stats.total_lit_len as u128 + 32;
    let huff: u128 = huffman_cost(&stats.literals.counts) + 48;
    proof {
        lemma_distinct_is_leaves(stats.literals.counts@, 256);
        assert(stats.literals.counts@.take(256) =~= stats.literals.counts@);
    }
    let mut best: u128 = huff;
    if stats.literals.distinct() == 1 && 48 < best {
        best = 48;
    }
    if raw < best {
        best = raw;
    }
    best
}

/// A Huffman tree starts from one tree for each symbol that occurs.
pub proof fn lemma_distinct_is_leaves(counts: Seq<u64>, k: nat)
    requires
        k <= counts.len(),
    ensures
        counts.take(k as int).filter(|c: u64| c > 0).len() == leaves(counts, k).len(),
    decreases k,
{
    reveal(Seq::filter);
    if k > 0 {
        lemma_distinct_is_leaves(counts, (k - 1) as nat);
        assert(counts.take(k as int).drop_last() =~= counts.take(k - 1));
    }
}

/// Slots that the first `k` codes of a distribution take, a code of less than
/// one slot taking one.
pub open spec fn slots(table: Seq<i32>, k: nat) -> int
    decreases k,
{
    if k == 0 {
        0
    } else {
        slots(table, (k - 1) as nat) + if table[k - 1] < 0 {
            1
        } else {
            table[k - 1] as int
        }
    }
}

/// The predefined distributions are normalized: each fills its table, of 64,
/// 64 and 32 slots. The offset table has three more codes, beyond the 29 that
/// the format's has.
pub proof fn lemma_predefined_normalized()
    ensures
        slots(LL_PREDEF@, 36) == pow2(6),
        slots(ML_PREDEF@, 53) == pow2(6),
        slots(OF_PREDEF@, 29) == pow2(5),
{
    lemma2_to64();
    reveal_with_fuel(slots, 54);
}

/// The literals of a block are never charged more than storing them raw takes.
pub proof fn lemma_literals_at_most_raw(lit_total: nat, counts: Seq<u64>)
    ensures
        lit_total > 0 ==> literal_half_bits(lit_total, counts) <= 16 * lit_total + 32,
{
}

proof fn lemma_coded_at_least_one(counts: Seq<u64>, lengths: Seq<nat>, k: nat)
    requires
        k <= counts.len() == lengths.len(),
        forall|i: int|
            0 <= i < counts.len() && counts[i] > 0 ==> 1 <= #[trigger] lengths[i] <= 11,
    ensures
        sum_u64(counts.take(k as int)) <= coded_bits(counts, lengths, k) <= 11 * sum_u64(
            counts.take(k as int),
        ),
    decreases k,
{
    if k > 0 {
        lemma_coded_at_least_one(counts, lengths, (k - 1) as nat);
        assert(counts.take(k as int).drop_last() =~= counts.take(k - 1));
        let c = counts[k - 1] as int;
        let l = lengths[k - 1] as int;
        assert(c > 0 ==> 1 <= l <= 11);
        assert(c <= c * l <= 11 * c) by (nonlinear_arith)
            requires
                c >= 0,
                c > 0 ==> 1 <= l <= 11,
        ;
    }
}

/// Huffman coding takes from one to eleven bits per literal, and a byte and 4.5
/// bits per symbol for its table; nothing where there is only one symbol.
pub proof fn lemma_huffman_cost_range(counts: Seq<u64>)
    ensures
        ({
            let n = leaves(counts, counts.len()).len();
            let table = 16 + 9 * n;
            &&& n <= 1 ==> huffman_half_bits(counts) == 0
            &&& n >= 2 ==> 2 * sum_u64(counts) + table <= huffman_half_bits(counts) <= 22 * sum_u64(
                counts,
            ) + table
        }),
{
    let lengths = code_lengths(counts, 11);
    lemma_code_lengths(counts, 11);
    assert forall|i: int| 0 <= i < counts.len() && counts[i] > 0 implies 1
        <= #[trigger] lengths[i] <= 11 by {}
    lemma_coded_at_least_one(counts, lengths, counts.len());
    assert(counts.take(counts.len() as int) =~= counts);
}

/// Literals are charged for the cheapest way to store them: raw, at a byte
/// each; run-length coded, where they are all one symbol; or Huffman coded; each
/// with its header. Never more than any of these, and always one of them. No
/// literals take a byte.
pub proof fn lemma_literals_cheapest(lit_total: nat, counts: Seq<u64>)
    requires
        lit_total > 0 ==> leaves(counts, counts.len()).len() >= 1,
    ensures
        lit_total == 0 ==> literal_half_bits(lit_total, counts) == 16,
        lit_total > 0 ==> ({
            let charged = literal_half_bits(lit_total, counts);
            let raw = 16 * lit_total + 32;
            let other = if leaves(counts, counts.len()).len() == 1 {
                48
            } else {
                huffman_half_bits(counts) + 48
            };
            &&& charged <= raw
            &&& charged <= other
            &&& charged == raw || charged == other
        }),
{
}

} // verus!
