//! The zstd backend: SCOPE (Sampled COst-model Parse Emulation). zstd's
//! fast/dfast/lazy parse loops are replayed on a chunk, priced per 128 KiB
//! block with an RFC 8878 Huffman/FSE cost model, and calibrated by span
//! anchors.

pub mod anchor;
pub mod codes;
pub mod cost;
pub mod decode;
pub mod dfast;
pub mod dfast_laws;
pub mod fast;
pub mod fast_laws;
pub mod huffman;
pub mod huffman_laws;
pub mod laws;
pub mod lazy;
pub mod lazy_laws;
pub mod levels;
pub mod lzparse;
pub mod parse;
pub mod tables;
pub mod totals;
pub mod words;

use crate::assemble::joined;
use crate::backend::{Calibration, SpanSample};
use anchor::{real_fraction, zstd_compressed, Fraction};
use levels::{
    clamp, clamp_level, family_of, level_family, level_params, params_for, Family, LevelParams,
    MAX_LEVEL, MIN_LEVEL,
};
use decode::decode_blocks;
use lzparse::{
    feature_hits, parsed, parsed_blocks, probed_positions, replay, replay_blocks, replayable,
    tables_after, FeatureScratch, Features, ParseStats, ParseTables, Traced, MAX_CHUNK,
};
use parse::{trace_of, Block, Step};
use tables::{head_bits, least, Tables};
use totals::stats_of;
use vstd::arithmetic::div_mod::{
    lemma_fundamental_div_mod, lemma_fundamental_div_mod_converse, lemma_mod_bound,
};
use vstd::arithmetic::power2::{lemma2_to64, lemma_pow2_strictly_increases, pow2};
use vstd::bits::lemma_u64_shl_is_mul;
use vstd::prelude::*;
use vstd::slice::slice_subrange;

verus! {

/// Default span budget: bytes really compressed per anchor level.
pub const ANCHOR_BUDGET: usize = 33554432;

/// Default time budget of a throughput benchmark, in nanoseconds: 75 ms.
pub const BENCH_NANOS: u64 = 75000000;

/// Longest span that is compressed at a level of the slow bt family.
pub const BT_SPAN: u64 = 4194304;

/// Shortest span that is worth compressing.
pub const MIN_SPAN: usize = 16384;

/// Tiles of a span that are replayed, about.
pub const SPAN_TILES: usize = 16;

/// The zstd backend.
pub struct Zstd {
    /// Levels to estimate, ascending.
    pub levels: Vec<i32>,
    /// Max span bytes to really compress per anchor level during calibration.
    pub anchor_budget: usize,
    /// Time budget for each throughput microbenchmark, in nanoseconds.
    pub bench_nanos: u64,
}

impl Default for Zstd {
    /// Levels 3, 10 and 15.
    fn default() -> (res: Self)
        ensures
            res.wf(),
            res.levels@ == seq![3i32, 10, 15],
            res.anchor_budget == ANCHOR_BUDGET,
            res.bench_nanos == BENCH_NANOS,
    {
        Self::levels(&[])
    }
}

/// Whether levels ascend without repeating.
pub open spec fn strictly_ascending(levels: Seq<i32>) -> bool {
    forall|i: int, j: int| 0 <= i < j < levels.len() ==> #[trigger] levels[i] < #[trigger] levels[j]
}

/// Whether `level` is one of `asked`, clamped to the levels that exist.
pub open spec fn asked_for(asked: Seq<i32>, level: i32) -> bool {
    exists|i: int| 0 <= i < asked.len() && level == clamp_level((#[trigger] asked[i]) as int)
}

/// Whether `i` is at the edge of its strategy family: the lowest or the
/// highest of the levels that are of it.
pub open spec fn at_edge(levels: Seq<i32>, i: int) -> bool {
    let family = level_family(levels[i] as int);
    ||| i == 0
    ||| i + 1 == levels.len()
    ||| level_family(levels[i - 1] as int) != family
    ||| level_family(levels[i + 1] as int) != family
}

/// Those of the first `k` levels that are at the edge of their family.
pub open spec fn edges(levels: Seq<i32>, k: nat) -> Seq<i32>
    decreases k,
{
    if k == 0 {
        Seq::empty()
    } else if at_edge(levels, k - 1) {
        edges(levels, (k - 1) as nat).push(levels[k - 1])
    } else {
        edges(levels, (k - 1) as nat)
    }
}

impl Zstd {
    /// Whether the levels exist, ascend, and there is at least one.
    pub open spec fn wf(&self) -> bool {
        &&& self.levels@.len() >= 1
        &&& strictly_ascending(self.levels@)
        &&& forall|i: int|
            0 <= i < self.levels@.len() ==> MIN_LEVEL <= #[trigger] self.levels@[i] <= MAX_LEVEL
    }

    /// Estimate the given levels (clamped to 1..=22, sorted, deduplicated);
    /// levels 3, 10 and 15 if none is given.
    pub fn levels(levels: &[i32]) -> (res: Self)
        ensures
            res.wf(),
            levels@.len() == 0 ==> res.levels@ == seq![3i32, 10, 15],
            levels@.len() > 0 ==> forall|l: i32| #[trigger]
                res.levels@.contains(l) <==> asked_for(levels@, l),
            res.anchor_budget == ANCHOR_BUDGET,
            res.bench_nanos == BENCH_NANOS,
    {
        let n: usize = levels.len();
        let mut kept: Vec<i32> = Vec::new();
        let mut i: usize = 0;
        while i < n
            invariant
                i <= n,
                n == levels@.len(),
                strictly_ascending(kept@),
                i > 0 ==> kept@.len() >= 1,
                forall|k: int| 0 <= k < kept@.len() ==> MIN_LEVEL <= #[trigger] kept@[k] <= MAX_LEVEL,
                forall|l: i32| #[trigger]
                    kept@.contains(l) <==> asked_for(levels@.take(i as int), l),
            decreases n - i,
        {
            let level: i32 = clamp(levels[i]);
            let ghost before = kept@;
            add_level(&mut kept, level);
            proof {
                let now = levels@.take(i + 1);
                assert forall|l: i32| #[trigger] kept@.contains(l) <==> asked_for(now, l) by {
                    assert(kept@.contains(l) <==> before.contains(l) || l == level);
                    if before.contains(l) {
                        let k = choose|k: int|
                            0 <= k < i && l == clamp_level(
                                (#[trigger] levels@.take(i as int)[k]) as int,
                            );
                        assert(now[k] == levels@.take(i as int)[k]);
                    }
                    if l == level {
                        assert(now[i as int] == levels@[i as int]);
                    }
                    if asked_for(now, l) && l != level {
                        let k = choose|k: int|
                            0 <= k < now.len() && l == clamp_level((#[trigger] now[k]) as int);
                        assert(levels@.take(i as int)[k] == now[k]);
                    }
                }
                assert(kept@.contains(level));
            }
            i = i + 1;
        }
        proof {
            assert(levels@.take(n as int) =~= levels@);
        }
        if n == 0 {
            kept = Vec::new();
            kept.push(3);
            kept.push(10);
            kept.push(15);
            assert(kept@ =~= seq![3i32, 10, 15]);
        }
        Zstd { levels: kept, anchor_budget: ANCHOR_BUDGET, bench_nanos: BENCH_NANOS }
    }

    /// All levels 1..=22.
    pub fn all_levels() -> (res: Self)
        ensures
            res.wf(),
            res.levels@ == Seq::new(22, |i: int| (i + 1) as i32),
            res.anchor_budget == ANCHOR_BUDGET,
            res.bench_nanos == BENCH_NANOS,
    {
        let mut levels: Vec<i32> = Vec::new();
        let mut level: i32 = MIN_LEVEL;
        while level <= MAX_LEVEL
            invariant
                MIN_LEVEL <= level <= MAX_LEVEL + 1,
                levels@ =~= Seq::new((level - 1) as nat, |i: int| (i + 1) as i32),
            decreases MAX_LEVEL + 1 - level,
        {
            levels.push(level);
            level = level + 1;
        }
        Zstd { levels, anchor_budget: ANCHOR_BUDGET, bench_nanos: BENCH_NANOS }
    }

    /// Override the anchor span budget in bytes (0 disables calibration).
    /// This caps the contiguous span really compressed per anchor level.
    pub fn anchor_budget(self, bytes: usize) -> (res: Self)
        ensures
            res == (Zstd { anchor_budget: bytes, ..self }),
    {
        Zstd { levels: self.levels, anchor_budget: bytes, bench_nanos: self.bench_nanos }
    }

    /// Override the per-level throughput-benchmark time budget.
    pub fn bench_time(self, nanos: u64) -> (res: Self)
        ensures
            res == (Zstd { bench_nanos: nanos, ..self }),
    {
        Zstd { levels: self.levels, anchor_budget: self.anchor_budget, bench_nanos: nanos }
    }
}

/// Add a level to ascending ones, unless it is there.
fn add_level(levels: &mut Vec<i32>, level: i32)
    requires
        strictly_ascending(old(levels)@),
        MIN_LEVEL <= level <= MAX_LEVEL,
        forall|k: int|
            0 <= k < old(levels)@.len() ==> MIN_LEVEL <= #[trigger] old(levels)@[k] <= MAX_LEVEL,
    ensures
        strictly_ascending(final(levels)@),
        final(levels)@.len() >= 1,
        forall|k: int|
            0 <= k < final(levels)@.len() ==> MIN_LEVEL <= #[trigger] final(levels)@[k] <= MAX_LEVEL,
        forall|l: i32| #[trigger]
            final(levels)@.contains(l) <==> old(levels)@.contains(l) || l == level,
{
    let mut k: usize = levels.len();
    while k > 0 && levels[k - 1] >= level
        invariant
            levels@ == old(levels)@,
            k <= levels@.len(),
            forall|j: int| k <= j < levels@.len() ==> #[trigger] levels@[j] >= level,
        decreases k,
    {
        k = k - 1;
    }
    if k < levels.len() && levels[k] == level {
        assert(levels@.contains(level)) by {
            assert(levels@[k as int] == level);
        }
        return ;
    }
    let ghost before = levels@;
    levels.insert(k, level);
    proof {
        let now = levels@;
        assert(now[k as int] == level);
        assert forall|i: int, j: int| 0 <= i < j < now.len() implies #[trigger] now[i]
            < #[trigger] now[j] by {
            if i < k && k <= j {
                assert(k > 0 && before[k - 1] < level);
                if i < k - 1 {
                    assert(before[i] < before[k - 1]);
                }
            }
            if i == k {
                assert(now[j] == before[j - 1]);
                assert(before[j - 1] >= level);
                assert(before[k as int] >= level);
                if j - 1 > k {
                    assert(before[k as int] < before[j - 1]);
                }
            }
            if i > k {
                assert(now[i] == before[i - 1] && now[j] == before[j - 1]);
            }
        }
        assert forall|l: i32| #[trigger] now.contains(l) <==> before.contains(l) || l == level by {
            if before.contains(l) {
                let t = choose|t: int| 0 <= t < before.len() && before[t] == l;
                if t < k {
                    assert(now[t] == l);
                } else {
                    assert(now[t + 1] == l);
                }
            }
            if now.contains(l) && l != level {
                let t = choose|t: int| 0 <= t < now.len() && now[t] == l;
                if t < k {
                    assert(before[t] == l);
                } else {
                    assert(before[t - 1] == l);
                }
            }
        }
    }
}

/// Every level's parse can be replayed on any chunk whose positions fit the
/// tables.
pub proof fn lemma_levels_replayable(level: int, n: nat)
    requires
        n <= MAX_CHUNK,
    ensures
        replayable(level_params(level), n),
{
    lemma2_to64();
    let bits = head_bits(level_params(level), n);
    if bits < 32 {
        lemma_pow2_strictly_increases(bits, 32);
    }
}

/// Whether anchors of the same family lie on both sides of a level.
pub open spec fn bracketed(anchors: Seq<i32>, level: i32) -> bool {
    exists|a: i32, b: i32|
        {
            &&& #[trigger] anchors.contains(a)
            &&& #[trigger] anchors.contains(b)
            &&& a <= level <= b
            &&& level_family(a as int) == level_family(level as int)
            &&& level_family(b as int) == level_family(level as int)
        }
}

proof fn lemma_edge_kept(levels: Seq<i32>, i: int, k: nat)
    requires
        0 <= i < k <= levels.len(),
        at_edge(levels, i),
    ensures
        edges(levels, k).contains(levels[i]),
    decreases k,
{
    let now = edges(levels, k);
    if i == k - 1 {
        assert(now[now.len() - 1] == levels[i]);
    } else {
        lemma_edge_kept(levels, i, (k - 1) as nat);
        let before = edges(levels, (k - 1) as nat);
        let t = choose|t: int| 0 <= t < before.len() && before[t] == levels[i];
        assert(now[t] == levels[i]);
    }
}

proof fn lemma_edge_below(levels: Seq<i32>, i: int) -> (j: int)
    requires
        strictly_ascending(levels),
        0 <= i < levels.len(),
    ensures
        0 <= j <= i,
        at_edge(levels, j),
        levels[j] <= levels[i],
        level_family(levels[j] as int) == level_family(levels[i] as int),
    decreases i,
{
    if at_edge(levels, i) {
        i
    } else {
        assert(levels[i - 1] < levels[i]);
        lemma_edge_below(levels, i - 1)
    }
}

proof fn lemma_edge_above(levels: Seq<i32>, i: int) -> (j: int)
    requires
        strictly_ascending(levels),
        0 <= i < levels.len(),
    ensures
        i <= j < levels.len(),
        at_edge(levels, j),
        levels[i] <= levels[j],
        level_family(levels[j] as int) == level_family(levels[i] as int),
    decreases levels.len() - i,
{
    if at_edge(levels, i) {
        i
    } else {
        assert(levels[i] < levels[i + 1]);
        lemma_edge_above(levels, i + 1)
    }
}

/// Every level is bracketed by anchors of its own family.
pub proof fn lemma_levels_bracketed(levels: Seq<i32>, i: int)
    requires
        strictly_ascending(levels),
        0 <= i < levels.len(),
    ensures
        bracketed(edges(levels, levels.len()), levels[i]),
{
    let a = lemma_edge_below(levels, i);
    let b = lemma_edge_above(levels, i);
    lemma_edge_kept(levels, a, levels.len());
    lemma_edge_kept(levels, b, levels.len());
    assert(edges(levels, levels.len()).contains(levels[a]));
    assert(edges(levels, levels.len()).contains(levels[b]));
}

/// Span bytes wanted for anchoring one level: 8 times its window (4 times for
/// the bt family, and no more than 4 MiB), within the budget.
pub open spec fn wanted_span(budget: nat, level: int) -> nat {
    let window = pow2(level_params(level).window_log as nat);
    if level_family(level) == Family::Bt {
        least(least(4 * window, budget), BT_SPAN as nat)
    } else {
        least(8 * window, budget)
    }
}

/// The longest span wanted by any of the first `k` levels.
pub open spec fn widest_span(budget: nat, levels: Seq<i32>, k: nat) -> nat
    decreases k,
{
    if k == 0 {
        0
    } else {
        let before = widest_span(budget, levels, (k - 1) as nat);
        let want = wanted_span(budget, levels[k - 1] as int);
        if want > before {
            want
        } else {
            before
        }
    }
}

/// The tile `i` of some bytes.
pub open spec fn tile_at(s: Seq<u8>, tile: nat, i: int) -> Seq<u8> {
    let end = (i + 1) * tile;
    s.subrange(
        i * tile,
        if end < s.len() {
            end
        } else {
            s.len() as int
        },
    )
}

/// The blocks of every `step`-th of the first `k` tiles, each parsed on its
/// own.
pub open spec fn tiled_blocks(
    s: Seq<u8>,
    params: LevelParams,
    tile: nat,
    step: nat,
    k: nat,
) -> Seq<Block>
    decreases k,
{
    if k == 0 {
        Seq::empty()
    } else {
        let before = tiled_blocks(s, params, tile, step, (k - 1) as nat);
        if (k - 1) as nat % step == 0 {
            before + parsed_blocks(tile_at(s, tile, k - 1), params)
        } else {
            before
        }
    }
}

/// The sequences of every `step`-th of the first `k` tiles, each parsed on its
/// own, as they are found.
pub open spec fn tiled_steps(
    s: Seq<u8>,
    params: LevelParams,
    tile: nat,
    step: nat,
    k: nat,
) -> Seq<Step>
    decreases k,
{
    if k == 0 {
        Seq::empty()
    } else {
        let before = tiled_steps(s, params, tile, step, (k - 1) as nat);
        if (k - 1) as nat % step == 0 {
            before + parsed(tile_at(s, tile, k - 1), params).steps
        } else {
            before
        }
    }
}

/// How many tiles there are between two that are replayed.
pub open spec fn tile_step(n_tiles: nat) -> nat {
    if n_tiles / SPAN_TILES as nat == 0 {
        1
    } else {
        n_tiles / SPAN_TILES as nat
    }
}

/// How many tiles some bytes have.
pub open spec fn tiles_in(len: nat, tile: nat) -> nat {
    if len % tile == 0 {
        len / tile
    } else {
        len / tile + 1
    }
}

/// The blocks that a cold replay of a span gives.
pub open spec fn span_blocks(s: Seq<u8>, params: LevelParams, chunk_len: nat) -> Seq<Block> {
    let tile = if chunk_len == 0 {
        1
    } else {
        chunk_len
    };
    let n = tiles_in(s.len(), tile);
    tiled_blocks(s, params, tile, tile_step(n), n)
}

/// The sequences that a cold replay of a span finds.
pub open spec fn span_steps(s: Seq<u8>, params: LevelParams, chunk_len: nat) -> Seq<Step> {
    let tile = if chunk_len == 0 {
        1
    } else {
        chunk_len
    };
    let n = tiles_in(s.len(), tile);
    tiled_steps(s, params, tile, tile_step(n), n)
}

/// What one anchor level gave: the real compressed fraction of a span, and the
/// statistics of the model's tiled-cold replay of it.
pub struct AnchorSample {
    pub measured: Fraction,
    pub blocks: Vec<ParseStats>,
}

proof fn lemma_tile_bounds(len: nat, tile: nat, i: int)
    requires
        tile >= 1,
        0 <= i < tiles_in(len, tile),
    ensures
        0 <= i * tile < len,
        (i + 1) * tile == i * tile + tile,
        i < tiles_in(len, tile) - 1 ==> (i + 1) * tile < len,
        i == tiles_in(len, tile) - 1 ==> len <= (i + 1) * tile,
{
    let q = (len / tile) as int;
    let r = (len % tile) as int;
    lemma_fundamental_div_mod(len as int, tile as int);
    lemma_mod_bound(len as int, tile as int);
    assert(len == tile * q + r);
    assert((i + 1) * tile == i * tile + tile) by (nonlinear_arith);
    assert(0 <= i * tile) by (nonlinear_arith)
        requires
            0 <= i,
            tile >= 1,
    ;
    if r == 0 {
        assert((i + 1) * tile <= tile * q) by (nonlinear_arith)
            requires
                i + 1 <= q,
                tile >= 1,
        ;
        if i < q - 1 {
            assert((i + 2) * tile <= tile * q) by (nonlinear_arith)
                requires
                    i + 2 <= q,
                    tile >= 1,
            ;
            assert((i + 2) * tile == (i + 1) * tile + tile) by (nonlinear_arith);
        } else {
            assert((i + 1) * tile == tile * q) by (nonlinear_arith)
                requires
                    i + 1 == q,
            ;
        }
    } else {
        assert(i * tile <= tile * q) by (nonlinear_arith)
            requires
                i <= q,
                tile >= 1,
        ;
        if i < q {
            assert((i + 1) * tile <= tile * q) by (nonlinear_arith)
                requires
                    i + 1 <= q,
                    tile >= 1,
            ;
        } else {
            assert(i * tile == tile * q) by (nonlinear_arith)
                requires
                    i == q,
            ;
        }
    }
}

/// The tiles of a span make up the span: put one behind the other they are the
/// span again, and all but the last are full.
pub proof fn lemma_tiles_make_up(s: Seq<u8>, tile: nat)
    requires
        tile >= 1,
    ensures
        joined(Seq::new(tiles_in(s.len(), tile), |i: int| tile_at(s, tile, i))) == s,
        forall|i: int|
            0 <= i < tiles_in(s.len(), tile) ==> 1 <= (#[trigger] tile_at(s, tile, i)).len()
                <= tile,
        forall|i: int|
            0 <= i && i + 1 < tiles_in(s.len(), tile) ==> (#[trigger] tile_at(s, tile, i)).len()
                == tile,
{
    let n = tiles_in(s.len(), tile);
    assert forall|i: int| 0 <= i < n implies 1 <= (#[trigger] tile_at(s, tile, i)).len() <= tile by {
        lemma_tile_bounds(s.len(), tile, i);
    }
    assert forall|i: int| 0 <= i && i + 1 < n implies (#[trigger] tile_at(s, tile, i)).len()
        == tile by {
        lemma_tile_bounds(s.len(), tile, i);
    }
    lemma_tiles_prefix(s, tile, n);
    lemma_fundamental_div_mod(s.len() as int, tile as int);
    lemma_mod_bound(s.len() as int, tile as int);
    if n > 0 {
        lemma_tile_bounds(s.len(), tile, n - 1);
    } else {
        assert(s.len() / tile == 0);
        assert(tile * 0 == 0) by (nonlinear_arith);
        assert(s.len() == 0);
    }
    assert(s.take(s.len() as int) =~= s);
}

proof fn lemma_tiles_prefix(s: Seq<u8>, tile: nat, k: nat)
    requires
        tile >= 1,
        k <= tiles_in(s.len(), tile),
    ensures
        joined(Seq::new(k, |i: int| tile_at(s, tile, i))) == s.take(
            if k * tile < s.len() {
                (k * tile) as int
            } else {
                s.len() as int
            },
        ),
    decreases k,
{
    let parts = Seq::new(k, |i: int| tile_at(s, tile, i));
    if k == 0 {
        assert(0 * tile == 0) by (nonlinear_arith);
        assert(joined(parts) =~= s.take(0));
    } else {
        lemma_tiles_prefix(s, tile, (k - 1) as nat);
        lemma_tile_bounds(s.len(), tile, k - 1);
        assert(parts.drop_last() =~= Seq::new((k - 1) as nat, |i: int| tile_at(s, tile, i)));
        assert(joined(parts) =~= s.take(
            if k * tile < s.len() {
                (k * tile) as int
            } else {
                s.len() as int
            },
        ));
    }
}

/// Some lists of blocks, one behind the other.
pub open spec fn flat(lists: Seq<Seq<Block>>) -> Seq<Block>
    decreases lists.len(),
{
    if lists.len() == 0 {
        Seq::empty()
    } else {
        flat(lists.drop_last()) + lists.last()
    }
}

/// The bytes of `s` from the chunk `i` on, up to the next.
pub open spec fn chunk_from(s: Seq<u8>, chunk_len: int, i: int) -> Seq<u8> {
    s.subrange(
        i * chunk_len,
        if i * chunk_len + chunk_len < s.len() {
            i * chunk_len + chunk_len
        } else {
            s.len() as int
        },
    )
}

proof fn lemma_replayed_prefix(
    s: Seq<u8>,
    params: LevelParams,
    tile: nat,
    step: nat,
    k: nat,
    count: nat,
)
    requires
        tile >= 1,
        step >= 1,
        k <= tiles_in(s.len(), tile),
        (count - 1) * step < k <= count * step || (k == 0 && count == 0),
    ensures
        tiled_blocks(s, params, tile, step, k) == flat(
            Seq::new(
                count,
                |j: int| parsed_blocks(chunk_from(s, tile as int, j * step), params),
            ),
        ),
    decreases k,
{
    let lists = Seq::new(
        count,
        |j: int| parsed_blocks(chunk_from(s, tile as int, j * step), params),
    );
    if k == 0 {
        assert(count == 0) by (nonlinear_arith)
            requires
                (count - 1) * step < 0 || count == 0,
                step >= 1,
                count >= 0,
        ;
        assert(lists =~= Seq::empty());
    } else {
        let last = count - 1;
        assert(count >= 1) by (nonlinear_arith)
            requires
                k <= count * step,
                k >= 1,
                step >= 1,
                count >= 0,
        ;
        assert(count * step == last * step + step) by (nonlinear_arith)
            requires
                last == count - 1,
        ;
        let r = (k - 1) - last * step;
        lemma_fundamental_div_mod_converse(k - 1, step as int, last, r);
        lemma_tile_bounds(s.len(), tile, k - 1);
        if r == 0 {
            assert((last - 1) * step == last * step - step) by (nonlinear_arith);
            if last == 0 {
                assert(0 * step == 0) by (nonlinear_arith);
            }
            lemma_replayed_prefix(s, params, tile, step, (k - 1) as nat, last as nat);
            assert(lists.drop_last() =~= Seq::new(
                last as nat,
                |j: int| parsed_blocks(chunk_from(s, tile as int, j * step), params),
            ));
            assert(chunk_from(s, tile as int, k - 1) =~= tile_at(s, tile, k - 1));
        } else {
            lemma_replayed_prefix(s, params, tile, step, (k - 1) as nat, count);
        }
    }
}

/// What a cold replay of a span covers: of its chunks, the first and then every
/// so many-th, so that 16 to 31 are replayed where there are that many and all
/// are where there are fewer; each is parsed on its own, in order.
pub proof fn lemma_span_is_replayed(s: Seq<u8>, params: LevelParams, chunk_len: nat)
    requires
        chunk_len >= 1,
    ensures
        ({
            let n = (s.len() + chunk_len - 1) / chunk_len as int;
            let step = if n < 32 {
                1
            } else {
                n / 16
            };
            let count = (n + step - 1) / step;
            &&& span_blocks(s, params, chunk_len) == flat(
                Seq::new(
                    count as nat,
                    |j: int|
                        parsed_blocks(chunk_from(s, chunk_len as int, j * step), params),
                ),
            )
            &&& n < 32 ==> count == n
            &&& n >= 32 ==> 16 <= count < 32
        }),
{
    let c = chunk_len as int;
    let len = s.len() as int;
    let n = (len + c - 1) / c;
    lemma_fundamental_div_mod(len, c);
    lemma_mod_bound(len, c);
    let q = len / c;
    let r = len % c;
    if r == 0 {
        assert(len + c - 1 == q * c + (c - 1)) by (nonlinear_arith)
            requires
                len == c * q + r,
                r == 0,
        ;
        lemma_fundamental_div_mod_converse(len + c - 1, c, q, c - 1);
    } else {
        assert(len + c - 1 == (q + 1) * c + (r - 1)) by (nonlinear_arith)
            requires
                len == c * q + r,
        ;
        lemma_fundamental_div_mod_converse(len + c - 1, c, q + 1, r - 1);
    }
    assert(n == tiles_in(s.len(), chunk_len));
    let step = if n < 32 {
        1
    } else {
        n / 16
    };
    assert(step == tile_step(n as nat));
    let count = (n + step - 1) / step;
    lemma_fundamental_div_mod(n + step - 1, step);
    lemma_mod_bound(n + step - 1, step);
    assert(count * step == step * count) by (nonlinear_arith);
    assert((count - 1) * step == count * step - step) by (nonlinear_arith);
    if n >= 32 {
        assert(16 <= count < 32) by (nonlinear_arith)
            requires
                16 * step <= n < 16 * step + 16,
                step >= 2,
                (count - 1) * step < n <= count * step,
        ;
    }
    assert(count >= 0) by (nonlinear_arith)
        requires
            n >= 0,
            n <= count * step,
            step >= 1,
    ;
    if n == 0 {
        assert(count == 0) by (nonlinear_arith)
            requires
                (count - 1) * step < 0,
                count >= 0,
                step >= 1,
        ;
    }
    lemma_replayed_prefix(s, params, chunk_len, step as nat, n as nat, count as nat);
    assert(Seq::new(
        count as nat,
        |j: int| parsed_blocks(chunk_from(s, chunk_len as int, j * step), params),
    ) =~= Seq::new(
        count as nat,
        |j: int| parsed_blocks(chunk_from(s, chunk_len as int, j * (step as nat)), params),
    ));
}

/// Whether the parse of every `step`-th of the first `k` tiles decodes to the
/// tile.
pub open spec fn tiles_decode(s: Seq<u8>, params: LevelParams, tile: nat, step: nat, k: nat) -> bool {
    forall|j: int|
        0 <= j < k && j % step as int == 0 ==> decode_blocks(
            parsed_blocks(#[trigger] tile_at(s, tile, j), params),
        ).out == tile_at(s, tile, j)
}

/// Replay a span cold, tile by tile: a deterministic subset of its tiles,
/// spread across it, is as informative as all of them and much cheaper.
pub fn tiled_replay(bytes: &[u8], level: i32, chunk_len: usize) -> (res: Vec<ParseStats>)
    requires
        bytes@.len() <= MAX_CHUNK || chunk_len <= MAX_CHUNK,
    ensures
        stats_of(
            res@,
            span_blocks(bytes@, level_params(level as int), chunk_len as nat),
        ),
        chunk_len >= 1 ==> tiles_decode(
            bytes@,
            level_params(level as int),
            chunk_len as nat,
            tile_step(tiles_in(bytes@.len(), chunk_len as nat)),
            tiles_in(bytes@.len(), chunk_len as nat),
        ),
{
    let (stats, _) = replay_tiles(bytes, level, chunk_len, false);
    stats
}

/// Replay a span cold for a trace: every sequence of the tiles that are
/// replayed, as it is found.
pub fn tiled_trace(bytes: &[u8], level: i32, chunk_len: usize) -> (res: Vec<Traced>)
    requires
        bytes@.len() <= MAX_CHUNK || chunk_len <= MAX_CHUNK,
    ensures
        trace_of(res@, span_steps(bytes@, level_params(level as int), chunk_len as nat)),
{
    let (_, trace) = replay_tiles(bytes, level, chunk_len, true);
    trace
}

/// Replay the tiles of a span: the statistics of their blocks and, where they are
/// traced, their sequences as they are found.
fn replay_tiles(bytes: &[u8], level: i32, chunk_len: usize, tracing: bool) -> (res: (
    Vec<ParseStats>,
    Vec<Traced>,
))
    requires
        bytes@.len() <= MAX_CHUNK || chunk_len <= MAX_CHUNK,
    ensures
        stats_of(
            res.0@,
            span_blocks(bytes@, level_params(level as int), chunk_len as nat),
        ),
        tracing ==> trace_of(
            res.1@,
            span_steps(bytes@, level_params(level as int), chunk_len as nat),
        ),
        chunk_len >= 1 ==> tiles_decode(
            bytes@,
            level_params(level as int),
            chunk_len as nat,
            tile_step(tiles_in(bytes@.len(), chunk_len as nat)),
            tiles_in(bytes@.len(), chunk_len as nat),
        ),
{
    let params: LevelParams = params_for(level);
    let tile: usize = if chunk_len == 0 {
        1
    } else {
        chunk_len
    };
    let len: usize = bytes.len();
    proof {
        let q = len as int / tile as int;
        lemma_fundamental_div_mod(len as int, tile as int);
        assert(q <= tile * q) by (nonlinear_arith)
            requires
                tile >= 1,
                q >= 0,
        ;
    }
    let n: usize = if len % tile == 0 {
        len / tile
    } else {
        len / tile + 1
    };
    let step: usize = if n / SPAN_TILES == 0 {
        1
    } else {
        n / SPAN_TILES
    };
    let mut tables: ParseTables = ParseTables::default();
    let mut res: Vec<ParseStats> = Vec::new();
    let mut trace: Vec<Traced> = Vec::new();
    let mut i: usize = 0;
    let mut start: usize = 0;
    while i < n
        invariant
            bytes@.len() <= MAX_CHUNK || tile <= MAX_CHUNK,
            params == level_params(level as int),
            len == bytes@.len(),
            1 <= tile,
            1 <= step,
            n == tiles_in(len as nat, tile as nat),
            i <= n,
            i < n ==> start == i * tile,
            tiles_decode(bytes@, params, tile as nat, step as nat, i as nat),
            stats_of(
                res@,
                tiled_blocks(bytes@, params, tile as nat, step as nat, i as nat),
            ),
            tracing ==> trace_of(
                trace@,
                tiled_steps(bytes@, params, tile as nat, step as nat, i as nat),
            ),
        decreases n - i,
    {
        proof {
            lemma_tile_bounds(len as nat, tile as nat, i as int);
        }
        let end: usize = if tile < len - start {
            start + tile
        } else {
            len
        };
        if i % step == 0 {
            let t = slice_subrange(bytes, start, end);
            proof {
                lemma_levels_replayable(level as int, t@.len());
                assert(t@ =~= tile_at(bytes@, tile as nat, i as int));
            }
            let (mut part, mut found): (Vec<ParseStats>, Vec<Traced>) = replay(
                t,
                &params,
                &mut tables,
                tracing,
            );
            let ghost before = res@;
            let ghost added = part@;
            let ghost traced = trace@;
            let ghost more = found@;
            res.append(&mut part);
            trace.append(&mut found);
            proof {
                let a = tiled_blocks(bytes@, params, tile as nat, step as nat, i as nat);
                let b = parsed_blocks(t@, params);
                assert(res@ =~= before + added);
                assert forall|k: int| 0 <= k < res@.len() implies (#[trigger] res@[k]).of(
                    (a + b)[k],
                ) by {
                    if k < before.len() {
                        assert(before[k].of(a[k]));
                    } else {
                        assert(added[k - before.len()].of(b[k - before.len()]));
                    }
                }
                if tracing {
                    let c = tiled_steps(bytes@, params, tile as nat, step as nat, i as nat);
                    let d = parsed(t@, params).steps;
                    assert(trace@ =~= traced + more);
                    assert forall|k: int| 0 <= k < trace@.len() implies (#[trigger] trace@[k]).of(
                        (c + d)[k],
                    ) by {
                        if k < traced.len() {
                            assert(traced[k].of(c[k]));
                        } else {
                            assert(more[k - traced.len()].of(d[k - traced.len()]));
                        }
                    }
                }
            }
        }
        start = end;
        i = i + 1;
    }
    (res, trace)
}

/// What an anchor level gives, once it is known what fraction of the bytes real
/// compression left: that fraction with the model's replay of the same bytes,
/// or nothing where the bytes could not be compressed.
pub fn sample_given(
    measured: Option<Fraction>,
    used: &[u8],
    level: i32,
    chunk_len: usize,
) -> (res: Option<AnchorSample>)
    requires
        used@.len() <= MAX_CHUNK || chunk_len <= MAX_CHUNK,
    ensures
        match measured {
            Some(fraction) => {
                &&& res matches Some(sample)
                &&& sample.measured == fraction
                &&& stats_of(
                    sample.blocks@,
                    span_blocks(used@, level_params(level as int), chunk_len as nat),
                )
            },
            None => res is None,
        },
{
    match measured {
        None => None,
        Some(fraction) => Some(
            AnchorSample { measured: fraction, blocks: tiled_replay(used, level, chunk_len) },
        ),
    }
}

/// The features of a chunk, and the statistics of its blocks at each level.
pub struct ChunkStats {
    pub features: Features,
    /// One list of blocks per requested level.
    pub blocks: Vec<Vec<ParseStats>>,
}

/// What the parse tables hold after the first `k` levels were replayed.
pub open spec fn tables_after_levels(s: Seq<u8>, levels: Seq<i32>, before: Tables, k: nat) -> Tables
    decreases k,
{
    if k == 0 {
        before
    } else {
        tables_after(
            s,
            level_params(levels[k - 1] as int),
            tables_after_levels(s, levels, before, (k - 1) as nat),
        )
    }
}

impl Zstd {
    /// Levels at which the span is really compressed: the lowest and highest
    /// requested level of each strategy family (history effects are shared
    /// within a family but can differ in sign across families).
    pub fn anchor_levels(&self) -> (res: Vec<i32>)
        requires
            self.wf(),
        ensures
            res@ == edges(self.levels@, self.levels@.len()),
            forall|i: int|
                0 <= i < self.levels@.len() ==> bracketed(res@, #[trigger] self.levels@[i]),
    {
        let n: usize = self.levels.len();
        let mut res: Vec<i32> = Vec::new();
        let mut i: usize = 0;
        while i < n
            invariant
                i <= n,
                n == self.levels@.len(),
                res@ == edges(self.levels@, i as nat),
            decreases n - i,
        {
            let family: Family = family_of(self.levels[i]);
            if i == 0 || i + 1 == n || family_of(self.levels[i - 1]) != family || family_of(
                self.levels[i + 1],
            ) != family {
                res.push(self.levels[i]);
            }
            i = i + 1;
        }
        proof {
            assert forall|k: int| 0 <= k < self.levels@.len() implies bracketed(
                res@,
                #[trigger] self.levels@[k],
            ) by {
                lemma_levels_bracketed(self.levels@, k);
            }
        }
        res
    }

    /// Span bytes wanted for anchoring one level: about 8 times the level's
    /// window, so that the real span compression reaches the warm steady
    /// state, hard capped for the slow bt family and by the budget.
    pub fn span_want(&self, level: i32) -> (res: usize)
        ensures
            res == wanted_span(self.anchor_budget as nat, level as int),
            res <= self.anchor_budget,
    {
        let params: LevelParams = params_for(level);
        let bt: bool = family_of(level) == Family::Bt;
        proof {
            lemma2_to64();
            lemma_pow2_strictly_increases(params.window_log as nat, 32);
            lemma_u64_shl_is_mul(1, params.window_log as u64);
        }
        let window: u64 = 1u64 << params.window_log;
        let ideal: u64 = if bt {
            4 * window
        } else {
            8 * window
        };
        let budget: u64 = self.anchor_budget as u64;
        let mut want: u64 = if ideal < budget {
            ideal
        } else {
            budget
        };
        if bt && BT_SPAN < want {
            want = BT_SPAN;
        }
        want as usize
    }

    /// How many contiguous source bytes are wanted for span calibration (0 =
    /// no span anchoring): as many as the most demanding anchor level wants,
    /// but no more than there are.
    pub fn anchor_span_len(&self, total_len: u64) -> (res: usize)
        requires
            self.wf(),
        ensures
            res == least(
                widest_span(
                    self.anchor_budget as nat,
                    edges(self.levels@, self.levels@.len()),
                    edges(self.levels@, self.levels@.len()).len(),
                ),
                total_len as nat,
            ),
            res <= total_len,
            self.anchor_budget == 0 ==> res == 0,
    {
        let anchors: Vec<i32> = self.anchor_levels();
        let mut want: usize = 0;
        let mut i: usize = 0;
        while i < anchors.len()
            invariant
                i <= anchors@.len(),
                want == widest_span(self.anchor_budget as nat, anchors@, i as nat),
                want <= self.anchor_budget,
            decreases anchors@.len() - i,
        {
            let w: usize = self.span_want(anchors[i]);
            if w > want {
                want = w;
            }
            i = i + 1;
        }
        if (want as u64) < total_len {
            want
        } else {
            total_len as usize
        }
    }

    /// The span that calibration may use: one of at least 16 KiB, if
    /// calibration is enabled and has a budget.
    pub fn usable_span<'a, 'b>(&self, cal: &'b Calibration<'a>) -> (res: Option<&'b SpanSample<'a>>)
        ensures
            res == match cal.span {
                Some(span) => if cal.enabled && self.anchor_budget > 0 && span.bytes@.len()
                    >= MIN_SPAN {
                    Some(&span)
                } else {
                    None
                },
                None => None,
            },
    {
        match &cal.span {
            Some(span) => {
                if cal.enabled && self.anchor_budget > 0 && span.bytes.len() >= MIN_SPAN {
                    Some(span)
                } else {
                    None
                }
            },
            None => None,
        }
    }

    /// How much of a span one anchor level uses: a prefix sized to its own
    /// window, so cheap levels stay cheap.
    pub open spec fn span_used(&self, span: Seq<u8>, level: int) -> Seq<u8> {
        span.take(least(wanted_span(self.anchor_budget as nat, level), span.len()) as int)
    }

    /// Really compress the span's prefix at an anchor level, and replay the
    /// model's parse of the same bytes.
    pub fn anchor_sample(&self, span: &SpanSample, level: i32) -> (res: Option<AnchorSample>)
        requires
            span.bytes@.len() <= MAX_CHUNK || span.chunk_len <= MAX_CHUNK,
            span.bytes@.len() + span.bytes@.len() / 256 + 64 <= isize::MAX,
        ensures
            self.span_used(span.bytes@, level as int).len() == 0 ==> res is None,
            res matches Some(sample) ==> {
                let used = self.span_used(span.bytes@, level as int);
                &&& sample.measured.part == zstd_compressed(used, level as int).len()
                &&& sample.measured.whole == used.len()
                &&& stats_of(
                    sample.blocks@,
                    span_blocks(used, level_params(level as int), span.chunk_len as nat),
                )
            },
    {
        let len: usize = span.bytes.len();
        let budgeted: usize = self.span_want(level);
        let want: usize = if budgeted < len {
            budgeted
        } else {
            len
        };
        let used = slice_subrange(span.bytes, 0, want);
        proof {
            assert(used@ =~= self.span_used(span.bytes@, level as int));
        }
        sample_given(real_fraction(used, level), used, level, span.chunk_len)
    }

    /// Analyze one sampled chunk without compressing it: its features, and
    /// the statistics of its parse at each requested level.
    pub fn analyze_chunk(
        &self,
        chunk: &[u8],
        scratch: &mut FeatureScratch,
        tables: &mut ParseTables,
    ) -> (res: ChunkStats)
        requires
            chunk@.len() <= MAX_CHUNK,
        ensures
            res.features.hist.of(chunk@),
            res.features.hits == feature_hits(chunk@, probed_positions(chunk@.len())),
            res.features.len == chunk@.len(),
            res.blocks@.len() == self.levels@.len(),
            forall|i: int|
                0 <= i < res.blocks@.len() ==> stats_of(
                    (#[trigger] res.blocks@[i])@,
                    parsed_blocks(chunk@, level_params(self.levels@[i] as int)),
                ),
            final(tables)@ == tables_after_levels(
                chunk@,
                self.levels@,
                old(tables)@,
                self.levels@.len(),
            ),
    {
        let features: Features = scratch.scan_features(chunk);
        let n: usize = self.levels.len();
        let mut blocks: Vec<Vec<ParseStats>> = Vec::new();
        let mut i: usize = 0;
        while i < n
            invariant
                chunk@.len() <= MAX_CHUNK,
                i <= n,
                n == self.levels@.len(),
                blocks@.len() == i,
                forall|k: int|
                    0 <= k < i ==> stats_of(
                        (#[trigger] blocks@[k])@,
                        parsed_blocks(chunk@, level_params(self.levels@[k] as int)),
                    ),
                tables@ == tables_after_levels(chunk@, self.levels@, old(tables)@, i as nat),
            decreases n - i,
        {
            let level: i32 = self.levels[i];
            let params: LevelParams = params_for(level);
            proof {
                lemma_levels_replayable(level as int, chunk@.len());
            }
            let mut stats: Vec<ParseStats> = Vec::new();
            replay_blocks(chunk, &params, &mut stats, tables);
            blocks.push(stats);
            i = i + 1;
        }
        ChunkStats { features, blocks }
    }
}

/// Most bytes that a throughput benchmark compresses at a level: slow levels
/// stay cheap.
pub open spec fn bench_bytes(level: int) -> nat {
    if level >= 19 {
        0x10_0000
    } else if level >= 13 {
        0x40_0000
    } else if level >= 7 {
        0xC0_0000
    } else {
        0x180_0000
    }
}

/// Longest slice that a benchmark compresses at once. Levels up to 15 use long
/// contiguous slices: small inputs make zstd clamp its match tables and stay
/// cache-hot. bt levels are so slow that a 1 MiB cold slice already reflects
/// their whole-file speed.
pub open spec fn bench_slice(level: int) -> nat {
    if level >= 16 {
        0x10_0000
    } else {
        0x200_0000
    }
}

/// How long a benchmark of the slowest levels may compress, in nanoseconds.
pub const SLOW_BENCH_NANOS: u64 = 500000000;

/// Most bytes that a throughput benchmark compresses at a level.
pub fn bench_byte_cap(level: i32) -> (res: u64)
    ensures
        res == bench_bytes(level as int),
{
    if level >= 19 {
        0x10_0000
    } else if level >= 13 {
        0x40_0000
    } else if level >= 7 {
        0xC0_0000
    } else {
        0x180_0000
    }
}

/// Longest slice that a benchmark compresses at once at a level.
pub fn bench_slice_cap(level: i32) -> (res: usize)
    ensures
        res == bench_slice(level as int),
{
    if level >= 16 {
        0x10_0000
    } else {
        0x200_0000
    }
}

/// A throughput benchmark in progress: bytes that were compressed, and the
/// time that it took, in nanoseconds.
pub struct Bench {
    pub level: i32,
    pub total_bytes: u64,
    pub busy_nanos: u64,
    /// Number of slices that were compressed.
    pub slices: usize,
}

impl Bench {
    /// A benchmark that has not compressed anything yet.
    pub fn new(level: i32) -> (res: Self)
        ensures
            res == (Bench { level, total_bytes: 0, busy_nanos: 0, slices: 0 }),
    {
        Bench { level, total_bytes: 0, busy_nanos: 0, slices: 0 }
    }

    /// The next slice to compress: which of the inputs, in turn, and how many
    /// of its bytes.
    pub fn next_slice(&self, inputs: &[&[u8]]) -> (res: (usize, usize))
        requires
            inputs@.len() > 0,
        ensures
            res.0 == self.slices as nat % inputs@.len(),
            res.1 == least(inputs@[res.0 as int]@.len(), bench_slice(self.level as int)),
    {
        let i: usize = self.slices % inputs.len();
        let len: usize = inputs[i].len();
        let cap: usize = bench_slice_cap(self.level);
        (
            i,
            if len < cap {
                len
            } else {
                cap
            },
        )
    }

    /// Record that a slice of `len` bytes took `nanos` to compress, `elapsed`
    /// after the benchmark began. Tells whether the benchmark is over: it
    /// compressed enough, its time is up, or a slow level took too long.
    pub fn record(&mut self, len: usize, nanos: u64, elapsed: u64, bench_nanos: u64) -> (done: bool)
        requires
            old(self).total_bytes + len <= u64::MAX,
            old(self).busy_nanos + nanos <= u64::MAX,
            old(self).slices < usize::MAX,
        ensures
            *final(self) == (Bench {
                level: old(self).level,
                total_bytes: (old(self).total_bytes + len) as u64,
                busy_nanos: (old(self).busy_nanos + nanos) as u64,
                slices: (old(self).slices + 1) as usize,
            }),
            done <==> {
                ||| final(self).total_bytes >= bench_bytes(old(self).level as int)
                ||| elapsed >= bench_nanos
                ||| final(self).busy_nanos >= SLOW_BENCH_NANOS && old(self).level >= 19
            },
    {
        self.total_bytes = self.total_bytes + len as u64;
        self.busy_nanos = self.busy_nanos + nanos;
        self.slices = self.slices + 1;
        self.total_bytes >= bench_byte_cap(self.level) || elapsed >= bench_nanos || (self.busy_nanos
            >= SLOW_BENCH_NANOS && self.level >= 19)
    }
}

/// The longest slice that a benchmark will compress.
pub fn longest_slice(inputs: &[&[u8]], level: i32) -> (res: usize)
    ensures
        forall|i: int|
            0 <= i < inputs@.len() ==> least(
                (#[trigger] inputs@[i])@.len(),
                bench_slice(level as int),
            ) <= res,
        inputs@.len() == 0 ==> res == 0,
        inputs@.len() > 0 ==> exists|i: int|
            0 <= i < inputs@.len() && res == least(
                (#[trigger] inputs@[i])@.len(),
                bench_slice(level as int),
            ),
{
    let cap: usize = bench_slice_cap(level);
    let mut res: usize = 0;
    let mut i: usize = 0;
    while i < inputs.len()
        invariant
            cap == bench_slice(level as int),
            i <= inputs@.len(),
            forall|k: int|
                0 <= k < i ==> least(
                    (#[trigger] inputs@[k])@.len(),
                    bench_slice(level as int),
                ) <= res,
            i == 0 ==> res == 0,
            i > 0 ==> exists|k: int|
                0 <= k < i && res == least(
                    (#[trigger] inputs@[k])@.len(),
                    bench_slice(level as int),
                ),
        decreases inputs@.len() - i,
    {
        let len: usize = inputs[i].len();
        let slice: usize = if len < cap {
            len
        } else {
            cap
        };
        assert(slice == least(inputs@[i as int]@.len(), bench_slice(level as int)));
        if slice > res || i == 0 {
            res = slice;
        }
        i = i + 1;
    }
    res
}

proof fn lemma_edges_from(levels: Seq<i32>, k: nat, a: i32)
    requires
        strictly_ascending(levels),
        k <= levels.len(),
        edges(levels, k).contains(a),
    ensures
        exists|i: int| 0 <= i < k && at_edge(levels, i) && levels[i] == a,
    decreases k,
{
    let now = edges(levels, k);
    let t = choose|t: int| 0 <= t < now.len() && now[t] == a;
    let before = edges(levels, (k - 1) as nat);
    if at_edge(levels, k - 1) && t == now.len() - 1 {
        assert(levels[k - 1] == a);
    } else {
        assert(before[t] == a);
        lemma_edges_from(levels, (k - 1) as nat, a);
        let i = choose|i: int| 0 <= i < k - 1 && at_edge(levels, i) && levels[i] == a;
        assert(at_edge(levels, i) && levels[i] == a);
    }
}

/// No level is an anchor without need: an anchor is one of the levels, and the
/// lowest or the highest of those of its family.
pub proof fn lemma_anchors_at_edges(levels: Seq<i32>, a: i32)
    requires
        strictly_ascending(levels),
        edges(levels, levels.len()).contains(a),
    ensures
        levels.contains(a),
        ({
            let family = level_family(a as int);
            ||| forall|k: int|
                0 <= k < levels.len() && level_family((#[trigger] levels[k]) as int) == family
                    ==> a <= levels[k]
            ||| forall|k: int|
                0 <= k < levels.len() && level_family((#[trigger] levels[k]) as int) == family
                    ==> levels[k] <= a
        }),
{
    lemma_edges_from(levels, levels.len(), a);
    let i = choose|i: int| 0 <= i < levels.len() && at_edge(levels, i) && levels[i] == a;
    let family = level_family(a as int);
    if i == 0 || level_family(levels[i - 1] as int) != family {
        assert forall|k: int|
            0 <= k < levels.len() && level_family(
                (#[trigger] levels[k]) as int,
            ) == family implies a <= levels[k] by {
            if k < i {
                let below = levels[i - 1];
                assert(below < a);
                if k < i - 1 {
                    assert(levels[k] < below);
                }
                levels::lemma_levels_in_order(levels[k] as int, below as int);
                levels::lemma_levels_in_order(below as int, a as int);
            } else if k > i {
                assert(levels[i] < levels[k]);
            }
        }
    } else {
        assert forall|k: int|
            0 <= k < levels.len() && level_family(
                (#[trigger] levels[k]) as int,
            ) == family implies levels[k] <= a by {
            if k > i {
                let above = levels[i + 1];
                assert(a < above);
                if k > i + 1 {
                    assert(above < levels[k]);
                }
                levels::lemma_levels_in_order(a as int, above as int);
                levels::lemma_levels_in_order(above as int, levels[k] as int);
            } else if k < i {
                assert(levels[k] < levels[i]);
            }
        }
    }
}

/// A span is long enough for a level to reach its steady state, where the
/// budget allows it: eight windows, or for the bt family four, or 4 MiB. It is
/// never longer.
pub proof fn lemma_span_reaches_steady_state(budget: nat, level: int)
    ensures
        ({
            let span = wanted_span(budget, level);
            let window = pow2(level_params(level).window_log as nat);
            let bt = level >= 16;
            &&& span <= budget
            &&& !bt ==> span <= 8 * window && (span == budget || span == 8 * window)
            &&& bt ==> span <= 4 * window && span <= 0x40_0000 && (span == budget || span == 4
                * window || span == 0x40_0000)
        }),
{
}

/// The span of all anchors is as long as the longest that one of them wants,
/// and no longer.
pub proof fn lemma_span_for_all(budget: nat, levels: Seq<i32>, k: nat)
    requires
        k <= levels.len(),
    ensures
        forall|i: int|
            0 <= i < k ==> wanted_span(budget, (#[trigger] levels[i]) as int) <= widest_span(
                budget,
                levels,
                k,
            ),
        widest_span(budget, levels, k) == 0 || exists|i: int|
            0 <= i < k && widest_span(budget, levels, k) == wanted_span(
                budget,
                (#[trigger] levels[i]) as int,
            ),
    decreases k,
{
    if k > 0 {
        lemma_span_for_all(budget, levels, (k - 1) as nat);
        if wanted_span(budget, levels[k - 1] as int) <= widest_span(budget, levels, (k - 1) as nat)
            && widest_span(budget, levels, (k - 1) as nat) > 0 {
            let i = choose|i: int|
                0 <= i < k - 1 && widest_span(budget, levels, (k - 1) as nat) == wanted_span(
                    budget,
                    (#[trigger] levels[i]) as int,
                );
            assert(widest_span(budget, levels, k) == wanted_span(budget, levels[i] as int));
        }
    }
}

/// A higher level never compresses more for a benchmark, in all or at once; the
/// fastest get 24 MiB, in slices that hold it, and the slowest one.
pub proof fn lemma_benchmarks_shrink(a: int, b: int)
    requires
        a <= b,
    ensures
        bench_bytes(a) >= bench_bytes(b) >= 0x10_0000,
        bench_slice(a) >= bench_slice(b) >= 0x10_0000,
        bench_bytes(a) <= 0x180_0000,
        bench_bytes(a) == 0x180_0000 <==> a <= 6,
        bench_bytes(a) == 0x10_0000 <==> a >= 19,
        bench_bytes(a) == 0x40_0000 <==> 13 <= a <= 18,
        bench_bytes(a) == 0xC0_0000 <==> 7 <= a <= 12,
        bench_slice(a) == 0x200_0000 <==> a <= 15,
        bench_slice(a) == 0x10_0000 <==> a >= 16,
{
}

} // verus!
