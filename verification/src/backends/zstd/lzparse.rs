//! The parse emulator: zstd's three parser loops (`zstd_fast.c`,
//! `zstd_double_fast.c`, `zstd_lazy.c` in hash-chain mode, with bt* levels
//! mapped onto the lazy loop at `1 << searchLog` attempts). Each level's parse
//! is replayed over the sample with zstd's own control flow (same hash
//! functions, same insertion points, same repcode state machine, same gain
//! heuristics), but with all entropy coding replaced by per-128KiB-block
//! statistics that feed the RFC 8878 cost model. No data is compressed.
//!
//! The one approximation: bt* strategies really use binary-tree match finding
//! (and btopt/btultra* an optimal parser); the lazy loop with deep chains
//! approximates them, and the anchor calibration absorbs residual bias.

use super::decode::decode_blocks;
use super::dfast::{parse_dfast, replay_dfast, Heads};
use super::dfast_laws::lemma_dfast_to_the_end;
use super::fast::{parse_fast, replay_fast};
use super::fast_laws::lemma_fast_to_the_end;
use super::laws::{
    chained, last_end, lemma_finish_right, newest, repeats, sequences_of, settled, stretched, told,
    well_placed,
};
use super::lazy::{parse_lazy, replay_lazy};
use super::lazy_laws::{lemma_lazy_misses_nothing, lemma_lazy_to_the_end, nothing_at};
use super::levels::{lookahead, LevelParams, Strategy};
use super::parse::{
    block_count, block_end, finish, initial_parse, lemma_finish_blocks, trace_of, Block, Parse,
    Recorder,
};
use super::tables::{reset_table, scene_of, usable, Frame, Tables, TAIL_MARGIN};
use super::totals::{
    block_bytes, lemma_block_totals, lemma_literals_within, lemma_parse_covers,
    lemma_streams_add_up, literals_counted, recorded_bytes, stats_of, sum_u32,
};
use super::words::{agree_run, hash_at, lemma_bit_len_bound, same4, zhash};
use crate::stats::{lemma_occurrences_bound, occurrences, sum_u64, Histogram};
use vstd::arithmetic::power2::{
    lemma2_to64, lemma_pow2_pos, lemma_pow2_strictly_increases, pow2,
};
use vstd::bits::lemma_u64_shl_is_mul;
use vstd::prelude::*;

pub use super::codes::{ll_code, ml_code};
pub use super::parse::{ParseStats, Traced, MAX_CHUNK, ZSTD_BLOCK};
pub use super::tables::ParseTables;

verus! {

/// Bits of the table that the feature scan uses.
pub const FLOG: u32 = 17;

/// How deep a strategy of the lazy family looks before it takes a match.
pub open spec fn put_off_depth(strategy: Strategy) -> nat {
    match strategy {
        Strategy::Greedy => 0,
        Strategy::Lazy => 1,
        _ => 2,
    }
}

/// Whether a chunk is too short to be searched: it is all literals.
pub open spec fn unsearched(s: Seq<u8>) -> bool {
    s.len() <= TAIL_MARGIN + 8
}

/// A level's parse of a chunk, up to its last match.
pub open spec fn parsed(s: Seq<u8>, params: LevelParams) -> Parse {
    let sc = scene_of(s, params);
    if unsearched(s) {
        initial_parse()
    } else {
        match params.strategy {
            Strategy::Fast => parse_fast(sc, params.target_len, initial_parse()).1,
            Strategy::Dfast => parse_dfast(sc, initial_parse()).1,
            _ => parse_lazy(
                sc,
                put_off_depth(params.strategy),
                pow2(params.search_log as nat),
                initial_parse(),
            ).1,
        }
    }
}

/// The blocks of a level's parse of a chunk.
pub open spec fn parsed_blocks(s: Seq<u8>, params: LevelParams) -> Seq<Block> {
    finish(s, parsed(s, params))
}

/// What the tables hold after a level's parse of a chunk. Each strategy
/// leaves the tables that it does not use as they were.
pub open spec fn tables_after(s: Seq<u8>, params: LevelParams, before: Tables) -> Tables {
    let sc = scene_of(s, params);
    if unsearched(s) {
        before
    } else {
        match params.strategy {
            Strategy::Fast => Tables {
                head: parse_fast(sc, params.target_len, initial_parse()).0,
                ..before
            },
            Strategy::Dfast => {
                let heads = parse_dfast(sc, initial_parse()).0;
                Tables { head: heads.short, head2: heads.long, ..before }
            },
            _ => {
                let chains = parse_lazy(
                    sc,
                    put_off_depth(params.strategy),
                    pow2(params.search_log as nat),
                    initial_parse(),
                ).0;
                Tables { head: chains.head, prev: chains.prev, next: chains.next, ..before }
            },
        }
    }
}

/// Whether a level's parse of a chunk of `n` bytes can be replayed: positions
/// fit the tables, and, where the chunk is searched, the logs that the
/// strategy uses are those of tables and counts that a machine can hold.
pub open spec fn replayable(params: LevelParams, n: nat) -> bool {
    &&& n <= MAX_CHUNK
    &&& n > TAIL_MARGIN + 8 ==> {
        &&& usable(params, n)
        &&& params.strategy is Dfast ==> params.chain_log >= 1
        &&& !(params.strategy is Fast || params.strategy is Dfast) ==> params.search_log < 64
    }
}

/// Whatever the level, a parse records matches that start and end where they
/// have to, takes every repeat of the second offset right behind a match, puts
/// every sequence into the block in which it begins, and searches the chunk to
/// its end. For the lazy family the last is seen in the
/// cursor of the chains, which stays at the position that was searched last:
/// the next one, a byte later and one more for every 256 literals, is no more
/// than eight bytes before the end. For the other two it is seen in the tables,
/// which hold every position that had to be searched behind the last match.
pub proof fn lemma_parse_to_the_end(s: Seq<u8>, params: LevelParams, before: Tables)
    requires
        replayable(params, s.len()),
        s.len() > 16,
    ensures
        ({
            let p = parsed(s, params);
            let sc = scene_of(s, params);
            let after = tables_after(s, params, before);
            &&& stretched(s, p.steps)
            &&& chained(s, sc.window, p.steps)
            &&& settled(s, sc.window, p)
            &&& told(sequences_of(parsed_blocks(s, params)), p.steps)
            &&& forall|i: int|
                0 <= i < parsed_blocks(s, params).len() - 1 ==> #[trigger] well_placed(
                    parsed_blocks(s, params),
                    i,
                )
            &&& match params.strategy {
                Strategy::Fast => super::fast_laws::searched_out(
                    sc,
                    if params.target_len == 0 {
                        2
                    } else {
                        params.target_len + 1
                    },
                    after.head,
                    p,
                ),
                Strategy::Dfast => super::dfast_laws::searched_out(
                    sc,
                    Heads { short: after.head, long: after.head2 },
                    p,
                ),
                _ => {
                    ||| p.lit_start >= s.len() - 8
                    ||| p.lit_start <= after.next && after.next + (after.next - p.lit_start) / 256
                        + 1 >= s.len() - 8
                },
            }
        }),
{
    let sc = scene_of(s, params);
    lemma_scene_bits(s, params);
    match params.strategy {
        Strategy::Fast => {
            lemma_fast_to_the_end(sc, params.target_len);
        },
        Strategy::Dfast => {
            lemma_dfast_to_the_end(sc);
        },
        _ => {
            lemma_lazy_to_the_end(
                sc,
                put_off_depth(params.strategy),
                pow2(params.search_log as nat),
            );
        },
    }
    lemma_finish_right(s, parsed(s, params));
}

/// A level of the lazy family passes over nothing that one of the newest
/// `2^search_log` positions with the same hash repeats: behind the last match of
/// a chunk that is short enough not to be skipped through, none of the next 256
/// positions does, up to eight bytes before the end.
pub proof fn lemma_parse_misses_nothing(s: Seq<u8>, params: LevelParams)
    requires
        replayable(params, s.len()),
        16 < s.len() <= 2056,
        !(params.strategy is Fast || params.strategy is Dfast),
    ensures
        ({
            let p = parsed(s, params);
            let from = last_end(p.steps);
            forall|q: int|
                from <= q < from + 256 && q < s.len() - 8 ==> #[trigger] nothing_at(
                    scene_of(s, params),
                    pow2(params.search_log as nat),
                    p.rep.first,
                    q,
                )
        }),
{
    lemma_scene_bits(s, params);
    lemma_pow2_pos(params.search_log as nat);
    lemma_lazy_misses_nothing(
        scene_of(s, params),
        put_off_depth(params.strategy),
        pow2(params.search_log as nat),
    );
}

/// No table of a chunk has more than 32 bits.
proof fn lemma_scene_bits(s: Seq<u8>, params: LevelParams)
    requires
        s.len() <= MAX_CHUNK,
    ensures
        scene_of(s, params).hlog <= 32,
        scene_of(s, params).clog <= 31,
{
    lemma2_to64();
    lemma_bit_len_bound(64, 31);
    lemma_bit_len_bound(s.len(), 31);
}

/// Replay one level's parse over `chunk`: the statistics of its blocks and, where
/// it is traced, its sequences as they were found.
pub(crate) fn replay(
    chunk: &[u8],
    params: &LevelParams,
    tables: &mut ParseTables,
    tracing: bool,
) -> (res: (Vec<ParseStats>, Vec<Traced>))
    requires
        replayable(*params, chunk@.len()),
    ensures
        stats_of(res.0@, parsed_blocks(chunk@, *params)),
        tracing ==> trace_of(res.1@, parsed(chunk@, *params).steps),
        parsed(chunk@, *params).ok(chunk@),
        decode_blocks(parsed_blocks(chunk@, *params)).out == chunk@,
        decode_blocks(parsed_blocks(chunk@, *params)).reach <= pow2(params.window_log as nat),
        final(tables)@ == tables_after(chunk@, *params, old(tables)@),
{
    let n: usize = chunk.len();
    let ghost sc = scene_of(chunk@, *params);
    let mut rec = Recorder::new(chunk, tracing, Ghost(sc.window));
    if n > TAIL_MARGIN + 8 {
        let fr = Frame::new(chunk, params);
        match params.strategy {
            Strategy::Fast => {
                replay_fast(&fr, &mut rec, &mut tables.head, params.target_len, Ghost(sc));
            },
            Strategy::Dfast => {
                replay_dfast(&fr, &mut rec, &mut tables.head, &mut tables.head2, Ghost(sc));
            },
            _ => {
                let depth: u32 = match params.strategy {
                    Strategy::Greedy => 0,
                    Strategy::Lazy => 1,
                    _ => 2,
                };
                proof {
                    lemma2_to64();
                    lemma_pow2_strictly_increases(params.search_log as nat, 64);
                    lemma_u64_shl_is_mul(1, params.search_log as u64);
                }
                let nb_attempts: u64 = 1u64 << params.search_log;
                replay_lazy(&fr, &mut rec, tables, depth, nb_attempts, Ghost(sc));
            },
        }
    }
    rec.finish()
}

/// Replay one level's parse over `chunk`, leaving one [`ParseStats`] per
/// 128 KiB block in `blocks`.
pub fn replay_blocks(
    chunk: &[u8],
    params: &LevelParams,
    blocks: &mut Vec<ParseStats>,
    tables: &mut ParseTables,
)
    requires
        replayable(*params, chunk@.len()),
    ensures
        stats_of(final(blocks)@, parsed_blocks(chunk@, *params)),
        decode_blocks(parsed_blocks(chunk@, *params)).out == chunk@,
        decode_blocks(parsed_blocks(chunk@, *params)).reach <= pow2(params.window_log as nat),
        final(blocks)@.len() == block_count(chunk@.len()),
        recorded_bytes(final(blocks)@) == chunk@.len(),
        block_bytes(final(blocks)@) == chunk@.len(),
        forall|i: int|
            0 <= i < final(blocks)@.len() ==> {
                let b = #[trigger] final(blocks)@[i];
                &&& b.chunk_len == block_end(chunk@.len(), ZSTD_BLOCK * i) - ZSTD_BLOCK * i
                &&& sum_u32(b.ll_codes@) == b.nb_seq
                &&& sum_u32(b.ml_codes@) == b.nb_seq
                &&& sum_u32(b.off_codes@) == b.nb_seq
                &&& b.literals.total == b.total_lit_len
                &&& sum_u64(b.literals.counts@) == b.total_lit_len
                &&& b.total_match_len >= 4 * b.nb_seq
            },
        forall|v: u8| #[trigger]
            literals_counted(final(blocks)@, v) <= occurrences(chunk@, v),
        final(tables)@ == tables_after(chunk@, *params, old(tables)@),
{
    let (stats, _) = replay(chunk, params, tables, false);
    *blocks = stats;
    proof {
        let p = parsed(chunk@, *params);
        let parts = finish(chunk@, p);
        lemma_finish_blocks(chunk@, p);
        lemma_parse_covers(chunk@, p, blocks@);
        assert forall|i: int| 0 <= i < blocks@.len() implies {
            let b = #[trigger] blocks@[i];
            &&& b.chunk_len == block_end(chunk@.len(), ZSTD_BLOCK * i) - ZSTD_BLOCK * i
            &&& sum_u32(b.ll_codes@) == b.nb_seq
            &&& sum_u32(b.ml_codes@) == b.nb_seq
            &&& sum_u32(b.off_codes@) == b.nb_seq
            &&& b.literals.total == b.total_lit_len
            &&& sum_u64(b.literals.counts@) == b.total_lit_len
            &&& b.total_match_len >= 4 * b.nb_seq
        } by {
            assert(blocks@[i].of(parts[i]));
            lemma_streams_add_up(blocks@[i], parts[i]);
            lemma_block_totals(blocks@[i], parts[i]);
        }
        assert forall|v: u8| #[trigger] literals_counted(blocks@, v) <= occurrences(chunk@, v) by {
            lemma_literals_within(blocks@, parts, v);
        }
    }
}

/// Replay one level's parse over `chunk` for a trace: every sequence as it is
/// found, in order.
pub fn trace_blocks(chunk: &[u8], params: &LevelParams, tables: &mut ParseTables) -> (res: Vec<
    Traced,
>)
    requires
        replayable(*params, chunk@.len()),
    ensures
        trace_of(res@, parsed(chunk@, *params).steps),
        final(tables)@ == tables_after(chunk@, *params, old(tables)@),
{
    let (_, trace) = replay(chunk, params, tables, true);
    trace
}

/// Cheap data features from a single dense head-only probe pass.
pub struct Features {
    pub hist: Histogram,
    /// Positions whose 4-byte hash hits a verifying match.
    pub hits: u64,
    pub len: usize,
}

impl Clone for Features {
    fn clone(&self) -> (res: Self)
        ensures
            res == *self,
    {
        Features { hist: self.hist.clone(), hits: self.hits, len: self.len }
    }
}

/// The last position before `k` whose four bytes have the hash `h`, -1 if
/// there is none.
pub open spec fn last_with(s: Seq<u8>, h: nat, k: nat) -> int
    decreases k,
{
    if k == 0 {
        -1
    } else if hash_at(s, k - 1, 4, FLOG as nat) == h {
        k - 1
    } else {
        last_with(s, h, (k - 1) as nat)
    }
}

/// Whether the last position before `i` with the hash of `i` holds the same
/// four bytes.
pub open spec fn feature_hit(s: Seq<u8>, i: int) -> bool {
    let cand = last_with(s, hash_at(s, i, 4, FLOG as nat), i as nat);
    cand >= 0 && agree_run(s, cand, i, 4)
}

/// How many of the first `k` positions are hits.
pub open spec fn feature_hits(s: Seq<u8>, k: nat) -> nat
    decreases k,
{
    if k == 0 {
        0
    } else {
        feature_hits(s, (k - 1) as nat) + if feature_hit(s, k - 1) {
            1nat
        } else {
            0nat
        }
    }
}

/// Number of positions that the feature scan probes: those with eight bytes
/// before the end of the chunk.
pub open spec fn probed_positions(n: nat) -> nat {
    if n >= 8 {
        (n - 7) as nat
    } else {
        0
    }
}

proof fn lemma_last_with_before(s: Seq<u8>, h: nat, k: nat)
    ensures
        -1 <= last_with(s, h, k) < k,
    decreases k,
{
    if k > 0 {
        lemma_last_with_before(s, h, (k - 1) as nat);
    }
}

/// Reusable buffer for [`FeatureScratch::scan_features`].
pub struct FeatureScratch {
    pub head: Vec<i32>,
}

impl Default for FeatureScratch {
    fn default() -> (res: Self)
        ensures
            res.head@.len() == 0,
    {
        FeatureScratch { head: Vec::new() }
    }
}

impl FeatureScratch {
    /// A scratch that holds nothing.
    pub fn new() -> (res: Self)
        ensures
            res.head@.len() == 0,
    {
        FeatureScratch { head: Vec::new() }
    }

    /// Count the bytes of a chunk, and the positions whose four bytes were
    /// seen before at the last position with the same hash.
    pub fn scan_features(&mut self, chunk: &[u8]) -> (res: Features)
        requires
            chunk@.len() <= MAX_CHUNK,
        ensures
            res.hist.of(chunk@),
            res.hits == feature_hits(chunk@, probed_positions(chunk@.len())),
            res.hits <= probed_positions(chunk@.len()),
            res.len == chunk@.len(),
            chunk@.len() < 8 ==> final(self).head@ == old(self).head@,
            chunk@.len() >= 8 ==> final(self).head@ == Seq::new(
                pow2(FLOG as nat),
                |h: int| last_with(chunk@, h as nat, (chunk@.len() - 7) as nat) as i32,
            ),
    {
        let n: usize = chunk.len();
        let mut hist: Histogram = Histogram::default();
        proof {
            assert forall|x: u8| #[trigger]
                hist.counts@[x as int] + occurrences(chunk@, x) <= u64::MAX by {
                lemma_occurrences_bound(chunk@, x);
                assert(hist.counts@[x as int] == occurrences(Seq::empty(), x));
            }
        }
        hist.add(chunk);
        proof {
            assert(Seq::<u8>::empty() + chunk@ =~= chunk@);
            lemma2_to64();
        }
        let mut hits: u64 = 0;
        if n >= 8 {
            reset_table(&mut self.head, FLOG);
            let count: usize = n - 7;
            let mut i: usize = 0;
            while i < count
                invariant
                    n == chunk@.len(),
                    8 <= n <= MAX_CHUNK,
                    count == n - 7,
                    i <= count,
                    pow2(FLOG as nat) == 131072,
                    self.head@.len() == pow2(FLOG as nat),
                    forall|h: int|
                        0 <= h < 131072 ==> #[trigger] self.head@[h] == last_with(
                            chunk@,
                            h as nat,
                            i as nat,
                        ),
                    hits == feature_hits(chunk@, i as nat),
                    hits <= i,
                decreases count - i,
            {
                let h: usize = zhash(chunk, i, 4, FLOG);
                let cand: i32 = self.head[h];
                proof {
                    lemma_last_with_before(chunk@, h as nat, i as nat);
                }
                let ghost before = self.head@;
                self.head[h] = i as i32;
                if cand >= 0 && same4(chunk, cand as usize, i) {
                    hits = hits + 1;
                }
                proof {
                    assert forall|g: int| 0 <= g < 131072 implies #[trigger] self.head@[g]
                        == last_with(chunk@, g as nat, (i + 1) as nat) by {
                        assert(before[g] == last_with(chunk@, g as nat, i as nat));
                    }
                }
                i = i + 1;
            }
            proof {
                assert(self.head@ =~= Seq::new(
                    pow2(FLOG as nat),
                    |g: int| last_with(chunk@, g as nat, (n - 7) as nat) as i32,
                ));
            }
        }
        Features { hist, hits, len: n }
    }
}

/// The parse of a level looks ahead as far as its strategy does.
pub proof fn lemma_put_off_depth(strategy: Strategy)
    requires
        !(strategy is Fast || strategy is Dfast),
    ensures
        put_off_depth(strategy) == lookahead(strategy),
{
}

proof fn lemma_last_is_newest(s: Seq<u8>, h: nat, k: nat)
    ensures
        last_with(s, h, k) == newest(s, 4, 17, h, k as int),
    decreases k,
{
    if k > 0 {
        lemma_last_is_newest(s, h, (k - 1) as nat);
    }
}

/// The hits of a scan are the positions whose four bytes the newest position
/// with the same hash of 17 bits repeats; every position with eight bytes up to
/// the end is looked at.
pub proof fn lemma_hits_are_repeats(s: Seq<u8>, k: nat)
    ensures
        feature_hits(s, k) == Seq::new(k, |i: int| i).filter(
            |i: int| repeats(s, 4, 17, i as nat, i),
        ).len(),
        s.len() >= 8 ==> probed_positions(s.len()) == s.len() - 7,
        s.len() < 8 ==> probed_positions(s.len()) == 0,
    decreases k,
{
    reveal(Seq::filter);
    let all = Seq::new(k, |i: int| i);
    if k > 0 {
        lemma_hits_are_repeats(s, (k - 1) as nat);
        assert(all.drop_last() =~= Seq::new((k - 1) as nat, |i: int| i));
        let q = k - 1;
        lemma_last_is_newest(s, hash_at(s, q, 4, FLOG as nat), q as nat);
    }
}

} // verus!
