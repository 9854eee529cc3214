//! zstd per-level compression parameters, as in zstd 1.5.7
//! `lib/compress/clevels.h` (the `srcSize > 256 KB` bucket).

use vstd::arithmetic::power2::{lemma2_to64, lemma_pow2_strictly_increases, pow2};
use vstd::bits::lemma_u64_shl_is_mul;
use vstd::prelude::*;

verus! {

/// zstd match-finding strategy family.
#[derive(Debug, Clone, Copy, PartialEq, Eq, PartialOrd, Ord, Structural)]
pub enum Strategy {
    Fast,
    Dfast,
    Greedy,
    Lazy,
    Lazy2,
    Btlazy2,
    Btopt,
    Btultra,
    Btultra2,
}

/// zstd compression parameters for one level.
#[derive(Debug, Clone, Copy)]
pub struct LevelParams {
    pub window_log: u32,
    pub chain_log: u32,
    pub hash_log: u32,
    pub search_log: u32,
    pub min_match: u32,
    pub target_len: u32,
    pub strategy: Strategy,
}

// One column per parameter, one row per level 0..=22 (row 0 is the base row
// used for negative levels).
pub const WINDOW_LOGS: [u32; 23] = [19, 19, 20, 21, 21, 21, 21, 21, 21, 22, 22, 22, 22, 22, 22, 22, 22, 23, 23, 23, 25, 26, 27];

pub const CHAIN_LOGS: [u32; 23] = [12, 13, 15, 16, 18, 18, 18, 19, 19, 20, 21, 21, 22, 22, 22, 23, 22, 23, 23, 24, 25, 26, 27];

pub const HASH_LOGS: [u32; 23] = [13, 14, 16, 17, 18, 19, 19, 20, 20, 21, 22, 22, 23, 22, 23, 23, 22, 22, 22, 22, 23, 24, 25];

pub const SEARCH_LOGS: [u32; 23] = [1, 1, 1, 1, 1, 3, 3, 4, 4, 4, 5, 6, 6, 4, 5, 6, 5, 5, 6, 7, 7, 7, 9];

pub const MIN_MATCHES: [u32; 23] = [6, 7, 6, 5, 5, 5, 5, 5, 5, 5, 5, 5, 5, 5, 5, 5, 5, 4, 3, 3, 3, 3, 3];

pub const TARGET_LENS: [u32; 23] = [1, 0, 0, 0, 0, 2, 4, 8, 16, 16, 16, 16, 32, 32, 32, 32, 48, 64, 64, 256, 256, 512, 999];

pub const STRATEGIES: [Strategy; 23] = [
    Strategy::Fast,
    Strategy::Fast,
    Strategy::Fast,
    Strategy::Dfast,
    Strategy::Dfast,
    Strategy::Greedy,
    Strategy::Lazy,
    Strategy::Lazy,
    Strategy::Lazy2,
    Strategy::Lazy2,
    Strategy::Lazy2,
    Strategy::Lazy2,
    Strategy::Lazy2,
    Strategy::Btlazy2,
    Strategy::Btlazy2,
    Strategy::Btlazy2,
    Strategy::Btopt,
    Strategy::Btopt,
    Strategy::Btultra,
    Strategy::Btultra2,
    Strategy::Btultra2,
    Strategy::Btultra2,
    Strategy::Btultra2,
];

pub const MIN_LEVEL: i32 = 1;

pub const MAX_LEVEL: i32 = 22;

/// A level, clamped to the levels that exist.
pub open spec fn clamp_level(level: int) -> int {
    if level < MIN_LEVEL {
        MIN_LEVEL as int
    } else if level > MAX_LEVEL {
        MAX_LEVEL as int
    } else {
        level
    }
}

/// The parameters of one row of the level table.
pub open spec fn level_row(row: int) -> LevelParams {
    LevelParams {
        window_log: WINDOW_LOGS@[row],
        chain_log: CHAIN_LOGS@[row],
        hash_log: HASH_LOGS@[row],
        search_log: SEARCH_LOGS@[row],
        min_match: MIN_MATCHES@[row],
        target_len: TARGET_LENS@[row],
        strategy: STRATEGIES@[row],
    }
}

/// The parameters of a level: its row, the level clamped to those that exist.
pub open spec fn level_params(level: int) -> LevelParams {
    level_row(clamp_level(level))
}

/// Clamp a level to the levels that exist.
pub fn clamp(level: i32) -> (res: i32)
    ensures
        res == clamp_level(level as int),
        MIN_LEVEL <= res <= MAX_LEVEL,
{
    if level < MIN_LEVEL {
        MIN_LEVEL
    } else if level > MAX_LEVEL {
        MAX_LEVEL
    } else {
        level
    }
}

/// The parameters of a level.
pub fn params_for(level: i32) -> (res: LevelParams)
    ensures
        res == level_params(level as int),
{
    let row: usize = clamp(level) as usize;
    LevelParams {
        window_log: WINDOW_LOGS[row],
        chain_log: CHAIN_LOGS[row],
        hash_log: HASH_LOGS[row],
        search_log: SEARCH_LOGS[row],
        min_match: MIN_MATCHES[row],
        target_len: TARGET_LENS[row],
        strategy: STRATEGIES[row],
    }
}

/// Coarser grouping of strategies with similar deep-history behavior. The
/// whole-file history effect (deep windows, block correlations) is shared
/// within a family but can differ in sign across families, so anchor
/// calibration is fitted per family.
#[derive(Debug, Clone, Copy, PartialEq, Eq, PartialOrd, Ord, Structural)]
pub enum Family {
    Fast,
    Dfast,
    Lazy,
    Btlazy2,
    Bt,
}

/// The family that a strategy belongs to.
pub open spec fn strategy_family(strategy: Strategy) -> Family {
    match strategy {
        Strategy::Fast => Family::Fast,
        Strategy::Dfast => Family::Dfast,
        Strategy::Greedy | Strategy::Lazy | Strategy::Lazy2 => Family::Lazy,
        Strategy::Btlazy2 => Family::Btlazy2,
        Strategy::Btopt | Strategy::Btultra | Strategy::Btultra2 => Family::Bt,
    }
}

/// The family of a level.
pub open spec fn level_family(level: int) -> Family {
    strategy_family(level_params(level).strategy)
}

/// The family of a level.
pub fn family_of(level: i32) -> (res: Family)
    ensures
        res == level_family(level as int),
{
    match params_for(level).strategy {
        Strategy::Fast => Family::Fast,
        Strategy::Dfast => Family::Dfast,
        Strategy::Greedy | Strategy::Lazy | Strategy::Lazy2 => Family::Lazy,
        Strategy::Btlazy2 => Family::Btlazy2,
        _ => Family::Bt,
    }
}

/// Deepest chain-walk tier.
pub const MAX_DEPTH_TIER: usize = 6;

/// Depth of each tier.
pub const DEPTH_TIERS: [u32; 7] = [1, 2, 4, 8, 16, 32, 64];

/// How many chain candidates a strategy effectively examines relative to
/// `2^search_log`, in halves: bt* families (binary-tree search, far more
/// effective per candidate) count for more.
pub open spec fn search_halves(strategy: Strategy) -> nat {
    match strategy {
        Strategy::Fast => 1,
        Strategy::Dfast | Strategy::Greedy | Strategy::Lazy | Strategy::Lazy2 => 2,
        Strategy::Btlazy2 => 4,
        Strategy::Btopt => 8,
        Strategy::Btultra | Strategy::Btultra2 => 16,
    }
}

/// Lookahead depth of lazy parsing: 0 = greedy, 1 = lazy, 2 = lazy2/bt*.
pub open spec fn lookahead(strategy: Strategy) -> nat {
    match strategy {
        Strategy::Fast | Strategy::Dfast | Strategy::Greedy => 0,
        Strategy::Lazy => 1,
        _ => 2,
    }
}

impl Strategy {
    fn search_multiplier_halves(self) -> (res: u64)
        ensures
            res == search_halves(self),
    {
        match self {
            Strategy::Fast => 1,
            Strategy::Dfast => 2,
            Strategy::Greedy => 2,
            Strategy::Lazy | Strategy::Lazy2 => 2,
            Strategy::Btlazy2 => 4,
            Strategy::Btopt => 8,
            Strategy::Btultra => 16,
            Strategy::Btultra2 => 16,
        }
    }

    /// Lazy parsing lookahead depth: 0 = greedy, 1 = lazy, 2 = lazy2/bt*.
    pub fn lazy_depth(self) -> (res: u32)
        ensures
            res == lookahead(self),
    {
        match self {
            Strategy::Fast | Strategy::Dfast | Strategy::Greedy => 0,
            Strategy::Lazy => 1,
            Strategy::Lazy2 | Strategy::Btlazy2 => 2,
            Strategy::Btopt | Strategy::Btultra | Strategy::Btultra2 => 2,
        }
    }
}

impl LevelParams {
    /// Whether tier `t` is no deeper than the effective chain depth.
    pub open spec fn reaches_tier(&self, t: int) -> bool {
        2 * DEPTH_TIERS@[t] <= pow2(self.search_log as nat) * search_halves(self.strategy)
    }

    /// Effective chain depth for the replay, mapped onto the deepest tier that
    /// does not exceed it (never overestimate search effort).
    pub fn depth_tier(&self) -> (res: usize)
        requires
            self.search_log < 64,
        ensures
            res <= MAX_DEPTH_TIER,
            self.reaches_tier(res as int) || (res == 0 && forall|t: int|
                0 <= t <= MAX_DEPTH_TIER ==> !#[trigger] self.reaches_tier(t)),
            forall|t: int| res < t <= MAX_DEPTH_TIER ==> !#[trigger] self.reaches_tier(t),
    {
        // Past 2^7 every tier is reached, whatever the strategy.
        let log: u32 = if self.search_log < 7 {
            self.search_log
        } else {
            7
        };
        let halves: u64 = self.strategy.search_multiplier_halves();
        proof {
            lemma2_to64();
            lemma_u64_shl_is_mul(1, log as u64);
            lemma_pow2_mono(log as nat, self.search_log as nat);
        }
        let want: u64 = (1u64 << log) * halves;
        assert forall|t: int| 0 <= t <= MAX_DEPTH_TIER implies (#[trigger] self.reaches_tier(t)
            <==> 2 * DEPTH_TIERS@[t] <= want) by {
            assert(pow2(log as nat) * halves <= pow2(self.search_log as nat) * halves)
                by (nonlinear_arith)
                requires
                    pow2(log as nat) <= pow2(self.search_log as nat),
                    0 <= halves,
            ;
        }
        let mut tier: usize = 0;
        let mut t: usize = 0;
        while t <= MAX_DEPTH_TIER
            invariant
                t <= MAX_DEPTH_TIER + 1,
                tier <= MAX_DEPTH_TIER,
                t == 0 ==> tier == 0,
                t > 0 ==> tier < t,
                forall|u: int| 0 <= u <= MAX_DEPTH_TIER ==> (#[trigger] self.reaches_tier(u)
                    <==> 2 * DEPTH_TIERS@[u] <= want),
                self.reaches_tier(tier as int) || (tier == 0 && forall|u: int|
                    0 <= u < t ==> !#[trigger] self.reaches_tier(u)),
                forall|u: int| tier < u < t ==> !#[trigger] self.reaches_tier(u),
            decreases MAX_DEPTH_TIER + 1 - t,
        {
            if 2 * DEPTH_TIERS[t] as u64 <= want {
                tier = t;
            }
            t = t + 1;
        }
        tier
    }
}

proof fn lemma_pow2_mono(a: nat, b: nat)
    requires
        a <= b,
    ensures
        pow2(a) <= pow2(b),
{
    if a < b {
        lemma_pow2_strictly_increases(a, b);
    }
}

/// Within the lazy2 family, a higher level never means a shallower search.
pub proof fn lemma_depth_tiers_monotonic_in_family(a: int, b: int, t: int)
    requires
        8 <= a <= b <= 12,
        0 <= t <= MAX_DEPTH_TIER,
        level_params(a).reaches_tier(t),
    ensures
        level_params(b).reaches_tier(t),
{
    let x = level_params(a).search_log as nat;
    let y = level_params(b).search_log as nat;
    lemma_pow2_mono(x, y);
    assert(level_params(a).strategy == Strategy::Lazy2);
    assert(level_params(b).strategy == Strategy::Lazy2);
}

/// Every level has a window of at least 2^10 and at most 2^27 bytes.
pub proof fn lemma_level_windows(level: int)
    ensures
        10 <= level_params(level).window_log <= 27,
{
}

/// The place of a family among them, from the fastest to the slowest.
pub open spec fn family_rank(family: Family) -> int {
    match family {
        Family::Fast => 0,
        Family::Dfast => 1,
        Family::Lazy => 2,
        Family::Btlazy2 => 3,
        Family::Bt => 4,
    }
}

/// A higher level is never of a faster family, nor of a smaller window. So the
/// levels of one family are next to each other.
pub proof fn lemma_levels_in_order(a: int, b: int)
    requires
        a <= b,
    ensures
        family_rank(level_family(a)) <= family_rank(level_family(b)),
        level_params(a).window_log <= level_params(b).window_log,
        1 <= clamp_level(a) <= clamp_level(b) <= 22,
        1 <= a <= 22 ==> clamp_level(a) == a,
{
}

/// How far a strategy looks ahead and how many candidates count for it grow
/// with the strategy: greedy takes what it finds, lazy looks one byte ahead,
/// the others two; a strategy of the bt families counts for at least twice as
/// much as a hash chain.
pub proof fn lemma_strategies_in_order(strategy: Strategy)
    ensures
        lookahead(strategy) <= 2,
        strategy_family(strategy) == Family::Fast || strategy_family(strategy) == Family::Dfast
            || strategy == Strategy::Greedy <==> lookahead(strategy) == 0,
        strategy == Strategy::Lazy <==> lookahead(strategy) == 1,
        strategy_family(strategy) == Family::Fast <==> search_halves(strategy) == 1,
        strategy_family(strategy) == Family::Dfast || strategy_family(strategy) == Family::Lazy
            <==> search_halves(strategy) == 2,
        strategy_family(strategy) == Family::Btlazy2 <==> search_halves(strategy) == 4,
        strategy_family(strategy) == Family::Bt <==> search_halves(strategy) >= 8,
{
}

/// The tiers are the powers of two from 1 to 64: one is reached where the
/// chain's depth, `2^search_log` times what the strategy counts for, is at
/// least that.
pub proof fn lemma_tiers_are_powers(params: LevelParams, t: int)
    requires
        0 <= t <= 6,
    ensures
        params.reaches_tier(t) <==> 2 * pow2(t as nat) <= pow2(params.search_log as nat)
            * search_halves(params.strategy),
{
    lemma2_to64();
}

} // verus!
