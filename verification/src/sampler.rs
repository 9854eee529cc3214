//! Strategic sampling: stratified random sampling with Neyman allocation for
//! seekable sources, reservoir sampling for streams.

use vstd::arithmetic::div_mod::{
    lemma_fundamental_div_mod, lemma_fundamental_div_mod_converse, lemma_mod_bound,
};
use vstd::prelude::*;
use vstd::seq_lib::group_to_multiset_ensures;

verus! {

/// Small deterministic RNG (SplitMix64): sampling must be reproducible for a
/// given input size.
pub struct Rng(pub u64);

/// The state after `state`.
pub open spec fn rng_step(state: u64) -> u64 {
    state.wrapping_add(0x9E37_79B9_7F4A_7C15)
}

/// The number that a state gives.
pub open spec fn rng_mix(state: u64) -> u64 {
    let a = (state ^ (state >> 30)).wrapping_mul(0xBF58_476D_1CE4_E5B9);
    let b = (a ^ (a >> 27)).wrapping_mul(0x94D0_49BB_1331_11EB);
    b ^ (b >> 31)
}

impl Rng {
    /// An RNG that starts from a seed.
    pub fn new(seed: u64) -> (res: Self)
        ensures
            res.0 == seed,
    {
        Rng(seed)
    }

    /// The next number.
    pub fn next_u64(&mut self) -> (res: u64)
        ensures
            final(self).0 == rng_step(old(self).0),
            res == rng_mix(final(self).0),
    {
        self.0 = self.0.wrapping_add(0x9E37_79B9_7F4A_7C15);
        let mut z: u64 = self.0;
        z = (z ^ (z >> 30)).wrapping_mul(0xBF58_476D_1CE4_E5B9);
        z = (z ^ (z >> 27)).wrapping_mul(0x94D0_49BB_1331_11EB);
        z ^ (z >> 31)
    }

    /// A value in `[0, n)` for `n > 0`.
    pub fn below(&mut self, n: u64) -> (res: u64)
        requires
            n > 0,
        ensures
            final(self).0 == rng_step(old(self).0),
            res == rng_mix(final(self).0) % n,
            res < n,
    {
        self.next_u64() % n
    }
}

/// One slice of the source. It covers `len` of the sampler's total.
pub struct Stratum {
    pub start: u64,
    pub len: u64,
    /// Number of observations.
    pub count: u64,
    /// Offsets already sampled within this stratum.
    pub sampled: Vec<u64>,
}

impl Stratum {
    /// Where the stratum ends.
    pub open spec fn stop(&self) -> int {
        self.start + self.len
    }

    /// Whether nothing was observed yet.
    pub open spec fn untouched(&self) -> bool {
        self.count == 0 && self.sampled@.len() == 0
    }

    /// Where the stratum ends.
    pub fn end(&self) -> (res: u64)
        requires
            self.stop() <= u64::MAX,
        ensures
            res == self.stop(),
    {
        self.start + self.len
    }
}

/// A planned read: which stratum, at what absolute offset, how many bytes.
#[derive(Debug, Clone, Copy, PartialEq, Eq, Structural)]
pub struct Read {
    pub stratum: usize,
    pub offset: u64,
    pub len: usize,
}

/// How many reads a stratum is worth this round: the whole part, and a number
/// by which the fractions are ordered.
#[derive(Debug, Clone, Copy, PartialEq, Eq, Structural)]
pub struct Quota {
    pub stratum: usize,
    pub whole: usize,
    pub fraction: u64,
}

/// Stratified sampling plan over a seekable source.
pub struct Sampler {
    pub chunk_size: usize,
    pub strata: Vec<Stratum>,
    /// Total chunks the budget allows across all strata.
    pub chunk_budget: usize,
    /// Bytes that the strata cover.
    pub total_len: u64,
    pub sampled_total: usize,
    pub rng: Rng,
}

/// The seed for a source of some length.
pub open spec fn seed_for(total_len: u64) -> u64 {
    0xC0FF_EE11_2233_4455u64 ^ total_len
}

/// The larger of two numbers.
pub open spec fn most(a: nat, b: nat) -> nat {
    if a < b {
        b
    } else {
        a
    }
}

/// The smaller of two numbers.
pub open spec fn fewest(a: nat, b: nat) -> nat {
    if a < b {
        a
    } else {
        b
    }
}

/// How many strata a plan has: those asked for, but none smaller than a
/// chunk, and at least one.
pub open spec fn strata_count(total_len: nat, chunk_size: nat, n_strata: nat) -> nat {
    fewest(most(n_strata, 1), most(total_len / most(chunk_size, 1), 1))
}

/// Where a stratum of a plan starts, of `n` equal strata.
pub open spec fn plan_start(total_len: nat, n: nat, i: int) -> int {
    i * (total_len / n) as int
}

/// Where a stratum of a plan ends: the last one takes what is left over.
pub open spec fn plan_stop(total_len: nat, n: nat, i: int) -> int {
    if i + 1 == n {
        total_len as int
    } else {
        plan_start(total_len, n, i + 1)
    }
}

/// How many tiles cover a source, at least one.
pub open spec fn tile_count(total_len: nat, tile: nat) -> nat {
    most((total_len + tile - 1) as nat / tile, 1)
}

/// Where the tile `i` ends.
pub open spec fn tile_stop(total_len: nat, tile: nat, i: int) -> int {
    if (i + 1) * tile < total_len {
        (i + 1) * tile
    } else {
        total_len as int
    }
}

/// Whether a read at `at` would overlap none that was made.
pub open spec fn clear_of(sampled: Seq<u64>, at: int, chunk: nat) -> bool {
    forall|i: int|
        0 <= i < sampled.len() ==> {
            let p = #[trigger] sampled[i] as int;
            p - at >= chunk || at - p >= chunk
        }
}

/// How far into a stratum a read may start, at least 1.
pub open spec fn offset_range(st: Stratum, chunk: nat) -> nat {
    if st.len > chunk {
        (st.len - chunk) as nat
    } else {
        1
    }
}

/// Draw again, up to `tries` times, while the offset `off` overlaps a read
/// that was made; the offset, and the state of the RNG.
pub open spec fn settle(st: Stratum, chunk: nat, state: u64, off: nat, tries: nat) -> (nat, u64)
    decreases tries,
{
    if tries == 0 || clear_of(st.sampled@, st.start + off, chunk) {
        (off, state)
    } else {
        let next = rng_step(state);
        settle(
            st,
            chunk,
            next,
            rng_mix(next) as nat % offset_range(st, chunk),
            (tries - 1) as nat,
        )
    }
}

/// The read that is made of a stratum, and the state of the RNG after it.
pub open spec fn read_of(st: Stratum, s: int, chunk: nat, state: u64) -> (Read, u64) {
    let next = rng_step(state);
    let (off, after) = settle(
        st,
        chunk,
        next,
        rng_mix(next) as nat % offset_range(st, chunk),
        8,
    );
    (
        Read {
            stratum: s as usize,
            offset: (st.start + off) as u64,
            len: fewest(chunk, st.len as nat) as usize,
        },
        after,
    )
}

/// The reads that are made of some strata, one after the other.
pub open spec fn reads_of(strata: Seq<Stratum>, chunk: nat, picks: Seq<int>, state: u64) -> (
    Seq<Read>,
    u64,
)
    decreases picks.len(),
{
    if picks.len() == 0 {
        (Seq::empty(), state)
    } else {
        let (reads, mid) = reads_of(strata, chunk, picks.drop_last(), state);
        let s = picks.last();
        let (read, after) = read_of(strata[s], s, chunk, mid);
        (reads.push(read), after)
    }
}

/// The state of the RNG after `n` more numbers.
pub open spec fn rng_after(state: u64, n: nat) -> u64
    decreases n,
{
    if n == 0 {
        state
    } else {
        rng_after(state, (n - 1) as nat).wrapping_add(0x9E37_79B9_7F4A_7C15)
    }
}

/// The offset that the `n`-th number from here on stands for: any from the
/// start of a stratum on that leaves room for a chunk.
pub open spec fn draw(st: Stratum, chunk: nat, state: u64, n: nat) -> int {
    st.start + if st.len > chunk {
        rng_mix(rng_after(state, n)) as int % (st.len - chunk)
    } else {
        0
    }
}

/// Whether a chunk at `at` shares a byte with one that was read before.
pub open spec fn overlaps(sampled: Seq<u64>, at: int, chunk: nat) -> bool {
    exists|i: int| 0 <= i < sampled.len() && #[trigger] sampled[i] < at + chunk && at < sampled[i]
        + chunk
}

proof fn lemma_settled(st: Stratum, chunk: nat, state: u64, n: nat)
    requires
        1 <= n <= 9,
        forall|m: nat|
            1 <= m < n ==> overlaps(st.sampled@, #[trigger] draw(st, chunk, state, m), chunk),
    ensures
        ({
            let (off, after) = settle(
                st,
                chunk,
                rng_after(state, n),
                (draw(st, chunk, state, n) - st.start) as nat,
                (9 - n) as nat,
            );
            exists|k: nat|
                {
                    &&& n <= k <= 9
                    &&& st.start + off == #[trigger] draw(st, chunk, state, k)
                    &&& after == rng_after(state, k)
                    &&& k < 9 ==> !overlaps(st.sampled@, draw(st, chunk, state, k), chunk)
                    &&& forall|m: nat|
                        1 <= m < k ==> overlaps(
                            st.sampled@,
                            #[trigger] draw(st, chunk, state, m),
                            chunk,
                        )
                }
        }),
    decreases 9 - n,
{
    let at = draw(st, chunk, state, n);
    if st.len > chunk {
        lemma_mod_bound(rng_mix(rng_after(state, n)) as int, st.len - chunk);
    }
    assert(clear_of(st.sampled@, at, chunk) <==> !overlaps(st.sampled@, at, chunk)) by {
        if !clear_of(st.sampled@, at, chunk) {
            let i = choose|i: int|
                0 <= i < st.sampled@.len() && !{
                    let p = #[trigger] st.sampled@[i] as int;
                    p - at >= chunk || at - p >= chunk
                };
            assert(st.sampled@[i] < at + chunk && at < st.sampled@[i] + chunk);
        }
    }
    if n == 9 || clear_of(st.sampled@, at, chunk) {
        assert(st.start + (at - st.start) == draw(st, chunk, state, n));
    } else {
        assert(overlaps(st.sampled@, draw(st, chunk, state, n), chunk));
        if st.len > chunk {
            lemma_mod_bound(rng_mix(rng_after(state, n + 1)) as int, st.len - chunk);
        }
        lemma_settled(st, chunk, state, n + 1);
    }
}

/// Where a read of a stratum starts: at an offset that the RNG draws from the
/// whole stratum, less a chunk; the first of nine that shares no byte with an
/// earlier read, or the ninth. So a read overlaps an earlier one only if all
/// nine do. It takes a chunk, or all of a smaller stratum.
pub proof fn lemma_reads_drawn(st: Stratum, s: int, chunk: nat, state: u64)
    requires
        0 <= s <= usize::MAX,
        chunk <= usize::MAX,
        st.stop() <= u64::MAX,
    ensures
        ({
            let (read, after) = read_of(st, s, chunk, state);
            &&& read.stratum == s
            &&& read.len == if st.len > chunk {
                chunk as int
            } else {
                st.len as int
            }
            &&& exists|k: nat|
                {
                    &&& 1 <= k <= 9
                    &&& read.offset == #[trigger] draw(st, chunk, state, k)
                    &&& after == rng_after(state, k)
                    &&& k < 9 ==> !overlaps(st.sampled@, read.offset as int, chunk)
                    &&& forall|m: nat|
                        1 <= m < k ==> overlaps(
                            st.sampled@,
                            #[trigger] draw(st, chunk, state, m),
                            chunk,
                        )
                }
            &&& st.sampled@.len() == 0 && st.len > chunk ==> read.offset == st.start + rng_mix(
                state.wrapping_add(0x9E37_79B9_7F4A_7C15),
            ) as int % (st.len - chunk)
        }),
{
    reveal_with_fuel(rng_after, 2);
    assert(rng_after(state, 1) == rng_step(state));
    if st.len > chunk {
        lemma_mod_bound(rng_mix(rng_step(state)) as int, st.len - chunk);
    } else {
        assert(rng_mix(rng_step(state)) as nat % 1 == 0);
    }
    lemma_settled(st, chunk, state, 1);
    let (off, after) = settle(
        st,
        chunk,
        rng_step(state),
        (draw(st, chunk, state, 1) - st.start) as nat,
        8,
    );
    let k = choose|k: nat|
        {
            &&& 1 <= k <= 9
            &&& st.start + off == #[trigger] draw(st, chunk, state, k)
            &&& after == rng_after(state, k)
            &&& k < 9 ==> !overlaps(st.sampled@, draw(st, chunk, state, k), chunk)
            &&& forall|m: nat|
                1 <= m < k ==> overlaps(st.sampled@, #[trigger] draw(st, chunk, state, m), chunk)
        };
    if st.len > chunk {
        lemma_mod_bound(rng_mix(rng_after(state, k)) as int, st.len - chunk);
    }
    assert(read_of(st, s, chunk, state).0.offset == draw(st, chunk, state, k));
    if st.sampled@.len() == 0 {
        assert(!overlaps(st.sampled@, draw(st, chunk, state, 1), chunk));
        assert(k == 1);
    }
}

/// Whether a read lies in its stratum.
pub open spec fn inside(read: Read, strata: Seq<Stratum>) -> bool {
    &&& read.stratum < strata.len()
    &&& strata[read.stratum as int].start <= read.offset
    &&& read.offset + read.len <= strata[read.stratum as int].stop()
}

impl Sampler {
    /// Whether the strata lie where offsets can reach.
    pub open spec fn wf(&self) -> bool {
        forall|s: int|
            0 <= s < self.strata@.len() ==> (#[trigger] self.strata@[s]).stop() <= u64::MAX
    }

    /// Whether this is the plan for a source: equal strata that follow one
    /// another, the last one taking what is left over, and nothing read yet.
    pub open spec fn is_plan(
        &self,
        total_len: u64,
        budget_bytes: u64,
        chunk_size: usize,
        n_strata: usize,
    ) -> bool {
        let n = strata_count(total_len as nat, chunk_size as nat, n_strata as nat);
        &&& self.chunk_size == chunk_size
        &&& self.strata@.len() == n
        &&& forall|i: int|
            0 <= i < n ==> {
                let st = #[trigger] self.strata@[i];
                &&& st.start == plan_start(total_len as nat, n, i)
                &&& st.stop() == plan_stop(total_len as nat, n, i)
                &&& st.untouched()
            }
        &&& self.chunk_budget == budget_bytes as nat / most(chunk_size as nat, 1)
        &&& self.total_len == total_len
        &&& self.sampled_total == 0
    }

    /// Whether this is the plan that covers a source: one stratum per tile,
    /// and nothing read yet.
    pub open spec fn is_cover(&self, total_len: u64, chunk_size: usize) -> bool {
        let tile = most(chunk_size as nat, 1);
        &&& self.chunk_size == chunk_size
        &&& self.strata@.len() == tile_count(total_len as nat, tile)
        &&& forall|i: int|
            0 <= i < self.strata@.len() ==> {
                let st = #[trigger] self.strata@[i];
                &&& st.start == i * tile
                &&& st.stop() == tile_stop(total_len as nat, tile, i)
                &&& st.len <= tile
                &&& st.untouched()
            }
        &&& self.chunk_budget == self.strata@.len()
        &&& self.total_len == total_len
        &&& self.sampled_total == 0
    }

    /// Build a plan. `budget_bytes` is the total number of bytes we may read.
    pub fn plan(total_len: u64, budget_bytes: u64, chunk_size: usize, n_strata: usize) -> (res:
        Self)
        requires
            budget_bytes <= usize::MAX,
        ensures
            res.wf(),
            res.is_plan(total_len, budget_bytes, chunk_size, n_strata),
            res.chunk_budget * res.chunk_size <= budget_bytes,
            tiles(res.strata@, total_len as nat),
            res.rng.0 == seed_for(total_len),
    {
        let cs: u64 = if chunk_size < 1 {
            1
        } else {
            chunk_size as u64
        };
        let wanted: u64 = if n_strata < 1 {
            1
        } else {
            n_strata as u64
        };
        let whole: u64 = total_len / cs;
        let room: u64 = if whole < 1 {
            1
        } else {
            whole
        };
        let n: u64 = if wanted < room {
            wanted
        } else {
            room
        };
        let base: u64 = total_len / n;
        let mut strata: Vec<Stratum> = Vec::new();
        let mut start: u64 = 0;
        let mut i: u64 = 0;
        proof {
            assert(0 * (base as int) == 0) by (nonlinear_arith);
        }
        while i < n
            invariant
                n >= 1,
                base == total_len / n,
                i <= n,
                strata@.len() == i,
                i < n ==> start == plan_start(total_len as nat, n as nat, i as int),
                forall|k: int|
                    0 <= k < i ==> {
                        let st = #[trigger] strata@[k];
                        &&& st.start == plan_start(total_len as nat, n as nat, k)
                        &&& st.stop() == plan_stop(total_len as nat, n as nat, k)
                        &&& st.untouched()
                    },
            decreases n - i,
        {
            proof {
                lemma_plan_step(total_len as nat, n as nat, i as int);
            }
            let len: u64 = if i + 1 == n {
                total_len - start
            } else {
                base
            };
            strata.push(Stratum { start, len, count: 0, sampled: Vec::new() });
            start = start + len;
            i = i + 1;
        }
        let affordable: u64 = budget_bytes / cs;
        let chunk_budget: usize = affordable as usize;
        let res = Sampler {
            chunk_size,
            strata,
            chunk_budget,
            total_len,
            sampled_total: 0,
            rng: Rng::new(0xC0FF_EE11_2233_4455 ^ total_len),
        };
        proof {
            assert forall|s: int| 0 <= s < res.strata@.len() implies (
            #[trigger] res.strata@[s]).stop() <= u64::MAX by {
                lemma_plan_step(total_len as nat, n as nat, s);
            }
            lemma_plan_budget(res, total_len, budget_bytes, chunk_size, n_strata);
        }
        res
    }

    /// One read of a stratum, at a random offset. A few offsets are drawn to
    /// avoid overlapping previous reads.
    fn make_read(&mut self, s: usize) -> (res: Read)
        requires
            old(self).wf(),
            s < old(self).strata@.len(),
        ensures
            final(self).strata@ == old(self).strata@,
            final(self).chunk_size == old(self).chunk_size,
            final(self).chunk_budget == old(self).chunk_budget,
            final(self).total_len == old(self).total_len,
            final(self).sampled_total == old(self).sampled_total,
            (res, final(self).rng.0) == read_of(
                old(self).strata@[s as int],
                s as int,
                old(self).chunk_size as nat,
                old(self).rng.0,
            ),
            inside(res, old(self).strata@),
    {
        let ghost st = self.strata@[s as int];
        let ghost chunk = self.chunk_size as nat;
        assert(st.stop() <= u64::MAX);
        let cs: u64 = self.chunk_size as u64;
        let start: u64 = self.strata[s].start;
        let full: u64 = self.strata[s].len;
        let range: u64 = if full > cs {
            full - cs
        } else {
            1
        };
        let mut off: u64 = self.rng.below(range);
        let mut tries: u32 = 8;
        while tries > 0
            invariant_except_break
                settle(st, chunk, self.rng.0, off as nat, tries as nat) == settle(
                    st,
                    chunk,
                    rng_step(old(self).rng.0),
                    rng_mix(rng_step(old(self).rng.0)) as nat % offset_range(st, chunk),
                    8,
                ),
            invariant
                self.strata@ == old(self).strata@,
                self.chunk_size == old(self).chunk_size,
                self.chunk_budget == old(self).chunk_budget,
                self.total_len == old(self).total_len,
                self.sampled_total == old(self).sampled_total,
                s < self.strata@.len(),
                st == self.strata@[s as int],
                chunk == self.chunk_size,
                cs == chunk,
                st.stop() <= u64::MAX,
                start == st.start,
                full == st.len,
                range == offset_range(st, chunk),
                off < range,
            ensures
                (off as nat, self.rng.0) == settle(
                    st,
                    chunk,
                    rng_step(old(self).rng.0),
                    rng_mix(rng_step(old(self).rng.0)) as nat % offset_range(st, chunk),
                    8,
                ),
            decreases tries,
        {
            if self.is_clear(s, start + off) {
                break ;
            }
            off = self.rng.below(range);
            tries = tries - 1;
        }
        let len: usize = if full < cs {
            full as usize
        } else {
            self.chunk_size
        };
        Read { stratum: s, offset: start + off, len }
    }

    /// Whether a read at `at` would overlap none that was made.
    fn is_clear(&self, s: usize, at: u64) -> (res: bool)
        requires
            s < self.strata@.len(),
        ensures
            res == clear_of(
                self.strata@[s as int].sampled@,
                at as int,
                self.chunk_size as nat,
            ),
    {
        let cs: u64 = self.chunk_size as u64;
        let ghost sampled = self.strata@[s as int].sampled@;
        let mut i: usize = 0;
        while i < self.strata[s].sampled.len()
            invariant
                s < self.strata@.len(),
                sampled == self.strata@[s as int].sampled@,
                cs == self.chunk_size,
                i <= sampled.len(),
                forall|k: int|
                    0 <= k < i ==> {
                        let p = #[trigger] sampled[k] as int;
                        p - at >= cs || at - p >= cs
                    },
            decreases sampled.len() - i,
        {
            let p: u64 = self.strata[s].sampled[i];
            let gap: u64 = if p > at {
                p - at
            } else {
                at - p
            };
            if gap < cs {
                assert(sampled[i as int] == p);
                return false;
            }
            i = i + 1;
        }
        true
    }

    /// A sampler-shaped view over already-collected chunks (stream reservoir
    /// output): one stratum per chunk, which covers the chunk's bytes, so a
    /// short tail chunk does not get the weight of a full one.
    pub fn weighted(chunk_size: usize, chunk_lens: &[usize]) -> (res: Self)
        requires
            sum_usize(chunk_lens@) <= u64::MAX,
        ensures
            res.wf(),
            res.chunk_size == chunk_size,
            res.strata@.len() == chunk_lens@.len(),
            forall|i: int|
                0 <= i < res.strata@.len() ==> {
                    let st = #[trigger] res.strata@[i];
                    &&& st.start == 0
                    &&& st.len == chunk_lens@[i]
                    &&& st.untouched()
                },
            res.chunk_budget == chunk_lens@.len(),
            res.total_len == sum_usize(chunk_lens@),
            strata_bytes(res.strata@) == res.total_len,
            res.sampled_total == chunk_lens@.len(),
            res.rng.0 == seed_for(res.total_len),
    {
        let n: usize = chunk_lens.len();
        let mut strata: Vec<Stratum> = Vec::new();
        let mut total: u64 = 0;
        let mut i: usize = 0;
        while i < n
            invariant
                i <= n,
                n == chunk_lens@.len(),
                strata@.len() == i,
                sum_usize(chunk_lens@) <= u64::MAX,
                total == sum_usize(chunk_lens@.take(i as int)),
                strata_bytes(strata@) == total,
                forall|k: int|
                    0 <= k < i ==> {
                        let st = #[trigger] strata@[k];
                        &&& st.start == 0
                        &&& st.len == chunk_lens@[k]
                        &&& st.untouched()
                    },
            decreases n - i,
        {
            proof {
                assert(chunk_lens@.take(i + 1).drop_last() =~= chunk_lens@.take(i as int));
                lemma_sum_usize_take(chunk_lens@, (i + 1) as nat);
            }
            let len: u64 = chunk_lens[i] as u64;
            total = total + len;
            let ghost before = strata@;
            strata.push(Stratum { start: 0, len, count: 0, sampled: Vec::new() });
            proof {
                assert(strata@.drop_last() =~= before);
            }
            i = i + 1;
        }
        proof {
            assert(chunk_lens@.take(n as int) =~= chunk_lens@);
        }
        Sampler {
            chunk_size,
            strata,
            chunk_budget: n,
            total_len: total,
            sampled_total: n,
            rng: Rng::new(0xC0FF_EE11_2233_4455 ^ total),
        }
    }

    /// Deterministic full-coverage plan for inputs that fit the budget: one
    /// stratum per tile, each read exactly covering its tile, in order.
    pub fn cover(total_len: u64, chunk_size: usize) -> (res: Self)
        requires
            tile_count(total_len as nat, most(chunk_size as nat, 1)) <= usize::MAX,
        ensures
            res.wf(),
            res.is_cover(total_len, chunk_size),
            tiles(res.strata@, total_len as nat),
            res.rng.0 == seed_for(total_len),
    {
        let tile: u64 = if chunk_size < 1 {
            1
        } else {
            chunk_size as u64
        };
        let ghost count = tile_count(total_len as nat, tile as nat);
        let whole: u64 = total_len / tile;
        let spare: u64 = total_len % tile;
        proof {
            lemma_tile_count(total_len as nat, tile as nat);
        }
        let mut strata: Vec<Stratum> = Vec::new();
        let mut start: u64 = 0;
        let mut i: u64 = 0;
        proof {
            assert(0 * (tile as int) == 0) by (nonlinear_arith);
        }
        while i < whole
            invariant
                tile >= 1,
                whole == total_len / tile,
                i <= whole,
                whole <= count,
                count == tile_count(total_len as nat, tile as nat),
                strata@.len() == i,
                start == i * tile,
                forall|k: int|
                    0 <= k < i ==> {
                        let st = #[trigger] strata@[k];
                        &&& st.start == k * tile
                        &&& st.stop() == tile_stop(total_len as nat, tile as nat, k)
                        &&& st.len == tile
                        &&& st.untouched()
                    },
            decreases whole - i,
        {
            proof {
                lemma_tile_step(total_len as nat, tile as nat, i as int);
            }
            strata.push(Stratum { start, len: tile, count: 0, sampled: Vec::new() });
            start = start + tile;
            i = i + 1;
        }
        if spare > 0 || whole == 0 {
            strata.push(Stratum { start, len: spare, count: 0, sampled: Vec::new() });
        }
        let n: usize = strata.len();
        let res = Sampler {
            chunk_size,
            strata,
            chunk_budget: n,
            total_len,
            sampled_total: 0,
            rng: Rng::new(0xC0FF_EE11_2233_4455 ^ total_len),
        };
        proof {
            assert forall|k: int| 0 <= k < res.strata@.len() implies {
                let st = #[trigger] res.strata@[k];
                &&& st.start == k * tile
                &&& st.stop() == tile_stop(total_len as nat, tile as nat, k)
                &&& st.len <= tile
                &&& st.untouched()
            } by {
                if k == whole {
                    lemma_tile_last(total_len as nat, tile as nat);
                }
            }
            assert forall|k: int| 0 <= k && k + 1 < res.strata@.len() implies (
            #[trigger] res.strata@[k]).stop() == res.strata@[k + 1].start by {
                lemma_tile_last(total_len as nat, tile as nat);
                lemma_tile_step(total_len as nat, tile as nat, k);
            }
            lemma_tile_last(total_len as nat, tile as nat);
        }
        res
    }

    /// The reads that tile the whole source, one per stratum.
    pub fn cover_reads(&mut self) -> (res: Vec<Read>)
        requires
            forall|s: int|
                0 <= s < old(self).strata@.len() ==> (#[trigger] old(self).strata@[s]).len
                    <= usize::MAX,
        ensures
            *final(self) == *old(self),
            res@.len() == old(self).strata@.len(),
            forall|s: int|
                0 <= s < res@.len() ==> #[trigger] res@[s] == (Read {
                    stratum: s as usize,
                    offset: old(self).strata@[s].start,
                    len: old(self).strata@[s].len as usize,
                }),
    {
        let n: usize = self.strata.len();
        let mut reads: Vec<Read> = Vec::new();
        let mut s: usize = 0;
        while s < n
            invariant
                *self == *old(self),
                n == self.strata@.len(),
                s <= n,
                reads@.len() == s,
                forall|k: int|
                    0 <= k < s ==> #[trigger] reads@[k] == (Read {
                        stratum: k as usize,
                        offset: self.strata@[k].start,
                        len: self.strata@[k].len as usize,
                    }),
            decreases n - s,
        {
            let len: u64 = self.strata[s].len;
            reads.push(Read { stratum: s, offset: self.strata[s].start, len: len as usize });
            s = s + 1;
        }
        reads
    }

    /// Probe phase: one chunk per stratum (or less if a stratum is tiny).
    pub fn probe_reads(&mut self) -> (res: Vec<Read>)
        requires
            old(self).wf(),
        ensures
            final(self).same_plan(*old(self)),
            (res@, final(self).rng.0) == reads_of(
                old(self).strata@,
                old(self).chunk_size as nat,
                Seq::new(old(self).strata@.len(), |s: int| s),
                old(self).rng.0,
            ),
            res@.len() == old(self).strata@.len(),
            forall|i: int| 0 <= i < res@.len() ==> (#[trigger] res@[i]).stratum == i,
            forall|i: int| 0 <= i < res@.len() ==> inside(#[trigger] res@[i], old(self).strata@),
    {
        let n: usize = self.strata.len();
        let mut reads: Vec<Read> = Vec::new();
        let mut s: usize = 0;
        while s < n
            invariant
                self.wf(),
                self.same_plan(*old(self)),
                n == self.strata@.len(),
                s <= n,
                reads@.len() == s,
                (reads@, self.rng.0) == reads_of(
                    self.strata@,
                    self.chunk_size as nat,
                    Seq::new(s as nat, |k: int| k),
                    old(self).rng.0,
                ),
                forall|i: int| 0 <= i < reads@.len() ==> (#[trigger] reads@[i]).stratum == i,
                forall|i: int| 0 <= i < reads@.len() ==> inside(#[trigger] reads@[i], self.strata@),
            decreases n - s,
        {
            let read = self.make_read(s);
            reads.push(read);
            s = s + 1;
            proof {
                assert(Seq::new(s as nat, |k: int| k).drop_last() =~= Seq::new(
                    (s - 1) as nat,
                    |k: int| k,
                ));
            }
        }
        reads
    }

    /// Whether two samplers are alike but for the state of the RNG.
    pub open spec fn same_plan(&self, other: Self) -> bool {
        &&& self.strata@ == other.strata@
        &&& self.chunk_size == other.chunk_size
        &&& self.chunk_budget == other.chunk_budget
        &&& self.total_len == other.total_len
        &&& self.sampled_total == other.sampled_total
    }

    /// Record that a chunk was observed.
    pub fn observe(&mut self, read: Read)
        requires
            read.stratum < old(self).strata@.len(),
            old(self).strata@[read.stratum as int].count < u64::MAX,
            old(self).sampled_total < usize::MAX,
        ensures
            final(self).strata@.len() == old(self).strata@.len(),
            forall|s: int|
                0 <= s < old(self).strata@.len() && s != read.stratum
                    ==> #[trigger] final(self).strata@[s] == old(self).strata@[s],
            ({
                let a = old(self).strata@[read.stratum as int];
                let b = final(self).strata@[read.stratum as int];
                &&& b.start == a.start
                &&& b.len == a.len
                &&& b.count == a.count + 1
                &&& b.sampled@ == a.sampled@.push(read.offset)
            }),
            final(self).sampled_total == old(self).sampled_total + 1,
            final(self).chunk_size == old(self).chunk_size,
            final(self).chunk_budget == old(self).chunk_budget,
            final(self).total_len == old(self).total_len,
            final(self).rng == old(self).rng,
            old(self).wf() ==> final(self).wf(),
    {
        let s: usize = read.stratum;
        self.strata[s].count = self.strata[s].count + 1;
        self.strata[s].sampled.push(read.offset);
        self.sampled_total = self.sampled_total + 1;
        proof {
            if old(self).wf() {
                assert forall|k: int| 0 <= k < self.strata@.len() implies (
                #[trigger] self.strata@[k]).stop() <= u64::MAX by {
                    assert(old(self).strata@[k].stop() <= u64::MAX);
                }
            }
        }
    }

    /// Converged when every stratum has a sample, at least one refinement
    /// round happened, and the estimate is `precise` (its relative 95% CI
    /// half-width is under the target).
    pub fn converged(&self, precise: bool) -> (res: bool)
        ensures
            res == ((forall|s: int|
                0 <= s < self.strata@.len() ==> (#[trigger] self.strata@[s]).count > 0)
                && self.sampled_total >= 2 * self.strata@.len() && precise),
    {
        let n: usize = self.strata.len();
        let mut s: usize = 0;
        while s < n
            invariant
                s <= n,
                n == self.strata@.len(),
                forall|k: int| 0 <= k < s ==> (#[trigger] self.strata@[k]).count > 0,
            decreases n - s,
        {
            if self.strata[s].count == 0 {
                assert(self.strata@[s as int].count == 0);
                return false;
            }
            s = s + 1;
        }
        if (self.sampled_total as u128) < 2 * n as u128 {
            return false;
        }
        precise
    }

    /// Whether as many chunks were sampled as the budget allows.
    pub fn budget_exhausted(&self) -> (res: bool)
        ensures
            res == (self.sampled_total >= self.chunk_budget),
    {
        self.sampled_total >= self.chunk_budget
    }
}

/// Whether strata follow one another from the start of a source to its end.
pub open spec fn tiles(strata: Seq<Stratum>, total_len: nat) -> bool {
    &&& strata.len() >= 1
    &&& strata[0].start == 0
    &&& forall|i: int|
        0 <= i && i + 1 < strata.len() ==> (#[trigger] strata[i]).stop() == strata[i + 1].start
    &&& strata.last().stop() == total_len
}

/// The reads that cover a source tile it in order: as many as it takes, each
/// where the one before it ends, of one chunk or what is left, and together of
/// the source's length.
pub proof fn lemma_cover_tiles(s: Sampler, total_len: u64, chunk_size: usize, reads: Seq<Read>)
    requires
        s.is_cover(total_len, chunk_size),
        tiles(s.strata@, total_len as nat),
        total_len > 0,
        chunk_size > 0,
        reads == Seq::new(
            s.strata@.len(),
            |i: int|
                Read {
                    stratum: i as usize,
                    offset: s.strata@[i].start,
                    len: s.strata@[i].len as usize,
                },
        ),
    ensures
        reads.len() == (total_len + chunk_size - 1) as nat / chunk_size as nat,
        forall|i: int|
            0 <= i < reads.len() ==> {
                let r = #[trigger] reads[i];
                &&& r.stratum == i
                &&& r.offset == i * chunk_size
                &&& r.len == fewest(chunk_size as nat, (total_len - r.offset) as nat)
            },
        forall|i: int|
            0 <= i && i + 1 < reads.len() ==> (#[trigger] reads[i]).offset + reads[i].len == reads[i
                + 1].offset,
        strata_bytes(s.strata@) == total_len,
{
    let cs = chunk_size as int;
    let up = total_len + cs - 1;
    lemma_fundamental_div_mod(up, cs);
    lemma_mod_bound(up, cs);
    assert(up / cs >= 1) by (nonlinear_arith)
        requires
            up == cs * (up / cs) + up % cs,
            up >= cs,
            up % cs < cs,
            cs >= 1,
    ;
    assert forall|i: int| 0 <= i < reads.len() implies {
        let r = #[trigger] reads[i];
        &&& r.stratum == i
        &&& r.offset == i * chunk_size
        &&& r.len == fewest(chunk_size as nat, (total_len - r.offset) as nat)
    } by {
        let st = s.strata@[i];
        assert(st.len <= chunk_size);
        assert((i + 1) * cs == i * cs + cs) by (nonlinear_arith);
    }
    assert forall|i: int| 0 <= i && i + 1 < reads.len() implies (#[trigger] reads[i]).offset
        + reads[i].len == reads[i + 1].offset by {
        assert(s.strata@[i].stop() == s.strata@[i + 1].start);
        assert(s.strata@[i].len <= chunk_size);
    }
    lemma_tiles_cover(s.strata@, total_len as nat);
}

/// Lengths of some strata, added up.
pub open spec fn strata_bytes(strata: Seq<Stratum>) -> nat
    decreases strata.len(),
{
    if strata.len() == 0 {
        0
    } else {
        strata_bytes(strata.drop_last()) + strata.last().len as nat
    }
}

/// Strata that follow one another from the start of a source to its end cover
/// it exactly: their weights add up to 1.
pub proof fn lemma_tiles_cover(strata: Seq<Stratum>, total_len: nat)
    requires
        tiles(strata, total_len),
    ensures
        strata_bytes(strata) == total_len,
    decreases strata.len(),
{
    if strata.len() == 1 {
        assert(strata_bytes(strata.drop_last()) == 0);
    } else {
        let front = strata.drop_last();
        let k = strata.len() - 2;
        assert(strata[k].stop() == strata[k + 1].start);
        assert forall|i: int| 0 <= i && i + 1 < front.len() implies (#[trigger] front[i]).stop()
            == front[i + 1].start by {
            assert(strata[i].stop() == strata[i + 1].start);
        }
        lemma_tiles_cover(front, strata.last().start as nat);
    }
}

/// Sum of some lengths.
pub open spec fn sum_usize(lens: Seq<usize>) -> nat
    decreases lens.len(),
{
    if lens.len() == 0 {
        0
    } else {
        sum_usize(lens.drop_last()) + lens.last() as nat
    }
}

proof fn lemma_sum_usize_take(lens: Seq<usize>, k: nat)
    requires
        k <= lens.len(),
    ensures
        sum_usize(lens.take(k as int)) <= sum_usize(lens),
    decreases lens.len(),
{
    if k == lens.len() {
        assert(lens.take(k as int) =~= lens);
    } else {
        lemma_sum_usize_take(lens.drop_last(), k);
        assert(lens.drop_last().take(k as int) =~= lens.take(k as int));
    }
}

proof fn lemma_tile_count(total_len: nat, tile: nat)
    requires
        tile >= 1,
    ensures
        tile_count(total_len, tile) == if total_len % tile > 0 || total_len / tile == 0 {
            total_len / tile + 1
        } else {
            total_len / tile
        },
{
    let q = total_len / tile;
    let r = total_len % tile;
    lemma_fundamental_div_mod(total_len as int, tile as int);
    lemma_mod_bound(total_len as int, tile as int);
    let up = (total_len + tile - 1) as int;
    assert(total_len == tile * q + r);
    if r == 0 {
        assert(up == q * tile + (tile - 1)) by (nonlinear_arith)
            requires
                up == total_len + tile - 1,
                total_len == tile * q + r,
                r == 0,
        ;
        lemma_fundamental_div_mod_converse(up, tile as int, q as int, tile - 1);
    } else {
        assert(up == (q + 1) * tile + (r - 1)) by (nonlinear_arith)
            requires
                up == total_len + tile - 1,
                total_len == tile * q + r,
        ;
        lemma_fundamental_div_mod_converse(up, tile as int, (q + 1) as int, r - 1);
    }
}

proof fn lemma_tile_step(total_len: nat, tile: nat, i: int)
    requires
        tile >= 1,
        0 <= i < total_len / tile,
    ensures
        tile_stop(total_len, tile, i) == i * tile + tile,
        (i + 1) * tile == i * tile + tile,
        0 <= i * tile,
        i * tile + tile <= total_len,
{
    let q = (total_len / tile) as int;
    lemma_fundamental_div_mod(total_len as int, tile as int);
    lemma_mod_bound(total_len as int, tile as int);
    assert((i + 1) * tile == i * tile + tile) by (nonlinear_arith);
    assert(0 <= i * tile) by (nonlinear_arith)
        requires
            0 <= i,
            tile >= 1,
    ;
    assert((i + 1) * tile <= tile * q) by (nonlinear_arith)
        requires
            i + 1 <= q,
            tile >= 1,
    ;
}

proof fn lemma_tile_last(total_len: nat, tile: nat)
    requires
        tile >= 1,
    ensures
        ({
            let q = (total_len / tile) as int;
            &&& tile_stop(total_len, tile, q) == total_len
            &&& q * tile + total_len % tile == total_len
            &&& 0 <= q * tile <= total_len
            &&& total_len % tile < tile
        }),
{
    let q = (total_len / tile) as int;
    lemma_fundamental_div_mod(total_len as int, tile as int);
    lemma_mod_bound(total_len as int, tile as int);
    assert(q * tile == tile * q) by (nonlinear_arith);
    assert((q + 1) * tile == q * tile + tile) by (nonlinear_arith);
}

/// Strata of a plan follow one another, and end within the source.
proof fn lemma_plan_step(total_len: nat, n: nat, i: int)
    requires
        n >= 1,
        0 <= i < n,
    ensures
        0 <= plan_start(total_len, n, i),
        plan_start(total_len, n, i) + total_len / n <= total_len,
        plan_start(total_len, n, i + 1) == plan_start(total_len, n, i) + total_len / n,
        plan_start(total_len, n, i) <= plan_stop(total_len, n, i) <= total_len,
{
    let base = (total_len / n) as int;
    assert(i * base + base == (i + 1) * base) by (nonlinear_arith);
    assert(0 <= i * base) by (nonlinear_arith)
        requires
            0 <= i,
            0 <= base,
    ;
    assert((i + 1) * base <= n * base) by (nonlinear_arith)
        requires
            i + 1 <= n,
            0 <= base,
    ;
    lemma_fundamental_div_mod(total_len as int, n as int);
    lemma_mod_bound(total_len as int, n as int);
}

/// Put a quota behind those of at least its fraction.
pub open spec fn place(arranged: Seq<Quota>, q: Quota) -> Seq<Quota>
    decreases arranged.len(),
{
    if arranged.len() == 0 || arranged.last().fraction >= q.fraction {
        arranged.push(q)
    } else {
        place(arranged.drop_last(), q).push(arranged.last())
    }
}

/// Quotas by descending fraction; those of the same fraction keep their
/// order.
pub open spec fn arrange(quotas: Seq<Quota>) -> Seq<Quota>
    decreases quotas.len(),
{
    if quotas.len() == 0 {
        Seq::empty()
    } else {
        place(arrange(quotas.drop_last()), quotas.last())
    }
}

/// Whole parts of some quotas, added up.
pub open spec fn whole_reads(quotas: Seq<Quota>) -> nat
    decreases quotas.len(),
{
    if quotas.len() == 0 {
        0
    } else {
        whole_reads(quotas.drop_last()) + quotas.last().whole as nat
    }
}

/// How often the quota at `i` is read: its whole part, one more while there
/// are reads left over, and at least once.
pub open spec fn share(q: Quota, i: int, left_over: int) -> nat {
    if i < left_over {
        q.whole as nat + 1
    } else {
        most(q.whole as nat, 1)
    }
}

/// The strata that the first `k` quotas are read from, in order.
pub open spec fn shared_out(quotas: Seq<Quota>, left_over: int, k: nat) -> Seq<int>
    decreases k,
{
    if k == 0 {
        Seq::empty()
    } else {
        let q = quotas[k - 1];
        shared_out(quotas, left_over, (k - 1) as nat) + Seq::new(
            share(q, k - 1, left_over),
            |j: int| q.stratum as int,
        )
    }
}

/// At most the first `n` of a sequence.
pub open spec fn at_most(picks: Seq<int>, n: nat) -> Seq<int> {
    if picks.len() <= n {
        picks
    } else {
        picks.take(n as int)
    }
}

/// The strata of a round of `take` reads.
pub open spec fn round_picks(quotas: Seq<Quota>, take: nat) -> Seq<int> {
    at_most(
        shared_out(arrange(quotas), take - whole_reads(quotas), quotas.len()),
        take,
    )
}

proof fn lemma_place(arranged: Seq<Quota>, q: Quota, k: int)
    requires
        0 <= k <= arranged.len(),
        k > 0 ==> arranged[k - 1].fraction >= q.fraction,
        forall|i: int| k <= i < arranged.len() ==> (#[trigger] arranged[i]).fraction < q.fraction,
    ensures
        place(arranged, q) == arranged.insert(k, q),
    decreases arranged.len(),
{
    if k == arranged.len() {
        assert(arranged.insert(k, q) =~= arranged.push(q));
    } else {
        let front = arranged.drop_last();
        assert(arranged[arranged.len() - 1].fraction < q.fraction);
        assert forall|i: int| k <= i < front.len() implies (#[trigger] front[i]).fraction
            < q.fraction by {
            assert(arranged[i].fraction < q.fraction);
        }
        lemma_place(front, q, k);
        assert(front.insert(k, q).push(arranged.last()) =~= arranged.insert(k, q));
    }
}

proof fn lemma_place_keeps(arranged: Seq<Quota>, q: Quota)
    requires
        forall|i: int, j: int|
            0 <= i < j < arranged.len() ==> (#[trigger] arranged[i]).fraction >= (
            #[trigger] arranged[j]).fraction,
    ensures
        place(arranged, q).to_multiset() == arranged.to_multiset().insert(q),
        place(arranged, q).len() == arranged.len() + 1,
        forall|i: int, j: int|
            0 <= i < j < place(arranged, q).len() ==> (#[trigger] place(arranged, q)[i]).fraction
                >= (#[trigger] place(arranged, q)[j]).fraction,
        forall|i: int|
            0 <= i < place(arranged, q).len() ==> (#[trigger] place(arranged, q)[i]) == q
                || arranged.contains(place(arranged, q)[i]),
    decreases arranged.len(),
{
    broadcast use group_to_multiset_ensures;

    if arranged.len() == 0 || arranged.last().fraction >= q.fraction {
    } else {
        let front = arranged.drop_last();
        let last = arranged.last();
        lemma_place_keeps(front, q);
        assert(arranged =~= front.push(last));
        assert(place(arranged, q).to_multiset() =~= arranged.to_multiset().insert(q));
        assert forall|i: int| 0 <= i < place(arranged, q).len() implies (#[trigger] place(
            arranged,
            q,
        )[i]) == q || arranged.contains(place(arranged, q)[i]) by {
            if i < place(front, q).len() {
                let x = place(front, q)[i];
                if x != q {
                    let t = choose|t: int| 0 <= t < front.len() && front[t] == x;
                    assert(arranged[t] == x);
                }
            } else {
                assert(arranged[arranged.len() - 1] == last);
            }
        }
        assert forall|i: int, j: int| 0 <= i < j < place(arranged, q).len() implies (
        #[trigger] place(arranged, q)[i]).fraction >= (#[trigger] place(
            arranged,
            q,
        )[j]).fraction by {
            let x = place(front, q)[i];
            if j == place(front, q).len() && x != q {
                let t = choose|t: int| 0 <= t < front.len() && front[t] == x;
                assert(arranged[t].fraction >= arranged[arranged.len() - 1].fraction);
            }
        }
    }
}

/// Arranging quotas orders them by descending fraction and loses none.
pub proof fn lemma_arrange(quotas: Seq<Quota>)
    ensures
        arrange(quotas).len() == quotas.len(),
        arrange(quotas).to_multiset() == quotas.to_multiset(),
        forall|i: int, j: int|
            0 <= i < j < quotas.len() ==> (#[trigger] arrange(quotas)[i]).fraction >= (
            #[trigger] arrange(quotas)[j]).fraction,
    decreases quotas.len(),
{
    broadcast use group_to_multiset_ensures;

    if quotas.len() > 0 {
        lemma_arrange(quotas.drop_last());
        lemma_place_keeps(arrange(quotas.drop_last()), quotas.last());
        assert(quotas =~= quotas.drop_last().push(quotas.last()));
    }
}

proof fn lemma_arrange_from(quotas: Seq<Quota>, i: int)
    requires
        0 <= i < quotas.len(),
    ensures
        exists|j: int| 0 <= j < quotas.len() && quotas[j] == arrange(quotas)[i],
{
    broadcast use group_to_multiset_ensures;

    lemma_arrange(quotas);
    let q = arrange(quotas)[i];
    assert(arrange(quotas).contains(q));
    assert(arrange(quotas).to_multiset().count(q) > 0);
    assert(quotas.contains(q));
}

/// Sort quotas by descending fraction, keeping the order of equal ones.
fn arrange_quotas(quotas: &Vec<Quota>) -> (res: Vec<Quota>)
    ensures
        res@ == arrange(quotas@),
{
    let n: usize = quotas.len();
    let mut res: Vec<Quota> = Vec::new();
    let mut i: usize = 0;
    while i < n
        invariant
            i <= n,
            n == quotas@.len(),
            res@ == arrange(quotas@.take(i as int)),
            res@.len() == i,
        decreases n - i,
    {
        let q: Quota = quotas[i];
        let mut k: usize = i;
        while k > 0 && res[k - 1].fraction < q.fraction
            invariant
                k <= i,
                res@.len() == i,
                forall|j: int| k <= j < i ==> (#[trigger] res@[j]).fraction < q.fraction,
            decreases k,
        {
            k = k - 1;
        }
        proof {
            lemma_place(res@, q, k as int);
            assert(quotas@.take(i + 1).drop_last() =~= quotas@.take(i as int));
        }
        res.insert(k, q);
        i = i + 1;
    }
    proof {
        assert(quotas@.take(n as int) =~= quotas@);
    }
    res
}

impl Sampler {
    /// Whether a stratum has chunks left that were not sampled.
    pub open spec fn room_in(&self, s: int) -> bool {
        self.strata@[s].len as nat / most(self.chunk_size as nat, 1) > self.strata@[s].sampled@.len()
    }

    /// How many reads the next round takes: what the budget leaves, at most
    /// one per stratum on average.
    pub open spec fn round_len(&self) -> nat {
        if self.chunk_budget <= self.sampled_total {
            0
        } else {
            fewest((self.chunk_budget - self.sampled_total) as nat, self.strata@.len())
        }
    }

    /// Whether a stratum has chunks left that were not sampled.
    pub fn has_room(&self, s: usize) -> (res: bool)
        requires
            s < self.strata@.len(),
        ensures
            res == self.room_in(s as int),
    {
        let cs: u64 = if self.chunk_size < 1 {
            1
        } else {
            self.chunk_size as u64
        };
        self.strata[s].len / cs > self.strata[s].sampled.len() as u64
    }

    /// How many reads the next round takes.
    pub fn round_size(&self) -> (res: usize)
        ensures
            res == self.round_len(),
    {
        if self.chunk_budget <= self.sampled_total {
            return 0;
        }
        let remaining: usize = self.chunk_budget - self.sampled_total;
        let n: usize = self.strata.len();
        if remaining < n {
            remaining
        } else {
            n
        }
    }

    /// Next round of reads, by the quotas of the strata that have room:
    /// largest-remainder rounding of the round's reads across them.
    pub fn next_reads(&mut self, quotas: &Vec<Quota>) -> (res: Vec<Read>)
        requires
            old(self).wf(),
            forall|i: int|
                0 <= i < quotas@.len() ==> (#[trigger] quotas@[i]).stratum
                    < old(self).strata@.len(),
            forall|i: int|
                0 <= i < quotas@.len() ==> old(self).room_in(
                    (#[trigger] quotas@[i]).stratum as int,
                ),
            whole_reads(quotas@) <= old(self).round_len(),
        ensures
            final(self).same_plan(*old(self)),
            (res@, final(self).rng.0) == reads_of(
                old(self).strata@,
                old(self).chunk_size as nat,
                round_picks(quotas@, old(self).round_len()),
                old(self).rng.0,
            ),
            res@.len() <= old(self).round_len(),
            quotas@.len() > 0 && old(self).round_len() > 0 ==> res@.len() > 0,
            forall|i: int| 0 <= i < res@.len() ==> inside(#[trigger] res@[i], old(self).strata@),
            forall|i: int|
                0 <= i < res@.len() ==> old(self).room_in((#[trigger] res@[i]).stratum as int),
    {
        let take: usize = self.round_size();
        let n: usize = quotas.len();
        let mut whole: usize = 0;
        let mut k: usize = 0;
        while k < n
            invariant
                k <= n,
                n == quotas@.len(),
                whole_reads(quotas@) <= take,
                whole == whole_reads(quotas@.take(k as int)),
            decreases n - k,
        {
            proof {
                assert(quotas@.take(k + 1).drop_last() =~= quotas@.take(k as int));
                lemma_whole_reads_take(quotas@, (k + 1) as nat);
            }
            whole = whole + quotas[k].whole;
            k = k + 1;
        }
        proof {
            assert(quotas@.take(n as int) =~= quotas@);
            lemma_arrange(quotas@);
        }
        let left_over: usize = take - whole;
        let sorted: Vec<Quota> = arrange_quotas(quotas);
        let mut reads: Vec<Read> = Vec::new();
        let mut i: usize = 0;
        while i < n
            invariant
                self.wf(),
                self.same_plan(*old(self)),
                n == quotas@.len(),
                n == sorted@.len(),
                sorted@ == arrange(quotas@),
                i <= n,
                forall|k: int|
                    0 <= k < quotas@.len() ==> (#[trigger] quotas@[k]).stratum < self.strata@.len(),
                forall|k: int|
                    0 <= k < quotas@.len() ==> old(self).room_in(
                        (#[trigger] quotas@[k]).stratum as int,
                    ),
                reads@.len() <= take,
                reads@.len() == at_most(
                    shared_out(sorted@, left_over as int, i as nat),
                    take as nat,
                ).len(),
                (reads@, self.rng.0) == reads_of(
                    self.strata@,
                    self.chunk_size as nat,
                    at_most(shared_out(sorted@, left_over as int, i as nat), take as nat),
                    old(self).rng.0,
                ),
                forall|k: int| 0 <= k < reads@.len() ==> inside(#[trigger] reads@[k], self.strata@),
                forall|k: int|
                    0 <= k < reads@.len() ==> old(self).room_in(
                        (#[trigger] reads@[k]).stratum as int,
                    ),
            decreases n - i,
        {
            let q: Quota = sorted[i];
            proof {
                lemma_arrange_from(quotas@, i as int);
            }
            let times: u128 = if i < left_over {
                q.whole as u128 + 1
            } else if q.whole == 0 {
                1
            } else {
                q.whole as u128
            };
            let ghost base = shared_out(sorted@, left_over as int, i as nat);
            let ghost s = q.stratum as int;
            let mut j: u128 = 0;
            proof {
                assert(base + Seq::new(0, |x: int| s) =~= base);
            }
            while j < times
                invariant
                    self.wf(),
                    self.same_plan(*old(self)),
                    q.stratum < self.strata@.len(),
                    s == q.stratum,
                    j <= times,
                    reads@.len() <= take,
                    reads@.len() == at_most(
                        base + Seq::new(j as nat, |x: int| s),
                        take as nat,
                    ).len(),
                    (reads@, self.rng.0) == reads_of(
                        self.strata@,
                        self.chunk_size as nat,
                        at_most(base + Seq::new(j as nat, |x: int| s), take as nat),
                        old(self).rng.0,
                    ),
                    forall|k: int|
                        0 <= k < reads@.len() ==> inside(#[trigger] reads@[k], self.strata@),
                    old(self).room_in(s),
                    forall|k: int|
                        0 <= k < reads@.len() ==> old(self).room_in(
                            (#[trigger] reads@[k]).stratum as int,
                        ),
                decreases times - j,
            {
                let ghost now = base + Seq::new(j as nat, |x: int| s);
                let ghost next = base + Seq::new((j + 1) as nat, |x: int| s);
                proof {
                    assert(next =~= now.push(s));
                }
                if reads.len() < take {
                    let read = self.make_read(q.stratum);
                    reads.push(read);
                    proof {
                        assert(at_most(now, take as nat) =~= now);
                        assert(at_most(next, take as nat) =~= now.push(s));
                        assert(now.push(s).drop_last() =~= now);
                    }
                } else {
                    proof {
                        assert(at_most(next, take as nat) =~= at_most(now, take as nat));
                    }
                }
                j = j + 1;
            }
            i = i + 1;
        }
        proof {
            lemma_shared_out_len(sorted@, left_over as int, n as nat);
        }
        reads
    }
}

/// Every quota is read at least once.
proof fn lemma_shared_out_len(quotas: Seq<Quota>, left_over: int, k: nat)
    ensures
        shared_out(quotas, left_over, k).len() >= k,
    decreases k,
{
    if k > 0 {
        lemma_shared_out_len(quotas, left_over, (k - 1) as nat);
    }
}

/// The chunks that a plan's budget allows take no more bytes than the budget.
pub proof fn lemma_plan_budget(
    s: Sampler,
    total_len: u64,
    budget_bytes: u64,
    chunk_size: usize,
    n_strata: usize,
)
    requires
        s.is_plan(total_len, budget_bytes, chunk_size, n_strata),
    ensures
        s.chunk_budget * s.chunk_size <= budget_bytes,
{
    if chunk_size >= 1 {
        lemma_fundamental_div_mod(budget_bytes as int, chunk_size as int);
        lemma_mod_bound(budget_bytes as int, chunk_size as int);
        let q = budget_bytes as int / chunk_size as int;
        assert(q * chunk_size == chunk_size * q) by (nonlinear_arith);
    } else {
        assert(s.chunk_budget * s.chunk_size == 0) by (nonlinear_arith)
            requires
                s.chunk_size == 0,
        ;
    }
}

/// The probe phase takes one chunk per stratum, whatever the budget; the
/// rounds after it never pass the budget, and there is none where the probe
/// used it up.
pub proof fn lemma_rounds_within_budget(s: Sampler)
    ensures
        s.sampled_total <= s.chunk_budget ==> s.sampled_total + s.round_len() <= s.chunk_budget,
        s.sampled_total >= s.chunk_budget ==> s.round_len() == 0,
{
}

proof fn lemma_whole_reads_take(quotas: Seq<Quota>, k: nat)
    requires
        k <= quotas.len(),
    ensures
        whole_reads(quotas.take(k as int)) <= whole_reads(quotas),
    decreases quotas.len(),
{
    if k == quotas.len() {
        assert(quotas.take(k as int) =~= quotas);
    } else {
        lemma_whole_reads_take(quotas.drop_last(), k);
        assert(quotas.drop_last().take(k as int) =~= quotas.take(k as int));
    }
}

/// Fixed-capacity reservoir for uniform sampling of a stream of unknown
/// length (Algorithm R).
pub struct Reservoir<T> {
    pub cap: usize,
    pub seen: u64,
    pub slots: Vec<T>,
    pub rng: Rng,
}

impl<T> Default for Reservoir<T> {
    /// A reservoir that keeps nothing.
    fn default() -> (res: Self)
        ensures
            res.wf(),
            res.cap == 0,
            res.seen == 0,
            res.offered(Seq::empty()),
    {
        Self::new(0)
    }
}

/// The slot that a later item is offered, given a random number: the item is
/// the `seen`-th.
pub open spec fn slot_for(number: nat, seen: nat) -> nat {
    number % seen
}

/// The slot that a later item is offered: the item is the `seen`-th.
pub open spec fn offered_slot(state: u64, seen: u64) -> nat {
    slot_for(rng_mix(rng_step(state)) as nat, seen as nat)
}

/// The choice of a slot is fair: it is one of as many as there were offers, and
/// of that many consecutive random numbers every slot is chosen by exactly one.
pub proof fn lemma_slots_fair(seen: nat, first: nat, j: nat)
    requires
        j < seen,
    ensures
        forall|number: nat| #[trigger] slot_for(number, seen) < seen,
        exists|number: nat|
            first <= number < first + seen && #[trigger] slot_for(number, seen) == j,
        forall|a: nat, b: nat|
            first <= a < b < first + seen ==> #[trigger] slot_for(a, seen) != #[trigger] slot_for(
                b,
                seen,
            ),
{
    let d = seen as int;
    assert forall|number: nat| #[trigger] slot_for(number, seen) < seen by {
        lemma_mod_bound(number as int, d);
    }
    let q = first as int / d;
    let r = first as int % d;
    lemma_fundamental_div_mod(first as int, d);
    lemma_mod_bound(first as int, d);
    let base = q * d;
    assert(base == d * q) by (nonlinear_arith)
        requires
            base == q * d,
    ;
    if j >= r {
        lemma_fundamental_div_mod_converse(base + j, d, q, j as int);
        assert(slot_for((base + j) as nat, seen) == j);
    } else {
        assert((q + 1) * d == base + d) by (nonlinear_arith)
            requires
                base == q * d,
        ;
        lemma_fundamental_div_mod_converse(base + d + j, d, q + 1, j as int);
        assert(slot_for((base + d + j) as nat, seen) == j);
    }
    assert forall|a: nat, b: nat| first <= a < b < first + seen implies #[trigger] slot_for(a, seen)
        != #[trigger] slot_for(b, seen) by {
        let (qa, qb) = (a as int / d, b as int / d);
        lemma_fundamental_div_mod(a as int, d);
        lemma_fundamental_div_mod(b as int, d);
        if slot_for(a, seen) == slot_for(b, seen) {
            assert(b - a == d * (qb - qa)) by (nonlinear_arith)
                requires
                    b - a == d * qb - d * qa,
            ;
            assert(false) by (nonlinear_arith)
                requires
                    0 < b - a < d,
                    b - a == d * (qb - qa),
            ;
        }
    }
}

/// Which of the first `k` offers a reservoir of some capacity keeps, slot by
/// slot, and the state of its RNG.
pub open spec fn survivors(cap: nat, k: nat) -> (Seq<int>, u64)
    decreases k,
{
    if k == 0 {
        (Seq::empty(), 0x5EED_5EED_5EED_5EEDu64)
    } else {
        let (slots, state) = survivors(cap, (k - 1) as nat);
        if slots.len() < cap {
            (slots.push(k - 1), state)
        } else if cap == 0 {
            (slots, state)
        } else {
            let j = offered_slot(state, k as u64);
            (
                if j < cap {
                    slots.update(j as int, k - 1)
                } else {
                    slots
                },
                rng_step(state),
            )
        }
    }
}

/// A reservoir is as full as it can be, and keeps no offer twice. While there
/// is room it keeps every offer, in order.
pub proof fn lemma_survivors(cap: nat, k: nat)
    ensures
        survivors(cap, k).0.len() == fewest(cap, k),
        forall|i: int|
            0 <= i < survivors(cap, k).0.len() ==> 0 <= #[trigger] survivors(cap, k).0[i] < k,
        forall|i: int, j: int|
            0 <= i < j < survivors(cap, k).0.len() ==> #[trigger] survivors(cap, k).0[i]
                != #[trigger] survivors(cap, k).0[j],
        k <= cap ==> survivors(cap, k).0 == Seq::new(k, |i: int| i),
    decreases k,
{
    if k > 0 {
        lemma_survivors(cap, (k - 1) as nat);
    }
}

/// One more offer changes at most one slot of a full reservoir, to that offer.
pub proof fn lemma_survivors_step(cap: nat, k: nat)
    requires
        cap <= k,
    ensures
        forall|i: int|
            0 <= i < survivors(cap, k).0.len() ==> #[trigger] survivors(cap, k + 1).0[i]
                == survivors(cap, k).0[i] || survivors(cap, k + 1).0[i] == k,
        forall|i: int, j: int|
            0 <= i < j < survivors(cap, k).0.len() ==> #[trigger] survivors(cap, k + 1).0[i]
                == survivors(cap, k).0[i] || #[trigger] survivors(cap, k + 1).0[j] == survivors(
                cap,
                k,
            ).0[j],
{
    lemma_survivors(cap, k);
}

/// Later offers are kept, and which is up to the RNG alone: with one more offer
/// the RNG moves on by one, and where its number, divided by the number of
/// offers so far, leaves less than the capacity, the slot of that number holds
/// the new offer. Nothing else changes.
pub proof fn lemma_later_offers_kept(cap: nat, k: nat)
    requires
        1 <= cap <= k,
        k < u64::MAX,
    ensures
        ({
            let (old_slots, old_state) = survivors(cap, k);
            let (slots, state) = survivors(cap, k + 1);
            let j = rng_mix(state) as int % (k + 1) as int;
            &&& state == old_state.wrapping_add(0x9E37_79B9_7F4A_7C15)
            &&& slots.len() == cap
            &&& j < cap ==> slots[j] == k
            &&& forall|i: int| 0 <= i < cap && i != j ==> #[trigger] slots[i] == old_slots[i]
        }),
{
    lemma_survivors(cap, k);
    lemma_survivors(cap, k + 1);
    lemma_mod_bound(rng_mix(survivors(cap, k + 1).1) as int, (k + 1) as int);
}

/// What a reservoir keeps of some offers.
pub open spec fn kept<A>(cap: nat, items: Seq<A>) -> Seq<A> {
    survivors(cap, items.len()).0.map_values(|i: int| items[i])
}

/// What a reservoir keeps after one more offer.
pub proof fn lemma_kept_step<A>(cap: nat, items: Seq<A>, item: A)
    ensures
        kept(cap, items).len() == fewest(cap, items.len()),
        kept(cap, items.push(item)) == if items.len() < cap {
            kept(cap, items).push(item)
        } else if cap == 0 {
            kept(cap, items)
        } else {
            let j = offered_slot(survivors(cap, items.len()).1, (items.len() + 1) as u64);
            if j < cap {
                kept(cap, items).update(j as int, item)
            } else {
                kept(cap, items)
            }
        },
{
    let n = items.len();
    let now = items.push(item);
    lemma_survivors(cap, n);
    lemma_survivors(cap, n + 1);
    let old_slots = survivors(cap, n).0;
    let new_slots = survivors(cap, n + 1).0;
    assert(kept(cap, now) =~= new_slots.map_values(|i: int| now[i]));
    assert forall|i: int| 0 <= i < old_slots.len() implies now[#[trigger] old_slots[i]]
        == items[old_slots[i]] by {}
    if n < cap {
        assert(kept(cap, now) =~= kept(cap, items).push(item));
    } else if cap == 0 {
        assert(kept(cap, now) =~= kept(cap, items));
    } else {
        let j = offered_slot(survivors(cap, n).1, (n + 1) as u64);
        if j < cap {
            assert(kept(cap, now) =~= kept(cap, items).update(j as int, item));
        } else {
            assert(kept(cap, now) =~= kept(cap, items));
        }
    }
}

impl<T> Reservoir<T> {
    /// Whether the reservoir holds as many items as it can: all that were
    /// offered, up to its capacity.
    pub open spec fn wf(&self) -> bool {
        self.slots@.len() == fewest(self.cap as nat, self.seen as nat)
    }

    /// Whether these are all the items that were offered, and the reservoir
    /// holds what it keeps of them.
    pub open spec fn offered(&self, items: Seq<T>) -> bool {
        &&& self.seen == items.len()
        &&& self.slots@ == kept(self.cap as nat, items)
        &&& self.rng.0 == survivors(self.cap as nat, items.len()).1
    }

    /// An empty reservoir.
    pub fn new(cap: usize) -> (res: Self)
        ensures
            res.wf(),
            res.cap == cap,
            res.seen == 0,
            res.slots@.len() == 0,
            res.rng.0 == 0x5EED_5EED_5EED_5EEDu64,
            res.offered(Seq::empty()),
    {
        proof {
            assert(kept(cap as nat, Seq::<T>::empty()) =~= Seq::empty());
        }
        let room: usize = if cap < 65536 {
            cap
        } else {
            65536
        };
        Reservoir {
            cap,
            seen: 0,
            slots: Vec::with_capacity(room),
            rng: Rng::new(0x5EED_5EED_5EED_5EED),
        }
    }

    /// Offer an item: it is kept while there is room, and later takes the
    /// place of a random one, or is dropped.
    pub fn offer(&mut self, item: T)
        requires
            old(self).wf(),
            old(self).seen < u64::MAX,
        ensures
            final(self).wf(),
            final(self).cap == old(self).cap,
            final(self).seen == old(self).seen + 1,
            old(self).slots@.len() < old(self).cap ==> {
                &&& final(self).slots@ == old(self).slots@.push(item)
                &&& final(self).rng == old(self).rng
            },
            old(self).slots@.len() >= old(self).cap && old(self).cap > 0 ==> {
                let j = offered_slot(old(self).rng.0, final(self).seen);
                &&& final(self).slots@ == if j < old(self).cap {
                    old(self).slots@.update(j as int, item)
                } else {
                    old(self).slots@
                }
                &&& final(self).rng.0 == rng_step(old(self).rng.0)
            },
            old(self).cap == 0 ==> {
                &&& final(self).slots@ == old(self).slots@
                &&& final(self).rng == old(self).rng
            },
            old(self).slots@.len() >= old(self).cap && old(self).cap > 0 ==> {
                let j = rng_mix(final(self).rng.0) as int % final(self).seen as int;
                &&& j < old(self).cap ==> final(self).slots@[j] == item
                &&& forall|i: int|
                    0 <= i < old(self).cap && i != j ==> #[trigger] final(self).slots@[i]
                        == old(self).slots@[i]
            },
            forall|items: Seq<T>| #[trigger]
                old(self).offered(items) ==> final(self).offered(items.push(item)),
    {
        self.seen = self.seen + 1;
        if self.slots.len() < self.cap {
            self.slots.push(item);
        } else if self.cap > 0 {
            let j: u64 = self.rng.below(self.seen);
            if j < self.cap as u64 {
                self.slots.set(j as usize, item);
            }
        }
        proof {
            assert forall|items: Seq<T>| #[trigger] old(self).offered(items) implies self.offered(
                items.push(item),
            ) by {
                lemma_kept_step(old(self).cap as nat, items, item);
                lemma_survivors(old(self).cap as nat, items.len());
            }
        }
    }
}

} // verus!
