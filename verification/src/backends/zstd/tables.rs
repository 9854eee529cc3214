//! Match-finding tables, and the view of a chunk and a level's parameters
//! that the three parse loops share.

use super::levels::LevelParams;
use super::parse::MAX_CHUNK;
use super::words::{
    agree_run, bit_len, bit_length, count, hash_at, lemma_bit_len, lemma_bit_len_bound,
    lemma_common_prefix,
    match_len, match_room, same4, zhash,
};
use vstd::arithmetic::power2::{
    lemma2_to64, lemma_pow2_pos, lemma_pow2_strictly_increases, lemma_pow2_unfold, pow2,
};
use vstd::bits::lemma_u64_shl_is_mul;
use vstd::prelude::*;

verus! {

/// zstd stops searching 8 bytes before the end.
pub const TAIL_MARGIN: usize = 8;

/// What a parse loop reads: the chunk, how far back a match may reach, how
/// many bytes are hashed, and the sizes of the tables in bits.
pub struct Scene {
    pub s: Seq<u8>,
    pub window: nat,
    pub mls: nat,
    pub hlog: nat,
    pub clog: nat,
}

/// The smaller of two numbers.
pub open spec fn least(a: nat, b: nat) -> nat {
    if a < b {
        a
    } else {
        b
    }
}

/// Table bits that a chunk of `n` bytes can use, one less than for heads.
pub open spec fn chunk_bits(n: nat) -> nat {
    bit_len(
        if n < 64 {
            64
        } else {
            n
        },
    )
}

/// Effective hash log: the level's, clamped to the chunk size.
pub open spec fn head_bits(params: LevelParams, n: nat) -> nat {
    least(params.hash_log as nat, chunk_bits(n) + 1)
}

/// Effective chain log: the level's, clamped to the chunk size.
pub open spec fn chain_bits(params: LevelParams, n: nat) -> nat {
    least(params.chain_log as nat, chunk_bits(n))
}

/// Bytes hashed: the level's minimum match, clamped to 4..=8.
pub open spec fn hashed_bytes(params: LevelParams) -> nat {
    if params.min_match < 4 {
        4
    } else if params.min_match > 8 {
        8
    } else {
        params.min_match as nat
    }
}

/// What a level's parse of the chunk `s` reads.
pub open spec fn scene_of(s: Seq<u8>, params: LevelParams) -> Scene {
    Scene {
        s,
        window: least(pow2(params.window_log as nat), s.len()),
        mls: hashed_bytes(params),
        hlog: head_bits(params, s.len()),
        clog: chain_bits(params, s.len()),
    }
}

/// A table of `2^log` entries that holds no position.
pub open spec fn fresh_table(log: nat) -> Seq<i32> {
    Seq::new(pow2(log), |i: int| -1i32)
}

impl Scene {
    /// No new sequence may start past this.
    pub open spec fn ilimit(&self) -> int {
        self.s.len() - TAIL_MARGIN
    }

    /// The last position that was entered for the hash of `ip`.
    pub open spec fn look(&self, head: Seq<i32>, ip: int) -> i32 {
        head[hash_at(self.s, ip, self.mls, self.hlog) as int]
    }

    /// Enter `ip` for its hash.
    pub open spec fn put(&self, head: Seq<i32>, ip: int) -> Seq<i32> {
        head.update(hash_at(self.s, ip, self.mls, self.hlog) as int, ip as i32)
    }

    /// The last position that was entered for the 8-byte hash of `ip`.
    pub open spec fn look_long(&self, head2: Seq<i32>, ip: int) -> i32 {
        head2[hash_at(self.s, ip, 8, self.clog) as int]
    }

    /// Enter `ip` for its 8-byte hash.
    pub open spec fn put_long(&self, head2: Seq<i32>, ip: int) -> Seq<i32> {
        head2.update(hash_at(self.s, ip, 8, self.clog) as int, ip as i32)
    }

    /// Whether the candidate `m` holds the `k` bytes at `ip`, within the
    /// window.
    pub open spec fn hit(&self, m: i32, ip: int, k: int) -> bool {
        m >= 0 && ip - m <= self.window && agree_run(self.s, m as int, ip, k)
    }

    /// Length of the match at `pos` with the bytes `r` before, 0 unless four
    /// bytes agree within the window.
    pub open spec fn rep_len(&self, pos: int, r: nat) -> nat {
        if 0 < r <= pos && r <= self.window && pos + 4 <= self.s.len() && agree_run(
            self.s,
            pos - r,
            pos,
            4,
        ) {
            match_len(self.s, pos - r, pos)
        } else {
            0
        }
    }

    /// `p`, but no later than the last position that can be hashed.
    pub open spec fn hashable(&self, p: int) -> int {
        if p < self.ilimit() {
            p
        } else {
            self.ilimit()
        }
    }
}

/// How much of the chunk lies ahead of `ip`.
pub open spec fn ahead(sc: Scene, ip: int) -> nat {
    if ip < sc.s.len() {
        (sc.s.len() - ip) as nat
    } else {
        0
    }
}

/// Whether every entry of a table is before `lim`.
pub open spec fn entries_below(t: Seq<i32>, lim: int) -> bool {
    forall|i: int| 0 <= i < t.len() ==> #[trigger] t[i] < lim
}

/// Reusable per-level parse tables. Sizes adapt to the level's hash/chain
/// logs, clamped to the chunk size the way zstd clamps its tables to the
/// input size.
pub struct ParseTables {
    /// Head table (fast: only table; dfast: small; lazy: hash heads).
    pub head: Vec<i32>,
    /// dfast's long (8-byte) table.
    pub head2: Vec<i32>,
    /// Lazy chain ring (indexed by `pos mod 2^chain_log`).
    pub prev: Vec<i32>,
    /// Lazy catch-up insertion cursor.
    pub next_to_update: usize,
}

/// What the parse tables hold.
pub struct Tables {
    pub head: Seq<i32>,
    pub head2: Seq<i32>,
    pub prev: Seq<i32>,
    pub next: int,
}

impl View for ParseTables {
    type V = Tables;

    open spec fn view(&self) -> Tables {
        Tables {
            head: self.head@,
            head2: self.head2@,
            prev: self.prev@,
            next: self.next_to_update as int,
        }
    }
}

impl Default for ParseTables {
    fn default() -> (res: Self)
        ensures
            res@ == (Tables {
                head: Seq::empty(),
                head2: Seq::empty(),
                prev: Seq::empty(),
                next: 0,
            }),
    {
        ParseTables {
            head: Vec::new(),
            head2: Vec::new(),
            prev: Vec::new(),
            next_to_update: 0,
        }
    }
}

/// Make `table` one of `2^log` entries that holds no position.
pub fn reset_table(table: &mut Vec<i32>, log: u32)
    requires
        log <= 32,
        pow2(log as nat) <= usize::MAX,
    ensures
        final(table)@ == fresh_table(log as nat),
{
    proof {
        lemma2_to64();
        lemma_u64_shl_is_mul(1, log as u64);
        if log < 32 {
            lemma_pow2_strictly_increases(log as nat, 32);
        }
    }
    let size: usize = (1u64 << log) as usize;
    table.clear();
    table.resize(size, -1);
    proof {
        assert(table@ =~= fresh_table(log as nat));
    }
}

/// The executable form of a [`Scene`], without the chunk.
#[derive(Clone, Copy)]
pub struct Frame {
    pub n: usize,
    pub ilimit: usize,
    pub window: usize,
    pub mls: u32,
    pub hlog: u32,
    pub clog: u32,
}

/// Whether a level's parameters can be used on a chunk of `n` bytes: the
/// window is a machine word, and the hash table is neither without entries
/// nor larger than memory can be.
pub open spec fn usable(params: LevelParams, n: nat) -> bool {
    &&& n <= MAX_CHUNK
    &&& params.window_log < usize::BITS
    &&& 1 <= params.hash_log
    &&& pow2(head_bits(params, n)) <= usize::MAX
}

impl Frame {
    /// Whether this is the frame of a scene.
    pub open spec fn of(&self, sc: Scene) -> bool {
        &&& 16 < self.n <= MAX_CHUNK
        &&& self.n == sc.s.len()
        &&& self.ilimit == sc.ilimit()
        &&& self.window == sc.window
        &&& 1 <= self.window <= self.n
        &&& self.mls == sc.mls
        &&& self.hlog == sc.hlog
        &&& self.clog == sc.clog
        &&& 1 <= self.hlog <= 32
        &&& pow2(sc.hlog) <= usize::MAX
        &&& self.clog <= 31
        &&& pow2(sc.clog) <= usize::MAX
    }

    /// The frame of a level's parse of a chunk.
    pub fn new(chunk: &[u8], params: &LevelParams) -> (res: Self)
        requires
            chunk@.len() > 16,
            usable(*params, chunk@.len()),
        ensures
            res.of(scene_of(chunk@, *params)),
    {
        let n: usize = chunk.len();
        let bits: u32 = bit_length(
            if n < 64 {
                64
            } else {
                n
            },
        );
        proof {
            lemma2_to64();
            lemma_bit_len_bound(64, 31);
            lemma_bit_len_bound(n as nat, 31);
        }
        let hlog: u32 = if params.hash_log < bits + 1 {
            params.hash_log
        } else {
            bits + 1
        };
        let clog: u32 = if params.chain_log < bits {
            params.chain_log
        } else {
            bits
        };
        proof {
            if clog < 31 {
                lemma_pow2_strictly_increases(clog as nat, 31);
            }
        }
        let mls: u32 = if params.min_match < 4 {
            4
        } else if params.min_match > 8 {
            8
        } else {
            params.min_match
        };
        // A window of 2^31 already holds any chunk.
        let wlog: u32 = if params.window_log < 31 {
            params.window_log
        } else {
            31
        };
        proof {
            lemma_u64_shl_is_mul(1, wlog as u64);
            lemma_pow2_pos(params.window_log as nat);
            if wlog < params.window_log {
                lemma_pow2_strictly_increases(wlog as nat, params.window_log as nat);
            }
            if wlog < 31 {
                lemma_pow2_strictly_increases(wlog as nat, 31);
            }
        }
        let reach: u64 = 1u64 << wlog;
        let window: usize = if reach < n as u64 {
            reach as usize
        } else {
            n
        };
        Frame { n, ilimit: n - TAIL_MARGIN, window, mls, hlog, clog }
    }

    /// Enter `ip` for its hash.
    pub fn put(&self, chunk: &[u8], head: &mut Vec<i32>, ip: usize, Ghost(sc): Ghost<Scene>)
        requires
            self.of(sc),
            sc.s == chunk@,
            old(head)@.len() == pow2(sc.hlog),
            ip <= self.ilimit,
        ensures
            final(head)@ == sc.put(old(head)@, ip as int),
            final(head)@.len() == old(head)@.len(),
            forall|lim: int| #[trigger]
                entries_below(old(head)@, lim) && ip < lim ==> entries_below(final(head)@, lim),
    {
        let h: usize = zhash(chunk, ip, self.mls, self.hlog);
        head[h] = ip as i32;
    }

    /// The last position that was entered for the hash of `ip`.
    pub fn look(&self, chunk: &[u8], head: &Vec<i32>, ip: usize, Ghost(sc): Ghost<Scene>) -> (res:
        i32)
        requires
            self.of(sc),
            sc.s == chunk@,
            head@.len() == pow2(sc.hlog),
            ip <= self.ilimit,
        ensures
            res == sc.look(head@, ip as int),
            forall|lim: int| #[trigger] entries_below(head@, lim) ==> res < lim,
    {
        let h: usize = zhash(chunk, ip, self.mls, self.hlog);
        head[h]
    }

    /// Enter `ip` for its 8-byte hash.
    pub fn put_long(&self, chunk: &[u8], head2: &mut Vec<i32>, ip: usize, Ghost(sc): Ghost<Scene>)
        requires
            self.of(sc),
            self.clog >= 1,
            sc.s == chunk@,
            old(head2)@.len() == pow2(sc.clog),
            ip <= self.ilimit,
        ensures
            final(head2)@ == sc.put_long(old(head2)@, ip as int),
            final(head2)@.len() == old(head2)@.len(),
            forall|lim: int| #[trigger]
                entries_below(old(head2)@, lim) && ip < lim ==> entries_below(final(head2)@, lim),
    {
        let h: usize = zhash(chunk, ip, 8, self.clog);
        head2[h] = ip as i32;
    }

    /// The last position that was entered for the 8-byte hash of `ip`.
    pub fn look_long(&self, chunk: &[u8], head2: &Vec<i32>, ip: usize, Ghost(sc): Ghost<Scene>)
        -> (res: i32)
        requires
            self.of(sc),
            self.clog >= 1,
            sc.s == chunk@,
            head2@.len() == pow2(sc.clog),
            ip <= self.ilimit,
        ensures
            res == sc.look_long(head2@, ip as int),
            forall|lim: int| #[trigger] entries_below(head2@, lim) ==> res < lim,
    {
        let h: usize = zhash(chunk, ip, 8, self.clog);
        head2[h]
    }

    /// Repcode match length at `pos` for offset `r` (0 if none). Repcodes
    /// bypass the tables entirely, but respect the window.
    pub fn rep_probe(&self, chunk: &[u8], pos: usize, r: u32, Ghost(sc): Ghost<Scene>) -> (res:
        usize)
        requires
            self.of(sc),
            sc.s == chunk@,
            pos <= self.n,
        ensures
            res == sc.rep_len(pos as int, r as nat),
            res > 0 ==> 0 < r <= pos && r <= self.window && pos + 4 <= self.n,
            res > 0 ==> pos + res < self.n && agree_run(chunk@, pos - r, pos as int, res as int),
    {
        let off: usize = r as usize;
        if off > 0 && off <= pos && off <= self.window && pos + 4 <= self.n {
            if same4(chunk, pos - off, pos) {
                proof {
                    lemma_common_prefix(chunk@, pos - off, pos as int, match_room(chunk@, pos as int));
                }
                count(chunk, pos - off, pos)
            } else {
                0
            }
        } else {
            0
        }
    }

    /// `p`, but no later than the last position that can be hashed.
    pub fn hashable(&self, p: usize, Ghost(sc): Ghost<Scene>) -> (res: usize)
        requires
            self.of(sc),
        ensures
            res == sc.hashable(p as int),
            res <= self.ilimit,
            res <= p,
    {
        if p < self.ilimit {
            p
        } else {
            self.ilimit
        }
    }
}

/// What a parse reads is fitted to the chunk: it may look back as far as the
/// level's window, and no further than the chunk; it hashes between four and
/// eight bytes; and its tables have the level's size, or less where the chunk
/// is small: still more entries than the chunk has bytes, and no more than four
/// times as many for the heads, twice as many for the chains.
pub proof fn lemma_scene_fits(s: Seq<u8>, params: LevelParams)
    ensures
        ({
            let sc = scene_of(s, params);
            let n = if s.len() < 64 {
                64
            } else {
                s.len() as int
            };
            &&& sc.s == s
            &&& sc.window <= s.len() && sc.window <= pow2(params.window_log as nat)
            &&& sc.window == s.len() || sc.window == pow2(params.window_log as nat)
            &&& 4 <= sc.mls <= 8
            &&& 4 <= params.min_match <= 8 ==> sc.mls == params.min_match
            &&& params.min_match > 8 ==> sc.mls == 8
            &&& params.min_match < 4 ==> sc.mls == 4
            &&& sc.hlog <= params.hash_log
            &&& sc.hlog == params.hash_log || 2 * n < pow2(sc.hlog) <= 4 * n
            &&& pow2(sc.hlog) <= 4 * n
            &&& sc.clog <= params.chain_log
            &&& sc.clog == params.chain_log || n < pow2(sc.clog) <= 2 * n
            &&& pow2(sc.clog) <= 2 * n
        }),
{
    let n: nat = if s.len() < 64 {
        64
    } else {
        s.len()
    };
    let bits = chunk_bits(s.len());
    let sc = scene_of(s, params);
    lemma_bit_len(n);
    lemma_pow2_unfold(bits);
    lemma_pow2_unfold(bits + 1);
    if sc.hlog < bits + 1 {
        lemma_pow2_strictly_increases(sc.hlog, bits + 1);
    }
    if sc.clog < bits {
        lemma_pow2_strictly_increases(sc.clog, bits);
    }
}

} // verus!
