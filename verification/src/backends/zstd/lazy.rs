//! The `lazy` family (zstd_lazy.c, hash-chain mode): hash chains searched to
//! a bounded depth, and a match put off when a later one gains more. The bt*
//! strategies are approximated by deep chains.

use super::parse::{close, emit, genuine, lemma_close_ok, store, Parse, Recorder};
use super::tables::{
    ahead, entries_below, fresh_table, reset_table, Frame, ParseTables, Scene,
};
use super::words::{
    agree_run, common_suffix, count, count_back, hb32, high_bit, lemma_agree_join, match_len, same4,
};
use vstd::arithmetic::power2::{lemma2_to64, lemma_pow2_pos, lemma_pow2_strictly_increases, pow2};
use vstd::bits::{lemma_u64_low_bits_mask_is_mod, lemma_u64_shl_is_mul, low_bits_mask};
use vstd::prelude::*;

verus! {

/// Once the lazy miss step exceeds this, insertion switches to sparse mode:
/// only searched positions enter the tables.
pub const LAZY_SKIPPING_STEP: usize = 8;

/// The hash chains: the head of each chain, the ring of predecessors, and the
/// first position that was not entered yet.
pub struct Chains {
    pub head: Seq<i32>,
    pub prev: Seq<i32>,
    pub next: int,
}

/// A match that is held for now; `base` is 1 for the newest offset, else the
/// offset plus 3.
pub struct Held {
    pub start: int,
    pub len: nat,
    pub base: nat,
}

/// Enter the position `idx` at the head of its chain.
pub open spec fn enter(sc: Scene, c: Chains, idx: int) -> Chains {
    Chains {
        head: sc.put(c.head, idx),
        prev: c.prev.update(idx % (pow2(sc.clog) as int), sc.look(c.head, idx)),
        next: idx + 1,
    }
}

/// Enter every position before `ip` that was not entered yet.
pub open spec fn catch_up(sc: Scene, c: Chains, ip: int) -> Chains
    decreases ip - c.next,
{
    if c.next >= ip {
        c
    } else {
        catch_up(sc, enter(sc, c, c.next), ip)
    }
}

/// The chains when `ip` is searched. While skipping, only one position is
/// entered and the rest is left out.
pub open spec fn refresh(sc: Scene, c: Chains, ip: int, skipping: bool) -> Chains {
    if skipping {
        let d = if c.next < ip {
            enter(sc, c, c.next)
        } else {
            c
        };
        Chains { head: d.head, prev: d.prev, next: ip }
    } else {
        catch_up(sc, c, ip)
    }
}

/// `a - b`, at least 0.
pub open spec fn sub_or_zero(a: int, b: int) -> int {
    if a < b {
        0
    } else {
        a - b
    }
}

/// Walk a chain from the candidate `cand`, keeping the longest match so far:
/// its length and offset. A candidate is only followed when it still agrees
/// at the end of the longest match so far.
pub open spec fn walk(
    sc: Scene,
    prev: Seq<i32>,
    ip: int,
    cand: int,
    attempts: nat,
    len: nat,
    off: nat,
) -> (nat, nat)
    decreases attempts,
{
    if cand < sub_or_zero(ip, sc.window as int) || attempts == 0 {
        (len, off)
    } else {
        let l = match_len(sc.s, cand, ip);
        let better = agree_run(sc.s, cand + len - 3, ip + len - 3, 4) && l > len;
        let (len1, off1) = if better {
            (l, (ip - cand) as nat)
        } else {
            (len, off)
        };
        let follow = prev[cand % (pow2(sc.clog) as int)] as int;
        if better && ip + l >= sc.s.len() - 1 {
            (len1, off1)
        } else if cand <= sub_or_zero(ip, pow2(sc.clog) as int) || follow >= cand {
            (len1, off1)
        } else {
            walk(sc, prev, ip, follow, (attempts - 1) as nat, len1, off1)
        }
    }
}

/// The longest match that the chain of `ip` holds, as length and offset; the
/// length is 3 when there is none of at least 4 bytes.
pub open spec fn longest(sc: Scene, c: Chains, ip: int, attempts: nat) -> (nat, nat) {
    walk(sc, c.prev, ip, sc.look(c.head, ip) as int, attempts, 3, 0)
}

/// What the chains gain by a match: four per byte, less the bits of its
/// offset.
pub open spec fn gain(len: nat, base: nat) -> int {
    4 * len - high_bit(base)
}

/// Hold the newest offset at `ip` instead of `h`, if `weight` per byte make
/// up for the offset bits.
pub open spec fn try_repeat(sc: Scene, rep: nat, ip: int, h: Held, weight: int) -> Held {
    let l = sc.rep_len(ip, rep);
    if l >= 4 && weight * l > weight * h.len - high_bit(h.base) + 1 {
        Held { start: ip, len: l, base: 1 }
    } else {
        h
    }
}

/// Look one byte later (and, at depth 2, two) for a match that gains more
/// than the one held, as long as there is one.
pub open spec fn put_off(
    sc: Scene,
    rep: nat,
    depth: nat,
    attempts: nat,
    skipping: bool,
    c: Chains,
    ip: int,
    h: Held,
) -> (Chains, Held)
    decreases ahead(sc, ip),
{
    if ip >= sc.ilimit() {
        (c, h)
    } else {
        let h1 = try_repeat(sc, rep, ip + 1, h, 3);
        let c1 = refresh(sc, c, ip + 1, skipping);
        let (len1, off1) = longest(sc, c1, ip + 1, attempts);
        if len1 >= 4 && gain(len1, off1 + 3) > gain(h1.len, h1.base) + 4 {
            put_off(
                sc,
                rep,
                depth,
                attempts,
                skipping,
                c1,
                ip + 1,
                Held { start: ip + 1, len: len1, base: off1 + 3 },
            )
        } else if depth == 2 && ip + 1 < sc.ilimit() {
            let h2 = try_repeat(sc, rep, ip + 2, h1, 4);
            let c2 = refresh(sc, c1, ip + 2, skipping);
            let (len2, off2) = longest(sc, c2, ip + 2, attempts);
            if len2 >= 4 && gain(len2, off2 + 3) > gain(h2.len, h2.base) + 7 {
                put_off(
                    sc,
                    rep,
                    depth,
                    attempts,
                    skipping,
                    c2,
                    ip + 2,
                    Held { start: ip + 2, len: len2, base: off2 + 3 },
                )
            } else {
                (c2, h2)
            }
        } else {
            (c1, h1)
        }
    }
}

/// Matches of the second offset that follow a match at once.
pub open spec fn chain(sc: Scene, p: Parse, ip: int) -> (Parse, int)
    decreases ahead(sc, ip),
{
    let len = sc.rep_len(ip, p.rep.second);
    if ip > sc.ilimit() || len < 4 {
        (p, ip)
    } else {
        chain(sc, emit(sc.s, p, ip, len, p.rep.second), ip + len)
    }
}

/// Record the match that is held; one from the chains is first extended
/// backward.
pub open spec fn release(sc: Scene, p: Parse, h: Held) -> Parse {
    if h.base > 3 {
        let off = (h.base - 3) as nat;
        let room = if h.start - p.lit_start < h.start - off {
            h.start - p.lit_start
        } else {
            h.start - off
        };
        let back = common_suffix(sc.s, h.start - off, h.start, room as nat);
        emit(sc.s, p, h.start - back, h.len + back, off)
    } else {
        emit(sc.s, p, h.start, h.len, p.rep.first)
    }
}

/// Where the search goes on after a miss: the longer the literal run, the
/// wider the step.
pub open spec fn miss_step(p: Parse, ip: int) -> int {
    sub_or_zero(ip, p.lit_start) / 256 + 1
}

/// The state between two searches.
pub struct At {
    pub chains: Chains,
    pub parse: Parse,
    pub ip: int,
    pub skipping: bool,
}

/// The newest offset behind `ip`, if four bytes repeat there.
pub open spec fn held_repeat(sc: Scene, p: Parse, ip: int) -> Held {
    let l = sc.rep_len(ip + 1, p.rep.first);
    Held {
        start: ip + 1,
        len: if l >= 4 {
            l
        } else {
            0
        },
        base: 1,
    }
}

/// One search and what it leads to.
pub open spec fn advance(sc: Scene, depth: nat, attempts: nat, a: At) -> At {
    let p = close(sc.s, a.parse, a.ip);
    let repeat = held_repeat(sc, p, a.ip);
    if depth == 0 && repeat.len >= 4 {
        let q = store(sc.s, p, a.ip + 1, repeat.len, p.rep.first);
        let (r, ip) = chain(sc, q, a.ip + 1 + repeat.len);
        At { chains: a.chains, parse: r, ip, skipping: a.skipping }
    } else {
        let c = refresh(sc, a.chains, a.ip, a.skipping);
        let (len, off) = longest(sc, c, a.ip, attempts);
        let h = if len >= 4 && len > repeat.len {
            Held { start: a.ip, len, base: off + 3 }
        } else {
            repeat
        };
        if h.len < 4 {
            let step = miss_step(p, a.ip);
            At { chains: c, parse: p, ip: a.ip + step, skipping: step > LAZY_SKIPPING_STEP }
        } else {
            let (c1, h1) = if depth >= 1 {
                put_off(sc, p.rep.first, depth, attempts, a.skipping, c, a.ip, h)
            } else {
                (c, h)
            };
            let (r, ip) = chain(sc, release(sc, p, h1), h1.start + h1.len);
            At { chains: c1, parse: r, ip, skipping: false }
        }
    }
}

/// The parse from a state to the end of the chunk.
pub open spec fn parse_from(sc: Scene, depth: nat, attempts: nat, a: At) -> (Chains, Parse)
    decreases ahead(sc, a.ip),
{
    if a.ip >= sc.ilimit() {
        (a.chains, a.parse)
    } else {
        proof {
            lemma_advance_ahead(sc, depth, attempts, a);
        }
        parse_from(sc, depth, attempts, advance(sc, depth, attempts, a))
    }
}

/// The chains before anything was entered.
pub open spec fn fresh_chains(sc: Scene) -> Chains {
    Chains { head: fresh_table(sc.hlog), prev: fresh_table(sc.clog), next: 0 }
}

/// The parse of a whole chunk, and what its chains hold at the end.
pub open spec fn parse_lazy(sc: Scene, depth: nat, attempts: nat, p: Parse) -> (Chains, Parse) {
    parse_from(
        sc,
        depth,
        attempts,
        At { chains: fresh_chains(sc), parse: p, ip: 0, skipping: false },
    )
}

proof fn lemma_chain_ahead(sc: Scene, p: Parse, ip: int)
    ensures
        chain(sc, p, ip).1 >= ip,
    decreases ahead(sc, ip),
{
    let len = sc.rep_len(ip, p.rep.second);
    if ip > sc.ilimit() || len < 4 {
    } else {
        lemma_chain_ahead(sc, emit(sc.s, p, ip, len, p.rep.second), ip + len);
    }
}

proof fn lemma_put_off_ahead(
    sc: Scene,
    rep: nat,
    depth: nat,
    attempts: nat,
    skipping: bool,
    c: Chains,
    ip: int,
    h: Held,
)
    requires
        h.start >= ip,
        h.len >= 4,
    ensures
        put_off(sc, rep, depth, attempts, skipping, c, ip, h).1.start >= ip,
        put_off(sc, rep, depth, attempts, skipping, c, ip, h).1.len >= 4,
    decreases ahead(sc, ip),
{
    if ip >= sc.ilimit() {
    } else {
        let h1 = try_repeat(sc, rep, ip + 1, h, 3);
        let c1 = refresh(sc, c, ip + 1, skipping);
        let (len1, off1) = longest(sc, c1, ip + 1, attempts);
        if len1 >= 4 && gain(len1, off1 + 3) > gain(h1.len, h1.base) + 4 {
            lemma_put_off_ahead(
                sc,
                rep,
                depth,
                attempts,
                skipping,
                c1,
                ip + 1,
                Held { start: ip + 1, len: len1, base: off1 + 3 },
            );
        } else if depth == 2 && ip + 1 < sc.ilimit() {
            let h2 = try_repeat(sc, rep, ip + 2, h1, 4);
            let c2 = refresh(sc, c1, ip + 2, skipping);
            let (len2, off2) = longest(sc, c2, ip + 2, attempts);
            if len2 >= 4 && gain(len2, off2 + 3) > gain(h2.len, h2.base) + 7 {
                lemma_put_off_ahead(
                    sc,
                    rep,
                    depth,
                    attempts,
                    skipping,
                    c2,
                    ip + 2,
                    Held { start: ip + 2, len: len2, base: off2 + 3 },
                );
            }
        }
    }
}

/// Every search gets the parse ahead.
pub proof fn lemma_advance_ahead(sc: Scene, depth: nat, attempts: nat, a: At)
    ensures
        advance(sc, depth, attempts, a).ip > a.ip,
{
    let p = close(sc.s, a.parse, a.ip);
    let repeat = held_repeat(sc, p, a.ip);
    if depth == 0 && repeat.len >= 4 {
        lemma_chain_ahead(
            sc,
            store(sc.s, p, a.ip + 1, repeat.len, p.rep.first),
            a.ip + 1 + repeat.len,
        );
    } else {
        let c = refresh(sc, a.chains, a.ip, a.skipping);
        let (len, off) = longest(sc, c, a.ip, attempts);
        let h = if len >= 4 && len > repeat.len {
            Held { start: a.ip, len, base: off + 3 }
        } else {
            repeat
        };
        if h.len >= 4 {
            lemma_put_off_ahead(sc, p.rep.first, depth, attempts, a.skipping, c, a.ip, h);
            let h1 = if depth >= 1 {
                put_off(sc, p.rep.first, depth, attempts, a.skipping, c, a.ip, h).1
            } else {
                h
            };
            lemma_chain_ahead(sc, release(sc, p, h1), h1.start + h1.len);
        }
    }
}

/// Whether all that the chains hold was entered, and their sizes are right.
pub open spec fn sound(sc: Scene, c: Chains) -> bool {
    &&& c.head.len() == pow2(sc.hlog)
    &&& c.prev.len() == pow2(sc.clog)
    &&& 0 <= c.next
    &&& entries_below(c.head, c.next)
    &&& entries_below(c.prev, c.next)
}

impl ParseTables {
    /// The part of the tables that makes up the hash chains.
    pub open spec fn chains(&self) -> Chains {
        Chains { head: self.head@, prev: self.prev@, next: self.next_to_update as int }
    }
}

/// Slot of a position in the ring of predecessors.
fn ring_slot(pos: usize, clog: u32) -> (res: usize)
    requires
        clog <= 31,
        pow2(clog as nat) <= usize::MAX,
    ensures
        res == pos as int % (pow2(clog as nat) as int),
        res < pow2(clog as nat),
{
    proof {
        lemma2_to64();
        lemma_pow2_pos(clog as nat);
        lemma_pow2_strictly_increases(clog as nat, 32);
        lemma_u64_shl_is_mul(1, clog as u64);
        lemma_u64_low_bits_mask_is_mod(pos as u64, clog as nat);
    }
    let mask: u64 = (1u64 << clog) - 1;
    assert(mask == low_bits_mask(clog as nat));
    (pos as u64 & mask) as usize
}

/// Enter the position `next_to_update` at the head of its chain.
fn enter_next(fr: &Frame, chunk: &[u8], t: &mut ParseTables, Ghost(sc): Ghost<Scene>)
    requires
        fr.of(sc),
        sc.s == chunk@,
        sound(sc, old(t).chains()),
        old(t).next_to_update <= fr.ilimit,
    ensures
        final(t).chains() == enter(sc, old(t).chains(), old(t).next_to_update as int),
        final(t).head2@ == old(t).head2@,
        sound(sc, final(t).chains()),
{
    let idx: usize = t.next_to_update;
    let before: i32 = fr.look(chunk, &t.head, idx, Ghost(sc));
    let slot: usize = ring_slot(idx, fr.clog);
    t.prev[slot] = before;
    proof {
        assert(entries_below(t.head@, idx + 1));
    }
    fr.put(chunk, &mut t.head, idx, Ghost(sc));
    t.next_to_update = idx + 1;
}

/// Catch-up insertion: everything before `ip` enters the chains, except while
/// skipping, where the cursor jumps ahead leaving the skipped positions out.
fn insert_up_to(
    fr: &Frame,
    chunk: &[u8],
    t: &mut ParseTables,
    ip: usize,
    skipping: bool,
    Ghost(sc): Ghost<Scene>,
)
    requires
        fr.of(sc),
        sc.s == chunk@,
        sound(sc, old(t).chains()),
        old(t).next_to_update <= ip <= fr.ilimit,
    ensures
        final(t).chains() == refresh(sc, old(t).chains(), ip as int, skipping),
        final(t).head2@ == old(t).head2@,
        sound(sc, final(t).chains()),
        final(t).next_to_update == ip,
{
    if skipping {
        if t.next_to_update < ip {
            enter_next(fr, chunk, t, Ghost(sc));
        }
        t.next_to_update = ip;
    } else {
        while t.next_to_update < ip
            invariant
                fr.of(sc),
                sc.s == chunk@,
                sound(sc, t.chains()),
                t.next_to_update <= ip <= fr.ilimit,
                t.head2@ == old(t).head2@,
                catch_up(sc, t.chains(), ip as int) == catch_up(
                    sc,
                    old(t).chains(),
                    ip as int,
                ),
            decreases ip - t.next_to_update,
        {
            enter_next(fr, chunk, t, Ghost(sc));
        }
    }
}

/// `ZSTD_HcFindBestMatch` (noDict): catch-up insertion up to `ip`, then walk
/// the hash chain for the longest match within window and chain bounds.
/// Returns its length and offset; the length is 3 when nothing of at least 4
/// bytes was found.
fn search_max(
    fr: &Frame,
    chunk: &[u8],
    t: &mut ParseTables,
    ip: usize,
    nb_attempts: u64,
    skipping: bool,
    Ghost(sc): Ghost<Scene>,
) -> (res: (usize, usize))
    requires
        fr.of(sc),
        sc.s == chunk@,
        sound(sc, old(t).chains()),
        old(t).next_to_update <= ip <= fr.ilimit,
    ensures
        final(t).chains() == refresh(sc, old(t).chains(), ip as int, skipping),
        final(t).head2@ == old(t).head2@,
        sound(sc, final(t).chains()),
        final(t).next_to_update == ip,
        (res.0 as nat, res.1 as nat) == longest(
            sc,
            final(t).chains(),
            ip as int,
            nb_attempts as nat,
        ),
        res.0 >= 3,
        res.1 <= ip,
        res.0 >= 4 ==> 1 <= res.1 <= ip && res.1 <= fr.window && ip + res.0 < fr.n && agree_run(
            sc.s,
            ip - res.1,
            ip as int,
            res.0 as int,
        ),
{
    insert_up_to(fr, chunk, t, ip, skipping, Ghost(sc));
    let ghost c = t.chains();
    let n: usize = fr.n;
    let low_limit: usize = if ip < fr.window {
        0
    } else {
        ip - fr.window
    };
    let ring: usize = t.prev.len();
    let min_chain: usize = if ip < ring {
        0
    } else {
        ip - ring
    };
    let mut cand: i32 = fr.look(chunk, &t.head, ip, Ghost(sc));
    let mut len: usize = 3;
    let mut off: usize = 0;
    let mut attempts: u64 = nb_attempts;
    while cand >= 0 && cand as usize >= low_limit && attempts > 0
        invariant_except_break
            walk(
                sc,
                c.prev,
                ip as int,
                cand as int,
                attempts as nat,
                len as nat,
                off as nat,
            ) == longest(sc, c, ip as int, nb_attempts as nat),
        invariant
            fr.of(sc),
            sc.s == chunk@,
            n == fr.n,
            c == t.chains(),
            sound(sc, c),
            c.next == ip,
            ip <= fr.ilimit,
            ring == pow2(sc.clog),
            low_limit as int == (if ip < sc.window {
                0
            } else {
                ip - sc.window
            }),
            min_chain as int == (if ip < ring {
                0
            } else {
                ip - ring
            }),
            cand < ip,
            len >= 3,
            off <= ip,
            len == 3 ==> ip + len + 1 <= n,
            len >= 4 ==> 1 <= off <= ip && off <= fr.window && ip + len < n && agree_run(
                sc.s,
                ip - off,
                ip as int,
                len as int,
            ),
        ensures
            (len as nat, off as nat) == longest(sc, c, ip as int, nb_attempts as nat),
        decreases attempts,
    {
        let from: usize = cand as usize;
        if same4(chunk, from + len - 3, ip + len - 3) {
            let l: usize = count(chunk, from, ip);
            if l > len {
                len = l;
                off = ip - from;
                if ip + l >= n - 1 {
                    break ;
                }
            }
        }
        attempts = attempts - 1;
        if from <= min_chain {
            break ;
        }
        let slot: usize = ring_slot(from, fr.clog);
        let follow: i32 = t.prev[slot];
        if follow >= cand {
            break ;
        }
        cand = follow;
    }
    (len, off)
}

/// The executable form of [`Held`].
#[derive(Clone, Copy)]
pub struct Kept {
    pub start: usize,
    pub len: usize,
    pub base: u32,
}

impl Kept {
    /// The match that is held.
    pub open spec fn held(&self) -> Held {
        Held { start: self.start as int, len: self.len as nat, base: self.base as nat }
    }

    /// Whether the match is a genuine one at `ip` or later, within the window.
    pub open spec fn fits(&self, sc: Scene, rep: u32, ip: int) -> bool {
        let off = if self.base == 1 {
            rep as int
        } else {
            self.base - 3
        };
        &&& ip <= self.start
        &&& self.base == 1 || self.base > 3
        &&& genuine(sc.s, self.start as int, self.len as nat, off as nat)
        &&& off <= sc.window
    }
}

/// Hold the newest offset at `ip` instead of `h`, if `weight` per byte make
/// up for the offset bits.
fn prefer_repeat(
    fr: &Frame,
    chunk: &[u8],
    rep: u32,
    ip: usize,
    h: Kept,
    weight: i64,
    Ghost(sc): Ghost<Scene>,
) -> (res: Kept)
    requires
        fr.of(sc),
        sc.s == chunk@,
        1 <= weight <= 4,
        ip <= fr.n,
        h.fits(sc, rep, ip - 2),
    ensures
        res.held() == try_repeat(sc, rep as nat, ip as int, h.held(), weight as int),
        res == h || res.start == ip,
        res.fits(sc, rep, ip - 2),
{
    let len: usize = fr.rep_probe(chunk, ip, rep, Ghost(sc));
    if len >= 4 {
        let bits: i64 = hb32(h.base) as i64;
        proof {
            assert(0 <= weight * len <= 4 * 0x7fff_ffff) by (nonlinear_arith)
                requires
                    1 <= weight <= 4,
                    0 <= len <= 0x7fff_ffff,
            ;
            assert(0 <= weight * h.len <= 4 * 0x7fff_ffff) by (nonlinear_arith)
                requires
                    1 <= weight <= 4,
                    0 <= h.len <= 0x7fff_ffff,
            ;
        }
        if weight * len as i64 > weight * h.len as i64 - bits + 1 {
            return Kept { start: ip, len, base: 1 };
        }
    }
    h
}

/// Whether a match of length `len` and offset `off` gains more than `h` by
/// more than `margin`.
fn gains_more(len: usize, off: usize, h: Kept, margin: i64) -> (res: bool)
    requires
        3 <= len <= 0x7fff_ffff,
        off <= 0x7fff_ffff,
        h.len <= 0x7fff_ffff,
        0 <= margin <= 7,
    ensures
        res == (len >= 4 && gain(len as nat, off as nat + 3) > gain(
            h.held().len,
            h.held().base,
        ) + margin),
{
    let mine: i64 = len as i64 * 4 - hb32(off as u32 + 3) as i64;
    let theirs: i64 = h.len as i64 * 4 - hb32(h.base) as i64 + margin;
    len >= 4 && mine > theirs
}

/// Look one byte later (and, at depth 2, two) for a match that gains more
/// than the one held, as long as there is one.
fn deepen(
    fr: &Frame,
    chunk: &[u8],
    t: &mut ParseTables,
    rep: u32,
    depth: u32,
    nb_attempts: u64,
    skipping: bool,
    from: usize,
    first: Kept,
    Ghost(sc): Ghost<Scene>,
) -> (res: Kept)
    requires
        fr.of(sc),
        sc.s == chunk@,
        sound(sc, old(t).chains()),
        old(t).next_to_update == from,
        from <= fr.ilimit,
        first.fits(sc, rep, from as int),
    ensures
        (final(t).chains(), res.held()) == put_off(
            sc,
            rep as nat,
            depth as nat,
            nb_attempts as nat,
            skipping,
            old(t).chains(),
            from as int,
            first.held(),
        ),
        final(t).head2@ == old(t).head2@,
        sound(sc, final(t).chains()),
        final(t).next_to_update <= res.start + 2,
        res.fits(sc, rep, from as int),
{
    let mut ip: usize = from;
    let mut h: Kept = first;
    loop
        invariant
            fr.of(sc),
            sc.s == chunk@,
            sound(sc, t.chains()),
            t.head2@ == old(t).head2@,
            t.next_to_update == ip,
            from <= ip <= fr.ilimit,
            h.fits(sc, rep, ip as int),
            put_off(
                sc,
                rep as nat,
                depth as nat,
                nb_attempts as nat,
                skipping,
                t.chains(),
                ip as int,
                h.held(),
            ) == put_off(
                sc,
                rep as nat,
                depth as nat,
                nb_attempts as nat,
                skipping,
                old(t).chains(),
                from as int,
                first.held(),
            ),
        decreases fr.ilimit - ip,
    {
        if ip >= fr.ilimit {
            return h;
        }
        let h1: Kept = prefer_repeat(fr, chunk, rep, ip + 1, h, 3, Ghost(sc));
        let (len1, off1): (usize, usize) = search_max(
            fr,
            chunk,
            t,
            ip + 1,
            nb_attempts,
            skipping,
            Ghost(sc),
        );
        if gains_more(len1, off1, h1, 4) {
            h = Kept { start: ip + 1, len: len1, base: off1 as u32 + 3 };
            ip = ip + 1;
            continue ;
        }
        if depth != 2 || ip + 1 >= fr.ilimit {
            return h1;
        }
        let h2: Kept = prefer_repeat(fr, chunk, rep, ip + 2, h1, 4, Ghost(sc));
        let (len2, off2): (usize, usize) = search_max(
            fr,
            chunk,
            t,
            ip + 2,
            nb_attempts,
            skipping,
            Ghost(sc),
        );
        if !gains_more(len2, off2, h2, 7) {
            return h2;
        }
        h = Kept { start: ip + 2, len: len2, base: off2 as u32 + 3 };
        ip = ip + 2;
    }
}

/// Immediate repcode chaining on the second offset (the lazy family inserts
/// nothing here). Returns where the parse goes on.
fn lazy_after_match(fr: &Frame, rec: &mut Recorder<'_>, ip: usize, Ghost(sc): Ghost<Scene>) -> (res:
    usize)
    requires
        fr.of(sc),
        sc.s == old(rec).chunk@,
        old(rec).window@ == sc.window,
        old(rec).wf(),
        old(rec).lit_start == ip,
        ip <= fr.n,
    ensures
        final(rec).wf(),
        final(rec).chunk == old(rec).chunk,
        final(rec).window == old(rec).window,
        final(rec).tracing == old(rec).tracing,
        final(rec).lit_start == res,
        ip <= res <= fr.n,
        (final(rec).parse@, res as int) == chain(sc, old(rec).parse@, ip as int),
{
    let chunk = rec.chunk;
    let mut pos: usize = ip;
    loop
        invariant
            fr.of(sc),
            chunk == old(rec).chunk,
            rec.chunk == chunk,
            rec.window == old(rec).window,
            rec.tracing == old(rec).tracing,
            rec.window@ == sc.window,
            sc.s == chunk@,
            rec.wf(),
            rec.lit_start == pos,
            ip <= pos <= fr.n,
            chain(sc, rec.parse@, pos as int) == chain(sc, old(rec).parse@, ip as int),
        decreases fr.n - pos,
    {
        if pos > fr.ilimit {
            return pos;
        }
        let r1: u32 = rec.rep[1];
        let len: usize = fr.rep_probe(chunk, pos, r1, Ghost(sc));
        if len < 4 {
            return pos;
        }
        rec.emit(pos, len, r1);
        pos = pos + len;
    }
}

/// Record the match that is held; one from the chains is first extended
/// backward. Returns where it ends.
fn store_held(fr: &Frame, rec: &mut Recorder<'_>, h: Kept, Ghost(sc): Ghost<Scene>) -> (res: usize)
    requires
        fr.of(sc),
        sc.s == old(rec).chunk@,
        old(rec).window@ == sc.window,
        old(rec).wf(),
        h.fits(sc, old(rec).rep@[0], old(rec).lit_start as int),
    ensures
        final(rec).wf(),
        final(rec).chunk == old(rec).chunk,
        final(rec).window == old(rec).window,
        final(rec).tracing == old(rec).tracing,
        final(rec).lit_start == res,
        res == h.start + h.len,
        final(rec).parse@ == release(sc, old(rec).parse@, h.held()),
{
    if h.base > 3 {
        let off: usize = (h.base - 3) as usize;
        let room: usize = if h.start - rec.lit_start < h.start - off {
            h.start - rec.lit_start
        } else {
            h.start - off
        };
        let back: usize = count_back(rec.chunk, h.start - off, h.start, room);
        proof {
            lemma_agree_join(
                sc.s,
                h.start - off - back,
                h.start - back,
                back as int,
                h.len as int,
            );
        }
        rec.emit(h.start - back, h.len + back, h.base - 3);
    } else {
        let r0: u32 = rec.rep[0];
        rec.emit(h.start, h.len, r0);
    }
    h.start + h.len
}

/// Replay a parse of the `lazy` family of the recorder's chunk.
pub fn replay_lazy(
    fr: &Frame,
    rec: &mut Recorder<'_>,
    t: &mut ParseTables,
    depth: u32,
    nb_attempts: u64,
    Ghost(sc): Ghost<Scene>,
)
    requires
        fr.of(sc),
        sc.s == old(rec).chunk@,
        old(rec).window@ == sc.window,
        old(rec).wf(),
        old(rec).lit_start == 0,
    ensures
        final(rec).wf(),
        final(rec).chunk == old(rec).chunk,
        final(rec).window == old(rec).window,
        final(rec).tracing == old(rec).tracing,
        (final(t).chains(), final(rec).parse@) == parse_lazy(
            sc,
            depth as nat,
            nb_attempts as nat,
            old(rec).parse@,
        ),
        final(t).head2@ == old(t).head2@,
{
    let chunk = rec.chunk;
    reset_table(&mut t.head, fr.hlog);
    reset_table(&mut t.prev, fr.clog);
    t.next_to_update = 0;
    let mut ip: usize = 0;
    let mut skipping: bool = false;
    proof {
        assert(t.chains() == fresh_chains(sc));
    }
    while ip < fr.ilimit
        invariant
            fr.of(sc),
            chunk == old(rec).chunk,
            rec.chunk == chunk,
            rec.window == old(rec).window,
            rec.tracing == old(rec).tracing,
            rec.window@ == sc.window,
            sc.s == chunk@,
            rec.wf(),
            rec.lit_start <= ip <= 2 * fr.n,
            sound(sc, t.chains()),
            t.head2@ == old(t).head2@,
            t.next_to_update <= ip,
            parse_from(
                sc,
                depth as nat,
                nb_attempts as nat,
                At { chains: t.chains(), parse: rec.parse@, ip: ip as int, skipping },
            ) == parse_lazy(sc, depth as nat, nb_attempts as nat, old(rec).parse@),
        decreases ahead(sc, ip as int),
    {
        let ghost a = At { chains: t.chains(), parse: rec.parse@, ip: ip as int, skipping };
        proof {
            lemma_close_ok(sc.s, rec.parse@, ip as int);
            lemma_advance_ahead(sc, depth as nat, nb_attempts as nat, a);
        }
        rec.close_blocks_up_to(ip);
        let r0: u32 = rec.rep[0];
        let rep_len: usize = fr.rep_probe(chunk, ip + 1, r0, Ghost(sc));
        let mut h: Kept = Kept {
            start: ip + 1,
            len: if rep_len >= 4 {
                rep_len
            } else {
                0
            },
            base: 1,
        };
        proof {
            assert(h.held() == held_repeat(sc, rec.parse@, ip as int));
        }
        if depth == 0 && h.len >= 4 {
            rec.store(ip + 1, h.len, r0);
            ip = lazy_after_match(fr, rec, ip + 1 + h.len, Ghost(sc));
            continue ;
        }
        let (len, off): (usize, usize) = search_max(
            fr,
            chunk,
            t,
            ip,
            nb_attempts,
            skipping,
            Ghost(sc),
        );
        if len >= 4 && len > h.len {
            h = Kept { start: ip, len, base: off as u32 + 3 };
        }
        if h.len < 4 {
            let lits: usize = ip - rec.lit_start;
            let step: usize = lits / 256 + 1;
            ip = ip + step;
            skipping = step > LAZY_SKIPPING_STEP;
            continue ;
        }
        if depth >= 1 {
            h = deepen(fr, chunk, t, r0, depth, nb_attempts, skipping, ip, h, Ghost(sc));
        }
        let end: usize = store_held(fr, rec, h, Ghost(sc));
        ip = lazy_after_match(fr, rec, end, Ghost(sc));
        skipping = false;
    }
}

} // verus!
