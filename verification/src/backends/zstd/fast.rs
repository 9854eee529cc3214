//! The `fast` parse loop (zstd_fast.c): one hash table, two positions looked
//! up per step, a step that widens while nothing is found.

use super::parse::{emit, Parse, Recorder};
use super::tables::{ahead, entries_below, fresh_table, reset_table, Frame, Scene};
use super::words::{
    agree, agree_run, common_suffix, count, count_back, lemma_agree_join, match_len, same4,
};
use vstd::arithmetic::power2::pow2;
use vstd::prelude::*;

verus! {

/// Distance after which the step widens by one: `1 << (8 - 1)`.
pub const STEP_INCR: usize = 128;

/// How a search ends: at the end of the chunk, on a repeat of the newest
/// offset at `at`, or on a table candidate `from` for the position `at`.
/// `cur` is the position that the search stood at.
pub enum Found {
    Nothing,
    Repeat { at: int, cur: int },
    Table { from: int, at: int },
}

/// Search from `ip0` on. Each step tries the newest offset at `ip2`, then
/// looks up and enters `ip0` and the position behind it, then moves to `ip2`.
pub open spec fn search(
    sc: Scene,
    rep: nat,
    head: Seq<i32>,
    ip0: int,
    ip2: int,
    step: int,
    next_step: int,
) -> (Seq<i32>, Found)
    decreases ahead(sc, ip0),
{
    if ip2 + 1 >= sc.ilimit() || ip2 < ip0 + 2 {
        (head, Found::Nothing)
    } else if sc.rep_len(ip2, rep) >= 4 {
        (sc.put(head, ip0 + 1), Found::Repeat { at: ip2, cur: ip0 })
    } else {
        let m0 = sc.look(head, ip0);
        let head1 = sc.put(head, ip0);
        if sc.hit(m0, ip0, 4) {
            (sc.put(head1, ip0 + 1), Found::Table { from: m0 as int, at: ip0 })
        } else {
            let m1 = sc.look(head1, ip0 + 1);
            let head2 = sc.put(head1, ip0 + 1);
            if sc.hit(m1, ip0 + 1, 4) {
                (
                    if step <= 4 {
                        sc.put(head2, ip2)
                    } else {
                        head2
                    },
                    Found::Table { from: m1 as int, at: ip0 + 1 },
                )
            } else if ip2 + step >= next_step {
                search(sc, rep, head2, ip2, ip2 + step, step + 1, next_step + STEP_INCR)
            } else {
                search(sc, rep, head2, ip2, ip2 + step, step, next_step)
            }
        }
    }
}

/// A repeat found at `at` is taken one byte earlier when that byte repeats
/// too.
pub open spec fn repeat_back(sc: Scene, at: int, r: nat) -> nat {
    if at > r && sc.s[at - 1] == sc.s[at - r - 1] {
        1
    } else {
        0
    }
}

/// Matches of the second offset that follow a match at once.
pub open spec fn chain(sc: Scene, head: Seq<i32>, p: Parse, ip: int) -> (Seq<i32>, Parse, int)
    decreases ahead(sc, ip),
{
    let len = sc.rep_len(ip, p.rep.second);
    if ip > sc.ilimit() || len < 4 {
        (head, p, ip)
    } else {
        chain(sc, sc.put(head, ip), emit(sc.s, p, ip, len, p.rep.second), ip + len)
    }
}

/// What follows a match that ends at `ip`, found while at `cur`: two more
/// positions are entered, then the second offset is tried at once.
pub open spec fn after_match(
    sc: Scene,
    head: Seq<i32>,
    p: Parse,
    ip: int,
    cur: int,
) -> (Seq<i32>, Parse, int) {
    if ip > sc.ilimit() {
        (head, p, ip)
    } else {
        chain(
            sc,
            sc.put(
                sc.put(head, sc.hashable(cur + 2)),
                sc.hashable(
                    if ip >= 2 {
                        ip - 2
                    } else {
                        0
                    },
                ),
            ),
            p,
            ip,
        )
    }
}

/// One match and what follows it; the parse after it and where it ends.
pub open spec fn take(sc: Scene, head: Seq<i32>, p: Parse, found: Found) -> (
    Seq<i32>,
    Parse,
    int,
) {
    match found {
        Found::Nothing => (head, p, 0),
        Found::Repeat { at, cur } => {
            let r = p.rep.first;
            let back = repeat_back(sc, at, r);
            let len = back + 4 + match_len(sc.s, at - r + 4, at + 4);
            after_match(sc, head, emit(sc.s, p, at - back, len, r), at - back + len, cur)
        },
        Found::Table { from, at } => {
            let room = if at - p.lit_start < from {
                at - p.lit_start
            } else {
                from
            };
            let back = common_suffix(sc.s, from, at, room as nat);
            let len = 4 + match_len(sc.s, from + 4, at + 4);
            after_match(
                sc,
                head,
                emit(sc.s, p, at - back, len + back, (at - from) as nat),
                at + len,
                at,
            )
        },
    }
}

/// The parse from `ip0` to the end of the chunk.
pub open spec fn parse_from(sc: Scene, step: int, head: Seq<i32>, p: Parse, ip0: int) -> (
    Seq<i32>,
    Parse,
)
    decreases ahead(sc, ip0),
{
    let (head1, found) = search(sc, p.rep.first, head, ip0, ip0 + step, step, ip0 + STEP_INCR);
    if found is Nothing {
        (head1, p)
    } else {
        proof {
            lemma_search_ahead(sc, p.rep.first, head, ip0, ip0 + step, step, ip0 + STEP_INCR);
            lemma_take_ahead(sc, head1, p, found);
        }
        let (head2, q, ip) = take(sc, head1, p, found);
        parse_from(sc, step, head2, q, ip)
    }
}

/// The first step of a search: two bytes, or one more than the target length.
pub open spec fn first_step(target_len: u32) -> int {
    if target_len == 0 {
        2
    } else {
        target_len + 1
    }
}

/// The parse of a whole chunk, and what its table holds at the end.
pub open spec fn parse_fast(sc: Scene, target_len: u32, p: Parse) -> (Seq<i32>, Parse) {
    parse_from(sc, first_step(target_len), fresh_table(sc.hlog), p, 1)
}

/// What a search finds is not behind where it started, and not where the
/// chunk ends.
pub proof fn lemma_search_ahead(
    sc: Scene,
    rep: nat,
    head: Seq<i32>,
    ip0: int,
    ip2: int,
    step: int,
    next_step: int,
)
    ensures
        match search(sc, rep, head, ip0, ip2, step, next_step).1 {
            Found::Nothing => true,
            Found::Repeat { at, cur } => ip0 <= cur && cur + 2 <= at && at + 1 < sc.ilimit(),
            Found::Table { from, at } => ip0 <= at && at + 1 < sc.ilimit(),
        },
    decreases ahead(sc, ip0),
{
    if ip2 + 1 >= sc.ilimit() || ip2 < ip0 + 2 {
    } else if sc.rep_len(ip2, rep) >= 4 {
    } else {
        let head1 = sc.put(head, ip0);
        if sc.hit(sc.look(head, ip0), ip0, 4) {
        } else {
            let head2 = sc.put(head1, ip0 + 1);
            if sc.hit(sc.look(head1, ip0 + 1), ip0 + 1, 4) {
            } else if ip2 + step >= next_step {
                lemma_search_ahead(
                    sc,
                    rep,
                    head2,
                    ip2,
                    ip2 + step,
                    step + 1,
                    next_step + STEP_INCR,
                );
            } else {
                lemma_search_ahead(sc, rep, head2, ip2, ip2 + step, step, next_step);
            }
        }
    }
}

proof fn lemma_chain_ahead(sc: Scene, head: Seq<i32>, p: Parse, ip: int)
    ensures
        chain(sc, head, p, ip).2 >= ip,
    decreases ahead(sc, ip),
{
    let len = sc.rep_len(ip, p.rep.second);
    if ip > sc.ilimit() || len < 4 {
    } else {
        lemma_chain_ahead(
            sc,
            sc.put(head, ip),
            emit(sc.s, p, ip, len, p.rep.second),
            ip + len,
        );
    }
}

/// A match ends at least three bytes behind the position it was found at.
pub proof fn lemma_take_ahead(sc: Scene, head: Seq<i32>, p: Parse, found: Found)
    ensures
        match found {
            Found::Nothing => true,
            Found::Repeat { at, cur } => take(sc, head, p, found).2 >= at + 4,
            Found::Table { from, at } => take(sc, head, p, found).2 >= at + 4,
        },
{
    match found {
        Found::Nothing => {},
        Found::Repeat { at, cur } => {
            let r = p.rep.first;
            let back = repeat_back(sc, at, r);
            let len = back + 4 + match_len(sc.s, at - r + 4, at + 4);
            let ip = at - back + len;
            lemma_chain_ahead(
                sc,
                sc.put(sc.put(head, sc.hashable(cur + 2)), sc.hashable(ip - 2)),
                emit(sc.s, p, at - back, len, r),
                ip,
            );
            lemma_chain_ahead(
                sc,
                sc.put(sc.put(head, sc.hashable(cur + 2)), sc.hashable(0)),
                emit(sc.s, p, at - back, len, r),
                ip,
            );
        },
        Found::Table { from, at } => {
            let room = if at - p.lit_start < from {
                at - p.lit_start
            } else {
                from
            };
            let back = common_suffix(sc.s, from, at, room as nat);
            let len = 4 + match_len(sc.s, from + 4, at + 4);
            let q = emit(sc.s, p, at - back, len + back, (at - from) as nat);
            let ip = at + len;
            lemma_chain_ahead(
                sc,
                sc.put(sc.put(head, sc.hashable(at + 2)), sc.hashable(ip - 2)),
                q,
                ip,
            );
            lemma_chain_ahead(
                sc,
                sc.put(sc.put(head, sc.hashable(at + 2)), sc.hashable(0)),
                q,
                ip,
            );
        },
    }
}

/// The executable form of [`Found`].
pub enum Hit {
    Nothing,
    Repeat { at: usize, cur: usize },
    Table { from: usize, at: usize },
}

impl Hit {
    /// What was found.
    pub open spec fn found(&self) -> Found {
        match self {
            Hit::Nothing => Found::Nothing,
            Hit::Repeat { at, cur } => Found::Repeat { at: *at as int, cur: *cur as int },
            Hit::Table { from, at } => Found::Table { from: *from as int, at: *at as int },
        }
    }
}

/// Whether the candidate `m` holds the four bytes at `ip`, within the window.
fn hit4(fr: &Frame, chunk: &[u8], m: i32, ip: usize, Ghost(sc): Ghost<Scene>) -> (res: bool)
    requires
        fr.of(sc),
        sc.s == chunk@,
        m < ip,
        ip <= fr.ilimit,
    ensures
        res == sc.hit(m, ip as int, 4),
{
    if m >= 0 {
        let from: usize = m as usize;
        ip - from <= fr.window && same4(chunk, from, ip)
    } else {
        false
    }
}

/// Search from `start` on with a first step of `first`.
fn run_search(
    fr: &Frame,
    chunk: &[u8],
    head: &mut Vec<i32>,
    rep: u32,
    start: usize,
    first: u64,
    Ghost(sc): Ghost<Scene>,
) -> (res: Hit)
    requires
        fr.of(sc),
        sc.s == chunk@,
        old(head)@.len() == pow2(sc.hlog),
        entries_below(old(head)@, start as int),
        start <= fr.n,
        2 <= first <= 0x1_0000_0000,
    ensures
        (final(head)@, res.found()) == search(
            sc,
            rep as nat,
            old(head)@,
            start as int,
            start + first,
            first as int,
            start + STEP_INCR,
        ),
        final(head)@.len() == pow2(sc.hlog),
        match res {
            Hit::Nothing => true,
            Hit::Repeat { at, cur } => {
                &&& start <= cur
                &&& cur + 2 <= at
                &&& at + 1 < fr.ilimit
                &&& sc.rep_len(at as int, rep as nat) >= 4
                &&& agree_run(sc.s, at - rep, at as int, 4)
                &&& entries_below(final(head)@, cur + 2)
            },
            Hit::Table { from, at } => {
                &&& start <= at
                &&& at + 1 < fr.ilimit
                &&& from < at
                &&& at - from <= fr.window
                &&& agree_run(sc.s, from as int, at as int, 4)
                &&& entries_below(final(head)@, at + 4)
            },
        },
{
    let mut ip0: usize = start;
    let mut ip2: u64 = start as u64 + first;
    let mut step: u64 = first;
    let mut next_step: u64 = start as u64 + STEP_INCR as u64;
    loop
        invariant
            fr.of(sc),
            sc.s == chunk@,
            head@.len() == pow2(sc.hlog),
            entries_below(head@, ip0 as int),
            start <= ip0 <= fr.n,
            ip0 + 2 <= ip2 <= ip0 + step,
            2 <= step <= 0x1_0000_0000 + ip0,
            next_step <= 0x1_0000_0000 + 128 * ip0,
            search(
                sc,
                rep as nat,
                head@,
                ip0 as int,
                ip2 as int,
                step as int,
                next_step as int,
            ) == search(
                sc,
                rep as nat,
                old(head)@,
                start as int,
                start + first,
                first as int,
                start + STEP_INCR,
            ),
        decreases fr.n - ip0,
    {
        if ip2 + 1 >= fr.ilimit as u64 {
            return Hit::Nothing;
        }
        let probe: usize = ip2 as usize;
        if fr.rep_probe(chunk, probe, rep, Ghost(sc)) >= 4 {
            assert(entries_below(head@, ip0 + 2));
            fr.put(chunk, head, ip0 + 1, Ghost(sc));
            return Hit::Repeat { at: probe, cur: ip0 };
        }
        proof {
            assert(entries_below(head@, ip0 + 1));
            assert(entries_below(head@, ip0 + 4));
            assert(entries_below(head@, ip0 + 5));
            assert(entries_below(head@, ip2 as int));
        }
        let m0: i32 = fr.look(chunk, head, ip0, Ghost(sc));
        fr.put(chunk, head, ip0, Ghost(sc));
        if hit4(fr, chunk, m0, ip0, Ghost(sc)) {
            fr.put(chunk, head, ip0 + 1, Ghost(sc));
            return Hit::Table { from: m0 as usize, at: ip0 };
        }
        let m1: i32 = fr.look(chunk, head, ip0 + 1, Ghost(sc));
        fr.put(chunk, head, ip0 + 1, Ghost(sc));
        if hit4(fr, chunk, m1, ip0 + 1, Ghost(sc)) {
            if step <= 4 {
                fr.put(chunk, head, probe, Ghost(sc));
            }
            return Hit::Table { from: m1 as usize, at: ip0 + 1 };
        }
        ip0 = probe;
        ip2 = ip2 + step;
        if ip2 >= next_step {
            step = step + 1;
            next_step = next_step + STEP_INCR as u64;
        }
    }
}

/// fast.c's post-match tail: complementary insertions (`cur + 2`, `ip - 2`),
/// then immediate repcode chaining on the second offset with insertion.
/// Returns where the parse goes on.
fn fast_after_match(
    fr: &Frame,
    rec: &mut Recorder<'_>,
    head: &mut Vec<i32>,
    ip: usize,
    cur: usize,
    Ghost(sc): Ghost<Scene>,
) -> (res: usize)
    requires
        fr.of(sc),
        sc.s == old(rec).chunk@,
        old(rec).window@ == sc.window,
        old(rec).wf(),
        old(rec).lit_start == ip,
        old(head)@.len() == pow2(sc.hlog),
        entries_below(old(head)@, ip as int),
        cur + 2 < ip <= fr.n,
    ensures
        final(rec).wf(),
        final(rec).chunk == old(rec).chunk,
        final(rec).window == old(rec).window,
        final(rec).tracing == old(rec).tracing,
        final(rec).lit_start == res,
        final(head)@.len() == pow2(sc.hlog),
        entries_below(final(head)@, res as int),
        ip <= res <= fr.n,
        (final(head)@, final(rec).parse@, res as int) == after_match(
            sc,
            old(head)@,
            old(rec).parse@,
            ip as int,
            cur as int,
        ),
{
    if ip > fr.ilimit {
        return ip;
    }
    let chunk = rec.chunk;
    let i1: usize = fr.hashable(cur + 2, Ghost(sc));
    fr.put(chunk, head, i1, Ghost(sc));
    let i2: usize = fr.hashable(ip - 2, Ghost(sc));
    fr.put(chunk, head, i2, Ghost(sc));
    let mut pos: usize = ip;
    loop
        invariant
            fr.of(sc),
            chunk == old(rec).chunk,
            rec.chunk == chunk,
            rec.window == old(rec).window,
            rec.tracing == old(rec).tracing,
            rec.window@ == sc.window,
            sc.s == chunk@,
            rec.wf(),
            rec.lit_start == pos,
            head@.len() == pow2(sc.hlog),
            entries_below(head@, pos as int),
            ip <= pos <= fr.n,
            chain(sc, head@, rec.parse@, pos as int) == after_match(
                sc,
                old(head)@,
                old(rec).parse@,
                ip as int,
                cur as int,
            ),
        decreases fr.n - pos,
    {
        if pos > fr.ilimit {
            return pos;
        }
        let r1: u32 = rec.rep[1];
        let len: usize = fr.rep_probe(chunk, pos, r1, Ghost(sc));
        if len < 4 {
            return pos;
        }
        assert(entries_below(head@, pos + len));
        fr.put(chunk, head, pos, Ghost(sc));
        rec.emit(pos, len, r1);
        pos = pos + len;
    }
}

/// Replay the `fast` parse of the recorder's chunk.
#[verifier::rlimit(40)]
pub fn replay_fast(
    fr: &Frame,
    rec: &mut Recorder<'_>,
    head: &mut Vec<i32>,
    target_len: u32,
    Ghost(sc): Ghost<Scene>,
)
    requires
        fr.of(sc),
        sc.s == old(rec).chunk@,
        old(rec).window@ == sc.window,
        old(rec).wf(),
        old(rec).lit_start <= 1,
    ensures
        final(rec).wf(),
        final(rec).chunk == old(rec).chunk,
        final(rec).window == old(rec).window,
        final(rec).tracing == old(rec).tracing,
        (final(head)@, final(rec).parse@) == parse_fast(sc, target_len, old(rec).parse@),
{
    let chunk = rec.chunk;
    let first: u64 = if target_len == 0 {
        2
    } else {
        target_len as u64 + 1
    };
    reset_table(head, fr.hlog);
    let mut ip0: usize = 1;
    loop
        invariant
            fr.of(sc),
            chunk == old(rec).chunk,
            rec.chunk == chunk,
            rec.window == old(rec).window,
            rec.tracing == old(rec).tracing,
            rec.window@ == sc.window,
            sc.s == chunk@,
            rec.wf(),
            rec.lit_start <= ip0 <= fr.n,
            head@.len() == pow2(sc.hlog),
            entries_below(head@, ip0 as int),
            first == first_step(target_len),
            2 <= first <= 0x1_0000_0000,
            parse_from(sc, first as int, head@, rec.parse@, ip0 as int) == parse_fast(
                sc,
                target_len,
                old(rec).parse@,
            ),
        decreases fr.n - ip0,
    {
        let rep: u32 = rec.rep[0];
        let ghost p = rec.parse@;
        let hit = run_search(fr, chunk, head, rep, ip0, first, Ghost(sc));
        match hit {
            Hit::Nothing => {
                return ;
            },
            Hit::Repeat { at, cur } => {
                let off: usize = rep as usize;
                let back: usize = if at > off && chunk[at - 1] == chunk[at - off - 1] {
                    1
                } else {
                    0
                };
                let len: usize = back + 4 + count(chunk, at - off + 4, at + 4);
                proof {
                    let a = at - off;
                    lemma_agree_join(sc.s, a, at as int, 4, len - back - 4);
                    assert(agree_run(sc.s, a - back, at - back, back as int)) by {
                        assert(back == 1 ==> agree(sc.s, a - back, at - back, 0));
                    }
                    lemma_agree_join(sc.s, a - back, at - back, back as int, len - back);
                }
                rec.emit(at - back, len, rep);
                ip0 = fast_after_match(fr, rec, head, at - back + len, cur, Ghost(sc));
            },
            Hit::Table { from, at } => {
                let room: usize = if at - rec.lit_start < from {
                    at - rec.lit_start
                } else {
                    from
                };
                let back: usize = count_back(chunk, from, at, room);
                let len: usize = 4 + count(chunk, from + 4, at + 4);
                proof {
                    lemma_agree_join(sc.s, from as int, at as int, 4, len - 4);
                    lemma_agree_join(sc.s, from - back, at - back, back as int, len as int);
                }
                rec.emit(at - back, len + back, (at - from) as u32);
                ip0 = fast_after_match(fr, rec, head, at + len, at, Ghost(sc));
            },
        }
    }
}

} // verus!
