//! The `dfast` parse loop (zstd_double_fast.c): a table of short matches and
//! one of 8-byte matches.

use super::parse::{emit, Parse, Recorder};
use super::tables::{ahead, entries_below, fresh_table, reset_table, Frame, Scene};
use super::words::{
    agree_run, common_suffix, count, count_back, lemma_agree_join, match_len, same4, same8,
};
use vstd::arithmetic::power2::pow2;
use vstd::prelude::*;

verus! {

/// Distance after which the step widens by one: `1 << 8`.
pub const STEP_INCR: usize = 256;

/// The two tables.
pub struct Heads {
    pub short: Seq<i32>,
    pub long: Seq<i32>,
}

/// How a search ends: at the end of the chunk, on a repeat of the newest
/// offset, or on a table candidate `from` for the position `at`. `cur` is the
/// position that the search stood at, `len` how far the match goes.
pub enum Found {
    Nothing,
    Repeat { at: int, len: nat, cur: int },
    Table { from: int, at: int, len: nat, cur: int },
}

/// Enter `ip` in both tables.
pub open spec fn put_both(sc: Scene, t: Heads, ip: int) -> Heads {
    Heads { short: sc.put(t.short, ip), long: sc.put_long(t.long, ip) }
}

/// Length of a match of which eight bytes are known to agree.
pub open spec fn long_len(sc: Scene, from: int, at: int) -> nat {
    8 + match_len(sc.s, from + 8, at + 8)
}

/// Length of a match of which four bytes are known to agree.
pub open spec fn short_len(sc: Scene, from: int, at: int) -> nat {
    4 + match_len(sc.s, from + 4, at + 4)
}

/// Search from `ip` on; `ip1` is the position after it. Each step enters `ip`
/// in both tables, then tries the newest offset behind `ip`, an 8-byte match
/// at `ip`, and a short match at `ip`, which an 8-byte match at `ip1` beats
/// when it is longer.
pub open spec fn search(
    sc: Scene,
    rep: nat,
    t: Heads,
    ip: int,
    ip1: int,
    step: int,
    next_step: int,
) -> (Heads, Found)
    decreases ahead(sc, ip),
{
    if ip1 > sc.ilimit() || ip1 <= ip {
        (t, Found::Nothing)
    } else {
        let long = sc.look_long(t.long, ip);
        let short = sc.look(t.short, ip);
        let t1 = put_both(sc, t, ip);
        let rep_len = sc.rep_len(ip + 1, rep);
        if rep_len >= 4 {
            (t1, Found::Repeat { at: ip + 1, len: rep_len, cur: ip })
        } else {
            let long1 = sc.look_long(t1.long, ip1);
            let t2 = if step < 4 {
                Heads { short: t1.short, long: sc.put_long(t1.long, ip1) }
            } else {
                t1
            };
            if sc.hit(long, ip, 8) {
                (
                    t2,
                    Found::Table {
                        from: long as int,
                        at: ip,
                        len: long_len(sc, long as int, ip),
                        cur: ip,
                    },
                )
            } else if sc.hit(short, ip, 4) {
                let len = short_len(sc, short as int, ip);
                let len1 = long_len(sc, long1 as int, ip1);
                if sc.hit(long1, ip1, 8) && len1 > len {
                    (t2, Found::Table { from: long1 as int, at: ip1, len: len1, cur: ip })
                } else {
                    (t2, Found::Table { from: short as int, at: ip, len, cur: ip })
                }
            } else if ip1 >= next_step {
                search(sc, rep, t1, ip1, ip1 + step + 1, step + 1, next_step + STEP_INCR)
            } else {
                search(sc, rep, t1, ip1, ip1 + step, step, next_step)
            }
        }
    }
}

/// Matches of the second offset that follow a match at once.
pub open spec fn chain(sc: Scene, t: Heads, p: Parse, ip: int) -> (Heads, Parse, int)
    decreases ahead(sc, ip),
{
    let len = sc.rep_len(ip, p.rep.second);
    if ip > sc.ilimit() || len < 4 {
        (t, p, ip)
    } else {
        chain(sc, put_both(sc, t, ip), emit(sc.s, p, ip, len, p.rep.second), ip + len)
    }
}

/// `p`, at least 0.
pub open spec fn not_negative(p: int) -> int {
    if p < 0 {
        0
    } else {
        p
    }
}

/// What follows a match that ends at `ip`, found while at `cur`: more
/// positions are entered, then the second offset is tried at once.
pub open spec fn after_match(sc: Scene, t: Heads, p: Parse, ip: int, cur: int) -> (
    Heads,
    Parse,
    int,
) {
    if ip > sc.ilimit() {
        (t, p, ip)
    } else {
        let t1 = put_both(sc, t, sc.hashable(cur + 2));
        chain(
            sc,
            Heads {
                short: sc.put(t1.short, sc.hashable(not_negative(ip - 1))),
                long: sc.put_long(t1.long, sc.hashable(not_negative(ip - 2))),
            },
            p,
            ip,
        )
    }
}

/// One match and what follows it; the parse after it and where it ends.
pub open spec fn take(sc: Scene, t: Heads, p: Parse, found: Found) -> (Heads, Parse, int) {
    match found {
        Found::Nothing => (t, p, 0),
        Found::Repeat { at, len, cur } => after_match(
            sc,
            t,
            emit(sc.s, p, at, len, p.rep.first),
            at + len,
            cur,
        ),
        Found::Table { from, at, len, cur } => {
            let room = if at - p.lit_start < from {
                at - p.lit_start
            } else {
                from
            };
            let back = common_suffix(sc.s, from, at, room as nat);
            after_match(
                sc,
                t,
                emit(sc.s, p, at - back, len + back, (at - from) as nat),
                at + len,
                cur,
            )
        },
    }
}

/// The parse from `ip` to the end of the chunk.
pub open spec fn parse_from(sc: Scene, t: Heads, p: Parse, ip: int) -> (Heads, Parse)
    decreases ahead(sc, ip),
{
    let (t1, found) = search(sc, p.rep.first, t, ip, ip + 1, 1, ip + STEP_INCR);
    if found is Nothing {
        (t1, p)
    } else {
        proof {
            lemma_search_ahead(sc, p.rep.first, t, ip, ip + 1, 1, ip + STEP_INCR);
            lemma_take_ahead(sc, t1, p, found);
        }
        let (t2, q, next) = take(sc, t1, p, found);
        parse_from(sc, t2, q, next)
    }
}

/// The parse of a whole chunk, and what its tables hold at the end.
pub open spec fn parse_dfast(sc: Scene, p: Parse) -> (Heads, Parse) {
    parse_from(sc, Heads { short: fresh_table(sc.hlog), long: fresh_table(sc.clog) }, p, 1)
}

/// What a search finds is not behind where it started, and at least four
/// bytes long.
pub proof fn lemma_search_ahead(
    sc: Scene,
    rep: nat,
    t: Heads,
    ip: int,
    ip1: int,
    step: int,
    next_step: int,
)
    ensures
        match search(sc, rep, t, ip, ip1, step, next_step).1 {
            Found::Nothing => true,
            Found::Repeat { at, len, cur } => ip <= cur < at < sc.s.len() && len >= 4,
            Found::Table { from, at, len, cur } => ip <= cur <= at < sc.s.len() && len >= 4,
        },
    decreases ahead(sc, ip),
{
    if ip1 > sc.ilimit() || ip1 <= ip {
    } else {
        let t1 = put_both(sc, t, ip);
        if sc.rep_len(ip + 1, rep) >= 4 {
        } else if sc.hit(sc.look_long(t.long, ip), ip, 8) {
        } else if sc.hit(sc.look(t.short, ip), ip, 4) {
        } else if ip1 >= next_step {
            lemma_search_ahead(
                sc,
                rep,
                t1,
                ip1,
                ip1 + step + 1,
                step + 1,
                next_step + STEP_INCR,
            );
        } else {
            lemma_search_ahead(sc, rep, t1, ip1, ip1 + step, step, next_step);
        }
    }
}

proof fn lemma_chain_ahead(sc: Scene, t: Heads, p: Parse, ip: int)
    ensures
        chain(sc, t, p, ip).2 >= ip,
    decreases ahead(sc, ip),
{
    let len = sc.rep_len(ip, p.rep.second);
    if ip > sc.ilimit() || len < 4 {
    } else {
        lemma_chain_ahead(
            sc,
            put_both(sc, t, ip),
            emit(sc.s, p, ip, len, p.rep.second),
            ip + len,
        );
    }
}

proof fn lemma_after_match_ahead(sc: Scene, t: Heads, p: Parse, ip: int, cur: int)
    ensures
        after_match(sc, t, p, ip, cur).2 >= ip,
{
    if ip > sc.ilimit() {
    } else {
        let t1 = put_both(sc, t, sc.hashable(cur + 2));
        lemma_chain_ahead(
            sc,
            Heads {
                short: sc.put(t1.short, sc.hashable(not_negative(ip - 1))),
                long: sc.put_long(t1.long, sc.hashable(not_negative(ip - 2))),
            },
            p,
            ip,
        );
    }
}

/// The parse goes on no earlier than the match ends.
pub proof fn lemma_take_ahead(sc: Scene, t: Heads, p: Parse, found: Found)
    ensures
        match found {
            Found::Nothing => true,
            Found::Repeat { at, len, cur } => take(sc, t, p, found).2 >= at + len,
            Found::Table { from, at, len, cur } => take(sc, t, p, found).2 >= at + len,
        },
{
    match found {
        Found::Nothing => {},
        Found::Repeat { at, len, cur } => {
            lemma_after_match_ahead(
                sc,
                t,
                emit(sc.s, p, at, len, p.rep.first),
                at + len,
                cur,
            );
        },
        Found::Table { from, at, len, cur } => {
            let room = if at - p.lit_start < from {
                at - p.lit_start
            } else {
                from
            };
            let back = common_suffix(sc.s, from, at, room as nat);
            lemma_after_match_ahead(
                sc,
                t,
                emit(sc.s, p, at - back, len + back, (at - from) as nat),
                at + len,
                cur,
            );
        },
    }
}

/// The executable form of [`Found`].
pub enum Hit {
    Nothing,
    Repeat { at: usize, len: usize, cur: usize },
    Table { from: usize, at: usize, len: usize, cur: usize },
}

impl Hit {
    /// What was found.
    pub open spec fn found(&self) -> Found {
        match self {
            Hit::Nothing => Found::Nothing,
            Hit::Repeat { at, len, cur } => Found::Repeat {
                at: *at as int,
                len: *len as nat,
                cur: *cur as int,
            },
            Hit::Table { from, at, len, cur } => Found::Table {
                from: *from as int,
                at: *at as int,
                len: *len as nat,
                cur: *cur as int,
            },
        }
    }
}

/// Whether the candidate `m` holds the four bytes at `ip`, within the window.
fn hit4(fr: &Frame, chunk: &[u8], m: i32, ip: usize, Ghost(sc): Ghost<Scene>) -> (res: bool)
    requires
        fr.of(sc),
        sc.s == chunk@,
        m < ip,
        ip <= fr.ilimit,
    ensures
        res == sc.hit(m, ip as int, 4),
{
    if m >= 0 {
        let from: usize = m as usize;
        ip - from <= fr.window && same4(chunk, from, ip)
    } else {
        false
    }
}

/// Whether the candidate `m` holds the eight bytes at `ip`, within the
/// window.
fn hit8(fr: &Frame, chunk: &[u8], m: i32, ip: usize, Ghost(sc): Ghost<Scene>) -> (res: bool)
    requires
        fr.of(sc),
        sc.s == chunk@,
        m < ip,
        ip <= fr.ilimit,
    ensures
        res == sc.hit(m, ip as int, 8),
{
    if m >= 0 {
        let from: usize = m as usize;
        ip - from <= fr.window && same8(chunk, from, ip)
    } else {
        false
    }
}

/// Enter `ip` in both tables.
fn enter_both(
    fr: &Frame,
    chunk: &[u8],
    head: &mut Vec<i32>,
    head2: &mut Vec<i32>,
    ip: usize,
    Ghost(sc): Ghost<Scene>,
)
    requires
        fr.of(sc),
        fr.clog >= 1,
        sc.s == chunk@,
        old(head)@.len() == pow2(sc.hlog),
        old(head2)@.len() == pow2(sc.clog),
        ip <= fr.ilimit,
    ensures
        (Heads { short: final(head)@, long: final(head2)@ }) == put_both(
            sc,
            Heads { short: old(head)@, long: old(head2)@ },
            ip as int,
        ),
        final(head)@.len() == old(head)@.len(),
        final(head2)@.len() == old(head2)@.len(),
        forall|lim: int| #[trigger]
            entries_below(old(head)@, lim) && ip < lim ==> entries_below(final(head)@, lim),
        forall|lim: int| #[trigger]
            entries_below(old(head2)@, lim) && ip < lim ==> entries_below(final(head2)@, lim),
{
    fr.put(chunk, head, ip, Ghost(sc));
    fr.put_long(chunk, head2, ip, Ghost(sc));
}

/// Search from `start` on.
#[verifier::rlimit(30)]
fn run_search(
    fr: &Frame,
    chunk: &[u8],
    head: &mut Vec<i32>,
    head2: &mut Vec<i32>,
    rep: u32,
    start: usize,
    Ghost(sc): Ghost<Scene>,
) -> (res: Hit)
    requires
        fr.of(sc),
        fr.clog >= 1,
        sc.s == chunk@,
        old(head)@.len() == pow2(sc.hlog),
        old(head2)@.len() == pow2(sc.clog),
        entries_below(old(head)@, start as int),
        entries_below(old(head2)@, start as int),
        start <= fr.n,
    ensures
        (Heads { short: final(head)@, long: final(head2)@ }, res.found()) == search(
            sc,
            rep as nat,
            Heads { short: old(head)@, long: old(head2)@ },
            start as int,
            start + 1,
            1,
            start + STEP_INCR,
        ),
        final(head)@.len() == pow2(sc.hlog),
        final(head2)@.len() == pow2(sc.clog),
        match res {
            Hit::Nothing => true,
            Hit::Repeat { at, len, cur } => {
                &&& start <= cur
                &&& at == cur + 1
                &&& at <= fr.ilimit
                &&& 4 <= len
                &&& at + len <= fr.n
                &&& 0 < rep <= at
                &&& rep <= fr.window
                &&& agree_run(sc.s, at - rep, at as int, len as int)
                &&& entries_below(final(head)@, cur + 4)
                &&& entries_below(final(head2)@, cur + 4)
            },
            Hit::Table { from, at, len, cur } => {
                &&& start <= cur <= at
                &&& at <= fr.ilimit
                &&& from < at
                &&& at - from <= fr.window
                &&& 4 <= len
                &&& at + len <= fr.n
                &&& agree_run(sc.s, from as int, at as int, len as int)
                &&& entries_below(final(head)@, cur + 4)
                &&& entries_below(final(head2)@, cur + 4)
            },
        },
{
    let mut ip: usize = start;
    let mut ip1: u64 = start as u64 + 1;
    let mut step: u64 = 1;
    let mut next_step: u64 = start as u64 + STEP_INCR as u64;
    loop
        invariant
            fr.of(sc),
            fr.clog >= 1,
            sc.s == chunk@,
            head@.len() == pow2(sc.hlog),
            head2@.len() == pow2(sc.clog),
            entries_below(head@, ip as int),
            entries_below(head2@, ip as int),
            start <= ip <= fr.n,
            ip1 == ip + step,
            1 <= step <= ip + 1,
            next_step <= 512 * (ip + 1),
            search(
                sc,
                rep as nat,
                Heads { short: head@, long: head2@ },
                ip as int,
                ip1 as int,
                step as int,
                next_step as int,
            ) == search(
                sc,
                rep as nat,
                Heads { short: old(head)@, long: old(head2)@ },
                start as int,
                start + 1,
                1,
                start + STEP_INCR,
            ),
        decreases fr.n - ip,
    {
        if ip1 > fr.ilimit as u64 {
            return Hit::Nothing;
        }
        let next: usize = ip1 as usize;
        let long: i32 = fr.look_long(chunk, head2, ip, Ghost(sc));
        let short: i32 = fr.look(chunk, head, ip, Ghost(sc));
        proof {
            assert(entries_below(head@, ip + 1) && entries_below(head2@, ip + 1));
        }
        enter_both(fr, chunk, head, head2, ip, Ghost(sc));
        proof {
            assert(entries_below(head@, ip + 4) && entries_below(head2@, ip + 4));
            assert(entries_below(head@, ip1 as int) && entries_below(head2@, ip1 as int));
        }
        // A repeat at ip+1 preempts everything.
        let rep_len: usize = fr.rep_probe(chunk, ip + 1, rep, Ghost(sc));
        if rep_len >= 4 {
            return Hit::Repeat { at: ip + 1, len: rep_len, cur: ip };
        }
        let long1: i32 = fr.look_long(chunk, head2, next, Ghost(sc));
        if hit8(fr, chunk, long, ip, Ghost(sc)) {
            let from: usize = long as usize;
            let len: usize = count(chunk, from + 8, ip + 8) + 8;
            proof {
                lemma_agree_join(sc.s, from as int, ip as int, 8, len - 8);
            }
            if step < 4 {
                fr.put_long(chunk, head2, next, Ghost(sc));
            }
            return Hit::Table { from, at: ip, len, cur: ip };
        }
        if hit4(fr, chunk, short, ip, Ghost(sc)) {
            let from: usize = short as usize;
            let len: usize = count(chunk, from + 4, ip + 4) + 4;
            proof {
                lemma_agree_join(sc.s, from as int, ip as int, 4, len - 4);
            }
            if step < 4 {
                fr.put_long(chunk, head2, next, Ghost(sc));
            }
            if hit8(fr, chunk, long1, next, Ghost(sc)) {
                let from1: usize = long1 as usize;
                let len1: usize = count(chunk, from1 + 8, next + 8) + 8;
                proof {
                    lemma_agree_join(sc.s, from1 as int, next as int, 8, len1 - 8);
                }
                if len1 > len {
                    return Hit::Table { from: from1, at: next, len: len1, cur: ip };
                }
            }
            return Hit::Table { from, at: ip, len, cur: ip };
        }
        if ip1 >= next_step {
            step = step + 1;
            next_step = next_step + STEP_INCR as u64;
        }
        ip = next;
        ip1 = ip1 + step;
    }
}

/// dfast's post-match tail: complementary insertions into both tables, then
/// immediate repcode chaining on the second offset with insertion. Returns
/// where the parse goes on.
fn dfast_after_match(
    fr: &Frame,
    rec: &mut Recorder<'_>,
    head: &mut Vec<i32>,
    head2: &mut Vec<i32>,
    ip: usize,
    cur: usize,
    Ghost(sc): Ghost<Scene>,
) -> (res: usize)
    requires
        fr.of(sc),
        fr.clog >= 1,
        sc.s == old(rec).chunk@,
        old(rec).window@ == sc.window,
        old(rec).wf(),
        old(rec).lit_start == ip,
        old(head)@.len() == pow2(sc.hlog),
        old(head2)@.len() == pow2(sc.clog),
        entries_below(old(head)@, ip as int),
        entries_below(old(head2)@, ip as int),
        cur + 2 < ip <= fr.n,
    ensures
        final(rec).wf(),
        final(rec).chunk == old(rec).chunk,
        final(rec).window == old(rec).window,
        final(rec).tracing == old(rec).tracing,
        final(rec).lit_start == res,
        final(head)@.len() == pow2(sc.hlog),
        final(head2)@.len() == pow2(sc.clog),
        entries_below(final(head)@, res as int),
        entries_below(final(head2)@, res as int),
        ip <= res <= fr.n,
        (Heads { short: final(head)@, long: final(head2)@ }, final(rec).parse@, res as int)
            == after_match(
            sc,
            Heads { short: old(head)@, long: old(head2)@ },
            old(rec).parse@,
            ip as int,
            cur as int,
        ),
{
    if ip > fr.ilimit {
        return ip;
    }
    let chunk = rec.chunk;
    let i1: usize = fr.hashable(cur + 2, Ghost(sc));
    enter_both(fr, chunk, head, head2, i1, Ghost(sc));
    let i2: usize = fr.hashable(ip - 2, Ghost(sc));
    fr.put_long(chunk, head2, i2, Ghost(sc));
    let i3: usize = fr.hashable(ip - 1, Ghost(sc));
    fr.put(chunk, head, i3, Ghost(sc));
    let mut pos: usize = ip;
    loop
        invariant
            fr.of(sc),
            fr.clog >= 1,
            chunk == old(rec).chunk,
            rec.chunk == chunk,
            rec.window == old(rec).window,
            rec.tracing == old(rec).tracing,
            rec.window@ == sc.window,
            sc.s == chunk@,
            rec.wf(),
            rec.lit_start == pos,
            head@.len() == pow2(sc.hlog),
            head2@.len() == pow2(sc.clog),
            entries_below(head@, pos as int),
            entries_below(head2@, pos as int),
            ip <= pos <= fr.n,
            chain(sc, Heads { short: head@, long: head2@ }, rec.parse@, pos as int) == after_match(
                sc,
                Heads { short: old(head)@, long: old(head2)@ },
                old(rec).parse@,
                ip as int,
                cur as int,
            ),
        decreases fr.n - pos,
    {
        if pos > fr.ilimit {
            return pos;
        }
        let r1: u32 = rec.rep[1];
        let len: usize = fr.rep_probe(chunk, pos, r1, Ghost(sc));
        if len < 4 {
            return pos;
        }
        proof {
            assert(entries_below(head@, pos + len) && entries_below(head2@, pos + len));
        }
        enter_both(fr, chunk, head, head2, pos, Ghost(sc));
        rec.emit(pos, len, r1);
        pos = pos + len;
    }
}

/// Replay the `dfast` parse of the recorder's chunk.
pub fn replay_dfast(
    fr: &Frame,
    rec: &mut Recorder<'_>,
    head: &mut Vec<i32>,
    head2: &mut Vec<i32>,
    Ghost(sc): Ghost<Scene>,
)
    requires
        fr.of(sc),
        fr.clog >= 1,
        sc.s == old(rec).chunk@,
        old(rec).window@ == sc.window,
        old(rec).wf(),
        old(rec).lit_start <= 1,
    ensures
        final(rec).wf(),
        final(rec).chunk == old(rec).chunk,
        final(rec).window == old(rec).window,
        final(rec).tracing == old(rec).tracing,
        (Heads { short: final(head)@, long: final(head2)@ }, final(rec).parse@) == parse_dfast(
            sc,
            old(rec).parse@,
        ),
{
    let chunk = rec.chunk;
    reset_table(head, fr.hlog);
    reset_table(head2, fr.clog);
    let mut ip: usize = 1;
    loop
        invariant
            fr.of(sc),
            fr.clog >= 1,
            chunk == old(rec).chunk,
            rec.chunk == chunk,
            rec.window == old(rec).window,
            rec.tracing == old(rec).tracing,
            rec.window@ == sc.window,
            sc.s == chunk@,
            rec.wf(),
            rec.lit_start <= ip <= fr.n,
            head@.len() == pow2(sc.hlog),
            head2@.len() == pow2(sc.clog),
            entries_below(head@, ip as int),
            entries_below(head2@, ip as int),
            parse_from(sc, Heads { short: head@, long: head2@ }, rec.parse@, ip as int)
                == parse_dfast(sc, old(rec).parse@),
        decreases fr.n - ip,
    {
        let rep: u32 = rec.rep[0];
        match run_search(fr, chunk, head, head2, rep, ip, Ghost(sc)) {
            Hit::Nothing => {
                return ;
            },
            Hit::Repeat { at, len, cur } => {
                rec.emit(at, len, rep);
                ip = dfast_after_match(fr, rec, head, head2, at + len, cur, Ghost(sc));
            },
            Hit::Table { from, at, len, cur } => {
                let room: usize = if at - rec.lit_start < from {
                    at - rec.lit_start
                } else {
                    from
                };
                let back: usize = count_back(chunk, from, at, room);
                proof {
                    lemma_agree_join(sc.s, from - back, at - back, back as int, len as int);
                }
                rec.emit(at - back, len + back, (at - from) as u32);
                ip = dfast_after_match(fr, rec, head, head2, at + len, cur, Ghost(sc));
            },
        }
    }
}

} // verus!
