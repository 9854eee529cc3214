//! What a `dfast` parse promises: it searches to the end of the chunk, passes
//! over nothing that it entered since the last match, and records matches that
//! go as far as they can.

use super::dfast::{
    after_match, chain, lemma_search_ahead, lemma_take_ahead, not_negative, parse_dfast, parse_from,
    put_both, search, take, Found, Heads,
};
use super::laws::{
    chained, kept_right, last_end, lemma_emit_fine, lemma_match_at_least, lemma_match_ends, lemma_put,
    lemma_put_long, lemma_suffix_ends, parse_fine, repeats_at, runnable, settled, stretched,
};
use super::parse::{emit, initial_parse, Parse, Step};
use super::tables::{ahead, entries_below, fresh_table, Scene};
use super::words::{agree_run, common_suffix, hash_at, lemma_hash_bound, match_len};
use vstd::arithmetic::power2::pow2;
use vstd::prelude::*;

verus! {

/// Whether the tables have the right sizes and hold positions before `lim`
/// only.
pub open spec fn tables_fine(sc: Scene, t: Heads, lim: int) -> bool {
    &&& t.short.len() == pow2(sc.hlog)
    &&& t.long.len() == pow2(sc.clog)
    &&& entries_below(t.short, lim)
    &&& entries_below(t.long, lim)
}

/// One stand of a search: the position that it looks up is `at`, and it goes
/// on at `next`; the step widens when that is at `widen` or later.
pub struct Stand {
    pub at: int,
    pub next: int,
    pub step: int,
    pub widen: int,
}

/// The stand of number `k` of a search from `from` on.
pub open spec fn stand(from: int, k: nat) -> Stand
    decreases k,
{
    if k == 0 {
        Stand { at: from, next: from + 1, step: 1, widen: from + 256 }
    } else {
        let b = stand(from, (k - 1) as nat);
        if b.next >= b.widen {
            Stand { at: b.next, next: b.next + b.step + 1, step: b.step + 1, widen: b.widen + 256 }
        } else {
            Stand { at: b.next, next: b.next + b.step, step: b.step, widen: b.widen }
        }
    }
}

/// The newest of the positions that the first `k` stands looked up whose
/// leading `mls` bytes have the hash `h` of `hlog` bits, -1 if there is none.
pub open spec fn newest_looked_up(s: Seq<u8>, mls: nat, hlog: nat, from: int, h: nat, k: nat) -> int
    decreases k,
{
    if k == 0 {
        -1
    } else {
        let at = stand(from, (k - 1) as nat).at;
        if hash_at(s, at, mls, hlog) == h {
            at
        } else {
            newest_looked_up(s, mls, hlog, from, h, (k - 1) as nat)
        }
    }
}

/// Whether `c` holds the `len` bytes at `q`, no more than the window before.
pub open spec fn holds(sc: Scene, c: int, q: int, len: int) -> bool {
    c >= 0 && q - c <= sc.window && agree_run(sc.s, c, q, len)
}

/// Whether nothing was to be had at the stand of number `k`: neither what was
/// entered last for its 8-byte hash holds its eight bytes, nor what was
/// entered last for its short hash its four bytes, and the newest offset does
/// not repeat one byte later.
pub open spec fn nothing_at_stand(sc: Scene, rep: nat, from: int, k: nat) -> bool {
    let at = stand(from, k).at;
    let short = hash_at(sc.s, at, sc.mls, sc.hlog);
    let long = hash_at(sc.s, at, 8, sc.clog);
    &&& !repeats_at(sc.s, sc.window, at + 1, rep)
    &&& !holds(sc, newest_looked_up(sc.s, 8, sc.clog, from, long, k), at, 8)
    &&& !holds(sc, newest_looked_up(sc.s, sc.mls, sc.hlog, from, short, k), at, 4)
}

/// Whether the position of the stand of number `k` was entered in both tables:
/// they hold it, or a newer one with its hash.
pub open spec fn entered_at_stand(sc: Scene, t: Heads, from: int, k: nat) -> bool {
    let at = stand(from, k).at;
    sc.look(t.short, at) >= at && sc.look_long(t.long, at) >= at
}

proof fn lemma_stand_order(from: int, j: nat, k: nat)
    requires
        k <= j,
    ensures
        stand(from, k).step >= 1,
        stand(from, k).next >= stand(from, k).at + 1,
        stand(from, k).at >= from,
        stand(from, k).next <= stand(from, j).next,
        stand(from, k).at <= stand(from, j).at,
    decreases j,
{
    if k < j {
        lemma_stand_order(from, (j - 1) as nat, k);
        lemma_stand_order(from, (j - 1) as nat, (j - 1) as nat);
    } else if k > 0 {
        lemma_stand_order(from, (k - 1) as nat, (k - 1) as nat);
    }
}

proof fn lemma_put_both(sc: Scene, t: Heads, ip: int, lim: int)
    requires
        runnable(sc),
        sc.clog <= 32,
        tables_fine(sc, t, lim),
        0 <= ip < lim,
        ip <= sc.s.len(),
    ensures
        tables_fine(sc, put_both(sc, t, ip), lim),
{
    lemma_put(sc, t.short, ip, lim);
    lemma_put_long(sc, t.long, ip, lim);
}

/// What a search returns, and what its tables hold then.
spec fn found_fine(sc: Scene, rep: nat, ip: int, t: Heads, found: Found) -> bool {
    match found {
        Found::Nothing => true,
        Found::Repeat { at, len, cur } => {
            &&& ip <= cur
            &&& at == cur + 1
            &&& at <= sc.s.len() - 8
            &&& len >= 4
            &&& len == sc.rep_len(at, rep)
            &&& tables_fine(sc, t, cur + 4)
        },
        Found::Table { from, at, len, cur } => {
            &&& ip <= cur <= at
            &&& at <= sc.s.len() - 8
            &&& 0 <= from < at
            &&& len >= 4
            &&& at == cur || len >= 8
            &&& at + len >= sc.s.len() - 1 || len >= 16384 || sc.s[at + len] != sc.s[from + len]
            &&& tables_fine(sc, t, cur + 4)
        },
    }
}

#[verifier::rlimit(40)]
proof fn lemma_search_fine(
    sc: Scene,
    rep: nat,
    t: Heads,
    ip: int,
    ip1: int,
    step: int,
    next_step: int,
)
    requires
        runnable(sc),
        sc.clog <= 32,
        tables_fine(sc, t, ip),
        0 <= ip,
        1 <= step,
        ip1 == ip + step,
    ensures
        ({
            let (after, found) = search(sc, rep, t, ip, ip1, step, next_step);
            found_fine(sc, rep, ip, after, found)
        }),
    decreases ahead(sc, ip),
{
    if ip1 > sc.ilimit() || ip1 <= ip {
    } else {
        lemma_hash_bound(sc.s, ip, sc.mls, sc.hlog);
        lemma_hash_bound(sc.s, ip, 8, sc.clog);
        lemma_hash_bound(sc.s, ip1, 8, sc.clog);
        let long = sc.look_long(t.long, ip);
        let short = sc.look(t.short, ip);
        let t1 = put_both(sc, t, ip);
        assert(tables_fine(sc, t, ip + 1));
        lemma_put_both(sc, t, ip, ip + 1);
        assert(tables_fine(sc, t1, ip + 4));
        assert(tables_fine(sc, t1, ip1));
        let long1 = sc.look_long(t1.long, ip1);
        if step < 4 {
            lemma_put_long(sc, t1.long, ip1, ip + 4);
        }
        if sc.rep_len(ip + 1, rep) >= 4 {
        } else if sc.hit(long, ip, 8) {
            lemma_match_ends(sc.s, long + 8, ip + 8);
        } else if sc.hit(short, ip, 4) {
            lemma_match_ends(sc.s, short + 4, ip + 4);
            if sc.hit(long1, ip1, 8) && ip1 + 8 < sc.s.len() {
                lemma_match_ends(sc.s, long1 + 8, ip1 + 8);
            }
        } else if ip1 >= next_step {
            lemma_search_fine(sc, rep, t1, ip1, ip1 + step + 1, step + 1, next_step + 256);
        } else {
            lemma_search_fine(sc, rep, t1, ip1, ip1 + step, step, next_step);
        }
    }
}

proof fn lemma_chain_fine(sc: Scene, t: Heads, p: Parse, ip: int)
    requires
        runnable(sc),
        sc.clog <= 32,
        tables_fine(sc, t, ip),
        0 <= ip,
        parse_fine(sc, p, ip),
        last_end(p.steps) == ip,
        p.steps.len() > 0,
    ensures
        ({
            let (after, q, end) = chain(sc, t, p, ip);
            &&& tables_fine(sc, after, end)
            &&& parse_fine(sc, q, end)
            &&& settled(sc.s, sc.window, q)
            &&& last_end(q.steps) == end
            &&& q.steps.len() >= p.steps.len()
            &&& end >= ip
        }),
    decreases ahead(sc, ip),
{
    let len = sc.rep_len(ip, p.rep.second);
    if ip <= sc.ilimit() && repeats_at(sc.s, sc.window, ip, p.rep.second) {
        lemma_match_at_least(sc.s, ip - p.rep.second, ip, 4);
    }
    if ip > sc.ilimit() || len < 4 {
    } else {
        lemma_match_ends(sc.s, ip - p.rep.second, ip);
        lemma_emit_fine(sc, p, ip, len, p.rep.second);
        assert(tables_fine(sc, t, ip + len));
        lemma_put_both(sc, t, ip, ip + len);
        lemma_chain_fine(
            sc,
            put_both(sc, t, ip),
            emit(sc.s, p, ip, len, p.rep.second),
            ip + len,
        );
    }
}

proof fn lemma_after_match_fine(sc: Scene, t: Heads, p: Parse, ip: int, cur: int)
    requires
        runnable(sc),
        sc.clog <= 32,
        tables_fine(sc, t, ip),
        0 <= cur,
        cur + 2 < ip,
        parse_fine(sc, p, ip),
        last_end(p.steps) == ip,
        p.steps.len() > 0,
    ensures
        ({
            let (after, q, end) = after_match(sc, t, p, ip, cur);
            &&& tables_fine(sc, after, end)
            &&& parse_fine(sc, q, end)
            &&& settled(sc.s, sc.window, q)
            &&& last_end(q.steps) == end
            &&& q.steps.len() >= p.steps.len()
            &&& end >= ip
        }),
{
    if ip > sc.ilimit() {
    } else {
        let t1 = put_both(sc, t, sc.hashable(cur + 2));
        lemma_put_both(sc, t, sc.hashable(cur + 2), ip);
        lemma_put(sc, t1.short, sc.hashable(not_negative(ip - 1)), ip);
        lemma_put_long(sc, t1.long, sc.hashable(not_negative(ip - 2)), ip);
        lemma_chain_fine(
            sc,
            Heads {
                short: sc.put(t1.short, sc.hashable(not_negative(ip - 1))),
                long: sc.put_long(t1.long, sc.hashable(not_negative(ip - 2))),
            },
            p,
            ip,
        );
    }
}

proof fn lemma_take_fine(sc: Scene, t: Heads, p: Parse, ip: int, found: Found)
    requires
        runnable(sc),
        sc.clog <= 32,
        0 <= ip,
        parse_fine(sc, p, ip),
        settled(sc.s, sc.window, p),
        !(found is Nothing),
        found_fine(sc, p.rep.first, ip, t, found),
    ensures
        ({
            let (after, q, end) = take(sc, t, p, found);
            &&& tables_fine(sc, after, end)
            &&& parse_fine(sc, q, end)
            &&& settled(sc.s, sc.window, q)
            &&& last_end(q.steps) == end
            &&& q.steps.len() > p.steps.len()
            &&& end > ip
        }),
{
    match found {
        Found::Nothing => {},
        Found::Repeat { at, len, cur } => {
            lemma_match_ends(sc.s, at - p.rep.first, at);
            lemma_emit_fine(sc, p, at, len, p.rep.first);
            assert(tables_fine(sc, t, at + len));
            lemma_after_match_fine(sc, t, emit(sc.s, p, at, len, p.rep.first), at + len, cur);
        },
        Found::Table { from, at, len, cur } => {
            let room = if at - p.lit_start < from {
                at - p.lit_start
            } else {
                from
            };
            let back = common_suffix(sc.s, from, at, room as nat);
            lemma_suffix_ends(sc.s, from, at, room as nat);
            lemma_emit_fine(sc, p, at - back, len + back, (at - from) as nat);
            assert(tables_fine(sc, t, at + len));
            lemma_after_match_fine(
                sc,
                t,
                emit(sc.s, p, at - back, len + back, (at - from) as nat),
                at + len,
                cur,
            );
        },
    }
}

/// A search that gives up had nothing at any stand before the end of the
/// chunk, and entered them all.
#[verifier::rlimit(40)]
proof fn lemma_search_nothing(sc: Scene, rep: nat, t: Heads, from: int, k: nat)
    requires
        runnable(sc),
        sc.clog <= 32,
        0 <= from,
        tables_fine(sc, t, stand(from, k).at),
        forall|j: nat| j < k ==> #[trigger] nothing_at_stand(sc, rep, from, j),
        forall|j: nat| j < k ==> #[trigger] entered_at_stand(sc, t, from, j),
        forall|q: int| #![trigger sc.look(t.short, q)]
            newest_looked_up(
                sc.s,
                sc.mls,
                sc.hlog,
                from,
                hash_at(sc.s, q, sc.mls, sc.hlog),
                k,
            ) >= 0 ==> sc.look(t.short, q) == newest_looked_up(
                sc.s,
                sc.mls,
                sc.hlog,
                from,
                hash_at(sc.s, q, sc.mls, sc.hlog),
                k,
            ),
        forall|q: int| #![trigger sc.look_long(t.long, q)]
            newest_looked_up(sc.s, 8, sc.clog, from, hash_at(sc.s, q, 8, sc.clog), k) >= 0
                ==> sc.look_long(t.long, q) == newest_looked_up(
                sc.s,
                8,
                sc.clog,
                from,
                hash_at(sc.s, q, 8, sc.clog),
                k,
            ),
    ensures
        ({
            let b = stand(from, k);
            let (after, found) = search(sc, rep, t, b.at, b.next, b.step, b.widen);
            found is Nothing ==> forall|j: nat|
                (#[trigger] stand(from, j)).next <= sc.s.len() - 8 ==> nothing_at_stand(
                    sc,
                    rep,
                    from,
                    j,
                ) && entered_at_stand(sc, after, from, j)
        }),
    decreases ahead(sc, stand(from, k).at),
{
    let b = stand(from, k);
    let (after, found) = search(sc, rep, t, b.at, b.next, b.step, b.widen);
    lemma_stand_order(from, k, k);
    if b.next > sc.ilimit() {
        assert forall|j: nat|
            (#[trigger] stand(from, j)).next <= sc.s.len() - 8 implies nothing_at_stand(
            sc,
            rep,
            from,
            j,
        ) && entered_at_stand(sc, after, from, j) by {
            if k <= j {
                lemma_stand_order(from, j, k);
            }
        }
    } else if found is Nothing {
        let ip = b.at;
        if repeats_at(sc.s, sc.window, ip + 1, rep) {
            lemma_match_at_least(sc.s, ip + 1 - rep, ip + 1, 4);
        }
        let t1 = put_both(sc, t, ip);
        assert(tables_fine(sc, t, ip + 1));
        lemma_put_both(sc, t, ip, ip + 1);
        lemma_put(sc, t.short, ip, ip + 1);
        lemma_put_long(sc, t.long, ip, ip + 1);
        assert(tables_fine(sc, t1, b.next));
        assert(stand(from, k + 1).at == b.next);
        let short = sc.look(t.short, ip);
        let long = sc.look_long(t.long, ip);
        assert(!sc.hit(long, ip, 8) && !sc.hit(short, ip, 4));
        assert(nothing_at_stand(sc, rep, from, k));
        assert forall|j: nat| j < k + 1 implies #[trigger] entered_at_stand(
            sc,
            t1,
            from,
            j,
        ) by {
            let at = stand(from, j).at;
            lemma_stand_order(from, k, j);
            if j < k {
                assert(entered_at_stand(sc, t, from, j));
            }
            assert(sc.look(t1.short, at) == sc.look(sc.put(t.short, ip), at));
            assert(sc.look_long(t1.long, at) == sc.look_long(sc.put_long(t.long, ip), at));
        }
        assert forall|q: int| #![trigger sc.look(t1.short, q)]
            newest_looked_up(
                sc.s,
                sc.mls,
                sc.hlog,
                from,
                hash_at(sc.s, q, sc.mls, sc.hlog),
                k + 1,
            ) >= 0 implies sc.look(t1.short, q) == newest_looked_up(
            sc.s,
            sc.mls,
            sc.hlog,
            from,
            hash_at(sc.s, q, sc.mls, sc.hlog),
            k + 1,
        ) by {
            assert(sc.look(t1.short, q) == sc.look(sc.put(t.short, ip), q));
        }
        assert forall|q: int| #![trigger sc.look_long(t1.long, q)]
            newest_looked_up(sc.s, 8, sc.clog, from, hash_at(sc.s, q, 8, sc.clog), k + 1)
                >= 0 implies sc.look_long(t1.long, q) == newest_looked_up(
            sc.s,
            8,
            sc.clog,
            from,
            hash_at(sc.s, q, 8, sc.clog),
            k + 1,
        ) by {
            assert(sc.look_long(t1.long, q) == sc.look_long(sc.put_long(t.long, ip), q));
        }
        lemma_search_nothing(sc, rep, t1, from, k + 1);
    }
}

/// What holds of the end of a parse: see [`lemma_dfast_to_the_end`].
pub open spec fn searched_out(sc: Scene, t: Heads, p: Parse) -> bool {
    let from = if p.steps.len() == 0 {
        1
    } else {
        last_end(p.steps)
    };
    forall|j: nat|
        (#[trigger] stand(from, j)).next <= sc.s.len() - 8 ==> {
            &&& nothing_at_stand(sc, p.rep.first, from, j)
            &&& entered_at_stand(sc, t, from, j)
        }
}

proof fn lemma_parse_from_fine(sc: Scene, t: Heads, p: Parse, ip: int)
    requires
        runnable(sc),
        sc.clog <= 32,
        tables_fine(sc, t, ip),
        parse_fine(sc, p, ip),
        settled(sc.s, sc.window, p),
        0 <= ip,
        ip == if p.steps.len() == 0 {
            1
        } else {
            last_end(p.steps)
        },
    ensures
        ({
            let (after, q) = parse_from(sc, t, p, ip);
            &&& stretched(sc.s, q.steps)
            &&& chained(sc.s, sc.window, q.steps)
            &&& settled(sc.s, sc.window, q)
            &&& kept_right(sc.s, q)
            &&& searched_out(sc, after, q)
        }),
    decreases ahead(sc, ip),
{
    let (t1, found) = search(sc, p.rep.first, t, ip, ip + 1, 1, ip + 256);
    lemma_search_fine(sc, p.rep.first, t, ip, ip + 1, 1, ip + 256);
    if found is Nothing {
        assert(stand(ip, 0) == (Stand { at: ip, next: ip + 1, step: 1, widen: ip + 256 }));
        lemma_search_nothing(sc, p.rep.first, t, ip, 0);
    } else {
        lemma_search_ahead(sc, p.rep.first, t, ip, ip + 1, 1, ip + 256);
        lemma_take_ahead(sc, t1, p, found);
        lemma_take_fine(sc, t1, p, ip, found);
        let (t2, q, next) = take(sc, t1, p, found);
        lemma_parse_from_fine(sc, t2, q, next);
    }
}

/// A dfast parse searches the chunk to its end. Behind the last match, every
/// stand whose next one is at least eight bytes before the end was entered in
/// both tables, and nothing was to be had there. Every match starts and ends
/// where it has to, and where literals follow one the second offset repeats
/// nothing.
pub proof fn lemma_dfast_to_the_end(sc: Scene)
    requires
        runnable(sc),
        sc.clog <= 32,
    ensures
        ({
            let (t, p) = parse_dfast(sc, initial_parse());
            &&& stretched(sc.s, p.steps)
            &&& chained(sc.s, sc.window, p.steps)
            &&& settled(sc.s, sc.window, p)
            &&& kept_right(sc.s, p)
            &&& searched_out(sc, t, p)
        }),
{
    lemma_parse_from_fine(
        sc,
        Heads { short: fresh_table(sc.hlog), long: fresh_table(sc.clog) },
        initial_parse(),
        1,
    );
}

/// Whether some matches left their mark in the tables: for each that ends at
/// least eight bytes before the end of the chunk, the position two bytes before
/// its end was entered for its eight bytes, and the one before its end for its
/// leading ones; or, where it repeats the second offset right behind another
/// match, its first position for both. They are there, or newer ones with their
/// hashes.
pub open spec fn matches_entered(sc: Scene, t: Heads, steps: Seq<Step>) -> bool {
    forall|i: int|
        0 <= i < steps.len() ==> {
            let st = #[trigger] steps[i];
            let end = st.start + st.match_len;
            ||| end > sc.s.len() - 8
            ||| sc.look(t.short, end - 1) >= end - 1 && sc.look_long(t.long, end - 2) >= end - 2
            ||| i > 0 && st.start == steps[i - 1].start + steps[i - 1].match_len && sc.look(
                t.short,
                st.start,
            ) >= st.start && sc.look_long(t.long, st.start) >= st.start
        }
}

/// Whether some matches all end at `lim` or before.
spec fn end_by(steps: Seq<Step>, lim: int) -> bool {
    forall|i: int| 0 <= i < steps.len() ==> (#[trigger] steps[i]).start + steps[i].match_len <= lim
}

proof fn lemma_put_looks(sc: Scene, head: Seq<i32>, x: int)
    requires
        runnable(sc),
        head.len() == pow2(sc.hlog),
        0 <= x < sc.s.len(),
    ensures
        forall|q: int|
            #![trigger sc.look(sc.put(head, x), q)]
            sc.look(sc.put(head, x), q) == x || sc.look(sc.put(head, x), q) == sc.look(head, q),
        sc.look(sc.put(head, x), x) == x,
        sc.put(head, x).len() == pow2(sc.hlog),
{
    lemma_hash_bound(sc.s, x, sc.mls, sc.hlog);
    assert forall|q: int| #![trigger sc.look(sc.put(head, x), q)] sc.look(sc.put(head, x), q) == x
        || sc.look(sc.put(head, x), q) == sc.look(head, q) by {
        lemma_hash_bound(sc.s, q, sc.mls, sc.hlog);
    }
}

proof fn lemma_put_long_looks(sc: Scene, head: Seq<i32>, x: int)
    requires
        runnable(sc),
        sc.clog <= 32,
        head.len() == pow2(sc.clog),
        0 <= x < sc.s.len(),
    ensures
        forall|q: int|
            #![trigger sc.look_long(sc.put_long(head, x), q)]
            sc.look_long(sc.put_long(head, x), q) == x || sc.look_long(sc.put_long(head, x), q)
                == sc.look_long(head, q),
        sc.look_long(sc.put_long(head, x), x) == x,
        sc.put_long(head, x).len() == pow2(sc.clog),
{
    lemma_hash_bound(sc.s, x, 8, sc.clog);
    assert forall|q: int| #![trigger sc.look_long(sc.put_long(head, x), q)] sc.look_long(
        sc.put_long(head, x),
        q,
    ) == x || sc.look_long(sc.put_long(head, x), q) == sc.look_long(head, q) by {
        lemma_hash_bound(sc.s, q, 8, sc.clog);
    }
}

/// Entering a position behind some matches, in one table or in both, keeps
/// their marks.
proof fn lemma_put_keeps_marks(sc: Scene, t: Heads, steps: Seq<Step>, x: int, y: int)
    requires
        runnable(sc),
        sc.clog <= 32,
        t.short.len() == pow2(sc.hlog),
        t.long.len() == pow2(sc.clog),
        matches_entered(sc, t, steps),
        end_by(steps, x),
        end_by(steps, y),
        0 <= x < sc.s.len(),
        0 <= y < sc.s.len(),
    ensures
        matches_entered(
            sc,
            (Heads { short: sc.put(t.short, x), long: sc.put_long(t.long, y) }),
            steps,
        ),
        matches_entered(
            sc,
            (Heads { short: t.short, long: sc.put_long(t.long, y) }),
            steps,
        ),
{
    let short = sc.put(t.short, x);
    let long = sc.put_long(t.long, y);
    lemma_put_looks(sc, t.short, x);
    lemma_put_long_looks(sc, t.long, y);
    assert forall|i: int| 0 <= i < steps.len() implies {
        let st = #[trigger] steps[i];
        let end = st.start + st.match_len;
        ||| end > sc.s.len() - 8
        ||| sc.look(short, end - 1) >= end - 1 && sc.look(t.short, end - 1) >= end - 1
            && sc.look_long(long, end - 2) >= end - 2
        ||| i > 0 && st.start == steps[i - 1].start + steps[i - 1].match_len && sc.look(
            short,
            st.start,
        ) >= st.start && sc.look(t.short, st.start) >= st.start && sc.look_long(long, st.start)
            >= st.start
    } by {
        let st = steps[i];
        let end = st.start + st.match_len;
        assert(sc.look(short, end - 1) == sc.look(sc.put(t.short, x), end - 1));
        assert(sc.look(short, st.start) == sc.look(sc.put(t.short, x), st.start));
        assert(sc.look_long(long, end - 2) == sc.look_long(sc.put_long(t.long, y), end - 2));
        assert(sc.look_long(long, st.start) == sc.look_long(sc.put_long(t.long, y), st.start));
    }
}

/// A match that was recorded has its mark, and those before it keep theirs.
proof fn lemma_marks_push(sc: Scene, t: Heads, steps: Seq<Step>, now: Seq<Step>)
    requires
        matches_entered(sc, t, steps),
        now.len() == steps.len() + 1,
        now.take(steps.len() as int) == steps,
        ({
            let st = now.last();
            let end = st.start + st.match_len;
            ||| end > sc.s.len() - 8
            ||| sc.look(t.short, end - 1) >= end - 1 && sc.look_long(t.long, end - 2) >= end - 2
            ||| steps.len() > 0 && st.start == last_end(steps) && sc.look(t.short, st.start)
                >= st.start && sc.look_long(t.long, st.start) >= st.start
        }),
    ensures
        matches_entered(sc, t, now),
{
    assert forall|i: int| 0 <= i < now.len() implies {
        let st = #[trigger] now[i];
        let end = st.start + st.match_len;
        ||| end > sc.s.len() - 8
        ||| sc.look(t.short, end - 1) >= end - 1 && sc.look_long(t.long, end - 2) >= end - 2
        ||| i > 0 && st.start == now[i - 1].start + now[i - 1].match_len && sc.look(
            t.short,
            st.start,
        ) >= st.start && sc.look_long(t.long, st.start) >= st.start
    } by {
        if i < steps.len() {
            assert(now[i] == now.take(steps.len() as int)[i]);
            if i > 0 {
                assert(now[i - 1] == now.take(steps.len() as int)[i - 1]);
            }
        } else if i > 0 {
            assert(now[i - 1] == now.take(steps.len() as int)[i - 1]);
        }
    }
}

proof fn lemma_end_by_push(steps: Seq<Step>, now: Seq<Step>, lim: int, end: int)
    requires
        end_by(steps, lim),
        lim <= end,
        now.len() == steps.len() + 1,
        now.take(steps.len() as int) == steps,
        last_end(now) == end,
    ensures
        end_by(now, end),
{
    assert forall|i: int| 0 <= i < now.len() implies (#[trigger] now[i]).start + now[i].match_len
        <= end by {
        if i < steps.len() {
            assert(now[i] == now.take(steps.len() as int)[i]);
        }
    }
}

proof fn lemma_chain_marks(sc: Scene, t: Heads, p: Parse, ip: int)
    requires
        runnable(sc),
        sc.clog <= 32,
        tables_fine(sc, t, ip),
        0 <= ip,
        parse_fine(sc, p, ip),
        last_end(p.steps) == ip,
        p.steps.len() > 0,
        matches_entered(sc, t, p.steps),
        end_by(p.steps, ip),
    ensures
        ({
            let (after, q, end) = chain(sc, t, p, ip);
            matches_entered(sc, after, q.steps) && end_by(q.steps, end)
        }),
    decreases ahead(sc, ip),
{
    let len = sc.rep_len(ip, p.rep.second);
    if ip > sc.ilimit() || len < 4 {
    } else {
        let q = emit(sc.s, p, ip, len, p.rep.second);
        let after = put_both(sc, t, ip);
        lemma_match_ends(sc.s, ip - p.rep.second, ip);
        lemma_emit_fine(sc, p, ip, len, p.rep.second);
        assert(tables_fine(sc, t, ip + len));
        lemma_put_both(sc, t, ip, ip + len);
        lemma_put_looks(sc, t.short, ip);
        lemma_put_long_looks(sc, t.long, ip);
        lemma_put_keeps_marks(sc, t, p.steps, ip, ip);
        lemma_marks_push(sc, after, p.steps, q.steps);
        lemma_end_by_push(p.steps, q.steps, ip, ip + len);
        lemma_chain_marks(sc, after, q, ip + len);
    }
}

proof fn lemma_after_match_marks(
    sc: Scene,
    t: Heads,
    before: Seq<Step>,
    p: Parse,
    ip: int,
    cur: int,
)
    requires
        runnable(sc),
        sc.clog <= 32,
        tables_fine(sc, t, ip),
        0 <= cur,
        cur + 2 < ip,
        parse_fine(sc, p, ip),
        last_end(p.steps) == ip,
        p.steps.len() == before.len() + 1,
        p.steps.take(before.len() as int) == before,
        matches_entered(sc, t, before),
        end_by(before, cur),
    ensures
        ({
            let (after, q, end) = after_match(sc, t, p, ip, cur);
            matches_entered(sc, after, q.steps) && end_by(q.steps, end)
        }),
{
    lemma_end_by_push(before, p.steps, cur, ip);
    if ip > sc.ilimit() {
        lemma_marks_push(sc, t, before, p.steps);
    } else {
        let t1 = put_both(sc, t, sc.hashable(cur + 2));
        let t2 = Heads { short: sc.put(t1.short, ip - 1), long: sc.put_long(t1.long, ip - 2) };
        assert(end_by(before, cur + 2));
        assert(end_by(before, ip - 2));
        assert(end_by(before, ip - 1));
        lemma_put_both(sc, t, cur + 2, ip);
        lemma_put(sc, t1.short, ip - 1, ip);
        lemma_put_long(sc, t1.long, ip - 2, ip);
        lemma_put_looks(sc, t1.short, ip - 1);
        lemma_put_long_looks(sc, t1.long, ip - 2);
        lemma_put_keeps_marks(sc, t, before, cur + 2, cur + 2);
        lemma_put_keeps_marks(sc, t1, before, ip - 1, ip - 2);
        lemma_marks_push(sc, t2, before, p.steps);
        lemma_chain_marks(sc, t2, p, ip);
    }
}

proof fn lemma_search_marks(
    sc: Scene,
    rep: nat,
    t: Heads,
    steps: Seq<Step>,
    ip: int,
    ip1: int,
    step: int,
    next_step: int,
)
    requires
        runnable(sc),
        sc.clog <= 32,
        tables_fine(sc, t, ip),
        0 <= ip,
        1 <= step,
        ip1 == ip + step,
        matches_entered(sc, t, steps),
        end_by(steps, ip),
    ensures
        matches_entered(sc, search(sc, rep, t, ip, ip1, step, next_step).0, steps),
    decreases ahead(sc, ip),
{
    if ip1 > sc.ilimit() || ip1 <= ip {
    } else {
        let t1 = put_both(sc, t, ip);
        assert(end_by(steps, ip1));
        assert(tables_fine(sc, t, ip + 1));
        lemma_put_both(sc, t, ip, ip + 1);
        assert(tables_fine(sc, t1, ip1));
        lemma_put_keeps_marks(sc, t, steps, ip, ip);
        lemma_put_keeps_marks(sc, t1, steps, ip1, ip1);
        if sc.rep_len(ip + 1, rep) >= 4 {
        } else if sc.hit(sc.look_long(t.long, ip), ip, 8) {
        } else if sc.hit(sc.look(t.short, ip), ip, 4) {
        } else if ip1 >= next_step {
            lemma_search_marks(
                sc,
                rep,
                t1,
                steps,
                ip1,
                ip1 + step + 1,
                step + 1,
                next_step + 256,
            );
        } else {
            lemma_search_marks(sc, rep, t1, steps, ip1, ip1 + step, step, next_step);
        }
    }
}

#[verifier::rlimit(30)]
proof fn lemma_parse_from_marks(sc: Scene, t: Heads, p: Parse, ip: int)
    requires
        runnable(sc),
        sc.clog <= 32,
        tables_fine(sc, t, ip),
        parse_fine(sc, p, ip),
        settled(sc.s, sc.window, p),
        0 <= ip,
        matches_entered(sc, t, p.steps),
        end_by(p.steps, ip),
    ensures
        ({
            let (after, q) = parse_from(sc, t, p, ip);
            matches_entered(sc, after, q.steps)
        }),
    decreases ahead(sc, ip),
{
    let (t1, found) = search(sc, p.rep.first, t, ip, ip + 1, 1, ip + 256);
    lemma_search_fine(sc, p.rep.first, t, ip, ip + 1, 1, ip + 256);
    lemma_search_marks(sc, p.rep.first, t, p.steps, ip, ip + 1, 1, ip + 256);
    if !(found is Nothing) {
        lemma_search_ahead(sc, p.rep.first, t, ip, ip + 1, 1, ip + 256);
        lemma_take_ahead(sc, t1, p, found);
        lemma_take_fine(sc, t1, p, ip, found);
        let (t2, q, next) = take(sc, t1, p, found);
        match found {
            Found::Nothing => {},
            Found::Repeat { at, len, cur } => {
                lemma_match_ends(sc.s, at - p.rep.first, at);
                lemma_emit_fine(sc, p, at, len, p.rep.first);
                assert(tables_fine(sc, t1, at + len));
                assert(end_by(p.steps, cur));
                lemma_after_match_marks(
                    sc,
                    t1,
                    p.steps,
                    emit(sc.s, p, at, len, p.rep.first),
                    at + len,
                    cur,
                );
            },
            Found::Table { from, at, len, cur } => {
                let room = if at - p.lit_start < from {
                    at - p.lit_start
                } else {
                    from
                };
                let back = common_suffix(sc.s, from, at, room as nat);
                lemma_suffix_ends(sc.s, from, at, room as nat);
                lemma_emit_fine(sc, p, at - back, len + back, (at - from) as nat);
                assert(tables_fine(sc, t1, at + len));
                assert(end_by(p.steps, cur));
                lemma_after_match_marks(
                    sc,
                    t1,
                    p.steps,
                    emit(sc.s, p, at - back, len + back, (at - from) as nat),
                    at + len,
                    cur,
                );
            },
        }
        lemma_parse_from_marks(sc, t2, q, next);
    }
}

/// Every match of a dfast parse leaves its mark in the tables.
pub proof fn lemma_dfast_marks_matches(sc: Scene)
    requires
        runnable(sc),
        sc.clog <= 32,
    ensures
        ({
            let (t, p) = parse_dfast(sc, initial_parse());
            matches_entered(sc, t, p.steps)
        }),
{
    lemma_parse_from_marks(
        sc,
        Heads { short: fresh_table(sc.hlog), long: fresh_table(sc.clog) },
        initial_parse(),
        1,
    );
}

/// What one stand of a search leads to. A repeat of the newest offset behind
/// the position comes first, then what the table of 8-byte hashes holds for the
/// position, then what the other table holds; there an 8-byte match at the next
/// stand is taken instead, if it is longer. The position is entered in both
/// tables.
pub proof fn lemma_stand_outcome(sc: Scene, rep: nat, t: Heads, ip: int, step: int)
    requires
        runnable(sc),
        sc.clog <= 32,
        tables_fine(sc, t, ip),
        0 <= ip,
        1 <= step,
        ip + step <= sc.s.len() - 8,
    ensures
        ({
            let (after, found) = search(sc, rep, t, ip, ip + step, step, ip + 256);
            let next = ip + step;
            let long = sc.look_long(t.long, ip) as int;
            let short = sc.look(t.short, ip) as int;
            let ahead_one = if hash_at(sc.s, ip, 8, sc.clog) == hash_at(sc.s, next, 8, sc.clog) {
                ip
            } else {
                sc.look_long(t.long, next) as int
            };
            let quiet = !repeats_at(sc.s, sc.window, ip + 1, rep);
            &&& repeats_at(sc.s, sc.window, ip + 1, rep) ==> found == (Found::Repeat {
                at: ip + 1,
                len: match_len(sc.s, ip + 1 - rep, ip + 1),
                cur: ip,
            })
            &&& quiet && holds(sc, long, ip, 8) ==> {
                &&& found is Table
                &&& found->from == long
                &&& found->Table_at == ip
            }
            &&& quiet && !holds(sc, long, ip, 8) && holds(sc, short, ip, 4) ==> {
                let here = 4 + match_len(sc.s, short + 4, ip + 4);
                let there = 8 + match_len(sc.s, ahead_one + 8, next + 8);
                &&& found is Table
                &&& if holds(sc, ahead_one, next, 8) && there > here {
                    found->from == ahead_one && found->Table_at == next && found->Table_len
                        == there
                } else {
                    found->from == short && found->Table_at == ip && found->Table_len == here
                }
            }
            &&& quiet && (holds(sc, long, ip, 8) || holds(sc, short, ip, 4)) && step < 4
                ==> sc.look_long(after.long, next) == next
            &&& !quiet || holds(sc, long, ip, 8) || holds(sc, short, ip, 4) ==> {
                &&& sc.look(after.short, ip) >= ip
                &&& sc.look_long(after.long, ip) >= ip
            }
        }),
{
    let next = ip + step;
    if repeats_at(sc.s, sc.window, ip + 1, rep) {
        lemma_match_at_least(sc.s, ip + 1 - rep, ip + 1, 4);
    }
    let t1 = put_both(sc, t, ip);
    assert(tables_fine(sc, t, ip + 1));
    lemma_put_both(sc, t, ip, ip + 1);
    lemma_put(sc, t.short, ip, ip + 1);
    lemma_put_long(sc, t.long, ip, ip + 1);
    lemma_put_looks(sc, t.short, ip);
    lemma_put_long_looks(sc, t.long, ip);
    lemma_put_long_looks(sc, t1.long, next);
    assert(sc.look_long(t1.long, next) == sc.look_long(sc.put_long(t.long, ip), next));
    assert(sc.look_long(t1.long, ip) == ip);
    assert(sc.look(t1.short, ip) == ip);
    let long2 = sc.put_long(t1.long, next);
    assert(sc.look_long(long2, ip) == sc.look_long(sc.put_long(t1.long, next), ip));
}

} // verus!
