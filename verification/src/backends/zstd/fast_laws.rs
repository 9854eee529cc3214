//! What a `fast` parse promises: it searches to the end of the chunk, passes
//! over nothing that it entered since the last match, and records matches that
//! go as far as they can.

use super::fast::{
    after_match, chain, first_step, lemma_search_ahead, lemma_take_ahead, parse_fast, parse_from,
    repeat_back, search, take, Found,
};
use super::laws::{
    chained, kept_right, last_end, lemma_emit_fine, lemma_match_at_least, lemma_match_ends, lemma_put,
    lemma_suffix_ends, parse_fine, repeats_at, runnable, settled, stretched,
};
use super::parse::{emit, initial_parse, Parse, Step};
use super::tables::{ahead, entries_below, fresh_table, Scene};
use super::words::{agree_run, common_suffix, hash_at, lemma_hash_bound, match_len};
use vstd::arithmetic::power2::pow2;
use vstd::prelude::*;

verus! {

/// Whether a table has the right size and holds positions before `lim` only.
pub open spec fn table_fine(sc: Scene, head: Seq<i32>, lim: int) -> bool {
    head.len() == pow2(sc.hlog) && entries_below(head, lim)
}

/// One stand of a search: the two positions that it looks up are `at` and the
/// one behind it, the repeat is tried at `next`, where the search goes on; the
/// step widens when the position after that is at `widen` or later.
pub struct Stand {
    pub at: int,
    pub next: int,
    pub step: int,
    pub widen: int,
}

/// The stand of number `k` of a search from `from` on.
pub open spec fn stand(from: int, first: int, k: nat) -> Stand
    decreases k,
{
    if k == 0 {
        Stand { at: from, next: from + first, step: first, widen: from + 128 }
    } else {
        let b = stand(from, first, (k - 1) as nat);
        if b.next + b.step >= b.widen {
            Stand { at: b.next, next: b.next + b.step, step: b.step + 1, widen: b.widen + 128 }
        } else {
            Stand { at: b.next, next: b.next + b.step, step: b.step, widen: b.widen }
        }
    }
}

/// The newest of the positions that the first `k` stands looked up with the
/// hash `h`, -1 if there is none.
pub open spec fn newest_looked_up(sc: Scene, from: int, first: int, h: nat, k: nat) -> int
    decreases k,
{
    if k == 0 {
        -1
    } else {
        let at = stand(from, first, (k - 1) as nat).at;
        if hash_at(sc.s, at + 1, sc.mls, sc.hlog) == h {
            at + 1
        } else if hash_at(sc.s, at, sc.mls, sc.hlog) == h {
            at
        } else {
            newest_looked_up(sc, from, first, h, (k - 1) as nat)
        }
    }
}

/// Whether `c` holds the four bytes at `q`, no more than the window before.
pub open spec fn holds(sc: Scene, c: int, q: int) -> bool {
    c >= 0 && q - c <= sc.window && agree_run(sc.s, c, q, 4)
}

/// Whether nothing was to be had at the stand of number `k`: what was entered
/// last for its two positions differs from them, and the newest offset does
/// not repeat where it was tried.
pub open spec fn nothing_at_stand(sc: Scene, rep: nat, from: int, first: int, k: nat) -> bool {
    let at = stand(from, first, k).at;
    let h0 = hash_at(sc.s, at, sc.mls, sc.hlog);
    let h1 = hash_at(sc.s, at + 1, sc.mls, sc.hlog);
    &&& !repeats_at(sc.s, sc.window, stand(from, first, k).next, rep)
    &&& !holds(sc, newest_looked_up(sc, from, first, h0, k), at)
    &&& !holds(
        sc,
        if h0 == h1 {
            at
        } else {
            newest_looked_up(sc, from, first, h1, k)
        },
        at + 1,
    )
}

/// Whether the two positions of the stand of number `k` were entered in a
/// table: it holds them, or newer ones with their hashes.
pub open spec fn entered_at_stand(
    sc: Scene,
    head: Seq<i32>,
    from: int,
    first: int,
    k: nat,
) -> bool {
    let at = stand(from, first, k).at;
    &&& sc.look(head, at) >= at
    &&& sc.look(head, at + 1) >= at + 1
}

proof fn lemma_stand_order(from: int, first: int, j: nat, k: nat)
    requires
        first >= 2,
        k <= j,
    ensures
        stand(from, first, k).step >= 2,
        stand(from, first, k).next >= stand(from, first, k).at + 2,
        stand(from, first, k).at >= from,
        stand(from, first, k).next <= stand(from, first, j).next,
        stand(from, first, k).at <= stand(from, first, j).at,
        k < j ==> stand(from, first, k).next <= stand(from, first, j).at,
    decreases j,
{
    if k < j {
        lemma_stand_order(from, first, (j - 1) as nat, k);
        lemma_stand_order(from, first, (j - 1) as nat, (j - 1) as nat);
    } else if k > 0 {
        lemma_stand_order(from, first, (k - 1) as nat, (k - 1) as nat);
    }
}

/// What a search returns, and what its table holds then.
proof fn lemma_search_fine(
    sc: Scene,
    rep: nat,
    head: Seq<i32>,
    ip0: int,
    ip2: int,
    step: int,
    next_step: int,
)
    requires
        runnable(sc),
        table_fine(sc, head, ip0),
        0 <= ip0,
        2 <= step,
        ip2 <= ip0 + step,
    ensures
        ({
            let (after, found) = search(sc, rep, head, ip0, ip2, step, next_step);
            match found {
                Found::Nothing => after.len() == pow2(sc.hlog),
                Found::Repeat { at, cur } => {
                    &&& ip0 <= cur
                    &&& cur + 2 <= at
                    &&& at + 1 < sc.s.len() - 8
                    &&& sc.rep_len(at, rep) >= 4
                    &&& table_fine(sc, after, cur + 2)
                },
                Found::Table { from, at } => {
                    &&& ip0 <= at
                    &&& at + 1 < sc.s.len() - 8
                    &&& 0 <= from < at
                    &&& agree_run(sc.s, from, at, 4)
                    &&& table_fine(sc, after, at + 4)
                },
            }
        }),
    decreases ahead(sc, ip0),
{
    if ip2 + 1 >= sc.ilimit() || ip2 < ip0 + 2 {
    } else if sc.rep_len(ip2, rep) >= 4 {
        assert(table_fine(sc, head, ip0 + 2));
        lemma_put(sc, head, ip0 + 1, ip0 + 2);
    } else {
        lemma_hash_bound(sc.s, ip0, sc.mls, sc.hlog);
        lemma_hash_bound(sc.s, ip0 + 1, sc.mls, sc.hlog);
        let head1 = sc.put(head, ip0);
        assert(table_fine(sc, head, ip0 + 1));
        lemma_put(sc, head, ip0, ip0 + 1);
        assert(table_fine(sc, head1, ip0 + 2));
        let head2 = sc.put(head1, ip0 + 1);
        lemma_put(sc, head1, ip0 + 1, ip0 + 2);
        if sc.hit(sc.look(head, ip0), ip0, 4) {
        } else {
            if sc.hit(sc.look(head1, ip0 + 1), ip0 + 1, 4) {
                if step <= 4 {
                    assert(table_fine(sc, head2, ip0 + 5));
                    lemma_put(sc, head2, ip2, ip0 + 5);
                }
            } else {
                assert(table_fine(sc, head2, ip2));
                if ip2 + step >= next_step {
                    lemma_search_fine(
                        sc,
                        rep,
                        head2,
                        ip2,
                        ip2 + step,
                        step + 1,
                        next_step + 128,
                    );
                } else {
                    lemma_search_fine(sc, rep, head2, ip2, ip2 + step, step, next_step);
                }
            }
        }
    }
}

proof fn lemma_chain_fine(sc: Scene, head: Seq<i32>, p: Parse, ip: int)
    requires
        runnable(sc),
        table_fine(sc, head, ip),
        0 <= ip,
        parse_fine(sc, p, ip),
        last_end(p.steps) == ip,
        p.steps.len() > 0,
    ensures
        ({
            let (after, q, end) = chain(sc, head, p, ip);
            &&& table_fine(sc, after, end)
            &&& parse_fine(sc, q, end)
            &&& settled(sc.s, sc.window, q)
            &&& last_end(q.steps) == end
            &&& q.steps.len() >= p.steps.len()
            &&& q.steps.take(p.steps.len() as int) == p.steps
            &&& end >= ip
        }),
    decreases ahead(sc, ip),
{
    let len = sc.rep_len(ip, p.rep.second);
    if ip <= sc.ilimit() && repeats_at(sc.s, sc.window, ip, p.rep.second) {
        lemma_match_at_least(sc.s, ip - p.rep.second, ip, 4);
    }
    if ip > sc.ilimit() || len < 4 {
        assert(p.steps.take(p.steps.len() as int) =~= p.steps);
    } else {
        lemma_match_ends(sc.s, ip - p.rep.second, ip);
        lemma_emit_fine(sc, p, ip, len, p.rep.second);
        assert(table_fine(sc, head, ip + len));
        lemma_put(sc, head, ip, ip + len);
        let q = emit(sc.s, p, ip, len, p.rep.second);
        lemma_chain_fine(sc, sc.put(head, ip), q, ip + len);
        let r = chain(sc, sc.put(head, ip), q, ip + len).1;
        assert(r.steps.take(p.steps.len() as int) =~= r.steps.take(q.steps.len() as int).take(
            p.steps.len() as int,
        ));
    }
}

proof fn lemma_after_match_fine(sc: Scene, head: Seq<i32>, p: Parse, ip: int, cur: int)
    requires
        runnable(sc),
        table_fine(sc, head, ip),
        0 <= cur,
        cur + 2 < ip,
        parse_fine(sc, p, ip),
        last_end(p.steps) == ip,
        p.steps.len() > 0,
    ensures
        ({
            let (after, q, end) = after_match(sc, head, p, ip, cur);
            &&& table_fine(sc, after, end)
            &&& parse_fine(sc, q, end)
            &&& settled(sc.s, sc.window, q)
            &&& last_end(q.steps) == end
            &&& q.steps.len() >= p.steps.len()
            &&& q.steps.take(p.steps.len() as int) == p.steps
            &&& end >= ip
        }),
{
    if ip > sc.ilimit() {
        assert(p.steps.take(p.steps.len() as int) =~= p.steps);
    } else {
        let head1 = sc.put(head, sc.hashable(cur + 2));
        lemma_put(sc, head, sc.hashable(cur + 2), ip);
        lemma_put(sc, head1, sc.hashable(ip - 2), ip);
        lemma_chain_fine(sc, sc.put(head1, sc.hashable(ip - 2)), p, ip);
    }
}

proof fn lemma_take_fine(sc: Scene, head: Seq<i32>, p: Parse, ip0: int, found: Found)
    requires
        runnable(sc),
        0 <= ip0,
        parse_fine(sc, p, ip0),
        settled(sc.s, sc.window, p),
        match found {
            Found::Nothing => false,
            Found::Repeat { at, cur } => {
                &&& ip0 <= cur
                &&& cur + 2 <= at
                &&& at + 1 < sc.s.len() - 8
                &&& sc.rep_len(at, p.rep.first) >= 4
                &&& table_fine(sc, head, cur + 2)
            },
            Found::Table { from, at } => {
                &&& ip0 <= at
                &&& at + 1 < sc.s.len() - 8
                &&& 0 <= from < at
                &&& agree_run(sc.s, from, at, 4)
                &&& table_fine(sc, head, at + 4)
            },
        },
    ensures
        ({
            let (after, q, end) = take(sc, head, p, found);
            &&& table_fine(sc, after, end)
            &&& parse_fine(sc, q, end)
            &&& settled(sc.s, sc.window, q)
            &&& last_end(q.steps) == end
            &&& q.steps.len() > p.steps.len()
            &&& end > ip0
        }),
{
    match found {
        Found::Nothing => {},
        Found::Repeat { at, cur } => {
            let r = p.rep.first;
            let back = repeat_back(sc, at, r);
            let len = back + 4 + match_len(sc.s, at - r + 4, at + 4);
            lemma_match_ends(sc.s, at - r + 4, at + 4);
            lemma_emit_fine(sc, p, at - back, len, r);
            assert(table_fine(sc, head, at - back + len));
            lemma_after_match_fine(
                sc,
                head,
                emit(sc.s, p, at - back, len, r),
                at - back + len,
                cur,
            );
        },
        Found::Table { from, at } => {
            let room = if at - p.lit_start < from {
                at - p.lit_start
            } else {
                from
            };
            let back = common_suffix(sc.s, from, at, room as nat);
            let len = 4 + match_len(sc.s, from + 4, at + 4);
            lemma_suffix_ends(sc.s, from, at, room as nat);
            lemma_match_ends(sc.s, from + 4, at + 4);
            lemma_emit_fine(sc, p, at - back, len + back, (at - from) as nat);
            assert(table_fine(sc, head, at + len));
            lemma_after_match_fine(
                sc,
                head,
                emit(sc.s, p, at - back, len + back, (at - from) as nat),
                at + len,
                at,
            );
        },
    }
}

/// A search that gives up had nothing at any stand before the end of the
/// chunk, and entered them all.
#[verifier::rlimit(40)]
proof fn lemma_search_nothing(
    sc: Scene,
    rep: nat,
    head: Seq<i32>,
    from: int,
    first: int,
    k: nat,
)
    requires
        runnable(sc),
        first >= 2,
        0 <= from,
        table_fine(sc, head, stand(from, first, k).at),
        forall|j: nat| j < k ==> #[trigger] nothing_at_stand(sc, rep, from, first, j),
        forall|j: nat| j < k ==> #[trigger] entered_at_stand(sc, head, from, first, j),
        forall|q: int| #![trigger sc.look(head, q)]
            newest_looked_up(sc, from, first, hash_at(sc.s, q, sc.mls, sc.hlog), k) >= 0
                ==> sc.look(head, q) == newest_looked_up(
                sc,
                from,
                first,
                hash_at(sc.s, q, sc.mls, sc.hlog),
                k,
            ),
    ensures
        ({
            let b = stand(from, first, k);
            let (after, found) = search(sc, rep, head, b.at, b.next, b.step, b.widen);
            found is Nothing ==> forall|j: nat|
                (#[trigger] stand(from, first, j)).next + 1 < sc.s.len() - 8 ==> nothing_at_stand(
                    sc,
                    rep,
                    from,
                    first,
                    j,
                ) && entered_at_stand(sc, after, from, first, j)
        }),
    decreases ahead(sc, stand(from, first, k).at),
{
    let b = stand(from, first, k);
    let (after, found) = search(sc, rep, head, b.at, b.next, b.step, b.widen);
    lemma_stand_order(from, first, k, k);
    if b.next + 1 >= sc.ilimit() {
        assert forall|j: nat|
            (#[trigger] stand(from, first, j)).next + 1 < sc.s.len() - 8 implies nothing_at_stand(
            sc,
            rep,
            from,
            first,
            j,
        ) && entered_at_stand(sc, after, from, first, j) by {
            if k <= j {
                lemma_stand_order(from, first, j, k);
            }
        }
    } else if found is Nothing {
        let ip0 = b.at;
        if repeats_at(sc.s, sc.window, b.next, rep) {
            lemma_match_at_least(sc.s, b.next - rep, b.next, 4);
        }
        lemma_hash_bound(sc.s, ip0, sc.mls, sc.hlog);
        lemma_hash_bound(sc.s, ip0 + 1, sc.mls, sc.hlog);
        let m0 = sc.look(head, ip0);
        let head1 = sc.put(head, ip0);
        assert(table_fine(sc, head, ip0 + 1));
        lemma_put(sc, head, ip0, ip0 + 1);
        assert(table_fine(sc, head1, ip0 + 2));
        let m1 = sc.look(head1, ip0 + 1);
        let head2 = sc.put(head1, ip0 + 1);
        lemma_put(sc, head1, ip0 + 1, ip0 + 2);
        assert(table_fine(sc, head2, b.next));
        assert(stand(from, first, k + 1).at == b.next);
        assert(nothing_at_stand(sc, rep, from, first, k));
        assert forall|j: nat| j < k + 1 implies #[trigger] entered_at_stand(
            sc,
            head2,
            from,
            first,
            j,
        ) by {
            let at = stand(from, first, j).at;
            lemma_stand_order(from, first, k, j);
            lemma_stand_order(from, first, j, j);
            if j < k {
                assert(entered_at_stand(sc, head, from, first, j));
            }
            assert(sc.look(head1, at) == sc.look(sc.put(head, ip0), at));
            assert(sc.look(head1, at + 1) == sc.look(sc.put(head, ip0), at + 1));
            assert(sc.look(head2, at) == sc.look(sc.put(head1, ip0 + 1), at));
            assert(sc.look(head2, at + 1) == sc.look(sc.put(head1, ip0 + 1), at + 1));
        }
        assert forall|q: int| #![trigger sc.look(head2, q)]
            newest_looked_up(sc, from, first, hash_at(sc.s, q, sc.mls, sc.hlog), k + 1)
                >= 0 implies sc.look(head2, q) == newest_looked_up(
            sc,
            from,
            first,
            hash_at(sc.s, q, sc.mls, sc.hlog),
            k + 1,
        ) by {
            assert(sc.look(head1, q) == sc.look(sc.put(head, ip0), q));
            assert(sc.look(head2, q) == sc.look(sc.put(head1, ip0 + 1), q));
        }
        lemma_search_nothing(sc, rep, head2, from, first, k + 1);
    }
}

/// What holds of the end of a parse: see [`lemma_fast_to_the_end`].
pub open spec fn searched_out(sc: Scene, first: int, head: Seq<i32>, p: Parse) -> bool {
    let from = if p.steps.len() == 0 {
        1
    } else {
        last_end(p.steps)
    };
    forall|j: nat|
        (#[trigger] stand(from, first, j)).next + 1 < sc.s.len() - 8 ==> {
            &&& nothing_at_stand(sc, p.rep.first, from, first, j)
            &&& entered_at_stand(sc, head, from, first, j)
        }
}

proof fn lemma_parse_from_fine(sc: Scene, first: int, head: Seq<i32>, p: Parse, ip0: int)
    requires
        runnable(sc),
        first >= 2,
        table_fine(sc, head, ip0),
        parse_fine(sc, p, ip0),
        settled(sc.s, sc.window, p),
        0 <= ip0,
        ip0 == if p.steps.len() == 0 {
            1
        } else {
            last_end(p.steps)
        },
    ensures
        ({
            let (after, q) = parse_from(sc, first, head, p, ip0);
            &&& stretched(sc.s, q.steps)
            &&& chained(sc.s, sc.window, q.steps)
            &&& settled(sc.s, sc.window, q)
            &&& kept_right(sc.s, q)
            &&& searched_out(sc, first, after, q)
        }),
    decreases ahead(sc, ip0),
{
    let (head1, found) = search(sc, p.rep.first, head, ip0, ip0 + first, first, ip0 + 128);
    lemma_search_fine(sc, p.rep.first, head, ip0, ip0 + first, first, ip0 + 128);
    if found is Nothing {
        assert(stand(ip0, first, 0) == (Stand {
            at: ip0,
            next: ip0 + first,
            step: first,
            widen: ip0 + 128,
        }));
        lemma_search_nothing(sc, p.rep.first, head, ip0, first, 0);
    } else {
        lemma_search_ahead(sc, p.rep.first, head, ip0, ip0 + first, first, ip0 + 128);
        lemma_take_ahead(sc, head1, p, found);
        lemma_take_fine(sc, head1, p, ip0, found);
        let (head2, q, ip) = take(sc, head1, p, found);
        lemma_parse_from_fine(sc, first, head2, q, ip);
    }
}

/// A fast parse searches the chunk to its end. Behind the last match, every
/// stand whose next one is more than nine bytes before the end was entered in
/// the table, and nothing was to be had there: neither does what was entered
/// last for one of its positions hold the same four bytes, nor does the newest
/// offset repeat. Every match starts and ends where it has to, and where
/// literals follow one the second offset repeats nothing.
pub proof fn lemma_fast_to_the_end(sc: Scene, target_len: u32)
    requires
        runnable(sc),
    ensures
        ({
            let (head, p) = parse_fast(sc, target_len, initial_parse());
            let first = if target_len == 0 {
                2
            } else {
                target_len + 1
            };
            &&& stretched(sc.s, p.steps)
            &&& chained(sc.s, sc.window, p.steps)
            &&& settled(sc.s, sc.window, p)
            &&& kept_right(sc.s, p)
            &&& searched_out(sc, first, head, p)
        }),
{
    lemma_parse_from_fine(
        sc,
        first_step(target_len),
        fresh_table(sc.hlog),
        initial_parse(),
        1,
    );
}

/// Whether some matches left their mark in a table: for each that ends at least
/// eight bytes before the end of the chunk, the position two bytes before its
/// end was entered, or, where it repeats the second offset right behind another
/// match, its first position. It is there, or a newer one with its hash.
pub open spec fn matches_entered(sc: Scene, head: Seq<i32>, steps: Seq<Step>) -> bool {
    forall|i: int|
        0 <= i < steps.len() ==> {
            let st = #[trigger] steps[i];
            let end = st.start + st.match_len;
            ||| end > sc.s.len() - 8
            ||| sc.look(head, end - 2) >= end - 2
            ||| i > 0 && st.start == steps[i - 1].start + steps[i - 1].match_len && sc.look(
                head,
                st.start,
            ) >= st.start
        }
}

/// Whether some matches all end at `lim` or before.
spec fn end_by(steps: Seq<Step>, lim: int) -> bool {
    forall|i: int| 0 <= i < steps.len() ==> (#[trigger] steps[i]).start + steps[i].match_len <= lim
}

/// Entering a position behind some matches keeps their marks.
proof fn lemma_put_keeps_marks(sc: Scene, head: Seq<i32>, steps: Seq<Step>, x: int)
    requires
        runnable(sc),
        head.len() == pow2(sc.hlog),
        matches_entered(sc, head, steps),
        end_by(steps, x),
        0 <= x < sc.s.len(),
    ensures
        matches_entered(sc, sc.put(head, x), steps),
        sc.put(head, x).len() == pow2(sc.hlog),
        sc.look(sc.put(head, x), x) == x,
{
    let after = sc.put(head, x);
    lemma_put_looks(sc, head, x);
    lemma_hash_bound(sc.s, x, sc.mls, sc.hlog);
    assert forall|i: int| 0 <= i < steps.len() implies {
        let st = #[trigger] steps[i];
        let end = st.start + st.match_len;
        ||| end > sc.s.len() - 8
        ||| sc.look(after, end - 2) >= end - 2
        ||| i > 0 && st.start == steps[i - 1].start + steps[i - 1].match_len && sc.look(
            after,
            st.start,
        ) >= st.start
    } by {
        let end = steps[i].start + steps[i].match_len;
        assert(sc.look(after, end - 2) == sc.look(sc.put(head, x), end - 2));
        assert(sc.look(after, steps[i].start) == sc.look(sc.put(head, x), steps[i].start));
    }
}

/// What looking up gives after a position was entered.
proof fn lemma_put_looks(sc: Scene, head: Seq<i32>, x: int)
    requires
        runnable(sc),
        head.len() == pow2(sc.hlog),
        0 <= x < sc.s.len(),
    ensures
        forall|q: int|
            #![trigger sc.look(sc.put(head, x), q)]
            sc.look(sc.put(head, x), q) == x || sc.look(sc.put(head, x), q) == sc.look(head, q),
        sc.look(sc.put(head, x), x) == x,
{
    lemma_hash_bound(sc.s, x, sc.mls, sc.hlog);
    assert forall|q: int| #![trigger sc.look(sc.put(head, x), q)] sc.look(sc.put(head, x), q) == x
        || sc.look(sc.put(head, x), q) == sc.look(head, q) by {
        lemma_hash_bound(sc.s, q, sc.mls, sc.hlog);
    }
}

/// A match that was recorded has its mark, and those before it keep theirs.
proof fn lemma_marks_push(sc: Scene, head: Seq<i32>, steps: Seq<Step>, now: Seq<Step>)
    requires
        matches_entered(sc, head, steps),
        now.len() == steps.len() + 1,
        now.take(steps.len() as int) == steps,
        ({
            let st = now.last();
            let end = st.start + st.match_len;
            ||| end > sc.s.len() - 8
            ||| sc.look(head, end - 2) >= end - 2
            ||| steps.len() > 0 && st.start == last_end(steps) && sc.look(head, st.start)
                >= st.start
        }),
    ensures
        matches_entered(sc, head, now),
{
    assert forall|i: int| 0 <= i < now.len() implies {
        let st = #[trigger] now[i];
        let end = st.start + st.match_len;
        ||| end > sc.s.len() - 8
        ||| sc.look(head, end - 2) >= end - 2
        ||| i > 0 && st.start == now[i - 1].start + now[i - 1].match_len && sc.look(head, st.start)
            >= st.start
    } by {
        if i < steps.len() {
            assert(now[i] == now.take(steps.len() as int)[i]);
            if i > 0 {
                assert(now[i - 1] == now.take(steps.len() as int)[i - 1]);
            }
        } else if i > 0 {
            assert(now[i - 1] == now.take(steps.len() as int)[i - 1]);
        }
    }
}

proof fn lemma_end_by_push(steps: Seq<Step>, now: Seq<Step>, lim: int, end: int)
    requires
        end_by(steps, lim),
        lim <= end,
        now.len() == steps.len() + 1,
        now.take(steps.len() as int) == steps,
        last_end(now) == end,
    ensures
        end_by(now, end),
{
    assert forall|i: int| 0 <= i < now.len() implies (#[trigger] now[i]).start + now[i].match_len
        <= end by {
        if i < steps.len() {
            assert(now[i] == now.take(steps.len() as int)[i]);
        }
    }
}

proof fn lemma_chain_marks(sc: Scene, head: Seq<i32>, p: Parse, ip: int)
    requires
        runnable(sc),
        table_fine(sc, head, ip),
        0 <= ip,
        parse_fine(sc, p, ip),
        last_end(p.steps) == ip,
        p.steps.len() > 0,
        matches_entered(sc, head, p.steps),
        end_by(p.steps, ip),
    ensures
        ({
            let (after, q, end) = chain(sc, head, p, ip);
            matches_entered(sc, after, q.steps) && end_by(q.steps, end)
        }),
    decreases ahead(sc, ip),
{
    let len = sc.rep_len(ip, p.rep.second);
    if ip > sc.ilimit() || len < 4 {
    } else {
        let q = emit(sc.s, p, ip, len, p.rep.second);
        let after = sc.put(head, ip);
        lemma_match_ends(sc.s, ip - p.rep.second, ip);
        lemma_emit_fine(sc, p, ip, len, p.rep.second);
        assert(table_fine(sc, head, ip + len));
        lemma_put(sc, head, ip, ip + len);
        lemma_put_keeps_marks(sc, head, p.steps, ip);
        lemma_marks_push(sc, after, p.steps, q.steps);
        lemma_end_by_push(p.steps, q.steps, ip, ip + len);
        lemma_chain_marks(sc, after, q, ip + len);
    }
}

proof fn lemma_after_match_marks(
    sc: Scene,
    head: Seq<i32>,
    before: Seq<Step>,
    p: Parse,
    ip: int,
    cur: int,
)
    requires
        runnable(sc),
        table_fine(sc, head, ip),
        0 <= cur,
        cur + 2 < ip,
        parse_fine(sc, p, ip),
        last_end(p.steps) == ip,
        p.steps.len() == before.len() + 1,
        p.steps.take(before.len() as int) == before,
        matches_entered(sc, head, before),
        end_by(before, cur),
    ensures
        ({
            let (after, q, end) = after_match(sc, head, p, ip, cur);
            matches_entered(sc, after, q.steps) && end_by(q.steps, end)
        }),
{
    lemma_end_by_push(before, p.steps, cur, ip);
    if ip > sc.ilimit() {
        lemma_marks_push(sc, head, before, p.steps);
    } else {
        let head1 = sc.put(head, sc.hashable(cur + 2));
        let head2 = sc.put(head1, sc.hashable(ip - 2));
        assert(end_by(before, cur + 2));
        assert(end_by(before, ip - 2));
        lemma_put(sc, head, cur + 2, ip);
        lemma_put(sc, head1, ip - 2, ip);
        lemma_put_keeps_marks(sc, head, before, cur + 2);
        lemma_put_keeps_marks(sc, head1, before, ip - 2);
        lemma_marks_push(sc, head2, before, p.steps);
        lemma_chain_marks(sc, head2, p, ip);
    }
}

proof fn lemma_search_marks(
    sc: Scene,
    rep: nat,
    head: Seq<i32>,
    steps: Seq<Step>,
    ip0: int,
    ip2: int,
    step: int,
    next_step: int,
)
    requires
        runnable(sc),
        table_fine(sc, head, ip0),
        0 <= ip0,
        2 <= step,
        ip2 <= ip0 + step,
        matches_entered(sc, head, steps),
        end_by(steps, ip0),
    ensures
        matches_entered(sc, search(sc, rep, head, ip0, ip2, step, next_step).0, steps),
    decreases ahead(sc, ip0),
{
    if ip2 + 1 >= sc.ilimit() || ip2 < ip0 + 2 {
    } else if sc.rep_len(ip2, rep) >= 4 {
        assert(end_by(steps, ip0 + 1));
        lemma_put_keeps_marks(sc, head, steps, ip0 + 1);
    } else {
        let head1 = sc.put(head, ip0);
        let head2 = sc.put(head1, ip0 + 1);
        assert(end_by(steps, ip0 + 1));
        assert(end_by(steps, ip2));
        assert(table_fine(sc, head, ip0 + 1));
        lemma_put(sc, head, ip0, ip0 + 1);
        assert(table_fine(sc, head1, ip0 + 2));
        lemma_put(sc, head1, ip0 + 1, ip0 + 2);
        lemma_put_keeps_marks(sc, head, steps, ip0);
        lemma_put_keeps_marks(sc, head1, steps, ip0 + 1);
        lemma_put_keeps_marks(sc, head2, steps, ip2);
        if sc.hit(sc.look(head, ip0), ip0, 4) {
        } else if sc.hit(sc.look(head1, ip0 + 1), ip0 + 1, 4) {
        } else {
            assert(table_fine(sc, head2, ip2));
            if ip2 + step >= next_step {
                lemma_search_marks(
                    sc,
                    rep,
                    head2,
                    steps,
                    ip2,
                    ip2 + step,
                    step + 1,
                    next_step + 128,
                );
            } else {
                lemma_search_marks(sc, rep, head2, steps, ip2, ip2 + step, step, next_step);
            }
        }
    }
}

#[verifier::rlimit(30)]
proof fn lemma_parse_from_marks(sc: Scene, first: int, head: Seq<i32>, p: Parse, ip0: int)
    requires
        runnable(sc),
        first >= 2,
        table_fine(sc, head, ip0),
        parse_fine(sc, p, ip0),
        settled(sc.s, sc.window, p),
        0 <= ip0,
        matches_entered(sc, head, p.steps),
        end_by(p.steps, ip0),
    ensures
        ({
            let (after, q) = parse_from(sc, first, head, p, ip0);
            matches_entered(sc, after, q.steps)
        }),
    decreases ahead(sc, ip0),
{
    let (head1, found) = search(sc, p.rep.first, head, ip0, ip0 + first, first, ip0 + 128);
    lemma_search_fine(sc, p.rep.first, head, ip0, ip0 + first, first, ip0 + 128);
    lemma_search_marks(sc, p.rep.first, head, p.steps, ip0, ip0 + first, first, ip0 + 128);
    if !(found is Nothing) {
        lemma_search_ahead(sc, p.rep.first, head, ip0, ip0 + first, first, ip0 + 128);
        lemma_take_ahead(sc, head1, p, found);
        lemma_take_fine(sc, head1, p, ip0, found);
        let (head2, q, ip) = take(sc, head1, p, found);
        match found {
            Found::Nothing => {},
            Found::Repeat { at, cur } => {
                let r = p.rep.first;
                let back = repeat_back(sc, at, r);
                let len = back + 4 + match_len(sc.s, at - r + 4, at + 4);
                lemma_match_ends(sc.s, at - r + 4, at + 4);
                lemma_emit_fine(sc, p, at - back, len, r);
                assert(table_fine(sc, head1, at - back + len));
                assert(end_by(p.steps, cur));
                lemma_after_match_marks(
                    sc,
                    head1,
                    p.steps,
                    emit(sc.s, p, at - back, len, r),
                    at - back + len,
                    cur,
                );
            },
            Found::Table { from, at } => {
                let room = if at - p.lit_start < from {
                    at - p.lit_start
                } else {
                    from
                };
                let back = common_suffix(sc.s, from, at, room as nat);
                let len = 4 + match_len(sc.s, from + 4, at + 4);
                lemma_suffix_ends(sc.s, from, at, room as nat);
                lemma_match_ends(sc.s, from + 4, at + 4);
                lemma_emit_fine(sc, p, at - back, len + back, (at - from) as nat);
                assert(table_fine(sc, head1, at + len));
                assert(end_by(p.steps, at));
                lemma_after_match_marks(
                    sc,
                    head1,
                    p.steps,
                    emit(sc.s, p, at - back, len + back, (at - from) as nat),
                    at + len,
                    at,
                );
            },
        }
        lemma_parse_from_marks(sc, first, head2, q, ip);
    }
}

/// Every match of a fast parse leaves its mark in the table.
pub proof fn lemma_fast_marks_matches(sc: Scene, target_len: u32)
    requires
        runnable(sc),
    ensures
        ({
            let (head, p) = parse_fast(sc, target_len, initial_parse());
            matches_entered(sc, head, p.steps)
        }),
{
    lemma_parse_from_marks(
        sc,
        first_step(target_len),
        fresh_table(sc.hlog),
        initial_parse(),
        1,
    );
}

/// What one stand of a search leads to. A repeat of the newest offset at the
/// next stand comes first. Then comes what the table holds for the position itself, then
/// what it holds for the one behind it. What is found, and the position behind
/// it, is entered; on a hit at the second position so is the next stand, unless
/// it is more than four bytes on.
pub proof fn lemma_stand_outcome(sc: Scene, head: Seq<i32>, p: Parse, ip0: int, step: int)
    requires
        runnable(sc),
        table_fine(sc, head, ip0),
        0 <= ip0,
        2 <= step,
        ip0 + step + 1 < sc.s.len() - 8,
    ensures
        ({
            let rep = p.rep.first;
            let (after, found) = search(sc, rep, head, ip0, ip0 + step, step, ip0 + 128);
            let next = ip0 + step;
            let here = sc.look(head, ip0) as int;
            let same = hash_at(sc.s, ip0, sc.mls, sc.hlog) == hash_at(
                sc.s,
                ip0 + 1,
                sc.mls,
                sc.hlog,
            );
            let there = if same {
                ip0
            } else {
                sc.look(head, ip0 + 1) as int
            };
            &&& repeats_at(sc.s, sc.window, next, rep) ==> {
                &&& found == Found::Repeat { at: next, cur: ip0 }
                &&& sc.look(after, ip0 + 1) == ip0 + 1
            }
            &&& !repeats_at(sc.s, sc.window, next, rep) && holds(sc, here, ip0) ==> {
                &&& found == Found::Table { from: here, at: ip0 }
                &&& sc.look(after, ip0) >= ip0
                &&& sc.look(after, ip0 + 1) == ip0 + 1
            }
            &&& !repeats_at(sc.s, sc.window, next, rep) && !holds(sc, here, ip0) && holds(
                sc,
                there,
                ip0 + 1,
            ) ==> {
                &&& found == Found::Table { from: there, at: ip0 + 1 }
                &&& sc.look(after, ip0) >= ip0
                &&& sc.look(after, ip0 + 1) >= ip0 + 1
                &&& step <= 4 ==> sc.look(after, next) == next
            }
        }),
{
    let rep = p.rep.first;
    let next = ip0 + step;
    if repeats_at(sc.s, sc.window, next, rep) {
        lemma_match_at_least(sc.s, next - rep, next, 4);
    }
    let head1 = sc.put(head, ip0);
    let head2 = sc.put(head1, ip0 + 1);
    assert(table_fine(sc, head, ip0 + 1));
    lemma_put(sc, head, ip0, ip0 + 1);
    assert(table_fine(sc, head1, ip0 + 2));
    lemma_put(sc, head1, ip0 + 1, ip0 + 2);
    lemma_put_looks(sc, head, ip0 + 1);
    lemma_put_looks(sc, head, ip0);
    lemma_put_looks(sc, head1, ip0 + 1);
    lemma_put_looks(sc, head2, next);
    assert(sc.look(head1, ip0 + 1) == sc.look(sc.put(head, ip0), ip0 + 1));
    assert(sc.look(head1, ip0) == ip0);
    assert(sc.look(head2, ip0) == sc.look(sc.put(head1, ip0 + 1), ip0));
    assert(sc.look(head2, ip0 + 1) == ip0 + 1);
    let head3 = sc.put(head2, next);
    assert(sc.look(head3, ip0) == sc.look(sc.put(head2, next), ip0));
    assert(sc.look(head3, ip0 + 1) == sc.look(sc.put(head2, next), ip0 + 1));
}

/// A repeat that was found at `at` is taken one byte earlier where that byte
/// repeats too, and no earlier.
pub proof fn lemma_repeat_taken(sc: Scene, head: Seq<i32>, p: Parse, ip0: int, at: int, cur: int)
    requires
        runnable(sc),
        0 <= ip0 <= cur,
        parse_fine(sc, p, ip0),
        settled(sc.s, sc.window, p),
        cur + 2 <= at,
        at + 1 < sc.s.len() - 8,
        sc.rep_len(at, p.rep.first) >= 4,
        table_fine(sc, head, cur + 2),
    ensures
        ({
            let q = take(sc, head, p, Found::Repeat { at, cur }).1;
            let first = q.steps[p.steps.len() as int];
            let off = p.rep.first;
            &&& q.steps.len() > p.steps.len()
            &&& first.offset == off
            &&& first.start == if at > off && sc.s[at - 1] == sc.s[at - 1 - off] {
                at - 1
            } else {
                at
            }
        }),
{
    let r = p.rep.first;
    let back = repeat_back(sc, at, r);
    let len = back + 4 + match_len(sc.s, at - r + 4, at + 4);
    let found = Found::Repeat { at, cur };
    lemma_take_fine(sc, head, p, ip0, found);
    lemma_match_ends(sc.s, at - r + 4, at + 4);
    lemma_emit_fine(sc, p, at - back, len, r);
    assert(table_fine(sc, head, at - back + len));
    let one = emit(sc.s, p, at - back, len, r);
    lemma_after_match_fine(sc, head, one, at - back + len, cur);
    let q = take(sc, head, p, found).1;
    let m = p.steps.len() as int;
    assert(q.steps[m] == q.steps.take(one.steps.len() as int)[m]);
}

} // verus!
