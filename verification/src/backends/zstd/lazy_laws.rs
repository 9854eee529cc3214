//! What a parse of the `lazy` family promises: it searches to the end of the
//! chunk, takes the longest match that a chain holds, passes over nothing that
//! the newest entry repeats, and records matches that go as far as they can.

use super::laws::{
    chained, kept_right, last_end, lemma_agree_part, lemma_close_place, lemma_close_right,
    lemma_emit_fine, lemma_match_at_least, lemma_match_ends, lemma_newest, lemma_store_chained,
    lemma_store_right, lemma_store_stretched, lemma_suffix_ends, newest, parse_fine, repeats,
    repeats_at, runnable, settled, stretched,
};
use super::lazy::{
    advance, catch_up, chain, enter, fresh_chains, gain, held_repeat, lemma_advance_ahead, longest,
    parse_from, parse_lazy, put_off, refresh, release, sound, sub_or_zero, try_repeat, walk, At,
    Chains, Held,
};
use super::parse::{close, emit, initial_parse, store, Parse};
use super::tables::{ahead, Scene};
use super::words::{agree_run, common_suffix, hash_at, high_bit, lemma_hash_bound, match_len};
use vstd::arithmetic::div_mod::{lemma_fundamental_div_mod, lemma_mod_bound};
use vstd::arithmetic::power2::{lemma_pow2_pos, pow2};
use vstd::prelude::*;

verus! {

/// The offset of a match that is held.
spec fn held_offset(rep: nat, h: Held) -> int {
    if h.base == 1 {
        rep as int
    } else {
        h.base - 3
    }
}

/// Whether a match that is held is as long as its bytes agree.
spec fn held_whole(sc: Scene, rep: nat, ip: int, h: Held) -> bool {
    &&& h.base == 1 || h.base > 3
    &&& ip <= h.start < sc.s.len()
    &&& 1 <= held_offset(rep, h) <= h.start
    &&& h.len >= 4
    &&& h.len == match_len(sc.s, h.start - held_offset(rep, h), h.start)
}

proof fn lemma_enter_sound(sc: Scene, c: Chains)
    requires
        runnable(sc),
        sound(sc, c),
        c.next < sc.s.len(),
    ensures
        sound(sc, enter(sc, c, c.next)),
{
    lemma_hash_bound(sc.s, c.next, sc.mls, sc.hlog);
    lemma_pow2_pos(sc.clog);
    let d = enter(sc, c, c.next);
    assert forall|i: int| 0 <= i < d.head.len() implies #[trigger] d.head[i] < d.next by {
        if i != hash_at(sc.s, c.next, sc.mls, sc.hlog) {
            assert(d.head[i] == c.head[i]);
        }
    }
    assert forall|i: int| 0 <= i < d.prev.len() implies #[trigger] d.prev[i] < d.next by {
        if i != c.next % (pow2(sc.clog) as int) {
            assert(d.prev[i] == c.prev[i]);
        }
    }
}

proof fn lemma_catch_up_sound(sc: Scene, c: Chains, ip: int)
    requires
        runnable(sc),
        sound(sc, c),
        c.next <= ip < sc.s.len(),
    ensures
        sound(sc, catch_up(sc, c, ip)),
        catch_up(sc, c, ip).next == ip,
    decreases ip - c.next,
{
    if c.next < ip {
        lemma_enter_sound(sc, c);
        lemma_catch_up_sound(sc, enter(sc, c, c.next), ip);
    }
}

proof fn lemma_refresh_sound(sc: Scene, c: Chains, ip: int, skipping: bool)
    requires
        runnable(sc),
        sound(sc, c),
        c.next <= ip < sc.s.len(),
    ensures
        sound(sc, refresh(sc, c, ip, skipping)),
        refresh(sc, c, ip, skipping).next == ip,
{
    if skipping {
        if c.next < ip {
            lemma_enter_sound(sc, c);
        }
    } else {
        lemma_catch_up_sound(sc, c, ip);
    }
}

/// A walk never loses what it has, and what it returns is as long as its bytes
/// agree.
proof fn lemma_walk_keeps(
    sc: Scene,
    prev: Seq<i32>,
    ip: int,
    cand: int,
    attempts: nat,
    len: nat,
    off: nat,
)
    requires
        cand < ip,
        len >= 3,
        len >= 4 ==> 1 <= off <= ip && len == match_len(sc.s, ip - off, ip),
    ensures
        ({
            let (l, o) = walk(sc, prev, ip, cand, attempts, len, off);
            &&& l >= len
            &&& l >= 4 ==> 1 <= o <= ip && l == match_len(sc.s, ip - o, ip)
        }),
    decreases attempts,
{
    if cand < sub_or_zero(ip, sc.window as int) || attempts == 0 {
    } else {
        let l = match_len(sc.s, cand, ip);
        let better = agree_run(sc.s, cand + len - 3, ip + len - 3, 4) && l > len;
        let (len1, off1) = if better {
            (l, (ip - cand) as nat)
        } else {
            (len, off)
        };
        let follow = prev[cand % (pow2(sc.clog) as int)] as int;
        if better && ip + l >= sc.s.len() - 1 {
        } else if cand <= sub_or_zero(ip, pow2(sc.clog) as int) || follow >= cand {
        } else {
            lemma_walk_keeps(sc, prev, ip, follow, (attempts - 1) as nat, len1, off1);
        }
    }
}

proof fn lemma_longest_whole(sc: Scene, c: Chains, ip: int, attempts: nat)
    requires
        runnable(sc),
        sound(sc, c),
        c.next <= ip,
    ensures
        ({
            let (l, o) = longest(sc, c, ip, attempts);
            &&& l >= 3
            &&& l >= 4 ==> 1 <= o <= ip && l == match_len(sc.s, ip - o, ip)
        }),
{
    lemma_hash_bound(sc.s, ip, sc.mls, sc.hlog);
    lemma_walk_keeps(sc, c.prev, ip, sc.look(c.head, ip) as int, attempts, 3, 0);
}

proof fn lemma_try_repeat_whole(sc: Scene, rep: nat, ip: int, h: Held, weight: int, from: int)
    requires
        held_whole(sc, rep, from, h),
        from <= ip < sc.s.len(),
    ensures
        held_whole(sc, rep, from, try_repeat(sc, rep, ip, h, weight)),
{
}

#[verifier::rlimit(30)]
proof fn lemma_put_off_whole(
    sc: Scene,
    rep: nat,
    depth: nat,
    attempts: nat,
    skipping: bool,
    c: Chains,
    ip: int,
    h: Held,
)
    requires
        runnable(sc),
        sound(sc, c),
        c.next == ip,
        ip < sc.s.len() - 7,
        held_whole(sc, rep, ip, h),
    ensures
        ({
            let (d, g) = put_off(sc, rep, depth, attempts, skipping, c, ip, h);
            &&& sound(sc, d)
            &&& d.next <= g.start + 2
            &&& held_whole(sc, rep, ip, g)
        }),
    decreases ahead(sc, ip),
{
    if ip >= sc.ilimit() {
    } else {
        let h1 = try_repeat(sc, rep, ip + 1, h, 3);
        let c1 = refresh(sc, c, ip + 1, skipping);
        let (len1, off1) = longest(sc, c1, ip + 1, attempts);
        lemma_try_repeat_whole(sc, rep, ip + 1, h, 3, ip);
        lemma_refresh_sound(sc, c, ip + 1, skipping);
        lemma_longest_whole(sc, c1, ip + 1, attempts);
        if len1 >= 4 && gain(len1, off1 + 3) > gain(h1.len, h1.base) + 4 {
            lemma_put_off_whole(
                sc,
                rep,
                depth,
                attempts,
                skipping,
                c1,
                ip + 1,
                Held { start: ip + 1, len: len1, base: off1 + 3 },
            );
        } else if depth == 2 && ip + 1 < sc.ilimit() {
            let h2 = try_repeat(sc, rep, ip + 2, h1, 4);
            let c2 = refresh(sc, c1, ip + 2, skipping);
            let (len2, off2) = longest(sc, c2, ip + 2, attempts);
            lemma_try_repeat_whole(sc, rep, ip + 2, h1, 4, ip);
            lemma_refresh_sound(sc, c1, ip + 2, skipping);
            lemma_longest_whole(sc, c2, ip + 2, attempts);
            if len2 >= 4 && gain(len2, off2 + 3) > gain(h2.len, h2.base) + 7 {
                lemma_put_off_whole(
                    sc,
                    rep,
                    depth,
                    attempts,
                    skipping,
                    c2,
                    ip + 2,
                    Held { start: ip + 2, len: len2, base: off2 + 3 },
                );
            }
        }
    }
}

proof fn lemma_chain_fine(sc: Scene, p: Parse, ip: int)
    requires
        runnable(sc),
        parse_fine(sc, p, ip),
        last_end(p.steps) == ip,
        p.steps.len() > 0,
    ensures
        ({
            let (q, end) = chain(sc, p, ip);
            &&& parse_fine(sc, q, end)
            &&& settled(sc.s, sc.window, q)
            &&& last_end(q.steps) == end
            &&& q.steps.len() >= p.steps.len()
            &&& end >= ip
            &&& q.steps.take(p.steps.len() as int) == p.steps
            &&& p.block_start >= 0 && sc.s.len() <= 131072 ==> q.block_start >= 0
        }),
    decreases ahead(sc, ip),
{
    let len = sc.rep_len(ip, p.rep.second);
    if ip <= sc.ilimit() && repeats_at(sc.s, sc.window, ip, p.rep.second) {
        lemma_match_at_least(sc.s, ip - p.rep.second, ip, 4);
    }
    if ip > sc.ilimit() || len < 4 {
    } else {
        lemma_match_ends(sc.s, ip - p.rep.second, ip);
        lemma_emit_fine(sc, p, ip, len, p.rep.second);
        let q = emit(sc.s, p, ip, len, p.rep.second);
        lemma_chain_fine(sc, q, ip + len);
        let r = chain(sc, q, ip + len).0;
        assert(r.steps.take(p.steps.len() as int) =~= r.steps.take(q.steps.len() as int).take(
            p.steps.len() as int,
        ));
        assert(q.steps.take(p.steps.len() as int) =~= p.steps);
    }
}

proof fn lemma_release_fine(sc: Scene, p: Parse, h: Held)
    requires
        runnable(sc),
        parse_fine(sc, p, h.start),
        settled(sc.s, sc.window, p),
        held_whole(sc, p.rep.first, h.start, h),
    ensures
        ({
            let q = release(sc, p, h);
            &&& parse_fine(sc, q, h.start + h.len)
            &&& last_end(q.steps) == h.start + h.len
            &&& q.steps.len() == p.steps.len() + 1
            &&& q.steps.last().start <= h.start
            &&& q.steps.last().offset == held_offset(p.rep.first, h)
            &&& p.block_start >= 0 && sc.s.len() <= 131072 ==> q.block_start >= 0
        }),
{
    let off = held_offset(p.rep.first, h);
    lemma_match_ends(sc.s, h.start - off, h.start);
    if h.base > 3 {
        let room = if h.start - p.lit_start < h.start - off {
            h.start - p.lit_start
        } else {
            h.start - off
        };
        let back = common_suffix(sc.s, h.start - off, h.start, room as nat);
        lemma_suffix_ends(sc.s, h.start - off, h.start, room as nat);
        lemma_emit_fine(sc, p, h.start - back, h.len + back, off as nat);
    } else {
        lemma_emit_fine(sc, p, h.start, h.len, p.rep.first);
    }
}

/// What holds between two searches of the whole state: at the end of a match,
/// or one step, as wide as the literal run asks, behind the last search.
pub open spec fn at_fine(sc: Scene, a: At) -> bool {
    &&& sound(sc, a.chains)
    &&& a.chains.next <= a.ip
    &&& parse_fine(sc, a.parse, a.ip)
    &&& settled(sc.s, sc.window, a.parse)
    &&& a.ip == a.parse.lit_start || (a.parse.lit_start <= a.chains.next && a.ip == a.chains.next
        + (a.chains.next - a.parse.lit_start) / 256 + 1)
}

#[verifier::rlimit(40)]
proof fn lemma_advance_fine(sc: Scene, depth: nat, attempts: nat, a: At)
    requires
        runnable(sc),
        at_fine(sc, a),
        a.ip < sc.s.len() - 8,
    ensures
        at_fine(sc, advance(sc, depth, attempts, a)),
        advance(sc, depth, attempts, a).parse.steps == a.parse.steps || last_end(
            advance(sc, depth, attempts, a).parse.steps,
        ) == advance(sc, depth, attempts, a).ip,
{
    let p = close(sc.s, a.parse, a.ip);
    lemma_close_place(sc.s, a.parse, a.ip);
    lemma_close_right(sc.s, a.parse, a.ip);
    let repeat = held_repeat(sc, p, a.ip);
    if depth == 0 && repeat.len >= 4 {
        lemma_match_ends(sc.s, a.ip + 1 - p.rep.first, a.ip + 1);
        lemma_store_right(sc.s, p, a.ip + 1, repeat.len, p.rep.first);
        lemma_store_stretched(sc.s, p, a.ip + 1, repeat.len, p.rep.first);
        lemma_store_chained(sc.s, sc.window, p, a.ip + 1, repeat.len, p.rep.first);
        lemma_chain_fine(
            sc,
            store(sc.s, p, a.ip + 1, repeat.len, p.rep.first),
            a.ip + 1 + repeat.len,
        );
    } else {
        let c = refresh(sc, a.chains, a.ip, a.skipping);
        let (len, off) = longest(sc, c, a.ip, attempts);
        lemma_refresh_sound(sc, a.chains, a.ip, a.skipping);
        lemma_longest_whole(sc, c, a.ip, attempts);
        let h = if len >= 4 && len > repeat.len {
            Held { start: a.ip, len, base: off + 3 }
        } else {
            repeat
        };
        if h.len < 4 {
        } else {
            lemma_put_off_whole(sc, p.rep.first, depth, attempts, a.skipping, c, a.ip, h);
            let h1 = if depth >= 1 {
                put_off(sc, p.rep.first, depth, attempts, a.skipping, c, a.ip, h).1
            } else {
                h
            };
            lemma_release_fine(sc, p, h1);
            lemma_chain_fine(sc, release(sc, p, h1), h1.start + h1.len);
        }
    }
}

proof fn lemma_parse_from_fine(sc: Scene, depth: nat, attempts: nat, a: At)
    requires
        runnable(sc),
        at_fine(sc, a),
    ensures
        ({
            let (c, p) = parse_from(sc, depth, attempts, a);
            &&& stretched(sc.s, p.steps)
            &&& chained(sc.s, sc.window, p.steps)
            &&& settled(sc.s, sc.window, p)
            &&& kept_right(sc.s, p)
            &&& p.lit_start >= sc.s.len() - 8 || (p.lit_start <= c.next && c.next + (c.next
                - p.lit_start) / 256 + 1 >= sc.s.len() - 8)
        }),
    decreases ahead(sc, a.ip),
{
    if a.ip >= sc.ilimit() {
    } else {
        lemma_advance_ahead(sc, depth, attempts, a);
        lemma_advance_fine(sc, depth, attempts, a);
        lemma_parse_from_fine(sc, depth, attempts, advance(sc, depth, attempts, a));
    }
}

proof fn lemma_start_fine(sc: Scene)
    requires
        runnable(sc),
    ensures
        at_fine(
            sc,
            (At { chains: fresh_chains(sc), parse: initial_parse(), ip: 0, skipping: false }),
        ),
{
}

/// A parse of the lazy family searches the chunk to its end: what follows the
/// last match is less than eight bytes, or the next position to be searched
/// would be no more than eight bytes before the end. That position is one
/// behind the last one searched, and one more for every 256 literals before
/// it. Every match starts and ends where it has to, and where literals follow
/// one the second offset repeats nothing.
pub proof fn lemma_lazy_to_the_end(sc: Scene, depth: nat, attempts: nat)
    requires
        runnable(sc),
    ensures
        ({
            let (c, p) = parse_lazy(sc, depth, attempts, initial_parse());
            &&& stretched(sc.s, p.steps)
            &&& chained(sc.s, sc.window, p.steps)
            &&& settled(sc.s, sc.window, p)
            &&& kept_right(sc.s, p)
            &&& p.lit_start >= sc.s.len() - 8 || (p.lit_start <= c.next && c.next + (c.next
                - p.lit_start) / 256 + 1 >= sc.s.len() - 8)
        }),
{
    lemma_start_fine(sc);
    lemma_parse_from_fine(
        sc,
        depth,
        attempts,
        At { chains: fresh_chains(sc), parse: initial_parse(), ip: 0, skipping: false },
    );
}

/// A match is kept exactly where none that begins one byte later, or at depth 2
/// two bytes later, makes up for the delay. A repeat of the newest offset does
/// by three (two bytes later: four) per byte more, and a match from the chains
/// by four per byte more, less the bits that its offset takes more, where that
/// is over 4 (two bytes later: 7).
pub proof fn lemma_kept_if_best(
    sc: Scene,
    rep: nat,
    depth: nat,
    attempts: nat,
    skipping: bool,
    c: Chains,
    ip: int,
    h: Held,
)
    requires
        h.start <= ip || (h.base == 1 && h.start == ip + 1),
        h.len >= 4,
        ip < sc.s.len() - 8,
    ensures
        ({
            let g = put_off(sc, rep, depth, attempts, skipping, c, ip, h).1;
            let c1 = refresh(sc, c, ip + 1, skipping);
            let c2 = refresh(sc, c1, ip + 2, skipping);
            let (len1, off1) = longest(sc, c1, ip + 1, attempts);
            let (len2, off2) = longest(sc, c2, ip + 2, attempts);
            let rep1 = sc.rep_len(ip + 1, rep);
            let rep2 = sc.rep_len(ip + 2, rep);
            let bits = high_bit(h.base) as int;
            g == h <==> {
                &&& rep1 < 4 || 3 * (rep1 - h.len) + bits <= 1
                &&& len1 < 4 || 4 * (len1 - h.len) - (high_bit(off1 + 3) - bits) <= 4
                &&& depth == 2 && ip + 1 < sc.s.len() - 8 ==> {
                    &&& rep2 < 4 || 4 * (rep2 - h.len) + bits <= 1
                    &&& len2 < 4 || 4 * (len2 - h.len) - (high_bit(off2 + 3) - bits) <= 7
                }
            }
        }),
{
    let h1 = try_repeat(sc, rep, ip + 1, h, 3);
    let c1 = refresh(sc, c, ip + 1, skipping);
    let (len1, off1) = longest(sc, c1, ip + 1, attempts);
    let held1 = Held { start: ip + 1, len: len1, base: off1 + 3 };
    let h2 = try_repeat(sc, rep, ip + 2, h1, 4);
    let c2 = refresh(sc, c1, ip + 2, skipping);
    let (len2, off2) = longest(sc, c2, ip + 2, attempts);
    let held2 = Held { start: ip + 2, len: len2, base: off2 + 3 };
    if len1 >= 4 && gain(len1, off1 + 3) > gain(h1.len, h1.base) + 4 {
        lemma_put_off_later(sc, rep, depth, attempts, skipping, c1, ip + 1, held1);
    } else if depth == 2 && ip + 1 < sc.s.len() - 8 {
        if len2 >= 4 && gain(len2, off2 + 3) > gain(h2.len, h2.base) + 7 {
            lemma_put_off_later(sc, rep, depth, attempts, skipping, c2, ip + 2, held2);
        }
    }
}

/// What replaces a match starts later.
proof fn lemma_put_off_later(
    sc: Scene,
    rep: nat,
    depth: nat,
    attempts: nat,
    skipping: bool,
    c: Chains,
    ip: int,
    h: Held,
)
    requires
        h.start == ip,
        h.base > 1,
    ensures
        ({
            let g = put_off(sc, rep, depth, attempts, skipping, c, ip, h).1;
            g.start > ip || (g.start == ip && g.base == h.base)
        }),
    decreases ahead(sc, ip),
{
    if ip < sc.ilimit() {
        let h1 = try_repeat(sc, rep, ip + 1, h, 3);
        let c1 = refresh(sc, c, ip + 1, skipping);
        let (len1, off1) = longest(sc, c1, ip + 1, attempts);
        if len1 >= 4 && gain(len1, off1 + 3) > gain(h1.len, h1.base) + 4 {
            lemma_put_off_later(
                sc,
                rep,
                depth,
                attempts,
                skipping,
                c1,
                ip + 1,
                Held { start: ip + 1, len: len1, base: off1 + 3 },
            );
        } else if depth == 2 && ip + 1 < sc.ilimit() {
            let h2 = try_repeat(sc, rep, ip + 2, h1, 4);
            let c2 = refresh(sc, c1, ip + 2, skipping);
            let (len2, off2) = longest(sc, c2, ip + 2, attempts);
            if len2 >= 4 && gain(len2, off2 + 3) > gain(h2.len, h2.base) + 7 {
                lemma_put_off_later(
                    sc,
                    rep,
                    depth,
                    attempts,
                    skipping,
                    c2,
                    ip + 2,
                    Held { start: ip + 2, len: len2, base: off2 + 3 },
                );
            }
        }
    }
}

/// The candidate that comes `j` steps behind `cand` in its chain.
pub open spec fn follower(sc: Scene, prev: Seq<i32>, cand: int, j: nat) -> int
    decreases j,
{
    if j == 0 {
        cand
    } else {
        follower(sc, prev, prev[cand % (pow2(sc.clog) as int)] as int, (j - 1) as nat)
    }
}

/// Whether the candidate `j` steps behind `cand` can be reached from `ip`: all
/// up to it are within the window, all before it within the ring, and each is
/// older than the one before.
pub open spec fn reachable(sc: Scene, prev: Seq<i32>, ip: int, cand: int, j: nat) -> bool
    decreases j,
{
    let follow = prev[cand % (pow2(sc.clog) as int)] as int;
    &&& 0 <= cand
    &&& ip - cand <= sc.window
    &&& j > 0 ==> {
        &&& 0 < cand
        &&& ip - cand < pow2(sc.clog)
        &&& follow < cand
        &&& reachable(sc, prev, ip, follow, (j - 1) as nat)
    }
}

proof fn lemma_walk_grows(
    sc: Scene,
    prev: Seq<i32>,
    ip: int,
    cand: int,
    attempts: nat,
    len: nat,
    off: nat,
)
    ensures
        walk(sc, prev, ip, cand, attempts, len, off).0 >= len,
        walk(sc, prev, ip, cand, attempts, len, off).0 == len ==> walk(
            sc,
            prev,
            ip,
            cand,
            attempts,
            len,
            off,
        ).1 == off,
    decreases attempts,
{
    if cand < sub_or_zero(ip, sc.window as int) || attempts == 0 {
    } else {
        let l = match_len(sc.s, cand, ip);
        let better = agree_run(sc.s, cand + len - 3, ip + len - 3, 4) && l > len;
        let (len1, off1) = if better {
            (l, (ip - cand) as nat)
        } else {
            (len, off)
        };
        let follow = prev[cand % (pow2(sc.clog) as int)] as int;
        lemma_walk_grows(sc, prev, ip, follow, (attempts - 1) as nat, len1, off1);
    }
}

proof fn lemma_walk_longest(
    sc: Scene,
    prev: Seq<i32>,
    ip: int,
    cand: int,
    attempts: nat,
    len: nat,
    off: nat,
    j: nat,
)
    requires
        ip < sc.s.len(),
        cand < ip,
        len >= 3,
        j < attempts,
        reachable(sc, prev, ip, cand, j),
    ensures
        walk(sc, prev, ip, cand, attempts, len, off).0 >= match_len(
            sc.s,
            follower(sc, prev, cand, j),
            ip,
        ),
        ({
            let (l, o) = walk(sc, prev, ip, cand, attempts, len, off);
            let f = follower(sc, prev, cand, j);
            l > len && match_len(sc.s, f, ip) == l ==> o <= ip - f
        }),
        follower(sc, prev, cand, j) <= cand,
    decreases attempts,
{
    let l = match_len(sc.s, cand, ip);
    lemma_match_ends(sc.s, cand, ip);
    lemma_match_ends(sc.s, follower(sc, prev, cand, j), ip);
    if l > len {
        lemma_agree_part(sc.s, cand, ip, l as int, len - 3, 4);
    }
    let better = agree_run(sc.s, cand + len - 3, ip + len - 3, 4) && l > len;
    let (len1, off1) = if better {
        (l, (ip - cand) as nat)
    } else {
        (len, off)
    };
    let follow = prev[cand % (pow2(sc.clog) as int)] as int;
    lemma_walk_grows(sc, prev, ip, follow, (attempts - 1) as nat, len1, off1);
    if j > 0 {
        lemma_walk_longest(
            sc,
            prev,
            ip,
            follow,
            (attempts - 1) as nat,
            len1,
            off1,
            (j - 1) as nat,
        );
    }
}

/// A search returns the longest of the matches that it may look at: no
/// candidate that is reachable within the attempts agrees for longer, and none
/// that agrees for as long is nearer. What it returns is a match that long, at
/// its offset, unless it is 3 and stands for none.
pub proof fn lemma_longest_in_chain(sc: Scene, c: Chains, ip: int, attempts: nat)
    requires
        runnable(sc),
        sound(sc, c),
        c.next <= ip < sc.s.len(),
    ensures
        ({
            let (len, off) = longest(sc, c, ip, attempts);
            let newest_one = c.head[hash_at(sc.s, ip, sc.mls, sc.hlog) as int] as int;
            &&& forall|j: nat|
                j < attempts && reachable(sc, c.prev, ip, newest_one, j) ==> len >= match_len(
                    sc.s,
                    #[trigger] follower(sc, c.prev, newest_one, j),
                    ip,
                )
            &&& forall|j: nat|
                j < attempts && reachable(sc, c.prev, ip, newest_one, j) && len >= 4 && match_len(
                    sc.s,
                    #[trigger] follower(sc, c.prev, newest_one, j),
                    ip,
                ) == len ==> off <= ip - follower(sc, c.prev, newest_one, j)
            &&& len == 3 || (1 <= off <= ip && len >= 4 && len == match_len(sc.s, ip - off, ip))
        }),
{
    let newest_one = c.head[hash_at(sc.s, ip, sc.mls, sc.hlog) as int] as int;
    lemma_longest_whole(sc, c, ip, attempts);
    lemma_hash_bound(sc.s, ip, sc.mls, sc.hlog);
    assert forall|j: nat|
        j < attempts && reachable(sc, c.prev, ip, newest_one, j) && longest(sc, c, ip, attempts).0
            >= 4 && match_len(
            sc.s,
            #[trigger] follower(sc, c.prev, newest_one, j),
            ip,
        ) == longest(sc, c, ip, attempts).0 implies longest(sc, c, ip, attempts).1 <= ip
        - follower(sc, c.prev, newest_one, j) by {
        lemma_walk_longest(sc, c.prev, ip, newest_one, attempts, 3, 0, j);
    }
    assert forall|j: nat|
        j < attempts && reachable(sc, c.prev, ip, newest_one, j) implies longest(
        sc,
        c,
        ip,
        attempts,
    ).0 >= match_len(sc.s, #[trigger] follower(sc, c.prev, newest_one, j), ip) by {
        lemma_walk_longest(sc, c.prev, ip, newest_one, attempts, 3, 0, j);
    }
}

/// Whether the heads of the chains are the newest positions before `next`.
pub open spec fn heads_newest(sc: Scene, c: Chains) -> bool {
    forall|h: int|
        0 <= h < pow2(sc.hlog) ==> #[trigger] c.head[h] == newest(
            sc.s,
            sc.mls,
            sc.hlog,
            h as nat,
            c.next,
        )
}

proof fn lemma_enter_newest(sc: Scene, c: Chains)
    requires
        runnable(sc),
        sound(sc, c),
        heads_newest(sc, c),
        c.next < sc.s.len(),
    ensures
        heads_newest(sc, enter(sc, c, c.next)),
{
    lemma_hash_bound(sc.s, c.next, sc.mls, sc.hlog);
    let d = enter(sc, c, c.next);
    assert forall|h: int| 0 <= h < pow2(sc.hlog) implies #[trigger] d.head[h] == newest(
        sc.s,
        sc.mls,
        sc.hlog,
        h as nat,
        d.next,
    ) by {
        if h != hash_at(sc.s, c.next, sc.mls, sc.hlog) {
            assert(d.head[h] == c.head[h]);
        }
    }
}

proof fn lemma_catch_up_newest(sc: Scene, c: Chains, ip: int)
    requires
        runnable(sc),
        sound(sc, c),
        heads_newest(sc, c),
        c.next <= ip < sc.s.len(),
    ensures
        heads_newest(sc, catch_up(sc, c, ip)),
    decreases ip - c.next,
{
    if c.next < ip {
        lemma_enter_sound(sc, c);
        lemma_enter_newest(sc, c);
        lemma_catch_up_newest(sc, enter(sc, c, c.next), ip);
    }
}

/// Whether every position that the ring still holds is linked to the newest
/// one before it with its hash.
pub open spec fn linked(sc: Scene, c: Chains) -> bool {
    forall|i: int|
        0 <= i < c.next && c.next - i <= pow2(sc.clog) ==> c.prev[i % (pow2(sc.clog) as int)]
            == #[trigger] newest(sc.s, sc.mls, sc.hlog, hash_at(sc.s, i, sc.mls, sc.hlog), i)
}

proof fn lemma_slots_differ(i: int, k: int, m: int)
    requires
        0 <= i < k < i + m,
    ensures
        i % m != k % m,
{
    lemma_fundamental_div_mod(i, m);
    lemma_fundamental_div_mod(k, m);
    if i % m == k % m {
        let d = k / m - i / m;
        assert(k - i == m * d) by (nonlinear_arith)
            requires
                i == m * (i / m) + i % m,
                k == m * (k / m) + k % m,
                i % m == k % m,
                d == k / m - i / m,
        ;
        assert(false) by (nonlinear_arith)
            requires
                k - i == m * d,
                0 < k - i < m,
        ;
    }
}

proof fn lemma_enter_linked(sc: Scene, c: Chains)
    requires
        runnable(sc),
        sound(sc, c),
        heads_newest(sc, c),
        linked(sc, c),
        c.next < sc.s.len(),
    ensures
        linked(sc, enter(sc, c, c.next)),
{
    lemma_hash_bound(sc.s, c.next, sc.mls, sc.hlog);
    lemma_pow2_pos(sc.clog);
    let m = pow2(sc.clog) as int;
    let d = enter(sc, c, c.next);
    assert forall|i: int| 0 <= i < d.next && d.next - i <= pow2(sc.clog) implies d.prev[i % m]
        == #[trigger] newest(sc.s, sc.mls, sc.hlog, hash_at(sc.s, i, sc.mls, sc.hlog), i) by {
        lemma_mod_bound(i, m);
        lemma_mod_bound(c.next, m);
        if i < c.next {
            lemma_slots_differ(i, c.next, m);
        } else {
            assert(d.prev[i % m] == sc.look(c.head, c.next));
        }
    }
}

proof fn lemma_catch_up_linked(sc: Scene, c: Chains, ip: int)
    requires
        runnable(sc),
        sound(sc, c),
        heads_newest(sc, c),
        linked(sc, c),
        c.next <= ip < sc.s.len(),
    ensures
        linked(sc, catch_up(sc, c, ip)),
    decreases ip - c.next,
{
    if c.next < ip {
        lemma_enter_sound(sc, c);
        lemma_enter_newest(sc, c);
        lemma_enter_linked(sc, c);
        lemma_catch_up_linked(sc, enter(sc, c, c.next), ip);
    }
}

/// Unless it skips, a search has every position before it in the chains: each
/// chain starts at the newest one with its hash, and leads from each to the
/// newest one before it, as far back as the ring goes.
pub proof fn lemma_chains_up_to_date(sc: Scene, c: Chains, ip: int)
    requires
        runnable(sc),
        sound(sc, c),
        heads_newest(sc, c),
        linked(sc, c),
        c.next <= ip < sc.s.len(),
    ensures
        ({
            let d = refresh(sc, c, ip, false);
            &&& sound(sc, d)
            &&& d.next == ip
            &&& heads_newest(sc, d)
            &&& linked(sc, d)
        }),
{
    lemma_catch_up_sound(sc, c, ip);
    lemma_catch_up_newest(sc, c, ip);
    lemma_catch_up_linked(sc, c, ip);
}

/// A search that skips enters no more than the position that was searched
/// last, and loses nothing that the chains held.
pub proof fn lemma_skipping_enters_one(sc: Scene, c: Chains, ip: int)
    requires
        runnable(sc),
        sound(sc, c),
        c.next < ip < sc.s.len(),
    ensures
        ({
            let d = refresh(sc, c, ip, true);
            let h = hash_at(sc.s, c.next, sc.mls, sc.hlog) as int;
            &&& d.next == ip
            &&& d.head == c.head.update(h, c.next as i32)
            &&& d.prev == c.prev.update(c.next % (pow2(sc.clog) as int), c.head[h])
        }),
{
}

proof fn lemma_put_off_newest(
    sc: Scene,
    rep: nat,
    depth: nat,
    attempts: nat,
    c: Chains,
    ip: int,
    h: Held,
)
    requires
        runnable(sc),
        sound(sc, c),
        heads_newest(sc, c),
        linked(sc, c),
        c.next == ip,
        ip < sc.s.len() - 7,
    ensures
        heads_newest(sc, put_off(sc, rep, depth, attempts, false, c, ip, h).0),
        linked(sc, put_off(sc, rep, depth, attempts, false, c, ip, h).0),
    decreases ahead(sc, ip),
{
    if ip >= sc.ilimit() {
    } else {
        let h1 = try_repeat(sc, rep, ip + 1, h, 3);
        let c1 = refresh(sc, c, ip + 1, false);
        let (len1, off1) = longest(sc, c1, ip + 1, attempts);
        lemma_catch_up_sound(sc, c, ip + 1);
        lemma_catch_up_newest(sc, c, ip + 1);
        lemma_catch_up_linked(sc, c, ip + 1);
        if len1 >= 4 && gain(len1, off1 + 3) > gain(h1.len, h1.base) + 4 {
            lemma_put_off_newest(
                sc,
                rep,
                depth,
                attempts,
                c1,
                ip + 1,
                Held { start: ip + 1, len: len1, base: off1 + 3 },
            );
        } else if depth == 2 && ip + 1 < sc.ilimit() {
            let h2 = try_repeat(sc, rep, ip + 2, h1, 4);
            let c2 = refresh(sc, c1, ip + 2, false);
            let (len2, off2) = longest(sc, c2, ip + 2, attempts);
            lemma_catch_up_sound(sc, c1, ip + 2);
            lemma_catch_up_newest(sc, c1, ip + 2);
            lemma_catch_up_linked(sc, c1, ip + 2);
            if len2 >= 4 && gain(len2, off2 + 3) > gain(h2.len, h2.base) + 7 {
                lemma_put_off_newest(
                    sc,
                    rep,
                    depth,
                    attempts,
                    c2,
                    ip + 2,
                    Held { start: ip + 2, len: len2, base: off2 + 3 },
                );
            }
        }
    }
}

/// The position that comes `j` steps behind `c` on the way back through those
/// with its hash.
pub open spec fn older(sc: Scene, c: int, j: nat) -> int
    decreases j,
{
    if j == 0 {
        c
    } else {
        older(
            sc,
            newest(sc.s, sc.mls, sc.hlog, hash_at(sc.s, c, sc.mls, sc.hlog), c),
            (j - 1) as nat,
        )
    }
}

/// Whether the way back from `c` through the positions with its hash goes on
/// for `j` steps that `q` may take: all within the window, and all but the last
/// within the ring.
pub open spec fn in_reach(sc: Scene, q: int, c: int, j: nat) -> bool
    decreases j,
{
    &&& 0 <= c
    &&& q - c <= sc.window
    &&& j > 0 ==> {
        &&& 0 < c
        &&& q - c < pow2(sc.clog)
        &&& in_reach(
            sc,
            q,
            newest(sc.s, sc.mls, sc.hlog, hash_at(sc.s, c, sc.mls, sc.hlog), c),
            (j - 1) as nat,
        )
    }
}

/// Whether nothing was to be had at `q`: none of the `attempts` newest positions
/// with its hash, as far as they are in reach, holds its four bytes, nor do the
/// four bytes behind it repeat at the newest offset.
#[verifier::opaque]
pub open spec fn nothing_at(sc: Scene, attempts: nat, rep: nat, q: int) -> bool {
    let c = newest(sc.s, sc.mls, sc.hlog, hash_at(sc.s, q, sc.mls, sc.hlog), q);
    &&& !repeats_at(sc.s, sc.window, q + 1, rep)
    &&& forall|j: nat|
        j < attempts && in_reach(sc, q, c, j) ==> !agree_run(
            sc.s,
            #[trigger] older(sc, c, j),
            q,
            4,
        )
}

/// The chains lead through the positions with one hash, from newer to older.
proof fn lemma_chain_is_older(sc: Scene, c: Chains, q: int, cand: int, j: nat)
    requires
        linked(sc, c),
        c.next == q,
        cand < q,
        in_reach(sc, q, cand, j),
    ensures
        reachable(sc, c.prev, q, cand, j),
        follower(sc, c.prev, cand, j) == older(sc, cand, j),
    decreases j,
{
    if j > 0 {
        let h = hash_at(sc.s, cand, sc.mls, sc.hlog);
        let next = newest(sc.s, sc.mls, sc.hlog, h, cand);
        lemma_newest(sc.s, sc.mls, sc.hlog, h, cand);
        assert(c.prev[cand % (pow2(sc.clog) as int)] == next);
        lemma_chain_is_older(sc, c, q, next, (j - 1) as nat);
    }
}

/// How far from the last match the search of number `k` is: one more byte per
/// search, and one more for every 256 bytes.
pub open spec fn rung(k: nat) -> nat
    decreases k,
{
    if k == 0 {
        0
    } else {
        rung((k - 1) as nat) + rung((k - 1) as nat) / 256 + 1
    }
}

proof fn lemma_rung_order(j: nat, k: nat)
    requires
        k <= j,
    ensures
        rung(k) <= rung(j),
    decreases j,
{
    if k < j {
        lemma_rung_order((j - 1) as nat, k);
    }
}

proof fn lemma_rung_dense(k: nat)
    requires
        k <= 256,
    ensures
        rung(k) == k,
    decreases k,
{
    if k > 0 {
        lemma_rung_dense((k - 1) as nat);
    }
}

/// A search with all chains up to date leads to a match that ends where the
/// parse goes on, or there was nothing to be had; then it goes on one byte
/// later, and one more for every 256 literals. It starts to skip when that is
/// more than eight bytes, and not otherwise.
#[verifier::rlimit(40)]
pub proof fn lemma_search_takes(sc: Scene, depth: nat, attempts: nat, a: At)
    requires
        runnable(sc),
        attempts >= 1,
        at_fine(sc, a),
        heads_newest(sc, a.chains),
        linked(sc, a.chains),
        !a.skipping,
        a.parse.block_start >= 0,
        a.ip < sc.s.len() - 8,
    ensures
        ({
            let b = advance(sc, depth, attempts, a);
            &&& heads_newest(sc, b.chains)
            &&& linked(sc, b.chains)
            &&& sc.s.len() <= 131072 ==> b.parse.block_start >= 0
            &&& {
                ||| {
                    &&& b.parse.steps.len() > a.parse.steps.len()
                    &&& last_end(b.parse.steps) == b.ip
                    &&& b.parse.lit_start == b.ip
                    &&& !b.skipping
                }
                ||| {
                    &&& nothing_at(sc, attempts, a.parse.rep.first, a.ip)
                    &&& b.parse.steps == a.parse.steps
                    &&& b.parse.rep == a.parse.rep
                    &&& b.ip == a.ip + (a.ip - b.parse.lit_start) / 256 + 1
                    &&& b.skipping <==> b.ip > a.ip + 8
                    &&& sc.s.len() <= 131072 ==> b.parse == a.parse
                }
            }
        }),
{
    reveal(nothing_at);
    let p = close(sc.s, a.parse, a.ip);
    lemma_close_place(sc.s, a.parse, a.ip);
    lemma_close_right(sc.s, a.parse, a.ip);
    lemma_advance_fine(sc, depth, attempts, a);
    let repeat = held_repeat(sc, p, a.ip);
    if repeats_at(sc.s, sc.window, a.ip + 1, p.rep.first) {
        lemma_match_at_least(sc.s, a.ip + 1 - p.rep.first, a.ip + 1, 4);
    }
    if depth == 0 && repeat.len >= 4 {
        let q = store(sc.s, p, a.ip + 1, repeat.len, p.rep.first);
        lemma_match_ends(sc.s, a.ip + 1 - p.rep.first, a.ip + 1);
        lemma_store_right(sc.s, p, a.ip + 1, repeat.len, p.rep.first);
        lemma_store_stretched(sc.s, p, a.ip + 1, repeat.len, p.rep.first);
        lemma_store_chained(sc.s, sc.window, p, a.ip + 1, repeat.len, p.rep.first);
        lemma_chain_fine(sc, q, a.ip + 1 + repeat.len);
    } else {
        let c = refresh(sc, a.chains, a.ip, a.skipping);
        let (len, off) = longest(sc, c, a.ip, attempts);
        lemma_refresh_sound(sc, a.chains, a.ip, a.skipping);
        lemma_catch_up_newest(sc, a.chains, a.ip);
        lemma_catch_up_linked(sc, a.chains, a.ip);
        lemma_longest_whole(sc, c, a.ip, attempts);
        lemma_hash_bound(sc.s, a.ip, sc.mls, sc.hlog);
        let cand = newest(sc.s, sc.mls, sc.hlog, hash_at(sc.s, a.ip, sc.mls, sc.hlog), a.ip);
        assert(sc.look(c.head, a.ip) == cand);
        lemma_newest(
            sc.s,
            sc.mls,
            sc.hlog,
            hash_at(sc.s, a.ip, sc.mls, sc.hlog),
            a.ip,
        );
        assert forall|j: nat|
            j < attempts && in_reach(sc, a.ip, cand, j) && agree_run(
                sc.s,
                #[trigger] older(sc, cand, j),
                a.ip,
                4,
            ) implies len >= 4 by {
            lemma_chain_is_older(sc, c, a.ip, cand, j);
            lemma_match_at_least(sc.s, older(sc, cand, j), a.ip, 4);
            lemma_walk_longest(sc, c.prev, a.ip, cand, attempts, 3, 0, j);
        }
        let h = if len >= 4 && len > repeat.len {
            Held { start: a.ip, len, base: off + 3 }
        } else {
            repeat
        };
        if h.len < 4 {
        } else {
            lemma_put_off_whole(sc, p.rep.first, depth, attempts, a.skipping, c, a.ip, h);
            lemma_put_off_newest(sc, p.rep.first, depth, attempts, c, a.ip, h);
            let h1 = if depth >= 1 {
                put_off(sc, p.rep.first, depth, attempts, a.skipping, c, a.ip, h).1
            } else {
                h
            };
            lemma_release_fine(sc, p, h1);
            lemma_chain_fine(sc, release(sc, p, h1), h1.start + h1.len);
        }
    }
}

/// A greedy search takes a match at once: a repeat of the newest offset behind
/// its position, or else one that covers at least what the newest position
/// with its hash repeats there.
#[verifier::rlimit(40)]
pub proof fn lemma_greedy_takes_at_once(sc: Scene, attempts: nat, a: At)
    requires
        runnable(sc),
        attempts >= 1,
        at_fine(sc, a),
        heads_newest(sc, a.chains),
        !a.skipping,
        a.ip < sc.s.len() - 8,
    ensures
        ({
            let b = advance(sc, 0, attempts, a);
            let first = b.parse.steps[a.parse.steps.len() as int];
            let cand = newest(sc.s, sc.mls, sc.hlog, hash_at(sc.s, a.ip, sc.mls, sc.hlog), a.ip);
            let rep = a.parse.rep.first;
            &&& repeats_at(sc.s, sc.window, a.ip + 1, rep) ==> {
                &&& b.parse.steps.len() > a.parse.steps.len()
                &&& first.start == a.ip + 1
                &&& first.offset == rep
            }
            &&& repeats(sc.s, sc.mls, sc.hlog, sc.window, a.ip) && !repeats_at(
                sc.s,
                sc.window,
                a.ip + 1,
                rep,
            ) ==> {
                &&& b.parse.steps.len() > a.parse.steps.len()
                &&& first.start <= a.ip
                &&& first.start + first.match_len >= a.ip + match_len(sc.s, cand, a.ip)
            }
        }),
{
    let p = close(sc.s, a.parse, a.ip);
    lemma_close_place(sc.s, a.parse, a.ip);
    lemma_close_right(sc.s, a.parse, a.ip);
    let repeat = held_repeat(sc, p, a.ip);
    let m = p.steps.len() as int;
    if repeats_at(sc.s, sc.window, a.ip + 1, p.rep.first) {
        lemma_match_at_least(sc.s, a.ip + 1 - p.rep.first, a.ip + 1, 4);
        let q = store(sc.s, p, a.ip + 1, repeat.len, p.rep.first);
        lemma_match_ends(sc.s, a.ip + 1 - p.rep.first, a.ip + 1);
        lemma_store_right(sc.s, p, a.ip + 1, repeat.len, p.rep.first);
        lemma_store_stretched(sc.s, p, a.ip + 1, repeat.len, p.rep.first);
        lemma_store_chained(sc.s, sc.window, p, a.ip + 1, repeat.len, p.rep.first);
        lemma_chain_fine(sc, q, a.ip + 1 + repeat.len);
        let r = chain(sc, q, a.ip + 1 + repeat.len).0;
        assert(r.steps[m] == r.steps.take(m + 1)[m]);
    } else if repeats(sc.s, sc.mls, sc.hlog, sc.window, a.ip) {
        let c = refresh(sc, a.chains, a.ip, a.skipping);
        let (len, off) = longest(sc, c, a.ip, attempts);
        lemma_refresh_sound(sc, a.chains, a.ip, a.skipping);
        lemma_catch_up_newest(sc, a.chains, a.ip);
        lemma_longest_whole(sc, c, a.ip, attempts);
        lemma_hash_bound(sc.s, a.ip, sc.mls, sc.hlog);
        let cand = newest(sc.s, sc.mls, sc.hlog, hash_at(sc.s, a.ip, sc.mls, sc.hlog), a.ip);
        assert(sc.look(c.head, a.ip) == cand);
        lemma_match_at_least(sc.s, cand, a.ip, 4);
        assert(reachable(sc, c.prev, a.ip, cand, 0));
        assert(follower(sc, c.prev, cand, 0) == cand);
        lemma_walk_longest(sc, c.prev, a.ip, cand, attempts, 3, 0, 0);
        let h = Held { start: a.ip, len, base: off + 3 };
        lemma_release_fine(sc, p, h);
        let q = release(sc, p, h);
        lemma_chain_fine(sc, q, h.start + h.len);
        let r = chain(sc, q, h.start + h.len).0;
        assert(r.steps[m] == r.steps.take(m + 1)[m]);
    }
}

/// A lazy search starts from the longer of two matches, the repeat of the
/// newest offset one byte later and what the chains hold, and of two equal ones
/// from the repeat; where nothing later is better, it records that one.
#[verifier::rlimit(40)]
pub proof fn lemma_lazy_takes_longer(sc: Scene, depth: nat, attempts: nat, a: At)
    requires
        runnable(sc),
        depth >= 1,
        at_fine(sc, a),
        a.ip < sc.s.len() - 8,
    ensures
        ({
            let b = advance(sc, depth, attempts, a);
            let first = b.parse.steps[a.parse.steps.len() as int];
            let rep = a.parse.rep.first;
            let c = refresh(sc, a.chains, a.ip, a.skipping);
            let (len, off) = longest(sc, c, a.ip, attempts);
            let rep_len = sc.rep_len(a.ip + 1, rep);
            let chained_one = Held { start: a.ip, len, base: off + 3 };
            let repeat = Held { start: a.ip + 1, len: rep_len, base: 1 };
            let kept = |h: Held|
                put_off(sc, rep, depth, attempts, a.skipping, c, a.ip, h).1 == h;
            &&& len >= 4 && (len > rep_len || rep_len < 4) && kept(chained_one) ==> {
                &&& b.parse.steps.len() > a.parse.steps.len()
                &&& first.start <= a.ip
                &&& first.start + first.match_len == a.ip + len
                &&& first.offset == off
            }
            &&& rep_len >= 4 && rep_len >= len && kept(repeat) ==> {
                &&& b.parse.steps.len() > a.parse.steps.len()
                &&& first.start == a.ip + 1
                &&& first.match_len == rep_len
                &&& first.offset == rep
            }
        }),
{
    let p = close(sc.s, a.parse, a.ip);
    lemma_close_place(sc.s, a.parse, a.ip);
    lemma_close_right(sc.s, a.parse, a.ip);
    let rep = a.parse.rep.first;
    let rep_len = sc.rep_len(a.ip + 1, rep);
    let c = refresh(sc, a.chains, a.ip, a.skipping);
    let (len, off) = longest(sc, c, a.ip, attempts);
    let m = p.steps.len() as int;
    lemma_refresh_sound(sc, a.chains, a.ip, a.skipping);
    lemma_longest_whole(sc, c, a.ip, attempts);
    let chained_one = Held { start: a.ip, len, base: off + 3 };
    let repeat = Held { start: a.ip + 1, len: rep_len, base: 1 };
    let h = if len >= 4 && (len > rep_len || rep_len < 4) {
        chained_one
    } else {
        repeat
    };
    if h.len >= 4 && put_off(sc, rep, depth, attempts, a.skipping, c, a.ip, h).1 == h {
        lemma_release_fine(sc, p, h);
        let q = release(sc, p, h);
        lemma_chain_fine(sc, q, h.start + h.len);
        let r = chain(sc, q, h.start + h.len).0;
        assert(r.steps[m] == r.steps.take(m + 1)[m]);
    }
}

/// What holds between the searches of a chunk that is never skipped through,
/// with `k` of them since the last match: the chains are up to date, and
/// nothing was to be had where it searched.
#[verifier::opaque]
spec fn searching(sc: Scene, attempts: nat, a: At, k: nat) -> bool {
    &&& at_fine(sc, a)
    &&& heads_newest(sc, a.chains)
    &&& linked(sc, a.chains)
    &&& !a.skipping
    &&& a.parse.block_start >= 0
    &&& 0 <= a.parse.lit_start == last_end(a.parse.steps)
    &&& a.ip == a.parse.lit_start + rung(k)
    &&& forall|j: nat|
        j < k ==> nothing_at(
            sc,
            attempts,
            a.parse.rep.first,
            a.parse.lit_start + #[trigger] rung(j),
        )
}

/// One more search; returns how many there were since the last match.
proof fn lemma_search_goes_on(sc: Scene, depth: nat, attempts: nat, a: At, k: nat) -> (more: nat)
    requires
        runnable(sc),
        sc.s.len() <= 2056,
        attempts >= 1,
        searching(sc, attempts, a, k),
        a.ip < sc.s.len() - 8,
    ensures
        searching(sc, attempts, advance(sc, depth, attempts, a), more),
{
    reveal(searching);
    let b = advance(sc, depth, attempts, a);
    lemma_advance_ahead(sc, depth, attempts, a);
    lemma_advance_fine(sc, depth, attempts, a);
    lemma_search_takes(sc, depth, attempts, a);
    if last_end(b.parse.steps) == b.ip && b.parse.lit_start == b.ip {
        0
    } else {
        assert(rung(k + 1) == rung(k) + rung(k) / 256 + 1);
        assert forall|j: nat| j < k + 1 implies nothing_at(
            sc,
            attempts,
            b.parse.rep.first,
            b.parse.lit_start + #[trigger] rung(j),
        ) by {
            if j == k {
            }
        }
        k + 1
    }
}

proof fn lemma_search_ends(sc: Scene, attempts: nat, a: At, k: nat)
    requires
        searching(sc, attempts, a, k),
        a.ip >= sc.s.len() - 8,
    ensures
        forall|j: nat|
            last_end(a.parse.steps) + #[trigger] rung(j) < sc.s.len() - 8 ==> nothing_at(
                sc,
                attempts,
                a.parse.rep.first,
                last_end(a.parse.steps) + rung(j),
            ),
{
    reveal(searching);
    assert forall|j: nat|
        last_end(a.parse.steps) + #[trigger] rung(j) < sc.s.len() - 8 implies nothing_at(
        sc,
        attempts,
        a.parse.rep.first,
        last_end(a.parse.steps) + rung(j),
    ) by {
        if k <= j {
            lemma_rung_order(j, k);
        }
    }
}

proof fn lemma_parse_from_misses(sc: Scene, depth: nat, attempts: nat, a: At, k: nat)
    requires
        runnable(sc),
        sc.s.len() <= 2056,
        attempts >= 1,
        searching(sc, attempts, a, k),
    ensures
        ({
            let p = parse_from(sc, depth, attempts, a).1;
            forall|j: nat|
                last_end(p.steps) + #[trigger] rung(j) < sc.s.len() - 8 ==> nothing_at(
                    sc,
                    attempts,
                    p.rep.first,
                    last_end(p.steps) + rung(j),
                )
        }),
    decreases ahead(sc, a.ip),
{
    if a.ip >= sc.ilimit() {
        lemma_search_ends(sc, attempts, a, k);
    } else {
        let more = lemma_search_goes_on(sc, depth, attempts, a, k);
        lemma_advance_ahead(sc, depth, attempts, a);
        lemma_parse_from_misses(sc, depth, attempts, advance(sc, depth, attempts, a), more);
    }
}

/// A parse of the lazy family passes over nothing. Behind the last match of a
/// chunk that is short enough not to be skipped through, no position that is
/// searched repeats one of the newest positions with its hash, as many as there
/// are attempts, and none is followed by a repeat at the newest offset. Those positions are all of the first 256,
/// then every other one, and so on to eight bytes before the end.
pub proof fn lemma_lazy_misses_nothing(sc: Scene, depth: nat, attempts: nat)
    requires
        runnable(sc),
        sc.s.len() <= 2056,
        attempts >= 1,
    ensures
        ({
            let p = parse_lazy(sc, depth, attempts, initial_parse()).1;
            let from = last_end(p.steps);
            &&& forall|q: int|
                from <= q < from + 256 && q < sc.s.len() - 8 ==> #[trigger] nothing_at(
                    sc,
                    attempts,
                    p.rep.first,
                    q,
                )
            &&& forall|j: nat|
                from + #[trigger] rung(j) < sc.s.len() - 8 ==> nothing_at(
                    sc,
                    attempts,
                    p.rep.first,
                    from + rung(j),
                )
        }),
{
    let a = At { chains: fresh_chains(sc), parse: initial_parse(), ip: 0, skipping: false };
    lemma_start_fine(sc);
    assert(searching(sc, attempts, a, 0)) by {
        reveal(searching);
    }
    lemma_parse_from_misses(sc, depth, attempts, a, 0);
    let p = parse_lazy(sc, depth, attempts, initial_parse()).1;
    let from = last_end(p.steps);
    assert forall|q: int|
        from <= q < from + 256 && q < sc.s.len() - 8 implies #[trigger] nothing_at(
        sc,
        attempts,
        p.rep.first,
        q,
    ) by {
        lemma_rung_dense((q - from) as nat);
        assert(from + rung((q - from) as nat) == q);
    }
}

/// Skipping ends with the next match: a search that leads to one leaves every
/// position from there on to be entered, but for a greedy repeat of the newest
/// offset, which does not look at the chains.
pub proof fn lemma_skipping_ends(sc: Scene, depth: nat, attempts: nat, a: At)
    requires
        runnable(sc),
        at_fine(sc, a),
        a.ip < sc.s.len() - 8,
    ensures
        ({
            let b = advance(sc, depth, attempts, a);
            b.skipping ==> {
                ||| b.parse.steps == a.parse.steps && b.ip > a.ip + 8
                ||| depth == 0 && a.skipping && repeats_at(
                    sc.s,
                    sc.window,
                    a.ip + 1,
                    a.parse.rep.first,
                )
            }
        }),
{
    lemma_close_place(sc.s, a.parse, a.ip);
}

} // verus!
