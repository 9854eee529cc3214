//! What holds of the sequences that a parse loop records, whichever loop it
//! is: a match goes as far as it can in both directions, and a position that
//! is passed over held nothing.

use super::decode::{lemma_offset_round_trip, offset_of};
use super::parse::{
    block_end, close, close_one, covered, emit, finish, matched, store, Block, Parse, Sequence,
    Step, MAX_CHUNK,
};
use super::tables::{entries_below, Scene};
use super::words::{
    agree, agree_run, common_suffix, hash_at, lemma_common_prefix, lemma_common_prefix_skip,
    lemma_hash_bound, match_len, match_room,
};
use vstd::arithmetic::power2::pow2;
use vstd::prelude::*;

verus! {

/// The newest position before `k` whose leading `mls` bytes have the hash
/// `h`, -1 if there is none.
pub open spec fn newest(s: Seq<u8>, mls: nat, hlog: nat, h: nat, k: int) -> int
    decreases k,
{
    if k <= 0 {
        -1
    } else if hash_at(s, k - 1, mls, hlog) == h {
        k - 1
    } else {
        newest(s, mls, hlog, h, k - 1)
    }
}

/// Whether the newest position before `q` with the hash of `q` holds the same
/// four bytes, no more than `window` before.
pub open spec fn repeats(s: Seq<u8>, mls: nat, hlog: nat, window: nat, q: int) -> bool {
    let c = newest(s, mls, hlog, hash_at(s, q, mls, hlog), q);
    c >= 0 && q - c <= window && agree_run(s, c, q, 4)
}

/// Whether the four bytes at `q` are those `off` before, no more than `window`
/// before.
pub open spec fn repeats_at(s: Seq<u8>, window: nat, q: int, off: nat) -> bool {
    1 <= off <= q && off <= window && agree_run(s, q - off, q, 4)
}

/// Where the last match of some sequences ends, 0 if there is none.
pub open spec fn last_end(steps: Seq<Step>) -> int {
    if steps.len() == 0 {
        0
    } else {
        steps.last().start + steps.last().match_len
    }
}

/// Whether a match stops where it has to: at a byte that differs, one byte
/// before the end of the chunk or with it, or past the longest length that is followed.
pub open spec fn ends_well(s: Seq<u8>, st: Step) -> bool {
    let end = st.start + st.match_len;
    end >= s.len() - 1 || st.match_len >= 16384 || s[end] != s[end - st.offset]
}

/// Whether a match starts where it has to: at a byte before which the bytes
/// differ, at the start of the literals, or where the bytes that it repeats
/// begin the chunk. One that repeats the newest offset may start later.
pub open spec fn starts_well(s: Seq<u8>, st: Step) -> bool {
    st.offset == st.rep.first || st.lit_len == 0 || st.start == st.offset || s[st.start - 1]
        != s[st.start - 1 - st.offset]
}

/// Whether every sequence starts and ends where it has to.
pub open spec fn stretched(s: Seq<u8>, steps: Seq<Step>) -> bool {
    forall|i: int|
        0 <= i < steps.len() ==> ends_well(s, #[trigger] steps[i]) && starts_well(s, steps[i])
}

/// Whether nothing is left to be had right behind the last match: the bytes
/// there do not repeat at the second offset.
pub open spec fn settled(s: Seq<u8>, window: nat, p: Parse) -> bool {
    p.steps.len() > 0 && last_end(p.steps) <= s.len() - 8 ==> !repeats_at(
        s,
        window,
        last_end(p.steps),
        p.rep.second,
    )
}

/// Whether every repeat of the second offset right behind a match was taken:
/// where literals follow a match, the bytes there do not repeat at the second
/// of the offsets that were recent then.
pub open spec fn chained(s: Seq<u8>, window: nat, steps: Seq<Step>) -> bool {
    forall|i: int|
        0 < i < steps.len() ==> {
            let end = steps[i - 1].start + steps[i - 1].match_len;
            (#[trigger] steps[i]).start == end || end > s.len() - 8 || !repeats_at(
                s,
                window,
                end,
                steps[i].rep.second,
            )
        }
}

/// Recording a sequence behind a match where nothing is left keeps all of them
/// chained.
pub proof fn lemma_store_chained(
    s: Seq<u8>,
    window: nat,
    p: Parse,
    start: int,
    mlen: nat,
    off: nat,
)
    requires
        chained(s, window, p.steps),
        p.steps.len() == 0 || start == last_end(p.steps) || settled(s, window, p),
    ensures
        chained(s, window, store(s, p, start, mlen, off).steps),
{
    let q = store(s, p, start, mlen, off);
    assert forall|i: int| 0 < i < q.steps.len() implies {
        let end = q.steps[i - 1].start + q.steps[i - 1].match_len;
        (#[trigger] q.steps[i]).start == end || end > s.len() - 8 || !repeats_at(
            s,
            window,
            end,
            q.steps[i].rep.second,
        )
    } by {
        assert(q.steps[i - 1] == p.steps[i - 1]);
        if i < p.steps.len() {
            assert(q.steps[i] == p.steps[i]);
        }
    }
}

/// Closing blocks moves only the start of the pending literals, and not past
/// `pos`.
pub proof fn lemma_close_place(s: Seq<u8>, p: Parse, pos: int)
    ensures
        close(s, p, pos).steps == p.steps,
        close(s, p, pos).rep == p.rep,
        close(s, p, pos).lit_start >= p.lit_start,
        p.lit_start <= pos ==> close(s, p, pos).lit_start <= pos,
        p.block_start >= 0 && s.len() <= 131072 ==> close(s, p, pos) == p,
    decreases s.len() - p.block_start,
{
    let end = block_end(s.len(), p.block_start);
    if pos < end || end == s.len() {
    } else {
        lemma_close_place(s, close_one(s, p), pos);
    }
}

/// A match that four bytes begin is at least four bytes long.
pub proof fn lemma_match_at_least(s: Seq<u8>, a: int, b: int, k: nat)
    requires
        agree_run(s, a, b, k as int),
        k <= match_room(s, b),
    ensures
        match_len(s, a, b) >= k,
{
    lemma_common_prefix_skip(s, a, b, match_room(s, b), k);
}

/// A match ends one byte before the end of the chunk, at the longest length
/// that is followed, or at a byte that differs.
pub proof fn lemma_match_ends(s: Seq<u8>, a: int, b: int)
    requires
        b < s.len(),
    ensures
        b + match_len(s, a, b) <= s.len() - 1,
        b + match_len(s, a, b) == s.len() - 1 || match_len(s, a, b) >= 16384 || s[a + match_len(
            s,
            a,
            b,
        )] != s[b + match_len(s, a, b)],
        agree_run(s, a, b, match_len(s, a, b) as int),
{
    lemma_common_prefix(s, a, b, match_room(s, b));
}

/// Matches agree up to the shorter one.
pub proof fn lemma_agree_part(s: Seq<u8>, a: int, b: int, k: int, from: int, len: int)
    requires
        agree_run(s, a, b, k),
        0 <= from,
        from + len <= k,
    ensures
        agree_run(s, a + from, b + from, len),
{
    assert forall|i: int| 0 <= i < len implies #[trigger] agree(s, a + from, b + from, i) by {
        assert(agree(s, a, b, from + i));
    }
}

/// A common suffix shorter than was looked at ends at a byte that differs.
pub proof fn lemma_suffix_ends(s: Seq<u8>, a: int, b: int, max: nat)
    ensures
        common_suffix(s, a, b, max) <= max,
        common_suffix(s, a, b, max) < max ==> s[a - common_suffix(s, a, b, max) - 1] != s[b
            - common_suffix(s, a, b, max) - 1],
    decreases max,
{
    if max > 0 && s[a - 1] == s[b - 1] {
        lemma_suffix_ends(s, a - 1, b - 1, (max - 1) as nat);
    }
}

/// Recording a sequence that starts and ends where it has to keeps all of
/// them so.
pub proof fn lemma_store_stretched(s: Seq<u8>, p: Parse, start: int, mlen: nat, off: nat)
    requires
        stretched(s, p.steps),
        start + mlen >= s.len() - 1 || mlen >= 16384 || s[start + mlen] != s[start + mlen - off],
        off == p.rep.first || start == p.lit_start || start == off || s[start - 1] != s[start - 1
            - off],
    ensures
        stretched(s, store(s, p, start, mlen, off).steps),
        last_end(store(s, p, start, mlen, off).steps) == start + mlen,
{
    let q = store(s, p, start, mlen, off);
    assert forall|i: int| 0 <= i < q.steps.len() implies ends_well(s, #[trigger] q.steps[i])
        && starts_well(s, q.steps[i]) by {
        if i < p.steps.len() {
            assert(q.steps[i] == p.steps[i]);
        }
    }
}

/// The newest position with a hash is before `k`, has that hash, and none
/// between it and `k` does.
pub proof fn lemma_newest(s: Seq<u8>, mls: nat, hlog: nat, h: nat, k: int)
    requires
        0 <= k,
    ensures
        -1 <= newest(s, mls, hlog, h, k) < k || newest(s, mls, hlog, h, k) == -1,
        newest(s, mls, hlog, h, k) >= 0 ==> hash_at(s, newest(s, mls, hlog, h, k), mls, hlog) == h,
        forall|c: int|
            newest(s, mls, hlog, h, k) < c < k && 0 <= c ==> #[trigger] hash_at(s, c, mls, hlog)
                != h,
    decreases k,
{
    if k > 0 && hash_at(s, k - 1, mls, hlog) != h {
        lemma_newest(s, mls, hlog, h, k - 1);
    }
}

/// Whether a scene is one that a parse loop can run on.
pub open spec fn runnable(sc: Scene) -> bool {
    &&& 16 < sc.s.len() <= MAX_CHUNK
    &&& sc.hlog <= 32
}

/// The sequences of some blocks, one behind the other.
pub open spec fn sequences_of(blocks: Seq<Block>) -> Seq<Sequence>
    decreases blocks.len(),
{
    if blocks.len() == 0 {
        Seq::empty()
    } else {
        sequences_of(blocks.drop_last()) + blocks.last().sequences
    }
}

/// Whether a sequence of a block is one as it was found: with as many literals,
/// as long a match, and an offset value that stands for its offset.
pub open spec fn tells(q: Sequence, st: Step) -> bool {
    &&& q.lit_len == st.lit_len
    &&& q.match_len == st.match_len
    &&& offset_of(st.rep, st.lit_len == 0, q.offset_value) == st.offset
}

/// Whether some sequences are those that were found, one for one.
pub open spec fn told(sequences: Seq<Sequence>, steps: Seq<Step>) -> bool {
    &&& sequences.len() == steps.len()
    &&& forall|k: int| 0 <= k < steps.len() ==> tells(#[trigger] sequences[k], steps[k])
}

/// Whether the block `i`, which is not the last one, holds what begins in it:
/// with it the blocks reach at least to where it ends, no match of it starts
/// behind that, and what lies before that and is not matched are literals.
pub open spec fn well_placed(blocks: Seq<Block>, i: int) -> bool {
    let reached = covered(blocks.take(i + 1));
    let end = 131072 * (i + 1);
    &&& reached >= end
    &&& blocks[i].sequences.len() > 0 ==> reached - blocks[i].sequences.last().match_len <= end
    &&& blocks[i].sequences.len() == 0 ==> reached == end || blocks[i].literals.len() == 0
}

/// Whether the blocks of a parse hold what was found so far, each what begins
/// in it.
pub open spec fn kept_right(s: Seq<u8>, p: Parse) -> bool {
    &&& told(sequences_of(p.done) + p.open.sequences, p.steps)
    &&& p.block_start == 131072 * p.done.len()
    &&& 0 <= p.block_start <= p.lit_start
    &&& p.lit_start == covered(p.done) + p.open.literals.len() + matched(p.open.sequences)
    &&& p.open.sequences.len() > 0 ==> p.lit_start - p.open.sequences.last().match_len <= block_end(
        s.len(),
        p.block_start,
    )
    &&& p.open.sequences.len() == 0 ==> p.open.literals.len() == 0
    &&& forall|i: int| 0 <= i < p.done.len() ==> #[trigger] well_placed(p.done, i)
}

proof fn lemma_close_one_right(s: Seq<u8>, p: Parse)
    requires
        kept_right(s, p),
        block_end(s.len(), p.block_start) < s.len(),
    ensures
        kept_right(s, close_one(s, p)),
{
    let q = close_one(s, p);
    let end = block_end(s.len(), p.block_start);
    assert(q.done.drop_last() =~= p.done);
    assert(sequences_of(q.done) + q.open.sequences =~= sequences_of(p.done) + p.open.sequences);
    assert forall|i: int| 0 <= i < q.done.len() implies #[trigger] well_placed(q.done, i) by {
        if i < p.done.len() {
            assert(well_placed(p.done, i));
            assert(q.done.take(i + 1) =~= p.done.take(i + 1));
        } else {
            assert(q.done.take(i + 1) =~= q.done);
        }
    }
}

/// Closing blocks keeps what was found where it was.
pub proof fn lemma_close_right(s: Seq<u8>, p: Parse, pos: int)
    requires
        kept_right(s, p),
    ensures
        kept_right(s, close(s, p, pos)),
        pos < block_end(s.len(), close(s, p, pos).block_start) || block_end(
            s.len(),
            close(s, p, pos).block_start,
        ) == s.len(),
    decreases s.len() - p.block_start,
{
    let end = block_end(s.len(), p.block_start);
    if pos < end || end == s.len() {
    } else {
        lemma_close_one_right(s, p);
        lemma_close_right(s, close_one(s, p), pos);
    }
}

/// Recording a sequence that begins in the open block keeps what was found
/// where it belongs.
pub proof fn lemma_store_right(s: Seq<u8>, p: Parse, start: int, mlen: nat, off: nat)
    requires
        kept_right(s, p),
        p.lit_start <= start <= s.len(),
        start <= block_end(s.len(), p.block_start),
        off >= 1,
    ensures
        kept_right(s, store(s, p, start, mlen, off)),
{
    let q = store(s, p, start, mlen, off);
    let before = sequences_of(p.done) + p.open.sequences;
    let now = sequences_of(q.done) + q.open.sequences;
    lemma_offset_round_trip(p.rep, start - p.lit_start == 0, off);
    assert(q.open.sequences.drop_last() =~= p.open.sequences);
    assert(now =~= before.push(q.open.sequences.last()));
    assert forall|k: int| 0 <= k < q.steps.len() implies tells(
        #[trigger] now[k],
        q.steps[k],
    ) by {
        if k < p.steps.len() {
            assert(tells(before[k], p.steps[k]));
        }
    }
    assert forall|i: int| 0 <= i < q.done.len() implies #[trigger] well_placed(q.done, i) by {
        assert(well_placed(p.done, i));
    }
}

/// The blocks of a finished parse hold what was found, each what begins in it.
pub proof fn lemma_finish_right(s: Seq<u8>, p: Parse)
    requires
        kept_right(s, p),
    ensures
        told(sequences_of(finish(s, p)), p.steps),
        forall|i: int| 0 <= i < finish(s, p).len() - 1 ==> #[trigger] well_placed(finish(s, p), i),
{
    let q = close(s, p, s.len() as int);
    let blocks = finish(s, p);
    lemma_close_right(s, p, s.len() as int);
    lemma_close_place(s, p, s.len() as int);
    assert(blocks.drop_last() =~= q.done);
    assert(sequences_of(blocks) =~= sequences_of(q.done) + q.open.sequences);
    assert forall|i: int| 0 <= i < blocks.len() - 1 implies #[trigger] well_placed(blocks, i) by {
        assert(well_placed(q.done, i));
        assert(blocks.take(i + 1) =~= q.done.take(i + 1));
    }
}

/// What holds of the parse between two searches: it is at its literals, its
/// matches go as far as they can, and its blocks hold them.
pub open spec fn parse_fine(sc: Scene, p: Parse, ip: int) -> bool {
    &&& kept_right(sc.s, p)
    &&& stretched(sc.s, p.steps)
    &&& chained(sc.s, sc.window, p.steps)
    &&& last_end(p.steps) <= p.lit_start <= ip
}

/// Recording a match that starts and ends where it has to, behind a match
/// where nothing is left, keeps the parse fine.
pub proof fn lemma_emit_fine(sc: Scene, p: Parse, start: int, mlen: nat, off: nat)
    requires
        stretched(sc.s, p.steps),
        chained(sc.s, sc.window, p.steps),
        p.steps.len() == 0 || start == last_end(p.steps) || settled(sc.s, sc.window, p),
        kept_right(sc.s, p),
        p.lit_start <= start <= sc.s.len(),
        off >= 1,
        start + mlen >= sc.s.len() - 1 || mlen >= 16384 || sc.s[start + mlen] != sc.s[start + mlen
            - off],
        off == p.rep.first || start == p.lit_start || start == off || sc.s[start - 1] != sc.s[start
            - 1 - off],
    ensures
        parse_fine(sc, emit(sc.s, p, start, mlen, off), start + mlen),
        emit(sc.s, p, start, mlen, off).lit_start == start + mlen,
        last_end(emit(sc.s, p, start, mlen, off).steps) == start + mlen,
        emit(sc.s, p, start, mlen, off).steps.len() == p.steps.len() + 1,
        emit(sc.s, p, start, mlen, off).steps.take(p.steps.len() as int) == p.steps,
        p.block_start >= 0 && sc.s.len() <= 131072 ==> emit(sc.s, p, start, mlen, off).block_start
            >= 0,
{
    lemma_close_place(sc.s, p, start);
    lemma_close_right(sc.s, p, start);
    lemma_store_right(sc.s, close(sc.s, p, start), start, mlen, off);
    lemma_store_stretched(sc.s, close(sc.s, p, start), start, mlen, off);
    lemma_store_chained(sc.s, sc.window, close(sc.s, p, start), start, mlen, off);
    assert(emit(sc.s, p, start, mlen, off).steps.take(p.steps.len() as int) =~= p.steps);
}

/// Entering a position in a table of positions before `lim` keeps it one, and
/// is seen when the same hash is looked up.
pub proof fn lemma_put(sc: Scene, head: Seq<i32>, ip: int, lim: int)
    requires
        runnable(sc),
        head.len() == pow2(sc.hlog),
        entries_below(head, lim),
        0 <= ip < lim,
        ip <= MAX_CHUNK,
    ensures
        sc.put(head, ip).len() == pow2(sc.hlog),
        entries_below(sc.put(head, ip), lim),
        forall|q: int|
            #![trigger sc.look(sc.put(head, ip), q)]
            sc.look(sc.put(head, ip), q) == if hash_at(sc.s, q, sc.mls, sc.hlog) == hash_at(
                sc.s,
                ip,
                sc.mls,
                sc.hlog,
            ) {
                ip
            } else {
                sc.look(head, q) as int
            },
{
    lemma_hash_bound(sc.s, ip, sc.mls, sc.hlog);
    let after = sc.put(head, ip);
    let h = hash_at(sc.s, ip, sc.mls, sc.hlog) as int;
    assert forall|i: int| 0 <= i < after.len() implies #[trigger] after[i] < lim by {
        if i != h {
            assert(after[i] == head[i]);
        }
    }
    assert forall|q: int| #![trigger sc.look(after, q)] sc.look(after, q) == if hash_at(
        sc.s,
        q,
        sc.mls,
        sc.hlog,
    ) == h {
        ip
    } else {
        sc.look(head, q) as int
    } by {
        lemma_hash_bound(sc.s, q, sc.mls, sc.hlog);
    }
}

/// Entering a position in a table of 8-byte hashes before `lim` keeps it one, and
/// is seen when the same hash is looked up.
pub proof fn lemma_put_long(sc: Scene, head: Seq<i32>, ip: int, lim: int)
    requires
        sc.clog <= 32,
        head.len() == pow2(sc.clog),
        entries_below(head, lim),
        0 <= ip < lim,
        ip <= MAX_CHUNK,
    ensures
        sc.put_long(head, ip).len() == pow2(sc.clog),
        entries_below(sc.put_long(head, ip), lim),
        forall|q: int|
            #![trigger sc.look_long(sc.put_long(head, ip), q)]
            sc.look_long(sc.put_long(head, ip), q) == if hash_at(sc.s, q, 8, sc.clog) == hash_at(
                sc.s,
                ip,
                8,
                sc.clog,
            ) {
                ip
            } else {
                sc.look_long(head, q) as int
            },
{
    lemma_hash_bound(sc.s, ip, 8, sc.clog);
    let after = sc.put_long(head, ip);
    let h = hash_at(sc.s, ip, 8, sc.clog) as int;
    assert forall|i: int| 0 <= i < after.len() implies #[trigger] after[i] < lim by {
        if i != h {
            assert(after[i] == head[i]);
        }
    }
    assert forall|q: int| #![trigger sc.look_long(after, q)] sc.look_long(after, q) == if hash_at(
        sc.s,
        q,
        8,
        sc.clog,
    ) == h {
        ip
    } else {
        sc.look_long(head, q) as int
    } by {
        lemma_hash_bound(sc.s, q, 8, sc.clog);
    }
}

} // verus!
