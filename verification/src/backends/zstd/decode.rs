//! What a parse means: a decoder that puts a chunk together again from its
//! blocks, the way RFC 8878 executes sequences.

use super::parse::{
    block_end, close, close_one, encode_offset, finish, genuine, lemma_close_one_ok, literals_used,
    run, store, tidy, Block, History, Parse, Sequence,
};
use super::words::{agree, agree_run};
use crate::stats::{lemma_occurrences_concat, occurrences};
use vstd::prelude::*;

verus! {

/// What was put together so far, the three most recent offsets, and how far
/// back a match has reached.
pub struct Decoded {
    pub out: Seq<u8>,
    pub rep: History,
    pub reach: nat,
}

/// The decoder before the first block, with the format's initial history.
pub open spec fn nothing_decoded() -> Decoded {
    Decoded { out: Seq::empty(), rep: History { first: 1, second: 4, third: 8 }, reach: 0 }
}

/// The offset that an offset value stands for.
pub open spec fn offset_of(rep: History, no_literals: bool, value: nat) -> nat {
    if value > 3 {
        (value - 3) as nat
    } else {
        let slot = if no_literals {
            value + 1
        } else {
            value
        };
        if slot == 1 {
            rep.first
        } else if slot == 2 {
            rep.second
        } else if slot == 3 {
            rep.third
        } else {
            (rep.first - 1) as nat
        }
    }
}

/// The history after an offset value: the first offset leaves it unchanged,
/// the second is swapped with the first, and any other becomes the first
/// while the rest shift back by one.
pub open spec fn history_after(rep: History, no_literals: bool, value: nat) -> History {
    let off = offset_of(rep, no_literals, value);
    let slot = if no_literals {
        value + 1
    } else {
        value
    };
    if slot == 1 {
        rep
    } else if slot == 2 {
        History { first: off, second: rep.first, third: rep.third }
    } else {
        History { first: off, second: rep.first, third: rep.second }
    }
}

/// Append `k` bytes, each the one `off` before it.
pub open spec fn copy_back(out: Seq<u8>, off: nat, k: nat) -> Seq<u8>
    decreases k,
{
    if k == 0 {
        out
    } else {
        let before = copy_back(out, off, (k - 1) as nat);
        before.push(before[before.len() - off])
    }
}

/// Run some sequences of a block with the literals `lits`; also how many
/// literals they use.
pub open spec fn run_sequences(d: Decoded, lits: Seq<u8>, sequences: Seq<Sequence>) -> (
    Decoded,
    nat,
)
    decreases sequences.len(),
{
    if sequences.len() == 0 {
        (d, 0)
    } else {
        let (e, used) = run_sequences(d, lits, sequences.drop_last());
        let q = sequences.last();
        let off = offset_of(e.rep, q.lit_len == 0, q.offset_value);
        let rep = history_after(e.rep, q.lit_len == 0, q.offset_value);
        let out = e.out + lits.subrange(used as int, (used + q.lit_len) as int);
        let reach = if off > e.reach {
            off
        } else {
            e.reach
        };
        (Decoded { out: copy_back(out, off, q.match_len), rep, reach }, used + q.lit_len)
    }
}

/// Decode one block: its sequences, then what literals are left.
pub open spec fn decode_block(d: Decoded, b: Block) -> Decoded {
    let (e, used) = run_sequences(d, b.literals, b.sequences);
    Decoded { out: e.out + b.literals.skip(used as int), rep: e.rep, reach: e.reach }
}

/// Decode some blocks, one after the other.
pub open spec fn decode_blocks(blocks: Seq<Block>) -> Decoded
    decreases blocks.len(),
{
    if blocks.len() == 0 {
        nothing_decoded()
    } else {
        decode_block(decode_blocks(blocks.drop_last()), blocks.last())
    }
}

/// Whether what a parse has recorded decodes to the chunk up to its pending
/// literals, with the same history, and reaches back no further than the
/// window.
pub open spec fn faithful(s: Seq<u8>, window: nat, p: Parse) -> bool {
    let (e, used) = run_sequences(decode_blocks(p.done), p.open.literals, p.open.sequences);
    &&& 0 <= p.lit_start <= s.len()
    &&& used == p.open.literals.len()
    &&& e.rep == p.rep
    &&& e.out == s.take(p.lit_start)
    &&& e.reach <= window
}

/// The offset value of an offset decodes to the offset, with the same history.
pub proof fn lemma_offset_round_trip(rep: History, no_literals: bool, off: nat)
    requires
        off >= 1,
    ensures
        ({
            let (value, after) = encode_offset(rep, no_literals, off);
            &&& value >= 1
            &&& offset_of(rep, no_literals, value) == off
            &&& history_after(rep, no_literals, value) == after
        }),
{
}

/// Literals beyond those that some sequences use do not matter to them.
proof fn lemma_more_literals(d: Decoded, lits: Seq<u8>, more: Seq<u8>, sequences: Seq<Sequence>)
    requires
        run_sequences(d, lits, sequences).1 <= lits.len(),
    ensures
        run_sequences(d, lits + more, sequences) == run_sequences(d, lits, sequences),
    decreases sequences.len(),
{
    if sequences.len() > 0 {
        let (e, used) = run_sequences(d, lits, sequences.drop_last());
        let q = sequences.last();
        lemma_more_literals(d, lits, more, sequences.drop_last());
        assert((lits + more).subrange(used as int, (used + q.lit_len) as int) =~= lits.subrange(
            used as int,
            (used + q.lit_len) as int,
        ));
    }
}

/// A genuine match is what copying gives.
proof fn lemma_copy_back(s: Seq<u8>, start: int, off: nat, k: nat)
    requires
        1 <= off <= start,
        start + k <= s.len(),
        agree_run(s, start - off, start, k as int),
    ensures
        copy_back(s.take(start), off, k) == s.take(start + k),
    decreases k,
{
    if k == 0 {
    } else {
        assert(agree(s, start - off, start, k - 1));
        lemma_copy_back(s, start, off, (k - 1) as nat);
        let before = s.take(start + k - 1);
        assert(before.push(before[before.len() - off]) =~= s.take(start + k));
    }
}

/// Closing a block keeps a parse faithful.
pub proof fn lemma_close_one_faithful(s: Seq<u8>, window: nat, p: Parse)
    requires
        p.ok(s),
        faithful(s, window, p),
    ensures
        faithful(s, window, close_one(s, p)),
{
    let more = run(s, p.lit_start, block_end(s.len(), p.block_start));
    let q = close_one(s, p);
    lemma_more_literals(decode_blocks(p.done), p.open.literals, more, p.open.sequences);
    assert(q.done.drop_last() =~= p.done);
    assert(q.done.last().literals.skip(p.open.literals.len() as int) =~= more);
    assert(s.take(p.lit_start) + more =~= s.take(q.lit_start));
}

/// Closing blocks keeps a parse faithful.
pub proof fn lemma_close_faithful(s: Seq<u8>, window: nat, p: Parse, pos: int)
    requires
        p.ok(s),
        faithful(s, window, p),
    ensures
        faithful(s, window, close(s, p, pos)),
    decreases s.len() - p.block_start,
{
    let end = block_end(s.len(), p.block_start);
    if pos < end || end == s.len() {
    } else {
        lemma_close_one_ok(s, p);
        lemma_close_one_faithful(s, window, p);
        lemma_close_faithful(s, window, close_one(s, p), pos);
    }
}

/// Recording a genuine match keeps a parse faithful.
pub proof fn lemma_store_faithful(s: Seq<u8>, window: nat, p: Parse, start: int, mlen: nat, off: nat)
    requires
        faithful(s, window, p),
        p.lit_start <= start,
        genuine(s, start, mlen, off),
        off <= window,
    ensures
        faithful(s, window, store(s, p, start, mlen, off)),
{
    let q = store(s, p, start, mlen, off);
    let d = decode_blocks(p.done);
    let more = run(s, p.lit_start, start);
    let lits = p.open.literals + more;
    let (e, used) = run_sequences(d, p.open.literals, p.open.sequences);
    lemma_more_literals(d, p.open.literals, more, p.open.sequences);
    assert(q.open.sequences.drop_last() =~= p.open.sequences);
    lemma_offset_round_trip(p.rep, start == p.lit_start, off);
    let lit_len = (start - p.lit_start) as nat;
    assert(lits.subrange(used as int, (used + lit_len) as int) =~= more);
    assert(s.take(p.lit_start) + more =~= s.take(start));
    lemma_copy_back(s, start, off, mlen);
}

/// The blocks of a finished faithful parse decode to the whole chunk.
pub proof fn lemma_finish_faithful(s: Seq<u8>, window: nat, p: Parse)
    requires
        p.ok(s),
        faithful(s, window, p),
    ensures
        decode_blocks(finish(s, p)).out == s,
        decode_blocks(finish(s, p)).reach <= window,
{
    lemma_close_faithful(s, window, p, s.len() as int);
    let q = close(s, p, s.len() as int);
    let more = run(s, q.lit_start, s.len() as int);
    let blocks = finish(s, p);
    let last = blocks.last();
    let d = decode_blocks(q.done);
    lemma_more_literals(d, q.open.literals, more, q.open.sequences);
    assert(blocks.drop_last() =~= q.done);
    assert(last.literals.skip(q.open.literals.len() as int) =~= more);
    assert(s.take(q.lit_start) + more =~= s);
}

/// How often a byte is a literal of some blocks.
pub open spec fn literal_occurrences(blocks: Seq<Block>, v: u8) -> nat
    decreases blocks.len(),
{
    if blocks.len() == 0 {
        0
    } else {
        literal_occurrences(blocks.drop_last(), v) + occurrences(blocks.last().literals, v)
    }
}

proof fn lemma_copy_back_adds(out: Seq<u8>, off: nat, k: nat, v: u8)
    ensures
        occurrences(out, v) <= occurrences(copy_back(out, off, k), v),
    decreases k,
{
    if k > 0 {
        let before = copy_back(out, off, (k - 1) as nat);
        lemma_copy_back_adds(out, off, (k - 1) as nat, v);
        assert(copy_back(out, off, k).drop_last() =~= before);
    }
}

/// Running sequences puts out the literals that they use.
proof fn lemma_sequences_put_out(d: Decoded, lits: Seq<u8>, sequences: Seq<Sequence>, v: u8)
    requires
        literals_used(sequences) <= lits.len(),
    ensures
        run_sequences(d, lits, sequences).1 == literals_used(sequences),
        occurrences(d.out, v) + occurrences(
            lits.take(literals_used(sequences) as int),
            v,
        ) <= occurrences(run_sequences(d, lits, sequences).0.out, v),
    decreases sequences.len(),
{
    if sequences.len() == 0 {
        assert(lits.take(0) =~= Seq::<u8>::empty());
    } else {
        let front = sequences.drop_last();
        let q = sequences.last();
        lemma_sequences_put_out(d, lits, front, v);
        let (e, used) = run_sequences(d, lits, front);
        let part = lits.subrange(used as int, (used + q.lit_len) as int);
        let off = offset_of(e.rep, q.lit_len == 0, q.offset_value);
        assert(lits.take((used + q.lit_len) as int) =~= lits.take(used as int) + part);
        lemma_occurrences_concat(lits.take(used as int), part, v);
        lemma_occurrences_concat(e.out, part, v);
        lemma_copy_back_adds(e.out + part, off, q.match_len, v);
    }
}

/// What blocks decode to holds all of their literals: no byte is a literal more
/// often than it is put out.
pub proof fn lemma_literals_put_out(blocks: Seq<Block>, v: u8)
    requires
        forall|i: int| 0 <= i < blocks.len() ==> tidy(#[trigger] blocks[i]),
    ensures
        literal_occurrences(blocks, v) <= occurrences(decode_blocks(blocks).out, v),
    decreases blocks.len(),
{
    if blocks.len() > 0 {
        let front = blocks.drop_last();
        let b = blocks.last();
        assert(tidy(blocks[blocks.len() - 1]));
        assert forall|i: int| 0 <= i < front.len() implies tidy(#[trigger] front[i]) by {
            assert(tidy(blocks[i]));
        }
        lemma_literals_put_out(front, v);
        let d = decode_blocks(front);
        lemma_sequences_put_out(d, b.literals, b.sequences, v);
        let (e, used) = run_sequences(d, b.literals, b.sequences);
        assert(b.literals =~= b.literals.take(used as int) + b.literals.skip(used as int));
        lemma_occurrences_concat(b.literals.take(used as int), b.literals.skip(used as int), v);
        lemma_occurrences_concat(e.out, b.literals.skip(used as int), v);
    }
}

/// An offset gets the smallest value that stands for it: where one of the recent
/// offsets is it, or without literals one less than the newest, no value above
/// that one's is used.
pub proof fn lemma_smallest_offset_value(rep: History, no_literals: bool, off: nat, value: nat)
    requires
        off >= 1,
        rep.first >= 1,
        value >= 1,
        offset_of(rep, no_literals, value) == off,
    ensures
        encode_offset(rep, no_literals, off).0 <= value,
{
}

} // verus!
