//! What a parse is: literals and sequences, split into 128 KiB blocks, with
//! the repeat-offset history that the format keeps; and the recorder that
//! turns a parse into per-block statistics while it runs.

use super::codes::{
    lit_len_code, ll_code, match_len_code, ml_code, off_code, offset_code, LL_EXTRA, ML_EXTRA,
};
use super::decode::{
    decode_blocks, faithful, lemma_close_one_faithful, lemma_finish_faithful, lemma_store_faithful,
};
use super::words::agree_run;
use crate::stats::{lemma_occurrences_bound, Histogram};
use vstd::prelude::*;
use vstd::slice::slice_subrange;

verus! {

/// zstd's block size: the compressor entropy-codes each 128 KiB block with
/// fresh tables, so statistics are kept per block. The parse itself runs
/// continuously across block boundaries.
pub const ZSTD_BLOCK: usize = 131072;

/// Longest chunk whose positions fit the match tables.
pub const MAX_CHUNK: usize = 0x7fff_ffff;

/// One sequence: a run of literals, then a match, its offset given by the
/// format's offset value (1 to 3 = a recent offset, else the offset plus 3).
pub struct Sequence {
    pub lit_len: nat,
    pub match_len: nat,
    pub offset_value: nat,
}

/// What one block holds: its literal bytes in order, its sequences in order,
/// and how many bytes of the chunk it covers.
pub struct Block {
    pub literals: Seq<u8>,
    pub sequences: Seq<Sequence>,
    pub len: nat,
}

/// The three most recent offsets, newest first.
pub struct History {
    pub first: nat,
    pub second: nat,
    pub third: nat,
}

/// One sequence as it was found: where its match starts, how many literals
/// are before it, how long the match is, its offset, and the recent offsets
/// before it.
pub struct Step {
    pub start: int,
    pub lit_len: nat,
    pub match_len: nat,
    pub offset: nat,
    pub rep: History,
}

/// A parse in progress.
pub struct Parse {
    pub rep: History,
    /// Start of the pending literal run.
    pub lit_start: int,
    /// Start of the open block.
    pub block_start: int,
    /// The blocks that are closed.
    pub done: Seq<Block>,
    /// The open block.
    pub open: Block,
    /// All sequences so far, as they were found.
    pub steps: Seq<Step>,
}

/// The block that holds nothing yet.
pub open spec fn empty_block() -> Block {
    Block { literals: Seq::empty(), sequences: Seq::empty(), len: 0 }
}

/// The parse at the start of a chunk, with the format's initial history.
pub open spec fn initial_parse() -> Parse {
    Parse {
        rep: History { first: 1, second: 4, third: 8 },
        lit_start: 0,
        block_start: 0,
        done: Seq::empty(),
        open: empty_block(),
        steps: Seq::empty(),
    }
}

/// The offset value of an offset, and the history after it (RFC 8878, repeat
/// offsets). With literals before the match, values 1 to 3 are the three
/// recent offsets; without, values 1 and 2 are the second and third, and 3 is
/// one less than the first. The newest offset takes the lead, and those that
/// were ahead of it move back by one.
pub open spec fn encode_offset(rep: History, no_literals: bool, off: nat) -> (nat, History) {
    let swapped = History { first: rep.second, second: rep.first, third: rep.third };
    let rotated = History { first: rep.third, second: rep.first, third: rep.second };
    let pushed = History { first: off, second: rep.first, third: rep.second };
    if !no_literals {
        if off == rep.first {
            (1, rep)
        } else if off == rep.second {
            (2, swapped)
        } else if off == rep.third {
            (3, rotated)
        } else {
            (off + 3, pushed)
        }
    } else if off == rep.second {
        (1, swapped)
    } else if off == rep.third {
        (2, rotated)
    } else if off + 1 == rep.first && off != 0 {
        (3, pushed)
    } else {
        (off + 3, pushed)
    }
}

/// Where the open block ends: after 128 KiB, or with the chunk.
pub open spec fn block_end(n: nat, block_start: int) -> int {
    if block_start + ZSTD_BLOCK < n {
        block_start + ZSTD_BLOCK
    } else {
        n as int
    }
}

/// Literals from `a` up to `b`, none if that is before `a`.
pub open spec fn run(s: Seq<u8>, a: int, b: int) -> Seq<u8> {
    if a < b {
        s.subrange(a, b)
    } else {
        Seq::empty()
    }
}

/// Close the open block at its end. Literals pending there belong to it.
pub open spec fn close_one(s: Seq<u8>, p: Parse) -> Parse {
    let end = block_end(s.len(), p.block_start);
    Parse {
        rep: p.rep,
        lit_start: if p.lit_start < end {
            end
        } else {
            p.lit_start
        },
        block_start: end,
        done: p.done.push(
            Block {
                literals: p.open.literals + run(s, p.lit_start, end),
                sequences: p.open.sequences,
                len: (end - p.block_start) as nat,
            },
        ),
        open: empty_block(),
        steps: p.steps,
    }
}

/// Close every block that ends at or before `pos`, but for the last one of
/// the chunk.
pub open spec fn close(s: Seq<u8>, p: Parse, pos: int) -> Parse
    decreases s.len() - p.block_start,
{
    let end = block_end(s.len(), p.block_start);
    if pos < end || end == s.len() {
        p
    } else {
        close(s, close_one(s, p), pos)
    }
}

/// Record one sequence: the pending literals up to `start`, then a match of
/// `mlen` bytes at offset `off`.
pub open spec fn store(s: Seq<u8>, p: Parse, start: int, mlen: nat, off: nat) -> Parse {
    let lit_len = (start - p.lit_start) as nat;
    let (value, rep) = encode_offset(p.rep, lit_len == 0, off);
    Parse {
        rep,
        lit_start: start + mlen,
        block_start: p.block_start,
        done: p.done,
        open: Block {
            literals: p.open.literals + run(s, p.lit_start, start),
            sequences: p.open.sequences.push(
                Sequence { lit_len, match_len: mlen, offset_value: value },
            ),
            len: p.open.len,
        },
        steps: p.steps.push(
            Step { start, lit_len, match_len: mlen, offset: off, rep: p.rep },
        ),
    }
}

/// Close the blocks that end at or before `start`, then record the sequence.
pub open spec fn emit(s: Seq<u8>, p: Parse, start: int, mlen: nat, off: nat) -> Parse {
    store(s, close(s, p, start), start, mlen, off)
}

/// The blocks of a finished parse: what is pending are literals.
pub open spec fn finish(s: Seq<u8>, p: Parse) -> Seq<Block> {
    let q = close(s, p, s.len() as int);
    q.done.push(
        Block {
            literals: q.open.literals + run(s, q.lit_start, s.len() as int),
            sequences: q.open.sequences,
            len: (s.len() - q.block_start) as nat,
        },
    )
}

/// Bytes covered by the matches of some sequences.
pub open spec fn matched(sequences: Seq<Sequence>) -> nat
    decreases sequences.len(),
{
    if sequences.len() == 0 {
        0
    } else {
        matched(sequences.drop_last()) + sequences.last().match_len
    }
}

/// Bits that the codes of some sequences carry besides the codes themselves.
pub open spec fn extra_bits(sequences: Seq<Sequence>) -> nat
    decreases sequences.len(),
{
    if sequences.len() == 0 {
        0
    } else {
        let q = sequences.last();
        extra_bits(sequences.drop_last()) + LL_EXTRA@[lit_len_code(q.lit_len) as int] as nat
            + ML_EXTRA@[match_len_code(q.match_len) as int] as nat + offset_code(q.offset_value)
    }
}

/// The three code streams of a block.
pub enum Stream {
    LitLen,
    MatchLen,
    Offset,
}

/// The code of a sequence in one of the streams.
pub open spec fn stream_code(stream: Stream, q: Sequence) -> nat {
    match stream {
        Stream::LitLen => lit_len_code(q.lit_len),
        Stream::MatchLen => match_len_code(q.match_len),
        Stream::Offset => offset_code(q.offset_value),
    }
}

/// How often a code occurs in one of the streams.
pub open spec fn tally(stream: Stream, sequences: Seq<Sequence>, code: nat) -> nat
    decreases sequences.len(),
{
    if sequences.len() == 0 {
        0
    } else {
        tally(stream, sequences.drop_last(), code) + if stream_code(stream, sequences.last())
            == code {
            1nat
        } else {
            0nat
        }
    }
}

/// Whether the bytes from `start` on repeat those `off` before, for `mlen`
/// bytes within the chunk.
pub open spec fn genuine(s: Seq<u8>, start: int, mlen: nat, off: nat) -> bool {
    &&& 1 <= off <= start
    &&& 4 <= mlen
    &&& start + mlen <= s.len()
    &&& agree_run(s, start - off, start, mlen as int)
}

/// Bytes of the chunk that some blocks stand for: their literals and their
/// matches.
pub open spec fn covered(blocks: Seq<Block>) -> nat
    decreases blocks.len(),
{
    if blocks.len() == 0 {
        0
    } else {
        covered(blocks.drop_last()) + blocks.last().literals.len() + matched(
            blocks.last().sequences,
        )
    }
}

/// Literals that some sequences use.
pub open spec fn literals_used(sequences: Seq<Sequence>) -> nat
    decreases sequences.len(),
{
    if sequences.len() == 0 {
        0
    } else {
        literals_used(sequences.drop_last()) + sequences.last().lit_len
    }
}

/// Whether the sequences of a block are those of a parse: no match shorter
/// than four bytes, offset values that the format has, and no more literals
/// used than there are.
pub open spec fn tidy(b: Block) -> bool {
    &&& forall|i: int|
        0 <= i < b.sequences.len() ==> {
            &&& (#[trigger] b.sequences[i]).match_len >= 4
            &&& 1 <= b.sequences[i].offset_value <= MAX_CHUNK + 3
        }
    &&& literals_used(b.sequences) <= b.literals.len()
}

impl Parse {
    /// Whether this is a parse of the chunk `s`: every closed block is a full
    /// one, and what was recorded so far stands for the bytes before the
    /// pending literals.
    pub open spec fn ok(&self, s: Seq<u8>) -> bool {
        &&& 0 <= self.block_start <= self.lit_start <= s.len() <= MAX_CHUNK
        &&& self.block_start == ZSTD_BLOCK * self.done.len()
        &&& self.block_start < s.len() || self.block_start == 0
        &&& covered(self.done) + self.open.literals.len() + matched(self.open.sequences)
            == self.lit_start
        &&& forall|i: int|
            0 <= i < self.done.len() ==> (#[trigger] self.done[i]).len == ZSTD_BLOCK && tidy(
                self.done[i],
            )
        &&& tidy(self.open)
        &&& 4 * self.open.sequences.len() <= matched(self.open.sequences)
        &&& self.open.len == 0
        &&& self.rep.first <= s.len() + 8
        &&& self.rep.second <= s.len() + 8
        &&& self.rep.third <= s.len() + 8
    }
}

proof fn lemma_tally_bound(stream: Stream, sequences: Seq<Sequence>, code: nat)
    ensures
        tally(stream, sequences, code) <= sequences.len(),
    decreases sequences.len(),
{
    if sequences.len() > 0 {
        lemma_tally_bound(stream, sequences.drop_last(), code);
    }
}

/// Closing a block keeps a parse one of the same chunk.
pub proof fn lemma_close_one_ok(s: Seq<u8>, p: Parse)
    requires
        p.ok(s),
        block_end(s.len(), p.block_start) < s.len(),
    ensures
        close_one(s, p).ok(s),
{
    let q = close_one(s, p);
    assert(q.done.drop_last() =~= p.done);
    assert forall|i: int| 0 <= i < q.done.len() implies (#[trigger] q.done[i]).len == ZSTD_BLOCK
        && tidy(q.done[i]) by {
        if i < p.done.len() {
            assert(q.done[i] == p.done[i]);
        }
    }
}

/// Closing blocks keeps a parse one of the same chunk, at the same position.
pub proof fn lemma_close_ok(s: Seq<u8>, p: Parse, pos: int)
    requires
        p.ok(s),
        pos <= s.len(),
    ensures
        close(s, p, pos).ok(s),
        close(s, p, pos).rep == p.rep,
        p.lit_start <= close(s, p, pos).lit_start,
        p.lit_start <= pos ==> close(s, p, pos).lit_start <= pos,
        close(s, p, pos).block_start <= pos || close(s, p, pos).block_start == p.block_start,
    decreases s.len() - p.block_start,
{
    let end = block_end(s.len(), p.block_start);
    if pos < end || end == s.len() {
    } else {
        lemma_close_one_ok(s, p);
        lemma_close_ok(s, close_one(s, p), pos);
    }
}

/// Closing blocks adds no sequence.
proof fn lemma_close_steps(s: Seq<u8>, p: Parse, pos: int)
    ensures
        close(s, p, pos).steps == p.steps,
    decreases s.len() - p.block_start,
{
    let end = block_end(s.len(), p.block_start);
    if pos < end || end == s.len() {
    } else {
        lemma_close_steps(s, close_one(s, p), pos);
    }
}

/// Recording a genuine match keeps a parse one of the same chunk.
pub proof fn lemma_store_ok(s: Seq<u8>, p: Parse, start: int, mlen: nat, off: nat)
    requires
        p.ok(s),
        p.lit_start <= start,
        4 <= mlen,
        start + mlen <= s.len(),
        1 <= off <= s.len(),
    ensures
        store(s, p, start, mlen, off).ok(s),
        store(s, p, start, mlen, off).lit_start == start + mlen,
{
    let q = store(s, p, start, mlen, off);
    assert(q.open.sequences.drop_last() =~= p.open.sequences);
    assert forall|i: int| 0 <= i < q.open.sequences.len() implies {
        &&& (#[trigger] q.open.sequences[i]).match_len >= 4
        &&& 1 <= q.open.sequences[i].offset_value <= MAX_CHUNK + 3
    } by {
        if i < p.open.sequences.len() {
            assert(q.open.sequences[i] == p.open.sequences[i]);
        }
    }
}

/// Number of blocks of a chunk of `n` bytes: as many as it takes, at least
/// one.
pub open spec fn block_count(n: nat) -> nat {
    if n == 0 {
        1
    } else {
        (n + ZSTD_BLOCK - 1) as nat / ZSTD_BLOCK as nat
    }
}

/// The blocks of a finished parse split the chunk: they are as many as it
/// takes, all but the last are full, their lengths add up to the chunk, and
/// so do their literals and matches.
pub proof fn lemma_finish_blocks(s: Seq<u8>, p: Parse)
    requires
        p.ok(s),
    ensures
        finish(s, p).len() == block_count(s.len()),
        covered(finish(s, p)) == s.len(),
        forall|i: int| #![trigger finish(s, p)[i]]
            0 <= i < finish(s, p).len() ==> {
                &&& finish(s, p)[i].len == block_end(s.len(), ZSTD_BLOCK * i) - ZSTD_BLOCK * i
                &&& tidy(finish(s, p)[i])
            },
{
    lemma_close_ok(s, p, s.len() as int);
    lemma_close_last(s, p);
    let q = close(s, p, s.len() as int);
    let blocks = finish(s, p);
    assert(blocks.drop_last() =~= q.done);
    let k = q.done.len();
    assert forall|i: int| #![trigger blocks[i]] 0 <= i < blocks.len() implies {
        &&& blocks[i].len == block_end(s.len(), ZSTD_BLOCK * i) - ZSTD_BLOCK * i
        &&& tidy(blocks[i])
    } by {
        if i < k {
            assert(blocks[i] == q.done[i]);
        }
    }
}

/// All blocks but the last are closed at the end of the chunk.
proof fn lemma_close_last(s: Seq<u8>, p: Parse)
    requires
        p.ok(s),
    ensures
        block_end(s.len(), close(s, p, s.len() as int).block_start) == s.len(),
    decreases s.len() - p.block_start,
{
    if block_end(s.len(), p.block_start) < s.len() {
        lemma_close_one_ok(s, p);
        lemma_close_last(s, close_one(s, p));
    }
}

/// Raw parse statistics for one block, accumulated during replay. All
/// histograms feed the cost model; nothing here is entropy-coded.
pub struct ParseStats {
    /// Literal byte histogram (literals only, per this level's parse).
    pub literals: Histogram,
    /// Literal-length code counts (codes 0..=35).
    pub ll_codes: [u32; 36],
    /// Match-length code counts (codes 0..=52).
    pub ml_codes: [u32; 53],
    /// Offset code counts (codes 0..=31).
    pub off_codes: [u32; 32],
    /// Sum of extra bits carried by litlen/matchlen/offset codes.
    pub extra_bits: u64,
    pub nb_seq: u32,
    pub total_lit_len: u64,
    pub total_match_len: u64,
    pub chunk_len: usize,
}

impl Clone for ParseStats {
    fn clone(&self) -> (res: Self)
        ensures
            res == *self,
    {
        ParseStats {
            literals: self.literals.clone(),
            ll_codes: self.ll_codes,
            ml_codes: self.ml_codes,
            off_codes: self.off_codes,
            extra_bits: self.extra_bits,
            nb_seq: self.nb_seq,
            total_lit_len: self.total_lit_len,
            total_match_len: self.total_match_len,
            chunk_len: self.chunk_len,
        }
    }
}

impl ParseStats {
    /// Whether these are the statistics of a block.
    pub open spec fn of(&self, b: Block) -> bool {
        &&& self.literals.of(b.literals)
        &&& forall|c: int|
            0 <= c < 36 ==> #[trigger] self.ll_codes@[c] == tally(
                Stream::LitLen,
                b.sequences,
                c as nat,
            )
        &&& forall|c: int|
            0 <= c < 53 ==> #[trigger] self.ml_codes@[c] == tally(
                Stream::MatchLen,
                b.sequences,
                c as nat,
            )
        &&& forall|c: int|
            0 <= c < 32 ==> #[trigger] self.off_codes@[c] == tally(
                Stream::Offset,
                b.sequences,
                c as nat,
            )
        &&& self.extra_bits == extra_bits(b.sequences)
        &&& self.nb_seq == b.sequences.len()
        &&& self.total_lit_len == b.literals.len()
        &&& self.total_match_len == matched(b.sequences)
        &&& self.chunk_len == b.len
    }

    /// Statistics of a block of `chunk_len` bytes of which nothing was
    /// recorded yet.
    pub fn new(chunk_len: usize) -> (res: Self)
        ensures
            res.of(Block { literals: Seq::empty(), sequences: Seq::empty(), len: chunk_len as nat }),
    {
        ParseStats {
            literals: Histogram::default(),
            ll_codes: [0; 36],
            ml_codes: [0; 53],
            off_codes: [0; 32],
            extra_bits: 0,
            nb_seq: 0,
            total_lit_len: 0,
            total_match_len: 0,
            chunk_len,
        }
    }

    /// Count the literals `chunk[from..to]`.
    fn add_literals(&mut self, chunk: &[u8], from: usize, to: usize, Ghost(b): Ghost<Block>)
        requires
            old(self).of(b),
            from <= to <= chunk@.len(),
            b.literals.len() + (to - from) <= MAX_CHUNK,
        ensures
            final(self).of(
                Block {
                    literals: b.literals + run(chunk@, from as int, to as int),
                    sequences: b.sequences,
                    len: b.len,
                },
            ),
    {
        let part = slice_subrange(chunk, from, to);
        proof {
            assert(part@ =~= run(chunk@, from as int, to as int));
            assert forall|x: u8|
                #[trigger] self.literals.counts@[x as int] + crate::stats::occurrences(part@, x)
                    <= u64::MAX by {
                lemma_occurrences_bound(part@, x);
                lemma_occurrences_bound(b.literals, x);
            }
        }
        self.literals.add(part);
        self.total_lit_len = self.total_lit_len + (to - from) as u64;
    }

    /// Count one sequence, by its three codes and their extra bits.
    fn add_sequence(&mut self, lit_len: u32, mlen: u32, value: u32, Ghost(b): Ghost<Block>)
        requires
            old(self).of(b),
            mlen >= 3,
            value >= 1,
            4 * b.sequences.len() <= matched(b.sequences),
            matched(b.sequences) + mlen <= MAX_CHUNK,
            extra_bits(b.sequences) <= 64 * b.sequences.len(),
        ensures
            final(self).of(
                Block {
                    literals: b.literals,
                    sequences: b.sequences.push(
                        Sequence {
                            lit_len: lit_len as nat,
                            match_len: mlen as nat,
                            offset_value: value as nat,
                        },
                    ),
                    len: b.len,
                },
            ),
            final(self).extra_bits <= 64 * (b.sequences.len() + 1),
    {
        let ghost q = Sequence {
            lit_len: lit_len as nat,
            match_len: mlen as nat,
            offset_value: value as nat,
        };
        let ghost after = b.sequences.push(q);
        let ll = ll_code(lit_len);
        let ml = ml_code(mlen);
        let oc: usize = off_code(value);
        proof {
            assert(after.drop_last() =~= b.sequences);
            assert(after.last() == q);
            lemma_tally_bound(Stream::LitLen, b.sequences, ll.0 as nat);
            lemma_tally_bound(Stream::MatchLen, b.sequences, ml.0 as nat);
            lemma_tally_bound(Stream::Offset, b.sequences, oc as nat);
        }
        self.ll_codes[ll.0] = self.ll_codes[ll.0] + 1;
        self.ml_codes[ml.0] = self.ml_codes[ml.0] + 1;
        self.off_codes[oc] = self.off_codes[oc] + 1;
        self.extra_bits = self.extra_bits + ll.1 as u64 + ml.1 as u64 + oc as u64;
        self.nb_seq = self.nb_seq + 1;
        self.total_match_len = self.total_match_len + mlen as u64;
        proof {
            assert forall|c: int| 0 <= c < 36 implies #[trigger] self.ll_codes@[c] == tally(
                Stream::LitLen,
                after,
                c as nat,
            ) by {
                assert(old(self).ll_codes@[c] == tally(Stream::LitLen, b.sequences, c as nat));
            }
            assert forall|c: int| 0 <= c < 53 implies #[trigger] self.ml_codes@[c] == tally(
                Stream::MatchLen,
                after,
                c as nat,
            ) by {
                assert(old(self).ml_codes@[c] == tally(Stream::MatchLen, b.sequences, c as nat));
            }
            assert forall|c: int| 0 <= c < 32 implies #[trigger] self.off_codes@[c] == tally(
                Stream::Offset,
                after,
                c as nat,
            ) by {
                assert(old(self).off_codes@[c] == tally(Stream::Offset, b.sequences, c as nat));
            }
        }
    }
}

/// One sequence as it was found, for a trace of the parse.
#[derive(Debug, Clone, Copy)]
pub struct Traced {
    pub start: usize,
    pub lit_len: usize,
    pub match_len: usize,
    pub offset: u32,
    /// The recent offsets before it.
    pub rep: [u32; 3],
}

impl Traced {
    /// Whether this is a sequence as it was found.
    pub open spec fn of(&self, step: Step) -> bool {
        &&& self.start == step.start
        &&& self.lit_len == step.lit_len
        &&& self.match_len == step.match_len
        &&& self.offset == step.offset
        &&& self.rep@[0] == step.rep.first
        &&& self.rep@[1] == step.rep.second
        &&& self.rep@[2] == step.rep.third
    }
}

/// Whether a trace is that of some sequences, one for one.
pub open spec fn trace_of(trace: Seq<Traced>, steps: Seq<Step>) -> bool {
    &&& trace.len() == steps.len()
    &&& forall|i: int| 0 <= i < trace.len() ==> (#[trigger] trace[i]).of(steps[i])
}

/// Records a parse as it runs: the repeat-offset history, the pending literal
/// run, and the statistics of every block so far, the open one last. Where it
/// is traced, also every sequence as it was found.
pub struct Recorder<'a> {
    pub chunk: &'a [u8],
    pub rep: [u32; 3],
    pub lit_start: usize,
    pub block_start: usize,
    pub blocks: Vec<ParseStats>,
    pub tracing: bool,
    pub trace: Vec<Traced>,
    /// How far back a match may reach.
    pub window: Ghost<nat>,
    pub parse: Ghost<Parse>,
}

impl<'a> Recorder<'a> {
    /// Whether the recorder holds what its parse says.
    pub open spec fn wf(&self) -> bool {
        let p = self.parse@;
        &&& self.chunk@.len() <= MAX_CHUNK
        &&& p.ok(self.chunk@)
        &&& faithful(self.chunk@, self.window@, p)
        &&& self.rep@[0] == p.rep.first
        &&& self.rep@[1] == p.rep.second
        &&& self.rep@[2] == p.rep.third
        &&& self.lit_start == p.lit_start
        &&& self.block_start == p.block_start
        &&& self.blocks@.len() == p.done.len() + 1
        &&& forall|i: int| 0 <= i < p.done.len() ==> (#[trigger] self.blocks@[i]).of(p.done[i])
        &&& self.blocks@.last().of(p.open)
        &&& self.blocks@.last().extra_bits <= 64 * p.open.sequences.len()
        &&& self.tracing ==> trace_of(self.trace@, p.steps)
    }

    /// Start recording a chunk.
    pub fn new(chunk: &'a [u8], tracing: bool, Ghost(window): Ghost<nat>) -> (res: Self)
        requires
            chunk@.len() <= MAX_CHUNK,
        ensures
            res.wf(),
            res.chunk == chunk,
            res.window@ == window,
            res.tracing == tracing,
            res.parse@ == initial_parse(),
    {
        let mut blocks: Vec<ParseStats> = Vec::new();
        blocks.push(ParseStats::new(0));
        proof {
            assert(chunk@.take(0) =~= Seq::empty());
        }
        Recorder {
            chunk,
            rep: [1, 4, 8],
            lit_start: 0,
            block_start: 0,
            blocks,
            tracing,
            trace: Vec::new(),
            window: Ghost(window),
            parse: Ghost(initial_parse()),
        }
    }

    /// Close every block that ends at or before `pos`, but for the last one
    /// of the chunk. The parse itself continues unaffected.
    pub fn close_blocks_up_to(&mut self, pos: usize)
        requires
            old(self).wf(),
            pos <= old(self).chunk@.len(),
        ensures
            final(self).wf(),
            final(self).chunk == old(self).chunk,
            final(self).window == old(self).window,
            final(self).tracing == old(self).tracing,
            final(self).rep == old(self).rep,
            final(self).parse@ == close(old(self).chunk@, old(self).parse@, pos as int),
    {
        let n: usize = self.chunk.len();
        loop
            invariant
                self.wf(),
                self.chunk == old(self).chunk,
                self.window == old(self).window,
                self.tracing == old(self).tracing,
                self.rep == old(self).rep,
                n == self.chunk@.len(),
                pos <= n,
                close(self.chunk@, self.parse@, pos as int) == close(
                    old(self).chunk@,
                    old(self).parse@,
                    pos as int,
                ),
            decreases n - self.block_start,
        {
            let boundary: usize = if self.block_start + ZSTD_BLOCK < n {
                self.block_start + ZSTD_BLOCK
            } else {
                n
            };
            if pos < boundary || boundary == n {
                return ;
            }
            let ghost p = self.parse@;
            let ghost before = self.blocks@;
            match self.blocks.pop() {
                None => {
                    return ;
                },
                Some(last) => {
                    let mut cur: ParseStats = last;
                    if self.lit_start < boundary {
                        cur.add_literals(self.chunk, self.lit_start, boundary, Ghost(p.open));
                    } else {
                        proof {
                            assert(p.open.literals + run(self.chunk@, p.lit_start, boundary as int)
                                =~= p.open.literals);
                        }
                    }
                    cur.chunk_len = boundary - self.block_start;
                    self.blocks.push(cur);
                },
            }
            if self.lit_start < boundary {
                self.lit_start = boundary;
            }
            self.block_start = boundary;
            self.blocks.push(ParseStats::new(0));
            proof {
                let q = close_one(self.chunk@, p);
                lemma_close_one_ok(self.chunk@, p);
                lemma_close_one_faithful(self.chunk@, self.window@, p);
                self.parse@ = q;
                assert(before.len() == p.done.len() + 1);
                assert forall|i: int| 0 <= i < q.done.len() implies (
                #[trigger] self.blocks@[i]).of(q.done[i]) by {
                    if i < p.done.len() {
                        assert(before[i].of(p.done[i]));
                        assert(self.blocks@[i] == before[i]);
                    }
                }
            }
        }
    }

    /// Store one sequence: literals `[lit_start, start)` plus a match of
    /// `mlen` at offset `off`. Runs the repeat-offset history and accumulates
    /// the code statistics.
    pub fn store(&mut self, start: usize, mlen: usize, off: u32)
        requires
            old(self).wf(),
            old(self).lit_start <= start,
            genuine(old(self).chunk@, start as int, mlen as nat, off as nat),
            off <= old(self).window@,
        ensures
            final(self).wf(),
            final(self).chunk == old(self).chunk,
            final(self).window == old(self).window,
            final(self).tracing == old(self).tracing,
            final(self).parse@ == store(
                old(self).chunk@,
                old(self).parse@,
                start as int,
                mlen as nat,
                off as nat,
            ),
            final(self).lit_start == start + mlen,
    {
        let ghost p = self.parse@;
        let litlen: usize = start - self.lit_start;
        let r0: u32 = self.rep[0];
        let r1: u32 = self.rep[1];
        let r2: u32 = self.rep[2];
        if self.tracing {
            self.trace.push(
                Traced { start, lit_len: litlen, match_len: mlen, offset: off, rep: [r0, r1, r2] },
            );
        }
        let value: u32;
        if litlen != 0 {
            if off == r0 {
                value = 1;
            } else if off == r1 {
                value = 2;
                self.rep = [r1, r0, r2];
            } else if off == r2 {
                value = 3;
                self.rep = [r2, r0, r1];
            } else {
                value = off + 3;
                self.rep = [off, r0, r1];
            }
        } else if off == r1 {
            value = 1;
            self.rep = [r1, r0, r2];
        } else if off == r2 {
            value = 2;
            self.rep = [r2, r0, r1];
        } else if r0 > 0 && off == r0 - 1 && off != 0 {
            value = 3;
            self.rep = [off, r0, r1];
        } else {
            value = off + 3;
            self.rep = [off, r0, r1];
        }
        let ghost before = self.blocks@;
        let ghost filled = Block {
            literals: p.open.literals + run(self.chunk@, p.lit_start, start as int),
            sequences: p.open.sequences,
            len: p.open.len,
        };
        match self.blocks.pop() {
            None => {},
            Some(last) => {
                let mut cur: ParseStats = last;
                cur.add_literals(self.chunk, self.lit_start, start, Ghost(p.open));
                cur.add_sequence(litlen as u32, mlen as u32, value, Ghost(filled));
                self.blocks.push(cur);
            },
        }
        self.lit_start = start + mlen;
        proof {
            let q = store(self.chunk@, p, start as int, mlen as nat, off as nat);
            self.parse@ = q;
            lemma_store_ok(self.chunk@, p, start as int, mlen as nat, off as nat);
            lemma_store_faithful(
                self.chunk@,
                self.window@,
                p,
                start as int,
                mlen as nat,
                off as nat,
            );
            assert forall|i: int| 0 <= i < q.done.len() implies (#[trigger] self.blocks@[i]).of(
                q.done[i],
            ) by {
                assert(before[i].of(p.done[i]));
                assert(self.blocks@[i] == before[i]);
            }
        }
    }

    /// Close the blocks that end at or before `start`, then store the
    /// sequence.
    pub fn emit(&mut self, start: usize, mlen: usize, off: u32)
        requires
            old(self).wf(),
            old(self).lit_start <= start,
            genuine(old(self).chunk@, start as int, mlen as nat, off as nat),
            off <= old(self).window@,
        ensures
            final(self).wf(),
            final(self).chunk == old(self).chunk,
            final(self).window == old(self).window,
            final(self).tracing == old(self).tracing,
            final(self).parse@ == emit(
                old(self).chunk@,
                old(self).parse@,
                start as int,
                mlen as nat,
                off as nat,
            ),
            final(self).lit_start == start + mlen,
    {
        proof {
            lemma_close_ok(self.chunk@, self.parse@, start as int);
        }
        self.close_blocks_up_to(start);
        self.store(start, mlen, off);
    }

    /// Flush trailing literals and fix block lengths at the end of the chunk.
    /// Returns the statistics of the blocks, and the trace.
    pub fn finish(self) -> (res: (Vec<ParseStats>, Vec<Traced>))
        requires
            self.wf(),
        ensures
            res.0@.len() == finish(self.chunk@, self.parse@).len(),
            forall|i: int|
                0 <= i < res.0@.len() ==> (#[trigger] res.0@[i]).of(
                    finish(self.chunk@, self.parse@)[i],
                ),
            self.tracing ==> trace_of(res.1@, self.parse@.steps),
            decode_blocks(finish(self.chunk@, self.parse@)).out == self.chunk@,
            decode_blocks(finish(self.chunk@, self.parse@)).reach <= self.window@,
    {
        proof {
            lemma_finish_faithful(self.chunk@, self.window@, self.parse@);
            lemma_close_steps(self.chunk@, self.parse@, self.chunk@.len() as int);
        }
        let mut rec = self;
        let n: usize = rec.chunk.len();
        rec.close_blocks_up_to(n);
        let ghost q = rec.parse@;
        let ghost before = rec.blocks@;
        let trace: Vec<Traced> = rec.trace;
        let mut blocks: Vec<ParseStats> = rec.blocks;
        match blocks.pop() {
            None => {},
            Some(last) => {
                let mut cur: ParseStats = last;
                cur.add_literals(rec.chunk, rec.lit_start, n, Ghost(q.open));
                cur.chunk_len = n - rec.block_start;
                blocks.push(cur);
            },
        }
        proof {
            let fin = finish(self.chunk@, self.parse@);
            assert forall|i: int| 0 <= i < blocks@.len() implies (#[trigger] blocks@[i]).of(
                fin[i],
            ) by {
                if i < q.done.len() {
                    assert(before[i].of(q.done[i]));
                    assert(blocks@[i] == before[i]);
                }
            }
        }
        (blocks, trace)
    }
}

} // verus!
