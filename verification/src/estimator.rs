//! The estimator front-end: what to sample of a source or a stream, when to
//! stop, and how the samples are put together.

use crate::assemble::joined;
use crate::sampler::{
    fewest, kept, lemma_kept_step, lemma_survivors, most, offered_slot, reads_of, seed_for,
    sum_usize, survivors, tile_count, Read, Reservoir, Sampler,
};
use crate::stats::{lemma_occurrences_bound, occurrences, Histogram};
use vstd::arithmetic::div_mod::{
    lemma_fundamental_div_mod, lemma_fundamental_div_mod_converse, lemma_mod_bound,
};
use vstd::prelude::*;
use vstd::slice::slice_subrange;

verus! {

/// Errors from estimation.
#[derive(Debug)]
pub enum Error {
    /// The source could not be read.
    Io(std::io::Error),
    /// The input is empty.
    EmptyInput,
    /// The estimator was already used in streaming mode.
    ModeConflict,
}

/// Default number of strata for seekable sampling.
pub const DEFAULT_STRATA: usize = 64;

/// Most strata for seekable sampling.
pub const MAX_STRATA: usize = 256;

/// Default sampled-chunk size.
pub const DEFAULT_CHUNK: usize = 524288;

/// Smallest sampled-chunk size.
pub const MIN_CHUNK: usize = 4096;

/// Hard bounds for the adaptive sampling budget.
pub const MIN_BUDGET: u64 = 8388608;

pub const MAX_BUDGET: u64 = 67108864;

/// How much of a stream's prefix is retained (span fallback + short streams).
pub const STREAM_PREFIX_CAP: usize = 8388608;

/// How much of a stream's tail is retained: the anchor span for long streams,
/// since the tail is mature, representative data while the prefix holds the
/// cold-start region (headers, atypical beginnings).
pub const STREAM_TAIL_CAP: usize = 33554432;

/// Fewest chunks that a stream's reservoir keeps.
pub const MIN_RESERVOIR: usize = 8;

/// The full chunks of a stream.
pub open spec fn full_chunks(s: Seq<u8>, chunk: nat) -> Seq<Seq<u8>> {
    Seq::new(s.len() / chunk, |i: int| s.subrange(i * chunk, (i + 1) * chunk))
}

/// What is left of a stream behind its full chunks.
pub open spec fn unfinished(s: Seq<u8>, chunk: nat) -> Seq<u8> {
    s.skip(((s.len() / chunk) * chunk) as int)
}

/// Split more of a stream into chunks: those that were offered so far, and
/// what is pending behind them. What is pending is offered once it fills a
/// chunk.
pub open spec fn chop(
    offered: Seq<Seq<u8>>,
    pending: Seq<u8>,
    rest: Seq<u8>,
    chunk: nat,
) -> (Seq<Seq<u8>>, Seq<u8>)
    decreases rest.len(), pending.len(),
{
    if rest.len() == 0 || chunk == 0 || pending.len() > chunk {
        (offered, pending)
    } else {
        let take = fewest((chunk - pending.len()) as nat, rest.len()) as int;
        let grown = pending + rest.take(take);
        if grown.len() == chunk {
            chop(offered.push(grown), Seq::empty(), rest.skip(take), chunk)
        } else {
            chop(offered, grown, rest.skip(take), chunk)
        }
    }
}

/// All chunks of a stream: those that were offered, and what is pending behind
/// them.
pub open spec fn all_chunks(offered: Seq<Seq<u8>>, pending: Seq<u8>) -> Seq<Seq<u8>> {
    if pending.len() == 0 {
        offered
    } else {
        offered.push(pending)
    }
}

/// The span of a stream for anchor calibration: its tail, if that holds more
/// than the prefix; otherwise the prefix, which for short streams is the whole
/// input.
pub open spec fn stream_span(s: Seq<u8>) -> Seq<u8> {
    if s.len() <= STREAM_PREFIX_CAP {
        s
    } else {
        s.skip(s.len() - fewest(s.len(), STREAM_TAIL_CAP as nat))
    }
}

/// Whether a reservoir holds what it keeps of some items.
pub open spec fn holds(r: Reservoir<Vec<u8>>, items: Seq<Seq<u8>>) -> bool {
    &&& r.wf()
    &&& r.seen == items.len()
    &&& r.slots@.len() == kept(r.cap as nat, items).len()
    &&& forall|i: int|
        0 <= i < r.slots@.len() ==> (#[trigger] r.slots@[i])@ == kept(r.cap as nat, items)[i]
    &&& r.rng.0 == survivors(r.cap as nat, items.len()).1
}

/// What is retained of a stream.
pub struct StreamState {
    pub reservoir: Reservoir<Vec<u8>>,
    pub pending: Vec<u8>,
    /// Retained stream prefix: span for short streams, fallback otherwise.
    pub prefix: Vec<u8>,
    /// Retained stream tail: the anchor span for long streams, since it is
    /// mature, representative data. It may reach back further than the span
    /// does.
    pub tail: Vec<u8>,
    pub hist: Histogram,
    pub total: u64,
    /// All bytes of the stream so far.
    pub seen: Ghost<Seq<u8>>,
    /// All chunks that the reservoir was offered so far.
    pub offered: Ghost<Seq<Seq<u8>>>,
}

impl StreamState {
    /// Whether this is what is retained of the stream: the histogram and the
    /// length of all bytes, the prefix, at least as much of the tail as is
    /// wanted, what the reservoir keeps of the chunks it was offered, and the
    /// bytes behind those.
    pub open spec fn wf(&self) -> bool {
        let s = self.seen@;
        &&& self.hist.of(s)
        &&& self.total == s.len()
        &&& self.prefix@ == s.take(fewest(s.len(), STREAM_PREFIX_CAP as nat) as int)
        &&& fewest(s.len(), STREAM_TAIL_CAP as nat) <= self.tail@.len() <= fewest(
            s.len(),
            2 * STREAM_TAIL_CAP as nat,
        )
        &&& self.tail@ == s.skip(s.len() - self.tail@.len())
        &&& self.chunked(s)
    }

    /// Whether the chunks that were offered, and what is pending behind them,
    /// make up a stream.
    pub open spec fn chunked(&self, s: Seq<u8>) -> bool {
        &&& joined(self.offered@) + self.pending@ == s
        &&& self.offered@.len() <= joined(self.offered@).len()
        &&& holds(self.reservoir, self.offered@)
    }

    /// Whether all chunks that were offered are of the same length, with less
    /// than that pending.
    pub open spec fn even(&self, chunk: nat) -> bool {
        &&& self.offered@ == full_chunks(self.seen@, chunk)
        &&& self.pending@ == unfinished(self.seen@, chunk)
    }
}

/// Append bytes.
fn extend(v: &mut Vec<u8>, part: &[u8])
    ensures
        final(v)@ == old(v)@ + part@,
{
    v.extend_from_slice(part);
    assert(v@ =~= old(v)@ + part@);
}

/// Offering a reservoir one more item.
fn offer_chunk(r: &mut Reservoir<Vec<u8>>, item: Vec<u8>, Ghost(items): Ghost<Seq<Seq<u8>>>)
    requires
        holds(*old(r), items),
        items.len() < u64::MAX,
    ensures
        holds(*final(r), items.push(item@)),
        final(r).cap == old(r).cap,
{
    let ghost before = r.slots@;
    r.offer(item);
    proof {
        let cap = r.cap as nat;
        let now = items.push(item@);
        lemma_kept_step(cap, items, item@);
        lemma_survivors(cap, items.len());
        assert forall|i: int| 0 <= i < r.slots@.len() implies (#[trigger] r.slots@[i])@ == kept(
            cap,
            now,
        )[i] by {
            if i < before.len() {
                assert(before[i]@ == kept(cap, items)[i]);
            }
        }
    }
}

/// Adding a chunk to those that were offered.
proof fn lemma_joined_push(chunks: Seq<Seq<u8>>, chunk: Seq<u8>)
    ensures
        joined(chunks.push(chunk)) == joined(chunks) + chunk,
{
    assert(chunks.push(chunk).drop_last() =~= chunks);
}

/// However a stream of even chunks goes on, its chunks stay even.
pub proof fn lemma_chop_even(s: Seq<u8>, rest: Seq<u8>, chunk: nat)
    requires
        chunk >= 1,
    ensures
        chop(full_chunks(s, chunk), unfinished(s, chunk), rest, chunk) == (
            full_chunks(s + rest, chunk),
            unfinished(s + rest, chunk),
        ),
    decreases rest.len(),
{
    if rest.len() == 0 {
        assert(s + rest =~= s);
    } else {
        lemma_rest_is_short(s, chunk);
        let pending = unfinished(s, chunk);
        let take = fewest((chunk - pending.len()) as nat, rest.len()) as int;
        let part = rest.take(take);
        lemma_chunks_grow(s, part, chunk);
        lemma_chop_even(s + part, rest.skip(take), chunk);
        assert(s + part + rest.skip(take) =~= s + rest);
        if pending.len() + take == chunk {
            assert(unfinished(s + part, chunk) =~= Seq::<u8>::empty());
        }
    }
}

proof fn lemma_chunk_within(i: int, q: int, c: int)
    by (nonlinear_arith)
    requires
        0 <= i < q,
        c >= 1,
    ensures
        0 <= i * c <= (i + 1) * c <= q * c,
{
}

/// Where a stream's chunks end as it grows by less than a chunk.
proof fn lemma_chunks_grow(s: Seq<u8>, part: Seq<u8>, chunk: nat)
    requires
        chunk >= 1,
        unfinished(s, chunk).len() + part.len() <= chunk,
    ensures
        unfinished(s, chunk).len() == s.len() % chunk,
        unfinished(s, chunk).len() < chunk,
        unfinished(s, chunk).len() + part.len() < chunk ==> {
            &&& full_chunks(s + part, chunk) == full_chunks(s, chunk)
            &&& unfinished(s + part, chunk) == unfinished(s, chunk) + part
        },
        unfinished(s, chunk).len() + part.len() == chunk ==> {
            &&& full_chunks(s + part, chunk) == full_chunks(s, chunk).push(
                unfinished(s, chunk) + part,
            )
            &&& unfinished(s + part, chunk).len() == 0
        },
{
    let q = (s.len() / chunk) as int;
    let r = (s.len() % chunk) as int;
    let c = chunk as int;
    lemma_fundamental_div_mod(s.len() as int, c);
    lemma_mod_bound(s.len() as int, c);
    assert(q * c == c * q) by (nonlinear_arith);
    assert(0 <= q * c) by (nonlinear_arith)
        requires
            q >= 0,
            c >= 1,
    ;
    assert(unfinished(s, chunk).len() == r);
    let t = s + part;
    if r + part.len() < c {
        lemma_fundamental_div_mod_converse(t.len() as int, c, q, r + part.len());
        assert(full_chunks(t, chunk) =~= full_chunks(s, chunk)) by {
            assert forall|i: int| 0 <= i < q implies #[trigger] full_chunks(t, chunk)[i]
                == full_chunks(s, chunk)[i] by {
                lemma_chunk_within(i, q, c);
                assert(t.subrange(i * c, (i + 1) * c) =~= s.subrange(i * c, (i + 1) * c));
            }
        }
        assert(unfinished(t, chunk) =~= unfinished(s, chunk) + part);
    } else {
        assert((q + 1) * c == q * c + c) by (nonlinear_arith);
        lemma_fundamental_div_mod_converse(t.len() as int, c, q + 1, 0);
        let grown = full_chunks(s, chunk).push(unfinished(s, chunk) + part);
        assert(full_chunks(t, chunk) =~= grown) by {
            assert forall|i: int| 0 <= i < q + 1 implies #[trigger] full_chunks(t, chunk)[i]
                == grown[i] by {
                if i < q {
                    lemma_chunk_within(i, q, c);
                    assert(t.subrange(i * c, (i + 1) * c) =~= s.subrange(i * c, (i + 1) * c));
                } else {
                    assert(t.subrange(q * c, (q + 1) * c) =~= unfinished(s, chunk) + part);
                }
            }
        }
    }
}

/// Splitting a stream into chunks part by part is splitting it at once.
pub proof fn lemma_chop_join(
    offered: Seq<Seq<u8>>,
    pending: Seq<u8>,
    a: Seq<u8>,
    b: Seq<u8>,
    chunk: nat,
)
    requires
        chunk >= 1,
        pending.len() <= chunk,
    ensures
        ({
            let (mid, left) = chop(offered, pending, a, chunk);
            chop(mid, left, b, chunk) == chop(offered, pending, a + b, chunk)
        }),
    decreases a.len(), pending.len(),
{
    let whole = a + b;
    if a.len() == 0 {
        assert(whole =~= b);
    } else {
        let room = (chunk - pending.len()) as nat;
        if room <= a.len() {
            let grown = pending + a.take(room as int);
            assert(whole.take(room as int) =~= a.take(room as int));
            assert(whole.skip(room as int) =~= a.skip(room as int) + b);
            lemma_chop_join(
                offered.push(grown),
                Seq::empty(),
                a.skip(room as int),
                b,
                chunk,
            );
        } else {
            let grown = pending + a;
            assert(a.take(a.len() as int) =~= a);
            assert(a.skip(a.len() as int) =~= Seq::<u8>::empty());
            assert(chop(offered, grown, a.skip(a.len() as int), chunk) == (offered, grown));
            assert(chop(offered, pending, a, chunk) == (offered, grown));
            if b.len() == 0 {
                assert(whole =~= a);
            } else {
                let more = fewest((chunk - grown.len()) as nat, b.len()) as int;
                let take = a.len() + more;
                assert(take == fewest(room, whole.len()));
                assert(pending + whole.take(take) =~= grown + b.take(more));
                assert(whole.skip(take) =~= b.skip(more));
            }
        }
    }
}

/// How a stream is cut into updates does not matter: two updates lead to the
/// same chunks, and to the same sample, as one with all the bytes.
pub proof fn lemma_updates_join(
    start: Estimator,
    mid: Estimator,
    cut: Estimator,
    whole: Estimator,
    a: Seq<u8>,
    b: Seq<u8>,
    x: StreamSample,
    y: StreamSample,
)
    requires
        start.wf(),
        start.pending().len() <= start.chunk_size,
        start.updated(a, mid),
        mid.updated(b, cut),
        start.updated(a + b, whole),
        cut.finished(x),
        whole.finished(y),
    ensures
        cut.fed() == whole.fed(),
        cut.offered() == whole.offered(),
        cut.pending() == whole.pending(),
        cut == (Estimator { stream: cut.stream, ..whole }),
        x.total == y.total,
        x.hist.total == y.hist.total,
        x.hist.counts@ == y.hist.counts@,
        x.chunks@.len() == y.chunks@.len(),
        forall|i: int|
            0 <= i < x.chunks@.len() ==> (#[trigger] x.chunks@[i])@ == y.chunks@[i]@,
        x.reads@ == y.reads@,
        x.sampler.total_len == y.sampler.total_len,
        x.span is Some == y.span is Some,
        x.span is Some ==> x.span->0@ == y.span->0@,
{
    lemma_chop_join(start.offered(), start.pending(), a, b, start.chunk_size as nat);
    assert(start.fed() + a + b =~= start.fed() + (a + b));
    let s = whole.fed();
    assert forall|i: int| 0 <= i < 256 implies x.hist.counts@[i] == y.hist.counts@[i] by {
        assert(x.hist.counts@[i as u8 as int] == occurrences(s, i as u8));
        assert(y.hist.counts@[i as u8 as int] == occurrences(s, i as u8));
    }
    assert(x.hist.counts@ =~= y.hist.counts@);
    assert(cut.stream->0.reservoir.cap == whole.stream->0.reservoir.cap);
    let chunks = kept(
        whole.stream->0.reservoir.cap as nat,
        all_chunks(whole.offered(), whole.pending()),
    );
    assert forall|i: int| 0 <= i < x.chunks@.len() implies (#[trigger] x.chunks@[i])@
        == y.chunks@[i]@ by {
        assert(y.chunks@[i]@ == chunks[i]);
    }
    assert forall|i: int| 0 <= i < x.reads@.len() implies #[trigger] x.reads@[i] == y.reads@[i] by {
        assert(x.chunks@[i]@ == chunks[i]);
        assert(y.chunks@[i]@ == chunks[i]);
    }
    assert(x.reads@ =~= y.reads@);
}

/// Nothing is retained of a stream that has not begun.
proof fn lemma_no_chunks(chunk: nat)
    requires
        chunk >= 1,
    ensures
        full_chunks(Seq::empty(), chunk) == Seq::<Seq<u8>>::empty(),
        unfinished(Seq::empty(), chunk) == Seq::<u8>::empty(),
{
    lemma_fundamental_div_mod_converse(0, chunk as int, 0, 0);
    assert(0 * (chunk as int) == 0) by (nonlinear_arith);
    assert(full_chunks(Seq::empty(), chunk) =~= Seq::<Seq<u8>>::empty());
    assert(unfinished(Seq::empty(), chunk) =~= Seq::<u8>::empty());
}

impl StreamState {
    /// What is retained of a stream that has not begun.
    fn new(cap: usize) -> (res: Self)
        ensures
            res.wf(),
            res.seen@ == Seq::<u8>::empty(),
            res.offered@ == Seq::<Seq<u8>>::empty(),
            res.pending@ == Seq::<u8>::empty(),
            res.reservoir.cap == cap,
    {
        proof {
            assert(Seq::<u8>::empty().take(0) =~= Seq::<u8>::empty());
            assert(Seq::<u8>::empty().skip(0) =~= Seq::<u8>::empty());
            assert(joined(Seq::empty()) + Seq::<u8>::empty() =~= Seq::<u8>::empty());
            assert(kept(cap as nat, Seq::<Seq<u8>>::empty()) =~= Seq::empty());
        }
        StreamState {
            reservoir: Reservoir::new(cap),
            pending: Vec::new(),
            prefix: Vec::new(),
            tail: Vec::new(),
            hist: Histogram::default(),
            total: 0,
            seen: Ghost(Seq::empty()),
            offered: Ghost(Seq::empty()),
        }
    }

    /// Take in more of the stream.
    fn feed(&mut self, bytes: &[u8], chunk: usize)
        requires
            old(self).wf(),
            chunk >= 1,
            old(self).pending@.len() <= chunk,
            old(self).total + bytes@.len() <= u64::MAX,
        ensures
            final(self).wf(),
            final(self).seen@ == old(self).seen@ + bytes@,
            (final(self).offered@, final(self).pending@) == chop(
                old(self).offered@,
                old(self).pending@,
                bytes@,
                chunk as nat,
            ),
            final(self).pending@.len() <= chunk,
            bytes@.len() > 0 ==> final(self).pending@.len() < chunk,
            final(self).reservoir.cap == old(self).reservoir.cap,
    {
        let ghost s = self.seen@;
        let ghost t = s + bytes@;
        let n: usize = bytes.len();
        proof {
            assert forall|b: u8| #[trigger] self.hist.counts@[b as int] + occurrences(bytes@, b)
                <= u64::MAX by {
                lemma_occurrences_bound(s, b);
                lemma_occurrences_bound(bytes@, b);
            }
        }
        self.hist.add(bytes);
        self.total = self.total + n as u64;
        if self.prefix.len() < STREAM_PREFIX_CAP {
            let room: usize = STREAM_PREFIX_CAP - self.prefix.len();
            let take: usize = if room < n {
                room
            } else {
                n
            };
            extend(&mut self.prefix, slice_subrange(bytes, 0, take));
        }
        proof {
            assert(self.prefix@ =~= t.take(fewest(t.len(), STREAM_PREFIX_CAP as nat) as int));
        }
        // Amortized trailing window: grow, then halve when over 2x the cap.
        extend(&mut self.tail, bytes);
        proof {
            assert(self.tail@ =~= t.skip(t.len() - self.tail@.len()));
        }
        if self.tail.len() > 2 * STREAM_TAIL_CAP {
            let excess: usize = self.tail.len() - STREAM_TAIL_CAP;
            self.tail = self.tail.split_off(excess);
            proof {
                assert(self.tail@ =~= t.skip(t.len() - self.tail@.len()));
            }
        }
        self.split(bytes, chunk, Ghost(s));
        self.seen = Ghost(t);
    }

    /// Split more of the stream into chunks, and offer each to the reservoir.
    fn split(&mut self, bytes: &[u8], chunk: usize, Ghost(s): Ghost<Seq<u8>>)
        requires
            chunk >= 1,
            s.len() + bytes@.len() <= u64::MAX,
            old(self).pending@.len() <= chunk,
            old(self).chunked(s),
        ensures
            final(self).chunked(s + bytes@),
            (final(self).offered@, final(self).pending@) == chop(
                old(self).offered@,
                old(self).pending@,
                bytes@,
                chunk as nat,
            ),
            final(self).pending@.len() <= chunk,
            bytes@.len() > 0 ==> final(self).pending@.len() < chunk,
            final(self).reservoir.cap == old(self).reservoir.cap,
            final(self).hist == old(self).hist,
            final(self).total == old(self).total,
            final(self).prefix == old(self).prefix,
            final(self).tail == old(self).tail,
            final(self).seen == old(self).seen,
    {
        let n: usize = bytes.len();
        let mut done: usize = 0;
        proof {
            assert(s + bytes@.take(0) =~= s);
            assert(bytes@.skip(0) =~= bytes@);
        }
        while done < n
            invariant
                chunk >= 1,
                n == bytes@.len(),
                done <= n,
                s.len() + n <= u64::MAX,
                self.chunked(s + bytes@.take(done as int)),
                chop(
                    self.offered@,
                    self.pending@,
                    bytes@.skip(done as int),
                    chunk as nat,
                ) == chop(old(self).offered@, old(self).pending@, bytes@, chunk as nat),
                self.pending@.len() <= chunk,
                done > 0 ==> self.pending@.len() < chunk,
                self.reservoir.cap == old(self).reservoir.cap,
                self.hist == old(self).hist,
                self.total == old(self).total,
                self.prefix == old(self).prefix,
                self.tail == old(self).tail,
                self.seen == old(self).seen,
            decreases n - done, self.pending@.len(),
        {
            let ghost now = s + bytes@.take(done as int);
            let ghost pending = self.pending@;
            let ghost offered = self.offered@;
            let want: usize = chunk - self.pending.len();
            let left: usize = n - done;
            let take: usize = if want < left {
                want
            } else {
                left
            };
            let part = slice_subrange(bytes, done, done + take);
            extend(&mut self.pending, part);
            proof {
                assert(now + part@ =~= s + bytes@.take(done + take));
                assert(part@ =~= bytes@.skip(done as int).take(take as int));
                assert(bytes@.skip(done as int).skip(take as int) =~= bytes@.skip(done + take));
                assert(joined(offered) + (pending + part@) =~= now + part@);
                assert(joined(offered).len() + pending.len() + take <= u64::MAX);
            }
            if self.pending.len() == chunk {
                let mut full: Vec<u8> = Vec::new();
                std::mem::swap(&mut full, &mut self.pending);
                proof {
                    lemma_joined_push(offered, full@);
                    assert(self.pending@ =~= Seq::<u8>::empty());
                    assert(joined(offered) + full@ + self.pending@ =~= now + part@);
                }
                offer_chunk(&mut self.reservoir, full, Ghost(offered));
                self.offered = Ghost(offered.push(full@));
            }
            done = done + take;
        }
        proof {
            assert(bytes@.take(n as int) =~= bytes@);
        }
    }
}

/// What is left behind the full chunks is less than a chunk.
proof fn lemma_rest_is_short(s: Seq<u8>, chunk: nat)
    requires
        chunk >= 1,
    ensures
        unfinished(s, chunk).len() == s.len() % chunk,
        unfinished(s, chunk).len() < chunk,
{
    let q = (s.len() / chunk) as int;
    lemma_fundamental_div_mod(s.len() as int, chunk as int);
    lemma_mod_bound(s.len() as int, chunk as int);
    assert(q * chunk == chunk * q) by (nonlinear_arith);
    assert(0 <= q * chunk) by (nonlinear_arith)
        requires
            q >= 0,
            chunk >= 1,
    ;
}

/// Two views of the same stream, in chunks of the same length, retain the same,
/// however it was fed; only the tail may reach back further in one of them.
pub proof fn lemma_stream_state(a: StreamState, b: StreamState, chunk: nat)
    requires
        a.wf(),
        b.wf(),
        a.even(chunk),
        b.even(chunk),
        a.reservoir.cap == b.reservoir.cap,
        a.seen@ == b.seen@,
        a.tail@.len() <= b.tail@.len(),
    ensures
        a.total == b.total,
        a.hist.total == b.hist.total,
        a.hist.counts@ == b.hist.counts@,
        a.prefix@ == b.prefix@,
        a.pending@ == b.pending@,
        a.reservoir.seen == b.reservoir.seen,
        a.reservoir.slots@.len() == b.reservoir.slots@.len(),
        forall|i: int|
            0 <= i < a.reservoir.slots@.len() ==> (#[trigger] a.reservoir.slots@[i])@
                == b.reservoir.slots@[i]@,
        a.tail@ == b.tail@.skip(b.tail@.len() - a.tail@.len()),
{
    let s = a.seen@;
    let cap = a.reservoir.cap as nat;
    assert forall|i: int| 0 <= i < 256 implies a.hist.counts@[i] == b.hist.counts@[i] by {
        assert(a.hist.counts@[i as u8 as int] == occurrences(s, i as u8));
        assert(b.hist.counts@[i as u8 as int] == occurrences(s, i as u8));
    }
    assert(a.hist.counts@ =~= b.hist.counts@);
    assert forall|i: int| 0 <= i < a.reservoir.slots@.len() implies (
    #[trigger] a.reservoir.slots@[i])@ == b.reservoir.slots@[i]@ by {
        assert(b.reservoir.slots@[i]@ == kept(cap, full_chunks(s, chunk))[i]);
    }
    assert(a.tail@ =~= b.tail@.skip(b.tail@.len() - a.tail@.len()));
}

/// A reservoir keeps no more bytes than it was offered.
pub proof fn lemma_kept_bytes(cap: nat, items: Seq<Seq<u8>>)
    ensures
        joined(kept(cap, items)).len() <= joined(items).len(),
    decreases items.len(),
{
    if items.len() == 0 {
        assert(kept(cap, items) =~= Seq::empty());
    } else {
        let front = items.drop_last();
        let slots = kept(cap, front);
        let item = items.last();
        assert(front.push(item) =~= items);
        lemma_kept_bytes(cap, front);
        lemma_kept_step(cap, front, item);
        if front.len() < cap {
            lemma_joined_push(slots, item);
        } else if cap > 0 {
            let j = offered_slot(survivors(cap, front.len()).1, items.len() as u64);
            if j < cap {
                lemma_joined_update(slots, j as int, item);
            }
        }
    }
}

proof fn lemma_joined_update(chunks: Seq<Seq<u8>>, j: int, chunk: Seq<u8>)
    requires
        0 <= j < chunks.len(),
    ensures
        joined(chunks.update(j, chunk)).len() == joined(chunks).len() - chunks[j].len()
            + chunk.len(),
    decreases chunks.len(),
{
    let now = chunks.update(j, chunk);
    if j == chunks.len() - 1 {
        assert(now.drop_last() =~= chunks.drop_last());
    } else {
        lemma_joined_update(chunks.drop_last(), j, chunk);
        assert(now.drop_last() =~= chunks.drop_last().update(j, chunk));
    }
}

/// What a finished stream gives: the chunks that were kept, a sampler that
/// weights each by its length, one read per chunk, the length and the
/// histogram of the whole stream, and the span for anchor calibration.
pub struct StreamSample {
    pub chunks: Vec<Vec<u8>>,
    pub sampler: Sampler,
    pub reads: Vec<Read>,
    pub total: u64,
    pub hist: Histogram,
    pub span: Option<Vec<u8>>,
}

impl StreamSample {
    /// The part of the span that calibration wants: `wanted` bytes, or all that
    /// were retained. None when anchoring is off or no span is wanted.
    pub fn span_for(&self, wanted: usize) -> (res: Option<&[u8]>)
        ensures
            match res {
                Some(part) => {
                    &&& wanted > 0
                    &&& self.span matches Some(span)
                    &&& part@ == span@.take(fewest(wanted as nat, span@.len()) as int)
                },
                None => wanted == 0 || self.span is None,
            },
    {
        match &self.span {
            None => None,
            Some(span) => {
                if wanted == 0 {
                    return None;
                }
                let len: usize = if wanted < span.len() {
                    wanted
                } else {
                    span.len()
                };
                let part = slice_subrange(span.as_slice(), 0, len);
                assert(part@ =~= span@.take(len as int));
                Some(part)
            },
        }
    }
}

/// A survey of a seekable source in progress.
pub struct Survey {
    pub sampler: Sampler,
    /// Whether the whole source is read.
    pub covering: bool,
}

impl Survey {
    /// Whether no more is to be read after a round: everything was, the
    /// estimate converged, or the budget is exhausted.
    pub fn is_over(&self, precise: bool) -> (res: bool)
        ensures
            res == (self.covering || ((forall|s: int|
                0 <= s < self.sampler.strata@.len() ==> (
                #[trigger] self.sampler.strata@[s]).count > 0) && self.sampler.sampled_total >= 2
                * self.sampler.strata@.len() && precise) || self.sampler.sampled_total
                >= self.sampler.chunk_budget),
    {
        self.covering || self.sampler.converged(precise) || self.sampler.budget_exhausted()
    }
}

/// The estimator front-end. Plans the sampling of a source, or retains what
/// is needed of a stream.
pub struct Estimator {
    /// Worker threads for sampling and analysis (0 = all cores).
    pub threads: usize,
    /// Total sampling budget in bytes.
    pub budget: Option<u64>,
    pub chunk_size: usize,
    pub n_strata: usize,
    /// Whether real compression may calibrate the estimate.
    pub anchor: bool,
    pub stream: Option<StreamState>,
}

impl Default for Estimator {
    /// An estimator with default settings.
    fn default() -> (res: Self)
        ensures
            res.wf(),
            res == (Estimator {
                threads: 0,
                budget: None,
                chunk_size: DEFAULT_CHUNK,
                n_strata: DEFAULT_STRATA,
                anchor: true,
                stream: None,
            }),
    {
        Self::new()
    }
}

impl Estimator {
    /// Whether the settings are in range, and what is retained of the stream
    /// is what should be.
    pub open spec fn wf(&self) -> bool {
        &&& self.chunk_size >= MIN_CHUNK
        &&& 1 <= self.n_strata <= MAX_STRATA
        &&& self.stream matches Some(st) ==> st.wf()
    }

    /// The bytes that were fed so far.
    pub open spec fn fed(&self) -> Seq<u8> {
        match self.stream {
            Some(st) => st.seen@,
            None => Seq::empty(),
        }
    }

    /// The chunks of the stream that were offered so far.
    pub open spec fn offered(&self) -> Seq<Seq<u8>> {
        match self.stream {
            Some(st) => st.offered@,
            None => Seq::empty(),
        }
    }

    /// The bytes of the stream behind those chunks.
    pub open spec fn pending(&self) -> Seq<u8> {
        match self.stream {
            Some(st) => st.pending@,
            None => Seq::empty(),
        }
    }

    /// Whether the stream was split into chunks of the current size.
    pub open spec fn even(&self) -> bool {
        self.stream matches Some(st) ==> st.even(self.chunk_size as nat)
    }

    /// Whether feeding some bytes leads to the estimator `after`: the bytes are
    /// added to the stream and split into chunks; the settings stay, and so
    /// does the reservoir's capacity once the stream has begun.
    pub open spec fn updated(&self, bytes: Seq<u8>, after: Self) -> bool {
        &&& after.wf()
        &&& after.stream is Some
        &&& after.fed() == self.fed() + bytes
        &&& (after.offered(), after.pending()) == chop(
            self.offered(),
            self.pending(),
            bytes,
            self.chunk_size as nat,
        )
        &&& after.pending().len() <= after.chunk_size
        &&& after == (Estimator { stream: after.stream, ..*self })
        &&& after.stream->0.reservoir.cap == match self.stream {
            Some(st) => st.reservoir.cap as nat,
            None => self.reservoir_cap(),
        }
    }

    /// Whether a sample is what the stream gives when it is finished.
    pub open spec fn finished(&self, sample: StreamSample) -> bool {
        let items = all_chunks(self.offered(), self.pending());
        let chunks = kept(self.stream->0.reservoir.cap as nat, items);
        &&& self.fed().len() > 0
        &&& sample.total == self.fed().len()
        &&& sample.hist.of(self.fed())
        &&& joined(items) == self.fed()
        &&& self.even() ==> items == all_chunks(
            full_chunks(self.fed(), self.chunk_size as nat),
            unfinished(self.fed(), self.chunk_size as nat),
        )
        &&& sample.chunks@.len() == chunks.len()
        &&& sample.sampler.wf()
        &&& sample.sampler.chunk_size == self.chunk_size
        &&& sample.sampler.total_len == joined(chunks).len()
        &&& sample.sampler.strata@.len() == chunks.len()
        &&& sample.reads@.len() == chunks.len()
        &&& forall|i: int|
            0 <= i < chunks.len() ==> {
                &&& (#[trigger] sample.chunks@[i])@ == chunks[i]
                &&& sample.sampler.strata@[i].start == 0
                &&& sample.sampler.strata@[i].len == chunks[i].len()
                &&& sample.reads@[i].stratum == i
                &&& sample.reads@[i].offset == 0
                &&& sample.reads@[i].len == chunks[i].len()
            }
        &&& match sample.span {
            Some(span) => self.anchor && span@ == stream_span(self.fed()),
            None => !self.anchor,
        }
    }

    /// The sampling budget for a source of `total` bytes: the one that was
    /// set, else about a 1024th, within 8 to 64 MiB.
    pub open spec fn budget_of(&self, total: u64) -> u64 {
        match self.budget {
            Some(bytes) => bytes,
            None => if total / 1024 < MIN_BUDGET {
                MIN_BUDGET
            } else if total / 1024 > MAX_BUDGET {
                MAX_BUDGET
            } else {
                total / 1024
            },
        }
    }

    /// How many chunks of a stream are kept: as many as the budget holds (and
    /// memory can address), at least 8.
    pub open spec fn reservoir_cap(&self) -> nat {
        let budget = match self.budget {
            Some(bytes) => bytes,
            None => MAX_BUDGET,
        };
        let chunks = if budget as nat % self.chunk_size as nat == 0 {
            budget as nat / self.chunk_size as nat
        } else {
            budget as nat / self.chunk_size as nat + 1
        };
        most(fewest(chunks, usize::MAX as nat), MIN_RESERVOIR as nat)
    }

    /// An estimator with default settings.
    pub fn new() -> (res: Self)
        ensures
            res.wf(),
            res == (Estimator {
                threads: 0,
                budget: None,
                chunk_size: DEFAULT_CHUNK,
                n_strata: DEFAULT_STRATA,
                anchor: true,
                stream: None,
            }),
    {
        Estimator {
            threads: 0,
            budget: None,
            chunk_size: DEFAULT_CHUNK,
            n_strata: DEFAULT_STRATA,
            anchor: true,
            stream: None,
        }
    }

    /// Worker threads for sampling/analysis (0 = all cores).
    pub fn threads(self, n: usize) -> (res: Self)
        ensures
            res == (Estimator { threads: n, ..self }),
            self.wf() ==> res.wf(),
    {
        let mut res = self;
        res.threads = n;
        res
    }

    /// Total sampling budget in bytes (default: about a 1024th of the size,
    /// clamped to 8 to 64 MiB).
    pub fn budget(self, bytes: u64) -> (res: Self)
        ensures
            res == (Estimator { budget: Some(bytes), ..self }),
            self.wf() ==> res.wf(),
    {
        let mut res = self;
        res.budget = Some(bytes);
        res
    }

    /// Sampled chunk size (default 512 KiB, at least 4 KiB).
    pub fn chunk_size(self, bytes: usize) -> (res: Self)
        ensures
            res == (Estimator {
                chunk_size: most(bytes as nat, MIN_CHUNK as nat) as usize,
                ..self
            }),
            self.wf() ==> res.wf(),
    {
        let mut res = self;
        res.chunk_size = if bytes < MIN_CHUNK {
            MIN_CHUNK
        } else {
            bytes
        };
        res
    }

    /// Number of strata for seekable sampling (default 64, 1 to 256).
    pub fn strata(self, n: usize) -> (res: Self)
        ensures
            res == (Estimator {
                n_strata: most(fewest(n as nat, MAX_STRATA as nat), 1) as usize,
                ..self
            }),
            self.wf() ==> res.wf(),
    {
        let mut res = self;
        res.n_strata = if n < 1 {
            1
        } else if n > MAX_STRATA {
            MAX_STRATA
        } else {
            n
        };
        res
    }

    /// Enable/disable real-compression anchor calibration (default on).
    pub fn anchor(self, on: bool) -> (res: Self)
        ensures
            res == (Estimator { anchor: on, ..self }),
            self.wf() ==> res.wf(),
    {
        let mut res = self;
        res.anchor = on;
        res
    }

    /// The sampling budget for a source of `total` bytes.
    pub fn budget_for(&self, total: u64) -> (res: u64)
        ensures
            res == self.budget_of(total),
    {
        match self.budget {
            Some(bytes) => bytes,
            None => {
                let share: u64 = total / 1024;
                if share < MIN_BUDGET {
                    MIN_BUDGET
                } else if share > MAX_BUDGET {
                    MAX_BUDGET
                } else {
                    share
                }
            },
        }
    }

    /// Begin to estimate from a seekable source of `total` bytes: the plan,
    /// and the first round of reads. Inputs that fit the budget are covered
    /// exactly, by tiling chunks; others are sampled, one chunk per stratum
    /// first.
    pub fn survey(&self, total: u64) -> (res: Result<(Survey, Vec<Read>), Error>)
        requires
            self.wf(),
            self.budget_of(total) <= usize::MAX,
        ensures
            match res {
                Err(Error::ModeConflict) => self.stream is Some,
                Err(Error::EmptyInput) => self.stream is None && total == 0,
                Err(Error::Io(_)) => false,
                Ok((survey, reads)) => {
                    let sampler = survey.sampler;
                    &&& self.stream is None
                    &&& total > 0
                    &&& sampler.wf()
                    &&& survey.covering == (total <= self.budget_of(total))
                    &&& survey.covering ==> {
                        &&& sampler.is_cover(total, self.chunk_size)
                        &&& sampler.rng.0 == seed_for(total)
                        &&& reads@ == Seq::new(
                            sampler.strata@.len(),
                            |s: int|
                                Read {
                                    stratum: s as usize,
                                    offset: sampler.strata@[s].start,
                                    len: sampler.strata@[s].len as usize,
                                },
                        )
                    }
                    &&& !survey.covering ==> {
                        &&& sampler.is_plan(
                            total,
                            self.budget_of(total),
                            self.chunk_size,
                            self.n_strata,
                        )
                        &&& (reads@, sampler.rng.0) == reads_of(
                            sampler.strata@,
                            self.chunk_size as nat,
                            Seq::new(sampler.strata@.len(), |s: int| s),
                            seed_for(total),
                        )
                    }
                },
            },
    {
        if self.stream.is_some() {
            return Err(Error::ModeConflict);
        }
        if total == 0 {
            return Err(Error::EmptyInput);
        }
        let budget: u64 = self.budget_for(total);
        if total <= budget {
            proof {
                lemma_tiles_fit(total as nat, self.chunk_size as nat);
            }
            let mut sampler = Sampler::cover(total, self.chunk_size);
            let reads: Vec<Read> = sampler.cover_reads();
            proof {
                assert(reads@ =~= Seq::new(
                    sampler.strata@.len(),
                    |s: int|
                        Read {
                            stratum: s as usize,
                            offset: sampler.strata@[s].start,
                            len: sampler.strata@[s].len as usize,
                        },
                ));
            }
            Ok((Survey { sampler, covering: true }, reads))
        } else {
            let mut sampler = Sampler::plan(total, budget, self.chunk_size, self.n_strata);
            let reads: Vec<Read> = sampler.probe_reads();
            Ok((Survey { sampler, covering: false }, reads))
        }
    }

    /// Where to read the contiguous span for anchor calibration: `wanted`
    /// bytes, centered in the source. None when anchoring is off or no span is
    /// wanted.
    pub fn span_place(&self, total: u64, wanted: usize) -> (res: Option<u64>)
        requires
            wanted <= total,
        ensures
            res == if self.anchor && wanted > 0 {
                Some(((total - wanted) / 2) as u64)
            } else {
                None
            },
            res matches Some(offset) ==> offset + wanted <= total,
    {
        if !self.anchor || wanted == 0 {
            return None;
        }
        Some((total - wanted as u64) / 2)
    }

    /// Feed bytes in streaming mode (stdin, pipes, iterators).
    ///
    /// Maintains a reservoir of chunks (uniform sample of the whole stream)
    /// plus an exact order-0 byte histogram over *all* bytes seen.
    pub fn update(&mut self, bytes: &[u8]) -> (res: Result<(), Error>)
        requires
            old(self).wf(),
            old(self).pending().len() <= old(self).chunk_size,
            old(self).fed().len() + bytes@.len() <= u64::MAX,
        ensures
            res is Ok,
            old(self).updated(bytes@, *final(self)),
            old(self).even() ==> final(self).even(),
    {
        let chunk: usize = self.chunk_size;
        let mut st: StreamState = match self.stream.take() {
            Some(st) => st,
            None => {
                let budget: u64 = match self.budget {
                    Some(bytes) => bytes,
                    None => MAX_BUDGET,
                };
                let whole: u64 = budget / chunk as u64;
                let count: u64 = if budget % chunk as u64 == 0 {
                    whole
                } else {
                    proof {
                        lemma_fundamental_div_mod(budget as int, chunk as int);
                        assert(whole <= chunk * whole) by (nonlinear_arith)
                            requires
                                chunk >= 1,
                                whole >= 0,
                        ;
                    }
                    whole + 1
                };
                let cap: usize = if count < MIN_RESERVOIR as u64 {
                    MIN_RESERVOIR
                } else if count > usize::MAX as u64 {
                    usize::MAX
                } else {
                    count as usize
                };
                StreamState::new(cap)
            },
        };
        proof {
            if old(self).even() {
                lemma_no_chunks(chunk as nat);
                lemma_chop_even(old(self).fed(), bytes@, chunk as nat);
            }
        }
        st.feed(bytes, chunk);
        self.stream = Some(st);
        Ok(())
    }

    /// Finish streaming mode: what was retained, ready to be analyzed. The
    /// partial last chunk is offered to the reservoir like any other, keeping
    /// the sample uniform over the stream. The span is the stream's tail when
    /// that holds more than the prefix (long streams: mature data beats the
    /// cold-start region), otherwise the prefix.
    pub fn finish(self) -> (res: Result<StreamSample, Error>)
        requires
            self.wf(),
        ensures
            match res {
                Err(Error::EmptyInput) => self.fed().len() == 0,
                Err(_) => false,
                Ok(sample) => self.finished(sample),
            },
    {
        let mut me = self;
        let chunk: usize = me.chunk_size;
        match me.stream.take() {
            None => Err(Error::EmptyInput),
            Some(st) => {
                let mut st: StreamState = st;
                let ghost s = st.seen@;
                let ghost cap = st.reservoir.cap as nat;
                let ghost offered = st.offered@;
                let ghost items = all_chunks(offered, st.pending@);
                if st.total == 0 {
                    return Err(Error::EmptyInput);
                }
                let mut pending: Vec<u8> = Vec::new();
                std::mem::swap(&mut pending, &mut st.pending);
                proof {
                    if pending@.len() == 0 {
                        assert(joined(offered) + pending@ =~= joined(offered));
                    } else {
                        lemma_joined_push(offered, pending@);
                    }
                    assert(joined(items) == s);
                }
                if pending.len() > 0 {
                    offer_chunk(&mut st.reservoir, pending, Ghost(offered));
                }
                let chunks: Vec<Vec<u8>> = st.reservoir.slots;
                let n: usize = chunks.len();
                let ghost retained = kept(cap, items);
                proof {
                    lemma_kept_bytes(cap, items);
                }
                let mut lens: Vec<usize> = Vec::new();
                let mut reads: Vec<Read> = Vec::new();
                let mut i: usize = 0;
                while i < n
                    invariant
                        i <= n,
                        n == chunks@.len(),
                        n == retained.len(),
                        forall|k: int| 0 <= k < n ==> (#[trigger] chunks@[k])@ == retained[k],
                        lens@.len() == i,
                        reads@.len() == i,
                        sum_usize(lens@) == joined(retained.take(i as int)).len(),
                        forall|k: int| 0 <= k < i ==> #[trigger] lens@[k] == retained[k].len(),
                        forall|k: int|
                            0 <= k < i ==> {
                                let r = #[trigger] reads@[k];
                                r.stratum == k && r.offset == 0 && r.len == lens@[k]
                            },
                    decreases n - i,
                {
                    let len: usize = chunks[i].len();
                    proof {
                        assert(chunks@[i as int]@ == retained[i as int]);
                        assert(lens@.push(len).drop_last() =~= lens@);
                        assert(retained.take(i + 1).drop_last() =~= retained.take(i as int));
                    }
                    lens.push(len);
                    reads.push(Read { stratum: i, offset: 0, len });
                    i = i + 1;
                }
                proof {
                    assert(retained.take(n as int) =~= retained);
                }
                let sampler = Sampler::weighted(chunk, lens.as_slice());
                let span: Option<Vec<u8>> = if me.anchor {
                    if st.tail.len() > st.prefix.len() {
                        let mut tail: Vec<u8> = st.tail;
                        if tail.len() > STREAM_TAIL_CAP {
                            let excess: usize = tail.len() - STREAM_TAIL_CAP;
                            tail = tail.split_off(excess);
                        }
                        assert(tail@ =~= stream_span(s));
                        Some(tail)
                    } else {
                        assert(st.prefix@ =~= stream_span(s));
                        Some(st.prefix)
                    }
                } else {
                    None
                };
                proof {
                    assert forall|k: int| 0 <= k < n implies {
                        &&& (#[trigger] chunks@[k])@ == retained[k]
                        &&& sampler.strata@[k].start == 0
                        &&& sampler.strata@[k].len == retained[k].len()
                        &&& reads@[k].stratum == k
                        &&& reads@[k].offset == 0
                        &&& reads@[k].len == retained[k].len()
                    } by {
                        assert(lens@[k] == retained[k].len());
                        assert(sampler.strata@[k].len == lens@[k]);
                        assert(reads@[k].len == lens@[k]);
                    }
                }
                Ok(
                    StreamSample {
                        chunks,
                        sampler,
                        reads,
                        total: st.total,
                        hist: st.hist,
                        span,
                    },
                )
            },
        }
    }
}

/// Tiles of at least one byte are no more than there are bytes.
proof fn lemma_tiles_fit(total: nat, tile: nat)
    requires
        tile >= 1,
        total >= 1,
    ensures
        tile_count(total, most(tile, 1)) <= total,
{
    let up = (total + tile - 1) as int;
    let q = up / tile as int;
    lemma_fundamental_div_mod(up, tile as int);
    lemma_mod_bound(up, tile as int);
    assert(q <= total) by (nonlinear_arith)
        requires
            up == tile * q + up % tile as int,
            up == total + tile - 1,
            0 <= up % tile as int,
            tile >= 1,
            total >= 1,
    ;
}

/// The default budget is a 1024th of the source, but never under 8 MiB nor over
/// 64 MiB; a budget that was set stands as it is.
pub proof fn lemma_budget_share(e: Estimator, total: u64)
    ensures
        e.budget matches Some(bytes) ==> e.budget_of(total) == bytes,
        e.budget is None ==> {
            let b = e.budget_of(total) as int;
            &&& 0x80_0000 <= b <= 0x400_0000
            &&& b * 1024 <= total || b == 0x80_0000
            &&& (b + 1) * 1024 > total || b == 0x400_0000
        },
{
}

/// The reservoir of a stream is as large as the budget asks, no larger, and
/// never under 8 chunks: its chunks together hold the budget, and with one
/// less they would not.
pub proof fn lemma_reservoir_holds_budget(e: Estimator)
    requires
        e.wf(),
        e.reservoir_cap() < usize::MAX,
    ensures
        ({
            let budget = match e.budget {
                Some(bytes) => bytes as int,
                None => 0x400_0000,
            };
            let cap = e.reservoir_cap() as int;
            &&& cap >= 8
            &&& cap * e.chunk_size >= budget
            &&& cap == 8 || (cap - 1) * e.chunk_size < budget
        }),
{
    let budget = match e.budget {
        Some(bytes) => bytes as int,
        None => 0x400_0000,
    };
    let cs = e.chunk_size as int;
    let cap = e.reservoir_cap() as int;
    let q = budget / cs;
    let r = budget % cs;
    lemma_fundamental_div_mod(budget, cs);
    lemma_mod_bound(budget, cs);
    let chunks = if r == 0 {
        q
    } else {
        q + 1
    };
    assert(chunks * cs >= budget && (chunks - 1) * cs < budget) by (nonlinear_arith)
        requires
            budget == cs * q + r,
            0 <= r < cs,
            chunks == if r == 0 {
                q
            } else {
                q + 1
            },
            cs >= 1,
    ;
    assert(cap * cs >= chunks * cs) by (nonlinear_arith)
        requires
            cap >= chunks,
            cs >= 1,
    ;
}

/// The span of a stream is its end: all of it, or the last 32 MiB.
pub proof fn lemma_stream_span_is_tail(s: Seq<u8>)
    ensures
        s.len() <= 0x200_0000 ==> stream_span(s) == s,
        s.len() > 0x200_0000 ==> stream_span(s).len() == 0x200_0000 && stream_span(s) == s.skip(
            s.len() - 0x200_0000,
        ),
{
    if s.len() <= 0x200_0000 {
        assert(s.skip(0) =~= s);
    }
}

/// The chunks of a stream make it up: put one behind the other, with what is
/// left behind the last full one, they are the stream again; every one is full,
/// and what is left is not.
pub proof fn lemma_chunks_make_up(s: Seq<u8>, chunk: nat)
    requires
        chunk >= 1,
    ensures
        joined(full_chunks(s, chunk)) + unfinished(s, chunk) == s,
        unfinished(s, chunk).len() < chunk,
        forall|i: int|
            0 <= i < full_chunks(s, chunk).len() ==> (#[trigger] full_chunks(s, chunk)[i]).len()
                == chunk,
{
    let n = s.len() / chunk;
    lemma_rest_is_short(s, chunk);
    lemma_fundamental_div_mod(s.len() as int, chunk as int);
    lemma_mod_bound(s.len() as int, chunk as int);
    assert(n * chunk == chunk * n) by (nonlinear_arith);
    assert forall|i: int| 0 <= i < full_chunks(s, chunk).len() implies (#[trigger] full_chunks(
        s,
        chunk,
    )[i]).len() == chunk by {
        lemma_chunk_within(i, n as int, chunk as int);
        assert((i + 1) * chunk == i * chunk + chunk) by (nonlinear_arith);
    }
    lemma_chunks_prefix(s, chunk, n);
    assert(full_chunks(s, chunk).take(n as int) =~= full_chunks(s, chunk));
    assert(s.take((n * chunk) as int) + s.skip((n * chunk) as int) =~= s);
}

proof fn lemma_chunks_prefix(s: Seq<u8>, chunk: nat, k: nat)
    requires
        chunk >= 1,
        k <= s.len() / chunk,
    ensures
        k * chunk <= s.len(),
        joined(full_chunks(s, chunk).take(k as int)) == s.take((k * chunk) as int),
    decreases k,
{
    let n = s.len() / chunk;
    lemma_fundamental_div_mod(s.len() as int, chunk as int);
    lemma_mod_bound(s.len() as int, chunk as int);
    assert(k * chunk <= chunk * n) by (nonlinear_arith)
        requires
            k <= n,
            chunk >= 1,
    ;
    if k == 0 {
        assert(0 * chunk == 0) by (nonlinear_arith);
        assert(s.take(0) =~= Seq::<u8>::empty());
    } else {
        lemma_chunks_prefix(s, chunk, (k - 1) as nat);
        let front = full_chunks(s, chunk).take(k as int);
        assert(front.drop_last() =~= full_chunks(s, chunk).take(k - 1));
        lemma_chunk_within(k - 1, n as int, chunk as int);
        assert((k - 1) * chunk + chunk == k * chunk) by (nonlinear_arith);
        assert(s.take((k * chunk) as int) =~= s.take((k - 1) * chunk) + s.subrange(
            (k - 1) * chunk,
            (k * chunk) as int,
        ));
    }
}

} // verus!
