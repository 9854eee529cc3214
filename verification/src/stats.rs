//! Counting primitives: order-0 byte histograms.

use vstd::prelude::*;

verus! {

/// How often the byte `b` occurs in `data`.
pub open spec fn occurrences(data: Seq<u8>, b: u8) -> nat
    decreases data.len(),
{
    if data.len() == 0 {
        0
    } else {
        occurrences(data.drop_last(), b) + if data.last() == b {
            1nat
        } else {
            0nat
        }
    }
}

/// Whether `b` is printable ASCII or common whitespace.
pub open spec fn printable(b: u8) -> bool {
    0x20 <= b <= 0x7e || b == 0x09 || b == 0x0a || b == 0x0d || b == 0x0c
}

/// Sum of the first `n` counters that belong to printable bytes.
pub open spec fn printable_sum(counts: Seq<u64>, n: nat) -> nat
    decreases n,
{
    if n == 0 {
        0
    } else {
        printable_sum(counts, (n - 1) as nat) + if printable((n - 1) as u8) {
            counts[n - 1] as nat
        } else {
            0nat
        }
    }
}

/// Sum of a sequence of counters.
pub open spec fn sum_u64(counts: Seq<u64>) -> nat
    decreases counts.len(),
{
    if counts.len() == 0 {
        0
    } else {
        sum_u64(counts.drop_last()) + counts.last() as nat
    }
}

/// Occurrences in a concatenation are the occurrences in its parts.
pub proof fn lemma_occurrences_concat(a: Seq<u8>, c: Seq<u8>, b: u8)
    ensures
        occurrences(a + c, b) == occurrences(a, b) + occurrences(c, b),
    decreases c.len(),
{
    if c.len() == 0 {
        assert(a + c =~= a);
    } else {
        assert((a + c).drop_last() =~= a + c.drop_last());
        lemma_occurrences_concat(a, c.drop_last(), b);
    }
}

/// No byte occurs more often than there are bytes.
pub proof fn lemma_occurrences_bound(data: Seq<u8>, b: u8)
    ensures
        occurrences(data, b) <= data.len(),
    decreases data.len(),
{
    if data.len() > 0 {
        lemma_occurrences_bound(data.drop_last(), b);
    }
}

proof fn lemma_printable_sum_mono(counts: Seq<u64>, m: nat, n: nat)
    requires
        m <= n,
    ensures
        printable_sum(counts, m) <= printable_sum(counts, n),
    decreases n,
{
    if m < n {
        lemma_printable_sum_mono(counts, m, (n - 1) as nat);
    }
}

/// Order-0 byte histogram over observed data.
pub struct Histogram {
    pub counts: [u64; 256],
    pub total: u64,
}

impl Clone for Histogram {
    fn clone(&self) -> (res: Self)
        ensures
            res == *self,
    {
        Histogram { counts: self.counts, total: self.total }
    }
}

impl Default for Histogram {
    /// The empty histogram.
    fn default() -> (res: Self)
        ensures
            res.of(Seq::empty()),
    {
        Histogram { counts: [0; 256], total: 0 }
    }
}

impl Histogram {
    /// Whether this is the histogram of `data`: every counter holds the number
    /// of occurrences of its byte, and the total is the number of bytes.
    pub open spec fn of(&self, data: Seq<u8>) -> bool {
        &&& self.total == data.len()
        &&& forall|b: u8| #[trigger] self.counts@[b as int] == occurrences(data, b)
    }

    /// Count every byte of `data`.
    pub fn add(&mut self, data: &[u8])
        requires
            old(self).total + data@.len() <= u64::MAX,
            forall|b: u8| #[trigger]
                old(self).counts@[b as int] + occurrences(data@, b) <= u64::MAX,
        ensures
            final(self).total == old(self).total + data@.len(),
            forall|b: u8| #[trigger]
                final(self).counts@[b as int] == old(self).counts@[b as int] + occurrences(data@, b),
            forall|prev: Seq<u8>| #[trigger] old(self).of(prev) ==> final(self).of(prev + data@),
    {
        let n: usize = data.len();
        let mut i: usize = 0;
        while i < n
            invariant
                i <= n,
                n == data@.len(),
                self.total == old(self).total,
                forall|b: u8| #[trigger]
                    old(self).counts@[b as int] + occurrences(data@, b) <= u64::MAX,
                forall|b: u8| #[trigger]
                    self.counts@[b as int] == old(self).counts@[b as int] + occurrences(
                        data@.take(i as int),
                        b,
                    ),
            decreases n - i,
        {
            let b: u8 = data[i];
            proof {
                assert(data@.take(i + 1).drop_last() =~= data@.take(i as int));
                assert(data@ =~= data@.take(i + 1) + data@.skip(i + 1));
                lemma_occurrences_concat(data@.take(i + 1), data@.skip(i + 1), b);
                assert(old(self).counts@[b as int] + occurrences(data@, b) <= u64::MAX);
            }
            let ghost before = self.counts@;
            self.counts[b as usize] = self.counts[b as usize] + 1;
            proof {
                assert forall|c: u8| #[trigger]
                    self.counts@[c as int] == old(self).counts@[c as int] + occurrences(
                        data@.take(i + 1),
                        c,
                    ) by {
                    assert(before[c as int] == old(self).counts@[c as int] + occurrences(
                        data@.take(i as int),
                        c,
                    ));
                }
            }
            i = i + 1;
        }
        self.total = self.total + n as u64;
        proof {
            assert(data@.take(n as int) =~= data@);
            assert forall|prev: Seq<u8>| #[trigger] old(self).of(prev) implies self.of(
                prev + data@,
            ) by {
                assert forall|b: u8| #[trigger]
                    self.counts@[b as int] == occurrences(prev + data@, b) by {
                    assert(old(self).counts@[b as int] == occurrences(prev, b));
                    lemma_occurrences_concat(prev, data@, b);
                }
            }
        }
    }

    /// Add the counters of `other` to this histogram.
    pub fn merge(&mut self, other: &Histogram)
        requires
            old(self).total + other.total <= u64::MAX,
            forall|b: u8| #[trigger]
                old(self).counts@[b as int] + other.counts@[b as int] <= u64::MAX,
        ensures
            final(self).total == old(self).total + other.total,
            forall|b: u8| #[trigger]
                final(self).counts@[b as int] == old(self).counts@[b as int]
                    + other.counts@[b as int],
            forall|a: Seq<u8>, c: Seq<u8>| #[trigger]
                old(self).of(a) && #[trigger] other.of(c) ==> final(self).of(a + c),
    {
        let mut i: usize = 0;
        while i < 256
            invariant
                i <= 256,
                self.total == old(self).total,
                forall|b: u8| #[trigger]
                    old(self).counts@[b as int] + other.counts@[b as int] <= u64::MAX,
                forall|b: u8| #[trigger]
                    self.counts@[b as int] == old(self).counts@[b as int] + if b < i {
                        other.counts@[b as int] as int
                    } else {
                        0
                    },
            decreases 256 - i,
        {
            let ghost before = self.counts@;
            proof {
                assert(before[i as u8 as int] == old(self).counts@[i as u8 as int]);
                assert(old(self).counts@[i as u8 as int] + other.counts@[i as u8 as int]
                    <= u64::MAX);
            }
            self.counts[i] = self.counts[i] + other.counts[i];
            proof {
                assert forall|b: u8| #[trigger]
                    self.counts@[b as int] == old(self).counts@[b as int] + if b < i + 1 {
                        other.counts@[b as int] as int
                    } else {
                        0
                    } by {
                    assert(before[b as int] == old(self).counts@[b as int] + if b < i {
                        other.counts@[b as int] as int
                    } else {
                        0
                    });
                }
            }
            i = i + 1;
        }
        self.total = self.total + other.total;
        proof {
            assert forall|a: Seq<u8>, c: Seq<u8>| #[trigger]
                old(self).of(a) && #[trigger] other.of(c) implies self.of(a + c) by {
                assert forall|b: u8| #[trigger] self.counts@[b as int] == occurrences(a + c, b) by {
                    assert(old(self).counts@[b as int] == occurrences(a, b));
                    assert(other.counts@[b as int] == occurrences(c, b));
                    lemma_occurrences_concat(a, c, b);
                }
            }
        }
    }

    /// Number of byte values observed at least once.
    pub fn distinct(&self) -> (res: u32)
        ensures
            res == self.counts@.filter(|c: u64| c > 0).len(),
            res <= 256,
    {
        let ghost positive = |c: u64| c > 0;
        let mut res: u32 = 0;
        let mut i: usize = 0;
        while i < 256
            invariant
                i <= 256,
                res <= i,
                positive == (|c: u64| c > 0),
                res == self.counts@.take(i as int).filter(positive).len(),
            decreases 256 - i,
        {
            proof {
                reveal(Seq::filter);
                assert(self.counts@.take(i + 1).drop_last() =~= self.counts@.take(i as int));
            }
            if self.counts[i] > 0 {
                res = res + 1;
            }
            i = i + 1;
        }
        proof {
            assert(self.counts@.take(256) =~= self.counts@);
        }
        res
    }

    /// Number of observed bytes that are printable ASCII or common whitespace.
    pub fn printable_count(&self) -> (res: u64)
        requires
            printable_sum(self.counts@, 256) <= u64::MAX,
        ensures
            res == printable_sum(self.counts@, 256),
    {
        let mut res: u64 = 0;
        let mut i: usize = 0;
        while i < 256
            invariant
                i <= 256,
                printable_sum(self.counts@, 256) <= u64::MAX,
                res == printable_sum(self.counts@, i as nat),
            decreases 256 - i,
        {
            proof {
                lemma_printable_sum_mono(self.counts@, (i + 1) as nat, 256);
            }
            let b: u8 = i as u8;
            if (0x20 <= b && b <= 0x7e) || b == 0x09 || b == 0x0a || b == 0x0d || b == 0x0c {
                res = res + self.counts[i];
            }
            i = i + 1;
        }
        res
    }
}

/// The histogram of some bytes counts each of them once: its counters add up
/// to its total.
pub proof fn lemma_histogram_adds_up(h: Histogram, data: Seq<u8>)
    requires
        h.of(data),
    ensures
        sum_u64(h.counts@) == h.total,
{
    lemma_occurrence_prefix(h.counts@, data, 256);
    lemma_all_below(data);
    assert(h.counts@.take(256) =~= h.counts@);
}

/// How many bytes of `data` are below `n`.
spec fn below(data: Seq<u8>, n: int) -> nat
    decreases data.len(),
{
    if data.len() == 0 {
        0
    } else {
        below(data.drop_last(), n) + if (data.last() as int) < n {
            1nat
        } else {
            0nat
        }
    }
}

proof fn lemma_all_below(data: Seq<u8>)
    ensures
        below(data, 256) == data.len(),
    decreases data.len(),
{
    if data.len() > 0 {
        lemma_all_below(data.drop_last());
    }
}

proof fn lemma_below_step(data: Seq<u8>, n: int)
    requires
        0 <= n < 256,
    ensures
        below(data, n + 1) == below(data, n) + occurrences(data, n as u8),
        below(data, 0) == 0,
    decreases data.len(),
{
    if data.len() > 0 {
        lemma_below_step(data.drop_last(), n);
    }
}

proof fn lemma_occurrence_prefix(counts: Seq<u64>, data: Seq<u8>, n: nat)
    requires
        counts.len() == 256,
        n <= 256,
        forall|b: u8| #[trigger] counts[b as int] == occurrences(data, b),
    ensures
        sum_u64(counts.take(n as int)) == below(data, n as int),
    decreases n,
{
    if n == 0 {
        lemma_below_step(data, 0);
    } else {
        lemma_occurrence_prefix(counts, data, (n - 1) as nat);
        lemma_below_step(data, n - 1);
        assert(counts.take(n as int).drop_last() =~= counts.take(n - 1));
        assert(counts[(n - 1) as u8 as int] == occurrences(data, (n - 1) as u8));
    }
}

/// How many bytes of `data` are below `n` and printable.
spec fn printable_below(data: Seq<u8>, n: int) -> nat
    decreases data.len(),
{
    if data.len() == 0 {
        0
    } else {
        printable_below(data.drop_last(), n) + if (data.last() as int) < n && printable(
            data.last(),
        ) {
            1nat
        } else {
            0nat
        }
    }
}

proof fn lemma_printable_below_step(data: Seq<u8>, n: int)
    requires
        0 <= n < 256,
    ensures
        printable_below(data, n + 1) == printable_below(data, n) + if printable(n as u8) {
            occurrences(data, n as u8)
        } else {
            0
        },
        printable_below(data, 0) == 0,
    decreases data.len(),
{
    if data.len() > 0 {
        lemma_printable_below_step(data.drop_last(), n);
    }
}

proof fn lemma_printable_prefix(counts: Seq<u64>, data: Seq<u8>, n: nat)
    requires
        counts.len() == 256,
        n <= 256,
        forall|b: u8| #[trigger] counts[b as int] == occurrences(data, b),
    ensures
        printable_sum(counts, n) == printable_below(data, n as int),
    decreases n,
{
    if n == 0 {
        lemma_printable_below_step(data, 0);
    } else {
        lemma_printable_prefix(counts, data, (n - 1) as nat);
        lemma_printable_below_step(data, n - 1);
        assert(counts[(n - 1) as u8 as int] == occurrences(data, (n - 1) as u8));
    }
}

proof fn lemma_printable_all(data: Seq<u8>)
    ensures
        printable_below(data, 256) == data.filter(
            |b: u8| 0x20 <= b <= 0x7e || b == 9 || b == 10 || b == 12 || b == 13,
        ).len(),
    decreases data.len(),
{
    reveal(Seq::filter);
    if data.len() > 0 {
        lemma_printable_all(data.drop_last());
    }
}

/// The printable bytes that a histogram counts are those of the bytes it is
/// of: from space to tilde, and tab, line feed, form feed and carriage return.
pub proof fn lemma_printable_counted(h: Histogram, data: Seq<u8>)
    requires
        h.of(data),
    ensures
        printable_sum(h.counts@, 256) == data.filter(
            |b: u8| 0x20 <= b <= 0x7e || b == 9 || b == 10 || b == 12 || b == 13,
        ).len(),
{
    lemma_printable_prefix(h.counts@, data, 256);
    lemma_printable_all(data);
}

/// A byte occurs as often as the bytes that equal it are many.
pub proof fn lemma_occurrences_counted(data: Seq<u8>, b: u8)
    ensures
        occurrences(data, b) == data.filter(|x: u8| x == b).len(),
    decreases data.len(),
{
    reveal(Seq::filter);
    if data.len() > 0 {
        lemma_occurrences_counted(data.drop_last(), b);
    }
}

} // verus!
