//! How the samples of a source are put together: grouped by stratum, their
//! bytes and histograms added up.

use crate::sampler::Read;
use crate::stats::{lemma_occurrences_concat, occurrences, Histogram};
use vstd::prelude::*;

verus! {

/// Samples put together.
pub struct Assembly {
    /// For every stratum, which samples are of it.
    pub groups: Vec<Vec<usize>>,
    /// All samples, stratum by stratum: the order in which they are
    /// benchmarked.
    pub order: Vec<usize>,
    /// Bytes that were read.
    pub sampled_bytes: u64,
    /// Histogram of the bytes that were read.
    pub hist: Histogram,
}

/// Which of the first `k` reads are of the stratum `s`, in order.
pub open spec fn members(reads: Seq<Read>, s: int, k: nat) -> Seq<usize>
    decreases k,
{
    if k == 0 {
        Seq::empty()
    } else if reads[k - 1].stratum == s {
        members(reads, s, (k - 1) as nat).push((k - 1) as usize)
    } else {
        members(reads, s, (k - 1) as nat)
    }
}

/// The reads of the first `n` strata, stratum by stratum.
pub open spec fn by_stratum(reads: Seq<Read>, n: nat) -> Seq<usize>
    decreases n,
{
    if n == 0 {
        Seq::empty()
    } else {
        by_stratum(reads, (n - 1) as nat) + members(reads, n - 1, reads.len())
    }
}

/// Bytes of the first `k` reads.
pub open spec fn read_bytes(reads: Seq<Read>, k: nat) -> nat
    decreases k,
{
    if k == 0 {
        0
    } else {
        read_bytes(reads, (k - 1) as nat) + reads[k - 1].len as nat
    }
}

/// How often the byte `b` was counted by the first `k` histograms.
pub open spec fn count_sum(hists: Seq<&Histogram>, b: u8, k: nat) -> nat
    decreases k,
{
    if k == 0 {
        0
    } else {
        count_sum(hists, b, (k - 1) as nat) + hists[k - 1].counts@[b as int] as nat
    }
}

/// How many bytes were counted by the first `k` histograms.
pub open spec fn total_sum(hists: Seq<&Histogram>, k: nat) -> nat
    decreases k,
{
    if k == 0 {
        0
    } else {
        total_sum(hists, (k - 1) as nat) + hists[k - 1].total as nat
    }
}

/// Some bytes, one after the other.
pub open spec fn joined(parts: Seq<Seq<u8>>) -> Seq<u8>
    decreases parts.len(),
{
    if parts.len() == 0 {
        Seq::empty()
    } else {
        joined(parts.drop_last()) + parts.last()
    }
}

/// Whether histograms are those of some parts, one for one.
pub open spec fn counted(hists: Seq<&Histogram>, parts: Seq<Seq<u8>>) -> bool {
    &&& hists.len() == parts.len()
    &&& forall|i: int| 0 <= i < hists.len() ==> (#[trigger] hists[i]).of(parts[i])
}

/// Histograms add up to the histogram of all parts together.
pub proof fn lemma_merged_histogram(hists: Seq<&Histogram>, parts: Seq<Seq<u8>>, merged: Histogram)
    requires
        counted(hists, parts),
        merged.total == total_sum(hists, hists.len()),
        forall|b: u8| #[trigger] merged.counts@[b as int] == count_sum(hists, b, hists.len()),
    ensures
        merged.of(joined(parts)),
{
    lemma_merged_prefix(hists, parts, hists.len());
    assert(parts.take(parts.len() as int) =~= parts);
}

proof fn lemma_merged_prefix(hists: Seq<&Histogram>, parts: Seq<Seq<u8>>, k: nat)
    requires
        counted(hists, parts),
        k <= hists.len(),
    ensures
        total_sum(hists, k) == joined(parts.take(k as int)).len(),
        forall|b: u8| #[trigger]
            count_sum(hists, b, k) == occurrences(joined(parts.take(k as int)), b),
    decreases k,
{
    if k > 0 {
        lemma_merged_prefix(hists, parts, (k - 1) as nat);
        let now = parts.take(k as int);
        assert(now.drop_last() =~= parts.take(k - 1));
        assert(hists[k - 1].of(parts[k - 1]));
        assert forall|b: u8| #[trigger] count_sum(hists, b, k) == occurrences(joined(now), b) by {
            assert(count_sum(hists, b, (k - 1) as nat) == occurrences(
                joined(parts.take(k - 1)),
                b,
            ));
            assert(hists[k - 1].counts@[b as int] == occurrences(parts[k - 1], b));
            lemma_occurrences_concat(joined(parts.take(k - 1)), parts[k - 1], b);
        }
    }
}

proof fn lemma_sums_grow(hists: Seq<&Histogram>, b: u8, k: nat, n: nat)
    requires
        k <= n,
    ensures
        count_sum(hists, b, k) <= count_sum(hists, b, n),
        total_sum(hists, k) <= total_sum(hists, n),
    decreases n,
{
    if k < n {
        lemma_sums_grow(hists, b, k, (n - 1) as nat);
    }
}

proof fn lemma_read_bytes_grow(reads: Seq<Read>, k: nat, n: nat)
    requires
        k <= n,
    ensures
        read_bytes(reads, k) <= read_bytes(reads, n),
    decreases n,
{
    if k < n {
        lemma_read_bytes_grow(reads, k, (n - 1) as nat);
    }
}

/// Put samples together: one read and one histogram per sample.
pub fn assemble(reads: &[Read], hists: &[&Histogram], n_strata: usize) -> (res: Assembly)
    requires
        reads@.len() == hists@.len(),
        forall|i: int| 0 <= i < reads@.len() ==> (#[trigger] reads@[i]).stratum < n_strata,
        read_bytes(reads@, reads@.len()) <= u64::MAX,
        total_sum(hists@, hists@.len()) <= u64::MAX,
        forall|b: u8| #[trigger] count_sum(hists@, b, hists@.len()) <= u64::MAX,
    ensures
        res.groups@.len() == n_strata,
        forall|s: int|
            0 <= s < n_strata ==> (#[trigger] res.groups@[s])@ == members(
                reads@,
                s,
                reads@.len(),
            ),
        res.order@ == by_stratum(reads@, n_strata as nat),
        res.sampled_bytes == read_bytes(reads@, reads@.len()),
        res.hist.total == total_sum(hists@, hists@.len()),
        forall|b: u8| #[trigger]
            res.hist.counts@[b as int] == count_sum(hists@, b, hists@.len()),
{
    let n: usize = reads.len();
    let mut groups: Vec<Vec<usize>> = Vec::new();
    let mut s: usize = 0;
    while s < n_strata
        invariant
            s <= n_strata,
            groups@.len() == s,
            forall|k: int| 0 <= k < s ==> (#[trigger] groups@[k])@ == members(reads@, k, 0),
        decreases n_strata - s,
    {
        groups.push(Vec::new());
        s = s + 1;
    }
    let mut sampled_bytes: u64 = 0;
    let mut hist: Histogram = Histogram::default();
    let mut i: usize = 0;
    proof {
        assert forall|b: u8| #[trigger] hist.counts@[b as int] == count_sum(hists@, b, 0) by {
            assert(hist.counts@[b as int] == occurrences(Seq::empty(), b));
        }
    }
    while i < n
        invariant
            i <= n,
            n == reads@.len(),
            n == hists@.len(),
            forall|k: int| 0 <= k < reads@.len() ==> (#[trigger] reads@[k]).stratum < n_strata,
            read_bytes(reads@, reads@.len()) <= u64::MAX,
            total_sum(hists@, hists@.len()) <= u64::MAX,
            forall|b: u8| #[trigger] count_sum(hists@, b, hists@.len()) <= u64::MAX,
            groups@.len() == n_strata,
            forall|k: int|
                0 <= k < n_strata ==> (#[trigger] groups@[k])@ == members(reads@, k, i as nat),
            sampled_bytes == read_bytes(reads@, i as nat),
            hist.total == total_sum(hists@, i as nat),
            forall|b: u8| #[trigger] hist.counts@[b as int] == count_sum(hists@, b, i as nat),
        decreases n - i,
    {
        let read: Read = reads[i];
        proof {
            lemma_read_bytes_grow(reads@, (i + 1) as nat, n as nat);
            lemma_sums_grow(hists@, 0, (i + 1) as nat, n as nat);
            assert forall|b: u8| #[trigger]
                hist.counts@[b as int] + hists@[i as int].counts@[b as int] <= u64::MAX by {
                lemma_sums_grow(hists@, b, (i + 1) as nat, n as nat);
                assert(count_sum(hists@, b, n as nat) <= u64::MAX);
                assert(hist.counts@[b as int] == count_sum(hists@, b, i as nat));
            }
        }
        sampled_bytes = sampled_bytes + read.len as u64;
        let ghost before = groups@;
        groups[read.stratum].push(i);
        let ghost counts = hist.counts@;
        hist.merge(hists[i]);
        proof {
            assert forall|k: int| 0 <= k < n_strata implies (#[trigger] groups@[k])@ == members(
                reads@,
                k,
                (i + 1) as nat,
            ) by {
                assert(before[k]@ == members(reads@, k, i as nat));
            }
            assert forall|b: u8| #[trigger] hist.counts@[b as int] == count_sum(
                hists@,
                b,
                (i + 1) as nat,
            ) by {
                assert(counts[b as int] == count_sum(hists@, b, i as nat));
            }
        }
        i = i + 1;
    }
    let mut order: Vec<usize> = Vec::new();
    let mut t: usize = 0;
    while t < n_strata
        invariant
            t <= n_strata,
            groups@.len() == n_strata,
            forall|k: int|
                0 <= k < n_strata ==> (#[trigger] groups@[k])@ == members(reads@, k, reads@.len()),
            order@ == by_stratum(reads@, t as nat),
        decreases n_strata - t,
    {
        let ghost base = order@;
        let ghost group = groups@[t as int]@;
        let mut j: usize = 0;
        while j < groups[t].len()
            invariant
                t < n_strata,
                groups@.len() == n_strata,
                group == groups@[t as int]@,
                j <= group.len(),
                order@ =~= base + group.take(j as int),
            decreases group.len() - j,
        {
            order.push(groups[t][j]);
            j = j + 1;
        }
        proof {
            assert(group.take(group.len() as int) =~= group);
        }
        t = t + 1;
    }
    Assembly { groups, order, sampled_bytes, hist }
}

/// A group holds the samples of its stratum: each of them, once, in order, and
/// no other.
pub proof fn lemma_group_members(reads: Seq<Read>, s: int, k: nat)
    requires
        k <= reads.len() <= usize::MAX,
    ensures
        forall|i: int|
            0 <= i < members(reads, s, k).len() ==> (#[trigger] members(reads, s, k)[i]) < k
                && reads[members(reads, s, k)[i] as int].stratum == s,
        forall|i: int, j: int|
            0 <= i < j < members(reads, s, k).len() ==> #[trigger] members(reads, s, k)[i]
                < #[trigger] members(reads, s, k)[j],
        forall|r: int|
            0 <= r < k && (#[trigger] reads[r]).stratum == s ==> members(reads, s, k).contains(
                r as usize,
            ),
    decreases k,
{
    if k > 0 {
        lemma_group_members(reads, s, (k - 1) as nat);
        let before = members(reads, s, (k - 1) as nat);
        let now = members(reads, s, k);
        assert forall|r: int| 0 <= r < k && (#[trigger] reads[r]).stratum == s implies now.contains(
            r as usize,
        ) by {
            if r < k - 1 {
                let t = choose|t: int| 0 <= t < before.len() && before[t] == r as usize;
                assert(now[t] == r as usize);
            } else {
                assert(now[now.len() - 1] == r as usize);
            }
        }
    }
}

/// The order of the samples is one of all samples: every one occurs, none
/// twice, and their strata ascend.
pub proof fn lemma_order_of_samples(reads: Seq<Read>, n: nat)
    requires
        reads.len() <= usize::MAX,
    ensures
        forall|i: int|
            0 <= i < by_stratum(reads, n).len() ==> (#[trigger] by_stratum(reads, n)[i])
                < reads.len() && reads[by_stratum(reads, n)[i] as int].stratum < n,
        forall|i: int, j: int|
            0 <= i < j < by_stratum(reads, n).len() ==> {
                let (a, b) = (#[trigger] by_stratum(reads, n)[i], #[trigger] by_stratum(reads, n)[j]);
                let (x, y) = (reads[a as int].stratum, reads[b as int].stratum);
                x < y || (x == y && a < b)
            },
        forall|r: int|
            0 <= r < reads.len() && (#[trigger] reads[r]).stratum < n ==> by_stratum(
                reads,
                n,
            ).contains(r as usize),
    decreases n,
{
    if n > 0 {
        lemma_order_of_samples(reads, (n - 1) as nat);
        lemma_group_members(reads, n - 1, reads.len());
        let before = by_stratum(reads, (n - 1) as nat);
        let group = members(reads, n - 1, reads.len());
        let now = by_stratum(reads, n);
        assert forall|i: int, j: int| 0 <= i < j < now.len() implies {
            let (a, b) = (#[trigger] now[i], #[trigger] now[j]);
            let (x, y) = (reads[a as int].stratum, reads[b as int].stratum);
            x < y || (x == y && a < b)
        } by {
            if j < before.len() {
                assert(now[i] == before[i] && now[j] == before[j]);
            } else if i < before.len() {
                assert(now[i] == before[i] && now[j] == group[j - before.len()]);
            } else {
                assert(now[i] == group[i - before.len()] && now[j] == group[j - before.len()]);
            }
        }
        assert forall|i: int| 0 <= i < now.len() implies (#[trigger] now[i]) < reads.len()
            && reads[now[i] as int].stratum < n by {
            if i < before.len() {
                assert(now[i] == before[i]);
            } else {
                assert(now[i] == group[i - before.len()]);
            }
        }
        assert forall|r: int|
            0 <= r < reads.len() && (#[trigger] reads[r]).stratum < n implies now.contains(
            r as usize,
        ) by {
            if reads[r].stratum < n - 1 {
                let t = choose|t: int| 0 <= t < before.len() && before[t] == r as usize;
                assert(now[t] == r as usize);
            } else {
                let t = choose|t: int| 0 <= t < group.len() && group[t] == r as usize;
                assert(now[before.len() + t] == r as usize);
            }
        }
    }
}

/// The bytes that were read are those of all samples together.
pub proof fn lemma_sampled_bytes(reads: Seq<Read>, parts: Seq<Seq<u8>>, k: nat)
    requires
        k <= reads.len() == parts.len(),
        forall|i: int| 0 <= i < reads.len() ==> (#[trigger] parts[i]).len() == reads[i].len,
    ensures
        read_bytes(reads, k) == joined(parts.take(k as int)).len(),
    decreases k,
{
    if k > 0 {
        lemma_sampled_bytes(reads, parts, (k - 1) as nat);
        assert(parts.take(k as int).drop_last() =~= parts.take(k - 1));
        assert(parts[k - 1].len() == reads[k - 1].len);
    }
}

} // verus!
