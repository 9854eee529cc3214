//! What the plans and the rounds of the sampler promise.

use crate::sampler::{
    arrange, draw, lemma_arrange, lemma_reads_drawn, overlaps, place, read_of, reads_of, rng_after,
    round_picks, seed_for, share, shared_out, whole_reads, Quota, Sampler, Stratum,
};
use vstd::arithmetic::div_mod::{lemma_fundamental_div_mod, lemma_mod_bound};
use vstd::prelude::*;
use vstd::seq_lib::group_to_multiset_ensures;

verus! {

/// A plan cuts the source into as many strata as were asked for, or as have a
/// chunk each, and at least one; all of one length but for the last, which
/// takes what is left over, less than one byte per stratum more.
pub proof fn lemma_plan_even(
    s: Sampler,
    total_len: u64,
    budget_bytes: u64,
    chunk_size: usize,
    n_strata: usize,
)
    requires
        s.is_plan(total_len, budget_bytes, chunk_size, n_strata),
        chunk_size >= 1,
        n_strata >= 1,
    ensures
        1 <= s.strata@.len() <= n_strata,
        s.strata@.len() == 1 || s.strata@.len() * chunk_size <= total_len,
        s.strata@.len() == n_strata || (s.strata@.len() + 1) * chunk_size > total_len,
        forall|i: int|
            0 <= i < s.strata@.len() - 1 ==> (#[trigger] s.strata@[i]).len == total_len as nat
                / s.strata@.len(),
        total_len as nat / s.strata@.len() <= s.strata@.last().len < total_len as nat
            / s.strata@.len() + s.strata@.len(),
        (s.chunk_budget + 1) * chunk_size > budget_bytes,
        s.chunk_budget * chunk_size <= budget_bytes,
{
    let n = s.strata@.len() as int;
    let total = total_len as int;
    let cs = chunk_size as int;
    let fit = total / cs;
    lemma_fundamental_div_mod(total, cs);
    lemma_mod_bound(total, cs);
    assert(n <= fit ==> n * cs <= total) by (nonlinear_arith)
        requires
            total == cs * fit + total % cs,
            total % cs >= 0,
            cs >= 1,
    ;
    assert(n >= fit ==> (n + 1) * cs > total) by (nonlinear_arith)
        requires
            total == cs * fit + total % cs,
            total % cs < cs,
            cs >= 1,
    ;
    let base = total / n;
    lemma_fundamental_div_mod(total, n);
    lemma_mod_bound(total, n);
    assert forall|i: int| 0 <= i < n - 1 implies (#[trigger] s.strata@[i]).len == base by {
        assert(i * base + base == (i + 1) * base) by (nonlinear_arith);
    }
    assert((n - 1) * base + base == n * base) by (nonlinear_arith);
    assert(s.strata@[n - 1].start == (n - 1) * base);
    assert(s.strata@[n - 1].stop() == total);
    let budget = budget_bytes as int;
    lemma_fundamental_div_mod(budget, cs);
    lemma_mod_bound(budget, cs);
    let q = budget / cs;
    assert(q * cs == cs * q) by (nonlinear_arith);
    assert((q + 1) * cs == cs * q + cs) by (nonlinear_arith);
}

/// A stratum has room for another read exactly while one more chunk than were
/// read fits in it.
pub proof fn lemma_room(sampler: Sampler, s: int)
    requires
        sampler.chunk_size >= 1,
    ensures
        sampler.room_in(s) <==> (sampler.strata@[s].sampled@.len() + 1) * sampler.chunk_size
            <= sampler.strata@[s].len,
{
    let len = sampler.strata@[s].len as int;
    let cs = sampler.chunk_size as int;
    let k = sampler.strata@[s].sampled@.len() as int;
    let q = len / cs;
    lemma_fundamental_div_mod(len, cs);
    lemma_mod_bound(len, cs);
    assert(q > k <==> (k + 1) * cs <= len) by (nonlinear_arith)
        requires
            len == cs * q + len % cs,
            0 <= len % cs < cs,
            cs >= 1,
    ;
}

/// A round uses up the budget where no more than one read per stratum is left
/// of it, and takes one per stratum otherwise.
pub proof fn lemma_round_uses_budget(s: Sampler)
    requires
        s.sampled_total < s.chunk_budget,
    ensures
        s.chunk_budget - s.sampled_total <= s.strata@.len() ==> s.sampled_total + s.round_len()
            == s.chunk_budget,
        s.chunk_budget - s.sampled_total > s.strata@.len() ==> s.round_len() == s.strata@.len(),
{
}

/// How many of some reads are of one stratum.
pub open spec fn reads_from(picks: Seq<int>, s: int) -> nat
    decreases picks.len(),
{
    if picks.len() == 0 {
        0
    } else {
        reads_from(picks.drop_last(), s) + if picks.last() == s {
            1nat
        } else {
            0nat
        }
    }
}

proof fn lemma_reads_from_add(a: Seq<int>, b: Seq<int>, s: int)
    ensures
        reads_from(a + b, s) == reads_from(a, s) + reads_from(b, s),
    decreases b.len(),
{
    if b.len() == 0 {
        assert(a + b =~= a);
    } else {
        assert((a + b).drop_last() =~= a + b.drop_last());
        lemma_reads_from_add(a, b.drop_last(), s);
    }
}

proof fn lemma_reads_from_same(n: nat, x: int, s: int)
    ensures
        reads_from(Seq::new(n, |j: int| x), s) == if x == s {
            n
        } else {
            0
        },
    decreases n,
{
    if n > 0 {
        assert(Seq::new(n, |j: int| x).drop_last() =~= Seq::new((n - 1) as nat, |j: int| x));
        lemma_reads_from_same((n - 1) as nat, x, s);
    }
}

/// Whether no stratum has two quotas.
pub open spec fn one_quota_each(quotas: Seq<Quota>) -> bool {
    forall|i: int, j: int|
        0 <= i < j < quotas.len() ==> (#[trigger] quotas[i]).stratum != (
        #[trigger] quotas[j]).stratum
}

proof fn lemma_shared_out_counts(quotas: Seq<Quota>, left_over: int, k: nat, i: int)
    requires
        one_quota_each(quotas),
        k <= quotas.len(),
        0 <= i < quotas.len(),
    ensures
        reads_from(shared_out(quotas, left_over, k), quotas[i].stratum as int) == if i < k {
            share(quotas[i], i, left_over)
        } else {
            0
        },
    decreases k,
{
    if k > 0 {
        let q = quotas[k - 1];
        let s = quotas[i].stratum as int;
        lemma_shared_out_counts(quotas, left_over, (k - 1) as nat, i);
        lemma_reads_from_add(
            shared_out(quotas, left_over, (k - 1) as nat),
            Seq::new(share(q, k - 1, left_over), |j: int| q.stratum as int),
            s,
        );
        lemma_reads_from_same(share(q, k - 1, left_over), q.stratum as int, s);
        if i < k - 1 {
            assert(quotas[i].stratum != quotas[k - 1].stratum);
        } else if i > k - 1 {
            assert(quotas[k - 1].stratum != quotas[i].stratum);
        }
    }
}

proof fn lemma_shared_out_prefix(quotas: Seq<Quota>, left_over: int, j: nat, k: nat)
    requires
        j <= k,
    ensures
        shared_out(quotas, left_over, j).len() <= shared_out(quotas, left_over, k).len(),
        shared_out(quotas, left_over, k).take(shared_out(quotas, left_over, j).len() as int)
            == shared_out(quotas, left_over, j),
    decreases k,
{
    if j < k {
        lemma_shared_out_prefix(quotas, left_over, j, (k - 1) as nat);
        let mid = shared_out(quotas, left_over, (k - 1) as nat);
        let n = shared_out(quotas, left_over, j).len() as int;
        assert(shared_out(quotas, left_over, k).take(n) =~= mid.take(n));
    } else {
        let all = shared_out(quotas, left_over, k);
        assert(all.take(all.len() as int) =~= all);
    }
}

/// While reads are left over, a quota gets one more than its whole part.
proof fn lemma_shared_out_whole(quotas: Seq<Quota>, left_over: int, k: nat)
    requires
        k <= quotas.len(),
    ensures
        k <= left_over ==> shared_out(quotas, left_over, k).len() == whole_reads(
            quotas.take(k as int),
        ) + k,
        k >= left_over ==> shared_out(quotas, left_over, k).len() >= whole_reads(
            quotas.take(k as int),
        ) + left_over,
    decreases k,
{
    if k > 0 {
        assert(quotas.take(k as int).drop_last() =~= quotas.take(k - 1));
        lemma_shared_out_whole(quotas, left_over, (k - 1) as nat);
    }
}

proof fn lemma_whole_take(quotas: Seq<Quota>, k: nat)
    requires
        k <= quotas.len(),
    ensures
        whole_reads(quotas.take(k as int)) <= whole_reads(quotas),
    decreases quotas.len(),
{
    if k == quotas.len() {
        assert(quotas.take(k as int) =~= quotas);
    } else {
        assert(quotas.drop_last().take(k as int) =~= quotas.take(k as int));
        lemma_whole_take(quotas.drop_last(), k);
    }
}

proof fn lemma_whole_push(quotas: Seq<Quota>, at: int, q: Quota)
    requires
        0 <= at <= quotas.len(),
    ensures
        whole_reads(quotas.insert(at, q)) == whole_reads(quotas) + q.whole,
    decreases quotas.len(),
{
    if at == quotas.len() {
        assert(quotas.insert(at, q).drop_last() =~= quotas);
    } else {
        assert(quotas.insert(at, q).drop_last() =~= quotas.drop_last().insert(at, q));
        lemma_whole_push(quotas.drop_last(), at, q);
    }
}

/// Quotas in another order have the same whole parts.
proof fn lemma_whole_same(a: Seq<Quota>, b: Seq<Quota>)
    requires
        a.to_multiset() == b.to_multiset(),
    ensures
        whole_reads(a) == whole_reads(b),
    decreases a.len(),
{
    broadcast use group_to_multiset_ensures;

    if a.len() == 0 {
        assert(b.len() == b.to_multiset().len());
    } else {
        let q = a.last();
        let front = a.drop_last();
        assert(a =~= front.push(q));
        assert(a.contains(q));
        assert(b.to_multiset().count(q) > 0);
        assert(b.contains(q));
        let at = choose|at: int| 0 <= at < b.len() && b[at] == q;
        let others = b.remove(at);
        assert(b =~= others.insert(at, q));
        assert(others.to_multiset() =~= b.to_multiset().remove(q));
        assert(front.to_multiset() =~= a.to_multiset().remove(q));
        lemma_whole_same(front, others);
        lemma_whole_push(others, at, q);
    }
}

proof fn lemma_reads_from_take(picks: Seq<int>, n: int, s: int)
    requires
        0 <= n <= picks.len(),
    ensures
        reads_from(picks.take(n), s) <= reads_from(picks, s),
{
    assert(picks =~= picks.take(n) + picks.skip(n));
    lemma_reads_from_add(picks.take(n), picks.skip(n), s);
}

/// A round rounds by the largest remainder. Of `take` reads, each quota is due
/// its whole part, and what that leaves over goes to those of the largest
/// fractions, one more each: they get it whatever the others get. The others
/// get no more than their whole part, or one read where that is nothing. All
/// reads are given out, unless there are more left over than quotas.
pub proof fn lemma_largest_remainder(quotas: Seq<Quota>, take: nat)
    requires
        one_quota_each(quotas),
        whole_reads(quotas) <= take,
    ensures
        ({
            let picks = round_picks(quotas, take);
            let sorted = arrange(quotas);
            let left_over = take - whole_reads(quotas);
            &&& picks.len() <= take
            &&& left_over <= quotas.len() ==> picks.len() == take
            &&& left_over > quotas.len() ==> picks.len() == whole_reads(quotas) + quotas.len()
            &&& sorted.to_multiset() == quotas.to_multiset()
            &&& forall|i: int, j: int|
                0 <= i < j < quotas.len() ==> (#[trigger] sorted[i]).fraction >= (
                #[trigger] sorted[j]).fraction
            &&& forall|i: int|
                0 <= i < quotas.len() && i < left_over ==> reads_from(
                    picks,
                    (#[trigger] sorted[i]).stratum as int,
                ) == sorted[i].whole + 1
            &&& forall|i: int|
                left_over <= i < quotas.len() ==> {
                    let n = reads_from(picks, (#[trigger] sorted[i]).stratum as int);
                    n <= sorted[i].whole || (n == 1 && sorted[i].whole == 0)
                }
        }),
{
    let sorted = arrange(quotas);
    let left_over = take - whole_reads(quotas);
    let n = quotas.len();
    let all = shared_out(sorted, left_over, n);
    let picks = round_picks(quotas, take);
    lemma_arrange(quotas);
    lemma_whole_same(sorted, quotas);
    lemma_sorted_apart(quotas);
    assert(sorted.take(n as int) =~= sorted);
    lemma_shared_out_whole(sorted, left_over, n);
    assert forall|i: int| 0 <= i < n && i < left_over implies reads_from(
        picks,
        (#[trigger] sorted[i]).stratum as int,
    ) == sorted[i].whole + 1 by {
        let k = (i + 1) as nat;
        let s = sorted[i].stratum as int;
        let part = shared_out(sorted, left_over, k);
        lemma_shared_out_whole(sorted, left_over, k);
        lemma_whole_take(sorted, k);
        lemma_shared_out_prefix(sorted, left_over, k, n);
        lemma_shared_out_counts(sorted, left_over, k, i);
        lemma_shared_out_counts(sorted, left_over, n, i);
        assert(picks.take(part.len() as int) =~= part);
        lemma_reads_from_take(picks, part.len() as int, s);
        if all.len() > take {
            lemma_reads_from_take(all, take as int, s);
        }
    }
    assert forall|i: int| left_over <= i < n implies {
        let m = reads_from(picks, (#[trigger] sorted[i]).stratum as int);
        m <= sorted[i].whole || (m == 1 && sorted[i].whole == 0)
    } by {
        lemma_shared_out_counts(sorted, left_over, n, i);
        if all.len() > take {
            lemma_reads_from_take(all, take as int, sorted[i].stratum as int);
        }
    }
}

proof fn lemma_sorted_apart(quotas: Seq<Quota>)
    requires
        one_quota_each(quotas),
    ensures
        one_quota_each(arrange(quotas)),
{
    broadcast use group_to_multiset_ensures;

    let sorted = arrange(quotas);
    lemma_arrange(quotas);
    assert forall|i: int, j: int| 0 <= i < j < sorted.len() implies (#[trigger] sorted[i]).stratum
        != (#[trigger] sorted[j]).stratum by {
        let (x, y) = (sorted[i], sorted[j]);
        if x.stratum == y.stratum {
            assert(sorted.contains(x) && sorted.contains(y));
            assert(quotas.to_multiset().count(x) > 0 && quotas.to_multiset().count(y) > 0);
            assert(quotas.contains(x) && quotas.contains(y));
            let a = choose|a: int| 0 <= a < quotas.len() && quotas[a] == x;
            let b = choose|b: int| 0 <= b < quotas.len() && quotas[b] == y;
            if a < b {
                assert(quotas[a].stratum != quotas[b].stratum);
            } else if b < a {
                assert(quotas[b].stratum != quotas[a].stratum);
            } else {
                lemma_counted_twice(sorted, i, j);
                lemma_counted_once(quotas, a);
            }
        }
    }
}

/// What occurs twice is counted twice.
proof fn lemma_counted_twice(s: Seq<Quota>, i: int, j: int)
    requires
        0 <= i < j < s.len(),
        s[i] == s[j],
    ensures
        s.to_multiset().count(s[i]) >= 2,
{
    broadcast use group_to_multiset_ensures;

    let others = s.remove(j);
    assert(others[i] == s[i]);
    assert(others.contains(s[i]));
    assert(others.to_multiset().count(s[i]) > 0);
    assert(s =~= others.insert(j, s[j]));
}

/// What occurs once is counted once.
proof fn lemma_counted_once(s: Seq<Quota>, i: int)
    requires
        0 <= i < s.len(),
        one_quota_each(s),
    ensures
        s.to_multiset().count(s[i]) == 1,
{
    broadcast use group_to_multiset_ensures;

    let others = s.remove(i);
    if others.to_multiset().count(s[i]) > 0 {
        assert(others.contains(s[i]));
        let t = choose|t: int| 0 <= t < others.len() && others[t] == s[i];
        if t < i {
            assert(s[t].stratum != s[i].stratum);
        } else {
            assert(s[i].stratum != s[t + 1].stratum);
        }
    }
}

proof fn lemma_rng_after_add(state: u64, a: nat, b: nat)
    ensures
        rng_after(rng_after(state, a), b) == rng_after(state, a + b),
    decreases b,
{
    if b > 0 {
        lemma_rng_after_add(state, a, (b - 1) as nat);
    }
}

/// Reads are made in turn, each from numbers of its own: every read is of the
/// stratum that was picked for it, at the offset that one number of the RNG
/// stands for, and that number comes after those of all reads before it.
/// Returns which number each read took.
pub proof fn lemma_reads_in_turn(
    strata: Seq<Stratum>,
    chunk: nat,
    picks: Seq<int>,
    state: u64,
) -> (turn: Seq<nat>)
    requires
        strata.len() <= usize::MAX,
        chunk <= usize::MAX,
        forall|i: int| 0 <= i < picks.len() ==> 0 <= #[trigger] picks[i] < strata.len(),
        forall|i: int| 0 <= i < strata.len() ==> (#[trigger] strata[i]).stop() <= u64::MAX,
    ensures
        ({
            let (reads, after) = reads_of(strata, chunk, picks, state);
            &&& reads.len() == picks.len()
            &&& turn.len() == picks.len()
            &&& forall|i: int| 0 <= i < picks.len() ==> 1 <= #[trigger] turn[i] <= 9 * (i + 1)
            &&& forall|i: int, j: int|
                0 <= i < j < picks.len() ==> #[trigger] turn[i] < #[trigger] turn[j]
            &&& forall|i: int|
                0 <= i < picks.len() ==> {
                    let r = #[trigger] reads[i];
                    let st = strata[picks[i]];
                    &&& r.stratum == picks[i]
                    &&& r.offset == draw(st, chunk, state, turn[i])
                    &&& r.len == if st.len > chunk {
                        chunk as int
                    } else {
                        st.len as int
                    }
                }
            &&& after == rng_after(
                state,
                if picks.len() == 0 {
                    0
                } else {
                    turn.last()
                },
            )
        }),
    decreases picks.len(),
{
    if picks.len() == 0 {
        Seq::empty()
    } else {
        let front = picks.drop_last();
        let last = picks[picks.len() - 1];
        assert forall|i: int| 0 <= i < front.len() implies 0 <= #[trigger] front[i]
            < strata.len() by {
            assert(front[i] == picks[i]);
        }
        let turn = lemma_reads_in_turn(strata, chunk, front, state);
        let (reads, mid) = reads_of(strata, chunk, front, state);
        let used = if front.len() == 0 {
            0
        } else {
            turn.last()
        };
        let st = strata[last];
        let (read, after) = read_of(st, last, chunk, mid);
        lemma_reads_drawn(st, last, chunk, mid);
        let k = choose|k: nat|
            {
                &&& 1 <= k <= 9
                &&& read.offset == #[trigger] draw(st, chunk, mid, k)
                &&& after == rng_after(mid, k)
                &&& k < 9 ==> !overlaps(st.sampled@, read.offset as int, chunk)
                &&& forall|m: nat|
                    1 <= m < k ==> overlaps(
                        st.sampled@,
                        #[trigger] draw(st, chunk, mid, m),
                        chunk,
                    )
            };
        lemma_rng_after_add(state, used, k);
        let all = turn.push(used + k);
        if front.len() > 0 {
            assert(turn[front.len() - 1] <= 9 * front.len());
        }
        assert forall|i: int, j: int| 0 <= i < j < picks.len() implies #[trigger] all[i]
            < #[trigger] all[j] by {
            if j == front.len() && i < front.len() - 1 {
                assert(turn[i] < turn[front.len() - 1]);
            }
        }
        all
    }
}

/// Where a quota is put: behind the last of at least its fraction.
proof fn lemma_place_at(arranged: Seq<Quota>, q: Quota) -> (k: int)
    requires
        forall|i: int, j: int|
            0 <= i < j < arranged.len() ==> (#[trigger] arranged[i]).fraction >= (
            #[trigger] arranged[j]).fraction,
    ensures
        0 <= k <= arranged.len(),
        place(arranged, q) == arranged.insert(k, q),
        forall|i: int| k <= i < arranged.len() ==> (#[trigger] arranged[i]).fraction < q.fraction,
    decreases arranged.len(),
{
    if arranged.len() == 0 || arranged.last().fraction >= q.fraction {
        assert(arranged.insert(arranged.len() as int, q) =~= arranged.push(q));
        arranged.len() as int
    } else {
        let front = arranged.drop_last();
        let k = lemma_place_at(front, q);
        assert(front.insert(k, q).push(arranged.last()) =~= arranged.insert(k, q));
        assert forall|i: int| k <= i < arranged.len() implies (#[trigger] arranged[i]).fraction
            < q.fraction by {
            if i < front.len() {
                assert(front[i] == arranged[i]);
            }
        }
        k
    }
}

/// Whether one quota comes before another among some.
pub open spec fn in_order(quotas: Seq<Quota>, x: Quota, y: Quota) -> bool {
    exists|a: int, b: int|
        0 <= a < b < quotas.len() && #[trigger] quotas[a] == x && #[trigger] quotas[b] == y
}

/// Arranging quotas keeps the order of those of one fraction.
pub proof fn lemma_arrange_stable(quotas: Seq<Quota>)
    ensures
        forall|i: int, j: int|
            0 <= i < j < quotas.len() && (#[trigger] arrange(quotas)[i]).fraction == (
            #[trigger] arrange(quotas)[j]).fraction ==> in_order(
                quotas,
                arrange(quotas)[i],
                arrange(quotas)[j],
            ),
    decreases quotas.len(),
{
    broadcast use group_to_multiset_ensures;

    if quotas.len() > 0 {
        let front = quotas.drop_last();
        let q = quotas[quotas.len() - 1];
        lemma_arrange(front);
        lemma_arrange(quotas);
        lemma_arrange_stable(front);
        let before = arrange(front);
        let now = arrange(quotas);
        let k = lemma_place_at(before, q);
        assert forall|i: int, j: int|
            0 <= i < j < quotas.len() && (#[trigger] now[i]).fraction == (
            #[trigger] now[j]).fraction implies in_order(quotas, now[i], now[j]) by {
            let x = if i < k {
                i
            } else {
                i - 1
            };
            let y = if j < k {
                j
            } else {
                j - 1
            };
            if i == k {
                assert(now[j] == before[j - 1]);
                assert(before[j - 1].fraction < q.fraction);
            } else if j == k {
                assert(now[i] == before[i]);
                assert(before.contains(before[i]));
                assert(front.to_multiset().count(before[i]) > 0);
                assert(front.contains(before[i]));
                let a = choose|a: int| 0 <= a < front.len() && front[a] == before[i];
                assert(quotas[a] == now[i] && quotas[quotas.len() - 1] == now[j]);
            } else {
                assert(now[i] == before[x] && now[j] == before[y]);
                assert(in_order(front, before[x], before[y]));
                let (a, b) = choose|a: int, b: int|
                    0 <= a < b < front.len() && #[trigger] front[a] == before[x]
                        && #[trigger] front[b] == before[y];
                assert(quotas[a] == now[i] && quotas[b] == now[j]);
            }
        }
    }
}

/// Sources of different lengths are sampled from different seeds: a seed and its
/// length always make up the same number.
pub proof fn lemma_seeds_differ(a: u64, b: u64)
    requires
        a != b,
    ensures
        seed_for(a) != seed_for(b),
        seed_for(a) ^ a == 0xC0FF_EE11_2233_4455,
{
    let c: u64 = 0xC0FF_EE11_2233_4455;
    assert(a != b ==> c ^ a != c ^ b) by (bit_vector);
    assert((c ^ a) ^ a == c) by (bit_vector);
}

} // verus!
