//! A Huffman tree is the best that a prefix code can do: no other code lengths
//! that fit take fewer bits. In it a symbol is never deeper than one that occurs
//! less often.

use super::cost::coded_bits;
use super::huffman::{
    before, grown, has, join, kraft, leaves, lemma_leaves, lemma_lightest, lemma_merge_two_grown,
    lemma_picked, lemma_seedlings_grown, lightest, merge_all, merge_two, picked, seedlings,
    tree_depths, Forest,
};
use vstd::arithmetic::power2::{lemma_pow2_adds, lemma_pow2_pos, lemma_pow2_unfold, pow2};
use vstd::prelude::*;

verus! {

/// Weights times lengths of some trees, added up.
spec fn bits_of(trees: Seq<(nat, int)>, lengths: Seq<nat>) -> nat
    decreases trees.len(),
{
    if trees.len() == 0 {
        0
    } else {
        bits_of(trees.drop_last(), lengths.drop_last()) + trees.last().0 * lengths.last()
    }
}

/// Kraft sum of some lengths, in units of `2^-unit`.
spec fn space_of(lengths: Seq<nat>, unit: nat) -> nat
    decreases lengths.len(),
{
    if lengths.len() == 0 {
        0
    } else {
        space_of(lengths.drop_last(), unit) + pow2((unit - lengths.last()) as nat)
    }
}

/// Some lengths, added up.
spec fn total_of(lengths: Seq<nat>) -> nat
    decreases lengths.len(),
{
    if lengths.len() == 0 {
        0
    } else {
        total_of(lengths.drop_last()) + lengths.last()
    }
}

/// What the merges of some trees cost: the weight of every tree that is made.
spec fn merges_of(f: Forest) -> nat
    decreases f.trees.len(),
{
    if f.trees.len() <= 1 {
        0
    } else {
        let (a, b, left) = picked(f);
        if merge_two(f).trees.len() < f.trees.len() {
            a.0 + b.0 + merges_of(merge_two(f))
        } else {
            0
        }
    }
}

proof fn lemma_bits_update(trees: Seq<(nat, int)>, lengths: Seq<nat>, t: int, v: nat)
    requires
        trees.len() == lengths.len(),
        0 <= t < trees.len(),
    ensures
        bits_of(trees, lengths.update(t, v)) == bits_of(trees, lengths) - trees[t].0 * lengths[t]
            + trees[t].0 * v,
    decreases trees.len(),
{
    let n = trees.len() - 1;
    if t == n {
        assert(lengths.update(t, v).drop_last() =~= lengths.drop_last());
    } else {
        assert(lengths.update(t, v).drop_last() =~= lengths.drop_last().update(t, v));
        lemma_bits_update(trees.drop_last(), lengths.drop_last(), t, v);
    }
}

proof fn lemma_bits_remove(trees: Seq<(nat, int)>, lengths: Seq<nat>, t: int)
    requires
        trees.len() == lengths.len(),
        0 <= t < trees.len(),
    ensures
        bits_of(trees.remove(t), lengths.remove(t)) == bits_of(trees, lengths) - trees[t].0
            * lengths[t],
    decreases trees.len(),
{
    let n = trees.len() - 1;
    if t == n {
        assert(trees.remove(t) =~= trees.drop_last());
        assert(lengths.remove(t) =~= lengths.drop_last());
    } else {
        assert(trees.remove(t).drop_last() =~= trees.drop_last().remove(t));
        assert(lengths.remove(t).drop_last() =~= lengths.drop_last().remove(t));
        lemma_bits_remove(trees.drop_last(), lengths.drop_last(), t);
    }
}

proof fn lemma_space_update(lengths: Seq<nat>, unit: nat, t: int, v: nat)
    requires
        0 <= t < lengths.len(),
    ensures
        space_of(lengths.update(t, v), unit) == space_of(lengths, unit) - pow2(
            (unit - lengths[t]) as nat,
        ) + pow2((unit - v) as nat),
        total_of(lengths.update(t, v)) == total_of(lengths) - lengths[t] + v,
    decreases lengths.len(),
{
    let n = lengths.len() - 1;
    if t == n {
        assert(lengths.update(t, v).drop_last() =~= lengths.drop_last());
    } else {
        assert(lengths.update(t, v).drop_last() =~= lengths.drop_last().update(t, v));
        lemma_space_update(lengths.drop_last(), unit, t, v);
    }
}

proof fn lemma_space_remove(lengths: Seq<nat>, unit: nat, t: int)
    requires
        0 <= t < lengths.len(),
    ensures
        space_of(lengths.remove(t), unit) == space_of(lengths, unit) - pow2(
            (unit - lengths[t]) as nat,
        ),
    decreases lengths.len(),
{
    let n = lengths.len() - 1;
    if t == n {
        assert(lengths.remove(t) =~= lengths.drop_last());
    } else {
        assert(lengths.remove(t).drop_last() =~= lengths.drop_last().remove(t));
        lemma_space_remove(lengths.drop_last(), unit, t);
    }
}

/// Lengths of up to `top` take whole parts of `2^(unit - top)`.
proof fn lemma_space_whole(lengths: Seq<nat>, unit: nat, top: nat) -> (parts: nat)
    requires
        top <= unit,
        forall|t: int| 0 <= t < lengths.len() ==> #[trigger] lengths[t] <= top,
    ensures
        space_of(lengths, unit) == parts * pow2((unit - top) as nat),
    decreases lengths.len(),
{
    let d = pow2((unit - top) as nat);
    if lengths.len() == 0 {
        assert(0 * d == 0) by (nonlinear_arith);
        0
    } else {
        let front = lengths.drop_last();
        assert forall|t: int| 0 <= t < front.len() implies #[trigger] front[t] <= top by {
            assert(lengths[t] <= top);
        }
        let before = lemma_space_whole(front, unit, top);
        let last = lengths[lengths.len() - 1];
        let more = pow2((top - last) as nat);
        lemma_pow2_adds((top - last) as nat, (unit - top) as nat);
        assert((before + more) * d == before * d + more * d) by (nonlinear_arith);
        before + more
    }
}

/// Two lengths of two trees, exchanged.
spec fn exchanged(lengths: Seq<nat>, t: int, u: int) -> Seq<nat> {
    lengths.update(t, lengths[u]).update(u, lengths[t])
}

/// Giving the lighter of two trees the longer length costs nothing.
proof fn lemma_exchange(trees: Seq<(nat, int)>, lengths: Seq<nat>, unit: nat, t: int, u: int)
    requires
        trees.len() == lengths.len(),
        0 <= t < trees.len(),
        0 <= u < trees.len(),
        t != u,
        trees[t].0 <= trees[u].0,
        lengths[t] <= lengths[u],
    ensures
        bits_of(trees, exchanged(lengths, t, u)) <= bits_of(trees, lengths),
        space_of(exchanged(lengths, t, u), unit) == space_of(lengths, unit),
        total_of(exchanged(lengths, t, u)) == total_of(lengths),
{
    let once = lengths.update(t, lengths[u]);
    lemma_bits_update(trees, lengths, t, lengths[u]);
    lemma_bits_update(trees, once, u, lengths[t]);
    lemma_space_update(lengths, unit, t, lengths[u]);
    lemma_space_update(once, unit, u, lengths[t]);
    let (w, x) = (trees[t].0 as int, trees[u].0 as int);
    let (l, m) = (lengths[t] as int, lengths[u] as int);
    assert(w * m + x * l <= w * l + x * m) by (nonlinear_arith)
        requires
            w <= x,
            l <= m,
    ;
}

/// Which of some lengths is the longest, leaving out the one at `skip`.
proof fn lemma_longest_at(lengths: Seq<nat>, skip: int, k: nat) -> (at: int)
    requires
        k <= lengths.len(),
        k >= 2 || (k == 1 && skip != 0),
    ensures
        0 <= at < k,
        at != skip,
        forall|t: int| 0 <= t < k && t != skip ==> #[trigger] lengths[t] <= lengths[at],
    decreases k,
{
    let last = k - 1;
    if k >= 3 || (k == 2 && skip != 0) {
        let m = lemma_longest_at(lengths, skip, (k - 1) as nat);
        if last != skip && lengths[last] > lengths[m] {
            last
        } else {
            m
        }
    } else {
        last
    }
}

/// No lengths that fit take fewer bits than the merges cost.
#[verifier::rlimit(60)]
proof fn lemma_merges_best(f: Forest, n: int, lengths: Seq<nat>, unit: nat)
    requires
        grown(f, n),
        f.trees.len() >= 1,
        lengths.len() == f.trees.len(),
        forall|t: int| 0 <= t < lengths.len() ==> #[trigger] lengths[t] <= unit,
        space_of(lengths, unit) <= pow2(unit),
    ensures
        merges_of(f) <= bits_of(f.trees, lengths),
    decreases f.trees.len(), total_of(lengths),
{
    let trees = f.trees;
    if trees.len() >= 2 {
        let i = lightest(trees, trees.len());
        lemma_lightest(trees, trees.len());
        let rest = trees.remove(i);
        let j = lightest(rest, rest.len());
        lemma_lightest(rest, rest.len());
        let k = if j < i {
            j
        } else {
            j + 1
        };
        assert(rest[j] == trees[k]);
        // The lightest tree gets the longest length of all.
        let x = lemma_longest_at(lengths, -1, lengths.len());
        let one = if x == i {
            lengths
        } else {
            exchanged(lengths, i, x)
        };
        if x != i {
            assert(!before(trees[x], trees[i]));
            lemma_exchange(trees, lengths, unit, i, x);
        }
        let top = one[i];
        assert(top == lengths[x]);
        assert forall|t: int| 0 <= t < one.len() implies #[trigger] one[t] <= top by {
            assert(lengths[t] <= lengths[x]);
            assert(lengths[i] <= lengths[x]);
        }
        // The second lightest gets the longest of the others.
        let y = lemma_longest_at(one, i, one.len());
        let two = if y == k {
            one
        } else {
            exchanged(one, k, y)
        };
        if y != k {
            let u = if y < i {
                y
            } else {
                y - 1
            };
            assert(rest[u] == trees[y]);
            assert(!before(rest[u], rest[j]));
            lemma_exchange(trees, one, unit, k, y);
        }
        assert(two[i] == top);
        let next = two[k];
        assert(next == one[y]);
        assert forall|t: int| 0 <= t < two.len() && t != i implies #[trigger] two[t] <= next by {
            assert(one[t] <= one[y]);
            assert(one[k] <= one[y]);
        }
        assert(forall|t: int| 0 <= t < two.len() ==> #[trigger] two[t] <= unit);
        if next < top {
            lemma_top_shortens(two, unit, i, top);
            let three = two.update(i, (top - 1) as nat);
            lemma_bits_update(trees, two, i, (top - 1) as nat);
            lemma_space_update(two, unit, i, (top - 1) as nat);
            let w = trees[i].0;
            assert(w * (top - 1) as nat <= w * top) by (nonlinear_arith)
                requires
                    top >= 1,
            ;
            lemma_merges_best(f, n, three, unit);
        } else {
            lemma_pair_needs_room(two, unit, i, k);
            lemma_picked(f, n);
            lemma_merge_two_grown(f, n);
            let g = merge_two(f);
            let (a, b, left) = picked(f);
            let kept = two.remove(i).remove(j);
            lemma_bits_remove(trees, two, i);
            assert(two.remove(i)[j] == top);
            lemma_bits_remove(rest, two.remove(i), j);
            lemma_space_remove(two, unit, i);
            lemma_space_remove(two.remove(i), unit, j);
            let four = kept.push((top - 1) as nat);
            assert(four.drop_last() =~= kept);
            assert(g.trees.drop_last() =~= left);
            lemma_pow2_unfold((unit - top + 1) as nat);
            let (p, q) = (a.0, b.0);
            assert(p * top + q * top == (p + q) * (top - 1) as nat + p + q) by (nonlinear_arith)
                requires
                    top >= 1,
            ;
            assert forall|t: int| 0 <= t < four.len() implies #[trigger] four[t] <= unit by {
                if t < kept.len() {
                    let m = if t < j {
                        t
                    } else {
                        t + 1
                    };
                    assert(kept[t] == two.remove(i)[m]);
                    assert(two.remove(i)[m] == two[if m < i {
                        m
                    } else {
                        m + 1
                    }]);
                }
            }
            lemma_merges_best(g, n, four, unit);
        }
    }
}

/// Where only one length is the longest, it can be one less.
proof fn lemma_top_shortens(lengths: Seq<nat>, unit: nat, i: int, top: nat)
    requires
        0 <= i < lengths.len(),
        lengths[i] == top,
        1 <= top <= unit,
        forall|t: int| 0 <= t < lengths.len() && t != i ==> #[trigger] lengths[t] < top,
        space_of(lengths, unit) <= pow2(unit),
    ensures
        space_of(lengths.update(i, (top - 1) as nat), unit) <= pow2(unit),
{
    let others = lengths.remove(i);
    lemma_space_remove(lengths, unit, i);
    lemma_space_update(lengths, unit, i, (top - 1) as nat);
    assert forall|t: int| 0 <= t < others.len() implies #[trigger] others[t] <= top - 1 by {
        assert(others[t] == lengths[if t < i {
            t
        } else {
            t + 1
        }]);
    }
    let parts = lemma_space_whole(others, unit, (top - 1) as nat);
    let d = pow2((unit - top + 1) as nat);
    let half = pow2((unit - top) as nat);
    let all = pow2((top - 1) as nat);
    lemma_pow2_unfold((unit - top + 1) as nat);
    lemma_pow2_pos((unit - top) as nat);
    lemma_pow2_adds((top - 1) as nat, (unit - top + 1) as nat);
    assert(parts * d + d <= all * d) by (nonlinear_arith)
        requires
            parts * d + half <= all * d,
            half > 0,
            d > 0,
    ;
}

/// Two codes take at least one bit each.
proof fn lemma_pair_needs_room(lengths: Seq<nat>, unit: nat, i: int, k: int)
    requires
        0 <= i < lengths.len(),
        0 <= k < lengths.len(),
        i != k,
        lengths[i] == lengths[k],
        space_of(lengths, unit) <= pow2(unit),
    ensures
        lengths[i] >= 1,
{
    if lengths[i] == 0 {
        let j = if k < i {
            k
        } else {
            k - 1
        };
        lemma_space_remove(lengths, unit, i);
        assert(lengths.remove(i)[j] == lengths[k]);
        lemma_space_remove(lengths.remove(i), unit, j);
        lemma_pow2_pos(unit);
    }
}

/// Counts of the symbols of one tree among the first `k`, added up.
spec fn weight_of(counts: Seq<u64>, f: Forest, id: int, k: nat) -> nat
    decreases k,
{
    if k == 0 {
        0
    } else {
        weight_of(counts, f, id, (k - 1) as nat) + if f.owner[k - 1] == id {
            counts[k - 1] as nat
        } else {
            0
        }
    }
}

/// Whether every tree weighs what its symbols do.
spec fn weighed(counts: Seq<u64>, f: Forest) -> bool {
    &&& f.owner.len() == counts.len()
    &&& forall|t: int|
        0 <= t < f.trees.len() ==> (#[trigger] f.trees[t]).0 == weight_of(
            counts,
            f,
            f.trees[t].1,
            counts.len(),
        )
}

proof fn lemma_join_bits(
    counts: Seq<u64>,
    f: Forest,
    left: Seq<(nat, int)>,
    a: (nat, int),
    b: (nat, int),
    k: nat,
)
    requires
        f.owner.len() == f.depth.len() == counts.len(),
        k <= counts.len(),
        a.1 != b.1,
        forall|i: int| 0 <= i < f.owner.len() ==> #[trigger] f.owner[i] < f.next,
    ensures
        ({
            let g = join(f, left, a, b);
            &&& coded_bits(counts, g.depth, k) == coded_bits(counts, f.depth, k) + weight_of(
                counts,
                f,
                a.1,
                k,
            ) + weight_of(counts, f, b.1, k)
            &&& weight_of(counts, g, f.next, k) == weight_of(counts, f, a.1, k) + weight_of(
                counts,
                f,
                b.1,
                k,
            )
            &&& forall|id: int|
                id != a.1 && id != b.1 && id != f.next ==> #[trigger] weight_of(counts, g, id, k)
                    == weight_of(counts, f, id, k)
        }),
    decreases k,
{
    if k > 0 {
        lemma_join_bits(counts, f, left, a, b, (k - 1) as nat);
        let g = join(f, left, a, b);
        let o = f.owner[k - 1];
        assert(o < f.next);
        let c = counts[k - 1] as nat;
        let d = f.depth[k - 1];
        if o == a.1 || o == b.1 {
            assert(c * (d + 1) == c * d + c) by (nonlinear_arith);
        }
        assert forall|id: int| id != a.1 && id != b.1 && id != f.next implies #[trigger] weight_of(
            counts,
            g,
            id,
            k,
        ) == weight_of(counts, f, id, k) by {
            assert(weight_of(counts, g, id, (k - 1) as nat) == weight_of(
                counts,
                f,
                id,
                (k - 1) as nat,
            ));
        }
    }
}

/// The merges cost what they add to the bits of the symbols.
proof fn lemma_merges_cost(counts: Seq<u64>, f: Forest, n: int)
    requires
        grown(f, n),
        weighed(counts, f),
    ensures
        coded_bits(counts, merge_all(f).depth, counts.len()) == coded_bits(
            counts,
            f.depth,
            counts.len(),
        ) + merges_of(f),
    decreases f.trees.len(),
{
    if f.trees.len() > 1 {
        lemma_picked(f, n);
        lemma_merge_two_grown(f, n);
        let (a, b, left) = picked(f);
        let g = merge_two(f);
        let i = lightest(f.trees, f.trees.len());
        let rest = f.trees.remove(i);
        let j = lightest(rest, rest.len());
        lemma_lightest(f.trees, f.trees.len());
        lemma_lightest(rest, rest.len());
        assert forall|x: int| 0 <= x < f.owner.len() implies #[trigger] f.owner[x] < f.next by {
            if f.owner[x] != -1 {
                assert(has(f.trees, f.owner[x]));
            }
        }
        lemma_join_bits(counts, f, left, a, b, counts.len());
        assert(a == f.trees[i]);
        assert(b == f.trees[if j < i {
            j
        } else {
            j + 1
        }]);
        assert forall|t: int| 0 <= t < g.trees.len() implies (#[trigger] g.trees[t]).0 == weight_of(
            counts,
            g,
            g.trees[t].1,
            counts.len(),
        ) by {
            if t < left.len() {
                let m = if t < j {
                    t
                } else {
                    t + 1
                };
                assert(left[t] == rest[m]);
                assert(rest[m] == f.trees[if m < i {
                    m
                } else {
                    m + 1
                }]);
                assert(g.trees[t] == left[t]);
            }
        }
        lemma_merges_cost(counts, g, n);
    }
}

/// The lengths of the first `k` symbols that are present.
spec fn present_lengths(counts: Seq<u64>, lengths: Seq<nat>, k: nat) -> Seq<nat>
    decreases k,
{
    if k == 0 {
        Seq::empty()
    } else {
        let before = present_lengths(counts, lengths, (k - 1) as nat);
        if counts[k - 1] > 0 {
            before.push(lengths[k - 1])
        } else {
            before
        }
    }
}

proof fn lemma_present_lengths(counts: Seq<u64>, lengths: Seq<nat>, unit: nat, k: nat)
    requires
        k <= counts.len() == lengths.len(),
        forall|i: int| 0 <= i < counts.len() && counts[i] > 0 ==> #[trigger] lengths[i] <= unit,
    ensures
        ({
            let l = present_lengths(counts, lengths, k);
            &&& l.len() == leaves(counts, k).len()
            &&& space_of(l, unit) == kraft(counts, lengths, unit, k)
            &&& bits_of(leaves(counts, k), l) == coded_bits(counts, lengths, k)
            &&& forall|t: int| 0 <= t < l.len() ==> #[trigger] l[t] <= unit
        }),
    decreases k,
{
    if k > 0 {
        lemma_present_lengths(counts, lengths, unit, (k - 1) as nat);
        let l = present_lengths(counts, lengths, k);
        let front = present_lengths(counts, lengths, (k - 1) as nat);
        let c = counts[k - 1] as nat;
        if c > 0 {
            assert(l.drop_last() =~= front);
            assert(leaves(counts, k).drop_last() =~= leaves(counts, (k - 1) as nat));
            assert(lengths[k - 1] <= unit);
        } else {
            let x = lengths[k - 1];
            assert(c * x == 0) by (nonlinear_arith)
                requires
                    c == 0,
            ;
        }
    }
}

proof fn lemma_seedlings_weighed(counts: Seq<u64>, id: int, k: nat)
    requires
        k <= counts.len(),
        0 <= id,
    ensures
        weight_of(counts, seedlings(counts), id, k) == if id < leaves(counts, k).len() {
            leaves(counts, k)[id].0
        } else {
            0
        },
    decreases k,
{
    if k > 0 {
        lemma_seedlings_weighed(counts, id, (k - 1) as nat);
    }
}

proof fn lemma_no_bits(counts: Seq<u64>, lengths: Seq<nat>, k: nat)
    requires
        k <= lengths.len(),
        forall|i: int| 0 <= i < lengths.len() ==> #[trigger] lengths[i] == 0,
    ensures
        coded_bits(counts, lengths, k) == 0,
    decreases k,
{
    if k > 0 {
        lemma_no_bits(counts, lengths, (k - 1) as nat);
        assert(lengths[k - 1] == 0);
        let c = counts[k - 1] as nat;
        assert(c * 0 == 0) by (nonlinear_arith);
    }
}

/// A Huffman tree is the best prefix code: whatever lengths some symbols are
/// given, if their Kraft sum is at most 1, the counts take no fewer bits with
/// them than with the depths of the tree.
pub proof fn lemma_huffman_best(counts: Seq<u64>, lengths: Seq<nat>, unit: nat)
    requires
        lengths.len() == counts.len(),
        leaves(counts, counts.len()).len() >= 1,
        forall|i: int| 0 <= i < counts.len() && counts[i] > 0 ==> #[trigger] lengths[i] <= unit,
        kraft(counts, lengths, unit, counts.len()) <= pow2(unit),
    ensures
        coded_bits(counts, tree_depths(counts), counts.len()) <= coded_bits(
            counts,
            lengths,
            counts.len(),
        ),
{
    let f = seedlings(counts);
    let n = leaves(counts, counts.len()).len() as int;
    lemma_seedlings_grown(counts);
    lemma_leaves(counts, counts.len());
    lemma_present_lengths(counts, lengths, unit, counts.len());
    assert forall|t: int| 0 <= t < f.trees.len() implies (#[trigger] f.trees[t]).0 == weight_of(
        counts,
        f,
        f.trees[t].1,
        counts.len(),
    ) by {
        lemma_seedlings_weighed(counts, t, counts.len());
    }
    lemma_merges_cost(counts, f, n);
    lemma_no_bits(counts, f.depth, counts.len());
    lemma_merges_best(f, n, present_lengths(counts, lengths, counts.len()), unit);
}

/// How often the tree with a number is merged until one is left.
spec fn merges_from(f: Forest, id: int) -> nat
    decreases f.trees.len(),
{
    if f.trees.len() <= 1 || merge_two(f).trees.len() >= f.trees.len() {
        0
    } else {
        let (a, b, left) = picked(f);
        if id == a.1 || id == b.1 {
            1 + merges_from(merge_two(f), f.next)
        } else {
            merges_from(merge_two(f), id)
        }
    }
}

/// A symbol gets as deep as its tree is merged often.
proof fn lemma_depth_is_merges(f: Forest, n: int, i: int)
    requires
        grown(f, n),
        0 <= i < f.owner.len(),
        f.owner[i] >= 0,
    ensures
        merge_all(f).depth[i] == f.depth[i] + merges_from(f, f.owner[i]),
    decreases f.trees.len(),
{
    if f.trees.len() > 1 {
        lemma_picked(f, n);
        lemma_merge_two_grown(f, n);
        lemma_depth_is_merges(merge_two(f), n, i);
    }
}

/// The two trees that are merged come before all others.
proof fn lemma_picked_first(f: Forest, n: int)
    requires
        grown(f, n),
        f.trees.len() >= 2,
    ensures
        ({
            let (a, b, left) = picked(f);
            &&& before(a, b)
            &&& forall|t: int| 0 <= t < left.len() ==> before(b, #[trigger] left[t])
            &&& forall|t: int|
                0 <= t < f.trees.len() && (#[trigger] f.trees[t]) != a && f.trees[t] != b
                    ==> left.contains(f.trees[t])
            &&& forall|t: int| 0 <= t < left.len() ==> f.trees.contains(#[trigger] left[t])
            &&& f.trees.contains(a)
            &&& f.trees.contains(b)
        }),
{
    lemma_picked(f, n);
    let trees = f.trees;
    let i = lightest(trees, trees.len());
    lemma_lightest(trees, trees.len());
    let rest = trees.remove(i);
    let j = lightest(rest, rest.len());
    lemma_lightest(rest, rest.len());
    let left = rest.remove(j);
    let k = if j < i {
        j
    } else {
        j + 1
    };
    assert(rest[j] == trees[k]);
    assert(!before(trees[k], trees[i]));
    assert(trees[i].1 != trees[k].1);
    assert forall|t: int| 0 <= t < left.len() implies before(rest[j], #[trigger] left[t])
        && trees.contains(left[t]) by {
        let m = if t < j {
            t
        } else {
            t + 1
        };
        let x = if m < i {
            m
        } else {
            m + 1
        };
        assert(left[t] == rest[m] && rest[m] == trees[x]);
        assert(!before(rest[m], rest[j]));
        assert(trees[x].1 != trees[k].1);
    }
    assert forall|t: int|
        0 <= t < trees.len() && (#[trigger] trees[t]) != trees[i] && trees[t]
            != trees[k] implies left.contains(trees[t]) by {
        let m = if t < i {
            t
        } else {
            t - 1
        };
        let x = if m < j {
            m
        } else {
            m - 1
        };
        assert(rest[m] == trees[t]);
        assert(left[x] == rest[m]);
    }
}

/// Whether no two other trees together are lighter than `c`.
spec fn no_pair_lighter(f: Forest, c: (nat, int)) -> bool {
    forall|x: (nat, int), y: (nat, int)|
        #[trigger] f.trees.contains(x) && #[trigger] f.trees.contains(y) && x.1 != y.1 && x.1
            != c.1 && y.1 != c.1 ==> c.0 <= x.0 + y.0
}

/// A tree that is to be merged before another is merged at least as often.
proof fn lemma_earlier_is_deeper(f: Forest, n: int, t: (nat, int), u: (nat, int))
    requires
        grown(f, n),
        f.trees.contains(t),
        f.trees.contains(u),
        before(t, u),
    ensures
        merges_from(f, t.1) >= merges_from(f, u.1),
    decreases f.trees.len(), 0int,
{
    lemma_two_trees(f.trees, t, u);
    lemma_picked(f, n);
    lemma_picked_first(f, n);
    lemma_merge_two_grown(f, n);
    let (a, b, left) = picked(f);
    let g = merge_two(f);
    let c = (a.0 + b.0, f.next);
    lemma_among(f, n, t);
    lemma_among(f, n, u);
    assert(g.trees[g.trees.len() - 1] == c);
    if t.1 != a.1 && t.1 != b.1 && u.1 != a.1 && u.1 != b.1 {
        lemma_earlier_is_deeper(g, n, t, u);
    } else if (t.1 == a.1 || t.1 == b.1) && u.1 != a.1 && u.1 != b.1 {
        assert forall|x: (nat, int), y: (nat, int)|
            #[trigger] g.trees.contains(x) && #[trigger] g.trees.contains(y) && x.1 != y.1 && x.1
                != c.1 && y.1 != c.1 implies c.0 <= x.0 + y.0 by {
            let p = choose|p: int| 0 <= p < g.trees.len() && g.trees[p] == x;
            let q = choose|q: int| 0 <= q < g.trees.len() && g.trees[q] == y;
            assert(left[p] == x && left[q] == y);
            assert(before(b, left[p]) && before(b, left[q]));
        }
        lemma_near_the_joined(g, n, u, c);
    }
}

/// No tree is merged more than once more often than one that no two others
/// together are lighter than.
proof fn lemma_near_the_joined(f: Forest, n: int, u: (nat, int), c: (nat, int))
    requires
        grown(f, n),
        f.trees.contains(u),
        f.trees.contains(c),
        u.1 != c.1,
        no_pair_lighter(f, c),
    ensures
        merges_from(f, u.1) <= merges_from(f, c.1) + 1,
    decreases f.trees.len(), 1int,
{
    lemma_two_trees(f.trees, u, c);
    lemma_picked(f, n);
    lemma_picked_first(f, n);
    lemma_merge_two_grown(f, n);
    let (p, q, left) = picked(f);
    let g = merge_two(f);
    let d = (p.0 + q.0, f.next);
    lemma_among(f, n, u);
    lemma_among(f, n, c);
    assert(g.trees[g.trees.len() - 1] == d);
    let u_in = u.1 == p.1 || u.1 == q.1;
    let c_in = c.1 == p.1 || c.1 == q.1;
    if c_in && !u_in {
        assert forall|x: (nat, int), y: (nat, int)|
            #[trigger] g.trees.contains(x) && #[trigger] g.trees.contains(y) && x.1 != y.1 && x.1
                != d.1 && y.1 != d.1 implies d.0 <= x.0 + y.0 by {
            let i = choose|i: int| 0 <= i < g.trees.len() && g.trees[i] == x;
            let j = choose|j: int| 0 <= j < g.trees.len() && g.trees[j] == y;
            assert(left[i] == x && left[j] == y);
            assert(before(q, left[i]) && before(q, left[j]));
        }
        lemma_near_the_joined(g, n, u, d);
    } else if !c_in && u_in {
        assert(c.0 <= p.0 + q.0);
        assert(before(c, d));
        lemma_earlier_is_deeper(g, n, c, d);
    } else if !c_in && !u_in {
        assert forall|x: (nat, int), y: (nat, int)|
            #[trigger] g.trees.contains(x) && #[trigger] g.trees.contains(y) && x.1 != y.1 && x.1
                != c.1 && y.1 != c.1 implies c.0 <= x.0 + y.0 by {
            assert(c.0 <= p.0 + q.0);
            lemma_from_before(f, n, x);
            lemma_from_before(f, n, y);
        }
        lemma_near_the_joined(g, n, u, c);
    }
}

/// Two different trees are two.
proof fn lemma_two_trees(trees: Seq<(nat, int)>, t: (nat, int), u: (nat, int))
    requires
        trees.contains(t),
        trees.contains(u),
        t != u,
    ensures
        trees.len() >= 2,
{
    let i = choose|i: int| 0 <= i < trees.len() && trees[i] == t;
    let j = choose|j: int| 0 <= j < trees.len() && trees[j] == u;
    assert(i != j);
}

/// A tree is one of the two that are merged, or it stays.
proof fn lemma_among(f: Forest, n: int, t: (nat, int))
    requires
        grown(f, n),
        f.trees.len() >= 2,
        f.trees.contains(t),
    ensures
        ({
            let (a, b, left) = picked(f);
            &&& t.1 == a.1 ==> t == a
            &&& t.1 == b.1 ==> t == b
            &&& t.1 != a.1 && t.1 != b.1 ==> merge_two(f).trees.contains(t)
            &&& t.1 < f.next
        }),
{
    lemma_picked(f, n);
    lemma_picked_first(f, n);
    let (a, b, left) = picked(f);
    let i = choose|i: int| 0 <= i < f.trees.len() && f.trees[i] == t;
    let j = choose|j: int| 0 <= j < f.trees.len() && f.trees[j] == a;
    let k = choose|k: int| 0 <= k < f.trees.len() && f.trees[k] == b;
    if t.1 == a.1 && i != j {
        assert(if i < j {
            f.trees[i].1 != f.trees[j].1
        } else {
            f.trees[j].1 != f.trees[i].1
        });
    }
    if t.1 == b.1 && i != k {
        assert(if i < k {
            f.trees[i].1 != f.trees[k].1
        } else {
            f.trees[k].1 != f.trees[i].1
        });
    }
    if t.1 != a.1 && t.1 != b.1 {
        assert(left.contains(f.trees[i]));
        let x = choose|x: int| 0 <= x < left.len() && left[x] == t;
        assert(merge_two(f).trees[x] == t);
    }
}

/// A tree after a merge is the one that was made, or was there before.
proof fn lemma_from_before(f: Forest, n: int, x: (nat, int))
    requires
        grown(f, n),
        f.trees.len() >= 2,
        merge_two(f).trees.contains(x),
    ensures
        ({
            let (a, b, left) = picked(f);
            x == (a.0 + b.0, f.next) || f.trees.contains(x)
        }),
{
    lemma_picked(f, n);
    lemma_picked_first(f, n);
    let (a, b, left) = picked(f);
    let g = merge_two(f);
    let i = choose|i: int| 0 <= i < g.trees.len() && g.trees[i] == x;
    if i < left.len() {
        assert(left[i] == x);
    }
}

/// A symbol that occurs more often is never deeper in the tree, and of two that
/// occur as often the later one is not.
pub proof fn lemma_frequent_not_deeper(counts: Seq<u64>, i: int, j: int)
    requires
        0 <= i < counts.len(),
        0 <= j < counts.len(),
        0 < counts[i],
        counts[i] < counts[j] || (counts[i] == counts[j] && i < j),
    ensures
        tree_depths(counts)[i] >= tree_depths(counts)[j],
{
    let f = seedlings(counts);
    let n = leaves(counts, counts.len()).len() as int;
    lemma_seedlings_grown(counts);
    lemma_leaves(counts, counts.len());
    lemma_depth_is_merges(f, n, i);
    lemma_depth_is_merges(f, n, j);
    lemma_own_leaf(counts, i, counts.len());
    lemma_own_leaf(counts, j, counts.len());
    let (t, u) = (f.trees[f.owner[i]], f.trees[f.owner[j]]);
    if i < j {
        lemma_own_leaf(counts, i, j as nat);
    }
    lemma_earlier_is_deeper(f, n, t, u);
}

/// A symbol that is present has a leaf of its count, behind those of the
/// symbols before it.
proof fn lemma_own_leaf(counts: Seq<u64>, i: int, k: nat)
    requires
        0 <= i < k <= counts.len(),
        counts[i] > 0,
    ensures
        leaves(counts, i as nat).len() < leaves(counts, k).len(),
        leaves(counts, k)[leaves(counts, i as nat).len() as int] == (
            counts[i] as nat,
            leaves(counts, i as nat).len() as int,
        ),
    decreases k,
{
    if i < k - 1 {
        lemma_own_leaf(counts, i, (k - 1) as nat);
    }
}

} // verus!
