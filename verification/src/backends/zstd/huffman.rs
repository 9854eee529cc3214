//! Length-limited Huffman code lengths, by the clamp-then-Kraft-repair
//! heuristic (what zstd's HUF builder effectively achieves with its own
//! optimizer).

use crate::stats::sum_u64;
use vstd::arithmetic::power2::{
    lemma2_to64, lemma2_to64_rest, lemma_pow2_adds, lemma_pow2_pos, lemma_pow2_strictly_increases,
    lemma_pow2_unfold, pow2,
};
use vstd::bits::lemma_u64_shl_is_mul;
use vstd::prelude::*;

verus! {

/// The merging of a Huffman tree in progress.
pub struct Forest {
    /// Weight and number of every tree, numbered by age.
    pub trees: Seq<(nat, int)>,
    /// The number of the tree that a symbol belongs to, -1 if it is absent.
    pub owner: Seq<int>,
    /// How many merges a symbol has been part of.
    pub depth: Seq<nat>,
    /// The number of the next tree.
    pub next: int,
}

/// The trees of the first `k` symbols: one for each that is present, in
/// order.
pub open spec fn leaves(counts: Seq<u64>, k: nat) -> Seq<(nat, int)>
    decreases k,
{
    if k == 0 {
        Seq::empty()
    } else {
        let before = leaves(counts, (k - 1) as nat);
        if counts[k - 1] > 0 {
            before.push((counts[k - 1] as nat, before.len() as int))
        } else {
            before
        }
    }
}

/// Every symbol that is present in a tree of its own.
pub open spec fn seedlings(counts: Seq<u64>) -> Forest {
    Forest {
        trees: leaves(counts, counts.len()),
        owner: Seq::new(
            counts.len(),
            |i: int|
                if counts[i] > 0 {
                    leaves(counts, i as nat).len() as int
                } else {
                    -1
                },
        ),
        depth: Seq::new(counts.len(), |i: int| 0nat),
        next: leaves(counts, counts.len()).len() as int,
    }
}

/// Whether a tree is to be merged before another: it is lighter, or as light
/// and older.
pub open spec fn before(a: (nat, int), b: (nat, int)) -> bool {
    a.0 < b.0 || (a.0 == b.0 && a.1 < b.1)
}

/// Which of the first `k` trees is to be merged first.
pub open spec fn lightest(trees: Seq<(nat, int)>, k: nat) -> int
    decreases k,
{
    if k <= 1 {
        0
    } else {
        let m = lightest(trees, (k - 1) as nat);
        if before(trees[k - 1], trees[m]) {
            k - 1
        } else {
            m
        }
    }
}

/// Merge the trees `a` and `b` into one.
pub open spec fn join(f: Forest, rest: Seq<(nat, int)>, a: (nat, int), b: (nat, int)) -> Forest {
    Forest {
        trees: rest.push((a.0 + b.0, f.next)),
        owner: Seq::new(
            f.owner.len(),
            |i: int|
                if f.owner[i] == a.1 || f.owner[i] == b.1 {
                    f.next
                } else {
                    f.owner[i]
                },
        ),
        depth: Seq::new(
            f.depth.len(),
            |i: int|
                if f.owner[i] == a.1 || f.owner[i] == b.1 {
                    f.depth[i] + 1
                } else {
                    f.depth[i]
                },
        ),
        next: f.next + 1,
    }
}

/// Merge the two lightest trees.
pub open spec fn merge_two(f: Forest) -> Forest {
    let i = lightest(f.trees, f.trees.len());
    let rest = f.trees.remove(i);
    let j = lightest(rest, rest.len());
    join(f, rest.remove(j), f.trees[i], rest[j])
}

/// Merge the two lightest trees until one is left.
pub open spec fn merge_all(f: Forest) -> Forest
    decreases f.trees.len(),
{
    if f.trees.len() <= 1 {
        f
    } else {
        proof {
            lemma_lightest(f.trees, f.trees.len());
            let rest = f.trees.remove(lightest(f.trees, f.trees.len()));
            lemma_lightest(rest, rest.len());
        }
        merge_all(merge_two(f))
    }
}

/// The depth of every symbol in the Huffman tree of its counts.
pub open spec fn tree_depths(counts: Seq<u64>) -> Seq<nat> {
    merge_all(seedlings(counts)).depth
}

/// `lengths`, but none above `limit`.
pub open spec fn clamped(lengths: Seq<nat>, limit: nat) -> Seq<nat> {
    Seq::new(
        lengths.len(),
        |i: int|
            if lengths[i] > limit {
                limit
            } else {
                lengths[i]
            },
    )
}

/// Kraft sum of the first `k` symbols, in units of `2^-limit`.
pub open spec fn kraft(counts: Seq<u64>, lengths: Seq<nat>, limit: nat, k: nat) -> nat
    decreases k,
{
    if k == 0 {
        0
    } else {
        kraft(counts, lengths, limit, (k - 1) as nat) + if counts[k - 1] > 0 {
            pow2((limit - lengths[k - 1]) as nat)
        } else {
            0
        }
    }
}

/// The first of the shortest lengths below `limit` among the first `k`
/// symbols, -1 if there is none.
pub open spec fn shortest(counts: Seq<u64>, lengths: Seq<nat>, limit: nat, k: nat) -> int
    decreases k,
{
    if k == 0 {
        -1
    } else {
        let m = shortest(counts, lengths, limit, (k - 1) as nat);
        if counts[k - 1] > 0 && lengths[k - 1] < limit && (m < 0 || lengths[m] > lengths[k - 1]) {
            k - 1
        } else {
            m
        }
    }
}

/// How far the first `k` lengths are from `limit`, added up.
pub open spec fn slack(lengths: Seq<nat>, limit: nat, k: nat) -> nat
    decreases k,
{
    if k == 0 {
        0
    } else {
        slack(lengths, limit, (k - 1) as nat) + if lengths[k - 1] < limit {
            (limit - lengths[k - 1]) as nat
        } else {
            0
        }
    }
}

/// Lengthen the first of the shortest codes until the Kraft sum is at most 1.
pub open spec fn repair(counts: Seq<u64>, lengths: Seq<nat>, limit: nat) -> Seq<nat>
    decreases slack(lengths, limit, lengths.len()),
{
    let s = shortest(counts, lengths, limit, lengths.len());
    if kraft(counts, lengths, limit, lengths.len()) <= pow2(limit) || s < 0 {
        lengths
    } else {
        proof {
            lemma_shortest(counts, lengths, limit, lengths.len());
            lemma_slack_step(lengths, limit, lengths.len(), s);
        }
        repair(counts, lengths.update(s, lengths[s] + 1), limit)
    }
}

/// Whether a depth is above `limit`.
pub open spec fn too_deep(depths: Seq<nat>, limit: nat) -> bool {
    exists|i: int| 0 <= i < depths.len() && #[trigger] depths[i] > limit
}

/// Huffman code lengths of at most `limit` bits: 0 for an absent symbol, 1
/// for one that is alone.
pub open spec fn code_lengths(counts: Seq<u64>, limit: nat) -> Seq<nat> {
    let depths = tree_depths(counts);
    if leaves(counts, counts.len()).len() == 1 {
        Seq::new(
            counts.len(),
            |i: int|
                if counts[i] > 0 {
                    1nat
                } else {
                    0nat
                },
        )
    } else if too_deep(depths, limit) {
        repair(counts, clamped(depths, limit), limit)
    } else {
        depths
    }
}

/// The lightest tree is one of those, and none is to be merged before it.
pub proof fn lemma_lightest(trees: Seq<(nat, int)>, k: nat)
    requires
        0 < k <= trees.len(),
    ensures
        0 <= lightest(trees, k) < k,
        forall|i: int| 0 <= i < k ==> !before(#[trigger] trees[i], trees[lightest(trees, k)]),
    decreases k,
{
    if k > 1 {
        lemma_lightest(trees, (k - 1) as nat);
    }
}

/// The shortest length below the limit, where there is one, is one of those.
pub proof fn lemma_shortest(counts: Seq<u64>, lengths: Seq<nat>, limit: nat, k: nat)
    ensures
        ({
            let m = shortest(counts, lengths, limit, k);
            &&& -1 <= m < k
            &&& m >= 0 ==> counts[m] > 0 && lengths[m] < limit
            &&& m < 0 ==> forall|i: int|
                0 <= i < k && counts[i] > 0 ==> #[trigger] lengths[i] >= limit
            &&& m >= 0 ==> forall|i: int|
                0 <= i < k && counts[i] > 0 ==> #[trigger] lengths[i] >= lengths[m]
            &&& forall|i: int|
                0 <= i < m && counts[i] > 0 ==> #[trigger] lengths[i] > lengths[m]
        }),
    decreases k,
{
    if k > 0 {
        lemma_shortest(counts, lengths, limit, (k - 1) as nat);
    }
}

/// Lengthening a code takes one from the slack.
pub proof fn lemma_slack_step(lengths: Seq<nat>, limit: nat, k: nat, s: int)
    requires
        0 <= s < lengths.len(),
        k <= lengths.len(),
        lengths[s] < limit,
    ensures
        slack(lengths.update(s, lengths[s] + 1), limit, k) == slack(lengths, limit, k) - if s < k {
            1int
        } else {
            0int
        },
    decreases k,
{
    if k > 0 {
        lemma_slack_step(lengths, limit, (k - 1) as nat, s);
    }
}

/// Whether one of the trees has a number.
pub open spec fn has(trees: Seq<(nat, int)>, id: int) -> bool {
    exists|t: int| 0 <= t < trees.len() && (#[trigger] trees[t]).1 == id
}

/// What every step of the merging keeps, from `n` symbols on: tree numbers
/// are distinct, every symbol is in a tree or absent, each merge made one
/// tree out of two, and who was merged is deeper.
pub open spec fn grown(f: Forest, n: int) -> bool {
    &&& f.owner.len() == f.depth.len()
    &&& forall|t: int| 0 <= t < f.trees.len() ==> 0 <= (#[trigger] f.trees[t]).1 < f.next
    &&& forall|t: int, u: int|
        0 <= t < u < f.trees.len() ==> (#[trigger] f.trees[t]).1 != (#[trigger] f.trees[u]).1
    &&& f.trees.len() + (f.next - n) == n
    &&& n <= f.next
    &&& forall|i: int|
        0 <= i < f.owner.len() ==> {
            let o = #[trigger] f.owner[i];
            &&& o == -1 || has(f.trees, o)
            &&& o == -1 ==> f.depth[i] == 0
            &&& o >= n ==> f.depth[i] >= 1
            &&& f.depth[i] <= f.next - n
        }
}

proof fn lemma_has_remove(trees: Seq<(nat, int)>, k: int, id: int)
    requires
        0 <= k < trees.len(),
        has(trees, id),
        id != trees[k].1,
    ensures
        has(trees.remove(k), id),
{
    let t = choose|t: int| 0 <= t < trees.len() && (#[trigger] trees[t]).1 == id;
    if t < k {
        assert(trees.remove(k)[t].1 == id);
    } else {
        assert(trees.remove(k)[t - 1].1 == id);
    }
}

proof fn lemma_has_push(trees: Seq<(nat, int)>, x: (nat, int), id: int)
    ensures
        has(trees, id) ==> has(trees.push(x), id),
        has(trees.push(x), x.1),
{
    if has(trees, id) {
        let t = choose|t: int| 0 <= t < trees.len() && (#[trigger] trees[t]).1 == id;
        assert(trees.push(x)[t].1 == id);
    }
    assert(trees.push(x)[trees.len() as int].1 == x.1);
}

/// The two trees that are merged, and those that are left.
pub open spec fn picked(f: Forest) -> ((nat, int), (nat, int), Seq<(nat, int)>) {
    let i = lightest(f.trees, f.trees.len());
    let rest = f.trees.remove(i);
    let j = lightest(rest, rest.len());
    (f.trees[i], rest[j], rest.remove(j))
}

pub proof fn lemma_picked(f: Forest, n: int)
    requires
        grown(f, n),
        f.trees.len() >= 2,
    ensures
        ({
            let (a, b, left) = picked(f);
            &&& merge_two(f) == join(f, left, a, b)
            &&& a.1 != b.1
            &&& 0 <= a.1 < f.next
            &&& 0 <= b.1 < f.next
            &&& has(f.trees, a.1)
            &&& has(f.trees, b.1)
            &&& left.len() == f.trees.len() - 2
            &&& forall|t: int|
                0 <= t < left.len() ==> {
                    let x = #[trigger] left[t];
                    0 <= x.1 < f.next && x.1 != a.1 && x.1 != b.1 && has(f.trees, x.1)
                }
            &&& forall|t: int, u: int|
                0 <= t < u < left.len() ==> (#[trigger] left[t]).1 != (#[trigger] left[u]).1
            &&& forall|id: int|
                has(f.trees, id) && id != a.1 && id != b.1 ==> #[trigger] has(left, id)
        }),
{
    let i = lightest(f.trees, f.trees.len());
    lemma_lightest(f.trees, f.trees.len());
    let rest = f.trees.remove(i);
    let j = lightest(rest, rest.len());
    lemma_lightest(rest, rest.len());
    let left = rest.remove(j);
    let a = f.trees[i];
    let b = rest[j];
    assert(forall|t: int|
        0 <= t < rest.len() ==> #[trigger] rest[t] == f.trees[if t < i {
            t
        } else {
            t + 1
        }]);
    assert(forall|t: int|
        0 <= t < left.len() ==> #[trigger] left[t] == rest[if t < j {
            t
        } else {
            t + 1
        }]);
    assert forall|id: int| has(f.trees, id) && id != a.1 && id != b.1 implies #[trigger] has(
        left,
        id,
    ) by {
        lemma_has_remove(f.trees, i, id);
        lemma_has_remove(rest, j, id);
    }
}

pub proof fn lemma_merge_two_grown(f: Forest, n: int)
    requires
        grown(f, n),
        f.trees.len() >= 2,
    ensures
        grown(merge_two(f), n),
        merge_two(f).trees.len() == f.trees.len() - 1,
{
    lemma_picked(f, n);
    let (a, b, left) = picked(f);
    let g = merge_two(f);
    assert forall|i: int| 0 <= i < g.owner.len() implies {
        let o = #[trigger] g.owner[i];
        &&& o == -1 || has(g.trees, o)
        &&& o == -1 ==> g.depth[i] == 0
        &&& o >= n ==> g.depth[i] >= 1
        &&& g.depth[i] <= g.next - n
    } by {
        let o = f.owner[i];
        lemma_has_push(left, (a.0 + b.0, f.next), o);
        if o != -1 && o != a.1 && o != b.1 {
            assert(has(left, o));
        }
    }
}

pub proof fn lemma_leaves(counts: Seq<u64>, k: nat)
    requires
        k <= counts.len(),
    ensures
        leaves(counts, k).len() <= k,
        forall|t: int| 0 <= t < leaves(counts, k).len() ==> (#[trigger] leaves(counts, k)[t]).1 == t,
        forall|i: int|
            0 <= i < k && #[trigger] counts[i] > 0 ==> leaves(counts, i as nat).len() < leaves(
                counts,
                k,
            ).len(),
    decreases k,
{
    if k > 0 {
        lemma_leaves(counts, (k - 1) as nat);
    }
}

pub proof fn lemma_seedlings_grown(counts: Seq<u64>)
    ensures
        grown(seedlings(counts), leaves(counts, counts.len()).len() as int),
        forall|i: int|
            0 <= i < counts.len() ==> (#[trigger] counts[i] > 0 <==> seedlings(counts).owner[i]
                >= 0),
{
    let n = counts.len();
    lemma_leaves(counts, n);
    let f = seedlings(counts);
    assert forall|i: int| 0 <= i < f.owner.len() implies {
        let o = #[trigger] f.owner[i];
        o == -1 || has(f.trees, o)
    } by {
        if counts[i] > 0 {
            assert(f.trees[leaves(counts, i as nat).len() as int].1 == f.owner[i]);
        }
    }
}

/// Merging keeps who is present, and nobody gets less deep.
proof fn lemma_merge_all_grown(f: Forest, n: int)
    requires
        grown(f, n),
    ensures
        grown(merge_all(f), n),
        f.trees.len() >= 1 ==> merge_all(f).trees.len() == 1,
        merge_all(f).owner.len() == f.owner.len(),
        forall|i: int|
            0 <= i < f.owner.len() ==> {
                &&& (merge_all(f).owner[i] >= 0 <==> #[trigger] f.owner[i] >= 0)
                &&& merge_all(f).depth[i] >= f.depth[i]
            },
    decreases f.trees.len(),
{
    if f.trees.len() > 1 {
        lemma_merge_two_grown(f, n);
        lemma_picked(f, n);
        let g = merge_two(f);
        lemma_merge_all_grown(g, n);
        assert forall|i: int| 0 <= i < f.owner.len() implies {
            &&& (merge_all(f).owner[i] >= 0 <==> #[trigger] f.owner[i] >= 0)
            &&& merge_all(f).depth[i] >= f.depth[i]
        } by {
            assert(g.owner[i] >= 0 <==> f.owner[i] >= 0);
        }
    }
}

/// The depths of a Huffman tree: 0 exactly for what is absent, and less than
/// the number of symbols.
pub proof fn lemma_tree_depths(counts: Seq<u64>)
    requires
        leaves(counts, counts.len()).len() >= 2,
    ensures
        tree_depths(counts).len() == counts.len(),
        forall|i: int|
            0 <= i < counts.len() ==> {
                &&& counts[i] == 0 ==> #[trigger] tree_depths(counts)[i] == 0
                &&& counts[i] > 0 ==> 1 <= tree_depths(counts)[i] < leaves(
                    counts,
                    counts.len(),
                ).len()
            },
{
    let f = seedlings(counts);
    let n = leaves(counts, counts.len()).len() as int;
    lemma_seedlings_grown(counts);
    lemma_merge_all_grown(f, n);
    let g = merge_all(f);
    assert forall|i: int| 0 <= i < counts.len() implies {
        &&& counts[i] == 0 ==> #[trigger] tree_depths(counts)[i] == 0
        &&& counts[i] > 0 ==> 1 <= tree_depths(counts)[i] < n
    } by {
        assert(counts[i] > 0 <==> f.owner[i] >= 0);
        assert(g.owner[i] >= 0 <==> f.owner[i] >= 0);
        if counts[i] > 0 {
            assert(has(g.trees, g.owner[i]));
            lemma_last_tree(f, n);
        }
    }
}

/// The tree that is left is the last that was made.
proof fn lemma_last_tree(f: Forest, n: int)
    requires
        grown(f, n),
        f.trees.len() >= 2,
    ensures
        merge_all(f).trees.len() == 1,
        merge_all(f).trees[0].1 >= n,
    decreases f.trees.len(),
{
    lemma_merge_two_grown(f, n);
    let g = merge_two(f);
    if g.trees.len() >= 2 {
        lemma_last_tree(g, n);
    } else {
        assert(g.trees.last().1 == f.next);
    }
}

/// Kraft sum of the symbols of one tree, in units of `2^-unit`, among the
/// first `k`.
pub open spec fn tree_kraft(f: Forest, id: int, unit: nat, k: nat) -> nat
    decreases k,
{
    if k == 0 {
        0
    } else {
        tree_kraft(f, id, unit, (k - 1) as nat) + if f.owner[k - 1] == id {
            pow2((unit - f.depth[k - 1]) as nat)
        } else {
            0
        }
    }
}

proof fn lemma_join_kraft(f: Forest, left: Seq<(nat, int)>, a: (nat, int), b: (nat, int), unit: nat, k: nat)
    requires
        f.owner.len() == f.depth.len(),
        k <= f.owner.len(),
        a.1 != b.1,
        a.1 >= 0,
        b.1 >= 0,
        forall|i: int| 0 <= i < f.owner.len() ==> #[trigger] f.owner[i] < f.next,
        forall|i: int|
            0 <= i < f.owner.len() ==> #[trigger] join(f, left, a, b).depth[i] <= unit,
    ensures
        2 * tree_kraft(join(f, left, a, b), f.next, unit, k) == tree_kraft(f, a.1, unit, k)
            + tree_kraft(f, b.1, unit, k),
        forall|id: int|
            id != a.1 && id != b.1 && id != f.next ==> #[trigger] tree_kraft(
                join(f, left, a, b),
                id,
                unit,
                k,
            ) == tree_kraft(f, id, unit, k),
    decreases k,
{
    if k > 0 {
        lemma_join_kraft(f, left, a, b, unit, (k - 1) as nat);
        let g = join(f, left, a, b);
        let o = f.owner[k - 1];
        assert(g.depth[k - 1] <= unit);
        if o == a.1 || o == b.1 {
            lemma_pow2_unfold((unit - f.depth[k - 1]) as nat);
        }
        assert forall|id: int| id != a.1 && id != b.1 && id != f.next implies #[trigger] tree_kraft(
            g,
            id,
            unit,
            k,
        ) == tree_kraft(f, id, unit, k) by {
            assert(tree_kraft(g, id, unit, (k - 1) as nat) == tree_kraft(
                f,
                id,
                unit,
                (k - 1) as nat,
            ));
        }
    }
}

/// A Huffman code is complete: the Kraft sum of every tree is 1.
proof fn lemma_merge_all_kraft(f: Forest, n: int, unit: nat)
    requires
        grown(f, n),
        forall|t: int|
            0 <= t < f.trees.len() ==> tree_kraft(
                f,
                (#[trigger] f.trees[t]).1,
                unit,
                f.owner.len(),
            ) == pow2(unit),
        forall|i: int| 0 <= i < f.owner.len() ==> #[trigger] merge_all(f).depth[i] <= unit,
    ensures
        forall|t: int|
            0 <= t < merge_all(f).trees.len() ==> tree_kraft(
                merge_all(f),
                (#[trigger] merge_all(f).trees[t]).1,
                unit,
                f.owner.len(),
            ) == pow2(unit),
    decreases f.trees.len(),
{
    if f.trees.len() > 1 {
        lemma_picked(f, n);
        let (a, b, left) = picked(f);
        let g = merge_two(f);
        lemma_merge_two_grown(f, n);
        lemma_merge_all_grown(g, n);
        assert forall|i: int| 0 <= i < f.owner.len() implies #[trigger] join(f, left, a, b).depth[i]
            <= unit by {
            assert(g.owner[i] == -1 || has(g.trees, g.owner[i]));
            assert(merge_all(g).depth[i] >= g.depth[i]);
            assert(merge_all(f).depth[i] <= unit);
        }
        assert forall|i: int| 0 <= i < f.owner.len() implies #[trigger] f.owner[i] < f.next by {
            if f.owner[i] != -1 {
                assert(has(f.trees, f.owner[i]));
            }
        }
        lemma_join_kraft(f, left, a, b, unit, f.owner.len());
        assert forall|t: int| 0 <= t < g.trees.len() implies tree_kraft(
            g,
            (#[trigger] g.trees[t]).1,
            unit,
            g.owner.len(),
        ) == pow2(unit) by {
            if t < left.len() {
                let x = left[t];
                assert(has(f.trees, x.1));
            } else {
                assert(has(f.trees, a.1));
                assert(has(f.trees, b.1));
            }
        }
        assert forall|i: int| 0 <= i < g.owner.len() implies #[trigger] merge_all(g).depth[i]
            <= unit by {
            assert(merge_all(f).depth[i] <= unit);
        }
        lemma_merge_all_kraft(g, n, unit);
    }
}

proof fn lemma_seedlings_kraft(counts: Seq<u64>, id: int, unit: nat, k: nat)
    requires
        k <= counts.len(),
        0 <= id,
    ensures
        tree_kraft(seedlings(counts), id, unit, k) == if id < leaves(counts, k).len() {
            pow2(unit)
        } else {
            0
        },
    decreases k,
{
    if k > 0 {
        lemma_seedlings_kraft(counts, id, unit, (k - 1) as nat);
    }
}

proof fn lemma_one_tree_kraft(counts: Seq<u64>, f: Forest, id: int, unit: nat, k: nat)
    requires
        k <= counts.len() == f.owner.len(),
        forall|i: int|
            0 <= i < counts.len() ==> (#[trigger] counts[i] > 0 <==> f.owner[i] == id),
    ensures
        kraft(counts, f.depth, unit, k) == tree_kraft(f, id, unit, k),
    decreases k,
{
    if k > 0 {
        lemma_one_tree_kraft(counts, f, id, unit, (k - 1) as nat);
        assert(counts[k - 1] > 0 <==> f.owner[k - 1] == id);
    }
}

/// The depths of a Huffman tree make a complete prefix code: their Kraft sum
/// is 1.
pub proof fn lemma_huffman_complete(counts: Seq<u64>, unit: nat)
    requires
        leaves(counts, counts.len()).len() >= 2,
        forall|i: int| 0 <= i < counts.len() ==> #[trigger] tree_depths(counts)[i] <= unit,
    ensures
        kraft(counts, tree_depths(counts), unit, counts.len()) == pow2(unit),
{
    let f = seedlings(counts);
    let n = leaves(counts, counts.len()).len() as int;
    lemma_seedlings_grown(counts);
    lemma_leaves(counts, counts.len());
    lemma_merge_all_grown(f, n);
    assert forall|t: int| 0 <= t < f.trees.len() implies tree_kraft(
        f,
        (#[trigger] f.trees[t]).1,
        unit,
        f.owner.len(),
    ) == pow2(unit) by {
        lemma_seedlings_kraft(counts, t, unit, counts.len());
    }
    assert forall|i: int| 0 <= i < f.owner.len() implies #[trigger] merge_all(f).depth[i]
        <= unit by {
        assert(tree_depths(counts)[i] <= unit);
    }
    lemma_merge_all_kraft(f, n, unit);
    let g = merge_all(f);
    let id = g.trees[0].1;
    assert forall|i: int| 0 <= i < counts.len() implies (#[trigger] counts[i] > 0 <==> g.owner[i]
        == id) by {
        assert(counts[i] > 0 <==> f.owner[i] >= 0);
        assert(g.owner[i] >= 0 <==> f.owner[i] >= 0);
        if g.owner[i] >= 0 {
            assert(has(g.trees, g.owner[i]));
        }
    }
    lemma_one_tree_kraft(counts, g, id, unit, counts.len());
}

proof fn lemma_kraft_at_limit(counts: Seq<u64>, lengths: Seq<nat>, limit: nat, k: nat)
    requires
        k <= counts.len() == lengths.len(),
        forall|i: int| 0 <= i < k && counts[i] > 0 ==> #[trigger] lengths[i] == limit,
    ensures
        kraft(counts, lengths, limit, k) == leaves(counts, k).len(),
    decreases k,
{
    if k > 0 {
        lemma_kraft_at_limit(counts, lengths, limit, (k - 1) as nat);
        lemma2_to64();
    }
}

/// Lengthening one code takes half of its share from the Kraft sum.
proof fn lemma_kraft_step(counts: Seq<u64>, lengths: Seq<nat>, limit: nat, k: nat, s: int)
    requires
        k <= counts.len() == lengths.len(),
        0 <= s < lengths.len(),
        counts[s] > 0,
        lengths[s] < limit,
    ensures
        kraft(counts, lengths.update(s, lengths[s] + 1), limit, k) == kraft(
            counts,
            lengths,
            limit,
            k,
        ) - if s < k {
            pow2((limit - lengths[s] - 1) as nat) as int
        } else {
            0int
        },
    decreases k,
{
    if k > 0 {
        lemma_kraft_step(counts, lengths, limit, (k - 1) as nat, s);
        if s == k - 1 {
            lemma_pow2_unfold((limit - lengths[s]) as nat);
        }
    }
}

/// What the repair leaves: lengths up to the limit, none shorter than before,
/// nothing for what is absent, and a Kraft sum of at most 1 where the limit
/// allows one.
proof fn lemma_repair(counts: Seq<u64>, lengths: Seq<nat>, limit: nat)
    requires
        counts.len() == lengths.len(),
        forall|i: int| 0 <= i < lengths.len() ==> #[trigger] lengths[i] <= limit,
    ensures
        repair(counts, lengths, limit).len() == lengths.len(),
        forall|i: int|
            0 <= i < lengths.len() ==> lengths[i] <= #[trigger] repair(counts, lengths, limit)[i]
                <= limit,
        forall|i: int|
            0 <= i < lengths.len() && counts[i] == 0 ==> #[trigger] repair(
                counts,
                lengths,
                limit,
            )[i] == lengths[i],
        leaves(counts, counts.len()).len() <= pow2(limit) ==> kraft(
            counts,
            repair(counts, lengths, limit),
            limit,
            counts.len(),
        ) <= pow2(limit),
    decreases slack(lengths, limit, lengths.len()),
{
    let s = shortest(counts, lengths, limit, lengths.len());
    lemma_shortest(counts, lengths, limit, lengths.len());
    if kraft(counts, lengths, limit, lengths.len()) <= pow2(limit) {
    } else if s < 0 {
        lemma_kraft_at_limit(counts, lengths, limit, counts.len());
    } else {
        lemma_slack_step(lengths, limit, lengths.len(), s);
        lemma_repair(counts, lengths.update(s, lengths[s] + 1), limit);
    }
}

/// Huffman code lengths respect the limit: none is longer, only an absent
/// symbol has none, and the Kraft sum is at most 1 whenever the limit leaves
/// room for that many symbols.
pub proof fn lemma_code_lengths(counts: Seq<u64>, limit: nat)
    requires
        limit >= 1,
    ensures
        code_lengths(counts, limit).len() == counts.len(),
        forall|i: int|
            0 <= i < counts.len() ==> {
                &&& counts[i] == 0 ==> #[trigger] code_lengths(counts, limit)[i] == 0
                &&& counts[i] > 0 ==> 1 <= code_lengths(counts, limit)[i] <= limit
            },
        leaves(counts, counts.len()).len() <= pow2(limit) ==> kraft(
            counts,
            code_lengths(counts, limit),
            limit,
            counts.len(),
        ) <= pow2(limit),
{
    let n = leaves(counts, counts.len()).len();
    let depths = tree_depths(counts);
    if n == 0 {
        lemma_nothing_present(counts, counts.len());
        assert(depths =~= Seq::new(counts.len(), |i: int| 0nat));
        lemma_kraft_absent(counts, depths, limit, counts.len());
    } else if n == 1 {
        lemma_kraft_alone(counts, limit, counts.len());
        lemma_pow2_unfold(limit);
    } else {
        lemma_tree_depths(counts);
        if too_deep(depths, limit) {
            let c = clamped(depths, limit);
            lemma_repair(counts, c, limit);
            assert forall|i: int| 0 <= i < counts.len() implies {
                &&& counts[i] == 0 ==> #[trigger] code_lengths(counts, limit)[i] == 0
                &&& counts[i] > 0 ==> 1 <= code_lengths(counts, limit)[i] <= limit
            } by {
                assert(repair(counts, c, limit)[i] >= c[i]);
                assert(counts[i] > 0 ==> depths[i] >= 1);
                assert(counts[i] == 0 ==> depths[i] == 0);
            }
        } else {
            assert forall|i: int| 0 <= i < counts.len() implies #[trigger] depths[i] <= limit by {}
            lemma_huffman_complete(counts, limit);
        }
    }
}

/// The repair stops as soon as it may, and takes from the shortest codes first.
proof fn lemma_repair_tight(counts: Seq<u64>, lengths: Seq<nat>, limit: nat)
    requires
        counts.len() == lengths.len(),
        forall|i: int| 0 <= i < lengths.len() ==> #[trigger] lengths[i] <= limit,
    ensures
        ({
            let r = repair(counts, lengths, limit);
            &&& r != lengths ==> exists|s: int|
                {
                    &&& 0 <= s < counts.len()
                    &&& counts[s] > 0
                    &&& #[trigger] r[s] > lengths[s]
                    &&& kraft(counts, r.update(s, (r[s] - 1) as nat), limit, counts.len()) > pow2(
                        limit,
                    )
                }
            &&& forall|s: int, t: int|
                0 <= s < counts.len() && 0 <= t < counts.len() && counts[t] > 0 && lengths[s]
                    < #[trigger] r[s] && #[trigger] r[t] < limit ==> r[s] <= r[t] + 1
            &&& forall|s: int, t: int|
                0 <= t < s < counts.len() && counts[t] > 0 && lengths[s] < #[trigger] r[s]
                    ==> r[s] <= #[trigger] r[t]
            &&& kraft(counts, r, limit, counts.len()) > pow2(limit) ==> forall|i: int|
                0 <= i < counts.len() && counts[i] > 0 ==> #[trigger] r[i] == limit
        }),
    decreases slack(lengths, limit, lengths.len()),
{
    let s = shortest(counts, lengths, limit, lengths.len());
    let r = repair(counts, lengths, limit);
    lemma_shortest(counts, lengths, limit, lengths.len());
    lemma_repair(counts, lengths, limit);
    if kraft(counts, lengths, limit, lengths.len()) <= pow2(limit) || s < 0 {
        assert forall|i: int|
            kraft(counts, r, limit, counts.len()) > pow2(limit) && 0 <= i < counts.len()
                && counts[i] > 0 implies #[trigger] r[i] == limit by {
            assert(lengths[i] >= limit);
        }
    } else {
        let next = lengths.update(s, lengths[s] + 1);
        lemma_slack_step(lengths, limit, lengths.len(), s);
        lemma_repair_tight(counts, next, limit);
        lemma_repair(counts, next, limit);
        if r == next {
            assert(r.update(s, (r[s] - 1) as nat) =~= lengths);
            assert(r[s] > lengths[s]);
        } else {
            let u = choose|u: int|
                {
                    &&& 0 <= u < counts.len()
                    &&& counts[u] > 0
                    &&& #[trigger] r[u] > next[u]
                    &&& kraft(counts, r.update(u, (r[u] - 1) as nat), limit, counts.len()) > pow2(
                        limit,
                    )
                };
            assert(r[u] > lengths[u]);
        }
        assert forall|u: int, t: int|
            0 <= u < counts.len() && 0 <= t < counts.len() && counts[t] > 0 && lengths[u]
                < #[trigger] r[u] && #[trigger] r[t] < limit implies r[u] <= r[t] + 1 by {
            if next[u] >= r[u] {
                assert(u == s);
                assert(lengths[t] >= lengths[s]);
                assert(r[t] >= next[t]);
            }
        }
        assert forall|u: int, t: int|
            0 <= t < u < counts.len() && counts[t] > 0 && lengths[u]
                < #[trigger] r[u] implies r[u] <= #[trigger] r[t] by {
            if next[u] >= r[u] {
                assert(u == s);
                assert(lengths[t] > lengths[s]);
                assert(r[t] >= next[t]);
            }
        }
    }
}

/// Code lengths are no longer than the limit forces them to be. None is below
/// the depth in the Huffman tree, or the limit where that is less. Where a code
/// is longer than that, some such code could not be one bit shorter: the Kraft
/// sum would pass 1. What is lengthened are the shortest codes, none of them by
/// more than to one bit above any code that the limit leaves room for, and of
/// those of one length the first: no symbol before is left with a shorter one.
pub proof fn lemma_lengths_needed(counts: Seq<u64>, limit: nat)
    requires
        leaves(counts, counts.len()).len() >= 2,
    ensures
        ({
            let depth = tree_depths(counts);
            let length = code_lengths(counts, limit);
            &&& length.len() == counts.len()
            &&& depth.len() == counts.len()
            &&& forall|i: int|
                0 <= i < counts.len() ==> #[trigger] length[i] >= depth[i] || length[i] == limit
            &&& forall|i: int|
                0 <= i < counts.len() ==> #[trigger] length[i] <= depth[i] || length[i] <= limit
            &&& (exists|i: int|
                0 <= i < counts.len() && #[trigger] length[i] > depth[i]) ==> exists|s: int|
                {
                    &&& 0 <= s < counts.len()
                    &&& counts[s] > 0
                    &&& #[trigger] length[s] > depth[s]
                    &&& kraft(
                        counts,
                        length.update(s, (length[s] - 1) as nat),
                        limit,
                        counts.len(),
                    ) > pow2(limit)
                }
            &&& forall|s: int, t: int|
                0 <= s < counts.len() && 0 <= t < counts.len() && counts[t] > 0 && depth[s]
                    < #[trigger] length[s] && #[trigger] length[t] < limit ==> length[s]
                    <= length[t] + 1
            &&& forall|s: int, t: int|
                0 <= t < s < counts.len() && counts[t] > 0 && depth[s] < #[trigger] length[s]
                    ==> length[s] <= #[trigger] length[t]
            &&& kraft(counts, length, limit, counts.len()) > pow2(limit) ==> forall|i: int|
                0 <= i < counts.len() && counts[i] > 0 ==> #[trigger] length[i] == limit
        }),
{
    let depth = tree_depths(counts);
    lemma_tree_depths(counts);
    if too_deep(depth, limit) {
        let c = clamped(depth, limit);
        let r = repair(counts, c, limit);
        lemma_repair_tight(counts, c, limit);
        lemma_repair(counts, c, limit);
        if exists|i: int| 0 <= i < counts.len() && #[trigger] r[i] > depth[i] {
            let i = choose|i: int| 0 <= i < counts.len() && #[trigger] r[i] > depth[i];
            assert(r[i] > c[i]);
            let s = choose|s: int|
                {
                    &&& 0 <= s < counts.len()
                    &&& counts[s] > 0
                    &&& #[trigger] r[s] > c[s]
                    &&& kraft(counts, r.update(s, (r[s] - 1) as nat), limit, counts.len()) > pow2(
                        limit,
                    )
                };
            assert(r[s] > depth[s]);
        }
        assert forall|i: int| 0 <= i < counts.len() implies #[trigger] r[i] >= depth[i] || r[i]
            == limit by {
            assert(r[i] >= c[i]);
        }
    } else {
        assert forall|i: int| 0 <= i < counts.len() implies #[trigger] depth[i] <= limit by {}
        lemma_huffman_complete(counts, limit);
    }
}

proof fn lemma_nothing_present(counts: Seq<u64>, k: nat)
    requires
        k <= counts.len(),
        leaves(counts, k).len() == 0,
    ensures
        forall|i: int| 0 <= i < k ==> #[trigger] counts[i] == 0,
    decreases k,
{
    if k > 0 {
        lemma_nothing_present(counts, (k - 1) as nat);
    }
}

proof fn lemma_kraft_absent(counts: Seq<u64>, lengths: Seq<nat>, limit: nat, k: nat)
    requires
        k <= counts.len(),
        forall|i: int| 0 <= i < k ==> #[trigger] counts[i] == 0,
    ensures
        kraft(counts, lengths, limit, k) == 0,
    decreases k,
{
    if k > 0 {
        lemma_kraft_absent(counts, lengths, limit, (k - 1) as nat);
    }
}

proof fn lemma_kraft_alone(counts: Seq<u64>, limit: nat, k: nat)
    requires
        k <= counts.len(),
        limit >= 1,
    ensures
        leaves(counts, k).len() <= 1 ==> kraft(
            counts,
            Seq::new(
                counts.len(),
                |i: int|
                    if counts[i] > 0 {
                        1nat
                    } else {
                        0nat
                    },
            ),
            limit,
            k,
        ) == if leaves(counts, k).len() == 0 {
            0
        } else {
            pow2((limit - 1) as nat)
        },
    decreases k,
{
    if k > 0 {
        lemma_kraft_alone(counts, limit, (k - 1) as nat);
    }
}

/// The weights of some trees, added up.
pub open spec fn total_weight(trees: Seq<(nat, int)>) -> nat
    decreases trees.len(),
{
    if trees.len() == 0 {
        0
    } else {
        total_weight(trees.drop_last()) + trees.last().0
    }
}

proof fn lemma_total_weight_push(trees: Seq<(nat, int)>, x: (nat, int))
    ensures
        total_weight(trees.push(x)) == total_weight(trees) + x.0,
{
    assert(trees.push(x).drop_last() =~= trees);
}

proof fn lemma_total_weight_remove(trees: Seq<(nat, int)>, k: int)
    requires
        0 <= k < trees.len(),
    ensures
        total_weight(trees) == total_weight(trees.remove(k)) + trees[k].0,
    decreases trees.len(),
{
    if k == trees.len() - 1 {
        assert(trees.remove(k) =~= trees.drop_last());
    } else {
        lemma_total_weight_remove(trees.drop_last(), k);
        assert(trees.remove(k).drop_last() =~= trees.drop_last().remove(k));
    }
}

proof fn lemma_leaves_weight(counts: Seq<u64>, k: nat)
    requires
        k <= counts.len(),
    ensures
        total_weight(leaves(counts, k)) == sum_u64(counts.take(k as int)),
    decreases k,
{
    if k > 0 {
        lemma_leaves_weight(counts, (k - 1) as nat);
        assert(counts.take(k as int).drop_last() =~= counts.take(k - 1));
        if counts[k - 1] > 0 {
            let before = leaves(counts, (k - 1) as nat);
            lemma_total_weight_push(before, (counts[k - 1] as nat, before.len() as int));
        }
    }
}

/// The trees that a list of weights and numbers stands for.
pub open spec fn trees_of(list: Seq<(u64, i64)>) -> Seq<(nat, int)> {
    Seq::new(list.len(), |t: int| (list[t].0 as nat, list[t].1 as int))
}

/// The executable form of a [`Forest`].
struct Woods {
    trees: Vec<(u64, i64)>,
    owner: Vec<i64>,
    depth: Vec<u32>,
    next: i64,
}

impl Woods {
    spec fn forest(&self) -> Forest {
        Forest {
            trees: trees_of(self.trees@),
            owner: Seq::new(self.owner@.len(), |i: int| self.owner@[i] as int),
            depth: Seq::new(self.depth@.len(), |i: int| self.depth@[i] as nat),
            next: self.next as int,
        }
    }

    /// Every symbol that is present in a tree of its own.
    fn new(counts: &[u64]) -> (res: Self)
        requires
            counts@.len() <= i32::MAX,
        ensures
            res.forest() == seedlings(counts@),
    {
        let n: usize = counts.len();
        let mut trees: Vec<(u64, i64)> = Vec::new();
        let mut owner: Vec<i64> = Vec::new();
        let mut depth: Vec<u32> = Vec::new();
        let mut i: usize = 0;
        while i < n
            invariant
                n == counts@.len(),
                n <= i32::MAX,
                i <= n,
                trees_of(trees@) == leaves(counts@, i as nat),
                trees@.len() <= i,
                owner@.len() == i,
                depth@.len() == i,
                forall|k: int|
                    0 <= k < i ==> #[trigger] owner@[k] == seedlings(counts@).owner[k],
                forall|k: int| 0 <= k < i ==> #[trigger] depth@[k] == 0,
            decreases n - i,
        {
            let id: i64 = trees.len() as i64;
            let ghost listed = trees@;
            if counts[i] > 0 {
                trees.push((counts[i], id));
                proof {
                    assert(trees_of(trees@) =~= trees_of(listed).push(
                        (counts@[i as int] as nat, id as int),
                    ));
                }
                owner.push(id);
            } else {
                owner.push(-1);
            }
            depth.push(0);
            i = i + 1;
        }
        let next: i64 = trees.len() as i64;
        let res = Woods { trees, owner, depth, next };
        proof {
            let f = res.forest();
            let g = seedlings(counts@);
            assert(f.owner =~= g.owner);
            assert(f.depth =~= g.depth);
        }
        res
    }

    /// Which tree is to be merged first.
    fn pick(&self) -> (res: usize)
        requires
            self.trees@.len() >= 1,
        ensures
            res < self.trees@.len(),
            res == lightest(trees_of(self.trees@), self.trees@.len()),
    {
        let mut best: usize = 0;
        let mut k: usize = 1;
        while k < self.trees.len()
            invariant
                1 <= k <= self.trees@.len(),
                best < k,
                best == lightest(trees_of(self.trees@), k as nat),
            decreases self.trees@.len() - k,
        {
            let a = self.trees[k];
            let b = self.trees[best];
            if a.0 < b.0 || (a.0 == b.0 && a.1 < b.1) {
                best = k;
            }
            k = k + 1;
        }
        best
    }

    /// Merge the two lightest trees.
    fn merge(&mut self, Ghost(n): Ghost<int>)
        requires
            old(self).trees@.len() >= 2,
            grown(old(self).forest(), n),
            n <= i32::MAX,
            total_weight(trees_of(old(self).trees@)) <= u64::MAX,
        ensures
            final(self).forest() == merge_two(old(self).forest()),
            grown(final(self).forest(), n),
            final(self).trees@.len() == old(self).trees@.len() - 1,
            total_weight(trees_of(final(self).trees@)) == total_weight(trees_of(old(self).trees@)),
    {
        let ghost f = self.forest();
        proof {
            lemma_merge_two_grown(f, n);
        }
        let i: usize = self.pick();
        let ghost all = self.trees@;
        let a: (u64, i64) = self.trees.remove(i);
        proof {
            lemma_total_weight_remove(trees_of(all), i as int);
            assert(trees_of(self.trees@) =~= trees_of(all).remove(i as int));
        }
        let j: usize = self.pick();
        let ghost rest = self.trees@;
        let b: (u64, i64) = self.trees.remove(j);
        proof {
            lemma_total_weight_remove(trees_of(rest), j as int);
            assert(trees_of(self.trees@) =~= trees_of(rest).remove(j as int));
        }
        let ghost left = self.trees@;
        let id: i64 = self.next;
        self.trees.push((a.0 + b.0, id));
        self.next = id + 1;
        proof {
            lemma_total_weight_push(trees_of(left), ((a.0 + b.0) as nat, id as int));
            assert(trees_of(self.trees@) =~= trees_of(left).push(((a.0 + b.0) as nat, id as int)));
        }
        let count: usize = self.owner.len();
        let mut k: usize = 0;
        while k < count
            invariant
                k <= count,
                count == self.owner@.len(),
                count == self.depth@.len(),
                count == f.owner.len(),
                count == f.depth.len(),
                grown(f, n),
                n <= i32::MAX,
                f.next <= 2 * n,
                id == f.next,
                trees_of(self.trees@) == trees_of(left).push(((a.0 + b.0) as nat, id as int)),
                self.trees@.len() == left.len() + 1,
                self.next == id + 1,
                forall|m: int|
                    0 <= m < count ==> #[trigger] self.owner@[m] == if m < k && (f.owner[m] == a.1
                        || f.owner[m] == b.1) {
                        f.next
                    } else {
                        f.owner[m]
                    },
                forall|m: int|
                    0 <= m < count ==> #[trigger] self.depth@[m] == if m < k && (f.owner[m] == a.1
                        || f.owner[m] == b.1) {
                        (f.depth[m] + 1) as int
                    } else {
                        f.depth[m] as int
                    },
            decreases count - k,
        {
            proof {
                assert(self.owner@[k as int] == f.owner[k as int]);
                assert(self.depth@[k as int] == f.depth[k as int]);
                let o = f.owner[k as int];
                assert(o == -1 || has(f.trees, o));
            }
            if self.owner[k] == a.1 || self.owner[k] == b.1 {
                self.owner[k] = id;
                self.depth[k] = self.depth[k] + 1;
            }
            k = k + 1;
        }
        proof {
            let g = merge_two(f);
            let h = self.forest();
            assert(h.owner =~= g.owner);
            assert(h.depth =~= g.depth);
            assert(h.trees =~= g.trees);
        }
    }
}

/// The Kraft sum of some lengths, in units of `2^-limit`.
fn kraft_sum(counts: &[u64], lengths: &Vec<u32>, limit: u32, Ghost(ls): Ghost<Seq<nat>>) -> (res:
    u64)
    requires
        limit < 63,
        counts@.len() == lengths@.len(),
        counts@.len() == ls.len(),
        forall|i: int| 0 <= i < ls.len() ==> #[trigger] lengths@[i] == ls[i],
        forall|i: int| 0 <= i < ls.len() ==> #[trigger] ls[i] <= limit,
        kraft(counts@, ls, limit as nat, ls.len()) <= i64::MAX,
    ensures
        res == kraft(counts@, ls, limit as nat, ls.len()),
{
    let n: usize = counts.len();
    let mut sum: u64 = 0;
    let mut i: usize = 0;
    while i < n
        invariant
            limit < 63,
            i <= n,
            n == counts@.len(),
            n == lengths@.len(),
            n == ls.len(),
            forall|k: int| 0 <= k < ls.len() ==> #[trigger] lengths@[k] == ls[k],
            forall|k: int| 0 <= k < ls.len() ==> #[trigger] ls[k] <= limit,
            kraft(counts@, ls, limit as nat, ls.len()) <= i64::MAX,
            sum == kraft(counts@, ls, limit as nat, i as nat),
        decreases n - i,
    {
        if counts[i] > 0 {
            assert(lengths@[i as int] == ls[i as int]);
            let rest: u32 = limit - lengths[i];
            proof {
                lemma_share(limit as nat, rest as nat);
                lemma_kraft_grows(counts@, ls, limit as nat, (i + 1) as nat, n as nat);
            }
            sum = sum + (1u64 << rest);
        }
        i = i + 1;
    }
    sum
}

/// Every code adds to the Kraft sum.
proof fn lemma_kraft_grows(counts: Seq<u64>, lengths: Seq<nat>, limit: nat, k: nat, n: nat)
    requires
        k <= n,
    ensures
        kraft(counts, lengths, limit, k) <= kraft(counts, lengths, limit, n),
    decreases n,
{
    if k < n {
        lemma_kraft_grows(counts, lengths, limit, k, (n - 1) as nat);
    }
}

/// Clamping depths to the limit adds less than one unit per symbol to the
/// Kraft sum; `unit` is any depth that none exceeds.
proof fn lemma_clamped_kraft(counts: Seq<u64>, depths: Seq<nat>, limit: nat, unit: nat, k: nat)
    requires
        k <= counts.len() == depths.len(),
        limit <= unit,
        forall|i: int| 0 <= i < depths.len() ==> #[trigger] depths[i] <= unit,
    ensures
        pow2((unit - limit) as nat) * (kraft(counts, clamped(depths, limit), limit, k) - leaves(
            counts,
            k,
        ).len()) <= kraft(counts, depths, unit, k),
    decreases k,
{
    let scale = pow2((unit - limit) as nat);
    if k == 0 {
        assert(scale * 0 == 0) by (nonlinear_arith);
    } else {
        lemma_clamped_kraft(counts, depths, limit, unit, (k - 1) as nat);
        if counts[k - 1] > 0 {
            let d = depths[k - 1];
            let before = kraft(counts, clamped(depths, limit), limit, (k - 1) as nat) - leaves(
                counts,
                (k - 1) as nat,
            ).len();
            let rest = clamped(depths, limit)[k - 1];
            let share = pow2((limit - rest) as nat);
            if d <= limit {
                lemma_pow2_adds((unit - limit) as nat, (limit - d) as nat);
                assert(scale * (before + share - 1) <= scale * before + scale * share)
                    by (nonlinear_arith)
                    requires
                        scale >= 0,
                ;
            } else {
                lemma2_to64();
                assert(share == 1);
            }
        }
    }
}

/// The Kraft sum of clamped Huffman depths exceeds 1 by no more than one unit
/// per symbol.
proof fn lemma_clamped_bound(counts: Seq<u64>, limit: nat, unit: nat)
    requires
        leaves(counts, counts.len()).len() >= 2,
        tree_depths(counts).len() == counts.len(),
        limit <= unit,
        forall|i: int| 0 <= i < counts.len() ==> #[trigger] tree_depths(counts)[i] <= unit,
    ensures
        kraft(counts, clamped(tree_depths(counts), limit), limit, counts.len()) <= pow2(limit)
            + leaves(counts, counts.len()).len(),
{
    let depths = tree_depths(counts);
    let scale = pow2((unit - limit) as nat) as int;
    let excess = kraft(counts, clamped(depths, limit), limit, counts.len()) - leaves(
        counts,
        counts.len(),
    ).len();
    lemma_clamped_kraft(counts, depths, limit, unit, counts.len());
    lemma_huffman_complete(counts, unit);
    lemma_pow2_adds((unit - limit) as nat, limit);
    lemma_pow2_pos((unit - limit) as nat);
    let whole = pow2(limit) as int;
    assert(excess <= whole) by (nonlinear_arith)
        requires
            scale * excess <= scale * whole,
            scale >= 1,
    ;
}

/// The share of a code in the Kraft sum, as a shift.
proof fn lemma_share(limit: nat, rest: nat)
    requires
        limit < 63,
        rest <= limit,
    ensures
        (1u64 << (rest as u32)) == pow2(rest),
        pow2(rest) <= pow2(limit),
        pow2(limit) <= i64::MAX,
{
    lemma2_to64();
    lemma2_to64_rest();
    lemma_pow2_strictly_increases(rest, 63);
    lemma_pow2_strictly_increases(limit, 63);
    if rest < limit {
        lemma_pow2_strictly_increases(rest, limit);
    }
    lemma_u64_shl_is_mul(1, rest as u64);
}

/// Lengthen the first of the shortest codes until the Kraft sum is at most 1.
fn repair_lengths(counts: &[u64], lengths: &mut Vec<u32>, limit: u32, Ghost(first): Ghost<Seq<nat>>)
    requires
        limit < 63,
        counts@.len() == old(lengths)@.len(),
        counts@.len() == first.len(),
        forall|i: int| 0 <= i < first.len() ==> #[trigger] old(lengths)@[i] == first[i],
        forall|i: int| 0 <= i < first.len() ==> #[trigger] first[i] <= limit,
        kraft(counts@, first, limit as nat, first.len()) <= i64::MAX,
    ensures
        final(lengths)@.len() == counts@.len(),
        repair(counts@, first, limit as nat).len() == counts@.len(),
        forall|i: int|
            0 <= i < counts@.len() ==> #[trigger] final(lengths)@[i] == repair(
                counts@,
                first,
                limit as nat,
            )[i],
{
    let n: usize = counts.len();
    let mut k: u64 = kraft_sum(counts, lengths, limit, Ghost(first));
    proof {
        lemma_share(limit as nat, limit as nat);
        lemma_repair(counts@, first, limit as nat);
    }
    let target: u64 = 1u64 << limit;
    let ghost mut ls = first;
    while k > target
        invariant_except_break
            k == kraft(counts@, ls, limit as nat, ls.len()),
        invariant
            limit < 63,
            n == counts@.len(),
            n == lengths@.len(),
            n == ls.len(),
            target == pow2(limit as nat),
            forall|i: int| 0 <= i < ls.len() ==> #[trigger] lengths@[i] == ls[i],
            forall|i: int| 0 <= i < ls.len() ==> #[trigger] ls[i] <= limit,
            repair(counts@, ls, limit as nat) == repair(counts@, first, limit as nat),
        ensures
            ls == repair(counts@, first, limit as nat),
        decreases slack(ls, limit as nat, ls.len()),
    {
        let mut best: usize = n;
        let mut i: usize = 0;
        while i < n
            invariant
                n == counts@.len(),
                n == lengths@.len(),
                n == ls.len(),
                i <= n,
                forall|m: int| 0 <= m < ls.len() ==> #[trigger] lengths@[m] == ls[m],
                forall|m: int| 0 <= m < ls.len() ==> #[trigger] ls[m] <= limit,
                best < i || best == n,
                shortest(counts@, ls, limit as nat, i as nat) == if best == n {
                    -1
                } else {
                    best as int
                },
            decreases n - i,
        {
            assert(lengths@[i as int] == ls[i as int]);
            let l: u32 = lengths[i];
            if counts[i] > 0 && l < limit {
                if best == n {
                    best = i;
                } else {
                    assert(lengths@[best as int] == ls[best as int]);
                    if lengths[best] > l {
                        best = i;
                    }
                }
            }
            i = i + 1;
        }
        if best == n {
            break ;
        }
        proof {
            lemma_shortest(counts@, ls, limit as nat, n as nat);
            lemma_slack_step(ls, limit as nat, n as nat, best as int);
            lemma_kraft_step(counts@, ls, limit as nat, n as nat, best as int);
            assert(lengths@[best as int] == ls[best as int]);
            lemma_share(limit as nat, (limit - ls[best as int] - 1) as nat);
        }
        let len: u32 = lengths[best] + 1;
        lengths[best] = len;
        k = k - (1u64 << (limit - len));
        proof {
            ls = ls.update(best as int, len as nat);
        }
    }
}

/// Length-limited (at most `limit` bits) Huffman code lengths for a
/// histogram: 0 for an absent symbol, 1 for one that is alone. Depths beyond
/// the limit are clamped, then the Kraft sum is repaired by lengthening short
/// codes.
pub fn huffman_lengths(counts: &[u64], limit: u32) -> (res: Vec<u32>)
    requires
        counts@.len() <= i32::MAX,
        sum_u64(counts@) <= u64::MAX,
        leaves(counts@, counts@.len()).len() >= 2 && too_deep(tree_depths(counts@), limit as nat)
            ==> limit < 63,
    ensures
        res@.len() == counts@.len(),
        forall|i: int|
            0 <= i < counts@.len() ==> #[trigger] res@[i] == code_lengths(
                counts@,
                limit as nat,
            )[i],
{
    let n: usize = counts.len();
    let mut woods = Woods::new(counts);
    let ghost start = woods.forest();
    let ghost lone = leaves(counts@, counts@.len());
    if woods.trees.len() == 1 {
        let mut lengths: Vec<u32> = Vec::new();
        let mut i: usize = 0;
        while i < n
            invariant
                i <= n,
                n == counts@.len(),
                lengths@.len() == i,
                forall|k: int|
                    0 <= k < i ==> #[trigger] lengths@[k] == if counts@[k] > 0 {
                        1int
                    } else {
                        0int
                    },
            decreases n - i,
        {
            lengths.push(
                if counts[i] > 0 {
                    1
                } else {
                    0
                },
            );
            i = i + 1;
        }
        return lengths;
    }
    proof {
        lemma_seedlings_grown(counts@);
        lemma_leaves(counts@, counts@.len());
        lemma_leaves_weight(counts@, counts@.len());
        assert(counts@.take(counts@.len() as int) =~= counts@);
    }
    while woods.trees.len() > 1
        invariant
            merge_all(woods.forest()) == merge_all(start),
            grown(woods.forest(), lone.len() as int),
            lone.len() <= i32::MAX,
            total_weight(trees_of(woods.trees@)) <= u64::MAX,
        decreases woods.trees@.len(),
    {
        woods.merge(Ghost(lone.len() as int));
    }
    let ghost depths = tree_depths(counts@);
    let mut lengths: Vec<u32> = woods.depth;
    proof {
        lemma_merge_all_grown(start, lone.len() as int);
        assert forall|k: int| 0 <= k < n implies #[trigger] lengths@[k] == depths[k] by {
            assert(woods.forest().depth[k] == lengths@[k]);
        }
    }
    let mut over: bool = false;
    let mut i: usize = 0;
    while i < n
        invariant
            i <= n,
            n == lengths@.len(),
            n == depths.len(),
            over == exists|k: int| 0 <= k < i && #[trigger] depths[k] > limit,
            forall|k: int|
                0 <= k < n ==> #[trigger] lengths@[k] == if k < i {
                    clamped(depths, limit as nat)[k]
                } else {
                    depths[k]
                },
        decreases n - i,
    {
        assert(lengths@[i as int] == depths[i as int]);
        if lengths[i] > limit {
            lengths[i] = limit;
            over = true;
        }
        i = i + 1;
    }
    if over {
        let ghost first = clamped(depths, limit as nat);
        proof {
            assert(too_deep(depths, limit as nat));
            if lone.len() == 0 {
                lemma_nothing_present(counts@, counts@.len());
            }
            assert forall|k: int| 0 <= k < counts@.len() implies #[trigger] depths[k]
                <= u32::MAX by {
                assert(woods.forest().depth[k] == depths[k]);
            }
            lemma_clamped_bound(counts@, limit as nat, u32::MAX as nat);
            lemma_share(62, limit as nat);
            lemma2_to64_rest();
        }
        repair_lengths(counts, &mut lengths, limit, Ghost(first));
    }
    lengths
}

} // verus!
