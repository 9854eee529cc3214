//! Self-calibration: really compress one contiguous span of the source at a
//! few anchor levels and measure, per strategy family, the log-space gap
//! between the real span ratio and the model's tiled-cold replay of the same
//! bytes. The gap absorbs whole-file history effects (deep windows,
//! block-to-block correlations) that cold sampled chunks cannot observe, plus
//! residual model bias.

use super::levels::{family_of, level_family, Family};
use vstd::prelude::*;
use vstd::seq_lib::{group_to_multiset_ensures, to_multiset_insert};

verus! {

/// A level and the gap that was measured there, as the bits of a
/// double-precision number.
pub type Point = (i32, u64);

/// Log-space correction fit, piecewise-linear within each strategy family.
pub struct AnchorFit {
    /// Anchor points, ascending by level.
    pub points: Vec<Point>,
}

/// How a level is corrected: not at all, by the gap of one anchor, or by the
/// gap that lies on the line between two.
#[derive(Debug, Clone, Copy, PartialEq, Eq)]
pub enum Correction {
    Zero,
    At(u64),
    Between(Point, Point),
}

/// Whether points ascend by level.
pub open spec fn ascending(points: Seq<Point>) -> bool {
    forall|i: int, j: int|
        0 <= i < j < points.len() ==> (#[trigger] points[i]).0 <= (#[trigger] points[j]).0
}

/// The anchor points of a family.
pub open spec fn family_points(points: Seq<Point>, family: Family) -> Seq<Point>
    decreases points.len(),
{
    if points.len() == 0 {
        Seq::empty()
    } else {
        let front = family_points(points.drop_last(), family);
        if level_family(points.last().0 as int) == family {
            front.push(points.last())
        } else {
            front
        }
    }
}

/// Whether `level` lies between the points `i` and `i + 1`.
pub open spec fn in_segment(pts: Seq<Point>, i: int, level: int) -> bool {
    0 <= i && i + 1 < pts.len() && pts[i].0 < level <= pts[i + 1].0
}

/// Whether a correction for `level` follows the line through some points:
/// flat outside them, and nothing without a point.
pub open spec fn follows(pts: Seq<Point>, level: int, c: Correction) -> bool {
    if pts.len() == 0 {
        c == Correction::Zero
    } else if level <= pts[0].0 {
        c == Correction::At(pts[0].1)
    } else if level >= pts.last().0 {
        c == Correction::At(pts.last().1)
    } else {
        exists|i: int| #[trigger]
            in_segment(pts, i, level) && c == Correction::Between(pts[i], pts[i + 1])
    }
}

/// Whether a correction is the one for `level`: the line between the anchors
/// of its family, flat outside them, and nothing without an anchor.
pub open spec fn corrects(points: Seq<Point>, level: int, c: Correction) -> bool {
    follows(family_points(points, level_family(level)), level, c)
}

proof fn lemma_family_points(points: Seq<Point>, family: Family)
    requires
        ascending(points),
    ensures
        ascending(family_points(points, family)),
        family_points(points, family).len() <= points.len(),
        forall|i: int|
            0 <= i < family_points(points, family).len() ==> {
                let p = #[trigger] family_points(points, family)[i];
                &&& level_family(p.0 as int) == family
                &&& points.len() > 0 && p.0 <= points.last().0
                &&& points.contains(p)
            },
    decreases points.len(),
{
    if points.len() > 0 {
        let front = points.drop_last();
        assert(ascending(front)) by {
            assert forall|i: int, j: int| 0 <= i < j < front.len() implies (#[trigger] front[i]).0
                <= (#[trigger] front[j]).0 by {
                assert(points[i].0 <= points[j].0);
            }
        }
        lemma_family_points(front, family);
        let pts = family_points(front, family);
        let last = points.last();
        assert(points[points.len() - 1] == last);
        assert forall|i: int| 0 <= i < pts.len() implies (#[trigger] pts[i]).0 <= last.0
            && points.contains(pts[i]) by {
            let t = choose|t: int| 0 <= t < front.len() && front[t] == pts[i];
            assert(points[t] == pts[i]);
            assert(points[t].0 <= points[points.len() - 1].0);
        }
        assert(points.contains(last));
    }
}

proof fn lemma_follows_unique(pts: Seq<Point>, level: int, a: Correction, b: Correction)
    requires
        ascending(pts),
        follows(pts, level, a),
        follows(pts, level, b),
    ensures
        a == b,
{
    if pts.len() > 0 && pts[0].0 < level < pts.last().0 {
        let i = choose|i: int| #[trigger]
            in_segment(pts, i, level) && a == Correction::Between(pts[i], pts[i + 1]);
        let j = choose|j: int| #[trigger]
            in_segment(pts, j, level) && b == Correction::Between(pts[j], pts[j + 1]);
        if i + 1 < j {
            assert(pts[i + 1].0 <= pts[j].0);
        } else if j + 1 < i {
            assert(pts[j + 1].0 <= pts[i].0);
        }
    }
}

/// There is exactly one correction for each level.
pub proof fn lemma_correction_unique(points: Seq<Point>, level: int, a: Correction, b: Correction)
    requires
        ascending(points),
        corrects(points, level, a),
        corrects(points, level, b),
    ensures
        a == b,
{
    let family = level_family(level);
    lemma_family_points(points, family);
    lemma_follows_unique(family_points(points, family), level, a, b);
}

proof fn lemma_family_points_insert(points: Seq<Point>, k: int, p: Point, family: Family)
    requires
        0 <= k <= points.len(),
        level_family(p.0 as int) != family,
    ensures
        family_points(points.insert(k, p), family) == family_points(points, family),
    decreases points.len(),
{
    let now = points.insert(k, p);
    if k == points.len() {
        assert(now.drop_last() =~= points);
    } else {
        assert(now.drop_last() =~= points.drop_last().insert(k, p));
        assert(now.last() == points.last());
        lemma_family_points_insert(points.drop_last(), k, p, family);
    }
}

/// Families are isolated: an anchor of another family changes no correction.
pub proof fn lemma_families_isolated(
    points: Seq<Point>,
    k: int,
    p: Point,
    level: int,
    c: Correction,
)
    requires
        0 <= k <= points.len(),
        level_family(p.0 as int) != level_family(level),
    ensures
        corrects(points.insert(k, p), level, c) == corrects(points, level, c),
{
    lemma_family_points_insert(points, k, p, level_family(level));
}

/// A level whose family has no anchor is not corrected.
pub proof fn lemma_no_anchor(points: Seq<Point>, level: int, c: Correction)
    requires
        forall|i: int|
            0 <= i < points.len() ==> level_family((#[trigger] points[i]).0 as int)
                != level_family(level),
        corrects(points, level, c),
    ensures
        c == Correction::Zero,
    decreases points.len(),
{
    if points.len() > 0 {
        assert(level_family(points[points.len() - 1].0 as int) != level_family(level));
        let front = points.drop_last();
        assert forall|i: int| 0 <= i < front.len() implies level_family(
            (#[trigger] front[i]).0 as int,
        ) != level_family(level) by {
            assert(level_family(points[i].0 as int) != level_family(level));
        }
        lemma_no_anchor(front, level, c);
    }
}

proof fn lemma_follows_hit(pts: Seq<Point>, t: int, c: Correction)
    requires
        ascending(pts),
        0 <= t < pts.len(),
        follows(pts, pts[t].0 as int, c),
    ensures
        match c {
            Correction::Zero => false,
            Correction::At(gap) => pts.contains((pts[t].0, gap)),
            Correction::Between(lo, hi) => lo.0 < pts[t].0 && hi.0 == pts[t].0 && pts.contains(hi),
        },
{
    let level = pts[t].0 as int;
    let n = pts.len();
    if level <= pts[0].0 {
        assert(t > 0 ==> pts[0].0 <= pts[t].0);
        assert(pts[0] == (pts[t].0, pts[0].1));
    } else if level >= pts.last().0 {
        assert(t < n - 1 ==> pts[t].0 <= pts[n - 1].0);
        assert(pts[n - 1] == (pts[t].0, pts[n - 1].1));
    } else {
        let i = choose|i: int| #[trigger]
            in_segment(pts, i, level) && c == Correction::Between(pts[i], pts[i + 1]);
        assert(t < i ==> pts[t].0 <= pts[i].0);
        assert(i + 1 < t ==> pts[i + 1].0 <= pts[t].0);
        assert(pts.contains(pts[i + 1]));
    }
}

/// At an anchor the correction is one that was measured there.
pub proof fn lemma_anchor_hit(points: Seq<Point>, p: Point, c: Correction)
    requires
        ascending(points),
        points.contains(p),
        corrects(points, p.0 as int, c),
    ensures
        match c {
            Correction::Zero => false,
            Correction::At(gap) => points.contains((p.0, gap)),
            Correction::Between(lo, hi) => lo.0 < p.0 && hi.0 == p.0 && points.contains(hi),
        },
{
    let family = level_family(p.0 as int);
    let pts = family_points(points, family);
    lemma_family_points(points, family);
    lemma_family_member(points, p, family);
    let t = choose|t: int| 0 <= t < pts.len() && pts[t] == p;
    lemma_follows_hit(pts, t, c);
    match c {
        Correction::Zero => {},
        Correction::At(gap) => {
            let u = choose|u: int| 0 <= u < pts.len() && pts[u] == (p.0, gap);
            assert(points.contains(pts[u]));
        },
        Correction::Between(lo, hi) => {
            let u = choose|u: int| 0 <= u < pts.len() && pts[u] == hi;
            assert(points.contains(pts[u]));
        },
    }
}

proof fn lemma_family_member(points: Seq<Point>, p: Point, family: Family)
    requires
        points.contains(p),
        level_family(p.0 as int) == family,
    ensures
        family_points(points, family).contains(p),
    decreases points.len(),
{
    let front = points.drop_last();
    let t = choose|t: int| 0 <= t < points.len() && points[t] == p;
    if t < front.len() {
        assert(front[t] == p);
        lemma_family_member(front, p, family);
        let u = choose|u: int|
            0 <= u < family_points(front, family).len() && family_points(front, family)[u] == p;
        assert(family_points(points, family)[u] == p);
    } else {
        let pts = family_points(points, family);
        assert(pts[pts.len() - 1] == p);
    }
}

impl AnchorFit {
    /// Whether the points ascend by level.
    pub open spec fn wf(&self) -> bool {
        ascending(self.points@)
    }

    /// The fit that corrects nothing.
    pub fn identity() -> (res: Self)
        ensures
            res.wf(),
            res.points@.len() == 0,
    {
        AnchorFit { points: Vec::new() }
    }

    /// The fit through some points, in any order.
    pub fn fit(points: Vec<Point>) -> (res: Self)
        ensures
            res.wf(),
            res.points@.to_multiset() == points@.to_multiset(),
    {
        let n: usize = points.len();
        let mut sorted: Vec<Point> = Vec::new();
        let mut i: usize = 0;
        proof {
            assert(points@.take(0) =~= sorted@);
        }
        while i < n
            invariant
                i <= n,
                n == points@.len(),
                sorted@.len() == i,
                ascending(sorted@),
                sorted@.to_multiset() == points@.take(i as int).to_multiset(),
            decreases n - i,
        {
            let p: Point = points[i];
            let mut k: usize = i;
            while k > 0 && sorted[k - 1].0 > p.0
                invariant
                    k <= i,
                    sorted@.len() == i,
                    forall|j: int| k <= j < i ==> (#[trigger] sorted@[j]).0 > p.0,
                decreases k,
            {
                k = k - 1;
            }
            let ghost before = sorted@;
            sorted.insert(k, p);
            proof {
                broadcast use group_to_multiset_ensures;

                assert(points@.take(i + 1) =~= points@.take(i as int).push(p));
                to_multiset_insert(before, k as int, p);
                assert forall|a: int, b: int| 0 <= a < b < sorted@.len() implies (
                #[trigger] sorted@[a]).0 <= (#[trigger] sorted@[b]).0 by {
                    let x = if a < k {
                        before[a]
                    } else if a == k {
                        p
                    } else {
                        before[a - 1]
                    };
                    let y = if b < k {
                        before[b]
                    } else if b == k {
                        p
                    } else {
                        before[b - 1]
                    };
                    assert(sorted@[a] == x && sorted@[b] == y);
                    if b == k && a < k - 1 {
                        assert(before[a].0 <= before[k - 1].0);
                    }
                }
            }
            i = i + 1;
        }
        proof {
            assert(points@.take(n as int) =~= points@);
        }
        AnchorFit { points: sorted }
    }

    /// Whether the fit corrects nothing.
    pub fn is_identity(&self) -> (res: bool)
        ensures
            res == (self.points@.len() == 0),
    {
        self.points.len() == 0
    }

    /// Log-space correction for `level`: linear interpolation between the
    /// anchors of its strategy family, flat outside them, and nothing when the
    /// family has no anchor at all.
    pub fn delta(&self, level: i32) -> (res: Correction)
        requires
            self.wf(),
        ensures
            corrects(self.points@, level as int, res),
    {
        let family: Family = family_of(level);
        let n: usize = self.points.len();
        let mut pts: Vec<Point> = Vec::new();
        let mut i: usize = 0;
        while i < n
            invariant
                i <= n,
                n == self.points@.len(),
                family == level_family(level as int),
                pts@ == family_points(self.points@.take(i as int), family),
            decreases n - i,
        {
            let p: Point = self.points[i];
            proof {
                assert(self.points@.take(i + 1).drop_last() =~= self.points@.take(i as int));
            }
            if family_of(p.0) == family {
                pts.push(p);
            }
            i = i + 1;
        }
        proof {
            assert(self.points@.take(n as int) =~= self.points@);
            lemma_family_points(self.points@, family);
        }
        let m: usize = pts.len();
        if m == 0 {
            return Correction::Zero;
        }
        if level <= pts[0].0 {
            return Correction::At(pts[0].1);
        }
        if level >= pts[m - 1].0 {
            return Correction::At(pts[m - 1].1);
        }
        let mut k: usize = 0;
        while pts[k + 1].0 < level
            invariant
                m == pts@.len(),
                k + 1 < m,
                pts@[k as int].0 < level,
                level < pts@[m - 1].0,
            decreases m - k,
        {
            k = k + 1;
        }
        assert(in_segment(pts@, k as int, level as int));
        Correction::Between(pts[k], pts[k + 1])
    }
}

/// What zstd compresses some bytes to at a level.
pub uninterp spec fn zstd_compressed(data: Seq<u8>, level: int) -> Seq<u8>;

/// Compress `data` with `zstd::bulk::compress`. If that succeeds, the result
/// is what zstd makes of these bytes at this level, and depends on nothing
/// else. The call can fail, when memory is short; nothing is claimed of when
/// it does. It first reserves room for the longest result, a 256th more than
/// the input and at most 64 bytes, which has to fit into memory's addresses.
#[verifier::external_body]
fn compress(data: &[u8], level: i32) -> (res: Result<Vec<u8>, std::io::Error>)
    requires
        data@.len() + data@.len() / 256 + 64 <= isize::MAX,
    ensures
        res matches Ok(out) ==> out@ == zstd_compressed(data@, level as int),
{
    zstd::bulk::compress(data, level)
}

/// How much of `whole` bytes is left: `part` of them.
#[derive(Debug, Clone, Copy, PartialEq, Eq, Structural)]
pub struct Fraction {
    pub part: u64,
    pub whole: u64,
}

/// The fraction that a compression of `whole` bytes achieved, if it
/// succeeded.
pub fn fraction_of(out: Result<Vec<u8>, std::io::Error>, whole: usize) -> (res: Option<Fraction>)
    ensures
        match out {
            Ok(bytes) => res matches Some(f) && f.part == bytes@.len() && f.whole == whole,
            Err(_) => res is None,
        },
{
    match out {
        Ok(bytes) => Some(Fraction { part: bytes.len() as u64, whole: whole as u64 }),
        Err(_) => None,
    }
}

/// Compress `data` at `level` and return the real compressed fraction; none
/// of nothing, or where the compression fails.
pub fn real_fraction(data: &[u8], level: i32) -> (res: Option<Fraction>)
    requires
        data@.len() + data@.len() / 256 + 64 <= isize::MAX,
    ensures
        data@.len() == 0 ==> res is None,
        res matches Some(f) ==> {
            &&& f.part == zstd_compressed(data@, level as int).len()
            &&& f.whole == data@.len()
            &&& f.whole > 0
        },
{
    if data.len() == 0 {
        return None;
    }
    fraction_of(compress(data, level), data.len())
}

} // verus!
