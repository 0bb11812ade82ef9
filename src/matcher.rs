//! Matching points to the nearest eligible point of a set of line features.
use vstd::prelude::*;
use crate::geom::{Pt2D, dot, dist2, lerp_spec, valid_polyline};

verus! {

/// A line feature that points may be matched to: its centerline, and whether it is
/// eligible (a sidewalk one can walk on, say).
pub struct Feature {
    pub pts: Vec<Pt2D>,
    pub eligible: bool,
}

/// Where a point was matched: the feature, the segment of it, and the point on that segment.
#[derive(Clone, Copy, Debug, PartialEq, Eq, Structural)]
pub struct FeaturePos {
    pub feature: usize,
    pub segment: usize,
    pub pt: Pt2D,
}

/// The point of the segment `a b` closest to `q`, rounded down to whole centimetres.
pub open spec fn project(q: Pt2D, a: Pt2D, b: Pt2D) -> Pt2D {
    let d = dist2(a, b);
    let t = dot(a, b, q);
    let num = if t < 0 { 0 } else if t > d { d } else { t };
    Pt2D { x: lerp_spec(a.x as int, b.x as int, num, d) as i64, y: lerp_spec(a.y as int, b.y as int, num, d) as i64 }
}

/// Segment `s` of feature `f` offers the point `q` a match: the feature is eligible and a
/// proper polyline, the closest point is within `max_dist` of `q`, and at least `buffer`
/// from both ends of the feature.
pub open spec fn candidate(q: Pt2D, feats: Seq<Feature>, f: int, s: int, buffer: u64, max_dist: u64) -> bool {
    &&& 0 <= f < feats.len()
    &&& feats[f].eligible
    &&& valid_polyline(feats[f].pts@)
    &&& 0 <= s < feats[f].pts@.len() - 1
    &&& {
        let pts = feats[f].pts@;
        let p = project(q, pts[s], pts[s + 1]);
        &&& dist2(q, p) <= max_dist * max_dist
        &&& dist2(p, pts[0]) >= buffer * buffer
        &&& dist2(p, pts[pts.len() - 1]) >= buffer * buffer
    }
}

/// The squared distance from `q` to segment `s` of feature `f`.
pub open spec fn match_dist(q: Pt2D, feats: Seq<Feature>, f: int, s: int) -> int {
    let pts = feats[f].pts@;
    dist2(q, project(q, pts[s], pts[s + 1]))
}

/// `(f1, s1)` comes before `(f2, s2)`: by feature, then by segment.
pub open spec fn lex_before(f1: int, s1: int, f2: int, s2: int) -> bool {
    f1 < f2 || (f1 == f2 && s1 < s2)
}

/// `(f, s)` beats every other candidate: nearer, or as near and earlier.
pub open spec fn beats_all(q: Pt2D, feats: Seq<Feature>, f: int, s: int, buffer: u64, max_dist: u64) -> bool {
    forall|f2: int, s2: int| #[trigger] candidate(q, feats, f2, s2, buffer, max_dist) ==> {
        ||| match_dist(q, feats, f, s) < match_dist(q, feats, f2, s2)
        ||| (match_dist(q, feats, f, s) == match_dist(q, feats, f2, s2) && !lex_before(f2, s2, f, s))
    }
}

/// `r` is the match of `q`: `None` when no segment is a candidate, else the candidate
/// nearest to `q`, the earliest one among equally near ones.
pub open spec fn best_match(q: Pt2D, feats: Seq<Feature>, buffer: u64, max_dist: u64, r: Option<FeaturePos>) -> bool {
    match r {
        None => forall|f: int, s: int| !#[trigger] candidate(q, feats, f, s, buffer, max_dist),
        Some(p) => {
            &&& candidate(q, feats, p.feature as int, p.segment as int, buffer, max_dist)
            &&& p.pt == project(q, feats[p.feature as int].pts@[p.segment as int], feats[p.feature as int].pts@[p.segment + 1])
            &&& beats_all(q, feats, p.feature as int, p.segment as int, buffer, max_dist)
        },
    }
}

/// An axis-aligned box, in centimetres.
#[derive(Clone, Copy, Debug, PartialEq, Eq, Structural)]
pub struct BBox {
    pub min_x: i64,
    pub min_y: i64,
    pub max_x: i64,
    pub max_y: i64,
}

pub open spec fn in_box(p: Pt2D, b: BBox) -> bool {
    b.min_x <= p.x <= b.max_x && b.min_y <= p.y <= b.max_y
}

/// `index` holds the bounding box of each eligible feature that is a proper polyline, and
/// nothing for the other features.
pub open spec fn indexes(index: Seq<Option<BBox>>, feats: Seq<Feature>) -> bool {
    &&& index.len() == feats.len()
    &&& forall|f: int| 0 <= f < feats.len() ==> ((#[trigger] index[f]) is Some <==> feats[f].eligible
        && valid_polyline(feats[f].pts@))
    &&& forall|f: int| 0 <= f < feats.len() && (#[trigger] index[f]) is Some ==> tight_box(feats[f].pts@, index[f]->0)
}

/// `b` is the smallest box around `pts`: it holds every point, and a point lies on each side.
pub open spec fn tight_box(pts: Seq<Pt2D>, b: BBox) -> bool {
    &&& forall|i: int| 0 <= i < pts.len() ==> in_box(#[trigger] pts[i], b)
    &&& exists|i: int| 0 <= i < pts.len() && #[trigger] pts[i].x == b.min_x
    &&& exists|i: int| 0 <= i < pts.len() && #[trigger] pts[i].x == b.max_x
    &&& exists|i: int| 0 <= i < pts.len() && #[trigger] pts[i].y == b.min_y
    &&& exists|i: int| 0 <= i < pts.len() && #[trigger] pts[i].y == b.max_y
}

/// Every point of the box is farther than `d` from `q` along one axis.
pub open spec fn box_far(q: Pt2D, b: BBox, d: int) -> bool {
    q.x + d < b.min_x || q.x - d > b.max_x || q.y + d < b.min_y || q.y - d > b.max_y
}

fn bbox_of(pts: &Vec<Pt2D>) -> (b: BBox)
    requires
        valid_polyline(pts@),
    ensures
        tight_box(pts@, b),
{
    let mut b = BBox { min_x: pts[0].x, min_y: pts[0].y, max_x: pts[0].x, max_y: pts[0].y };
    let mut i: usize = 1;
    assert(pts@[0].x == b.min_x);
    while i < pts.len()
        invariant
            1 <= i <= pts@.len(),
            forall|k: int| 0 <= k < i ==> in_box(#[trigger] pts@[k], b),
            exists|k: int| 0 <= k < i && #[trigger] pts@[k].x == b.min_x,
            exists|k: int| 0 <= k < i && #[trigger] pts@[k].x == b.max_x,
            exists|k: int| 0 <= k < i && #[trigger] pts@[k].y == b.min_y,
            exists|k: int| 0 <= k < i && #[trigger] pts@[k].y == b.max_y,
        decreases pts@.len() - i,
    {
        let p = pts[i];
        if p.x < b.min_x {
            b.min_x = p.x;
        }
        if p.x > b.max_x {
            b.max_x = p.x;
        }
        if p.y < b.min_y {
            b.min_y = p.y;
        }
        if p.y > b.max_y {
            b.max_y = p.y;
        }
        i += 1;
    }
    b
}

/// The spatial index of the features: built once, then consulted by every query.
pub fn build_index(feats: &Vec<Feature>) -> (index: Vec<Option<BBox>>)
    ensures
        indexes(index@, feats@),
{
    let mut index: Vec<Option<BBox>> = Vec::new();
    let mut f: usize = 0;
    while f < feats.len()
        invariant
            f <= feats@.len(),
            index@.len() == f,
            forall|g: int| 0 <= g < f ==> ((#[trigger] index@[g]) is Some <==> feats@[g].eligible
                && valid_polyline(feats@[g].pts@)),
            forall|g: int| 0 <= g < f && (#[trigger] index@[g]) is Some ==> tight_box(feats@[g].pts@, index@[g]->0),
        decreases feats@.len() - f,
    {
        let feat = &feats[f];
        if feat.eligible && crate::initial::is_valid_polyline(&feat.pts) {
            index.push(Some(bbox_of(&feat.pts)));
        } else {
            index.push(None);
        }
        f += 1;
    }
    index
}

/// A feature whose box is far from `q` offers it no candidate.
proof fn lemma_far_feature(q: Pt2D, feats: Seq<Feature>, index: Seq<Option<BBox>>, f: int, s: int, buffer: u64, max_dist: u64)
    requires
        indexes(index, feats),
        0 <= f < feats.len(),
        index[f] is Some,
        box_far(q, index[f]->0, max_dist as int),
    ensures
        !candidate(q, feats, f, s, buffer, max_dist),
{
    if candidate(q, feats, f, s, buffer, max_dist) {
        let pts = feats[f].pts@;
        let a = pts[s];
        let b = pts[s + 1];
        let bx = index[f]->0;
        assert(tight_box(pts, bx));
        assert(in_box(a, bx) && in_box(b, bx));
        assert(a != b);
        let d = dist2(a, b);
        let t = dot(a, b, q);
        let num = if t < 0 { 0 } else if t > d { d } else { t };
        assert(d > 0) by {
            if b.x - a.x != 0 {
                assert((b.x - a.x) * (b.x - a.x) > 0) by (nonlinear_arith) requires b.x - a.x != 0;
                assert((b.y - a.y) * (b.y - a.y) >= 0) by (nonlinear_arith);
            } else {
                assert((b.y - a.y) * (b.y - a.y) > 0) by (nonlinear_arith) requires b.y - a.y != 0;
            }
        }
        crate::geom::lemma_lerp_between(a.x as int, b.x as int, num, d);
        crate::geom::lemma_lerp_between(a.y as int, b.y as int, num, d);
        let p = project(q, a, b);
        assert(in_box(p, bx));
        let m = max_dist as int;
        let dx = p.x - q.x;
        let dy = p.y - q.y;
        assert(dist2(q, p) == dx * dx + dy * dy);
        assert(dx * dx >= 0 && dy * dy >= 0) by (nonlinear_arith);
        if dx > m || -dx > m {
            assert(dx * dx > m * m) by (nonlinear_arith) requires dx > m || -dx > m, m >= 0;
        } else {
            assert(dy * dy > m * m) by (nonlinear_arith) requires dy > m || -dy > m, m >= 0;
        }
    }
}

/// The closest point of the segment `a b` to `q`.
pub fn project_exec(q: Pt2D, a: Pt2D, b: Pt2D) -> (r: Pt2D)
    requires
        q.in_bounds(),
        a.in_bounds(),
        b.in_bounds(),
        a != b,
    ensures
        r == project(q, a, b),
        r.in_bounds(),
{
    let d = crate::geom::dist2_exec(a, b);
    let t = crate::geom::dot_exec(a, b, q);
    proof {
        let dx = b.x - a.x;
        let dy = b.y - a.y;
        if dx != 0 {
            assert(0 < dx * dx) by (nonlinear_arith) requires dx != 0;
            assert(dy * dy >= 0) by (nonlinear_arith);
        } else {
            assert(0 < dy * dy) by (nonlinear_arith) requires dy != 0;
            assert(dx * dx >= 0) by (nonlinear_arith);
        }
    }
    let num: i64 = if t < 0 { 0 } else if t > d { d } else { t };
    let x = crate::geom::lerp(a.x, b.x, num as i128, d as i128);
    let y = crate::geom::lerp(a.y, b.y, num as i128, d as i128);
    Pt2D { x, y }
}

/// The match of the point `q` among `feats` (see `best_match`).
pub fn match_point(q: Pt2D, feats: &Vec<Feature>, buffer: u64, max_dist: u64) -> (r: Option<FeaturePos>)
    requires
        q.in_bounds(),
    ensures
        best_match(q, feats@, buffer, max_dist, r),
        r is Some ==> r->0.pt.in_bounds(),
{
    let index = build_index(feats);
    match_indexed(q, feats, &index, buffer, max_dist)
}

/// The match of the point `q` among `feats` (see `best_match`), skipping the features whose
/// box in `index` is out of reach.
#[verifier::rlimit(50)]
pub fn match_indexed(q: Pt2D, feats: &Vec<Feature>, index: &Vec<Option<BBox>>, buffer: u64, max_dist: u64) -> (r: Option<FeaturePos>)
    requires
        q.in_bounds(),
        indexes(index@, feats@),
    ensures
        best_match(q, feats@, buffer, max_dist, r),
        r is Some ==> r->0.pt.in_bounds(),
{
    let mut best: Option<FeaturePos> = None;
    let mut best_d: i64 = 0;
    let mut f: usize = 0;
    assert(max_dist * max_dist <= 0xffff_ffff_ffff_ffff * 0xffff_ffff_ffff_ffff) by (nonlinear_arith)
        requires max_dist <= 0xffff_ffff_ffff_ffff;
    assert(buffer * buffer <= 0xffff_ffff_ffff_ffff * 0xffff_ffff_ffff_ffff) by (nonlinear_arith)
        requires buffer <= 0xffff_ffff_ffff_ffff;
    let maxd2: u128 = (max_dist as u128) * (max_dist as u128);
    let buf2: u128 = (buffer as u128) * (buffer as u128);
    while f < feats.len()
        invariant
            q.in_bounds(),
            indexes(index@, feats@),
            f <= feats@.len(),
            maxd2 == max_dist * max_dist,
            buf2 == buffer * buffer,
            match best {
                None => forall|f2: int, s2: int| f2 < f ==> !#[trigger] candidate(q, feats@, f2, s2, buffer, max_dist),
                Some(p) => {
                    &&& p.pt.in_bounds()
                    &&& p.feature < f
                    &&& candidate(q, feats@, p.feature as int, p.segment as int, buffer, max_dist)
                    &&& p.pt == project(q, feats@[p.feature as int].pts@[p.segment as int], feats@[p.feature as int].pts@[p.segment + 1])
                    &&& best_d == match_dist(q, feats@, p.feature as int, p.segment as int)
                    &&& forall|f2: int, s2: int| f2 < f && #[trigger] candidate(q, feats@, f2, s2, buffer, max_dist) ==> {
                        ||| best_d < match_dist(q, feats@, f2, s2)
                        ||| (best_d == match_dist(q, feats@, f2, s2) && !lex_before(f2, s2, p.feature as int, p.segment as int))
                    }
                },
            },
        decreases feats@.len() - f,
    {
        let feat = &feats[f];
        let reach = match index[f] {
            None => false,
            Some(bx) => {
                let far = (q.x as i128) + (max_dist as i128) < (bx.min_x as i128)
                    || (q.x as i128) - (max_dist as i128) > (bx.max_x as i128)
                    || (q.y as i128) + (max_dist as i128) < (bx.min_y as i128)
                    || (q.y as i128) - (max_dist as i128) > (bx.max_y as i128);
                if far {
                    proof {
                        assert forall|s2: int| !#[trigger] candidate(q, feats@, f as int, s2, buffer, max_dist) by {
                            lemma_far_feature(q, feats@, index@, f as int, s2, buffer, max_dist);
                        }
                    }
                }
                !far
            },
        };
        assert(reach ==> feat.eligible && valid_polyline(feat.pts@));
        if reach {
            let pts = &feat.pts;
            let n = pts.len();
            let first = pts[0];
            let last = pts[n - 1];
            let mut s: usize = 0;
            while s + 1 < n
                invariant
                    q.in_bounds(),
                    f < feats@.len(),
                    feat == feats@[f as int],
                    pts == feat.pts,
                    n == pts@.len(),
                    valid_polyline(pts@),
                    feat.eligible,
                    first == pts@[0],
                    last == pts@[n - 1],
                    s <= n - 1,
                    maxd2 == max_dist * max_dist,
                    buf2 == buffer * buffer,
                    match best {
                        None => forall|f2: int, s2: int| lex_before(f2, s2, f as int, s as int)
                            ==> !#[trigger] candidate(q, feats@, f2, s2, buffer, max_dist),
                        Some(p) => {
                            &&& p.pt.in_bounds()
                            &&& lex_before(p.feature as int, p.segment as int, f as int, s as int)
                            &&& candidate(q, feats@, p.feature as int, p.segment as int, buffer, max_dist)
                            &&& p.pt == project(q, feats@[p.feature as int].pts@[p.segment as int], feats@[p.feature as int].pts@[p.segment + 1])
                            &&& best_d == match_dist(q, feats@, p.feature as int, p.segment as int)
                            &&& forall|f2: int, s2: int| lex_before(f2, s2, f as int, s as int)
                                && #[trigger] candidate(q, feats@, f2, s2, buffer, max_dist) ==> {
                                ||| best_d < match_dist(q, feats@, f2, s2)
                                ||| (best_d == match_dist(q, feats@, f2, s2) && !lex_before(f2, s2, p.feature as int, p.segment as int))
                            }
                        },
                    },
                decreases n - s,
            {
                assert(pts@[s as int] != pts@[s + 1]);
                let p = project_exec(q, pts[s], pts[s + 1]);
                let d = crate::geom::dist2_exec(q, p);
                let d0 = crate::geom::dist2_exec(p, first);
                let d1 = crate::geom::dist2_exec(p, last);
                let ok = (d as u128) <= maxd2 && (d0 as u128) >= buf2 && (d1 as u128) >= buf2;
                assert(ok == candidate(q, feats@, f as int, s as int, buffer, max_dist));
                if ok {
                    let better = match best {
                        None => true,
                        Some(_) => d < best_d,
                    };
                    if better {
                        best = Some(FeaturePos { feature: f, segment: s, pt: p });
                        best_d = d;
                    }
                }
                s += 1;
            }
        } else {
            proof {
                assert forall|s2: int| !#[trigger] candidate(q, feats@, f as int, s2, buffer, max_dist) by {}
            }
        }
        f += 1;
    }
    best
}

/// The match of each of `queries` among `feats` (see `best_match`), in the same order.
/// Each query is matched on its own, so the work may be split among threads.
pub fn match_points_to_features(queries: &Vec<Pt2D>, feats: &Vec<Feature>, buffer: u64, max_dist: u64) -> (r: Vec<Option<FeaturePos>>)
    requires
        forall|i: int| 0 <= i < queries@.len() ==> (#[trigger] queries@[i]).in_bounds(),
    ensures
        r@.len() == queries@.len(),
        forall|i: int| 0 <= i < queries@.len() ==> best_match(#[trigger] queries@[i], feats@, buffer, max_dist, r@[i]),
{
    let index = build_index(feats);
    let mut r: Vec<Option<FeaturePos>> = Vec::new();
    let mut i: usize = 0;
    while i < queries.len()
        invariant
            indexes(index@, feats@),
            forall|i: int| 0 <= i < queries@.len() ==> (#[trigger] queries@[i]).in_bounds(),
            i <= queries@.len(),
            r@.len() == i,
            forall|k: int| 0 <= k < i ==> best_match(#[trigger] queries@[k], feats@, buffer, max_dist, r@[k]),
        decreases queries@.len() - i,
    {
        let m = match_indexed(queries[i], feats, &index, buffer, max_dist);
        r.push(m);
        i += 1;
    }
    r
}

/// Matching is deterministic: for the same point, features, buffer and distance there is
/// exactly one match, so matching twice gives the same result.
pub proof fn lemma_match_unique(q: Pt2D, feats: Seq<Feature>, buffer: u64, max_dist: u64, r1: Option<FeaturePos>, r2: Option<FeaturePos>)
    requires
        best_match(q, feats, buffer, max_dist, r1),
        best_match(q, feats, buffer, max_dist, r2),
    ensures
        r1 == r2,
{
    match (r1, r2) {
        (Some(p1), Some(p2)) => {
            assert(candidate(q, feats, p2.feature as int, p2.segment as int, buffer, max_dist));
            assert(candidate(q, feats, p1.feature as int, p1.segment as int, buffer, max_dist));
        },
        (Some(p1), None) => {
            assert(candidate(q, feats, p1.feature as int, p1.segment as int, buffer, max_dist));
        },
        (None, Some(p2)) => {
            assert(candidate(q, feats, p2.feature as int, p2.segment as int, buffer, max_dist));
        },
        (None, None) => {},
    }
}

} // verus!
