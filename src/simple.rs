//! Simple polygons: rings whose vertices are distinct and whose edges meet only where
//! neighboring edges share a vertex.
use vstd::prelude::*;
use crate::geom::{Pt2D, cross, dot, dist2, on_segment, WIDE_LIMIT};
use crate::edges::{near, within};

verus! {

/// The segments `a b` and `c d` have a point in common.
pub open spec fn segments_touch(a: Pt2D, b: Pt2D, c: Pt2D, d: Pt2D) -> bool {
    let o1 = cross(a, b, c);
    let o2 = cross(a, b, d);
    let o3 = cross(c, d, a);
    let o4 = cross(c, d, b);
    ||| (((o1 > 0 && o2 < 0) || (o1 < 0 && o2 > 0)) && ((o3 > 0 && o4 < 0) || (o3 < 0 && o4 > 0)))
    ||| on_segment(c, a, b)
    ||| on_segment(d, a, b)
    ||| on_segment(a, c, d)
    ||| on_segment(b, c, d)
}

/// The position after `i` around a ring of `n`.
pub open spec fn nxt(i: int, n: int) -> int {
    if i + 1 >= n { 0 } else { i + 1 }
}

/// The ring `poly` is a simple polygon: at least three vertices, all distinct; edges that
/// are not neighbors have no point in common; and neighboring edges meet only at their
/// shared vertex.
#[verifier::opaque]
pub open spec fn simple_polygon(poly: Seq<Pt2D>) -> bool {
    let n = poly.len() as int;
    &&& n >= 3
    &&& forall|i: int, j: int| 0 <= i < j < n ==> poly[i] != poly[j]
    &&& forall|i: int, j: int| 0 <= i < j < n && j != i + 1 && !(i == 0 && j == n - 1) ==> !#[trigger] segments_touch(
        poly[i], poly[nxt(i, n)], poly[j], poly[nxt(j, n)])
    &&& forall|i: int| 0 <= i < n ==> {
        &&& !on_segment(poly[nxt(nxt(i, n), n)], poly[i], #[trigger] poly[nxt(i, n)])
        &&& !on_segment(poly[i], poly[nxt(i, n)], poly[nxt(nxt(i, n), n)])
    }
}

pub open spec fn all_near(poly: Seq<Pt2D>, c: Pt2D, bound: int) -> bool {
    forall|i: int| 0 <= i < poly.len() ==> within((#[trigger] poly[i]).x - c.x, bound) && within(poly[i].y - c.y, bound)
}

pub open spec fn all_wide(poly: Seq<Pt2D>) -> bool {
    forall|i: int| 0 <= i < poly.len() ==> near(#[trigger] poly[i], WIDE_LIMIT as int)
}

fn cross_wide(o: Pt2D, a: Pt2D, b: Pt2D) -> (r: i128)
    requires
        near(o, WIDE_LIMIT as int),
        near(a, WIDE_LIMIT as int),
        near(b, WIDE_LIMIT as int),
    ensures
        r == cross(o, a, b),
{
    let ax = (a.x as i128) - (o.x as i128);
    let ay = (a.y as i128) - (o.y as i128);
    let bx = (b.x as i128) - (o.x as i128);
    let by = (b.y as i128) - (o.y as i128);
    assert(within(ax * by, 0x10_0000_0000_0000_0000) && within(ay * bx, 0x10_0000_0000_0000_0000)) by (nonlinear_arith)
        requires within(ax as int, 0x2000_0000), within(ay as int, 0x2000_0000), within(bx as int, 0x2000_0000), within(by as int, 0x2000_0000);
    ax * by - ay * bx
}

fn on_segment_exec(q: Pt2D, a: Pt2D, b: Pt2D) -> (r: bool)
    requires
        near(q, WIDE_LIMIT as int),
        near(a, WIDE_LIMIT as int),
        near(b, WIDE_LIMIT as int),
    ensures
        r == on_segment(q, a, b),
{
    let c = cross_wide(a, b, q);
    let ax = (b.x as i128) - (a.x as i128);
    let ay = (b.y as i128) - (a.y as i128);
    let qx = (q.x as i128) - (a.x as i128);
    let qy = (q.y as i128) - (a.y as i128);
    assert(within(ax * qx, 0x10_0000_0000_0000_0000) && within(ay * qy, 0x10_0000_0000_0000_0000)
        && within(ax * ax, 0x10_0000_0000_0000_0000) && within(ay * ay, 0x10_0000_0000_0000_0000)) by (nonlinear_arith)
        requires within(ax as int, 0x2000_0000), within(ay as int, 0x2000_0000), within(qx as int, 0x2000_0000), within(qy as int, 0x2000_0000);
    let d = ax * qx + ay * qy;
    let l = ax * ax + ay * ay;
    assert(d == dot(a, b, q));
    assert(l == dist2(a, b));
    c == 0 && 0 <= d && d <= l
}

fn touch_exec(a: Pt2D, b: Pt2D, c: Pt2D, d: Pt2D) -> (r: bool)
    requires
        near(a, WIDE_LIMIT as int),
        near(b, WIDE_LIMIT as int),
        near(c, WIDE_LIMIT as int),
        near(d, WIDE_LIMIT as int),
    ensures
        r == segments_touch(a, b, c, d),
{
    let o1 = cross_wide(a, b, c);
    let o2 = cross_wide(a, b, d);
    let o3 = cross_wide(c, d, a);
    let o4 = cross_wide(c, d, b);
    (((o1 > 0 && o2 < 0) || (o1 < 0 && o2 > 0)) && ((o3 > 0 && o4 < 0) || (o3 < 0 && o4 > 0)))
        || on_segment_exec(c, a, b) || on_segment_exec(d, a, b) || on_segment_exec(a, c, d)
        || on_segment_exec(b, c, d)
}

fn nxt_exec(i: usize, n: usize) -> (r: usize)
    requires
        i < n,
    ensures
        r == nxt(i as int, n as int),
        r < n,
{
    if i + 1 >= n { 0 } else { i + 1 }
}

/// Whether the ring is a simple polygon (see `simple_polygon`).
pub fn is_simple(poly: &Vec<Pt2D>) -> (r: bool)
    requires
        all_wide(poly@),
    ensures
        r == simple_polygon(poly@),
{
    reveal(simple_polygon);
    let n = poly.len();
    if n < 3 {
        {
            proof {
                reveal(simple_polygon);
            }
            return false;
        }
    }
    let mut i: usize = 0;
    while i < n
        invariant
            n == poly@.len(),
            n >= 3,
            all_wide(poly@),
            i <= n,
            forall|a: int, b: int| 0 <= a < b < n && a < i ==> poly@[a] != poly@[b],
            forall|a: int, b: int| 0 <= a < b < n && a < i && b != a + 1 && !(a == 0 && b == n - 1) ==> !#[trigger] segments_touch(
                poly@[a], poly@[nxt(a, n as int)], poly@[b], poly@[nxt(b, n as int)]),
            forall|a: int| 0 <= a < i ==> {
                &&& !on_segment(poly@[nxt(nxt(a, n as int), n as int)], poly@[a], #[trigger] poly@[nxt(a, n as int)])
                &&& !on_segment(poly@[a], poly@[nxt(a, n as int)], poly@[nxt(nxt(a, n as int), n as int)])
            },
        decreases n - i,
    {
        let i1 = nxt_exec(i, n);
        let i2 = nxt_exec(i1, n);
        if on_segment_exec(poly[i2], poly[i], poly[i1]) || on_segment_exec(poly[i], poly[i1], poly[i2]) {
            {
            proof {
                reveal(simple_polygon);
            }
            return false;
        }
        }
        let mut j: usize = i + 1;
        while j < n
            invariant
                n == poly@.len(),
                n >= 3,
                all_wide(poly@),
                i < n,
                i1 == nxt(i as int, n as int),
                i < j <= n,
                forall|b: int| i < b < j ==> poly@[i as int] != poly@[b],
                forall|b: int| i < b < j && b != i + 1 && !(i == 0 && b == n - 1) ==> !#[trigger] segments_touch(
                    poly@[i as int], poly@[i1 as int], poly@[b], poly@[nxt(b, n as int)]),
            decreases n - j,
        {
            if poly[i].x == poly[j].x && poly[i].y == poly[j].y {
                {
            proof {
                reveal(simple_polygon);
            }
            return false;
        }
            }
            if j != i + 1 && !(i == 0 && j == n - 1) {
                let j1 = nxt_exec(j, n);
                if touch_exec(poly[i], poly[i1], poly[j], poly[j1]) {
                    {
            proof {
                reveal(simple_polygon);
            }
            return false;
        }
                }
            }
            j += 1;
        }
        i += 1;
    }
    proof {
        reveal(simple_polygon);
    }
    true
}

/// The half-side of the square an intersection falls back to, in centimetres.
pub const FALLBACK_HALF_SIDE: i64 = 250;

/// The square of half-side `FALLBACK_HALF_SIDE` centered on `c`, counter-clockwise.
pub open spec fn square_around(c: Pt2D) -> Seq<Pt2D> {
    let s = FALLBACK_HALF_SIDE;
    seq![
        Pt2D { x: (c.x - s) as i64, y: (c.y - s) as i64 },
        Pt2D { x: (c.x + s) as i64, y: (c.y - s) as i64 },
        Pt2D { x: (c.x + s) as i64, y: (c.y + s) as i64 },
        Pt2D { x: (c.x - s) as i64, y: (c.y + s) as i64 },
    ]
}

/// A square is a simple polygon.
pub proof fn lemma_square_simple(c: Pt2D)
    requires
        c.in_bounds(),
    ensures
        simple_polygon(square_around(c)),
{
    reveal(simple_polygon);
    let p = square_around(c);
    let n = 4int;
    assert(nxt(0, 4) == 1 && nxt(1, 4) == 2 && nxt(2, 4) == 3 && nxt(3, 4) == 0);
    assert(p[0].x == c.x - 250 && p[0].y == c.y - 250);
    assert(p[1].x == c.x + 250 && p[1].y == c.y - 250);
    assert(p[2].x == c.x + 250 && p[2].y == c.y + 250);
    assert(p[3].x == c.x - 250 && p[3].y == c.y + 250);
    assert(p[1].x - p[0].x == 500 && p[1].y - p[0].y == 0);
    assert(p[2].x - p[0].x == 500 && p[2].y - p[0].y == 500);
    assert(p[3].x - p[0].x == 0 && p[3].y - p[0].y == 500);
    assert(p[3].x - p[2].x == -500 && p[3].y - p[2].y == 0);
    assert(p[0].x - p[2].x == -500 && p[0].y - p[2].y == -500);
    assert(p[1].x - p[2].x == 0 && p[1].y - p[2].y == -500);
    assert(p[0].x - p[3].x == 0 && p[0].y - p[3].y == -500);
    assert(p[1].x - p[3].x == 500 && p[1].y - p[3].y == -500);
    assert(p[2].x - p[3].x == 500 && p[2].y - p[3].y == 0);
    assert(p[2].x - p[1].x == 0 && p[2].y - p[1].y == 500);
    assert(p[3].x - p[1].x == -500 && p[3].y - p[1].y == 500);
    assert(p[0].x - p[1].x == -500 && p[0].y - p[1].y == 0);
    assert(cross(p[0], p[1], p[2]) == 250000);
    assert(cross(p[0], p[1], p[3]) == 250000);
    assert(cross(p[1], p[2], p[3]) == 250000);
    assert(cross(p[1], p[2], p[0]) == 250000);
    assert(cross(p[2], p[3], p[0]) == 250000);
    assert(cross(p[2], p[3], p[1]) == 250000);
    assert(cross(p[3], p[0], p[1]) == 250000);
    assert(cross(p[3], p[0], p[2]) == 250000);
    assert forall|i: int, j: int| 0 <= i < j < n && j != i + 1 && !(i == 0 && j == n - 1) implies !#[trigger] segments_touch(
        p[i], p[nxt(i, n)], p[j], p[nxt(j, n)]) by {
        assert((i == 0 && j == 2) || (i == 1 && j == 3));
    }
    assert forall|i: int| 0 <= i < n implies {
        &&& !on_segment(p[nxt(nxt(i, n), n)], p[i], #[trigger] p[nxt(i, n)])
        &&& !on_segment(p[i], p[nxt(i, n)], p[nxt(nxt(i, n), n)])
    } by {
        assert(i == 0 || i == 1 || i == 2 || i == 3);
    }
}

/// The square of half-side `FALLBACK_HALF_SIDE` around `c`.
pub fn square_exec(c: Pt2D) -> (r: Vec<Pt2D>)
    requires
        c.in_bounds(),
    ensures
        r@ == square_around(c),
        all_wide(r@),
{
    let s = FALLBACK_HALF_SIDE;
    let lo_x = c.x - s;
    let lo_y = c.y - s;
    let hi_x = c.x + s;
    let hi_y = c.y + s;
    let r = vec![
        Pt2D { x: lo_x, y: lo_y },
        Pt2D { x: hi_x, y: lo_y },
        Pt2D { x: hi_x, y: hi_y },
        Pt2D { x: lo_x, y: hi_y },
    ];
    assert(r@ =~= square_around(c));
    r
}

/// Whether every vertex lies within `bound` of `c` along both axes.
pub fn all_near_exec(poly: &Vec<Pt2D>, c: Pt2D, bound: u64) -> (r: bool)
    requires
        all_wide(poly@),
        c.in_bounds(),
        bound <= 0x1000_0000,
    ensures
        r == all_near(poly@, c, bound as int),
{
    let mut i: usize = 0;
    while i < poly.len()
        invariant
            all_wide(poly@),
            c.in_bounds(),
            i <= poly@.len(),
            forall|k: int| 0 <= k < i ==> within((#[trigger] poly@[k]).x - c.x, bound as int) && within(poly@[k].y - c.y, bound as int),
        decreases poly@.len() - i,
    {
        let p = poly[i];
        let dx = (p.x as i128) - (c.x as i128);
        let dy = (p.y as i128) - (c.y as i128);
        let b = bound as i128;
        if dx < -b || dx > b || dy < -b || dy > b {
            {
            proof {
                reveal(simple_polygon);
            }
            return false;
        }
        }
        i += 1;
    }
    true
}

} // verus!
