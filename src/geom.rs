//! Integer plane geometry: points, segments, polylines.
use vstd::prelude::*;

verus! {

/// Bound on the magnitude of every coordinate, in centimetres (about 670 km).
pub const COORD_LIMIT: i64 = 67108864;

/// Bound on the magnitude of points derived from in-bounds points (offsets, corners).
pub const WIDE_LIMIT: i64 = 268435456;

/// Bound on a half-width, in centimetres.
pub const WIDTH_LIMIT: u64 = 524288;

/// A point of the plane, in centimetres.
#[derive(Clone, Copy, Debug, PartialEq, Eq, Structural)]
pub struct Pt2D {
    pub x: i64,
    pub y: i64,
}

impl Pt2D {
    pub open spec fn in_bounds(self) -> bool {
        -COORD_LIMIT <= self.x <= COORD_LIMIT && -COORD_LIMIT <= self.y <= COORD_LIMIT
    }

    pub fn new(x: i64, y: i64) -> (r: Pt2D)
        ensures
            r.x == x,
            r.y == y,
    {
        Pt2D { x, y }
    }
}

/// Twice the signed area of the triangle `o a b`; positive when `o a b` turns counter-clockwise.
pub open spec fn cross(o: Pt2D, a: Pt2D, b: Pt2D) -> int {
    (a.x - o.x) * (b.y - o.y) - (a.y - o.y) * (b.x - o.x)
}

/// Dot product of `a - o` and `b - o`.
pub open spec fn dot(o: Pt2D, a: Pt2D, b: Pt2D) -> int {
    (a.x - o.x) * (b.x - o.x) + (a.y - o.y) * (b.y - o.y)
}

/// Squared distance between two points.
pub open spec fn dist2(a: Pt2D, b: Pt2D) -> int {
    (b.x - a.x) * (b.x - a.x) + (b.y - a.y) * (b.y - a.y)
}

/// `q` lies on the closed segment from `a` to `b`.
pub open spec fn on_segment(q: Pt2D, a: Pt2D, b: Pt2D) -> bool {
    cross(a, b, q) == 0 && 0 <= dot(a, b, q) <= dist2(a, b)
}

pub open spec fn all_in_bounds(pts: Seq<Pt2D>) -> bool {
    forall|i: int| 0 <= i < pts.len() ==> (#[trigger] pts[i]).in_bounds()
}

/// A polyline: at least two points, all within bounds, no two consecutive points equal.
pub open spec fn valid_polyline(pts: Seq<Pt2D>) -> bool {
    &&& pts.len() >= 2
    &&& all_in_bounds(pts)
    &&& forall|i: int| 0 <= i < pts.len() - 1 ==> pts[i] != #[trigger] pts[i + 1]
}

/// Floor division by a positive divisor.
pub fn div_floor(n: i128, d: i128) -> (r: i128)
    requires
        0 < d <= 0x1_0000_0000_0000_0000_0000_0000,
        -0x1_0000_0000_0000_0000_0000_0000 <= n <= 0x1_0000_0000_0000_0000_0000_0000,
    ensures
        r == n / d,
{
    if n >= 0 {
        n / d
    } else {
        let m: i128 = -n;
        let q: i128 = (m + d - 1) / d;
        proof {
            let qq = q as int;
            let mm = m as int;
            let dd = d as int;
            assert(mm + dd - 1 == dd * qq + (mm + dd - 1) % dd) by (nonlinear_arith)
                requires dd > 0, qq == (mm + dd - 1) / dd;
            assert((-mm) / dd == -qq) by (nonlinear_arith)
                requires dd > 0, mm + dd - 1 == dd * qq + (mm + dd - 1) % dd,
                    0 <= (mm + dd - 1) % dd < dd;
        }
        -q
    }
}

pub fn cross_exec(o: Pt2D, a: Pt2D, b: Pt2D) -> (r: i64)
    requires
        o.in_bounds(),
        a.in_bounds(),
        b.in_bounds(),
    ensures
        r == cross(o, a, b),
        -0x80_0000_0000_0000 <= r <= 0x80_0000_0000_0000,
{
    let ax = a.x - o.x;
    let ay = a.y - o.y;
    let bx = b.x - o.x;
    let by = b.y - o.y;
    assert(-0x8000000 <= ax <= 0x8000000);
    assert(-0x40_0000_0000_0000 <= ax * by <= 0x40_0000_0000_0000) by (nonlinear_arith)
        requires -0x8000000 <= ax <= 0x8000000, -0x8000000 <= by <= 0x8000000;
    assert(-0x40_0000_0000_0000 <= ay * bx <= 0x40_0000_0000_0000) by (nonlinear_arith)
        requires -0x8000000 <= ay <= 0x8000000, -0x8000000 <= bx <= 0x8000000;
    ax * by - ay * bx
}


pub fn dot_exec(o: Pt2D, a: Pt2D, b: Pt2D) -> (r: i64)
    requires
        o.in_bounds(),
        a.in_bounds(),
        b.in_bounds(),
    ensures
        r == dot(o, a, b),
{
    let ax = a.x - o.x;
    let ay = a.y - o.y;
    let bx = b.x - o.x;
    let by = b.y - o.y;
    assert(-0x40_0000_0000_0000 <= ax * bx <= 0x40_0000_0000_0000) by (nonlinear_arith)
        requires -0x8000000 <= ax <= 0x8000000, -0x8000000 <= bx <= 0x8000000;
    assert(-0x40_0000_0000_0000 <= ay * by <= 0x40_0000_0000_0000) by (nonlinear_arith)
        requires -0x8000000 <= ay <= 0x8000000, -0x8000000 <= by <= 0x8000000;
    ax * bx + ay * by
}

pub fn dist2_exec(a: Pt2D, b: Pt2D) -> (r: i64)
    requires
        a.in_bounds(),
        b.in_bounds(),
    ensures
        r == dist2(a, b),
        0 <= r <= 0x80_0000_0000_0000,
{
    let dx = b.x - a.x;
    let dy = b.y - a.y;
    assert(0 <= dx * dx <= 0x40_0000_0000_0000) by (nonlinear_arith)
        requires -0x8000000 <= dx <= 0x8000000;
    assert(0 <= dy * dy <= 0x40_0000_0000_0000) by (nonlinear_arith)
        requires -0x8000000 <= dy <= 0x8000000;
    dx * dx + dy * dy
}

/// A segment between two distinct points.
#[derive(Clone, Copy, Debug, PartialEq, Eq, Structural)]
pub struct Line {
    pub pt1: Pt2D,
    pub pt2: Pt2D,
}

impl Line {
    pub open spec fn wf(self) -> bool {
        self.pt1 != self.pt2 && self.pt1.in_bounds() && self.pt2.in_bounds()
    }

    /// The segment from `pt1` to `pt2`, or `None` when the two points coincide.
    pub fn new(pt1: Pt2D, pt2: Pt2D) -> (r: Option<Line>)
        ensures
            r == (if pt1 == pt2 { None } else { Some(Line { pt1, pt2 }) }),
    {
        if pt1.x == pt2.x && pt1.y == pt2.y {
            None
        } else {
            Some(Line { pt1, pt2 })
        }
    }

    /// Where this segment crosses `other`, if they cross (see `segments_cross`).
    pub fn intersection(&self, other: &Line) -> (r: Option<Pt2D>)
        requires
            self.wf(),
            other.wf(),
        ensures
            r == (if segments_cross(self.pt1, self.pt2, other.pt1, other.pt2) {
                Some(crossing_point(self.pt1, self.pt2, other.pt1, other.pt2))
            } else {
                None
            }),
            r is Some ==> r->0.in_bounds(),
    {
        let c1 = cross_exec(other.pt1, other.pt2, self.pt1);
        let c2 = cross_exec(other.pt1, other.pt2, self.pt2);
        let c3 = cross_exec(self.pt1, self.pt2, other.pt1);
        let c4 = cross_exec(self.pt1, self.pt2, other.pt2);
        if (c1 > 0) == (c2 > 0) || (c3 > 0) == (c4 > 0) {
            return None;
        }
        let (num, den) = if c1 > 0 {
            ((c1 as i128), (c1 as i128) - (c2 as i128))
        } else {
            (-(c1 as i128), (c2 as i128) - (c1 as i128))
        };
        let x = lerp(self.pt1.x, self.pt2.x, num, den);
        let y = lerp(self.pt1.y, self.pt2.y, num, den);
        let r = Pt2D { x, y };
        assert(r.in_bounds());
        Some(r)
    }
}

/// The segment `a b` crosses the segment `p q`: `a` and `b` lie on different sides of the
/// line through `p q`, and `p` and `q` on different sides of the line through `a b` (a point
/// on a line counts as lying on its clockwise side).
pub open spec fn segments_cross(a: Pt2D, b: Pt2D, p: Pt2D, q: Pt2D) -> bool {
    &&& (cross(p, q, a) > 0) != (cross(p, q, b) > 0)
    &&& (cross(a, b, p) > 0) != (cross(a, b, q) > 0)
}

/// `s + (e - s) * num / den`, rounded down.
pub open spec fn lerp_spec(s: int, e: int, num: int, den: int) -> int {
    s + ((e - s) * num) / den
}

/// The point where the segment `a b` meets the line through `p q`, rounded down to whole
/// centimetres, for segments that cross.
pub open spec fn crossing_point(a: Pt2D, b: Pt2D, p: Pt2D, q: Pt2D) -> Pt2D {
    let c1 = cross(p, q, a);
    let c2 = cross(p, q, b);
    let (num, den) = if c1 > 0 { (c1, c1 - c2) } else { (-c1, c2 - c1) };
    Pt2D { x: lerp_spec(a.x as int, b.x as int, num, den) as i64, y: lerp_spec(a.y as int, b.y as int, num, den) as i64 }
}

pub proof fn lemma_lerp_between(s: int, e: int, num: int, den: int)
    requires
        0 <= num <= den,
        den > 0,
    ensures
        s <= e ==> s <= lerp_spec(s, e, num, den) <= e,
        e <= s ==> e <= lerp_spec(s, e, num, den) <= s,
{
    let d = e - s;
    if d >= 0 {
        assert(0 <= d * num <= d * den) by (nonlinear_arith)
            requires d >= 0, 0 <= num <= den;
        vstd::arithmetic::div_mod::lemma_div_is_ordered(0, d * num, den);
        vstd::arithmetic::div_mod::lemma_div_is_ordered(d * num, d * den, den);
        vstd::arithmetic::div_mod::lemma_div_multiples_vanish(d, den);
        assert(d * den == den * d) by (nonlinear_arith);
        vstd::arithmetic::div_mod::lemma_div_basics(den);
        if d == 0 {
            assert(d * num == 0) by (nonlinear_arith)
                requires d == 0;
            assert((d * num) / den == 0);
        }
    } else {
        assert(d * den <= d * num <= 0) by (nonlinear_arith)
            requires d < 0, 0 <= num <= den;
        vstd::arithmetic::div_mod::lemma_div_is_ordered(d * num, 0, den);
        vstd::arithmetic::div_mod::lemma_div_is_ordered(d * den, d * num, den);
        vstd::arithmetic::div_mod::lemma_div_multiples_vanish(d, den);
        assert(d * den == den * d) by (nonlinear_arith);
        vstd::arithmetic::div_mod::lemma_div_basics(den);
    }
}

pub(crate) fn lerp(s: i64, e: i64, num: i128, den: i128) -> (r: i64)
    requires
        -WIDE_LIMIT <= s <= WIDE_LIMIT,
        -WIDE_LIMIT <= e <= WIDE_LIMIT,
        0 <= num <= den,
        0 < den <= 0x200_0000_0000_0000,
    ensures
        r == lerp_spec(s as int, e as int, num as int, den as int),
        s <= e ==> s <= r <= e,
        e <= s ==> e <= r <= s,
{
    let d: i128 = (e as i128) - (s as i128);
    assert(-0x2000_0000 <= d <= 0x2000_0000);
    assert(-0x4000_0000_0000_0000_0000_0000 <= d * num <= 0x4000_0000_0000_0000_0000_0000) by (nonlinear_arith)
        requires -0x2000_0000 <= d <= 0x2000_0000, 0 <= num <= 0x200_0000_0000_0000;
    let q = div_floor(d * num, den);
    proof {
        lemma_lerp_between(s as int, e as int, num as int, den as int);
    }
    (s as i128 + q) as i64
}

} // verus!
