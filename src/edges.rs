//! Measures on segments: integer square roots, lattice points along a segment, the edges of a
//! road at a given half-width, the corner where two edges meet, and the angular order of
//! directions.
use vstd::prelude::*;
use crate::geom::{Pt2D, dist2, lerp_spec, div_floor, WIDE_LIMIT, WIDTH_LIMIT};

verus! {

/// `r` is the integer square root of `n`.
pub open spec fn is_isqrt(n: int, r: int) -> bool {
    0 <= r && r * r <= n && n < (r + 1) * (r + 1)
}

/// The integer square root of `n`: the largest `r` with `r * r <= n`.
pub open spec fn isqrt(n: int) -> int {
    choose|r: int| #[trigger] is_isqrt(n, r)
}

proof fn lemma_isqrt_unique(n: int, r: int)
    requires
        is_isqrt(n, r),
    ensures
        isqrt(n) == r,
{
    let c = isqrt(n);
    assert(is_isqrt(n, c));
    if c < r {
        assert((c + 1) * (c + 1) <= r * r) by (nonlinear_arith)
            requires 0 <= c, c + 1 <= r;
    } else if r < c {
        assert((r + 1) * (r + 1) <= c * c) by (nonlinear_arith)
            requires 0 <= r, r + 1 <= c;
    }
}

/// Integer square root, for `n < 2^60`.
pub fn isqrt_exec(n: u64) -> (r: u64)
    requires
        n < 0x1000_0000_0000_0000,
    ensures
        r == isqrt(n as int),
        r < 0x4000_0000,
{
    let mut lo: u64 = 0;
    let mut hi: u64 = 0x4000_0000;
    assert(hi * hi == 0x1000_0000_0000_0000);
    while hi - lo > 1
        invariant
            lo < hi <= 0x4000_0000,
            lo * lo <= n,
            n < hi * hi,
        decreases hi - lo,
    {
        let mid = lo + (hi - lo) / 2;
        assert(mid * mid <= 0x1000_0000_0000_0000) by (nonlinear_arith)
            requires mid <= 0x4000_0000;
        if mid * mid <= n {
            lo = mid;
        } else {
            hi = mid;
        }
    }
    proof {
        assert(hi == lo + 1);
        lemma_isqrt_unique(n as int, lo as int);
    }
    lo
}

/// `isqrt(n)` bounds each term under it.
proof fn lemma_isqrt_ge(n: int, a: int)
    requires
        0 <= a * a <= n,
        a >= 0,
    ensures
        a <= isqrt(n),
{
    let c = isqrt(n);
    assert(exists|r: int| #[trigger] is_isqrt(n, r)) by {
        lemma_isqrt_exists(n);
    }
    assert(is_isqrt(n, c));
    if c < a {
        assert((c + 1) * (c + 1) <= a * a) by (nonlinear_arith)
            requires 0 <= c, c + 1 <= a;
    }
}

proof fn lemma_isqrt_exists(n: int)
    requires
        n >= 0,
    ensures
        exists|r: int| #[trigger] is_isqrt(n, r),
    decreases n,
{
    if n == 0 {
        assert(is_isqrt(0, 0));
    } else {
        lemma_isqrt_exists(n - 1);
        let r = choose|r: int| #[trigger] is_isqrt(n - 1, r);
        if n < (r + 1) * (r + 1) {
            assert(is_isqrt(n, r));
        } else {
            assert((r + 1) * (r + 1) <= n < (r + 2) * (r + 2)) by (nonlinear_arith)
                requires n - 1 < (r + 1) * (r + 1), (r + 1) * (r + 1) <= n, r >= 0;
            assert(is_isqrt(n, r + 1));
        }
    }
}

pub open spec fn abs(v: int) -> int {
    if v < 0 { -v } else { v }
}

pub open spec fn min(a: int, b: int) -> int {
    if a < b { a } else { b }
}

/// Each coordinate of `q` lies between those of `a` and `b`.
pub open spec fn between(q: Pt2D, a: Pt2D, b: Pt2D) -> bool {
    &&& (a.x <= q.x <= b.x || b.x <= q.x <= a.x)
    &&& (a.y <= q.y <= b.y || b.y <= q.y <= a.y)
}

/// The point `dist` from `a` toward `b` (or `b` itself, when the segment is shorter),
/// rounded down to whole centimetres; distances are measured against the integer square
/// root of the segment's squared length.
pub open spec fn toward(a: Pt2D, b: Pt2D, dist: int) -> Pt2D {
    let len = isqrt(dist2(a, b));
    let num = min(dist, len);
    Pt2D { x: lerp_spec(a.x as int, b.x as int, num, len) as i64, y: lerp_spec(a.y as int, b.y as int, num, len) as i64 }
}

/// The point about `dist` from `a` toward `b` (see `toward`).
pub fn point_toward(a: Pt2D, b: Pt2D, dist: u64) -> (r: Pt2D)
    requires
        a.in_bounds(),
        b.in_bounds(),
        a != b,
    ensures
        r == toward(a, b, dist as int),
        between(r, a, b),
        r.in_bounds(),
        dist >= isqrt(dist2(a, b)) ==> r == b,
{
    let len = seg_len(a, b);
    let num: u64 = if dist < len { dist } else { len };
    let x = crate::geom::lerp(a.x, b.x, num as i128, len as i128);
    let y = crate::geom::lerp(a.y, b.y, num as i128, len as i128);
    proof {
        if dist >= len {
            let lx = (b.x - a.x) as int;
            let ly = (b.y - a.y) as int;
            vstd::arithmetic::div_mod::lemma_div_multiples_vanish(lx, len as int);
            vstd::arithmetic::div_mod::lemma_div_multiples_vanish(ly, len as int);
            assert(lx * len == len * lx) by (nonlinear_arith);
            assert(ly * len == len * ly) by (nonlinear_arith);
        }
    }
    Pt2D { x, y }
}

/// The length of the segment `a b`, rounded down: at least 1.
pub fn seg_len(a: Pt2D, b: Pt2D) -> (r: u64)
    requires
        a.in_bounds(),
        b.in_bounds(),
        a != b,
    ensures
        r == isqrt(dist2(a, b)),
        1 <= r < 0x4000_0000,
{
    let dx: i64 = b.x - a.x;
    let dy: i64 = b.y - a.y;
    let n = crate::geom::dist2_exec(a, b);
    let len = isqrt_exec(n as u64);
    proof {
        if dx != 0 {
            assert(0 < dx * dx) by (nonlinear_arith) requires dx != 0;
            assert(dy * dy >= 0) by (nonlinear_arith);
        } else {
            assert(0 < dy * dy) by (nonlinear_arith) requires dy != 0;
            assert(dx * dx >= 0) by (nonlinear_arith);
        }
        lemma_isqrt_ge(n as int, 1);
    }
    len
}

/// `|x| <= b`.
pub open spec fn within(x: int, b: int) -> bool {
    -b <= x <= b
}

/// The offset, of length about `w`, perpendicular to `a b` and to its left.
pub open spec fn offset_x(a: Pt2D, b: Pt2D, w: int) -> int {
    (-(b.y - a.y) * w) / isqrt(dist2(a, b))
}

pub open spec fn offset_y(a: Pt2D, b: Pt2D, w: int) -> int {
    ((b.x - a.x) * w) / isqrt(dist2(a, b))
}

/// The point `w` to the left of `p`, facing along `a b`.
pub open spec fn left_of(p: Pt2D, a: Pt2D, b: Pt2D, w: int) -> Pt2D {
    Pt2D { x: (p.x + offset_x(a, b, w)) as i64, y: (p.y + offset_y(a, b, w)) as i64 }
}

/// The point `w` to the right of `p`, facing along `a b`.
pub open spec fn right_of(p: Pt2D, a: Pt2D, b: Pt2D, w: int) -> Pt2D {
    Pt2D { x: (p.x - offset_x(a, b, w)) as i64, y: (p.y - offset_y(a, b, w)) as i64 }
}

proof fn lemma_offset_bound(c: int, len: int, w: int)
    requires
        len >= 1,
        0 <= w,
        within(c, len),
    ensures
        within((c * w) / len, w),
{
    assert(within(c * w, len * w)) by (nonlinear_arith)
        requires within(c, len), w >= 0;
    vstd::arithmetic::div_mod::lemma_div_is_ordered(c * w, len * w, len);
    vstd::arithmetic::div_mod::lemma_div_is_ordered(-(len * w), c * w, len);
    vstd::arithmetic::div_mod::lemma_div_multiples_vanish(w, len);
    vstd::arithmetic::div_mod::lemma_div_multiples_vanish(-w, len);
    assert(len * w == w * len) by (nonlinear_arith);
    assert(-(len * w) == len * (-w)) by (nonlinear_arith);
}

/// The offset from `a`, perpendicular to `a b` and to its left, of length about `w`.
fn offset(a: Pt2D, b: Pt2D, w: u64) -> (r: (i64, i64))
    requires
        a.in_bounds(),
        b.in_bounds(),
        a != b,
        w <= WIDTH_LIMIT,
    ensures
        r.0 == offset_x(a, b, w as int),
        r.1 == offset_y(a, b, w as int),
        within(r.0 as int, w as int),
        within(r.1 as int, w as int),
{
    let dx: i64 = b.x - a.x;
    let dy: i64 = b.y - a.y;
    let n = crate::geom::dist2_exec(a, b);
    let len = isqrt_exec(n as u64);
    proof {
        let ax = abs(dx as int);
        let ay = abs(dy as int);
        assert(ax * ax == dx * dx && ay * ay == dy * dy) by (nonlinear_arith)
            requires ax == abs(dx as int), ay == abs(dy as int);
        assert(0 <= dx * dx && 0 <= dy * dy) by (nonlinear_arith);
        lemma_isqrt_ge(n as int, ax);
        lemma_isqrt_ge(n as int, ay);
        if dx != 0 {
            assert(0 < dx * dx) by (nonlinear_arith) requires dx != 0;
        } else {
            assert(0 < dy * dy) by (nonlinear_arith) requires dy != 0;
        }
        lemma_isqrt_ge(n as int, 1);
        lemma_offset_bound(-dy, len as int, w as int);
        lemma_offset_bound(dx as int, len as int, w as int);
    }
    let dxi = dx as i128;
    let dyi = dy as i128;
    let wi = w as i128;
    assert(within(dxi * wi, 0x10_0000_0000_0000)) by (nonlinear_arith)
        requires within(dxi as int, 0x800_0000), 0 <= wi <= 0x8_0000;
    assert(within(dyi * wi, 0x10_0000_0000_0000)) by (nonlinear_arith)
        requires within(dyi as int, 0x800_0000), 0 <= wi <= 0x8_0000;
    let dyw = dyi * wi;
    assert(-dyw == (-dyi) * wi) by (nonlinear_arith) requires dyw == dyi * wi;
    let ox = div_floor(-dyw, len as i128);
    let oy = div_floor(dxi * wi, len as i128);
    (ox as i64, oy as i64)
}

/// The point `w` to the left of `p`, facing along `a b`.
pub fn left_edge(p: Pt2D, a: Pt2D, b: Pt2D, w: u64) -> (r: Pt2D)
    requires
        p.in_bounds(),
        a.in_bounds(),
        b.in_bounds(),
        a != b,
        w <= WIDTH_LIMIT,
    ensures
        r == left_of(p, a, b, w as int),
        within(r.x - p.x, w as int),
        within(r.y - p.y, w as int),
{
    let (ox, oy) = offset(a, b, w);
    Pt2D { x: p.x + ox, y: p.y + oy }
}

/// The point `w` to the right of `p`, facing along `a b`.
pub fn right_edge(p: Pt2D, a: Pt2D, b: Pt2D, w: u64) -> (r: Pt2D)
    requires
        p.in_bounds(),
        a.in_bounds(),
        b.in_bounds(),
        a != b,
        w <= WIDTH_LIMIT,
    ensures
        r == right_of(p, a, b, w as int),
        within(r.x - p.x, w as int),
        within(r.y - p.y, w as int),
{
    let (ox, oy) = offset(a, b, w);
    Pt2D { x: p.x - ox, y: p.y - oy }
}

/// Cross product of two vectors.
pub open spec fn cross_v(u: Pt2D, v: Pt2D) -> int {
    u.x * v.y - u.y * v.x
}

/// For the line through `la` along `da` and the line through `lb` along `db`, the
/// denominator and the two numerators of the parameters where they meet, with the
/// denominator made non-negative.
pub open spec fn meet_params(la: Pt2D, da: Pt2D, lb: Pt2D, db: Pt2D) -> (int, int, int) {
    let den = cross_v(da, db);
    let t = (lb.x - la.x) * db.y - (lb.y - la.y) * db.x;
    let s = (lb.x - la.x) * da.y - (lb.y - la.y) * da.x;
    if den < 0 { (-den, -t, -s) } else { (den, t, s) }
}

/// The two lines meet at a point that lies within the first step along each of them: at
/// `la + t * da` and `lb + s * db` with `0 <= t, s <= 1`.
pub open spec fn lines_converge(la: Pt2D, da: Pt2D, lb: Pt2D, db: Pt2D) -> bool {
    let (den, t, s) = meet_params(la, da, lb, db);
    den > 0 && 0 <= t <= den && 0 <= s <= den
}

/// Where the two lines meet, rounded down to whole centimetres.
pub open spec fn meeting_point(la: Pt2D, da: Pt2D, lb: Pt2D, db: Pt2D) -> Pt2D {
    let (den, t, s) = meet_params(la, da, lb, db);
    Pt2D {
        x: lerp_spec(la.x as int, la.x + da.x, t, den) as i64,
        y: lerp_spec(la.y as int, la.y + da.y, t, den) as i64,
    }
}

pub open spec fn near(p: Pt2D, bound: int) -> bool {
    within(p.x as int, bound) && within(p.y as int, bound)
}

/// Where the line through `la` along `da` meets the line through `lb` along `db`, if they
/// converge (see `lines_converge`).
pub fn meet(la: Pt2D, da: Pt2D, lb: Pt2D, db: Pt2D) -> (r: Option<Pt2D>)
    requires
        near(la, 0x480_0000),
        near(lb, 0x480_0000),
        near(da, 0x800_0000),
        near(db, 0x800_0000),
    ensures
        r == (if lines_converge(la, da, lb, db) { Some(meeting_point(la, da, lb, db)) } else { None }),
        r is Some ==> near(r->0, WIDE_LIMIT as int),
{
    let dax = da.x as i128;
    let day = da.y as i128;
    let dbx = db.x as i128;
    let dby = db.y as i128;
    let wx = (lb.x as i128) - (la.x as i128);
    let wy = (lb.y as i128) - (la.y as i128);
    assert(within(dax * dby, 0x40_0000_0000_0000) && within(day * dbx, 0x40_0000_0000_0000)) by (nonlinear_arith)
        requires within(dax as int, 0x800_0000), within(day as int, 0x800_0000), within(dbx as int, 0x800_0000), within(dby as int, 0x800_0000);
    assert(within(wx * dby, 0x80_0000_0000_0000) && within(wy * dbx, 0x80_0000_0000_0000)) by (nonlinear_arith)
        requires within(wx as int, 0x1000_0000), within(wy as int, 0x1000_0000), within(dbx as int, 0x800_0000), within(dby as int, 0x800_0000);
    assert(within(wx * day, 0x80_0000_0000_0000) && within(wy * dax, 0x80_0000_0000_0000)) by (nonlinear_arith)
        requires within(wx as int, 0x1000_0000), within(wy as int, 0x1000_0000), within(dax as int, 0x800_0000), within(day as int, 0x800_0000);
    let den0 = dax * dby - day * dbx;
    let t0 = wx * dby - wy * dbx;
    let s0 = wx * day - wy * dax;
    let (den, t, s) = if den0 < 0 { (-den0, -t0, -s0) } else { (den0, t0, s0) };
    if den > 0 && 0 <= t && t <= den && 0 <= s && s <= den {
        let x = crate::geom::lerp(la.x, la.x + da.x, t, den);
        let y = crate::geom::lerp(la.y, la.y + da.y, t, den);
        Some(Pt2D { x, y })
    } else {
        None
    }
}

/// Which half of the plane a direction points into: 0 for angles in [0, 180), else 1.
pub open spec fn half(v: Pt2D) -> int {
    if v.y > 0 || (v.y == 0 && v.x > 0) { 0 } else { 1 }
}

/// The direction `u` comes before `v` counter-clockwise from the positive x axis.
pub open spec fn angle_lt(u: Pt2D, v: Pt2D) -> bool {
    half(u) < half(v) || (half(u) == half(v) && cross_v(u, v) > 0)
}

pub fn angle_lt_exec(u: Pt2D, v: Pt2D) -> (r: bool)
    requires
        near(u, 0x800_0000),
        near(v, 0x800_0000),
    ensures
        r == angle_lt(u, v),
{
    let hu: u8 = if u.y > 0 || (u.y == 0 && u.x > 0) { 0 } else { 1 };
    let hv: u8 = if v.y > 0 || (v.y == 0 && v.x > 0) { 0 } else { 1 };
    if hu != hv {
        return hu < hv;
    }
    let ux = u.x as i128;
    let uy = u.y as i128;
    let vx = v.x as i128;
    let vy = v.y as i128;
    assert(within(ux * vy, 0x40_0000_0000_0000) && within(uy * vx, 0x40_0000_0000_0000)) by (nonlinear_arith)
        requires within(ux as int, 0x800_0000), within(uy as int, 0x800_0000), within(vx as int, 0x800_0000), within(vy as int, 0x800_0000);
    ux * vy - uy * vx > 0
}

pub proof fn lemma_angle_lt_asym(u: Pt2D, v: Pt2D)
    ensures
        angle_lt(u, v) ==> !angle_lt(v, u),
{
    assert(cross_v(u, v) == -cross_v(v, u)) by (nonlinear_arith);
}

} // verus!
