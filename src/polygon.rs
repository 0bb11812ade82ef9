//! The boundary polygon of an intersection, computed from the ends of its roads, and the
//! trimming of those roads so that they stop at it.
use vstd::prelude::*;
use crate::geom::{Pt2D, dot, dist2, valid_polyline, WIDTH_LIMIT};
use crate::initial::{Intersection, Road};
use crate::simple::{all_near, all_near_exec, all_wide, is_simple, lemma_square_simple, simple_polygon, square_around, square_exec};
use crate::raw::{OriginalIntersection, OriginalRoad};
use crate::edges::{
    angle_lt, angle_lt_exec, isqrt, seg_len, left_edge, left_of, lines_converge, meet,
    meeting_point, near, point_toward, right_edge, right_of, toward, within, between,
};

verus! {

/// How far a road is trimmed back where no corner can be computed, in centimetres.
pub const TRIM_BUFFER: u64 = 250;

/// The longest trim, in centimetres.
pub const MAX_TRIM: u64 = 0x4000_0000;

/// Where a road meets an intersection: its end point there, the next point of its
/// centerline, and its half-width.
#[derive(Clone, Copy, Debug, PartialEq, Eq, Structural)]
pub struct RoadEnd {
    pub end: Pt2D,
    pub next: Pt2D,
    pub half_width: u64,
}

impl RoadEnd {
    pub open spec fn wf(self) -> bool {
        &&& self.end.in_bounds()
        &&& self.next.in_bounds()
        &&& self.end != self.next
        &&& self.half_width <= WIDTH_LIMIT
    }

    /// The direction from the intersection into the road.
    pub open spec fn dir(self) -> Pt2D {
        Pt2D { x: (self.next.x - self.end.x) as i64, y: (self.next.y - self.end.y) as i64 }
    }

    /// The road's left edge across from `p`.
    pub open spec fn left(self, p: Pt2D) -> Pt2D {
        left_of(p, self.end, self.next, self.half_width as int)
    }

    /// The road's right edge across from `p`.
    pub open spec fn right(self, p: Pt2D) -> Pt2D {
        right_of(p, self.end, self.next, self.half_width as int)
    }

    /// The centerline point `TRIM_BUFFER` into the road along its end segment, rounded down
    /// (the segment's other point, if it is shorter).
    pub open spec fn buffer_point(self) -> Pt2D {
        toward(self.end, self.next, TRIM_BUFFER as int)
    }
}

/// The left edge of `a` and the right edge of `b` meet within their first segments.
pub open spec fn edges_meet(a: RoadEnd, b: RoadEnd) -> bool {
    lines_converge(a.left(a.end), a.dir(), b.right(b.end), b.dir())
}

/// Where the left edge of `a` meets the right edge of `b`.
pub open spec fn corner(a: RoadEnd, b: RoadEnd) -> Pt2D {
    meeting_point(a.left(a.end), a.dir(), b.right(b.end), b.dir())
}

/// The polygon vertices between road `a` and the next road `b` counter-clockwise: their
/// corner, or, where the edges do not converge, each edge at the buffer distance.
pub open spec fn transition(a: RoadEnd, b: RoadEnd) -> Seq<Pt2D> {
    if edges_meet(a, b) {
        seq![corner(a, b)]
    } else {
        seq![a.left(a.buffer_point()), b.right(b.buffer_point())]
    }
}

pub open spec fn clamp_trim(v: int) -> int {
    if v < 0 { 0 } else if v > MAX_TRIM { MAX_TRIM as int } else { v }
}

/// How far along road `e` the point `c` lies, rounded down and clamped to `[0, MAX_TRIM]`.
pub open spec fn projection(c: Pt2D, e: RoadEnd) -> int {
    clamp_trim(dot(e.end, e.next, c) / isqrt(dist2(e.end, e.next)))
}

/// How far the transition from `a` to `b` asks to trim `a`.
pub open spec fn left_trim(a: RoadEnd, b: RoadEnd) -> int {
    if edges_meet(a, b) { projection(corner(a, b), a) } else { TRIM_BUFFER as int }
}

/// How far the transition from `a` to `b` asks to trim `b`.
pub open spec fn right_trim(a: RoadEnd, b: RoadEnd) -> int {
    if edges_meet(a, b) { projection(corner(a, b), b) } else { TRIM_BUFFER as int }
}

pub open spec fn max(a: int, b: int) -> int {
    if a < b { b } else { a }
}

/// The vertices of the first `k` transitions around `order`.
pub open spec fn ring(ends: Seq<RoadEnd>, order: Seq<usize>, k: int) -> Seq<Pt2D>
    decreases k,
{
    if k <= 0 {
        Seq::empty()
    } else {
        ring(ends, order, k - 1) + transition(
            ends[order[k - 1] as int],
            ends[order[k % order.len() as int] as int],
        )
    }
}

/// The trim of the road at position `i` of `order`: the larger of what its two transitions ask.
pub open spec fn trim_at(ends: Seq<RoadEnd>, order: Seq<usize>, i: int) -> int {
    let n = order.len() as int;
    max(
        left_trim(ends[order[i] as int], ends[order[(i + 1) % n] as int]),
        right_trim(ends[order[(i + n - 1) % n] as int], ends[order[i] as int]),
    )
}

/// `order` lists every road end once, counter-clockwise by the direction of the road.
pub open spec fn angle_sorted(ends: Seq<RoadEnd>, order: Seq<usize>) -> bool {
    &&& order.len() == ends.len()
    &&& forall|i: int| 0 <= i < order.len() ==> (#[trigger] order[i]) < ends.len()
    &&& order.no_duplicates()
    &&& forall|i: int|
        0 <= i < order.len() - 1 ==> !angle_lt(
            ends[order[i + 1] as int].dir(),
            #[trigger] ends[order[i] as int].dir(),
        )
}

pub open spec fn ends_wf(ends: Seq<RoadEnd>) -> bool {
    forall|i: int| 0 <= i < ends.len() ==> (#[trigger] ends[i]).wf()
}

/// The polygon of a dead end: a rectangle across the road from its end to the buffer point.
pub open spec fn dead_end_polygon(e: RoadEnd) -> Seq<Pt2D> {
    let q = e.buffer_point();
    seq![e.right(e.end), e.right(q), e.left(q), e.left(e.end)]
}

/// The polygon of a junction of two roads: a quadrilateral across both at their buffer points.
pub open spec fn two_way_polygon(a: RoadEnd, b: RoadEnd) -> Seq<Pt2D> {
    let qa = a.buffer_point();
    let qb = b.buffer_point();
    seq![a.right(qa), a.left(qa), b.right(qb), b.left(qb)]
}

/// The polygon and the trim of each road end computed by `synthesize`.
#[verifier::opaque]
pub open spec fn synthesized(ends: Seq<RoadEnd>, poly: Seq<Pt2D>, trims: Seq<u64>) -> bool {
    &&& trims.len() == ends.len()
    &&& ends.len() == 0 ==> poly.len() == 0
    &&& ends.len() == 1 ==> poly == dead_end_polygon(ends[0]) && trims[0] == TRIM_BUFFER
    &&& ends.len() == 2 ==> poly == two_way_polygon(ends[0], ends[1]) && trims[0] == TRIM_BUFFER
        && trims[1] == TRIM_BUFFER
    &&& ends.len() >= 3 ==> exists|order: Seq<usize>| {
        &&& angle_sorted(ends, order)
        &&& poly == ring(ends, order, ends.len() as int)
        &&& poly.len() == ends.len() + fallbacks(ends, order, ends.len() as int)
        &&& forall|i: int| 0 <= i < ends.len() ==> trims[#[trigger] order[i] as int] == trim_at(ends, order, i)
    }
}

fn end_dir(e: RoadEnd) -> (r: Pt2D)
    requires
        e.wf(),
    ensures
        r == e.dir(),
        near(r, 0x800_0000),
{
    Pt2D { x: e.next.x - e.end.x, y: e.next.y - e.end.y }
}

/// The positions of `ends` sorted counter-clockwise by direction.
#[verifier::rlimit(100)]
fn sort_by_angle(ends: &Vec<RoadEnd>) -> (order: Vec<usize>)
    requires
        ends_wf(ends@),
    ensures
        angle_sorted(ends@, order@),
{
    let mut order: Vec<usize> = Vec::new();
    let mut k: usize = 0;
    while k < ends.len()
        invariant
            ends_wf(ends@),
            k <= ends@.len(),
            order@.len() == k,
            forall|i: int| 0 <= i < order@.len() ==> (#[trigger] order@[i]) < k,
            order@.no_duplicates(),
            forall|i: int|
                0 <= i < order@.len() - 1 ==> !angle_lt(
                    ends@[order@[i + 1] as int].dir(),
                    #[trigger] ends@[order@[i] as int].dir(),
                ),
        decreases ends@.len() - k,
    {
        let dk = end_dir(ends[k]);
        let mut pos: usize = 0;
        while pos < order.len()
            invariant
                ends_wf(ends@),
                k < ends@.len(),
                dk == ends@[k as int].dir(),
                near(dk, 0x800_0000),
                order@.len() == k,
                forall|i: int| 0 <= i < order@.len() ==> (#[trigger] order@[i]) < k,
                pos <= order@.len(),
                forall|i: int| 0 <= i < pos ==> !angle_lt(dk, #[trigger] ends@[order@[i] as int].dir()),
            ensures
                pos <= order@.len(),
                forall|i: int| 0 <= i < pos ==> !angle_lt(dk, #[trigger] ends@[order@[i] as int].dir()),
                pos < order@.len() ==> angle_lt(dk, ends@[order@[pos as int] as int].dir()),
            decreases order@.len() - pos,
        {
            let d = end_dir(ends[order[pos]]);
            if angle_lt_exec(dk, d) {
                break;
            }
            pos += 1;
        }
        let ghost old_order = order@;
        proof {
            if pos < old_order.len() {
                crate::edges::lemma_angle_lt_asym(dk, ends@[old_order[pos as int] as int].dir());
            }
        }
        order.insert(pos, k);
        proof {
            assert(order@ == old_order.insert(pos as int, k));
            assert forall|i: int| 0 <= i < order@.len() implies (#[trigger] order@[i]) < k + 1 by {
                if i < pos {
                    assert(order@[i] == old_order[i]);
                } else if i > pos {
                    assert(order@[i] == old_order[i - 1]);
                }
            }
            assert forall|a: int, b: int| 0 <= a < order@.len() && 0 <= b < order@.len() && a != b
                implies order@[a] != order@[b] by {
                if a != pos && b != pos {
                    let ia = if a < pos { a } else { a - 1 };
                    let ib = if b < pos { b } else { b - 1 };
                    assert(order@[a] == old_order[ia]);
                    assert(order@[b] == old_order[ib]);
                } else if a == pos {
                    let ib = if b < pos { b } else { b - 1 };
                    assert(order@[b] == old_order[ib]);
                } else {
                    let ia = if a < pos { a } else { a - 1 };
                    assert(order@[a] == old_order[ia]);
                }
            }
            assert forall|i: int| 0 <= i < order@.len() - 1 implies !angle_lt(
                ends@[order@[i + 1] as int].dir(),
                #[trigger] ends@[order@[i] as int].dir(),
            ) by {
                if i + 1 < pos {
                    assert(order@[i] == old_order[i] && order@[i + 1] == old_order[i + 1]);
                } else if i + 1 == pos {
                    assert(order@[i] == old_order[i] && order@[i + 1] == k);
                    assert(!angle_lt(dk, ends@[old_order[i] as int].dir()));
                } else if i == pos {
                    assert(order@[i] == k && order@[i + 1] == old_order[i]);
                } else {
                    assert(order@[i] == old_order[i - 1] && order@[i + 1] == old_order[i]);
                }
            }
        }
        k += 1;
    }
    order
}

fn end_left(e: RoadEnd, p: Pt2D) -> (r: Pt2D)
    requires
        e.wf(),
        p.in_bounds(),
    ensures
        r == e.left(p),
        near(r, 0x480_0000),
{
    left_edge(p, e.end, e.next, e.half_width)
}

fn end_right(e: RoadEnd, p: Pt2D) -> (r: Pt2D)
    requires
        e.wf(),
        p.in_bounds(),
    ensures
        r == e.right(p),
        near(r, 0x480_0000),
{
    right_edge(p, e.end, e.next, e.half_width)
}

fn buffer_point(e: RoadEnd) -> (r: Pt2D)
    requires
        e.wf(),
    ensures
        r == e.buffer_point(),
        r.in_bounds(),
{
    point_toward(e.end, e.next, TRIM_BUFFER)
}

/// Where the left edge of `a` meets the right edge of `b`, if they converge.
fn corner_exec(a: RoadEnd, b: RoadEnd) -> (r: Option<Pt2D>)
    requires
        a.wf(),
        b.wf(),
    ensures
        r == (if edges_meet(a, b) { Some(corner(a, b)) } else { None }),
        r is Some ==> near(r->0, crate::geom::WIDE_LIMIT as int),
{
    let la = end_left(a, a.end);
    let lb = end_right(b, b.end);
    meet(la, end_dir(a), lb, end_dir(b))
}

fn projection_exec(c: Pt2D, e: RoadEnd) -> (r: u64)
    requires
        near(c, crate::geom::WIDE_LIMIT as int),
        e.wf(),
    ensures
        r == projection(c, e),
        r <= MAX_TRIM,
{
    let dx = (e.next.x as i128) - (e.end.x as i128);
    let dy = (e.next.y as i128) - (e.end.y as i128);
    let cx = (c.x as i128) - (e.end.x as i128);
    let cy = (c.y as i128) - (e.end.y as i128);
    assert(within(dx * cx, 0x100_0000_0000_0000) && within(dy * cy, 0x100_0000_0000_0000)) by (nonlinear_arith)
        requires within(dx as int, 0x800_0000), within(dy as int, 0x800_0000), within(cx as int, 0x2000_0000), within(cy as int, 0x2000_0000);
    let len = seg_len(e.end, e.next);
    let q = crate::geom::div_floor(dx * cx + dy * cy, len as i128);
    if q < 0 {
        0
    } else if q > MAX_TRIM as i128 {
        MAX_TRIM
    } else {
        q as u64
    }
}

/// The vertices of the transition from `a` to `b`, and the trims it asks of each.
fn transition_exec(a: RoadEnd, b: RoadEnd) -> (r: (Pt2D, Option<Pt2D>, u64, u64))
    requires
        a.wf(),
        b.wf(),
    ensures
        transition(a, b) == (match r.1 {
            Some(p) => seq![r.0, p],
            None => seq![r.0],
        }),
        r.2 == left_trim(a, b),
        r.3 == right_trim(a, b),
        near(r.0, crate::geom::WIDE_LIMIT as int),
        r.1 is Some ==> near(r.1->0, crate::geom::WIDE_LIMIT as int),
{
    match corner_exec(a, b) {
        Some(c) => {
            let l = projection_exec(c, a);
            let r = projection_exec(c, b);
            (c, None, l, r)
        },
        None => {
            let qa = buffer_point(a);
            let qb = buffer_point(b);
            (end_left(a, qa), Some(end_right(b, qb)), TRIM_BUFFER, TRIM_BUFFER)
        },
    }
}

/// How many of the first `k` transitions around `order` fell back to the buffer distance.
pub open spec fn fallbacks(ends: Seq<RoadEnd>, order: Seq<usize>, k: int) -> int
    decreases k,
{
    if k <= 0 {
        0
    } else {
        fallbacks(ends, order, k - 1) + if edges_meet(
            ends[order[k - 1] as int],
            ends[order[k % order.len() as int] as int],
        ) {
            0int
        } else {
            1int
        }
    }
}

proof fn lemma_fallbacks_nonneg(ends: Seq<RoadEnd>, order: Seq<usize>, k: int)
    ensures
        fallbacks(ends, order, k) >= 0,
    decreases k,
{
    if k > 0 {
        lemma_fallbacks_nonneg(ends, order, k - 1);
    }
}

proof fn lemma_ring_len(ends: Seq<RoadEnd>, order: Seq<usize>, k: int)
    requires
        k >= 0,
    ensures
        ring(ends, order, k).len() == k + fallbacks(ends, order, k),
    decreases k,
{
    if k > 0 {
        lemma_ring_len(ends, order, k - 1);
    }
}

/// Around a ring of `n` positions, `prv` comes just before `i`.
proof fn lemma_ring_neighbors(i: int, n: int, prv: int)
    requires
        0 <= i < n,
        prv == (if i == 0 { n - 1 } else { i - 1 }),
    ensures
        (i + n - 1) % n == prv,
        (prv + 1) % n == i,
{
    if i == 0 {
        vstd::arithmetic::div_mod::lemma_small_mod((n - 1) as nat, n as nat);
        vstd::arithmetic::div_mod::lemma_mod_self_0(n);
    } else {
        vstd::arithmetic::div_mod::lemma_small_mod((i - 1) as nat, n as nat);
        vstd::arithmetic::div_mod::lemma_mod_add_multiples_vanish(i - 1, n);
        vstd::arithmetic::div_mod::lemma_small_mod(i as nat, n as nat);
    }
}

/// The trim of each road end: the larger of what its two transitions ask.
#[verifier::rlimit(50)]
fn combine_trims(ends: &Vec<RoadEnd>, order: &Vec<usize>, lefts: &Vec<u64>, rights: &Vec<u64>) -> (trims: Vec<u64>)
    requires
        ends@.len() >= 3,
        angle_sorted(ends@, order@),
        lefts@.len() == ends@.len(),
        rights@.len() == ends@.len(),
        forall|j: int| 0 <= j < ends@.len() ==> #[trigger] lefts@[j] <= MAX_TRIM && rights@[j] <= MAX_TRIM,
        forall|j: int| 0 <= j < ends@.len() ==> #[trigger] lefts@[j] == left_trim(
            ends@[order@[j] as int],
            ends@[order@[(j + 1) % (ends@.len() as int)] as int],
        ),
        forall|j: int| 0 <= j < ends@.len() ==> #[trigger] rights@[j] == right_trim(
            ends@[order@[j] as int],
            ends@[order@[(j + 1) % (ends@.len() as int)] as int],
        ),
    ensures
        trims@.len() == ends@.len(),
        forall|p: int| 0 <= p < trims@.len() ==> #[trigger] trims@[p] <= MAX_TRIM,
        forall|i: int| 0 <= i < ends@.len() ==> trims@[#[trigger] order@[i] as int] == trim_at(ends@, order@, i),
{
    let n = ends.len();
    let mut trims: Vec<u64> = Vec::new();
    let mut k: usize = 0;
    while k < n
        invariant
            n == ends@.len(),
            k <= n,
            trims@.len() == k,
            forall|p: int| 0 <= p < k ==> #[trigger] trims@[p] <= MAX_TRIM,
        decreases n - k,
    {
        trims.push(0);
        k += 1;
    }
    let mut i: usize = 0;
    while i < n
        invariant
            n == ends@.len(),
            n >= 3,
            angle_sorted(ends@, order@),
            trims@.len() == n,
            lefts@.len() == n,
            rights@.len() == n,
            i <= n,
            forall|p: int| 0 <= p < n ==> #[trigger] trims@[p] <= MAX_TRIM,
            forall|j: int| 0 <= j < n ==> #[trigger] lefts@[j] <= MAX_TRIM && rights@[j] <= MAX_TRIM,
            forall|j: int| 0 <= j < n ==> #[trigger] lefts@[j] == left_trim(
                ends@[order@[j] as int],
                ends@[order@[(j + 1) % (n as int)] as int],
            ),
            forall|j: int| 0 <= j < n ==> #[trigger] rights@[j] == right_trim(
                ends@[order@[j] as int],
                ends@[order@[(j + 1) % (n as int)] as int],
            ),
            forall|j: int| 0 <= j < i ==> trims@[#[trigger] order@[j] as int] == trim_at(ends@, order@, j),
        decreases n - i,
    {
        let prv: usize = if i == 0 { n - 1 } else { i - 1 };
        proof {
            lemma_ring_neighbors(i as int, n as int, prv as int);
            assert(order@[i as int] < n);
        }
        let l = lefts[i];
        let r = rights[prv];
        assert(lefts@[i as int] <= MAX_TRIM && rights@[prv as int] <= MAX_TRIM);
        let t = if l < r { r } else { l };
        let ghost before = trims@;
        trims.set(order[i], t);
        proof {
            assert forall|j: int| 0 <= j < i + 1 implies trims@[#[trigger] order@[j] as int] == trim_at(ends@, order@, j) by {
                if j < i {
                    assert(order@[j] != order@[i as int]);
                    assert(trims@[order@[j] as int] == before[order@[j] as int]);
                }
            }
        }
        i += 1;
    }
    trims
}

/// The largest half-width among the road ends.
pub open spec fn max_half_width(ends: Seq<RoadEnd>) -> int
    decreases ends.len(),
{
    if ends.len() == 0 {
        0
    } else {
        max(max_half_width(ends.drop_last()), ends.last().half_width as int)
    }
}

/// How far from the first road's end a vertex of the polygon may lie, along each axis.
pub open spec fn reach(ends: Seq<RoadEnd>) -> int {
    8 * max_half_width(ends) + 2 * TRIM_BUFFER
}

/// The polygon computed from the road ends may stand: it is simple, and every vertex lies
/// within `reach` of the first road's end.
pub open spec fn acceptable(cand: Seq<Pt2D>, ends: Seq<RoadEnd>) -> bool {
    simple_polygon(cand) && all_near(cand, ends[0].end, reach(ends))
}

/// The polygon computed from the road ends where it may stand, else a small square around
/// the first road's end.
pub open spec fn final_polygon(ends: Seq<RoadEnd>, cand: Seq<Pt2D>) -> Seq<Pt2D> {
    if ends.len() == 0 || acceptable(cand, ends) { cand } else { square_around(ends[0].end) }
}

/// What `synthesize` returns: the polygon `final_polygon` makes of the computed one
/// (`synthesized`), the trims, and whether the intersection is degraded (a corner fell back
/// to the buffer distance, or the computed polygon could not stand).
pub open spec fn synthesis_result(ends: Seq<RoadEnd>, poly: Seq<Pt2D>, trims: Seq<u64>, degraded: bool) -> bool {
    exists|cand: Seq<Pt2D>| {
        &&& #[trigger] synthesized(ends, cand, trims)
        &&& poly == final_polygon(ends, cand)
        &&& degraded == ((ends.len() >= 3 && cand.len() > ends.len()) || (ends.len() >= 1 && !acceptable(cand, ends)))
    }
}

fn max_half_width_exec(ends: &Vec<RoadEnd>) -> (r: u64)
    requires
        ends_wf(ends@),
    ensures
        r == max_half_width(ends@),
        r <= WIDTH_LIMIT,
{
    let mut m: u64 = 0;
    let mut i: usize = 0;
    while i < ends.len()
        invariant
            ends_wf(ends@),
            i <= ends@.len(),
            m == max_half_width(ends@.take(i as int)),
            m <= WIDTH_LIMIT,
        decreases ends@.len() - i,
    {
        assert(ends@.take(i + 1).drop_last() =~= ends@.take(i as int));
        assert(ends@[i as int].wf());
        if ends[i].half_width > m {
            m = ends[i].half_width;
        }
        i += 1;
    }
    assert(ends@.take(ends@.len() as int) =~= ends@);
    m
}

/// The polygon of the intersection whose roads end at `ends`, how far back to trim each
/// road, and whether the intersection is degraded (see `synthesis_result`). One road gives a
/// dead-end rectangle, two a quadrilateral across both; three or more are taken
/// counter-clockwise, with the corner where each road's left edge meets the next road's
/// right edge. Where that polygon is not simple, or strays beyond `reach`, a small square
/// around the first road's end stands instead.
#[verifier::rlimit(100)]
pub fn synthesize(ends: &Vec<RoadEnd>) -> (r: (Vec<Pt2D>, Vec<u64>, bool))
    requires
        ends_wf(ends@),
    ensures
        synthesis_result(ends@, r.0@, r.1@, r.2),
        r.1@.len() == ends@.len(),
        ends@.len() >= 1 ==> simple_polygon(r.0@) && all_near(r.0@, ends@[0].end, reach(ends@)),
        forall|p: int| 0 <= p < r.1@.len() ==> #[trigger] r.1@[p] <= MAX_TRIM,
{
    let (cand, trims) = candidate_polygon(ends);
    if ends.len() == 0 {
        return (cand, trims, false);
    }
    let bound = 8 * max_half_width_exec(ends) + 2 * TRIM_BUFFER;
    let ok = is_simple(&cand) && all_near_exec(&cand, ends[0].end, bound);
    let degraded = (ends.len() >= 3 && cand.len() > ends.len()) || !ok;
    proof {
        assert(ends@[0].wf());
    }
    if ok {
        assert(synthesized(ends@, cand@, trims@));
        (cand, trims, degraded)
    } else {
        let sq = square_exec(ends[0].end);
        proof {
            lemma_square_simple(ends@[0].end);
            assert(synthesized(ends@, cand@, trims@));
            let c = ends@[0].end;
            assert(all_near(sq@, c, reach(ends@))) by {
                assert(max_half_width(ends@) >= 0);
            }
        }
        (sq, trims, degraded)
    }
}

/// The polygon computed from the road ends (see `synthesized`), before any check.
fn candidate_polygon(ends: &Vec<RoadEnd>) -> (r: (Vec<Pt2D>, Vec<u64>))
    requires
        ends_wf(ends@),
    ensures
        synthesized(ends@, r.0@, r.1@),
        ends@.len() >= 1 ==> r.0@.len() >= 3,
        r.1@.len() == ends@.len(),
        all_wide(r.0@),
        forall|p: int| 0 <= p < r.1@.len() ==> #[trigger] r.1@[p] <= MAX_TRIM,
{
    proof {
        reveal(synthesized);
    }
    let n = ends.len();
    if n == 0 {
        return (Vec::new(), Vec::new());
    }
    if n == 1 {
        let e = ends[0];
        let q = buffer_point(e);
        let poly = vec![end_right(e, e.end), end_right(e, q), end_left(e, q), end_left(e, e.end)];
        let trims = vec![TRIM_BUFFER];
        assert(poly@ =~= dead_end_polygon(ends@[0]));
        return (poly, trims);
    }
    if n == 2 {
        let a = ends[0];
        let b = ends[1];
        let qa = buffer_point(a);
        let qb = buffer_point(b);
        let poly = vec![end_right(a, qa), end_left(a, qa), end_right(b, qb), end_left(b, qb)];
        let trims = vec![TRIM_BUFFER, TRIM_BUFFER];
        assert(poly@ =~= two_way_polygon(ends@[0], ends@[1]));
        return (poly, trims);
    }
    ring_polygon(ends)
}

/// `synthesize` for three roads or more.
#[verifier::rlimit(50)]
fn ring_polygon(ends: &Vec<RoadEnd>) -> (r: (Vec<Pt2D>, Vec<u64>))
    requires
        ends_wf(ends@),
        ends@.len() >= 3,
    ensures
        synthesized(ends@, r.0@, r.1@),
        r.0@.len() >= 3,
        all_wide(r.0@),
        forall|p: int| 0 <= p < r.1@.len() ==> #[trigger] r.1@[p] <= MAX_TRIM,
{
    let n = ends.len();
    let order = sort_by_angle(ends);
    let mut poly: Vec<Pt2D> = Vec::new();
    let mut lefts: Vec<u64> = Vec::new();
    let mut rights: Vec<u64> = Vec::new();
    let mut i: usize = 0;
    while i < n
        invariant
            n == ends@.len(),
            n >= 3,
            ends_wf(ends@),
            angle_sorted(ends@, order@),
            i <= n,
            poly@ == ring(ends@, order@, i as int),
            all_wide(poly@),
            lefts@.len() == i,
            rights@.len() == i,
            forall|j: int| 0 <= j < i ==> #[trigger] lefts@[j] <= MAX_TRIM && rights@[j] <= MAX_TRIM,
            forall|j: int| 0 <= j < i ==> #[trigger] lefts@[j] == left_trim(
                ends@[order@[j] as int],
                ends@[order@[(j + 1) % (n as int)] as int],
            ),
            forall|j: int| 0 <= j < i ==> #[trigger] rights@[j] == right_trim(
                ends@[order@[j] as int],
                ends@[order@[(j + 1) % (n as int)] as int],
            ),
        decreases n - i,
    {
        let nxt: usize = if i + 1 == n { 0 } else { i + 1 };
        proof {
            if i + 1 == n {
                vstd::arithmetic::div_mod::lemma_mod_self_0(n as int);
            } else {
                vstd::arithmetic::div_mod::lemma_small_mod((i + 1) as nat, n as nat);
            }
            assert(nxt == (i + 1) % (n as int));
        }
        let a = ends[order[i]];
        let b = ends[order[nxt]];
        let (p1, p2, l, r) = transition_exec(a, b);
        poly.push(p1);
        match p2 {
            Some(p) => poly.push(p),
            None => {},
        }
        lefts.push(l);
        rights.push(r);
        i += 1;
        assert(poly@ =~= ring(ends@, order@, i as int));
    }
    let trims = combine_trims(ends, &order, &lefts, &rights);
    proof {
        lemma_ring_len(ends@, order@, n as int);
        assert(forall|i: int| 0 <= i < ends@.len() ==> trims@[#[trigger] order@[i] as int] == trim_at(ends@, order@, i));
        lemma_fallbacks_nonneg(ends@, order@, n as int);
        reveal(synthesized);
    }
    (poly, trims)
}

/// The position of the first road from position `k` on whose identifier is `id`, or
/// `roads.len()` if there is none.
pub open spec fn find_road_from(roads: Seq<Road>, id: OriginalRoad, k: int) -> int
    decreases roads.len() - k,
{
    if k < 0 || k >= roads.len() {
        roads.len() as int
    } else if roads[k].id == id {
        k
    } else {
        find_road_from(roads, id, k + 1)
    }
}

/// The road ends at `i` at exactly one of its ends, along a proper polyline, and its
/// half-width is within bounds.
pub open spec fn attachable(road: Road, i: OriginalIntersection) -> bool {
    &&& (road.src_i == i) != (road.dst_i == i)
    &&& valid_polyline(road.trimmed_center_pts@)
    &&& road.half_width <= WIDTH_LIMIT
}

/// How `road` meets the intersection `i`.
pub open spec fn road_end(road: Road, i: OriginalIntersection) -> RoadEnd {
    let p = road.trimmed_center_pts@;
    if road.src_i == i {
        RoadEnd { end: p[0], next: p[1], half_width: road.half_width }
    } else {
        RoadEnd { end: p[p.len() - 1], next: p[p.len() - 2], half_width: road.half_width }
    }
}

/// The positions in `roads` of the first `m` identifiers of `ids` that name an attachable
/// road, each position once.
pub open spec fn attached(roads: Seq<Road>, i: OriginalIntersection, ids: Seq<OriginalRoad>, m: int) -> Seq<int>
    decreases m,
{
    if m <= 0 {
        Seq::empty()
    } else {
        let prev = attached(roads, i, ids, m - 1);
        let k = find_road_from(roads, ids[m - 1], 0);
        if k < roads.len() && attachable(roads[k], i) && !prev.contains(k) {
            prev.push(k)
        } else {
            prev
        }
    }
}

/// The road ends at `i` of the roads at `positions`.
pub open spec fn ends_at(roads: Seq<Road>, i: OriginalIntersection, positions: Seq<int>) -> Seq<RoadEnd> {
    positions.map_values(|k: int| road_end(roads[k], i))
}

/// The centerline with the end point at the intersection replaced by `q`.
pub open spec fn with_end(pts: Seq<Pt2D>, at_src: bool, q: Pt2D) -> Seq<Pt2D> {
    if at_src { pts.update(0, q) } else { pts.update(pts.len() - 1, q) }
}

/// `new` is `old` with its end point at the intersection moved toward the rest of the road,
/// each coordinate between those of the end segment's two points and short of the other
/// point: trimming never lengthens (see `lemma_trim_shortens`).
pub open spec fn is_trim_of(old: Seq<Pt2D>, new: Seq<Pt2D>, at_src: bool) -> bool {
    let n = old.len() as int;
    let (a, b) = if at_src { (old[0], old[1]) } else { (old[n - 1], old[n - 2]) };
    exists|q: Pt2D| {
        &&& new == with_end(old, at_src, q)
        &&& q.in_bounds()
        &&& between(q, a, b)
        &&& q != b
    }
}

/// A point on the segment `a b` is no farther from `b` than `a` is.
pub proof fn lemma_between_closer(q: Pt2D, a: Pt2D, b: Pt2D)
    requires
        between(q, a, b),
    ensures
        dist2(q, b) <= dist2(a, b),
{
    let qx = (b.x - q.x) as int;
    let qy = (b.y - q.y) as int;
    let ax = (b.x - a.x) as int;
    let ay = (b.y - a.y) as int;
    assert(qx * qx <= ax * ax) by (nonlinear_arith)
        requires (0 <= qx <= ax) || (ax <= qx <= 0);
    assert(qy * qy <= ay * ay) by (nonlinear_arith)
        requires (0 <= qy <= ay) || (ay <= qy <= 0);
}

/// The squared length of segment `i` of a polyline.
pub open spec fn seg2(pts: Seq<Pt2D>, i: int) -> int {
    dist2(pts[i], pts[i + 1])
}

/// `new` has as many points as `old`, and each of its segments is at most as long as the
/// same segment of `old`; so `new` is at most as long as `old`.
pub open spec fn no_longer(new: Seq<Pt2D>, old: Seq<Pt2D>) -> bool {
    &&& new.len() == old.len()
    &&& forall|i: int| 0 <= i < old.len() - 1 ==> #[trigger] seg2(new, i) <= seg2(old, i)
}

pub proof fn lemma_no_longer_trans(a: Seq<Pt2D>, b: Seq<Pt2D>, c: Seq<Pt2D>)
    requires
        no_longer(a, b),
        no_longer(b, c),
    ensures
        no_longer(a, c),
{
    assert forall|i: int| 0 <= i < c.len() - 1 implies #[trigger] seg2(a, i) <= seg2(c, i) by {
        assert(seg2(a, i) <= seg2(b, i));
        assert(seg2(b, i) <= seg2(c, i));
    }
}

/// Trimming never lengthens a road: each segment of the trimmed centerline is at most as long
/// as the same segment before, so the whole centerline is at most as long.
pub proof fn lemma_trim_shortens(old: Seq<Pt2D>, new: Seq<Pt2D>, at_src: bool)
    requires
        valid_polyline(old),
        is_trim_of(old, new, at_src),
    ensures
        no_longer(new, old),
{
    let n = old.len() as int;
    let (a, b) = if at_src { (old[0], old[1]) } else { (old[n - 1], old[n - 2]) };
    let q = choose|q: Pt2D| {
        &&& new == with_end(old, at_src, q)
        &&& q.in_bounds()
        &&& between(q, a, b)
        &&& q != b
    };
    assert(a != b) by {
        if at_src {
            assert(old[0] != old[0int + 1]);
        } else {
            assert(old[n - 2] != old[(n - 2) + 1]);
        }
    }
    lemma_between_closer(q, a, b);
    assert forall|k: int| 0 <= k < old.len() - 1 implies #[trigger] seg2(new, k) <= seg2(old, k) by {
        if at_src && k == 0 {
            assert(new[0] == q && new[1] == old[1]);
            assert(dist2(q, b) == dist2(b, q)) by (nonlinear_arith);
            assert(dist2(a, b) == dist2(b, a)) by (nonlinear_arith);
        } else if !at_src && k == n - 2 {
            assert(new[n - 1] == q && new[n - 2] == old[n - 2]);
            assert(dist2(q, b) == dist2(b, q)) by (nonlinear_arith);
            assert(dist2(a, b) == dist2(b, a)) by (nonlinear_arith);
        } else {
            assert(new[k] == old[k] && new[k + 1] == old[k + 1]);
        }
    }
}

/// The centerline of `road` with its end at `i` moved to the point `dist` along its end
/// segment, rounded down (within a centimetre of the exact point on each axis); left as it
/// is where that would consume the whole end segment.
pub open spec fn trimmed_pts(road: Road, i: OriginalIntersection, dist: int) -> Seq<Pt2D> {
    let e = road_end(road, i);
    let q = toward(e.end, e.next, dist);
    if q == e.next { road.trimmed_center_pts@ } else { with_end(road.trimmed_center_pts@, road.src_i == i, q) }
}

/// The identifiers of the roads among the first `p` positions whose trim would consume
/// their whole end segment.
pub open spec fn untrimmed(roads: Seq<Road>, i: OriginalIntersection, positions: Seq<int>, trims: Seq<u64>, p: int) -> Seq<OriginalRoad>
    decreases p,
{
    if p <= 0 {
        Seq::empty()
    } else {
        let prev = untrimmed(roads, i, positions, trims, p - 1);
        let road = roads[positions[p - 1]];
        let e = road_end(road, i);
        if toward(e.end, e.next, trims[p - 1] as int) == e.next { prev.push(road.id) } else { prev }
    }
}

/// The fields of a road other than its centerline are equal.
pub open spec fn same_but_centerline(a: Road, b: Road) -> bool {
    &&& a.id == b.id
    &&& a.src_i == b.src_i
    &&& a.dst_i == b.dst_i
    &&& a.half_width == b.half_width
    &&& a.lane_specs@ == b.lane_specs@
}

proof fn lemma_attached_distinct(roads: Seq<Road>, i: OriginalIntersection, ids: Seq<OriginalRoad>, m: int)
    ensures
        forall|a: int, b: int| 0 <= a < b < attached(roads, i, ids, m).len()
            ==> attached(roads, i, ids, m)[a] != attached(roads, i, ids, m)[b],
    decreases m,
{
    if m > 0 {
        lemma_attached_distinct(roads, i, ids, m - 1);
        let prev = attached(roads, i, ids, m - 1);
        let cur = attached(roads, i, ids, m);
        assert forall|a: int, b: int| 0 <= a < b < cur.len() implies cur[a] != cur[b] by {
            if b == prev.len() {
                assert(cur[a] == prev[a]);
            } else {
                assert(cur[a] == prev[a] && cur[b] == prev[b]);
            }
        }
    }
}

proof fn lemma_attached_in_range(roads: Seq<Road>, i: OriginalIntersection, ids: Seq<OriginalRoad>, m: int)
    ensures
        forall|a: int| 0 <= a < attached(roads, i, ids, m).len() ==> 0 <= #[trigger] attached(roads, i, ids, m)[a]
            < roads.len() && attachable(roads[attached(roads, i, ids, m)[a]], i),
    decreases m,
{
    if m > 0 {
        lemma_attached_in_range(roads, i, ids, m - 1);
        lemma_find_road_range(roads, ids[m - 1], 0);
        let prev = attached(roads, i, ids, m - 1);
        let cur = attached(roads, i, ids, m);
        assert forall|a: int| 0 <= a < cur.len() implies 0 <= #[trigger] cur[a] < roads.len()
            && attachable(roads[cur[a]], i) by {
            if a < prev.len() {
                assert(cur[a] == prev[a]);
            }
        }
    }
}

proof fn lemma_find_road_range(roads: Seq<Road>, id: OriginalRoad, k: int)
    requires
        0 <= k,
    ensures
        0 <= find_road_from(roads, id, k) <= roads.len(),
    decreases roads.len() - k,
{
    if k < roads.len() {
        lemma_find_road_range(roads, id, k + 1);
    }
}

/// With unique identifiers, the search finds the one road that has the identifier.
pub proof fn lemma_find_unique(roads: Seq<Road>, id: OriginalRoad, k: int, start: int)
    requires
        0 <= start <= k < roads.len(),
        roads[k].id == id,
        forall|a: int, b: int| 0 <= a < b < roads.len() ==> (#[trigger] roads[a]).id != (#[trigger] roads[b]).id,
    ensures
        find_road_from(roads, id, start) == k,
    decreases k - start,
{
    if start < k {
        assert(roads[start].id != roads[k].id);
        lemma_find_unique(roads, id, k, start + 1);
    }
}

/// Where the first identifier names an attachable road, at least one road end is attached.
pub proof fn lemma_attached_nonempty(roads: Seq<Road>, i: OriginalIntersection, ids: Seq<OriginalRoad>, m: int)
    requires
        1 <= m <= ids.len(),
        0 <= find_road_from(roads, ids[0], 0) < roads.len(),
        attachable(roads[find_road_from(roads, ids[0], 0)], i),
    ensures
        attached(roads, i, ids, m).len() >= 1,
    decreases m,
{
    if m > 1 {
        lemma_attached_nonempty(roads, i, ids, m - 1);
    } else {
        assert(attached(roads, i, ids, 0).len() == 0);
    }
}

fn find_road(roads: &Vec<Road>, id: OriginalRoad) -> (k: usize)
    ensures
        k == find_road_from(roads@, id, 0),
{
    let mut k: usize = 0;
    while k < roads.len()
        invariant
            k <= roads@.len(),
            find_road_from(roads@, id, k as int) == find_road_from(roads@, id, 0),
        decreases roads@.len() - k,
    {
        let r = &roads[k];
        if r.id.osm_way_id == id.osm_way_id && r.id.i1.osm_node_id == id.i1.osm_node_id
            && r.id.i2.osm_node_id == id.i2.osm_node_id {
            return k;
        }
        k += 1;
    }
    k
}

fn contains_usize(v: &Vec<usize>, x: usize) -> (r: bool)
    ensures
        r == v@.contains(x),
{
    let mut i: usize = 0;
    while i < v.len()
        invariant
            i <= v@.len(),
            forall|j: int| 0 <= j < i ==> v@[j] != x,
        decreases v@.len() - i,
    {
        if v[i] == x {
            return true;
        }
        i += 1;
    }
    false
}

fn attachable_exec(road: &Road, i: OriginalIntersection) -> (r: bool)
    ensures
        r == attachable(*road, i),
{
    let at_src = road.src_i.osm_node_id == i.osm_node_id;
    let at_dst = road.dst_i.osm_node_id == i.osm_node_id;
    at_src != at_dst && crate::initial::is_valid_polyline(&road.trimmed_center_pts)
        && road.half_width <= WIDTH_LIMIT
}

fn road_end_exec(road: &Road, i: OriginalIntersection) -> (r: RoadEnd)
    requires
        attachable(*road, i),
    ensures
        r == road_end(*road, i),
        r.wf(),
{
    let p = &road.trimmed_center_pts;
    let n = p.len();
    proof {
        assert(p@[0] != p@[0int + 1]);
        assert(p@[n - 2] != p@[(n - 2) + 1]);
        assert(p@[0].in_bounds() && p@[1].in_bounds() && p@[n - 1].in_bounds() && p@[n - 2].in_bounds());
    }
    if road.src_i.osm_node_id == i.osm_node_id {
        RoadEnd { end: p[0], next: p[1], half_width: road.half_width }
    } else {
        RoadEnd { end: p[n - 1], next: p[n - 2], half_width: road.half_width }
    }
}

/// Moving the end point at the intersection along the end segment, short of its other
/// point, keeps a centerline a proper polyline.
proof fn lemma_trim_valid(old: Seq<Pt2D>, at_src: bool, q: Pt2D)
    requires
        valid_polyline(old),
        q.in_bounds(),
        at_src ==> q != old[1],
        !at_src ==> q != old[old.len() - 2],
    ensures
        valid_polyline(with_end(old, at_src, q)),
{
    let new = with_end(old, at_src, q);
    assert forall|k: int| 0 <= k < new.len() implies (#[trigger] new[k]).in_bounds() by {
        if new[k] != q {
            assert(new[k] == old[k]);
        }
    }
    assert forall|k: int| 0 <= k < new.len() - 1 implies new[k] != #[trigger] new[k + 1] by {
        assert(old[k] != old[k + 1]);
    }
}

/// The positions of the attachable roads of `i`, and how each meets `i`.
#[verifier::rlimit(50)]
fn collect_ends(i: &Intersection, roads: &Vec<Road>) -> (r: (Vec<usize>, Vec<RoadEnd>))
    ensures
        r.0@.map_values(|k: usize| k as int) == attached(roads@, i.id, i.roads@, i.roads@.len() as int),
        r.1@ == ends_at(roads@, i.id, attached(roads@, i.id, i.roads@, i.roads@.len() as int)),
        ends_wf(r.1@),
{
    let ghost ids = i.roads@;
    let mut positions: Vec<usize> = Vec::new();
    let mut ends: Vec<RoadEnd> = Vec::new();
    let mut m: usize = 0;
    while m < i.roads.len()
        invariant
            ids == i.roads@,
            m <= ids.len(),
            positions@.map_values(|k: usize| k as int) == attached(roads@, i.id, ids, m as int),
            ends@ == ends_at(roads@, i.id, attached(roads@, i.id, ids, m as int)),
            ends_wf(ends@),
        decreases ids.len() - m,
    {
        let k = find_road(roads, i.roads[m]);
        let ghost prev = attached(roads@, i.id, ids, m as int);
        proof {
            assert(prev.contains(k as int) == positions@.contains(k)) by {
                if positions@.contains(k) {
                    let w = choose|w: int| 0 <= w < positions@.len() && positions@[w] == k;
                    assert(prev[w] == k as int);
                }
                if prev.contains(k as int) {
                    let w = choose|w: int| 0 <= w < prev.len() && prev[w] == k as int;
                    assert(positions@[w] == k);
                }
            }
        }
        if k < roads.len() && attachable_exec(&roads[k], i.id) && !contains_usize(&positions, k) {
            let e = road_end_exec(&roads[k], i.id);
            positions.push(k);
            ends.push(e);
            proof {
                assert(positions@.map_values(|k: usize| k as int) =~= prev.push(k as int));
                assert(ends@ =~= ends_at(roads@, i.id, prev.push(k as int)));
            }
        }
        m += 1;
    }
    (positions, ends)
}

/// What `intersection_polygon` computes: from the attachable roads of the intersection `i`
/// whose incident identifiers are `ids`, the polygon (`synthesized`), each of those roads
/// trimmed by what the polygon asks, the roads that stayed untrimmed, and whether some corner
/// fell back to the buffer distance (with three roads or more, the polygon then has more
/// vertices than roads: see `fallbacks`).
pub open spec fn polygon_and_trims(
    old_roads: Seq<Road>,
    new_roads: Seq<Road>,
    i: OriginalIntersection,
    ids: Seq<OriginalRoad>,
    poly: Seq<Pt2D>,
    failed: Seq<OriginalRoad>,
    degraded: bool,
) -> bool {
    let pos = attached(old_roads, i, ids, ids.len() as int);
    let ends = ends_at(old_roads, i, pos);
    &&& pos.len() >= 1 ==> simple_polygon(poly) && all_near(poly, ends[0].end, reach(ends))
    &&& forall|k: int| 0 <= k < old_roads.len() && !pos.contains(k)
        ==> (#[trigger] new_roads[k]).trimmed_center_pts@ == old_roads[k].trimmed_center_pts@
    &&& exists|trims: Seq<u64>| {
        &&& synthesis_result(ends, poly, trims, degraded)
        &&& forall|p: int| 0 <= p < pos.len() ==> new_roads[#[trigger] pos[p]].trimmed_center_pts@
            == trimmed_pts(old_roads[pos[p]], i, trims[p] as int)
        &&& failed == untrimmed(old_roads, i, pos, trims, pos.len() as int)
    }
}

/// Trims the road at each of `positions` back by the matching entry of `trims`, and lists
/// those whose trim would consume the whole end segment.
#[verifier::rlimit(50)]
fn apply_trims(
    i: OriginalIntersection,
    roads: &mut Vec<Road>,
    positions: &Vec<usize>,
    ends: &Vec<RoadEnd>,
    trims: &Vec<u64>,
    pos: Ghost<Seq<int>>,
) -> (failed: Vec<OriginalRoad>)
    requires
        positions@.map_values(|k: usize| k as int) == pos@,
        forall|a: int, b: int| 0 <= a < b < pos@.len() ==> pos@[a] != pos@[b],
        forall|a: int| 0 <= a < pos@.len() ==> 0 <= #[trigger] pos@[a] < old(roads)@.len()
            && attachable(old(roads)@[pos@[a]], i),
        ends@ == ends_at(old(roads)@, i, pos@),
        ends_wf(ends@),
        trims@.len() == ends@.len(),
        forall|q: int| 0 <= q < trims@.len() ==> #[trigger] trims@[q] <= MAX_TRIM,
    ensures
        final(roads)@.len() == old(roads)@.len(),
        forall|k: int| 0 <= k < old(roads)@.len() ==> same_but_centerline(#[trigger] final(roads)@[k], old(roads)@[k]),
        forall|k: int| 0 <= k < old(roads)@.len() ==> {
            ||| (#[trigger] final(roads)@[k]).trimmed_center_pts@ == old(roads)@[k].trimmed_center_pts@
            ||| is_trim_of(old(roads)@[k].trimmed_center_pts@, final(roads)@[k].trimmed_center_pts@, old(roads)@[k].src_i == i)
        },
        forall|k: int| 0 <= k < old(roads)@.len() && valid_polyline(old(roads)@[k].trimmed_center_pts@)
            ==> valid_polyline((#[trigger] final(roads)@[k]).trimmed_center_pts@),
        forall|k: int| 0 <= k < old(roads)@.len() && !pos@.contains(k)
            ==> (#[trigger] final(roads)@[k]).trimmed_center_pts@ == old(roads)@[k].trimmed_center_pts@,
        forall|a: int| 0 <= a < pos@.len() ==> final(roads)@[#[trigger] pos@[a]].trimmed_center_pts@
            == trimmed_pts(old(roads)@[pos@[a]], i, trims@[a] as int),
        failed@ == untrimmed(old(roads)@, i, pos@, trims@, pos@.len() as int),
{
    let ghost old_roads = roads@;
    let mut failed: Vec<OriginalRoad> = Vec::new();
    let mut p: usize = 0;
    while p < positions.len()
        invariant
            roads@.len() == old_roads.len(),
            positions@.map_values(|k: usize| k as int) == pos@,
            forall|a: int, b: int| 0 <= a < b < pos@.len() ==> pos@[a] != pos@[b],
            forall|a: int| 0 <= a < pos@.len() ==> 0 <= #[trigger] pos@[a] < old_roads.len()
                && attachable(old_roads[pos@[a]], i),
            ends@ == ends_at(old_roads, i, pos@),
            ends_wf(ends@),
            trims@.len() == ends@.len(),
            forall|q: int| 0 <= q < trims@.len() ==> #[trigger] trims@[q] <= MAX_TRIM,
            p <= positions@.len(),
            forall|k: int| 0 <= k < old_roads.len() ==> same_but_centerline(#[trigger] roads@[k], old_roads[k]),
            forall|k: int| 0 <= k < old_roads.len() ==> {
                ||| (#[trigger] roads@[k]).trimmed_center_pts@ == old_roads[k].trimmed_center_pts@
                ||| is_trim_of(old_roads[k].trimmed_center_pts@, roads@[k].trimmed_center_pts@, old_roads[k].src_i == i)
            },
            forall|k: int| 0 <= k < old_roads.len() && valid_polyline(old_roads[k].trimmed_center_pts@)
                ==> valid_polyline((#[trigger] roads@[k]).trimmed_center_pts@),
            forall|k: int| 0 <= k < old_roads.len() && !pos@.take(p as int).contains(k)
                ==> (#[trigger] roads@[k]).trimmed_center_pts@ == old_roads[k].trimmed_center_pts@,
            forall|a: int| 0 <= a < p ==> roads@[#[trigger] pos@[a]].trimmed_center_pts@
                == trimmed_pts(old_roads[pos@[a]], i, trims@[a] as int),
            failed@ == untrimmed(old_roads, i, pos@, trims@, p as int),
        decreases positions@.len() - p,
    {
        let k = positions[p];
        let e = ends[p];
        let ghost pa = p as int;
        assert(pos@[pa] == k);
        assert(e == road_end(old_roads[k as int], i));
        assert(roads@[k as int].trimmed_center_pts@ == old_roads[k as int].trimmed_center_pts@) by {
            if pos@.take(pa).contains(k as int) {
                let w = choose|w: int| 0 <= w < pa && pos@.take(pa)[w] == k as int;
                assert(pos@[w] == pos@[pa]);
            }
        }
        let ghost before = roads@;
        let q = point_toward(e.end, e.next, trims[p]);
        if q.x == e.next.x && q.y == e.next.y {
            failed.push(roads[k].id);
        } else {
            let at_src = roads[k].src_i.osm_node_id == i.osm_node_id;
            let n = roads[k].trimmed_center_pts.len();
            let j: usize = if at_src { 0 } else { n - 1 };
            roads[k].trimmed_center_pts.set(j, q);
            proof {
                let old_pts = old_roads[k as int].trimmed_center_pts@;
                assert(roads@[k as int].trimmed_center_pts@ == with_end(old_pts, at_src, q));
                lemma_trim_valid(old_pts, at_src, q);
                assert(is_trim_of(old_pts, roads@[k as int].trimmed_center_pts@, at_src));
                assert forall|kk: int| 0 <= kk < old_roads.len() && kk != k implies roads@[kk] == before[kk] by {}
            }
        }
        proof {
            assert(pos@.take(pa + 1) =~= pos@.take(pa).push(k as int));
            assert forall|kk: int| 0 <= kk < old_roads.len() && !pos@.take(pa + 1).contains(kk)
                implies (#[trigger] roads@[kk]).trimmed_center_pts@ == old_roads[kk].trimmed_center_pts@ by {
                assert(pos@.take(pa + 1)[pa] == k as int);
                if pos@.take(pa).contains(kk) {
                    let w = choose|w: int| 0 <= w < pa && pos@.take(pa)[w] == kk;
                    assert(pos@.take(pa + 1)[w] == kk);
                }
            }
            assert forall|a: int| 0 <= a < pa + 1 implies roads@[#[trigger] pos@[a]].trimmed_center_pts@
                == trimmed_pts(old_roads[pos@[a]], i, trims@[a] as int) by {
                if a < pa {
                    assert(pos@[a] != k as int);
                }
            }
        }
        p += 1;
    }
    assert(pos@.take(positions@.len() as int) =~= pos@);
    failed
}

/// Computes the polygon of intersection `i` from the ends of its attachable roads (see
/// `synthesize`), and trims each of those roads back by what the polygon asks, along its end
/// segment. Returns the polygon, the roads whose trim would have consumed their whole end
/// segment (those stay as they were), and whether some corner fell back to the buffer distance.
#[verifier::rlimit(50)]
pub fn intersection_polygon(i: &Intersection, roads: &mut Vec<Road>) -> (r: (Vec<Pt2D>, Vec<OriginalRoad>, bool))
    ensures
        final(roads)@.len() == old(roads)@.len(),
        forall|k: int| 0 <= k < old(roads)@.len() ==> same_but_centerline(#[trigger] final(roads)@[k], old(roads)@[k]),
        forall|k: int| 0 <= k < old(roads)@.len() ==> {
            ||| (#[trigger] final(roads)@[k]).trimmed_center_pts@ == old(roads)@[k].trimmed_center_pts@
            ||| is_trim_of(old(roads)@[k].trimmed_center_pts@, final(roads)@[k].trimmed_center_pts@, old(roads)@[k].src_i == i.id)
        },
        forall|k: int| 0 <= k < old(roads)@.len() && valid_polyline(old(roads)@[k].trimmed_center_pts@)
            ==> valid_polyline((#[trigger] final(roads)@[k]).trimmed_center_pts@),
        polygon_and_trims(old(roads)@, final(roads)@, i.id, i.roads@, r.0@, r.1@, r.2),
{
    let ghost old_roads = roads@;
    let (positions, ends) = collect_ends(i, roads);
    let ghost pos = attached(old_roads, i.id, i.roads@, i.roads@.len() as int);
    let (poly, trims, degraded) = synthesize(&ends);
    proof {
        lemma_attached_distinct(old_roads, i.id, i.roads@, i.roads@.len() as int);
        lemma_attached_in_range(old_roads, i.id, i.roads@, i.roads@.len() as int);
    }
    let failed = apply_trims(i.id, roads, &positions, &ends, &trims, Ghost(pos));
    proof {
        assert(ends@.len() == pos.len());
        let t = trims@;
        assert(synthesis_result(ends_at(old_roads, i.id, pos), poly@, t, degraded));
        assert(forall|p: int| 0 <= p < pos.len() ==> roads@[#[trigger] pos[p]].trimmed_center_pts@
            == trimmed_pts(old_roads[pos[p]], i.id, t[p] as int));
        assert(failed@ == untrimmed(old_roads, i.id, pos, t, pos.len() as int));
        assert(polygon_and_trims(old_roads, roads@, i.id, i.roads@, poly@, failed@, degraded));
    }
    (poly, failed, degraded)
}

} // verus!
