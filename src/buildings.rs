//! Attaching buildings to the nearest sidewalk, and building their records.
use vstd::prelude::*;
use crate::geom::{Line, Pt2D, all_in_bounds, crossing_point, segments_cross, COORD_LIMIT};
use crate::initial::copy_points;
use crate::matcher::{Feature, FeaturePos, best_match, build_index, indexes, match_indexed, lemma_match_unique};

verus! {

/// Connections closer than this to either end of a sidewalk are not made, in centimetres.
pub const SIDEWALK_BUFFER: u64 = 750;

/// Buildings farther than this from every sidewalk are dropped, in centimetres.
pub const MAX_SIDEWALK_DIST: u64 = 100000;

/// The most points a building outline may have.
pub const MAX_RING_POINTS: usize = 1048576;

#[derive(Clone, Copy, Debug, PartialEq, Eq, Structural)]
pub struct BuildingID(pub usize);

#[derive(Debug)]
pub struct RawBuilding {
    pub osm_way_id: i64,
    /// The outline, as a closed ring: the last point repeats the first.
    pub polygon: Vec<Pt2D>,
    pub public_garage_name: Option<String>,
    pub num_parking_spots: usize,
}

#[derive(Debug)]
pub enum OffstreetParking {
    /// Name and spots
    PublicGarage(String, usize),
    /// Number of spots
    Private(usize),
}

#[derive(Debug)]
pub struct Building {
    pub id: BuildingID,
    pub osm_way_id: i64,
    pub polygon: Vec<Pt2D>,
    /// Where the building connects to its sidewalk.
    pub sidewalk_pos: FeaturePos,
    /// The path from the building's border to the sidewalk.
    pub driveway_geom: Line,
    pub parking: OffstreetParking,
}

/// A closed ring of in-bounds points: at least four points, the last equal to the first.
pub open spec fn ring_wf(poly: Seq<Pt2D>) -> bool {
    &&& 4 <= poly.len() <= MAX_RING_POINTS
    &&& all_in_bounds(poly)
    &&& poly[0] == poly[poly.len() - 1]
}

pub open spec fn sum_x(poly: Seq<Pt2D>, n: int) -> int
    decreases n,
{
    if n <= 0 { 0 } else { sum_x(poly, n - 1) + poly[n - 1].x }
}

pub open spec fn sum_y(poly: Seq<Pt2D>, n: int) -> int
    decreases n,
{
    if n <= 0 { 0 } else { sum_y(poly, n - 1) + poly[n - 1].y }
}

/// The average of the ring's points, the closing point counted once, rounded down.
pub open spec fn ring_center(poly: Seq<Pt2D>) -> Pt2D {
    let n = poly.len() - 1;
    Pt2D { x: (sum_x(poly, n) / n) as i64, y: (sum_y(poly, n) / n) as i64 }
}

proof fn lemma_sum_bound(poly: Seq<Pt2D>, n: int)
    requires
        0 <= n <= poly.len(),
        all_in_bounds(poly),
    ensures
        -n * COORD_LIMIT <= sum_x(poly, n) <= n * COORD_LIMIT,
        -n * COORD_LIMIT <= sum_y(poly, n) <= n * COORD_LIMIT,
    decreases n,
{
    if n > 0 {
        lemma_sum_bound(poly, n - 1);
        assert(poly[n - 1].in_bounds());
    }
}

proof fn lemma_avg_bound(s: int, n: int)
    requires
        n >= 1,
        -n * COORD_LIMIT <= s <= n * COORD_LIMIT,
    ensures
        -COORD_LIMIT <= s / n <= COORD_LIMIT,
{
    vstd::arithmetic::div_mod::lemma_div_is_ordered(s, n * COORD_LIMIT, n);
    vstd::arithmetic::div_mod::lemma_div_is_ordered(-n * COORD_LIMIT, s, n);
    vstd::arithmetic::div_mod::lemma_div_multiples_vanish(COORD_LIMIT as int, n);
    vstd::arithmetic::div_mod::lemma_div_multiples_vanish(-COORD_LIMIT, n);
    assert(n * COORD_LIMIT == COORD_LIMIT * n) by (nonlinear_arith);
    assert(-n * COORD_LIMIT == n * (-COORD_LIMIT)) by (nonlinear_arith);
}

/// The center of a building outline (see `ring_center`).
pub fn center(poly: &Vec<Pt2D>) -> (r: Pt2D)
    requires
        ring_wf(poly@),
    ensures
        r == ring_center(poly@),
        r.in_bounds(),
{
    let n = poly.len() - 1;
    let mut sx: i64 = 0;
    let mut sy: i64 = 0;
    let mut i: usize = 0;
    proof {
        lemma_sum_bound(poly@, n as int);
    }
    while i < n
        invariant
            ring_wf(poly@),
            n == poly@.len() - 1,
            i <= n,
            sx == sum_x(poly@, i as int),
            sy == sum_y(poly@, i as int),
        decreases n - i,
    {
        proof {
            lemma_sum_bound(poly@, i + 1);
            assert(i * COORD_LIMIT <= MAX_RING_POINTS * COORD_LIMIT) by (nonlinear_arith)
                requires i <= MAX_RING_POINTS;
        }
        sx = sx + poly[i].x;
        sy = sy + poly[i].y;
        i += 1;
    }
    proof {
        lemma_avg_bound(sx as int, n as int);
        lemma_avg_bound(sy as int, n as int);
    }
    let x = crate::geom::div_floor(sx as i128, n as i128);
    let y = crate::geom::div_floor(sy as i128, n as i128);
    Pt2D { x: x as i64, y: y as i64 }
}

/// Twice the signed area enclosed by the first `n` edges of the ring (the shoelace sum);
/// positive for a counter-clockwise ring.
pub open spec fn shoelace(poly: Seq<Pt2D>, n: int) -> int
    decreases n,
{
    if n <= 0 {
        0
    } else {
        shoelace(poly, n - 1) + (poly[n - 1].x * poly[n].y - poly[n].x * poly[n - 1].y)
    }
}

/// Twice the signed area of a building outline, in square centimetres.
pub fn twice_area(poly: &Vec<Pt2D>) -> (r: i128)
    requires
        ring_wf(poly@),
    ensures
        r == shoelace(poly@, poly@.len() - 1),
{
    let n = poly.len() - 1;
    let mut sum: i128 = 0;
    let mut i: usize = 0;
    while i < n
        invariant
            ring_wf(poly@),
            n == poly@.len() - 1,
            i <= n,
            sum == shoelace(poly@, i as int),
            -(i * 0x40_0000_0000_0000) <= sum <= i * 0x40_0000_0000_0000,
        decreases n - i,
    {
        let a = poly[i];
        let b = poly[i + 1];
        assert(a.in_bounds() && b.in_bounds());
        let ax = a.x as i128;
        let ay = a.y as i128;
        let bx = b.x as i128;
        let by = b.y as i128;
        assert(-0x10_0000_0000_0000 <= ax * by <= 0x10_0000_0000_0000) by (nonlinear_arith)
            requires -0x400_0000 <= ax <= 0x400_0000, -0x400_0000 <= by <= 0x400_0000;
        assert(-0x10_0000_0000_0000 <= bx * ay <= 0x10_0000_0000_0000) by (nonlinear_arith)
            requires -0x400_0000 <= bx <= 0x400_0000, -0x400_0000 <= ay <= 0x400_0000;
        assert(i * 0x40_0000_0000_0000 <= MAX_RING_POINTS * 0x40_0000_0000_0000) by (nonlinear_arith)
            requires i <= MAX_RING_POINTS;
        sum = sum + (ax * by - bx * ay);
        i += 1;
    }
    sum
}

/// Edge `i` of the outline (from point `i` to point `i + 1`) crosses the path, at a point
/// other than the path's end.
pub open spec fn edge_hit(poly: Seq<Pt2D>, i: int, path: Line) -> bool {
    &&& poly[i] != poly[i + 1]
    &&& segments_cross(poly[i], poly[i + 1], path.pt1, path.pt2)
    &&& crossing_point(poly[i], poly[i + 1], path.pt1, path.pt2) != path.pt2
}

/// The path, started instead where the first edge from edge `k` on crosses it; unchanged if
/// none does.
pub open spec fn trimmed_path(poly: Seq<Pt2D>, path: Line, k: int) -> Line
    decreases poly.len() - k,
{
    if k < 0 || k >= poly.len() - 1 {
        path
    } else if edge_hit(poly, k, path) {
        Line { pt1: crossing_point(poly[k], poly[k + 1], path.pt1, path.pt2), pt2: path.pt2 }
    } else {
        trimmed_path(poly, path, k + 1)
    }
}

/// The connector starts where the first edge of the outline, in order, crosses it.
pub proof fn lemma_first_crossing(poly: Seq<Pt2D>, path: Line, i: int, k: int)
    requires
        0 <= k <= i < poly.len() - 1,
        edge_hit(poly, i, path),
        forall|j: int| 0 <= j < i ==> !#[trigger] edge_hit(poly, j, path),
    ensures
        trimmed_path(poly, path, k) == (Line { pt1: crossing_point(poly[i], poly[i + 1], path.pt1, path.pt2), pt2: path.pt2 }),
    decreases i - k,
{
    if k < i {
        lemma_first_crossing(poly, path, i, k + 1);
    }
}

/// Adjusts the path to start on the building's border, not its center: at the first edge of
/// the outline, in order, that crosses it.
pub fn trim_path(poly: &Vec<Pt2D>, path: Line) -> (r: Line)
    requires
        all_in_bounds(poly@),
        path.wf(),
    ensures
        r == trimmed_path(poly@, path, 0),
        r.wf(),
{
    let mut i: usize = 0;
    while i < poly.len() && i + 1 < poly.len()
        invariant
            all_in_bounds(poly@),
            path.wf(),
            i <= poly@.len(),
            trimmed_path(poly@, path, i as int) == trimmed_path(poly@, path, 0),
        decreases poly@.len() - i,
    {
        assert(poly@[i as int].in_bounds() && poly@[i + 1].in_bounds());
        if let Some(l1) = Line::new(poly[i], poly[i + 1]) {
            if let Some(hit) = l1.intersection(&path) {
                if let Some(l2) = Line::new(hit, path.pt2) {
                    return l2;
                }
            }
        }
        i += 1;
    }
    path
}

/// The building is attached: its center has a match among `feats`, away from the center.
pub open spec fn attaches(b: RawBuilding, feats: Seq<Feature>) -> bool {
    exists|p: FeaturePos| #[trigger] best_match(ring_center(b.polygon@), feats, SIDEWALK_BUFFER, MAX_SIDEWALK_DIST, Some(p))
        && p.pt != ring_center(b.polygon@)
}

/// The positions among the first `m` raw buildings of those that are attached.
pub open spec fn attached_buildings(input: Seq<RawBuilding>, feats: Seq<Feature>, m: int) -> Seq<int>
    decreases m,
{
    if m <= 0 {
        Seq::empty()
    } else if attaches(input[m - 1], feats) {
        attached_buildings(input, feats, m - 1).push(m - 1)
    } else {
        attached_buildings(input, feats, m - 1)
    }
}

proof fn lemma_attached_prefix(input: Seq<RawBuilding>, more: Seq<RawBuilding>, feats: Seq<Feature>, m: int)
    requires
        0 <= m <= input.len(),
        m <= more.len(),
        forall|i: int| 0 <= i < m ==> more[i] == input[i],
    ensures
        attached_buildings(more, feats, m) == attached_buildings(input, feats, m),
    decreases m,
{
    if m > 0 {
        lemma_attached_prefix(input, more, feats, m - 1);
    }
}

/// A building with no sidewalk candidate within `MAX_SIDEWALK_DIST` of its center is
/// dropped: adding it to the input leaves the attached buildings as they were, so the count
/// of dropped buildings rises by exactly one.
pub proof fn lemma_far_building_dropped(input: Seq<RawBuilding>, b: RawBuilding, feats: Seq<Feature>)
    requires
        forall|f: int, s: int| !#[trigger] crate::matcher::candidate(
            ring_center(b.polygon@), feats, f, s, SIDEWALK_BUFFER, MAX_SIDEWALK_DIST),
    ensures
        attached_buildings(input.push(b), feats, input.len() + 1int) == attached_buildings(input, feats, input.len() as int),
        (input.len() + 1) - attached_buildings(input.push(b), feats, input.len() + 1int).len()
            == input.len() - attached_buildings(input, feats, input.len() as int).len() + 1,
{
    let more = input.push(b);
    let c = ring_center(b.polygon@);
    if attaches(more[input.len() as int], feats) {
        let p = choose|p: FeaturePos| #[trigger] best_match(c, feats, SIDEWALK_BUFFER, MAX_SIDEWALK_DIST, Some(p))
            && p.pt != c;
        assert(crate::matcher::candidate(c, feats, p.feature as int, p.segment as int, SIDEWALK_BUFFER, MAX_SIDEWALK_DIST));
    }
    lemma_attached_prefix(input, more, feats, input.len() as int);
}

/// The record `b` is built from `raw` as the `k`-th attached building.
pub open spec fn building_from(b: Building, raw: RawBuilding, feats: Seq<Feature>, k: int) -> bool {
    let c = ring_center(raw.polygon@);
    &&& b.id == BuildingID(k as usize)
    &&& b.osm_way_id == raw.osm_way_id
    &&& b.polygon@ == raw.polygon@
    &&& best_match(c, feats, SIDEWALK_BUFFER, MAX_SIDEWALK_DIST, Some(b.sidewalk_pos))
    &&& b.sidewalk_pos.pt != c
    &&& b.driveway_geom == trimmed_path(raw.polygon@, Line { pt1: c, pt2: b.sidewalk_pos.pt }, 0)
    &&& match b.parking {
        OffstreetParking::PublicGarage(name, n) => raw.public_garage_name == Some(name) && n == raw.num_parking_spots,
        OffstreetParking::Private(n) => raw.public_garage_name is None && n == raw.num_parking_spots,
    }
}

/// Attaches each building to the nearest sidewalk among `feats` (see `match_indexed`) from its
/// center, and makes its record, numbered in order; the path to the sidewalk starts at the
/// building's border (see `trim_path`). Buildings with no sidewalk near enough, or whose
/// sidewalk point is the center itself, are dropped; returns the records and how many were
/// dropped.
#[verifier::rlimit(50)]
pub fn make_all_buildings(input: &Vec<RawBuilding>, feats: &Vec<Feature>) -> (r: (Vec<Building>, usize))
    requires
        forall|i: int| 0 <= i < input@.len() ==> ring_wf((#[trigger] input@[i]).polygon@),
    ensures
        ({
            let kept = attached_buildings(input@, feats@, input@.len() as int);
            &&& r.0@.len() == kept.len()
            &&& forall|k: int| 0 <= k < kept.len() ==> building_from(#[trigger] r.0@[k], input@[kept[k]], feats@, k)
            &&& r.1 == input@.len() - kept.len()
        }),
{
    let index = build_index(feats);
    let mut results: Vec<Building> = Vec::new();
    let mut dropped: usize = 0;
    let mut i: usize = 0;
    while i < input.len()
        invariant
            indexes(index@, feats@),
            forall|i: int| 0 <= i < input@.len() ==> ring_wf((#[trigger] input@[i]).polygon@),
            i <= input@.len(),
            results@.len() == attached_buildings(input@, feats@, i as int).len(),
            forall|k: int| 0 <= k < results@.len() ==> building_from(
                #[trigger] results@[k],
                input@[attached_buildings(input@, feats@, i as int)[k]],
                feats@,
                k,
            ),
            dropped == i - attached_buildings(input@, feats@, i as int).len(),
            attached_buildings(input@, feats@, i as int).len() <= i,
        decreases input@.len() - i,
    {
        let b = &input[i];
        let c = center(&b.polygon);
        let m = match_indexed(c, feats, &index, SIDEWALK_BUFFER, MAX_SIDEWALK_DIST);
        let ghost prev = attached_buildings(input@, feats@, i as int);
        let mut kept = false;
        if let Some(pos) = m {
            if let Some(line) = Line::new(c, pos.pt) {
                let driveway = trim_path(&b.polygon, line);
                let parking = match &b.public_garage_name {
                    Some(name) => OffstreetParking::PublicGarage(name.clone(), b.num_parking_spots),
                    None => OffstreetParking::Private(b.num_parking_spots),
                };
                let id = BuildingID(results.len());
                results.push(Building {
                    id,
                    osm_way_id: b.osm_way_id,
                    polygon: copy_points(&b.polygon),
                    sidewalk_pos: pos,
                    driveway_geom: driveway,
                    parking,
                });
                kept = true;
                proof {
                    assert(attaches(input@[i as int], feats@));
                    assert(attached_buildings(input@, feats@, i + 1) == prev.push(i as int));
                }
            }
        }
        if !kept {
            proof {
                if attaches(input@[i as int], feats@) {
                    let p = choose|p: FeaturePos| #[trigger] best_match(c, feats@, SIDEWALK_BUFFER, MAX_SIDEWALK_DIST, Some(p))
                        && p.pt != c;
                    lemma_match_unique(c, feats@, SIDEWALK_BUFFER, MAX_SIDEWALK_DIST, m, Some(p));
                }
            }
            dropped += 1;
        }
        i += 1;
    }
    (results, dropped)
}

} // verus!
