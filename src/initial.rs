//! The graph of intersections and roads derived from a raw map.
use vstd::prelude::*;
use crate::geom::{Pt2D, valid_polyline};
use crate::raw::has_intersection;
use crate::raw::{
    DrivingSide, IntersectionType, LaneSpec, OriginalIntersection, OriginalRoad, RawIntersection,
    RawMap, RawRoad, lanes_wf, total_width, lemma_total_width_bound, MAX_LANES, MAX_LANE_WIDTH,
};

verus! {

pub struct Road {
    pub id: OriginalRoad,
    pub src_i: OriginalIntersection,
    pub dst_i: OriginalIntersection,
    /// The true center of the road, including sidewalks.
    pub trimmed_center_pts: Vec<Pt2D>,
    /// Half the total width of the lanes, in centimetres.
    pub half_width: u64,
    pub lane_specs: Vec<LaneSpec>,
}

pub struct Intersection {
    pub id: OriginalIntersection,
    pub polygon: Vec<Pt2D>,
    pub roads: Vec<OriginalRoad>,
    pub intersection_type: IntersectionType,
    pub elevation: i64,
}

/// The graph: roads and intersections in the order of the raw map, plus the rectangle the
/// map occupies.
pub struct InitialMap {
    pub roads: Vec<Road>,
    pub intersections: Vec<Intersection>,
    pub bounds: Bounds,
    /// Raw roads that were left out, with the reason.
    pub skipped: Vec<(OriginalRoad, SkipReason)>,
    /// Roads that an intersection could not trim: the trim would have consumed a whole end
    /// segment. They keep that end as it was.
    pub untrimmed: Vec<OriginalRoad>,
    /// Intersections where the edges of two neighboring roads do not converge, so that their
    /// corner fell back to the buffer distance.
    pub degraded: Vec<OriginalIntersection>,
}

/// An axis-aligned rectangle, in centimetres.
#[derive(Clone, Copy, Debug, PartialEq, Eq, Structural)]
pub struct Bounds {
    pub min_x: i64,
    pub min_y: i64,
    pub max_x: i64,
    pub max_y: i64,
}

#[derive(Clone, Copy, Debug, PartialEq, Eq, Structural)]
pub enum SkipReason {
    /// Both ends of the road are the same intersection.
    Loop,
    /// The centerline is not a polyline: fewer than two points, two equal consecutive points,
    /// or a point out of bounds.
    BrokenGeometry,
}

/// A raw road is kept when it joins two different intersections along a proper polyline.
pub open spec fn road_accepted(r: RawRoad) -> bool {
    r.id.i1 != r.id.i2 && valid_polyline(r.center_points@)
}

/// The raw roads that the graph keeps, in their order.
pub open spec fn accepted_roads(roads: Seq<RawRoad>) -> Seq<RawRoad>
    decreases roads.len(),
{
    if roads.len() == 0 {
        Seq::empty()
    } else if road_accepted(roads.last()) {
        accepted_roads(roads.drop_last()).push(roads.last())
    } else {
        accepted_roads(roads.drop_last())
    }
}

/// The raw roads that the graph leaves out, with the reason, in their order.
pub open spec fn skipped_roads(roads: Seq<RawRoad>) -> Seq<(OriginalRoad, SkipReason)>
    decreases roads.len(),
{
    if roads.len() == 0 {
        Seq::empty()
    } else {
        let r = roads.last();
        let before = skipped_roads(roads.drop_last());
        if r.id.i1 == r.id.i2 {
            before.push((r.id, SkipReason::Loop))
        } else if !valid_polyline(r.center_points@) {
            before.push((r.id, SkipReason::BrokenGeometry))
        } else {
            before
        }
    }
}

/// The identifiers of the roads among `roads` that end at `i`, in their order.
pub open spec fn incident_ids(roads: Seq<RawRoad>, i: OriginalIntersection) -> Seq<OriginalRoad>
    decreases roads.len(),
{
    if roads.len() == 0 {
        Seq::empty()
    } else if roads.last().id.i1 == i || roads.last().id.i2 == i {
        incident_ids(roads.drop_last(), i).push(roads.last().id)
    } else {
        incident_ids(roads.drop_last(), i)
    }
}

/// Two roads overlap when they share an intersection and their centerlines are equal.
pub open spec fn roads_overlap(a: RawRoad, b: RawRoad) -> bool {
    &&& (a.id.i1 == b.id.i1 || a.id.i1 == b.id.i2 || a.id.i2 == b.id.i1 || a.id.i2 == b.id.i2)
    &&& a.center_points@ == b.center_points@
}

/// The pairs `(roads[a], roads[b])` with `a < b < n` that overlap, by increasing `b`.
pub open spec fn overlaps_with(roads: Seq<RawRoad>, a: int, n: int) -> Seq<(OriginalRoad, OriginalRoad)>
    decreases n - a,
{
    if n <= a + 1 {
        Seq::empty()
    } else if roads_overlap(roads[a], roads[n - 1]) {
        overlaps_with(roads, a, n - 1).push((roads[a].id, roads[n - 1].id))
    } else {
        overlaps_with(roads, a, n - 1)
    }
}

/// All overlapping pairs `(roads[a], roads[b])` with `a < b` and `a < m`, ordered by `a`, then `b`.
pub open spec fn overlap_list(roads: Seq<RawRoad>, m: int) -> Seq<(OriginalRoad, OriginalRoad)>
    decreases m,
{
    if m <= 0 {
        Seq::empty()
    } else {
        overlap_list(roads, m - 1) + overlaps_with(roads, m - 1, roads.len() as int)
    }
}

/// All overlapping pairs among `roads`, each listed once.
pub open spec fn overlaps(roads: Seq<RawRoad>) -> Seq<(OriginalRoad, OriginalRoad)> {
    overlap_list(roads, roads.len() as int)
}

/// `road` carries what `Road::new` derives from the raw road `r`, whatever its centerline.
pub open spec fn road_attributes_match(road: Road, r: RawRoad) -> bool {
    &&& road.id == r.id
    &&& road.src_i == r.id.i1
    &&& road.dst_i == r.id.i2
    &&& road.half_width == total_width(r.lane_specs@) / 2
    &&& road.lane_specs@ == r.lane_specs@
}

/// The road `id` ends at the intersection `i`.
pub open spec fn road_touches(road: Road, i: OriginalIntersection) -> bool {
    road.src_i == i || road.dst_i == i
}

/// Both ends of road `k` name intersections whose incident sets hold the road.
pub open spec fn road_registered(roads: Seq<Road>, ints: Seq<Intersection>, k: int) -> bool {
    &&& exists|j: int| 0 <= j < ints.len() && ints[j].id == roads[k].src_i && ints[j].roads@.contains(roads[k].id)
    &&& exists|j: int| 0 <= j < ints.len() && ints[j].id == roads[k].dst_i && ints[j].roads@.contains(roads[k].id)
}

/// Entry `m` of intersection `j`'s incident set is a road that ends there.
pub open spec fn entry_backed(roads: Seq<Road>, ints: Seq<Intersection>, j: int, m: int) -> bool {
    exists|k: int| 0 <= k < roads.len() && roads[k].id == ints[j].roads@[m] && road_touches(roads[k], ints[j].id)
}

/// Every road's two ends name intersections whose incident sets hold the road, and every
/// road in an incident set exists and ends there.
pub open spec fn referential_integrity(roads: Seq<Road>, ints: Seq<Intersection>) -> bool {
    &&& forall|k: int| 0 <= k < roads.len() ==> #[trigger] road_registered(roads, ints, k)
    &&& forall|j: int, m: int|
        0 <= j < ints.len() && 0 <= m < ints[j].roads@.len() ==> #[trigger] entry_backed(roads, ints, j, m)
}

/// Copies a sequence of points.
pub fn copy_points(v: &Vec<Pt2D>) -> (r: Vec<Pt2D>)
    ensures
        r@ == v@,
{
    let mut r: Vec<Pt2D> = Vec::new();
    let mut i: usize = 0;
    while i < v.len()
        invariant
            i <= v@.len(),
            r@ == v@.take(i as int),
        decreases v@.len() - i,
    {
        r.push(v[i]);
        i += 1;
        assert(r@ =~= v@.take(i as int));
    }
    assert(v@.take(v@.len() as int) =~= v@);
    r
}

fn copy_lanes(v: &Vec<LaneSpec>) -> (r: Vec<LaneSpec>)
    ensures
        r@ == v@,
{
    let mut r: Vec<LaneSpec> = Vec::new();
    let mut i: usize = 0;
    while i < v.len()
        invariant
            i <= v@.len(),
            r@ == v@.take(i as int),
        decreases v@.len() - i,
    {
        r.push(v[i]);
        i += 1;
        assert(r@ =~= v@.take(i as int));
    }
    assert(v@.take(v@.len() as int) =~= v@);
    r
}

/// Two sequences of points are equal.
pub fn same_points(a: &Vec<Pt2D>, b: &Vec<Pt2D>) -> (r: bool)
    ensures
        r == (a@ == b@),
{
    if a.len() != b.len() {
        return false;
    }
    let mut i: usize = 0;
    while i < a.len()
        invariant
            a@.len() == b@.len(),
            i <= a@.len(),
            forall|k: int| 0 <= k < i ==> a@[k] == b@[k],
        decreases a@.len() - i,
    {
        if a[i].x != b[i].x || a[i].y != b[i].y {
            return false;
        }
        i += 1;
    }
    assert(a@ =~= b@);
    true
}

/// A centerline is a proper polyline.
pub fn is_valid_polyline(pts: &Vec<Pt2D>) -> (r: bool)
    ensures
        r == valid_polyline(pts@),
{
    if pts.len() < 2 {
        return false;
    }
    let mut i: usize = 0;
    while i < pts.len()
        invariant
            pts@.len() >= 2,
            i <= pts@.len(),
            forall|k: int| 0 <= k < i ==> (#[trigger] pts@[k]).in_bounds(),
            forall|k: int| 0 <= k < i && k + 1 < pts@.len() ==> pts@[k] != #[trigger] pts@[k + 1],
        decreases pts@.len() - i,
    {
        let p = pts[i];
        if p.x < -crate::geom::COORD_LIMIT || p.x > crate::geom::COORD_LIMIT
            || p.y < -crate::geom::COORD_LIMIT || p.y > crate::geom::COORD_LIMIT {
            return false;
        }
        if i + 1 < pts.len() {
            let q = pts[i + 1];
            if p.x == q.x && p.y == q.y {
                assert(pts@[i as int] == pts@[i + 1]);
                return false;
            }
        }
        i += 1;
    }
    true
}

/// The roads built from `acc`, whatever their centerlines.
pub open spec fn roads_match(roads: Seq<Road>, acc: Seq<RawRoad>) -> bool {
    &&& roads.len() == acc.len()
    &&& forall|i: int| 0 <= i < roads.len() ==> road_attributes_match(#[trigger] roads[i], acc[i])
}

/// The roads built from `acc`, with their raw centerlines.
pub open spec fn roads_from(roads: Seq<Road>, acc: Seq<RawRoad>) -> bool {
    &&& roads_match(roads, acc)
    &&& forall|i: int| 0 <= i < roads.len() ==> (#[trigger] roads[i]).trimmed_center_pts@ == acc[i].center_points@
}

/// The intersections built from the raw ones, each with the roads of `acc` that end there.
pub open spec fn intersections_from(ints: Seq<Intersection>, raw: Seq<RawIntersection>, acc: Seq<RawRoad>) -> bool {
    &&& ints.len() == raw.len()
    &&& forall|j: int|
        0 <= j < ints.len() ==> {
            &&& (#[trigger] ints[j]).id == raw[j].id
            &&& ints[j].intersection_type == raw[j].intersection_type
            &&& ints[j].elevation == raw[j].elevation
            &&& ints[j].roads@ == incident_ids(acc, raw[j].id)
        }
}

impl Road {
    /// The road as the raw map gives it: the raw centerline, and half the total lane width.
    /// Both sides of a road are symmetric around its centerline, so the driving side changes
    /// neither.
    pub fn new(id: OriginalRoad, r: &RawRoad, _driving_side: DrivingSide) -> (road: Road)
        requires
            lanes_wf(r.lane_specs@),
            r.id == id,
        ensures
            road_attributes_match(road, *r),
            road.trimmed_center_pts@ == r.center_points@,
            road.half_width <= MAX_LANES * MAX_LANE_WIDTH / 2,
    {
        let mut total: u64 = 0;
        let mut i: usize = 0;
        proof {
            lemma_total_width_bound(r.lane_specs@);
        }
        while i < r.lane_specs.len()
            invariant
                lanes_wf(r.lane_specs@),
                i <= r.lane_specs@.len(),
                total == total_width(r.lane_specs@.take(i as int)),
                total <= i * MAX_LANE_WIDTH,
            decreases r.lane_specs@.len() - i,
        {
            proof {
                assert(r.lane_specs@.take(i + 1).drop_last() =~= r.lane_specs@.take(i as int));
                assert(r.lane_specs@[i as int].width <= MAX_LANE_WIDTH);
            }
            total = total + r.lane_specs[i].width;
            i += 1;
        }
        assert(r.lane_specs@.take(r.lane_specs@.len() as int) =~= r.lane_specs@);
        Road {
            id,
            src_i: id.i1,
            dst_i: id.i2,
            trimmed_center_pts: copy_points(&r.center_points),
            half_width: total / 2,
            lane_specs: copy_lanes(&r.lane_specs),
        }
    }
}

fn find_intersection(ints: &Vec<Intersection>, id: OriginalIntersection) -> (r: Option<usize>)
    ensures
        match r {
            Some(j) => j < ints@.len() && ints@[j as int].id == id,
            None => forall|j: int| 0 <= j < ints@.len() ==> (#[trigger] ints@[j]).id != id,
        },
{
    let mut j: usize = 0;
    while j < ints.len()
        invariant
            j <= ints@.len(),
            forall|k: int| 0 <= k < j ==> (#[trigger] ints@[k]).id != id,
        decreases ints@.len() - j,
    {
        if ints[j].id.osm_node_id == id.osm_node_id {
            return Some(j);
        }
        j += 1;
    }
    None
}

/// The graph before any overlap check: one intersection per raw intersection, one road per
/// accepted raw road, and the incident set of each intersection.
#[verifier::rlimit(50)]
fn make_graph(raw: &RawMap, bounds: Bounds) -> (m: InitialMap)
    requires
        raw.wf(),
    ensures
        roads_from(m.roads@, accepted_roads(raw.roads@)),
        intersections_from(m.intersections@, raw.intersections@, accepted_roads(raw.roads@)),
        forall|j: int| 0 <= j < m.intersections@.len() ==> (#[trigger] m.intersections@[j]).polygon@.len() == 0,
        m.skipped@ == skipped_roads(raw.roads@),
        m.bounds == bounds,
        m.untrimmed@.len() == 0,
        m.degraded@.len() == 0,
{
    let mut ints: Vec<Intersection> = Vec::new();
    let mut j: usize = 0;
    while j < raw.intersections.len()
        invariant
            j <= raw.intersections@.len(),
            intersections_from(ints@, raw.intersections@.take(j as int), Seq::empty()),
            forall|i: int| 0 <= i < ints@.len() ==> (#[trigger] ints@[i]).polygon@.len() == 0,
        decreases raw.intersections@.len() - j,
    {
        let ri = &raw.intersections[j];
        ints.push(Intersection {
            id: ri.id,
            polygon: Vec::new(),
            roads: Vec::new(),
            intersection_type: ri.intersection_type,
            elevation: ri.elevation,
        });
        j += 1;
        proof {
            assert forall|i: int| 0 <= i < ints@.len() implies (#[trigger] ints@[i]).roads@
                == incident_ids(Seq::<RawRoad>::empty(), raw.intersections@.take(j as int)[i].id) by {
                if i == j - 1 {
                    assert(ints@[i].roads@ =~= Seq::<OriginalRoad>::empty());
                }
            }
        }
    }
    assert(raw.intersections@.take(raw.intersections@.len() as int) =~= raw.intersections@);
    let mut roads: Vec<Road> = Vec::new();
    let mut skipped: Vec<(OriginalRoad, SkipReason)> = Vec::new();
    let mut k: usize = 0;
    while k < raw.roads.len()
        invariant
            raw.wf(),
            k <= raw.roads@.len(),
            roads_from(roads@, accepted_roads(raw.roads@.take(k as int))),
            intersections_from(ints@, raw.intersections@, accepted_roads(raw.roads@.take(k as int))),
            forall|i: int| 0 <= i < ints@.len() ==> (#[trigger] ints@[i]).polygon@.len() == 0,
            skipped@ == skipped_roads(raw.roads@.take(k as int)),
        decreases raw.roads@.len() - k,
    {
        let r = &raw.roads[k];
        let id = r.id;
        let ghost before = raw.roads@.take(k as int);
        proof {
            assert(raw.roads@.take(k + 1).drop_last() =~= before);
            assert(raw.roads@.take(k + 1).last() == raw.roads@[k as int]);
        }
        if id.i1.osm_node_id == id.i2.osm_node_id {
            skipped.push((id, SkipReason::Loop));
        } else if !is_valid_polyline(&r.center_points) {
            skipped.push((id, SkipReason::BrokenGeometry));
        } else {
            let j1 = find_intersection(&ints, id.i1);
            let j2 = find_intersection(&ints, id.i2);
            proof {
                assert(raw.roads@[k as int] == *r);
                assert(has_intersection(raw.intersections@, id.i1));
                assert(has_intersection(raw.intersections@, id.i2));
                let w1 = choose|w: int| 0 <= w < raw.intersections@.len() && (#[trigger] raw.intersections@[w]).id == id.i1;
                let w2 = choose|w: int| 0 <= w < raw.intersections@.len() && (#[trigger] raw.intersections@[w]).id == id.i2;
                assert(ints@[w1].id == id.i1);
                assert(ints@[w2].id == id.i2);
            }
            let j1 = j1.unwrap();
            let j2 = j2.unwrap();
            let ghost acc = accepted_roads(before);
            let ghost old_ints = ints@;
            ints[j1].roads.push(id);
            ints[j2].roads.push(id);
            proof {
                assert(accepted_roads(raw.roads@.take(k + 1)) == acc.push(*r));
                assert forall|i: int| 0 <= i < ints@.len() implies (#[trigger] ints@[i]).roads@
                    == incident_ids(acc.push(*r), raw.intersections@[i].id) by {
                    assert(acc.push(*r).drop_last() =~= acc);
                    if i != j1 && i != j2 {
                        assert(ints@[i] == old_ints[i]);
                    }
                }
            }
            let road = Road::new(id, r, raw.driving_side);
            roads.push(road);
            proof {
                assert(acc.push(*r)[acc.len() as int] == *r);
            }
        }
        k += 1;
    }
    assert(raw.roads@.take(raw.roads@.len() as int) =~= raw.roads@);
    InitialMap { roads, intersections: ints, bounds, skipped, untrimmed: Vec::new(), degraded: Vec::new() }
}

proof fn lemma_overlaps_with_contains(roads: Seq<RawRoad>, a: int, b: int, n: int)
    requires
        0 <= a < b < n,
        roads_overlap(roads[a], roads[b]),
    ensures
        overlaps_with(roads, a, n).contains((roads[a].id, roads[b].id)),
    decreases n - a,
{
    let pair = (roads[a].id, roads[b].id);
    if n == b + 1 {
        let s = overlaps_with(roads, a, n);
        assert(s[s.len() - 1] == pair);
    } else {
        lemma_overlaps_with_contains(roads, a, b, n - 1);
        let prev = overlaps_with(roads, a, n - 1);
        let w = choose|w: int| 0 <= w < prev.len() && prev[w] == pair;
        assert(overlaps_with(roads, a, n)[w] == pair);
    }
}

proof fn lemma_overlap_list_contains(roads: Seq<RawRoad>, a: int, b: int, m: int)
    requires
        0 <= a < b < roads.len(),
        a < m,
        roads_overlap(roads[a], roads[b]),
    ensures
        overlap_list(roads, m).contains((roads[a].id, roads[b].id)),
    decreases m,
{
    let pair = (roads[a].id, roads[b].id);
    let prev = overlap_list(roads, m - 1);
    if m == a + 1 {
        lemma_overlaps_with_contains(roads, a, b, roads.len() as int);
        let tail = overlaps_with(roads, a, roads.len() as int);
        let w = choose|w: int| 0 <= w < tail.len() && tail[w] == pair;
        assert((prev + tail)[prev.len() + w] == pair);
    } else {
        lemma_overlap_list_contains(roads, a, b, m - 1);
        let tail = overlaps_with(roads, m - 1, roads.len() as int);
        let w = choose|w: int| 0 <= w < prev.len() && prev[w] == pair;
        assert((prev + tail)[w] == pair);
    }
}

/// Two kept roads that share an intersection and have equal centerlines are reported
/// together: their pair is in the list with which the map is refused.
pub proof fn lemma_overlap_listed(roads: Seq<RawRoad>, a: int, b: int)
    requires
        0 <= a < b < roads.len(),
        roads_overlap(roads[a], roads[b]),
    ensures
        overlaps(roads).contains((roads[a].id, roads[b].id)),
        overlaps(roads).len() > 0,
{
    lemma_overlap_list_contains(roads, a, b, roads.len() as int);
}

fn shares_intersection(a: &Road, b: &Road) -> (r: bool)
    ensures
        r == (a.src_i == b.src_i || a.src_i == b.dst_i || a.dst_i == b.src_i || a.dst_i == b.dst_i),
{
    a.src_i.osm_node_id == b.src_i.osm_node_id || a.src_i.osm_node_id == b.dst_i.osm_node_id
        || a.dst_i.osm_node_id == b.src_i.osm_node_id || a.dst_i.osm_node_id == b.dst_i.osm_node_id
}

/// Every pair of roads that share an intersection and have equal centerlines.
#[verifier::rlimit(50)]
fn find_overlaps(roads: &Vec<Road>, acc: Ghost<Seq<RawRoad>>) -> (r: Vec<(OriginalRoad, OriginalRoad)>)
    requires
        roads_from(roads@, acc@),
    ensures
        r@ == overlaps(acc@),
{
    let n = roads.len();
    let mut problems: Vec<(OriginalRoad, OriginalRoad)> = Vec::new();
    let mut a: usize = 0;
    while a < n
        invariant
            n == roads@.len(),
            roads_from(roads@, acc@),
            a <= n,
            problems@ == overlap_list(acc@, a as int),
        decreases n - a,
    {
        let mut b: usize = a + 1;
        assert(overlaps_with(acc@, a as int, b as int) =~= Seq::empty());
        while b < n
            invariant
                n == roads@.len(),
                roads_from(roads@, acc@),
                a < n,
                a < b <= n,
                problems@ == overlap_list(acc@, a as int) + overlaps_with(acc@, a as int, b as int),
            decreases n - b,
        {
            let ra = &roads[a];
            let rb = &roads[b];
            proof {
                assert(road_attributes_match(roads@[a as int], acc@[a as int]));
                assert(road_attributes_match(roads@[b as int], acc@[b as int]));
            }
            if shares_intersection(ra, rb) && same_points(&ra.trimmed_center_pts, &rb.trimmed_center_pts) {
                problems.push((ra.id, rb.id));
                assert(problems@ =~= overlap_list(acc@, a as int) + overlaps_with(acc@, a as int, b + 1));
            }
            b += 1;
        }
        a += 1;
    }
    problems
}

/// Where the roads come from the raw ones and the intersections hold their incident roads,
/// roads and intersections refer to each other both ways.
pub proof fn lemma_referential_integrity(raw: &RawMap, roads: Seq<Road>, ints: Seq<Intersection>)
    requires
        raw.wf(),
        roads_match(roads, accepted_roads(raw.roads@)),
        intersections_from(ints, raw.intersections@, accepted_roads(raw.roads@)),
    ensures
        referential_integrity(roads, ints),
{
    let acc = accepted_roads(raw.roads@);
    lemma_accepted_endpoints(raw, raw.roads@.len() as int);
    assert(raw.roads@.take(raw.roads@.len() as int) =~= raw.roads@);
    assert forall|k: int| 0 <= k < roads.len() implies #[trigger] road_registered(roads, ints, k) by {
        assert(road_attributes_match(roads[k], acc[k]));
        let j1 = choose|w: int| 0 <= w < raw.intersections@.len() && (#[trigger] raw.intersections@[w]).id == acc[k].id.i1;
        let j2 = choose|w: int| 0 <= w < raw.intersections@.len() && (#[trigger] raw.intersections@[w]).id == acc[k].id.i2;
        lemma_incident_contains(acc, k, acc[k].id.i1);
        lemma_incident_contains(acc, k, acc[k].id.i2);
        assert(ints[j1].id == roads[k].src_i);
        assert(ints[j2].id == roads[k].dst_i);
        assert(ints[j1].roads@ == incident_ids(acc, raw.intersections@[j1].id));
        assert(ints[j1].roads@.contains(roads[k].id));
        assert(ints[j2].roads@.contains(roads[k].id));
    }
    assert forall|j: int, m: int|
        0 <= j < ints.len() && 0 <= m < ints[j].roads@.len() implies #[trigger] entry_backed(roads, ints, j, m) by {
        lemma_incident_member(acc, ints[j].id, m);
        let k = choose|k: int| 0 <= k < acc.len() && acc[k].id == incident_ids(acc, ints[j].id)[m]
            && (acc[k].id.i1 == ints[j].id || acc[k].id.i2 == ints[j].id);
        assert(road_attributes_match(roads[k], acc[k]));
        assert(ints[j].roads@ == incident_ids(acc, raw.intersections@[j].id));
        assert(roads[k].id == ints[j].roads@[m]);
        assert(road_touches(roads[k], ints[j].id));
    }
}

/// Every accepted road among the first `n` raw roads names intersections of the map.
proof fn lemma_accepted_endpoints(raw: &RawMap, n: int)
    requires
        raw.wf(),
        0 <= n <= raw.roads@.len(),
    ensures
        forall|k: int| 0 <= k < accepted_roads(raw.roads@.take(n)).len() ==> {
            &&& has_intersection(raw.intersections@, (#[trigger] accepted_roads(raw.roads@.take(n))[k]).id.i1)
            &&& has_intersection(raw.intersections@, accepted_roads(raw.roads@.take(n))[k].id.i2)
        },
    decreases n,
{
    if n > 0 {
        lemma_accepted_endpoints(raw, n - 1);
        assert(raw.roads@.take(n).drop_last() =~= raw.roads@.take(n - 1));
        assert(raw.roads@.take(n).last() == raw.roads@[n - 1]);
        let prev = accepted_roads(raw.roads@.take(n - 1));
        let cur = accepted_roads(raw.roads@.take(n));
        assert forall|k: int| 0 <= k < cur.len() implies {
            &&& has_intersection(raw.intersections@, (#[trigger] cur[k]).id.i1)
            &&& has_intersection(raw.intersections@, cur[k].id.i2)
        } by {
            if k < prev.len() {
                assert(cur[k] == prev[k]);
            } else {
                assert(cur[k] == raw.roads@[n - 1]);
            }
        }
    }
}

proof fn lemma_incident_contains(acc: Seq<RawRoad>, k: int, i: OriginalIntersection)
    requires
        0 <= k < acc.len(),
        acc[k].id.i1 == i || acc[k].id.i2 == i,
    ensures
        incident_ids(acc, i).contains(acc[k].id),
    decreases acc.len(),
{
    let prev = acc.drop_last();
    if k == acc.len() - 1 {
        let s = incident_ids(prev, i).push(acc.last().id);
        assert(s[s.len() - 1] == acc[k].id);
    } else {
        lemma_incident_contains(prev, k, i);
        let w = choose|w: int| 0 <= w < incident_ids(prev, i).len() && incident_ids(prev, i)[w] == acc[k].id;
        if acc.last().id.i1 == i || acc.last().id.i2 == i {
            assert(incident_ids(acc, i)[w] == acc[k].id);
        }
    }
}

proof fn lemma_incident_member(acc: Seq<RawRoad>, i: OriginalIntersection, m: int)
    requires
        0 <= m < incident_ids(acc, i).len(),
    ensures
        exists|k: int| 0 <= k < acc.len() && acc[k].id == incident_ids(acc, i)[m]
            && (acc[k].id.i1 == i || acc[k].id.i2 == i),
    decreases acc.len(),
{
    let prev = acc.drop_last();
    if acc.last().id.i1 == i || acc.last().id.i2 == i {
        if m == incident_ids(prev, i).len() {
            assert(acc[acc.len() - 1].id == incident_ids(acc, i)[m]);
        } else {
            lemma_incident_member(prev, i, m);
            let k = choose|k: int| 0 <= k < prev.len() && prev[k].id == incident_ids(prev, i)[m]
                && (prev[k].id.i1 == i || prev[k].id.i2 == i);
            assert(acc[k] == prev[k]);
        }
    } else {
        lemma_incident_member(prev, i, m);
        let k = choose|k: int| 0 <= k < prev.len() && prev[k].id == incident_ids(prev, i)[m]
            && (prev[k].id.i1 == i || prev[k].id.i2 == i);
        assert(acc[k] == prev[k]);
    }
}

fn append_ids(dst: &mut Vec<OriginalRoad>, src: &Vec<OriginalRoad>)
    ensures
        final(dst)@ == old(dst)@ + src@,
{
    let ghost start = dst@;
    let mut f: usize = 0;
    while f < src.len()
        invariant
            f <= src@.len(),
            dst@ == start + src@.take(f as int),
        decreases src@.len() - f,
    {
        dst.push(src[f]);
        f += 1;
        assert(dst@ =~= start + src@.take(f as int));
    }
    assert(src@.take(src@.len() as int) =~= src@);
}

/// Computes the polygon of intersection `j` and trims its roads (see `intersection_polygon`);
/// returns the roads left untrimmed and whether the intersection is degraded.
#[verifier::rlimit(50)]
fn place_polygon(j: usize, ints: &mut Vec<Intersection>, roads: &mut Vec<Road>) -> (r: (Vec<OriginalRoad>, bool))
    requires
        j < old(ints)@.len(),
        roads_sound(old(roads)@),
        unique_road_ids(old(roads)@),
        old(ints)@[j as int].roads@.len() >= 1 ==> exists|k: int| 0 <= k < old(roads)@.len()
            && (#[trigger] old(roads)@[k]).id == old(ints)@[j as int].roads@[0]
            && road_touches(old(roads)@[k], old(ints)@[j as int].id),
    ensures
        crate::polygon::polygon_and_trims(
            old(roads)@,
            final(roads)@,
            old(ints)@[j as int].id,
            old(ints)@[j as int].roads@,
            final(ints)@[j as int].polygon@,
            r.0@,
            r.1,
        ),
        old(ints)@[j as int].roads@.len() >= 1 ==> crate::simple::simple_polygon(final(ints)@[j as int].polygon@),
        final(ints)@.len() == old(ints)@.len(),
        forall|x: int| 0 <= x < old(ints)@.len() && x != j ==> final(ints)@[x] == old(ints)@[x],
        final(ints)@[j as int].id == old(ints)@[j as int].id,
        final(ints)@[j as int].intersection_type == old(ints)@[j as int].intersection_type,
        final(ints)@[j as int].elevation == old(ints)@[j as int].elevation,
        final(ints)@[j as int].roads@ == old(ints)@[j as int].roads@,
        trim_step(old(roads)@, final(roads)@),
{
    let ghost before = roads@;
    proof {
        let ids = ints@[j as int].roads@;
        if ids.len() >= 1 {
            let k = choose|k: int| 0 <= k < roads@.len() && (#[trigger] roads@[k]).id == ids[0]
                && road_touches(roads@[k], ints@[j as int].id);
            crate::polygon::lemma_find_unique(roads@, ids[0], k, 0);
            crate::polygon::lemma_attached_nonempty(roads@, ints@[j as int].id, ids, ids.len() as int);
        }
    }
    let (poly, failed, bad) = crate::polygon::intersection_polygon(&ints[j], roads);
    let ghost iid = ints@[j as int].id;
    ints[j].polygon = poly;
    proof {
        assert forall|k: int| 0 <= k < roads@.len() implies valid_polyline((#[trigger] roads@[k]).trimmed_center_pts@)
            && roads@[k].half_width <= crate::geom::WIDTH_LIMIT by {
            assert(valid_polyline(before[k].trimmed_center_pts@));
            assert(crate::polygon::same_but_centerline(roads@[k], before[k]));
        }
        assert forall|k: int| 0 <= k < before.len() implies {
            let a = before[k].trimmed_center_pts@;
            let b = (#[trigger] roads@[k]).trimmed_center_pts@;
            b.len() == a.len() && b.subrange(1, b.len() - 1) == a.subrange(1, a.len() - 1)
        } by {
            let o = before[k].trimmed_center_pts@;
            let b = roads@[k].trimmed_center_pts@;
            if b != o {
                let at_src = before[k].src_i == iid;
                assert(crate::polygon::is_trim_of(o, b, at_src));
                let q = choose|q: Pt2D| {
                    &&& b == crate::polygon::with_end(o, at_src, q)
                    &&& q.in_bounds()
                    &&& crate::edges::between(q, if at_src { o[0] } else { o[o.len() - 1] }, if at_src { o[1] } else { o[o.len() - 2] })
                    &&& q != (if at_src { o[1] } else { o[o.len() - 2] })
                };
                assert(b.subrange(1, b.len() - 1) =~= o.subrange(1, o.len() - 1));
            }
        }
        assert forall|k: int| 0 <= k < before.len() implies crate::polygon::no_longer(
            (#[trigger] roads@[k]).trimmed_center_pts@,
            before[k].trimmed_center_pts@,
        ) by {
            let o = before[k].trimmed_center_pts@;
            let b = roads@[k].trimmed_center_pts@;
            if b != o {
                crate::polygon::lemma_trim_shortens(o, b, before[k].src_i == iid);
            }
        }
    }
    (failed, bad)
}
/// The lists `parts[0]`, ..., `parts[j - 1]` one after another.
pub open spec fn concat_all(parts: Seq<Seq<OriginalRoad>>, j: int) -> Seq<OriginalRoad>
    decreases j,
{
    if j <= 0 { Seq::empty() } else { concat_all(parts, j - 1) + parts[j - 1] }
}

/// The identifiers of the first `j` raw intersections whose flag is set.
pub open spec fn flagged(ints: Seq<RawIntersection>, flags: Seq<bool>, j: int) -> Seq<OriginalIntersection>
    decreases j,
{
    if j <= 0 {
        Seq::empty()
    } else if flags[j - 1] {
        flagged(ints, flags, j - 1).push(ints[j - 1].id)
    } else {
        flagged(ints, flags, j - 1)
    }
}

/// Intersection `x` turns the roads `states[x]` into `states[x + 1]`, with its polygon, its
/// untrimmed roads `untr[x]` and its degraded flag `degr[x]` (see `polygon_and_trims`).
pub open spec fn step_matches(
    raw: Seq<RawIntersection>,
    acc: Seq<RawRoad>,
    ints: Seq<Intersection>,
    states: Seq<Seq<Road>>,
    untr: Seq<Seq<OriginalRoad>>,
    degr: Seq<bool>,
    x: int,
) -> bool {
    crate::polygon::polygon_and_trims(
        states[x],
        states[x + 1],
        raw[x].id,
        incident_ids(acc, raw[x].id),
        ints[x].polygon@,
        untr[x],
        degr[x],
    )
}

/// The intersections, taken in order, trim the roads through `states`, starting from the
/// roads as built from `acc`: this gives the final roads, each intersection's polygon, the
/// untrimmed roads and the degraded intersections.
pub open spec fn run_matches(
    raw: Seq<RawIntersection>,
    acc: Seq<RawRoad>,
    m: InitialMap,
    states: Seq<Seq<Road>>,
    untr: Seq<Seq<OriginalRoad>>,
    degr: Seq<bool>,
) -> bool {
    let n = raw.len() as int;
    &&& states.len() == n + 1
    &&& untr.len() == n
    &&& degr.len() == n
    &&& roads_from(states[0], acc)
    &&& states[n] == m.roads@
    &&& forall|x: int| 0 <= x < n ==> #[trigger] step_matches(raw, acc, m.intersections@, states, untr, degr, x)
    &&& m.untrimmed@ == concat_all(untr, n)
    &&& m.degraded@ == flagged(raw, degr, n)
}

/// The polygons, the trimmed roads and the lists of `m` are those of a run of the
/// intersections in order (see `run_matches`).
pub open spec fn synthesized_map(raw: Seq<RawIntersection>, acc: Seq<RawRoad>, m: InitialMap) -> bool {
    exists|states: Seq<Seq<Road>>, untr: Seq<Seq<OriginalRoad>>, degr: Seq<bool>|
        #[trigger] run_matches(raw, acc, m, states, untr, degr)
}

/// One intersection's pass over the roads: only centerlines change, each is a proper polyline
/// no longer than before, and only its end points move.
pub open spec fn trim_step(before: Seq<Road>, after: Seq<Road>) -> bool {
    &&& after.len() == before.len()
    &&& forall|k: int| 0 <= k < before.len() ==> crate::polygon::same_but_centerline(#[trigger] after[k], before[k])
    &&& roads_sound(after)
    &&& forall|k: int| 0 <= k < before.len() ==> crate::polygon::no_longer(
        (#[trigger] after[k]).trimmed_center_pts@,
        before[k].trimmed_center_pts@,
    )
    &&& forall|k: int| 0 <= k < before.len() ==> same_interior((#[trigger] after[k]).trimmed_center_pts@, before[k].trimmed_center_pts@)
}

/// Two polylines have as many points, and the same points but for the first and the last.
pub open spec fn same_interior(a: Seq<Pt2D>, b: Seq<Pt2D>) -> bool {
    a.len() == b.len() && a.subrange(1, a.len() - 1) == b.subrange(1, b.len() - 1)
}

/// The roads come from `acc`, are sound, have unique identifiers, and are the raw ones with
/// only their end points moved, never lengthened.
pub open spec fn roads_state(roads: Seq<Road>, acc: Seq<RawRoad>) -> bool {
    &&& roads_match(roads, acc)
    &&& roads_sound(roads)
    &&& unique_road_ids(roads)
    &&& forall|k: int| 0 <= k < roads.len() ==> crate::polygon::no_longer(
        (#[trigger] roads[k]).trimmed_center_pts@,
        acc[k].center_points@,
    )
    &&& forall|k: int| 0 <= k < roads.len() ==> same_interior((#[trigger] roads[k]).trimmed_center_pts@, acc[k].center_points@)
}

proof fn lemma_roads_state_step(acc: Seq<RawRoad>, before: Seq<Road>, after: Seq<Road>)
    requires
        roads_state(before, acc),
        trim_step(before, after),
    ensures
        roads_state(after, acc),
{
    assert forall|k: int| 0 <= k < after.len() implies road_attributes_match(#[trigger] after[k], acc[k]) by {
        assert(crate::polygon::same_but_centerline(after[k], before[k]));
        assert(road_attributes_match(before[k], acc[k]));
    }
    assert forall|k: int| 0 <= k < after.len() implies crate::polygon::no_longer(
        (#[trigger] after[k]).trimmed_center_pts@,
        acc[k].center_points@,
    ) by {
        crate::polygon::lemma_no_longer_trans(after[k].trimmed_center_pts@, before[k].trimmed_center_pts@, acc[k].center_points@);
    }
    assert forall|a: int, b: int| 0 <= a < b < after.len() implies (#[trigger] after[a]).id != (#[trigger] after[b]).id by {
        assert(crate::polygon::same_but_centerline(after[a], before[a]));
        assert(crate::polygon::same_but_centerline(after[b], before[b]));
    }
    assert forall|k: int| 0 <= k < after.len() implies same_interior((#[trigger] after[k]).trimmed_center_pts@, acc[k].center_points@) by {
        assert(same_interior(after[k].trimmed_center_pts@, before[k].trimmed_center_pts@));
        assert(same_interior(before[k].trimmed_center_pts@, acc[k].center_points@));
    }
}

/// Intersection `j` took its turn: the run so far extends by one step.
proof fn lemma_run_step(
    raw: Seq<RawIntersection>,
    acc: Seq<RawRoad>,
    ints_before: Seq<Intersection>,
    ints_after: Seq<Intersection>,
    states: Seq<Seq<Road>>,
    untr: Seq<Seq<OriginalRoad>>,
    degr: Seq<bool>,
    j: int,
    roads_after: Seq<Road>,
    failed: Seq<OriginalRoad>,
    bad: bool,
)
    requires
        0 <= j < raw.len(),
        ints_before.len() == raw.len(),
        ints_after.len() == raw.len(),
        states.len() == j + 1,
        untr.len() == j,
        degr.len() == j,
        forall|x: int| 0 <= x < raw.len() && x != j ==> ints_after[x] == ints_before[x],
        forall|x: int| 0 <= x < j ==> #[trigger] step_matches(raw, acc, ints_before, states, untr, degr, x),
        crate::polygon::polygon_and_trims(
            states[j],
            roads_after,
            raw[j].id,
            incident_ids(acc, raw[j].id),
            ints_after[j].polygon@,
            failed,
            bad,
        ),
    ensures
        forall|x: int| 0 <= x < j + 1 ==> #[trigger] step_matches(
            raw, acc, ints_after, states.push(roads_after), untr.push(failed), degr.push(bad), x),
        concat_all(untr.push(failed), j + 1) == concat_all(untr, j) + failed,
        flagged(raw, degr.push(bad), j + 1) == (if bad { flagged(raw, degr, j).push(raw[j].id) } else { flagged(raw, degr, j) }),
{
    let states2 = states.push(roads_after);
    let untr2 = untr.push(failed);
    let degr2 = degr.push(bad);
    assert forall|x: int| 0 <= x < j + 1 implies #[trigger] step_matches(raw, acc, ints_after, states2, untr2, degr2, x) by {
        if x < j {
            assert(step_matches(raw, acc, ints_before, states, untr, degr, x));
            assert(ints_after[x] == ints_before[x]);
            assert(states2[x] == states[x] && states2[x + 1] == states[x + 1]);
            assert(untr2[x] == untr[x] && degr2[x] == degr[x]);
        } else {
            assert(states2[x] == states[j]);
            assert(states2[x + 1] == roads_after);
        }
    }
    assert forall|x: int| 0 <= x < j implies untr2[x] == untr[x] by {}
    lemma_concat_prefix(untr, untr2, j);
    lemma_flagged_prefix(raw, degr, degr2, j);
}

proof fn lemma_concat_prefix(a: Seq<Seq<OriginalRoad>>, b: Seq<Seq<OriginalRoad>>, j: int)
    requires
        0 <= j <= a.len(),
        j <= b.len(),
        forall|x: int| 0 <= x < j ==> a[x] == b[x],
    ensures
        concat_all(a, j) == concat_all(b, j),
    decreases j,
{
    if j > 0 {
        lemma_concat_prefix(a, b, j - 1);
    }
}

proof fn lemma_flagged_prefix(ints: Seq<RawIntersection>, a: Seq<bool>, b: Seq<bool>, j: int)
    requires
        0 <= j <= a.len(),
        j < b.len(),
        forall|x: int| 0 <= x < j ==> a[x] == b[x],
    ensures
        flagged(ints, a, j) == flagged(ints, b, j),
    decreases j,
{
    if j > 0 {
        lemma_flagged_prefix(ints, a, b, j - 1);
    }
}

/// Every road's centerline is a proper polyline, and its half-width within bounds.
pub open spec fn roads_sound(roads: Seq<Road>) -> bool {
    forall|k: int| 0 <= k < roads.len() ==> valid_polyline((#[trigger] roads[k]).trimmed_center_pts@)
        && roads[k].half_width <= crate::geom::WIDTH_LIMIT && roads[k].src_i != roads[k].dst_i
}

/// No two roads share an identifier.
pub open spec fn unique_road_ids(roads: Seq<Road>) -> bool {
    forall|a: int, b: int| 0 <= a < b < roads.len() ==> (#[trigger] roads[a]).id != (#[trigger] roads[b]).id
}

/// The accepted roads keep the raw roads' identifiers, so theirs are unique too.
proof fn lemma_accepted_unique(raw: &RawMap, n: int)
    requires
        raw.wf(),
        0 <= n <= raw.roads@.len(),
    ensures
        forall|a: int| 0 <= a < accepted_roads(raw.roads@.take(n)).len() ==> exists|idx: int|
            0 <= idx < n && (#[trigger] raw.roads@[idx]).id == (#[trigger] accepted_roads(raw.roads@.take(n))[a]).id,
        forall|a: int, b: int| 0 <= a < b < accepted_roads(raw.roads@.take(n)).len()
            ==> (#[trigger] accepted_roads(raw.roads@.take(n))[a]).id != (#[trigger] accepted_roads(raw.roads@.take(n))[b]).id,
    decreases n,
{
    if n > 0 {
        lemma_accepted_unique(raw, n - 1);
        assert(raw.roads@.take(n).drop_last() =~= raw.roads@.take(n - 1));
        assert(raw.roads@.take(n).last() == raw.roads@[n - 1]);
        let prev = accepted_roads(raw.roads@.take(n - 1));
        let cur = accepted_roads(raw.roads@.take(n));
        assert forall|a: int| 0 <= a < cur.len() implies exists|idx: int|
            0 <= idx < n && (#[trigger] raw.roads@[idx]).id == (#[trigger] cur[a]).id by {
            if a < prev.len() {
                assert(cur[a] == prev[a]);
                let idx = choose|idx: int| 0 <= idx < n - 1 && (#[trigger] raw.roads@[idx]).id == prev[a].id;
                assert(raw.roads@[idx].id == cur[a].id);
            } else {
                assert(cur[a] == raw.roads@[n - 1]);
            }
        }
        assert forall|a: int, b: int| 0 <= a < b < cur.len() implies (#[trigger] cur[a]).id != (#[trigger] cur[b]).id by {
            if b < prev.len() {
                assert(cur[a] == prev[a] && cur[b] == prev[b]);
            } else {
                assert(cur[a] == prev[a]);
                assert(cur[b] == raw.roads@[n - 1]);
                let idx = choose|idx: int| 0 <= idx < n - 1 && (#[trigger] raw.roads@[idx]).id == prev[a].id;
                assert(raw.roads@[idx].id != raw.roads@[n - 1].id);
            }
        }
    }
}

impl InitialMap {
    /// Builds the graph of the raw map. Roads that loop back to their own intersection, or
    /// whose centerline is not a proper polyline, are left out and listed in `skipped`. If
    /// any two kept roads share an intersection and have equal centerlines, the whole map is
    /// refused with the list of those pairs. Otherwise each intersection gets its polygon
    /// (see `intersection_polygon`), and its roads are trimmed to it.
    #[verifier::rlimit(100)]
    pub fn new(raw: &RawMap, bounds: &Bounds) -> (r: Result<InitialMap, Vec<(OriginalRoad, OriginalRoad)>>)
        requires
            raw.wf(),
            raw.ordered(),
        ensures
            match r {
                Err(problems) => problems@ == overlaps(accepted_roads(raw.roads@)) && problems@.len() > 0,
                Ok(m) => {
                    &&& overlaps(accepted_roads(raw.roads@)).len() == 0
                    &&& roads_state(m.roads@, accepted_roads(raw.roads@))
                    &&& intersections_from(m.intersections@, raw.intersections@, accepted_roads(raw.roads@))
                    &&& referential_integrity(m.roads@, m.intersections@)
                    &&& synthesized_map(raw.intersections@, accepted_roads(raw.roads@), m)
                    &&& forall|j: int| 0 <= j < m.intersections@.len() && (#[trigger] m.intersections@[j]).roads@.len() >= 1
                        ==> crate::simple::simple_polygon(m.intersections@[j].polygon@)
                    &&& m.skipped@ == skipped_roads(raw.roads@)
                    &&& m.bounds == *bounds
                },
            },
    {
        let mut m = make_graph(raw, *bounds);
        let ghost acc = accepted_roads(raw.roads@);
        let problems = find_overlaps(&m.roads, Ghost(acc));
        if problems.len() > 0 {
            return Err(problems);
        }
        proof {
            reveal(progress);
            lemma_initial_roads_state(raw, m.roads@);
            assert(m.untrimmed@ =~= concat_all(Seq::<Seq<OriginalRoad>>::empty(), 0));
            assert(m.degraded@ =~= flagged(raw.intersections@, Seq::<bool>::empty(), 0));
        }
        let ghost mut run: (Seq<Seq<Road>>, Seq<Seq<OriginalRoad>>, Seq<bool>) = (seq![m.roads@], Seq::empty(), Seq::empty());
        let mut j: usize = 0;
        while j < m.intersections.len()
            invariant
                raw.wf(),
                acc == accepted_roads(raw.roads@),
                j <= m.intersections@.len(),
                m.intersections@.len() == raw.intersections@.len(),
                m.bounds == *bounds,
                progress(raw, m, j as int, run.0, run.1, run.2),
            decreases m.intersections@.len() - j,
        {
            let next = polygon_pass(raw, &mut m, j, Ghost(run));
            proof {
                run = next@;
            }
            j += 1;
        }
        let ghost states = run.0;
        let ghost untr = run.1;
        let ghost degr = run.2;
        proof {
            reveal(progress);
            lemma_referential_integrity(raw, m.roads@, m.intersections@);
            assert(run_matches(raw.intersections@, acc, m, states, untr, degr));
        }
        Ok(m)
    }
}

/// The first `j` intersections have had their pass (see `run_matches`), and the map is
/// otherwise as built.
#[verifier::opaque]
pub open spec fn progress(
    raw: &RawMap,
    m: InitialMap,
    j: int,
    states: Seq<Seq<Road>>,
    untr: Seq<Seq<OriginalRoad>>,
    degr: Seq<bool>,
) -> bool {
    let acc = accepted_roads(raw.roads@);
    &&& roads_state(m.roads@, acc)
    &&& intersections_from(m.intersections@, raw.intersections@, acc)
    &&& forall|x: int| 0 <= x < j && (#[trigger] m.intersections@[x]).roads@.len() >= 1
        ==> crate::simple::simple_polygon(m.intersections@[x].polygon@)
    &&& m.skipped@ == skipped_roads(raw.roads@)
    &&& states.len() == j + 1
    &&& untr.len() == j
    &&& degr.len() == j
    &&& roads_from(states[0], acc)
    &&& states[j] == m.roads@
    &&& forall|x: int| 0 <= x < j ==> #[trigger] step_matches(raw.intersections@, acc, m.intersections@, states, untr, degr, x)
    &&& m.untrimmed@ == concat_all(untr, j)
    &&& m.degraded@ == flagged(raw.intersections@, degr, j)
}

/// Only intersection `j` changed, and only its polygon, which has at least three vertices
/// where it has a road.
proof fn lemma_ints_step(raw: Seq<RawIntersection>, acc: Seq<RawRoad>, before: Seq<Intersection>, after: Seq<Intersection>, j: int)
    requires
        0 <= j < before.len(),
        intersections_from(before, raw, acc),
        forall|x: int| 0 <= x < j && (#[trigger] before[x]).roads@.len() >= 1 ==> crate::simple::simple_polygon(before[x].polygon@),
        after.len() == before.len(),
        forall|x: int| 0 <= x < before.len() && x != j ==> after[x] == before[x],
        after[j].id == before[j].id,
        after[j].intersection_type == before[j].intersection_type,
        after[j].elevation == before[j].elevation,
        after[j].roads@ == before[j].roads@,
        before[j].roads@.len() >= 1 ==> crate::simple::simple_polygon(after[j].polygon@),
    ensures
        intersections_from(after, raw, acc),
        forall|x: int| 0 <= x < j + 1 && (#[trigger] after[x]).roads@.len() >= 1 ==> crate::simple::simple_polygon(after[x].polygon@),
{
    assert forall|x: int| 0 <= x < j + 1 && (#[trigger] after[x]).roads@.len() >= 1 implies crate::simple::simple_polygon(after[x].polygon@) by {
        if x < j {
            assert(after[x] == before[x]);
        }
    }
    assert forall|x: int| 0 <= x < after.len() implies {
        &&& (#[trigger] after[x]).id == raw[x].id
        &&& after[x].intersection_type == raw[x].intersection_type
        &&& after[x].elevation == raw[x].elevation
        &&& after[x].roads@ == incident_ids(acc, raw[x].id)
    } by {
        if x != j {
            assert(after[x] == before[x]);
        }
    }
}

proof fn lemma_progress_facts(
    raw: &RawMap,
    m: InitialMap,
    j: int,
    states: Seq<Seq<Road>>,
    untr: Seq<Seq<OriginalRoad>>,
    degr: Seq<bool>,
)
    requires
        progress(raw, m, j, states, untr, degr),
    ensures
        roads_state(m.roads@, accepted_roads(raw.roads@)),
        intersections_from(m.intersections@, raw.intersections@, accepted_roads(raw.roads@)),
{
    reveal(progress);
}

/// What intersection `j`'s pass does to the map keeps the run going.
#[verifier::rlimit(100)]
proof fn lemma_pass(
    raw: &RawMap,
    old_m: InitialMap,
    new_m: InitialMap,
    j: int,
    states: Seq<Seq<Road>>,
    untr: Seq<Seq<OriginalRoad>>,
    degr: Seq<bool>,
    failed: Seq<OriginalRoad>,
    bad: bool,
)
    requires
        raw.wf(),
        0 <= j < old_m.intersections@.len(),
        progress(raw, old_m, j, states, untr, degr),
        trim_step(old_m.roads@, new_m.roads@),
        crate::polygon::polygon_and_trims(
            old_m.roads@,
            new_m.roads@,
            old_m.intersections@[j].id,
            old_m.intersections@[j].roads@,
            new_m.intersections@[j].polygon@,
            failed,
            bad,
        ),
        old_m.intersections@[j].roads@.len() >= 1 ==> crate::simple::simple_polygon(new_m.intersections@[j].polygon@),
        new_m.intersections@.len() == old_m.intersections@.len(),
        forall|x: int| 0 <= x < old_m.intersections@.len() && x != j ==> new_m.intersections@[x] == old_m.intersections@[x],
        new_m.intersections@[j].id == old_m.intersections@[j].id,
        new_m.intersections@[j].intersection_type == old_m.intersections@[j].intersection_type,
        new_m.intersections@[j].elevation == old_m.intersections@[j].elevation,
        new_m.intersections@[j].roads@ == old_m.intersections@[j].roads@,
        new_m.untrimmed@ == old_m.untrimmed@ + failed,
        new_m.degraded@ == (if bad { old_m.degraded@.push(old_m.intersections@[j].id) } else { old_m.degraded@ }),
        new_m.skipped@ == old_m.skipped@,
    ensures
        progress(raw, new_m, j + 1, states.push(new_m.roads@), untr.push(failed), degr.push(bad)),
{
    reveal(progress);
    let acc = accepted_roads(raw.roads@);
    lemma_roads_state_step(acc, old_m.roads@, new_m.roads@);
    lemma_run_step(raw.intersections@, acc, old_m.intersections@, new_m.intersections@, states, untr, degr, j, new_m.roads@, failed, bad);
    lemma_ints_step(raw.intersections@, acc, old_m.intersections@, new_m.intersections@, j);
    assert(states.push(new_m.roads@)[0] == states[0]);
}

/// Intersection `j`'s pass: its polygon, and the trimming of its roads.
fn polygon_pass(
    raw: &RawMap,
    m: &mut InitialMap,
    j: usize,
    run: Ghost<(Seq<Seq<Road>>, Seq<Seq<OriginalRoad>>, Seq<bool>)>,
) -> (next: Ghost<(Seq<Seq<Road>>, Seq<Seq<OriginalRoad>>, Seq<bool>)>)
    requires
        raw.wf(),
        j < old(m).intersections@.len(),
        progress(raw, *old(m), j as int, run@.0, run@.1, run@.2),
    ensures
        final(m).bounds == old(m).bounds,
        final(m).intersections@.len() == old(m).intersections@.len(),
        progress(raw, *final(m), j + 1, next@.0, next@.1, next@.2),
{
    let ghost old_m = *m;
    proof {
        lemma_progress_facts(raw, *m, j as int, run@.0, run@.1, run@.2);
        lemma_referential_integrity(raw, m.roads@, m.intersections@);
        if m.intersections@[j as int].roads@.len() >= 1 {
            assert(entry_backed(m.roads@, m.intersections@, j as int, 0));
        }
    }
    let (failed, bad) = place_polygon(j, &mut m.intersections, &mut m.roads);
    append_ids(&mut m.untrimmed, &failed);
    if bad {
        m.degraded.push(m.intersections[j].id);
    }
    proof {
        lemma_pass(raw, old_m, *m, j as int, run@.0, run@.1, run@.2, failed@, bad);
    }
    Ghost((run@.0.push(m.roads@), run@.1.push(failed@), run@.2.push(bad)))
}

/// The roads as built from the accepted raw roads are in the state the intersections' passes
/// keep.
proof fn lemma_initial_roads_state(raw: &RawMap, roads: Seq<Road>)
    requires
        raw.wf(),
        roads_from(roads, accepted_roads(raw.roads@)),
    ensures
        roads_state(roads, accepted_roads(raw.roads@)),
{
    let acc = accepted_roads(raw.roads@);
    lemma_accepted_sound(raw, raw.roads@.len() as int);
    lemma_accepted_unique(raw, raw.roads@.len() as int);
    assert(raw.roads@.take(raw.roads@.len() as int) =~= raw.roads@);
    assert forall|k: int| 0 <= k < roads.len() implies valid_polyline((#[trigger] roads[k]).trimmed_center_pts@)
        && roads[k].half_width <= crate::geom::WIDTH_LIMIT && roads[k].src_i != roads[k].dst_i by {
        assert(road_attributes_match(roads[k], acc[k]));
    }
    assert forall|a: int, b: int| 0 <= a < b < roads.len() implies (#[trigger] roads[a]).id != (#[trigger] roads[b]).id by {
        assert(road_attributes_match(roads[a], acc[a]));
        assert(road_attributes_match(roads[b], acc[b]));
    }
    assert forall|k: int| 0 <= k < roads.len() implies crate::polygon::no_longer(
        (#[trigger] roads[k]).trimmed_center_pts@,
        acc[k].center_points@,
    ) by {
        assert(roads[k].trimmed_center_pts@ == acc[k].center_points@);
    }
    assert forall|k: int| 0 <= k < roads.len() implies same_interior((#[trigger] roads[k]).trimmed_center_pts@, acc[k].center_points@) by {
        assert(roads[k].trimmed_center_pts@ == acc[k].center_points@);
    }
}

/// Every accepted road is a proper polyline between two different intersections, and its
/// half-width is within bounds.
proof fn lemma_accepted_sound(raw: &RawMap, n: int)
    requires
        raw.wf(),
        0 <= n <= raw.roads@.len(),
    ensures
        forall|k: int| 0 <= k < accepted_roads(raw.roads@.take(n)).len() ==> {
            &&& valid_polyline((#[trigger] accepted_roads(raw.roads@.take(n))[k]).center_points@)
            &&& total_width(accepted_roads(raw.roads@.take(n))[k].lane_specs@) / 2 <= crate::geom::WIDTH_LIMIT
            &&& accepted_roads(raw.roads@.take(n))[k].id.i1 != accepted_roads(raw.roads@.take(n))[k].id.i2
        },
    decreases n,
{
    if n > 0 {
        lemma_accepted_sound(raw, n - 1);
        assert(raw.roads@.take(n).drop_last() =~= raw.roads@.take(n - 1));
        assert(raw.roads@.take(n).last() == raw.roads@[n - 1]);
        let prev = accepted_roads(raw.roads@.take(n - 1));
        let cur = accepted_roads(raw.roads@.take(n));
        assert forall|k: int| 0 <= k < cur.len() implies {
            &&& valid_polyline((#[trigger] cur[k]).center_points@)
            &&& total_width(cur[k].lane_specs@) / 2 <= crate::geom::WIDTH_LIMIT
            &&& cur[k].id.i1 != cur[k].id.i2
        } by {
            if k < prev.len() {
                assert(cur[k] == prev[k]);
            } else {
                assert(cur[k] == raw.roads@[n - 1]);
                lemma_total_width_bound(raw.roads@[n - 1].lane_specs@);
                assert(lanes_wf(raw.roads@[n - 1].lane_specs@));
            }
        }
    }
}

} // verus!
