//! The raw map as the loader supplies it: intersections and roads keyed by their origin
//! identifiers, with centerlines and lane specifications.
use vstd::prelude::*;
use crate::geom::Pt2D;

verus! {

/// The widest lane accepted, in centimetres.
pub const MAX_LANE_WIDTH: u64 = 10000;

/// The most lanes a road may have.
pub const MAX_LANES: usize = 64;

#[derive(Clone, Copy, Debug, PartialEq, Eq, Structural)]
pub struct OriginalIntersection {
    pub osm_node_id: i64,
}

#[derive(Clone, Copy, Debug, PartialEq, Eq, Structural)]
pub struct OriginalRoad {
    pub osm_way_id: i64,
    pub i1: OriginalIntersection,
    pub i2: OriginalIntersection,
}

#[derive(Clone, Copy, Debug, PartialEq, Eq, Structural)]
pub enum DrivingSide {
    Right,
    Left,
}

#[derive(Clone, Copy, Debug, PartialEq, Eq, Structural)]
pub enum IntersectionType {
    StopSign,
    TrafficSignal,
    Border,
    Construction,
}

#[derive(Clone, Copy, Debug, PartialEq, Eq, Structural)]
pub enum LaneType {
    Driving,
    Parking,
    Sidewalk,
    Shoulder,
    Biking,
    Bus,
    SharedLeftTurn,
    Construction,
    LightRail,
}

/// One lane of a road: its type, whether it runs against the centerline's direction, and
/// its width in centimetres.
#[derive(Clone, Copy, Debug, PartialEq, Eq, Structural)]
pub struct LaneSpec {
    pub lane_type: LaneType,
    pub reverse_pts: bool,
    pub width: u64,
}

#[derive(Debug)]
pub struct RawIntersection {
    pub id: OriginalIntersection,
    pub point: Pt2D,
    pub intersection_type: IntersectionType,
    /// Height above ground, in centimetres.
    pub elevation: i64,
}

#[derive(Debug)]
pub struct RawRoad {
    pub id: OriginalRoad,
    pub center_points: Vec<Pt2D>,
    pub lane_specs: Vec<LaneSpec>,
}

#[derive(Debug)]
pub struct RawMap {
    pub intersections: Vec<RawIntersection>,
    pub roads: Vec<RawRoad>,
    pub driving_side: DrivingSide,
}

pub open spec fn lanes_wf(lanes: Seq<LaneSpec>) -> bool {
    lanes.len() <= MAX_LANES && forall|i: int| 0 <= i < lanes.len() ==> (#[trigger] lanes[i]).width <= MAX_LANE_WIDTH
}

/// Sum of the widths of the lanes.
pub open spec fn total_width(lanes: Seq<LaneSpec>) -> int
    decreases lanes.len(),
{
    if lanes.len() == 0 {
        0
    } else {
        total_width(lanes.drop_last()) + lanes.last().width
    }
}

pub proof fn lemma_total_width_bound(lanes: Seq<LaneSpec>)
    requires
        lanes_wf(lanes),
    ensures
        0 <= total_width(lanes) <= lanes.len() * MAX_LANE_WIDTH,
    decreases lanes.len(),
{
    if lanes.len() > 0 {
        assert(lanes_wf(lanes.drop_last()));
        lemma_total_width_bound(lanes.drop_last());
        assert(lanes[lanes.len() - 1].width <= MAX_LANE_WIDTH);
    }
}

/// Some raw intersection has this identifier.
pub open spec fn has_intersection(ints: Seq<RawIntersection>, id: OriginalIntersection) -> bool {
    exists|j: int| 0 <= j < ints.len() && (#[trigger] ints[j]).id == id
}

/// Road identifiers in increasing order: by way, then by first and second intersection.
pub open spec fn road_id_lt(a: OriginalRoad, b: OriginalRoad) -> bool {
    ||| a.osm_way_id < b.osm_way_id
    ||| (a.osm_way_id == b.osm_way_id && a.i1.osm_node_id < b.i1.osm_node_id)
    ||| (a.osm_way_id == b.osm_way_id && a.i1 == b.i1 && a.i2.osm_node_id < b.i2.osm_node_id)
}

impl RawMap {
    /// Intersections and roads are listed by increasing identifier, as a map keyed by
    /// identifier would list them; the graph keeps that order.
    #[verifier::opaque]
    pub open spec fn ordered(&self) -> bool {
        &&& forall|a: int|
            0 <= a < self.intersections@.len() - 1 ==> (#[trigger] self.intersections@[a]).id.osm_node_id
                < self.intersections@[a + 1].id.osm_node_id
        &&& forall|a: int|
            0 <= a < self.roads@.len() - 1 ==> road_id_lt((#[trigger] self.roads@[a]).id, self.roads@[a + 1].id)
    }

    /// Identifiers are unique, every road names intersections of the map, and every road's
    /// lanes are within the limits.
    pub open spec fn wf(&self) -> bool {
        &&& forall|a: int, b: int|
            0 <= a < b < self.intersections@.len() ==> (#[trigger] self.intersections@[a]).id
                != (#[trigger] self.intersections@[b]).id
        &&& forall|a: int, b: int|
            0 <= a < b < self.roads@.len() ==> (#[trigger] self.roads@[a]).id
                != (#[trigger] self.roads@[b]).id

        &&& forall|k: int|
            0 <= k < self.roads@.len() ==> {
                &&& has_intersection(self.intersections@, (#[trigger] self.roads@[k]).id.i1)
                &&& has_intersection(self.intersections@, self.roads@[k].id.i2)
                &&& lanes_wf(self.roads@[k].lane_specs@)
            }
    }
}

} // verus!
