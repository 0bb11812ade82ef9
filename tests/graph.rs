use map_model::geom::Pt2D;
use map_model::initial::{Bounds, InitialMap, SkipReason};
use map_model::raw::{
    DrivingSide, IntersectionType, LaneSpec, LaneType, OriginalIntersection, OriginalRoad,
    RawIntersection, RawMap, RawRoad,
};

fn pt(x: i64, y: i64) -> Pt2D {
    Pt2D::new(x, y)
}

fn node(id: i64, p: Pt2D) -> RawIntersection {
    RawIntersection {
        id: OriginalIntersection { osm_node_id: id },
        point: p,
        intersection_type: IntersectionType::StopSign,
        elevation: 0,
    }
}

fn lanes(total: u64) -> Vec<LaneSpec> {
    vec![
        LaneSpec { lane_type: LaneType::Driving, reverse_pts: false, width: total / 2 },
        LaneSpec { lane_type: LaneType::Driving, reverse_pts: true, width: total - total / 2 },
    ]
}

fn road(way: i64, i1: i64, i2: i64, pts: Vec<Pt2D>, total: u64) -> RawRoad {
    RawRoad {
        id: OriginalRoad {
            osm_way_id: way,
            i1: OriginalIntersection { osm_node_id: i1 },
            i2: OriginalIntersection { osm_node_id: i2 },
        },
        center_points: pts,
        lane_specs: lanes(total),
    }
}

fn bounds() -> Bounds {
    Bounds { min_x: -20000, min_y: -20000, max_x: 20000, max_y: 20000 }
}

#[test]
fn duplicate_roads_fail_with_both_ids() {
    let raw = RawMap {
        intersections: vec![node(1, pt(0, 0)), node(2, pt(10000, 0))],
        roads: vec![
            road(10, 1, 2, vec![pt(0, 0), pt(10000, 0)], 1000),
            road(11, 1, 2, vec![pt(0, 0), pt(10000, 0)], 1000),
        ],
        driving_side: DrivingSide::Right,
    };
    match InitialMap::new(&raw, &bounds()) {
        Ok(_) => panic!("overlapping roads were accepted"),
        Err(problems) => {
            assert_eq!(problems.len(), 1);
            assert_eq!(problems[0].0.osm_way_id, 10);
            assert_eq!(problems[0].1.osm_way_id, 11);
        }
    }
}

#[test]
fn loops_and_broken_roads_are_skipped() {
    let raw = RawMap {
        intersections: vec![node(1, pt(0, 0)), node(2, pt(10000, 0))],
        roads: vec![
            road(10, 1, 1, vec![pt(0, 0), pt(500, 500), pt(0, 0)], 1000),
            road(11, 1, 2, vec![pt(0, 0)], 1000),
            road(12, 1, 2, vec![pt(0, 0), pt(0, 0), pt(10000, 0)], 1000),
            road(13, 1, 2, vec![pt(0, 0), pt(10000, 0)], 1000),
        ],
        driving_side: DrivingSide::Right,
    };
    let m = InitialMap::new(&raw, &bounds()).ok().unwrap();
    assert_eq!(m.skipped.len(), 3);
    assert_eq!(m.skipped[0].1, SkipReason::Loop);
    assert_eq!(m.skipped[1].1, SkipReason::BrokenGeometry);
    assert_eq!(m.skipped[2].1, SkipReason::BrokenGeometry);
    assert_eq!(m.roads.len(), 1);
    assert_eq!(m.roads[0].id.osm_way_id, 13);
    assert_eq!(m.roads[0].half_width, 500);
}

#[test]
fn roads_and_intersections_refer_to_each_other() {
    let raw = RawMap {
        intersections: vec![node(1, pt(0, 0)), node(2, pt(10000, 0)), node(3, pt(0, 10000))],
        roads: vec![
            road(10, 1, 2, vec![pt(0, 0), pt(10000, 0)], 1000),
            road(11, 3, 1, vec![pt(0, 10000), pt(0, 0)], 600),
        ],
        driving_side: DrivingSide::Right,
    };
    let m = InitialMap::new(&raw, &bounds()).ok().unwrap();
    for r in &m.roads {
        for end in [r.src_i, r.dst_i] {
            let i = m.intersections.iter().find(|i| i.id == end).unwrap();
            assert!(i.roads.contains(&r.id));
        }
    }
    for i in &m.intersections {
        for id in &i.roads {
            let r = m.roads.iter().find(|r| r.id == *id).unwrap();
            assert!(r.src_i == i.id || r.dst_i == i.id);
        }
    }
    assert_eq!(m.intersections[0].roads.len(), 2);
    assert_eq!(m.intersections[1].roads.len(), 1);
    assert_eq!(m.intersections[2].roads.len(), 1);
}

#[test]
fn dead_end_polygon_is_a_stub_capped_at_the_half_width() {
    let raw = RawMap {
        intersections: vec![node(1, pt(0, 0)), node(2, pt(10000, 0))],
        roads: vec![road(10, 1, 2, vec![pt(0, 0), pt(10000, 0)], 1000)],
        driving_side: DrivingSide::Right,
    };
    let m = InitialMap::new(&raw, &bounds()).ok().unwrap();
    assert_eq!(m.roads[0].half_width, 500);
    assert_eq!(
        m.intersections[0].polygon,
        vec![pt(0, -500), pt(250, -500), pt(250, 500), pt(0, 500)]
    );
    assert_eq!(
        m.intersections[1].polygon,
        vec![pt(10000, 500), pt(9750, 500), pt(9750, -500), pt(10000, -500)]
    );
    assert_eq!(m.roads[0].trimmed_center_pts, vec![pt(250, 0), pt(9750, 0)]);
    assert!(m.untrimmed.is_empty());
}

#[test]
fn three_way_polygon_has_one_corner_per_pair() {
    let raw = RawMap {
        intersections: vec![
            node(1, pt(0, 0)),
            node(2, pt(10000, 0)),
            node(3, pt(0, 10000)),
            node(4, pt(-10000, -10000)),
        ],
        roads: vec![
            road(10, 1, 2, vec![pt(0, 0), pt(10000, 0)], 1000),
            road(11, 1, 3, vec![pt(0, 0), pt(0, 10000)], 1000),
            road(12, 1, 4, vec![pt(0, 0), pt(-10000, -10000)], 1000),
        ],
        driving_side: DrivingSide::Right,
    };
    let m = InitialMap::new(&raw, &bounds()).ok().unwrap();
    assert_eq!(m.intersections[0].polygon, vec![pt(500, 500), pt(-500, 207), pt(207, -500)]);
    assert_eq!(m.roads[0].trimmed_center_pts[0], pt(500, 0));
    assert_eq!(m.roads[1].trimmed_center_pts[0], pt(0, 500));
    assert_eq!(m.roads[2].trimmed_center_pts[0], pt(-147, -147));
    assert!(m.degraded.is_empty());
}

#[test]
fn four_way_with_straight_roads_falls_back_on_parallel_edges() {
    let raw = RawMap {
        intersections: vec![
            node(1, pt(0, 0)),
            node(2, pt(10000, 0)),
            node(3, pt(0, 10000)),
            node(4, pt(-10000, 0)),
        ],
        roads: vec![
            road(10, 1, 2, vec![pt(0, 0), pt(10000, 0)], 1000),
            road(11, 1, 3, vec![pt(0, 0), pt(0, 10000)], 1000),
            road(12, 1, 4, vec![pt(0, 0), pt(-10000, 0)], 1000),
        ],
        driving_side: DrivingSide::Right,
    };
    let m = InitialMap::new(&raw, &bounds()).ok().unwrap();
    assert_eq!(
        m.intersections[0].polygon,
        vec![pt(500, 500), pt(-500, 500), pt(-250, -500), pt(250, -500)]
    );
    assert_eq!(m.roads[0].trimmed_center_pts[0], pt(500, 0));
    assert_eq!(m.roads[2].trimmed_center_pts[0], pt(-500, 0));
    assert_eq!(m.degraded, vec![OriginalIntersection { osm_node_id: 1 }]);
}

#[test]
fn trimming_never_lengthens_a_road() {
    let raw = RawMap {
        intersections: vec![
            node(1, pt(0, 0)),
            node(2, pt(10000, 0)),
            node(3, pt(0, 10000)),
            node(4, pt(-10000, -10000)),
        ],
        roads: vec![
            road(10, 1, 2, vec![pt(0, 0), pt(3000, 100), pt(10000, 0)], 1000),
            road(11, 3, 1, vec![pt(0, 10000), pt(0, 0)], 1400),
            road(12, 1, 4, vec![pt(0, 0), pt(-10000, -10000)], 600),
        ],
        driving_side: DrivingSide::Right,
    };
    let m = InitialMap::new(&raw, &bounds()).ok().unwrap();
    for (r, raw_road) in m.roads.iter().zip(raw.roads.iter()) {
        let len = |pts: &Vec<Pt2D>| -> f64 {
            pts.windows(2)
                .map(|w| (((w[1].x - w[0].x) as f64).powi(2) + ((w[1].y - w[0].y) as f64).powi(2)).sqrt())
                .sum()
        };
        assert!(len(&r.trimmed_center_pts) <= len(&raw_road.center_points));
        assert_eq!(r.trimmed_center_pts.len(), raw_road.center_points.len());
    }
    for i in &m.intersections {
        assert!(i.polygon.len() >= 3);
    }
}

#[test]
fn short_road_is_left_untrimmed() {
    let raw = RawMap {
        intersections: vec![node(1, pt(0, 0)), node(2, pt(100, 0))],
        roads: vec![road(10, 1, 2, vec![pt(0, 0), pt(100, 0)], 1000)],
        driving_side: DrivingSide::Right,
    };
    let m = InitialMap::new(&raw, &bounds()).ok().unwrap();
    assert_eq!(m.untrimmed.len(), 2);
    assert_eq!(m.roads[0].trimmed_center_pts, vec![pt(0, 0), pt(100, 0)]);
}

#[test]
fn dead_end_on_a_slanted_road_is_a_proper_stub() {
    let raw = RawMap {
        intersections: vec![node(1, pt(0, 0)), node(2, pt(1000, 1))],
        roads: vec![road(10, 1, 2, vec![pt(0, 0), pt(1000, 1)], 1000)],
        driving_side: DrivingSide::Right,
    };
    let m = InitialMap::new(&raw, &bounds()).ok().unwrap();
    assert_eq!(m.intersections[0].polygon, vec![pt(1, -500), pt(251, -500), pt(249, 500), pt(-1, 500)]);
    assert_eq!(m.intersections[1].polygon, vec![pt(1000, 501), pt(750, 500), pt(750, -500), pt(1000, -499)]);
    assert_eq!(m.roads[0].trimmed_center_pts, vec![pt(250, 0), pt(750, 0)]);
    assert!(m.degraded.is_empty());
}

#[test]
fn road_without_width_gets_the_fallback_square() {
    let raw = RawMap {
        intersections: vec![node(1, pt(0, 0)), node(2, pt(10000, 0))],
        roads: vec![road(10, 1, 2, vec![pt(0, 0), pt(10000, 0)], 0)],
        driving_side: DrivingSide::Right,
    };
    let m = InitialMap::new(&raw, &bounds()).ok().unwrap();
    assert_eq!(m.intersections[0].polygon, vec![pt(-250, -250), pt(250, -250), pt(250, 250), pt(-250, 250)]);
    assert_eq!(m.degraded.len(), 2);
}
