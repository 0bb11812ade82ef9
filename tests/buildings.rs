use map_model::buildings::{center, make_all_buildings, trim_path, BuildingID, OffstreetParking, RawBuilding};
use map_model::geom::{Line, Pt2D};
use map_model::matcher::{build_index, match_indexed, match_point, match_points_to_features, BBox, Feature, FeaturePos};

fn pt(x: i64, y: i64) -> Pt2D {
    Pt2D::new(x, y)
}

fn square(x: i64, y: i64, side: i64) -> Vec<Pt2D> {
    vec![pt(x, y), pt(x + side, y), pt(x + side, y + side), pt(x, y + side), pt(x, y)]
}

fn sidewalk(a: Pt2D, b: Pt2D) -> Feature {
    Feature { pts: vec![a, b], eligible: true }
}

#[test]
fn connector_starts_at_the_crossed_edge() {
    let poly = square(0, 0, 1000);
    let path = Line::new(pt(500, 500), pt(500, 3000)).unwrap();
    let trimmed = trim_path(&poly, path);
    assert_eq!(trimmed.pt1, pt(500, 1000));
    assert_eq!(trimmed.pt2, pt(500, 3000));
}

#[test]
fn connector_from_outside_is_kept() {
    let poly = square(0, 0, 1000);
    let path = Line::new(pt(2000, 500), pt(3000, 500)).unwrap();
    assert_eq!(trim_path(&poly, path), path);
}

#[test]
fn building_center_is_the_average_of_its_corners() {
    assert_eq!(center(&square(0, 0, 1000)), pt(500, 500));
    assert_eq!(center(&square(-3, -3, 3)), pt(-2, -2));
}

#[test]
fn far_building_is_dropped() {
    let feats = vec![sidewalk(pt(120500, -50000), pt(120500, 50000))];
    let input = vec![RawBuilding {
        osm_way_id: 7,
        polygon: square(0, 0, 1000),
        public_garage_name: None,
        num_parking_spots: 0,
    }];
    let (bldgs, dropped) = make_all_buildings(&input, &feats);
    assert!(bldgs.is_empty());
    assert_eq!(dropped, 1);
}

#[test]
fn near_building_is_attached_and_numbered() {
    let feats = vec![sidewalk(pt(120500, -50000), pt(120500, 50000)), sidewalk(pt(-50000, 3000), pt(50000, 3000))];
    let input = vec![
        RawBuilding { osm_way_id: 7, polygon: square(300000, 0, 1000), public_garage_name: None, num_parking_spots: 0 },
        RawBuilding {
            osm_way_id: 8,
            polygon: square(0, 0, 1000),
            public_garage_name: Some("Garage".to_string()),
            num_parking_spots: 12,
        },
    ];
    let (bldgs, dropped) = make_all_buildings(&input, &feats);
    assert_eq!(dropped, 1);
    assert_eq!(bldgs.len(), 1);
    let b = &bldgs[0];
    assert_eq!(b.id, BuildingID(0));
    assert_eq!(b.osm_way_id, 8);
    assert_eq!(b.sidewalk_pos, FeaturePos { feature: 1, segment: 0, pt: pt(500, 3000) });
    assert_eq!(b.driveway_geom, Line { pt1: pt(500, 1000), pt2: pt(500, 3000) });
    match &b.parking {
        OffstreetParking::PublicGarage(name, n) => {
            assert_eq!(name, "Garage");
            assert_eq!(*n, 12);
        }
        OffstreetParking::Private(_) => panic!("expected a public garage"),
    }
}

#[test]
fn nearest_eligible_feature_wins() {
    let feats = vec![
        Feature { pts: vec![pt(-5000, 100), pt(5000, 100)], eligible: false },
        sidewalk(pt(-5000, 900), pt(5000, 900)),
        sidewalk(pt(-5000, -400), pt(5000, -400)),
    ];
    let m = match_point(pt(0, 0), &feats, 750, 100000).unwrap();
    assert_eq!(m, FeaturePos { feature: 2, segment: 0, pt: pt(0, -400) });
}

#[test]
fn ties_go_to_the_lowest_feature() {
    let feats = vec![sidewalk(pt(-5000, 400), pt(5000, 400)), sidewalk(pt(-5000, -400), pt(5000, -400))];
    let m = match_point(pt(0, 0), &feats, 750, 100000).unwrap();
    assert_eq!(m.feature, 0);
    assert_eq!(m.pt, pt(0, 400));
}

#[test]
fn matches_near_a_feature_end_are_refused() {
    let feats = vec![sidewalk(pt(0, 1000), pt(10000, 1000))];
    assert_eq!(match_point(pt(100, 0), &feats, 750, 100000), None);
    assert_eq!(match_point(pt(800, 0), &feats, 750, 100000).unwrap().pt, pt(800, 1000));
}

#[test]
fn matching_twice_gives_the_same_result() {
    let feats = vec![
        sidewalk(pt(-5000, 900), pt(5000, 900)),
        Feature { pts: vec![pt(-3000, -3000), pt(0, -700), pt(3000, -3000)], eligible: true },
    ];
    let queries = vec![pt(0, 0), pt(2000, -500), pt(90000, 0), pt(-100, 2000)];
    let a = match_points_to_features(&queries, &feats, 750, 1000);
    let b = match_points_to_features(&queries, &feats, 750, 1000);
    assert_eq!(a, b);
    assert_eq!(a.len(), 4);
    assert_eq!(a[2], None);
    assert_eq!(a[0], Some(FeaturePos { feature: 1, segment: 0, pt: pt(0, -700) }));
}

#[test]
fn index_holds_boxes_of_eligible_features() {
    let feats = vec![
        Feature { pts: vec![pt(0, 0), pt(100, 50), pt(-20, 300)], eligible: true },
        Feature { pts: vec![pt(0, 0), pt(100, 0)], eligible: false },
        Feature { pts: vec![pt(5, 5), pt(5, 5)], eligible: true },
    ];
    let index = build_index(&feats);
    assert_eq!(index, vec![Some(BBox { min_x: -20, min_y: 0, max_x: 100, max_y: 300 }), None, None]);
}

#[test]
fn indexed_matching_skips_far_features_only() {
    let feats = vec![
        sidewalk(pt(50000, -5000), pt(50000, 5000)),
        sidewalk(pt(-5000, 900), pt(5000, 900)),
        sidewalk(pt(-5000, 1100), pt(5000, 1100)),
    ];
    let index = build_index(&feats);
    let m = match_indexed(pt(0, 0), &feats, &index, 750, 1000).unwrap();
    assert_eq!(m, FeaturePos { feature: 1, segment: 0, pt: pt(0, 900) });
    assert_eq!(match_indexed(pt(0, 0), &feats, &index, 750, 800), None);
    assert_eq!(match_indexed(pt(49000, 0), &feats, &index, 750, 1000).unwrap().feature, 0);
}
