use street_network::geometry::Pt;
use street_network::network::{
    Area, Building, IntersectionID, IntersectionType, RawRoad, RoadID,
};
use street_network::split_ways::split_up_roads;

fn pt(x: i64, y: i64) -> Pt {
    Pt { x, y }
}

fn plain_road(id: i64, pts: Vec<Pt>) -> RawRoad {
    RawRoad { osm_way_id: id, points: pts, tags: Vec::new() }
}

fn roundabout_road(id: i64, pts: Vec<Pt>) -> RawRoad {
    RawRoad {
        osm_way_id: id,
        points: pts,
        tags: vec![("junction".to_string(), "roundabout".to_string())],
    }
}

#[test]
fn splits_at_shared_point() {
    let roads = vec![
        plain_road(1, vec![pt(0, 0), pt(100, 0), pt(200, 0)]),
        plain_road(2, vec![pt(100, 0), pt(100, 100)]),
    ];
    let map = split_up_roads(roads, Vec::new(), Vec::new(), &Vec::new()).unwrap();

    // intersections sorted by point: (0,0), (100,0), (100,100), (200,0)
    assert_eq!(map.intersections.len(), 4);
    assert_eq!(map.intersections[0].point, pt(0, 0));
    assert_eq!(map.intersections[1].point, pt(100, 0));
    assert_eq!(map.intersections[2].point, pt(100, 100));
    assert_eq!(map.intersections[3].point, pt(200, 0));
    for (k, i) in map.intersections.iter().enumerate() {
        assert_eq!(i.id, IntersectionID(k));
        assert!(matches!(i.intersection_type, IntersectionType::StopSign));
        assert!(i.label.is_none());
    }

    // the first way is cut at the shared point; the second stays whole
    assert_eq!(map.roads.len(), 3);
    assert_eq!(map.roads[0].points, vec![pt(0, 0), pt(100, 0)]);
    assert_eq!(map.roads[0].i1, IntersectionID(0));
    assert_eq!(map.roads[0].i2, IntersectionID(1));
    assert_eq!(map.roads[1].points, vec![pt(100, 0), pt(200, 0)]);
    assert_eq!(map.roads[1].i1, IntersectionID(1));
    assert_eq!(map.roads[1].i2, IntersectionID(3));
    assert_eq!(map.roads[2].points, vec![pt(100, 0), pt(100, 100)]);
    assert_eq!(map.roads[2].i1, IntersectionID(1));
    assert_eq!(map.roads[2].i2, IntersectionID(2));
    for (k, r) in map.roads.iter().enumerate() {
        assert_eq!(r.id, RoadID(k));
        // every endpoint names an existing intersection
        assert!(r.i1.0 < map.intersections.len());
        assert!(r.i2.0 < map.intersections.len());
        assert_eq!(map.intersections[r.i1.0].point, r.points[0]);
        assert_eq!(map.intersections[r.i2.0].point, *r.points.last().unwrap());
    }
    assert_eq!(map.roads[0].osm_way_id, 1);
    assert_eq!(map.roads[1].osm_way_id, 1);
    assert_eq!(map.roads[2].osm_way_id, 2);
}

#[test]
fn roundabout_collapses_to_one_intersection() {
    let roads = vec![
        roundabout_road(9, vec![pt(100, 0), pt(0, 100), pt(-100, 0), pt(0, -100)]),
        plain_road(1, vec![pt(100, 0), pt(1000, 0)]),
        plain_road(2, vec![pt(0, 100), pt(0, 1000)]),
        plain_road(3, vec![pt(-100, 0), pt(-1000, 0)]),
    ];
    let elevation = vec![(pt(0, 0), 55)];
    let map = split_up_roads(roads, Vec::new(), Vec::new(), &elevation).unwrap();

    // the four-point roundabout becomes the single centre intersection
    let centre: Vec<_> = map.intersections.iter().filter(|i| i.point == pt(0, 0)).collect();
    assert_eq!(centre.len(), 1);
    assert_eq!(centre[0].elevation, 55);
    // none of the raw ring points is an intersection
    for ring in [pt(100, 0), pt(0, 100), pt(-100, 0), pt(0, -100)] {
        assert!(map.intersections.iter().all(|i| i.point != ring));
    }
    // centre plus the three outer endpoints
    assert_eq!(map.intersections.len(), 4);

    // each connecting way gains exactly one inserted point, at the end that
    // touched the ring
    assert_eq!(map.roads.len(), 3);
    assert_eq!(map.roads[0].points, vec![pt(0, 0), pt(100, 0), pt(1000, 0)]);
    assert_eq!(map.roads[1].points, vec![pt(0, 0), pt(0, 100), pt(0, 1000)]);
    assert_eq!(map.roads[2].points, vec![pt(0, 0), pt(-100, 0), pt(-1000, 0)]);
    for r in &map.roads {
        assert_eq!(map.intersections[r.i1.0].point, pt(0, 0));
    }
}

#[test]
fn roundabout_at_far_end_extends_the_far_end() {
    let roads = vec![
        roundabout_road(9, vec![pt(100, 0), pt(0, 100), pt(-100, 0), pt(0, -100)]),
        plain_road(1, vec![pt(1000, 0), pt(100, 0)]),
    ];
    let map = split_up_roads(roads, Vec::new(), Vec::new(), &Vec::new()).unwrap();
    assert_eq!(map.roads.len(), 1);
    assert_eq!(map.roads[0].points, vec![pt(1000, 0), pt(100, 0), pt(0, 0)]);
}

#[test]
fn way_crossing_roundabout_mid_span_is_fatal() {
    let roads = vec![
        roundabout_road(9, vec![pt(100, 0), pt(0, 100), pt(-100, 0), pt(0, -100)]),
        plain_road(7, vec![pt(1000, 0), pt(100, 0), pt(2000, 0)]),
    ];
    let err = match split_up_roads(roads, Vec::new(), Vec::new(), &Vec::new()) {
        Err(e) => e,
        Ok(_) => panic!("a way crossing a roundabout mid-span must be rejected"),
    };
    assert_eq!(err.osm_way_id, 7);
    assert_eq!(err.idx, 1);
    assert_eq!(err.len, 3);
}

#[test]
fn rerunning_on_identical_input_is_deterministic() {
    let build = || {
        vec![
            roundabout_road(9, vec![pt(100, 0), pt(0, 100), pt(-100, 0), pt(0, -100)]),
            plain_road(1, vec![pt(100, 0), pt(1000, 0), pt(2000, 0)]),
            plain_road(2, vec![pt(0, 100), pt(1000, 0), pt(0, 2000)]),
        ]
    };
    let m1 = split_up_roads(build(), Vec::new(), Vec::new(), &Vec::new()).unwrap();
    let m2 = split_up_roads(build(), Vec::new(), Vec::new(), &Vec::new()).unwrap();
    assert_eq!(m1.intersections.len(), m2.intersections.len());
    for (a, b) in m1.intersections.iter().zip(m2.intersections.iter()) {
        assert_eq!(a.id, b.id);
        assert_eq!(a.point, b.point);
        assert_eq!(a.elevation, b.elevation);
    }
    assert_eq!(m1.roads.len(), m2.roads.len());
    for (a, b) in m1.roads.iter().zip(m2.roads.iter()) {
        assert_eq!(a.id, b.id);
        assert_eq!(a.points, b.points);
        assert_eq!(a.i1, b.i1);
        assert_eq!(a.i2, b.i2);
    }
}

#[test]
fn buildings_and_areas_pass_through_untouched() {
    let buildings = vec![Building {
        osm_way_id: 5,
        points: vec![pt(1, 1), pt(2, 2)],
        tags: Vec::new(),
    }];
    let areas = vec![Area { osm_way_id: 6, points: vec![pt(3, 3), pt(4, 4)], tags: Vec::new() }];
    let roads = vec![plain_road(1, vec![pt(0, 0), pt(100, 0)])];
    let map = split_up_roads(roads, buildings, areas, &Vec::new()).unwrap();
    assert_eq!(map.buildings.len(), 1);
    assert_eq!(map.buildings[0].osm_way_id, 5);
    assert_eq!(map.buildings[0].points, vec![pt(1, 1), pt(2, 2)]);
    assert_eq!(map.areas.len(), 1);
    assert_eq!(map.areas[0].osm_way_id, 6);
    assert_eq!(map.areas[0].points, vec![pt(3, 3), pt(4, 4)]);
}

#[test]
fn non_roundabout_junction_tags_are_kept() {
    let mut r = plain_road(1, vec![pt(0, 0), pt(100, 0)]);
    r.tags.push(("junction".to_string(), "mini_roundabout".to_string()));
    let map = split_up_roads(vec![r], Vec::new(), Vec::new(), &Vec::new()).unwrap();
    // the way is not treated as a roundabout and survives whole
    assert_eq!(map.roads.len(), 1);
    assert_eq!(map.roads[0].tags.len(), 1);
    assert_eq!(map.roads[0].tags[0].0, "junction");
    assert_eq!(map.roads[0].tags[0].1, "mini_roundabout");
}
