use street_network::geometry::{polyline_len, pt_dist, Pt};
use street_network::network::{
    DrivingSide, Intersection, IntersectionID, IntersectionType, Lane, LaneID, LaneType, Road,
    RoadID, Turn, TurnType, Warning, WarningReason,
};
use street_network::walking_turns::{make_crosswalks, make_walking_turns};

fn pt(x: i64, y: i64) -> Pt {
    Pt { x, y }
}

fn intersection(id: usize, point: Pt, polygon: Vec<Pt>) -> Intersection {
    Intersection {
        id: IntersectionID(id),
        point,
        elevation: 0,
        intersection_type: IntersectionType::StopSign,
        label: None,
        polygon,
    }
}

fn sidewalk(id: usize, parent: usize, src: usize, dst: usize, points: Vec<Pt>) -> Lane {
    Lane {
        id: LaneID(id),
        parent: RoadID(parent),
        lane_type: LaneType::Sidewalk,
        width: 200,
        src_i: IntersectionID(src),
        dst_i: IntersectionID(dst),
        points,
    }
}

/// A road from intersection 0 outward to `far`, with one incoming sidewalk
/// (lane `in_id`) and one outgoing sidewalk (lane `out_id`).
fn road(id: usize, far: usize, in_id: usize, out_id: usize) -> Road {
    Road {
        id: RoadID(id),
        points: Vec::new(),
        i1: IntersectionID(0),
        i2: IntersectionID(far),
        osm_way_id: id as i64,
        tags: Vec::new(),
        lanes_fwd: vec![(LaneID(out_id), LaneType::Sidewalk)],
        lanes_back: vec![(LaneID(in_id), LaneType::Sidewalk)],
    }
}

fn check_distinct_ids(turns: &[Turn]) {
    for a in 0..turns.len() {
        for b in (a + 1)..turns.len() {
            assert!(turns[a].id != turns[b].id);
        }
    }
}

fn check_sibling_pairs(turns: &[Turn]) {
    assert_eq!(turns.len() % 2, 0);
    for pair in turns.chunks(2) {
        let (a, b) = (&pair[0], &pair[1]);
        assert_eq!(a.id.parent, b.id.parent);
        assert_eq!(a.id.src, b.id.dst);
        assert_eq!(a.id.dst, b.id.src);
        assert_eq!(a.turn_type, b.turn_type);
        let mut rev = a.geom.clone();
        rev.reverse();
        assert_eq!(b.geom, rev);
        assert!(!a.other_crosswalk_ids.contains(&a.id));
        assert!(!b.other_crosswalk_ids.contains(&b.id));
        if a.turn_type == TurnType::Crosswalk {
            assert!(a.other_crosswalk_ids.contains(&b.id));
            assert!(b.other_crosswalk_ids.contains(&a.id));
        }
    }
}

fn check_corner_lengths(turns: &[Turn]) {
    for t in turns {
        if t.turn_type == TurnType::SharedSidewalkCorner {
            assert!(t.geom.len() >= 2);
            let total = polyline_len(&t.geom);
            let straight = pt_dist(t.geom[0], *t.geom.last().unwrap());
            assert!(total <= 10 * straight);
        }
    }
}

#[test]
fn three_roads_with_sidewalks_make_twelve_turns() {
    let i = intersection(
        0,
        pt(0, 0),
        vec![pt(400, 400), pt(400, -400), pt(-400, -400), pt(-400, 400)],
    );
    let lanes = vec![
        sidewalk(0, 0, 1, 0, vec![pt(10000, 100), pt(300, 100)]),
        sidewalk(1, 0, 0, 1, vec![pt(300, -100), pt(10000, -100)]),
        sidewalk(2, 1, 2, 0, vec![pt(-100, 10000), pt(-100, 300)]),
        sidewalk(3, 1, 0, 2, vec![pt(100, 300), pt(100, 10000)]),
        sidewalk(4, 2, 3, 0, vec![pt(-10000, -100), pt(-300, -100)]),
        sidewalk(5, 2, 0, 3, vec![pt(-300, 100), pt(-10000, 100)]),
    ];
    let roads = vec![road(0, 1, 0, 1), road(1, 2, 2, 3), road(2, 3, 4, 5)];
    let mut warnings: Vec<Warning> = Vec::new();
    let turns = make_walking_turns(DrivingSide::Right, &i, &roads, &lanes, &mut warnings);

    assert_eq!(turns.len(), 12);
    let crosswalks = turns.iter().filter(|t| t.turn_type == TurnType::Crosswalk).count();
    let corners = turns.iter().filter(|t| t.turn_type == TurnType::SharedSidewalkCorner).count();
    assert_eq!(crosswalks, 6);
    assert_eq!(corners, 6);
    for t in &turns {
        assert_eq!(t.id.parent, IntersectionID(0));
    }
    check_sibling_pairs(&turns);
    check_corner_lengths(&turns);
    check_distinct_ids(&turns);
}

#[test]
fn sidewalk_free_neighbours_are_probed_three_steps_away() {
    // four roads east, north, west, south; west and south carry no
    // sidewalks at all, and the north road only an arriving one, so the
    // east sidewalk's crossing is probed all the way to three steps away
    // (outgoing first, then incoming)
    let i = intersection(0, pt(0, 0), Vec::new());
    let lanes = vec![
        sidewalk(0, 0, 1, 0, vec![pt(10000, 100), pt(300, 100)]),
        sidewalk(1, 0, 0, 1, vec![pt(300, -100), pt(10000, -100)]),
        sidewalk(2, 1, 2, 0, vec![pt(-100, 10000), pt(-100, 300)]),
    ];
    let bare = |id: usize, far: usize| Road {
        id: RoadID(id),
        points: Vec::new(),
        i1: IntersectionID(0),
        i2: IntersectionID(far),
        osm_way_id: id as i64,
        tags: Vec::new(),
        lanes_fwd: Vec::new(),
        lanes_back: Vec::new(),
    };
    let mut north = bare(1, 2);
    north.lanes_back = vec![(LaneID(2), LaneType::Sidewalk)];
    let roads = vec![road(0, 1, 0, 1), north, bare(2, 3), bare(3, 4)];
    let mut warnings: Vec<Warning> = Vec::new();
    let turns = make_walking_turns(DrivingSide::Right, &i, &roads, &lanes, &mut warnings);

    // east's own crossing, east's three-step fallback crossing to north's
    // arriving sidewalk, and the north-to-east corner
    assert_eq!(turns.len(), 6);
    let crosswalks = turns.iter().filter(|t| t.turn_type == TurnType::Crosswalk).count();
    assert_eq!(crosswalks, 4);
    assert!(turns.iter().any(|t| t.id.src == LaneID(0) && t.id.dst == LaneID(2)));
    check_sibling_pairs(&turns);
    check_corner_lengths(&turns);
    check_distinct_ids(&turns);
}

#[test]
fn degenerate_intersection_single_crossing_through_midpoints() {
    let i = intersection(
        0,
        pt(0, 0),
        vec![pt(400, 400), pt(400, -400), pt(-400, -400), pt(-400, 400)],
    );
    let lanes = vec![
        // west road: incoming sidewalk ends at (-300,100), outgoing starts at (-300,-100)
        sidewalk(0, 0, 1, 0, vec![pt(-10000, 100), pt(-300, 100)]),
        sidewalk(1, 0, 0, 1, vec![pt(-300, -100), pt(-10000, -100)]),
        // east road: incoming ends at (300,-100), outgoing starts at (300,100)
        sidewalk(2, 1, 2, 0, vec![pt(10000, -100), pt(300, -100)]),
        sidewalk(3, 1, 0, 2, vec![pt(300, 100), pt(10000, 100)]),
    ];
    let roads = vec![road(0, 1, 0, 1), road(1, 2, 2, 3)];
    let mut warnings: Vec<Warning> = Vec::new();
    let turns = make_walking_turns(DrivingSide::Right, &i, &roads, &lanes, &mut warnings);

    // one physical crossing (four movements) plus two corner pairs; no
    // per-road straight-across crosswalk
    assert_eq!(turns.len(), 8);
    let crosswalks: Vec<_> = turns.iter().filter(|t| t.turn_type == TurnType::Crosswalk).collect();
    assert_eq!(crosswalks.len(), 4);
    for t in &crosswalks {
        // every crossing movement runs through the two shared midpoints
        assert!(t.geom.contains(&pt(0, 100)));
        assert!(t.geom.contains(&pt(0, -100)));
    }
    let corners = turns.iter().filter(|t| t.turn_type == TurnType::SharedSidewalkCorner).count();
    assert_eq!(corners, 4);
    check_sibling_pairs(&turns);
    check_corner_lengths(&turns);
    check_distinct_ids(&turns);
}

#[test]
fn left_hand_traffic_also_makes_twelve_turns() {
    let i = intersection(
        0,
        pt(0, 0),
        vec![pt(400, 400), pt(400, -400), pt(-400, -400), pt(-400, 400)],
    );
    let lanes = vec![
        sidewalk(0, 0, 1, 0, vec![pt(10000, 100), pt(300, 100)]),
        sidewalk(1, 0, 0, 1, vec![pt(300, -100), pt(10000, -100)]),
        sidewalk(2, 1, 2, 0, vec![pt(-100, 10000), pt(-100, 300)]),
        sidewalk(3, 1, 0, 2, vec![pt(100, 300), pt(100, 10000)]),
        sidewalk(4, 2, 3, 0, vec![pt(-10000, -100), pt(-300, -100)]),
        sidewalk(5, 2, 0, 3, vec![pt(-300, 100), pt(-10000, 100)]),
    ];
    let roads = vec![road(0, 1, 0, 1), road(1, 2, 2, 3), road(2, 3, 4, 5)];
    let mut warnings: Vec<Warning> = Vec::new();
    let turns = make_walking_turns(DrivingSide::Left, &i, &roads, &lanes, &mut warnings);
    assert_eq!(turns.len(), 12);
    check_sibling_pairs(&turns);
    check_corner_lengths(&turns);
}

#[test]
fn dead_end_makes_one_corner_pair() {
    let i = intersection(0, pt(0, 0), Vec::new());
    let lanes = vec![
        sidewalk(0, 0, 1, 0, vec![pt(10000, 100), pt(300, 100)]),
        sidewalk(1, 0, 0, 1, vec![pt(300, -100), pt(10000, -100)]),
    ];
    let roads = vec![road(0, 1, 0, 1)];
    let mut warnings: Vec<Warning> = Vec::new();
    let turns = make_walking_turns(DrivingSide::Right, &i, &roads, &lanes, &mut warnings);
    assert_eq!(turns.len(), 2);
    assert_eq!(turns[0].turn_type, TurnType::SharedSidewalkCorner);
    assert_eq!(turns[0].geom, vec![pt(300, 100), pt(300, -100)]);
    assert_eq!(turns[1].geom, vec![pt(300, -100), pt(300, 100)]);
    assert!(warnings.is_empty());
    check_sibling_pairs(&turns);
    check_corner_lengths(&turns);
}

#[test]
fn dead_end_with_coincident_sidewalk_ends_warns_and_skips() {
    let i = intersection(0, pt(0, 0), Vec::new());
    let lanes = vec![
        sidewalk(0, 0, 1, 0, vec![pt(10000, 50), pt(300, 50)]),
        sidewalk(1, 0, 0, 1, vec![pt(300, 50), pt(10000, 50)]),
    ];
    let roads = vec![road(0, 1, 0, 1)];
    let mut warnings: Vec<Warning> = Vec::new();
    let turns = make_walking_turns(DrivingSide::Right, &i, &roads, &lanes, &mut warnings);
    assert!(turns.is_empty());
    assert_eq!(warnings.len(), 1);
    assert_eq!(warnings[0].reason, WarningReason::DegenerateGeometry);
}

#[test]
fn near_coincident_corner_collapses_smoothing_and_warns() {
    let i = intersection(0, pt(0, 0), Vec::new());
    let lanes = vec![
        sidewalk(0, 0, 1, 0, vec![pt(10000, 0), pt(300, 0)]),
        sidewalk(1, 0, 0, 1, vec![pt(300, 40), pt(10000, 40)]),
    ];
    let roads = vec![road(0, 1, 0, 1)];
    let mut warnings: Vec<Warning> = Vec::new();
    let turns = make_walking_turns(DrivingSide::Right, &i, &roads, &lanes, &mut warnings);
    assert_eq!(turns.len(), 2);
    assert_eq!(turns[0].geom, vec![pt(300, 0), pt(300, 40)]);
    assert!(warnings.iter().any(|w| w.reason == WarningReason::SmoothingCollapsed));
}

#[test]
fn exploding_boundary_trace_falls_back_to_baseline() {
    // the boundary walk from one corner to the other goes the long way
    // around a huge polygon, so the traced path is discarded
    let i = intersection(
        0,
        pt(0, 0),
        vec![
            pt(300, -200),
            pt(300, -5000),
            pt(5000, -5000),
            pt(5000, 5000),
            pt(300, 5000),
            pt(300, 200),
        ],
    );
    let lanes = vec![
        sidewalk(0, 0, 1, 0, vec![pt(1000, 100), pt(300, 100)]),
        sidewalk(1, 0, 0, 1, vec![pt(300, -100), pt(1000, -100)]),
    ];
    let roads = vec![road(0, 1, 0, 1)];
    let mut warnings: Vec<Warning> = Vec::new();
    let turns = make_walking_turns(DrivingSide::Right, &i, &roads, &lanes, &mut warnings);
    assert_eq!(turns.len(), 2);
    assert_eq!(turns[0].geom, vec![pt(300, 100), pt(300, -100)]);
    assert!(warnings.iter().any(|w| w.reason == WarningReason::ExcessiveLength));
    check_corner_lengths(&turns);
}

#[test]
fn duplicate_boundary_trace_falls_back_to_baseline() {
    let i = intersection(
        0,
        pt(0, 0),
        vec![pt(300, -200), pt(600, 0), pt(900, 900), pt(600, 0), pt(300, 200)],
    );
    let lanes = vec![
        sidewalk(0, 0, 1, 0, vec![pt(1000, 100), pt(300, 100)]),
        sidewalk(1, 0, 0, 1, vec![pt(300, -100), pt(1000, -100)]),
    ];
    let roads = vec![road(0, 1, 0, 1)];
    let mut warnings: Vec<Warning> = Vec::new();
    let turns = make_walking_turns(DrivingSide::Right, &i, &roads, &lanes, &mut warnings);
    assert_eq!(turns.len(), 2);
    assert_eq!(turns[0].geom, vec![pt(300, 100), pt(300, -100)]);
    assert!(warnings.iter().any(|w| w.reason == WarningReason::DuplicateGeometry));
}

#[test]
fn crosswalk_pair_has_exact_jutting_geometry() {
    let l1 = sidewalk(0, 0, 1, 0, vec![pt(1000, 100), pt(300, 100)]);
    let l2 = sidewalk(1, 0, 0, 1, vec![pt(300, -100), pt(1000, -100)]);
    let ts = make_crosswalks(IntersectionID(0), &l1, &l2).unwrap();
    assert_eq!(ts.len(), 2);
    assert_eq!(ts[0].id.src, LaneID(0));
    assert_eq!(ts[0].id.dst, LaneID(1));
    assert_eq!(ts[0].turn_type, TurnType::Crosswalk);
    assert_eq!(
        ts[0].geom,
        vec![pt(300, 100), pt(200, 100), pt(200, -100), pt(300, -100)]
    );
    assert_eq!(
        ts[1].geom,
        vec![pt(300, -100), pt(200, -100), pt(200, 100), pt(300, 100)]
    );
    assert_eq!(ts[0].other_crosswalk_ids, vec![ts[1].id]);
    assert_eq!(ts[1].other_crosswalk_ids, vec![ts[0].id]);
    check_sibling_pairs(&ts);
}

#[test]
fn coincident_endpoints_make_no_crosswalk() {
    let l1 = sidewalk(0, 0, 1, 0, vec![pt(1000, 0), pt(300, 0)]);
    let l2 = sidewalk(1, 0, 0, 1, vec![pt(300, 0), pt(1000, 0)]);
    assert!(make_crosswalks(IntersectionID(0), &l1, &l2).is_none());
}
