//! Splitting raw ways into a normalized network of intersections and bounded
//! road segments.
//!
//! The construction runs in phases over an immutable snapshot: roundabout
//! ways are collapsed to their centroid, surviving ways are extended through
//! the collapsed point, intersection points are detected by endpoint and
//! occurrence counting, intersections are materialized in sorted point order,
//! and finally every way is cut at each intersection it visits.

use crate::geometry::{
    div_i128, div_trunc, pt_input_ok, pts_input_ok, Pt, MAX_INPUT_COORD,
};
use crate::network::{
    raw_road_ok, spec_is_roundabout, is_roundabout, Area, Building, Intersection, IntersectionID,
    IntersectionType, RawRoad, Road, RoadID, RoadMap, TopologyError,
};
use vstd::prelude::*;

verus! {

// ------------------------------------------------------------------
// Roundabout extraction
// ------------------------------------------------------------------

pub open spec fn sum_x(s: Seq<Pt>) -> int
    decreases s.len(),
{
    if s.len() == 0 {
        0
    } else {
        sum_x(s.drop_last()) + s.last().x
    }
}

pub open spec fn sum_y(s: Seq<Pt>) -> int
    decreases s.len(),
{
    if s.len() == 0 {
        0
    } else {
        sum_y(s.drop_last()) + s.last().y
    }
}

/// The centroid of a run of points: the coordinate-wise average, rounded
/// toward zero (meaningful for a nonempty run).
pub open spec fn centroid(s: Seq<Pt>) -> Pt {
    Pt {
        x: div_trunc(sum_x(s), s.len() as int) as i64,
        y: div_trunc(sum_y(s), s.len() as int) as i64,
    }
}

/// Computes the centroid of a nonempty run of in-range points.
pub fn centroid_of(pts: &Vec<Pt>) -> (c: Pt)
    requires
        pts@.len() >= 1,
        pts_input_ok(pts@),
    ensures
        c == centroid(pts@),
        pt_input_ok(c),
{
    let mut ax: i128 = 0;
    let mut ay: i128 = 0;
    let mut i: usize = 0;
    while i < pts.len()
        invariant
            0 <= i <= pts@.len(),
            pts_input_ok(pts@),
            ax as int == sum_x(pts@.take(i as int)),
            ay as int == sum_y(pts@.take(i as int)),
            -(i as int) * MAX_INPUT_COORD <= ax as int <= (i as int) * MAX_INPUT_COORD,
            -(i as int) * MAX_INPUT_COORD <= ay as int <= (i as int) * MAX_INPUT_COORD,
        decreases pts@.len() - i,
    {
        proof {
            assert(pts@.take(i + 1).drop_last() =~= pts@.take(i as int));
            assert((i as int) * MAX_INPUT_COORD + MAX_INPUT_COORD == (i + 1) as int
                * MAX_INPUT_COORD) by (nonlinear_arith);
            assert((i as int) * MAX_INPUT_COORD <= 20_000_000_000_000_000_000_000_000_000)
                by (nonlinear_arith)
                requires
                    0 <= i as int <= 18_446_744_073_709_551_616,
            ;
        }
        ax = ax + pts[i].x as i128;
        ay = ay + pts[i].y as i128;
        i = i + 1;
    }
    let n: i128 = pts.len() as i128;
    proof {
        assert(pts@.take(pts@.len() as int) =~= pts@);
        vstd::arithmetic::mul::lemma_mul_is_commutative(n as int, MAX_INPUT_COORD as int);
        lemma_centroid_in_range(sum_x(pts@), n as int);
        lemma_centroid_in_range(sum_y(pts@), n as int);
    }
    let cx = div_i128(ax, n);
    let cy = div_i128(ay, n);
    Pt { x: cx as i64, y: cy as i64 }
}

proof fn lemma_centroid_in_range(s: int, n: int)
    requires
        n >= 1,
        -MAX_INPUT_COORD * n <= s <= MAX_INPUT_COORD * n,
    ensures
        -MAX_INPUT_COORD <= div_trunc(s, n) <= MAX_INPUT_COORD,
{
    let m = MAX_INPUT_COORD as int;
    assert(-(m * n) <= s && s <= m * n) by (nonlinear_arith)
        requires
            -MAX_INPUT_COORD * n <= s <= MAX_INPUT_COORD * n,
            m == MAX_INPUT_COORD as int,
    ;
    crate::geometry::lemma_div_trunc_bound(s, n, m);
}

/// The ways that survive roundabout removal, in input order.
pub open spec fn kept_of(roads: Seq<RawRoad>) -> Seq<RawRoad>
    decreases roads.len(),
{
    if roads.len() == 0 {
        Seq::empty()
    } else if spec_is_roundabout(roads[0].tags@) {
        kept_of(roads.drop_first())
    } else {
        seq![roads[0]] + kept_of(roads.drop_first())
    }
}

/// The remap entries one roundabout way contributes: every point on the way
/// maps to the way's centroid.
pub open spec fn pairs_for(r: RawRoad) -> Seq<(Pt, Pt)> {
    Seq::new(r.points@.len(), |i: int| (r.points@[i], centroid(r.points@)))
}

/// The roundabout remap table: entries of later ways take precedence.
pub open spec fn remap_of(roads: Seq<RawRoad>) -> Seq<(Pt, Pt)>
    decreases roads.len(),
{
    if roads.len() == 0 {
        Seq::empty()
    } else if spec_is_roundabout(roads[0].tags@) {
        pairs_for(roads[0]) + remap_of(roads.drop_first())
    } else {
        remap_of(roads.drop_first())
    }
}

/// The centre recorded for `p`, taking the latest entry when several ways
/// share a point.
pub open spec fn lookup_last(m: Seq<(Pt, Pt)>, p: Pt) -> Option<Pt>
    decreases m.len(),
{
    if m.len() == 0 {
        None
    } else if m.last().0 == p {
        Some(m.last().1)
    } else {
        lookup_last(m.drop_last(), p)
    }
}

pub open spec fn remap_entries_ok(m: Seq<(Pt, Pt)>) -> bool {
    forall|j: int| 0 <= j < m.len() ==> pt_input_ok(#[trigger] m[j].0) && pt_input_ok(m[j].1)
}

pub proof fn lemma_lookup_last_in_range(m: Seq<(Pt, Pt)>, p: Pt)
    requires
        remap_entries_ok(m),
        lookup_last(m, p) is Some,
    ensures
        pt_input_ok(lookup_last(m, p)->Some_0),
    decreases m.len(),
{
    if m.len() > 0 && m.last().0 != p {
        lemma_lookup_last_in_range(m.drop_last(), p);
    }
}

fn remap_lookup(m: &Vec<(Pt, Pt)>, p: Pt) -> (r: Option<Pt>)
    ensures
        r == lookup_last(m@, p),
{
    let mut i: usize = m.len();
    proof {
        assert(m@.take(m@.len() as int) =~= m@);
    }
    while i > 0
        invariant
            0 <= i <= m@.len(),
            lookup_last(m@, p) == lookup_last(m@.take(i as int), p),
        decreases i,
    {
        proof {
            assert(m@.take(i as int).last() == m@[i - 1]);
            assert(m@.take(i as int).drop_last() =~= m@.take(i - 1));
        }
        if m[i - 1].0.x == p.x && m[i - 1].0.y == p.y {
            return Some(m[i - 1].1);
        }
        i = i - 1;
    }
    None
}

/// Removes every roundabout way, returning the surviving ways and the remap
/// table from roundabout points to their way's centroid.
pub fn extract_roundabouts(roads: Vec<RawRoad>) -> (r: (Vec<RawRoad>, Vec<(Pt, Pt)>))
    requires
        forall|k: int| 0 <= k < roads@.len() ==> raw_road_ok(#[trigger] roads@[k]),
    ensures
        r.0@ == kept_of(roads@),
        r.1@ == remap_of(roads@),
        remap_entries_ok(r.1@),
        forall|k: int| 0 <= k < r.0@.len() ==> raw_road_ok(#[trigger] r.0@[k]),
{
    let ghost orig = roads@;
    let mut rest = roads;
    let mut kept: Vec<RawRoad> = Vec::new();
    let mut remap: Vec<(Pt, Pt)> = Vec::new();
    proof {
        assert(kept@ + kept_of(rest@) =~= kept_of(orig));
    }
    while rest.len() > 0
        invariant
            kept_of(orig) == kept@ + kept_of(rest@),
            remap_of(orig) == remap@ + remap_of(rest@),
            remap_entries_ok(remap@),
            forall|k: int| 0 <= k < rest@.len() ==> raw_road_ok(#[trigger] rest@[k]),
            forall|k: int| 0 <= k < kept@.len() ==> raw_road_ok(#[trigger] kept@[k]),
        decreases rest@.len(),
    {
        let ghost before = rest@;
        let r = rest.remove(0);
        proof {
            assert(rest@ =~= before.drop_first());
            assert(r == before[0]);
        }
        if is_roundabout(&r) {
            let c = centroid_of(&r.points);
            let ghost remap_before = remap@;
            let mut i: usize = 0;
            while i < r.points.len()
                invariant
                    0 <= i <= r.points@.len(),
                    raw_road_ok(r),
                    c == centroid(r.points@),
                    pt_input_ok(c),
                    remap@ =~= remap_before + pairs_for(r).take(i as int),
                    remap_entries_ok(remap@),
                decreases r.points@.len() - i,
            {
                remap.push((r.points[i], c));
                proof {
                    assert(remap@.drop_last() =~= remap_before + pairs_for(r).take(i as int));
                    assert(remap@ =~= remap_before + pairs_for(r).take(i + 1));
                }
                i = i + 1;
            }
            proof {
                assert(pairs_for(r).take(r.points@.len() as int) =~= pairs_for(r));
                assert(remap@ =~= remap_before + pairs_for(r));
                assert(remap@ + remap_of(rest@) =~= remap_of(orig));
            }
        } else {
            kept.push(r);
            proof {
                assert(kept@ + kept_of(rest@) =~= kept_of(orig));
            }
        }
    }
    proof {
        assert(kept_of(rest@) =~= Seq::<RawRoad>::empty());
        assert(remap_of(rest@) =~= Seq::<(Pt, Pt)>::empty());
        assert(kept@ =~= kept@ + kept_of(rest@));
        assert(remap@ =~= remap@ + remap_of(rest@));
    }
    (kept, remap)
}

// ------------------------------------------------------------------
// Endpoint remap
// ------------------------------------------------------------------

/// A surviving way after its roundabout-touching ends were extended, with
/// flags for which end gained the inserted centre point.
pub struct RemappedRoad {
    pub road: RawRoad,
    pub added_start: bool,
    pub added_end: bool,
}

pub open spec fn spec_added_start(pts: Seq<Pt>, m: Seq<(Pt, Pt)>) -> bool {
    lookup_last(m, pts[0]) is Some
}

pub open spec fn spec_added_end(pts: Seq<Pt>, m: Seq<(Pt, Pt)>) -> bool {
    lookup_last(m, pts.last()) is Some
}

/// A way's points after extension: the centre recorded for its first point
/// is prepended and the centre recorded for its last point is appended.
pub open spec fn remapped_pts(pts: Seq<Pt>, m: Seq<(Pt, Pt)>) -> Seq<Pt> {
    let pre = match lookup_last(m, pts[0]) {
        Some(c) => seq![c],
        None => Seq::<Pt>::empty(),
    };
    let post = match lookup_last(m, pts.last()) {
        Some(c) => seq![c],
        None => Seq::<Pt>::empty(),
    };
    pre + pts + post
}

/// Extends every way whose first or last point lies on a removed roundabout
/// so that it routes through the roundabout's single representative point.
pub fn remap_endpoints(kept: Vec<RawRoad>, m: &Vec<(Pt, Pt)>) -> (r: Vec<RemappedRoad>)
    requires
        forall|k: int| 0 <= k < kept@.len() ==> raw_road_ok(#[trigger] kept@[k]),
        remap_entries_ok(m@),
    ensures
        r@.len() == kept@.len(),
        forall|k: int|
            0 <= k < kept@.len() ==> {
                &&& (#[trigger] r@[k]).road.points@ == remapped_pts(kept@[k].points@, m@)
                &&& r@[k].added_start == spec_added_start(kept@[k].points@, m@)
                &&& r@[k].added_end == spec_added_end(kept@[k].points@, m@)
                &&& r@[k].road.tags == kept@[k].tags
                &&& r@[k].road.osm_way_id == kept@[k].osm_way_id
                &&& r@[k].road.points@.len() >= 2
                &&& pts_input_ok(r@[k].road.points@)
            },
{
    let ghost orig = kept@;
    let mut rest = kept;
    let mut out: Vec<RemappedRoad> = Vec::new();
    while rest.len() > 0
        invariant
            out@.len() + rest@.len() == orig.len(),
            rest@ =~= orig.skip(out@.len() as int),
            remap_entries_ok(m@),
            forall|k: int| 0 <= k < orig.len() ==> raw_road_ok(#[trigger] orig[k]),
            forall|k: int|
                0 <= k < out@.len() ==> {
                    &&& (#[trigger] out@[k]).road.points@ == remapped_pts(orig[k].points@, m@)
                    &&& out@[k].added_start == spec_added_start(orig[k].points@, m@)
                    &&& out@[k].added_end == spec_added_end(orig[k].points@, m@)
                    &&& out@[k].road.tags == orig[k].tags
                    &&& out@[k].road.osm_way_id == orig[k].osm_way_id
                    &&& out@[k].road.points@.len() >= 2
                    &&& pts_input_ok(out@[k].road.points@)
                },
        decreases rest@.len(),
    {
        let ghost before = rest@;
        let ghost k = out@.len() as int;
        let mut road = rest.remove(0);
        proof {
            assert(rest@ =~= before.drop_first());
            assert(road == orig[k]);
            assert(raw_road_ok(orig[k]));
        }
        let first = road.points[0];
        let last = road.points[road.points.len() - 1];
        let added_start = match remap_lookup(m, first) {
            Some(c) => {
                proof {
                    lemma_lookup_last_in_range(m@, first);
                }
                road.points.insert(0, c);
                true
            },
            None => false,
        };
        let added_end = match remap_lookup(m, last) {
            Some(c) => {
                proof {
                    lemma_lookup_last_in_range(m@, last);
                }
                road.points.push(c);
                true
            },
            None => false,
        };
        proof {
            assert(road.points@ =~= remapped_pts(orig[k].points@, m@));
        }
        out.push(RemappedRoad { road, added_start, added_end });
        proof {
            assert(rest@ =~= orig.skip(out@.len() as int));
        }
    }
    out
}

// ------------------------------------------------------------------
// Intersection detection
// ------------------------------------------------------------------

/// The point runs of a list of remapped roads.
pub open spec fn pts_of(rs: Seq<RemappedRoad>) -> Seq<Seq<Pt>> {
    rs.map_values(|rr: RemappedRoad| rr.road.points@)
}

/// How often `p` occurs in one run of points.
pub open spec fn count_in(pts: Seq<Pt>, p: Pt) -> int
    decreases pts.len(),
{
    if pts.len() == 0 {
        0
    } else {
        count_in(pts.drop_last(), p) + if pts.last() == p {
            1int
        } else {
            0int
        }
    }
}

/// How often `p` occurs across all runs.
pub open spec fn count_all(ptss: Seq<Seq<Pt>>, p: Pt) -> int
    decreases ptss.len(),
{
    if ptss.len() == 0 {
        0
    } else {
        count_all(ptss.drop_last(), p) + count_in(ptss.last(), p)
    }
}

/// Whether `p` is the first or last point of some run.
pub open spec fn is_endpoint_pt(ptss: Seq<Seq<Pt>>, p: Pt) -> bool {
    exists|k: int|
        0 <= k < ptss.len() && ptss[k].len() > 0 && (ptss[k][0] == p || ptss[k].last() == p)
}

/// A point becomes an intersection exactly when it ends some way or is
/// visited at least twice across all ways.
pub open spec fn is_intersection_pt(ptss: Seq<Seq<Pt>>, p: Pt) -> bool {
    is_endpoint_pt(ptss, p) || count_all(ptss, p) >= 2
}

/// Whether `p` occurs at all in some run.
pub open spec fn occurs_in(ptss: Seq<Seq<Pt>>, p: Pt) -> bool {
    exists|k: int| 0 <= k < ptss.len() && ptss[k].contains(p)
}

proof fn lemma_count_in_occurs(pts: Seq<Pt>, p: Pt)
    requires
        count_in(pts, p) >= 1,
    ensures
        pts.contains(p),
    decreases pts.len(),
{
    if pts.len() > 0 {
        if pts.last() == p {
            assert(pts[pts.len() - 1] == p);
        } else {
            lemma_count_in_occurs(pts.drop_last(), p);
            let j = choose|j: int| 0 <= j < pts.drop_last().len() && pts.drop_last()[j] == p;
            assert(pts[j] == p);
        }
    }
}

proof fn lemma_count_in_nonneg(pts: Seq<Pt>, p: Pt)
    ensures
        count_in(pts, p) >= 0,
    decreases pts.len(),
{
    if pts.len() > 0 {
        lemma_count_in_nonneg(pts.drop_last(), p);
    }
}

proof fn lemma_count_all_occurs(ptss: Seq<Seq<Pt>>, p: Pt)
    requires
        count_all(ptss, p) >= 1,
    ensures
        occurs_in(ptss, p),
    decreases ptss.len(),
{
    if ptss.len() > 0 {
        lemma_count_in_nonneg(ptss.last(), p);
        if count_in(ptss.last(), p) >= 1 {
            lemma_count_in_occurs(ptss.last(), p);
            assert(ptss[ptss.len() - 1].contains(p));
        } else {
            lemma_count_all_occurs(ptss.drop_last(), p);
            let k = choose|k: int|
                0 <= k < ptss.drop_last().len() && ptss.drop_last()[k].contains(p);
            assert(ptss[k].contains(p));
        }
    }
}

/// An intersection point occurs somewhere in the ways.
pub proof fn lemma_intersection_pt_occurs(ptss: Seq<Seq<Pt>>, p: Pt)
    requires
        is_intersection_pt(ptss, p),
    ensures
        occurs_in(ptss, p),
{
    if is_endpoint_pt(ptss, p) {
        let k = choose|k: int|
            0 <= k < ptss.len() && ptss[k].len() > 0 && (ptss[k][0] == p || ptss[k].last() == p);
        if ptss[k][0] == p {
            assert(ptss[k].contains(p));
        } else {
            assert(ptss[k][ptss[k].len() - 1] == p);
            assert(ptss[k].contains(p));
        }
    } else {
        lemma_count_all_occurs(ptss, p);
    }
}

/// Whether `p` occurs at least twice across all the remapped ways.
fn occurs_twice(rs: &Vec<RemappedRoad>, p: Pt) -> (b: bool)
    ensures
        b == (count_all(pts_of(rs@), p) >= 2),
{
    let ghost ptss = pts_of(rs@);
    let mut c: usize = 0;
    let mut k: usize = 0;
    while k < rs.len()
        invariant
            0 <= k <= rs@.len(),
            ptss == pts_of(rs@),
            c <= 2,
            if count_all(ptss.take(k as int), p) >= 2 {
                c == 2
            } else {
                c as int == count_all(ptss.take(k as int), p)
            },
        decreases rs@.len() - k,
    {
        let ghost cbase = count_all(ptss.take(k as int), p);
        let pts = &rs[k].road.points;
        let mut j: usize = 0;
        while j < pts.len()
            invariant
                0 <= j <= pts@.len(),
                pts@ == ptss[k as int],
                0 <= k < ptss.len(),
                c <= 2,
                cbase == count_all(ptss.take(k as int), p),
                if cbase + count_in(pts@.take(j as int), p) >= 2 {
                    c == 2
                } else {
                    c as int == cbase + count_in(pts@.take(j as int), p)
                },
            decreases pts@.len() - j,
        {
            proof {
                assert(pts@.take(j + 1).drop_last() =~= pts@.take(j as int));
                lemma_count_in_nonneg(pts@.take(j as int), p);
            }
            if pts[j].x == p.x && pts[j].y == p.y {
                if c < 2 {
                    c = c + 1;
                }
            }
            j = j + 1;
        }
        proof {
            assert(pts@.take(pts@.len() as int) =~= pts@);
            assert(ptss.take(k + 1).drop_last() =~= ptss.take(k as int));
            assert(ptss.take(k + 1).last() == ptss[k as int]);
        }
        k = k + 1;
    }
    proof {
        assert(ptss.take(ptss.len() as int) =~= ptss);
    }
    c >= 2
}

fn is_endpoint(rs: &Vec<RemappedRoad>, p: Pt) -> (b: bool)
    requires
        forall|k: int| 0 <= k < rs@.len() ==> (#[trigger] rs@[k]).road.points@.len() >= 1,
    ensures
        b == is_endpoint_pt(pts_of(rs@), p),
{
    let ghost ptss = pts_of(rs@);
    let mut k: usize = 0;
    while k < rs.len()
        invariant
            0 <= k <= rs@.len(),
            ptss == pts_of(rs@),
            forall|k2: int| 0 <= k2 < rs@.len() ==> (#[trigger] rs@[k2]).road.points@.len() >= 1,
            forall|k2: int|
                0 <= k2 < k ==> ((#[trigger] ptss[k2])[0] != p && ptss[k2].last() != p),
        decreases rs@.len() - k,
    {
        let pts = &rs[k].road.points;
        let first = pts[0];
        let last = pts[pts.len() - 1];
        proof {
            assert(ptss[k as int] == rs@[k as int].road.points@);
            assert(first == ptss[k as int][0]);
            assert(last == ptss[k as int].last());
        }
        if (first.x == p.x && first.y == p.y) || (last.x == p.x && last.y == p.y) {
            proof {
                assert(ptss[k as int][0] == p || ptss[k as int].last() == p);
            }
            return true;
        }
        k = k + 1;
    }
    false
}

/// Decides whether `p` is an intersection of the remapped network.
pub fn is_intersection(rs: &Vec<RemappedRoad>, p: Pt) -> (b: bool)
    requires
        forall|k: int| 0 <= k < rs@.len() ==> (#[trigger] rs@[k]).road.points@.len() >= 1,
    ensures
        b == is_intersection_pt(pts_of(rs@), p),
{
    if is_endpoint(rs, p) {
        true
    } else {
        occurs_twice(rs, p)
    }
}

// ------------------------------------------------------------------
// Topology check
// ------------------------------------------------------------------

/// A way hits a collapsed roundabout point at position `j`, and `j` is
/// neither an end of the way nor the position just inside an extended end.
pub open spec fn road_violation_at(
    pts: Seq<Pt>,
    a_s: bool,
    a_e: bool,
    m: Seq<(Pt, Pt)>,
    j: int,
) -> bool {
    &&& 0 < j < pts.len() - 1
    &&& lookup_last(m, pts[j]) is Some
    &&& !(j == 1 && a_s)
    &&& !(j == pts.len() - 2 && a_e)
}

pub open spec fn rr_has_violation(rr: RemappedRoad, m: Seq<(Pt, Pt)>) -> bool {
    exists|j: int| road_violation_at(rr.road.points@, rr.added_start, rr.added_end, m, j)
}

pub open spec fn any_violation(rs: Seq<RemappedRoad>, m: Seq<(Pt, Pt)>) -> bool {
    exists|k: int| 0 <= k < rs.len() && rr_has_violation(rs[k], m)
}

/// Checks that no way crosses a roundabout mid-span; reports the first
/// offending position otherwise.
pub fn check_topology(rs: &Vec<RemappedRoad>, m: &Vec<(Pt, Pt)>) -> (res: Result<
    (),
    TopologyError,
>)
    requires
        forall|k: int| 0 <= k < rs@.len() ==> (#[trigger] rs@[k]).road.points@.len() >= 2,
    ensures
        res is Ok <==> !any_violation(rs@, m@),
        match res {
            Ok(_) => true,
            Err(e) => exists|k: int|
                {
                    &&& 0 <= k < rs@.len()
                    &&& road_violation_at(
                        (#[trigger] rs@[k]).road.points@,
                        rs@[k].added_start,
                        rs@[k].added_end,
                        m@,
                        e.idx as int,
                    )
                    &&& e.osm_way_id == rs@[k].road.osm_way_id
                    &&& e.len == rs@[k].road.points@.len()
                },
        },
{
    let mut k: usize = 0;
    while k < rs.len()
        invariant
            0 <= k <= rs@.len(),
            forall|k2: int| 0 <= k2 < rs@.len() ==> (#[trigger] rs@[k2]).road.points@.len() >= 2,
            forall|k2: int| 0 <= k2 < k ==> !rr_has_violation(#[trigger] rs@[k2], m@),
        decreases rs@.len() - k,
    {
        let rr = &rs[k];
        let n = rr.road.points.len();
        let mut j: usize = 1;
        while j < n - 1
            invariant
                1 <= j <= n,
                n == rr.road.points@.len(),
                n >= 2,
                rr == rs@[k as int],
                0 <= k < rs@.len(),
                forall|j2: int|
                    0 < j2 < j ==> !road_violation_at(
                        rs@[k as int].road.points@,
                        rs@[k as int].added_start,
                        rs@[k as int].added_end,
                        m@,
                        j2,
                    ),
            decreases n - j,
        {
            let hit = remap_lookup(m, rr.road.points[j]);
            if hit.is_some() {
                let skip_start = j == 1 && rr.added_start;
                let skip_end = j == n - 2 && rr.added_end;
                if !skip_start && !skip_end {
                    proof {
                        assert(road_violation_at(
                            rs@[k as int].road.points@,
                            rs@[k as int].added_start,
                            rs@[k as int].added_end,
                            m@,
                            j as int,
                        ));
                        assert(rr_has_violation(rs@[k as int], m@));
                        assert(any_violation(rs@, m@));
                    }
                    return Err(
                        TopologyError { osm_way_id: rr.road.osm_way_id, idx: j, len: n },
                    );
                }
            }
            j = j + 1;
        }
        proof {
            assert forall|j2: int| !road_violation_at(
                rs@[k as int].road.points@,
                rs@[k as int].added_start,
                rs@[k as int].added_end,
                m@,
                j2,
            ) by {
                if 0 < j2 < rs@[k as int].road.points@.len() - 1 {
                    assert(j2 < j);
                }
            }
        }
        k = k + 1;
    }
    Ok(())
}

// ------------------------------------------------------------------
// Sorted intersection list
// ------------------------------------------------------------------

/// Lexicographic order on points.
pub open spec fn pt_lt(a: Pt, b: Pt) -> bool {
    a.x < b.x || (a.x == b.x && a.y < b.y)
}

/// Strictly sorted in lexicographic point order (hence duplicate-free).
pub open spec fn sorted_lex(s: Seq<Pt>) -> bool {
    forall|i: int, j: int| 0 <= i < j < s.len() ==> pt_lt(#[trigger] s[i], #[trigger] s[j])
}

/// Two strictly sorted sequences with the same members are the same
/// sequence.
pub proof fn lemma_sorted_unique(a: Seq<Pt>, b: Seq<Pt>)
    requires
        sorted_lex(a),
        sorted_lex(b),
        forall|p: Pt| a.contains(p) <==> b.contains(p),
    ensures
        a == b,
    decreases a.len(),
{
    if a.len() == 0 {
        if b.len() > 0 {
            assert(b.contains(b[0]));
            assert(a.contains(b[0]));
        }
        assert(a =~= b);
    } else {
        assert(a.contains(a.last()));
        assert(b.contains(a.last()));
        if b.len() == 0 {
            assert(!b.contains(a.last()));
        }
        assert(b.contains(b.last()));
        assert(a.contains(b.last()));
        let ia = choose|i: int| 0 <= i < a.len() && a[i] == b.last();
        let ib = choose|i: int| 0 <= i < b.len() && b[i] == a.last();
        assert(a.last() == b.last()) by {
            if pt_lt(a.last(), b.last()) {
                // a.last() is the maximum of a, but b.last() is a member of a
                assert(a[ia] == b.last());
                if ia < a.len() - 1 {
                    assert(pt_lt(a[ia], a[a.len() - 1]));
                }
            } else if pt_lt(b.last(), a.last()) {
                assert(b[ib] == a.last());
                if ib < b.len() - 1 {
                    assert(pt_lt(b[ib], b[b.len() - 1]));
                }
            } else {
                assert(a.last() == b.last());
            }
        }
        let a2 = a.drop_last();
        let b2 = b.drop_last();
        assert forall|p: Pt| a2.contains(p) <==> b2.contains(p) by {
            if a2.contains(p) {
                let i = choose|i: int| 0 <= i < a2.len() && a2[i] == p;
                assert(a[i] == p);
                assert(pt_lt(a[i], a.last()));
                assert(a.contains(p));
                assert(b.contains(p));
                let j = choose|j: int| 0 <= j < b.len() && b[j] == p;
                if j == b.len() - 1 {
                    assert(p == b.last());
                    assert(pt_lt(p, p) == false);
                }
                assert(b2[j] == p);
                assert(b2.contains(p));
            }
            if b2.contains(p) {
                let i = choose|i: int| 0 <= i < b2.len() && b2[i] == p;
                assert(b[i] == p);
                assert(pt_lt(b[i], b.last()));
                assert(b.contains(p));
                assert(a.contains(p));
                let j = choose|j: int| 0 <= j < a.len() && a[j] == p;
                if j == a.len() - 1 {
                    assert(p == a.last());
                    assert(pt_lt(p, p) == false);
                }
                assert(a2[j] == p);
                assert(a2.contains(p));
            }
        }
        lemma_sorted_unique(a2, b2);
        assert(a =~= a2.push(a.last()));
        assert(b =~= b2.push(b.last()));
        assert(a =~= b);
    }
}

fn vec_contains_pt(v: &Vec<Pt>, p: Pt) -> (b: bool)
    ensures
        b == v@.contains(p),
{
    let mut i: usize = 0;
    while i < v.len()
        invariant
            0 <= i <= v@.len(),
            forall|j: int| 0 <= j < i ==> v@[j] != p,
        decreases v@.len() - i,
    {
        if v[i].x == p.x && v[i].y == p.y {
            assert(v@[i as int] == p);
            return true;
        }
        i = i + 1;
    }
    false
}

/// Inserts a fresh point into a strictly sorted list, keeping it sorted.
fn insert_sorted(v: &mut Vec<Pt>, p: Pt)
    requires
        sorted_lex(old(v)@),
        !old(v)@.contains(p),
    ensures
        sorted_lex(final(v)@),
        forall|q: Pt| final(v)@.contains(q) <==> (old(v)@.contains(q) || q == p),
        final(v)@.len() == old(v)@.len() + 1,
{
    let ghost before = v@;
    let mut idx: usize = 0;
    while idx < v.len() && (v[idx].x < p.x || (v[idx].x == p.x && v[idx].y < p.y))
        invariant
            0 <= idx <= v@.len(),
            v@ == before,
            forall|i: int| 0 <= i < idx ==> pt_lt(#[trigger] v@[i], p),
        decreases v@.len() - idx,
    {
        idx = idx + 1;
    }
    proof {
        if idx < v@.len() {
            assert(!pt_lt(v@[idx as int], p));
            assert(v@[idx as int] != p) by {
                if v@[idx as int] == p {
                    assert(before.contains(p));
                }
            }
            assert(pt_lt(p, v@[idx as int]));
        }
    }
    v.insert(idx, p);
    proof {
        let after = v@;
        assert(after == before.insert(idx as int, p));
        assert forall|i: int, j: int| 0 <= i < j < after.len() implies pt_lt(
            #[trigger] after[i],
            #[trigger] after[j],
        ) by {
            let n = before.len();
            if i < idx && j < idx {
            } else if i < idx && j == idx {
            } else if i == idx && j > idx {
                assert(after[j] == before[j - 1]);
                assert(j - 1 >= idx);
                if j - 1 == idx {
                    assert(pt_lt(p, before[idx as int]));
                } else {
                    assert(pt_lt(before[idx as int], before[j - 1]));
                    assert(pt_lt(p, before[idx as int]));
                }
            } else if i < idx && j > idx {
                assert(after[j] == before[j - 1]);
                if j - 1 == i {
                    assert(false);
                } else {
                    assert(pt_lt(before[i], before[j - 1]));
                }
            } else if i > idx && j > idx {
                assert(after[i] == before[i - 1]);
                assert(after[j] == before[j - 1]);
                assert(pt_lt(before[i - 1], before[j - 1]));
            } else {
                assert(i == idx && j == idx && false);
            }
        }
        assert forall|q: Pt| final(v)@.contains(q) <==> (before.contains(q) || q == p) by {
            if after.contains(q) {
                let i = choose|i: int| 0 <= i < after.len() && after[i] == q;
                if i == idx {
                } else if i < idx {
                    assert(before[i] == q);
                    assert(before.contains(q));
                } else {
                    assert(before[i - 1] == q);
                    assert(before.contains(q));
                }
            }
            if before.contains(q) {
                let i = choose|i: int| 0 <= i < before.len() && before[i] == q;
                if i < idx {
                    assert(after[i] == q);
                    assert(after.contains(q));
                } else {
                    assert(after[i + 1] == q);
                    assert(after.contains(q));
                }
            }
            if q == p {
                assert(after[idx as int] == q);
                assert(after.contains(q));
            }
        }
    }
}

/// Collects every intersection point of the remapped network, in strictly
/// increasing lexicographic order.
pub fn collect_intersections(rs: &Vec<RemappedRoad>) -> (v: Vec<Pt>)
    requires
        forall|k: int| 0 <= k < rs@.len() ==> (#[trigger] rs@[k]).road.points@.len() >= 1,
    ensures
        sorted_lex(v@),
        forall|p: Pt| v@.contains(p) <==> is_intersection_pt(pts_of(rs@), p),
{
    let ghost ptss = pts_of(rs@);
    let mut v: Vec<Pt> = Vec::new();
    let mut k: usize = 0;
    proof {
        assert(ptss.take(0).len() == 0);
        assert(forall|p: Pt| !occurs_in(ptss.take(0), p));
    }
    while k < rs.len()
        invariant
            0 <= k <= rs@.len(),
            ptss == pts_of(rs@),
            forall|k2: int| 0 <= k2 < rs@.len() ==> (#[trigger] rs@[k2]).road.points@.len() >= 1,
            sorted_lex(v@),
            forall|p: Pt|
                v@.contains(p) <==> (is_intersection_pt(ptss, p) && occurs_in(
                    ptss.take(k as int),
                    p,
                )),
        decreases rs@.len() - k,
    {
        let pts = &rs[k].road.points;
        proof {
            assert(ptss[k as int] == rs@[k as int].road.points@);
            let t0 = ptss[k as int].take(0);
            assert(t0.len() == 0);
            assert(forall|p: Pt| !t0.contains(p));
        }
        let mut j: usize = 0;
        while j < pts.len()
            invariant
                0 <= j <= pts@.len(),
                ptss == pts_of(rs@),
                pts@ == ptss[k as int],
                0 <= k < rs@.len(),
                forall|k2: int|
                    0 <= k2 < rs@.len() ==> (#[trigger] rs@[k2]).road.points@.len() >= 1,
                sorted_lex(v@),
                forall|p: Pt|
                    v@.contains(p) <==> (is_intersection_pt(ptss, p) && (occurs_in(
                        ptss.take(k as int),
                        p,
                    ) || ptss[k as int].take(j as int).contains(p))),
            decreases pts@.len() - j,
        {
            let p = pts[j];
            proof {
                assert(ptss[k as int][j as int] == p);
            }
            let ghost v0 = v@;
            let already = vec_contains_pt(&v, p);
            let is_i = is_intersection(rs, p);
            if !already && is_i {
                insert_sorted(&mut v, p);
            }
            proof {
                let t1 = ptss[k as int].take(j + 1);
                let t0 = ptss[k as int].take(j as int);
                assert forall|q: Pt| t1.contains(q) implies (t0.contains(q) || q == p) by {
                    let i = choose|i: int| 0 <= i < t1.len() && t1[i] == q;
                    if i < j {
                        assert(t0[i] == q);
                    }
                }
                assert forall|q: Pt| (t0.contains(q) || q == p) implies t1.contains(q) by {
                    if t0.contains(q) {
                        let i = choose|i: int| 0 <= i < j && t0[i] == q;
                        assert(t1[i] == q);
                    } else {
                        assert(t1[j as int] == q);
                    }
                }
                assert forall|q: Pt|
                    v@.contains(q) <==> (is_intersection_pt(ptss, q) && (occurs_in(
                        ptss.take(k as int),
                        q,
                    ) || t1.contains(q))) by {
                    if !already && is_i {
                        assert(v@.contains(q) <==> (v0.contains(q) || q == p));
                    } else {
                        assert(v@ == v0);
                    }
                    if already {
                        assert(v0.contains(p));
                        assert(is_intersection_pt(ptss, p));
                    }
                }
            }
            j = j + 1;
        }
        proof {
            assert(j as int == pts@.len() as int);
            assert(ptss[k as int].take(j as int) =~= ptss[k as int]);
            let tk = ptss.take(k as int);
            let tk1 = ptss.take(k + 1);
            assert forall|p: Pt|
                (occurs_in(tk, p) || ptss[k as int].contains(p)) <==> occurs_in(tk1, p) by {
                if occurs_in(tk, p) {
                    let k2 = choose|k2: int| 0 <= k2 < tk.len() && tk[k2].contains(p);
                    assert(tk1[k2] == tk[k2]);
                    assert(tk1[k2].contains(p));
                    assert(occurs_in(tk1, p));
                }
                if ptss[k as int].contains(p) {
                    assert(tk1[k as int] == ptss[k as int]);
                    assert(tk1[k as int].contains(p));
                    assert(occurs_in(tk1, p));
                }
                if occurs_in(tk1, p) {
                    let k2 = choose|k2: int| 0 <= k2 < tk1.len() && tk1[k2].contains(p);
                    if k2 == k as int {
                        assert(ptss[k as int].contains(p));
                    } else {
                        assert(tk[k2] == tk1[k2]);
                        assert(occurs_in(tk, p));
                    }
                }
            }
            assert forall|p: Pt|
                v@.contains(p) <==> (is_intersection_pt(ptss, p) && occurs_in(tk1, p)) by {
                assert(v@.contains(p) <==> (is_intersection_pt(ptss, p) && (occurs_in(tk, p)
                    || ptss[k as int].take(j as int).contains(p))));
            }
        }
        k = k + 1;
    }
    proof {
        assert(ptss.take(k as int) =~= ptss);
        assert forall|p: Pt| v@.contains(p) <==> is_intersection_pt(ptss, p) by {
            if is_intersection_pt(ptss, p) {
                lemma_intersection_pt_occurs(ptss, p);
            }
        }
    }
    v
}

// ------------------------------------------------------------------
// Materialization
// ------------------------------------------------------------------

/// The height recorded for `p` in the elevation table (zero when absent).
pub open spec fn elev_of(t: Seq<(Pt, i64)>, p: Pt) -> i64
    decreases t.len(),
{
    if t.len() == 0 {
        0
    } else if t[0].0 == p {
        t[0].1
    } else {
        elev_of(t.drop_first(), p)
    }
}

/// Samples the elevation table at one point.
pub fn elevation_at(t: &Vec<(Pt, i64)>, p: Pt) -> (e: i64)
    ensures
        e == elev_of(t@, p),
{
    let mut i: usize = 0;
    proof {
        assert(t@.skip(0) =~= t@);
    }
    while i < t.len()
        invariant
            0 <= i <= t@.len(),
            elev_of(t@, p) == elev_of(t@.skip(i as int), p),
        decreases t@.len() - i,
    {
        proof {
            assert(t@.skip(i as int)[0] == t@[i as int]);
            assert(t@.skip(i as int).drop_first() =~= t@.skip(i + 1));
        }
        if t[i].0.x == p.x && t[i].0.y == p.y {
            return t[i].1;
        }
        i = i + 1;
    }
    proof {
        assert(t@.skip(t@.len() as int).len() == 0);
    }
    0
}

/// Builds the intersection records for the sorted intersection points:
/// identifiers in list order, sampled elevation, stop-controlled, no label,
/// and no boundary polygon yet.
pub fn materialize_intersections(ipts: &Vec<Pt>, elevation: &Vec<(Pt, i64)>) -> (v: Vec<
    Intersection,
>)
    ensures
        v@.len() == ipts@.len(),
        forall|k: int|
            0 <= k < v@.len() ==> {
                &&& (#[trigger] v@[k]).id.0 == k
                &&& v@[k].point == ipts@[k]
                &&& v@[k].elevation == elev_of(elevation@, ipts@[k])
                &&& v@[k].intersection_type == IntersectionType::StopSign
                &&& v@[k].label is None
                &&& v@[k].polygon@.len() == 0
            },
{
    let mut v: Vec<Intersection> = Vec::new();
    let mut k: usize = 0;
    while k < ipts.len()
        invariant
            0 <= k <= ipts@.len(),
            v@.len() == k,
            forall|k2: int|
                0 <= k2 < k ==> {
                    &&& (#[trigger] v@[k2]).id.0 == k2
                    &&& v@[k2].point == ipts@[k2]
                    &&& v@[k2].elevation == elev_of(elevation@, ipts@[k2])
                    &&& v@[k2].intersection_type == IntersectionType::StopSign
                    &&& v@[k2].label is None
                    &&& v@[k2].polygon@.len() == 0
                },
        decreases ipts@.len() - k,
    {
        let e = elevation_at(elevation, ipts[k]);
        v.push(
            Intersection {
                id: IntersectionID(k),
                point: ipts[k],
                elevation: e,
                intersection_type: IntersectionType::StopSign,
                label: None,
                polygon: Vec::new(),
            },
        );
        k = k + 1;
    }
    v
}

// ------------------------------------------------------------------
// Road splitting
// ------------------------------------------------------------------

/// The segments one way is cut into: walk the points in order, and close the
/// accumulated segment whenever it has at least two points and the current
/// point is an intersection; the closing point starts the next segment.
pub open spec fn segs_rec(pts: Seq<Pt>, ipts: Seq<Pt>, j: int, seg: Seq<Pt>) -> Seq<Seq<Pt>>
    decreases pts.len() - j,
{
    if j < 0 || j >= pts.len() {
        Seq::empty()
    } else {
        let seg2 = seg.push(pts[j]);
        if seg2.len() >= 2 && ipts.contains(pts[j]) {
            seq![seg2] + segs_rec(pts, ipts, j + 1, seq![pts[j]])
        } else {
            segs_rec(pts, ipts, j + 1, seg2)
        }
    }
}

pub open spec fn road_segments(pts: Seq<Pt>, ipts: Seq<Pt>) -> Seq<Seq<Pt>> {
    segs_rec(pts, ipts, 0, Seq::empty())
}

/// The segments of all ways in order, each paired with the index of the way
/// it was cut from.
pub open spec fn all_segments(ptss: Seq<Seq<Pt>>, ipts: Seq<Pt>) -> Seq<(Seq<Pt>, int)>
    decreases ptss.len(),
{
    if ptss.len() == 0 {
        Seq::empty()
    } else {
        all_segments(ptss.drop_last(), ipts) + road_segments(ptss.last(), ipts).map_values(
            |s: Seq<Pt>| (s, ptss.len() - 1),
        )
    }
}

/// Segments glued back together: each segment after the first repeats the
/// previous segment's final point, so that point is dropped when rejoining.
pub open spec fn glue(segs: Seq<Seq<Pt>>) -> Seq<Pt>
    decreases segs.len(),
{
    if segs.len() == 0 {
        Seq::empty()
    } else if segs.len() == 1 {
        segs[0]
    } else {
        glue(segs.drop_last()) + segs.last().drop_first()
    }
}

pub open spec fn ipts_of(isects: Seq<Intersection>) -> Seq<Pt> {
    isects.map_values(|i: Intersection| i.point)
}

/// Finds the intersection whose point is `p`: the first match.
fn find_intersection(isects: &Vec<Intersection>, p: Pt) -> (r: Option<usize>)
    ensures
        match r {
            Some(ix) => ix < isects@.len() && isects@[ix as int].point == p && (forall|i2: int|
                0 <= i2 < ix ==> (#[trigger] isects@[i2]).point != p),
            None => forall|i2: int| 0 <= i2 < isects@.len() ==> (#[trigger] isects@[i2]).point != p,
        },
        r is Some <==> ipts_of(isects@).contains(p),
{
    let mut i: usize = 0;
    while i < isects.len()
        invariant
            0 <= i <= isects@.len(),
            forall|i2: int| 0 <= i2 < i ==> (#[trigger] isects@[i2]).point != p,
        decreases isects@.len() - i,
    {
        if isects[i].point.x == p.x && isects[i].point.y == p.y {
            proof {
                assert(isects@[i as int].point == p);
                assert(ipts_of(isects@)[i as int] == p);
            }
            return Some(i);
        }
        i = i + 1;
    }
    proof {
        if ipts_of(isects@).contains(p) {
            let ix = choose|ix: int| 0 <= ix < isects@.len() && ipts_of(isects@)[ix] == p;
            assert(isects@[ix].point == p);
        }
    }
    None
}

/// What the splitter promises of each produced road, relative to the segment
/// description `sd` (the segment's points and the index of its source way).
pub open spec fn road_matches_segment(
    road: Road,
    sd: (Seq<Pt>, int),
    n: int,
    rs: Seq<RemappedRoad>,
    isects: Seq<Intersection>,
) -> bool {
    &&& road.points@ == sd.0
    &&& road.id.0 == n
    &&& 0 <= sd.1 < rs.len()
    &&& road.osm_way_id == rs[sd.1].road.osm_way_id
    &&& road.tags@ == rs[sd.1].road.tags@
    &&& road.points@.len() >= 2
    &&& road.i1.0 < isects.len() && isects[road.i1.0 as int].point == road.points@[0]
    &&& forall|i2: int| 0 <= i2 < road.i1.0 ==> (#[trigger] isects[i2]).point != road.points@[0]
    &&& road.i2.0 < isects.len() && isects[road.i2.0 as int].point == road.points@.last()
    &&& forall|i2: int|
        0 <= i2 < road.i2.0 ==> (#[trigger] isects[i2]).point != road.points@.last()
    &&& road.lanes_fwd@.len() == 0
    &&& road.lanes_back@.len() == 0
}

fn clone_tags(t: &Vec<(String, String)>) -> (r: Vec<(String, String)>)
    ensures
        r@ == t@,
{
    let mut r: Vec<(String, String)> = Vec::new();
    let mut i: usize = 0;
    while i < t.len()
        invariant
            0 <= i <= t@.len(),
            r@ =~= t@.take(i as int),
        decreases t@.len() - i,
    {
        let pair = &t[i];
        let a = pair.0.clone();
        let b = pair.1.clone();
        proof {
            assert((a, b) == t@[i as int]);
        }
        r.push((a, b));
        i = i + 1;
    }
    proof {
        assert(t@.take(t@.len() as int) =~= t@);
    }
    r
}

/// Cuts every remapped way at the intersections it visits, assigning road
/// identifiers sequentially. Also establishes that gluing each way's
/// segments back together reproduces the way exactly: no point is dropped or
/// duplicated.
pub fn split_into_segments(rs: &Vec<RemappedRoad>, isects: &Vec<Intersection>) -> (out: Vec<Road>)
    requires
        forall|k: int| 0 <= k < rs@.len() ==> (#[trigger] rs@[k]).road.points@.len() >= 2,
        forall|k: int|
            0 <= k < rs@.len() ==> ipts_of(isects@).contains(
                (#[trigger] rs@[k]).road.points@[0],
            ) && ipts_of(isects@).contains(rs@[k].road.points@.last()),
    ensures
        out@.len() == all_segments(pts_of(rs@), ipts_of(isects@)).len(),
        forall|n: int|
            0 <= n < out@.len() ==> road_matches_segment(
                #[trigger] out@[n],
                all_segments(pts_of(rs@), ipts_of(isects@))[n],
                n,
                rs@,
                isects@,
            ),
        forall|k: int|
            0 <= k < rs@.len() ==> glue(
                road_segments((#[trigger] rs@[k]).road.points@, ipts_of(isects@)),
            ) == rs@[k].road.points@,
{
    let ghost ptss = pts_of(rs@);
    let ghost ipts = ipts_of(isects@);
    let mut out: Vec<Road> = Vec::new();
    let mut k: usize = 0;
    proof {
        assert(all_segments(ptss.take(0), ipts) =~= Seq::<(Seq<Pt>, int)>::empty());
    }
    while k < rs.len()
        invariant
            0 <= k <= rs@.len(),
            ptss == pts_of(rs@),
            ipts == ipts_of(isects@),
            forall|k2: int| 0 <= k2 < rs@.len() ==> (#[trigger] rs@[k2]).road.points@.len() >= 2,
            forall|k2: int|
                0 <= k2 < rs@.len() ==> ipts_of(isects@).contains(
                    (#[trigger] rs@[k2]).road.points@[0],
                ) && ipts_of(isects@).contains(rs@[k2].road.points@.last()),
            out@.len() == all_segments(ptss.take(k as int), ipts).len(),
            forall|n: int|
                0 <= n < out@.len() ==> road_matches_segment(
                    #[trigger] out@[n],
                    all_segments(ptss.take(k as int), ipts)[n],
                    n,
                    rs@,
                    isects@,
                ),
            forall|k2: int|
                0 <= k2 < k ==> glue(road_segments((#[trigger] ptss[k2]), ipts)) == ptss[k2],
        decreases rs@.len() - k,
    {
        let rr = &rs[k];
        let pts = &rr.road.points;
        proof {
            assert(ptss[k as int] == rs@[k as int].road.points@);
        }
        let ghost base = all_segments(ptss.take(k as int), ipts);
        let ghost emitted0: Seq<Seq<Pt>> = Seq::empty();
        let ghost mut emitted = emitted0;
        let mut cur_seg: Vec<Pt> = Vec::new();
        let first = pts[0];
        let mut cur_i1: usize = match find_intersection(isects, first) {
            Some(ix) => ix,
            None => {
                proof {
                    assert(false);
                }
                0
            },
        };
        let mut j: usize = 0;
        proof {
            assert(road_segments(pts@, ipts) == emitted + segs_rec(pts@, ipts, 0, cur_seg@))
                by {
                assert(emitted + segs_rec(pts@, ipts, 0, cur_seg@) =~= segs_rec(
                    pts@,
                    ipts,
                    0,
                    Seq::empty(),
                ));
                assert(cur_seg@ =~= Seq::<Pt>::empty());
            }
        }
        while j < pts.len()
            invariant
                0 <= j <= pts@.len(),
                pts@ == ptss[k as int],
                0 <= k < rs@.len(),
                rr == rs@[k as int],
                pts@ == rr.road.points@,
                ptss == pts_of(rs@),
                ipts == ipts_of(isects@),
                pts@.len() >= 2,
                ipts.contains(pts@[0]),
                ipts.contains(pts@.last()),
                base == all_segments(ptss.take(k as int), ipts),
                road_segments(pts@, ipts) == emitted + segs_rec(pts@, ipts, j as int, cur_seg@),
                // what has been emitted so far, globally
                out@.len() == base.len() + emitted.len(),
                forall|n: int|
                    0 <= n < base.len() ==> road_matches_segment(
                        #[trigger] out@[n],
                        base[n],
                        n,
                        rs@,
                        isects@,
                    ),
                forall|n: int|
                    base.len() <= n < out@.len() ==> road_matches_segment(
                        #[trigger] out@[n],
                        (emitted[n - base.len()], k as int),
                        n,
                        rs@,
                        isects@,
                    ),
                forall|k2: int|
                    0 <= k2 < k ==> glue(road_segments((#[trigger] ptss[k2]), ipts)) == ptss[k2],
                // the running segment
                j == 0 ==> cur_seg@.len() == 0 && emitted.len() == 0,
                j > 0 ==> cur_seg@.len() >= 1,
                j > 0 ==> cur_i1 < isects@.len() && isects@[cur_i1 as int].point == cur_seg@[0]
                    && (forall|i2: int|
                    0 <= i2 < cur_i1 ==> (#[trigger] isects@[i2]).point != cur_seg@[0]),
                j == 0 ==> cur_i1 < isects@.len() && isects@[cur_i1 as int].point == pts@[0] && (
                forall|i2: int| 0 <= i2 < cur_i1 ==> (#[trigger] isects@[i2]).point != pts@[0]),
                // glueing invariant
                emitted.len() == 0 ==> cur_seg@ == pts@.take(j as int),
                emitted.len() > 0 ==> glue(emitted) + cur_seg@.drop_first() == pts@.take(j as int)
                    && cur_seg@.len() >= 1,
                // after a closing point, exactly the closing point remains
                j > 0 && ipts.contains(pts@[j - 1]) ==> cur_seg@ == seq![pts@[j - 1]],
            decreases pts@.len() - j,
        {
            let ghost cur0 = cur_seg@;
            let p = pts[j];
            cur_seg.push(p);
            let ghost seg2 = cur_seg@;
            proof {
                assert(seg2 == cur0.push(p));
            }
            let mut closed = false;
            let mut close_ix: usize = 0;
            if cur_seg.len() > 1 {
                match find_intersection(isects, p) {
                    Some(ix) => {
                        closed = true;
                        close_ix = ix;
                    },
                    None => {},
                }
            }
            if closed {
                let seg_points = cur_seg;
                cur_seg = Vec::new();
                cur_seg.push(p);
                let road = Road {
                    id: RoadID(out.len()),
                    points: seg_points,
                    i1: IntersectionID(cur_i1),
                    i2: IntersectionID(close_ix),
                    osm_way_id: rr.road.osm_way_id,
                    tags: clone_tags(&rr.road.tags),
                    lanes_fwd: Vec::new(),
                    lanes_back: Vec::new(),
                };
                proof {
                    assert(isects@[close_ix as int].point == p);
                    assert(ipts[close_ix as int] == p);
                    assert(ipts.contains(pts@[j as int]));
                    assert(road_matches_segment(
                        road,
                        (seg2, k as int),
                        out@.len() as int,
                        rs@,
                        isects@,
                    )) by {
                        assert(cur0.len() >= 1);
                        assert(seg2[0] == cur0[0]);
                        assert(seg2.last() == p);
                        assert(isects@[cur_i1 as int].point == cur0[0]);
                    }
                }
                out.push(road);
                cur_i1 = close_ix;
                proof {
                    let em2 = emitted.push(seg2);
                    // glue update
                    if emitted.len() == 0 {
                        assert(glue(em2) == seg2);
                        assert(seg2 =~= pts@.take(j + 1));
                        assert(cur_seg@.drop_first() =~= Seq::<Pt>::empty());
                        assert(glue(em2) + cur_seg@.drop_first() =~= pts@.take(j + 1));
                    } else {
                        assert(em2.drop_last() =~= emitted);
                        assert(glue(em2) == glue(emitted) + seg2.drop_first());
                        assert(seg2.drop_first() =~= cur0.drop_first().push(p));
                        assert(glue(emitted) + seg2.drop_first() =~= (glue(emitted)
                            + cur0.drop_first()).push(p));
                        assert(pts@.take(j as int).push(p) =~= pts@.take(j + 1));
                        assert(cur_seg@.drop_first() =~= Seq::<Pt>::empty());
                        assert(glue(em2) + cur_seg@.drop_first() =~= pts@.take(j + 1));
                    }
                    emitted = em2;
                    assert(cur_seg@ == seq![pts@[j as int]]);
                }
            } else {
                proof {
                    if cur_seg@.len() >= 2 {
                        assert(!ipts.contains(pts@[j as int]));
                    }
                    if emitted.len() == 0 {
                        assert(cur_seg@ =~= pts@.take(j + 1));
                    } else {
                        assert(glue(emitted) + cur_seg@.drop_first() =~= pts@.take(j + 1));
                    }
                }
            }
            proof {
                // re-establish the segs_rec continuation
                assert(segs_rec(pts@, ipts, j as int, seg2.drop_last()) == (if seg2.len() >= 2
                    && ipts.contains(pts@[j as int]) {
                    seq![seg2] + segs_rec(pts@, ipts, j + 1, seq![pts@[j as int]])
                } else {
                    segs_rec(pts@, ipts, j + 1, seg2)
                })) by {
                    assert(seg2.drop_last().push(pts@[j as int]) =~= seg2);
                }
                if closed {
                    assert(emitted.drop_last() + (seq![seg2] + segs_rec(
                        pts@,
                        ipts,
                        j + 1,
                        cur_seg@,
                    )) =~= emitted + segs_rec(pts@, ipts, j + 1, cur_seg@));
                    assert(cur_seg@ =~= seq![pts@[j as int]]);
                }
            }
            j = j + 1;
        }
        proof {
            // after the walk, exactly the closing point is left over
            assert(ipts.contains(pts@[j - 1]));
            assert(pts@[j - 1] == pts@.last());
            assert(cur_seg@ == seq![pts@.last()]);
            assert(segs_rec(pts@, ipts, j as int, cur_seg@) =~= Seq::<Seq<Pt>>::empty());
            assert(road_segments(pts@, ipts) =~= emitted);
            if emitted.len() == 0 {
                assert(cur_seg@ == pts@.take(j as int));
                assert(pts@.take(j as int) =~= pts@);
                assert(false);
            }
            assert(glue(emitted) + cur_seg@.drop_first() == pts@.take(j as int));
            assert(cur_seg@.drop_first() =~= Seq::<Pt>::empty());
            assert(glue(emitted) + cur_seg@.drop_first() =~= glue(emitted));
            assert(pts@.take(j as int) =~= pts@);
            assert(glue(road_segments(ptss[k as int], ipts)) == ptss[k as int]);
            // fold this way's segments into the global description
            let tk1 = ptss.take(k + 1);
            assert(tk1.drop_last() =~= ptss.take(k as int));
            assert(tk1.last() == ptss[k as int]);
            assert(all_segments(tk1, ipts) == all_segments(ptss.take(k as int), ipts)
                + road_segments(ptss[k as int], ipts).map_values(
                |s: Seq<Pt>| (s, tk1.len() - 1),
            ));
            assert forall|n: int| 0 <= n < out@.len() implies road_matches_segment(
                #[trigger] out@[n],
                all_segments(ptss.take(k + 1), ipts)[n],
                n,
                rs@,
                isects@,
            ) by {
                if n < base.len() {
                    assert(all_segments(tk1, ipts)[n] == base[n]);
                } else {
                    assert(all_segments(tk1, ipts)[n] == (emitted[n - base.len()], k as int));
                }
            }
        }
        k = k + 1;
    }
    proof {
        assert(ptss.take(k as int) == ptss) by {
            assert(ptss.take(k as int) =~= ptss);
        }
        assert forall|k2: int| 0 <= k2 < rs@.len() implies glue(
            road_segments((#[trigger] rs@[k2]).road.points@, ipts_of(isects@)),
        ) == rs@[k2].road.points@ by {
            assert(ptss[k2] == rs@[k2].road.points@);
            assert(glue(road_segments(ptss[k2], ipts)) == ptss[k2]);
        }
    }
    out
}

// ------------------------------------------------------------------
// The splitter
// ------------------------------------------------------------------

/// The point runs of the surviving ways after endpoint extension, as a
/// function of the raw input alone.
pub open spec fn all_remapped(roads: Seq<RawRoad>) -> Seq<Seq<Pt>> {
    kept_of(roads).map_values(|r: RawRoad| remapped_pts(r.points@, remap_of(roads)))
}

/// Whether some way crosses a roundabout mid-span, which construction must
/// reject.
pub open spec fn way_has_violation(roads: Seq<RawRoad>, k: int) -> bool {
    exists|j: int|
        road_violation_at(
            all_remapped(roads)[k],
            spec_added_start(kept_of(roads)[k].points@, remap_of(roads)),
            spec_added_end(kept_of(roads)[k].points@, remap_of(roads)),
            remap_of(roads),
            j,
        )
}

pub open spec fn spec_has_violation(roads: Seq<RawRoad>) -> bool {
    exists|k: int| 0 <= k < kept_of(roads).len() && #[trigger] way_has_violation(roads, k)
}

/// What the splitter promises of each produced road, against the surviving
/// raw ways.
pub open spec fn road_matches_way(
    road: Road,
    sd: (Seq<Pt>, int),
    n: int,
    roads: Seq<RawRoad>,
    isects: Seq<Intersection>,
) -> bool {
    &&& road.points@ == sd.0
    &&& road.id.0 == n
    &&& 0 <= sd.1 < kept_of(roads).len()
    &&& road.osm_way_id == kept_of(roads)[sd.1].osm_way_id
    &&& road.tags@ == kept_of(roads)[sd.1].tags@
    &&& road.points@.len() >= 2
    &&& road.i1.0 < isects.len() && isects[road.i1.0 as int].point == road.points@[0]
    &&& forall|i2: int| 0 <= i2 < road.i1.0 ==> (#[trigger] isects[i2]).point != road.points@[0]
    &&& road.i2.0 < isects.len() && isects[road.i2.0 as int].point == road.points@.last()
    &&& forall|i2: int|
        0 <= i2 < road.i2.0 ==> (#[trigger] isects[i2]).point != road.points@.last()
    &&& road.lanes_fwd@.len() == 0
    &&& road.lanes_back@.len() == 0
}

/// Everything the splitter promises of a successfully built network.
pub open spec fn splitter_post(roads: Seq<RawRoad>, elevation: Seq<(Pt, i64)>, m: RoadMap) -> bool {
    let ptss = all_remapped(roads);
    let ipts = ipts_of(m.intersections@);
    &&& sorted_lex(ipts)
    &&& forall|p: Pt| ipts.contains(p) <==> is_intersection_pt(ptss, p)
    &&& forall|k: int|
        0 <= k < m.intersections@.len() ==> {
            &&& (#[trigger] m.intersections@[k]).id.0 == k
            &&& m.intersections@[k].elevation == elev_of(elevation, m.intersections@[k].point)
            &&& m.intersections@[k].intersection_type == IntersectionType::StopSign
            &&& m.intersections@[k].label is None
            &&& m.intersections@[k].polygon@.len() == 0
        }
    &&& m.roads@.len() == all_segments(ptss, ipts).len()
    &&& forall|n: int|
        0 <= n < m.roads@.len() ==> road_matches_way(
            #[trigger] m.roads@[n],
            all_segments(ptss, ipts)[n],
            n,
            roads,
            m.intersections@,
        )
    &&& forall|k: int|
        0 <= k < ptss.len() ==> glue(road_segments(#[trigger] ptss[k], ipts)) == ptss[k]
}

/// Builds the network: collapses roundabouts, extends the ways that touched
/// them, detects and materializes intersections, and splits every way into
/// intersection-bounded road segments. Buildings and areas pass through
/// untouched. Fails exactly when some way crosses a roundabout mid-span.
pub fn split_up_roads(
    roads: Vec<RawRoad>,
    buildings: Vec<Building>,
    areas: Vec<Area>,
    elevation: &Vec<(Pt, i64)>,
) -> (res: Result<RoadMap, TopologyError>)
    requires
        forall|k: int| 0 <= k < roads@.len() ==> raw_road_ok(#[trigger] roads@[k]),
    ensures
        res is Ok <==> !spec_has_violation(roads@),
        match res {
            Ok(m) => splitter_post(roads@, elevation@, m) && m.buildings == buildings && m.areas
                == areas,
            Err(_) => spec_has_violation(roads@),
        },
{
    let ghost roads0 = roads@;
    let (kept, remap) = extract_roundabouts(roads);
    let ghost kseq = kept_of(roads0);
    let rs = remap_endpoints(kept, &remap);
    proof {
        assert(pts_of(rs@) =~= all_remapped(roads0)) by {
            assert forall|k: int| 0 <= k < rs@.len() implies pts_of(rs@)[k] == all_remapped(
                roads0,
            )[k] by {
                assert(pts_of(rs@)[k] == rs@[k].road.points@);
                assert(all_remapped(roads0)[k] == remapped_pts(kseq[k].points@, remap_of(roads0)));
            }
        }
        assert forall|k: int| 0 <= k < rs@.len() implies (#[trigger] rs@[k]).road.points@.len()
            >= 2 by {}
        // a violation in the remapped roads is exactly a spec-level violation
        assert(any_violation(rs@, remap@) == spec_has_violation(roads0)) by {
            if any_violation(rs@, remap@) {
                let k = choose|k: int| 0 <= k < rs@.len() && rr_has_violation(rs@[k], remap@);
                let j = choose|j: int|
                    road_violation_at(
                        rs@[k].road.points@,
                        rs@[k].added_start,
                        rs@[k].added_end,
                        remap@,
                        j,
                    );
                assert(rs@[k].road.points@ == all_remapped(roads0)[k]);
                assert(road_violation_at(
                    all_remapped(roads0)[k],
                    spec_added_start(kseq[k].points@, remap_of(roads0)),
                    spec_added_end(kseq[k].points@, remap_of(roads0)),
                    remap_of(roads0),
                    j,
                ));
                assert(way_has_violation(roads0, k));
            }
            if spec_has_violation(roads0) {
                let k = choose|k: int|
                    0 <= k < kept_of(roads0).len() && #[trigger] way_has_violation(roads0, k);
                let j = choose|j: int|
                    road_violation_at(
                        all_remapped(roads0)[k],
                        spec_added_start(kept_of(roads0)[k].points@, remap_of(roads0)),
                        spec_added_end(kept_of(roads0)[k].points@, remap_of(roads0)),
                        remap_of(roads0),
                        j,
                    );
                assert(rs@[k].road.points@ == all_remapped(roads0)[k]);
                assert(road_violation_at(
                    rs@[k].road.points@,
                    rs@[k].added_start,
                    rs@[k].added_end,
                    remap@,
                    j,
                ));
                assert(rr_has_violation(rs@[k], remap@));
            }
        }
    }
    match check_topology(&rs, &remap) {
        Err(e) => {
            return Err(e);
        },
        Ok(_) => {},
    }
    let ipts = collect_intersections(&rs);
    let isects = materialize_intersections(&ipts, elevation);
    proof {
        assert(ipts_of(isects@) =~= ipts@) by {
            assert forall|k: int| 0 <= k < isects@.len() implies ipts_of(isects@)[k] == ipts@[k]
                by {
                assert(ipts_of(isects@)[k] == isects@[k].point);
            }
        }
        assert forall|k: int| 0 <= k < rs@.len() implies ipts_of(isects@).contains(
            (#[trigger] rs@[k]).road.points@[0],
        ) && ipts_of(isects@).contains(rs@[k].road.points@.last()) by {
            let ptss = pts_of(rs@);
            assert(ptss[k] == rs@[k].road.points@);
            assert(ptss[k][0] == rs@[k].road.points@[0]);
            assert(is_endpoint_pt(ptss, ptss[k][0]));
            assert(is_endpoint_pt(ptss, ptss[k].last()));
            assert(ipts@.contains(ptss[k][0]));
            assert(ipts@.contains(ptss[k].last()));
        }
    }
    let out_roads = split_into_segments(&rs, &isects);
    let map = RoadMap { intersections: isects, roads: out_roads, buildings, areas };
    proof {
        let ptss = all_remapped(roads0);
        let ipts2 = ipts_of(map.intersections@);
        assert(pts_of(rs@) == ptss);
        assert(ipts2 == ipts@);
        assert forall|n: int| 0 <= n < map.roads@.len() implies road_matches_way(
            #[trigger] map.roads@[n],
            all_segments(ptss, ipts2)[n],
            n,
            roads0,
            map.intersections@,
        ) by {
            let sd = all_segments(ptss, ipts2)[n];
            assert(road_matches_segment(map.roads@[n], sd, n, rs@, isects@));
            assert(rs@[sd.1].road.tags == kseq[sd.1].tags);
            assert(rs@[sd.1].road.osm_way_id == kseq[sd.1].osm_way_id);
        }
    }
    Ok(map)
}

// ------------------------------------------------------------------
// Laws
// ------------------------------------------------------------------

/// Re-running construction on identical input yields identical intersection
/// identifier assignment and identical road segment boundaries: any two
/// networks that satisfy the splitter's postcondition on the same input
/// agree on intersections (identifier, point, elevation) and on every road's
/// identifier, geometry and endpoints.
pub proof fn lemma_splitter_deterministic(
    roads: Seq<RawRoad>,
    elevation: Seq<(Pt, i64)>,
    m1: RoadMap,
    m2: RoadMap,
)
    requires
        splitter_post(roads, elevation, m1),
        splitter_post(roads, elevation, m2),
    ensures
        m1.intersections@.len() == m2.intersections@.len(),
        forall|k: int|
            0 <= k < m1.intersections@.len() ==> {
                &&& (#[trigger] m1.intersections@[k]).id == m2.intersections@[k].id
                &&& m1.intersections@[k].point == m2.intersections@[k].point
                &&& m1.intersections@[k].elevation == m2.intersections@[k].elevation
            },
        m1.roads@.len() == m2.roads@.len(),
        forall|n: int|
            0 <= n < m1.roads@.len() ==> {
                &&& (#[trigger] m1.roads@[n]).id == m2.roads@[n].id
                &&& m1.roads@[n].points@ == m2.roads@[n].points@
                &&& m1.roads@[n].i1 == m2.roads@[n].i1
                &&& m1.roads@[n].i2 == m2.roads@[n].i2
                &&& m1.roads@[n].osm_way_id == m2.roads@[n].osm_way_id
            },
{
    let ipts1 = ipts_of(m1.intersections@);
    let ipts2 = ipts_of(m2.intersections@);
    let ptss = all_remapped(roads);
    lemma_sorted_unique(ipts1, ipts2);
    assert(m1.intersections@.len() == m2.intersections@.len());
    assert forall|k: int| 0 <= k < m1.intersections@.len() implies (
    #[trigger] m1.intersections@[k]).point == m2.intersections@[k].point by {
        assert(ipts1[k] == m1.intersections@[k].point);
        assert(ipts2[k] == m2.intersections@[k].point);
    }
    assert forall|k: int| 0 <= k < m1.intersections@.len() implies (
    #[trigger] m1.intersections@[k]).id == m2.intersections@[k].id by {
        assert(m1.intersections@[k].id.0 == k);
        assert(m2.intersections@[k].id.0 == k);
    }
    assert(m1.roads@.len() == m2.roads@.len());
    assert forall|n: int| 0 <= n < m1.roads@.len() implies {
        &&& (#[trigger] m1.roads@[n]).id == m2.roads@[n].id
        &&& m1.roads@[n].points@ == m2.roads@[n].points@
        &&& m1.roads@[n].i1 == m2.roads@[n].i1
        &&& m1.roads@[n].i2 == m2.roads@[n].i2
        &&& m1.roads@[n].osm_way_id == m2.roads@[n].osm_way_id
    } by {
        let sd = all_segments(ptss, ipts1)[n];
        assert(road_matches_way(m1.roads@[n], sd, n, roads, m1.intersections@));
        assert(road_matches_way(m2.roads@[n], sd, n, roads, m2.intersections@));
        let r1 = m1.roads@[n];
        let r2 = m2.roads@[n];
        assert(r1.points@ == sd.0 && r2.points@ == sd.0);
        // first-match indices agree because the point lists agree
        assert forall|i2: int|
            0 <= i2 < m1.intersections@.len() implies (#[trigger] m1.intersections@[i2]).point
            == m2.intersections@[i2].point by {
            assert(ipts1[i2] == m1.intersections@[i2].point);
            assert(ipts2[i2] == m2.intersections@[i2].point);
        }
        if r1.i1.0 < r2.i1.0 {
            assert(m2.intersections@[r1.i1.0 as int].point != sd.0[0]);
            assert(m1.intersections@[r1.i1.0 as int].point == sd.0[0]);
        }
        if r2.i1.0 < r1.i1.0 {
            assert(m1.intersections@[r2.i1.0 as int].point != sd.0[0]);
            assert(m2.intersections@[r2.i1.0 as int].point == sd.0[0]);
        }
        if r1.i2.0 < r2.i2.0 {
            assert(m2.intersections@[r1.i2.0 as int].point != sd.0.last());
            assert(m1.intersections@[r1.i2.0 as int].point == sd.0.last());
        }
        if r2.i2.0 < r1.i2.0 {
            assert(m1.intersections@[r2.i2.0 as int].point != sd.0.last());
            assert(m2.intersections@[r2.i2.0 as int].point == sd.0.last());
        }
    }
}

/// Every output road's two endpoints name intersections that exist in the
/// output's intersection table.
pub proof fn lemma_road_endpoints_valid(
    roads: Seq<RawRoad>,
    elevation: Seq<(Pt, i64)>,
    m: RoadMap,
)
    requires
        splitter_post(roads, elevation, m),
    ensures
        forall|n: int|
            0 <= n < m.roads@.len() ==> (#[trigger] m.roads@[n]).i1.0 < m.intersections@.len()
                && m.roads@[n].i2.0 < m.intersections@.len(),
{
    assert forall|n: int| 0 <= n < m.roads@.len() implies (#[trigger] m.roads@[n]).i1.0
        < m.intersections@.len() && m.roads@[n].i2.0 < m.intersections@.len() by {
        let ptss = all_remapped(roads);
        let ipts = ipts_of(m.intersections@);
        assert(road_matches_way(
            m.roads@[n],
            all_segments(ptss, ipts)[n],
            n,
            roads,
            m.intersections@,
        ));
    }
}

/// A centre recorded in the roundabout remap table is the centroid of a
/// roundabout way that contains the remapped point.
pub proof fn lemma_remap_entry_is_centroid(roads: Seq<RawRoad>, p: Pt)
    requires
        lookup_last(remap_of(roads), p) is Some,
    ensures
        exists|k: int|
            0 <= k < roads.len() && spec_is_roundabout(#[trigger] roads[k].tags@)
                && roads[k].points@.contains(p) && lookup_last(remap_of(roads), p) == Some(
                centroid(roads[k].points@),
            ),
    decreases roads.len(),
{
    lemma_lookup_in(remap_of(roads), p);
    let e = choose|e: int|
        0 <= e < remap_of(roads).len() && remap_of(roads)[e] == (
        p,
        lookup_last(remap_of(roads), p)->Some_0,
        );
    lemma_remap_entry_source(roads, e);
}

proof fn lemma_lookup_in(m: Seq<(Pt, Pt)>, p: Pt)
    requires
        lookup_last(m, p) is Some,
    ensures
        exists|e: int| 0 <= e < m.len() && m[e] == (p, lookup_last(m, p)->Some_0),
    decreases m.len(),
{
    if m.len() > 0 {
        if m.last().0 == p {
            assert(m[m.len() - 1] == (p, lookup_last(m, p)->Some_0));
        } else {
            lemma_lookup_in(m.drop_last(), p);
            let e = choose|e: int|
                0 <= e < m.drop_last().len() && m.drop_last()[e] == (
                p,
                lookup_last(m.drop_last(), p)->Some_0,
                );
            assert(m[e] == (p, lookup_last(m, p)->Some_0));
        }
    }
}

proof fn lemma_remap_entry_source(roads: Seq<RawRoad>, e: int)
    requires
        0 <= e < remap_of(roads).len(),
    ensures
        exists|k: int|
            0 <= k < roads.len() && spec_is_roundabout(#[trigger] roads[k].tags@)
                && roads[k].points@.contains(remap_of(roads)[e].0) && remap_of(roads)[e].1
                == centroid(roads[k].points@),
    decreases roads.len(),
{
    if roads.len() > 0 {
        let rest = roads.drop_first();
        if spec_is_roundabout(roads[0].tags@) {
            let pf = pairs_for(roads[0]);
            if e < pf.len() {
                assert(remap_of(roads)[e] == pf[e]);
                assert(roads[0].points@[e] == pf[e].0);
                assert(roads[0].points@.contains(pf[e].0));
                assert(0 <= 0 < roads.len() && spec_is_roundabout(roads[0].tags@)
                    && roads[0].points@.contains(remap_of(roads)[e].0) && remap_of(roads)[e].1
                    == centroid(roads[0].points@));
            } else {
                lemma_remap_entry_source(rest, e - pf.len());
                let k = choose|k: int|
                    0 <= k < rest.len() && spec_is_roundabout(#[trigger] rest[k].tags@)
                        && rest[k].points@.contains(remap_of(rest)[e - pf.len()].0) && remap_of(
                        rest,
                    )[e - pf.len()].1 == centroid(rest[k].points@);
                assert(roads[k + 1] == rest[k]);
                assert(remap_of(roads)[e] == remap_of(rest)[e - pf.len()]);
            }
        } else {
            lemma_remap_entry_source(rest, e);
            let k = choose|k: int|
                0 <= k < rest.len() && spec_is_roundabout(#[trigger] rest[k].tags@)
                    && rest[k].points@.contains(remap_of(rest)[e].0) && remap_of(rest)[e].1
                    == centroid(rest[k].points@);
            assert(roads[k + 1] == rest[k]);
            assert(remap_of(roads)[e] == remap_of(rest)[e]);
        }
    }
}

/// In an accepted input, a surviving way meets the collapsed roundabout
/// points only at its own ends, or at the single position just inside an end
/// that was extended with the roundabout's centre; and an extended way gains
/// exactly one inserted point at that end.
pub proof fn lemma_roundabout_extension(roads: Seq<RawRoad>, k: int, j: int)
    requires
        !spec_has_violation(roads),
        0 <= k < kept_of(roads).len(),
        kept_of(roads)[k].points@.len() >= 1,
        0 < j < all_remapped(roads)[k].len() - 1,
        lookup_last(remap_of(roads), all_remapped(roads)[k][j]) is Some,
    ensures
        (j == 1 && spec_added_start(kept_of(roads)[k].points@, remap_of(roads))) || (j
            == all_remapped(roads)[k].len() - 2 && spec_added_end(
            kept_of(roads)[k].points@,
            remap_of(roads),
        )),
        spec_added_start(kept_of(roads)[k].points@, remap_of(roads))
            ==> all_remapped(roads)[k].len() >= kept_of(roads)[k].points@.len() + 1
            && all_remapped(roads)[k][0] == lookup_last(
            remap_of(roads),
            kept_of(roads)[k].points@[0],
        )->Some_0,
        spec_added_end(kept_of(roads)[k].points@, remap_of(roads)) ==> all_remapped(
            roads,
        )[k].last() == lookup_last(remap_of(roads), kept_of(roads)[k].points@.last())->Some_0,
{
    let rm = remap_of(roads);
    let pts = kept_of(roads)[k].points@;
    let rp = all_remapped(roads)[k];
    assert(rp == remapped_pts(pts, rm));
    if !((j == 1 && spec_added_start(pts, rm)) || (j == rp.len() - 2 && spec_added_end(
        pts,
        rm,
    ))) {
        assert(road_violation_at(
            all_remapped(roads)[k],
            spec_added_start(pts, rm),
            spec_added_end(pts, rm),
            rm,
            j,
        ));
        assert(way_has_violation(roads, k));
        assert(spec_has_violation(roads));
    }
    if spec_added_start(pts, rm) {
        assert(rp[0] == lookup_last(rm, pts[0])->Some_0);
    }
    if spec_added_end(pts, rm) {
        assert(rp.last() == lookup_last(rm, pts.last())->Some_0);
    }
}

} // verus!
