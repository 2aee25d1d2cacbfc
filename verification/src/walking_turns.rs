//! Deriving pedestrian turn movements at one intersection: crosswalks
//! across each road and shared sidewalk corners between adjacent sidewalks.

use crate::geometry::{
    dedup_adj, dist, lemma_dist_bounds, lemma_dist_symmetric, lemma_path_len_reverse, line_shift,
    path_len, pt_ok, pts_ok, reversed, shift_line, wraparound_index, Pt, MAX_WIDTH,
};
use crate::network::{
    lane_ok, DrivingSide, Intersection, IntersectionID, Lane, LaneID, LaneType, Road, Turn,
    TurnID, TurnType, Warning, WarningReason,
};
use vstd::prelude::*;

verus! {

/// The two turns of a forward/reverse pair: mirrored identifiers, the same
/// type, exactly reversed geometry, and consistently linked paired-identifier
/// sets (a crosswalk names its sibling and never itself).
pub open spec fn is_sibling_pair(a: Turn, b: Turn) -> bool {
    &&& b.id.parent == a.id.parent
    &&& b.id.src == a.id.dst
    &&& b.id.dst == a.id.src
    &&& b.turn_type == a.turn_type
    &&& b.geom@ == a.geom@.reverse()
    &&& a.geom@.len() >= 2
    &&& !a.other_crosswalk_ids@.contains(a.id)
    &&& !b.other_crosswalk_ids@.contains(b.id)
    &&& (a.turn_type == TurnType::Crosswalk ==> a.other_crosswalk_ids@.contains(b.id)
        && b.other_crosswalk_ids@.contains(a.id))
}

/// Every turn in the list is one half of an adjacent forward/reverse pair.
pub open spec fn turns_paired(ts: Seq<Turn>) -> bool {
    &&& ts.len() % 2 == 0
    &&& forall|n: int|
        0 <= n < ts.len() && n % 2 == 0 ==> is_sibling_pair(#[trigger] ts[n], ts[n + 1])
}

/// A shared-sidewalk-corner turn's path never exceeds ten times the straight
/// baseline between its endpoints.
pub open spec fn corner_turn_ok(t: Turn) -> bool {
    t.turn_type == TurnType::SharedSidewalkCorner ==> t.geom@.len() >= 2 && path_len(t.geom@)
        <= 10 * dist(t.geom@[0], t.geom@.last())
}

/// Builds the identifier of a turn.
pub fn turn_id(parent: IntersectionID, src: LaneID, dst: LaneID) -> (t: TurnID)
    ensures
        t == (TurnID { parent, src, dst }),
{
    TurnID { parent, src, dst }
}

pub open spec fn is_walkable(lt: LaneType) -> bool {
    lt == LaneType::Sidewalk || lt == LaneType::Shoulder
}

/// The first child typed sidewalk or shoulder, from position `j` on.
pub open spec fn first_walkable(children: Seq<(LaneID, LaneType)>, j: int) -> Option<LaneID>
    decreases children.len() - j,
{
    if j < 0 || j >= children.len() {
        None
    } else if is_walkable(children[j].1) {
        Some(children[j].0)
    } else {
        first_walkable(children, j + 1)
    }
}

/// The first sidewalk-or-shoulder lane among the given children, if any.
pub fn get_sidewalk<'a>(lanes: &'a Vec<Lane>, children: Vec<(LaneID, LaneType)>) -> (r: Option<
    &'a Lane,
>)
    requires
        forall|j: int| 0 <= j < children@.len() ==> (#[trigger] children@[j]).0.0 < lanes@.len(),
    ensures
        match r {
            Some(l) => first_walkable(children@, 0) is Some && *l == lanes@[first_walkable(
                children@,
                0,
            )->Some_0.0 as int],
            None => first_walkable(children@, 0) is None,
        },
{
    let mut j: usize = 0;
    while j < children.len()
        invariant
            0 <= j <= children@.len(),
            forall|j2: int|
                0 <= j2 < children@.len() ==> (#[trigger] children@[j2]).0.0 < lanes@.len(),
            first_walkable(children@, 0) == first_walkable(children@, j as int),
        decreases children@.len() - j,
    {
        let (id, lt) = children[j];
        if matches!(lt, LaneType::Sidewalk) || matches!(lt, LaneType::Shoulder) {
            return Some(&lanes[id.0]);
        }
        j = j + 1;
    }
    None
}

/// The forward geometry of a crosswalk between two sidewalk endpoints: jut
/// out from the first endpoint, cross along the laterally shifted segment,
/// and jut back in at the second, with exact consecutive duplicates removed.
pub open spec fn crosswalk_fwd_geom(l1p: Pt, l2p: Pt, width: int, same_arrival: bool) -> Seq<Pt> {
    let w = if same_arrival {
        -(width / 2)
    } else {
        width / 2
    };
    let sh = line_shift(l1p, l2p, w);
    dedup_adj(seq![l1p, sh.0, sh.1, l2p])
}

proof fn lemma_dedup_quad(l1p: Pt, a: Pt, b: Pt, l2p: Pt)
    requires
        l1p != l2p,
    ensures
        ({
            let d = dedup_adj(seq![l1p, a, b, l2p]);
            d.len() >= 2 && d[0] == l1p && d.last() == l2p
        }),
{
    let s = seq![l1p, a, b, l2p];
    crate::geometry::lemma_dedup_adj_shape(s);
}

/// Builds the forward/reverse crosswalk pair between two sidewalks at an
/// intersection; nothing is produced exactly when the two intersection-facing
/// endpoints coincide (degenerate geometry).
pub fn make_crosswalks(i: IntersectionID, l1: &Lane, l2: &Lane) -> (r: Option<Vec<Turn>>)
    requires
        lane_ok(*l1),
        lane_ok(*l2),
        l1.src_i == i || l1.dst_i == i,
        l2.src_i == i || l2.dst_i == i,
        l1.id != l2.id,
    ensures
        r is Some <==> l1.spec_endpoint(i) != l2.spec_endpoint(i),
        match r {
            Some(ts) => {
                &&& ts@.len() == 2
                &&& is_sibling_pair(ts@[0], ts@[1])
                &&& ts@[0].id == (TurnID { parent: i, src: l1.id, dst: l2.id })
                &&& ts@[0].turn_type == TurnType::Crosswalk
                &&& ts@[0].geom@ == crosswalk_fwd_geom(
                    l1.spec_endpoint(i),
                    l2.spec_endpoint(i),
                    l1.width as int,
                    (l1.dst_i == i) == (l2.dst_i == i),
                )
                &&& ts@[0].geom@[0] == l1.spec_endpoint(i)
                &&& ts@[0].geom@.last() == l2.spec_endpoint(i)
                &&& pts_ok(ts@[0].geom@)
                &&& corner_turn_ok(ts@[0]) && corner_turn_ok(ts@[1])
                &&& ts@[0].other_crosswalk_ids@ == seq![ts@[1].id]
                &&& ts@[1].other_crosswalk_ids@ == seq![ts@[0].id]
            },
            None => true,
        },
{
    let l1_pt = l1.endpoint(i);
    let l2_pt = l2.endpoint(i);
    if l1_pt.x == l2_pt.x && l1_pt.y == l2_pt.y {
        return None;
    }
    let same_arrival = (l1.dst_i == i) == (l2.dst_i == i);
    let half = crate::geometry::div_i64(l1.width, 2);
    let w = if same_arrival {
        -half
    } else {
        half
    };
    proof {
        assert(half == l1.width as int / 2);
        assert(0 <= half <= MAX_WIDTH);
        assert(pt_ok(l1_pt) && pt_ok(l2_pt));
    }
    let sh = shift_line(l1_pt, l2_pt, w);
    let mut quad: Vec<Pt> = Vec::new();
    quad.push(l1_pt);
    quad.push(sh.0);
    quad.push(sh.1);
    quad.push(l2_pt);
    proof {
        assert(quad@ =~= seq![l1_pt, sh.0, sh.1, l2_pt]);
        lemma_dedup_quad(l1_pt, sh.0, sh.1, l2_pt);
    }
    let geom_fwd = crate::geometry::deduped(&quad);
    let geom_rev = reversed(&geom_fwd);
    let id_fwd = turn_id(i, l1.id, l2.id);
    let id_rev = turn_id(i, l2.id, l1.id);
    let mut others_fwd: Vec<TurnID> = Vec::new();
    others_fwd.push(id_rev);
    let mut others_rev: Vec<TurnID> = Vec::new();
    others_rev.push(id_fwd);
    let t0 = Turn {
        id: id_fwd,
        turn_type: TurnType::Crosswalk,
        other_crosswalk_ids: others_fwd,
        geom: geom_fwd,
    };
    let t1 = Turn {
        id: id_rev,
        turn_type: TurnType::Crosswalk,
        other_crosswalk_ids: others_rev,
        geom: geom_rev,
    };
    proof {
        assert(t0.other_crosswalk_ids@ =~= seq![id_rev]);
        assert(t1.other_crosswalk_ids@ =~= seq![id_fwd]);
        assert(t0.other_crosswalk_ids@[0] == id_rev);
        assert(t1.other_crosswalk_ids@[0] == id_fwd);
        assert(t0.other_crosswalk_ids@.contains(id_rev));
        assert(t1.other_crosswalk_ids@.contains(id_fwd));
        assert(id_fwd != id_rev);
        assert(!t0.other_crosswalk_ids@.contains(t0.id)) by {
            if t0.other_crosswalk_ids@.contains(t0.id) {
                let n = choose|n: int|
                    0 <= n < t0.other_crosswalk_ids@.len() && t0.other_crosswalk_ids@[n] == t0.id;
                assert(t0.other_crosswalk_ids@[n] == id_rev);
            }
        }
        assert(!t1.other_crosswalk_ids@.contains(t1.id)) by {
            if t1.other_crosswalk_ids@.contains(t1.id) {
                let n = choose|n: int|
                    0 <= n < t1.other_crosswalk_ids@.len() && t1.other_crosswalk_ids@[n] == t1.id;
                assert(t1.other_crosswalk_ids@[n] == id_fwd);
            }
        }
        // the quad's points stay in range
        assert(pts_ok(quad@));
        assert(pts_ok(t0.geom@)) by {
            crate::geometry::lemma_dedup_adj_shape(quad@);
            assert(forall|n: int|
                0 <= n < t0.geom@.len() ==> quad@.contains(#[trigger] t0.geom@[n]));
            assert forall|n: int| 0 <= n < t0.geom@.len() implies pt_ok(#[trigger] t0.geom@[n])
                by {
                let m = choose|m: int| 0 <= m < quad@.len() && quad@[m] == t0.geom@[n];
            }
        }
        assert(corner_turn_ok(t0) && corner_turn_ok(t1));
    }
    let mut out: Vec<Turn> = Vec::new();
    out.push(t0);
    out.push(t1);
    Some(out)
}

/// The children of a road that arrive at `i` (a spec-level mirror of
/// `Road::incoming_lanes`).
pub open spec fn spec_incoming(r: Road, i: IntersectionID) -> Seq<(LaneID, LaneType)> {
    if i == r.i2 {
        r.lanes_fwd@
    } else {
        r.lanes_back@
    }
}

/// The children of a road that depart from `i`.
pub open spec fn spec_outgoing(r: Road, i: IntersectionID) -> Seq<(LaneID, LaneType)> {
    if i == r.i2 {
        r.lanes_back@
    } else {
        r.lanes_fwd@
    }
}

/// When a forced mid-block intersection of exactly two roads gets its single
/// crosswalk: both roads carry a sidewalk in each direction, the facing
/// sidewalk endpoints are distinct on both sides, the two crossing midpoints
/// differ, and the four sidewalks are four distinct lanes.
pub open spec fn degen_ok(lanes: Seq<Lane>, r1: Road, r2: Road, i: IntersectionID) -> bool {
    let c1i = first_walkable(spec_incoming(r1, i), 0);
    let c1o = first_walkable(spec_outgoing(r1, i), 0);
    let c2i = first_walkable(spec_incoming(r2, i), 0);
    let c2o = first_walkable(spec_outgoing(r2, i), 0);
    &&& c1i is Some
    &&& c1o is Some
    &&& c2i is Some
    &&& c2o is Some
    &&& {
        let l1i = lanes[c1i->Some_0.0 as int];
        let l1o = lanes[c1o->Some_0.0 as int];
        let l2i = lanes[c2i->Some_0.0 as int];
        let l2o = lanes[c2o->Some_0.0 as int];
        &&& l1i.spec_last_pt() != l2o.spec_first_pt()
        &&& l1o.spec_first_pt() != l2i.spec_last_pt()
        &&& crate::geometry::midpoint(l1i.spec_last_pt(), l2o.spec_first_pt())
            != crate::geometry::midpoint(l1o.spec_first_pt(), l2i.spec_last_pt())
        &&& l1i.id != l1o.id && l1i.id != l2i.id && l1i.id != l2o.id
        &&& l1o.id != l2i.id && l1o.id != l2o.id
        &&& l2i.id != l2o.id
    }
}

pub open spec fn children_valid(ch: Seq<(LaneID, LaneType)>, lanes: Seq<Lane>) -> bool {
    forall|j: int| 0 <= j < ch.len() ==> (#[trigger] ch[j]).0.0 < lanes.len()
}

pub open spec fn lanes_ok(lanes: Seq<Lane>) -> bool {
    forall|k: int| 0 <= k < lanes.len() ==> lane_ok(#[trigger] lanes[k]) && lanes[k].id.0 == k
}

proof fn lemma_first_walkable_in(ch: Seq<(LaneID, LaneType)>, j: int)
    requires
        first_walkable(ch, j) is Some,
    ensures
        exists|n: int| j <= n < ch.len() && (#[trigger] ch[n]).0 == first_walkable(ch, j)->Some_0,
    decreases ch.len() - j,
{
    if 0 <= j < ch.len() {
        if is_walkable(ch[j].1) {
            assert(ch[j].0 == first_walkable(ch, j)->Some_0);
        } else {
            lemma_first_walkable_in(ch, j + 1);
        }
    }
}

/// The lane that `get_sidewalk` picks is well formed and carries the
/// identifier of its own slot.
proof fn lemma_sidewalk_ok(lanes: Seq<Lane>, ch: Seq<(LaneID, LaneType)>, l: Lane)
    requires
        lanes_ok(lanes),
        children_valid(ch, lanes),
        first_walkable(ch, 0) is Some,
        l == lanes[first_walkable(ch, 0)->Some_0.0 as int],
    ensures
        lane_ok(l),
        l.id == first_walkable(ch, 0)->Some_0,
{
    lemma_first_walkable_in(ch, 0);
    let n = choose|n: int|
        0 <= n < ch.len() && (#[trigger] ch[n]).0 == first_walkable(ch, 0)->Some_0;
    assert(ch[n].0.0 < lanes.len());
}

/// The lane slot that a picked sidewalk child names carries that child's
/// identifier.
proof fn lemma_child_lane_id(lanes: Seq<Lane>, ch: Seq<(LaneID, LaneType)>, iid: IntersectionID)
    requires
        lanes_ok(lanes),
        children_at(ch, lanes, iid),
        first_walkable(ch, 0) is Some,
    ensures
        ({
            let c = first_walkable(ch, 0)->Some_0;
            c.0 < lanes.len() && lanes[c.0 as int].id == c
        }),
{
    lemma_first_walkable_in(ch, 0);
    let n = choose|n: int|
        0 <= n < ch.len() && (#[trigger] ch[n]).0 == first_walkable(ch, 0)->Some_0;
    assert(ch[n].0.0 < lanes.len());
}

proof fn lemma_quad_has_two(a: Pt, p1: Pt, p2: Pt, b: Pt)
    requires
        p1 != p2,
    ensures
        dedup_adj(seq![a, p1, p2, b]).len() >= 2,
{
    let s = seq![a, p1, p2, b];
    if dedup_adj(s).len() < 2 {
        crate::geometry::lemma_dedup_singleton(s);
        assert(s[1] == s[0] && s[2] == s[0]);
    }
}

/// Builds the four crosswalk turns of a degenerate (two-road) intersection:
/// one physical crossing through the two shared midpoints, entered from
/// either sidewalk of either road, all four movements linked as paired
/// alternatives.
pub fn make_degenerate_crosswalks(i: IntersectionID, lanes: &Vec<Lane>, r1: &Road, r2: &Road)
    -> (r: Option<Vec<Turn>>)
    requires
        lanes_ok(lanes@),
        i == r1.i1 || i == r1.i2,
        i == r2.i1 || i == r2.i2,
        children_valid(r1.lanes_fwd@, lanes@),
        children_valid(r1.lanes_back@, lanes@),
        children_valid(r2.lanes_fwd@, lanes@),
        children_valid(r2.lanes_back@, lanes@),
    ensures
        r is Some <==> degen_ok(lanes@, *r1, *r2, i),
        match r {
            Some(ts) => {
                &&& ts@.len() == 4
                &&& is_sibling_pair(ts@[0], ts@[1])
                &&& is_sibling_pair(ts@[2], ts@[3])
                &&& forall|n: int| 0 <= n < 4 ==> (#[trigger] ts@[n]).turn_type
                    == TurnType::Crosswalk
                &&& forall|n: int| 0 <= n < 4 ==> (#[trigger] ts@[n]).id.parent == i
                &&& {
                    let l1i = lanes@[first_walkable(spec_incoming(*r1, i), 0)->Some_0.0 as int];
                    let l1o = lanes@[first_walkable(spec_outgoing(*r1, i), 0)->Some_0.0 as int];
                    let l2i = lanes@[first_walkable(spec_incoming(*r2, i), 0)->Some_0.0 as int];
                    let l2o = lanes@[first_walkable(spec_outgoing(*r2, i), 0)->Some_0.0 as int];
                    let pt1 = crate::geometry::midpoint(l1i.spec_last_pt(), l2o.spec_first_pt());
                    let pt2 = crate::geometry::midpoint(l1o.spec_first_pt(), l2i.spec_last_pt());
                    &&& ts@[0].id == (TurnID { parent: i, src: l1i.id, dst: l1o.id })
                    &&& ts@[0].geom@ == dedup_adj(
                        seq![l1i.spec_last_pt(), pt1, pt2, l1o.spec_first_pt()],
                    )
                    &&& ts@[2].id == (TurnID { parent: i, src: l2i.id, dst: l2o.id })
                    &&& ts@[2].geom@ == dedup_adj(
                        seq![l2i.spec_last_pt(), pt2, pt1, l2o.spec_first_pt()],
                    )
                }
                &&& ts@[0].other_crosswalk_ids@ == seq![ts@[1].id, ts@[2].id, ts@[3].id]
                &&& ts@[1].other_crosswalk_ids@ == seq![ts@[0].id, ts@[2].id, ts@[3].id]
                &&& ts@[2].other_crosswalk_ids@ == seq![ts@[0].id, ts@[1].id, ts@[3].id]
                &&& ts@[3].other_crosswalk_ids@ == seq![ts@[0].id, ts@[1].id, ts@[2].id]
            },
            None => true,
        },
{
    let l1i = match get_sidewalk(lanes, r1.incoming_lanes(i)) {
        Some(l) => l,
        None => {
            return None;
        },
    };
    let l1o = match get_sidewalk(lanes, r1.outgoing_lanes(i)) {
        Some(l) => l,
        None => {
            return None;
        },
    };
    let l2i = match get_sidewalk(lanes, r2.incoming_lanes(i)) {
        Some(l) => l,
        None => {
            return None;
        },
    };
    let l2o = match get_sidewalk(lanes, r2.outgoing_lanes(i)) {
        Some(l) => l,
        None => {
            return None;
        },
    };
    proof {
        lemma_sidewalk_ok(lanes@, spec_incoming(*r1, i), *l1i);
        lemma_sidewalk_ok(lanes@, spec_outgoing(*r1, i), *l1o);
        lemma_sidewalk_ok(lanes@, spec_incoming(*r2, i), *l2i);
        lemma_sidewalk_ok(lanes@, spec_outgoing(*r2, i), *l2o);
    }
    let a1 = l1i.last_pt();
    let b1 = l2o.first_pt();
    let a2 = l1o.first_pt();
    let b2 = l2i.last_pt();
    if a1.x == b1.x && a1.y == b1.y {
        return None;
    }
    if a2.x == b2.x && a2.y == b2.y {
        return None;
    }
    proof {
        assert(lane_ok(lanes@[l1i.id.0 as int]));
    }
    let pt1 = crate::geometry::pt_midpoint(a1, b1);
    let pt2 = crate::geometry::pt_midpoint(a2, b2);
    if pt1.x == pt2.x && pt1.y == pt2.y {
        return None;
    }
    // four distinct sidewalk lanes make four distinct turn identifiers
    if l1i.id.0 == l1o.id.0 || l1i.id.0 == l2i.id.0 || l1i.id.0 == l2o.id.0 || l1o.id.0
        == l2i.id.0 || l1o.id.0 == l2o.id.0 || l2i.id.0 == l2o.id.0 {
        return None;
    }
    let id0 = turn_id(i, l1i.id, l1o.id);
    let id1 = turn_id(i, l1o.id, l1i.id);
    let id2 = turn_id(i, l2i.id, l2o.id);
    let id3 = turn_id(i, l2o.id, l2i.id);
    let mut quad0: Vec<Pt> = Vec::new();
    quad0.push(a1);
    quad0.push(pt1);
    quad0.push(pt2);
    quad0.push(a2);
    let mut quad2: Vec<Pt> = Vec::new();
    quad2.push(b2);
    quad2.push(pt2);
    quad2.push(pt1);
    quad2.push(b1);
    proof {
        assert(quad0@ =~= seq![a1, pt1, pt2, a2]);
        assert(quad2@ =~= seq![b2, pt2, pt1, b1]);
        lemma_quad_has_two(a1, pt1, pt2, a2);
        lemma_quad_has_two(b2, pt2, pt1, b1);
    }
    let g0 = crate::geometry::deduped(&quad0);
    let g1 = reversed(&g0);
    let g2 = crate::geometry::deduped(&quad2);
    let g3 = reversed(&g2);
    let t0 = Turn {
        id: id0,
        turn_type: TurnType::Crosswalk,
        other_crosswalk_ids: others_of(id1, id2, id3),
        geom: g0,
    };
    let t1 = Turn {
        id: id1,
        turn_type: TurnType::Crosswalk,
        other_crosswalk_ids: others_of(id0, id2, id3),
        geom: g1,
    };
    let t2 = Turn {
        id: id2,
        turn_type: TurnType::Crosswalk,
        other_crosswalk_ids: others_of(id0, id1, id3),
        geom: g2,
    };
    let t3 = Turn {
        id: id3,
        turn_type: TurnType::Crosswalk,
        other_crosswalk_ids: others_of(id0, id1, id2),
        geom: g3,
    };
    proof {
        assert(id0 != id1 && id0 != id2 && id0 != id3 && id1 != id2 && id1 != id3 && id2 != id3);
        assert(is_sibling_pair(t0, t1));
        assert(is_sibling_pair(t2, t3));
    }
    let mut out: Vec<Turn> = Vec::new();
    out.push(t0);
    out.push(t1);
    out.push(t2);
    out.push(t3);
    Some(out)
}

/// The paired-identifier list of one of four linked crosswalk movements.
fn others_of(a: TurnID, b: TurnID, c: TurnID) -> (r: Vec<TurnID>)
    ensures
        r@ =~= seq![a, b, c],
        r@.contains(a) && r@.contains(b) && r@.contains(c),
        forall|x: TurnID| r@.contains(x) ==> x == a || x == b || x == c,
{
    let mut r: Vec<TurnID> = Vec::new();
    r.push(a);
    r.push(b);
    r.push(c);
    proof {
        assert(r@ =~= seq![a, b, c]);
        assert(r@[0] == a && r@[1] == b && r@[2] == c);
        assert forall|x: TurnID| r@.contains(x) implies x == a || x == b || x == c by {
            let n = choose|n: int| 0 <= n < r@.len() && r@[n] == x;
        }
    }
    r
}

/// A width signed for the driving side: outward is to the right of travel
/// for right-hand traffic, to the left otherwise.
pub open spec fn outward(side: DrivingSide, w: int) -> int {
    if side == DrivingSide::Right {
        w
    } else {
        -w
    }
}

/// The ring the boundary walk runs over: the polygon's clockwise order for
/// right-hand traffic, reversed for left.
pub open spec fn corner_ring(side: DrivingSide, polygon: Seq<Pt>) -> Seq<Pt> {
    if side == DrivingSide::Left {
        polygon.reverse()
    } else {
        polygon
    }
}

/// The first lane's intersection-facing corner: its final boundary edge
/// shifted outward by half its width.
pub open spec fn corner_c1(side: DrivingSide, l1: Lane) -> Pt {
    line_shift(
        l1.points@[l1.points@.len() - 2],
        l1.points@[l1.points@.len() - 1],
        outward(side, crate::geometry::div_trunc(l1.width as int, 2)),
    ).1
}

/// The second lane's intersection-facing corner: its first boundary edge
/// shifted outward by half its width.
pub open spec fn corner_c2(side: DrivingSide, l2: Lane) -> Pt {
    line_shift(
        l2.points@[0],
        l2.points@[1],
        outward(side, crate::geometry::div_trunc(l2.width as int, 2)),
    ).0
}

/// The boundary arc traced between the two shifted corners.
pub open spec fn corner_arc(side: DrivingSide, polygon: Seq<Pt>, l1: Lane, l2: Lane) -> Option<
    Seq<Pt>,
> {
    crate::geometry::boundary_slice(
        corner_ring(side, polygon),
        corner_c2(side, l2),
        corner_c1(side, l1),
    )
}

/// The traced arc revisits a coordinate after exact deduplication, which
/// discards the whole trace.
pub open spec fn corner_arc_degenerate(
    side: DrivingSide,
    polygon: Seq<Pt>,
    l1: Lane,
    l2: Lane,
) -> bool {
    let arc = corner_arc(side, polygon, l1, l2);
    arc is Some && dedup_adj(arc->Some_0).len() >= 2 && crate::geometry::has_dup(
        dedup_adj(arc->Some_0),
    )
}

/// The unsmoothed corner path: the second sidewalk's start, the traced arc
/// pulled inward by the smaller half-width, and the first sidewalk's end —
/// assembled backwards and then reversed.
pub open spec fn corner_candidate(
    side: DrivingSide,
    polygon: Seq<Pt>,
    l1: Lane,
    l2: Lane,
) -> Seq<Pt> {
    let start = l1.points@.last();
    let end = l2.points@[0];
    let h1 = crate::geometry::div_trunc(l1.width as int, 2);
    let h2 = crate::geometry::div_trunc(l2.width as int, 2);
    let half = if h1 < h2 {
        h1
    } else {
        h2
    };
    let mid = match corner_arc(side, polygon, l1, l2) {
        Some(arc) => if dedup_adj(arc).len() >= 2 {
            crate::geometry::polyline_shift(dedup_adj(arc), outward(side, half))
        } else {
            Seq::<Pt>::empty()
        },
        None => Seq::<Pt>::empty(),
    };
    (seq![end] + mid + seq![start]).reverse()
}

/// The smoothed corner path with its final point forced back onto the
/// second sidewalk's start.
pub open spec fn corner_smoothed(
    side: DrivingSide,
    polygon: Seq<Pt>,
    l1: Lane,
    l2: Lane,
) -> Seq<Pt> {
    let end = l2.points@[0];
    let sm = crate::geometry::smoothed(corner_candidate(side, polygon, l1, l2));
    if sm.len() >= 1 && sm.last() == end {
        sm
    } else if sm.len() >= 1 {
        sm.drop_last().push(end)
    } else {
        sm
    }
}

/// Which fallback, if any, the corner construction takes, in the order the
/// fallbacks are tried: a duplicated boundary trace, smoothing that leaves
/// fewer than two points, duplicates in the final path, or a path longer
/// than ten times the straight baseline.
pub open spec fn corner_warning(
    side: DrivingSide,
    polygon: Seq<Pt>,
    l1: Lane,
    l2: Lane,
) -> Option<WarningReason> {
    if corner_arc_degenerate(side, polygon, l1, l2) {
        Some(WarningReason::DuplicateGeometry)
    } else if crate::geometry::smoothed(corner_candidate(side, polygon, l1, l2)).len() < 2 {
        Some(WarningReason::SmoothingCollapsed)
    } else if crate::geometry::has_dup(corner_smoothed(side, polygon, l1, l2)) {
        Some(WarningReason::DuplicateGeometry)
    } else if path_len(corner_smoothed(side, polygon, l1, l2)) > 10 * dist(
        l1.points@.last(),
        l2.points@[0],
    ) {
        Some(WarningReason::ExcessiveLength)
    } else {
        None
    }
}

/// The corner's polyline: the smoothed traced path when no fallback fired,
/// the straight two-point baseline otherwise.
pub open spec fn corner_points(
    side: DrivingSide,
    polygon: Seq<Pt>,
    l1: Lane,
    l2: Lane,
) -> Seq<Pt> {
    match corner_warning(side, polygon, l1, l2) {
        Some(_) => seq![l1.points@.last(), l2.points@[0]],
        None => corner_smoothed(side, polygon, l1, l2),
    }
}

/// The corner geometry is a function of the driving side, the boundary
/// polygon and the two lanes alone: equal inputs give equal paths and equal
/// fallback choices.
pub proof fn lemma_corner_deterministic(
    side: DrivingSide,
    polygon: Seq<Pt>,
    l1: Lane,
    l2: Lane,
    r1: Seq<Pt>,
    r2: Seq<Pt>,
)
    requires
        r1 == corner_points(side, polygon, l1, l2),
        r2 == corner_points(side, polygon, l1, l2),
    ensures
        r1 == r2,
{
}

/// A lateral shift to the driving side's outer edge: to the right of travel
/// for right-hand traffic, to the left otherwise.
fn side_shift_line(side: DrivingSide, a: Pt, b: Pt, w: i64) -> (r: (Pt, Pt))
    requires
        pt_ok(a),
        pt_ok(b),
        a != b,
        0 <= w <= MAX_WIDTH,
    ensures
        r == line_shift(a, b, if side == DrivingSide::Right {
            w as int
        } else {
            -w as int
        }),
        crate::geometry::pt_near(a, r.0, w as int),
        crate::geometry::pt_near(b, r.1, w as int),
{
    if matches!(side, DrivingSide::Right) {
        shift_line(a, b, w)
    } else {
        shift_line(a, b, -w)
    }
}

/// Builds the polyline of a shared sidewalk corner from the end of `l1` to
/// the start of `l2`: trace the intersection's boundary polygon between the
/// two shifted lane corners, pull the traced arc inward, and smooth it;
/// fall back to the straight baseline whenever the traced geometry
/// degenerates or explodes in length, reporting a warning. The result always
/// runs from `l1`'s last point to exactly `l2`'s first point, and its length
/// never exceeds ten times the straight baseline.
pub fn make_shared_sidewalk_corner(
    driving_side: DrivingSide,
    i: &Intersection,
    l1: &Lane,
    l2: &Lane,
    warnings: &mut Vec<Warning>,
) -> (r: Vec<Pt>)
    requires
        lane_ok(*l1),
        lane_ok(*l2),
        l1.spec_last_pt() != l2.spec_first_pt(),
        crate::geometry::pts_input_ok(i.polygon@),
        i.polygon@.len() <= 100_000,
    ensures
        r@.len() >= 2,
        r@[0] == l1.spec_last_pt(),
        r@.last() == l2.spec_first_pt(),
        pts_ok(r@),
        !crate::geometry::has_dup(r@),
        path_len(r@) <= 10 * dist(l1.spec_last_pt(), l2.spec_first_pt()),
        old(warnings)@.is_prefix_of(final(warnings)@),
        r@ == corner_points(driving_side, i.polygon@, *l1, *l2),
        final(warnings)@ == old(warnings)@ + (match corner_warning(
            driving_side,
            i.polygon@,
            *l1,
            *l2,
        ) {
            Some(w) => seq![Warning { l1: l1.id, l2: l2.id, reason: w }],
            None => Seq::<Warning>::empty(),
        }),
{
    let start_pt = l1.last_pt();
    let end_pt = l2.first_pt();
    let mut baseline: Vec<Pt> = Vec::new();
    baseline.push(start_pt);
    baseline.push(end_pt);
    let ghost base_view = baseline@;
    proof {
        assert(base_view.len() == 2 && base_view[0] == start_pt && base_view.last() == end_pt);
        assert(path_len(base_view) == path_len(base_view.drop_last()) + dist(start_pt, end_pt));
        assert(path_len(base_view.drop_last()) == 0);
        lemma_dist_bounds(start_pt, end_pt);
        assert(!crate::geometry::has_dup(base_view)) by {
            if crate::geometry::has_dup(base_view) {
                let (m, n) = choose|m: int, n: int|
                    0 <= m < n < base_view.len() && base_view[m] == base_view[n];
                assert(base_view[0] == base_view[1]);
            }
        }
        assert(old(warnings)@.is_prefix_of(old(warnings)@)) by {
            assert(old(warnings)@.subrange(0, old(warnings)@.len() as int) =~= old(warnings)@);
        }
    }
    // The two corners: each lane's boundary edge shifted outward by half its
    // width.
    let half1 = crate::geometry::div_i64(l1.width, 2);
    let half2 = crate::geometry::div_i64(l2.width, 2);
    let ll = l1.last_line();
    let fl = l2.first_line();
    let corner1 = side_shift_line(driving_side, ll.0, ll.1, half1).1;
    let corner2 = side_shift_line(driving_side, fl.0, fl.1, half2).0;
    proof {
        assert(corner1 == corner_c1(driving_side, *l1));
        assert(corner2 == corner_c2(driving_side, *l2));
    }
    let min_half = if half1 < half2 {
        half1
    } else {
        half2
    };
    let mut pts_between: Vec<Pt> = Vec::new();
    pts_between.push(end_pt);
    // Boundary polygons run clockwise; walk corner2 to corner1, reversing
    // the ring for left-hand traffic.
    let mut i_pts = clone_polygon(&i.polygon);
    if matches!(driving_side, DrivingSide::Left) {
        i_pts = reversed(&i_pts);
    }
    proof {
        assert(crate::geometry::pts_input_ok(i_pts@)) by {
            assert forall|n: int| 0 <= n < i_pts@.len() implies crate::geometry::pt_input_ok(
                #[trigger] i_pts@[n],
            ) by {
                if i_pts@ == i.polygon@.reverse() {
                    assert(i_pts@[n] == i.polygon@[i.polygon@.len() - 1 - n]);
                }
            }
        }
        assert(pts_ok(i_pts@));
        assert(i_pts@ == corner_ring(driving_side, i.polygon@));
    }
    match crate::geometry::find_pts_between(&i_pts, corner2, corner1) {
        Some(arc) => {
            let arc_dedup = crate::geometry::deduped(&arc);
            proof {
                crate::geometry::lemma_dedup_adj_shape(arc@);
                assert(crate::geometry::pts_input_ok(arc_dedup@)) by {
                    assert forall|n: int| 0 <= n < arc_dedup@.len() implies
                        crate::geometry::pt_input_ok(#[trigger] arc_dedup@[n]) by {
                        assert(arc@.contains(arc_dedup@[n]));
                        let m = choose|m: int| 0 <= m < arc@.len() && arc@[m] == arc_dedup@[n];
                        assert(i_pts@.contains(arc@[m]));
                        let m2 = choose|m2: int|
                            0 <= m2 < i_pts@.len() && i_pts@[m2] == arc@[m];
                        if i_pts@ == i.polygon@.reverse() {
                            assert(i_pts@[m2] == i.polygon@[i.polygon@.len() - 1 - m2]);
                        }
                    }
                }
            }
            if arc_dedup.len() >= 2 {
                if crate::geometry::contains_duplicates(&arc_dedup) {
                    warnings.push(
                        Warning {
                            l1: l1.id,
                            l2: l2.id,
                            reason: WarningReason::DuplicateGeometry,
                        },
                    );
                    proof {
                        assert(old(warnings)@.is_prefix_of(warnings@)) by {
                            assert(warnings@.subrange(0, old(warnings)@.len() as int) =~= old(
                                warnings,
                            )@);
                        }
                        assert(corner_arc(driving_side, i.polygon@, *l1, *l2) == Some(arc@));
                        assert(corner_arc_degenerate(driving_side, i.polygon@, *l1, *l2));
                        assert(corner_warning(driving_side, i.polygon@, *l1, *l2) == Some(
                            WarningReason::DuplicateGeometry,
                        ));
                        assert(base_view =~= corner_points(driving_side, i.polygon@, *l1, *l2));
                        assert(warnings@ =~= old(warnings)@ + seq![
                            Warning {
                                l1: l1.id,
                                l2: l2.id,
                                reason: WarningReason::DuplicateGeometry,
                            },
                        ]);
                    }
                    return baseline;
                }
                let inward = if matches!(driving_side, DrivingSide::Right) {
                    min_half
                } else {
                    -min_half
                };
                let shifted = crate::geometry::shift_polyline(&arc_dedup, inward);
                let mut n: usize = 0;
                while n < shifted.len()
                    invariant
                        0 <= n <= shifted@.len(),
                        forall|m: int|
                            0 <= m < shifted@.len() ==> crate::geometry::pt_near(
                                arc_dedup@[m],
                                #[trigger] shifted@[m],
                                MAX_WIDTH as int,
                            ),
                        crate::geometry::pts_input_ok(arc_dedup@),
                        shifted@.len() == arc_dedup@.len(),
                        pts_between@ =~= seq![l2.spec_first_pt()] + shifted@.take(n as int),
                        crate::geometry::pt_input_ok(l2.spec_first_pt()),
                        pts_ok(pts_between@),
                    decreases shifted@.len() - n,
                {
                    proof {
                        assert(crate::geometry::pt_near(
                            arc_dedup@[n as int],
                            shifted@[n as int],
                            MAX_WIDTH as int,
                        ));
                    }
                    pts_between.push(shifted[n]);
                    proof {
                        assert(pts_between@ =~= seq![l2.spec_first_pt()] + shifted@.take(n + 1));
                    }
                    n = n + 1;
                }
            }
        },
        None => {},
    }
    pts_between.push(start_pt);
    let between_rev = reversed(&pts_between);
    proof {
        assert(pts_ok(pts_between@));
        assert(pts_between@[0] == end_pt);
        assert(pts_between@.last() == start_pt);
        assert(between_rev@[0] == start_pt);
        assert(between_rev@.last() == end_pt);
        assert(pts_ok(between_rev@)) by {
            assert forall|m: int| 0 <= m < between_rev@.len() implies pt_ok(
                #[trigger] between_rev@[m],
            ) by {
                assert(between_rev@[m] == pts_between@[pts_between@.len() - 1 - m]);
            }
        }
        assert(between_rev@.len() <= 1_000_000);
        assert(!corner_arc_degenerate(driving_side, i.polygon@, *l1, *l2));
        assert(between_rev@ == corner_candidate(driving_side, i.polygon@, *l1, *l2)) by {
            assert(between_rev@ == pts_between@.reverse());
        }
    }
    // Heavy final smoothing collapses points within one distance unit; if
    // fewer than two points survive, fall back to the straight baseline.
    let mut final_pts = crate::geometry::approx_dedupe(&between_rev);
    if final_pts.len() < 2 {
        warnings.push(
            Warning { l1: l1.id, l2: l2.id, reason: WarningReason::SmoothingCollapsed },
        );
        proof {
            assert(old(warnings)@.is_prefix_of(warnings@)) by {
                assert(warnings@.subrange(0, old(warnings)@.len() as int) =~= old(warnings)@);
            }
            assert(corner_warning(driving_side, i.polygon@, *l1, *l2) == Some(
                WarningReason::SmoothingCollapsed,
            ));
            assert(base_view =~= corner_points(driving_side, i.polygon@, *l1, *l2));
            assert(warnings@ =~= old(warnings)@ + seq![
                Warning { l1: l1.id, l2: l2.id, reason: WarningReason::SmoothingCollapsed },
            ]);
        }
        return baseline;
    }
    proof {
        assert(final_pts@.len() >= 2);
        assert(final_pts@[0] == start_pt);
        assert(pts_ok(final_pts@));
    }
    // The final point must exactly match the second sidewalk's start.
    let last_now = final_pts[final_pts.len() - 1];
    if !(last_now.x == end_pt.x && last_now.y == end_pt.y) {
        final_pts.pop();
        final_pts.push(end_pt);
    }
    proof {
        assert(final_pts@.len() >= 2);
        assert(final_pts@[0] == start_pt);
        assert(final_pts@.last() == end_pt);
        assert(pts_ok(final_pts@));
        assert(final_pts@.len() <= 1_000_000);
        assert(final_pts@ == corner_smoothed(driving_side, i.polygon@, *l1, *l2));
    }
    if crate::geometry::contains_duplicates(&final_pts) {
        warnings.push(
            Warning { l1: l1.id, l2: l2.id, reason: WarningReason::DuplicateGeometry },
        );
        proof {
            assert(old(warnings)@.is_prefix_of(warnings@)) by {
                assert(warnings@.subrange(0, old(warnings)@.len() as int) =~= old(warnings)@);
            }
            assert(corner_warning(driving_side, i.polygon@, *l1, *l2) == Some(
                WarningReason::DuplicateGeometry,
            ));
            assert(base_view =~= corner_points(driving_side, i.polygon@, *l1, *l2));
            assert(warnings@ =~= old(warnings)@ + seq![
                Warning { l1: l1.id, l2: l2.id, reason: WarningReason::DuplicateGeometry },
            ]);
        }
        return baseline;
    }
    let total = crate::geometry::polyline_len(&final_pts);
    let base_len = crate::geometry::polyline_len(&baseline);
    if total > 10 * base_len {
        warnings.push(
            Warning { l1: l1.id, l2: l2.id, reason: WarningReason::ExcessiveLength },
        );
        proof {
            assert(old(warnings)@.is_prefix_of(warnings@)) by {
                assert(warnings@.subrange(0, old(warnings)@.len() as int) =~= old(warnings)@);
            }
            assert(base_len as int == dist(start_pt, end_pt));
            assert(corner_warning(driving_side, i.polygon@, *l1, *l2) == Some(
                WarningReason::ExcessiveLength,
            ));
            assert(base_view =~= corner_points(driving_side, i.polygon@, *l1, *l2));
            assert(warnings@ =~= old(warnings)@ + seq![
                Warning { l1: l1.id, l2: l2.id, reason: WarningReason::ExcessiveLength },
            ]);
        }
        return baseline;
    }
    proof {
        assert(path_len(final_pts@) <= 10 * dist(start_pt, end_pt));
        assert(base_len as int == dist(start_pt, end_pt));
        assert(corner_warning(driving_side, i.polygon@, *l1, *l2) is None);
        assert(final_pts@ == corner_points(driving_side, i.polygon@, *l1, *l2));
        assert(warnings@ =~= old(warnings)@ + Seq::<Warning>::empty());
        assert(old(warnings)@.is_prefix_of(warnings@)) by {
            assert(warnings@.subrange(0, old(warnings)@.len() as int) =~= old(warnings)@);
        }
    }
    final_pts
}

fn clone_polygon(t: &Vec<Pt>) -> (r: Vec<Pt>)
    ensures
        r@ == t@,
{
    let mut r: Vec<Pt> = Vec::new();
    let mut n: usize = 0;
    while n < t.len()
        invariant
            0 <= n <= t@.len(),
            r@ =~= t@.take(n as int),
        decreases t@.len() - n,
    {
        r.push(t[n]);
        n = n + 1;
    }
    proof {
        assert(t@.take(t@.len() as int) =~= t@);
    }
    r
}

/// No turn identifier is ever assigned twice.
pub open spec fn turn_ids_distinct(ts: Seq<Turn>) -> bool {
    forall|m: int, n: int| 0 <= m < n < ts.len() ==> (#[trigger] ts[m]).id != (#[trigger] ts[n]).id
}

/// Every turn so far is half of an adjacent forward/reverse pair, belongs
/// to this intersection, carries a never-reassigned identifier, and
/// respects the corner length bound. Distinct identifiers and pairing
/// together make each turn's reverse sibling unique.
pub open spec fn turns_ok(ts: Seq<Turn>, iid: IntersectionID) -> bool {
    &&& turns_paired(ts)
    &&& turn_ids_distinct(ts)
    &&& forall|n: int|
        0 <= n < ts.len() ==> (#[trigger] ts[n]).id.parent == iid && corner_turn_ok(ts[n])
}

/// In a paired list, the present identifiers are closed under reversal:
/// whenever a turn is present, so is its mirrored sibling.
proof fn lemma_ids_mirror_closed(ts: Seq<Turn>, id: TurnID)
    requires
        turns_paired(ts),
        has_turn(ts, id),
    ensures
        has_turn(ts, TurnID { parent: id.parent, src: id.dst, dst: id.src }),
{
    let n = choose|n: int| 0 <= n < ts.len() && ts[n].id == id;
    if n % 2 == 0 {
        assert(is_sibling_pair(ts[n], ts[n + 1]));
        assert(ts[n + 1].id == (TurnID { parent: id.parent, src: id.dst, dst: id.src }));
    } else {
        assert(is_sibling_pair(ts[n - 1], ts[n]));
        assert(ts[n - 1].id == (TurnID { parent: id.parent, src: id.dst, dst: id.src }));
    }
}

/// Whether a turn with this identifier was already emitted.
fn contains_turn_id(ts: &Vec<Turn>, id: TurnID) -> (b: bool)
    ensures
        b == has_turn(ts@, id),
{
    let mut n: usize = 0;
    while n < ts.len()
        invariant
            0 <= n <= ts@.len(),
            forall|m: int| 0 <= m < n ==> (#[trigger] ts@[m]).id != id,
        decreases ts@.len() - n,
    {
        let t = &ts[n];
        if t.id.parent.0 == id.parent.0 && t.id.src.0 == id.src.0 && t.id.dst.0 == id.dst.0 {
            proof {
                assert(ts@[n as int].id == id);
            }
            return true;
        }
        n = n + 1;
    }
    false
}

proof fn lemma_prefix_trans(a: Seq<Warning>, b: Seq<Warning>, c: Seq<Warning>)
    requires
        a.is_prefix_of(b),
        b.is_prefix_of(c),
    ensures
        a.is_prefix_of(c),
{
    assert(a =~= c.subrange(0, a.len() as int)) by {
        assert forall|n: int| 0 <= n < a.len() implies a[n] == c[n] by {
            assert(b[n] == c.subrange(0, b.len() as int)[n]);
            assert(a[n] == b.subrange(0, a.len() as int)[n]);
        }
    }
}

fn append_pair(result: &mut Vec<Turn>, t0: Turn, t1: Turn, Ghost(iid): Ghost<IntersectionID>)
    requires
        turns_ok(old(result)@, iid),
        is_sibling_pair(t0, t1),
        corner_turn_ok(t0),
        corner_turn_ok(t1),
        t0.id.parent == iid,
        t0.id != t1.id,
        !has_turn(old(result)@, t0.id),
        !has_turn(old(result)@, t1.id),
    ensures
        turns_ok(final(result)@, iid),
        final(result)@ == old(result)@ + seq![t0, t1],
{
    let ghost res0 = result@;
    let ghost ta = t0;
    let ghost tb = t1;
    result.push(t0);
    result.push(t1);
    proof {
        assert(result@ =~= res0 + seq![ta, tb]);
        assert(tb.id.parent == iid);
        assert forall|n: int|
            0 <= n < result@.len() && n % 2 == 0 implies is_sibling_pair(
            #[trigger] result@[n],
            result@[n + 1],
        ) by {
            if n < res0.len() {
                assert(result@[n] == res0[n]);
                assert(result@[n + 1] == res0[n + 1]);
            } else {
                assert(n == res0.len());
                assert(result@[n] == ta);
                assert(result@[n + 1] == tb);
            }
        }
        assert forall|n: int| 0 <= n < result@.len() implies (#[trigger] result@[n]).id.parent
            == iid && corner_turn_ok(result@[n]) by {
            if n < res0.len() {
                assert(result@[n] == res0[n]);
            } else if n == res0.len() {
                assert(result@[n] == ta);
            } else {
                assert(result@[n] == tb);
            }
        }
        assert forall|m: int, n: int| 0 <= m < n < result@.len() implies (
        #[trigger] result@[m]).id != (#[trigger] result@[n]).id by {
            if n < res0.len() {
                assert(result@[m] == res0[m] && result@[n] == res0[n]);
            } else if m < res0.len() {
                assert(result@[m] == res0[m]);
                assert(res0.contains(res0[m])) by {
                    assert(res0[m] == res0[m]);
                }
                if result@[m].id == result@[n].id {
                    assert(has_turn(res0, result@[n].id)) by {
                        assert(res0[m].id == result@[n].id);
                    }
                }
            } else {
                assert(result@[m] == ta && result@[n] == tb);
            }
        }
    }
}

/// Builds a forward/reverse shared-sidewalk-corner pair.
fn make_corner_pair(
    driving_side: DrivingSide,
    i: &Intersection,
    l1: &Lane,
    l2: &Lane,
    warnings: &mut Vec<Warning>,
) -> (pair: (Turn, Turn))
    requires
        lane_ok(*l1),
        lane_ok(*l2),
        l1.spec_last_pt() != l2.spec_first_pt(),
        crate::geometry::pts_input_ok(i.polygon@),
        i.polygon@.len() <= 100_000,
    ensures
        is_sibling_pair(pair.0, pair.1),
        corner_turn_ok(pair.0),
        corner_turn_ok(pair.1),
        pair.0.id == (TurnID { parent: i.id, src: l1.id, dst: l2.id }),
        pair.0.turn_type == TurnType::SharedSidewalkCorner,
        pair.0.geom@ == corner_points(driving_side, i.polygon@, *l1, *l2),
        old(warnings)@.is_prefix_of(final(warnings)@),
        final(warnings)@ == old(warnings)@ + (match corner_warning(
            driving_side,
            i.polygon@,
            *l1,
            *l2,
        ) {
            Some(w) => seq![Warning { l1: l1.id, l2: l2.id, reason: w }],
            None => Seq::<Warning>::empty(),
        }),
{
    let geom = make_shared_sidewalk_corner(driving_side, i, l1, l2, warnings);
    let geom_rev = reversed(&geom);
    proof {
        lemma_path_len_reverse(geom@);
        lemma_dist_symmetric(geom@[0], geom@.last());
        assert(geom_rev@[0] == geom@.last());
        assert(geom_rev@.last() == geom@[0]);
    }
    let t0 = Turn {
        id: turn_id(i.id, l1.id, l2.id),
        turn_type: TurnType::SharedSidewalkCorner,
        other_crosswalk_ids: Vec::new(),
        geom,
    };
    let t1 = Turn {
        id: turn_id(i.id, l2.id, l1.id),
        turn_type: TurnType::SharedSidewalkCorner,
        other_crosswalk_ids: Vec::new(),
        geom: geom_rev,
    };
    (t0, t1)
}

/// The lane children of a road at this intersection all name valid lanes
/// that touch the intersection.
pub open spec fn children_at(
    ch: Seq<(LaneID, LaneType)>,
    lanes: Seq<Lane>,
    iid: IntersectionID,
) -> bool {
    forall|j: int|
        0 <= j < ch.len() ==> (#[trigger] ch[j]).0.0 < lanes.len() && (lanes[ch[j].0.0 as int].src_i
            == iid || lanes[ch[j].0.0 as int].dst_i == iid)
}

/// The finalized-map context the turn generator relies on: well-formed
/// lanes, a bounded boundary polygon, and roads whose lane children exist
/// and touch this intersection.
pub open spec fn turn_env_ok(i: Intersection, roads: Seq<Road>, lanes: Seq<Lane>) -> bool {
    &&& lanes_ok(lanes)
    &&& crate::geometry::pts_input_ok(i.polygon@)
    &&& i.polygon@.len() <= 100_000
    &&& roads.len() <= 100_000
    &&& forall|k: int|
        0 <= k < roads.len() ==> {
            &&& (i.id == (#[trigger] roads[k]).i1 || i.id == roads[k].i2)
            &&& children_at(roads[k].lanes_fwd@, lanes, i.id)
            &&& children_at(roads[k].lanes_back@, lanes, i.id)
        }
}

/// The lane that `get_sidewalk` picked from children that satisfy
/// `children_at` is well formed and touches the intersection.
proof fn lemma_sidewalk_at(
    lanes: Seq<Lane>,
    ch: Seq<(LaneID, LaneType)>,
    iid: IntersectionID,
    l: Lane,
)
    requires
        lanes_ok(lanes),
        children_at(ch, lanes, iid),
        first_walkable(ch, 0) is Some,
        l == lanes[first_walkable(ch, 0)->Some_0.0 as int],
    ensures
        lane_ok(l),
        l.id == first_walkable(ch, 0)->Some_0,
        l.src_i == iid || l.dst_i == iid,
{
    lemma_first_walkable_in(ch, 0);
    let n = choose|n: int|
        0 <= n < ch.len() && (#[trigger] ch[n]).0 == first_walkable(ch, 0)->Some_0;
    assert(ch[n].0.0 < lanes.len());
}

/// Whether the turn list holds a turn with this identifier.
pub open spec fn has_turn(ts: Seq<Turn>, id: TurnID) -> bool {
    exists|n: int| 0 <= n < ts.len() && (#[trigger] ts[n]).id == id
}

/// The earlier turn list is an unchanged prefix of the later one.
pub open spec fn extends(a: Seq<Turn>, b: Seq<Turn>) -> bool {
    &&& a.len() <= b.len()
    &&& forall|n: int| 0 <= n < a.len() ==> a[n] == #[trigger] b[n]
}

proof fn lemma_extends_trans(a: Seq<Turn>, b: Seq<Turn>, c: Seq<Turn>)
    requires
        extends(a, b),
        extends(b, c),
    ensures
        extends(a, c),
{
}

proof fn lemma_has_turn_extends(a: Seq<Turn>, b: Seq<Turn>, id: TurnID)
    requires
        extends(a, b),
        has_turn(a, id),
    ensures
        has_turn(b, id),
{
    let n = choose|n: int| 0 <= n < a.len() && a[n].id == id;
    assert(b[n].id == id);
}

/// A probing-side promise already honoured survives appending more turns.
proof fn lemma_promise_extends(
    roads: Seq<Road>,
    lanes: Seq<Lane>,
    iid: IntersectionID,
    side: DrivingSide,
    k: int,
    a: Seq<Turn>,
    b: Seq<Turn>,
)
    requires
        corner_side_promise(roads, lanes, iid, side, k, a),
        extends(a, b),
    ensures
        corner_side_promise(roads, lanes, iid, side, k, b),
{
    let ci = incoming_sidewalk_of(roads, iid, k);
    if ci is Some {
        match corner_partner(roads, iid, side, k) {
            Some((bb, is_corner)) => {
                let id = TurnID { parent: iid, src: ci->Some_0, dst: bb };
                if has_turn(a, id) {
                    lemma_has_turn_extends(a, b, id);
                }
            },
            None => {},
        }
    }
}

/// Appending turns that run between two picked sidewalks keeps the whole
/// list running between picked sidewalks.
proof fn lemma_membership_step(
    roads: Seq<Road>,
    iid: IntersectionID,
    pre: Seq<Turn>,
    post: Seq<Turn>,
    a: LaneID,
    b: LaneID,
)
    requires
        turns_between_picked(roads, iid, pre),
        extends(pre, post),
        is_picked_sidewalk(roads, iid, a),
        is_picked_sidewalk(roads, iid, b),
        forall|n: int|
            pre.len() <= n < post.len() ==> ((#[trigger] post[n]).id.src == a || post[n].id.src
                == b) && (post[n].id.dst == a || post[n].id.dst == b),
    ensures
        turns_between_picked(roads, iid, post),
{
    assert forall|n: int|
        0 <= n < post.len() implies is_picked_sidewalk(roads, iid, (#[trigger] post[n]).id.src)
        && is_picked_sidewalk(roads, iid, post[n].id.dst) by {
        if n < pre.len() {
            assert(post[n] == pre[n]);
        }
    }
}

/// Appends the crosswalk pair between two distinct sidewalks, skipping
/// silently when the geometry degenerates.
fn try_crosswalk(result: &mut Vec<Turn>, iid: IntersectionID, l1: &Lane, l2: &Lane)
    requires
        lane_ok(*l1),
        lane_ok(*l2),
        l1.src_i == iid || l1.dst_i == iid,
        l2.src_i == iid || l2.dst_i == iid,
        turns_ok(old(result)@, iid),
    ensures
        turns_ok(final(result)@, iid),
        extends(old(result)@, final(result)@),
        l1.id != l2.id && l1.spec_endpoint(iid) != l2.spec_endpoint(iid) ==> has_turn(
            final(result)@,
            TurnID { parent: iid, src: l1.id, dst: l2.id },
        ),
        forall|n: int|
            old(result)@.len() <= n < final(result)@.len() ==> ((#[trigger] final(result)@[n]).turn_type
                == TurnType::Crosswalk && (final(result)@[n].id == (TurnID {
                parent: iid,
                src: l1.id,
                dst: l2.id,
            }) || final(result)@[n].id == (TurnID { parent: iid, src: l2.id, dst: l1.id }))),
{
    if l1.id.0 != l2.id.0 {
        let fwd = turn_id(iid, l1.id, l2.id);
        if !contains_turn_id(result, fwd) {
            match make_crosswalks(iid, l1, l2) {
                Some(mut ts) => {
                    let ghost ts0 = ts@;
                    let t1o = ts.pop();
                    let t0o = ts.pop();
                    let t1 = t1o.unwrap();
                    let t0 = t0o.unwrap();
                    proof {
                        assert(t1 == ts0[1]);
                        assert(t0 == ts0[0]);
                        assert(t0.id == fwd);
                        assert(!has_turn(old(result)@, t1.id)) by {
                            if has_turn(old(result)@, t1.id) {
                                lemma_ids_mirror_closed(old(result)@, t1.id);
                                assert(has_turn(old(result)@, fwd));
                            }
                        }
                    }
                    append_pair(result, t0, t1, Ghost(iid));
                    proof {
                        assert(result@[old(result)@.len() as int].id == (TurnID {
                            parent: iid,
                            src: l1.id,
                            dst: l2.id,
                        }));
                    }
                },
                None => {},
            }
        }
    }
}

/// The sidewalk lane picked on the arriving side of road `k`.
pub open spec fn incoming_sidewalk_of(roads: Seq<Road>, iid: IntersectionID, k: int) -> Option<
    LaneID,
> {
    first_walkable(spec_incoming(roads[k], iid), 0)
}

/// The sidewalk lane picked on the departing side of road `k`.
pub open spec fn outgoing_sidewalk_of(roads: Seq<Road>, iid: IntersectionID, k: int) -> Option<
    LaneID,
> {
    first_walkable(spec_outgoing(roads[k], iid), 0)
}

/// Road `k` is owed its own straight-across crossing: a sidewalk on each
/// side, carried by two distinct lanes whose intersection-facing endpoints
/// differ.
pub open spec fn own_crossing_expected(
    roads: Seq<Road>,
    lanes: Seq<Lane>,
    iid: IntersectionID,
    k: int,
) -> bool {
    let ci = incoming_sidewalk_of(roads, iid, k);
    let co = outgoing_sidewalk_of(roads, iid, k);
    &&& ci is Some
    &&& co is Some
    &&& ci->Some_0 != co->Some_0
    &&& lanes[ci->Some_0.0 as int].spec_endpoint(iid) != lanes[co->Some_0.0 as int].spec_endpoint(
        iid,
    )
}

/// The identifier of road `k`'s own crossing, from its incoming to its
/// outgoing sidewalk.
pub open spec fn own_crossing_id(roads: Seq<Road>, iid: IntersectionID, k: int) -> TurnID {
    TurnID {
        parent: iid,
        src: incoming_sidewalk_of(roads, iid, k)->Some_0,
        dst: outgoing_sidewalk_of(roads, iid, k)->Some_0,
    }
}

/// The angular neighbour `steps` roads away, in the walking direction that
/// the driving side dictates.
pub open spec fn neighbor_index(len: int, k: int, side: DrivingSide, steps: int) -> int {
    if side == DrivingSide::Right {
        (k - steps) % len
    } else {
        (k + steps) % len
    }
}

/// The sidewalk partner the probing policy picks for road `k`'s near side,
/// paired with whether it makes a shared corner (true) or a crosswalk
/// fallback (false): the one-step neighbour's outgoing sidewalk; else its
/// incoming one; else, two steps away, outgoing then incoming; else, only
/// with more than three roads, three steps away, outgoing then incoming;
/// else nothing.
pub open spec fn corner_partner(
    roads: Seq<Road>,
    iid: IntersectionID,
    side: DrivingSide,
    k: int,
) -> Option<(LaneID, bool)> {
    let len = roads.len() as int;
    let n1 = neighbor_index(len, k, side, 1);
    let n2 = neighbor_index(len, k, side, 2);
    let n3 = neighbor_index(len, k, side, 3);
    if outgoing_sidewalk_of(roads, iid, n1) is Some {
        Some((outgoing_sidewalk_of(roads, iid, n1)->Some_0, true))
    } else if incoming_sidewalk_of(roads, iid, n1) is Some {
        Some((incoming_sidewalk_of(roads, iid, n1)->Some_0, false))
    } else if outgoing_sidewalk_of(roads, iid, n2) is Some {
        Some((outgoing_sidewalk_of(roads, iid, n2)->Some_0, false))
    } else if incoming_sidewalk_of(roads, iid, n2) is Some {
        Some((incoming_sidewalk_of(roads, iid, n2)->Some_0, false))
    } else if roads.len() > 3 && outgoing_sidewalk_of(roads, iid, n3) is Some {
        Some((outgoing_sidewalk_of(roads, iid, n3)->Some_0, false))
    } else if roads.len() > 3 && incoming_sidewalk_of(roads, iid, n3) is Some {
        Some((incoming_sidewalk_of(roads, iid, n3)->Some_0, false))
    } else {
        None
    }
}

/// What road `k`'s probing side is owed: when it has an incoming sidewalk
/// and the policy picked a partner, the turn from the sidewalk to the
/// partner exists — a shared corner when the partner's facing ends differ,
/// a crosswalk fallback when the facing endpoints differ.
pub open spec fn corner_side_promise(
    roads: Seq<Road>,
    lanes: Seq<Lane>,
    iid: IntersectionID,
    side: DrivingSide,
    k: int,
    ts: Seq<Turn>,
) -> bool {
    let ci = incoming_sidewalk_of(roads, iid, k);
    ci is Some ==> match corner_partner(roads, iid, side, k) {
        Some((b, true)) => ci->Some_0 != b && lanes[ci->Some_0.0 as int].spec_last_pt()
            != lanes[b.0 as int].spec_first_pt() ==> has_turn(
            ts,
            TurnID { parent: iid, src: ci->Some_0, dst: b },
        ),
        Some((b, false)) => ci->Some_0 != b && lanes[ci->Some_0.0 as int].spec_endpoint(iid)
            != lanes[b.0 as int].spec_endpoint(iid) ==> has_turn(
            ts,
            TurnID { parent: iid, src: ci->Some_0, dst: b },
        ),
        None => true,
    }
}

/// A shared-corner turn at road `k`: the policy picked a true corner
/// partner there, the two lanes are distinct with distinct facing ends, and
/// the identifier runs between them (in either direction).
pub open spec fn corner_source_at(
    roads: Seq<Road>,
    lanes: Seq<Lane>,
    iid: IntersectionID,
    side: DrivingSide,
    k: int,
    id: TurnID,
) -> bool {
    let ci = incoming_sidewalk_of(roads, iid, k);
    let p = corner_partner(roads, iid, side, k);
    &&& ci is Some
    &&& p is Some
    &&& p->Some_0.1
    &&& ci->Some_0 != p->Some_0.0
    &&& lanes[ci->Some_0.0 as int].spec_last_pt() != lanes[p->Some_0.0.0 as int].spec_first_pt()
    &&& (id == (TurnID { parent: iid, src: ci->Some_0, dst: p->Some_0.0 }) || id == (TurnID {
        parent: iid,
        src: p->Some_0.0,
        dst: ci->Some_0,
    }))
}

/// A lane picked by the sidewalk lookup on some side of some incident road.
pub open spec fn is_picked_sidewalk(roads: Seq<Road>, iid: IntersectionID, l: LaneID) -> bool {
    exists|k: int|
        #![trigger incoming_sidewalk_of(roads, iid, k)]
        #![trigger outgoing_sidewalk_of(roads, iid, k)]
        0 <= k < roads.len() && (incoming_sidewalk_of(roads, iid, k) == Some(l)
            || outgoing_sidewalk_of(roads, iid, k) == Some(l))
}

/// Every turn runs between lanes that the sidewalk lookup picked on some
/// incident road.
pub open spec fn turns_between_picked(roads: Seq<Road>, iid: IntersectionID, ts: Seq<Turn>) -> bool {
    forall|n: int|
        0 <= n < ts.len() ==> is_picked_sidewalk(roads, iid, (#[trigger] ts[n]).id.src)
            && is_picked_sidewalk(roads, iid, ts[n].id.dst)
}

/// At a forced two-road intersection, road `k` is owed the shared corner to
/// the other road's outgoing sidewalk when both sidewalks exist, are
/// distinct, and their facing ends differ.
pub open spec fn deg2_corner_promise(
    roads: Seq<Road>,
    lanes: Seq<Lane>,
    iid: IntersectionID,
    side: DrivingSide,
    k: int,
    ts: Seq<Turn>,
) -> bool {
    let ci = incoming_sidewalk_of(roads, iid, k);
    let co = outgoing_sidewalk_of(roads, iid, neighbor_index(2, k, side, 1));
    (ci is Some && co is Some && ci->Some_0 != co->Some_0 && lanes[ci->Some_0.0 as int].spec_last_pt()
        != lanes[co->Some_0.0 as int].spec_first_pt()) ==> has_turn(
        ts,
        TurnID { parent: iid, src: ci->Some_0, dst: co->Some_0 },
    )
}

/// A dead end is owed its corner: a distinct sidewalk lane on each side,
/// whose facing ends differ.
pub open spec fn dead_end_corner_expected(
    roads: Seq<Road>,
    lanes: Seq<Lane>,
    iid: IntersectionID,
) -> bool {
    let ci = incoming_sidewalk_of(roads, iid, 0);
    let co = outgoing_sidewalk_of(roads, iid, 0);
    &&& ci is Some
    &&& co is Some
    &&& ci->Some_0 != co->Some_0
    &&& lanes[ci->Some_0.0 as int].spec_last_pt() != lanes[co->Some_0.0 as int].spec_first_pt()
}

/// Appends the shared-corner pair between two distinct sidewalks whose
/// facing ends differ, skipping silently when nothing is owed or the turn
/// already exists.
fn try_corner(
    result: &mut Vec<Turn>,
    driving_side: DrivingSide,
    i: &Intersection,
    l1: &Lane,
    l2: &Lane,
    warnings: &mut Vec<Warning>,
) -> (emitted: bool)
    requires
        lane_ok(*l1),
        lane_ok(*l2),
        crate::geometry::pts_input_ok(i.polygon@),
        i.polygon@.len() <= 100_000,
        turns_ok(old(result)@, i.id),
    ensures
        turns_ok(final(result)@, i.id),
        extends(old(result)@, final(result)@),
        old(warnings)@.is_prefix_of(final(warnings)@),
        l1.id != l2.id && l1.spec_last_pt() != l2.spec_first_pt() ==> has_turn(
            final(result)@,
            TurnID { parent: i.id, src: l1.id, dst: l2.id },
        ),
        !emitted ==> final(result)@ == old(result)@,
        emitted ==> final(result)@.len() == old(result)@.len() + 2 && l1.id != l2.id
            && l1.spec_last_pt() != l2.spec_first_pt(),
        forall|n: int|
            old(result)@.len() <= n < final(result)@.len() ==> ((#[trigger] final(result)@[n]).turn_type
                == TurnType::SharedSidewalkCorner && (final(result)@[n].id == (TurnID {
                parent: i.id,
                src: l1.id,
                dst: l2.id,
            }) || final(result)@[n].id == (TurnID { parent: i.id, src: l2.id, dst: l1.id }))),
{
    proof {
        assert(old(warnings)@.is_prefix_of(old(warnings)@)) by {
            assert(old(warnings)@.subrange(0, old(warnings)@.len() as int) =~= old(warnings)@);
        }
    }
    let p1 = l1.last_pt();
    let p2 = l2.first_pt();
    if l1.id.0 != l2.id.0 && !(p1.x == p2.x && p1.y == p2.y) {
        let fwd = turn_id(i.id, l1.id, l2.id);
        if !contains_turn_id(result, fwd) {
            let pair = make_corner_pair(driving_side, i, l1, l2, warnings);
            proof {
                assert(pair.0.id == fwd);
                assert(!has_turn(old(result)@, pair.1.id)) by {
                    if has_turn(old(result)@, pair.1.id) {
                        lemma_ids_mirror_closed(old(result)@, pair.1.id);
                        assert(has_turn(old(result)@, fwd));
                    }
                }
            }
            append_pair(result, pair.0, pair.1, Ghost(i.id));
            proof {
                assert(result@[old(result)@.len() as int].id == fwd);
            }
            return true;
        }
    }
    false
}

/// Derives the pedestrian turns of one intersection: the connected roads
/// come pre-sorted by incoming angle, lanes are the whole network's lane
/// table, and non-fatal geometry problems are appended to `warnings`.
///
/// Every produced turn is half of an adjacent forward/reverse sibling pair
/// with exactly reversed geometry and consistent paired identifiers, and no
/// shared-sidewalk corner is longer than ten times its straight baseline.
/// Success is owed where the geometry allows it: at a dead end the corner
/// pair is produced; at a forced two-road intersection the single linked
/// crossing is produced; and at a general intersection every road with a
/// usable sidewalk on each side gets its own straight-across crossing.
#[verifier::rlimit(100)]
pub fn make_walking_turns(
    driving_side: DrivingSide,
    i: &Intersection,
    roads: &Vec<Road>,
    lanes: &Vec<Lane>,
    warnings: &mut Vec<Warning>,
) -> (result: Vec<Turn>)
    requires
        turn_env_ok(*i, roads@, lanes@),
    ensures
        turns_ok(result@, i.id),
        old(warnings)@.is_prefix_of(final(warnings)@),
        roads@.len() == 1 ==> if dead_end_corner_expected(roads@, lanes@, i.id) {
            &&& result@.len() == 2
            &&& result@[0].id == own_crossing_id(roads@, i.id, 0)
            &&& result@[0].turn_type == TurnType::SharedSidewalkCorner
        } else {
            result@.len() == 0
        },
        roads@.len() == 2 && degen_ok(lanes@, roads@[0], roads@[1], i.id) ==> has_turn(
            result@,
            own_crossing_id(roads@, i.id, 0),
        ) && has_turn(result@, own_crossing_id(roads@, i.id, 1)),
        roads@.len() >= 3 ==> forall|k: int|
            0 <= k < roads@.len() && #[trigger] own_crossing_expected(roads@, lanes@, i.id, k)
                ==> has_turn(result@, own_crossing_id(roads@, i.id, k)),
        roads@.len() >= 3 ==> forall|k: int|
            0 <= k < roads@.len() ==> #[trigger] corner_side_promise(
                roads@,
                lanes@,
                i.id,
                driving_side,
                k,
                result@,
            ),
        roads@.len() >= 3 ==> forall|n: int|
            0 <= n < result@.len() && (#[trigger] result@[n]).turn_type
                == TurnType::SharedSidewalkCorner ==> exists|k: int|
                0 <= k < roads@.len() && #[trigger] corner_source_at(
                    roads@,
                    lanes@,
                    i.id,
                    driving_side,
                    k,
                    result@[n].id,
                ),
        turns_between_picked(roads@, i.id, result@),
        roads@.len() == 2 ==> forall|k: int|
            0 <= k < 2 ==> #[trigger] deg2_corner_promise(
                roads@,
                lanes@,
                i.id,
                driving_side,
                k,
                result@,
            ),
{
    let idx_offset: i64 = if matches!(driving_side, DrivingSide::Right) {
        -1
    } else {
        1
    };
    let mut result: Vec<Turn> = Vec::new();
    let ghost w0 = warnings@;
    proof {
        assert(w0.is_prefix_of(warnings@)) by {
            assert(warnings@.subrange(0, w0.len() as int) =~= w0);
        }
    }
    if roads.len() == 2 {
        match make_degenerate_crosswalks(i.id, lanes, &roads[0], &roads[1]) {
            Some(mut ts) => {
                let ghost ts0 = ts@;
                let t3 = ts.pop().unwrap();
                let t2 = ts.pop().unwrap();
                let t1 = ts.pop().unwrap();
                let t0 = ts.pop().unwrap();
                proof {
                    assert(t0 == ts0[0] && t1 == ts0[1] && t2 == ts0[2] && t3 == ts0[3]);
                    assert(corner_turn_ok(t0) && corner_turn_ok(t1) && corner_turn_ok(t2)
                        && corner_turn_ok(t3));
                }
                append_pair(&mut result, t0, t1, Ghost(i.id));
                append_pair(&mut result, t2, t3, Ghost(i.id));
                proof {
                    lemma_child_lane_id(lanes@, spec_incoming(roads@[0], i.id), i.id);
                    lemma_child_lane_id(lanes@, spec_outgoing(roads@[0], i.id), i.id);
                    lemma_child_lane_id(lanes@, spec_incoming(roads@[1], i.id), i.id);
                    lemma_child_lane_id(lanes@, spec_outgoing(roads@[1], i.id), i.id);
                    assert(result@ =~= seq![t0, t1, t2, t3]);
                    assert(result@[0].id == own_crossing_id(roads@, i.id, 0));
                    assert(result@[2].id == own_crossing_id(roads@, i.id, 1));
                    assert(has_turn(result@, own_crossing_id(roads@, i.id, 0)));
                    assert(has_turn(result@, own_crossing_id(roads@, i.id, 1)));
                    let ci0 = incoming_sidewalk_of(roads@, i.id, 0)->Some_0;
                    let co0 = outgoing_sidewalk_of(roads@, i.id, 0)->Some_0;
                    let ci1 = incoming_sidewalk_of(roads@, i.id, 1)->Some_0;
                    let co1 = outgoing_sidewalk_of(roads@, i.id, 1)->Some_0;
                    assert(is_picked_sidewalk(roads@, i.id, ci0));
                    assert(is_picked_sidewalk(roads@, i.id, co0));
                    assert(is_picked_sidewalk(roads@, i.id, ci1));
                    assert(is_picked_sidewalk(roads@, i.id, co1));
                    assert(turns_between_picked(roads@, i.id, result@)) by {
                        assert forall|n: int|
                            0 <= n < result@.len() implies is_picked_sidewalk(
                            roads@,
                            i.id,
                            (#[trigger] result@[n]).id.src,
                        ) && is_picked_sidewalk(roads@, i.id, result@[n].id.dst) by {
                            assert(is_sibling_pair(ts0[0], ts0[1]));
                            assert(is_sibling_pair(ts0[2], ts0[3]));
                            if n == 0 {
                                assert(result@[0].id.src == ci0 && result@[0].id.dst == co0);
                            } else if n == 1 {
                                assert(result@[1].id.src == co0 && result@[1].id.dst == ci0);
                            } else if n == 2 {
                                assert(result@[2].id.src == ci1 && result@[2].id.dst == co1);
                            } else {
                                assert(result@[3].id.src == co1 && result@[3].id.dst == ci1);
                            }
                        }
                    }
                }
            },
            None => {},
        }
        let ghost after_degen = result@;
        let mut idx1: usize = 0;
        while idx1 < 2
            invariant
                0 <= idx1 <= 2,
                roads@.len() == 2,
                idx_offset == 1 || idx_offset == -1,
                driving_side == DrivingSide::Right ==> idx_offset == -1,
                driving_side == DrivingSide::Left ==> idx_offset == 1,
                turn_env_ok(*i, roads@, lanes@),
                turns_ok(result@, i.id),
                w0.is_prefix_of(warnings@),
                extends(after_degen, result@),
                turns_between_picked(roads@, i.id, result@),
                forall|k: int|
                    0 <= k < idx1 ==> #[trigger] deg2_corner_promise(
                        roads@,
                        lanes@,
                        i.id,
                        driving_side,
                        k,
                        result@,
                    ),
            decreases 2 - idx1,
        {
            let ghost rb = result@;
            let other = wraparound_index(2, idx1 as i64 + idx_offset);
            proof {
                assert(other as int == neighbor_index(2, idx1 as int, driving_side, 1));
            }
            match get_sidewalk(lanes, roads[idx1].incoming_lanes(i.id)) {
                Some(l1) => {
                    proof {
                        lemma_sidewalk_at(
                            lanes@,
                            spec_incoming(roads@[idx1 as int], i.id),
                            i.id,
                            *l1,
                        );
                        assert(incoming_sidewalk_of(roads@, i.id, idx1 as int) == Some(l1.id));
                        assert(is_picked_sidewalk(roads@, i.id, l1.id));
                    }
                    match get_sidewalk(lanes, roads[other].outgoing_lanes(i.id)) {
                        Some(l2) => {
                            proof {
                                lemma_sidewalk_at(
                                    lanes@,
                                    spec_outgoing(roads@[other as int], i.id),
                                    i.id,
                                    *l2,
                                );
                                assert(outgoing_sidewalk_of(roads@, i.id, other as int) == Some(
                                    l2.id,
                                ));
                                assert(is_picked_sidewalk(roads@, i.id, l2.id));
                            }
                            let ghost wa = warnings@;
                            try_corner(&mut result, driving_side, i, l1, l2, warnings);
                            proof {
                                lemma_prefix_trans(w0, wa, warnings@);
                                lemma_membership_step(roads@, i.id, rb, result@, l1.id, l2.id);
                                assert(deg2_corner_promise(
                                    roads@,
                                    lanes@,
                                    i.id,
                                    driving_side,
                                    idx1 as int,
                                    result@,
                                ));
                            }
                        },
                        None => {
                            proof {
                                assert(outgoing_sidewalk_of(roads@, i.id, other as int) is None);
                                assert(deg2_corner_promise(
                                    roads@,
                                    lanes@,
                                    i.id,
                                    driving_side,
                                    idx1 as int,
                                    result@,
                                ));
                            }
                        },
                    }
                },
                None => {
                    proof {
                        assert(incoming_sidewalk_of(roads@, i.id, idx1 as int) is None);
                        assert(deg2_corner_promise(
                            roads@,
                            lanes@,
                            i.id,
                            driving_side,
                            idx1 as int,
                            result@,
                        ));
                    }
                },
            }
            proof {
                assert(extends(rb, result@));
                lemma_extends_trans(after_degen, rb, result@);
                assert forall|k: int| 0 <= k < idx1 + 1 implies #[trigger] deg2_corner_promise(
                    roads@,
                    lanes@,
                    i.id,
                    driving_side,
                    k,
                    result@,
                ) by {
                    if k < idx1 {
                        assert(deg2_corner_promise(roads@, lanes@, i.id, driving_side, k, rb));
                        let ci = incoming_sidewalk_of(roads@, i.id, k);
                        let co = outgoing_sidewalk_of(
                            roads@,
                            i.id,
                            neighbor_index(2, k, driving_side, 1),
                        );
                        if ci is Some && co is Some && ci->Some_0 != co->Some_0
                            && lanes@[ci->Some_0.0 as int].spec_last_pt()
                            != lanes@[co->Some_0.0 as int].spec_first_pt() {
                            lemma_has_turn_extends(
                                rb,
                                result@,
                                TurnID { parent: i.id, src: ci->Some_0, dst: co->Some_0 },
                            );
                        }
                    }
                }
            }
            idx1 = idx1 + 1;
        }
        proof {
            if degen_ok(lanes@, roads@[0], roads@[1], i.id) {
                lemma_has_turn_extends(after_degen, result@, own_crossing_id(roads@, i.id, 0));
                lemma_has_turn_extends(after_degen, result@, own_crossing_id(roads@, i.id, 1));
            }
        }
        return result;
    }
    if roads.len() == 1 {
        match get_sidewalk(lanes, roads[0].incoming_lanes(i.id)) {
            Some(l1) => {
                proof {
                    lemma_sidewalk_at(lanes@, spec_incoming(roads@[0], i.id), i.id, *l1);
                }
                match get_sidewalk(lanes, roads[0].outgoing_lanes(i.id)) {
                    Some(l2) => {
                        proof {
                            lemma_sidewalk_at(lanes@, spec_outgoing(roads@[0], i.id), i.id, *l2);
                        }
                        let p1 = l1.last_pt();
                        let p2 = l2.first_pt();
                        if !(p1.x == p2.x && p1.y == p2.y) {
                            if l1.id.0 != l2.id.0 {
                                let ghost wa = warnings@;
                                let pair = make_corner_pair(driving_side, i, l1, l2, warnings);
                                proof {
                                    assert(!has_turn(result@, pair.0.id));
                                    assert(!has_turn(result@, pair.1.id));
                                }
                                append_pair(&mut result, pair.0, pair.1, Ghost(i.id));
                                proof {
                                    lemma_prefix_trans(w0, wa, warnings@);
                                    assert(result@.len() == 2);
                                    assert(result@[0].id == own_crossing_id(roads@, i.id, 0));
                                    assert(result@[0].turn_type
                                        == TurnType::SharedSidewalkCorner);
                                    assert(has_turn(result@, own_crossing_id(roads@, i.id, 0)));
                                }
                            }
                        } else {
                            warnings.push(
                                Warning {
                                    l1: l1.id,
                                    l2: l2.id,
                                    reason: WarningReason::DegenerateGeometry,
                                },
                            );
                            proof {
                                assert(w0.is_prefix_of(warnings@)) by {
                                    assert(warnings@.subrange(0, w0.len() as int) =~= w0);
                                }
                            }
                        }
                    },
                    None => {},
                }
            },
            None => {},
        }
        return result;
    }
    let mut idx1: usize = 0;
    while idx1 < roads.len()
        invariant
            0 <= idx1 <= roads@.len(),
            idx_offset == 1 || idx_offset == -1,
            driving_side == DrivingSide::Right ==> idx_offset == -1,
            driving_side == DrivingSide::Left ==> idx_offset == 1,
            turn_env_ok(*i, roads@, lanes@),
            turns_ok(result@, i.id),
            w0.is_prefix_of(warnings@),
            turns_between_picked(roads@, i.id, result@),
            forall|k: int|
                0 <= k < idx1 && #[trigger] own_crossing_expected(roads@, lanes@, i.id, k)
                    ==> has_turn(result@, own_crossing_id(roads@, i.id, k)),
            forall|k: int|
                0 <= k < idx1 ==> #[trigger] corner_side_promise(
                    roads@,
                    lanes@,
                    i.id,
                    driving_side,
                    k,
                    result@,
                ),
            forall|n: int|
                0 <= n < result@.len() && (#[trigger] result@[n]).turn_type
                    == TurnType::SharedSidewalkCorner ==> exists|k: int|
                    0 <= k < roads@.len() && #[trigger] corner_source_at(
                        roads@,
                        lanes@,
                        i.id,
                        driving_side,
                        k,
                        result@[n].id,
                    ),
        decreases roads@.len() - idx1,
    {
        let ghost rb = result@;
        match get_sidewalk(lanes, roads[idx1].incoming_lanes(i.id)) {
            Some(l1) => {
                proof {
                    lemma_sidewalk_at(lanes@, spec_incoming(roads@[idx1 as int], i.id), i.id, *l1);
                    assert(incoming_sidewalk_of(roads@, i.id, idx1 as int) == Some(l1.id));
                    assert(is_picked_sidewalk(roads@, i.id, l1.id));
                }
                // the crosswalk to this road's own other side
                match get_sidewalk(lanes, roads[idx1].outgoing_lanes(i.id)) {
                    Some(l2) => {
                        proof {
                            lemma_sidewalk_at(
                                lanes@,
                                spec_outgoing(roads@[idx1 as int], i.id),
                                i.id,
                                *l2,
                            );
                            assert(outgoing_sidewalk_of(roads@, i.id, idx1 as int) == Some(
                                l2.id,
                            ));
                            assert(is_picked_sidewalk(roads@, i.id, l2.id));
                        }
                        try_crosswalk(&mut result, i.id, l1, l2);
                        proof {
                            lemma_membership_step(roads@, i.id, rb, result@, l1.id, l2.id);
                            assert(forall|n: int|
                                rb.len() <= n < result@.len() ==> (#[trigger] result@[n]).turn_type
                                    == TurnType::Crosswalk);
                        }
                    },
                    None => {},
                }
                let ghost rm = result@;
                proof {
                    assert(extends(rb, rm));
                    if own_crossing_expected(roads@, lanes@, i.id, idx1 as int) {
                        assert(has_turn(rm, own_crossing_id(roads@, i.id, idx1 as int)));
                    }
                    assert(turns_between_picked(roads@, i.id, rm));
                    assert(forall|n: int|
                        rb.len() <= n < rm.len() ==> (#[trigger] rm[n]).turn_type
                            == TurnType::Crosswalk);
                }
                // the shared corner with the angular neighbour, probing
                // further around for roads without sidewalks
                let n1 = wraparound_index(roads.len(), idx1 as i64 + idx_offset);
                proof {
                    assert(n1 as int == neighbor_index(
                        roads@.len() as int,
                        idx1 as int,
                        driving_side,
                        1,
                    ));
                }
                match get_sidewalk(lanes, roads[n1].outgoing_lanes(i.id)) {
                    Some(l2) => {
                        proof {
                            lemma_sidewalk_at(
                                lanes@,
                                spec_outgoing(roads@[n1 as int], i.id),
                                i.id,
                                *l2,
                            );
                            assert(outgoing_sidewalk_of(roads@, i.id, n1 as int) == Some(l2.id));
                            assert(is_picked_sidewalk(roads@, i.id, l2.id));
                            assert(corner_partner(roads@, i.id, driving_side, idx1 as int)
                                == Some((l2.id, true)));
                        }
                        let ghost wa = warnings@;
                        let emitted = try_corner(&mut result, driving_side, i, l1, l2, warnings);
                        proof {
                            lemma_prefix_trans(w0, wa, warnings@);
                            lemma_membership_step(roads@, i.id, rm, result@, l1.id, l2.id);
                            if emitted {
                                assert forall|n: int|
                                    rm.len() <= n < result@.len() implies corner_source_at(
                                    roads@,
                                    lanes@,
                                    i.id,
                                    driving_side,
                                    idx1 as int,
                                    (#[trigger] result@[n]).id,
                                ) by {}
                            }
                            assert(corner_side_promise(
                                roads@,
                                lanes@,
                                i.id,
                                driving_side,
                                idx1 as int,
                                result@,
                            ));
                        }
                    },
                    None => {
                        proof {
                            assert(outgoing_sidewalk_of(roads@, i.id, n1 as int) is None);
                        }
                        match get_sidewalk(lanes, roads[n1].incoming_lanes(i.id)) {
                            Some(l2) => {
                                // the neighbour has a sidewalk only on its far side
                                proof {
                                    lemma_sidewalk_at(
                                        lanes@,
                                        spec_incoming(roads@[n1 as int], i.id),
                                        i.id,
                                        *l2,
                                    );
                                    assert(incoming_sidewalk_of(roads@, i.id, n1 as int) == Some(
                                        l2.id,
                                    ));
                                    assert(is_picked_sidewalk(roads@, i.id, l2.id));
                                    assert(corner_partner(roads@, i.id, driving_side, idx1 as int)
                                        == Some((l2.id, false)));
                                }
                                try_crosswalk(&mut result, i.id, l1, l2);
                                proof {
                                    lemma_membership_step(roads@, i.id, rm, result@, l1.id, l2.id);
                                    assert(forall|n: int|
                                        rm.len() <= n < result@.len() ==> (
                                        #[trigger] result@[n]).turn_type == TurnType::Crosswalk);
                                    assert(corner_side_promise(
                                        roads@,
                                        lanes@,
                                        i.id,
                                        driving_side,
                                        idx1 as int,
                                        result@,
                                    ));
                                }
                            },
                            None => {
                                proof {
                                    assert(incoming_sidewalk_of(roads@, i.id, n1 as int) is None);
                                }
                                // the neighbour has no sidewalk at all: probe
                                // past it (ramps and medians)
                                let n2 = wraparound_index(
                                    roads.len(),
                                    idx1 as i64 + 2 * idx_offset,
                                );
                                proof {
                                    assert(n2 as int == neighbor_index(
                                        roads@.len() as int,
                                        idx1 as int,
                                        driving_side,
                                        2,
                                    ));
                                }
                                match get_sidewalk(lanes, roads[n2].outgoing_lanes(i.id)) {
                                    Some(l2) => {
                                        proof {
                                            lemma_sidewalk_at(
                                                lanes@,
                                                spec_outgoing(roads@[n2 as int], i.id),
                                                i.id,
                                                *l2,
                                            );
                                            assert(outgoing_sidewalk_of(roads@, i.id, n2 as int)
                                                == Some(l2.id));
                                            assert(is_picked_sidewalk(roads@, i.id, l2.id));
                                            assert(corner_partner(
                                                roads@,
                                                i.id,
                                                driving_side,
                                                idx1 as int,
                                            ) == Some((l2.id, false)));
                                        }
                                        try_crosswalk(&mut result, i.id, l1, l2);
                                        proof {
                                            lemma_membership_step(
                                                roads@,
                                                i.id,
                                                rm,
                                                result@,
                                                l1.id,
                                                l2.id,
                                            );
                                            assert(forall|n: int|
                                                rm.len() <= n < result@.len() ==> (
                                                #[trigger] result@[n]).turn_type
                                                    == TurnType::Crosswalk);
                                            assert(corner_side_promise(
                                                roads@,
                                                lanes@,
                                                i.id,
                                                driving_side,
                                                idx1 as int,
                                                result@,
                                            ));
                                        }
                                    },
                                    None => {
                                        proof {
                                            assert(outgoing_sidewalk_of(roads@, i.id, n2 as int)
                                                is None);
                                        }
                                        match get_sidewalk(
                                            lanes,
                                            roads[n2].incoming_lanes(i.id),
                                        ) {
                                            Some(l2) => {
                                                proof {
                                                    lemma_sidewalk_at(
                                                        lanes@,
                                                        spec_incoming(roads@[n2 as int], i.id),
                                                        i.id,
                                                        *l2,
                                                    );
                                                    assert(incoming_sidewalk_of(
                                                        roads@,
                                                        i.id,
                                                        n2 as int,
                                                    ) == Some(l2.id));
                                                    assert(is_picked_sidewalk(
                                                        roads@,
                                                        i.id,
                                                        l2.id,
                                                    ));
                                                    assert(corner_partner(
                                                        roads@,
                                                        i.id,
                                                        driving_side,
                                                        idx1 as int,
                                                    ) == Some((l2.id, false)));
                                                }
                                                try_crosswalk(&mut result, i.id, l1, l2);
                                                proof {
                                                    lemma_membership_step(
                                                        roads@,
                                                        i.id,
                                                        rm,
                                                        result@,
                                                        l1.id,
                                                        l2.id,
                                                    );
                                                    assert(forall|n: int|
                                                        rm.len() <= n < result@.len() ==> (
                                                        #[trigger] result@[n]).turn_type
                                                            == TurnType::Crosswalk);
                                                    assert(corner_side_promise(
                                                        roads@,
                                                        lanes@,
                                                        i.id,
                                                        driving_side,
                                                        idx1 as int,
                                                        result@,
                                                    ));
                                                }
                                            },
                                            None => {
                                                proof {
                                                    assert(incoming_sidewalk_of(
                                                        roads@,
                                                        i.id,
                                                        n2 as int,
                                                    ) is None);
                                                }
                                                if roads.len() > 3 {
                                                    let n3 = wraparound_index(
                                                        roads.len(),
                                                        idx1 as i64 + 3 * idx_offset,
                                                    );
                                                    proof {
                                                        assert(n3 as int == neighbor_index(
                                                            roads@.len() as int,
                                                            idx1 as int,
                                                            driving_side,
                                                            3,
                                                        ));
                                                    }
                                                    match get_sidewalk(
                                                        lanes,
                                                        roads[n3].outgoing_lanes(i.id),
                                                    ) {
                                                        Some(l2) => {
                                                            proof {
                                                                lemma_sidewalk_at(
                                                                    lanes@,
                                                                    spec_outgoing(
                                                                        roads@[n3 as int],
                                                                        i.id,
                                                                    ),
                                                                    i.id,
                                                                    *l2,
                                                                );
                                                                assert(outgoing_sidewalk_of(
                                                                    roads@,
                                                                    i.id,
                                                                    n3 as int,
                                                                ) == Some(l2.id));
                                                                assert(is_picked_sidewalk(
                                                                    roads@,
                                                                    i.id,
                                                                    l2.id,
                                                                ));
                                                                assert(corner_partner(
                                                                    roads@,
                                                                    i.id,
                                                                    driving_side,
                                                                    idx1 as int,
                                                                ) == Some((l2.id, false)));
                                                            }
                                                            try_crosswalk(
                                                                &mut result,
                                                                i.id,
                                                                l1,
                                                                l2,
                                                            );
                                                            proof {
                                                                lemma_membership_step(
                                                                    roads@,
                                                                    i.id,
                                                                    rm,
                                                                    result@,
                                                                    l1.id,
                                                                    l2.id,
                                                                );
                                                                assert(forall|n: int|
                                                                    rm.len() <= n < result@.len()
                                                                        ==> (
                                                                    #[trigger] result@[n]).turn_type
                                                                        == TurnType::Crosswalk);
                                                                assert(corner_side_promise(
                                                                    roads@,
                                                                    lanes@,
                                                                    i.id,
                                                                    driving_side,
                                                                    idx1 as int,
                                                                    result@,
                                                                ));
                                                            }
                                                        },
                                                        None => {
                                                            proof {
                                                                assert(outgoing_sidewalk_of(
                                                                    roads@,
                                                                    i.id,
                                                                    n3 as int,
                                                                ) is None);
                                                            }
                                                            match get_sidewalk(
                                                                lanes,
                                                                roads[n3].incoming_lanes(i.id),
                                                            ) {
                                                                Some(l2) => {
                                                                    proof {
                                                                        lemma_sidewalk_at(
                                                                            lanes@,
                                                                            spec_incoming(
                                                                                roads@[n3 as int],
                                                                                i.id,
                                                                            ),
                                                                            i.id,
                                                                            *l2,
                                                                        );
                                                                        assert(incoming_sidewalk_of(
                                                                            roads@,
                                                                            i.id,
                                                                            n3 as int,
                                                                        ) == Some(l2.id));
                                                                        assert(is_picked_sidewalk(
                                                                            roads@,
                                                                            i.id,
                                                                            l2.id,
                                                                        ));
                                                                        assert(corner_partner(
                                                                            roads@,
                                                                            i.id,
                                                                            driving_side,
                                                                            idx1 as int,
                                                                        ) == Some((
                                                                            l2.id,
                                                                            false,
                                                                        )));
                                                                    }
                                                                    try_crosswalk(
                                                                        &mut result,
                                                                        i.id,
                                                                        l1,
                                                                        l2,
                                                                    );
                                                                    proof {
                                                                        lemma_membership_step(
                                                                            roads@,
                                                                            i.id,
                                                                            rm,
                                                                            result@,
                                                                            l1.id,
                                                                            l2.id,
                                                                        );
                                                                        assert(forall|n: int|
                                                                            rm.len() <= n
                                                                                < result@.len()
                                                                                ==> (
                                                                            #[trigger] result@[n]).turn_type
                                                                                == TurnType::Crosswalk);
                                                                        assert(corner_side_promise(
                                                                            roads@,
                                                                            lanes@,
                                                                            i.id,
                                                                            driving_side,
                                                                            idx1 as int,
                                                                            result@,
                                                                        ));
                                                                    }
                                                                },
                                                                None => {
                                                                    proof {
                                                                        assert(incoming_sidewalk_of(
                                                                            roads@,
                                                                            i.id,
                                                                            n3 as int,
                                                                        ) is None);
                                                                        assert(corner_partner(
                                                                            roads@,
                                                                            i.id,
                                                                            driving_side,
                                                                            idx1 as int,
                                                                        ) is None);
                                                                        assert(corner_side_promise(
                                                                            roads@,
                                                                            lanes@,
                                                                            i.id,
                                                                            driving_side,
                                                                            idx1 as int,
                                                                            result@,
                                                                        ));
                                                                    }
                                                                },
                                                            }
                                                        },
                                                    }
                                                } else {
                                                    proof {
                                                        assert(corner_partner(
                                                            roads@,
                                                            i.id,
                                                            driving_side,
                                                            idx1 as int,
                                                        ) is None);
                                                        assert(corner_side_promise(
                                                            roads@,
                                                            lanes@,
                                                            i.id,
                                                            driving_side,
                                                            idx1 as int,
                                                            result@,
                                                        ));
                                                    }
                                                }
                                            },
                                        }
                                    },
                                }
                            },
                        }
                    },
                }
                proof {
                    assert(extends(rm, result@));
                    lemma_extends_trans(rb, rm, result@);
                    if own_crossing_expected(roads@, lanes@, i.id, idx1 as int) {
                        lemma_has_turn_extends(
                            rm,
                            result@,
                            own_crossing_id(roads@, i.id, idx1 as int),
                        );
                    }
                    assert forall|n: int|
                        0 <= n < result@.len() && (#[trigger] result@[n]).turn_type
                            == TurnType::SharedSidewalkCorner implies exists|k: int|
                        0 <= k < roads@.len() && #[trigger] corner_source_at(
                            roads@,
                            lanes@,
                            i.id,
                            driving_side,
                            k,
                            result@[n].id,
                        ) by {
                        if n < rb.len() {
                            assert(result@[n] == rb[n]);
                        } else if n < rm.len() {
                            assert(result@[n] == rm[n]);
                        }
                    }
                }
            },
            None => {
                proof {
                    assert(incoming_sidewalk_of(roads@, i.id, idx1 as int) is None);
                    assert(corner_side_promise(
                        roads@,
                        lanes@,
                        i.id,
                        driving_side,
                        idx1 as int,
                        result@,
                    ));
                }
            },
        }
        proof {
            assert(extends(rb, result@));
            assert forall|k: int|
                0 <= k < idx1 + 1 && #[trigger] own_crossing_expected(
                    roads@,
                    lanes@,
                    i.id,
                    k,
                ) implies has_turn(result@, own_crossing_id(roads@, i.id, k)) by {
                if k < idx1 {
                    lemma_has_turn_extends(rb, result@, own_crossing_id(roads@, i.id, k));
                }
            }
            assert forall|k: int| 0 <= k < idx1 + 1 implies #[trigger] corner_side_promise(
                roads@,
                lanes@,
                i.id,
                driving_side,
                k,
                result@,
            ) by {
                if k < idx1 {
                    lemma_promise_extends(roads@, lanes@, i.id, driving_side, k, rb, result@);
                }
            }
        }
        idx1 = idx1 + 1;
    }
    result
}

} // verus!
