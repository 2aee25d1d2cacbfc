//! The data model of the road network: raw survey ways, intersections,
//! bounded road segments, lanes and pedestrian turns.

use crate::geometry::{pts_input_ok, Pt, MAX_WIDTH};
use vstd::prelude::*;

verus! {

#[derive(Clone, Copy, Debug, PartialEq, Eq, Structural, Hash)]
pub struct IntersectionID(pub usize);

#[derive(Clone, Copy, Debug, PartialEq, Eq, Structural, Hash)]
pub struct RoadID(pub usize);

#[derive(Clone, Copy, Debug, PartialEq, Eq, Structural, Hash)]
pub struct LaneID(pub usize);

#[derive(Clone, Copy, Debug, PartialEq, Eq, Structural, Hash)]
pub enum LaneType {
    Sidewalk,
    Shoulder,
    Driving,
    Parking,
    Biking,
}

#[derive(Clone, Copy, Debug, PartialEq, Eq, Structural, Hash)]
pub enum IntersectionType {
    StopSign,
    TrafficSignal,
    Border,
}

#[derive(Clone, Copy, Debug, PartialEq, Eq, Structural, Hash)]
pub enum DrivingSide {
    Right,
    Left,
}

#[derive(Clone, Copy, Debug, PartialEq, Eq, Structural, Hash)]
pub struct TurnID {
    pub parent: IntersectionID,
    pub src: LaneID,
    pub dst: LaneID,
}

#[derive(Clone, Copy, Debug, PartialEq, Eq, Structural, Hash)]
pub enum TurnType {
    Crosswalk,
    SharedSidewalkCorner,
}

/// An unprocessed survey way: an ordered run of at least two points, its
/// source identifier and its key/value tags.
pub struct RawRoad {
    pub osm_way_id: i64,
    pub points: Vec<Pt>,
    pub tags: Vec<(String, String)>,
}

pub open spec fn raw_road_ok(r: RawRoad) -> bool {
    &&& r.points@.len() >= 2
    &&& pts_input_ok(r.points@)
}

/// An opaque building footprint, passed through construction untouched.
pub struct Building {
    pub osm_way_id: i64,
    pub points: Vec<Pt>,
    pub tags: Vec<(String, String)>,
}

/// An opaque area outline, passed through construction untouched.
pub struct Area {
    pub osm_way_id: i64,
    pub points: Vec<Pt>,
    pub tags: Vec<(String, String)>,
}

/// A graph node where roads meet or a road ends. The boundary polygon is
/// assigned by a later stage and read back when turns are generated.
pub struct Intersection {
    pub id: IntersectionID,
    pub point: Pt,
    pub elevation: i64,
    pub intersection_type: IntersectionType,
    pub label: Option<String>,
    pub polygon: Vec<Pt>,
}

/// A directed-endpoint edge between two intersections, carrying an ordered
/// geometry and the tags of the way it came from. Lanes are assigned by a
/// later stage.
pub struct Road {
    pub id: RoadID,
    pub points: Vec<Pt>,
    pub i1: IntersectionID,
    pub i2: IntersectionID,
    pub osm_way_id: i64,
    pub tags: Vec<(String, String)>,
    pub lanes_fwd: Vec<(LaneID, LaneType)>,
    pub lanes_back: Vec<(LaneID, LaneType)>,
}

impl Road {
    /// The lane children that arrive at `i`.
    pub fn incoming_lanes(&self, i: IntersectionID) -> (r: Vec<(LaneID, LaneType)>)
        requires
            i == self.i1 || i == self.i2,
        ensures
            r@ == if i == self.i2 {
                self.lanes_fwd@
            } else {
                self.lanes_back@
            },
    {
        if i == self.i2 {
            clone_children(&self.lanes_fwd)
        } else {
            clone_children(&self.lanes_back)
        }
    }

    /// The lane children that depart from `i`.
    pub fn outgoing_lanes(&self, i: IntersectionID) -> (r: Vec<(LaneID, LaneType)>)
        requires
            i == self.i1 || i == self.i2,
        ensures
            r@ == if i == self.i2 {
                self.lanes_back@
            } else {
                self.lanes_fwd@
            },
    {
        if i == self.i2 {
            clone_children(&self.lanes_back)
        } else {
            clone_children(&self.lanes_fwd)
        }
    }
}

fn clone_children(v: &Vec<(LaneID, LaneType)>) -> (r: Vec<(LaneID, LaneType)>)
    ensures
        r@ == v@,
{
    let mut r: Vec<(LaneID, LaneType)> = Vec::new();
    let mut i: usize = 0;
    while i < v.len()
        invariant
            0 <= i <= v@.len(),
            r@ =~= v@.take(i as int),
        decreases v@.len() - i,
    {
        r.push(v[i]);
        i = i + 1;
    }
    proof {
        assert(v@.take(v@.len() as int) =~= v@);
    }
    r
}

/// A typed, directional sub-element of a road. Its geometry runs from its
/// source intersection to its destination intersection.
pub struct Lane {
    pub id: LaneID,
    pub parent: RoadID,
    pub lane_type: LaneType,
    pub width: i64,
    pub src_i: IntersectionID,
    pub dst_i: IntersectionID,
    pub points: Vec<Pt>,
}

pub open spec fn lane_ok(l: Lane) -> bool {
    &&& l.points@.len() >= 2
    &&& pts_input_ok(l.points@)
    &&& 0 <= l.width <= MAX_WIDTH
    &&& forall|i: int| 0 <= i < l.points@.len() - 1 ==> #[trigger] l.points@[i] != l.points@[i + 1]
}

impl Lane {
    pub open spec fn spec_first_pt(&self) -> Pt {
        self.points@[0]
    }

    pub open spec fn spec_last_pt(&self) -> Pt {
        self.points@.last()
    }

    /// The end of the lane's geometry that touches `i`.
    pub open spec fn spec_endpoint(&self, i: IntersectionID) -> Pt {
        if self.dst_i == i {
            self.spec_last_pt()
        } else {
            self.spec_first_pt()
        }
    }

    pub fn first_pt(&self) -> (r: Pt)
        requires
            self.points@.len() >= 1,
        ensures
            r == self.spec_first_pt(),
    {
        self.points[0]
    }

    pub fn last_pt(&self) -> (r: Pt)
        requires
            self.points@.len() >= 1,
        ensures
            r == self.spec_last_pt(),
    {
        self.points[self.points.len() - 1]
    }

    pub fn endpoint(&self, i: IntersectionID) -> (r: Pt)
        requires
            self.points@.len() >= 1,
        ensures
            r == self.spec_endpoint(i),
    {
        if self.dst_i == i {
            self.last_pt()
        } else {
            self.first_pt()
        }
    }

    /// The last segment of the lane's geometry.
    pub fn last_line(&self) -> (r: (Pt, Pt))
        requires
            self.points@.len() >= 2,
        ensures
            r.0 == self.points@[self.points@.len() - 2],
            r.1 == self.points@.last(),
    {
        (self.points[self.points.len() - 2], self.points[self.points.len() - 1])
    }

    /// The first segment of the lane's geometry.
    pub fn first_line(&self) -> (r: (Pt, Pt))
        requires
            self.points@.len() >= 2,
        ensures
            r.0 == self.points@[0],
            r.1 == self.points@[1],
    {
        (self.points[0], self.points[1])
    }
}

/// A directed pedestrian movement between two lanes at one intersection.
pub struct Turn {
    pub id: TurnID,
    pub turn_type: TurnType,
    pub other_crosswalk_ids: Vec<TurnID>,
    pub geom: Vec<Pt>,
}

/// Why a single turn's construction degraded or was skipped.
#[derive(Clone, Copy, Debug, PartialEq, Eq, Structural)]
pub enum WarningReason {
    DuplicateGeometry,
    SmoothingCollapsed,
    DegenerateGeometry,
    ExcessiveLength,
}

/// A non-fatal report: one turn between two lanes degraded to a fallback or
/// was skipped, and why.
#[derive(Clone, Copy, Debug, PartialEq, Eq, Structural)]
pub struct Warning {
    pub l1: LaneID,
    pub l2: LaneID,
    pub reason: WarningReason,
}

/// Fatal: a way touches a roundabout's collapsed points somewhere other than
/// at its own ends, so the input's topology assumptions are broken.
#[derive(Debug)]
pub struct TopologyError {
    pub osm_way_id: i64,
    pub idx: usize,
    pub len: usize,
}

/// The finished network: intersections and roads are keyed by the index that
/// equals their identifier; buildings and areas pass through untouched.
pub struct RoadMap {
    pub intersections: Vec<Intersection>,
    pub roads: Vec<Road>,
    pub buildings: Vec<Building>,
    pub areas: Vec<Area>,
}

// ------------------------------------------------------------------
// Tag lookup
// ------------------------------------------------------------------

/// The value of `key` from position `i` onward: the first matching entry.
pub open spec fn tag_from(tags: Seq<(String, String)>, i: int, key: Seq<char>) -> Option<Seq<char>>
    decreases tags.len() - i,
{
    if i < 0 || i >= tags.len() {
        None
    } else if tags[i].0@ == key {
        Some(tags[i].1@)
    } else {
        tag_from(tags, i + 1, key)
    }
}

/// The value stored for `key` in a tag mapping.
pub open spec fn tag_value(tags: Seq<(String, String)>, key: Seq<char>) -> Option<Seq<char>> {
    tag_from(tags, 0, key)
}

/// Looks a key up in a tag mapping.
pub fn get_tag<'a>(tags: &'a Vec<(String, String)>, key: &String) -> (r: Option<&'a String>)
    ensures
        (match r {
            Some(v) => Some(v@),
            None => None::<Seq<char>>,
        }) == tag_value(tags@, key@),
{
    let mut i: usize = 0;
    while i < tags.len()
        invariant
            0 <= i <= tags@.len(),
            tag_value(tags@, key@) == tag_from(tags@, i as int, key@),
        decreases tags@.len() - i,
    {
        if tags[i].0 == *key {
            return Some(&tags[i].1);
        }
        i = i + 1;
    }
    None
}

/// Whether a raw way is tagged as a roundabout junction.
pub open spec fn spec_is_roundabout(tags: Seq<(String, String)>) -> bool {
    tag_value(tags, "junction"@) == Some("roundabout"@)
}

pub fn is_roundabout(r: &RawRoad) -> (b: bool)
    ensures
        b == spec_is_roundabout(r.tags@),
{
    let key: String = "junction".to_owned();
    let val: String = "roundabout".to_owned();
    match get_tag(&r.tags, &key) {
        Some(v) => *v == val,
        None => false,
    }
}

} // verus!
