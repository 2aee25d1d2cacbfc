//! Primitive identifiers and time-step types of the movement simulation
//! built on top of the network.

use crate::network::{LaneID, TurnID};
use vstd::prelude::*;

verus! {

#[derive(Clone, Copy, Debug, PartialEq, Eq, Structural, Hash)]
pub struct CarID(pub usize);

#[derive(Clone, Copy, Debug, PartialEq, Eq, Structural, Hash)]
pub struct PedestrianID(pub usize);

/// A moment in time, counted in fixed simulation steps (not a duration).
#[derive(Clone, Copy, Debug, PartialEq, Eq, Structural, Hash)]
pub struct Tick(u32);

impl Tick {
    pub closed spec fn spec_value(self) -> u32 {
        self.0
    }

    pub fn zero() -> (t: Tick)
        ensures
            t.spec_value() == 0,
    {
        Tick(0)
    }

    pub fn increment(&mut self)
        requires
            old(self).spec_value() < u32::MAX,
        ensures
            final(self).spec_value() == old(self).spec_value() + 1,
    {
        self.0 = self.0 + 1;
    }

    /// The number of steps since the simulation began.
    pub fn value(&self) -> (v: u32)
        ensures
            v == self.spec_value(),
    {
        self.0
    }

    /// The span between two moments, as a tick count offset from zero
    /// (meaningful only when `other` is not later than `self`).
    pub fn minus(&self, other: &Tick) -> (t: Tick)
        requires
            other.spec_value() <= self.spec_value(),
        ensures
            t.spec_value() == self.spec_value() - other.spec_value(),
    {
        Tick(self.0 - other.0)
    }
}

pub enum CarState {
    Moving,
    Stuck,
    Parked,
}

/// Where an agent currently is: moving along a lane or crossing a turn.
#[derive(Clone, Copy, Debug, PartialEq, Eq, Structural, Hash)]
pub enum On {
    Lane(LaneID),
    Turn(TurnID),
}

impl On {
    /// The lane an agent is on; meaningful only while it is on a lane.
    pub fn as_lane(&self) -> (id: LaneID)
        requires
            self is Lane,
        ensures
            id == self->Lane_0,
    {
        match self {
            On::Lane(id) => *id,
            On::Turn(_) => vstd::pervasive::unreached(),
        }
    }

    /// The turn an agent is on; meaningful only while it is on a turn.
    pub fn as_turn(&self) -> (id: TurnID)
        requires
            self is Turn,
        ensures
            id == self->Turn_0,
    {
        match self {
            On::Turn(id) => *id,
            On::Lane(_) => vstd::pervasive::unreached(),
        }
    }

    pub fn maybe_turn(&self) -> (r: Option<TurnID>)
        ensures
            r == (match self {
                On::Turn(id) => Some(*id),
                On::Lane(_) => None::<TurnID>,
            }),
    {
        match self {
            On::Turn(id) => Some(*id),
            On::Lane(_) => None,
        }
    }
}

} // verus!
