//! Derivation of a normalized road-network graph from raw survey geometry.
//!
//! Raw way geometries with shared endpoint coordinates are turned into
//! discrete intersections and bounded road segments, and pedestrian turn
//! movements (crosswalks and shared sidewalk corners) are derived per
//! intersection from the finished network.
//!
//! - [`geometry`] holds the fixed-point plane geometry the rest builds on.
//! - [`network`] holds the data model: ways, intersections, roads, lanes,
//!   turns.
//! - [`split_ways`] turns raw ways into intersections and bounded segments,
//!   collapsing roundabouts first.
//! - [`walking_turns`] derives the pedestrian movements of one intersection.
//! - [`sim`] holds the primitive identifiers of the simulation built on top.

pub mod geometry;
pub mod network;
pub mod sim;
pub mod split_ways;
pub mod walking_turns;
