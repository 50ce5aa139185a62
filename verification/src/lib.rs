pub mod builder;
pub mod ch;
pub mod classify;
pub mod geometry;
pub mod graph;
pub mod heatmap;
pub mod isochrone;
pub mod model;
pub mod node_map;
pub mod paths;
pub mod route;
pub mod tags;

use vstd::prelude::*;

verus! {

/// Dense index of a road in a graph's road vector.
#[derive(Clone, Copy, Debug, Eq, Hash, PartialEq, PartialOrd, Ord, Structural)]
pub struct RoadID(pub usize);

/// Dense index of an intersection in a graph's intersection vector.
#[derive(Clone, Copy, Debug, Eq, Hash, PartialEq, PartialOrd, Ord, Structural)]
pub struct IntersectionID(pub usize);

} // verus!
