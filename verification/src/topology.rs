//! Node and edge payloads of the topology graph.

use vstd::prelude::*;

use crate::vector2i::Vector2I;

verus! {

/// Classification of a topology node.
#[derive(Clone, Copy, Debug, PartialEq, Eq, Structural)]
pub enum TopologyNodeType {
    Island,
    Endpoint,
    Waypoint,
    Intersection,
}

/// A topology node: its kind and its position in pixel units.
#[derive(Clone, Copy, Debug, PartialEq, Eq, Structural)]
pub struct TopologyNode {
    pub node_type: TopologyNodeType,
    pub position: Vector2I,
}

/// A topology edge: the polyline of pixel positions it traces.
#[derive(Debug)]
pub struct TopologyEdge {
    waypoints: Vec<Vector2I>,
}

impl TopologyEdge {
    /// The stored polyline.
    pub closed spec fn spec_waypoints(&self) -> Seq<Vector2I> {
        self.waypoints@
    }

    pub fn from_waypoints(waypoints: Vec<Vector2I>) -> (r: Self)
        ensures
            r.spec_waypoints() == waypoints@,
    {
        TopologyEdge { waypoints }
    }

    pub fn get_waypoints(&self) -> (r: &Vec<Vector2I>)
        ensures
            r@ == self.spec_waypoints(),
    {
        &self.waypoints
    }
}

} // verus!
