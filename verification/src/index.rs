//! Handles of nodes and edges, and the two sides of an edge.

use vstd::prelude::*;

verus! {

/// Handle of a node: its position in the node arena.
#[derive(Clone, Copy, PartialEq, Eq, Structural, Debug)]
pub struct NodeIndex(pub usize);

/// Handle of an edge: its position in the edge arena.
///
/// The raw value [`INVALID_EDGE_INDEX`] is reserved: it names no edge and
/// terminates every adjacency list.
#[derive(Clone, Copy, PartialEq, Eq, Structural, Debug)]
pub struct EdgeIndex(pub usize);

/// Raw value of the edge handle that stands for "no edge".
pub const INVALID_EDGE_INDEX: usize = usize::MAX;

/// Which side of an edge, or which of a node's two adjacency lists, is meant.
#[derive(Clone, Copy, PartialEq, Eq, Structural, Debug)]
pub enum Direction {
    Outgoing,
    Incoming,
}

/// The side on which an edge leaves its source.
pub const OUTGOING: Direction = Direction::Outgoing;

/// The side on which an edge enters its target.
pub const INCOMING: Direction = Direction::Incoming;

impl NodeIndex {
    /// Returns the unique id of the node within its graph.
    pub fn node_id(&self) -> (id: usize)
        ensures
            id == self.0,
    {
        self.0
    }
}

impl EdgeIndex {
    /// The handle that names no edge.
    pub fn invalid() -> (e: EdgeIndex)
        ensures
            e.0 == INVALID_EDGE_INDEX,
            !e.is_valid(),
    {
        EdgeIndex(INVALID_EDGE_INDEX)
    }

    /// True for every handle but the reserved one.
    pub open spec fn is_valid(&self) -> bool {
        self.0 != INVALID_EDGE_INDEX
    }

    /// Returns the unique id of the edge within its graph.
    pub fn edge_id(&self) -> (id: usize)
        ensures
            id == self.0,
    {
        self.0
    }
}

impl Direction {
    /// Slot that this direction selects in a two-element link array.
    pub open spec fn slot(&self) -> int {
        match self {
            Direction::Outgoing => 0,
            Direction::Incoming => 1,
        }
    }

    /// Slot that this direction selects in a two-element link array.
    pub fn repr(&self) -> (r: usize)
        ensures
            r == self.slot(),
            r < 2,
    {
        match self {
            Direction::Outgoing => 0,
            Direction::Incoming => 1,
        }
    }
}

} // verus!
