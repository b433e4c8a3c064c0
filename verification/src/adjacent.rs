//! Walking one adjacency list, and the neighbour lists built on it.

use vstd::prelude::*;
use crate::graph::Edge;
use crate::graph::Graph;
use crate::index::Direction;
use crate::index::EdgeIndex;
use crate::index::NodeIndex;
use crate::index::INVALID_EDGE_INDEX;

verus! {

/// Cursor over one adjacency list of a graph: hands out the edges of the
/// list one by one, newest first.
pub struct AdjacentEdges<'g, N, E> {
    graph: &'g Graph<N, E>,
    direction: Direction,
    next: EdgeIndex,
}

/// The raw positions that a sequence of node handles stands for.
pub open spec fn node_ids(nodes: Seq<NodeIndex>) -> Seq<int> {
    Seq::new(nodes.len(), |k: int| nodes[k].0 as int)
}

impl<'g, N, E> AdjacentEdges<'g, N, E> {
    /// The graph that the cursor walks.
    pub closed spec fn graph(&self) -> Graph<N, E> {
        *self.graph
    }

    /// The side whose list the cursor walks.
    pub closed spec fn direction(&self) -> Direction {
        self.direction
    }

    /// Ids of the edges that the cursor has yet to hand out, in order.
    pub closed spec fn remaining(&self) -> Seq<int> {
        self.graph@.adjacent_from(self.next.0 as int, self.direction)
    }

    /// The cursor stands on an edge of a well-formed graph, or at the end.
    pub closed spec fn wf(&self) -> bool {
        &&& self.graph.wf()
        &&& self.next.0 == INVALID_EDGE_INDEX || self.next.0 < self.graph@.edges.len()
    }

    /// Hands out the next edge of the list with its handle, or `None` at
    /// the end of the list.
    pub fn next(&mut self) -> (item: Option<(EdgeIndex, &'g Edge<E>)>)
        requires
            old(self).wf(),
        ensures
            final(self).wf(),
            final(self).graph() == old(self).graph(),
            final(self).direction() == old(self).direction(),
            old(self).remaining().len() == 0 ==> item.is_none() && final(self).remaining()
                == old(self).remaining(),
            old(self).remaining().len() > 0 ==> item == Some(
                (
                    EdgeIndex(old(self).remaining()[0] as usize),
                    &old(self).graph().edge_records()[old(self).remaining()[0]],
                ),
            ) && final(self).remaining() == old(self).remaining().skip(1),
    {
        let edge_index = self.next;
        if edge_index.0 == INVALID_EDGE_INDEX {
            return None;
        }
        let edge = self.graph.edge(edge_index);
        self.next = self.graph.next_adjacent(edge_index, self.direction);
        proof {
            let model = self.graph@;
            model.lemma_adjacent_below_sound(
                edge_index.0 as int,
                model.edges[edge_index.0 as int].endpoint(self.direction),
                self.direction,
            );
            assert(old(self).remaining().skip(1) =~= self.remaining());
        }
        Some((edge_index, edge))
    }
}

impl<N, E> Graph<N, E> {
    /// Cursor over the edges that leave `source`, newest first.
    pub fn outgoing_edges(&self, source: NodeIndex) -> (edges: AdjacentEdges<'_, N, E>)
        requires
            self.wf(),
            source.0 < self@.nodes.len(),
        ensures
            edges.wf(),
            edges.graph() == *self,
            edges.direction() == Direction::Outgoing,
            edges.remaining() == self@.adjacent(source.0 as int, Direction::Outgoing),
    {
        self.adjacent_edges(source, Direction::Outgoing)
    }

    /// Cursor over the edges that enter `source`, newest first.
    pub fn incoming_edges(&self, source: NodeIndex) -> (edges: AdjacentEdges<'_, N, E>)
        requires
            self.wf(),
            source.0 < self@.nodes.len(),
        ensures
            edges.wf(),
            edges.graph() == *self,
            edges.direction() == Direction::Incoming,
            edges.remaining() == self@.adjacent(source.0 as int, Direction::Incoming),
    {
        self.adjacent_edges(source, Direction::Incoming)
    }

    /// Cursor over the edges that touch `source` on side `direction`,
    /// newest first.
    pub fn adjacent_edges(&self, source: NodeIndex, direction: Direction) -> (edges: AdjacentEdges<
        '_,
        N,
        E,
    >)
        requires
            self.wf(),
            source.0 < self@.nodes.len(),
        ensures
            edges.wf(),
            edges.graph() == *self,
            edges.direction() == direction,
            edges.remaining() == self@.adjacent(source.0 as int, direction),
    {
        let first_edge = self.first_adjacent(source, direction);
        proof {
            self@.lemma_adjacent_below_sound(self@.edges.len() as int, source.0 as int, direction);
        }
        AdjacentEdges { graph: self, direction: direction, next: first_edge }
    }

    /// The targets of the edges that leave `source`, newest edge first. A
    /// node appears once for every edge that leads to it.
    pub fn successor_nodes(&self, source: NodeIndex) -> (nodes: Vec<NodeIndex>)
        requires
            self.wf(),
            source.0 < self@.nodes.len(),
        ensures
            nodes@.len() == self@.successors(source.0 as int).len(),
            node_ids(nodes@) == self@.successors(source.0 as int),
    {
        let mut edges = self.outgoing_edges(source);
        let mut nodes: Vec<NodeIndex> = Vec::new();
        let ghost list = self@.adjacent(source.0 as int, Direction::Outgoing);
        loop
            invariant
                edges.wf(),
                edges.graph() == *self,
                nodes@.len() <= list.len(),
                edges.remaining() == list.skip(nodes@.len() as int),
                forall|k: int|
                    0 <= k < nodes@.len() ==> (#[trigger] nodes@[k]).0 == self@.edges[list[k]].target,
            ensures
                nodes@.len() == list.len(),
            decreases edges.remaining().len(),
        {
            match edges.next() {
                Some((_, edge)) => {
                    nodes.push(edge.target());
                    assert(list.skip(nodes@.len() - 1).skip(1) =~= list.skip(nodes@.len() as int));
                },
                None => {
                    break ;
                },
            }
        }
        assert(node_ids(nodes@) =~= self@.successors(source.0 as int));
        nodes
    }

    /// The sources of the edges that enter `target`, newest edge first. A
    /// node appears once for every edge that comes from it.
    pub fn predecessor_nodes(&self, target: NodeIndex) -> (nodes: Vec<NodeIndex>)
        requires
            self.wf(),
            target.0 < self@.nodes.len(),
        ensures
            nodes@.len() == self@.predecessors(target.0 as int).len(),
            node_ids(nodes@) == self@.predecessors(target.0 as int),
    {
        let mut edges = self.incoming_edges(target);
        let mut nodes: Vec<NodeIndex> = Vec::new();
        let ghost list = self@.adjacent(target.0 as int, Direction::Incoming);
        loop
            invariant
                edges.wf(),
                edges.graph() == *self,
                nodes@.len() <= list.len(),
                edges.remaining() == list.skip(nodes@.len() as int),
                forall|k: int|
                    0 <= k < nodes@.len() ==> (#[trigger] nodes@[k]).0 == self@.edges[list[k]].source,
            ensures
                nodes@.len() == list.len(),
            decreases edges.remaining().len(),
        {
            match edges.next() {
                Some((_, edge)) => {
                    nodes.push(edge.source());
                    assert(list.skip(nodes@.len() - 1).skip(1) =~= list.skip(nodes@.len() as int));
                },
                None => {
                    break ;
                },
            }
        }
        assert(node_ids(nodes@) =~= self@.predecessors(target.0 as int));
        nodes
    }
}

} // verus!
