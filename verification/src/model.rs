//! The mathematical content of a graph: what the contracts speak of.
//!
//! Adjacency is defined from the edges alone, as the ids of the edges that
//! touch a node, newest first. The links that a graph stores are held to
//! this definition by its well-formedness.

use vstd::prelude::*;
use crate::index::Direction;
use crate::index::INVALID_EDGE_INDEX;

verus! {

/// An edge as the model sees it: two node positions and a payload.
pub struct EdgeModel<E> {
    pub source: int,
    pub target: int,
    pub data: E,
}

/// Mathematical content of a graph: node payloads in creation order and
/// edges in creation order.
pub struct GraphModel<N, E> {
    pub nodes: Seq<N>,
    pub edges: Seq<EdgeModel<E>>,
}

/// First element of an adjacency list as a raw edge id, or the reserved id
/// when the list is empty.
pub open spec fn head_id(list: Seq<int>) -> int {
    if list.len() == 0 {
        INVALID_EDGE_INDEX as int
    } else {
        list[0]
    }
}

impl<E> EdgeModel<E> {
    /// The node on the given side of the edge.
    pub open spec fn endpoint(self, dir: Direction) -> int {
        match dir {
            Direction::Outgoing => self.source,
            Direction::Incoming => self.target,
        }
    }
}

impl<N, E> GraphModel<N, E> {
    /// The graph without nodes and edges.
    pub open spec fn empty() -> Self {
        GraphModel { nodes: Seq::empty(), edges: Seq::empty() }
    }

    /// The graph with one more node, which holds `data`.
    pub open spec fn push_node(self, data: N) -> Self {
        GraphModel { nodes: self.nodes.push(data), edges: self.edges }
    }

    /// The graph with one more edge, which leads from `source` to `target`
    /// and holds `data`.
    pub open spec fn push_edge(self, source: int, target: int, data: E) -> Self {
        GraphModel {
            nodes: self.nodes,
            edges: self.edges.push(EdgeModel { source: source, target: target, data: data }),
        }
    }

    /// The graph with the payload of node `node` replaced by `data`.
    pub open spec fn set_node_data(self, node: int, data: N) -> Self {
        GraphModel { nodes: self.nodes.update(node, data), edges: self.edges }
    }

    /// The graph with the payload of edge `id` replaced by `data`.
    pub open spec fn set_edge_data(self, id: int, data: E) -> Self {
        GraphModel {
            nodes: self.nodes,
            edges: self.edges.update(
                id,
                EdgeModel { source: self.edges[id].source, target: self.edges[id].target, data: data },
            ),
        }
    }

    /// The graph cut back to its first `nodes` nodes and first `edges`
    /// edges.
    pub open spec fn truncate(self, nodes: int, edges: int) -> Self {
        GraphModel { nodes: self.nodes.take(nodes), edges: self.edges.take(edges) }
    }

    /// The graph can be cut back to `nodes` nodes and `edges` edges: it has
    /// that many, and the edges that stay join nodes that stay.
    pub open spec fn can_truncate(self, nodes: int, edges: int) -> bool {
        &&& 0 <= nodes <= self.nodes.len()
        &&& 0 <= edges <= self.edges.len()
        &&& forall|j: int|
            0 <= j < edges ==> (#[trigger] self.edges[j]).source < nodes && self.edges[j].target
                < nodes
    }

    /// Every edge joins two existing nodes, and no edge id is the reserved
    /// one.
    pub open spec fn wf(self) -> bool {
        &&& self.edges.len() <= INVALID_EDGE_INDEX
        &&& forall|j: int|
            0 <= j < self.edges.len() ==> {
                &&& 0 <= (#[trigger] self.edges[j]).source < self.nodes.len()
                &&& 0 <= self.edges[j].target < self.nodes.len()
            }
    }

    /// Ids of the edges below `bound` that touch `node` on side `dir`,
    /// newest first.
    pub open spec fn adjacent_below(self, bound: int, node: int, dir: Direction) -> Seq<int>
        decreases bound,
    {
        if bound <= 0 {
            Seq::empty()
        } else if self.edges[bound - 1].endpoint(dir) == node {
            seq![bound - 1] + self.adjacent_below(bound - 1, node, dir)
        } else {
            self.adjacent_below(bound - 1, node, dir)
        }
    }

    /// Ids of all edges that touch `node` on side `dir`, newest first.
    pub open spec fn adjacent(self, node: int, dir: Direction) -> Seq<int> {
        self.adjacent_below(self.edges.len() as int, node, dir)
    }

    /// Raw id of the newest edge that touches `node` on side `dir`, or the
    /// reserved id when there is none.
    pub open spec fn first_id(self, node: int, dir: Direction) -> int {
        head_id(self.adjacent(node, dir))
    }

    /// Raw id of the newest edge older than `id` that touches the same node
    /// as `id` on side `dir`, or the reserved id when there is none.
    pub open spec fn next_id(self, id: int, dir: Direction) -> int {
        head_id(self.adjacent_below(id, self.edges[id].endpoint(dir), dir))
    }

    /// The adjacency list that starts at edge `id` and follows side `dir`:
    /// empty for the reserved id.
    pub open spec fn adjacent_from(self, id: int, dir: Direction) -> Seq<int> {
        if 0 <= id < self.edges.len() {
            seq![id] + self.adjacent_below(id, self.edges[id].endpoint(dir), dir)
        } else {
            Seq::empty()
        }
    }

    /// For each edge id of `list`, the node on side `dir` of that edge.
    pub open spec fn endpoints_of(self, list: Seq<int>, dir: Direction) -> Seq<int> {
        Seq::new(list.len(), |k: int| self.edges[list[k]].endpoint(dir))
    }

    /// Targets of the edges that leave `node`, newest edge first, one entry
    /// per edge.
    pub open spec fn successors(self, node: int) -> Seq<int> {
        self.endpoints_of(self.adjacent(node, Direction::Outgoing), Direction::Incoming)
    }

    /// Sources of the edges that enter `node`, newest edge first, one entry
    /// per edge.
    pub open spec fn predecessors(self, node: int) -> Seq<int> {
        self.endpoints_of(self.adjacent(node, Direction::Incoming), Direction::Outgoing)
    }

    /// The successors of a node are nodes of the graph.
    pub proof fn lemma_successors_in_range(self, node: int)
        requires
            self.wf(),
        ensures
            forall|k: int|
                0 <= k < self.successors(node).len() ==> 0 <= (#[trigger] self.successors(node)[k])
                    < self.nodes.len(),
    {
        self.lemma_adjacent_below_sound(self.edges.len() as int, node, Direction::Outgoing);
        let list = self.adjacent(node, Direction::Outgoing);
        assert forall|k: int| 0 <= k < self.successors(node).len() implies 0 <= (
        #[trigger] self.successors(node)[k]) < self.nodes.len() by {
            assert(0 <= list[k] < self.edges.len());
            assert(0 <= self.edges[list[k]].target < self.nodes.len());
        }
    }

    /// Some edge leads from `from` to `to`.
    pub open spec fn has_edge(self, from: int, to: int) -> bool {
        exists|j: int|
            0 <= j < self.edges.len() && (#[trigger] self.edges[j]).source == from
                && self.edges[j].target == to
    }

    /// `to` can be reached from `from` along exactly `steps` edges.
    pub open spec fn reachable_in(self, from: int, to: int, steps: nat) -> bool
        decreases steps,
    {
        if steps == 0 {
            from == to
        } else {
            exists|mid: int|
                self.reachable_in(from, mid, (steps - 1) as nat) && #[trigger] self.has_edge(mid, to)
        }
    }

    /// `to` can be reached from `from` along outgoing edges; every node
    /// reaches itself.
    pub open spec fn reachable(self, from: int, to: int) -> bool {
        exists|steps: nat| #[trigger] self.reachable_in(from, to, steps)
    }

    /// One more edge extends a route.
    pub proof fn lemma_reachable_step(self, from: int, mid: int, to: int)
        requires
            self.reachable(from, mid),
            self.has_edge(mid, to),
        ensures
            self.reachable(from, to),
    {
        let steps = choose|steps: nat| #[trigger] self.reachable_in(from, mid, steps);
        assert(self.reachable_in(from, mid, ((steps + 1) - 1) as nat));
        assert(self.reachable_in(from, to, steps + 1));
    }

    /// A set of nodes that holds `from` and is closed under outgoing edges
    /// holds everything that `from` reaches.
    pub proof fn lemma_closed_set_holds_reachable(
        self,
        from: int,
        to: int,
        steps: nat,
        closed: Set<int>,
    )
        requires
            closed.contains(from),
            forall|j: int|
                0 <= j < self.edges.len() && closed.contains((#[trigger] self.edges[j]).source)
                    ==> closed.contains(self.edges[j].target),
            self.reachable_in(from, to, steps),
        ensures
            closed.contains(to),
        decreases steps,
    {
        if steps > 0 {
            let mid = choose|mid: int|
                self.reachable_in(from, mid, (steps - 1) as nat) && #[trigger] self.has_edge(mid, to);
            self.lemma_closed_set_holds_reachable(from, mid, (steps - 1) as nat, closed);
            let j = choose|j: int|
                0 <= j < self.edges.len() && (#[trigger] self.edges[j]).source == mid
                    && self.edges[j].target == to;
            assert(closed.contains(self.edges[j].target));
        }
    }

    /// Two graphs have the same endpoints on every edge below `bound`.
    pub open spec fn same_ends_below<N2, E2>(self, other: GraphModel<N2, E2>, bound: int) -> bool {
        &&& bound <= self.edges.len()
        &&& bound <= other.edges.len()
        &&& forall|j: int|
            0 <= j < bound ==> {
                &&& (#[trigger] self.edges[j]).source == other.edges[j].source
                &&& self.edges[j].target == (#[trigger] other.edges[j]).target
            }
    }

    /// Adjacency below a bound depends only on the endpoints below it.
    pub proof fn lemma_adjacent_below_same_ends<N2, E2>(
        self,
        other: GraphModel<N2, E2>,
        bound: int,
        node: int,
        dir: Direction,
    )
        requires
            self.same_ends_below(other, bound),
        ensures
            self.adjacent_below(bound, node, dir) == other.adjacent_below(bound, node, dir),
        decreases bound,
    {
        if bound > 0 {
            assert(self.edges[bound - 1].source == other.edges[bound - 1].source);
            assert(self.edges[bound - 1].target == other.edges[bound - 1].target);
            self.lemma_adjacent_below_same_ends(other, bound - 1, node, dir);
        }
    }

    /// Every listed id is below the bound, touches the node, and the ids
    /// strictly descend.
    pub proof fn lemma_adjacent_below_sound(self, bound: int, node: int, dir: Direction)
        requires
            bound <= self.edges.len(),
        ensures
            forall|k: int|
                0 <= k < self.adjacent_below(bound, node, dir).len() ==> {
                    &&& 0 <= (#[trigger] self.adjacent_below(bound, node, dir)[k]) < bound
                    &&& self.edges[self.adjacent_below(bound, node, dir)[k]].endpoint(dir) == node
                },
            forall|k: int, l: int|
                0 <= k < l < self.adjacent_below(bound, node, dir).len() ==> (
                #[trigger] self.adjacent_below(bound, node, dir)[k]) > (
                #[trigger] self.adjacent_below(bound, node, dir)[l]),
        decreases bound,
    {
        if bound > 0 {
            self.lemma_adjacent_below_sound(bound - 1, node, dir);
            let list = self.adjacent_below(bound, node, dir);
            let rest = self.adjacent_below(bound - 1, node, dir);
            if self.edges[bound - 1].endpoint(dir) == node {
                assert(list == seq![bound - 1] + rest);
                assert forall|k: int| 0 <= k < list.len() implies 0 <= (#[trigger] list[k]) < bound
                    && self.edges[list[k]].endpoint(dir) == node by {
                    if k > 0 {
                        assert(list[k] == rest[k - 1]);
                    }
                }
                assert forall|k: int, l: int| 0 <= k < l < list.len() implies (#[trigger] list[k])
                    > (#[trigger] list[l]) by {
                    assert(list[l] == rest[l - 1]);
                    if k > 0 {
                        assert(list[k] == rest[k - 1]);
                    }
                }
            } else {
                assert(list == rest);
            }
        }
    }

    /// Every edge below the bound that touches the node is listed.
    pub proof fn lemma_adjacent_below_complete(self, bound: int, node: int, dir: Direction, id: int)
        requires
            0 <= id < bound <= self.edges.len(),
            self.edges[id].endpoint(dir) == node,
        ensures
            self.adjacent_below(bound, node, dir).contains(id),
        decreases bound,
    {
        let list = self.adjacent_below(bound, node, dir);
        if id == bound - 1 {
            assert(list[0] == id);
        } else {
            self.lemma_adjacent_below_complete(bound - 1, node, dir, id);
            let rest = self.adjacent_below(bound - 1, node, dir);
            let k = choose|k: int| 0 <= k < rest.len() && rest[k] == id;
            if self.edges[bound - 1].endpoint(dir) == node {
                assert(list[k + 1] == id);
            } else {
                assert(list[k] == id);
            }
        }
    }

    /// Lowering the bound to `low` keeps the head of a list whose head is
    /// below `low` already, or which is empty.
    pub proof fn lemma_adjacent_below_head(self, bound: int, low: int, node: int, dir: Direction)
        requires
            0 <= low <= bound <= self.edges.len() <= INVALID_EDGE_INDEX,
            head_id(self.adjacent_below(bound, node, dir)) < low || head_id(
                self.adjacent_below(bound, node, dir),
            ) == INVALID_EDGE_INDEX,
        ensures
            head_id(self.adjacent_below(low, node, dir)) == head_id(
                self.adjacent_below(bound, node, dir),
            ),
        decreases bound - low,
    {
        if bound > low {
            if self.edges[bound - 1].endpoint(dir) == node {
                let list = self.adjacent_below(bound, node, dir);
                assert(list == seq![bound - 1] + self.adjacent_below(bound - 1, node, dir));
                assert(list[0] == bound - 1);
                assert(false);
            } else {
                self.lemma_adjacent_below_head(bound - 1, low, node, dir);
            }
        }
    }

    /// A list is its head followed by the list below the head.
    pub proof fn lemma_adjacent_below_unfold(self, bound: int, node: int, dir: Direction)
        requires
            bound <= self.edges.len() <= INVALID_EDGE_INDEX,
        ensures
            self.adjacent_below(bound, node, dir) == self.adjacent_from(
                head_id(self.adjacent_below(bound, node, dir)),
                dir,
            ),
        decreases bound,
    {
        let list = self.adjacent_below(bound, node, dir);
        if bound > 0 {
            if self.edges[bound - 1].endpoint(dir) == node {
                assert(list == seq![bound - 1] + self.adjacent_below(bound - 1, node, dir));
                assert(list[0] == bound - 1);
            } else {
                self.lemma_adjacent_below_unfold(bound - 1, node, dir);
            }
        } else {
            assert(list.len() == 0);
        }
    }
}

} // verus!
