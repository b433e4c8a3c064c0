//! The graph itself: construction, lookup, the two link primitives, and
//! savepoints.

use vstd::prelude::*;
use crate::index::Direction;
use crate::index::EdgeIndex;
use crate::index::NodeIndex;
use crate::index::INVALID_EDGE_INDEX;
use crate::model::head_id;
use crate::model::EdgeModel;
use crate::model::GraphModel;

verus! {

/// Record of a node: the heads of its two adjacency lists and its payload.
pub struct Node<N> {
    first_edge: [EdgeIndex; 2],
    pub data: N,
}

/// Record of an edge: its successors in the two lists it is threaded on,
/// its endpoints and its payload.
#[derive(Debug)]
pub struct Edge<E> {
    next_edge: [EdgeIndex; 2],
    source: NodeIndex,
    target: NodeIndex,
    pub data: E,
}

/// A savepoint of a graph: how many nodes and edges it had when the
/// savepoint was taken.
pub struct Snapshot {
    nodes: usize,
    edges: usize,
}

impl Snapshot {
    /// Number of nodes at the savepoint.
    pub closed spec fn node_count(&self) -> int {
        self.nodes as int
    }

    /// Number of edges at the savepoint.
    pub closed spec fn edge_count(&self) -> int {
        self.edges as int
    }
}

/// Directed multigraph over append-only arenas of nodes and edges.
pub struct Graph<N, E> {
    nodes: Vec<Node<N>>,
    edges: Vec<Edge<E>>,
}

impl<N> Node<N> {
    /// The payload of the record.
    pub closed spec fn payload(&self) -> N {
        self.data
    }

    /// The head of the record's adjacency list on side `dir`.
    pub closed spec fn first(&self, dir: Direction) -> EdgeIndex {
        self.first_edge[dir.slot()]
    }
}

impl<E> Edge<E> {
    /// The record's successor in the adjacency list of side `dir`.
    pub closed spec fn next(&self, dir: Direction) -> EdgeIndex {
        self.next_edge[dir.slot()]
    }

    /// The record's endpoints and payload.
    pub closed spec fn view(&self) -> EdgeModel<E> {
        EdgeModel { source: self.source.0 as int, target: self.target.0 as int, data: self.data }
    }

    /// The node that the edge leaves.
    pub fn source(&self) -> (n: NodeIndex)
        ensures
            n.0 == self@.source,
    {
        self.source
    }

    /// The node that the edge enters.
    pub fn target(&self) -> (n: NodeIndex)
        ensures
            n.0 == self@.target,
    {
        self.target
    }
}

impl<N, E> Graph<N, E> {
    /// The node records in arena order.
    pub closed spec fn node_records(&self) -> Seq<Node<N>> {
        self.nodes@
    }

    /// The edge records in arena order.
    pub closed spec fn edge_records(&self) -> Seq<Edge<E>> {
        self.edges@
    }

    /// The graph's content: payloads and endpoints, without the links.
    pub open spec fn view(&self) -> GraphModel<N, E> {
        GraphModel {
            nodes: Seq::new(self.node_records().len(), |i: int| self.node_records()[i].payload()),
            edges: Seq::new(self.edge_records().len(), |j: int| self.edge_records()[j]@),
        }
    }

    /// The links are exactly those that the content determines: each node's
    /// head is the newest edge touching it, each edge's successor the newest
    /// older edge touching the same node.
    pub open spec fn wf(&self) -> bool {
        &&& self@.wf()
        &&& forall|i: int, dir: Direction|
            0 <= i < self.node_records().len() ==> (#[trigger] self.node_records()[i].first(dir)).0
                == self@.first_id(i, dir)
        &&& forall|j: int, dir: Direction|
            0 <= j < self.edge_records().len() ==> (#[trigger] self.edge_records()[j].next(dir)).0
                == self@.next_id(j, dir)
    }

    /// The graph without nodes and edges.
    pub fn new() -> (g: Graph<N, E>)
        ensures
            g.wf(),
            g@ == GraphModel::<N, E>::empty(),
    {
        let g = Graph { nodes: Vec::new(), edges: Vec::new() };
        assert(g@.nodes =~= Seq::empty());
        assert(g@.edges =~= Seq::empty());
        g
    }

    /// The handle that the next node will get.
    pub fn next_node_index(&self) -> (idx: NodeIndex)
        ensures
            idx.0 == self@.nodes.len(),
    {
        NodeIndex(self.nodes.len())
    }

    /// The handle that the next edge will get.
    pub fn next_edge_index(&self) -> (idx: EdgeIndex)
        ensures
            idx.0 == self@.edges.len(),
    {
        EdgeIndex(self.edges.len())
    }

    /// Adds a node that holds `data` and has no edges yet. Returns its
    /// handle.
    pub fn add_node(&mut self, data: N) -> (idx: NodeIndex)
        requires
            old(self).wf(),
        ensures
            final(self).wf(),
            idx.0 == old(self)@.nodes.len(),
            final(self)@ == old(self)@.push_node(data),
    {
        let idx = self.next_node_index();
        self.nodes.push(Node { first_edge: [EdgeIndex::invalid(), EdgeIndex::invalid()], data: data });
        proof {
            let before = old(self)@;
            let after = self@;
            assert(after.nodes =~= before.nodes.push(data));
            assert(after.edges =~= before.edges);
            assert forall|i: int, dir: Direction| 0 <= i < self.node_records().len() implies (
            #[trigger] self.node_records()[i].first(dir)).0 == head_id(after.adjacent(i, dir)) by {
                before.lemma_adjacent_below_same_ends(after, before.edges.len() as int, i, dir);
                if i < before.nodes.len() {
                    assert(self.node_records()[i] == old(self).node_records()[i]);
                } else {
                    before.lemma_adjacent_below_sound(before.edges.len() as int, i, dir);
                    let list = before.adjacent(i, dir);
                    if list.len() > 0 {
                        assert(before.edges[list[0]].endpoint(dir) == i);
                    }
                }
            }
            assert forall|j: int, dir: Direction| 0 <= j < self.edge_records().len() implies (
            #[trigger] self.edge_records()[j].next(dir)).0 == head_id(
                after.adjacent_below(j, after.edges[j].endpoint(dir), dir),
            ) by {
                assert(self.edge_records()[j] == old(self).edge_records()[j]);
                before.lemma_adjacent_below_same_ends(after, j, before.edges[j].endpoint(dir), dir);
            }
        }
        idx
    }

    /// Adds an edge from `source` to `target` that holds `data`, at the
    /// front of the outgoing list of `source` and of the incoming list of
    /// `target`. Returns its handle.
    pub fn add_edge(&mut self, source: NodeIndex, target: NodeIndex, data: E) -> (idx: EdgeIndex)
        requires
            old(self).wf(),
            source.0 < old(self)@.nodes.len(),
            target.0 < old(self)@.nodes.len(),
        ensures
            final(self).wf(),
            idx.0 == old(self)@.edges.len(),
            idx.is_valid(),
            final(self)@ == old(self)@.push_edge(source.0 as int, target.0 as int, data),
    {
        let idx = self.next_edge_index();

        // read current first of the list of edges from each node
        let source_first = self.nodes[source.0].first_edge[Direction::Outgoing.repr()];
        let target_first = self.nodes[target.0].first_edge[Direction::Incoming.repr()];

        // create the new edge, with the previous firsts from each node
        // as the next pointers
        self.edges.push(
            Edge { next_edge: [source_first, target_first], source: source, target: target, data: data },
        );

        // adjust the firsts for each node to be the new edge
        self.nodes[source.0].first_edge[Direction::Outgoing.repr()] = idx;
        self.nodes[target.0].first_edge[Direction::Incoming.repr()] = idx;

        proof {
            let before = old(self)@;
            let after = self@;
            let count = before.edges.len() as int;
            assert(after.nodes =~= before.nodes);
            assert(after.edges =~= before.edges.push(
                EdgeModel { source: source.0 as int, target: target.0 as int, data: data },
            ));
            assert(after.edges.len() == self.edges.len());
            assert forall|j: int| 0 <= j < after.edges.len() implies 0 <= (
            #[trigger] after.edges[j]).source < after.nodes.len() && 0 <= after.edges[j].target
                < after.nodes.len() by {
                if j < count {
                    assert(after.edges[j] == before.edges[j]);
                }
            }
            assert forall|i: int, dir: Direction| 0 <= i < self.node_records().len() implies (
            #[trigger] self.node_records()[i].first(dir)).0 == head_id(after.adjacent(i, dir)) by {
                before.lemma_adjacent_below_same_ends(after, count, i, dir);
                assert(old(self).node_records()[i].first(dir).0 == head_id(
                    before.adjacent(i, dir),
                ));
                assert(after.edges[count].endpoint(dir) == match dir {
                    Direction::Outgoing => source.0 as int,
                    Direction::Incoming => target.0 as int,
                });
            }
            assert forall|j: int, dir: Direction| 0 <= j < self.edge_records().len() implies (
            #[trigger] self.edge_records()[j].next(dir)).0 == head_id(
                after.adjacent_below(j, after.edges[j].endpoint(dir), dir),
            ) by {
                before.lemma_adjacent_below_same_ends(after, j, after.edges[j].endpoint(dir), dir);
                if j < count {
                    assert(self.edge_records()[j] == old(self).edge_records()[j]);
                } else {
                    assert(old(self).node_records()[source.0 as int].first(Direction::Outgoing).0
                        == head_id(before.adjacent(source.0 as int, Direction::Outgoing)));
                    assert(old(self).node_records()[target.0 as int].first(Direction::Incoming).0
                        == head_id(before.adjacent(target.0 as int, Direction::Incoming)));
                }
            }
        }
        return idx;
    }

    /// Changing payloads leaves the links as the content determines them.
    proof fn lemma_wf_same_links(&self, other: &Self)
        requires
            self.wf(),
            self@.nodes.len() == other@.nodes.len(),
            self@.edges.len() == other@.edges.len(),
            self@.same_ends_below(other@, self@.edges.len() as int),
            forall|i: int, dir: Direction|
                0 <= i < self@.nodes.len() ==> self.node_records()[i].first(dir)
                    == other.node_records()[i].first(dir),
            forall|j: int, dir: Direction|
                0 <= j < self@.edges.len() ==> self.edge_records()[j].next(dir)
                    == other.edge_records()[j].next(dir),
        ensures
            other.wf(),
    {
        let a = self@;
        let b = other@;
        assert forall|j: int| 0 <= j < b.edges.len() implies 0 <= (#[trigger] b.edges[j]).source
            < b.nodes.len() && 0 <= b.edges[j].target < b.nodes.len() by {
            assert(a.edges[j].source == b.edges[j].source);
            assert(a.edges[j].target == b.edges[j].target);
        }
        assert forall|i: int, dir: Direction| 0 <= i < other.node_records().len() implies (
        #[trigger] other.node_records()[i].first(dir)).0 == b.first_id(i, dir) by {
            a.lemma_adjacent_below_same_ends(b, a.edges.len() as int, i, dir);
            assert(self.node_records()[i].first(dir).0 == a.first_id(i, dir));
        }
        assert forall|j: int, dir: Direction| 0 <= j < other.edge_records().len() implies (
        #[trigger] other.edge_records()[j].next(dir)).0 == b.next_id(j, dir) by {
            assert(a.edges[j].source == b.edges[j].source);
            assert(a.edges[j].target == b.edges[j].target);
            a.lemma_adjacent_below_same_ends(b, j, a.edges[j].endpoint(dir), dir);
            assert(self.edge_records()[j].next(dir).0 == a.next_id(j, dir));
        }
    }

    /// The payload of node `idx`, for changing in place.
    pub fn mut_node_data(&mut self, idx: NodeIndex) -> (data: &mut N)
        requires
            old(self).wf(),
            idx.0 < old(self)@.nodes.len(),
        ensures
            *data == old(self)@.nodes[idx.0 as int],
            final(self).wf(),
            final(self)@ == old(self)@.set_node_data(idx.0 as int, *final(data)),
    {
        proof {
            let at = idx.0 as int;
            assert forall|other: Self|
                other.edges@ == self.edges@ && other.nodes@ == self.nodes@.update(
                    at,
                    Node { first_edge: self.nodes@[at].first_edge, data: other.nodes@[at].data },
                ) implies #[trigger] other.wf() && other@ == self@.set_node_data(
                at,
                other.nodes@[at].data,
            ) by {
                assert(other@.edges =~= self@.edges);
                assert(other@.nodes =~= self@.nodes.update(at, other.nodes@[at].data));
                self.lemma_wf_same_links(&other);
            }
        }
        &mut self.nodes[idx.0].data
    }

    /// The payload of node `idx`.
    pub fn node_data(&self, idx: NodeIndex) -> (data: &N)
        requires
            self.wf(),
            idx.0 < self@.nodes.len(),
        ensures
            *data == self@.nodes[idx.0 as int],
    {
        &self.nodes[idx.0].data
    }

    /// The record of node `idx`.
    pub fn node(&self, idx: NodeIndex) -> (node: &Node<N>)
        requires
            self.wf(),
            idx.0 < self@.nodes.len(),
        ensures
            *node == self.node_records()[idx.0 as int],
            node.payload() == self@.nodes[idx.0 as int],
            forall|dir: Direction| (#[trigger] node.first(dir)).0 == self@.first_id(idx.0 as int, dir),
    {
        &self.nodes[idx.0]
    }

    /// The payload of edge `idx`, for changing in place.
    pub fn mut_edge_data(&mut self, idx: EdgeIndex) -> (data: &mut E)
        requires
            old(self).wf(),
            idx.0 < old(self)@.edges.len(),
        ensures
            *data == old(self)@.edges[idx.0 as int].data,
            final(self).wf(),
            final(self)@ == old(self)@.set_edge_data(idx.0 as int, *final(data)),
    {
        proof {
            let at = idx.0 as int;
            let rec = self.edges@[at];
            assert forall|other: Self|
                other.nodes@ == self.nodes@ && other.edges@ == self.edges@.update(
                    at,
                    Edge {
                        next_edge: rec.next_edge,
                        source: rec.source,
                        target: rec.target,
                        data: other.edges@[at].data,
                    },
                ) implies #[trigger] other.wf() && other@ == self@.set_edge_data(
                at,
                other.edges@[at].data,
            ) by {
                assert(other@.nodes =~= self@.nodes);
                assert(other@.edges =~= self@.edges.update(
                    at,
                    EdgeModel {
                        source: self@.edges[at].source,
                        target: self@.edges[at].target,
                        data: other.edges@[at].data,
                    },
                ));
                self.lemma_wf_same_links(&other);
            }
        }
        &mut self.edges[idx.0].data
    }

    /// The payload of edge `idx`.
    pub fn edge_data(&self, idx: EdgeIndex) -> (data: &E)
        requires
            self.wf(),
            idx.0 < self@.edges.len(),
        ensures
            *data == self@.edges[idx.0 as int].data,
    {
        &self.edges[idx.0].data
    }

    /// The record of edge `idx`.
    pub fn edge(&self, idx: EdgeIndex) -> (edge: &Edge<E>)
        requires
            self.wf(),
            idx.0 < self@.edges.len(),
        ensures
            *edge == self.edge_records()[idx.0 as int],
            edge@ == self@.edges[idx.0 as int],
            forall|dir: Direction| (#[trigger] edge.next(dir)).0 == self@.next_id(idx.0 as int, dir),
    {
        &self.edges[idx.0]
    }

    /// Accesses the index of the first edge adjacent to `node`.
    /// This is useful if you wish to modify the graph while walking
    /// the linked list of edges.
    pub fn first_adjacent(&self, node: NodeIndex, dir: Direction) -> (first: EdgeIndex)
        requires
            self.wf(),
            node.0 < self@.nodes.len(),
        ensures
            first.0 == self@.first_id(node.0 as int, dir),
            self@.adjacent(node.0 as int, dir) == self@.adjacent_from(first.0 as int, dir),
    {
        proof {
            assert(self.node_records()[node.0 as int].first(dir).0 == self@.first_id(
                node.0 as int,
                dir,
            ));
            self@.lemma_adjacent_below_unfold(self@.edges.len() as int, node.0 as int, dir);
        }
        self.nodes[node.0].first_edge[dir.repr()]
    }

    /// Accesses the next edge in a given direction.
    /// This is useful if you wish to modify the graph while walking
    /// the linked list of edges.
    pub fn next_adjacent(&self, edge: EdgeIndex, dir: Direction) -> (next: EdgeIndex)
        requires
            self.wf(),
            edge.0 < self@.edges.len(),
        ensures
            next.0 == self@.next_id(edge.0 as int, dir),
            self@.adjacent_from(edge.0 as int, dir) == seq![edge.0 as int] + self@.adjacent_from(
                next.0 as int,
                dir,
            ),
    {
        proof {
            assert(self.edge_records()[edge.0 as int].next(dir).0 == self@.next_id(
                edge.0 as int,
                dir,
            ));
            self@.lemma_adjacent_below_unfold(
                edge.0 as int,
                self@.edges[edge.0 as int].endpoint(dir),
                dir,
            );
        }
        self.edges[edge.0].next_edge[dir.repr()]
    }

    /// All node records, in creation order.
    pub fn all_nodes(&self) -> (nodes: &[Node<N>])
        ensures
            nodes@ == self.node_records(),
    {
        self.nodes.as_slice()
    }

    /// All edge records, in creation order.
    pub fn all_edges(&self) -> (edges: &[Edge<E>])
        ensures
            edges@ == self.edge_records(),
    {
        self.edges.as_slice()
    }

    /// Marks a savepoint. What is added after it can be discarded with
    /// [`Graph::rollback_to`] or kept with [`Graph::commit`].
    pub fn start_snapshot(&self) -> (snapshot: Snapshot)
        requires
            self.wf(),
        ensures
            snapshot.node_count() == self@.nodes.len(),
            snapshot.edge_count() == self@.edges.len(),
            self@.can_truncate(snapshot.node_count(), snapshot.edge_count()),
    {
        Snapshot { nodes: self.nodes.len(), edges: self.edges.len() }
    }

    /// Keeps what was added since the savepoint.
    pub fn commit(&mut self, snapshot: Snapshot)
        requires
            old(self).wf(),
            old(self)@.can_truncate(snapshot.node_count(), snapshot.edge_count()),
        ensures
            *final(self) == *old(self),
    {
    }

    /// Discards the nodes and edges added since the savepoint. The handles
    /// of what is discarded name nothing afterwards; the next node and the
    /// next edge get the first of them again.
    ///
    /// Payloads changed in place since the savepoint keep their new value.
    pub fn rollback_to(&mut self, snapshot: Snapshot)
        requires
            old(self).wf(),
            old(self)@.can_truncate(snapshot.node_count(), snapshot.edge_count()),
        ensures
            final(self).wf(),
            final(self)@ == old(self)@.truncate(snapshot.node_count(), snapshot.edge_count()),
    {
        let keep_nodes = snapshot.nodes;
        let keep_edges = snapshot.edges;
        let ghost before = self@;
        self.nodes.truncate(keep_nodes);
        let mut i: usize = 0;
        while i < keep_nodes
            invariant
                old(self).wf(),
                before == old(self)@,
                before.can_truncate(keep_nodes as int, keep_edges as int),
                i <= keep_nodes,
                self.edges@ == old(self).edges@,
                self.nodes@.len() == keep_nodes,
                forall|k: int|
                    0 <= k < keep_nodes ==> (#[trigger] self.nodes@[k]).data == old(
                        self,
                    ).nodes@[k].data,
                forall|k: int, dir: Direction|
                    i <= k < keep_nodes ==> (#[trigger] self.nodes@[k].first(dir))
                        == old(self).nodes@[k].first(dir),
                forall|k: int, dir: Direction|
                    0 <= k < i ==> (#[trigger] self.nodes@[k].first(dir)).0 == head_id(
                        before.adjacent_below(keep_edges as int, k, dir),
                    ),
            decreases keep_nodes - i,
        {
            let out = self.newest_below(NodeIndex(i), Direction::Outgoing, keep_edges, Ghost(*old(self)));
            let inc = self.newest_below(NodeIndex(i), Direction::Incoming, keep_edges, Ghost(*old(self)));
            let ghost prior = self.nodes@;
            self.nodes[i].first_edge = [out, inc];
            proof {
                assert forall|k: int, dir: Direction| 0 <= k < i + 1 implies (
                #[trigger] self.nodes@[k].first(dir)).0 == head_id(
                    before.adjacent_below(keep_edges as int, k, dir),
                ) by {
                    if k < i {
                        assert(self.nodes@[k] == prior[k]);
                        assert(prior[k].first(dir).0 == head_id(
                            before.adjacent_below(keep_edges as int, k, dir),
                        ));
                    }
                }
                assert forall|k: int, dir: Direction| i + 1 <= k < keep_nodes implies (
                #[trigger] self.nodes@[k].first(dir)) == old(self).nodes@[k].first(dir) by {
                    assert(self.nodes@[k] == prior[k]);
                    assert(prior[k].first(dir) == old(self).nodes@[k].first(dir));
                }
                assert forall|k: int| 0 <= k < keep_nodes implies (#[trigger] self.nodes@[k]).data
                    == old(self).nodes@[k].data by {
                    assert(prior[k].data == old(self).nodes@[k].data);
                }
            }
            i += 1;
        }
        self.edges.truncate(keep_edges);
        proof {
            let after = self@;
            assert(after.nodes =~= before.nodes.take(keep_nodes as int));
            assert(after.edges =~= before.edges.take(keep_edges as int));
            assert forall|j: int| 0 <= j < after.edges.len() implies 0 <= (
            #[trigger] after.edges[j]).source < after.nodes.len() && 0 <= after.edges[j].target
                < after.nodes.len() by {
                assert(after.edges[j] == before.edges[j]);
            }
            assert forall|k: int, dir: Direction| 0 <= k < self.node_records().len() implies (
            #[trigger] self.node_records()[k].first(dir)).0 == after.first_id(k, dir) by {
                before.lemma_adjacent_below_same_ends(after, keep_edges as int, k, dir);
            }
            assert forall|j: int, dir: Direction| 0 <= j < self.edge_records().len() implies (
            #[trigger] self.edge_records()[j].next(dir)).0 == after.next_id(j, dir) by {
                assert(self.edge_records()[j] == old(self).edge_records()[j]);
                assert(after.edges[j] == before.edges[j]);
                before.lemma_adjacent_below_same_ends(after, j, before.edges[j].endpoint(dir), dir);
            }
        }
    }

    /// The newest edge below `bound` that touches `node` on side `dir`,
    /// found by following the links of `links` from the node's head as it
    /// stood in `links`.
    fn newest_below(
        &self,
        node: NodeIndex,
        dir: Direction,
        bound: usize,
        Ghost(links): Ghost<Self>,
    ) -> (found: EdgeIndex)
        requires
            links.wf(),
            self.edges@ == links.edges@,
            node.0 < self.nodes@.len() <= links.nodes@.len(),
            self.nodes@[node.0 as int].first(dir) == links.nodes@[node.0 as int].first(dir),
            bound <= links.edges@.len(),
        ensures
            found.0 == head_id(links@.adjacent_below(bound as int, node.0 as int, dir)),
    {
        let ghost model = links@;
        let mut edge = self.nodes[node.0].first_edge[dir.repr()];
        let ghost mut above: int = model.edges.len() as int;
        proof {
            assert(links.node_records()[node.0 as int].first(dir).0 == model.first_id(
                node.0 as int,
                dir,
            ));
        }
        while edge.0 != INVALID_EDGE_INDEX && edge.0 >= bound
            invariant
                links.wf(),
                model == links@,
                self.edges@ == links.edges@,
                bound <= above <= model.edges.len(),
                edge.0 == head_id(model.adjacent_below(above, node.0 as int, dir)),
            decreases above,
        {
            proof {
                model.lemma_adjacent_below_sound(above, node.0 as int, dir);
                let list = model.adjacent_below(above, node.0 as int, dir);
                assert(list[0] == edge.0);
                assert(links.edge_records()[edge.0 as int].next(dir).0 == model.next_id(
                    edge.0 as int,
                    dir,
                ));
                above = edge.0 as int;
            }
            edge = self.edges[edge.0].next_edge[dir.repr()];
        }
        proof {
            model.lemma_adjacent_below_head(above, bound as int, node.0 as int, dir);
        }
        edge
    }
}

} // verus!
