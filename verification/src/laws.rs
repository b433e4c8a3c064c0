//! What holds of every graph, stated over the model and proved.

use vstd::prelude::*;
use crate::index::Direction;
use crate::model::GraphModel;

verus! {

/// Handles count up from zero. The empty graph has no node and no edge;
/// each new node gets the number of nodes before it as its position and
/// raises that number by one, and so for edges; adding one kind leaves the
/// count of the other alone. So the positions handed out are 0, 1, 2, ...
/// in creation order, and none comes twice.
pub proof fn law_handles_count_up<N, E>(
    m: GraphModel<N, E>,
    node_data: N,
    source: int,
    target: int,
    edge_data: E,
)
    ensures
        GraphModel::<N, E>::empty().nodes.len() == 0,
        GraphModel::<N, E>::empty().edges.len() == 0,
        m.push_node(node_data).nodes.len() == m.nodes.len() + 1,
        m.push_node(node_data).edges.len() == m.edges.len(),
        m.push_edge(source, target, edge_data).edges.len() == m.edges.len() + 1,
        m.push_edge(source, target, edge_data).nodes.len() == m.nodes.len(),
{
}

/// What was added reads back. Right after a node or an edge is added, its
/// position holds the payload (and, for an edge, the endpoints) that was
/// supplied, and every older position holds what it held before.
pub proof fn law_payload_reads_back<N, E>(
    m: GraphModel<N, E>,
    node_data: N,
    source: int,
    target: int,
    edge_data: E,
)
    ensures
        m.push_node(node_data).nodes[m.nodes.len() as int] == node_data,
        forall|i: int| 0 <= i < m.nodes.len() ==> m.push_node(node_data).nodes[i] == m.nodes[i],
        m.push_node(node_data).edges == m.edges,
        m.push_edge(source, target, edge_data).edges[m.edges.len() as int].data == edge_data,
        m.push_edge(source, target, edge_data).edges[m.edges.len() as int].source == source,
        m.push_edge(source, target, edge_data).edges[m.edges.len() as int].target == target,
        forall|j: int|
            0 <= j < m.edges.len() ==> m.push_edge(source, target, edge_data).edges[j] == m.edges[j],
        m.push_edge(source, target, edge_data).nodes == m.nodes,
{
}

/// An adjacency list holds exactly the edges that touch its node on its
/// side, newest first: an id is on the list of `node` and `dir` if and only
/// if it names an edge whose `dir` endpoint is `node`, and ids further down
/// the list are smaller, so that no edge comes twice.
pub proof fn law_adjacency_exact<N, E>(m: GraphModel<N, E>, node: int, dir: Direction)
    ensures
        forall|id: int|
            #[trigger] m.adjacent(node, dir).contains(id) <==> 0 <= id < m.edges.len()
                && m.edges[id].endpoint(dir) == node,
        forall|k: int, l: int|
            0 <= k < l < m.adjacent(node, dir).len() ==> (#[trigger] m.adjacent(node, dir)[k]) > (
            #[trigger] m.adjacent(node, dir)[l]),
{
    let count = m.edges.len() as int;
    let list = m.adjacent(node, dir);
    m.lemma_adjacent_below_sound(count, node, dir);
    assert forall|id: int| #[trigger] list.contains(id) <==> 0 <= id < m.edges.len()
        && m.edges[id].endpoint(dir) == node by {
        if 0 <= id < m.edges.len() && m.edges[id].endpoint(dir) == node {
            m.lemma_adjacent_below_complete(count, node, dir, id);
        }
        if list.contains(id) {
            let k = choose|k: int| 0 <= k < list.len() && list[k] == id;
            assert(0 <= list[k] < count);
        }
    }
}

/// A new edge goes to the front of the two lists it belongs to and leaves
/// all other lists alone.
pub proof fn law_new_edge_comes_first<N, E>(
    m: GraphModel<N, E>,
    source: int,
    target: int,
    data: E,
    node: int,
    dir: Direction,
)
    ensures
        ({
            let grown = m.push_edge(source, target, data);
            let touched = match dir {
                Direction::Outgoing => node == source,
                Direction::Incoming => node == target,
            };
            grown.adjacent(node, dir) == if touched {
                seq![m.edges.len() as int] + m.adjacent(node, dir)
            } else {
                m.adjacent(node, dir)
            }
        }),
{
    let grown = m.push_edge(source, target, data);
    m.lemma_adjacent_below_same_ends(grown, m.edges.len() as int, node, dir);
}

/// Payloads do not bear on adjacency: replacing the payload of a node or
/// of an edge leaves every adjacency list as it was.
pub proof fn law_payload_change_keeps_lists<N, E>(
    m: GraphModel<N, E>,
    at: int,
    node_data: N,
    edge_data: E,
    node: int,
    dir: Direction,
)
    ensures
        0 <= at < m.nodes.len() ==> m.set_node_data(at, node_data).adjacent(node, dir)
            == m.adjacent(node, dir),
        0 <= at < m.edges.len() ==> m.set_edge_data(at, edge_data).adjacent(node, dir)
            == m.adjacent(node, dir),
{
    if 0 <= at < m.nodes.len() {
        m.lemma_adjacent_below_same_ends(
            m.set_node_data(at, node_data),
            m.edges.len() as int,
            node,
            dir,
        );
    }
    if 0 <= at < m.edges.len() {
        m.lemma_adjacent_below_same_ends(
            m.set_edge_data(at, edge_data),
            m.edges.len() as int,
            node,
            dir,
        );
    }
}

/// Whatever a set of nodes must hold to contain a start node and to be
/// closed under outgoing edges, it holds all that the start reaches; and
/// the nodes that the start reaches are such a set.
pub proof fn law_reachable_is_least_closed_set<N, E>(m: GraphModel<N, E>, start: int, closed: Set<int>)
    requires
        closed.contains(start),
        forall|j: int|
            0 <= j < m.edges.len() && closed.contains((#[trigger] m.edges[j]).source)
                ==> closed.contains(m.edges[j].target),
    ensures
        forall|v: int| m.reachable(start, v) ==> closed.contains(v),
        m.reachable(start, start),
        forall|j: int|
            0 <= j < m.edges.len() && m.reachable(start, (#[trigger] m.edges[j]).source)
                ==> m.reachable(start, m.edges[j].target),
{
    assert forall|v: int| m.reachable(start, v) implies closed.contains(v) by {
        let steps = choose|steps: nat| #[trigger] m.reachable_in(start, v, steps);
        m.lemma_closed_set_holds_reachable(start, v, steps, closed);
    }
    assert(m.reachable_in(start, start, 0));
    assert forall|j: int|
        0 <= j < m.edges.len() && m.reachable(start, (#[trigger] m.edges[j]).source) implies m.reachable(
        start,
        m.edges[j].target,
    ) by {
        assert(m.has_edge(m.edges[j].source, m.edges[j].target));
        m.lemma_reachable_step(start, m.edges[j].source, m.edges[j].target);
    }
}

/// Cutting back undoes additions. A graph cut back to the sizes it had
/// before a node or an edge was added is the graph it was before; a cut
/// leaves exactly as many nodes and edges as it names, so that every
/// position from there on names nothing; sizes that a graph can be cut
/// back to stay so while it grows; and a cut after a cut is the smaller
/// cut.
pub proof fn law_rollback_restores<N, E>(
    m: GraphModel<N, E>,
    node_data: N,
    source: int,
    target: int,
    edge_data: E,
    nodes: int,
    edges: int,
    fewer_nodes: int,
    fewer_edges: int,
)
    requires
        m.wf(),
        0 <= source < m.nodes.len(),
        0 <= target < m.nodes.len(),
        m.can_truncate(nodes, edges),
        0 <= fewer_nodes <= nodes,
        0 <= fewer_edges <= edges,
    ensures
        m.can_truncate(m.nodes.len() as int, m.edges.len() as int),
        m.truncate(m.nodes.len() as int, m.edges.len() as int) == m,
        m.push_node(node_data).truncate(m.nodes.len() as int, m.edges.len() as int) == m,
        m.push_edge(source, target, edge_data).truncate(m.nodes.len() as int, m.edges.len() as int)
            == m,
        m.truncate(nodes, edges).nodes.len() == nodes,
        m.truncate(nodes, edges).edges.len() == edges,
        m.truncate(nodes, edges).wf(),
        m.push_node(node_data).can_truncate(nodes, edges),
        m.push_edge(source, target, edge_data).can_truncate(nodes, edges),
        m.truncate(nodes, edges).truncate(fewer_nodes, fewer_edges) == m.truncate(
            fewer_nodes,
            fewer_edges,
        ),
{
    let all_nodes = m.nodes.len() as int;
    let all_edges = m.edges.len() as int;
    assert(m.nodes.take(all_nodes) =~= m.nodes);
    assert(m.edges.take(all_edges) =~= m.edges);
    assert(m.push_node(node_data).nodes.take(all_nodes) =~= m.nodes);
    assert(m.push_edge(source, target, edge_data).edges.take(all_edges) =~= m.edges);
    let cut = m.truncate(nodes, edges);
    assert forall|j: int| 0 <= j < cut.edges.len() implies 0 <= (#[trigger] cut.edges[j]).source
        < cut.nodes.len() && 0 <= cut.edges[j].target < cut.nodes.len() by {
        assert(cut.edges[j] == m.edges[j]);
    }
    let grown = m.push_edge(source, target, edge_data);
    assert forall|j: int| 0 <= j < edges implies (#[trigger] grown.edges[j]).source < nodes
        && grown.edges[j].target < nodes by {
        assert(grown.edges[j] == m.edges[j]);
    }
    assert(cut.nodes.take(fewer_nodes) =~= m.nodes.take(fewer_nodes));
    assert(cut.edges.take(fewer_edges) =~= m.edges.take(fewer_edges));
}

} // verus!
