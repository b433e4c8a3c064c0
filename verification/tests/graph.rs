use digraph::each_edge_index;
use digraph::Direction;
use digraph::EdgeIndex;
use digraph::Graph;
use digraph::NodeIndex;
use digraph::INCOMING;
use digraph::INVALID_EDGE_INDEX;
use digraph::OUTGOING;
use std::fmt::Debug;

type TestGraph = Graph<&'static str, &'static str>;

fn create_graph() -> TestGraph {
    let mut graph = Graph::new();

    // Create a simple graph
    //
    //    A -+> B --> C
    //       |  |     ^
    //       |  v     |
    //       F  D --> E

    let a = graph.add_node("A");
    let b = graph.add_node("B");
    let c = graph.add_node("C");
    let d = graph.add_node("D");
    let e = graph.add_node("E");
    let f = graph.add_node("F");

    graph.add_edge(a, b, "AB");
    graph.add_edge(b, c, "BC");
    graph.add_edge(b, d, "BD");
    graph.add_edge(d, e, "DE");
    graph.add_edge(e, c, "EC");
    graph.add_edge(f, b, "FB");

    return graph;
}

#[test]
fn each_node() {
    let graph = create_graph();
    let expected = ["A", "B", "C", "D", "E", "F"];
    graph.each_node(|idx, node| {
        assert_eq!(&expected[idx.0], graph.node_data(idx));
        assert_eq!(expected[idx.0], node.data);
        true
    });
}

#[test]
fn each_edge() {
    let graph = create_graph();
    let expected = ["AB", "BC", "BD", "DE", "EC", "FB"];
    graph.each_edge(|idx, edge| {
        assert_eq!(&expected[idx.0], graph.edge_data(idx));
        assert_eq!(expected[idx.0], edge.data);
        true
    });
}

fn test_adjacent_edges<N: PartialEq + Debug, E: PartialEq + Debug>(
    graph: &Graph<N, E>,
    start_index: NodeIndex,
    start_data: N,
    expected_incoming: &[(E, N)],
    expected_outgoing: &[(E, N)],
) {
    assert!(graph.node_data(start_index) == &start_data);

    let mut counter = 0;
    let mut incoming = graph.incoming_edges(start_index);
    while let Some((edge_index, edge)) = incoming.next() {
        assert!(graph.edge_data(edge_index) == &edge.data);
        assert!(counter < expected_incoming.len());
        match expected_incoming[counter] {
            (ref e, ref n) => {
                assert!(e == &edge.data);
                assert!(n == graph.node_data(edge.source()));
                assert!(start_index == edge.target());
            }
        }
        counter += 1;
    }
    assert_eq!(counter, expected_incoming.len());

    let mut counter = 0;
    let mut outgoing = graph.outgoing_edges(start_index);
    while let Some((edge_index, edge)) = outgoing.next() {
        assert!(graph.edge_data(edge_index) == &edge.data);
        assert!(counter < expected_outgoing.len());
        match expected_outgoing[counter] {
            (ref e, ref n) => {
                assert!(e == &edge.data);
                assert!(start_index == edge.source());
                assert!(n == graph.node_data(edge.target()));
            }
        }
        counter += 1;
    }
    assert_eq!(counter, expected_outgoing.len());
}

#[test]
fn each_adjacent_from_a() {
    let graph = create_graph();
    test_adjacent_edges(&graph, NodeIndex(0), "A", &[], &[("AB", "B")]);
}

#[test]
fn each_adjacent_from_b() {
    let graph = create_graph();
    test_adjacent_edges(
        &graph,
        NodeIndex(1),
        "B",
        &[("FB", "F"), ("AB", "A")],
        &[("BD", "D"), ("BC", "C")],
    );
}

#[test]
fn each_adjacent_from_c() {
    let graph = create_graph();
    test_adjacent_edges(&graph, NodeIndex(2), "C", &[("EC", "E"), ("BC", "B")], &[]);
}

#[test]
fn each_adjacent_from_d() {
    let graph = create_graph();
    test_adjacent_edges(&graph, NodeIndex(3), "D", &[("BD", "B")], &[("DE", "E")]);
}

fn walk_order(graph: &TestGraph, start: NodeIndex) -> Vec<&'static str> {
    let mut order = Vec::new();
    let mut walk = graph.depth_traverse(start);
    while let Some(data) = walk.next() {
        order.push(*data);
    }
    order
}

#[test]
fn indices_count_up_from_zero() {
    let mut graph: Graph<u32, u32> = Graph::new();
    assert_eq!(graph.next_node_index(), NodeIndex(0));
    assert_eq!(graph.next_edge_index(), EdgeIndex(0));
    for i in 0..5 {
        assert_eq!(graph.next_node_index(), NodeIndex(i));
        assert_eq!(graph.add_node(i as u32), NodeIndex(i));
    }
    for i in 0..7 {
        assert_eq!(graph.next_edge_index(), EdgeIndex(i));
        assert_eq!(graph.add_edge(NodeIndex(i % 5), NodeIndex((i + 2) % 5), i as u32), EdgeIndex(i));
    }
    assert_eq!(graph.all_nodes().len(), 5);
    assert_eq!(graph.all_edges().len(), 7);
}

#[test]
fn raw_ids_are_positions() {
    assert_eq!(NodeIndex(3).node_id(), 3);
    assert_eq!(EdgeIndex(8).edge_id(), 8);
    assert_eq!(INVALID_EDGE_INDEX, usize::MAX);
    assert_eq!(EdgeIndex::invalid(), EdgeIndex(usize::MAX));
    assert_eq!(EdgeIndex::invalid().edge_id(), INVALID_EDGE_INDEX);
}

#[test]
fn directions_select_two_slots() {
    assert_eq!(OUTGOING.repr(), 0);
    assert_eq!(INCOMING.repr(), 1);
    assert_eq!(OUTGOING, Direction::Outgoing);
    assert_eq!(INCOMING, Direction::Incoming);
    assert_ne!(OUTGOING, INCOMING);
}

#[test]
fn payload_reads_back_after_add() {
    let mut graph: Graph<String, (u8, u8)> = Graph::new();
    let a = graph.add_node(String::from("first"));
    assert_eq!(graph.node_data(a), "first");
    let b = graph.add_node(String::from("second"));
    assert_eq!(graph.node_data(b), "second");
    assert_eq!(graph.node_data(a), "first");
    let e = graph.add_edge(a, b, (1, 2));
    assert_eq!(*graph.edge_data(e), (1, 2));
    let f = graph.add_edge(b, b, (3, 4));
    assert_eq!(*graph.edge_data(f), (3, 4));
    assert_eq!(*graph.edge_data(e), (1, 2));
    assert_eq!(graph.edge(e).source(), a);
    assert_eq!(graph.edge(e).target(), b);
    assert_eq!(graph.edge(e).data, (1, 2));
    assert_eq!(graph.node(b).data, "second");
}

#[test]
fn payload_can_be_changed_in_place() {
    let mut graph = create_graph();
    *graph.mut_node_data(NodeIndex(2)) = "see";
    *graph.mut_edge_data(EdgeIndex(1)) = "to see";
    assert_eq!(*graph.node_data(NodeIndex(2)), "see");
    assert_eq!(*graph.edge_data(EdgeIndex(1)), "to see");
    assert_eq!(*graph.node_data(NodeIndex(1)), "B");
    assert_eq!(*graph.edge_data(EdgeIndex(2)), "BD");
    test_adjacent_edges(
        &graph,
        NodeIndex(1),
        "B",
        &[("FB", "F"), ("AB", "A")],
        &[("BD", "D"), ("to see", "see")],
    );
    assert_eq!(walk_order(&graph, NodeIndex(1)), vec!["B", "D", "E", "see"]);
}

#[test]
fn new_graph_is_empty() {
    let graph: Graph<u8, u8> = Graph::new();
    assert!(graph.all_nodes().is_empty());
    assert!(graph.all_edges().is_empty());
    let mut calls = 0;
    assert!(graph.each_node(|_, _| {
        calls += 1;
        false
    }));
    assert!(graph.each_edge(|_, _| {
        calls += 1;
        false
    }));
    assert_eq!(calls, 0);
}

#[test]
fn fresh_node_has_no_edges() {
    let mut graph: Graph<u8, u8> = Graph::new();
    let a = graph.add_node(1);
    assert_eq!(graph.first_adjacent(a, OUTGOING), EdgeIndex::invalid());
    assert_eq!(graph.first_adjacent(a, INCOMING), EdgeIndex::invalid());
    assert!(graph.outgoing_edges(a).next().is_none());
    assert!(graph.incoming_edges(a).next().is_none());
    assert!(graph.successor_nodes(a).is_empty());
    assert!(graph.predecessor_nodes(a).is_empty());
}

#[test]
fn links_lead_from_newest_to_oldest() {
    let graph = create_graph();
    let b = NodeIndex(1);
    // outgoing of B: BD (2), then BC (1)
    assert_eq!(graph.first_adjacent(b, OUTGOING), EdgeIndex(2));
    assert_eq!(graph.next_adjacent(EdgeIndex(2), OUTGOING), EdgeIndex(1));
    assert_eq!(graph.next_adjacent(EdgeIndex(1), OUTGOING).0, INVALID_EDGE_INDEX);
    // incoming of B: FB (5), then AB (0)
    assert_eq!(graph.first_adjacent(b, INCOMING), EdgeIndex(5));
    assert_eq!(graph.next_adjacent(EdgeIndex(5), INCOMING), EdgeIndex(0));
    assert_eq!(graph.next_adjacent(EdgeIndex(0), INCOMING).0, INVALID_EDGE_INDEX);
    // incoming of C: EC (4), then BC (1)
    assert_eq!(graph.first_adjacent(NodeIndex(2), INCOMING), EdgeIndex(4));
    assert_eq!(graph.next_adjacent(EdgeIndex(4), INCOMING), EdgeIndex(1));
    assert_eq!(graph.next_adjacent(EdgeIndex(1), INCOMING), EdgeIndex::invalid());
}

#[test]
fn adjacent_edges_takes_either_direction() {
    let graph = create_graph();
    let mut out = Vec::new();
    let mut cursor = graph.adjacent_edges(NodeIndex(1), OUTGOING);
    while let Some((idx, edge)) = cursor.next() {
        out.push((idx.0, edge.data));
    }
    assert_eq!(out, vec![(2, "BD"), (1, "BC")]);
    assert!(cursor.next().is_none());

    let mut inc = Vec::new();
    let mut cursor = graph.adjacent_edges(NodeIndex(1), INCOMING);
    while let Some((idx, edge)) = cursor.next() {
        inc.push((idx.0, edge.data));
    }
    assert_eq!(inc, vec![(5, "FB"), (0, "AB")]);
}

#[test]
fn neighbours_come_once_per_edge() {
    let graph = create_graph();
    assert_eq!(graph.successor_nodes(NodeIndex(1)), vec![NodeIndex(3), NodeIndex(2)]);
    assert_eq!(graph.predecessor_nodes(NodeIndex(1)), vec![NodeIndex(5), NodeIndex(0)]);
    assert_eq!(graph.predecessor_nodes(NodeIndex(2)), vec![NodeIndex(4), NodeIndex(1)]);
    assert_eq!(graph.successor_nodes(NodeIndex(2)), vec![]);

    let mut multi: Graph<(), u8> = Graph::new();
    let a = multi.add_node(());
    let b = multi.add_node(());
    multi.add_edge(a, b, 0);
    multi.add_edge(a, a, 1);
    multi.add_edge(a, b, 2);
    assert_eq!(multi.successor_nodes(a), vec![b, a, b]);
    assert_eq!(multi.predecessor_nodes(b), vec![a, a]);
    assert_eq!(multi.predecessor_nodes(a), vec![a]);
    assert_eq!(multi.successor_nodes(b), vec![]);
}

#[test]
fn self_loop_is_on_both_lists() {
    let mut graph: Graph<u8, u8> = Graph::new();
    let a = graph.add_node(0);
    let e0 = graph.add_edge(a, a, 10);
    let e1 = graph.add_edge(a, a, 11);
    assert_eq!(graph.first_adjacent(a, OUTGOING), e1);
    assert_eq!(graph.first_adjacent(a, INCOMING), e1);
    assert_eq!(graph.next_adjacent(e1, OUTGOING), e0);
    assert_eq!(graph.next_adjacent(e1, INCOMING), e0);
    assert_eq!(graph.next_adjacent(e0, OUTGOING), EdgeIndex::invalid());
    assert_eq!(graph.next_adjacent(e0, INCOMING), EdgeIndex::invalid());
}

#[test]
fn each_node_stops_at_first_false() {
    let graph = create_graph();
    let mut seen = Vec::new();
    let all = graph.each_node(|idx, node| {
        seen.push((idx.0, node.data));
        node.data != "C"
    });
    assert!(!all);
    assert_eq!(seen, vec![(0, "A"), (1, "B"), (2, "C")]);

    let mut count = 0;
    assert!(graph.each_node(|_, _| {
        count += 1;
        true
    }));
    assert_eq!(count, 6);
}

#[test]
fn each_edge_stops_at_first_false() {
    let graph = create_graph();
    let mut seen = Vec::new();
    let all = graph.each_edge(|idx, edge| {
        seen.push((idx.0, edge.data, edge.source().0, edge.target().0));
        edge.data != "BD"
    });
    assert!(!all);
    assert_eq!(seen, vec![(0, "AB", 0, 1), (1, "BC", 1, 2), (2, "BD", 1, 3)]);

    let mut count = 0;
    assert!(graph.each_edge(|_, _| {
        count += 1;
        true
    }));
    assert_eq!(count, 6);
}

#[test]
fn each_edge_index_counts_up_and_stops() {
    let mut seen = Vec::new();
    each_edge_index(EdgeIndex(4), |e| {
        seen.push(e.0);
        true
    });
    assert_eq!(seen, vec![0, 1, 2, 3]);

    let mut seen = Vec::new();
    each_edge_index(EdgeIndex(4), |e| {
        seen.push(e.0);
        e.0 < 1
    });
    assert_eq!(seen, vec![0, 1]);

    let mut calls = 0;
    each_edge_index(EdgeIndex(0), |_| {
        calls += 1;
        true
    });
    assert_eq!(calls, 0);
}

#[test]
fn fixed_point_runs_until_a_quiet_pass() {
    let graph = create_graph();
    // mark what A reaches: a node is marked once an edge leads to it from
    // a marked node
    let mut marked = [true, false, false, false, false, false];
    let mut calls = Vec::new();
    let passes = graph.iterate_until_fixed_point(|pass, idx, edge| {
        calls.push((pass, idx.0));
        let from = edge.source().0;
        let to = edge.target().0;
        if marked[from] && !marked[to] {
            marked[to] = true;
            true
        } else {
            false
        }
    });
    // pass 1 marks B, C, D, E in edge order; pass 2 sees no change
    assert_eq!(passes, 2);
    assert_eq!(marked, [true, true, true, true, true, false]);
    let mut expected = Vec::new();
    for pass in 1..=2 {
        for edge in 0..6 {
            expected.push((pass, edge));
        }
    }
    assert_eq!(calls, expected);
}

#[test]
fn fixed_point_needs_a_pass_per_backward_edge() {
    // a chain whose edges were added from the far end: every pass carries
    // the mark over one edge only
    let mut graph: Graph<(), ()> = Graph::new();
    let n: Vec<NodeIndex> = (0..4).map(|_| graph.add_node(())).collect();
    graph.add_edge(n[2], n[3], ());
    graph.add_edge(n[1], n[2], ());
    graph.add_edge(n[0], n[1], ());
    let mut marked = [true, false, false, false];
    let passes = graph.iterate_until_fixed_point(|_, _, edge| {
        let from = edge.source().0;
        let to = edge.target().0;
        let change = marked[from] && !marked[to];
        if change {
            marked[to] = true;
        }
        change
    });
    assert_eq!(passes, 4);
    assert_eq!(marked, [true, true, true, true]);
}

#[test]
fn fixed_point_on_quiet_callback_makes_one_pass() {
    let graph = create_graph();
    let mut calls = 0;
    let passes = graph.iterate_until_fixed_point(|pass, _, _| {
        assert_eq!(pass, 1);
        calls += 1;
        false
    });
    assert_eq!(passes, 1);
    assert_eq!(calls, 6);

    let empty: Graph<u8, u8> = Graph::new();
    assert_eq!(empty.iterate_until_fixed_point(|_, _, _| true), 1);
}

#[test]
fn fixed_point_stops_after_the_last_changing_pass() {
    let graph = create_graph();
    // reports a change on the last edge during the first three passes
    let passes = graph.iterate_until_fixed_point(|pass, idx, _| pass <= 3 && idx.0 == 5);
    assert_eq!(passes, 4);
}

#[test]
fn depth_first_from_b() {
    let graph = create_graph();
    assert_eq!(walk_order(&graph, NodeIndex(1)), vec!["B", "D", "E", "C"]);
}

#[test]
fn depth_first_from_other_nodes() {
    let graph = create_graph();
    assert_eq!(walk_order(&graph, NodeIndex(0)), vec!["A", "B", "D", "E", "C"]);
    assert_eq!(walk_order(&graph, NodeIndex(2)), vec!["C"]);
    assert_eq!(walk_order(&graph, NodeIndex(3)), vec!["D", "E", "C"]);
    assert_eq!(walk_order(&graph, NodeIndex(5)), vec!["F", "B", "D", "E", "C"]);
}

#[test]
fn depth_first_ends_for_good() {
    let graph = create_graph();
    let mut walk = graph.depth_traverse(NodeIndex(4));
    assert_eq!(walk.next(), Some(&"E"));
    assert_eq!(walk.next(), Some(&"C"));
    assert_eq!(walk.next(), None);
    assert_eq!(walk.next(), None);
}

#[test]
fn depth_first_hands_out_each_node_once() {
    // cycles, a self-loop and doubled edges
    let mut graph: Graph<&'static str, ()> = Graph::new();
    let a = graph.add_node("a");
    let b = graph.add_node("b");
    let c = graph.add_node("c");
    let d = graph.add_node("d");
    graph.add_edge(a, b, ());
    graph.add_edge(b, a, ());
    graph.add_edge(a, a, ());
    graph.add_edge(a, c, ());
    graph.add_edge(a, c, ());
    graph.add_edge(c, b, ());
    graph.add_edge(d, a, ());

    let mut order = Vec::new();
    let mut walk = graph.depth_traverse(a);
    while let Some(data) = walk.next() {
        order.push(*data);
    }
    // successors of a, newest edge first: c, c, a, b; c ends on top of
    // the stack, twice, and b below
    assert_eq!(order, vec!["a", "c", "b"]);

    let mut order = Vec::new();
    let mut walk = graph.depth_traverse(d);
    while let Some(data) = walk.next() {
        order.push(*data);
    }
    assert_eq!(order, vec!["d", "a", "c", "b"]);
}

#[test]
fn depth_first_marks_only_what_it_visits() {
    // a wrong visited set would cut the walk short or repeat nodes
    let mut graph: Graph<usize, ()> = Graph::new();
    let nodes: Vec<NodeIndex> = (0..70).map(|i| graph.add_node(i)).collect();
    for i in 0..69 {
        graph.add_edge(nodes[i], nodes[i + 1], ());
    }
    graph.add_edge(nodes[69], nodes[0], ());
    let mut order = Vec::new();
    let mut walk = graph.depth_traverse(nodes[65]);
    while let Some(data) = walk.next() {
        order.push(*data);
    }
    let expected: Vec<usize> = (65..70).chain(0..65).collect();
    assert_eq!(order, expected);
}

#[test]
fn rollback_discards_what_was_added() {
    let mut graph = create_graph();
    let snapshot = graph.start_snapshot();
    let g = graph.add_node("G");
    let h = graph.add_node("H");
    assert_eq!((g, h), (NodeIndex(6), NodeIndex(7)));
    assert_eq!(graph.add_edge(NodeIndex(1), g, "BG"), EdgeIndex(6));
    assert_eq!(graph.add_edge(g, NodeIndex(1), "GB"), EdgeIndex(7));
    assert_eq!(graph.add_edge(h, h, "HH"), EdgeIndex(8));
    assert_eq!(graph.successor_nodes(NodeIndex(1)), vec![g, NodeIndex(3), NodeIndex(2)]);
    assert_eq!(graph.all_nodes().len(), 8);
    assert_eq!(graph.all_edges().len(), 9);

    graph.rollback_to(snapshot);

    assert_eq!(graph.all_nodes().len(), 6);
    assert_eq!(graph.all_edges().len(), 6);
    assert_eq!(graph.next_node_index(), NodeIndex(6));
    assert_eq!(graph.next_edge_index(), EdgeIndex(6));
    let expected = ["A", "B", "C", "D", "E", "F"];
    for i in 0..6 {
        assert_eq!(*graph.node_data(NodeIndex(i)), expected[i]);
    }
    test_adjacent_edges(
        &graph,
        NodeIndex(1),
        "B",
        &[("FB", "F"), ("AB", "A")],
        &[("BD", "D"), ("BC", "C")],
    );
    test_adjacent_edges(&graph, NodeIndex(0), "A", &[], &[("AB", "B")]);
    test_adjacent_edges(&graph, NodeIndex(2), "C", &[("EC", "E"), ("BC", "B")], &[]);
    assert_eq!(walk_order(&graph, NodeIndex(1)), vec!["B", "D", "E", "C"]);

    // the discarded positions are handed out again
    assert_eq!(graph.add_node("G2"), NodeIndex(6));
    assert_eq!(graph.add_edge(NodeIndex(6), NodeIndex(1), "G2B"), EdgeIndex(6));
    assert_eq!(
        graph.predecessor_nodes(NodeIndex(1)),
        vec![NodeIndex(6), NodeIndex(5), NodeIndex(0)]
    );
}

#[test]
fn rollback_to_the_start_empties_the_graph() {
    let mut graph: Graph<u8, u8> = Graph::new();
    let snapshot = graph.start_snapshot();
    let a = graph.add_node(1);
    let b = graph.add_node(2);
    graph.add_edge(a, b, 3);
    graph.add_edge(b, a, 4);
    graph.rollback_to(snapshot);
    assert!(graph.all_nodes().is_empty());
    assert!(graph.all_edges().is_empty());
    assert_eq!(graph.add_node(9), NodeIndex(0));
    assert_eq!(graph.first_adjacent(NodeIndex(0), OUTGOING), EdgeIndex::invalid());
    assert_eq!(graph.first_adjacent(NodeIndex(0), INCOMING), EdgeIndex::invalid());
}

#[test]
fn rollback_skips_several_newer_edges_of_one_node() {
    let mut graph: Graph<u8, u8> = Graph::new();
    let a = graph.add_node(0);
    let b = graph.add_node(1);
    let e0 = graph.add_edge(a, b, 0);
    let e1 = graph.add_edge(a, b, 1);
    let snapshot = graph.start_snapshot();
    graph.add_edge(a, b, 2);
    graph.add_edge(b, a, 3);
    graph.add_edge(a, b, 4);
    graph.rollback_to(snapshot);
    assert_eq!(graph.first_adjacent(a, OUTGOING), e1);
    assert_eq!(graph.next_adjacent(e1, OUTGOING), e0);
    assert_eq!(graph.first_adjacent(b, INCOMING), e1);
    assert_eq!(graph.first_adjacent(b, OUTGOING), EdgeIndex::invalid());
    assert_eq!(graph.first_adjacent(a, INCOMING), EdgeIndex::invalid());
    assert_eq!(graph.successor_nodes(a), vec![b, b]);
}

#[test]
fn nested_savepoints_unwind_innermost_first() {
    let mut graph: Graph<u8, u8> = Graph::new();
    graph.add_node(0);
    let outer = graph.start_snapshot();
    graph.add_node(1);
    let inner = graph.start_snapshot();
    graph.add_node(2);
    graph.add_edge(NodeIndex(2), NodeIndex(0), 7);
    graph.rollback_to(inner);
    assert_eq!(graph.all_nodes().len(), 2);
    assert_eq!(graph.all_edges().len(), 0);
    graph.add_edge(NodeIndex(1), NodeIndex(0), 8);
    graph.rollback_to(outer);
    assert_eq!(graph.all_nodes().len(), 1);
    assert_eq!(graph.all_edges().len(), 0);
    assert_eq!(graph.first_adjacent(NodeIndex(0), INCOMING), EdgeIndex::invalid());
}

#[test]
fn commit_keeps_what_was_added() {
    let mut graph = create_graph();
    let snapshot = graph.start_snapshot();
    let g = graph.add_node("G");
    graph.add_edge(g, NodeIndex(0), "GA");
    graph.commit(snapshot);
    assert_eq!(graph.all_nodes().len(), 7);
    assert_eq!(graph.all_edges().len(), 7);
    assert_eq!(*graph.node_data(g), "G");
    assert_eq!(graph.predecessor_nodes(NodeIndex(0)), vec![g]);
}

#[test]
fn rollback_keeps_payload_changes() {
    let mut graph = create_graph();
    let snapshot = graph.start_snapshot();
    *graph.mut_node_data(NodeIndex(0)) = "a";
    graph.add_node("G");
    graph.rollback_to(snapshot);
    assert_eq!(*graph.node_data(NodeIndex(0)), "a");
    assert_eq!(graph.all_nodes().len(), 6);
}

#[test]
fn edge_records_print() {
    let graph = create_graph();
    let text = format!("{:?}", graph.edge(EdgeIndex(2)));
    assert!(text.contains("BD"));
}
