//! Drivers that hand every node or edge to a callback, among them the
//! fixed-point driver.

use vstd::prelude::*;
use crate::graph::Edge;
use crate::graph::Graph;
use crate::graph::Node;
use crate::index::EdgeIndex;
use crate::index::NodeIndex;

verus! {

broadcast use vstd::function::group_function_axioms;

/// A walk over `nodes` in arena order got the answer `true` at every
/// position below `stop`, and the answer `false` at `stop` unless `stop` is
/// the end.
pub open spec fn node_walk_stops<'a, N, F>(f: F, nodes: Seq<Node<N>>, stop: int) -> bool where
    F: FnMut(NodeIndex, &'a Node<N>) -> bool,
    N: 'a,
 {
    &&& 0 <= stop <= nodes.len()
    &&& forall|i: int|
        0 <= i < stop ==> call_ensures(f, (NodeIndex(i as usize), &#[trigger] nodes[i]), true)
    &&& stop < nodes.len() ==> call_ensures(f, (NodeIndex(stop as usize), &nodes[stop]), false)
}

/// A walk over `edges` in arena order got the answer `true` at every
/// position below `stop`, and the answer `false` at `stop` unless `stop` is
/// the end.
pub open spec fn edge_walk_stops<'a, E, F>(f: F, edges: Seq<Edge<E>>, stop: int) -> bool where
    F: FnMut(EdgeIndex, &'a Edge<E>) -> bool,
    E: 'a,
 {
    &&& 0 <= stop <= edges.len()
    &&& forall|i: int|
        0 <= i < stop ==> call_ensures(f, (EdgeIndex(i as usize), &#[trigger] edges[i]), true)
    &&& stop < edges.len() ==> call_ensures(f, (EdgeIndex(stop as usize), &edges[stop]), false)
}

/// A walk over the handles below `max` got the answer `true` for every
/// handle below `stop`, and the answer `false` for `stop` unless `stop` is
/// `max`.
pub open spec fn index_walk_stops<F>(f: F, max: EdgeIndex, stop: EdgeIndex) -> bool where
    F: FnMut(EdgeIndex) -> bool,
 {
    &&& stop.0 <= max.0
    &&& forall|e: EdgeIndex| e.0 < stop.0 ==> #[trigger] call_ensures(f, (e,), true)
    &&& stop.0 < max.0 ==> call_ensures(f, (stop,), false)
}

/// The callback may be applied to edge `i` of `edges` in pass `pass`.
pub open spec fn edge_accepted<'a, E, F>(op: F, edges: Seq<Edge<E>>, pass: int, i: int) -> bool where
    F: FnMut(usize, EdgeIndex, &'a Edge<E>) -> bool,
    E: 'a,
 {
    call_requires(op, (pass as usize, EdgeIndex(i as usize), &edges[i]))
}

/// The callback may answer `b` when applied to edge `i` of `edges` in pass
/// `pass`.
pub open spec fn edge_answer<'a, E, F>(
    op: F,
    edges: Seq<Edge<E>>,
    pass: int,
    i: int,
    b: bool,
) -> bool where F: FnMut(usize, EdgeIndex, &'a Edge<E>) -> bool, E: 'a {
    call_ensures(op, (pass as usize, EdgeIndex(i as usize), &edges[i]), b)
}

/// In pass `pass` the callback was applied to every edge and reported a
/// change on at least one of them.
pub open spec fn pass_changed<'a, E, F>(op: F, edges: Seq<Edge<E>>, pass: int) -> bool where
    F: FnMut(usize, EdgeIndex, &'a Edge<E>) -> bool,
    E: 'a,
 {
    &&& forall|i: int|
        0 <= i < edges.len() ==> #[trigger] edge_answer(op, edges, pass, i, true) || edge_answer(
            op,
            edges,
            pass,
            i,
            false,
        )
    &&& exists|i: int| 0 <= i < edges.len() && #[trigger] edge_answer(op, edges, pass, i, true)
}

/// In pass `pass` the callback was applied to every edge and reported no
/// change on any of them.
pub open spec fn pass_quiet<'a, E, F>(op: F, edges: Seq<Edge<E>>, pass: int) -> bool where
    F: FnMut(usize, EdgeIndex, &'a Edge<E>) -> bool,
    E: 'a,
 {
    forall|i: int| 0 <= i < edges.len() ==> #[trigger] edge_answer(op, edges, pass, i, false)
}

/// The callback reports no change in any pass after the first `bound`.
pub open spec fn changes_bounded<'a, E, F>(op: F, edges: Seq<Edge<E>>, bound: int) -> bool where
    F: FnMut(usize, EdgeIndex, &'a Edge<E>) -> bool,
    E: 'a,
 {
    forall|pass: int, i: int|
        1 <= pass <= usize::MAX && 0 <= i < edges.len() && #[trigger] edge_answer(
            op,
            edges,
            pass,
            i,
            true,
        ) ==> pass <= bound
}

impl<N, E> Graph<N, E> {
    /// Calls `f` on every node in arena order until it answers `false`.
    /// Returns whether it answered `true` throughout.
    #[verifier::loop_isolation(false)]
    pub fn each_node<'a, F>(&'a self, mut f: F) -> (all: bool) where
        F: FnMut(NodeIndex, &'a Node<N>) -> bool,

        requires
            forall|i: int|
                0 <= i < self.node_records().len() ==> call_requires(
                    f,
                    (NodeIndex(i as usize), &#[trigger] self.node_records()[i]),
                ),
        ensures
            exists|stop: int|
                (#[trigger] node_walk_stops(f, self.node_records(), stop) && (all <==> stop
                    == self.node_records().len())),
    {
        let nodes = self.all_nodes();
        let ghost callback = f;
        let mut i: usize = 0;
        while i < nodes.len()
            invariant
                f == callback,
                nodes@ == self.node_records(),
                i <= nodes.len(),
                forall|i: int|
                    0 <= i < self.node_records().len() ==> call_requires(
                        f,
                        (NodeIndex(i as usize), &#[trigger] self.node_records()[i]),
                    ),
                forall|k: int|
                    0 <= k < i ==> call_ensures(
                        f,
                        (NodeIndex(k as usize), &#[trigger] self.node_records()[k]),
                        true,
                    ),
            decreases nodes.len() - i,
        {
            assert(nodes@[i as int] == self.node_records()[i as int]);
            if !f(NodeIndex(i), &nodes[i]) {
                assert(node_walk_stops(f, self.node_records(), i as int));
                return false;
            }
            i += 1;
        }
        assert(node_walk_stops(f, self.node_records(), i as int));
        true
    }

    /// Calls `f` on every edge in arena order until it answers `false`.
    /// Returns whether it answered `true` throughout.
    #[verifier::loop_isolation(false)]
    pub fn each_edge<'a, F>(&'a self, mut f: F) -> (all: bool) where
        F: FnMut(EdgeIndex, &'a Edge<E>) -> bool,

        requires
            forall|i: int|
                0 <= i < self.edge_records().len() ==> call_requires(
                    f,
                    (EdgeIndex(i as usize), &#[trigger] self.edge_records()[i]),
                ),
        ensures
            exists|stop: int|
                (#[trigger] edge_walk_stops(f, self.edge_records(), stop) && (all <==> stop
                    == self.edge_records().len())),
    {
        let edges = self.all_edges();
        let ghost callback = f;
        let mut i: usize = 0;
        while i < edges.len()
            invariant
                f == callback,
                edges@ == self.edge_records(),
                i <= edges.len(),
                forall|i: int|
                    0 <= i < self.edge_records().len() ==> call_requires(
                        f,
                        (EdgeIndex(i as usize), &#[trigger] self.edge_records()[i]),
                    ),
                forall|k: int|
                    0 <= k < i ==> call_ensures(
                        f,
                        (EdgeIndex(k as usize), &#[trigger] self.edge_records()[k]),
                        true,
                    ),
            decreases edges.len() - i,
        {
            assert(edges@[i as int] == self.edge_records()[i as int]);
            if !f(EdgeIndex(i), &edges[i]) {
                assert(edge_walk_stops(f, self.edge_records(), i as int));
                return false;
            }
            i += 1;
        }
        assert(edge_walk_stops(f, self.edge_records(), i as int));
        true
    }

    /// Applies `op` to every edge in arena order, pass after pass, until a
    /// whole pass reports no change. Passes are numbered from 1, and the
    /// number of passes made is returned.
    ///
    /// Whether the passes ever become quiet is up to `op`. The pass counter
    /// is a `usize`, so the driver also stops after pass `usize::MAX`,
    /// whatever that pass reported.
    pub fn iterate_until_fixed_point<'a, F>(&'a self, mut op: F) -> (passes: usize) where
        F: FnMut(usize, EdgeIndex, &'a Edge<E>) -> bool,

        requires
            forall|pass: int, i: int|
                1 <= pass <= usize::MAX && 0 <= i < self.edge_records().len()
                    ==> #[trigger] edge_accepted(op, self.edge_records(), pass, i),
        ensures
            1 <= passes,
            forall|pass: int|
                1 <= pass < passes ==> #[trigger] pass_changed(op, self.edge_records(), pass),
            pass_changed(op, self.edge_records(), passes as int) || pass_quiet(
                op,
                self.edge_records(),
                passes as int,
            ),
            passes < usize::MAX ==> pass_quiet(op, self.edge_records(), passes as int),
            forall|bound: int|
                0 <= bound < usize::MAX && #[trigger] changes_bounded(
                    op,
                    self.edge_records(),
                    bound,
                ) ==> passes <= bound + 1 && pass_quiet(op, self.edge_records(), passes as int),
    {
        let edges = self.all_edges();
        let ghost callback = op;
        let mut iteration: usize = 0;
        let mut changed = true;
        while changed && iteration < usize::MAX
            invariant
                op == callback,
                edges@ == self.edge_records(),
                forall|pass: int, i: int|
                    1 <= pass <= usize::MAX && 0 <= i < self.edge_records().len()
                        ==> #[trigger] edge_accepted(op, self.edge_records(), pass, i),
                changed ==> forall|pass: int|
                    1 <= pass <= iteration ==> #[trigger] pass_changed(op, edges@, pass),
                !changed ==> 1 <= iteration && pass_quiet(op, edges@, iteration as int) && forall|
                    pass: int,
                |
                    1 <= pass < iteration ==> #[trigger] pass_changed(op, edges@, pass),
            decreases usize::MAX - iteration,
        {
            changed = false;
            iteration += 1;
            let mut i: usize = 0;
            while i < edges.len()
                invariant
                    op == callback,
                    edges@ == self.edge_records(),
                    1 <= iteration,
                    i <= edges.len(),
                    forall|pass: int, i: int|
                        1 <= pass <= usize::MAX && 0 <= i < self.edge_records().len()
                            ==> #[trigger] edge_accepted(op, self.edge_records(), pass, i),
                    forall|k: int|
                        0 <= k < i ==> #[trigger] edge_answer(op, edges@, iteration as int, k, true)
                            || edge_answer(op, edges@, iteration as int, k, false),
                    changed ==> exists|k: int|
                        0 <= k < i && #[trigger] edge_answer(op, edges@, iteration as int, k, true),
                    !changed ==> forall|k: int|
                        0 <= k < i ==> #[trigger] edge_answer(
                            op,
                            edges@,
                            iteration as int,
                            k,
                            false,
                        ),
                decreases edges.len() - i,
            {
                assert(edge_accepted(op, self.edge_records(), iteration as int, i as int));
                let answer = op(iteration, EdgeIndex(i), &edges[i]);
                assert(edge_answer(op, edges@, iteration as int, i as int, answer));
                if answer {
                    changed = true;
                }
                i += 1;
            }
        }
        proof {
            let recs = self.edge_records();
            assert forall|bound: int|
                0 <= bound < usize::MAX && #[trigger] changes_bounded(
                    op,
                    recs,
                    bound,
                ) implies iteration <= bound + 1 && pass_quiet(op, recs, iteration as int) by {
                if iteration > 1 {
                    assert(pass_changed(op, recs, iteration - 1));
                    let k = choose|k: int|
                        0 <= k < recs.len() && #[trigger] edge_answer(
                            op,
                            recs,
                            iteration - 1,
                            k,
                            true,
                        );
                    assert(iteration - 1 <= bound);
                }
                if changed {
                    assert(pass_changed(op, recs, iteration as int));
                    let k = choose|k: int|
                        0 <= k < recs.len() && #[trigger] edge_answer(
                            op,
                            recs,
                            iteration as int,
                            k,
                            true,
                        );
                    assert(iteration <= bound);
                }
            }
        }
        iteration
    }
}

/// Calls `f` on the edge handles `0`, `1`, ... below `max_edge_index`, in
/// order, until it answers `false`.
#[verifier::loop_isolation(false)]
pub fn each_edge_index<F>(max_edge_index: EdgeIndex, mut f: F) where F: FnMut(EdgeIndex) -> bool
    requires
        forall|e: EdgeIndex| e.0 < max_edge_index.0 ==> #[trigger] call_requires(f, (e,)),
    ensures
        exists|stop: EdgeIndex| (#[trigger] index_walk_stops(f, max_edge_index, stop)),
{
    let ghost callback = f;
    let mut i: usize = 0;
    let n = max_edge_index.0;
    while i < n
        invariant
            f == callback,
            n == max_edge_index.0,
            i <= n,
            forall|e: EdgeIndex| e.0 < max_edge_index.0 ==> #[trigger] call_requires(f, (e,)),
            forall|e: EdgeIndex| e.0 < i ==> #[trigger] call_ensures(f, (e,), true),
        decreases n - i,
    {
        if !f(EdgeIndex(i)) {
            assert(index_walk_stops(f, max_edge_index, EdgeIndex(i)));
            return ;
        }
        i += 1;
    }
    assert(index_walk_stops(f, max_edge_index, max_edge_index));
}

} // verus!
