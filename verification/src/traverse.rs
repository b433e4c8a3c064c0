//! Depth-first traversal of what a node reaches.

use vstd::prelude::*;
use crate::adjacent::node_ids;
use crate::bits::BitVector;
use crate::bits::MAX_BITS;
use crate::graph::Graph;
use crate::index::Direction;
use crate::index::NodeIndex;

verus! {

/// The entries of `list` that are not in `visited`, in order.
pub open spec fn unvisited(list: Seq<int>, visited: Set<int>) -> Seq<int>
    decreases list.len(),
{
    if list.len() == 0 {
        Seq::empty()
    } else if visited.contains(list.last()) {
        unvisited(list.drop_last(), visited)
    } else {
        unvisited(list.drop_last(), visited).push(list.last())
    }
}

/// What is left of `stack` once the visited nodes on top of it are gone.
pub open spec fn skip_visited(stack: Seq<int>, visited: Set<int>) -> Seq<int>
    decreases stack.len(),
{
    if stack.len() == 0 {
        stack
    } else if visited.contains(stack.last()) {
        skip_visited(stack.drop_last(), visited)
    } else {
        stack
    }
}

/// Depth-first walk over the nodes that one node reaches, handing out each
/// node's payload once.
pub struct DepthFirstTraversal<'g, N, E> {
    graph: &'g Graph<N, E>,
    stack: Vec<NodeIndex>,
    visited: BitVector,
    start: Ghost<NodeIndex>,
}

impl<'g, N, E> DepthFirstTraversal<'g, N, E> {
    /// The graph that is walked.
    pub closed spec fn graph(&self) -> Graph<N, E> {
        *self.graph
    }

    /// The node that the walk started from.
    pub closed spec fn start(&self) -> int {
        self.start@.0 as int
    }

    /// The nodes waiting to be looked at, the next one last.
    pub closed spec fn stack(&self) -> Seq<int> {
        node_ids(self.stack@)
    }

    /// The nodes handed out so far.
    pub closed spec fn visited(&self) -> Set<int> {
        self.visited.members()
    }

    /// What holds of a walk between any two steps: all that was handed out
    /// or waits is reached from the start, and whatever a handed-out node
    /// leads to was handed out or waits.
    pub closed spec fn wf(&self) -> bool {
        let model = self.graph@;
        &&& self.graph.wf()
        &&& self.visited@.len() == model.nodes.len()
        &&& 0 <= self.start() < model.nodes.len()
        &&& forall|k: int|
            0 <= k < self.stack().len() ==> 0 <= (#[trigger] self.stack()[k]) < model.nodes.len()
                && model.reachable(self.start(), self.stack()[k])
        &&& forall|v: int| #[trigger] self.visited().contains(v) ==> model.reachable(self.start(), v)
        &&& forall|j: int|
            0 <= j < model.edges.len() && self.visited().contains(
                (#[trigger] model.edges[j]).source,
            ) ==> self.visited().contains(model.edges[j].target) || self.stack().contains(
                model.edges[j].target,
            )
        &&& self.visited().contains(self.start()) || self.stack().contains(self.start())
    }

    /// Hands out the payload of the next node of the walk, or `None` when
    /// the walk is over.
    ///
    /// The next node is the topmost waiting node that was not handed out
    /// before. Its successors that were not handed out are put on top of
    /// the stack so that the one behind the newest edge comes topmost.
    pub fn next(&mut self) -> (item: Option<&'g N>)
        requires
            old(self).wf(),
        ensures
            final(self).wf(),
            final(self).graph() == old(self).graph(),
            final(self).start() == old(self).start(),
            ({
                let model = old(self).graph()@;
                let pending = skip_visited(old(self).stack(), old(self).visited());
                if pending.len() == 0 {
                    &&& item.is_none()
                    &&& final(self).stack() == pending
                    &&& final(self).visited() == old(self).visited()
                    &&& forall|v: int|
                        final(self).visited().contains(v) <==> model.reachable(old(self).start(), v)
                } else {
                    let node = pending.last();
                    &&& 0 <= node < model.nodes.len()
                    &&& item == Some(&model.nodes[node])
                    &&& !old(self).visited().contains(node)
                    &&& model.reachable(old(self).start(), node)
                    &&& final(self).visited() == old(self).visited().insert(node)
                    &&& final(self).stack() == pending.drop_last() + unvisited(
                        model.successors(node).reverse(),
                        final(self).visited(),
                    )
                }
            }),
    {
        let ghost model = self.graph@;
        loop
            invariant
                self.wf(),
                self.graph() == old(self).graph(),
                self.start() == old(self).start(),
                model == self.graph@,
                self.visited() == old(self).visited(),
                skip_visited(self.stack(), self.visited()) == skip_visited(
                    old(self).stack(),
                    old(self).visited(),
                ),
            decreases self.stack@.len(),
        {
            let ghost before = self.stack();
            let idx = match self.stack.pop() {
                Some(idx) => idx,
                None => {
                    proof {
                        assert(self.stack() =~= Seq::<int>::empty());
                        self.lemma_finished();
                    }
                    return None;
                },
            };
            proof {
                assert(self.stack() =~= before.drop_last());
                assert(before.last() == idx.0);
                assert(before[before.len() - 1] == idx.0);
            }
            let ghost seen = self.visited();
            if !self.visited.insert(idx.node_id()) {
                proof {
                    assert(self.visited() =~= seen);
                    assert forall|k: int| 0 <= k < self.stack().len() implies 0 <= (
                    #[trigger] self.stack()[k]) < model.nodes.len() && model.reachable(
                        self.start(),
                        self.stack()[k],
                    ) by {
                        assert(self.stack()[k] == before[k]);
                    }
                    assert forall|j: int|
                        0 <= j < model.edges.len() && self.visited().contains(
                            (#[trigger] model.edges[j]).source,
                        ) implies self.visited().contains(model.edges[j].target)
                        || self.stack().contains(model.edges[j].target) by {
                        let t = model.edges[j].target;
                        if !self.visited().contains(t) {
                            let k = choose|k: int| 0 <= k < before.len() && before[k] == t;
                            assert(self.stack()[k] == t);
                        }
                    }
                    if !self.visited().contains(self.start()) {
                        let k = choose|k: int| 0 <= k < before.len() && before[k] == self.start();
                        assert(self.stack()[k] == self.start());
                    }
                }
                continue ;
            }
            let ghost base = self.stack();
            let ghost order = model.successors(idx.0 as int).reverse();
            let targets = self.graph.successor_nodes(idx);
            let mut left: usize = targets.len();
            proof {
                assert(order.take(0) =~= Seq::<int>::empty());
                assert(base + unvisited(order.take(0), self.visited()) =~= base);
                model.lemma_successors_in_range(idx.0 as int);
            }
            while left > 0
                invariant
                    self.graph.wf(),
                    self.graph() == old(self).graph(),
                    self.start() == old(self).start(),
                    model == self.graph@,
                    self.visited@.len() == model.nodes.len(),
                    self.visited() == seen.insert(idx.0 as int),
                    node_ids(targets@) == model.successors(idx.0 as int),
                    order == model.successors(idx.0 as int).reverse(),
                    left <= targets.len(),
                    forall|k: int|
                        0 <= k < targets@.len() ==> 0 <= (#[trigger] node_ids(targets@)[k])
                            < model.nodes.len(),
                    self.stack() == base + unvisited(
                        order.take(targets.len() - left),
                        self.visited(),
                    ),
                decreases left,
            {
                let ghost done = targets.len() - left;
                left -= 1;
                let target = targets[left];
                proof {
                    assert(node_ids(targets@)[left as int] == target.0);
                    assert(order[done] == target.0);
                    assert(order.take(done + 1).drop_last() =~= order.take(done));
                }
                let ghost prior = self.stack();
                if !self.visited.contains(target.node_id()) {
                    self.stack.push(target);
                    proof {
                        assert(self.stack() =~= prior.push(target.0 as int));
                    }
                }
            }
            proof {
                assert(order.take(targets.len() as int) =~= order);
                self.lemma_after_visit(before, seen, idx.0 as int);
            }
            return Some(self.graph.node_data(idx));
        }
    }

    /// A walk with nothing waiting has handed out exactly what the start
    /// reaches.
    proof fn lemma_finished(&self)
        requires
            self.wf(),
            self.stack().len() == 0,
        ensures
            forall|v: int| self.visited().contains(v) <==> self.graph@.reachable(self.start(), v),
    {
        let model = self.graph@;
        assert forall|v: int| model.reachable(self.start(), v) implies self.visited().contains(
            v,
        ) by {
            let steps = choose|steps: nat| #[trigger] model.reachable_in(self.start(), v, steps);
            model.lemma_closed_set_holds_reachable(self.start(), v, steps, self.visited());
        }
    }

    /// The walk is well-formed again once node `node` was taken from the
    /// top of `before`, marked, and its unvisited successors were pushed.
    proof fn lemma_after_visit(&self, before: Seq<int>, seen: Set<int>, node: int)
        requires
            self.graph.wf(),
            self.visited@.len() == self.graph@.nodes.len(),
            0 <= self.start() < self.graph@.nodes.len(),
            before.len() > 0,
            before.last() == node,
            0 <= node < self.graph@.nodes.len(),
            !seen.contains(node),
            self.visited() == seen.insert(node),
            self.stack() == before.drop_last() + unvisited(
                self.graph@.successors(node).reverse(),
                self.visited(),
            ),
            forall|k: int|
                0 <= k < before.len() ==> 0 <= (#[trigger] before[k]) < self.graph@.nodes.len()
                    && self.graph@.reachable(self.start(), before[k]),
            forall|v: int| #[trigger] seen.contains(v) ==> self.graph@.reachable(self.start(), v),
            forall|j: int|
                0 <= j < self.graph@.edges.len() && seen.contains(
                    (#[trigger] self.graph@.edges[j]).source,
                ) ==> seen.contains(self.graph@.edges[j].target) || before.contains(
                    self.graph@.edges[j].target,
                ),
            seen.contains(self.start()) || before.contains(self.start()),
        ensures
            self.wf(),
    {
        let model = self.graph@;
        let list = model.adjacent(node, Direction::Outgoing);
        let targets = model.successors(node);
        let order = targets.reverse();
        let pushed = unvisited(order, self.visited());
        let kept = before.drop_last();
        model.lemma_adjacent_below_sound(model.edges.len() as int, node, Direction::Outgoing);
        lemma_unvisited_entries(order, self.visited());
        assert forall|t: int| #[trigger] order.contains(t) <==> targets.contains(t) by {
            if order.contains(t) {
                let r = choose|r: int| 0 <= r < order.len() && order[r] == t;
                assert(targets[targets.len() - 1 - r] == t);
            }
            if targets.contains(t) {
                let p = choose|p: int| 0 <= p < targets.len() && targets[p] == t;
                assert(order[order.len() - 1 - p] == t);
            }
        }
        assert forall|k: int| 0 <= k < self.stack().len() implies 0 <= (#[trigger] self.stack()[k])
            < model.nodes.len() && model.reachable(self.start(), self.stack()[k]) by {
            if k < kept.len() {
                assert(self.stack()[k] == before[k]);
            } else {
                let t = pushed[k - kept.len()];
                assert(self.stack()[k] == t);
                assert(pushed.contains(t));
                assert(order.contains(t));
                assert(targets.contains(t));
                let p = choose|p: int| 0 <= p < targets.len() && targets[p] == t;
                assert(model.edges[list[p]].source == node);
                assert(model.has_edge(node, t));
                model.lemma_reachable_step(self.start(), node, t);
            }
        }
        assert forall|j: int|
            0 <= j < model.edges.len() && self.visited().contains(
                (#[trigger] model.edges[j]).source,
            ) implies self.visited().contains(model.edges[j].target) || self.stack().contains(
            model.edges[j].target,
        ) by {
            let t = model.edges[j].target;
            if !self.visited().contains(t) {
                if model.edges[j].source == node {
                    model.lemma_adjacent_below_complete(
                        model.edges.len() as int,
                        node,
                        Direction::Outgoing,
                        j,
                    );
                    let p = choose|p: int| 0 <= p < list.len() && list[p] == j;
                    assert(targets[p] == t);
                    assert(targets.contains(t));
                    assert(order.contains(t));
                    assert(pushed.contains(t));
                    let q = choose|q: int| 0 <= q < pushed.len() && pushed[q] == t;
                    assert(self.stack()[kept.len() + q] == t);
                } else {
                    let k = choose|k: int| 0 <= k < before.len() && before[k] == t;
                    assert(k < kept.len());
                    assert(self.stack()[k] == t);
                }
            }
        }
        if !self.visited().contains(self.start()) {
            let k = choose|k: int| 0 <= k < before.len() && before[k] == self.start();
            assert(self.stack()[k] == self.start());
        }
    }
}

/// The unvisited entries of a list are the entries that are not visited.
proof fn lemma_unvisited_entries(list: Seq<int>, visited: Set<int>)
    ensures
        forall|t: int|
            #[trigger] unvisited(list, visited).contains(t) <==> list.contains(t)
                && !visited.contains(t),
    decreases list.len(),
{
    let out = unvisited(list, visited);
    if list.len() == 0 {
        assert forall|t: int| #[trigger] out.contains(t) <==> list.contains(t) && !visited.contains(
            t,
        ) by {}
    } else {
        let front = list.drop_last();
        let last = list.last();
        lemma_unvisited_entries(front, visited);
        let inner = unvisited(front, visited);
        assert forall|t: int| #[trigger] out.contains(t) <==> list.contains(t) && !visited.contains(
            t,
        ) by {
            if out.contains(t) {
                let q = choose|q: int| 0 <= q < out.len() && out[q] == t;
                if visited.contains(last) || q < inner.len() {
                    assert(inner[q] == t);
                    assert(inner.contains(t));
                    let p = choose|p: int| 0 <= p < front.len() && front[p] == t;
                    assert(list[p] == t);
                } else {
                    assert(list[list.len() - 1] == t);
                }
            }
            if list.contains(t) && !visited.contains(t) {
                let p = choose|p: int| 0 <= p < list.len() && list[p] == t;
                if p < front.len() {
                    assert(front[p] == t);
                    assert(front.contains(t));
                    assert(inner.contains(t));
                    let q = choose|q: int| 0 <= q < inner.len() && inner[q] == t;
                    assert(out[q] == t);
                } else {
                    assert(out[out.len() - 1] == t);
                }
            }
        }
    }
}

impl<N, E> Graph<N, E> {
    /// Starts a depth-first walk at `start`. The walk hands out `start`
    /// first and then, each once, the nodes that `start` reaches.
    ///
    /// The visited set holds one bit per node, and can hold no more than
    /// [`MAX_BITS`] of them.
    pub fn depth_traverse(&self, start: NodeIndex) -> (walk: DepthFirstTraversal<'_, N, E>)
        requires
            self.wf(),
            start.0 < self@.nodes.len(),
            self@.nodes.len() <= MAX_BITS,
        ensures
            walk.wf(),
            walk.graph() == *self,
            walk.start() == start.0,
            walk.stack() == seq![start.0 as int],
            walk.visited() == Set::<int>::empty(),
    {
        let mut stack: Vec<NodeIndex> = Vec::new();
        stack.push(start);
        let walk = DepthFirstTraversal {
            graph: self,
            stack: stack,
            visited: BitVector::cleared(self.next_node_index().node_id()),
            start: Ghost(start),
        };
        proof {
            assert(walk.stack() =~= seq![start.0 as int]);
            assert(walk.visited() =~= Set::<int>::empty());
            assert(walk.stack()[0] == start.0);
            assert(self@.reachable_in(start.0 as int, start.0 as int, 0));
        }
        walk
    }
}

} // verus!
