use crate::clock::millis;
use crate::clock::now;
use crate::clock::span;
use crate::distance::distance;
use crate::distance::euclid;
use crate::frontier::ascending;
use crate::frontier::is_queued;
use crate::frontier::lemma_same_entries;
use crate::frontier::sort_by_priority;
use crate::frontier::plain_entry;
use crate::frontier::queued;
use crate::graph::contains_index;
use crate::graph::Edge;
use crate::graph::lemma_push_contains;
use crate::graph::Graph;
use crate::graph::GraphView;
use crate::graph::NodeIndex;
use crate::graph::NodeState;
use instant::Instant;
use std::collections::HashSet;
use vstd::prelude::*;

verus! {

broadcast use vstd::std_specs::hash::group_hash_axioms;

/// The search algorithms a run can follow.
#[derive(Clone, Copy, PartialEq, Eq, Structural, Debug)]
pub enum GraphTraversers {
    DepthFirst,
    BreadthFirst,
    Dijkstras,
    AStar,
    SimpleBreadth,
}

impl GraphTraversers {
    pub open spec fn label(self) -> Seq<char> {
        match self {
            GraphTraversers::DepthFirst => "Depth First Search"@,
            GraphTraversers::BreadthFirst => "Breadth First Search"@,
            GraphTraversers::Dijkstras => "Dijkstra's Shortest Path"@,
            GraphTraversers::AStar => "A*"@,
            GraphTraversers::SimpleBreadth => "Simple Breadth First Search"@,
        }
    }

    pub fn name(&self) -> (s: &'static str)
        ensures
            s@ == self.label(),
    {
        match self {
            GraphTraversers::DepthFirst => "Depth First Search",
            GraphTraversers::BreadthFirst => "Breadth First Search",
            GraphTraversers::Dijkstras => "Dijkstra's Shortest Path",
            GraphTraversers::AStar => "A*",
            GraphTraversers::SimpleBreadth => "Simple Breadth First Search",
        }
    }

    /// The algorithms offered for selection, in menu order.
    pub fn values() -> (all: [GraphTraversers; 4])
        ensures
            all@ == seq![
                GraphTraversers::DepthFirst,
                GraphTraversers::BreadthFirst,
                GraphTraversers::Dijkstras,
                GraphTraversers::AStar,
            ],
    {
        let all = [
            GraphTraversers::DepthFirst,
            GraphTraversers::BreadthFirst,
            GraphTraversers::Dijkstras,
            GraphTraversers::AStar,
        ];
        assert(all@ =~= seq![
            GraphTraversers::DepthFirst,
            GraphTraversers::BreadthFirst,
            GraphTraversers::Dijkstras,
            GraphTraversers::AStar,
        ]);
        all
    }
}

/// The state of one run: where it started, where it wants to go, the
/// frontier of `(priority, node)` entries and the positions of the nodes
/// it has finalized.
pub struct TraversalData {
    pub end_node: NodeIndex,
    pub start_node: NodeIndex,
    pub to_traverse: Vec<(u64, NodeIndex)>,
    pub visited: HashSet<usize>,
}

/// A run as contracts see it.
pub struct TraversalView {
    pub end_node: NodeIndex,
    pub start_node: NodeIndex,
    pub to_traverse: Seq<(u64, NodeIndex)>,
    pub visited: Set<usize>,
}

impl View for TraversalData {
    type V = TraversalView;

    open spec fn view(&self) -> TraversalView {
        TraversalView {
            end_node: self.end_node,
            start_node: self.start_node,
            to_traverse: self.to_traverse@,
            visited: self.visited@,
        }
    }
}

impl TraversalView {
    /// A run that has not taken a step: the start waits alone, with
    /// priority zero.
    pub open spec fn fresh(start_node: NodeIndex, end_node: NodeIndex) -> TraversalView {
        TraversalView {
            end_node,
            start_node,
            to_traverse: seq![(0u64, start_node)],
            visited: Set::empty(),
        }
    }

    /// Every frontier entry names a node of `g`.
    pub open spec fn fits(self, g: GraphView) -> bool {
        forall|j: int| 0 <= j < self.to_traverse.len() ==> g.has((#[trigger] self.to_traverse[j]).1)
    }

    /// The run can take a step on `g`.
    pub open spec fn ready(self, g: GraphView) -> bool {
        &&& g.wf()
        &&& self.fits(g)
        &&& self.to_traverse.len() > 0
    }

    /// The node that the next step takes off the frontier.
    pub open spec fn head(self) -> NodeIndex {
        self.to_traverse[0].1
    }

    /// The run with the head of its frontier taken off.
    pub open spec fn popped(self) -> TraversalView {
        TraversalView { to_traverse: self.to_traverse.drop_first(), ..self }
    }

    /// The display state of `idx` once a step has finalized it.
    pub open spec fn arrival(self, idx: NodeIndex, starts: bool) -> NodeState {
        if idx == self.end_node {
            NodeState::End
        } else if starts && idx == self.start_node {
            NodeState::Start
        } else {
            NodeState::Visited
        }
    }
}

/// What one step leaves behind: the graph, the run, and whether the run is
/// over.
pub struct Outcome {
    pub graph: GraphView,
    pub run: TraversalView,
    pub done: bool,
}

/// The nodes of `near` that a step newly discovers, in order: those not
/// visited, not waiting in the frontier and not discovered earlier in the
/// same list.
pub open spec fn discover(
    near: Seq<NodeIndex>,
    visited: Set<usize>,
    waiting: Seq<(u64, NodeIndex)>,
) -> Seq<NodeIndex>
    decreases near.len(),
{
    if near.len() == 0 {
        Seq::empty()
    } else {
        let found = discover(near.drop_last(), visited, waiting);
        let v = near.last();
        if visited.contains(v.0) || queued(waiting, v) || found.contains(v) {
            found
        } else {
            found.push(v)
        }
    }
}

/// What a search without priorities does with `idx` once it is off the
/// frontier. The node is finalized. If it is the goal the run is over.
/// Otherwise the nodes discovered among `near` take `idx` as
/// predecessor, with one more hop than `idx`, and join the frontier: at
/// the back, or at the front when `stack` is set.
pub open spec fn plain_expand(
    g: GraphView,
    t: TraversalView,
    idx: NodeIndex,
    near: Seq<NodeIndex>,
    starts: bool,
    stack: bool,
) -> Outcome {
    let rest = t.to_traverse;
    let visited = t.visited.insert(idx.0);
    let marked = g.mark(idx, t.arrival(idx, starts));
    if idx == t.end_node {
        Outcome { graph: marked, run: TraversalView { visited, ..t }, done: true }
    } else {
        let found = discover(near, visited, rest);
        let len = g.node(idx).path_or_zero().saturating_add(1);
        let entries = found.map_values(plain_entry());
        let queue = if stack {
            entries + rest
        } else {
            rest + entries
        };
        Outcome {
            graph: marked.label_found(found, idx, len),
            run: TraversalView { to_traverse: queue, visited, ..t },
            done: queue.len() == 0,
        }
    }
}

/// A step of a search without priorities: the head of the frontier is
/// taken off and expanded.
pub open spec fn plain_step(
    g: GraphView,
    t: TraversalView,
    near: Seq<NodeIndex>,
    starts: bool,
    stack: bool,
) -> Outcome {
    plain_expand(g, t.popped(), t.head(), near, starts, stack)
}

/// One step of breadth-first search.
pub open spec fn breadth_first(g: GraphView, t: TraversalView) -> Outcome {
    plain_step(g, t, g.neighbors(t.head()), true, false)
}

/// One step of depth-first search.
pub open spec fn depth_first(g: GraphView, t: TraversalView) -> Outcome {
    plain_step(g, t, g.neighbors(t.head()), true, true)
}

/// One step of the breadth-first search that ignores the direction of
/// edges and shows the start like any other finalized node.
pub open spec fn simple_breadth_first(g: GraphView, t: TraversalView) -> Outcome {
    plain_step(g, t, g.connections(t.head()), false, false)
}

/// The edges of `from`, relaxed one after another: each edge whose far
/// end is not visited offers that node a path of `base` plus the weight
/// of the edge.
pub open spec fn relax_edges(
    g: GraphView,
    visited: Set<usize>,
    from: NodeIndex,
    base: u64,
    edges: Seq<Edge>,
) -> GraphView
    decreases edges.len(),
{
    if edges.len() == 0 {
        g
    } else {
        let before = relax_edges(g, visited, from, base, edges.drop_last());
        let e = edges.last();
        let v = e.other_end(from);
        if visited.contains(v.0) {
            before
        } else {
            before.relax(v, from, base.saturating_add(e.weight()))
        }
    }
}

/// The Euclidean distance between the positions of two nodes, rounded
/// down to whole units.
pub open spec fn detour(g: GraphView, from: NodeIndex, to: NodeIndex) -> u64 {
    euclid(g.node(from).pos, g.node(to).pos) as u64
}

/// The priority of the entry that an edge `e` of the expanded node `from`
/// gives rise to. Dijkstra's search adds the weight of the edge to the
/// priority with which `from` left the frontier. The heuristic search
/// takes the path length that the edge offers, which is the path length
/// of `from` plus the weight of the edge, and adds the distance between
/// `from` and the far end of the edge.
pub open spec fn entry_priority(
    g: GraphView,
    from: NodeIndex,
    popped: u64,
    e: Edge,
    heuristic: bool,
) -> u64 {
    if heuristic {
        g.node(from).path_or_zero().saturating_add(e.weight()).saturating_add(
            detour(g, from, e.other_end(from)),
        )
    } else {
        popped.saturating_add(e.weight())
    }
}

/// The frontier entries that the edges of `from` give rise to, in edge
/// order: one for each edge whose far end is not visited.
pub open spec fn edge_entries(
    g: GraphView,
    visited: Set<usize>,
    from: NodeIndex,
    priority: u64,
    edges: Seq<Edge>,
    heuristic: bool,
) -> Seq<(u64, NodeIndex)>
    decreases edges.len(),
{
    if edges.len() == 0 {
        Seq::empty()
    } else {
        let before = edge_entries(g, visited, from, priority, edges.drop_last(), heuristic);
        let e = edges.last();
        let v = e.other_end(from);
        if visited.contains(v.0) {
            before
        } else {
            before.push((entry_priority(g, from, priority, e, heuristic), v))
        }
    }
}

/// A step of a search by priority leads from `g` and `t` to `out`. The
/// head of the frontier is taken off. If its node is visited already
/// nothing else happens. Otherwise the node is finalized; if it is the
/// goal the run is over; else its edges are relaxed, their entries join
/// the frontier, and the frontier is put in ascending order of priority.
/// The order among entries of equal priority is left open.
pub open spec fn priority_step(g: GraphView, t: TraversalView, heuristic: bool, out: Outcome) -> bool {
    let priority = t.to_traverse[0].0;
    let idx = t.head();
    let rest = t.popped();
    if t.visited.contains(idx.0) {
        out == (Outcome { graph: g, run: rest, done: rest.to_traverse.len() == 0 })
    } else {
        let visited = t.visited.insert(idx.0);
        let marked = g.mark(idx, t.arrival(idx, true));
        if idx == t.end_node {
            out == (Outcome { graph: marked, run: TraversalView { visited, ..rest }, done: true })
        } else {
            let edges = g.node(idx).edges;
            let pushed = rest.to_traverse + edge_entries(g, visited, idx, priority, edges, heuristic);
            &&& out.graph == relax_edges(marked, visited, idx, g.node(idx).path_or_zero(), edges)
            &&& out.run.start_node == t.start_node
            &&& out.run.end_node == t.end_node
            &&& out.run.visited == visited
            &&& ascending(out.run.to_traverse)
            &&& out.run.to_traverse.to_multiset() == pushed.to_multiset()
            &&& out.done == (out.run.to_traverse.len() == 0)
        }
    }
}

/// Once a step has taken the head off the frontier of a run that was
/// ready for it, what is left is the frontier of the popped run, the head
/// and all that still waits are nodes of the graph, and so are the nodes
/// next to the head.
pub proof fn lemma_popped(g: GraphView, t: TraversalView, rest: Seq<(u64, NodeIndex)>)
    requires
        t.ready(g),
        rest == t.to_traverse.remove(0),
    ensures
        rest == t.popped().to_traverse,
        g.has(t.head()),
        t.popped().fits(g),
        forall|j: int| 0 <= j < rest.len() ==> g.has((#[trigger] rest[j]).1),
        forall|k: int|
            0 <= k < g.neighbors(t.head()).len() ==> g.has(#[trigger] g.neighbors(t.head())[k]),
        forall|k: int|
            0 <= k < g.connections(t.head()).len() ==> g.has(#[trigger] g.connections(t.head())[k]),
{
    assert(rest =~= t.to_traverse.drop_first());
    assert(g.has(t.to_traverse[0].1));
    g.lemma_neighbors_within(t.head());
    assert forall|j: int| 0 <= j < rest.len() implies g.has((#[trigger] rest[j]).1) by {
        assert(rest[j] == t.to_traverse[j + 1]);
    }
}

/// One step of the algorithm `alg` leads from `g` and `t` to `out`.
pub open spec fn step_of(alg: GraphTraversers, g: GraphView, t: TraversalView, out: Outcome) -> bool {
    match alg {
        GraphTraversers::DepthFirst => out == depth_first(g, t),
        GraphTraversers::BreadthFirst => out == breadth_first(g, t),
        GraphTraversers::Dijkstras => priority_step(g, t, false, out),
        GraphTraversers::AStar => priority_step(g, t, true, out),
        GraphTraversers::SimpleBreadth => out == simple_breadth_first(g, t),
    }
}

impl TraversalData {
    pub fn new(start_node: NodeIndex, end_node: NodeIndex) -> (t: TraversalData)
        ensures
            t@ == TraversalView::fresh(start_node, end_node),
    {
        let mut to_traverse: Vec<(u64, NodeIndex)> = Vec::new();
        to_traverse.push((0, start_node));
        assert(to_traverse@ =~= seq![(0u64, start_node)]);
        TraversalData { end_node, start_node, to_traverse, visited: HashSet::new() }
    }

    /// Finalizes `idx`: records it as visited and marks it on the graph.
    /// Returns its path length, with zero for a node without one, unless
    /// it is the goal.
    fn finalize(&mut self, graph: &mut Graph, idx: NodeIndex, starts: bool) -> (base: Option<u64>)
        requires
            old(graph)@.wf(),
            old(graph)@.has(idx),
        ensures
            final(self)@ == (TraversalView {
                visited: old(self)@.visited.insert(idx.0),
                ..old(self)@
            }),
            final(graph)@ == old(graph)@.mark(idx, old(self)@.arrival(idx, starts)),
            final(graph)@.wf(),
            base == if idx == old(self)@.end_node {
                None
            } else {
                Some(old(graph)@.node(idx).path_or_zero())
            },
    {
        proof {
            old(graph)@.lemma_mark_wf(idx, old(self)@.arrival(idx, starts));
        }
        self.visited.insert(idx.index());
        let node = graph.get_node_mut(idx);
        if starts && idx == self.start_node {
            node.start();
        } else {
            node.visit();
        }
        let path_len = node.get_curr_path();
        if idx == self.end_node {
            node.end();
            return None;
        }
        match path_len {
            Some(l) => Some(l),
            None => Some(0),
        }
    }

    /// Looks at each node of `near` in turn and labels the newly
    /// discovered ones on the graph.
    fn discover_neighbors(
        &self,
        graph: &mut Graph,
        near: &Vec<NodeIndex>,
        from: NodeIndex,
        len: u64,
    ) -> (found: Vec<NodeIndex>)
        requires
            old(graph)@.wf(),
            old(graph)@.has(from),
            forall|k: int| 0 <= k < near@.len() ==> old(graph)@.has(#[trigger] near@[k]),
        ensures
            found@ == discover(near@, self@.visited, self@.to_traverse),
            final(graph)@ == old(graph)@.label_found(found@, from, len),
            final(graph)@.wf(),
            forall|k: int| 0 <= k < found@.len() ==> old(graph)@.has(#[trigger] found@[k]),
    {
        let ghost g0 = graph@;
        let mut found: Vec<NodeIndex> = Vec::new();
        let mut i: usize = 0;
        proof {
            assert(g0.label_found(found@, from, len).nodes =~= g0.nodes);
            assert(near@.take(0) =~= Seq::empty());
        }
        while i < near.len()
            invariant
                i <= near.len(),
                g0.wf(),
                g0.has(from),
                forall|k: int| 0 <= k < near@.len() ==> g0.has(#[trigger] near@[k]),
                found@ == discover(near@.take(i as int), self@.visited, self@.to_traverse),
                graph@ == g0.label_found(found@, from, len),
                forall|k: int| 0 <= k < found@.len() ==> g0.has(#[trigger] found@[k]),
            decreases near.len() - i,
        {
            let v = near[i];
            proof {
                assert(near@.take(i + 1).drop_last() == near@.take(i as int));
                assert(g0.has(near@[i as int]));
            }
            if !self.visited.contains(&v.0) && !is_queued(&self.to_traverse, v) && !contains_index(
                &found,
                v,
            ) {
                let ghost before = found@;
                let node = graph.get_node_mut(v);
                node.view();
                node.set_last_node(from, len);
                found.push(v);
                proof {
                    let want = g0.label_found(found@, from, len);
                    assert forall|k: int| 0 <= k < want.nodes.len() implies graph@.nodes[k]
                        == want.nodes[k] by {
                        lemma_push_contains(before, v, NodeIndex(k as usize));
                    }
                    assert(graph@.nodes =~= want.nodes);
                }
            }
            i += 1;
        }
        proof {
            assert(near@.take(i as int) == near@);
            g0.lemma_label_found_wf(found@, from, len);
        }
        found
    }

    /// The shared body of the searches without priorities.
    fn plain_advance(
        &mut self,
        graph: &mut Graph,
        idx: NodeIndex,
        near: &Vec<NodeIndex>,
        starts: bool,
        stack: bool,
    ) -> (done: bool)
        requires
            old(graph)@.wf(),
            old(graph)@.has(idx),
            forall|j: int|
                0 <= j < old(self)@.to_traverse.len() ==> old(graph)@.has(
                    (#[trigger] old(self)@.to_traverse[j]).1,
                ),
            forall|k: int| 0 <= k < near@.len() ==> old(graph)@.has(#[trigger] near@[k]),
        ensures
            (Outcome { graph: final(graph)@, run: final(self)@, done }) == plain_expand(
                old(graph)@,
                old(self)@,
                idx,
                near@,
                starts,
                stack,
            ),
            final(graph)@.wf(),
            final(graph)@.len() == old(graph)@.len(),
            final(self)@.fits(final(graph)@),
    {
        let ghost rest = self.to_traverse@;
        let base = self.finalize(graph, idx, starts);
        let ghost visited = self.visited@;
        match base {
            None => true,
            Some(path_len) => {
                let ghost marked = graph@;
                let len = path_len.saturating_add(1);
                let found = self.discover_neighbors(graph, near, idx, len);
                let ghost entries = found@.map_values(plain_entry());
                if stack {
                    let mut queue: Vec<(u64, NodeIndex)> = Vec::new();
                    let mut j: usize = 0;
                    while j < found.len()
                        invariant
                            j <= found.len(),
                            queue@ == found@.take(j as int).map_values(plain_entry()),
                        decreases found.len() - j,
                    {
                        queue.push((0, found[j]));
                        proof {
                            assert(found@.take(j + 1).map_values(plain_entry()) =~= found@.take(
                                j as int,
                            ).map_values(plain_entry()).push((0u64, found@[j as int])));
                        }
                        j += 1;
                    }
                    assert(found@.take(j as int) == found@);
                    let mut k: usize = 0;
                    while k < self.to_traverse.len()
                        invariant
                            k <= self.to_traverse.len(),
                            self.to_traverse@ == rest,
                            queue@ == entries + rest.take(k as int),
                        decreases self.to_traverse.len() - k,
                    {
                        queue.push(self.to_traverse[k]);
                        proof {
                            assert(entries + rest.take(k + 1) =~= (entries + rest.take(
                                k as int,
                            )).push(rest[k as int]));
                        }
                        k += 1;
                    }
                    assert(rest.take(k as int) == rest);
                    self.to_traverse = queue;
                } else {
                    let mut j: usize = 0;
                    while j < found.len()
                        invariant
                            j <= found.len(),
                            self.to_traverse@ == rest + found@.take(j as int).map_values(
                                plain_entry(),
                            ),
                            self.visited@ == visited,
                            self.start_node == old(self).start_node,
                            self.end_node == old(self).end_node,
                        decreases found.len() - j,
                    {
                        self.to_traverse.push((0, found[j]));
                        proof {
                            assert(rest + found@.take(j + 1).map_values(plain_entry()) =~= (rest
                                + found@.take(j as int).map_values(plain_entry())).push(
                                (0u64, found@[j as int]),
                            ));
                        }
                        j += 1;
                    }
                    assert(found@.take(j as int) == found@);
                }
                proof {
                    let queue = self.to_traverse@;
                    assert forall|j: int| 0 <= j < queue.len() implies graph@.has(
                        (#[trigger] queue[j]).1,
                    ) by {
                        if stack {
                            if j < entries.len() {
                                assert(queue[j].1 == found@[j]);
                            } else {
                                assert(queue[j] == rest[j - entries.len()]);
                            }
                        } else {
                            if j < rest.len() {
                                assert(queue[j] == rest[j]);
                            } else {
                                assert(queue[j].1 == found@[j - rest.len()]);
                            }
                        }
                    }
                }
                self.to_traverse.is_empty()
            },
        }
    }

    /// Advances a breadth-first search by one node.
    pub fn breadth_first_step(&mut self, graph: &mut Graph) -> (done: bool)
        requires
            old(self)@.ready(old(graph)@),
        ensures
            (Outcome { graph: final(graph)@, run: final(self)@, done }) == breadth_first(
                old(graph)@,
                old(self)@,
            ),
            final(graph)@.wf(),
            final(graph)@.len() == old(graph)@.len(),
            final(self)@.fits(final(graph)@),
    {
        let (priority, idx) = self.to_traverse.remove(0);
        proof {
            lemma_popped(old(graph)@, old(self)@, self.to_traverse@);
        }
        let near = graph.get_node(idx).get_neighbors();
        self.plain_advance(graph, idx, &near, true, false)
    }

    /// Advances a depth-first search by one node.
    pub fn depth_first_step(&mut self, graph: &mut Graph) -> (done: bool)
        requires
            old(self)@.ready(old(graph)@),
        ensures
            (Outcome { graph: final(graph)@, run: final(self)@, done }) == depth_first(
                old(graph)@,
                old(self)@,
            ),
            final(graph)@.wf(),
            final(graph)@.len() == old(graph)@.len(),
            final(self)@.fits(final(graph)@),
    {
        let (priority, idx) = self.to_traverse.remove(0);
        proof {
            lemma_popped(old(graph)@, old(self)@, self.to_traverse@);
        }
        let near = graph.get_node(idx).get_neighbors();
        self.plain_advance(graph, idx, &near, true, true)
    }

    /// Advances by one node the breadth-first search that treats the
    /// graph as undirected. It serves to test whether a directed graph is
    /// connected.
    fn simple_breadth(&mut self, graph: &mut Graph) -> (done: bool)
        requires
            old(self)@.ready(old(graph)@),
        ensures
            (Outcome { graph: final(graph)@, run: final(self)@, done }) == simple_breadth_first(
                old(graph)@,
                old(self)@,
            ),
            final(graph)@.wf(),
            final(graph)@.len() == old(graph)@.len(),
            final(self)@.fits(final(graph)@),
    {
        let (priority, idx) = self.to_traverse.remove(0);
        proof {
            lemma_popped(old(graph)@, old(self)@, self.to_traverse@);
        }
        let near = graph.get_connections(idx);
        self.plain_advance(graph, idx, &near, false, false)
    }

    /// The shared body of the searches by priority.
    fn priority_advance(&mut self, graph: &mut Graph, heuristic: bool) -> (done: bool)
        requires
            old(self)@.ready(old(graph)@),
        ensures
            priority_step(
                old(graph)@,
                old(self)@,
                heuristic,
                (Outcome { graph: final(graph)@, run: final(self)@, done }),
            ),
            final(graph)@.wf(),
            final(graph)@.len() == old(graph)@.len(),
            final(self)@.fits(final(graph)@),
    {
        let ghost g = graph@;
        let (priority, idx) = self.to_traverse.remove(0);
        let ghost rest = self.to_traverse@;
        proof {
            lemma_popped(g, old(self)@, rest);
        }
        if self.visited.contains(&idx.0) {
            return self.to_traverse.is_empty();
        }
        let base = self.finalize(graph, idx, true);
        match base {
            None => true,
            Some(path_len) => {
                let ghost marked = graph@;
                let ghost visited = self.visited@;
                let edges = graph.get_node(idx).get_edges();
                let from_pos = graph.get_node(idx).get_pos();
                proof {
                    assert(g.nodes[idx.0 as int].wf_at(idx.0 as int, g.nodes.len()));
                }
                let mut i: usize = 0;
                while i < edges.len()
                    invariant
                        i <= edges.len(),
                        g.wf(),
                        g.has(idx),
                        edges@ == g.node(idx).edges,
                        from_pos == g.node(idx).pos,
                        path_len == g.node(idx).path_or_zero(),
                        forall|k: int| 0 <= k < edges@.len() ==> (#[trigger] edges@[k]).within(g.len()),
                        graph@.wf(),
                        graph@.len() == g.len(),
                        forall|k: int|
                            0 <= k < g.len() ==> (#[trigger] graph@.nodes[k]).pos == g.nodes[k].pos,
                        graph@ == relax_edges(marked, visited, idx, path_len, edges@.take(i as int)),
                        self.to_traverse@ == rest + edge_entries(
                            g,
                            visited,
                            idx,
                            priority,
                            edges@.take(i as int),
                            heuristic,
                        ),
                        self.visited@ == visited,
                        self.start_node == old(self).start_node,
                        self.end_node == old(self).end_node,
                        forall|j: int|
                            0 <= j < self.to_traverse@.len() ==> g.has(
                                (#[trigger] self.to_traverse@[j]).1,
                            ),
                    decreases edges.len() - i,
                {
                    let (weight, a, b) = edges[i].get_weighted_nodes();
                    let v = if a != idx {
                        a
                    } else {
                        b
                    };
                    proof {
                        assert(edges@.take(i + 1).drop_last() == edges@.take(i as int));
                        assert(edges@[i as int].within(g.len()));
                        assert(v == edges@[i as int].other_end(idx));
                    }
                    if !self.visited.contains(&v.0) {
                        let ghost before = graph@;
                        let candidate = path_len.saturating_add(weight);
                        proof {
                            before.lemma_relax_wf(v, idx, candidate);
                        }
                        let node = graph.get_node_mut(v);
                        let entry = if heuristic {
                            candidate.saturating_add(distance(from_pos, node.get_pos()))
                        } else {
                            priority.saturating_add(weight)
                        };
                        node.view();
                        let longer = match node.get_curr_path() {
                            Some(l) => l > candidate,
                            None => false,
                        };
                        if longer || node.get_last_node().is_none() {
                            node.set_last_node(idx, candidate);
                        }
                        assert(graph@ == before.relax(v, idx, candidate));
                        let ghost queue = self.to_traverse@;
                        self.to_traverse.push((entry, v));
                        proof {
                            assert(entry == entry_priority(
                                g,
                                idx,
                                priority,
                                edges@[i as int],
                                heuristic,
                            ));
                            assert forall|j: int| 0 <= j < self.to_traverse@.len() implies g.has(
                                (#[trigger] self.to_traverse@[j]).1,
                            ) by {
                                if j < queue.len() {
                                    assert(self.to_traverse@[j] == queue[j]);
                                }
                            }
                            assert(self.to_traverse@ =~= rest + edge_entries(
                                g,
                                visited,
                                idx,
                                priority,
                                edges@.take(i + 1),
                                heuristic,
                            ));
                        }
                    }
                    i += 1;
                }
                assert(edges@.take(i as int) == edges@);
                let ghost pushed = self.to_traverse@;
                sort_by_priority(&mut self.to_traverse);
                proof {
                    lemma_same_entries(self.to_traverse@, pushed);
                    assert forall|j: int| 0 <= j < self.to_traverse@.len() implies graph@.has(
                        (#[trigger] self.to_traverse@[j]).1,
                    ) by {
                        assert(self.to_traverse@.contains(self.to_traverse@[j]));
                        assert(pushed.contains(self.to_traverse@[j]));
                    }
                }
                self.to_traverse.is_empty()
            },
        }
    }

    /// Advances Dijkstra's search by one frontier entry.
    pub fn dijkstras_step(&mut self, graph: &mut Graph) -> (done: bool)
        requires
            old(self)@.ready(old(graph)@),
        ensures
            priority_step(
                old(graph)@,
                old(self)@,
                false,
                (Outcome { graph: final(graph)@, run: final(self)@, done }),
            ),
            final(graph)@.wf(),
            final(graph)@.len() == old(graph)@.len(),
            final(self)@.fits(final(graph)@),
    {
        self.priority_advance(graph, false)
    }

    /// Advances the A* search by one frontier entry. The priority of a
    /// new entry is the path length that the edge offers to the neighbor,
    /// plus the distance between the expanded node and the neighbor. That
    /// distance is not the distance to the goal.
    pub fn astar_step(&mut self, graph: &mut Graph) -> (done: bool)
        requires
            old(self)@.ready(old(graph)@),
        ensures
            priority_step(
                old(graph)@,
                old(self)@,
                true,
                (Outcome { graph: final(graph)@, run: final(self)@, done }),
            ),
            final(graph)@.wf(),
            final(graph)@.len() == old(graph)@.len(),
            final(self)@.fits(final(graph)@),
    {
        self.priority_advance(graph, true)
    }

    /// Advances the run by one step of `alg`.
    pub fn step(&mut self, graph: &mut Graph, alg: GraphTraversers) -> (done: bool)
        requires
            old(self)@.ready(old(graph)@),
        ensures
            step_of(
                alg,
                old(graph)@,
                old(self)@,
                (Outcome { graph: final(graph)@, run: final(self)@, done }),
            ),
            final(graph)@.wf(),
            final(graph)@.len() == old(graph)@.len(),
            final(self)@.fits(final(graph)@),
    {
        match alg {
            GraphTraversers::BreadthFirst => self.breadth_first_step(graph),
            GraphTraversers::DepthFirst => self.depth_first_step(graph),
            GraphTraversers::Dijkstras => self.dijkstras_step(graph),
            GraphTraversers::AStar => self.astar_step(graph),
            GraphTraversers::SimpleBreadth => self.simple_breadth(graph),
        }
    }
}

/// Drives a run: holds the chosen algorithm and the run in progress, and
/// decides on each tick whether the run takes a step.
pub struct TraversalManager {
    pub last_traversal: Instant,
    pub speed: u32,
    pub auto: bool,
    pub currently_traversing: bool,
    pub alg: GraphTraversers,
    pub traversal: Option<TraversalData>,
}

impl TraversalManager {
    /// The run in progress, if there is one, as contracts see it.
    pub open spec fn run(&self) -> Option<TraversalView> {
        match self.traversal {
            Some(t) => Some(t@),
            None => None,
        }
    }

    /// The run in progress, if there is one, can take a step on `g`.
    pub open spec fn can_step(&self, g: GraphView) -> bool {
        self.traversal matches Some(t) ==> t@.ready(g)
    }

    /// The settings that a tick leaves alone.
    pub open spec fn same_settings(&self, other: &Self) -> bool {
        &&& self.speed == other.speed
        &&& self.auto == other.auto
        &&& self.alg == other.alg
    }

    /// A tick that comes `waited` milliseconds after the last step takes a
    /// step: the driver is running, and it either steps on request or has
    /// waited for at least its delay.
    pub open spec fn steps_after(&self, waited: Option<u128>) -> bool {
        self.currently_traversing && (!self.auto || (waited matches Some(ms) && ms >= self.speed))
    }

    /// The driver `self` on the graph `g` took one step and became `next`
    /// on `h`. Without a run the step only ends the running; with one, the
    /// run advances by a step of the chosen algorithm, and the driver
    /// keeps running unless that step ended the run.
    pub open spec fn stepped(&self, g: GraphView, next: &Self, h: GraphView) -> bool {
        &&& self.same_settings(next)
        &&& match self.traversal {
            Some(t) => next.traversal matches Some(u) && step_of(
                self.alg,
                g,
                t@,
                (Outcome { graph: h, run: u@, done: !next.currently_traversing }),
            ),
            None => next.traversal is None && h == g && !next.currently_traversing,
        }
    }

    pub fn new(alg: GraphTraversers) -> (m: Self)
        ensures
            m.alg == alg,
            m.speed == 30,
            m.auto,
            !m.currently_traversing,
            m.traversal is None,
    {
        TraversalManager {
            last_traversal: now(),
            speed: 30,
            auto: true,
            currently_traversing: false,
            alg,
            traversal: None,
        }
    }

    /// Begins a run from `start_node` to `end_node`.
    pub fn new_traversal(&mut self, start_node: NodeIndex, end_node: NodeIndex)
        ensures
            final(self).currently_traversing,
            final(self).run() == Some(TraversalView::fresh(start_node, end_node)),
            final(self).same_settings(old(self)),
            final(self).last_traversal == old(self).last_traversal,
    {
        self.currently_traversing = true;
        self.traversal = Some(TraversalData::new(start_node, end_node));
    }

    /// Begins a run when both ends are chosen, and does nothing when one
    /// of them is not.
    pub fn start(&mut self, start_node: Option<NodeIndex>, end_node: Option<NodeIndex>) -> (started: bool)
        ensures
            started == (start_node is Some && end_node is Some),
            started ==> final(self).currently_traversing && final(self).run() == Some(
                TraversalView::fresh(start_node->0, end_node->0),
            ) && final(self).same_settings(old(self)) && final(self).last_traversal == old(
                self,
            ).last_traversal,
            !started ==> *final(self) == *old(self),
    {
        match (start_node, end_node) {
            (Some(s), Some(e)) => {
                self.new_traversal(s, e);
                true
            },
            _ => false,
        }
    }

    /// Discards the run in progress.
    pub fn stop_traversal(&mut self)
        ensures
            final(self).traversal is None,
            final(self).same_settings(old(self)),
            final(self).currently_traversing == old(self).currently_traversing,
            final(self).last_traversal == old(self).last_traversal,
    {
        self.traversal = None;
    }

    /// Cancels the run in progress: discards it and clears its marks from
    /// the graph.
    pub fn stop(&mut self, graph: &mut Graph)
        ensures
            final(self).traversal is None,
            final(self).same_settings(old(self)),
            final(self).currently_traversing == old(self).currently_traversing,
            final(self).last_traversal == old(self).last_traversal,
            final(graph)@ == old(graph)@.reset(),
            final(graph)@.is_reset(),
            old(graph)@.wf() ==> final(graph)@.wf(),
    {
        self.stop_traversal();
        graph.reset();
    }

    /// Advances the run in progress by one step of the chosen algorithm.
    /// Without a run there is nothing to do, which counts as done.
    fn step(&mut self, graph: &mut Graph) -> (done: bool)
        requires
            old(self).can_step(old(graph)@),
        ensures
            match old(self).traversal {
                Some(t) => final(self).traversal matches Some(u) && step_of(
                    old(self).alg,
                    old(graph)@,
                    t@,
                    (Outcome { graph: final(graph)@, run: u@, done }),
                ) && final(graph)@.wf() && u@.fits(final(graph)@),
                None => final(self).traversal is None && final(graph)@ == old(graph)@ && done,
            },
            final(self).same_settings(old(self)),
            final(self).currently_traversing == old(self).currently_traversing,
            final(self).last_traversal == old(self).last_traversal,
    {
        let alg = self.alg;
        match &mut self.traversal {
            Some(traversal) => traversal.step(graph, alg),
            None => true,
        }
    }

    /// A tick for which the clock has been read already: `now` is the
    /// reading, `waited` the milliseconds since the last step, if the
    /// clock has not gone back. Takes a step if one is due.
    pub fn update_at(&mut self, graph: &mut Graph, now: Instant, waited: Option<u128>) -> (stepped: bool)
        requires
            old(self).currently_traversing ==> old(self).can_step(old(graph)@),
        ensures
            stepped == old(self).steps_after(waited),
            stepped ==> old(self).stepped(old(graph)@, final(self), final(graph)@),
            stepped ==> final(self).last_traversal == if old(self).auto {
                now
            } else {
                old(self).last_traversal
            },
            !stepped ==> *final(self) == *old(self) && final(graph)@ == old(graph)@,
            final(self).currently_traversing ==> final(self).can_step(final(graph)@),
            old(graph)@.wf() ==> final(graph)@.wf(),
    {
        if self.currently_traversing {
            if self.auto {
                let due = match waited {
                    Some(ms) => ms >= self.speed as u128,
                    None => false,
                };
                if due {
                    if self.step(graph) {
                        self.currently_traversing = false;
                    }
                    self.last_traversal = now;
                    return true;
                }
                false
            } else {
                if self.step(graph) {
                    self.currently_traversing = false;
                }
                true
            }
        } else {
            false
        }
    }

    /// A tick. While running on request it takes one step. While running
    /// automatically it reads the clock and takes a step if the delay has
    /// passed since the last one. Otherwise it does nothing.
    pub fn update(&mut self, graph: &mut Graph)
        requires
            old(self).currently_traversing ==> old(self).can_step(old(graph)@),
        ensures
            !old(self).currently_traversing ==> *final(self) == *old(self) && final(graph)@ == old(
                graph,
            )@,
            old(self).currently_traversing && !old(self).auto ==> old(self).stepped(
                old(graph)@,
                final(self),
                final(graph)@,
            ) && final(self).last_traversal == old(self).last_traversal,
            old(self).currently_traversing && old(self).auto ==> (*final(self) == *old(self)
                && final(graph)@ == old(graph)@) || old(self).stepped(
                old(graph)@,
                final(self),
                final(graph)@,
            ),
            final(self).currently_traversing ==> final(self).can_step(final(graph)@),
            old(graph)@.wf() ==> final(graph)@.wf(),
    {
        if self.currently_traversing && self.auto {
            let reading = now();
            let waited = match span(&reading, &self.last_traversal) {
                Some(between) => Some(millis(&between)),
                None => None,
            };
            self.update_at(graph, reading, waited);
        } else if self.currently_traversing {
            self.update_at(graph, self.last_traversal, None);
        }
    }
}

impl Default for TraversalManager {
    fn default() -> (m: Self)
        ensures
            m.alg == GraphTraversers::DepthFirst,
            m.speed == 30,
            m.auto,
            !m.currently_traversing,
            m.traversal is None,
    {
        TraversalManager::new(GraphTraversers::DepthFirst)
    }
}

} // verus!
