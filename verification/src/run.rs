use crate::fewest_hops::bfs_inv;
use crate::fewest_hops::lemma_bfs_step;
use crate::fewest_hops::lemma_fresh_bfs;
use crate::graph::Graph;
use crate::lightest_path::dijkstra_inv;
use crate::lightest_path::lemma_dijkstra_step;
use crate::lightest_path::lemma_fresh_dijkstra;
use crate::graph::GraphView;
use crate::graph::NodeIndex;
use crate::graph::NodeState;
use crate::frontier::lemma_same_entries;
use crate::priority_search::lemma_priority_facts;
use crate::search::core_inv;
use crate::search::distinct_unvisited;
use crate::search::lemma_bounded_set;
use crate::search::plain;
use crate::traversers::edge_entries;
use crate::traversers::TraversalManager;
use crate::graph::Edge;
use crate::search::finished;
use crate::search::lemma_fresh_core;
use crate::search::lemma_reachable_goal_is_found;
use crate::search::lemma_reachable_same;
use crate::search::lemma_same_topology_refl;
use crate::search::lemma_same_topology_sym;
use crate::search::lemma_same_topology_trans;
use crate::search::lemma_step_core;
use crate::search::lemma_unreachable_goal_is_never_marked;
use crate::search::reachable;
use crate::traversers::step_of;
use crate::traversers::GraphTraversers;
use crate::traversers::Outcome;
use crate::traversers::TraversalData;
use crate::traversers::TraversalView;
use vstd::prelude::*;

verus! {

broadcast use vstd::std_specs::hash::group_hash_axioms;

/// What holds of a run of `alg` that began on a graph without marks, from
/// its first step to its last.
pub open spec fn search_inv(alg: GraphTraversers, g: GraphView, t: TraversalView) -> bool {
    &&& core_inv(alg, g, t)
    &&& alg == GraphTraversers::BreadthFirst ==> bfs_inv(g, t)
    &&& alg == GraphTraversers::Dijkstras ==> dijkstra_inv(g, t)
}

/// The edge records in the lists of those of the first `k` nodes that are
/// not in `visited`.
pub open spec fn unexpanded(g: GraphView, visited: Set<usize>, k: nat) -> nat
    decreases k,
{
    if k == 0 {
        0
    } else {
        unexpanded(g, visited, (k - 1) as nat) + if visited.contains((k - 1) as usize) {
            0
        } else {
            g.nodes[k - 1].edges.len()
        }
    }
}

/// All the edge records of the graph.
pub open spec fn edge_records(g: GraphView) -> nat {
    unexpanded(g, Set::empty(), g.len())
}

/// The steps that a run of `alg` can take at most before it is over. A
/// search without priorities has one step for each node that it has not
/// finalized. A search by priority has one for each waiting entry and
/// one for each edge record of a node that it has not finalized.
pub open spec fn ticks_left(alg: GraphTraversers, g: GraphView, t: TraversalView) -> int {
    if plain(alg) {
        g.len() - t.visited.len()
    } else {
        (t.to_traverse.len() + unexpanded(g, t.visited, g.len())) as int
    }
}

/// To finalize one more node takes its edge records off the count.
pub proof fn lemma_unexpanded_insert(g: GraphView, visited: Set<usize>, u: usize, k: nat)
    requires
        !visited.contains(u),
        k <= g.len() <= usize::MAX,
    ensures
        unexpanded(g, visited.insert(u), k) + (if u < k {
            g.nodes[u as int].edges.len()
        } else {
            0
        }) == unexpanded(g, visited, k),
    decreases k,
{
    if k > 0 {
        lemma_unexpanded_insert(g, visited, u, (k - 1) as nat);
    }
}

/// Graphs of the same shape have the same edge records.
pub proof fn lemma_unexpanded_same(g: GraphView, h: GraphView, visited: Set<usize>, k: nat)
    requires
        g.same_topology(h),
        k <= g.len(),
    ensures
        unexpanded(g, visited, k) == unexpanded(h, visited, k),
    decreases k,
{
    if k > 0 {
        lemma_unexpanded_same(g, h, visited, (k - 1) as nat);
        assert(g.nodes[k - 1].cleared() == h.nodes[k - 1].cleared());
    }
}

/// The edges of a node give rise to one entry each at most.
pub proof fn lemma_entries_len(
    g: GraphView,
    visited: Set<usize>,
    u: NodeIndex,
    priority: u64,
    edges: Seq<Edge>,
    heuristic: bool,
)
    ensures
        edge_entries(g, visited, u, priority, edges, heuristic).len() <= edges.len(),
    decreases edges.len(),
{
    if edges.len() > 0 {
        lemma_entries_len(g, visited, u, priority, edges.drop_last(), heuristic);
    }
}

/// A run that has not taken a step has a step for each node, or, for a
/// search by priority, one step more than the graph has edge records.
pub proof fn lemma_fresh_ticks(
    alg: GraphTraversers,
    g: GraphView,
    start_node: NodeIndex,
    end_node: NodeIndex,
)
    ensures
        ticks_left(alg, g, TraversalView::fresh(start_node, end_node)) == if plain(alg) {
            g.len() as int
        } else {
            (1 + edge_records(g)) as int
        },
{
}

/// `n` steps of `alg` lead from `g` and `t` to `h` and `s`. Where `heed`
/// is set, none of them ends the run.
pub open spec fn steps_to(
    alg: GraphTraversers,
    g: GraphView,
    t: TraversalView,
    h: GraphView,
    s: TraversalView,
    n: nat,
    heed: bool,
) -> bool
    decreases n,
{
    if n == 0 {
        h == g && s == t
    } else {
        exists|mg: GraphView, mt: TraversalView, done: bool|
            steps_to(alg, g, t, mg, mt, (n - 1) as nat, heed) && mt.to_traverse.len() > 0
                && #[trigger] step_of(alg, mg, mt, (Outcome { graph: h, run: s, done })) && (heed
                ==> !done)
    }
}

/// The run that begins with `g` and `t` ends with `h` and `s`: steps that
/// do not end the run lead to a last one that does, and all of them
/// together are no more than the run had left.
pub open spec fn runs_to(
    alg: GraphTraversers,
    g: GraphView,
    t: TraversalView,
    h: GraphView,
    s: TraversalView,
) -> bool {
    exists|n: nat, mg: GraphView, mt: TraversalView| #[trigger]
        steps_to(alg, g, t, mg, mt, n, true) && mt.to_traverse.len() > 0 && step_of(
            alg,
            mg,
            mt,
            (Outcome { graph: h, run: s, done: true }),
        ) && n < ticks_left(alg, g, t)
}

/// Steps of `alg`, no more than the run had left, lead from `g` and `t`
/// to `h` and `s`, where nothing waits any more.
pub open spec fn drains_to(
    alg: GraphTraversers,
    g: GraphView,
    t: TraversalView,
    h: GraphView,
    s: TraversalView,
) -> bool {
    s.to_traverse.len() == 0 && exists|n: nat| #[trigger]
        steps_to(alg, g, t, h, s, n, false) && n <= ticks_left(alg, g, t)
}

/// A run that has not taken a step, on a well-formed graph without marks
/// and between two of its nodes, is where every run begins.
pub proof fn lemma_fresh_run(
    alg: GraphTraversers,
    g: GraphView,
    start_node: NodeIndex,
    end_node: NodeIndex,
)
    requires
        g.wf(),
        g.is_reset(),
        g.has(start_node),
        g.has(end_node),
    ensures
        search_inv(alg, g, TraversalView::fresh(start_node, end_node)),
        TraversalView::fresh(start_node, end_node).ready(g),
{
    lemma_fresh_core(alg, g, start_node, end_node);
    lemma_fresh_bfs(g, start_node, end_node);
    lemma_fresh_dijkstra(g, start_node, end_node);
}

/// A step uses up at least one of the steps that the run has left, and a
/// step that does not end the run leaves it one at least.
pub proof fn lemma_step_ticks(alg: GraphTraversers, g: GraphView, t: TraversalView, out: Outcome)
    requires
        core_inv(alg, g, t),
        t.to_traverse.len() > 0,
        step_of(alg, g, t, out),
    ensures
        0 <= ticks_left(alg, out.graph, out.run) < ticks_left(alg, g, t),
        !out.done ==> ticks_left(alg, out.graph, out.run) > 0,
{
    lemma_step_core(alg, g, t, out);
    let h = out.graph;
    let s = out.run;
    assert(h.nodes.len() == g.nodes.len());
    if plain(alg) {
        if !out.done {
            let x = s.to_traverse[0].1;
            assert(h.has(x));
            assert(distinct_unvisited(s));
            assert(!s.visited.contains(x.0));
            lemma_bounded_set(s.visited.insert(x.0), g.len());
        }
    } else {
        let heuristic = alg == GraphTraversers::AStar;
        let u = t.head();
        lemma_priority_facts(alg, g, t, heuristic, out);
        lemma_unexpanded_same(g, h, s.visited, g.len());
        if !t.visited.contains(u.0) {
            lemma_unexpanded_insert(g, t.visited, u.0, g.len());
            if u != t.end_node {
                let visited = t.visited.insert(u.0);
                let edges = g.node(u).edges;
                let entries = edge_entries(g, visited, u, t.to_traverse[0].0, edges, heuristic);
                lemma_entries_len(g, visited, u, t.to_traverse[0].0, edges, heuristic);
                lemma_same_entries(s.to_traverse, t.popped().to_traverse + entries);
            }
        }
    }
}

/// Each step that a driver takes uses up at least one of the steps that
/// its run has left, and a driver that goes on running has one left. So
/// a run is over, whether it finds the goal or not, within as many ticks
/// as it has steps at its start: one for each node for the searches
/// without priorities, and one more than there are edge records for the
/// searches by priority.
pub proof fn lemma_driver_tick(m: TraversalManager, g: GraphView, next: TraversalManager, h: GraphView)
    requires
        m.traversal matches Some(t) && search_inv(m.alg, g, t@) && t@.to_traverse.len() > 0,
        m.stepped(g, &next, h),
    ensures
        next.traversal matches Some(u) && search_inv(m.alg, h, u@) && 0 <= ticks_left(m.alg, h, u@)
            < ticks_left(m.alg, g, m.traversal->0@) && (next.currently_traversing ==> ticks_left(
            m.alg,
            h,
            u@,
        ) > 0 && u@.to_traverse.len() > 0),
{
    let t = m.traversal->0;
    let u = next.traversal->0;
    lemma_step(m.alg, g, t@, (Outcome { graph: h, run: u@, done: !next.currently_traversing }));
}

/// A step of `alg` leads from a run to a run, on a graph of the same
/// shape. It finalizes one more node or, failing that, shortens the
/// frontier, so that no run goes on for ever. It reports that the run is
/// over only when it is, and otherwise leaves a node waiting.
pub proof fn lemma_step(alg: GraphTraversers, g: GraphView, t: TraversalView, out: Outcome)
    requires
        search_inv(alg, g, t),
        t.to_traverse.len() > 0,
        step_of(alg, g, t, out),
    ensures
        search_inv(alg, out.graph, out.run),
        g.same_topology(out.graph),
        out.run.start_node == t.start_node,
        out.run.end_node == t.end_node,
        out.run.visited.len() <= g.len(),
        out.run.visited.len() == t.visited.len() + 1 || (out.run.visited.len() == t.visited.len()
            && out.run.to_traverse.len() < t.to_traverse.len()),
        out.done ==> finished(out.run),
        !out.done ==> out.run.to_traverse.len() > 0,
        0 <= ticks_left(alg, out.graph, out.run) < ticks_left(alg, g, t),
        !out.done ==> ticks_left(alg, out.graph, out.run) > 0,
{
    lemma_step_core(alg, g, t, out);
    lemma_step_ticks(alg, g, t, out);
    if alg == GraphTraversers::BreadthFirst {
        lemma_bfs_step(g, t);
    }
    if alg == GraphTraversers::Dijkstras {
        lemma_dijkstra_step(g, t, out);
    }
}

impl TraversalData {
    /// Steps the run until it is over, and tells whether it has reached
    /// the goal. It reaches the goal exactly when the goal can be reached
    /// from the start, and then shows it as the goal.
    pub fn run(&mut self, graph: &mut Graph, alg: GraphTraversers) -> (reached: bool)
        requires
            search_inv(alg, old(graph)@, old(self)@),
            old(self)@.to_traverse.len() > 0,
        ensures
            runs_to(alg, old(graph)@, old(self)@, final(graph)@, final(self)@),
            search_inv(alg, final(graph)@, final(self)@),
            finished(final(self)@),
            old(graph)@.same_topology(final(graph)@),
            final(self)@.start_node == old(self)@.start_node,
            final(self)@.end_node == old(self)@.end_node,
            reached == final(self)@.visited.contains(old(self)@.end_node.0),
            reached <==> reachable(
                old(graph)@,
                alg,
                old(self)@.start_node,
                old(self)@.end_node,
            ),
            reached <==> final(graph)@.node(old(self)@.end_node).state == NodeState::End,
    {
        let ghost g0 = graph@;
        proof {
            lemma_same_topology_refl(g0);
        }
        let ghost mut taken: nat = 0;
        loop
            invariant_except_break
                self@.to_traverse.len() > 0,
                steps_to(alg, g0, old(self)@, graph@, self@, taken, true),
                taken + ticks_left(alg, graph@, self@) <= ticks_left(alg, g0, old(self)@),
            invariant
                search_inv(alg, graph@, self@),
                g0.same_topology(graph@),
                self@.start_node == old(self)@.start_node,
                self@.end_node == old(self)@.end_node,
                self@.visited.len() <= graph@.len() || self@ == old(self)@,
            ensures
                finished(self@),
                runs_to(alg, g0, old(self)@, graph@, self@),
            decreases
                    graph@.len() + 1 - (if self@.visited.len() <= graph@.len() {
                        self@.visited.len()
                    } else {
                        0
                    }),
                    self@.to_traverse.len(),
        {
            let ghost g1 = graph@;
            let ghost t1 = self@;
            let done = self.step(graph, alg);
            proof {
                lemma_step(alg, g1, t1, (Outcome { graph: graph@, run: self@, done }));
                lemma_same_topology_trans(g0, g1, graph@);
                lemma_bounded_set(t1.visited, g1.len());
                assert(g1.nodes.len() == graph@.nodes.len());
            }
            if done {
                proof {
                    assert(steps_to(alg, g0, old(self)@, g1, t1, taken, true) && t1.to_traverse.len() > 0
                        && step_of(alg, g1, t1, (Outcome { graph: graph@, run: self@, done: true }))
                        && taken < ticks_left(alg, g0, old(self)@));
                }
                break ;
            }
            proof {
                assert(step_of(alg, g1, t1, (Outcome { graph: graph@, run: self@, done: false })));
                taken = taken + 1;
                assert(steps_to(alg, g0, old(self)@, g1, t1, (taken - 1) as nat, true));
            }
        }
        let reached = self.visited.contains(&self.end_node.0);
        proof {
            let g = graph@;
            let t = self@;
            if reachable(g0, alg, t.start_node, t.end_node) {
                lemma_reachable_same(g0, g, alg, t.start_node, t.end_node);
                lemma_reachable_goal_is_found(alg, g, t);
            } else {
                lemma_same_topology_sym(g0, g);
                if reachable(g, alg, t.start_node, t.end_node) {
                    lemma_reachable_same(g, g0, alg, t.start_node, t.end_node);
                }
                lemma_unreachable_goal_is_never_marked(alg, g, t);
            }
        }
        reached
    }

    /// Steps the run until nothing waits any more, past the step that
    /// finalizes the goal. Every node it has finalized by then can be
    /// reached from the start; and unless it has come by the goal, which
    /// it does not expand, it has finalized every node that can be.
    pub fn exhaust(&mut self, graph: &mut Graph, alg: GraphTraversers)
        requires
            search_inv(alg, old(graph)@, old(self)@),
        ensures
            drains_to(alg, old(graph)@, old(self)@, final(graph)@, final(self)@),
            search_inv(alg, final(graph)@, final(self)@),
            old(graph)@.same_topology(final(graph)@),
            final(self)@.start_node == old(self)@.start_node,
            final(self)@.end_node == old(self)@.end_node,
            forall|v: NodeIndex|
                old(graph)@.has(v) && #[trigger] final(self)@.visited.contains(v.0) ==> reachable(
                    old(graph)@,
                    alg,
                    old(self)@.start_node,
                    v,
                ),
            !final(self)@.visited.contains(old(self)@.end_node.0) ==> forall|v: NodeIndex|
                old(graph)@.has(v) && #[trigger] reachable(
                    old(graph)@,
                    alg,
                    old(self)@.start_node,
                    v,
                ) ==> final(self)@.visited.contains(v.0),
    {
        let ghost g0 = graph@;
        let ghost mut taken: nat = 0;
        proof {
            lemma_same_topology_refl(g0);
            lemma_bounded_set(self@.visited, g0.len());
        }
        while !self.to_traverse.is_empty()
            invariant
                steps_to(alg, g0, old(self)@, graph@, self@, taken, false),
                taken + ticks_left(alg, graph@, self@) <= ticks_left(alg, g0, old(self)@),
                0 <= ticks_left(alg, graph@, self@),
                search_inv(alg, graph@, self@),
                g0.same_topology(graph@),
                self@.start_node == old(self)@.start_node,
                self@.end_node == old(self)@.end_node,
                self@.visited.len() <= graph@.len(),
            decreases graph@.len() - self@.visited.len(), self@.to_traverse.len(),
        {
            let ghost g1 = graph@;
            let ghost t1 = self@;
            let done = self.step(graph, alg);
            proof {
                lemma_step(alg, g1, t1, (Outcome { graph: graph@, run: self@, done }));
                lemma_same_topology_trans(g0, g1, graph@);
                assert(g1.nodes.len() == graph@.nodes.len());
                assert(step_of(alg, g1, t1, (Outcome { graph: graph@, run: self@, done })));
                taken = taken + 1;
                assert(steps_to(alg, g0, old(self)@, g1, t1, (taken - 1) as nat, false));
            }
        }
        proof {
            let g = graph@;
            let t = self@;
            lemma_same_topology_sym(g0, g);
            assert forall|v: NodeIndex| g0.has(v) && #[trigger] t.visited.contains(v.0) implies reachable(
                g0,
                alg,
                t.start_node,
                v,
            ) by {
                crate::search::lemma_visited_reachable(alg, g, t, v);
                lemma_reachable_same(g, g0, alg, t.start_node, v);
            }
            if !t.visited.contains(t.end_node.0) {
                assert forall|v: NodeIndex| g0.has(v) && #[trigger] reachable(
                    g0,
                    alg,
                    t.start_node,
                    v,
                ) implies t.visited.contains(v.0) by {
                    lemma_reachable_same(g0, g, alg, t.start_node, v);
                    let w = choose|w: Seq<NodeIndex>|
                        crate::search::is_walk(g, alg, w) && w.first() == t.start_node && w.last()
                            == v;
                    crate::search::lemma_walk_visited(alg, g, t, w, w.len() - 1);
                }
            }
        }
    }
}

/// Clears the marks of earlier runs from the graph and runs `alg` from
/// `start_node` until the run is over. The run that comes back has
/// finalized the goal exactly when the goal can be reached from the
/// start, and the graph then shows it as the goal.
pub fn search(
    graph: &mut Graph,
    alg: GraphTraversers,
    start_node: NodeIndex,
    end_node: NodeIndex,
) -> (run: TraversalData)
    requires
        old(graph)@.wf(),
        old(graph)@.has(start_node),
        old(graph)@.has(end_node),
    ensures
        runs_to(
            alg,
            old(graph)@.reset(),
            TraversalView::fresh(start_node, end_node),
            final(graph)@,
            run@,
        ),
        search_inv(alg, final(graph)@, run@),
        finished(run@),
        old(graph)@.same_topology(final(graph)@),
        run@.start_node == start_node,
        run@.end_node == end_node,
        run@.visited.contains(end_node.0) <==> reachable(old(graph)@, alg, start_node, end_node),
        final(graph)@.node(end_node).state == NodeState::End <==> reachable(
            old(graph)@,
            alg,
            start_node,
            end_node,
        ),
{
    graph.reset();
    let mut run = TraversalData::new(start_node, end_node);
    proof {
        old(graph)@.lemma_reset();
        lemma_fresh_run(alg, graph@, start_node, end_node);
        if reachable(old(graph)@, alg, start_node, end_node) {
            lemma_reachable_same(old(graph)@, graph@, alg, start_node, end_node);
        }
        let g = graph@;
        let g0 = old(graph)@;
        lemma_same_topology_sym(g0, g);
        if reachable(g, alg, start_node, end_node) {
            lemma_reachable_same(g, g0, alg, start_node, end_node);
        }
    }
    let ghost cleared = graph@;
    run.run(graph, alg);
    proof {
        lemma_same_topology_trans(old(graph)@, cleared, graph@);
    }
    run
}

} // verus!
