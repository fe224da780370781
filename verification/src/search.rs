use crate::frontier::queued;
use crate::graph::GraphView;
use crate::graph::NodeIndex;
use crate::graph::NodeState;
use crate::graph::pointing_at;
use crate::plain_search::lemma_plain_core;
use crate::plain_search::lemma_plain_facts;
use crate::priority_search::lemma_priority_core;
use crate::priority_search::lemma_priority_facts;
use crate::traversers::step_of;
use crate::traversers::GraphTraversers;
use crate::traversers::Outcome;
use crate::traversers::TraversalView;
use vstd::prelude::*;

verus! {

/// The nodes that a step of `alg` looks at when it expands `u`.
pub open spec fn near(g: GraphView, alg: GraphTraversers, u: NodeIndex) -> Seq<NodeIndex> {
    if alg == GraphTraversers::SimpleBreadth {
        g.connections(u)
    } else {
        g.neighbors(u)
    }
}

/// `alg` can go from `u` to `v` in one hop: along an edge in the list of
/// `u`, or, for the search that ignores direction, against an edge in
/// the list of `v`.
pub open spec fn hop(g: GraphView, alg: GraphTraversers, u: NodeIndex, v: NodeIndex) -> bool {
    g.neighbors(u).contains(v) || (alg == GraphTraversers::SimpleBreadth && g.is_directed && g.has(
        v,
    ) && g.neighbors(v).contains(u))
}

/// In the list `w`, the node in place `i` is one hop from the one before.
pub open spec fn hops_at(g: GraphView, alg: GraphTraversers, w: Seq<NodeIndex>, i: int) -> bool {
    hop(g, alg, w[i - 1], w[i])
}

/// In the trail `tr`, the node in place `i` is the predecessor of the one
/// before, which is one hop from it.
pub open spec fn links_at(g: GraphView, alg: GraphTraversers, tr: Seq<NodeIndex>, i: int) -> bool {
    hop(g, alg, tr[i], tr[i - 1]) && g.node(tr[i - 1]).from_node == Some(tr[i])
}

/// A walk: nodes of the graph, each one hop from the one before.
pub open spec fn is_walk(g: GraphView, alg: GraphTraversers, w: Seq<NodeIndex>) -> bool {
    &&& w.len() > 0
    &&& forall|i: int| 0 <= i < w.len() ==> g.has(#[trigger] w[i])
    &&& forall|i: int| 0 < i < w.len() ==> #[trigger] hops_at(g, alg, w, i)
}

/// `alg` can get from `a` to `b` over the edges of `g`.
pub open spec fn reachable(g: GraphView, alg: GraphTraversers, a: NodeIndex, b: NodeIndex) -> bool {
    exists|w: Seq<NodeIndex>| is_walk(g, alg, w) && w.first() == a && w.last() == b
}

/// The run has come across `v`: it is finalized or waits in the frontier.
pub open spec fn known(t: TraversalView, v: NodeIndex) -> bool {
    t.visited.contains(v.0) || queued(t.to_traverse, v)
}

/// The predecessor of `v` is a finalized node one hop before `v`, and
/// not the goal, which no step expands. Of the nodes the run has come
/// across only the start has no predecessor.
pub open spec fn pred_ok(alg: GraphTraversers, g: GraphView, t: TraversalView, v: NodeIndex) -> bool {
    match g.node(v).from_node {
        Some(p) => g.has(p) && t.visited.contains(p.0) && p != t.end_node && v != t.start_node
            && hop(g, alg, p, v),
        None => known(t, v) ==> v == t.start_node,
    }
}

/// The run has come across every node one hop from `u`.
pub open spec fn expanded(alg: GraphTraversers, g: GraphView, t: TraversalView, u: NodeIndex) -> bool {
    forall|v: NodeIndex| g.has(v) && #[trigger] hop(g, alg, u, v) ==> known(t, v)
}

/// `rank` numbers the finalized nodes so that each comes after its
/// predecessor.
pub open spec fn ranked(g: GraphView, t: TraversalView, rank: Map<usize, nat>) -> bool {
    forall|v: NodeIndex|
        g.has(v) && #[trigger] t.visited.contains(v.0) ==> rank[v.0] < t.visited.len() && (g.node(
            v,
        ).from_node matches Some(p) ==> rank[p.0] < rank[v.0])
}

/// The algorithms that keep no priorities.
pub open spec fn plain(alg: GraphTraversers) -> bool {
    alg == GraphTraversers::BreadthFirst || alg == GraphTraversers::DepthFirst || alg
        == GraphTraversers::SimpleBreadth
}

/// No node waits twice in the frontier, and none that waits is finalized.
pub open spec fn distinct_unvisited(t: TraversalView) -> bool {
    &&& forall|i: int, j: int|
        0 <= i < j < t.to_traverse.len() ==> t.to_traverse[i].1 != t.to_traverse[j].1
    &&& forall|j: int|
        0 <= j < t.to_traverse.len() ==> !t.visited.contains((#[trigger] t.to_traverse[j]).1.0)
}

/// The run has not taken a step, and no node has a predecessor.
pub open spec fn unstarted(g: GraphView, t: TraversalView) -> bool {
    &&& t.visited == Set::<usize>::empty()
    &&& t.to_traverse == seq![(0u64, t.start_node)]
    &&& forall|v: NodeIndex| g.has(v) ==> (#[trigger] g.node(v)).from_node is None
}

/// What holds of a run of `alg` from its first step to its last, whatever
/// the graph.
pub open spec fn core_inv(alg: GraphTraversers, g: GraphView, t: TraversalView) -> bool {
    &&& g.wf()
    &&& g.has(t.start_node)
    &&& g.has(t.end_node)
    &&& t.fits(g)
    &&& t.visited.finite()
    &&& forall|x: usize| #[trigger] t.visited.contains(x) ==> x < g.len()
    &&& t.visited.contains(t.start_node.0) || unstarted(g, t)
    &&& forall|v: NodeIndex| g.has(v) ==> #[trigger] pred_ok(alg, g, t, v)
    &&& forall|u: NodeIndex|
        g.has(u) && t.visited.contains(u.0) && u != t.end_node ==> #[trigger] expanded(alg, g, t, u)
    &&& (g.node(t.end_node).state == NodeState::End <==> t.visited.contains(t.end_node.0))
    &&& exists|rank: Map<usize, nat>| ranked(g, t, rank)
    &&& plain(alg) ==> distinct_unvisited(t)
}

/// A list holds what its parts hold.
pub proof fn lemma_add_contains<A>(a: Seq<A>, b: Seq<A>, x: A)
    ensures
        (a + b).contains(x) <==> a.contains(x) || b.contains(x),
{
    if a.contains(x) {
        let i = choose|i: int| 0 <= i < a.len() && a[i] == x;
        assert((a + b)[i] == x);
    }
    if b.contains(x) {
        let i = choose|i: int| 0 <= i < b.len() && b[i] == x;
        assert((a + b)[a.len() + i] == x);
    }
    if (a + b).contains(x) {
        let i = choose|i: int| 0 <= i < (a + b).len() && (a + b)[i] == x;
        if i < a.len() {
            assert(a[i] == x);
        } else {
            assert(b[i - a.len()] == x);
        }
    }
}

/// The nodes that a step looks at are those one hop away.
pub proof fn lemma_near_is_hop(g: GraphView, alg: GraphTraversers, u: NodeIndex)
    requires
        g.wf(),
        g.has(u),
    ensures
        forall|v: NodeIndex| #[trigger] near(g, alg, u).contains(v) <==> hop(g, alg, u, v),
        forall|k: int| 0 <= k < near(g, alg, u).len() ==> g.has(#[trigger] near(g, alg, u)[k]),
{
    g.lemma_neighbors_within(u);
    let kept = g.nodes.filter(pointing_at(u));
    let inbound = g.inbound(u);
    assert forall|v: NodeIndex| #[trigger] inbound.contains(v) <==> g.has(v) && g.neighbors(
        v,
    ).contains(u) by {
        if inbound.contains(v) {
            let j = choose|j: int| 0 <= j < inbound.len() && inbound[j] == v;
            assert(kept[j].id == v);
            g.nodes.lemma_filter_pred(pointing_at(u), j);
            assert(kept.contains(kept[j]));
            g.nodes.lemma_filter_contains_rev(pointing_at(u), kept[j]);
            let i = choose|i: int| 0 <= i < g.nodes.len() && g.nodes[i] == kept[j];
            assert(g.nodes[i].wf_at(i, g.nodes.len()));
            assert(g.node(v) == kept[j]);
        }
        if g.has(v) && g.neighbors(v).contains(u) {
            let i = v.0 as int;
            assert(g.nodes[i].wf_at(i, g.nodes.len()));
            assert(pointing_at(u)(g.nodes[i]));
            g.nodes.lemma_filter_contains(pointing_at(u), i);
            let j = choose|j: int| 0 <= j < kept.len() && kept[j] == g.nodes[i];
            assert(inbound[j] == v);
        }
    }
    assert forall|v: NodeIndex| #[trigger] near(g, alg, u).contains(v) <==> hop(g, alg, u, v) by {
        lemma_add_contains(inbound, g.neighbors(u), v);
        if g.neighbors(u).contains(v) {
            let k = choose|k: int| 0 <= k < g.neighbors(u).len() && g.neighbors(u)[k] == v;
            assert(g.has(g.neighbors(u)[k]));
        }
    }
}

/// Graphs of the same shape allow the same hops.
pub proof fn lemma_hop_same(g: GraphView, h: GraphView, alg: GraphTraversers)
    requires
        g.same_topology(h),
    ensures
        forall|u: NodeIndex, v: NodeIndex|
            g.has(u) && g.has(v) ==> (#[trigger] hop(g, alg, u, v) <==> hop(h, alg, u, v)),
{
    assert forall|u: NodeIndex, v: NodeIndex| g.has(u) && g.has(v) implies (#[trigger] hop(
        g,
        alg,
        u,
        v,
    ) <==> hop(h, alg, u, v)) by {
        assert(g.nodes[u.0 as int].cleared() == h.nodes[u.0 as int].cleared());
        assert(g.nodes[v.0 as int].cleared() == h.nodes[v.0 as int].cleared());
        assert(g.neighbors(u) == h.neighbors(u));
        assert(g.neighbors(v) == h.neighbors(v));
    }
}

/// Every graph has its own shape.
pub proof fn lemma_same_topology_refl(g: GraphView)
    ensures
        g.same_topology(g),
{
}

/// Having the same shape goes both ways.
pub proof fn lemma_same_topology_sym(g: GraphView, h: GraphView)
    requires
        g.same_topology(h),
    ensures
        h.same_topology(g),
{
    assert forall|i: int| 0 <= i < h.nodes.len() implies h.nodes[i].cleared()
        == g.nodes[i].cleared() by {
        assert(g.nodes[i].cleared() == h.nodes[i].cleared());
    }
}

/// Having the same shape carries over from graph to graph.
pub proof fn lemma_same_topology_trans(g: GraphView, h: GraphView, k: GraphView)
    requires
        g.same_topology(h),
        h.same_topology(k),
    ensures
        g.same_topology(k),
{
    assert forall|i: int| 0 <= i < g.nodes.len() implies g.nodes[i].cleared()
        == k.nodes[i].cleared() by {
        assert(g.nodes[i].cleared() == h.nodes[i].cleared());
        assert(h.nodes[i].cleared() == k.nodes[i].cleared());
    }
}

/// Graphs of the same shape connect the same nodes.
pub proof fn lemma_reachable_same(
    g: GraphView,
    h: GraphView,
    alg: GraphTraversers,
    a: NodeIndex,
    b: NodeIndex,
)
    requires
        g.same_topology(h),
    ensures
        reachable(g, alg, a, b) ==> reachable(h, alg, a, b),
{
    if reachable(g, alg, a, b) {
        let w = choose|w: Seq<NodeIndex>| is_walk(g, alg, w) && w.first() == a && w.last() == b;
        lemma_hop_same(g, h, alg);
        assert forall|i: int| 0 < i < w.len() implies #[trigger] hops_at(h, alg, w, i) by {
            assert(g.has(w[i - 1]));
            assert(g.has(w[i]));
            assert(hops_at(g, alg, w, i));
        }
        assert(is_walk(h, alg, w));
    }
}

/// A set of positions below `n` is finite and has at most `n` members.
pub proof fn lemma_bounded_set(s: Set<usize>, n: nat)
    requires
        forall|x: usize| #[trigger] s.contains(x) ==> x < n,
    ensures
        s.finite(),
        s.len() <= n,
    decreases n,
{
    if n == 0 {
        assert(s =~= Set::<usize>::empty());
    } else {
        let last = (n - 1) as usize;
        let rest = s.remove(last);
        lemma_bounded_set(rest, (n - 1) as nat);
        if s.contains(last) {
            assert(s =~= rest.insert(last));
        } else {
            assert(s =~= rest);
        }
    }
}

/// A run that has not taken a step on a graph without marks satisfies
/// what holds of every run.
pub proof fn lemma_fresh_core(
    alg: GraphTraversers,
    g: GraphView,
    start_node: NodeIndex,
    end_node: NodeIndex,
)
    requires
        g.wf(),
        g.is_reset(),
        g.has(start_node),
        g.has(end_node),
    ensures
        core_inv(alg, g, TraversalView::fresh(start_node, end_node)),
{
    let t = TraversalView::fresh(start_node, end_node);
    assert(t.fits(g));
    assert forall|v: NodeIndex| g.has(v) implies #[trigger] pred_ok(alg, g, t, v) by {
        assert(g.nodes[v.0 as int].from_node is None);
        if queued(t.to_traverse, v) {
            let j = choose|j: int| 0 <= j < t.to_traverse.len() && (#[trigger] t.to_traverse[j]).1 == v;
            assert(j == 0);
        }
    }
    assert(unstarted(g, t)) by {
        assert forall|v: NodeIndex| g.has(v) implies (#[trigger] g.node(v)).from_node is None by {
            assert(g.nodes[v.0 as int].from_node is None);
        }
    }
    assert(g.nodes[end_node.0 as int].state == NodeState::Unvisited);
    assert(ranked(g, t, Map::<usize, nat>::empty()));
    assert(distinct_unvisited(t));
}

/// The run is over: the goal is finalized, or nothing waits any more.
pub open spec fn finished(t: TraversalView) -> bool {
    t.visited.contains(t.end_node.0) || t.to_traverse.len() == 0
}

/// A step of `alg` on a run that satisfies what holds of every run leads
/// to such a run again, on a graph of the same shape. It finalizes one
/// more node or, failing that, shortens the frontier. It reports that the
/// run is over only when it is, and otherwise leaves a node waiting.
pub proof fn lemma_step_core(alg: GraphTraversers, g: GraphView, t: TraversalView, out: Outcome)
    requires
        core_inv(alg, g, t),
        t.to_traverse.len() > 0,
        step_of(alg, g, t, out),
    ensures
        core_inv(alg, out.graph, out.run),
        g.same_topology(out.graph),
        out.run.start_node == t.start_node,
        out.run.end_node == t.end_node,
        out.run.visited.len() <= g.len(),
        out.run.visited.len() == t.visited.len() + 1 || (out.run.visited.len() == t.visited.len()
            && out.run.to_traverse.len() < t.to_traverse.len()),
        out.done ==> finished(out.run),
        !out.done ==> out.run.to_traverse.len() > 0,
{
    assert(g.has(t.to_traverse[0].1));
    if plain(alg) {
        let around = near(g, alg, t.head());
        lemma_near_is_hop(g, alg, t.head());
        let starts = alg != GraphTraversers::SimpleBreadth;
        let stack = alg == GraphTraversers::DepthFirst;
        lemma_plain_facts(alg, g, t, around, starts, stack);
        lemma_plain_core(alg, g, t, around, starts, stack);
    } else {
        let heuristic = alg == GraphTraversers::AStar;
        lemma_priority_facts(alg, g, t, heuristic, out);
        lemma_priority_core(alg, g, t, heuristic, out);
    }
    assert(out.graph.nodes.len() == g.nodes.len());
    lemma_bounded_set(out.run.visited, g.len());
}

/// The trail of a finalized node leads back to the start without coming
/// by a node twice, over finalized nodes, each the predecessor of the one
/// before and one hop from it.
pub proof fn lemma_trail(
    alg: GraphTraversers,
    g: GraphView,
    t: TraversalView,
    rank: Map<usize, nat>,
    v: NodeIndex,
    fuel: nat,
)
    requires
        forall|x: NodeIndex| g.has(x) ==> #[trigger] pred_ok(alg, g, t, x),
        ranked(g, t, rank),
        g.has(v),
        t.visited.contains(v.0),
        rank[v.0] < fuel,
    ensures
        ({
            let tr = g.trail(v, fuel);
            &&& tr.len() >= 1
            &&& tr[0] == v
            &&& tr.last() == t.start_node
            &&& tr.no_duplicates()
            &&& (tr.len() == 1 <==> v == t.start_node)
            &&& forall|i: int|
                0 <= i < tr.len() ==> g.has(#[trigger] tr[i]) && t.visited.contains(tr[i].0)
                    && rank[tr[i].0] <= rank[v.0]
            &&& forall|i: int| 0 < i < tr.len() ==> #[trigger] links_at(g, alg, tr, i)
        }),
    decreases fuel,
{
    let tr = g.trail(v, fuel);
    assert(pred_ok(alg, g, t, v));
    match g.node(v).from_node {
        Some(p) => {
            assert(t.visited.contains(p.0));
            assert(rank[p.0] < rank[v.0]);
            lemma_trail(alg, g, t, rank, p, (fuel - 1) as nat);
            let tail = g.trail(p, (fuel - 1) as nat);
            assert(tr == seq![v] + tail);
            assert(tr.len() == tail.len() + 1);
            assert(tr[0] == v);
            assert forall|i: int| 0 < i < tr.len() implies #[trigger] tr[i] == tail[i - 1] by {}
            assert(tr.last() == tail.last());
            assert forall|i: int| 0 <= i < tr.len() implies g.has(#[trigger] tr[i])
                && t.visited.contains(tr[i].0) && rank[tr[i].0] <= rank[v.0] by {
                if i > 0 {
                    assert(tr[i] == tail[i - 1]);
                    assert(g.has(tail[i - 1]));
                }
            }
            assert forall|i: int, j: int| 0 <= i < tr.len() && 0 <= j < tr.len() && i != j implies tr[i]
                != tr[j] by {
                if i > 0 {
                    assert(tr[i] == tail[i - 1]);
                    assert(g.has(tail[i - 1]));
                    assert(rank[tr[i].0] <= rank[p.0]);
                }
                if j > 0 {
                    assert(tr[j] == tail[j - 1]);
                    assert(g.has(tail[j - 1]));
                    assert(rank[tr[j].0] <= rank[p.0]);
                }
            }
            assert forall|i: int| 0 < i < tr.len() implies #[trigger] links_at(g, alg, tr, i) by {
                assert(tr[i] == tail[i - 1]);
                if i > 1 {
                    assert(tr[i - 1] == tail[i - 2]);
                    assert(links_at(g, alg, tail, i - 1));
                } else {
                    assert(tail[0] == p);
                }
            }
        },
        None => {
            assert(known(t, v));
            assert(tr == seq![v]);
        },
    }
}

/// A trail read backwards is a walk.
pub proof fn lemma_reverse_walk(g: GraphView, alg: GraphTraversers, tr: Seq<NodeIndex>)
    requires
        tr.len() >= 1,
        forall|i: int| 0 <= i < tr.len() ==> g.has(#[trigger] tr[i]),
        forall|i: int| 0 < i < tr.len() ==> #[trigger] links_at(g, alg, tr, i),
    ensures
        is_walk(g, alg, tr.reverse()),
        tr.reverse().first() == tr.last(),
        tr.reverse().last() == tr[0],
{
    let w = tr.reverse();
    assert forall|i: int| 0 < i < w.len() implies #[trigger] hops_at(g, alg, w, i) by {
        let j = tr.len() - i;
        assert(w[i - 1] == tr[j]);
        assert(w[i] == tr[j - 1]);
        assert(links_at(g, alg, tr, j));
    }
    assert forall|i: int| 0 <= i < w.len() implies g.has(#[trigger] w[i]) by {
        assert(w[i] == tr[tr.len() - 1 - i]);
    }
}

/// Every node that a run has finalized can be reached from the start.
pub proof fn lemma_visited_reachable(alg: GraphTraversers, g: GraphView, t: TraversalView, v: NodeIndex)
    requires
        core_inv(alg, g, t),
        g.has(v),
        t.visited.contains(v.0),
    ensures
        reachable(g, alg, t.start_node, v),
{
    let rank = choose|rank: Map<usize, nat>| ranked(g, t, rank);
    lemma_bounded_set(t.visited, g.len());
    lemma_trail(alg, g, t, rank, v, g.len());
    let tr = g.trail(v, g.len());
    lemma_reverse_walk(g, alg, tr);
    let w = tr.reverse();
    assert(is_walk(g, alg, w) && w.first() == t.start_node && w.last() == v);
}

/// Once a run is over, it has finalized the goal or every node of any
/// walk from the start.
pub proof fn lemma_walk_visited(
    alg: GraphTraversers,
    g: GraphView,
    t: TraversalView,
    w: Seq<NodeIndex>,
    i: int,
)
    requires
        core_inv(alg, g, t),
        finished(t),
        is_walk(g, alg, w),
        w.first() == t.start_node,
        0 <= i < w.len(),
    ensures
        t.visited.contains(t.end_node.0) || t.visited.contains(w[i].0),
    decreases i,
{
    if !t.visited.contains(t.end_node.0) {
        if i == 0 {
            if unstarted(g, t) {
                assert(t.to_traverse.len() == 1);
            }
        } else {
            lemma_walk_visited(alg, g, t, w, i - 1);
            let u = w[i - 1];
            assert(g.has(u));
            assert(u != t.end_node);
            assert(expanded(alg, g, t, u));
            assert(g.has(w[i]));
            assert(hops_at(g, alg, w, i));
            assert(hop(g, alg, u, w[i]));
            assert(known(t, w[i]));
        }
    }
}

/// Where the goal can be reached from the start, a run that is over has
/// finalized the goal and shows it as the goal, and the trail from the
/// goal leads back to the start over nodes that are all different, each
/// one hop from the next. The reconstructed path joins the nodes of that
/// trail.
pub proof fn lemma_reachable_goal_is_found(alg: GraphTraversers, g: GraphView, t: TraversalView)
    requires
        core_inv(alg, g, t),
        finished(t),
        reachable(g, alg, t.start_node, t.end_node),
    ensures
        t.visited.contains(t.end_node.0),
        g.node(t.end_node).state == NodeState::End,
        ({
            let tr = g.trail(t.end_node, g.len());
            let path = g.path_back(t.end_node, g.len());
            &&& tr.first() == t.end_node
            &&& tr.last() == t.start_node
            &&& tr.no_duplicates()
            &&& is_walk(g, alg, tr.reverse())
            &&& path.len() + 1 == tr.len()
            &&& forall|i: int|
                0 <= i < path.len() ==> #[trigger] path[i] == g.link(tr[i + 1], tr[i])
        }),
{
    let w = choose|w: Seq<NodeIndex>|
        is_walk(g, alg, w) && w.first() == t.start_node && w.last() == t.end_node;
    lemma_walk_visited(alg, g, t, w, w.len() - 1);
    lemma_goal_trail(alg, g, t);
}

/// The trail from a finalized goal leads back to the start over nodes
/// that are all different, each one hop from the next, and the
/// reconstructed path joins the nodes of that trail.
pub proof fn lemma_goal_trail(alg: GraphTraversers, g: GraphView, t: TraversalView)
    requires
        core_inv(alg, g, t),
        t.visited.contains(t.end_node.0),
    ensures
        g.node(t.end_node).state == NodeState::End,
        ({
            let tr = g.trail(t.end_node, g.len());
            let path = g.path_back(t.end_node, g.len());
            &&& tr.first() == t.end_node
            &&& tr.last() == t.start_node
            &&& tr.no_duplicates()
            &&& is_walk(g, alg, tr.reverse())
            &&& path.len() + 1 == tr.len()
            &&& forall|i: int|
                0 <= i < path.len() ==> #[trigger] path[i] == g.link(tr[i + 1], tr[i])
        }),
{
    let rank = choose|rank: Map<usize, nat>| ranked(g, t, rank);
    lemma_bounded_set(t.visited, g.len());
    lemma_trail(alg, g, t, rank, t.end_node, g.len());
    g.lemma_path_follows_trail(t.end_node, g.len());
    lemma_reverse_walk(g, alg, g.trail(t.end_node, g.len()));
}

/// Where the goal cannot be reached from the start, no run ever
/// finalizes it or shows it as the goal.
pub proof fn lemma_unreachable_goal_is_never_marked(
    alg: GraphTraversers,
    g: GraphView,
    t: TraversalView,
)
    requires
        core_inv(alg, g, t),
        !reachable(g, alg, t.start_node, t.end_node),
    ensures
        !t.visited.contains(t.end_node.0),
        g.node(t.end_node).state != NodeState::End,
{
    if t.visited.contains(t.end_node.0) {
        lemma_visited_reachable(alg, g, t, t.end_node);
    }
}

} // verus!
