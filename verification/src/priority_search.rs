use crate::frontier::lemma_same_entries;
use crate::frontier::queued;
use crate::graph::Edge;
use crate::graph::GraphView;
use crate::graph::NodeIndex;
use crate::graph::NodeState;
use crate::search::core_inv;
use crate::search::expanded;
use crate::search::hop;
use crate::search::known;
use crate::search::lemma_hop_same;
use crate::search::lemma_same_topology_trans;
use crate::search::plain;
use crate::search::pred_ok;
use crate::search::ranked;
use crate::search::unstarted;
use crate::traversers::edge_entries;
use crate::traversers::priority_step;
use crate::traversers::relax_edges;
use crate::traversers::GraphTraversers;
use crate::traversers::Outcome;
use crate::traversers::TraversalView;
use vstd::prelude::*;

verus! {

/// Some edge of `edges` leads from `u` to `v`, and `v` is not visited.
pub open spec fn touched(visited: Set<usize>, u: NodeIndex, edges: Seq<Edge>, v: NodeIndex) -> bool {
    !visited.contains(v.0) && exists|k: int|
        0 <= k < edges.len() && (#[trigger] edges[k]).other_end(u) == v
}

/// A frontier made of two parts holds the nodes of both.
pub proof fn lemma_queued_add(a: Seq<(u64, NodeIndex)>, b: Seq<(u64, NodeIndex)>, x: NodeIndex)
    ensures
        queued(a + b, x) <==> queued(a, x) || queued(b, x),
{
    if queued(a, x) {
        let j = choose|j: int| 0 <= j < a.len() && (#[trigger] a[j]).1 == x;
        assert((a + b)[j].1 == x);
    }
    if queued(b, x) {
        let j = choose|j: int| 0 <= j < b.len() && (#[trigger] b[j]).1 == x;
        assert((a + b)[a.len() + j].1 == x);
    }
    if queued(a + b, x) {
        let j = choose|j: int| 0 <= j < (a + b).len() && (#[trigger] (a + b)[j]).1 == x;
        if j < a.len() {
            assert(a[j].1 == x);
        } else {
            assert(b[j - a.len()].1 == x);
        }
    }
}

/// An edge list touches what its front part touches and what its last
/// edge touches.
pub proof fn lemma_touched_last(visited: Set<usize>, u: NodeIndex, edges: Seq<Edge>, v: NodeIndex)
    requires
        edges.len() > 0,
    ensures
        touched(visited, u, edges, v) <==> touched(visited, u, edges.drop_last(), v) || (
        !visited.contains(v.0) && edges.last().other_end(u) == v),
{
    let front = edges.drop_last();
    if touched(visited, u, edges, v) {
        let k = choose|k: int| 0 <= k < edges.len() && (#[trigger] edges[k]).other_end(u) == v;
        if k < front.len() {
            assert(front[k].other_end(u) == v);
        }
    }
    if touched(visited, u, front, v) {
        let k = choose|k: int| 0 <= k < front.len() && (#[trigger] front[k]).other_end(u) == v;
        assert(edges[k].other_end(u) == v);
    }
    if edges.last().other_end(u) == v {
        assert(edges[edges.len() - 1].other_end(u) == v);
    }
}

/// Relaxing the edges of `u` leaves the shape of the graph alone, and
/// changes the marks of the touched nodes only: each is shown as seen and
/// has a predecessor, its old one or `u`.
pub proof fn lemma_relax_edges_shape(
    g: GraphView,
    visited: Set<usize>,
    u: NodeIndex,
    base: u64,
    edges: Seq<Edge>,
)
    requires
        g.wf(),
        g.has(u),
        forall|k: int| 0 <= k < edges.len() ==> (#[trigger] edges[k]).within(g.len()),
    ensures
        relax_edges(g, visited, u, base, edges).wf(),
        g.same_topology(relax_edges(g, visited, u, base, edges)),
        forall|v: NodeIndex|
            g.has(v) && !touched(visited, u, edges, v) ==> (#[trigger] relax_edges(
                g,
                visited,
                u,
                base,
                edges,
            ).node(v)) == g.node(v),
        forall|v: NodeIndex|
            g.has(v) && touched(visited, u, edges, v) ==> {
                let n = (#[trigger] relax_edges(g, visited, u, base, edges).node(v));
                &&& n.state == NodeState::Seen
                &&& n.from_node is Some
                &&& n.from_node == Some(u) || n.from_node == g.node(v).from_node
            },
    decreases edges.len(),
{
    let r = relax_edges(g, visited, u, base, edges);
    if edges.len() == 0 {
        assert forall|i: int| 0 <= i < g.nodes.len() implies g.nodes[i].cleared()
            == r.nodes[i].cleared() by {}
    } else {
        let front = edges.drop_last();
        let e = edges.last();
        let w = e.other_end(u);
        let before = relax_edges(g, visited, u, base, front);
        assert forall|k: int| 0 <= k < front.len() implies (#[trigger] front[k]).within(g.len()) by {
            assert(front[k] == edges[k]);
        }
        lemma_relax_edges_shape(g, visited, u, base, front);
        assert(edges[edges.len() - 1].within(g.len()));
        assert(before.nodes.len() == g.nodes.len());
        if !visited.contains(w.0) {
            before.lemma_relax_wf(w, u, base.saturating_add(e.weight()));
            lemma_same_topology_trans(g, before, r);
        }
        assert forall|v: NodeIndex| g.has(v) && !touched(visited, u, edges, v) implies (
        #[trigger] r.node(v)) == g.node(v) by {
            lemma_touched_last(visited, u, edges, v);
            assert(before.node(v) == g.node(v));
        }
        assert forall|v: NodeIndex| g.has(v) && touched(visited, u, edges, v) implies ({
            let n = (#[trigger] r.node(v));
            &&& n.state == NodeState::Seen
            &&& n.from_node is Some
            &&& n.from_node == Some(u) || n.from_node == g.node(v).from_node
        }) by {
            lemma_touched_last(visited, u, edges, v);
            if touched(visited, u, front, v) {
                let n = before.node(v);
                assert(n.state == NodeState::Seen && n.from_node is Some);
            } else {
                assert(before.node(v) == g.node(v));
                assert(w == v);
            }
        }
    }
}

/// The entries that the edges of `u` give rise to are for the touched
/// nodes, and for no others.
pub proof fn lemma_edge_entries(
    g: GraphView,
    visited: Set<usize>,
    u: NodeIndex,
    priority: u64,
    edges: Seq<Edge>,
    heuristic: bool,
)
    ensures
        forall|x: NodeIndex| #[trigger]
            queued(edge_entries(g, visited, u, priority, edges, heuristic), x) <==> touched(
                visited,
                u,
                edges,
                x,
            ),
    decreases edges.len(),
{
    let entries = edge_entries(g, visited, u, priority, edges, heuristic);
    if edges.len() == 0 {
        assert forall|x: NodeIndex| #[trigger] queued(entries, x) <==> touched(
            visited,
            u,
            edges,
            x,
        ) by {}
    } else {
        let front = edges.drop_last();
        let e = edges.last();
        let w = e.other_end(u);
        let before = edge_entries(g, visited, u, priority, front, heuristic);
        lemma_edge_entries(g, visited, u, priority, front, heuristic);
        assert forall|x: NodeIndex| #[trigger] queued(entries, x) <==> touched(
            visited,
            u,
            edges,
            x,
        ) by {
            lemma_touched_last(visited, u, edges, x);
            assert(queued(before, x) <==> touched(visited, u, front, x));
            if !visited.contains(w.0) {
                let last = entries[entries.len() - 1];
                assert(entries =~= before + seq![last]);
                lemma_queued_add(before, seq![last], x);
                if queued(seq![last], x) {
                    let j = choose|j: int| 0 <= j < 1 && (#[trigger] seq![last][j]).1 == x;
                    assert(x == w);
                }
                if x == w {
                    assert(seq![last][0].1 == x);
                }
            }
        }
    }
}

/// A step of a search by priority can be taken on a run that satisfies
/// what holds of every run.
pub open spec fn priority_pre(alg: GraphTraversers, g: GraphView, t: TraversalView) -> bool {
    &&& !plain(alg)
    &&& core_inv(alg, g, t)
    &&& t.to_traverse.len() > 0
}

/// The step finds an edge to `v`, which is not visited.
pub open spec fn reached(g: GraphView, t: TraversalView, v: NodeIndex) -> bool {
    &&& !t.visited.contains(t.head().0)
    &&& t.head() != t.end_node
    &&& touched(t.visited.insert(t.head().0), t.head(), g.node(t.head()).edges, v)
}

/// What a step of a search by priority does, node by node.
pub proof fn lemma_priority_facts(
    alg: GraphTraversers,
    g: GraphView,
    t: TraversalView,
    heuristic: bool,
    out: Outcome,
)
    requires
        priority_pre(alg, g, t),
        priority_step(g, t, heuristic, out),
    ensures
        ({
            let u = t.head();
            let rest = t.to_traverse.drop_first();
            let stale = t.visited.contains(u.0);
            &&& g.has(u)
            &&& forall|x: NodeIndex| #[trigger] queued(t.to_traverse, x) <==> x == u || queued(rest, x)
            &&& out.graph.wf()
            &&& g.same_topology(out.graph)
            &&& out.run.start_node == t.start_node
            &&& out.run.end_node == t.end_node
            &&& out.run.visited == if stale {
                t.visited
            } else {
                t.visited.insert(u.0)
            }
            &&& out.run.visited.finite()
            &&& !stale ==> out.run.visited.len() == t.visited.len() + 1
            &&& stale ==> out.run.to_traverse.len() + 1 == t.to_traverse.len()
            &&& out.run.fits(out.graph)
            &&& out.done == ((!stale && u == t.end_node) || out.run.to_traverse.len() == 0)
            &&& forall|x: NodeIndex| #[trigger]
                queued(out.run.to_traverse, x) <==> queued(rest, x) || reached(g, t, x)
            &&& forall|v: NodeIndex|
                g.has(v) && !reached(g, t, v) ==> (#[trigger] out.graph.node(v)).from_node
                    == g.node(v).from_node
            &&& forall|v: NodeIndex|
                g.has(v) && reached(g, t, v) ==> (#[trigger] out.graph.node(v)).from_node == Some(u)
                    || (out.graph.node(v).from_node == g.node(v).from_node && g.node(
                    v,
                ).from_node is Some)
            &&& forall|v: NodeIndex| #[trigger]
                reached(g, t, v) ==> g.has(v) && hop(g, alg, u, v) && !out.run.visited.contains(v.0)
            &&& forall|v: NodeIndex|
                !stale && u != t.end_node && g.has(v) && #[trigger] hop(g, alg, u, v)
                    ==> out.run.visited.contains(v.0) || reached(g, t, v)
            &&& out.graph.node(t.end_node).state == if stale {
                g.node(t.end_node).state
            } else if u == t.end_node {
                NodeState::End
            } else if reached(g, t, t.end_node) {
                NodeState::Seen
            } else {
                g.node(t.end_node).state
            }
        }),
{
    let u = t.head();
    let rest = t.to_traverse.drop_first();
    let stale = t.visited.contains(u.0);
    let priority = t.to_traverse[0].0;
    assert(g.has(t.to_traverse[0].1));
    assert forall|j: int| 0 <= j < rest.len() implies #[trigger] rest[j] == t.to_traverse[j + 1] by {}
    assert forall|x: NodeIndex| #[trigger] queued(t.to_traverse, x) <==> x == u || queued(rest, x) by {
        if queued(t.to_traverse, x) {
            let j = choose|j: int| 0 <= j < t.to_traverse.len() && (#[trigger] t.to_traverse[j]).1 == x;
            if j > 0 {
                assert(rest[j - 1].1 == x);
            }
        }
        if queued(rest, x) {
            let j = choose|j: int| 0 <= j < rest.len() && (#[trigger] rest[j]).1 == x;
            assert(t.to_traverse[j + 1].1 == x);
        }
    }
    assert forall|j: int| 0 <= j < rest.len() implies g.has((#[trigger] rest[j]).1) by {
        assert(g.has(t.to_traverse[j + 1].1));
    }
    if stale {
        assert forall|i: int| 0 <= i < g.nodes.len() implies g.nodes[i].cleared()
            == out.graph.nodes[i].cleared() by {}
    } else {
        let visited = t.visited.insert(u.0);
        let marked = g.mark(u, t.arrival(u, true));
        g.lemma_mark_wf(u, t.arrival(u, true));
        if u != t.end_node {
            let edges = g.node(u).edges;
            let base = g.node(u).path_or_zero();
            let entries = edge_entries(g, visited, u, priority, edges, heuristic);
            let pushed = rest + entries;
            assert(g.nodes[u.0 as int].wf_at(u.0 as int, g.nodes.len()));
            assert(marked.nodes.len() == g.nodes.len());
            lemma_relax_edges_shape(marked, visited, u, base, edges);
            lemma_same_topology_trans(g, marked, out.graph);
            lemma_edge_entries(g, visited, u, priority, edges, heuristic);
            lemma_same_entries(out.run.to_traverse, pushed);
            assert forall|x: NodeIndex| #[trigger]
                queued(out.run.to_traverse, x) <==> queued(rest, x) || reached(g, t, x) by {
                lemma_queued_add(rest, entries, x);
            }
            assert forall|v: NodeIndex| #[trigger] reached(g, t, v) implies g.has(v) && hop(
                g,
                alg,
                u,
                v,
            ) && !out.run.visited.contains(v.0) by {
                let k = choose|k: int| 0 <= k < edges.len() && (#[trigger] edges[k]).other_end(u) == v;
                assert(edges[k].within(g.len()));
                assert(g.neighbors(u)[k] == v);
            }
            assert forall|v: NodeIndex|
                !stale && u != t.end_node && g.has(v) && #[trigger] hop(
                    g,
                    alg,
                    u,
                    v,
                ) implies out.run.visited.contains(v.0) || reached(g, t, v) by {
                assert(g.neighbors(u).contains(v));
                let k = choose|k: int| 0 <= k < g.neighbors(u).len() && g.neighbors(u)[k] == v;
                assert(edges[k].other_end(u) == v);
            }
            assert forall|j: int| 0 <= j < out.run.to_traverse.len() implies out.graph.has(
                (#[trigger] out.run.to_traverse[j]).1,
            ) by {
                let x = out.run.to_traverse[j].1;
                assert(queued(out.run.to_traverse, x));
                if queued(rest, x) {
                    let i = choose|i: int| 0 <= i < rest.len() && (#[trigger] rest[i]).1 == x;
                    assert(g.has(rest[i].1));
                } else {
                    assert(reached(g, t, x));
                }
            }
            assert forall|v: NodeIndex| g.has(v) && !reached(g, t, v) implies (
            #[trigger] out.graph.node(v)).from_node == g.node(v).from_node by {
                assert(out.graph.node(v) == marked.node(v));
            }
            assert forall|v: NodeIndex| g.has(v) && reached(g, t, v) implies (
            #[trigger] out.graph.node(v)).from_node == Some(u) || (out.graph.node(v).from_node
                == g.node(v).from_node && g.node(v).from_node is Some) by {
                let n = out.graph.node(v);
                assert(n.from_node == Some(u) || n.from_node == marked.node(v).from_node);
            }
            if reached(g, t, t.end_node) {
                assert(out.graph.node(t.end_node).state == NodeState::Seen);
            } else {
                assert(out.graph.node(t.end_node) == marked.node(t.end_node));
            }
        } else {
            assert forall|v: NodeIndex| g.has(v) && !reached(g, t, v) implies (
            #[trigger] out.graph.node(v)).from_node == g.node(v).from_node by {}
        }
    }
}

/// A step of a search by priority keeps what holds of every run.
pub proof fn lemma_priority_core(
    alg: GraphTraversers,
    g: GraphView,
    t: TraversalView,
    heuristic: bool,
    out: Outcome,
)
    requires
        priority_pre(alg, g, t),
        priority_step(g, t, heuristic, out),
    ensures
        core_inv(alg, out.graph, out.run),
{
    let u = t.head();
    let rest = t.to_traverse.drop_first();
    let stale = t.visited.contains(u.0);
    let h = out.graph;
    let s = out.run;
    lemma_priority_facts(alg, g, t, heuristic, out);
    lemma_hop_same(g, h, alg);
    assert(g.nodes.len() == h.nodes.len());
    assert forall|x: usize| #[trigger] s.visited.contains(x) implies x < h.len() by {}
    assert(s.visited.contains(s.start_node.0)) by {
        if !t.visited.contains(t.start_node.0) {
            assert(unstarted(g, t));
            assert(t.to_traverse[0].1 == t.start_node);
        }
    }
    assert forall|v: NodeIndex| known(t, v) implies known(s, v) by {
        if queued(t.to_traverse, v) {
            assert(v == u || queued(rest, v));
        }
    }
    assert forall|v: NodeIndex| h.has(v) implies #[trigger] pred_ok(alg, h, s, v) by {
        assert(pred_ok(alg, g, t, v));
        let n = h.node(v);
        if reached(g, t, v) {
            assert(hop(g, alg, u, v));
            assert(hop(h, alg, u, v));
            assert(n.from_node == Some(u) || (n.from_node == g.node(v).from_node && g.node(
                v,
            ).from_node is Some));
            if n.from_node != Some(u) {
                let p = g.node(v).from_node->0;
                assert(hop(g, alg, p, v));
                assert(hop(h, alg, p, v));
            }
        } else {
            assert(n.from_node == g.node(v).from_node);
            match g.node(v).from_node {
                Some(p) => {
                    assert(hop(g, alg, p, v));
                    assert(hop(h, alg, p, v));
                },
                None => {
                    if known(s, v) {
                        if s.visited.contains(v.0) {
                            if !t.visited.contains(v.0) {
                                assert(v.0 == u.0);
                                assert(v == u);
                                assert(queued(t.to_traverse, v));
                            }
                        } else {
                            assert(queued(s.to_traverse, v));
                            assert(queued(rest, v));
                            assert(queued(t.to_traverse, v));
                        }
                        assert(known(t, v));
                    }
                },
            }
        }
    }
    assert forall|w: NodeIndex|
        h.has(w) && s.visited.contains(w.0) && w != s.end_node implies #[trigger] expanded(
        alg,
        h,
        s,
        w,
    ) by {
        assert forall|v: NodeIndex| h.has(v) && #[trigger] hop(h, alg, w, v) implies known(s, v) by {
            assert(hop(g, alg, w, v));
            if !t.visited.contains(w.0) {
                assert(w.0 == u.0);
                assert(w == u);
                assert(s.visited.contains(v.0) || reached(g, t, v));
                assert(queued(s.to_traverse, v) <==> queued(rest, v) || reached(g, t, v));
            } else {
                assert(expanded(alg, g, t, w));
                assert(known(t, v));
            }
        }
    }
    assert(h.node(s.end_node).state == NodeState::End <==> s.visited.contains(s.end_node.0)) by {
        if u != t.end_node {
            assert(u.0 != t.end_node.0);
        }
    }
    let rank = choose|rank: Map<usize, nat>| ranked(g, t, rank);
    if stale {
        assert(ranked(h, s, rank)) by {
            assert forall|v: NodeIndex| h.has(v) && #[trigger] s.visited.contains(v.0) implies rank[v.0]
                < s.visited.len() && (h.node(v).from_node matches Some(p) ==> rank[p.0]
                < rank[v.0]) by {
                assert(!reached(g, t, v));
                assert(h.node(v).from_node == g.node(v).from_node);
            }
        }
    } else {
        let next = rank.insert(u.0, t.visited.len());
        assert(ranked(h, s, next)) by {
            assert forall|v: NodeIndex| h.has(v) && #[trigger] s.visited.contains(v.0) implies next[v.0]
                < s.visited.len() && (h.node(v).from_node matches Some(p) ==> next[p.0]
                < next[v.0]) by {
                assert(!reached(g, t, v));
                assert(h.node(v).from_node == g.node(v).from_node);
                assert(pred_ok(alg, g, t, v));
                if v.0 != u.0 {
                    assert(t.visited.contains(v.0));
                }
                match g.node(v).from_node {
                    Some(p) => {
                        assert(t.visited.contains(p.0));
                        assert(p.0 != u.0);
                    },
                    None => {},
                }
            }
        }
    }
}

} // verus!
