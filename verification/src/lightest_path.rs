use crate::fewest_hops::dist;
use crate::frontier::ascending;
use crate::frontier::lemma_same_entries;
use crate::frontier::queued;
use crate::graph::lemma_lightest_to;
use crate::graph::lemma_push_contains;
use crate::graph::lightest_to;
use crate::graph::Edge;
use crate::graph::GraphView;
use crate::graph::NodeIndex;
use crate::priority_search::lemma_priority_facts;
use crate::priority_search::lemma_relax_edges_shape;
use crate::priority_search::lemma_touched_last;
use crate::priority_search::reached;
use crate::priority_search::touched;
use crate::search::core_inv;
use crate::search::expanded;
use crate::search::hop;
use crate::search::known;
use crate::search::lemma_add_contains;
use crate::search::lemma_bounded_set;
use crate::search::pred_ok;
use crate::search::ranked;
use crate::search::unstarted;
use crate::traversers::edge_entries;
use crate::traversers::priority_step;
use crate::traversers::relax_edges;
use crate::traversers::GraphTraversers;
use crate::traversers::Outcome;
use crate::traversers::TraversalView;
use vstd::prelude::*;

verus! {

/// The path length that the edge `e` offers to its far end when the near
/// end has the path length `base`.
pub open spec fn offer(base: u64, e: Edge) -> u64 {
    base.saturating_add(e.weight())
}

/// What relaxing `edges` from `u` has made of the touched node `v`: it
/// has a path length, no longer than any of the edges to it offers nor
/// than the one it had; and it has kept its predecessor and path length,
/// or has taken `u` and the offer of one of the edges.
pub open spec fn settled(
    g: GraphView,
    r: GraphView,
    u: NodeIndex,
    base: u64,
    edges: Seq<Edge>,
    v: NodeIndex,
) -> bool {
    let was = g.node(v);
    let now = r.node(v);
    &&& now.curr_path is Some
    &&& forall|k: int|
        0 <= k < edges.len() && (#[trigger] edges[k]).other_end(u) == v ==> now.curr_path->0 <= offer(
            base,
            edges[k],
        )
    &&& was.curr_path matches Some(l) ==> now.curr_path->0 <= l
    &&& (was.from_node is Some && now.from_node == was.from_node && now.curr_path == was.curr_path)
        || (now.from_node == Some(u) && exists|k: int|
        0 <= k < edges.len() && (#[trigger] edges[k]).other_end(u) == v && now.curr_path == Some(
            offer(base, edges[k]),
        ))
}

/// Relaxing the edges of `u` settles every touched node.
pub proof fn lemma_relax_edges_lengths(
    g: GraphView,
    visited: Set<usize>,
    u: NodeIndex,
    base: u64,
    edges: Seq<Edge>,
)
    requires
        g.wf(),
        g.has(u),
        forall|k: int| 0 <= k < edges.len() ==> (#[trigger] edges[k]).within(g.len()),
    ensures
        forall|v: NodeIndex|
            g.has(v) && touched(visited, u, edges, v) ==> #[trigger] settled(
                g,
                relax_edges(g, visited, u, base, edges),
                u,
                base,
                edges,
                v,
            ),
    decreases edges.len(),
{
    let r = relax_edges(g, visited, u, base, edges);
    if edges.len() > 0 {
        let front = edges.drop_last();
        let e = edges.last();
        let w = e.other_end(u);
        let c = offer(base, e);
        let before = relax_edges(g, visited, u, base, front);
        assert forall|k: int| 0 <= k < front.len() implies (#[trigger] front[k]).within(g.len()) by {
            assert(front[k] == edges[k]);
        }
        lemma_relax_edges_lengths(g, visited, u, base, front);
        lemma_relax_edges_shape(g, visited, u, base, front);
        assert(edges[edges.len() - 1].within(g.len()));
        assert(before.nodes.len() == g.nodes.len());
        assert forall|v: NodeIndex| g.has(v) && touched(visited, u, edges, v) implies #[trigger] settled(
            g,
            r,
            u,
            base,
            edges,
            v,
        ) by {
            lemma_touched_last(visited, u, edges, v);
            let was = g.node(v);
            let mid = before.node(v);
            let now = r.node(v);
            assert(g.nodes[v.0 as int].wf_at(v.0 as int, g.nodes.len()));
            assert(was.paired());
            if touched(visited, u, front, v) {
                assert(settled(g, before, u, base, front, v));
                assert(mid.from_node is Some);
            } else {
                assert(mid == was);
                assert(w == v);
            }
            if w == v {
                // the last edge leads to `v`
                assert(now == before.relax(v, u, c).node(v));
                assert forall|k: int|
                    0 <= k < edges.len() && (#[trigger] edges[k]).other_end(u)
                        == v implies now.curr_path->0 <= offer(base, edges[k]) by {
                    if k < front.len() {
                        assert(front[k] == edges[k]);
                        assert(touched(visited, u, front, v));
                    }
                }
                if now.from_node == Some(u) && now.curr_path == Some(c) {
                    assert(edges[edges.len() - 1].other_end(u) == v);
                } else {
                    assert(now.from_node == mid.from_node && now.curr_path == mid.curr_path);
                    if touched(visited, u, front, v) {
                        if !(was.from_node is Some && mid.from_node == was.from_node && mid.curr_path
                            == was.curr_path) {
                            let k = choose|k: int|
                                0 <= k < front.len() && (#[trigger] front[k]).other_end(u) == v
                                    && mid.curr_path == Some(offer(base, front[k]));
                            assert(edges[k] == front[k]);
                        }
                    }
                }
            } else {
                assert(now == mid);
                assert forall|k: int|
                    0 <= k < edges.len() && (#[trigger] edges[k]).other_end(u)
                        == v implies now.curr_path->0 <= offer(base, edges[k]) by {
                    assert(k < front.len());
                    assert(front[k] == edges[k]);
                }
                if !(was.from_node is Some && mid.from_node == was.from_node && mid.curr_path
                    == was.curr_path) {
                    let k = choose|k: int|
                        0 <= k < front.len() && (#[trigger] front[k]).other_end(u) == v
                            && mid.curr_path == Some(offer(base, front[k]));
                    assert(edges[k] == front[k]);
                }
            }
        }
    }
}

/// The entries that Dijkstra's search makes for the edges of `u`: one
/// for each edge to a node that is not visited, with the offer of that
/// edge as priority.
pub proof fn lemma_offers_queued(
    g: GraphView,
    visited: Set<usize>,
    u: NodeIndex,
    priority: u64,
    edges: Seq<Edge>,
)
    ensures
        forall|k: int|
            0 <= k < edges.len() && !visited.contains((#[trigger] edges[k]).other_end(u).0)
                ==> edge_entries(g, visited, u, priority, edges, false).contains(
                (offer(priority, edges[k]), edges[k].other_end(u)),
            ),
        forall|j: int|
            0 <= j < edge_entries(g, visited, u, priority, edges, false).len() ==> exists|k: int|
                0 <= k < edges.len() && !visited.contains((#[trigger] edges[k]).other_end(u).0)
                    && #[trigger] edge_entries(g, visited, u, priority, edges, false)[j] == (
                    offer(priority, edges[k]),
                    edges[k].other_end(u),
                ),
    decreases edges.len(),
{
    let entries = edge_entries(g, visited, u, priority, edges, false);
    if edges.len() > 0 {
        let front = edges.drop_last();
        let e = edges.last();
        let w = e.other_end(u);
        let before = edge_entries(g, visited, u, priority, front, false);
        lemma_offers_queued(g, visited, u, priority, front);
        assert forall|k: int|
            0 <= k < edges.len() && !visited.contains(
                (#[trigger] edges[k]).other_end(u).0,
            ) implies entries.contains((offer(priority, edges[k]), edges[k].other_end(u))) by {
            let x = (offer(priority, edges[k]), edges[k].other_end(u));
            if k < front.len() {
                assert(front[k] == edges[k]);
                assert(before.contains(x));
                if !visited.contains(w.0) {
                    lemma_push_contains(before, (offer(priority, e), w), x);
                }
            } else {
                lemma_push_contains(before, (offer(priority, e), w), x);
            }
        }
        assert forall|j: int| 0 <= j < entries.len() implies exists|k: int|
            0 <= k < edges.len() && !visited.contains((#[trigger] edges[k]).other_end(u).0)
                && #[trigger] entries[j] == (offer(priority, edges[k]), edges[k].other_end(u)) by {
            if j < before.len() {
                assert(entries[j] == before[j]);
                let k = choose|k: int|
                    0 <= k < front.len() && !visited.contains((#[trigger] front[k]).other_end(u).0)
                        && before[j] == (offer(priority, front[k]), front[k].other_end(u));
                assert(edges[k] == front[k]);
            } else {
                assert(edges[edges.len() - 1] == e);
            }
        }
    }
}

/// An entry of a node that is not visited has a priority no lower than
/// the path length of the node.
pub open spec fn entry_ok(g: GraphView, t: TraversalView, j: int) -> bool {
    !t.visited.contains(t.to_traverse[j].1.0) ==> dist(g, t.to_traverse[j].1) <= t.to_traverse[j].0
}

/// The frontier holds an entry for `v` with the path length of `v` as
/// priority.
pub open spec fn has_entry(g: GraphView, t: TraversalView, v: NodeIndex) -> bool {
    t.to_traverse.contains((g.node(v).path_or_zero(), v))
}

/// The run has come across `v` and has not finalized it.
pub open spec fn pending(g: GraphView, t: TraversalView, v: NodeIndex) -> bool {
    !t.visited.contains(v.0) && (g.node(v).from_node is Some || queued(t.to_traverse, v))
}

/// The path length of a node with a predecessor is what an edge from the
/// predecessor offers.
pub open spec fn pred_edge(g: GraphView, v: NodeIndex) -> bool {
    g.node(v).from_node matches Some(q) ==> exists|k: int|
        0 <= k < g.node(q).edges.len() && (#[trigger] g.node(q).edges[k]).other_end(q) == v && g.node(
            v,
        ).curr_path == Some(offer(g.node(q).path_or_zero(), g.node(q).edges[k]))
}

/// No edge of `u` offers its far end less than the path length the far
/// end has.
pub open spec fn edges_relaxed(g: GraphView, u: NodeIndex) -> bool {
    forall|k: int|
        0 <= k < g.node(u).edges.len() ==> dist(g, (#[trigger] g.node(u).edges[k]).other_end(u))
            <= offer(g.node(u).path_or_zero(), g.node(u).edges[k])
}

/// What holds of a run of Dijkstra's search beyond what holds of every
/// run.
pub open spec fn dijkstra_inv(g: GraphView, t: TraversalView) -> bool {
    &&& ascending(t.to_traverse)
    &&& forall|j: int| 0 <= j < t.to_traverse.len() ==> #[trigger] entry_ok(g, t, j)
    &&& forall|v: NodeIndex| g.has(v) && #[trigger] pending(g, t, v) ==> has_entry(g, t, v)
    &&& forall|v: NodeIndex, j: int|
        g.has(v) && #[trigger] t.visited.contains(v.0) && 0 <= j < t.to_traverse.len() ==> dist(g, v)
            <= (#[trigger] t.to_traverse[j]).0
    &&& forall|v: NodeIndex| g.has(v) ==> #[trigger] pred_edge(g, v)
    &&& forall|u: NodeIndex|
        g.has(u) && t.visited.contains(u.0) && u != t.end_node ==> #[trigger] edges_relaxed(g, u)
}

/// A run that has not taken a step satisfies what holds of a run of
/// Dijkstra's search.
pub proof fn lemma_fresh_dijkstra(g: GraphView, start_node: NodeIndex, end_node: NodeIndex)
    requires
        g.wf(),
        g.is_reset(),
        g.has(start_node),
    ensures
        dijkstra_inv(g, TraversalView::fresh(start_node, end_node)),
{
    let t = TraversalView::fresh(start_node, end_node);
    assert forall|v: NodeIndex| g.has(v) implies dist(g, v) == 0 && #[trigger] pred_edge(g, v) by {
        assert(g.nodes[v.0 as int].curr_path is None);
        assert(g.nodes[v.0 as int].from_node is None);
    }
    assert forall|v: NodeIndex| g.has(v) && #[trigger] pending(g, t, v) implies has_entry(g, t, v) by {
        assert(g.nodes[v.0 as int].from_node is None);
        let j = choose|j: int| 0 <= j < t.to_traverse.len() && (#[trigger] t.to_traverse[j]).1 == v;
        assert(t.to_traverse[0] == (g.node(v).path_or_zero(), v));
    }
}

/// A step of Dijkstra's search keeps what holds of a run of Dijkstra's
/// search.
pub proof fn lemma_dijkstra_step(g: GraphView, t: TraversalView, out: Outcome)
    requires
        core_inv(GraphTraversers::Dijkstras, g, t),
        dijkstra_inv(g, t),
        t.to_traverse.len() > 0,
        priority_step(g, t, false, out),
    ensures
        dijkstra_inv(out.graph, out.run),
{
    let alg = GraphTraversers::Dijkstras;
    let h = out.graph;
    let s = out.run;
    let u = t.head();
    let p = t.to_traverse[0].0;
    let rest = t.to_traverse.drop_first();
    let stale = t.visited.contains(u.0);
    lemma_priority_facts(alg, g, t, false, out);
    assert(g.nodes.len() == h.nodes.len());
    assert forall|j: int| 0 <= j < rest.len() implies #[trigger] rest[j] == t.to_traverse[j + 1] by {}
    assert forall|x: (u64, NodeIndex)| rest.contains(x) implies t.to_traverse.contains(x) by {
        let i = choose|i: int| 0 <= i < rest.len() && rest[i] == x;
        assert(t.to_traverse[i + 1] == x);
    }
    assert forall|x: (u64, NodeIndex)| t.to_traverse.contains(x) && x.1 != u implies rest.contains(
        x,
    ) by {
        let i = choose|i: int| 0 <= i < t.to_traverse.len() && t.to_traverse[i] == x;
        assert(i > 0);
        assert(rest[i - 1] == x);
    }
    assert forall|v: NodeIndex| g.has(v) implies (#[trigger] h.node(v)).edges == g.node(v).edges by {
        assert(g.nodes[v.0 as int].cleared() == h.nodes[v.0 as int].cleared());
    }
    if stale {
        assert forall|j: int| 0 <= j < s.to_traverse.len() implies #[trigger] entry_ok(h, s, j) by {
            assert(entry_ok(g, t, j + 1));
        }
        assert forall|v: NodeIndex| h.has(v) && #[trigger] pending(h, s, v) implies has_entry(
            h,
            s,
            v,
        ) by {
            if queued(rest, v) {
                assert(queued(t.to_traverse, v));
            }
            assert(pending(g, t, v));
            assert(v != u);
        }
        assert forall|v: NodeIndex, j: int|
            h.has(v) && #[trigger] s.visited.contains(v.0) && 0 <= j < s.to_traverse.len() implies dist(
            h,
            v,
        ) <= (#[trigger] s.to_traverse[j]).0 by {
            assert(dist(g, v) <= t.to_traverse[j + 1].0);
        }
        assert forall|v: NodeIndex| h.has(v) implies #[trigger] pred_edge(h, v) by {
            assert(pred_edge(g, v));
        }
        assert forall|w: NodeIndex|
            h.has(w) && s.visited.contains(w.0) && w != s.end_node implies #[trigger] edges_relaxed(
            h,
            w,
        ) by {
            assert(edges_relaxed(g, w));
        }
    } else {
        let visited = t.visited.insert(u.0);
        let marked = g.mark(u, t.arrival(u, true));
        let du = g.node(u).path_or_zero();
        // the head has its path length as priority
        assert(entry_ok(g, t, 0));
        assert(queued(t.to_traverse, u));
        assert(pending(g, t, u));
        assert(has_entry(g, t, u));
        let at = choose|i: int| 0 <= i < t.to_traverse.len() && t.to_traverse[i] == (du, u);
        assert(t.to_traverse[0].0 <= t.to_traverse[at].0);
        assert(p == du);
        assert(s.visited.contains(t.start_node.0)) by {
            if !t.visited.contains(t.start_node.0) {
                assert(unstarted(g, t));
                assert(t.to_traverse[0].1 == t.start_node);
            }
        }
        if u == t.end_node {
            assert forall|v: NodeIndex| g.has(v) implies (#[trigger] h.node(v)).curr_path == g.node(
                v,
            ).curr_path && h.node(v).from_node == g.node(v).from_node by {}
            assert forall|j: int| 0 <= j < s.to_traverse.len() implies #[trigger] entry_ok(h, s, j) by {
                assert(entry_ok(g, t, j + 1));
                assert(h.has(s.to_traverse[j].1));
            }
            assert forall|v: NodeIndex| h.has(v) && #[trigger] pending(h, s, v) implies has_entry(
                h,
                s,
                v,
            ) by {
                if queued(rest, v) {
                    assert(queued(t.to_traverse, v));
                }
                assert(pending(g, t, v));
                assert(v != u);
            }
            assert forall|v: NodeIndex, j: int|
                h.has(v) && #[trigger] s.visited.contains(v.0) && 0 <= j
                    < s.to_traverse.len() implies dist(h, v) <= (#[trigger] s.to_traverse[j]).0 by {
                if v.0 == u.0 {
                    assert(v == u);
                    assert(t.to_traverse[0].0 <= t.to_traverse[j + 1].0);
                } else {
                    assert(t.visited.contains(v.0));
                    assert(dist(g, v) <= t.to_traverse[j + 1].0);
                }
            }
            assert forall|v: NodeIndex| h.has(v) implies #[trigger] pred_edge(h, v) by {
                assert(pred_edge(g, v));
                match g.node(v).from_node {
                    Some(q) => {
                        assert(pred_ok(alg, g, t, v));
                        assert(h.node(q).curr_path == g.node(q).curr_path);
                        assert(h.node(q).edges == g.node(q).edges);
                    },
                    None => {},
                }
            }
            assert forall|w: NodeIndex|
                h.has(w) && s.visited.contains(w.0) && w != s.end_node implies #[trigger] edges_relaxed(
                h,
                w,
            ) by {
                assert(w.0 != u.0);
                assert(edges_relaxed(g, w));
                assert(g.nodes[w.0 as int].wf_at(w.0 as int, g.nodes.len()));
                assert forall|k: int| 0 <= k < h.node(w).edges.len() implies dist(
                    h,
                    (#[trigger] h.node(w).edges[k]).other_end(w),
                ) <= offer(h.node(w).path_or_zero(), h.node(w).edges[k]) by {
                    let e = g.node(w).edges[k];
                    assert(e.within(g.len()));
                    assert(h.node(e.other_end(w)).curr_path == g.node(e.other_end(w)).curr_path);
                }
            }
        } else {
            lemma_dijkstra_expand(g, t, out);
        }
    }
}

/// The step of Dijkstra's search that expands a node keeps what holds of
/// a run of Dijkstra's search.
pub proof fn lemma_dijkstra_expand(g: GraphView, t: TraversalView, out: Outcome)
    requires
        core_inv(GraphTraversers::Dijkstras, g, t),
        dijkstra_inv(g, t),
        t.to_traverse.len() > 0,
        priority_step(g, t, false, out),
        !t.visited.contains(t.head().0),
        t.head() != t.end_node,
        t.to_traverse[0].0 == g.node(t.head()).path_or_zero(),
    ensures
        dijkstra_inv(out.graph, out.run),
{
    let alg = GraphTraversers::Dijkstras;
    let h = out.graph;
    let s = out.run;
    let u = t.head();
    let du = g.node(u).path_or_zero();
    let rest = t.to_traverse.drop_first();
    let visited = t.visited.insert(u.0);
    let marked = g.mark(u, t.arrival(u, true));
    let edges = g.node(u).edges;
    let entries = edge_entries(g, visited, u, du, edges, false);
    let pushed = rest + entries;
    lemma_priority_facts(alg, g, t, false, out);
    g.lemma_mark_wf(u, t.arrival(u, true));
    assert(g.nodes[u.0 as int].wf_at(u.0 as int, g.nodes.len()));
    assert(marked.nodes.len() == g.nodes.len());
    assert(g.nodes.len() == h.nodes.len());
    lemma_relax_edges_shape(marked, visited, u, du, edges);
    lemma_relax_edges_lengths(marked, visited, u, du, edges);
    lemma_offers_queued(g, visited, u, du, edges);
    lemma_same_entries(s.to_traverse, pushed);
    assert forall|j: int| 0 <= j < rest.len() implies #[trigger] rest[j] == t.to_traverse[j + 1] by {}
    assert forall|x: (u64, NodeIndex)| t.to_traverse.contains(x) && x.1 != u implies rest.contains(
        x,
    ) by {
        let i = choose|i: int| 0 <= i < t.to_traverse.len() && t.to_traverse[i] == x;
        assert(i > 0);
        assert(rest[i - 1] == x);
    }
    assert forall|x: (u64, NodeIndex)| #[trigger] s.to_traverse.contains(x) <==> rest.contains(x)
        || entries.contains(x) by {
        lemma_add_contains(rest, entries, x);
    }
    assert(s.visited.contains(t.start_node.0)) by {
        if !t.visited.contains(t.start_node.0) {
            assert(unstarted(g, t));
            assert(t.to_traverse[0].1 == t.start_node);
        }
    }
    assert forall|v: NodeIndex| g.has(v) implies (#[trigger] h.node(v)).edges == g.node(v).edges by {
        assert(g.nodes[v.0 as int].cleared() == h.nodes[v.0 as int].cleared());
    }
    // nodes that the step does not touch keep their marks
    assert forall|v: NodeIndex| g.has(v) && !touched(visited, u, edges, v) implies (
    #[trigger] h.node(v)).curr_path == g.node(v).curr_path && h.node(v).from_node == g.node(
        v,
    ).from_node by {
        assert(h.node(v) == marked.node(v));
    }
    // nodes that it touches have a path length, no longer than before
    assert forall|v: NodeIndex| g.has(v) && touched(visited, u, edges, v) implies settled(
        marked,
        h,
        u,
        du,
        edges,
        v,
    ) && marked.node(v).curr_path == g.node(v).curr_path && marked.node(v).from_node == g.node(
        v,
    ).from_node && #[trigger] dist(h, v) == h.node(v).curr_path->0 by {
        assert(settled(marked, h, u, du, edges, v));
    }
    assert forall|v: NodeIndex|
        g.has(v) && !s.visited.contains(v.0) && (g.node(v).from_node is Some || queued(
            t.to_traverse,
            v,
        )) implies #[trigger] dist(h, v) <= dist(g, v) by {
        assert(pred_ok(alg, g, t, v));
        assert(g.nodes[v.0 as int].wf_at(v.0 as int, g.nodes.len()));
        assert(g.node(v).from_node is Some);
        if touched(visited, u, edges, v) {
            assert(settled(marked, h, u, du, edges, v));
        }
    }
    assert forall|j: int| 0 <= j < s.to_traverse.len() implies #[trigger] entry_ok(h, s, j) by {
        let x = s.to_traverse[j];
        assert(s.to_traverse.contains(x));
        assert(h.has(x.1));
        if !s.visited.contains(x.1.0) {
            if rest.contains(x) {
                let i = choose|i: int| 0 <= i < rest.len() && rest[i] == x;
                assert(entry_ok(g, t, i + 1));
                assert(queued(t.to_traverse, x.1));
                assert(dist(h, x.1) <= dist(g, x.1));
            } else {
                let i = choose|i: int| 0 <= i < entries.len() && entries[i] == x;
                let k = choose|k: int|
                    0 <= k < edges.len() && !visited.contains((#[trigger] edges[k]).other_end(u).0)
                        && entries[i] == (offer(du, edges[k]), edges[k].other_end(u));
                assert(touched(visited, u, edges, x.1));
                assert(settled(marked, h, u, du, edges, x.1));
            }
        }
    }
    assert forall|v: NodeIndex| h.has(v) && #[trigger] pending(h, s, v) implies has_entry(h, s, v) by {
        if touched(visited, u, edges, v) {
            assert(settled(marked, h, u, du, edges, v));
            let was = marked.node(v);
            let now = h.node(v);
            if was.from_node is Some && now.from_node == was.from_node && now.curr_path
                == was.curr_path {
                assert(pending(g, t, v));
                assert(has_entry(g, t, v));
                assert(rest.contains((g.node(v).path_or_zero(), v)));
            } else {
                let k = choose|k: int|
                    0 <= k < edges.len() && (#[trigger] edges[k]).other_end(u) == v && now.curr_path
                        == Some(offer(du, edges[k]));
                assert(entries.contains((offer(du, edges[k]), edges[k].other_end(u))));
            }
        } else {
            assert(!reached(g, t, v));
            if queued(s.to_traverse, v) {
                assert(queued(rest, v));
                assert(queued(t.to_traverse, v));
            }
            assert(pending(g, t, v));
            assert(has_entry(g, t, v));
            assert(rest.contains((g.node(v).path_or_zero(), v)));
        }
    }
    assert forall|v: NodeIndex, j: int|
        h.has(v) && #[trigger] s.visited.contains(v.0) && 0 <= j < s.to_traverse.len() implies dist(
        h,
        v,
    ) <= (#[trigger] s.to_traverse[j]).0 by {
        let x = s.to_traverse[j];
        assert(s.to_traverse.contains(x));
        assert(!touched(visited, u, edges, v));
        assert(dist(h, v) == dist(g, v));
        assert(dist(g, v) <= du) by {
            if v.0 == u.0 {
                assert(v == u);
            } else {
                assert(t.visited.contains(v.0));
                assert(dist(g, v) <= t.to_traverse[0].0);
            }
        }
        if rest.contains(x) {
            let i = choose|i: int| 0 <= i < rest.len() && rest[i] == x;
            assert(t.to_traverse[0].0 <= t.to_traverse[i + 1].0);
        } else {
            let i = choose|i: int| 0 <= i < entries.len() && entries[i] == x;
            let k = choose|k: int|
                0 <= k < edges.len() && !visited.contains((#[trigger] edges[k]).other_end(u).0)
                    && entries[i] == (offer(du, edges[k]), edges[k].other_end(u));
        }
    }
    assert forall|v: NodeIndex| h.has(v) implies #[trigger] pred_edge(h, v) by {
        assert(pred_edge(g, v));
        assert(pred_ok(alg, g, t, v));
        assert(!touched(visited, u, edges, u));
        assert(h.node(u).path_or_zero() == du);
        if touched(visited, u, edges, v) {
            assert(settled(marked, h, u, du, edges, v));
        }
        match h.node(v).from_node {
            Some(q) => {
                if h.node(v).from_node == g.node(v).from_node && h.node(v).curr_path == g.node(
                    v,
                ).curr_path {
                    assert(t.visited.contains(q.0));
                    assert(!touched(visited, u, edges, q));
                    assert(h.node(q).curr_path == g.node(q).curr_path);
                    assert(h.node(q).edges == g.node(q).edges);
                    let k = choose|k: int|
                        0 <= k < g.node(q).edges.len() && (#[trigger] g.node(q).edges[k]).other_end(q)
                            == v && g.node(v).curr_path == Some(
                            offer(g.node(q).path_or_zero(), g.node(q).edges[k]),
                        );
                    assert(h.node(q).edges[k].other_end(q) == v);
                } else {
                    assert(touched(visited, u, edges, v));
                    assert(q == u);
                    let k = choose|k: int|
                        0 <= k < edges.len() && (#[trigger] edges[k]).other_end(u) == v && h.node(
                            v,
                        ).curr_path == Some(offer(du, edges[k]));
                    assert(h.node(u).edges[k].other_end(u) == v);
                }
            },
            None => {},
        }
    }
    assert forall|w: NodeIndex|
        h.has(w) && s.visited.contains(w.0) && w != s.end_node implies #[trigger] edges_relaxed(
        h,
        w,
    ) by {
        assert(!touched(visited, u, edges, w));
        assert(h.node(w).curr_path == g.node(w).curr_path);
        assert(g.nodes[w.0 as int].wf_at(w.0 as int, g.nodes.len()));
        assert forall|k: int| 0 <= k < h.node(w).edges.len() implies dist(
            h,
            (#[trigger] h.node(w).edges[k]).other_end(w),
        ) <= offer(h.node(w).path_or_zero(), h.node(w).edges[k]) by {
            let e = g.node(w).edges[k];
            let v = e.other_end(w);
            assert(e.within(g.len()));
            assert(g.has(v));
            if w.0 == u.0 {
                assert(w == u);
                assert(edges[k] == e);
                if s.visited.contains(v.0) {
                    assert(!touched(visited, u, edges, v));
                    if v.0 == u.0 {
                        assert(v == u);
                    } else {
                        assert(t.visited.contains(v.0));
                        assert(dist(g, v) <= t.to_traverse[0].0);
                    }
                } else {
                    assert(touched(visited, u, edges, v));
                    assert(settled(marked, h, u, du, edges, v));
                }
            } else {
                assert(t.visited.contains(w.0));
                assert(edges_relaxed(g, w));
                if touched(visited, u, edges, v) {
                    assert(g.neighbors(w)[k] == v);
                    assert(hop(g, alg, w, v));
                    assert(expanded(alg, g, t, w));
                    assert(known(t, v));
                    assert(queued(t.to_traverse, v));
                    assert(dist(h, v) <= dist(g, v));
                }
            }
        }
    }
}

/// Where a route that starts at `from` and follows `route` edge by edge
/// ends.
pub open spec fn route_end(from: NodeIndex, route: Seq<Edge>) -> NodeIndex
    decreases route.len(),
{
    if route.len() == 0 {
        from
    } else {
        route.last().other_end(route_end(from, route.drop_last()))
    }
}

/// `route` is a route through `g` from `from`: each edge is in the list
/// of the node that the edges before it lead to.
pub open spec fn is_route(g: GraphView, from: NodeIndex, route: Seq<Edge>) -> bool
    decreases route.len(),
{
    if route.len() == 0 {
        g.has(from)
    } else {
        is_route(g, from, route.drop_last()) && g.node(
            route_end(from, route.drop_last()),
        ).edges.contains(route.last())
    }
}

/// The weights of the edges of a route, added up.
pub open spec fn route_weight(route: Seq<Edge>) -> int
    decreases route.len(),
{
    if route.len() == 0 {
        0
    } else {
        route_weight(route.drop_last()) + route.last().weight()
    }
}

/// A route through a well-formed graph ends at a node of the graph, and
/// its weight is not negative.
pub proof fn lemma_route_within(g: GraphView, from: NodeIndex, route: Seq<Edge>)
    requires
        g.wf(),
        is_route(g, from, route),
    ensures
        g.has(route_end(from, route)),
        route_weight(route) >= 0,
    decreases route.len(),
{
    if route.len() > 0 {
        let front = route.drop_last();
        lemma_route_within(g, from, front);
        let x = route_end(from, front);
        let k = choose|k: int| 0 <= k < g.node(x).edges.len() && g.node(x).edges[k] == route.last();
        assert(g.nodes[x.0 as int].wf_at(x.0 as int, g.nodes.len()));
        assert(g.node(x).edges[k].within(g.len()));
    }
}

/// Once Dijkstra's search has finalized the goal, the path length of the
/// goal, or that of the node where a route from the start ends, is no
/// more than the weight of the route.
pub proof fn lemma_route_bound(g: GraphView, t: TraversalView, route: Seq<Edge>)
    requires
        core_inv(GraphTraversers::Dijkstras, g, t),
        dijkstra_inv(g, t),
        t.visited.contains(t.end_node.0),
        is_route(g, t.start_node, route),
    ensures
        dist(g, t.end_node) <= route_weight(route) || (t.visited.contains(
            route_end(t.start_node, route).0,
        ) && dist(g, route_end(t.start_node, route)) <= route_weight(route)),
    decreases route.len(),
{
    let alg = GraphTraversers::Dijkstras;
    if route.len() == 0 {
        assert(!unstarted(g, t));
        assert(pred_ok(alg, g, t, t.start_node));
        assert(g.nodes[t.start_node.0 as int].wf_at(t.start_node.0 as int, g.nodes.len()));
    } else {
        let front = route.drop_last();
        let e = route.last();
        let x = route_end(t.start_node, front);
        let y = e.other_end(x);
        lemma_route_bound(g, t, front);
        lemma_route_within(g, t.start_node, front);
        lemma_route_within(g, t.start_node, route);
        if dist(g, t.end_node) > route_weight(route) {
            assert(x != t.end_node);
            assert(edges_relaxed(g, x));
            let k = choose|k: int| 0 <= k < g.node(x).edges.len() && g.node(x).edges[k] == e;
            assert(dist(g, g.node(x).edges[k].other_end(x)) <= offer(
                g.node(x).path_or_zero(),
                g.node(x).edges[k],
            ));
            assert(dist(g, y) <= route_weight(route));
            if !t.visited.contains(y.0) {
                assert(g.nodes[x.0 as int].wf_at(x.0 as int, g.nodes.len()));
                assert(g.neighbors(x)[k] == y);
                assert(hop(g, alg, x, y));
                assert(expanded(alg, g, t, x));
                assert(known(t, y));
                assert(pending(g, t, y));
                assert(has_entry(g, t, y));
                let j = choose|j: int|
                    0 <= j < t.to_traverse.len() && t.to_traverse[j] == (g.node(y).path_or_zero(), y);
                assert(dist(g, t.end_node) <= t.to_traverse[j].0);
            }
        }
    }
}

/// The reconstructed path to a finalized node whose path length is below
/// the largest number, read from its far end, is a route from the start
/// to the node, and weighs what the path length says.
pub proof fn lemma_path_is_route(
    g: GraphView,
    t: TraversalView,
    rank: Map<usize, nat>,
    v: NodeIndex,
    fuel: nat,
)
    requires
        forall|x: NodeIndex| g.has(x) ==> #[trigger] pred_ok(GraphTraversers::Dijkstras, g, t, x),
        forall|x: NodeIndex| g.has(x) ==> #[trigger] pred_edge(g, x),
        forall|x: NodeIndex| g.has(x) ==> (#[trigger] g.node(x)).paired(),
        forall|u: NodeIndex|
            g.has(u) && t.visited.contains(u.0) && u != t.end_node ==> #[trigger] edges_relaxed(g, u),
        ranked(g, t, rank),
        g.has(v),
        t.visited.contains(v.0),
        rank[v.0] < fuel,
        dist(g, v) < u64::MAX,
    ensures
        is_route(g, t.start_node, g.path_back(v, fuel).reverse()),
        route_end(t.start_node, g.path_back(v, fuel).reverse()) == v,
        route_weight(g.path_back(v, fuel).reverse()) == dist(g, v),
    decreases fuel,
{
    let alg = GraphTraversers::Dijkstras;
    let path = g.path_back(v, fuel);
    let route = path.reverse();
    assert(pred_ok(alg, g, t, v));
    assert(pred_edge(g, v));
    assert(g.node(v).paired());
    match g.node(v).from_node {
        Some(q) => {
            assert(rank[q.0] < rank[v.0]);
            let edges = g.node(q).edges;
            let k = choose|k: int|
                0 <= k < edges.len() && (#[trigger] g.node(q).edges[k]).other_end(q) == v && g.node(
                    v,
                ).curr_path == Some(offer(g.node(q).path_or_zero(), g.node(q).edges[k]));
            assert(dist(g, q) + edges[k].weight() == dist(g, v));
            lemma_lightest_to(edges, q, v);
            let e = g.link(q, v);
            assert(lightest_to(edges, q, v) == Some(e));
            assert(e.weight() <= edges[k].weight());
            let j = choose|j: int| 0 <= j < edges.len() && edges[j] == e;
            assert(edges_relaxed(g, q));
            assert(dist(g, g.node(q).edges[j].other_end(q)) <= offer(
                g.node(q).path_or_zero(),
                g.node(q).edges[j],
            ));
            assert(dist(g, q) + e.weight() == dist(g, v));
            lemma_path_is_route(g, t, rank, q, (fuel - 1) as nat);
            let tail = g.path_back(q, (fuel - 1) as nat);
            assert(path == seq![e] + tail);
            assert(route =~= tail.reverse().push(e));
            assert(route.drop_last() =~= tail.reverse());
            assert(route.last() == e);
        },
        None => {
            assert(known(t, v));
            assert(route =~= Seq::<Edge>::empty());
        },
    }
}

/// Dijkstra's search finds a lightest path. Once it has finalized the
/// goal, the path length of the goal is no more than the weight of any
/// route from the start to the goal. Where that length is below the
/// largest number, the reconstructed path, read from the start, is a
/// route from the start to the goal of just that weight, so that no
/// route weighs less.
pub proof fn lemma_dijkstra_lightest(g: GraphView, t: TraversalView, other: Seq<Edge>)
    requires
        core_inv(GraphTraversers::Dijkstras, g, t),
        dijkstra_inv(g, t),
        t.visited.contains(t.end_node.0),
        is_route(g, t.start_node, other),
        route_end(t.start_node, other) == t.end_node,
    ensures
        dist(g, t.end_node) <= route_weight(other),
        dist(g, t.end_node) < u64::MAX ==> {
            let route = g.path_back(t.end_node, g.len()).reverse();
            &&& is_route(g, t.start_node, route)
            &&& route_end(t.start_node, route) == t.end_node
            &&& route_weight(route) == dist(g, t.end_node)
            &&& route_weight(route) <= route_weight(other)
        },
{
    lemma_route_bound(g, t, other);
    if dist(g, t.end_node) < u64::MAX {
        let rank = choose|rank: Map<usize, nat>| ranked(g, t, rank);
        lemma_bounded_set(t.visited, g.len());
        assert forall|x: NodeIndex| g.has(x) implies (#[trigger] g.node(x)).paired() by {
            assert(g.nodes[x.0 as int].wf_at(x.0 as int, g.nodes.len()));
        }
        lemma_path_is_route(g, t, rank, t.end_node, g.len());
    }
}

} // verus!
