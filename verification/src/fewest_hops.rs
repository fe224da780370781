use crate::frontier::queued;
use crate::graph::GraphView;
use crate::graph::NodeIndex;
use crate::plain_search::lemma_plain_facts;
use crate::plain_search::newly;
use crate::search::core_inv;
use crate::search::expanded;
use crate::search::hop;
use crate::search::hops_at;
use crate::search::is_walk;
use crate::search::known;
use crate::search::lemma_bounded_set;
use crate::search::lemma_hop_same;
use crate::search::lemma_near_is_hop;
use crate::search::pred_ok;
use crate::search::ranked;
use crate::search::unstarted;
use crate::traversers::breadth_first;
use crate::traversers::GraphTraversers;
use crate::traversers::TraversalView;
use vstd::prelude::*;

verus! {

/// The path length recorded at `v`, where a node without one counts as
/// the start.
pub open spec fn dist(g: GraphView, v: NodeIndex) -> int {
    g.node(v).path_or_zero() as int
}

/// A node with a predecessor is one hop further from the start than its
/// predecessor.
pub open spec fn one_more(g: GraphView, v: NodeIndex) -> bool {
    g.node(v).from_node matches Some(p) ==> g.node(v).curr_path is Some && dist(g, v) == dist(g, p)
        + 1
}

/// The path length recorded at the node that waits in place `j`.
pub open spec fn waiting_dist(g: GraphView, t: TraversalView, j: int) -> int {
    dist(g, t.to_traverse[j].1)
}

/// What holds of a breadth-first run beyond what holds of every run.
/// Path lengths count hops. The frontier holds its nodes in the order of
/// their path lengths, which differ by one at most; no finalized node is
/// further from the start than a waiting one; and an edge out of an
/// expanded node adds one hop at most.
pub open spec fn bfs_inv(g: GraphView, t: TraversalView) -> bool {
    &&& forall|v: NodeIndex| g.has(v) && #[trigger] known(t, v) ==> dist(g, v) <= t.visited.len()
    &&& forall|v: NodeIndex| g.has(v) ==> #[trigger] one_more(g, v)
    &&& forall|i: int, j: int|
        0 <= i <= j < t.to_traverse.len() ==> #[trigger] waiting_dist(g, t, i) <= #[trigger] waiting_dist(
            g,
            t,
            j,
        )
    &&& forall|j: int|
        0 <= j < t.to_traverse.len() ==> #[trigger] waiting_dist(g, t, j) <= waiting_dist(g, t, 0) + 1
    &&& forall|v: NodeIndex, j: int|
        g.has(v) && #[trigger] t.visited.contains(v.0) && 0 <= j < t.to_traverse.len() ==> dist(g, v)
            <= #[trigger] waiting_dist(g, t, j)
    &&& forall|u: NodeIndex, v: NodeIndex|
        g.has(u) && g.has(v) && t.visited.contains(u.0) && u != t.end_node && #[trigger] hop(
            g,
            GraphTraversers::BreadthFirst,
            u,
            v,
        ) ==> dist(g, v) <= dist(g, u) + 1
}

/// A run that has not taken a step satisfies what holds of a
/// breadth-first run.
pub proof fn lemma_fresh_bfs(g: GraphView, start_node: NodeIndex, end_node: NodeIndex)
    requires
        g.wf(),
        g.is_reset(),
        g.has(start_node),
    ensures
        bfs_inv(g, TraversalView::fresh(start_node, end_node)),
{
    let t = TraversalView::fresh(start_node, end_node);
    assert forall|v: NodeIndex| g.has(v) implies dist(g, v) == 0 && #[trigger] one_more(g, v) by {
        assert(g.nodes[v.0 as int].curr_path is None);
        assert(g.nodes[v.0 as int].from_node is None);
    }
    assert forall|j: int| 0 <= j < t.to_traverse.len() implies waiting_dist(g, t, j) == 0 by {
        assert(g.has(t.to_traverse[j].1));
    }
}

/// A step of breadth-first search keeps what holds of a breadth-first
/// run.
pub proof fn lemma_bfs_step(g: GraphView, t: TraversalView)
    requires
        core_inv(GraphTraversers::BreadthFirst, g, t),
        bfs_inv(g, t),
        t.to_traverse.len() > 0,
    ensures
        bfs_inv(breadth_first(g, t).graph, breadth_first(g, t).run),
{
    let alg = GraphTraversers::BreadthFirst;
    let out = breadth_first(g, t);
    let h = out.graph;
    let s = out.run;
    let u = t.head();
    let rest = t.to_traverse.drop_first();
    let around = g.neighbors(u);
    assert(g.has(t.to_traverse[0].1));
    lemma_near_is_hop(g, alg, u);
    lemma_plain_facts(alg, g, t, around, true, false);
    lemma_hop_same(g, h, alg);
    lemma_bounded_set(s.visited, g.len());
    assert(g.nodes.len() == h.nodes.len());
    let du = dist(g, u);
    assert(queued(t.to_traverse, u));
    assert(known(t, u));
    assert(du <= t.visited.len());
    assert(du == waiting_dist(g, t, 0));
    let len = g.node(u).path_or_zero().saturating_add(1);
    assert(len == du + 1);
    assert forall|j: int| 0 <= j < rest.len() implies #[trigger] rest[j] == t.to_traverse[j + 1] by {}
    // path lengths after the step
    assert forall|v: NodeIndex| h.has(v) implies #[trigger] dist(h, v) == if newly(t, around, v) {
        du + 1
    } else {
        dist(g, v)
    } by {
        assert(h.node(v).curr_path == if newly(t, around, v) {
            Some(len)
        } else {
            g.node(v).curr_path
        });
    }
    assert forall|v: NodeIndex| known(s, v) && !newly(t, around, v) implies known(t, v) by {
        if s.visited.contains(v.0) {
            if v.0 == u.0 {
                assert(v == u);
            }
        } else {
            assert(queued(s.to_traverse, v));
            assert(queued(rest, v));
        }
    }
    assert forall|v: NodeIndex| h.has(v) && #[trigger] known(s, v) implies dist(h, v)
        <= s.visited.len() by {
        if !newly(t, around, v) {
            assert(known(t, v));
        }
    }
    assert forall|v: NodeIndex| h.has(v) implies #[trigger] one_more(h, v) by {
        assert(one_more(g, v));
        assert(pred_ok(alg, g, t, v));
        assert(h.node(v).from_node == if newly(t, around, v) {
            Some(u)
        } else {
            g.node(v).from_node
        });
        assert(h.node(v).curr_path == if newly(t, around, v) {
            Some(len)
        } else {
            g.node(v).curr_path
        });
        if newly(t, around, v) {
            assert(!newly(t, around, u));
            assert(dist(h, u) == du);
        } else {
            match g.node(v).from_node {
                Some(p) => {
                    assert(t.visited.contains(p.0));
                    assert(s.visited.contains(p.0));
                    assert(!newly(t, around, p));
                    assert(dist(h, p) == dist(g, p));
                },
                None => {},
            }
        }
    }
    // the frontier after the step
    let queue = s.to_traverse;
    assert forall|j: int| 0 <= j < queue.len() implies #[trigger] waiting_dist(h, s, j) == if j
        < rest.len() {
        waiting_dist(g, t, j + 1)
    } else {
        du + 1
    } by {
        assert(h.has(queue[j].1));
        if u == t.end_node {
            assert(queue[j] == rest[j]);
            assert(!newly(t, around, queue[j].1));
        } else if j < rest.len() {
            assert(queue[j] == rest[j]);
            assert(queued(rest, rest[j].1));
            assert(!newly(t, around, queue[j].1));
        } else {
            let found = crate::traversers::discover(around, s.visited, rest);
            assert(queue[j].1 == found[j - rest.len()]);
            assert(found.contains(found[j - rest.len()]));
            assert(newly(t, around, queue[j].1));
        }
    }
    assert forall|i: int, j: int| 0 <= i <= j < queue.len() implies #[trigger] waiting_dist(h, s, i)
        <= #[trigger] waiting_dist(h, s, j) by {
        if i < rest.len() {
            assert(waiting_dist(g, t, i + 1) <= waiting_dist(g, t, 0) + 1);
            if j < rest.len() {
                assert(waiting_dist(g, t, i + 1) <= waiting_dist(g, t, j + 1));
            }
        }
    }
    assert forall|j: int| 0 <= j < queue.len() implies #[trigger] waiting_dist(h, s, j)
        <= waiting_dist(h, s, 0) + 1 by {
        if j < rest.len() {
            assert(waiting_dist(g, t, j + 1) <= waiting_dist(g, t, 0) + 1);
        }
        if 0 < rest.len() {
            assert(waiting_dist(g, t, 0) <= waiting_dist(g, t, 1));
        }
    }
    assert forall|v: NodeIndex, j: int|
        h.has(v) && #[trigger] s.visited.contains(v.0) && 0 <= j < queue.len() implies dist(h, v)
        <= #[trigger] waiting_dist(h, s, j) by {
        assert(!newly(t, around, v));
        assert(dist(h, v) == dist(g, v));
        if v.0 == u.0 {
            assert(v == u);
            if j < rest.len() {
                assert(waiting_dist(g, t, 0) <= waiting_dist(g, t, j + 1));
            }
        } else {
            assert(t.visited.contains(v.0));
            assert(dist(g, v) <= waiting_dist(g, t, 0));
            if j < rest.len() {
                assert(dist(g, v) <= waiting_dist(g, t, j + 1));
            }
        }
    }
    assert forall|w: NodeIndex, v: NodeIndex|
        h.has(w) && h.has(v) && s.visited.contains(w.0) && w != s.end_node && #[trigger] hop(
            h,
            alg,
            w,
            v,
        ) implies dist(h, v) <= dist(h, w) + 1 by {
        assert(hop(g, alg, w, v));
        assert(!newly(t, around, w));
        assert(dist(h, w) == dist(g, w));
        if w.0 == u.0 {
            assert(w == u);
            assert(s.visited.contains(v.0) || queued(rest, v) || newly(t, around, v));
            if newly(t, around, v) {
            } else if queued(rest, v) {
                let k = choose|k: int| 0 <= k < rest.len() && (#[trigger] rest[k]).1 == v;
                assert(waiting_dist(g, t, k + 1) <= waiting_dist(g, t, 0) + 1);
                assert(t.to_traverse[k + 1].1 == v);
            } else {
                if v.0 == u.0 {
                    assert(v == u);
                } else {
                    assert(t.visited.contains(v.0));
                    assert(dist(g, v) <= waiting_dist(g, t, 0));
                }
            }
        } else {
            assert(t.visited.contains(w.0));
            assert(expanded(alg, g, t, w));
            assert(known(t, v));
            if queued(t.to_traverse, v) {
                assert(v == u || queued(rest, v));
            }
            assert(!newly(t, around, v));
        }
    }
}

/// The path length of a finalized node counts the hops of its trail.
pub proof fn lemma_trail_hops(
    g: GraphView,
    t: TraversalView,
    rank: Map<usize, nat>,
    v: NodeIndex,
    fuel: nat,
)
    requires
        forall|x: NodeIndex| g.has(x) ==> #[trigger] pred_ok(GraphTraversers::BreadthFirst, g, t, x),
        forall|x: NodeIndex| g.has(x) ==> #[trigger] one_more(g, x),
        forall|x: NodeIndex| g.has(x) ==> (#[trigger] g.node(x)).paired(),
        ranked(g, t, rank),
        g.has(v),
        t.visited.contains(v.0),
        rank[v.0] < fuel,
    ensures
        g.trail(v, fuel).len() == dist(g, v) + 1,
    decreases fuel,
{
    assert(pred_ok(GraphTraversers::BreadthFirst, g, t, v));
    assert(one_more(g, v));
    assert(g.node(v).paired());
    match g.node(v).from_node {
        Some(p) => {
            assert(rank[p.0] < rank[v.0]);
            lemma_trail_hops(g, t, rank, p, (fuel - 1) as nat);
        },
        None => {},
    }
}

/// Along a walk from the start, a breadth-first run that has finalized
/// the goal has recorded for the goal, or for the node in place `i`, no
/// more than `i` hops.
pub proof fn lemma_walk_hops(g: GraphView, t: TraversalView, w: Seq<NodeIndex>, i: int)
    requires
        core_inv(GraphTraversers::BreadthFirst, g, t),
        bfs_inv(g, t),
        t.visited.contains(t.end_node.0),
        is_walk(g, GraphTraversers::BreadthFirst, w),
        w.first() == t.start_node,
        0 <= i < w.len(),
    ensures
        dist(g, t.end_node) <= i || (t.visited.contains(w[i].0) && dist(g, w[i]) <= i),
    decreases i,
{
    let alg = GraphTraversers::BreadthFirst;
    if i == 0 {
        assert(!unstarted(g, t));
        assert(pred_ok(alg, g, t, t.start_node));
        assert(g.nodes[t.start_node.0 as int].wf_at(t.start_node.0 as int, g.nodes.len()));
    } else {
        lemma_walk_hops(g, t, w, i - 1);
        if dist(g, t.end_node) > i {
            let u = w[i - 1];
            let v = w[i];
            assert(g.has(u) && g.has(v));
            assert(hops_at(g, alg, w, i));
            assert(hop(g, alg, u, v));
            assert(u != t.end_node);
            assert(expanded(alg, g, t, u));
            assert(known(t, v));
            assert(dist(g, v) <= dist(g, u) + 1);
            if !t.visited.contains(v.0) {
                let j = choose|j: int| 0 <= j < t.to_traverse.len() && (#[trigger] t.to_traverse[j]).1
                    == v;
                assert(dist(g, t.end_node) <= waiting_dist(g, t, j));
            }
        }
    }
}

/// Breadth-first search finds the fewest hops: once it has finalized the
/// goal, the path length of the goal is the number of edges of the
/// reconstructed path, and no walk from the start to the goal has fewer.
pub proof fn lemma_breadth_first_fewest_hops(g: GraphView, t: TraversalView, w: Seq<NodeIndex>)
    requires
        core_inv(GraphTraversers::BreadthFirst, g, t),
        bfs_inv(g, t),
        t.visited.contains(t.end_node.0),
        is_walk(g, GraphTraversers::BreadthFirst, w),
        w.first() == t.start_node,
        w.last() == t.end_node,
    ensures
        g.path_back(t.end_node, g.len()).len() == dist(g, t.end_node),
        g.path_back(t.end_node, g.len()).len() <= w.len() - 1,
{
    lemma_walk_hops(g, t, w, w.len() - 1);
    let rank = choose|rank: Map<usize, nat>| ranked(g, t, rank);
    lemma_bounded_set(t.visited, g.len());
    assert forall|x: NodeIndex| g.has(x) implies (#[trigger] g.node(x)).paired() by {
        assert(g.nodes[x.0 as int].wf_at(x.0 as int, g.nodes.len()));
    }
    lemma_trail_hops(g, t, rank, t.end_node, g.len());
    g.lemma_path_follows_trail(t.end_node, g.len());
}

} // verus!
