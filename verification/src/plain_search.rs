use crate::frontier::plain_entry;
use crate::frontier::queued;
use crate::graph::lemma_push_contains;
use crate::graph::GraphView;
use crate::graph::NodeIndex;
use crate::graph::NodeState;
use crate::search::core_inv;
use crate::search::distinct_unvisited;
use crate::search::expanded;
use crate::search::hop;
use crate::search::known;
use crate::search::lemma_hop_same;
use crate::search::lemma_same_topology_trans;
use crate::search::plain;
use crate::search::pred_ok;
use crate::search::ranked;
use crate::search::unstarted;
use crate::traversers::discover;
use crate::traversers::plain_step;
use crate::traversers::GraphTraversers;
use crate::traversers::TraversalView;
use vstd::prelude::*;

verus! {

/// What a step discovers: the nodes of `near` that are neither visited
/// nor waiting, each once.
pub proof fn lemma_discover(near: Seq<NodeIndex>, visited: Set<usize>, waiting: Seq<(u64, NodeIndex)>)
    ensures
        discover(near, visited, waiting).no_duplicates(),
        forall|x: NodeIndex| #[trigger]
            discover(near, visited, waiting).contains(x) <==> near.contains(x) && !visited.contains(
                x.0,
            ) && !queued(waiting, x),
    decreases near.len(),
{
    let f = discover(near, visited, waiting);
    if near.len() > 0 {
        let front = near.drop_last();
        let v = near.last();
        lemma_discover(front, visited, waiting);
        let f0 = discover(front, visited, waiting);
        assert(near =~= front.push(v));
        assert forall|x: NodeIndex| #[trigger]
            f.contains(x) <==> near.contains(x) && !visited.contains(x.0) && !queued(
                waiting,
                x,
            ) by {
            lemma_push_contains(front, v, x);
            lemma_push_contains(f0, v, x);
        }
    }
}

/// A step of a search without priorities can be taken on a run that
/// satisfies what holds of every run, and `around` holds the nodes one
/// hop from the head of the frontier.
pub open spec fn plain_pre(
    alg: GraphTraversers,
    g: GraphView,
    t: TraversalView,
    around: Seq<NodeIndex>,
) -> bool {
    &&& plain(alg)
    &&& core_inv(alg, g, t)
    &&& t.to_traverse.len() > 0
    &&& forall|v: NodeIndex| #[trigger] around.contains(v) <==> hop(g, alg, t.head(), v)
    &&& forall|k: int| 0 <= k < around.len() ==> g.has(#[trigger] around[k])
}

/// The step discovers `v`.
pub open spec fn newly(t: TraversalView, around: Seq<NodeIndex>, v: NodeIndex) -> bool {
    t.head() != t.end_node && discover(
        around,
        t.visited.insert(t.head().0),
        t.to_traverse.drop_first(),
    ).contains(v)
}

/// What a step of a search without priorities does, node by node.
pub proof fn lemma_plain_facts(
    alg: GraphTraversers,
    g: GraphView,
    t: TraversalView,
    around: Seq<NodeIndex>,
    starts: bool,
    stack: bool,
)
    requires
        plain_pre(alg, g, t, around),
    ensures
        ({
            let out = plain_step(g, t, around, starts, stack);
            let u = t.head();
            let rest = t.to_traverse.drop_first();
            &&& g.has(u)
            &&& !t.visited.contains(u.0)
            &&& !queued(rest, u)
            &&& forall|x: NodeIndex| #[trigger] queued(t.to_traverse, x) <==> x == u || queued(rest, x)
            &&& out.graph.wf()
            &&& g.same_topology(out.graph)
            &&& out.run.start_node == t.start_node
            &&& out.run.end_node == t.end_node
            &&& out.run.visited == t.visited.insert(u.0)
            &&& out.run.visited.finite()
            &&& out.run.visited.len() == t.visited.len() + 1
            &&& out.run.fits(out.graph)
            &&& out.done == (u == t.end_node || out.run.to_traverse.len() == 0)
            &&& forall|x: NodeIndex| #[trigger]
                queued(out.run.to_traverse, x) <==> queued(rest, x) || newly(t, around, x)
            &&& forall|v: NodeIndex|
                g.has(v) ==> (#[trigger] out.graph.node(v)).from_node == if newly(t, around, v) {
                    Some(u)
                } else {
                    g.node(v).from_node
                }
            &&& forall|v: NodeIndex|
                g.has(v) ==> (#[trigger] out.graph.node(v)).curr_path == if newly(t, around, v) {
                    Some(g.node(u).path_or_zero().saturating_add(1))
                } else {
                    g.node(v).curr_path
                }
            &&& forall|v: NodeIndex| #[trigger]
                newly(t, around, v) ==> g.has(v) && hop(g, alg, u, v) && !out.run.visited.contains(
                    v.0,
                ) && !queued(rest, v)
            &&& forall|v: NodeIndex|
                u != t.end_node && g.has(v) && #[trigger] hop(g, alg, u, v)
                    ==> out.run.visited.contains(v.0) || queued(rest, v) || newly(t, around, v)
            &&& out.graph.node(t.end_node).state == if u == t.end_node {
                NodeState::End
            } else if newly(t, around, t.end_node) {
                NodeState::Seen
            } else {
                g.node(t.end_node).state
            }
            &&& distinct_unvisited(out.run)
        }),
{
    let out = plain_step(g, t, around, starts, stack);
    let u = t.head();
    let rest = t.to_traverse.drop_first();
    let visited = t.visited.insert(u.0);
    let marked = g.mark(u, t.arrival(u, starts));
    assert(g.has(t.to_traverse[0].1));
    assert(!t.visited.contains(t.to_traverse[0].1.0));
    assert forall|j: int| 0 <= j < rest.len() implies #[trigger] rest[j] == t.to_traverse[j + 1] by {}
    assert forall|x: NodeIndex| #[trigger] queued(t.to_traverse, x) <==> x == u || queued(rest, x) by {
        if queued(t.to_traverse, x) {
            let j = choose|j: int| 0 <= j < t.to_traverse.len() && (#[trigger] t.to_traverse[j]).1 == x;
            if j > 0 {
                assert(rest[j - 1].1 == x);
            }
        }
        if queued(rest, x) {
            let j = choose|j: int| 0 <= j < rest.len() && (#[trigger] rest[j]).1 == x;
            assert(t.to_traverse[j + 1].1 == x);
        }
    }
    assert(!queued(rest, u)) by {
        if queued(rest, u) {
            let j = choose|j: int| 0 <= j < rest.len() && (#[trigger] rest[j]).1 == u;
            assert(t.to_traverse[0].1 != t.to_traverse[j + 1].1);
        }
    }
    g.lemma_mark_wf(u, t.arrival(u, starts));
    assert forall|j: int| 0 <= j < rest.len() implies !visited.contains((#[trigger] rest[j]).1.0) by {
        assert(!t.visited.contains(t.to_traverse[j + 1].1.0));
        assert(t.to_traverse[0].1 != t.to_traverse[j + 1].1);
    }
    assert forall|i: int, j: int| 0 <= i < j < rest.len() implies rest[i].1 != rest[j].1 by {
        assert(t.to_traverse[i + 1].1 != t.to_traverse[j + 1].1);
    }
    if u == t.end_node {
        assert(out.run.to_traverse == rest);
        assert forall|v: NodeIndex| g.has(v) implies (#[trigger] out.graph.node(v)).from_node
            == g.node(v).from_node by {}
        assert forall|v: NodeIndex| g.has(v) implies (#[trigger] out.graph.node(v)).curr_path
            == g.node(v).curr_path by {}
    } else {
        let found = discover(around, visited, rest);
        let len = g.node(u).path_or_zero().saturating_add(1);
        let entries = found.map_values(plain_entry());
        lemma_discover(around, visited, rest);
        marked.lemma_label_found_wf(found, u, len);
        lemma_same_topology_trans(g, marked, out.graph);
        assert forall|v: NodeIndex| #[trigger] newly(t, around, v) implies g.has(v) && hop(
            g,
            alg,
            u,
            v,
        ) && !out.run.visited.contains(v.0) && !queued(rest, v) by {
            assert(found.contains(v));
            assert(around.contains(v));
            let k = choose|k: int| 0 <= k < around.len() && around[k] == v;
            assert(g.has(around[k]));
        }
        assert forall|v: NodeIndex|
            u != t.end_node && g.has(v) && #[trigger] hop(
                g,
                alg,
                u,
                v,
            ) implies out.run.visited.contains(v.0) || queued(rest, v) || newly(t, around, v) by {
            assert(around.contains(v));
            assert(found.contains(v) <==> around.contains(v) && !visited.contains(v.0) && !queued(
                rest,
                v,
            ));
        }
        assert forall|v: NodeIndex| g.has(v) implies (#[trigger] out.graph.node(v)).from_node
            == if newly(t, around, v) {
            Some(u)
        } else {
            g.node(v).from_node
        } by {
            assert(NodeIndex(v.0 as int as usize) == v);
        }
        assert forall|v: NodeIndex| g.has(v) implies (#[trigger] out.graph.node(v)).curr_path
            == if newly(t, around, v) {
            Some(len)
        } else {
            g.node(v).curr_path
        } by {
            assert(NodeIndex(v.0 as int as usize) == v);
        }
        assert(NodeIndex(t.end_node.0 as int as usize) == t.end_node);
        let queue = out.run.to_traverse;
        assert forall|x: NodeIndex| #[trigger]
            queued(queue, x) <==> queued(rest, x) || newly(t, around, x) by {
            if queued(queue, x) {
                let j = choose|j: int| 0 <= j < queue.len() && (#[trigger] queue[j]).1 == x;
                if stack {
                    if j < entries.len() {
                        assert(found[j] == x);
                    } else {
                        assert(rest[j - entries.len()].1 == x);
                    }
                } else {
                    if j < rest.len() {
                        assert(rest[j].1 == x);
                    } else {
                        assert(found[j - rest.len()] == x);
                    }
                }
            }
            if queued(rest, x) {
                let j = choose|j: int| 0 <= j < rest.len() && (#[trigger] rest[j]).1 == x;
                if stack {
                    assert(queue[entries.len() + j].1 == x);
                } else {
                    assert(queue[j].1 == x);
                }
            }
            if newly(t, around, x) {
                let j = choose|j: int| 0 <= j < found.len() && found[j] == x;
                if stack {
                    assert(queue[j].1 == x);
                } else {
                    assert(queue[rest.len() + j].1 == x);
                }
            }
        }
        assert forall|j: int| 0 <= j < queue.len() implies out.graph.has((#[trigger] queue[j]).1) by {
            if stack {
                if j < entries.len() {
                    assert(found.contains(found[j]));
                    assert(newly(t, around, found[j]));
                } else {
                    assert(queue[j] == rest[j - entries.len()]);
                    assert(rest[j - entries.len()] == t.to_traverse[j - entries.len() + 1]);
                }
            } else {
                if j < rest.len() {
                    assert(queue[j] == rest[j]);
                    assert(rest[j] == t.to_traverse[j + 1]);
                } else {
                    assert(found.contains(found[j - rest.len()]));
                    assert(newly(t, around, found[j - rest.len()]));
                }
            }
        }
        assert forall|j: int| 0 <= j < queue.len() implies !visited.contains(
            (#[trigger] queue[j]).1.0,
        ) by {
            if stack {
                if j < entries.len() {
                    assert(found.contains(found[j]));
                } else {
                    assert(queue[j] == rest[j - entries.len()]);
                }
            } else {
                if j < rest.len() {
                    assert(queue[j] == rest[j]);
                } else {
                    assert(found.contains(found[j - rest.len()]));
                }
            }
        }
        assert forall|i: int, j: int| 0 <= i < j < queue.len() implies queue[i].1 != queue[j].1 by {
            let split = if stack {
                entries.len() as int
            } else {
                rest.len() as int
            };
            if stack {
                if j < split {
                    assert(queue[i].1 == found[i] && queue[j].1 == found[j]);
                } else if i >= split {
                    assert(queue[i] == rest[i - split] && queue[j] == rest[j - split]);
                } else {
                    assert(queue[i].1 == found[i]);
                    assert(found.contains(found[i]));
                    assert(queue[j] == rest[j - split]);
                }
            } else {
                if j < split {
                    assert(queue[i] == rest[i] && queue[j] == rest[j]);
                } else if i >= split {
                    assert(queue[i].1 == found[i - split] && queue[j].1 == found[j - split]);
                } else {
                    assert(queue[j].1 == found[j - split]);
                    assert(found.contains(found[j - split]));
                    assert(queue[i] == rest[i]);
                }
            }
        }
    }
}

/// A step of a search without priorities keeps what holds of every run.
pub proof fn lemma_plain_core(
    alg: GraphTraversers,
    g: GraphView,
    t: TraversalView,
    around: Seq<NodeIndex>,
    starts: bool,
    stack: bool,
)
    requires
        plain_pre(alg, g, t, around),
    ensures
        core_inv(
            alg,
            plain_step(g, t, around, starts, stack).graph,
            plain_step(g, t, around, starts, stack).run,
        ),
{
    let out = plain_step(g, t, around, starts, stack);
    let u = t.head();
    let rest = t.to_traverse.drop_first();
    let h = out.graph;
    let s = out.run;
    lemma_plain_facts(alg, g, t, around, starts, stack);
    lemma_hop_same(g, h, alg);
    assert(g.nodes.len() == h.nodes.len());
    assert forall|x: usize| #[trigger] s.visited.contains(x) implies x < h.len() by {}
    assert(s.visited.contains(s.start_node.0)) by {
        if !t.visited.contains(t.start_node.0) {
            assert(unstarted(g, t));
            assert(t.to_traverse[0].1 == t.start_node);
        }
    }
    assert forall|v: NodeIndex| known(t, v) implies known(s, v) by {
        if queued(t.to_traverse, v) {
            assert(v == u || queued(rest, v));
        }
    }
    assert forall|v: NodeIndex| h.has(v) implies #[trigger] pred_ok(alg, h, s, v) by {
        assert(pred_ok(alg, g, t, v));
        assert(h.node(v).from_node == if newly(t, around, v) {
            Some(u)
        } else {
            g.node(v).from_node
        });
        if newly(t, around, v) {
            assert(hop(g, alg, u, v));
            assert(hop(h, alg, u, v));
        } else {
            match g.node(v).from_node {
                Some(p) => {
                    assert(hop(g, alg, p, v));
                    assert(hop(h, alg, p, v));
                },
                None => {
                    if known(s, v) {
                        if s.visited.contains(v.0) {
                            if v.0 == u.0 {
                                assert(v == u);
                                assert(queued(t.to_traverse, v));
                            }
                        } else {
                            assert(queued(s.to_traverse, v));
                            assert(queued(rest, v));
                            assert(queued(t.to_traverse, v));
                        }
                        assert(known(t, v));
                    }
                },
            }
        }
    }
    assert forall|w: NodeIndex|
        h.has(w) && s.visited.contains(w.0) && w != s.end_node implies #[trigger] expanded(
        alg,
        h,
        s,
        w,
    ) by {
        assert forall|v: NodeIndex| h.has(v) && #[trigger] hop(h, alg, w, v) implies known(s, v) by {
            assert(hop(g, alg, w, v));
            if w.0 == u.0 {
                assert(w == u);
                assert(s.visited.contains(v.0) || queued(rest, v) || newly(t, around, v));
                assert(queued(s.to_traverse, v) <==> queued(rest, v) || newly(t, around, v));
            } else {
                assert(t.visited.contains(w.0));
                assert(expanded(alg, g, t, w));
                assert(known(t, v));
            }
        }
    }
    assert(h.node(s.end_node).state == NodeState::End <==> s.visited.contains(s.end_node.0)) by {
        if u != t.end_node {
            assert(u.0 != t.end_node.0);
        }
    }
    let rank = choose|rank: Map<usize, nat>| ranked(g, t, rank);
    let next = rank.insert(u.0, t.visited.len());
    assert(ranked(h, s, next)) by {
        assert forall|v: NodeIndex| h.has(v) && #[trigger] s.visited.contains(v.0) implies next[v.0]
            < s.visited.len() && (h.node(v).from_node matches Some(p) ==> next[p.0] < next[v.0]) by {
            assert(!newly(t, around, v));
            assert(h.node(v).from_node == g.node(v).from_node);
            assert(pred_ok(alg, g, t, v));
            if v.0 != u.0 {
                assert(t.visited.contains(v.0));
            }
            match g.node(v).from_node {
                Some(p) => {
                    assert(t.visited.contains(p.0));
                    assert(p.0 != u.0);
                },
                None => {},
            }
        }
    }
}

} // verus!
