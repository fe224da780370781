use vstd::prelude::*;

verus! {

/// Stable handle of a node: its position in allocation order.
#[derive(Clone, Copy, PartialEq, Eq, Structural, Hash, Debug)]
pub struct NodeIndex(pub usize);

impl NodeIndex {
    /// The position this handle stands for.
    pub fn index(&self) -> (i: usize)
        ensures
            i == self.0,
    {
        self.0
    }

    /// The handle allocated right after this one.
    pub fn next(&self) -> (n: Self)
        requires
            self.0 < usize::MAX,
        ensures
            n.0 == self.0 + 1,
    {
        NodeIndex(self.0 + 1)
    }
}

/// How a node is shown while a search runs over the graph.
#[derive(Clone, Copy, PartialEq, Eq, Structural, Debug)]
pub enum NodeState {
    Unvisited,
    Start,
    Seen,
    Visited,
    End,
}

/// A weighted connection between two nodes. The node that owns the record
/// comes first.
#[derive(Clone, Copy, Debug)]
pub struct Edge(u64, NodeIndex, NodeIndex);

impl Edge {
    pub closed spec fn weight(self) -> u64 {
        self.0
    }

    pub closed spec fn source(self) -> NodeIndex {
        self.1
    }

    pub closed spec fn target(self) -> NodeIndex {
        self.2
    }

    /// The edge from `n1` to `n2`; a missing weight counts as one unit.
    pub closed spec fn make(n1: NodeIndex, n2: NodeIndex, weight: Option<u64>) -> Edge {
        Edge(
            match weight {
                Some(w) => w,
                None => 1,
            },
            n1,
            n2,
        )
    }

    /// The endpoint reached when the edge is followed from `from`.
    pub open spec fn other_end(self, from: NodeIndex) -> NodeIndex {
        if self.source() == from {
            self.target()
        } else {
            self.source()
        }
    }

    /// The edge, found in the list of `a`, joins `a` and `b`.
    pub open spec fn joins(self, a: NodeIndex, b: NodeIndex, directed: bool) -> bool {
        if self.source() == a {
            self.target() == b
        } else {
            !directed && self.source() == b
        }
    }

    pub open spec fn touches(self, n: NodeIndex) -> bool {
        self.source() == n || self.target() == n
    }

    /// Both endpoints are positions below `bound`.
    pub open spec fn within(self, bound: nat) -> bool {
        self.source().0 < bound && self.target().0 < bound
    }

    /// What `make` puts into each part of the edge.
    pub proof fn lemma_make(n1: NodeIndex, n2: NodeIndex, weight: Option<u64>)
        ensures
            Self::make(n1, n2, weight).source() == n1,
            Self::make(n1, n2, weight).target() == n2,
            Self::make(n1, n2, weight).weight() == match weight {
                Some(w) => w,
                None => 1,
            },
    {
    }

    pub fn new(n1: NodeIndex, n2: NodeIndex, weight: Option<u64>) -> (e: Self)
        ensures
            e == Self::make(n1, n2, weight),
            e.source() == n1,
            e.target() == n2,
            e.weight() == match weight {
                Some(w) => w,
                None => 1,
            },
    {
        match weight {
            Some(w) => Edge(w, n1, n2),
            None => Edge(1, n1, n2),
        }
    }

    pub fn get_nodes(&self) -> (r: (NodeIndex, NodeIndex))
        ensures
            r == (self.source(), self.target()),
    {
        (self.1, self.2)
    }

    pub fn get_weighted_nodes(&self) -> (r: (u64, NodeIndex, NodeIndex))
        ensures
            r == (self.weight(), self.source(), self.target()),
    {
        (self.0, self.1, self.2)
    }

    pub fn get_weight(&self) -> (w: u64)
        ensures
            w == self.weight(),
    {
        self.0
    }
}

/// The edges of a list that do not touch `other`.
pub open spec fn avoiding(other: NodeIndex) -> spec_fn(Edge) -> bool {
    |e: Edge| !e.touches(other)
}

/// The edge that a connection request of the node `id` stands for.
pub open spec fn connecting(id: NodeIndex) -> spec_fn((NodeIndex, Option<u64>)) -> Edge {
    |c: (NodeIndex, Option<u64>)| Edge::make(id, c.0, c.1)
}

/// The far end of an edge in the list of the node `id`.
pub open spec fn far_end(id: NodeIndex) -> spec_fn(Edge) -> NodeIndex {
    |e: Edge| e.other_end(id)
}

/// The lightest of the edges in `edges`, the list of `from`, that lead to
/// `to`; the first of them where several weigh the same.
pub open spec fn lightest_to(edges: Seq<Edge>, from: NodeIndex, to: NodeIndex) -> Option<Edge>
    decreases edges.len(),
{
    if edges.len() == 0 {
        None
    } else {
        let before = lightest_to(edges.drop_last(), from, to);
        let e = edges.last();
        if e.other_end(from) == to && (before matches Some(b) ==> e.weight() < b.weight()) {
            Some(e)
        } else {
            before
        }
    }
}

/// The lightest edge to `to` is one of the list, leads to `to`, and weighs
/// no more than any edge of the list that does. There is none only where
/// no edge of the list leads to `to`.
pub proof fn lemma_lightest_to(edges: Seq<Edge>, from: NodeIndex, to: NodeIndex)
    ensures
        match lightest_to(edges, from, to) {
            Some(e) => edges.contains(e) && e.other_end(from) == to && forall|k: int|
                0 <= k < edges.len() && (#[trigger] edges[k]).other_end(from) == to ==> e.weight()
                    <= edges[k].weight(),
            None => forall|k: int| 0 <= k < edges.len() ==> (#[trigger] edges[k]).other_end(from) != to,
        },
    decreases edges.len(),
{
    if edges.len() > 0 {
        let front = edges.drop_last();
        lemma_lightest_to(front, from, to);
        assert forall|k: int| 0 <= k < front.len() implies #[trigger] front[k] == edges[k] by {}
        match lightest_to(edges, from, to) {
            Some(e) => {
                if lightest_to(front, from, to) == Some(e) {
                    let i = choose|i: int| 0 <= i < front.len() && front[i] == e;
                    assert(edges[i] == e);
                } else {
                    assert(edges[edges.len() - 1] == e);
                }
                assert forall|k: int|
                    0 <= k < edges.len() && (#[trigger] edges[k]).other_end(from)
                        == to implies e.weight() <= edges[k].weight() by {
                    if k < front.len() {
                        assert(front[k] == edges[k]);
                    }
                }
            },
            None => {
                assert forall|k: int| 0 <= k < edges.len() implies (#[trigger] edges[k]).other_end(
                    from,
                ) != to by {
                    if k < front.len() {
                        assert(front[k] == edges[k]);
                    }
                }
            },
        }
    }
}

/// The lightest of the edges in `edges`, the list of `from`, that lead to
/// `to`.
pub fn lightest(edges: &Vec<Edge>, from: NodeIndex, to: NodeIndex) -> (found: Option<Edge>)
    ensures
        found == lightest_to(edges@, from, to),
{
    let mut found: Option<Edge> = None;
    let mut i: usize = 0;
    assert(edges@.take(0) =~= Seq::empty());
    while i < edges.len()
        invariant
            i <= edges.len(),
            found == lightest_to(edges@.take(i as int), from, to),
        decreases edges.len() - i,
    {
        let e = edges[i];
        let (w, a, b) = e.get_weighted_nodes();
        let far = if a == from {
            b
        } else {
            a
        };
        proof {
            assert(edges@.take(i + 1).drop_last() == edges@.take(i as int));
        }
        if far == to {
            let lighter = match found {
                Some(b) => w < b.get_weight(),
                None => true,
            };
            if lighter {
                found = Some(e);
            }
        }
        i += 1;
    }
    assert(edges@.take(i as int) == edges@);
    found
}

/// A node as contracts see it.
pub struct NodeView {
    pub id: NodeIndex,
    pub pos: (i32, i32),
    pub name: Seq<char>,
    pub edges: Seq<Edge>,
    pub from_node: Option<NodeIndex>,
    pub curr_path: Option<u64>,
    pub state: NodeState,
}

impl NodeView {
    /// The far end of every incident edge, in list order.
    pub open spec fn neighbors(self) -> Seq<NodeIndex> {
        self.edges.map_values(far_end(self.id))
    }

    /// The node with the marks of a search taken off.
    pub open spec fn cleared(self) -> NodeView {
        NodeView { from_node: None, curr_path: None, state: NodeState::Unvisited, ..self }
    }

    /// Predecessor and path length are present together or not at all.
    pub open spec fn paired(self) -> bool {
        self.from_node is Some <==> self.curr_path is Some
    }

    /// The recorded path length, where a node without one counts as the
    /// origin of its run.
    pub open spec fn path_or_zero(self) -> u64 {
        match self.curr_path {
            Some(l) => l,
            None => 0,
        }
    }
}

pub struct Node {
    id: NodeIndex,
    pos: (i32, i32),
    name: String,
    edges: Vec<Edge>,
    from_node: Option<NodeIndex>,
    curr_path: Option<u64>,
    state: NodeState,
}

impl Node {
    pub closed spec fn model(&self) -> NodeView {
        NodeView {
            id: self.id,
            pos: self.pos,
            name: self.name@,
            edges: self.edges@,
            from_node: self.from_node,
            curr_path: self.curr_path,
            state: self.state,
        }
    }

    pub fn new(
        id: NodeIndex,
        pos: (i32, i32),
        name: String,
        connections: Vec<(NodeIndex, Option<u64>)>,
    ) -> (node: Self)
        ensures
            node.model() == (NodeView {
                id,
                pos,
                name: name@,
                edges: connections@.map_values(connecting(id)),
                from_node: None,
                curr_path: None,
                state: NodeState::Unvisited,
            }),
    {
        let mut edges: Vec<Edge> = Vec::new();
        let mut i: usize = 0;
        while i < connections.len()
            invariant
                i <= connections.len(),
                edges@ == connections@.take(i as int).map_values(connecting(id)),
            decreases connections.len() - i,
        {
            let c = connections[i];
            edges.push(Edge::new(id, c.0, c.1));
            i += 1;
        }
        assert(connections@.take(i as int) == connections@);
        Node { id, pos, name, edges, from_node: None, curr_path: None, state: NodeState::Unvisited }
    }

    pub fn get_id(&self) -> (id: NodeIndex)
        ensures
            id == self.model().id,
    {
        self.id
    }

    pub fn get_name(&self) -> (name: &str)
        ensures
            name@ == self.model().name,
    {
        self.name.as_str()
    }

    pub fn get_neighbors(&self) -> (r: Vec<NodeIndex>)
        ensures
            r@ == self.model().neighbors(),
    {
        let mut r: Vec<NodeIndex> = Vec::new();
        let mut i: usize = 0;
        while i < self.edges.len()
            invariant
                i <= self.edges.len(),
                r@ == self.edges@.take(i as int).map_values(far_end(self.id)),
            decreases self.edges.len() - i,
        {
            let (a, b) = self.edges[i].get_nodes();
            if a == self.id {
                r.push(b);
            } else {
                r.push(a);
            }
            i += 1;
        }
        assert(self.edges@.take(i as int) == self.edges@);
        r
    }

    pub fn get_edges(&self) -> (r: Vec<Edge>)
        ensures
            r@ == self.model().edges,
    {
        let mut r: Vec<Edge> = Vec::new();
        let mut i: usize = 0;
        while i < self.edges.len()
            invariant
                i <= self.edges.len(),
                r@ == self.edges@.take(i as int),
            decreases self.edges.len() - i,
        {
            r.push(self.edges[i]);
            i += 1;
        }
        assert(self.edges@.take(i as int) == self.edges@);
        r
    }

    /// Marks the node as seen by a search that has not expanded it yet.
    pub fn view(&mut self)
        ensures
            final(self).model() == (NodeView { state: NodeState::Seen, ..old(self).model() }),
    {
        self.state = NodeState::Seen;
    }

    pub fn visit(&mut self)
        ensures
            final(self).model() == (NodeView { state: NodeState::Visited, ..old(self).model() }),
    {
        self.state = NodeState::Visited;
    }

    pub fn end(&mut self)
        ensures
            final(self).model() == (NodeView { state: NodeState::End, ..old(self).model() }),
    {
        self.state = NodeState::End;
    }

    pub fn start(&mut self)
        ensures
            final(self).model() == (NodeView { state: NodeState::Start, ..old(self).model() }),
    {
        self.state = NodeState::Start;
    }

    pub fn reset(&mut self)
        ensures
            final(self).model() == old(self).model().cleared(),
    {
        self.state = NodeState::Unvisited;
        self.curr_path = None;
        self.from_node = None;
    }

    pub fn get_state(&self) -> (s: NodeState)
        ensures
            s == self.model().state,
    {
        self.state
    }

    pub fn add_edge(&mut self, other: NodeIndex, weight: Option<u64>)
        ensures
            final(self).model() == (NodeView {
                edges: old(self).model().edges.push(Edge::make(old(self).model().id, other, weight)),
                ..old(self).model()
            }),
    {
        self.edges.push(Edge::new(self.id, other, weight));
    }

    /// The best known path length from the start of the run, if the node
    /// has been reached.
    pub fn get_curr_path(&self) -> (l: Option<u64>)
        ensures
            l == self.model().curr_path,
    {
        self.curr_path
    }

    pub fn get_pos(&self) -> (p: (i32, i32))
        ensures
            p == self.model().pos,
    {
        self.pos
    }

    pub fn set_last_node(&mut self, index: NodeIndex, len: u64)
        ensures
            final(self).model() == (NodeView {
                from_node: Some(index),
                curr_path: Some(len),
                ..old(self).model()
            }),
    {
        self.curr_path = Some(len);
        self.from_node = Some(index);
    }

    pub fn get_last_node(&self) -> (p: Option<NodeIndex>)
        ensures
            p == self.model().from_node,
    {
        self.from_node
    }

    pub fn get_pos_mut(&mut self) -> (p: &mut (i32, i32))
        ensures
            *p == old(self).model().pos,
            final(self).model() == (NodeView { pos: *final(p), ..old(self).model() }),
    {
        &mut self.pos
    }

    /// Drops every edge of this node's list that touches `other`.
    pub fn remove_edge(&mut self, other: NodeIndex)
        ensures
            final(self).model() == (NodeView {
                edges: old(self).model().edges.filter(avoiding(other)),
                ..old(self).model()
            }),
    {
        let mut kept: Vec<Edge> = Vec::new();
        let mut i: usize = 0;
        while i < self.edges.len()
            invariant
                i <= self.edges.len(),
                *self == *old(self),
                kept@ == self.edges@.take(i as int).filter(avoiding(other)),
            decreases self.edges.len() - i,
        {
            let e = self.edges[i];
            let (a, b) = e.get_nodes();
            proof {
                reveal(Seq::filter);
                assert(self.edges@.take(i + 1).drop_last() == self.edges@.take(i as int));
            }
            if a != other && b != other {
                kept.push(e);
            }
            i += 1;
        }
        assert(self.edges@.take(i as int) == self.edges@);
        self.edges = kept;
    }
}


impl NodeView {
    /// The node sits at position `i` of a graph of `n` nodes, its edges
    /// and its predecessor stay inside that graph, and predecessor and
    /// path length are present together.
    pub open spec fn wf_at(self, i: int, n: nat) -> bool {
        &&& self.id.0 == i
        &&& self.paired()
        &&& (self.from_node matches Some(p) ==> p.0 < n)
        &&& forall|k: int| 0 <= k < self.edges.len() ==> (#[trigger] self.edges[k]).within(n)
    }

    /// A node as `add_node` makes it, before its connections are wired.
    pub open spec fn fresh(id: NodeIndex, pos: (i32, i32), name: Seq<char>) -> NodeView {
        NodeView {
            id,
            pos,
            name,
            edges: Seq::empty(),
            from_node: None,
            curr_path: None,
            state: NodeState::Unvisited,
        }
    }
}

/// A graph as contracts see it.
pub struct GraphView {
    pub name: Seq<char>,
    pub nodes: Seq<NodeView>,
    pub next_index: NodeIndex,
    pub is_directed: bool,
    pub is_weighted: bool,
}

/// The nodes of a list as contracts see them.
pub open spec fn models(nodes: Seq<Node>) -> Seq<NodeView> {
    nodes.map_values(|n: Node| n.model())
}

/// The nodes that have `idx` among their neighbors.
pub open spec fn pointing_at(idx: NodeIndex) -> spec_fn(NodeView) -> bool {
    |n: NodeView| n.neighbors().contains(idx)
}

pub open spec fn node_id() -> spec_fn(NodeView) -> NodeIndex {
    |n: NodeView| n.id
}

impl GraphView {
    pub open spec fn len(self) -> nat {
        self.nodes.len()
    }

    /// `idx` names a node of this graph.
    pub open spec fn has(self, idx: NodeIndex) -> bool {
        idx.0 < self.nodes.len()
    }

    pub open spec fn node(self, idx: NodeIndex) -> NodeView {
        self.nodes[idx.0 as int]
    }

    pub open spec fn wf(self) -> bool {
        &&& self.next_index.0 == self.nodes.len()
        &&& forall|i: int|
            0 <= i < self.nodes.len() ==> (#[trigger] self.nodes[i]).wf_at(i, self.nodes.len())
    }

    pub open spec fn set_node(self, idx: NodeIndex, node: NodeView) -> GraphView {
        GraphView { nodes: self.nodes.update(idx.0 as int, node), ..self }
    }

    /// Every node unvisited, without predecessor and path length; nothing
    /// else touched.
    pub open spec fn reset(self) -> GraphView {
        GraphView { nodes: self.nodes.map_values(|n: NodeView| n.cleared()), ..self }
    }

    /// No node carries a mark of a search.
    pub open spec fn is_reset(self) -> bool {
        forall|i: int|
            0 <= i < self.nodes.len() ==> {
                &&& (#[trigger] self.nodes[i]).state == NodeState::Unvisited
                &&& self.nodes[i].from_node is None
                &&& self.nodes[i].curr_path is None
            }
    }

    /// `e` appended to the edge list of `owner`.
    pub open spec fn push_edge(self, owner: NodeIndex, e: Edge) -> GraphView {
        self.set_node(owner, NodeView { edges: self.node(owner).edges.push(e), ..self.node(owner) })
    }

    /// The graph after `add_edge(a, b, weight)`: nothing for a self-loop;
    /// else the record in the list of `a` and, when undirected, its mirror
    /// image in the list of `b`.
    pub open spec fn with_edge(self, a: NodeIndex, b: NodeIndex, weight: Option<u64>) -> GraphView {
        if a == b {
            self
        } else {
            let g = self.push_edge(a, Edge::make(a, b, weight));
            if self.is_directed {
                g
            } else {
                g.push_edge(b, Edge::make(b, a, weight))
            }
        }
    }

    /// The list of `owner` without the edges that touch `other`.
    pub open spec fn drop_edges(self, owner: NodeIndex, other: NodeIndex) -> GraphView {
        self.set_node(
            owner,
            NodeView { edges: self.node(owner).edges.filter(avoiding(other)), ..self.node(owner) },
        )
    }

    /// The graph after `remove_edge(e)`.
    pub open spec fn without_edge(self, e: Edge) -> GraphView {
        let g = self.drop_edges(e.source(), e.target());
        if self.is_directed {
            g
        } else {
            g.drop_edges(e.target(), e.source())
        }
    }

    /// One more node at the end, not connected to anything yet.
    pub open spec fn with_lone_node(self, pos: (i32, i32), name: Seq<char>) -> GraphView {
        GraphView {
            nodes: self.nodes.push(NodeView::fresh(self.next_index, pos, name)),
            next_index: NodeIndex((self.next_index.0 + 1) as usize),
            ..self
        }
    }

    /// The edges from `from` to each of `connections`, added one after
    /// another as `with_edge` adds them.
    pub open spec fn connect(
        self,
        from: NodeIndex,
        connections: Seq<(NodeIndex, Option<u64>)>,
    ) -> GraphView
        decreases connections.len(),
    {
        if connections.len() == 0 {
            self
        } else {
            self.connect(from, connections.drop_last()).with_edge(
                from,
                connections.last().0,
                connections.last().1,
            )
        }
    }

    /// The graph after `add_node(pos, name, connections)`.
    pub open spec fn with_node(
        self,
        pos: (i32, i32),
        name: Seq<char>,
        connections: Seq<(NodeIndex, Option<u64>)>,
    ) -> GraphView {
        self.with_lone_node(pos, name).connect(self.next_index, connections)
    }

    /// The nodes one incident edge away from `idx`, in list order.
    pub open spec fn neighbors(self, idx: NodeIndex) -> Seq<NodeIndex> {
        self.node(idx).neighbors()
    }

    /// The nodes that list `idx` among their neighbors, in allocation order.
    pub open spec fn inbound(self, idx: NodeIndex) -> Seq<NodeIndex> {
        self.nodes.filter(pointing_at(idx)).map_values(node_id())
    }

    /// The neighbors of `idx` when direction is ignored.
    pub open spec fn connections(self, idx: NodeIndex) -> Seq<NodeIndex> {
        if self.is_directed {
            self.inbound(idx) + self.neighbors(idx)
        } else {
            self.neighbors(idx)
        }
    }

    /// The list of `a` holds an edge that joins `a` and `b`: one from `a`
    /// to `b`, or, in an undirected graph, one that `b` owns.
    pub open spec fn joined(self, a: NodeIndex, b: NodeIndex) -> bool {
        exists|k: int|
            0 <= k < self.node(a).edges.len() && (#[trigger] self.node(a).edges[k]).joins(
                a,
                b,
                self.is_directed,
            )
    }

    /// Same nodes, edges, names and positions; marks of a search may differ.
    pub open spec fn same_topology(self, other: GraphView) -> bool {
        &&& self.name == other.name
        &&& self.next_index == other.next_index
        &&& self.is_directed == other.is_directed
        &&& self.is_weighted == other.is_weighted
        &&& self.nodes.len() == other.nodes.len()
        &&& forall|i: int|
            #![trigger self.nodes[i]]
            #![trigger other.nodes[i]]
            0 <= i < self.nodes.len() ==> self.nodes[i].cleared() == other.nodes[i].cleared()
    }

    /// The node `idx` with its display state replaced.
    pub open spec fn mark(self, idx: NodeIndex, state: NodeState) -> GraphView {
        self.set_node(idx, NodeView { state, ..self.node(idx) })
    }

    /// Every node unchanged but for those in `found`, which are shown as
    /// seen and are given `from` as predecessor and `len` as path length.
    pub open spec fn label_found(self, found: Seq<NodeIndex>, from: NodeIndex, len: u64) -> GraphView {
        GraphView {
            nodes: Seq::new(
                self.nodes.len(),
                |i: int|
                    if found.contains(NodeIndex(i as usize)) {
                        NodeView {
                            state: NodeState::Seen,
                            from_node: Some(from),
                            curr_path: Some(len),
                            ..self.nodes[i]
                        }
                    } else {
                        self.nodes[i]
                    },
            ),
            ..self
        }
    }

    /// Relaxation: `v` is shown as seen, and takes `from` as predecessor
    /// and `candidate` as path length when it has no path yet or a longer
    /// one.
    pub open spec fn relax(self, v: NodeIndex, from: NodeIndex, candidate: u64) -> GraphView {
        let n = self.node(v);
        if n.from_node is None || (n.curr_path matches Some(l) && l > candidate) {
            self.set_node(
                v,
                NodeView {
                    state: NodeState::Seen,
                    from_node: Some(from),
                    curr_path: Some(candidate),
                    ..n
                },
            )
        } else {
            self.set_node(v, NodeView { state: NodeState::Seen, ..n })
        }
    }

    /// The edge between the node `v` and its predecessor `p`: the lightest
    /// record in the list of `p` that leads to `v`. Where that list has
    /// none, as after a search that went against the direction of an
    /// edge, it is the lightest record in the list of `v` that leads to
    /// `p`; and between nodes that no record joins, an edge of one unit.
    pub open spec fn link(self, p: NodeIndex, v: NodeIndex) -> Edge {
        match lightest_to(self.node(p).edges, p, v) {
            Some(e) => e,
            None => match lightest_to(self.node(v).edges, v, p) {
                Some(e) => e,
                None => Edge::make(p, v, None),
            },
        }
    }

    /// The reconstructed path to `v`, nearest edge first: the edge between
    /// `v` and its predecessor, then the path to that predecessor.
    /// It ends at a node without predecessor, or one that names itself,
    /// and after `fuel` edges at the latest.
    pub open spec fn path_back(self, v: NodeIndex, fuel: nat) -> Seq<Edge>
        decreases fuel,
    {
        if fuel == 0 {
            Seq::empty()
        } else {
            match self.node(v).from_node {
                Some(p) => if p == v {
                    Seq::empty()
                } else {
                    seq![self.link(p, v)] + self.path_back(p, (fuel - 1) as nat)
                },
                None => Seq::empty(),
            }
        }
    }

    /// The nodes from `v` back along predecessors, `v` first. The trail
    /// ends where the reconstructed path ends.
    pub open spec fn trail(self, v: NodeIndex, fuel: nat) -> Seq<NodeIndex>
        decreases fuel,
    {
        if fuel == 0 {
            seq![v]
        } else {
            match self.node(v).from_node {
                Some(p) => if p == v {
                    seq![v]
                } else {
                    seq![v] + self.trail(p, (fuel - 1) as nat)
                },
                None => seq![v],
            }
        }
    }

    /// The reconstructed path joins each node of the trail to the next.
    pub proof fn lemma_path_follows_trail(self, v: NodeIndex, fuel: nat)
        ensures
            self.path_back(v, fuel).len() + 1 == self.trail(v, fuel).len(),
            self.trail(v, fuel)[0] == v,
            forall|i: int|
                0 <= i < self.path_back(v, fuel).len() ==> #[trigger] self.path_back(v, fuel)[i]
                    == self.link(self.trail(v, fuel)[i + 1], self.trail(v, fuel)[i]),
        decreases fuel,
    {
        if fuel > 0 {
            match self.node(v).from_node {
                Some(p) => {
                    if p != v {
                        self.lemma_path_follows_trail(p, (fuel - 1) as nat);
                        let path = self.path_back(v, fuel);
                        let tail = self.path_back(p, (fuel - 1) as nat);
                        let tr = self.trail(v, fuel);
                        let ttail = self.trail(p, (fuel - 1) as nat);
                        assert forall|i: int| 0 <= i < path.len() implies #[trigger] path[i]
                            == self.link(tr[i + 1], tr[i]) by {
                            if i > 0 {
                                assert(path[i] == tail[i - 1]);
                                assert(tr[i + 1] == ttail[i]);
                                assert(tr[i] == ttail[i - 1]);
                            } else {
                                assert(tr[1] == ttail[0]);
                            }
                        }
                    }
                },
                None => {},
            }
        }
    }

    pub proof fn lemma_mark_wf(self, idx: NodeIndex, state: NodeState)
        requires
            self.wf(),
            self.has(idx),
        ensures
            self.mark(idx, state).wf(),
            self.same_topology(self.mark(idx, state)),
    {
        let g = self.mark(idx, state);
        assert forall|i: int| 0 <= i < g.nodes.len() implies (#[trigger] g.nodes[i]).wf_at(
            i,
            g.nodes.len(),
        ) by {
            assert(self.nodes[i].wf_at(i, self.nodes.len()));
        }
    }

    pub proof fn lemma_label_found_wf(self, found: Seq<NodeIndex>, from: NodeIndex, len: u64)
        requires
            self.wf(),
            self.has(from),
        ensures
            self.label_found(found, from, len).wf(),
            self.same_topology(self.label_found(found, from, len)),
    {
        let g = self.label_found(found, from, len);
        assert forall|i: int| 0 <= i < g.nodes.len() implies (#[trigger] g.nodes[i]).wf_at(
            i,
            g.nodes.len(),
        ) by {
            assert(self.nodes[i].wf_at(i, self.nodes.len()));
        }
    }

    pub proof fn lemma_relax_wf(self, v: NodeIndex, from: NodeIndex, candidate: u64)
        requires
            self.wf(),
            self.has(from),
            self.has(v),
        ensures
            self.relax(v, from, candidate).wf(),
            self.same_topology(self.relax(v, from, candidate)),
    {
        let g = self.relax(v, from, candidate);
        assert forall|i: int| 0 <= i < g.nodes.len() implies (#[trigger] g.nodes[i]).wf_at(
            i,
            g.nodes.len(),
        ) by {
            assert(self.nodes[i].wf_at(i, self.nodes.len()));
        }
    }

    /// In a well-formed graph the neighbors of a node are nodes of the
    /// graph, whether direction counts or not.
    pub proof fn lemma_neighbors_within(self, idx: NodeIndex)
        requires
            self.wf(),
            self.has(idx),
        ensures
            forall|k: int|
                0 <= k < self.neighbors(idx).len() ==> self.has(#[trigger] self.neighbors(idx)[k]),
            forall|k: int|
                0 <= k < self.connections(idx).len() ==> self.has(
                    #[trigger] self.connections(idx)[k],
                ),
    {
        let near = self.neighbors(idx);
        assert(self.nodes[idx.0 as int].wf_at(idx.0 as int, self.nodes.len()));
        assert forall|k: int| 0 <= k < near.len() implies self.has(#[trigger] near[k]) by {
            assert(self.node(idx).edges[k].within(self.nodes.len()));
        }
        if self.is_directed {
            let kept = self.nodes.filter(pointing_at(idx));
            let inbound = self.inbound(idx);
            assert forall|k: int| 0 <= k < inbound.len() implies self.has(#[trigger] inbound[k]) by {
                assert(kept.contains(kept[k]));
                self.nodes.lemma_filter_contains_rev(pointing_at(idx), kept[k]);
                let i = choose|i: int| 0 <= i < self.nodes.len() && self.nodes[i] == kept[k];
                assert(self.nodes[i].wf_at(i, self.nodes.len()));
            }
            let all = self.connections(idx);
            assert forall|k: int| 0 <= k < all.len() implies self.has(#[trigger] all[k]) by {
                if k < inbound.len() {
                    assert(all[k] == inbound[k]);
                } else {
                    assert(all[k] == near[k - inbound.len()]);
                }
            }
        }
    }

    pub proof fn lemma_with_edge_wf(self, a: NodeIndex, b: NodeIndex, weight: Option<u64>)
        requires
            self.wf(),
            a != b ==> self.has(a) && self.has(b),
        ensures
            self.with_edge(a, b, weight).wf(),
            self.with_edge(a, b, weight).len() == self.len(),
    {
        if a != b {
            Edge::lemma_make(a, b, weight);
            Edge::lemma_make(b, a, weight);
            let g = self.push_edge(a, Edge::make(a, b, weight));
            assert(g.wf()) by {
                assert forall|i: int| 0 <= i < g.nodes.len() implies (#[trigger] g.nodes[i]).wf_at(
                    i,
                    g.nodes.len(),
                ) by {
                    assert(self.nodes[i].wf_at(i, self.nodes.len()));
                }
            }
            let h = g.push_edge(b, Edge::make(b, a, weight));
            assert(h.wf()) by {
                assert forall|i: int| 0 <= i < h.nodes.len() implies (#[trigger] h.nodes[i]).wf_at(
                    i,
                    h.nodes.len(),
                ) by {
                    assert(g.nodes[i].wf_at(i, g.nodes.len()));
                }
            }
        }
    }

    pub proof fn lemma_without_edge_wf(self, e: Edge)
        requires
            self.wf(),
            self.has(e.source()),
            !self.is_directed ==> self.has(e.target()),
        ensures
            self.without_edge(e).wf(),
            self.without_edge(e).len() == self.len(),
    {
        let g = self.drop_edges(e.source(), e.target());
        assert(g.wf()) by {
            assert forall|i: int| 0 <= i < g.nodes.len() implies (#[trigger] g.nodes[i]).wf_at(
                i,
                g.nodes.len(),
            ) by {
                assert(self.nodes[i].wf_at(i, self.nodes.len()));
                lemma_filtered_within(self.nodes[i].edges, avoiding(e.target()), self.nodes.len());
            }
        }
        if !self.is_directed {
            let h = g.drop_edges(e.target(), e.source());
            assert forall|i: int| 0 <= i < h.nodes.len() implies (#[trigger] h.nodes[i]).wf_at(
                i,
                h.nodes.len(),
            ) by {
                assert(g.nodes[i].wf_at(i, g.nodes.len()));
                lemma_filtered_within(g.nodes[i].edges, avoiding(e.source()), g.nodes.len());
            }
        }
    }

    /// Resetting clears every node, keeps the shape of the graph, and
    /// resetting again changes nothing.
    pub proof fn lemma_reset(self)
        ensures
            self.reset().is_reset(),
            self.reset().len() == self.len(),
            self.reset().reset() == self.reset(),
            self.same_topology(self.reset()),
            self.wf() ==> self.reset().wf(),
            self.is_reset() ==> self.reset() == self,
    {
        assert(self.reset().reset().nodes =~= self.reset().nodes);
        if self.is_reset() {
            assert(self.reset().nodes =~= self.nodes);
        }
        if self.wf() {
            assert forall|i: int| 0 <= i < self.reset().nodes.len() implies (
            #[trigger] self.reset().nodes[i]).wf_at(i, self.reset().nodes.len()) by {
                assert(self.nodes[i].wf_at(i, self.nodes.len()));
            }
        }
    }
}

/// Stopping a run clears the graph as a reset does, and resetting is
/// idempotent: to stop and reset a second time leaves the graph as the
/// first time left it.
pub proof fn lemma_stop_and_reset_twice(g: GraphView)
    ensures
        g.reset().reset().reset().reset() == g.reset().reset(),
        g.reset().reset() == g.reset(),
{
    g.lemma_reset();
    g.reset().lemma_reset();
}

/// Filtering an edge list keeps its edges inside the graph.
pub proof fn lemma_filtered_within(edges: Seq<Edge>, keep: spec_fn(Edge) -> bool, n: nat)
    requires
        forall|k: int| 0 <= k < edges.len() ==> (#[trigger] edges[k]).within(n),
    ensures
        forall|k: int| 0 <= k < edges.filter(keep).len() ==> (#[trigger] edges.filter(keep)[k]).within(n),
{
    let f = edges.filter(keep);
    assert forall|k: int| 0 <= k < f.len() implies (#[trigger] f[k]).within(n) by {
        assert(f.contains(f[k]));
        edges.lemma_filter_contains_rev(keep, f[k]);
        assert(edges.contains(f[k]));
    }
}


pub struct Graph {
    name: String,
    nodes: Vec<Node>,
    next_index: NodeIndex,
    is_directed: bool,
    is_weighted: bool,
}

impl View for Graph {
    type V = GraphView;

    closed spec fn view(&self) -> GraphView {
        GraphView {
            name: self.name@,
            nodes: models(self.nodes@),
            next_index: self.next_index,
            is_directed: self.is_directed,
            is_weighted: self.is_weighted,
        }
    }
}

impl Graph {
    pub fn new(name: String, directed: bool, weighted: bool) -> (g: Self)
        ensures
            g@ == (GraphView {
                name: name@,
                nodes: Seq::empty(),
                next_index: NodeIndex(0),
                is_directed: directed,
                is_weighted: weighted,
            }),
            g@.wf(),
    {
        let g = Graph {
            name,
            nodes: Vec::new(),
            next_index: NodeIndex(0),
            is_directed: directed,
            is_weighted: weighted,
        };
        assert(g@.nodes =~= Seq::empty());
        g
    }

    /// Appends a node and wires each initial connection as `add_edge`
    /// wires an edge from the new node.
    pub fn add_node(
        &mut self,
        pos: (i32, i32),
        name: String,
        connections: Vec<(NodeIndex, Option<u64>)>,
    )
        requires
            old(self)@.wf(),
            forall|k: int|
                0 <= k < connections@.len() ==> old(self)@.has((#[trigger] connections@[k]).0),
        ensures
            final(self)@ == old(self)@.with_node(pos, name@, connections@),
            final(self)@.wf(),
            final(self)@.len() == old(self)@.len() + 1,
    {
        let id = self.next_index;
        let ghost label = name@;
        let node = Node::new(id, pos, name, Vec::new());
        assert(node.model().edges =~= Seq::empty());
        self.nodes.push(node);
        let count = self.nodes.len();
        assert(self.next_index.0 + 1 == count);
        self.next_index = self.next_index.next();
        let ghost base = old(self)@.with_lone_node(pos, label);
        proof {
            assert(self@.nodes =~= base.nodes);
            assert forall|i: int| 0 <= i < base.nodes.len() implies (#[trigger] base.nodes[i]).wf_at(
                i,
                base.nodes.len(),
            ) by {
                if i < old(self)@.nodes.len() {
                    assert(old(self)@.nodes[i].wf_at(i, old(self)@.nodes.len()));
                }
            }
        }
        let mut i: usize = 0;
        while i < connections.len()
            invariant
                i <= connections.len(),
                base.wf(),
                base.has(id),
                base.len() == old(self)@.len() + 1,
                forall|k: int| 0 <= k < connections@.len() ==> base.has((#[trigger] connections@[k]).0),
                self@ == base.connect(id, connections@.take(i as int)),
                self@.wf(),
                self@.len() == base.len(),
            decreases connections.len() - i,
        {
            let c = connections[i];
            proof {
                assert(connections@.take(i + 1).drop_last() == connections@.take(i as int));
                assert(base.has(connections@[i as int].0));
            }
            self.add_edge(id, c.0, c.1);
            i += 1;
        }
        assert(connections@.take(i as int) == connections@);
    }

    /// Adds an edge from `a` to `b`, and its mirror image when the graph
    /// is undirected. A self-loop is ignored.
    pub fn add_edge(&mut self, a: NodeIndex, b: NodeIndex, weight: Option<u64>)
        requires
            old(self)@.wf(),
            a != b ==> old(self)@.has(a) && old(self)@.has(b),
        ensures
            final(self)@ == old(self)@.with_edge(a, b, weight),
            final(self)@.wf(),
            final(self)@.len() == old(self)@.len(),
    {
        proof {
            old(self)@.lemma_with_edge_wf(a, b, weight);
        }
        if a == b {
            return ;
        }
        assert(old(self)@.nodes[a.0 as int].wf_at(a.0 as int, old(self)@.nodes.len()));
        assert(old(self)@.nodes[b.0 as int].wf_at(b.0 as int, old(self)@.nodes.len()));
        self.nodes[a.index()].add_edge(b, weight);
        let ghost g = old(self)@.push_edge(a, Edge::make(a, b, weight));
        assert(self@.nodes =~= g.nodes);
        if !self.is_directed {
            self.nodes[b.index()].add_edge(a, weight);
            assert(self@.nodes =~= g.push_edge(b, Edge::make(b, a, weight)).nodes);
        }
    }

    /// Removes the edges between the endpoints of `e` from the list of its
    /// first endpoint, and from that of the second when the graph is
    /// undirected.
    pub fn remove_edge(&mut self, e: Edge)
        requires
            old(self)@.has(e.source()),
            !old(self)@.is_directed ==> old(self)@.has(e.target()),
        ensures
            final(self)@ == old(self)@.without_edge(e),
            final(self)@.len() == old(self)@.len(),
            old(self)@.wf() ==> final(self)@.wf(),
    {
        proof {
            if old(self)@.wf() {
                old(self)@.lemma_without_edge_wf(e);
            }
        }
        let (a, b) = e.get_nodes();
        self.nodes[a.index()].remove_edge(b);
        let ghost g = old(self)@.drop_edges(a, b);
        assert(self@.nodes =~= g.nodes);
        if !self.is_directed {
            self.nodes[b.index()].remove_edge(a);
            assert(self@.nodes =~= g.drop_edges(b, a).nodes);
        }
    }

    pub fn get_node(&self, idx: NodeIndex) -> (node: &Node)
        requires
            self@.has(idx),
        ensures
            node.model() == self@.node(idx),
    {
        &self.nodes[idx.index()]
    }

    pub fn try_get_node(&self, idx: NodeIndex) -> (r: Option<&Node>)
        ensures
            r is Some <==> self@.has(idx),
            r matches Some(node) ==> node.model() == self@.node(idx),
    {
        if idx.index() < self.nodes.len() {
            Some(&self.nodes[idx.index()])
        } else {
            None
        }
    }

    pub fn try_get_node_mut(&mut self, idx: NodeIndex) -> (r: Option<&mut Node>)
        ensures
            r is Some <==> old(self)@.has(idx),
            match r {
                Some(node) => node.model() == old(self)@.node(idx) && final(self)@ == old(
                    self,
                )@.set_node(idx, final(node).model()),
                None => final(self)@ == old(self)@,
            },
    {
        if idx.index() < self.nodes.len() {
            let node = &mut self.nodes[idx.index()];
            proof {
                assert(models(old(self).nodes@.update(idx.0 as int, *final(node))) =~= models(
                    old(self).nodes@,
                ).update(idx.0 as int, final(node).model()));
            }
            Some(node)
        } else {
            None
        }
    }

    pub fn get_nodes(&self) -> (nodes: &[Node])
        ensures
            models(nodes@) == self@.nodes,
    {
        self.nodes.as_slice()
    }

    pub fn get_nodes_mut(&mut self) -> (nodes: &mut [Node])
        ensures
            models(nodes@) == old(self)@.nodes,
            final(self)@ == (GraphView { nodes: models(final(nodes)@), ..old(self)@ }),
    {
        self.nodes.as_mut_slice()
    }

    pub fn get_node_mut(&mut self, idx: NodeIndex) -> (node: &mut Node)
        requires
            old(self)@.has(idx),
        ensures
            node.model() == old(self)@.node(idx),
            final(self)@ == old(self)@.set_node(idx, final(node).model()),
    {
        let node = &mut self.nodes[idx.index()];
        proof {
            assert(models(old(self).nodes@.update(idx.0 as int, *final(node))) =~= models(
                old(self).nodes@,
            ).update(idx.0 as int, final(node).model()));
        }
        node
    }

    /// Clears the marks of a search on every node; the shape of the graph
    /// stays as it is.
    pub fn reset(&mut self)
        ensures
            final(self)@ == old(self)@.reset(),
            final(self)@.is_reset(),
            final(self)@.len() == old(self)@.len(),
            old(self)@.wf() ==> final(self)@.wf(),
    {
        proof {
            old(self)@.lemma_reset();
        }
        let mut i: usize = 0;
        while i < self.nodes.len()
            invariant
                i <= self.nodes.len(),
                self.nodes.len() == old(self).nodes.len(),
                self.name == old(self).name,
                self.next_index == old(self).next_index,
                self.is_directed == old(self).is_directed,
                self.is_weighted == old(self).is_weighted,
                forall|j: int|
                    0 <= j < i ==> (#[trigger] self.nodes@[j]).model() == old(
                        self,
                    ).nodes@[j].model().cleared(),
                forall|j: int| i <= j < self.nodes.len() ==> self.nodes@[j] == old(self).nodes@[j],
            decreases self.nodes.len() - i,
        {
            self.nodes[i].reset();
            i += 1;
        }
        assert(self@.nodes =~= old(self)@.reset().nodes);
    }

    pub fn is_directed(&self) -> (d: bool)
        ensures
            d == self@.is_directed,
    {
        self.is_directed
    }

    pub fn is_weighted(&self) -> (w: bool)
        ensures
            w == self@.is_weighted,
    {
        self.is_weighted
    }

    pub fn get_name(&self) -> (name: String)
        ensures
            name@ == self@.name,
    {
        self.name.clone()
    }

    /// The neighbors of `idx` when direction is ignored: for a directed
    /// graph the nodes with an edge to `idx`, then those `idx` has an edge
    /// to.
    pub fn get_connections(&self, idx: NodeIndex) -> (r: Vec<NodeIndex>)
        requires
            self@.has(idx),
        ensures
            r@ == self@.connections(idx),
    {
        if self.is_directed {
            let mut in_bound: Vec<NodeIndex> = Vec::new();
            let ghost all = self@.nodes;
            let mut i: usize = 0;
            while i < self.nodes.len()
                invariant
                    i <= self.nodes.len(),
                    all == self@.nodes,
                    all.len() == self.nodes.len(),
                    in_bound@ == all.take(i as int).filter(pointing_at(idx)).map_values(node_id()),
                decreases self.nodes.len() - i,
            {
                let node = &self.nodes[i];
                let near = node.get_neighbors();
                let found = contains_index(&near, idx);
                proof {
                    reveal(Seq::filter);
                    assert(all.take(i + 1).drop_last() == all.take(i as int));
                    assert(all.take(i + 1).last() == node.model());
                    let before = all.take(i as int).filter(pointing_at(idx));
                    if found {
                        assert(before.push(node.model()).map_values(node_id()) =~= before.map_values(
                            node_id(),
                        ).push(node.model().id));
                    }
                }
                if found {
                    in_bound.push(node.get_id());
                }
                i += 1;
            }
            assert(all.take(i as int) == all);
            let mut out = self.get_node(idx).get_neighbors();
            let ghost heads = in_bound@;
            let ghost tails = out@;
            in_bound.append(&mut out);
            assert(in_bound@ =~= heads + tails);
            in_bound
        } else {
            self.get_node(idx).get_neighbors()
        }
    }

    /// Whether the list of `a` holds an edge that joins `a` and `b`.
    pub fn joined(&self, a: NodeIndex, b: NodeIndex) -> (found: bool)
        requires
            self@.has(a),
        ensures
            found == self@.joined(a, b),
    {
        let edges = self.get_node(a).get_edges();
        let mut i: usize = 0;
        while i < edges.len()
            invariant
                i <= edges.len(),
                edges@ == self@.node(a).edges,
                forall|k: int| 0 <= k < i ==> !(#[trigger] edges@[k]).joins(a, b, self@.is_directed),
            decreases edges.len() - i,
        {
            let (c, d) = edges[i].get_nodes();
            let hit = if c == a {
                d == b
            } else if !self.is_directed {
                c == b
            } else {
                false
            };
            if hit {
                return true;
            }
            i += 1;
        }
        false
    }

    /// The edge between the node `v` and its predecessor `p`.
    pub fn link(&self, p: NodeIndex, v: NodeIndex) -> (e: Edge)
        requires
            self@.has(p),
            self@.has(v),
        ensures
            e == self@.link(p, v),
    {
        let forth = self.get_node(p).get_edges();
        match lightest(&forth, p, v) {
            Some(e) => e,
            None => {
                let back = self.get_node(v).get_edges();
                match lightest(&back, v, p) {
                    Some(e) => e,
                    None => Edge::new(p, v, None),
                }
            },
        }
    }

    /// Reconstructs the path that a run has found to `goal`: the edge
    /// between each node and its predecessor, starting at `goal`. No edge
    /// is returned for a node that the run has not reached.
    pub fn path_to(&self, goal: NodeIndex) -> (path: Vec<Edge>)
        requires
            self@.wf(),
            self@.has(goal),
        ensures
            path@ == self@.path_back(goal, self@.len()),
    {
        let mut path: Vec<Edge> = Vec::new();
        let mut curr = goal;
        let mut left: usize = self.nodes.len();
        let ghost g = self@;
        while left > 0
            invariant
                g == self@,
                g.wf(),
                g.has(curr),
                left <= g.len(),
                path@ + g.path_back(curr, left as nat) == g.path_back(goal, g.len()),
            ensures
                path@ == g.path_back(goal, g.len()),
            decreases left,
        {
            proof {
                assert(g.nodes[curr.0 as int].wf_at(curr.0 as int, g.nodes.len()));
            }
            match self.get_node(curr).get_last_node() {
                Some(p) => {
                    if p == curr {
                        proof {
                            assert(path@ + Seq::<Edge>::empty() =~= path@);
                        }
                        break ;
                    }
                    let ghost before = path@;
                    path.push(self.link(p, curr));
                    proof {
                        assert(path@ + g.path_back(p, (left - 1) as nat) =~= before + g.path_back(
                            curr,
                            left as nat,
                        ));
                    }
                    curr = p;
                    left -= 1;
                },
                None => {
                    proof {
                        assert(path@ + Seq::<Edge>::empty() =~= path@);
                    }
                    break ;
                },
            }
            proof {
                if left == 0 {
                    assert(path@ + Seq::<Edge>::empty() =~= path@);
                }
            }
        }
        path
    }
}

/// What a list holds once a value was pushed onto it.
pub proof fn lemma_push_contains<A>(s: Seq<A>, last: A, x: A)
    ensures
        s.push(last).contains(x) <==> s.contains(x) || x == last,
{
    if s.contains(x) {
        let i = choose|i: int| 0 <= i < s.len() && s[i] == x;
        assert(s.push(last)[i] == x);
    }
    if x == last {
        assert(s.push(last)[s.len() as int] == x);
    }
}

/// Whether `idx` occurs in `list`.
pub fn contains_index(list: &Vec<NodeIndex>, idx: NodeIndex) -> (found: bool)
    ensures
        found == list@.contains(idx),
{
    let mut i: usize = 0;
    while i < list.len()
        invariant
            i <= list.len(),
            forall|j: int| 0 <= j < i ==> list@[j] != idx,
        decreases list.len() - i,
    {
        if list[i] == idx {
            return true;
        }
        i += 1;
    }
    false
}

} // verus!
