use graph_visualizer::graph::{Edge, Graph, Node, NodeIndex, NodeState};

fn named(name: &str) -> String {
    name.to_string()
}

fn triangle(directed: bool) -> Graph {
    let mut g = Graph::new(named("g"), directed, false);
    g.add_node((0, 0), named("A"), Vec::new());
    g.add_node((10, 0), named("B"), Vec::new());
    g.add_node((0, 10), named("C"), Vec::new());
    g
}

fn ends(edges: &[Edge]) -> Vec<(usize, usize, u64)> {
    edges
        .iter()
        .map(|e| {
            let (w, a, b) = e.get_weighted_nodes();
            (a.index(), b.index(), w)
        })
        .collect()
}

#[test]
fn node_index_reports_position_and_successor() {
    let i = NodeIndex(4);
    assert_eq!(i.index(), 4);
    assert_eq!(i.next(), NodeIndex(5));
    assert_eq!(NodeIndex(0).next().index(), 1);
}

#[test]
fn edge_without_weight_counts_one_unit() {
    let e = Edge::new(NodeIndex(1), NodeIndex(2), None);
    assert_eq!(e.get_weight(), 1);
    assert_eq!(e.get_nodes(), (NodeIndex(1), NodeIndex(2)));
    let f = Edge::new(NodeIndex(3), NodeIndex(0), Some(7));
    assert_eq!(f.get_weighted_nodes(), (7, NodeIndex(3), NodeIndex(0)));
}

#[test]
fn new_graph_is_empty_and_keeps_its_flags() {
    let g = Graph::new(named("roads"), true, false);
    assert_eq!(g.get_name(), "roads");
    assert!(g.is_directed());
    assert!(!g.is_weighted());
    assert_eq!(g.get_nodes().len(), 0);
    assert!(g.try_get_node(NodeIndex(0)).is_none());
}

#[test]
fn add_node_allocates_indices_in_order() {
    let g = triangle(false);
    let ids: Vec<usize> = g.get_nodes().iter().map(|n| n.get_id().index()).collect();
    assert_eq!(ids, vec![0, 1, 2]);
    assert_eq!(g.get_node(NodeIndex(1)).get_name(), "B");
    assert_eq!(g.get_node(NodeIndex(2)).get_pos(), (0, 10));
    assert_eq!(g.get_node(NodeIndex(0)).get_state(), NodeState::Unvisited);
    assert_eq!(g.get_node(NodeIndex(0)).get_last_node(), None);
    assert_eq!(g.get_node(NodeIndex(0)).get_curr_path(), None);
}

#[test]
fn add_node_wires_connections_both_ways_when_undirected() {
    let mut g = triangle(false);
    g.add_node((5, 5), named("D"), vec![(NodeIndex(0), Some(4)), (NodeIndex(2), None)]);
    assert_eq!(ends(&g.get_node(NodeIndex(3)).get_edges()), vec![(3, 0, 4), (3, 2, 1)]);
    assert_eq!(ends(&g.get_node(NodeIndex(0)).get_edges()), vec![(0, 3, 4)]);
    assert_eq!(ends(&g.get_node(NodeIndex(2)).get_edges()), vec![(2, 3, 1)]);
    assert!(g.get_node(NodeIndex(1)).get_edges().is_empty());
}

#[test]
fn add_node_wires_connections_from_the_new_node_when_directed() {
    let mut g = triangle(true);
    g.add_node((5, 5), named("D"), vec![(NodeIndex(1), Some(2))]);
    assert_eq!(ends(&g.get_node(NodeIndex(3)).get_edges()), vec![(3, 1, 2)]);
    assert!(g.get_node(NodeIndex(1)).get_edges().is_empty());
}

#[test]
fn add_edge_undirected_lands_in_both_lists() {
    let mut g = triangle(false);
    g.add_edge(NodeIndex(0), NodeIndex(1), Some(9));
    assert_eq!(ends(&g.get_node(NodeIndex(0)).get_edges()), vec![(0, 1, 9)]);
    assert_eq!(ends(&g.get_node(NodeIndex(1)).get_edges()), vec![(1, 0, 9)]);
    assert_eq!(g.get_node(NodeIndex(0)).get_neighbors(), vec![NodeIndex(1)]);
    assert_eq!(g.get_node(NodeIndex(1)).get_neighbors(), vec![NodeIndex(0)]);
}

#[test]
fn add_edge_directed_lands_in_the_source_list_only() {
    let mut g = triangle(true);
    g.add_edge(NodeIndex(0), NodeIndex(1), None);
    assert_eq!(ends(&g.get_node(NodeIndex(0)).get_edges()), vec![(0, 1, 1)]);
    assert!(g.get_node(NodeIndex(1)).get_edges().is_empty());
}

#[test]
fn add_edge_ignores_a_self_loop() {
    let mut g = triangle(false);
    g.add_edge(NodeIndex(1), NodeIndex(1), Some(3));
    assert!(g.get_node(NodeIndex(1)).get_edges().is_empty());
    // Not even an index outside the graph matters for a self-loop.
    g.add_edge(NodeIndex(40), NodeIndex(40), None);
    assert_eq!(g.get_nodes().len(), 3);
}

#[test]
fn remove_edge_undirected_clears_both_lists() {
    let mut g = triangle(false);
    g.add_edge(NodeIndex(0), NodeIndex(1), None);
    g.add_edge(NodeIndex(0), NodeIndex(2), None);
    g.add_edge(NodeIndex(0), NodeIndex(1), Some(8));
    let e = g.get_node(NodeIndex(0)).get_edges()[0];
    g.remove_edge(e);
    assert_eq!(ends(&g.get_node(NodeIndex(0)).get_edges()), vec![(0, 2, 1)]);
    assert!(g.get_node(NodeIndex(1)).get_edges().is_empty());
    assert_eq!(ends(&g.get_node(NodeIndex(2)).get_edges()), vec![(2, 0, 1)]);
}

#[test]
fn remove_edge_directed_leaves_the_reverse_edge() {
    let mut g = triangle(true);
    g.add_edge(NodeIndex(0), NodeIndex(1), None);
    g.add_edge(NodeIndex(1), NodeIndex(0), None);
    g.remove_edge(Edge::new(NodeIndex(0), NodeIndex(1), None));
    assert!(g.get_node(NodeIndex(0)).get_edges().is_empty());
    assert_eq!(ends(&g.get_node(NodeIndex(1)).get_edges()), vec![(1, 0, 1)]);
}

#[test]
fn try_get_node_tells_valid_from_invalid() {
    let mut g = triangle(false);
    assert_eq!(g.try_get_node(NodeIndex(2)).map(|n| n.get_id()), Some(NodeIndex(2)));
    assert!(g.try_get_node(NodeIndex(3)).is_none());
    assert!(g.try_get_node_mut(NodeIndex(3)).is_none());
    match g.try_get_node_mut(NodeIndex(1)) {
        Some(n) => *n.get_pos_mut() = (7, 8),
        None => panic!("node 1 exists"),
    }
    assert_eq!(g.get_node(NodeIndex(1)).get_pos(), (7, 8));
}

#[test]
fn get_node_mut_and_get_nodes_mut_reach_the_nodes() {
    let mut g = triangle(false);
    g.get_node_mut(NodeIndex(0)).visit();
    assert_eq!(g.get_node(NodeIndex(0)).get_state(), NodeState::Visited);
    for n in g.get_nodes_mut() {
        n.view();
    }
    assert!(g.get_nodes().iter().all(|n| n.get_state() == NodeState::Seen));
}

#[test]
fn connections_of_an_undirected_graph_are_the_neighbors() {
    let mut g = triangle(false);
    g.add_edge(NodeIndex(0), NodeIndex(1), None);
    g.add_edge(NodeIndex(2), NodeIndex(0), None);
    assert_eq!(g.get_connections(NodeIndex(0)), vec![NodeIndex(1), NodeIndex(2)]);
}

#[test]
fn connections_of_a_directed_graph_join_inbound_and_outbound() {
    let mut g = triangle(true);
    g.add_edge(NodeIndex(1), NodeIndex(0), None);
    g.add_edge(NodeIndex(0), NodeIndex(2), None);
    g.add_edge(NodeIndex(2), NodeIndex(1), None);
    assert_eq!(g.get_connections(NodeIndex(0)), vec![NodeIndex(1), NodeIndex(2)]);
    assert_eq!(g.get_connections(NodeIndex(1)), vec![NodeIndex(2), NodeIndex(0)]);
    assert_eq!(g.get_node(NodeIndex(0)).get_neighbors(), vec![NodeIndex(2)]);
}

#[test]
fn node_marks_follow_the_calls() {
    let mut n = Node::new(NodeIndex(3), (1, 2), named("n"), vec![(NodeIndex(0), Some(2))]);
    assert_eq!(n.get_state(), NodeState::Unvisited);
    n.view();
    assert_eq!(n.get_state(), NodeState::Seen);
    n.start();
    assert_eq!(n.get_state(), NodeState::Start);
    n.visit();
    assert_eq!(n.get_state(), NodeState::Visited);
    n.end();
    assert_eq!(n.get_state(), NodeState::End);
    n.set_last_node(NodeIndex(0), 11);
    assert_eq!(n.get_last_node(), Some(NodeIndex(0)));
    assert_eq!(n.get_curr_path(), Some(11));
    n.reset();
    assert_eq!(n.get_state(), NodeState::Unvisited);
    assert_eq!(n.get_last_node(), None);
    assert_eq!(n.get_curr_path(), None);
    assert_eq!(ends(&n.get_edges()), vec![(3, 0, 2)]);
}

#[test]
fn node_remove_edge_drops_every_edge_to_the_other_node() {
    let mut n = Node::new(
        NodeIndex(0),
        (0, 0),
        named("n"),
        vec![(NodeIndex(1), None), (NodeIndex(2), None), (NodeIndex(1), Some(5))],
    );
    n.add_edge(NodeIndex(3), Some(6));
    n.remove_edge(NodeIndex(1));
    assert_eq!(ends(&n.get_edges()), vec![(0, 2, 1), (0, 3, 6)]);
}

#[test]
fn reset_restores_every_node_and_keeps_the_edges() {
    let mut g = triangle(false);
    g.add_edge(NodeIndex(0), NodeIndex(1), Some(2));
    g.get_node_mut(NodeIndex(0)).start();
    g.get_node_mut(NodeIndex(1)).view();
    g.get_node_mut(NodeIndex(1)).set_last_node(NodeIndex(0), 2);
    g.get_node_mut(NodeIndex(2)).end();
    g.reset();
    for n in g.get_nodes() {
        assert_eq!(n.get_state(), NodeState::Unvisited);
        assert_eq!(n.get_last_node(), None);
        assert_eq!(n.get_curr_path(), None);
    }
    assert_eq!(ends(&g.get_node(NodeIndex(0)).get_edges()), vec![(0, 1, 2)]);
    assert_eq!(g.get_node(NodeIndex(1)).get_name(), "B");
}

#[test]
fn path_to_an_unreached_node_is_empty() {
    let mut g = triangle(false);
    g.add_edge(NodeIndex(0), NodeIndex(1), None);
    assert!(g.path_to(NodeIndex(2)).is_empty());
}

#[test]
fn path_to_follows_predecessors_back_to_the_origin() {
    let mut g = triangle(false);
    g.get_node_mut(NodeIndex(1)).set_last_node(NodeIndex(0), 1);
    g.get_node_mut(NodeIndex(2)).set_last_node(NodeIndex(1), 2);
    assert_eq!(ends(&g.path_to(NodeIndex(2))), vec![(1, 2, 1), (0, 1, 1)]);
}

#[test]
fn path_to_stops_on_a_cycle_of_predecessors() {
    let mut g = triangle(false);
    g.get_node_mut(NodeIndex(0)).set_last_node(NodeIndex(1), 1);
    g.get_node_mut(NodeIndex(1)).set_last_node(NodeIndex(0), 1);
    assert_eq!(g.path_to(NodeIndex(0)).len(), 3);
}

#[test]
fn joined_looks_for_an_edge_in_the_list_of_the_first_node() {
    let mut g = triangle(true);
    g.add_edge(NodeIndex(0), NodeIndex(1), None);
    assert!(g.joined(NodeIndex(0), NodeIndex(1)));
    assert!(!g.joined(NodeIndex(1), NodeIndex(0)));
    assert!(!g.joined(NodeIndex(0), NodeIndex(2)));
    let mut u = triangle(false);
    u.add_edge(NodeIndex(0), NodeIndex(1), None);
    assert!(u.joined(NodeIndex(0), NodeIndex(1)));
    assert!(u.joined(NodeIndex(1), NodeIndex(0)));
    assert!(!u.joined(NodeIndex(2), NodeIndex(0)));
}

#[test]
fn link_is_the_lightest_record_between_a_node_and_its_predecessor() {
    let mut g = triangle(true);
    g.add_edge(NodeIndex(0), NodeIndex(1), Some(9));
    g.add_edge(NodeIndex(0), NodeIndex(1), Some(3));
    g.add_edge(NodeIndex(0), NodeIndex(1), Some(3));
    g.add_edge(NodeIndex(2), NodeIndex(0), Some(4));
    assert_eq!(g.link(NodeIndex(0), NodeIndex(1)).get_weighted_nodes(), (3, NodeIndex(0), NodeIndex(1)));
    // Only the list of 2 joins 0 and 2.
    assert_eq!(g.link(NodeIndex(0), NodeIndex(2)).get_weighted_nodes(), (4, NodeIndex(2), NodeIndex(0)));
    // Nothing joins 1 and 2.
    assert_eq!(g.link(NodeIndex(1), NodeIndex(2)).get_weighted_nodes(), (1, NodeIndex(1), NodeIndex(2)));
}

#[test]
fn path_to_takes_the_records_of_the_graph() {
    let mut g = triangle(false);
    g.add_edge(NodeIndex(0), NodeIndex(1), Some(5));
    g.add_edge(NodeIndex(1), NodeIndex(2), Some(7));
    g.get_node_mut(NodeIndex(1)).set_last_node(NodeIndex(0), 5);
    g.get_node_mut(NodeIndex(2)).set_last_node(NodeIndex(1), 12);
    assert_eq!(ends(&g.path_to(NodeIndex(2))), vec![(1, 2, 7), (0, 1, 5)]);
}
