use graph_visualizer::graph::{Graph, NodeIndex, NodeState};
use graph_visualizer::run::search;
use graph_visualizer::traversers::{GraphTraversers, TraversalData};

const ALL: [GraphTraversers; 5] = [
    GraphTraversers::DepthFirst,
    GraphTraversers::BreadthFirst,
    GraphTraversers::Dijkstras,
    GraphTraversers::AStar,
    GraphTraversers::SimpleBreadth,
];

fn build(directed: bool, nodes: usize, edges: &[(usize, usize, u64)]) -> Graph {
    let mut g = Graph::new("g".to_string(), directed, true);
    for i in 0..nodes {
        g.add_node(((i as i32) * 10, (i as i32) * 3), format!("n{}", i), Vec::new());
    }
    for (a, b, w) in edges {
        g.add_edge(NodeIndex(*a), NodeIndex(*b), Some(*w));
    }
    g
}

/// The nodes of the reconstructed path, from the start to the goal.
fn route(g: &Graph, goal: usize) -> Vec<usize> {
    let mut nodes = vec![goal];
    for e in g.path_to(NodeIndex(goal)) {
        let (a, b) = e.get_nodes();
        let here = *nodes.last().unwrap();
        // A search that ignores direction may have gone against the edge.
        assert!(a.index() == here || b.index() == here);
        nodes.push(if b.index() == here { a.index() } else { b.index() });
    }
    nodes.reverse();
    nodes
}

fn lightest(edges: &[(usize, usize, u64)], a: usize, b: usize) -> u64 {
    edges
        .iter()
        .filter(|(x, y, _)| (*x == a && *y == b) || (*x == b && *y == a))
        .map(|(_, _, w)| *w)
        .min()
        .unwrap()
}

const MESH: [(usize, usize, u64); 9] = [
    (0, 1, 7),
    (0, 2, 2),
    (2, 1, 3),
    (1, 3, 1),
    (2, 4, 9),
    (3, 4, 2),
    (4, 5, 1),
    (3, 5, 8),
    (0, 5, 20),
];

#[test]
fn run_reaches_a_reachable_goal_with_every_algorithm() {
    for alg in ALL {
        let mut g = build(false, 7, &MESH);
        let mut t = TraversalData::new(NodeIndex(0), NodeIndex(5));
        assert!(t.run(&mut g, alg));
        assert!(t.visited.contains(&5));
        assert_eq!(g.get_node(NodeIndex(5)).get_state(), NodeState::End);
        let nodes = route(&g, 5);
        assert_eq!(nodes.first(), Some(&0));
        assert_eq!(nodes.last(), Some(&5));
        let mut seen = nodes.clone();
        seen.sort();
        seen.dedup();
        assert_eq!(seen.len(), nodes.len());
        for pair in nodes.windows(2) {
            assert!(g.get_node(NodeIndex(pair[0])).get_neighbors().contains(&NodeIndex(pair[1])));
        }
    }
}

#[test]
fn run_ends_without_marking_an_unreachable_goal() {
    for alg in ALL {
        let mut g = build(false, 7, &MESH);
        let mut t = TraversalData::new(NodeIndex(0), NodeIndex(6));
        assert!(!t.run(&mut g, alg));
        assert!(t.to_traverse.is_empty());
        assert_eq!(t.visited.len(), 6);
        assert_eq!(g.get_node(NodeIndex(6)).get_state(), NodeState::Unvisited);
        assert!(g.path_to(NodeIndex(6)).is_empty());
    }
}

#[test]
fn breadth_first_run_has_the_fewest_hops() {
    let mut g = build(false, 7, &MESH);
    let mut t = TraversalData::new(NodeIndex(0), NodeIndex(4));
    assert!(t.run(&mut g, GraphTraversers::BreadthFirst));
    // 0-2-4 has two hops; no edge joins 0 and 4.
    assert_eq!(route(&g, 4), vec![0, 2, 4]);
    assert_eq!(g.get_node(NodeIndex(4)).get_curr_path(), Some(2));
    assert_eq!(g.path_to(NodeIndex(4)).len(), 2);
}

#[test]
fn dijkstra_run_has_the_least_weight() {
    let mut g = build(false, 7, &MESH);
    let mut t = TraversalData::new(NodeIndex(0), NodeIndex(5));
    assert!(t.run(&mut g, GraphTraversers::Dijkstras));
    // 0-2 (2), 2-1 (3), 1-3 (1), 3-4 (2), 4-5 (1).
    assert_eq!(route(&g, 5), vec![0, 2, 1, 3, 4, 5]);
    assert_eq!(g.get_node(NodeIndex(5)).get_curr_path(), Some(9));
    let weights: Vec<u64> = g.path_to(NodeIndex(5)).iter().map(|e| e.get_weight()).collect();
    assert_eq!(weights, vec![1, 2, 1, 3, 2]);
    let dijkstra: u64 = route(&g, 5).windows(2).map(|p| lightest(&MESH, p[0], p[1])).sum();
    assert_eq!(dijkstra, 9);
    for alg in [GraphTraversers::BreadthFirst, GraphTraversers::DepthFirst] {
        let mut h = build(false, 7, &MESH);
        let mut u = TraversalData::new(NodeIndex(0), NodeIndex(5));
        assert!(u.run(&mut h, alg));
        let other: u64 = route(&h, 5).windows(2).map(|p| lightest(&MESH, p[0], p[1])).sum();
        assert!(dijkstra <= other);
    }
}

#[test]
fn dijkstra_run_copes_with_edges_of_no_weight() {
    let mut g = build(false, 4, &[(0, 1, 0), (1, 2, 0), (2, 0, 0), (2, 3, 0)]);
    let mut t = TraversalData::new(NodeIndex(0), NodeIndex(3));
    assert!(t.run(&mut g, GraphTraversers::Dijkstras));
    assert_eq!(g.get_node(NodeIndex(3)).get_curr_path(), Some(0));
    assert_eq!(route(&g, 3), vec![0, 2, 3]);
}

#[test]
fn search_clears_old_marks_before_it_runs() {
    let mut g = build(false, 7, &MESH);
    let first = search(&mut g, GraphTraversers::DepthFirst, NodeIndex(0), NodeIndex(3));
    assert!(first.visited.contains(&3));
    let second = search(&mut g, GraphTraversers::BreadthFirst, NodeIndex(5), NodeIndex(6));
    assert!(!second.visited.contains(&6));
    assert_eq!(second.start_node, NodeIndex(5));
    assert_eq!(g.get_node(NodeIndex(3)).get_state(), NodeState::Visited);
    assert_eq!(g.get_node(NodeIndex(5)).get_state(), NodeState::Start);
    assert_eq!(g.get_node(NodeIndex(6)).get_state(), NodeState::Unvisited);
    let third = search(&mut g, GraphTraversers::Dijkstras, NodeIndex(1), NodeIndex(1));
    assert!(third.visited.contains(&1));
    assert_eq!(g.get_node(NodeIndex(1)).get_state(), NodeState::End);
    assert_eq!(g.get_node(NodeIndex(0)).get_state(), NodeState::Unvisited);
    assert!(g.path_to(NodeIndex(1)).is_empty());
}

#[test]
fn search_follows_arrows_unless_told_to_ignore_them() {
    let edges = [(1, 0, 1), (1, 2, 1)];
    let mut g = build(true, 3, &edges);
    let strict = search(&mut g, GraphTraversers::BreadthFirst, NodeIndex(0), NodeIndex(2));
    assert!(!strict.visited.contains(&2));
    assert_eq!(g.get_node(NodeIndex(2)).get_state(), NodeState::Unvisited);
    let loose = search(&mut g, GraphTraversers::SimpleBreadth, NodeIndex(0), NodeIndex(2));
    assert!(loose.visited.contains(&2));
    assert_eq!(g.get_node(NodeIndex(2)).get_state(), NodeState::End);
    assert_eq!(route(&g, 2), vec![0, 1, 2]);
}

#[test]
fn exhaust_finalizes_what_can_be_reached() {
    for alg in ALL {
        let mut g = build(false, 7, &MESH);
        let mut t = TraversalData::new(NodeIndex(0), NodeIndex(6));
        t.exhaust(&mut g, alg);
        assert!(t.to_traverse.is_empty());
        let mut visited: Vec<usize> = t.visited.iter().copied().collect();
        visited.sort();
        assert_eq!(visited, vec![0, 1, 2, 3, 4, 5]);
    }
}

#[test]
fn exhaust_goes_on_after_the_goal_but_not_through_it() {
    // 0 - 1 - 2 - 3, and 1 - 4: the goal 2 is met, and 3 lies behind it.
    let edges = [(0, 1, 1), (1, 2, 1), (2, 3, 1), (1, 4, 1)];
    let mut g = build(false, 5, &edges);
    let mut t = TraversalData::new(NodeIndex(0), NodeIndex(2));
    t.exhaust(&mut g, GraphTraversers::BreadthFirst);
    assert!(t.to_traverse.is_empty());
    let mut visited: Vec<usize> = t.visited.iter().copied().collect();
    visited.sort();
    assert_eq!(visited, vec![0, 1, 2, 4]);
    assert_eq!(g.get_node(NodeIndex(2)).get_state(), NodeState::End);
    assert_eq!(g.get_node(NodeIndex(3)).get_state(), NodeState::Unvisited);
}

#[test]
fn exhaust_of_a_run_with_nothing_waiting_changes_nothing() {
    let mut g = build(false, 3, &[(0, 1, 1)]);
    let mut t = TraversalData::new(NodeIndex(0), NodeIndex(2));
    t.exhaust(&mut g, GraphTraversers::DepthFirst);
    let before: Vec<NodeState> = g.get_nodes().iter().map(|n| n.get_state()).collect();
    t.exhaust(&mut g, GraphTraversers::DepthFirst);
    let after: Vec<NodeState> = g.get_nodes().iter().map(|n| n.get_state()).collect();
    assert_eq!(before, after);
    assert_eq!(t.visited.len(), 2);
}

#[test]
fn the_reconstructed_path_holds_the_lightest_edge_between_two_nodes() {
    // Three edges join 0 and 1; the lightest is the second.
    let mut g = build(false, 3, &[(0, 1, 7), (0, 1, 2), (0, 1, 2), (1, 2, 4)]);
    let mut t = TraversalData::new(NodeIndex(0), NodeIndex(2));
    assert!(t.run(&mut g, GraphTraversers::Dijkstras));
    assert_eq!(g.get_node(NodeIndex(2)).get_curr_path(), Some(6));
    let path: Vec<(u64, usize, usize)> = g
        .path_to(NodeIndex(2))
        .iter()
        .map(|e| {
            let (w, a, b) = e.get_weighted_nodes();
            (w, a.index(), b.index())
        })
        .collect();
    assert_eq!(path, vec![(4, 1, 2), (2, 0, 1)]);
    let total: u64 = path.iter().map(|e| e.0).sum();
    assert_eq!(total, 6);
}

#[test]
fn the_reconstructed_path_of_a_search_against_the_arrows_holds_the_arrows() {
    let mut g = build(true, 3, &[(1, 0, 5), (1, 2, 6)]);
    let t = search(&mut g, GraphTraversers::SimpleBreadth, NodeIndex(0), NodeIndex(2));
    assert!(t.visited.contains(&2));
    let path: Vec<(u64, usize, usize)> = g
        .path_to(NodeIndex(2))
        .iter()
        .map(|e| {
            let (w, a, b) = e.get_weighted_nodes();
            (w, a.index(), b.index())
        })
        .collect();
    // From 1 to 2 with the arrow; between 0 and 1 the arrow points back.
    assert_eq!(path, vec![(6, 1, 2), (5, 1, 0)]);
}
