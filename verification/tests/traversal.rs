use graph_visualizer::distance::{distance, integer_sqrt};
use graph_visualizer::frontier::{is_queued, sort_by_priority};
use graph_visualizer::graph::{Graph, NodeIndex, NodeState};
use graph_visualizer::traversers::{GraphTraversers, TraversalData};

fn graph(directed: bool, weighted: bool, nodes: usize, edges: &[(usize, usize, Option<u64>)]) -> Graph {
    let mut g = Graph::new("g".to_string(), directed, weighted);
    for i in 0..nodes {
        g.add_node((0, 0), format!("n{}", i), Vec::new());
    }
    for (a, b, w) in edges {
        g.add_edge(NodeIndex(*a), NodeIndex(*b), *w);
    }
    g
}

fn states(g: &Graph) -> Vec<NodeState> {
    g.get_nodes().iter().map(|n| n.get_state()).collect()
}

fn queue(t: &TraversalData) -> Vec<(u64, usize)> {
    t.to_traverse.iter().map(|(p, n)| (*p, n.index())).collect()
}

fn hops(g: &Graph, goal: usize) -> Vec<(usize, usize)> {
    g.path_to(NodeIndex(goal))
        .iter()
        .map(|e| {
            let (a, b) = e.get_nodes();
            (a.index(), b.index())
        })
        .collect()
}

#[test]
fn a_new_run_waits_at_its_start() {
    let t = TraversalData::new(NodeIndex(2), NodeIndex(5));
    assert_eq!(t.start_node, NodeIndex(2));
    assert_eq!(t.end_node, NodeIndex(5));
    assert_eq!(queue(&t), vec![(0, 2)]);
    assert!(t.visited.is_empty());
}

#[test]
fn breadth_first_walks_a_chain_in_three_steps() {
    let mut g = graph(false, false, 3, &[(0, 1, None), (1, 2, None)]);
    let mut t = TraversalData::new(NodeIndex(0), NodeIndex(2));

    assert!(!t.breadth_first_step(&mut g));
    assert_eq!(states(&g), vec![NodeState::Start, NodeState::Seen, NodeState::Unvisited]);
    assert_eq!(queue(&t), vec![(0, 1)]);

    assert!(!t.breadth_first_step(&mut g));
    assert_eq!(states(&g), vec![NodeState::Start, NodeState::Visited, NodeState::Seen]);
    assert_eq!(queue(&t), vec![(0, 2)]);

    assert!(t.breadth_first_step(&mut g));
    assert_eq!(states(&g), vec![NodeState::Start, NodeState::Visited, NodeState::End]);
    assert!(t.to_traverse.is_empty());
    assert_eq!(t.visited.len(), 3);

    assert_eq!(hops(&g, 2), vec![(1, 2), (0, 1)]);
    assert_eq!(g.get_node(NodeIndex(0)).get_curr_path(), None);
    assert_eq!(g.get_node(NodeIndex(1)).get_curr_path(), Some(1));
    assert_eq!(g.get_node(NodeIndex(2)).get_curr_path(), Some(2));
    assert_eq!(g.get_node(NodeIndex(2)).get_last_node(), Some(NodeIndex(1)));
}

#[test]
fn dijkstra_takes_the_direct_edge_when_it_is_lighter() {
    let mut g = graph(false, true, 3, &[(0, 1, Some(5)), (1, 2, Some(1)), (0, 2, Some(3))]);
    let mut t = TraversalData::new(NodeIndex(0), NodeIndex(2));

    assert!(!t.dijkstras_step(&mut g));
    assert_eq!(queue(&t), vec![(3, 2), (5, 1)]);
    assert_eq!(states(&g), vec![NodeState::Start, NodeState::Seen, NodeState::Seen]);

    assert!(t.dijkstras_step(&mut g));
    assert_eq!(states(&g), vec![NodeState::Start, NodeState::Seen, NodeState::End]);
    assert_eq!(hops(&g, 2), vec![(0, 2)]);
    assert_eq!(g.get_node(NodeIndex(2)).get_curr_path(), Some(3));
}

#[test]
fn dijkstra_relaxes_a_node_reached_by_a_shorter_way() {
    // 0 -10- 2, 0 -1- 1, 1 -2- 2, 2 -1- 3: the way over 1 costs 3.
    let mut g = graph(
        false,
        true,
        4,
        &[(0, 2, Some(10)), (0, 1, Some(1)), (1, 2, Some(2)), (2, 3, Some(1))],
    );
    let mut t = TraversalData::new(NodeIndex(0), NodeIndex(3));
    assert!(!t.dijkstras_step(&mut g));
    assert_eq!(queue(&t), vec![(1, 1), (10, 2)]);
    assert_eq!(g.get_node(NodeIndex(2)).get_curr_path(), Some(10));
    assert!(!t.dijkstras_step(&mut g));
    assert_eq!(queue(&t), vec![(3, 2), (10, 2)]);
    assert_eq!(g.get_node(NodeIndex(2)).get_curr_path(), Some(3));
    assert_eq!(g.get_node(NodeIndex(2)).get_last_node(), Some(NodeIndex(1)));
    assert!(!t.dijkstras_step(&mut g));
    assert_eq!(queue(&t), vec![(4, 3), (10, 2)]);
    assert!(t.dijkstras_step(&mut g));
    assert_eq!(hops(&g, 3), vec![(2, 3), (1, 2), (0, 1)]);
    assert_eq!(g.get_node(NodeIndex(3)).get_curr_path(), Some(4));
    assert_eq!(g.get_node(NodeIndex(3)).get_state(), NodeState::End);
}

#[test]
fn dijkstra_discards_an_entry_of_a_visited_node() {
    let mut g = graph(false, true, 3, &[(0, 1, Some(1)), (0, 1, Some(2)), (1, 2, Some(9))]);
    let mut t = TraversalData::new(NodeIndex(0), NodeIndex(2));
    assert!(!t.dijkstras_step(&mut g));
    assert_eq!(queue(&t), vec![(1, 1), (2, 1)]);
    assert!(!t.dijkstras_step(&mut g));
    assert_eq!(queue(&t), vec![(2, 1), (10, 2)]);
    let before = states(&g);
    assert!(!t.dijkstras_step(&mut g));
    assert_eq!(queue(&t), vec![(10, 2)]);
    assert_eq!(states(&g), before);
    assert_eq!(t.visited.len(), 2);
    assert!(t.dijkstras_step(&mut g));
}

#[test]
fn depth_first_puts_new_neighbors_in_front() {
    // 0 - 1, 0 - 2, 1 - 3; goal 4 cannot be reached.
    let mut g = graph(false, false, 5, &[(0, 1, None), (0, 2, None), (1, 3, None)]);
    let mut t = TraversalData::new(NodeIndex(0), NodeIndex(4));
    assert!(!t.depth_first_step(&mut g));
    assert_eq!(queue(&t), vec![(0, 1), (0, 2)]);
    assert!(!t.depth_first_step(&mut g));
    assert_eq!(queue(&t), vec![(0, 3), (0, 2)]);
    assert!(!t.depth_first_step(&mut g));
    assert_eq!(queue(&t), vec![(0, 2)]);
    assert!(t.depth_first_step(&mut g));
    assert_eq!(
        states(&g),
        vec![
            NodeState::Start,
            NodeState::Visited,
            NodeState::Visited,
            NodeState::Visited,
            NodeState::Unvisited
        ]
    );
    assert_eq!(g.get_node(NodeIndex(3)).get_curr_path(), Some(2));
}

#[test]
fn breadth_first_appends_new_neighbors() {
    let mut g = graph(false, false, 5, &[(0, 1, None), (0, 2, None), (1, 3, None)]);
    let mut t = TraversalData::new(NodeIndex(0), NodeIndex(4));
    assert!(!t.breadth_first_step(&mut g));
    assert_eq!(queue(&t), vec![(0, 1), (0, 2)]);
    assert!(!t.breadth_first_step(&mut g));
    assert_eq!(queue(&t), vec![(0, 2), (0, 3)]);
}

#[test]
fn a_node_joins_the_frontier_once() {
    // Two parallel edges from 0 to 1, and 2 is a neighbor of both 0 and 1.
    let mut g = graph(false, false, 4, &[(0, 1, None), (0, 1, None), (0, 2, None), (1, 2, None)]);
    let mut t = TraversalData::new(NodeIndex(0), NodeIndex(3));
    assert!(!t.breadth_first_step(&mut g));
    assert_eq!(queue(&t), vec![(0, 1), (0, 2)]);
    assert!(!t.breadth_first_step(&mut g));
    assert_eq!(queue(&t), vec![(0, 2)]);
    assert_eq!(g.get_node(NodeIndex(2)).get_last_node(), Some(NodeIndex(0)));
}

#[test]
fn the_goal_ends_the_run_while_nodes_still_wait() {
    let mut g = graph(false, false, 3, &[(0, 1, None), (0, 2, None)]);
    let mut t = TraversalData::new(NodeIndex(0), NodeIndex(1));
    assert!(!t.breadth_first_step(&mut g));
    assert!(t.breadth_first_step(&mut g));
    assert_eq!(queue(&t), vec![(0, 2)]);
    assert_eq!(g.get_node(NodeIndex(1)).get_state(), NodeState::End);
}

#[test]
fn a_run_from_the_goal_ends_at_once() {
    let mut g = graph(false, false, 2, &[(0, 1, None)]);
    let mut t = TraversalData::new(NodeIndex(0), NodeIndex(0));
    assert!(t.depth_first_step(&mut g));
    assert_eq!(states(&g), vec![NodeState::End, NodeState::Unvisited]);
    assert!(hops(&g, 0).is_empty());
}

#[test]
fn an_unreachable_goal_is_never_marked() {
    for alg in GraphTraversers::values() {
        let mut g = graph(false, true, 4, &[(0, 1, Some(2)), (1, 2, Some(2))]);
        let mut t = TraversalData::new(NodeIndex(0), NodeIndex(3));
        let mut steps = 0;
        while !t.step(&mut g, alg) {
            steps += 1;
            assert!(steps < 20);
            assert_ne!(g.get_node(NodeIndex(3)).get_state(), NodeState::End);
        }
        assert!(t.to_traverse.is_empty());
        assert_eq!(g.get_node(NodeIndex(3)).get_state(), NodeState::Unvisited);
        assert!(hops(&g, 3).is_empty());
    }
}

#[test]
fn every_algorithm_reaches_a_reachable_goal() {
    for alg in GraphTraversers::values() {
        let mut g = graph(
            false,
            true,
            6,
            &[
                (0, 1, Some(4)),
                (0, 2, Some(1)),
                (2, 1, Some(1)),
                (1, 3, Some(1)),
                (2, 4, Some(7)),
                (3, 5, Some(2)),
                (4, 5, Some(1)),
                (3, 0, Some(9)),
            ],
        );
        let mut t = TraversalData::new(NodeIndex(0), NodeIndex(5));
        let mut steps = 0;
        while !t.step(&mut g, alg) {
            steps += 1;
            assert!(steps < 50);
        }
        assert_eq!(g.get_node(NodeIndex(5)).get_state(), NodeState::End);
        let path = hops(&g, 5);
        assert_eq!(path.first().map(|h| h.1), Some(5));
        assert_eq!(path.last().map(|h| h.0), Some(0));
        let mut seen = vec![5];
        for (i, h) in path.iter().enumerate() {
            if i + 1 < path.len() {
                assert_eq!(h.0, path[i + 1].1);
            }
            assert!(!seen.contains(&h.0));
            seen.push(h.0);
        }
    }
}

#[test]
fn breadth_first_finds_the_fewest_hops() {
    // 0-1-2-3-4 and the shortcut 0-5-4.
    let mut g = graph(
        false,
        false,
        6,
        &[(0, 1, None), (1, 2, None), (2, 3, None), (3, 4, None), (0, 5, None), (5, 4, None)],
    );
    let mut t = TraversalData::new(NodeIndex(0), NodeIndex(4));
    while !t.breadth_first_step(&mut g) {}
    assert_eq!(hops(&g, 4), vec![(5, 4), (0, 5)]);
    assert_eq!(g.get_node(NodeIndex(4)).get_curr_path(), Some(2));
}

#[test]
fn dijkstra_is_no_heavier_than_the_other_searches() {
    let edges = [
        (0, 1, Some(1)),
        (1, 2, Some(1)),
        (2, 3, Some(1)),
        (0, 3, Some(10)),
        (0, 4, Some(2)),
        (4, 3, Some(2)),
    ];
    let weight_of = |a: usize, b: usize| -> u64 {
        edges
            .iter()
            .filter(|(x, y, _)| (*x == a && *y == b) || (*x == b && *y == a))
            .map(|(_, _, w)| w.unwrap())
            .min()
            .unwrap()
    };
    let mut totals = Vec::new();
    for alg in [
        GraphTraversers::Dijkstras,
        GraphTraversers::BreadthFirst,
        GraphTraversers::DepthFirst,
    ] {
        let mut g = graph(false, true, 5, &edges);
        let mut t = TraversalData::new(NodeIndex(0), NodeIndex(3));
        while !t.step(&mut g, alg) {}
        let total: u64 = hops(&g, 3).iter().map(|(a, b)| weight_of(*a, *b)).sum();
        totals.push(total);
    }
    assert_eq!(totals[0], 3);
    assert!(totals[0] <= totals[1]);
    assert!(totals[0] <= totals[2]);
    assert_eq!(totals[1], 10);
}

#[test]
fn a_directed_search_follows_the_arrows() {
    let mut g = graph(true, false, 3, &[(1, 0, None), (1, 2, None)]);
    let mut t = TraversalData::new(NodeIndex(0), NodeIndex(2));
    assert!(t.breadth_first_step(&mut g));
    assert_eq!(g.get_node(NodeIndex(2)).get_state(), NodeState::Unvisited);
}

#[test]
fn the_simple_search_ignores_the_arrows() {
    let mut g = graph(true, false, 3, &[(1, 0, None), (1, 2, None)]);
    let mut t = TraversalData::new(NodeIndex(0), NodeIndex(2));
    assert!(!t.step(&mut g, GraphTraversers::SimpleBreadth));
    // The start is shown like any other finalized node.
    assert_eq!(g.get_node(NodeIndex(0)).get_state(), NodeState::Visited);
    assert_eq!(queue(&t), vec![(0, 1)]);
    assert!(!t.step(&mut g, GraphTraversers::SimpleBreadth));
    assert!(t.step(&mut g, GraphTraversers::SimpleBreadth));
    assert_eq!(g.get_node(NodeIndex(2)).get_state(), NodeState::End);
    assert_eq!(t.visited.len(), 3);
}

#[test]
fn astar_counts_the_distance_between_the_two_nodes() {
    let mut g = Graph::new("g".to_string(), false, true);
    g.add_node((0, 0), "A".to_string(), Vec::new());
    g.add_node((3, 4), "B".to_string(), Vec::new());
    g.add_node((0, 100), "C".to_string(), Vec::new());
    g.add_node((50, 50), "D".to_string(), Vec::new());
    g.add_edge(NodeIndex(0), NodeIndex(1), Some(2));
    g.add_edge(NodeIndex(0), NodeIndex(2), Some(1));
    let mut t = TraversalData::new(NodeIndex(0), NodeIndex(3));
    assert!(!t.astar_step(&mut g));
    // 0 + 5 + 2 for B, 0 + 100 + 1 for C.
    assert_eq!(queue(&t), vec![(7, 1), (101, 2)]);
    // The path length leaves the distance out.
    assert_eq!(g.get_node(NodeIndex(1)).get_curr_path(), Some(2));
    assert_eq!(g.get_node(NodeIndex(2)).get_curr_path(), Some(1));

    let mut h = Graph::new("h".to_string(), false, true);
    h.add_node((0, 0), "A".to_string(), Vec::new());
    h.add_node((3, 4), "B".to_string(), Vec::new());
    h.add_node((0, 100), "C".to_string(), Vec::new());
    h.add_node((50, 50), "D".to_string(), Vec::new());
    h.add_edge(NodeIndex(0), NodeIndex(1), Some(2));
    h.add_edge(NodeIndex(0), NodeIndex(2), Some(1));
    let mut u = TraversalData::new(NodeIndex(0), NodeIndex(3));
    assert!(!u.dijkstras_step(&mut h));
    assert_eq!(queue(&u), vec![(1, 2), (2, 1)]);
}

#[test]
fn path_lengths_stop_at_the_largest_number() {
    let mut g = graph(false, true, 3, &[(0, 1, Some(u64::MAX - 1)), (1, 2, Some(5))]);
    let mut t = TraversalData::new(NodeIndex(0), NodeIndex(2));
    assert!(!t.dijkstras_step(&mut g));
    assert!(!t.dijkstras_step(&mut g));
    assert_eq!(g.get_node(NodeIndex(2)).get_curr_path(), Some(u64::MAX));
    assert_eq!(queue(&t), vec![(u64::MAX, 2)]);
}

#[test]
fn distance_is_the_rounded_down_euclidean_distance() {
    assert_eq!(distance((0, 0), (0, 0)), 0);
    assert_eq!(distance((0, 0), (3, 4)), 5);
    assert_eq!(distance((3, 4), (0, 0)), 5);
    assert_eq!(distance((-1, -1), (1, 1)), 2);
    assert_eq!(distance((0, 0), (1, 1)), 1);
    assert_eq!(distance((10, 0), (0, 0)), 10);
    assert_eq!(distance((i32::MIN, 0), (i32::MAX, 0)), 4294967295);
    assert_eq!(distance((i32::MIN, i32::MIN), (i32::MAX, i32::MAX)), 6074000998);
}

#[test]
fn integer_sqrt_rounds_down() {
    assert_eq!(integer_sqrt(0), 0);
    assert_eq!(integer_sqrt(1), 1);
    assert_eq!(integer_sqrt(2), 1);
    assert_eq!(integer_sqrt(3), 1);
    assert_eq!(integer_sqrt(4), 2);
    assert_eq!(integer_sqrt(24), 4);
    assert_eq!(integer_sqrt(25), 5);
    assert_eq!(integer_sqrt(1 << 64), 1 << 32);
    assert_eq!(integer_sqrt((1 << 64) - 1), (1 << 32) - 1);
    assert_eq!(integer_sqrt(u128::MAX), u64::MAX);
}

#[test]
fn sort_by_priority_orders_and_keeps_every_entry() {
    let mut f = vec![
        (5, NodeIndex(0)),
        (1, NodeIndex(1)),
        (3, NodeIndex(2)),
        (1, NodeIndex(3)),
        (0, NodeIndex(4)),
        (3, NodeIndex(5)),
    ];
    sort_by_priority(&mut f);
    let priorities: Vec<u64> = f.iter().map(|e| e.0).collect();
    assert_eq!(priorities, vec![0, 1, 1, 3, 3, 5]);
    let mut nodes: Vec<usize> = f.iter().map(|e| e.1.index()).collect();
    nodes.sort();
    assert_eq!(nodes, vec![0, 1, 2, 3, 4, 5]);
    let mut empty: Vec<(u64, NodeIndex)> = Vec::new();
    sort_by_priority(&mut empty);
    assert!(empty.is_empty());
}

#[test]
fn is_queued_looks_at_the_nodes_only() {
    let f = vec![(5, NodeIndex(0)), (1, NodeIndex(7))];
    assert!(is_queued(&f, NodeIndex(7)));
    assert!(is_queued(&f, NodeIndex(0)));
    assert!(!is_queued(&f, NodeIndex(5)));
    assert!(!is_queued(&Vec::new(), NodeIndex(0)));
}

#[test]
fn algorithms_have_their_names() {
    assert_eq!(GraphTraversers::DepthFirst.name(), "Depth First Search");
    assert_eq!(GraphTraversers::BreadthFirst.name(), "Breadth First Search");
    assert_eq!(GraphTraversers::Dijkstras.name(), "Dijkstra's Shortest Path");
    assert_eq!(GraphTraversers::AStar.name(), "A*");
    assert_eq!(GraphTraversers::SimpleBreadth.name(), "Simple Breadth First Search");
    assert_eq!(
        GraphTraversers::values(),
        [
            GraphTraversers::DepthFirst,
            GraphTraversers::BreadthFirst,
            GraphTraversers::Dijkstras,
            GraphTraversers::AStar
        ]
    );
}

#[test]
fn astar_adds_the_distance_to_the_path_length_at_every_step() {
    let mut g = Graph::new("g".to_string(), false, true);
    g.add_node((0, 0), "A".to_string(), Vec::new());
    g.add_node((6, 8), "B".to_string(), Vec::new());
    g.add_node((0, 1), "C".to_string(), Vec::new());
    g.add_node((6, 9), "D".to_string(), Vec::new());
    g.add_edge(NodeIndex(0), NodeIndex(1), Some(1));
    g.add_edge(NodeIndex(0), NodeIndex(2), Some(1));
    g.add_edge(NodeIndex(1), NodeIndex(3), Some(1));
    g.add_edge(NodeIndex(2), NodeIndex(3), Some(1));
    let mut t = TraversalData::new(NodeIndex(0), NodeIndex(3));

    assert!(!t.astar_step(&mut g));
    // 0 + 1 + 10 for B, 0 + 1 + 1 for C.
    assert_eq!(queue(&t), vec![(2, 2), (11, 1)]);

    assert!(!t.astar_step(&mut g));
    assert_eq!(g.get_node(NodeIndex(2)).get_state(), NodeState::Visited);
    assert_eq!(g.get_node(NodeIndex(3)).get_last_node(), Some(NodeIndex(2)));
    assert_eq!(g.get_node(NodeIndex(3)).get_curr_path(), Some(2));
    // The path length of D, 2, plus the distance from C to D, 10: the
    // distance from A to C, which the priority of C held, is not counted.
    assert_eq!(queue(&t), vec![(11, 1), (12, 3)]);

    assert!(!t.astar_step(&mut g));
    // From B: the path length 2 plus the distance from B to D, 1.
    assert_eq!(queue(&t), vec![(3, 3), (12, 3)]);
    assert_eq!(g.get_node(NodeIndex(3)).get_last_node(), Some(NodeIndex(2)));

    assert!(t.astar_step(&mut g));
    assert_eq!(g.get_node(NodeIndex(3)).get_state(), NodeState::End);
    assert_eq!(hops(&g, 3), vec![(2, 3), (0, 2)]);
}
