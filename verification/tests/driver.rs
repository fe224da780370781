use graph_visualizer::generation::EmptyGraphGenerator;
use graph_visualizer::graph::{Graph, NodeIndex, NodeState};
use graph_visualizer::menus::TraversalMenu;
use graph_visualizer::traversers::{GraphTraversers, TraversalManager};
use instant::Instant;

fn chain(n: usize) -> Graph {
    let mut g = Graph::new("chain".to_string(), false, false);
    for i in 0..n {
        g.add_node((i as i32, 0), format!("n{}", i), Vec::new());
    }
    for i in 1..n {
        g.add_edge(NodeIndex(i - 1), NodeIndex(i), None);
    }
    g
}

fn marks(g: &Graph) -> Vec<(NodeState, Option<NodeIndex>, Option<u64>)> {
    g.get_nodes()
        .iter()
        .map(|n| (n.get_state(), n.get_last_node(), n.get_curr_path()))
        .collect()
}

#[test]
fn a_new_driver_is_idle() {
    let m = TraversalManager::new(GraphTraversers::Dijkstras);
    assert_eq!(m.alg, GraphTraversers::Dijkstras);
    assert_eq!(m.speed, 30);
    assert!(m.auto);
    assert!(!m.currently_traversing);
    assert!(m.traversal.is_none());
    let d = TraversalManager::default();
    assert_eq!(d.alg, GraphTraversers::DepthFirst);
    assert_eq!(d.speed, 30);
    assert!(d.auto && !d.currently_traversing && d.traversal.is_none());
}

#[test]
fn start_needs_both_ends() {
    let mut m = TraversalManager::new(GraphTraversers::BreadthFirst);
    assert!(!m.start(None, Some(NodeIndex(1))));
    assert!(!m.start(Some(NodeIndex(1)), None));
    assert!(!m.start(None, None));
    assert!(!m.currently_traversing);
    assert!(m.traversal.is_none());
    assert!(m.start(Some(NodeIndex(0)), Some(NodeIndex(2))));
    assert!(m.currently_traversing);
    let t = m.traversal.as_ref().unwrap();
    assert_eq!((t.start_node, t.end_node), (NodeIndex(0), NodeIndex(2)));
    assert_eq!(t.to_traverse, vec![(0, NodeIndex(0))]);
}

#[test]
fn an_idle_driver_ignores_ticks() {
    let mut g = chain(3);
    let mut m = TraversalManager::new(GraphTraversers::BreadthFirst);
    m.auto = false;
    m.update(&mut g);
    assert!(!m.update_at(&mut g, Instant::now(), Some(1000)));
    assert!(marks(&g).iter().all(|x| *x == (NodeState::Unvisited, None, None)));
    assert!(m.traversal.is_none());
}

#[test]
fn stepping_on_request_takes_one_step_per_tick() {
    let mut g = chain(3);
    let mut m = TraversalManager::new(GraphTraversers::BreadthFirst);
    m.auto = false;
    m.new_traversal(NodeIndex(0), NodeIndex(2));
    m.update(&mut g);
    assert_eq!(g.get_node(NodeIndex(0)).get_state(), NodeState::Start);
    assert_eq!(g.get_node(NodeIndex(1)).get_state(), NodeState::Seen);
    assert!(m.currently_traversing);
    m.update(&mut g);
    assert_eq!(g.get_node(NodeIndex(1)).get_state(), NodeState::Visited);
    assert!(m.currently_traversing);
    m.update(&mut g);
    assert_eq!(g.get_node(NodeIndex(2)).get_state(), NodeState::End);
    assert!(!m.currently_traversing);
    assert!(m.traversal.is_some());
    // The run is over: further ticks change nothing.
    let before = marks(&g);
    m.update(&mut g);
    assert_eq!(marks(&g), before);
}

#[test]
fn automatic_stepping_waits_for_the_delay() {
    let mut g = chain(3);
    let mut m = TraversalManager::new(GraphTraversers::BreadthFirst);
    m.speed = 30;
    m.new_traversal(NodeIndex(0), NodeIndex(2));
    assert!(!m.update_at(&mut g, Instant::now(), Some(29)));
    assert!(!m.update_at(&mut g, Instant::now(), None));
    assert_eq!(g.get_node(NodeIndex(0)).get_state(), NodeState::Unvisited);
    assert!(m.update_at(&mut g, Instant::now(), Some(30)));
    assert_eq!(g.get_node(NodeIndex(0)).get_state(), NodeState::Start);
    assert!(m.update_at(&mut g, Instant::now(), Some(u128::MAX)));
    assert_eq!(g.get_node(NodeIndex(1)).get_state(), NodeState::Visited);
    assert!(m.currently_traversing);
}

#[test]
fn automatic_stepping_without_delay_runs_to_the_end() {
    let mut g = chain(4);
    let mut m = TraversalManager::new(GraphTraversers::DepthFirst);
    m.speed = 0;
    m.new_traversal(NodeIndex(0), NodeIndex(3));
    let mut ticks = 0;
    while m.currently_traversing {
        m.update(&mut g);
        ticks += 1;
        assert!(ticks <= 4);
    }
    assert_eq!(ticks, 4);
    assert_eq!(g.get_node(NodeIndex(3)).get_state(), NodeState::End);
}

#[test]
fn a_tick_without_a_run_ends_the_running() {
    let mut g = chain(2);
    let mut m = TraversalManager::new(GraphTraversers::AStar);
    m.auto = false;
    m.currently_traversing = true;
    m.update(&mut g);
    assert!(!m.currently_traversing);
    assert!(marks(&g).iter().all(|x| *x == (NodeState::Unvisited, None, None)));
}

#[test]
fn stop_discards_the_run_and_clears_the_graph() {
    let mut g = chain(3);
    let mut m = TraversalManager::new(GraphTraversers::Dijkstras);
    m.auto = false;
    m.new_traversal(NodeIndex(0), NodeIndex(2));
    m.update(&mut g);
    m.update(&mut g);
    m.stop(&mut g);
    assert!(m.traversal.is_none());
    let once = marks(&g);
    assert!(once.iter().all(|x| *x == (NodeState::Unvisited, None, None)));
    m.stop(&mut g);
    g.reset();
    assert_eq!(marks(&g), once);
    assert_eq!(g.get_node(NodeIndex(1)).get_neighbors(), vec![NodeIndex(0), NodeIndex(2)]);
}

#[test]
fn stop_traversal_keeps_the_marks() {
    let mut g = chain(3);
    let mut m = TraversalManager::new(GraphTraversers::BreadthFirst);
    m.auto = false;
    m.new_traversal(NodeIndex(0), NodeIndex(2));
    m.update(&mut g);
    m.stop_traversal();
    assert!(m.traversal.is_none());
    assert_eq!(g.get_node(NodeIndex(0)).get_state(), NodeState::Start);
}

#[test]
fn a_second_run_after_a_reset_finds_the_same_path() {
    let mut g = chain(4);
    let mut paths = Vec::new();
    for _ in 0..2 {
        let mut m = TraversalManager::new(GraphTraversers::BreadthFirst);
        m.auto = false;
        m.new_traversal(NodeIndex(0), NodeIndex(3));
        while m.currently_traversing {
            m.update(&mut g);
        }
        let path: Vec<(NodeIndex, NodeIndex)> =
            g.path_to(NodeIndex(3)).iter().map(|e| e.get_nodes()).collect();
        paths.push(path);
        m.stop(&mut g);
    }
    assert_eq!(paths[0].len(), 3);
    assert_eq!(paths[0], paths[1]);
}

#[test]
fn the_menu_counts_choices_from_one() {
    assert_eq!(TraversalMenu::selected(0), None);
    assert_eq!(TraversalMenu::selected(1), Some(NodeIndex(0)));
    assert_eq!(TraversalMenu::selected(7), Some(NodeIndex(6)));
    let mut menu = TraversalMenu::default();
    assert_eq!(menu.endpoints(), (None, None));
    menu.start_node = 2;
    menu.end_node = 1;
    menu.debug_view = true;
    assert_eq!(menu.endpoints(), (Some(NodeIndex(1)), Some(NodeIndex(0))));
    menu.graph_updated();
    assert_eq!((menu.start_node, menu.end_node, menu.debug_view), (0, 0, true));
}

#[test]
fn the_empty_graph_form_makes_a_graph_and_clears_itself() {
    let mut form = EmptyGraphGenerator::default();
    assert_eq!(form.name(), "Empty Graph");
    form.name = "city".to_string();
    form.directed = true;
    form.weighted = true;
    let g = form.gen_graph();
    assert_eq!(g.get_name(), "city");
    assert!(g.is_directed() && g.is_weighted());
    assert!(g.get_nodes().is_empty());
    assert_eq!(form.name, "");
    assert!(!form.directed && !form.weighted);
}

#[test]
fn an_automatic_step_records_when_it_was_taken() {
    let mut g = chain(3);
    let mut m = TraversalManager::new(GraphTraversers::BreadthFirst);
    m.new_traversal(NodeIndex(0), NodeIndex(2));
    let before = m.last_traversal;
    let later = before + std::time::Duration::from_millis(500);
    assert!(!m.update_at(&mut g, later, Some(5)));
    assert_eq!(m.last_traversal, before);
    assert!(m.update_at(&mut g, later, Some(500)));
    assert_eq!(m.last_traversal, later);
    m.auto = false;
    let much_later = later + std::time::Duration::from_millis(500);
    assert!(m.update_at(&mut g, much_later, None));
    assert_eq!(m.last_traversal, later);
}

#[test]
fn ticks_of_the_clock_drive_an_automatic_run() {
    let mut g = chain(3);
    let mut m = TraversalManager::new(GraphTraversers::BreadthFirst);
    m.speed = 1;
    m.new_traversal(NodeIndex(0), NodeIndex(2));
    let started = Instant::now();
    while m.currently_traversing {
        m.update(&mut g);
        assert!(started.elapsed().as_secs() < 10);
    }
    assert_eq!(g.get_node(NodeIndex(2)).get_state(), NodeState::End);
    assert!(m.last_traversal >= started);
}

/// Ticks on request until the driver stops running.
fn ticks_to_the_end(g: &mut Graph, alg: GraphTraversers, start: usize, end: usize) -> usize {
    let mut m = TraversalManager::new(alg);
    m.auto = false;
    m.new_traversal(NodeIndex(start), NodeIndex(end));
    let mut ticks = 0;
    while m.currently_traversing {
        m.update(g);
        ticks += 1;
        assert!(ticks < 1000);
    }
    ticks
}

#[test]
fn a_run_without_a_way_to_the_goal_ends_within_its_ticks() {
    // Five nodes; 4 stands apart. Six edges, twelve edge records.
    let edges = [(0, 1), (0, 2), (1, 2), (1, 3), (2, 3), (0, 3)];
    let nodes = 5;
    let records = 2 * edges.len();
    for alg in GraphTraversers::values() {
        let mut g = chain(0);
        for i in 0..nodes {
            g.add_node((i as i32, 0), format!("n{}", i), Vec::new());
        }
        for (a, b) in edges {
            g.add_edge(NodeIndex(a), NodeIndex(b), Some(1));
        }
        let ticks = ticks_to_the_end(&mut g, alg, 0, 4);
        match alg {
            GraphTraversers::BreadthFirst | GraphTraversers::DepthFirst => {
                assert_eq!(ticks, 4);
                assert!(ticks <= nodes);
            }
            _ => {
                assert!(ticks <= 1 + records);
                assert!(ticks >= 4);
            }
        }
        assert_eq!(g.get_node(NodeIndex(4)).get_state(), NodeState::Unvisited);
    }
}

#[test]
fn dijkstra_uses_a_tick_for_every_entry_it_discards() {
    // Two parallel edges from 0 to 1: four edge records, a goal apart.
    let mut g = chain(0);
    for i in 0..3 {
        g.add_node((i, 0), format!("n{}", i), Vec::new());
    }
    g.add_edge(NodeIndex(0), NodeIndex(1), Some(1));
    g.add_edge(NodeIndex(0), NodeIndex(1), Some(2));
    // Node 0, node 1, and the second entry of node 1.
    assert_eq!(ticks_to_the_end(&mut g, GraphTraversers::Dijkstras, 0, 2), 3);
}
