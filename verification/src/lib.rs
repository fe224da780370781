//! The core of a graph visualizer: a graph model and a search engine that
//! advances one node at a time, so that a run can be shown step by step,
//! replayed and stopped half way.
//!
//! * [`graph`] holds the graph, its nodes and edges, and the marks a run
//!   leaves on the nodes.
//! * [`traversers`] holds the state of a run, one step of each search
//!   algorithm, and the driver that decides when a run takes a step.
//! * [`run`] takes a run to its end and states what a finished run has
//!   found.
//! * [`search`], [`plain_search`] and [`priority_search`] prove what holds
//!   of every run; [`fewest_hops`] and [`lightest_path`] prove that
//!   breadth-first search and Dijkstra's search find best paths.
//! * [`frontier`] and [`distance`] hold the helpers of the steps;
//!   [`menus`] and [`generation`] the logic behind two forms.
//!
//! Positions, weights and path lengths are whole numbers. Path lengths and
//! priorities stop at the largest `u64` instead of growing past it.

mod clock;
pub mod distance;
pub mod fewest_hops;
pub mod frontier;
pub mod generation;
pub mod graph;
pub mod lightest_path;
pub mod menus;
pub mod plain_search;
pub mod priority_search;
pub mod run;
pub mod search;
pub mod traversers;
