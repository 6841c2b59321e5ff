//! Square labyrinths on a grid of tiles: generators that carve them, a thinner that
//! puts walls back without cutting the entrance off from the exit, and a solver
//! that finds the shortest path. What each function does is stated in its contract
//! and proved with Verus.

pub mod carver;
pub mod geometry;
pub mod graph;
pub mod lab;
pub mod order;
pub mod pairs;
pub mod perfect;
pub mod random;
pub mod render;
pub mod routes;
pub mod search;
pub mod solver;
pub mod thinner;
pub mod walls;

pub use crate::carver::{
    carve_labyrinth, closest_visited, extend_walk, generate_dead_end_paths, generate_main_path,
    main_path_step, opened_cells, unvisited_neighbors,
};
pub use crate::lab::{Direction, Lab, LabError, LabTile};
pub use crate::perfect::{frontier_step, generate_perfect_maze, open_ends, plant};
pub use crate::render::{cell_marker, Marker};
pub use crate::solver::{find_shortest_path, is_reachable};
pub use crate::thinner::{reinsert_walls, try_reinsert_wall};
