pub mod bfs;
pub mod cycle_finder;
