pub mod maze;
pub mod pathfinder;
pub mod tree;
