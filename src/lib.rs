//! Tours of the travelling salesman problem over a small set of points:
//! the tour length, exact search, greedy construction and simulated annealing.

pub mod node;
pub mod tour;
pub mod nearest;
pub mod brute;
pub mod anneal;
