//! A generic beam-search engine over a persistent, shared search tree, with a
//! time-windowed travelling-salesman adapter built on top of it.

pub mod parent_tree;
pub mod utility;
pub mod collection;
pub mod solver;
pub mod tsp_instance;
pub mod tsp_solution;
pub mod tsp_solver;
