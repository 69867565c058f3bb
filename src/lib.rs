//! A grid maze engine: randomized spanning-tree generation with an optional
//! protected path fused into it, and a breadth-first solver that advances one
//! step per call.
pub mod grid;
pub mod solver;
pub mod maze;
pub mod protect;
pub mod corridor;
