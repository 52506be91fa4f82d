//! Greedy heuristics for the 0/1 knapsack problem.
//!
//! An instance is a list of items, each with a profit and a weight, and a
//! capacity. Each heuristic ranks the items in its own way, walks the ranking
//! once and admits every item that still fits. The result is feasible by
//! construction, and every function states exactly which items are chosen.

pub mod error;
pub mod heuristic;
pub mod knapsack;
pub mod ranking;
