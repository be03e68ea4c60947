//! A constructive-plus-refinement heuristic for the Capacitated Vehicle
//! Routing Problem: partition the non-depot nodes of a symmetric distance
//! matrix into depot-rooted routes that respect a single vehicle capacity,
//! approximately minimising total travelled distance.
//!
//! Two policies are offered over one savings-merge engine:
//! construction followed by 2-opt local search ([`savings_two_opt`]),
//! and a coefficient grid search with no local search ([`grid_search`]).

pub mod problem;
pub mod routes;
pub mod scores;
pub mod scoring;
pub mod merge;
pub mod assemble;
pub mod engine;
pub mod two_opt;
pub mod savings_two_opt;
pub mod grid_search;
