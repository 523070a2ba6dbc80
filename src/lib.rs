//! Reachable-state explorer for a sausage-rolling puzzle.
//!
//! The library models a tile level, the push/roll/gravity physics that a
//! single player move sets off, the classification of a position as won,
//! lost, burnt or still open, and a breadth-first search that builds the
//! graph of every position reachable from the start.
//!
//! - `coord`: lattice points and the integer arithmetic on them.
//! - `sausage`: a two-cell sausage, its cook counters, and how it moves.
//! - `level`: the static level description and its tile lookup.
//! - `state`: a game state, pushing, gravity, classification and the
//!   move function.
//! - `bounds`: why the search ends.
//! - `graph`: the breadth-first search and the graph it builds.
pub mod coord;
pub mod sausage;
pub mod level;
pub mod state;
pub mod bounds;
pub mod graph;
