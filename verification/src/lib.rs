//! Patrol-robot automata: simulation, search and scoring for a grid-patrol puzzle.

pub mod annealer;
pub mod cover;
pub mod flow;
pub mod enumerate;
pub mod generator;
pub mod sweep;
pub mod text;
pub mod judge;
