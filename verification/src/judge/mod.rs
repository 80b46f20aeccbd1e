//! Checking and scoring a patrol plan for a problem instance.

pub mod input;
pub mod output;
pub mod routes;
pub mod score;
