//! The min-max player: search parameters, move rating, the search tree and
//! the algorithm that drives them.

pub mod algorithm;
pub mod engine_stepper;
pub mod params;
pub mod rater;
pub mod search_tree_state;
