//! The game engine: decisions and effects provided by the game data, the
//! engine that drives them, an event log for undo and redo, and the text
//! format for saved games.

pub mod trait_definitions;
pub mod engine;
pub mod decision_impl;
