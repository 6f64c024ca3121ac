//! A turn-based game framework: boards with typed indices and directions,
//! searches over board fields, a decision/effect game engine with an undo
//! log, and a min-max player built on top of the engine.

pub mod ai;
pub mod board;
pub mod game;
pub mod step;
pub mod util;
