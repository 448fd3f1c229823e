//! Interactive grid pathfinding sandbox: a grid of paintable cells, three
//! best-first search variants over it, and a step-through history of each run.

pub mod settings_reader;
pub mod squares;

pub use squares::{Square, SquareCollection, SquareType};
