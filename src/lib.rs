//! A single-player mine-detection game engine: a square grid of cells, some
//! hiding mines, revealed by opening and marking cells one at a time.

pub mod cell;
pub mod command;
pub mod field;
pub mod grid;
pub mod mark;
pub mod persist;
