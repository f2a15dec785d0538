//! Rule engine for hexagonal Light-Up ("Rokkakari") puzzles.
//!
//! The [`cell`] module describes single cells and the six sides of a hexagon,
//! [`grid`] holds the mathematical model of a board (geometry, light beams,
//! the solved predicate and the laws relating them), and [`board`] holds the
//! executable board whose operations are proved against that model.

pub mod board;
pub mod cell;
pub mod grid;
