//! A solver for Sokoban-style box-pushing puzzles.
//!
//! A level is a rectangular grid of walls, floor cells, destination cells,
//! boxes and a single player. The solver searches for a sequence of box
//! pushes that brings every box onto a destination, minimising the pair
//! (number of pushes, number of player steps) in lexicographic order.

pub mod board;
pub mod cell;
pub mod dead;
pub mod dijkstra;
pub mod input;
pub mod matrix;
pub mod pos;
pub mod poslist;
pub mod solver;
