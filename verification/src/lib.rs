//! A single chess piece collects stars on an 8x8 board: move legality for
//! rooks, bishops, queens and knights, and a breadth-first search for a
//! shortest sequence of moves that collects every star.

pub mod chess;
pub mod generate;
pub mod key;
pub mod laws;
pub mod path;
pub mod search;
pub mod solver;
