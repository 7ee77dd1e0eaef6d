//! An optimal solver for the 3x3x3 cube: state algebra, moves, coordinates,
//! pruning tables and an iterative-deepening A* search.
use vstd::prelude::*;

pub mod cube;
pub mod facelets;
pub mod heuristics;
pub mod mv;
pub mod pruning_table;
pub mod radix;
