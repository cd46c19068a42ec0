//! Exact odds for a Camel Up board.
//!
//! - `camel`: a camel packed into one byte.
//! - `board`: the board, its legal rolls and the movement rules.
//! - `accumulators`: camel-by-rank counts and tile landing counts.
//! - `outcomes`: what a search counts, stated over the game tree.
//! - `transposition`: a bounded cache of sub-results.
//! - `calculate`: the enumerator, one ply at a time or a whole task at once.
//! - `laws`, `symmetry`: properties that every solve has.
use vstd::prelude::*;

pub mod accumulators;
pub mod board;
pub mod calculate;
pub mod camel;
pub mod laws;
pub mod outcomes;
pub mod schedule;
pub mod symmetry;
pub mod transposition;

verus! {

} // verus!
