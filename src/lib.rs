//! Analysis of two-player board positions: a value domain of
//! distance-to-decision outcomes and exact, depth-bounded searches over it.
use vstd::prelude::*;

pub mod analysis;
pub mod board;
pub mod board_set;
pub mod canonicalizer;
pub mod game;
pub mod loader;
pub mod pieces;
pub mod position;
pub mod value;

verus! {

} // verus!
