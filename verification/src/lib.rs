use vstd::prelude::*;

pub mod board;
pub mod comparison;
pub mod generation;
pub mod magic;
pub mod movegen;
pub mod perft;
mod text;

pub use movegen::MoveGen;

verus! {
} // verus!
