//! A connect-four position on 64-bit bitboards, and a solver that scores it.
use vstd::prelude::*;

pub mod bits;
pub mod board;
pub mod live_evaluation;
pub mod parse;

verus! {

} // verus!
