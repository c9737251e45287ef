//! Move generation core for Ultima (Baroque chess): bitboards, square
//! geometry, magic lookup tables, the packed move word and a position with
//! reversible make/unmake.
use vstd::prelude::*;

pub mod bitboard;
pub mod types;
pub mod moves;
pub mod geometry;
pub mod fen;
pub mod position;
pub mod movegen;
pub mod tables;

verus! {

} // verus!
