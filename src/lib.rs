//! A verified simulator for the card game War.
//!
//! The engine splits an ordered deck into two hands, plays the game turn by turn with the
//! recursive penalty ("war") chain, and reports a win for either player or a repeated game
//! frame.
use vstd::prelude::*;

pub mod card;
pub mod model;
pub mod engine;
pub mod space;
pub mod laws;
pub mod stats;

verus! {

} // verus!
