//! Text layout rules and start-up settings of a small 2D game.
use vstd::prelude::*;

pub mod logging;
pub mod text;
pub mod wrap;

verus! {

} // verus!
