//! 2048 game engine: a bitboard with verified moves, a readable reference
//! implementation, integer board features, reference agents and replays.

use vstd::prelude::*;

pub mod agent;
pub mod board;
pub mod features;
pub mod game;
pub mod naive;
mod rng;
pub mod runner;
pub mod train;

pub use board::{apply_move, max_tile, spawn, Direction};
pub use game::GameState;

verus! {

/// Greeting of the engine, used to check that the bindings are wired.
pub fn hello() -> (s: String)
    ensures
        s@ == "hello from g2048-core"@,
{
    "hello from g2048-core".to_owned()
}

} // verus!
