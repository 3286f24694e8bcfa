//! A cooperative marble-match game engine: a chain of coloured marbles moves
//! along a path, players fire projectiles into it, and runs of three or more
//! marbles of one colour turn into gaps.
//!
//! All quantities are fixed-point integers: world coordinates and lengths are
//! in micrometres, time in milliseconds, and the position along the path is a
//! parameter in millionths (`0 ..= S_ONE`).
use vstd::prelude::*;

pub mod chain;
pub mod engine;
pub mod game;
pub mod path;
pub mod players;
pub mod room;
mod random;
pub mod spacing;
pub mod text;

verus! {

} // verus!
