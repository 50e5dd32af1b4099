//! A two-player seed-sowing board game (an Awalé variant with two seed
//! colors), with a verified board model and an alpha-beta game-tree search.

use vstd::prelude::*;

pub mod board;
pub mod engine;
pub mod minmax;

verus! {

/// Headroom on the number of seeds a board may carry, so that every seed
/// count, attic total and heuristic score stays comfortably inside `i32`.
/// A real game holds exactly 64 seeds; anything up to this bound is safe.
pub const SEED_ROOM: i32 = 100_000;

/// Headroom on search depths, so that depth-biased terminal scores keep
/// their sign and never collide with heuristic scores.
pub const DEPTH_ROOM: i32 = 1_000_000;

} // verus!
