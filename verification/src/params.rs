//! World constants and the per-frame force weights.
//!
//! Every length in the simulation is a fixed-point integer in thousandths of
//! a world unit: `SCALE` fixed-point steps make one unit. The world is
//! 1620 x 1080 units, the vision range is 60 units (which is also the grid
//! cell size, so that the 9-cell neighborhood covers the full vision disc),
//! the conversion range is 10 units and the maximum speed is 10 units per
//! frame.
use vstd::prelude::*;

verus! {

/// Fixed-point steps per world unit.
pub const SCALE: i64 = 1000;

/// World width in fixed-point steps (1620 units).
pub const WORLD_WIDTH: i64 = 1_620_000;

/// World height in fixed-point steps (1080 units).
pub const WORLD_HEIGHT: i64 = 1_080_000;

/// Vision range in fixed-point steps (60 units); also the grid cell size.
pub const VISION_RANGE: i64 = 60_000;

/// Conversion range in fixed-point steps (10 units).
pub const CONVERT_RANGE: i64 = 10_000;

/// Maximum speed in fixed-point steps per frame (10 units).
pub const MAX_SPEED: i64 = 10_000;

/// Number of grid columns: `WORLD_WIDTH / VISION_RANGE`.
pub const GRID_COLS: usize = 27;

/// Number of grid rows: `WORLD_HEIGHT / VISION_RANGE`.
pub const GRID_ROWS: usize = 18;

/// Total number of grid cells.
pub const GRID_CELLS: usize = 486;

/// Bound on the magnitude of either velocity component of a stored agent.
/// It keeps one integration step within one wrap period of the world
/// (`VELOCITY_LIMIT < WORLD_HEIGHT <= WORLD_WIDTH`).
pub const VELOCITY_LIMIT: i64 = 1_000_000;

/// Bound on the magnitude of a force weight (one million units), so that
/// the accumulated acceleration stays within machine range.
pub const WEIGHT_LIMIT: i64 = 1_000_000_000;

/// Bound on the number of agents, so that the accumulated acceleration
/// stays within machine range.
pub const MAX_AGENTS: usize = 300_000;

/// The per-frame force weights, fixed-point like the coordinates
/// (a weight of 8 units is `8 * SCALE`). Negative weights invert the
/// corresponding behavior; zero disables it.
#[derive(Clone, Copy, PartialEq, Eq, Structural)]
pub struct Weights {
    pub separation: i64,
    pub cohesion: i64,
    pub align: i64,
    pub predator: i64,
    pub prey: i64,
}

/// All five weights within `WEIGHT_LIMIT`.
pub open spec fn weights_ok(w: Weights) -> bool {
    &&& -WEIGHT_LIMIT <= w.separation <= WEIGHT_LIMIT
    &&& -WEIGHT_LIMIT <= w.cohesion <= WEIGHT_LIMIT
    &&& -WEIGHT_LIMIT <= w.align <= WEIGHT_LIMIT
    &&& -WEIGHT_LIMIT <= w.predator <= WEIGHT_LIMIT
    &&& -WEIGHT_LIMIT <= w.prey <= WEIGHT_LIMIT
}

/// `b` is prey of `a` under the cyclic rock-paper-scissors relation.
pub open spec fn is_prey(a: u32, b: u32) -> bool {
    a == (b + 1) % 3
}

/// `b` is a predator of `a` under the cyclic rock-paper-scissors relation.
pub open spec fn is_predator(a: u32, b: u32) -> bool {
    a == (b + 2) % 3
}

/// The type an agent of type `h` converts to when it loses an encounter:
/// the type of its predator.
pub open spec fn converted_hand(h: u32) -> u32
    recommends
        h < 3,
{
    ((h + 2) % 3) as u32
}

} // verus!
