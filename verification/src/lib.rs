//! Core of a grid-based tower-defense simulation: the occupancy grid that
//! tracks towers, spawners and goals, the cost model for fighting through
//! towers, the A* pathfinder enemies use to reach a goal, and the event
//! protocol that invalidates routes when the grid changes.
//!
//! Rendering, input and audio are outside this crate; callers drive the
//! simulation by mutating the grid through the operations here and by
//! planning and consuming routes each tick.

pub mod enemy;
pub mod grid;
pub mod movement;
pub mod path_finding;
pub mod tower;
pub mod grid_pos;
pub mod health;
pub mod rng;
pub mod tile;

use vstd::prelude::*;

verus! {

/// Number of rows of the playing field.
pub const ROWS: isize = 40;

/// Number of columns of the playing field.
pub const COLUMNS: isize = 70;

/// Total number of cells: `ROWS * COLUMNS`.
pub const N_CELLS: usize = 2800;

/// Side length of one tile in world units; travel and fight costs are scaled
/// so that crossing one empty tile is commensurate with geometric distance.
pub const TILE_SIZE: u64 = 25;

/// Which way an entity or tower faces; towers swap their footprint
/// dimensions when rotated sideways.
#[derive(Clone, Copy, PartialEq, Eq, Structural, Debug)]
pub enum Orientation {
    Up,
    Down,
    Left,
    Right,
}

impl Orientation {
    pub open spec fn spec_is_horizontal(self) -> bool {
        self is Left || self is Right
    }

    pub fn is_horizontal(&self) -> (r: bool)
        ensures
            r == self.spec_is_horizontal(),
    {
        match self {
            Orientation::Up | Orientation::Down => false,
            Orientation::Left | Orientation::Right => true,
        }
    }
}

impl Default for Orientation {
    fn default() -> (r: Self)
        ensures
            r is Up,
    {
        Orientation::Up
    }
}

} // verus!
