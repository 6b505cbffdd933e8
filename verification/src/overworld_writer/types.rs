//! What the writer's assignment pass decides for a world: which pool entry
//! goes on which grid cell.
use vstd::prelude::*;
use crate::map_grid::Cell;
use crate::overworld_writer::pointers::PipeAssignment;
use crate::pipe_helpers::PointerEntry;

verus! {

/// A pool entry put on a grid cell.
#[derive(Clone, Copy, Debug)]
pub struct Assignment {
    /// Index into the pickup pool.
    pub pool_idx: usize,
    pub pos: Cell,
}

/// A Hammer Bro node: its cell and the level it carries.
#[derive(Clone, Copy, Debug)]
pub struct HammerBroAssignment {
    pub pos: Cell,
    pub level_entry: PointerEntry,
}

/// All assignments of one world.
pub struct WorldAssignments {
    /// Fortresses, in section order.
    pub fortress: Vec<Assignment>,
    pub level: Vec<Assignment>,
    pub pipes: Vec<PipeAssignment>,
    /// The airship (worlds 1-7).
    pub airship: Option<Assignment>,
    /// Bowser's castle (world 8).
    pub bowser: Option<Assignment>,
    /// Spade games.
    pub bonus: Vec<Assignment>,
    /// Toad houses (each keeps its vanilla reward).
    pub toad: Vec<Assignment>,
    /// Hammer Bro nodes on the remaining blank slots.
    pub hammer_bro: Vec<HammerBroAssignment>,
    /// Troll-pipe slots that got a level only a plain level tile may front
    /// (no other level was left); they are stamped as plain levels.
    pub demoted_troll_pipes: Vec<Cell>,
}

} // verus!
