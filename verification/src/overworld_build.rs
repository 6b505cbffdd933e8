//! Build-phase slot data: what the overworld builder decides for each grid
//! slot, handed to the writer.
use vstd::prelude::*;
use crate::map_grid::{Cell, Grid};

verus! {

/// What kind of node occupies a grid slot.
#[derive(Clone, Copy, Debug, PartialEq, Eq, Structural)]
pub enum SlotKind {
    Level,
    Fortress,
    Pipe,
    HammerBro,
    BonusGame,
    ToadHouse,
}

/// Where the lock a fortress opens is — the fact, with no tile byte in it.
/// The writer turns it into a fortress tile; deciding which fortress opens
/// which lock is the maze's business.
#[derive(Clone, Copy, Debug, PartialEq, Eq, Structural)]
pub enum LockHint {
    /// Nothing to say: the writer picks a fortress tile for variety.
    Unhinted,
    /// The lock is in this fortress's own world.
    OwnWorld,
    /// The lock is in World 8: this fortress opens the way to the castle.
    World8,
    /// The lock is in some other world.
    Elsewhere,
}

impl Default for LockHint {
    fn default() -> (h: LockHint)
        ensures
            h == LockHint::Unhinted,
    {
        LockHint::Unhinted
    }
}

/// A single slot assignment on the grid.
#[derive(Clone, Copy, Debug)]
pub struct SlotAssignment {
    pub pos: (usize, usize),
    pub kind: SlotKind,
    /// Which section (0-based) this slot belongs to.
    pub section: usize,
    /// The writer stamps a hand-trap tile (0xE6) here instead of a level
    /// number. Only set on `Level` slots.
    pub is_hand_trap: bool,
    /// The writer stamps a pipe tile (0xBC) here instead of a level number;
    /// the slot's level entry is unchanged, so the pipe-look tile drops the
    /// player into the underlying level. Only set on `Level` slots.
    pub is_troll_pipe: bool,
    /// Where the lock this fortress opens is, for the map-hint tiles. Only
    /// meaningful on `Fortress` slots.
    pub lock_hint: LockHint,
}

/// A lock (or bridge) placed on a path tile.
#[derive(Clone, Copy, Debug)]
pub struct LockAssignment {
    /// Path tile where the lock goes.
    pub pos: Cell,
    /// Section of the fortress that opens it.
    pub fort_section: usize,
    /// The tile stamped on the lock's cell.
    pub gap_tile: u8,
    /// The world's target stays reachable with this lock closed, so a
    /// fortress beaten through its secret exit (no lock opened) may open it.
    pub secret_exit_safe: bool,
}

/// A wandering Hammer Bro sprite placed in the build.
#[derive(Clone, Copy, Debug)]
pub struct HbSprite {
    /// Grid cell where the sprite spawns (one of the world's Hammer Bro
    /// slots).
    pub grid_pos: Cell,
    /// Item granted for clearing the encounter.
    pub reward: u8,
}

/// What the build decided for one world.
pub struct BuiltWorld {
    pub world_idx: usize,
    /// The grid with pipes placed, before fortresses, levels and locks are
    /// stamped.
    pub grid: Grid,
    pub slots: Vec<SlotAssignment>,
    pub locks: Vec<LockAssignment>,
    /// Number of sections (one per fortress).
    pub section_count: usize,
    /// Endpoint pairs of the pipes placed in this world.
    pub pipe_pairs: Vec<(Cell, Cell)>,
    /// Redistributed Hammer Bro sprites (none when they are not shuffled).
    pub hb_sprites: Vec<HbSprite>,
}

} // verus!
