//! Stamping a world's map tile grid: the tile of every placed node, level
//! numbers in breadth-first order from the start, lock gaps, path nodes
//! under the army and plant sprites, and the grid written back to the ROM.
use vstd::prelude::*;
use rand_chacha::ChaCha8Rng;
use crate::map_grid::{Cell, Grid, grid_in_rom, lemma_cell_in_grid, lemma_tile_offset_in_map, map_tile_offset, tile_offset};
use crate::overworld_build::{LockAssignment, SlotAssignment};
use crate::overworld_pickup::{
    CatalogEntry, NodeTiles, PoolEntry, blank_from_neighbors, blank_tile_from_neighbors,
};
use crate::overworld_writer::pointers::PipeAssignment;
use crate::overworld_writer::types::{Assignment, WorldAssignments};
use crate::rng::random_below;
use crate::rom::Rom;

verus! {

/// Hand-trap tile, stamped in place of a level number on a hand-trap slot.
pub const TILE_HAND_TRAP: u8 = 0xE6;

/// Pipe-look tile, stamped in place of a level number on a troll-pipe slot.
pub const TILE_TROLL_PIPE: u8 = 0xBC;

/// Spiral-castle pipe tile, kept where a pipe endpoint had it.
pub const TILE_SPIRAL_PIPE: u8 = 0x5F;

/// The map tiles of pipe endpoints and spade games.
#[derive(Clone, Copy, Debug)]
pub struct NodeStampTiles {
    pub pipe: u8,
    pub bonus_game: u8,
}

/// The tiles the game treats as fortresses.
pub open spec fn fortress_tiles() -> Seq<u8> {
    seq![0x67u8, 0xEBu8, 0x6Au8]
}

fn fortress_tile(i: usize) -> (t: u8)
    requires
        i < 3,
    ensures
        t == fortress_tiles()[i as int],
{
    if i == 0 {
        0x67
    } else if i == 1 {
        0xEB
    } else {
        0x6A
    }
}

/// Level number tiles: $03-$0B are levels 1-9, $0C-$15 levels 10-19, and
/// $69 stands for any later level.
pub open spec fn level_tiles() -> Seq<u8> {
    seq![
        0x03u8, 0x04u8, 0x05u8, 0x06u8, 0x07u8, 0x08u8, 0x09u8, 0x0Au8, 0x0Bu8, 0x0Cu8, 0x0Du8,
        0x0Eu8, 0x0Fu8, 0x10u8, 0x11u8, 0x12u8, 0x13u8, 0x14u8, 0x15u8, 0x69u8,
    ]
}

/// The tile of the level numbered `i + 1`.
pub open spec fn level_tile_at(i: int) -> u8 {
    if i < 19 {
        (i + 3) as u8
    } else {
        0x69u8
    }
}

fn level_tile(i: usize) -> (t: u8)
    ensures
        t == level_tile_at(i as int),
        i < 20 ==> t == level_tiles()[i as int],
{
    if i < 19 {
        (i + 3) as u8
    } else {
        0x69
    }
}

/// The vanilla tile of pool entry `pi`.
pub open spec fn node_tile(pool: Seq<PoolEntry>, catalog: Seq<CatalogEntry>, pi: int) -> u8 {
    catalog[pool[pi].catalog_idx as int].tile
}

/// A pipe endpoint keeps the spiral-castle tile, else takes the pipe tile.
pub open spec fn pipe_tile(t: u8, pipe: u8) -> u8 {
    if t == TILE_SPIRAL_PIPE {
        TILE_SPIRAL_PIPE
    } else {
        pipe
    }
}

/// A toad house in World 5 takes the tile that matches its page's
/// background ($50 left, $E0 right); elsewhere its vanilla tile.
pub open spec fn toad_tile(w: int, pos: Cell, t: u8) -> u8 {
    if w == 4 {
        if pos.1 >= 16 {
            0xE0u8
        } else {
            0x50u8
        }
    } else {
        t
    }
}

/// The tiles of the placed nodes, in stamping order: fortresses (tile
/// `picks[k]` of [`fortress_tiles`]), pipe endpoints, airship, Bowser, spade
/// games and toad houses.
pub open spec fn node_stamps(
    wa: WorldAssignments,
    pool: Seq<PoolEntry>,
    catalog: Seq<CatalogEntry>,
    w: int,
    picks: Seq<usize>,
    tiles: NodeStampTiles,
) -> Seq<(Cell, u8)> {
    let fort = Seq::new(
        wa.fortress@.len(),
        |k: int| (wa.fortress@[k].pos, fortress_tiles()[picks[k] as int]),
    );
    let pipes = Seq::new(
        2 * wa.pipes@.len(),
        |i: int|
            {
                let pa = wa.pipes@[i / 2];
                if i % 2 == 0 {
                    (pa.pos_a, pipe_tile(node_tile(pool, catalog, pa.pool_idx_a as int), tiles.pipe))
                } else {
                    (pa.pos_b, pipe_tile(node_tile(pool, catalog, pa.pool_idx_b as int), tiles.pipe))
                }
            },
    );
    let airship = match wa.airship {
        Some(a) => seq![(a.pos, node_tile(pool, catalog, a.pool_idx as int))],
        None => Seq::empty(),
    };
    let bowser = match wa.bowser {
        Some(a) => seq![(a.pos, node_tile(pool, catalog, a.pool_idx as int))],
        None => Seq::empty(),
    };
    let bonus = Seq::new(wa.bonus@.len(), |k: int| (wa.bonus@[k].pos, tiles.bonus_game));
    let toad = Seq::new(
        wa.toad@.len(),
        |k: int|
            (
                wa.toad@[k].pos,
                toad_tile(w, wa.toad@[k].pos, node_tile(pool, catalog, wa.toad@[k].pool_idx as int)),
            ),
    );
    fort + pipes + airship + bowser + bonus + toad
}

/// A hand-trap slot sits on `p`.
pub open spec fn is_hand(slots: Seq<SlotAssignment>, p: Cell) -> bool {
    exists|i: int| 0 <= i < slots.len() && (#[trigger] slots[i]).is_hand_trap && slots[i].pos == p
}

/// A troll-pipe slot that was not demoted sits on `p`.
pub open spec fn is_troll(slots: Seq<SlotAssignment>, demoted: Seq<Cell>, p: Cell) -> bool {
    &&& exists|i: int| 0 <= i < slots.len() && (#[trigger] slots[i]).is_troll_pipe && slots[i].pos == p
    &&& !demoted.contains(p)
}

/// The tile of a level slot on `p` when `li` numbers were used so far, and
/// the count after it: a hand trap or a troll pipe uses no number.
pub open spec fn level_pick(slots: Seq<SlotAssignment>, demoted: Seq<Cell>, p: Cell, li: int) -> (u8, int) {
    if is_hand(slots, p) {
        (TILE_HAND_TRAP, li)
    } else if is_troll(slots, demoted, p) {
        (TILE_TROLL_PIPE, li)
    } else {
        (level_tile_at(li), li + 1)
    }
}

/// The last of the first `k` level assignments on `p`.
pub open spec fn last_level_at(level: Seq<Assignment>, p: Cell, k: int) -> Option<int>
    decreases k,
{
    if k <= 0 {
        None
    } else if level[k - 1].pos == p {
        Some(k - 1)
    } else {
        last_level_at(level, p, k - 1)
    }
}

/// The breadth-first pass over the first `k` cells of `bfs`: the stamps so
/// far, which levels got one, and how many numbers were used.
pub open spec fn bfs_pass(
    bfs: Seq<Cell>,
    level: Seq<Assignment>,
    slots: Seq<SlotAssignment>,
    demoted: Seq<Cell>,
    k: int,
) -> (Seq<(Cell, u8)>, Seq<bool>, int)
    decreases k,
{
    if k <= 0 {
        (Seq::empty(), Seq::new(level.len(), |i: int| false), 0)
    } else {
        let prev = bfs_pass(bfs, level, slots, demoted, k - 1);
        let p = bfs[k - 1];
        match last_level_at(level, p, level.len() as int) {
            Some(la) => {
                if !prev.1[la] {
                    let (t, li) = level_pick(slots, demoted, p, prev.2);
                    (prev.0.push((p, t)), prev.1.update(la, true), li)
                } else {
                    prev
                }
            },
            None => prev,
        }
    }
}

/// The pass over the first `k` levels that the breadth-first pass left
/// unstamped, continuing its numbering.
pub open spec fn rest_pass(
    level: Seq<Assignment>,
    slots: Seq<SlotAssignment>,
    demoted: Seq<Cell>,
    assigned: Seq<bool>,
    start: (Seq<(Cell, u8)>, int),
    k: int,
) -> (Seq<(Cell, u8)>, int)
    decreases k,
{
    if k <= 0 {
        start
    } else {
        let prev = rest_pass(level, slots, demoted, assigned, start, k - 1);
        if !assigned[k - 1] {
            let (t, li) = level_pick(slots, demoted, level[k - 1].pos, prev.1);
            (prev.0.push((level[k - 1].pos, t)), li)
        } else {
            prev
        }
    }
}

/// The level tiles: numbered in breadth-first order from the start, then
/// any level the search did not reach.
pub open spec fn level_stamps(
    bfs: Seq<Cell>,
    level: Seq<Assignment>,
    slots: Seq<SlotAssignment>,
    demoted: Seq<Cell>,
) -> Seq<(Cell, u8)> {
    let b = bfs_pass(bfs, level, slots, demoted, bfs.len() as int);
    rest_pass(level, slots, demoted, b.1, (b.0, b.2), level.len() as int).0
}

/// The lock gap tiles.
pub open spec fn lock_stamps(locks: Seq<LockAssignment>) -> Seq<(Cell, u8)> {
    Seq::new(locks.len(), |k: int| (locks[k].pos, locks[k].gap_tile))
}

/// Row-by-row tiles `cols` wide after the first `k` stamps.
pub open spec fn stamped(tiles: Seq<u8>, cols: int, stamps: Seq<(Cell, u8)>, k: int) -> Seq<u8>
    decreases k,
{
    if k <= 0 {
        tiles
    } else {
        let (p, t) = stamps[k - 1];
        stamped(tiles, cols, stamps, k - 1).update(p.0 * cols + p.1, t)
    }
}

/// The tiles after the first `k` sprite cells take the blank node their
/// neighbours call for.
pub open spec fn masked(
    tiles: Seq<u8>,
    cols: int,
    horz: Seq<u8>,
    vert: Seq<u8>,
    w: int,
    mask: Seq<Cell>,
    k: int,
) -> Seq<u8>
    decreases k,
{
    if k <= 0 {
        tiles
    } else {
        let prev = masked(tiles, cols, horz, vert, w, mask, k - 1);
        let p = mask[k - 1];
        prev.update(
            p.0 * cols + p.1,
            blank_from_neighbors(prev, cols, horz, vert, w, p.0 as int, p.1 as int),
        )
    }
}

/// The ROM after the first `k` tiles (row by row) are written to the map at
/// `grid_offset`.
pub open spec fn grid_to_rom(rom: Seq<u8>, tiles: Seq<u8>, cols: int, grid_offset: int, k: int) -> Seq<u8>
    decreases k,
{
    if k <= 0 {
        rom
    } else {
        grid_to_rom(rom, tiles, cols, grid_offset, k - 1).update(
            tile_offset(grid_offset, (k - 1) / cols, (k - 1) % cols),
            tiles[k - 1],
        )
    }
}

/// Every stamped cell is on the grid, and every pool entry whose tile is
/// read names a catalog entry.
pub open spec fn stamping_ok(
    g: Grid,
    wa: WorldAssignments,
    pool: Seq<PoolEntry>,
    catalog: Seq<CatalogEntry>,
    locks: Seq<LockAssignment>,
    mask: Seq<Cell>,
) -> bool {
    let on = |p: Cell| p.0 < g.rows && p.1 < g.cols;
    let named = |pi: usize| pi < pool.len() && pool[pi as int].catalog_idx < catalog.len();
    &&& forall|k: int| 0 <= k < wa.fortress@.len() ==> on((#[trigger] wa.fortress@[k]).pos)
    &&& forall|k: int| 0 <= k < wa.level@.len() ==> on((#[trigger] wa.level@[k]).pos)
    &&& forall|k: int|
        0 <= k < wa.pipes@.len() ==> {
            &&& on((#[trigger] wa.pipes@[k]).pos_a)
            &&& on(wa.pipes@[k].pos_b)
            &&& named(wa.pipes@[k].pool_idx_a)
            &&& named(wa.pipes@[k].pool_idx_b)
        }
    &&& wa.airship matches Some(a) ==> on(a.pos) && named(a.pool_idx)
    &&& wa.bowser matches Some(a) ==> on(a.pos) && named(a.pool_idx)
    &&& forall|k: int| 0 <= k < wa.bonus@.len() ==> on((#[trigger] wa.bonus@[k]).pos)
    &&& forall|k: int|
        0 <= k < wa.toad@.len() ==> on((#[trigger] wa.toad@[k]).pos) && named(wa.toad@[k].pool_idx)
    &&& forall|k: int| 0 <= k < locks.len() ==> on((#[trigger] locks[k]).pos)
    &&& forall|k: int| 0 <= k < mask.len() ==> on(#[trigger] mask[k])
}

/// The map at `grid_offset` holds the whole grid.
pub open spec fn map_fits(len: int, g: Grid, grid_offset: int) -> bool {
    &&& g.rows == 9
    &&& g.cols % 16 == 0
    &&& grid_in_rom(len, grid_offset, (g.cols / 16) as int)
}

/// The fortress tile picks name fortress tiles, one per fortress.
pub open spec fn picks_ok(wa: WorldAssignments, picks: Seq<usize>) -> bool {
    &&& picks.len() == wa.fortress@.len()
    &&& forall|k: int| 0 <= k < picks.len() ==> (#[trigger] picks[k]) < 3
}

/// The tiles of the stamped grid.
pub open spec fn stamped_tiles(
    g: Grid,
    wa: WorldAssignments,
    pool: Seq<PoolEntry>,
    catalog: Seq<CatalogEntry>,
    w: int,
    picks: Seq<usize>,
    tiles: NodeStampTiles,
    bfs: Seq<Cell>,
    slots: Seq<SlotAssignment>,
    locks: Seq<LockAssignment>,
    mask: Seq<Cell>,
    sets: NodeTiles,
) -> Seq<u8> {
    let all = node_stamps(wa, pool, catalog, w, picks, tiles) + level_stamps(
        bfs,
        wa.level@,
        slots,
        wa.demoted_troll_pipes@,
    ) + lock_stamps(locks);
    masked(
        stamped(g.tiles@, g.cols as int, all, all.len() as int),
        g.cols as int,
        sets.horz@,
        sets.vert@,
        w,
        mask,
        mask.len() as int,
    )
}

proof fn lemma_last_level_at(level: Seq<Assignment>, p: Cell, k: int)
    requires
        0 <= k <= level.len(),
    ensures
        last_level_at(level, p, k) matches Some(la) ==> 0 <= la < k && level[la].pos == p,
    decreases k,
{
    if k > 0 {
        lemma_last_level_at(level, p, k - 1);
    }
}

proof fn lemma_bfs_pass(
    bfs: Seq<Cell>,
    level: Seq<Assignment>,
    slots: Seq<SlotAssignment>,
    demoted: Seq<Cell>,
    k: int,
    on: spec_fn(Cell) -> bool,
)
    requires
        0 <= k <= bfs.len(),
        forall|i: int| 0 <= i < level.len() ==> on((#[trigger] level[i]).pos),
    ensures
        bfs_pass(bfs, level, slots, demoted, k).1.len() == level.len(),
        forall|i: int|
            0 <= i < bfs_pass(bfs, level, slots, demoted, k).0.len() ==> on(
                (#[trigger] bfs_pass(bfs, level, slots, demoted, k).0[i]).0,
            ),
        0 <= bfs_pass(bfs, level, slots, demoted, k).2 <= bfs_pass(bfs, level, slots, demoted, k).0.len(),
        bfs_pass(bfs, level, slots, demoted, k).0.len() <= k,
    decreases k,
{
    if k > 0 {
        lemma_bfs_pass(bfs, level, slots, demoted, k - 1, on);
        lemma_last_level_at(level, bfs[k - 1], level.len() as int);
    }
}

proof fn lemma_rest_pass(
    level: Seq<Assignment>,
    slots: Seq<SlotAssignment>,
    demoted: Seq<Cell>,
    assigned: Seq<bool>,
    start: (Seq<(Cell, u8)>, int),
    k: int,
    on: spec_fn(Cell) -> bool,
)
    requires
        0 <= k <= level.len(),
        forall|i: int| 0 <= i < level.len() ==> on((#[trigger] level[i]).pos),
        forall|i: int| 0 <= i < start.0.len() ==> on((#[trigger] start.0[i]).0),
        0 <= start.1 <= start.0.len(),
    ensures
        forall|i: int|
            0 <= i < rest_pass(level, slots, demoted, assigned, start, k).0.len() ==> on(
                (#[trigger] rest_pass(level, slots, demoted, assigned, start, k).0[i]).0,
            ),
        0 <= rest_pass(level, slots, demoted, assigned, start, k).1 <= rest_pass(
            level,
            slots,
            demoted,
            assigned,
            start,
            k,
        ).0.len(),
        rest_pass(level, slots, demoted, assigned, start, k).0.len() <= start.0.len() + k,
    decreases k,
{
    if k > 0 {
        lemma_rest_pass(level, slots, demoted, assigned, start, k - 1, on);
    }
}

/// A hand-trap slot sits on `p`.
pub(crate) fn hand_at(slots: &Vec<SlotAssignment>, p: Cell) -> (b: bool)
    ensures
        b == is_hand(slots@, p),
{
    let mut i: usize = 0;
    while i < slots.len()
        invariant
            i <= slots@.len(),
            forall|j: int| 0 <= j < i ==> !((#[trigger] slots@[j]).is_hand_trap && slots@[j].pos == p),
        decreases slots@.len() - i,
    {
        let s = slots[i];
        if s.is_hand_trap && s.pos.0 == p.0 && s.pos.1 == p.1 {
            return true;
        }
        i = i + 1;
    }
    false
}

/// `p` is in `cells`.
fn cell_listed(cells: &Vec<Cell>, p: Cell) -> (b: bool)
    ensures
        b == cells@.contains(p),
{
    let mut i: usize = 0;
    while i < cells.len()
        invariant
            i <= cells@.len(),
            forall|j: int| 0 <= j < i ==> cells@[j] != p,
        decreases cells@.len() - i,
    {
        let q = cells[i];
        if q.0 == p.0 && q.1 == p.1 {
            return true;
        }
        i = i + 1;
    }
    false
}

/// A troll-pipe slot that was not demoted sits on `p`.
pub(crate) fn troll_at(slots: &Vec<SlotAssignment>, demoted: &Vec<Cell>, p: Cell) -> (b: bool)
    ensures
        b == is_troll(slots@, demoted@, p),
{
    let mut i: usize = 0;
    let mut found = false;
    while i < slots.len()
        invariant
            i <= slots@.len(),
            found == exists|j: int| 0 <= j < i && (#[trigger] slots@[j]).is_troll_pipe && slots@[j].pos == p,
        decreases slots@.len() - i,
    {
        let s = slots[i];
        if s.is_troll_pipe && s.pos.0 == p.0 && s.pos.1 == p.1 {
            found = true;
        }
        i = i + 1;
    }
    found && !cell_listed(demoted, p)
}

/// The tile for a level slot on `p` (see [`level_pick`]).
fn pick_level_tile(slots: &Vec<SlotAssignment>, demoted: &Vec<Cell>, p: Cell, li: usize) -> (r: (u8, usize))
    requires
        li < usize::MAX,
    ensures
        (r.0, r.1 as int) == level_pick(slots@, demoted@, p, li as int),
{
    if hand_at(slots, p) {
        (TILE_HAND_TRAP, li)
    } else if troll_at(slots, demoted, p) {
        (TILE_TROLL_PIPE, li)
    } else {
        (level_tile(li), li + 1)
    }
}

/// The last level assignment on `p`.
fn find_last_level(level: &Vec<Assignment>, p: Cell) -> (r: Option<usize>)
    ensures
        r matches Some(i) ==> last_level_at(level@, p, level@.len() as int) == Some(i as int),
        r is None ==> last_level_at(level@, p, level@.len() as int) is None,
{
    let mut k: usize = level.len();
    while k > 0
        invariant
            k <= level@.len(),
            last_level_at(level@, p, level@.len() as int) == last_level_at(level@, p, k as int),
        decreases k,
    {
        let q = level[k - 1].pos;
        if q.0 == p.0 && q.1 == p.1 {
            return Some(k - 1);
        }
        k = k - 1;
    }
    None
}

/// Stamp every tile and write the grid to the ROM, with fortress tile
/// `fort_picks[k]` on the `k`-th fortress: what [`write_tile_grid`] does
/// with its draws. `bfs` is the order of the grid's cells breadth-first
/// from the start, as the map walker finds it; `mask` lists the cells under
/// army and plant sprites, which become plain path nodes.
pub fn stamp_tile_grid(
    rom: &mut Rom,
    grid_offset: usize,
    world_idx: usize,
    grid: &Grid,
    wa: &WorldAssignments,
    pool: &Vec<PoolEntry>,
    catalog: &Vec<CatalogEntry>,
    fort_picks: &Vec<usize>,
    tiles: NodeStampTiles,
    bfs: &Vec<Cell>,
    slots: &Vec<SlotAssignment>,
    locks: &Vec<LockAssignment>,
    mask: &Vec<Cell>,
    sets: &NodeTiles,
)
    requires
        grid.wf(),
        map_fits(old(rom)@.len() as int, *grid, grid_offset as int),
        stamping_ok(*grid, *wa, pool@, catalog@, locks@, mask@),
        picks_ok(*wa, fort_picks@),
        bfs@.len() + wa.level@.len() < usize::MAX,
    ensures
        final(rom)@ == grid_to_rom(
            old(rom)@,
            stamped_tiles(
                *grid,
                *wa,
                pool@,
                catalog@,
                world_idx as int,
                fort_picks@,
                tiles,
                bfs@,
                slots@,
                locks@,
                mask@,
                *sets,
            ),
            grid.cols as int,
            grid_offset as int,
            (grid.rows * grid.cols) as int,
        ),
{
    let ghost on = |p: Cell| p.0 < grid.rows && p.1 < grid.cols;
    let ghost pools = pool@;
    let ghost cat = catalog@;
    let ghost all_nodes = node_stamps(*wa, pool@, catalog@, world_idx as int, fort_picks@, tiles);
    let mut stamps: Vec<(Cell, u8)> = Vec::new();

    // Fortresses.
    let mut k: usize = 0;
    while k < wa.fortress.len()
        invariant
            k <= wa.fortress@.len(),
            picks_ok(*wa, fort_picks@),
            stamps@ == Seq::new(k as nat, |i: int| (wa.fortress@[i].pos, fortress_tiles()[fort_picks@[i] as int])),
        decreases wa.fortress@.len() - k,
    {
        let t = fortress_tile(fort_picks[k]);
        stamps.push((wa.fortress[k].pos, t));
        k = k + 1;
        assert(stamps@ =~= Seq::new(k as nat, |i: int| (wa.fortress@[i].pos, fortress_tiles()[fort_picks@[i] as int])));
    }
    let ghost s1 = stamps@;

    // Pipe endpoints.
    let mut k: usize = 0;
    while k < wa.pipes.len()
        invariant
            k <= wa.pipes@.len(),
            stamping_ok(*grid, *wa, pool@, catalog@, locks@, mask@),
            stamps@ == s1 + Seq::new(
                2 * k as nat,
                |i: int|
                    {
                        let pa = wa.pipes@[i / 2];
                        if i % 2 == 0 {
                            (pa.pos_a, pipe_tile(node_tile(pool@, catalog@, pa.pool_idx_a as int), tiles.pipe))
                        } else {
                            (pa.pos_b, pipe_tile(node_tile(pool@, catalog@, pa.pool_idx_b as int), tiles.pipe))
                        }
                    },
            ),
        decreases wa.pipes@.len() - k,
    {
        let pa = wa.pipes[k];
        assert(wa.pipes@[k as int] == pa);
        let ta = catalog[pool[pa.pool_idx_a].catalog_idx].tile;
        let tb = catalog[pool[pa.pool_idx_b].catalog_idx].tile;
        let a_tile = if ta == TILE_SPIRAL_PIPE { TILE_SPIRAL_PIPE } else { tiles.pipe };
        let b_tile = if tb == TILE_SPIRAL_PIPE { TILE_SPIRAL_PIPE } else { tiles.pipe };
        stamps.push((pa.pos_a, a_tile));
        stamps.push((pa.pos_b, b_tile));
        k = k + 1;
        assert(stamps@ =~= s1 + Seq::new(
            2 * k as nat,
            |i: int|
                {
                    let pa = wa.pipes@[i / 2];
                    if i % 2 == 0 {
                        (pa.pos_a, pipe_tile(node_tile(pool@, catalog@, pa.pool_idx_a as int), tiles.pipe))
                    } else {
                        (pa.pos_b, pipe_tile(node_tile(pool@, catalog@, pa.pool_idx_b as int), tiles.pipe))
                    }
                },
        ));
    }
    let ghost s2 = stamps@;

    // Airship and Bowser.
    if let Some(a) = wa.airship {
        stamps.push((a.pos, catalog[pool[a.pool_idx].catalog_idx].tile));
    }
    let ghost s3 = stamps@;
    if let Some(a) = wa.bowser {
        stamps.push((a.pos, catalog[pool[a.pool_idx].catalog_idx].tile));
    }
    let ghost s4 = stamps@;

    // Spade games.
    let mut k: usize = 0;
    while k < wa.bonus.len()
        invariant
            k <= wa.bonus@.len(),
            stamps@ == s4 + Seq::new(k as nat, |i: int| (wa.bonus@[i].pos, tiles.bonus_game)),
        decreases wa.bonus@.len() - k,
    {
        stamps.push((wa.bonus[k].pos, tiles.bonus_game));
        k = k + 1;
        assert(stamps@ =~= s4 + Seq::new(k as nat, |i: int| (wa.bonus@[i].pos, tiles.bonus_game)));
    }
    let ghost s5 = stamps@;

    // Toad houses.
    let mut k: usize = 0;
    while k < wa.toad.len()
        invariant
            k <= wa.toad@.len(),
            stamping_ok(*grid, *wa, pool@, catalog@, locks@, mask@),
            stamps@ == s5 + Seq::new(
                k as nat,
                |i: int|
                    (
                        wa.toad@[i].pos,
                        toad_tile(
                            world_idx as int,
                            wa.toad@[i].pos,
                            node_tile(pool@, catalog@, wa.toad@[i].pool_idx as int),
                        ),
                    ),
            ),
        decreases wa.toad@.len() - k,
    {
        let a = wa.toad[k];
        assert(wa.toad@[k as int] == a);
        let t = if world_idx == 4 {
            if a.pos.1 >= 16 {
                0xE0
            } else {
                0x50
            }
        } else {
            catalog[pool[a.pool_idx].catalog_idx].tile
        };
        stamps.push((a.pos, t));
        k = k + 1;
        assert(stamps@ =~= s5 + Seq::new(
            k as nat,
            |i: int|
                (
                    wa.toad@[i].pos,
                    toad_tile(world_idx as int, wa.toad@[i].pos, node_tile(pool@, catalog@, wa.toad@[i].pool_idx as int)),
                ),
        ));
    }
    assert(stamps@ =~= all_nodes);

    // Levels, breadth-first from the start.
    let ghost lv = wa.level@;
    let ghost dm = wa.demoted_troll_pipes@;
    let mut level_stamp_list: Vec<(Cell, u8)> = Vec::new();
    let mut assigned: Vec<bool> = Vec::new();
    let mut i: usize = 0;
    while i < wa.level.len()
        invariant
            i <= lv.len(),
            lv == wa.level@,
            assigned@ == Seq::new(i as nat, |j: int| false),
        decreases lv.len() - i,
    {
        assigned.push(false);
        i = i + 1;
        assert(assigned@ =~= Seq::new(i as nat, |j: int| false));
    }
    let mut level_idx: usize = 0;
    let mut b: usize = 0;
    while b < bfs.len()
        invariant
            b <= bfs@.len(),
            lv == wa.level@,
            dm == wa.demoted_troll_pipes@,
            (level_stamp_list@, assigned@, level_idx as int) == bfs_pass(bfs@, lv, slots@, dm, b as int),
            level_idx <= b,
            assigned@.len() == lv.len(),
            bfs@.len() + lv.len() < usize::MAX,
        decreases bfs@.len() - b,
    {
        proof {
            lemma_bfs_pass(bfs@, lv, slots@, dm, b as int, |p: Cell| true);
            lemma_last_level_at(lv, bfs@[b as int], lv.len() as int);
        }
        let pos = bfs[b];
        let found = find_last_level(&wa.level, pos);
        if let Some(la) = found {
            if !assigned[la] {
                let (t, next) = pick_level_tile(slots, &wa.demoted_troll_pipes, pos, level_idx);
                level_stamp_list.push((pos, t));
                assigned.set(la, true);
                level_idx = next;
            }
        }
        b = b + 1;
        proof {
            lemma_bfs_pass(bfs@, lv, slots@, dm, b as int, |p: Cell| true);
        }
    }
    let ghost after_bfs = (level_stamp_list@, level_idx as int);
    let ghost done = assigned@;
    let mut k: usize = 0;
    while k < wa.level.len()
        invariant
            k <= lv.len(),
            lv == wa.level@,
            dm == wa.demoted_troll_pipes@,
            assigned@ == done,
            done.len() == lv.len(),
            (level_stamp_list@, level_idx as int) == rest_pass(lv, slots@, dm, done, after_bfs, k as int),
            level_idx <= bfs@.len() + k,
            bfs@.len() + lv.len() < usize::MAX,
        decreases lv.len() - k,
    {
        if !assigned[k] {
            let pos = wa.level[k].pos;
            let (t, next) = pick_level_tile(slots, &wa.demoted_troll_pipes, pos, level_idx);
            level_stamp_list.push((pos, t));
            level_idx = next;
        }
        k = k + 1;
    }
    assert(level_stamp_list@ == level_stamps(bfs@, lv, slots@, dm));

    // Lock gaps.
    let mut lock_list: Vec<(Cell, u8)> = Vec::new();
    let mut k: usize = 0;
    while k < locks.len()
        invariant
            k <= locks@.len(),
            lock_list@ == Seq::new(k as nat, |i: int| (locks@[i].pos, locks@[i].gap_tile)),
        decreases locks@.len() - k,
    {
        let l = locks[k];
        lock_list.push((l.pos, l.gap_tile));
        k = k + 1;
        assert(lock_list@ =~= Seq::new(k as nat, |i: int| (locks@[i].pos, locks@[i].gap_tile)));
    }
    assert(lock_list@ =~= lock_stamps(locks@));

    let ghost all = stamps@ + level_stamp_list@ + lock_list@;
    proof {
        lemma_bfs_pass(bfs@, lv, slots@, dm, bfs@.len() as int, on);
        let bp = bfs_pass(bfs@, lv, slots@, dm, bfs@.len() as int);
        lemma_rest_pass(lv, slots@, dm, bp.1, (bp.0, bp.2), lv.len() as int, on);
    }
    let mut work = Grid { rows: grid.rows, cols: grid.cols, tiles: grid.tiles.clone() };
    apply_stamps(&mut work, &stamps);
    apply_stamps(&mut work, &level_stamp_list);
    apply_stamps(&mut work, &lock_list);
    proof {
        lemma_stamped_concat(grid.tiles@, grid.cols as int, stamps@, level_stamp_list@);
        lemma_stamped_concat(grid.tiles@, grid.cols as int, stamps@ + level_stamp_list@, lock_list@);
    }

    // Path nodes under the sprites.
    let ghost before_mask = work.tiles@;
    let mut k: usize = 0;
    while k < mask.len()
        invariant
            k <= mask@.len(),
            work.wf(),
            work.rows == grid.rows,
            work.cols == grid.cols,
            stamping_ok(*grid, *wa, pool@, catalog@, locks@, mask@),
            work.tiles@ == masked(before_mask, grid.cols as int, sets.horz@, sets.vert@, world_idx as int, mask@, k as int),
        decreases mask@.len() - k,
    {
        let p = mask[k];
        assert(mask@[k as int] == p);
        let t = blank_tile_from_neighbors(&work, sets, world_idx, p.0, p.1);
        work.set(p.0, p.1, t);
        k = k + 1;
    }

    write_grid(rom, &work, grid_offset);
}

/// `stamped` over two lists in turn is `stamped` over their concatenation.
proof fn lemma_stamped_concat(tiles: Seq<u8>, cols: int, a: Seq<(Cell, u8)>, b: Seq<(Cell, u8)>)
    ensures
        stamped(stamped(tiles, cols, a, a.len() as int), cols, b, b.len() as int) == stamped(
            tiles,
            cols,
            a + b,
            (a + b).len() as int,
        ),
    decreases b.len(),
{
    if b.len() > 0 {
        let b1 = b.drop_last();
        lemma_stamped_concat(tiles, cols, a, b1);
        lemma_stamped_prefix(stamped(tiles, cols, a, a.len() as int), cols, b, b1, b1.len() as int);
        lemma_stamped_prefix(tiles, cols, a + b, a + b1, (a + b1).len() as int);
        assert((a + b)[(a + b).len() - 1] == b[b.len() - 1]);
    }
}

/// `stamped` reads only the first `k` stamps.
proof fn lemma_stamped_prefix(tiles: Seq<u8>, cols: int, s: Seq<(Cell, u8)>, t: Seq<(Cell, u8)>, k: int)
    requires
        0 <= k <= s.len(),
        k <= t.len(),
        forall|i: int| 0 <= i < k ==> s[i] == t[i],
    ensures
        stamped(tiles, cols, s, k) == stamped(tiles, cols, t, k),
    decreases k,
{
    if k > 0 {
        lemma_stamped_prefix(tiles, cols, s, t, k - 1);
    }
}

/// Apply stamps in order.
fn apply_stamps(g: &mut Grid, stamps: &Vec<(Cell, u8)>)
    requires
        old(g).wf(),
        forall|i: int|
            0 <= i < stamps@.len() ==> (#[trigger] stamps@[i]).0.0 < old(g).rows && stamps@[i].0.1 < old(g).cols,
    ensures
        final(g).wf(),
        final(g).rows == old(g).rows,
        final(g).cols == old(g).cols,
        final(g).tiles@ == stamped(old(g).tiles@, old(g).cols as int, stamps@, stamps@.len() as int),
{
    let mut k: usize = 0;
    while k < stamps.len()
        invariant
            k <= stamps@.len(),
            g.wf(),
            g.rows == old(g).rows,
            g.cols == old(g).cols,
            forall|i: int|
                0 <= i < stamps@.len() ==> (#[trigger] stamps@[i]).0.0 < old(g).rows && stamps@[i].0.1 < old(g).cols,
            g.tiles@ == stamped(old(g).tiles@, old(g).cols as int, stamps@, k as int),
        decreases stamps@.len() - k,
    {
        let (p, t) = stamps[k];
        assert(stamps@[k as int] == (p, t));
        g.set(p.0, p.1, t);
        k = k + 1;
    }
}

/// Write the grid's tiles to the map at `grid_offset`, row by row.
fn write_grid(rom: &mut Rom, g: &Grid, grid_offset: usize)
    requires
        g.wf(),
        map_fits(old(rom)@.len() as int, *g, grid_offset as int),
    ensures
        final(rom)@ == grid_to_rom(
            old(rom)@,
            g.tiles@,
            g.cols as int,
            grid_offset as int,
            (g.rows * g.cols) as int,
        ),
{
    let total = rom.len();
    let n = g.tiles.len();
    let mut i: usize = 0;
    while i < n
        invariant
            i <= n,
            n == g.tiles@.len(),
            g.wf(),
            total == old(rom)@.len(),
            rom@.len() == total,
            map_fits(total as int, *g, grid_offset as int),
            rom@ == grid_to_rom(old(rom)@, g.tiles@, g.cols as int, grid_offset as int, i as int),
        decreases n - i,
    {
        let cols = g.cols;
        let r = i / cols;
        let c = i % cols;
        proof {
            let ii = i as int;
            let cn = cols as int;
            let screens = cn / 16;
            assert(cn > 0 && ii / cn < 9) by (nonlinear_arith)
                requires
                    0 <= ii < 9 * cn,
                    cn >= 0,
            ;
            assert(cn == screens * 16);
            lemma_tile_offset_in_map(grid_offset as int, screens, r as int, c as int);
        }
        let o = map_tile_offset(grid_offset, r, c);
        rom.write_byte(o, g.tiles[i]);
        i = i + 1;
    }
}

/// Stamp a world's tile grid and write it to the ROM: each fortress gets
/// one of the three fortress tiles at random, then everything else as
/// [`stamp_tile_grid`] says.
pub fn write_tile_grid(
    rom: &mut Rom,
    grid_offset: usize,
    world_idx: usize,
    grid: &Grid,
    wa: &WorldAssignments,
    pool: &Vec<PoolEntry>,
    catalog: &Vec<CatalogEntry>,
    tiles: NodeStampTiles,
    bfs: &Vec<Cell>,
    slots: &Vec<SlotAssignment>,
    locks: &Vec<LockAssignment>,
    mask: &Vec<Cell>,
    sets: &NodeTiles,
    rng: &mut ChaCha8Rng,
)
    requires
        grid.wf(),
        map_fits(old(rom)@.len() as int, *grid, grid_offset as int),
        stamping_ok(*grid, *wa, pool@, catalog@, locks@, mask@),
        bfs@.len() + wa.level@.len() < usize::MAX,
    ensures
        exists|picks: Seq<usize>|
            picks_ok(*wa, picks) && final(rom)@ == grid_to_rom(
                old(rom)@,
                #[trigger] stamped_tiles(
                    *grid,
                    *wa,
                    pool@,
                    catalog@,
                    world_idx as int,
                    picks,
                    tiles,
                    bfs@,
                    slots@,
                    locks@,
                    mask@,
                    *sets,
                ),
                grid.cols as int,
                grid_offset as int,
                (grid.rows * grid.cols) as int,
            ),
{
    let mut picks: Vec<usize> = Vec::new();
    let mut k: usize = 0;
    while k < wa.fortress.len()
        invariant
            k <= wa.fortress@.len(),
            picks@.len() == k,
            forall|i: int| 0 <= i < k ==> (#[trigger] picks@[i]) < 3,
        decreases wa.fortress@.len() - k,
    {
        picks.push(random_below(rng, 3));
        k = k + 1;
    }
    stamp_tile_grid(
        rom,
        grid_offset,
        world_idx,
        grid,
        wa,
        pool,
        catalog,
        &picks,
        tiles,
        bfs,
        slots,
        locks,
        mask,
        sets,
    );
}

/// One of the plain path nodes the neighbour rule gives (plains, sky and
/// island sets).
pub open spec fn path_node_tile(t: u8) -> bool {
    ||| t == 0x47 || t == 0x48 || t == 0x4A || t == 0x44
    ||| t == 0xDC || t == 0xDD || t == 0xDE || t == 0xD9
    ||| t == 0xAE || t == 0xB5 || t == 0xAF || t == 0xB6
}

/// Every stamp of `s` falls on a grid of `rows` by `cols`.
pub open spec fn stamps_on(s: Seq<(Cell, u8)>, rows: int, cols: int) -> bool {
    forall|i: int| 0 <= i < s.len() ==> (#[trigger] s[i]).0.0 < rows && s[i].0.1 < cols
}

proof fn lemma_stamps_on_concat(a: Seq<(Cell, u8)>, b: Seq<(Cell, u8)>, rows: int, cols: int)
    requires
        stamps_on(a, rows, cols),
        stamps_on(b, rows, cols),
    ensures
        stamps_on(a + b, rows, cols),
{
    assert forall|i: int| 0 <= i < (a + b).len() implies (#[trigger] (a + b)[i]).0.0 < rows && (a
        + b)[i].0.1 < cols by {
        if i < a.len() {
            assert((a + b)[i] == a[i]);
        } else {
            assert((a + b)[i] == b[i - a.len()]);
        }
    }
}

/// Stamping on-grid cells keeps the number of tiles.
proof fn lemma_stamped_len(tiles: Seq<u8>, rows: int, cols: int, stamps: Seq<(Cell, u8)>, k: int)
    requires
        0 <= k <= stamps.len(),
        tiles.len() == rows * cols,
        stamps_on(stamps, rows, cols),
    ensures
        stamped(tiles, cols, stamps, k).len() == tiles.len(),
    decreases k,
{
    if k > 0 {
        lemma_stamped_len(tiles, rows, cols, stamps, k - 1);
        let p = stamps[k - 1].0;
        lemma_cell_in_grid(p.0 as int, p.1 as int, rows, cols);
    }
}

/// All stamps of a stamping fall on the grid.
proof fn lemma_all_stamps_on(
    g: Grid,
    wa: WorldAssignments,
    pool: Seq<PoolEntry>,
    catalog: Seq<CatalogEntry>,
    w: int,
    picks: Seq<usize>,
    tiles: NodeStampTiles,
    bfs: Seq<Cell>,
    slots: Seq<SlotAssignment>,
    locks: Seq<LockAssignment>,
    mask: Seq<Cell>,
)
    requires
        stamping_ok(g, wa, pool, catalog, locks, mask),
    ensures
        stamps_on(
            node_stamps(wa, pool, catalog, w, picks, tiles) + level_stamps(
                bfs,
                wa.level@,
                slots,
                wa.demoted_troll_pipes@,
            ) + lock_stamps(locks),
            g.rows as int,
            g.cols as int,
        ),
{
    let rows = g.rows as int;
    let cols = g.cols as int;
    let fort = Seq::new(
        wa.fortress@.len(),
        |k: int| (wa.fortress@[k].pos, fortress_tiles()[picks[k] as int]),
    );
    let pipes = Seq::new(
        2 * wa.pipes@.len(),
        |i: int|
            {
                let pa = wa.pipes@[i / 2];
                if i % 2 == 0 {
                    (pa.pos_a, pipe_tile(node_tile(pool, catalog, pa.pool_idx_a as int), tiles.pipe))
                } else {
                    (pa.pos_b, pipe_tile(node_tile(pool, catalog, pa.pool_idx_b as int), tiles.pipe))
                }
            },
    );
    let airship = match wa.airship {
        Some(a) => seq![(a.pos, node_tile(pool, catalog, a.pool_idx as int))],
        None => Seq::empty(),
    };
    let bowser = match wa.bowser {
        Some(a) => seq![(a.pos, node_tile(pool, catalog, a.pool_idx as int))],
        None => Seq::empty(),
    };
    let bonus = Seq::new(wa.bonus@.len(), |k: int| (wa.bonus@[k].pos, tiles.bonus_game));
    let toad = Seq::new(
        wa.toad@.len(),
        |k: int|
            (
                wa.toad@[k].pos,
                toad_tile(w, wa.toad@[k].pos, node_tile(pool, catalog, wa.toad@[k].pool_idx as int)),
            ),
    );
    assert(stamps_on(fort, rows, cols)) by {
        assert forall|i: int| 0 <= i < fort.len() implies (#[trigger] fort[i]).0.0 < rows && fort[i].0.1 < cols by {
            assert(fort[i].0 == wa.fortress@[i].pos);
        }
    }
    assert(stamps_on(pipes, rows, cols)) by {
        assert forall|i: int| 0 <= i < pipes.len() implies (#[trigger] pipes[i]).0.0 < rows && pipes[i].0.1 < cols by {
            let pa = wa.pipes@[i / 2];
            assert(0 <= i / 2 < wa.pipes@.len());
            assert(pa.pos_a.0 < rows && pa.pos_a.1 < cols && pa.pos_b.0 < rows && pa.pos_b.1 < cols);
        }
    }
    assert(stamps_on(bonus, rows, cols)) by {
        assert forall|i: int| 0 <= i < bonus.len() implies (#[trigger] bonus[i]).0.0 < rows && bonus[i].0.1 < cols by {
            assert(bonus[i].0 == wa.bonus@[i].pos);
        }
    }
    assert(stamps_on(toad, rows, cols)) by {
        assert forall|i: int| 0 <= i < toad.len() implies (#[trigger] toad[i]).0.0 < rows && toad[i].0.1 < cols by {
            assert(toad[i].0 == wa.toad@[i].pos);
        }
    }
    lemma_stamps_on_concat(fort, pipes, rows, cols);
    lemma_stamps_on_concat(fort + pipes, airship, rows, cols);
    lemma_stamps_on_concat(fort + pipes + airship, bowser, rows, cols);
    lemma_stamps_on_concat(fort + pipes + airship + bowser, bonus, rows, cols);
    lemma_stamps_on_concat(fort + pipes + airship + bowser + bonus, toad, rows, cols);
    assert(node_stamps(wa, pool, catalog, w, picks, tiles) == fort + pipes + airship + bowser + bonus + toad);
    let on = |p: Cell| p.0 < g.rows && p.1 < g.cols;
    let level = wa.level@;
    let demoted = wa.demoted_troll_pipes@;
    assert forall|i: int| 0 <= i < level.len() implies on((#[trigger] level[i]).pos) by {}
    lemma_bfs_pass(bfs, level, slots, demoted, bfs.len() as int, on);
    let b = bfs_pass(bfs, level, slots, demoted, bfs.len() as int);
    lemma_rest_pass(level, slots, demoted, b.1, (b.0, b.2), level.len() as int, on);
    let ls = level_stamps(bfs, level, slots, demoted);
    assert(stamps_on(ls, rows, cols)) by {
        assert forall|i: int| 0 <= i < ls.len() implies (#[trigger] ls[i]).0.0 < rows && ls[i].0.1 < cols by {
            assert(on(ls[i].0));
        }
    }
    let lk = lock_stamps(locks);
    assert(stamps_on(lk, rows, cols)) by {
        assert forall|i: int| 0 <= i < lk.len() implies (#[trigger] lk[i]).0.0 < rows && lk[i].0.1 < cols by {
            assert(lk[i].0 == locks[i].pos);
        }
    }
    lemma_stamps_on_concat(node_stamps(wa, pool, catalog, w, picks, tiles), ls, rows, cols);
    lemma_stamps_on_concat(node_stamps(wa, pool, catalog, w, picks, tiles) + ls, lk, rows, cols);
}

proof fn lemma_masked_cells(
    tiles: Seq<u8>,
    cols: int,
    horz: Seq<u8>,
    vert: Seq<u8>,
    w: int,
    mask: Seq<Cell>,
    k: int,
)
    requires
        0 <= k <= mask.len(),
        forall|j: int| 0 <= j < mask.len() ==> 0 <= (#[trigger] mask[j]).0 * cols + mask[j].1 < tiles.len(),
    ensures
        masked(tiles, cols, horz, vert, w, mask, k).len() == tiles.len(),
        forall|j: int|
            0 <= j < k ==> path_node_tile(
                #[trigger] masked(tiles, cols, horz, vert, w, mask, k)[mask[j].0 * cols + mask[j].1],
            ),
    decreases k,
{
    if k > 0 {
        lemma_masked_cells(tiles, cols, horz, vert, w, mask, k - 1);
        let prev = masked(tiles, cols, horz, vert, w, mask, k - 1);
        let p = mask[k - 1];
        let t = blank_from_neighbors(prev, cols, horz, vert, w, p.0 as int, p.1 as int);
        assert(path_node_tile(t));
        let cur = masked(tiles, cols, horz, vert, w, mask, k);
        assert forall|j: int| 0 <= j < k implies path_node_tile(
            #[trigger] cur[mask[j].0 * cols + mask[j].1],
        ) by {
            if mask[j].0 * cols + mask[j].1 != p.0 * cols + p.1 {
                assert(cur[mask[j].0 * cols + mask[j].1] == prev[mask[j].0 * cols + mask[j].1]);
            }
        }
    }
}

/// Every cell under an army or plant sprite ends as a plain path node of
/// the neighbour rule, never a numbered level tile ($03-$15).
pub proof fn lemma_sprite_cells_are_path_nodes(
    g: Grid,
    wa: WorldAssignments,
    pool: Seq<PoolEntry>,
    catalog: Seq<CatalogEntry>,
    w: int,
    picks: Seq<usize>,
    tiles: NodeStampTiles,
    bfs: Seq<Cell>,
    slots: Seq<SlotAssignment>,
    locks: Seq<LockAssignment>,
    mask: Seq<Cell>,
    sets: NodeTiles,
)
    requires
        g.wf(),
        stamping_ok(g, wa, pool, catalog, locks, mask),
    ensures
        forall|k: int|
            0 <= k < mask.len() ==> {
                let t = #[trigger] stamped_tiles(g, wa, pool, catalog, w, picks, tiles, bfs, slots, locks, mask, sets)[
                    mask[k].0 * g.cols + mask[k].1];
                path_node_tile(t) && !(0x03 <= t <= 0x15)
            },
{
    let all = node_stamps(wa, pool, catalog, w, picks, tiles) + level_stamps(
        bfs,
        wa.level@,
        slots,
        wa.demoted_troll_pipes@,
    ) + lock_stamps(locks);
    let base = stamped(g.tiles@, g.cols as int, all, all.len() as int);
    lemma_all_stamps_on(g, wa, pool, catalog, w, picks, tiles, bfs, slots, locks, mask);
    lemma_stamped_len(g.tiles@, g.rows as int, g.cols as int, all, all.len() as int);
    assert forall|j: int| 0 <= j < mask.len() implies 0 <= (#[trigger] mask[j]).0 * g.cols + mask[j].1
        < base.len() by {
        lemma_cell_in_grid(mask[j].0 as int, mask[j].1 as int, g.rows as int, g.cols as int);
    }
    lemma_masked_cells(base, g.cols as int, sets.horz@, sets.vert@, w, mask, mask.len() as int);
}

/// A hand-trap slot sits on `p`.
pub open spec fn hand_cell(slots: Seq<SlotAssignment>, p: Cell) -> bool {
    exists|i: int| 0 <= i < slots.len() && slots[i].is_hand_trap && (#[trigger] slots[i]).pos == p
}

/// A troll-pipe slot that was not demoted sits on `p`.
pub open spec fn live_troll_cell(slots: Seq<SlotAssignment>, demoted: Seq<Cell>, p: Cell) -> bool {
    &&& exists|i: int| 0 <= i < slots.len() && slots[i].is_troll_pipe && (#[trigger] slots[i]).pos == p
    &&& !demoted.contains(p)
}

/// How many of the first `k` stamps are plain numbered levels (neither a
/// hand trap nor a live troll pipe on the cell).
pub open spec fn numbered_before(st: Seq<(Cell, u8)>, slots: Seq<SlotAssignment>, demoted: Seq<Cell>, k: int) -> int
    decreases k,
{
    if k <= 0 {
        0
    } else {
        numbered_before(st, slots, demoted, k - 1) + if !hand_cell(slots, st[k - 1].0) && !live_troll_cell(
            slots,
            demoted,
            st[k - 1].0,
        ) {
            1int
        } else {
            0int
        }
    }
}

/// Stamp `k` shows what its cell holds: a hand trap $E6, a live troll pipe
/// $BC, and otherwise the next level number ($03 for level 1, counting only
/// the plain levels stamped before it; $69 past level 19).
pub open spec fn stamp_shows(st: Seq<(Cell, u8)>, slots: Seq<SlotAssignment>, demoted: Seq<Cell>, k: int) -> bool {
    let p = st[k].0;
    let n = numbered_before(st, slots, demoted, k);
    &&& hand_cell(slots, p) ==> st[k].1 == 0xE6u8
    &&& !hand_cell(slots, p) && live_troll_cell(slots, demoted, p) ==> st[k].1 == 0xBCu8
    &&& !hand_cell(slots, p) && !live_troll_cell(slots, demoted, p) ==> st[k].1 == (if n < 19 {
        (n + 3) as u8
    } else {
        0x69u8
    })
}

proof fn lemma_numbered_prefix(
    st: Seq<(Cell, u8)>,
    x: (Cell, u8),
    slots: Seq<SlotAssignment>,
    demoted: Seq<Cell>,
    k: int,
)
    requires
        0 <= k <= st.len(),
    ensures
        numbered_before(st.push(x), slots, demoted, k) == numbered_before(st, slots, demoted, k),
    decreases k,
{
    if k > 0 {
        lemma_numbered_prefix(st, x, slots, demoted, k - 1);
        assert(st.push(x)[k - 1] == st[k - 1]);
    }
}

/// Pushing the stamp `level_pick` gives keeps every stamp showing its cell,
/// with the counter equal to the numbered stamps so far.
proof fn lemma_pick_step(
    st: Seq<(Cell, u8)>,
    slots: Seq<SlotAssignment>,
    demoted: Seq<Cell>,
    p: Cell,
    li: int,
)
    requires
        forall|k: int| 0 <= k < st.len() ==> stamp_shows(st, slots, demoted, k),
        li == numbered_before(st, slots, demoted, st.len() as int),
    ensures
        ({
            let (t, li2) = level_pick(slots, demoted, p, li);
            let st2 = st.push((p, t));
            &&& forall|k: int| 0 <= k < st2.len() ==> stamp_shows(st2, slots, demoted, k)
            &&& li2 == numbered_before(st2, slots, demoted, st2.len() as int)
        }),
{
    let (t, li2) = level_pick(slots, demoted, p, li);
    let st2 = st.push((p, t));
    assert(is_hand(slots, p) == hand_cell(slots, p));
    assert(is_troll(slots, demoted, p) == live_troll_cell(slots, demoted, p));
    assert forall|k: int| 0 <= k < st2.len() implies stamp_shows(st2, slots, demoted, k) by {
        lemma_numbered_prefix(st, (p, t), slots, demoted, k);
        if k < st.len() {
            assert(st2[k] == st[k]);
            assert(stamp_shows(st, slots, demoted, k));
        } else {
            assert(st2[k] == (p, t));
        }
    }
    lemma_numbered_prefix(st, (p, t), slots, demoted, st.len() as int);
}

proof fn lemma_bfs_pass_shows(
    bfs: Seq<Cell>,
    level: Seq<Assignment>,
    slots: Seq<SlotAssignment>,
    demoted: Seq<Cell>,
    k: int,
)
    requires
        0 <= k <= bfs.len(),
    ensures
        ({
            let b = bfs_pass(bfs, level, slots, demoted, k);
            &&& forall|q: int| 0 <= q < b.0.len() ==> stamp_shows(b.0, slots, demoted, q)
            &&& b.2 == numbered_before(b.0, slots, demoted, b.0.len() as int)
        }),
    decreases k,
{
    if k > 0 {
        lemma_bfs_pass_shows(bfs, level, slots, demoted, k - 1);
        let prev = bfs_pass(bfs, level, slots, demoted, k - 1);
        lemma_pick_step(prev.0, slots, demoted, bfs[k - 1], prev.2);
    }
}

proof fn lemma_rest_pass_shows(
    level: Seq<Assignment>,
    slots: Seq<SlotAssignment>,
    demoted: Seq<Cell>,
    assigned: Seq<bool>,
    start: (Seq<(Cell, u8)>, int),
    k: int,
)
    requires
        0 <= k <= level.len(),
        forall|q: int| 0 <= q < start.0.len() ==> stamp_shows(start.0, slots, demoted, q),
        start.1 == numbered_before(start.0, slots, demoted, start.0.len() as int),
    ensures
        ({
            let r = rest_pass(level, slots, demoted, assigned, start, k);
            &&& forall|q: int| 0 <= q < r.0.len() ==> stamp_shows(r.0, slots, demoted, q)
            &&& r.1 == numbered_before(r.0, slots, demoted, r.0.len() as int)
        }),
    decreases k,
{
    if k > 0 {
        lemma_rest_pass_shows(level, slots, demoted, assigned, start, k - 1);
        let prev = rest_pass(level, slots, demoted, assigned, start, k - 1);
        lemma_pick_step(prev.0, slots, demoted, level[k - 1].pos, prev.1);
    }
}

/// Level numbering: every level stamp shows what its cell holds, and the
/// plain levels carry consecutive numbers 1, 2, 3, ... in stamping order,
/// whatever hand traps and troll pipes lie between them (those use no
/// number).
pub proof fn lemma_level_numbers_consecutive(
    bfs: Seq<Cell>,
    level: Seq<Assignment>,
    slots: Seq<SlotAssignment>,
    demoted: Seq<Cell>,
)
    ensures
        forall|k: int|
            0 <= k < level_stamps(bfs, level, slots, demoted).len() ==> stamp_shows(
                level_stamps(bfs, level, slots, demoted),
                slots,
                demoted,
                k,
            ),
{
    lemma_bfs_pass_shows(bfs, level, slots, demoted, bfs.len() as int);
    let b = bfs_pass(bfs, level, slots, demoted, bfs.len() as int);
    lemma_rest_pass_shows(level, slots, demoted, b.1, (b.0, b.2), level.len() as int);
}

} // verus!
