//! Clear and pick up: read a world's tile grid, open its vanilla FX gaps,
//! move its level-like nodes into the shuffle pool and blank their grid
//! cells with a path node that fits the neighbouring paths and the world's
//! look. No randomness and no ROM writes.
//!
//! The node catalog and the tile classes (blank nodes, horizontal and
//! vertical paths) come from the ROM description the caller holds; they are
//! passed in.
use vstd::prelude::*;
use crate::map_grid::{Cell, Grid, grid_in_rom, grid_read, read_tile_grid};
use crate::pipe_helpers::PointerEntry;
use crate::rom::Rom;

verus! {

/// What a catalog node is.
#[derive(Clone, Copy, Debug, PartialEq, Eq, Structural)]
pub enum NodeKind {
    Start,
    Level,
    Fortress,
    /// A pipe endpoint: its destination index and whether it is the A side
    /// (the left pipe in the transit level).
    Pipe { dest_idx: usize, is_a_side: bool },
    Airship,
    Bowser,
    HammerBro,
    BonusGame,
    ToadHouse,
    /// A map object with a pointer entry of its own (such as a piranha).
    MapObject,
}

impl NodeKind {
    /// Levels, fortresses, pipes, airships and Bowser's castle: nodes that
    /// enter a level.
    pub open spec fn spec_is_level_like(self) -> bool {
        self is Level || self is Fortress || self is Pipe || self is Airship || self is Bowser
    }

    /// See [`NodeKind::spec_is_level_like`].
    pub fn is_level_like(&self) -> (b: bool)
        ensures
            b == self.spec_is_level_like(),
    {
        match self {
            NodeKind::Level | NodeKind::Fortress | NodeKind::Pipe { .. } | NodeKind::Airship
            | NodeKind::Bowser => true,
            _ => false,
        }
    }
}

/// One node of the vanilla map.
#[derive(Clone, Copy, Debug)]
pub struct CatalogEntry {
    /// World index, or `usize::MAX` for a node with no vanilla cell.
    pub world_idx: usize,
    /// Its pointer table slot.
    pub entry_idx: usize,
    pub grid_pos: Cell,
    pub kind: NodeKind,
    /// Its vanilla map tile.
    pub tile: u8,
    /// Its vanilla pointer table entry, where it has one.
    pub level_entry: Option<PointerEntry>,
}

/// A node picked up from the grid, ready for the shuffle pool.
#[derive(Clone, Copy, Debug, PartialEq, Eq, Structural)]
pub struct PoolEntry {
    /// Index into the catalog.
    pub catalog_idx: usize,
    /// Vanilla world index (`usize::MAX` for a node with no vanilla cell).
    pub world_idx: usize,
    /// Vanilla pointer table slot.
    pub entry_idx: usize,
}

/// One world's cleared grid and what was picked up from it.
pub struct ClearedWorld {
    pub world_idx: usize,
    /// The grid with FX gaps opened and picked-up cells blanked.
    pub grid: Grid,
    /// Vanilla grid positions of the picked-up nodes (parallel to
    /// `pool_indices`).
    pub pickup_positions: Vec<Cell>,
    /// Indices into the pool of this world's picked-up nodes.
    pub pool_indices: Vec<usize>,
}

/// Which optional node kinds go into the pool.
#[derive(Clone, Copy, Debug)]
pub struct PickupFlags {
    pub shuffle_spade_games: bool,
    pub shuffle_toad_houses: bool,
}

/// A vanilla FX gap: the cell it sits on and the path tile under it.
#[derive(Clone, Copy, Debug)]
pub struct FxSlot {
    pub grid_row: usize,
    pub grid_col: usize,
    pub replace_tile: u8,
}

/// The map's tile classes: blank nodes, and the path tiles that connect
/// horizontally and vertically.
pub struct NodeTiles {
    pub blank: Vec<u8>,
    pub horz: Vec<u8>,
    pub vert: Vec<u8>,
}

/// The node goes into the pool: level-like nodes and Hammer Bros always,
/// spade games and toad houses when their flags say so; never an airship,
/// Bowser's castle or the W3 boat dock tile ($4B), which must stay put.
pub open spec fn pickup_pred(e: CatalogEntry, flags: PickupFlags) -> bool {
    if e.kind is Airship || e.kind is Bowser {
        false
    } else if e.tile == 0x4B {
        false
    } else if e.kind.spec_is_level_like() || e.kind is HammerBro {
        true
    } else if flags.shuffle_spade_games && e.kind is BonusGame {
        true
    } else {
        flags.shuffle_toad_houses && e.kind is ToadHouse
    }
}

/// See [`pickup_pred`].
pub fn default_pickup_pred(entry: &CatalogEntry, flags: PickupFlags) -> (b: bool)
    ensures
        b == pickup_pred(*entry, flags),
{
    if matches!(entry.kind, NodeKind::Airship | NodeKind::Bowser) {
        return false;
    }
    if entry.tile == 0x4B {
        return false;
    }
    if entry.kind.is_level_like() || matches!(entry.kind, NodeKind::HammerBro) {
        return true;
    }
    if flags.shuffle_spade_games && matches!(entry.kind, NodeKind::BonusGame) {
        return true;
    }
    if flags.shuffle_toad_houses && matches!(entry.kind, NodeKind::ToadHouse) {
        return true;
    }
    false
}

/// `x` occurs in `v`.
pub fn has_byte(v: &Vec<u8>, x: u8) -> (b: bool)
    ensures
        b == v@.contains(x),
{
    let mut i: usize = 0;
    while i < v.len()
        invariant
            i <= v@.len(),
            forall|j: int| 0 <= j < i ==> v@[j] != x,
        decreases v@.len() - i,
    {
        if v[i] == x {
            return true;
        }
        i = i + 1;
    }
    false
}

/// Cells whose blank tile the neighbour rule gets wrong, and the tile they
/// take instead: the W3 spade near the start (it needs a horizontal node for
/// the path search) and the W5 spade in the sky.
pub open spec fn spec_blank_override(w: int, r: int, c: int) -> Option<u8> {
    if w == 2 && r == 8 && c == 6 {
        Some(0x47u8)
    } else if w == 4 && r == 6 && c == 20 {
        Some(0xD9u8)
    } else {
        None
    }
}

fn blank_override(w: usize, r: usize, c: usize) -> (t: Option<u8>)
    ensures
        t == spec_blank_override(w as int, r as int, c as int),
{
    if w == 2 && r == 8 && c == 6 {
        Some(0x47)
    } else if w == 4 && r == 6 && c == 20 {
        Some(0xD9)
    } else {
        None
    }
}

/// Cells drawn on narrow island strips, which take the island blank tiles:
/// W3's 3-2, 3-1, 3-5 and two Hammer Bro cells, W4's 4-4 and W7's 7-4.
pub open spec fn spec_is_island(w: int, r: int, c: int) -> bool {
    ||| (w == 2 && r == 2 && c == 4)
    ||| (w == 2 && r == 4 && c == 4)
    ||| (w == 2 && r == 6 && c == 4)
    ||| (w == 2 && r == 4 && c == 12)
    ||| (w == 2 && r == 6 && c == 12)
    ||| (w == 3 && r == 6 && c == 20)
    ||| (w == 6 && r == 5 && c == 10)
}

fn is_island(w: usize, r: usize, c: usize) -> (b: bool)
    ensures
        b == spec_is_island(w as int, r as int, c as int),
{
    (w == 2 && r == 2 && c == 4) || (w == 2 && r == 4 && c == 4) || (w == 2 && r == 6 && c == 4) || (w
        == 2 && r == 4 && c == 12) || (w == 2 && r == 6 && c == 12) || (w == 3 && r == 6 && c == 20)
        || (w == 6 && r == 5 && c == 10)
}

/// Blank tiles `(horizontal, vertical, both, none)` of a theme: island
/// strips, sky, or standard land.
pub open spec fn spec_theme(island: bool, sky: bool) -> (u8, u8, u8, u8) {
    if island {
        (0xAEu8, 0xB5u8, 0xAFu8, 0xB6u8)
    } else if sky {
        (0xDCu8, 0xDDu8, 0xDEu8, 0xD9u8)
    } else {
        (0x47u8, 0x48u8, 0x4Au8, 0x44u8)
    }
}

fn theme(island: bool, sky: bool) -> (t: (u8, u8, u8, u8))
    ensures
        t == spec_theme(island, sky),
{
    if island {
        (0xAE, 0xB5, 0xAF, 0xB6)
    } else if sky {
        (0xDC, 0xDD, 0xDE, 0xD9)
    } else {
        (0x47, 0x48, 0x4A, 0x44)
    }
}

/// Tile at `(r, c)` of row-by-row tiles `cols` wide.
pub open spec fn tile_at(tiles: Seq<u8>, cols: int, r: int, c: int) -> u8 {
    tiles[r * cols + c]
}

/// The blank node for `(r, c)` chosen from its neighbours alone: a
/// horizontal, vertical, crossing or lone node after the paths that reach it
/// from the left and from above, in the island, sky (the path it joins is a
/// $Dx tile) or standard theme.
pub open spec fn blank_from_neighbors(
    tiles: Seq<u8>,
    cols: int,
    horz: Seq<u8>,
    vert: Seq<u8>,
    w: int,
    r: int,
    c: int,
) -> u8 {
    let has_h = c > 0 && horz.contains(tile_at(tiles, cols, r, c - 1));
    let has_v = r > 0 && vert.contains(tile_at(tiles, cols, r - 1, c));
    let sky = if has_h {
        tile_at(tiles, cols, r, c - 1) / 16 == 0xD
    } else {
        has_v && tile_at(tiles, cols, r - 1, c) / 16 == 0xD
    };
    let t = spec_theme(spec_is_island(w, r, c), sky);
    if has_h && has_v {
        t.2
    } else if has_h {
        t.0
    } else if has_v {
        t.1
    } else {
        t.3
    }
}

/// The neighbour rule's blank node, case by case: the node's arms follow
/// the paths that reach the cell (a horizontal path on its left, a vertical
/// one above), and its look follows the path it joins (the left one, else
/// the one above): a `$Dx` path gives the sky set, any other the land set,
/// and island cells always take the island set.
pub proof fn lemma_blank_node_cases(
    tiles: Seq<u8>,
    cols: int,
    horz: Seq<u8>,
    vert: Seq<u8>,
    w: int,
    r: int,
    c: int,
)
    ensures
        ({
            let t = blank_from_neighbors(tiles, cols, horz, vert, w, r, c);
            let left = tiles[r * cols + c - 1];
            let above = tiles[(r - 1) * cols + c];
            let h = c > 0 && horz.contains(left);
            let v = r > 0 && vert.contains(above);
            let island = spec_is_island(w, r, c);
            &&& !island && h && left / 16 == 0xD ==> t == (if v { 0xDEu8 } else { 0xDCu8 })
            &&& !island && h && left / 16 != 0xD ==> t == (if v { 0x4Au8 } else { 0x47u8 })
            &&& !island && !h && v && above / 16 == 0xD ==> t == 0xDDu8
            &&& !island && !h && v && above / 16 != 0xD ==> t == 0x48u8
            &&& !island && !h && !v ==> t == 0x44u8
            &&& island ==> t == (if h && v { 0xAFu8 } else if h { 0xAEu8 } else if v { 0xB5u8 } else { 0xB6u8 })
        }),
{
    assert(r * cols + (c - 1) == r * cols + c - 1);
}

/// The blank node for a picked-up cell: the tile itself when it already is
/// a blank node (keeping the vanilla paths), else the cell's override, else
/// the neighbour rule.
pub open spec fn blank_for(
    tiles: Seq<u8>,
    cols: int,
    sets: NodeTiles,
    w: int,
    r: int,
    c: int,
) -> u8 {
    let cur = tile_at(tiles, cols, r, c);
    if sets.blank@.contains(cur) {
        cur
    } else if spec_blank_override(w, r, c) is Some {
        spec_blank_override(w, r, c)->0
    } else {
        blank_from_neighbors(tiles, cols, sets.horz@, sets.vert@, w, r, c)
    }
}

/// Pick a blank tile from the neighbours alone, with no per-cell override
/// (for cells that are not vanilla fixed spots, such as army sprite cells).
pub fn blank_tile_from_neighbors(grid: &Grid, sets: &NodeTiles, world_idx: usize, row: usize, col: usize) -> (t:
    u8)
    requires
        grid.wf(),
        row < grid.rows,
        col < grid.cols,
    ensures
        t == blank_from_neighbors(
            grid.tiles@,
            grid.cols as int,
            sets.horz@,
            sets.vert@,
            world_idx as int,
            row as int,
            col as int,
        ),
{
    let h_tile = if col > 0 { grid.get(row, col - 1) } else { 0 };
    let v_tile = if row > 0 { grid.get(row - 1, col) } else { 0 };
    let has_h = col > 0 && has_byte(&sets.horz, h_tile);
    let has_v = row > 0 && has_byte(&sets.vert, v_tile);
    let force_island = is_island(world_idx, row, col);
    proof {
        lemma_byte_nibbles_of(h_tile);
        lemma_byte_nibbles_of(v_tile);
    }
    let sky = if has_h {
        h_tile >> 4 == 0xD
    } else {
        has_v && v_tile >> 4 == 0xD
    };
    let (h, v, hv, none) = theme(force_island, sky);
    if has_h && has_v {
        hv
    } else if has_h {
        h
    } else if has_v {
        v
    } else {
        none
    }
}

proof fn lemma_byte_nibbles_of(b: u8)
    ensures
        b >> 4 == b / 16,
{
    crate::bits::lemma_byte_nibbles(b);
}

/// Pick the blank node for a picked-up cell (see [`blank_for`]).
pub fn blank_tile_for(grid: &Grid, sets: &NodeTiles, world_idx: usize, row: usize, col: usize) -> (t: u8)
    requires
        grid.wf(),
        row < grid.rows,
        col < grid.cols,
    ensures
        t == blank_for(grid.tiles@, grid.cols as int, *sets, world_idx as int, row as int, col as int),
{
    let current = grid.get(row, col);
    if has_byte(&sets.blank, current) {
        return current;
    }
    if let Some(tile) = blank_override(world_idx, row, col) {
        return tile;
    }
    blank_tile_from_neighbors(grid, sets, world_idx, row, col)
}

/// The tiles after the first `k` FX gaps of the world are opened.
pub open spec fn fx_opened(
    tiles: Seq<u8>,
    rows: int,
    cols: int,
    fx_slots: Seq<FxSlot>,
    world_fx: Seq<u8>,
    k: int,
) -> Seq<u8>
    decreases k,
{
    if k <= 0 {
        tiles
    } else {
        let prev = fx_opened(tiles, rows, cols, fx_slots, world_fx, k - 1);
        let slot = fx_slots[world_fx[k - 1] as int];
        if slot.grid_row < rows && slot.grid_col < cols {
            prev.update(slot.grid_row * cols + slot.grid_col, slot.replace_tile)
        } else {
            prev
        }
    }
}

/// Replace the world's vanilla FX gap tiles with the path tiles under them,
/// so the grid is fully connected.
pub fn open_fx_gaps(grid: &mut Grid, fx_slots: &Vec<FxSlot>, world_fx: &Vec<u8>)
    requires
        old(grid).wf(),
        forall|k: int| 0 <= k < world_fx@.len() ==> (#[trigger] world_fx@[k]) < fx_slots@.len(),
    ensures
        final(grid).wf(),
        final(grid).rows == old(grid).rows,
        final(grid).cols == old(grid).cols,
        final(grid).tiles@ == fx_opened(
            old(grid).tiles@,
            old(grid).rows as int,
            old(grid).cols as int,
            fx_slots@,
            world_fx@,
            world_fx@.len() as int,
        ),
{
    let mut k: usize = 0;
    while k < world_fx.len()
        invariant
            k <= world_fx@.len(),
            grid.wf(),
            grid.rows == old(grid).rows,
            grid.cols == old(grid).cols,
            forall|j: int| 0 <= j < world_fx@.len() ==> (#[trigger] world_fx@[j]) < fx_slots@.len(),
            grid.tiles@ == fx_opened(
                old(grid).tiles@,
                old(grid).rows as int,
                old(grid).cols as int,
                fx_slots@,
                world_fx@,
                k as int,
            ),
        decreases world_fx@.len() - k,
    {
        let slot = fx_slots[world_fx[k] as usize];
        if slot.grid_row < grid.rows && slot.grid_col < grid.cols {
            grid.set(slot.grid_row, slot.grid_col, slot.replace_tile);
        }
        k = k + 1;
    }
}

/// After the first `k` catalog entries: the grid's tiles, the pool entries
/// added, and their vanilla positions. An entry of world `w` that the pickup
/// rule takes joins the pool, and its cell, when on the grid, is blanked.
pub open spec fn pickup_upto(
    catalog: Seq<CatalogEntry>,
    w: int,
    flags: PickupFlags,
    tiles: Seq<u8>,
    rows: int,
    cols: int,
    sets: NodeTiles,
    k: int,
) -> (Seq<u8>, Seq<PoolEntry>, Seq<Cell>)
    decreases k,
{
    if k <= 0 {
        (tiles, Seq::empty(), Seq::empty())
    } else {
        let prev = pickup_upto(catalog, w, flags, tiles, rows, cols, sets, k - 1);
        let e = catalog[k - 1];
        if e.world_idx == w && pickup_pred(e, flags) {
            let (r, c) = e.grid_pos;
            let t = if r < rows && c < cols {
                prev.0.update(r * cols + c, blank_for(prev.0, cols, sets, w, r as int, c as int))
            } else {
                prev.0
            };
            (
                t,
                prev.1.push(
                    PoolEntry { catalog_idx: (k - 1) as usize, world_idx: e.world_idx, entry_idx: e.entry_idx },
                ),
                prev.2.push(e.grid_pos),
            )
        } else {
            prev
        }
    }
}

/// Clear and pick up one world: read its grid (`screens` screens at
/// `grid_offset`), open its FX gaps, append its pool-bound catalog entries
/// to `pool` in catalog order, and blank their cells.
pub fn pick_up_world(
    rom: &Rom,
    grid_offset: usize,
    screens: usize,
    catalog: &Vec<CatalogEntry>,
    world_idx: usize,
    pool: &mut Vec<PoolEntry>,
    flags: PickupFlags,
    fx_slots: &Vec<FxSlot>,
    world_fx: &Vec<u8>,
    sets: &NodeTiles,
) -> (cw: ClearedWorld)
    requires
        1 <= screens <= 64,
        grid_in_rom(rom@.len() as int, grid_offset as int, screens as int),
        forall|k: int| 0 <= k < world_fx@.len() ==> (#[trigger] world_fx@[k]) < fx_slots@.len(),
        old(pool)@.len() + catalog@.len() <= usize::MAX,
    ensures
        ({
            let opened = fx_opened(
                grid_read(rom@, grid_offset as int, screens as int),
                9,
                screens * 16,
                fx_slots@,
                world_fx@,
                world_fx@.len() as int,
            );
            let (tiles, added, positions) = pickup_upto(
                catalog@,
                world_idx as int,
                flags,
                opened,
                9,
                screens * 16,
                *sets,
                catalog@.len() as int,
            );
            &&& cw.world_idx == world_idx
            &&& cw.grid.wf()
            &&& cw.grid.rows == 9
            &&& cw.grid.cols == screens * 16
            &&& cw.grid.tiles@ == tiles
            &&& final(pool)@ == old(pool)@ + added
            &&& cw.pickup_positions@ == positions
            &&& cw.pool_indices@ == Seq::new(added.len(), |j: int| (old(pool)@.len() + j) as usize)
        }),
{
    let mut grid = read_tile_grid(rom, grid_offset, screens);
    open_fx_gaps(&mut grid, fx_slots, world_fx);
    let ghost opened = grid.tiles@;
    let ghost pool0 = pool@;

    let mut pickup_positions: Vec<Cell> = Vec::new();
    let mut pool_indices: Vec<usize> = Vec::new();
    let mut ci: usize = 0;
    while ci < catalog.len()
        invariant
            ci <= catalog@.len(),
            grid.wf(),
            grid.rows == 9,
            grid.cols == screens * 16,
            pool0.len() + catalog@.len() <= usize::MAX,
            ({
                let (tiles, added, positions) = pickup_upto(
                    catalog@,
                    world_idx as int,
                    flags,
                    opened,
                    9,
                    screens * 16,
                    *sets,
                    ci as int,
                );
                &&& grid.tiles@ == tiles
                &&& pool@ == pool0 + added
                &&& pickup_positions@ == positions
                &&& pool_indices@ == Seq::new(added.len(), |j: int| (pool0.len() + j) as usize)
                &&& added.len() <= ci
            }),
        decreases catalog@.len() - ci,
    {
        let entry = catalog[ci];
        if entry.world_idx == world_idx && default_pickup_pred(&entry, flags) {
            let (row, col) = entry.grid_pos;
            let pool_idx = pool.len();
            pool.push(PoolEntry { catalog_idx: ci, world_idx: entry.world_idx, entry_idx: entry.entry_idx });
            pickup_positions.push((row, col));
            pool_indices.push(pool_idx);
            if row < grid.rows && col < grid.cols {
                let t = blank_tile_for(&grid, sets, world_idx, row, col);
                grid.set(row, col, t);
            }
        }
        ci = ci + 1;
        proof {
            let (tiles, added, positions) = pickup_upto(
                catalog@,
                world_idx as int,
                flags,
                opened,
                9,
                screens * 16,
                *sets,
                ci as int,
            );
            assert(pool_indices@ =~= Seq::new(added.len(), |j: int| (pool0.len() + j) as usize));
            assert(pool@ =~= pool0 + added);
        }
    }
    ClearedWorld { world_idx, grid, pickup_positions, pool_indices }
}

/// Every tile the blank rule can produce is a blank node: the theme tiles
/// and the per-cell overrides.
pub open spec fn rule_tiles_blank(sets: NodeTiles) -> bool {
    &&& forall|island: bool, sky: bool|
        {
            let t = #[trigger] spec_theme(island, sky);
            &&& sets.blank@.contains(t.0)
            &&& sets.blank@.contains(t.1)
            &&& sets.blank@.contains(t.2)
            &&& sets.blank@.contains(t.3)
        }
    &&& sets.blank@.contains(0x47u8)
    &&& sets.blank@.contains(0xD9u8)
}

/// The blank rule yields a blank node, given that its tiles are blank.
pub proof fn lemma_blank_for_is_blank(tiles: Seq<u8>, cols: int, sets: NodeTiles, w: int, r: int, c: int)
    requires
        rule_tiles_blank(sets),
    ensures
        sets.blank@.contains(blank_for(tiles, cols, sets, w, r, c)),
{
    let has_h = c > 0 && sets.horz@.contains(tile_at(tiles, cols, r, c - 1));
    let has_v = r > 0 && sets.vert@.contains(tile_at(tiles, cols, r - 1, c));
    let sky = if has_h {
        tile_at(tiles, cols, r, c - 1) / 16 == 0xD
    } else {
        has_v && tile_at(tiles, cols, r - 1, c) / 16 == 0xD
    };
    let t = spec_theme(spec_is_island(w, r, c), sky);
    assert(sets.blank@.contains(t.0) && sets.blank@.contains(t.1) && sets.blank@.contains(t.2)
        && sets.blank@.contains(t.3));
}

/// After the pickup, every picked-up cell on the grid holds a blank node
/// (when the blank rule's tiles are blank nodes), and every other cell
/// keeps its tile.
pub proof fn lemma_pickup_cells(
    catalog: Seq<CatalogEntry>,
    w: int,
    flags: PickupFlags,
    tiles: Seq<u8>,
    rows: int,
    cols: int,
    sets: NodeTiles,
    k: int,
)
    requires
        0 <= k <= catalog.len(),
        0 <= rows,
        0 <= cols,
        tiles.len() == rows * cols,
    ensures
        ({
            let (t, added, pos) = pickup_upto(catalog, w, flags, tiles, rows, cols, sets, k);
            &&& t.len() == tiles.len()
            &&& pos.len() == added.len()
            &&& rule_tiles_blank(sets) ==> forall|j: int|
                0 <= j < pos.len() && pos[j].0 < rows && pos[j].1 < cols ==> sets.blank@.contains(
                    #[trigger] t[pos[j].0 * cols + pos[j].1],
                )
            &&& forall|i: int|
                0 <= i < t.len() && (forall|j: int|
                    0 <= j < pos.len() && pos[j].0 < rows && pos[j].1 < cols ==> #[trigger] (pos[j].0 * cols
                        + pos[j].1) != i) ==> t[i] == tiles[i]
        }),
    decreases k,
{
    if k > 0 {
        lemma_pickup_cells(catalog, w, flags, tiles, rows, cols, sets, k - 1);
        let prev = pickup_upto(catalog, w, flags, tiles, rows, cols, sets, k - 1);
        let cur = pickup_upto(catalog, w, flags, tiles, rows, cols, sets, k);
        let e = catalog[k - 1];
        if e.world_idx == w && pickup_pred(e, flags) {
            let (r, c) = e.grid_pos;
            if r < rows && c < cols {
                crate::map_grid::lemma_cell_in_grid(r as int, c as int, rows, cols);
                if rule_tiles_blank(sets) {
                    lemma_blank_for_is_blank(prev.0, cols, sets, w, r as int, c as int);
                }
            }
            assert forall|i: int|
                0 <= i < cur.0.len() && (forall|j: int|
                    0 <= j < cur.2.len() && cur.2[j].0 < rows && cur.2[j].1 < cols ==> #[trigger] (cur.2[j].0
                        * cols + cur.2[j].1) != i) implies cur.0[i] == tiles[i] by {
                assert forall|j: int|
                    0 <= j < prev.2.len() && prev.2[j].0 < rows && prev.2[j].1 < cols implies #[trigger] (
                    prev.2[j].0 * cols + prev.2[j].1) != i by {
                    assert(cur.2[j] == prev.2[j]);
                }
                if r < rows && c < cols {
                    assert(cur.2[cur.2.len() - 1] == e.grid_pos);
                }
            }
            if rule_tiles_blank(sets) {
                assert forall|j: int|
                    0 <= j < cur.2.len() && cur.2[j].0 < rows && cur.2[j].1 < cols implies sets.blank@.contains(
                    #[trigger] cur.0[cur.2[j].0 * cols + cur.2[j].1],
                ) by {
                    if j < prev.2.len() {
                        assert(cur.2[j] == prev.2[j]);
                        crate::map_grid::lemma_cell_in_grid(prev.2[j].0 as int, prev.2[j].1 as int, rows, cols);
                    }
                }
            }
        }
    }
}

/// The pickup of world `w` from its map (`screens` screens at `grid_offset`):
/// its cleared tiles, the pool entries it adds, and their positions.
pub open spec fn world_pickup(
    rom: Seq<u8>,
    grid_offset: int,
    screens: int,
    catalog: Seq<CatalogEntry>,
    w: int,
    flags: PickupFlags,
    fx_slots: Seq<FxSlot>,
    world_fx: Seq<u8>,
    sets: NodeTiles,
) -> (Seq<u8>, Seq<PoolEntry>, Seq<Cell>) {
    let opened = fx_opened(
        grid_read(rom, grid_offset, screens),
        9,
        screens * 16,
        fx_slots,
        world_fx,
        world_fx.len() as int,
    );
    pickup_upto(catalog, w, flags, opened, 9, screens * 16, sets, catalog.len() as int)
}

/// The pool after the first `n` worlds are picked up.
pub open spec fn pool_upto(
    rom: Seq<u8>,
    grids: Seq<(usize, usize)>,
    catalog: Seq<CatalogEntry>,
    flags: PickupFlags,
    fx_slots: Seq<FxSlot>,
    fx_assignments: Seq<Vec<u8>>,
    sets: NodeTiles,
    n: int,
) -> Seq<PoolEntry>
    decreases n,
{
    if n <= 0 {
        Seq::empty()
    } else {
        pool_upto(rom, grids, catalog, flags, fx_slots, fx_assignments, sets, n - 1) + world_pickup(
            rom,
            grids[n - 1].0 as int,
            grids[n - 1].1 as int,
            catalog,
            n - 1,
            flags,
            fx_slots,
            fx_assignments[n - 1]@,
            sets,
        ).1
    }
}

/// Catalog nodes with no vanilla cell that the pickup rule takes, among the
/// first `k`, as pool entries.
pub open spec fn cellless_upto(catalog: Seq<CatalogEntry>, flags: PickupFlags, k: int) -> Seq<PoolEntry>
    decreases k,
{
    if k <= 0 {
        Seq::empty()
    } else {
        let prev = cellless_upto(catalog, flags, k - 1);
        let e = catalog[k - 1];
        if e.world_idx == usize::MAX && pickup_pred(e, flags) {
            prev.push(PoolEntry { catalog_idx: (k - 1) as usize, world_idx: usize::MAX, entry_idx: usize::MAX })
        } else {
            prev
        }
    }
}

/// Every world's cleared grid, and the global shuffle pool.
pub struct PickupResult {
    pub worlds: Vec<ClearedWorld>,
    pub pool: Vec<PoolEntry>,
}

proof fn lemma_pickup_upto_len(
    catalog: Seq<CatalogEntry>,
    w: int,
    flags: PickupFlags,
    tiles: Seq<u8>,
    rows: int,
    cols: int,
    sets: NodeTiles,
    k: int,
)
    requires
        0 <= k,
    ensures
        pickup_upto(catalog, w, flags, tiles, rows, cols, sets, k).1.len() <= k,
    decreases k,
{
    if k > 0 {
        lemma_pickup_upto_len(catalog, w, flags, tiles, rows, cols, sets, k - 1);
    }
}

proof fn lemma_cellless_len(catalog: Seq<CatalogEntry>, flags: PickupFlags, k: int)
    requires
        0 <= k,
    ensures
        cellless_upto(catalog, flags, k).len() <= k,
    decreases k,
{
    if k > 0 {
        lemma_cellless_len(catalog, flags, k - 1);
    }
}

/// Clear and pick up every world: read each world's grid (`grids[w]` is
/// its offset and screen count), open its FX gaps (`fx_assignments[w]`
/// names its slots of `fx_slots`), collect its pool-bound nodes, blank
/// their cells; then add the nodes with no vanilla cell, which any world's
/// map may take.
pub fn pick_up(
    rom: &Rom,
    grids: &Vec<(usize, usize)>,
    catalog: &Vec<CatalogEntry>,
    flags: PickupFlags,
    fx_slots: &Vec<FxSlot>,
    fx_assignments: &Vec<Vec<u8>>,
    sets: &NodeTiles,
) -> (r: PickupResult)
    requires
        grids@.len() == fx_assignments@.len(),
        forall|w: int|
            0 <= w < grids@.len() ==> 1 <= (#[trigger] grids@[w]).1 <= 64 && grid_in_rom(
                rom@.len() as int,
                grids@[w].0 as int,
                grids@[w].1 as int,
            ),
        forall|w: int, k: int|
            0 <= w < fx_assignments@.len() && 0 <= k < fx_assignments@[w]@.len() ==> (
            #[trigger] fx_assignments@[w]@[k]) < fx_slots@.len(),
        (grids@.len() + 1) * catalog@.len() <= usize::MAX,
    ensures
        r.worlds@.len() == grids@.len(),
        r.pool@ == pool_upto(
            rom@,
            grids@,
            catalog@,
            flags,
            fx_slots@,
            fx_assignments@,
            *sets,
            grids@.len() as int,
        ) + cellless_upto(catalog@, flags, catalog@.len() as int),
        forall|w: int|
            0 <= w < grids@.len() ==> {
                let (tiles, added, positions) = world_pickup(
                    rom@,
                    grids@[w].0 as int,
                    grids@[w].1 as int,
                    catalog@,
                    w,
                    flags,
                    fx_slots@,
                    fx_assignments@[w]@,
                    *sets,
                );
                let before = pool_upto(rom@, grids@, catalog@, flags, fx_slots@, fx_assignments@, *sets, w).len();
                &&& (#[trigger] r.worlds@[w]).world_idx == w
                &&& r.worlds@[w].grid.tiles@ == tiles
                &&& r.worlds@[w].grid.rows == 9
                &&& r.worlds@[w].grid.cols == grids@[w].1 * 16
                &&& r.worlds@[w].pickup_positions@ == positions
                &&& r.worlds@[w].pool_indices@ == Seq::new(added.len(), |j: int| (before + j) as usize)
            },
{
    let mut pool: Vec<PoolEntry> = Vec::new();
    let mut worlds: Vec<ClearedWorld> = Vec::new();
    let n = grids.len();
    let c = catalog.len();
    let mut wi: usize = 0;
    while wi < n
        invariant
            wi <= n,
            n == grids@.len(),
            c == catalog@.len(),
            grids@.len() == fx_assignments@.len(),
            forall|w: int|
                0 <= w < grids@.len() ==> 1 <= (#[trigger] grids@[w]).1 <= 64 && grid_in_rom(
                    rom@.len() as int,
                    grids@[w].0 as int,
                    grids@[w].1 as int,
                ),
            forall|w: int, k: int|
                0 <= w < fx_assignments@.len() && 0 <= k < fx_assignments@[w]@.len() ==> (
                #[trigger] fx_assignments@[w]@[k]) < fx_slots@.len(),
            (n + 1) * c <= usize::MAX,
            pool@.len() <= wi * c,
            worlds@.len() == wi,
            pool@ == pool_upto(rom@, grids@, catalog@, flags, fx_slots@, fx_assignments@, *sets, wi as int),
            forall|w: int|
                0 <= w < wi ==> {
                    let (tiles, added, positions) = world_pickup(
                        rom@,
                        grids@[w].0 as int,
                        grids@[w].1 as int,
                        catalog@,
                        w,
                        flags,
                        fx_slots@,
                        fx_assignments@[w]@,
                        *sets,
                    );
                    let before = pool_upto(rom@, grids@, catalog@, flags, fx_slots@, fx_assignments@, *sets, w).len();
                    &&& (#[trigger] worlds@[w]).world_idx == w
                    &&& worlds@[w].grid.tiles@ == tiles
                    &&& worlds@[w].grid.rows == 9
                    &&& worlds@[w].grid.cols == grids@[w].1 * 16
                    &&& worlds@[w].pickup_positions@ == positions
                    &&& worlds@[w].pool_indices@ == Seq::new(added.len(), |j: int| (before + j) as usize)
                },
        decreases n - wi,
    {
        let (g, s) = grids[wi];
        proof {
            assert(grids@[wi as int] == (g, s));
            assert(wi * c + c <= (n + 1) * c) by (nonlinear_arith)
                requires
                    wi < n,
            ;
            assert forall|k: int| 0 <= k < fx_assignments@[wi as int]@.len() implies (
            #[trigger] fx_assignments@[wi as int]@[k]) < fx_slots@.len() by {}
        }
        let ghost before = pool@;
        let cw = pick_up_world(rom, g, s, catalog, wi, &mut pool, flags, fx_slots, &fx_assignments[wi], sets);
        proof {
            let wp = world_pickup(
                rom@,
                g as int,
                s as int,
                catalog@,
                wi as int,
                flags,
                fx_slots@,
                fx_assignments@[wi as int]@,
                *sets,
            );
            lemma_pickup_upto_len(
                catalog@,
                wi as int,
                flags,
                fx_opened(grid_read(rom@, g as int, s as int), 9, s * 16, fx_slots@, fx_assignments@[wi as int]@, fx_assignments@[wi as int]@.len() as int),
                9,
                s * 16,
                *sets,
                catalog@.len() as int,
            );
            assert(pool@.len() <= (wi + 1) * c) by (nonlinear_arith)
                requires
                    pool@.len() == before.len() + wp.1.len(),
                    before.len() <= wi * c,
                    wp.1.len() <= c,
            ;
        }
        let ghost worlds_before = worlds@;
        worlds.push(cw);
        proof {
            assert forall|w: int| 0 <= w < wi + 1 implies {
                let (tiles, added, positions) = world_pickup(
                    rom@,
                    grids@[w].0 as int,
                    grids@[w].1 as int,
                    catalog@,
                    w,
                    flags,
                    fx_slots@,
                    fx_assignments@[w]@,
                    *sets,
                );
                let before = pool_upto(rom@, grids@, catalog@, flags, fx_slots@, fx_assignments@, *sets, w).len();
                &&& (#[trigger] worlds@[w]).world_idx == w
                &&& worlds@[w].grid.tiles@ == tiles
                &&& worlds@[w].grid.rows == 9
                &&& worlds@[w].grid.cols == grids@[w].1 * 16
                &&& worlds@[w].pickup_positions@ == positions
                &&& worlds@[w].pool_indices@ == Seq::new(added.len(), |j: int| (before + j) as usize)
            } by {
                if w < wi {
                    assert(worlds@[w] == worlds_before[w]);
                }
            }
        }
        wi = wi + 1;
    }
    let ghost world_pool = pool@;
    proof {
        assert(pool@.len() <= n * c);
        assert(n * c + c <= (n + 1) * c) by (nonlinear_arith);
    }
    let mut ci: usize = 0;
    while ci < catalog.len()
        invariant
            ci <= catalog@.len(),
            c == catalog@.len(),
            world_pool.len() + c <= usize::MAX,
            pool@ == world_pool + cellless_upto(catalog@, flags, ci as int),
        decreases catalog@.len() - ci,
    {
        proof {
            lemma_cellless_len(catalog@, flags, ci as int);
        }
        let entry = catalog[ci];
        if entry.world_idx == usize::MAX && default_pickup_pred(&entry, flags) {
            pool.push(PoolEntry { catalog_idx: ci, world_idx: usize::MAX, entry_idx: usize::MAX });
        }
        ci = ci + 1;
        proof {
            assert(pool@ =~= world_pool + cellless_upto(catalog@, flags, ci as int));
        }
    }
    PickupResult { worlds, pool }
}

} // verus!
