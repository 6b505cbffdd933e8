//! Pointer-table entries for the nodes the writer placed, with Hammer Bro
//! levels on the slots left over, and the pipe destination tables for the
//! pipe pairs it assigned.
use vstd::prelude::*;
use crate::map_grid::{Cell, Grid};
use crate::overworld_pickup::{CatalogEntry, NodeKind, PoolEntry, has_byte};
use crate::overworld_writer::types::{Assignment, WorldAssignments};
use crate::pipe_helpers::{
    PipeDestTables, PointerEntry, Pos, WorldPointerTable, pipe_dest_written, write_pipe_dest,
};
use crate::rom::Rom;

verus! {

/// The ByRowType byte of an entry on grid row `row`: the row nibble
/// (`row + 2`) high, the level's tileset (the low nibble of its own
/// ByRowType byte) low.
pub open spec fn rowtype_for(row: int, level_rowtype: u8) -> u8 {
    ((((row + 2) as u8) << 4u8) | (level_rowtype & 0x0F)) as u8
}

/// The ByScrCol byte of an entry on grid column `col`: screen high, column
/// within the screen low.
pub open spec fn scrcol_for(col: int) -> u8 {
    ((((col / 16) as u8) << 4u8) | ((col % 16) as u8)) as u8
}

/// The ROM with entry `idx` of the table given `le`'s object-set and layout
/// pointers and the two position bytes.
pub open spec fn entry_written(
    rom: Seq<u8>,
    t: WorldPointerTable,
    idx: int,
    le: PointerEntry,
    rowtype: u8,
    scrcol: u8,
) -> Seq<u8> {
    let n = t.entry_count as int;
    let rt = t.rowtype_offset as int;
    let obj = rt + 2 * n;
    let lay = rt + 4 * n;
    rom.update(obj + 2 * idx, le.obj_lo).update(obj + 2 * idx + 1, le.obj_hi).update(
        lay + 2 * idx,
        le.lay_lo,
    ).update(lay + 2 * idx + 1, le.lay_hi).update(rt + idx, rowtype).update(rt + n + idx, scrcol)
}

/// Write entry `idx` (see [`entry_written`]).
fn write_entry(rom: &mut Rom, t: &WorldPointerTable, idx: usize, le: PointerEntry, rowtype: u8, scrcol: u8)
    requires
        idx < t.entry_count,
        t.rowtype_offset + 6 * t.entry_count <= old(rom)@.len(),
    ensures
        final(rom)@ == entry_written(old(rom)@, *t, idx as int, le, rowtype, scrcol),
{
    let _len = rom.len();
    let n = t.entry_count;
    let rt = t.rowtype_offset;
    let obj = rt + 2 * n;
    let lay = rt + 4 * n;
    rom.write_byte(obj + 2 * idx, le.obj_lo);
    rom.write_byte(obj + 2 * idx + 1, le.obj_hi);
    rom.write_byte(lay + 2 * idx, le.lay_lo);
    rom.write_byte(lay + 2 * idx + 1, le.lay_hi);
    rom.write_byte(rt + idx, rowtype);
    rom.write_byte(rt + n + idx, scrcol);
}

/// The position bytes of an entry placed on `pos`.
fn position_bytes(pos: Cell, level_rowtype: u8) -> (r: (u8, u8))
    requires
        pos.0 + 2 <= usize::MAX,
    ensures
        r.0 == rowtype_for(pos.0 as int, level_rowtype),
        r.1 == scrcol_for(pos.1 as int),
{
    let (row, col) = pos;
    let row_nib = (row + 2) as u8;
    let screen = (col / 16) as u8;
    let col_in_screen = (col % 16) as u8;
    ((row_nib << 4) | (level_rowtype & 0x0F), (screen << 4) | col_in_screen)
}

/// The cycling pool of Hammer Bro levels that fills leftover slots: the
/// levels and the one that comes next.
pub struct HbCycle {
    pub levels: Vec<PointerEntry>,
    pub next: usize,
}

impl HbCycle {
    /// `next` names a level (when there is one).
    pub open spec fn wf(&self) -> bool {
        self.levels@.len() > 0 ==> self.next < self.levels@.len()
    }

    /// Take the next level, going round to the first after the last.
    pub fn next_level(&mut self) -> (le: PointerEntry)
        requires
            old(self).wf(),
            old(self).levels@.len() > 0,
        ensures
            le == old(self).levels@[old(self).next as int],
            final(self).levels@ == old(self).levels@,
            final(self).next == (old(self).next + 1) % (old(self).levels@.len() as int),
            final(self).wf(),
    {
        let n = self.levels.len();
        let le = self.levels[self.next];
        self.next = (self.next + 1) % n;
        le
    }
}

/// The ROM after the first `k` placed nodes get the slots in `slots`, in
/// order.
pub open spec fn placed_written(
    rom: Seq<u8>,
    t: WorldPointerTable,
    slots: Seq<usize>,
    placed: Seq<(PointerEntry, Cell)>,
    k: int,
) -> Seq<u8>
    decreases k,
{
    if k <= 0 {
        rom
    } else {
        let (le, pos) = placed[k - 1];
        entry_written(
            placed_written(rom, t, slots, placed, k - 1),
            t,
            slots[k - 1] as int,
            le,
            rowtype_for(pos.0 as int, le.rowtype),
            scrcol_for(pos.1 as int),
        )
    }
}

/// The ROM after the first `k` leftover slots (from slot `start` on) get
/// the cycling Hammer Bro levels from `c0` on: on the uncovered blank cells
/// in turn, then parked off the map (row nibble 0, ByScrCol 0).
pub open spec fn leftovers_written(
    rom: Seq<u8>,
    t: WorldPointerTable,
    slots: Seq<usize>,
    start: int,
    levels: Seq<PointerEntry>,
    c0: int,
    blanks: Seq<Cell>,
    k: int,
) -> Seq<u8>
    decreases k,
{
    if k <= 0 {
        rom
    } else {
        let prev = leftovers_written(rom, t, slots, start, levels, c0, blanks, k - 1);
        let idx = slots[start + k - 1] as int;
        let le = levels[(c0 + k - 1) % (levels.len() as int)];
        if k - 1 < blanks.len() {
            let pos = blanks[k - 1];
            entry_written(prev, t, idx, le, rowtype_for(pos.0 as int, le.rowtype), scrcol_for(pos.1 as int))
        } else {
            entry_written(prev, t, idx, le, (le.rowtype & 0x0F) as u8, 0)
        }
    }
}

/// Some placed node sits on `p`.
pub open spec fn covered(placed: Seq<(PointerEntry, Cell)>, p: Cell) -> bool {
    exists|k: int| 0 <= k < placed.len() && (#[trigger] placed[k]).1 == p
}

/// Node kinds that the pickup moves (their vanilla cells lose their
/// entries).
pub open spec fn moved_kind(k: NodeKind) -> bool {
    k is Level || k is Fortress || k is Pipe || k is HammerBro || k is BonusGame || k is ToadHouse
}

/// A node of world `w` that stays where it was (airship, Bowser, map
/// object, start) sits on `p`, and so keeps its vanilla entry there.
pub open spec fn keeps_entry(catalog: Seq<CatalogEntry>, w: int, p: Cell) -> bool {
    exists|i: int|
        0 <= i < catalog.len() && (#[trigger] catalog[i]).world_idx == w && !moved_kind(catalog[i].kind)
            && catalog[i].grid_pos == p
}

/// The blank cells among the first `i` cells (row by row) that neither a
/// placed node covers nor a staying node keeps an entry on.
pub open spec fn uncovered_blanks(
    tiles: Seq<u8>,
    cols: int,
    blank: Seq<u8>,
    placed: Seq<(PointerEntry, Cell)>,
    catalog: Seq<CatalogEntry>,
    w: int,
    i: int,
) -> Seq<Cell>
    decreases i,
{
    if i <= 0 {
        Seq::empty()
    } else {
        let prev = uncovered_blanks(tiles, cols, blank, placed, catalog, w, i - 1);
        let p: Cell = (((i - 1) / cols) as usize, ((i - 1) % cols) as usize);
        if blank.contains(tiles[i - 1]) && !covered(placed, p) && !keeps_entry(catalog, w, p) {
            prev.push(p)
        } else {
            prev
        }
    }
}

proof fn lemma_uncovered_blanks_grow(
    tiles: Seq<u8>,
    cols: int,
    blank: Seq<u8>,
    placed: Seq<(PointerEntry, Cell)>,
    catalog: Seq<CatalogEntry>,
    w: int,
    j: int,
    i: int,
    p: Cell,
)
    requires
        0 <= j <= i,
        uncovered_blanks(tiles, cols, blank, placed, catalog, w, j).contains(p),
    ensures
        uncovered_blanks(tiles, cols, blank, placed, catalog, w, i).contains(p),
    decreases i - j,
{
    if i > j {
        lemma_uncovered_blanks_grow(tiles, cols, blank, placed, catalog, w, j, i - 1, p);
        let prev = uncovered_blanks(tiles, cols, blank, placed, catalog, w, i - 1);
        let q = choose|q: int| 0 <= q < prev.len() && prev[q] == p;
        let cur = uncovered_blanks(tiles, cols, blank, placed, catalog, w, i);
        assert(cur[q] == p);
    }
}

/// Cell number `idx` of a grid `cols` wide.
pub open spec fn cell_at(idx: int, cols: int) -> Cell {
    ((idx / cols) as usize, (idx % cols) as usize)
}

/// Every catalog node of world `w` on `p` is one the pickup moved away: a
/// level, fortress, pipe, Hammer Bro, spade game or toad house.
pub open spec fn only_moved_nodes(catalog: Seq<CatalogEntry>, w: int, p: Cell) -> bool {
    forall|j: int|
        0 <= j < catalog.len() && (#[trigger] catalog[j]).world_idx == w && catalog[j].grid_pos == p ==> {
            let k = catalog[j].kind;
            k is Level || k is Fortress || k is Pipe || k is HammerBro || k is BonusGame || k is ToadHouse
        }
}

/// A node of world `w` that stays (airship, Bowser, map object, start) sits
/// on `p`.
pub open spec fn staying_node(catalog: Seq<CatalogEntry>, w: int, p: Cell) -> bool {
    exists|j: int|
        0 <= j < catalog.len() && (#[trigger] catalog[j]).world_idx == w && catalog[j].grid_pos == p && {
            let k = catalog[j].kind;
            k is Airship || k is Bowser || k is MapObject || k is Start
        }
}

/// What the blank-cell list says of cell number `idx`.
pub open spec fn blank_cell_listed(
    tiles: Seq<u8>,
    cols: int,
    blank: Seq<u8>,
    placed: Seq<(PointerEntry, Cell)>,
    catalog: Seq<CatalogEntry>,
    w: int,
    n: int,
    idx: int,
) -> bool {
    let p = cell_at(idx, cols);
    let listed = uncovered_blanks(tiles, cols, blank, placed, catalog, w, n).contains(p);
    &&& blank.contains(tiles[idx]) && !covered(placed, p) && only_moved_nodes(catalog, w, p) ==> listed
    &&& staying_node(catalog, w, p) ==> !listed
}

/// Which blank cells leftover slots fill, in terms of the catalog: a blank
/// cell that no placed node covers is filled whenever every catalog node of
/// the world on it is one the pickup moved away (a Hammer Bro among them),
/// and never when a node that stays (airship, Bowser, map object, start)
/// still holds its entry there.
pub proof fn lemma_uncovered_blank_cells(
    tiles: Seq<u8>,
    cols: int,
    blank: Seq<u8>,
    placed: Seq<(PointerEntry, Cell)>,
    catalog: Seq<CatalogEntry>,
    w: int,
    n: int,
)
    requires
        cols > 0,
        0 <= n,
    ensures
        forall|idx: int|
            0 <= idx < n ==> #[trigger] blank_cell_listed(tiles, cols, blank, placed, catalog, w, n, idx),
    decreases n,
{
    if n > 0 {
        lemma_uncovered_blank_cells(tiles, cols, blank, placed, catalog, w, n - 1);
        let prev = uncovered_blanks(tiles, cols, blank, placed, catalog, w, n - 1);
        let cur = uncovered_blanks(tiles, cols, blank, placed, catalog, w, n);
        assert forall|idx: int| 0 <= idx < n implies #[trigger] blank_cell_listed(
            tiles,
            cols,
            blank,
            placed,
            catalog,
            w,
            n,
            idx,
        ) by {
            let p = cell_at(idx, cols);
            if staying_node(catalog, w, p) {
                assert(keeps_entry(catalog, w, p));
                lemma_blanks_avoid_kept(tiles, cols, blank, placed, catalog, w, n, p);
            }
            if blank.contains(tiles[idx]) && !covered(placed, p) && only_moved_nodes(catalog, w, p) {
                if idx < n - 1 {
                    assert(blank_cell_listed(tiles, cols, blank, placed, catalog, w, n - 1, idx));
                    assert(prev.contains(p));
                    lemma_uncovered_blanks_grow(tiles, cols, blank, placed, catalog, w, n - 1, n, p);
                } else {
                    assert(idx == n - 1);
                    assert(!keeps_entry(catalog, w, p)) by {
                        if keeps_entry(catalog, w, p) {
                            let j = choose|j: int|
                                0 <= j < catalog.len() && (#[trigger] catalog[j]).world_idx == w && !moved_kind(
                                    catalog[j].kind,
                                ) && catalog[j].grid_pos == p;
                        }
                    }
                    assert(cur == prev.push(p));
                    assert(cur[prev.len() as int] == p);
                }
            }
        }
    }
}

/// No cell where a staying node keeps its entry is ever listed.
proof fn lemma_blanks_avoid_kept(
    tiles: Seq<u8>,
    cols: int,
    blank: Seq<u8>,
    placed: Seq<(PointerEntry, Cell)>,
    catalog: Seq<CatalogEntry>,
    w: int,
    n: int,
    p: Cell,
)
    requires
        keeps_entry(catalog, w, p),
    ensures
        !uncovered_blanks(tiles, cols, blank, placed, catalog, w, n).contains(p),
    decreases n,
{
    if n > 0 {
        lemma_blanks_avoid_kept(tiles, cols, blank, placed, catalog, w, n - 1, p);
        let prev = uncovered_blanks(tiles, cols, blank, placed, catalog, w, n - 1);
        let cur = uncovered_blanks(tiles, cols, blank, placed, catalog, w, n);
        if cur.contains(p) {
            let k = choose|k: int| 0 <= k < cur.len() && cur[k] == p;
            if k < prev.len() {
                assert(prev[k] == p);
            }
        }
    }
}

/// Number of placed nodes that get a slot.
pub open spec fn placed_count(slots: Seq<usize>, placed: Seq<(PointerEntry, Cell)>) -> int {
    if placed.len() < slots.len() {
        placed.len() as int
    } else {
        slots.len() as int
    }
}

/// What writing a world's pointer entries leaves: the placed nodes on the
/// first slots, in order, then Hammer Bro levels on the rest.
pub open spec fn pointer_entries_written(
    rom: Seq<u8>,
    t: WorldPointerTable,
    slots: Seq<usize>,
    placed: Seq<(PointerEntry, Cell)>,
    levels: Seq<PointerEntry>,
    c0: int,
    blanks: Seq<Cell>,
) -> Seq<u8> {
    let m = placed_count(slots, placed);
    leftovers_written(
        placed_written(rom, t, slots, placed, m),
        t,
        slots,
        m,
        levels,
        c0,
        blanks,
        slots.len() - m,
    )
}

/// Every slot is an entry of the table, and the table lies in the ROM.
pub open spec fn entries_fit(len: int, t: WorldPointerTable, slots: Seq<usize>) -> bool {
    &&& t.rowtype_offset + 6 * t.entry_count <= len
    &&& forall|k: int| 0 <= k < slots.len() ==> (#[trigger] slots[k]) < t.entry_count
}

/// `p` is covered by a placed node.
fn is_covered(placed: &Vec<(PointerEntry, Cell)>, p: Cell) -> (b: bool)
    ensures
        b == covered(placed@, p),
{
    let mut k: usize = 0;
    while k < placed.len()
        invariant
            k <= placed@.len(),
            forall|j: int| 0 <= j < k ==> (#[trigger] placed@[j]).1 != p,
        decreases placed@.len() - k,
    {
        let q = placed[k].1;
        if q.0 == p.0 && q.1 == p.1 {
            return true;
        }
        k = k + 1;
    }
    false
}

/// A staying node of world `w` keeps its entry on `p`.
fn has_kept_entry(catalog: &Vec<CatalogEntry>, w: usize, p: Cell) -> (b: bool)
    ensures
        b == keeps_entry(catalog@, w as int, p),
{
    let mut i: usize = 0;
    while i < catalog.len()
        invariant
            i <= catalog@.len(),
            forall|j: int|
                0 <= j < i ==> !((#[trigger] catalog@[j]).world_idx == w && !moved_kind(catalog@[j].kind)
                    && catalog@[j].grid_pos == p),
        decreases catalog@.len() - i,
    {
        let e = catalog[i];
        let moved = match e.kind {
            NodeKind::Level | NodeKind::Fortress | NodeKind::Pipe { .. } | NodeKind::HammerBro
            | NodeKind::BonusGame | NodeKind::ToadHouse => true,
            _ => false,
        };
        if e.world_idx == w && !moved && e.grid_pos.0 == p.0 && e.grid_pos.1 == p.1 {
            return true;
        }
        i = i + 1;
    }
    false
}

/// The uncovered blank cells of the grid, row by row.
fn find_uncovered_blanks(
    grid: &Grid,
    blank: &Vec<u8>,
    placed: &Vec<(PointerEntry, Cell)>,
    catalog: &Vec<CatalogEntry>,
    w: usize,
) -> (v: Vec<Cell>)
    requires
        grid.wf(),
    ensures
        v@ == uncovered_blanks(
            grid.tiles@,
            grid.cols as int,
            blank@,
            placed@,
            catalog@,
            w as int,
            grid.tiles@.len() as int,
        ),
        forall|k: int| 0 <= k < v@.len() ==> (#[trigger] v@[k]).0 < grid.rows,
{
    let mut v: Vec<Cell> = Vec::new();
    let mut i: usize = 0;
    while i < grid.tiles.len()
        invariant
            i <= grid.tiles@.len(),
            grid.wf(),
            v@ == uncovered_blanks(grid.tiles@, grid.cols as int, blank@, placed@, catalog@, w as int, i as int),
            forall|k: int| 0 <= k < v@.len() ==> (#[trigger] v@[k]).0 < grid.rows,
        decreases grid.tiles@.len() - i,
    {
        proof {
            let rows = grid.rows as int;
            let cols = grid.cols as int;
            let ii = i as int;
            assert(cols > 0 && ii / cols < rows) by (nonlinear_arith)
                requires
                    0 <= ii < rows * cols,
                    rows >= 0,
                    cols >= 0,
            ;
        }
        let p: Cell = (i / grid.cols, i % grid.cols);
        if has_byte(blank, grid.tiles[i]) && !is_covered(placed, p) && !has_kept_entry(catalog, w, p) {
            v.push(p);
        }
        i = i + 1;
    }
    v
}

/// Write a world's pointer table entries: each placed node (level-like
/// nodes first, then Hammer Bro nodes, each with its own level entry) takes
/// the next free slot, with its row and column in the position bytes. Slots
/// still free afterwards get Hammer Bro levels from the cycling pool: on the
/// grid's blank cells that nothing covers, row by row, so no blank node is
/// left without an entry, and parked off the map once those run out.
pub fn write_pointer_entries(
    rom: &mut Rom,
    table: &WorldPointerTable,
    world_idx: usize,
    slots: &Vec<usize>,
    placed: &Vec<(PointerEntry, Cell)>,
    grid: &Grid,
    blank: &Vec<u8>,
    catalog: &Vec<CatalogEntry>,
    hb: &mut HbCycle,
)
    requires
        entries_fit(old(rom)@.len() as int, *table, slots@),
        grid.wf(),
        grid.rows + 2 <= usize::MAX,
        forall|k: int| 0 <= k < placed@.len() ==> (#[trigger] placed@[k]).1.0 + 2 <= usize::MAX,
        old(hb).wf(),
        slots@.len() > placed@.len() ==> old(hb).levels@.len() > 0,
    ensures
        final(rom)@ == pointer_entries_written(
            old(rom)@,
            *table,
            slots@,
            placed@,
            old(hb).levels@,
            old(hb).next as int,
            uncovered_blanks(
                grid.tiles@,
                grid.cols as int,
                blank@,
                placed@,
                catalog@,
                world_idx as int,
                grid.tiles@.len() as int,
            ),
        ),
        final(hb).levels@ == old(hb).levels@,
        final(hb).wf(),
        old(hb).levels@.len() > 0 ==> final(hb).next == (old(hb).next + slots@.len() - placed_count(
            slots@,
            placed@,
        )) % (old(hb).levels@.len() as int),
{
    let total = rom.len();
    let m: usize = if placed.len() < slots.len() { placed.len() } else { slots.len() };
    let mut k: usize = 0;
    while k < m
        invariant
            k <= m,
            m == placed_count(slots@, placed@),
            m <= placed@.len(),
            m <= slots@.len(),
            total == old(rom)@.len(),
            rom@.len() == total,
            entries_fit(total as int, *table, slots@),
            forall|j: int| 0 <= j < placed@.len() ==> (#[trigger] placed@[j]).1.0 + 2 <= usize::MAX,
            rom@ == placed_written(old(rom)@, *table, slots@, placed@, k as int),
        decreases m - k,
    {
        let (le, pos) = placed[k];
        assert(placed@[k as int].1.0 + 2 <= usize::MAX);
        let (rowtype, scrcol) = position_bytes(pos, le.rowtype);
        write_entry(rom, table, slots[k], le, rowtype, scrcol);
        k = k + 1;
    }
    let ghost mid = rom@;
    let ghost c0 = hb.next as int;
    let blanks = find_uncovered_blanks(grid, blank, placed, catalog, world_idx);
    let nslots = slots.len();
    proof {
        if hb.levels@.len() > 0 {
            vstd::arithmetic::div_mod::lemma_small_mod(c0 as nat, hb.levels@.len());
        }
    }
    let mut j: usize = 0;
    while m + j < nslots
        invariant
            m + j <= slots@.len(),
            nslots == slots@.len(),
            m == placed_count(slots@, placed@),
            total == old(rom)@.len(),
            rom@.len() == total,
            entries_fit(total as int, *table, slots@),
            hb.wf(),
            hb.levels@ == old(hb).levels@,
            c0 == old(hb).next,
            slots@.len() > m ==> hb.levels@.len() > 0,
            hb.levels@.len() > 0 ==> hb.next == (c0 + j) % (hb.levels@.len() as int),
            hb.levels@.len() == 0 ==> hb.next == c0,
            old(hb).wf(),
            grid.rows + 2 <= usize::MAX,
            forall|q: int| 0 <= q < blanks@.len() ==> (#[trigger] blanks@[q]).0 < grid.rows,
            rom@ == leftovers_written(mid, *table, slots@, m as int, hb.levels@, c0, blanks@, j as int),
        decreases slots@.len() - m - j,
    {
        let idx = slots[m + j];
        proof {
            let len = hb.levels@.len() as int;
            vstd::arithmetic::div_mod::lemma_add_mod_noop_right(1, c0 + j, len);
        }
        let le = hb.next_level();
        if j < blanks.len() {
            let pos = blanks[j];
            let (rowtype, scrcol) = position_bytes(pos, le.rowtype);
            write_entry(rom, table, idx, le, rowtype, scrcol);
        } else {
            write_entry(rom, table, idx, le, le.rowtype & 0x0F, 0x00);
        }
        j = j + 1;
    }
}

/// The level entry of pool entry `pi`'s node.
pub open spec fn level_of(pool: Seq<PoolEntry>, catalog: Seq<CatalogEntry>, pi: usize) -> PointerEntry {
    catalog[pool[pi as int].catalog_idx as int].level_entry->0
}

/// Pool entry `pi` names a catalog node with a level entry.
pub open spec fn has_level(pool: Seq<PoolEntry>, catalog: Seq<CatalogEntry>, pi: usize) -> bool {
    pi < pool.len() && pool[pi as int].catalog_idx < catalog.len()
        && catalog[pool[pi as int].catalog_idx as int].level_entry is Some
}

/// The nodes that take pointer entries, in writing order: fortresses,
/// levels, pipe endpoints (A then B), spade games, toad houses, then the
/// Hammer Bro nodes with their own levels. Airships and Bowser keep their
/// vanilla entries.
pub open spec fn placed_list(wa: WorldAssignments, pool: Seq<PoolEntry>, catalog: Seq<CatalogEntry>) -> Seq<
    (PointerEntry, Cell),
> {
    let of = |a: Assignment| (level_of(pool, catalog, a.pool_idx), a.pos);
    let pipes = Seq::new(
        2 * wa.pipes@.len(),
        |i: int|
            {
                let pa = wa.pipes@[i / 2];
                if i % 2 == 0 {
                    (level_of(pool, catalog, pa.pool_idx_a), pa.pos_a)
                } else {
                    (level_of(pool, catalog, pa.pool_idx_b), pa.pos_b)
                }
            },
    );
    wa.fortress@.map_values(of) + wa.level@.map_values(of) + pipes + wa.bonus@.map_values(of)
        + wa.toad@.map_values(of) + wa.hammer_bro@.map_values(
        |h: crate::overworld_writer::types::HammerBroAssignment| (h.level_entry, h.pos),
    )
}

/// Every assigned node that takes a pointer entry has a level entry.
pub open spec fn levels_known(wa: WorldAssignments, pool: Seq<PoolEntry>, catalog: Seq<CatalogEntry>) -> bool {
    &&& forall|k: int| 0 <= k < wa.fortress@.len() ==> has_level(pool, catalog, (#[trigger] wa.fortress@[k]).pool_idx)
    &&& forall|k: int| 0 <= k < wa.level@.len() ==> has_level(pool, catalog, (#[trigger] wa.level@[k]).pool_idx)
    &&& forall|k: int|
        0 <= k < wa.pipes@.len() ==> has_level(pool, catalog, (#[trigger] wa.pipes@[k]).pool_idx_a) && has_level(
            pool,
            catalog,
            wa.pipes@[k].pool_idx_b,
        )
    &&& forall|k: int| 0 <= k < wa.bonus@.len() ==> has_level(pool, catalog, (#[trigger] wa.bonus@[k]).pool_idx)
    &&& forall|k: int| 0 <= k < wa.toad@.len() ==> has_level(pool, catalog, (#[trigger] wa.toad@[k]).pool_idx)
}

fn level_entry_of(pool: &Vec<PoolEntry>, catalog: &Vec<CatalogEntry>, pi: usize) -> (le: PointerEntry)
    requires
        has_level(pool@, catalog@, pi),
    ensures
        le == level_of(pool@, catalog@, pi),
{
    catalog[pool[pi].catalog_idx].level_entry.unwrap()
}

fn push_assignments(
    out: &mut Vec<(PointerEntry, Cell)>,
    list: &Vec<Assignment>,
    pool: &Vec<PoolEntry>,
    catalog: &Vec<CatalogEntry>,
)
    requires
        forall|k: int| 0 <= k < list@.len() ==> has_level(pool@, catalog@, (#[trigger] list@[k]).pool_idx),
    ensures
        final(out)@ == old(out)@ + list@.map_values(|a: Assignment| (level_of(pool@, catalog@, a.pool_idx), a.pos)),
{
    let ghost start = out@;
    let mut k: usize = 0;
    while k < list.len()
        invariant
            k <= list@.len(),
            forall|j: int| 0 <= j < list@.len() ==> has_level(pool@, catalog@, (#[trigger] list@[j]).pool_idx),
            out@ == start + list@.take(k as int).map_values(
                |a: Assignment| (level_of(pool@, catalog@, a.pool_idx), a.pos),
            ),
        decreases list@.len() - k,
    {
        let a = list[k];
        let le = level_entry_of(pool, catalog, a.pool_idx);
        out.push((le, a.pos));
        k = k + 1;
        assert(list@.take(k as int).map_values(|a: Assignment| (level_of(pool@, catalog@, a.pool_idx), a.pos))
            =~= list@.take(k - 1).map_values(|a: Assignment| (level_of(pool@, catalog@, a.pool_idx), a.pos)).push(
            (le, a.pos),
        ));
    }
    assert(list@.take(list@.len() as int) =~= list@);
}

/// The nodes of a world's assignments that take pointer entries, with
/// their levels, in writing order (see [`placed_list`]).
pub fn placed_entries(wa: &WorldAssignments, pool: &Vec<PoolEntry>, catalog: &Vec<CatalogEntry>) -> (r: Vec<
    (PointerEntry, Cell),
>)
    requires
        levels_known(*wa, pool@, catalog@),
    ensures
        r@ == placed_list(*wa, pool@, catalog@),
{
    let mut out: Vec<(PointerEntry, Cell)> = Vec::new();
    push_assignments(&mut out, &wa.fortress, pool, catalog);
    push_assignments(&mut out, &wa.level, pool, catalog);
    let ghost before_pipes = out@;
    let mut k: usize = 0;
    while k < wa.pipes.len()
        invariant
            k <= wa.pipes@.len(),
            levels_known(*wa, pool@, catalog@),
            out@ == before_pipes + Seq::new(
                2 * k as nat,
                |i: int|
                    {
                        let pa = wa.pipes@[i / 2];
                        if i % 2 == 0 {
                            (level_of(pool@, catalog@, pa.pool_idx_a), pa.pos_a)
                        } else {
                            (level_of(pool@, catalog@, pa.pool_idx_b), pa.pos_b)
                        }
                    },
            ),
        decreases wa.pipes@.len() - k,
    {
        let pa = wa.pipes[k];
        assert(wa.pipes@[k as int] == pa);
        let la = level_entry_of(pool, catalog, pa.pool_idx_a);
        let lb = level_entry_of(pool, catalog, pa.pool_idx_b);
        out.push((la, pa.pos_a));
        out.push((lb, pa.pos_b));
        k = k + 1;
        assert(out@ =~= before_pipes + Seq::new(
            2 * k as nat,
            |i: int|
                {
                    let pa = wa.pipes@[i / 2];
                    if i % 2 == 0 {
                        (level_of(pool@, catalog@, pa.pool_idx_a), pa.pos_a)
                    } else {
                        (level_of(pool@, catalog@, pa.pool_idx_b), pa.pos_b)
                    }
                },
        ));
    }
    push_assignments(&mut out, &wa.bonus, pool, catalog);
    push_assignments(&mut out, &wa.toad, pool, catalog);
    let ghost before_hb = out@;
    let mut h: usize = 0;
    while h < wa.hammer_bro.len()
        invariant
            h <= wa.hammer_bro@.len(),
            out@ == before_hb + wa.hammer_bro@.take(h as int).map_values(
                |x: crate::overworld_writer::types::HammerBroAssignment| (x.level_entry, x.pos),
            ),
        decreases wa.hammer_bro@.len() - h,
    {
        let x = wa.hammer_bro[h];
        out.push((x.level_entry, x.pos));
        h = h + 1;
        assert(wa.hammer_bro@.take(h as int).map_values(
            |x: crate::overworld_writer::types::HammerBroAssignment| (x.level_entry, x.pos),
        ) =~= wa.hammer_bro@.take(h - 1).map_values(
            |x: crate::overworld_writer::types::HammerBroAssignment| (x.level_entry, x.pos),
        ).push((x.level_entry, x.pos)));
    }
    assert(wa.hammer_bro@.take(wa.hammer_bro@.len() as int) =~= wa.hammer_bro@);
    assert(out@ =~= placed_list(*wa, pool@, catalog@));
    out
}

/// Pipe pair assignment: two pool entries, a destination index, and the two
/// grid positions.
#[derive(Clone, Copy, Debug)]
pub struct PipeAssignment {
    pub pool_idx_a: usize,
    pub pool_idx_b: usize,
    pub dest_idx: usize,
    pub pos_a: Pos,
    pub pos_b: Pos,
}

/// The ROM after the destination bytes of the first `k` pipe pairs are
/// written, in list order.
pub open spec fn pipe_dests_written(
    rom: Seq<u8>,
    tables: PipeDestTables,
    pipes: Seq<PipeAssignment>,
    world_idx: int,
    k: int,
) -> Seq<u8>
    decreases k,
{
    if k <= 0 {
        rom
    } else {
        let p = pipes[k - 1];
        pipe_dest_written(
            pipe_dests_written(rom, tables, pipes, world_idx, k - 1),
            tables,
            p.dest_idx as int,
            p.pos_a,
            p.pos_b,
            world_idx,
        )
    }
}

/// Every pair's destination bytes lie in a ROM of `len` bytes and its rows
/// can be offset by two.
pub open spec fn pipes_writable(len: int, tables: PipeDestTables, pipes: Seq<PipeAssignment>) -> bool {
    forall|k: int|
        0 <= k < pipes.len() ==> {
            &&& tables.xhi + (#[trigger] pipes[k]).dest_idx < len
            &&& tables.x + pipes[k].dest_idx < len
            &&& tables.y + pipes[k].dest_idx < len
            &&& tables.scrl_xhi + pipes[k].dest_idx < len
            &&& pipes[k].pos_a.0 + 2 <= usize::MAX
            &&& pipes[k].pos_b.0 + 2 <= usize::MAX
        }
}

/// Write the destination tables of every assigned pipe pair of a world.
pub fn write_pipe_dests(
    rom: &mut Rom,
    tables: &PipeDestTables,
    world_idx: usize,
    pipes: &Vec<PipeAssignment>,
)
    requires
        pipes_writable(old(rom)@.len() as int, *tables, pipes@),
    ensures
        final(rom)@ == pipe_dests_written(old(rom)@, *tables, pipes@, world_idx as int, pipes@.len() as int),
{
    let mut k: usize = 0;
    while k < pipes.len()
        invariant
            k <= pipes@.len(),
            rom@.len() == old(rom)@.len(),
            pipes_writable(old(rom)@.len() as int, *tables, pipes@),
            rom@ == pipe_dests_written(old(rom)@, *tables, pipes@, world_idx as int, k as int),
        decreases pipes@.len() - k,
    {
        let pa = pipes[k];
        assert(tables.xhi + pipes@[k as int].dest_idx < old(rom)@.len());
        write_pipe_dest(rom, tables, pa.dest_idx, pa.pos_a, pa.pos_b, world_idx);
        k = k + 1;
    }
}

} // verus!
