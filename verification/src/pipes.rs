//! Pipe shuffle: reading a world's map pointer table, telling its entries
//! apart, pairing pipe endpoints with their destination-table slots, and
//! moving endpoints to new grid positions.
//!
//! The placement walk that decides where the pipes go reads the tile rules
//! of the map walker; the functions here take its decisions as data.
use vstd::prelude::*;
use crate::bits::{lemma_byte_nibbles, lemma_join_nibbles};
use crate::rom::{Rom, word_at};
use crate::pipe_helpers::{
    INIT_INDEX_MASTER, PointerEntry, Pos, PipeDestTables, WorldPointerTable, dest_nibbles,
    grid_pos_to_dest_nibbles, pack, pipe_dest_written, pointer_entry_at, resort_table, table_entries,
    table_fits, table_resorted,
};
use crate::sorting::lemma_sort_keeps_mapped;
use vstd::multiset::Multiset;

verus! {

/// Rows of the overworld grid (a screen is 9 rows of 16 tiles).
pub const GRID_ROWS: usize = 9;

/// Bytes of one screen of a world's tile grid.
pub const GRID_SCREEN_BYTES: usize = 144;

/// Tileset of pipe entries.
pub const PIPE_TILESET: u8 = 14;

/// A pointer table entry with its position and level data.
#[derive(Clone, Copy, Debug, PartialEq, Eq, Structural)]
pub struct PipeEntry {
    pub index: usize,
    pub grid_row: usize,
    pub grid_col: usize,
    pub obj_ptr: u16,
    pub lay_ptr: u16,
    pub tileset: u8,
    pub row_nib: u8,
    pub screen: u8,
    pub col: u8,
}

/// What a pointer table entry is.
#[derive(Clone, Copy, Debug, PartialEq, Eq, Structural)]
pub enum EntryType {
    Fortress,
    Airship,
    Pipe,
    Level,
    Toad,
    Bonus,
    Transition,
    Other,
}

/// A map position eligible for pipe placement.
#[derive(Clone, Copy, Debug, PartialEq, Eq, Structural)]
pub struct SwappablePos {
    pub grid_row: usize,
    pub grid_col: usize,
    pub entry_index: usize,
    pub entry_type: EntryType,
}

/// One world's map data as the pipe shuffle needs it: where its pointer
/// table and tile grid lie, which of its entries are fortresses, airships,
/// map transitions and Bowser's castle, and its pipe destination indices.
pub struct PipeWorld {
    pub table: WorldPointerTable,
    pub grid_offset: usize,
    /// Screens of the world's map: one InitIndex byte each.
    pub screens: usize,
    pub fortress_entries: Vec<usize>,
    pub airship_entries: Vec<usize>,
    pub transition_entries: Vec<usize>,
    pub bowser_entry: Option<usize>,
    pub dest_indices: Vec<usize>,
}

/// Grid row of a row nibble: two less, wrapping below zero as `usize`
/// does (so rows 0 and 1 fall far off the grid).
pub open spec fn grid_row_of(row_nib: u8) -> usize {
    if row_nib >= 2 {
        (row_nib - 2) as usize
    } else {
        (usize::MAX - 1 + row_nib) as usize
    }
}

fn row_of_nibble(row_nib: u8) -> (r: usize)
    ensures
        r == grid_row_of(row_nib),
{
    if row_nib >= 2 {
        (row_nib - 2) as usize
    } else {
        usize::MAX - 1 + row_nib as usize
    }
}

/// Entry `i` of the table at `rt` holding `n` entries.
pub open spec fn pipe_entry_at(rom: Seq<u8>, rt: int, n: int, i: int) -> PipeEntry {
    let rowtype = rom[rt + i];
    let scrcol = rom[rt + n + i];
    let row_nib = rowtype / 16;
    let screen = scrcol / 16;
    let col = scrcol % 16;
    PipeEntry {
        index: i as usize,
        grid_row: grid_row_of(row_nib),
        grid_col: (screen * 16 + col) as usize,
        obj_ptr: word_at(rom, rt + 2 * n + 2 * i) as u16,
        lay_ptr: word_at(rom, rt + 4 * n + 2 * i) as u16,
        tileset: rowtype % 16,
        row_nib,
        screen,
        col,
    }
}

/// All entries of a world's table.
pub open spec fn all_entries(rom: Seq<u8>, table: WorldPointerTable) -> Seq<PipeEntry> {
    Seq::new(
        table.entry_count as nat,
        |i: int| pipe_entry_at(rom, table.rowtype_offset as int, table.entry_count as int, i),
    )
}

/// The table lies inside the ROM.
pub open spec fn table_in_rom(rom: Seq<u8>, table: WorldPointerTable) -> bool {
    table.rowtype_offset + 6 * table.entry_count <= rom.len()
}

/// Read all pointer table entries of a world.
pub fn read_all_entries(rom: &Rom, world: &PipeWorld) -> (v: Vec<PipeEntry>)
    requires
        table_in_rom(rom@, world.table),
    ensures
        v@ == all_entries(rom@, world.table),
{
    let total = rom.len();
    let n = world.table.entry_count;
    let rt = world.table.rowtype_offset;
    let sc = rt + n;
    let obj = sc + n;
    let lay = obj + n * 2;
    let mut v: Vec<PipeEntry> = Vec::new();
    let mut i: usize = 0;
    while i < n
        invariant
            i <= n,
            n == world.table.entry_count,
            rt == world.table.rowtype_offset,
            sc == rt + n,
            obj == sc + n,
            lay == obj + 2 * n,
            rt + 6 * n <= rom@.len(),
            total == rom@.len(),
            v@ == Seq::new(i as nat, |k: int| pipe_entry_at(rom@, rt as int, n as int, k)),
        decreases n - i,
    {
        let rowtype = rom.read_byte(rt + i);
        let scrcol = rom.read_byte(sc + i);
        let row_nib = (rowtype >> 4) & 0x0F;
        let tileset = rowtype & 0x0F;
        let screen = (scrcol >> 4) & 0x0F;
        let col = scrcol & 0x0F;
        proof {
            lemma_byte_nibbles(rowtype);
            lemma_byte_nibbles(scrcol);
        }
        let obj_ptr = rom.read_word(obj + i * 2);
        let lay_ptr = rom.read_word(lay + i * 2);
        let e = PipeEntry {
            index: i,
            grid_row: row_of_nibble(row_nib),
            grid_col: screen as usize * 16 + col as usize,
            obj_ptr,
            lay_ptr,
            tileset,
            row_nib,
            screen,
            col,
        };
        v.push(e);
        i = i + 1;
        assert(v@ =~= Seq::new(i as nat, |k: int| pipe_entry_at(rom@, rt as int, n as int, k)));
    }
    v
}

/// What kind of entry `e` of `world` is.
pub open spec fn classify(world: PipeWorld, e: PipeEntry) -> EntryType {
    if world.fortress_entries@.contains(e.index) {
        EntryType::Fortress
    } else if world.airship_entries@.contains(e.index) {
        EntryType::Airship
    } else if world.transition_entries@.contains(e.index) {
        EntryType::Transition
    } else if e.obj_ptr == 0x0700 {
        EntryType::Toad
    } else if e.obj_ptr == 0x0001 && e.lay_ptr == 0x0000 {
        EntryType::Bonus
    } else if e.tileset == PIPE_TILESET {
        EntryType::Pipe
    } else if e.obj_ptr >= 0xC000 && e.lay_ptr != 0x0000 {
        EntryType::Level
    } else {
        EntryType::Other
    }
}

fn contains_index(v: &Vec<usize>, i: usize) -> (b: bool)
    ensures
        b == v@.contains(i),
{
    let mut k: usize = 0;
    while k < v.len()
        invariant
            k <= v@.len(),
            forall|j: int| 0 <= j < k ==> v@[j] != i,
        decreases v@.len() - k,
    {
        if v[k] == i {
            return true;
        }
        k = k + 1;
    }
    false
}

/// Classify a pointer table entry.
pub fn classify_entry(world: &PipeWorld, entry: &PipeEntry) -> (t: EntryType)
    ensures
        t == classify(*world, *entry),
{
    let i = entry.index;
    if contains_index(&world.fortress_entries, i) {
        return EntryType::Fortress;
    }
    if contains_index(&world.airship_entries, i) {
        return EntryType::Airship;
    }
    if contains_index(&world.transition_entries, i) {
        return EntryType::Transition;
    }
    if entry.obj_ptr == 0x0700 {
        return EntryType::Toad;
    }
    if entry.obj_ptr == 0x0001 && entry.lay_ptr == 0x0000 {
        return EntryType::Bonus;
    }
    if entry.tileset == PIPE_TILESET {
        return EntryType::Pipe;
    }
    if entry.obj_ptr >= 0xC000 && entry.lay_ptr != 0x0000 {
        return EntryType::Level;
    }
    EntryType::Other
}

/// `e` is a pipe entry of `world`.
pub open spec fn is_pipe(world: PipeWorld, e: PipeEntry) -> bool {
    classify(world, e) == EntryType::Pipe
}

/// The pipe entries of `es` whose object pointer is `k`, in table order.
pub open spec fn pipe_group(world: PipeWorld, es: Seq<PipeEntry>, k: u16) -> Seq<PipeEntry>
    decreases es.len(),
{
    if es.len() == 0 {
        Seq::empty()
    } else {
        let g = pipe_group(world, es.drop_last(), k);
        if is_pipe(world, es.last()) && es.last().obj_ptr == k {
            g.push(es.last())
        } else {
            g
        }
    }
}

/// The pairs of pipe entries sharing an object pointer below `k`: one pair
/// per pointer held by exactly two pipe entries, by ascending pointer.
pub open spec fn pairs_below(world: PipeWorld, es: Seq<PipeEntry>, k: int) -> Seq<(PipeEntry, PipeEntry)>
    decreases k,
{
    if k <= 0 {
        Seq::empty()
    } else {
        let p = pairs_below(world, es, k - 1);
        let g = pipe_group(world, es, (k - 1) as u16);
        if g.len() == 2 {
            p.push((g[0], g[1]))
        } else {
            p
        }
    }
}

/// The paired pipe entries of a world: entries sharing an object pointer,
/// by ascending pointer; a pointer held by a single pipe entry (the warp
/// zone) or by more than two gives no pair.
pub open spec fn pipe_pairs(world: PipeWorld, es: Seq<PipeEntry>) -> Seq<(PipeEntry, PipeEntry)> {
    pairs_below(world, es, 0x10000)
}

proof fn lemma_group_empty(world: PipeWorld, es: Seq<PipeEntry>, k: u16)
    requires
        forall|i: int| 0 <= i < es.len() ==> !(is_pipe(world, #[trigger] es[i]) && es[i].obj_ptr == k),
    ensures
        pipe_group(world, es, k).len() == 0,
    decreases es.len(),
{
    if es.len() > 0 {
        let t = es.drop_last();
        assert forall|i: int| 0 <= i < t.len() implies !(is_pipe(world, #[trigger] t[i]) && t[i].obj_ptr == k) by {
            assert(t[i] == es[i]);
        }
        lemma_group_empty(world, t, k);
        assert(es.last() == es[es.len() - 1]);
    }
}

proof fn lemma_pairs_skip(world: PipeWorld, es: Seq<PipeEntry>, lo: int, m: int)
    requires
        0 <= lo <= m <= 0x10000,
        forall|i: int|
            0 <= i < es.len() && is_pipe(world, #[trigger] es[i]) ==> !(lo <= es[i].obj_ptr < m),
    ensures
        pairs_below(world, es, m) == pairs_below(world, es, lo),
    decreases m - lo,
{
    if m > lo {
        lemma_pairs_skip(world, es, lo, m - 1);
        assert forall|i: int| 0 <= i < es.len() implies !(is_pipe(world, #[trigger] es[i]) && es[i].obj_ptr == (
        m - 1) as u16) by {
            if is_pipe(world, es[i]) {
                assert(!(lo <= es[i].obj_ptr < m));
            }
        }
        lemma_group_empty(world, es, (m - 1) as u16);
    }
}

fn group_for_key(world: &PipeWorld, entries: &Vec<PipeEntry>, k: u16) -> (g: Vec<PipeEntry>)
    ensures
        g@ == pipe_group(*world, entries@, k),
{
    let mut g: Vec<PipeEntry> = Vec::new();
    let mut i: usize = 0;
    assert(entries@.take(0) =~= Seq::<PipeEntry>::empty());
    while i < entries.len()
        invariant
            i <= entries@.len(),
            g@ == pipe_group(*world, entries@.take(i as int), k),
        decreases entries@.len() - i,
    {
        let e = entries[i];
        assert(entries@.take(i + 1).drop_last() =~= entries@.take(i as int));
        assert(entries@.take(i + 1).last() == e);
        if classify_entry(world, &e) == EntryType::Pipe && e.obj_ptr == k {
            g.push(e);
        }
        i = i + 1;
    }
    assert(entries@.take(entries@.len() as int) =~= entries@);
    g
}

/// The smallest object pointer at least `lo` held by a pipe entry.
fn min_pipe_key_from(world: &PipeWorld, entries: &Vec<PipeEntry>, lo: u32) -> (r: Option<u16>)
    ensures
        match r {
            Some(k) => {
                &&& lo <= k
                &&& exists|i: int| 0 <= i < entries@.len() && is_pipe(*world, #[trigger] entries@[i]) && entries@[i].obj_ptr == k
                &&& forall|i: int|
                    0 <= i < entries@.len() && is_pipe(*world, #[trigger] entries@[i]) && lo <= entries@[i].obj_ptr
                        ==> k <= entries@[i].obj_ptr
            },
            None => forall|i: int|
                0 <= i < entries@.len() ==> !(is_pipe(*world, #[trigger] entries@[i]) && lo <= entries@[i].obj_ptr),
        },
{
    let mut best: Option<u16> = None;
    let mut i: usize = 0;
    while i < entries.len()
        invariant
            i <= entries@.len(),
            match best {
                Some(k) => {
                    &&& lo <= k
                    &&& exists|j: int| 0 <= j < i && is_pipe(*world, #[trigger] entries@[j]) && entries@[j].obj_ptr == k
                    &&& forall|j: int|
                        0 <= j < i && is_pipe(*world, #[trigger] entries@[j]) && lo <= entries@[j].obj_ptr
                            ==> k <= entries@[j].obj_ptr
                },
                None => forall|j: int|
                    0 <= j < i ==> !(is_pipe(*world, #[trigger] entries@[j]) && lo <= entries@[j].obj_ptr),
            },
        decreases entries@.len() - i,
    {
        let e = entries[i];
        if classify_entry(world, &e) == EntryType::Pipe && lo <= e.obj_ptr as u32 {
            match best {
                Some(k) => {
                    if e.obj_ptr < k {
                        best = Some(e.obj_ptr);
                    }
                },
                None => {
                    best = Some(e.obj_ptr);
                },
            }
        }
        i = i + 1;
    }
    best
}

/// Paired pipe entries of a world (entries sharing an object pointer).
pub fn get_pipe_pairs(rom: &Rom, world: &PipeWorld) -> (r: Vec<(PipeEntry, PipeEntry)>)
    requires
        table_in_rom(rom@, world.table),
    ensures
        r@ == pipe_pairs(*world, all_entries(rom@, world.table)),
{
    let entries = read_all_entries(rom, world);
    let ghost es = entries@;
    let mut out: Vec<(PipeEntry, PipeEntry)> = Vec::new();
    let mut lo: u32 = 0;
    while lo < 0x10000
        invariant
            lo <= 0x10000,
            entries@ == es,
            out@ == pairs_below(*world, es, lo as int),
        decreases 0x10000 - lo,
    {
        match min_pipe_key_from(world, &entries, lo) {
            None => {
                proof {
                    lemma_pairs_skip(*world, es, lo as int, 0x10000);
                }
                lo = 0x10000;
            },
            Some(k) => {
                proof {
                    lemma_pairs_skip(*world, es, lo as int, k as int);
                }
                let g = group_for_key(world, &entries, k);
                if g.len() == 2 {
                    out.push((g[0], g[1]));
                }
                lo = k as u32 + 1;
            },
        }
    }
    out
}

/// `e` points at a playable level (object pointer in PRG ROM, a layout).
pub open spec fn level_like(e: PipeEntry) -> bool {
    e.obj_ptr >= 0xC000 && e.lay_ptr != 0x0000
}

/// How many level-like entries of `es` carry this object/layout pair.
pub open spec fn pair_count(es: Seq<PipeEntry>, obj: u16, lay: u16) -> nat
    decreases es.len(),
{
    if es.len() == 0 {
        0
    } else {
        pair_count(es.drop_last(), obj, lay) + if level_like(es.last()) && es.last().obj_ptr == obj
            && es.last().lay_ptr == lay {
            1nat
        } else {
            0nat
        }
    }
}

/// `e` shares its level with another entry: a Hammer Bro encounter.
pub open spec fn is_hammer_pair(es: Seq<PipeEntry>, e: PipeEntry) -> bool {
    pair_count(es, e.obj_ptr, e.lay_ptr) > 1
}

/// A pipe may be placed on entry `e` of `es`: a fortress, pipe, level or
/// toad house that is no Hammer Bro encounter, lies on the grid and is not
/// the start tile.
pub open spec fn swappable(world: PipeWorld, es: Seq<PipeEntry>, e: PipeEntry, start: Option<Pos>) -> bool {
    let t = classify(world, e);
    &&& !(t is Airship || t is Transition || t is Bonus || t is Other)
    &&& !is_hammer_pair(es, e)
    &&& e.grid_row < GRID_ROWS
    &&& start != Some((e.grid_row, e.grid_col))
}

/// The swappable positions among `upto` (a prefix of `es`), in table order.
pub open spec fn swappable_from(
    world: PipeWorld,
    es: Seq<PipeEntry>,
    upto: Seq<PipeEntry>,
    start: Option<Pos>,
) -> Seq<SwappablePos>
    decreases upto.len(),
{
    if upto.len() == 0 {
        Seq::empty()
    } else {
        let p = swappable_from(world, es, upto.drop_last(), start);
        let e = upto.last();
        if swappable(world, es, e, start) {
            p.push(
                SwappablePos {
                    grid_row: e.grid_row,
                    grid_col: e.grid_col,
                    entry_index: e.index,
                    entry_type: classify(world, e),
                },
            )
        } else {
            p
        }
    }
}

/// Where pipes may go: every swappable position is an entry of the table,
/// on the grid, off the start cell, and never an airship or a map
/// transition (an entry listed as a fortress excepted), nor a spade game.
pub proof fn lemma_swappable_positions_allowed(
    world: PipeWorld,
    es: Seq<PipeEntry>,
    upto: Seq<PipeEntry>,
    start: Option<Pos>,
)
    ensures
        forall|k: int|
            0 <= k < swappable_from(world, es, upto, start).len() ==> {
                let x = #[trigger] swappable_from(world, es, upto, start)[k];
                let i = x.entry_index;
                &&& exists|j: int|
                    0 <= j < upto.len() && upto[j].index == i && upto[j].grid_row == x.grid_row && upto[j].grid_col
                        == x.grid_col && !(upto[j].obj_ptr == 0x0001 && upto[j].lay_ptr == 0x0000
                        && !world.fortress_entries@.contains(i) && !world.airship_entries@.contains(i)
                        && !world.transition_entries@.contains(i) && upto[j].obj_ptr != 0x0700)
                &&& !world.fortress_entries@.contains(i) ==> !world.airship_entries@.contains(i)
                    && !world.transition_entries@.contains(i)
                &&& x.grid_row < GRID_ROWS
                &&& start != Some((x.grid_row, x.grid_col))
            },
    decreases upto.len(),
{
    if upto.len() > 0 {
        lemma_swappable_positions_allowed(world, es, upto.drop_last(), start);
        let p = swappable_from(world, es, upto.drop_last(), start);
        let e = upto.last();
        let r = swappable_from(world, es, upto, start);
        assert forall|k: int| 0 <= k < r.len() implies {
            let x = #[trigger] r[k];
            let i = x.entry_index;
            &&& exists|j: int|
                0 <= j < upto.len() && upto[j].index == i && upto[j].grid_row == x.grid_row && upto[j].grid_col
                    == x.grid_col && !(upto[j].obj_ptr == 0x0001 && upto[j].lay_ptr == 0x0000
                    && !world.fortress_entries@.contains(i) && !world.airship_entries@.contains(i)
                    && !world.transition_entries@.contains(i) && upto[j].obj_ptr != 0x0700)
            &&& !world.fortress_entries@.contains(i) ==> !world.airship_entries@.contains(i)
                && !world.transition_entries@.contains(i)
            &&& x.grid_row < GRID_ROWS
            &&& start != Some((x.grid_row, x.grid_col))
        } by {
            if k < p.len() {
                assert(r[k] == p[k]);
                let x = p[k];
                let j = choose|j: int|
                    0 <= j < upto.drop_last().len() && upto.drop_last()[j].index == x.entry_index
                        && upto.drop_last()[j].grid_row == x.grid_row && upto.drop_last()[j].grid_col == x.grid_col
                        && !(upto.drop_last()[j].obj_ptr == 0x0001 && upto.drop_last()[j].lay_ptr == 0x0000
                        && !world.fortress_entries@.contains(x.entry_index) && !world.airship_entries@.contains(
                        x.entry_index,
                    ) && !world.transition_entries@.contains(x.entry_index) && upto.drop_last()[j].obj_ptr
                        != 0x0700);
                assert(upto[j] == upto.drop_last()[j]);
            } else {
                assert(r[k].entry_index == e.index);
                assert(upto[upto.len() - 1] == e);
            }
        }
    }
}

fn count_pair(entries: &Vec<PipeEntry>, obj: u16, lay: u16) -> (c: usize)
    ensures
        c == pair_count(entries@, obj, lay),
{
    let mut c: usize = 0;
    let mut i: usize = 0;
    assert(entries@.take(0) =~= Seq::<PipeEntry>::empty());
    while i < entries.len()
        invariant
            i <= entries@.len(),
            c <= i,
            c == pair_count(entries@.take(i as int), obj, lay),
        decreases entries@.len() - i,
    {
        let e = entries[i];
        assert(entries@.take(i + 1).drop_last() =~= entries@.take(i as int));
        assert(entries@.take(i + 1).last() == e);
        if e.obj_ptr >= 0xC000 && e.lay_ptr != 0x0000 && e.obj_ptr == obj && e.lay_ptr == lay {
            c = c + 1;
        }
        i = i + 1;
    }
    assert(entries@.take(entries@.len() as int) =~= entries@);
    c
}

/// All positions of a world eligible for pipe placement swaps.
pub fn get_swappable_positions(rom: &Rom, world: &PipeWorld, start_pos: Option<Pos>) -> (r: Vec<
    SwappablePos,
>)
    requires
        table_in_rom(rom@, world.table),
    ensures
        r@ == swappable_from(
            *world,
            all_entries(rom@, world.table),
            all_entries(rom@, world.table),
            start_pos,
        ),
{
    let entries = read_all_entries(rom, world);
    let ghost es = entries@;
    let mut positions: Vec<SwappablePos> = Vec::new();
    let mut i: usize = 0;
    assert(es.take(0) =~= Seq::<PipeEntry>::empty());
    while i < entries.len()
        invariant
            i <= es.len(),
            entries@ == es,
            positions@ == swappable_from(*world, es, es.take(i as int), start_pos),
        decreases es.len() - i,
    {
        let e = entries[i];
        assert(es.take(i + 1).drop_last() =~= es.take(i as int));
        assert(es.take(i + 1).last() == e);
        let etype = classify_entry(world, &e);
        let skip_kind = match etype {
            EntryType::Airship | EntryType::Transition | EntryType::Bonus | EntryType::Other => true,
            _ => false,
        };
        let hammer = count_pair(&entries, e.obj_ptr, e.lay_ptr) > 1;
        let on_start = match start_pos {
            Some(sp) => e.grid_row == sp.0 && e.grid_col == sp.1,
            None => false,
        };
        if !skip_kind && !hammer && e.grid_row < GRID_ROWS && !on_start {
            positions.push(
                SwappablePos {
                    grid_row: e.grid_row,
                    grid_col: e.grid_col,
                    entry_index: e.index,
                    entry_type: etype,
                },
            );
        }
        i = i + 1;
    }
    assert(es.take(es.len() as int) =~= es);
    positions
}

/// `e` is an airship or Bowser's castle on the grid: it must stay reachable.
pub open spec fn must_reach_entry(world: PipeWorld, e: PipeEntry) -> bool {
    &&& (world.airship_entries@.contains(e.index) || world.bowser_entry == Some(e.index))
    &&& e.grid_row < GRID_ROWS
}

/// Positions that must be reachable: the airships and Bowser's castle,
/// each listed once.
pub fn get_must_reach(rom: &Rom, world: &PipeWorld) -> (r: Vec<Pos>)
    requires
        table_in_rom(rom@, world.table),
    ensures
        r@.no_duplicates(),
        forall|p: Pos|
            r@.contains(p) <==> exists|i: int|
                0 <= i < world.table.entry_count && must_reach_entry(
                    *world,
                    #[trigger] all_entries(rom@, world.table)[i],
                ) && p == (all_entries(rom@, world.table)[i].grid_row, all_entries(
                    rom@,
                    world.table,
                )[i].grid_col),
{
    let entries = read_all_entries(rom, world);
    let ghost es = entries@;
    let mut must: Vec<Pos> = Vec::new();
    let mut i: usize = 0;
    while i < entries.len()
        invariant
            i <= es.len(),
            entries@ == es,
            es == all_entries(rom@, world.table),
            must@.no_duplicates(),
            forall|p: Pos|
                must@.contains(p) <==> exists|j: int|
                    0 <= j < i && must_reach_entry(*world, #[trigger] es[j]) && p == (es[j].grid_row, es[j].grid_col),
        decreases es.len() - i,
    {
        let e = entries[i];
        let airship = contains_index(&world.airship_entries, e.index);
        let bowser = match world.bowser_entry {
            Some(b) => b == e.index,
            None => false,
        };
        let p: Pos = (e.grid_row, e.grid_col);
        if (airship || bowser) && e.grid_row < GRID_ROWS {
            let ghost before = must@;
            let mut seen = false;
            let mut k: usize = 0;
            while k < must.len()
                invariant
                    k <= must@.len(),
                    seen == exists|m: int| 0 <= m < k && must@[m] == p,
                decreases must@.len() - k,
            {
                if must[k].0 == p.0 && must[k].1 == p.1 {
                    seen = true;
                }
                k = k + 1;
            }
            if !seen {
                must.push(p);
            }
            proof {
                assert(must_reach_entry(*world, es[i as int]));
                assert forall|q: Pos| must@.contains(q) implies exists|j: int|
                    0 <= j < i + 1 && must_reach_entry(*world, #[trigger] es[j]) && q == (
                        es[j].grid_row,
                        es[j].grid_col,
                    ) by {
                    if q == p {
                        assert(0 <= i < i + 1 && must_reach_entry(*world, es[i as int]));
                    } else {
                        let m = choose|m: int| 0 <= m < must@.len() && must@[m] == q;
                        assert(before[m] == q);
                        assert(before.contains(q));
                    }
                }
                assert forall|q: Pos|
                    (exists|j: int|
                        0 <= j < i + 1 && must_reach_entry(*world, #[trigger] es[j]) && q == (
                            es[j].grid_row,
                            es[j].grid_col,
                        )) implies must@.contains(q) by {
                    let j = choose|j: int|
                        0 <= j < i + 1 && must_reach_entry(*world, #[trigger] es[j]) && q == (
                            es[j].grid_row,
                            es[j].grid_col,
                        );
                    if j < i {
                        assert(before.contains(q));
                        let m = choose|m: int| 0 <= m < before.len() && before[m] == q;
                        assert(must@[m] == q);
                    } else if seen {
                        let m = choose|m: int| 0 <= m < before.len() && before[m] == p;
                        assert(must@[m] == q);
                    } else {
                        assert(must@[must@.len() - 1] == q);
                    }
                }
                if !seen {
                    assert forall|a: int, b: int| 0 <= a < b < must@.len() implies must@[a] != must@[b] by {
                        if b == must@.len() - 1 {
                            assert(before[a] == must@[a]);
                        } else {
                            assert(before[a] == must@[a] && before[b] == must@[b]);
                        }
                    }
                }
            }
        } else {
            proof {
                assert(!must_reach_entry(*world, es[i as int]));
            }
        }
        i = i + 1;
    }
    must
}

/// The destination-table bytes of every destination index lie in the ROM.
pub open spec fn dests_in_rom(rom: Seq<u8>, tables: PipeDestTables, dests: Seq<usize>) -> bool {
    forall|k: int|
        0 <= k < dests.len() ==> {
            &&& tables.xhi + #[trigger] dests[k] < rom.len()
            &&& tables.x + dests[k] < rom.len()
            &&& tables.y + dests[k] < rom.len()
            &&& tables.scrl_xhi + dests[k] < rom.len()
        }
}

/// Endpoint A (upper nibbles) of destination `d`.
pub open spec fn dest_a_pos(rom: Seq<u8>, tables: PipeDestTables, d: int) -> Pos {
    let xhi = rom[tables.xhi + d];
    let x = rom[tables.x + d];
    let y = rom[tables.y + d];
    (grid_row_of(y / 16), ((xhi / 16) * 16 + x / 16) as usize)
}

/// Endpoint B (lower nibbles) of destination `d`.
pub open spec fn dest_b_pos(rom: Seq<u8>, tables: PipeDestTables, d: int) -> Pos {
    let xhi = rom[tables.xhi + d];
    let x = rom[tables.x + d];
    let y = rom[tables.y + d];
    (grid_row_of(y % 16), ((xhi % 16) * 16 + x % 16) as usize)
}

/// Entry indices `(A, B)` of a pair sitting at endpoints `a` and `b`, in
/// either orientation.
pub open spec fn pair_match(pair: (PipeEntry, PipeEntry), a: Pos, b: Pos) -> Option<(usize, usize)> {
    let ea = (pair.0.grid_row, pair.0.grid_col);
    let eb = (pair.1.grid_row, pair.1.grid_col);
    if ea == a && eb == b {
        Some((pair.0.index, pair.1.index))
    } else if ea == b && eb == a {
        Some((pair.1.index, pair.0.index))
    } else {
        None
    }
}

/// The first pair of `pairs` sitting at endpoints `a` and `b`.
pub open spec fn first_match(pairs: Seq<(PipeEntry, PipeEntry)>, a: Pos, b: Pos) -> Option<(usize, usize)>
    decreases pairs.len(),
{
    if pairs.len() == 0 {
        None
    } else {
        match pair_match(pairs[0], a, b) {
            Some(m) => Some(m),
            None => first_match(pairs.drop_first(), a, b),
        }
    }
}

/// `(dest index, A entry, B entry)` for every destination index whose
/// endpoints hold a pair, in destination order.
pub open spec fn dest_matches(
    rom: Seq<u8>,
    tables: PipeDestTables,
    dests: Seq<usize>,
    pairs: Seq<(PipeEntry, PipeEntry)>,
) -> Seq<(usize, usize, usize)>
    decreases dests.len(),
{
    if dests.len() == 0 {
        Seq::empty()
    } else {
        let p = dest_matches(rom, tables, dests.drop_last(), pairs);
        let d = dests.last();
        match first_match(pairs, dest_a_pos(rom, tables, d as int), dest_b_pos(rom, tables, d as int)) {
            Some(m) => p.push((d, m.0, m.1)),
            None => p,
        }
    }
}

/// Read the A and B endpoint positions of destination `dest_idx` from the
/// pipe destination tables.
pub fn read_dest_positions(rom: &Rom, tables: &PipeDestTables, dest_idx: usize) -> (r: (Pos, Pos))
    requires
        tables.xhi + dest_idx < rom@.len(),
        tables.x + dest_idx < rom@.len(),
        tables.y + dest_idx < rom@.len(),
    ensures
        r == (dest_a_pos(rom@, *tables, dest_idx as int), dest_b_pos(rom@, *tables, dest_idx as int)),
{
    let _total = rom.len();
    let xhi = rom.read_byte(tables.xhi + dest_idx);
    let x = rom.read_byte(tables.x + dest_idx);
    let y = rom.read_byte(tables.y + dest_idx);
    proof {
        lemma_byte_nibbles(y);
        lemma_byte_nibbles(x);
        lemma_byte_nibbles(xhi);
    }
    let a_pos: Pos = (row_of_nibble(y >> 4), ((xhi >> 4) as usize) * 16 + ((x >> 4) as usize));
    let b_pos: Pos = (row_of_nibble(y & 0xF), ((xhi & 0xF) as usize) * 16 + ((x & 0xF) as usize));
    (a_pos, b_pos)
}

fn find_pair(pairs: &Vec<(PipeEntry, PipeEntry)>, a: Pos, b: Pos) -> (r: Option<(usize, usize)>)
    ensures
        r == first_match(pairs@, a, b),
{
    let mut j: usize = 0;
    assert(pairs@.skip(0) =~= pairs@);
    while j < pairs.len()
        invariant
            j <= pairs@.len(),
            first_match(pairs@, a, b) == first_match(pairs@.skip(j as int), a, b),
        decreases pairs@.len() - j,
    {
        let (ea, eb) = pairs[j];
        assert(pairs@.skip(j as int)[0] == pairs@[j as int]);
        assert(pairs@.skip(j as int).drop_first() =~= pairs@.skip(j + 1));
        if ea.grid_row == a.0 && ea.grid_col == a.1 && eb.grid_row == b.0 && eb.grid_col == b.1 {
            return Some((ea.index, eb.index));
        } else if ea.grid_row == b.0 && ea.grid_col == b.1 && eb.grid_row == a.0 && eb.grid_col == a.1 {
            return Some((eb.index, ea.index));
        }
        j = j + 1;
    }
    assert(pairs@.skip(j as int).len() == 0);
    None
}

/// Match pipe pairs to destination-table indices by comparing positions:
/// `(dest index, A entry, B entry)` where A is the upper-nibble endpoint.
pub fn match_pairs_to_dests(
    rom: &Rom,
    tables: &PipeDestTables,
    world: &PipeWorld,
    pairs: &Vec<(PipeEntry, PipeEntry)>,
) -> (r: Vec<(usize, usize, usize)>)
    requires
        dests_in_rom(rom@, *tables, world.dest_indices@),
    ensures
        r@ == dest_matches(rom@, *tables, world.dest_indices@, pairs@),
{
    let total = rom.len();
    let dests = &world.dest_indices;
    let mut matches: Vec<(usize, usize, usize)> = Vec::new();
    let mut k: usize = 0;
    assert(dests@.take(0) =~= Seq::<usize>::empty());
    while k < dests.len()
        invariant
            k <= dests@.len(),
            dests == &world.dest_indices,
            total == rom@.len(),
            dests_in_rom(rom@, *tables, dests@),
            matches@ == dest_matches(rom@, *tables, dests@.take(k as int), pairs@),
        decreases dests@.len() - k,
    {
        let d = dests[k];
        assert(dests@.take(k + 1).drop_last() =~= dests@.take(k as int));
        assert(dests@.take(k + 1).last() == d);
        assert(tables.xhi + dests@[k as int] < rom@.len());
        let (a_pos, b_pos) = read_dest_positions(rom, tables, d);
        match find_pair(pairs, a_pos, b_pos) {
            Some(m) => {
                matches.push((d, m.0, m.1));
            },
            None => {},
        }
        k = k + 1;
    }
    assert(dests@.take(dests@.len() as int) =~= dests@);
    matches
}

/// File offset of the grid tile of an entry with these ByRowType and
/// ByScrCol bytes.
pub open spec fn grid_tile_offset(grid_offset: int, rowtype: u8, scrcol: u8) -> int {
    grid_offset + (scrcol / 16) * GRID_SCREEN_BYTES + (rowtype / 16 - 2) * 16 + scrcol % 16
}

/// Both entries can be swapped: they exist, their rows lie at or below the
/// grid's first row, and their grid tiles lie in the ROM.
pub open spec fn swap_ok(rom: Seq<u8>, world: PipeWorld, a: int, b: int) -> bool {
    let n = world.table.entry_count as int;
    let rt = world.table.rowtype_offset as int;
    &&& table_in_rom(rom, world.table)
    &&& 0 <= a < n
    &&& 0 <= b < n
    &&& rom[rt + a] / 16 >= 2
    &&& rom[rt + b] / 16 >= 2
    &&& 0 <= grid_tile_offset(world.grid_offset as int, rom[rt + a], rom[rt + n + a]) < rom.len()
    &&& 0 <= grid_tile_offset(world.grid_offset as int, rom[rt + b], rom[rt + n + b]) < rom.len()
}

/// The ROM after entries `a` and `b` trade map positions: each keeps its
/// tileset, the row nibbles and ByScrCol bytes are exchanged, and so are
/// the two grid tiles.
pub open spec fn swapped(rom: Seq<u8>, world: PipeWorld, a: int, b: int) -> Seq<u8> {
    let n = world.table.entry_count as int;
    let rt = world.table.rowtype_offset as int;
    let sc = rt + n;
    let art = rom[rt + a];
    let asc = rom[sc + a];
    let brt = rom[rt + b];
    let bsc = rom[sc + b];
    let r1 = rom.update(rt + a, ((brt / 16) * 16 + art % 16) as u8).update(sc + a, bsc).update(
        rt + b,
        ((art / 16) * 16 + brt % 16) as u8,
    ).update(sc + b, asc);
    let ao = grid_tile_offset(world.grid_offset as int, art, asc);
    let bo = grid_tile_offset(world.grid_offset as int, brt, bsc);
    let at = r1[ao];
    let bt = r1[bo];
    r1.update(ao, bt).update(bo, at)
}

/// Swap the map positions of two pointer table entries: ByRowType (each
/// keeps its tileset) and ByScrCol, plus their tiles in the grid.
pub fn swap_entry_positions(rom: &mut Rom, world: &PipeWorld, idx_a: usize, idx_b: usize)
    requires
        swap_ok(old(rom)@, *world, idx_a as int, idx_b as int),
    ensures
        final(rom)@ == swapped(old(rom)@, *world, idx_a as int, idx_b as int),
{
    let _total = rom.len();
    let n = world.table.entry_count;
    let rt = world.table.rowtype_offset;
    let sc = rt + n;
    let grid_offset = world.grid_offset;

    let a_rowtype = rom.read_byte(rt + idx_a);
    let a_scrcol = rom.read_byte(sc + idx_a);
    let b_rowtype = rom.read_byte(rt + idx_b);
    let b_scrcol = rom.read_byte(sc + idx_b);

    let a_row_nib = (a_rowtype >> 4) & 0x0F;
    let a_tileset = a_rowtype & 0x0F;
    let b_row_nib = (b_rowtype >> 4) & 0x0F;
    let b_tileset = b_rowtype & 0x0F;
    proof {
        lemma_byte_nibbles(a_rowtype);
        lemma_byte_nibbles(b_rowtype);
        lemma_join_nibbles(b_rowtype / 16, a_rowtype % 16);
        lemma_join_nibbles(a_rowtype / 16, b_rowtype % 16);
    }

    rom.write_byte(rt + idx_a, (b_row_nib << 4) | a_tileset);
    rom.write_byte(sc + idx_a, b_scrcol);
    rom.write_byte(rt + idx_b, (a_row_nib << 4) | b_tileset);
    rom.write_byte(sc + idx_b, a_scrcol);

    let a_screen = ((a_scrcol >> 4) & 0x0F) as usize;
    let a_col = (a_scrcol & 0x0F) as usize;
    let a_grid_row = (a_row_nib - 2) as usize;
    let b_screen = ((b_scrcol >> 4) & 0x0F) as usize;
    let b_col = (b_scrcol & 0x0F) as usize;
    let b_grid_row = (b_row_nib - 2) as usize;
    proof {
        lemma_byte_nibbles(a_scrcol);
        lemma_byte_nibbles(b_scrcol);
    }

    let a_rom_off = grid_offset + a_screen * 144 + a_grid_row * 16 + a_col;
    let b_rom_off = grid_offset + b_screen * 144 + b_grid_row * 16 + b_col;

    let a_tile = rom.read_byte(a_rom_off);
    let b_tile = rom.read_byte(b_rom_off);
    rom.write_byte(a_rom_off, b_tile);
    rom.write_byte(b_rom_off, a_tile);
}

/// Grid position of entry `i` as its ByRowType and ByScrCol bytes give it.
pub open spec fn pos_of(rom: Seq<u8>, world: PipeWorld, i: int) -> Pos {
    let rt = world.table.rowtype_offset as int;
    let n = world.table.entry_count as int;
    let rowtype = rom[rt + i];
    let scrcol = rom[rt + n + i];
    (grid_row_of(rowtype / 16), ((scrcol / 16) * 16 + scrcol % 16) as usize)
}

/// `p` lies on a four-screen map grid.
pub open spec fn on_grid(p: Pos) -> bool {
    p.0 < GRID_ROWS && p.1 < 64
}

/// The map of an association list: later pairs override earlier ones.
pub open spec fn assoc_map(v: Seq<(Pos, usize)>) -> Map<Pos, usize>
    decreases v.len(),
{
    if v.len() == 0 {
        Map::empty()
    } else {
        assoc_map(v.drop_last()).insert(v.last().0, v.last().1)
    }
}

/// Position-to-entry lookup of the table as read: each entry's position
/// maps to it, the last entry winning where two share a position.
pub open spec fn position_map(rom: Seq<u8>, world: PipeWorld) -> Map<Pos, usize> {
    assoc_map(Seq::new(world.table.entry_count as nat, |i: int| (pos_of(rom, world, i), i as usize)))
}

/// Move entry `i` to `new`: when it is elsewhere and the lookup knows an
/// entry at `new`, the two trade positions and the lookup follows.
pub open spec fn move_entry(rom: Seq<u8>, map: Map<Pos, usize>, world: PipeWorld, i: int, new: Pos) -> (
    Seq<u8>,
    Map<Pos, usize>,
) {
    let cur = pos_of(rom, world, i);
    if cur != new && map.contains_key(new) {
        let t = map[new];
        (swapped(rom, world, i, t as int), map.insert(new, i as usize).insert(cur, t))
    } else {
        (rom, map)
    }
}

/// The destination-table bytes of destination `d` for endpoints `a` and
/// `b`; the scroll table gets the screen nibbles.
pub open spec fn dest_written(rom: Seq<u8>, tables: PipeDestTables, d: int, a: Pos, b: Pos) -> Seq<u8> {
    let (a_xhi, a_x, a_y) = dest_nibbles(a.0 as int, a.1 as int);
    let (b_xhi, b_x, b_y) = dest_nibbles(b.0 as int, b.1 as int);
    rom.update(tables.xhi + d, pack(a_xhi, b_xhi)).update(tables.x + d, pack(a_x, b_x)).update(
        tables.y + d,
        pack(a_y, b_y),
    ).update(tables.scrl_xhi + d, pack(a_xhi, b_xhi))
}

/// One matched pair moved to its placed endpoints.
pub open spec fn shuffle_step(
    rom: Seq<u8>,
    map: Map<Pos, usize>,
    world: PipeWorld,
    tables: PipeDestTables,
    m: (usize, usize, usize),
    p: (Pos, Pos),
) -> (Seq<u8>, Map<Pos, usize>) {
    let s1 = move_entry(rom, map, world, m.1 as int, p.0);
    let s2 = move_entry(s1.0, s1.1, world, m.2 as int, p.1);
    (dest_written(s2.0, tables, m.0 as int, p.0, p.1), s2.1)
}

/// The state after the first `k` matched pairs are moved.
pub open spec fn shuffle_upto(
    rom: Seq<u8>,
    map: Map<Pos, usize>,
    world: PipeWorld,
    tables: PipeDestTables,
    matches: Seq<(usize, usize, usize)>,
    placed: Seq<(Pos, Pos)>,
    k: int,
) -> (Seq<u8>, Map<Pos, usize>)
    decreases k,
{
    if k <= 0 {
        (rom, map)
    } else {
        let s = shuffle_upto(rom, map, world, tables, matches, placed, k - 1);
        shuffle_step(s.0, s.1, world, tables, matches[k - 1], placed[k - 1])
    }
}

/// Offsets the shuffle writes: the ByRowType and ByScrCol bytes, the tile
/// grid, and the destination-table bytes of the world's destinations.
pub open spec fn shuffle_writes(world: PipeWorld, tables: PipeDestTables, k: int) -> bool {
    let rt = world.table.rowtype_offset as int;
    let n = world.table.entry_count as int;
    let g = world.grid_offset as int;
    ||| rt <= k < rt + 2 * n
    ||| g <= k < g + 4 * GRID_SCREEN_BYTES
    ||| exists|j: int|
        0 <= j < world.dest_indices@.len() && (k == tables.xhi + #[trigger] world.dest_indices@[j] || k
            == tables.x + world.dest_indices@[j] || k == tables.y + world.dest_indices@[j] || k
            == tables.scrl_xhi + world.dest_indices@[j])
}

/// File offset of a world's InitIndex: its master-table word is a CPU
/// address in the $8000 bank window, which starts at file offset 0x18010.
pub open spec fn world_init_index(rom: Seq<u8>, world_idx: int) -> int {
    0x18010 + word_at(rom, INIT_INDEX_MASTER + world_idx * 2) - 0x8000
}

/// The world's table can be re-sorted in place: its InitIndex pointer lies
/// in the ROM and names a bank-window address, and the table and the
/// InitIndex (one byte per screen) lie in the ROM apart.
pub open spec fn world_resort_ok(rom: Seq<u8>, world: PipeWorld, world_idx: int) -> bool {
    &&& INIT_INDEX_MASTER + world_idx * 2 + 1 < rom.len()
    &&& word_at(rom, INIT_INDEX_MASTER + world_idx * 2) >= 0x8000
    &&& table_fits(rom.len() as int, world.table, world_init_index(rom, world_idx), world.screens as int)
}

/// Re-sort the world's pointer table by (screen, row nibble, column) and
/// rebuild its InitIndex, one byte per screen of the map; a screen with no
/// entry gets 0.
fn resort_world_table(rom: &mut Rom, world: &PipeWorld, world_idx: usize)
    requires
        world_resort_ok(old(rom)@, *world, world_idx as int),
    ensures
        table_resorted(
            old(rom)@,
            final(rom)@,
            world.table,
            world_init_index(old(rom)@, world_idx as int),
            world.screens as int,
            0,
        ),
{
    let _total = rom.len();
    let init_ptr = rom.read_word(INIT_INDEX_MASTER + world_idx * 2);
    let init_file = 0x18010 + (init_ptr as usize - 0x8000);
    resort_table(rom, &world.table, init_file, world.screens, 0);
}

/// The world's data lies in the ROM, ready for a shuffle: the table and its
/// InitIndex can be re-sorted, the destination tables and the four-screen
/// grid lie in the ROM, the grid and the destination bytes stay clear of
/// the ByRowType/ByScrCol bytes, and nothing the shuffle writes touches the
/// world's InitIndex pointer.
pub open spec fn shuffle_layout_ok(rom: Seq<u8>, world: PipeWorld, tables: PipeDestTables, world_idx: int) -> bool {
    let rt = world.table.rowtype_offset as int;
    let n = world.table.entry_count as int;
    let g = world.grid_offset as int;
    let m = INIT_INDEX_MASTER + world_idx * 2;
    &&& world_resort_ok(rom, world, world_idx)
    &&& dests_in_rom(rom, tables, world.dest_indices@)
    &&& g + 4 * GRID_SCREEN_BYTES <= rom.len()
    &&& (g + 4 * GRID_SCREEN_BYTES <= rt || rt + 2 * n <= g)
    &&& forall|j: int|
        0 <= j < world.dest_indices@.len() ==> {
            &&& !(rt <= tables.xhi + #[trigger] world.dest_indices@[j] < rt + 2 * n)
            &&& !(rt <= tables.x + world.dest_indices@[j] < rt + 2 * n)
            &&& !(rt <= tables.y + world.dest_indices@[j] < rt + 2 * n)
            &&& !(rt <= tables.scrl_xhi + world.dest_indices@[j] < rt + 2 * n)
        }
    &&& !shuffle_writes(world, tables, m)
    &&& !shuffle_writes(world, tables, m + 1)
}

/// The pair entries exist and sit on the grid.
pub open spec fn pairs_on_grid(rom: Seq<u8>, world: PipeWorld, pairs: Seq<(PipeEntry, PipeEntry)>) -> bool {
    forall|j: int|
        0 <= j < pairs.len() ==> {
            &&& (#[trigger] pairs[j]).0.index < world.table.entry_count
            &&& pairs[j].1.index < world.table.entry_count
            &&& on_grid(pos_of(rom, world, pairs[j].0.index as int))
            &&& on_grid(pos_of(rom, world, pairs[j].1.index as int))
        }
}

/// What the shuffle leaves: nothing when the matched pairs and the placed
/// endpoints differ in number; otherwise every matched pair moved to its
/// placed endpoints in turn, then the table re-sorted.
pub open spec fn pipe_shuffled(
    old: Seq<u8>,
    new: Seq<u8>,
    world: PipeWorld,
    tables: PipeDestTables,
    world_idx: int,
    pairs: Seq<(PipeEntry, PipeEntry)>,
    placed: Seq<(Pos, Pos)>,
) -> bool {
    let ms = dest_matches(old, tables, world.dest_indices@, pairs);
    if ms.len() != placed.len() {
        new == old
    } else {
        let mid = shuffle_upto(old, position_map(old, world), world, tables, ms, placed, ms.len() as int).0;
        table_resorted(mid, new, world.table, world_init_index(mid, world_idx), world.screens as int, 0)
    }
}

proof fn lemma_first_match_from(pairs: Seq<(PipeEntry, PipeEntry)>, a: Pos, b: Pos)
    ensures
        first_match(pairs, a, b) matches Some(m) ==> exists|j: int|
            0 <= j < pairs.len() && ((m.0 == (#[trigger] pairs[j]).0.index && m.1 == pairs[j].1.index) || (m.0
                == pairs[j].1.index && m.1 == pairs[j].0.index)),
    decreases pairs.len(),
{
    if pairs.len() > 0 {
        lemma_first_match_from(pairs.drop_first(), a, b);
        if pair_match(pairs[0], a, b) is None {
            if first_match(pairs.drop_first(), a, b) is Some {
                let m = first_match(pairs.drop_first(), a, b)->0;
                let j = choose|j: int|
                    0 <= j < pairs.drop_first().len() && ((m.0 == (#[trigger] pairs.drop_first()[j]).0.index && m.1
                        == pairs.drop_first()[j].1.index) || (m.0 == pairs.drop_first()[j].1.index && m.1
                        == pairs.drop_first()[j].0.index));
                assert(pairs[j + 1] == pairs.drop_first()[j]);
            }
        }
    }
}

/// Every match names a destination of the world and the two entries of
/// one of the pairs.
proof fn lemma_dest_matches_from(
    rom: Seq<u8>,
    tables: PipeDestTables,
    dests: Seq<usize>,
    pairs: Seq<(PipeEntry, PipeEntry)>,
)
    ensures
        forall|k: int|
            0 <= k < dest_matches(rom, tables, dests, pairs).len() ==> {
                &&& dests.contains((#[trigger] dest_matches(rom, tables, dests, pairs)[k]).0)
                &&& exists|j: int|
                    0 <= j < pairs.len() && ((dest_matches(rom, tables, dests, pairs)[k].1 == (
                    #[trigger] pairs[j]).0.index && dest_matches(rom, tables, dests, pairs)[k].2
                        == pairs[j].1.index) || (dest_matches(rom, tables, dests, pairs)[k].1
                        == pairs[j].1.index && dest_matches(rom, tables, dests, pairs)[k].2
                        == pairs[j].0.index))
            },
    decreases dests.len(),
{
    if dests.len() > 0 {
        let t = dests.drop_last();
        lemma_dest_matches_from(rom, tables, t, pairs);
        let d = dests.last();
        let a = dest_a_pos(rom, tables, d as int);
        let b = dest_b_pos(rom, tables, d as int);
        lemma_first_match_from(pairs, a, b);
        let p = dest_matches(rom, tables, t, pairs);
        let ms = dest_matches(rom, tables, dests, pairs);
        assert forall|k: int| 0 <= k < ms.len() implies {
            &&& dests.contains((#[trigger] ms[k]).0)
            &&& exists|j: int|
                0 <= j < pairs.len() && ((ms[k].1 == (#[trigger] pairs[j]).0.index && ms[k].2
                    == pairs[j].1.index) || (ms[k].1 == pairs[j].1.index && ms[k].2 == pairs[j].0.index))
        } by {
            if k < p.len() {
                assert(ms[k] == p[k]);
                let i = choose|i: int| 0 <= i < t.len() && t[i] == p[k].0;
                assert(dests[i] == t[i]);
            } else {
                assert(dests[dests.len() - 1] == d);
            }
        }
    }
}

/// Tileset nibble of entry `e`.
pub open spec fn tileset_at(rom: Seq<u8>, world: PipeWorld, e: int) -> u8 {
    rom[world.table.rowtype_offset + e] % 16
}

/// Every position the lookup knows maps to an entry that sits there.
pub open spec fn map_accurate(rom: Seq<u8>, world: PipeWorld, map: Map<Pos, usize>) -> bool {
    forall|q: Pos|
        #[trigger] map.contains_key(q) ==> map[q] < world.table.entry_count && pos_of(rom, world, map[q] as int) == q
}

/// The tile grid and the ByRowType/ByScrCol bytes lie in the ROM apart.
pub open spec fn grid_apart(rom: Seq<u8>, world: PipeWorld) -> bool {
    let rt = world.table.rowtype_offset as int;
    let n = world.table.entry_count as int;
    let g = world.grid_offset as int;
    &&& table_in_rom(rom, world.table)
    &&& g + 4 * GRID_SCREEN_BYTES <= rom.len()
    &&& (g + 4 * GRID_SCREEN_BYTES <= rt || rt + 2 * n <= g)
}

proof fn lemma_nibbles(hi: u8, lo: u8)
    requires
        hi < 16,
        lo < 16,
    ensures
        ((hi * 16 + lo) as u8) / 16 == hi,
        ((hi * 16 + lo) as u8) % 16 == lo,
{
    assert(hi * 16 + lo < 256) by (nonlinear_arith)
        requires
            hi < 16,
            lo < 16,
    ;
    assert((hi * 16 + lo) / 16 == hi && (hi * 16 + lo) % 16 == lo) by (nonlinear_arith)
        requires
            lo < 16,
            hi >= 0,
    ;
}

proof fn lemma_on_grid_facts(rom: Seq<u8>, world: PipeWorld, i: int)
    requires
        table_in_rom(rom, world.table),
        0 <= i < world.table.entry_count,
        on_grid(pos_of(rom, world, i)),
    ensures
        ({
            let rt = world.table.rowtype_offset as int;
            let n = world.table.entry_count as int;
            let g = world.grid_offset as int;
            &&& 2 <= rom[rt + i] / 16 < 2 + GRID_ROWS
            &&& rom[rt + n + i] / 16 < 4
            &&& g <= grid_tile_offset(g, rom[rt + i], rom[rt + n + i]) < g + 4 * GRID_SCREEN_BYTES
        }),
{
    let rt = world.table.rowtype_offset as int;
    let n = world.table.entry_count as int;
    let rn = rom[rt + i] / 16;
    let sc = rom[rt + n + i];
    assert(rn >= 2);
    assert(sc / 16 * 16 + sc % 16 < 256) by (nonlinear_arith)
        requires
            sc < 256,
    ;
    assert(sc / 16 < 4) by (nonlinear_arith)
        requires
            (sc / 16 * 16 + sc % 16) < 64,
            sc % 16 >= 0,
    ;
}

/// Swapping two on-grid entries exchanges their positions and touches
/// nothing but their ByRowType/ByScrCol bytes and the grid.
proof fn lemma_swap_effects(rom: Seq<u8>, world: PipeWorld, a: int, b: int)
    requires
        grid_apart(rom, world),
        0 <= a < world.table.entry_count,
        0 <= b < world.table.entry_count,
        a != b,
        on_grid(pos_of(rom, world, a)),
        on_grid(pos_of(rom, world, b)),
    ensures
        swap_ok(rom, world, a, b),
        swapped(rom, world, a, b).len() == rom.len(),
        pos_of(swapped(rom, world, a, b), world, a) == pos_of(rom, world, b),
        pos_of(swapped(rom, world, a, b), world, b) == pos_of(rom, world, a),
        forall|e: int|
            0 <= e < world.table.entry_count && e != a && e != b ==> #[trigger] pos_of(
                swapped(rom, world, a, b),
                world,
                e,
            ) == pos_of(rom, world, e),
        forall|k: int|
            0 <= k < rom.len() && !(world.table.rowtype_offset <= k < world.table.rowtype_offset + 2
                * world.table.entry_count) && !(world.grid_offset <= k < world.grid_offset + 4
                * GRID_SCREEN_BYTES) ==> #[trigger] swapped(rom, world, a, b)[k] == rom[k],
{
    lemma_on_grid_facts(rom, world, a);
    lemma_on_grid_facts(rom, world, b);
    let rt = world.table.rowtype_offset as int;
    let n = world.table.entry_count as int;
    let art = rom[rt + a];
    let brt = rom[rt + b];
    lemma_nibbles(brt / 16, art % 16);
    lemma_nibbles(art / 16, brt % 16);
    let sw = swapped(rom, world, a, b);
    assert forall|e: int|
        0 <= e < world.table.entry_count && e != a && e != b implies #[trigger] pos_of(sw, world, e) == pos_of(
        rom,
        world,
        e,
    ) by {
        assert(sw[rt + e] == rom[rt + e]);
        assert(sw[rt + n + e] == rom[rt + n + e]);
    }
}

fn entry_pos(rom: &Rom, world: &PipeWorld, i: usize) -> (p: Pos)
    requires
        table_in_rom(rom@, world.table),
        i < world.table.entry_count,
    ensures
        p == pos_of(rom@, *world, i as int),
{
    let _total = rom.len();
    let rt = world.table.rowtype_offset;
    let sc = rt + world.table.entry_count;
    let rowtype = rom.read_byte(rt + i);
    let scrcol = rom.read_byte(sc + i);
    proof {
        lemma_byte_nibbles(rowtype);
        lemma_byte_nibbles(scrcol);
    }
    let row = row_of_nibble((rowtype >> 4) & 0x0F);
    let col = ((scrcol >> 4) & 0x0F) as usize * 16 + (scrcol & 0x0F) as usize;
    (row, col)
}

proof fn lemma_assoc_take(v: Seq<(Pos, usize)>, i: int, key: Pos)
    requires
        0 <= i <= v.len(),
        forall|j: int| i <= j < v.len() ==> (#[trigger] v[j]).0 != key,
    ensures
        assoc_map(v).contains_key(key) == assoc_map(v.take(i)).contains_key(key),
        assoc_map(v).contains_key(key) ==> assoc_map(v)[key] == assoc_map(v.take(i))[key],
    decreases v.len(),
{
    if i == v.len() {
        assert(v.take(i) =~= v);
    } else {
        let t = v.drop_last();
        assert(v[v.len() - 1].0 != key);
        assert forall|j: int| i <= j < t.len() implies (#[trigger] t[j]).0 != key by {
            assert(t[j] == v[j]);
        }
        lemma_assoc_take(t, i, key);
        assert(t.take(i) =~= v.take(i));
    }
}

proof fn lemma_assoc_member(v: Seq<(Pos, usize)>, key: Pos)
    requires
        assoc_map(v).contains_key(key),
    ensures
        exists|j: int| 0 <= j < v.len() && #[trigger] v[j] == (key, assoc_map(v)[key]),
    decreases v.len(),
{
    if v.last().0 == key {
        assert(v[v.len() - 1] == (key, assoc_map(v)[key]));
    } else {
        lemma_assoc_member(v.drop_last(), key);
        let j = choose|j: int|
            0 <= j < v.drop_last().len() && #[trigger] v.drop_last()[j] == (key, assoc_map(v.drop_last())[key]);
        assert(v[j] == v.drop_last()[j]);
    }
}

fn assoc_get(v: &Vec<(Pos, usize)>, key: Pos) -> (r: Option<usize>)
    ensures
        r == (if assoc_map(v@).contains_key(key) {
            Some(assoc_map(v@)[key])
        } else {
            None::<usize>
        }),
{
    let mut i: usize = v.len();
    while i > 0
        invariant
            i <= v@.len(),
            forall|j: int| i <= j < v@.len() ==> (#[trigger] v@[j]).0 != key,
        decreases i,
    {
        let (p, e) = v[i - 1];
        if p.0 == key.0 && p.1 == key.1 {
            proof {
                lemma_assoc_take(v@, i as int, key);
                assert(v@.take(i as int).drop_last() =~= v@.take(i - 1));
                assert(v@.take(i as int).last() == v@[i - 1]);
            }
            return Some(e);
        }
        i = i - 1;
    }
    proof {
        lemma_assoc_take(v@, 0, key);
        assert(v@.take(0) =~= Seq::<(Pos, usize)>::empty());
    }
    None
}

/// Move entry `i` to `new_pos` as [`move_entry`] says, keeping the lookup
/// in step.
#[verifier::rlimit(40)]
fn move_entry_to(rom: &mut Rom, world: &PipeWorld, v: &mut Vec<(Pos, usize)>, i: usize, new_pos: Pos)
    requires
        grid_apart(old(rom)@, *world),
        i < world.table.entry_count,
        on_grid(pos_of(old(rom)@, *world, i as int)),
        on_grid(new_pos),
        map_accurate(old(rom)@, *world, assoc_map(old(v)@)),
    ensures
        (final(rom)@, assoc_map(final(v)@)) == move_entry(
            old(rom)@,
            assoc_map(old(v)@),
            *world,
            i as int,
            new_pos,
        ),
        final(rom)@.len() == old(rom)@.len(),
        map_accurate(final(rom)@, *world, assoc_map(final(v)@)),
        forall|e: int|
            0 <= e < world.table.entry_count && on_grid(pos_of(old(rom)@, *world, e)) ==> on_grid(
                #[trigger] pos_of(final(rom)@, *world, e),
            ),
        forall|e: int|
            0 <= e < world.table.entry_count ==> #[trigger] tileset_at(final(rom)@, *world, e) == tileset_at(
                old(rom)@,
                *world,
                e,
            ),
        forall|k: int|
            0 <= k < old(rom)@.len() && !(world.table.rowtype_offset <= k < world.table.rowtype_offset + 2
                * world.table.entry_count) && !(world.grid_offset <= k < world.grid_offset + 4
                * GRID_SCREEN_BYTES) ==> #[trigger] final(rom)@[k] == old(rom)@[k],
{
    let cur = entry_pos(rom, world, i);
    if cur.0 == new_pos.0 && cur.1 == new_pos.1 {
        return;
    }
    match assoc_get(v, new_pos) {
        Some(t) => {
            let ghost before = rom@;
            let ghost map = assoc_map(v@);
            proof {
                assert(map.contains_key(new_pos));
                assert(t < world.table.entry_count && pos_of(before, *world, t as int) == new_pos);
                lemma_swap_effects(before, *world, i as int, t as int);
                lemma_swap_keeps_tilesets(before, *world, i as int, t as int);
                lemma_on_grid_facts(before, *world, i as int);
                lemma_on_grid_facts(before, *world, t as int);
            }
            swap_entry_positions(rom, world, i, t);
            v.push((new_pos, i));
            v.push((cur, t));
            proof {
                let m2 = assoc_map(v@);
                let v1 = old(v)@.push((new_pos, i));
                assert(v@.drop_last() =~= v1);
                assert(v1.drop_last() =~= old(v)@);
                assert(assoc_map(v1) == assoc_map(old(v)@).insert(new_pos, i));
                assert(m2 == map.insert(new_pos, i).insert(cur, t));
                assert forall|q: Pos| #[trigger] m2.contains_key(q) implies m2[q] < world.table.entry_count
                    && pos_of(rom@, *world, m2[q] as int) == q by {
                    if q != cur && q != new_pos {
                        assert(map.contains_key(q));
                        let e = map[q];
                        assert(pos_of(before, *world, e as int) == q);
                        assert(e != i && e != t);
                    }
                }
                assert forall|e: int|
                    0 <= e < world.table.entry_count && on_grid(pos_of(before, *world, e)) implies on_grid(
                    #[trigger] pos_of(rom@, *world, e),
                ) by {
                    if e != i && e != t {
                        assert(pos_of(rom@, *world, e) == pos_of(before, *world, e));
                    }
                }
                assert forall|e: int| 0 <= e < world.table.entry_count implies #[trigger] tileset_at(
                    rom@,
                    *world,
                    e,
                ) == tileset_at(before, *world, e) by {
                    let rt = world.table.rowtype_offset as int;
                    if e != i && e != t {
                        assert(rom@[rt + e] == before[rt + e]);
                    }
                }
            }
        },
        None => {},
    }
}


/// The four destination-table bytes of `d` lie in the ROM, clear of the
/// ByRowType/ByScrCol bytes.
pub open spec fn dest_ok(rom: Seq<u8>, world: PipeWorld, tables: PipeDestTables, d: int) -> bool {
    let rt = world.table.rowtype_offset as int;
    let n = world.table.entry_count as int;
    &&& tables.xhi + d < rom.len() && !(rt <= tables.xhi + d < rt + 2 * n)
    &&& tables.x + d < rom.len() && !(rt <= tables.x + d < rt + 2 * n)
    &&& tables.y + d < rom.len() && !(rt <= tables.y + d < rt + 2 * n)
    &&& tables.scrl_xhi + d < rom.len() && !(rt <= tables.scrl_xhi + d < rt + 2 * n)
}

/// Move one matched pair to its placed endpoints and write its
/// destination-table bytes.
fn shuffle_one(
    rom: &mut Rom,
    world: &PipeWorld,
    tables: &PipeDestTables,
    v: &mut Vec<(Pos, usize)>,
    m: (usize, usize, usize),
    p: (Pos, Pos),
)
    requires
        grid_apart(old(rom)@, *world),
        dest_ok(old(rom)@, *world, *tables, m.0 as int),
        m.1 < world.table.entry_count,
        m.2 < world.table.entry_count,
        on_grid(pos_of(old(rom)@, *world, m.1 as int)),
        on_grid(pos_of(old(rom)@, *world, m.2 as int)),
        on_grid(p.0),
        on_grid(p.1),
        map_accurate(old(rom)@, *world, assoc_map(old(v)@)),
    ensures
        (final(rom)@, assoc_map(final(v)@)) == shuffle_step(old(rom)@, assoc_map(old(v)@), *world, *tables, m, p),
        final(rom)@.len() == old(rom)@.len(),
        map_accurate(final(rom)@, *world, assoc_map(final(v)@)),
        forall|e: int|
            0 <= e < world.table.entry_count && on_grid(pos_of(old(rom)@, *world, e)) ==> on_grid(
                #[trigger] pos_of(final(rom)@, *world, e),
            ),
        forall|e: int|
            0 <= e < world.table.entry_count ==> #[trigger] tileset_at(final(rom)@, *world, e) == tileset_at(
                old(rom)@,
                *world,
                e,
            ),
        forall|q: int|
            0 <= q < old(rom)@.len() && !(world.table.rowtype_offset <= q < world.table.rowtype_offset + 2
                * world.table.entry_count) && !(world.grid_offset <= q < world.grid_offset + 4
                * GRID_SCREEN_BYTES) && q != tables.xhi + m.0 && q != tables.x + m.0 && q != tables.y + m.0 && q
                != tables.scrl_xhi + m.0 ==> #[trigger] final(rom)@[q] == old(rom)@[q],
{
    let _total = rom.len();
    let (d, ia, ib) = m;
    let (na, nb) = p;
    let ghost s0 = rom@;
    move_entry_to(rom, world, v, ia, na);
    let ghost s1 = rom@;
    move_entry_to(rom, world, v, ib, nb);
    let ghost s2 = rom@;
    let (a_xhi, a_x, a_y) = grid_pos_to_dest_nibbles(na.0, na.1);
    let (b_xhi, b_x, b_y) = grid_pos_to_dest_nibbles(nb.0, nb.1);
    rom.write_byte(tables.xhi + d, (a_xhi << 4) | b_xhi);
    rom.write_byte(tables.x + d, (a_x << 4) | b_x);
    rom.write_byte(tables.y + d, (a_y << 4) | b_y);
    rom.write_byte(tables.scrl_xhi + d, (a_xhi << 4) | b_xhi);
    proof {
        let rt = world.table.rowtype_offset as int;
        let n = world.table.entry_count as int;
        assert forall|e: int| 0 <= e < n implies #[trigger] pos_of(rom@, *world, e) == pos_of(s2, *world, e) by {
            assert(rom@[rt + e] == s2[rt + e]);
            assert(rom@[rt + n + e] == s2[rt + n + e]);
        }
        assert forall|q: Pos| #[trigger] assoc_map(v@).contains_key(q) implies assoc_map(v@)[q] < n && pos_of(
            rom@,
            *world,
            assoc_map(v@)[q] as int,
        ) == q by {
            assert(pos_of(s2, *world, assoc_map(v@)[q] as int) == q);
        }
        assert forall|e: int| 0 <= e < n && on_grid(pos_of(s0, *world, e)) implies on_grid(
            #[trigger] pos_of(rom@, *world, e),
        ) by {
            assert(on_grid(pos_of(s1, *world, e)));
            assert(on_grid(pos_of(s2, *world, e)));
        }
        assert forall|e: int| 0 <= e < n implies #[trigger] tileset_at(rom@, *world, e) == tileset_at(s0, *world, e)
            by {
            assert(tileset_at(s2, *world, e) == tileset_at(s1, *world, e));
            assert(tileset_at(s1, *world, e) == tileset_at(s0, *world, e));
            assert(rom@[rt + e] == s2[rt + e]);
        }
        assert forall|q: int|
            0 <= q < s0.len() && !(rt <= q < rt + 2 * n) && !(world.grid_offset <= q < world.grid_offset + 4
                * GRID_SCREEN_BYTES) && q != tables.xhi + d && q != tables.x + d && q != tables.y + d && q
                != tables.scrl_xhi + d implies #[trigger] rom@[q] == s0[q] by {
            assert(s2[q] == s1[q]);
            assert(s1[q] == s0[q]);
        }
        assert(rom@ == dest_written(s2, *tables, d as int, na, nb));
    }
}

/// The level an entry leads to: its tileset and its object and layout
/// pointers.
pub open spec fn entry_level(e: PointerEntry) -> (u8, u8, u8, u8, u8) {
    (e.rowtype % 16, e.obj_lo, e.obj_hi, e.lay_lo, e.lay_hi)
}

/// The levels of a world's table, counted with multiplicity.
pub open spec fn table_levels(rom: Seq<u8>, table: WorldPointerTable) -> Multiset<(u8, u8, u8, u8, u8)> {
    table_entries(rom, table.rowtype_offset as int, table.entry_count as int).map_values(
        |e: PointerEntry| entry_level(e),
    ).to_multiset()
}

/// The grid and every destination-table byte lie clear of the whole
/// pointer table.
pub open spec fn table_apart(world: PipeWorld, tables: PipeDestTables) -> bool {
    let rt = world.table.rowtype_offset as int;
    let n = world.table.entry_count as int;
    let g = world.grid_offset as int;
    &&& (g + 4 * GRID_SCREEN_BYTES <= rt || rt + 6 * n <= g)
    &&& forall|j: int|
        0 <= j < world.dest_indices@.len() ==> {
            &&& !(rt <= tables.xhi + #[trigger] world.dest_indices@[j] < rt + 6 * n)
            &&& !(rt <= tables.x + world.dest_indices@[j] < rt + 6 * n)
            &&& !(rt <= tables.y + world.dest_indices@[j] < rt + 6 * n)
            &&& !(rt <= tables.scrl_xhi + world.dest_indices@[j] < rt + 6 * n)
        }
}

/// Every match names a destination of the world and the two entries of a
/// pair.
pub open spec fn matches_from(
    ms: Seq<(usize, usize, usize)>,
    dests: Seq<usize>,
    pairs: Seq<(PipeEntry, PipeEntry)>,
) -> bool {
    forall|k: int|
        0 <= k < ms.len() ==> {
            &&& dests.contains((#[trigger] ms[k]).0)
            &&& exists|j: int|
                0 <= j < pairs.len() && ((ms[k].1 == (#[trigger] pairs[j]).0.index && ms[k].2
                    == pairs[j].1.index) || (ms[k].1 == pairs[j].1.index && ms[k].2 == pairs[j].0.index))
        }
}

/// Apply the pipe shuffle to a world: match the pipe pairs to their
/// destination indices, move each matched pair to its placed endpoints
/// (trading positions with the entries found there), write the new
/// endpoints into the destination tables, and re-sort the pointer table.
/// When the matched pairs and the placed endpoints differ in number nothing
/// is written.
#[verifier::rlimit(40)]
pub fn apply_pipe_shuffle(
    rom: &mut Rom,
    world: &PipeWorld,
    tables: &PipeDestTables,
    world_idx: usize,
    pipe_pairs_data: &Vec<(PipeEntry, PipeEntry)>,
    placed_pairs: &Vec<(Pos, Pos)>,
)
    requires
        shuffle_layout_ok(old(rom)@, *world, *tables, world_idx as int),
        pairs_on_grid(old(rom)@, *world, pipe_pairs_data@),
        forall|k: int|
            0 <= k < placed_pairs@.len() ==> on_grid((#[trigger] placed_pairs@[k]).0) && on_grid(
                placed_pairs@[k].1,
            ),
    ensures
        pipe_shuffled(
            old(rom)@,
            final(rom)@,
            *world,
            *tables,
            world_idx as int,
            pipe_pairs_data@,
            placed_pairs@,
        ),
        table_apart(*world, *tables) ==> table_levels(final(rom)@, world.table) == table_levels(
            old(rom)@,
            world.table,
        ),
{
    let total = rom.len();
    let n = world.table.entry_count;
    let dest_matches = match_pairs_to_dests(rom, tables, world, pipe_pairs_data);
    if dest_matches.len() != placed_pairs.len() {
        return;
    }
    let ghost ms = dest_matches@;
    let ghost old_rom = rom@;
    let ghost dests = world.dest_indices@;
    let ghost pairs = pipe_pairs_data@;
    proof {
        lemma_dest_matches_from(old_rom, *tables, dests, pairs);
        assert(matches_from(ms, dests, pairs));
    }

    let mut pos_to_entry: Vec<(Pos, usize)> = Vec::new();
    let mut i: usize = 0;
    while i < n
        invariant
            i <= n,
            n == world.table.entry_count,
            rom@ == old_rom,
            table_in_rom(old_rom, world.table),
            pos_to_entry@ == Seq::new(i as nat, |k: int| (pos_of(old_rom, *world, k), k as usize)),
        decreases n - i,
    {
        let p = entry_pos(rom, world, i);
        pos_to_entry.push((p, i));
        i = i + 1;
        assert(pos_to_entry@ =~= Seq::new(i as nat, |k: int| (pos_of(old_rom, *world, k), k as usize)));
    }
    proof {
        let v = pos_to_entry@;
        assert forall|q: Pos| #[trigger] assoc_map(v).contains_key(q) implies assoc_map(v)[q] < n && pos_of(
            old_rom,
            *world,
            assoc_map(v)[q] as int,
        ) == q by {
            lemma_assoc_member(v, q);
            let j = choose|j: int| 0 <= j < v.len() && #[trigger] v[j] == (q, assoc_map(v)[q]);
        }
    }

    let mut k: usize = 0;
    while k < dest_matches.len()
        invariant
            k <= ms.len(),
            n == world.table.entry_count,
            dest_matches@ == ms,
            ms.len() == placed_pairs@.len(),
            matches_from(ms, dests, pairs),
            dests == world.dest_indices@,
            pairs == pipe_pairs_data@,
            forall|j: int|
                0 <= j < placed_pairs@.len() ==> on_grid((#[trigger] placed_pairs@[j]).0) && on_grid(
                    placed_pairs@[j].1,
                ),
            shuffle_layout_ok(old_rom, *world, *tables, world_idx as int),
            total == old_rom.len(),
            rom@.len() == total,
            (rom@, assoc_map(pos_to_entry@)) == shuffle_upto(
                old_rom,
                position_map(old_rom, *world),
                *world,
                *tables,
                ms,
                placed_pairs@,
                k as int,
            ),
            map_accurate(rom@, *world, assoc_map(pos_to_entry@)),
            pairs_on_grid(rom@, *world, pairs),
            forall|q: int|
                0 <= q < total && !shuffle_writes(*world, *tables, q) ==> #[trigger] rom@[q] == old_rom[q],
            table_apart(*world, *tables) ==> forall|e: int|
                0 <= e < n ==> #[trigger] entry_level(
                    pointer_entry_at(rom@, world.table.rowtype_offset as int, n as int, e),
                ) == entry_level(pointer_entry_at(old_rom, world.table.rowtype_offset as int, n as int, e)),
        decreases ms.len() - k,
    {
        let m = dest_matches[k];
        let p = placed_pairs[k];
        let ghost before = rom@;
        proof {
            assert(on_grid(placed_pairs@[k as int].0) && on_grid(placed_pairs@[k as int].1));
            assert(ms[k as int] == m);
            assert(dests.contains(ms[k as int].0));
            let j = choose|j: int|
                0 <= j < pairs.len() && ((ms[k as int].1 == (#[trigger] pairs[j]).0.index && ms[k as int].2
                    == pairs[j].1.index) || (ms[k as int].1 == pairs[j].1.index && ms[k as int].2
                    == pairs[j].0.index));
            let jd = choose|jd: int| 0 <= jd < dests.len() && dests[jd] == m.0;
            assert(world.dest_indices@[jd] == m.0);
        }
        shuffle_one(rom, world, tables, &mut pos_to_entry, m, p);
        proof {
            assert forall|j: int| 0 <= j < pairs.len() implies {
                &&& (#[trigger] pairs[j]).0.index < world.table.entry_count
                &&& pairs[j].1.index < world.table.entry_count
                &&& on_grid(pos_of(rom@, *world, pairs[j].0.index as int))
                &&& on_grid(pos_of(rom@, *world, pairs[j].1.index as int))
            } by {
                assert(on_grid(pos_of(before, *world, pairs[j].0.index as int)));
                assert(on_grid(pos_of(before, *world, pairs[j].1.index as int)));
            }
            let jd = choose|jd: int| 0 <= jd < dests.len() && dests[jd] == m.0;
            assert forall|q: int| 0 <= q < total && !shuffle_writes(*world, *tables, q) implies #[trigger] rom@[q]
                == old_rom[q] by {
                assert(world.dest_indices@[jd] == m.0);
                assert(before[q] == old_rom[q]);
            }
            if table_apart(*world, *tables) {
                let rt = world.table.rowtype_offset as int;
                assert(world.dest_indices@[jd] == m.0);
                assert forall|e: int| 0 <= e < n implies #[trigger] entry_level(
                    pointer_entry_at(rom@, rt, n as int, e),
                ) == entry_level(pointer_entry_at(old_rom, rt, n as int, e)) by {
                    assert(entry_level(pointer_entry_at(before, rt, n as int, e)) == entry_level(
                        pointer_entry_at(old_rom, rt, n as int, e),
                    ));
                    assert(tileset_at(rom@, *world, e) == tileset_at(before, *world, e));
                    assert(rom@[rt + 2 * n + 2 * e] == before[rt + 2 * n + 2 * e]);
                    assert(rom@[rt + 2 * n + 2 * e + 1] == before[rt + 2 * n + 2 * e + 1]);
                    assert(rom@[rt + 4 * n + 2 * e] == before[rt + 4 * n + 2 * e]);
                    assert(rom@[rt + 4 * n + 2 * e + 1] == before[rt + 4 * n + 2 * e + 1]);
                }
            }
        }
        k = k + 1;
    }
    proof {
        let m = INIT_INDEX_MASTER + world_idx * 2;
        assert(rom@[m] == old_rom[m]);
        assert(rom@[m + 1] == old_rom[m + 1]);
    }
    let ghost mid = rom@;
    resort_world_table(rom, world, world_idx);
    proof {
        if table_apart(*world, *tables) {
            let rt = world.table.rowtype_offset as int;
            let f = |e: PointerEntry| entry_level(e);
            let tm = table_entries(mid, rt, n as int);
            let to = table_entries(old_rom, rt, n as int);
            assert(tm.map_values(f) =~= to.map_values(f)) by {
                assert forall|e: int| 0 <= e < n implies #[trigger] tm.map_values(f)[e] == to.map_values(f)[e] by {
                    assert(entry_level(pointer_entry_at(mid, rt, n as int, e)) == entry_level(
                        pointer_entry_at(old_rom, rt, n as int, e),
                    ));
                }
            }
            lemma_sort_keeps_mapped(tm, f);
        }
    }
}

/// Swapping two on-grid entries of a world whose grid lies apart from its
/// table: each keeps its tileset and takes the other's row nibble, ByScrCol
/// byte and grid tile; nothing outside their ByRowType/ByScrCol bytes and
/// the grid changes.
pub proof fn lemma_swap_keeps_tilesets(rom: Seq<u8>, world: PipeWorld, a: int, b: int)
    requires
        grid_apart(rom, world),
        0 <= a < world.table.entry_count,
        0 <= b < world.table.entry_count,
        a != b,
        on_grid(pos_of(rom, world, a)),
        on_grid(pos_of(rom, world, b)),
    ensures
        ({
            let rt = world.table.rowtype_offset as int;
            let n = world.table.entry_count as int;
            let g = world.grid_offset as int;
            let s = swapped(rom, world, a, b);
            let ao = grid_tile_offset(g, rom[rt + a], rom[rt + n + a]);
            let bo = grid_tile_offset(g, rom[rt + b], rom[rt + n + b]);
            &&& s[rt + a] % 16 == rom[rt + a] % 16
            &&& s[rt + b] % 16 == rom[rt + b] % 16
            &&& s[rt + a] / 16 == rom[rt + b] / 16
            &&& s[rt + b] / 16 == rom[rt + a] / 16
            &&& s[rt + n + a] == rom[rt + n + b]
            &&& s[rt + n + b] == rom[rt + n + a]
            &&& s[ao] == rom[bo]
            &&& s[bo] == rom[ao]
            &&& forall|k: int|
                0 <= k < rom.len() && k != rt + a && k != rt + b && k != rt + n + a && k != rt + n + b
                    && k != ao && k != bo ==> #[trigger] s[k] == rom[k]
        }),
{
    lemma_swap_effects(rom, world, a, b);
    lemma_on_grid_facts(rom, world, a);
    lemma_on_grid_facts(rom, world, b);
    let rt = world.table.rowtype_offset as int;
    let art = rom[rt + a];
    let brt = rom[rt + b];
    lemma_nibbles(brt / 16, art % 16);
    lemma_nibbles(art / 16, brt % 16);
}

/// Moving an on-grid entry to an on-grid position the lookup knows leaves
/// the entry there.
pub proof fn lemma_move_places_entry(rom: Seq<u8>, map: Map<Pos, usize>, world: PipeWorld, i: int, new: Pos)
    requires
        grid_apart(rom, world),
        map_accurate(rom, world, map),
        0 <= i < world.table.entry_count,
        on_grid(pos_of(rom, world, i)),
        on_grid(new),
        map.contains_key(new),
    ensures
        pos_of(move_entry(rom, map, world, i, new).0, world, i) == new,
{
    let cur = pos_of(rom, world, i);
    if cur != new {
        let t = map[new];
        assert(pos_of(rom, world, t as int) == new);
        lemma_swap_effects(rom, world, i, t as int);
    }
}

/// Reading back a destination just written gives the endpoints written,
/// when their rows fit a nibble after the two-row offset and their columns
/// lie within sixteen screens, and the four table bytes are distinct.
pub proof fn lemma_pipe_dest_roundtrip(
    rom: Seq<u8>,
    tables: PipeDestTables,
    d: int,
    a: Pos,
    b: Pos,
    world_idx: int,
)
    requires
        0 <= d,
        tables.xhi + d < rom.len(),
        tables.x + d < rom.len(),
        tables.y + d < rom.len(),
        tables.scrl_xhi + d < rom.len(),
        tables.xhi != tables.x,
        tables.xhi != tables.y,
        tables.x != tables.y,
        tables.scrl_xhi != tables.xhi,
        tables.scrl_xhi != tables.x,
        tables.scrl_xhi != tables.y,
        a.0 <= 13,
        b.0 <= 13,
        a.1 < 256,
        b.1 < 256,
    ensures
        dest_a_pos(pipe_dest_written(rom, tables, d, a, b, world_idx), tables, d) == a,
        dest_b_pos(pipe_dest_written(rom, tables, d, a, b, world_idx), tables, d) == b,
{
    let w = pipe_dest_written(rom, tables, d, a, b, world_idx);
    let (a_xhi, a_x, a_y) = dest_nibbles(a.0 as int, a.1 as int);
    let (b_xhi, b_x, b_y) = dest_nibbles(b.0 as int, b.1 as int);
    assert(a_xhi < 16 && a_x < 16 && a_y < 16 && 2 <= a_y);
    assert(b_xhi < 16 && b_x < 16 && b_y < 16 && 2 <= b_y);
    lemma_join_nibbles(a_xhi, b_xhi);
    lemma_join_nibbles(a_x, b_x);
    lemma_join_nibbles(a_y, b_y);
    assert(w[tables.xhi + d] == pack(a_xhi, b_xhi));
    assert(w[tables.x + d] == pack(a_x, b_x));
    assert(w[tables.y + d] == pack(a_y, b_y));
    let xhi = w[tables.xhi + d];
    let x = w[tables.x + d];
    let y = w[tables.y + d];
    assert(xhi == a_xhi * 16 + b_xhi);
    assert(x == a_x * 16 + b_x);
    assert(y == a_y * 16 + b_y);
    assert(xhi / 16 == a_xhi && xhi % 16 == b_xhi);
    assert(x / 16 == a_x && x % 16 == b_x);
    assert(y / 16 == a_y && y % 16 == b_y);
}

} // verus!
