//! Pipe movement helpers: the ROM writes behind moving overworld pipe
//! endpoints — destination-table nibbles, the camera scroll nibble, and the
//! re-sort of a world's map pointer table.
use vstd::prelude::*;
use crate::bits::lemma_byte_nibbles;
use crate::rom::{Rom, spliced, word_at};
use crate::sorting::{SortKey, key_sorted, lemma_sort_by_key, lemma_sort_by_key_sorted, sort_by_key, stable_sort};

verus! {

/// A grid position `(row, col)`.
pub type Pos = (usize, usize);

/// InitIndex master table offset (9 word pointers, one per world + warp zone).
pub const INIT_INDEX_MASTER: usize = 0x193DA;

/// File offset of CPU $A000 in PRG012, where the map code and tables live.
pub const PRG012_FILE_BASE: usize = 0x18010;

/// Bytes of InitIndex per world (all worlds allocate four screens).
pub const INIT_INDEX_LEN: usize = 4;

/// File offsets of the four pipe destination tables (one byte per
/// destination index; upper nibble = endpoint A, lower = endpoint B).
pub struct PipeDestTables {
    /// Screen (`MapXHi`).
    pub xhi: usize,
    /// Column within the screen (`MapX`).
    pub x: usize,
    /// Row nibble (`MapY`).
    pub y: usize,
    /// Camera scroll after exiting (`MapScrlXHi`).
    pub scrl_xhi: usize,
}

/// Where a world's map pointer table lives: `entry_count` entries laid out
/// as ByRowType, ByScrCol, ObjSets (words), Layouts (words).
pub struct WorldPointerTable {
    pub entry_count: usize,
    pub rowtype_offset: usize,
}

/// `(screen, col, row_nib)` destination nibbles of a grid position.
pub open spec fn dest_nibbles(row: int, col: int) -> (u8, u8, u8) {
    ((col / 16) as u8, (col % 16) as u8, (row + 2) as u8)
}

/// Convert a grid position to pipe destination table nibble values:
/// `(screen_nib, col_nib, row_nib)`.
pub fn grid_pos_to_dest_nibbles(grid_row: usize, grid_col: usize) -> (r: (u8, u8, u8))
    requires
        grid_row + 2 <= usize::MAX,
    ensures
        r == dest_nibbles(grid_row as int, grid_col as int),
{
    let row_nib = (grid_row + 2) as u8;
    let screen = (grid_col / 16) as u8;
    let col = (grid_col % 16) as u8;
    (screen, col, row_nib)
}

/// The scroll nibble for an endpoint: bits 2-0 the scroll screen, bit 3 the
/// centre flag (+128 px). Discrete-screen worlds never centre.
pub open spec fn spec_scroll_nibble(screen: u8, col_in_screen: u8, discrete_screens: bool) -> u8 {
    if discrete_screens {
        screen
    } else if col_in_screen * 16 < 33 && screen > 0 {
        ((screen - 1) as u8 | 0x8) as u8
    } else if col_in_screen * 16 > 208 {
        (screen | 0x8) as u8
    } else {
        screen
    }
}

/// Compute the MapScrlXHi nibble for a pipe endpoint so the camera snaps
/// without triggering a pan: the player's on-screen X
/// (`screen*256 + col*16 - scroll`) is kept within [33, 208], where the
/// engine does not pan. W5 and W8 scroll screen by screen, so they never set
/// the centre flag.
pub fn scroll_nibble(screen: u8, col_in_screen: u8, discrete_screens: bool) -> (r: u8)
    ensures
        r == spec_scroll_nibble(screen, col_in_screen, discrete_screens),
{
    if discrete_screens {
        return screen;
    }
    let px = col_in_screen as u16 * 16;
    if px < 33 && screen > 0 {
        (screen - 1) | 0x8
    } else if px > 208 {
        screen | 0x8
    } else {
        screen
    }
}

/// Two nibbles packed into one table byte, `a` high.
pub open spec fn pack(a: u8, b: u8) -> u8 {
    ((a << 4u8) | b) as u8
}

/// The four destination-table bytes written for endpoints `a` and `b`.
pub open spec fn pipe_dest_written(
    rom: Seq<u8>,
    tables: PipeDestTables,
    dest_idx: int,
    a: Pos,
    b: Pos,
    world_idx: int,
) -> Seq<u8> {
    let (a_xhi, a_x, a_y) = dest_nibbles(a.0 as int, a.1 as int);
    let (b_xhi, b_x, b_y) = dest_nibbles(b.0 as int, b.1 as int);
    let discrete = world_idx == 4 || world_idx == 7;
    rom.update(tables.xhi + dest_idx, pack(a_xhi, b_xhi)).update(
        tables.x + dest_idx,
        pack(a_x, b_x),
    ).update(tables.y + dest_idx, pack(a_y, b_y)).update(
        tables.scrl_xhi + dest_idx,
        pack(
            spec_scroll_nibble(a_xhi, a_x, discrete),
            spec_scroll_nibble(b_xhi, b_x, discrete),
        ),
    )
}

/// Write all four pipe destination tables for one destination index.
/// W5 and W8 (world indices 4 and 7) have discrete screens.
pub fn write_pipe_dest(
    rom: &mut Rom,
    tables: &PipeDestTables,
    dest_idx: usize,
    a_pos: Pos,
    b_pos: Pos,
    world_idx: usize,
)
    requires
        tables.xhi + dest_idx < old(rom)@.len(),
        tables.x + dest_idx < old(rom)@.len(),
        tables.y + dest_idx < old(rom)@.len(),
        tables.scrl_xhi + dest_idx < old(rom)@.len(),
        a_pos.0 + 2 <= usize::MAX,
        b_pos.0 + 2 <= usize::MAX,
    ensures
        final(rom)@ == pipe_dest_written(
            old(rom)@,
            *tables,
            dest_idx as int,
            a_pos,
            b_pos,
            world_idx as int,
        ),
{
    let _total = rom.len();
    let (a_xhi, a_x, a_y) = grid_pos_to_dest_nibbles(a_pos.0, a_pos.1);
    let (b_xhi, b_x, b_y) = grid_pos_to_dest_nibbles(b_pos.0, b_pos.1);

    rom.write_byte(tables.xhi + dest_idx, (a_xhi << 4) | b_xhi);
    rom.write_byte(tables.x + dest_idx, (a_x << 4) | b_x);
    rom.write_byte(tables.y + dest_idx, (a_y << 4) | b_y);

    let discrete = world_idx == 4 || world_idx == 7;
    let a_scrl = scroll_nibble(a_xhi, a_x, discrete);
    let b_scrl = scroll_nibble(b_xhi, b_x, discrete);
    rom.write_byte(tables.scrl_xhi + dest_idx, (a_scrl << 4) | b_scrl);
}

/// Packing two nibbles is undone by reading the high and low nibble back.
pub proof fn lemma_pack_unpack(a: u8, b: u8)
    requires
        a < 16,
        b < 16,
    ensures
        pack(a, b) >> 4u8 == a,
        pack(a, b) & 0x0F == b,
{
    assert(((a << 4u8) | b) >> 4u8 == a && ((a << 4u8) | b) & 0x0F == b) by (bit_vector)
        requires
            a < 16,
            b < 16,
    ;
}

/// A destination written for two on-map endpoints decodes back to them:
/// row = high/low nibble of `MapY` minus 2, column = screen nibble * 16 +
/// column nibble.
pub proof fn lemma_dest_round_trip(a: Pos, b: Pos)
    requires
        a.0 < 14,
        b.0 < 14,
        a.1 < 256,
        b.1 < 256,
    ensures
        ({
            let (a_xhi, a_x, a_y) = dest_nibbles(a.0 as int, a.1 as int);
            let (b_xhi, b_x, b_y) = dest_nibbles(b.0 as int, b.1 as int);
            &&& (pack(a_y, b_y) >> 4u8) - 2 == a.0
            &&& (pack(a_y, b_y) & 0x0F) - 2 == b.0
            &&& (pack(a_xhi, b_xhi) >> 4u8) * 16 + (pack(a_x, b_x) >> 4u8) == a.1
            &&& (pack(a_xhi, b_xhi) & 0x0F) * 16 + (pack(a_x, b_x) & 0x0F) == b.1
        }),
{
    let (a_xhi, a_x, a_y) = dest_nibbles(a.0 as int, a.1 as int);
    let (b_xhi, b_x, b_y) = dest_nibbles(b.0 as int, b.1 as int);
    lemma_pack_unpack(a_y, b_y);
    lemma_pack_unpack(a_xhi, b_xhi);
    lemma_pack_unpack(a_x, b_x);
}

/// On-screen X of a tile at `col_in_screen` of `screen` under scroll nibble
/// `nib`: `screen*256 + col*16 - (nib & 7)*256 - (nib & 8 ? 128 : 0)`.
pub open spec fn on_screen_x(screen: u8, col_in_screen: u8, nib: u8) -> int {
    screen * 256 + col_in_screen * 16 - (nib & 7) * 256 - (if nib & 8 != 0 { 128int } else { 0 })
}

/// Outside discrete-screen worlds the scroll nibble keeps the player inside
/// the no-pan band [33, 208] — except at the left edge of the first screen,
/// where no scroll can.
pub proof fn lemma_scroll_keeps_player_in_band(screen: u8, col_in_screen: u8)
    requires
        screen < 8,
        col_in_screen < 16,
        !(screen == 0 && col_in_screen * 16 < 33),
    ensures
        33 <= on_screen_x(screen, col_in_screen, spec_scroll_nibble(screen, col_in_screen, false)) <= 208,
{
    let nib = spec_scroll_nibble(screen, col_in_screen, false);
    if col_in_screen * 16 < 33 && screen > 0 {
        assert(nib & 7 == screen - 1 && nib & 8 != 0) by (bit_vector)
            requires
                nib == ((screen - 1) as u8 | 0x8) as u8,
                0 < screen < 8,
        ;
    } else if col_in_screen * 16 > 208 {
        assert(nib & 7 == screen && nib & 8 != 0) by (bit_vector)
            requires
                nib == (screen | 0x8) as u8,
                screen < 8,
        ;
    } else {
        assert(nib & 7 == screen && nib & 8 == 0) by (bit_vector)
            requires
                nib == screen,
                screen < 8,
        ;
    }
}


/// One map pointer table entry: its ByRowType and ByScrCol bytes and its
/// object-set and layout pointers.
#[derive(Clone, Copy, Debug, PartialEq, Eq, Structural)]
pub struct PointerEntry {
    pub rowtype: u8,
    pub scrcol: u8,
    pub obj_lo: u8,
    pub obj_hi: u8,
    pub lay_lo: u8,
    pub lay_hi: u8,
}

/// Screen of an entry (high nibble of ByScrCol).
pub open spec fn entry_screen(e: PointerEntry) -> int {
    e.scrcol as int / 16
}

impl SortKey for PointerEntry {
    /// The engine's lookup order: screen, then row nibble, then column.
    open spec fn spec_key(&self) -> int {
        (self.scrcol as int / 16) * 256 + (self.rowtype as int / 16) * 16 + (self.scrcol as int % 16)
    }

    fn sort_key(&self) -> (k: u32) {
        let screen = ((self.scrcol >> 4) & 0x0F) as u32;
        let row_nib = ((self.rowtype >> 4) & 0x0F) as u32;
        let col = (self.scrcol & 0x0F) as u32;
        proof {
            let sc = self.scrcol;
            let rt = self.rowtype;
            lemma_byte_nibbles(sc);
            lemma_byte_nibbles(rt);
        }
        screen * 256 + row_nib * 16 + col
    }
}

/// Entry `i` of the table starting at `rt` with `n` entries.
pub open spec fn pointer_entry_at(rom: Seq<u8>, rt: int, n: int, i: int) -> PointerEntry {
    let sc = rt + n;
    let obj = sc + n;
    let lay = obj + 2 * n;
    PointerEntry {
        rowtype: rom[rt + i],
        scrcol: rom[sc + i],
        obj_lo: rom[obj + 2 * i],
        obj_hi: rom[obj + 2 * i + 1],
        lay_lo: rom[lay + 2 * i],
        lay_hi: rom[lay + 2 * i + 1],
    }
}

/// All `n` entries of the table starting at `rt`.
pub open spec fn table_entries(rom: Seq<u8>, rt: int, n: int) -> Seq<PointerEntry> {
    Seq::new(n as nat, |i: int| pointer_entry_at(rom, rt, n, i))
}

/// Offset `k` belongs to the table starting at `rt` with `n` entries.
pub open spec fn in_table(k: int, rt: int, n: int) -> bool {
    rt <= k < rt + 6 * n
}

/// Index of the first entry on `screen`, or the entry count when none is.
pub open spec fn first_on_screen(entries: Seq<PointerEntry>, screen: int) -> int
    decreases entries.len(),
{
    if entries.len() == 0 {
        0
    } else if entry_screen(entries[0]) == screen {
        0
    } else {
        1 + first_on_screen(entries.drop_first(), screen)
    }
}

/// File offset of a world's InitIndex, from its pointer in the master table.
pub open spec fn init_index_file(rom: Seq<u8>, world_idx: int) -> int {
    PRG012_FILE_BASE + word_at(rom, INIT_INDEX_MASTER + world_idx * 2) - 0xA000
}

/// The table can be re-sorted in place: it and the world's InitIndex lie in
/// the ROM without overlapping, and the InitIndex pointer is a PRG012
/// address.
pub open spec fn resort_ok(rom: Seq<u8>, world: WorldPointerTable, world_idx: int) -> bool {
    let n = world.entry_count as int;
    let rt = world.rowtype_offset as int;
    let init = init_index_file(rom, world_idx);
    &&& INIT_INDEX_MASTER + world_idx * 2 + 1 < rom.len()
    &&& word_at(rom, INIT_INDEX_MASTER + world_idx * 2) >= 0xA000
    &&& rt + 6 * n <= rom.len()
    &&& init + INIT_INDEX_LEN <= rom.len()
    &&& (init + INIT_INDEX_LEN <= rt || rt + 6 * n <= init)
}

/// What re-sorting leaves: the table's entries in the engine's lookup order
/// (stable), InitIndex naming each screen's first entry, and every other
/// byte as it was.
pub open spec fn resorted(old: Seq<u8>, new: Seq<u8>, world: WorldPointerTable, world_idx: int) -> bool {
    let n = world.entry_count as int;
    let rt = world.rowtype_offset as int;
    let init = init_index_file(old, world_idx);
    let sorted = sort_by_key(table_entries(old, rt, n));
    &&& new.len() == old.len()
    &&& table_entries(new, rt, n) == sorted
    &&& forall|s: int| 0 <= s < INIT_INDEX_LEN ==> #[trigger] new[init + s] == first_on_screen(sorted, s) as u8
    &&& forall|k: int|
        0 <= k < new.len() && !in_table(k, rt, n) && !(init <= k < init + INIT_INDEX_LEN)
            ==> #[trigger] new[k] == old[k]
}

/// Read the whole table.
fn read_table(rom: &Rom, world: &WorldPointerTable) -> (v: Vec<PointerEntry>)
    requires
        world.rowtype_offset + 6 * world.entry_count <= rom@.len(),
    ensures
        v@ == table_entries(rom@, world.rowtype_offset as int, world.entry_count as int),
{
    let total = rom.len();
    let n = world.entry_count;
    let rt = world.rowtype_offset;
    let sc = rt + n;
    let obj = sc + n;
    let lay = obj + n * 2;
    let mut v: Vec<PointerEntry> = Vec::new();
    let mut i: usize = 0;
    while i < n
        invariant
            i <= n,
            n == world.entry_count,
            rt == world.rowtype_offset,
            sc == rt + n,
            obj == sc + n,
            lay == obj + 2 * n,
            rt + 6 * n <= rom@.len(),
            total == rom@.len(),
            v@ == Seq::new(i as nat, |k: int| pointer_entry_at(rom@, rt as int, n as int, k)),
        decreases n - i,
    {
        let e = PointerEntry {
            rowtype: rom.read_byte(rt + i),
            scrcol: rom.read_byte(sc + i),
            obj_lo: rom.read_byte(obj + i * 2),
            obj_hi: rom.read_byte(obj + i * 2 + 1),
            lay_lo: rom.read_byte(lay + i * 2),
            lay_hi: rom.read_byte(lay + i * 2 + 1),
        };
        v.push(e);
        i = i + 1;
        assert(v@ =~= Seq::new(i as nat, |k: int| pointer_entry_at(rom@, rt as int, n as int, k)));
    }
    v
}

/// Index of the first entry on `screen`, or the entry count when none is.
fn position_on_screen(entries: &Vec<PointerEntry>, screen: u8) -> (r: usize)
    ensures
        r as int == first_on_screen(entries@, screen as int),
{
    let mut i: usize = 0;
    assert(entries@.skip(0) =~= entries@);
    while i < entries.len()
        invariant
            i <= entries@.len(),
            first_on_screen(entries@, screen as int) == i + first_on_screen(entries@.skip(i as int), screen as int),
        decreases entries@.len() - i,
    {
        let sc = entries[i].scrcol;
        let on = (sc >> 4) & 0x0F;
        proof {
            lemma_byte_nibbles(sc);
            assert(entries@.skip(i as int)[0] == entries@[i as int]);
            assert(entries@.skip(i as int).drop_first() =~= entries@.skip(i + 1));
        }
        if on == screen {
            return i;
        }
        i = i + 1;
    }
    assert(entries@.skip(i as int).len() == 0);
    i
}

/// Index of the first entry on `screen`, or `none` when no entry is.
pub open spec fn first_on_screen_or(entries: Seq<PointerEntry>, screen: int, none: int) -> int {
    if first_on_screen(entries, screen) == entries.len() {
        none
    } else {
        first_on_screen(entries, screen)
    }
}

/// What re-sorting with an InitIndex of `screens` bytes at `init` leaves: the
/// table's entries in the engine's lookup order (stable), InitIndex naming
/// each screen's first entry (`none` for a screen without one), and every
/// other byte as it was.
pub open spec fn table_resorted(
    old: Seq<u8>,
    new: Seq<u8>,
    world: WorldPointerTable,
    init: int,
    screens: int,
    none: int,
) -> bool {
    let n = world.entry_count as int;
    let rt = world.rowtype_offset as int;
    let sorted = sort_by_key(table_entries(old, rt, n));
    &&& new.len() == old.len()
    &&& table_entries(new, rt, n) == sorted
    &&& forall|s: int| 0 <= s < screens ==> #[trigger] new[init + s] == first_on_screen_or(sorted, s as u8 as int, none) as u8
    &&& forall|k: int|
        0 <= k < new.len() && !in_table(k, rt, n) && !(init <= k < init + screens)
            ==> #[trigger] new[k] == old[k]
}

/// The table and an InitIndex of `screens` bytes at `init` lie in the ROM
/// without overlapping.
pub open spec fn table_fits(len: int, world: WorldPointerTable, init: int, screens: int) -> bool {
    let n = world.entry_count as int;
    let rt = world.rowtype_offset as int;
    &&& 0 <= init
    &&& rt + 6 * n <= len
    &&& init + screens <= len
    &&& (init + screens <= rt || rt + 6 * n <= init)
}

/// Sort the table in place and rebuild the InitIndex of `screens` bytes at
/// `init_file`.
pub fn resort_table(
    rom: &mut Rom,
    world: &WorldPointerTable,
    init_file: usize,
    screens: usize,
    none: usize,
)
    requires
        table_fits(old(rom)@.len() as int, *world, init_file as int, screens as int),
    ensures
        table_resorted(old(rom)@, final(rom)@, *world, init_file as int, screens as int, none as int),
{
    let total = rom.len();
    let n = world.entry_count;
    let rt = world.rowtype_offset;
    let sc = rt + n;
    let obj = sc + n;
    let lay = obj + n * 2;

    let mut entries = read_table(rom, world);
    stable_sort(&mut entries);
    let ghost sorted = entries@;
    proof {
        lemma_sort_by_key(table_entries(old(rom)@, rt as int, n as int));
    }

    let mut i: usize = 0;
    while i < n
        invariant
            i <= n,
            n == world.entry_count,
            rt == world.rowtype_offset,
            sc == rt + n,
            obj == sc + n,
            lay == obj + 2 * n,
            total == old(rom)@.len(),
            rom@.len() == total,
            rt + 6 * n <= total,
            entries@ == sorted,
            sorted.len() == n,
            forall|k: int| 0 <= k < i ==> pointer_entry_at(rom@, rt as int, n as int, k) == #[trigger] sorted[k],
            forall|k: int| i <= k < n ==> #[trigger] pointer_entry_at(rom@, rt as int, n as int, k)
                == pointer_entry_at(old(rom)@, rt as int, n as int, k),
            forall|k: int| 0 <= k < total && !in_table(k, rt as int, n as int) ==> #[trigger] rom@[k] == old(rom)@[k],
        decreases n - i,
    {
        let e = entries[i];
        let ghost before = rom@;
        rom.write_byte(rt + i, e.rowtype);
        rom.write_byte(sc + i, e.scrcol);
        rom.write_byte(obj + i * 2, e.obj_lo);
        rom.write_byte(obj + i * 2 + 1, e.obj_hi);
        rom.write_byte(lay + i * 2, e.lay_lo);
        rom.write_byte(lay + i * 2 + 1, e.lay_hi);
        proof {
            assert forall|k: int| 0 <= k < n && k != i implies #[trigger] pointer_entry_at(rom@, rt as int, n as int, k)
                == pointer_entry_at(before, rt as int, n as int, k) by {}
        }
        i = i + 1;
    }
    assert(table_entries(rom@, rt as int, n as int) =~= sorted);

    let ghost written = rom@;
    let mut s: usize = 0;
    while s < screens
        invariant
            s <= screens,
            n == world.entry_count,
            rt == world.rowtype_offset,
            total == old(rom)@.len(),
            rom@.len() == total,
            rt + 6 * n <= total,
            init_file + screens <= total,
            init_file + screens <= rt || rt + 6 * n <= init_file,
            entries@ == sorted,
            sorted.len() == n,
            forall|k: int| 0 <= k < s ==> #[trigger] rom@[init_file + k] == first_on_screen_or(sorted, k as u8 as int, none as int) as u8,
            forall|k: int| 0 <= k < total && !(init_file <= k < init_file + s) ==> #[trigger] rom@[k] == written[k],
        decreases screens - s,
    {
        let found = position_on_screen(&entries, s as u8);
        let offset = if found == n { none } else { found };
        rom.write_byte(init_file + s, offset as u8);
        s = s + 1;
    }
    assert(table_entries(rom@, rt as int, n as int) =~= table_entries(written, rt as int, n as int));
}

/// Re-sort all pointer table entries of a world by (screen, row nibble,
/// column) and rebuild its InitIndex. The engine scans entries per screen
/// from `InitIndex[screen]`, matching row first and then column, so the
/// entries must be sorted for its lookup to work. Screens with no entry
/// point past the end.
pub fn resort_pointer_table(rom: &mut Rom, world: &WorldPointerTable, world_idx: usize)
    requires
        resort_ok(old(rom)@, *world, world_idx as int),
    ensures
        resorted(old(rom)@, final(rom)@, *world, world_idx as int),
{
    let _total = rom.len();
    let init_ptr = rom.read_word(INIT_INDEX_MASTER + world_idx * 2);
    let init_file = PRG012_FILE_BASE + (init_ptr as usize - 0xA000);
    resort_table(rom, world, init_file, INIT_INDEX_LEN, world.entry_count);
    proof {
        let sorted = sort_by_key(
            table_entries(old(rom)@, world.rowtype_offset as int, world.entry_count as int),
        );
        lemma_sort_by_key(table_entries(old(rom)@, world.rowtype_offset as int, world.entry_count as int));
        assert forall|s: int| 0 <= s < INIT_INDEX_LEN implies #[trigger] first_on_screen_or(
            sorted,
            s as u8 as int,
            world.entry_count as int,
        ) == first_on_screen(sorted, s) by {
            assert(s as u8 as int == s);
        }
    }
}

/// Re-sorting keeps the table's entries (as a multiset) and leaves them in
/// the engine's lookup order.
pub proof fn lemma_resort_keeps_entries(
    old: Seq<u8>,
    new: Seq<u8>,
    world: WorldPointerTable,
    world_idx: int,
)
    requires
        resorted(old, new, world, world_idx),
    ensures
        table_entries(new, world.rowtype_offset as int, world.entry_count as int).to_multiset()
            == table_entries(old, world.rowtype_offset as int, world.entry_count as int).to_multiset(),
        key_sorted(table_entries(new, world.rowtype_offset as int, world.entry_count as int)),
{
    lemma_sort_by_key(table_entries(old, world.rowtype_offset as int, world.entry_count as int));
}

/// Two images with the same table entries agree on every table byte.
proof fn lemma_table_bytes_determined(a: Seq<u8>, b: Seq<u8>, rt: int, n: int)
    requires
        0 <= rt,
        0 <= n,
        rt + 6 * n <= a.len(),
        rt + 6 * n <= b.len(),
        table_entries(a, rt, n) == table_entries(b, rt, n),
    ensures
        forall|k: int| #[trigger] in_table(k, rt, n) ==> a[k] == b[k],
{
    assert forall|k: int| #[trigger] in_table(k, rt, n) implies a[k] == b[k] by {
        let ea = table_entries(a, rt, n);
        let eb = table_entries(b, rt, n);
        if k < rt + n {
            let i = k - rt;
            assert(ea[i] == eb[i]);
            assert(ea[i].rowtype == a[k] && eb[i].rowtype == b[k]);
        } else if k < rt + 2 * n {
            let i = k - rt - n;
            assert(ea[i] == eb[i]);
            assert(ea[i].scrcol == a[k] && eb[i].scrcol == b[k]);
        } else if k < rt + 4 * n {
            let i = (k - rt - 2 * n) / 2;
            assert(0 <= i < n);
            assert(ea[i] == eb[i]);
            if k == rt + 2 * n + 2 * i {
                assert(ea[i].obj_lo == a[k] && eb[i].obj_lo == b[k]);
            } else {
                assert(k == rt + 2 * n + 2 * i + 1);
                assert(ea[i].obj_hi == a[k] && eb[i].obj_hi == b[k]);
            }
        } else {
            let i = (k - rt - 4 * n) / 2;
            assert(0 <= i < n);
            assert(ea[i] == eb[i]);
            if k == rt + 4 * n + 2 * i {
                assert(ea[i].lay_lo == a[k] && eb[i].lay_lo == b[k]);
            } else {
                assert(k == rt + 4 * n + 2 * i + 1);
                assert(ea[i].lay_hi == a[k] && eb[i].lay_hi == b[k]);
            }
        }
    }
}

/// Re-sorting a re-sorted table changes nothing, so long as the world's
/// InitIndex pointer lies outside the table and the InitIndex itself.
pub proof fn lemma_resort_idempotent(
    r0: Seq<u8>,
    r1: Seq<u8>,
    r2: Seq<u8>,
    world: WorldPointerTable,
    world_idx: int,
)
    requires
        resort_ok(r0, world, world_idx),
        resorted(r0, r1, world, world_idx),
        resorted(r1, r2, world, world_idx),
        ({
            let m = INIT_INDEX_MASTER + world_idx * 2;
            let init = init_index_file(r0, world_idx);
            let n = world.entry_count as int;
            let rt = world.rowtype_offset as int;
            &&& 0 <= world_idx
            &&& !in_table(m, rt, n) && !in_table(m + 1, rt, n)
            &&& !(init <= m < init + INIT_INDEX_LEN) && !(init <= m + 1 < init + INIT_INDEX_LEN)
        }),
    ensures
        r2 == r1,
{
    let n = world.entry_count as int;
    let rt = world.rowtype_offset as int;
    let m = INIT_INDEX_MASTER + world_idx * 2;
    assert(r1[m] == r0[m] && r1[m + 1] == r0[m + 1]);
    assert(init_index_file(r1, world_idx) == init_index_file(r0, world_idx));
    let sorted = sort_by_key(table_entries(r0, rt, n));
    lemma_sort_by_key(table_entries(r0, rt, n));
    lemma_sort_by_key_sorted(sorted);
    assert(table_entries(r2, rt, n) == table_entries(r1, rt, n));
    lemma_table_bytes_determined(r2, r1, rt, n);
    let init = init_index_file(r0, world_idx);
    assert forall|k: int| 0 <= k < r2.len() implies r2[k] == r1[k] by {
        if in_table(k, rt, n) {
        } else if init <= k < init + INIT_INDEX_LEN {
            let s = k - init;
            assert(r2[init + s] == first_on_screen(sorted, s) as u8);
            assert(r1[init + s] == first_on_screen(sorted, s) as u8);
        }
    }
    assert(r2 =~= r1);
}

} // verus!
