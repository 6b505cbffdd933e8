use smb3r::pipe_helpers::{
    grid_pos_to_dest_nibbles, resort_pointer_table, scroll_nibble, write_pipe_dest,
    PipeDestTables, WorldPointerTable, INIT_INDEX_MASTER, PRG012_FILE_BASE,
};
use smb3r::rom::Rom;

fn blank_rom() -> Rom {
    let mut data = vec![0u8; 393232];
    data[0..4].copy_from_slice(&[0x4E, 0x45, 0x53, 0x1A]);
    data[4] = 16;
    data[5] = 16;
    data[6] = 0x40;
    Rom::from_vec(data)
}

fn tables() -> PipeDestTables {
    PipeDestTables { xhi: 0x100, x: 0x120, y: 0x140, scrl_xhi: 0x160 }
}

#[test]
fn dest_nibbles_split_screen_column_and_row() {
    assert_eq!(grid_pos_to_dest_nibbles(3, 20), (1, 4, 5));
    assert_eq!(grid_pos_to_dest_nibbles(0, 0), (0, 0, 2));
    assert_eq!(grid_pos_to_dest_nibbles(8, 63), (3, 15, 10));
}

#[test]
fn scroll_nibble_keeps_player_off_the_pan_edges() {
    assert_eq!(scroll_nibble(0, 1, false), 0);
    assert_eq!(scroll_nibble(1, 1, false), 0x8);
    assert_eq!(scroll_nibble(2, 2, false), 0x9);
    assert_eq!(scroll_nibble(2, 3, false), 2);
    assert_eq!(scroll_nibble(1, 14, false), 0x9);
    assert_eq!(scroll_nibble(1, 13, false), 1);
    assert_eq!(scroll_nibble(3, 1, true), 3);
    assert_eq!(scroll_nibble(3, 15, true), 3);
}

#[test]
fn pipe_dest_packs_both_endpoints() {
    let mut rom = blank_rom();
    write_pipe_dest(&mut rom, &tables(), 3, (3, 20), (6, 33), 0);
    assert_eq!(rom.read_byte(0x103), 0x12);
    assert_eq!(rom.read_byte(0x123), 0x41);
    assert_eq!(rom.read_byte(0x143), 0x58);
    assert_eq!(rom.read_byte(0x163), 0x19);
    assert_eq!(rom.read_byte(0x102), 0);
    assert_eq!(rom.read_byte(0x104), 0);
}

#[test]
fn discrete_worlds_never_centre_the_camera() {
    for world in [4usize, 7] {
        let mut rom = blank_rom();
        write_pipe_dest(&mut rom, &tables(), 0, (3, 20), (6, 33), world);
        assert_eq!(rom.read_byte(0x160), 0x12);
    }
}

/// A world table of `entries` (rowtype, scrcol, obj word, layout word) at
/// 0x18200, with its InitIndex at 0x18110 through master slot `world_idx`.
fn rom_with_table(world_idx: usize, entries: &[(u8, u8, u16, u16)]) -> (Rom, WorldPointerTable) {
    let mut rom = blank_rom();
    rom.write_range(INIT_INDEX_MASTER + world_idx * 2, &[0x00, 0xA1]);
    let n = entries.len();
    let rt = 0x18200;
    for (i, &(rowtype, scrcol, obj, lay)) in entries.iter().enumerate() {
        rom.write_byte(rt + i, rowtype);
        rom.write_byte(rt + n + i, scrcol);
        rom.write_range(rt + 2 * n + 2 * i, &obj.to_le_bytes());
        rom.write_range(rt + 4 * n + 2 * i, &lay.to_le_bytes());
    }
    (rom, WorldPointerTable { entry_count: n, rowtype_offset: rt })
}

fn read_entries(rom: &Rom, world: &WorldPointerTable) -> Vec<(u8, u8, u16, u16)> {
    let n = world.entry_count;
    let rt = world.rowtype_offset;
    (0..n)
        .map(|i| {
            (
                rom.read_byte(rt + i),
                rom.read_byte(rt + n + i),
                rom.read_word(rt + 2 * n + 2 * i),
                rom.read_word(rt + 4 * n + 2 * i),
            )
        })
        .collect()
}

const SAMPLE: [(u8, u8, u16, u16); 6] = [
    (0x52, 0x13, 0xA111, 0xB111),
    (0x31, 0x07, 0xA222, 0xB222),
    (0x42, 0x13, 0xA333, 0xB333),
    (0x23, 0x2A, 0xA444, 0xB444),
    (0x44, 0x05, 0xA555, 0xB555),
    (0x35, 0x07, 0xA666, 0xB666),
];

#[test]
fn test_resort_preserves_data() {
    for world_idx in 0..8 {
        let (mut rom, world) = rom_with_table(world_idx, &SAMPLE);
        let mut original = read_entries(&rom, &world);
        resort_pointer_table(&mut rom, &world, world_idx);
        let mut sorted = read_entries(&rom, &world);
        original.sort();
        sorted.sort();
        assert_eq!(original, sorted, "World {} resort lost or gained entries", world_idx + 1);
    }
}

#[test]
fn resort_orders_by_screen_row_column_and_rebuilds_init_index() {
    let (mut rom, world) = rom_with_table(2, &SAMPLE);
    resort_pointer_table(&mut rom, &world, 2);
    assert_eq!(
        read_entries(&rom, &world),
        vec![
            (0x31, 0x07, 0xA222, 0xB222),
            (0x35, 0x07, 0xA666, 0xB666),
            (0x44, 0x05, 0xA555, 0xB555),
            (0x42, 0x13, 0xA333, 0xB333),
            (0x52, 0x13, 0xA111, 0xB111),
            (0x23, 0x2A, 0xA444, 0xB444),
        ]
    );
    let init = PRG012_FILE_BASE + 0x100;
    assert_eq!(rom.read_range(init, 4), &[0, 3, 5, 6]);
}

#[test]
fn resorting_twice_changes_nothing_more() {
    let (mut rom, world) = rom_with_table(5, &SAMPLE);
    resort_pointer_table(&mut rom, &world, 5);
    let once = rom.read_range(0, 393232).to_vec();
    resort_pointer_table(&mut rom, &world, 5);
    assert!(rom.read_range(0, 393232) == &once[..]);
}
