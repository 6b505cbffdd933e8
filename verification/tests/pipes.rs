use smb3r::pipe_helpers::{write_pipe_dest, PipeDestTables, WorldPointerTable, INIT_INDEX_MASTER};
use smb3r::pipes::{
    apply_pipe_shuffle, classify_entry, get_must_reach, get_pipe_pairs, get_swappable_positions,
    match_pairs_to_dests, read_all_entries, read_dest_positions, swap_entry_positions, EntryType,
    PipeWorld,
};
use smb3r::rom::Rom;

const RT: usize = 0x19000;
const GRID: usize = 0x19200;

fn tables() -> PipeDestTables {
    PipeDestTables { xhi: 0x19100, x: 0x19110, y: 0x19120, scrl_xhi: 0x19130 }
}

fn world() -> PipeWorld {
    PipeWorld {
        table: WorldPointerTable { entry_count: 6, rowtype_offset: RT },
        grid_offset: GRID,
        screens: 4,
        fortress_entries: vec![],
        airship_entries: vec![3],
        transition_entries: vec![],
        bowser_entry: None,
        dest_indices: vec![2],
    }
}

/// (rowtype, scrcol, obj, lay) of the six test entries: a pipe pair on
/// 0xA100, a level, an airship, a lone pipe and a toad house.
const ENTRIES: [(u8, u8, u16, u16); 6] = [
    (0x3E, 0x02, 0xA100, 0x0000),
    (0x5E, 0x1A, 0xA100, 0x0000),
    (0x41, 0x05, 0xC123, 0xD000),
    (0x62, 0x17, 0xC200, 0xD100),
    (0x4E, 0x2C, 0xA200, 0x0000),
    (0x33, 0x09, 0x0700, 0x0000),
];

fn make_rom() -> Rom {
    let mut data = vec![0u8; 393232];
    data[0..4].copy_from_slice(&[0x4E, 0x45, 0x53, 0x1A]);
    let n = ENTRIES.len();
    for (i, &(rt, sc, obj, lay)) in ENTRIES.iter().enumerate() {
        data[RT + i] = rt;
        data[RT + n + i] = sc;
        data[RT + 2 * n + 2 * i..RT + 2 * n + 2 * i + 2].copy_from_slice(&obj.to_le_bytes());
        data[RT + 4 * n + 2 * i..RT + 4 * n + 2 * i + 2].copy_from_slice(&lay.to_le_bytes());
    }
    // Destination 2 joins the pipe pair: A at (1, 2), B at (3, 26).
    data[0x19102] = 0x01;
    data[0x19112] = 0x2A;
    data[0x19122] = 0x35;
    // Grid tiles under the pipes, the level and the toad house.
    data[GRID + 18] = 0xBC;
    data[GRID + 144 + 3 * 16 + 10] = 0xBC;
    data[GRID + 2 * 16 + 5] = 0x03;
    data[GRID + 16 + 9] = 0x50;
    // World 1's InitIndex pointer: $A500, file offset 0x1A510.
    data[INIT_INDEX_MASTER..INIT_INDEX_MASTER + 2].copy_from_slice(&[0x00, 0xA5]);
    Rom::from_vec(data)
}

#[test]
fn entries_are_read_and_classified() {
    let rom = make_rom();
    let w = world();
    let es = read_all_entries(&rom, &w);
    assert_eq!(es.len(), 6);
    assert_eq!((es[1].grid_row, es[1].grid_col), (3, 26));
    assert_eq!((es[1].tileset, es[1].row_nib, es[1].screen, es[1].col), (14, 5, 1, 10));
    assert_eq!(es[2].obj_ptr, 0xC123);
    assert_eq!(es[2].lay_ptr, 0xD000);
    let kinds: Vec<EntryType> = es.iter().map(|e| classify_entry(&w, e)).collect();
    assert_eq!(
        kinds,
        vec![
            EntryType::Pipe,
            EntryType::Pipe,
            EntryType::Level,
            EntryType::Airship,
            EntryType::Pipe,
            EntryType::Toad,
        ]
    );
}

#[test]
fn only_pipes_sharing_a_pointer_pair_up() {
    let rom = make_rom();
    let pairs = get_pipe_pairs(&rom, &world());
    assert_eq!(pairs.len(), 1);
    assert_eq!((pairs[0].0.index, pairs[0].1.index), (0, 1));
}

#[test]
fn swappable_positions_skip_airships_and_the_start() {
    let rom = make_rom();
    let all = get_swappable_positions(&rom, &world(), None);
    let idx: Vec<usize> = all.iter().map(|p| p.entry_index).collect();
    assert_eq!(idx, vec![0, 1, 2, 4, 5]);
    let no_start = get_swappable_positions(&rom, &world(), Some((2, 5)));
    let idx: Vec<usize> = no_start.iter().map(|p| p.entry_index).collect();
    assert_eq!(idx, vec![0, 1, 4, 5]);
    assert_eq!(get_must_reach(&rom, &world()), vec![(4, 23)]);
}

#[test]
fn hammer_bro_duplicates_are_not_swappable() {
    let mut rom = make_rom();
    // Entry 5 becomes a second copy of entry 2's level.
    let n = 6;
    rom.write_range(RT + 2 * n + 10, &0xC123u16.to_le_bytes());
    rom.write_range(RT + 4 * n + 10, &0xD000u16.to_le_bytes());
    let idx: Vec<usize> =
        get_swappable_positions(&rom, &world(), None).iter().map(|p| p.entry_index).collect();
    assert_eq!(idx, vec![0, 1, 4]);
}

#[test]
fn pairs_match_their_destination_index() {
    let rom = make_rom();
    let w = world();
    let pairs = get_pipe_pairs(&rom, &w);
    assert_eq!(match_pairs_to_dests(&rom, &tables(), &w, &pairs), vec![(2, 0, 1)]);
}

#[test]
fn test_swap_preserves_tileset() {
    let mut rom = make_rom();
    let w = world();
    let ts_0 = rom.read_byte(RT) & 0x0F;
    let ts_2 = rom.read_byte(RT + 2) & 0x0F;
    let row_0 = rom.read_byte(RT) >> 4;
    let row_2 = rom.read_byte(RT + 2) >> 4;

    swap_entry_positions(&mut rom, &w, 0, 2);

    assert_eq!(rom.read_byte(RT) & 0x0F, ts_0, "Entry 0 tileset changed after swap");
    assert_eq!(rom.read_byte(RT + 2) & 0x0F, ts_2, "Entry 2 tileset changed after swap");
    assert_eq!(rom.read_byte(RT) >> 4, row_2, "Entry 0 should have entry 2's row");
    assert_eq!(rom.read_byte(RT + 2) >> 4, row_0, "Entry 2 should have entry 0's row");
    assert_eq!(rom.read_byte(RT + 6), 0x05);
    assert_eq!(rom.read_byte(RT + 8), 0x02);
    assert_eq!(rom.read_byte(GRID + 18), 0x03);
    assert_eq!(rom.read_byte(GRID + 37), 0xBC);
}

#[test]
fn shuffle_moves_pipes_writes_destinations_and_resorts() {
    let mut rom = make_rom();
    let w = world();
    let pairs = get_pipe_pairs(&rom, &w);
    apply_pipe_shuffle(&mut rom, &w, &tables(), 0, &pairs, &vec![((2, 5), (1, 9))]);

    assert_eq!(rom.read_range(RT, 6), &[0x31, 0x3E, 0x4E, 0x53, 0x62, 0x4E]);
    assert_eq!(rom.read_range(RT + 6, 6), &[0x02, 0x09, 0x05, 0x1A, 0x17, 0x2C]);
    let objs: Vec<u16> = (0..6).map(|i| rom.read_word(RT + 12 + 2 * i)).collect();
    assert_eq!(objs, vec![0xC123, 0xA100, 0xA100, 0x0700, 0xC200, 0xA200]);
    // InitIndex: first entry of screens 0, 1 and 2; screen 3 has none.
    assert_eq!(rom.read_range(0x1A510, 4), &[0, 3, 5, 0]);

    assert_eq!(rom.read_byte(0x19102), 0x00);
    assert_eq!(rom.read_byte(0x19112), 0x59);
    assert_eq!(rom.read_byte(0x19122), 0x43);
    assert_eq!(rom.read_byte(0x19132), 0x00);

    assert_eq!(rom.read_byte(GRID + 18), 0x03);
    assert_eq!(rom.read_byte(GRID + 37), 0xBC);
    assert_eq!(rom.read_byte(GRID + 25), 0xBC);
    assert_eq!(rom.read_byte(GRID + 202), 0x50);
}

#[test]
fn shuffle_with_mismatched_placements_writes_nothing() {
    let mut rom = make_rom();
    let before = rom.as_bytes().to_vec();
    let w = world();
    let pairs = get_pipe_pairs(&rom, &w);
    apply_pipe_shuffle(&mut rom, &w, &tables(), 0, &pairs, &vec![((2, 5), (1, 9)), ((0, 0), (0, 1))]);
    assert_eq!(rom.as_bytes(), &before[..]);
}

#[test]
fn written_destination_reads_back() {
    let mut rom = make_rom();
    write_pipe_dest(&mut rom, &tables(), 4, (7, 45), (0, 3), 2);
    assert_eq!(read_dest_positions(&rom, &tables(), 4), ((7, 45), (0, 3)));
}
