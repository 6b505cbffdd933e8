use rand::SeedableRng;
use rand_chacha::ChaCha8Rng;
use smb3r::map_grid::Grid;
use smb3r::overworld_build::{BuiltWorld, LockAssignment, LockHint, SlotAssignment, SlotKind};
use smb3r::overworld_pickup::{CatalogEntry, ClearedWorld, NodeKind, NodeTiles, PoolEntry};
use smb3r::overworld_writer::deal::{assign_pool, DealTables, WriteFlags};
use smb3r::overworld_writer::grid::{stamp_tile_grid, write_tile_grid, NodeStampTiles};
use smb3r::overworld_writer::plants::{pick_plant_positions, plant_budget, PiranhaMode};
use smb3r::overworld_writer::pointers::{placed_entries, write_pointer_entries, HbCycle, PipeAssignment};
use smb3r::overworld_writer::types::HammerBroAssignment;
use smb3r::overworld_writer::types::{Assignment, WorldAssignments};
use smb3r::pipe_helpers::{PointerEntry, WorldPointerTable};
use smb3r::rom::Rom;

const RT: usize = 0x19000;
const GRID: usize = 0x1A000;

fn level(rowtype: u8, obj: u16, lay: u16) -> PointerEntry {
    PointerEntry {
        rowtype,
        scrcol: 0,
        obj_lo: obj as u8,
        obj_hi: (obj >> 8) as u8,
        lay_lo: lay as u8,
        lay_hi: (lay >> 8) as u8,
    }
}

fn entry(world: usize, idx: usize, pos: (usize, usize), kind: NodeKind, tile: u8) -> CatalogEntry {
    CatalogEntry { world_idx: world, entry_idx: idx, grid_pos: pos, kind, tile, level_entry: None }
}

fn grid(cols: usize) -> Grid {
    Grid { rows: 9, cols, tiles: vec![0u8; 9 * cols] }
}

fn slot(pos: (usize, usize), kind: SlotKind, section: usize) -> SlotAssignment {
    SlotAssignment { pos, kind, section, is_hand_trap: false, is_troll_pipe: false, lock_hint: LockHint::Unhinted }
}

fn read_entry(rom: &Rom, n: usize, i: usize) -> (u8, u8, u16, u16) {
    (
        rom.read_byte(RT + i),
        rom.read_byte(RT + n + i),
        rom.read_word(RT + 2 * n + 2 * i),
        rom.read_word(RT + 4 * n + 2 * i),
    )
}

#[test]
fn pointer_entries_go_to_freed_slots_then_hammer_bros_fill_blanks() {
    let mut rom = Rom::from_vec(vec![0u8; 0x20000]);
    let table = WorldPointerTable { entry_count: 6, rowtype_offset: RT };
    let mut g = grid(32);
    // Blank nodes at (1, 2), (3, 4) and (5, 20); the airship keeps its
    // entry on (3, 4).
    g.tiles[32 + 2] = 0x44;
    g.tiles[3 * 32 + 4] = 0x44;
    g.tiles[5 * 32 + 20] = 0x47;
    let catalog = vec![entry(0, 5, (3, 4), NodeKind::Airship, 0xC9)];
    let placed = vec![(level(0x03, 0xA100, 0xB200), (2, 18))];
    let mut hb = HbCycle { levels: vec![level(0x02, 0xC640, 0xD000), level(0x05, 0xC700, 0xD100)], next: 1 };
    let slots = vec![1usize, 3, 4, 0];
    write_pointer_entries(&mut rom, &table, 0, &slots, &placed, &g, &vec![0x44, 0x47], &catalog, &mut hb);

    assert_eq!(read_entry(&rom, 6, 1), (0x43, 0x12, 0xA100, 0xB200));
    assert_eq!(read_entry(&rom, 6, 3), (0x35, 0x02, 0xC700, 0xD100));
    assert_eq!(read_entry(&rom, 6, 4), (0x72, 0x14, 0xC640, 0xD000));
    // No blank cell left: parked off the map.
    assert_eq!(read_entry(&rom, 6, 0), (0x05, 0x00, 0xC700, 0xD100));
    assert_eq!(hb.next, 0);
}

#[test]
fn placed_nodes_beyond_the_free_slots_are_dropped() {
    let mut rom = Rom::from_vec(vec![0u8; 0x20000]);
    let table = WorldPointerTable { entry_count: 4, rowtype_offset: RT };
    let placed = vec![(level(0x03, 0x1111, 0x2222), (0, 0)), (level(0x04, 0x3333, 0x4444), (1, 1))];
    let mut hb = HbCycle { levels: vec![], next: 0 };
    write_pointer_entries(&mut rom, &table, 0, &vec![2], &placed, &grid(16), &vec![], &vec![], &mut hb);
    assert_eq!(read_entry(&rom, 4, 2), (0x23, 0x00, 0x1111, 0x2222));
    assert_eq!(read_entry(&rom, 4, 0), (0, 0, 0, 0));
}

fn world4_assignments() -> WorldAssignments {
    WorldAssignments {
        fortress: vec![Assignment { pool_idx: 0, pos: (1, 1) }],
        level: vec![
            Assignment { pool_idx: 1, pos: (2, 2) },
            Assignment { pool_idx: 1, pos: (4, 4) },
            Assignment { pool_idx: 1, pos: (6, 6) },
        ],
        pipes: vec![PipeAssignment { pool_idx_a: 2, pool_idx_b: 3, dest_idx: 0, pos_a: (0, 8), pos_b: (8, 30) }],
        airship: None,
        bowser: None,
        bonus: vec![Assignment { pool_idx: 4, pos: (3, 3) }],
        toad: vec![Assignment { pool_idx: 5, pos: (5, 25) }, Assignment { pool_idx: 5, pos: (5, 5) }],
        hammer_bro: vec![],
        demoted_troll_pipes: vec![],
    }
}

fn world4_catalog() -> (Vec<PoolEntry>, Vec<CatalogEntry>) {
    let catalog = vec![
        entry(4, 0, (0, 0), NodeKind::Fortress, 0x67),
        entry(4, 1, (0, 0), NodeKind::Level, 0x03),
        entry(4, 2, (0, 0), NodeKind::Pipe { dest_idx: 0, is_a_side: true }, 0x5F),
        entry(4, 3, (0, 0), NodeKind::Pipe { dest_idx: 0, is_a_side: false }, 0xBC),
        entry(4, 4, (0, 0), NodeKind::BonusGame, 0xE8),
        entry(4, 5, (0, 0), NodeKind::ToadHouse, 0x50),
    ];
    let pool = (0..6).map(|i| PoolEntry { catalog_idx: i, world_idx: 4, entry_idx: i }).collect();
    (pool, catalog)
}

fn tile(rom: &Rom, r: usize, c: usize) -> u8 {
    rom.read_byte(GRID + (c / 16) * 144 + r * 16 + c % 16)
}

#[test]
fn tile_grid_stamps_every_node_and_numbers_levels_breadth_first() {
    let mut rom = Rom::from_vec(vec![0u8; 0x20000]);
    let mut g = grid(32);
    g.tiles[7 * 32 + 10] = 0x99;
    g.tiles[7 * 32 + 9] = 0x45;
    let wa = world4_assignments();
    let (pool, catalog) = world4_catalog();
    let mut slots = vec![slot((4, 4), SlotKind::Level, 0), slot((6, 6), SlotKind::Level, 0)];
    slots[0].is_hand_trap = true;
    slots[1].is_troll_pipe = true;
    let locks = vec![LockAssignment { pos: (0, 3), fort_section: 0, gap_tile: 0x54, secret_exit_safe: false }];
    let sets = NodeTiles { blank: vec![0x44], horz: vec![0x45], vert: vec![0x46] };
    let stamp = NodeStampTiles { pipe: 0xBC, bonus_game: 0xE8 };
    stamp_tile_grid(
        &mut rom, GRID, 4, &g, &wa, &pool, &catalog, &vec![1], stamp, &vec![(6, 6), (2, 2)], &slots, &locks,
        &vec![(7, 10)], &sets,
    );
    assert_eq!(tile(&rom, 1, 1), 0xEB);
    assert_eq!(tile(&rom, 0, 8), 0x5F);
    assert_eq!(tile(&rom, 8, 30), 0xBC);
    assert_eq!(tile(&rom, 3, 3), 0xE8);
    assert_eq!(tile(&rom, 5, 25), 0xE0);
    assert_eq!(tile(&rom, 5, 5), 0x50);
    // Breadth-first: the troll pipe at (6, 6) first, then (2, 2) takes
    // number 1; (4, 4) is a hand trap.
    assert_eq!(tile(&rom, 6, 6), 0xBC);
    assert_eq!(tile(&rom, 2, 2), 0x03);
    assert_eq!(tile(&rom, 4, 4), 0xE6);
    assert_eq!(tile(&rom, 0, 3), 0x54);
    assert_eq!(tile(&rom, 7, 10), 0x47);
}

#[test]
fn tile_grid_fortress_takes_a_fortress_tile() {
    let mut rom = Rom::from_vec(vec![0u8; 0x20000]);
    let wa = world4_assignments();
    let (pool, catalog) = world4_catalog();
    let sets = NodeTiles { blank: vec![], horz: vec![], vert: vec![] };
    let mut rng = ChaCha8Rng::seed_from_u64(7);
    write_tile_grid(
        &mut rom, GRID, 0, &grid(32), &wa, &pool, &catalog, NodeStampTiles { pipe: 0xBC, bonus_game: 0xE8 },
        &vec![], &vec![], &vec![], &vec![], &sets, &mut rng,
    );
    assert!([0x67, 0xEB, 0x6A].contains(&tile(&rom, 1, 1)));
    // Outside World 5 a toad house keeps its vanilla tile.
    assert_eq!(tile(&rom, 5, 25), 0x50);
    // Levels the search never reached are numbered in list order.
    assert_eq!((tile(&rom, 2, 2), tile(&rom, 4, 4), tile(&rom, 6, 6)), (0x03, 0x04, 0x05));
}

fn built(slots: Vec<SlotAssignment>, locks: Vec<LockAssignment>, sections: usize, pipes: Vec<((usize, usize), (usize, usize))>) -> BuiltWorld {
    BuiltWorld { world_idx: 0, grid: grid(16), slots, locks, section_count: sections, pipe_pairs: pipes, hb_sprites: vec![] }
}

fn deal_setup() -> (Vec<PoolEntry>, Vec<CatalogEntry>, Vec<BuiltWorld>, Vec<ClearedWorld>, DealTables) {
    let mut one_f = entry(0, 9, (1, 1), NodeKind::Fortress, 0x67);
    one_f.level_entry = Some(level(0x01, 0x1234, 0x5678));
    let catalog = vec![
        one_f,
        entry(1, 9, (1, 1), NodeKind::Fortress, 0x67),
        entry(0, 1, (2, 2), NodeKind::Level, 0x03),
        entry(1, 1, (2, 2), NodeKind::Level, 0x03),
        entry(7, 15, (2, 2), NodeKind::Level, 0x03),
        entry(0, 3, (4, 4), NodeKind::Pipe { dest_idx: 5, is_a_side: false }, 0xBC),
        entry(0, 4, (4, 9), NodeKind::Pipe { dest_idx: 5, is_a_side: true }, 0xBC),
        entry(0, 7, (7, 7), NodeKind::Airship, 0xC9),
        entry(7, 20, (3, 12), NodeKind::Bowser, 0xCC),
        entry(0, 8, (8, 8), NodeKind::BonusGame, 0xE8),
    ];
    let pool: Vec<PoolEntry> = (0..catalog.len())
        .map(|i| PoolEntry { catalog_idx: i, world_idx: catalog[i].world_idx, entry_idx: catalog[i].entry_idx })
        .collect();
    let mut w0_level = slot((5, 5), SlotKind::Level, 0);
    w0_level.is_troll_pipe = true;
    let mut builds = vec![
        built(
            vec![slot((1, 3), SlotKind::Fortress, 0), w0_level, slot((6, 1), SlotKind::BonusGame, 0)],
            vec![LockAssignment { pos: (1, 4), fort_section: 0, gap_tile: 0x54, secret_exit_safe: true }],
            1,
            vec![((3, 3), (3, 9))],
        ),
        built(
            vec![slot((2, 3), SlotKind::Fortress, 0), slot((2, 8), SlotKind::Level, 0)],
            vec![LockAssignment { pos: (2, 4), fort_section: 0, gap_tile: 0x54, secret_exit_safe: false }],
            1,
            vec![],
        ),
    ];
    for _ in 2..7 {
        builds.push(built(vec![], vec![], 0, vec![]));
    }
    builds.push(built(vec![slot((4, 4), SlotKind::Level, 0)], vec![], 0, vec![]));
    let cleared = (0..8)
        .map(|w| ClearedWorld { world_idx: w, grid: grid(16), pickup_positions: vec![], pool_indices: vec![] })
        .collect();
    let tables = DealTables {
        hb_levels: vec![],
        vanilla_hb_sprites: vec![vec![]; 8],
        fort_1f_obj: 0x1234,
        chest_levels: vec![(0, 1)],
        hand_levels: vec![(7, 14), (7, 15), (7, 16)],
    };
    (pool, catalog, builds, cleared, tables)
}

#[test]
fn deal_keeps_nodes_in_their_worlds_and_1f_on_a_safe_slot() {
    let (pool, catalog, builds, cleared, tables) = deal_setup();
    let mut rng = ChaCha8Rng::seed_from_u64(3);
    let flags = WriteFlags { cross_world: false, shuffle_hammer_bros: false, piranha: PiranhaMode::Off };
    let r = assign_pool(&pool, &catalog, &builds, &cleared, &tables, flags, &mut rng);
    assert_eq!(r.len(), 8);
    assert_eq!(r[0].fortress.iter().map(|a| (a.pool_idx, a.pos)).collect::<Vec<_>>(), vec![(0, (1, 3))]);
    assert_eq!(r[1].fortress.iter().map(|a| (a.pool_idx, a.pos)).collect::<Vec<_>>(), vec![(1, (2, 3))]);
    // World 1's only level is a chest level: the troll pipe is demoted.
    assert_eq!(r[0].level.iter().map(|a| (a.pool_idx, a.pos)).collect::<Vec<_>>(), vec![(2, (5, 5))]);
    assert_eq!(r[0].demoted_troll_pipes, vec![(5, 5)]);
    assert_eq!(r[1].level.iter().map(|a| (a.pool_idx, a.pos)).collect::<Vec<_>>(), vec![(3, (2, 8))]);
    assert_eq!(r[7].level.iter().map(|a| (a.pool_idx, a.pos)).collect::<Vec<_>>(), vec![(4, (4, 4))]);
    let p = &r[0].pipes[0];
    assert_eq!((p.pool_idx_a, p.pool_idx_b, p.dest_idx, p.pos_a, p.pos_b), (6, 5, 5, (3, 3), (3, 9)));
    assert_eq!(r[0].airship.map(|a| (a.pool_idx, a.pos)), Some((7, (7, 7))));
    assert!(r[1].airship.is_none());
    assert_eq!(r[7].bowser.map(|a| (a.pool_idx, a.pos)), Some((8, (3, 12))));
    assert_eq!(r[0].bonus.iter().map(|a| (a.pool_idx, a.pos)).collect::<Vec<_>>(), vec![(9, (6, 1))]);
}

#[test]
fn deal_across_worlds_still_puts_1f_on_the_safe_slot() {
    let (pool, catalog, builds, cleared, tables) = deal_setup();
    for seed in 0..8u64 {
        let mut rng = ChaCha8Rng::seed_from_u64(seed);
        let flags = WriteFlags { cross_world: true, shuffle_hammer_bros: false, piranha: PiranhaMode::Off };
        let r = assign_pool(&pool, &catalog, &builds, &cleared, &tables, flags, &mut rng);
        assert_eq!(r[0].fortress[0].pool_idx, 0);
        assert_eq!(r[1].fortress[0].pool_idx, 1);
        let mut levels: Vec<usize> = (0..8).flat_map(|w| r[w].level.iter().map(|a| a.pool_idx)).collect();
        levels.sort();
        assert_eq!(levels, vec![2, 3, 4]);
        // The troll pipe never fronts the chest level 1-1 (pool 2) unless demoted.
        if r[0].demoted_troll_pipes.is_empty() {
            assert_ne!(r[0].level[0].pool_idx, 2);
        }
    }
}

#[test]
fn placed_entries_list_nodes_in_writing_order() {
    let wa = WorldAssignments {
        fortress: vec![Assignment { pool_idx: 1, pos: (1, 1) }],
        level: vec![Assignment { pool_idx: 0, pos: (2, 2) }],
        pipes: vec![PipeAssignment { pool_idx_a: 2, pool_idx_b: 3, dest_idx: 0, pos_a: (3, 3), pos_b: (4, 4) }],
        airship: Some(Assignment { pool_idx: 4, pos: (5, 5) }),
        bowser: None,
        bonus: vec![],
        toad: vec![Assignment { pool_idx: 0, pos: (6, 6) }],
        hammer_bro: vec![HammerBroAssignment { pos: (7, 7), level_entry: level(0x02, 0xC640, 0xD000) }],
        demoted_troll_pipes: vec![],
    };
    let catalog: Vec<CatalogEntry> = (0..5u16)
        .map(|i| {
            let mut e = entry(0, i as usize, (0, 0), NodeKind::Level, 0x03);
            e.level_entry = Some(level(i as u8, 0x1000 + i, 0x2000 + i));
            e
        })
        .collect();
    let pool: Vec<PoolEntry> = (0..5).map(|i| PoolEntry { catalog_idx: i, world_idx: 0, entry_idx: i }).collect();
    let placed = placed_entries(&wa, &pool, &catalog);
    let got: Vec<(u16, (usize, usize))> =
        placed.iter().map(|(le, pos)| (u16::from_le_bytes([le.obj_lo, le.obj_hi]), *pos)).collect();
    assert_eq!(
        got,
        vec![
            (0x1001, (1, 1)),
            (0x1000, (2, 2)),
            (0x1002, (3, 3)),
            (0x1003, (4, 4)),
            (0x1000, (6, 6)),
            (0xC640, (7, 7)),
        ]
    );
}

#[test]
fn troll_pipe_never_fronts_a_listed_hand_level() {
    let (pool, catalog, mut builds, cleared, mut tables) = deal_setup();
    builds[7].slots[0].is_troll_pipe = true;
    let flags = WriteFlags { cross_world: false, shuffle_hammer_bros: false, piranha: PiranhaMode::Off };
    let mut rng = ChaCha8Rng::seed_from_u64(5);
    let r = assign_pool(&pool, &catalog, &builds, &cleared, &tables, flags, &mut rng);
    // World 8's only level is the hand level 8-15: the troll pipe is demoted.
    assert_eq!(r[7].level.iter().map(|a| (a.pool_idx, a.pos)).collect::<Vec<_>>(), vec![(4, (4, 4))]);
    assert_eq!(r[7].demoted_troll_pipes, vec![(4, 4)]);
    // Not listed as a hand level, it may stand behind the pipe.
    tables.hand_levels = vec![];
    let mut rng = ChaCha8Rng::seed_from_u64(5);
    let r = assign_pool(&pool, &catalog, &builds, &cleared, &tables, flags, &mut rng);
    assert!(r[7].demoted_troll_pipes.is_empty());
}

fn plant_world(levels: Vec<(usize, (usize, usize))>) -> WorldAssignments {
    WorldAssignments {
        fortress: vec![],
        level: levels.into_iter().map(|(pool_idx, pos)| Assignment { pool_idx, pos }).collect(),
        pipes: vec![],
        airship: None,
        bowser: None,
        bonus: vec![],
        toad: vec![],
        hammer_bro: vec![],
        demoted_troll_pipes: vec![],
    }
}

fn plant_flags(piranha: PiranhaMode) -> WriteFlags {
    WriteFlags { cross_world: false, shuffle_hammer_bros: false, piranha }
}

fn plant_setup() -> (Vec<BuiltWorld>, Vec<WorldAssignments>, Vec<PoolEntry>, Vec<(usize, usize)>) {
    let mut hand = slot((4, 4), SlotKind::Level, 0);
    hand.is_hand_trap = true;
    let mut builds: Vec<BuiltWorld> = (0..8).map(|_| built(vec![], vec![], 0, vec![])).collect();
    builds[2] = built(vec![hand], vec![], 0, vec![]);
    let mut worlds: Vec<WorldAssignments> = (0..8).map(|_| plant_world(vec![])).collect();
    // Plant levels are pool entries 0 and 1 (vanilla 7-12 and 7-13).
    worlds[0] = plant_world(vec![(5, (1, 1)), (0, (2, 2))]);
    worlds[2] = plant_world(vec![(1, (4, 4)), (6, (6, 6))]);
    worlds[7] = plant_world(vec![(1, (3, 3)), (0, (5, 5)), (7, (7, 7))]);
    let pool: Vec<PoolEntry> = (0..8)
        .map(|i| PoolEntry { catalog_idx: i, world_idx: if i < 2 { 6 } else { 0 }, entry_idx: if i < 2 { 12 + i } else { i } })
        .collect();
    (builds, worlds, pool, vec![(6, 12), (6, 13)])
}

#[test]
fn plant_budget_keeps_room_for_hammer_bros_and_spawns() {
    assert_eq!(plant_budget(6, 2, 2), 2);
    assert_eq!(plant_budget(3, 2, 2), 0);
    assert_eq!(plant_budget(4, 2, 2), 0);
}

#[test]
fn plants_follow_their_levels_while_budget_lasts() {
    let (builds, worlds, pool, links) = plant_setup();
    let budgets = vec![1, 1, 1, 1, 1, 1, 1, 1];
    let mut rng = ChaCha8Rng::seed_from_u64(1);
    let off = pick_plant_positions(&builds, &worlds, &pool, &links, &vec![], &budgets, plant_flags(PiranhaMode::Off), &mut rng);
    assert!(off.is_empty());
    let on = pick_plant_positions(&builds, &worlds, &pool, &links, &vec![], &budgets, plant_flags(PiranhaMode::On), &mut rng);
    // World 3's plant level sits on a hand trap; World 8 has budget for one.
    assert_eq!(on, vec![(0, (2, 2)), (7, (3, 3))]);
    // An army sprite on (3, 3) pushes World 8's plant to the next plant level.
    let on = pick_plant_positions(&builds, &worlds, &pool, &links, &vec![(3, 3)], &budgets, plant_flags(PiranhaMode::On), &mut rng);
    assert_eq!(on, vec![(0, (2, 2)), (7, (5, 5))]);
}

#[test]
fn wild_plants_take_one_hostable_level_per_world_with_budget() {
    let (builds, worlds, pool, links) = plant_setup();
    let budgets = vec![1, 0, 1, 1, 1, 1, 1, 2];
    for seed in 0..8u64 {
        let mut rng = ChaCha8Rng::seed_from_u64(seed);
        let wild = pick_plant_positions(&builds, &worlds, &pool, &links, &vec![], &budgets, plant_flags(PiranhaMode::Wild), &mut rng);
        assert_eq!(wild.len(), 3);
        assert_eq!(wild[0].0, 0);
        assert!([(1, 1), (2, 2)].contains(&wild[0].1));
        assert_eq!(wild[1], (2, (6, 6)));
        assert_eq!(wild[2].0, 7);
        assert!([(3, 3), (5, 5), (7, 7)].contains(&wild[2].1));
    }
}

#[test]
fn hammer_bros_fill_their_slots_up_to_the_entries_left() {
    let (pool, catalog, mut builds, mut cleared, mut tables) = deal_setup();
    builds[0].slots.push(slot((0, 8), SlotKind::HammerBro, 0));
    builds[0].slots.push(slot((0, 9), SlotKind::HammerBro, 0));
    builds[0].slots.push(slot((0, 10), SlotKind::HammerBro, 0));
    tables.hb_levels = vec![level(0x02, 0xC640, 0xD000), level(0x02, 0xC700, 0xD100)];
    // The sprite on (0, 9) is dealt first.
    tables.vanilla_hb_sprites[0] = vec![(0, 9)];
    let flags = WriteFlags { cross_world: false, shuffle_hammer_bros: false, piranha: PiranhaMode::Off };
    // World 1 uses five entries (fortress, level, two pipe ends, spade game).
    for (freed, expected) in [(5usize, 0usize), (7, 2), (20, 3)] {
        cleared[0].pool_indices = (0..freed).collect();
        let mut rng = ChaCha8Rng::seed_from_u64(9);
        let r = assign_pool(&pool, &catalog, &builds, &cleared, &tables, flags, &mut rng);
        let cells: Vec<(usize, usize)> = r[0].hammer_bro.iter().map(|h| h.pos).collect();
        let order = vec![(0, 9), (0, 8), (0, 10)];
        assert_eq!(cells, order[..expected].to_vec(), "freed {freed}");
    }
}

#[test]
fn spade_games_run_out_world_by_world() {
    let (pool, catalog, mut builds, cleared, tables) = deal_setup();
    // One spade card in the pool: World 1's slot takes it, World 2's stays empty.
    builds[1].slots.push(slot((7, 1), SlotKind::BonusGame, 0));
    let flags = WriteFlags { cross_world: false, shuffle_hammer_bros: false, piranha: PiranhaMode::Off };
    let mut rng = ChaCha8Rng::seed_from_u64(2);
    let r = assign_pool(&pool, &catalog, &builds, &cleared, &tables, flags, &mut rng);
    assert_eq!(r[0].bonus.len(), 1);
    assert!(r[1].bonus.is_empty());
    assert!(r[0].airship.is_some());
    assert!(r[7].bowser.is_some());
}
