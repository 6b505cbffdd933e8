use smb3r::map_grid::{map_tile_offset, read_tile_grid, Grid};
use smb3r::overworld_pickup::{
    blank_tile_for, blank_tile_from_neighbors, default_pickup_pred, open_fx_gaps, pick_up, pick_up_world,
    CatalogEntry, FxSlot, NodeKind, NodeTiles, PickupFlags, PoolEntry,
};
use smb3r::rom::Rom;

const GRID: usize = 0x1A000;

fn tiles() -> NodeTiles {
    NodeTiles {
        blank: vec![0x44, 0x47, 0x48, 0x4A, 0xD9, 0xDC, 0xDD, 0xDE],
        horz: vec![0x45, 0xD5],
        vert: vec![0x46, 0xE8],
    }
}

fn empty_grid(cols: usize) -> Grid {
    Grid { rows: 9, cols, tiles: vec![0u8; 9 * cols] }
}

fn set(g: &mut Grid, r: usize, c: usize, t: u8) {
    let cols = g.cols;
    g.tiles[r * cols + c] = t;
}

fn entry(world: usize, idx: usize, pos: (usize, usize), kind: NodeKind, tile: u8) -> CatalogEntry {
    CatalogEntry { world_idx: world, entry_idx: idx, grid_pos: pos, kind, tile, level_entry: None }
}

#[test]
fn blank_node_follows_the_neighbouring_paths() {
    let s = tiles();
    let mut g = empty_grid(16);
    assert_eq!(blank_tile_from_neighbors(&g, &s, 0, 3, 5), 0x44);
    set(&mut g, 3, 4, 0x45);
    assert_eq!(blank_tile_from_neighbors(&g, &s, 0, 3, 5), 0x47);
    set(&mut g, 2, 5, 0x46);
    assert_eq!(blank_tile_from_neighbors(&g, &s, 0, 3, 5), 0x4A);
    set(&mut g, 3, 4, 0x00);
    assert_eq!(blank_tile_from_neighbors(&g, &s, 0, 3, 5), 0x48);
}

#[test]
fn sky_and_island_themes() {
    let s = tiles();
    let mut g = empty_grid(16);
    set(&mut g, 3, 4, 0xD5);
    assert_eq!(blank_tile_from_neighbors(&g, &s, 0, 3, 5), 0xDC);
    set(&mut g, 1, 5, 0xE8);
    assert_eq!(blank_tile_from_neighbors(&g, &s, 0, 2, 5), 0x48);
    // W3 3-2 sits on an island strip.
    assert_eq!(blank_tile_from_neighbors(&g, &s, 2, 2, 4), 0xB6);
    set(&mut g, 2, 3, 0x45);
    assert_eq!(blank_tile_from_neighbors(&g, &s, 2, 2, 4), 0xAE);
}

#[test]
fn blank_tile_keeps_blanks_and_honours_overrides() {
    let s = tiles();
    let mut g = empty_grid(32);
    set(&mut g, 4, 7, 0x48);
    assert_eq!(blank_tile_for(&g, &s, 0, 4, 7), 0x48);
    set(&mut g, 8, 6, 0x03);
    assert_eq!(blank_tile_for(&g, &s, 2, 8, 6), 0x47);
    set(&mut g, 6, 20, 0x03);
    assert_eq!(blank_tile_for(&g, &s, 4, 6, 20), 0xD9);
    assert_eq!(blank_tile_for(&g, &s, 0, 6, 20), 0x44);
}

#[test]
fn pickup_rule_by_kind_and_flags() {
    let off = PickupFlags { shuffle_spade_games: false, shuffle_toad_houses: false };
    let on = PickupFlags { shuffle_spade_games: true, shuffle_toad_houses: true };
    assert!(default_pickup_pred(&entry(0, 0, (0, 0), NodeKind::Level, 0x03), off));
    assert!(default_pickup_pred(&entry(0, 0, (0, 0), NodeKind::Fortress, 0x67), off));
    assert!(default_pickup_pred(
        &entry(0, 0, (0, 0), NodeKind::Pipe { dest_idx: 1, is_a_side: true }, 0xBC),
        off
    ));
    assert!(default_pickup_pred(&entry(0, 0, (0, 0), NodeKind::HammerBro, 0x44), off));
    assert!(!default_pickup_pred(&entry(0, 0, (0, 0), NodeKind::Airship, 0xC9), on));
    assert!(!default_pickup_pred(&entry(0, 0, (0, 0), NodeKind::Bowser, 0xCC), on));
    assert!(!default_pickup_pred(&entry(2, 0, (0, 0), NodeKind::HammerBro, 0x4B), on));
    assert!(!default_pickup_pred(&entry(0, 0, (0, 0), NodeKind::BonusGame, 0xE8), off));
    assert!(default_pickup_pred(&entry(0, 0, (0, 0), NodeKind::BonusGame, 0xE8), on));
    assert!(!default_pickup_pred(&entry(0, 0, (0, 0), NodeKind::ToadHouse, 0x50), off));
    assert!(default_pickup_pred(&entry(0, 0, (0, 0), NodeKind::ToadHouse, 0x50), on));
    assert!(!default_pickup_pred(&entry(0, 0, (0, 0), NodeKind::Start, 0x4C), on));
}

#[test]
fn fx_gaps_open_to_their_path_tiles() {
    let mut g = empty_grid(16);
    set(&mut g, 4, 4, 0x54);
    let slots = vec![
        FxSlot { grid_row: 4, grid_col: 4, replace_tile: 0x45 },
        FxSlot { grid_row: 20, grid_col: 4, replace_tile: 0x46 },
        FxSlot { grid_row: 1, grid_col: 1, replace_tile: 0x46 },
    ];
    open_fx_gaps(&mut g, &slots, &vec![0, 1]);
    assert_eq!(g.tiles[4 * 16 + 4], 0x45);
    assert_eq!(g.tiles[16 + 1], 0x00);
}

#[test]
fn grid_is_read_screen_by_screen() {
    let mut data = vec![0u8; 0x20000];
    data[GRID + 144 + 2 * 16 + 3] = 0x77;
    let rom = Rom::from_vec(data);
    let g = read_tile_grid(&rom, GRID, 2);
    assert_eq!((g.rows, g.cols), (9, 32));
    assert_eq!(g.tiles[2 * 32 + 19], 0x77);
    assert_eq!(map_tile_offset(GRID, 2, 19), GRID + 144 + 35);
}

#[test]
fn world_pickup_blanks_cells_and_fills_the_pool() {
    let mut data = vec![0u8; 0x20000];
    // Level 1 at (2, 5) with a horizontal path to its left; a fortress at
    // (4, 20) on screen 1; an FX gap at (6, 6).
    data[GRID + 2 * 16 + 4] = 0x45;
    data[GRID + 2 * 16 + 5] = 0x03;
    data[GRID + 144 + 4 * 16 + 4] = 0x67;
    data[GRID + 6 * 16 + 6] = 0x54;
    let rom = Rom::from_vec(data);
    let catalog = vec![
        entry(0, 0, (2, 5), NodeKind::Level, 0x03),
        entry(0, 1, (4, 20), NodeKind::Fortress, 0x67),
        entry(0, 2, (7, 7), NodeKind::Airship, 0xC9),
        entry(1, 3, (1, 1), NodeKind::Level, 0x03),
        entry(0, 4, (5, 40), NodeKind::HammerBro, 0x44),
    ];
    let mut pool = vec![PoolEntry { catalog_idx: 3, world_idx: 1, entry_idx: 3 }];
    let fx = vec![FxSlot { grid_row: 6, grid_col: 6, replace_tile: 0x46 }];
    let flags = PickupFlags { shuffle_spade_games: false, shuffle_toad_houses: false };
    let cw = pick_up_world(&rom, GRID, 2, &catalog, 0, &mut pool, flags, &fx, &vec![0], &tiles());

    assert_eq!(cw.world_idx, 0);
    assert_eq!(
        pool,
        vec![
            PoolEntry { catalog_idx: 3, world_idx: 1, entry_idx: 3 },
            PoolEntry { catalog_idx: 0, world_idx: 0, entry_idx: 0 },
            PoolEntry { catalog_idx: 1, world_idx: 0, entry_idx: 1 },
            PoolEntry { catalog_idx: 4, world_idx: 0, entry_idx: 4 },
        ]
    );
    assert_eq!(cw.pool_indices, vec![1, 2, 3]);
    assert_eq!(cw.pickup_positions, vec![(2, 5), (4, 20), (5, 40)]);
    let at = |r: usize, c: usize| cw.grid.tiles[r * 32 + c];
    assert_eq!(at(2, 5), 0x47);
    assert_eq!(at(4, 20), 0x44);
    assert_eq!(at(6, 6), 0x46);
    assert_eq!(at(7, 7), 0x00);
}

#[test]
fn every_world_is_picked_up_then_cellless_nodes_join_the_pool() {
    let mut data = vec![0u8; 0x20000];
    data[GRID + 3 * 16 + 3] = 0x03;
    data[GRID + 0x200 + 5 * 16 + 2] = 0x67;
    let rom = Rom::from_vec(data);
    let catalog = vec![
        entry(1, 0, (5, 2), NodeKind::Fortress, 0x67),
        entry(usize::MAX, usize::MAX, (0, 0), NodeKind::Level, 0x03),
        entry(0, 1, (3, 3), NodeKind::Level, 0x03),
        entry(usize::MAX, usize::MAX, (0, 0), NodeKind::Airship, 0xC9),
    ];
    let flags = PickupFlags { shuffle_spade_games: false, shuffle_toad_houses: false };
    let r = pick_up(&rom, &vec![(GRID, 1), (GRID + 0x200, 1)], &catalog, flags, &vec![], &vec![vec![], vec![]], &tiles());
    assert_eq!(
        r.pool,
        vec![
            PoolEntry { catalog_idx: 2, world_idx: 0, entry_idx: 1 },
            PoolEntry { catalog_idx: 0, world_idx: 1, entry_idx: 0 },
            PoolEntry { catalog_idx: 1, world_idx: usize::MAX, entry_idx: usize::MAX },
        ]
    );
    assert_eq!(r.worlds.len(), 2);
    assert_eq!(r.worlds[0].pool_indices, vec![0]);
    assert_eq!(r.worlds[1].pool_indices, vec![1]);
    assert_eq!(r.worlds[1].world_idx, 1);
    assert_eq!(r.worlds[0].grid.tiles[3 * 16 + 3], 0x44);
    assert_eq!(r.worlds[1].grid.tiles[5 * 16 + 2], 0x44);
}
