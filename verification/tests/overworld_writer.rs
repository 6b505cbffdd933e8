use smb3r::overworld_writer::march_veto::{
    march_veto_fits, veto_addr, write_march_veto, DISPLACED_JSR, LIST_LEN, MARCH_VETO_HOOK, OFFSETS_LEN,
    PRG011_FILE_BASE, ROUTINE_LEN,
};
use smb3r::overworld_writer::metatiles::{
    patch_double_digit_metatiles, patch_fortress_fx_screen_check, patch_metatile_6a_freeze,
    CHR_START, DIGIT_1_LL, FS_FX_SCREEN_CHECK, FX_HOOK_OFFSET, FX_SCREEN_CHECK_LEN,
    METATILE_LL_BASE, TILE_FD_OFFSET,
};
use rand::SeedableRng;
use rand_chacha::ChaCha8Rng;
use smb3r::overworld_writer::assign::interleave_hb_by_obj_ptr;
use smb3r::overworld_writer::pointers::{write_pipe_dests, PipeAssignment};
use smb3r::pipe_helpers::{PipeDestTables, PointerEntry};
use smb3r::overworld_writer::sprites::{
    pick_w8_sprite_positions, w8_army_sprites, write_plant_sprites, write_w8_sprites, MapObjectSlot,
};
use smb3r::rom::Rom;

/// The PRG011 free-space block used for the veto in these tests.
const VETO_BASE: usize = 0x17F00;

fn blank_data() -> Vec<u8> {
    let mut data = vec![0u8; 393232];
    data[0..4].copy_from_slice(&[0x4E, 0x45, 0x53, 0x1A]);
    data[4] = 16;
    data[5] = 16;
    data[6] = 0x40;
    data
}

fn veto_rom() -> Rom {
    let mut data = blank_data();
    data[MARCH_VETO_HOOK..MARCH_VETO_HOOK + 3].copy_from_slice(&DISPLACED_JSR);
    Rom::from_vec(data)
}

fn read_veto_registry(rom: &Rom) -> Vec<Vec<u16>> {
    let offs = rom.read_range(VETO_BASE + ROUTINE_LEN, OFFSETS_LEN).to_vec();
    let list = rom.read_range(VETO_BASE + ROUTINE_LEN + OFFSETS_LEN, LIST_LEN).to_vec();
    offs.iter()
        .map(|&o| {
            let mut v = Vec::new();
            let mut i = o as usize;
            while list[i] != 0 {
                v.push(u16::from_be_bytes([list[i], list[i + 1]]));
                i += 2;
            }
            v
        })
        .collect()
}

fn assert_veto_hook_installed(rom: &Rom) {
    let hook = rom.read_range(MARCH_VETO_HOOK, 3);
    assert_eq!(hook[0], 0x20, "hook must be a JSR");
    let cpu = u16::from_le_bytes([hook[1], hook[2]]);
    assert_eq!(
        PRG011_FILE_BASE + (cpu as usize - 0xA000),
        VETO_BASE,
        "hook JSR must land on the veto trampoline"
    );
    assert_eq!(
        rom.read_range(VETO_BASE, 3),
        DISPLACED_JSR,
        "trampoline must start with the displaced PickTravel JSR"
    );
}

#[test]
fn test_march_veto_registry_roundtrip() {
    let mut test_rom = veto_rom();
    let w8 = vec![(2usize, (4usize, 6usize)), (3, (2, 20))];
    let plants = vec![(0usize, (2usize, 3usize)), (7, (4, 6))];
    write_march_veto(&mut test_rom, VETO_BASE, &w8, &plants);

    assert_veto_hook_installed(&test_rom);

    let registry = read_veto_registry(&test_rom);
    assert_eq!(registry[0], vec![veto_addr(2, 3)]);
    let w7 = &registry[7];
    assert!(w7.contains(&veto_addr(4, 6)));
    assert!(w7.contains(&veto_addr(2, 20)));
    assert_eq!(w7.len(), 2, "duplicate army/plant coordinate must dedup");
    for (wi, list) in registry.iter().enumerate().take(7).skip(1) {
        assert!(list.is_empty(), "world {} should have no entries", wi + 1);
    }
    for addr in registry.iter().flatten() {
        assert!(
            (0x6110..=0x66AF).contains(addr),
            "veto address {addr:#06X} outside the map tile SRAM window"
        );
    }
}

#[test]
fn test_march_veto_addr_matches_engine_tile_mem_table() {
    // The engine's Tile_Mem_Addr word table (PRG030, file 0x3C010): one
    // screen of map tiles every $1B0 bytes from $6000.
    let mut data = blank_data();
    for s in 0..4usize {
        let w = (0x6000 + 0x1B0 * s) as u16;
        data[0x3C010 + 2 * s..0x3C010 + 2 * s + 2].copy_from_slice(&w.to_le_bytes());
    }
    let rom = Rom::from_vec(data);
    for &(row, col) in &[(0usize, 0usize), (2, 3), (4, 19), (7, 35), (8, 63)] {
        let word_off = 0x3C010 + 2 * (col / 16);
        let screen_base = u16::from_le_bytes([rom.read_byte(word_off), rom.read_byte(word_off + 1)]);
        let expected = screen_base + 0xF0 + ((((row as u16) + 2) * 16) | (col as u16 % 16));
        assert_eq!(
            veto_addr(row, col),
            expected,
            "veto_addr({row}, {col}) diverges from the engine formula"
        );
    }
}

#[test]
fn veto_addr_exact_values() {
    assert_eq!(veto_addr(0, 0), 0x6110);
    assert_eq!(veto_addr(2, 3), 0x6133);
    assert_eq!(veto_addr(8, 63), 0x66AF);
}

#[test]
fn empty_registry_still_installs_hand_trap_veto() {
    let mut rom = veto_rom();
    write_march_veto(&mut rom, VETO_BASE, &[], &[]);
    assert_veto_hook_installed(&rom);
    let registry = read_veto_registry(&rom);
    assert!(registry.iter().all(|l| l.is_empty()));
    assert_eq!(rom.read_range(VETO_BASE + ROUTINE_LEN, OFFSETS_LEN), &[0, 1, 2, 3, 4, 5, 6, 7]);
    // LDA (Map_Tile_Addr),Y / CMP #$E6: the hand-trap check.
    assert_eq!(rom.read_range(VETO_BASE + 5, 4), &[0xB1, 0x63, 0xC9, 0xE6]);
}

#[test]
fn registry_lists_are_sorted_and_laid_out_per_world() {
    let mut rom = veto_rom();
    let w8 = vec![(0usize, (6usize, 40usize)), (1, (2, 4)), (2, (6, 40))];
    let plants = vec![(3usize, (4usize, 9usize)), (3, (0, 1)), (7, (1, 1))];
    write_march_veto(&mut rom, VETO_BASE, &w8, &plants);
    let registry = read_veto_registry(&rom);
    assert_eq!(registry[3], vec![veto_addr(0, 1), veto_addr(4, 9)]);
    assert_eq!(registry[7], vec![veto_addr(1, 1), veto_addr(2, 4), veto_addr(6, 40)]);
    let offs = rom.read_range(VETO_BASE + ROUTINE_LEN, OFFSETS_LEN).to_vec();
    assert_eq!(offs, vec![0, 1, 2, 3, 8, 9, 10, 11]);
}

#[test]
fn double_digit_metatiles_point_at_the_new_digit() {
    let mut rom = Rom::from_vec(blank_data());
    patch_double_digit_metatiles(&mut rom);
    assert_eq!(rom.read_range(TILE_FD_OFFSET, 16), &DIGIT_1_LL);
    for tile in 0x0Dusize..=0x15 {
        assert_eq!(rom.read_byte(METATILE_LL_BASE + tile), 0xFD);
    }
    assert_eq!(rom.read_byte(METATILE_LL_BASE + 0x0C), 0);
    assert_eq!(rom.read_byte(METATILE_LL_BASE + 0x16), 0);
    assert_eq!(TILE_FD_OFFSET, CHR_START + 0x17 * 0x400 + 0x3D * 16);
}

#[test]
fn metatile_6a_frames_copy_the_base_page() {
    let mut data = blank_data();
    let base = CHR_START + 0x15 * 0x400 + 0x24 * 16;
    for i in 0..64 {
        data[base + i] = (i as u8).wrapping_mul(7) | 1;
    }
    let mut rom = Rom::from_vec(data);
    patch_metatile_6a_freeze(&mut rom);
    let want = rom.read_range(base, 64).to_vec();
    for page in [0x71usize, 0x73, 0x75] {
        let off = CHR_START + page * 0x400 + 0x24 * 16;
        assert_eq!(rom.read_range(off, 64), &want[..]);
        assert_eq!(rom.read_byte(off - 1), 0);
        assert_eq!(rom.read_byte(off + 64), 0);
    }
}

#[test]
fn fortress_fx_screen_check_hooks_and_installs_routine() {
    let mut rom = Rom::from_vec(blank_data());
    patch_fortress_fx_screen_check(&mut rom);
    assert_eq!(rom.read_range(FX_HOOK_OFFSET, 3), &[0x4C, 0x44, 0xD5]);
    let code = rom.read_range(FS_FX_SCREEN_CHECK, FX_SCREEN_CHECK_LEN);
    assert_eq!(&code[0..6], &[0xAC, 0x45, 0x07, 0xB9, 0x56, 0xC8]);
    assert_eq!(&code[FX_SCREEN_CHECK_LEN - 3..], &[0x4C, 0xEA, 0xC8]);
    assert_eq!(rom.read_byte(FS_FX_SCREEN_CHECK + FX_SCREEN_CHECK_LEN), 0);
}

#[test]
fn w8_army_takes_one_level_and_three_fortresses() {
    let forts = vec![(1usize, 4usize), (3, 20), (5, 36), (7, 52)];
    let levels = vec![(2usize, 8usize), (4, 30)];
    for seed in 0..20u64 {
        let mut rng = ChaCha8Rng::seed_from_u64(seed);
        let placed = pick_w8_sprite_positions(&forts, &levels, &mut rng);
        assert_eq!(placed.len(), 4);
        let slots: Vec<usize> = placed.iter().map(|p| p.0).collect();
        assert_eq!(slots, vec![2, 3, 4, 5]);
        assert!(levels.contains(&placed[0].1));
        for p in &placed[1..] {
            assert!(forts.contains(&p.1));
        }
        assert!(placed[1].1 != placed[2].1 && placed[2].1 != placed[3].1 && placed[1].1 != placed[3].1);
    }
}

#[test]
fn w8_army_skips_sprites_without_a_node() {
    let mut rng = ChaCha8Rng::seed_from_u64(5);
    let placed = pick_w8_sprite_positions(&vec![(1, 4)], &vec![], &mut rng);
    assert_eq!(placed, vec![(3, (1, 4))]);
    assert_eq!(w8_army_sprites(), [(2, false), (3, true), (4, true), (5, true)]);
}

fn hb_entry(obj: u16, lay: u16) -> PointerEntry {
    PointerEntry {
        rowtype: 0x40,
        scrcol: 0x00,
        obj_lo: (obj & 0xFF) as u8,
        obj_hi: (obj >> 8) as u8,
        lay_lo: (lay & 0xFF) as u8,
        lay_hi: (lay >> 8) as u8,
    }
}

fn obj(e: &PointerEntry) -> u16 {
    e.obj_lo as u16 | (e.obj_hi as u16) << 8
}

fn hb_pool() -> Vec<PointerEntry> {
    let mut pool: Vec<PointerEntry> = (0..8).map(|i| hb_entry(0xC640, 0xA000 + i)).collect();
    pool.push(hb_entry(0xC700, 0xA100));
    pool.push(hb_entry(0xC700, 0xA101));
    pool.push(hb_entry(0xC800, 0xA200));
    pool.push(hb_entry(0xC900, 0xA300));
    pool.push(hb_entry(0xCA00, 0xA400));
    pool
}

#[test]
fn hb_pool_shows_every_enemy_set_before_repeats() {
    for seed in 0..10u64 {
        let mut rng = ChaCha8Rng::seed_from_u64(seed);
        let out = interleave_hb_by_obj_ptr(hb_pool(), &mut rng);
        assert_eq!(out.len(), 13);
        let first: Vec<u16> = out[..5].iter().map(obj).collect();
        let mut distinct = first.clone();
        distinct.sort();
        distinct.dedup();
        assert_eq!(distinct, vec![0xC640, 0xC700, 0xC800, 0xC900, 0xCA00]);
        // Second round: the two keys with more than one entry.
        let second: Vec<u16> = out[5..7].iter().map(obj).collect();
        let mut second_sorted = second.clone();
        second_sorted.sort();
        assert_eq!(second_sorted, vec![0xC640, 0xC700]);
        // Then the rest of the 0xC640 group, one per round.
        assert!(out[7..].iter().all(|e| obj(e) == 0xC640));
        // A permutation of the pool.
        let mut a: Vec<(u16, u8, u8)> = out.iter().map(|e| (obj(e), e.lay_lo, e.lay_hi)).collect();
        let mut b: Vec<(u16, u8, u8)> = hb_pool().iter().map(|e| (obj(e), e.lay_lo, e.lay_hi)).collect();
        a.sort();
        b.sort();
        assert_eq!(a, b);
    }
}

#[test]
fn hb_pool_empty_stays_empty() {
    let mut rng = ChaCha8Rng::seed_from_u64(1);
    assert!(interleave_hb_by_obj_ptr(Vec::new(), &mut rng).is_empty());
}

#[test]
fn pipe_dests_are_written_for_every_pair() {
    let tables = PipeDestTables { xhi: 0x100, x: 0x120, y: 0x140, scrl_xhi: 0x160 };
    let pipes = vec![
        PipeAssignment { pool_idx_a: 0, pool_idx_b: 1, dest_idx: 3, pos_a: (3, 20), pos_b: (6, 33) },
        PipeAssignment { pool_idx_a: 2, pool_idx_b: 3, dest_idx: 5, pos_a: (0, 0), pos_b: (8, 63) },
    ];
    let mut rom = Rom::from_vec(blank_data());
    write_pipe_dests(&mut rom, &tables, 1, &pipes);
    assert_eq!(
        [rom.read_byte(0x103), rom.read_byte(0x123), rom.read_byte(0x143), rom.read_byte(0x163)],
        [0x12, 0x41, 0x58, 0x19]
    );
    // (0,0) and (8,63): screens 0/3, columns 0/15, rows 2/10; scroll 0 and 3|8.
    assert_eq!(
        [rom.read_byte(0x105), rom.read_byte(0x125), rom.read_byte(0x145), rom.read_byte(0x165)],
        [0x03, 0x0F, 0x2A, 0x0B]
    );
    assert_eq!(rom.read_byte(0x104), 0);
}

#[test]
fn veto_registry_fits_sixteen_addresses_but_not_seventeen() {
    let sixteen: Vec<(usize, (usize, usize))> = (0..16).map(|c| (0usize, (3usize, c))).collect();
    assert!(march_veto_fits(&sixteen, &[]));
    let mut seventeen = sixteen.clone();
    seventeen.push((0, (4, 0)));
    assert!(!march_veto_fits(&seventeen, &[]));
    // Repeated positions count once.
    let mut repeated = sixteen.clone();
    repeated.push((1, (3, 0)));
    assert!(march_veto_fits(&repeated, &[]));
    // Plant positions of another world count in that world's list.
    assert!(!march_veto_fits(&sixteen, &[(2, (0, 0))]));
}

/// Map-object slot `slot` of world `w` in a test layout: five tables of
/// nine bytes per world.
fn obj_slot(w: usize, slot: usize) -> MapObjectSlot {
    let base = 0x1000 + w * 0x100;
    MapObjectSlot { id_at: base + slot, y_at: base + 0x10 + slot, x_hi_at: base + 0x20 + slot, x_lo_at: base + 0x30 + slot, reward_at: base + 0x40 + slot }
}

fn decode(rom: &Rom, s: &MapObjectSlot) -> (usize, usize) {
    let y = rom.read_byte(s.y_at) as usize;
    let xhi = rom.read_byte(s.x_hi_at) as usize;
    let xlo = rom.read_byte(s.x_lo_at) as usize;
    (y / 16 - 2, xhi * 16 + xlo / 16)
}

#[test]
fn army_sprites_move_to_their_cells() {
    let mut rom = Rom::from_vec(vec![0u8; 0x2000]);
    let slots: Vec<MapObjectSlot> = (0..9).map(|i| obj_slot(7, i)).collect();
    write_w8_sprites(&mut rom, &slots, &vec![(2, (4, 37)), (5, (8, 3))]);
    assert_eq!(decode(&rom, &slots[2]), (4, 37));
    assert_eq!(decode(&rom, &slots[5]), (8, 3));
    assert_eq!(rom.read_byte(slots[2].y_at), 0x60);
    assert_eq!(rom.read_byte(slots[2].x_hi_at), 2);
    assert_eq!(rom.read_byte(slots[2].x_lo_at), 0x50);
    assert_eq!(rom.read_byte(slots[3].y_at), 0);
}

#[test]
fn plants_take_the_highest_empty_slot_without_reward() {
    let mut rom = Rom::from_vec(vec![0u8; 0x2000]);
    let world_slots: Vec<Vec<MapObjectSlot>> = (0..8).map(|w| (0..9).map(|i| obj_slot(w, i)).collect()).collect();
    // World 3: slots 7 and 8 taken; World 6: every slot taken.
    rom.write_byte(world_slots[2][7].id_at, 0x03);
    rom.write_byte(world_slots[2][8].id_at, 0x04);
    rom.write_byte(world_slots[2][6].reward_at, 0x09);
    for i in 0..9 {
        rom.write_byte(world_slots[5][i].id_at, 0x05);
    }
    write_plant_sprites(&mut rom, &world_slots, &vec![(2, (3, 20)), (2, (5, 5)), (5, (1, 1))]);
    assert_eq!(rom.read_byte(world_slots[2][6].id_at), 0x07);
    assert_eq!(decode(&rom, &world_slots[2][6]), (3, 20));
    assert_eq!(rom.read_byte(world_slots[2][6].reward_at), 0);
    assert_eq!(rom.read_byte(world_slots[2][5].id_at), 0x07);
    assert_eq!(decode(&rom, &world_slots[2][5]), (5, 5));
    for i in 0..9 {
        assert_eq!(rom.read_byte(world_slots[5][i].id_at), 0x05);
        assert_eq!(rom.read_byte(world_slots[5][i].y_at), 0);
    }
}
