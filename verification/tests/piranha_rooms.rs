use smb3r::piranha_rooms::{
    clear_vanilla_plants, install_treasure_sets, MapSpriteSlot, PLANT_SPRITE_ID, CLONE_LEN, CLONE_P1_CPU, CLONE_P2_CPU, FS_PIRANHA_ROOMS, P1_DEFAULT_ITEM,
    P1_HDR, P1_ROOM_ITEM, P1_ROOM_SRC, P2_DEFAULT_ITEM, P2_HDR, P2_ROOM_ITEM, P2_ROOM_SRC,
};
use smb3r::rom::Rom;

fn make_test_data(src: [u8; 8]) -> Vec<u8> {
    let mut data = vec![0u8; 393232];
    data[0..4].copy_from_slice(&[0x4E, 0x45, 0x53, 0x1A]);
    data[4] = 16;
    data[5] = 16;
    data[6] = 0x40;

    data[P1_ROOM_SRC..P1_ROOM_SRC + 8].copy_from_slice(&src);
    data[P2_ROOM_SRC..P2_ROOM_SRC + 8].copy_from_slice(&src);

    for (hdr, ptr) in [(P1_HDR, 0xD0E2u16), (P2_HDR, 0xD0DAu16)] {
        data[hdr + 2..hdr + 4].copy_from_slice(&ptr.to_le_bytes());
    }
    data
}

fn make_test_rom() -> Rom {
    Rom::from_vec(make_test_data([0x01, 0x52, 0x0B, 0x13, 0xBA, 0x0C, 0x13, 0xFF]))
}

fn hdr_obj_ptr(rom: &Rom, off: usize) -> u16 {
    let b = rom.read_range(off, 4);
    u16::from_le_bytes([b[2], b[3]])
}

#[test]
fn test_clones_prepend_treasureset() {
    let mut rom = make_test_rom();
    install_treasure_sets(&mut rom);

    for (dst, item) in [
        (FS_PIRANHA_ROOMS, P1_DEFAULT_ITEM),
        (FS_PIRANHA_ROOMS + CLONE_LEN, P2_DEFAULT_ITEM),
    ] {
        assert_eq!(
            rom.read_range(dst, CLONE_LEN).to_vec(),
            vec![0x01, 0xD6, 0x0A, item, 0x52, 0x0B, 0x13, 0xBA, 0x0C, 0x13, 0xFF],
        );
    }
}

#[test]
fn test_item_offsets_align_with_treasureset() {
    let mut rom = make_test_rom();
    install_treasure_sets(&mut rom);

    assert_eq!(rom.read_byte(P1_ROOM_ITEM - 2), 0xD6);
    assert_eq!(rom.read_byte(P2_ROOM_ITEM - 2), 0xD6);
    assert_eq!(rom.read_byte(P1_ROOM_ITEM), P1_DEFAULT_ITEM);
    assert_eq!(rom.read_byte(P2_ROOM_ITEM), P2_DEFAULT_ITEM);
}

#[test]
fn test_headers_repointed_to_clones() {
    let mut rom = make_test_rom();
    install_treasure_sets(&mut rom);

    assert_eq!(hdr_obj_ptr(&rom, P1_HDR), CLONE_P1_CPU);
    assert_eq!(hdr_obj_ptr(&rom, P2_HDR), CLONE_P2_CPU);
}

#[test]
fn clone_leaves_everything_else_alone() {
    let data = make_test_data([0x01, 0x52, 0x0B, 0x13, 0xBA, 0x0C, 0x13, 0xFF]);
    let mut rom = Rom::from_vec(data.clone());
    install_treasure_sets(&mut rom);
    let written = |k: usize| {
        (FS_PIRANHA_ROOMS..FS_PIRANHA_ROOMS + 2 * CLONE_LEN).contains(&k)
            || (P1_HDR + 2..P1_HDR + 4).contains(&k)
            || (P2_HDR + 2..P2_HDR + 4).contains(&k)
    };
    for k in 0..data.len() {
        if !written(k) {
            assert_eq!(rom.read_byte(k), data[k], "offset {k:#x} changed");
        }
    }
}

#[test]
fn treasure_set_at_column_zero_stays_at_zero() {
    let mut rom = Rom::from_vec(make_test_data([0x02, 0x52, 0x00, 0x13, 0xBA, 0x04, 0x13, 0xFF]));
    install_treasure_sets(&mut rom);
    assert_eq!(
        rom.read_range(FS_PIRANHA_ROOMS, CLONE_LEN).to_vec(),
        vec![0x02, 0xD6, 0x00, P1_DEFAULT_ITEM, 0x52, 0x00, 0x13, 0xBA, 0x04, 0x13, 0xFF],
    );
}

#[test]
fn clone_entries_are_written_in_column_order() {
    let mut rom = Rom::from_vec(make_test_data([0x01, 0x52, 0x0C, 0x13, 0xBA, 0x0B, 0x14, 0xFF]));
    install_treasure_sets(&mut rom);
    assert_eq!(
        rom.read_range(FS_PIRANHA_ROOMS + CLONE_LEN, CLONE_LEN).to_vec(),
        vec![0x01, 0xD6, 0x0B, P2_DEFAULT_ITEM, 0xBA, 0x0B, 0x14, 0x52, 0x0C, 0x13, 0xFF],
    );
}

#[test]
fn clearing_plants_empties_their_slots_and_rewards_only() {
    let mut data = vec![0x55u8; 64];
    let links = [
        MapSpriteSlot { id_at: 10, reward_at: 40 },
        MapSpriteSlot { id_at: 11, reward_at: 41 },
    ];
    data[10] = PLANT_SPRITE_ID;
    data[11] = PLANT_SPRITE_ID;
    data[40] = 0x08;
    data[41] = 0x01;
    let before = data.clone();
    let mut rom = Rom::from_vec(data);
    clear_vanilla_plants(&mut rom, &links);
    for l in &links {
        assert_eq!(rom.read_byte(l.id_at), 0);
        assert_eq!(rom.read_byte(l.reward_at), 0);
    }
    for j in 0..64 {
        if ![10, 11, 40, 41].contains(&j) {
            assert_eq!(rom.read_byte(j), before[j]);
        }
    }
}
