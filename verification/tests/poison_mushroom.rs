use smb3r::poison_mushroom::{
    apply, install_hook, ATTR1_TABLE, ATTR2_TABLE, ATTR3_TABLE, FS_POISON_HOOK, FS_POISON_MUSHROOM, HANDLER,
    HIT_CPU, HIT_TABLE, HOOK_CPU, HOOK_LEN, INIT_CPU, INIT_TABLE, KILL_TABLE, NORM_TABLE,
    ONE_UP_ID, PATSTART_TABLE, POISON_ATTR1, POISON_ATTR2, POISON_ATTR3, POISON_KILL,
    POISON_PATSTART, PRG001_BASE, SPAWN_SITE_A, SPAWN_SITE_B, SPAWN_STORE,
};
use smb3r::rom::Rom;

/// Where the test image keeps the starting-world operand that salts the hash.
const SALT_AT: usize = 0x3C3A0;

fn make_test_data() -> Vec<u8> {
    let mut data = vec![0u8; 393232];
    data[0..4].copy_from_slice(&[0x4E, 0x45, 0x53, 0x1A]);
    data[4] = 16;
    data[5] = 16;
    data[6] = 0x40;
    for site in [SPAWN_SITE_A, SPAWN_SITE_B] {
        data[site..site + 3].copy_from_slice(&SPAWN_STORE);
    }
    data
}

fn make_test_rom() -> Rom {
    Rom::from_vec(make_test_data())
}

#[test]
fn handler_layout_is_consistent() {
    assert_eq!(FS_POISON_MUSHROOM, PRG001_BASE + (INIT_CPU as usize - 0xA000));
    assert_eq!(FS_POISON_HOOK, PRG001_BASE + (HOOK_CPU as usize - 0xA000));
    assert_eq!(HIT_CPU, INIT_CPU + 9);
    assert_eq!(HANDLER.len(), 17);
    assert!(FS_POISON_HOOK >= FS_POISON_MUSHROOM + HANDLER.len());
}

#[test]
fn branch_targets_land_on_the_rts() {
    let rts = (HOOK_LEN - 1) as u8;
    assert_eq!(7 + 0x17, rts);
    assert_eq!(25 + 0x05, rts);
}

#[test]
fn apply_installs_object_and_hook() {
    let mut rom = make_test_rom();
    apply(&mut rom, SALT_AT);

    assert_eq!(rom.read_range(FS_POISON_MUSHROOM, HANDLER.len()), &HANDLER);
    assert_eq!(rom.read_range(INIT_TABLE + 0x14, 2), &[0x03, 0xA7]);
    assert_eq!(rom.read_range(NORM_TABLE + 0x14, 2), &[0x7E, 0xA7]);
    assert_eq!(rom.read_range(HIT_TABLE + 0x14, 2), &[0x0C, 0xA7]);
    assert_eq!(rom.read_byte(ATTR1_TABLE + 0x0A), POISON_ATTR1);
    assert_eq!(rom.read_byte(PATSTART_TABLE + 0x0A), POISON_PATSTART);

    let hook = rom.read_range(FS_POISON_HOOK, HOOK_LEN);
    assert_eq!(&hook[0..5], &[0x99, 0x71, 0x06, 0xC9, ONE_UP_ID]);
    assert_eq!(hook[HOOK_LEN - 1], 0x60);

    let jsr = [0x20, (HOOK_CPU & 0xFF) as u8, (HOOK_CPU >> 8) as u8];
    for site in [SPAWN_SITE_A, SPAWN_SITE_B] {
        assert_eq!(rom.read_range(site, 3), &jsr);
    }
}

#[test]
fn hook_bakes_in_the_salt_and_remaining_attributes() {
    let mut data = make_test_data();
    data[SALT_AT] = 0x05;
    let mut rom = Rom::from_vec(data);
    apply(&mut rom, SALT_AT);
    assert_eq!(
        rom.read_range(FS_POISON_HOOK, HOOK_LEN),
        &[
            0x99, 0x71, 0x06, 0xC9, 0x0B, 0xD0, 0x17, 0xA9, 0x05, 0x18, 0x6D, 0x27, 0x07, 0x65,
            0x61, 0x75, 0x76, 0x75, 0x91, 0x75, 0xA3, 0x29, 0x01, 0xF0, 0x05, 0xA9, 0x0A, 0x99,
            0x71, 0x06, 0x60,
        ]
    );
    assert_eq!(rom.read_byte(ATTR2_TABLE + 0x0A), POISON_ATTR2);
    assert_eq!(rom.read_byte(ATTR3_TABLE + 0x0A), POISON_ATTR3);
    assert_eq!(rom.read_byte(KILL_TABLE + 0x0A), POISON_KILL);
}

#[test]
fn apply_touches_only_its_own_bytes() {
    let data = make_test_data();
    let mut rom = Rom::from_vec(data.clone());
    apply(&mut rom, SALT_AT);
    let ours = |k: usize| {
        (FS_POISON_MUSHROOM..FS_POISON_HOOK + HOOK_LEN).contains(&k)
            || [INIT_TABLE, NORM_TABLE, HIT_TABLE].iter().any(|&t| k == t + 0x14 || k == t + 0x15)
            || [ATTR1_TABLE, ATTR2_TABLE, ATTR3_TABLE, KILL_TABLE, PATSTART_TABLE]
                .iter()
                .any(|&t| k == t + 0x0A)
            || (SPAWN_SITE_A..SPAWN_SITE_A + 3).contains(&k)
            || (SPAWN_SITE_B..SPAWN_SITE_B + 3).contains(&k)
    };
    for k in 0..data.len() {
        if !ours(k) {
            assert_eq!(rom.read_byte(k), data[k], "offset {k:#x} changed");
        }
    }
}

#[test]
fn hook_alone_leaves_the_object_tables_untouched() {
    let mut data = make_test_data();
    data[SALT_AT] = 0x03;
    let before = data.clone();
    let mut rom = Rom::from_vec(data);
    install_hook(&mut rom, SALT_AT);
    assert_eq!(rom.read_range(FS_POISON_HOOK + 7, 2), &[0xA9, 0x03]);
    let jsr = [0x20, (HOOK_CPU & 0xFF) as u8, (HOOK_CPU >> 8) as u8];
    for site in [SPAWN_SITE_A, SPAWN_SITE_B] {
        assert_eq!(rom.read_range(site, 3), &jsr);
    }
    assert_eq!(rom.read_range(FS_POISON_MUSHROOM, HANDLER.len()), &before[FS_POISON_MUSHROOM..FS_POISON_MUSHROOM + HANDLER.len()]);
    assert_eq!(rom.read_range(INIT_TABLE + 0x14, 2), &before[INIT_TABLE + 0x14..INIT_TABLE + 0x16]);
}
