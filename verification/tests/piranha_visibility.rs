use smb3r::piranha_visibility::{
    apply, should_apply, EnemyMode, Options, BIG_PIRANHA_INIT_TAIL, FS_PIRANHA_HIT_SMALL,
    FS_PIRANHA_VIS_BIG, FS_PIRANHA_VIS_SMALL, PIRANHA_HIT_SMALL_CPU, PIRANHA_VIS_BIG_CPU,
    PIRANHA_VIS_SMALL_CPU, SMALL_PIRANHA_HIT_CALL, SMALL_PIRANHA_HIT_RETURN_CPU,
    SMALL_PIRANHA_INIT_TAIL,
};
use smb3r::rom::Rom;

fn opts_off() -> Options {
    Options {
        ground: EnemyMode::Off,
        shell: EnemyMode::Off,
        flying: EnemyMode::Off,
        piranhas: EnemyMode::Off,
        ghosts: EnemyMode::Off,
        thwomps: EnemyMode::Off,
        rotodiscs: EnemyMode::Off,
        cannons: EnemyMode::Off,
        water: EnemyMode::Off,
        bros: EnemyMode::Off,
    }
}

fn synthetic_data() -> Vec<u8> {
    let mut data = vec![0u8; 393232];
    data[0..4].copy_from_slice(&[0x4E, 0x45, 0x53, 0x1A]);
    data[4] = 16;
    data[5] = 16;
    data[6] = 0x40;
    data[SMALL_PIRANHA_INIT_TAIL..SMALL_PIRANHA_INIT_TAIL + 3].copy_from_slice(&[0x95, 0x91, 0x60]);
    data[BIG_PIRANHA_INIT_TAIL..BIG_PIRANHA_INIT_TAIL + 4]
        .copy_from_slice(&[0xFE, 0xF7, 0x7F, 0x60]);
    data[SMALL_PIRANHA_HIT_CALL..SMALL_PIRANHA_HIT_CALL + 3].copy_from_slice(&[0x20, 0xBA, 0xD1]);
    data
}

fn synthetic_rom() -> Rom {
    Rom::from_vec(synthetic_data())
}

#[test]
fn should_apply_only_when_piranhas_wild_with_other_wild_class() {
    let mut o = opts_off();
    assert!(!should_apply(&o), "all-off");

    o.piranhas = EnemyMode::Wild;
    assert!(!should_apply(&o), "piranhas alone wild");

    o.ground = EnemyMode::Shuffle;
    assert!(!should_apply(&o), "piranhas wild + ground shuffle");

    o.ground = EnemyMode::Wild;
    assert!(should_apply(&o), "piranhas wild + ground wild");

    o.piranhas = EnemyMode::Shuffle;
    assert!(!should_apply(&o), "piranhas shuffle + ground wild");
}

#[test]
fn cannons_alone_do_not_trigger() {
    let mut o = opts_off();
    o.piranhas = EnemyMode::Wild;
    o.cannons = EnemyMode::Wild;
    assert!(!should_apply(&o));
}

#[test]
fn any_other_wild_class_triggers() {
    for k in 0..8 {
        let mut o = opts_off();
        o.piranhas = EnemyMode::Wild;
        match k {
            0 => o.ground = EnemyMode::Wild,
            1 => o.shell = EnemyMode::Wild,
            2 => o.flying = EnemyMode::Wild,
            3 => o.ghosts = EnemyMode::Wild,
            4 => o.thwomps = EnemyMode::Wild,
            5 => o.rotodiscs = EnemyMode::Wild,
            6 => o.water = EnemyMode::Wild,
            _ => o.bros = EnemyMode::Wild,
        }
        assert!(should_apply(&o), "class {k} wild must trigger");
    }
}

#[test]
fn hit_skip_patch_rewrites_call_site_and_thunk() {
    let mut rom = synthetic_rom();

    let mut opts = opts_off();
    opts.piranhas = EnemyMode::Wild;
    opts.ground = EnemyMode::Wild;

    apply(&mut rom, &opts);

    let [jmp_lo, jmp_hi] = PIRANHA_HIT_SMALL_CPU.to_le_bytes();
    assert_eq!(rom.read_range(SMALL_PIRANHA_HIT_CALL, 3), &[0x4C, jmp_lo, jmp_hi]);

    let [ret_lo, ret_hi] = SMALL_PIRANHA_HIT_RETURN_CPU.to_le_bytes();
    assert_eq!(
        rom.read_range(FS_PIRANHA_HIT_SMALL, 18),
        &[
            0xB5, 0xA3, 0x38, 0xF5, 0x9A, 0x18, 0x69, 0x0A, 0xC9, 0x15, 0x90, 0x03, 0x20, 0xBA,
            0xD1, 0x4C, ret_lo, ret_hi,
        ],
    );
}

#[test]
fn hit_skip_patch_is_gated() {
    let mut rom = synthetic_rom();
    let opts = opts_off();
    apply(&mut rom, &opts);
    assert_eq!(rom.read_range(SMALL_PIRANHA_HIT_CALL, 3), &[0x20, 0xBA, 0xD1]);
}

#[test]
fn visibility_thunks_and_jumps_are_written() {
    let mut rom = synthetic_rom();
    let mut opts = opts_off();
    opts.piranhas = EnemyMode::Wild;
    opts.bros = EnemyMode::Wild;
    apply(&mut rom, &opts);

    let [lo, hi] = PIRANHA_VIS_SMALL_CPU.to_le_bytes();
    assert_eq!(rom.read_range(SMALL_PIRANHA_INIT_TAIL, 3), &[0x4C, lo, hi]);
    assert_eq!(
        rom.read_range(FS_PIRANHA_VIS_SMALL, 7),
        &[0x95, 0x91, 0xA9, 0x01, 0x95, 0x7F, 0x60]
    );

    let [lo, hi] = PIRANHA_VIS_BIG_CPU.to_le_bytes();
    assert_eq!(rom.read_range(BIG_PIRANHA_INIT_TAIL, 4), &[0x4C, lo, hi, 0x60]);
    assert_eq!(
        rom.read_range(FS_PIRANHA_VIS_BIG, 8),
        &[0xFE, 0xF7, 0x7F, 0xA9, 0x01, 0x95, 0x7F, 0x60]
    );
}

#[test]
fn gated_apply_leaves_rom_unchanged() {
    let data = synthetic_data();
    let mut rom = Rom::from_vec(data.clone());
    let mut opts = opts_off();
    opts.ground = EnemyMode::Wild;
    opts.water = EnemyMode::Wild;
    apply(&mut rom, &opts);
    assert_eq!(rom.as_bytes(), &data[..]);
}
