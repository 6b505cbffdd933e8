use rand::SeedableRng;
use rand_chacha::ChaCha8Rng;
use smb3r::podoboo_gauntlet::{
    is_target, randomize, vanilla, CEILING_PODOBOO, ENTRY_COUNT, MIN_X_GAP, PODOBOO, SEG_OFFSET,
    SEG_X_MAX, SEG_X_MIN, X_JITTER_RADIUS,
};
use smb3r::rom::Rom;
use smb3r::segment::{read_segment, SegmentEntry};

fn make_test_rom() -> Rom {
    let mut data = vec![0u8; 393232];
    data[0..4].copy_from_slice(&[0x4E, 0x45, 0x53, 0x1A]);
    data[4] = 16;
    data[5] = 16;
    data[6] = 0x40;
    Rom::from_vec(data)
}

#[test]
fn output_invariants() {
    for seed in 0..50u64 {
        let mut rom = make_test_rom();
        let mut rng = ChaCha8Rng::seed_from_u64(seed);
        randomize(&mut rom, &mut rng);
        let out = read_segment(&rom, SEG_OFFSET, ENTRY_COUNT);

        for w in out.windows(2) {
            assert!(w[0].x < w[1].x, "seed {seed}: not sorted: {:02X} >= {:02X}", w[0].x, w[1].x);
        }
        let drybones: Vec<&SegmentEntry> = out.iter().filter(|e| e.obj_id == 0x3F).collect();
        assert_eq!(drybones.len(), 2);
        let boos: Vec<&SegmentEntry> = out.iter().filter(|e| e.obj_id == 0x65).collect();
        assert_eq!(boos.len(), 2);
        for e in out.iter().filter(|e| e.obj_id == CEILING_PODOBOO) {
            assert_eq!(e.y & 0xF0, 0x00, "seed {seed}: ceiling podoboo crossed page");
        }
        for e in out.iter().filter(|e| e.obj_id == PODOBOO) {
            assert_eq!(e.y & 0xF0, 0x10, "seed {seed}: podoboo crossed page");
        }
    }
}

#[test]
fn fixes_tight_pair_collision() {
    for seed in 0..50u64 {
        let mut rom = make_test_rom();
        let mut rng = ChaCha8Rng::seed_from_u64(seed);
        randomize(&mut rom, &mut rng);
        let out = read_segment(&rom, SEG_OFFSET, ENTRY_COUNT);
        for w in out.windows(2) {
            assert!(
                w[1].x - w[0].x >= MIN_X_GAP,
                "seed {seed}: gap too small {:02X} -> {:02X}",
                w[0].x,
                w[1].x
            );
        }
    }
}

#[test]
fn non_targets_keep_vanilla_position() {
    let mut rom = make_test_rom();
    let mut rng = ChaCha8Rng::seed_from_u64(3);
    randomize(&mut rom, &mut rng);
    let out = read_segment(&rom, SEG_OFFSET, ENTRY_COUNT);
    let mut fixed: Vec<SegmentEntry> = vanilla().into_iter().filter(|e| !is_target(e.obj_id)).collect();
    fixed.sort_by_key(|e| e.x);
    let kept: Vec<SegmentEntry> = out.into_iter().filter(|e| !is_target(e.obj_id)).collect();
    assert_eq!(kept, fixed);
}

#[test]
fn podoboos_move_within_their_window() {
    for seed in 0..30u64 {
        let mut rom = make_test_rom();
        let mut rng = ChaCha8Rng::seed_from_u64(seed);
        randomize(&mut rom, &mut rng);
        let out = read_segment(&rom, SEG_OFFSET, ENTRY_COUNT);
        let mut sorted = vanilla();
        sorted.sort_by_key(|e| e.x);
        // Entries keep their relative order, so the i-th output is the i-th
        // vanilla entry moved.
        for (v, e) in sorted.iter().zip(out.iter()) {
            assert_eq!(v.obj_id, e.obj_id);
            if is_target(v.obj_id) {
                assert!(e.x + X_JITTER_RADIUS >= v.x && e.x <= v.x + X_JITTER_RADIUS);
                assert!(e.x >= SEG_X_MIN && e.x <= SEG_X_MAX);
                let dy = (e.y & 0x0F) as i16 - (v.y & 0x0F) as i16;
                assert!((-2..=2).contains(&dy));
            }
        }
    }
}

#[test]
fn targets_are_exactly_the_two_podoboo_kinds() {
    assert!(is_target(0x9E));
    assert!(is_target(0x53));
    assert!(!is_target(0x3F));
    assert!(!is_target(0x65));
    assert_eq!(vanilla().len(), ENTRY_COUNT);
}

#[test]
fn page_byte_is_left_alone() {
    let mut rom = make_test_rom();
    rom.write_byte(SEG_OFFSET, 0x77);
    rom.write_byte(SEG_OFFSET + 1 + 3 * ENTRY_COUNT, 0xFF);
    let mut rng = ChaCha8Rng::seed_from_u64(11);
    randomize(&mut rom, &mut rng);
    assert_eq!(rom.read_byte(SEG_OFFSET), 0x77);
    assert_eq!(rom.read_byte(SEG_OFFSET + 1 + 3 * ENTRY_COUNT), 0xFF);
}

#[test]
fn podoboos_stay_left_of_the_next_vanilla_entry() {
    let mut sorted = vanilla();
    sorted.sort_by_key(|e| e.x);
    for seed in 0..50u64 {
        let mut rom = make_test_rom();
        let mut rng = ChaCha8Rng::seed_from_u64(seed);
        randomize(&mut rom, &mut rng);
        let out = read_segment(&rom, SEG_OFFSET, ENTRY_COUNT);
        for i in 0..sorted.len() - 1 {
            if is_target(sorted[i].obj_id) {
                assert!(out[i].x + MIN_X_GAP <= sorted[i + 1].x, "seed {seed}: entry {i} at {:02X}", out[i].x);
            }
        }
    }
}
