use rand::SeedableRng;
use rand_chacha::ChaCha8Rng;
use smb3r::palette_variants::{plains_slice4_variants, plains_slot3_variants, VariantGroup};
use smb3r::palettes::{
    apply_themed_draws, palette_ranges, randomize, randomize_themed, rotate_hue, rotate_only_quartets, safe_colors,
    theme_group_for, theme_groups, themed_regions,
};
use smb3r::rom::Rom;

fn make_test_rom() -> Rom {
    let mut data = vec![0u8; 393232];
    data[0..4].copy_from_slice(&[0x4E, 0x45, 0x53, 0x1A]);
    data[4] = 16;
    data[5] = 16;
    data[6] = 0x40;
    Rom::from_vec(data)
}

fn all_variant_groups() -> Vec<VariantGroup> {
    let mut v: Vec<VariantGroup> = Vec::new();
    for region in themed_regions() {
        v.extend(region);
    }
    v
}

#[test]
fn test_palettes_use_safe_colors() {
    let mut rom = make_test_rom();
    rom.write_range(0x10539, &[0x00, 0x16, 0x36, 0x0F]);

    let mut rng = ChaCha8Rng::seed_from_u64(42);
    randomize(&mut rom, &mut rng);

    let safe = safe_colors();
    for offset in palette_ranges() {
        for i in 1..3 {
            let byte = rom.read_byte(offset + i);
            assert!(
                safe.contains(&byte),
                "Palette at {offset:#06x}+{i} has unsafe color: {byte:#04x}"
            );
        }
    }

    assert_eq!(rom.read_byte(0x10539), 0x00, "Mario byte 0 must stay 0x00");
    assert_eq!(rom.read_byte(0x1053C), 0x0F, "Mario outline must stay 0x0F");
}

#[test]
fn test_palettes_deterministic() {
    let mut rom1 = make_test_rom();
    let mut rom2 = make_test_rom();
    let mut rng1 = ChaCha8Rng::seed_from_u64(99);
    let mut rng2 = ChaCha8Rng::seed_from_u64(99);

    randomize(&mut rom1, &mut rng1);
    randomize(&mut rom2, &mut rng2);

    for offset in palette_ranges() {
        assert_eq!(rom1.read_range(offset, 4), rom2.read_range(offset, 4));
    }
}

#[test]
fn rotate_hue_basics() {
    for b in 0u8..=0xFF {
        assert_eq!(rotate_hue(b, 0), b, "shift 0 must be identity for {b:#04x}");
    }
    for row in 0u8..4 {
        for hue in 1u8..=0x0C {
            let b = (row << 4) | hue;
            for shift in 0u8..12 {
                let r = rotate_hue(b, shift);
                assert_eq!(r & 0xF0, b & 0xF0, "luminance changed for {b:#04x}");
                let rh = r & 0x0F;
                assert!((1..=0x0C).contains(&rh), "hue {rh:#03x} out of range");
            }
            let mut cur = b;
            for _ in 0..12 {
                cur = rotate_hue(cur, 1);
            }
            assert_eq!(cur, b, "12-cycle must return to {b:#04x}");
        }
    }
    for &b in &[
        0x00u8, 0x10, 0x20, 0x30, 0x0D, 0x0E, 0x0F, 0x1D, 0x2F, 0x3D, 0x3F, 0x40, 0x99, 0xAD, 0xFF,
    ] {
        for shift in 0u8..12 {
            assert_eq!(rotate_hue(b, shift), b, "{b:#04x} must pass through");
        }
    }
}

#[test]
fn rotate_hue_exact_values() {
    assert_eq!(rotate_hue(0x21, 1), 0x22);
    assert_eq!(rotate_hue(0x2C, 1), 0x21);
    assert_eq!(rotate_hue(0x16, 11), 0x15);
    assert_eq!(rotate_hue(0x3A, 10), 0x38);
    assert_eq!(rotate_hue(0x01, 2), 0x03);
}

#[test]
fn themed_emits_rotated_curated_variants_only() {
    for seed in [1u64, 42, 99, 777, 12345] {
        let mut rom = make_test_rom();
        let mut rng = ChaCha8Rng::seed_from_u64(seed);
        randomize_themed(&mut rom, &mut rng);

        for (gi, tg) in theme_groups().iter().enumerate() {
            let group_quartets: Vec<VariantGroup> = all_variant_groups()
                .into_iter()
                .filter(|g| theme_group_for(g.offset) == Some(gi))
                .collect();
            let shift_matches = |shift: u8| -> bool {
                group_quartets.iter().all(|group| {
                    let written = rom.read_range(group.offset, 4);
                    group.variants.iter().any(|v| {
                        v.iter().zip(written).all(|(&vb, &wb)| rotate_hue(vb, shift) == wb)
                    })
                })
            };
            assert!(
                tg.shifts.iter().any(|&s| shift_matches(s)),
                "seed {seed}, group '{}': no allowed shift explains all written quartets",
                tg.name,
            );
        }
    }
}

#[test]
fn every_curated_offset_belongs_to_one_theme_group() {
    let groups = theme_groups();
    for group in all_variant_groups() {
        let owners = groups
            .iter()
            .filter(|tg| tg.ranges.iter().any(|&(s, e)| (s..e).contains(&group.offset)))
            .count();
        assert_eq!(
            owners, 1,
            "variant group at {:#08x} owned by {owners} theme groups (want 1)",
            group.offset
        );
    }
    for offset in rotate_only_quartets() {
        let owners = groups
            .iter()
            .filter(|tg| tg.ranges.iter().any(|&(s, e)| (s..e).contains(&offset)))
            .count();
        assert_eq!(
            owners, 1,
            "rotate-only quartet at {offset:#08x} owned by {owners} theme groups (want 1)"
        );
    }
}

#[test]
fn theme_shifts_are_subtle() {
    for tg in theme_groups() {
        assert!(!tg.shifts.is_empty(), "group '{}' has no shifts", tg.name);
        assert!(tg.shifts.contains(&0), "group '{}' must always allow vanilla hues", tg.name);
        for &s in &tg.shifts {
            assert!(
                matches!(s, 0 | 1 | 2 | 10 | 11),
                "group '{}' allows non-subtle shift {s}",
                tg.name
            );
        }
    }
}

#[test]
fn themed_does_not_touch_uncurated_positions() {
    const REGIONS: &[(usize, usize, u8)] = &[
        (0x36BE4, 0x36C1C, 0x40),
        (0x36C1C, 0x36C54, 0x50),
        (0x36C54, 0x36C8C, 0xA0),
        (0x36C8C, 0x36CC4, 0xC0),
        (0x36CC4, 0x36CFC, 0xD0),
        (0x36CFC, 0x36D34, 0xE0),
        (0x36D34, 0x36D6C, 0x90),
        (0x36D6C, 0x36DA6, 0x80),
        (0x36DA8, 0x36E20, 0x40),
        (0x36E20, 0x37000, 0x50),
        (0x37000, 0x37200, 0x70),
        (0x37200, 0x37400, 0x60),
        (0x37400, 0x37600, 0x50),
        (0x37600, 0x377E0, 0xB0),
        (0x37808, 0x37846, 0xC0),
        (0x37844, 0x37850, 0x40),
    ];

    let mut rom = make_test_rom();
    for &(start, end, base) in REGIONS {
        let canary: Vec<u8> = (0..(end - start)).map(|i| base | (i as u8 & 0x0F)).collect();
        rom.write_range(start, &canary);
    }

    // The last two regions overlap by two bytes; the later stamp wins, so
    // compare against the image as stamped.
    let stamped: Vec<u8> = rom.as_bytes().to_vec();

    let mut rng = ChaCha8Rng::seed_from_u64(42);
    randomize_themed(&mut rom, &mut rng);

    let curated_offsets: std::collections::HashSet<usize> = all_variant_groups()
        .iter()
        .flat_map(|g| (0..4).map(move |k| g.offset + k))
        .collect();

    for &(start, end, _) in REGIONS {
        for off in start..end {
            if curated_offsets.contains(&off) {
                continue;
            }
            assert_eq!(
                rom.read_byte(off),
                stamped[off],
                "uncurated offset {:#08x} (region {:#08x}-{:#08x}) was modified",
                off,
                start,
                end,
            );
        }
    }
}

#[test]
fn rotate_only_quartets_are_disjoint_and_safe() {
    let curated_offsets: std::collections::HashSet<usize> = all_variant_groups()
        .iter()
        .flat_map(|g| (0..4).map(move |k| g.offset + k))
        .collect();

    for offset in rotate_only_quartets() {
        for k in 0..4 {
            assert!(
                !curated_offsets.contains(&(offset + k)),
                "rotate-only quartet {offset:#08x} overlaps a variant group"
            );
        }
        let overlaps_ptr = offset + 4 > 0x377E0 && offset < 0x37808;
        assert!(!overlaps_ptr, "rotate-only quartet {offset:#08x} overlaps pointer table");
    }
}

#[test]
fn themed_does_not_touch_pointer_table() {
    let mut rom = make_test_rom();
    let vanilla: Vec<u8> = (0..0x28).map(|i| 0xAB + (i as u8 & 0x0F)).collect();
    rom.write_range(0x377E0, &vanilla);

    let mut rng = ChaCha8Rng::seed_from_u64(42);
    randomize_themed(&mut rom, &mut rng);

    assert_eq!(
        rom.read_range(0x377E0, 0x28),
        &vanilla[..],
        "pointer table 0x377E0-0x37807 must not be modified"
    );
}

#[test]
fn no_variant_group_overlaps_pointer_table() {
    for group in all_variant_groups() {
        let start = group.offset;
        let end = group.offset + 4;
        let overlaps = end > 0x377E0 && start < 0x37808;
        assert!(
            !overlaps,
            "VariantGroup at {:#08x} overlaps pointer table 0x377E0-0x37807",
            group.offset
        );
    }
}

#[test]
fn theme_group_lookup_matches_ranges() {
    assert_eq!(theme_group_for(0x36BE4), Some(0));
    assert_eq!(theme_group_for(0x36C54), Some(1));
    assert_eq!(theme_group_for(0x36C94), Some(2));
    assert_eq!(theme_group_for(0x37808), Some(2));
    assert_eq!(theme_group_for(0x377E0), None);
    assert_eq!(theme_group_for(0x36DA6), None);
    assert_eq!(theme_group_for(0x37200), Some(8));
    assert_eq!(theme_group_for(0x10539), None);
}

#[test]
fn character_randomization_changes_only_body_and_highlight() {
    let mut rom = make_test_rom();
    for (i, b) in (0x10530..0x10560).enumerate() {
        rom.write_byte(b, 0x40 + i as u8);
    }
    let before: Vec<u8> = rom.as_bytes().to_vec();
    let mut rng = ChaCha8Rng::seed_from_u64(7);
    randomize(&mut rom, &mut rng);
    let ranges = palette_ranges();
    for off in 0..before.len() {
        let is_char = ranges.iter().any(|&p| off == p + 1 || off == p + 2);
        if is_char {
            assert!(safe_colors().contains(&rom.read_byte(off)));
        } else {
            assert_eq!(rom.read_byte(off), before[off]);
        }
    }
}

#[test]
fn curated_variant_lists_start_with_vanilla_and_sit_in_plains() {
    for group in plains_slot3_variants().into_iter().chain(plains_slice4_variants()) {
        assert!(group.variants.len() >= 2);
        assert_eq!(theme_group_for(group.offset), Some(2));
        assert!(group.offset + 4 <= 0x377E0 || group.offset >= 0x37808);
    }
    assert_eq!(plains_slice4_variants()[0].variants[0], [0x36, 0x0F, 0xFF, 0x30]);
    assert_eq!(plains_slot3_variants().len(), 8);
}

#[test]
fn given_draws_write_each_pick_rotated_by_its_group_shift() {
    let mut rom = make_test_rom();
    let groups = theme_groups();
    let shifts: Vec<u8> = groups.iter().enumerate().map(|(g, t)| if g == 2 { *t.shifts.last().unwrap() } else { t.shifts[0] }).collect();
    let region = &themed_regions()[0];
    let picks: Vec<[u8; 4]> = region.iter().map(|g| *g.variants.last().unwrap()).collect();
    let before = rom.read_range(0, 393232).to_vec();
    apply_themed_draws(&mut rom, &shifts, &picks);
    let mut touched = vec![false; 393232];
    for (g, pick) in region.iter().zip(picks.iter()) {
        let expected: Vec<u8> = pick.iter().map(|&b| rotate_hue(b, shifts[2])).collect();
        assert_eq!(rom.read_range(g.offset, 4), &expected[..]);
        for i in 0..4 {
            touched[g.offset + i] = true;
        }
    }
    for k in 0..393232 {
        if !touched[k] {
            assert_eq!(rom.read_byte(k), before[k]);
        }
    }
}
