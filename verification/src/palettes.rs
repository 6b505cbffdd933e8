//! Palette randomization: character palettes drawn from a safe colour set,
//! and themed tileset palettes built from curated variants with a small,
//! per-theme hue rotation.
use vstd::prelude::*;
use crate::bits::lemma_byte_nibbles;
use crate::palette_variants::{VariantGroup, group_view, plains_slot3_variants, plains_slot3_spec};
use crate::rng::{choose_one, random_below};
use crate::rom::{Rom, spliced};
use rand_chacha::ChaCha8Rng;

verus! {

/// A NES colour byte is chromatic when it lies in the base palette
/// (luminance row 0-3) with a hue column of 1 to C.
pub open spec fn is_chromatic(b: u8) -> bool {
    b <= 0x3C && (b & 0x0F) != 0 && (b & 0x0F) <= 0x0C
}

/// Rotate a colour's hue `shift` steps round the 12-hue wheel, keeping its
/// luminance; non-chromatic bytes are returned unchanged.
pub open spec fn spec_rotate_hue(b: u8, shift: u8) -> u8 {
    if is_chromatic(b) {
        ((b & 0xF0) | ((((b & 0x0F) - 1 + shift) % 12 + 1) as u8)) as u8
    } else {
        b
    }
}

/// Rotate a NES colour's hue round the 12-hue wheel, preserving luminance.
///
/// Only chromatic bytes (row 0-3, hue 1-C) rotate; greys, blacks, the 0xFF
/// skip marker and any non-colour byte pass through. The output hue stays in
/// 1-C, so rotation never produces the problematic 0x0D-0x0F column.
pub fn rotate_hue(byte: u8, shift: u8) -> (r: u8)
    requires
        is_chromatic(byte) ==> (byte & 0x0F) + shift <= 256,
    ensures
        r == spec_rotate_hue(byte, shift),
{
    let hue = byte & 0x0F;
    proof {
        lemma_byte_nibbles(byte);
    }
    if byte > 0x3C || hue == 0 || hue > 0x0C {
        return byte;
    }
    let rotated = ((hue - 1 + shift) % 12) + 1;
    (byte & 0xF0) | rotated
}

/// A rotation by nothing is the identity.
pub proof fn lemma_rotate_by_zero(b: u8)
    ensures
        spec_rotate_hue(b, 0) == b,
{
    if is_chromatic(b) {
        let h = b & 0x0F;
        assert(((h - 1 + 0u8) % 12 + 1) as u8 == h);
        assert((b & 0xF0) | h == b) by (bit_vector)
            requires
                h == b & 0x0F,
        ;
    }
}

/// Rotation keeps the luminance nibble, keeps chromatic bytes chromatic
/// (hue within 1-C), and passes every other byte through.
pub proof fn lemma_rotate_keeps_luminance(b: u8, shift: u8)
    ensures
        spec_rotate_hue(b, shift) & 0xF0 == b & 0xF0,
        is_chromatic(b) ==> is_chromatic(spec_rotate_hue(b, shift)),
        !is_chromatic(b) ==> spec_rotate_hue(b, shift) == b,
{
    if is_chromatic(b) {
        let h = b & 0x0F;
        let n = (((h - 1 + shift) % 12 + 1) as u8);
        assert(1 <= n <= 12);
        let r = ((b & 0xF0) | n) as u8;
        assert(r & 0xF0 == b & 0xF0 && r & 0x0F == n && (b <= 0x3C ==> r <= 0x3C)) by (bit_vector)
            requires
                1 <= n <= 12,
                r == (b & 0xF0) | n,
        ;
    }
}

/// Rotating by `s` and then by `t` rotates by `s + t` round the wheel.
pub proof fn lemma_rotate_compose(b: u8, s: u8, t: u8)
    requires
        s < 12,
        t < 12,
    ensures
        spec_rotate_hue(spec_rotate_hue(b, s), t) == spec_rotate_hue(b, ((s + t) % 12) as u8),
{
    if is_chromatic(b) {
        lemma_rotate_keeps_luminance(b, s);
        let h = b & 0x0F;
        let n = (((h - 1 + s) % 12 + 1) as u8);
        let r = ((b & 0xF0) | n) as u8;
        assert(r & 0x0F == n && r & 0xF0 == b & 0xF0) by (bit_vector)
            requires
                1 <= n <= 12,
                r == (b & 0xF0) | n,
        ;
        assert(((n - 1 + t) % 12 + 1) == ((h - 1 + (s + t) % 12) % 12 + 1)) by (nonlinear_arith)
            requires
                n == (h - 1 + s) % 12 + 1,
                1 <= h <= 12,
                s < 12,
                t < 12,
        ;
    }
}

/// Twelve steps make a full turn: rotating by 12 is the identity.
pub proof fn lemma_rotate_full_turn(b: u8)
    ensures
        spec_rotate_hue(b, 12) == b,
{
    if is_chromatic(b) {
        let h = b & 0x0F;
        assert(((h - 1 + 12u8) % 12 + 1) as u8 == h);
        assert((b & 0xF0) | h == b) by (bit_vector)
            requires
                h == b & 0x0F,
        ;
    }
}

/// `b` rotated one step, `n` times over.
pub open spec fn rotate_steps(b: u8, n: nat) -> u8
    decreases n,
{
    if n == 0 {
        b
    } else {
        spec_rotate_hue(rotate_steps(b, (n - 1) as nat), 1)
    }
}

/// `n` single steps equal one rotation by `n` (mod 12).
pub proof fn lemma_rotate_steps(b: u8, n: nat)
    ensures
        rotate_steps(b, n) == spec_rotate_hue(b, (n % 12) as u8),
    decreases n,
{
    if n == 0 {
        lemma_rotate_by_zero(b);
    } else {
        lemma_rotate_steps(b, (n - 1) as nat);
        lemma_rotate_compose(b, ((n - 1) % 12) as u8, 1);
        assert(((n - 1) % 12 + 1) % 12 == n % 12);
    }
}

/// Twelve single steps bring every byte back to itself.
pub proof fn lemma_twelve_steps_return(b: u8)
    ensures
        rotate_steps(b, 12) == b,
{
    lemma_rotate_steps(b, 12);
    lemma_rotate_by_zero(b);
}


/// Character palettes: `[bg mirror, body, highlight, outline]` quartets of
/// Mario and Luigi in each power-up. Only the body and highlight bytes are
/// randomized: byte 0 mirrors the universal background colour and byte 3 is
/// the outline.
pub open spec fn palette_offsets() -> Seq<usize> {
    seq![0x10539usize, 0x1053D, 0x10541, 0x10549, 0x1054D, 0x10551]
}

/// File offsets of the character palette quartets (Small/Big/Raccoon Mario,
/// Small/Big/Raccoon Luigi, Fire, Frog, Tanooki, Hammer).
pub fn palette_ranges() -> (r: [usize; 6])
    ensures
        r@ == palette_offsets(),
{
    let r = [0x10539usize, 0x1053D, 0x10541, 0x10549, 0x1054D, 0x10551];
    assert(r@ =~= palette_offsets());
    r
}

/// A colour that renders well: the base 64-colour palette minus the
/// 0x0D-0x0F black/forbidden column.
pub open spec fn is_safe_color(b: u8) -> bool {
    b <= 0x3C && (b & 0x0F) <= 0x0C
}

/// The `i`-th safe colour in palette order: thirteen per luminance row.
pub open spec fn safe_color_at(i: int) -> u8 {
    ((i / 13) * 16 + i % 13) as u8
}

proof fn lemma_safe_color_at(i: int)
    requires
        0 <= i < 52,
    ensures
        is_safe_color(safe_color_at(i)),
{
    let q = i / 13;
    let r = i % 13;
    assert(0 <= q < 4 && 0 <= r < 13);
    let b = safe_color_at(i);
    assert(b == q * 16 + r);
    assert((b & 0x0F) <= 0x0C) by (bit_vector)
        requires
            (b <= 0x0C || (0x10 <= b <= 0x1C) || (0x20 <= b <= 0x2C) || (0x30 <= b <= 0x3C)),
    ;
}

/// The `i`-th safe colour.
pub fn safe_color(i: usize) -> (c: u8)
    requires
        i < 52,
    ensures
        c == safe_color_at(i as int),
        is_safe_color(c),
{
    proof {
        lemma_safe_color_at(i as int);
    }
    ((i / 13) * 16 + i % 13) as u8
}

/// The safe colours, in palette order.
pub fn safe_colors() -> (c: [u8; 52])
    ensures
        forall|i: int| 0 <= i < 52 ==> c@[i] == safe_color_at(i),
        forall|i: int| 0 <= i < 52 ==> is_safe_color(#[trigger] c@[i]),
{
    let mut c: [u8; 52] = [0; 52];
    let mut i: usize = 0;
    while i < 52
        invariant
            i <= 52,
            forall|m: int| 0 <= m < i ==> c@[m] == safe_color_at(m),
            forall|m: int| 0 <= m < i ==> is_safe_color(#[trigger] c@[m]),
        decreases 52 - i,
    {
        let x = safe_color(i);
        c[i] = x;
        i = i + 1;
    }
    c
}

proof fn lemma_palette_offsets()
    ensures
        forall|m: int| 0 <= m < 6 ==> 0x10539 <= #[trigger] palette_offsets()[m] <= 0x10551,
{
    assert forall|m: int| 0 <= m < 6 implies 0x10539 <= #[trigger] palette_offsets()[m] <= 0x10551 by {
        if m == 0 {} else if m == 1 {} else if m == 2 {} else if m == 3 {} else if m == 4 {} else {}
    }
}

/// `k` is a body or highlight byte of one of the character palettes.
pub open spec fn is_character_byte(k: int) -> bool {
    exists|j: int|
        0 <= j < 6 && (k == palette_offsets()[j] + 1 || k == palette_offsets()[j] + 2)
}

/// `new` is `old` with every character body/highlight byte replaced by a
/// safe colour and every other byte kept.
pub open spec fn characters_randomized(old: Seq<u8>, new: Seq<u8>) -> bool {
    &&& new.len() == old.len()
    &&& forall|k: int| 0 <= k < new.len() && is_character_byte(k) ==> is_safe_color(#[trigger] new[k])
    &&& forall|k: int| 0 <= k < new.len() && !is_character_byte(k) ==> #[trigger] new[k] == old[k]
}

/// The ROM after the first `n` character palettes take the colours picked by
/// `picks`: palette `j`'s body is safe colour `picks[2j]`, its highlight safe
/// colour `picks[2j + 1]`.
pub open spec fn colors_applied(rom: Seq<u8>, picks: Seq<usize>, n: int) -> Seq<u8>
    decreases n,
{
    if n <= 0 {
        rom
    } else {
        colors_applied(rom, picks, n - 1).update(
            palette_offsets()[n - 1] + 1,
            safe_color_at(picks[2 * n - 2] as int),
        ).update(palette_offsets()[n - 1] + 2, safe_color_at(picks[2 * n - 1] as int))
    }
}

/// Indices into the safe-colour table, two per character palette.
pub open spec fn valid_picks(picks: Seq<usize>) -> bool {
    picks.len() == 12 && forall|i: int| 0 <= i < 12 ==> #[trigger] picks[i] < 52
}

proof fn lemma_colors_applied(rom: Seq<u8>, picks: Seq<usize>, n: int)
    requires
        0 <= n <= 6,
        0x10554 <= rom.len(),
        valid_picks(picks),
    ensures
        colors_applied(rom, picks, n).len() == rom.len(),
        forall|k: int|
            0 <= k < rom.len() && (exists|m: int| 0 <= m < n && (k == palette_offsets()[m] + 1
                || k == palette_offsets()[m] + 2)) ==> is_safe_color(
                #[trigger] colors_applied(rom, picks, n)[k],
            ),
        forall|k: int|
            0 <= k < rom.len() && !(exists|m: int| 0 <= m < n && (k == palette_offsets()[m] + 1
                || k == palette_offsets()[m] + 2)) ==> #[trigger] colors_applied(rom, picks, n)[k]
                == rom[k],
    decreases n,
{
    lemma_palette_offsets();
    if n > 0 {
        lemma_colors_applied(rom, picks, n - 1);
        let prev = colors_applied(rom, picks, n - 1);
        let cur = colors_applied(rom, picks, n);
        let off = palette_offsets()[n - 1];
        lemma_safe_color_at(picks[2 * n - 2] as int);
        lemma_safe_color_at(picks[2 * n - 1] as int);
        assert forall|k: int|
            0 <= k < rom.len() && (exists|m: int| 0 <= m < n && (k == palette_offsets()[m] + 1
                || k == palette_offsets()[m] + 2)) implies is_safe_color(#[trigger] cur[k]) by {
            if k != off + 1 && k != off + 2 {
                let m = choose|m: int| 0 <= m < n && (k == palette_offsets()[m] + 1
                    || k == palette_offsets()[m] + 2);
                assert(m != n - 1);
                assert(prev[k] == cur[k]);
            }
        }
        assert forall|k: int|
            0 <= k < rom.len() && !(exists|m: int| 0 <= m < n && (k == palette_offsets()[m] + 1
                || k == palette_offsets()[m] + 2)) implies #[trigger] cur[k] == rom[k] by {
            assert(k != off + 1 && k != off + 2);
            assert(prev[k] == cur[k]);
        }
    }
}

/// Paint the character palettes with the safe colours at the picked
/// indices: what the randomizer does with its twelve draws.
pub fn apply_character_colors(rom: &mut Rom, picks: &[usize; 12])
    requires
        0x10554 <= old(rom)@.len(),
        valid_picks(picks@),
    ensures
        final(rom)@ == colors_applied(old(rom)@, picks@, 6),
        characters_randomized(old(rom)@, final(rom)@),
{
    let offsets = palette_ranges();
    let colors = safe_colors();
    proof {
        lemma_palette_offsets();
    }
    let mut j: usize = 0;
    while j < 6
        invariant
            j <= 6,
            offsets@ == palette_offsets(),
            0x10554 <= old(rom)@.len(),
            valid_picks(picks@),
            forall|m: int| 0 <= m < 6 ==> 0x10539 <= #[trigger] palette_offsets()[m] <= 0x10551,
            forall|i: int| 0 <= i < 52 ==> colors@[i] == safe_color_at(i),
            rom@ == colors_applied(old(rom)@, picks@, j as int),
            rom@.len() == old(rom)@.len(),
        decreases 6 - j,
    {
        let offset = offsets[j];
        rom.write_byte(offset + 1, colors[picks[2 * j]]);
        rom.write_byte(offset + 2, colors[picks[2 * j + 1]]);
        j = j + 1;
    }
    proof {
        lemma_colors_applied(old(rom)@, picks@, 6);
    }
}

/// Randomize character sprite palettes (Mario/Luigi power-up colours): each
/// body and highlight byte takes a safe colour drawn uniformly.
pub fn randomize(rom: &mut Rom, rng: &mut ChaCha8Rng)
    requires
        0x10554 <= old(rom)@.len(),
    ensures
        characters_randomized(old(rom)@, final(rom)@),
        exists|picks: Seq<usize>|
            valid_picks(picks) && final(rom)@ == #[trigger] colors_applied(old(rom)@, picks, 6),
{
    let mut picks: [usize; 12] = [0; 12];
    let mut i: usize = 0;
    while i < 12
        invariant
            i <= 12,
            forall|m: int| 0 <= m < i ==> #[trigger] picks@[m] < 52,
        decreases 12 - i,
    {
        let p = random_below(rng, 52);
        picks[i] = p;
        i = i + 1;
    }
    apply_character_colors(rom, &picks);
}

// ---------------------------------------------------------------------------
// Themed palettes
// ---------------------------------------------------------------------------

/// Number of theme groups.
pub const THEME_GROUP_COUNT: usize = 9;

/// A set of palette regions that paint the same screens and share one hue
/// shift per roll, constrained to shifts that keep their dominant colours
/// plausible.
pub struct ThemeGroup {
    pub name: &'static str,
    /// File-offset ranges `[start, end)` belonging to the group.
    pub ranges: Vec<(usize, usize)>,
    /// Allowed hue shifts (0-11), rolled uniformly.
    pub shifts: Vec<u8>,
}

/// Ranges of theme group `g`: maps, sprites/text, plains, giant, fortress,
/// lava/bowser, pool, water, desert/airship.
pub open spec fn theme_ranges(g: int) -> Seq<(usize, usize)> {
    if g == 0 {
        seq![(0x36BE4usize, 0x36C54usize)]
    } else if g == 1 {
        seq![(0x36C54usize, 0x36C8Cusize)]
    } else if g == 2 {
        seq![(0x36C8Cusize, 0x36CC4usize), (0x36CFCusize, 0x36D34usize), (0x37600usize, 0x377E0usize), (0x37808usize, 0x37850usize)]
    } else if g == 3 {
        seq![(0x36CC4usize, 0x36CFCusize), (0x37400usize, 0x37600usize)]
    } else if g == 4 {
        seq![(0x36D34usize, 0x36DA6usize)]
    } else if g == 5 {
        seq![(0x36DA8usize, 0x36E20usize)]
    } else if g == 6 {
        seq![(0x36E20usize, 0x37000usize)]
    } else if g == 7 {
        seq![(0x37000usize, 0x37200usize)]
    } else {
        seq![(0x37200usize, 0x37400usize)]
    }
}

/// Allowed shifts of theme group `g` (11 = -1, 10 = -2 mod 12). Plains,
/// giant and water tolerate -2; the others stay within one step.
pub open spec fn theme_shifts(g: int) -> Seq<u8> {
    if g == 0 {
        seq![0u8, 1u8, 11u8]
    } else if g == 1 {
        seq![0u8, 1u8, 11u8]
    } else if g == 2 {
        seq![0u8, 1u8, 11u8, 10u8]
    } else if g == 3 {
        seq![0u8, 1u8, 11u8, 10u8]
    } else if g == 4 {
        seq![0u8, 1u8, 11u8]
    } else if g == 5 {
        seq![0u8, 1u8, 11u8]
    } else if g == 6 {
        seq![0u8, 1u8, 11u8]
    } else if g == 7 {
        seq![0u8, 1u8, 11u8, 10u8]
    } else {
        seq![0u8, 1u8, 11u8]
    }
}

/// The theme groups, in declaration order.
pub fn theme_groups() -> (v: Vec<ThemeGroup>)
    ensures
        v@.len() == THEME_GROUP_COUNT,
        forall|g: int| 0 <= g < THEME_GROUP_COUNT ==> (#[trigger] v@[g]).ranges@ == theme_ranges(g)
            && v@[g].shifts@ == theme_shifts(g),
{
    let v = vec![
        ThemeGroup { name: "maps", ranges: vec![(0x36BE4, 0x36C54)], shifts: vec![0, 1, 11] },
        ThemeGroup { name: "sprites/text", ranges: vec![(0x36C54, 0x36C8C)], shifts: vec![0, 1, 11] },
        ThemeGroup { name: "plains", ranges: vec![(0x36C8C, 0x36CC4), (0x36CFC, 0x36D34), (0x37600, 0x377E0), (0x37808, 0x37850)], shifts: vec![0, 1, 11, 10] },
        ThemeGroup { name: "giant", ranges: vec![(0x36CC4, 0x36CFC), (0x37400, 0x37600)], shifts: vec![0, 1, 11, 10] },
        ThemeGroup { name: "fortress", ranges: vec![(0x36D34, 0x36DA6)], shifts: vec![0, 1, 11] },
        ThemeGroup { name: "lava/bowser", ranges: vec![(0x36DA8, 0x36E20)], shifts: vec![0, 1, 11] },
        ThemeGroup { name: "pool", ranges: vec![(0x36E20, 0x37000)], shifts: vec![0, 1, 11] },
        ThemeGroup { name: "water", ranges: vec![(0x37000, 0x37200)], shifts: vec![0, 1, 11, 10] },
        ThemeGroup { name: "desert/airship", ranges: vec![(0x37200, 0x37400)], shifts: vec![0, 1, 11] },
    ];
    assert forall|g: int| 0 <= g < THEME_GROUP_COUNT implies (#[trigger] v@[g]).ranges@ == theme_ranges(g)
        && v@[g].shifts@ == theme_shifts(g) by {
        if g == 0 {
            assert(v@[g].ranges@ =~= theme_ranges(g) && v@[g].shifts@ =~= theme_shifts(g));
        } else if g == 1 {
            assert(v@[g].ranges@ =~= theme_ranges(g) && v@[g].shifts@ =~= theme_shifts(g));
        } else if g == 2 {
            assert(v@[g].ranges@ =~= theme_ranges(g) && v@[g].shifts@ =~= theme_shifts(g));
        } else if g == 3 {
            assert(v@[g].ranges@ =~= theme_ranges(g) && v@[g].shifts@ =~= theme_shifts(g));
        } else if g == 4 {
            assert(v@[g].ranges@ =~= theme_ranges(g) && v@[g].shifts@ =~= theme_shifts(g));
        } else if g == 5 {
            assert(v@[g].ranges@ =~= theme_ranges(g) && v@[g].shifts@ =~= theme_shifts(g));
        } else if g == 6 {
            assert(v@[g].ranges@ =~= theme_ranges(g) && v@[g].shifts@ =~= theme_shifts(g));
        } else if g == 7 {
            assert(v@[g].ranges@ =~= theme_ranges(g) && v@[g].shifts@ =~= theme_shifts(g));
        } else {
            assert(v@[g].ranges@ =~= theme_ranges(g) && v@[g].shifts@ =~= theme_shifts(g));
        }
    }
    v
}

/// Offset `off` lies in one of the ranges of theme group `g`.
pub open spec fn in_theme(off: int, g: int) -> bool {
    exists|i: int|
        0 <= i < theme_ranges(g).len() && (#[trigger] theme_ranges(g)[i]).0 <= off < theme_ranges(g)[i].1
}

/// The first theme group at or after `g` that owns `off`.
pub open spec fn first_theme_from(off: int, g: int) -> Option<int>
    decreases THEME_GROUP_COUNT - g,
{
    if g >= THEME_GROUP_COUNT || g < 0 {
        None
    } else if in_theme(off, g) {
        Some(g)
    } else {
        first_theme_from(off, g + 1)
    }
}

/// The theme group owning `off`, if any.
pub open spec fn spec_theme_group_for(off: int) -> Option<int> {
    first_theme_from(off, 0)
}

/// The theme group owning a file offset; offsets no group owns get `None`
/// and are left unrotated.
pub fn theme_group_for(offset: usize) -> (r: Option<usize>)
    ensures
        match r {
            Some(g) => spec_theme_group_for(offset as int) == Some(g as int),
            None => spec_theme_group_for(offset as int) is None,
        },
{
    let groups = theme_groups();
    let mut g: usize = 0;
    while g < THEME_GROUP_COUNT
        invariant
            g <= THEME_GROUP_COUNT,
            groups@.len() == THEME_GROUP_COUNT,
            forall|h: int| 0 <= h < THEME_GROUP_COUNT ==> (#[trigger] groups@[h]).ranges@ == theme_ranges(h)
                && groups@[h].shifts@ == theme_shifts(h),
            spec_theme_group_for(offset as int) == first_theme_from(offset as int, g as int),
        decreases THEME_GROUP_COUNT - g,
    {
        let ranges = &groups[g].ranges;
        let mut i: usize = 0;
        let mut found = false;
        while i < ranges.len()
            invariant
                i <= ranges@.len(),
                ranges@ == theme_ranges(g as int),
                found == exists|k: int| 0 <= k < i && (#[trigger] ranges@[k]).0 <= offset < ranges@[k].1,
            decreases ranges@.len() - i,
        {
            let (start, end) = ranges[i];
            if start <= offset && offset < end {
                found = true;
            }
            i = i + 1;
        }
        if found {
            return Some(g);
        }
        g = g + 1;
    }
    None
}

/// The hue shift for a file offset: its theme group's shift, or 0.
pub open spec fn spec_shift_for(off: int, shifts: Seq<u8>) -> u8 {
    match spec_theme_group_for(off) {
        Some(g) => shifts[g],
        None => 0,
    }
}

fn shift_for(offset: usize, group_shifts: &Vec<u8>) -> (s: u8)
    requires
        group_shifts@.len() == THEME_GROUP_COUNT,
    ensures
        s == spec_shift_for(offset as int, group_shifts@),
{
    match theme_group_for(offset) {
        Some(gi) => {
            proof {
                lemma_first_theme_in_range(offset as int, 0);
            }
            group_shifts[gi]
        },
        None => 0,
    }
}

proof fn lemma_first_theme_in_range(off: int, g: int)
    ensures
        first_theme_from(off, g) matches Some(h) ==> 0 <= h < THEME_GROUP_COUNT,
    decreases THEME_GROUP_COUNT - g,
{
    if g >= 0 && g < THEME_GROUP_COUNT && !in_theme(off, g) {
        lemma_first_theme_in_range(off, g + 1);
    }
}

/// A quartet with each byte hue-rotated by `shift`.
pub open spec fn rotated_quartet(q: [u8; 4], shift: u8) -> Seq<u8> {
    seq![
        spec_rotate_hue(q@[0], shift),
        spec_rotate_hue(q@[1], shift),
        spec_rotate_hue(q@[2], shift),
        spec_rotate_hue(q@[3], shift),
    ]
}

/// `rom` with the picked variant of each group, rotated by its theme
/// group's shift, written in group order.
pub open spec fn write_groups(
    rom: Seq<u8>,
    groups: Seq<(usize, Seq<[u8; 4]>)>,
    picks: Seq<[u8; 4]>,
    shifts: Seq<u8>,
) -> Seq<u8>
    decreases groups.len(),
{
    if groups.len() == 0 {
        rom
    } else {
        let last = groups.last();
        spliced(
            write_groups(rom, groups.drop_last(), picks.drop_last(), shifts),
            last.0 as int,
            rotated_quartet(picks[groups.len() - 1], spec_shift_for(last.0 as int, shifts)),
        )
    }
}

/// `picks` holds one listed variant per group.
pub open spec fn picks_valid(groups: Seq<(usize, Seq<[u8; 4]>)>, picks: Seq<[u8; 4]>) -> bool {
    &&& picks.len() == groups.len()
    &&& forall|j: int| 0 <= j < groups.len() ==> groups[j].1.contains(#[trigger] picks[j])
}

/// Every shift is below 12.
pub open spec fn shifts_small(shifts: Seq<u8>) -> bool {
    &&& shifts.len() == THEME_GROUP_COUNT
    &&& forall|g: int| 0 <= g < shifts.len() ==> #[trigger] shifts[g] < 12
}

/// Draw one listed variant for each curated position.
fn draw_variant_picks(groups: &Vec<VariantGroup>, rng: &mut ChaCha8Rng) -> (picks: Vec<[u8; 4]>)
    requires
        forall|j: int| 0 <= j < groups@.len() ==> (#[trigger] groups@[j]).variants@.len() > 0,
    ensures
        picks_valid(groups@.map_values(|g: VariantGroup| group_view(g)), picks@),
{
    let ghost gv = groups@.map_values(|g: VariantGroup| group_view(g));
    let mut picks: Vec<[u8; 4]> = Vec::new();
    let mut j: usize = 0;
    while j < groups.len()
        invariant
            j <= groups@.len(),
            gv == groups@.map_values(|g: VariantGroup| group_view(g)),
            forall|k: int| 0 <= k < groups@.len() ==> (#[trigger] groups@[k]).variants@.len() > 0,
            picks_valid(gv.take(j as int), picks@),
        decreases groups@.len() - j,
    {
        let group = &groups[j];
        let picked = match choose_one(group.variants.as_slice(), rng) {
            Some(p) => p,
            None => {
                assert(false);
                [0u8; 4]
            },
        };
        picks.push(picked);
        proof {
            assert(gv[j as int] == group_view(groups@[j as int]));
        }
        j = j + 1;
    }
    assert(gv.take(groups@.len() as int) =~= gv);
    picks
}

/// Write each curated position's picked variant, hue-rotated by its theme
/// group's shift.
fn write_variant_groups(rom: &mut Rom, groups: &Vec<VariantGroup>, group_shifts: &Vec<u8>, picks: &Vec<[u8; 4]>)
    requires
        shifts_small(group_shifts@),
        picks_valid(groups@.map_values(|g: VariantGroup| group_view(g)), picks@),
        forall|j: int| 0 <= j < groups@.len() ==> (#[trigger] groups@[j]).offset + 4 <= old(rom)@.len(),
    ensures
        final(rom)@ == write_groups(
            old(rom)@,
            groups@.map_values(|g: VariantGroup| group_view(g)),
            picks@,
            group_shifts@,
        ),
{
    let ghost gv = groups@.map_values(|g: VariantGroup| group_view(g));
    let mut j: usize = 0;
    while j < groups.len()
        invariant
            j <= groups@.len(),
            gv == groups@.map_values(|g: VariantGroup| group_view(g)),
            shifts_small(group_shifts@),
            picks@.len() == groups@.len(),
            forall|k: int| 0 <= k < groups@.len() ==> (#[trigger] groups@[k]).offset + 4 <= old(rom)@.len(),
            rom@.len() == old(rom)@.len(),
            rom@ == write_groups(old(rom)@, gv.take(j as int), picks@.take(j as int), group_shifts@),
        decreases groups@.len() - j,
    {
        let group = &groups[j];
        let picked = picks[j];
        let shift = shift_for(group.offset, group_shifts);
        proof {
            lemma_first_theme_in_range(group.offset as int, 0);
            assert(shift < 12);
            assert forall|i: int| 0 <= i < 4 && is_chromatic(#[trigger] picked@[i]) implies (picked@[i] & 0x0F)
                + shift <= 256 by {
                let b = picked@[i];
                lemma_byte_nibbles(b);
            }
        }
        let rotated = [
            rotate_hue(picked[0], shift),
            rotate_hue(picked[1], shift),
            rotate_hue(picked[2], shift),
            rotate_hue(picked[3], shift),
        ];
        assert(rotated@ =~= rotated_quartet(picked, shift));
        proof {
            assert(group.offset + 4 <= old(rom)@.len());
        }
        rom.write_range(group.offset, rotated.as_slice());
        proof {
            let t = gv.take(j + 1);
            assert(t.drop_last() =~= gv.take(j as int));
            assert(picks@.take(j + 1).drop_last() =~= picks@.take(j as int));
            assert(picks@.take(j + 1).last() == picked);
            assert(t.last() == group_view(groups@[j as int]));
        }
        j = j + 1;
    }
    assert(gv.take(groups@.len() as int) =~= gv);
    assert(picks@.take(groups@.len() as int) =~= picks@);
}

/// Write the themed palettes for given draws: each curated quartet gets
/// `picks[j]` rotated by its theme group's shift, then every rotate-only
/// quartet is hue-rotated in place. This is what [`randomize_themed`] does
/// with the shifts and variants it draws.
pub fn apply_themed_draws(rom: &mut Rom, group_shifts: &Vec<u8>, picks: &Vec<[u8; 4]>)
    requires
        0x37850 <= old(rom)@.len(),
        shifts_allowed(group_shifts@),
        picks_valid(themed_groups_spec(), picks@),
    ensures
        final(rom)@ == rotate_quartets(
            write_groups(old(rom)@, themed_groups_spec(), picks@, group_shifts@),
            rotate_only_spec(),
            group_shifts@,
        ),
{
    proof {
        assert forall|h: int| 0 <= h < group_shifts@.len() implies #[trigger] group_shifts@[h] < 12 by {
            let s = group_shifts@[h];
            assert(theme_shifts(h).contains(s));
            lemma_theme_shifts_subtle(h, s);
        }
    }
    let regions = themed_regions();
    let region = &regions[0];
    proof {
        lemma_plains_slot3_facts();
        let gv = region@.map_values(|g: VariantGroup| group_view(g));
        assert forall|j: int| 0 <= j < region@.len() implies (#[trigger] region@[j]).offset + 4 <= rom@.len() by {
            assert(gv[j] == group_view(region@[j]));
        }
    }
    write_variant_groups(rom, region, group_shifts, picks);
    let quartets = rotate_only_quartets();
    rotate_quartets_in_place(rom, &quartets, group_shifts);
}

/// `rom` with each listed quartet hue-rotated in place by its theme group's
/// shift, quartet by quartet in list order.
pub open spec fn rotate_quartets(rom: Seq<u8>, offsets: Seq<usize>, shifts: Seq<u8>) -> Seq<u8>
    decreases offsets.len(),
{
    if offsets.len() == 0 {
        rom
    } else {
        let r = rotate_quartets(rom, offsets.drop_last(), shifts);
        let off = offsets.last() as int;
        let s = spec_shift_for(off, shifts);
        spliced(
            r,
            off,
            seq![
                spec_rotate_hue(r[off], s),
                spec_rotate_hue(r[off + 1], s),
                spec_rotate_hue(r[off + 2], s),
                spec_rotate_hue(r[off + 3], s),
            ],
        )
    }
}

proof fn lemma_rotate_quartets_len(rom: Seq<u8>, offsets: Seq<usize>, shifts: Seq<u8>)
    ensures
        rotate_quartets(rom, offsets, shifts).len() == rom.len(),
    decreases offsets.len(),
{
    if offsets.len() > 0 {
        lemma_rotate_quartets_len(rom, offsets.drop_last(), shifts);
    }
}

/// Hue-rotate each kept-vanilla quartet in place by its theme group's shift.
fn rotate_quartets_in_place(rom: &mut Rom, offsets: &Vec<usize>, group_shifts: &Vec<u8>)
    requires
        shifts_small(group_shifts@),
        forall|j: int| 0 <= j < offsets@.len() ==> #[trigger] offsets@[j] + 4 <= old(rom)@.len(),
    ensures
        final(rom)@ == rotate_quartets(old(rom)@, offsets@, group_shifts@),
{
    let mut q: usize = 0;
    while q < offsets.len()
        invariant
            q <= offsets@.len(),
            shifts_small(group_shifts@),
            forall|j: int| 0 <= j < offsets@.len() ==> #[trigger] offsets@[j] + 4 <= old(rom)@.len(),
            rom@.len() == old(rom)@.len(),
            rom@ == rotate_quartets(old(rom)@, offsets@.take(q as int), group_shifts@),
        decreases offsets@.len() - q,
    {
        let offset = offsets[q];
        let shift = shift_for(offset, group_shifts);
        proof {
            assert(offsets@[q as int] + 4 <= old(rom)@.len());
            lemma_first_theme_in_range(offset as int, 0);
            assert(shift < 12);
        }
        let _total = rom.len();
        let b0 = rom.read_byte(offset);
        let b1 = rom.read_byte(offset + 1);
        let b2 = rom.read_byte(offset + 2);
        let b3 = rom.read_byte(offset + 3);
        proof {
            lemma_byte_nibbles(b0);
            lemma_byte_nibbles(b1);
            lemma_byte_nibbles(b2);
            lemma_byte_nibbles(b3);
        }
        let rotated = [
            rotate_hue(b0, shift),
            rotate_hue(b1, shift),
            rotate_hue(b2, shift),
            rotate_hue(b3, shift),
        ];
        let ghost before = rom@;
        rom.write_range(offset, rotated.as_slice());
        proof {
            let t = offsets@.take(q + 1);
            assert(t.drop_last() =~= offsets@.take(q as int));
            assert(t.last() == offset);
            assert(rom@ =~= rotate_quartets(old(rom)@, t, group_shifts@));
        }
        q = q + 1;
    }
    assert(offsets@.take(offsets@.len() as int) =~= offsets@);
}

/// The curated groups `randomize_themed` writes, in write order.
pub open spec fn themed_groups_spec() -> Seq<(usize, Seq<[u8; 4]>)> {
    plains_slot3_spec()
}

proof fn lemma_plains_slot3_facts()
    ensures
        plains_slot3_spec().len() == 8,
        forall|j: int| 0 <= j < 8 ==> (#[trigger] plains_slot3_spec()[j]).1.len() == 2
            && 0x36C94 <= plains_slot3_spec()[j].0 <= 0x36CC0,
{
    let s = plains_slot3_spec();
    assert forall|j: int| 0 <= j < 8 implies (#[trigger] s[j]).1.len() == 2 && 0x36C94 <= s[j].0
        <= 0x36CC0 by {
        if j == 0 {} else if j == 1 {} else if j == 2 {} else if j == 3 {} else if j == 4 {
        } else if j == 5 {} else if j == 6 {} else {}
    }
}

/// The variant-group regions applied by `randomize_themed`, in write order.
pub fn themed_regions() -> (v: Vec<Vec<VariantGroup>>)
    ensures
        v@.len() == 1,
        v@[0]@.map_values(|g: VariantGroup| group_view(g)) == plains_slot3_spec(),
{
    let mut v: Vec<Vec<VariantGroup>> = Vec::new();
    v.push(plains_slot3_variants());
    v
}

/// Kept-vanilla quartets holding chromatic bytes: they never swap variants
/// but do hue-rotate, so an unrotated green cannot clash with rotated
/// neighbours. No quartet is registered.
pub fn rotate_only_quartets() -> (v: Vec<usize>)
    ensures
        v@ == rotate_only_spec(),
{
    Vec::new()
}

/// The kept-vanilla quartets `randomize_themed` hue-rotates in place.
pub open spec fn rotate_only_spec() -> Seq<usize> {
    Seq::empty()
}

/// `shifts` holds one allowed shift per theme group.
pub open spec fn shifts_allowed(shifts: Seq<u8>) -> bool {
    &&& shifts.len() == THEME_GROUP_COUNT
    &&& forall|g: int| 0 <= g < THEME_GROUP_COUNT ==> theme_shifts(g).contains(#[trigger] shifts[g])
}

/// Every allowed shift is within two steps of vanilla (0, 1, 2, 10 or 11),
/// and every group allows vanilla hues.
pub proof fn lemma_theme_shifts_subtle(g: int, s: u8)
    requires
        0 <= g < THEME_GROUP_COUNT,
        theme_shifts(g).contains(s),
    ensures
        s == 0 || s == 1 || s == 2 || s == 10 || s == 11,
        theme_shifts(g).contains(0),
{
    assert(theme_shifts(g)[0] == 0);
}

/// What themed randomization leaves: the character palettes randomized,
/// one allowed shift per theme group, and over that every curated position
/// holding one of its variants rotated by its theme group's shift.
pub open spec fn themed_result(old: Seq<u8>, new: Seq<u8>) -> bool {
    exists|chars: Seq<u8>, shifts: Seq<u8>, picks: Seq<[u8; 4]>|
        characters_randomized(old, chars) && shifts_allowed(shifts) && picks_valid(
            themed_groups_spec(),
            picks,
        ) && new == rotate_quartets(
            write_groups(chars, themed_groups_spec(), picks, shifts),
            rotate_only_spec(),
            shifts,
        )
}

/// Themed palette randomization: character palettes as in [`randomize`],
/// then one hue shift rolled per theme group (in declaration order), then
/// for every curated position one whole pre-validated variant, rotated by
/// its theme group's shift.
pub fn randomize_themed(rom: &mut Rom, rng: &mut ChaCha8Rng)
    requires
        0x37850 <= old(rom)@.len(),
    ensures
        themed_result(old(rom)@, final(rom)@),
{
    randomize(rom, rng);
    let ghost chars = rom@;
    let groups = theme_groups();
    let mut group_shifts: Vec<u8> = Vec::new();
    let mut g: usize = 0;
    while g < THEME_GROUP_COUNT
        invariant
            g <= THEME_GROUP_COUNT,
            groups@.len() == THEME_GROUP_COUNT,
            forall|h: int| 0 <= h < THEME_GROUP_COUNT ==> (#[trigger] groups@[h]).ranges@ == theme_ranges(h)
                && groups@[h].shifts@ == theme_shifts(h),
            group_shifts@.len() == g,
            forall|h: int| 0 <= h < g ==> theme_shifts(h).contains(#[trigger] group_shifts@[h]),
        decreases THEME_GROUP_COUNT - g,
    {
        let s = match choose_one(groups[g].shifts.as_slice(), rng) {
            Some(s) => s,
            None => {
                assert(theme_shifts(g as int).len() > 0);
                assert(false);
                0
            },
        };
        group_shifts.push(s);
        g = g + 1;
    }
    let regions = themed_regions();
    let region = &regions[0];
    proof {
        lemma_plains_slot3_facts();
        let gv = region@.map_values(|g: VariantGroup| group_view(g));
        assert forall|j: int| 0 <= j < region@.len() implies (#[trigger] region@[j]).variants@.len() > 0 by {
            assert(gv[j] == group_view(region@[j]));
        }
    }
    let picks = draw_variant_picks(region, rng);
    assert(shifts_allowed(group_shifts@));
    apply_themed_draws(rom, &group_shifts, &picks);
    assert(characters_randomized(old(rom)@, chars) && shifts_allowed(group_shifts@) && picks_valid(
        themed_groups_spec(),
        picks@,
    ) && rom@ == rotate_quartets(
        write_groups(chars, themed_groups_spec(), picks@, group_shifts@),
        rotate_only_spec(),
        group_shifts@,
    ));
}

/// `k` lies in one of the curated quartets of `groups`.
pub open spec fn in_quartet(groups: Seq<(usize, Seq<[u8; 4]>)>, k: int) -> bool {
    exists|j: int| 0 <= j < groups.len() && (#[trigger] groups[j]).0 <= k < groups[j].0 + 4
}

/// Quartets lie in ascending order without overlapping.
pub open spec fn quartets_separate(groups: Seq<(usize, Seq<[u8; 4]>)>) -> bool {
    forall|j: int, l: int| 0 <= j < l < groups.len() ==> groups[j].0 + 4 <= groups[l].0
}

proof fn lemma_write_groups_len(rom: Seq<u8>, groups: Seq<(usize, Seq<[u8; 4]>)>, picks: Seq<[u8; 4]>, shifts: Seq<u8>)
    ensures
        write_groups(rom, groups, picks, shifts).len() == rom.len(),
    decreases groups.len(),
{
    if groups.len() > 0 {
        lemma_write_groups_len(rom, groups.drop_last(), picks.drop_last(), shifts);
    }
}

/// Bytes outside every curated quartet are left alone.
pub proof fn lemma_write_groups_outside(
    rom: Seq<u8>,
    groups: Seq<(usize, Seq<[u8; 4]>)>,
    picks: Seq<[u8; 4]>,
    shifts: Seq<u8>,
    k: int,
)
    requires
        0 <= k < rom.len(),
        !in_quartet(groups, k),
    ensures
        write_groups(rom, groups, picks, shifts)[k] == rom[k],
    decreases groups.len(),
{
    if groups.len() > 0 {
        let t = groups.drop_last();
        assert(!in_quartet(t, k)) by {
            if in_quartet(t, k) {
                let j = choose|j: int| 0 <= j < t.len() && (#[trigger] t[j]).0 <= k < t[j].0 + 4;
                assert(groups[j] == t[j]);
            }
        }
        assert(!(groups.last().0 <= k < groups.last().0 + 4)) by {
            if groups.last().0 <= k < groups.last().0 + 4 {
                assert(groups[groups.len() - 1] == groups.last());
            }
        }
        lemma_write_groups_outside(rom, t, picks.drop_last(), shifts, k);
        lemma_write_groups_len(rom, t, picks.drop_last(), shifts);
    }
}

/// With separate quartets, each holds its pick rotated by its shift.
pub proof fn lemma_write_groups_at(
    rom: Seq<u8>,
    groups: Seq<(usize, Seq<[u8; 4]>)>,
    picks: Seq<[u8; 4]>,
    shifts: Seq<u8>,
    j: int,
    i: int,
)
    requires
        picks.len() == groups.len(),
        quartets_separate(groups),
        0 <= j < groups.len(),
        0 <= i < 4,
        forall|l: int| 0 <= l < groups.len() ==> (#[trigger] groups[l]).0 + 4 <= rom.len(),
    ensures
        write_groups(rom, groups, picks, shifts)[groups[j].0 + i] == rotated_quartet(
            picks[j],
            spec_shift_for(groups[j].0 as int, shifts),
        )[i],
    decreases groups.len(),
{
    let t = groups.drop_last();
    lemma_write_groups_len(rom, t, picks.drop_last(), shifts);
    if j < groups.len() - 1 {
        assert(groups[j].0 + 4 <= groups[groups.len() - 1].0);
        assert(quartets_separate(t));
        assert(t[j] == groups[j]);
        assert(picks.drop_last()[j] == picks[j]);
        lemma_write_groups_at(rom, t, picks.drop_last(), shifts, j, i);
    }
}

/// The curated plains quartets: ascending and separate, each inside the
/// "plains" theme group (index 2) and no other, clear of the level-layout
/// pointer table at 0x377E0-0x37807 and of the character palettes.
pub proof fn lemma_curated_quartets()
    ensures
        quartets_separate(themed_groups_spec()),
        forall|j: int|
            0 <= j < themed_groups_spec().len() ==> spec_theme_group_for(
                (#[trigger] themed_groups_spec()[j]).0 as int,
            ) == Some(2int),
        forall|j: int, g: int|
            0 <= j < themed_groups_spec().len() && 0 <= g < THEME_GROUP_COUNT && g != 2 ==> !(#[trigger] in_theme(
                themed_groups_spec()[j].0 as int,
                g,
            )),
        forall|j: int|
            0 <= j < themed_groups_spec().len() ==> (#[trigger] themed_groups_spec()[j]).0 + 4 <= 0x377E0,
        forall|j: int|
            0 <= j < themed_groups_spec().len() ==> (#[trigger] themed_groups_spec()[j]).0 >= 0x10560,
{
    let gs = themed_groups_spec();
    lemma_plains_slot3_facts();
    assert forall|j: int, l: int| 0 <= j < l < gs.len() implies gs[j].0 + 4 <= gs[l].0 by {
        if j == 0 {} else if j == 1 {} else if j == 2 {} else if j == 3 {} else if j == 4 {
        } else if j == 5 {} else {}
        if l == 1 {} else if l == 2 {} else if l == 3 {} else if l == 4 {} else if l == 5 {
        } else if l == 6 {} else {}
    }
    assert forall|j: int, g: int|
        0 <= j < gs.len() && 0 <= g < THEME_GROUP_COUNT && g != 2 implies !(#[trigger] in_theme(
            gs[j].0 as int,
            g,
        )) by {
        let o = gs[j].0 as int;
        assert(0x36C94 <= o <= 0x36CC0);
        if in_theme(o, g) {
            let i = choose|i: int|
                0 <= i < theme_ranges(g).len() && (#[trigger] theme_ranges(g)[i]).0 <= o < theme_ranges(g)[i].1;
            if g == 0 {} else if g == 1 {} else if g == 3 {
                if i == 0 {} else {}
            } else if g == 4 {} else if g == 5 {} else if g == 6 {} else if g == 7 {} else {}
        }
    }
    assert forall|j: int| 0 <= j < gs.len() implies spec_theme_group_for((#[trigger] gs[j]).0 as int)
        == Some(2int) by {
        let o = gs[j].0 as int;
        reveal_with_fuel(first_theme_from, 3);
        assert(!in_theme(o, 0));
        assert(!in_theme(o, 1));
        assert(theme_ranges(2)[0].0 <= o < theme_ranges(2)[0].1);
        assert(in_theme(o, 2));
    }
}

/// Byte `i` of curated quartet `j` of `rom` is byte `i` of the picked
/// variant `picks[j]` rotated by `shift`.
pub open spec fn slot_from_pick(rom: Seq<u8>, shift: u8, picks: Seq<[u8; 4]>, j: int, i: int) -> bool {
    rom[themed_groups_spec()[j].0 + i] == rotated_quartet(picks[j], shift)[i]
}

/// Each curated quartet of `rom` is, whole, one of its own variants
/// (`picks[j]` for quartet `j`) rotated by `shift`.
pub open spec fn quartets_rotated_by(rom: Seq<u8>, shift: u8, picks: Seq<[u8; 4]>) -> bool {
    &&& picks_valid(themed_groups_spec(), picks)
    &&& forall|j: int, i: int|
        0 <= j < themed_groups_spec().len() && 0 <= i < 4 ==> #[trigger] slot_from_pick(rom, shift, picks, j, i)
}

/// Themed randomization leaves the level-layout pointer table
/// (0x377E0-0x37807) and every byte that is neither a character palette
/// byte nor in a curated quartet untouched, and writes every curated quartet
/// whole: one of its own variants, rotated by a single shift shared by its
/// theme group (plains), drawn from that group's allowed shifts.
pub proof fn lemma_themed_laws(old: Seq<u8>, new: Seq<u8>)
    requires
        themed_result(old, new),
        0x37850 <= old.len(),
    ensures
        new.len() == old.len(),
        forall|k: int| 0x377E0 <= k < 0x37808 ==> #[trigger] new[k] == old[k],
        forall|k: int|
            0 <= k < old.len() && !is_character_byte(k) && !in_quartet(themed_groups_spec(), k)
                ==> #[trigger] new[k] == old[k],
        exists|shifts: Seq<u8>, picks: Seq<[u8; 4]>|
            shifts_allowed(shifts) && #[trigger] quartets_rotated_by(new, shifts[2], picks),
{
    let gs = themed_groups_spec();
    let (chars, shifts, picks) = choose|chars: Seq<u8>, shifts: Seq<u8>, picks: Seq<[u8; 4]>|
        characters_randomized(old, chars) && shifts_allowed(shifts) && picks_valid(gs, picks) && new
            == rotate_quartets(write_groups(chars, gs, picks, shifts), rotate_only_spec(), shifts);
    assert(new == write_groups(chars, gs, picks, shifts));
    lemma_curated_quartets();
    lemma_plains_slot3_facts();
    lemma_write_groups_len(chars, gs, picks, shifts);
    assert forall|k: int|
        0 <= k < old.len() && !is_character_byte(k) && !in_quartet(gs, k) implies #[trigger] new[k] == old[k] by {
        lemma_write_groups_outside(chars, gs, picks, shifts, k);
    }
    assert forall|k: int| 0x377E0 <= k < 0x37808 implies #[trigger] new[k] == old[k] by {
        assert(!in_quartet(gs, k)) by {
            if in_quartet(gs, k) {
                let j = choose|j: int| 0 <= j < gs.len() && (#[trigger] gs[j]).0 <= k < gs[j].0 + 4;
                assert(gs[j].0 + 4 <= 0x377E0);
            }
        }
        assert(!is_character_byte(k)) by {
            if is_character_byte(k) {
                let m = choose|m: int| 0 <= m < 6 && (k == palette_offsets()[m] + 1 || k == palette_offsets()[m] + 2);
                lemma_palette_offsets();
            }
        }
        lemma_write_groups_outside(chars, gs, picks, shifts, k);
    }
    assert forall|j: int, i: int| 0 <= j < gs.len() && 0 <= i < 4 implies #[trigger] slot_from_pick(
        new,
        shifts[2],
        picks,
        j,
        i,
    ) by {
        lemma_write_groups_at(chars, gs, picks, shifts, j, i);
        assert(spec_shift_for(gs[j].0 as int, shifts) == shifts[2]);
        assert(new[gs[j].0 + i] == rotated_quartet(picks[j], shifts[2])[i]);
    }
    assert(shifts_allowed(shifts));
    assert(quartets_rotated_by(new, shifts[2], picks));
}

} // verus!
