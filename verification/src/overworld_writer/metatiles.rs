//! Map metatile and fortress-effect engine patches.
use vstd::prelude::*;
use crate::rom::{Rom, spliced};

verus! {

/// Metatile lower-left quadrant table (PRG012, after the upper-left table).
pub const METATILE_LL_BASE: usize = 0x18110;

/// Start of CHR ROM.
pub const CHR_START: usize = 0x40010;

/// CHR tile 0xFD of page 0x17 (the letter 'Z', shown only on the Warp Zone).
pub const TILE_FD_OFFSET: usize = 0x45FE0;

/// A "1" tens digit: arrow shape, serif and right border, plane 0 then
/// plane 1.
pub const DIGIT_1_LL: [u8; 16] = [
    0x7E, 0x7C, 0x7E, 0x7E, 0x7E, 0x7E, 0x7F, 0x00, 0xA1, 0xB3, 0xB9, 0xBD, 0xB9, 0xB1, 0x80, 0xFF,
];

/// The ROM after the double-digit patch: the digit tile written over CHR
/// tile 0xFD, and the lower-left quadrant of metatiles 0x0D-0x15 (levels
/// 10-19) pointed at it.
pub open spec fn double_digit_patched(rom: Seq<u8>) -> Seq<u8> {
    let r = spliced(rom, TILE_FD_OFFSET as int, DIGIT_1_LL@);
    Seq::new(
        r.len(),
        |k: int|
            if METATILE_LL_BASE + 0x0D <= k <= METATILE_LL_BASE + 0x15 {
                0xFDu8
            } else {
                r[k]
            },
    )
}

/// Give level tiles 0x0D-0x15 a "1" tens digit in their lower-left
/// quadrant.
///
/// Vanilla draws a blank there. The digit goes into CHR tile 0xFD (page
/// 0x17), which holds the letter 'Z': the only place 'Z' shows on the world
/// map is the "Warp Zone" screen, unreachable while warp whistles are
/// removed, so its slot is free. Page 0x17 is loaded only as the world-map
/// background bank, never for sprites or levels.
pub fn patch_double_digit_metatiles(rom: &mut Rom)
    requires
        TILE_FD_OFFSET + 16 <= old(rom)@.len(),
    ensures
        final(rom)@ == double_digit_patched(old(rom)@),
{
    rom.write_range(TILE_FD_OFFSET, DIGIT_1_LL.as_slice());
    let ghost r = rom@;
    let mut tile_id: u8 = 0x0D;
    while tile_id <= 0x15
        invariant
            0x0D <= tile_id <= 0x16,
            rom@.len() == r.len(),
            r.len() >= TILE_FD_OFFSET + 16,
            forall|k: int|
                0 <= k < r.len() ==> #[trigger] rom@[k] == if METATILE_LL_BASE + 0x0D <= k
                    < METATILE_LL_BASE + tile_id {
                    0xFDu8
                } else {
                    r[k]
                },
        decreases 0x16 - tile_id,
    {
        rom.write_byte(METATILE_LL_BASE + tile_id as usize, 0xFD);
        tile_id = tile_id + 1;
    }
    assert(rom@ =~= double_digit_patched(old(rom)@));
}

/// First byte of CHR tiles 0x64-0x67 in page `page` (tiles at local
/// indices 0x24-0x27, 64 bytes).
pub open spec fn anim_tiles_at(page: int) -> int {
    CHR_START + page * 0x400 + 0x24 * 16
}

/// The ROM after metatile 0x6A is frozen: the 64 bytes of CHR tiles
/// 0x64-0x67 in pages 0x71, 0x73 and 0x75 replaced by those of page 0x15.
pub open spec fn frozen_6a(rom: Seq<u8>) -> Seq<u8> {
    Seq::new(
        rom.len(),
        |k: int|
            if anim_tiles_at(0x71) <= k < anim_tiles_at(0x71) + 64 {
                rom[k - anim_tiles_at(0x71) + anim_tiles_at(0x15)]
            } else if anim_tiles_at(0x73) <= k < anim_tiles_at(0x73) + 64 {
                rom[k - anim_tiles_at(0x73) + anim_tiles_at(0x15)]
            } else if anim_tiles_at(0x75) <= k < anim_tiles_at(0x75) + 64 {
                rom[k - anim_tiles_at(0x75) + anim_tiles_at(0x15)]
            } else {
                rom[k]
            },
    )
}

/// Freeze metatile 0x6A's CHR animation so it can serve as a static
/// fortress tile.
///
/// The overworld NMI handler rotates the background bank through pages
/// (0x14+0x15), (0x70+0x71), (0x72+0x73), (0x74+0x75), animating tiles
/// $00-$7F. Metatile 0x6A's quadrants are CHR 0x64-0x67, inside that range;
/// copying their page-0x15 pixels into the same places of pages 0x71, 0x73
/// and 0x75 makes every frame identical. No other metatile uses those
/// tiles.
pub fn patch_metatile_6a_freeze(rom: &mut Rom)
    requires
        anim_tiles_at(0x75) + 64 <= old(rom)@.len(),
    ensures
        final(rom)@ == frozen_6a(old(rom)@),
{
    let _total = rom.len();
    let pages: [usize; 3] = [0x71, 0x73, 0x75];
    let mut local_idx: usize = 0x24;
    while local_idx <= 0x27
        invariant
            0x24 <= local_idx <= 0x28,
            pages@ == seq![0x71usize, 0x73, 0x75],
            rom@.len() == old(rom)@.len(),
            anim_tiles_at(0x75) + 64 <= old(rom)@.len(),
            forall|k: int|
                0 <= k < rom@.len() ==> #[trigger] rom@[k] == if (anim_tiles_at(0x71) <= k
                    < anim_tiles_at(0x71) + (local_idx - 0x24) * 16) || (anim_tiles_at(0x73) <= k
                    < anim_tiles_at(0x73) + (local_idx - 0x24) * 16) || (anim_tiles_at(0x75) <= k
                    < anim_tiles_at(0x75) + (local_idx - 0x24) * 16) {
                    frozen_6a(old(rom)@)[k]
                } else {
                    old(rom)@[k]
                },
        decreases 0x28 - local_idx,
    {
        let base_off = CHR_START + 0x15 * 0x400 + local_idx * 16;
        let base_tile = vstd::slice::slice_to_vec(rom.read_range(base_off, 16));
        assert(base_tile@ =~= old(rom)@.subrange(base_off as int, base_off + 16));
        let mut p: usize = 0;
        while p < 3
            invariant
                p <= 3,
                0x24 <= local_idx <= 0x27,
                base_off == CHR_START + 0x15 * 0x400 + local_idx * 16,
                base_tile@ == old(rom)@.subrange(base_off as int, base_off + 16),
                pages@ == seq![0x71usize, 0x73, 0x75],
                rom@.len() == old(rom)@.len(),
                anim_tiles_at(0x75) + 64 <= old(rom)@.len(),
                forall|k: int|
                    0 <= k < rom@.len() ==> #[trigger] rom@[k] == if (anim_tiles_at(0x71) <= k
                        < anim_tiles_at(0x71) + (local_idx - 0x24) * 16 + (if p > 0 { 16int } else { 0 }))
                        || (anim_tiles_at(0x73) <= k < anim_tiles_at(0x73) + (local_idx - 0x24) * 16 + (if p
                        > 1 { 16int } else { 0 })) || (anim_tiles_at(0x75) <= k < anim_tiles_at(0x75) + (
                    local_idx - 0x24) * 16 + (if p > 2 { 16int } else { 0 })) {
                        frozen_6a(old(rom)@)[k]
                    } else {
                        old(rom)@[k]
                    },
            decreases 3 - p,
        {
            let page = pages[p];
            let off = CHR_START + page * 0x400 + local_idx * 16;
            rom.write_range(off, base_tile.as_slice());
            p = p + 1;
        }
        local_idx = local_idx + 1;
    }
    assert(rom@ =~= frozen_6a(old(rom)@));
}

/// Hook site in `MO_DoFortressFX` (CPU $C8E6): vanilla `LDA #$01 / STA`.
pub const FX_HOOK_OFFSET: usize = 0x148F6;

/// Free space in PRG010 (CPU $D544) receiving the screen check; 80 bytes are
/// allocated, 74 used.
pub const FS_FX_SCREEN_CHECK: usize = 0x15554;

/// Length of the screen-check routine.
pub const FX_SCREEN_CHECK_LEN: usize = 74;

/// The screen-check routine: lock half-screen index `2*screen + (col >= 8)`
/// into $0A, skip edge tiles at certain scrolls, compare with the player's
/// settled half-screen index (`2*$77 + bit 7 of $79`) and then with the
/// adjacent half-screen that becomes visible while straddling; visible ->
/// `$20 = 1` and `JMP $C8EA` (full animation), invisible -> `$20 = 6` and
/// `JMP $C952` (map-data update only).
pub open spec fn fx_screen_check_code() -> Seq<u8> {
    seq![0xACu8, 0x45, 0x07, 0xB9, 0x56, 0xC8, 0x0A, 0x29, 0x06, 0x69, 0x00, 0x85, 0x0A, 0xB9, 0x56, 0xC8, 0x29, 0xF0, 0x45, 0xFD, 0xC9, 0x10, 0x90, 0x23, 0xC9, 0xE8, 0xB0, 0x1F, 0xA5, 0x79, 0x0A, 0xA5, 0x77, 0x65, 0x77, 0x48, 0xC5, 0x0A, 0xF0, 0x1A, 0xA5, 0x79, 0x45, 0xFD, 0x30, 0x04, 0xC6, 0x0A, 0xC6, 0x0A, 0xE6, 0x0A, 0x68, 0x48, 0xC5, 0x0A, 0xF0, 0x08, 0x68, 0xA9, 0x06, 0x85, 0x20, 0x4C, 0x52, 0xC9, 0x68, 0xA9, 0x01, 0x85, 0x20, 0x4C, 0xEA, 0xC8]
}

/// The ROM after the fortress-effect screen check is installed.
pub open spec fn fx_screen_check_patched(rom: Seq<u8>) -> Seq<u8> {
    spliced(
        spliced(rom, FX_HOOK_OFFSET as int, seq![0x4Cu8, 0x44, 0xD5]),
        FS_FX_SCREEN_CHECK as int,
        fx_screen_check_code(),
    )
}

/// Skip the lock-breaking animation (VRAM pattern write and poof sprites)
/// when the lock is not on the visible screen.
///
/// With fortresses and locks shuffled, a lock can sit on another screen
/// than its fortress; the animation is screen-relative and would land on the
/// wrong spot. The map-data replacement is not screen-relative and always
/// runs. The hook at $C8E6 jumps to a routine that compares the lock's
/// half-screen index with the player's settled one.
pub fn patch_fortress_fx_screen_check(rom: &mut Rom)
    requires
        FS_FX_SCREEN_CHECK + FX_SCREEN_CHECK_LEN <= old(rom)@.len(),
    ensures
        final(rom)@ == fx_screen_check_patched(old(rom)@),
{
    rom.write_byte(FX_HOOK_OFFSET, 0x4C);
    rom.write_byte(FX_HOOK_OFFSET + 1, 0x44);
    rom.write_byte(FX_HOOK_OFFSET + 2, 0xD5);
    let ghost hooked = rom@;
    assert(hooked =~= spliced(old(rom)@, FX_HOOK_OFFSET as int, seq![0x4Cu8, 0x44, 0xD5]));
    let code: [u8; 74] = [0xAC, 0x45, 0x07, 0xB9, 0x56, 0xC8, 0x0A, 0x29, 0x06, 0x69, 0x00, 0x85, 0x0A, 0xB9, 0x56, 0xC8, 0x29, 0xF0, 0x45, 0xFD, 0xC9, 0x10, 0x90, 0x23, 0xC9, 0xE8, 0xB0, 0x1F, 0xA5, 0x79, 0x0A, 0xA5, 0x77, 0x65, 0x77, 0x48, 0xC5, 0x0A, 0xF0, 0x1A, 0xA5, 0x79, 0x45, 0xFD, 0x30, 0x04, 0xC6, 0x0A, 0xC6, 0x0A, 0xE6, 0x0A, 0x68, 0x48, 0xC5, 0x0A, 0xF0, 0x08, 0x68, 0xA9, 0x06, 0x85, 0x20, 0x4C, 0x52, 0xC9, 0x68, 0xA9, 0x01, 0x85, 0x20, 0x4C, 0xEA, 0xC8];
    assert(code@ =~= fx_screen_check_code());
    let mut i: usize = 0;
    while i < FX_SCREEN_CHECK_LEN
        invariant
            i <= FX_SCREEN_CHECK_LEN,
            code@ == fx_screen_check_code(),
            FS_FX_SCREEN_CHECK + FX_SCREEN_CHECK_LEN <= hooked.len(),
            rom@ == spliced(hooked, FS_FX_SCREEN_CHECK as int, code@.take(i as int)),
        decreases FX_SCREEN_CHECK_LEN - i,
    {
        rom.write_byte(FS_FX_SCREEN_CHECK + i, code[i]);
        i = i + 1;
        assert(rom@ =~= spliced(hooked, FS_FX_SCREEN_CHECK as int, code@.take(i as int)));
    }
    assert(code@.take(74) =~= code@);
}

} // verus!
