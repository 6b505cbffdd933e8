//! Poison mushrooms: every 1-Up spawned from a block independently becomes
//! either the real 1-Up ($0B) or an upside-down poison mushroom ($0A), chosen
//! by a position hash salted with a seed-derived byte.
//!
//! Two parts: the poison object itself, installed on the unused group-0 id
//! $0A (its Norm handler is the 1-Up's own; an Init stub flips it and a Hit
//! stub hurts the player), and a spawn hook that replaces the
//! `STA Level_ObjectID,Y` at both block-spawn sites with a `JSR` to a routine
//! that repeats the store and, for a 1-Up, hashes the block position to keep
//! it or swap in the poison object.
use vstd::prelude::*;
use crate::bits::lemma_word_bytes;
use crate::rom::{Rom, spliced};

verus! {

/// Object id of the poison mushroom (unused group-0 slot).
pub const POISON_ID: usize = 0x0A;

/// File offset of CPU $A000 in PRG001.
pub const PRG001_BASE: usize = 0x02010;

/// Per-id dispatch and attribute tables of PRG001 (file offsets).
pub const INIT_TABLE: usize = 0x02010;
pub const NORM_TABLE: usize = 0x02058;
pub const HIT_TABLE: usize = 0x020A0;
pub const ATTR1_TABLE: usize = 0x020E8;
pub const ATTR2_TABLE: usize = 0x0210C;
pub const ATTR3_TABLE: usize = 0x02130;
pub const KILL_TABLE: usize = 0x02178;
pub const PATSTART_TABLE: usize = 0x0219C;

/// Attributes copied from the 1-Up (palette 2, 16x16).
pub const POISON_ATTR1: u8 = 0x12;
pub const POISON_ATTR2: u8 = 0x10;
pub const POISON_ATTR3: u8 = 0x85;
pub const POISON_KILL: u8 = 0x02;
pub const POISON_PATSTART: u8 = 0x33;

/// Handler entry points (CPU): Init and Hit are the stubs, Norm is the 1-Up's.
pub const INIT_CPU: u16 = 0xA703;
pub const NORM_CPU: u16 = 0xA77E;
pub const HIT_CPU: u16 = 0xA70C;

/// Free space receiving the Init/Hit stubs (CPU $A703).
pub const FS_POISON_MUSHROOM: usize = 0x02713;
/// Free space receiving the spawn hook (CPU $A714).
pub const FS_POISON_HOOK: usize = 0x02724;

/// Length of the Init + Hit stubs.
pub const HANDLER_LEN: usize = 17;

/// Init stub (`JSR ObjInit_PUpMush / LDA #SPR_VFLIP / STA Objects_FlipBits,X /
/// RTS`) followed by the Hit stub (`LDA #0 / STA Objects_State,X /
/// JMP Player_GetHurt`).
pub const HANDLER: [u8; 17] = [
    0x20, 0x3A, 0xA8, 0xA9, 0x80, 0x9D, 0x79, 0x06, 0x60, 0xA9, 0x00, 0x9D, 0x61, 0x06, 0x4C, 0xD3, 0xD9,
];

/// The vanilla `STA Level_ObjectID,Y` at both block-spawn sites.
pub const SPAWN_STORE: [u8; 3] = [0x99, 0x71, 0x06];

/// File offsets of the two block-spawn sites (PRG001 $A587 / $AADD).
pub const SPAWN_SITE_A: usize = 0x02597;
pub const SPAWN_SITE_B: usize = 0x02AED;

/// CPU address of the spawn hook.
pub const HOOK_CPU: u16 = 0xA714;

/// The 1-Up object id the hook watches for.
pub const ONE_UP_ID: u8 = 0x0B;

/// Mask applied to the position hash (one bit: an even split).
pub const POISON_RATE_MASK: u8 = 0x01;

/// Length of the spawn hook.
pub const HOOK_LEN: usize = 31;

/// The spawn hook with `salt` as its immediate:
/// `STA $0671,Y / CMP #$0B / BNE done / LDA #salt / CLC / ADC $0727 /
/// ADC $61 / ADC $76,X / ADC $91,X / ADC $A3,X / AND #mask / BEQ done /
/// LDA #$0A / STA $0671,Y / done: RTS`.
pub open spec fn hook_code(salt: u8) -> Seq<u8> {
    seq![
        0x99u8, 0x71, 0x06,
        0xC9, ONE_UP_ID,
        0xD0, 0x17,
        0xA9, salt,
        0x18,
        0x6D, 0x27, 0x07,
        0x65, 0x61,
        0x75, 0x76,
        0x75, 0x91,
        0x75, 0xA3,
        0x29, POISON_RATE_MASK,
        0xF0, 0x05,
        0xA9, POISON_ID as u8,
        0x99, 0x71, 0x06,
        0x60,
    ]
}

/// `JSR HOOK_CPU`.
pub open spec fn hook_call() -> Seq<u8> {
    seq![0x20u8, 0x14, 0xA7]
}

/// The ROM after the poison object is installed on id $0A.
pub open spec fn object_installed(rom: Seq<u8>) -> Seq<u8> {
    let r1 = spliced(rom, FS_POISON_MUSHROOM as int, HANDLER@);
    let r2 = spliced(r1, (INIT_TABLE + POISON_ID * 2) as int, seq![0x03u8, 0xA7]);
    let r3 = spliced(r2, (NORM_TABLE + POISON_ID * 2) as int, seq![0x7Eu8, 0xA7]);
    let r4 = spliced(r3, (HIT_TABLE + POISON_ID * 2) as int, seq![0x0Cu8, 0xA7]);
    r4.update((ATTR1_TABLE + POISON_ID) as int, POISON_ATTR1).update(
        (ATTR2_TABLE + POISON_ID) as int,
        POISON_ATTR2,
    ).update((ATTR3_TABLE + POISON_ID) as int, POISON_ATTR3).update(
        (KILL_TABLE + POISON_ID) as int,
        POISON_KILL,
    ).update((PATSTART_TABLE + POISON_ID) as int, POISON_PATSTART)
}

/// The ROM after the spawn hook is installed with the salt found at
/// `salt_offset`, and both spawn sites call it.
pub open spec fn hook_installed(rom: Seq<u8>, salt_offset: int) -> Seq<u8> {
    let r1 = spliced(rom, FS_POISON_HOOK as int, hook_code(rom[salt_offset]));
    let r2 = spliced(r1, SPAWN_SITE_A as int, hook_call());
    spliced(r2, SPAWN_SITE_B as int, hook_call())
}

/// The ROM after the whole feature is applied.
pub open spec fn poison_applied(rom: Seq<u8>, salt_offset: int) -> Seq<u8> {
    hook_installed(object_installed(rom), salt_offset)
}

/// Both block-spawn sites hold the vanilla store.
pub open spec fn spawn_sites_vanilla(rom: Seq<u8>) -> bool {
    &&& rom.subrange(SPAWN_SITE_A as int, SPAWN_SITE_A + 3) == SPAWN_STORE@
    &&& rom.subrange(SPAWN_SITE_B as int, SPAWN_SITE_B + 3) == SPAWN_STORE@
}

/// Little-endian bytes of a CPU address.
fn le_bytes(w: u16) -> (b: [u8; 2])
    ensures
        b@ == seq![(w % 256) as u8, (w / 256) as u8],
{
    let b = [(w & 0xFF) as u8, (w >> 8) as u8];
    proof {
        lemma_word_bytes(w);
        assert(b@ =~= seq![(w % 256) as u8, (w / 256) as u8]);
    }
    b
}

/// Apply the poison-mushroom feature: install the $0A object, then the
/// 1-Up spawn hook, salting the hash with the byte at `salt_offset` (the
/// operand of the seed's starting-world initialisation).
pub fn apply(rom: &mut Rom, salt_offset: usize)
    requires
        SPAWN_SITE_B + 3 <= old(rom)@.len(),
        salt_offset < old(rom)@.len(),
        spawn_sites_vanilla(old(rom)@),
    ensures
        final(rom)@ == poison_applied(old(rom)@, salt_offset as int),
{
    install_object(rom);
    proof {
        let r = object_installed(old(rom)@);
        assert(r.subrange(SPAWN_SITE_A as int, SPAWN_SITE_A + 3) =~= old(rom)@.subrange(
            SPAWN_SITE_A as int,
            SPAWN_SITE_A + 3,
        ));
        assert(r.subrange(SPAWN_SITE_B as int, SPAWN_SITE_B + 3) =~= old(rom)@.subrange(
            SPAWN_SITE_B as int,
            SPAWN_SITE_B + 3,
        ));
    }
    install_hook(rom, salt_offset);
}

/// Install the poison object on group-0 id $0A: the stubs and its slot in
/// every per-id table.
fn install_object(rom: &mut Rom)
    requires
        SPAWN_SITE_B + 3 <= old(rom)@.len(),
    ensures
        final(rom)@ == object_installed(old(rom)@),
{
    rom.write_range(FS_POISON_MUSHROOM, HANDLER.as_slice());
    let init = le_bytes(INIT_CPU);
    rom.write_range(INIT_TABLE + POISON_ID * 2, init.as_slice());
    let norm = le_bytes(NORM_CPU);
    rom.write_range(NORM_TABLE + POISON_ID * 2, norm.as_slice());
    let hit = le_bytes(HIT_CPU);
    rom.write_range(HIT_TABLE + POISON_ID * 2, hit.as_slice());
    rom.write_byte(ATTR1_TABLE + POISON_ID, POISON_ATTR1);
    rom.write_byte(ATTR2_TABLE + POISON_ID, POISON_ATTR2);
    rom.write_byte(ATTR3_TABLE + POISON_ID, POISON_ATTR3);
    rom.write_byte(KILL_TABLE + POISON_ID, POISON_KILL);
    rom.write_byte(PATSTART_TABLE + POISON_ID, POISON_PATSTART);
}

/// Install the spawn hook, salted with the byte at `salt_offset`, and patch
/// both spawn sites to call it.
pub fn install_hook(rom: &mut Rom, salt_offset: usize)
    requires
        SPAWN_SITE_B + 3 <= old(rom)@.len(),
        salt_offset < old(rom)@.len(),
        spawn_sites_vanilla(old(rom)@),
    ensures
        final(rom)@ == hook_installed(old(rom)@, salt_offset as int),
{
    let salt = rom.read_byte(salt_offset);
    let code: [u8; 31] = [
        0x99, 0x71, 0x06,
        0xC9, ONE_UP_ID,
        0xD0, 0x17,
        0xA9, salt,
        0x18,
        0x6D, 0x27, 0x07,
        0x65, 0x61,
        0x75, 0x76,
        0x75, 0x91,
        0x75, 0xA3,
        0x29, POISON_RATE_MASK,
        0xF0, 0x05,
        0xA9, POISON_ID as u8,
        0x99, 0x71, 0x06,
        0x60,
    ];
    assert(code@ =~= hook_code(salt));
    rom.write_range(FS_POISON_HOOK, code.as_slice());
    let jsr = [0x20u8, (HOOK_CPU & 0xFF) as u8, (HOOK_CPU >> 8) as u8];
    assert(jsr@ =~= hook_call()) by {
        lemma_word_bytes(HOOK_CPU);
    }
    rom.write_range(SPAWN_SITE_A, jsr.as_slice());
    rom.write_range(SPAWN_SITE_B, jsr.as_slice());
}

/// The handler stubs and hook sit where their CPU addresses say (bank 1 is
/// mapped at $A000), the Hit stub follows the 9-byte Init stub, and the hook
/// block does not overlap the stubs.
pub proof fn lemma_handler_layout()
    ensures
        FS_POISON_MUSHROOM == PRG001_BASE + (INIT_CPU - 0xA000),
        FS_POISON_HOOK == PRG001_BASE + (HOOK_CPU - 0xA000),
        HIT_CPU == INIT_CPU + 9,
        HANDLER@.len() == HANDLER_LEN,
        FS_POISON_HOOK >= FS_POISON_MUSHROOM + HANDLER_LEN,
{
}

/// Both forward branches of the hook (`BNE` at 5, `BEQ` at 23) land on its
/// final `RTS`, whatever the salt.
pub proof fn lemma_hook_branches_land_on_rts(salt: u8)
    ensures
        hook_code(salt).len() == HOOK_LEN,
        hook_code(salt)[5] == 0xD0 && 7 + hook_code(salt)[6] == HOOK_LEN - 1,
        hook_code(salt)[23] == 0xF0 && 25 + hook_code(salt)[24] == HOOK_LEN - 1,
        hook_code(salt)[HOOK_LEN - 1] == 0x60,
{
}

} // verus!
