//! Wild-shuffled piranha plants: keep them visible at spawn, and drop their
//! hitbox while they sit hidden mid-cycle.
//!
//! Piranha plants spawn hidden (`Objects_Var4 = 0`) and, once shuffled into a
//! slot that held a ground enemy, would pop into view unannounced and could
//! hurt the player while invisible. Bank-local thunks prime `Var4 = 1` at the
//! end of both init routines, and the small plant's per-frame
//! `JSR Player_HitEnemy` is skipped while its Y lies within ten pixels of its
//! hidden position. Applied only when piranhas are Wild and at least one
//! other enemy class (cannons excluded) is Wild too.
use vstd::prelude::*;
use crate::bits::lemma_word_bytes;
use crate::rom::{Rom, spliced};

verus! {

/// How one enemy class is randomized.
#[derive(Clone, Copy, Debug, PartialEq, Eq, Structural)]
pub enum EnemyMode {
    Off,
    Shuffle,
    Wild,
}

/// Per-class enemy randomization settings.
#[derive(Clone, Copy, Debug, PartialEq, Eq, Structural)]
pub struct Options {
    pub ground: EnemyMode,
    pub shell: EnemyMode,
    pub flying: EnemyMode,
    pub piranhas: EnemyMode,
    pub ghosts: EnemyMode,
    pub thwomps: EnemyMode,
    pub rotodiscs: EnemyMode,
    pub cannons: EnemyMode,
    pub water: EnemyMode,
    pub bros: EnemyMode,
}

/// File offset of the small-piranha init tail (`STA <$91,X / RTS`).
pub const SMALL_PIRANHA_INIT_TAIL: usize = 0x0A662;
/// File offset of the big-piranha init tail (`INC $7FF7,X / RTS`).
pub const BIG_PIRANHA_INIT_TAIL: usize = 0x09783;
/// File offset of `JSR Player_HitEnemy` in `ObjNorm_Piranha` (CPU $A794).
pub const SMALL_PIRANHA_HIT_CALL: usize = 0x0A7A4;
/// Return address after the hit-skip thunk (`INC Objects_Var3,X`).
pub const SMALL_PIRANHA_HIT_RETURN_CPU: u16 = 0xA797;
/// CPU address of `Player_HitEnemy`.
pub const PLAYER_HIT_ENEMY_CPU: u16 = 0xD1BA;

/// Thunk locations: small-plant visibility (PRG005), big-plant visibility
/// (PRG004) and small-plant hit skip (PRG005), as file offset and CPU address.
pub const FS_PIRANHA_VIS_SMALL: usize = 0x0BFD6;
pub const PIRANHA_VIS_SMALL_CPU: u16 = 0xBFC6;
pub const FS_PIRANHA_VIS_BIG: usize = 0x09E66;
pub const PIRANHA_VIS_BIG_CPU: u16 = 0xBE56;
pub const FS_PIRANHA_HIT_SMALL: usize = 0x0BFDD;
pub const PIRANHA_HIT_SMALL_CPU: u16 = 0xBFCD;

/// Highest file offset the patches touch, plus one.
pub const PATCH_END: usize = 0x0BFEF;

/// Piranhas are Wild and some other class (cannons aside) is Wild too.
pub open spec fn spec_should_apply(opts: Options) -> bool {
    opts.piranhas == EnemyMode::Wild && (opts.ground == EnemyMode::Wild
        || opts.shell == EnemyMode::Wild || opts.flying == EnemyMode::Wild
        || opts.ghosts == EnemyMode::Wild || opts.thwomps == EnemyMode::Wild
        || opts.rotodiscs == EnemyMode::Wild || opts.water == EnemyMode::Wild
        || opts.bros == EnemyMode::Wild)
}

/// Small-plant visibility thunk: `STA <$91,X / LDA #1 / STA <Var4,X / RTS`.
pub open spec fn small_vis_thunk() -> Seq<u8> {
    seq![0x95u8, 0x91, 0xA9, 0x01, 0x95, 0x7F, 0x60]
}

/// Big-plant visibility thunk: `INC $7FF7,X / LDA #1 / STA <Var4,X / RTS`.
pub open spec fn big_vis_thunk() -> Seq<u8> {
    seq![0xFEu8, 0xF7, 0x7F, 0xA9, 0x01, 0x95, 0x7F, 0x60]
}

/// Hit-skip thunk: bias `Y - Var5` by 10 and skip the hit call when the
/// result is below 21, else `JSR Player_HitEnemy`; then `JMP $A797`.
pub open spec fn hit_skip_thunk() -> Seq<u8> {
    seq![
        0xB5u8, 0xA3, 0x38, 0xF5, 0x9A, 0x18, 0x69, 0x0A, 0xC9, 0x15, 0x90, 0x03,
        0x20, 0xBA, 0xD1, 0x4C, 0x97, 0xA7,
    ]
}

/// The ROM after the three patches.
pub open spec fn patched(rom: Seq<u8>) -> Seq<u8> {
    let r1 = spliced(rom, FS_PIRANHA_VIS_SMALL as int, small_vis_thunk());
    let r2 = spliced(r1, SMALL_PIRANHA_INIT_TAIL as int, seq![0x4Cu8, 0xC6, 0xBF]);
    let r3 = spliced(r2, FS_PIRANHA_VIS_BIG as int, big_vis_thunk());
    let r4 = spliced(r3, BIG_PIRANHA_INIT_TAIL as int, seq![0x4Cu8, 0x56, 0xBE, 0x60]);
    let r5 = spliced(r4, FS_PIRANHA_HIT_SMALL as int, hit_skip_thunk());
    spliced(r5, SMALL_PIRANHA_HIT_CALL as int, seq![0x4Cu8, 0xCD, 0xBF])
}

/// The three patch sites still hold their vanilla instructions.
pub open spec fn sites_vanilla(rom: Seq<u8>) -> bool {
    &&& rom.subrange(SMALL_PIRANHA_INIT_TAIL as int, SMALL_PIRANHA_INIT_TAIL + 3)
        == seq![0x95u8, 0x91, 0x60]
    &&& rom.subrange(BIG_PIRANHA_INIT_TAIL as int, BIG_PIRANHA_INIT_TAIL + 4)
        == seq![0xFEu8, 0xF7, 0x7F, 0x60]
    &&& rom.subrange(SMALL_PIRANHA_HIT_CALL as int, SMALL_PIRANHA_HIT_CALL + 3)
        == seq![0x20u8, 0xBA, 0xD1]
}

/// Apply the visibility and hit-skip patches when wild shuffle can mix
/// piranhas with other classes; otherwise leave the ROM as it is.
pub fn apply(rom: &mut Rom, opts: &Options)
    requires
        spec_should_apply(*opts) ==> PATCH_END <= old(rom)@.len() && sites_vanilla(old(rom)@),
    ensures
        spec_should_apply(*opts) ==> final(rom)@ == patched(old(rom)@),
        !spec_should_apply(*opts) ==> final(rom)@ == old(rom)@,
{
    if !should_apply(opts) {
        return;
    }
    patch_small_piranha(rom);
    proof {
        let r = rom@;
        assert(r.subrange(BIG_PIRANHA_INIT_TAIL as int, BIG_PIRANHA_INIT_TAIL + 4) =~= old(
            rom,
        )@.subrange(BIG_PIRANHA_INIT_TAIL as int, BIG_PIRANHA_INIT_TAIL + 4));
    }
    patch_big_piranha(rom);
    proof {
        let r = rom@;
        assert(r.subrange(SMALL_PIRANHA_HIT_CALL as int, SMALL_PIRANHA_HIT_CALL + 3) =~= old(
            rom,
        )@.subrange(SMALL_PIRANHA_HIT_CALL as int, SMALL_PIRANHA_HIT_CALL + 3));
    }
    patch_small_piranha_hit_skip(rom);
}

/// True when piranhas are Wild and at least one other class is also Wild.
/// Cannons do not count: their wild pool is self-contained.
pub fn should_apply(opts: &Options) -> (b: bool)
    ensures
        b == spec_should_apply(*opts),
{
    if opts.piranhas != EnemyMode::Wild {
        return false;
    }
    let others = [
        opts.ground,
        opts.shell,
        opts.flying,
        opts.ghosts,
        opts.thwomps,
        opts.rotodiscs,
        opts.water,
        opts.bros,
    ];
    let mut i: usize = 0;
    while i < 8
        invariant
            i <= 8,
            opts.piranhas == EnemyMode::Wild,
            others@ == seq![
                opts.ground,
                opts.shell,
                opts.flying,
                opts.ghosts,
                opts.thwomps,
                opts.rotodiscs,
                opts.water,
                opts.bros,
            ],
            forall|k: int| 0 <= k < i ==> others@[k] != EnemyMode::Wild,
        decreases 8 - i,
    {
        if others[i] == EnemyMode::Wild {
            proof {
                let k = i as int;
                assert(others@[k] == EnemyMode::Wild);
                assert(opts.piranhas == EnemyMode::Wild);
                if k == 0 {
                    assert(opts.ground == EnemyMode::Wild);
                } else if k == 1 {
                    assert(opts.shell == EnemyMode::Wild);
                } else if k == 2 {
                    assert(opts.flying == EnemyMode::Wild);
                } else if k == 3 {
                    assert(opts.ghosts == EnemyMode::Wild);
                } else if k == 4 {
                    assert(opts.thwomps == EnemyMode::Wild);
                } else if k == 5 {
                    assert(opts.rotodiscs == EnemyMode::Wild);
                } else if k == 6 {
                    assert(opts.water == EnemyMode::Wild);
                } else {
                    assert(opts.bros == EnemyMode::Wild);
                }
            }
            return true;
        }
        i = i + 1;
    }
    assert(others@[0] != EnemyMode::Wild && others@[1] != EnemyMode::Wild && others@[2]
        != EnemyMode::Wild && others@[3] != EnemyMode::Wild && others@[4] != EnemyMode::Wild
        && others@[5] != EnemyMode::Wild && others@[6] != EnemyMode::Wild && others@[7]
        != EnemyMode::Wild);
    false
}

/// Prime `Var4 = 1` at the end of the small-piranha init.
fn patch_small_piranha(rom: &mut Rom)
    requires
        PATCH_END <= old(rom)@.len(),
    ensures
        final(rom)@ == spliced(
            spliced(old(rom)@, FS_PIRANHA_VIS_SMALL as int, small_vis_thunk()),
            SMALL_PIRANHA_INIT_TAIL as int,
            seq![0x4Cu8, 0xC6, 0xBF],
        ),
{
    let thunk: [u8; 7] = [0x95, 0x91, 0xA9, 0x01, 0x95, 0x7F, 0x60];
    assert(thunk@ =~= small_vis_thunk());
    rom.write_range(FS_PIRANHA_VIS_SMALL, thunk.as_slice());
    let jmp = [0x4Cu8, (PIRANHA_VIS_SMALL_CPU & 0xFF) as u8, (PIRANHA_VIS_SMALL_CPU >> 8) as u8];
    assert(jmp@ =~= seq![0x4Cu8, 0xC6, 0xBF]) by {
        lemma_word_bytes(PIRANHA_VIS_SMALL_CPU);
    }
    rom.write_range(SMALL_PIRANHA_INIT_TAIL, jmp.as_slice());
}

/// Prime `Var4 = 1` at the end of the big-piranha init. The four displaced
/// bytes become `JMP thunk` plus a dead `RTS`, so the table after it stays put.
fn patch_big_piranha(rom: &mut Rom)
    requires
        PATCH_END <= old(rom)@.len(),
    ensures
        final(rom)@ == spliced(
            spliced(old(rom)@, FS_PIRANHA_VIS_BIG as int, big_vis_thunk()),
            BIG_PIRANHA_INIT_TAIL as int,
            seq![0x4Cu8, 0x56, 0xBE, 0x60],
        ),
{
    let thunk: [u8; 8] = [0xFE, 0xF7, 0x7F, 0xA9, 0x01, 0x95, 0x7F, 0x60];
    assert(thunk@ =~= big_vis_thunk());
    rom.write_range(FS_PIRANHA_VIS_BIG, thunk.as_slice());
    let jmp = [
        0x4Cu8,
        (PIRANHA_VIS_BIG_CPU & 0xFF) as u8,
        (PIRANHA_VIS_BIG_CPU >> 8) as u8,
        0x60,
    ];
    assert(jmp@ =~= seq![0x4Cu8, 0x56, 0xBE, 0x60]) by {
        lemma_word_bytes(PIRANHA_VIS_BIG_CPU);
    }
    rom.write_range(BIG_PIRANHA_INIT_TAIL, jmp.as_slice());
}

/// Skip the small plant's per-frame hit call while it is near its hidden
/// position.
fn patch_small_piranha_hit_skip(rom: &mut Rom)
    requires
        PATCH_END <= old(rom)@.len(),
    ensures
        final(rom)@ == spliced(
            spliced(old(rom)@, FS_PIRANHA_HIT_SMALL as int, hit_skip_thunk()),
            SMALL_PIRANHA_HIT_CALL as int,
            seq![0x4Cu8, 0xCD, 0xBF],
        ),
{
    let hit_lo = (PLAYER_HIT_ENEMY_CPU & 0xFF) as u8;
    let hit_hi = (PLAYER_HIT_ENEMY_CPU >> 8) as u8;
    let ret_lo = (SMALL_PIRANHA_HIT_RETURN_CPU & 0xFF) as u8;
    let ret_hi = (SMALL_PIRANHA_HIT_RETURN_CPU >> 8) as u8;
    proof {
        lemma_word_bytes(PLAYER_HIT_ENEMY_CPU);
        lemma_word_bytes(SMALL_PIRANHA_HIT_RETURN_CPU);
    }
    let thunk: [u8; 18] = [
        0xB5, 0xA3,
        0x38,
        0xF5, 0x9A,
        0x18,
        0x69, 0x0A,
        0xC9, 0x15,
        0x90, 0x03,
        0x20, hit_lo, hit_hi,
        0x4C, ret_lo, ret_hi,
    ];
    assert(thunk@ =~= hit_skip_thunk());
    rom.write_range(FS_PIRANHA_HIT_SMALL, thunk.as_slice());
    let jmp = [0x4Cu8, (PIRANHA_HIT_SMALL_CPU & 0xFF) as u8, (PIRANHA_HIT_SMALL_CPU >> 8) as u8];
    assert(jmp@ =~= seq![0x4Cu8, 0xCD, 0xBF]) by {
        lemma_word_bytes(PIRANHA_HIT_SMALL_CPU);
    }
    rom.write_range(SMALL_PIRANHA_HIT_CALL, jmp.as_slice());
}

} // verus!
