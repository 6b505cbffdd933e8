//! Map-object sprites: which World 8 army goes on which node, and writing
//! army and piranha plant sprites into the map-object tables.
use vstd::prelude::*;
use rand_chacha::ChaCha8Rng;
use crate::pipe_helpers::Pos;
use crate::piranha_rooms::PLANT_SPRITE_ID;
use crate::rng::shuffle_in_place;
use crate::rom::Rom;

verus! {

/// W8 army sprites as `(map-object slot, goes on a fortress)`: the Tank on
/// a level slot, the Navy, Air Force and Super Tank on fortress slots.
pub fn w8_army_sprites() -> (s: [(usize, bool); 4])
    ensures
        s@ == army_sprite_spec(),
{
    let s = [(2usize, false), (3usize, true), (4usize, true), (5usize, true)];
    assert(s@ =~= army_sprite_spec());
    s
}

/// The army sprite table.
pub open spec fn army_sprite_spec() -> Seq<(usize, bool)> {
    seq![(2usize, false), (3usize, true), (4usize, true), (5usize, true)]
}

/// How many sprites of `sprites` go on fortresses (`fort`) or levels.
pub open spec fn kind_count(sprites: Seq<(usize, bool)>, fort: bool) -> int
    decreases sprites.len(),
{
    if sprites.len() == 0 {
        0
    } else {
        kind_count(sprites.drop_last(), fort) + if sprites.last().1 == fort {
            1int
        } else {
            0int
        }
    }
}

/// Placements of the first sprites of `sprites`: each takes the next unused
/// position of its kind, in list order, and is left out once its kind runs
/// out.
pub open spec fn army_placements(sprites: Seq<(usize, bool)>, forts: Seq<Pos>, levels: Seq<Pos>) -> Seq<
    (usize, Pos),
>
    decreases sprites.len(),
{
    if sprites.len() == 0 {
        Seq::empty()
    } else {
        let p = army_placements(sprites.drop_last(), forts, levels);
        let (slot, is_fort) = sprites.last();
        let used = kind_count(sprites.drop_last(), is_fort);
        let pool = if is_fort {
            forts
        } else {
            levels
        };
        if used < pool.len() {
            p.push((slot, pool[used]))
        } else {
            p
        }
    }
}

proof fn lemma_kind_count_bounds(sprites: Seq<(usize, bool)>, fort: bool)
    ensures
        0 <= kind_count(sprites, fort) <= sprites.len(),
    decreases sprites.len(),
{
    if sprites.len() > 0 {
        lemma_kind_count_bounds(sprites.drop_last(), fort);
    }
}

fn copy_positions(v: &Vec<Pos>) -> (r: Vec<Pos>)
    ensures
        r@ == v@,
{
    let mut r: Vec<Pos> = Vec::new();
    let mut i: usize = 0;
    while i < v.len()
        invariant
            i <= v@.len(),
            r@ == v@.take(i as int),
        decreases v@.len() - i,
    {
        r.push(v[i]);
        i = i + 1;
        assert(r@ =~= v@.take(i as int));
    }
    assert(v@.take(v@.len() as int) =~= v@);
    r
}

/// Decide where each W8 army sprite goes: the fortress and level positions
/// are shuffled, then each sprite takes the next position of its kind.
/// Returns `(sprite slot, grid position)` pairs.
pub fn pick_w8_sprite_positions(
    fortress_positions: &Vec<Pos>,
    level_positions: &Vec<Pos>,
    rng: &mut ChaCha8Rng,
) -> (r: Vec<(usize, Pos)>)
    ensures
        exists|forts: Seq<Pos>, levels: Seq<Pos>|
            forts.to_multiset() == fortress_positions@.to_multiset() && levels.to_multiset()
                == level_positions@.to_multiset() && r@ == army_placements(army_sprite_spec(), forts, levels),
{
    let mut forts = copy_positions(fortress_positions);
    shuffle_in_place(&mut forts, rng);
    let mut levels = copy_positions(level_positions);
    shuffle_in_place(&mut levels, rng);

    let sprites = w8_army_sprites();
    let mut fort_next: usize = 0;
    let mut level_next: usize = 0;
    let mut result: Vec<(usize, Pos)> = Vec::new();
    let mut k: usize = 0;
    assert(sprites@.take(0) =~= Seq::<(usize, bool)>::empty());
    while k < 4
        invariant
            k <= 4,
            sprites@ == army_sprite_spec(),
            fort_next == kind_count(sprites@.take(k as int), true),
            level_next == kind_count(sprites@.take(k as int), false),
            result@ == army_placements(sprites@.take(k as int), forts@, levels@),
        decreases 4 - k,
    {
        let (slot, is_fortress) = sprites[k];
        assert(sprites@.take(k + 1).drop_last() =~= sprites@.take(k as int));
        assert(sprites@.take(k + 1).last() == (slot, is_fortress));
        proof {
            lemma_kind_count_bounds(sprites@.take(k as int), true);
            lemma_kind_count_bounds(sprites@.take(k as int), false);
        }
        if is_fortress {
            if fort_next < forts.len() {
                result.push((slot, forts[fort_next]));
            }
            fort_next = fort_next + 1;
        } else {
            if level_next < levels.len() {
                result.push((slot, levels[level_next]));
            }
            level_next = level_next + 1;
        }
        k = k + 1;
    }
    assert(sprites@.take(4) =~= army_sprite_spec());
    result
}

/// Where one map-object slot of a world keeps its bytes: sprite id, Y,
/// X screen, X within the screen, and reward. The tables are found through
/// the ROM's own pointers, so the caller locates each slot.
#[derive(Clone, Copy, Debug, PartialEq, Eq, Structural)]
pub struct MapObjectSlot {
    pub id_at: usize,
    pub y_at: usize,
    pub x_hi_at: usize,
    pub x_lo_at: usize,
    pub reward_at: usize,
}

/// All bytes of the slot lie in an image of `len` bytes.
pub open spec fn slot_in(s: MapObjectSlot, len: int) -> bool {
    &&& s.id_at < len
    &&& s.y_at < len
    &&& s.x_hi_at < len
    &&& s.x_lo_at < len
    &&& s.reward_at < len
}

/// A grid cell a map sprite can stand on: its Y byte and screen fit.
pub open spec fn sprite_cell_ok(p: Pos) -> bool {
    p.0 <= 13 && p.1 < 4096
}

/// `rom` with the slot's position set to grid cell `p`: Y is `(row + 2) *
/// 16`, the X screen is `col / 16` and the X within it `(col % 16) * 16`.
pub open spec fn position_written(rom: Seq<u8>, s: MapObjectSlot, p: Pos) -> Seq<u8> {
    rom.update(s.y_at as int, ((p.0 + 2) * 16) as u8).update(s.x_hi_at as int, (p.1 / 16) as u8).update(
        s.x_lo_at as int,
        ((p.1 % 16) * 16) as u8,
    )
}

/// Set a map sprite's position to grid cell `p`.
fn write_sprite_position(rom: &mut Rom, s: MapObjectSlot, p: Pos)
    requires
        slot_in(s, old(rom)@.len() as int),
        sprite_cell_ok(p),
    ensures
        final(rom)@ == position_written(old(rom)@, s, p),
{
    rom.write_byte(s.y_at, ((p.0 + 2) * 16) as u8);
    rom.write_byte(s.x_hi_at, (p.1 / 16) as u8);
    rom.write_byte(s.x_lo_at, ((p.1 % 16) * 16) as u8);
}

/// `rom` after the first `k` army sprites are moved: sprite slot `slot` of
/// World 8 goes to its cell.
pub open spec fn army_written(rom: Seq<u8>, w8_slots: Seq<MapObjectSlot>, positions: Seq<(usize, Pos)>, k: int) -> Seq<
    u8,
>
    decreases k,
{
    if k <= 0 {
        rom
    } else {
        let (slot, p) = positions[k - 1];
        position_written(army_written(rom, w8_slots, positions, k - 1), w8_slots[slot as int], p)
    }
}

/// Move the World 8 army sprites to their cells (`w8_slots` are World 8's
/// map-object slots by number).
pub fn write_w8_sprites(rom: &mut Rom, w8_slots: &Vec<MapObjectSlot>, positions: &Vec<(usize, Pos)>)
    requires
        forall|i: int| 0 <= i < w8_slots@.len() ==> slot_in(#[trigger] w8_slots@[i], old(rom)@.len() as int),
        forall|k: int|
            0 <= k < positions@.len() ==> (#[trigger] positions@[k]).0 < w8_slots@.len() && sprite_cell_ok(
                positions@[k].1,
            ),
    ensures
        final(rom)@ == army_written(old(rom)@, w8_slots@, positions@, positions@.len() as int),
{
    let mut k: usize = 0;
    while k < positions.len()
        invariant
            k <= positions@.len(),
            rom@.len() == old(rom)@.len(),
            forall|i: int| 0 <= i < w8_slots@.len() ==> slot_in(#[trigger] w8_slots@[i], old(rom)@.len() as int),
            forall|j: int|
                0 <= j < positions@.len() ==> (#[trigger] positions@[j]).0 < w8_slots@.len() && sprite_cell_ok(
                    positions@[j].1,
                ),
            rom@ == army_written(old(rom)@, w8_slots@, positions@, k as int),
        decreases positions@.len() - k,
    {
        let (slot, p) = positions[k];
        assert(positions@[k as int] == (slot, p));
        write_sprite_position(rom, w8_slots[slot], p);
        k = k + 1;
    }
}

/// The highest-numbered of the first `k` slots whose sprite id is empty
/// ($00).
pub open spec fn last_empty(rom: Seq<u8>, slots: Seq<MapObjectSlot>, k: int) -> Option<int>
    decreases k,
{
    if k <= 0 {
        None
    } else if rom[slots[k - 1].id_at as int] == 0 {
        Some(k - 1)
    } else {
        last_empty(rom, slots, k - 1)
    }
}

/// `rom` after the first `k` plants are written: each takes the
/// highest-numbered empty slot of its world, with the plant's id, its cell
/// and no reward; a plant with no empty slot is skipped.
pub open spec fn plants_written(
    rom: Seq<u8>,
    world_slots: Seq<Seq<MapObjectSlot>>,
    plants: Seq<(usize, Pos)>,
    k: int,
) -> Seq<u8>
    decreases k,
{
    if k <= 0 {
        rom
    } else {
        let r = plants_written(rom, world_slots, plants, k - 1);
        let (wi, p) = plants[k - 1];
        let slots = world_slots[wi as int];
        match last_empty(r, slots, slots.len() as int) {
            Some(j) => {
                let s = slots[j];
                position_written(r.update(s.id_at as int, PLANT_SPRITE_ID), s, p).update(s.reward_at as int, 0u8)
            },
            None => r,
        }
    }
}

fn find_last_empty(rom: &Rom, slots: &Vec<MapObjectSlot>) -> (r: Option<usize>)
    requires
        forall|i: int| 0 <= i < slots@.len() ==> slot_in(#[trigger] slots@[i], rom@.len() as int),
    ensures
        r matches Some(j) ==> j < slots@.len() && last_empty(rom@, slots@, slots@.len() as int) == Some(j as int),
        r is None ==> last_empty(rom@, slots@, slots@.len() as int) is None,
{
    let mut k: usize = slots.len();
    while k > 0
        invariant
            k <= slots@.len(),
            forall|i: int| 0 <= i < slots@.len() ==> slot_in(#[trigger] slots@[i], rom@.len() as int),
            last_empty(rom@, slots@, slots@.len() as int) == last_empty(rom@, slots@, k as int),
        decreases k,
    {
        let s = slots[k - 1];
        if rom.read_byte(s.id_at) == 0 {
            return Some(k - 1);
        }
        k = k - 1;
    }
    None
}

/// Write the piranha plant sprites: each plant takes the highest-numbered
/// empty map-object slot of its world (leaving the low slots for Hammer
/// Bros), with the plant's sprite id, its cell and no reward byte (the plant
/// levels reward through their own chests). `world_slots` are each world's
/// map-object slots by number.
pub fn write_plant_sprites(rom: &mut Rom, world_slots: &Vec<Vec<MapObjectSlot>>, plants: &Vec<(usize, Pos)>)
    requires
        forall|w: int, i: int|
            0 <= w < world_slots@.len() && 0 <= i < world_slots@[w]@.len() ==> slot_in(
                #[trigger] world_slots@[w]@[i],
                old(rom)@.len() as int,
            ),
        forall|k: int|
            0 <= k < plants@.len() ==> (#[trigger] plants@[k]).0 < world_slots@.len() && sprite_cell_ok(
                plants@[k].1,
            ),
    ensures
        final(rom)@ == plants_written(
            old(rom)@,
            world_slots@.map_values(|v: Vec<MapObjectSlot>| v@),
            plants@,
            plants@.len() as int,
        ),
{
    let ghost ws = world_slots@.map_values(|v: Vec<MapObjectSlot>| v@);
    let mut k: usize = 0;
    while k < plants.len()
        invariant
            k <= plants@.len(),
            ws == world_slots@.map_values(|v: Vec<MapObjectSlot>| v@),
            rom@.len() == old(rom)@.len(),
            forall|w: int, i: int|
                0 <= w < world_slots@.len() && 0 <= i < world_slots@[w]@.len() ==> slot_in(
                    #[trigger] world_slots@[w]@[i],
                    old(rom)@.len() as int,
                ),
            forall|j: int|
                0 <= j < plants@.len() ==> (#[trigger] plants@[j]).0 < world_slots@.len() && sprite_cell_ok(
                    plants@[j].1,
                ),
            rom@ == plants_written(old(rom)@, ws, plants@, k as int),
        decreases plants@.len() - k,
    {
        let (wi, p) = plants[k];
        assert(plants@[k as int] == (wi, p));
        let slots = &world_slots[wi];
        assert(ws[wi as int] == slots@);
        assert forall|i: int| 0 <= i < slots@.len() implies slot_in(#[trigger] slots@[i], rom@.len() as int) by {
            assert(slot_in(world_slots@[wi as int]@[i], old(rom)@.len() as int));
        }
        match find_last_empty(rom, slots) {
            Some(j) => {
                let s = slots[j];
                rom.write_byte(s.id_at, PLANT_SPRITE_ID);
                write_sprite_position(rom, s, p);
                rom.write_byte(s.reward_at, 0);
            },
            None => {},
        }
        k = k + 1;
    }
}

} // verus!
