//! Chest rooms of the two World 7 piranha-plant levels.
//!
//! The plant levels' chest awards whatever item the map sprite handed over on
//! entry, so once the levels are entered like ordinary tiles the chest would
//! open on a stale item. Each level's small chest-room object stream is
//! cloned into free space with an `OBJ_TREASURESET` (0xD6) entry prepended —
//! its Y byte *is* the item — and the level header's sub-area object pointer
//! is repointed at the clone.
use vstd::prelude::*;
use crate::bits::lemma_word_bytes;
use crate::rom::{Rom, spliced};
use crate::segment::{SegmentEntry, entry_at, entries_bytes, read_segment, write_segment};
use crate::sorting::sort_by_key;

verus! {

/// The map-object sprite id of a stationary piranha plant.
pub const PLANT_SPRITE_ID: u8 = 0x07;

/// Free space in PRG006 that receives both clones (CPU $DA7A).
pub const FS_PIRANHA_ROOMS: usize = 0x0DA8A;

/// File offsets of the vanilla chest-room object streams (8 bytes each:
/// page byte, two entries, terminator).
pub const P1_ROOM_SRC: usize = 0x0D0F2;
pub const P2_ROOM_SRC: usize = 0x0D0EA;

/// File offsets of each plant level's layout header; bytes 2-3 hold the
/// sub-area object pointer.
pub const P1_HDR: usize = 0x27C33;
pub const P2_HDR: usize = 0x27B30;

/// Each clone: page byte, three entries, terminator.
pub const CLONE_LEN: usize = 11;

/// CPU addresses of the two clones inside PRG006.
pub const CLONE_P1_CPU: u16 = 0xDA7A;
pub const CLONE_P2_CPU: u16 = 0xDA85;

/// File offsets of the item (Y) bytes of the injected treasure-set entries.
pub const P1_ROOM_ITEM: usize = 0x0DA8D;
pub const P2_ROOM_ITEM: usize = 0x0DA98;

/// Default chest items: the vanilla sprite rewards (P-Wing, Mushroom).
pub const P1_DEFAULT_ITEM: u8 = 0x08;
pub const P2_DEFAULT_ITEM: u8 = 0x01;

/// Where one map-object sprite slot keeps its sprite id byte and its reward
/// byte. The map-object tables are found through the ROM's own pointers, so
/// the caller locates the bytes of each slot it wants cleared.
#[derive(Clone, Copy, Debug, PartialEq, Eq, Structural)]
pub struct MapSpriteSlot {
    pub id_at: usize,
    pub reward_at: usize,
}

/// Byte `j` is the id or reward byte of one of `slots`.
pub open spec fn slot_byte(slots: Seq<MapSpriteSlot>, j: int) -> bool {
    exists|i: int| 0 <= i < slots.len() && (slots[i].id_at == j || slots[i].reward_at == j)
}

/// Clear the vanilla W7 plant sprites and their reward bytes: each listed
/// map-object slot gets the empty sprite id ($00) and no reward. This frees
/// the plants' grid positions for placement and makes the slots eligible for
/// redistributed Hammer Bros, so it runs before the overworld is built.
pub fn clear_vanilla_plants(rom: &mut Rom, links: &[MapSpriteSlot])
    requires
        forall|i: int|
            0 <= i < links@.len() ==> (#[trigger] links@[i]).id_at < old(rom)@.len()
                && links@[i].reward_at < old(rom)@.len(),
    ensures
        final(rom)@.len() == old(rom)@.len(),
        forall|i: int|
            0 <= i < links@.len() ==> final(rom)@[(#[trigger] links@[i]).id_at as int] == 0
                && final(rom)@[links@[i].reward_at as int] == 0,
        forall|j: int|
            0 <= j < old(rom)@.len() && !slot_byte(links@, j) ==> #[trigger] final(rom)@[j]
                == old(rom)@[j],
{
    let mut k: usize = 0;
    while k < links.len()
        invariant
            k <= links@.len(),
            rom@.len() == old(rom)@.len(),
            forall|i: int|
                0 <= i < links@.len() ==> (#[trigger] links@[i]).id_at < old(rom)@.len()
                    && links@[i].reward_at < old(rom)@.len(),
            forall|i: int|
                0 <= i < k ==> rom@[(#[trigger] links@[i]).id_at as int] == 0
                    && rom@[links@[i].reward_at as int] == 0,
            forall|j: int|
                0 <= j < old(rom)@.len() && !slot_byte(links@, j) ==> #[trigger] rom@[j]
                    == old(rom)@[j],
        decreases links@.len() - k,
    {
        let slot = links[k];
        rom.write_byte(slot.id_at, 0);
        rom.write_byte(slot.reward_at, 0);
        proof {
            assert forall|j: int|
                0 <= j < old(rom)@.len() && !slot_byte(links@, j) implies #[trigger] rom@[j]
                    == old(rom)@[j] by {
                if j == slot.id_at as int || j == slot.reward_at as int {
                    assert(links@[k as int] == slot);
                    assert(slot_byte(links@, j));
                }
            }
        }
        k = k + 1;
    }
}

/// The treasure-set entry placed one column left of the room's first entry.
pub open spec fn treasure_entry(first: SegmentEntry, item: u8) -> SegmentEntry {
    SegmentEntry { obj_id: 0xD6, x: if first.x >= 1 { (first.x - 1) as u8 } else { 0 }, y: item }
}

/// The ROM after cloning the room at `src` to `dst` with `item` in its
/// treasure set and pointing the header at `hdr` to `cpu`.
pub open spec fn cloned_room(
    rom: Seq<u8>,
    src: int,
    hdr: int,
    cpu: u16,
    dst: int,
    item: u8,
) -> Seq<u8> {
    let e0 = entry_at(rom, src, 0);
    let e1 = entry_at(rom, src, 1);
    let entries = seq![treasure_entry(e0, item), e0, e1];
    let r1 = rom.update(dst, rom[src]);
    let r2 = spliced(r1, dst + 1, entries_bytes(sort_by_key(entries)));
    let r3 = r2.update(dst + CLONE_LEN - 1, 0xFF);
    spliced(r3, hdr + 2, seq![(cpu % 256) as u8, (cpu / 256) as u8])
}

/// The ROM after both chest rooms are installed.
pub open spec fn treasure_sets_installed(rom: Seq<u8>) -> Seq<u8> {
    let r1 = cloned_room(
        rom,
        P1_ROOM_SRC as int,
        P1_HDR as int,
        CLONE_P1_CPU,
        FS_PIRANHA_ROOMS as int,
        P1_DEFAULT_ITEM,
    );
    cloned_room(
        r1,
        P2_ROOM_SRC as int,
        P2_HDR as int,
        CLONE_P2_CPU,
        (FS_PIRANHA_ROOMS + CLONE_LEN) as int,
        P2_DEFAULT_ITEM,
    )
}

/// Clone one chest room into free space and repoint its level header.
fn clone_room(rom: &mut Rom, src: usize, hdr: usize, cpu: u16, dst: usize, item: u8)
    requires
        src + 7 <= old(rom)@.len(),
        dst + CLONE_LEN <= old(rom)@.len(),
        hdr + 4 <= old(rom)@.len(),
    ensures
        final(rom)@ == cloned_room(old(rom)@, src as int, hdr as int, cpu, dst as int, item),
{
    let _total = rom.len();
    let page_byte = rom.read_byte(src);
    let src_entries = read_segment(rom, src, 2);
    let first = src_entries[0];
    let d6 = SegmentEntry { obj_id: 0xD6, x: first.x.saturating_sub(1), y: item };
    let entries = [d6, src_entries[0], src_entries[1]];
    proof {
        assert(entries@ =~= seq![
            treasure_entry(entry_at(old(rom)@, src as int, 0), item),
            entry_at(old(rom)@, src as int, 0),
            entry_at(old(rom)@, src as int, 1),
        ]);
    }
    rom.write_byte(dst, page_byte);
    let written = write_segment(rom, dst, 3, entries.as_slice());
    assert(written is Ok);
    rom.write_byte(dst + CLONE_LEN - 1, 0xFF);
    let ptr = [(cpu & 0xFF) as u8, (cpu >> 8) as u8];
    proof {
        lemma_word_bytes(cpu);
        assert(ptr@ =~= seq![(cpu % 256) as u8, (cpu / 256) as u8]);
    }
    rom.write_range(hdr + 2, ptr.as_slice());
}

/// Clone both chest-room streams into free space with an `OBJ_TREASURESET`
/// prepended, and repoint the plant levels' sub-area object pointers.
pub fn install_treasure_sets(rom: &mut Rom)
    requires
        P1_HDR + 4 <= old(rom)@.len(),
    ensures
        final(rom)@ == treasure_sets_installed(old(rom)@),
{
    clone_room(rom, P1_ROOM_SRC, P1_HDR, CLONE_P1_CPU, FS_PIRANHA_ROOMS, P1_DEFAULT_ITEM);
    clone_room(
        rom,
        P2_ROOM_SRC,
        P2_HDR,
        CLONE_P2_CPU,
        FS_PIRANHA_ROOMS + CLONE_LEN,
        P2_DEFAULT_ITEM,
    );
}

/// When a vanilla room stream is in X order, the treasure-set entry comes
/// first in its clone, so the clone reads page, `D6`, item, then the two
/// vanilla entries, then the terminator; the level header points at the
/// clone.
pub proof fn lemma_clone_layout(rom: Seq<u8>, src: int, hdr: int, cpu: u16, dst: int, item: u8)
    requires
        0 <= src,
        src + 7 <= rom.len(),
        0 <= dst,
        dst + CLONE_LEN <= rom.len(),
        0 <= hdr,
        hdr + 4 <= rom.len(),
        hdr + 4 <= dst || dst + CLONE_LEN <= hdr + 2,
        1 <= entry_at(rom, src, 0).x <= entry_at(rom, src, 1).x,
    ensures
        ({
            let r = cloned_room(rom, src, hdr, cpu, dst, item);
            let e0 = entry_at(rom, src, 0);
            let e1 = entry_at(rom, src, 1);
            &&& r.subrange(dst, dst + CLONE_LEN as int) == seq![
                rom[src], 0xD6u8, (e0.x - 1) as u8, item, e0.obj_id, e0.x, e0.y, e1.obj_id, e1.x, e1.y, 0xFFu8,
            ]
            &&& r[hdr + 2] == (cpu % 256) as u8
            &&& r[hdr + 3] == (cpu / 256) as u8
        }),
{
    let e0 = entry_at(rom, src, 0);
    let e1 = entry_at(rom, src, 1);
    let d6 = treasure_entry(e0, item);
    let entries = seq![d6, e0, e1];
    reveal_with_fuel(sort_by_key, 4);
    reveal_with_fuel(crate::sorting::insert_by_key, 4);
    assert(entries.drop_last() =~= seq![d6, e0]);
    assert(entries.drop_last().drop_last() =~= seq![d6]);
    assert(seq![d6].drop_last() =~= Seq::<SegmentEntry>::empty());
    assert(sort_by_key(seq![d6]) =~= seq![d6]);
    assert(sort_by_key(seq![d6, e0]) =~= seq![d6, e0]);
    assert(sort_by_key(entries) =~= entries);
    reveal_with_fuel(entries_bytes, 4);
    assert(entries.drop_last() =~= seq![d6, e0]);
    let r = cloned_room(rom, src, hdr, cpu, dst, item);
    assert(r.subrange(dst, dst + CLONE_LEN as int) =~= seq![
        rom[src], 0xD6u8, (e0.x - 1) as u8, item, e0.obj_id, e0.x, e0.y, e1.obj_id, e1.x, e1.y, 0xFFu8,
    ]);
}

} // verus!
