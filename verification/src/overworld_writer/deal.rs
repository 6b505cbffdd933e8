//! The writer's decision pass: deal the pickup pool onto the slots the build
//! laid out, world by world: fortresses by section (the 1-F fortress, whose
//! secret exit opens no lock, on a slot whose lock may stay shut), levels
//! with troll-pipe slots first, pipe pairs, airships, Bowser, spade games,
//! toad houses, and Hammer Bro levels on the slots left.
use vstd::prelude::*;
use rand_chacha::ChaCha8Rng;
use crate::map_grid::Cell;
use crate::overworld_build::{BuiltWorld, LockAssignment, SlotAssignment, SlotKind};
use crate::overworld_pickup::{CatalogEntry, ClearedWorld, NodeKind, PoolEntry};
use crate::overworld_writer::assign::{interleave_hb_by_obj_ptr, interleaved, obj_of};
use crate::overworld_writer::pointers::{HbCycle, PipeAssignment};
use crate::overworld_writer::types::{Assignment, HammerBroAssignment, WorldAssignments};
use crate::pipe_helpers::PointerEntry;
use crate::rng::{choose_one, shuffle_in_place};
use crate::overworld_writer::plants::PiranhaMode;

verus! {

/// Switches of the deal.
#[derive(Clone, Copy, Debug)]
pub struct WriteFlags {
    /// Fortresses and levels may land in any world (else each stays in its
    /// own).
    pub cross_world: bool,
    /// Hammer Bro sprites were moved by the build (else they stand where
    /// they stand in the vanilla ROM).
    pub shuffle_hammer_bros: bool,
    /// How the World 7 piranha plants are placed on the map.
    pub piranha: PiranhaMode,
}

/// What the deal reads of the vanilla ROM.
pub struct DealTables {
    /// The catalog's distinct Hammer Bro levels.
    pub hb_levels: Vec<PointerEntry>,
    /// Each world's vanilla Hammer Bro sprite cells.
    pub vanilla_hb_sprites: Vec<Vec<Cell>>,
    /// Object pointer of the 1-F fortress level.
    pub fort_1f_obj: u16,
    /// `(world, entry)` of the levels that hold a chest item.
    pub chest_levels: Vec<(usize, usize)>,
    /// `(world, entry)` of the World 8 hand levels, which drop items.
    pub hand_levels: Vec<(usize, usize)>,
}

/// The catalog entry of pool entry `pi`.
pub open spec fn entry_of(pool: Seq<PoolEntry>, catalog: Seq<CatalogEntry>, pi: int) -> CatalogEntry {
    catalog[pool[pi].catalog_idx as int]
}

/// Every pool entry names a catalog entry.
pub open spec fn pool_valid(pool: Seq<PoolEntry>, catalog: Seq<CatalogEntry>) -> bool {
    forall|pi: int| 0 <= pi < pool.len() ==> (#[trigger] pool[pi]).catalog_idx < catalog.len()
}

/// The decks the pool is split into.
#[derive(Clone, Copy, Debug, PartialEq, Eq, Structural)]
pub enum Deck {
    Fortress,
    Level,
    Airship,
    Bonus,
    Toad,
}

/// A node of `kind` belongs in `deck`.
pub open spec fn in_deck(kind: NodeKind, deck: Deck) -> bool {
    match deck {
        Deck::Fortress => kind is Fortress,
        Deck::Level => kind is Level,
        Deck::Airship => kind is Airship,
        Deck::Bonus => kind is BonusGame,
        Deck::Toad => kind is ToadHouse,
    }
}

/// The pool indices among the first `k` whose node belongs in `deck`, in
/// pool order.
pub open spec fn deck_upto(pool: Seq<PoolEntry>, catalog: Seq<CatalogEntry>, deck: Deck, k: int) -> Seq<usize>
    decreases k,
{
    if k <= 0 {
        Seq::empty()
    } else {
        let prev = deck_upto(pool, catalog, deck, k - 1);
        if in_deck(entry_of(pool, catalog, k - 1).kind, deck) {
            prev.push((k - 1) as usize)
        } else {
            prev
        }
    }
}

/// The whole deck.
pub open spec fn deck_of(pool: Seq<PoolEntry>, catalog: Seq<CatalogEntry>, deck: Deck) -> Seq<usize> {
    deck_upto(pool, catalog, deck, pool.len() as int)
}

/// The entries of `s` whose node comes from world `w`, in order.
pub open spec fn from_world(pool: Seq<PoolEntry>, catalog: Seq<CatalogEntry>, s: Seq<usize>, w: int) -> Seq<usize>
    decreases s.len(),
{
    if s.len() == 0 {
        Seq::empty()
    } else {
        let prev = from_world(pool, catalog, s.drop_last(), w);
        if entry_of(pool, catalog, s.last() as int).world_idx == w {
            prev.push(s.last())
        } else {
            prev
        }
    }
}

/// The sections of a world that have a fortress slot, ascending.
pub open spec fn fort_sections_upto(b: BuiltWorld, s: int) -> Seq<usize>
    decreases s,
{
    if s <= 0 {
        Seq::empty()
    } else {
        let prev = fort_sections_upto(b, s - 1);
        if has_fort_slot(b.slots@, s - 1) {
            prev.push((s - 1) as usize)
        } else {
            prev
        }
    }
}

/// See [`fort_sections_upto`].
pub open spec fn fort_sections(b: BuiltWorld) -> Seq<usize> {
    fort_sections_upto(b, b.section_count as int)
}

/// Some fortress slot belongs to section `s`.
pub open spec fn has_fort_slot(slots: Seq<SlotAssignment>, s: int) -> bool {
    exists|i: int| 0 <= i < slots.len() && (#[trigger] slots[i]).kind == SlotKind::Fortress && slots[i].section == s
}

/// The first fortress slot of section `s`.
pub open spec fn first_fort_slot(slots: Seq<SlotAssignment>, s: int, k: int) -> Option<int>
    decreases k,
{
    if k <= 0 {
        None
    } else {
        match first_fort_slot(slots, s, k - 1) {
            Some(i) => Some(i),
            None => if slots[k - 1].kind == SlotKind::Fortress && slots[k - 1].section == s {
                Some(k - 1)
            } else {
                None
            },
        }
    }
}

/// The cell of section `s`'s fortress slot.
pub open spec fn fort_slot_pos(slots: Seq<SlotAssignment>, s: int) -> Cell {
    slots[first_fort_slot(slots, s, slots.len() as int)->0].pos
}

/// The slots of a kind (troll-pipe flag `troll` when `Level`), in order.
pub open spec fn slots_where(slots: Seq<SlotAssignment>, kind: SlotKind, troll: Option<bool>, k: int) -> Seq<
    SlotAssignment,
>
    decreases k,
{
    if k <= 0 {
        Seq::empty()
    } else {
        let prev = slots_where(slots, kind, troll, k - 1);
        let s = slots[k - 1];
        if s.kind == kind && (troll is Some ==> s.is_troll_pipe == troll->0) {
            prev.push(s)
        } else {
            prev
        }
    }
}

/// The level slots in dealing order: troll-pipe slots first.
pub open spec fn level_slot_order(slots: Seq<SlotAssignment>) -> Seq<SlotAssignment> {
    slots_where(slots, SlotKind::Level, Some(true), slots.len() as int) + slots_where(
        slots,
        SlotKind::Level,
        Some(false),
        slots.len() as int,
    )
}

/// A level a troll pipe must not front: one listed in `barred` (the chest
/// levels, which the player has to find, and the hand levels, which drop
/// items and could be farmed).
pub open spec fn troll_ineligible(e: CatalogEntry, barred: Seq<(usize, usize)>) -> bool {
    barred.contains((e.world_idx, e.entry_idx))
}

/// The levels a troll pipe must not front.
pub open spec fn troll_barred(tables: DealTables) -> Seq<(usize, usize)> {
    tables.chest_levels@ + tables.hand_levels@
}

/// A lock of the world that section `s`'s fortress opens may stay shut.
pub open spec fn safe_section(locks: Seq<LockAssignment>, s: int) -> bool {
    exists|i: int| 0 <= i < locks.len() && (#[trigger] locks[i]).secret_exit_safe && locks[i].fort_section == s
}

/// Pool entry `pi` is the 1-F fortress.
pub open spec fn is_1f(pool: Seq<PoolEntry>, catalog: Seq<CatalogEntry>, pi: int, obj: u16) -> bool {
    let e = entry_of(pool, catalog, pi);
    &&& e.kind is Fortress
    &&& e.level_entry is Some
    &&& obj_of(e.level_entry->0) == obj
}

/// What the deal promises of a world's pipe pairs: in turn they take the
/// build's pipe pairs, each a destination of the world with its A-side
/// endpoint first; they stop early only when a destination lacks an
/// endpoint.
pub open spec fn pipes_ok(
    pipes: Seq<PipeAssignment>,
    b: BuiltWorld,
    pool: Seq<PoolEntry>,
    catalog: Seq<CatalogEntry>,
    wi: int,
) -> bool {
    let kind = |pi: usize| entry_of(pool, catalog, pi as int).kind;
    let origin = |pi: usize| entry_of(pool, catalog, pi as int).world_idx;
    let valid = |pi: usize| pi < pool.len();
    &&& pipes.len() <= b.pipe_pairs@.len()
    &&& forall|k: int|
        0 <= k < pipes.len() ==> {
            let pa = #[trigger] pipes[k];
            &&& pa.pos_a == b.pipe_pairs@[k].0
            &&& pa.pos_b == b.pipe_pairs@[k].1
            &&& valid(pa.pool_idx_a) && valid(pa.pool_idx_b)
            &&& pa.pool_idx_a != pa.pool_idx_b
            &&& kind(pa.pool_idx_a) == NodeKind::Pipe {
                dest_idx: pa.dest_idx,
                is_a_side: kind(pa.pool_idx_a)->is_a_side,
            }
            &&& kind(pa.pool_idx_b) == NodeKind::Pipe {
                dest_idx: pa.dest_idx,
                is_a_side: kind(pa.pool_idx_b)->is_a_side,
            }
            &&& origin(pa.pool_idx_a) == wi && origin(pa.pool_idx_b) == wi
            &&& kind(pa.pool_idx_a)->is_a_side || !kind(pa.pool_idx_b)->is_a_side
        }
    &&& pipes.len() < b.pipe_pairs@.len() && dest_left(pool, catalog, wi, pipes, true) ==> dest_left(
        pool,
        catalog,
        wi,
        pipes,
        false,
    )
}

/// The fortresses: one per section with a fortress slot, in section order,
/// each on its slot (from its own world unless nodes cross worlds).
pub open spec fn forts_ok(
    fort: Seq<Assignment>,
    b: BuiltWorld,
    pool: Seq<PoolEntry>,
    catalog: Seq<CatalogEntry>,
    wi: int,
    flags: WriteFlags,
) -> bool {
    let fs = fort_sections(b);
    &&& fort.len() == fs.len()
    &&& forall|k: int|
        0 <= k < fs.len() ==> {
            &&& (#[trigger] fort[k]).pos == fort_slot_pos(b.slots@, fs[k] as int)
            &&& fort[k].pool_idx < pool.len()
            &&& entry_of(pool, catalog, fort[k].pool_idx as int).kind is Fortress
            &&& !flags.cross_world ==> entry_of(pool, catalog, fort[k].pool_idx as int).world_idx == wi
        }
}

/// The levels: one per level slot in dealing order (troll pipes first),
/// and a troll pipe that was not demoted never fronts a barred level.
pub open spec fn levels_ok(
    level: Seq<Assignment>,
    demoted: Seq<Cell>,
    b: BuiltWorld,
    pool: Seq<PoolEntry>,
    catalog: Seq<CatalogEntry>,
    wi: int,
    flags: WriteFlags,
    chests: Seq<(usize, usize)>,
) -> bool {
    let ls = level_slot_order(b.slots@);
    &&& level.len() == ls.len()
    &&& forall|k: int|
        0 <= k < ls.len() ==> {
            &&& (#[trigger] level[k]).pos == ls[k].pos
            &&& level[k].pool_idx < pool.len()
            &&& entry_of(pool, catalog, level[k].pool_idx as int).kind is Level
            &&& !flags.cross_world ==> entry_of(pool, catalog, level[k].pool_idx as int).world_idx == wi
            &&& ls[k].is_troll_pipe && !demoted.contains(ls[k].pos) ==> !troll_ineligible(
                entry_of(pool, catalog, level[k].pool_idx as int),
                chests,
            )
        }
}

/// The airship (worlds 1-7 only) is an airship node on the world's vanilla
/// airship cell.
pub open spec fn airship_ok(a: Option<Assignment>, pool: Seq<PoolEntry>, catalog: Seq<CatalogEntry>, wi: int) -> bool {
    &&& (wi == 7 ==> a is None)
    &&& (a is Some ==> {
        let x = a->0;
        &&& x.pool_idx < pool.len()
        &&& entry_of(pool, catalog, x.pool_idx as int).kind is Airship
        &&& exists|i: int|
            0 <= i < catalog.len() && (#[trigger] catalog[i]).world_idx == wi && catalog[i].kind is Airship
                && catalog[i].grid_pos == x.pos
    })
}

/// Bowser's castle (world 8 only) stands on its own cell.
pub open spec fn bowser_ok(a: Option<Assignment>, pool: Seq<PoolEntry>, catalog: Seq<CatalogEntry>, wi: int) -> bool {
    &&& (wi != 7 ==> a is None)
    &&& (a is Some ==> {
        let x = a->0;
        &&& x.pool_idx < pool.len()
        &&& entry_of(pool, catalog, x.pool_idx as int).kind is Bowser
        &&& x.pos == entry_of(pool, catalog, x.pool_idx as int).grid_pos
    })
}

/// Nodes dealt in turn onto the slots of `kind`: each on the next slot, of
/// the slot's kind.
pub open spec fn in_turn_ok(
    v: Seq<Assignment>,
    b: BuiltWorld,
    kind: SlotKind,
    pool: Seq<PoolEntry>,
    catalog: Seq<CatalogEntry>,
    node: spec_fn(NodeKind) -> bool,
) -> bool {
    let ks = slots_where(b.slots@, kind, None, b.slots@.len() as int);
    &&& v.len() <= ks.len()
    &&& forall|k: int|
        0 <= k < v.len() ==> {
            &&& (#[trigger] v[k]).pos == ks[k].pos
            &&& v[k].pool_idx < pool.len()
            &&& node(entry_of(pool, catalog, v[k].pool_idx as int).kind)
        }
}

/// Hammer Bro assignments sit on Hammer Bro slots.
pub open spec fn hb_ok(hb: Seq<HammerBroAssignment>, b: BuiltWorld) -> bool {
    forall|k: int|
        0 <= k < hb.len() ==> exists|i: int|
            0 <= i < b.slots@.len() && b.slots@[i].kind == SlotKind::HammerBro && b.slots@[i].pos
                == (#[trigger] hb[k]).pos
}

/// What the deal promises of one world's assignments.
pub open spec fn world_dealt(
    wa: WorldAssignments,
    b: BuiltWorld,
    pool: Seq<PoolEntry>,
    catalog: Seq<CatalogEntry>,
    wi: int,
    flags: WriteFlags,
    chests: Seq<(usize, usize)>,
) -> bool {
    &&& forts_ok(wa.fortress@, b, pool, catalog, wi, flags)
    &&& levels_ok(wa.level@, wa.demoted_troll_pipes@, b, pool, catalog, wi, flags, chests)
    &&& pipes_ok(wa.pipes@, b, pool, catalog, wi)
    &&& airship_ok(wa.airship, pool, catalog, wi)
    &&& bowser_ok(wa.bowser, pool, catalog, wi)
    &&& in_turn_ok(wa.bonus@, b, SlotKind::BonusGame, pool, catalog, |k: NodeKind| k is BonusGame)
    &&& in_turn_ok(wa.toad@, b, SlotKind::ToadHouse, pool, catalog, |k: NodeKind| k is ToadHouse)
    &&& hb_ok(wa.hammer_bro@, b)
}

/// The slots of `kind` in a world.
pub open spec fn kind_slots(b: BuiltWorld, kind: SlotKind) -> int {
    slots_where(b.slots@, kind, None, b.slots@.len() as int).len() as int
}

/// The slots of `kind` in worlds `0..w`.
pub open spec fn slots_before(builds: Seq<BuiltWorld>, kind: SlotKind, w: int) -> int
    decreases w,
{
    if w <= 0 {
        0
    } else {
        slots_before(builds, kind, w - 1) + kind_slots(builds[w - 1], kind)
    }
}

/// How many cards of a deck of `deck_len` world `w` gets when the worlds
/// take turns filling their slots of `kind` until the deck runs out.
pub open spec fn dealt_in_turn(builds: Seq<BuiltWorld>, kind: SlotKind, deck_len: int, w: int) -> int {
    let left = deck_len - slots_before(builds, kind, w);
    if left <= 0 {
        0
    } else if left < kind_slots(builds[w], kind) {
        left
    } else {
        kind_slots(builds[w], kind)
    }
}

/// The catalog has an airship in world `wi`.
pub open spec fn has_airship(catalog: Seq<CatalogEntry>, wi: int) -> bool {
    exists|i: int| 0 <= i < catalog.len() && (#[trigger] catalog[i]).world_idx == wi && catalog[i].kind is Airship
}

/// Worlds among `0..w` (and among 1-7) whose airship takes a card.
pub open spec fn airship_worlds_before(catalog: Seq<CatalogEntry>, w: int) -> int
    decreases w,
{
    if w <= 0 {
        0
    } else {
        airship_worlds_before(catalog, w - 1) + if w - 1 < 7 && has_airship(catalog, w - 1) {
            1int
        } else {
            0int
        }
    }
}

/// The pool holds Bowser's castle.
pub open spec fn has_bowser(pool: Seq<PoolEntry>, catalog: Seq<CatalogEntry>) -> bool {
    exists|pi: int| 0 <= pi < pool.len() && (#[trigger] entry_of(pool, catalog, pi)).kind is Bowser
}

/// Pool entry `pi` is a pipe endpoint of world `wi` with destination `d`.
pub open spec fn pipe_end(pool: Seq<PoolEntry>, catalog: Seq<CatalogEntry>, wi: int, d: usize, pi: int) -> bool {
    &&& 0 <= pi < pool.len()
    &&& entry_of(pool, catalog, pi).world_idx == wi
    &&& entry_of(pool, catalog, pi).kind is Pipe
    &&& entry_of(pool, catalog, pi).kind->dest_idx == d
}

/// Destination `d` of world `wi` has both its endpoints in the pool.
pub open spec fn dest_complete(pool: Seq<PoolEntry>, catalog: Seq<CatalogEntry>, wi: int, d: usize) -> bool {
    exists|i: int, j: int| i != j && #[trigger] pipe_end(pool, catalog, wi, d, i) && #[trigger] pipe_end(pool, catalog, wi, d, j)
}

/// Some dealt pipe pair has destination `d`.
pub open spec fn dest_dealt(pipes: Seq<PipeAssignment>, d: usize) -> bool {
    exists|k: int| 0 <= k < pipes.len() && (#[trigger] pipes[k]).dest_idx == d
}

/// Some destination of world `wi` has a pipe endpoint in the pool and no
/// dealt pair; `complete` asks that it have both endpoints, else that it
/// lack one.
pub open spec fn dest_left(
    pool: Seq<PoolEntry>,
    catalog: Seq<CatalogEntry>,
    wi: int,
    pipes: Seq<PipeAssignment>,
    complete: bool,
) -> bool {
    exists|pi: int|
        #[trigger] pipe_end(pool, catalog, wi, entry_of(pool, catalog, pi).kind->dest_idx, pi) && !dest_dealt(
            pipes,
            entry_of(pool, catalog, pi).kind->dest_idx,
        ) && (complete ==> dest_complete(pool, catalog, wi, entry_of(pool, catalog, pi).kind->dest_idx)) && (!complete
            ==> !dest_complete(pool, catalog, wi, entry_of(pool, catalog, pi).kind->dest_idx))
}

/// The lesser of two counts.
pub open spec fn least(a: int, b: int) -> int {
    if a < b {
        a
    } else {
        b
    }
}

/// The cells of the world's wandering Hammer Bro sprites: where the build
/// moved them, else where the vanilla ROM has them.
pub open spec fn hb_cells(b: BuiltWorld, tables: DealTables, flags: WriteFlags, wi: int) -> Seq<Cell> {
    if flags.shuffle_hammer_bros {
        Seq::new(b.hb_sprites@.len(), |i: int| b.hb_sprites@[i].grid_pos)
    } else {
        tables.vanilla_hb_sprites@[wi]@
    }
}

/// Pointer-table entries the world has left for Hammer Bros once its
/// fortresses, levels, pipe ends, spade games and toad houses have theirs.
pub open spec fn hb_capacity(wa: WorldAssignments, freed: int) -> int {
    let used = wa.fortress@.len() + wa.level@.len() + 2 * wa.pipes@.len() + wa.bonus@.len() + wa.toad@.len();
    if freed > used {
        freed - used
    } else {
        0
    }
}

/// How much of each kind a world is dealt: spade games and toad houses
/// while their decks last, worlds taking turns; an airship whenever the
/// world (1-7) has one and the airship deck is not yet empty; Bowser in
/// World 8 when the pool holds him; and a Hammer Bro on every Hammer Bro
/// slot (sprite slots first) up to the pointer-table entries left.
pub open spec fn world_filled(
    wa: WorldAssignments,
    builds: Seq<BuiltWorld>,
    pool: Seq<PoolEntry>,
    catalog: Seq<CatalogEntry>,
    cleared: Seq<ClearedWorld>,
    tables: DealTables,
    flags: WriteFlags,
    wi: int,
) -> bool {
    let b = builds[wi];
    let order = hb_order(b.slots@, hb_cells(b, tables, flags, wi));
    let cap = hb_capacity(wa, cleared[wi].pool_indices@.len() as int);
    &&& wa.bonus@.len() == dealt_in_turn(
        builds,
        SlotKind::BonusGame,
        deck_of(pool, catalog, Deck::Bonus).len() as int,
        wi,
    )
    &&& wa.toad@.len() == dealt_in_turn(
        builds,
        SlotKind::ToadHouse,
        deck_of(pool, catalog, Deck::Toad).len() as int,
        wi,
    )
    &&& (wa.airship is Some <==> wi < 7 && has_airship(catalog, wi) && airship_worlds_before(catalog, wi) < deck_of(
        pool,
        catalog,
        Deck::Airship,
    ).len())
    &&& (wa.bowser is Some <==> wi == 7 && has_bowser(pool, catalog))
    &&& wa.hammer_bro@.len() == least(cap, order.len() as int)
    &&& forall|k: int| 0 <= k < wa.hammer_bro@.len() ==> (#[trigger] wa.hammer_bro@[k]).pos == order[k]
}

/// A world's dealt nodes take no more pointer-table entries than it freed,
/// whenever its level-like nodes alone fit: Hammer Bros only fill what is
/// left.
pub proof fn lemma_world_entries_fit(
    wa: WorldAssignments,
    builds: Seq<BuiltWorld>,
    pool: Seq<PoolEntry>,
    catalog: Seq<CatalogEntry>,
    cleared: Seq<ClearedWorld>,
    tables: DealTables,
    flags: WriteFlags,
    wi: int,
)
    requires
        world_filled(wa, builds, pool, catalog, cleared, tables, flags, wi),
        wa.fortress@.len() + wa.level@.len() + 2 * wa.pipes@.len() + wa.bonus@.len() + wa.toad@.len()
            <= cleared[wi].pool_indices@.len(),
    ensures
        wa.fortress@.len() + wa.level@.len() + 2 * wa.pipes@.len() + wa.bonus@.len() + wa.toad@.len()
            + wa.hammer_bro@.len() <= cleared[wi].pool_indices@.len(),
{
}

/// The world's Hammer Bro slots under a wandering sprite.
pub open spec fn sprite_count(b: BuiltWorld, tables: DealTables, flags: WriteFlags, wi: int) -> int {
    hb_split(b.slots@, hb_cells(b, tables, flags, wi), b.slots@.len() as int).0.len() as int
}

/// Hammer Bro slots of a world filled from the cycling pool (those after
/// its `ns` sprite slots).
pub open spec fn fillers(wa: WorldAssignments, ns: int) -> int {
    if wa.hammer_bro@.len() > ns {
        wa.hammer_bro@.len() - ns
    } else {
        0
    }
}

/// Levels the cycling pool gave out in worlds `0..w`.
pub open spec fn fill_before(
    r: Seq<WorldAssignments>,
    builds: Seq<BuiltWorld>,
    tables: DealTables,
    flags: WriteFlags,
    w: int,
) -> int
    decreases w,
{
    if w <= 0 {
        0
    } else {
        fill_before(r, builds, tables, flags, w - 1) + fillers(r[w - 1], sprite_count(builds[w - 1], tables, flags, w - 1))
    }
}

/// The Hammer Bro levels of a world: the `k`-th sprite encounter fights
/// enemy set `order[k mod |order|]` (a level of the pool), so a world's
/// encounters differ until every set is used; the other slots take the
/// cycling pool `cyc` in turn, continuing at `start`.
pub open spec fn hb_levels_dealt(
    wa: WorldAssignments,
    ns: int,
    order: Seq<u16>,
    cyc: Seq<PointerEntry>,
    start: int,
) -> bool {
    forall|k: int|
        0 <= k < wa.hammer_bro@.len() ==> {
            &&& k < ns ==> obj_of((#[trigger] wa.hammer_bro@[k]).level_entry) == order[k % (order.len() as int)]
                && cyc.contains(wa.hammer_bro@[k].level_entry)
            &&& k >= ns ==> wa.hammer_bro@[k].level_entry == cyc[(start + (k - ns)) % (cyc.len() as int)]
        }
}

/// The pools the Hammer Bro levels come from: `cyc` is the catalog's
/// Hammer Bro levels interleaved by enemy set, and `order` lists each of
/// its enemy sets once.
pub open spec fn hb_pools(levels: Seq<PointerEntry>, order: Seq<u16>, cyc: Seq<PointerEntry>) -> bool {
    &&& interleaved(levels, cyc)
    &&& order.no_duplicates()
    &&& forall|k: u16| #[trigger] order.contains(k) <==> exists|j: int| 0 <= j < cyc.len() && obj_of(cyc[j]) == k
}

proof fn lemma_fill_before_prefix(
    a: Seq<WorldAssignments>,
    b: Seq<WorldAssignments>,
    builds: Seq<BuiltWorld>,
    tables: DealTables,
    flags: WriteFlags,
    w: int,
)
    requires
        forall|v: int| 0 <= v < w ==> a[v] == b[v],
    ensures
        fill_before(a, builds, tables, flags, w) == fill_before(b, builds, tables, flags, w),
    decreases w,
{
    if w > 0 {
        lemma_fill_before_prefix(a, b, builds, tables, flags, w - 1);
        assert(a[w - 1] == b[w - 1]);
    }
}

/// Every element of `s` satisfies `p`.
pub open spec fn all_of(s: Seq<usize>, p: spec_fn(usize) -> bool) -> bool {
    forall|i: int| 0 <= i < s.len() ==> p(#[trigger] s[i])
}

/// A permutation keeps a property of all elements.
proof fn lemma_perm_all_of(a: Seq<usize>, b: Seq<usize>, p: spec_fn(usize) -> bool)
    requires
        a.to_multiset() == b.to_multiset(),
        all_of(a, p),
    ensures
        all_of(b, p),
{
    broadcast use vstd::seq_lib::group_to_multiset_ensures;
    assert forall|i: int| 0 <= i < b.len() implies p(#[trigger] b[i]) by {
        assert(b.to_multiset().count(b[i]) > 0);
        assert(a.contains(b[i]));
    }
}

proof fn lemma_deck_upto(pool: Seq<PoolEntry>, catalog: Seq<CatalogEntry>, deck: Deck, k: int)
    requires
        0 <= k <= pool.len(),
        pool.len() <= usize::MAX,
    ensures
        forall|i: int|
            0 <= i < deck_upto(pool, catalog, deck, k).len() ==> (#[trigger] deck_upto(pool, catalog, deck, k)[i])
                < k && in_deck(entry_of(pool, catalog, deck_upto(pool, catalog, deck, k)[i] as int).kind, deck),
        deck_upto(pool, catalog, deck, k).len() <= k,
        forall|i: int, j: int|
            0 <= i < j < deck_upto(pool, catalog, deck, k).len() ==> deck_upto(pool, catalog, deck, k)[i]
                < deck_upto(pool, catalog, deck, k)[j],
        forall|j: int|
            0 <= j < k && in_deck(#[trigger] entry_of(pool, catalog, j).kind, deck) ==> deck_upto(
                pool,
                catalog,
                deck,
                k,
            ).contains(j as usize),
    decreases k,
{
    if k > 0 {
        lemma_deck_upto(pool, catalog, deck, k - 1);
        let prev = deck_upto(pool, catalog, deck, k - 1);
        let cur = deck_upto(pool, catalog, deck, k);
        assert forall|i: int| 0 <= i < prev.len() implies cur[i] == prev[i] by {}
        assert forall|j: int| 0 <= j < k && in_deck(#[trigger] entry_of(pool, catalog, j).kind, deck) implies cur.contains(
            j as usize,
        ) by {
            if j < k - 1 {
                let i = choose|i: int| 0 <= i < prev.len() && prev[i] == j as usize;
                assert(cur[i] == j as usize);
            } else {
                assert(cur[cur.len() - 1] == j as usize);
            }
        }
    }
}

/// `k` belongs in `deck`.
fn belongs(kind: NodeKind, deck: Deck) -> (b: bool)
    ensures
        b == in_deck(kind, deck),
{
    match deck {
        Deck::Fortress => matches!(kind, NodeKind::Fortress),
        Deck::Level => matches!(kind, NodeKind::Level),
        Deck::Airship => matches!(kind, NodeKind::Airship),
        Deck::Bonus => matches!(kind, NodeKind::BonusGame),
        Deck::Toad => matches!(kind, NodeKind::ToadHouse),
    }
}

/// The pool indices whose node belongs in `deck`, in pool order.
fn build_deck(pool: &Vec<PoolEntry>, catalog: &Vec<CatalogEntry>, deck: Deck) -> (d: Vec<usize>)
    requires
        pool_valid(pool@, catalog@),
    ensures
        d@ == deck_of(pool@, catalog@, deck),
        all_of(d@, |pi: usize| pi < pool@.len() && in_deck(entry_of(pool@, catalog@, pi as int).kind, deck)),
{
    let mut d: Vec<usize> = Vec::new();
    let mut k: usize = 0;
    while k < pool.len()
        invariant
            k <= pool@.len(),
            pool_valid(pool@, catalog@),
            d@ == deck_upto(pool@, catalog@, deck, k as int),
        decreases pool@.len() - k,
    {
        let e = catalog[pool[k].catalog_idx];
        if belongs(e.kind, deck) {
            d.push(k);
        }
        k = k + 1;
    }
    proof {
        lemma_deck_upto(pool@, catalog@, deck, pool@.len() as int);
    }
    d
}

/// Every element of `from_world(s, w)` is an element of `s` from world `w`.
proof fn lemma_from_world(pool: Seq<PoolEntry>, catalog: Seq<CatalogEntry>, s: Seq<usize>, w: int)
    ensures
        forall|i: int|
            0 <= i < from_world(pool, catalog, s, w).len() ==> s.contains(
                #[trigger] from_world(pool, catalog, s, w)[i],
            ) && entry_of(pool, catalog, from_world(pool, catalog, s, w)[i] as int).world_idx == w,
    decreases s.len(),
{
    if s.len() > 0 {
        lemma_from_world(pool, catalog, s.drop_last(), w);
        let f = from_world(pool, catalog, s, w);
        let g = from_world(pool, catalog, s.drop_last(), w);
        assert forall|i: int| 0 <= i < f.len() implies s.contains(#[trigger] f[i]) && entry_of(
            pool,
            catalog,
            f[i] as int,
        ).world_idx == w by {
            if i < g.len() {
                assert(f[i] == g[i]);
                let j = choose|j: int| 0 <= j < s.drop_last().len() && s.drop_last()[j] == g[i];
                assert(s[j] == g[i]);
            } else {
                assert(f[i] == s.last());
                assert(s[s.len() - 1] == s.last());
            }
        }
    }
}

/// Removing element `j` takes one away from its world's share.
proof fn lemma_from_world_remove(pool: Seq<PoolEntry>, catalog: Seq<CatalogEntry>, s: Seq<usize>, j: int, w: int)
    requires
        0 <= j < s.len(),
    ensures
        from_world(pool, catalog, s, w).len() == from_world(pool, catalog, s.remove(j), w).len() + if entry_of(
            pool,
            catalog,
            s[j] as int,
        ).world_idx == w {
            1int
        } else {
            0int
        },
    decreases s.len(),
{
    if j == s.len() - 1 {
        assert(s.remove(j) =~= s.drop_last());
    } else {
        lemma_from_world_remove(pool, catalog, s.drop_last(), j, w);
        assert(s.remove(j) =~= s.drop_last().remove(j).push(s.last()));
        assert(s.remove(j).drop_last() =~= s.drop_last().remove(j));
        assert(s.remove(j).last() == s.last());
    }
}

/// A permutation keeps each world's share of a deck the same size.
proof fn lemma_perm_from_world(pool: Seq<PoolEntry>, catalog: Seq<CatalogEntry>, a: Seq<usize>, b: Seq<usize>, w: int)
    requires
        a.to_multiset() == b.to_multiset(),
    ensures
        from_world(pool, catalog, a, w).len() == from_world(pool, catalog, b, w).len(),
    decreases a.len(),
{
    broadcast use vstd::seq_lib::group_to_multiset_ensures;
    vstd::seq_lib::to_multiset_len(a);
    vstd::seq_lib::to_multiset_len(b);
    if a.len() == 0 {
        assert(b.len() == 0);
    } else {
        let x = a.last();
        assert(a.to_multiset().count(x) > 0);
        assert(b.contains(x));
        let j = choose|j: int| 0 <= j < b.len() && b[j] == x;
        vstd::seq_lib::to_multiset_remove(b, j);
        assert(a =~= a.drop_last().push(x));
        assert(a.drop_last().to_multiset() =~= a.to_multiset().remove(x));
        lemma_perm_from_world(pool, catalog, a.drop_last(), b.remove(j), w);
        lemma_from_world_remove(pool, catalog, b, j, w);
    }
}

/// A world's share of a deck without repeats has no repeats.
proof fn lemma_from_world_nodup(pool: Seq<PoolEntry>, catalog: Seq<CatalogEntry>, s: Seq<usize>, w: int)
    requires
        s.no_duplicates(),
    ensures
        from_world(pool, catalog, s, w).no_duplicates(),
    decreases s.len(),
{
    if s.len() > 0 {
        let t = s.drop_last();
        assert(t.no_duplicates()) by {
            assert forall|i: int, j: int| 0 <= i < t.len() && 0 <= j < t.len() && i != j implies t[i] != t[j] by {
                assert(t[i] == s[i] && t[j] == s[j]);
            }
        }
        lemma_from_world_nodup(pool, catalog, t, w);
        lemma_from_world(pool, catalog, t, w);
        let f = from_world(pool, catalog, t, w);
        if entry_of(pool, catalog, s.last() as int).world_idx == w {
            assert forall|i: int| 0 <= i < f.len() implies f[i] != s.last() by {
                let j = choose|j: int| 0 <= j < t.len() && t[j] == f[i];
                assert(s[j] == t[j]);
            }
            let g = f.push(s.last());
            assert forall|i: int, j: int| 0 <= i < g.len() && 0 <= j < g.len() && i != j implies g[i] != g[j] by {
                if i < f.len() && j < f.len() {
                } else if i < f.len() {
                    assert(g[j] == s.last());
                } else {
                    assert(g[i] == s.last());
                }
            }
        }
    }
}

/// A permutation of a sequence without repeats has none.
proof fn lemma_perm_nodup<T>(a: Seq<T>, b: Seq<T>)
    requires
        a.to_multiset() == b.to_multiset(),
        a.no_duplicates(),
    ensures
        b.no_duplicates(),
{
    broadcast use vstd::seq_lib::group_to_multiset_ensures;
    a.lemma_multiset_has_no_duplicates();
    assert forall|x: T| b.to_multiset().contains(x) implies b.to_multiset().count(x) == 1 by {
        assert(a.to_multiset().contains(x));
    }
    b.lemma_multiset_has_no_duplicates_conv();
}

/// The share of world `w` of a deck.
fn world_share(pool: &Vec<PoolEntry>, catalog: &Vec<CatalogEntry>, s: &Vec<usize>, w: usize) -> (r: Vec<usize>)
    requires
        pool_valid(pool@, catalog@),
        all_of(s@, |pi: usize| pi < pool@.len()),
    ensures
        r@ == from_world(pool@, catalog@, s@, w as int),
{
    let mut r: Vec<usize> = Vec::new();
    let mut k: usize = 0;
    while k < s.len()
        invariant
            k <= s@.len(),
            pool_valid(pool@, catalog@),
            all_of(s@, |pi: usize| pi < pool@.len()),
            r@ == from_world(pool@, catalog@, s@.take(k as int), w as int),
        decreases s@.len() - k,
    {
        let pi = s[k];
        assert(s@.take(k + 1).drop_last() =~= s@.take(k as int));
        assert(s@.take(k + 1).last() == pi);
        if catalog[pool[pi].catalog_idx].world_idx == w {
            r.push(pi);
        }
        k = k + 1;
    }
    assert(s@.take(s@.len() as int) =~= s@);
    r
}

proof fn lemma_first_fort_slot(slots: Seq<SlotAssignment>, s: int, k: int)
    requires
        0 <= k <= slots.len(),
    ensures
        first_fort_slot(slots, s, k) is Some <==> exists|i: int|
            0 <= i < k && (#[trigger] slots[i]).kind == SlotKind::Fortress && slots[i].section == s,
        first_fort_slot(slots, s, k) matches Some(i) ==> 0 <= i < k && slots[i].kind == SlotKind::Fortress
            && slots[i].section == s,
    decreases k,
{
    if k > 0 {
        lemma_first_fort_slot(slots, s, k - 1);
    }
}

proof fn lemma_first_fort_slot_stable(slots: Seq<SlotAssignment>, s: int, k: int, m: int)
    requires
        0 <= k <= m <= slots.len(),
        first_fort_slot(slots, s, k) is Some,
    ensures
        first_fort_slot(slots, s, m) == first_fort_slot(slots, s, k),
    decreases m - k,
{
    if m > k {
        lemma_first_fort_slot_stable(slots, s, k, m - 1);
    }
}

/// The first fortress slot of section `s`.
fn find_fort_slot(slots: &Vec<SlotAssignment>, s: usize) -> (r: Option<usize>)
    ensures
        r matches Some(i) ==> i < slots@.len() && first_fort_slot(slots@, s as int, slots@.len() as int) == Some(
            i as int,
        ),
        r is None ==> !has_fort_slot(slots@, s as int),
{
    let mut i: usize = 0;
    while i < slots.len()
        invariant
            i <= slots@.len(),
            first_fort_slot(slots@, s as int, i as int) is None,
        decreases slots@.len() - i,
    {
        let sl = slots[i];
        if matches!(sl.kind, SlotKind::Fortress) && sl.section == s {
            proof {
                assert(first_fort_slot(slots@, s as int, i + 1) == Some(i as int));
                lemma_first_fort_slot_stable(slots@, s as int, i + 1, slots@.len() as int);
            }
            return Some(i);
        }
        i = i + 1;
    }
    proof {
        lemma_first_fort_slot(slots@, s as int, slots@.len() as int);
    }
    None
}

/// The 1-F fortress held for a secret-exit-safe slot: the slot's world
/// and section, and the pool entry.
#[derive(Clone, Copy, Debug)]
pub struct PreAssigned {
    pub world: usize,
    pub section: usize,
    pub pool_idx: usize,
}

/// A fortress pool entry.
pub open spec fn fort_ok(pool: Seq<PoolEntry>, catalog: Seq<CatalogEntry>, pi: usize) -> bool {
    pi < pool.len() && entry_of(pool, catalog, pi as int).kind is Fortress
}

/// Deal the fortresses of world `wi`, section by section: the pending
/// pre-assignment on its section, else the next card of the shared deck
/// (across worlds) or the last of the world's own share.
fn deal_fortresses(
    b: &BuiltWorld,
    wi: usize,
    pre: &mut Option<PreAssigned>,
    cross: bool,
    deck: &Vec<usize>,
    next: &mut usize,
    own: &mut Vec<usize>,
    pool: &Vec<PoolEntry>,
    catalog: &Vec<CatalogEntry>,
) -> (out: Vec<Assignment>)
    requires
        ({
            let pend: int = if (*old(pre)) is Some && (*old(pre))->0.world == wi { 1 } else { 0 };
            &&& cross ==> *old(next) <= deck@.len() && deck@.len() - *old(next) + pend >= fort_sections(*b).len()
            &&& !cross ==> old(own)@.len() + pend >= fort_sections(*b).len()
        }),
        (*old(pre)) is Some && (*old(pre))->0.world == wi ==> (*old(pre))->0.section < b.section_count && has_fort_slot(
            b.slots@,
            (*old(pre))->0.section as int,
        ),
        (*old(pre)) is Some ==> fort_ok(pool@, catalog@, (*old(pre))->0.pool_idx),
        all_of(deck@, |pi: usize| fort_ok(pool@, catalog@, pi)),
        all_of(old(own)@, |pi: usize| fort_ok(pool@, catalog@, pi)),
        deck@.no_duplicates(),
        old(own)@.no_duplicates(),
        (*old(pre)) is Some ==> !deck@.contains((*old(pre))->0.pool_idx) && !old(own)@.contains(
            (*old(pre))->0.pool_idx,
        ),
    ensures
        forall|i: int, j: int| 0 <= i < j < out@.len() ==> out@[i].pool_idx != out@[j].pool_idx,
        ({
            let fs = fort_sections(*b);
            let pend = ((*old(pre)) is Some && (*old(pre))->0.world == wi);
            let drawn: int = if pend { fs.len() - 1 } else { fs.len() as int };
            &&& out@.len() == fs.len()
            &&& forall|k: int|
                0 <= k < fs.len() ==> {
                    &&& (#[trigger] out@[k]).pos == fort_slot_pos(b.slots@, fs[k] as int)
                    &&& fort_ok(pool@, catalog@, out@[k].pool_idx)
                    &&& (pend && fs[k] == (*old(pre))->0.section) ==> out@[k].pool_idx == (*old(pre))->0.pool_idx
                    &&& !(pend && fs[k] == (*old(pre))->0.section) ==> (if cross {
                        deck@.subrange(*old(next) as int, *final(next) as int).contains(out@[k].pool_idx)
                    } else {
                        old(own)@.contains(out@[k].pool_idx)
                    })
                }
            &&& *final(pre) == (if pend { None } else { *old(pre) })
            &&& cross ==> *final(next) == *old(next) + drawn && final(own)@ == old(own)@
            &&& !cross ==> *final(next) == *old(next) && final(own)@ == old(own)@.take(old(own)@.len() - drawn)
        }),
{
    let ghost pend = ((*old(pre)) is Some && (*old(pre))->0.world == wi);
    let ghost ps: int = if pend { (*old(pre))->0.section as int } else { -1 };
    let ghost old_own = own@;
    let ghost next0 = *next as int;
    let deck_len = deck.len();
    let mut out: Vec<Assignment> = Vec::new();
    let mut section: usize = 0;
    while section < b.section_count
        invariant
            section <= b.section_count,
            deck_len == deck@.len(),
            pend == (((*old(pre)) is Some && (*old(pre))->0.world == wi)),
            pend ==> ps == (*old(pre))->0.section && ps < b.section_count && has_fort_slot(b.slots@, ps),
            (*old(pre)) is Some ==> fort_ok(pool@, catalog@, (*old(pre))->0.pool_idx),
            all_of(deck@, |pi: usize| fort_ok(pool@, catalog@, pi)),
            all_of(old_own, |pi: usize| fort_ok(pool@, catalog@, pi)),
            deck@.no_duplicates(),
            old_own.no_duplicates(),
            (*old(pre)) is Some ==> !deck@.contains((*old(pre))->0.pool_idx) && !old_own.contains(
                (*old(pre))->0.pool_idx,
            ),
            forall|i: int, j: int| 0 <= i < j < out@.len() ==> out@[i].pool_idx != out@[j].pool_idx,
            own@.len() <= old_own.len(),
            0 <= next0,
            cross ==> next0 <= *next <= deck@.len(),
            forall|j: int|
                0 <= j < out@.len() ==> {
                    ||| ((*old(pre)) is Some && (#[trigger] out@[j]).pool_idx == (*old(pre))->0.pool_idx && pend
                        && ps < section)
                    ||| (cross && deck@.subrange(next0, *next as int).contains(out@[j].pool_idx))
                    ||| (!cross && old_own.subrange(own@.len() as int, old_own.len() as int).contains(
                        out@[j].pool_idx,
                    ))
                },
            ({
                let fs = fort_sections_upto(*b, section as int);
                let used: int = if pend && ps < section { 1 } else { 0 };
                let drawn = fs.len() - used;
                let total: int = if pend { 1 } else { 0 };
                &&& out@.len() == fs.len()
                &&& *pre == (if pend && ps < section { None } else { *old(pre) })
                &&& cross ==> next0 <= deck@.len() && deck@.len() - next0 + total >= fort_sections(*b).len()
                &&& !cross ==> old_own.len() + total >= fort_sections(*b).len()
                &&& cross ==> *next == next0 + drawn && own@ == old_own
                &&& !cross ==> *next == next0 && own@ == old_own.take(old_own.len() - drawn)
                &&& pend && used == 0 ==> ps >= section
                &&& forall|k: int|
                    0 <= k < fs.len() ==> {
                        &&& (#[trigger] out@[k]).pos == fort_slot_pos(b.slots@, fs[k] as int)
                        &&& fort_ok(pool@, catalog@, out@[k].pool_idx)
                        &&& (pend && fs[k] == ps) ==> out@[k].pool_idx == (*old(pre))->0.pool_idx
                        &&& !(pend && fs[k] == ps) ==> (if cross {
                            deck@.subrange(next0, *next as int).contains(out@[k].pool_idx)
                        } else {
                            old_own.contains(out@[k].pool_idx)
                        })
                    }
            }),
        decreases b.section_count - section,
    {
        proof {
            lemma_fort_sections_len(*b, section as int, b.section_count as int);
            lemma_fort_sections_bound(*b, section as int);
        }
        let found = find_fort_slot(&b.slots, section);
        if let Some(i) = found {
            proof {
                lemma_first_fort_slot(b.slots@, section as int, b.slots@.len() as int);
                assert(has_fort_slot(b.slots@, section as int));
                lemma_fort_sections_len(*b, section + 1, b.section_count as int);
                if pend && ps > section {
                    lemma_fort_sections_grow(*b, section + 1, ps, b.section_count as int);
                }
                let u = fort_sections_upto(*b, section as int).len();
                assert(fort_sections_upto(*b, section + 1).len() == u + 1);
                assert(u + 1 <= fort_sections(*b).len());
            }
            let pos = b.slots[i].pos;
            let mut take_pre = false;
            if let Some(p) = *pre {
                if p.world == wi && p.section == section {
                    take_pre = true;
                }
            }
            proof {
                let u = fort_sections_upto(*b, section as int).len() as int;
                let f = fort_sections(*b).len() as int;
                let used: int = if pend && ps < section { 1 } else { 0 };
                let total: int = if pend { 1 } else { 0 };
                if !take_pre {
                    if pend && used == 0 {
                        assert(*pre == *old(pre));
                        assert(ps != section);
                        assert(f >= u + 2);
                    }
                    assert(u + total - used < f);
                }
            }
            let pi = if take_pre {
                let p = pre.unwrap();
                *pre = None;
                p.pool_idx
            } else if cross {
                assert(*next < deck_len);
                let x = deck[*next];
                *next = *next + 1;
                x
            } else {
                proof {
                    let u = fort_sections_upto(*b, section as int).len() as int;
                    let used: int = if pend && ps < section { 1 } else { 0 };
                    let total: int = if pend { 1 } else { 0 };
                    if used == 1 {
                        lemma_fort_sections_grow(*b, 0, ps, section as int);
                    }
                    assert(old_own.len() + total >= fort_sections(*b).len());
                    assert(u + total - used < fort_sections(*b).len());
                    assert(0 <= u - used < old_own.len());
                    assert(own@.len() == old_own.len() - (u - used));
                }
                let x = own.pop().unwrap();
                proof {
                    assert(own@ =~= old_own.take(old_own.len() - (fort_sections_upto(*b, section as int).len()
                        - (if pend && ps < section { 1int } else { 0int })) - 1));
                }
                x
            };
            let ghost out_before = out@;
            assert(cross ==> next0 <= *next <= deck@.len());
            assert(own@.len() <= old_own.len());
            out.push(Assignment { pool_idx: pi, pos });
            proof {
                let len1 = own@.len() as int;
                let nx = *next as int;
                let dl = deck@.len() as int;
                assert(cross ==> next0 <= nx <= dl);
                assert(len1 <= old_own.len());
                if !take_pre && cross {
                    assert(deck@[nx - 1] == pi);
                }
                if !take_pre && !cross {
                    assert(old_own[len1] == pi);
                }
                assert forall|j: int| 0 <= j < out_before.len() implies out_before[j].pool_idx != pi by {
                    let y = out_before[j].pool_idx;
                    if take_pre {
                        if cross && deck@.subrange(next0, nx).contains(y) {
                            lemma_in_subrange(deck@, next0, nx, y);
                        }
                        if !cross && old_own.subrange(len1, old_own.len() as int).contains(y) {
                            lemma_in_subrange(old_own, len1, old_own.len() as int, y);
                        }
                    } else if cross {
                        if deck@.subrange(next0, nx - 1).contains(y) {
                            lemma_in_subrange(deck@, next0, nx - 1, y);
                        }
                    } else {
                        if old_own.subrange(len1 + 1, old_own.len() as int).contains(y) {
                            lemma_in_subrange(old_own, len1 + 1, old_own.len() as int, y);
                        }
                    }
                }
                assert forall|j: int| 0 <= j < out@.len() implies {
                    ||| ((*old(pre)) is Some && (#[trigger] out@[j]).pool_idx == (*old(pre))->0.pool_idx && pend
                        && ps < section + 1)
                    ||| (cross && deck@.subrange(next0, nx).contains(out@[j].pool_idx))
                    ||| (!cross && old_own.subrange(own@.len() as int, old_own.len() as int).contains(
                        out@[j].pool_idx,
                    ))
                } by {
                    if j < out_before.len() {
                        assert(out@[j] == out_before[j]);
                        let y = out@[j].pool_idx;
                        if cross && !take_pre && deck@.subrange(next0, nx - 1).contains(y) {
                            lemma_subrange_grow(deck@, next0, nx - 1, nx, y);
                        }
                        if !cross && !take_pre && old_own.subrange(len1 + 1, old_own.len() as int).contains(y) {
                            lemma_subrange_grow_left(old_own, len1, len1 + 1, old_own.len() as int, y);
                        }
                    } else {
                        if !take_pre && cross {
                            assert(deck@.subrange(next0, nx)[nx - 1 - next0] == pi);
                        }
                        if !take_pre && !cross {
                            assert(old_own.subrange(len1, old_own.len() as int)[0] == pi);
                        }
                    }
                }
            }
        } else {
            proof {
                if pend && ps == section {
                    assert(false);
                }
            }
        }
        section = section + 1;
    }
    out
}

/// An element of `s[a..b]` sits at an index in `a..b` of `s`.
proof fn lemma_in_subrange(s: Seq<usize>, a: int, b: int, y: usize)
    requires
        0 <= a <= b <= s.len(),
        s.subrange(a, b).contains(y),
    ensures
        exists|i: int| a <= i < b && s[i] == y,
        s.contains(y),
{
    let q = choose|q: int| 0 <= q < b - a && #[trigger] s.subrange(a, b)[q] == y;
    assert(s[a + q] == y);
}

proof fn lemma_subrange_grow(s: Seq<usize>, a: int, b: int, c: int, y: usize)
    requires
        0 <= a <= b <= c <= s.len(),
        s.subrange(a, b).contains(y),
    ensures
        s.subrange(a, c).contains(y),
{
    let q = choose|q: int| 0 <= q < b - a && #[trigger] s.subrange(a, b)[q] == y;
    assert(s.subrange(a, c)[q] == y);
}

proof fn lemma_subrange_grow_left(s: Seq<usize>, a: int, b: int, c: int, y: usize)
    requires
        0 <= a <= b <= c <= s.len(),
        s.subrange(b, c).contains(y),
    ensures
        s.subrange(a, c).contains(y),
{
    let q = choose|q: int| 0 <= q < c - b && #[trigger] s.subrange(b, c)[q] == y;
    assert(s.subrange(a, c)[q + b - a] == y);
}

proof fn lemma_fort_sections_len(b: BuiltWorld, s: int, n: int)
    requires
        0 <= s <= n,
    ensures
        fort_sections_upto(b, s).len() <= fort_sections_upto(b, n).len(),
        fort_sections_upto(b, n).len() - fort_sections_upto(b, s).len() <= n - s,
    decreases n - s,
{
    if n > s {
        lemma_fort_sections_len(b, s, n - 1);
    }
}

proof fn lemma_fort_sections_grow(b: BuiltWorld, s: int, x: int, n: int)
    requires
        0 <= s <= x < n,
        has_fort_slot(b.slots@, x),
    ensures
        fort_sections_upto(b, n).len() >= fort_sections_upto(b, s).len() + 1,
    decreases n - s,
{
    if x == n - 1 {
        lemma_fort_sections_len(b, s, n - 1);
    } else {
        lemma_fort_sections_grow(b, s, x, n - 1);
    }
}

proof fn lemma_fort_sections_contains(b: BuiltWorld, x: int, n: int)
    requires
        0 <= x < n,
        has_fort_slot(b.slots@, x),
    ensures
        exists|k: int| 0 <= k < fort_sections_upto(b, n).len() && #[trigger] fort_sections_upto(b, n)[k] == x,
    decreases n,
{
    if x == n - 1 {
        let prev = fort_sections_upto(b, n - 1);
        assert(fort_sections_upto(b, n)[prev.len() as int] == x);
    } else {
        lemma_fort_sections_contains(b, x, n - 1);
        let k = choose|k: int| 0 <= k < fort_sections_upto(b, n - 1).len() && #[trigger] fort_sections_upto(b, n - 1)[k] == x;
        assert(fort_sections_upto(b, n)[k] == x);
    }
}

proof fn lemma_fort_sections_bound(b: BuiltWorld, s: int)
    requires
        0 <= s,
    ensures
        forall|i: int| 0 <= i < fort_sections_upto(b, s).len() ==> (#[trigger] fort_sections_upto(b, s)[i]) < s,
        fort_sections_upto(b, s).len() <= s,
    decreases s,
{
    if s > 0 {
        lemma_fort_sections_bound(b, s - 1);
    }
}

/// A level pool entry.
pub open spec fn level_ok(pool: Seq<PoolEntry>, catalog: Seq<CatalogEntry>, pi: usize) -> bool {
    pi < pool.len() && entry_of(pool, catalog, pi as int).kind is Level
}

/// `x` is listed in `v`.
pub(crate) fn pair_listed(v: &Vec<(usize, usize)>, x: (usize, usize)) -> (b: bool)
    ensures
        b == v@.contains(x),
{
    let mut i: usize = 0;
    while i < v.len()
        invariant
            i <= v@.len(),
            forall|j: int| 0 <= j < i ==> v@[j] != x,
        decreases v@.len() - i,
    {
        let y = v[i];
        if y.0 == x.0 && y.1 == x.1 {
            return true;
        }
        i = i + 1;
    }
    false
}

/// Pool entry `pi` may stand behind a troll pipe.
fn troll_ok(pool: &Vec<PoolEntry>, catalog: &Vec<CatalogEntry>, chests: &Vec<(usize, usize)>, pi: usize) -> (b:
    bool)
    requires
        pool_valid(pool@, catalog@),
        pi < pool@.len(),
    ensures
        b == !troll_ineligible(entry_of(pool@, catalog@, pi as int), chests@),
{
    let e = catalog[pool[pi].catalog_idx];
    !pair_listed(chests, (e.world_idx, e.entry_idx))
}

/// The slots of a kind (and troll flag), in order.
fn collect_slots(slots: &Vec<SlotAssignment>, kind: SlotKind, troll: Option<bool>) -> (v: Vec<SlotAssignment>)
    ensures
        v@ == slots_where(slots@, kind, troll, slots@.len() as int),
{
    let mut v: Vec<SlotAssignment> = Vec::new();
    let mut k: usize = 0;
    while k < slots.len()
        invariant
            k <= slots@.len(),
            v@ == slots_where(slots@, kind, troll, k as int),
        decreases slots@.len() - k,
    {
        let s = slots[k];
        let flag_ok = match troll {
            Some(t) => s.is_troll_pipe == t,
            None => true,
        };
        if s.kind == kind && flag_ok {
            v.push(s);
        }
        k = k + 1;
    }
    v
}

/// Deal the levels of world `wi`: troll-pipe slots first, each taking the
/// first level (shared deck) or the last level (world's own share) that may
/// stand behind a pipe; when none is left the slot is demoted to a plain
/// level and takes the next card. Other slots take the next card.
fn deal_levels(
    b: &BuiltWorld,
    cross: bool,
    deck: &mut Vec<usize>,
    own: &mut Vec<usize>,
    pool: &Vec<PoolEntry>,
    catalog: &Vec<CatalogEntry>,
    chests: &Vec<(usize, usize)>,
) -> (r: (Vec<Assignment>, Vec<Cell>))
    requires
        pool_valid(pool@, catalog@),
        cross ==> old(deck)@.len() >= level_slot_order(b.slots@).len(),
        !cross ==> old(own)@.len() >= level_slot_order(b.slots@).len(),
        all_of(old(deck)@, |pi: usize| level_ok(pool@, catalog@, pi)),
        all_of(old(own)@, |pi: usize| level_ok(pool@, catalog@, pi)),
        old(deck)@.no_duplicates(),
        old(own)@.no_duplicates(),
    ensures
        forall|i: int, j: int| 0 <= i < j < r.0@.len() ==> r.0@[i].pool_idx != r.0@[j].pool_idx,
        forall|i: int| 0 <= i < r.0@.len() && cross ==> !final(deck)@.contains(#[trigger] r.0@[i].pool_idx),
        final(deck)@.no_duplicates(),
        final(own)@.no_duplicates(),
        ({
            let ls = level_slot_order(b.slots@);
            &&& r.0@.len() == ls.len()
            &&& forall|k: int|
                0 <= k < ls.len() ==> {
                    &&& (#[trigger] r.0@[k]).pos == ls[k].pos
                    &&& level_ok(pool@, catalog@, r.0@[k].pool_idx)
                    &&& cross ==> old(deck)@.contains(r.0@[k].pool_idx)
                    &&& !cross ==> old(own)@.contains(r.0@[k].pool_idx)
                    &&& ls[k].is_troll_pipe && !r.1@.contains(ls[k].pos) ==> !troll_ineligible(
                        entry_of(pool@, catalog@, r.0@[k].pool_idx as int),
                        chests@,
                    )
                }
            &&& cross ==> final(deck)@.len() == old(deck)@.len() - ls.len() && final(own)@ == old(own)@
            &&& !cross ==> final(own)@.len() == old(own)@.len() - ls.len() && final(deck)@ == old(deck)@
            &&& all_of(final(deck)@, |pi: usize| level_ok(pool@, catalog@, pi))
            &&& all_of(final(own)@, |pi: usize| level_ok(pool@, catalog@, pi))
            &&& forall|x: usize| final(deck)@.contains(x) ==> old(deck)@.contains(x)
            &&& forall|x: usize| final(own)@.contains(x) ==> old(own)@.contains(x)
        }),
{
    let trolls = collect_slots(&b.slots, SlotKind::Level, Some(true));
    let plain = collect_slots(&b.slots, SlotKind::Level, Some(false));
    let mut ordered = trolls;
    let mut q: usize = 0;
    let ghost t0 = ordered@;
    while q < plain.len()
        invariant
            q <= plain@.len(),
            ordered@ == t0 + plain@.take(q as int),
        decreases plain@.len() - q,
    {
        ordered.push(plain[q]);
        q = q + 1;
        assert(ordered@ =~= t0 + plain@.take(q as int));
    }
    assert(plain@.take(plain@.len() as int) =~= plain@);
    let ghost ls = ordered@;
    assert(ls == level_slot_order(b.slots@));
    let ghost deck0 = deck@;
    let ghost own0 = own@;

    let mut out: Vec<Assignment> = Vec::new();
    let mut demoted: Vec<Cell> = Vec::new();
    let mut k: usize = 0;
    while k < ordered.len()
        invariant
            k <= ls.len(),
            ordered@ == ls,
            pool_valid(pool@, catalog@),
            cross ==> deck@.len() == deck0.len() - k && own@ == own0 && deck0.len() >= ls.len(),
            !cross ==> own@.len() == own0.len() - k && deck@ == deck0 && own0.len() >= ls.len(),
            all_of(deck@, |pi: usize| level_ok(pool@, catalog@, pi)),
            all_of(own@, |pi: usize| level_ok(pool@, catalog@, pi)),
            forall|x: usize| deck@.contains(x) ==> deck0.contains(x),
            forall|x: usize| own@.contains(x) ==> own0.contains(x),
            deck@.no_duplicates(),
            own@.no_duplicates(),
            forall|i: int, j: int| 0 <= i < j < out@.len() ==> out@[i].pool_idx != out@[j].pool_idx,
            forall|i: int| 0 <= i < out@.len() && cross ==> !deck@.contains(#[trigger] out@[i].pool_idx),
            forall|i: int| 0 <= i < out@.len() && !cross ==> !own@.contains(#[trigger] out@[i].pool_idx),
            out@.len() == k,
            forall|j: int|
                0 <= j < k ==> {
                    &&& (#[trigger] out@[j]).pos == ls[j].pos
                    &&& level_ok(pool@, catalog@, out@[j].pool_idx)
                    &&& cross ==> deck0.contains(out@[j].pool_idx)
                    &&& !cross ==> own0.contains(out@[j].pool_idx)
                    &&& ls[j].is_troll_pipe && !demoted@.contains(ls[j].pos) ==> !troll_ineligible(
                        entry_of(pool@, catalog@, out@[j].pool_idx as int),
                        chests@,
                    )
                },
        decreases ls.len() - k,
    {
        let slot = ordered[k];
        let ghost d_before = deck@;
        let ghost o_before = own@;
        let ghost dem_before = demoted@;
        let mut picked_eligible = false;
        let mut ri: usize = 0;
        if cross {
            if slot.is_troll_pipe {
                let mut j: usize = 0;
                let mut found = false;
                while j < deck.len()
                    invariant
                        j <= deck@.len(),
                        deck@ == d_before,
                        pool_valid(pool@, catalog@),
                        all_of(deck@, |pi: usize| level_ok(pool@, catalog@, pi)),
                        found ==> j < deck@.len() && !troll_ineligible(
                            entry_of(pool@, catalog@, deck@[j as int] as int),
                            chests@,
                        ),
                    decreases deck@.len() - j, (if found { 0int } else { 1int }),
                {
                    assert(level_ok(pool@, catalog@, deck@[j as int]));
                    if troll_ok(pool, catalog, chests, deck[j]) {
                        found = true;
                        break;
                    }
                    j = j + 1;
                }
                if found {
                    picked_eligible = true;
                    ri = j;
                } else {
                    demoted.push(slot.pos);
                    assert(demoted@[demoted@.len() - 1] == slot.pos);
                }
            }
        } else {
            ri = own.len() - 1;
            if slot.is_troll_pipe {
                let mut j: usize = own.len();
                let mut found = false;
                while j > 0
                    invariant
                        j <= own@.len(),
                        own@ == o_before,
                        pool_valid(pool@, catalog@),
                        all_of(own@, |pi: usize| level_ok(pool@, catalog@, pi)),
                        found ==> 0 < j <= own@.len() && !troll_ineligible(
                            entry_of(pool@, catalog@, own@[j - 1] as int),
                            chests@,
                        ),
                    decreases j, (if found { 0int } else { 1int }),
                {
                    assert(level_ok(pool@, catalog@, own@[j - 1]));
                    if troll_ok(pool, catalog, chests, own[j - 1]) {
                        found = true;
                        break;
                    }
                    j = j - 1;
                }
                if found {
                    picked_eligible = true;
                    ri = j - 1;
                } else {
                    demoted.push(slot.pos);
                    assert(demoted@[demoted@.len() - 1] == slot.pos);
                }
            }
        }
        let pi = if cross {
            deck.remove(ri)
        } else {
            own.remove(ri)
        };
        assert(picked_eligible ==> !troll_ineligible(entry_of(pool@, catalog@, pi as int), chests@));
        assert(slot.is_troll_pipe && !picked_eligible ==> demoted@.contains(slot.pos));
        proof {
            assert(cross ==> d_before.contains(pi));
            assert(!cross ==> o_before.contains(pi));
            assert forall|x: usize| deck@.contains(x) implies d_before.contains(x) by {
                let i = choose|i: int| 0 <= i < deck@.len() && deck@[i] == x;
                if cross {
                    let rm = ri as int;
                    if i < rm {
                        assert(d_before[i] == x);
                    } else {
                        assert(d_before[i + 1] == x);
                    }
                }
            }
            assert forall|x: usize| own@.contains(x) implies o_before.contains(x) by {
                let i = choose|i: int| 0 <= i < own@.len() && own@[i] == x;
                if !cross {
                    let rm = ri as int;
                    if i < rm {
                        assert(o_before[i] == x);
                    } else {
                        assert(o_before[i + 1] == x);
                    }
                }
            }
            assert forall|p: Cell| dem_before.contains(p) implies demoted@.contains(p) by {
                let i = choose|i: int| 0 <= i < dem_before.len() && dem_before[i] == p;
                assert(demoted@[i] == p);
            }
            assert(level_ok(pool@, catalog@, pi));
            let src = if cross { d_before } else { o_before };
            let now = if cross { deck@ } else { own@ };
            assert(now =~= src.remove(ri as int));
            assert(src[ri as int] == pi);
            assert(!now.contains(pi)) by {
                if now.contains(pi) {
                    let i = choose|i: int| 0 <= i < now.len() && now[i] == pi;
                    if i < ri {
                        assert(src[i] == pi);
                    } else {
                        assert(src[i + 1] == pi);
                    }
                }
            }
            assert(now.no_duplicates()) by {
                assert forall|i: int, j: int| 0 <= i < now.len() && 0 <= j < now.len() && i != j implies now[i] != now[j] by {
                    let si = if i < ri { i } else { i + 1 };
                    let sj = if j < ri { j } else { j + 1 };
                    assert(now[i] == src[si] && now[j] == src[sj]);
                }
            }
            assert forall|i: int| 0 <= i < out@.len() implies out@[i].pool_idx != pi by {
                assert(!src.contains(out@[i].pool_idx));
                assert(src.contains(src[ri as int]));
            }
            assert forall|i: int| 0 <= i < out@.len() && cross implies !deck@.contains(#[trigger] out@[i].pool_idx) by {
                if deck@.contains(out@[i].pool_idx) {
                    assert(d_before.contains(out@[i].pool_idx));
                }
            }
            assert forall|i: int| 0 <= i < out@.len() && !cross implies !own@.contains(#[trigger] out@[i].pool_idx) by {
                if own@.contains(out@[i].pool_idx) {
                    assert(o_before.contains(out@[i].pool_idx));
                }
            }
        }
        out.push(Assignment { pool_idx: pi, pos: slot.pos });
        k = k + 1;
    }
    (out, demoted)
}

/// A permutation keeps a property of every element.
proof fn lemma_perm_all<T>(a: Seq<T>, b: Seq<T>, p: spec_fn(T) -> bool)
    requires
        a.to_multiset() == b.to_multiset(),
        forall|i: int| 0 <= i < a.len() ==> p(#[trigger] a[i]),
    ensures
        forall|i: int| 0 <= i < b.len() ==> p(#[trigger] b[i]),
{
    broadcast use vstd::seq_lib::group_to_multiset_ensures;
    assert forall|i: int| 0 <= i < b.len() implies p(#[trigger] b[i]) by {
        assert(b.to_multiset().count(b[i]) > 0);
        assert(a.contains(b[i]));
    }
}

/// A pipe group of world `wi`: its endpoints are pipe entries of that world
/// with the group's destination, in ascending pool order.
pub open spec fn group_ok(
    pool: Seq<PoolEntry>,
    catalog: Seq<CatalogEntry>,
    wi: int,
    g: (usize, Vec<(usize, bool)>),
) -> bool {
    &&& g.1@.len() > 0
    &&& forall|j: int|
        0 <= j < g.1@.len() ==> {
            &&& (#[trigger] g.1@[j]).0 < pool.len()
            &&& entry_of(pool, catalog, g.1@[j].0 as int).kind == NodeKind::Pipe {
                dest_idx: g.0,
                is_a_side: g.1@[j].1,
            }
            &&& entry_of(pool, catalog, g.1@[j].0 as int).world_idx == wi
        }
    &&& forall|i: int, j: int| 0 <= i < j < g.1@.len() ==> g.1@[i].0 < g.1@[j].0
}

/// Pool entry `pi` sits in the group of destination `d`.
pub open spec fn covers(groups: Seq<(usize, Vec<(usize, bool)>)>, d: usize, pi: int) -> bool {
    exists|q: int, j: int|
        0 <= q < groups.len() && 0 <= j < groups[q].1@.len() && groups[q].0 == d && #[trigger] groups[q].1@[j].0
            == pi
}

/// The pipe endpoints of world `wi` grouped by destination, destinations
/// ascending, each group in pool order.
fn pipe_groups(pool: &Vec<PoolEntry>, catalog: &Vec<CatalogEntry>, wi: usize) -> (groups: Vec<
    (usize, Vec<(usize, bool)>),
>)
    requires
        pool_valid(pool@, catalog@),
    ensures
        forall|q: int| 0 <= q < groups@.len() ==> group_ok(pool@, catalog@, wi as int, #[trigger] groups@[q]),
        forall|q1: int, q2: int| 0 <= q1 < q2 < groups@.len() ==> groups@[q1].0 != groups@[q2].0,
        forall|d: usize, pi: int| #[trigger] pipe_end(pool@, catalog@, wi as int, d, pi) ==> covers(groups@, d, pi),
{
    let mut groups: Vec<(usize, Vec<(usize, bool)>)> = Vec::new();
    let mut k: usize = 0;
    while k < pool.len()
        invariant
            k <= pool@.len(),
            pool_valid(pool@, catalog@),
            forall|q: int| 0 <= q < groups@.len() ==> group_ok(pool@, catalog@, wi as int, #[trigger] groups@[q]),
            forall|q: int, j: int|
                0 <= q < groups@.len() && 0 <= j < groups@[q].1@.len() ==> (#[trigger] groups@[q].1@[j]).0 < k,
            forall|q1: int, q2: int| 0 <= q1 < q2 < groups@.len() ==> groups@[q1].0 != groups@[q2].0,
            forall|d: usize, pi: int|
                #[trigger] pipe_end(pool@, catalog@, wi as int, d, pi) && pi < k ==> covers(groups@, d, pi),
        decreases pool@.len() - k,
    {
        let e = catalog[pool[k].catalog_idx];
        if e.world_idx == wi {
            if let NodeKind::Pipe { dest_idx, is_a_side } = e.kind {
                let mut q: usize = 0;
                while q < groups.len() && groups[q].0 != dest_idx
                    invariant
                        q <= groups@.len(),
                        forall|p: int| 0 <= p < q ==> groups@[p].0 != dest_idx,
                    decreases groups@.len() - q,
                {
                    q = q + 1;
                }
                let ghost before = groups@;
                if q < groups.len() {
                    let (d, mut g) = groups.remove(q);
                    assert(before[q as int] == (d, g));
                    let ghost g0 = g@;
                    g.push((k, is_a_side));
                    proof {
                        assert(group_ok(pool@, catalog@, wi as int, before[q as int]));
                        assert forall|i: int, j: int| 0 <= i < j < g@.len() implies g@[i].0 < g@[j].0 by {
                            if j == g@.len() - 1 {
                                assert(g@[i] == g0[i]);
                                assert(before[q as int].1@[i] == g0[i]);
                            } else {
                                assert(g@[i] == g0[i] && g@[j] == g0[j]);
                            }
                        }
                        assert forall|j: int| 0 <= j < g@.len() implies {
                            &&& (#[trigger] g@[j]).0 < pool@.len()
                            &&& entry_of(pool@, catalog@, g@[j].0 as int).kind == NodeKind::Pipe {
                                dest_idx: d,
                                is_a_side: g@[j].1,
                            }
                            &&& entry_of(pool@, catalog@, g@[j].0 as int).world_idx == wi
                        } by {
                            if j < g0.len() {
                                assert(g@[j] == g0[j]);
                            }
                        }
                    }
                    groups.insert(q, (d, g));
                    proof {
                        assert(groups@ =~= before.update(q as int, (d, g)));
                        assert forall|d2: usize, pi: int|
                            #[trigger] pipe_end(pool@, catalog@, wi as int, d2, pi) && pi < k + 1 implies covers(
                                groups@,
                                d2,
                                pi,
                            ) by {
                            if pi == k {
                                assert(groups@[q as int].1@[g0.len() as int].0 == pi);
                            } else {
                                let (q2, j2) = choose|q2: int, j2: int|
                                    0 <= q2 < before.len() && 0 <= j2 < before[q2].1@.len() && before[q2].0 == d2
                                        && #[trigger] before[q2].1@[j2].0 == pi;
                                if q2 == q {
                                    assert(groups@[q2].1@[j2] == g0[j2]);
                                } else {
                                    assert(groups@[q2] == before[q2]);
                                }
                                assert(groups@[q2].1@[j2].0 == pi);
                            }
                        }
                        assert forall|q1: int, q2: int| 0 <= q1 < q2 < groups@.len() implies groups@[q1].0
                            != groups@[q2].0 by {
                            assert(groups@[q1].0 == before[q1].0);
                            assert(groups@[q2].0 == before[q2].0);
                        }
                        assert forall|r: int, j: int|
                            0 <= r < groups@.len() && 0 <= j < groups@[r].1@.len() implies (#[trigger] groups@[r].1@[j]).0
                            < k + 1 by {
                            if r != q {
                                assert(groups@[r] == before[r]);
                            } else {
                                if j < g0.len() {
                                    assert(groups@[r].1@[j] == g0[j]);
                                    assert(before[q as int].1@[j] == g0[j]);
                                }
                            }
                        }
                    }
                } else {
                    let mut at: usize = 0;
                    while at < groups.len() && groups[at].0 < dest_idx
                        invariant
                            at <= groups@.len(),
                        decreases groups@.len() - at,
                    {
                        at = at + 1;
                    }
                    let g = vec![(k, is_a_side)];
                    groups.insert(at, (dest_idx, g));
                    proof {
                        assert(groups@ =~= before.insert(at as int, (dest_idx, g)));
                        assert forall|d2: usize, pi: int|
                            #[trigger] pipe_end(pool@, catalog@, wi as int, d2, pi) && pi < k + 1 implies covers(
                                groups@,
                                d2,
                                pi,
                            ) by {
                            if pi == k {
                                assert(groups@[at as int].1@[0].0 == pi);
                            } else {
                                let (q2, j2) = choose|q2: int, j2: int|
                                    0 <= q2 < before.len() && 0 <= j2 < before[q2].1@.len() && before[q2].0 == d2
                                        && #[trigger] before[q2].1@[j2].0 == pi;
                                let nq = if q2 < at { q2 } else { q2 + 1 };
                                assert(groups@[nq] == before[q2]);
                                assert(groups@[nq].1@[j2].0 == pi);
                            }
                        }
                        assert forall|q1: int, q2: int| 0 <= q1 < q2 < groups@.len() implies groups@[q1].0
                            != groups@[q2].0 by {
                            let b1 = if q1 < at { q1 } else { q1 - 1 };
                            let b2 = if q2 < at { q2 } else { q2 - 1 };
                            if q1 != at && q2 != at {
                                assert(groups@[q1] == before[b1]);
                                assert(groups@[q2] == before[b2]);
                            } else if q1 == at {
                                assert(groups@[q2] == before[b2]);
                            } else {
                                assert(groups@[q1] == before[b1]);
                            }
                        }
                        assert forall|r: int| 0 <= r < groups@.len() implies group_ok(
                            pool@,
                            catalog@,
                            wi as int,
                            #[trigger] groups@[r],
                        ) by {
                            if r < at {
                                assert(groups@[r] == before[r]);
                            } else if r > at {
                                assert(groups@[r] == before[r - 1]);
                            }
                        }
                        assert forall|r: int, j: int|
                            0 <= r < groups@.len() && 0 <= j < groups@[r].1@.len() implies (#[trigger] groups@[r].1@[j]).0
                            < k + 1 by {
                            if r < at {
                                assert(groups@[r] == before[r]);
                            } else if r > at {
                                assert(groups@[r] == before[r - 1]);
                            }
                        }
                    }
                }
            }
        }
        k = k + 1;
    }
    groups
}

/// Deal world `wi`'s pipe groups onto the build's pipe pairs: the groups
/// are shuffled and, in turn, each takes the next pair, its A-side endpoint
/// on the pair's first cell, until the pairs run out or a group lacks its
/// second endpoint.
fn deal_pipes(
    b: &BuiltWorld,
    wi: usize,
    groups: Vec<(usize, Vec<(usize, bool)>)>,
    pool: &Vec<PoolEntry>,
    catalog: &Vec<CatalogEntry>,
    rng: &mut ChaCha8Rng,
) -> (out: Vec<PipeAssignment>)
    requires
        forall|q: int| 0 <= q < groups@.len() ==> group_ok(pool@, catalog@, wi as int, #[trigger] groups@[q]),
        forall|q1: int, q2: int| 0 <= q1 < q2 < groups@.len() ==> groups@[q1].0 != groups@[q2].0,
        forall|d: usize, pi: int| #[trigger] pipe_end(pool@, catalog@, wi as int, d, pi) ==> covers(groups@, d, pi),
    ensures
        forall|k1: int, k2: int| 0 <= k1 < k2 < out@.len() ==> out@[k1].dest_idx != out@[k2].dest_idx,
        pipes_ok(out@, *b, pool@, catalog@, wi as int),
{
    let ghost g0 = groups@;
    let mut groups = groups;
    shuffle_in_place(&mut groups, rng);
    proof {
        broadcast use vstd::seq_lib::group_to_multiset_ensures;
        lemma_perm_all(g0, groups@, |g: (usize, Vec<(usize, bool)>)| group_ok(pool@, catalog@, wi as int, g));
        assert(g0.no_duplicates()) by {
            assert forall|i: int, j: int| 0 <= i < g0.len() && 0 <= j < g0.len() && i != j implies g0[i] != g0[j] by {
                if i < j {
                    assert(g0[i].0 != g0[j].0);
                } else {
                    assert(g0[j].0 != g0[i].0);
                }
            }
        }
        lemma_perm_nodup(g0, groups@);
        assert forall|q1: int, q2: int| 0 <= q1 < q2 < groups@.len() implies groups@[q1].0 != groups@[q2].0 by {
            assert(groups@.to_multiset().count(groups@[q1]) > 0);
            assert(groups@.to_multiset().count(groups@[q2]) > 0);
            assert(g0.contains(groups@[q1]));
            assert(g0.contains(groups@[q2]));
            let p1 = choose|p: int| 0 <= p < g0.len() && g0[p] == groups@[q1];
            let p2 = choose|p: int| 0 <= p < g0.len() && g0[p] == groups@[q2];
            if groups@[q1].0 == groups@[q2].0 {
                if p1 < p2 {
                    assert(g0[p1].0 != g0[p2].0);
                } else if p2 < p1 {
                    assert(g0[p2].0 != g0[p1].0);
                } else {
                    assert(groups@[q1] == groups@[q2]);
                }
            }
        }
    }
    proof {
        broadcast use vstd::seq_lib::group_to_multiset_ensures;
        assert forall|d: usize, pi: int| #[trigger] pipe_end(pool@, catalog@, wi as int, d, pi) implies covers(
            groups@,
            d,
            pi,
        ) by {
            let (q, j) = choose|q: int, j: int|
                0 <= q < g0.len() && 0 <= j < g0[q].1@.len() && g0[q].0 == d && #[trigger] g0[q].1@[j].0 == pi;
            assert(g0.to_multiset().count(g0[q]) > 0);
            assert(groups@.contains(g0[q]));
            let q2 = choose|q2: int| 0 <= q2 < groups@.len() && groups@[q2] == g0[q];
            assert(groups@[q2].1@[j].0 == pi);
        }
    }
    let mut out: Vec<PipeAssignment> = Vec::new();
    let mut k: usize = 0;
    while k < groups.len()
        invariant
            k <= groups@.len(),
            out@.len() == k,
            k <= b.pipe_pairs@.len(),
            forall|q: int| 0 <= q < groups@.len() ==> group_ok(pool@, catalog@, wi as int, #[trigger] groups@[q]),
            forall|q1: int, q2: int| 0 <= q1 < q2 < groups@.len() ==> groups@[q1].0 != groups@[q2].0,
            forall|j: int| 0 <= j < out@.len() ==> (#[trigger] out@[j]).dest_idx == groups@[j].0,
            forall|j: int|
                0 <= j < out@.len() ==> {
                    let pa = #[trigger] out@[j];
                    let kind = |pi: usize| entry_of(pool@, catalog@, pi as int).kind;
                    &&& pa.pos_a == b.pipe_pairs@[j].0
                    &&& pa.pos_b == b.pipe_pairs@[j].1
                    &&& pa.pool_idx_a < pool@.len() && pa.pool_idx_b < pool@.len()
                    &&& pa.pool_idx_a != pa.pool_idx_b
                    &&& kind(pa.pool_idx_a) == NodeKind::Pipe { dest_idx: pa.dest_idx, is_a_side: kind(pa.pool_idx_a)->is_a_side }
                    &&& kind(pa.pool_idx_b) == NodeKind::Pipe { dest_idx: pa.dest_idx, is_a_side: kind(pa.pool_idx_b)->is_a_side }
                    &&& entry_of(pool@, catalog@, pa.pool_idx_a as int).world_idx == wi
                    &&& entry_of(pool@, catalog@, pa.pool_idx_b as int).world_idx == wi
                    &&& kind(pa.pool_idx_a)->is_a_side || !kind(pa.pool_idx_b)->is_a_side
                },
        ensures
            k <= groups@.len(),
            out@.len() == k,
            k <= b.pipe_pairs@.len(),
            k == groups@.len() || k == b.pipe_pairs@.len() || groups@[k as int].1@.len() < 2,
            forall|j: int| 0 <= j < out@.len() ==> (#[trigger] out@[j]).dest_idx == groups@[j].0,
            forall|j: int|
                0 <= j < out@.len() ==> {
                    let pa = #[trigger] out@[j];
                    let kind = |pi: usize| entry_of(pool@, catalog@, pi as int).kind;
                    &&& pa.pos_a == b.pipe_pairs@[j].0
                    &&& pa.pos_b == b.pipe_pairs@[j].1
                    &&& pa.pool_idx_a < pool@.len() && pa.pool_idx_b < pool@.len()
                    &&& pa.pool_idx_a != pa.pool_idx_b
                    &&& kind(pa.pool_idx_a) == NodeKind::Pipe { dest_idx: pa.dest_idx, is_a_side: kind(pa.pool_idx_a)->is_a_side }
                    &&& kind(pa.pool_idx_b) == NodeKind::Pipe { dest_idx: pa.dest_idx, is_a_side: kind(pa.pool_idx_b)->is_a_side }
                    &&& entry_of(pool@, catalog@, pa.pool_idx_a as int).world_idx == wi
                    &&& entry_of(pool@, catalog@, pa.pool_idx_b as int).world_idx == wi
                    &&& kind(pa.pool_idx_a)->is_a_side || !kind(pa.pool_idx_b)->is_a_side
                },
        decreases groups@.len() - k,
    {
        if k >= b.pipe_pairs.len() || groups[k].1.len() < 2 {
            break;
        }
        let dest_idx = groups[k].0;
        let e0 = groups[k].1[0];
        let e1 = groups[k].1[1];
        proof {
            assert(group_ok(pool@, catalog@, wi as int, groups@[k as int]));
            assert(groups@[k as int].1@[0] == e0 && groups@[k as int].1@[1] == e1);
        }
        let (pos_a, pos_b) = b.pipe_pairs[k];
        let (idx_a, idx_b) = if e0.1 {
            (e0.0, e1.0)
        } else {
            (e1.0, e0.0)
        };
        out.push(PipeAssignment { pool_idx_a: idx_a, pool_idx_b: idx_b, dest_idx, pos_a, pos_b });
        k = k + 1;
    }
    proof {
        if out@.len() < b.pipe_pairs@.len() && dest_left(pool@, catalog@, wi as int, out@, true) {
            let pi = choose|pi: int|
                #[trigger] pipe_end(pool@, catalog@, wi as int, entry_of(pool@, catalog@, pi).kind->dest_idx, pi)
                    && !dest_dealt(out@, entry_of(pool@, catalog@, pi).kind->dest_idx) && (true ==> dest_complete(
                    pool@,
                    catalog@,
                    wi as int,
                    entry_of(pool@, catalog@, pi).kind->dest_idx,
                )) && (!true ==> !dest_complete(
                    pool@,
                    catalog@,
                    wi as int,
                    entry_of(pool@, catalog@, pi).kind->dest_idx,
                ));
            let d = entry_of(pool@, catalog@, pi).kind->dest_idx;
            let (q, j) = choose|q: int, j: int|
                0 <= q < groups@.len() && 0 <= j < groups@[q].1@.len() && groups@[q].0 == d && #[trigger] groups@[q].1@[j].0
                    == pi;
            if q < k {
                assert(out@[q].dest_idx == d);
                assert(dest_dealt(out@, d));
            }
            // So the loop stopped at the incomplete group `k`.
            let kk = k as int;
            assert(groups@[kk].1@.len() < 2);
            assert(group_ok(pool@, catalog@, wi as int, groups@[kk]));
            let d2 = groups@[kk].0;
            let p2 = groups@[kk].1@[0].0 as int;
            assert(pipe_end(pool@, catalog@, wi as int, d2, p2));
            assert(entry_of(pool@, catalog@, p2).kind->dest_idx == d2);
            assert(!dest_dealt(out@, d2)) by {
                if dest_dealt(out@, d2) {
                    let m = choose|m: int| 0 <= m < out@.len() && (#[trigger] out@[m]).dest_idx == d2;
                    assert(groups@[m].0 == groups@[kk].0);
                }
            }
            assert(!dest_complete(pool@, catalog@, wi as int, d2)) by {
                if dest_complete(pool@, catalog@, wi as int, d2) {
                    let (i1, i2) = choose|i1: int, i2: int|
                        i1 != i2 && #[trigger] pipe_end(pool@, catalog@, wi as int, d2, i1) && #[trigger] pipe_end(
                            pool@,
                            catalog@,
                            wi as int,
                            d2,
                            i2,
                        );
                    let (qa, ja) = choose|qa: int, ja: int|
                        0 <= qa < groups@.len() && 0 <= ja < groups@[qa].1@.len() && groups@[qa].0 == d2
                            && #[trigger] groups@[qa].1@[ja].0 == i1;
                    let (qb, jb) = choose|qb: int, jb: int|
                        0 <= qb < groups@.len() && 0 <= jb < groups@[qb].1@.len() && groups@[qb].0 == d2
                            && #[trigger] groups@[qb].1@[jb].0 == i2;
                    if qa != kk {
                        if qa < kk { assert(groups@[qa].0 != groups@[kk].0); } else { assert(groups@[kk].0 != groups@[qa].0); }
                    }
                    if qb != kk {
                        if qb < kk { assert(groups@[qb].0 != groups@[kk].0); } else { assert(groups@[kk].0 != groups@[qb].0); }
                    }
                    assert(ja != jb);
                }
            }
            assert(dest_left(pool@, catalog@, wi as int, out@, false));
        }
    }
    out
}

/// The vanilla cell of world `wi`'s airship.
fn airship_cell(catalog: &Vec<CatalogEntry>, wi: usize) -> (r: Option<Cell>)
    ensures
        r is Some ==> exists|i: int|
            0 <= i < catalog@.len() && (#[trigger] catalog@[i]).world_idx == wi && catalog@[i].kind is Airship
                && catalog@[i].grid_pos == r->0,
        r is None ==> !has_airship(catalog@, wi as int),
{
    let mut i: usize = 0;
    while i < catalog.len()
        invariant
            i <= catalog@.len(),
            forall|j: int| 0 <= j < i ==> !((#[trigger] catalog@[j]).world_idx == wi && catalog@[j].kind is Airship),
        decreases catalog@.len() - i,
    {
        let e = catalog[i];
        if e.world_idx == wi && matches!(e.kind, NodeKind::Airship) {
            return Some(e.grid_pos);
        }
        i = i + 1;
    }
    None
}

/// Deal the next cards of `deck` (from `next` on) onto the slots of `kind`
/// in order, stopping when the deck runs out.
fn deal_in_turn(slots: &Vec<SlotAssignment>, kind: SlotKind, deck: &Vec<usize>, next: &mut usize) -> (out: Vec<
    Assignment,
>)
    requires
        *old(next) <= deck@.len(),
    ensures
        ({
            let ks = slots_where(slots@, kind, None, slots@.len() as int);
            &&& out@.len() <= ks.len()
            &&& (out@.len() == ks.len() || *final(next) == deck@.len())
            &&& *final(next) == *old(next) + out@.len()
            &&& *final(next) <= deck@.len()
            &&& forall|k: int|
                0 <= k < out@.len() ==> (#[trigger] out@[k]).pos == ks[k].pos && out@[k].pool_idx == deck@[*old(next)
                    + k]
        }),
{
    let ks = collect_slots(slots, kind, None);
    let ghost n0 = *next as int;
    let mut out: Vec<Assignment> = Vec::new();
    let mut k: usize = 0;
    while k < ks.len()
        invariant
            k <= ks@.len(),
            out@.len() == k,
            *next == n0 + k,
            *next <= deck@.len(),
            ks@ == slots_where(slots@, kind, None, slots@.len() as int),
            forall|j: int| 0 <= j < k ==> (#[trigger] out@[j]).pos == ks@[j].pos && out@[j].pool_idx == deck@[n0 + j],
        ensures
            out@.len() == ks@.len() || *next == deck@.len(),
            out@.len() <= ks@.len(),
            *next == n0 + out@.len(),
            *next <= deck@.len(),
            forall|j: int| 0 <= j < out@.len() ==> (#[trigger] out@[j]).pos == ks@[j].pos && out@[j].pool_idx == deck@[n0 + j],
        decreases ks@.len() - k,
    {
        if *next >= deck.len() {
            break;
        }
        let pi = deck[*next];
        *next = *next + 1;
        out.push(Assignment { pool_idx: pi, pos: ks[k].pos });
        k = k + 1;
    }
    out
}

/// `p` is one of `cells`.
pub(crate) fn cell_in(cells: &Vec<Cell>, p: Cell) -> (b: bool)
    ensures
        b == cells@.contains(p),
{
    let mut i: usize = 0;
    while i < cells.len()
        invariant
            i <= cells@.len(),
            forall|j: int| 0 <= j < i ==> cells@[j] != p,
        decreases cells@.len() - i,
    {
        let q = cells[i];
        if q.0 == p.0 && q.1 == p.1 {
            return true;
        }
        i = i + 1;
    }
    false
}

/// Some Hammer Bro slot of the world sits on `p`.
pub open spec fn hb_slot_at(slots: Seq<SlotAssignment>, p: Cell) -> bool {
    exists|i: int| 0 <= i < slots.len() && slots[i].kind == SlotKind::HammerBro && (#[trigger] slots[i]).pos == p
}

/// The world has a Hammer Bro slot.
pub open spec fn has_hb_slot(slots: Seq<SlotAssignment>) -> bool {
    exists|i: int| 0 <= i < slots.len() && (#[trigger] slots[i]).kind == SlotKind::HammerBro
}

/// The world's Hammer Bro slots among its first `k` slots, split into those
/// under a wandering sprite (a cell of `cells`) and the others, each in
/// slot order.
pub open spec fn hb_split(slots: Seq<SlotAssignment>, cells: Seq<Cell>, k: int) -> (Seq<Cell>, Seq<Cell>)
    decreases k,
{
    if k <= 0 {
        (Seq::empty(), Seq::empty())
    } else {
        let prev = hb_split(slots, cells, k - 1);
        let s = slots[k - 1];
        if s.kind == SlotKind::HammerBro {
            if cells.contains(s.pos) {
                (prev.0.push(s.pos), prev.1)
            } else {
                (prev.0, prev.1.push(s.pos))
            }
        } else {
            prev
        }
    }
}

/// The order the Hammer Bro slots are filled in: the sprite slots, then
/// the others.
pub open spec fn hb_order(slots: Seq<SlotAssignment>, cells: Seq<Cell>) -> Seq<Cell> {
    let sp = hb_split(slots, cells, slots.len() as int);
    sp.0 + sp.1
}

/// Deal Hammer Bro levels onto the world's Hammer Bro slots, at most
/// `remaining` of them: the slots under a wandering sprite first, each
/// taking, round by round, a level of the next enemy set in `order` (so
/// the world's encounters differ), then the other slots, from the cycling
/// pool.
fn deal_hammer_bros(
    b: &BuiltWorld,
    sprite_cells: &Vec<Cell>,
    remaining: usize,
    order: &Vec<u16>,
    keys: &Vec<u16>,
    groups: &Vec<Vec<PointerEntry>>,
    cycle: &mut HbCycle,
) -> (out: Vec<HammerBroAssignment>)
    requires
        has_hb_slot(b.slots@) ==> {
            &&& order@.len() > 0
            &&& forall|k: u16| #[trigger] order@.contains(k) ==> keys@.contains(k)
            &&& groups@.len() == keys@.len()
            &&& forall|q: int| 0 <= q < groups@.len() ==> (#[trigger] groups@[q])@.len() > 0
            &&& old(cycle).levels@.len() > 0
            &&& forall|q: int, j: int|
                0 <= q < groups@.len() && 0 <= j < groups@[q]@.len() ==> obj_of(#[trigger] groups@[q]@[j]) == keys@[q]
                    && old(cycle).levels@.contains(groups@[q]@[j])
        },
        old(cycle).wf(),
    ensures
        ({
            let ns = hb_split(b.slots@, sprite_cells@, b.slots@.len() as int).0.len() as int;
            let n = old(cycle).levels@.len() as int;
            &&& forall|k: int|
                0 <= k < out@.len() && k < ns ==> obj_of((#[trigger] out@[k]).level_entry) == order@[k % (order@.len() as int)]
                    && old(cycle).levels@.contains(out@[k].level_entry)
            &&& forall|k: int|
                0 <= k < out@.len() && k >= ns ==> (#[trigger] out@[k]).level_entry == old(cycle).levels@[(old(
                    cycle,
                ).next + (k - ns)) % n]
            &&& (n > 0 && out@.len() > ns && final(cycle).next == (old(cycle).next + (out@.len() - ns)) % n) || (
            out@.len() <= ns && final(cycle).next == old(cycle).next)
        }),
        out@.len() <= remaining,
        out@.len() == (if remaining < hb_order(b.slots@, sprite_cells@).len() {
            remaining as int
        } else {
            hb_order(b.slots@, sprite_cells@).len() as int
        }),
        forall|k: int| 0 <= k < out@.len() ==> (#[trigger] out@[k]).pos == hb_order(b.slots@, sprite_cells@)[k],
        forall|k: int| 0 <= k < out@.len() ==> hb_slot_at(b.slots@, (#[trigger] out@[k]).pos),
        final(cycle).wf(),
        final(cycle).levels@ == old(cycle).levels@,
{
    let mut sprite_slots: Vec<Cell> = Vec::new();
    let mut filler_slots: Vec<Cell> = Vec::new();
    let mut i: usize = 0;
    while i < b.slots.len()
        invariant
            i <= b.slots@.len(),
            forall|k: int| 0 <= k < sprite_slots@.len() ==> hb_slot_at(b.slots@, #[trigger] sprite_slots@[k]),
            forall|k: int| 0 <= k < filler_slots@.len() ==> hb_slot_at(b.slots@, #[trigger] filler_slots@[k]),
            (sprite_slots@.len() > 0 || filler_slots@.len() > 0) ==> has_hb_slot(b.slots@),
            (sprite_slots@, filler_slots@) == hb_split(b.slots@, sprite_cells@, i as int),
        decreases b.slots@.len() - i,
    {
        let s = b.slots[i];
        if matches!(s.kind, SlotKind::HammerBro) {
            assert(b.slots@[i as int] == s);
            if cell_in(sprite_cells, s.pos) {
                sprite_slots.push(s.pos);
            } else {
                filler_slots.push(s.pos);
            }
        }
        i = i + 1;
    }
    let mut out: Vec<HammerBroAssignment> = Vec::new();
    let mut idx: usize = 0;
    while idx < sprite_slots.len()
        invariant
            idx <= sprite_slots@.len(),
            out@.len() <= remaining,
            out@.len() <= idx,
            forall|k: int| 0 <= k < sprite_slots@.len() ==> hb_slot_at(b.slots@, #[trigger] sprite_slots@[k]),
            forall|k: int| 0 <= k < out@.len() ==> hb_slot_at(b.slots@, (#[trigger] out@[k]).pos),
            sprite_slots@.len() > 0 ==> has_hb_slot(b.slots@),
            has_hb_slot(b.slots@) ==> {
                &&& order@.len() > 0
                &&& forall|k: u16| #[trigger] order@.contains(k) ==> keys@.contains(k)
                &&& groups@.len() == keys@.len()
                &&& forall|q: int| 0 <= q < groups@.len() ==> (#[trigger] groups@[q])@.len() > 0
            },
            out@.len() == idx,
            forall|k: int| 0 <= k < out@.len() ==> (#[trigger] out@[k]).pos == sprite_slots@[k],
            has_hb_slot(b.slots@) ==> forall|q: int, j: int|
                0 <= q < groups@.len() && 0 <= j < groups@[q]@.len() ==> obj_of(#[trigger] groups@[q]@[j]) == keys@[q]
                    && old(cycle).levels@.contains(groups@[q]@[j]),
            forall|k: int|
                0 <= k < out@.len() ==> obj_of((#[trigger] out@[k]).level_entry) == order@[k % (order@.len() as int)]
                    && old(cycle).levels@.contains(out@[k].level_entry),
        ensures
            forall|k: int|
                0 <= k < out@.len() ==> obj_of((#[trigger] out@[k]).level_entry) == order@[k % (order@.len() as int)]
                    && old(cycle).levels@.contains(out@[k].level_entry),
            out@.len() <= remaining,
            out@.len() <= sprite_slots@.len(),
            out@.len() == sprite_slots@.len() || out@.len() == remaining,
            forall|k: int| 0 <= k < out@.len() ==> (#[trigger] out@[k]).pos == sprite_slots@[k],
            forall|k: int| 0 <= k < out@.len() ==> hb_slot_at(b.slots@, (#[trigger] out@[k]).pos),
        decreases sprite_slots@.len() - idx,
    {
        if out.len() >= remaining {
            break;
        }
        let klen = order.len();
        let key = order[idx % klen];
        assert(order@.contains(key));
        let mut q: usize = 0;
        while q < keys.len() && keys[q] != key
            invariant
                q <= keys@.len(),
                keys@.contains(key),
                forall|p: int| 0 <= p < q ==> keys@[p] != key,
            decreases keys@.len() - q,
        {
            q = q + 1;
        }
        let group = &groups[q];
        let le = group[(idx / klen) % group.len()];
        proof {
            assert(groups@[q as int]@[((idx / klen) % group.len()) as int] == le);
        }
        out.push(HammerBroAssignment { pos: sprite_slots[idx], level_entry: le });
        idx = idx + 1;
    }
    let ghost s0 = out@.len();
    let mut f: usize = 0;
    while f < filler_slots.len()
        invariant
            f <= filler_slots@.len(),
            out@.len() <= remaining,
            forall|k: int| 0 <= k < filler_slots@.len() ==> hb_slot_at(b.slots@, #[trigger] filler_slots@[k]),
            forall|k: int| 0 <= k < out@.len() ==> hb_slot_at(b.slots@, (#[trigger] out@[k]).pos),
            filler_slots@.len() > 0 ==> has_hb_slot(b.slots@),
            has_hb_slot(b.slots@) ==> cycle.levels@.len() > 0,
            cycle.wf(),
            cycle.levels@ == old(cycle).levels@,
            s0 <= sprite_slots@.len(),
            s0 == sprite_slots@.len() || s0 == remaining,
            s0 == sprite_slots@.len() ==> out@.len() == s0 + f,
            s0 < sprite_slots@.len() ==> out@.len() == s0 && f == 0,
            old(cycle).wf(),
            forall|k: int| 0 <= k < out@.len() ==> (#[trigger] out@[k]).pos == (sprite_slots@ + filler_slots@)[k],
            forall|k: int|
                0 <= k < out@.len() && k < sprite_slots@.len() ==> obj_of((#[trigger] out@[k]).level_entry)
                    == order@[k % (order@.len() as int)] && old(cycle).levels@.contains(out@[k].level_entry),
            forall|k: int|
                0 <= k < out@.len() && k >= sprite_slots@.len() ==> (#[trigger] out@[k]).level_entry == old(
                    cycle,
                ).levels@[(old(cycle).next + (k - sprite_slots@.len())) % (old(cycle).levels@.len() as int)],
            (f > 0 && old(cycle).levels@.len() > 0 && cycle.next == (old(cycle).next + f) % (old(
                cycle,
            ).levels@.len() as int)) || (f == 0 && cycle.next == old(cycle).next),
        ensures
            forall|k: int|
                0 <= k < out@.len() && k < sprite_slots@.len() ==> obj_of((#[trigger] out@[k]).level_entry)
                    == order@[k % (order@.len() as int)] && old(cycle).levels@.contains(out@[k].level_entry),
            forall|k: int|
                0 <= k < out@.len() && k >= sprite_slots@.len() ==> (#[trigger] out@[k]).level_entry == old(
                    cycle,
                ).levels@[(old(cycle).next + (k - sprite_slots@.len())) % (old(cycle).levels@.len() as int)],
            (f > 0 && old(cycle).levels@.len() > 0 && cycle.next == (old(cycle).next + f) % (old(
                cycle,
            ).levels@.len() as int)) || (f == 0 && cycle.next == old(cycle).next),
            s0 == sprite_slots@.len() ==> out@.len() == s0 + f,
            s0 < sprite_slots@.len() ==> out@.len() == s0 && f == 0,
            s0 <= sprite_slots@.len(),
            out@.len() <= remaining,
            out@.len() == (if remaining < sprite_slots@.len() + filler_slots@.len() {
                remaining as int
            } else {
                (sprite_slots@.len() + filler_slots@.len()) as int
            }),
            forall|k: int| 0 <= k < out@.len() ==> (#[trigger] out@[k]).pos == (sprite_slots@ + filler_slots@)[k],
            forall|k: int| 0 <= k < out@.len() ==> hb_slot_at(b.slots@, (#[trigger] out@[k]).pos),
            cycle.wf(),
            cycle.levels@ == old(cycle).levels@,
        decreases filler_slots@.len() - f,
    {
        if out.len() >= remaining {
            break;
        }
        let ghost nx = cycle.next as int;
        let le = cycle.next_level();
        proof {
            let n = old(cycle).levels@.len() as int;
            let n0 = old(cycle).next as int;
            if f > 0 {
                assert(nx == (n0 + f) % n);
                vstd::arithmetic::div_mod::lemma_add_mod_noop(n0 + f, 1, n);
                if n == 1 {
                    assert((n0 + f + 1) % n == 0) by (nonlinear_arith)
                        requires
                            n == 1,
                    ;
                    assert((nx + 1) % n == 0) by (nonlinear_arith)
                        requires
                            n == 1,
                    ;
                } else {
                    assert(1int % n == 1) by (nonlinear_arith)
                        requires
                            n > 1,
                    ;
                    assert(nx % n == nx) by (nonlinear_arith)
                        requires
                            0 <= nx < n,
                    ;
                }
                assert((nx + 1) % n == (n0 + f + 1) % n);
            } else {
                assert(nx == n0);
                assert(n > 0);
                assert(n0 < n);
                assert((n0 + 0) % n == n0) by (nonlinear_arith)
                    requires
                        0 <= n0 < n,
                ;
            }
            assert(nx == (n0 + f) % n);
            assert(out@.len() == sprite_slots@.len() + f);
        }
        out.push(HammerBroAssignment { pos: filler_slots[f], level_entry: le });
        f = f + 1;
    }
    proof {
        if s0 == sprite_slots@.len() {
            assert(out@.len() - sprite_slots@.len() == f);
        }
    }
    out
}

proof fn lemma_slots_where_len(slots: Seq<SlotAssignment>, kind: SlotKind, troll: Option<bool>, k: int)
    requires
        0 <= k <= slots.len(),
    ensures
        slots_where(slots, kind, troll, k).len() <= k,
    decreases k,
{
    if k > 0 {
        lemma_slots_where_len(slots, kind, troll, k - 1);
    }
}

/// Troll and plain level slots together are no more than all slots.
proof fn lemma_slots_where_split(slots: Seq<SlotAssignment>, k: int)
    requires
        0 <= k <= slots.len(),
    ensures
        slots_where(slots, SlotKind::Level, Some(true), k).len() + slots_where(
            slots,
            SlotKind::Level,
            Some(false),
            k,
        ).len() <= k,
    decreases k,
{
    if k > 0 {
        lemma_slots_where_split(slots, k - 1);
    }
}

/// The pool indices of a list of assignments.
pub open spec fn idxs(v: Seq<Assignment>) -> Seq<usize> {
    v.map_values(|a: Assignment| a.pool_idx)
}

/// The pool indices of pipe pairs, A then B for each pair.
pub open spec fn pipe_idxs(p: Seq<PipeAssignment>) -> Seq<usize> {
    Seq::new(2 * p.len(), |i: int| if i % 2 == 0 { p[i / 2].pool_idx_a } else { p[i / 2].pool_idx_b })
}

/// The pool index of an optional assignment.
pub open spec fn opt_idx(a: Option<Assignment>) -> Seq<usize> {
    match a {
        Some(x) => seq![x.pool_idx],
        None => Seq::empty(),
    }
}

/// Every pool index one world's assignments use.
pub open spec fn world_used(wa: WorldAssignments) -> Seq<usize> {
    idxs(wa.fortress@) + idxs(wa.level@) + pipe_idxs(wa.pipes@) + opt_idx(wa.airship) + opt_idx(wa.bowser)
        + idxs(wa.bonus@) + idxs(wa.toad@)
}

/// Every pool index the first `n` worlds' assignments use.
pub open spec fn all_used(r: Seq<WorldAssignments>, n: int) -> Seq<usize>
    decreases n,
{
    if n <= 0 {
        Seq::empty()
    } else {
        all_used(r, n - 1) + world_used(r[n - 1])
    }
}

/// A rank per node kind, so that nodes of different kinds compare apart.
pub open spec fn rank(k: NodeKind) -> int {
    match k {
        NodeKind::Fortress => 0,
        NodeKind::Level => 1,
        NodeKind::Pipe { .. } => 2,
        NodeKind::Airship => 3,
        NodeKind::Bowser => 4,
        NodeKind::BonusGame => 5,
        NodeKind::ToadHouse => 6,
        _ => 7,
    }
}

/// The rank of pool index `x`'s node.
pub open spec fn rank_at(pool: Seq<PoolEntry>, catalog: Seq<CatalogEntry>, x: usize) -> int {
    rank(entry_of(pool, catalog, x as int).kind)
}

/// Joining a run of lower-ranked indices without repeats to a run of one
/// rank without repeats gives a run without repeats.
proof fn lemma_join_ranked(pool: Seq<PoolEntry>, catalog: Seq<CatalogEntry>, a: Seq<usize>, b: Seq<usize>, r: int)
    requires
        a.no_duplicates(),
        b.no_duplicates(),
        forall|i: int| 0 <= i < a.len() ==> rank_at(pool, catalog, #[trigger] a[i]) < r,
        forall|i: int| 0 <= i < b.len() ==> rank_at(pool, catalog, #[trigger] b[i]) == r,
    ensures
        (a + b).no_duplicates(),
        forall|i: int| 0 <= i < (a + b).len() ==> rank_at(pool, catalog, #[trigger] (a + b)[i]) <= r,
{
    assert forall|i: int, j: int| 0 <= i < a.len() && 0 <= j < b.len() implies a[i] != b[j] by {
        assert(rank_at(pool, catalog, a[i]) < r);
        assert(rank_at(pool, catalog, b[j]) == r);
    }
    vstd::seq_lib::lemma_no_dup_in_concat(a, b);
    assert forall|i: int| 0 <= i < (a + b).len() implies rank_at(pool, catalog, #[trigger] (a + b)[i]) <= r by {
        if i < a.len() {
            assert((a + b)[i] == a[i]);
        } else {
            assert((a + b)[i] == b[i - a.len()]);
        }
    }
}

proof fn lemma_idxs_nodup(v: Seq<Assignment>)
    requires
        forall|i: int, j: int| 0 <= i < j < v.len() ==> v[i].pool_idx != v[j].pool_idx,
    ensures
        idxs(v).no_duplicates(),
{
    assert forall|i: int, j: int| 0 <= i < idxs(v).len() && 0 <= j < idxs(v).len() && i != j implies idxs(v)[i]
        != idxs(v)[j] by {
        if i < j {
            assert(v[i].pool_idx != v[j].pool_idx);
        } else {
            assert(v[j].pool_idx != v[i].pool_idx);
        }
    }
}

/// A world's assignments use no pool index twice, given each kind's
/// assignments use none twice.
proof fn lemma_world_used_nodup(wa: WorldAssignments, pool: Seq<PoolEntry>, catalog: Seq<CatalogEntry>)
    requires
        forall|k: int| 0 <= k < wa.fortress@.len() ==> rank_at(pool, catalog, (#[trigger] wa.fortress@[k]).pool_idx) == 0,
        forall|i: int, j: int| 0 <= i < j < wa.fortress@.len() ==> wa.fortress@[i].pool_idx != wa.fortress@[j].pool_idx,
        forall|k: int| 0 <= k < wa.level@.len() ==> rank_at(pool, catalog, (#[trigger] wa.level@[k]).pool_idx) == 1,
        forall|i: int, j: int| 0 <= i < j < wa.level@.len() ==> wa.level@[i].pool_idx != wa.level@[j].pool_idx,
        forall|k: int|
            0 <= k < wa.pipes@.len() ==> {
                let pa = #[trigger] wa.pipes@[k];
                &&& pa.pool_idx_a < pool.len() && pa.pool_idx_b < pool.len()
                &&& pa.pool_idx_a != pa.pool_idx_b
                &&& entry_of(pool, catalog, pa.pool_idx_a as int).kind is Pipe
                &&& entry_of(pool, catalog, pa.pool_idx_a as int).kind->dest_idx == pa.dest_idx
                &&& entry_of(pool, catalog, pa.pool_idx_b as int).kind is Pipe
                &&& entry_of(pool, catalog, pa.pool_idx_b as int).kind->dest_idx == pa.dest_idx
            },
        forall|i: int, j: int| 0 <= i < j < wa.pipes@.len() ==> wa.pipes@[i].dest_idx != wa.pipes@[j].dest_idx,
        wa.airship is Some ==> rank_at(pool, catalog, wa.airship->0.pool_idx) == 3,
        wa.bowser is Some ==> rank_at(pool, catalog, wa.bowser->0.pool_idx) == 4,
        forall|k: int| 0 <= k < wa.bonus@.len() ==> rank_at(pool, catalog, (#[trigger] wa.bonus@[k]).pool_idx) == 5,
        forall|i: int, j: int| 0 <= i < j < wa.bonus@.len() ==> wa.bonus@[i].pool_idx != wa.bonus@[j].pool_idx,
        forall|k: int| 0 <= k < wa.toad@.len() ==> rank_at(pool, catalog, (#[trigger] wa.toad@[k]).pool_idx) == 6,
        forall|i: int, j: int| 0 <= i < j < wa.toad@.len() ==> wa.toad@[i].pool_idx != wa.toad@[j].pool_idx,
    ensures
        world_used(wa).no_duplicates(),
        forall|i: int| 0 <= i < world_used(wa).len() ==> rank_at(pool, catalog, #[trigger] world_used(wa)[i]) <= 6,
{
    let f = idxs(wa.fortress@);
    let l = idxs(wa.level@);
    let p = pipe_idxs(wa.pipes@);
    let a = opt_idx(wa.airship);
    let bw = opt_idx(wa.bowser);
    let bn = idxs(wa.bonus@);
    let t = idxs(wa.toad@);
    lemma_idxs_nodup(wa.fortress@);
    lemma_idxs_nodup(wa.level@);
    lemma_idxs_nodup(wa.bonus@);
    lemma_idxs_nodup(wa.toad@);
    assert forall|i: int| 0 <= i < f.len() implies rank_at(pool, catalog, #[trigger] f[i]) < 1 by {
        assert(rank_at(pool, catalog, wa.fortress@[i].pool_idx) == 0);
    }
    assert forall|i: int| 0 <= i < l.len() implies rank_at(pool, catalog, #[trigger] l[i]) == 1 by {
        assert(rank_at(pool, catalog, wa.level@[i].pool_idx) == 1);
    }
    lemma_join_ranked(pool, catalog, f, l, 1);
    assert forall|i: int| 0 <= i < p.len() implies rank_at(pool, catalog, #[trigger] p[i]) == 2 by {
        let pa = wa.pipes@[i / 2];
        assert(wa.pipes@[i / 2] == pa);
    }
    assert(p.no_duplicates()) by {
        assert forall|i: int, j: int| 0 <= i < p.len() && 0 <= j < p.len() && i != j implies p[i] != p[j] by {
            let pi_ = wa.pipes@[i / 2];
            let pj = wa.pipes@[j / 2];
            if i / 2 == j / 2 {
                assert(pi_.pool_idx_a != pi_.pool_idx_b);
            } else {
                if i / 2 < j / 2 {
                    assert(pi_.dest_idx != pj.dest_idx);
                } else {
                    assert(pj.dest_idx != pi_.dest_idx);
                }
                if p[i] == p[j] {
                    assert(entry_of(pool, catalog, p[i] as int).kind->dest_idx == pi_.dest_idx);
                    assert(entry_of(pool, catalog, p[j] as int).kind->dest_idx == pj.dest_idx);
                }
            }
        }
    }
    lemma_join_ranked(pool, catalog, f + l, p, 2);
    assert forall|i: int| 0 <= i < a.len() implies rank_at(pool, catalog, #[trigger] a[i]) == 3 by {}
    lemma_join_ranked(pool, catalog, f + l + p, a, 3);
    assert forall|i: int| 0 <= i < bw.len() implies rank_at(pool, catalog, #[trigger] bw[i]) == 4 by {}
    lemma_join_ranked(pool, catalog, f + l + p + a, bw, 4);
    assert forall|i: int| 0 <= i < bn.len() implies rank_at(pool, catalog, #[trigger] bn[i]) == 5 by {
        assert(rank_at(pool, catalog, wa.bonus@[i].pool_idx) == 5);
    }
    lemma_join_ranked(pool, catalog, f + l + p + a + bw, bn, 5);
    assert forall|i: int| 0 <= i < t.len() implies rank_at(pool, catalog, #[trigger] t[i]) == 6 by {
        assert(rank_at(pool, catalog, wa.toad@[i].pool_idx) == 6);
    }
    lemma_join_ranked(pool, catalog, f + l + p + a + bw + bn, t, 6);
}

/// Where an index of a world's used list comes from.
proof fn lemma_world_used_member(wa: WorldAssignments, i: int)
    requires
        0 <= i < world_used(wa).len(),
    ensures
        ({
            let y = world_used(wa)[i];
            ||| exists|k: int| 0 <= k < wa.fortress@.len() && y == (#[trigger] wa.fortress@[k]).pool_idx
            ||| exists|k: int| 0 <= k < wa.level@.len() && y == (#[trigger] wa.level@[k]).pool_idx
            ||| exists|k: int|
                0 <= k < wa.pipes@.len() && (y == (#[trigger] wa.pipes@[k]).pool_idx_a || y == wa.pipes@[k].pool_idx_b)
            ||| (wa.airship is Some && y == wa.airship->0.pool_idx)
            ||| (wa.bowser is Some && y == wa.bowser->0.pool_idx)
            ||| exists|k: int| 0 <= k < wa.bonus@.len() && y == (#[trigger] wa.bonus@[k]).pool_idx
            ||| exists|k: int| 0 <= k < wa.toad@.len() && y == (#[trigger] wa.toad@[k]).pool_idx
        }),
{
    let f = idxs(wa.fortress@);
    let l = idxs(wa.level@);
    let p = pipe_idxs(wa.pipes@);
    let a = opt_idx(wa.airship);
    let bw = opt_idx(wa.bowser);
    let bn = idxs(wa.bonus@);
    let t = idxs(wa.toad@);
    let w = world_used(wa);
    let x1 = f + l;
    let x2 = x1 + p;
    let x3 = x2 + a;
    let x4 = x3 + bw;
    let x5 = x4 + bn;
    assert(w == x5 + t);
    if i < x5.len() {
        assert(w[i] == x5[i]);
        if i < x4.len() {
            assert(x5[i] == x4[i]);
            if i < x3.len() {
                assert(x4[i] == x3[i]);
                if i < x2.len() {
                    assert(x3[i] == x2[i]);
                    if i < x1.len() {
                        assert(x2[i] == x1[i]);
                        if i < f.len() {
                            assert(x1[i] == f[i]);
                            assert(f[i] == wa.fortress@[i].pool_idx);
                        } else {
                            assert(x1[i] == l[i - f.len()]);
                            assert(l[i - f.len()] == wa.level@[i - f.len()].pool_idx);
                        }
                    } else {
                        let j = i - x1.len();
                        assert(x2[i] == p[j]);
                        assert(wa.pipes@[j / 2] == wa.pipes@[j / 2]);
                    }
                } else {
                    assert(x3[i] == a[i - x2.len()]);
                }
            } else {
                assert(x4[i] == bw[i - x3.len()]);
            }
        } else {
            assert(x5[i] == bn[i - x4.len()]);
            assert(bn[i - x4.len()] == wa.bonus@[i - x4.len()].pool_idx);
        }
    } else {
        assert(w[i] == t[i - x5.len()]);
        assert(t[i - x5.len()] == wa.toad@[i - x5.len()].pool_idx);
    }
}

/// Pool index `x`, used before world `wi`, is out of every deck the deal
/// still draws from.
pub open spec fn fresh(
    pool: Seq<PoolEntry>,
    catalog: Seq<CatalogEntry>,
    x: usize,
    cross: bool,
    wi: int,
    fdeck: Seq<usize>,
    fnext: int,
    ldeck: Seq<usize>,
    adeck: Seq<usize>,
    bdeck: Seq<usize>,
    bnext: int,
    tdeck: Seq<usize>,
    tnext: int,
    one_f: usize,
    pre_pending: bool,
) -> bool {
    let k = rank_at(pool, catalog, x);
    let origin = entry_of(pool, catalog, x as int).world_idx;
    &&& k == 0 ==> (cross ==> !fdeck.subrange(fnext, fdeck.len() as int).contains(x)) && (!cross ==> origin
        < wi) && (pre_pending ==> x != one_f)
    &&& k == 1 ==> (cross ==> !ldeck.contains(x)) && (!cross ==> origin < wi)
    &&& k == 2 ==> origin < wi
    &&& k == 3 ==> !adeck.contains(x)
    &&& k == 4 ==> wi > 7
    &&& k == 5 ==> !bdeck.subrange(bnext, bdeck.len() as int).contains(x)
    &&& k == 6 ==> !tdeck.subrange(tnext, tdeck.len() as int).contains(x)
}

proof fn lemma_all_used_push(r: Seq<WorldAssignments>, w: WorldAssignments, n: int)
    requires
        0 <= n <= r.len(),
    ensures
        all_used(r.push(w), n) == all_used(r, n),
    decreases n,
{
    if n > 0 {
        lemma_all_used_push(r, w, n - 1);
        assert(r.push(w)[n - 1] == r[n - 1]);
    }
}

proof fn lemma_subrange_shrink(s: Seq<usize>, a: int, b: int, c: int, y: usize)
    requires
        0 <= a <= b <= c <= s.len(),
        !s.subrange(a, c).contains(y),
    ensures
        !s.subrange(b, c).contains(y),
{
    if s.subrange(b, c).contains(y) {
        lemma_subrange_grow_left(s, a, b, c, y);
    }
}

/// An element at index `i` of a sequence without repeats is not in a
/// stretch that leaves `i` out.
proof fn lemma_nodup_outside(s: Seq<usize>, i: int, a: int, b: int)
    requires
        s.no_duplicates(),
        0 <= i < s.len(),
        0 <= a <= b <= s.len(),
        i < a || i >= b,
    ensures
        !s.subrange(a, b).contains(s[i]),
{
    if s.subrange(a, b).contains(s[i]) {
        let q = choose|q: int| 0 <= q < b - a && #[trigger] s.subrange(a, b)[q] == s[i];
        assert(s[a + q] == s[i]);
    }
}

/// One world's deal keeps the used indices apart and out of the decks.
proof fn lemma_deal_step(
    pool: Seq<PoolEntry>,
    catalog: Seq<CatalogEntry>,
    wa: WorldAssignments,
    old_used: Seq<usize>,
    cross: bool,
    wi: int,
    fdeck: Seq<usize>,
    fnext0: int,
    fnext1: int,
    ldeck0: Seq<usize>,
    ldeck1: Seq<usize>,
    adeck0: Seq<usize>,
    adeck1: Seq<usize>,
    bdeck: Seq<usize>,
    bnext0: int,
    bnext1: int,
    tdeck: Seq<usize>,
    tnext0: int,
    tnext1: int,
    one_f: usize,
    pre0: bool,
    pre0_world: int,
    pre1: bool,
)
    requires
        old_used.no_duplicates(),
        world_used(wa).no_duplicates(),
        forall|i: int|
            0 <= i < old_used.len() ==> fresh(
                pool,
                catalog,
                #[trigger] old_used[i],
                cross,
                wi,
                fdeck,
                fnext0,
                ldeck0,
                adeck0,
                bdeck,
                bnext0,
                tdeck,
                tnext0,
                one_f,
                pre0,
            ),
        0 <= wi < 8,
        fdeck.no_duplicates(),
        0 <= fnext0,
        cross ==> fnext0 <= fnext1 <= fdeck.len(),
        pre0 ==> !fdeck.contains(one_f),
        pre1 ==> pre0,
        forall|k: int|
            0 <= k < wa.fortress@.len() ==> {
                let y = (#[trigger] wa.fortress@[k]).pool_idx;
                &&& rank_at(pool, catalog, y) == 0
                &&& cross ==> fdeck.subrange(fnext0, fnext1).contains(y) || (pre0 && y == one_f && pre0_world
                    == wi)
                &&& !cross ==> entry_of(pool, catalog, y as int).world_idx == wi
                &&& pre1 ==> y != one_f
            },
        forall|k: int|
            0 <= k < wa.level@.len() ==> {
                let y = (#[trigger] wa.level@[k]).pool_idx;
                &&& rank_at(pool, catalog, y) == 1
                &&& cross ==> ldeck0.contains(y) && !ldeck1.contains(y)
                &&& !cross ==> entry_of(pool, catalog, y as int).world_idx == wi
            },
        forall|x: usize| ldeck1.contains(x) ==> ldeck0.contains(x),
        forall|k: int|
            0 <= k < wa.pipes@.len() ==> {
                let pa = #[trigger] wa.pipes@[k];
                &&& rank_at(pool, catalog, pa.pool_idx_a) == 2
                &&& rank_at(pool, catalog, pa.pool_idx_b) == 2
                &&& entry_of(pool, catalog, pa.pool_idx_a as int).world_idx == wi
                &&& entry_of(pool, catalog, pa.pool_idx_b as int).world_idx == wi
            },
        wa.airship is Some ==> {
            let y = wa.airship->0.pool_idx;
            &&& rank_at(pool, catalog, y) == 3
            &&& adeck0.contains(y)
            &&& !adeck1.contains(y)
        },
        forall|x: usize| adeck1.contains(x) ==> adeck0.contains(x),
        wa.bowser is Some ==> rank_at(pool, catalog, wa.bowser->0.pool_idx) == 4 && wi == 7,
        bdeck.no_duplicates(),
        0 <= bnext0 <= bnext1 <= bdeck.len(),
        forall|k: int|
            0 <= k < wa.bonus@.len() ==> rank_at(pool, catalog, (#[trigger] wa.bonus@[k]).pool_idx) == 5
                && bdeck.subrange(bnext0, bnext1).contains(wa.bonus@[k].pool_idx),
        tdeck.no_duplicates(),
        0 <= tnext0 <= tnext1 <= tdeck.len(),
        forall|k: int|
            0 <= k < wa.toad@.len() ==> rank_at(pool, catalog, (#[trigger] wa.toad@[k]).pool_idx) == 6
                && tdeck.subrange(tnext0, tnext1).contains(wa.toad@[k].pool_idx),
    ensures
        (old_used + world_used(wa)).no_duplicates(),
        forall|i: int|
            0 <= i < (old_used + world_used(wa)).len() ==> fresh(
                pool,
                catalog,
                #[trigger] (old_used + world_used(wa))[i],
                cross,
                wi + 1,
                fdeck,
                fnext1,
                ldeck1,
                adeck1,
                bdeck,
                bnext1,
                tdeck,
                tnext1,
                one_f,
                pre1,
            ),
{
    let w = world_used(wa);
    let fl = fdeck.len() as int;
    // Each new index is drawn from where the deal says.
    assert forall|j: int| 0 <= j < w.len() implies {
        let y = #[trigger] w[j];
        let k = rank_at(pool, catalog, y);
        let origin = entry_of(pool, catalog, y as int).world_idx;
        &&& k == 0 ==> (cross ==> fdeck.subrange(fnext0, fnext1).contains(y) || (pre0 && y == one_f && pre0_world
            == wi)) && (!cross ==> origin == wi) && (pre1 ==> y != one_f)
        &&& k == 1 ==> (cross ==> ldeck0.contains(y) && !ldeck1.contains(y)) && (!cross ==> origin == wi)
        &&& k == 2 ==> origin == wi
        &&& k == 3 ==> adeck0.contains(y) && !adeck1.contains(y)
        &&& k == 4 ==> wi == 7
        &&& k == 5 ==> bdeck.subrange(bnext0, bnext1).contains(y)
        &&& k == 6 ==> tdeck.subrange(tnext0, tnext1).contains(y)
    } by {
        lemma_world_used_member(wa, j);
        let y = w[j];
        if exists|k: int| 0 <= k < wa.fortress@.len() && y == (#[trigger] wa.fortress@[k]).pool_idx {
            let k = choose|k: int| 0 <= k < wa.fortress@.len() && y == (#[trigger] wa.fortress@[k]).pool_idx;
            assert(rank_at(pool, catalog, wa.fortress@[k].pool_idx) == 0);
        } else if exists|k: int| 0 <= k < wa.level@.len() && y == (#[trigger] wa.level@[k]).pool_idx {
            let k = choose|k: int| 0 <= k < wa.level@.len() && y == (#[trigger] wa.level@[k]).pool_idx;
            assert(rank_at(pool, catalog, wa.level@[k].pool_idx) == 1);
        } else if exists|k: int|
            0 <= k < wa.pipes@.len() && (y == (#[trigger] wa.pipes@[k]).pool_idx_a || y == wa.pipes@[k].pool_idx_b) {
            let k = choose|k: int|
                0 <= k < wa.pipes@.len() && (y == (#[trigger] wa.pipes@[k]).pool_idx_a || y == wa.pipes@[k].pool_idx_b);
            assert(rank_at(pool, catalog, wa.pipes@[k].pool_idx_a) == 2);
        } else if wa.airship is Some && y == wa.airship->0.pool_idx {
        } else if wa.bowser is Some && y == wa.bowser->0.pool_idx {
        } else if exists|k: int| 0 <= k < wa.bonus@.len() && y == (#[trigger] wa.bonus@[k]).pool_idx {
            let k = choose|k: int| 0 <= k < wa.bonus@.len() && y == (#[trigger] wa.bonus@[k]).pool_idx;
            assert(rank_at(pool, catalog, wa.bonus@[k].pool_idx) == 5);
        } else {
            let k = choose|k: int| 0 <= k < wa.toad@.len() && y == (#[trigger] wa.toad@[k]).pool_idx;
            assert(rank_at(pool, catalog, wa.toad@[k].pool_idx) == 6);
        }
    }
    assert forall|i: int, j: int| 0 <= i < old_used.len() && 0 <= j < w.len() implies old_used[i] != w[j] by {
        let x = old_used[i];
        let y = w[j];
        assert(fresh(pool, catalog, x, cross, wi, fdeck, fnext0, ldeck0, adeck0, bdeck, bnext0, tdeck, tnext0, one_f, pre0));
        if x == y {
            let k = rank_at(pool, catalog, y);
            if k == 0 && cross && fdeck.subrange(fnext0, fnext1).contains(y) {
                lemma_subrange_grow(fdeck, fnext0, fnext1, fl, y);
            }
            if k == 5 {
                lemma_subrange_grow(bdeck, bnext0, bnext1, bdeck.len() as int, y);
            }
            if k == 6 {
                lemma_subrange_grow(tdeck, tnext0, tnext1, tdeck.len() as int, y);
            }
        }
    }
    vstd::seq_lib::lemma_no_dup_in_concat(old_used, w);
    assert forall|i: int| 0 <= i < (old_used + w).len() implies fresh(
        pool,
        catalog,
        #[trigger] (old_used + w)[i],
        cross,
        wi + 1,
        fdeck,
        fnext1,
        ldeck1,
        adeck1,
        bdeck,
        bnext1,
        tdeck,
        tnext1,
        one_f,
        pre1,
    ) by {
        let x = (old_used + w)[i];
        let k = rank_at(pool, catalog, x);
        if i < old_used.len() {
            assert(x == old_used[i]);
            assert(fresh(pool, catalog, x, cross, wi, fdeck, fnext0, ldeck0, adeck0, bdeck, bnext0, tdeck, tnext0, one_f, pre0));
            if k == 0 && cross {
                lemma_subrange_shrink(fdeck, fnext0, fnext1, fl, x);
            }
            if k == 1 && cross && ldeck1.contains(x) {
                assert(ldeck0.contains(x));
            }
            if k == 3 && adeck1.contains(x) {
                assert(adeck0.contains(x));
            }
            if k == 5 {
                lemma_subrange_shrink(bdeck, bnext0, bnext1, bdeck.len() as int, x);
            }
            if k == 6 {
                lemma_subrange_shrink(tdeck, tnext0, tnext1, tdeck.len() as int, x);
            }
        } else {
            let j = i - old_used.len();
            assert(x == w[j]);
            if k == 0 && cross {
                if fdeck.subrange(fnext0, fnext1).contains(x) {
                    lemma_in_subrange(fdeck, fnext0, fnext1, x);
                    let q = choose|q: int| fnext0 <= q < fnext1 && fdeck[q] == x;
                    lemma_nodup_outside(fdeck, q, fnext1, fl);
                } else {
                    if fdeck.subrange(fnext1, fl).contains(x) {
                        lemma_in_subrange(fdeck, fnext1, fl, x);
                    }
                }
            }
            if k == 5 {
                lemma_in_subrange(bdeck, bnext0, bnext1, x);
                let q = choose|q: int| bnext0 <= q < bnext1 && bdeck[q] == x;
                lemma_nodup_outside(bdeck, q, bnext1, bdeck.len() as int);
            }
            if k == 6 {
                lemma_in_subrange(tdeck, tnext0, tnext1, x);
                let q = choose|q: int| tnext0 <= q < tnext1 && tdeck[q] == x;
                lemma_nodup_outside(tdeck, q, tnext1, tdeck.len() as int);
            }
        }
    }
}

/// Fortress slots needed by worlds `from` to 7.
pub open spec fn fort_need(builds: Seq<BuiltWorld>, from: int) -> int
    decreases 8 - from,
{
    if from >= 8 {
        0
    } else {
        fort_sections(builds[from]).len() + fort_need(builds, from + 1)
    }
}

/// Level slots needed by worlds `from` to 7.
pub open spec fn level_need(builds: Seq<BuiltWorld>, from: int) -> int
    decreases 8 - from,
{
    if from >= 8 {
        0
    } else {
        level_slot_order(builds[from].slots@).len() + level_need(builds, from + 1)
    }
}

/// Pool entry `pi` is the 1-F fortress with the lowest pool index.
pub open spec fn lowest_1f(pool: Seq<PoolEntry>, catalog: Seq<CatalogEntry>, pi: int, obj: u16) -> bool {
    &&& 0 <= pi < pool.len()
    &&& is_1f(pool, catalog, pi, obj)
    &&& forall|j: int| 0 <= j < pi ==> !is_1f(pool, catalog, j, obj)
}

/// Some world the 1-F fortress may go to (its own, or any when fortresses
/// cross worlds) has a lock that may stay shut.
pub open spec fn safe_slot_exists(builds: Seq<BuiltWorld>, origin: int, cross: bool) -> bool {
    exists|w: int, i: int|
        0 <= w < 8 && (cross || w == origin) && 0 <= i < builds[w].locks@.len()
            && (#[trigger] builds[w].locks@[i]).secret_exit_safe
}

/// What the deal needs of its inputs: eight worlds; a valid pool with a 1-F
/// fortress; locks that name fortress sections with a slot; enough
/// fortresses and levels for the slots (in all, or per world when they stay
/// in their worlds); and Hammer Bro levels when any world has a Hammer Bro
/// slot.
pub open spec fn deal_ok(
    pool: Seq<PoolEntry>,
    catalog: Seq<CatalogEntry>,
    builds: Seq<BuiltWorld>,
    cleared: Seq<ClearedWorld>,
    tables: DealTables,
    flags: WriteFlags,
) -> bool {
    let fdeck = deck_of(pool, catalog, Deck::Fortress);
    let ldeck = deck_of(pool, catalog, Deck::Level);
    &&& builds.len() == 8
    &&& cleared.len() == 8
    &&& !flags.shuffle_hammer_bros ==> tables.vanilla_hb_sprites@.len() == 8
    &&& pool_valid(pool, catalog)
    &&& pool.len() < usize::MAX
    &&& exists|pi: int| 0 <= pi < pool.len() && #[trigger] is_1f(pool, catalog, pi, tables.fort_1f_obj)
    &&& forall|w: int, i: int|
        0 <= w < 8 && 0 <= i < builds[w].locks@.len() && (#[trigger] builds[w].locks@[i]).secret_exit_safe
            ==> builds[w].locks@[i].fort_section < builds[w].section_count && has_fort_slot(
            builds[w].slots@,
            builds[w].locks@[i].fort_section as int,
        )
    &&& flags.cross_world ==> fort_need(builds, 0) <= fdeck.len() && level_need(builds, 0) <= ldeck.len()
    &&& !flags.cross_world ==> forall|w: int|
        0 <= w < 8 ==> fort_sections(#[trigger] builds[w]).len() <= from_world(pool, catalog, fdeck, w).len()
            && level_slot_order(builds[w].slots@).len() <= from_world(pool, catalog, ldeck, w).len()
    &&& (exists|w: int| 0 <= w < 8 && has_hb_slot(#[trigger] builds[w].slots@)) ==> tables.hb_levels@.len() > 0
    &&& forall|w: int|
        0 <= w < 8 ==> (#[trigger] builds[w]).section_count + 3 * builds[w].slots@.len() + 2
            * builds[w].pipe_pairs@.len() <= usize::MAX
}

/// Copy a list of cells.
fn copy_cells(v: &Vec<Cell>) -> (r: Vec<Cell>)
    ensures
        r@ == v@,
{
    let mut r: Vec<Cell> = Vec::new();
    let mut i: usize = 0;
    while i < v.len()
        invariant
            i <= v@.len(),
            r@ == v@.take(i as int),
        decreases v@.len() - i,
    {
        r.push(v[i]);
        i = i + 1;
        assert(r@ =~= v@.take(i as int));
    }
    assert(v@.take(v@.len() as int) =~= v@);
    r
}

/// Copy a list of levels.
fn copy_levels(v: &Vec<PointerEntry>) -> (r: Vec<PointerEntry>)
    ensures
        r@ == v@,
{
    let mut r: Vec<PointerEntry> = Vec::new();
    let mut i: usize = 0;
    while i < v.len()
        invariant
            i <= v@.len(),
            r@ == v@.take(i as int),
        decreases v@.len() - i,
    {
        r.push(v[i]);
        i = i + 1;
        assert(r@ =~= v@.take(i as int));
    }
    assert(v@.take(v@.len() as int) =~= v@);
    r
}

/// The first 1-F fortress of the fortress deck.
fn find_1f(pool: &Vec<PoolEntry>, catalog: &Vec<CatalogEntry>, deck: &Vec<usize>, obj: u16) -> (p: usize)
    requires
        pool_valid(pool@, catalog@),
        pool@.len() <= usize::MAX,
        deck@ == deck_of(pool@, catalog@, Deck::Fortress),
        exists|pi: int| 0 <= pi < pool@.len() && #[trigger] is_1f(pool@, catalog@, pi, obj),
    ensures
        p < deck@.len(),
        lowest_1f(pool@, catalog@, deck@[p as int] as int, obj),
{
    proof {
        lemma_deck_upto(pool@, catalog@, Deck::Fortress, pool@.len() as int);
    }
    let mut p: usize = 0;
    while p < deck.len()
        invariant
            p <= deck@.len(),
            pool_valid(pool@, catalog@),
            pool@.len() <= usize::MAX,
            deck@ == deck_of(pool@, catalog@, Deck::Fortress),
            forall|i: int| 0 <= i < p ==> !is_1f(pool@, catalog@, #[trigger] deck@[i] as int, obj),
        decreases deck@.len() - p,
    {
        proof {
            lemma_deck_upto(pool@, catalog@, Deck::Fortress, pool@.len() as int);
        }
        let pi = deck[p];
        let e = catalog[pool[pi].catalog_idx];
        let hit = match e.level_entry {
            Some(le) => matches!(e.kind, NodeKind::Fortress) && crate::overworld_writer::assign::obj_ptr(&le) == obj,
            None => false,
        };
        if hit {
            proof {
                assert forall|j: int| 0 <= j < pi implies !is_1f(pool@, catalog@, j, obj) by {
                    if is_1f(pool@, catalog@, j, obj) {
                        assert(in_deck(entry_of(pool@, catalog@, j).kind, Deck::Fortress));
                        assert(deck@.contains(j as usize));
                        let i = choose|i: int| 0 <= i < deck@.len() && deck@[i] == j as usize;
                        if i >= p {
                            if i > p {
                                assert(deck@[p as int] < deck@[i]);
                            }
                        }
                    }
                }
            }
            return p;
        }
        p = p + 1;
    }
    proof {
        let pi = choose|pi: int| 0 <= pi < pool@.len() && #[trigger] is_1f(pool@, catalog@, pi, obj);
        assert(in_deck(entry_of(pool@, catalog@, pi).kind, Deck::Fortress));
        assert(deck@.contains(pi as usize));
    }
    0
}

proof fn lemma_fort_need(builds: Seq<BuiltWorld>, from: int, w: int)
    requires
        0 <= from <= w < 8,
    ensures
        fort_need(builds, from) >= fort_sections(builds[w]).len() + fort_need(builds, w + 1),
        fort_need(builds, w + 1) >= 0,
    decreases w - from,
{
    lemma_fort_need_nonneg(builds, w + 1);
    if from < w {
        lemma_fort_need(builds, from + 1, w);
    }
}

proof fn lemma_fort_need_nonneg(builds: Seq<BuiltWorld>, from: int)
    ensures
        fort_need(builds, from) >= 0,
    decreases 8 - from,
{
    if from < 8 {
        lemma_fort_need_nonneg(builds, from + 1);
    }
}

proof fn lemma_level_need_nonneg(builds: Seq<BuiltWorld>, from: int)
    ensures
        level_need(builds, from) >= 0,
    decreases 8 - from,
{
    if from < 8 {
        lemma_level_need_nonneg(builds, from + 1);
    }
}

/// The Bowser entry of the pool (the last one, should there be several).
fn find_bowser(pool: &Vec<PoolEntry>, catalog: &Vec<CatalogEntry>) -> (r: Option<usize>)
    requires
        pool_valid(pool@, catalog@),
    ensures
        r is Some ==> r->0 < pool@.len() && entry_of(pool@, catalog@, r->0 as int).kind is Bowser,
        r is None ==> !has_bowser(pool@, catalog@),
{
    let mut r: Option<usize> = None;
    let mut k: usize = 0;
    while k < pool.len()
        invariant
            k <= pool@.len(),
            pool_valid(pool@, catalog@),
            r is Some ==> r->0 < pool@.len() && entry_of(pool@, catalog@, r->0 as int).kind is Bowser,
            r is None ==> forall|j: int| 0 <= j < k ==> !(entry_of(pool@, catalog@, j).kind is Bowser),
        decreases pool@.len() - k,
    {
        if matches!(catalog[pool[k].catalog_idx].kind, NodeKind::Bowser) {
            r = Some(k);
        }
        k = k + 1;
    }
    r
}

/// The `(world, section)` slots the 1-F fortress may take: those whose
/// lock may stay shut, in worlds it may go to.
fn safe_slots(builds: &Vec<BuiltWorld>, origin: usize, cross: bool) -> (v: Vec<(usize, usize)>)
    requires
        builds@.len() == 8,
    ensures
        forall|i: int|
            0 <= i < v@.len() ==> {
                let (w, sec) = #[trigger] v@[i];
                &&& w < 8
                &&& (cross || w == origin)
                &&& safe_section(builds@[w as int].locks@, sec as int)
            },
        safe_slot_exists(builds@, origin as int, cross) ==> v@.len() > 0,
{
    let mut v: Vec<(usize, usize)> = Vec::new();
    let mut w: usize = 0;
    while w < 8
        invariant
            w <= 8,
            builds@.len() == 8,
            forall|i: int|
                0 <= i < v@.len() ==> {
                    let (x, sec) = #[trigger] v@[i];
                    &&& x < 8
                    &&& (cross || x == origin)
                    &&& safe_section(builds@[x as int].locks@, sec as int)
                },
            (exists|x: int, i: int|
                0 <= x < w && (cross || x == origin) && 0 <= i < builds@[x].locks@.len()
                    && (#[trigger] builds@[x].locks@[i]).secret_exit_safe) ==> v@.len() > 0,
        decreases 8 - w,
    {
        if cross || w == origin {
            let locks = &builds[w].locks;
            let mut i: usize = 0;
            while i < locks.len()
                invariant
                    i <= locks@.len(),
                    w < 8,
                    builds@.len() == 8,
                    locks@ == builds@[w as int].locks@,
                    cross || w == origin,
                    forall|j: int|
                        0 <= j < v@.len() ==> {
                            let (x, sec) = #[trigger] v@[j];
                            &&& x < 8
                            &&& (cross || x == origin)
                            &&& safe_section(builds@[x as int].locks@, sec as int)
                        },
                    (exists|x: int, j: int|
                        0 <= x < w && (cross || x == origin) && 0 <= j < builds@[x].locks@.len()
                            && (#[trigger] builds@[x].locks@[j]).secret_exit_safe) ==> v@.len() > 0,
                    (exists|j: int| 0 <= j < i && (#[trigger] locks@[j]).secret_exit_safe) ==> v@.len() > 0,
                decreases locks@.len() - i,
            {
                let l = locks[i];
                if l.secret_exit_safe {
                    proof {
                        assert(locks@[i as int] == l);
                    }
                    v.push((w, l.fort_section));
                }
                i = i + 1;
            }
        }
        w = w + 1;
    }
    v
}

/// Deal the pickup pool onto every world's slots (see the module notes).
/// The decks are shuffled; which card lands where rests on the draws, and
/// what holds of every deal is stated here: each slot gets a node of its
/// kind (from its own world when nodes stay in their worlds), troll pipes
/// front only levels they may front, and the 1-F fortress lands on a slot
/// whose lock may stay shut whenever such a slot exists.
#[verifier::rlimit(100)]
#[verifier::spinoff_prover]
pub fn assign_pool(
    pool: &Vec<PoolEntry>,
    catalog: &Vec<CatalogEntry>,
    builds: &Vec<BuiltWorld>,
    cleared: &Vec<ClearedWorld>,
    tables: &DealTables,
    flags: WriteFlags,
    rng: &mut ChaCha8Rng,
) -> (r: Vec<WorldAssignments>)
    requires
        deal_ok(pool@, catalog@, builds@, cleared@, *tables, flags),
    ensures
        r@.len() == 8,
        forall|wi: int|
            0 <= wi < 8 ==> world_dealt(
                #[trigger] r@[wi],
                builds@[wi],
                pool@,
                catalog@,
                wi,
                flags,
                troll_barred(*tables),
            ),
        forall|wi: int| 0 <= wi < 8 ==> (#[trigger] r@[wi]).hammer_bro@.len() <= cleared@[wi].pool_indices@.len(),
        forall|wi: int, k: int|
            0 <= wi < 8 && 0 <= k < r@[wi].fortress@.len() && lowest_1f(
                pool@,
                catalog@,
                (#[trigger] r@[wi].fortress@[k]).pool_idx as int,
                tables.fort_1f_obj,
            ) && safe_slot_exists(
                builds@,
                entry_of(pool@, catalog@, r@[wi].fortress@[k].pool_idx as int).world_idx as int,
                flags.cross_world,
            ) ==> safe_section(builds@[wi].locks@, fort_sections(builds@[wi])[k] as int),
        forall|pi: int|
            #[trigger] lowest_1f(pool@, catalog@, pi, tables.fort_1f_obj) && safe_slot_exists(
                builds@,
                entry_of(pool@, catalog@, pi).world_idx as int,
                flags.cross_world,
            ) ==> exists|w: int, k: int|
                0 <= w < 8 && 0 <= k < r@[w].fortress@.len() && (#[trigger] r@[w].fortress@[k]).pool_idx == pi
                    && safe_section(builds@[w].locks@, fort_sections(builds@[w])[k] as int),
        forall|wi: int|
            0 <= wi < 8 ==> world_filled(#[trigger] r@[wi], builds@, pool@, catalog@, cleared@, *tables, flags, wi),
        exists|order: Seq<u16>, cyc: Seq<PointerEntry>|
            #[trigger] hb_pools(tables.hb_levels@, order, cyc) && forall|wi: int|
                0 <= wi < 8 ==> hb_levels_dealt(
                    #[trigger] r@[wi],
                    sprite_count(builds@[wi], *tables, flags, wi),
                    order,
                    cyc,
                    fill_before(r@, builds@, *tables, flags, wi),
                ),
        all_used(r@, 8).no_duplicates(),
{
    let cross = flags.cross_world;
    let mut barred: Vec<(usize, usize)> = Vec::new();
    let mut q: usize = 0;
    while q < tables.chest_levels.len()
        invariant
            q <= tables.chest_levels@.len(),
            barred@ == tables.chest_levels@.take(q as int),
        decreases tables.chest_levels@.len() - q,
    {
        barred.push(tables.chest_levels[q]);
        q = q + 1;
        assert(barred@ =~= tables.chest_levels@.take(q as int));
    }
    assert(tables.chest_levels@.take(tables.chest_levels@.len() as int) =~= tables.chest_levels@);
    q = 0;
    while q < tables.hand_levels.len()
        invariant
            q <= tables.hand_levels@.len(),
            barred@ == tables.chest_levels@ + tables.hand_levels@.take(q as int),
        decreases tables.hand_levels@.len() - q,
    {
        barred.push(tables.hand_levels[q]);
        q = q + 1;
        assert(barred@ =~= tables.chest_levels@ + tables.hand_levels@.take(q as int));
    }
    assert(tables.hand_levels@.take(tables.hand_levels@.len() as int) =~= tables.hand_levels@);
    assert(barred@ == troll_barred(*tables));
    proof {
        lemma_deck_upto(pool@, catalog@, Deck::Fortress, pool@.len() as int);
        lemma_deck_upto(pool@, catalog@, Deck::Level, pool@.len() as int);
        lemma_deck_upto(pool@, catalog@, Deck::Airship, pool@.len() as int);
        lemma_deck_upto(pool@, catalog@, Deck::Bonus, pool@.len() as int);
        lemma_deck_upto(pool@, catalog@, Deck::Toad, pool@.len() as int);
    }
    let mut fdeck = build_deck(pool, catalog, Deck::Fortress);
    let mut ldeck = build_deck(pool, catalog, Deck::Level);
    let mut adeck = build_deck(pool, catalog, Deck::Airship);
    let mut bdeck = build_deck(pool, catalog, Deck::Bonus);
    let mut tdeck = build_deck(pool, catalog, Deck::Toad);
    let bowser_idx = find_bowser(pool, catalog);

    let ghost b0 = bdeck@;
    shuffle_in_place(&mut bdeck, rng);
    proof {
        lemma_perm_all_of(b0, bdeck@, |pi: usize| pi < pool@.len() && in_deck(entry_of(pool@, catalog@, pi as int).kind, Deck::Bonus));
    }

    // The cycling Hammer Bro levels, and their enemy-set groups for the
    // sprite encounters.
    let hb_levels = interleave_hb_by_obj_ptr(copy_levels(&tables.hb_levels), rng);
    let keys = crate::overworld_writer::assign::distinct_keys(&hb_levels);
    let mut order: Vec<u16> = Vec::new();
    let mut c: usize = 0;
    while c < keys.len()
        invariant
            c <= keys@.len(),
            order@ == keys@.take(c as int),
        decreases keys@.len() - c,
    {
        order.push(keys[c]);
        c = c + 1;
        assert(order@ =~= keys@.take(c as int));
    }
    assert(keys@.take(keys@.len() as int) =~= keys@);
    let ghost order0 = order@;
    shuffle_in_place(&mut order, rng);
    let groups = crate::overworld_writer::assign::shuffled_groups(&hb_levels, &keys, rng);
    proof {
        broadcast use vstd::seq_lib::group_to_multiset_ensures;
        assert forall|k: u16| #[trigger] order@.contains(k) implies keys@.contains(k) by {
            assert(order@.to_multiset().count(k) > 0);
        }
        assert forall|q: int| 0 <= q < groups@.len() implies (#[trigger] groups@[q])@.len() > 0 by {
            assert(keys@.contains(keys@[q]));
            let j = choose|j: int|
                0 <= j < hb_levels@.len() && crate::overworld_writer::assign::obj_of(hb_levels@[j]) == keys@[q];
            crate::overworld_writer::assign::lemma_key_group_nonempty(hb_levels@, keys@[q], j);
            vstd::seq_lib::to_multiset_len(groups@[q]@);
            vstd::seq_lib::to_multiset_len(crate::overworld_writer::assign::key_group(hb_levels@, keys@[q]));
        }
        assert forall|q: int, j: int|
            0 <= q < groups@.len() && 0 <= j < groups@[q]@.len() implies obj_of(#[trigger] groups@[q]@[j]) == keys@[q]
                && hb_levels@.contains(groups@[q]@[j]) by {
            let x = groups@[q]@[j];
            assert(groups@[q]@.to_multiset().count(x) > 0);
            assert(crate::overworld_writer::assign::key_group(hb_levels@, keys@[q]).to_multiset().count(x) > 0);
            crate::overworld_writer::assign::lemma_key_group_members(hb_levels@, keys@[q]);
        }
        assert(keys@.no_duplicates()) by {
            assert forall|i: int, j: int| 0 <= i < keys@.len() && 0 <= j < keys@.len() && i != j implies keys@[i]
                != keys@[j] by {
                if i < j {
                    assert(keys@[i] < keys@[j]);
                } else {
                    assert(keys@[j] < keys@[i]);
                }
            }
        }
        lemma_perm_nodup(order0, order@);
        assert forall|k: u16| #[trigger] order@.contains(k) <==> exists|j: int|
            0 <= j < hb_levels@.len() && obj_of(hb_levels@[j]) == k by {
            if order@.contains(k) {
                assert(order@.to_multiset().count(k) > 0);
                assert(keys@.contains(k));
            }
            if keys@.contains(k) {
                assert(keys@.to_multiset().count(k) > 0);
                assert(order@.to_multiset().count(k) > 0);
            }
        }
        assert(hb_pools(tables.hb_levels@, order@, hb_levels@));
    }
    proof {
        broadcast use vstd::seq_lib::group_to_multiset_ensures;
        if tables.hb_levels@.len() > 0 {
            crate::overworld_writer::assign::lemma_interleaved_first_round(tables.hb_levels@, hb_levels@);
            let d = choose|d: int|
                0 <= d <= hb_levels@.len() && (#[trigger] crate::overworld_writer::assign::keys_of(hb_levels@.take(d))).no_duplicates()
                    && forall|i: int|
                    0 <= i < tables.hb_levels@.len() ==> crate::overworld_writer::assign::keys_of(hb_levels@.take(d)).contains(
                        crate::overworld_writer::assign::obj_of(tables.hb_levels@[i]),
                    );
            assert(crate::overworld_writer::assign::keys_of(hb_levels@.take(d)).contains(
                crate::overworld_writer::assign::obj_of(tables.hb_levels@[0]),
            ));
            assert(hb_levels@.len() > 0);
            assert(keys@.contains(crate::overworld_writer::assign::obj_of(hb_levels@[0])));
            vstd::seq_lib::to_multiset_len(order0);
            vstd::seq_lib::to_multiset_len(order@);
            assert(order0 == keys@);
            assert(order@.len() > 0);
        }
    }
    let mut cycle = HbCycle { levels: hb_levels, next: 0 };

    // The 1-F fortress, held for a slot whose lock may stay shut.
    let p1 = find_1f(pool, catalog, &fdeck, tables.fort_1f_obj);
    let ghost full = fdeck@;
    let one_f = fdeck.remove(p1);
    let origin = catalog[pool[one_f].catalog_idx].world_idx;
    let safe = safe_slots(builds, origin, cross);
    let choice = choose_one(safe.as_slice(), rng);
    let mut pre: Option<PreAssigned> = None;
    match choice {
        Some(ws) => {
            pre = Some(PreAssigned { world: ws.0, section: ws.1, pool_idx: one_f });
        },
        None => {
            fdeck.push(one_f);
        },
    }
    let ghost fpre = fdeck@;
    proof {
        assert forall|i: int| 0 <= i < fpre.len() implies fort_ok(pool@, catalog@, #[trigger] fpre[i]) by {
            if choice is Some || i < fpre.len() - 1 {
                if i < p1 {
                    assert(fpre[i] == full[i]);
                } else {
                    assert(fpre[i] == full[i + 1]);
                }
            }
        }
        assert(fort_ok(pool@, catalog@, one_f));
        if choice is Some {
            assert forall|i: int| 0 <= i < fpre.len() implies fpre[i] != one_f by {
                if i < p1 {
                    assert(fpre[i] == full[i]);
                    assert(full[i] < full[p1 as int]);
                } else {
                    assert(fpre[i] == full[i + 1]);
                    assert(full[p1 as int] < full[i + 1]);
                }
            }
        }
    }

    shuffle_in_place(&mut fdeck, rng);
    let ghost l0 = ldeck@;
    shuffle_in_place(&mut ldeck, rng);
    let ghost a0 = adeck@;
    shuffle_in_place(&mut adeck, rng);
    let ghost t0 = tdeck@;
    shuffle_in_place(&mut tdeck, rng);
    proof {
        broadcast use vstd::seq_lib::group_to_multiset_ensures;
        lemma_perm_all_of(fpre, fdeck@, |pi: usize| fort_ok(pool@, catalog@, pi));
        assert(fpre.no_duplicates()) by {
            assert forall|i: int, j: int| 0 <= i < fpre.len() && 0 <= j < fpre.len() && i != j implies fpre[i] != fpre[j] by {
                let fi = if i < p1 { i } else if i < full.len() - 1 { i + 1 } else { p1 as int };
                let fj = if j < p1 { j } else if j < full.len() - 1 { j + 1 } else { p1 as int };
                if choice is Some || (i < fpre.len() - 1 && j < fpre.len() - 1) {
                    assert(fpre[i] == full[fi] && fpre[j] == full[fj]);
                    if fi < fj {
                        assert(full[fi] < full[fj]);
                    } else {
                        assert(full[fj] < full[fi]);
                    }
                } else if i == fpre.len() - 1 {
                    assert(fpre[i] == one_f);
                    assert(fpre[j] == full[fj]);
                    if fj < p1 {
                        assert(full[fj] < full[p1 as int]);
                    } else {
                        assert(full[p1 as int] < full[fj]);
                    }
                } else {
                    assert(fpre[j] == one_f);
                    assert(fpre[i] == full[fi]);
                    if fi < p1 {
                        assert(full[fi] < full[p1 as int]);
                    } else {
                        assert(full[p1 as int] < full[fi]);
                    }
                }
            }
        }
        lemma_perm_nodup(fpre, fdeck@);
        let lf = deck_of(pool@, catalog@, Deck::Level);
        let af = deck_of(pool@, catalog@, Deck::Airship);
        let bf = deck_of(pool@, catalog@, Deck::Bonus);
        let tf = deck_of(pool@, catalog@, Deck::Toad);
        assert(lf.no_duplicates()) by {
            assert forall|i: int, j: int| 0 <= i < lf.len() && 0 <= j < lf.len() && i != j implies lf[i] != lf[j] by {
                if i < j { assert(lf[i] < lf[j]); } else { assert(lf[j] < lf[i]); }
            }
        }
        assert(af.no_duplicates()) by {
            assert forall|i: int, j: int| 0 <= i < af.len() && 0 <= j < af.len() && i != j implies af[i] != af[j] by {
                if i < j { assert(af[i] < af[j]); } else { assert(af[j] < af[i]); }
            }
        }
        assert(bf.no_duplicates()) by {
            assert forall|i: int, j: int| 0 <= i < bf.len() && 0 <= j < bf.len() && i != j implies bf[i] != bf[j] by {
                if i < j { assert(bf[i] < bf[j]); } else { assert(bf[j] < bf[i]); }
            }
        }
        assert(tf.no_duplicates()) by {
            assert forall|i: int, j: int| 0 <= i < tf.len() && 0 <= j < tf.len() && i != j implies tf[i] != tf[j] by {
                if i < j { assert(tf[i] < tf[j]); } else { assert(tf[j] < tf[i]); }
            }
        }
        lemma_perm_nodup(l0, ldeck@);
        lemma_perm_nodup(a0, adeck@);
        lemma_perm_nodup(b0, bdeck@);
        lemma_perm_nodup(t0, tdeck@);
        lemma_perm_all_of(l0, ldeck@, |pi: usize| pi < pool@.len() && in_deck(entry_of(pool@, catalog@, pi as int).kind, Deck::Level));
        lemma_perm_all_of(a0, adeck@, |pi: usize| pi < pool@.len() && in_deck(entry_of(pool@, catalog@, pi as int).kind, Deck::Airship));
        lemma_perm_all_of(t0, tdeck@, |pi: usize| pi < pool@.len() && in_deck(entry_of(pool@, catalog@, pi as int).kind, Deck::Toad));
        if choice is Some {
            assert(!fdeck@.contains(one_f)) by {
                if fdeck@.contains(one_f) {
                    assert(fdeck@.to_multiset().count(one_f) > 0);
                    assert(fpre.contains(one_f));
                }
            }
        }
        if choice is Some {
            assert(safe@.contains(choice->0));
            let i = choose|i: int| 0 <= i < safe@.len() && safe@[i] == choice->0;
            assert(safe@[i] == choice->0);
        }
        assert forall|w: int| 0 <= w < 8 && !cross implies from_world(pool@, catalog@, fdeck@, w).len() + (if pre is Some
            && pre->0.world == w { 1int } else { 0int }) == from_world(pool@, catalog@, full, w).len() by {
            lemma_perm_from_world(pool@, catalog@, fpre, fdeck@, w);
            lemma_from_world_remove(pool@, catalog@, full, p1 as int, w);
            if choice is None {
                assert(fpre == full.remove(p1 as int).push(one_f));
                assert(fpre.drop_last() =~= full.remove(p1 as int));
            }
        }
        assert forall|w: int| 0 <= w < 8 implies from_world(pool@, catalog@, ldeck@, w).len() == from_world(
            pool@,
            catalog@,
            l0,
            w,
        ).len() by {
            lemma_perm_from_world(pool@, catalog@, l0, ldeck@, w);
        }
        lemma_fort_need_nonneg(builds@, 0);
        lemma_level_need_nonneg(builds@, 0);
    }

    let mut fnext: usize = 0;
    let mut bnext: usize = 0;
    let mut tnext: usize = 0;
    let mut result: Vec<WorldAssignments> = Vec::new();
    let mut wi: usize = 0;
    while wi < 8
        invariant
            wi <= 8,
            result@.len() == wi,
            cross == flags.cross_world,
            deal_ok(pool@, catalog@, builds@, cleared@, *tables, flags),
            barred@ == troll_barred(*tables),
            fort_ok(pool@, catalog@, one_f),
            lowest_1f(pool@, catalog@, one_f as int, tables.fort_1f_obj),
            origin == entry_of(pool@, catalog@, one_f as int).world_idx,
            all_of(fdeck@, |pi: usize| fort_ok(pool@, catalog@, pi)),
            fdeck@.no_duplicates(),
            ldeck@.no_duplicates(),
            adeck@.no_duplicates(),
            bdeck@.no_duplicates(),
            tdeck@.no_duplicates(),
            all_of(ldeck@, |pi: usize| level_ok(pool@, catalog@, pi)),
            all_of(adeck@, |pi: usize| pi < pool@.len() && in_deck(entry_of(pool@, catalog@, pi as int).kind, Deck::Airship)),
            all_of(bdeck@, |pi: usize| pi < pool@.len() && in_deck(entry_of(pool@, catalog@, pi as int).kind, Deck::Bonus)),
            all_of(tdeck@, |pi: usize| pi < pool@.len() && in_deck(entry_of(pool@, catalog@, pi as int).kind, Deck::Toad)),
            bnext <= bdeck@.len(),
            tnext <= tdeck@.len(),
            bdeck@.len() == deck_of(pool@, catalog@, Deck::Bonus).len(),
            tdeck@.len() == deck_of(pool@, catalog@, Deck::Toad).len(),
            bnext == least(bdeck@.len() as int, slots_before(builds@, SlotKind::BonusGame, wi as int)),
            tnext == least(tdeck@.len() as int, slots_before(builds@, SlotKind::ToadHouse, wi as int)),
            adeck@.len() == (if deck_of(pool@, catalog@, Deck::Airship).len() > airship_worlds_before(catalog@, wi as int) {
                deck_of(pool@, catalog@, Deck::Airship).len() - airship_worlds_before(catalog@, wi as int)
            } else {
                0
            }),
            bowser_idx is None ==> !has_bowser(pool@, catalog@),
            forall|w: int|
                0 <= w < wi ==> world_filled(#[trigger] result@[w], builds@, pool@, catalog@, cleared@, *tables, flags, w),
            bowser_idx is Some ==> bowser_idx->0 < pool@.len() && entry_of(pool@, catalog@, bowser_idx->0 as int).kind is Bowser,
            pre is Some ==> {
                &&& pre->0.world >= wi
                &&& pre->0.world < 8
                &&& pre->0.pool_idx == one_f
                &&& safe_section(builds@[pre->0.world as int].locks@, pre->0.section as int)
                &&& (cross || pre->0.world == origin)
            },
            choice is Some ==> !fdeck@.contains(one_f),
            pre is Some ==> choice is Some,
            safe_slot_exists(builds@, origin as int, cross) ==> choice is Some,
            choice is Some ==> pre is Some || exists|w: int, k: int|
                0 <= w < wi && 0 <= k < result@[w].fortress@.len() && (#[trigger] result@[w].fortress@[k]).pool_idx
                    == one_f,
            all_used(result@, wi as int).no_duplicates(),
            forall|i: int|
                0 <= i < all_used(result@, wi as int).len() ==> fresh(
                    pool@,
                    catalog@,
                    #[trigger] all_used(result@, wi as int)[i],
                    cross,
                    wi as int,
                    fdeck@,
                    fnext as int,
                    ldeck@,
                    adeck@,
                    bdeck@,
                    bnext as int,
                    tdeck@,
                    tnext as int,
                    one_f,
                    pre is Some,
                ),
            cross ==> fnext <= fdeck@.len() && fdeck@.len() - fnext + (if pre is Some { 1int } else { 0int }) >= fort_need(builds@, wi as int),
            cross ==> ldeck@.len() >= level_need(builds@, wi as int),
            !cross ==> forall|w: int|
                wi <= w < 8 ==> from_world(pool@, catalog@, fdeck@, w).len() + (if pre is Some && pre->0.world
                    == w { 1int } else { 0int }) >= fort_sections(#[trigger] builds@[w]).len(),
            !cross ==> forall|w: int|
                wi <= w < 8 ==> from_world(pool@, catalog@, ldeck@, w).len() >= level_slot_order(
                    (#[trigger] builds@[w]).slots@,
                ).len(),
            cycle.wf(),
            cycle.levels@ == hb_levels@,
            hb_pools(tables.hb_levels@, order@, hb_levels@),
            (hb_levels@.len() > 0 && cycle.next == fill_before(result@, builds@, *tables, flags, wi as int) % (hb_levels@.len() as int))
                || (fill_before(result@, builds@, *tables, flags, wi as int) == 0 && cycle.next == 0),
            forall|w: int|
                0 <= w < wi ==> hb_levels_dealt(
                    #[trigger] result@[w],
                    sprite_count(builds@[w], *tables, flags, w),
                    order@,
                    hb_levels@,
                    fill_before(result@, builds@, *tables, flags, w),
                ),
            forall|q: int, j: int|
                0 <= q < groups@.len() && 0 <= j < groups@[q]@.len() ==> obj_of(#[trigger] groups@[q]@[j]) == keys@[q]
                    && hb_levels@.contains(groups@[q]@[j]),
            (exists|w: int| 0 <= w < 8 && has_hb_slot(#[trigger] builds@[w].slots@)) ==> {
                &&& order@.len() > 0
                &&& forall|k: u16| #[trigger] order@.contains(k) ==> keys@.contains(k)
                &&& groups@.len() == keys@.len()
                &&& forall|q: int| 0 <= q < groups@.len() ==> (#[trigger] groups@[q])@.len() > 0
                &&& cycle.levels@.len() > 0
            },
            forall|w: int|
                0 <= w < wi ==> world_dealt(
                    #[trigger] result@[w],
                    builds@[w],
                    pool@,
                    catalog@,
                    w,
                    flags,
                    troll_barred(*tables),
                ),
            forall|w: int| 0 <= w < wi ==> (#[trigger] result@[w]).hammer_bro@.len() <= cleared@[w].pool_indices@.len(),
            forall|w: int, k: int|
                safe_slot_exists(builds@, origin as int, cross) && 0 <= w < wi && 0 <= k < result@[w].fortress@.len()
                    && (#[trigger] result@[w].fortress@[k]).pool_idx == one_f ==> safe_section(
                    builds@[w].locks@,
                    fort_sections(builds@[w])[k] as int,
                ),
        decreases 8 - wi,
    {
        let b = &builds[wi];
        let ghost pre_before = pre;
        let ghost fnext_before = fnext;

        // Fortresses.
        let mut own_f: Vec<usize> = if cross {
            Vec::new()
        } else {
            world_share(pool, catalog, &fdeck, wi)
        };
        proof {
            lemma_from_world(pool@, catalog@, fdeck@, wi as int);
            if !cross {
                assert forall|i: int| 0 <= i < own_f@.len() implies fort_ok(pool@, catalog@, #[trigger] own_f@[i]) by {
                    let j = choose|j: int| 0 <= j < fdeck@.len() && fdeck@[j] == own_f@[i];
                    assert(fort_ok(pool@, catalog@, fdeck@[j]));
                }
            }
            if cross {
                lemma_fort_need(builds@, wi as int, wi as int);
                if pre is Some && pre->0.world > wi {
                    lemma_fort_need(builds@, wi as int + 1, pre->0.world as int);
                    lemma_fort_sections_grow(builds@[pre->0.world as int], 0, pre->0.section as int, builds@[pre->0.world as int].section_count as int);
                }
            }
            if pre is Some {
                assert(builds@[pre->0.world as int].locks@.len() >= 0);
                let i = choose|i: int| 0 <= i < builds@[pre->0.world as int].locks@.len() && (#[trigger] builds@[pre->0.world as int].locks@[i]).secret_exit_safe && builds@[pre->0.world as int].locks@[i].fort_section == pre->0.section;
                assert(builds@[pre->0.world as int].locks@[i].secret_exit_safe);
            }
        }
        proof {
            if !cross {
                lemma_from_world_nodup(pool@, catalog@, fdeck@, wi as int);
            }
            if pre is Some {
                assert(!own_f@.contains(one_f)) by {
                    if own_f@.contains(one_f) {
                        let j = choose|j: int| 0 <= j < own_f@.len() && own_f@[j] == one_f;
                        assert(fdeck@.contains(own_f@[j]));
                    }
                }
            }
        }
        let ghost own_f_before = own_f@;
        let fortress = deal_fortresses(b, wi, &mut pre, cross, &fdeck, &mut fnext, &mut own_f, pool, catalog);

        // Levels.
        let mut own_l: Vec<usize> = if cross {
            Vec::new()
        } else {
            world_share(pool, catalog, &ldeck, wi)
        };
        proof {
            lemma_from_world(pool@, catalog@, ldeck@, wi as int);
            if !cross {
                assert forall|i: int| 0 <= i < own_l@.len() implies level_ok(pool@, catalog@, #[trigger] own_l@[i]) by {
                    let j = choose|j: int| 0 <= j < ldeck@.len() && ldeck@[j] == own_l@[i];
                    assert(level_ok(pool@, catalog@, ldeck@[j]));
                }
            } else {
                lemma_level_need_nonneg(builds@, wi + 1);
            }
        }
        proof {
            if !cross {
                lemma_from_world_nodup(pool@, catalog@, ldeck@, wi as int);
            }
        }
        let ghost ldeck_before = ldeck@;
        let (level, demoted) = deal_levels(b, cross, &mut ldeck, &mut own_l, pool, catalog, &barred);

        // Pipes.
        let pg = pipe_groups(pool, catalog, wi);
        let pipes = deal_pipes(b, wi, pg, pool, catalog, rng);

        // Airship (worlds 1-7) and Bowser (world 8).
        let ghost adeck_before = adeck@;
        let mut airship: Option<Assignment> = None;
        if wi < 7 {
            if let Some(pos) = airship_cell(catalog, wi) {
                if let Some(pi) = adeck.pop() {
                    airship = Some(Assignment { pool_idx: pi, pos });
                }
            }
        }
        let mut bowser: Option<Assignment> = None;
        if wi == 7 {
            if let Some(pi) = bowser_idx {
                bowser = Some(Assignment { pool_idx: pi, pos: catalog[pool[pi].catalog_idx].grid_pos });
            }
        }

        // Spade games and toad houses.
        let ghost bnext_before = bnext;
        let bonus = deal_in_turn(&b.slots, SlotKind::BonusGame, &bdeck, &mut bnext);
        let ghost tnext_before = tnext;
        let toad = deal_in_turn(&b.slots, SlotKind::ToadHouse, &tdeck, &mut tnext);

        // Hammer Bros on the slots left, up to the pointer table entries
        // the world freed.
        proof {
            assert(builds@[wi as int] == *b);
            lemma_fort_sections_bound(*b, b.section_count as int);
            lemma_slots_where_len(b.slots@, SlotKind::BonusGame, None, b.slots@.len() as int);
            lemma_slots_where_len(b.slots@, SlotKind::ToadHouse, None, b.slots@.len() as int);
            lemma_slots_where_len(b.slots@, SlotKind::Level, Some(true), b.slots@.len() as int);
            lemma_slots_where_len(b.slots@, SlotKind::Level, Some(false), b.slots@.len() as int);
            lemma_slots_where_split(b.slots@, b.slots@.len() as int);
        }
        let level_like = fortress.len() + level.len() + pipes.len() * 2 + bonus.len() + toad.len();
        let freed = cleared[wi].pool_indices.len();
        let remaining = if freed > level_like { freed - level_like } else { 0 };
        let sprite_cells = if flags.shuffle_hammer_bros {
            let mut v: Vec<Cell> = Vec::new();
            let mut i: usize = 0;
            while i < b.hb_sprites.len()
                invariant
                    i <= b.hb_sprites@.len(),
                    v@ == Seq::new(i as nat, |j: int| b.hb_sprites@[j].grid_pos),
                decreases b.hb_sprites@.len() - i,
            {
                v.push(b.hb_sprites[i].grid_pos);
                i = i + 1;
                assert(v@ =~= Seq::new(i as nat, |j: int| b.hb_sprites@[j].grid_pos));
            }
            v
        } else {
            copy_cells(&tables.vanilla_hb_sprites[wi])
        };
        proof {
            if has_hb_slot(b.slots@) {
                assert(exists|w: int| 0 <= w < 8 && has_hb_slot(#[trigger] builds@[w].slots@));
            }
        }
        let ghost next_before = cycle.next as int;
        let hammer_bro = deal_hammer_bros(b, &sprite_cells, remaining, &order, &keys, &groups, &mut cycle);

        let wa = WorldAssignments {
            fortress,
            level,
            pipes,
            airship,
            bowser,
            bonus,
            toad,
            hammer_bro,
            demoted_troll_pipes: demoted,
        };
        proof {
            lemma_from_world(pool@, catalog@, fdeck@, wi as int);
            lemma_from_world(pool@, catalog@, ldeck_before, wi as int);
            let fs = fort_sections(*b);
            assert forall|k: int| 0 <= k < fs.len() && !cross implies entry_of(
                pool@,
                catalog@,
                (#[trigger] wa.fortress@[k]).pool_idx as int,
            ).world_idx == wi by {
                let pend = pre_before is Some && pre_before->0.world == wi;
                if pend && fs[k] == pre_before->0.section {
                    assert(wa.fortress@[k].pool_idx == one_f);
                } else {
                    let x = wa.fortress@[k].pool_idx;
                    assert(own_f_before.contains(x));
                    let j = choose|j: int| 0 <= j < own_f_before.len() && own_f_before[j] == x;
                    assert(from_world(pool@, catalog@, fdeck@, wi as int)[j] == x);
                }
            }
            assert(wa.pipes@ == pipes@);
            let bw = builds@[wi as int];
            assert(forts_ok(wa.fortress@, bw, pool@, catalog@, wi as int, flags));
            assert(levels_ok(wa.level@, wa.demoted_troll_pipes@, bw, pool@, catalog@, wi as int, flags, troll_barred(*tables)));
            assert(pipes_ok(wa.pipes@, bw, pool@, catalog@, wi as int));
            assert(airship_ok(wa.airship, pool@, catalog@, wi as int));
            assert(bowser_ok(wa.bowser, pool@, catalog@, wi as int));
            assert(in_turn_ok(wa.bonus@, bw, SlotKind::BonusGame, pool@, catalog@, |k: NodeKind| k is BonusGame));
            assert(in_turn_ok(wa.toad@, bw, SlotKind::ToadHouse, pool@, catalog@, |k: NodeKind| k is ToadHouse));
            assert(hb_ok(wa.hammer_bro@, bw));
            assert(world_dealt(wa, builds@[wi as int], pool@, catalog@, wi as int, flags, troll_barred(*tables)));
            // No index twice within the world.
            assert forall|i: int, j: int| 0 <= i < j < wa.bonus@.len() implies wa.bonus@[i].pool_idx
                != wa.bonus@[j].pool_idx by {
                assert(wa.bonus@[i].pool_idx == bdeck@[bnext_before + i]);
                assert(wa.bonus@[j].pool_idx == bdeck@[bnext_before + j]);
            }
            assert forall|i: int, j: int| 0 <= i < j < wa.toad@.len() implies wa.toad@[i].pool_idx
                != wa.toad@[j].pool_idx by {
                assert(wa.toad@[i].pool_idx == tdeck@[tnext_before + i]);
                assert(wa.toad@[j].pool_idx == tdeck@[tnext_before + j]);
            }
            lemma_world_used_nodup(wa, pool@, catalog@);
            // Where each index came from.
            let fs = fort_sections(*b);
            assert forall|k: int| 0 <= k < wa.fortress@.len() implies {
                let y = (#[trigger] wa.fortress@[k]).pool_idx;
                &&& rank_at(pool@, catalog@, y) == 0
                &&& cross ==> fdeck@.subrange(fnext_before as int, fnext as int).contains(y) || (pre_before is Some
                    && y == one_f && pre_before->0.world == wi)
                &&& !cross ==> entry_of(pool@, catalog@, y as int).world_idx == wi
                &&& pre is Some ==> y != one_f
            } by {
                let y = wa.fortress@[k].pool_idx;
                let pend = pre_before is Some && pre_before->0.world == wi;
                if !(pend && fs[k] == pre_before->0.section) {
                    if cross {
                        lemma_in_subrange(fdeck@, fnext_before as int, fnext as int, y);
                    } else {
                        assert(own_f_before.contains(y));
                        let j = choose|j: int| 0 <= j < own_f_before.len() && own_f_before[j] == y;
                        assert(from_world(pool@, catalog@, fdeck@, wi as int)[j] == y);
                    }
                }
            }
            assert forall|k: int| 0 <= k < wa.bonus@.len() implies rank_at(pool@, catalog@, (#[trigger] wa.bonus@[k]).pool_idx) == 5
                && bdeck@.subrange(bnext_before as int, bnext as int).contains(wa.bonus@[k].pool_idx) by {
                assert(bdeck@.subrange(bnext_before as int, bnext as int)[k] == wa.bonus@[k].pool_idx);
            }
            assert forall|k: int| 0 <= k < wa.toad@.len() implies rank_at(pool@, catalog@, (#[trigger] wa.toad@[k]).pool_idx) == 6
                && tdeck@.subrange(tnext_before as int, tnext as int).contains(wa.toad@[k].pool_idx) by {
                assert(tdeck@.subrange(tnext_before as int, tnext as int)[k] == wa.toad@[k].pool_idx);
            }
            if wa.airship is Some {
                assert(adeck@ =~= adeck_before.drop_last());
                assert(wa.airship->0.pool_idx == adeck_before.last());
                assert(adeck_before[adeck_before.len() - 1] == adeck_before.last());
                assert(!adeck@.contains(adeck_before.last())) by {
                    if adeck@.contains(adeck_before.last()) {
                        let q = choose|q: int| 0 <= q < adeck@.len() && adeck@[q] == adeck_before.last();
                        assert(adeck_before[q] == adeck_before[adeck_before.len() - 1]);
                    }
                }
            }
            assert forall|x: usize| adeck@.contains(x) implies adeck_before.contains(x) by {
                let q = choose|q: int| 0 <= q < adeck@.len() && adeck@[q] == x;
                if adeck@.len() < adeck_before.len() {
                    assert(adeck_before[q] == x);
                }
            }
            if pre_before is Some && pre_before->0.world == wi {
                lemma_fort_sections_grow(*b, 0, pre_before->0.section as int, b.section_count as int);
            }
            lemma_deal_step(
                pool@,
                catalog@,
                wa,
                all_used(result@, wi as int),
                cross,
                wi as int,
                fdeck@,
                fnext_before as int,
                fnext as int,
                ldeck_before,
                ldeck@,
                adeck_before,
                adeck@,
                bdeck@,
                bnext_before as int,
                bnext as int,
                tdeck@,
                tnext_before as int,
                tnext as int,
                one_f,
                pre_before is Some,
                if pre_before is Some { pre_before->0.world as int } else { 0 },
                pre is Some,
            );
        }
        proof {
            let bw = builds@[wi as int];
            assert(bw == *b);
            assert(sprite_cells@ == hb_cells(bw, *tables, flags, wi as int));
            assert(slots_before(builds@, SlotKind::BonusGame, wi + 1) == slots_before(builds@, SlotKind::BonusGame, wi as int)
                + kind_slots(bw, SlotKind::BonusGame));
            assert(slots_before(builds@, SlotKind::ToadHouse, wi + 1) == slots_before(builds@, SlotKind::ToadHouse, wi as int)
                + kind_slots(bw, SlotKind::ToadHouse));
            assert(airship_worlds_before(catalog@, wi + 1) == airship_worlds_before(catalog@, wi as int) + if wi < 7
                && has_airship(catalog@, wi as int) { 1int } else { 0int });
            assert(wa.hammer_bro@.len() == least(hb_capacity(wa, freed as int), hb_order(bw.slots@, sprite_cells@).len() as int));
            assert(world_filled(wa, builds@, pool@, catalog@, cleared@, *tables, flags, wi as int));
            // Hammer Bro levels: the sprite rounds and the cycling pool.
            let ns = sprite_count(bw, *tables, flags, wi as int);
            let fb = fill_before(result@, builds@, *tables, flags, wi as int);
            let n = hb_levels@.len() as int;
            assert(ns == hb_split(b.slots@, sprite_cells@, b.slots@.len() as int).0.len());
            if n > 0 {
                assert(next_before == fb % n) by {
                    if fb == 0 {
                        assert(0int % n == 0) by (nonlinear_arith)
                            requires
                                n > 0,
                        ;
                    }
                }
            }
            assert forall|k: int| 0 <= k < wa.hammer_bro@.len() && k >= ns implies wa.hammer_bro@[k].level_entry
                == hb_levels@[(fb + (k - ns)) % n] by {
                vstd::arithmetic::div_mod::lemma_add_mod_noop_right(k - ns, fb, n);
                assert((next_before + (k - ns)) % n == (fb + (k - ns)) % n);
            }
            assert(hb_levels_dealt(wa, ns, order@, hb_levels@, fb));
            if wa.hammer_bro@.len() > ns {
                vstd::arithmetic::div_mod::lemma_add_mod_noop_right(wa.hammer_bro@.len() - ns, fb, n);
                assert(cycle.next == (fb + fillers(wa, ns)) % n);
            } else {
                assert(cycle.next == next_before);
                assert(fillers(wa, ns) == 0);
            }
        }
        let ghost result_before = result@;
        result.push(wa);
        proof {
            assert(result@[wi as int] == wa);
            lemma_all_used_push(result_before, wa, wi as int);
            assert(all_used(result@, wi + 1) == all_used(result_before, wi as int) + world_used(wa));
            assert forall|w: int| 0 <= w < wi + 1 implies world_filled(
                #[trigger] result@[w],
                builds@,
                pool@,
                catalog@,
                cleared@,
                *tables,
                flags,
                w,
            ) by {
                if w < wi {
                    assert(result@[w] == result_before[w]);
                }
            }
            lemma_fill_before_prefix(result@, result_before, builds@, *tables, flags, wi as int);
            assert(fill_before(result@, builds@, *tables, flags, wi + 1) == fill_before(
                result_before,
                builds@,
                *tables,
                flags,
                wi as int,
            ) + fillers(wa, sprite_count(builds@[wi as int], *tables, flags, wi as int)));
            assert forall|w: int| 0 <= w < wi + 1 implies hb_levels_dealt(
                #[trigger] result@[w],
                sprite_count(builds@[w], *tables, flags, w),
                order@,
                hb_levels@,
                fill_before(result@, builds@, *tables, flags, w),
            ) by {
                lemma_fill_before_prefix(result@, result_before, builds@, *tables, flags, w);
                if w < wi {
                    assert(result@[w] == result_before[w]);
                }
            }
            // The held 1-F fortress is placed once its world comes up.
            if choice is Some {
                if pre_before is Some && pre_before->0.world == wi {
                    let sec = pre_before->0.section as int;
                    let i = choose|i: int|
                        0 <= i < b.locks@.len() && (#[trigger] b.locks@[i]).secret_exit_safe
                            && b.locks@[i].fort_section == sec;
                    assert(builds@[wi as int].locks@[i].secret_exit_safe);
                    lemma_fort_sections_contains(*b, sec, b.section_count as int);
                    let k = choose|k: int|
                        0 <= k < fort_sections(*b).len() && #[trigger] fort_sections(*b)[k] == sec;
                    assert(result@[wi as int].fortress@[k].pool_idx == one_f);
                } else if pre is None {
                    let (w, k) = choose|w: int, k: int|
                        0 <= w < wi && 0 <= k < result_before[w].fortress@.len()
                            && (#[trigger] result_before[w].fortress@[k]).pool_idx == one_f;
                    assert(result@[w] == result_before[w]);
                    assert(result@[w].fortress@[k].pool_idx == one_f);
                }
            }
        }
        wi = wi + 1;
    }
    proof {
        assert(hb_pools(tables.hb_levels@, order@, hb_levels@));
    }
    proof {
        assert forall|pi: int|
            #[trigger] lowest_1f(pool@, catalog@, pi, tables.fort_1f_obj) && safe_slot_exists(
                builds@,
                entry_of(pool@, catalog@, pi).world_idx as int,
                flags.cross_world,
            ) implies exists|w: int, k: int|
                0 <= w < 8 && 0 <= k < result@[w].fortress@.len() && (#[trigger] result@[w].fortress@[k]).pool_idx
                    == pi && safe_section(builds@[w].locks@, fort_sections(builds@[w])[k] as int) by {
            if pi < one_f {
                assert(!is_1f(pool@, catalog@, pi, tables.fort_1f_obj));
            } else if one_f < pi {
                assert(!is_1f(pool@, catalog@, one_f as int, tables.fort_1f_obj));
            }
            assert(pi == one_f);
            let (w, k) = choose|w: int, k: int|
                0 <= w < 8 && 0 <= k < result@[w].fortress@.len() && (#[trigger] result@[w].fortress@[k]).pool_idx
                    == one_f;
            assert(result@[w].fortress@[k].pool_idx == one_f);
        }
    }
    result
}

} // verus!
