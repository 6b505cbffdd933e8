//! Piranha plant sprites on the map (piranha shuffle): how many a world can
//! host, and which level slots get one.
use vstd::prelude::*;
use rand_chacha::ChaCha8Rng;
use crate::map_grid::Cell;
use crate::overworld_build::BuiltWorld;
use crate::overworld_pickup::PoolEntry;
use crate::overworld_writer::deal::{WriteFlags, cell_in, pair_listed};
use crate::overworld_writer::grid::{hand_at, is_hand, is_troll, troll_at};
use crate::overworld_writer::types::WorldAssignments;
use crate::rng::choose_one;

verus! {

/// How the two World 7 piranha plant levels are dealt.
#[derive(Clone, Copy, Debug, PartialEq, Eq, Structural)]
pub enum PiranhaMode {
    /// The plants stay where they are; nothing is placed.
    Off,
    /// The released plant levels keep their sprite wherever they were dealt.
    On,
    /// The plant levels travel as plain levels; one random plain level slot
    /// per world gets a plant instead.
    Wild,
}

/// How many plant sprites a world can still host: its map-object slots that
/// can be emptied, less the Hammer Bros that take some and the slots kept
/// free for runtime spawns (white toad house, coin ship); none when that
/// leaves nothing.
pub fn plant_budget(eligible: usize, hb_used: usize, reserved: usize) -> (b: usize)
    requires
        hb_used + reserved <= usize::MAX,
    ensures
        b == (if eligible >= hb_used + reserved { eligible - hb_used - reserved } else { 0 }),
{
    let taken = hb_used + reserved;
    if eligible >= taken {
        eligible - taken
    } else {
        0
    }
}

/// A plant may stand on `p` in world `wi`: no hand trap or live troll pipe
/// is there, and in World 8 no army sprite covers it.
pub open spec fn hostable(b: BuiltWorld, wa: WorldAssignments, w8_cells: Seq<Cell>, wi: int, p: Cell) -> bool {
    &&& !is_hand(b.slots@, p)
    &&& !is_troll(b.slots@, wa.demoted_troll_pipes@, p)
    &&& !(wi == 7 && w8_cells.contains(p))
}

/// Pool entry `pi` is one of the released plant levels, given as the
/// `(world, entry)` pairs their sprites were linked to.
pub open spec fn is_plant_level(pool: Seq<PoolEntry>, links: Seq<(usize, usize)>, pi: int) -> bool {
    0 <= pi < pool.len() && links.contains((pool[pi].world_idx, pool[pi].entry_idx))
}

/// The plants of one world in `On` mode over its first `k` levels, and the
/// budget left: each plant level on a hostable cell takes one while the
/// budget lasts.
pub open spec fn on_world(
    b: BuiltWorld,
    wa: WorldAssignments,
    w8_cells: Seq<Cell>,
    wi: int,
    pool: Seq<PoolEntry>,
    links: Seq<(usize, usize)>,
    budget: int,
    k: int,
) -> (Seq<Cell>, int)
    decreases k,
{
    if k <= 0 {
        (Seq::empty(), budget)
    } else {
        let prev = on_world(b, wa, w8_cells, wi, pool, links, budget, k - 1);
        let a = wa.level@[k - 1];
        if is_plant_level(pool, links, a.pool_idx as int) && hostable(b, wa, w8_cells, wi, a.pos) && prev.1 > 0 {
            (prev.0.push(a.pos), prev.1 - 1)
        } else {
            prev
        }
    }
}

/// `cells` tagged with world `wi`.
pub open spec fn in_world(wi: int, cells: Seq<Cell>) -> Seq<(usize, Cell)> {
    Seq::new(cells.len(), |i: int| (wi as usize, cells[i]))
}

/// The `On` placements of worlds `0..w`, world by world.
pub open spec fn on_plants(
    builds: Seq<BuiltWorld>,
    r: Seq<WorldAssignments>,
    w8_cells: Seq<Cell>,
    pool: Seq<PoolEntry>,
    links: Seq<(usize, usize)>,
    budgets: Seq<usize>,
    w: int,
) -> Seq<(usize, Cell)>
    decreases w,
{
    if w <= 0 {
        Seq::empty()
    } else {
        on_plants(builds, r, w8_cells, pool, links, budgets, w - 1) + in_world(
            w - 1,
            on_world(
                builds[w - 1],
                r[w - 1],
                w8_cells,
                w - 1,
                pool,
                links,
                budgets[w - 1] as int,
                r[w - 1].level@.len() as int,
            ).0,
        )
    }
}

/// The hostable level cells of world `wi` among its first `k` levels, in
/// order.
pub open spec fn candidates(b: BuiltWorld, wa: WorldAssignments, w8_cells: Seq<Cell>, wi: int, k: int) -> Seq<Cell>
    decreases k,
{
    if k <= 0 {
        Seq::empty()
    } else {
        let prev = candidates(b, wa, w8_cells, wi, k - 1);
        let p = wa.level@[k - 1].pos;
        if hostable(b, wa, w8_cells, wi, p) {
            prev.push(p)
        } else {
            prev
        }
    }
}

/// All hostable level cells of world `wi`.
pub open spec fn all_candidates(b: BuiltWorld, wa: WorldAssignments, w8_cells: Seq<Cell>, wi: int) -> Seq<Cell> {
    candidates(b, wa, w8_cells, wi, wa.level@.len() as int)
}

/// A world takes a `Wild` plant: it has budget and a hostable level cell.
pub open spec fn takes_wild(
    builds: Seq<BuiltWorld>,
    r: Seq<WorldAssignments>,
    w8_cells: Seq<Cell>,
    budgets: Seq<usize>,
    wi: int,
) -> bool {
    budgets[wi] > 0 && all_candidates(builds[wi], r[wi], w8_cells, wi).len() > 0
}

/// The `Wild` placements of worlds `0..w`: candidate `picks[wi]` of each
/// world that takes a plant.
pub open spec fn wild_plants(
    builds: Seq<BuiltWorld>,
    r: Seq<WorldAssignments>,
    w8_cells: Seq<Cell>,
    budgets: Seq<usize>,
    picks: Seq<int>,
    w: int,
) -> Seq<(usize, Cell)>
    decreases w,
{
    if w <= 0 {
        Seq::empty()
    } else {
        let prev = wild_plants(builds, r, w8_cells, budgets, picks, w - 1);
        if takes_wild(builds, r, w8_cells, budgets, w - 1) {
            prev.push(((w - 1) as usize, all_candidates(builds[w - 1], r[w - 1], w8_cells, w - 1)[picks[w - 1]]))
        } else {
            prev
        }
    }
}

/// Valid draws for `Wild`: an index into the candidates of each world that
/// takes a plant.
pub open spec fn wild_picks_ok(
    builds: Seq<BuiltWorld>,
    r: Seq<WorldAssignments>,
    w8_cells: Seq<Cell>,
    budgets: Seq<usize>,
    picks: Seq<int>,
) -> bool {
    &&& picks.len() == 8
    &&& forall|wi: int|
        0 <= wi < 8 && takes_wild(builds, r, w8_cells, budgets, wi) ==> 0 <= #[trigger] picks[wi]
            < all_candidates(builds[wi], r[wi], w8_cells, wi).len()
}

/// A plant may legally stand on `p` of world `wi`: a level was dealt
/// there, no hand-trap slot and no troll-pipe slot that kept its pipe sits
/// on it, and in World 8 no army sprite covers it.
pub open spec fn plant_cell_ok(b: BuiltWorld, wa: WorldAssignments, w8_cells: Seq<Cell>, wi: int, p: Cell) -> bool {
    &&& exists|k: int| 0 <= k < wa.level@.len() && (#[trigger] wa.level@[k]).pos == p
    &&& !(exists|i: int| 0 <= i < b.slots@.len() && b.slots@[i].is_hand_trap && (#[trigger] b.slots@[i]).pos == p)
    &&& !((exists|i: int| 0 <= i < b.slots@.len() && b.slots@[i].is_troll_pipe && (#[trigger] b.slots@[i]).pos == p)
        && !wa.demoted_troll_pipes@.contains(p))
    &&& !(wi == 7 && w8_cells.contains(p))
}

proof fn lemma_on_world_cells(
    b: BuiltWorld,
    wa: WorldAssignments,
    w8_cells: Seq<Cell>,
    wi: int,
    pool: Seq<PoolEntry>,
    links: Seq<(usize, usize)>,
    budget: int,
    k: int,
)
    requires
        0 <= k <= wa.level@.len(),
    ensures
        forall|q: int|
            0 <= q < on_world(b, wa, w8_cells, wi, pool, links, budget, k).0.len() ==> plant_cell_ok(
                b,
                wa,
                w8_cells,
                wi,
                #[trigger] on_world(b, wa, w8_cells, wi, pool, links, budget, k).0[q],
            ),
    decreases k,
{
    if k > 0 {
        lemma_on_world_cells(b, wa, w8_cells, wi, pool, links, budget, k - 1);
        let a = wa.level@[k - 1];
        let prev = on_world(b, wa, w8_cells, wi, pool, links, budget, k - 1);
        let cur = on_world(b, wa, w8_cells, wi, pool, links, budget, k);
        assert forall|q: int| 0 <= q < cur.0.len() implies plant_cell_ok(b, wa, w8_cells, wi, #[trigger] cur.0[q]) by {
            if q < prev.0.len() {
                assert(cur.0[q] == prev.0[q]);
            } else {
                assert(cur.0[q] == a.pos);
                assert(hostable(b, wa, w8_cells, wi, a.pos));
                assert(wa.level@[k - 1].pos == a.pos);
            }
        }
    }
}

proof fn lemma_candidates_cells(b: BuiltWorld, wa: WorldAssignments, w8_cells: Seq<Cell>, wi: int, k: int)
    requires
        0 <= k <= wa.level@.len(),
    ensures
        forall|q: int|
            0 <= q < candidates(b, wa, w8_cells, wi, k).len() ==> plant_cell_ok(
                b,
                wa,
                w8_cells,
                wi,
                #[trigger] candidates(b, wa, w8_cells, wi, k)[q],
            ),
    decreases k,
{
    if k > 0 {
        lemma_candidates_cells(b, wa, w8_cells, wi, k - 1);
        let p = wa.level@[k - 1].pos;
        let prev = candidates(b, wa, w8_cells, wi, k - 1);
        let cur = candidates(b, wa, w8_cells, wi, k);
        assert forall|q: int| 0 <= q < cur.len() implies plant_cell_ok(b, wa, w8_cells, wi, #[trigger] cur[q]) by {
            if q < prev.len() {
                assert(cur[q] == prev[q]);
            } else {
                assert(cur[q] == p);
                assert(hostable(b, wa, w8_cells, wi, p));
                assert(wa.level@[k - 1].pos == p);
            }
        }
    }
}

/// Plants only go where they may: in either mode every placement is a cell
/// of its world that was dealt a level, holds no hand trap and no troll pipe
/// that kept its pipe, and (in World 8) no army sprite.
pub proof fn lemma_plants_on_allowed_cells(
    builds: Seq<BuiltWorld>,
    r: Seq<WorldAssignments>,
    w8_cells: Seq<Cell>,
    pool: Seq<PoolEntry>,
    links: Seq<(usize, usize)>,
    budgets: Seq<usize>,
    picks: Seq<int>,
    w: int,
)
    requires
        0 <= w <= 8,
        builds.len() == 8,
        r.len() == 8,
        budgets.len() == 8,
        wild_picks_ok(builds, r, w8_cells, budgets, picks),
    ensures
        forall|q: int|
            0 <= q < on_plants(builds, r, w8_cells, pool, links, budgets, w).len() ==> {
                let (wi, p) = #[trigger] on_plants(builds, r, w8_cells, pool, links, budgets, w)[q];
                wi < 8 && plant_cell_ok(builds[wi as int], r[wi as int], w8_cells, wi as int, p)
            },
        forall|q: int|
            0 <= q < wild_plants(builds, r, w8_cells, budgets, picks, w).len() ==> {
                let (wi, p) = #[trigger] wild_plants(builds, r, w8_cells, budgets, picks, w)[q];
                wi < 8 && plant_cell_ok(builds[wi as int], r[wi as int], w8_cells, wi as int, p)
            },
    decreases w,
{
    if w > 0 {
        lemma_plants_on_allowed_cells(builds, r, w8_cells, pool, links, budgets, picks, w - 1);
        let v = w - 1;
        let ow = on_world(builds[v], r[v], w8_cells, v, pool, links, budgets[v] as int, r[v].level@.len() as int);
        lemma_on_world_cells(builds[v], r[v], w8_cells, v, pool, links, budgets[v] as int, r[v].level@.len() as int);
        let prev = on_plants(builds, r, w8_cells, pool, links, budgets, v);
        let cur = on_plants(builds, r, w8_cells, pool, links, budgets, w);
        assert forall|q: int| 0 <= q < cur.len() implies {
            let (wi, p) = #[trigger] cur[q];
            wi < 8 && plant_cell_ok(builds[wi as int], r[wi as int], w8_cells, wi as int, p)
        } by {
            if q < prev.len() {
                assert(cur[q] == prev[q]);
            } else {
                assert(cur[q] == in_world(v, ow.0)[q - prev.len()]);
                assert(ow.0[q - prev.len()] == cur[q].1);
            }
        }
        lemma_candidates_cells(builds[v], r[v], w8_cells, v, r[v].level@.len() as int);
        let wp = wild_plants(builds, r, w8_cells, budgets, picks, v);
        let wc = wild_plants(builds, r, w8_cells, budgets, picks, w);
        assert forall|q: int| 0 <= q < wc.len() implies {
            let (wi, p) = #[trigger] wc[q];
            wi < 8 && plant_cell_ok(builds[wi as int], r[wi as int], w8_cells, wi as int, p)
        } by {
            if q < wp.len() {
                assert(wc[q] == wp[q]);
            } else {
                assert(takes_wild(builds, r, w8_cells, budgets, v));
                assert(0 <= picks[v] < all_candidates(builds[v], r[v], w8_cells, v).len());
            }
        }
    }
}

fn hostable_at(b: &BuiltWorld, wa: &WorldAssignments, w8_cells: &Vec<Cell>, wi: usize, p: Cell) -> (h: bool)
    ensures
        h == hostable(*b, *wa, w8_cells@, wi as int, p),
{
    let special = hand_at(&b.slots, p) || troll_at(&b.slots, &wa.demoted_troll_pipes, p);
    let covered = wi == 7 && cell_in(w8_cells, p);
    !special && !covered
}

fn plant_level_at(pool: &Vec<PoolEntry>, links: &Vec<(usize, usize)>, pi: usize) -> (p: bool)
    ensures
        p == is_plant_level(pool@, links@, pi as int),
{
    if pi < pool.len() {
        let pe = pool[pi];
        pair_listed(links, (pe.world_idx, pe.entry_idx))
    } else {
        false
    }
}

fn world_candidates(b: &BuiltWorld, wa: &WorldAssignments, w8_cells: &Vec<Cell>, wi: usize) -> (c: Vec<Cell>)
    ensures
        c@ == all_candidates(*b, *wa, w8_cells@, wi as int),
{
    let mut c: Vec<Cell> = Vec::new();
    let mut k: usize = 0;
    while k < wa.level.len()
        invariant
            k <= wa.level@.len(),
            c@ == candidates(*b, *wa, w8_cells@, wi as int, k as int),
        decreases wa.level@.len() - k,
    {
        let p = wa.level[k].pos;
        if hostable_at(b, wa, w8_cells, wi, p) {
            c.push(p);
        }
        k = k + 1;
    }
    c
}

/// Decide where piranha plant sprites go. `links` are the `(world, entry)`
/// pairs of the two plant levels, `w8_cells` the cells under World 8 army
/// sprites, `budgets` each world's [`plant_budget`]; `flags.piranha` picks
/// the mode.
///
/// `Off` places none. `On` puts a plant on each slot dealt a plant level,
/// world by world, while the world's budget lasts. `Wild` gives each world
/// with budget one plant on a random hostable level cell. A skipped plant
/// leaves the level a plain numbered tile.
pub fn pick_plant_positions(
    builds: &Vec<BuiltWorld>,
    assignments: &Vec<WorldAssignments>,
    pool: &Vec<PoolEntry>,
    links: &Vec<(usize, usize)>,
    w8_cells: &Vec<Cell>,
    budgets: &Vec<usize>,
    flags: WriteFlags,
    rng: &mut ChaCha8Rng,
) -> (plants: Vec<(usize, Cell)>)
    requires
        builds@.len() == 8,
        assignments@.len() == 8,
        budgets@.len() == 8,
    ensures
        flags.piranha == PiranhaMode::Off ==> plants@.len() == 0,
        flags.piranha == PiranhaMode::On ==> plants@ == on_plants(
            builds@,
            assignments@,
            w8_cells@,
            pool@,
            links@,
            budgets@,
            8,
        ),
        flags.piranha == PiranhaMode::Wild ==> exists|picks: Seq<int>|
            wild_picks_ok(builds@, assignments@, w8_cells@, budgets@, picks) && plants@ == #[trigger] wild_plants(
                builds@,
                assignments@,
                w8_cells@,
                budgets@,
                picks,
                8,
            ),
{
    let mut plants: Vec<(usize, Cell)> = Vec::new();
    match flags.piranha {
        PiranhaMode::Off => {},
        PiranhaMode::On => {
            let mut wi: usize = 0;
            while wi < 8
                invariant
                    wi <= 8,
                    builds@.len() == 8,
                    assignments@.len() == 8,
                    budgets@.len() == 8,
                    plants@ == on_plants(builds@, assignments@, w8_cells@, pool@, links@, budgets@, wi as int),
                decreases 8 - wi,
            {
                let b = &builds[wi];
                let wa = &assignments[wi];
                let mut budget: usize = budgets[wi];
                let ghost start = plants@;
                let mut k: usize = 0;
                while k < wa.level.len()
                    invariant
                        k <= wa.level@.len(),
                        wi < 8,
                        builds@.len() == 8,
                        assignments@.len() == 8,
                        budgets@.len() == 8,
                        *b == builds@[wi as int],
                        *wa == assignments@[wi as int],
                        ({
                            let ow = on_world(*b, *wa, w8_cells@, wi as int, pool@, links@, budgets@[wi as int] as int, k as int);
                            &&& plants@ == start + in_world(wi as int, ow.0)
                            &&& budget == ow.1
                        }),
                    decreases wa.level@.len() - k,
                {
                    let a = wa.level[k];
                    let ghost ow = on_world(*b, *wa, w8_cells@, wi as int, pool@, links@, budgets@[wi as int] as int, k as int);
                    if plant_level_at(pool, links, a.pool_idx) && hostable_at(b, wa, w8_cells, wi, a.pos) && budget > 0 {
                        budget = budget - 1;
                        plants.push((wi, a.pos));
                        assert(in_world(wi as int, ow.0.push(a.pos)) =~= in_world(wi as int, ow.0).push((wi, a.pos)));
                    }
                    k = k + 1;
                }
                wi = wi + 1;
            }
        },
        PiranhaMode::Wild => {
            let ghost mut picks: Seq<int> = Seq::new(8, |i: int| 0int);
            let mut wi: usize = 0;
            while wi < 8
                invariant
                    wi <= 8,
                    builds@.len() == 8,
                    assignments@.len() == 8,
                    budgets@.len() == 8,
                    picks.len() == 8,
                    forall|v: int|
                        0 <= v < wi && takes_wild(builds@, assignments@, w8_cells@, budgets@, v) ==> 0
                            <= #[trigger] picks[v] < all_candidates(builds@[v], assignments@[v], w8_cells@, v).len(),
                    plants@ == wild_plants(builds@, assignments@, w8_cells@, budgets@, picks, wi as int),
                decreases 8 - wi,
            {
                let ghost before = picks;
                if budgets[wi] > 0 {
                    let cands = world_candidates(&builds[wi], &assignments[wi], w8_cells, wi);
                    match choose_one(cands.as_slice(), rng) {
                        Some(p) => {
                            proof {
                                let j = choose|j: int| 0 <= j < cands@.len() && cands@[j] == p;
                                picks = picks.update(wi as int, j);
                                lemma_wild_prefix(builds@, assignments@, w8_cells@, budgets@, before, picks, wi as int);
                            }
                            plants.push((wi, p));
                        },
                        None => {},
                    }
                }
                proof {
                    lemma_wild_prefix(builds@, assignments@, w8_cells@, budgets@, before, picks, wi as int);
                }
                wi = wi + 1;
            }
            assert(wild_picks_ok(builds@, assignments@, w8_cells@, budgets@, picks));
        },
    }
    plants
}

/// The `Wild` placements of worlds `0..w` read only the picks below `w`.
proof fn lemma_wild_prefix(
    builds: Seq<BuiltWorld>,
    r: Seq<WorldAssignments>,
    w8_cells: Seq<Cell>,
    budgets: Seq<usize>,
    a: Seq<int>,
    b: Seq<int>,
    w: int,
)
    requires
        forall|v: int| 0 <= v < w ==> a[v] == b[v],
    ensures
        wild_plants(builds, r, w8_cells, budgets, a, w) == wild_plants(builds, r, w8_cells, budgets, b, w),
    decreases w,
{
    if w > 0 {
        lemma_wild_prefix(builds, r, w8_cells, budgets, a, b, w - 1);
    }
}

} // verus!
