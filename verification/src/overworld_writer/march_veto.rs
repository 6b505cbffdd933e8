//! Per-coordinate landing veto for wandering map objects (Hammer Bros and
//! the like).
//!
//! Piranha-plant and World 8 army levels are map-object sprites over plain
//! path nodes; beating one leaves a node a wandering object may land on, and
//! a Hammer Bro parked there would re-enter the beaten level when touched.
//! The second `JSR Map_Object_March_PickTravel` of `Map_MarchValidateTravel`
//! (the landing-zone pick) is replaced by a trampoline that rejects the hop
//! when the landing tile's SRAM address is in a per-world registry of plant
//! and army coordinates, or when the landing tile is the hand trap ($E6).
//! The registry holds, per world, its byte offset into the list, then the
//! world's addresses as (hi, lo) pairs in ascending order, ended by a $00.
use vstd::prelude::*;
use crate::bits::lemma_word_bytes;
use crate::pipe_helpers::Pos;
use crate::rom::{Rom, spliced};

verus! {

/// Hook site: file offset of `JSR Map_Object_March_PickTravel` at CPU $B3FD.
pub const MARCH_VETO_HOOK: usize = 0x1740D;

/// The vanilla bytes at the hook site (`JSR $B43B`), displaced to become the
/// trampoline's first instruction.
pub const DISPLACED_JSR: [u8; 3] = [0x20, 0x3B, 0xB4];

/// Hand-trap map tile: landing on it is vetoed (bros still pass through).
pub const HAND_TRAP_TILE: u8 = 0xE6;

/// The direction re-pick loop inside `Map_MarchValidateTravel`.
pub const RETRY_PICK_CPU: u16 = 0xB3A3;

/// Trampoline layout within the free-space block (byte offsets).
pub const LOOP_OFF: usize = 30;
pub const ACCEPT_OFF: usize = 53;
pub const REJECT_OFF: usize = 54;
pub const ROUTINE_LEN: usize = 59;
pub const OFFSETS_LEN: usize = 8;
/// 16 two-byte entries plus 8 per-world terminators.
pub const LIST_LEN: usize = 40;

/// File offset of CPU $A000 in PRG011 (where the march code is mapped).
pub const PRG011_FILE_BASE: usize = 0x16010;

/// SRAM address of the map tile at grid `(row, col)` as the engine computes
/// it while marching: `Tile_Mem_Addr[col / 16] + $F0 + (row + 2) * 16 +
/// col % 16`, with screens $1B0 bytes apart from $6000.
pub open spec fn spec_veto_addr(row: int, col: int) -> u16 {
    (0x6000 + (col / 16) * 0x1B0 + 0xF0 + (row + 2) * 16 + col % 16) as u16
}

/// The address computation does not overflow.
pub open spec fn veto_pos_ok(p: Pos) -> bool {
    0x6000 + (p.1 / 16) * 0x1B0 + 0xF0 + (p.0 + 2) * 16 + p.1 % 16 <= usize::MAX
}

/// SRAM address of the map tile at grid (row, col), as the engine computes
/// it in `Map_Object_March_PickTravel`.
pub fn veto_addr(row: usize, col: usize) -> (a: u16)
    requires
        veto_pos_ok((row, col)),
    ensures
        a == spec_veto_addr(row as int, col as int),
{
    (0x6000 + (col / 16) * 0x1B0 + 0xF0 + (row + 2) * 16 + (col % 16)) as u16
}

/// Every tile of a four-screen, nine-row map lies in the map tile SRAM
/// window $6110-$66AF.
pub proof fn lemma_veto_addr_in_window(r: int, c: int)
    requires
        0 <= r < 9,
        0 <= c < 64,
    ensures
        0x6110 <= spec_veto_addr(r, c) <= 0x66AF,
{
    let a = 0x6000 + (c / 16) * 0x1B0 + 0xF0 + (r + 2) * 16 + c % 16;
    assert(0 <= c / 16 <= 3);
    assert(0x6110 <= a <= 0x66AF);
}

/// On a four-screen map with rows 0-9 every tile has its own address, and
/// every address's high byte is at least $61, so a $00 high byte safely ends
/// a world's list.
pub proof fn lemma_veto_addr_distinct(r1: int, c1: int, r2: int, c2: int)
    requires
        0 <= r1 < 10,
        0 <= r2 < 10,
        0 <= c1 < 64,
        0 <= c2 < 64,
    ensures
        spec_veto_addr(r1, c1) == spec_veto_addr(r2, c2) ==> r1 == r2 && c1 == c2,
        spec_veto_addr(r1, c1) / 256 >= 0x61,
{
    let a1 = 0x6000 + (c1 / 16) * 0x1B0 + 0xF0 + (r1 + 2) * 16 + c1 % 16;
    let a2 = 0x6000 + (c2 / 16) * 0x1B0 + 0xF0 + (r2 + 2) * 16 + c2 % 16;
    assert(a1 < 0x10000 && a2 < 0x10000);
    if a1 == a2 {
        let s1 = c1 / 16;
        let s2 = c2 / 16;
        let w1 = (r1 + 2) * 16 + c1 % 16;
        let w2 = (r2 + 2) * 16 + c2 % 16;
        assert(0 <= w1 < 0x1B0 && 0 <= w2 < 0x1B0);
        assert(s1 == s2) by (nonlinear_arith)
            requires
                s1 * 0x1B0 + w1 == s2 * 0x1B0 + w2,
                0 <= w1 < 0x1B0,
                0 <= w2 < 0x1B0,
                0 <= s1,
                0 <= s2,
        ;
        assert(r1 == r2 && c1 % 16 == c2 % 16);
    }
}

/// `s` is strictly increasing.
pub open spec fn strictly_sorted(s: Seq<u16>) -> bool {
    forall|i: int, j: int| 0 <= i < j < s.len() ==> s[i] < s[j]
}

/// `a` added to the strictly increasing list `s` (nothing happens if it is
/// already there).
pub open spec fn ins_unique(s: Seq<u16>, a: u16) -> Seq<u16>
    decreases s.len(),
{
    if s.len() == 0 {
        seq![a]
    } else if s.last() < a {
        s.push(a)
    } else if s.last() == a {
        s
    } else {
        ins_unique(s.drop_last(), a).push(s.last())
    }
}

pub proof fn lemma_ins_unique(s: Seq<u16>, a: u16)
    requires
        strictly_sorted(s),
    ensures
        strictly_sorted(ins_unique(s, a)),
        forall|x: u16| #[trigger] ins_unique(s, a).contains(x) <==> (s.contains(x) || x == a),
    decreases s.len(),
{
    if s.len() == 0 {
        assert(seq![a][0] == a);
    } else if s.last() < a {
        assert forall|x: u16| s.push(a).contains(x) <==> (s.contains(x) || x == a) by {
            if s.contains(x) {
                let i = choose|i: int| 0 <= i < s.len() && s[i] == x;
                assert(s.push(a)[i] == x);
            }
            if x == a {
                assert(s.push(a)[s.len() as int] == a);
            }
        }
    } else if s.last() == a {
    } else {
        let t = s.drop_last();
        assert(strictly_sorted(t));
        lemma_ins_unique(t, a);
        let r = ins_unique(t, a);
        assert forall|i: int| 0 <= i < r.len() implies #[trigger] r[i] < s.last() by {
            assert(r.contains(r[i]));
            if r[i] != a {
                assert(t.contains(r[i]));
                let k = choose|k: int| 0 <= k < t.len() && t[k] == r[i];
                assert(t[k] == s[k]);
                assert(k < s.len() - 1);
                assert(s[k] < s[s.len() - 1]);
            }
        }
        assert forall|x: u16| r.push(s.last()).contains(x) <==> (s.contains(x) || x == a) by {
            if r.push(s.last()).contains(x) {
                let i = choose|i: int| 0 <= i < r.len() + 1 && r.push(s.last())[i] == x;
                if i < r.len() {
                    assert(r.contains(x));
                    if t.contains(x) {
                        let k = choose|k: int| 0 <= k < t.len() && t[k] == x;
                        assert(s[k] == x);
                    }
                } else {
                    assert(s[s.len() - 1] == x);
                }
            }
            if s.contains(x) {
                let k = choose|k: int| 0 <= k < s.len() && s[k] == x;
                if k < s.len() - 1 {
                    assert(t[k] == x);
                    assert(t.contains(x));
                    assert(r.contains(x));
                    let i = choose|i: int| 0 <= i < r.len() && r[i] == x;
                    assert(r.push(s.last())[i] == x);
                } else {
                    assert(r.push(s.last())[r.len() as int] == x);
                }
            }
            if x == a {
                assert(r.contains(a));
                let i = choose|i: int| 0 <= i < r.len() && r[i] == a;
                assert(r.push(s.last())[i] == x);
            }
        }
    }
}

/// `ins_unique` splits a strictly increasing list at `k`, the number of
/// elements not above `a`.
proof fn lemma_ins_unique_at(s: Seq<u16>, a: u16, k: int)
    requires
        strictly_sorted(s),
        0 <= k <= s.len(),
        forall|j: int| k <= j < s.len() ==> #[trigger] s[j] > a,
        k == 0 || s[k - 1] <= a,
    ensures
        ins_unique(s, a) == if k > 0 && s[k - 1] == a {
            s
        } else {
            s.take(k) + seq![a] + s.skip(k)
        },
    decreases s.len(),
{
    if k == s.len() {
        if s.len() == 0 {
            assert(s.take(0) + seq![a] + s.skip(0) =~= seq![a]);
        } else if s.last() < a {
            assert(s.take(k) + seq![a] + s.skip(k) =~= s.push(a));
        }
    } else {
        let t = s.drop_last();
        assert(s[s.len() - 1] > a);
        lemma_ins_unique_at(t, a, k);
        if k > 0 && s[k - 1] == a {
            assert(t.push(s.last()) =~= s);
        } else {
            assert(t.take(k) + seq![a] + t.skip(k) + seq![s.last()] =~= s.take(k) + seq![a] + s.skip(k));
            assert((t.take(k) + seq![a] + t.skip(k)).push(s.last()) =~= t.take(k) + seq![a] + t.skip(k) + seq![s.last()]);
        }
    }
}

/// Add `a` to the strictly increasing vector `v`.
pub(crate) fn insert_unique(v: &mut Vec<u16>, a: u16)
    requires
        strictly_sorted(old(v)@),
    ensures
        final(v)@ == ins_unique(old(v)@, a),
        strictly_sorted(final(v)@),
{
    proof {
        lemma_ins_unique(v@, a);
    }
    let mut k = v.len();
    while k > 0 && v[k - 1] > a
        invariant
            k <= v@.len(),
            v@ == old(v)@,
            forall|j: int| k <= j < v@.len() ==> #[trigger] v@[j] > a,
        decreases k,
    {
        k = k - 1;
    }
    proof {
        lemma_ins_unique_at(v@, a, k as int);
    }
    if k > 0 && v[k - 1] == a {
        return;
    }
    v.insert(k, a);
    assert(v@ =~= old(v)@.take(k as int) + seq![a] + old(v)@.skip(k as int));
}

/// `l` after adding, in order, the address of every position in `ps` that
/// belongs to world `w` (every position, when `any_world`).
pub open spec fn fold_addrs(l: Seq<u16>, ps: Seq<(usize, Pos)>, w: int, any_world: bool) -> Seq<u16>
    decreases ps.len(),
{
    if ps.len() == 0 {
        l
    } else {
        let prev = fold_addrs(l, ps.drop_last(), w, any_world);
        let (pw, p) = ps.last();
        if any_world || pw == w {
            ins_unique(prev, spec_veto_addr(p.0 as int, p.1 as int))
        } else {
            prev
        }
    }
}

/// The registry's address list of world `w`: the army positions (World 8)
/// and then the plant positions of that world, ascending and distinct.
pub open spec fn world_list(w8: Seq<(usize, Pos)>, plants: Seq<(usize, Pos)>, w: int) -> Seq<u16> {
    let army = if w == 7 {
        fold_addrs(Seq::empty(), w8, 7, true)
    } else {
        Seq::empty()
    };
    fold_addrs(army, plants, w, false)
}

/// The eight per-world address lists of the registry.
pub open spec fn veto_lists(w8: Seq<(usize, Pos)>, plants: Seq<(usize, Pos)>) -> Seq<Seq<u16>> {
    Seq::new(8, |w: int| world_list(w8, plants, w))
}

/// A list's addresses as (hi, lo) byte pairs.
pub open spec fn addr_pairs(l: Seq<u16>) -> Seq<u8>
    decreases l.len(),
{
    if l.len() == 0 {
        Seq::empty()
    } else {
        addr_pairs(l.drop_last()) + seq![(l.last() / 256) as u8, (l.last() % 256) as u8]
    }
}

/// The registry list of worlds `0..w`: each world's pairs and a $00.
pub open spec fn list_upto(lists: Seq<Seq<u16>>, w: int) -> Seq<u8>
    decreases w,
{
    if w <= 0 {
        Seq::empty()
    } else {
        list_upto(lists, w - 1) + addr_pairs(lists[w - 1]) + seq![0u8]
    }
}

/// Every world's lists position is a valid input: world index below 8 and
/// an address that does not overflow.
pub open spec fn positions_ok(w8: Seq<(usize, Pos)>, plants: Seq<(usize, Pos)>) -> bool {
    &&& forall|i: int| 0 <= i < w8.len() ==> veto_pos_ok(#[trigger] w8[i].1)
    &&& forall|i: int| 0 <= i < plants.len() ==> (#[trigger] plants[i]).0 < 8 && veto_pos_ok(plants[i].1)
}

/// CPU address of a PRG011 file offset.
pub open spec fn prg011_cpu(file: int) -> u16 {
    (file - PRG011_FILE_BASE + 0xA000) as u16
}

/// The trampoline assembled at CPU `base`.
pub open spec fn veto_routine(base: u16) -> Seq<u8> {
    let loop_cpu = (base + LOOP_OFF) as u16;
    let offsets_cpu = (base + ROUTINE_LEN) as u16;
    let list_cpu = (offsets_cpu + OFFSETS_LEN) as u16;
    let list1 = (list_cpu + 1) as u16;
    seq![
        0x20u8, 0x3B, 0xB4,
        0xA4, 0x02,
        0xB1, 0x63,
        0xC9, HAND_TRAP_TILE,
        0xF0, (REJECT_OFF - 11) as u8,
        0xA5, 0x63,
        0x18,
        0x65, 0x02,
        0x85, 0x0E,
        0xA5, 0x64,
        0x69, 0x00,
        0x85, 0x0F,
        0xAE, 0x27, 0x07,
        0xBC, (offsets_cpu % 256) as u8, (offsets_cpu / 256) as u8,
        0xB9, (list_cpu % 256) as u8, (list_cpu / 256) as u8,
        0xF0, (ACCEPT_OFF - 35) as u8,
        0xC5, 0x0F,
        0xD0, 0x09,
        0xB9, (list1 % 256) as u8, (list1 / 256) as u8,
        0xC5, 0x0E,
        0xD0, 0x02,
        0xF0, (REJECT_OFF - 48) as u8,
        0xC8,
        0xC8,
        0x4C, (loop_cpu % 256) as u8, (loop_cpu / 256) as u8,
        0x60,
        0x68,
        0x68,
        0x4C, 0xA3, 0xB3,
    ]
}

/// The registry's per-world offsets into its list.
pub open spec fn veto_offsets(lists: Seq<Seq<u16>>) -> Seq<u8> {
    Seq::new(8, |w: int| list_upto(lists, w).len() as u8)
}

/// The registry list padded with zeros to its allocation.
pub open spec fn veto_list_bytes(lists: Seq<Seq<u16>>) -> Seq<u8> {
    let l = list_upto(lists, 8);
    l + Seq::new((LIST_LEN - l.len()) as nat, |i: int| 0u8)
}

/// The ROM after the march veto is written with its block at `base`.
pub open spec fn march_veto_written(
    rom: Seq<u8>,
    base: int,
    w8: Seq<(usize, Pos)>,
    plants: Seq<(usize, Pos)>,
) -> Seq<u8> {
    let cpu = prg011_cpu(base);
    let lists = veto_lists(w8, plants);
    let r1 = spliced(rom, base, veto_routine(cpu));
    let r2 = spliced(r1, base + ROUTINE_LEN, veto_offsets(lists));
    let r3 = spliced(r2, base + ROUTINE_LEN + OFFSETS_LEN, veto_list_bytes(lists));
    spliced(r3, MARCH_VETO_HOOK as int, seq![0x20u8, (cpu % 256) as u8, (cpu / 256) as u8])
}

/// The list of world `w`, built in the order the registry specifies.
fn build_world_list(w8_positions: &[(usize, Pos)], plant_positions: &[(usize, Pos)], w: usize) -> (l:
    Vec<u16>)
    requires
        positions_ok(w8_positions@, plant_positions@),
    ensures
        l@ == world_list(w8_positions@, plant_positions@, w as int),
        strictly_sorted(l@),
{
    let mut l: Vec<u16> = Vec::new();
    if w == 7 {
        let mut i: usize = 0;
        while i < w8_positions.len()
            invariant
                i <= w8_positions@.len(),
                positions_ok(w8_positions@, plant_positions@),
                l@ == fold_addrs(Seq::empty(), w8_positions@.take(i as int), 7, true),
                strictly_sorted(l@),
            decreases w8_positions@.len() - i,
        {
            let (_, (row, col)) = w8_positions[i];
            let a = veto_addr(row, col);
            insert_unique(&mut l, a);
            assert(w8_positions@.take(i + 1).drop_last() =~= w8_positions@.take(i as int));
            i = i + 1;
        }
        assert(w8_positions@.take(w8_positions@.len() as int) =~= w8_positions@);
    }
    let ghost army = l@;
    let mut i: usize = 0;
    while i < plant_positions.len()
        invariant
            i <= plant_positions@.len(),
            positions_ok(w8_positions@, plant_positions@),
            l@ == fold_addrs(army, plant_positions@.take(i as int), w as int, false),
            strictly_sorted(l@),
        decreases plant_positions@.len() - i,
    {
        let (wi, (row, col)) = plant_positions[i];
        if wi == w {
            let a = veto_addr(row, col);
            insert_unique(&mut l, a);
        }
        assert(plant_positions@.take(i + 1).drop_last() =~= plant_positions@.take(i as int));
        i = i + 1;
    }
    assert(plant_positions@.take(plant_positions@.len() as int) =~= plant_positions@);
    l
}

proof fn lemma_list_upto_grows(lists: Seq<Seq<u16>>, v: int, w: int)
    requires
        0 <= v <= w,
    ensures
        list_upto(lists, v).len() <= list_upto(lists, w).len(),
    decreases w,
{
    if v < w {
        lemma_list_upto_grows(lists, v, w - 1);
    }
}

/// Whether the registry list of these positions fits its 40-byte block, the
/// condition under which `write_march_veto` may be called.
pub fn march_veto_fits(w8_positions: &[(usize, Pos)], plant_positions: &[(usize, Pos)]) -> (ok:
    bool)
    requires
        positions_ok(w8_positions@, plant_positions@),
    ensures
        ok == (list_upto(veto_lists(w8_positions@, plant_positions@), 8).len() <= LIST_LEN),
{
    let ghost lists = veto_lists(w8_positions@, plant_positions@);
    let mut total: usize = 0;
    let mut w: usize = 0;
    while w < 8
        invariant
            w <= 8,
            positions_ok(w8_positions@, plant_positions@),
            lists == veto_lists(w8_positions@, plant_positions@),
            total == list_upto(lists, w as int).len(),
            total <= LIST_LEN,
        decreases 8 - w,
    {
        let addrs = build_world_list(w8_positions, plant_positions, w);
        assert(addrs@ == lists[w as int]);
        proof {
            lemma_pairs_len(addrs@);
        }
        if addrs.len() > LIST_LEN {
            proof {
                lemma_list_upto_grows(lists, w + 1, 8);
            }
            return false;
        }
        let next = total + 2 * addrs.len() + 1;
        if next > LIST_LEN {
            proof {
                lemma_list_upto_grows(lists, w + 1, 8);
            }
            return false;
        }
        total = next;
        w = w + 1;
    }
    true
}

/// Write the march-veto hook, trampoline and per-world coordinate registry
/// into the PRG011 free-space block at `veto_base`.
///
/// `w8_positions` are army sprite placements (World 8 implied, the slot is
/// not used); `plant_positions` carry their own world index. The hand-trap
/// veto is always in force, even when no position is registered.
pub fn write_march_veto(
    rom: &mut Rom,
    veto_base: usize,
    w8_positions: &[(usize, Pos)],
    plant_positions: &[(usize, Pos)],
)
    requires
        positions_ok(w8_positions@, plant_positions@),
        list_upto(veto_lists(w8_positions@, plant_positions@), 8).len() <= LIST_LEN,
        PRG011_FILE_BASE <= veto_base,
        veto_base + ROUTINE_LEN + OFFSETS_LEN + LIST_LEN <= PRG011_FILE_BASE + 0x2000,
        veto_base + ROUTINE_LEN + OFFSETS_LEN + LIST_LEN <= old(rom)@.len(),
        MARCH_VETO_HOOK + 3 <= old(rom)@.len(),
        old(rom)@.subrange(MARCH_VETO_HOOK as int, MARCH_VETO_HOOK + 3) == DISPLACED_JSR@,
    ensures
        final(rom)@ == march_veto_written(
            old(rom)@,
            veto_base as int,
            w8_positions@,
            plant_positions@,
        ),
{
    let ghost lists = veto_lists(w8_positions@, plant_positions@);
    let mut offsets = [0u8; 8];
    let mut list: Vec<u8> = Vec::new();
    let mut w: usize = 0;
    while w < 8
        invariant
            w <= 8,
            positions_ok(w8_positions@, plant_positions@),
            lists == veto_lists(w8_positions@, plant_positions@),
            list_upto(lists, 8).len() <= LIST_LEN,
            list@ == list_upto(lists, w as int),
            forall|v: int| 0 <= v < w ==> #[trigger] offsets@[v] == list_upto(lists, v).len() as u8,
        decreases 8 - w,
    {
        let addrs = build_world_list(w8_positions, plant_positions, w);
        assert(addrs@ == lists[w as int]);
        proof {
            lemma_list_upto_grows(lists, w as int, 8);
            lemma_list_upto_grows(lists, w + 1, 8);
        }
        offsets[w] = list.len() as u8;
        let mut k: usize = 0;
        while k < addrs.len()
            invariant
                k <= addrs@.len(),
                addrs@ == lists[w as int],
                list@ == list_upto(lists, w as int) + addr_pairs(addrs@.take(k as int)),
                list_upto(lists, w + 1).len() <= LIST_LEN,
            decreases addrs@.len() - k,
        {
            let addr = addrs[k];
            proof {
                assert(addrs@.take(k + 1).drop_last() =~= addrs@.take(k as int));
                lemma_pairs_prefix_len(addrs@, k as int);
            }
            list.push((addr >> 8) as u8);
            list.push((addr & 0xFF) as u8);
            proof {
                lemma_word_bytes(addr);
            }
            k = k + 1;
            assert(list@ =~= list_upto(lists, w as int) + addr_pairs(addrs@.take(k as int)));
        }
        assert(addrs@.take(addrs@.len() as int) =~= addrs@);
        list.push(0x00);
        w = w + 1;
        assert(list@ =~= list_upto(lists, w as int));
    }
    list.resize(LIST_LEN, 0x00);
    assert(list@ =~= veto_list_bytes(lists));
    assert(offsets@ =~= veto_offsets(lists));

    let base_cpu = (veto_base - PRG011_FILE_BASE + 0xA000) as u16;
    let loop_cpu = base_cpu + LOOP_OFF as u16;
    let offsets_cpu = base_cpu + ROUTINE_LEN as u16;
    let list_cpu = offsets_cpu + OFFSETS_LEN as u16;
    let list1 = list_cpu + 1;
    let routine: [u8; 59] = [
        DISPLACED_JSR[0], DISPLACED_JSR[1], DISPLACED_JSR[2],
        0xA4, 0x02,
        0xB1, 0x63,
        0xC9, HAND_TRAP_TILE,
        0xF0, (REJECT_OFF - 11) as u8,
        0xA5, 0x63,
        0x18,
        0x65, 0x02,
        0x85, 0x0E,
        0xA5, 0x64,
        0x69, 0x00,
        0x85, 0x0F,
        0xAE, 0x27, 0x07,
        0xBC, lo(offsets_cpu), hi(offsets_cpu),
        0xB9, lo(list_cpu), hi(list_cpu),
        0xF0, (ACCEPT_OFF - 35) as u8,
        0xC5, 0x0F,
        0xD0, 0x09,
        0xB9, lo(list1), hi(list1),
        0xC5, 0x0E,
        0xD0, 0x02,
        0xF0, (REJECT_OFF - 48) as u8,
        0xC8,
        0xC8,
        0x4C, lo(loop_cpu), hi(loop_cpu),
        0x60,
        0x68,
        0x68,
        0x4C, lo(RETRY_PICK_CPU), hi(RETRY_PICK_CPU),
    ];
    assert(routine@ =~= veto_routine(base_cpu));
    rom.write_range(veto_base, routine.as_slice());
    rom.write_range(veto_base + ROUTINE_LEN, offsets.as_slice());
    rom.write_range(veto_base + ROUTINE_LEN + OFFSETS_LEN, list.as_slice());
    let jsr = [0x20u8, lo(base_cpu), hi(base_cpu)];
    rom.write_range(MARCH_VETO_HOOK, jsr.as_slice());
}

/// Low byte of a CPU address.
fn lo(a: u16) -> (b: u8)
    ensures
        b == (a % 256) as u8,
{
    let b = (a & 0xFF) as u8;
    proof {
        lemma_word_bytes(a);
    }
    b
}

/// High byte of a CPU address.
fn hi(a: u16) -> (b: u8)
    ensures
        b == (a / 256) as u8,
{
    let b = (a >> 8) as u8;
    proof {
        lemma_word_bytes(a);
    }
    b
}

proof fn lemma_pairs_prefix_len(l: Seq<u16>, k: int)
    requires
        0 <= k <= l.len(),
    ensures
        addr_pairs(l.take(k)).len() == 2 * k,
        addr_pairs(l.take(k)).len() <= addr_pairs(l).len(),
    decreases l.len(),
{
    lemma_pairs_len(l.take(k));
    lemma_pairs_len(l);
}

proof fn lemma_pairs_len(l: Seq<u16>)
    ensures
        addr_pairs(l).len() == 2 * l.len(),
    decreases l.len(),
{
    if l.len() > 0 {
        lemma_pairs_len(l.drop_last());
    }
}

/// Position `i` of `ps` adds `a` to world `w`'s list.
pub open spec fn adds(ps: Seq<(usize, Pos)>, i: int, w: int, any_world: bool, a: u16) -> bool {
    (any_world || ps[i].0 == w) && a == spec_veto_addr(ps[i].1.0 as int, ps[i].1.1 as int)
}

proof fn lemma_fold_addrs(l: Seq<u16>, ps: Seq<(usize, Pos)>, w: int, any_world: bool)
    requires
        strictly_sorted(l),
    ensures
        strictly_sorted(fold_addrs(l, ps, w, any_world)),
        forall|a: u16|
            #[trigger] fold_addrs(l, ps, w, any_world).contains(a) <==> (l.contains(a) || exists|i: int|
                0 <= i < ps.len() && adds(ps, i, w, any_world, a)),
    decreases ps.len(),
{
    if ps.len() > 0 {
        let t = ps.drop_last();
        lemma_fold_addrs(l, t, w, any_world);
        let prev = fold_addrs(l, t, w, any_world);
        let (pw, p) = ps.last();
        let x = spec_veto_addr(p.0 as int, p.1 as int);
        if any_world || pw == w {
            lemma_ins_unique(prev, x);
        }
        assert forall|a: u16|
            #[trigger] fold_addrs(l, ps, w, any_world).contains(a) <==> (l.contains(a) || exists|i: int|
                0 <= i < ps.len() && adds(ps, i, w, any_world, a)) by {
            let r = fold_addrs(l, ps, w, any_world);
            assert(r == if any_world || pw == w { ins_unique(prev, x) } else { prev });
            assert(prev.contains(a) <==> (l.contains(a) || exists|i: int|
                0 <= i < t.len() && adds(t, i, w, any_world, a)));
            if any_world || pw == w {
                assert(ins_unique(prev, x).contains(a) <==> (prev.contains(a) || a == x));
            }
            assert(adds(ps, ps.len() - 1, w, any_world, a) <==> ((any_world || pw == w) && a == x));
            if exists|i: int| 0 <= i < t.len() && adds(t, i, w, any_world, a) {
                let i = choose|i: int| 0 <= i < t.len() && adds(t, i, w, any_world, a);
                assert(adds(ps, i, w, any_world, a));
            }
            if exists|i: int| 0 <= i < ps.len() && adds(ps, i, w, any_world, a) {
                let i = choose|i: int| 0 <= i < ps.len() && adds(ps, i, w, any_world, a);
                if i < t.len() {
                    assert(adds(t, i, w, any_world, a));
                }
            }
        }
    }
}

/// Each world's registry list is strictly increasing (sorted, no
/// duplicates) and holds exactly the addresses of that world's positions:
/// the army positions for World 8, and the plant positions tagged with the
/// world.
pub proof fn lemma_world_list_exact(w8: Seq<(usize, Pos)>, plants: Seq<(usize, Pos)>, w: int)
    ensures
        strictly_sorted(world_list(w8, plants, w)),
        forall|a: u16|
            #[trigger] world_list(w8, plants, w).contains(a) <==> ((w == 7 && exists|i: int|
                0 <= i < w8.len() && adds(w8, i, 7, true, a)) || exists|i: int|
                0 <= i < plants.len() && adds(plants, i, w, false, a)),
{
    let e = Seq::<u16>::empty();
    lemma_fold_addrs(e, w8, 7, true);
    let army = if w == 7 { fold_addrs(e, w8, 7, true) } else { e };
    lemma_fold_addrs(army, plants, w, false);
}

/// The addresses the engine reads from byte `i` on: (hi, lo) pairs until a
/// $00 high byte (or the end of the bytes).
pub open spec fn read_pairs(b: Seq<u8>, i: int) -> Seq<u16>
    decreases b.len() - i,
{
    if 0 <= i && i + 1 < b.len() && b[i] != 0 {
        seq![(b[i] as int * 256 + b[i + 1] as int) as u16] + read_pairs(b, i + 2)
    } else {
        Seq::empty()
    }
}

proof fn lemma_addr_pairs_front(l: Seq<u16>)
    ensures
        addr_pairs(l).len() == 2 * l.len(),
        l.len() > 0 ==> addr_pairs(l) == seq![(l[0] / 256) as u8, (l[0] % 256) as u8] + addr_pairs(l.drop_first()),
    decreases l.len(),
{
    if l.len() > 0 {
        lemma_addr_pairs_front(l.drop_last());
        if l.len() > 1 {
            assert(l.drop_last().drop_first() =~= l.drop_first().drop_last());
            assert(l.drop_first().last() == l.last());
            assert(l.drop_last()[0] == l[0]);
            lemma_addr_pairs_front(l.drop_first());
            assert(addr_pairs(l) =~= seq![(l[0] / 256) as u8, (l[0] % 256) as u8] + addr_pairs(l.drop_first()));
        } else {
            assert(l.drop_last() =~= Seq::<u16>::empty());
            assert(l.drop_first() =~= Seq::<u16>::empty());
            assert(addr_pairs(l) =~= seq![(l[0] / 256) as u8, (l[0] % 256) as u8] + addr_pairs(l.drop_first()));
        }
    }
}

/// Bytes holding a list's pairs and then a $00 read back as the list, when
/// no address has a $00 high byte.
proof fn lemma_read_pairs(b: Seq<u8>, s: int, l: Seq<u16>)
    requires
        0 <= s,
        s + 2 * l.len() + 1 <= b.len(),
        forall|k: int| 0 <= k < 2 * l.len() ==> b[s + k] == #[trigger] addr_pairs(l)[k],
        b[s + 2 * l.len()] == 0,
        forall|k: int| 0 <= k < l.len() ==> #[trigger] l[k] >= 256,
    ensures
        read_pairs(b, s) == l,
    decreases l.len(),
{
    lemma_addr_pairs_front(l);
    if l.len() > 0 {
        let t = l.drop_first();
        let x = l[0];
        assert(b[s] == addr_pairs(l)[0]);
        assert(b[s + 1] == addr_pairs(l)[1]);
        assert(b[s] == (x / 256) as u8 && b[s + 1] == (x % 256) as u8);
        assert(x >= 256);
        assert(b[s] != 0);
        assert((b[s] as int * 256 + b[s + 1] as int) as u16 == x);
        lemma_addr_pairs_front(t);
        assert forall|k: int| 0 <= k < 2 * t.len() implies b[s + 2 + k] == #[trigger] addr_pairs(t)[k] by {
            assert(addr_pairs(l)[k + 2] == addr_pairs(t)[k]);
        }
        assert forall|k: int| 0 <= k < t.len() implies #[trigger] t[k] >= 256 by {
            assert(t[k] == l[k + 1]);
        }
        lemma_read_pairs(b, s + 2, t);
        assert(read_pairs(b, s) =~= seq![x] + t);
        assert(seq![x] + t =~= l);
    }
}

proof fn lemma_list_upto_prefix(lists: Seq<Seq<u16>>, w: int, m: int)
    requires
        0 <= w <= m,
    ensures
        list_upto(lists, w).len() <= list_upto(lists, m).len(),
        forall|k: int| 0 <= k < list_upto(lists, w).len() ==> #[trigger] list_upto(lists, m)[k] == list_upto(lists, w)[k],
    decreases m - w,
{
    if m > w {
        lemma_list_upto_prefix(lists, w, m - 1);
    }
}

/// The registry reads back: starting at world `w`'s offset, the engine's
/// read of the list gives exactly world `w`'s addresses, when every
/// position lies on a four-screen map and the block stays clear of the hook
/// site.
pub proof fn lemma_registry_reads_back(
    rom: Seq<u8>,
    base: int,
    w8: Seq<(usize, Pos)>,
    plants: Seq<(usize, Pos)>,
    w: int,
)
    requires
        0 <= w < 8,
        forall|i: int| 0 <= i < w8.len() ==> (#[trigger] w8[i]).1.0 < 10 && w8[i].1.1 < 64,
        forall|i: int| 0 <= i < plants.len() ==> (#[trigger] plants[i]).1.0 < 10 && plants[i].1.1 < 64,
        list_upto(veto_lists(w8, plants), 8).len() <= LIST_LEN,
        0 <= base,
        base + ROUTINE_LEN + OFFSETS_LEN + LIST_LEN <= rom.len(),
        MARCH_VETO_HOOK + 3 <= rom.len(),
        MARCH_VETO_HOOK + 3 <= base || base + ROUTINE_LEN + OFFSETS_LEN + LIST_LEN <= MARCH_VETO_HOOK,
    ensures
        ({
            let r = march_veto_written(rom, base, w8, plants);
            read_pairs(r, base + ROUTINE_LEN + OFFSETS_LEN + r[base + ROUTINE_LEN + w]) == world_list(
                w8,
                plants,
                w,
            )
        }),
{
    let lists = veto_lists(w8, plants);
    let r = march_veto_written(rom, base, w8, plants);
    let l = lists[w];
    let list = list_upto(lists, 8);
    let start = list_upto(lists, w).len() as int;
    let lbase = base + ROUTINE_LEN + OFFSETS_LEN;
    lemma_list_upto_prefix(lists, w, 8);
    lemma_list_upto_prefix(lists, w + 1, 8);
    lemma_addr_pairs_front(l);
    assert(list_upto(lists, w + 1) == list_upto(lists, w) + addr_pairs(l) + seq![0u8]);
    assert(r[base + ROUTINE_LEN + w] == veto_offsets(lists)[w]);
    assert(start < 256);
    assert(r[base + ROUTINE_LEN + w] == start);
    assert forall|k: int| 0 <= k < list.len() implies r[lbase + k] == #[trigger] list[k] by {
        assert(veto_list_bytes(lists)[k] == list[k]);
    }
    assert forall|k: int| 0 <= k < 2 * l.len() implies r[lbase + start + k] == #[trigger] addr_pairs(l)[k] by {
        assert(list_upto(lists, w + 1)[start + k] == addr_pairs(l)[k]);
        assert(list[start + k] == list_upto(lists, w + 1)[start + k]);
        assert(r[lbase + (start + k)] == list[start + k]);
    }
    assert(list_upto(lists, w + 1)[start + 2 * l.len()] == 0);
    assert(r[lbase + (start + 2 * l.len())] == list[start + 2 * l.len()]);
    lemma_world_list_exact(w8, plants, w);
    assert forall|k: int| 0 <= k < l.len() implies #[trigger] l[k] >= 256 by {
        let a = l[k];
        assert(world_list(w8, plants, w).contains(a));
        if w == 7 && exists|i: int| 0 <= i < w8.len() && adds(w8, i, 7, true, a) {
            let i = choose|i: int| 0 <= i < w8.len() && adds(w8, i, 7, true, a);
            lemma_veto_addr_distinct(w8[i].1.0 as int, w8[i].1.1 as int, w8[i].1.0 as int, w8[i].1.1 as int);
        } else {
            let i = choose|i: int| 0 <= i < plants.len() && adds(plants, i, w, false, a);
            lemma_veto_addr_distinct(
                plants[i].1.0 as int,
                plants[i].1.1 as int,
                plants[i].1.0 as int,
                plants[i].1.1 as int,
            );
        }
    }
    lemma_read_pairs(r, lbase + start, l);
}

} // verus!
