//! The lava corridor of the second World 5 fortress (sub-area 1, 26
//! entries): every podoboo and ceiling podoboo is jittered per seed while
//! the Dry Bones and Boos keep their places.
//!
//! Each podoboo moves at most four tiles in X, never closer than two tiles
//! to its neighbours, and one to two rows in Y within its own page (ceiling
//! podoboos stay on page 0, the others on page 1).
use vstd::prelude::*;
use crate::rng::{random_i16_in, random_u8_in};
use rand_chacha::ChaCha8Rng;
use crate::rom::{Rom, spliced};
use crate::segment::{SegmentEntry, entries_bytes, write_segment};
use crate::sorting::{insert_by_key, key_sorted, lemma_sort_by_key_sorted, sort_by_key, stable_sort};

verus! {

/// File offset of the segment's page byte.
pub const SEG_OFFSET: usize = 0xD2C9;
/// Number of entries in the segment.
pub const ENTRY_COUNT: usize = 26;

pub const PODOBOO: u8 = 0x9E;
pub const CEILING_PODOBOO: u8 = 0x53;

/// X bounds of the eight-screen sub-area.
pub const SEG_X_MIN: u8 = 0x02;
pub const SEG_X_MAX: u8 = 0x7D;

/// Smallest X distance between neighbouring entries.
pub const MIN_X_GAP: u8 = 2;

/// How far a podoboo may move from its vanilla X.
pub const X_JITTER_RADIUS: u8 = 4;

/// The vanilla layout, in its ROM order (one inversion: a Boo at 0x6F
/// precedes a podoboo at 0x6A).
#[verifier::opaque]
pub open spec fn vanilla_layout() -> Seq<SegmentEntry> {
    seq![
        SegmentEntry { obj_id: PODOBOO, x: 0x06, y: 0x17 },
        SegmentEntry { obj_id: PODOBOO, x: 0x0B, y: 0x15 },
        SegmentEntry { obj_id: PODOBOO, x: 0x0D, y: 0x11 },
        SegmentEntry { obj_id: CEILING_PODOBOO, x: 0x12, y: 0x0F },
        SegmentEntry { obj_id: CEILING_PODOBOO, x: 0x18, y: 0x0F },
        SegmentEntry { obj_id: PODOBOO, x: 0x1E, y: 0x12 },
        SegmentEntry { obj_id: PODOBOO, x: 0x24, y: 0x16 },
        SegmentEntry { obj_id: 0x3F, x: 0x28, y: 0x17 },
        SegmentEntry { obj_id: PODOBOO, x: 0x2C, y: 0x15 },
        SegmentEntry { obj_id: PODOBOO, x: 0x2E, y: 0x11 },
        SegmentEntry { obj_id: PODOBOO, x: 0x32, y: 0x11 },
        SegmentEntry { obj_id: PODOBOO, x: 0x36, y: 0x12 },
        SegmentEntry { obj_id: CEILING_PODOBOO, x: 0x3A, y: 0x0F },
        SegmentEntry { obj_id: 0x65, x: 0x47, y: 0x17 },
        SegmentEntry { obj_id: PODOBOO, x: 0x4B, y: 0x14 },
        SegmentEntry { obj_id: PODOBOO, x: 0x4E, y: 0x17 },
        SegmentEntry { obj_id: PODOBOO, x: 0x51, y: 0x14 },
        SegmentEntry { obj_id: CEILING_PODOBOO, x: 0x56, y: 0x0F },
        SegmentEntry { obj_id: CEILING_PODOBOO, x: 0x5E, y: 0x0F },
        SegmentEntry { obj_id: PODOBOO, x: 0x63, y: 0x11 },
        SegmentEntry { obj_id: 0x65, x: 0x6F, y: 0x15 },
        SegmentEntry { obj_id: PODOBOO, x: 0x6A, y: 0x10 },
        SegmentEntry { obj_id: PODOBOO, x: 0x71, y: 0x12 },
        SegmentEntry { obj_id: PODOBOO, x: 0x78, y: 0x13 },
        SegmentEntry { obj_id: CEILING_PODOBOO, x: 0x79, y: 0x0F },
        SegmentEntry { obj_id: 0x3F, x: 0x7E, y: 0x17 }
    ]
}

/// The vanilla layout in ascending X order.
#[verifier::opaque]
pub open spec fn sorted_layout() -> Seq<SegmentEntry> {
    let v = vanilla_layout();
    v.take(20).push(v[21]).push(v[20]) + v.skip(22)
}

pub open spec fn spec_is_target(obj_id: u8) -> bool {
    obj_id == PODOBOO || obj_id == CEILING_PODOBOO
}

pub open spec fn min_int(a: int, b: int) -> int {
    if a <= b { a } else { b }
}

pub open spec fn max_int(a: int, b: int) -> int {
    if a >= b { a } else { b }
}

/// X of the entry after `i`, or the right edge past the last one.
pub open spec fn next_x(s: Seq<SegmentEntry>, i: int) -> int {
    if i + 1 < s.len() { s[i + 1].x as int } else { 0x7F }
}

/// The largest X entry `i` can end up at.
pub open spec fn cap_at(s: Seq<SegmentEntry>, i: int) -> int {
    if spec_is_target(s[i].obj_id) {
        min_int(
            min_int(max_int(next_x(s, i) - 2, 0), min_int(s[i].x + 4, 255)),
            SEG_X_MAX as int,
        )
    } else {
        s[i].x as int
    }
}

/// The smallest X a podoboo at `x` may take after a neighbour at `prev`.
pub open spec fn low_x(prev: int, x: int) -> int {
    max_int(max_int(min_int(prev + 2, 255), max_int(x - 4, 0)), SEG_X_MIN as int)
}

/// Entry `i` always has room, whatever its left neighbour picked.
pub open spec fn room_at(s: Seq<SegmentEntry>, i: int) -> bool {
    if spec_is_target(s[i].obj_id) {
        low_x(if i == 0 { 0 } else { cap_at(s, i - 1) }, s[i].x as int) <= cap_at(s, i)
    } else {
        i == 0 || cap_at(s, i - 1) + 2 <= s[i].x
    }
}

/// `e` is a legal jitter of the vanilla entry `v`.
pub open spec fn jittered_entry(e: SegmentEntry, v: SegmentEntry) -> bool {
    if spec_is_target(v.obj_id) {
        &&& e.obj_id == v.obj_id
        &&& SEG_X_MIN <= e.x <= SEG_X_MAX
        &&& v.x - 4 <= e.x <= v.x + 4
        &&& e.y & 0xF0 == v.y & 0xF0
        &&& (v.y & 0x0F) - 2 <= (e.y & 0x0F) <= (v.y & 0x0F) + 2
    } else {
        e == v
    }
}

/// `out` is a legal composition of the corridor: entry by entry a jitter of
/// the sorted vanilla layout, with X strictly ascending at least two tiles
/// apart, and every podoboo at least two tiles left of the vanilla entry
/// after it.
pub open spec fn composed(out: Seq<SegmentEntry>) -> bool {
    let s = sorted_layout();
    &&& out.len() == s.len()
    &&& forall|i: int| 0 <= i < out.len() ==> jittered_entry(#[trigger] out[i], s[i])
    &&& forall|i: int| 0 < i < out.len() ==> out[i - 1].x + MIN_X_GAP <= #[trigger] out[i].x
    &&& forall|i: int|
        0 <= i < out.len() - 1 && spec_is_target(s[i].obj_id) ==> (#[trigger] out[i]).x + MIN_X_GAP <= s[i + 1].x
}

/// Entries whose X positions are at least two apart, in order, are sorted
/// by X: the corridor written back reads in order.
pub proof fn lemma_gaps_sorted(out: Seq<SegmentEntry>)
    requires
        forall|i: int| 0 < i < out.len() ==> out[i - 1].x + 2 <= #[trigger] out[i].x,
    ensures
        key_sorted(out),
    decreases out.len(),
{
    if out.len() > 0 {
        let t = out.drop_last();
        assert forall|i: int| 0 < i < t.len() implies t[i - 1].x + 2 <= #[trigger] t[i].x by {
            assert(out[i] == t[i]);
        }
        lemma_gaps_sorted(t);
        assert forall|i: int, j: int| 0 <= i <= j < out.len() implies out[i].x <= out[j].x by {
            if j == out.len() - 1 && i < j {
                assert(t[i].x <= t[j - 1].x);
                assert(out[j - 1].x + 2 <= out[j].x);
            } else if j < out.len() - 1 {
                assert(t[i].x <= t[j].x);
            }
        }
    }
}

proof fn lemma_sort_step(s: Seq<SegmentEntry>, k: int)
    requires
        0 < k <= s.len(),
    ensures
        sort_by_key(s.take(k)) == insert_by_key(sort_by_key(s.take(k - 1)), s[k - 1]),
{
    assert(s.take(k).drop_last() =~= s.take(k - 1));
}

/// Sorting the vanilla layout by X gives `sorted_layout`.
proof fn lemma_vanilla_sorts()
    ensures
        sort_by_key(vanilla_layout()) == sorted_layout(),
{
    reveal(vanilla_layout);
    reveal(sorted_layout);
    let v = vanilla_layout();
    let p = v.take(20);
    assert forall|k: int| 0 <= k < 19 implies p[k].x <= #[trigger] p[k + 1].x by {
        if k == 0 {} else if k == 1 {} else if k == 2 {} else if k == 3 {} else if k == 4 {} else if k == 5 {} else if k == 6 {} else if k == 7 {} else if k == 8 {} else if k == 9 {} else if k == 10 {} else if k == 11 {} else if k == 12 {} else if k == 13 {} else if k == 14 {} else if k == 15 {} else if k == 16 {} else if k == 17 {} else {}
    }
    assert forall|i: int| 0 < i < p.len() implies p[i - 1].x + 1 <= #[trigger] p[i].x by {
        assert(p[i - 1].x <= p[i].x);
        assert(p[i - 1].x != p[i].x) by {
            if i == 1 {} else if i == 2 {} else if i == 3 {} else if i == 4 {} else if i == 5 {} else if i == 6 {} else if i == 7 {} else if i == 8 {} else if i == 9 {} else if i == 10 {} else if i == 11 {} else if i == 12 {} else if i == 13 {} else if i == 14 {} else if i == 15 {} else if i == 16 {} else if i == 17 {} else if i == 18 {} else {}
        }
    }
    lemma_increasing_sorted(p);
    lemma_sort_by_key_sorted(p);
    lemma_sort_step(v, 21);
    assert(v.take(20).last().x <= v[20].x);
    lemma_sort_step(v, 22);
    let q = p.push(v[20]);
    assert(q.last().x > v[21].x);
    assert(q.drop_last() =~= p);
    assert(insert_by_key(q, v[21]) == insert_by_key(p, v[21]).push(v[20]));
    assert(p.last().x <= v[21].x);
    let r = p.push(v[21]).push(v[20]);
    lemma_sort_step(v, 23);
    assert(r.last().x <= v[22].x);
    lemma_sort_step(v, 24);
    assert(r.push(v[22]).last().x <= v[23].x);
    lemma_sort_step(v, 25);
    assert(r.push(v[22]).push(v[23]).last().x <= v[24].x);
    lemma_sort_step(v, 26);
    assert(r.push(v[22]).push(v[23]).push(v[24]).last().x <= v[25].x);
    assert(v.take(26) =~= v);
    assert(r.push(v[22]).push(v[23]).push(v[24]).push(v[25]) =~= sorted_layout());
}

proof fn lemma_increasing_sorted(s: Seq<SegmentEntry>)
    requires
        forall|i: int| 0 < i < s.len() ==> s[i - 1].x + 1 <= #[trigger] s[i].x,
    ensures
        key_sorted(s),
    decreases s.len(),
{
    if s.len() > 0 {
        let t = s.drop_last();
        assert forall|i: int| 0 < i < t.len() implies t[i - 1].x + 1 <= #[trigger] t[i].x by {
            assert(s[i] == t[i]);
        }
        lemma_increasing_sorted(t);
        assert forall|i: int, j: int| 0 <= i <= j < s.len() implies s[i].x <= s[j].x by {
            if j == s.len() - 1 && i < j {
                assert(t[i].x <= t[j - 1].x);
            } else if j < s.len() - 1 {
                assert(t[i].x <= t[j].x);
            }
        }
    }
}

/// Every entry of the sorted vanilla layout has room to move.
proof fn lemma_layout_has_room()
    ensures
        sorted_layout().len() == 26,
        forall|i: int| 0 <= i < sorted_layout().len() ==> room_at(sorted_layout(), i),
{
    reveal(vanilla_layout);
    reveal(sorted_layout);
    let s = sorted_layout();
    assert(s.len() == 26);
    assert forall|i: int| 0 <= i < s.len() implies room_at(s, i) by {
        if i == 0 {} else if i == 1 {} else if i == 2 {} else if i == 3 {} else if i == 4 {} else if i == 5 {} else if i == 6 {} else if i == 7 {} else if i == 8 {} else if i == 9 {} else if i == 10 {} else if i == 11 {} else if i == 12 {} else if i == 13 {} else if i == 14 {} else if i == 15 {} else if i == 16 {} else if i == 17 {} else if i == 18 {} else if i == 19 {} else if i == 20 {} else if i == 21 {} else if i == 22 {} else if i == 23 {} else if i == 24 {} else {}
    }
}

/// The vanilla layout as a vector.
pub fn vanilla() -> (v: Vec<SegmentEntry>)
    ensures
        v@ == vanilla_layout(),
{
    let v = vec![
        SegmentEntry { obj_id: PODOBOO, x: 0x06, y: 0x17 },
        SegmentEntry { obj_id: PODOBOO, x: 0x0B, y: 0x15 },
        SegmentEntry { obj_id: PODOBOO, x: 0x0D, y: 0x11 },
        SegmentEntry { obj_id: CEILING_PODOBOO, x: 0x12, y: 0x0F },
        SegmentEntry { obj_id: CEILING_PODOBOO, x: 0x18, y: 0x0F },
        SegmentEntry { obj_id: PODOBOO, x: 0x1E, y: 0x12 },
        SegmentEntry { obj_id: PODOBOO, x: 0x24, y: 0x16 },
        SegmentEntry { obj_id: 0x3F, x: 0x28, y: 0x17 }, // DryBones
        SegmentEntry { obj_id: PODOBOO, x: 0x2C, y: 0x15 },
        SegmentEntry { obj_id: PODOBOO, x: 0x2E, y: 0x11 },
        SegmentEntry { obj_id: PODOBOO, x: 0x32, y: 0x11 },
        SegmentEntry { obj_id: PODOBOO, x: 0x36, y: 0x12 },
        SegmentEntry { obj_id: CEILING_PODOBOO, x: 0x3A, y: 0x0F },
        SegmentEntry { obj_id: 0x65, x: 0x47, y: 0x17 }, // Boo
        SegmentEntry { obj_id: PODOBOO, x: 0x4B, y: 0x14 },
        SegmentEntry { obj_id: PODOBOO, x: 0x4E, y: 0x17 },
        SegmentEntry { obj_id: PODOBOO, x: 0x51, y: 0x14 },
        SegmentEntry { obj_id: CEILING_PODOBOO, x: 0x56, y: 0x0F },
        SegmentEntry { obj_id: CEILING_PODOBOO, x: 0x5E, y: 0x0F },
        SegmentEntry { obj_id: PODOBOO, x: 0x63, y: 0x11 },
        SegmentEntry { obj_id: 0x65, x: 0x6F, y: 0x15 }, // Boo
        SegmentEntry { obj_id: PODOBOO, x: 0x6A, y: 0x10 },
        SegmentEntry { obj_id: PODOBOO, x: 0x71, y: 0x12 },
        SegmentEntry { obj_id: PODOBOO, x: 0x78, y: 0x13 },
        SegmentEntry { obj_id: CEILING_PODOBOO, x: 0x79, y: 0x0F },
        SegmentEntry { obj_id: 0x3F, x: 0x7E, y: 0x17 }, // DryBones
    ];
    assert(v@ =~= vanilla_layout()) by {
        reveal(vanilla_layout);
    }
    v
}

/// Jitter every podoboo of the corridor and write the segment back in X
/// order; Dry Bones and Boos keep their vanilla X, Y and id.
#[verifier::rlimit(40)]
pub fn randomize(rom: &mut Rom, rng: &mut ChaCha8Rng)
    requires
        SEG_OFFSET + 1 + 3 * ENTRY_COUNT <= old(rom)@.len(),
    ensures
        exists|out: Seq<SegmentEntry>|
            composed(out) && final(rom)@ == spliced(
                old(rom)@,
                SEG_OFFSET + 1,
                entries_bytes(out),
            ),
{
    let mut sorted_vanilla = vanilla();
    stable_sort(&mut sorted_vanilla);
    proof {
        lemma_vanilla_sorts();
        lemma_layout_has_room();
    }
    let ghost s = sorted_layout();
    let n = sorted_vanilla.len();
    let mut out: Vec<SegmentEntry> = Vec::with_capacity(ENTRY_COUNT);
    let mut i: usize = 0;
    while i < n
        invariant
            n == s.len(),
            sorted_vanilla@ == s,
            s == sorted_layout(),
            forall|k: int| 0 <= k < s.len() ==> room_at(s, k),
            i <= n,
            out@.len() == i,
            forall|k: int| 0 <= k < i ==> jittered_entry(#[trigger] out@[k], s[k]),
            forall|k: int| 0 < k < i ==> out@[k - 1].x + MIN_X_GAP <= #[trigger] out@[k].x,
            i > 0 ==> out@[i - 1].x <= cap_at(s, i - 1),
            forall|k: int|
                0 <= k < i && k < n - 1 && spec_is_target(s[k].obj_id) ==> (#[trigger] out@[k]).x + MIN_X_GAP
                    <= s[k + 1].x,
        decreases n - i,
    {
        let entry = sorted_vanilla[i];
        let new_entry = if is_target(entry.obj_id) {
            let prev_x = if out.len() > 0 {
                out[out.len() - 1].x
            } else {
                SEG_X_MIN.saturating_sub(MIN_X_GAP)
            };
            let next_x = if i + 1 < n {
                sorted_vanilla[i + 1].x
            } else {
                SEG_X_MAX.saturating_add(MIN_X_GAP)
            };
            proof {
                assert(room_at(s, i as int));
            }
            let e = jitter_podoboo(entry, prev_x, next_x, rng);
            proof {
                if i + 1 < n {
                    assert(next_x == s[i + 1].x);
                    assert(SEG_X_MIN as int <= window_lo(prev_x, entry.x));
                    assert(e.x + MIN_X_GAP <= s[i + 1].x);
                }
            }
            e
        } else {
            entry
        };
        assert(i == 0 || out@[i - 1].x + MIN_X_GAP <= new_entry.x) by {
            if i > 0 {
                assert(out@[i - 1].x <= cap_at(s, i - 1));
                assert(room_at(s, i as int));
            }
        }
        out.push(new_entry);
        i = i + 1;
    }
    proof {
        lemma_gaps_sorted(out@);
        lemma_sort_by_key_sorted(out@);
        assert(composed(out@));
    }
    let written = write_segment(rom, SEG_OFFSET, ENTRY_COUNT, out.as_slice());
    assert(written is Ok);
}

/// The X window `[lo, hi]` a podoboo at `x` may move within, between a
/// left neighbour at `prev` and a right neighbour at `next`.
pub open spec fn window_lo(prev: u8, x: u8) -> int {
    max_int(max_int(min_int(prev + 2, 255), max_int(x - 4, 0)), SEG_X_MIN as int)
}

pub open spec fn window_hi(next: u8, x: u8) -> int {
    min_int(min_int(max_int(next - 2, 0), min_int(x + 4, 255)), SEG_X_MAX as int)
}

/// Move one podoboo: X uniformly within its window (kept as is when the
/// window is empty), Y by up to two rows within its page.
fn jitter_podoboo(entry: SegmentEntry, prev_x: u8, next_x: u8, rng: &mut ChaCha8Rng) -> (e:
    SegmentEntry)
    requires
        spec_is_target(entry.obj_id),
        window_lo(prev_x, entry.x) <= window_hi(next_x, entry.x),
    ensures
        e.obj_id == entry.obj_id,
        window_lo(prev_x, entry.x) <= e.x <= window_hi(next_x, entry.x),
        e.y & 0xF0 == entry.y & 0xF0,
        (entry.y & 0x0F) - 2 <= (e.y & 0x0F) <= (entry.y & 0x0F) + 2,
        exists|dy: int| -2 <= dy <= 2 && e == #[trigger] jittered(entry, e.x, dy),
{
    let lo = max_u8(
        max_u8(prev_x.saturating_add(MIN_X_GAP), entry.x.saturating_sub(X_JITTER_RADIUS)),
        SEG_X_MIN,
    );
    let hi = min_u8(
        min_u8(next_x.saturating_sub(MIN_X_GAP), entry.x.saturating_add(X_JITTER_RADIUS)),
        SEG_X_MAX,
    );
    let new_x = if hi >= lo {
        random_u8_in(rng, lo, hi)
    } else {
        entry.x
    };
    let dy = random_i16_in(rng, -2, 2);
    let e = jitter_entry(entry, new_x, dy);
    proof {
        let y = entry.y;
        assert((y & 0x0F) <= 15) by (bit_vector);
        assert(e == jittered(entry, e.x, dy as int));
    }
    e
}

/// The row `row` moved by `dy`, clamped to the page's sixteen rows.
pub open spec fn moved_row(row: int, dy: int) -> int {
    if row + dy < 0 {
        0
    } else if row + dy > 15 {
        15
    } else {
        row + dy
    }
}

/// A podoboo moved to column `new_x` and `dy` rows within its page.
pub open spec fn jittered(entry: SegmentEntry, new_x: u8, dy: int) -> SegmentEntry {
    SegmentEntry {
        obj_id: entry.obj_id,
        x: new_x,
        y: ((entry.y & 0xF0) | moved_row((entry.y & 0x0F) as int, dy) as u8) as u8,
    }
}

/// Place one podoboo at column `new_x` and move it `dy` rows, clamped to its
/// page: what the jitter does with its two draws.
pub fn jitter_entry(entry: SegmentEntry, new_x: u8, dy: i16) -> (e: SegmentEntry)
    ensures
        e == jittered(entry, new_x, dy as int),
        e.y & 0xF0 == entry.y & 0xF0,
        (e.y & 0x0F) as int == moved_row((entry.y & 0x0F) as int, dy as int),
{
    let y_page = entry.y & 0xF0;
    let old_row = (entry.y & 0x0F) as i32;
    let moved = old_row + dy as i32;
    let new_row: u8 = if moved < 0 {
        0
    } else if moved > 0x0F {
        0x0F
    } else {
        moved as u8
    };
    let new_y = y_page | new_row;
    proof {
        let y = entry.y;
        assert((y & 0x0F) <= 15) by (bit_vector);
        assert((y_page | new_row) & 0xF0 == y & 0xF0 && (y_page | new_row) & 0x0F == new_row)
            by (bit_vector)
            requires
                y_page == y & 0xF0,
                new_row <= 15,
        ;
    }
    SegmentEntry { obj_id: entry.obj_id, x: new_x, y: new_y }
}

/// A podoboo of either kind.
pub fn is_target(obj_id: u8) -> (b: bool)
    ensures
        b == spec_is_target(obj_id),
{
    obj_id == PODOBOO || obj_id == CEILING_PODOBOO
}

fn max_u8(a: u8, b: u8) -> (r: u8)
    ensures
        r == max_int(a as int, b as int),
{
    if a >= b { a } else { b }
}

fn min_u8(a: u8, b: u8) -> (r: u8)
    ensures
        r == min_int(a as int, b as int),
{
    if a <= b { a } else { b }
}

} // verus!
