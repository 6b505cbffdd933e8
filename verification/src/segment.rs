//! Enemy/object segments: a page byte followed by three-byte entries
//! `(object id, x, y)`, kept in ascending X order in the ROM.
use vstd::prelude::*;
use crate::rom::{Rom, spliced};
use crate::sorting::{SortKey, lemma_sort_by_key, sort_by_key, stable_sort};

verus! {

/// One placed object of a segment.
#[derive(Clone, Copy, Debug, PartialEq, Eq, Structural)]
pub struct SegmentEntry {
    pub obj_id: u8,
    pub x: u8,
    pub y: u8,
}

/// Why a segment write was refused.
#[derive(Clone, Copy, Debug, PartialEq, Eq, Structural)]
pub enum SegmentError {
    /// The number of entries differs from the number the segment holds.
    CountMismatch,
}

impl SortKey for SegmentEntry {
    open spec fn spec_key(&self) -> int {
        self.x as int
    }

    fn sort_key(&self) -> (k: u32) {
        self.x as u32
    }
}

/// The three stream bytes of an entry.
pub open spec fn entry_bytes(e: SegmentEntry) -> Seq<u8> {
    seq![e.obj_id, e.x, e.y]
}

/// The byte stream of a list of entries.
pub open spec fn entries_bytes(s: Seq<SegmentEntry>) -> Seq<u8>
    decreases s.len(),
{
    if s.len() == 0 {
        Seq::empty()
    } else {
        entries_bytes(s.drop_last()) + entry_bytes(s.last())
    }
}

/// The entry stored at index `i` of the segment whose page byte is at `off`.
pub open spec fn entry_at(rom: Seq<u8>, off: int, i: int) -> SegmentEntry {
    SegmentEntry {
        obj_id: rom[off + 1 + 3 * i],
        x: rom[off + 1 + 3 * i + 1],
        y: rom[off + 1 + 3 * i + 2],
    }
}

pub proof fn lemma_entries_bytes_len(s: Seq<SegmentEntry>)
    ensures
        entries_bytes(s).len() == 3 * s.len(),
    decreases s.len(),
{
    if s.len() > 0 {
        lemma_entries_bytes_len(s.drop_last());
    }
}

pub proof fn lemma_entries_bytes_index(s: Seq<SegmentEntry>, i: int)
    requires
        0 <= i < s.len(),
    ensures
        entries_bytes(s)[3 * i] == s[i].obj_id,
        entries_bytes(s)[3 * i + 1] == s[i].x,
        entries_bytes(s)[3 * i + 2] == s[i].y,
    decreases s.len(),
{
    lemma_entries_bytes_len(s.drop_last());
    if i < s.len() - 1 {
        lemma_entries_bytes_index(s.drop_last(), i);
    }
}

/// Read the `count` entries of the segment whose page byte is at `off`.
pub fn read_segment(rom: &Rom, off: usize, count: usize) -> (r: Vec<SegmentEntry>)
    requires
        off + 1 + 3 * count <= rom@.len(),
    ensures
        r@ == Seq::new(count as nat, |i: int| entry_at(rom@, off as int, i)),
{
    let total = rom.len();
    let mut r: Vec<SegmentEntry> = Vec::new();
    let mut i: usize = 0;
    while i < count
        invariant
            i <= count,
            total == rom@.len(),
            off + 1 + 3 * count <= rom@.len(),
            r@ == Seq::new(i as nat, |k: int| entry_at(rom@, off as int, k)),
        decreases count - i,
    {
        let base = off + 1 + 3 * i;
        let e = SegmentEntry {
            obj_id: rom.read_byte(base),
            x: rom.read_byte(base + 1),
            y: rom.read_byte(base + 2),
        };
        r.push(e);
        i = i + 1;
        assert(r@ =~= Seq::new(i as nat, |k: int| entry_at(rom@, off as int, k)));
    }
    r
}

/// Serialize a list of entries into its byte stream.
fn encode_entries(entries: &Vec<SegmentEntry>) -> (bytes: Vec<u8>)
    ensures
        bytes@ == entries_bytes(entries@),
{
    let mut bytes: Vec<u8> = Vec::new();
    let mut i: usize = 0;
    while i < entries.len()
        invariant
            i <= entries@.len(),
            bytes@ == entries_bytes(entries@.take(i as int)),
        decreases entries@.len() - i,
    {
        let e = entries[i];
        bytes.push(e.obj_id);
        bytes.push(e.x);
        bytes.push(e.y);
        assert(entries@.take(i + 1).drop_last() =~= entries@.take(i as int));
        i = i + 1;
        assert(bytes@ =~= entries_bytes(entries@.take(i as int)));
    }
    assert(entries@.take(entries@.len() as int) =~= entries@);
    bytes
}

/// Replace the entries of the segment whose page byte is at `off` with
/// `entries`, stored in ascending X order (stable). The segment keeps its
/// size: a list of a different length than `original_count` is refused and
/// nothing is written.
pub fn write_segment(
    rom: &mut Rom,
    off: usize,
    original_count: usize,
    entries: &[SegmentEntry],
) -> (r: Result<(), SegmentError>)
    requires
        off + 1 + 3 * original_count <= old(rom)@.len(),
    ensures
        r is Err <==> entries@.len() != original_count,
        r is Err ==> final(rom)@ == old(rom)@,
        r is Ok ==> final(rom)@ == spliced(
            old(rom)@,
            off + 1,
            entries_bytes(sort_by_key(entries@)),
        ),
{
    let _total = rom.len();
    if entries.len() != original_count {
        return Err(SegmentError::CountMismatch);
    }
    let mut sorted: Vec<SegmentEntry> = Vec::new();
    let mut i: usize = 0;
    while i < entries.len()
        invariant
            i <= entries@.len(),
            sorted@ == entries@.take(i as int),
        decreases entries@.len() - i,
    {
        sorted.push(entries[i]);
        i = i + 1;
        assert(sorted@ =~= entries@.take(i as int));
    }
    assert(entries@.take(entries@.len() as int) =~= entries@);
    stable_sort(&mut sorted);
    let bytes = encode_entries(&sorted);
    proof {
        lemma_sort_by_key(entries@);
        lemma_entries_bytes_len(sorted@);
    }
    rom.write_range(off + 1, bytes.as_slice());
    Ok(())
}

/// Reading a segment back after writing `entries` yields the entries in
/// ascending X order (stable).
pub proof fn lemma_write_then_read(rom: Seq<u8>, off: int, entries: Seq<SegmentEntry>)
    requires
        0 <= off,
        off + 1 + 3 * entries.len() <= rom.len(),
    ensures
        Seq::new(
            entries.len(),
            |i: int| entry_at(spliced(rom, off + 1, entries_bytes(sort_by_key(entries))), off, i),
        ) == sort_by_key(entries),
{
    let sorted = sort_by_key(entries);
    lemma_sort_by_key(entries);
    lemma_entries_bytes_len(sorted);
    let r = spliced(rom, off + 1, entries_bytes(sorted));
    assert forall|i: int| 0 <= i < entries.len() implies #[trigger] entry_at(r, off, i) == sorted[i] by {
        lemma_entries_bytes_index(sorted, i);
    }
    assert(Seq::new(entries.len(), |i: int| entry_at(r, off, i)) =~= sorted);
}

} // verus!
