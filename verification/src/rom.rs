//! The ROM image: a flat byte buffer addressed by file offset (iNES header
//! included), with bounds-checked reads and writes.
use vstd::prelude::*;

verus! {

/// `s` with `bytes` written over it starting at `off`; bytes outside the
/// buffer are dropped, and the length never changes.
pub open spec fn spliced(s: Seq<u8>, off: int, bytes: Seq<u8>) -> Seq<u8> {
    Seq::new(
        s.len(),
        |i: int|
            if off <= i && i < off + bytes.len() {
                bytes[i - off]
            } else {
                s[i]
            },
    )
}

/// Little-endian 16-bit word at `off`.
pub open spec fn word_at(s: Seq<u8>, off: int) -> int {
    s[off] as int + 256 * (s[off + 1] as int)
}

/// A ROM image held in memory.
pub struct Rom {
    data: Vec<u8>,
}

impl View for Rom {
    type V = Seq<u8>;

    closed spec fn view(&self) -> Seq<u8> {
        self.data@
    }
}

impl Rom {
    /// Wrap a byte buffer as a ROM image.
    pub fn from_vec(data: Vec<u8>) -> (rom: Rom)
        ensures
            rom@ == data@,
    {
        Rom { data }
    }

    /// Size of the image in bytes.
    pub fn len(&self) -> (n: usize)
        ensures
            n == self@.len(),
    {
        self.data.len()
    }

    /// The whole image.
    pub fn as_bytes(&self) -> (b: &[u8])
        ensures
            b@ == self@,
    {
        self.data.as_slice()
    }

    /// The byte at file offset `off`.
    pub fn read_byte(&self, off: usize) -> (b: u8)
        requires
            off < self@.len(),
        ensures
            b == self@[off as int],
    {
        self.data[off]
    }

    /// Overwrite the byte at file offset `off`.
    pub fn write_byte(&mut self, off: usize, b: u8)
        requires
            off < old(self)@.len(),
        ensures
            final(self)@ == old(self)@.update(off as int, b),
    {
        self.data.set(off, b);
    }

    /// The `len` bytes starting at `off`.
    pub fn read_range(&self, off: usize, len: usize) -> (r: &[u8])
        requires
            off + len <= self@.len(),
        ensures
            r@ == self@.subrange(off as int, off + len),
    {
        let _total = self.data.len();
        vstd::slice::slice_subrange(self.data.as_slice(), off, off + len)
    }

    /// Copy `bytes` into the image starting at `off`.
    pub fn write_range(&mut self, off: usize, bytes: &[u8])
        requires
            off + bytes@.len() <= old(self)@.len(),
        ensures
            final(self)@ == spliced(old(self)@, off as int, bytes@),
    {
        let n = bytes.len();
        let total = self.data.len();
        let mut i: usize = 0;
        while i < n
            invariant
                n == bytes@.len(),
                i <= n,
                off + n <= old(self)@.len(),
                total == old(self)@.len(),
                self@ == spliced(old(self)@, off as int, bytes@.take(i as int)),
            decreases n - i,
        {
            self.data.set(off + i, bytes[i]);
            i = i + 1;
            assert(self@ =~= spliced(old(self)@, off as int, bytes@.take(i as int)));
        }
        assert(bytes@.take(n as int) =~= bytes@);
    }

    /// The little-endian word at `off`.
    pub fn read_word(&self, off: usize) -> (w: u16)
        requires
            off + 1 < self@.len(),
        ensures
            w as int == word_at(self@, off as int),
    {
        let _total = self.data.len();
        let lo = self.data[off] as u16;
        let hi = self.data[off + 1] as u16;
        lo + hi * 256
    }
}

} // verus!
