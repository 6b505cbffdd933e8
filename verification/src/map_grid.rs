//! A world's overworld tile grid: rows of tiles held row by row, and where
//! each tile lies in the ROM (screens of 9 rows by 16 columns, one after
//! another).
use vstd::prelude::*;
use crate::rom::Rom;

verus! {

/// Rows of every world's map.
pub const MAP_ROWS: usize = 9;

/// Columns of one map screen.
pub const SCREEN_COLS: usize = 16;

/// Bytes of one map screen in the ROM.
pub const SCREEN_BYTES: usize = 144;

/// A grid position `(row, col)`.
pub type Cell = (usize, usize);

/// A tile grid, row by row.
pub struct Grid {
    pub rows: usize,
    pub cols: usize,
    pub tiles: Vec<u8>,
}

impl Grid {
    /// The tiles are exactly `rows * cols`.
    pub open spec fn wf(&self) -> bool {
        self.tiles@.len() == self.rows * self.cols
    }

    /// Index of `(r, c)` in the row-by-row tiles.
    pub open spec fn index(&self, r: int, c: int) -> int {
        r * self.cols + c
    }

    /// `(r, c)` lies on the grid.
    pub open spec fn contains(&self, r: int, c: int) -> bool {
        0 <= r < self.rows && 0 <= c < self.cols
    }

    /// The tile at `(r, c)`.
    pub open spec fn at(&self, r: int, c: int) -> u8 {
        self.tiles@[self.index(r, c)]
    }

    /// Index of an on-grid cell.
    pub fn cell(&self, r: usize, c: usize) -> (i: usize)
        requires
            self.wf(),
            r < self.rows,
            c < self.cols,
        ensures
            i == self.index(r as int, c as int),
            i < self.tiles@.len(),
    {
        let _n = self.tiles.len();
        proof {
            lemma_cell_in_grid(r as int, c as int, self.rows as int, self.cols as int);
        }
        r * self.cols + c
    }

    /// The tile at `(r, c)`.
    pub fn get(&self, r: usize, c: usize) -> (t: u8)
        requires
            self.wf(),
            r < self.rows,
            c < self.cols,
        ensures
            t == self.at(r as int, c as int),
    {
        let i = self.cell(r, c);
        self.tiles[i]
    }

    /// Put `t` at `(r, c)`.
    pub fn set(&mut self, r: usize, c: usize, t: u8)
        requires
            old(self).wf(),
            r < old(self).rows,
            c < old(self).cols,
        ensures
            final(self).rows == old(self).rows,
            final(self).cols == old(self).cols,
            final(self).tiles@ == old(self).tiles@.update(old(self).index(r as int, c as int), t),
            final(self).wf(),
    {
        let i = self.cell(r, c);
        self.tiles.set(i, t);
    }
}

/// `r * cols + c` lies inside a grid of `rows * cols` cells.
pub proof fn lemma_cell_in_grid(r: int, c: int, rows: int, cols: int)
    requires
        0 <= r < rows,
        0 <= c < cols,
    ensures
        0 <= r * cols + c < rows * cols,
{
    assert(r * cols + c < rows * cols) by (nonlinear_arith)
        requires
            0 <= r < rows,
            0 <= c < cols,
    ;
    assert(0 <= r * cols) by (nonlinear_arith)
        requires
            0 <= r,
            0 <= c < cols,
    ;
}

/// File offset of map tile `(r, c)` of the grid at `grid_offset`.
pub open spec fn tile_offset(grid_offset: int, r: int, c: int) -> int {
    grid_offset + (c / 16) * 144 + r * 16 + c % 16
}

/// File offset of map tile `(r, c)`.
pub fn map_tile_offset(grid_offset: usize, r: usize, c: usize) -> (o: usize)
    requires
        r < MAP_ROWS,
        grid_offset + (c / 16) * 144 + r * 16 + c % 16 <= usize::MAX,
    ensures
        o == tile_offset(grid_offset as int, r as int, c as int),
{
    grid_offset + (c / 16) * SCREEN_BYTES + r * SCREEN_COLS + c % 16
}

/// The map of `screens` screens at `grid_offset` lies in a ROM of `len`
/// bytes.
pub open spec fn grid_in_rom(len: int, grid_offset: int, screens: int) -> bool {
    grid_offset + screens * 144 <= len
}

/// Every on-grid tile of a `screens`-screen map lies inside it.
pub proof fn lemma_tile_offset_in_map(grid_offset: int, screens: int, r: int, c: int)
    requires
        0 <= r < 9,
        0 <= c < screens * 16,
    ensures
        grid_offset <= tile_offset(grid_offset, r, c) < grid_offset + screens * 144,
{
    let s = c / 16;
    assert(0 <= s < screens) by (nonlinear_arith)
        requires
            0 <= c < screens * 16,
            s == c / 16,
    ;
    assert(s * 144 + 144 <= screens * 144) by (nonlinear_arith)
        requires
            0 <= s < screens,
    ;
}

/// The grid read from a map of `screens` screens.
pub open spec fn grid_read(rom: Seq<u8>, grid_offset: int, screens: int) -> Seq<u8> {
    Seq::new(
        (9 * (screens * 16)) as nat,
        |i: int| rom[tile_offset(grid_offset, i / (screens * 16), i % (screens * 16))],
    )
}

/// Read a world's tile grid: 9 rows by 16 columns per screen.
pub fn read_tile_grid(rom: &Rom, grid_offset: usize, screens: usize) -> (g: Grid)
    requires
        1 <= screens <= 64,
        grid_in_rom(rom@.len() as int, grid_offset as int, screens as int),
    ensures
        g.wf(),
        g.rows == MAP_ROWS,
        g.cols == screens * 16,
        g.tiles@ == grid_read(rom@, grid_offset as int, screens as int),
        forall|r: int, c: int|
            g.contains(r, c) ==> #[trigger] g.at(r, c) == rom@[tile_offset(
                grid_offset as int,
                r,
                c,
            )],
{
    let total = rom.len();
    let cols = screens * SCREEN_COLS;
    let mut tiles: Vec<u8> = Vec::new();
    let mut r: usize = 0;
    while r < MAP_ROWS
        invariant
            r <= MAP_ROWS,
            cols == screens * 16,
            1 <= screens <= 64,
            total == rom@.len(),
            grid_in_rom(rom@.len() as int, grid_offset as int, screens as int),
            tiles@.len() == r * cols,
            forall|i: int, j: int|
                0 <= i < r && 0 <= j < cols ==> #[trigger] tiles@[i * cols + j] == rom@[tile_offset(
                    grid_offset as int,
                    i,
                    j,
                )],
        decreases MAP_ROWS - r,
    {
        let mut c: usize = 0;
        while c < cols
            invariant
                r < MAP_ROWS,
                c <= cols,
                cols == screens * 16,
                1 <= screens <= 64,
                total == rom@.len(),
                grid_in_rom(rom@.len() as int, grid_offset as int, screens as int),
                tiles@.len() == r * cols + c,
                forall|i: int, j: int|
                    0 <= i < r && 0 <= j < cols ==> #[trigger] tiles@[i * cols + j] == rom@[tile_offset(
                        grid_offset as int,
                        i,
                        j,
                    )],
                forall|j: int|
                    0 <= j < c ==> #[trigger] tiles@[r * cols + j] == rom@[tile_offset(
                        grid_offset as int,
                        r as int,
                        j,
                    )],
            decreases cols - c,
        {
            proof {
                lemma_tile_offset_in_map(grid_offset as int, screens as int, r as int, c as int);
            }
            let o = map_tile_offset(grid_offset, r, c);
            let t = rom.read_byte(o);
            let ghost before = tiles@;
            tiles.push(t);
            proof {
                assert forall|i: int, j: int|
                    0 <= i < r && 0 <= j < cols implies #[trigger] tiles@[i * cols + j] == before[i * cols
                        + j] by {
                    assert(i * cols + j < r * cols) by (nonlinear_arith)
                        requires
                            0 <= i < r,
                            0 <= j < cols,
                    ;
                }
            }
            c = c + 1;
        }
        proof {
            assert((r + 1) * cols == r * cols + cols) by (nonlinear_arith);
            assert forall|i: int, j: int|
                0 <= i < r + 1 && 0 <= j < cols implies #[trigger] tiles@[i * cols + j] == rom@[tile_offset(
                    grid_offset as int,
                    i,
                    j,
                )] by {
                if i == r {
                } else {
                    assert(i * cols + j < r * cols) by (nonlinear_arith)
                        requires
                            0 <= i < r,
                            0 <= j < cols,
                    ;
                }
            }
        }
        r = r + 1;
    }
    proof {
        let cn = cols as int;
        assert forall|i: int| 0 <= i < 9 * cn implies #[trigger] tiles@[i] == rom@[tile_offset(
            grid_offset as int,
            i / cn,
            i % cn,
        )] by {
            let q = i / cn;
            let m = i % cn;
            vstd::arithmetic::div_mod::lemma_fundamental_div_mod(i, cn);
            assert(0 <= q < 9 && 0 <= m < cn) by (nonlinear_arith)
                requires
                    0 <= i < 9 * cn,
                    cn > 0,
                    q == i / cn,
                    m == i % cn,
            ;
            assert(q * cn + m == i) by (nonlinear_arith)
                requires
                    i == cn * q + m,
            ;
            assert(tiles@[q * cn + m] == rom@[tile_offset(grid_offset as int, q, m)]);
        }
        assert(tiles@ =~= grid_read(rom@, grid_offset as int, screens as int));
    }
    Grid { rows: MAP_ROWS, cols, tiles }
}

} // verus!
