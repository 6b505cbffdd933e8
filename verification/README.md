# smb3r — verified ROM patches for a Super Mario Bros. 3 randomizer

A library of ROM-patching and randomization steps for Super Mario Bros. 3
(USA Rev 1), written in Verus. Every step states in its contract exactly
which bytes it writes, and Verus proves the code meets it.

## Layout

- `src/rom.rs` — the ROM image (`Rom`), viewed as a byte sequence, with
  bounds-checked reads and writes.
- `src/segment.rs`, `src/sorting.rs` — enemy/object segments and the stable
  sort by X they are stored in.
- `src/palettes.rs`, `src/palette_variants.rs` — character palettes, hue
  rotation on the NES colour wheel, and themed tileset palettes.
- `src/pipe_helpers.rs`, `src/pipes.rs` — pointer-table reading and
  re-sorting, pipe destination tables, and the pipe shuffle's ROM writes.
- `src/piranha_rooms.rs`, `src/piranha_visibility.rs`,
  `src/poison_mushroom.rs`, `src/podoboo_gauntlet.rs` — single-feature
  patches.
- `src/map_grid.rs` — a world's tile grid and where its tiles lie in the
  ROM.
- `src/overworld_pickup.rs` — clear and pick up: FX gaps opened, level-like
  nodes moved into the shuffle pool, their cells blanked with path nodes
  that fit the neighbouring paths.
- `src/overworld_writer/` — the deal of the pool onto the build's slots
  (`deal.rs`), tile-grid stamping (`grid.rs`), pointer-table entries and
  pipe destination tables (`pointers.rs`), march veto for wandering map
  objects, metatile and fortress-effect engine patches, W8 army sprite
  placement, piranha plant placement (`plants.rs`), and the interleaving of
  the Hammer Bro level pool by enemy set.
- `src/overworld_build.rs` — the slot, lock and world data the overworld
  builder hands the writer.
- `src/rng.rs` — the seeded generator (`rand_chacha::ChaCha8Rng`) and the
  draws made from it; each draw promises only the range it lands in.
- `src/bits.rs` — byte and word facts shared by the proofs.

Where a step reads ROM layout tables (a world's pointer table, its tile
grid, the pipe destination tables, free-space addresses), the caller passes
the offsets in: `WorldPointerTable`, `PipeWorld`, `PipeDestTables`, and the
`veto_base` / `salt_offset` parameters. The node catalog, the tile classes
(`NodeTiles`), the FX gap slots, the pipe and spade tiles, the vanilla
Hammer Bro data, the chest and hand levels (`DealTables`), the breadth-first
cell order of a world's map, and the map-object slots of the vanilla World 7
plants (`MapSpriteSlot`, for `clear_vanilla_plants`) come in the same way.

## Scope

- The deal honours two switches, `cross_world` and `shuffle_hammer_bros`;
  `piranha` decides where plant sprites go (`overworld_writer::plants`).
  The Friendlier Levels, Deja Vu and map-hint modes of the full randomizer
  are not part of this library: their deck rules, block lists and hint
  tiles are not implemented here. Army and plant sprites are written
  through `MapObjectSlot` locations the caller reads from the ROM's
  map-object tables; moving the Hammer Bro sprites is left to the caller.
- Themed palettes carry the curated variant table of the plains theme group
  only; the other groups have no variants and no rotate-only quartets here,
  so only their hue shift is drawn.
- Building the overworld itself (map walking, route choice, connectivity,
  lock placement) is outside the library; its results arrive as
  `BuiltWorld` values.

`tests/` runs every step on synthetic ROM images.
