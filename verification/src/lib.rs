//! Verified ROM-patching and randomization logic for a Super Mario Bros. 3
//! randomizer.
pub mod bits;
pub mod rng;
pub mod rom;
pub mod segment;
pub mod sorting;
pub mod map_grid;
pub mod overworld_build;
pub mod overworld_pickup;
pub mod overworld_writer;
pub mod palette_variants;
pub mod palettes;
pub mod pipe_helpers;
pub mod pipes;
pub mod piranha_rooms;
pub mod poison_mushroom;
pub mod podoboo_gauntlet;
pub mod piranha_visibility;
