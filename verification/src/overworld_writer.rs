//! Overworld writer pieces: engine patches applied alongside the overworld
//! rewrite, and the march-veto registry that keeps wandering map objects off
//! plant and army nodes.
pub mod assign;
pub mod deal;
pub mod grid;
pub mod march_veto;
pub mod metatiles;
pub mod plants;
pub mod pointers;
pub mod sprites;
pub mod types;
